use vstd::prelude::*;

verus! {

/// std's `io::Error`, carried through the library as an opaque value.
#[verifier::external_type_specification]
#[verifier::external_body]
pub struct ExIoError(std::io::Error);

/// The errors of the library and of the commands built on it.
#[derive(Debug)]
pub enum Error {
    IoError(std::io::Error),
    ParseError(String),
    CustomError(String),
}

impl Error {
    /// The text that describes the error, as it is shown to the user; for
    /// an I/O error, `IO Error: ` and the text that std displays for it.
    pub fn message(&self) -> (res: String)
        ensures
            match self {
                Error::IoError(e) => exists|t: String|
                    vstd::string::to_string_from_display_ensures::<std::io::Error>(e, t) && res@ == "IO Error: "@
                        + t@,
                Error::ParseError(msg) => res@ == "Parse Error: "@ + msg@,
                Error::CustomError(msg) => res@ == "Error: "@ + msg@,
            },
    {
        match self {
            Error::IoError(err) => {
                let mut res = String::from_str("IO Error: ");
                let text = err.to_string();
                res.append(text.as_str());
                res
            },
            Error::ParseError(msg) => {
                let mut res = String::from_str("Parse Error: ");
                res.append(msg.as_str());
                res
            },
            Error::CustomError(msg) => {
                let mut res = String::from_str("Error: ");
                res.append(msg.as_str());
                res
            },
        }
    }

    /// The error for a directory that does not exist.
    pub fn path_not_found(dir: &str) -> (res: Error)
        ensures
            res matches Error::CustomError(m) && m@ == "path does not exist: "@ + dir@,
    {
        let mut m = String::from_str("path does not exist: ");
        m.append(dir);
        Error::CustomError(m)
    }

    /// The lower-level error that caused this one, if any.
    pub fn source(&self) -> (res: Option<&std::io::Error>)
        ensures
            match self {
                Error::IoError(err) => res == Some(err),
                _ => res is None,
            },
    {
        match self {
            Error::IoError(err) => Some(err),
            Error::ParseError(_) => None,
            Error::CustomError(_) => None,
        }
    }
}

impl From<std::io::Error> for Error {
    fn from(err: std::io::Error) -> (res: Error) {
        Error::IoError(err)
    }
}

impl vstd::std_specs::convert::FromSpecImpl<std::io::Error> for Error {
    open spec fn obeys_from_spec() -> bool {
        true
    }

    open spec fn from_spec(err: std::io::Error) -> Error {
        Error::IoError(err)
    }
}

impl From<String> for Error {
    fn from(msg: String) -> (res: Error) {
        Error::CustomError(msg)
    }
}

impl vstd::std_specs::convert::FromSpecImpl<String> for Error {
    open spec fn obeys_from_spec() -> bool {
        true
    }

    open spec fn from_spec(msg: String) -> Error {
        Error::CustomError(msg)
    }
}

} // verus!
