//! The digest algorithms and the orders that the commands offer, with their
//! names on the command line.
use vstd::prelude::*;
use crate::text::str_eq;

verus! {

/// A digest algorithm by which files are compared or named.
#[derive(Clone, Copy, Debug, PartialEq, Eq, Structural)]
#[allow(non_camel_case_types)]
pub enum FileHashType {
    MD5,
    SHA1,
    SHA256,
    SHA3_224,
    SHA3_256,
    SHA3_384,
    SHA3_512,
}

/// The name of a digest algorithm, as the command line writes it.
pub open spec fn hash_type_name(t: FileHashType) -> Seq<char> {
    match t {
        FileHashType::MD5 => "md5"@,
        FileHashType::SHA1 => "sha1"@,
        FileHashType::SHA256 => "sha256"@,
        FileHashType::SHA3_224 => "sha3-224"@,
        FileHashType::SHA3_256 => "sha3-256"@,
        FileHashType::SHA3_384 => "sha3-384"@,
        FileHashType::SHA3_512 => "sha3-512"@,
    }
}

/// The digest algorithm that a name on the command line stands for.
pub open spec fn hash_type_from_name(name: Seq<char>) -> Option<FileHashType> {
    if name == "md5"@ {
        Some(FileHashType::MD5)
    } else if name == "sha1"@ {
        Some(FileHashType::SHA1)
    } else if name == "sha256"@ {
        Some(FileHashType::SHA256)
    } else if name == "sha3-224"@ {
        Some(FileHashType::SHA3_224)
    } else if name == "sha3-256"@ {
        Some(FileHashType::SHA3_256)
    } else if name == "sha3-384"@ {
        Some(FileHashType::SHA3_384)
    } else if name == "sha3-512"@ {
        Some(FileHashType::SHA3_512)
    } else {
        None
    }
}

/// The algorithm that checks a pair of files again before one of them is
/// deleted: MD5, or SHA-1 where the pair was found by MD5.
pub open spec fn spec_second_digest(t: FileHashType) -> FileHashType {
    if t == FileHashType::MD5 {
        FileHashType::SHA1
    } else {
        FileHashType::MD5
    }
}

impl FileHashType {
    /// The name of the algorithm, as the command line writes it.
    pub fn name(&self) -> (res: String)
        ensures
            res@ == hash_type_name(*self),
    {
        match self {
            FileHashType::MD5 => String::from_str("md5"),
            FileHashType::SHA1 => String::from_str("sha1"),
            FileHashType::SHA256 => String::from_str("sha256"),
            FileHashType::SHA3_224 => String::from_str("sha3-224"),
            FileHashType::SHA3_256 => String::from_str("sha3-256"),
            FileHashType::SHA3_384 => String::from_str("sha3-384"),
            FileHashType::SHA3_512 => String::from_str("sha3-512"),
        }
    }

    /// The algorithm that `name` stands for, or `None` for an unknown name.
    pub fn from_name(name: &str) -> (res: Option<FileHashType>)
        ensures
            res == hash_type_from_name(name@),
    {
        if str_eq(name, "md5") {
            Some(FileHashType::MD5)
        } else if str_eq(name, "sha1") {
            Some(FileHashType::SHA1)
        } else if str_eq(name, "sha256") {
            Some(FileHashType::SHA256)
        } else if str_eq(name, "sha3-224") {
            Some(FileHashType::SHA3_224)
        } else if str_eq(name, "sha3-256") {
            Some(FileHashType::SHA3_256)
        } else if str_eq(name, "sha3-384") {
            Some(FileHashType::SHA3_384)
        } else if str_eq(name, "sha3-512") {
            Some(FileHashType::SHA3_512)
        } else {
            None
        }
    }

    /// The algorithm that checks a pair found by `self` once more before a
    /// deletion.
    pub fn second_digest(&self) -> (res: FileHashType)
        ensures
            res == spec_second_digest(*self),
    {
        if *self == FileHashType::MD5 {
            FileHashType::SHA1
        } else {
            FileHashType::MD5
        }
    }
}

/// Every algorithm's name is read back as that algorithm.
pub proof fn lemma_hash_type_name_round_trip(t: FileHashType)
    ensures
        hash_type_from_name(hash_type_name(t)) == Some(t),
{
    reveal_strlit("md5");
    reveal_strlit("sha1");
    reveal_strlit("sha256");
    reveal_strlit("sha3-224");
    reveal_strlit("sha3-256");
    reveal_strlit("sha3-384");
    reveal_strlit("sha3-512");
    assert("md5"@.len() == 3 && "sha1"@.len() == 4 && "sha256"@.len() == 6);
    assert("sha3-224"@.len() == 8 && "sha3-256"@.len() == 8);
    assert("sha3-384"@.len() == 8 && "sha3-512"@.len() == 8);
    assert("sha3-224"@[5] == '2' && "sha3-256"@[5] == '2' && "sha3-384"@[5] == '3'
        && "sha3-512"@[5] == '5');
    assert("sha3-224"@[6] == '2' && "sha3-256"@[6] == '5');
}

/// The check before a deletion uses another algorithm than the one that
/// found the pair.
pub proof fn lemma_second_digest_differs(t: FileHashType)
    ensures
        spec_second_digest(t) != t,
{
}

/// The order in which files are numbered when they are renamed by sequence.
#[derive(Clone, Copy, Debug, PartialEq, Eq, Structural)]
pub enum FileSort {
    Name,
    Time,
    Size,
}

/// The name of an order, as the command line writes it.
pub open spec fn file_sort_name(s: FileSort) -> Seq<char> {
    match s {
        FileSort::Name => "name"@,
        FileSort::Time => "time"@,
        FileSort::Size => "size"@,
    }
}

/// The order that a name on the command line stands for.
pub open spec fn file_sort_from_name(name: Seq<char>) -> Option<FileSort> {
    if name == "name"@ {
        Some(FileSort::Name)
    } else if name == "time"@ {
        Some(FileSort::Time)
    } else if name == "size"@ {
        Some(FileSort::Size)
    } else {
        None
    }
}

impl FileSort {
    /// The name of the order, as the command line writes it.
    pub fn name(&self) -> (res: String)
        ensures
            res@ == file_sort_name(*self),
    {
        match self {
            FileSort::Name => String::from_str("name"),
            FileSort::Time => String::from_str("time"),
            FileSort::Size => String::from_str("size"),
        }
    }

    /// The order that `name` stands for, or `None` for an unknown name.
    pub fn from_name(name: &str) -> (res: Option<FileSort>)
        ensures
            res == file_sort_from_name(name@),
    {
        if str_eq(name, "name") {
            Some(FileSort::Name)
        } else if str_eq(name, "time") {
            Some(FileSort::Time)
        } else if str_eq(name, "size") {
            Some(FileSort::Size)
        } else {
            None
        }
    }
}

/// Every order's name is read back as that order.
pub proof fn lemma_file_sort_name_round_trip(s: FileSort)
    ensures
        file_sort_from_name(file_sort_name(s)) == Some(s),
{
    reveal_strlit("name");
    reveal_strlit("time");
    reveal_strlit("size");
    assert("name"@[0] == 'n' && "time"@[0] == 't' && "size"@[0] == 's');
}

} // verus!
