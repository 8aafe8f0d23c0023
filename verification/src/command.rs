//! The commands of the tool and their arguments.
use vstd::prelude::*;
use crate::enumerate::{FileHashType, FileSort};
use crate::error::Error;

verus! {

/// A command that can be run.
pub trait CommandExec {
    fn exec(&self) -> Result<(), Error>;
}

/// The commands of the tool.
pub enum Commands {
    /// Manage files.
    File(FileCommand),
}

/// The commands that manage files.
pub enum FileCommand {
    /// List duplicate files.
    DupList(DupListArgs),
    /// Delete duplicate files.
    DupDel(DupDelArgs),
    /// Rename files by a rule.
    Rename(RenameArgs),
}

/// Arguments of the listing of duplicate files.
pub struct DupListArgs {
    /// The directory to search.
    pub dir: String,
    /// Where to save the listing; printed where absent.
    pub output: Option<String>,
    /// Whether to search subdirectories too.
    pub recursive: bool,
    /// The digest that tells files apart.
    pub digest: FileHashType,
}

/// Arguments of the deletion of duplicate files.
pub struct DupDelArgs {
    /// The directory to search.
    pub dir: String,
    /// Whether to search subdirectories too.
    pub recursive: bool,
    /// The digest that tells files apart.
    pub digest: FileHashType,
    /// Paths whose files are kept.
    pub protect: Option<Vec<String>>,
}

impl DupDelArgs {
    /// The protected paths: those given, or none.
    pub fn protected_list(&self) -> (res: Vec<String>)
        ensures
            match self.protect {
                Some(list) => res@ == list@,
                None => res@.len() == 0,
            },
    {
        match &self.protect {
            Some(list) => list.clone(),
            None => Vec::new(),
        }
    }
}

/// The rule by which files are renamed; exactly one is chosen.
pub struct NamingRuleArgs {
    pub sequence: bool,
    pub md5: bool,
    pub sha1: bool,
    pub sha256: bool,
    pub sha3_224: bool,
    pub sha3_256: bool,
    pub sha3_384: bool,
    pub sha3_512: bool,
}

/// The order in which files are numbered when renamed by sequence.
pub struct SeqSortArgs {
    pub sort: FileSort,
    pub asc: bool,
    pub desc: bool,
}

/// Arguments of the renaming of files.
pub struct RenameArgs {
    /// The directory whose files are renamed.
    pub dir: String,
    pub naming_rule: NamingRuleArgs,
    /// Write the digest in upper case.
    pub upper: bool,
    /// Write the digest in lower case: the default already, and yielding to
    /// `upper` where both are set.
    pub lower: bool,
    /// Write the extension in upper case.
    pub upper_ext: bool,
    /// Write the extension in lower case.
    pub low_ext: bool,
    /// The width of sequence numbers.
    pub seq_len: usize,
    pub seq_sort: SeqSortArgs,
    /// Text put before the new name.
    pub prefix: Option<String>,
    /// Text put after the new name, before the extension.
    pub suffix: Option<String>,
    /// Names of files and directories that renaming leaves alone, besides
    /// the hidden ones (see `RenameArgs::skips`).
    pub ignore: Vec<String>,
}

/// Arguments of the older duplicate search, which hashes every file.
pub struct DupArgs {
    /// The directory to search.
    pub dir: String,
    /// Where to save the report; in the searched directory where empty.
    pub output: String,
}

/// The older duplicate search, which hashes every file under a directory
/// with SHA3-256 and writes a report of the duplicates.
pub struct DupCommand {}

} // verus!
