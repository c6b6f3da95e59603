//! The capability surface of a storage backend.
use vstd::prelude::*;
use vstd::string::StringExecFns;

verus! {

pub trait Provider {
    fn name(&self) -> &'static str;

    fn type_(&self) -> ProviderType;
}

pub trait ReadProvider: Provider {
    /// The direct entries of the directory at `path`; `None` where it does not
    /// exist.
    fn list_directory(&self, path: &str) -> Result<Option<Vec<File>>, String>;
}

#[derive(PartialEq, Eq, Structural)]
pub enum ProviderType {
    Local,
    Cloud,
}

pub struct File {
    pub name: String,
    pub type_: FileType,
}

#[derive(Debug, PartialEq, Eq, Structural)]
pub enum FileType {
    File,
    Directory,
    Other,
}

impl FileType {
    /// How the kind of entry reads in messages.
    pub fn to_string(&self) -> (r: String)
        ensures
            r@ == (if *self == FileType::Directory {
                "directory"@
            } else {
                "file"@
            }),
    {
        match self {
            FileType::Directory => String::from_str("directory"),
            FileType::File | FileType::Other => String::from_str("file"),
        }
    }
}

} // verus!
