use vstd::prelude::*;
use vstd::string::*;

use crate::paths::same_text;

verus! {

/// Kind of an indexed filesystem entry.
#[derive(Debug, Clone, Copy, PartialEq, Eq, Structural)]
pub enum FileType {
    File,
    Folder,
}

/// Text stored for each kind.
pub open spec fn file_type_text(t: FileType) -> Seq<char> {
    match t {
        FileType::File => "file"@,
        FileType::Folder => "folder"@,
    }
}

impl FileType {
    pub fn to_string(&self) -> (r: String)
        ensures
            r@ == file_type_text(*self),
    {
        match self {
            FileType::Folder => String::from_str("folder"),
            FileType::File => String::from_str("file"),
        }
    }

    /// The kind whose stored text is `s`, if any.
    pub fn parse(s: &str) -> (r: Option<FileType>)
        ensures
            match r {
                Some(t) => file_type_text(t) == s@,
                None => s@ != "file"@ && s@ != "folder"@,
            },
    {
        let file = String::from_str("file");
        let folder = String::from_str("folder");
        if same_text(s, file.as_str()) {
            Some(FileType::File)
        } else if same_text(s, folder.as_str()) {
            Some(FileType::Folder)
        } else {
            None
        }
    }
}

} // verus!
