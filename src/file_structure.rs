//! Items of a source file as a language-specific analysis reports them.

use vstd::prelude::*;

verus! {

/// A position in a file: the file's id and a byte offset.
#[derive(Debug, Clone, Copy, PartialEq, Eq, Structural, Hash)]
pub struct FilePosition {
    pub file_id: u32,
    pub offset: u32,
}

/// The kind of an item.
#[derive(Debug, Clone, Copy, PartialEq, Eq, Structural)]
pub enum RItemType {
    Macro,
    Enum,
    Struct,
    Union,
    Trait,
    Impl,
    Func,
}

/// An item of a file, with the items nested in it.
#[derive(Debug)]
pub struct RItem {
    pub ident: String,
    pub ty: RItemType,
    pub pos: FilePosition,
    pub children: Option<Vec<RItem>>,
}

/// A file with its id and its items.
#[derive(Debug)]
pub struct File {
    pub path: String,
    pub file_id: u32,
    pub items: Vec<RItem>,
}

impl File {
    /// A file with no item yet.
    pub fn new(path: String, file_id: u32) -> (r: File)
        ensures
            r.path == path,
            r.file_id == file_id,
            r.items@.len() == 0,
    {
        File { path, file_id, items: Vec::new() }
    }
}

} // verus!
