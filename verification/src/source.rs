//! What came of reading a source.

use vstd::prelude::*;

use crate::error::Error;

verus! {

/// What came of reading a text file.
#[derive(Debug, Clone)]
pub enum FileRead {
    Contents(String),
    /// The file does not exist.
    NotFound,
    /// The file could not be read for another reason.
    Failed,
}

/// What a [`FileRead`] says.
pub enum FileView {
    Contents(Seq<char>),
    NotFound,
    Failed,
}

impl View for FileRead {
    type V = FileView;

    open spec fn view(&self) -> FileView {
        match self {
            FileRead::Contents(text) => FileView::Contents(text@),
            FileRead::NotFound => FileView::NotFound,
            FileRead::Failed => FileView::Failed,
        }
    }
}

/// What came of listing a directory.
#[derive(Debug, Clone)]
pub enum Listing<T> {
    Entries(Vec<T>),
    /// The directory does not exist.
    NotFound,
    /// The directory could not be opened for another reason.
    Failed,
    /// The directory was opened, but not every entry could be read.
    Broken,
}

/// The message for a file that could not be read.
pub open spec fn unreadable(path: Seq<char>) -> Seq<char> {
    "reading "@ + path
}

pub fn unreadable_error(path: &str) -> (r: Error)
    ensures
        r@ == unreadable(path@),
{
    let mut m = "reading ".to_owned();
    m.push_str(path);
    Error::new(m)
}

/// The message for a directory of which not every entry could be read.
pub open spec fn broken(path: Seq<char>) -> Seq<char> {
    "iterating "@ + path
}

pub fn broken_error(path: &str) -> (r: Error)
    ensures
        r@ == broken(path@),
{
    let mut m = "iterating ".to_owned();
    m.push_str(path);
    Error::new(m)
}

} // verus!
