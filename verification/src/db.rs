//! The records the library keeps: documents and folders.
use vstd::prelude::*;

verus! {

/// A document of the library.
#[derive(Clone, Debug)]
pub struct Document {
    pub id: String,
    pub title: String,
    pub file_name: String,
    /// Path of the copy inside the library directory, e.g. `"abc123.html"`.
    pub library_path: String,
    pub file_size: u64,
    /// Plain-text summary shown on the document's card.
    pub summary: String,
    /// Import time, Unix milliseconds.
    pub imported_at: i64,
    /// Creation time of the source file, Unix milliseconds.
    pub source_created_at: i64,
    /// The folder it lies in; `None` at the top.
    pub folder_id: Option<String>,
}

/// A folder of the library: level 1 lies at the top, 2 and 3 below.
#[derive(Clone, Debug)]
pub struct Folder {
    pub id: String,
    pub name: String,
    /// The folder it lies in; `None` at the top (level 1).
    pub parent_id: Option<String>,
    /// Creation time, Unix milliseconds.
    pub created_at: i64,
    /// 1, 2 or 3.
    pub level: i64,
}

} // verus!
