//! Verified storage core of a markdown note manager.
//!
//! A note is identified by a title: a slash-separated relative path without
//! the `.md` extension. Notes live in a directory tree; this crate models
//! that tree as a value and verifies every storage operation against a
//! mathematical model of it: path resolution, recursive listing, keyword
//! search with lazy content inspection, removal with empty-parent pruning,
//! moving, and recursive export/import copies.
use vstd::prelude::*;

mod strings;
pub mod fstree;
pub mod storage;
pub mod laws;

verus! {

/// Builds the absolute path of a note file: `<base>/<title>.md`, or the
/// base directory itself when the title is empty.
pub fn resolve_path(base: &str, title: &str) -> (r: String)
    ensures
        title@.len() == 0 ==> r@ == base@,
        title@.len() > 0 ==> r@ == base@ + "/"@ + title@ + ".md"@,
{
    let mut r = base.to_owned();
    if !title.is_empty() {
        r.append("/");
        r.append(title);
        r.append(".md");
    }
    r
}

/// The command selected for one invocation, with its arguments.
pub enum Commands {
    /// Create or edit a note.
    Write { title: String },
    /// Search titles and contents for a keyword.
    Search { keyword: String },
    /// Print a note's content.
    Get { title: String },
    /// Remove a note or a folder.
    Remove { title: String },
    /// Move or rename a note.
    Move { from: String, to: String },
    /// Export a folder (or everything) to a destination.
    Export { folder: String, destination: String },
    /// Import notes from an external folder.
    Import { source: String },
    /// List notes, optionally below one folder.
    List { path: Option<String> },
}

/// One parsed invocation: the command and the verbosity toggle.
pub struct Args {
    pub cmd: Commands,
    pub verbose: bool,
}

} // verus!
