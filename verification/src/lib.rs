//! Conversion between the Netscape Bookmark HTML format (what every
//! browser produces via "export bookmarks") and `bkj`, a one-object-per-line
//! JSON format meant to be easy to diff and pipe through other tools.
//!
//! Every public function here is pure: text in, data out, or data in, text
//! out. Each is specified over `BookmarkView`, the mathematical model of a
//! bookmark, and over the characters of the text.
use vstd::prelude::*;

pub mod bkj;
pub mod html;
pub mod int_text;
pub mod json;
pub mod json_laws;
pub mod json_scan;
pub mod netscape;
pub mod netscape_laws;
pub mod netscape_lines;
pub mod netscape_shape;
pub mod netscape_tree;
pub mod text;

pub use bkj::{parse_bkj, write_bkj};
pub use netscape::{parse_netscape, write_netscape};



verus! {

/// One bookmark.
#[derive(Debug, Clone, PartialEq)]
pub struct Bookmark {
    pub title: String,
    pub url: String,
    /// Folder path from root to the bookmark's containing folder, e.g.
    /// `["Work", "Reading"]`. Empty when the bookmark isn't in a folder.
    pub folder: Vec<String>,
    /// Seconds since the Unix epoch, taken from `ADD_DATE` when present.
    pub added: Option<i64>,
}

/// The mathematical model of a bookmark: its texts as character sequences.
pub struct BookmarkView {
    pub title: Seq<char>,
    pub url: Seq<char>,
    pub folder: Seq<Seq<char>>,
    pub added: Option<i64>,
}

impl View for Bookmark {
    type V = BookmarkView;

    open spec fn view(&self) -> BookmarkView {
        BookmarkView {
            title: self.title@,
            url: self.url@,
            folder: self.folder.deep_view(),
            added: self.added,
        }
    }
}

/// The models of a list of bookmarks.
pub open spec fn bookmarks_view(bs: Seq<Bookmark>) -> Seq<BookmarkView> {
    bs.map_values(|b: Bookmark| b@)
}

} // verus!
