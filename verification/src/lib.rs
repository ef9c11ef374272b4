//! Indexing of Org-roam notes.
//!
//! - [`text`], [`table`] and [`lisp`]: strings, ordered maps and printed Lisp
//!   data.
//! - [`keyword`]: the title, the properties, the tags and the aliases in the
//!   text of a note, and where the text of a heading ends.
//! - [`outline`]: the headings of a note as a tree.
//! - [`path`]: which files are notes, and how they are listed.
//! - [`note`]: the rows that a note contributes to the database.
//! - [`hash`] and [`sync`]: which notes have changed, and the statements that
//!   bring the database up to date.
//! - [`db`]: what those statements achieve.

pub mod db;
pub mod hash;
pub mod keyword;
pub mod lisp;
pub mod note;
pub mod outline;
pub mod path;
pub mod sync;
pub mod table;
pub mod text;
