//! Rewrites fenced code blocks that carry the `godbolt` annotation into HTML
//! fragments, leaving every other byte of a chapter as it was.
//!
//! A chapter goes through these steps: the markdown scanner reports its
//! events ([`scan`]), the fenced blocks among them are located, the info
//! string of each is parsed ([`info`]), the code body of an annotated block is
//! cut out ([`body`]), rendered and wrapped ([`render`]), and the fragments
//! are patched into the text from the last span to the first ([`patch`]).
//! [`preprocess`] puts the steps together for one chapter, [`book`] for the
//! chapters of a book. Contracts speak of texts as their UTF-8 bytes
//! ([`text`]), since the scanner's spans are byte offsets.

pub mod body;
pub mod book;
pub mod info;
pub mod patch;
pub mod preprocess;
pub mod render;
pub mod scan;
pub mod text;
pub mod version;

pub use body::{body_start_index, strip_godbolt_from_codeblock};
pub use book::{Chapter, GodboltPreprocessor};
pub use info::{parse_info_str, ParsedMeta};
pub use patch::{apply_patches, PatchEntry};
pub use preprocess::preprocess;
pub use render::{Godbolt, RenderFailure};
