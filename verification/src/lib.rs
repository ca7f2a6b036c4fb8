//! Verified core of a split-pane Markdown editor: block splitting for the
//! incremental preview, fence tracking, table layout, inline source
//! colouring, the editing buffer and the find / replace logic.

pub mod text;
pub mod blocks;
pub mod style;
pub mod highlight;
pub mod hashing;
pub mod table;
pub mod markdown;
pub mod preview;
pub mod buffer;
pub mod editor;
pub mod session;
