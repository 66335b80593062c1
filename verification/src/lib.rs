//! Mark-Hulk: the logic of a lightweight Markdown viewer and editor.
//!
//! The library turns Markdown source into preview blocks and Pango markup,
//! builds the workspace tree, searches workspace files and picks themes.

pub mod text;
pub mod markdown;
pub mod fs;
pub mod style;
pub mod ui;
pub mod layout;
