//! Verified core of the MarkForge Markdown viewer.

pub mod archive;
pub mod docx;
pub mod file_tree;
pub mod git;
pub mod hwpx;
pub mod import;
pub mod notes;
pub mod order;
pub mod pdf;
pub mod search;
pub mod settings;
pub mod syntax_theme;
pub mod xml;
pub mod text;
pub mod view;
