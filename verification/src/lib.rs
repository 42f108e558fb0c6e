//! Verified core of a page-layout editor: text frames with formatted spans,
//! undo history, linked text chains and the document model around them.

pub mod utf8_text;
pub mod format;
pub mod format_laws;
pub mod text_box;
pub mod text_box_laws;
pub mod frame_laws;
pub mod image_box;
pub mod svg_box;
pub mod document;
pub mod chain;
pub mod reflow;
pub mod editing;
pub mod chain_edit;
pub mod master_pages;
pub mod text_commands;
pub mod selection_info;
pub mod persistence;
pub mod text_flow;
pub mod display;
