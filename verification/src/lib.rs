//! WYSIWYG surface of a Markdown editor: which source bytes are painted, how
//! painted text maps back to source, where the caret and the IME origin are,
//! and which image bytes may be shown.

pub mod approve;
pub mod ascii;
pub mod block_layout;
pub mod bytes;
pub mod caret;
pub mod caseless;
pub mod chrome;
pub mod code;
pub mod collect;
pub mod draft;
pub mod element;
pub mod geometry;
pub mod hex;
pub mod html_block;
pub mod html_tags;
pub mod image_source;
pub mod ime;
pub mod inline_layout;
pub mod layout;
pub mod leaf;
pub mod links;
pub mod paragraph;
pub mod path;
pub mod pieces;
pub mod prefix;
pub mod raster;
pub mod remote;
pub mod scene;
pub mod spans;
pub mod style;
pub mod text;
pub mod tree;
pub mod vertical;
pub mod visual;
pub mod walk;
pub mod wrap;
