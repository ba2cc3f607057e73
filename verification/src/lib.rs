//! The logic of a terminal ebook reader: the document model, layout, search,
//! annotations, the library and the journal they are folded from.
//!
//! Text is modelled as `Seq<char>` throughout; every position inside a block
//! counts characters, never bytes.

pub mod annotation;
pub mod app;
pub mod doc;
pub mod epub;
pub mod export;
pub mod failure;
pub mod find;
pub mod gather;
pub mod identity;
pub mod image;
pub mod input;
pub mod journal;
pub mod layout;
pub mod library;
pub mod mcp;
pub mod paths;
pub mod search;
pub mod session;
pub mod settings;
pub mod shelf;
pub mod sort;
pub mod table;
pub mod text;
pub mod theme;
pub mod ui;
pub mod xml;
