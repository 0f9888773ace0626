//! Converts tree-shaped, doxygen-style markup event streams into formatted
//! troff man-page text: a document-model builder folds a flat event sequence
//! into functions, structures and defines; a structure resolver fills in
//! forward-referenced aggregates; a layout engine emits column-aligned,
//! pointer-normalized pages.
pub mod builder;
pub mod format;
pub mod laws;
pub mod model;
pub mod page;
pub mod reader;
pub mod resolver;
pub mod text;
