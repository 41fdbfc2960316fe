//! Position translation and definition lookup for a language server: editor
//! positions (line, UTF-16 column) to byte offsets and back, a per-package
//! cache of definition indexes, and the resolution of a definition query.

pub mod codec;
pub mod text;
pub mod index;
pub mod cache;
pub mod resolver;
