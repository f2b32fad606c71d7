//! A small parser for the URIs that appear in HTTP request lines.
//!
//! A URI is split along its delimiters into scheme, authority, path, query and
//! fragment. Every component is a view into the input; nothing is decoded.
//! Each parser is verified against a model over sequences of characters.

pub mod resource;
pub mod scheme;
pub mod text;
pub mod uri;

pub use resource::HttpResource;
pub use scheme::HttpScheme;
pub use uri::HttpUri;
