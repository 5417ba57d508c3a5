//! Locating a free-form text query inside a paragraph-indexed document.
//!
//! The document is an ordered sequence of paragraphs, each carrying a
//! structural location path. A search normalizes whitespace away, finds the
//! query in the concatenated normalized text, maps the match back to the
//! owning paragraphs, and renders the result as a compact range descriptor.

pub mod cfi;
pub mod index;
pub mod locate;
pub mod normalize;
