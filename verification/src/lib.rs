//! Derives a normalized, filesystem-safe "author/title" identity for EPUB
//! e-books: streaming extraction of Dublin Core metadata from the container
//! and package documents, and an ordered text-normalization pipeline for the
//! extracted author and title strings.

pub mod chars;
pub mod strings;
pub mod xml;
pub mod error;
pub mod epub;
pub mod params;
