//! Dictionary-driven span annotation for NER training corpora.
//!
//! Given a catalog of named entities (name/label pairs) and a corpus of text
//! documents, the library locates every boundary-correct occurrence of each
//! entity name inside each document, resolves duplicates and ordering, and
//! maintains reverse indices (label to documents, entity text to documents)
//! for later lookup.

pub mod boundary;
pub mod config;
pub mod document;
pub mod encoding;
pub mod entity;
pub mod hashing;
pub mod matcher;
pub mod models;
pub mod spans;
pub mod store;
pub mod text;

pub use config::{Config, Entities, Excludes, Filters, Format, Input, Logging, Output, Texts};
pub use document::Document;
pub use encoding::{char_to_byte, is_valid_utf8};
pub use entity::{Entity, ValidationError};
pub use hashing::hash_string;
pub use models::{SpacyEntity, Text};
pub use spans::Span;
pub use store::Quickner;
pub use text::{contains_numbers, contains_punctuation, is_alphanumeric};
