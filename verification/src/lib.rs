//! Layout analysis for text extracted from PDF pages: reading order, lines,
//! paragraphs with roles, tables, and UTF-16 spans into the document text.
pub mod text;
pub mod sort;
pub mod types;
pub mod reading_order;
pub mod content;
pub mod paragraphs;
pub mod chunk;
pub mod error;
pub mod pdf;
pub mod tables;
pub mod laws;
pub mod bounds;
pub mod joining;
pub mod partition;
pub mod guarantees;
