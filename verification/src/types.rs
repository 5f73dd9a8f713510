//! The document model handed to callers.
//!
//! Coordinates and lengths are fixed-point numbers: integers counting
//! 1/1024 of a PDF point (see `UNITS_PER_POINT`).
use vstd::prelude::*;

verus! {

/// Fixed-point resolution: one PDF point is this many units.
pub const UNITS_PER_POINT: i64 = 1024;

/// A span referencing a range in the full document content string,
/// in UTF-16 code units (JavaScript string indices).
#[derive(Clone, Copy, Debug, PartialEq, Eq, Structural)]
pub struct Span {
    pub offset: i32,
    pub length: i32,
}

/// A bounding region on a specific page.
#[derive(Debug)]
pub struct BoundingRegion {
    pub page_number: i32,
    /// [x1,y1, x2,y2, x3,y3, x4,y4] in fixed-point units
    pub polygon: Vec<i64>,
}

/// A paragraph of text with optional role annotation.
#[derive(Debug)]
pub struct Paragraph {
    pub content: String,
    pub role: Option<String>,
    pub spans: Vec<Span>,
    pub bounding_regions: Vec<BoundingRegion>,
}

/// A single cell in a table.
#[derive(Debug)]
pub struct TableCell {
    pub content: String,
    pub kind: Option<String>,
    pub row_index: i32,
    pub column_index: i32,
    pub bounding_regions: Vec<BoundingRegion>,
    pub spans: Vec<Span>,
}

/// A table detected in the document.
#[derive(Debug)]
pub struct Table {
    pub row_count: i32,
    pub column_count: i32,
    pub cells: Vec<TableCell>,
    pub bounding_regions: Vec<BoundingRegion>,
    pub spans: Vec<Span>,
}

/// A single page's metadata.
#[derive(Clone, Copy, Debug, PartialEq, Eq, Structural)]
pub struct Page {
    pub page_number: i32,
    pub width: i64,
    pub height: i64,
}

/// The full extracted document.
#[derive(Debug)]
pub struct Document {
    pub content: String,
    pub pages: Vec<Page>,
    pub paragraphs: Vec<Paragraph>,
    pub tables: Vec<Table>,
}

} // verus!
