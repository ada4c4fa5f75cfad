//! Pagify's PDF engine: the parts of it that decide things.
//!
//! Parsing and rewriting PDF files, the pixel buffers a page is drawn into,
//! the byte-budgeted page cache, DER framing for timestamps, PDF signature
//! byte ranges, and the small pieces of OCR preparation that are arithmetic
//! rather than models.

pub mod error;
pub mod text;
pub mod registry;
pub mod render;
pub mod pdf;
pub mod ocr;
pub mod engine;
