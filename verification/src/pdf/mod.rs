//! Just enough of a PDF file to change one object and leave the rest alone.
//!
//! Reads classic cross-reference tables and plain objects — what PDFium
//! writes — and refuses cross-reference streams and object streams whole
//! rather than half-reading them.

pub mod cmap;
pub mod cms;
pub mod content;
pub mod embed;
pub mod encrypt;
pub mod hashing;
pub mod hidden;
pub mod object;
pub mod reader;
pub mod sign;
pub mod strings;
pub mod timestamp;
pub mod validate;

pub use object::{Dict, Object};
pub use reader::{write_object, write_stream, File};
