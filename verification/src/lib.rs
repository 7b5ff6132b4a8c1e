//! Content fingerprints for tabular data.
//!
//! A typed table is brought into one canonical row order, written out as one
//! canonical byte sequence and reduced to a SHA-256 digest, so that two tables
//! holding the same rows in any order have the same fingerprint, and tables that
//! differ have different ones.
//!
//! The parts, leaves first:
//!
//! - [`table`]: the typed table and what it means for it to be well formed;
//! - [`order`]: the total order of cells and rows, on [`relation`] and [`decimal`];
//! - [`sorter`]: the canonical sorter, a merge sort;
//! - [`serializer`]: the canonical serializer, comma-separated values;
//! - [`hasher`]: the content hasher, SHA-256 in hexadecimal;
//! - [`comparator`]: equality of two tables as datasets;
//! - [`report`]: what a run over several inputs reports;
//! - [`float_text`]: the text in which floats are taken over;
//! - [`laws`]: what holds of the parts together, with [`fields`], [`reading`]
//!   and [`numeric`] for the proofs.
//!
//! What is fixed here once and for all: null sorts before every value; NaN sorts
//! after every number, infinity included; there is one zero and one NaN; text is
//! ordered by its UTF-8 bytes; lines end in a line feed.

pub mod comparator;
pub mod decimal;
pub mod fields;
pub mod float_text;
pub mod hasher;
pub mod laws;
pub mod numeric;
pub mod order;
pub mod reading;
pub mod relation;
pub mod report;
pub mod serializer;
pub mod sorter;
pub mod table;

pub use comparator::frames_equal;
pub use hasher::{compute_frame_hash, hash_bytes};
pub use report::{check_request, run, Input, Report};
pub use serializer::{serialize_frame, SerializationError};
pub use sorter::sort_frame;
pub use table::{Column, ColumnType, FloatValue, TypedTable, Value};
