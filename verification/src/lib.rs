//! A structural CSV indexer.
//!
//! The library scans a byte buffer and emits, for each row, the half-open
//! byte ranges of its fields.  It copies no payload bytes and performs no
//! unescaping: the output is a structural index into the original input.
//!
//! The pipeline has three stages:
//! 1. a classifier ([`classifier::CsvClassifier`]) that tags every byte with
//!    one of four classes (comma, newline, quotation, other) using 16-lane
//!    nibble table lookups;
//! 2. a bitmap builder that packs the class tags into three streams of
//!    64-bit words, one per class, with the earliest byte of each 64-byte
//!    chunk in the most significant bit;
//! 3. a row emitter ([`reader::CsvReader`]) that removes escaped quote
//!    pairs, masks out characters inside quoted regions with a
//!    parallel-prefix XOR, and peels the surviving structural bits to emit
//!    field and row boundaries.

pub mod bits;
pub mod classifier;
pub mod reader;
pub mod u8x16;
