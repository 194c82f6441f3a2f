use vstd::prelude::*;

/// Shared field parsers and byte-level primitives used by several codecs.
pub mod common;
/// The fixed-framed binary codec.
pub mod yp_bank_bin_format;
/// The header-delimited CSV codec.
pub mod yp_bank_csv_format;
/// The `KEY: value` block text codec.
pub mod yp_bank_text_format;

verus! {

/// The wire formats this library can read and write.
#[derive(Clone, Copy, PartialEq, Eq, Structural, Debug)]
pub enum Format {
    /// `KEY: value` block text format.
    Text,
    /// Header-delimited CSV format.
    Csv,
    /// Fixed-framed binary format.
    Binary,
}

} // verus!
