//! What building a table or a query, or checking a shape, can report.
use crate::text::{decimal, push_decimal};
use vstd::prelude::*;

verus! {

/// Highest embedding dimension the kernels support. The expansion buffer is
/// `[i8; 256]` and the widest dot reads it in 64-lane chunks, which
/// `dim <= 256` keeps in bounds for every byte-aligned `dim`.
pub const MAX_DIM: usize = 256;

/// Errors from building tables and queries or from shape validation.
#[derive(Debug, Clone, PartialEq, Eq)]
pub enum Error {
    /// `nbits` must be 1, 2, 4 or 8.
    NbitsUnsupported(usize),
    /// Expected `2^nbits` bucket weights.
    BucketCount {
        /// `2^nbits`.
        expected: usize,
        /// What was passed.
        got: usize,
    },
    /// `dim * nbits` is not a multiple of 8, so rows would not be whole bytes.
    DimNotByteAligned {
        /// The embedding dimension.
        dim: usize,
        /// The code width.
        nbits: usize,
    },
    /// `dim` exceeds [`MAX_DIM`].
    DimTooLarge(usize),
    /// A slice length or stride does not match the declared shape.
    Shape(String),
    /// The query was prepared against a different table.
    LutMismatch,
}

impl Error {
    /// The message shown for this error.
    pub open spec fn text(&self) -> Seq<char> {
        match *self {
            Error::NbitsUnsupported(n) => "nbits must be 1, 2, 4 or 8, got "@ + decimal(n as nat),
            Error::BucketCount { expected, got } => "expected "@ + decimal(expected as nat)
                + " bucket weights (2^nbits), got "@ + decimal(got as nat),
            Error::DimNotByteAligned { dim, nbits } => "dim "@ + decimal(dim as nat) + " × nbits "@
                + decimal(nbits as nat) + " is not a multiple of 8"@,
            Error::DimTooLarge(d) => "dim "@ + decimal(d as nat) + " exceeds MAX_DIM "@ + decimal(
                MAX_DIM as nat,
            ),
            Error::Shape(s) => "shape mismatch: "@ + s@,
            Error::LutMismatch => "query was prepared against a different Lut"@,
        }
    }

    /// The message shown for this error.
    pub fn message(&self) -> (s: String)
        ensures
            s@ == self.text(),
    {
        let mut s: String = String::new();
        match self {
            Error::NbitsUnsupported(n) => {
                s.append("nbits must be 1, 2, 4 or 8, got ");
                push_decimal(&mut s, *n as u128);
            },
            Error::BucketCount { expected, got } => {
                s.append("expected ");
                push_decimal(&mut s, *expected as u128);
                s.append(" bucket weights (2^nbits), got ");
                push_decimal(&mut s, *got as u128);
            },
            Error::DimNotByteAligned { dim, nbits } => {
                s.append("dim ");
                push_decimal(&mut s, *dim as u128);
                s.append(" × nbits ");
                push_decimal(&mut s, *nbits as u128);
                s.append(" is not a multiple of 8");
            },
            Error::DimTooLarge(d) => {
                s.append("dim ");
                push_decimal(&mut s, *d as u128);
                s.append(" exceeds MAX_DIM ");
                push_decimal(&mut s, MAX_DIM as u128);
            },
            Error::Shape(detail) => {
                s.append("shape mismatch: ");
                s.append(detail.as_str());
            },
            Error::LutMismatch => {
                s.append("query was prepared against a different Lut");
            },
        }
        assert(s@ =~= self.text());
        s
    }
}

} // verus!
