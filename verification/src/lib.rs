//! Asymmetric int8-query by fused-table MaxSim over packed residual codes.
//!
//! The stage-2 scoring kernel of a ColBERT / PLAID-style late interaction
//! engine: score one candidate document's *stored* residual codes against a
//! query, without decompressing the document to floats first.
//!
//! ```text
//! q . token  =  q . centroid[cid]                   (optional, supplied by the host)
//!            +  sum_d q_d * bucket_weight[code_d]   (int8 query by int8 table, integer MACs)
//! score      =  sum_q max_t (q . token_t) * inv_norm_t
//! ```
//!
//! The document side is a table that turns each packed residual *byte*
//! straight into its `8/nbits` int8 bucket weights ([`Lut`]). The query side
//! is int8 codes with one scale per row ([`PreparedQuery`]). A [`Scorer`]
//! binds the two, plus the host's optional centroid term, and scores
//! [`DocView`]s: borrowed slices pointing at wherever the host keeps its
//! bytes.
//!
//! # What is proved
//!
//! What a score is, is one relation ([`scorer::ScorerView::scored`]): the
//! exact integer dot product of every (query row, token), the order in which
//! the host's arithmetic is applied to it, the choice of the best token and
//! the order of the final sum. The scalar reference and the five vector
//! kernels are all proved to meet it, so they return the same bits, and which
//! of them runs can only change speed.
//!
//! A vector kernel follows its instruction set's expansion, block shapes and
//! order of accumulation, and carries each instruction out lane by lane in
//! safe code ([`kernel`]): no instruction of that name is issued by this
//! crate, and a machine need not have it to run the kernel. What is proved is
//! the kernels' arithmetic; their speed is that of what the compiler makes of
//! it.
//!
//! What the calls return is told a second time over the slices a host hands
//! in, without that relation, and how several calls go together ([`laws`]).
//!
//! Single-precision values are carried as their bit patterns, and the five
//! operations that round are the host's ([`Arith`]).
//!
//! # Preconditions the host must know
//!
//! * `dim * nbits` must be a multiple of 8 (whole packed bytes) and `dim <= 256`.
//! * The vector kernels need `dim % 8 == 0`; other dims score correctly on the
//!   scalar path. [`Lut::kernel`] tells which path will run.
//! * A document's packed rows must be contiguous, one row per token, at a
//!   fixed `row_stride` of at least `dim / (8/nbits)` bytes, and must hold at
//!   least `n_tokens * row_stride` bytes: the last row has its padding too.

mod bits;
pub mod codes;
mod error;
pub mod float;
pub mod kernel;
pub mod laws;
pub mod lut;
pub mod packing;
pub mod query;
pub mod scorer;
mod sums;
pub mod text;

pub use codes::Codes;
pub use error::{Error, MAX_DIM};
pub use float::Arith;
pub use kernel::calibrate::warm_up;
pub use kernel::dispatch::{supported_kernels, CpuFeatures, Dispatch};
pub use kernel::{Kernel, ScalarReason};
pub use lut::{Lut, NibbleTables};
pub use packing::{ColbertPacking, Packing};
pub use query::PreparedQuery;
pub use scorer::{DocView, Scorer};
