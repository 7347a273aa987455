//! What is said of what went wrong, told over the numbers in it.
use crate::codes::Codes;
use crate::error::Error;
use crate::float::Arith;
use crate::kernel::dispatch::Dispatch;
use crate::lut::Lut;
use crate::packing::lemma_keys_at;
use crate::query::PreparedQuery;
use crate::scorer::{first_stray, DocView, Scorer};
use crate::text::decimal;
use vstd::prelude::*;

verus! {

/// The message of an error names the numbers it carries, in numerals (what a
/// numeral is, [`super::numbers::a_numeral_reads_back_as_its_number`] says).
pub proof fn a_message_names_its_numbers(e: Error, s: String)
    requires
        call_ensures(Error::message, (&e,), s),
    ensures
        e matches Error::NbitsUnsupported(n) ==> s@ == "nbits must be 1, 2, 4 or 8, got "@ + decimal(
            n as nat,
        ),
        e matches Error::BucketCount { expected, got } ==> s@ == "expected "@ + decimal(
            expected as nat,
        ) + " bucket weights (2^nbits), got "@ + decimal(got as nat),
        e matches Error::DimNotByteAligned { dim, nbits } ==> s@ == "dim "@ + decimal(dim as nat)
            + " × nbits "@ + decimal(nbits as nat) + " is not a multiple of 8"@,
        e matches Error::DimTooLarge(d) ==> s@ == "dim "@ + decimal(d as nat) + " exceeds MAX_DIM "@
            + decimal(256),
        e matches Error::Shape(d) ==> s@ == "shape mismatch: "@ + d@,
        e is LutMismatch ==> s@ == "query was prepared against a different Lut"@,
{
}

/// What is said of a query of the wrong length.
pub proof fn a_query_of_the_wrong_length_is_told_so<A: Arith>(
    lut: &Lut,
    query: &[u32],
    n_tokens: usize,
    dim: usize,
    m: String,
)
    requires
        call_ensures(
            PreparedQuery::new::<A>,
            (lut, query, n_tokens, dim),
            Err(Error::Shape(m)),
        ),
    ensures
        m@ == "query has "@ + decimal(query@.len()) + " values, expected n_tokens "@ + decimal(
            n_tokens as nat,
        ) + " × dim "@ + decimal(dim as nat),
{
}

/// What is said of a centroid term of the wrong length.
pub proof fn a_centroid_term_of_the_wrong_length_is_told_so(
    s: Scorer,
    c: &[u32],
    num: usize,
    m: String,
    query: &PreparedQuery,
    nq: usize,
)
    requires
        call_ensures(Scorer::with_centroid_term, (s, c, num), Err(Error::Shape(m))),
        call_ensures(Scorer::query, (&s,), query),
        call_ensures(PreparedQuery::n_tokens, (query,), nq),
    ensures
        m@ == "centroid term has "@ + decimal(c@.len()) + " values, expected num_centroids "@
            + decimal(num as nat) + " × n_query_tokens "@ + decimal(nq as nat),
{
}

/// The id of the first token from `t` on that names no centroid.
proof fn lemma_first_stray(codes: Codes, n: int, num: nat, t: int)
    ensures
        first_stray(codes, n, num, t) matches Some(s) ==> t <= s < n && !(0 <= codes.value(s)
            < num) && forall|u: int| t <= u < s ==> 0 <= #[trigger] codes.value(u) < num,
    decreases n - t,
{
    if t < n {
        lemma_first_stray(codes, n, num, t + 1);
    }
}

/// What is said of a document that does not fit: the first thing that is wrong
/// of its stride, its bytes, its inverse norms, its ids. Of the ids that name
/// no centroid it is the first, at token `t`.
pub proof fn a_document_that_does_not_fit_is_told_why<A: Arith>(
    lut: &Lut,
    query: &PreparedQuery,
    bare: Scorer,
    s: Scorer,
    term: Option<(&[u32], usize)>,
    doc: DocView,
    d: Dispatch,
    m: String,
    kpb: usize,
    dim: usize,
) -> (t: int)
    requires
        call_ensures(Lut::keys_per_byte, (lut,), kpb),
        call_ensures(PreparedQuery::dim, (query,), dim),
        call_ensures(Scorer::try_new, (lut, query), Ok(bare)),
        term is None ==> s == bare,
        term matches Some((c, num)) ==> call_ensures(
            Scorer::with_centroid_term,
            (bare, c, num),
            Ok(s),
        ),
        call_ensures(Scorer::try_score::<A>, (&s, doc, &d), Err(Error::Shape(m))),
    ensures
        if doc.row_stride < dim as nat / (kpb as nat) {
            m@ == "row_stride "@ + decimal(doc.row_stride as nat) + " < "@ + decimal(
                dim as nat / (kpb as nat),
            ) + " packed bytes for dim "@ + decimal(dim as nat) + " at "@ + decimal(kpb as nat)
                + " keys/byte"@
        } else if doc.packed@.len() < doc.n_tokens * doc.row_stride {
            m@ == "packed has "@ + decimal(doc.packed@.len()) + " bytes, need "@ + decimal(
                (doc.n_tokens * doc.row_stride) as nat,
            ) + " for "@ + decimal(doc.n_tokens as nat) + " tokens at stride "@ + decimal(
                doc.row_stride as nat,
            )
        } else if doc.inv_norms is Some && doc.inv_norms->Some_0@.len() != doc.n_tokens {
            m@ == "inv_norms has "@ + decimal(doc.inv_norms->Some_0@.len()) + " values for "@
                + decimal(doc.n_tokens as nat) + " tokens"@
        } else {
            &&& term is Some
            &&& match doc.codes {
                Codes::Absent => m@ == "centroid term supplied but DocView has Codes::None"@,
                Codes::U32(v) => if v@.len() != doc.n_tokens {
                    m@ == "codes has "@ + decimal(v@.len()) + " ids for "@ + decimal(
                        doc.n_tokens as nat,
                    ) + " tokens"@
                } else {
                    &&& 0 <= t < doc.n_tokens
                    &&& v@[t] >= term->Some_0.1
                    &&& forall|u: int| 0 <= u < t ==> #[trigger] v@[u] < term->Some_0.1
                    &&& m@ == "centroid id "@ + decimal((v@[t] as usize) as nat) + " at token "@
                        + decimal(t as nat) + " out of range "@ + decimal(term->Some_0.1 as nat)
                },
                Codes::I64(v) => if v@.len() != doc.n_tokens {
                    m@ == "codes has "@ + decimal(v@.len()) + " ids for "@ + decimal(
                        doc.n_tokens as nat,
                    ) + " tokens"@
                } else {
                    &&& 0 <= t < doc.n_tokens
                    &&& v@[t] >= term->Some_0.1 || v@[t] < 0
                    &&& forall|u: int| 0 <= u < t ==> 0 <= #[trigger] v@[u] < term->Some_0.1
                    &&& m@ == "centroid id "@ + decimal((v@[t] as usize) as nat) + " at token "@
                        + decimal(t as nat) + " out of range "@ + decimal(term->Some_0.1 as nat)
                },
                Codes::Usize(v) => if v@.len() != doc.n_tokens {
                    m@ == "codes has "@ + decimal(v@.len()) + " ids for "@ + decimal(
                        doc.n_tokens as nat,
                    ) + " tokens"@
                } else {
                    &&& 0 <= t < doc.n_tokens
                    &&& v@[t] >= term->Some_0.1
                    &&& forall|u: int| 0 <= u < t ==> #[trigger] v@[u] < term->Some_0.1
                    &&& m@ == "centroid id "@ + decimal(v@[t] as nat) + " at token "@ + decimal(
                        t as nat,
                    ) + " out of range "@ + decimal(term->Some_0.1 as nat)
                },
            }
        },
{
    lemma_keys_at(lut@.nbits);
    let v = s@;
    let n = doc.n_tokens as int;
    lemma_first_stray(doc.codes, n, v.num_centroids, 0);
    let t = match first_stray(doc.codes, n, v.num_centroids, 0) {
        Some(t) => t,
        None => 0,
    };
    match doc.codes {
        Codes::Absent => {},
        Codes::U32(ids) => {
            assert forall|u: int| 0 <= u < t implies #[trigger] ids@[u] < v.num_centroids by {
                assert(doc.codes.value(u) < v.num_centroids);
            }
        },
        Codes::I64(ids) => {
            assert forall|u: int| 0 <= u < t implies 0 <= #[trigger] ids@[u] < v.num_centroids by {
                assert(0 <= doc.codes.value(u) < v.num_centroids);
            }
        },
        Codes::Usize(ids) => {
            assert forall|u: int| 0 <= u < t implies #[trigger] ids@[u] < v.num_centroids by {
                assert(doc.codes.value(u) < v.num_centroids);
            }
        },
    }
    t
}

} // verus!
