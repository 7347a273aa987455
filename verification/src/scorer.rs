//! Binding a table and a query to score documents.
use crate::codes::Codes;
use crate::error::Error;
use crate::float::{adds_in_order, adds_numbers, alike, deterministic, greater, Arith, ONE, ZERO};
use crate::kernel::dispatch::Dispatch;
use crate::kernel::model::{
    dim_products, integer_dot, lemma_scores_carry, maps_into, score_is_one_number, score_is_order_free,
    score_is_unique, score_never_falls, scores, zeros_apart, Args, Grid, Term,
};
use crate::kernel::maxsim;
use crate::lut::Lut;
use crate::packing::lemma_keys_at;
use crate::query::PreparedQuery;
use crate::sums::lemma_sum_eq;
use crate::text::{decimal, push_decimal};
use vstd::prelude::*;

verus! {

/// One candidate document, borrowed from wherever the host keeps it.
#[derive(Debug, Clone, Copy)]
pub struct DocView<'a> {
    /// Packed residual rows, one per token, contiguous at `row_stride` bytes.
    /// Must hold at least `n_tokens * row_stride` bytes.
    pub packed: &'a [u8],
    /// Number of tokens.
    pub n_tokens: usize,
    /// Bytes from one token's row to the next; at least `dim / keys_per_byte`.
    pub row_stride: usize,
    /// Per-token centroid ids, indexing the scorer's centroid term.
    pub codes: Codes<'a>,
    /// Optional patterns of `1 / |reconstructed token|`, one per token.
    /// `None` scores the unnormalised reconstruction (multiplies by 1).
    pub inv_norms: Option<&'a [u32]>,
}

impl<'a> DocView<'a> {
    /// A document with no centroid ids and no normalisation; add them with
    /// [`DocView::codes`] and [`DocView::inv_norms`].
    pub fn new(packed: &'a [u8], n_tokens: usize, row_stride: usize) -> (r: Self)
        ensures
            r.packed == packed,
            r.n_tokens == n_tokens,
            r.row_stride == row_stride,
            r.codes is Absent,
            r.inv_norms is None,
    {
        DocView { packed, n_tokens, row_stride, codes: Codes::Absent, inv_norms: None }
    }

    /// Attach per-token centroid ids.
    pub fn codes(self, codes: Codes<'a>) -> (r: Self)
        ensures
            r == (DocView { codes, ..self }),
    {
        DocView { codes, ..self }
    }

    /// Attach per-token inverse norms.
    pub fn inv_norms(self, inv: &'a [u32]) -> (r: Self)
        ensures
            r == (DocView { inv_norms: Some(inv), ..self }),
    {
        DocView { inv_norms: Some(inv), ..self }
    }
}

/// A [`Lut`] and a [`PreparedQuery`] bound together, with the host's optional
/// centroid term, ready to score documents.
#[derive(Debug, Clone, Copy)]
pub struct Scorer<'a> {
    lut: &'a Lut,
    query: &'a PreparedQuery,
    cdot: Option<&'a [u32]>,
    num_centroids: usize,
}

/// What a [`Scorer`] holds.
pub struct ScorerView {
    /// The table.
    pub lut: Lut,
    /// The query.
    pub query: PreparedQuery,
    /// The centroid-major centroid term.
    pub cdot: Option<Seq<u32>>,
    /// Centroids in the term.
    pub num_centroids: nat,
}

/// The first of the tokens from `t` on whose id names none of `num` centroids.
pub open spec fn first_stray(codes: Codes, n_tokens: int, num: nat, t: int) -> Option<int>
    decreases n_tokens - t,
{
    if t >= n_tokens {
        None
    } else if 0 <= codes.value(t) < num {
        first_stray(codes, n_tokens, num, t + 1)
    } else {
        Some(t)
    }
}

impl ScorerView {
    /// Query rows.
    pub open spec fn nq(&self) -> nat {
        self.query@.nq
    }

    /// The parts fit together.
    pub open spec fn wf(&self) -> bool {
        &&& self.lut.wf()
        &&& self.query.wf()
        &&& self.query@.fits(self.lut@)
        &&& self.cdot matches Some(c) ==> c.len() == self.num_centroids * self.nq()
    }

    /// Bytes a document must hold at least: a whole stride for every token.
    pub open spec fn needed(&self, doc: DocView) -> int {
        doc.n_tokens * doc.row_stride
    }

    /// What is wrong with a document's shape, the first thing found: the
    /// stride, the packed bytes, the inverse norms, then the centroid ids.
    pub open spec fn fault(&self, doc: DocView) -> Option<Seq<char>> {
        if doc.row_stride < self.query@.pdim() {
            Some(
                "row_stride "@ + decimal(doc.row_stride as nat) + " < "@ + decimal(
                    self.query@.pdim() as nat,
                ) + " packed bytes for dim "@ + decimal(self.query@.dim) + " at "@ + decimal(
                    self.lut@.kpb() as nat,
                ) + " keys/byte"@,
            )
        } else if doc.packed@.len() < self.needed(doc) {
            Some(
                "packed has "@ + decimal(doc.packed@.len()) + " bytes, need "@ + decimal(
                    self.needed(doc) as nat,
                ) + " for "@ + decimal(doc.n_tokens as nat) + " tokens at stride "@ + decimal(
                    doc.row_stride as nat,
                ),
            )
        } else if doc.inv_norms matches Some(v) && v@.len() != doc.n_tokens {
            Some(
                "inv_norms has "@ + decimal(doc.inv_norms->Some_0@.len()) + " values for "@
                    + decimal(doc.n_tokens as nat) + " tokens"@,
            )
        } else if self.cdot is None {
            None
        } else {
            match doc.codes.count() {
                None => Some("centroid term supplied but DocView has Codes::None"@),
                Some(n) => if n != doc.n_tokens {
                    Some(
                        "codes has "@ + decimal(n) + " ids for "@ + decimal(doc.n_tokens as nat)
                            + " tokens"@,
                    )
                } else {
                    match first_stray(doc.codes, doc.n_tokens as int, self.num_centroids, 0) {
                        Some(t) => Some(
                            "centroid id "@ + decimal(doc.codes.index(t) as nat) + " at token "@
                                + decimal(t as nat) + " out of range "@ + decimal(
                                self.num_centroids,
                            ),
                        ),
                        None => None,
                    }
                },
            }
        }
    }

    /// The centroid's score for query row `q` at token `t`; zero without a
    /// centroid term.
    pub open spec fn centroid(&self, doc: DocView, q: int, t: int) -> u32 {
        match self.cdot {
            Some(c) => c[doc.codes.value(t) * self.nq() + q],
            None => ZERO,
        }
    }

    /// The inverse norm of token `t`; 1 without inverse norms.
    pub open spec fn inverse(&self, doc: DocView, t: int) -> u32 {
        match doc.inv_norms {
            Some(v) => v@[t],
            None => ONE,
        }
    }

    /// The term of query row `q` and token `t`.
    pub open spec fn term(&self, doc: DocView, q: int, t: int) -> Term {
        Term {
            sqw: self.query@.sqw[q],
            dot: integer_dot(
                self.lut@,
                self.query@,
                doc.packed@,
                doc.row_stride as int,
                q,
                t,
            ),
            centroid: self.centroid(doc, q, t),
            inv: self.inverse(doc, t),
        }
    }

    /// The term of every (row, token).
    pub open spec fn grid(&self, doc: DocView) -> Grid {
        |q: int, t: int| self.term(doc, q, t)
    }

    /// `s` is the MaxSim of the query against the document.
    pub open spec fn scored<A: Arith>(&self, doc: DocView, s: u32) -> bool {
        scores::<A>(self.grid(doc), self.nq(), doc.n_tokens as nat, s)
    }
}

impl View for Scorer<'_> {
    type V = ScorerView;

    closed spec fn view(&self) -> ScorerView {
        ScorerView {
            lut: *self.lut,
            query: *self.query,
            cdot: match self.cdot {
                Some(c) => Some(c@),
                None => None,
            },
            num_centroids: self.num_centroids as nat,
        }
    }
}

/// No token from `t` on strays: every id from there on is in range.
proof fn lemma_none_stray(codes: Codes, n_tokens: int, num: nat, t: int)
    requires
        first_stray(codes, n_tokens, num, t) is None,
    ensures
        forall|u: int| t <= u < n_tokens ==> 0 <= #[trigger] codes.value(u) < num,
    decreases n_tokens - t,
{
    if t < n_tokens {
        lemma_none_stray(codes, n_tokens, num, t + 1);
    }
}

/// What is said of a centroid term of the wrong size.
pub open spec fn centroid_shape_text(len: nat, num: nat, nq: nat) -> Seq<char> {
    "centroid term has "@ + decimal(len) + " values, expected num_centroids "@ + decimal(num)
        + " × n_query_tokens "@ + decimal(nq)
}

impl<'a> Scorer<'a> {
    /// Every scorer is consistent.
    #[verifier::type_invariant]
    pub open spec fn consistent(self) -> bool {
        self@.wf()
    }

    /// Bind a table and a query prepared against it (use [`Scorer::try_new`]
    /// to get an error for another).
    pub fn new(lut: &'a Lut, query: &'a PreparedQuery) -> (r: Self)
        requires
            query@.fits(lut@),
        ensures
            r@.wf(),
            r@ == (ScorerView { lut: *lut, query: *query, cdot: None, num_centroids: 0 }),
    {
        proof {
            use_type_invariant(lut);
            use_type_invariant(query);
        }
        Scorer { lut, query, cdot: None, num_centroids: 0 }
    }

    /// Bind a table and a query.
    pub fn try_new(lut: &'a Lut, query: &'a PreparedQuery) -> (r: Result<Self, Error>)
        ensures
            match r {
                Ok(s) => {
                    &&& query@.fits(lut@)
                    &&& s@.wf()
                    &&& s@ == (ScorerView {
                        lut: *lut,
                        query: *query,
                        cdot: None,
                        num_centroids: 0,
                    })
                },
                Err(e) => e == Error::LutMismatch && !query@.fits(lut@),
            },
    {
        proof {
            use_type_invariant(lut);
            use_type_invariant(query);
        }
        if !query.matches(lut) {
            return Err(Error::LutMismatch);
        }
        Ok(Scorer { lut, query, cdot: None, num_centroids: 0 })
    }

    /// Supply the host's query by centroid scores, **centroid-major**:
    /// `cdot[cid * n_query_tokens + q]`. One centroid's scores across all
    /// query rows are then contiguous.
    pub fn with_centroid_term(self, cdot_centroid_major: &'a [u32], num_centroids: usize) -> (r:
        Result<Self, Error>)
        ensures
            match r {
                Ok(s) => {
                    &&& cdot_centroid_major@.len() == num_centroids * self@.nq()
                    &&& s@.wf()
                    &&& s@ == (ScorerView {
                        cdot: Some(cdot_centroid_major@),
                        num_centroids: num_centroids as nat,
                        ..self@
                    })
                },
                Err(Error::Shape(s)) => cdot_centroid_major@.len() != num_centroids * self@.nq()
                    && s@ == centroid_shape_text(
                    cdot_centroid_major@.len(),
                    num_centroids as nat,
                    self@.nq(),
                ),
                Err(_) => false,
            },
    {
        proof {
            use_type_invariant(&self);
        }
        let nq: usize = self.query.n_tokens();
        assert(num_centroids * nq <= 0xffff_ffff_ffff_ffff * 0xffff_ffff_ffff_ffff && 0
            <= num_centroids * nq) by (nonlinear_arith)
            requires
                0 <= num_centroids <= 0xffff_ffff_ffff_ffff,
                0 <= nq <= 0xffff_ffff_ffff_ffff,
        ;
        if cdot_centroid_major.len() as u128 != num_centroids as u128 * nq as u128 {
            let mut s: String = String::new();
            s.append("centroid term has ");
            push_decimal(&mut s, cdot_centroid_major.len() as u128);
            s.append(" values, expected num_centroids ");
            push_decimal(&mut s, num_centroids as u128);
            s.append(" × n_query_tokens ");
            push_decimal(&mut s, nq as u128);
            assert(s@ =~= centroid_shape_text(
                cdot_centroid_major@.len(),
                num_centroids as nat,
                self@.nq(),
            ));
            return Err(Error::Shape(s));
        }
        Ok(Scorer { cdot: Some(cdot_centroid_major), num_centroids, ..self })
    }

    /// The table this scorer uses.
    pub fn lut(&self) -> (r: &'a Lut)
        ensures
            *r == self@.lut,
    {
        self.lut
    }

    /// The query this scorer uses.
    pub fn query(&self) -> (r: &'a PreparedQuery)
        ensures
            *r == self@.query,
    {
        self.query
    }

    /// MaxSim of the query against one document of a valid shape (see
    /// [`Scorer::try_score`] for the checked form); every kernel returns the
    /// same bits.
    pub fn score<A: Arith>(&self, doc: DocView<'_>, d: &Dispatch) -> (s: u32)
        requires
            self@.fault(doc) is None,
        ensures
            self@.scored::<A>(doc, s),
            deterministic::<A>() ==> forall|y: u32| #[trigger] self@.scored::<A>(doc, y) ==> y == s,
    {
        match self.try_score::<A>(doc, d) {
            Ok(s) => s,
            Err(_) => ZERO,
        }
    }

    /// MaxSim of the query against one document, with shape validation.
    pub fn try_score<A: Arith>(&self, doc: DocView<'_>, d: &Dispatch) -> (r: Result<u32, Error>)
        ensures
            match r {
                Ok(s) => {
                    &&& self@.fault(doc) is None
                    &&& self@.scored::<A>(doc, s)
                    &&& deterministic::<A>() ==> forall|y: u32| #[trigger]
                        self@.scored::<A>(doc, y) ==> y == s
                },
                Err(Error::Shape(s)) => self@.fault(doc) == Some(s@),
                Err(_) => false,
            },
    {
        match self.validate(doc) {
            Ok(args) => {
                let s: u32 = maxsim::<A>(self.lut, &args, d);
                proof {
                    lemma_scores_carry::<A>(
                        args.grid(self.lut@),
                        self@.grid(doc),
                        self@.nq(),
                        doc.n_tokens as nat,
                        s,
                    );
                    if deterministic::<A>() {
                        assert forall|y: u32| #[trigger] self@.scored::<A>(doc, y) implies y == s by {
                            scoring_again_gives_the_same_bits::<A>(self@, doc, y, s);
                        }
                    }
                }
                Ok(s)
            },
            Err(e) => Err(e),
        }
    }

    /// Score many documents into `out`, one slot each, in order.
    pub fn score_many<A: Arith>(&self, docs: &[DocView<'_>], out: &mut [u32], d: &Dispatch)
        requires
            docs@.len() == old(out)@.len(),
            forall|i: int| 0 <= i < docs@.len() ==> self@.fault(#[trigger] docs@[i]) is None,
        ensures
            final(out)@.len() == old(out)@.len(),
            forall|i: int|
                0 <= i < docs@.len() ==> self@.scored::<A>(docs@[i], #[trigger] final(out)@[i]),
    {
        let mut i: usize = 0;
        while i < docs.len()
            invariant
                i <= docs@.len(),
                docs@.len() == out@.len(),
                out@.len() == old(out)@.len(),
                forall|j: int| 0 <= j < docs@.len() ==> self@.fault(#[trigger] docs@[j]) is None,
                forall|j: int| 0 <= j < i ==> self@.scored::<A>(docs@[j], #[trigger] out@[j]),
            decreases docs@.len() - i,
        {
            assert(self@.fault(docs@[i as int]) is None);
            let s: u32 = self.score::<A>(docs[i], d);
            out[i] = s;
            i += 1;
        }
    }

    /// The message for a stride below the packed bytes of a row.
    fn stride_message(&self, doc: DocView<'_>, pdim: usize, kpb: usize) -> (s: String)
        requires
            pdim == self@.query@.pdim(),
            kpb == self@.lut@.kpb(),
            doc.row_stride < pdim,
        ensures
            self@.fault(doc) == Some(s@),
    {
        let mut s: String = String::new();
        s.append("row_stride ");
        push_decimal(&mut s, doc.row_stride as u128);
        s.append(" < ");
        push_decimal(&mut s, pdim as u128);
        s.append(" packed bytes for dim ");
        push_decimal(&mut s, self.query.dim() as u128);
        s.append(" at ");
        push_decimal(&mut s, kpb as u128);
        s.append(" keys/byte");
        assert(s@ =~= self@.fault(doc)->Some_0);
        s
    }

    /// The message for too few packed bytes.
    fn packed_message(&self, doc: DocView<'_>, need: u128) -> (s: String)
        requires
            doc.row_stride >= self@.query@.pdim(),
            need == self@.needed(doc),
            doc.packed@.len() < need,
        ensures
            self@.fault(doc) == Some(s@),
    {
        let mut s: String = String::new();
        s.append("packed has ");
        push_decimal(&mut s, doc.packed.len() as u128);
        s.append(" bytes, need ");
        push_decimal(&mut s, need);
        s.append(" for ");
        push_decimal(&mut s, doc.n_tokens as u128);
        s.append(" tokens at stride ");
        push_decimal(&mut s, doc.row_stride as u128);
        assert(s@ =~= self@.fault(doc)->Some_0);
        s
    }

    /// The document's ids all name centroids, or the message for the first
    /// that does not.
    fn check_codes(&self, doc: DocView<'_>) -> (r: Option<String>)
        requires
            self@.cdot is Some,
            doc.codes.count() == Some(doc.n_tokens as nat),
        ensures
            match r {
                None => first_stray(doc.codes, doc.n_tokens as int, self@.num_centroids, 0) is None,
                Some(s) => first_stray(
                    doc.codes,
                    doc.n_tokens as int,
                    self@.num_centroids,
                    0,
                ) matches Some(t) && s@ == "centroid id "@ + decimal(doc.codes.index(t) as nat)
                    + " at token "@ + decimal(t as nat) + " out of range "@ + decimal(
                    self@.num_centroids,
                ),
            },
    {
        let ghost first = first_stray(doc.codes, doc.n_tokens as int, self@.num_centroids, 0);
        let mut t: usize = 0;
        while t < doc.n_tokens
            invariant
                t <= doc.n_tokens,
                doc.codes.count() == Some(doc.n_tokens as nat),
                first == first_stray(doc.codes, doc.n_tokens as int, self@.num_centroids, t as int),
                first == first_stray(doc.codes, doc.n_tokens as int, self@.num_centroids, 0),
            decreases doc.n_tokens - t,
        {
            if !doc.codes.in_range(t, self.num_centroids) {
                let cid: usize = doc.codes.id(t);
                let mut s: String = String::new();
                s.append("centroid id ");
                push_decimal(&mut s, cid as u128);
                s.append(" at token ");
                push_decimal(&mut s, t as u128);
                s.append(" out of range ");
                push_decimal(&mut s, self.num_centroids as u128);
                assert(s@ =~= "centroid id "@ + decimal(doc.codes.index(t as int) as nat)
                    + " at token "@ + decimal(t as nat) + " out of range "@ + decimal(
                    self@.num_centroids,
                ));
                return Some(s);
            }
            t += 1;
        }
        None
    }

    /// Check a document's shape and bring it into the form the kernels read.
    #[verifier::spinoff_prover]
    pub fn validate<'d>(&self, doc: DocView<'d>) -> (r: Result<Args<'d>, Error>) where 'a: 'd
        ensures
            match r {
                Ok(args) => {
                    &&& self@.fault(doc) is None
                    &&& args.wf(self@.lut@)
                    &&& *args.query == self@.query
                    &&& args.packed == doc.packed
                    &&& args.row_stride == doc.row_stride
                    &&& args.n_tokens == doc.n_tokens
                    &&& args.inv_norms == doc.inv_norms
                    &&& match self@.cdot {
                        Some(c) => args.codes == doc.codes && args.cdot@ == c && args.cdot_stride
                            == self@.nq(),
                        None => args.codes is Absent && args.cdot@ == self@.query@.zeros
                            && args.cdot_stride == 0,
                    }
                    &&& forall|q: int, t: int|
                        0 <= q < self@.nq() && 0 <= t < doc.n_tokens ==> #[trigger] args.grid(
                            self@.lut@,
                        )(q, t) == self@.grid(doc)(q, t)
                },
                Err(Error::Shape(s)) => self@.fault(doc) == Some(s@),
                Err(_) => false,
            },
    {
        proof {
            use_type_invariant(self);
        }
        let q = self.query;
        let dim: usize = q.dim();
        let kpb: usize = self.lut.keys_per_byte();
        proof {
            lemma_keys_at(self@.lut@.nbits);
        }
        let pdim: usize = dim / kpb;
        if doc.row_stride < pdim {
            return Err(Error::Shape(self.stride_message(doc, pdim, kpb)));
        }
        proof {
            let n = doc.n_tokens as int;
            let s = doc.row_stride as int;
            assert(0 <= n * s <= 0xffff_ffff_ffff_ffff * 0xffff_ffff_ffff_ffff) by (nonlinear_arith)
                requires
                    0 <= n <= 0xffff_ffff_ffff_ffff,
                    0 <= s <= 0xffff_ffff_ffff_ffff,
            ;
        }
        let need: u128 = doc.n_tokens as u128 * doc.row_stride as u128;
        if (doc.packed.len() as u128) < need {
            return Err(Error::Shape(self.packed_message(doc, need)));
        }
        if let Some(inv) = doc.inv_norms {
            if inv.len() != doc.n_tokens {
                let mut s: String = String::new();
                s.append("inv_norms has ");
                push_decimal(&mut s, inv.len() as u128);
                s.append(" values for ");
                push_decimal(&mut s, doc.n_tokens as u128);
                s.append(" tokens");
                assert(s@ =~= self@.fault(doc)->Some_0);
                return Err(Error::Shape(s));
            }
        }
        let args = match self.cdot {
            Some(c) => {
                match doc.codes.len() {
                    None => {
                        let mut s: String = String::new();
                        s.append("centroid term supplied but DocView has Codes::None");
                        assert(s@ =~= self@.fault(doc)->Some_0);
                        return Err(Error::Shape(s));
                    },
                    Some(n) => {
                        if n != doc.n_tokens {
                            let mut s: String = String::new();
                            s.append("codes has ");
                            push_decimal(&mut s, n as u128);
                            s.append(" ids for ");
                            push_decimal(&mut s, doc.n_tokens as u128);
                            s.append(" tokens");
                            assert(s@ =~= self@.fault(doc)->Some_0);
                            return Err(Error::Shape(s));
                        }
                        if let Some(s) = self.check_codes(doc) {
                            return Err(Error::Shape(s));
                        }
                        Args {
                            query: q,
                            packed: doc.packed,
                            row_stride: doc.row_stride,
                            n_tokens: doc.n_tokens,
                            codes: doc.codes,
                            cdot: c,
                            cdot_stride: q.n_tokens(),
                            inv_norms: doc.inv_norms,
                        }
                    },
                }
            },
            // No centroid term: every token reads the same zero row.
            None => Args {
                query: q,
                packed: doc.packed,
                row_stride: doc.row_stride,
                n_tokens: doc.n_tokens,
                codes: Codes::Absent,
                cdot: q.zeros(),
                cdot_stride: 0,
                inv_norms: doc.inv_norms,
            },
        };
        proof {
            let nq = self@.nq() as int;
            if self@.cdot is Some {
                lemma_none_stray(doc.codes, doc.n_tokens as int, self@.num_centroids, 0);
            }
            assert forall|t: int| 0 <= t < args.n_tokens implies #[trigger] args.reaches(t) && (
            self@.cdot is Some ==> args.codes.index(t) == doc.codes.value(t)) && (self@.cdot is None
                ==> args.codes.index(t) * args.cdot_stride == 0) by {
                if self@.cdot is Some {
                    let id = doc.codes.value(t);
                    assert(0 <= id < self@.num_centroids);
                    lemma_in_range(doc.codes, t);
                    assert(id * nq + nq <= self@.num_centroids * nq) by (nonlinear_arith)
                        requires
                            id + 1 <= self@.num_centroids,
                            0 <= nq,
                    ;
                } else {
                    assert(args.codes.index(t) * args.cdot_stride == 0) by (nonlinear_arith)
                        requires
                            args.cdot_stride == 0,
                    ;
                }
            }
            assert forall|q: int, t: int|
                0 <= q < nq && 0 <= t < doc.n_tokens implies #[trigger] args.grid(self@.lut@)(q, t)
                == self@.grid(doc)(q, t) by {
                assert(args.reaches(t));
            }
        }
        Ok(args)
    }
}

/// An id in range is itself as an index.
proof fn lemma_in_range(codes: Codes, t: int)
    requires
        0 <= codes.value(t) <= usize::MAX,
    ensures
        codes.index(t) == codes.value(t),
{
}

/// Dot products over the same bytes: only the first `pdim` bytes of a row are
/// read, and of the table only its width and its weights.
proof fn lemma_same_dot(
    v: ScorerView,
    w: ScorerView,
    x: DocView,
    y: DocView,
    q: int,
    t: int,
    u: int,
)
    requires
        v.wf(),
        w.wf(),
        v.query@ == w.query@,
        v.lut@.nbits == w.lut@.nbits,
        v.lut@.fused == w.lut@.fused,
        forall|i: int|
            0 <= i < v.query@.pdim() ==> #[trigger] x.packed@[t * x.row_stride + i]
                == y.packed@[u * y.row_stride + i],
    ensures
        v.term(x, q, t).dot == w.term(y, q, u).dot,
{
    lemma_keys_at(v.lut@.nbits);
    let kpb = v.lut@.kpb();
    let pdim = v.query@.pdim();
    let f = dim_products(v.lut@, v.query@, x.packed@, x.row_stride as int, q, t);
    let g = dim_products(w.lut@, w.query@, y.packed@, y.row_stride as int, q, u);
    assert forall|d: int| 0 <= d < v.query@.dim implies #[trigger] f(d) == g(d) by {
        assert(0 <= d / kpb < pdim) by (nonlinear_arith)
            requires
                0 <= d < kpb * pdim,
                1 <= kpb,
        ;
        let i = d / kpb;
        assert(x.packed@[t * x.row_stride + i] == y.packed@[u * y.row_stride + i]);
    }
    lemma_sum_eq(f, g, v.query@.dim as int);
}

/// A score is unique: scoring a document again, alone or among many, gives
/// the same bits.
pub proof fn scoring_again_gives_the_same_bits<A: Arith>(v: ScorerView, doc: DocView, x: u32, y: u32)
    requires
        deterministic::<A>(),
        v.scored::<A>(doc, x),
        v.scored::<A>(doc, y),
    ensures
        x == y,
{
    score_is_unique::<A>(v.grid(doc), v.grid(doc), v.nq(), doc.n_tokens as nat, x, y);
}

/// Dispatch can change how long a search takes, never what it returns: tables
/// that differ only in how they are dispatched (forced to the scalar
/// reference, pinned to a kernel, factored or not) give the same bits.
pub proof fn dispatch_never_changes_a_score<A: Arith>(
    v: ScorerView,
    w: ScorerView,
    doc: DocView,
    x: u32,
    y: u32,
)
    requires
        deterministic::<A>(),
        v.wf(),
        w.wf(),
        v.query@ == w.query@,
        v.cdot == w.cdot,
        v.lut@.nbits == w.lut@.nbits,
        v.lut@.fused == w.lut@.fused,
        v.scored::<A>(doc, x),
        w.scored::<A>(doc, y),
    ensures
        x == y,
{
    let g = v.grid(doc);
    let h = w.grid(doc);
    assert forall|q: int, t: int| 0 <= q < v.nq() && 0 <= t < doc.n_tokens implies #[trigger] g(q, t)
        == h(q, t) by {
        lemma_same_dot(v, w, doc, doc, q, t, t);
    }
    score_is_unique::<A>(g, h, v.nq(), doc.n_tokens as nat, x, y);
}

/// No centroid term is a zero centroid term, with whatever ids.
pub proof fn no_centroid_term_is_a_zero_one<A: Arith>(
    v: ScorerView,
    w: ScorerView,
    doc: DocView,
    coded: DocView,
    x: u32,
    y: u32,
)
    requires
        deterministic::<A>(),
        v.wf(),
        w.wf(),
        v.cdot is None,
        w == (ScorerView { cdot: w.cdot, num_centroids: w.num_centroids, ..v }),
        w.cdot matches Some(c) && forall|i: int| 0 <= i < c.len() ==> #[trigger] c[i] == ZERO,
        coded == (DocView { codes: coded.codes, ..doc }),
        w.fault(coded) is None,
        v.scored::<A>(doc, x),
        w.scored::<A>(coded, y),
    ensures
        x == y,
{
    let g = v.grid(doc);
    let h = w.grid(coded);
    let nq = v.nq() as int;
    lemma_none_stray(coded.codes, coded.n_tokens as int, w.num_centroids, 0);
    assert forall|q: int, t: int| 0 <= q < nq && 0 <= t < doc.n_tokens implies #[trigger] g(q, t)
        == h(q, t) by {
        let id = coded.codes.value(t);
        assert(0 <= id < w.num_centroids);
        assert(0 <= id * nq && id * nq + nq <= w.num_centroids * nq) by (nonlinear_arith)
            requires
                0 <= id,
                id + 1 <= w.num_centroids,
                0 <= nq,
        ;
        assert(w.cdot->Some_0[id * nq + q] == ZERO);
    }
    score_is_unique::<A>(g, h, v.nq(), doc.n_tokens as nat, x, y);
}

/// No inverse norms are inverse norms of 1.
pub proof fn no_inverse_norms_are_ones<A: Arith>(
    v: ScorerView,
    doc: DocView,
    normed: DocView,
    x: u32,
    y: u32,
)
    requires
        deterministic::<A>(),
        v.wf(),
        doc.inv_norms is None,
        normed == (DocView { inv_norms: normed.inv_norms, ..doc }),
        normed.inv_norms matches Some(n) && forall|i: int|
            0 <= i < doc.n_tokens ==> #[trigger] n@[i] == ONE,
        v.scored::<A>(doc, x),
        v.scored::<A>(normed, y),
    ensures
        x == y,
{
    let g = v.grid(doc);
    let h = v.grid(normed);
    assert forall|q: int, t: int| 0 <= q < v.nq() && 0 <= t < doc.n_tokens implies #[trigger] g(q, t)
        == h(q, t) by {
        assert(normed.inv_norms->Some_0@[t] == ONE);
    }
    score_is_unique::<A>(g, h, v.nq(), doc.n_tokens as nat, x, y);
}

/// Code widths are interchangeable: ids of the same value give the same
/// score, in whatever integer width they are stored.
pub proof fn code_widths_are_interchangeable<A: Arith>(
    v: ScorerView,
    doc: DocView,
    other: DocView,
    x: u32,
    y: u32,
)
    requires
        deterministic::<A>(),
        v.wf(),
        other == (DocView { codes: other.codes, ..doc }),
        forall|t: int|
            0 <= t < doc.n_tokens ==> #[trigger] doc.codes.value(t) == other.codes.value(t),
        v.scored::<A>(doc, x),
        v.scored::<A>(other, y),
    ensures
        x == y,
{
    let g = v.grid(doc);
    let h = v.grid(other);
    assert forall|q: int, t: int| 0 <= q < v.nq() && 0 <= t < doc.n_tokens implies #[trigger] g(q, t)
        == h(q, t) by {
        assert(doc.codes.value(t) == other.codes.value(t));
    }
    score_is_unique::<A>(g, h, v.nq(), doc.n_tokens as nat, x, y);
}

/// Padding is never read: documents that agree on the packed bytes of every
/// row have the same score, whatever their strides and whatever lies between
/// the rows.
pub proof fn padding_is_never_read<A: Arith>(
    v: ScorerView,
    doc: DocView,
    other: DocView,
    x: u32,
    y: u32,
)
    requires
        deterministic::<A>(),
        v.wf(),
        other == (DocView { packed: other.packed, row_stride: other.row_stride, ..doc }),
        forall|t: int, i: int|
            0 <= t < doc.n_tokens && 0 <= i < v.query@.pdim() ==> #[trigger] doc.packed@[t
                * doc.row_stride + i] == other.packed@[t * other.row_stride + i],
        v.scored::<A>(doc, x),
        v.scored::<A>(other, y),
    ensures
        x == y,
{
    let g = v.grid(doc);
    let h = v.grid(other);
    assert forall|q: int, t: int| 0 <= q < v.nq() && 0 <= t < doc.n_tokens implies #[trigger] g(q, t)
        == h(q, t) by {
        lemma_same_dot(v, v, doc, other, q, t, t);
    }
    score_is_unique::<A>(g, h, v.nq(), doc.n_tokens as nat, x, y);
}

/// A document without tokens, and a query without rows, score zero.
pub proof fn nothing_scores_zero<A: Arith>(v: ScorerView, doc: DocView, s: u32)
    requires
        doc.n_tokens == 0 || v.nq() == 0,
        v.scored::<A>(doc, s),
    ensures
        s == ZERO,
{
}

/// Token `t` of `doc` is token `u` of `other`: the same packed bytes, the same
/// centroid and the same inverse norm.
pub open spec fn same_token(v: ScorerView, doc: DocView, t: int, other: DocView, u: int) -> bool {
    &&& forall|i: int|
        0 <= i < v.query@.pdim() ==> #[trigger] doc.packed@[t * doc.row_stride + i]
            == other.packed@[u * other.row_stride + i]
    &&& doc.codes.value(t) == other.codes.value(u)
    &&& v.inverse(doc, t) == v.inverse(other, u)
}

/// Every token of `doc` is a token of `other`: token `t` of the one is token
/// `map[t]` of the other.
pub open spec fn tokens_among(v: ScorerView, doc: DocView, other: DocView, map: Seq<int>) -> bool {
    &&& map.len() == doc.n_tokens
    &&& forall|t: int|
        0 <= t < doc.n_tokens ==> 0 <= #[trigger] map[t] < other.n_tokens && same_token(
            v,
            doc,
            t,
            other,
            map[t],
        )
}

/// Tokens that are the same have the same terms.
proof fn lemma_same_tokens(v: ScorerView, doc: DocView, other: DocView, map: Seq<int>)
    requires
        v.wf(),
        tokens_among(v, doc, other, map),
    ensures
        maps_into(
            v.grid(doc),
            doc.n_tokens as nat,
            v.grid(other),
            other.n_tokens as nat,
            v.nq(),
            map,
        ),
{
    let g = v.grid(doc);
    let h = v.grid(other);
    assert forall|q: int, t: int| 0 <= q < v.nq() && 0 <= t < doc.n_tokens implies #[trigger] g(q, t)
        == h(q, map[t]) by {
        let u = map[t];
        assert(same_token(v, doc, t, other, u));
        lemma_same_dot(v, v, doc, other, q, t, u);
    }
}

/// Late interaction ignores order: documents with the same tokens, in whatever
/// order and however often repeated, have the same score, bit for bit. Left
/// out are documents where zeros of both signs tie for a row's best: of equal
/// scores the first stays, so there the order decides the sign (see
/// [`token_order_never_changes_the_number`]).
pub proof fn token_order_does_not_matter<A: Arith>(
    v: ScorerView,
    doc: DocView,
    other: DocView,
    there: Seq<int>,
    back: Seq<int>,
    x: u32,
    y: u32,
)
    requires
        deterministic::<A>(),
        v.wf(),
        tokens_among(v, doc, other, there),
        tokens_among(v, other, doc, back),
        zeros_apart::<A>(v.grid(doc), v.nq(), doc.n_tokens as nat),
        v.scored::<A>(doc, x),
        v.scored::<A>(other, y),
    ensures
        x == y,
{
    lemma_same_tokens(v, doc, other, there);
    lemma_same_tokens(v, other, doc, back);
    score_is_order_free::<A>(
        v.grid(doc),
        doc.n_tokens as nat,
        v.grid(other),
        other.n_tokens as nat,
        v.nq(),
        there,
        back,
        x,
        y,
    );
}

/// Late interaction ignores order: documents with the same tokens, in whatever
/// order and however often repeated, score the same number, up to the sign of
/// a zero.
pub proof fn token_order_never_changes_the_number<A: Arith>(
    v: ScorerView,
    doc: DocView,
    other: DocView,
    there: Seq<int>,
    back: Seq<int>,
    x: u32,
    y: u32,
)
    requires
        deterministic::<A>(),
        adds_numbers::<A>(),
        v.wf(),
        tokens_among(v, doc, other, there),
        tokens_among(v, other, doc, back),
        v.scored::<A>(doc, x),
        v.scored::<A>(other, y),
    ensures
        alike(x, y),
{
    lemma_same_tokens(v, doc, other, there);
    lemma_same_tokens(v, other, doc, back);
    score_is_one_number::<A>(
        v.grid(doc),
        doc.n_tokens as nat,
        v.grid(other),
        other.n_tokens as nat,
        v.nq(),
        there,
        back,
        x,
        y,
    );
}

/// More tokens never lower a score: a document that has all the tokens of
/// another, which has at least one, never scores below it. (Without tokens a
/// document scores zero, and a token may score less.)
pub proof fn more_tokens_never_lower_a_score<A: Arith>(
    v: ScorerView,
    doc: DocView,
    more: DocView,
    map: Seq<int>,
    x: u32,
    y: u32,
)
    requires
        deterministic::<A>(),
        adds_in_order::<A>(),
        v.wf(),
        doc.n_tokens > 0,
        tokens_among(v, doc, more, map),
        v.scored::<A>(doc, x),
        v.scored::<A>(more, y),
    ensures
        !greater(x, y),
{
    lemma_same_tokens(v, doc, more, map);
    score_never_falls::<A>(
        v.grid(doc),
        doc.n_tokens as nat,
        v.grid(more),
        more.n_tokens as nat,
        v.nq(),
        map,
        x,
        y,
    );
}

} // verus!
