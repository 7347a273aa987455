//! Per-token centroid ids.
use vstd::prelude::*;

verus! {

/// A document's per-token centroid ids, in whatever integer width the host
/// stores them. [`Codes::Absent`] is valid when the [`crate::Scorer`] carries no
/// centroid term.
#[derive(Debug, Clone, Copy)]
pub enum Codes<'a> {
    /// No centroid ids (only valid without a centroid term).
    Absent,
    /// `u32` ids.
    U32(&'a [u32]),
    /// `i64` ids. Negative values fail range checks.
    I64(&'a [i64]),
    /// `usize` ids.
    Usize(&'a [usize]),
}

impl Codes<'_> {
    /// The number of ids, where there are any.
    pub open spec fn count(&self) -> Option<nat> {
        match *self {
            Codes::Absent => None,
            Codes::U32(s) => Some(s@.len()),
            Codes::I64(s) => Some(s@.len()),
            Codes::Usize(s) => Some(s@.len()),
        }
    }

    /// Token `t` has an id, or none is needed.
    pub open spec fn covers(&self, t: int) -> bool {
        match self.count() {
            None => true,
            Some(n) => t < n,
        }
    }

    /// The id the host stored for token `t`; 0 without ids.
    pub open spec fn value(&self, t: int) -> int {
        match *self {
            Codes::Absent => 0,
            Codes::U32(s) => s@[t] as int,
            Codes::I64(s) => s@[t] as int,
            Codes::Usize(s) => s@[t] as int,
        }
    }

    /// The id of token `t` as an index; a value outside the index type wraps.
    pub open spec fn index(&self, t: int) -> usize {
        match *self {
            Codes::Absent => 0,
            Codes::U32(s) => s@[t] as usize,
            Codes::I64(s) => s@[t] as usize,
            Codes::Usize(s) => s@[t],
        }
    }

    /// The id of token `t` as an index.
    pub fn id(&self, t: usize) -> (r: usize)
        requires
            self.covers(t as int),
        ensures
            r == self.index(t as int),
            0 <= self.value(t as int) <= usize::MAX ==> r == self.value(t as int),
    {
        match self {
            Codes::Absent => 0,
            Codes::U32(s) => s[t] as usize,
            Codes::I64(s) => s[t] as usize,
            Codes::Usize(s) => s[t],
        }
    }

    /// Whether the id of token `t` names one of `n` centroids.
    pub fn in_range(&self, t: usize, n: usize) -> (r: bool)
        requires
            self.covers(t as int),
        ensures
            r == (0 <= self.value(t as int) < n),
    {
        match self {
            Codes::Absent => 0 < n,
            Codes::U32(s) => (s[t] as u128) < n as u128,
            Codes::I64(s) => s[t] >= 0 && (s[t] as u128) < n as u128,
            Codes::Usize(s) => s[t] < n,
        }
    }

    /// The number of ids, where there are any.
    pub fn len(&self) -> (r: Option<usize>)
        ensures
            match (r, self.count()) {
                (Some(n), Some(m)) => n == m,
                (None, None) => true,
                _ => false,
            },
    {
        match self {
            Codes::Absent => None,
            Codes::U32(s) => Some(s.len()),
            Codes::I64(s) => Some(s.len()),
            Codes::Usize(s) => Some(s.len()),
        }
    }
}

} // verus!
