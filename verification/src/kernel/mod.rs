//! The scoring kernels and the choice among them.
//!
//! Every kernel computes the identical integer accumulator per (query row,
//! document token) and applies the identical expression
//! `(sqw[q] * acc + crow[q]) * inv`, so all of them return the same bits:
//! each one's contract is the same relation, [`model::Args::scored`].
use crate::float::{deterministic, Arith};
use crate::lut::{Lut, LutView};
use vstd::prelude::*;

mod avx2;
mod avx2_vnni;
mod avx512;
pub mod calibrate;
pub mod dispatch;
mod lanes;
pub mod model;
mod neon;
mod neon_i8mm;
mod scalar;
mod token;

pub use model::Args;
pub use scalar::scalar;

use dispatch::{select, Dispatch};
use model::kernels_return_the_same_bits;

verus! {

/// Which code path scores a given shape. Returned by [`crate::Lut::kernel`];
/// [`Kernel::label`] is meant for benchmark output.
///
/// A vector kernel is named after the instructions whose arithmetic it
/// follows. It carries them out lane by lane in safe code and issues none of
/// them.
#[derive(Debug, Clone, Copy, PartialEq, Eq, Structural)]
pub enum Kernel {
    /// The scalar reference, with the reason the SIMD paths were not taken.
    Scalar(ScalarReason),
    /// aarch64 NEON: `tbl` expansion, `sdot` accumulation.
    NeonSdot,
    /// aarch64 NEON + I8MM: `tbl` expansion, `smmla` 2x2 matrix accumulation
    /// (32 MACs per instruction).
    NeonI8mm,
    /// x86_64 AVX2: `pshufb` expansion, `maddubs`/`madd` accumulation.
    Avx2,
    /// x86_64 AVX-VNNI: row tiles with 256-bit `vpdpbusd`, for cores that
    /// have VNNI without AVX-512.
    Avx2Vnni,
    /// x86_64 AVX-512 with VNNI: `pshufb` expansion, `vpdpbusd` accumulation.
    Avx512Vnni,
}

/// Why the scalar path runs.
#[derive(Debug, Clone, Copy, PartialEq, Eq, Structural)]
pub enum ScalarReason {
    /// [`crate::Lut::force_scalar`] or the process-wide override.
    Forced,
    /// `dim % 8 != 0` or `dim > MAX_DIM`.
    DimNotSimdAligned,
    /// The packing could not be factored into nibble tables (nbits 8).
    NoNibbleTables,
    /// This CPU lacks the required feature (NEON `dotprod`, AVX2), or the
    /// architecture has no SIMD path at all.
    CpuUnsupported,
    /// Every SIMD kernel this CPU claims to support disagreed with the
    /// scalar reference on the calibration probes, so none was trusted.
    SelfCheckFailed,
}

impl ScalarReason {
    /// The name of the reason.
    pub open spec fn text(&self) -> Seq<char> {
        match *self {
            ScalarReason::Forced => "Forced"@,
            ScalarReason::DimNotSimdAligned => "DimNotSimdAligned"@,
            ScalarReason::NoNibbleTables => "NoNibbleTables"@,
            ScalarReason::CpuUnsupported => "CpuUnsupported"@,
            ScalarReason::SelfCheckFailed => "SelfCheckFailed"@,
        }
    }

    /// The name of the reason.
    pub fn label(&self) -> (s: &'static str)
        ensures
            s@ == self.text(),
    {
        match self {
            ScalarReason::Forced => "Forced",
            ScalarReason::DimNotSimdAligned => "DimNotSimdAligned",
            ScalarReason::NoNibbleTables => "NoNibbleTables",
            ScalarReason::CpuUnsupported => "CpuUnsupported",
            ScalarReason::SelfCheckFailed => "SelfCheckFailed",
        }
    }
}

impl Kernel {
    /// How the kernel is shown.
    pub open spec fn text(&self) -> Seq<char> {
        match *self {
            Kernel::Scalar(r) => "scalar ("@ + r.text() + ")"@,
            Kernel::NeonSdot => "neon-sdot"@,
            Kernel::NeonI8mm => "neon-i8mm"@,
            Kernel::Avx2 => "avx2"@,
            Kernel::Avx2Vnni => "avx2-vnni"@,
            Kernel::Avx512Vnni => "avx512-vnni"@,
        }
    }

    /// How the kernel is shown.
    pub fn label(&self) -> (s: String)
        ensures
            s@ == self.text(),
    {
        let mut s: String = String::new();
        match self {
            Kernel::Scalar(r) => {
                s.append("scalar (");
                s.append(r.label());
                s.append(")");
            },
            Kernel::NeonSdot => s.append("neon-sdot"),
            Kernel::NeonI8mm => s.append("neon-i8mm"),
            Kernel::Avx2 => s.append("avx2"),
            Kernel::Avx2Vnni => s.append("avx2-vnni"),
            Kernel::Avx512Vnni => s.append("avx512-vnni"),
        }
        assert(s@ =~= self.text());
        s
    }

    /// `true` for any SIMD path.
    pub fn is_simd(&self) -> (r: bool)
        ensures
            r == !(self is Scalar),
    {
        match self {
            Kernel::Scalar(_) => false,
            _ => true,
        }
    }
}

/// A kernel may be run on these arguments: the vector kernels need nibble
/// tables and whole groups of eight dimensions.
pub open spec fn runnable(kernel: Kernel, lut: LutView, args: Args) -> bool {
    &&& args.wf(lut)
    &&& !(kernel is Scalar) ==> lut.nibble is Some && args.query@.dim % 8 == 0
}

/// Run a specific kernel. Whichever it is, the result is the score, and under
/// a deterministic arithmetic there is only one: every kernel returns the
/// bits the scalar reference returns.
pub fn run<A: Arith>(kernel: Kernel, lut: &Lut, args: &Args) -> (s: u32)
    requires
        runnable(kernel, lut@, *args),
    ensures
        args.scored::<A>(lut@, s),
        deterministic::<A>() ==> forall|y: u32| #[trigger] args.scored::<A>(lut@, y) ==> y == s,
{
    let s: u32 = match kernel {
        Kernel::Scalar(_) => scalar::<A>(lut, args),
        Kernel::NeonSdot => neon::maxsim::<A>(lut, args),
        Kernel::NeonI8mm => neon_i8mm::maxsim::<A>(lut, args),
        Kernel::Avx2 => avx2::maxsim::<A>(lut, args),
        Kernel::Avx2Vnni => avx2_vnni::maxsim::<A>(lut, args),
        Kernel::Avx512Vnni => avx512::maxsim::<A>(lut, args),
    };
    proof {
        if deterministic::<A>() {
            assert forall|y: u32| #[trigger] args.scored::<A>(lut@, y) implies y == s by {
                kernels_return_the_same_bits::<A>(*args, lut@, y, s);
            }
        }
    }
    s
}

/// MaxSim on the kernel dispatch selects: the bits of the scalar reference,
/// whichever kernel that is.
pub fn maxsim<A: Arith>(lut: &Lut, args: &Args, d: &Dispatch) -> (s: u32)
    requires
        args.wf(lut@),
    ensures
        args.scored::<A>(lut@, s),
        deterministic::<A>() ==> forall|y: u32| #[trigger] args.scored::<A>(lut@, y) ==> y == s,
{
    run::<A>(select(lut, args.query.dim(), d), lut, args)
}

} // verus!
