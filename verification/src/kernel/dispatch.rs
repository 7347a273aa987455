//! Which kernel runs.
//!
//! Highest precedence first: the forced-scalar switches, then the shape
//! checks that rule the vector kernels out entirely (`dim % 8`, `MAX_DIM`, no
//! nibble tables), then the table's pin, then the process's pin, then the
//! calibrated choice. Either pin is ignored when it names a kernel the CPU
//! cannot execute.
use super::calibrate::{calibrate, measured};
use super::{run, Kernel, ScalarReason};
use crate::error::MAX_DIM;
use crate::float::{deterministic, Arith};
use crate::lut::{Lut, LutView};
use crate::text::{same, same_but_case, same_ignoring_case};
use vstd::prelude::*;

verus! {

/// What a CPU reports about itself.
#[derive(Debug, Clone, Copy, PartialEq, Eq, Structural)]
pub enum CpuFeatures {
    /// 64-bit Arm.
    Aarch64 {
        /// `dotprod`: `sdot`.
        dotprod: bool,
        /// `i8mm`: `smmla`.
        i8mm: bool,
    },
    /// 64-bit x86.
    X86_64 {
        /// `avx512f`.
        avx512f: bool,
        /// `avx512bw`.
        avx512bw: bool,
        /// `avx512vnni`: 512-bit `vpdpbusd`.
        avx512vnni: bool,
        /// `avxvnni`: 256-bit `vpdpbusd`.
        avxvnni: bool,
        /// `avx2`.
        avx2: bool,
    },
    /// No vector path.
    Other,
}

/// Every vector kernel a CPU can execute, widest instruction first.
pub open spec fn executable(cpu: CpuFeatures) -> Seq<Kernel> {
    match cpu {
        CpuFeatures::Aarch64 { dotprod, i8mm } => {
            let wide = if i8mm {
                seq![Kernel::NeonI8mm]
            } else {
                seq![]
            };
            if dotprod {
                wide.push(Kernel::NeonSdot)
            } else {
                wide
            }
        },
        CpuFeatures::X86_64 { avx512f, avx512bw, avx512vnni, avxvnni, avx2 } => {
            let avx512 = avx512f && avx512bw && avx512vnni;
            let wide = if avx512 {
                seq![Kernel::Avx512Vnni]
            } else {
                seq![]
            };
            let wider = if avxvnni {
                wide.push(Kernel::Avx2Vnni)
            } else {
                wide
            };
            if avx512 || avxvnni || avx2 {
                wider.push(Kernel::Avx2)
            } else {
                wider
            }
        },
        CpuFeatures::Other => seq![],
    }
}

/// Every vector kernel the CPU can execute, in the order to try when
/// calibration is switched off: widest instruction first. Empty if the CPU
/// has no vector path.
pub fn cpu_kernels(cpu: CpuFeatures) -> (r: Vec<Kernel>)
    ensures
        r@ == executable(cpu),
{
    let mut r: Vec<Kernel> = Vec::new();
    match cpu {
        CpuFeatures::Aarch64 { dotprod, i8mm } => {
            if i8mm {
                r.push(Kernel::NeonI8mm);
            }
            if dotprod {
                r.push(Kernel::NeonSdot);
            }
        },
        CpuFeatures::X86_64 { avx512f, avx512bw, avx512vnni, avxvnni, avx2 } => {
            let avx512: bool = avx512f && avx512bw && avx512vnni;
            if avx512 {
                r.push(Kernel::Avx512Vnni);
            }
            if avxvnni {
                r.push(Kernel::Avx2Vnni);
            }
            if avx512 || avxvnni || avx2 {
                r.push(Kernel::Avx2);
            }
        },
        CpuFeatures::Other => {},
    }
    assert(r@ =~= executable(cpu));
    r
}

/// Every vector kernel the CPU can execute, widest instruction first; empty
/// on a CPU with no vector path. The scalar reference runs everywhere and is
/// not listed.
///
/// Pass one to [`crate::Lut::pin_kernel`] to bypass calibration.
pub fn supported_kernels(cpu: CpuFeatures) -> (r: Vec<Kernel>)
    ensures
        r@ == executable(cpu),
        forall|i: int| 0 <= i < r@.len() ==> !(#[trigger] r@[i] is Scalar),
{
    let r = cpu_kernels(cpu);
    proof {
        lemma_executable(cpu);
    }
    r
}

/// Every kernel the CPU can execute, the scalar reference first.
pub fn kernels_under_test(cpu: CpuFeatures) -> (r: Vec<Kernel>)
    ensures
        r@ == seq![Kernel::Scalar(ScalarReason::Forced)] + executable(cpu),
{
    let mut r: Vec<Kernel> = Vec::new();
    r.push(Kernel::Scalar(ScalarReason::Forced));
    let mut rest = cpu_kernels(cpu);
    r.append(&mut rest);
    assert(r@ =~= seq![Kernel::Scalar(ScalarReason::Forced)] + executable(cpu));
    r
}

/// The executable kernels are vector kernels, each listed once.
pub proof fn lemma_executable(cpu: CpuFeatures)
    ensures
        forall|i: int| 0 <= i < executable(cpu).len() ==> !(#[trigger] executable(cpu)[i] is Scalar),
        executable(cpu).no_duplicates(),
{
}

/// A switch is on: `1`, or `true` in any case.
pub open spec fn switched_on(value: Option<Seq<char>>) -> bool {
    match value {
        Some(v) => v == "1"@ || same_ignoring_case(v, "true"@),
        None => false,
    }
}

/// The view of an optional text.
pub open spec fn text_of(value: Option<&str>) -> Option<Seq<char>> {
    match value {
        Some(v) => Some(v@),
        None => None,
    }
}

/// Whether the value of the forced-scalar variable switches it on.
pub fn env_force_scalar(value: Option<&str>) -> (r: bool)
    ensures
        r == switched_on(text_of(value)),
{
    match value {
        Some(v) => same(v, "1") || same_but_case(v, "true"),
        None => false,
    }
}

/// Whether the value of the no-calibration variable switches it on.
pub fn env_no_calibrate(value: Option<&str>) -> (r: bool)
    ensures
        r == switched_on(text_of(value)),
{
    match value {
        Some(v) => same(v, "1") || same_but_case(v, "true"),
        None => false,
    }
}

/// The vector kernel a name stands for.
pub open spec fn named(name: Seq<char>) -> Option<Kernel> {
    if name == Kernel::NeonSdot.text() {
        Some(Kernel::NeonSdot)
    } else if name == Kernel::NeonI8mm.text() {
        Some(Kernel::NeonI8mm)
    } else if name == Kernel::Avx2.text() {
        Some(Kernel::Avx2)
    } else if name == Kernel::Avx2Vnni.text() {
        Some(Kernel::Avx2Vnni)
    } else if name == Kernel::Avx512Vnni.text() {
        Some(Kernel::Avx512Vnni)
    } else {
        None
    }
}

/// The vector kernel the value of the pin variable names, by its
/// [`Kernel::label`]. Honoured only when the CPU supports that kernel and the
/// shape is eligible; otherwise dispatch proceeds normally.
pub fn env_pin(value: Option<&str>) -> (r: Option<Kernel>)
    ensures
        r == (match value {
            Some(v) => named(v@),
            None => None,
        }),
{
    match value {
        Some(v) => {
            if same(v, "neon-sdot") {
                Some(Kernel::NeonSdot)
            } else if same(v, "neon-i8mm") {
                Some(Kernel::NeonI8mm)
            } else if same(v, "avx2") {
                Some(Kernel::Avx2)
            } else if same(v, "avx2-vnni") {
                Some(Kernel::Avx2Vnni)
            } else if same(v, "avx512-vnni") {
                Some(Kernel::Avx512Vnni)
            } else {
                None
            }
        },
        None => None,
    }
}

/// A vector kernel is named by what it is shown as, and by nothing else.
pub proof fn labels_name_their_kernels(k: Kernel)
    ensures
        !(k is Scalar) ==> named(k.text()) == Some(k),
        k is Scalar ==> named(k.text()) is None,
{
    reveal_strlit("neon-sdot");
    reveal_strlit("neon-i8mm");
    reveal_strlit("avx2");
    reveal_strlit("avx2-vnni");
    reveal_strlit("avx512-vnni");
    reveal_strlit("scalar (");
    assert("neon-sdot"@[0] == 'n' && "neon-sdot"@[5] == 's');
    assert("neon-i8mm"@[0] == 'n' && "neon-i8mm"@[5] == 'i');
    assert("avx2"@[0] == 'a' && "avx2"@.len() == 4);
    assert("avx2-vnni"@[0] == 'a' && "avx2-vnni"@.len() == 9);
    assert("avx512-vnni"@[0] == 'a' && "avx512-vnni"@.len() == 11);
    if let Kernel::Scalar(_) = k {
        assert(k.text()[0] == 's');
    }
}

/// What dispatch knows about the process: decided once and kept.
#[derive(Debug)]
pub struct Dispatch {
    kernels: Vec<Kernel>,
    force_scalar: bool,
    pin: Option<Kernel>,
    choice: Kernel,
}

/// What a [`Dispatch`] holds.
pub struct DispatchView {
    /// The vector kernels the CPU can execute.
    pub kernels: Seq<Kernel>,
    /// The process is pinned to the scalar reference.
    pub force_scalar: bool,
    /// The process is pinned to this kernel, where it can run.
    pub pin: Option<Kernel>,
    /// The calibrated choice.
    pub choice: Kernel,
}

impl DispatchView {
    /// Only vector kernels are listed. The choice is one of them, or the
    /// scalar reference where there are none or none passed the self-check.
    pub open spec fn wf(&self) -> bool {
        &&& forall|i: int| 0 <= i < self.kernels.len() ==> !(#[trigger] self.kernels[i] is Scalar)
        &&& if self.kernels.len() == 0 {
            self.choice == Kernel::Scalar(ScalarReason::CpuUnsupported)
        } else {
            self.choice == Kernel::Scalar(ScalarReason::SelfCheckFailed) || self.kernels.contains(
                self.choice,
            )
        }
    }
}

impl View for Dispatch {
    type V = DispatchView;

    closed spec fn view(&self) -> DispatchView {
        DispatchView {
            kernels: self.kernels@,
            force_scalar: self.force_scalar,
            pin: self.pin,
            choice: self.choice,
        }
    }
}

/// The shape the vector kernels accept.
pub open spec fn vectorisable(lut: LutView, dim: nat) -> bool {
    dim % 8 == 0 && dim <= MAX_DIM && lut.nibble is Some
}

/// The kernel that runs for a table and a dimension.
pub open spec fn selected(lut: LutView, dim: nat, d: DispatchView) -> Kernel {
    if lut.force_scalar || d.force_scalar {
        Kernel::Scalar(ScalarReason::Forced)
    } else if dim % 8 != 0 || dim > MAX_DIM {
        Kernel::Scalar(ScalarReason::DimNotSimdAligned)
    } else if lut.nibble is None {
        Kernel::Scalar(ScalarReason::NoNibbleTables)
    } else if lut.pin matches Some(k) && d.kernels.contains(k) {
        lut.pin->Some_0
    } else if d.pin matches Some(k) && d.kernels.contains(k) {
        d.pin->Some_0
    } else {
        d.choice
    }
}

/// The kernel for a table and a dimension does not rest on the calibrated
/// choice.
pub open spec fn settled(lut: LutView, dim: nat, d: DispatchView) -> bool {
    ||| lut.force_scalar || d.force_scalar
    ||| !vectorisable(lut, dim)
    ||| lut.pin matches Some(k) && d.kernels.contains(k)
    ||| d.pin matches Some(k) && d.kernels.contains(k)
}

/// Whether a list holds a kernel.
fn contains(kernels: &[Kernel], k: Kernel) -> (r: bool)
    ensures
        r == kernels@.contains(k),
{
    let mut i: usize = 0;
    while i < kernels.len()
        invariant
            i <= kernels@.len(),
            forall|j: int| 0 <= j < i ==> #[trigger] kernels@[j] != k,
        decreases kernels@.len() - i,
    {
        if kernels[i] == k {
            assert(kernels@[i as int] == k);
            return true;
        }
        i += 1;
    }
    false
}

impl Dispatch {
    /// Every decision is consistent.
    #[verifier::type_invariant]
    pub open spec fn consistent(self) -> bool {
        self@.wf()
    }

    /// Decide from what the CPU reports and the process's three variables:
    /// the forced-scalar switch, the pin and the no-calibration switch.
    pub fn new<A: Arith>(
        cpu: CpuFeatures,
        force_scalar: Option<&str>,
        pin: Option<&str>,
        no_calibrate: Option<&str>,
    ) -> (r: Self)
        ensures
            r@.wf(),
            r@.kernels == executable(cpu),
            r@.force_scalar == switched_on(text_of(force_scalar)),
            r@.pin == (match pin {
                Some(v) => named(v@),
                None => None,
            }),
            executable(cpu).len() == 0 <==> r@.choice == Kernel::Scalar(
                ScalarReason::CpuUnsupported,
            ),
            executable(cpu).len() > 0 && switched_on(text_of(no_calibrate)) ==> r@.choice
                == executable(cpu)[0],
            executable(cpu).len() > 0 && !switched_on(text_of(no_calibrate)) ==> measured::<A, _>(
                run::<A>,
                executable(cpu),
                r@.choice,
            ),
            executable(cpu).len() > 0 && deterministic::<A>() ==> executable(cpu).contains(
                r@.choice,
            ),
            executable(cpu).len() > 0 ==> r@.choice == Kernel::Scalar(
                ScalarReason::SelfCheckFailed,
            ) || executable(cpu).contains(r@.choice),
            deterministic::<A>() ==> r@.choice != Kernel::Scalar(ScalarReason::SelfCheckFailed),
    {
        proof {
            lemma_executable(cpu);
        }
        Dispatch {
            choice: calibrate::<A>(cpu, env_no_calibrate(no_calibrate)),
            ..Self::uncalibrated(cpu, force_scalar, pin)
        }
    }

    /// Decide without measuring: the choice is the first kernel listed, as
    /// where calibration is switched off. For the shapes whose decision does
    /// not rest on the choice (see [`Dispatch::settles`]).
    pub fn uncalibrated(cpu: CpuFeatures, force_scalar: Option<&str>, pin: Option<&str>) -> (r: Self)
        ensures
            r@.wf(),
            r@.kernels == executable(cpu),
            r@.force_scalar == switched_on(text_of(force_scalar)),
            r@.pin == (match pin {
                Some(v) => named(v@),
                None => None,
            }),
            r@.choice == (if executable(cpu).len() == 0 {
                Kernel::Scalar(ScalarReason::CpuUnsupported)
            } else {
                executable(cpu)[0]
            }),
    {
        proof {
            lemma_executable(cpu);
        }
        let kernels = cpu_kernels(cpu);
        let choice: Kernel = if kernels.len() == 0 {
            Kernel::Scalar(ScalarReason::CpuUnsupported)
        } else {
            assert(kernels@.contains(kernels@[0]));
            kernels[0]
        };
        Dispatch {
            kernels,
            force_scalar: env_force_scalar(force_scalar),
            pin: env_pin(pin),
            choice,
        }
    }

    /// Whether the kernel for a table and a dimension is settled before
    /// calibration: by a forced-scalar switch, the shape or a pin.
    pub fn settles(&self, lut: &Lut, dim: usize) -> (r: bool)
        ensures
            r == settled(lut@, dim as nat, self@),
    {
        if lut.force_scalar_set() || self.force_scalar {
            return true;
        }
        if dim % 8 != 0 || dim > MAX_DIM || lut.nibble_tables().is_none() {
            return true;
        }
        if let Some(k) = lut.pinned_kernel() {
            if contains(&self.kernels, k) {
                return true;
            }
        }
        if let Some(k) = self.pin {
            if contains(&self.kernels, k) {
                return true;
            }
        }
        false
    }

    /// The vector kernels the CPU can execute, widest instruction first.
    pub fn kernels(&self) -> (r: &[Kernel])
        ensures
            r@ == self@.kernels,
    {
        &self.kernels
    }

    /// The calibrated choice: what runs absent an override.
    pub fn choice(&self) -> (r: Kernel)
        ensures
            r == self@.choice,
    {
        self.choice
    }
}

/// The dispatch decision, in one place, so [`crate::Lut::kernel`] and the
/// scorer cannot disagree.
pub fn select(lut: &Lut, dim: usize, d: &Dispatch) -> (r: Kernel)
    ensures
        r == selected(lut@, dim as nat, d@),
        !(r is Scalar) ==> vectorisable(lut@, dim as nat) && d@.kernels.contains(r),
{
    proof {
        use_type_invariant(d);
    }
    if lut.force_scalar_set() || d.force_scalar {
        return Kernel::Scalar(ScalarReason::Forced);
    }
    if dim % 8 != 0 || dim > MAX_DIM {
        return Kernel::Scalar(ScalarReason::DimNotSimdAligned);
    }
    if lut.nibble_tables().is_none() {
        return Kernel::Scalar(ScalarReason::NoNibbleTables);
    }
    if let Some(k) = lut.pinned_kernel() {
        if contains(&d.kernels, k) {
            return k;
        }
    }
    if let Some(k) = d.pin {
        if contains(&d.kernels, k) {
            return k;
        }
    }
    d.choice
}

/// A pin that names a kernel the CPU cannot execute is ignored, and so is any
/// pin where a forced-scalar switch or the shape rules the vector kernels out.
pub proof fn a_pin_is_honoured_only_where_it_can_run(lut: LutView, dim: nat, d: DispatchView, k: Kernel)
    ensures
        lut.force_scalar || d.force_scalar || !vectorisable(lut, dim) || !d.kernels.contains(k) ==> {
            &&& selected(LutView { pin: Some(k), ..lut }, dim, d) == selected(
                LutView { pin: None, ..lut },
                dim,
                d,
            )
            &&& selected(lut, dim, DispatchView { pin: Some(k), ..d }) == selected(
                lut,
                dim,
                DispatchView { pin: None, ..d },
            )
        },
        !lut.force_scalar && !d.force_scalar && vectorisable(lut, dim) && d.kernels.contains(k)
            ==> selected(LutView { pin: Some(k), ..lut }, dim, d) == k,
{
}

/// A table without nibble tables, and a dimension that is not a multiple of
/// eight, score on the scalar reference.
pub proof fn other_shapes_score_on_the_scalar_path(lut: LutView, dim: nat, d: DispatchView)
    requires
        !vectorisable(lut, dim),
    ensures
        selected(lut, dim, d) is Scalar,
{
}

/// The calibrated choice runs exactly where nothing settles the kernel before
/// it: a table with nibble tables that is neither forced nor pinned, in a
/// process that is neither, runs it at every dimension the vector kernels
/// accept; anywhere else the choice does not matter.
pub proof fn the_choice_runs_where_nothing_settles_the_kernel(
    lut: LutView,
    dim: nat,
    d: DispatchView,
    other: Kernel,
)
    ensures
        !settled(lut, dim, d) ==> selected(lut, dim, d) == d.choice,
        settled(lut, dim, d) ==> selected(lut, dim, d) == selected(
            lut,
            dim,
            DispatchView { choice: other, ..d },
        ),
        vectorisable(lut, dim) && !lut.force_scalar && !d.force_scalar && lut.pin is None
            && d.pin is None ==> selected(lut, dim, d) == d.choice,
{
}

} // verus!
