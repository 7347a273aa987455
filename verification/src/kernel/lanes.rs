//! Vector registers as arrays of lanes, and the integer instructions the
//! kernels are made of, one function each.
use crate::sums::{lemma_lane_step, quad, sum, total};
use vstd::prelude::*;

verus! {

/// The most a lane may hold before another instruction adds to it.
pub const LANE_MAX: i32 = 0x4000_0000;

/// Every lane leaves room for another instruction.
pub open spec fn roomy(lanes: Seq<i32>) -> bool {
    forall|i: int| 0 <= i < lanes.len() ==> -LANE_MAX <= #[trigger] lanes[i] <= LANE_MAX
}

/// The four products an int8 dot instruction adds to lane `i`.
pub open spec fn dot4(a: Seq<int>, b: Seq<int>, i: int) -> int {
    a[4 * i] * b[4 * i] + a[4 * i + 1] * b[4 * i + 1] + a[4 * i + 2] * b[4 * i + 2] + a[4 * i + 3]
        * b[4 * i + 3]
}

/// Signed lanes as integers.
pub open spec fn signed(v: Seq<i8>) -> Seq<int> {
    Seq::new(v.len(), |i: int| v[i] as int)
}

/// Unsigned lanes as integers.
pub open spec fn unsigned(v: Seq<u8>) -> Seq<int> {
    Seq::new(v.len(), |i: int| v[i] as int)
}

/// `B` consecutive signed bytes.
pub fn load<const B: usize>(src: &[i8], at: usize) -> (r: [i8; B])
    requires
        at + B <= src@.len(),
    ensures
        forall|i: int| 0 <= i < B ==> #[trigger] r[i] == src@[at + i],
{
    let mut r: [i8; B] = [0i8; B];
    let len: usize = src.len();
    let mut i: usize = 0;
    while i < B
        invariant
            i <= B,
            at + B <= len,
            len == src@.len(),
            forall|j: int| 0 <= j < i ==> #[trigger] r[j] == src@[at + j],
        decreases B - i,
    {
        r[i] = src[at + i];
        i += 1;
    }
    r
}

/// `B` consecutive unsigned bytes.
pub fn load_u8<const B: usize>(src: &[u8], at: usize) -> (r: [u8; B])
    requires
        at + B <= src@.len(),
    ensures
        forall|i: int| 0 <= i < B ==> #[trigger] r[i] == src@[at + i],
{
    let mut r: [u8; B] = [0u8; B];
    let len: usize = src.len();
    let mut i: usize = 0;
    while i < B
        invariant
            i <= B,
            at + B <= len,
            len == src@.len(),
            forall|j: int| 0 <= j < i ==> #[trigger] r[j] == src@[at + j],
        decreases B - i,
    {
        r[i] = src[at + i];
        i += 1;
    }
    r
}

/// An unsigned by signed product.
fn mul_us(x: u8, y: i8) -> (r: i32)
    ensures
        r == x * y,
        -32640 <= r <= 32640,
{
    assert(-32640 <= x * y <= 32640) by (nonlinear_arith)
        requires
            0 <= x <= 255,
            -128 <= y <= 127,
    ;
    x as i32 * y as i32
}

/// A signed product.
fn mul_ss(x: i8, y: i8) -> (r: i32)
    ensures
        r == x * y,
        -32640 <= r <= 32640,
{
    assert(-32640 <= x * y <= 32640) by (nonlinear_arith)
        requires
            -128 <= x <= 127,
            -128 <= y <= 127,
    ;
    x as i32 * y as i32
}

/// `vpdpbusd`: four unsigned by signed products into each lane.
pub fn dpbusd<const L: usize, const B: usize>(acc: &[i32; L], a: &[u8; B], b: &[i8; B]) -> (r: [i32; L])
    requires
        B == 4 * L,
        roomy(acc@),
    ensures
        forall|i: int|
            0 <= i < L ==> #[trigger] r[i] == acc[i] + dot4(unsigned(a@), signed(b@), i),
{
    let mut r: [i32; L] = [0i32; L];
    let mut i: usize = 0;
    while i < L
        invariant
            i <= L,
            B == 4 * L,
            roomy(acc@),
            forall|j: int|
                0 <= j < i ==> #[trigger] r[j] == acc[j] + dot4(unsigned(a@), signed(b@), j),
        decreases L - i,
    {
        let k: usize = 4 * i;
        assert(-LANE_MAX <= acc@[i as int] <= LANE_MAX);
        r[i] = acc[i] + mul_us(a[k], b[k]) + mul_us(a[k + 1], b[k + 1]) + mul_us(
            a[k + 2],
            b[k + 2],
        ) + mul_us(a[k + 3], b[k + 3]);
        i += 1;
    }
    r
}

/// `sdot`: four signed products into each lane.
pub fn sdot(acc: &[i32; 4], a: &[i8; 16], b: &[i8; 16]) -> (r: [i32; 4])
    requires
        roomy(acc@),
    ensures
        forall|i: int|
            0 <= i < 4 ==> #[trigger] r[i] == acc[i] + dot4(signed(a@), signed(b@), i),
{
    let mut r: [i32; 4] = [0i32; 4];
    let mut i: usize = 0;
    while i < 4
        invariant
            i <= 4,
            roomy(acc@),
            forall|j: int|
                0 <= j < i ==> #[trigger] r[j] == acc[j] + dot4(signed(a@), signed(b@), j),
        decreases 4 - i,
    {
        let k: usize = 4 * i;
        assert(-LANE_MAX <= acc@[i as int] <= LANE_MAX);
        r[i] = acc[i] + mul_ss(a[k], b[k]) + mul_ss(a[k + 1], b[k + 1]) + mul_ss(
            a[k + 2],
            b[k + 2],
        ) + mul_ss(a[k + 3], b[k + 3]);
        i += 1;
    }
    r
}

/// The product of row `r` of one 2x8 matrix and row `c` of another.
pub open spec fn dot8(a: Seq<i8>, b: Seq<i8>, r: int, c: int) -> int {
    sum(|i: int| a[8 * r + i] * b[8 * c + i], 8)
}

/// `smmla`: the 2x2 product of two 2x8 matrices into the four lanes
/// `[a0 b0, a0 b1, a1 b0, a1 b1]`.
pub fn smmla(acc: &[i32; 4], a: &[i8; 16], b: &[i8; 16]) -> (r: [i32; 4])
    requires
        roomy(acc@),
    ensures
        forall|i: int| 0 <= i < 4 ==> #[trigger] r[i] == acc[i] + dot8(a@, b@, i / 2, i % 2),
{
    let mut out: [i32; 4] = [0i32; 4];
    let mut x: usize = 0;
    while x < 4
        invariant
            x <= 4,
            roomy(acc@),
            forall|j: int| 0 <= j < x ==> #[trigger] out[j] == acc[j] + dot8(a@, b@, j / 2, j % 2),
        decreases 4 - x,
    {
        let r: usize = x / 2;
        let c: usize = x % 2;
        let ghost f = |i: int| a@[8 * r + i] * b@[8 * c + i];
        assert(-LANE_MAX <= acc@[x as int] <= LANE_MAX);
        let mut lane: i32 = acc[x];
        let mut i: usize = 0;
        while i < 8
            invariant
                i <= 8,
                r < 2,
                c < 2,
                x < 4,
                f == |i: int| a@[8 * r + i] * b@[8 * c + i],
                lane == acc[x as int] + sum(f, i as int),
                -LANE_MAX - 32640 * i <= lane <= LANE_MAX + 32640 * i,
            decreases 8 - i,
        {
            let p: i32 = mul_ss(a[8 * r + i], b[8 * c + i]);
            assert(p == f(i as int));
            lane = lane + p;
            i += 1;
        }
        out[x] = lane;
        x += 1;
    }
    out
}

/// `vpabsb`: magnitudes.
pub fn abs_epi8<const B: usize>(v: &[i8; B]) -> (r: [u8; B])
    ensures
        forall|i: int|
            0 <= i < B ==> #[trigger] r[i] == (if v[i] < 0 {
                -(v[i] as int)
            } else {
                v[i] as int
            }),
{
    let mut r: [u8; B] = [0u8; B];
    let mut i: usize = 0;
    while i < B
        invariant
            i <= B,
            forall|j: int|
                0 <= j < i ==> #[trigger] r[j] == (if v[j] < 0 {
                    -(v[j] as int)
                } else {
                    v[j] as int
                }),
        decreases B - i,
    {
        let x: i16 = v[i] as i16;
        r[i] = if x < 0 {
            (-x) as u8
        } else {
            x as u8
        };
        i += 1;
    }
    r
}

/// `vpsignb`: `v` with the sign of `s` applied, zero where `s` is zero.
pub fn sign_epi8<const B: usize>(v: &[i8; B], s: &[i8; B]) -> (r: [i8; B])
    requires
        forall|i: int| 0 <= i < B ==> #[trigger] v[i] != -128,
    ensures
        forall|i: int|
            0 <= i < B ==> #[trigger] r[i] == (if s[i] < 0 {
                -(v[i] as int)
            } else if s[i] == 0 {
                0
            } else {
                v[i] as int
            }),
{
    let mut r: [i8; B] = [0i8; B];
    let mut i: usize = 0;
    while i < B
        invariant
            i <= B,
            forall|j: int| 0 <= j < B ==> #[trigger] v[j] != -128,
            forall|j: int|
                0 <= j < i ==> #[trigger] r[j] == (if s[j] < 0 {
                    -(v[j] as int)
                } else if s[j] == 0 {
                    0
                } else {
                    v[j] as int
                }),
        decreases B - i,
    {
        assert(v[i as int] != -128);
        r[i] = if s[i] < 0 {
            -v[i]
        } else if s[i] == 0 {
            0
        } else {
            v[i]
        };
        i += 1;
    }
    r
}

/// `vpmovb2m` and a masked `vpsubb` from zero: `v` negated exactly in the
/// lanes where `s` has its sign bit set.
pub fn negate_where<const B: usize>(v: &[i8; B], s: &[i8; B]) -> (r: [i8; B])
    requires
        forall|i: int| 0 <= i < B ==> #[trigger] v[i] != -128,
    ensures
        forall|i: int|
            0 <= i < B ==> #[trigger] r[i] == (if s[i] < 0 {
                -(v[i] as int)
            } else {
                v[i] as int
            }),
{
    let mut r: [i8; B] = [0i8; B];
    let mut i: usize = 0;
    while i < B
        invariant
            i <= B,
            forall|j: int| 0 <= j < B ==> #[trigger] v[j] != -128,
            forall|j: int|
                0 <= j < i ==> #[trigger] r[j] == (if s[j] < 0 {
                    -(v[j] as int)
                } else {
                    v[j] as int
                }),
        decreases B - i,
    {
        assert(v[i as int] != -128);
        r[i] = if s[i] < 0 {
            -v[i]
        } else {
            v[i]
        };
        i += 1;
    }
    r
}

/// A 16-bit value; what lies beyond either end stays at the end.
pub open spec fn saturated(x: int) -> int {
    if x > 32767 {
        32767
    } else if x < -32768 {
        -32768
    } else {
        x
    }
}

/// `vpmaddubsw`: pairs of unsigned by signed products, saturated to 16 bits.
pub fn maddubs(a: &[u8; 32], b: &[i8; 32]) -> (r: [i16; 16])
    ensures
        forall|i: int|
            0 <= i < 16 ==> #[trigger] r[i] == saturated(
                a[2 * i] * b[2 * i] + a[2 * i + 1] * b[2 * i + 1],
            ),
{
    let mut r: [i16; 16] = [0i16; 16];
    let mut i: usize = 0;
    while i < 16
        invariant
            i <= 16,
            forall|j: int|
                0 <= j < i ==> #[trigger] r[j] == saturated(
                    a[2 * j] * b[2 * j] + a[2 * j + 1] * b[2 * j + 1],
                ),
        decreases 16 - i,
    {
        let x: i32 = mul_us(a[2 * i], b[2 * i]) + mul_us(a[2 * i + 1], b[2 * i + 1]);
        r[i] = if x > 32767 {
            32767
        } else if x < -32768 {
            -32768
        } else {
            x as i16
        };
        i += 1;
    }
    r
}

/// `vpmaddwd` against ones: adjacent 16-bit lanes added into 32 bits.
pub fn madd_ones(v: &[i16; 16]) -> (r: [i32; 8])
    ensures
        forall|i: int| 0 <= i < 8 ==> #[trigger] r[i] == v[2 * i] + v[2 * i + 1],
{
    let mut r: [i32; 8] = [0i32; 8];
    let mut i: usize = 0;
    while i < 8
        invariant
            i <= 8,
            forall|j: int| 0 <= j < i ==> #[trigger] r[j] == v[2 * j] + v[2 * j + 1],
        decreases 8 - i,
    {
        r[i] = v[2 * i] as i32 + v[2 * i + 1] as i32;
        i += 1;
    }
    r
}

/// `vpaddd`: lanes added.
pub fn add_epi32<const L: usize>(a: &[i32; L], b: &[i32; L]) -> (r: [i32; L])
    requires
        forall|i: int| 0 <= i < L ==> i32::MIN <= #[trigger] a[i] + b[i] <= i32::MAX,
    ensures
        forall|i: int| 0 <= i < L ==> #[trigger] r[i] == a[i] + b[i],
{
    let mut r: [i32; L] = [0i32; L];
    let mut i: usize = 0;
    while i < L
        invariant
            i <= L,
            forall|j: int| 0 <= j < L ==> i32::MIN <= #[trigger] a[j] + b[j] <= i32::MAX,
            forall|j: int| 0 <= j < i ==> #[trigger] r[j] == a[j] + b[j],
        decreases L - i,
    {
        assert(i32::MIN <= a[i as int] + b[i as int] <= i32::MAX);
        r[i] = a[i] + b[i];
        i += 1;
    }
    r
}

/// Lanes below `n * 16129` in magnitude whose total is the sum of the first
/// `n` products.
pub open spec fn accumulates(lanes: Seq<i32>, f: spec_fn(int) -> int, n: int) -> bool {
    &&& 0 <= n <= 256
    &&& total(lanes) == sum(f, n)
    &&& forall|i: int| 0 <= i < lanes.len() ==> -16129 * n <= #[trigger] lanes[i] <= 16129 * n
}

/// Fresh lanes hold the empty sum.
pub proof fn lemma_accumulates_nothing(lanes: Seq<i32>, f: spec_fn(int) -> int)
    requires
        forall|i: int| 0 <= i < lanes.len() ==> #[trigger] lanes[i] == 0,
    ensures
        accumulates(lanes, f, 0),
{
    crate::sums::lemma_sum_zero(|i: int| lanes[i] as int, 0, lanes.len() as int);
}

pub proof fn lemma_accumulates_roomy(lanes: Seq<i32>, f: spec_fn(int) -> int, n: int)
    requires
        accumulates(lanes, f, n),
    ensures
        roomy(lanes),
{
    assert forall|i: int| 0 <= i < lanes.len() implies -LANE_MAX <= #[trigger] lanes[i]
        <= LANE_MAX by {
        assert(-16129 * n <= lanes[i] <= 16129 * n);
    }
}

/// One instruction over all lanes covers the next `4 * lanes` products.
pub proof fn lemma_accumulates_step(
    before: Seq<i32>,
    after: Seq<i32>,
    f: spec_fn(int) -> int,
    k: int,
)
    requires
        accumulates(before, f, k),
        before.len() == after.len(),
        0 < before.len(),
        k + 4 * before.len() <= 256,
        forall|i: int| 0 <= i < before.len() ==> #[trigger] after[i] == before[i] + quad(f, k + 4 * i),
        forall|p: int| k <= p < k + 4 * before.len() ==> -16129 <= #[trigger] f(p) <= 16129,
    ensures
        accumulates(after, f, k + 4 * before.len()),
{
    lemma_lane_step(f, k, before, after);
    let n = k + 4 * before.len();
    assert forall|i: int| 0 <= i < after.len() implies -16129 * n <= #[trigger] after[i] <= 16129
        * n by {
        let p = k + 4 * i;
        assert(-16129 * k <= before[i] <= 16129 * k);
        assert(-16129 <= f(p) <= 16129);
        assert(-16129 <= f(p + 1) <= 16129);
        assert(-16129 <= f(p + 2) <= 16129);
        assert(-16129 <= f(p + 3) <= 16129);
        assert(after[i] == before[i] + quad(f, p));
    }
}

/// The lanes added up.
pub fn reduce_add<const L: usize>(lanes: &[i32; L]) -> (r: i32)
    requires
        L <= 64,
        forall|i: int| 0 <= i < L ==> -0x100_0000 <= #[trigger] lanes[i] <= 0x100_0000,
    ensures
        r == total(lanes@),
{
    let ghost f = |i: int| lanes@[i] as int;
    let mut r: i32 = 0;
    let mut i: usize = 0;
    while i < L
        invariant
            i <= L <= 64,
            f == |i: int| lanes@[i] as int,
            forall|j: int| 0 <= j < L ==> -0x100_0000 <= #[trigger] lanes[j] <= 0x100_0000,
            r == sum(f, i as int),
            -0x100_0000 * i <= r <= 0x100_0000 * i,
        decreases L - i,
    {
        assert(-0x100_0000 <= lanes[i as int] <= 0x100_0000);
        assert(f(i as int) == lanes[i as int]);
        r = r + lanes[i];
        i += 1;
    }
    r
}

} // verus!
