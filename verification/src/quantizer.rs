//! Two-level quantization of rotated vectors.
//!
//! A rotated vector (optionally taken relative to a centroid) is encoded as
//! a one-bit-per-dimension sign code plus, when `ex_bits > 0`, an extended
//! magnitude code of `ex_bits` bits per dimension.  Each residual coordinate
//! `r` is placed on the uniform grid of `2^(ex_bits+1)` cells covering
//! `[-m, m]`, where `m` is the vector's largest residual magnitude; the top
//! bit of the cell index is the sign bit and the low bits are the extended
//! code.  The per-vector correction scalars needed later by the estimators
//! ride along with the codes.

use vstd::prelude::*;
use vstd::arithmetic::div_mod::{
    lemma_basic_div, lemma_div_pos_is_pos, lemma_fundamental_div_mod, lemma_hoist_over_denominator,
    lemma_mod_bound, lemma_mod_multiples_vanish,
};
use vstd::arithmetic::power2::{lemma2_to64, pow2};
use crate::mathspec::{
    COORD_LIMIT, DIM_MAX, RES_LIMIT, abs_i, lemma_max_abs_ge, lemma_max_abs_nonneg,
    lemma_max_abs_take, lemma_pack_word_bit, lemma_pack_word_bound, lemma_rdiv_error,
    lemma_sum_of_take, lemma_sums_bounded, pack_word, pow2_small, rdiv, spec_rdiv, sum_abs,
    sum_sq, to_ints,
};

verus! {

/// Distance metric scored by the estimators.
#[derive(Clone, Copy, Debug, PartialEq, Eq, Structural)]
pub enum MetricType {
    L2,
    InnerProduct,
}

/// Why a construction or encoding request was rejected.
#[derive(Clone, Copy, Debug, PartialEq, Eq, Structural)]
pub enum RabitqError {
    DimensionMismatch,
    UnsupportedDimension,
    UnsupportedExBits,
    CoordinateOutOfRange,
}

/// Shared tuning surface for the quantizer and the estimators.  All knobs
/// currently take their defaults; the type pins call sites to one
/// configuration object so encoder and scorer agree.
pub struct RabitqConfig {}

impl RabitqConfig {
    pub fn new() -> (r: RabitqConfig) {
        RabitqConfig {}
    }
}

/// Largest extended-bit count supported under a metric.
pub open spec fn spec_max_ex_bits(metric: MetricType) -> int {
    7
}

pub fn max_ex_bits(metric: MetricType) -> (r: usize)
    ensures
        r == spec_max_ex_bits(metric),
{
    7
}

/// Residual of a vector against a centroid.
pub open spec fn residual_seq(v: Seq<int>, c: Seq<int>) -> Seq<int> {
    Seq::new(v.len(), |i: int| v[i] - c[i])
}

/// Cell index of residual `r` on the signed uniform grid with `2^(bits+1)`
/// cells over `[-m, m]`.  The top bit of the index is the sign of `r`.
pub open spec fn spec_ulevel(r: int, m: int, bits: nat) -> int {
    let l = pow2(bits) as int;
    if m <= 0 {
        l
    } else {
        let u = ((r + m) * l) / m;
        if u > 2 * l - 1 {
            2 * l - 1
        } else {
            u
        }
    }
}

/// Extended code of residual `r`: the cell index with its sign bit removed.
pub open spec fn spec_ex_level(r: int, m: int, bits: nat) -> int {
    let l = pow2(bits) as int;
    let u = spec_ulevel(r, m, bits);
    if u >= l {
        u - l
    } else {
        u
    }
}

/// Reconstruction of a residual from its cell index: the cell midpoint,
/// rounded to the integer grid.
pub open spec fn spec_recon(r: int, m: int, bits: nat) -> int {
    let l = pow2(bits) as int;
    spec_rdiv(m * (2 * spec_ulevel(r, m, bits) + 1 - 2 * l), 2 * l)
}

/// Reading one bit out of a packed word vector.
pub open spec fn word_bit(words: Seq<u64>, i: int) -> bool {
    ((words[i / 64] as int) / (pow2((i % 64) as nat) as int)) % 2 == 1
}

/// One-bit sign code of a quantized vector, with the correction scalars the
/// estimators need: `f_add` is the squared norm of the residual, `f_rescale`
/// the sum of absolute residuals, and `f_error` the largest residual
/// magnitude.  `res` records, as ghost state, the residual the code was
/// produced from.
pub struct BinaryCode {
    pub bits: Vec<u64>,
    pub f_add: i64,
    pub f_rescale: i64,
    pub f_error: i64,
    pub dim: usize,
    pub res: Ghost<Seq<int>>,
}

impl BinaryCode {
    pub open spec fn wf(&self) -> bool {
        &&& 1 <= self.dim <= DIM_MAX
        &&& self.res@.len() == self.dim
        &&& forall|i: int| 0 <= i < self.dim ==> abs_i(#[trigger] self.res@[i]) <= RES_LIMIT
        &&& self.bits@.len() == (self.dim + 63) / 64
        &&& forall|i: int|
            0 <= i < self.dim ==> word_bit(self.bits@, i) == (#[trigger] self.res@[i] >= 0)
        &&& self.f_add == sum_sq(self.res@)
        &&& self.f_rescale == sum_abs(self.res@)
        &&& self.f_error == crate::mathspec::max_abs(self.res@)
    }
}

/// Extended magnitude code: `ex_bits` bits per dimension plus the grid range
/// and the same correction scalars as the sign code, so that refinement can
/// run without the sign code's scalars at hand.
pub struct ExtendedCode {
    pub levels: Vec<u8>,
    pub range: i64,
    pub f_add: i64,
    pub f_rescale: i64,
    pub ex_bits: usize,
    pub dim: usize,
    pub res: Ghost<Seq<int>>,
}

impl ExtendedCode {
    pub open spec fn wf(&self) -> bool {
        &&& 1 <= self.dim <= DIM_MAX
        &&& self.ex_bits <= 7
        &&& self.res@.len() == self.dim
        &&& forall|i: int| 0 <= i < self.dim ==> abs_i(#[trigger] self.res@[i]) <= RES_LIMIT
        &&& self.levels@.len() == self.dim
        &&& forall|i: int|
            0 <= i < self.dim ==> #[trigger] self.levels@[i] as int == spec_ex_level(
                self.res@[i],
                self.range as int,
                self.ex_bits as nat,
            )
        &&& self.range == crate::mathspec::max_abs(self.res@)
        &&& self.f_add == sum_sq(self.res@)
        &&& self.f_rescale == sum_abs(self.res@)
    }
}

/// Single-buffer code: the full cell index (sign and magnitude interleaved)
/// per dimension, with the same scalars as the split pair.
pub struct FullCode {
    pub levels: Vec<u16>,
    pub range: i64,
    pub f_add: i64,
    pub f_rescale: i64,
    pub ex_bits: usize,
    pub dim: usize,
    pub res: Ghost<Seq<int>>,
}

impl FullCode {
    pub open spec fn wf(&self) -> bool {
        &&& 1 <= self.dim <= DIM_MAX
        &&& self.ex_bits <= 7
        &&& self.res@.len() == self.dim
        &&& forall|i: int| 0 <= i < self.dim ==> abs_i(#[trigger] self.res@[i]) <= RES_LIMIT
        &&& self.levels@.len() == self.dim
        &&& forall|i: int|
            0 <= i < self.dim ==> #[trigger] self.levels@[i] as int == spec_ulevel(
                self.res@[i],
                self.range as int,
                self.ex_bits as nat,
            )
        &&& self.range == crate::mathspec::max_abs(self.res@)
        &&& self.f_add == sum_sq(self.res@)
        &&& self.f_rescale == sum_abs(self.res@)
    }
}

/// Packs one bool per dimension into 64-bit words, least significant bit
/// first.
fn pack_bits(flags: &Vec<bool>) -> (words: Vec<u64>)
    requires
        flags@.len() <= DIM_MAX,
    ensures
        words@.len() == (flags@.len() + 63) / 64,
        forall|i: int| 0 <= i < flags@.len() ==> word_bit(words@, i) == flags@[i],
{
    let ghost levels01: Seq<int> = Seq::new(flags@.len(), |i: int| if flags@[i] { 1int } else { 0int });
    let n = flags.len();
    let nwords = (n + 63) / 64;
    let mut words: Vec<u64> = Vec::new();
    let mut j: usize = 0;
    while j < nwords
        invariant
            j <= nwords,
            nwords == (n + 63) / 64,
            n == flags@.len(),
            n <= DIM_MAX,
            levels01 == Seq::new(flags@.len(), |i: int| if flags@[i] { 1int } else { 0int }),
            words@.len() == j,
            forall|i: int| 0 <= i < n && i < j * 64 ==> word_bit(words@, i) == flags@[i],
        decreases nwords - j,
    {
        let base = j * 64;
        let count = if n - base < 64 {
            n - base
        } else {
            64
        };
        proof {
            lemma2_to64();
            vstd::arithmetic::power2::lemma2_to64_rest();
            assert(forall|s: int| 0 <= s < n ==> 0 <= #[trigger] levels01[s] <= 1);
        }
        let mut w: u64 = 0;
        let mut p: u64 = 1;
        let mut k: usize = 0;
        while k < count
            invariant
                k <= count <= 64,
                base + count <= n,
                n == flags@.len(),
                levels01 == Seq::new(flags@.len(), |i: int| if flags@[i] { 1int } else { 0int }),
                w as int == pack_word(levels01, base as int, k as nat, 1),
                k < 64 ==> p as int == pow2(k as nat),
            decreases count - k,
        {
            proof {
                lemma2_to64();
                vstd::arithmetic::power2::lemma2_to64_rest();
                assert(forall|s: int| 0 <= s < n ==> 0 <= #[trigger] levels01[s] <= 1);
                assert(forall|s: int|
                    base <= s < base + k ==> 0 <= #[trigger] levels01[s] < pow2(1));
                lemma_pack_word_bound(levels01, base as int, k as nat, 1);
                assert(1 * (k as nat) == k as nat) by (nonlinear_arith);
                assert((w as int) < pow2(k as nat));
                if k < 63 {
                    vstd::arithmetic::power2::lemma_pow2_strictly_increases(k as nat, 63);
                }
                assert(pow2(k as nat) <= pow2(63));
            }
            let b: u64 = if flags[base + k] {
                1
            } else {
                0
            };
            w = w + b * p;
            if k + 1 < 64 {
                p = p * 2;
                proof {
                    vstd::arithmetic::power2::lemma_pow2_unfold((k + 1) as nat);
                }
            }
            k = k + 1;
        }
        proof {
            assert(forall|s: int| 0 <= s < n ==> 0 <= #[trigger] levels01[s] <= 1);
            assert forall|t: int| 0 <= t < count implies (w as int) / ((#[trigger] pow2(
                t as nat,
            )) as int) % 2 == levels01[base + t] by {
                lemma_pack_word_bit(levels01, base as int, count as nat, t);
            }
        }
        words.push(w);
        proof {
            assert forall|i: int| 0 <= i < n && i < (j + 1) * 64 implies word_bit(words@, i)
                == flags@[i] by {
                if i < j * 64 {
                    assert(words@[i / 64] == words@.drop_last()[i / 64]) by {
                        assert(0 <= i / 64 < j);
                    }
                } else {
                    let t = i - j * 64;
                    assert(0 <= t < count);
                    lemma_hoist_over_denominator(t, j as int, 64nat);
                    lemma_basic_div(t, 64);
                    assert(i / 64 == j as int);
                    lemma_mod_multiples_vanish(j as int, t, 64);
                    assert((j as int * 64 + t) % 64 == t % 64);
                    vstd::arithmetic::div_mod::lemma_small_mod(t as nat, 64nat);
                    assert(i % 64 == t);
                    assert(words@[j as int] == w);
                }
            }
        }
        j = j + 1;
    }
    proof {
        lemma_fundamental_div_mod(n as int + 63, 64);
        lemma_mod_bound(n as int + 63, 64);
        assert(j * 64 >= n) by (nonlinear_arith)
            requires
                j == (n as int + 63) / 64,
                n as int + 63 == 64 * ((n as int + 63) / 64) + (n as int + 63) % 64,
                0 <= (n as int + 63) % 64 < 64,
        ;
    }
    words
}

/// The sign of the residual is the top bit of its cell index.
pub proof fn lemma_ulevel_sign(r: int, m: int, bits: nat)
    requires
        m >= 0,
        abs_i(r) <= m,
    ensures
        spec_ulevel(r, m, bits) >= pow2(bits) <==> r >= 0,
        0 <= spec_ulevel(r, m, bits) < 2 * pow2(bits),
{
    let l = pow2(bits) as int;
    vstd::arithmetic::power2::lemma_pow2_pos(bits);
    if m == 0 {
    } else {
        let u0 = ((r + m) * l) / m;
        lemma_div_pos_is_pos((r + m) * l, m);
        assert((r + m) * l >= 0) by (nonlinear_arith)
            requires
                r + m >= 0,
                l >= 1,
        ;
        if r >= 0 {
            assert((r + m) * l >= m * l) by (nonlinear_arith)
                requires
                    r >= 0,
                    l >= 1,
            ;
            assert((m * l) / m == l) by {
                vstd::arithmetic::div_mod::lemma_div_multiples_vanish(l, m);
            }
            vstd::arithmetic::div_mod::lemma_div_is_ordered(m * l, (r + m) * l, m);
            assert(u0 >= l);
        } else {
            assert((r + m) * l <= (m - 1) * l) by (nonlinear_arith)
                requires
                    r <= -1,
                    l >= 1,
            ;
            assert((m - 1) * l < m * l) by (nonlinear_arith)
                requires
                    l >= 1,
            ;
            assert(u0 < l) by {
                vstd::arithmetic::div_mod::lemma_multiply_divide_lt((r + m) * l, m, l);
            }
        }
    }
}

/// The reconstructed residual sits within half a grid cell (plus rounding)
/// of the original: `2^(bits+1) * |recon - r| <= m + 2^(bits+1)`.
pub proof fn lemma_recon_error(r: int, m: int, bits: nat)
    requires
        m >= 0,
        abs_i(r) <= m,
    ensures
        2 * pow2(bits) * abs_i(spec_recon(r, m, bits) - r) <= m + 2 * pow2(bits),
{
    let l = pow2(bits) as int;
    vstd::arithmetic::power2::lemma_pow2_pos(bits);
    let u = spec_ulevel(r, m, bits);
    let num = m * (2 * u + 1 - 2 * l);
    let rec = spec_rdiv(num, 2 * l);
    lemma_rdiv_error(num, 2 * l);
    // |2l * rec - num| <= l
    assert(-(2 * l) <= 2 * ((2 * l) * rec - num) <= 2 * l);
    lemma_ulevel_sign(r, m, bits);
    if m == 0 {
        assert(r == 0);
        assert(num == 0);
        assert(rec == 0) by {
            vstd::arithmetic::div_mod::lemma_basic_div(0, 2 * l);
            assert(spec_rdiv(0, 2 * l) == (2 * l) / (2 * (2 * l)));
            vstd::arithmetic::div_mod::lemma_basic_div(2 * l, 2 * (2 * l));
        }
    } else {
        let u0 = ((r + m) * l) / m;
        lemma_fundamental_div_mod((r + m) * l, m);
        lemma_mod_bound((r + m) * l, m);
        let rho = ((r + m) * l) % m;
        assert((r + m) * l == m * u0 + rho);
        if u0 > 2 * l - 1 {
            // Clamped cell: only r == m reaches it.
            assert(u == 2 * l - 1);
            assert(m * u0 >= m * (2 * l)) by (nonlinear_arith)
                requires
                    u0 >= 2 * l,
                    m >= 1,
            ;
            assert((r + m) * l >= 2 * m * l) by (nonlinear_arith)
                requires
                    m * u0 + rho >= m * (2 * l),
                    rho < m,
                    (r + m) * l == m * u0 + rho,
                    m >= 1,
                    l >= 1,
            ;
            assert(r >= m) by (nonlinear_arith)
                requires
                    (r + m) * l >= 2 * m * l,
                    l >= 1,
            ;
            assert(r == m);
            assert(num - 2 * l * r == -m) by (nonlinear_arith)
                requires
                    num == m * (2 * (2 * l - 1) + 1 - 2 * l),
                    r == m,
            ;
        } else {
            assert(u == u0);
            assert(num - 2 * l * r == m - 2 * rho) by (nonlinear_arith)
                requires
                    num == m * (2 * u + 1 - 2 * l),
                    (r + m) * l == m * u + rho,
            ;
            assert(-m < num - 2 * l * r <= m);
        }
    }
    assert(2 * l * abs_i(rec - r) <= m + 2 * l) by (nonlinear_arith)
        requires
            -(2 * l) <= 2 * ((2 * l) * rec - num) <= 2 * l,
            -m <= num - 2 * l * r <= m,
            l >= 1,
            m >= 0,
    ;
}

/// The guaranteed reconstruction error step shrinks as `ex_bits` grows:
/// with `step(b) = (m + 2^(b+1)) / 2^(b+1)`, cross-multiplying gives
/// `step(b1) <= step(b2)` whenever `b1 >= b2`.
pub proof fn lemma_recon_error_monotone(m: int, b1: nat, b2: nat)
    requires
        m >= 0,
        b1 >= b2,
    ensures
        (m + 2 * pow2(b1)) * (2 * pow2(b2)) <= (m + 2 * pow2(b2)) * (2 * pow2(b1)),
{
    vstd::arithmetic::power2::lemma_pow2_pos(b1);
    vstd::arithmetic::power2::lemma_pow2_pos(b2);
    if b1 > b2 {
        vstd::arithmetic::power2::lemma_pow2_strictly_increases(b2, b1);
    }
    let p1 = pow2(b1) as int;
    let p2 = pow2(b2) as int;
    assert((m + 2 * p1) * (2 * p2) <= (m + 2 * p2) * (2 * p1)) by (nonlinear_arith)
        requires
            1 <= p2 <= p1,
            m >= 0,
    ;
}

/// Shared encoding core: residual statistics, sign code, extended levels.
/// `rotated` and `centroid` must have the same supported dimension and
/// in-range coordinates, and `ex_bits` must be supported for the metric.
pub fn quantize_split_single(
    rotated: &Vec<i64>,
    centroid: &Vec<i64>,
    ex_bits: usize,
    metric: MetricType,
    config: &RabitqConfig,
) -> (r: (BinaryCode, ExtendedCode))
    requires
        rotated@.len() == centroid@.len(),
        1 <= rotated@.len() <= DIM_MAX,
        ex_bits <= spec_max_ex_bits(metric),
        forall|i: int|
            0 <= i < rotated@.len() ==> abs_i(#[trigger] rotated@[i] as int) <= COORD_LIMIT,
        forall|i: int|
            0 <= i < centroid@.len() ==> abs_i(#[trigger] centroid@[i] as int) <= COORD_LIMIT,
    ensures
        r.0.wf(),
        r.1.wf(),
        r.0.res@ == residual_seq(to_ints(rotated@), to_ints(centroid@)),
        r.1.res@ == r.0.res@,
        r.0.dim == rotated@.len(),
        r.1.dim == rotated@.len(),
        r.1.ex_bits == ex_bits,
        r.1.range == r.0.f_error,
        r.1.f_add == r.0.f_add,
        r.1.f_rescale == r.0.f_rescale,
{
    let n = rotated.len();
    let ghost rseq = residual_seq(to_ints(rotated@), to_ints(centroid@));
    proof {
        assert forall|i: int| 0 <= i < n implies abs_i(#[trigger] rseq[i]) <= RES_LIMIT by {}
    }
    // Residuals.
    let mut res_v: Vec<i64> = Vec::new();
    let mut i: usize = 0;
    while i < n
        invariant
            i <= n,
            n == rotated@.len() == centroid@.len(),
            res_v@.len() == i,
            rseq == residual_seq(to_ints(rotated@), to_ints(centroid@)),
            forall|t: int| 0 <= t < i ==> #[trigger] res_v@[t] as int == rseq[t],
            forall|t: int|
                0 <= t < rotated@.len() ==> abs_i(#[trigger] rotated@[t] as int) <= COORD_LIMIT,
            forall|t: int|
                0 <= t < centroid@.len() ==> abs_i(#[trigger] centroid@[t] as int) <= COORD_LIMIT,
        decreases n - i,
    {
        res_v.push(rotated[i] - centroid[i]);
        i = i + 1;
    }
    // Statistics: squared norm, absolute sum, largest magnitude.
    let mut ssq: i64 = 0;
    let mut sab: i64 = 0;
    let mut m: i64 = 0;
    let mut k: usize = 0;
    while k < n
        invariant
            k <= n,
            n == rseq.len(),
            res_v@.len() == n,
            n <= DIM_MAX,
            forall|t: int| 0 <= t < n ==> #[trigger] res_v@[t] as int == rseq[t],
            forall|t: int| 0 <= t < n ==> abs_i(#[trigger] rseq[t]) <= RES_LIMIT,
            ssq == sum_sq(rseq.take(k as int)),
            sab == sum_abs(rseq.take(k as int)),
            m == crate::mathspec::max_abs(rseq.take(k as int)),
            0 <= ssq <= (k as int) * (RES_LIMIT as int * RES_LIMIT as int),
            0 <= sab <= (k as int) * (RES_LIMIT as int),
            0 <= m <= RES_LIMIT,
        decreases n - k,
    {
        let x = res_v[k];
        let ax: i64 = if x >= 0 {
            x
        } else {
            -x
        };
        proof {
            lemma_sum_of_take(rseq, k as int);
            lemma_max_abs_take(rseq, k as int);
            assert(x as int == rseq[k as int]);
            assert(abs_i(rseq[k as int]) <= RES_LIMIT);
            assert(x as int * x as int <= RES_LIMIT as int * RES_LIMIT as int && x as int * x as int
                >= 0) by (nonlinear_arith)
                requires
                    -(RES_LIMIT as int) <= x as int <= RES_LIMIT as int,
            ;
            assert((k as int + 1) * (RES_LIMIT as int * RES_LIMIT as int) == (k as int) * (
            RES_LIMIT as int * RES_LIMIT as int) + RES_LIMIT as int * RES_LIMIT as int)
                by (nonlinear_arith);
            assert((k as int) * (RES_LIMIT as int * RES_LIMIT as int) <= (DIM_MAX as int) * (
            RES_LIMIT as int * RES_LIMIT as int)) by (nonlinear_arith)
                requires
                    0 <= k as int <= DIM_MAX as int,
            ;
            assert((k as int + 1) * (RES_LIMIT as int) == (k as int) * (RES_LIMIT as int)
                + RES_LIMIT as int) by (nonlinear_arith);
            assert((k as int) * (RES_LIMIT as int) <= (DIM_MAX as int) * (RES_LIMIT as int))
                by (nonlinear_arith)
                requires
                    0 <= k as int <= DIM_MAX as int,
            ;
        }
        ssq = ssq + x * x;
        sab = sab + ax;
        if ax > m {
            m = ax;
        }
        k = k + 1;
    }
    proof {
        assert(rseq.take(n as int) =~= rseq);
    }
    // Sign code.
    let mut flags: Vec<bool> = Vec::new();
    let mut t: usize = 0;
    while t < n
        invariant
            t <= n,
            res_v@.len() == n,
            n == rseq.len(),
            n <= DIM_MAX,
            flags@.len() == t,
            forall|s: int| 0 <= s < n ==> #[trigger] res_v@[s] as int == rseq[s],
            forall|s: int| 0 <= s < t ==> #[trigger] flags@[s] == (rseq[s] >= 0),
        decreases n - t,
    {
        flags.push(res_v[t] >= 0);
        t = t + 1;
    }
    let words = pack_bits(&flags);
    // Extended levels.
    let l: i64 = pow2_small(ex_bits);
    let mut levels: Vec<u8> = Vec::new();
    let mut q: usize = 0;
    while q < n
        invariant
            q <= n,
            res_v@.len() == n,
            n == rseq.len(),
            n <= DIM_MAX,
            levels@.len() == q,
            l == pow2(ex_bits as nat),
            1 <= l <= 128,
            ex_bits <= 7,
            m == crate::mathspec::max_abs(rseq),
            0 <= m <= RES_LIMIT,
            forall|s: int| 0 <= s < n ==> #[trigger] res_v@[s] as int == rseq[s],
            forall|s: int| 0 <= s < n ==> abs_i(#[trigger] rseq[s]) <= RES_LIMIT,
            forall|s: int|
                0 <= s < q ==> #[trigger] levels@[s] as int == spec_ex_level(
                    rseq[s],
                    m as int,
                    ex_bits as nat,
                ),
        decreases n - q,
    {
        let x = res_v[q];
        proof {
            assert(x as int == rseq[q as int]);
            lemma_max_abs_ge(rseq, q as int);
            assert(abs_i(x as int) <= m as int);
            lemma_ulevel_sign(rseq[q as int], m as int, ex_bits as nat);
        }
        let u: i64 = if m == 0 {
            l
        } else {
            proof {
                assert(0 <= (x + m) as int <= 2 * (RES_LIMIT as int));
                assert(((x + m) as int) * (l as int) <= (2 * (RES_LIMIT as int)) * 128)
                    by (nonlinear_arith)
                    requires
                        0 <= (x + m) as int <= 2 * (RES_LIMIT as int),
                        0 <= l as int <= 128,
                ;
            }
            let raw: u64 = (((x + m) as u64) * (l as u64)) / (m as u64);
            if raw > (2 * l - 1) as u64 {
                2 * l - 1
            } else {
                raw as i64
            }
        };
        proof {
            assert(u as int == spec_ulevel(rseq[q as int], m as int, ex_bits as nat));
            assert(0 <= u as int && (u as int) < 2 * l);
        }
        let e: i64 = if u >= l {
            u - l
        } else {
            u
        };
        levels.push(e as u8);
        q = q + 1;
    }
    let bin = BinaryCode {
        bits: words,
        f_add: ssq,
        f_rescale: sab,
        f_error: m,
        dim: n,
        res: Ghost(rseq),
    };
    let ex = ExtendedCode {
        levels,
        range: m,
        f_add: ssq,
        f_rescale: sab,
        ex_bits,
        dim: n,
        res: Ghost(rseq),
    };
    (bin, ex)
}

/// Checked entry to split quantization: validates dimensions, coordinate
/// range and the extended-bit count before any encoding work, and says
/// exactly which check failed.
pub fn quantize_split_checked(
    rotated: &Vec<i64>,
    centroid: &Vec<i64>,
    ex_bits: usize,
    metric: MetricType,
    config: &RabitqConfig,
) -> (r: Result<(BinaryCode, ExtendedCode), RabitqError>)
    ensures
        r is Ok <==> {
            &&& rotated@.len() == centroid@.len()
            &&& 1 <= rotated@.len() <= DIM_MAX
            &&& ex_bits <= spec_max_ex_bits(metric)
            &&& forall|i: int|
                0 <= i < rotated@.len() ==> abs_i(#[trigger] rotated@[i] as int) <= COORD_LIMIT
            &&& forall|i: int|
                0 <= i < centroid@.len() ==> abs_i(#[trigger] centroid@[i] as int) <= COORD_LIMIT
        },
        r matches Ok(codes) ==> {
            &&& codes.0.wf()
            &&& codes.1.wf()
            &&& codes.0.res@ == residual_seq(to_ints(rotated@), to_ints(centroid@))
            &&& codes.1.res@ == codes.0.res@
            &&& codes.0.dim == rotated@.len()
            &&& codes.1.ex_bits == ex_bits
        },
{
    if rotated.len() != centroid.len() {
        return Err(RabitqError::DimensionMismatch);
    }
    if rotated.len() == 0 || rotated.len() > DIM_MAX {
        return Err(RabitqError::UnsupportedDimension);
    }
    if ex_bits > max_ex_bits(metric) {
        return Err(RabitqError::UnsupportedExBits);
    }
    let n = rotated.len();
    let mut i: usize = 0;
    while i < n
        invariant
            i <= n,
            n == rotated@.len() == centroid@.len(),
            forall|t: int| 0 <= t < i ==> abs_i(#[trigger] rotated@[t] as int) <= COORD_LIMIT,
            forall|t: int| 0 <= t < i ==> abs_i(#[trigger] centroid@[t] as int) <= COORD_LIMIT,
        decreases n - i,
    {
        let x = rotated[i];
        let c = centroid[i];
        if x > COORD_LIMIT || x < -COORD_LIMIT || c > COORD_LIMIT || c < -COORD_LIMIT {
            return Err(RabitqError::CoordinateOutOfRange);
        }
        i = i + 1;
    }
    Ok(quantize_split_single(rotated, centroid, ex_bits, metric, config))
}

/// Full-code quantization: the origin-relative cell indices in one buffer.
pub fn quantize_full_single(
    rotated: &Vec<i64>,
    ex_bits: usize,
    metric: MetricType,
    config: &RabitqConfig,
) -> (r: FullCode)
    requires
        1 <= rotated@.len() <= DIM_MAX,
        ex_bits <= spec_max_ex_bits(metric),
        forall|i: int|
            0 <= i < rotated@.len() ==> abs_i(#[trigger] rotated@[i] as int) <= COORD_LIMIT,
    ensures
        r.wf(),
        r.res@ == to_ints(rotated@),
        r.dim == rotated@.len(),
        r.ex_bits == ex_bits,
{
    let n = rotated.len();
    let ghost rseq = to_ints(rotated@);
    let mut ssq: i64 = 0;
    let mut sab: i64 = 0;
    let mut m: i64 = 0;
    let mut k: usize = 0;
    while k < n
        invariant
            k <= n,
            n == rseq.len() == rotated@.len(),
            n <= DIM_MAX,
            rseq == to_ints(rotated@),
            forall|t: int| 0 <= t < n ==> abs_i(#[trigger] rotated@[t] as int) <= COORD_LIMIT,
            ssq == sum_sq(rseq.take(k as int)),
            sab == sum_abs(rseq.take(k as int)),
            m == crate::mathspec::max_abs(rseq.take(k as int)),
            0 <= ssq <= (k as int) * (RES_LIMIT as int * RES_LIMIT as int),
            0 <= sab <= (k as int) * (RES_LIMIT as int),
            0 <= m <= COORD_LIMIT,
        decreases n - k,
    {
        let x = rotated[k];
        let ax: i64 = if x >= 0 {
            x
        } else {
            -x
        };
        proof {
            lemma_sum_of_take(rseq, k as int);
            lemma_max_abs_take(rseq, k as int);
            assert(x as int == rseq[k as int]);
            assert(abs_i(x as int) <= COORD_LIMIT);
            assert(x as int * x as int <= RES_LIMIT as int * RES_LIMIT as int && x as int * x as int
                >= 0) by (nonlinear_arith)
                requires
                    -(RES_LIMIT as int) <= x as int <= RES_LIMIT as int,
            ;
            assert((k as int + 1) * (RES_LIMIT as int * RES_LIMIT as int) == (k as int) * (
            RES_LIMIT as int * RES_LIMIT as int) + RES_LIMIT as int * RES_LIMIT as int)
                by (nonlinear_arith);
            assert((k as int) * (RES_LIMIT as int * RES_LIMIT as int) <= (DIM_MAX as int) * (
            RES_LIMIT as int * RES_LIMIT as int)) by (nonlinear_arith)
                requires
                    0 <= k as int <= DIM_MAX as int,
            ;
            assert((k as int + 1) * (RES_LIMIT as int) == (k as int) * (RES_LIMIT as int)
                + RES_LIMIT as int) by (nonlinear_arith);
            assert((k as int) * (RES_LIMIT as int) <= (DIM_MAX as int) * (RES_LIMIT as int))
                by (nonlinear_arith)
                requires
                    0 <= k as int <= DIM_MAX as int,
            ;
        }
        ssq = ssq + x * x;
        sab = sab + ax;
        if ax > m {
            m = ax;
        }
        k = k + 1;
    }
    proof {
        assert(rseq.take(n as int) =~= rseq);
    }
    let l: i64 = pow2_small(ex_bits);
    let mut levels: Vec<u16> = Vec::new();
    let mut q: usize = 0;
    while q < n
        invariant
            q <= n,
            n == rseq.len() == rotated@.len(),
            n <= DIM_MAX,
            rseq == to_ints(rotated@),
            levels@.len() == q,
            l == pow2(ex_bits as nat),
            1 <= l <= 128,
            ex_bits <= 7,
            m == crate::mathspec::max_abs(rseq),
            0 <= m <= COORD_LIMIT,
            forall|t: int| 0 <= t < n ==> abs_i(#[trigger] rotated@[t] as int) <= COORD_LIMIT,
            forall|s: int|
                0 <= s < q ==> #[trigger] levels@[s] as int == spec_ulevel(
                    rseq[s],
                    m as int,
                    ex_bits as nat,
                ),
        decreases n - q,
    {
        let x = rotated[q];
        proof {
            assert(x as int == rseq[q as int]);
            lemma_max_abs_ge(rseq, q as int);
            assert(abs_i(x as int) <= m as int);
            lemma_ulevel_sign(rseq[q as int], m as int, ex_bits as nat);
        }
        let u: i64 = if m == 0 {
            l
        } else {
            proof {
                assert(0 <= (x + m) as int <= 2 * (RES_LIMIT as int));
                assert(((x + m) as int) * (l as int) <= (2 * (RES_LIMIT as int)) * 128)
                    by (nonlinear_arith)
                    requires
                        0 <= (x + m) as int <= 2 * (RES_LIMIT as int),
                        0 <= l as int <= 128,
                ;
            }
            let raw: u64 = (((x + m) as u64) * (l as u64)) / (m as u64);
            if raw > (2 * l - 1) as u64 {
                2 * l - 1
            } else {
                raw as i64
            }
        };
        proof {
            assert(u as int == spec_ulevel(rseq[q as int], m as int, ex_bits as nat));
            assert(0 <= u as int && (u as int) < 2 * l);
        }
        levels.push(u as u16);
        q = q + 1;
    }
    FullCode {
        levels,
        range: m,
        f_add: ssq,
        f_rescale: sab,
        ex_bits,
        dim: n,
        res: Ghost(rseq),
    }
}

/// Splits a full code into the sign-code / extended-code pair.  The pair
/// carries the same residual, scalars and grid, so every estimate computed
/// from it equals the estimate computed from a split encoding of the same
/// vector.
pub fn split_full_code(full: &FullCode) -> (r: (BinaryCode, ExtendedCode))
    requires
        full.wf(),
    ensures
        r.0.wf(),
        r.1.wf(),
        r.0.res@ == full.res@,
        r.1.res@ == full.res@,
        r.0.dim == full.dim,
        r.1.dim == full.dim,
        r.1.ex_bits == full.ex_bits,
        r.0.f_add == full.f_add,
        r.0.f_rescale == full.f_rescale,
        r.0.f_error == full.range,
        r.1.range == full.range,
        r.1.f_add == full.f_add,
        r.1.f_rescale == full.f_rescale,
{
    let n = full.dim;
    let l: i64 = pow2_small(full.ex_bits);
    let mut flags: Vec<bool> = Vec::new();
    let mut levels: Vec<u8> = Vec::new();
    let mut i: usize = 0;
    while i < n
        invariant
            i <= n,
            full.wf(),
            n == full.dim,
            l == pow2(full.ex_bits as nat),
            1 <= l <= 128,
            flags@.len() == i,
            levels@.len() == i,
            forall|t: int| 0 <= t < i ==> #[trigger] flags@[t] == (full.res@[t] >= 0),
            forall|t: int|
                0 <= t < i ==> #[trigger] levels@[t] as int == spec_ex_level(
                    full.res@[t],
                    full.range as int,
                    full.ex_bits as nat,
                ),
        decreases n - i,
    {
        let u = full.levels[i];
        proof {
            lemma_max_abs_nonneg(full.res@);
            lemma_max_abs_ge(full.res@, i as int);
            lemma_ulevel_sign(full.res@[i as int], full.range as int, full.ex_bits as nat);
            assert(u as int == spec_ulevel(full.res@[i as int], full.range as int,
                full.ex_bits as nat));
            assert(0 <= u as int && (u as int) < 2 * l);
        }
        flags.push(u as i64 >= l);
        let e: i64 = if u as i64 >= l {
            u as i64 - l
        } else {
            u as i64
        };
        levels.push(e as u8);
        i = i + 1;
    }
    let words = pack_bits(&flags);
    let bin = BinaryCode {
        bits: words,
        f_add: full.f_add,
        f_rescale: full.f_rescale,
        f_error: full.range,
        dim: n,
        res: Ghost(full.res@),
    };
    let ex = ExtendedCode {
        levels,
        range: full.range,
        f_add: full.f_add,
        f_rescale: full.f_rescale,
        ex_bits: full.ex_bits,
        dim: n,
        res: Ghost(full.res@),
    };
    (bin, ex)
}

/// Inverse map: reconstructs the residual coordinates a split code pair was
/// produced from, to within the grid-cell error bound of `lemma_recon_error`.
pub fn reconstruct_vec(bin: &BinaryCode, ex: &ExtendedCode) -> (r: Vec<i64>)
    requires
        bin.wf(),
        ex.wf(),
        bin.res@ == ex.res@,
        bin.dim == ex.dim,
    ensures
        r@.len() == bin.dim,
        forall|i: int|
            0 <= i < bin.dim ==> #[trigger] r@[i] as int == spec_recon(
                ex.res@[i],
                ex.range as int,
                ex.ex_bits as nat,
            ),
{
    let n = bin.dim;
    let l: i64 = pow2_small(ex.ex_bits);
    let m = ex.range;
    proof {
        lemma_max_abs_nonneg(ex.res@);
        lemma_sums_bounded(ex.res@, RES_LIMIT as int);
        lemma2_to64();
        vstd::arithmetic::div_mod::lemma_small_mod(0nat, 64nat);
    }
    let mut out: Vec<i64> = Vec::new();
    let mut i: usize = 0;
    let mut p: u64 = 1;
    while i < n
        invariant
            i <= n,
            bin.wf(),
            ex.wf(),
            bin.res@ == ex.res@,
            bin.dim == ex.dim == n,
            l == pow2(ex.ex_bits as nat),
            1 <= l <= 128,
            m == ex.range,
            0 <= m <= RES_LIMIT,
            out@.len() == i,
            p as int == pow2((i % 64) as nat),
            forall|t: int|
                0 <= t < i ==> #[trigger] out@[t] as int == spec_recon(
                    ex.res@[t],
                    ex.range as int,
                    ex.ex_bits as nat,
                ),
        decreases n - i,
    {
        proof {
            vstd::arithmetic::div_mod::lemma_mod_bound(i as int, 64);
            vstd::arithmetic::div_mod::lemma_div_is_ordered(i as int, n as int - 1, 64);
            vstd::arithmetic::div_mod::lemma_div_plus_one(n as int - 1, 64);
            assert(n as int + 63 == (n as int - 1) + 64);
            assert(i / 64 < bin.bits@.len());
            vstd::arithmetic::power2::lemma_pow2_pos((i % 64) as nat);
        }
        let w = bin.bits[i / 64];
        let bit = (w / p) % 2 == 1;
        proof {
            assert(word_bit(bin.bits@, i as int) == (bin.res@[i as int] >= 0));
            assert(bit == (ex.res@[i as int] >= 0));
            lemma_max_abs_ge(ex.res@, i as int);
            lemma_ulevel_sign(ex.res@[i as int], m as int, ex.ex_bits as nat);
        }
        let e = ex.levels[i];
        let u: i64 = if bit {
            l + e as i64
        } else {
            e as i64
        };
        proof {
            assert(u as int == spec_ulevel(ex.res@[i as int], m as int, ex.ex_bits as nat));
        }
        proof {
            assert(0 <= u as int && u as int <= 2 * l - 1);
            assert(m as int * (2 * (u as int) + 1 - 2 * (l as int)) <= (RES_LIMIT as int) * 256
                && m as int * (2 * (u as int) + 1 - 2 * (l as int)) >= -((RES_LIMIT as int) * 256))
                by (nonlinear_arith)
                requires
                    0 <= m as int <= RES_LIMIT as int,
                    1 <= l as int <= 128,
                    0 <= u as int <= 2 * (l as int) - 1,
            ;
        }
        let num: i64 = m * (2 * u + 1 - 2 * l);
        let rec = rdiv(num, 2 * l);
        out.push(rec);
        if i % 64 == 63 {
            p = 1;
            proof {
                lemma2_to64();
            }
        } else {
            proof {
                vstd::arithmetic::power2::lemma_pow2_unfold(((i % 64) + 1) as nat);
                vstd::arithmetic::power2::lemma_pow2_strictly_increases((i % 64) as nat, 63);
                vstd::arithmetic::power2::lemma2_to64_rest();
            }
            p = p * 2;
        }
        proof {
            crate::mathspec::lemma_mod_step(i as int, 64);
        }
        i = i + 1;
    }
    out
}

} // verus!
