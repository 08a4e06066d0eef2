//! Shared mathematical model: sequence sums, rounded division, integer square
//! root and powers of two, together with the lemmas the rest of the crate
//! builds its contracts on.
//!
//! Coordinates are fixed-point values stored as `i64`; all bounds below keep
//! every intermediate product of the pipeline inside `i64`.

use vstd::prelude::*;
use vstd::arithmetic::div_mod::{
    lemma_div_is_ordered, lemma_div_multiples_vanish_fancy, lemma_div_pos_is_pos,
    lemma_fundamental_div_mod, lemma_hoist_over_denominator, lemma_mod_multiples_vanish,
};
use vstd::arithmetic::power2::{lemma2_to64, lemma_pow2_adds, lemma_pow2_pos, pow2};

verus! {

/// Largest coordinate magnitude a vector handed to the pipeline may carry.
pub const COORD_LIMIT: i64 = 131072;

/// Largest residual magnitude (a coordinate minus a centroid coordinate).
pub const RES_LIMIT: i64 = 262144;

/// Largest supported padded dimension.
pub const DIM_MAX: usize = 4096;

/// Largest magnitude accepted for the additive query correction `g_add`.
pub const G_ADD_LIMIT: i64 = 1125899906842624;

/// Largest value accepted for the error correction `g_error` (a norm, so
/// it is also required to be nonnegative).
pub const G_ERR_LIMIT: i64 = 4294967296;

/// Largest magnitude accepted for a raw inner product handed back to
/// `distance_boosting`.
pub const IP_ARG_LIMIT: i64 = 281474976710656;

/// A vector of fixed-point coordinates, as a mathematical sequence.
pub open spec fn to_ints(s: Seq<i64>) -> Seq<int> {
    Seq::new(s.len(), |i: int| s[i] as int)
}

pub open spec fn abs_i(x: int) -> int {
    if x >= 0 {
        x
    } else {
        -x
    }
}

/// Sum of the entries of a sequence.
pub open spec fn sum_of(s: Seq<int>) -> int
    decreases s.len(),
{
    if s.len() == 0 {
        0
    } else {
        sum_of(s.drop_last()) + s.last()
    }
}

/// Sum of the squared entries of a sequence.
pub open spec fn sum_sq(s: Seq<int>) -> int
    decreases s.len(),
{
    if s.len() == 0 {
        0
    } else {
        sum_sq(s.drop_last()) + s.last() * s.last()
    }
}

/// Sum of the absolute values of the entries of a sequence.
pub open spec fn sum_abs(s: Seq<int>) -> int
    decreases s.len(),
{
    if s.len() == 0 {
        0
    } else {
        sum_abs(s.drop_last()) + abs_i(s.last())
    }
}

/// Largest absolute value among the entries of a sequence (0 when empty).
pub open spec fn max_abs(s: Seq<int>) -> int
    decreases s.len(),
{
    if s.len() == 0 {
        0
    } else {
        let m = max_abs(s.drop_last());
        if abs_i(s.last()) > m {
            abs_i(s.last())
        } else {
            m
        }
    }
}

/// Smallest entry of a sequence (0 when empty).
pub open spec fn min_of(s: Seq<int>) -> int
    decreases s.len(),
{
    if s.len() == 0 {
        0
    } else if s.len() == 1 {
        s[0]
    } else {
        let m = min_of(s.drop_last());
        if s.last() < m {
            s.last()
        } else {
            m
        }
    }
}

/// Largest entry of a sequence (0 when empty).
pub open spec fn max_of(s: Seq<int>) -> int
    decreases s.len(),
{
    if s.len() == 0 {
        0
    } else if s.len() == 1 {
        s[0]
    } else {
        let m = max_of(s.drop_last());
        if s.last() > m {
            s.last()
        } else {
            m
        }
    }
}

pub proof fn lemma_min_max_take(s: Seq<int>, i: int)
    requires
        1 <= i < s.len(),
    ensures
        min_of(s.take(i + 1)) == if s[i] < min_of(s.take(i)) {
            s[i]
        } else {
            min_of(s.take(i))
        },
        max_of(s.take(i + 1)) == if s[i] > max_of(s.take(i)) {
            s[i]
        } else {
            max_of(s.take(i))
        },
{
    assert(s.take(i + 1).drop_last() =~= s.take(i));
    assert(s.take(i + 1).last() == s[i]);
}

/// Every entry lies between the minimum and the maximum.
pub proof fn lemma_min_max_bounds(s: Seq<int>, i: int)
    requires
        0 <= i < s.len(),
    ensures
        min_of(s) <= s[i] <= max_of(s),
    decreases s.len(),
{
    if s.len() > 1 && i < s.len() - 1 {
        lemma_min_max_bounds(s.drop_last(), i);
    }
}

/// Division rounding half away from zero: the integer nearest to `a / d`,
/// with ties moved away from zero.  `d` must be positive.
pub open spec fn spec_rdiv(a: int, d: int) -> int {
    if a >= 0 {
        (2 * a + d) / (2 * d)
    } else {
        -((2 * (-a) + d) / (2 * d))
    }
}

pub proof fn lemma_sum_of_take(s: Seq<int>, i: int)
    requires
        0 <= i < s.len(),
    ensures
        sum_of(s.take(i + 1)) == sum_of(s.take(i)) + s[i],
        sum_sq(s.take(i + 1)) == sum_sq(s.take(i)) + s[i] * s[i],
        sum_abs(s.take(i + 1)) == sum_abs(s.take(i)) + abs_i(s[i]),
{
    assert(s.take(i + 1).drop_last() =~= s.take(i));
    assert(s.take(i + 1).last() == s[i]);
}

pub proof fn lemma_max_abs_take(s: Seq<int>, i: int)
    requires
        0 <= i < s.len(),
    ensures
        max_abs(s.take(i + 1)) == if abs_i(s[i]) > max_abs(s.take(i)) {
            abs_i(s[i])
        } else {
            max_abs(s.take(i))
        },
{
    assert(s.take(i + 1).drop_last() =~= s.take(i));
    assert(s.take(i + 1).last() == s[i]);
}

pub proof fn lemma_max_abs_nonneg(s: Seq<int>)
    ensures
        max_abs(s) >= 0,
    decreases s.len(),
{
    if s.len() > 0 {
        lemma_max_abs_nonneg(s.drop_last());
    }
}

/// Every entry is bounded in magnitude by `max_abs`.
pub proof fn lemma_max_abs_ge(s: Seq<int>, i: int)
    requires
        0 <= i < s.len(),
    ensures
        abs_i(s[i]) <= max_abs(s),
    decreases s.len(),
{
    lemma_max_abs_nonneg(s.drop_last());
    if i < s.len() - 1 {
        lemma_max_abs_ge(s.drop_last(), i);
    }
}

/// Uniform entry bounds carry over to the aggregate sums.
pub proof fn lemma_sums_bounded(s: Seq<int>, b: int)
    requires
        b >= 0,
        forall|i: int| 0 <= i < s.len() ==> abs_i(#[trigger] s[i]) <= b,
    ensures
        -(s.len() * b) <= sum_of(s) <= s.len() * b,
        0 <= sum_abs(s) <= s.len() * b,
        0 <= sum_sq(s) <= s.len() * (b * b),
        0 <= max_abs(s) <= b,
    decreases s.len(),
{
    if s.len() == 0 {
    } else {
        let t = s.drop_last();
        assert(forall|i: int| 0 <= i < t.len() ==> abs_i(#[trigger] t[i]) <= b);
        lemma_sums_bounded(t, b);
        let x = s.last();
        assert(abs_i(x) <= b);
        assert(x * x <= b * b && x * x >= 0) by (nonlinear_arith)
            requires
                -b <= x <= b,
                b >= 0,
        ;
        assert(s.len() * b == t.len() * b + b) by (nonlinear_arith)
            requires
                s.len() == t.len() + 1,
        ;
        assert(s.len() * (b * b) == t.len() * (b * b) + b * b) by (nonlinear_arith)
            requires
                s.len() == t.len() + 1,
        ;
    }
}

/// Replacing one entry changes the sum of squares by the difference of the
/// squares.
pub proof fn lemma_sum_sq_update(s: Seq<int>, k: int, x: int)
    requires
        0 <= k < s.len(),
    ensures
        sum_sq(s.update(k, x)) == sum_sq(s) - s[k] * s[k] + x * x,
    decreases s.len(),
{
    if k == s.len() - 1 {
        assert(s.update(k, x).drop_last() =~= s.drop_last());
        assert(s.update(k, x).last() == x);
    } else {
        assert(s.update(k, x).drop_last() =~= s.drop_last().update(k, x));
        assert(s.update(k, x).last() == s.last());
        lemma_sum_sq_update(s.drop_last(), k, x);
    }
}

/// Exchanging two entries leaves the sum of squares unchanged.
pub proof fn lemma_sum_sq_swap(s: Seq<int>, i: int, j: int)
    requires
        0 <= i < s.len(),
        0 <= j < s.len(),
    ensures
        sum_sq(s.update(i, s[j]).update(j, s[i])) == sum_sq(s),
{
    let s1 = s.update(i, s[j]);
    lemma_sum_sq_update(s, i, s[j]);
    lemma_sum_sq_update(s1, j, s[i]);
    assert(s1[j] == s[j]);
}

/// The rounded quotient never exceeds the dividend in magnitude.
pub proof fn lemma_rdiv_abs_le(a: int, d: int)
    requires
        d >= 1,
    ensures
        abs_i(spec_rdiv(a, d)) <= abs_i(a),
        a >= 0 ==> 0 <= spec_rdiv(a, d) <= a,
        a <= 0 ==> -abs_i(a) <= spec_rdiv(a, d) <= 0,
{
    let n = abs_i(a);
    let q = (2 * n + d) / (2 * d);
    lemma_div_pos_is_pos(2 * n + d, 2 * d);
    assert(2 * n + d <= 2 * d * n + d) by (nonlinear_arith)
        requires
            n >= 0,
            d >= 1,
    ;
    lemma_div_is_ordered(2 * n + d, 2 * d * n + d, 2 * d);
    lemma_div_multiples_vanish_fancy(n, d, 2 * d);
    assert((2 * d) * n == 2 * d * n) by (nonlinear_arith);
    assert((2 * d * n + d) / (2 * d) == n);
    assert(q <= n);
}

/// How far `d * spec_rdiv(a, d)` can sit from `a`: at most half of `d`.
pub proof fn lemma_rdiv_error(a: int, d: int)
    requires
        d >= 1,
    ensures
        -d <= 2 * (d * spec_rdiv(a, d) - a) <= d,
{
    let n = abs_i(a);
    let q = (2 * n + d) / (2 * d);
    lemma_fundamental_div_mod(2 * n + d, 2 * d);
    let r = (2 * n + d) % (2 * d);
    vstd::arithmetic::div_mod::lemma_mod_bound(2 * n + d, 2 * d);
    assert(2 * n + d == (2 * d) * q + r);
    assert(2 * (d * q - n) == d - r) by (nonlinear_arith)
        requires
            2 * n + d == (2 * d) * q + r,
    ;
    assert(-d <= 2 * (d * q - n) <= d);
    if a >= 0 {
        assert(spec_rdiv(a, d) == q && n == a);
    } else {
        assert(spec_rdiv(a, d) == -q && n == -a);
        assert(2 * (d * -q - a) == -(2 * (d * q - n))) by (nonlinear_arith)
            requires
                n == -a,
    ;
    }
}

/// For a nonnegative dividend the rounded quotient shrinks as the divisor
/// grows.
pub proof fn lemma_rdiv_denominator_monotone(a: int, d1: int, d2: int)
    requires
        a >= 0,
        1 <= d2 <= d1,
    ensures
        spec_rdiv(a, d1) <= spec_rdiv(a, d2),
{
    let q1 = spec_rdiv(a, d1);
    let q2 = spec_rdiv(a, d2);
    lemma_rdiv_abs_le(a, d1);
    lemma_rdiv_abs_le(a, d2);
    lemma_fundamental_div_mod(2 * a + d1, 2 * d1);
    vstd::arithmetic::div_mod::lemma_mod_bound(2 * a + d1, 2 * d1);
    lemma_fundamental_div_mod(2 * a + d2, 2 * d2);
    vstd::arithmetic::div_mod::lemma_mod_bound(2 * a + d2, 2 * d2);
    // d1 * (2 * q1 - 1) <= 2 * a and 2 * a < d2 * (2 * q2 + 1)
    assert(2 * d1 * q1 <= 2 * a + d1);
    assert(2 * a + d2 < 2 * d2 * q2 + 2 * d2);
    if q1 > q2 {
        assert(d1 * (2 * q1 - 1) <= 2 * a) by (nonlinear_arith)
            requires
                2 * d1 * q1 <= 2 * a + d1,
        ;
        assert(2 * a < d2 * (2 * q2 + 1)) by (nonlinear_arith)
            requires
                2 * a + d2 < 2 * d2 * q2 + 2 * d2,
        ;
        assert(d2 * (2 * q2 + 1) <= d1 * (2 * q2 + 1)) by (nonlinear_arith)
            requires
                d2 <= d1,
                q2 >= 0,
        ;
        assert(d1 * (2 * q2 + 1) <= d1 * (2 * q1 - 1)) by (nonlinear_arith)
            requires
                d1 >= 1,
                q1 > q2,
        ;
        assert(false);
    }
}

/// Rounded division, `spec_rdiv` in executable form.
pub fn rdiv(a: i64, d: i64) -> (r: i64)
    requires
        1 <= d <= 0x2000000000000000,
        -0x2000000000000000 <= a <= 0x2000000000000000,
    ensures
        r == spec_rdiv(a as int, d as int),
        abs_i(r as int) <= abs_i(a as int),
{
    proof {
        lemma_rdiv_abs_le(a as int, d as int);
    }
    if a >= 0 {
        let n: u64 = a as u64;
        let dd: u64 = d as u64;
        let q: u64 = (2 * n + dd) / (2 * dd);
        q as i64
    } else {
        let n: u64 = (-a) as u64;
        let dd: u64 = d as u64;
        let q: u64 = (2 * n + dd) / (2 * dd);
        -(q as i64)
    }
}

/// Integer square root by bisection.
pub fn isqrt(n: u64) -> (r: u64)
    ensures
        r * r <= n,
        n < (r + 1) * (r + 1),
        r <= 0xffffffff,
{
    let mut lo: u64 = 0;
    let mut hi: u64 = if n < 0xffffffff { n + 1 } else { 0x100000000 };
    proof {
        if n >= 0xffffffff {
            assert((0x100000000u64 as int) * (0x100000000u64 as int) > n as int);
        } else {
            assert((n as int + 1) * (n as int + 1) > n as int) by (nonlinear_arith);
        }
    }
    while lo + 1 < hi
        invariant
            lo < hi <= 0x100000000,
            lo * lo <= n,
            n < hi * hi,
        decreases hi - lo,
    {
        let mid: u64 = lo + (hi - lo) / 2;
        assert(mid * mid <= 0xffffffffu64 * 0xffffffffu64) by (nonlinear_arith)
            requires
                mid <= 0xffffffffu64,
        ;
        if mid * mid <= n {
            lo = mid;
        } else {
            hi = mid;
        }
    }
    lo
}

/// Small power of two, used for the extended-code level count.
pub fn pow2_small(e: usize) -> (r: i64)
    requires
        e <= 8,
    ensures
        r == pow2(e as nat),
        1 <= r <= 256,
        e <= 7 ==> r <= 128,
{
    proof {
        lemma2_to64();
    }
    if e == 0 {
        1
    } else if e == 1 {
        2
    } else if e == 2 {
        4
    } else if e == 3 {
        8
    } else if e == 4 {
        16
    } else if e == 5 {
        32
    } else if e == 6 {
        64
    } else if e == 7 {
        128
    } else {
        256
    }
}

/// How the remainder modulo `d` evolves when counting up by one.
pub proof fn lemma_mod_step(i: int, d: int)
    requires
        i >= 0,
        d >= 1,
    ensures
        (i + 1) % d == if i % d == d - 1 {
            0int
        } else {
            i % d + 1
        },
        (i % d == d - 1) ==> (i + 1) / d == i / d + 1,
        (i % d != d - 1) ==> (i + 1) / d == i / d,
{
    lemma_fundamental_div_mod(i, d);
    vstd::arithmetic::div_mod::lemma_mod_bound(i, d);
    let q = i / d;
    let r = i % d;
    if r == d - 1 {
        assert(i + 1 == (q + 1) * d + 0) by (nonlinear_arith)
            requires
                i == d * q + r,
                r == d - 1,
        ;
        vstd::arithmetic::div_mod::lemma_fundamental_div_mod_converse(i + 1, d, q + 1, 0);
    } else {
        assert(i + 1 == q * d + (r + 1)) by (nonlinear_arith)
            requires
                i == d * q + r,
        ;
        vstd::arithmetic::div_mod::lemma_fundamental_div_mod_converse(i + 1, d, q, r + 1);
    }
}

/// Value of the word packing `count` items of `width` bits each, taken from
/// `levels` starting at `start`, least significant item first.
pub open spec fn pack_word(levels: Seq<int>, start: int, count: nat, width: nat) -> int
    decreases count,
{
    if count == 0 {
        0
    } else {
        pack_word(levels, start, (count - 1) as nat, width) + levels[start + count - 1] * pow2(
            width * (count - 1) as nat,
        )
    }
}

/// A packed word stays below `pow2(width * count)` when every item does.
pub proof fn lemma_pack_word_bound(levels: Seq<int>, start: int, count: nat, width: nat)
    requires
        forall|k: int| start <= k < start + count ==> 0 <= #[trigger] levels[k] < pow2(width),
    ensures
        0 <= pack_word(levels, start, count, width) < pow2(width * count),
    decreases count,
{
    lemma_pow2_pos(width * count);
    if count > 0 {
        let c1 = (count - 1) as nat;
        lemma_pack_word_bound(levels, start, c1, width);
        lemma_pow2_pos(width * c1);
        lemma_pow2_adds(width, width * c1);
        assert(width * count == width + width * c1) by (nonlinear_arith)
            requires
                count >= 1,
                c1 == count - 1,
        ;
        let b = levels[start + count - 1];
        assert(b * pow2(width * c1) <= (pow2(width) - 1) * pow2(width * c1)) by (nonlinear_arith)
            requires
                0 <= b <= pow2(width) - 1,
                pow2(width * c1) >= 1,
        ;
        assert((pow2(width) - 1) * pow2(width * c1) + pow2(width * c1) == pow2(width) * pow2(
            width * c1,
        )) by (nonlinear_arith);
        assert(b * pow2(width * c1) >= 0) by (nonlinear_arith)
            requires
                b >= 0,
                pow2(width * c1) >= 1,
        ;
    }
}

/// Reading one bit back out of a word packed with `width == 1`.
pub proof fn lemma_pack_word_bit(levels: Seq<int>, start: int, count: nat, t: int)
    requires
        forall|k: int| start <= k < start + count ==> 0 <= #[trigger] levels[k] <= 1,
        0 <= t < count,
    ensures
        pack_word(levels, start, count, 1) / (pow2(t as nat) as int) % 2 == levels[start + t],
    decreases count,
{
    let c1 = (count - 1) as nat;
    let prev = pack_word(levels, start, c1, 1);
    let b = levels[start + count - 1];
    let w = pack_word(levels, start, count, 1);
    let pt = pow2(t as nat) as int;
    assert(forall|k: int| start <= k < start + count ==> 0 <= #[trigger] levels[k] < pow2(1)) by {
        lemma2_to64();
    }
    lemma_pack_word_bound(levels, start, c1, 1);
    lemma_pow2_pos(t as nat);
    if t == count - 1 {
        // prev < pow2(t), so prev / pow2(t) == 0 and the top item remains.
        assert(1 * c1 == c1) by (nonlinear_arith);
        assert(prev < pt);
        assert(w == prev + b * pt);
        lemma_hoist_over_denominator(prev, b, pow2(t as nat));
        assert(w / pt == prev / pt + b);
        vstd::arithmetic::div_mod::lemma_basic_div(prev, pt);
        assert(w / pt == b);
        assert(b % 2 == b);
    } else {
        lemma_pack_word_bit(levels, start, c1, t);
        assert(1 * c1 == c1) by (nonlinear_arith);
        let shift = (c1 - t) as nat;
        let psh = pow2(shift) as int;
        lemma_pow2_adds(t as nat, shift);
        assert(pow2(c1) == pow2(t as nat) * pow2(shift));
        assert(b * (pow2(c1) as int) == (b * psh) * pt) by (nonlinear_arith)
            requires
                pow2(c1) == pow2(t as nat) * pow2(shift),
                psh == pow2(shift),
                pt == pow2(t as nat),
        ;
        lemma_hoist_over_denominator(prev, b * psh, pow2(t as nat));
        assert(w / pt == prev / pt + b * psh);
        // shift >= 1, so the added term is even and drops out modulo 2.
        lemma_pow2_adds(1, (shift - 1) as nat);
        assert(pow2(1) == 2) by {
            lemma2_to64();
        }
        assert(pow2(shift) == 2 * pow2((shift - 1) as nat));
        let e = b * (pow2((shift - 1) as nat) as int);
        assert(b * psh == 2 * e) by (nonlinear_arith)
            requires
                psh == 2 * (pow2((shift - 1) as nat) as int),
                e == b * (pow2((shift - 1) as nat) as int),
        ;
        lemma_mod_multiples_vanish(e, prev / pt, 2);
    }
}

} // verus!
