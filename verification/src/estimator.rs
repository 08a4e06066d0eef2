//! Distance estimation from compact codes.
//!
//! Every estimator binds one rotated query (optionally relative to a
//! centroid), holds the query-side precomputation, and scores candidate
//! codes.  The coarse path (`est_dist`) uses only sign agreement between the
//! query and a candidate's sign code, rescaled by the candidate's stored
//! scalars into an unbiased inner-product estimate; the refined paths
//! (`full_dist`, `distance_boosting`) add the extended magnitude code.
//! Every operation returns an exactly specified integer result, and the
//! distance estimate never falls below the reported lower bound.

use vstd::prelude::*;
use vstd::arithmetic::power2::{lemma2_to64, lemma_pow2_adds, lemma_pow2_pos, pow2};
use crate::mathspec::{
    COORD_LIMIT, DIM_MAX, G_ADD_LIMIT, G_ERR_LIMIT, IP_ARG_LIMIT, RES_LIMIT, abs_i, isqrt,
    lemma_min_max_bounds, lemma_min_max_take, lemma_pack_word_bound, lemma_rdiv_abs_le,
    lemma_rdiv_denominator_monotone, lemma_sum_of_take, lemma_sums_bounded, max_abs, max_of,
    min_of, pack_word, pow2_small, rdiv, spec_rdiv, sum_abs, sum_of, sum_sq, to_ints,
};
use crate::quantizer::{
    BinaryCode, ExtendedCode, MetricType, RabitqConfig, RabitqError, residual_seq,
    spec_ex_level, spec_max_ex_bits, spec_recon, word_bit,
};

verus! {

/// Fixed width of a batched estimation call.
pub const K_BATCH_SIZE: usize = 32;

/// Strategy for folding the extended code into an inner-product estimate,
/// resolved once from `ex_bits` at construction.
#[derive(Clone, Copy, Debug, PartialEq, Eq, Structural)]
pub enum ExIpFunc {
    /// No extended bits: refinement reduces to the sign grid.
    CoarseOnly,
    /// Uniform extended levels folded in with the grid decomposition.
    Uniform,
}

/// Maps an extended-bit count to its refinement strategy.
pub fn select_excode_ipfunc(ex_bits: usize) -> (r: ExIpFunc)
    ensures
        r == (if ex_bits == 0 {
            ExIpFunc::CoarseOnly
        } else {
            ExIpFunc::Uniform
        }),
{
    if ex_bits == 0 {
        ExIpFunc::CoarseOnly
    } else {
        ExIpFunc::Uniform
    }
}

/// Sign-agreement inner product: the query against the candidate's signs.
pub open spec fn dot_signs(qr: Seq<int>, res: Seq<int>) -> int
    decreases qr.len(),
{
    if qr.len() == 0 {
        0
    } else {
        dot_signs(qr.drop_last(), res.drop_last()) + (if res.last() >= 0 {
            qr.last()
        } else {
            -qr.last()
        })
    }
}

/// Query against the reconstruction of the candidate from its full grid
/// cell.
pub open spec fn dot_recon(qr: Seq<int>, res: Seq<int>, m: int, bits: nat) -> int
    decreases qr.len(),
{
    if qr.len() == 0 {
        0
    } else {
        dot_recon(qr.drop_last(), res.drop_last(), m, bits) + qr.last() * spec_recon(
            res.last(),
            m,
            bits,
        )
    }
}

/// Query against the candidate's extended levels.
pub open spec fn dot_levels(qr: Seq<int>, res: Seq<int>, m: int, bits: nat) -> int
    decreases qr.len(),
{
    if qr.len() == 0 {
        0
    } else {
        dot_levels(qr.drop_last(), res.drop_last(), m, bits) + qr.last() * spec_ex_level(
            res.last(),
            m,
            bits,
        )
    }
}

/// Coarse inner-product estimate: sign agreement rescaled by the candidate's
/// mean magnitude, `dot_signs * sum_abs / dim`.
pub open spec fn spec_ip_coarse(qr: Seq<int>, res: Seq<int>) -> int {
    spec_rdiv(dot_signs(qr, res) * sum_abs(res), qr.len() as int)
}

/// Turns an inner-product estimate into the metric's distance value.
pub open spec fn spec_est_from_ip(metric: MetricType, g_add: int, f_add: int, ip: int) -> int {
    if metric == MetricType::L2 {
        g_add + f_add - 2 * ip
    } else {
        g_add - ip
    }
}

/// Error margin subtracted from an estimate to form the lower bound: the
/// query error norm times the dimension root times the candidate's range,
/// shrinking with the grid resolution `2^bits`.
pub open spec fn spec_err_margin(g_error: int, isq_d: int, m: int, bits: nat) -> int {
    spec_rdiv(g_error * isq_d * m, 2 * (pow2(bits) as int))
}

/// Coarse estimation result: `(estimate, lower_bound, raw_inner_product)`.
pub open spec fn spec_est_dist(
    qr: Seq<int>,
    res: Seq<int>,
    metric: MetricType,
    g_add: int,
    g_error: int,
    isq_d: int,
) -> (int, int, int) {
    let ip = spec_ip_coarse(qr, res);
    let est = spec_est_from_ip(metric, g_add, sum_sq(res), ip);
    (est, est - spec_err_margin(g_error, isq_d, max_abs(res), 0), ip)
}

/// Refined estimation result from the full grid cell per dimension.
pub open spec fn spec_full_dist(
    qr: Seq<int>,
    res: Seq<int>,
    metric: MetricType,
    g_add: int,
    g_error: int,
    isq_d: int,
    bits: nat,
) -> (int, int, int) {
    let ip = dot_recon(qr, res, max_abs(res), bits);
    let est = spec_est_from_ip(metric, g_add, sum_sq(res), ip);
    (est, est - spec_err_margin(g_error, isq_d, max_abs(res), bits), ip)
}

/// Sign-sum recovered from a coarse inner-product estimate, clamped to the
/// range a true sign sum can occupy.
pub open spec fn spec_bsum_rec(ip_arg: int, dim: int, f_rescale: int) -> int {
    let lim = dim * (COORD_LIMIT as int);
    let raw = if f_rescale == 0 {
        0
    } else {
        spec_rdiv(ip_arg * dim, f_rescale)
    };
    if raw > lim {
        lim
    } else if raw < -lim {
        -lim
    } else {
        raw
    }
}

/// Refined inner product assembled by distance boosting: the grid
/// decomposition `<qr, recon> = m/(2l) * (l*bsum + 2*exsum + (1-l)*sumq)`,
/// with the sign part taken from the previously returned coarse estimate.
pub open spec fn spec_boost_ip(
    qr: Seq<int>,
    res: Seq<int>,
    m: int,
    bits: nat,
    f_rescale: int,
    sumq: int,
    ip_arg: int,
) -> int {
    let l = pow2(bits) as int;
    let bsum = spec_bsum_rec(ip_arg, qr.len() as int, f_rescale);
    let exsum = dot_levels(qr, res, m, bits);
    spec_rdiv(m * (l * bsum + 2 * exsum + (1 - l) * sumq), 2 * l)
}

/// Quantization step of the query-side code: zero range collapses to one.
pub open spec fn spec_qdelta(qs: Seq<int>, lm: int) -> int {
    let range = max_of(qs) - min_of(qs);
    if range == 0 {
        1
    } else {
        (range + lm - 1) / lm
    }
}

/// Query-side quantization levels against offset `vl` and step `delta`.
pub open spec fn spec_qlevels(qs: Seq<int>, vl: int, delta: int) -> Seq<int> {
    Seq::new(qs.len(), |i: int| (qs[i] - vl) / delta)
}

/// Well-formed packing of query levels of `width` bits into 64-bit words.
pub open spec fn packed_ok(words: Seq<u64>, levels: Seq<int>, width: nat) -> bool {
    let c = (64nat / width) as int;
    let n = levels.len() as int;
    &&& words.len() == (n + c - 1) / c
    &&& forall|j: int|
        0 <= j < words.len() ==> #[trigger] words[j] as int == pack_word(
            levels,
            j * c,
            (if n - j * c < c {
                n - j * c
            } else {
                c
            }) as nat,
            width,
        )
}

/// Computes the query-side levels: offset, step, per-coordinate level and
/// the level sum.
fn quantize_query(q: &Vec<i64>, lm: i64) -> (r: (Vec<u64>, i64, i64, i64))
    requires
        1 <= q@.len() <= DIM_MAX,
        lm == 15 || lm == 255,
        forall|i: int| 0 <= i < q@.len() ==> abs_i(#[trigger] q@[i] as int) <= RES_LIMIT,
    ensures
        r.1 == spec_qdelta(to_ints(q@), lm as int),
        1 <= r.1 <= 2 * (RES_LIMIT as int),
        r.2 == min_of(to_ints(q@)),
        abs_i(r.2 as int) <= RES_LIMIT,
        r.0@.len() == q@.len(),
        forall|i: int|
            0 <= i < q@.len() ==> #[trigger] r.0@[i] as int == spec_qlevels(
                to_ints(q@),
                r.2 as int,
                r.1 as int,
            )[i],
        forall|i: int| 0 <= i < q@.len() ==> #[trigger] r.0@[i] <= lm,
        r.3 == sum_of(spec_qlevels(to_ints(q@), r.2 as int, r.1 as int)),
        0 <= r.3 <= (q@.len() as int) * (lm as int),
{
    let n = q.len();
    let ghost qs = to_ints(q@);
    let mut mn: i64 = q[0];
    let mut mx: i64 = q[0];
    let mut i: usize = 1;
    while i < n
        invariant
            1 <= i <= n,
            n == q@.len(),
            qs == to_ints(q@),
            forall|t: int| 0 <= t < n ==> abs_i(#[trigger] q@[t] as int) <= RES_LIMIT,
            mn as int == min_of(qs.take(i as int)),
            mx as int == max_of(qs.take(i as int)),
            -(RES_LIMIT as int) <= mn as int <= mx as int <= RES_LIMIT,
        decreases n - i,
    {
        let x = q[i];
        proof {
            lemma_min_max_take(qs, i as int);
        }
        if x < mn {
            mn = x;
        }
        if x > mx {
            mx = x;
        }
        i = i + 1;
    }
    proof {
        assert(qs.take(n as int) =~= qs);
    }
    let range: i64 = mx - mn;
    let delta: i64 = if range == 0 {
        1
    } else {
        ((((range as u64) + (lm as u64)) - 1) / (lm as u64)) as i64
    };
    proof {
        if range != 0 {
            vstd::arithmetic::div_mod::lemma_div_pos_is_pos(range as int + lm as int - 1, lm as int);
            vstd::arithmetic::div_mod::lemma_fundamental_div_mod(
                range as int + lm as int - 1,
                lm as int,
            );
            vstd::arithmetic::div_mod::lemma_mod_bound(range as int + lm as int - 1, lm as int);
            assert(delta as int * lm as int >= range as int) by (nonlinear_arith)
                requires
                    range as int + lm as int - 1 == lm as int * (delta as int) + (range as int
                        + lm as int - 1) % (lm as int),
                    0 <= (range as int + lm as int - 1) % (lm as int) < lm as int,
            ;
            assert(delta as int <= range as int) by {
                vstd::arithmetic::div_mod::lemma_div_is_ordered(
                    range as int + lm as int - 1,
                    range as int * lm as int,
                    lm as int,
                );
                assert(range as int + lm as int - 1 <= range as int * lm as int)
                    by (nonlinear_arith)
                    requires
                        range as int >= 1,
                        lm as int >= 15,
                ;
                vstd::arithmetic::div_mod::lemma_div_multiples_vanish(range as int, lm as int);
                assert((lm as int * range as int) == (range as int * lm as int))
                    by (nonlinear_arith);
            }
        } else {
            assert(delta as int * lm as int >= range as int) by (nonlinear_arith)
                requires
                    delta as int == 1,
                    range as int == 0,
                    lm as int >= 15,
            ;
        }
    }
    let ghost lv = spec_qlevels(qs, mn as int, delta as int);
    proof {
        assert forall|t: int| 0 <= t < n implies min_of(qs) <= #[trigger] qs[t] <= max_of(qs) by {
            lemma_min_max_bounds(qs, t);
        }
    }
    let mut levels: Vec<u64> = Vec::new();
    let mut lsum: i64 = 0;
    let mut k: usize = 0;
    while k < n
        invariant
            k <= n,
            n == q@.len(),
            n <= DIM_MAX,
            lm == 15 || lm == 255,
            qs == to_ints(q@),
            lv == spec_qlevels(qs, mn as int, delta as int),
            forall|t: int| 0 <= t < n ==> abs_i(#[trigger] q@[t] as int) <= RES_LIMIT,
            forall|t: int| 0 <= t < n ==> min_of(qs) <= #[trigger] qs[t] <= max_of(qs),
            mn as int == min_of(qs),
            mx as int == max_of(qs),
            -(RES_LIMIT as int) <= mn as int <= mx as int <= RES_LIMIT,
            range == mx - mn,
            1 <= delta <= 2 * (RES_LIMIT as int),
            delta as int * lm as int >= range as int,
            delta as int == spec_qdelta(qs, lm as int),
            levels@.len() == k,
            forall|t: int| 0 <= t < k ==> #[trigger] levels@[t] as int == lv[t],
            forall|t: int| 0 <= t < k ==> #[trigger] levels@[t] <= lm,
            lsum == sum_of(lv.take(k as int)),
            0 <= lsum <= (k as int) * (lm as int),
        decreases n - k,
    {
        let x = q[k];
        proof {
            assert(min_of(qs) <= qs[k as int] <= max_of(qs));
        }
        let lvl: u64 = (((x - mn) as u64)) / (delta as u64);
        proof {
            assert(0 <= (x - mn) as int <= range as int);
            vstd::arithmetic::div_mod::lemma_div_is_ordered(
                (x - mn) as int,
                delta as int * lm as int,
                delta as int,
            );
            vstd::arithmetic::div_mod::lemma_div_multiples_vanish(lm as int, delta as int);
            vstd::arithmetic::div_mod::lemma_div_is_ordered(
                (x - mn) as int,
                range as int,
                delta as int,
            );
            assert((delta as int * lm as int) / (delta as int) == lm as int);
            assert(lvl as int == lv[k as int]);
            lemma_sum_of_take(lv, k as int);
            vstd::arithmetic::div_mod::lemma_div_pos_is_pos((x - mn) as int, delta as int);
            assert((k as int + 1) * (lm as int) == (k as int) * (lm as int) + lm as int)
                by (nonlinear_arith);
            assert((k as int) * (lm as int) <= (DIM_MAX as int) * 255) by (nonlinear_arith)
                requires
                    0 <= (k as int) <= DIM_MAX as int,
                    0 <= lm as int <= 255,
            ;
        }
        levels.push(lvl);
        lsum = lsum + (lvl as i64);
        k = k + 1;
    }
    proof {
        assert(lv.take(n as int) =~= lv);
    }
    (levels, delta, mn, lsum)
}

/// Packs query levels of `width` bits (4 or 8) into 64-bit words, least
/// significant item first.
fn pack_levels(levels: &Vec<u64>, width: usize) -> (words: Vec<u64>)
    requires
        width == 4 || width == 8,
        levels@.len() <= DIM_MAX,
        forall|i: int| 0 <= i < levels@.len() ==> (#[trigger] levels@[i] as int) < pow2(width as nat),
    ensures
        packed_ok(words@, to_ints_u(levels@), width as nat),
{
    let ghost lv = to_ints_u(levels@);
    let n = levels.len();
    let c: usize = 64 / width;
    proof {
        assert(c == 16 || c == 8);
    }
    let nwords = (n + c - 1) / c;
    let mult: u64 = if width == 4 {
        16
    } else {
        256
    };
    proof {
        lemma2_to64();
    }
    let mut words: Vec<u64> = Vec::new();
    let mut j: usize = 0;
    while j < nwords
        invariant
            j <= nwords,
            width == 4 || width == 8,
            c == 64usize / width,
            mult as int == pow2(width as nat),
            nwords as int == (n as int + c as int - 1) / (c as int),
            n == levels@.len(),
            n <= DIM_MAX,
            lv == to_ints_u(levels@),
            forall|i: int| 0 <= i < n ==> 0 <= #[trigger] lv[i] < pow2(width as nat),
            words@.len() == j,
            forall|t: int|
                0 <= t < j ==> #[trigger] words@[t] as int == pack_word(
                    lv,
                    t * c,
                    (if n - t * c < c {
                        n - t * c
                    } else {
                        c as int
                    }) as nat,
                    width as nat,
                ),
        decreases nwords - j,
    {
        proof {
            assert((j as int) * (c as int) + c <= (nwords as int) * (c as int))
                by (nonlinear_arith)
                requires
                    (j as int) < (nwords as int),
                    c >= 1,
            ;
            vstd::arithmetic::div_mod::lemma_fundamental_div_mod(n as int + c as int - 1, c as int);
            vstd::arithmetic::div_mod::lemma_mod_bound(n as int + c as int - 1, c as int);
            assert((nwords as int) * (c as int) <= n as int + c as int - 1) by (nonlinear_arith)
                requires
                    n as int + c as int - 1 == c as int * (nwords as int) + (n as int + c as int
                        - 1) % (c as int),
                    0 <= (n as int + c as int - 1) % (c as int),
            ;
        }
        let base = j * c;
        let count = if n - base < c {
            n - base
        } else {
            c
        };
        proof {
            lemma2_to64();
        }
        let mut w: u64 = 0;
        let mut p: u64 = 1;
        let mut k: usize = 0;
        while k < count
            invariant
                k <= count <= c <= 64,
                c == 64usize / width,
                width == 4 || width == 8,
                mult as int == pow2(width as nat),
                base + count <= n,
                n == levels@.len(),
                lv == to_ints_u(levels@),
                forall|i: int| 0 <= i < n ==> 0 <= #[trigger] lv[i] < pow2(width as nat),
                w as int == pack_word(lv, base as int, k as nat, width as nat),
                k < c ==> p as int == pow2((width * k) as nat),
            decreases count - k,
        {
            proof {
                lemma_pack_word_bound(lv, base as int, k as nat, width as nat);
                lemma_pow2_adds((width * k) as nat, width as nat);
                assert((width * (k + 1)) as nat == (width * k) as nat + width as nat)
                    by (nonlinear_arith);
                assert(width * (k + 1) <= 64) by (nonlinear_arith)
                    requires
                        k as int + 1 <= c as int,
                        c == 64usize / width,
                        width == 4 || width == 8,
                ;
                vstd::arithmetic::power2::lemma2_to64_rest();
                lemma2_to64();
                if (width * (k + 1)) < 64 {
                    vstd::arithmetic::power2::lemma_pow2_strictly_increases(
                        (width * (k + 1)) as nat,
                        64,
                    );
                }
                assert(pow2((width * (k + 1)) as nat) <= pow2(64));
                let item = lv[base as int + k as int];
                assert(item * pow2((width * k) as nat) <= (pow2(width as nat) - 1) * pow2(
                    (width * k) as nat,
                ) && 0 <= item * pow2((width * k) as nat)) by (nonlinear_arith)
                    requires
                        0 <= item <= pow2(width as nat) - 1,
                        pow2((width * k) as nat) >= 1,
                ;
                assert((pow2(width as nat) - 1) * pow2((width * k) as nat) + pow2(
                    (width * k) as nat,
                ) == pow2(width as nat) * pow2((width * k) as nat)) by (nonlinear_arith);
            }
            let item = levels[base + k];
            w = w + item * p;
            if k + 1 < c {
                proof {
                    lemma_pow2_adds((width * k) as nat, width as nat);
                    assert((width * (k + 1)) as nat == (width * k) as nat + width as nat)
                        by (nonlinear_arith);
                    assert(width * (k + 1) <= 60) by (nonlinear_arith)
                        requires
                            (k as int) + 2 <= c as int,
                            c == 64usize / width,
                            width == 4 || width == 8,
                    ;
                    vstd::arithmetic::power2::lemma_pow2_strictly_increases(
                        (width * (k + 1)) as nat,
                        61,
                    );
                    vstd::arithmetic::power2::lemma2_to64_rest();
                }
                p = p * mult;
            }
            k = k + 1;
        }
        words.push(w);
        j = j + 1;
    }
    words
}

/// Unsigned level vector as a mathematical sequence.
pub open spec fn to_ints_u(s: Seq<u64>) -> Seq<int> {
    Seq::new(s.len(), |i: int| s[i] as int)
}

/// Sign-agreement dot product of a query vector against a sign code.
fn sign_dot(query: &Vec<i64>, code: &BinaryCode) -> (r: i64)
    requires
        code.wf(),
        query@.len() == code.dim,
        forall|i: int| 0 <= i < query@.len() ==> abs_i(#[trigger] query@[i] as int) <= RES_LIMIT,
    ensures
        r == dot_signs(to_ints(query@), code.res@),
        abs_i(r as int) <= (code.dim as int) * (RES_LIMIT as int),
{
    let n = code.dim;
    let ghost qs = to_ints(query@);
    let mut acc: i64 = 0;
    let mut i: usize = 0;
    let mut p: u64 = 1;
    proof {
        lemma2_to64();
        vstd::arithmetic::div_mod::lemma_small_mod(0nat, 64nat);
        assert(qs.take(0) =~= Seq::<int>::empty());
    }
    while i < n
        invariant
            i <= n,
            code.wf(),
            n == code.dim,
            query@.len() == n,
            qs == to_ints(query@),
            forall|t: int| 0 <= t < n ==> abs_i(#[trigger] query@[t] as int) <= RES_LIMIT,
            p as int == pow2((i % 64) as nat),
            acc as int == dot_signs(qs.take(i as int), code.res@.take(i as int)),
            abs_i(acc as int) <= (i as int) * (RES_LIMIT as int),
        decreases n - i,
    {
        proof {
            vstd::arithmetic::div_mod::lemma_mod_bound(i as int, 64);
            vstd::arithmetic::div_mod::lemma_div_is_ordered(i as int, n as int - 1, 64);
            vstd::arithmetic::div_mod::lemma_div_plus_one(n as int - 1, 64);
            assert(n as int + 63 == (n as int - 1) + 64);
            assert(i / 64 < code.bits@.len());
            lemma_pow2_pos((i % 64) as nat);
        }
        let w = code.bits[i / 64];
        let bit = (w / p) % 2 == 1;
        proof {
            assert(word_bit(code.bits@, i as int) == (code.res@[i as int] >= 0));
            assert(bit == (code.res@[i as int] >= 0));
            lemma_dot_signs_take(qs, code.res@, i as int);
            assert((i as int + 1) * (RES_LIMIT as int) == (i as int) * (RES_LIMIT as int)
                + RES_LIMIT as int) by (nonlinear_arith);
        }
        let x = query[i];
        if bit {
            acc = acc + x;
        } else {
            acc = acc - x;
        }
        if i % 64 == 63 {
            p = 1;
            proof {
                lemma2_to64();
            }
        } else {
            proof {
                vstd::arithmetic::power2::lemma_pow2_unfold(((i % 64) + 1) as nat);
                vstd::arithmetic::power2::lemma_pow2_strictly_increases((i % 64) as nat, 63);
                vstd::arithmetic::power2::lemma2_to64_rest();
            }
            p = p * 2;
        }
        proof {
            crate::mathspec::lemma_mod_step(i as int, 64);
        }
        i = i + 1;
    }
    proof {
        assert(qs.take(n as int) =~= qs);
        assert(code.res@.take(n as int) =~= code.res@);
        assert((n as int) * (RES_LIMIT as int) <= (DIM_MAX as int) * (RES_LIMIT as int))
            by (nonlinear_arith)
            requires
                0 <= n as int <= DIM_MAX as int,
        ;
    }
    acc
}

proof fn lemma_dot_signs_take(qr: Seq<int>, res: Seq<int>, i: int)
    requires
        0 <= i < qr.len(),
        qr.len() <= res.len(),
    ensures
        dot_signs(qr.take(i + 1), res.take(i + 1)) == dot_signs(qr.take(i), res.take(i)) + (if res[i]
            >= 0 {
            qr[i]
        } else {
            -qr[i]
        }),
{
    assert(qr.take(i + 1).drop_last() =~= qr.take(i));
    assert(res.take(i + 1).drop_last() =~= res.take(i));
}

proof fn lemma_dot_recon_take(qr: Seq<int>, res: Seq<int>, m: int, bits: nat, i: int)
    requires
        0 <= i < qr.len(),
        qr.len() <= res.len(),
    ensures
        dot_recon(qr.take(i + 1), res.take(i + 1), m, bits) == dot_recon(
            qr.take(i),
            res.take(i),
            m,
            bits,
        ) + qr[i] * spec_recon(res[i], m, bits),
{
    assert(qr.take(i + 1).drop_last() =~= qr.take(i));
    assert(res.take(i + 1).drop_last() =~= res.take(i));
}

proof fn lemma_dot_levels_take(qr: Seq<int>, res: Seq<int>, m: int, bits: nat, i: int)
    requires
        0 <= i < qr.len(),
        qr.len() <= res.len(),
    ensures
        dot_levels(qr.take(i + 1), res.take(i + 1), m, bits) == dot_levels(
            qr.take(i),
            res.take(i),
            m,
            bits,
        ) + qr[i] * spec_ex_level(res[i], m, bits),
{
    assert(qr.take(i + 1).drop_last() =~= qr.take(i));
    assert(res.take(i + 1).drop_last() =~= res.take(i));
}


/// Copies a coordinate vector.
fn copy_vec(v: &Vec<i64>) -> (r: Vec<i64>)
    ensures
        r@ == v@,
{
    let mut out: Vec<i64> = Vec::new();
    let mut i: usize = 0;
    while i < v.len()
        invariant
            i <= v@.len(),
            out@.len() == i,
            forall|t: int| 0 <= t < i ==> #[trigger] out@[t] == v@[t],
        decreases v@.len() - i,
    {
        out.push(v[i]);
        i = i + 1;
    }
    proof {
        assert(out@ =~= v@);
    }
    out
}

/// Integer square root of the dimension, bounded by the supported sizes.
fn dim_root(dim: usize) -> (r: i64)
    requires
        1 <= dim <= DIM_MAX,
    ensures
        0 <= r <= 64,
        r * r <= dim,
        (r + 1) * (r + 1) > dim,
{
    let r = isqrt(dim as u64);
    proof {
        assert(r as int <= 64) by (nonlinear_arith)
            requires
                (r as int) * (r as int) <= dim as int,
                dim as int <= 4096,
                r as int >= 0,
        ;
    }
    r as i64
}


/// Sum of the coordinates of a vector.
fn sum_coords(v: &Vec<i64>, bound: i64) -> (r: i64)
    requires
        v@.len() <= DIM_MAX,
        0 <= bound <= RES_LIMIT,
        forall|i: int| 0 <= i < v@.len() ==> abs_i(#[trigger] v@[i] as int) <= bound,
    ensures
        r == sum_of(to_ints(v@)),
        abs_i(r as int) <= (v@.len() as int) * (bound as int),
{
    let ghost vs = to_ints(v@);
    let n = v.len();
    let mut acc: i64 = 0;
    let mut i: usize = 0;
    while i < n
        invariant
            i <= n,
            n == v@.len() <= DIM_MAX,
            vs == to_ints(v@),
            0 <= bound <= RES_LIMIT,
            forall|t: int| 0 <= t < n ==> abs_i(#[trigger] v@[t] as int) <= bound,
            acc as int == sum_of(vs.take(i as int)),
            abs_i(acc as int) <= (i as int) * (bound as int),
        decreases n - i,
    {
        proof {
            lemma_sum_of_take(vs, i as int);
            assert((i as int + 1) * (bound as int) == (i as int) * (bound as int) + bound as int)
                by (nonlinear_arith);
            assert((i as int) * (bound as int) <= (DIM_MAX as int) * (RES_LIMIT as int))
                by (nonlinear_arith)
                requires
                    0 <= i as int <= DIM_MAX as int,
                    0 <= bound as int <= RES_LIMIT as int,
            ;
        }
        acc = acc + v[i];
        i = i + 1;
    }
    proof {
        assert(vs.take(n as int) =~= vs);
        assert((n as int) * (bound as int) <= (DIM_MAX as int) * (RES_LIMIT as int))
            by (nonlinear_arith)
            requires
                0 <= n as int <= DIM_MAX as int,
                0 <= bound as int <= RES_LIMIT as int,
        ;
    }
    acc
}

/// Coarse `(estimate, lower_bound, raw_inner_product)` triple.  With
/// `hacc` the inner product is rescaled by the candidate's mean magnitude
/// (the unbiased estimator); without it the cheaper half-range grid scale is
/// used.
pub open spec fn spec_est_dist_mode(
    qr: Seq<int>,
    res: Seq<int>,
    metric: MetricType,
    g_add: int,
    g_error: int,
    isq_d: int,
    hacc: bool,
) -> (int, int, int) {
    if hacc {
        spec_est_dist(qr, res, metric, g_add, g_error, isq_d)
    } else {
        let ip = spec_rdiv(dot_signs(qr, res) * max_abs(res), 2);
        let est = spec_est_from_ip(metric, g_add, sum_sq(res), ip);
        (est, est - spec_err_margin(g_error, isq_d, max_abs(res), 0), ip)
    }
}

/// Shared coarse scoring path.
fn coarse_triple(
    qr: &Vec<i64>,
    code: &BinaryCode,
    metric: MetricType,
    g_add: i64,
    g_error: i64,
    isq_d: i64,
    hacc: bool,
) -> (r: (i64, i64, i64))
    requires
        code.wf(),
        qr@.len() == code.dim,
        forall|i: int| 0 <= i < qr@.len() ==> abs_i(#[trigger] qr@[i] as int) <= RES_LIMIT,
        abs_i(g_add as int) <= G_ADD_LIMIT as int,
        0 <= g_error <= G_ERR_LIMIT,
        0 <= isq_d <= 64,
    ensures
        (r.0 as int, r.1 as int, r.2 as int) == spec_est_dist_mode(
            to_ints(qr@),
            code.res@,
            metric,
            g_add as int,
            g_error as int,
            isq_d as int,
            hacc,
        ),
        r.1 <= r.0,
{
    let ghost qs = to_ints(qr@);
    let ghost res = code.res@;
    let n = code.dim;
    proof {
        lemma_sums_bounded(res, RES_LIMIT as int);
        lemma2_to64();
    }
    let bsum = sign_dot(qr, code);
    let prod: i64 = if hacc {
        proof {
            assert(abs_i(bsum as int * code.f_rescale as int) <= ((DIM_MAX as int) * (
            RES_LIMIT as int)) * ((DIM_MAX as int) * (RES_LIMIT as int))) by (nonlinear_arith)
                requires
                    abs_i(bsum as int) <= (DIM_MAX as int) * (RES_LIMIT as int),
                    0 <= code.f_rescale as int <= (DIM_MAX as int) * (RES_LIMIT as int),
            ;
        }
        bsum * code.f_rescale
    } else {
        proof {
            assert(abs_i(bsum as int * code.f_error as int) <= ((DIM_MAX as int) * (
            RES_LIMIT as int)) * (RES_LIMIT as int)) by (nonlinear_arith)
                requires
                    abs_i(bsum as int) <= (DIM_MAX as int) * (RES_LIMIT as int),
                    0 <= code.f_error as int <= RES_LIMIT as int,
            ;
        }
        bsum * code.f_error
    };
    let ip: i64 = if hacc {
        rdiv(prod, n as i64)
    } else {
        rdiv(prod, 2)
    };
    let est: i64 = if metric == MetricType::L2 {
        g_add + code.f_add - 2 * ip
    } else {
        g_add - ip
    };
    proof {
        assert(abs_i(g_error as int * isq_d as int) <= (G_ERR_LIMIT as int) * 64)
            by (nonlinear_arith)
            requires
                0 <= g_error as int <= G_ERR_LIMIT as int,
                0 <= isq_d as int <= 64,
        ;
        assert(abs_i((g_error as int * isq_d as int) * code.f_error as int) <= ((
        G_ERR_LIMIT as int) * 64) * (RES_LIMIT as int)) by (nonlinear_arith)
            requires
                abs_i(g_error as int * isq_d as int) <= (G_ERR_LIMIT as int) * 64,
                0 <= code.f_error as int <= RES_LIMIT as int,
        ;
        assert(g_error as int * isq_d as int >= 0 && (g_error as int * isq_d as int)
            * code.f_error as int >= 0) by (nonlinear_arith)
            requires
                g_error as int >= 0,
                isq_d as int >= 0,
                code.f_error as int >= 0,
        ;
    }
    let err = rdiv(g_error * isq_d * code.f_error, 2);
    proof {
        lemma_rdiv_abs_le((g_error * isq_d * code.f_error) as int, 2);
        assert(pow2(0) == 1);
    }
    let low = est - err;
    (est, low, ip)
}

/// Shared refined scoring path over the full grid cell.
fn full_triple(
    qr: &Vec<i64>,
    bin_data: &BinaryCode,
    ex_data: &ExtendedCode,
    metric: MetricType,
    g_add: i64,
    g_error: i64,
    isq_d: i64,
) -> (r: (i64, i64, i64))
    requires
        bin_data.wf(),
        ex_data.wf(),
        bin_data.res@ == ex_data.res@,
        bin_data.dim == ex_data.dim,
        qr@.len() == bin_data.dim,
        forall|i: int| 0 <= i < qr@.len() ==> abs_i(#[trigger] qr@[i] as int) <= RES_LIMIT,
        abs_i(g_add as int) <= G_ADD_LIMIT as int,
        0 <= g_error <= G_ERR_LIMIT,
        0 <= isq_d <= 64,
    ensures
        (r.0 as int, r.1 as int, r.2 as int) == spec_full_dist(
            to_ints(qr@),
            ex_data.res@,
            metric,
            g_add as int,
            g_error as int,
            isq_d as int,
            ex_data.ex_bits as nat,
        ),
        r.1 <= r.0,
{
    let ghost qs = to_ints(qr@);
    let ghost res = ex_data.res@;
    let n = bin_data.dim;
    let l: i64 = pow2_small(ex_data.ex_bits);
    let m = ex_data.range;
    proof {
        crate::mathspec::lemma_max_abs_nonneg(res);
        lemma_sums_bounded(res, RES_LIMIT as int);
        lemma2_to64();
        vstd::arithmetic::div_mod::lemma_small_mod(0nat, 64nat);
        assert(qs.take(0) =~= Seq::<int>::empty());
        assert(res.take(0) =~= Seq::<int>::empty());
    }
    let mut acc: i64 = 0;
    let mut i: usize = 0;
    let mut p: u64 = 1;
    while i < n
        invariant
            i <= n,
            bin_data.wf(),
            ex_data.wf(),
            bin_data.res@ == ex_data.res@,
            bin_data.dim == ex_data.dim == n,
            qr@.len() == n,
            qs == to_ints(qr@),
            res == ex_data.res@,
            forall|t: int| 0 <= t < n ==> abs_i(#[trigger] qr@[t] as int) <= RES_LIMIT,
            l == pow2(ex_data.ex_bits as nat),
            1 <= l <= 128,
            m == ex_data.range,
            0 <= m <= RES_LIMIT,
            p as int == pow2((i % 64) as nat),
            acc as int == dot_recon(qs.take(i as int), res.take(i as int), m as int,
                ex_data.ex_bits as nat),
            abs_i(acc as int) <= (i as int) * ((RES_LIMIT as int) * (2 * (RES_LIMIT as int))),
        decreases n - i,
    {
        proof {
            vstd::arithmetic::div_mod::lemma_mod_bound(i as int, 64);
            vstd::arithmetic::div_mod::lemma_div_is_ordered(i as int, n as int - 1, 64);
            vstd::arithmetic::div_mod::lemma_div_plus_one(n as int - 1, 64);
            assert(n as int + 63 == (n as int - 1) + 64);
            assert(i / 64 < bin_data.bits@.len());
            lemma_pow2_pos((i % 64) as nat);
        }
        let w = bin_data.bits[i / 64];
        let bit = (w / p) % 2 == 1;
        proof {
            assert(word_bit(bin_data.bits@, i as int) == (bin_data.res@[i as int] >= 0));
            assert(bit == (res[i as int] >= 0));
            crate::mathspec::lemma_max_abs_ge(res, i as int);
            crate::quantizer::lemma_ulevel_sign(res[i as int], m as int, ex_data.ex_bits as nat);
        }
        let e = ex_data.levels[i];
        let u: i64 = if bit {
            l + e as i64
        } else {
            e as i64
        };
        proof {
            assert(u as int == crate::quantizer::spec_ulevel(res[i as int], m as int,
                ex_data.ex_bits as nat));
            assert(0 <= u as int && (u as int) < 2 * l);
            assert(m as int * (2 * (u as int) + 1 - 2 * (l as int)) <= (RES_LIMIT as int) * 256
                && m as int * (2 * (u as int) + 1 - 2 * (l as int)) >= -((RES_LIMIT as int) * 256))
                by (nonlinear_arith)
                requires
                    0 <= m as int <= RES_LIMIT as int,
                    1 <= l as int <= 128,
                    0 <= u as int <= 2 * (l as int) - 1,
            ;
        }
        let num: i64 = m * (2 * u + 1 - 2 * l);
        let rec = rdiv(num, 2 * l);
        proof {
            assert(rec as int == spec_recon(res[i as int], m as int, ex_data.ex_bits as nat));
            lemma_dot_recon_take(qs, res, m as int, ex_data.ex_bits as nat, i as int);
            crate::mathspec::lemma_rdiv_error(num as int, 2 * l as int);
            assert(abs_i(num as int) <= (m as int) * (2 * l as int)) by (nonlinear_arith)
                requires
                    num as int == m as int * (2 * (u as int) + 1 - 2 * (l as int)),
                    0 <= m as int,
                    0 <= u as int <= 2 * (l as int) - 1,
                    1 <= l as int,
            ;
            assert(abs_i(rec as int) <= 2 * (RES_LIMIT as int)) by (nonlinear_arith)
                requires
                    -(2 * (l as int)) <= 2 * ((2 * (l as int)) * (rec as int) - num as int) <= 2 * (
                    l as int),
                    abs_i(num as int) <= (m as int) * (2 * (l as int)),
                    0 <= m as int <= RES_LIMIT as int,
                    1 <= l as int,
            ;
            assert(abs_i(qr@[i as int] as int * rec as int) <= (RES_LIMIT as int) * (2 * (
            RES_LIMIT as int))) by (nonlinear_arith)
                requires
                    abs_i(qr@[i as int] as int) <= RES_LIMIT as int,
                    abs_i(rec as int) <= 2 * (RES_LIMIT as int),
            ;
        }
        proof {
            assert((i as int + 1) * ((RES_LIMIT as int) * (2 * (RES_LIMIT as int))) == (i as int)
                * ((RES_LIMIT as int) * (2 * (RES_LIMIT as int))) + (RES_LIMIT as int) * (2 * (
            RES_LIMIT as int))) by (nonlinear_arith);
            assert((i as int) * ((RES_LIMIT as int) * (2 * (RES_LIMIT as int))) <= (DIM_MAX as int)
                * ((RES_LIMIT as int) * (2 * (RES_LIMIT as int)))) by (nonlinear_arith)
                requires
                    0 <= i as int <= DIM_MAX as int,
            ;
        }
        acc = acc + qr[i] * rec;
        if i % 64 == 63 {
            p = 1;
            proof {
                lemma2_to64();
            }
        } else {
            proof {
                vstd::arithmetic::power2::lemma_pow2_unfold(((i % 64) + 1) as nat);
                vstd::arithmetic::power2::lemma_pow2_strictly_increases((i % 64) as nat, 63);
                vstd::arithmetic::power2::lemma2_to64_rest();
            }
            p = p * 2;
        }
        proof {
            crate::mathspec::lemma_mod_step(i as int, 64);
        }
        i = i + 1;
    }
    proof {
        assert(qs.take(n as int) =~= qs);
        assert(res.take(n as int) =~= res);
        assert((n as int) * ((RES_LIMIT as int) * (2 * (RES_LIMIT as int))) <= (DIM_MAX as int) * ((
        RES_LIMIT as int) * (2 * (RES_LIMIT as int)))) by (nonlinear_arith)
            requires
                0 <= n as int <= DIM_MAX as int,
        ;
    }
    let ip = acc;
    let est: i64 = if metric == MetricType::L2 {
        g_add + ex_data.f_add - 2 * ip
    } else {
        g_add - ip
    };
    proof {
        assert(abs_i(g_error as int * isq_d as int) <= (G_ERR_LIMIT as int) * 64)
            by (nonlinear_arith)
            requires
                0 <= g_error as int <= G_ERR_LIMIT as int,
                0 <= isq_d as int <= 64,
        ;
        assert(abs_i((g_error as int * isq_d as int) * m as int) <= ((G_ERR_LIMIT as int) * 64) * (
        RES_LIMIT as int)) by (nonlinear_arith)
            requires
                abs_i(g_error as int * isq_d as int) <= (G_ERR_LIMIT as int) * 64,
                0 <= m as int <= RES_LIMIT as int,
        ;
        assert((g_error as int * isq_d as int) * m as int >= 0) by (nonlinear_arith)
            requires
                g_error as int >= 0,
                isq_d as int >= 0,
                m as int >= 0,
        ;
    }
    let err = rdiv(g_error * isq_d * m, 2 * l);
    proof {
        lemma_rdiv_abs_le((g_error * isq_d * m) as int, 2 * l as int);
    }
    let low = est - err;
    (est, low, ip)
}

/// Shared distance-boosting path: folds the extended code into a previously
/// returned coarse inner product and re-assembles the distance with the
/// stored additive correction.
fn boost_value(
    qr: &Vec<i64>,
    sumq: i64,
    ex_data: &ExtendedCode,
    ip_x0_qr: i64,
    metric: MetricType,
    g_sel: i64,
) -> (r: i64)
    requires
        ex_data.wf(),
        qr@.len() == ex_data.dim,
        forall|i: int| 0 <= i < qr@.len() ==> abs_i(#[trigger] qr@[i] as int) <= RES_LIMIT,
        sumq == sum_of(to_ints(qr@)),
        abs_i(sumq as int) <= (DIM_MAX as int) * (RES_LIMIT as int),
        abs_i(ip_x0_qr as int) <= IP_ARG_LIMIT as int,
        abs_i(g_sel as int) <= G_ADD_LIMIT as int,
    ensures
        r as int == spec_est_from_ip(
            metric,
            g_sel as int,
            ex_data.f_add as int,
            spec_boost_ip(
                to_ints(qr@),
                ex_data.res@,
                ex_data.range as int,
                ex_data.ex_bits as nat,
                ex_data.f_rescale as int,
                sumq as int,
                ip_x0_qr as int,
            ),
        ),
{
    let ghost qs = to_ints(qr@);
    let ghost res = ex_data.res@;
    let n = ex_data.dim;
    let l: i64 = pow2_small(ex_data.ex_bits);
    let m = ex_data.range;
    proof {
        crate::mathspec::lemma_max_abs_nonneg(res);
        lemma_sums_bounded(res, RES_LIMIT as int);
    }
    // Sign sum recovered from the coarse estimate, clamped to its true range.
    let lim: i64 = (n as i64) * COORD_LIMIT;
    proof {
        assert((n as int) * (COORD_LIMIT as int) <= (DIM_MAX as int) * (COORD_LIMIT as int))
            by (nonlinear_arith)
            requires
                0 <= n as int <= DIM_MAX as int,
        ;
        assert(abs_i(ip_x0_qr as int * n as int) <= (IP_ARG_LIMIT as int) * (DIM_MAX as int))
            by (nonlinear_arith)
            requires
                abs_i(ip_x0_qr as int) <= IP_ARG_LIMIT as int,
                0 <= n as int <= DIM_MAX as int,
        ;
    }
    let raw: i64 = if ex_data.f_rescale == 0 {
        0
    } else {
        rdiv(ip_x0_qr * (n as i64), ex_data.f_rescale)
    };
    let bsum: i64 = if raw > lim {
        lim
    } else if raw < -lim {
        -lim
    } else {
        raw
    };
    // Extended-level inner product.
    let mut exsum: i64 = 0;
    let mut i: usize = 0;
    proof {
        assert(qs.take(0) =~= Seq::<int>::empty());
        assert(res.take(0) =~= Seq::<int>::empty());
    }
    while i < n
        invariant
            i <= n,
            ex_data.wf(),
            ex_data.dim == n,
            qr@.len() == n,
            qs == to_ints(qr@),
            res == ex_data.res@,
            forall|t: int| 0 <= t < n ==> abs_i(#[trigger] qr@[t] as int) <= RES_LIMIT,
            m == ex_data.range,
            exsum as int == dot_levels(qs.take(i as int), res.take(i as int), m as int,
                ex_data.ex_bits as nat),
            abs_i(exsum as int) <= (i as int) * ((RES_LIMIT as int) * 256),
        decreases n - i,
    {
        let e = ex_data.levels[i];
        proof {
            lemma_dot_levels_take(qs, res, m as int, ex_data.ex_bits as nat, i as int);
            assert(abs_i(qr@[i as int] as int * e as int) <= (RES_LIMIT as int) * 256)
                by (nonlinear_arith)
                requires
                    abs_i(qr@[i as int] as int) <= RES_LIMIT as int,
                    0 <= e as int <= 255,
            ;
            assert((i as int + 1) * ((RES_LIMIT as int) * 256) == (i as int) * ((RES_LIMIT as int)
                * 256) + (RES_LIMIT as int) * 256) by (nonlinear_arith);
            assert((i as int) * ((RES_LIMIT as int) * 256) <= (DIM_MAX as int) * ((
            RES_LIMIT as int) * 256)) by (nonlinear_arith)
                requires
                    0 <= i as int <= DIM_MAX as int,
            ;
        }
        exsum = exsum + qr[i] * (e as i64);
        i = i + 1;
    }
    proof {
        assert(qs.take(n as int) =~= qs);
        assert(res.take(n as int) =~= res);
        assert((n as int) * ((RES_LIMIT as int) * 256) <= (DIM_MAX as int) * ((RES_LIMIT as int)
            * 256)) by (nonlinear_arith)
            requires
                0 <= n as int <= DIM_MAX as int,
        ;
    }
    proof {
        assert(abs_i(l as int * bsum as int) <= 128 * ((DIM_MAX as int) * (COORD_LIMIT as int)))
            by (nonlinear_arith)
            requires
                1 <= l as int <= 128,
                abs_i(bsum as int) <= (DIM_MAX as int) * (COORD_LIMIT as int),
        ;
        assert(abs_i((1 - l as int) * sumq as int) <= 128 * ((DIM_MAX as int) * (RES_LIMIT as int)))
            by (nonlinear_arith)
            requires
                1 <= l as int <= 128,
                abs_i(sumq as int) <= (DIM_MAX as int) * (RES_LIMIT as int),
        ;
    }
    let inner: i64 = l * bsum + 2 * exsum + (1 - l) * sumq;
    proof {
        assert(abs_i(m as int * inner as int) <= (RES_LIMIT as int) * (abs_i(inner as int)))
            by (nonlinear_arith)
            requires
                0 <= m as int <= RES_LIMIT as int,
        ;
        assert((RES_LIMIT as int) * (abs_i(inner as int)) <= (RES_LIMIT as int)
            * 0x40000000000000) by (nonlinear_arith)
            requires
                abs_i(inner as int) <= 0x40000000000000,
        ;
    }
    let ip_ref = rdiv(m * inner, 2 * l);
    if metric == MetricType::L2 {
        g_sel + ex_data.f_add - 2 * ip_ref
    } else {
        g_sel - ip_ref
    }
}

/// Single-candidate estimator over an origin-relative rotated query.
///
/// Construct once per query, supply the additive corrections with
/// `set_g_add`, then score any number of candidate codes read-only.
pub struct SingleEstimator {
    pub query: Vec<i64>,
    pub dim: usize,
    pub ex_bits: usize,
    pub metric: MetricType,
    pub ip_func: ExIpFunc,
    pub isq_d: i64,
    pub sumq: i64,
    pub qbin: Vec<u64>,
    pub qdelta: i64,
    pub qvl: i64,
    pub qlsum: i64,
    pub g_add_norm: i64,
    pub g_add_ip: i64,
}

impl SingleEstimator {
    /// The query as a mathematical sequence.
    pub open spec fn qseq(&self) -> Seq<int> {
        to_ints(self.query@)
    }

    pub open spec fn wf(&self) -> bool {
        &&& 1 <= self.dim <= DIM_MAX
        &&& self.query@.len() == self.dim
        &&& forall|i: int|
            0 <= i < self.dim ==> abs_i(#[trigger] self.query@[i] as int) <= COORD_LIMIT
        &&& self.ex_bits <= 7
        &&& 0 <= self.isq_d <= 64
        &&& self.isq_d * self.isq_d <= self.dim
        &&& (self.isq_d + 1) * (self.isq_d + 1) > self.dim
        &&& self.sumq == sum_of(self.qseq())
        &&& abs_i(self.sumq as int) <= (DIM_MAX as int) * (RES_LIMIT as int)
        &&& self.qdelta == spec_qdelta(self.qseq(), 255)
        &&& 1 <= self.qdelta <= 2 * (RES_LIMIT as int)
        &&& self.qvl == min_of(self.qseq())
        &&& abs_i(self.qvl as int) <= RES_LIMIT
        &&& packed_ok(
            self.qbin@,
            spec_qlevels(self.qseq(), self.qvl as int, self.qdelta as int),
            8,
        )
        &&& self.qlsum == sum_of(spec_qlevels(self.qseq(), self.qvl as int, self.qdelta as int))
        &&& 0 <= self.qlsum <= (DIM_MAX as int) * 255
        &&& abs_i(self.g_add_norm as int) <= G_ADD_LIMIT as int
        &&& abs_i(self.g_add_ip as int) <= G_ADD_LIMIT as int
        &&& self.ip_func == (if self.ex_bits == 0 {
            ExIpFunc::CoarseOnly
        } else {
            ExIpFunc::Uniform
        })
    }

    /// Binds a rotated query.  The additive corrections start at zero and
    /// are supplied later through `set_g_add`.
    pub fn new(
        rotated_query: &Vec<i64>,
        padded_dim: usize,
        ex_bits: usize,
        config: &RabitqConfig,
        metric_type: MetricType,
    ) -> (r: SingleEstimator)
        requires
            rotated_query@.len() == padded_dim,
            1 <= padded_dim <= DIM_MAX,
            ex_bits <= spec_max_ex_bits(metric_type),
            forall|i: int|
                0 <= i < rotated_query@.len() ==> abs_i(#[trigger] rotated_query@[i] as int)
                    <= COORD_LIMIT,
        ensures
            r.wf(),
            r.query@ == rotated_query@,
            r.dim == padded_dim,
            r.ex_bits == ex_bits,
            r.metric == metric_type,
            r.g_add_norm == 0,
            r.g_add_ip == 0,
    {
        let query = copy_vec(rotated_query);
        let isq_d = dim_root(padded_dim);
        let sumq = sum_coords(&query, COORD_LIMIT);
        let (levels, qdelta, qvl, qlsum) = quantize_query(&query, 255);
        proof {
            lemma2_to64();
            assert(forall|i: int|
                0 <= i < levels@.len() ==> (#[trigger] levels@[i] as int) < pow2(8));
        }
        let qbin = pack_levels(&levels, 8);
        proof {
            assert(to_ints_u(levels@) =~= spec_qlevels(
                to_ints(query@),
                qvl as int,
                qdelta as int,
            ));
            assert(abs_i(sumq as int) <= (DIM_MAX as int) * (RES_LIMIT as int))
                by (nonlinear_arith)
                requires
                    abs_i(sumq as int) <= (padded_dim as int) * (COORD_LIMIT as int),
                    padded_dim as int <= DIM_MAX as int,
            ;
            assert(qlsum <= (DIM_MAX as int) * 255) by (nonlinear_arith)
                requires
                    qlsum as int <= (padded_dim as int) * 255,
                    padded_dim as int <= DIM_MAX as int,
            ;
        }
        SingleEstimator {
            query,
            dim: padded_dim,
            ex_bits,
            metric: metric_type,
            ip_func: select_excode_ipfunc(ex_bits),
            isq_d,
            sumq,
            qbin,
            qdelta,
            qvl,
            qlsum,
            g_add_norm: 0,
            g_add_ip: 0,
        }
    }

    /// Checked construction: validates the sizes and coordinate range
    /// before doing any work, and says which check failed.
    pub fn try_new(
        rotated_query: &Vec<i64>,
        padded_dim: usize,
        ex_bits: usize,
        config: &RabitqConfig,
        metric_type: MetricType,
    ) -> (r: Result<SingleEstimator, RabitqError>)
        ensures
            r is Ok <==> {
                &&& rotated_query@.len() == padded_dim
                &&& 1 <= padded_dim <= DIM_MAX
                &&& ex_bits <= spec_max_ex_bits(metric_type)
                &&& forall|i: int|
                    0 <= i < rotated_query@.len() ==> abs_i(#[trigger] rotated_query@[i] as int)
                        <= COORD_LIMIT
            },
            r matches Ok(est) ==> est.wf() && est.query@ == rotated_query@ && est.dim == padded_dim
                && est.ex_bits == ex_bits && est.metric == metric_type,
    {
        if rotated_query.len() != padded_dim {
            return Err(RabitqError::DimensionMismatch);
        }
        if padded_dim == 0 || padded_dim > DIM_MAX {
            return Err(RabitqError::UnsupportedDimension);
        }
        if ex_bits > crate::quantizer::max_ex_bits(metric_type) {
            return Err(RabitqError::UnsupportedExBits);
        }
        let mut i: usize = 0;
        while i < padded_dim
            invariant
                i <= padded_dim,
                rotated_query@.len() == padded_dim,
                forall|t: int|
                    0 <= t < i ==> abs_i(#[trigger] rotated_query@[t] as int) <= COORD_LIMIT,
            decreases padded_dim - i,
        {
            let x = rotated_query[i];
            if x > COORD_LIMIT || x < -COORD_LIMIT {
                return Err(RabitqError::CoordinateOutOfRange);
            }
            i = i + 1;
        }
        Ok(Self::new(rotated_query, padded_dim, ex_bits, config, metric_type))
    }

    /// The query-side quantized code: 8-bit levels packed into words.
    pub fn query_bin(&self) -> (r: &Vec<u64>)
        ensures
            r@ == self.qbin@,
    {
        &self.qbin
    }

    /// Query-side quantization step.
    pub fn delta(&self) -> (r: i64)
        ensures
            r == self.qdelta,
    {
        self.qdelta
    }

    /// Query-side quantization offset (the smallest coordinate).
    pub fn vl(&self) -> (r: i64)
        ensures
            r == self.qvl,
    {
        self.qvl
    }

    /// Supplies the additive corrections used by `distance_boosting`: the
    /// norm term for squared-distance metrics and the inner-product term
    /// for the inner-product metric.
    pub fn set_g_add(&mut self, norm: i64, ip: i64)
        requires
            old(self).wf(),
            abs_i(norm as int) <= G_ADD_LIMIT as int,
            abs_i(ip as int) <= G_ADD_LIMIT as int,
        ensures
            final(self).wf(),
            final(self).g_add_norm == norm,
            final(self).g_add_ip == ip,
            final(self).query@ == old(self).query@,
            final(self).dim == old(self).dim,
            final(self).ex_bits == old(self).ex_bits,
            final(self).metric == old(self).metric,
            final(self).ip_func == old(self).ip_func,
            final(self).isq_d == old(self).isq_d,
            final(self).sumq == old(self).sumq,
            final(self).qbin@ == old(self).qbin@,
            final(self).qdelta == old(self).qdelta,
            final(self).qvl == old(self).qvl,
            final(self).qlsum == old(self).qlsum,
    {
        self.g_add_norm = norm;
        self.g_add_ip = ip;
    }

    /// Coarse estimate from the sign code alone:
    /// `(estimate, lower_bound, raw_inner_product)`, with the estimate never
    /// below the lower bound.
    pub fn est_dist(&self, bin_data: &BinaryCode, g_add: i64, g_error: i64) -> (r: (i64, i64, i64))
        requires
            self.wf(),
            bin_data.wf(),
            bin_data.dim == self.dim,
            abs_i(g_add as int) <= G_ADD_LIMIT as int,
            0 <= g_error <= G_ERR_LIMIT,
        ensures
            (r.0 as int, r.1 as int, r.2 as int) == spec_est_dist(
                self.qseq(),
                bin_data.res@,
                self.metric,
                g_add as int,
                g_error as int,
                self.isq_d as int,
            ),
            r.1 <= r.0,
    {
        coarse_triple(&self.query, bin_data, self.metric, g_add, g_error, self.isq_d, true)
    }

    /// Refined estimate combining the sign code and the extended code in
    /// one pass.
    pub fn full_dist(
        &self,
        bin_data: &BinaryCode,
        ex_data: &ExtendedCode,
        g_add: i64,
        g_error: i64,
    ) -> (r: (i64, i64, i64))
        requires
            self.wf(),
            bin_data.wf(),
            ex_data.wf(),
            bin_data.res@ == ex_data.res@,
            bin_data.dim == self.dim,
            ex_data.dim == self.dim,
            ex_data.ex_bits == self.ex_bits,
            abs_i(g_add as int) <= G_ADD_LIMIT as int,
            0 <= g_error <= G_ERR_LIMIT,
        ensures
            (r.0 as int, r.1 as int, r.2 as int) == spec_full_dist(
                self.qseq(),
                ex_data.res@,
                self.metric,
                g_add as int,
                g_error as int,
                self.isq_d as int,
                self.ex_bits as nat,
            ),
            r.1 <= r.0,
    {
        full_triple(&self.query, bin_data, ex_data, self.metric, g_add, g_error, self.isq_d)
    }

    /// Refines a previously computed coarse inner product with the extended
    /// code only, using the corrections stored by `set_g_add`.
    pub fn distance_boosting(&self, ex_data: &ExtendedCode, ip_x0_qr: i64) -> (r: i64)
        requires
            self.wf(),
            ex_data.wf(),
            ex_data.dim == self.dim,
            ex_data.ex_bits == self.ex_bits,
            abs_i(ip_x0_qr as int) <= IP_ARG_LIMIT as int,
        ensures
            r as int == spec_est_from_ip(
                self.metric,
                (if self.metric == MetricType::L2 {
                    self.g_add_norm
                } else {
                    self.g_add_ip
                }) as int,
                ex_data.f_add as int,
                spec_boost_ip(
                    self.qseq(),
                    ex_data.res@,
                    ex_data.range as int,
                    ex_data.ex_bits as nat,
                    ex_data.f_rescale as int,
                    self.sumq as int,
                    ip_x0_qr as int,
                ),
            ),
    {
        let g_sel = if self.metric == MetricType::L2 {
            self.g_add_norm
        } else {
            self.g_add_ip
        };
        boost_value(&self.query, self.sumq, ex_data, ip_x0_qr, self.metric, g_sel)
    }
}

/// Single-candidate estimator relative to a centroid: the query and every
/// candidate code are interpreted against the same reference vector, bound
/// once at construction.
pub struct SingleCentroidEstimator {
    pub query: Vec<i64>,
    pub centroid: Vec<i64>,
    pub qr: Vec<i64>,
    pub dim: usize,
    pub ex_bits: usize,
    pub metric: MetricType,
    pub ip_func: ExIpFunc,
    pub isq_d: i64,
    pub sumq: i64,
    pub qbin: Vec<u64>,
    pub qdelta: i64,
    pub qvl: i64,
    pub qlsum: i64,
    pub g_add_norm: i64,
    pub g_add_ip: i64,
    pub g_error_norm: i64,
}

impl SingleCentroidEstimator {
    /// The query residual (query minus centroid) as a mathematical
    /// sequence: the vector every estimate is computed against.
    pub open spec fn qrseq(&self) -> Seq<int> {
        to_ints(self.qr@)
    }

    pub open spec fn wf(&self) -> bool {
        &&& 1 <= self.dim <= DIM_MAX
        &&& self.query@.len() == self.dim
        &&& self.centroid@.len() == self.dim
        &&& self.qr@.len() == self.dim
        &&& forall|i: int|
            0 <= i < self.dim ==> abs_i(#[trigger] self.query@[i] as int) <= COORD_LIMIT
        &&& forall|i: int|
            0 <= i < self.dim ==> abs_i(#[trigger] self.centroid@[i] as int) <= COORD_LIMIT
        &&& to_ints(self.qr@) == crate::quantizer::residual_seq(
            to_ints(self.query@),
            to_ints(self.centroid@),
        )
        &&& forall|i: int| 0 <= i < self.dim ==> abs_i(#[trigger] self.qr@[i] as int) <= RES_LIMIT
        &&& self.ex_bits <= 7
        &&& 0 <= self.isq_d <= 64
        &&& self.isq_d * self.isq_d <= self.dim
        &&& (self.isq_d + 1) * (self.isq_d + 1) > self.dim
        &&& self.sumq == sum_of(self.qrseq())
        &&& abs_i(self.sumq as int) <= (DIM_MAX as int) * (RES_LIMIT as int)
        &&& self.qdelta == spec_qdelta(self.qrseq(), 15)
        &&& 1 <= self.qdelta <= 2 * (RES_LIMIT as int)
        &&& self.qvl == min_of(self.qrseq())
        &&& abs_i(self.qvl as int) <= RES_LIMIT
        &&& packed_ok(
            self.qbin@,
            spec_qlevels(self.qrseq(), self.qvl as int, self.qdelta as int),
            4,
        )
        &&& self.qlsum == sum_of(spec_qlevels(self.qrseq(), self.qvl as int, self.qdelta as int))
        &&& 0 <= self.qlsum <= (DIM_MAX as int) * 255
        &&& abs_i(self.g_add_norm as int) <= G_ADD_LIMIT as int
        &&& abs_i(self.g_add_ip as int) <= G_ADD_LIMIT as int
        &&& 0 <= self.g_error_norm <= G_ERR_LIMIT
        &&& self.ip_func == (if self.ex_bits == 0 {
            ExIpFunc::CoarseOnly
        } else {
            ExIpFunc::Uniform
        })
    }

    /// Binds a rotated query and a centroid; the residual is computed once
    /// here and reused by every scoring call.
    pub fn new(
        rotated_query: &Vec<i64>,
        centroid: &Vec<i64>,
        padded_dim: usize,
        ex_bits: usize,
        config: &RabitqConfig,
        metric_type: MetricType,
    ) -> (r: SingleCentroidEstimator)
        requires
            rotated_query@.len() == padded_dim,
            centroid@.len() == padded_dim,
            1 <= padded_dim <= DIM_MAX,
            ex_bits <= spec_max_ex_bits(metric_type),
            forall|i: int|
                0 <= i < rotated_query@.len() ==> abs_i(#[trigger] rotated_query@[i] as int)
                    <= COORD_LIMIT,
            forall|i: int|
                0 <= i < centroid@.len() ==> abs_i(#[trigger] centroid@[i] as int) <= COORD_LIMIT,
        ensures
            r.wf(),
            r.query@ == rotated_query@,
            r.centroid@ == centroid@,
            r.dim == padded_dim,
            r.ex_bits == ex_bits,
            r.metric == metric_type,
            r.g_add_norm == 0,
            r.g_add_ip == 0,
            r.g_error_norm == 0,
    {
        let query = copy_vec(rotated_query);
        let cent = copy_vec(centroid);
        let mut qr: Vec<i64> = Vec::new();
        let mut i: usize = 0;
        while i < padded_dim
            invariant
                i <= padded_dim,
                query@ == rotated_query@,
                cent@ == centroid@,
                rotated_query@.len() == padded_dim,
                centroid@.len() == padded_dim,
                qr@.len() == i,
                forall|t: int|
                    0 <= t < rotated_query@.len() ==> abs_i(#[trigger] rotated_query@[t] as int)
                        <= COORD_LIMIT,
                forall|t: int|
                    0 <= t < centroid@.len() ==> abs_i(#[trigger] centroid@[t] as int)
                        <= COORD_LIMIT,
                forall|t: int|
                    0 <= t < i ==> #[trigger] qr@[t] as int == rotated_query@[t] as int
                        - centroid@[t] as int,
                forall|t: int| 0 <= t < i ==> abs_i(#[trigger] qr@[t] as int) <= RES_LIMIT,
            decreases padded_dim - i,
        {
            qr.push(query[i] - cent[i]);
            i = i + 1;
        }
        proof {
            assert(to_ints(qr@) =~= crate::quantizer::residual_seq(
                to_ints(rotated_query@),
                to_ints(centroid@),
            ));
        }
        let isq_d = dim_root(padded_dim);
        let sumq = sum_coords(&qr, RES_LIMIT);
        let (levels, qdelta, qvl, qlsum) = quantize_query(&qr, 15);
        proof {
            lemma2_to64();
            assert(forall|i: int|
                0 <= i < levels@.len() ==> (#[trigger] levels@[i] as int) < pow2(4));
        }
        let qbin = pack_levels(&levels, 4);
        proof {
            assert(to_ints_u(levels@) =~= spec_qlevels(to_ints(qr@), qvl as int, qdelta as int));
            assert(abs_i(sumq as int) <= (DIM_MAX as int) * (RES_LIMIT as int))
                by (nonlinear_arith)
                requires
                    abs_i(sumq as int) <= (padded_dim as int) * (RES_LIMIT as int),
                    padded_dim as int <= DIM_MAX as int,
            ;
            assert(qlsum <= (DIM_MAX as int) * 255) by (nonlinear_arith)
                requires
                    qlsum as int <= (padded_dim as int) * 15,
                    padded_dim as int <= DIM_MAX as int,
            ;
        }
        SingleCentroidEstimator {
            query,
            centroid: cent,
            qr,
            dim: padded_dim,
            ex_bits,
            metric: metric_type,
            ip_func: select_excode_ipfunc(ex_bits),
            isq_d,
            sumq,
            qbin,
            qdelta,
            qvl,
            qlsum,
            g_add_norm: 0,
            g_add_ip: 0,
            g_error_norm: 0,
        }
    }

    /// The query-side quantized code: 4-bit levels packed into words.
    pub fn query_bin(&self) -> (r: &Vec<u64>)
        ensures
            r@ == self.qbin@,
    {
        &self.qbin
    }

    /// The rotated query as supplied at construction.
    pub fn rotated_query(&self) -> (r: &Vec<i64>)
        ensures
            r@ == self.query@,
    {
        &self.query
    }

    /// Query-side quantization step.
    pub fn delta(&self) -> (r: i64)
        ensures
            r == self.qdelta,
    {
        self.qdelta
    }

    /// Query-side quantization offset (the smallest residual coordinate).
    pub fn vl(&self) -> (r: i64)
        ensures
            r == self.qvl,
    {
        self.qvl
    }

    /// Scaled part of the query-level sum: the step times the level sum.
    pub fn k1xsumq(&self) -> (r: i64)
        requires
            self.wf(),
        ensures
            r as int == (self.qdelta as int) * (self.qlsum as int),
    {
        proof {
            assert(abs_i((self.qdelta as int) * (self.qlsum as int)) <= (2 * (RES_LIMIT as int)) * (
            (DIM_MAX as int) * 255)) by (nonlinear_arith)
                requires
                    1 <= self.qdelta as int <= 2 * (RES_LIMIT as int),
                    0 <= self.qlsum as int <= (DIM_MAX as int) * 255,
            ;
        }
        self.qdelta * self.qlsum
    }

    /// Offset part of the query-level sum: the offset times the dimension.
    pub fn kbxsumq(&self) -> (r: i64)
        requires
            self.wf(),
        ensures
            r as int == (self.qvl as int) * (self.dim as int),
    {
        proof {
            assert(abs_i((self.qvl as int) * (self.dim as int)) <= (RES_LIMIT as int) * (
            DIM_MAX as int)) by (nonlinear_arith)
                requires
                    abs_i(self.qvl as int) <= RES_LIMIT as int,
                    0 <= self.dim as int <= DIM_MAX as int,
            ;
        }
        self.qvl * (self.dim as i64)
    }

    /// The stored additive correction.
    pub fn g_add(&self) -> (r: i64)
        ensures
            r == self.g_add_norm,
    {
        self.g_add_norm
    }

    /// The stored error correction.
    pub fn g_error(&self) -> (r: i64)
        ensures
            r == self.g_error_norm,
    {
        self.g_error_norm
    }

    /// Supplies the additive corrections used by `distance_boosting`.
    pub fn set_g_add(&mut self, norm: i64, ip: i64)
        requires
            old(self).wf(),
            abs_i(norm as int) <= G_ADD_LIMIT as int,
            abs_i(ip as int) <= G_ADD_LIMIT as int,
        ensures
            final(self).wf(),
            final(self).g_add_norm == norm,
            final(self).g_add_ip == ip,
            *final(self) == (SingleCentroidEstimator { g_add_norm: norm, g_add_ip: ip, ..*old(self) }),
    {
        self.g_add_norm = norm;
        self.g_add_ip = ip;
    }

    /// Supplies the error correction (a norm, nonnegative).
    pub fn set_g_error(&mut self, norm: i64)
        requires
            old(self).wf(),
            0 <= norm <= G_ERR_LIMIT,
        ensures
            final(self).wf(),
            final(self).g_error_norm == norm,
            *final(self) == (SingleCentroidEstimator { g_error_norm: norm, ..*old(self) }),
    {
        self.g_error_norm = norm;
    }

    /// Coarse estimate of the candidate against the query residual.
    pub fn est_dist(&self, bin_data: &BinaryCode, g_add: i64, g_error: i64) -> (r: (i64, i64, i64))
        requires
            self.wf(),
            bin_data.wf(),
            bin_data.dim == self.dim,
            abs_i(g_add as int) <= G_ADD_LIMIT as int,
            0 <= g_error <= G_ERR_LIMIT,
        ensures
            (r.0 as int, r.1 as int, r.2 as int) == spec_est_dist(
                self.qrseq(),
                bin_data.res@,
                self.metric,
                g_add as int,
                g_error as int,
                self.isq_d as int,
            ),
            r.1 <= r.0,
    {
        coarse_triple(&self.qr, bin_data, self.metric, g_add, g_error, self.isq_d, true)
    }

    /// Refined estimate from the sign code and the extended code.
    pub fn full_dist(
        &self,
        bin_data: &BinaryCode,
        ex_data: &ExtendedCode,
        g_add: i64,
        g_error: i64,
    ) -> (r: (i64, i64, i64))
        requires
            self.wf(),
            bin_data.wf(),
            ex_data.wf(),
            bin_data.res@ == ex_data.res@,
            bin_data.dim == self.dim,
            ex_data.dim == self.dim,
            ex_data.ex_bits == self.ex_bits,
            abs_i(g_add as int) <= G_ADD_LIMIT as int,
            0 <= g_error <= G_ERR_LIMIT,
        ensures
            (r.0 as int, r.1 as int, r.2 as int) == spec_full_dist(
                self.qrseq(),
                ex_data.res@,
                self.metric,
                g_add as int,
                g_error as int,
                self.isq_d as int,
                self.ex_bits as nat,
            ),
            r.1 <= r.0,
    {
        full_triple(&self.qr, bin_data, ex_data, self.metric, g_add, g_error, self.isq_d)
    }

    /// Refines a previously computed coarse inner product with the extended
    /// code only.
    pub fn distance_boosting(&self, ex_data: &ExtendedCode, ip_x0_qr: i64) -> (r: i64)
        requires
            self.wf(),
            ex_data.wf(),
            ex_data.dim == self.dim,
            ex_data.ex_bits == self.ex_bits,
            abs_i(ip_x0_qr as int) <= IP_ARG_LIMIT as int,
        ensures
            r as int == spec_est_from_ip(
                self.metric,
                (if self.metric == MetricType::L2 {
                    self.g_add_norm
                } else {
                    self.g_add_ip
                }) as int,
                ex_data.f_add as int,
                spec_boost_ip(
                    self.qrseq(),
                    ex_data.res@,
                    ex_data.range as int,
                    ex_data.ex_bits as nat,
                    ex_data.f_rescale as int,
                    self.sumq as int,
                    ip_x0_qr as int,
                ),
            ),
    {
        let g_sel = if self.metric == MetricType::L2 {
            self.g_add_norm
        } else {
            self.g_add_ip
        };
        boost_value(&self.qr, self.sumq, ex_data, ip_x0_qr, self.metric, g_sel)
    }
}

/// Batched sign-code estimator: scores a fixed batch of `K_BATCH_SIZE`
/// candidates per call against one rotated query, squared-L2 metric,
/// reusing the query-side precomputation across the whole batch.
pub struct BatchBinEstimator {
    pub query: Vec<i64>,
    pub dim: usize,
    pub sumq: i64,
    pub qbin: Vec<u64>,
    pub qdelta: i64,
    pub qvl: i64,
    pub qlsum: i64,
    pub g_add_val: i64,
}

impl BatchBinEstimator {
    pub open spec fn qseq(&self) -> Seq<int> {
        to_ints(self.query@)
    }

    pub open spec fn wf(&self) -> bool {
        &&& 1 <= self.dim <= DIM_MAX
        &&& self.query@.len() == self.dim
        &&& forall|i: int|
            0 <= i < self.dim ==> abs_i(#[trigger] self.query@[i] as int) <= COORD_LIMIT
        &&& self.sumq == sum_of(self.qseq())
        &&& abs_i(self.sumq as int) <= (DIM_MAX as int) * (RES_LIMIT as int)
        &&& self.qdelta == spec_qdelta(self.qseq(), 255)
        &&& 1 <= self.qdelta <= 2 * (RES_LIMIT as int)
        &&& self.qvl == min_of(self.qseq())
        &&& abs_i(self.qvl as int) <= RES_LIMIT
        &&& packed_ok(
            self.qbin@,
            spec_qlevels(self.qseq(), self.qvl as int, self.qdelta as int),
            8,
        )
        &&& self.qlsum == sum_of(spec_qlevels(self.qseq(), self.qvl as int, self.qdelta as int))
        &&& 0 <= self.qlsum <= (DIM_MAX as int) * 255
        &&& abs_i(self.g_add_val as int) <= G_ADD_LIMIT as int
    }

    pub fn new(rotated_query: &Vec<i64>, padded_dim: usize) -> (r: BatchBinEstimator)
        requires
            rotated_query@.len() == padded_dim,
            1 <= padded_dim <= DIM_MAX,
            forall|i: int|
                0 <= i < rotated_query@.len() ==> abs_i(#[trigger] rotated_query@[i] as int)
                    <= COORD_LIMIT,
        ensures
            r.wf(),
            r.query@ == rotated_query@,
            r.dim == padded_dim,
            r.g_add_val == 0,
    {
        let query = copy_vec(rotated_query);
        let sumq = sum_coords(&query, COORD_LIMIT);
        let (levels, qdelta, qvl, qlsum) = quantize_query(&query, 255);
        proof {
            lemma2_to64();
            assert(forall|i: int|
                0 <= i < levels@.len() ==> (#[trigger] levels@[i] as int) < pow2(8));
        }
        let qbin = pack_levels(&levels, 8);
        proof {
            assert(to_ints_u(levels@) =~= spec_qlevels(
                to_ints(query@),
                qvl as int,
                qdelta as int,
            ));
            assert(abs_i(sumq as int) <= (DIM_MAX as int) * (RES_LIMIT as int))
                by (nonlinear_arith)
                requires
                    abs_i(sumq as int) <= (padded_dim as int) * (COORD_LIMIT as int),
                    padded_dim as int <= DIM_MAX as int,
            ;
            assert(qlsum <= (DIM_MAX as int) * 255) by (nonlinear_arith)
                requires
                    qlsum as int <= (padded_dim as int) * 255,
                    padded_dim as int <= DIM_MAX as int,
            ;
        }
        BatchBinEstimator { query, dim: padded_dim, sumq, qbin, qdelta, qvl, qlsum, g_add_val: 0 }
    }

    /// Query-side quantization step.
    pub fn delta(&self) -> (r: i64)
        ensures
            r == self.qdelta,
    {
        self.qdelta
    }

    /// Sum of the reconstructed quantized query: step times level sum plus
    /// offset times dimension.
    pub fn sum_vl_lut(&self) -> (r: i64)
        requires
            self.wf(),
        ensures
            r as int == (self.qdelta as int) * (self.qlsum as int) + (self.qvl as int) * (
            self.dim as int),
    {
        proof {
            assert(abs_i((self.qdelta as int) * (self.qlsum as int)) <= (2 * (RES_LIMIT as int)) * (
            (DIM_MAX as int) * 255) && abs_i((self.qvl as int) * (self.dim as int)) <= (
            RES_LIMIT as int) * (DIM_MAX as int)) by (nonlinear_arith)
                requires
                    1 <= self.qdelta as int <= 2 * (RES_LIMIT as int),
                    0 <= self.qlsum as int <= (DIM_MAX as int) * 255,
                    abs_i(self.qvl as int) <= RES_LIMIT as int,
                    0 <= self.dim as int <= DIM_MAX as int,
            ;
        }
        self.qdelta * self.qlsum + self.qvl * (self.dim as i64)
    }

    /// Scaled part of the query-level sum.
    pub fn k1xsumq(&self) -> (r: i64)
        requires
            self.wf(),
        ensures
            r as int == (self.qdelta as int) * (self.qlsum as int),
    {
        proof {
            assert(abs_i((self.qdelta as int) * (self.qlsum as int)) <= (2 * (RES_LIMIT as int)) * (
            (DIM_MAX as int) * 255)) by (nonlinear_arith)
                requires
                    1 <= self.qdelta as int <= 2 * (RES_LIMIT as int),
                    0 <= self.qlsum as int <= (DIM_MAX as int) * 255,
            ;
        }
        self.qdelta * self.qlsum
    }

    /// The stored additive correction.
    pub fn g_add(&self) -> (r: i64)
        ensures
            r == self.g_add_val,
    {
        self.g_add_val
    }

    /// Supplies the additive correction (the squared norm of the query
    /// offset) used by `batch_est`.
    pub fn set_g_add(&mut self, sqr_norm: i64)
        requires
            old(self).wf(),
            abs_i(sqr_norm as int) <= G_ADD_LIMIT as int,
        ensures
            final(self).wf(),
            final(self).g_add_val == sqr_norm,
            *final(self) == (BatchBinEstimator { g_add_val: sqr_norm, ..*old(self) }),
    {
        self.g_add_val = sqr_norm;
    }

    /// The query-side lookup table: the packed quantized query levels the
    /// batched scan reads.
    pub fn lut(&self) -> (r: &Vec<u64>)
        ensures
            r@ == self.qbin@,
    {
        &self.qbin
    }

    /// Scores a batch of `K_BATCH_SIZE` sign codes, writing one squared-L2
    /// estimate per candidate.  Entry `j` equals the estimate component the
    /// single-candidate path computes for the same code and query state.
    pub fn batch_est(&self, batch_data: &Vec<BinaryCode>, est_distance: &mut Vec<i64>)
        requires
            self.wf(),
            batch_data@.len() == K_BATCH_SIZE,
            old(est_distance)@.len() == K_BATCH_SIZE,
            forall|j: int|
                0 <= j < K_BATCH_SIZE ==> (#[trigger] batch_data@[j]).wf() && batch_data@[j].dim
                    == self.dim,
        ensures
            final(est_distance)@.len() == K_BATCH_SIZE,
            forall|j: int|
                0 <= j < K_BATCH_SIZE ==> #[trigger] final(est_distance)@[j] as int ==
                    spec_est_dist(
                    self.qseq(),
                    batch_data@[j].res@,
                    MetricType::L2,
                    self.g_add_val as int,
                    0,
                    0,
                ).0,
    {
        let mut j: usize = 0;
        while j < K_BATCH_SIZE
            invariant
                j <= K_BATCH_SIZE,
                self.wf(),
                batch_data@.len() == K_BATCH_SIZE,
                est_distance@.len() == K_BATCH_SIZE,
                forall|t: int|
                    0 <= t < K_BATCH_SIZE ==> (#[trigger] batch_data@[t]).wf()
                        && batch_data@[t].dim == self.dim,
                forall|t: int|
                    0 <= t < j ==> #[trigger] est_distance@[t] as int == spec_est_dist(
                        self.qseq(),
                        batch_data@[t].res@,
                        MetricType::L2,
                        self.g_add_val as int,
                        0,
                        0,
                    ).0,
            decreases K_BATCH_SIZE - j,
        {
            let triple = coarse_triple(
                &self.query,
                &batch_data[j],
                MetricType::L2,
                self.g_add_val,
                0,
                0,
                true,
            );
            est_distance.set(j, triple.0);
            j = j + 1;
        }
    }
}

/// Batched estimator over split codes: the same coarse scoring as the
/// single path over a fixed batch, plus distance boosting, with the
/// corrections stored once per query.  `use_hacc` selects the rescaled
/// (unbiased) inner-product estimate; without it the cheaper half-range
/// grid scale is used.
pub struct SplitBatchEstimator {
    pub query: Vec<i64>,
    pub dim: usize,
    pub ex_bits: usize,
    pub metric: MetricType,
    pub ip_func: ExIpFunc,
    pub isq_d: i64,
    pub sumq: i64,
    pub use_hacc: bool,
    pub g_add_norm: i64,
    pub g_add_ip: i64,
    pub g_sqrt: i64,
}

impl SplitBatchEstimator {
    pub open spec fn qseq(&self) -> Seq<int> {
        to_ints(self.query@)
    }

    pub open spec fn wf(&self) -> bool {
        &&& 1 <= self.dim <= DIM_MAX
        &&& self.query@.len() == self.dim
        &&& forall|i: int|
            0 <= i < self.dim ==> abs_i(#[trigger] self.query@[i] as int) <= COORD_LIMIT
        &&& self.ex_bits <= 7
        &&& 0 <= self.isq_d <= 64
        &&& self.isq_d * self.isq_d <= self.dim
        &&& (self.isq_d + 1) * (self.isq_d + 1) > self.dim
        &&& self.sumq == sum_of(self.qseq())
        &&& abs_i(self.sumq as int) <= (DIM_MAX as int) * (RES_LIMIT as int)
        &&& abs_i(self.g_add_norm as int) <= G_ADD_LIMIT as int
        &&& abs_i(self.g_add_ip as int) <= G_ADD_LIMIT as int
        &&& 0 <= self.g_sqrt <= G_ERR_LIMIT
        &&& self.ip_func == (if self.ex_bits == 0 {
            ExIpFunc::CoarseOnly
        } else {
            ExIpFunc::Uniform
        })
    }

    pub fn new(
        rotated_query: &Vec<i64>,
        padded_dim: usize,
        ex_bits: usize,
        metric_type: MetricType,
        use_hacc: bool,
    ) -> (r: SplitBatchEstimator)
        requires
            rotated_query@.len() == padded_dim,
            1 <= padded_dim <= DIM_MAX,
            ex_bits <= spec_max_ex_bits(metric_type),
            forall|i: int|
                0 <= i < rotated_query@.len() ==> abs_i(#[trigger] rotated_query@[i] as int)
                    <= COORD_LIMIT,
        ensures
            r.wf(),
            r.query@ == rotated_query@,
            r.dim == padded_dim,
            r.ex_bits == ex_bits,
            r.metric == metric_type,
            r.use_hacc == use_hacc,
            r.g_add_norm == 0,
            r.g_add_ip == 0,
            r.g_sqrt == 0,
    {
        let query = copy_vec(rotated_query);
        let isq_d = dim_root(padded_dim);
        let sumq = sum_coords(&query, COORD_LIMIT);
        proof {
            assert(abs_i(sumq as int) <= (DIM_MAX as int) * (RES_LIMIT as int))
                by (nonlinear_arith)
                requires
                    abs_i(sumq as int) <= (padded_dim as int) * (COORD_LIMIT as int),
                    padded_dim as int <= DIM_MAX as int,
            ;
        }
        SplitBatchEstimator {
            query,
            dim: padded_dim,
            ex_bits,
            metric: metric_type,
            ip_func: select_excode_ipfunc(ex_bits),
            isq_d,
            sumq,
            use_hacc,
            g_add_norm: 0,
            g_add_ip: 0,
            g_sqrt: 0,
        }
    }

    /// Supplies the additive corrections; the error scale for the lower
    /// bound is derived as the integer root of the (nonnegative) norm term.
    pub fn set_g_add(&mut self, norm: i64, ip: i64)
        requires
            old(self).wf(),
            abs_i(norm as int) <= G_ADD_LIMIT as int,
            abs_i(ip as int) <= G_ADD_LIMIT as int,
        ensures
            final(self).wf(),
            final(self).g_add_norm == norm,
            final(self).g_add_ip == ip,
            norm >= 0 ==> ((final(self).g_sqrt as int) * (final(self).g_sqrt as int) <= (
            norm as int) && (norm as int) < ((final(self).g_sqrt as int) + 1) * ((final(self).g_sqrt
                as int) + 1)),
            norm < 0 ==> final(self).g_sqrt == 0,
            final(self).query@ == old(self).query@,
            final(self).dim == old(self).dim,
            final(self).ex_bits == old(self).ex_bits,
            final(self).metric == old(self).metric,
            final(self).ip_func == old(self).ip_func,
            final(self).isq_d == old(self).isq_d,
            final(self).sumq == old(self).sumq,
            final(self).use_hacc == old(self).use_hacc,
    {
        self.g_add_norm = norm;
        self.g_add_ip = ip;
        if norm >= 0 {
            let root = isqrt(norm as u64);
            proof {
                assert((root as int) <= 0xffffffff);
            }
            self.g_sqrt = root as i64;
        } else {
            self.g_sqrt = 0;
        }
    }

    /// Scores a batch of `K_BATCH_SIZE` sign codes, returning the
    /// `(estimate, lower_bound, raw_inner_product)` triple per candidate.
    pub fn estdist(&self, batch_data: &Vec<BinaryCode>, use_hacc: bool) -> (r: Vec<(i64, i64, i64)>)
        requires
            self.wf(),
            batch_data@.len() == K_BATCH_SIZE,
            forall|j: int|
                0 <= j < K_BATCH_SIZE ==> (#[trigger] batch_data@[j]).wf() && batch_data@[j].dim
                    == self.dim,
        ensures
            r@.len() == K_BATCH_SIZE,
            forall|j: int|
                0 <= j < K_BATCH_SIZE ==> (#[trigger] r@[j].0 as int, r@[j].1 as int,
                r@[j].2 as int) == spec_est_dist_mode(
                    self.qseq(),
                    batch_data@[j].res@,
                    self.metric,
                    (if self.metric == MetricType::L2 {
                        self.g_add_norm
                    } else {
                        self.g_add_ip
                    }) as int,
                    self.g_sqrt as int,
                    self.isq_d as int,
                    use_hacc,
                ),
            forall|j: int| 0 <= j < K_BATCH_SIZE ==> #[trigger] r@[j].1 <= r@[j].0,
    {
        let g_sel = if self.metric == MetricType::L2 {
            self.g_add_norm
        } else {
            self.g_add_ip
        };
        let mut out: Vec<(i64, i64, i64)> = Vec::new();
        let mut j: usize = 0;
        while j < K_BATCH_SIZE
            invariant
                j <= K_BATCH_SIZE,
                self.wf(),
                batch_data@.len() == K_BATCH_SIZE,
                g_sel == (if self.metric == MetricType::L2 {
                    self.g_add_norm
                } else {
                    self.g_add_ip
                }),
                forall|t: int|
                    0 <= t < K_BATCH_SIZE ==> (#[trigger] batch_data@[t]).wf()
                        && batch_data@[t].dim == self.dim,
                out@.len() == j,
                forall|t: int|
                    0 <= t < j ==> (#[trigger] out@[t].0 as int, out@[t].1 as int,
                    out@[t].2 as int) == spec_est_dist_mode(
                        self.qseq(),
                        batch_data@[t].res@,
                        self.metric,
                        g_sel as int,
                        self.g_sqrt as int,
                        self.isq_d as int,
                        use_hacc,
                    ),
                forall|t: int| 0 <= t < j ==> #[trigger] out@[t].1 <= out@[t].0,
            decreases K_BATCH_SIZE - j,
        {
            let triple = coarse_triple(
                &self.query,
                &batch_data[j],
                self.metric,
                g_sel,
                self.g_sqrt,
                self.isq_d,
                use_hacc,
            );
            out.push(triple);
            j = j + 1;
        }
        out
    }

    /// Refines a previously computed coarse inner product with the extended
    /// code only.
    pub fn distance_boosting(&self, ex_data: &ExtendedCode, ip_x0_qr: i64) -> (r: i64)
        requires
            self.wf(),
            ex_data.wf(),
            ex_data.dim == self.dim,
            ex_data.ex_bits == self.ex_bits,
            abs_i(ip_x0_qr as int) <= IP_ARG_LIMIT as int,
        ensures
            r as int == spec_est_from_ip(
                self.metric,
                (if self.metric == MetricType::L2 {
                    self.g_add_norm
                } else {
                    self.g_add_ip
                }) as int,
                ex_data.f_add as int,
                spec_boost_ip(
                    self.qseq(),
                    ex_data.res@,
                    ex_data.range as int,
                    ex_data.ex_bits as nat,
                    ex_data.f_rescale as int,
                    self.sumq as int,
                    ip_x0_qr as int,
                ),
            ),
    {
        let g_sel = if self.metric == MetricType::L2 {
            self.g_add_norm
        } else {
            self.g_add_ip
        };
        boost_value(&self.query, self.sumq, ex_data, ip_x0_qr, self.metric, g_sel)
    }
}

/// The distance estimate never falls below the reported lower bound, for
/// the coarse and the refined path alike, whatever the query, the
/// candidate, the metric and the (nonnegative) corrections.
pub proof fn lemma_estimate_ge_lower_bound(
    qr: Seq<int>,
    res: Seq<int>,
    metric: MetricType,
    g_add: int,
    g_error: int,
    isq_d: int,
    bits: nat,
)
    requires
        g_error >= 0,
        isq_d >= 0,
    ensures
        spec_est_dist(qr, res, metric, g_add, g_error, isq_d).0 >= spec_est_dist(
            qr,
            res,
            metric,
            g_add,
            g_error,
            isq_d,
        ).1,
        spec_full_dist(qr, res, metric, g_add, g_error, isq_d, bits).0 >= spec_full_dist(
            qr,
            res,
            metric,
            g_add,
            g_error,
            isq_d,
            bits,
        ).1,
{
    crate::mathspec::lemma_max_abs_nonneg(res);
    let m = max_abs(res);
    assert(g_error * isq_d * m >= 0) by (nonlinear_arith)
        requires
            g_error >= 0,
            isq_d >= 0,
            m >= 0,
    ;
    lemma_pow2_pos(0);
    lemma_pow2_pos(bits);
    lemma_rdiv_abs_le(g_error * isq_d * m, 2 * (pow2(0) as int));
    lemma_rdiv_abs_le(g_error * isq_d * m, 2 * (pow2(bits) as int));
}

/// The guaranteed error margin of the refined path shrinks monotonically
/// as the extended-bit count grows; in particular `full_dist`'s margin
/// never exceeds `est_dist`'s.
pub proof fn lemma_refinement_margin_monotone(
    g_error: int,
    isq_d: int,
    m: int,
    b1: nat,
    b2: nat,
)
    requires
        g_error >= 0,
        isq_d >= 0,
        m >= 0,
        b1 >= b2,
    ensures
        spec_err_margin(g_error, isq_d, m, b1) <= spec_err_margin(g_error, isq_d, m, b2),
{
    assert(g_error * isq_d * m >= 0) by (nonlinear_arith)
        requires
            g_error >= 0,
            isq_d >= 0,
            m >= 0,
    ;
    lemma_pow2_pos(b1);
    lemma_pow2_pos(b2);
    if b1 > b2 {
        vstd::arithmetic::power2::lemma_pow2_strictly_increases(b2, b1);
    }
    lemma_rdiv_denominator_monotone(
        g_error * isq_d * m,
        2 * (pow2(b1) as int),
        2 * (pow2(b2) as int),
    );
}

/// Centroid reduction: with an all-zero centroid the query residual is the
/// query itself, so the centroid-relative estimator returns exactly what
/// the origin-relative estimator returns, on every code and correction.
pub proof fn lemma_zero_centroid_reduction(
    q: Seq<int>,
    c: Seq<int>,
    res: Seq<int>,
    metric: MetricType,
    g_add: int,
    g_error: int,
    isq_d: int,
    bits: nat,
)
    requires
        c.len() == q.len(),
        forall|i: int| 0 <= i < c.len() ==> #[trigger] c[i] == 0,
    ensures
        residual_seq(q, c) == q,
        spec_est_dist(residual_seq(q, c), res, metric, g_add, g_error, isq_d) == spec_est_dist(
            q,
            res,
            metric,
            g_add,
            g_error,
            isq_d,
        ),
        spec_full_dist(residual_seq(q, c), res, metric, g_add, g_error, isq_d, bits)
            == spec_full_dist(q, res, metric, g_add, g_error, isq_d, bits),
{
    assert(residual_seq(q, c) =~= q);
}

/// Batch/single equivalence: the value a batched call writes for one
/// candidate is exactly the single-candidate result on the same query
/// state.  For the sign-code batch this is the estimate component; for the
/// split batch under the rescaled estimator it is the whole triple.
pub proof fn lemma_batch_matches_single(
    qr: Seq<int>,
    res: Seq<int>,
    metric: MetricType,
    g_add: int,
    g_error: int,
    isq_d: int,
)
    ensures
        spec_est_dist_mode(qr, res, metric, g_add, g_error, isq_d, true) == spec_est_dist(
            qr,
            res,
            metric,
            g_add,
            g_error,
            isq_d,
        ),
        spec_est_from_ip(metric, g_add, sum_sq(res), spec_ip_coarse(qr, res)) == spec_est_dist(
            qr,
            res,
            metric,
            g_add,
            g_error,
            isq_d,
        ).0,
{
}

/// Encoding-mode irrelevance: two codes carrying the same residual (for
/// instance a direct split encoding and the split of a full encoding)
/// receive identical estimates from every estimator path.
pub proof fn lemma_encoding_mode_irrelevant(
    qr: Seq<int>,
    b1: &BinaryCode,
    b2: &BinaryCode,
    metric: MetricType,
    g_add: int,
    g_error: int,
    isq_d: int,
)
    requires
        b1.wf(),
        b2.wf(),
        b1.res@ == b2.res@,
    ensures
        spec_est_dist(qr, b1.res@, metric, g_add, g_error, isq_d) == spec_est_dist(
            qr,
            b2.res@,
            metric,
            g_add,
            g_error,
            isq_d,
        ),
{
}

/// Monotonic refinement of the scoring paths: for the same candidate and
/// corrections, the gap between `full_dist`'s estimate and its lower bound
/// never exceeds the gap `est_dist` reports, and it shrinks further as the
/// extended-bit count grows.
pub proof fn lemma_full_dist_tighter_than_est_dist(
    qr: Seq<int>,
    res: Seq<int>,
    metric: MetricType,
    g_add: int,
    g_error: int,
    isq_d: int,
    b1: nat,
    b2: nat,
)
    requires
        g_error >= 0,
        isq_d >= 0,
        b1 >= b2,
    ensures
        spec_full_dist(qr, res, metric, g_add, g_error, isq_d, b1).0 - spec_full_dist(
            qr,
            res,
            metric,
            g_add,
            g_error,
            isq_d,
            b1,
        ).1 <= spec_full_dist(qr, res, metric, g_add, g_error, isq_d, b2).0 - spec_full_dist(
            qr,
            res,
            metric,
            g_add,
            g_error,
            isq_d,
            b2,
        ).1,
        spec_full_dist(qr, res, metric, g_add, g_error, isq_d, b2).0 - spec_full_dist(
            qr,
            res,
            metric,
            g_add,
            g_error,
            isq_d,
            b2,
        ).1 <= spec_est_dist(qr, res, metric, g_add, g_error, isq_d).0 - spec_est_dist(
            qr,
            res,
            metric,
            g_add,
            g_error,
            isq_d,
        ).1,
{
    crate::mathspec::lemma_max_abs_nonneg(res);
    lemma_refinement_margin_monotone(g_error, isq_d, max_abs(res), b1, b2);
    lemma_refinement_margin_monotone(g_error, isq_d, max_abs(res), b2, 0);
}
} // verus!
