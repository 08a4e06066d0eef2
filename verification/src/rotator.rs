//! Deterministic pseudorandom rotation.
//!
//! The transform is a signed permutation: the input is zero-padded to the
//! working dimension, its coordinates are permuted by a seeded sequence of
//! transpositions, and a seeded subset of them is negated.  Such a transform
//! is exactly orthogonal, so the squared norm is preserved without any
//! floating-point tolerance.

use vstd::prelude::*;
use crate::mathspec::{COORD_LIMIT, DIM_MAX, abs_i, lemma_sum_sq_swap, sum_sq, to_ints};
use crate::quantizer::RabitqError;

verus! {

/// Zero-pad a coordinate sequence to length `n`.
pub open spec fn spec_pad(v: Seq<int>, n: int) -> Seq<int> {
    Seq::new(n as nat, |i: int| if i < v.len() { v[i] } else { 0 })
}

/// Apply the first `k` transpositions: step `t` exchanges positions `t` and
/// `swaps[t]`.
pub open spec fn apply_swaps(s: Seq<int>, swaps: Seq<usize>, k: int) -> Seq<int>
    decreases k,
{
    if k <= 0 {
        s
    } else {
        let t = apply_swaps(s, swaps, k - 1);
        let j = swaps[k - 1] as int;
        t.update(k - 1, t[j]).update(j, t[k - 1])
    }
}

/// Negate the coordinates whose sign flag is false.
pub open spec fn apply_signs(s: Seq<int>, signs: Seq<bool>) -> Seq<int> {
    Seq::new(s.len(), |i: int| if signs[i] { s[i] } else { -s[i] })
}

/// Owner of a fixed signed-permutation transform for one `(dim, padded_dim)`
/// pair.  Immutable after construction.
pub struct Rotator {
    pub dim: usize,
    pub padded: usize,
    pub swaps: Vec<usize>,
    pub signs: Vec<bool>,
}

impl Rotator {
    pub open spec fn wf(&self) -> bool {
        &&& 1 <= self.dim <= self.padded <= DIM_MAX
        &&& self.swaps@.len() == self.padded
        &&& self.signs@.len() == self.padded
        &&& forall|k: int|
            0 <= k < self.padded ==> k <= #[trigger] self.swaps@[k] < self.padded
    }

    /// The transform as a mathematical function on coordinate sequences.
    pub open spec fn spec_rotate(&self, v: Seq<int>) -> Seq<int> {
        apply_signs(
            apply_swaps(spec_pad(v, self.padded as int), self.swaps@, self.padded as int),
            self.signs@,
        )
    }

    /// Whether a `(dim, padded_dim)` request is accepted.
    pub open spec fn spec_valid_dims(dim: usize, padded_dim: usize) -> bool {
        1 <= dim && dim <= padded_dim && padded_dim <= DIM_MAX
    }

    /// Builds the rotator for `(dim, padded_dim)`, deriving the permutation
    /// and the sign flips deterministically from the two sizes.  Fails when
    /// the padded dimension is smaller than the input dimension or either
    /// size is unsupported.
    pub fn new(dim: usize, padded_dim: usize) -> (r: Result<Rotator, RabitqError>)
        ensures
            r is Ok <==> Self::spec_valid_dims(dim, padded_dim),
            r matches Ok(rot) ==> rot.wf() && rot.dim == dim && rot.padded == padded_dim,
            r matches Err(e) ==> (e == (if padded_dim < dim {
                RabitqError::DimensionMismatch
            } else {
                RabitqError::UnsupportedDimension
            })),
    {
        if padded_dim < dim {
            return Err(RabitqError::DimensionMismatch);
        }
        if dim == 0 || padded_dim > DIM_MAX {
            return Err(RabitqError::UnsupportedDimension);
        }
        let mut state: u64 = 0x9E3779B97F4A7C15 ^ (dim as u64) ^ ((padded_dim as u64) << 17);
        let mut swaps: Vec<usize> = Vec::new();
        let mut signs: Vec<bool> = Vec::new();
        let mut k: usize = 0;
        while k < padded_dim
            invariant
                k <= padded_dim <= DIM_MAX,
                swaps@.len() == k,
                signs@.len() == k,
                forall|t: int| 0 <= t < k ==> t <= #[trigger] swaps@[t] < padded_dim,
            decreases padded_dim - k,
        {
            state = state ^ (state << 13);
            state = state ^ (state >> 7);
            state = state ^ (state << 17);
            let span: u64 = (padded_dim - k) as u64;
            let offset: usize = (state % span) as usize;
            swaps.push(k + offset);
            signs.push(state & 0x10000 == 0);
            k = k + 1;
        }
        Ok(Rotator { dim, padded: padded_dim, swaps, signs })
    }

    /// The identity transform for `(dim, padded_dim)`: rotation reduces to
    /// zero-padding.  Intended for validation harnesses that need a
    /// transparent transform.
    pub fn identity(dim: usize, padded_dim: usize) -> (r: Result<Rotator, RabitqError>)
        ensures
            r is Ok <==> Self::spec_valid_dims(dim, padded_dim),
            r matches Ok(rot) ==> rot.wf() && rot.dim == dim && rot.padded == padded_dim,
            r matches Ok(rot) ==> forall|v: Seq<int>|
                #[trigger] rot.spec_rotate(v) =~= spec_pad(v, padded_dim as int),
            r matches Err(e) ==> (e == (if padded_dim < dim {
                RabitqError::DimensionMismatch
            } else {
                RabitqError::UnsupportedDimension
            })),
    {
        if padded_dim < dim {
            return Err(RabitqError::DimensionMismatch);
        }
        if dim == 0 || padded_dim > DIM_MAX {
            return Err(RabitqError::UnsupportedDimension);
        }
        let mut swaps: Vec<usize> = Vec::new();
        let mut signs: Vec<bool> = Vec::new();
        let mut k: usize = 0;
        while k < padded_dim
            invariant
                k <= padded_dim,
                swaps@.len() == k,
                signs@.len() == k,
                forall|t: int| 0 <= t < k ==> #[trigger] swaps@[t] == t,
                forall|t: int| 0 <= t < k ==> #[trigger] signs@[t],
            decreases padded_dim - k,
        {
            swaps.push(k);
            signs.push(true);
            k = k + 1;
        }
        let rot = Rotator { dim, padded: padded_dim, swaps, signs };
        proof {
            assert forall|v: Seq<int>| #[trigger]
                rot.spec_rotate(v) =~= spec_pad(v, padded_dim as int) by {
                lemma_apply_swaps_id(spec_pad(v, padded_dim as int), rot.swaps@, padded_dim as int);
            }
        }
        Ok(rot)
    }

    pub fn padded_dim(&self) -> (r: usize)
        ensures
            r == self.padded,
    {
        self.padded
    }

    /// Rotates `input` (of the original or the padded dimension) into
    /// `output`, which must already have the padded length.  The output is a
    /// pure function of the rotator and the input, and its squared norm
    /// equals the squared norm of the input exactly.
    pub fn rotate(&self, input: &Vec<i64>, output: &mut Vec<i64>)
        requires
            self.wf(),
            input@.len() == self.dim || input@.len() == self.padded,
            old(output)@.len() == self.padded,
            forall|i: int|
                0 <= i < input@.len() ==> abs_i(#[trigger] input@[i] as int) <= COORD_LIMIT,
        ensures
            final(output)@.len() == self.padded,
            to_ints(final(output)@) == self.spec_rotate(to_ints(input@)),
            sum_sq(to_ints(final(output)@)) == sum_sq(to_ints(input@)),
            forall|i: int|
                0 <= i < self.padded ==> abs_i(#[trigger] final(output)@[i] as int) <= COORD_LIMIT,
    {
        let n = self.padded;
        let ghost vi = to_ints(input@);
        let ghost padded_seq = spec_pad(vi, n as int);
        let mut i: usize = 0;
        while i < n
            invariant
                i <= n,
                n == self.padded,
                self.wf(),
                input@.len() == self.dim || input@.len() == self.padded,
                output@.len() == n,
                vi == to_ints(input@),
                forall|j: int|
                    0 <= j < input@.len() ==> abs_i(#[trigger] input@[j] as int) <= COORD_LIMIT,
                forall|j: int| 0 <= j < i ==> output@[j] as int == spec_pad(vi, n as int)[j],
                forall|j: int|
                    0 <= j < i ==> abs_i(#[trigger] output@[j] as int) <= COORD_LIMIT,
            decreases n - i,
        {
            if i < input.len() {
                let x = input[i];
                output.set(i, x);
            } else {
                output.set(i, 0);
            }
            i = i + 1;
        }
        proof {
            assert(to_ints(output@) =~= padded_seq);
        }
        // Permutation phase: one transposition per position, applied in order.
        let mut k: usize = 0;
        while k < n
            invariant
                k <= n,
                n == self.padded,
                self.wf(),
                output@.len() == n,
                to_ints(output@) == apply_swaps(padded_seq, self.swaps@, k as int),
                sum_sq(to_ints(output@)) == sum_sq(padded_seq),
                forall|j: int|
                    0 <= j < n ==> abs_i(#[trigger] output@[j] as int) <= COORD_LIMIT,
            decreases n - k,
        {
            let ghost before = to_ints(output@);
            let j = self.swaps[k];
            let a = output[k];
            let b = output[j];
            output.set(k, b);
            output.set(j, a);
            proof {
                assert(to_ints(output@) =~= before.update(k as int, before[j as int]).update(
                    j as int,
                    before[k as int],
                ));
                lemma_sum_sq_swap(before, k as int, j as int);
                assert(to_ints(output@) =~= apply_swaps(padded_seq, self.swaps@, k as int + 1));
            }
            k = k + 1;
        }
        let ghost swapped = to_ints(output@);
        // Sign phase: negate the flagged coordinates.
        let mut t: usize = 0;
        while t < n
            invariant
                t <= n,
                n == self.padded,
                self.wf(),
                output@.len() == n,
                swapped.len() == n,
                forall|j: int| t <= j < n ==> #[trigger] output@[j] as int == swapped[j],
                forall|j: int|
                    0 <= j < t ==> #[trigger] output@[j] as int == apply_signs(
                        swapped,
                        self.signs@,
                    )[j],
                forall|j: int|
                    0 <= j < n ==> abs_i(#[trigger] output@[j] as int) <= COORD_LIMIT,
            decreases n - t,
        {
            if !self.signs[t] {
                let x = output[t];
                output.set(t, -x);
            }
            t = t + 1;
        }
        proof {
            assert(to_ints(output@) =~= apply_signs(swapped, self.signs@));
            lemma_sum_sq_signs(swapped, self.signs@);
            lemma_sum_sq_pad(vi, n as int);
            assert(to_ints(output@) =~= self.spec_rotate(to_ints(input@)));
        }
    }
}

/// Identity transpositions change nothing.
proof fn lemma_apply_swaps_id(s: Seq<int>, swaps: Seq<usize>, k: int)
    requires
        0 <= k <= swaps.len(),
        k <= s.len(),
        forall|t: int| 0 <= t < k ==> #[trigger] swaps[t] == t,
    ensures
        apply_swaps(s, swaps, k) == s,
    decreases k,
{
    if k > 0 {
        lemma_apply_swaps_id(s, swaps, k - 1);
        let t = apply_swaps(s, swaps, k - 1);
        assert(t == s);
        assert(swaps[k - 1] as int == k - 1);
        assert(apply_swaps(s, swaps, k) == t.update(k - 1, t[k - 1]).update(k - 1, t[k - 1]));
        assert(t.update(k - 1, t[k - 1]).update(k - 1, t[k - 1]) =~= s);
    }
}

/// Negating coordinates does not change the sum of squares.
proof fn lemma_sum_sq_signs(s: Seq<int>, signs: Seq<bool>)
    ensures
        sum_sq(apply_signs(s, signs)) == sum_sq(s),
    decreases s.len(),
{
    if s.len() > 0 {
        lemma_sum_sq_signs(s.drop_last(), signs);
        assert(apply_signs(s, signs).drop_last() =~= apply_signs(s.drop_last(), signs));
        let x = s.last();
        let y = apply_signs(s, signs).last();
        assert(y == x || y == -x);
        assert(y * y == x * x) by (nonlinear_arith)
            requires
                y == x || y == -x,
        ;
    }
}

/// Zero-padding does not change the sum of squares.
proof fn lemma_sum_sq_pad(v: Seq<int>, n: int)
    requires
        v.len() <= n,
    ensures
        sum_sq(spec_pad(v, n)) == sum_sq(v),
    decreases n,
{
    if n == v.len() {
        assert(spec_pad(v, n) =~= v);
    } else {
        lemma_sum_sq_pad(v, n - 1);
        assert(spec_pad(v, n).drop_last() =~= spec_pad(v, n - 1));
        assert(spec_pad(v, n).last() == 0);
    }
}

/// Determinism of rotation: the result is a function of the rotator and the
/// input alone, so two calls on the same data give the same coordinates.
pub proof fn lemma_rotate_deterministic(rot: &Rotator, v: Seq<int>, out1: Seq<int>, out2: Seq<int>)
    requires
        out1 == rot.spec_rotate(v),
        out2 == rot.spec_rotate(v),
    ensures
        out1 == out2,
{
}

/// Exact norm preservation: rotating preserves the sum of squared
/// coordinates, for every rotator and every input of an accepted length.
pub proof fn lemma_rotate_preserves_norm(rot: &Rotator, v: Seq<int>)
    requires
        rot.wf(),
        v.len() <= rot.padded,
    ensures
        sum_sq(rot.spec_rotate(v)) == sum_sq(v),
{
    let padded_seq = spec_pad(v, rot.padded as int);
    lemma_apply_swaps_preserves_sum_sq(padded_seq, rot.swaps@, rot.padded as int);
    lemma_sum_sq_signs(apply_swaps(padded_seq, rot.swaps@, rot.padded as int), rot.signs@);
    lemma_sum_sq_pad(v, rot.padded as int);
}

proof fn lemma_apply_swaps_preserves_sum_sq(s: Seq<int>, swaps: Seq<usize>, k: int)
    requires
        0 <= k <= swaps.len(),
        s.len() >= swaps.len(),
        forall|t: int| 0 <= t < swaps.len() ==> t <= #[trigger] swaps[t] < s.len(),
    ensures
        sum_sq(apply_swaps(s, swaps, k)) == sum_sq(s),
        apply_swaps(s, swaps, k).len() == s.len(),
    decreases k,
{
    if k > 0 {
        lemma_apply_swaps_preserves_sum_sq(s, swaps, k - 1);
        let t = apply_swaps(s, swaps, k - 1);
        lemma_sum_sq_swap(t, k - 1, swaps[k - 1] as int);
    }
}

} // verus!
