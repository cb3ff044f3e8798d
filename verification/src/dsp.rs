//! Block RMS analysis and the clip-and-gate processor.

use vstd::prelude::*;
use vstd::arithmetic::div_mod::{
    lemma_basic_div, lemma_div_by_self, lemma_div_denominator, lemma_div_is_ordered,
    lemma_div_pos_is_pos, lemma_fundamental_div_mod, lemma_fundamental_div_mod_converse,
};
use vstd::arithmetic::power2::{lemma_pow2_pos, lemma_pow2_unfold, pow2};
use vstd::math::abs;
use crate::fixed::{
    clip_unit, fx_mul, fx_mul_unit, half_away, is_sqrt, isqrt, lemma_sqrt_floor_is, round_half_away,
    scale_clip, sqrt_floor, valid_amp, AMP_MAX, ONE,
};

verus! {

/// Sum of the squares of a sequence of fixed-point samples, as an exact
/// (unbounded) integer.
pub open spec fn sum_sq(s: Seq<i64>) -> int
    decreases s.len(),
{
    if s.len() == 0 {
        0
    } else {
        sum_sq(s.drop_last()) + (s.last() as int) * (s.last() as int)
    }
}

/// Mean of the squared samples, rounded up to the next integer. Rounding up
/// keeps the mean of a non-silent block nonzero, so the analyzer reports
/// silence exactly for all-zero input.
pub open spec fn mean_sq(s: Seq<i64>) -> int
    recommends
        s.len() > 0,
{
    (sum_sq(s) + s.len() - 1) / (s.len() as int)
}

/// Root-mean-square loudness of a block, on the Q16.16 grid: the integer
/// square root of the rounded-up mean square. An empty block is defined to
/// have a loudness of zero (silence).
pub open spec fn rms_spec(s: Seq<i64>) -> int {
    if s.len() == 0 {
        0
    } else {
        sqrt_floor(mean_sq(s))
    }
}

proof fn lemma_square_nonneg(x: int)
    ensures
        x * x >= 0,
{
    assert(x * x >= 0) by (nonlinear_arith);
}

pub proof fn lemma_sum_sq_nonneg(s: Seq<i64>)
    ensures
        sum_sq(s) >= 0,
    decreases s.len(),
{
    if s.len() > 0 {
        lemma_sum_sq_nonneg(s.drop_last());
        lemma_square_nonneg(s.last() as int);
    }
}

/// Appending a sample adds its square to the sum.
pub proof fn lemma_sum_sq_push(s: Seq<i64>, x: i64)
    ensures
        sum_sq(s.push(x)) == sum_sq(s) + (x as int) * (x as int),
{
    assert(s.push(x).drop_last() =~= s);
    assert(s.push(x).last() == x);
}

/// The sum of squares splits over concatenation.
pub proof fn lemma_sum_sq_concat(a: Seq<i64>, b: Seq<i64>)
    ensures
        sum_sq(a + b) == sum_sq(a) + sum_sq(b),
    decreases b.len(),
{
    if b.len() == 0 {
        assert(a + b =~= a);
    } else {
        lemma_sum_sq_concat(a, b.drop_last());
        assert((a + b).drop_last() =~= a + b.drop_last());
        assert((a + b).last() == b.last());
    }
}

/// Removing one sample removes exactly its square from the sum.
pub proof fn lemma_sum_sq_remove(s: Seq<i64>, j: int)
    requires
        0 <= j < s.len(),
    ensures
        sum_sq(s) == sum_sq(s.remove(j)) + (s[j] as int) * (s[j] as int),
    decreases s.len(),
{
    if j == s.len() - 1 {
        assert(s.remove(j) =~= s.drop_last());
    } else {
        lemma_sum_sq_remove(s.drop_last(), j);
        assert(s.remove(j).drop_last() =~= s.drop_last().remove(j));
        assert(s.remove(j).last() == s.last());
    }
}

/// The sum of squares depends only on which samples occur, with their
/// multiplicities, never on their order.
pub proof fn lemma_sum_sq_permutation(a: Seq<i64>, b: Seq<i64>)
    requires
        a.to_multiset() == b.to_multiset(),
    ensures
        sum_sq(a) == sum_sq(b),
    decreases a.len(),
{
    broadcast use vstd::seq_lib::group_to_multiset_ensures;

    if a.len() == 0 {
        assert(b.to_multiset().len() == 0);
        assert(b.len() == 0);
    } else {
        let j = a.len() - 1;
        let x = a[j];
        assert(a.contains(x));
        assert(b.to_multiset().count(x) > 0);
        assert(b.contains(x));
        let k = choose|k: int| 0 <= k < b.len() && b[k] == x;
        assert(a.remove(j).to_multiset() =~= a.to_multiset().remove(x));
        assert(b.remove(k).to_multiset() =~= b.to_multiset().remove(x));
        lemma_sum_sq_permutation(a.remove(j), b.remove(k));
        lemma_sum_sq_remove(a, j);
        lemma_sum_sq_remove(b, k);
    }
}

/// The measured loudness of a block does not depend on the order in which
/// its samples were gathered: any two blocks holding the same samples with
/// the same multiplicities have the same RMS.
pub proof fn lemma_rms_permutation(a: Seq<i64>, b: Seq<i64>)
    requires
        a.to_multiset() == b.to_multiset(),
    ensures
        rms_spec(a) == rms_spec(b),
{
    broadcast use vstd::seq_lib::group_to_multiset_ensures;

    assert(a.len() == a.to_multiset().len());
    assert(b.len() == b.to_multiset().len());
    lemma_sum_sq_permutation(a, b);
}

/// In particular, concatenating two channels in either order gives the same
/// RMS.
pub proof fn lemma_rms_concat_commutes(a: Seq<i64>, b: Seq<i64>)
    ensures
        rms_spec(a + b) == rms_spec(b + a),
{
    lemma_sum_sq_concat(a, b);
    lemma_sum_sq_concat(b, a);
}

/// The RMS of a one-sample block is the magnitude of that sample.
pub proof fn lemma_rms_single(a: i64)
    ensures
        rms_spec(seq![a]) == abs(a as int),
{
    let s = seq![a];
    assert(s.drop_last() =~= Seq::<i64>::empty());
    assert(sum_sq(Seq::<i64>::empty()) == 0);
    assert(s.last() == a);
    assert(sum_sq(s) == (a as int) * (a as int));
    let m = abs(a as int) as int;
    assert(sum_sq(s) == m * m) by (nonlinear_arith)
        requires sum_sq(s) == (a as int) * (a as int), m == abs(a as int);
    assert(mean_sq(s) == m * m) by {
        lemma_fundamental_div_mod_converse(m * m + 1 - 1, 1, m * m, 0);
    }
    assert(m * m < (m + 1) * (m + 1)) by (nonlinear_arith)
        requires m >= 0;
    assert(is_sqrt(mean_sq(s), m));
    lemma_sqrt_floor_is(mean_sq(s), m);
}

/// A block has zero RMS exactly when every one of its samples is zero.
pub proof fn lemma_rms_zero_iff(s: Seq<i64>)
    ensures
        rms_spec(s) == 0 <==> (forall|i: int| 0 <= i < s.len() ==> s[i] == 0),
{
    lemma_sum_sq_zero_iff(s);
    if s.len() > 0 {
        let n = s.len() as int;
        lemma_sum_sq_nonneg(s);
        if sum_sq(s) == 0 {
            lemma_basic_div(n - 1, n);
            assert(mean_sq(s) == 0);
            assert(is_sqrt(0, 0));
            lemma_sqrt_floor_is(0, 0);
        } else {
            assert(sum_sq(s) >= 1);
            lemma_div_is_ordered(n, sum_sq(s) + n - 1, n);
            lemma_div_by_self(n);
            assert(mean_sq(s) >= 1);
            lemma_sqrt_exists_pos(mean_sq(s));
        }
    }
}

/// The square root of a positive integer is positive, so `rms_spec` of such
/// a mean is nonzero.
proof fn lemma_sqrt_exists_pos(n: int)
    requires
        n >= 1,
    ensures
        sqrt_floor(n) >= 1,
{
    crate::fixed::lemma_sqrt_exists(n);
    let r = sqrt_floor(n);
    assert(is_sqrt(n, r));
    assert(r >= 1) by (nonlinear_arith)
        requires
            0 <= r,
            1 <= n,
            n < (r + 1) * (r + 1);
}

/// A sum of squares is zero exactly when every sample is zero.
pub proof fn lemma_sum_sq_zero_iff(s: Seq<i64>)
    ensures
        sum_sq(s) == 0 <==> (forall|i: int| 0 <= i < s.len() ==> s[i] == 0),
    decreases s.len(),
{
    if s.len() > 0 {
        lemma_sum_sq_zero_iff(s.drop_last());
        lemma_sum_sq_nonneg(s.drop_last());
        let x = s.last() as int;
        lemma_square_nonneg(x);
        if x != 0 {
            assert(x * x > 0) by (nonlinear_arith)
                requires x != 0;
        }
        assert(forall|i: int| 0 <= i < s.len() - 1 ==> s.drop_last()[i] == s[i]);
        if sum_sq(s) == 0 {
            assert(sum_sq(s.drop_last()) == 0 && x * x == 0);
            assert(s[s.len() - 1] == 0);
            assert(forall|i: int| 0 <= i < s.len() ==> s[i] == 0);
        }
        if forall|i: int| 0 <= i < s.len() ==> s[i] == 0 {
            assert(forall|i: int| 0 <= i < s.drop_last().len() ==> s.drop_last()[i] == 0);
            assert(sum_sq(s.drop_last()) == 0);
            assert(x == s[s.len() - 1]);
            assert(x * x == 0) by (nonlinear_arith)
                requires x == 0;
            assert(sum_sq(s) == 0);
        }
    }
}

/// Root-mean-square loudness of a block of samples: the square root of the
/// mean of the squared samples, on the Q16.16 grid. The mean is rounded up,
/// so the result is zero exactly for silence; an empty block reports zero.
pub fn rms(samples: Vec<i64>) -> (r: i64)
    requires
        forall|i: int| 0 <= i < samples@.len() ==> valid_amp(samples@[i]),
    ensures
        r == rms_spec(samples@),
        0 <= r <= AMP_MAX,
{
    let n: usize = samples.len();
    if n == 0 {
        return 0;
    }
    let mut square_sum: u128 = 0;
    let mut i: usize = 0;
    while i < n
        invariant
            n == samples@.len(),
            i <= n,
            forall|k: int| 0 <= k < samples@.len() ==> valid_amp(samples@[k]),
            square_sum == sum_sq(samples@.subrange(0, i as int)),
            square_sum <= (i as int) * 0x4000_0000_0000_0000,
        decreases n - i,
    {
        let x: i64 = samples[i];
        proof {
            assert(0 <= (x as int) * (x as int) <= 0x4000_0000_0000_0000int) by (nonlinear_arith)
                requires -0x8000_0000int <= x as int <= 0x8000_0000int;
            lemma_sum_sq_push(samples@.subrange(0, i as int), x);
            assert(samples@.subrange(0, i as int).push(x) =~= samples@.subrange(0, i + 1));
        }
        let sq: u128 = ((x as i128) * (x as i128)) as u128;
        square_sum = square_sum + sq;
        i = i + 1;
    }
    proof {
        assert(samples@.subrange(0, n as int) =~= samples@);
    }
    let nn: u128 = n as u128;
    let mean: u128 = (square_sum + (nn - 1)) / nn;
    proof {
        assert(mean == mean_sq(samples@));
        lemma_div_is_ordered(
            square_sum as int + nn as int - 1,
            0x4000_0000_0000_0000 * nn as int + nn as int - 1,
            nn as int,
        );
        lemma_fundamental_div_mod_converse(
            0x4000_0000_0000_0000 * nn as int + nn as int - 1,
            nn as int,
            0x4000_0000_0000_0000,
            nn as int - 1,
        );
        assert(mean <= 0x4000_0000_0000_0000u128);
    }
    let root: u64 = isqrt(mean as u64);
    proof {
        lemma_sqrt_floor_is(mean as int, root as int);
        assert(root as int <= 0x8000_0000int) by (nonlinear_arith)
            requires
                0 <= root as int,
                (root as int) * (root as int) <= 0x4000_0000_0000_0000int;
    }
    root as i64
}

/// A symmetrical bus layout is accepted: as many outputs as inputs, and at
/// least one of each.
pub fn accepts_bus_config(num_input_channels: u32, num_output_channels: u32) -> (r: bool)
    ensures
        r == (num_input_channels == num_output_channels && num_input_channels > 0),
{
    num_input_channels == num_output_channels && num_input_channels > 0
}

/// The target a noise gate selects by comparing the block loudness to the
/// threshold: closed (0) below, open (`ONE`) above, and on an exact tie the
/// previous target is held unchanged.
pub open spec fn gate_target(rms_val: int, threshold: int, prev: int) -> int {
    if rms_val < threshold {
        0
    } else if rms_val > threshold {
        ONE as int
    } else {
        prev
    }
}

/// One step of the one-pole gate smoother: move the gain halfway toward
/// the target, the half rounded to the nearest representable step.
pub open spec fn smooth(g: int, t: int) -> int {
    g + round_half_away(t - g)
}

/// The smoother iterated `n` times toward a fixed target.
pub open spec fn iter_smooth(g: int, t: int, n: nat) -> int
    decreases n,
{
    if n == 0 {
        g
    } else {
        iter_smooth(smooth(g, t), t, (n - 1) as nat)
    }
}

/// State of the clip-and-gate processor: a hard clip scaled by a caller
/// supplied multiplier, followed by a gate whose gain decays exponentially
/// toward a binary target chosen by a loudness threshold.
#[derive(Clone, Copy, Debug)]
pub struct ClipGate {
    /// Distortion multiplier applied before the clip; unclamped, the
    /// caller's responsibility.
    pub mult: i64,
    /// Loudness threshold the block RMS is compared against.
    pub gate_rms: i64,
    /// Current smoothed gate gain, always within `[0, ONE]`.
    pub gate_mult: i64,
    /// Gate target the gain is decaying toward: 0 (closed) or `ONE` (open).
    pub target: i64,
}

/// Processor state after one sample: the target re-selected from
/// the loudness comparison, then the gain moved halfway toward it. The
/// multiplier and threshold are untouched.
pub open spec fn step_gate(st: ClipGate, rms_val: i64) -> ClipGate {
    let t = gate_target(rms_val as int, st.gate_rms as int, st.target as int);
    ClipGate { target: t as i64, gate_mult: smooth(st.gate_mult as int, t) as i64, ..st }
}

/// The sample produced by one processing step: the input scaled and
/// hard-clipped, then attenuated by the freshly updated gate gain.
pub open spec fn step_out(st: ClipGate, input: i64, rms_val: i64) -> int {
    fx_mul(
        clip_unit(fx_mul(input as int, st.mult as int)),
        step_gate(st, rms_val).gate_mult as int,
    )
}

/// Processor state after a whole run of samples at one shared block loudness.
pub open spec fn run_gate(st: ClipGate, rms_val: i64, n: nat) -> ClipGate
    decreases n,
{
    if n == 0 {
        st
    } else {
        run_gate(step_gate(st, rms_val), rms_val, (n - 1) as nat)
    }
}

/// Processor state after processing one sample per entry of a sequence of
/// block loudness values (the values successive calls were handed).
pub open spec fn run_gate_seq(st: ClipGate, rms_vals: Seq<i64>) -> ClipGate
    decreases rms_vals.len(),
{
    if rms_vals.len() == 0 {
        st
    } else {
        run_gate_seq(step_gate(st, rms_vals[0]), rms_vals.drop_first())
    }
}

/// What the halving step does: it never overshoots (the result stays
/// between 0 and `d`), and the distance it leaves behind is exactly the
/// floor of half the distance it started from.
pub proof fn lemma_half_away_props(d: int)
    ensures
        d >= 0 ==> 0 <= round_half_away(d) <= d && d - round_half_away(d) == d / 2,
        d < 0 ==> d <= round_half_away(d) <= 0 && round_half_away(d) - d == (-d) / 2,
{
    if d >= 0 {
        let r = d % 2;
        lemma_fundamental_div_mod(d, 2);
        lemma_fundamental_div_mod_converse(d + r, 2, d / 2 + r, 0);
        lemma_div_pos_is_pos(d, 2);
    } else {
        let m = -d;
        let r = m % 2;
        lemma_fundamental_div_mod(m, 2);
        lemma_fundamental_div_mod_converse(m + r, 2, m / 2 + r, 0);
        lemma_div_pos_is_pos(m, 2);
    }
}

/// One smoothing step keeps the gain between its old value and the target,
/// and divides the distance to the target by two, rounding down.
pub proof fn lemma_smooth_props(g: int, t: int)
    ensures
        t >= g ==> g <= smooth(g, t) <= t && t - smooth(g, t) == (t - g) / 2,
        t < g ==> t <= smooth(g, t) <= g && smooth(g, t) - t == (g - t) / 2,
        abs(t - smooth(g, t)) == abs(t - g) / 2,
{
    lemma_half_away_props(t - g);
}

impl ClipGate {
    /// The state invariant: gate gain within `[0, ONE]` and the
    /// target is one of its two poles.
    pub open spec fn wf(self) -> bool {
        &&& 0 <= self.gate_mult <= ONE
        &&& (self.target == 0 || self.target == ONE)
    }

    /// A fresh processor: unity multiplier, threshold at silence, gate
    /// fully open, target closed.
    pub fn default() -> (r: ClipGate)
        ensures
            r == (ClipGate { mult: ONE, gate_rms: 0, gate_mult: ONE, target: 0 }),
            r.wf(),
    {
        ClipGate { mult: 65536, gate_rms: 0, gate_mult: 65536, target: 0 }
    }

    /// Store the distortion multiplier. No range validation: any value is
    /// accepted and simply scales the input before the clip.
    pub fn set_mult(&mut self, mult: i64)
        ensures
            *final(self) == (ClipGate { mult: mult, ..*old(self) }),
    {
        self.mult = mult;
    }

    /// Store the loudness threshold the block RMS is compared against.
    pub fn set_gate(&mut self, gate: i64)
        ensures
            *final(self) == (ClipGate { gate_rms: gate, ..*old(self) }),
    {
        self.gate_rms = gate;
    }

    /// Process one sample against the current block loudness: scale it by
    /// the multiplier, hard-clip to `[-ONE, ONE]`, re-aim the gating stage by
    /// comparing `rms` to the threshold (an exact tie holds the previous
    /// target), move its gain halfway toward the target, and attenuate
    /// the clipped sample by the new gain.
    pub fn process_sample(&mut self, input: i64, rms: i64) -> (out: i64)
        requires
            old(self).wf(),
        ensures
            *final(self) == step_gate(*old(self), rms),
            final(self).wf(),
            out == step_out(*old(self), input, rms),
            -ONE <= out <= ONE,
    {
        let clipped: i64 = scale_clip(input, self.mult);
        if rms < self.gate_rms {
            self.target = 0;
        }
        if rms > self.gate_rms {
            self.target = 65536;
        }
        proof {
            assert(self.target as int
                == gate_target(rms as int, old(self).gate_rms as int, old(self).target as int));
            lemma_smooth_props(self.gate_mult as int, self.target as int);
        }
        let d: i64 = self.target - self.gate_mult;
        let h: i64 = half_away(d);
        self.gate_mult = self.gate_mult + h;
        proof {
            assert(self.gate_mult as int
                == smooth(old(self).gate_mult as int, self.target as int));
            assert(0 <= self.gate_mult <= ONE);
            assert(*self == step_gate(*old(self), rms));
            assert((clipped as int) * (self.gate_mult as int) <= 0x1_0000_0000int
                && -0x1_0000_0000int <= (clipped as int) * (self.gate_mult as int))
                by (nonlinear_arith)
                requires
                    -65536 <= clipped as int <= 65536,
                    0 <= self.gate_mult as int <= 65536;
        }
        let p: i64 = clipped * self.gate_mult;
        proof {
            lemma_div_is_ordered(p as int, 0x1_0000_0000int, 65536int);
            lemma_div_is_ordered(-(p as int), 0x1_0000_0000int, 65536int);
            lemma_fundamental_div_mod_converse(0x1_0000_0000, 65536, 65536, 0);
        }
        if p >= 0 {
            ((p as u64) / 65536u64) as i64
        } else {
            -((((-p) as u64) / 65536u64) as i64)
        }
    }
}

/// One processing step preserves the state invariant and touches neither
/// the multiplier nor the threshold.
pub proof fn lemma_step_gate_wf(st: ClipGate, rms_val: i64)
    requires
        st.wf(),
    ensures
        step_gate(st, rms_val).wf(),
        step_gate(st, rms_val).mult == st.mult,
        step_gate(st, rms_val).gate_rms == st.gate_rms,
        step_gate(st, rms_val).gate_mult as int == smooth(
            st.gate_mult as int,
            gate_target(rms_val as int, st.gate_rms as int, st.target as int),
        ),
{
    lemma_smooth_props(
        st.gate_mult as int,
        gate_target(rms_val as int, st.gate_rms as int, st.target as int),
    );
}

/// However many samples are processed, and whatever block loudness each one
/// was measured against, a gate gain that started within `[0, ONE]` is
/// still within `[0, ONE]`.
pub proof fn lemma_run_gate_seq_wf(st: ClipGate, rms_vals: Seq<i64>)
    requires
        st.wf(),
    ensures
        run_gate_seq(st, rms_vals).wf(),
        run_gate_seq(st, rms_vals).mult == st.mult,
        run_gate_seq(st, rms_vals).gate_rms == st.gate_rms,
    decreases rms_vals.len(),
{
    if rms_vals.len() > 0 {
        lemma_step_gate_wf(st, rms_vals[0]);
        lemma_run_gate_seq_wf(step_gate(st, rms_vals[0]), rms_vals.drop_first());
    }
}

/// Iterating the smoother keeps the gain between its start and the target,
/// and after `n` steps the remaining distance is the starting distance
/// divided by `2^n`, rounding down — so it is exactly halved at each step
/// whenever it is even, and in particular whenever the starting distance is
/// divisible by `2^n`.
pub proof fn lemma_iter_smooth_props(g: int, t: int, n: nat)
    ensures
        t >= g ==> g <= iter_smooth(g, t, n) <= t,
        t < g ==> t <= iter_smooth(g, t, n) <= g,
        abs(t - iter_smooth(g, t, n)) == abs(t - g) as int / pow2(n) as int,
    decreases n,
{
    lemma_pow2_pos(n);
    if n == 0 {
        assert(pow2(0) == 1) by {
            vstd::arithmetic::power2::lemma2_to64();
        }
        lemma_fundamental_div_mod_converse(abs(t - g) as int, 1, abs(t - g) as int, 0);
    } else {
        lemma_smooth_props(g, t);
        lemma_iter_smooth_props(smooth(g, t), t, (n - 1) as nat);
        lemma_pow2_pos((n - 1) as nat);
        lemma_div_denominator(abs(t - g) as int, 2, pow2((n - 1) as nat) as int);
        lemma_pow2_unfold(n);
    }
}

/// While the block loudness stays strictly above the threshold, every call
/// re-aims the gating stage at fully open and the distance to fully open divides by
/// two (rounding down) per call; once `2^n` exceeds the starting distance
/// its gain has converged to exactly `ONE`.
pub proof fn lemma_gate_opens(st: ClipGate, rms_val: i64, n: nat)
    requires
        st.wf(),
        rms_val > st.gate_rms,
    ensures
        run_gate(st, rms_val, n).wf(),
        run_gate(st, rms_val, n).mult == st.mult,
        run_gate(st, rms_val, n).gate_rms == st.gate_rms,
        n > 0 ==> run_gate(st, rms_val, n).target == ONE,
        ONE - run_gate(st, rms_val, n).gate_mult == (ONE - st.gate_mult) / pow2(n) as int,
        pow2(n) > ONE - st.gate_mult ==> run_gate(st, rms_val, n).gate_mult == ONE,
    decreases n,
{
    lemma_pow2_pos(n);
    lemma_iter_smooth_props(st.gate_mult as int, ONE as int, n);
    lemma_gate_steady(st, rms_val, n);
    assert(gate_target(rms_val as int, st.gate_rms as int, st.target as int) == ONE);
    if pow2(n) > ONE - st.gate_mult {
        lemma_basic_div(ONE - st.gate_mult, pow2(n) as int);
    }
}

/// When every call measures a loudness exactly equal to the threshold, the
/// target is never moved off whatever it already was, and the smoothed gain
/// converges toward that held target, the distance dividing by two
/// (rounding down) per call.
pub proof fn lemma_gate_tie(st: ClipGate, rms_val: i64, n: nat)
    requires
        st.wf(),
        rms_val == st.gate_rms,
    ensures
        run_gate(st, rms_val, n).wf(),
        run_gate(st, rms_val, n).mult == st.mult,
        run_gate(st, rms_val, n).gate_rms == st.gate_rms,
        run_gate(st, rms_val, n).target == st.target,
        abs(st.target - run_gate(st, rms_val, n).gate_mult)
            == abs(st.target - st.gate_mult) as int / pow2(n) as int,
        pow2(n) > abs(st.target - st.gate_mult) ==> run_gate(st, rms_val, n).gate_mult
            == st.target,
    decreases n,
{
    lemma_pow2_pos(n);
    lemma_iter_smooth_props(st.gate_mult as int, st.target as int, n);
    lemma_gate_steady(st, rms_val, n);
    assert(gate_target(rms_val as int, st.gate_rms as int, st.target as int) == st.target);
    if pow2(n) > abs(st.target - st.gate_mult) {
        lemma_basic_div(abs(st.target - st.gate_mult) as int, pow2(n) as int);
    }
}

/// Running the processor at one constant block loudness selects one target on
/// the first call, holds it, and iterates the smoother toward it.
pub proof fn lemma_gate_steady(st: ClipGate, rms_val: i64, n: nat)
    requires
        st.wf(),
    ensures
        run_gate(st, rms_val, n).wf(),
        run_gate(st, rms_val, n).mult == st.mult,
        run_gate(st, rms_val, n).gate_rms == st.gate_rms,
        n == 0 ==> run_gate(st, rms_val, n) == st,
        n > 0 ==> run_gate(st, rms_val, n).target as int
            == gate_target(rms_val as int, st.gate_rms as int, st.target as int),
        run_gate(st, rms_val, n).gate_mult as int == iter_smooth(
            st.gate_mult as int,
            gate_target(rms_val as int, st.gate_rms as int, st.target as int),
            n,
        ),
    decreases n,
{
    if n > 0 {
        let t = gate_target(rms_val as int, st.gate_rms as int, st.target as int);
        lemma_step_gate_wf(st, rms_val);
        let st1 = step_gate(st, rms_val);
        assert(gate_target(rms_val as int, st1.gate_rms as int, st1.target as int) == t);
        lemma_gate_steady(st1, rms_val, (n - 1) as nat);
    }
}

/// Per-channel snapshot of the externally smoothed parameters; each is read
/// by value once per channel per callback and reused for every sample of
/// that channel.
#[derive(Clone, Copy, Debug)]
pub struct ChannelParams {
    /// Linear output gain applied after the gating stage.
    pub gain: i64,
    /// Distortion multiplier pushed into `set_mult`.
    pub mult: i64,
    /// Gate threshold pushed into `set_gate`.
    pub gate_rms: i64,
}

/// All channels of a block laid end to end, in channel order.
pub open spec fn concat_all(s: Seq<Seq<i64>>) -> Seq<i64>
    decreases s.len(),
{
    if s.len() == 0 {
        Seq::empty()
    } else {
        concat_all(s.drop_last()) + s.last()
    }
}

/// One channel processed sample by sample against a shared block loudness:
/// the state threads through every sample, and each output is the processed
/// sample scaled by the channel's output gain.
pub open spec fn run_channel(st: ClipGate, samples: Seq<i64>, rms_val: i64, gain: i64) -> (
    ClipGate,
    Seq<i64>,
)
    decreases samples.len(),
{
    if samples.len() == 0 {
        (st, Seq::empty())
    } else {
        let o = fx_mul(step_out(st, samples[0], rms_val), gain as int);
        let rest = run_channel(step_gate(st, rms_val), samples.drop_first(), rms_val, gain);
        (rest.0, seq![o as i64] + rest.1)
    }
}

/// A whole block processed channel by channel: each channel first installs
/// its own parameter snapshot (multiplier and threshold), then runs its
/// samples through the one shared gate state, so a later channel continues
/// from the gain history the earlier channels left behind.
pub open spec fn run_block(
    st: ClipGate,
    channels: Seq<Seq<i64>>,
    params: Seq<ChannelParams>,
    rms_val: i64,
) -> (ClipGate, Seq<Seq<i64>>)
    recommends
        channels.len() == params.len(),
    decreases channels.len(),
{
    if channels.len() == 0 {
        (st, Seq::empty())
    } else {
        let st0 = ClipGate { mult: params[0].mult, gate_rms: params[0].gate_rms, ..st };
        let r0 = run_channel(st0, channels[0], rms_val, params[0].gain);
        let rest = run_block(r0.0, channels.drop_first(), params.drop_first(), rms_val);
        (rest.0, seq![r0.1] + rest.1)
    }
}

impl ClipGate {
    /// Process one callback's block: flatten every channel into one
    /// sequence, measure its RMS once, then for each channel install that
    /// channel's parameter snapshot and run its samples through the processor,
    /// scaling each processed sample by the channel's output gain. The one
    /// gate state is shared sequentially across channels, so later channels
    /// see the gain history of earlier ones.
    pub fn process_block(&mut self, channels: &Vec<Vec<i64>>, params: &Vec<ChannelParams>) -> (out:
        Vec<Vec<i64>>)
        requires
            old(self).wf(),
            params@.len() == channels@.len(),
            forall|c: int, i: int|
                0 <= c < channels@.len() && 0 <= i < channels@[c]@.len() ==> valid_amp(
                    channels@[c]@[i],
                ),
            forall|c: int| 0 <= c < params@.len() ==> valid_amp(#[trigger] params@[c].gain),
        ensures
            final(self).wf(),
            *final(self) == run_block(
                *old(self),
                channels.deep_view(),
                params@,
                rms_spec(concat_all(channels.deep_view())) as i64,
            ).0,
            out.deep_view() == run_block(
                *old(self),
                channels.deep_view(),
                params@,
                rms_spec(concat_all(channels.deep_view())) as i64,
            ).1,
    {
        let n_ch: usize = channels.len();
        proof {
            assert(channels.deep_view().len() == channels@.len());
            assert forall|c: int| 0 <= c < channels@.len() implies channels.deep_view()[c]
                == channels@[c]@ by {
                assert(channels.deep_view()[c] =~= channels@[c]@);
            }
        }
        let mut flat: Vec<i64> = Vec::new();
        let mut c: usize = 0;
        while c < n_ch
            invariant
                n_ch == channels@.len(),
                c <= n_ch,
                channels.deep_view().len() == channels@.len(),
                forall|k: int| 0 <= k < channels@.len() ==> channels.deep_view()[k]
                    == channels@[k]@,
                forall|k: int, i: int|
                    0 <= k < channels@.len() && 0 <= i < channels@[k]@.len() ==> valid_amp(
                        channels@[k]@[i],
                    ),
                flat@ == concat_all(channels.deep_view().subrange(0, c as int)),
                forall|k: int| 0 <= k < flat@.len() ==> valid_amp(flat@[k]),
            decreases n_ch - c,
        {
            let ch_len: usize = channels[c].len();
            let mut i: usize = 0;
            while i < ch_len
                invariant
                    n_ch == channels@.len(),
                    c < n_ch,
                    ch_len == channels@[c as int]@.len(),
                    i <= ch_len,
                    channels.deep_view().len() == channels@.len(),
                    forall|k: int| 0 <= k < channels@.len() ==> channels.deep_view()[k]
                        == channels@[k]@,
                    forall|k: int, j: int|
                        0 <= k < channels@.len() && 0 <= j < channels@[k]@.len() ==> valid_amp(
                            channels@[k]@[j],
                        ),
                    flat@ == concat_all(channels.deep_view().subrange(0, c as int))
                        + channels@[c as int]@.subrange(0, i as int),
                    forall|k: int| 0 <= k < flat@.len() ==> valid_amp(flat@[k]),
                decreases ch_len - i,
            {
                let x: i64 = channels[c][i];
                flat.push(x);
                proof {
                    assert(channels@[c as int]@.subrange(0, i as int + 1) =~= channels@[
                        c as int
                    ]@.subrange(0, i as int).push(x));
                    assert(concat_all(channels.deep_view().subrange(0, c as int)) + channels@[
                        c as int
                    ]@.subrange(0, i as int + 1) =~= (concat_all(
                        channels.deep_view().subrange(0, c as int),
                    ) + channels@[c as int]@.subrange(0, i as int)).push(x));
                }
                i = i + 1;
            }
            proof {
                let dv = channels.deep_view();
                assert(channels@[c as int]@.subrange(0, ch_len as int) =~= channels@[c as int]@);
                assert(dv.subrange(0, c as int + 1).drop_last() =~= dv.subrange(0, c as int));
                assert(dv.subrange(0, c as int + 1).last() == dv[c as int]);
                assert(flat@ == concat_all(dv.subrange(0, c as int + 1)));
            }
            c = c + 1;
        }
        proof {
            assert(channels.deep_view().subrange(0, n_ch as int) =~= channels.deep_view());
        }
        let rv: i64 = rms(flat);
        let ghost dv = channels.deep_view();
        let ghost full = run_block(*old(self), dv, params@, rv);
        let mut out_v: Vec<Vec<i64>> = Vec::new();
        let mut c: usize = 0;
        proof {
            assert(dv.skip(0) =~= dv);
            assert(params@.skip(0) =~= params@);
            assert(out_v.deep_view() =~= Seq::<Seq<i64>>::empty());
            assert(Seq::<Seq<i64>>::empty() + run_block(*self, dv, params@, rv).1 =~= run_block(
                *self,
                dv,
                params@,
                rv,
            ).1);
        }
        while c < n_ch
            invariant
                n_ch == channels@.len(),
                params@.len() == channels@.len(),
                c <= n_ch,
                self.wf(),
                dv == channels.deep_view(),
                full == run_block(*old(self), dv, params@, rv),
                channels.deep_view().len() == channels@.len(),
                forall|k: int| 0 <= k < channels@.len() ==> channels.deep_view()[k]
                    == channels@[k]@,
                forall|k: int, j: int|
                    0 <= k < channels@.len() && 0 <= j < channels@[k]@.len() ==> valid_amp(
                        channels@[k]@[j],
                    ),
                forall|k: int| 0 <= k < params@.len() ==> valid_amp(#[trigger] params@[k].gain),
                out_v@.len() == c,
                full.0 == run_block(*self, dv.skip(c as int), params@.skip(c as int), rv).0,
                full.1 == out_v.deep_view() + run_block(
                    *self,
                    dv.skip(c as int),
                    params@.skip(c as int),
                    rv,
                ).1,
            decreases n_ch - c,
        {
            let ghost prev: ClipGate = *self;
            let gain: i64 = params[c].gain;
            self.set_mult(params[c].mult);
            self.set_gate(params[c].gate_rms);
            let ghost st_ch: ClipGate = *self;
            let ghost chseq = dv[c as int];
            let ch_len: usize = channels[c].len();
            let mut ch_out: Vec<i64> = Vec::new();
            let mut i: usize = 0;
            proof {
                assert(chseq.skip(0) =~= chseq);
                assert(ch_out@ + run_channel(*self, chseq, rv, gain).1 =~= run_channel(
                    *self,
                    chseq,
                    rv,
                    gain,
                ).1);
            }
            while i < ch_len
                invariant
                    n_ch == channels@.len(),
                    params@.len() == channels@.len(),
                    c < n_ch,
                    ch_len == channels@[c as int]@.len(),
                    i <= ch_len,
                    self.wf(),
                    dv == channels.deep_view(),
                    chseq == dv[c as int],
                    channels.deep_view().len() == channels@.len(),
                    forall|k: int| 0 <= k < channels@.len() ==> channels.deep_view()[k]
                        == channels@[k]@,
                    forall|k: int, j: int|
                        0 <= k < channels@.len() && 0 <= j < channels@[k]@.len() ==> valid_amp(
                            channels@[k]@[j],
                        ),
                    gain == params@[c as int].gain,
                    valid_amp(gain),
                    ch_out@.len() == i,
                    run_channel(st_ch, chseq, rv, gain).0 == run_channel(
                        *self,
                        chseq.skip(i as int),
                        rv,
                        gain,
                    ).0,
                    run_channel(st_ch, chseq, rv, gain).1 == ch_out@ + run_channel(
                        *self,
                        chseq.skip(i as int),
                        rv,
                        gain,
                    ).1,
                decreases ch_len - i,
            {
                let x: i64 = channels[c][i];
                let ghost pre: ClipGate = *self;
                let o: i64 = self.process_sample(x, rv);
                let g_out: i64 = fx_mul_unit(o, gain);
                proof {
                    assert(chseq.skip(i as int)[0] == chseq[i as int]);
                    assert(chseq[i as int] == x);
                    assert(chseq.skip(i as int).drop_first() =~= chseq.skip(i as int + 1));
                    assert(g_out as int == fx_mul(step_out(pre, x, rv), gain as int));
                    assert(run_channel(pre, chseq.skip(i as int), rv, gain).0 == run_channel(
                        *self,
                        chseq.skip(i as int + 1),
                        rv,
                        gain,
                    ).0);
                    assert(run_channel(pre, chseq.skip(i as int), rv, gain).1 == seq![g_out]
                        + run_channel(*self, chseq.skip(i as int + 1), rv, gain).1);
                    assert(ch_out@ + seq![g_out] =~= ch_out@.push(g_out));
                    assert(ch_out@ + (seq![g_out] + run_channel(
                        *self,
                        chseq.skip(i as int + 1),
                        rv,
                        gain,
                    ).1) =~= ch_out@.push(g_out) + run_channel(
                        *self,
                        chseq.skip(i as int + 1),
                        rv,
                        gain,
                    ).1);
                }
                ch_out.push(g_out);
                i = i + 1;
            }
            proof {
                assert(chseq.skip(ch_len as int) =~= Seq::<i64>::empty());
                assert(run_channel(*self, chseq.skip(ch_len as int), rv, gain) == (
                    *self,
                    Seq::<i64>::empty(),
                ));
                assert(run_channel(st_ch, chseq, rv, gain).0 == *self);
                assert(run_channel(st_ch, chseq, rv, gain).1 =~= ch_out@);
                assert(dv.skip(c as int)[0] == chseq);
                assert(params@.skip(c as int)[0] == params@[c as int]);
                assert(dv.skip(c as int).drop_first() =~= dv.skip(c as int + 1));
                assert(params@.skip(c as int).drop_first() =~= params@.skip(c as int + 1));
                assert(st_ch == (ClipGate {
                    mult: params@.skip(c as int)[0].mult,
                    gate_rms: params@.skip(c as int)[0].gate_rms,
                    ..prev
                }));
                assert(run_block(prev, dv.skip(c as int), params@.skip(c as int), rv).0
                    == run_block(*self, dv.skip(c as int + 1), params@.skip(c as int + 1), rv).0);
                assert(run_block(prev, dv.skip(c as int), params@.skip(c as int), rv).1
                    == seq![ch_out@] + run_block(
                    *self,
                    dv.skip(c as int + 1),
                    params@.skip(c as int + 1),
                    rv,
                ).1);
            }
            let ghost old_outs = out_v.deep_view();
            out_v.push(ch_out);
            proof {
                assert(ch_out.deep_view() =~= ch_out@);
                assert(out_v.deep_view() =~= old_outs.push(ch_out@));
                assert(old_outs + (seq![ch_out@] + run_block(
                    *self,
                    dv.skip(c as int + 1),
                    params@.skip(c as int + 1),
                    rv,
                ).1) =~= out_v.deep_view() + run_block(
                    *self,
                    dv.skip(c as int + 1),
                    params@.skip(c as int + 1),
                    rv,
                ).1);
            }
            c = c + 1;
        }
        proof {
            assert(dv.skip(n_ch as int) =~= Seq::<Seq<i64>>::empty());
            assert(params@.skip(n_ch as int) =~= Seq::<ChannelParams>::empty());
            assert(run_block(*self, dv.skip(n_ch as int), params@.skip(n_ch as int), rv) == (
                *self,
                Seq::<Seq<i64>>::empty(),
            ));
            assert(full.1 =~= out_v.deep_view());
        }
        out_v
    }
}

} // verus!
