//! Hysteresis quantizer: converts a continuous brightness (milli-units)
//! into one of `steps + 1` evenly spaced discrete levels spanning
//! `[min_level, max_level]`, and emits a level only when the quantized
//! target has moved from the held one by more than `barrier_milli`
//! thousandths of a step width. The very first input always seeds and emits.
//!
//! Conventions (the step grid is a design choice): the input is clamped to
//! `[min_level, max_level]` in milli-units; the target grid index is the
//! nearest of `0 ..= steps`, halves rounding up; the emitted level is the
//! grid value `min_level + index * (max_level - min_level) / steps`,
//! rounded to the nearest integer, halves rounding up.
use vstd::prelude::*;

verus! {

use crate::SCALE;

/// Distance between two integers.
pub open spec fn dist(a: int, b: int) -> int {
    if a >= b {
        a - b
    } else {
        b - a
    }
}

/// The input clamped to the configured brightness domain, milli-units.
pub open spec fn clamp_milli(min: int, max: int, v: int) -> int {
    if v < min * SCALE {
        min * SCALE
    } else if v > max * SCALE {
        max * SCALE
    } else {
        v
    }
}

/// The grid index nearest to the clamped input (halves up); index `i`
/// sits at `min + i * (max - min) / steps` of the brightness domain.
pub open spec fn spec_target(min: int, max: int, steps: int, v: int) -> int {
    let span = max - min;
    if span == 0 {
        0
    } else {
        (2 * (clamp_milli(min, max, v) - min * SCALE) * steps + span * SCALE) / (2 * span * SCALE)
    }
}

/// The integer actuator level of grid index `i` (nearest integer, halves
/// up).
pub open spec fn spec_level(min: int, max: int, steps: int, i: int) -> int {
    min + (2 * i * (max - min) + steps) / (2 * steps)
}

/// The debouncing quantizer. `current` holds the grid index last emitted,
/// or nothing before the first input.
pub struct DiscreteValue {
    pub min_level: u32,
    pub max_level: u32,
    pub steps: u32,
    /// Hysteresis barrier: thousandths of one step width.
    pub barrier_milli: u32,
    pub current: Option<u32>,
}

impl DiscreteValue {
    pub open spec fn wf(self) -> bool {
        &&& self.min_level <= self.max_level
        &&& self.steps >= 1
        &&& self.barrier_milli < SCALE
        &&& match self.current {
            Some(i) => i <= self.steps,
            None => true,
        }
    }

    pub open spec fn target(self, v: int) -> int {
        spec_target(self.min_level as int, self.max_level as int, self.steps as int, v)
    }

    /// Whether an input of `v` milli-units is emitted: always on the first
    /// call, afterwards only when the target index has moved from the held
    /// one by more than `barrier_milli` thousandths of a step.
    pub open spec fn emits(self, v: int) -> bool {
        match self.current {
            None => true,
            Some(c) => dist(self.target(v), c as int) * SCALE > self.barrier_milli,
        }
    }

    /// A fresh quantizer holding no level yet. The barrier is a fraction of
    /// one step width, so it lies below 1 (1000 milli).
    pub fn new(min_level: u32, max_level: u32, steps: u32, barrier_milli: u32) -> (s: Self)
        requires
            min_level <= max_level,
            steps >= 1,
            barrier_milli < SCALE,
        ensures
            s.wf(),
            s == (DiscreteValue { min_level, max_level, steps, barrier_milli, current: None::<u32> }),
    {
        DiscreteValue { min_level, max_level, steps, barrier_milli, current: None }
    }

    /// One quantizer step: clamp, quantize to the nearest grid index, emit
    /// the grid's level when the index moved by more than the barrier (or
    /// on the first call), otherwise change nothing.
    pub fn update(&mut self, value_milli: u64) -> (emitted: Option<u32>)
        requires
            old(self).wf(),
        ensures
            final(self).wf(),
            final(self).min_level == old(self).min_level,
            final(self).max_level == old(self).max_level,
            final(self).steps == old(self).steps,
            final(self).barrier_milli == old(self).barrier_milli,
            ({
                let t = old(self).target(value_milli as int);
                &&& (old(self).emits(value_milli as int) ==> {
                    &&& final(self).current matches Some(c) && c == t
                    &&& emitted matches Some(l) && l == spec_level(
                        old(self).min_level as int,
                        old(self).max_level as int,
                        old(self).steps as int,
                        t,
                    )
                })
                &&& (!old(self).emits(value_milli as int) ==> *final(self) == *old(self)
                    && emitted is None)
            }),
            emitted matches Some(l) ==> old(self).min_level <= l <= old(self).max_level,
    {
        let minm: u64 = self.min_level as u64 * SCALE as u64;
        let maxm: u64 = self.max_level as u64 * SCALE as u64;
        let clamped: u64 = if value_milli < minm {
            minm
        } else if value_milli > maxm {
            maxm
        } else {
            value_milli
        };
        let span: u64 = (self.max_level - self.min_level) as u64;
        let t: u32 = if span == 0 {
            0
        } else {
            let off: u128 = (clamped - minm) as u128;
            proof {
                lemma_target_quotient(off as int, span as int, self.steps as int);
            }
            let num: u128 = 2 * off * self.steps as u128 + span as u128 * SCALE as u128;
            let den: u128 = 2 * (span as u128 * SCALE as u128);
            (num / den) as u32
        };
        let emit: bool = match self.current {
            None => true,
            Some(cur) => {
                let d: u32 = if t >= cur {
                    t - cur
                } else {
                    cur - t
                };
                d as u64 * SCALE as u64 > self.barrier_milli as u64
            },
        };
        if emit {
            proof {
                lemma_level_range(
                    self.min_level as int,
                    self.max_level as int,
                    self.steps as int,
                    t as int,
                );
                assert(t as int * span as int <= u32::MAX * u32::MAX) by (nonlinear_arith)
                    requires
                        0 <= t as int <= u32::MAX,
                        0 <= span as int <= u32::MAX,
                ;
                assert(2 * (t as int * span as int) == 2 * t as int * span as int)
                    by (nonlinear_arith);
            }
            let num2: u128 = 2 * (t as u128 * span as u128) + self.steps as u128;
            let den2: u128 = 2 * self.steps as u128;
            let level: u32 = self.min_level + (num2 / den2) as u32;
            self.current = Some(t);
            Some(level)
        } else {
            None
        }
    }
}

/// Law: inputs that stay within less than `barrier_milli` thousandths of a
/// step width of the held level's exact grid position (for a barrier of at
/// most half a step) quantize back to the held index, so repeated such
/// inputs are never emitted.
///
/// The distance premise is
/// `|clamped - grid(c)| < (barrier/1000) * step_width` in milli-units,
/// cross-multiplied by `steps` to stay in integers:
/// `|clamped*steps - (min*1000*steps + c*span*1000)| < barrier*span`.
pub proof fn lemma_jitter_within_barrier_suppressed(q: DiscreteValue, c: u32, v: int)
    requires
        q.wf(),
        q.current == Some(c),
        q.barrier_milli <= SCALE / 2,
        dist(
            clamp_milli(q.min_level as int, q.max_level as int, v) * q.steps,
            q.min_level * SCALE * q.steps + c * (q.max_level - q.min_level) * SCALE,
        ) < q.barrier_milli * (q.max_level - q.min_level),
    ensures
        q.target(v) == c,
        !q.emits(v),
{
    let min = q.min_level as int;
    let max = q.max_level as int;
    let steps = q.steps as int;
    let b = q.barrier_milli as int;
    let span = max - min;
    let cl = clamp_milli(min, max, v);
    let off = cl - min * SCALE;
    let num = 2 * off * steps + span * SCALE;
    let den = 2 * (span * SCALE);
    assert(span >= 1) by (nonlinear_arith)
        requires
            0 <= span,
            dist(cl * steps, min * SCALE * steps + c * span * SCALE) < b * span,
    ;
    assert(0 <= num - c * den < den) by (nonlinear_arith)
        requires
            dist(cl * steps, min * SCALE * steps + c * span * SCALE) < b * span,
            0 <= b <= SCALE / 2,
            1 <= span,
            0 <= c,
            off == cl - min * SCALE,
            num == 2 * off * steps + span * SCALE,
            den == 2 * (span * SCALE),
            1 <= steps,
    ;
    vstd::arithmetic::div_mod::lemma_fundamental_div_mod_converse_div(
        num,
        den,
        c as int,
        num - c * den,
    );
}

/// Law: once the quantizer has settled on the grid index of an input,
/// repeating that same input yields nothing further.
pub proof fn lemma_settled_input_suppressed(q: DiscreteValue, c: u32, v: int)
    requires
        q.wf(),
        q.current == Some(c),
        q.target(v) == c,
    ensures
        !q.emits(v),
{
}

/// Law: an input whose grid index differs from the held one at all differs
/// by a whole step, hence by more than the barrier (a fraction of one
/// step), so it is emitted.
pub proof fn lemma_changed_target_emits(q: DiscreteValue, c: u32, v: int)
    requires
        q.wf(),
        q.current == Some(c),
        q.target(v) != c,
    ensures
        q.emits(v),
{
}

/// The quantized grid index is monotone in the input.
pub proof fn lemma_target_monotone(min: int, max: int, steps: int, v1: int, v2: int)
    requires
        0 <= min <= max,
        1 <= steps,
        v1 <= v2,
    ensures
        spec_target(min, max, steps, v1) <= spec_target(min, max, steps, v2),
{
    let span = max - min;
    if span != 0 {
        let off1 = clamp_milli(min, max, v1) - min * SCALE;
        let off2 = clamp_milli(min, max, v2) - min * SCALE;
        assert(2 * off1 * steps + span * SCALE <= 2 * off2 * steps + span * SCALE)
            by (nonlinear_arith)
            requires
                0 <= off1 <= off2,
                1 <= steps,
        ;
        vstd::arithmetic::div_mod::lemma_div_is_ordered(
            2 * off1 * steps + span * SCALE,
            2 * off2 * steps + span * SCALE,
            2 * (span * SCALE),
        );
    }
}

/// Grid levels are ordered with their indices.
pub proof fn lemma_level_monotone(min: int, max: int, steps: int, i: int, j: int)
    requires
        0 <= min <= max,
        1 <= steps,
        0 <= i <= j <= steps,
    ensures
        spec_level(min, max, steps, i) <= spec_level(min, max, steps, j),
{
    let span = max - min;
    assert(2 * i * span + steps <= 2 * j * span + steps) by (nonlinear_arith)
        requires
            0 <= i <= j,
            0 <= span,
    ;
    vstd::arithmetic::div_mod::lemma_div_is_ordered(
        2 * i * span + steps,
        2 * j * span + steps,
        2 * steps,
    );
}

/// The quantized grid index always lies on the grid, `0 ..= steps`.
pub proof fn lemma_target_range(min: int, max: int, steps: int, v: int)
    requires
        0 <= min <= max <= u32::MAX,
        1 <= steps <= u32::MAX,
    ensures
        0 <= spec_target(min, max, steps, v) <= steps,
{
    let span = max - min;
    if span != 0 {
        lemma_target_quotient(clamp_milli(min, max, v) - min * SCALE, span, steps);
    }
}

/// The nearest-index quotient lies in `0 ..= steps` and matches the spec
/// target; the products stay far inside `u128`.
proof fn lemma_target_quotient(off: int, span: int, steps: int)
    requires
        0 <= off <= span * SCALE,
        1 <= span <= u32::MAX,
        1 <= steps <= u32::MAX,
    ensures
        0 <= (2 * off * steps + span * SCALE) / (2 * (span * SCALE)) <= steps,
        2 * off * steps + span * SCALE <= u128::MAX,
{
    let den = 2 * (span * SCALE);
    let num = 2 * off * steps + span * SCALE;
    assert(num < den * (steps + 1) && num <= u128::MAX) by (nonlinear_arith)
        requires
            0 <= off <= span * SCALE,
            1 <= span <= u32::MAX,
            1 <= steps <= u32::MAX,
            den == 2 * (span * SCALE),
            num == 2 * off * steps + span * SCALE,
    ;
    vstd::arithmetic::div_mod::lemma_div_pos_is_pos(num, den);
    vstd::arithmetic::div_mod::lemma_multiply_divide_lt(num, den, steps + 1);
}

/// Grid index `i` of `0 ..= steps` yields an integer level inside
/// `[min, max]`.
pub proof fn lemma_level_range(min: int, max: int, steps: int, i: int)
    requires
        0 <= min <= max <= u32::MAX,
        1 <= steps <= u32::MAX,
        0 <= i <= steps,
    ensures
        min <= spec_level(min, max, steps, i) <= max,
        2 * i * (max - min) + steps <= u128::MAX,
{
    let span = max - min;
    let num = 2 * i * span + steps;
    let den = 2 * steps;
    assert(num < den * (span + 1) && num <= u128::MAX) by (nonlinear_arith)
        requires
            0 <= span <= u32::MAX,
            1 <= steps <= u32::MAX,
            0 <= i <= steps,
            num == 2 * i * span + steps,
            den == 2 * steps,
    ;
    vstd::arithmetic::div_mod::lemma_div_pos_is_pos(num, den);
    vstd::arithmetic::div_mod::lemma_multiply_divide_lt(num, den, span + 1);
}

} // verus!
