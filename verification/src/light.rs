//! Piecewise-linear response curve from illuminance to brightness.
//!
//! A `LightConvertor` holds a non-empty point set, sorted ascending by
//! illuminance, with an implicit `(0, 0)` anchor inserted at the front when
//! no configured point has illuminance 0. Queries below the smallest
//! threshold clamp to the first point, queries at or above the largest clamp
//! to the last, and anything in between interpolates linearly. Brightness
//! results are in milli-units.
use vstd::prelude::*;

verus! {

use crate::SCALE;
use crate::ErrorCode;

/// One configured curve point: at `illuminance` the backlight should be
/// `light` (both in raw device units).
#[derive(Clone, Copy, Debug, PartialEq, Eq, Structural)]
pub struct LightPoint {
    pub illuminance: u32,
    pub light: u32,
}

pub open spec fn sorted(ps: Seq<LightPoint>) -> bool {
    forall|a: int, b: int|
        0 <= a <= b < ps.len() ==> #[trigger] ps[a].illuminance <= #[trigger] ps[b].illuminance
}

pub open spec fn has_zero(ps: Seq<LightPoint>) -> bool {
    exists|i: int| 0 <= i < ps.len() && #[trigger] ps[i].illuminance == 0
}

/// Well-formedness of a constructed curve: non-empty, sorted, anchored at
/// illuminance 0.
pub open spec fn curve_wf(ps: Seq<LightPoint>) -> bool {
    &&& ps.len() >= 1
    &&& sorted(ps)
    &&& ps[0].illuminance == 0
}

/// The least index whose point lies strictly above `z`, or `ps.len()` when
/// every point is at or below `z`.
pub open spec fn first_above(ps: Seq<LightPoint>, z: int) -> int
    decreases ps.len(),
{
    if ps.len() == 0 {
        0
    } else if ps[0].illuminance > z {
        0
    } else {
        1 + first_above(ps.drop_first(), z)
    }
}

pub proof fn lemma_first_above_props(ps: Seq<LightPoint>, z: int)
    ensures
        0 <= first_above(ps, z) <= ps.len(),
        forall|i: int| 0 <= i < first_above(ps, z) ==> #[trigger] ps[i].illuminance <= z,
        first_above(ps, z) < ps.len() ==> ps[first_above(ps, z)].illuminance > z,
    decreases ps.len(),
{
    if ps.len() > 0 && !(ps[0].illuminance > z) {
        lemma_first_above_props(ps.drop_first(), z);
        assert forall|i: int| 0 <= i < first_above(ps, z) implies #[trigger] ps[i].illuminance
            <= z by {
            if i > 0 {
                assert(ps.drop_first()[i - 1] == ps[i]);
            }
        }
        if first_above(ps, z) < ps.len() {
            assert(ps.drop_first()[first_above(ps, z) - 1] == ps[first_above(ps, z)]);
        }
    }
}

/// Linear interpolation between the two points that bracket `z`, in
/// milli-units; the interpolated offset is rounded toward the left point's
/// light value. Two points on the same threshold yield the left value.
pub open spec fn interp_milli(l: LightPoint, r: LightPoint, z: int) -> int {
    if l.illuminance == r.illuminance {
        l.light * SCALE
    } else if r.light >= l.light {
        l.light * SCALE + ((r.light - l.light) * (z - l.illuminance) * SCALE) / (r.illuminance
            - l.illuminance)
    } else {
        l.light * SCALE - ((l.light - r.light) * (z - l.illuminance) * SCALE) / (r.illuminance
            - l.illuminance)
    }
}

/// The curve's value at `z`, in milli-units, exactly as `get_light`
/// computes it.
pub open spec fn map_milli(ps: Seq<LightPoint>, z: int) -> int {
    let i = first_above(ps, z);
    if i >= ps.len() {
        ps[ps.len() - 1].light * SCALE
    } else if i == 0 {
        ps[0].light * SCALE
    } else {
        interp_milli(ps[i - 1], ps[i], z)
    }
}

/// The configured response curve; immutable once constructed.
#[derive(Debug)]
pub struct LightConvertor {
    points: Vec<LightPoint>,
}

impl View for LightConvertor {
    type V = Seq<LightPoint>;

    closed spec fn view(&self) -> Seq<LightPoint> {
        self.points@
    }
}

/// Sorts ascending by illuminance (insertion sort); the point multiset is
/// unchanged. Points sharing an illuminance keep no particular order.
fn sort_by_illuminance(points: &mut Vec<LightPoint>)
    ensures
        final(points)@.len() == old(points)@.len(),
        final(points)@.to_multiset() == old(points)@.to_multiset(),
        sorted(final(points)@),
{
    broadcast use vstd::seq_lib::to_multiset_update;
    broadcast use vstd::seq_lib::to_multiset_contains;
    broadcast use vstd::multiset::group_multiset_axioms;

    let n = points.len();
    if n <= 1 {
        return ;
    }
    let mut i: usize = 1;
    while i < n
        invariant
            n == points@.len(),
            i >= 1 || n == 0,
            i <= n,
            points@.to_multiset() == old(points)@.to_multiset(),
            forall|a: int, b: int|
                0 <= a <= b < i ==> #[trigger] points@[a].illuminance
                    <= #[trigger] points@[b].illuminance,
        decreases n - i,
    {
        let mut j: usize = i;
        while j > 0 && points[j - 1].illuminance > points[j].illuminance
            invariant
                j <= i < n == points@.len(),
                points@.to_multiset() == old(points)@.to_multiset(),
                forall|a: int, b: int|
                    0 <= a <= b <= i && a != j && b != j ==> #[trigger] points@[a].illuminance
                        <= #[trigger] points@[b].illuminance,
                forall|b: int|
                    j < b <= i ==> points@[j as int].illuminance
                        <= #[trigger] points@[b].illuminance,
            decreases j,
        {
            let lo = points[j - 1];
            let hi = points[j];
            let ghost before = points@;
            points.set(j - 1, hi);
            points.set(j, lo);
            proof {
                assert(before.contains(lo) && before.contains(hi));
                vstd::seq_lib::to_multiset_contains(before, lo);
                vstd::seq_lib::to_multiset_contains(before, hi);
                let ms = before.to_multiset();
                let mid = before.update(j - 1, hi);
                assert(mid[j as int] == hi);
                vstd::seq_lib::to_multiset_update(before, j - 1, hi);
                vstd::seq_lib::to_multiset_update(mid, j as int, lo);
                assert(mid.to_multiset() == ms.insert(hi).remove(lo));
                assert(points@.to_multiset() == ms.insert(hi).remove(lo).insert(lo).remove(hi));
                assert forall|e: LightPoint|
                    points@.to_multiset().count(e) == ms.count(e) by {
                    if e == lo {
                        assert(ms.count(lo) > 0);
                    } else if e == hi {
                        assert(ms.count(hi) > 0);
                    }
                }
                assert(points@.to_multiset() =~= ms);
            }
            j = j - 1;
        }
        proof {
            assert forall|a: int, b: int| 0 <= a <= b <= i implies points@[a].illuminance
                <= points@[b].illuminance by {
                if a == j && b != j {
                    if j > 0 {
                        assert(points@[j as int].illuminance <= points@[b].illuminance);
                    }
                } else if b == j && a != j {
                    assert(points@[a].illuminance <= points@[j - 1].illuminance);
                }
            }
        }
        i = i + 1;
    }
}

impl LightConvertor {
    pub open spec fn wf(self) -> bool {
        curve_wf(self@)
    }

    /// Builds the curve from a non-empty point set: sorts ascending by
    /// illuminance and, when no point sits at illuminance 0, puts the
    /// implicit `(0, 0)` anchor in front.
    pub fn new(points: Vec<LightPoint>) -> (c: Self)
        requires
            points@.len() >= 1,
        ensures
            c.wf(),
            has_zero(points@) ==> c@.to_multiset() == points@.to_multiset() && c@.len()
                == points@.len(),
            !has_zero(points@) ==> c@.to_multiset() == points@.to_multiset().insert(
                (LightPoint { illuminance: 0, light: 0 }),
            ) && c@.len() == points@.len() + 1 && c@[0] == (LightPoint {
                illuminance: 0,
                light: 0,
            }),
    {
        broadcast use vstd::seq_lib::to_multiset_insert;
        broadcast use vstd::seq_lib::to_multiset_contains;

        let ghost orig = points@;
        let mut points = points;
        sort_by_illuminance(&mut points);
        if points[0].illuminance != 0 {
            proof {
                if has_zero(orig) {
                    let i = choose|i: int| 0 <= i < orig.len() && #[trigger] orig[i].illuminance
                        == 0;
                    assert(orig.contains(orig[i]));
                    assert(orig.to_multiset().count(orig[i]) > 0);
                    assert(points@.to_multiset().count(orig[i]) > 0);
                    assert(points@.contains(orig[i]));
                    let j = choose|j: int| 0 <= j < points@.len() && points@[j] == orig[i];
                    assert(points@[0].illuminance <= points@[j].illuminance);
                }
            }
            points.insert(0, LightPoint { illuminance: 0, light: 0 });
            LightConvertor { points }
        } else {
            proof {
                assert(points@.contains(points@[0]));
                assert(points@.to_multiset().count(points@[0]) > 0);
                assert(orig.to_multiset().count(points@[0]) > 0);
                assert(orig.contains(points@[0]));
            }
            LightConvertor { points }
        }
    }

    /// The checked constructor: an empty point set is a configuration
    /// error, exactly then.
    pub fn try_new(points: Vec<LightPoint>) -> (r: Result<Self, ErrorCode>)
        ensures
            points@.len() == 0 <==> r is Err,
            r matches Err(e) ==> e is InvalidPointsInConfig,
            r matches Ok(c) ==> {
                &&& c.wf()
                &&& has_zero(points@) ==> c@.to_multiset() == points@.to_multiset()
                &&& !has_zero(points@) ==> c@.to_multiset() == points@.to_multiset().insert(
                    (LightPoint { illuminance: 0, light: 0 }),
                ) && c@[0] == (LightPoint { illuminance: 0, light: 0 })
            },
    {
        if points.len() == 0 {
            Err(ErrorCode::InvalidPointsInConfig)
        } else {
            Ok(Self::new(points))
        }
    }

    /// The brightness for `illuminance`, in milli-units: clamps below the
    /// first and above the last point, interpolates linearly in between.
    pub fn get_light(&self, illuminance: u32) -> (light: u64)
        requires
            self.wf(),
        ensures
            light == map_milli(self@, illuminance as int),
            light <= u32::MAX as int * SCALE,
    {
        proof {
            lemma_first_above_props(self@, illuminance as int);
        }
        let n = self.points.len();
        let mut idx: usize = 0;
        while idx < n && self.points[idx].illuminance <= illuminance
            invariant
                idx <= n == self@.len(),
                self.wf(),
                forall|i: int| 0 <= i < idx ==> #[trigger] self@[i].illuminance <= illuminance,
            decreases n - idx,
        {
            idx = idx + 1;
        }
        proof {
            let fa = first_above(self@, illuminance as int);
            if fa < idx {
                assert(self@[fa].illuminance <= illuminance);
            }
            if idx < fa {
                assert(self@[idx as int].illuminance <= illuminance);
            }
            assert(idx as int == fa);
        }
        if idx == n {
            proof {
                assert(self.points@.len() >= 1);
            }
            self.points[n - 1].light as u64 * SCALE as u64
        } else if idx == 0 {
            self.points[0].light as u64 * SCALE as u64
        } else {
            let left = self.points[idx - 1];
            let right = self.points[idx];
            if left.illuminance == right.illuminance {
                left.light as u64 * SCALE as u64
            } else {
                let dill = (right.illuminance - left.illuminance) as u128;
                let dz = (illuminance - left.illuminance) as u128;
                if right.light >= left.light {
                    let dl = (right.light - left.light) as u128;
                    proof {
                        lemma_interp_product_fits(dl as int, dz as int);
                        lemma_interp_offset_bound(dl as int, dz as int, dill as int);
                    }
                    let add = (dl * dz * SCALE as u128) / dill;
                    left.light as u64 * SCALE as u64 + add as u64
                } else {
                    let dl = (left.light - right.light) as u128;
                    proof {
                        lemma_interp_product_fits(dl as int, dz as int);
                        lemma_interp_offset_bound(dl as int, dz as int, dill as int);
                    }
                    let sub = (dl * dz * SCALE as u128) / dill;
                    left.light as u64 * SCALE as u64 - sub as u64
                }
            }
        }
    }
}

/// Light values that never decrease along the curve. The library does not
/// demand this of a configuration — a decreasing stretch is accepted — but
/// only such curves give a monotone mapping.
pub open spec fn lights_sorted(ps: Seq<LightPoint>) -> bool {
    forall|a: int, b: int|
        0 <= a <= b < ps.len() ==> #[trigger] ps[a].light <= #[trigger] ps[b].light
}

/// A later query never lands on an earlier segment.
pub proof fn lemma_first_above_monotone(ps: Seq<LightPoint>, z1: int, z2: int)
    requires
        z1 <= z2,
    ensures
        first_above(ps, z1) <= first_above(ps, z2),
{
    lemma_first_above_props(ps, z1);
    lemma_first_above_props(ps, z2);
    if first_above(ps, z2) < first_above(ps, z1) {
        assert(ps[first_above(ps, z2)].illuminance <= z1);
    }
}

/// Within one segment of a light-sorted curve the interpolated value stays
/// between the two endpoint light values.
proof fn lemma_interp_bounds(l: LightPoint, r: LightPoint, z: int)
    requires
        l.illuminance <= z,
        l.illuminance < r.illuminance,
        l.light <= r.light,
        z - l.illuminance <= r.illuminance - l.illuminance,
    ensures
        l.light * SCALE <= interp_milli(l, r, z) <= r.light * SCALE,
{
    lemma_interp_offset_bound(
        r.light - l.light,
        z - l.illuminance,
        r.illuminance - l.illuminance,
    );
}

/// Within one segment the interpolated value is monotone in the query.
proof fn lemma_interp_monotone(l: LightPoint, r: LightPoint, z1: int, z2: int)
    requires
        l.illuminance <= z1 <= z2,
        l.illuminance < r.illuminance,
        l.light <= r.light,
    ensures
        interp_milli(l, r, z1) <= interp_milli(l, r, z2),
{
    let dl = r.light - l.light;
    let dill = r.illuminance - l.illuminance;
    assert(dl * (z1 - l.illuminance) * SCALE <= dl * (z2 - l.illuminance) * SCALE)
        by (nonlinear_arith)
        requires
            0 <= dl,
            0 <= z1 - l.illuminance <= z2 - l.illuminance,
    ;
    vstd::arithmetic::div_mod::lemma_div_is_ordered(
        dl * (z1 - l.illuminance) * SCALE,
        dl * (z2 - l.illuminance) * SCALE,
        dill,
    );
}

/// Law: on a curve whose light values never decrease, the mapping is
/// monotone in the illuminance.
pub proof fn lemma_map_monotone(ps: Seq<LightPoint>, z1: int, z2: int)
    requires
        curve_wf(ps),
        lights_sorted(ps),
        0 <= z1 <= z2,
    ensures
        map_milli(ps, z1) <= map_milli(ps, z2),
{
    lemma_first_above_props(ps, z1);
    lemma_first_above_props(ps, z2);
    lemma_first_above_monotone(ps, z1, z2);
    let i1 = first_above(ps, z1);
    let i2 = first_above(ps, z2);
    if i1 == i2 {
        if 0 < i1 && i1 < ps.len() {
            lemma_interp_monotone(ps[i1 - 1], ps[i1], z1, z2);
        }
    } else {
        // i1 < i2: the value at z1 tops out at segment i1's right end,
        // which lies at or below segment i2's left end.
        if i1 > 0 {
            lemma_interp_bounds(ps[i1 - 1], ps[i1], z1);
        }
        assert(map_milli(ps, z1) <= ps[i1].light * SCALE);
        if i2 < ps.len() {
            lemma_interp_bounds(ps[i2 - 1], ps[i2], z2);
        }
        assert(ps[i2 - 1].light * SCALE <= map_milli(ps, z2));
        assert(ps[i1].light <= ps[i2 - 1].light);
    }
}

/// The scaled interpolation numerator of two `u32` differences stays far
/// inside `u128`.
proof fn lemma_interp_product_fits(dl: int, dz: int)
    requires
        0 <= dl <= u32::MAX,
        0 <= dz <= u32::MAX,
    ensures
        dl * dz * SCALE <= u128::MAX,
{
    assert(dl * dz * SCALE <= u32::MAX * u32::MAX * SCALE) by (nonlinear_arith)
        requires
            0 <= dl <= u32::MAX,
            0 <= dz <= u32::MAX,
    ;
}

/// The interpolated offset `dl * dz * 1000 / dill` stays below a whole
/// light-step of `dl * 1000` while `dz <= dill`.
proof fn lemma_interp_offset_bound(dl: int, dz: int, dill: int)
    requires
        0 <= dl,
        0 <= dz <= dill,
        1 <= dill,
    ensures
        0 <= (dl * dz * SCALE) / dill <= dl * SCALE,
{
    vstd::arithmetic::div_mod::lemma_div_pos_is_pos(dl * dz * SCALE, dill);
    assert(dl * dz * SCALE <= dl * SCALE * dill) by (nonlinear_arith)
        requires
            0 <= dl,
            0 <= dz <= dill,
    ;
    vstd::arithmetic::div_mod::lemma_div_is_ordered(dl * dz * SCALE, dl * SCALE * dill, dill);
    vstd::arithmetic::div_mod::lemma_div_multiples_vanish(dl * SCALE, dill);
}

} // verus!
