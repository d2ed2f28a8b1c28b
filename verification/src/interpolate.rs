use vstd::prelude::*;
use crate::math::Vec3;

verus! {

/// The closed set of interpolation strategies a sample can carry. The
/// document's interpolation-name strings resolve into this set; unresolved
/// names fall back to linear.
#[derive(Clone, Copy, Debug, PartialEq, Eq, Structural)]
pub enum Interpolation {
    Linear,
}

/// A 3-vector sample at a time, carrying the strategy used to interpolate
/// into it from the preceding point.
#[derive(Clone, Copy, Debug, PartialEq, Eq, Structural)]
pub struct VectorPoint {
    pub vector: Vec3,
    pub time: u32,
    pub interpolation: Interpolation,
}

impl VectorPoint {
    /// The zero sample: zero vector at time zero, default strategy.
    pub open spec fn empty_spec() -> VectorPoint {
        VectorPoint {
            vector: Vec3 { x: 0, y: 0, z: 0 },
            time: 0,
            interpolation: Interpolation::Linear,
        }
    }

    pub fn new(vector: Vec3, time: u32, interpolation: Interpolation) -> (p: VectorPoint)
        ensures
            p == (VectorPoint { vector, time, interpolation }),
    {
        VectorPoint { vector, time, interpolation }
    }

    pub fn empty() -> (p: VectorPoint)
        ensures
            p == VectorPoint::empty_spec(),
    {
        VectorPoint {
            vector: Vec3 { x: 0, y: 0, z: 0 },
            time: 0,
            interpolation: Interpolation::Linear,
        }
    }
}

/// The strategy a keyframe receives when its interpolation name is missing
/// or unrecognized.
pub fn default_interpolation() -> (r: Interpolation)
    ensures
        r == Interpolation::Linear,
{
    Interpolation::Linear
}

/// Linear interpolation of one scalar: `v1` plus the fraction
/// `(t - t1) / (t2 - t1)` of the way towards `v2`, rounded towards `v1`.
pub open spec fn lerp_scalar(v1: int, v2: int, t1: int, t2: int, t: int) -> int
    recommends
        t1 <= t <= t2,
        t1 < t2,
{
    if v2 >= v1 {
        v1 + (v2 - v1) * (t - t1) / (t2 - t1)
    } else {
        v1 - (v1 - v2) * (t - t1) / (t2 - t1)
    }
}

/// The interpolated fraction of a non-negative span is at most the span.
proof fn lemma_lerp_quotient(dv: int, dt: int, span: int)
    requires
        0 <= dv,
        0 <= dt <= span,
        0 < span,
    ensures
        0 <= dv * dt / span <= dv,
{
    vstd::arithmetic::mul::lemma_mul_inequality(dt, span, dv);
    vstd::arithmetic::div_mod::lemma_div_is_ordered(dv * dt, dv * span, span);
    vstd::arithmetic::div_mod::lemma_div_multiples_vanish(dv, span);
    vstd::arithmetic::div_mod::lemma_div_pos_is_pos(dv * dt, span);
    assert(dt * dv == dv * dt) by (nonlinear_arith);
    assert(span * dv == dv * span) by (nonlinear_arith);
}

/// Linear interpolation of one scalar component.
fn lerp(v1: i64, v2: i64, t1: u32, t2: u32, t: u32) -> (r: i64)
    requires
        t1 <= t <= t2,
        t1 < t2,
    ensures
        r as int == lerp_scalar(v1 as int, v2 as int, t1 as int, t2 as int, t as int),
{
    let dt: u128 = (t - t1) as u128;
    let span: u128 = (t2 - t1) as u128;
    if v2 >= v1 {
        let dv: u128 = ((v2 as i128) - (v1 as i128)) as u128;
        proof {
            vstd::arithmetic::mul::lemma_mul_upper_bound(
                dv as int,
                0xffff_ffff_ffff_ffff,
                dt as int,
                0xffff_ffff,
            );
            lemma_lerp_quotient(dv as int, dt as int, span as int);
        }
        let q: u128 = dv * dt / span;
        ((v1 as i128) + (q as i128)) as i64
    } else {
        let dv: u128 = ((v1 as i128) - (v2 as i128)) as u128;
        proof {
            vstd::arithmetic::mul::lemma_mul_upper_bound(
                dv as int,
                0xffff_ffff_ffff_ffff,
                dt as int,
                0xffff_ffff,
            );
            lemma_lerp_quotient(dv as int, dt as int, span as int);
        }
        let q: u128 = dv * dt / span;
        ((v1 as i128) - (q as i128)) as i64
    }
}

/// Component-wise linear interpolation between two vectors.
pub open spec fn lerp_vec(v1: Vec3, v2: Vec3, t1: int, t2: int, t: int) -> Vec3 {
    Vec3 {
        x: lerp_scalar(v1.x as int, v2.x as int, t1, t2, t) as i64,
        y: lerp_scalar(v1.y as int, v2.y as int, t1, t2, t) as i64,
        z: lerp_scalar(v1.z as int, v2.z as int, t1, t2, t) as i64,
    }
}

/// What linear interpolation yields at query time `time`, between the point
/// at `p2_index` and its predecessor (a zero point when `p2_index` is 0).
/// Two neighbors sharing a timestamp are a degenerate span; the tie breaks
/// deterministically to the later sample's value.
pub open spec fn linear_interpolate_spec(points: Seq<VectorPoint>, p2_index: int, time: u32) -> VectorPoint
    recommends
        0 <= p2_index < points.len(),
{
    let p1 = if p2_index > 0 {
        points[p2_index - 1]
    } else {
        VectorPoint::empty_spec()
    };
    let p2 = points[p2_index];
    if p2.time <= p1.time {
        VectorPoint { vector: p2.vector, time, interpolation: Interpolation::Linear }
    } else {
        VectorPoint {
            vector: lerp_vec(p1.vector, p2.vector, p1.time as int, p2.time as int, time as int),
            time,
            interpolation: Interpolation::Linear,
        }
    }
}

/// The timestamp of the point preceding `p2_index`: zero when `p2_index`
/// is 0, mirroring the synthetic zero point interpolation starts from.
pub open spec fn prev_time(points: Seq<VectorPoint>, p2_index: int) -> int {
    if p2_index > 0 {
        points[p2_index - 1].time as int
    } else {
        0
    }
}

/// The built-in linear strategy.
pub struct LinearInterpolation;

impl LinearInterpolation {
    /// Interpolates between the point at `p2_index` and its predecessor at
    /// the fractional position of `time` between their timestamps.
    pub fn interpolate(&self, points: &Vec<VectorPoint>, p2_index: usize, time: u32) -> (r:
        VectorPoint)
        requires
            p2_index < points@.len(),
            prev_time(points@, p2_index as int) <= time as int,
            points@[p2_index as int].time as int > prev_time(points@, p2_index as int)
                ==> time <= points@[p2_index as int].time,
        ensures
            r == linear_interpolate_spec(points@, p2_index as int, time),
    {
        let p1 = if p2_index > 0 {
            points[p2_index - 1]
        } else {
            VectorPoint::empty()
        };
        let p2 = points[p2_index];
        if p2.time <= p1.time {
            VectorPoint { vector: p2.vector, time, interpolation: Interpolation::Linear }
        } else {
            VectorPoint {
                vector: Vec3 {
                    x: lerp(p1.vector.x, p2.vector.x, p1.time, p2.time, time),
                    y: lerp(p1.vector.y, p2.vector.y, p1.time, p2.time, time),
                    z: lerp(p1.vector.z, p2.vector.z, p1.time, p2.time, time),
                },
                time,
                interpolation: Interpolation::Linear,
            }
        }
    }
}

impl Interpolation {
    /// What this strategy's `interpolate` returns.
    pub open spec fn spec_interpolate(self, points: Seq<VectorPoint>, p2_index: int, time: u32) -> VectorPoint {
        match self {
            Interpolation::Linear => linear_interpolate_spec(points, p2_index, time),
        }
    }

    /// Computes a sample at query time `time` from the point at `p2_index`
    /// and its predecessor.
    pub fn interpolate(&self, points: &Vec<VectorPoint>, p2_index: usize, time: u32) -> (r:
        VectorPoint)
        requires
            p2_index < points@.len(),
            prev_time(points@, p2_index as int) <= time as int,
            points@[p2_index as int].time as int > prev_time(points@, p2_index as int)
                ==> time <= points@[p2_index as int].time,
        ensures
            r == self.spec_interpolate(points@, p2_index as int, time),
    {
        match self {
            Interpolation::Linear => LinearInterpolation.interpolate(points, p2_index, time),
        }
    }

    /// Whether samples under this strategy vary continuously with time.
    pub fn is_continuous(&self) -> (r: bool)
        ensures
            r,
    {
        match self {
            Interpolation::Linear => true,
        }
    }
}

} // verus!
