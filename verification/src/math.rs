use vstd::prelude::*;

verus! {

/// Number of fixed-point ticks in one model unit. Every geometry component,
/// scale factor and rotation degree in this crate is an `i64` count of these
/// ticks; the host converts the document's decimal numbers into ticks.
pub const SCALAR_ONE: i64 = 65536;

/// A position sample in model units is divided by this factor to obtain
/// block units for display.
pub const MODEL_TO_BLOCK_MULTIPLIER: i64 = 16;

/// One rotation step of 22.5 degrees, in fixed-point ticks
/// (22.5 * SCALAR_ONE).
pub const ROTATION_DEGREE: i64 = 1474560;

/// Truncating (round-toward-zero) division for a positive divisor: the
/// rounding that machine integer division performs.
pub open spec fn trunc_div(a: int, b: int) -> int
    recommends
        b > 0,
{
    if a >= 0 {
        a / b
    } else {
        -((-a) / b)
    }
}

/// Truncating division of a scalar by a positive divisor.
pub fn div_trunc(a: i64, b: i64) -> (q: i64)
    requires
        b > 0,
        a > i64::MIN,
    ensures
        q == trunc_div(a as int, b as int),
{
    if a >= 0 {
        let m: u64 = (a as u64) / (b as u64);
        proof {
            vstd::arithmetic::div_mod::lemma_div_nonincreasing(a as int, b as int);
        }
        m as i64
    } else {
        let m: u64 = ((-a) as u64) / (b as u64);
        proof {
            vstd::arithmetic::div_mod::lemma_div_nonincreasing(-a as int, b as int);
        }
        -(m as i64)
    }
}

/// A 3-vector of fixed-point scalars.
#[derive(Clone, Copy, Debug, PartialEq, Eq, Structural)]
pub struct Vec3 {
    pub x: i64,
    pub y: i64,
    pub z: i64,
}

impl Vec3 {
    pub fn new(x: i64, y: i64, z: i64) -> (v: Vec3)
        ensures
            v == (Vec3 { x, y, z }),
    {
        Vec3 { x, y, z }
    }

    /// The vector with the same scalar on every axis.
    pub fn flat(n: i64) -> (v: Vec3)
        ensures
            v == (Vec3 { x: n, y: n, z: n }),
    {
        Vec3 { x: n, y: n, z: n }
    }

    /// Component-wise sum.
    pub fn add(&self, other: &Vec3) -> (v: Vec3)
        requires
            i64::MIN <= self.x + other.x <= i64::MAX,
            i64::MIN <= self.y + other.y <= i64::MAX,
            i64::MIN <= self.z + other.z <= i64::MAX,
        ensures
            v.x == self.x + other.x,
            v.y == self.y + other.y,
            v.z == self.z + other.z,
    {
        Vec3 { x: self.x + other.x, y: self.y + other.y, z: self.z + other.z }
    }

    /// Component-wise difference.
    pub fn sub(&self, other: &Vec3) -> (v: Vec3)
        requires
            i64::MIN <= self.x - other.x <= i64::MAX,
            i64::MIN <= self.y - other.y <= i64::MAX,
            i64::MIN <= self.z - other.z <= i64::MAX,
        ensures
            v.x == self.x - other.x,
            v.y == self.y - other.y,
            v.z == self.z - other.z,
    {
        Vec3 { x: self.x - other.x, y: self.y - other.y, z: self.z - other.z }
    }

    /// Component-wise product.
    pub fn mul(&self, other: &Vec3) -> (v: Vec3)
        requires
            i64::MIN <= self.x * other.x <= i64::MAX,
            i64::MIN <= self.y * other.y <= i64::MAX,
            i64::MIN <= self.z * other.z <= i64::MAX,
        ensures
            v.x == self.x * other.x,
            v.y == self.y * other.y,
            v.z == self.z * other.z,
    {
        Vec3 { x: self.x * other.x, y: self.y * other.y, z: self.z * other.z }
    }

    /// Component-wise truncating division by a vector of positive divisors.
    pub fn div(&self, other: &Vec3) -> (v: Vec3)
        requires
            other.x > 0 && other.y > 0 && other.z > 0,
            self.x > i64::MIN && self.y > i64::MIN && self.z > i64::MIN,
        ensures
            v.x == trunc_div(self.x as int, other.x as int),
            v.y == trunc_div(self.y as int, other.y as int),
            v.z == trunc_div(self.z as int, other.z as int),
    {
        Vec3 {
            x: div_trunc(self.x, other.x),
            y: div_trunc(self.y, other.y),
            z: div_trunc(self.z, other.z),
        }
    }

    /// Mirrors the vector into the display coordinate convention for
    /// transforms: x and z trade places with their signs flipped.
    pub fn invert_xz(&self) -> (v: Vec3)
        requires
            self.x > i64::MIN,
            self.z > i64::MIN,
        ensures
            v.x as int == -(self.z as int),
            v.y == self.y,
            v.z as int == -(self.x as int),
    {
        Vec3 { x: -self.z, y: self.y, z: -self.x }
    }

    /// Divides every component by the model-to-block scale factor.
    pub fn to_block_scale(&self) -> (v: Vec3)
        requires
            self.x > i64::MIN && self.y > i64::MIN && self.z > i64::MIN,
        ensures
            v.x == trunc_div(self.x as int, MODEL_TO_BLOCK_MULTIPLIER as int),
            v.y == trunc_div(self.y as int, MODEL_TO_BLOCK_MULTIPLIER as int),
            v.z == trunc_div(self.z as int, MODEL_TO_BLOCK_MULTIPLIER as int),
    {
        self.div(&Vec3::flat(MODEL_TO_BLOCK_MULTIPLIER))
    }
}

/// The display coordinate convention for animation (rotation) samples:
/// y and z change sign.
pub fn animation_to_display(vector: Vec3) -> (v: Vec3)
    requires
        vector.y > i64::MIN,
        vector.z > i64::MIN,
    ensures
        v.x == vector.x,
        v.y as int == -(vector.y as int),
        v.z as int == -(vector.z as int),
{
    Vec3 { x: vector.x, y: -vector.y, z: -vector.z }
}

/// The display coordinate convention for transform (position) samples:
/// z changes sign.
pub fn transform_to_display(vector: Vec3) -> (v: Vec3)
    requires
        vector.z > i64::MIN,
    ensures
        v.x == vector.x,
        v.y == vector.y,
        v.z as int == -(vector.z as int),
{
    Vec3 { x: vector.x, y: vector.y, z: -vector.z }
}

/// The rotation degrees an element may legally be rotated by: zero or one
/// or two steps of 22.5 degrees in either direction.
pub open spec fn is_valid_rotation_degree(rotation: int) -> bool {
    ||| rotation == 0
    ||| rotation == ROTATION_DEGREE
    ||| rotation == 2 * ROTATION_DEGREE
    ||| rotation == -ROTATION_DEGREE
    ||| rotation == -2 * ROTATION_DEGREE
}

/// Whether one scalar is a legal element rotation degree.
pub fn valid_rotation_degree(rotation: i64) -> (r: bool)
    ensures
        r == is_valid_rotation_degree(rotation as int),
{
    rotation == 0 || rotation == ROTATION_DEGREE || rotation == 2 * ROTATION_DEGREE
        || rotation == -ROTATION_DEGREE || rotation == -2 * ROTATION_DEGREE
}

/// Whether a rotation vector is acceptable for an element: fewer than two
/// of its components are zero and every component is a legal degree.
pub open spec fn is_valid_degree(rotation: Vec3) -> bool {
    let zeros = (if rotation.x == 0 {
        1int
    } else {
        0int
    }) + (if rotation.y == 0 {
        1int
    } else {
        0int
    }) + (if rotation.z == 0 {
        1int
    } else {
        0int
    });
    &&& zeros < 2
    &&& is_valid_rotation_degree(rotation.x as int)
    &&& is_valid_rotation_degree(rotation.y as int)
    &&& is_valid_rotation_degree(rotation.z as int)
}

/// Checks a rotation vector against [`is_valid_degree`].
pub fn check_valid_degree(rotation: Vec3) -> (r: bool)
    ensures
        r == is_valid_degree(rotation),
{
    let mut i: u32 = 0;
    if rotation.x == 0 {
        i += 1;
    }
    if rotation.y == 0 {
        i += 1;
    }
    if rotation.z == 0 {
        i += 1;
    }
    i < 2 && valid_rotation_degree(rotation.x) && valid_rotation_degree(rotation.y)
        && valid_rotation_degree(rotation.z)
}

} // verus!
