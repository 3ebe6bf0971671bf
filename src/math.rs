//! Vectors and matrices as the codec carries them: every component is the
//! IEEE 754 single-precision bit pattern of an `f32`, kept as a `u32` so
//! that values travel through the codec bit for bit.

use vstd::prelude::*;

verus! {

/// Bit pattern of `0.0f32`.
pub const F32_ZERO: u32 = 0x0000_0000;

/// Bit pattern of `1.0f32`.
pub const F32_ONE: u32 = 0x3F80_0000;

#[derive(Clone, Copy, Debug, PartialEq, Eq, Structural)]
pub struct Vec2 {
    pub x: u32,
    pub y: u32,
}

#[derive(Clone, Copy, Debug, PartialEq, Eq, Structural)]
pub struct Vec3 {
    pub x: u32,
    pub y: u32,
    pub z: u32,
}

#[derive(Clone, Copy, Debug, PartialEq, Eq, Structural)]
pub struct Vec4 {
    pub x: u32,
    pub y: u32,
    pub z: u32,
    pub w: u32,
}

/// A 4x4 matrix stored column by column: `c3` holds the translation.
#[derive(Clone, Copy, Debug, PartialEq, Eq, Structural)]
pub struct Mat4 {
    pub c0: Vec4,
    pub c1: Vec4,
    pub c2: Vec4,
    pub c3: Vec4,
}

impl View for Mat4 {
    type V = Mat4;

    open spec fn view(&self) -> Mat4 {
        *self
    }
}

impl Vec2 {
    pub fn new(x: u32, y: u32) -> (r: Vec2)
        ensures
            r == (Vec2 { x, y }),
    {
        Vec2 { x, y }
    }
}

impl Vec3 {
    pub fn new(x: u32, y: u32, z: u32) -> (r: Vec3)
        ensures
            r == (Vec3 { x, y, z }),
    {
        Vec3 { x, y, z }
    }
}

impl Vec4 {
    pub fn new(x: u32, y: u32, z: u32, w: u32) -> (r: Vec4)
        ensures
            r == (Vec4 { x, y, z, w }),
    {
        Vec4 { x, y, z, w }
    }
}

/// The identity matrix.
pub open spec fn identity_spec() -> Mat4 {
    Mat4 {
        c0: Vec4 { x: F32_ONE, y: F32_ZERO, z: F32_ZERO, w: F32_ZERO },
        c1: Vec4 { x: F32_ZERO, y: F32_ONE, z: F32_ZERO, w: F32_ZERO },
        c2: Vec4 { x: F32_ZERO, y: F32_ZERO, z: F32_ONE, w: F32_ZERO },
        c3: Vec4 { x: F32_ZERO, y: F32_ZERO, z: F32_ZERO, w: F32_ONE },
    }
}

impl Mat4 {
    pub fn identity() -> (r: Mat4)
        ensures
            r == identity_spec(),
    {
        Mat4 {
            c0: Vec4 { x: F32_ONE, y: F32_ZERO, z: F32_ZERO, w: F32_ZERO },
            c1: Vec4 { x: F32_ZERO, y: F32_ONE, z: F32_ZERO, w: F32_ZERO },
            c2: Vec4 { x: F32_ZERO, y: F32_ZERO, z: F32_ONE, w: F32_ZERO },
            c3: Vec4 { x: F32_ZERO, y: F32_ZERO, z: F32_ZERO, w: F32_ONE },
        }
    }

    /// The identity with `v` as its translation column.
    pub fn translation(v: Vec3) -> (r: Mat4)
        ensures
            r == (Mat4 { c3: Vec4 { x: v.x, y: v.y, z: v.z, w: F32_ONE }, ..identity_spec() }),
    {
        let mut m = Mat4::identity();
        m.c3 = Vec4 { x: v.x, y: v.y, z: v.z, w: F32_ONE };
        m
    }

    /// The identity with `v` on the first three diagonal entries.
    pub fn scale3(v: Vec3) -> (r: Mat4)
        ensures
            r == (Mat4 {
                c0: Vec4 { x: v.x, ..identity_spec().c0 },
                c1: Vec4 { y: v.y, ..identity_spec().c1 },
                c2: Vec4 { z: v.z, ..identity_spec().c2 },
                c3: identity_spec().c3,
            }),
    {
        let mut m = Mat4::identity();
        m.c0.x = v.x;
        m.c1.y = v.y;
        m.c2.z = v.z;
        m
    }

    /// This matrix without its translation: the last column becomes `(0, 0, 0, 1)`.
    pub fn to_normal_matrix(&self) -> (r: Mat4)
        ensures
            r == (Mat4 { c3: identity_spec().c3, ..*self }),
    {
        let mut m = *self;
        m.c3 = Vec4 { x: F32_ZERO, y: F32_ZERO, z: F32_ZERO, w: F32_ONE };
        m
    }
}

} // verus!
