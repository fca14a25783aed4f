//! The engine's data model: fixed-point vectors and matrices, colors,
//! vertices and faces, with the magnitude invariants the pipeline relies on.

use crate::fixed::{SCALE, SCREEN_MAX, WORLD_MAX};
use vstd::prelude::*;

verus! {

/// A 2-component fixed-point vector.
#[derive(Clone, Copy, PartialEq, Eq, Structural, Debug)]
pub struct Vec2 {
    pub x: i64,
    pub y: i64,
}

/// A 3-component fixed-point vector.
#[derive(Clone, Copy, PartialEq, Eq, Structural, Debug)]
pub struct Vec3 {
    pub x: i64,
    pub y: i64,
    pub z: i64,
}

/// A row-major 3x3 fixed-point matrix; `mRC` is the entry at row `R`,
/// column `C`.
#[derive(Clone, Copy, PartialEq, Eq, Structural, Debug)]
pub struct Mat3 {
    pub m00: i64,
    pub m01: i64,
    pub m02: i64,
    pub m10: i64,
    pub m11: i64,
    pub m12: i64,
    pub m20: i64,
    pub m21: i64,
    pub m22: i64,
}

/// An RGBA color, one byte per channel.
#[derive(Clone, Copy, PartialEq, Eq, Structural, Debug)]
pub struct Rgba {
    pub r: u8,
    pub g: u8,
    pub b: u8,
    pub a: u8,
}

/// A vertex carrying its world-space position, its projected screen
/// position, a surface normal and texture coordinates.
#[derive(Clone, Copy, PartialEq, Eq, Structural, Debug)]
pub struct Vertex {
    pub position: Vec3,
    pub screen_position: Vec2,
    pub normal: Vec3,
    pub uv: Vec2,
}

/// A quadrilateral face: four vertex indices, wound so that the triangles
/// `(a, b, c)` and `(a, c, d)` share the diagonal `a`-`c`, plus the face's
/// base color.
#[derive(Clone, Copy, PartialEq, Eq, Structural, Debug)]
pub struct Face {
    pub a: usize,
    pub b: usize,
    pub c: usize,
    pub d: usize,
    pub color: Rgba,
}

pub open spec fn vec2_bounded(v: Vec2, m: int) -> bool {
    -m <= v.x <= m && -m <= v.y <= m
}

pub open spec fn vec3_bounded(v: Vec3, m: int) -> bool {
    -m <= v.x <= m && -m <= v.y <= m && -m <= v.z <= m
}

pub open spec fn mat3_bounded(t: Mat3, m: int) -> bool {
    &&& -m <= t.m00 <= m && -m <= t.m01 <= m && -m <= t.m02 <= m
    &&& -m <= t.m10 <= m && -m <= t.m11 <= m && -m <= t.m12 <= m
    &&& -m <= t.m20 <= m && -m <= t.m21 <= m && -m <= t.m22 <= m
}

/// The entry of `t` at row `i`, column `j`.
pub open spec fn mat_entry(t: Mat3, i: int, j: int) -> int {
    if i == 0 {
        if j == 0 {
            t.m00 as int
        } else if j == 1 {
            t.m01 as int
        } else {
            t.m02 as int
        }
    } else if i == 1 {
        if j == 0 {
            t.m10 as int
        } else if j == 1 {
            t.m11 as int
        } else {
            t.m12 as int
        }
    } else {
        if j == 0 {
            t.m20 as int
        } else if j == 1 {
            t.m21 as int
        } else {
            t.m22 as int
        }
    }
}

/// The invariant every vertex handed to the rasterizer satisfies: world
/// position and normal within `WORLD_MAX`, screen position within
/// `SCREEN_MAX`, texture coordinates within `[0, 1]` units.
pub open spec fn vertex_valid(v: Vertex) -> bool {
    &&& vec3_bounded(v.position, WORLD_MAX as int)
    &&& vec3_bounded(v.normal, WORLD_MAX as int)
    &&& vec2_bounded(v.screen_position, SCREEN_MAX as int)
    &&& 0 <= v.uv.x <= SCALE && 0 <= v.uv.y <= SCALE
}

} // verus!
