//! The triangle rasterizer: scan conversion over a pixel bounding box,
//! barycentric interpolation, per-pixel Lambertian shading and a
//! depth-buffer test, with a contract that gives the exact value of every
//! buffer cell after the call.

use crate::fixed::{
    lemma_mul_abs_bound, lemma_trunc_div_in_range, trunc_div, trunc_div_i128, AMBIENT_FLOOR,
    HALF_SCALE, MAX_DIM, SCALE, SCREEN_MAX, WORLD_MAX,
};
use crate::math::{
    edge_function, edge_val, intensity_spec, lemma_barycentric_reconstruction,
    lemma_barycentric_weights_sum, lit_chan_i, max_i, norm3,
};
use crate::texture::{deref_texture, sample_blend, surface_chan, texture_valid, Texture};
use crate::types::{vec2_bounded, vec3_bounded, vertex_valid, Rgba, Vec2, Vec3, Vertex};
use vstd::arithmetic::div_mod::{
    lemma_fundamental_div_mod, lemma_fundamental_div_mod_converse,
};
use vstd::arithmetic::div_mod::lemma_div_is_ordered;
use vstd::arithmetic::mul::lemma_mul_inequality;
use vstd::prelude::*;

verus! {

/// Twice the signed screen-space area of the triangle.
pub open spec fn tri_area(v0: Vertex, v1: Vertex, v2: Vertex) -> int {
    edge_val(
        v0.screen_position.x as int,
        v0.screen_position.y as int,
        v1.screen_position.x as int,
        v1.screen_position.y as int,
        v2.screen_position.x as int,
        v2.screen_position.y as int,
    )
}

/// The center of pixel column or row `k`, in ticks.
pub open spec fn pixel_center(k: int) -> int {
    k * SCALE + HALF_SCALE
}

/// The edge weight of pixel `(x, y)` against the edge opposite `v0`.
pub open spec fn weight0(v0: Vertex, v1: Vertex, v2: Vertex, x: int, y: int) -> int {
    edge_val(
        v1.screen_position.x as int,
        v1.screen_position.y as int,
        v2.screen_position.x as int,
        v2.screen_position.y as int,
        pixel_center(x),
        pixel_center(y),
    )
}

/// The edge weight of pixel `(x, y)` against the edge opposite `v1`.
pub open spec fn weight1(v0: Vertex, v1: Vertex, v2: Vertex, x: int, y: int) -> int {
    edge_val(
        v2.screen_position.x as int,
        v2.screen_position.y as int,
        v0.screen_position.x as int,
        v0.screen_position.y as int,
        pixel_center(x),
        pixel_center(y),
    )
}

/// The edge weight of pixel `(x, y)` against the edge opposite `v2`.
pub open spec fn weight2(v0: Vertex, v1: Vertex, v2: Vertex, x: int, y: int) -> int {
    edge_val(
        v0.screen_position.x as int,
        v0.screen_position.y as int,
        v1.screen_position.x as int,
        v1.screen_position.y as int,
        pixel_center(x),
        pixel_center(y),
    )
}

/// Whether the rasterizer writes pixel `(x, y)`: the triangle is not
/// degenerate and all three edge weights of the pixel's center share the
/// sign of the triangle's signed area (edges inclusive, either winding —
/// the engine culls no back faces).
pub open spec fn covers(v0: Vertex, v1: Vertex, v2: Vertex, x: int, y: int) -> bool {
    ||| (tri_area(v0, v1, v2) > 0 && weight0(v0, v1, v2, x, y) >= 0 && weight1(v0, v1, v2, x, y)
        >= 0 && weight2(v0, v1, v2, x, y) >= 0)
    ||| (tri_area(v0, v1, v2) < 0 && weight0(v0, v1, v2, x, y) <= 0 && weight1(v0, v1, v2, x, y)
        <= 0 && weight2(v0, v1, v2, x, y) <= 0)
}

/// The magnitude of the triangle's doubled signed area.
pub open spec fn area_mag(v0: Vertex, v1: Vertex, v2: Vertex) -> int {
    if tri_area(v0, v1, v2) >= 0 {
        tri_area(v0, v1, v2)
    } else {
        -tri_area(v0, v1, v2)
    }
}

/// The pixel's weight opposite `v0`, oriented by the winding so that it
/// is non-negative on covered pixels.
pub open spec fn oweight0(v0: Vertex, v1: Vertex, v2: Vertex, x: int, y: int) -> int {
    if tri_area(v0, v1, v2) >= 0 {
        weight0(v0, v1, v2, x, y)
    } else {
        -weight0(v0, v1, v2, x, y)
    }
}

/// The pixel's weight opposite `v1`, oriented by the winding.
pub open spec fn oweight1(v0: Vertex, v1: Vertex, v2: Vertex, x: int, y: int) -> int {
    if tri_area(v0, v1, v2) >= 0 {
        weight1(v0, v1, v2, x, y)
    } else {
        -weight1(v0, v1, v2, x, y)
    }
}

/// The pixel's weight opposite `v2`, oriented by the winding.
pub open spec fn oweight2(v0: Vertex, v1: Vertex, v2: Vertex, x: int, y: int) -> int {
    if tri_area(v0, v1, v2) >= 0 {
        weight2(v0, v1, v2, x, y)
    } else {
        -weight2(v0, v1, v2, x, y)
    }
}

/// Barycentric interpolation of a per-vertex attribute at pixel `(x, y)`:
/// the weighted sum of the three vertex values, divided by the area.
/// Weights and area are oriented together, so the quotient is the same
/// for either winding (truncating division is symmetric under negating
/// numerator and divisor together).
pub open spec fn interp_at(
    v0: Vertex,
    v1: Vertex,
    v2: Vertex,
    x: int,
    y: int,
    a0: int,
    a1: int,
    a2: int,
) -> int {
    trunc_div(
        oweight0(v0, v1, v2, x, y) * a0 + oweight1(v0, v1, v2, x, y) * a1 + oweight2(
            v0,
            v1,
            v2,
            x,
            y,
        ) * a2,
        area_mag(v0, v1, v2),
    )
}

/// The interpolated world-space depth of the triangle at pixel `(x, y)`.
pub open spec fn depth_at(v0: Vertex, v1: Vertex, v2: Vertex, x: int, y: int) -> int {
    interp_at(v0, v1, v2, x, y, v0.position.z as int, v1.position.z as int, v2.position.z as int)
}

/// The interpolated world-space point of the triangle at pixel `(x, y)`.
pub open spec fn point_at(v0: Vertex, v1: Vertex, v2: Vertex, x: int, y: int) -> (int, int, int) {
    (
        interp_at(v0, v1, v2, x, y, v0.position.x as int, v1.position.x as int, v2.position.x as int),
        interp_at(v0, v1, v2, x, y, v0.position.y as int, v1.position.y as int, v2.position.y as int),
        interp_at(v0, v1, v2, x, y, v0.position.z as int, v1.position.z as int, v2.position.z as int),
    )
}

/// The re-normalized interpolated surface normal at pixel `(x, y)`:
/// linear interpolation of unit vectors is not unit length, so the
/// rasterizer normalizes it again.
pub open spec fn normal_at(v0: Vertex, v1: Vertex, v2: Vertex, x: int, y: int) -> (
    int,
    int,
    int,
) {
    norm3(
        interp_at(v0, v1, v2, x, y, v0.normal.x as int, v1.normal.x as int, v2.normal.x as int),
        interp_at(v0, v1, v2, x, y, v0.normal.y as int, v1.normal.y as int, v2.normal.y as int),
        interp_at(v0, v1, v2, x, y, v0.normal.z as int, v1.normal.z as int, v2.normal.z as int),
    )
}

/// The light intensity at pixel `(x, y)`: the Lambertian model applied to
/// the re-normalized interpolated normal and the interpolated world point.
pub open spec fn pixel_intensity(
    v0: Vertex,
    v1: Vertex,
    v2: Vertex,
    light: Vec3,
    x: int,
    y: int,
) -> int {
    let n = normal_at(v0, v1, v2, x, y);
    let p = point_at(v0, v1, v2, x, y);
    let d = norm3(light.x - p.0, light.y - p.1, light.z - p.2);
    max_i(trunc_div(n.0 * d.0 + n.1 * d.1 + n.2 * d.2, SCALE as int), AMBIENT_FLOOR as int)
}

/// The interpolated texture coordinates at pixel `(x, y)`.
pub open spec fn uv_at(v0: Vertex, v1: Vertex, v2: Vertex, x: int, y: int) -> (int, int) {
    (
        interp_at(v0, v1, v2, x, y, v0.uv.x as int, v1.uv.x as int, v2.uv.x as int),
        interp_at(v0, v1, v2, x, y, v0.uv.y as int, v1.uv.y as int, v2.uv.y as int),
    )
}

/// The RGBA value the rasterizer writes at pixel `(x, y)`: the surface
/// color (the base color, or the sampled texel blended over it) under the
/// pixel's light intensity, fully opaque.
pub open spec fn shaded_at(
    v0: Vertex,
    v1: Vertex,
    v2: Vertex,
    light: Vec3,
    tex: Option<Texture>,
    base: Rgba,
    x: int,
    y: int,
) -> (int, int, int, int) {
    let i = pixel_intensity(v0, v1, v2, light, x, y);
    let uv = uv_at(v0, v1, v2, x, y);
    (
        lit_chan_i(surface_chan(tex, base, uv.0, uv.1, 0), i),
        lit_chan_i(surface_chan(tex, base, uv.0, uv.1, 1), i),
        lit_chan_i(surface_chan(tex, base, uv.0, uv.1, 2), i),
        255,
    )
}

/// Whether an optional borrowed texture is well-formed.
pub open spec fn opt_texture_valid(t: Option<&Texture>) -> bool {
    match t {
        Option::Some(x) => texture_valid(*x),
        Option::None => true,
    }
}

/// One channel of a shaded RGBA quadruple.
pub open spec fn chan_of(c: (int, int, int, int), k: int) -> int {
    if k == 0 {
        c.0
    } else if k == 1 {
        c.1
    } else if k == 2 {
        c.2
    } else {
        c.3
    }
}

/// The depth buffer after one triangle pass: each cell keeps the smaller
/// of its old depth and the triangle's interpolated depth where the
/// triangle covers the pixel, and is untouched elsewhere.
pub open spec fn tri_pass_depth(depth: Seq<i64>, v0: Vertex, v1: Vertex, v2: Vertex, w: int) -> Seq<
    i64,
> {
    Seq::new(
        depth.len(),
        |i: int|
            if covers(v0, v1, v2, i % w, i / w) && depth_at(v0, v1, v2, i % w, i / w) < depth[i] {
                depth_at(v0, v1, v2, i % w, i / w) as i64
            } else {
                depth[i]
            },
    )
}

/// The pixel buffer after one triangle pass: the four channels of every
/// pixel that passes the coverage and depth tests take the shaded color,
/// and every other byte is untouched. The depth test reads the depth
/// buffer as it stood before the pass.
pub open spec fn tri_pass_pixels(
    pixels: Seq<u8>,
    depth: Seq<i64>,
    v0: Vertex,
    v1: Vertex,
    v2: Vertex,
    light: Vec3,
    tex: Option<Texture>,
    base: Rgba,
    w: int,
) -> Seq<u8> {
    Seq::new(
        pixels.len(),
        |b: int|
            {
                let i = b / 4;
                let x = i % w;
                let y = i / w;
                if covers(v0, v1, v2, x, y) && depth_at(v0, v1, v2, x, y) < depth[i] {
                    chan_of(shaded_at(v0, v1, v2, light, tex, base, x, y), b % 4) as u8
                } else {
                    pixels[b]
                }
            },
    )
}

/// A weighted sum with non-negative weights stays within the weights'
/// total times the attribute bound.
proof fn lemma_weighted_sum_bound(
    w0: int,
    w1: int,
    w2: int,
    a0: int,
    a1: int,
    a2: int,
    m: int,
)
    by (nonlinear_arith)
    requires
        w0 >= 0,
        w1 >= 0,
        w2 >= 0,
        -m <= a0 <= m,
        -m <= a1 <= m,
        -m <= a2 <= m,
    ensures
        (w0 + w1 + w2) * (-m) <= w0 * a0 + w1 * a1 + w2 * a2,
        w0 * a0 + w1 * a1 + w2 * a2 <= (w0 + w1 + w2) * m,
{
}

/// Negation moves through a product.
proof fn lemma_neg_mul(a: int, b: int)
    by (nonlinear_arith)
    ensures
        (-a) * b == -(a * b),
        a * (-b) == -(a * b),
{
}

/// Cancel a positive common factor in an inequality.
proof fn lemma_cancel_factor(a: int, b: int, s: int)
    by (nonlinear_arith)
    requires
        s > 0,
        a * s <= b * s,
    ensures
        a <= b,
{
}

/// Interpolates one attribute at a covered pixel; the weights must be the
/// pixel's edge weights, non-negative and summing to the (positive) area.
fn interp_attr(w0: i128, w1: i128, w2: i128, area: i128, a0: i64, a1: i64, a2: i64) -> (r: i64)
    requires
        w0 >= 0,
        w1 >= 0,
        w2 >= 0,
        w0 + w1 + w2 == area,
        area > 0,
        w0 <= 0x1_0000_0000_0000_0000_0000_0000,
        w1 <= 0x1_0000_0000_0000_0000_0000_0000,
        w2 <= 0x1_0000_0000_0000_0000_0000_0000,
        -WORLD_MAX <= a0 <= WORLD_MAX,
        -WORLD_MAX <= a1 <= WORLD_MAX,
        -WORLD_MAX <= a2 <= WORLD_MAX,
    ensures
        r == trunc_div(w0 * a0 + w1 * a1 + w2 * a2, area as int),
        -WORLD_MAX <= r <= WORLD_MAX,
{
    proof {
        let big = 0x1_0000_0000_0000_0000_0000_0000;
        lemma_mul_abs_bound(w0 as int, a0 as int, big, WORLD_MAX as int);
        lemma_mul_abs_bound(w1 as int, a1 as int, big, WORLD_MAX as int);
        lemma_mul_abs_bound(w2 as int, a2 as int, big, WORLD_MAX as int);
    }
    let num: i128 = w0 * (a0 as i128) + w1 * (a1 as i128) + w2 * (a2 as i128);
    proof {
        lemma_weighted_sum_bound(
            w0 as int,
            w1 as int,
            w2 as int,
            a0 as int,
            a1 as int,
            a2 as int,
            WORLD_MAX as int,
        );
        assert(area * (-(WORLD_MAX as int)) == (w0 + w1 + w2) * (-(WORLD_MAX as int)) && area * (
        WORLD_MAX as int) == (w0 + w1 + w2) * (WORLD_MAX as int));
        lemma_trunc_div_in_range(num as int, area as int, -(WORLD_MAX as int), WORLD_MAX as int);
    }
    trunc_div_i128(num, area) as i64
}

/// Every pixel whose center the triangle covers lies inside the
/// triangle's clamped screen bounding box.
proof fn lemma_covered_in_bbox(
    v0: Vertex,
    v1: Vertex,
    v2: Vertex,
    x: int,
    y: int,
    lo: int,
    hi: int,
    horizontal: bool,
)
    requires
        vertex_valid(v0),
        vertex_valid(v1),
        vertex_valid(v2),
        covers(v0, v1, v2, x, y),
        x >= 0,
        y >= 0,
        horizontal ==> lo == min3(
            v0.screen_position.x as int,
            v1.screen_position.x as int,
            v2.screen_position.x as int,
        ) / (SCALE as int) && hi == (max3(
            v0.screen_position.x as int,
            v1.screen_position.x as int,
            v2.screen_position.x as int,
        ) + SCALE - 1) / (SCALE as int),
        !horizontal ==> lo == min3(
            v0.screen_position.y as int,
            v1.screen_position.y as int,
            v2.screen_position.y as int,
        ) / (SCALE as int) && hi == (max3(
            v0.screen_position.y as int,
            v1.screen_position.y as int,
            v2.screen_position.y as int,
        ) + SCALE - 1) / (SCALE as int),
    ensures
        horizontal ==> lo <= x <= hi,
        !horizontal ==> lo <= y <= hi,
{
    let rw0 = weight0(v0, v1, v2, x, y);
    let rw1 = weight1(v0, v1, v2, x, y);
    let rw2 = weight2(v0, v1, v2, x, y);
    let rarea = tri_area(v0, v1, v2);
    let w0 = oweight0(v0, v1, v2, x, y);
    let w1 = oweight1(v0, v1, v2, x, y);
    let w2 = oweight2(v0, v1, v2, x, y);
    let area = area_mag(v0, v1, v2);
    let a0x = v0.screen_position.x as int;
    let a0y = v0.screen_position.y as int;
    let a1x = v1.screen_position.x as int;
    let a1y = v1.screen_position.y as int;
    let a2x = v2.screen_position.x as int;
    let a2y = v2.screen_position.y as int;
    let px = pixel_center(x);
    let py = pixel_center(y);
    lemma_barycentric_weights_sum(a0x, a0y, a1x, a1y, a2x, a2y, px, py);
    assert(rw0 + rw1 + rw2 == rarea);
    lemma_barycentric_reconstruction(a0x, a0y, a1x, a1y, a2x, a2y, px, py);
    if rarea < 0 {
        lemma_neg_mul(rw0, a0x);
        lemma_neg_mul(rw1, a1x);
        lemma_neg_mul(rw2, a2x);
        lemma_neg_mul(rw0, a0y);
        lemma_neg_mul(rw1, a1y);
        lemma_neg_mul(rw2, a2y);
        lemma_neg_mul(px, rarea);
        lemma_neg_mul(py, rarea);
    }
    assert(w0 + w1 + w2 == area);
    assert(area > 0);
    assert(w0 >= 0 && w1 >= 0 && w2 >= 0);
    assert(w0 * a0x + w1 * a1x + w2 * a2x == px * area);
    assert(w0 * a0y + w1 * a1y + w2 * a2y == py * area);
    if horizontal {
        let mn = min3(a0x, a1x, a2x);
        let mx = max3(a0x, a1x, a2x);
        lemma_weighted_sum_bound(w0, w1, w2, a0x - mn, a1x - mn, a2x - mn, 2 * (SCREEN_MAX as int));
        assert(w0 * (a0x - mn) + w1 * (a1x - mn) + w2 * (a2x - mn) >= 0) by (nonlinear_arith)
            requires
                w0 >= 0 && w1 >= 0 && w2 >= 0 && a0x - mn >= 0 && a1x - mn >= 0 && a2x - mn >= 0,
        ;
        assert(w0 * (a0x - mn) == w0 * a0x - w0 * mn && w1 * (a1x - mn) == w1 * a1x - w1 * mn && w2
            * (a2x - mn) == w2 * a2x - w2 * mn) by (nonlinear_arith);
        assert((w0 + w1 + w2) * mn == w0 * mn + w1 * mn + w2 * mn) by (nonlinear_arith);
        assert(px * area >= area * mn) by {
            assert(w0 * a0x + w1 * a1x + w2 * a2x >= (w0 + w1 + w2) * mn);
            assert((w0 + w1 + w2) * mn == area * mn);
        }
        assert(mn * area <= px * area) by (nonlinear_arith)
            requires
                px * area >= area * mn,
        ;
        lemma_cancel_factor(mn, px, area);
        assert(w0 * (mx - a0x) + w1 * (mx - a1x) + w2 * (mx - a2x) >= 0) by (nonlinear_arith)
            requires
                w0 >= 0 && w1 >= 0 && w2 >= 0 && mx - a0x >= 0 && mx - a1x >= 0 && mx - a2x >= 0,
        ;
        assert(w0 * (mx - a0x) == w0 * mx - w0 * a0x && w1 * (mx - a1x) == w1 * mx - w1 * a1x && w2
            * (mx - a2x) == w2 * mx - w2 * a2x) by (nonlinear_arith);
        assert((w0 + w1 + w2) * mx == w0 * mx + w1 * mx + w2 * mx) by (nonlinear_arith);
        assert(px * area <= area * mx) by {
            assert(w0 * a0x + w1 * a1x + w2 * a2x <= (w0 + w1 + w2) * mx);
            assert((w0 + w1 + w2) * mx == area * mx);
        }
        assert(px * area <= mx * area) by (nonlinear_arith)
            requires
                px * area <= area * mx,
        ;
        lemma_cancel_factor(px, mx, area);
        // mn <= px <= mx; now relate the pixel index to the clamped bounds.
        lemma_fundamental_div_mod(mn, SCALE as int);
        lemma_fundamental_div_mod(mx + SCALE - 1, SCALE as int);
        assert(lo <= x && x <= hi);
    } else {
        let mn = min3(a0y, a1y, a2y);
        let mx = max3(a0y, a1y, a2y);
        lemma_weighted_sum_bound(w0, w1, w2, a0y - mn, a1y - mn, a2y - mn, 2 * (SCREEN_MAX as int));
        assert(w0 * (a0y - mn) + w1 * (a1y - mn) + w2 * (a2y - mn) >= 0) by (nonlinear_arith)
            requires
                w0 >= 0 && w1 >= 0 && w2 >= 0 && a0y - mn >= 0 && a1y - mn >= 0 && a2y - mn >= 0,
        ;
        assert(w0 * (a0y - mn) == w0 * a0y - w0 * mn && w1 * (a1y - mn) == w1 * a1y - w1 * mn && w2
            * (a2y - mn) == w2 * a2y - w2 * mn) by (nonlinear_arith);
        assert((w0 + w1 + w2) * mn == w0 * mn + w1 * mn + w2 * mn) by (nonlinear_arith);
        assert(py * area >= area * mn) by {
            assert(w0 * a0y + w1 * a1y + w2 * a2y >= (w0 + w1 + w2) * mn);
            assert((w0 + w1 + w2) * mn == area * mn);
        }
        assert(mn * area <= py * area) by (nonlinear_arith)
            requires
                py * area >= area * mn,
        ;
        lemma_cancel_factor(mn, py, area);
        assert(w0 * (mx - a0y) + w1 * (mx - a1y) + w2 * (mx - a2y) >= 0) by (nonlinear_arith)
            requires
                w0 >= 0 && w1 >= 0 && w2 >= 0 && mx - a0y >= 0 && mx - a1y >= 0 && mx - a2y >= 0,
        ;
        assert(w0 * (mx - a0y) == w0 * mx - w0 * a0y && w1 * (mx - a1y) == w1 * mx - w1 * a1y && w2
            * (mx - a2y) == w2 * mx - w2 * a2y) by (nonlinear_arith);
        assert((w0 + w1 + w2) * mx == w0 * mx + w1 * mx + w2 * mx) by (nonlinear_arith);
        assert(py * area <= area * mx) by {
            assert(w0 * a0y + w1 * a1y + w2 * a2y <= (w0 + w1 + w2) * mx);
            assert((w0 + w1 + w2) * mx == area * mx);
        }
        assert(py * area <= mx * area) by (nonlinear_arith)
            requires
                py * area <= area * mx,
        ;
        lemma_cancel_factor(py, mx, area);
        lemma_fundamental_div_mod(mn, SCALE as int);
        lemma_fundamental_div_mod(mx + SCALE - 1, SCALE as int);
        assert(lo <= y && y <= hi);
    }
}

/// Smallest of three mathematical integers.
pub open spec fn min3(a: int, b: int, c: int) -> int {
    if a <= b && a <= c {
        a
    } else if b <= c {
        b
    } else {
        c
    }
}

/// Largest of three mathematical integers.
pub open spec fn max3(a: int, b: int, c: int) -> int {
    if a >= b && a >= c {
        a
    } else if b >= c {
        b
    } else {
        c
    }
}

/// Smaller of three fixed-point coordinates.
fn min3_i64(a: i64, b: i64, c: i64) -> (r: i64)
    ensures
        r == min3(a as int, b as int, c as int),
{
    if a <= b && a <= c {
        a
    } else if b <= c {
        b
    } else {
        c
    }
}

/// Larger of three fixed-point coordinates.
fn max3_i64(a: i64, b: i64, c: i64) -> (r: i64)
    ensures
        r == max3(a as int, b as int, c as int),
{
    if a >= b && a >= c {
        a
    } else if b >= c {
        b
    } else {
        c
    }
}

/// Floor division of a coordinate by the scale (round toward negative
/// infinity, the mathematical `/` of specifications).
fn floor_div_scale(a: i64) -> (r: i64)
    requires
        -2 * (SCREEN_MAX as int) <= a <= 2 * (SCREEN_MAX as int),
    ensures
        r == a as int / (SCALE as int),
        -0x40_0000 <= r <= 0x40_0000,
{
    proof {
        lemma_div_is_ordered(a as int, 0x200_0000_0000, SCALE as int);
        lemma_div_is_ordered(-0x200_0000_0000, a as int, SCALE as int);
        lemma_fundamental_div_mod_converse(0x200_0000_0000, SCALE as int, 2199023, 255552);
        lemma_fundamental_div_mod_converse(-0x200_0000_0000, SCALE as int, -2199024, 744448);
    }
    if a >= 0 {
        ((a as u64) / (SCALE as u64)) as i64
    } else {
        let m = (-a) as u64;
        let q = m / (SCALE as u64);
        let rem = m % (SCALE as u64);
        proof {
            lemma_fundamental_div_mod(m as int, SCALE as int);
            if rem == 0 {
                lemma_fundamental_div_mod_converse(a as int, SCALE as int, -(q as int), 0);
            } else {
                lemma_fundamental_div_mod_converse(
                    a as int,
                    SCALE as int,
                    -(q as int) - 1,
                    SCALE - rem,
                );
            }
        }
        if rem == 0 {
            -(q as i64)
        } else {
            -(q as i64) - 1
        }
    }
}


/// The depth a cell holds after the triangle pass visits it.
pub open spec fn cell_depth_after(old_z: i64, v0: Vertex, v1: Vertex, v2: Vertex, x: int, y: int) -> i64 {
    if covers(v0, v1, v2, x, y) && depth_at(v0, v1, v2, x, y) < old_z {
        depth_at(v0, v1, v2, x, y) as i64
    } else {
        old_z
    }
}

/// The byte a pixel channel holds after the triangle pass visits it.
pub open spec fn cell_chan_after(
    old_byte: u8,
    old_z: i64,
    v0: Vertex,
    v1: Vertex,
    v2: Vertex,
    light: Vec3,
    tex: Option<Texture>,
    base: Rgba,
    x: int,
    y: int,
    k: int,
) -> u8 {
    if covers(v0, v1, v2, x, y) && depth_at(v0, v1, v2, x, y) < old_z {
        chan_of(shaded_at(v0, v1, v2, light, tex, base, x, y), k) as u8
    } else {
        old_byte
    }
}

/// Tests one pixel of the bounding box against the triangle, and shades
/// and writes it when it passes the coverage and depth tests.
fn raster_pixel(
    v0: &Vertex,
    v1: &Vertex,
    v2: &Vertex,
    area: i128,
    x: usize,
    y: usize,
    pixel_data: &mut Vec<u8>,
    z_buffer: &mut Vec<i64>,
    width: usize,
    light: &Vec3,
    texture: Option<&Texture>,
    base_color: Rgba,
)
    requires
        vertex_valid(*v0),
        vertex_valid(*v1),
        vertex_valid(*v2),
        vec3_bounded(*light, WORLD_MAX as int),
        opt_texture_valid(texture),
        area == tri_area(*v0, *v1, *v2),
        area != 0,
        x < width,
        width <= MAX_DIM,
        y < MAX_DIM,
        y * width + x < old(z_buffer)@.len(),
        old(pixel_data)@.len() == old(z_buffer)@.len() * 4,
    ensures
        final(z_buffer)@.len() == old(z_buffer)@.len(),
        final(pixel_data)@.len() == old(pixel_data)@.len(),
        forall|j: int|
            0 <= j < old(z_buffer)@.len() && j != y * width + x ==> final(z_buffer)@[j] == old(
                z_buffer,
            )@[j],
        forall|b: int|
            0 <= b < old(pixel_data)@.len() && !((y * width + x) * 4 <= b < (y * width + x) * 4
                + 4) ==> final(pixel_data)@[b] == old(pixel_data)@[b],
        final(z_buffer)@[y * width + x] == cell_depth_after(
            old(z_buffer)@[y * width + x],
            *v0,
            *v1,
            *v2,
            x as int,
            y as int,
        ),
        forall|k: int|
            0 <= k < 4 ==> #[trigger] final(pixel_data)@[(y * width + x) * 4 + k] == cell_chan_after(
                old(pixel_data)@[(y * width + x) * 4 + k],
                old(z_buffer)@[y * width + x],
                *v0,
                *v1,
                *v2,
                *light,
                deref_texture(texture),
                base_color,
                x as int,
                y as int,
                k,
            ),
{
    let px: i64 = (x as i64) * SCALE + HALF_SCALE;
    let py: i64 = (y as i64) * SCALE + HALF_SCALE;
    let p = Vec2 { x: px, y: py };
    let w0 = edge_function(&v1.screen_position, &v2.screen_position, &p);
    let w1 = edge_function(&v2.screen_position, &v0.screen_position, &p);
    let w2 = edge_function(&v0.screen_position, &v1.screen_position, &p);
    let zlen = z_buffer.len();
    let idx: usize = y * width + x;
    let covered = if area > 0 {
        w0 >= 0 && w1 >= 0 && w2 >= 0
    } else {
        w0 <= 0 && w1 <= 0 && w2 <= 0
    };
    if covered {
        proof {
            lemma_barycentric_weights_sum(
                v0.screen_position.x as int,
                v0.screen_position.y as int,
                v1.screen_position.x as int,
                v1.screen_position.y as int,
                v2.screen_position.x as int,
                v2.screen_position.y as int,
                px as int,
                py as int,
            );
            assert(w0 + w1 + w2 == area);
            assert(covers(*v0, *v1, *v2, x as int, y as int));
        }
        let m0: i128 = if area > 0 {
            w0
        } else {
            -w0
        };
        let m1: i128 = if area > 0 {
            w1
        } else {
            -w1
        };
        let m2: i128 = if area > 0 {
            w2
        } else {
            -w2
        };
        let mag: i128 = if area > 0 {
            area
        } else {
            -area
        };
        proof {
            assert(m0 == oweight0(*v0, *v1, *v2, x as int, y as int));
            assert(m1 == oweight1(*v0, *v1, *v2, x as int, y as int));
            assert(m2 == oweight2(*v0, *v1, *v2, x as int, y as int));
            assert(mag == area_mag(*v0, *v1, *v2));
        }
        let pz = interp_attr(m0, m1, m2, mag, v0.position.z, v1.position.z, v2.position.z);
        assert(pz == depth_at(*v0, *v1, *v2, x as int, y as int));
        if pz < z_buffer[idx] {
            z_buffer.set(idx, pz);
            let nx = interp_attr(m0, m1, m2, mag, v0.normal.x, v1.normal.x, v2.normal.x);
            let ny = interp_attr(m0, m1, m2, mag, v0.normal.y, v1.normal.y, v2.normal.y);
            let nz = interp_attr(m0, m1, m2, mag, v0.normal.z, v1.normal.z, v2.normal.z);
            let wx = interp_attr(m0, m1, m2, mag, v0.position.x, v1.position.x, v2.position.x);
            let wy = interp_attr(m0, m1, m2, mag, v0.position.y, v1.position.y, v2.position.y);
            let wz = pz;
            let u = interp_attr(m0, m1, m2, mag, v0.uv.x, v1.uv.x, v2.uv.x);
            let vv = interp_attr(m0, m1, m2, mag, v0.uv.y, v1.uv.y, v2.uv.y);
            let normal = crate::math::normalize_parts(nx as i128, ny as i128, nz as i128);
            let pos = Vec3 { x: wx, y: wy, z: wz };
            let intensity = crate::math::calculate_light_intensity(&normal, &pos, light);
            proof {
                assert((normal.x as int, normal.y as int, normal.z as int) == normal_at(
                    *v0,
                    *v1,
                    *v2,
                    x as int,
                    y as int,
                ));
                assert((pos.x as int, pos.y as int, pos.z as int) == point_at(
                    *v0,
                    *v1,
                    *v2,
                    x as int,
                    y as int,
                ));
                assert(intensity_spec(normal, pos, *light) == pixel_intensity(
                    *v0,
                    *v1,
                    *v2,
                    *light,
                    x as int,
                    y as int,
                ));
            }
            proof {
                assert((u as int, vv as int) == uv_at(*v0, *v1, *v2, x as int, y as int));
            }
            let surface: Rgba = match texture {
                Some(t) => sample_blend(t, base_color, u, vv),
                None => base_color,
            };
            proof {
                let uv = uv_at(*v0, *v1, *v2, x as int, y as int);
                assert(surface.r == surface_chan(deref_texture(texture), base_color, uv.0, uv.1, 0)
                    && surface.g == surface_chan(deref_texture(texture), base_color, uv.0, uv.1, 1)
                    && surface.b == surface_chan(
                    deref_texture(texture),
                    base_color,
                    uv.0,
                    uv.1,
                    2,
                ));
            }
            let shaded = crate::math::apply_lighting(surface, intensity);
            let plen = pixel_data.len();
            assert(idx * 4 + 3 < plen);
            pixel_data.set(idx * 4, shaded.r);
            pixel_data.set(idx * 4 + 1, shaded.g);
            pixel_data.set(idx * 4 + 2, shaded.b);
            pixel_data.set(idx * 4 + 3, shaded.a);
            proof {
                let sh = shaded_at(
                    *v0,
                    *v1,
                    *v2,
                    *light,
                    deref_texture(texture),
                    base_color,
                    x as int,
                    y as int,
                );
                assert(chan_of(sh, 0) == shaded.r && chan_of(sh, 1) == shaded.g && chan_of(sh, 2)
                    == shaded.b && chan_of(sh, 3) == shaded.a);
            }
        } else {
            proof {
                assert(!(depth_at(*v0, *v1, *v2, x as int, y as int) < old(z_buffer)@[idx as int]));
            }
        }
    } else {
        proof {
            assert(!covers(*v0, *v1, *v2, x as int, y as int));
        }
    }
}


/// A row-major pixel index decomposes into its column and row.
pub(crate) proof fn lemma_grid_index(i: int, w: int, h: int)
    requires
        w > 0,
        h > 0,
        0 <= i < w * h,
    ensures
        0 <= i % w < w,
        0 <= i / w < h,
        i == (i / w) * w + i % w,
{
    vstd::arithmetic::div_mod::lemma_fundamental_div_mod(i, w);
    vstd::arithmetic::div_mod::lemma_mod_division_less_than_divisor(i, w);
    vstd::arithmetic::mul::lemma_mul_is_commutative(w, i / w);
    vstd::arithmetic::mul::lemma_mul_is_commutative(w, h);
    let q = i / w;
    if q < 0 {
        lemma_mul_inequality(q, -1, w);
        assert(false);
    }
    if q >= h {
        lemma_mul_inequality(h, q, w);
        assert(false);
    }
}

/// A column and a row make a row-major index inside the grid, and the
/// index decomposes back into them.
pub(crate) proof fn lemma_row_major(x: int, y: int, w: int, h: int)
    requires
        0 <= x < w,
        0 <= y < h,
    ensures
        0 <= y * w + x < w * h,
        (y * w + x) % w == x,
        (y * w + x) / w == y,
{
    assert(0 <= y * w + x && y * w + x < w * h) by (nonlinear_arith)
        requires
            0 <= x < w && 0 <= y < h,
    ;
    vstd::arithmetic::div_mod::lemma_fundamental_div_mod_converse(y * w + x, w, y, x);
}

/// Draws a triangle with per-pixel lighting: scan-converts the triangle's
/// clamped screen bounding box, and at every pixel whose center the
/// triangle covers and whose interpolated depth beats the depth buffer,
/// writes that depth and the shaded base color. The contract gives every
/// buffer cell's exact final value.
#[verifier::loop_isolation(false)]
pub fn draw_triangle(
    v0: &Vertex,
    v1: &Vertex,
    v2: &Vertex,
    pixel_data: &mut Vec<u8>,
    z_buffer: &mut Vec<i64>,
    width: usize,
    height: usize,
    light_pos_world: &Vec3,
    texture: Option<&Texture>,
    base_color: Rgba,
)
    requires
        vertex_valid(*v0),
        vertex_valid(*v1),
        vertex_valid(*v2),
        vec3_bounded(*light_pos_world, WORLD_MAX as int),
        opt_texture_valid(texture),
        1 <= width <= MAX_DIM,
        1 <= height <= MAX_DIM,
        old(z_buffer)@.len() == width * height,
        old(pixel_data)@.len() == width * height * 4,
    ensures
        final(z_buffer)@ == tri_pass_depth(old(z_buffer)@, *v0, *v1, *v2, width as int),
        final(pixel_data)@ == tri_pass_pixels(
            old(pixel_data)@,
            old(z_buffer)@,
            *v0,
            *v1,
            *v2,
            *light_pos_world,
            deref_texture(texture),
            base_color,
            width as int,
        ),
{
    let ghost z0 = z_buffer@;
    let ghost p0 = pixel_data@;
    let ghost wi = width as int;
    let ghost hi = height as int;
    let area = edge_function(&v0.screen_position, &v1.screen_position, &v2.screen_position);
    if area == 0 {
        proof {
            assert forall|j: int| 0 <= j < z0.len() implies tri_pass_depth(
                z0,
                *v0,
                *v1,
                *v2,
                wi,
            )[j] == z0[j] by {
                assert(!covers(*v0, *v1, *v2, j % wi, j / wi));
            }
            assert(tri_pass_depth(z0, *v0, *v1, *v2, wi) =~= z0);
            assert forall|b: int| 0 <= b < p0.len() implies tri_pass_pixels(
                p0,
                z0,
                *v0,
                *v1,
                *v2,
                *light_pos_world,
                deref_texture(texture),
                base_color,
                wi,
            )[b] == p0[b] by {
                assert(!covers(*v0, *v1, *v2, (b / 4) % wi, (b / 4) / wi));
            }
            assert(tri_pass_pixels(
                p0,
                z0,
                *v0,
                *v1,
                *v2,
                *light_pos_world,
                deref_texture(texture),
                base_color,
                wi,
            ) =~= p0);
        }
        return ;
    }
    let min_sx = min3_i64(v0.screen_position.x, v1.screen_position.x, v2.screen_position.x);
    let max_sx = max3_i64(v0.screen_position.x, v1.screen_position.x, v2.screen_position.x);
    let min_sy = min3_i64(v0.screen_position.y, v1.screen_position.y, v2.screen_position.y);
    let max_sy = max3_i64(v0.screen_position.y, v1.screen_position.y, v2.screen_position.y);
    let lo_x_raw = floor_div_scale(min_sx);
    let hi_x_raw = floor_div_scale(max_sx + (SCALE - 1));
    let lo_y_raw = floor_div_scale(min_sy);
    let hi_y_raw = floor_div_scale(max_sy + (SCALE - 1));
    let lo_x: i64 = if lo_x_raw < 0 {
        0
    } else {
        lo_x_raw
    };
    let hi_x: i64 = if hi_x_raw > (width - 1) as i64 {
        (width - 1) as i64
    } else {
        hi_x_raw
    };
    let lo_y: i64 = if lo_y_raw < 0 {
        0
    } else {
        lo_y_raw
    };
    let hi_y: i64 = if hi_y_raw > (height - 1) as i64 {
        (height - 1) as i64
    } else {
        hi_y_raw
    };
    if lo_x > hi_x || lo_y > hi_y {
        proof {
            assert forall|j: int| 0 <= j < z0.len() implies tri_pass_depth(
                z0,
                *v0,
                *v1,
                *v2,
                wi,
            )[j] == z0[j] by {
                lemma_grid_index(j, wi, hi);
                if covers(*v0, *v1, *v2, j % wi, j / wi) {
                    lemma_covered_in_bbox(
                        *v0,
                        *v1,
                        *v2,
                        j % wi,
                        j / wi,
                        lo_x_raw as int,
                        hi_x_raw as int,
                        true,
                    );
                    lemma_covered_in_bbox(
                        *v0,
                        *v1,
                        *v2,
                        j % wi,
                        j / wi,
                        lo_y_raw as int,
                        hi_y_raw as int,
                        false,
                    );
                    assert(false);
                }
            }
            assert(tri_pass_depth(z0, *v0, *v1, *v2, wi) =~= z0);
            assert forall|b: int| 0 <= b < p0.len() implies tri_pass_pixels(
                p0,
                z0,
                *v0,
                *v1,
                *v2,
                *light_pos_world,
                deref_texture(texture),
                base_color,
                wi,
            )[b] == p0[b] by {
                lemma_grid_index(b / 4, wi, hi);
                if covers(*v0, *v1, *v2, (b / 4) % wi, (b / 4) / wi) {
                    lemma_covered_in_bbox(
                        *v0,
                        *v1,
                        *v2,
                        (b / 4) % wi,
                        (b / 4) / wi,
                        lo_x_raw as int,
                        hi_x_raw as int,
                        true,
                    );
                    lemma_covered_in_bbox(
                        *v0,
                        *v1,
                        *v2,
                        (b / 4) % wi,
                        (b / 4) / wi,
                        lo_y_raw as int,
                        hi_y_raw as int,
                        false,
                    );
                    assert(false);
                }
            }
            assert(tri_pass_pixels(
                p0,
                z0,
                *v0,
                *v1,
                *v2,
                *light_pos_world,
                deref_texture(texture),
                base_color,
                wi,
            ) =~= p0);
        }
        return ;
    }
    let lo_xu: usize = lo_x as usize;
    let hi_xu: usize = hi_x as usize;
    let lo_yu: usize = lo_y as usize;
    let hi_yu: usize = hi_y as usize;
    let mut yy: usize = lo_yu;
    while yy <= hi_yu
        invariant
            lo_yu <= yy <= hi_yu + 1,
            z_buffer@.len() == z0.len(),
            pixel_data@.len() == p0.len(),
            forall|j: int|
                0 <= j < z0.len() ==> #[trigger] z_buffer@[j] == (if lo_x <= j % wi <= hi_x && lo_y
                    <= j / wi < yy {
                    cell_depth_after(z0[j], *v0, *v1, *v2, j % wi, j / wi)
                } else {
                    z0[j]
                }),
            forall|b: int|
                0 <= b < p0.len() ==> #[trigger] pixel_data@[b] == (if lo_x <= (b / 4) % wi <= hi_x
                    && lo_y <= (b / 4) / wi < yy {
                    cell_chan_after(
                        p0[b],
                        z0[b / 4],
                        *v0,
                        *v1,
                        *v2,
                        *light_pos_world,
                        deref_texture(texture),
                        base_color,
                        (b / 4) % wi,
                        (b / 4) / wi,
                        b % 4,
                    )
                } else {
                    p0[b]
                }),
        decreases hi_yu + 1 - yy,
    {
        let mut xx: usize = lo_xu;
        while xx <= hi_xu
            invariant
                lo_yu <= yy <= hi_yu,
                lo_xu <= xx <= hi_xu + 1,
                z_buffer@.len() == z0.len(),
                pixel_data@.len() == p0.len(),
                forall|j: int|
                    0 <= j < z0.len() ==> #[trigger] z_buffer@[j] == (if (lo_x <= j % wi <= hi_x
                        && lo_y <= j / wi < yy) || (j / wi == yy && lo_x <= j % wi < xx) {
                        cell_depth_after(z0[j], *v0, *v1, *v2, j % wi, j / wi)
                    } else {
                        z0[j]
                    }),
                forall|b: int|
                    0 <= b < p0.len() ==> #[trigger] pixel_data@[b] == (if (lo_x <= (b / 4) % wi
                        <= hi_x && lo_y <= (b / 4) / wi < yy) || ((b / 4) / wi == yy && lo_x <= (b
                        / 4) % wi < xx) {
                        cell_chan_after(
                            p0[b],
                            z0[b / 4],
                            *v0,
                            *v1,
                            *v2,
                            *light_pos_world,
                            deref_texture(texture),
                            base_color,
                            (b / 4) % wi,
                            (b / 4) / wi,
                            b % 4,
                        )
                    } else {
                        p0[b]
                    }),
            decreases hi_xu + 1 - xx,
        {
            proof {
                lemma_row_major(xx as int, yy as int, wi, hi);
            }
            let ghost idx = (yy * width + xx) as int;
            let ghost zpre = z_buffer@;
            let ghost ppre = pixel_data@;
            raster_pixel(
                v0,
                v1,
                v2,
                area,
                xx,
                yy,
                pixel_data,
                z_buffer,
                width,
                light_pos_world,
                texture,
                base_color,
            );
            proof {
                assert(zpre[idx] == z0[idx]);
                assert(ppre[4 * idx] == p0[4 * idx] && ppre[4 * idx + 1] == p0[4 * idx + 1] && ppre[
                4 * idx + 2] == p0[4 * idx + 2] && ppre[4 * idx + 3] == p0[4 * idx + 3]);
                assert forall|j: int|
                    0 <= j < z0.len() implies #[trigger] z_buffer@[j] == (if (lo_x <= j % wi <= hi_x
                    && lo_y <= j / wi < yy) || (j / wi == yy && lo_x <= j % wi < xx + 1) {
                    cell_depth_after(z0[j], *v0, *v1, *v2, j % wi, j / wi)
                } else {
                    z0[j]
                }) by {
                    lemma_grid_index(j, wi, hi);
                    if j == idx {
                        assert(j % wi == xx as int && j / wi == yy as int);
                    } else {
                        assert(!(j % wi == xx as int && j / wi == yy as int));
                    }
                }
                assert forall|b: int|
                    0 <= b < p0.len() implies #[trigger] pixel_data@[b] == (if (lo_x <= (b / 4) % wi
                    <= hi_x && lo_y <= (b / 4) / wi < yy) || ((b / 4) / wi == yy && lo_x <= (b / 4)
                    % wi < xx + 1) {
                    cell_chan_after(
                        p0[b],
                        z0[b / 4],
                        *v0,
                        *v1,
                        *v2,
                        *light_pos_world,
                        deref_texture(texture),
                        base_color,
                        (b / 4) % wi,
                        (b / 4) / wi,
                        b % 4,
                    )
                } else {
                    p0[b]
                }) by {
                    vstd::arithmetic::div_mod::lemma_fundamental_div_mod(b, 4);
                    vstd::arithmetic::div_mod::lemma_mod_division_less_than_divisor(b, 4);
                    let pi = b / 4;
                    lemma_grid_index(pi, wi, hi);
                    if pi == idx {
                        assert(idx * 4 <= b < idx * 4 + 4);
                        assert(b == idx * 4 + (b % 4));
                        assert(pi % wi == xx as int && pi / wi == yy as int);
                    } else {
                        assert(!(idx * 4 <= b < idx * 4 + 4)) by (nonlinear_arith)
                            requires
                                pi == b / 4 && pi != idx && b == 4 * pi + b % 4 && 0 <= b % 4 < 4,
                        ;
                        assert(!(pi % wi == xx as int && pi / wi == yy as int));
                    }
                }
            }
            xx = xx + 1;
        }
        yy = yy + 1;
    }
    proof {
        assert forall|j: int| 0 <= j < z0.len() implies tri_pass_depth(z0, *v0, *v1, *v2, wi)[j]
            == z_buffer@[j] by {
            lemma_grid_index(j, wi, hi);
            if !(lo_x <= j % wi <= hi_x && lo_y <= j / wi < yy) {
                if covers(*v0, *v1, *v2, j % wi, j / wi) {
                    lemma_covered_in_bbox(
                        *v0,
                        *v1,
                        *v2,
                        j % wi,
                        j / wi,
                        lo_x_raw as int,
                        hi_x_raw as int,
                        true,
                    );
                    lemma_covered_in_bbox(
                        *v0,
                        *v1,
                        *v2,
                        j % wi,
                        j / wi,
                        lo_y_raw as int,
                        hi_y_raw as int,
                        false,
                    );
                    assert(false);
                }
            }
        }
        assert(tri_pass_depth(z0, *v0, *v1, *v2, wi) =~= z_buffer@);
        assert forall|b: int| 0 <= b < p0.len() implies tri_pass_pixels(
            p0,
            z0,
            *v0,
            *v1,
            *v2,
            *light_pos_world,
            deref_texture(texture),
            base_color,
            wi,
        )[b] == pixel_data@[b] by {
            vstd::arithmetic::div_mod::lemma_fundamental_div_mod(b, 4);
            vstd::arithmetic::div_mod::lemma_mod_division_less_than_divisor(b, 4);
            let pi = b / 4;
            lemma_grid_index(pi, wi, hi);
            if !(lo_x <= pi % wi <= hi_x && lo_y <= pi / wi < yy) {
                if covers(*v0, *v1, *v2, pi % wi, pi / wi) {
                    lemma_covered_in_bbox(
                        *v0,
                        *v1,
                        *v2,
                        pi % wi,
                        pi / wi,
                        lo_x_raw as int,
                        hi_x_raw as int,
                        true,
                    );
                    lemma_covered_in_bbox(
                        *v0,
                        *v1,
                        *v2,
                        pi % wi,
                        pi / wi,
                        lo_y_raw as int,
                        hi_y_raw as int,
                        false,
                    );
                    assert(false);
                }
            }
        }
        assert(tri_pass_pixels(
            p0,
            z0,
            *v0,
            *v1,
            *v2,
            *light_pos_world,
            deref_texture(texture),
            base_color,
            wi,
        ) =~= pixel_data@);
    }
}


/// One rgba channel of a color.
pub open spec fn rgba_chan(c: Rgba, k: int) -> u8 {
    if k == 0 {
        c.r
    } else if k == 1 {
        c.g
    } else if k == 2 {
        c.b
    } else {
        c.a
    }
}

/// The nearest pixel index to a fixed-point coordinate: half a pixel
/// rounds away from zero, as the driver's floating-point rounding did.
pub open spec fn round_to_px(c: int) -> int {
    if c >= 0 {
        (c + HALF_SCALE) / (SCALE as int)
    } else {
        -(((-c) + HALF_SCALE) / (SCALE as int))
    }
}

/// Whether a pixel lies in the viewport.
pub open spec fn px_in_bounds(x: int, y: int, w: int, h: int) -> bool {
    0 <= x < w && 0 <= y < h
}

/// One step of Bresenham's error-accumulator walk: the next pixel and
/// error term from the current ones.
pub open spec fn bres_next(cx: int, cy: int, dx: int, dy: int, sx: int, sy: int, err: int) -> (
    int,
    int,
    int,
) {
    let e2 = 2 * err;
    (
        if e2 >= dy {
            cx + sx
        } else {
            cx
        },
        if e2 <= dx {
            cy + sy
        } else {
            cy
        },
        err + (if e2 >= dy {
            dy
        } else {
            0
        }) + (if e2 <= dx {
            dx
        } else {
            0
        }),
    )
}

/// The pixels Bresenham's walk visits from a state until it reaches the
/// endpoint. The fuel bounds the recursion; the public `line_trace`
/// supplies enough of it to always reach the endpoint.
pub open spec fn bres_trace(
    cx: int,
    cy: int,
    x1: int,
    y1: int,
    dx: int,
    dy: int,
    sx: int,
    sy: int,
    err: int,
    fuel: nat,
) -> Seq<(int, int)>
    decreases fuel,
{
    if fuel == 0 {
        seq![]
    } else if cx == x1 && cy == y1 {
        seq![(cx, cy)]
    } else {
        let n = bres_next(cx, cy, dx, dy, sx, sy, err);
        seq![(cx, cy)] + bres_trace(n.0, n.1, x1, y1, dx, dy, sx, sy, n.2, (fuel - 1) as nat)
    }
}

/// The exact pixel sequence of the line between two fixed-point screen
/// points: Bresenham's walk over the rounded endpoints.
pub open spec fn line_trace(x0: int, y0: int, x1: int, y1: int) -> Seq<(int, int)> {
    let rx0 = round_to_px(x0);
    let ry0 = round_to_px(y0);
    let rx1 = round_to_px(x1);
    let ry1 = round_to_px(y1);
    let dx = if rx1 >= rx0 {
        rx1 - rx0
    } else {
        rx0 - rx1
    };
    let ady = if ry1 >= ry0 {
        ry1 - ry0
    } else {
        ry0 - ry1
    };
    let sx: int = if rx0 < rx1 {
        1
    } else {
        -1
    };
    let sy: int = if ry0 < ry1 {
        1
    } else {
        -1
    };
    bres_trace(rx0, ry0, rx1, ry1, dx, -ady, sx, sy, dx - ady, (dx + ady + 1) as nat)
}

/// Whether a pixel appears among the first `m` entries of a trace.
pub open spec fn on_trace_prefix(tr: Seq<(int, int)>, m: int, x: int, y: int) -> bool {
    exists|t: int| 0 <= t < m && t < tr.len() && tr[t] == (x, y)
}

/// Whether a pixel lies on a trace.
pub open spec fn on_trace(tr: Seq<(int, int)>, x: int, y: int) -> bool {
    on_trace_prefix(tr, tr.len() as int, x, y)
}

/// The byte a pixel channel holds once the first `m` pixels of a line
/// trace have been painted over a buffer.
pub open spec fn painted_byte(
    p0: Seq<u8>,
    tr: Seq<(int, int)>,
    m: int,
    color: Rgba,
    w: int,
    h: int,
    b: int,
) -> u8 {
    let x = (b / 4) % w;
    let y = (b / 4) / w;
    if on_trace_prefix(tr, m, x, y) && px_in_bounds(x, y, w, h) {
        rgba_chan(color, b % 4)
    } else {
        p0[b]
    }
}

/// The pixel buffer after one line pass: every viewport pixel on the
/// line's Bresenham trace takes the line color, and every other byte is
/// untouched. Wireframe lines carry no depth test.
pub open spec fn line_pass(
    pixels: Seq<u8>,
    x0: int,
    y0: int,
    x1: int,
    y1: int,
    color: Rgba,
    w: int,
    h: int,
) -> Seq<u8> {
    Seq::new(pixels.len(), |b: int| painted_byte(pixels, line_trace(x0, y0, x1, y1), line_trace(x0, y0, x1, y1).len() as int, color, w, h, b))
}

/// Rounds one fixed-point coordinate to its nearest pixel.
fn round_px(c: i64) -> (r: i64)
    requires
        -SCREEN_MAX <= c <= SCREEN_MAX,
    ensures
        r == round_to_px(c as int),
        -0x40_0000 <= r <= 0x40_0000,
{
    proof {
        lemma_fundamental_div_mod_converse(
            0x100_0000_0000int + 500_000,
            SCALE as int,
            1_099_512,
            127_776,
        );
    }
    if c >= 0 {
        proof {
            lemma_div_is_ordered(c + HALF_SCALE, 0x100_0000_0000int + 500_000, SCALE as int);
            lemma_div_is_ordered(0, c + HALF_SCALE, SCALE as int);
            vstd::arithmetic::div_mod::lemma_div_of0(SCALE as int);
        }
        (((c + HALF_SCALE) as u64) / (SCALE as u64)) as i64
    } else {
        proof {
            lemma_div_is_ordered(-(c as int) + HALF_SCALE, 0x100_0000_0000int + 500_000, SCALE as int);
            lemma_div_is_ordered(0, -(c as int) + HALF_SCALE, SCALE as int);
            vstd::arithmetic::div_mod::lemma_div_of0(SCALE as int);
        }
        -((((-c + HALF_SCALE) as u64) / (SCALE as u64)) as i64)
    }
}

/// Paints one pixel of a line if it lies in the viewport; out-of-bounds
/// steps are skipped.
fn paint_pixel(
    pixel_data: &mut Vec<u8>,
    cx: i64,
    cy: i64,
    width: usize,
    height: usize,
    color: Rgba,
)
    requires
        1 <= width <= MAX_DIM,
        1 <= height <= MAX_DIM,
        old(pixel_data)@.len() == width * height * 4,
        -0x80_0000 <= cx <= 0x80_0000,
        -0x80_0000 <= cy <= 0x80_0000,
    ensures
        final(pixel_data)@.len() == old(pixel_data)@.len(),
        px_in_bounds(cx as int, cy as int, width as int, height as int) ==> forall|k: int|
            0 <= k < 4 ==> #[trigger] final(pixel_data)@[(cy * width + cx) * 4 + k] == rgba_chan(
                color,
                k,
            ),
        forall|b: int|
            0 <= b < old(pixel_data)@.len() && !(px_in_bounds(
                cx as int,
                cy as int,
                width as int,
                height as int,
            ) && (cy * width + cx) * 4 <= b < (cy * width + cx) * 4 + 4) ==> final(pixel_data)@[b]
                == old(pixel_data)@[b],
{
    if cx >= 0 && cx < width as i64 && cy >= 0 && cy < height as i64 {
        proof {
            lemma_row_major(cx as int, cy as int, width as int, height as int);
            assert((width as int) * (height as int) <= 0x100_0000_0000) by (nonlinear_arith)
                requires
                    width <= 0x10_0000 && height <= 0x10_0000,
            ;
        }
        let cyu = cy as usize;
        let cxu = cx as usize;
        let plen = pixel_data.len();
        proof {
            assert((cyu as int) * (width as int) == (cy as int) * (width as int));
        }
        let idx: usize = cyu * width + cxu;
        assert(idx * 4 + 3 < plen);
        pixel_data.set(idx * 4, color.r);
        pixel_data.set(idx * 4 + 1, color.g);
        pixel_data.set(idx * 4 + 2, color.b);
        pixel_data.set(idx * 4 + 3, color.a);
    }
}

/// Painting one more trace pixel advances the painted-prefix picture of
/// the buffer by one.
proof fn lemma_paint_advances(
    p0: Seq<u8>,
    pre: Seq<u8>,
    post: Seq<u8>,
    tr: Seq<(int, int)>,
    m: int,
    cx: int,
    cy: int,
    color: Rgba,
    w: int,
    h: int,
)
    requires
        1 <= w <= MAX_DIM as int,
        1 <= h <= MAX_DIM as int,
        p0.len() == w * h * 4,
        pre.len() == p0.len(),
        post.len() == p0.len(),
        1 <= m <= tr.len(),
        tr[m - 1] == (cx, cy),
        forall|b: int|
            0 <= b < p0.len() ==> #[trigger] pre[b] == painted_byte(p0, tr, m - 1, color, w, h, b),
        px_in_bounds(cx, cy, w, h) ==> forall|k: int|
            0 <= k < 4 ==> #[trigger] post[(cy * w + cx) * 4 + k] == rgba_chan(color, k),
        forall|b: int|
            0 <= b < p0.len() && !(px_in_bounds(cx, cy, w, h) && (cy * w + cx) * 4 <= b < (cy * w
                + cx) * 4 + 4) ==> post[b] == pre[b],
    ensures
        forall|b: int|
            0 <= b < p0.len() ==> #[trigger] post[b] == painted_byte(p0, tr, m, color, w, h, b),
{
    assert forall|b: int| 0 <= b < p0.len() implies #[trigger] post[b] == painted_byte(
        p0,
        tr,
        m,
        color,
        w,
        h,
        b,
    ) by {
        vstd::arithmetic::div_mod::lemma_fundamental_div_mod(b, 4);
        vstd::arithmetic::div_mod::lemma_mod_division_less_than_divisor(b, 4);
        let pi = b / 4;
        lemma_grid_index(pi, w, h);
        let x = pi % w;
        let y = pi / w;
        if x == cx && y == cy && px_in_bounds(cx, cy, w, h) {
            assert(pi == y * w + x);
            assert(b == pi * 4 + b % 4);
            assert(post[(cy * w + cx) * 4 + (b % 4)] == rgba_chan(color, b % 4));
            assert(on_trace_prefix(tr, m, x, y));
        } else {
            if px_in_bounds(cx, cy, w, h) && (cy * w + cx) * 4 <= b < (cy * w + cx) * 4 + 4 {
                lemma_row_major(cx, cy, w, h);
                assert(pi == cy * w + cx) by (nonlinear_arith)
                    requires
                        pi == b / 4 && b == 4 * pi + b % 4 && 0 <= b % 4 < 4 && (cy * w + cx) * 4
                            <= b < (cy * w + cx) * 4 + 4,
                ;
                assert(false);
            }
            assert(post[b] == pre[b]);
            assert(on_trace_prefix(tr, m, x, y) <==> on_trace_prefix(tr, m - 1, x, y)) by {
                if on_trace_prefix(tr, m, x, y) {
                    let t = choose|t: int| 0 <= t < m && t < tr.len() && tr[t] == (x, y);
                    if t == m - 1 {
                        assert((x, y) == (cx, cy));
                        assert(false);
                    }
                    assert(0 <= t < m - 1 && t < tr.len() && tr[t] == (x, y));
                }
            }
        }
    }
}

/// One suffix-step of a trace: if the tail from position `m - 1` starts
/// with `head` and continues as `rest`, then `head` sits at `m - 1` and
/// the tail from `m` is `rest`.
proof fn lemma_suffix_step(tr: Seq<(int, int)>, m: int, head: (int, int), rest: Seq<(int, int)>)
    requires
        1 <= m,
        m - 1 <= tr.len(),
        tr.skip(m - 1) == seq![head] + rest,
    ensures
        m <= tr.len(),
        tr.skip(m) == rest,
        tr[m - 1] == head,
{
    vstd::seq_lib::lemma_seq_skip_len::<(int, int)>(tr, m - 1);
    assert(tr.skip(m - 1).len() == tr.len() - (m - 1));
    assert(tr.skip(m - 1)[0] == head);
    assert(tr[m - 1] == head);
    vstd::seq_lib::lemma_seq_skip_len::<(int, int)>(tr, m);
    assert forall|t: int| 0 <= t < rest.len() implies tr.skip(m)[t] == rest[t] by {
        assert(tr.skip(m)[t] == tr[m + t]);
        assert(tr.skip(m - 1)[t + 1] == tr[m + t]);
        assert((seq![head] + rest)[t + 1] == rest[t]);
    }
    assert(tr.skip(m) =~= rest);
}

/// Draws a line between two fixed-point screen points into the pixel
/// buffer using Bresenham's algorithm over the rounded endpoints. The
/// contract pins the buffer exactly: every viewport pixel on the line's
/// Bresenham trace takes the line color and every other byte is
/// untouched.
#[verifier::loop_isolation(false)]
#[verifier::rlimit(100)]
pub fn draw_line(
    x0: i64,
    y0: i64,
    x1: i64,
    y1: i64,
    pixel_data: &mut Vec<u8>,
    width: usize,
    height: usize,
    color: Rgba,
)
    requires
        -SCREEN_MAX <= x0 <= SCREEN_MAX,
        -SCREEN_MAX <= y0 <= SCREEN_MAX,
        -SCREEN_MAX <= x1 <= SCREEN_MAX,
        -SCREEN_MAX <= y1 <= SCREEN_MAX,
        1 <= width <= MAX_DIM,
        1 <= height <= MAX_DIM,
        old(pixel_data)@.len() == width * height * 4,
    ensures
        final(pixel_data)@ == line_pass(
            old(pixel_data)@,
            x0 as int,
            y0 as int,
            x1 as int,
            y1 as int,
            color,
            width as int,
            height as int,
        ),
{
    let ghost p0 = pixel_data@;
    let ghost trace = line_trace(x0 as int, y0 as int, x1 as int, y1 as int);
    let rx0 = round_px(x0);
    let ry0 = round_px(y0);
    let rx1 = round_px(x1);
    let ry1 = round_px(y1);
    let dx: i64 = if rx1 >= rx0 {
        rx1 - rx0
    } else {
        rx0 - rx1
    };
    let dy: i64 = if ry1 >= ry0 {
        -(ry1 - ry0)
    } else {
        -(ry0 - ry1)
    };
    let sx: i64 = if rx0 < rx1 {
        1
    } else {
        -1
    };
    let sy: i64 = if ry0 < ry1 {
        1
    } else {
        -1
    };
    proof {
        assert(rx0 + sx * dx == rx1 && ry0 + sy * (-dy) == ry1) by (nonlinear_arith)
            requires
                (sx == 1 && dx == rx1 - rx0 && rx0 < rx1) || (sx == -1 && rx1 <= rx0 && dx == rx0
                    - rx1),
                (sy == 1 && -dy == ry1 - ry0 && ry0 < ry1) || (sy == -1 && ry1 <= ry0 && -dy == ry0
                    - ry1),
        ;
        assert(trace == bres_trace(
            rx0 as int,
            ry0 as int,
            rx1 as int,
            ry1 as int,
            dx as int,
            dy as int,
            sx as int,
            sy as int,
            dx + dy,
            (dx - dy + 1) as nat,
        ));
    }
    let mut err: i64 = dx + dy;
    let mut cx: i64 = rx0;
    let mut cy: i64 = ry0;
    let ghost mut gi: int = 0;
    let ghost mut gj: int = 0;
    let ghost mut m: int = 1;
    proof {
        assert(sx * 0 == 0 && sy * 0 == 0 && 0 * dx == 0 && 0 * dy == 0) by (nonlinear_arith);
        assert(trace.skip(0) =~= trace);
        assert(trace[0] == (rx0 as int, ry0 as int));
        assert(trace.len() >= 1);
    }
    let ghost pre0 = pixel_data@;
    paint_pixel(pixel_data, cx, cy, width, height, color);
    proof {
        assert forall|b: int| 0 <= b < p0.len() implies #[trigger] pre0[b] == painted_byte(
            p0,
            trace,
            0,
            color,
            width as int,
            height as int,
            b,
        ) by {
        }
        lemma_paint_advances(
            p0,
            pre0,
            pixel_data@,
            trace,
            1,
            cx as int,
            cy as int,
            color,
            width as int,
            height as int,
        );
    }
    while !(cx == rx1 && cy == ry1)
        invariant
            0 <= gi <= dx,
            0 <= gj <= -dy,
            cx == rx0 + sx * gi,
            cy == ry0 + sy * gj,
            -0x80_0000 <= cx <= 0x80_0000,
            -0x80_0000 <= cy <= 0x80_0000,
            err == dx + dy + gj * dx + gi * dy,
            1 <= m <= trace.len(),
            m - 1 <= gi + gj,
            trace[m - 1] == (cx as int, cy as int),
            trace.skip(m - 1) == bres_trace(
                cx as int,
                cy as int,
                rx1 as int,
                ry1 as int,
                dx as int,
                dy as int,
                sx as int,
                sy as int,
                err as int,
                (dx - dy + 1 - (m - 1)) as nat,
            ),
            pixel_data@.len() == p0.len(),
            forall|b: int|
                0 <= b < p0.len() ==> #[trigger] pixel_data@[b] == painted_byte(
                    p0,
                    trace,
                    m,
                    color,
                    width as int,
                    height as int,
                    b,
                ),
        decreases (dx - gi) + (-dy - gj),
    {
        proof {
            assert(gi < dx || gj < -dy) by (nonlinear_arith)
                requires
                    !(cx == rx1 && cy == ry1),
                    cx == rx0 + sx * gi,
                    cy == ry0 + sy * gj,
                    rx0 + sx * dx == rx1,
                    ry0 + sy * (-dy) == ry1,
                    (sx == 1 || sx == -1),
                    (sy == 1 || sy == -1),
                    0 <= gi <= dx,
                    0 <= gj <= -dy,
            ;
            assert(-0x1_0000_0000_0000 <= err <= 0x1_0000_0000_0000) by (nonlinear_arith)
                requires
                    err == dx + dy + gj * dx + gi * dy,
                    0 <= gi <= dx,
                    0 <= gj <= -dy,
                    dx <= 0x80_0000,
                    -dy <= 0x80_0000,
            ;
        }
        let e2: i64 = 2 * err;
        let stepped_x = e2 >= dy;
        let stepped_y = e2 <= dx;
        proof {
            if gi == dx {
                assert(gj < -dy);
                assert(2 * (dx + dy + gj * dx + gi * dy) < dy) by (nonlinear_arith)
                    requires
                        gi == dx,
                        0 <= gj,
                        gj < -dy,
                        dx >= 0,
                ;
                assert(!stepped_x);
            }
            if gj == -dy {
                assert(gi < dx);
                assert(2 * (dx + dy + gj * dx + gi * dy) > dx) by (nonlinear_arith)
                    requires
                        gj == -dy,
                        0 <= gi,
                        gi < dx,
                        dy <= 0,
                        dx >= 1,
                ;
                assert(!stepped_y);
            }
            assert(stepped_x || stepped_y);
        }
        let ghost old_state = (cx as int, cy as int, err as int);
        if stepped_x {
            proof {
                assert(-0x80_0000 <= rx0 + sx * (gi + 1) <= 0x80_0000) by (nonlinear_arith)
                    requires
                        0 <= gi + 1 <= dx,
                        (sx == 1 || sx == -1),
                        -0x40_0000 <= rx0 <= 0x40_0000,
                        rx0 + sx * dx == rx1,
                        -0x40_0000 <= rx1 <= 0x40_0000,
                ;
            }
            err = err + dy;
            cx = cx + sx;
            proof {
                assert((gi + 1) * dy == gi * dy + dy && sx * (gi + 1) == sx * gi + sx)
                    by (nonlinear_arith)
                ;
                gi = gi + 1;
            }
        }
        if stepped_y {
            proof {
                assert(-0x80_0000 <= ry0 + sy * (gj + 1) <= 0x80_0000) by (nonlinear_arith)
                    requires
                        0 <= gj + 1 <= -dy,
                        (sy == 1 || sy == -1),
                        -0x40_0000 <= ry0 <= 0x40_0000,
                        ry0 + sy * (-dy) == ry1,
                        -0x40_0000 <= ry1 <= 0x40_0000,
                ;
            }
            err = err + dx;
            cy = cy + sy;
            proof {
                assert((gj + 1) * dx == gj * dx + dx && sy * (gj + 1) == sy * gj + sy)
                    by (nonlinear_arith)
                ;
                gj = gj + 1;
            }
        }
        proof {
            let n = bres_next(
                old_state.0,
                old_state.1,
                dx as int,
                dy as int,
                sx as int,
                sy as int,
                old_state.2,
            );
            assert(n == (cx as int, cy as int, err as int));
            let fuel_m = (dx - dy + 1 - (m - 1)) as nat;
            assert(fuel_m >= 1);
            assert(bres_trace(
                old_state.0,
                old_state.1,
                rx1 as int,
                ry1 as int,
                dx as int,
                dy as int,
                sx as int,
                sy as int,
                old_state.2,
                fuel_m,
            ) == seq![(old_state.0, old_state.1)] + bres_trace(
                cx as int,
                cy as int,
                rx1 as int,
                ry1 as int,
                dx as int,
                dy as int,
                sx as int,
                sy as int,
                err as int,
                (fuel_m - 1) as nat,
            ));
            lemma_suffix_step(
                trace,
                m,
                (old_state.0, old_state.1),
                bres_trace(
                    cx as int,
                    cy as int,
                    rx1 as int,
                    ry1 as int,
                    dx as int,
                    dy as int,
                    sx as int,
                    sy as int,
                    err as int,
                    (fuel_m - 1) as nat,
                ),
            );
            m = m + 1;
            assert(trace.skip(m - 1)[0] == (cx as int, cy as int));
            assert(trace[m - 1] == trace.skip(m - 1)[0]) by {
                vstd::seq_lib::lemma_seq_skip_len::<(int, int)>(trace, m - 1);
            }
        }
        let ghost pre = pixel_data@;
        paint_pixel(pixel_data, cx, cy, width, height, color);
        proof {
            lemma_paint_advances(
                p0,
                pre,
                pixel_data@,
                trace,
                m,
                cx as int,
                cy as int,
                color,
                width as int,
                height as int,
            );
        }
    }
    proof {
        assert(trace.skip(m - 1) == seq![(rx1 as int, ry1 as int)]);
        vstd::seq_lib::lemma_seq_skip_len::<(int, int)>(trace, m - 1);
        assert(trace.len() == m);
        assert forall|b: int| 0 <= b < p0.len() implies line_pass(
            p0,
            x0 as int,
            y0 as int,
            x1 as int,
            y1 as int,
            color,
            width as int,
            height as int,
        )[b] == pixel_data@[b] by {
        }
        assert(line_pass(
            p0,
            x0 as int,
            y0 as int,
            x1 as int,
            y1 as int,
            color,
            width as int,
            height as int,
        ) =~= pixel_data@);
    }
}

/// A covered pixel's interpolated depth lies within the world bounds.
proof fn lemma_depth_at_in_range(v0: Vertex, v1: Vertex, v2: Vertex, x: int, y: int)
    requires
        vertex_valid(v0),
        vertex_valid(v1),
        vertex_valid(v2),
        covers(v0, v1, v2, x, y),
    ensures
        -WORLD_MAX <= depth_at(v0, v1, v2, x, y) <= WORLD_MAX,
{
    let w0 = oweight0(v0, v1, v2, x, y);
    let w1 = oweight1(v0, v1, v2, x, y);
    let w2 = oweight2(v0, v1, v2, x, y);
    let area = area_mag(v0, v1, v2);
    lemma_barycentric_weights_sum(
        v0.screen_position.x as int,
        v0.screen_position.y as int,
        v1.screen_position.x as int,
        v1.screen_position.y as int,
        v2.screen_position.x as int,
        v2.screen_position.y as int,
        pixel_center(x),
        pixel_center(y),
    );
    assert(w0 + w1 + w2 == area && area > 0 && w0 >= 0 && w1 >= 0 && w2 >= 0);
    lemma_weighted_sum_bound(
        w0,
        w1,
        w2,
        v0.position.z as int,
        v1.position.z as int,
        v2.position.z as int,
        WORLD_MAX as int,
    );
    lemma_trunc_div_in_range(
        w0 * v0.position.z + w1 * v1.position.z + w2 * v2.position.z,
        area,
        -(WORLD_MAX as int),
        WORLD_MAX as int,
    );
}

/// The depth test only ever tightens the depth buffer: no cell grows.
pub proof fn lemma_depth_pass_monotone(depth: Seq<i64>, v0: Vertex, v1: Vertex, v2: Vertex, w: int)
    requires
        vertex_valid(v0),
        vertex_valid(v1),
        vertex_valid(v2),
        w > 0,
    ensures
        forall|i: int|
            0 <= i < depth.len() ==> #[trigger] tri_pass_depth(depth, v0, v1, v2, w)[i]
                <= depth[i],
{
    assert forall|i: int| 0 <= i < depth.len() implies #[trigger] tri_pass_depth(
        depth,
        v0,
        v1,
        v2,
        w,
    )[i] <= depth[i] by {
        if covers(v0, v1, v2, i % w, i / w) && depth_at(v0, v1, v2, i % w, i / w) < depth[i] {
            lemma_depth_at_in_range(v0, v1, v2, i % w, i / w);
        }
    }
}

/// The depth test is idempotent: drawing the same triangle a second time
/// over the buffers the first pass produced changes nothing, because
/// every covered pixel's depth already equals the triangle's own
/// interpolated depth, and the strict depth test rejects it.
pub proof fn lemma_triangle_pass_idempotent(
    pixels: Seq<u8>,
    depth: Seq<i64>,
    v0: Vertex,
    v1: Vertex,
    v2: Vertex,
    light: Vec3,
    tex: Option<Texture>,
    base: Rgba,
    w: int,
)
    requires
        vertex_valid(v0),
        vertex_valid(v1),
        vertex_valid(v2),
        w > 0,
        pixels.len() == depth.len() * 4,
    ensures
        tri_pass_depth(tri_pass_depth(depth, v0, v1, v2, w), v0, v1, v2, w) == tri_pass_depth(
            depth,
            v0,
            v1,
            v2,
            w,
        ),
        tri_pass_pixels(
            tri_pass_pixels(pixels, depth, v0, v1, v2, light, tex, base, w),
            tri_pass_depth(depth, v0, v1, v2, w),
            v0,
            v1,
            v2,
            light,
            tex,
            base,
            w,
        ) == tri_pass_pixels(pixels, depth, v0, v1, v2, light, tex, base, w),
{
    let d1 = tri_pass_depth(depth, v0, v1, v2, w);
    let p1 = tri_pass_pixels(pixels, depth, v0, v1, v2, light, tex, base, w);
    assert forall|i: int| 0 <= i < d1.len() implies tri_pass_depth(d1, v0, v1, v2, w)[i]
        == d1[i] by {
        if covers(v0, v1, v2, i % w, i / w) {
            lemma_depth_at_in_range(v0, v1, v2, i % w, i / w);
        }
    }
    assert(tri_pass_depth(d1, v0, v1, v2, w) =~= d1);
    assert forall|b: int| 0 <= b < p1.len() implies tri_pass_pixels(
        p1,
        d1,
        v0,
        v1,
        v2,
        light,
        tex,
        base,
        w,
    )[b] == p1[b] by {
        let i = b / 4;
        assert(0 <= i < depth.len());
        if covers(v0, v1, v2, i % w, i / w) {
            lemma_depth_at_in_range(v0, v1, v2, i % w, i / w);
        }
    }
    assert(tri_pass_pixels(p1, d1, v0, v1, v2, light, tex, base, w) =~= p1);
}

} // verus!
