//! Vector and matrix math: the rasterizer's edge function with its
//! barycentric laws, 3x3 matrix products, normal computation and the
//! Lambertian lighting model with its ambient floor.

use crate::fixed::{
    isqrt, isqrt_spec, lemma_isqrt_unique, lemma_mul_abs_bound, lemma_trunc_div_exact,
    lemma_trunc_div_in_range, trunc_div, trunc_div_i128, AMBIENT_FLOOR, MAT_MAX, SCALE, SCREEN_MAX,
    WORLD_MAX,
};
use crate::types::{mat3_bounded, mat_entry, vec2_bounded, vec3_bounded, Mat3, Rgba, Vec2, Vec3};
use vstd::arithmetic::div_mod::lemma_div_multiples_vanish;
use vstd::arithmetic::mul::lemma_mul_is_commutative;
use vstd::prelude::*;

verus! {

/// The signed-area edge function of the points `a`, `b`, `c`: the cross
/// product `(c - a) x (b - a)`. Applied to a triangle's three vertices it
/// yields twice the triangle's signed area (in tick^2); applied to one
/// directed edge and a query point it tells which side of the edge the
/// point lies on.
pub open spec fn edge_val(ax: int, ay: int, bx: int, by: int, cx: int, cy: int) -> int {
    (cx - ax) * (by - ay) - (cy - ay) * (bx - ax)
}

/// Edge function used in rasterization.
pub fn edge_function(a: &Vec2, b: &Vec2, c: &Vec2) -> (r: i128)
    requires
        vec2_bounded(*a, SCREEN_MAX as int),
        vec2_bounded(*b, SCREEN_MAX as int),
        vec2_bounded(*c, SCREEN_MAX as int),
    ensures
        r == edge_val(a.x as int, a.y as int, b.x as int, b.y as int, c.x as int, c.y as int),
        -8 * (SCREEN_MAX as int) * (SCREEN_MAX as int) <= r
            <= 8 * (SCREEN_MAX as int) * (SCREEN_MAX as int),
{
    let d0 = (c.x as i128) - (a.x as i128);
    let d1 = (b.y as i128) - (a.y as i128);
    let d2 = (c.y as i128) - (a.y as i128);
    let d3 = (b.x as i128) - (a.x as i128);
    proof {
        lemma_mul_abs_bound(d0 as int, d1 as int, 2 * SCREEN_MAX as int, 2 * SCREEN_MAX as int);
        lemma_mul_abs_bound(d2 as int, d3 as int, 2 * SCREEN_MAX as int, 2 * SCREEN_MAX as int);
    }
    d0 * d1 - d2 * d3
}

/// Expansion of a product of two differences into monomials.
proof fn lemma_expand_bb(p: int, b: int, c: int, d: int)
    by (nonlinear_arith)
    ensures
        (p - b) * (c - d) == p * c - p * d - b * c + b * d,
{
}

/// Distribution of a sum or difference over a product, on either side.
proof fn lemma_dist2(u: int, v: int, w: int)
    by (nonlinear_arith)
    ensures
        (u - v) * w == u * w - v * w,
        (u + v) * w == u * w + v * w,
        w * (u - v) == w * u - w * v,
        w * (u + v) == w * u + w * v,
{
}

/// Reassociations and reorderings of a triple product.
proof fn lemma_rotate(a: int, b: int, c: int)
    by (nonlinear_arith)
    ensures
        (a * b) * c == (a * c) * b,
        (a * b) * c == a * (b * c),
        (a * b) * c == (c * a) * b,
{
}

/// Monomial forms of the three edge weights and the doubled area of a
/// triangle whose vertex `a` sits at the origin.
proof fn lemma_monomial_forms(bx: int, by: int, cx: int, cy: int, px: int, py: int)
    ensures
        edge_val(bx, by, cx, cy, px, py) == px * cy - px * by - bx * cy + bx * by - (py * cx - py
            * bx - by * cx + by * bx),
        edge_val(cx, cy, 0, 0, px, py) == py * cx - px * cy,
        edge_val(0, 0, bx, by, px, py) == px * by - py * bx,
        edge_val(0, 0, bx, by, cx, cy) == cx * by - cy * bx,
{
    lemma_expand_bb(px, bx, cy, by);
    lemma_expand_bb(py, by, cx, bx);
    lemma_expand_bb(px, cx, 0, cy);
    lemma_expand_bb(py, cy, 0, cx);
    lemma_mul_is_commutative(cx, cy);
}

/// The weights-sum law with vertex `a` at the origin.
proof fn lemma_sum_origin(bx: int, by: int, cx: int, cy: int, px: int, py: int)
    ensures
        edge_val(bx, by, cx, cy, px, py) + edge_val(cx, cy, 0, 0, px, py) + edge_val(
            0,
            0,
            bx,
            by,
            px,
            py,
        ) == edge_val(0, 0, bx, by, cx, cy),
{
    lemma_monomial_forms(bx, by, cx, cy, px, py);
    lemma_mul_is_commutative(bx, by);
    lemma_mul_is_commutative(bx, cy);
    lemma_mul_is_commutative(by, cx);
}

/// The reconstruction law with vertex `a` at the origin.
proof fn lemma_recon_origin(bx: int, by: int, cx: int, cy: int, px: int, py: int)
    ensures
        edge_val(cx, cy, 0, 0, px, py) * bx + edge_val(0, 0, bx, by, px, py) * cx == px * edge_val(
            0,
            0,
            bx,
            by,
            cx,
            cy,
        ),
        edge_val(cx, cy, 0, 0, px, py) * by + edge_val(0, 0, bx, by, px, py) * cy == py * edge_val(
            0,
            0,
            bx,
            by,
            cx,
            cy,
        ),
{
    lemma_monomial_forms(bx, by, cx, cy, px, py);
    lemma_dist2(py * cx, px * cy, bx);
    lemma_dist2(px * by, py * bx, cx);
    lemma_dist2(cx * by, cy * bx, px);
    lemma_rotate(py, cx, bx);
    lemma_rotate(px, by, cx);
    lemma_rotate(px, cy, bx);
    lemma_rotate(py, bx, cx);
    lemma_rotate(px, cx, by);
    lemma_dist2(py * cx, px * cy, by);
    lemma_dist2(px * by, py * bx, cy);
    lemma_dist2(cx * by, cy * bx, py);
    lemma_rotate(py, cx, by);
    lemma_rotate(px, cy, by);
    lemma_rotate(px, by, cy);
    lemma_rotate(py, bx, cy);
    lemma_rotate(py, cy, bx);
}

/// The interior-point law with vertex `a` at the origin.
proof fn lemma_interior_origin(
    bx: int,
    by: int,
    cx: int,
    cy: int,
    px: int,
    py: int,
    wa: int,
    wb: int,
    wc: int,
)
    requires
        px * (wa + wb + wc) == wb * bx + wc * cx,
        py * (wa + wb + wc) == wb * by + wc * cy,
    ensures
        edge_val(cx, cy, 0, 0, px, py) * (wa + wb + wc) == wb * edge_val(0, 0, bx, by, cx, cy),
        edge_val(0, 0, bx, by, px, py) * (wa + wb + wc) == wc * edge_val(0, 0, bx, by, cx, cy),
        edge_val(bx, by, cx, cy, px, py) * (wa + wb + wc) == wa * edge_val(0, 0, bx, by, cx, cy),
{
    let s = wa + wb + wc;
    let area = edge_val(0, 0, bx, by, cx, cy);
    let w0 = edge_val(bx, by, cx, cy, px, py);
    let w1 = edge_val(cx, cy, 0, 0, px, py);
    let w2 = edge_val(0, 0, bx, by, px, py);
    lemma_monomial_forms(bx, by, cx, cy, px, py);
    lemma_sum_origin(bx, by, cx, cy, px, py);
    lemma_dist2(py * cx, px * cy, s);
    lemma_rotate(py, cx, s);
    lemma_rotate(px, cy, s);
    lemma_dist2(wb * by, wc * cy, cx);
    lemma_dist2(wb * bx, wc * cx, cy);
    lemma_rotate(wb, by, cx);
    lemma_rotate(wc, cy, cx);
    lemma_rotate(wb, bx, cy);
    lemma_rotate(wc, cx, cy);
    lemma_mul_is_commutative(cy, cx);
    lemma_dist2(by * cx, bx * cy, wb);
    lemma_mul_is_commutative(by, cx);
    lemma_mul_is_commutative(bx, cy);
    lemma_mul_is_commutative(wb, area);
    assert(w1 * s == wb * area);
    lemma_dist2(px * by, py * bx, s);
    lemma_rotate(px, by, s);
    lemma_rotate(py, bx, s);
    lemma_dist2(wb * bx, wc * cx, by);
    lemma_dist2(wb * by, wc * cy, bx);
    lemma_rotate(wb, bx, by);
    lemma_rotate(wc, cx, by);
    lemma_rotate(wb, by, bx);
    lemma_rotate(wc, cy, bx);
    lemma_mul_is_commutative(bx, by);
    lemma_dist2(cx * by, cy * bx, wc);
    lemma_mul_is_commutative(wc, area);
    assert(w2 * s == wc * area);
    lemma_dist2(area - w1, w2, s);
    lemma_dist2(area, w1, s);
    lemma_dist2(wa + wb, wc, area);
    lemma_dist2(wa, wb, area);
    lemma_mul_is_commutative(area, s);
    lemma_mul_is_commutative(area, wa);
    lemma_mul_is_commutative(area, wb);
    lemma_mul_is_commutative(area, wc);
    assert(w0 * s == wa * area);
}

/// The three edge-function weights of a point against a triangle sum to
/// the triangle's own edge value (twice its signed area): the exact
/// integer form of "barycentric weights sum to one" after dividing by the
/// area.
pub proof fn lemma_barycentric_weights_sum(
    ax: int,
    ay: int,
    bx: int,
    by: int,
    cx: int,
    cy: int,
    px: int,
    py: int,
)
    ensures
        edge_val(bx, by, cx, cy, px, py) + edge_val(cx, cy, ax, ay, px, py) + edge_val(
            ax,
            ay,
            bx,
            by,
            px,
            py,
        ) == edge_val(ax, ay, bx, by, cx, cy),
{
    lemma_sum_origin(bx - ax, by - ay, cx - ax, cy - ay, px - ax, py - ay);
    assert(edge_val(bx - ax, by - ay, cx - ax, cy - ay, px - ax, py - ay) == edge_val(
        bx,
        by,
        cx,
        cy,
        px,
        py,
    ));
    assert(edge_val(cx - ax, cy - ay, 0, 0, px - ax, py - ay) == edge_val(
        cx,
        cy,
        ax,
        ay,
        px,
        py,
    ));
    assert(edge_val(0, 0, bx - ax, by - ay, px - ax, py - ay) == edge_val(
        ax,
        ay,
        bx,
        by,
        px,
        py,
    ));
    assert(edge_val(0, 0, bx - ax, by - ay, cx - ax, cy - ay) == edge_val(
        ax,
        ay,
        bx,
        by,
        cx,
        cy,
    ));
}

/// Weighting each vertex by the opposite edge value reconstructs the
/// query point, scaled by the triangle's edge value: the exact integer
/// form of barycentric interpolation. In particular a point whose three
/// weights are all non-negative (none has the sign opposite to a
/// positive area) is a convex combination of the vertices — so every
/// point outside the triangle has at least one weight of the opposite
/// sign.
pub proof fn lemma_barycentric_reconstruction(
    ax: int,
    ay: int,
    bx: int,
    by: int,
    cx: int,
    cy: int,
    px: int,
    py: int,
)
    ensures
        edge_val(bx, by, cx, cy, px, py) * ax + edge_val(cx, cy, ax, ay, px, py) * bx + edge_val(
            ax,
            ay,
            bx,
            by,
            px,
            py,
        ) * cx == px * edge_val(ax, ay, bx, by, cx, cy),
        edge_val(bx, by, cx, cy, px, py) * ay + edge_val(cx, cy, ax, ay, px, py) * by + edge_val(
            ax,
            ay,
            bx,
            by,
            px,
            py,
        ) * cy == py * edge_val(ax, ay, bx, by, cx, cy),
{
    let w0 = edge_val(bx, by, cx, cy, px, py);
    let w1 = edge_val(cx, cy, ax, ay, px, py);
    let w2 = edge_val(ax, ay, bx, by, px, py);
    let area = edge_val(ax, ay, bx, by, cx, cy);
    lemma_barycentric_weights_sum(ax, ay, bx, by, cx, cy, px, py);
    lemma_recon_origin(bx - ax, by - ay, cx - ax, cy - ay, px - ax, py - ay);
    assert(edge_val(bx - ax, by - ay, cx - ax, cy - ay, px - ax, py - ay) == w0);
    assert(edge_val(cx - ax, cy - ay, 0, 0, px - ax, py - ay) == w1);
    assert(edge_val(0, 0, bx - ax, by - ay, px - ax, py - ay) == w2);
    assert(edge_val(0, 0, bx - ax, by - ay, cx - ax, cy - ay) == area);
    // x-coordinate
    lemma_dist2(bx, ax, w1);
    lemma_dist2(cx, ax, w2);
    lemma_dist2(px, ax, area);
    lemma_mul_is_commutative(w1, bx);
    lemma_mul_is_commutative(w1, ax);
    lemma_mul_is_commutative(w2, cx);
    lemma_mul_is_commutative(w2, ax);
    lemma_mul_is_commutative(area, px);
    lemma_mul_is_commutative(area, ax);
    lemma_dist2(w0 + w1, w2, ax);
    lemma_dist2(w0, w1, ax);
    lemma_mul_is_commutative(ax, w0);
    lemma_mul_is_commutative(ax, w1);
    lemma_mul_is_commutative(ax, w2);
    assert(w0 * ax + w1 * bx + w2 * cx == px * area);
    // y-coordinate
    lemma_dist2(by, ay, w1);
    lemma_dist2(cy, ay, w2);
    lemma_dist2(py, ay, area);
    lemma_mul_is_commutative(w1, by);
    lemma_mul_is_commutative(w1, ay);
    lemma_mul_is_commutative(w2, cy);
    lemma_mul_is_commutative(w2, ay);
    lemma_mul_is_commutative(area, py);
    lemma_mul_is_commutative(area, ay);
    lemma_dist2(w0 + w1, w2, ay);
    lemma_dist2(w0, w1, ay);
    lemma_mul_is_commutative(ay, w0);
    lemma_mul_is_commutative(ay, w1);
    lemma_mul_is_commutative(ay, w2);
    assert(w0 * ay + w1 * by + w2 * cy == py * area);
}

/// A point strictly inside a triangle — a combination of the vertices
/// with positive weights `wa`, `wb`, `wc` — has its three edge values
/// equal to the weights scaled by the triangle's edge value. All three
/// therefore share the sign of the signed area, strictly.
pub proof fn lemma_interior_point_edge_signs(
    ax: int,
    ay: int,
    bx: int,
    by: int,
    cx: int,
    cy: int,
    px: int,
    py: int,
    wa: int,
    wb: int,
    wc: int,
)
    requires
        wa > 0,
        wb > 0,
        wc > 0,
        px * (wa + wb + wc) == wa * ax + wb * bx + wc * cx,
        py * (wa + wb + wc) == wa * ay + wb * by + wc * cy,
    ensures
        edge_val(bx, by, cx, cy, px, py) * (wa + wb + wc) == wa * edge_val(
            ax,
            ay,
            bx,
            by,
            cx,
            cy,
        ),
        edge_val(cx, cy, ax, ay, px, py) * (wa + wb + wc) == wb * edge_val(
            ax,
            ay,
            bx,
            by,
            cx,
            cy,
        ),
        edge_val(ax, ay, bx, by, px, py) * (wa + wb + wc) == wc * edge_val(
            ax,
            ay,
            bx,
            by,
            cx,
            cy,
        ),
        edge_val(ax, ay, bx, by, cx, cy) > 0 ==> edge_val(bx, by, cx, cy, px, py) > 0 && edge_val(
            cx,
            cy,
            ax,
            ay,
            px,
            py,
        ) > 0 && edge_val(ax, ay, bx, by, px, py) > 0,
        edge_val(ax, ay, bx, by, cx, cy) < 0 ==> edge_val(bx, by, cx, cy, px, py) < 0 && edge_val(
            cx,
            cy,
            ax,
            ay,
            px,
            py,
        ) < 0 && edge_val(ax, ay, bx, by, px, py) < 0,
{
    let s = wa + wb + wc;
    // The origin-shifted combination: (px - ax) * s == wb * (bx - ax) + wc * (cx - ax).
    lemma_dist2(px, ax, s);
    lemma_mul_is_commutative(px, s);
    lemma_mul_is_commutative(ax, s);
    lemma_dist2(wa + wb, wc, ax);
    lemma_dist2(wa, wb, ax);
    lemma_mul_is_commutative(ax, wa);
    lemma_mul_is_commutative(ax, wb);
    lemma_mul_is_commutative(ax, wc);
    lemma_dist2(bx, ax, wb);
    lemma_mul_is_commutative(wb, bx);
    lemma_mul_is_commutative(wb, ax);
    lemma_dist2(cx, ax, wc);
    lemma_mul_is_commutative(wc, cx);
    lemma_mul_is_commutative(wc, ax);
    assert((px - ax) * s == wb * (bx - ax) + wc * (cx - ax));
    lemma_dist2(py, ay, s);
    lemma_mul_is_commutative(py, s);
    lemma_mul_is_commutative(ay, s);
    lemma_dist2(wa + wb, wc, ay);
    lemma_dist2(wa, wb, ay);
    lemma_mul_is_commutative(ay, wa);
    lemma_mul_is_commutative(ay, wb);
    lemma_mul_is_commutative(ay, wc);
    lemma_dist2(by, ay, wb);
    lemma_mul_is_commutative(wb, by);
    lemma_mul_is_commutative(wb, ay);
    lemma_dist2(cy, ay, wc);
    lemma_mul_is_commutative(wc, cy);
    lemma_mul_is_commutative(wc, ay);
    assert((py - ay) * s == wb * (by - ay) + wc * (cy - ay));
    lemma_interior_origin(bx - ax, by - ay, cx - ax, cy - ay, px - ax, py - ay, wa, wb, wc);
    let w0 = edge_val(bx, by, cx, cy, px, py);
    let w1 = edge_val(cx, cy, ax, ay, px, py);
    let w2 = edge_val(ax, ay, bx, by, px, py);
    let area = edge_val(ax, ay, bx, by, cx, cy);
    assert(edge_val(bx - ax, by - ay, cx - ax, cy - ay, px - ax, py - ay) == w0);
    assert(edge_val(cx - ax, cy - ay, 0, 0, px - ax, py - ay) == w1);
    assert(edge_val(0, 0, bx - ax, by - ay, px - ax, py - ay) == w2);
    assert(edge_val(0, 0, bx - ax, by - ay, cx - ax, cy - ay) == area);
    lemma_scaled_sign(w0, s, wa, area);
    lemma_scaled_sign(w1, s, wb, area);
    lemma_scaled_sign(w2, s, wc, area);
}

/// If `w * s == k * area` with `s > 0` and `k > 0`, then `w` takes the
/// strict sign of `area`.
proof fn lemma_scaled_sign(w: int, s: int, k: int, area: int)
    by (nonlinear_arith)
    requires
        s > 0,
        k > 0,
        w * s == k * area,
    ensures
        area > 0 ==> w > 0,
        area < 0 ==> w < 0,
{
}

/// The `i`-th component of `t * v` for a fixed-point matrix and vector.
pub open spec fn mat_vec_row(t: Mat3, v: Vec3, i: int) -> int {
    trunc_div(
        mat_entry(t, i, 0) * v.x + mat_entry(t, i, 1) * v.y + mat_entry(t, i, 2) * v.z,
        SCALE as int,
    )
}

/// One row of a fixed-point matrix-vector product.
fn scaled_row_dot(m0: i64, m1: i64, m2: i64, v: &Vec3) -> (r: i64)
    requires
        -MAT_MAX <= m0 <= MAT_MAX,
        -MAT_MAX <= m1 <= MAT_MAX,
        -MAT_MAX <= m2 <= MAT_MAX,
        vec3_bounded(*v, WORLD_MAX as int),
    ensures
        r == trunc_div(m0 * v.x + m1 * v.y + m2 * v.z, SCALE as int),
        -12 * (WORLD_MAX as int) <= r <= 12 * (WORLD_MAX as int),
{
    proof {
        lemma_mul_abs_bound(m0 as int, v.x as int, MAT_MAX as int, WORLD_MAX as int);
        lemma_mul_abs_bound(m1 as int, v.y as int, MAT_MAX as int, WORLD_MAX as int);
        lemma_mul_abs_bound(m2 as int, v.z as int, MAT_MAX as int, WORLD_MAX as int);
    }
    let num: i128 = (m0 as i128) * (v.x as i128) + (m1 as i128) * (v.y as i128) + (m2 as i128)
        * (v.z as i128);
    proof {
        lemma_trunc_div_in_range(
            num as int,
            SCALE as int,
            -12 * (WORLD_MAX as int),
            12 * (WORLD_MAX as int),
        );
    }
    trunc_div_i128(num, SCALE as i128) as i64
}

/// Multiplies a 3x3 matrix by a 3-dimensional vector.
pub fn multiply_matrix_vector(matrix: &Mat3, vector: &Vec3) -> (r: Vec3)
    requires
        mat3_bounded(*matrix, MAT_MAX as int),
        vec3_bounded(*vector, WORLD_MAX as int),
    ensures
        r.x == mat_vec_row(*matrix, *vector, 0),
        r.y == mat_vec_row(*matrix, *vector, 1),
        r.z == mat_vec_row(*matrix, *vector, 2),
        vec3_bounded(r, 12 * (WORLD_MAX as int)),
{
    Vec3 {
        x: scaled_row_dot(matrix.m00, matrix.m01, matrix.m02, vector),
        y: scaled_row_dot(matrix.m10, matrix.m11, matrix.m12, vector),
        z: scaled_row_dot(matrix.m20, matrix.m21, matrix.m22, vector),
    }
}

/// The entry at row `i`, column `j` of the fixed-point product `a * b`.
pub open spec fn mat_mul_entry(a: Mat3, b: Mat3, i: int, j: int) -> int {
    trunc_div(
        mat_entry(a, i, 0) * mat_entry(b, 0, j) + mat_entry(a, i, 1) * mat_entry(b, 1, j)
            + mat_entry(a, i, 2) * mat_entry(b, 2, j),
        SCALE as int,
    )
}

/// One entry of a fixed-point matrix product, for unit-bounded entries.
fn scaled_entry_dot(a0: i64, a1: i64, a2: i64, b0: i64, b1: i64, b2: i64) -> (r: i64)
    requires
        -SCALE <= a0 <= SCALE,
        -SCALE <= a1 <= SCALE,
        -SCALE <= a2 <= SCALE,
        -SCALE <= b0 <= SCALE,
        -SCALE <= b1 <= SCALE,
        -SCALE <= b2 <= SCALE,
    ensures
        r == trunc_div(a0 * b0 + a1 * b1 + a2 * b2, SCALE as int),
        -3 * (SCALE as int) <= r <= 3 * (SCALE as int),
{
    proof {
        lemma_mul_abs_bound(a0 as int, b0 as int, SCALE as int, SCALE as int);
        lemma_mul_abs_bound(a1 as int, b1 as int, SCALE as int, SCALE as int);
        lemma_mul_abs_bound(a2 as int, b2 as int, SCALE as int, SCALE as int);
    }
    let num: i128 = (a0 as i128) * (b0 as i128) + (a1 as i128) * (b1 as i128) + (a2 as i128) * (
    b2 as i128);
    proof {
        lemma_trunc_div_in_range(num as int, SCALE as int, -3 * (SCALE as int), 3 * (SCALE as int));
    }
    trunc_div_i128(num, SCALE as i128) as i64
}

/// Multiplies two 3x3 matrices whose entries are at most one unit in
/// magnitude (as rotation matrices are), in row-major order.
pub fn multiply_matrices(a: &Mat3, b: &Mat3) -> (r: Mat3)
    requires
        mat3_bounded(*a, SCALE as int),
        mat3_bounded(*b, SCALE as int),
    ensures
        forall|i: int, j: int|
            0 <= i < 3 && 0 <= j < 3 ==> mat_entry(r, i, j) == mat_mul_entry(*a, *b, i, j),
        mat3_bounded(r, 3 * (SCALE as int)),
{
    let r = Mat3 {
        m00: scaled_entry_dot(a.m00, a.m01, a.m02, b.m00, b.m10, b.m20),
        m01: scaled_entry_dot(a.m00, a.m01, a.m02, b.m01, b.m11, b.m21),
        m02: scaled_entry_dot(a.m00, a.m01, a.m02, b.m02, b.m12, b.m22),
        m10: scaled_entry_dot(a.m10, a.m11, a.m12, b.m00, b.m10, b.m20),
        m11: scaled_entry_dot(a.m10, a.m11, a.m12, b.m01, b.m11, b.m21),
        m12: scaled_entry_dot(a.m10, a.m11, a.m12, b.m02, b.m12, b.m22),
        m20: scaled_entry_dot(a.m20, a.m21, a.m22, b.m00, b.m10, b.m20),
        m21: scaled_entry_dot(a.m20, a.m21, a.m22, b.m01, b.m11, b.m21),
        m22: scaled_entry_dot(a.m20, a.m21, a.m22, b.m02, b.m12, b.m22),
    };
    proof {
        assert forall|i: int, j: int| 0 <= i < 3 && 0 <= j < 3 implies mat_entry(r, i, j)
            == mat_mul_entry(*a, *b, i, j) by {
            assert(0 <= i < 3 && 0 <= j < 3);
        }
    }
    r
}


/// Error returned when a degenerate (zero-length) vector cannot be
/// normalized.
#[derive(Clone, Copy, PartialEq, Eq, Structural, Debug)]
pub struct DegenerateVectorError;

/// Largest component magnitude `normalize_parts` accepts.
pub const NORM_IN_MAX: i128 = 0x2000_0000_0000_0000;

/// The fixed-point unit vector in the direction `(x, y, z)`: each
/// component scaled by `SCALE` and divided by the vector's integer length.
/// The zero vector normalizes to zero.
pub open spec fn norm3(x: int, y: int, z: int) -> (int, int, int) {
    let len = isqrt_spec(x * x + y * y + z * z);
    if len == 0 {
        (0, 0, 0)
    } else {
        (
            trunc_div(x * SCALE, len),
            trunc_div(y * SCALE, len),
            trunc_div(z * SCALE, len),
        )
    }
}

/// A component whose square is below `(len + 1)^2` has magnitude at most
/// `len`.
proof fn lemma_sq_le(x: int, len: int)
    by (nonlinear_arith)
    requires
        len >= 0,
        x * x < (len + 1) * (len + 1),
    ensures
        -len <= x <= len,
{
}

/// Normalizes the vector `(x, y, z)` to fixed-point unit length; the zero
/// vector stays zero.
pub(crate) fn normalize_parts(x: i128, y: i128, z: i128) -> (r: Vec3)
    requires
        -NORM_IN_MAX <= x <= NORM_IN_MAX,
        -NORM_IN_MAX <= y <= NORM_IN_MAX,
        -NORM_IN_MAX <= z <= NORM_IN_MAX,
    ensures
        (r.x as int, r.y as int, r.z as int) == norm3(x as int, y as int, z as int),
        vec3_bounded(r, SCALE as int),
{
    proof {
        lemma_mul_abs_bound(x as int, x as int, NORM_IN_MAX as int, NORM_IN_MAX as int);
        lemma_mul_abs_bound(y as int, y as int, NORM_IN_MAX as int, NORM_IN_MAX as int);
        lemma_mul_abs_bound(z as int, z as int, NORM_IN_MAX as int, NORM_IN_MAX as int);
        assert(x * x >= 0 && y * y >= 0 && z * z >= 0) by (nonlinear_arith);
    }
    let sum: i128 = x * x + y * y + z * z;
    let len: u64 = crate::fixed::isqrt(sum as u128);
    if len == 0 {
        proof {
            assert(norm3(x as int, y as int, z as int) == (0int, 0int, 0int));
        }
        Vec3 { x: 0, y: 0, z: 0 }
    } else {
        proof {
            lemma_sq_le(x as int, len as int);
            lemma_sq_le(y as int, len as int);
            lemma_sq_le(z as int, len as int);
            lemma_mul_abs_bound(x as int, SCALE as int, len as int, SCALE as int);
            lemma_mul_abs_bound(y as int, SCALE as int, len as int, SCALE as int);
            lemma_mul_abs_bound(z as int, SCALE as int, len as int, SCALE as int);
            lemma_trunc_div_in_range(x * (SCALE as i128) as int, len as int, -(SCALE as int), SCALE as int);
            lemma_trunc_div_in_range(y * (SCALE as i128) as int, len as int, -(SCALE as int), SCALE as int);
            lemma_trunc_div_in_range(z * (SCALE as i128) as int, len as int, -(SCALE as int), SCALE as int);
        }
        let rx = trunc_div_i128(x * (SCALE as i128), len as i128) as i64;
        let ry = trunc_div_i128(y * (SCALE as i128), len as i128) as i64;
        let rz = trunc_div_i128(z * (SCALE as i128), len as i128) as i64;
        Vec3 { x: rx, y: ry, z: rz }
    }
}

/// The `u x v` cross product components of the triangle edges
/// `u = b - a`, `v = c - a`.
pub open spec fn cross_x(a: Vec3, b: Vec3, c: Vec3) -> int {
    (b.y - a.y) * (c.z - a.z) - (b.z - a.z) * (c.y - a.y)
}

pub open spec fn cross_y(a: Vec3, b: Vec3, c: Vec3) -> int {
    (b.z - a.z) * (c.x - a.x) - (b.x - a.x) * (c.z - a.z)
}

pub open spec fn cross_z(a: Vec3, b: Vec3, c: Vec3) -> int {
    (b.x - a.x) * (c.y - a.y) - (b.y - a.y) * (c.x - a.x)
}

/// Calculates the unit normal vector of the triangle `(a, b, c)`, or
/// reports the triangle as degenerate when its edges are collinear (the
/// cross product vanishes) rather than divide by a zero length.
pub fn calculate_normal(a: &Vec3, b: &Vec3, c: &Vec3) -> (r: Result<Vec3, DegenerateVectorError>)
    requires
        vec3_bounded(*a, WORLD_MAX as int),
        vec3_bounded(*b, WORLD_MAX as int),
        vec3_bounded(*c, WORLD_MAX as int),
    ensures
        r is Err <==> cross_x(*a, *b, *c) == 0 && cross_y(*a, *b, *c) == 0 && cross_z(*a, *b, *c)
            == 0,
        r matches Ok(n) ==> (n.x as int, n.y as int, n.z as int) == norm3(
            cross_x(*a, *b, *c),
            cross_y(*a, *b, *c),
            cross_z(*a, *b, *c),
        ) && vec3_bounded(n, SCALE as int),
{
    let ux = (b.x - a.x) as i128;
    let uy = (b.y - a.y) as i128;
    let uz = (b.z - a.z) as i128;
    let vx = (c.x - a.x) as i128;
    let vy = (c.y - a.y) as i128;
    let vz = (c.z - a.z) as i128;
    proof {
        let m = 2 * (WORLD_MAX as int);
        lemma_mul_abs_bound(uy as int, vz as int, m, m);
        lemma_mul_abs_bound(uz as int, vy as int, m, m);
        lemma_mul_abs_bound(uz as int, vx as int, m, m);
        lemma_mul_abs_bound(ux as int, vz as int, m, m);
        lemma_mul_abs_bound(ux as int, vy as int, m, m);
        lemma_mul_abs_bound(uy as int, vx as int, m, m);
    }
    let nx = uy * vz - uz * vy;
    let ny = uz * vx - ux * vz;
    let nz = ux * vy - uy * vx;
    if nx == 0 && ny == 0 && nz == 0 {
        Err(DegenerateVectorError)
    } else {
        Ok(normalize_parts(nx, ny, nz))
    }
}

/// Smaller of two mathematical integers.
pub open spec fn min_i(a: int, b: int) -> int {
    if a <= b {
        a
    } else {
        b
    }
}

/// Larger of two mathematical integers.
pub open spec fn max_i(a: int, b: int) -> int {
    if a >= b {
        a
    } else {
        b
    }
}

/// The Lambertian light intensity at a surface point: the dot product of
/// the surface normal with the unit direction from the point toward the
/// light, floored at the ambient minimum. The direction to a light that
/// coincides with the point normalizes to zero, so such a light yields
/// exactly the ambient floor.
pub open spec fn intensity_spec(n: Vec3, p: Vec3, l: Vec3) -> int {
    let d = norm3(l.x - p.x, l.y - p.y, l.z - p.z);
    max_i(trunc_div(n.x * d.0 + n.y * d.1 + n.z * d.2, SCALE as int), AMBIENT_FLOOR as int)
}

/// Calculates the light intensity at `position` from the normal vector
/// and the light's world position.
pub fn calculate_light_intensity(normal: &Vec3, position: &Vec3, light_pos: &Vec3) -> (r: i64)
    requires
        vec3_bounded(*normal, WORLD_MAX as int),
        vec3_bounded(*position, WORLD_MAX as int),
        vec3_bounded(*light_pos, WORLD_MAX as int),
    ensures
        r == intensity_spec(*normal, *position, *light_pos),
        AMBIENT_FLOOR <= r <= 3 * (WORLD_MAX as int),
{
    let dx = (light_pos.x - position.x) as i128;
    let dy = (light_pos.y - position.y) as i128;
    let dz = (light_pos.z - position.z) as i128;
    let dir = normalize_parts(dx, dy, dz);
    proof {
        lemma_mul_abs_bound(normal.x as int, dir.x as int, WORLD_MAX as int, SCALE as int);
        lemma_mul_abs_bound(normal.y as int, dir.y as int, WORLD_MAX as int, SCALE as int);
        lemma_mul_abs_bound(normal.z as int, dir.z as int, WORLD_MAX as int, SCALE as int);
    }
    let num: i128 = (normal.x as i128) * (dir.x as i128) + (normal.y as i128) * (dir.y as i128)
        + (normal.z as i128) * (dir.z as i128);
    proof {
        lemma_trunc_div_in_range(
            num as int,
            SCALE as int,
            -3 * (WORLD_MAX as int),
            3 * (WORLD_MAX as int),
        );
    }
    let dot = trunc_div_i128(num, SCALE as i128) as i64;
    if dot < AMBIENT_FLOOR {
        AMBIENT_FLOOR
    } else {
        dot
    }
}

/// One color channel under a light intensity: scaled by the intensity and
/// saturated at the channel maximum.
pub open spec fn lit_chan_i(c: int, intensity: int) -> int {
    min_i(trunc_div(c * intensity, SCALE as int), 255)
}

/// The same, for a byte-valued channel.
pub open spec fn lit_channel(c: u8, intensity: int) -> int {
    lit_chan_i(c as int, intensity)
}

/// Applies a light intensity to a color; the result is fully opaque.
pub fn apply_lighting(color: Rgba, intensity: i64) -> (r: Rgba)
    requires
        0 <= intensity <= 3 * (WORLD_MAX as int),
    ensures
        r.r == lit_channel(color.r, intensity as int),
        r.g == lit_channel(color.g, intensity as int),
        r.b == lit_channel(color.b, intensity as int),
        r.a == 255,
{
    Rgba {
        r: lit_channel_exec(color.r, intensity),
        g: lit_channel_exec(color.g, intensity),
        b: lit_channel_exec(color.b, intensity),
        a: 255,
    }
}

/// One saturating channel multiply.
fn lit_channel_exec(c: u8, intensity: i64) -> (r: u8)
    requires
        0 <= intensity <= 3 * (WORLD_MAX as int),
    ensures
        r == lit_channel(c, intensity as int),
{
    proof {
        lemma_mul_abs_bound(c as int, intensity as int, 255, 3 * (WORLD_MAX as int));
        assert(c as int * intensity as int >= 0) by (nonlinear_arith)
            requires
                c >= 0 && intensity >= 0,
        ;
    }
    let num: i128 = (c as i128) * (intensity as i128);
    proof {
        lemma_trunc_div_in_range(num as int, SCALE as int, 0, 0x1_0000_0000);
    }
    let q = trunc_div_i128(num, SCALE as i128);
    if q > 255 {
        255
    } else {
        q as u8
    }
}


/// Multiplication by zero, stated for the solver.
pub(crate) proof fn lemma_mul_by_zero(a: int)
    by (nonlinear_arith)
    ensures
        a * 0 == 0,
        0 * a == 0,
{
}

/// An integer square root exists for every non-negative integer.
proof fn lemma_isqrt_exists(n: int)
    requires
        n >= 0,
    ensures
        exists|q: int| q >= 0 && #[trigger] (q * q) <= n && n < (q + 1) * (q + 1),
    decreases n,
{
    if n == 0 {
        assert((0int) * (0int) <= n && n < (0 + 1) * (0 + 1)) by (nonlinear_arith)
            requires
                n == 0,
        ;
    } else {
        lemma_isqrt_exists(n - 1);
        let r = choose|q: int| q >= 0 && #[trigger] (q * q) <= n - 1 && (n - 1) < (q + 1) * (q + 1);
        if n < (r + 1) * (r + 1) {
            assert(r * r <= n);
        } else {
            assert((r + 1) * (r + 1) <= n && n <= (r + 1) * (r + 1));
            assert((r + 1) * (r + 1) < (r + 2) * (r + 2)) by (nonlinear_arith)
                requires
                    r >= 0,
            ;
            assert((r + 1) * (r + 1) <= n && n < (r + 1 + 1) * (r + 1 + 1));
        }
    }
}

/// What `isqrt_spec` yields on any non-negative argument.
pub proof fn lemma_isqrt_spec_props(n: int)
    requires
        n >= 0,
    ensures
        isqrt_spec(n) >= 0,
        isqrt_spec(n) * isqrt_spec(n) <= n,
        n < (isqrt_spec(n) + 1) * (isqrt_spec(n) + 1),
{
    lemma_isqrt_exists(n);
}

/// The integer square root of a perfect square is its root.
proof fn lemma_isqrt_of_square(t: int)
    requires
        t >= 0,
    ensures
        isqrt_spec(t * t) == t,
{
    assert(t * t < (t + 1) * (t + 1)) by (nonlinear_arith)
        requires
            t >= 0,
    ;
    assert(t >= 0 && t * t <= t * t && t * t < (t + 1) * (t + 1));
    lemma_isqrt_spec_props(t * t);
    lemma_isqrt_unique(t, isqrt_spec(t * t), t * t);
}

/// A surface that squarely faces the light — unit normal `(0, 0, -1)`
/// with the light straight before it along the `z` axis, so the light
/// direction is `(0, 0, -1)` as well — receives full intensity, exactly
/// one unit.
pub proof fn lemma_facing_light_full_intensity(n: Vec3, p: Vec3, l: Vec3)
    requires
        n.x == 0,
        n.y == 0,
        n.z == -SCALE,
        l.x == p.x,
        l.y == p.y,
        l.z < p.z,
        vec3_bounded(p, WORLD_MAX as int),
        vec3_bounded(l, WORLD_MAX as int),
    ensures
        intensity_spec(n, p, l) == SCALE,
{
    let t = p.z - l.z;
    let u = l.z - p.z;
    assert(u * u == t * t) by (nonlinear_arith)
        requires
            u == -t,
    ;
    assert((l.z - p.z) * (l.z - p.z) == t * t);
    lemma_isqrt_of_square(t);
    let d = norm3(l.x - p.x, l.y - p.y, l.z - p.z);
    lemma_div_multiples_vanish(0, t);
    assert(trunc_div(0, t) == 0);
    assert((l.z - p.z) * (SCALE as int) == (-(SCALE as int)) * t) by (nonlinear_arith)
        requires
            l.z - p.z == -t,
    ;
    lemma_trunc_div_exact(-(SCALE as int), t);
    assert(d.2 == -(SCALE as int));
    assert(d.0 == 0 && d.1 == 0);
    lemma_mul_by_zero(n.x as int);
    lemma_mul_by_zero(n.y as int);
    assert(n.x * d.0 == 0 && n.y * d.1 == 0);
    assert(n.z * d.2 == (SCALE as int) * (SCALE as int)) by (nonlinear_arith)
        requires
            n.z == -(SCALE as int) && d.2 == -(SCALE as int),
    ;
    lemma_trunc_div_exact(SCALE as int, SCALE as int);
    assert(trunc_div((SCALE as int) * (SCALE as int), SCALE as int) == SCALE);
}

/// A surface whose normal is perpendicular to the light direction, axis
/// by axis — on each axis either the normal's component or the light
/// offset is zero, so the dot product is exactly zero — receives exactly
/// the ambient floor, never less.
pub open spec fn axiswise_perpendicular(n: Vec3, p: Vec3, l: Vec3) -> bool {
    &&& (n.x == 0 || l.x == p.x)
    &&& (n.y == 0 || l.y == p.y)
    &&& (n.z == 0 || l.z == p.z)
}

pub proof fn lemma_orthogonal_normal_ambient(n: Vec3, p: Vec3, l: Vec3)
    requires
        vec3_bounded(n, WORLD_MAX as int),
        vec3_bounded(p, WORLD_MAX as int),
        vec3_bounded(l, WORLD_MAX as int),
        axiswise_perpendicular(n, p, l),
    ensures
        (intensity_spec(n, p, l) == AMBIENT_FLOOR),
{
    let dx = l.x - p.x;
    let dy = l.y - p.y;
    let dz = l.z - p.z;
    let sum = dx * dx + dy * dy + dz * dz;
    assert(dx * dx >= 0 && dy * dy >= 0 && dz * dz >= 0) by (nonlinear_arith);
    lemma_isqrt_spec_props(sum);
    let len = isqrt_spec(sum);
    let d = norm3(dx, dy, dz);
    lemma_mul_by_zero(n.x as int);
    lemma_mul_by_zero(n.y as int);
    lemma_mul_by_zero(n.z as int);
    if len == 0 {
        assert(n.x * d.0 == 0 && n.y * d.1 == 0 && n.z * d.2 == 0);
    } else {
        lemma_div_multiples_vanish(0, len);
        assert(trunc_div(0, len) == 0);
        if n.x == 0 {
            assert(n.x * d.0 == 0);
        } else {
            assert(d.0 == trunc_div(dx * SCALE, len) && dx == 0);
            assert(n.x * d.0 == 0);
        }
        if n.y == 0 {
            assert(n.y * d.1 == 0);
        } else {
            assert(d.1 == trunc_div(dy * SCALE, len) && dy == 0);
            assert(n.y * d.1 == 0);
        }
        if n.z == 0 {
            assert(n.z * d.2 == 0);
        } else {
            assert(d.2 == trunc_div(dz * SCALE, len) && dz == 0);
            assert(n.z * d.2 == 0);
        }
    }
    assert(trunc_div(0, SCALE as int) == 0) by {
        lemma_div_multiples_vanish(0, SCALE as int);
    }
}

/// The zero vector normalizes to zero.
pub proof fn lemma_norm3_zero()
    ensures
        norm3(0, 0, 0) == (0int, 0int, 0int),
{
    lemma_isqrt_spec_props(0);
    let r = isqrt_spec(0);
    assert(r == 0) by (nonlinear_arith)
        requires
            r >= 0,
            r * r <= 0,
    ;
}

} // verus!
