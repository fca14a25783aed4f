//! The vertex pipeline: rotation matrices from fixed-point sines and
//! cosines, rigid transformation with translation, orthographic
//! projection to screen space, and smooth per-vertex normals accumulated
//! from the faces that share each vertex.

use crate::fixed::{
    lemma_mul_abs_bound, lemma_trunc_div_exact, lemma_trunc_div_in_range, trunc_div,
    trunc_div_i128, SCALE, SCREEN_MAX, WORLD_MAX,
};
use crate::math::{
    calculate_normal, cross_x, cross_y, cross_z, lemma_mul_by_zero, lemma_norm3_zero,
    mat_mul_entry, mat_vec_row, multiply_matrix_vector, norm3,
};
use crate::types::{
    mat3_bounded, mat_entry, vec2_bounded, vec3_bounded, vertex_valid, Face, Mat3, Vec2, Vec3,
    Vertex,
};
use vstd::arithmetic::mul::lemma_mul_is_commutative;
use vstd::prelude::*;

verus! {

/// Largest magnitude accepted for an object-space vertex coordinate.
pub const OBJ_MAX: i64 = 0x100_0000;

/// Largest magnitude the translation may take once converted to world
/// units, so transformed positions stay within `WORLD_MAX`.
pub const TRANS_MAX: i64 = 0x1000_0000;

/// Largest fixed-point scale factor (pixels per unit, in ticks) the
/// pipeline accepts.
pub const PROJ_SCALE_MAX: i64 = 1_000_000_000;

/// Largest magnitude accepted for the screen-center coordinates.
pub const CENTER_MAX: i64 = 0x80_0000_0000;

/// Largest magnitude a transformed world coordinate can take.
pub const POS_MAX: i64 = 419_430_400;

/// Largest magnitude a projected (uncentered) screen coordinate can take.
pub const PROJ_MAX: i64 = 419_430_400_000;

/// Most faces one mesh may carry, so that accumulated normals stay in
/// range.
pub const MAX_FACES: usize = 512;

/// The rotation matrix about the `x` axis with the given fixed-point sine
/// and cosine.
pub fn rotation_x_matrix(sin: i64, cos: i64) -> (r: Mat3)
    requires
        -SCALE <= sin <= SCALE,
        -SCALE <= cos <= SCALE,
    ensures
        r == (Mat3 {
            m00: SCALE,
            m01: 0,
            m02: 0,
            m10: 0,
            m11: cos,
            m12: (-sin) as i64,
            m20: 0,
            m21: sin,
            m22: cos,
        }),
        mat3_bounded(r, SCALE as int),
{
    Mat3 { m00: SCALE, m01: 0, m02: 0, m10: 0, m11: cos, m12: -sin, m20: 0, m21: sin, m22: cos }
}

/// The rotation matrix about the `y` axis with the given fixed-point sine
/// and cosine.
pub fn rotation_y_matrix(sin: i64, cos: i64) -> (r: Mat3)
    requires
        -SCALE <= sin <= SCALE,
        -SCALE <= cos <= SCALE,
    ensures
        r == (Mat3 {
            m00: cos,
            m01: 0,
            m02: sin,
            m10: 0,
            m11: SCALE,
            m12: 0,
            m20: (-sin) as i64,
            m21: 0,
            m22: cos,
        }),
        mat3_bounded(r, SCALE as int),
{
    Mat3 { m00: cos, m01: 0, m02: sin, m10: 0, m11: SCALE, m12: 0, m20: -sin, m21: 0, m22: cos }
}

/// The matrix either axis rotation yields for a whole turn: sine zero and
/// cosine one, the fixed-point identity.
pub open spec fn full_turn_matrix() -> Mat3 {
    Mat3 { m00: SCALE, m01: 0, m02: 0, m10: 0, m11: SCALE, m12: 0, m20: 0, m21: 0, m22: SCALE }
}

/// Rotating by a whole turn about any single axis moves nothing: with the
/// turn's sine and cosine (zero and one in fixed point) both axis
/// matrices equal the fixed-point identity, composing them yields the
/// identity again, and the identity maps every vector to itself exactly —
/// so every vertex keeps its original screen position.
pub proof fn lemma_full_turn_rotation_identity(v: Vec3)
    requires
        vec3_bounded(v, WORLD_MAX as int),
    ensures
        forall|i: int, j: int|
            0 <= i < 3 && 0 <= j < 3 ==> mat_mul_entry(full_turn_matrix(), full_turn_matrix(), i, j)
                == mat_entry(full_turn_matrix(), i, j),
        mat_vec_row(full_turn_matrix(), v, 0) == v.x,
        mat_vec_row(full_turn_matrix(), v, 1) == v.y,
        mat_vec_row(full_turn_matrix(), v, 2) == v.z,
{
    let m = full_turn_matrix();
    lemma_mul_by_zero(SCALE as int);
    lemma_mul_by_zero(v.x as int);
    lemma_mul_by_zero(v.y as int);
    lemma_mul_by_zero(v.z as int);
    assert forall|i: int, j: int| 0 <= i < 3 && 0 <= j < 3 implies mat_mul_entry(m, m, i, j)
        == mat_entry(m, i, j) by {
        lemma_mul_by_zero(0);
        lemma_mul_by_zero(SCALE as int);
        lemma_mul_is_commutative(SCALE as int, SCALE as int);
        lemma_trunc_div_exact(SCALE as int, SCALE as int);
        lemma_trunc_div_exact(0, SCALE as int);
        assert(0 * (SCALE as int) == 0 && (SCALE as int) * 0 == 0 && 0int * 0 == 0);
        assert(mat_mul_entry(m, m, i, j) == trunc_div(
            mat_entry(m, i, 0) * mat_entry(m, 0, j) + mat_entry(m, i, 1) * mat_entry(m, 1, j)
                + mat_entry(m, i, 2) * mat_entry(m, 2, j),
            SCALE as int,
        ));
    }
    lemma_mul_is_commutative(SCALE as int, v.x as int);
    lemma_mul_is_commutative(SCALE as int, v.y as int);
    lemma_mul_is_commutative(SCALE as int, v.z as int);
    lemma_trunc_div_exact(v.x as int, SCALE as int);
    lemma_trunc_div_exact(v.y as int, SCALE as int);
    lemma_trunc_div_exact(v.z as int, SCALE as int);
}

/// The world-space position a vertex takes: the rotated object position,
/// plus the screen translation converted into world units on `x` and `y`.
pub open spec fn transformed_position(rot: Mat3, p: Vec3, t: Vec2, scale: int) -> (int, int, int) {
    (
        mat_vec_row(rot, p, 0) + trunc_div(t.x * SCALE, scale),
        mat_vec_row(rot, p, 1) + trunc_div(t.y * SCALE, scale),
        mat_vec_row(rot, p, 2),
    )
}

/// The orthographic screen position of a world point: scaled and centered.
pub open spec fn screen_position_of(px: int, py: int, scale: int, center: Vec2) -> (int, int) {
    (
        trunc_div(px * scale, SCALE as int) + center.x,
        trunc_div(py * scale, SCALE as int) + center.y,
    )
}

/// The transformed world positions of a whole vertex list.
pub open spec fn transformed_positions_of(
    vertices: Seq<Vertex>,
    rot: Mat3,
    t: Vec2,
    scale: int,
) -> Seq<Vec3> {
    Seq::new(
        vertices.len(),
        |q: int|
            Vec3 {
                x: transformed_position(rot, vertices[q].position, t, scale).0 as i64,
                y: transformed_position(rot, vertices[q].position, t, scale).1 as i64,
                z: transformed_position(rot, vertices[q].position, t, scale).2 as i64,
            },
    )
}

/// Componentwise sum of two integer triples.
pub open spec fn add3(a: (int, int, int), b: (int, int, int)) -> (int, int, int) {
    (a.0 + b.0, a.1 + b.1, a.2 + b.2)
}

/// The unit normal a face contributes to its vertices (zero when the
/// face is degenerate).
pub open spec fn face_unit_normal(ps: Seq<Vec3>, f: Face) -> (int, int, int) {
    norm3(
        cross_x(ps[f.a as int], ps[f.b as int], ps[f.c as int]),
        cross_y(ps[f.a as int], ps[f.b as int], ps[f.c as int]),
        cross_z(ps[f.a as int], ps[f.b as int], ps[f.c as int]),
    )
}

/// The running per-vertex normal sums after the first `n` faces: each
/// face adds its unit normal into the slots of all four of its vertices,
/// in index order.
pub open spec fn normal_sums(ps: Seq<Vec3>, faces: Seq<Face>, n: int) -> Seq<(int, int, int)>
    decreases n,
{
    if n <= 0 {
        Seq::new(ps.len(), |k: int| (0int, 0int, 0int))
    } else {
        let prev = normal_sums(ps, faces, n - 1);
        let f = faces[n - 1];
        let c = face_unit_normal(ps, f);
        let s1 = prev.update(f.a as int, add3(prev[f.a as int], c));
        let s2 = s1.update(f.b as int, add3(s1[f.b as int], c));
        let s3 = s2.update(f.c as int, add3(s2[f.c as int], c));
        s3.update(f.d as int, add3(s3[f.d as int], c))
    }
}

/// The running normal sums always cover every vertex slot.
proof fn lemma_normal_sums_len(ps: Seq<Vec3>, faces: Seq<Face>, n: int)
    requires
        forall|f: int|
            0 <= f < n ==> (#[trigger] faces[f]).a < ps.len() && faces[f].b < ps.len()
                && faces[f].c < ps.len() && faces[f].d < ps.len(),
    ensures
        normal_sums(ps, faces, n).len() == ps.len(),
    decreases n,
{
    broadcast use vstd::seq::group_seq_axioms;

    if n > 0 {
        lemma_normal_sums_len(ps, faces, n - 1);
        let prev = normal_sums(ps, faces, n - 1);
        let f = faces[n - 1];
        let c = face_unit_normal(ps, f);
        let s1 = prev.update(f.a as int, add3(prev[f.a as int], c));
        let s2 = s1.update(f.b as int, add3(s1[f.b as int], c));
        let s3 = s2.update(f.c as int, add3(s2[f.c as int], c));
        assert(normal_sums(ps, faces, n) == s3.update(f.d as int, add3(s3[f.d as int], c)));
        assert(s1.len() == prev.len() && s2.len() == s1.len() && s3.len() == s2.len()
            && normal_sums(ps, faces, n).len() == s3.len());
    }
}

/// The smooth normal of vertex `k`: the normalized sum of the unit
/// normals of every face that lists `k`.
pub open spec fn smooth_normal(ps: Seq<Vec3>, faces: Seq<Face>, k: int) -> (int, int, int) {
    let s = normal_sums(ps, faces, faces.len() as int)[k];
    norm3(s.0, s.1, s.2)
}

/// What a mesh must satisfy before the pipeline runs: bounded object
/// coordinates, unit-ranged texture coordinates, in-range face indices
/// and a bounded face count.
pub open spec fn mesh_valid(vertices: Seq<Vertex>, faces: Seq<Face>) -> bool {
    &&& forall|k: int|
        0 <= k < vertices.len() ==> vec3_bounded(#[trigger] vertices[k].position, OBJ_MAX as int)
            && 0 <= vertices[k].uv.x <= SCALE && 0 <= vertices[k].uv.y <= SCALE
    &&& forall|f: int|
        0 <= f < faces.len() ==> (#[trigger] faces[f]).a < vertices.len() && faces[f].b
            < vertices.len() && faces[f].c < vertices.len() && faces[f].d < vertices.len()
    &&& faces.len() <= MAX_FACES
}

/// The world-space offset a screen translation contributes.
fn world_translation(t: i64, scale: i64) -> (r: i64)
    requires
        -SCREEN_MAX <= t <= SCREEN_MAX,
        1 <= scale <= PROJ_SCALE_MAX,
        -TRANS_MAX <= trunc_div(t * SCALE, scale as int) <= TRANS_MAX,
    ensures
        r == trunc_div(t * SCALE, scale as int),
        -TRANS_MAX <= r <= TRANS_MAX,
{
    proof {
        lemma_mul_abs_bound(t as int, SCALE as int, SCREEN_MAX as int, SCALE as int);
    }
    trunc_div_i128((t as i128) * (SCALE as i128), scale as i128) as i64
}

/// A rotated object-space position stays within nine object bounds.
proof fn lemma_rotated_bound(rot: Mat3, p: Vec3)
    requires
        mat3_bounded(rot, 3 * (SCALE as int)),
        vec3_bounded(p, OBJ_MAX as int),
    ensures
        forall|i: int|
            0 <= i < 3 ==> -9 * (OBJ_MAX as int) <= #[trigger] mat_vec_row(rot, p, i) <= 9 * (
            OBJ_MAX as int),
{
    assert forall|i: int| 0 <= i < 3 implies -9 * (OBJ_MAX as int) <= #[trigger] mat_vec_row(
        rot,
        p,
        i,
    ) <= 9 * (OBJ_MAX as int) by {
        lemma_mul_abs_bound(mat_entry(rot, i, 0), p.x as int, 3 * (SCALE as int), OBJ_MAX as int);
        lemma_mul_abs_bound(mat_entry(rot, i, 1), p.y as int, 3 * (SCALE as int), OBJ_MAX as int);
        lemma_mul_abs_bound(mat_entry(rot, i, 2), p.z as int, 3 * (SCALE as int), OBJ_MAX as int);
        lemma_trunc_div_in_range(
            mat_entry(rot, i, 0) * p.x + mat_entry(rot, i, 1) * p.y + mat_entry(rot, i, 2) * p.z,
            SCALE as int,
            -9 * (OBJ_MAX as int),
            9 * (OBJ_MAX as int),
        );
    }
}

/// Projects one world coordinate to screen space (before centering).
fn project_coord(p: i64, scale: i64) -> (r: i64)
    requires
        -POS_MAX <= p <= POS_MAX,
        1 <= scale <= PROJ_SCALE_MAX,
    ensures
        r == trunc_div(p * scale, SCALE as int),
        -PROJ_MAX <= r <= PROJ_MAX,
{
    proof {
        lemma_mul_abs_bound(p as int, scale as int, POS_MAX as int, PROJ_SCALE_MAX as int);
        lemma_trunc_div_in_range(
            (p as int) * (scale as int),
            SCALE as int,
            -(PROJ_MAX as int),
            PROJ_MAX as int,
        );
    }
    trunc_div_i128((p as i128) * (scale as i128), SCALE as i128) as i64
}

/// Transforms and projects one vertex, given the translation already
/// converted to world units.
fn transform_vertex(v: &Vertex, rotation: &Mat3, tx: i64, ty: i64, scale: i64, center: &Vec2) -> (r:
    Vertex)
    requires
        mat3_bounded(*rotation, 3 * (SCALE as int)),
        vec3_bounded(v.position, OBJ_MAX as int),
        0 <= v.uv.x <= SCALE,
        0 <= v.uv.y <= SCALE,
        -TRANS_MAX <= tx <= TRANS_MAX,
        -TRANS_MAX <= ty <= TRANS_MAX,
        1 <= scale <= PROJ_SCALE_MAX,
        vec2_bounded(*center, CENTER_MAX as int),
    ensures
        r.position.x == mat_vec_row(*rotation, v.position, 0) + tx,
        r.position.y == mat_vec_row(*rotation, v.position, 1) + ty,
        r.position.z == mat_vec_row(*rotation, v.position, 2),
        r.screen_position.x == trunc_div(r.position.x * scale, SCALE as int) + center.x,
        r.screen_position.y == trunc_div(r.position.y * scale, SCALE as int) + center.y,
        r.normal == (Vec3 { x: 0, y: 0, z: 0 }),
        r.uv == v.uv,
        vec3_bounded(r.position, POS_MAX as int),
        vertex_valid(r),
{
    let rotated = multiply_matrix_vector(rotation, &v.position);
    proof {
        lemma_rotated_bound(*rotation, v.position);
    }
    let px = rotated.x + tx;
    let py = rotated.y + ty;
    let pz = rotated.z;
    let sx = project_coord(px, scale) + center.x;
    let sy = project_coord(py, scale) + center.y;
    Vertex {
        position: Vec3 { x: px, y: py, z: pz },
        screen_position: Vec2 { x: sx, y: sy },
        normal: Vec3 { x: 0, y: 0, z: 0 },
        uv: v.uv,
    }
}

/// Computes the projected vertices for the current frame: every vertex is
/// rotated, translated and projected, and receives the smooth normal
/// accumulated from the faces that share it; texture coordinates ride
/// along unchanged.
#[verifier::loop_isolation(false)]
#[verifier::rlimit(100)]
pub fn compute_projected_vertices(
    vertices: &Vec<Vertex>,
    faces: &Vec<Face>,
    rotation: &Mat3,
    translation: &Vec2,
    scale: i64,
    center: &Vec2,
) -> (r: Vec<Vertex>)
    requires
        mesh_valid(vertices@, faces@),
        mat3_bounded(*rotation, 3 * (SCALE as int)),
        1 <= scale <= PROJ_SCALE_MAX,
        vec2_bounded(*translation, SCREEN_MAX as int),
        -TRANS_MAX <= trunc_div(translation.x * SCALE, scale as int) <= TRANS_MAX,
        -TRANS_MAX <= trunc_div(translation.y * SCALE, scale as int) <= TRANS_MAX,
        vec2_bounded(*center, CENTER_MAX as int),
    ensures
        r@.len() == vertices@.len(),
        forall|k: int|
            0 <= k < r@.len() ==> {
                let pos = transformed_position(
                    *rotation,
                    vertices@[k].position,
                    *translation,
                    scale as int,
                );
                let sp = screen_position_of(pos.0, pos.1, scale as int, *center);
                &&& ((#[trigger] r@[k]).position.x as int, r@[k].position.y as int,
                r@[k].position.z as int) == pos
                &&& (r@[k].screen_position.x as int, r@[k].screen_position.y as int) == sp
                &&& r@[k].uv == vertices@[k].uv
                &&& vertex_valid(r@[k])
            },
        forall|k: int|
            0 <= k < r@.len() ==> ((#[trigger] r@[k]).normal.x as int, r@[k].normal.y as int,
            r@[k].normal.z as int) == smooth_normal(
                transformed_positions_of(vertices@, *rotation, *translation, scale as int),
                faces@,
                k,
            ),
{
    let n = vertices.len();
    let tx = world_translation(translation.x, scale);
    let ty = world_translation(translation.y, scale);
    let mut positions: Vec<Vec3> = Vec::new();
    let mut out: Vec<Vertex> = Vec::new();
    let mut k: usize = 0;
    while k < n
        invariant
            k <= n,
            positions@.len() == k,
            out@.len() == k,
            forall|q: int|
                0 <= q < k ==> #[trigger] positions@[q] == transformed_positions_of(
                    vertices@,
                    *rotation,
                    *translation,
                    scale as int,
                )[q],
            forall|q: int| 0 <= q < k ==> vec3_bounded(#[trigger] positions@[q], POS_MAX as int),
            forall|q: int|
                0 <= q < k ==> {
                    let pos = transformed_position(
                        *rotation,
                        vertices@[q].position,
                        *translation,
                        scale as int,
                    );
                    let sp = screen_position_of(pos.0, pos.1, scale as int, *center);
                    &&& ((#[trigger] out@[q]).position.x as int, out@[q].position.y as int,
                    out@[q].position.z as int) == pos
                    &&& (out@[q].screen_position.x as int, out@[q].screen_position.y as int) == sp
                    &&& out@[q].uv == vertices@[q].uv
                    &&& vertex_valid(out@[q])
                },
        decreases n - k,
    {
        let v = &vertices[k];
        proof {
            assert(vec3_bounded(vertices@[k as int].position, OBJ_MAX as int));
        }
        let tv = transform_vertex(v, rotation, tx, ty, scale, center);
        positions.push(tv.position);
        out.push(tv);
        k = k + 1;
    }
    proof {
        assert(positions@ =~= transformed_positions_of(
            vertices@,
            *rotation,
            *translation,
            scale as int,
        ));
    }
    let sums = accumulate_normals(&positions, faces);
    normalize_vertices(&out, &sums)
}

/// Accumulates each face's unit normal into the slots of its four
/// vertices, in face and index order; a degenerate face contributes zero.
#[verifier::loop_isolation(false)]
#[verifier::rlimit(100)]
fn accumulate_normals(positions: &Vec<Vec3>, faces: &Vec<Face>) -> (sums: Vec<Vec3>)
    requires
        forall|q: int|
            0 <= q < positions@.len() ==> vec3_bounded(#[trigger] positions@[q], POS_MAX as int),
        forall|f: int|
            0 <= f < faces@.len() ==> (#[trigger] faces@[f]).a < positions@.len() && faces@[f].b
                < positions@.len() && faces@[f].c < positions@.len() && faces@[f].d
                < positions@.len(),
        faces@.len() <= MAX_FACES,
    ensures
        sums@.len() == positions@.len(),
        forall|q: int|
            0 <= q < sums@.len() ==> ((#[trigger] sums@[q]).x as int, sums@[q].y as int,
            sums@[q].z as int) == normal_sums(positions@, faces@, faces@.len() as int)[q],
        forall|q: int|
            0 <= q < sums@.len() ==> vec3_bounded(#[trigger] sums@[q], 4 * (MAX_FACES as int) * (
            SCALE as int)),
{
    let n = positions.len();
    let mut sums: Vec<Vec3> = Vec::new();
    let mut k2: usize = 0;
    while k2 < n
        invariant
            k2 <= n,
            sums@.len() == k2,
            forall|q: int| 0 <= q < k2 ==> #[trigger] sums@[q] == (Vec3 { x: 0, y: 0, z: 0 }),
        decreases n - k2,
    {
        sums.push(Vec3 { x: 0, y: 0, z: 0 });
        k2 = k2 + 1;
    }
    let ghost ps = positions@;
    let nf = faces.len();
    let mut fi: usize = 0;
    while fi < nf
        invariant
            fi <= nf,
            sums@.len() == n,
            forall|q: int|
                0 <= q < n ==> ((#[trigger] sums@[q]).x as int, sums@[q].y as int,
                sums@[q].z as int) == normal_sums(ps, faces@, fi as int)[q],
            forall|q: int|
                0 <= q < n ==> vec3_bounded(#[trigger] sums@[q], 4 * (fi as int) * (SCALE as int)),
        decreases nf - fi,
    {
        let f = faces[fi];
        let fnorm: Vec3 = match calculate_normal(&positions[f.a], &positions[f.b], &positions[f.c]) {
            Ok(nv) => nv,
            Err(_) => Vec3 { x: 0, y: 0, z: 0 },
        };
        proof {
            lemma_norm3_zero();
            lemma_normal_sums_len(ps, faces@, fi as int);
            lemma_normal_sums_len(ps, faces@, fi as int + 1);
            assert((fnorm.x as int, fnorm.y as int, fnorm.z as int) == face_unit_normal(
                ps,
                faces@[fi as int],
            ));
            assert(vec3_bounded(fnorm, SCALE as int));
        }
        let sa = sums[f.a];
        sums.set(f.a, Vec3 { x: sa.x + fnorm.x, y: sa.y + fnorm.y, z: sa.z + fnorm.z });
        let sb = sums[f.b];
        sums.set(f.b, Vec3 { x: sb.x + fnorm.x, y: sb.y + fnorm.y, z: sb.z + fnorm.z });
        let sc = sums[f.c];
        sums.set(f.c, Vec3 { x: sc.x + fnorm.x, y: sc.y + fnorm.y, z: sc.z + fnorm.z });
        let sd = sums[f.d];
        sums.set(f.d, Vec3 { x: sd.x + fnorm.x, y: sd.y + fnorm.y, z: sd.z + fnorm.z });
        fi = fi + 1;
    }
    sums
}

/// Normalizes every accumulated normal and writes it into its vertex.
#[verifier::loop_isolation(false)]
fn normalize_vertices(out: &Vec<Vertex>, sums: &Vec<Vec3>) -> (r: Vec<Vertex>)
    requires
        sums@.len() == out@.len(),
        forall|q: int|
            0 <= q < sums@.len() ==> vec3_bounded(#[trigger] sums@[q], 4 * (MAX_FACES as int) * (
            SCALE as int)),
        forall|q: int| 0 <= q < out@.len() ==> vertex_valid(#[trigger] out@[q]),
    ensures
        r@.len() == out@.len(),
        forall|q: int|
            0 <= q < r@.len() ==> (#[trigger] r@[q]).position == out@[q].position
                && r@[q].screen_position == out@[q].screen_position && r@[q].uv == out@[q].uv,
        forall|q: int|
            0 <= q < r@.len() ==> ((#[trigger] r@[q]).normal.x as int, r@[q].normal.y as int,
            r@[q].normal.z as int) == norm3(sums@[q].x as int, sums@[q].y as int, sums@[q].z as int),
        forall|q: int| 0 <= q < r@.len() ==> vertex_valid(#[trigger] r@[q]),
{
    let n = out.len();
    let mut out2: Vec<Vertex> = Vec::new();
    let mut k3: usize = 0;
    while k3 < n
        invariant
            k3 <= n,
            out2@.len() == k3,
            forall|q: int|
                0 <= q < k3 ==> (#[trigger] out2@[q]).position == out@[q].position
                    && out2@[q].screen_position == out@[q].screen_position && out2@[q].uv
                    == out@[q].uv,
            forall|q: int|
                0 <= q < k3 ==> ((#[trigger] out2@[q]).normal.x as int, out2@[q].normal.y as int,
                out2@[q].normal.z as int) == norm3(
                    sums@[q].x as int,
                    sums@[q].y as int,
                    sums@[q].z as int,
                ),
            forall|q: int| 0 <= q < k3 ==> vertex_valid(#[trigger] out2@[q]),
        decreases n - k3,
    {
        let s = sums[k3];
        let nn = crate::math::normalize_parts(s.x as i128, s.y as i128, s.z as i128);
        let base = out[k3];
        out2.push(Vertex { normal: nn, ..base });
        k3 = k3 + 1;
    }
    out2
}

} // verus!