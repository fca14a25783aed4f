//! Face visibility ordering: a coarse painter's-algorithm pass that sorts
//! faces back to front by a representative depth (the average of the four
//! vertex depths). The per-pixel depth test stays authoritative; this
//! order only decides which face is drawn first.

use crate::fixed::{trunc_div, trunc_div_i128, WORLD_MAX};
use crate::render::faces_in_range;
use crate::types::{vertex_valid, Face, Vertex};
use vstd::prelude::*;

verus! {

/// The representative depth of a face: the truncated average of its four
/// vertices' world-space depths.
pub open spec fn face_depth(verts: Seq<Vertex>, f: Face) -> int {
    trunc_div(
        verts[f.a as int].position.z + verts[f.b as int].position.z + verts[f.c as int].position.z
            + verts[f.d as int].position.z,
        4,
    )
}

/// The representative depth of one face.
fn face_depth_of(vertices: &Vec<Vertex>, f: &Face) -> (r: i64)
    requires
        f.a < vertices@.len(),
        f.b < vertices@.len(),
        f.c < vertices@.len(),
        f.d < vertices@.len(),
        crate::render::all_vertices_valid(vertices@),
    ensures
        r == face_depth(vertices@, *f),
        -WORLD_MAX <= r <= WORLD_MAX,
{
    let za = vertices[f.a].position.z;
    let zb = vertices[f.b].position.z;
    let zc = vertices[f.c].position.z;
    let zd = vertices[f.d].position.z;
    assert(vertex_valid(vertices@[f.a as int]) && vertex_valid(vertices@[f.b as int])
        && vertex_valid(vertices@[f.c as int]) && vertex_valid(vertices@[f.d as int]));
    let sum: i128 = (za as i128) + (zb as i128) + (zc as i128) + (zd as i128);
    proof {
        crate::fixed::lemma_trunc_div_in_range(
            sum as int,
            4,
            -(WORLD_MAX as int),
            WORLD_MAX as int,
        );
    }
    trunc_div_i128(sum, 4) as i64
}

/// The depth key of the face at position `a` of an ordering.
pub open spec fn key_at(keys: Seq<i64>, order: Seq<usize>, a: int) -> int {
    keys[order[a] as int] as int
}

/// Orders the faces back to front: the returned sequence holds each face
/// index exactly once, arranged by non-increasing representative depth,
/// so that farther faces are painted first.
#[verifier::loop_isolation(false)]
pub fn sorted_face_order(vertices: &Vec<Vertex>, faces: &Vec<Face>) -> (r: Vec<usize>)
    requires
        faces_in_range(faces@, vertices@.len() as int),
        crate::render::all_vertices_valid(vertices@),
    ensures
        r@.len() == faces@.len(),
        forall|i: int| 0 <= i < r@.len() ==> (#[trigger] r@[i]) < faces@.len(),
        forall|i: int, j: int| 0 <= i < j < r@.len() ==> r@[i] != r@[j],
        forall|i: int, j: int|
            0 <= i < j < r@.len() ==> face_depth(vertices@, faces@[(#[trigger] r@[i]) as int])
                >= face_depth(vertices@, faces@[(#[trigger] r@[j]) as int]),
{
    let n = faces.len();
    let mut keys: Vec<i64> = Vec::new();
    let mut q: usize = 0;
    while q < n
        invariant
            q <= n,
            keys@.len() == q,
            forall|t: int|
                0 <= t < q ==> #[trigger] keys@[t] == face_depth(vertices@, faces@[t]),
        decreases n - q,
    {
        let k = face_depth_of(vertices, &faces[q]);
        keys.push(k);
        q = q + 1;
    }
    let mut order: Vec<usize> = Vec::new();
    let mut q2: usize = 0;
    while q2 < n
        invariant
            q2 <= n,
            order@.len() == q2,
            forall|t: int| 0 <= t < q2 ==> #[trigger] order@[t] == t as usize,
        decreases n - q2,
    {
        order.push(q2);
        q2 = q2 + 1;
    }
    let mut i: usize = 1;
    while i < n
        invariant
            1 <= i <= n || (n == 0 && i == 1),
            order@.len() == n,
            keys@.len() == n,
            forall|t: int|
                0 <= t < n ==> #[trigger] keys@[t] == face_depth(vertices@, faces@[t]),
            forall|t: int| 0 <= t < n ==> (#[trigger] order@[t]) < n,
            forall|a: int, b: int| 0 <= a < b < n ==> order@[a] != order@[b],
            forall|a: int, b: int|
                0 <= a < b < i ==> key_at(keys@, order@, a) >= key_at(keys@, order@, b),
        decreases n - i,
    {
        let mut j: usize = i;
        while j > 0 && keys[order[j - 1]] < keys[order[j]]
            invariant
                0 <= j <= i,
                order@.len() == n,
                forall|t: int| 0 <= t < n ==> (#[trigger] order@[t]) < n,
                forall|a: int, b: int| 0 <= a < b < n ==> order@[a] != order@[b],
                forall|a: int, b: int|
                    0 <= a < b <= i && b != j ==> key_at(keys@, order@, a) >= key_at(
                        keys@,
                        order@,
                        b,
                    ),
                forall|b: int|
                    j < b <= i ==> key_at(keys@, order@, j as int) >= key_at(keys@, order@, b),
            decreases j,
        {
            let ghost pre = order@;
            let oa = order[j - 1];
            let ob = order[j];
            order.set(j - 1, ob);
            order.set(j, oa);
            proof {
                assert(key_at(keys@, order@, j - 1) == key_at(keys@, pre, j as int));
                assert(key_at(keys@, order@, j as int) == key_at(keys@, pre, j - 1));
                assert forall|a: int, b: int|
                    0 <= a < b <= i && b != j - 1 implies key_at(keys@, order@, a) >= key_at(
                    keys@,
                    order@,
                    b,
                ) by {
                    if a == j - 1 {
                        if b != j {
                            assert(key_at(keys@, pre, j as int) >= key_at(keys@, pre, b));
                        }
                    } else if a == j {
                        assert(key_at(keys@, pre, j - 1) >= key_at(keys@, pre, b));
                    } else if b == j {
                        assert(key_at(keys@, pre, a) >= key_at(keys@, pre, j - 1));
                    } else {
                        assert(key_at(keys@, pre, a) >= key_at(keys@, pre, b));
                    }
                }
                assert forall|b: int| j - 1 < b <= i implies key_at(keys@, order@, j - 1)
                    >= #[trigger] key_at(keys@, order@, b) by {
                    if b != j {
                        assert(key_at(keys@, pre, j as int) >= key_at(keys@, pre, b));
                    }
                }
            }
            j = j - 1;
        }
        proof {
            assert forall|a: int, b: int| 0 <= a < b <= i implies #[trigger] key_at(
                keys@,
                order@,
                a,
            ) >= #[trigger] key_at(keys@, order@, b) by {
                if b == j as int {
                    if a < j - 1 {
                        assert(key_at(keys@, order@, a) >= key_at(keys@, order@, j - 1));
                    }
                }
            }
        }
        i = i + 1;
    }
    proof {
        assert forall|a: int, b: int| 0 <= a < b < n implies face_depth(
            vertices@,
            faces@[(order@[a]) as int],
        ) >= face_depth(vertices@, faces@[(order@[b]) as int]) by {
            assert(key_at(keys@, order@, a) >= key_at(keys@, order@, b));
            assert(keys@[order@[a] as int] == face_depth(vertices@, faces@[order@[a] as int]));
            assert(keys@[order@[b] as int] == face_depth(vertices@, faces@[order@[b] as int]));
        }
    }
    order
}

} // verus!
