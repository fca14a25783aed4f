//! One whole frame: viewport validation, buffer clearing, and either a
//! depth-buffered filled pass over every face (two triangles per quad) or
//! a wireframe pass over every edge.

use crate::fixed::{DEPTH_FAR, MAX_DIM, MIN_DIM, WORLD_MAX};
use crate::raster::{draw_line, draw_triangle, line_pass, tri_pass_depth, tri_pass_pixels};
use crate::types::{vec3_bounded, vertex_valid, Face, Rgba, Vec3, Vertex};
use vstd::prelude::*;

verus! {

/// Why a frame could not be rendered.
#[derive(Clone, Copy, PartialEq, Eq, Structural, Debug)]
pub enum RenderError {
    /// The viewport is below the minimum renderable size.
    ViewportTooSmall,
}

/// A freshly cleared pixel buffer: every byte zero.
pub open spec fn cleared_pixels(n: nat) -> Seq<u8> {
    Seq::new(n, |i: int| 0u8)
}

/// A freshly cleared depth buffer: every cell as far as representable.
pub open spec fn cleared_depth(n: nat) -> Seq<i64> {
    Seq::new(n, |i: int| DEPTH_FAR)
}

/// The buffers after the first `k` faces have been drawn, each face as
/// its two triangles `(a, b, c)` and `(a, c, d)` in order.
pub open spec fn frame_after(
    pixels: Seq<u8>,
    depth: Seq<i64>,
    verts: Seq<Vertex>,
    faces: Seq<Face>,
    light: Vec3,
    w: int,
    k: int,
) -> (Seq<u8>, Seq<i64>)
    decreases k,
{
    if k <= 0 {
        (pixels, depth)
    } else {
        let prev = frame_after(pixels, depth, verts, faces, light, w, k - 1);
        let f = faces[k - 1];
        let p1 = tri_pass_pixels(
            prev.0,
            prev.1,
            verts[f.a as int],
            verts[f.b as int],
            verts[f.c as int],
            light,
            Option::None,
            f.color,
            w,
        );
        let d1 = tri_pass_depth(prev.1, verts[f.a as int], verts[f.b as int], verts[f.c as int], w);
        let p2 = tri_pass_pixels(
            p1,
            d1,
            verts[f.a as int],
            verts[f.c as int],
            verts[f.d as int],
            light,
            Option::None,
            f.color,
            w,
        );
        let d2 = tri_pass_depth(d1, verts[f.a as int], verts[f.c as int], verts[f.d as int], w);
        (p2, d2)
    }
}

/// Drawing preserves the buffer sizes.
proof fn lemma_frame_after_lens(
    pixels: Seq<u8>,
    depth: Seq<i64>,
    verts: Seq<Vertex>,
    faces: Seq<Face>,
    light: Vec3,
    w: int,
    k: int,
)
    ensures
        frame_after(pixels, depth, verts, faces, light, w, k).0.len() == pixels.len(),
        frame_after(pixels, depth, verts, faces, light, w, k).1.len() == depth.len(),
    decreases k,
{
    if k > 0 {
        lemma_frame_after_lens(pixels, depth, verts, faces, light, w, k - 1);
    }
}

/// Every vertex of the list satisfies the rasterizer's invariant.
pub open spec fn all_vertices_valid(verts: Seq<Vertex>) -> bool {
    forall|k: int| 0 <= k < verts.len() ==> vertex_valid(#[trigger] verts[k])
}

/// Every face indexes into the vertex list.
pub open spec fn faces_in_range(faces: Seq<Face>, n: int) -> bool {
    forall|f: int|
        0 <= f < faces.len() ==> (#[trigger] faces[f]).a < n && faces[f].b < n && faces[f].c < n
            && faces[f].d < n
}

/// Every edge indexes into the vertex list.
pub open spec fn edges_in_range(edges: Seq<(usize, usize)>, n: int) -> bool {
    forall|e: int| 0 <= e < edges.len() ==> (#[trigger] edges[e]).0 < n && edges[e].1 < n
}

/// The color wireframe edges are drawn in.
pub open spec fn wire_color() -> Rgba {
    Rgba { r: 255, g: 255, b: 255, a: 255 }
}

/// The pixel buffer after the first `k` edges have been drawn as white
/// lines between their vertices' screen positions.
pub open spec fn wire_after(
    pixels: Seq<u8>,
    verts: Seq<Vertex>,
    edges: Seq<(usize, usize)>,
    w: int,
    h: int,
    k: int,
) -> Seq<u8>
    decreases k,
{
    if k <= 0 {
        pixels
    } else {
        let prev = wire_after(pixels, verts, edges, w, h, k - 1);
        let e = edges[k - 1];
        line_pass(
            prev,
            verts[e.0 as int].screen_position.x as int,
            verts[e.0 as int].screen_position.y as int,
            verts[e.1 as int].screen_position.x as int,
            verts[e.1 as int].screen_position.y as int,
            wire_color(),
            w,
            h,
        )
    }
}

/// Drawing lines preserves the buffer size.
proof fn lemma_wire_after_len(
    pixels: Seq<u8>,
    verts: Seq<Vertex>,
    edges: Seq<(usize, usize)>,
    w: int,
    h: int,
    k: int,
)
    ensures
        wire_after(pixels, verts, edges, w, h, k).len() == pixels.len(),
    decreases k,
{
    if k > 0 {
        lemma_wire_after_len(pixels, verts, edges, w, h, k - 1);
    }
}

/// A cleared byte vector of the given length.
fn make_cleared_pixels(n: usize) -> (r: Vec<u8>)
    ensures
        r@ == cleared_pixels(n as nat),
{
    let mut v: Vec<u8> = Vec::new();
    let mut i: usize = 0;
    while i < n
        invariant
            i <= n,
            v@.len() == i,
            forall|q: int| 0 <= q < i ==> v@[q] == 0u8,
        decreases n - i,
    {
        v.push(0);
        i = i + 1;
    }
    proof {
        assert(v@ =~= cleared_pixels(n as nat));
    }
    v
}

/// A cleared depth vector of the given length.
fn make_cleared_depth(n: usize) -> (r: Vec<i64>)
    ensures
        r@ == cleared_depth(n as nat),
{
    let mut v: Vec<i64> = Vec::new();
    let mut i: usize = 0;
    while i < n
        invariant
            i <= n,
            v@.len() == i,
            forall|q: int| 0 <= q < i ==> v@[q] == DEPTH_FAR,
        decreases n - i,
    {
        v.push(DEPTH_FAR);
        i = i + 1;
    }
    proof {
        assert(v@ =~= cleared_depth(n as nat));
    }
    v
}

/// Renders one frame. A viewport below the minimum is rejected before any
/// buffer is touched. Otherwise both buffers are cleared and either every
/// face is rasterized, two depth-tested triangles per face — the final
/// buffers are pinned exactly — or, in wireframe mode, every edge is
/// drawn in white over the cleared pixels: each byte is background or
/// white, and every in-viewport edge endpoint is white.
#[verifier::loop_isolation(false)]
pub fn render_frame(
    vertices: &Vec<Vertex>,
    faces: &Vec<Face>,
    edges: &Vec<(usize, usize)>,
    wireframe: bool,
    light_pos_world: &Vec3,
    pixel_data: &mut Vec<u8>,
    z_buffer: &mut Vec<i64>,
    width: usize,
    height: usize,
) -> (r: Result<(), RenderError>)
    requires
        all_vertices_valid(vertices@),
        faces_in_range(faces@, vertices@.len() as int),
        edges_in_range(edges@, vertices@.len() as int),
        vec3_bounded(*light_pos_world, WORLD_MAX as int),
        width <= MAX_DIM,
        height <= MAX_DIM,
        old(z_buffer)@.len() == width * height,
        old(pixel_data)@.len() == width * height * 4,
    ensures
        r is Err <==> (width < MIN_DIM || height < MIN_DIM),
        r is Err ==> final(pixel_data)@ == old(pixel_data)@ && final(z_buffer)@ == old(z_buffer)@,
        (r is Ok && !wireframe) ==> final(pixel_data)@ == frame_after(
            cleared_pixels(old(pixel_data)@.len()),
            cleared_depth(old(z_buffer)@.len()),
            vertices@,
            faces@,
            *light_pos_world,
            width as int,
            faces@.len() as int,
        ).0 && final(z_buffer)@ == frame_after(
            cleared_pixels(old(pixel_data)@.len()),
            cleared_depth(old(z_buffer)@.len()),
            vertices@,
            faces@,
            *light_pos_world,
            width as int,
            faces@.len() as int,
        ).1,
        (r is Ok && wireframe) ==> final(z_buffer)@ == cleared_depth(old(z_buffer)@.len())
            && final(pixel_data)@ == wire_after(
            cleared_pixels(old(pixel_data)@.len()),
            vertices@,
            edges@,
            width as int,
            height as int,
            edges@.len() as int,
        ),
{
    if width < MIN_DIM || height < MIN_DIM {
        return Err(RenderError::ViewportTooSmall);
    }
    let ghost plen = pixel_data@.len();
    let ghost zlen = z_buffer@.len();
    let cell_count = z_buffer.len();
    let byte_count = pixel_data.len();
    *pixel_data = make_cleared_pixels(byte_count);
    *z_buffer = make_cleared_depth(cell_count);
    let ghost cp = cleared_pixels(plen);
    let ghost cd = cleared_depth(zlen);
    if !wireframe {
        let nf = faces.len();
        let mut i: usize = 0;
        while i < nf
            invariant
                i <= nf,
                pixel_data@ == frame_after(
                    cp,
                    cd,
                    vertices@,
                    faces@,
                    *light_pos_world,
                    width as int,
                    i as int,
                ).0,
                z_buffer@ == frame_after(
                    cp,
                    cd,
                    vertices@,
                    faces@,
                    *light_pos_world,
                    width as int,
                    i as int,
                ).1,
            decreases nf - i,
        {
            proof {
                lemma_frame_after_lens(
                    cp,
                    cd,
                    vertices@,
                    faces@,
                    *light_pos_world,
                    width as int,
                    i as int,
                );
                lemma_frame_after_lens(
                    cp,
                    cd,
                    vertices@,
                    faces@,
                    *light_pos_world,
                    width as int,
                    i as int + 1,
                );
            }
            let f = faces[i];
            draw_triangle(
                &vertices[f.a],
                &vertices[f.b],
                &vertices[f.c],
                pixel_data,
                z_buffer,
                width,
                height,
                light_pos_world,
                None,
                f.color,
            );
            draw_triangle(
                &vertices[f.a],
                &vertices[f.c],
                &vertices[f.d],
                pixel_data,
                z_buffer,
                width,
                height,
                light_pos_world,
                None,
                f.color,
            );
            i = i + 1;
        }
        proof {
            lemma_frame_after_lens(
                cp,
                cd,
                vertices@,
                faces@,
                *light_pos_world,
                width as int,
                nf as int,
            );
        }
        Ok(())
    } else {
        let white = Rgba { r: 255, g: 255, b: 255, a: 255 };
        let ne = edges.len();
        let mut i: usize = 0;
        while i < ne
            invariant
                i <= ne,
                z_buffer@ == cd,
                pixel_data@ == wire_after(cp, vertices@, edges@, width as int, height as int, i as int),
            decreases ne - i,
        {
            proof {
                lemma_wire_after_len(cp, vertices@, edges@, width as int, height as int, i as int);
                lemma_wire_after_len(
                    cp,
                    vertices@,
                    edges@,
                    width as int,
                    height as int,
                    i as int + 1,
                );
                assert(white == wire_color());
            }
            let e = edges[i];
            let v0 = &vertices[e.0];
            let v1 = &vertices[e.1];
            draw_line(
                v0.screen_position.x,
                v0.screen_position.y,
                v1.screen_position.x,
                v1.screen_position.y,
                pixel_data,
                width,
                height,
                white,
            );
            i = i + 1;
        }
        Ok(())
    }
}

} // verus!
