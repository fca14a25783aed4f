//! Textures: an RGBA texel grid, nearest-texel sampling with the `v`
//! flip, and alpha blending of a texel over a base color — the optional
//! texturing stage of the rasterizer.

use crate::fixed::{
    lemma_mul_abs_bound, lemma_trunc_div_in_range, trunc_div, trunc_div_i128, SCALE, WORLD_MAX,
};
use crate::types::Rgba;
use vstd::prelude::*;

verus! {

/// Largest texture width or height, in texels.
pub const MAX_TEX_DIM: usize = 4096;

/// An RGBA texture: row-major texels, four bytes each.
pub struct Texture {
    pub data: Vec<u8>,
    pub width: usize,
    pub height: usize,
}

/// What every texture handed to the rasterizer satisfies.
pub open spec fn texture_valid(t: Texture) -> bool {
    &&& t.data@.len() == t.width * t.height * 4
    &&& 1 <= t.width <= MAX_TEX_DIM
    &&& 1 <= t.height <= MAX_TEX_DIM
}

/// Clamp an integer into a closed range.
pub open spec fn clamp_i(x: int, lo: int, hi: int) -> int {
    if x < lo {
        lo
    } else if x > hi {
        hi
    } else {
        x
    }
}

/// The byte offset of the texel sampled at texture coordinates `(u, v)`:
/// nearest texel, `v` flipped, clamped to the texture's edge.
pub open spec fn texel_offset(tw: int, th: int, u: int, v: int) -> int {
    let tx = clamp_i(trunc_div(u * (tw - 1), SCALE as int), 0, tw - 1);
    let ty = clamp_i(trunc_div((SCALE - v) * (th - 1), SCALE as int), 0, th - 1);
    (ty * tw + tx) * 4
}

/// One channel of the texel's color alpha-blended over the base color:
/// the texel's alpha weighs the texel against the base, out of 255.
pub open spec fn blend_chan(t: int, b: int, a: int) -> int {
    trunc_div(t * a + b * (255 - a), 255)
}

/// One channel of the surface color at texture coordinates `(u, v)`: the
/// sampled texel blended over the base color when a texture is present,
/// the base color alone otherwise (`k` picks r, g or b).
pub open spec fn surface_chan(tex: Option<Texture>, base: Rgba, u: int, v: int, k: int) -> int {
    match tex {
        Option::Some(t) => {
            let off = texel_offset(t.width as int, t.height as int, u, v);
            blend_chan(
                t.data@[off + k] as int,
                crate::raster::rgba_chan(base, k) as int,
                t.data@[off + 3] as int,
            )
        },
        Option::None => crate::raster::rgba_chan(base, k) as int,
    }
}

/// The spec value of a borrowed optional texture.
pub open spec fn deref_texture(t: Option<&Texture>) -> Option<Texture> {
    match t {
        Option::Some(x) => Option::Some(*x),
        Option::None => Option::None,
    }
}

/// Clamps one texel coordinate.
fn clamp_texel(q: i64, hi: usize) -> (r: usize)
    requires
        hi < MAX_TEX_DIM,
    ensures
        r == clamp_i(q as int, 0, hi as int),
        r <= hi,
{
    if q < 0 {
        0
    } else if q > hi as i64 {
        hi
    } else {
        q as usize
    }
}

/// Samples the nearest texel at `(u, v)` and alpha-blends it over the
/// base color; the result is fully opaque, ready for lighting.
pub fn sample_blend(t: &Texture, base: Rgba, u: i64, v: i64) -> (r: Rgba)
    requires
        texture_valid(*t),
        -WORLD_MAX <= u <= WORLD_MAX,
        -WORLD_MAX <= v <= WORLD_MAX,
    ensures
        r.r == surface_chan(Option::Some(*t), base, u as int, v as int, 0),
        r.g == surface_chan(Option::Some(*t), base, u as int, v as int, 1),
        r.b == surface_chan(Option::Some(*t), base, u as int, v as int, 2),
        r.a == 255,
{
    let tw = t.width;
    let th = t.height;
    proof {
        lemma_mul_abs_bound(u as int, tw - 1, WORLD_MAX as int, MAX_TEX_DIM as int);
        lemma_mul_abs_bound(
            SCALE as int - v,
            th - 1,
            2 * (WORLD_MAX as int),
            MAX_TEX_DIM as int,
        );
    }
    let qx = trunc_div_i128((u as i128) * ((tw - 1) as i128), SCALE as i128);
    proof {
        lemma_trunc_div_in_range(
            (u as int) * (tw - 1),
            SCALE as int,
            -(WORLD_MAX as int) * (MAX_TEX_DIM as int),
            (WORLD_MAX as int) * (MAX_TEX_DIM as int),
        );
    }
    let qy = trunc_div_i128(((SCALE - v) as i128) * ((th - 1) as i128), SCALE as i128);
    proof {
        lemma_trunc_div_in_range(
            (SCALE as int - v) * (th - 1),
            SCALE as int,
            -2 * (WORLD_MAX as int) * (MAX_TEX_DIM as int),
            2 * (WORLD_MAX as int) * (MAX_TEX_DIM as int),
        );
    }
    let tx = clamp_texel(qx as i64, tw - 1);
    let ty = clamp_texel(qy as i64, th - 1);
    proof {
        crate::raster::lemma_row_major(tx as int, ty as int, tw as int, th as int);
        assert((tw as int) * (th as int) <= 0x100_0000) by (nonlinear_arith)
            requires
                tw <= 4096 && th <= 4096,
        ;
    }
    let off: usize = (ty * tw + tx) * 4;
    assert(off + 3 < t.data@.len());
    let tr = t.data[off];
    let tg = t.data[off + 1];
    let tb = t.data[off + 2];
    let ta = t.data[off + 3];
    Rgba {
        r: blend_exec(tr, base.r, ta),
        g: blend_exec(tg, base.g, ta),
        b: blend_exec(tb, base.b, ta),
        a: 255,
    }
}

/// One channel of the alpha blend.
fn blend_exec(t: u8, b: u8, a: u8) -> (r: u8)
    ensures
        r == blend_chan(t as int, b as int, a as int),
{
    proof {
        assert((t as int) * (a as int) <= 255 * (a as int) && (b as int) * (255 - a as int) <= 255
            * (255 - a as int) && (t as int) * (a as int) >= 0 && (b as int) * (255 - a as int)
            >= 0) by (nonlinear_arith)
            requires
                0 <= t <= 255 && 0 <= b <= 255 && 0 <= a <= 255,
        ;
    }
    let num: i128 = (t as i128) * (a as i128) + (b as i128) * ((255 - a) as i128);
    proof {
        assert(255 * (a as int) + 255 * (255 - a as int) == 255 * 255) by (nonlinear_arith);
        lemma_trunc_div_in_range(num as int, 255, 0, 255);
    }
    trunc_div_i128(num, 255) as u8
}

} // verus!
