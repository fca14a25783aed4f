//! Text labels as textures: lays a string out on a glyph grid (wrapping at
//! the texture's width, dropping lines past its height) and rasterizes each
//! character's 8x8 bitmap, scaled four times — opaque black ink on a
//! transparent background, ready to blend like any other texture.

use crate::texture::{texture_valid, Texture, MAX_TEX_DIM};
use font8x8::UnicodeFonts;
use vstd::prelude::*;

verus! {

/// The width of one glyph cell in texels: an 8-texel font scaled by 4.
pub const GLYPH_CELL: usize = 32;

/// The scale factor applied to the 8x8 font.
pub const GLYPH_SCALE: usize = 4;

/// The 8x8 bitmap of a basic-plane character, one byte per row, or
/// nothing for a character outside the table; the result depends on the
/// character alone.
pub uninterp spec fn basic_glyph(c: char) -> Option<Seq<u8>>;

/// Relies on font8x8's `BASIC_FONTS` table (`get`): the 8x8 bitmap of a
/// basic-plane character as eight row bytes, `None` for characters the
/// table does not hold.
#[verifier::external_body]
fn glyph_bitmap(c: char) -> (r: Option<Vec<u8>>)
    ensures
        (r is Some <==> basic_glyph(c) is Some),
        (r matches Some(g) ==> basic_glyph(c) == Option::Some(g@) && g@.len() == 8),
{
    font8x8::BASIC_FONTS.get(c).map(|b| b.to_vec())
}

/// Whether the label's ink covers texel `(px, py)`: the texel falls in a
/// whole glyph cell, the wrapped text has a character there, the
/// character has a bitmap, and the bitmap's bit under the texel (columns
/// drawn most-significant-first, each bit as a 4x4 block) is set.
pub open spec fn text_pixel_on(text: Seq<char>, w: int, h: int, px: int, py: int) -> bool {
    let cpl = w / 32;
    let maxl = h / 32;
    let cn = px / 32;
    let ln = py / 32;
    let col = 7 - ((px % 32) / 4);
    let row = (py % 32) / 4;
    let idx = ln * cpl + cn;
    &&& cn < cpl
    &&& ln < maxl
    &&& 0 <= idx < text.len()
    &&& match basic_glyph(text[idx]) {
        Option::Some(g) => g[row] & (1u8 << (col as u8)) != 0,
        Option::None => false,
    }
}

/// Renders a text label into a texture: every ink texel is opaque black
/// (alpha 255, color zero) and every other byte is zero (transparent
/// background). The contract pins each byte to the layout predicate.
#[verifier::loop_isolation(false)]
pub fn create_text_texture(text: &Vec<char>, width: usize, height: usize) -> (r: Texture)
    requires
        GLYPH_CELL <= width <= MAX_TEX_DIM,
        GLYPH_CELL <= height <= MAX_TEX_DIM,
    ensures
        texture_valid(r),
        r.width == width,
        r.height == height,
        forall|b: int|
            0 <= b < r.data@.len() ==> #[trigger] r.data@[b] == (if text_pixel_on(
                text@,
                width as int,
                height as int,
                (b / 4) % (width as int),
                (b / 4) / (width as int),
            ) && b % 4 == 3 {
                255u8
            } else {
                0u8
            }),
{
    proof {
        assert((width as int) * (height as int) <= 0x100_0000) by (nonlinear_arith)
            requires
                width <= 4096 && height <= 4096,
        ;
    }
    let cpl = width / GLYPH_CELL;
    let maxl = height / GLYPH_CELL;
    let n: usize = width * height;
    let mut data: Vec<u8> = Vec::new();
    let mut i: usize = 0;
    while i < n
        invariant
            i <= n,
            data@.len() == 4 * i,
            forall|b: int|
                0 <= b < 4 * i ==> #[trigger] data@[b] == (if text_pixel_on(
                    text@,
                    width as int,
                    height as int,
                    (b / 4) % (width as int),
                    (b / 4) / (width as int),
                ) && b % 4 == 3 {
                    255u8
                } else {
                    0u8
                }),
        decreases n - i,
    {
        let px = i % width;
        let py = i / width;
        let cn = px / GLYPH_CELL;
        let ln = py / GLYPH_CELL;
        let col = 7 - ((px % GLYPH_CELL) / GLYPH_SCALE);
        let row = (py % GLYPH_CELL) / GLYPH_SCALE;
        let mut on = false;
        if cn < cpl && ln < maxl {
            proof {
                assert((ln as int) * (cpl as int) <= 0x100_0000) by (nonlinear_arith)
                    requires
                        ln <= 4096 && cpl <= 4096,
                ;
            }
            let idx = ln * cpl + cn;
            if idx < text.len() {
                match glyph_bitmap(text[idx]) {
                    Some(g) => {
                        on = (g[row] & (1u8 << (col as u8))) != 0;
                    },
                    None => {
                        on = false;
                    },
                }
            }
        }
        proof {
            assert(on == text_pixel_on(
                text@,
                width as int,
                height as int,
                px as int,
                py as int,
            ));
            assert((width as int) * (height as int) <= 0x100_0000) by (nonlinear_arith)
                requires
                    width <= 4096 && height <= 4096,
            ;
        }
        data.push(0);
        data.push(0);
        data.push(0);
        data.push(if on {
            255
        } else {
            0
        });
        proof {
            crate::raster::lemma_grid_index(i as int, width as int, height as int);
            assert forall|b: int| 4 * i <= b < 4 * (i + 1) implies data@[b] == (if text_pixel_on(
                text@,
                width as int,
                height as int,
                (b / 4) % (width as int),
                (b / 4) / (width as int),
            ) && b % 4 == 3 {
                255u8
            } else {
                0u8
            }) by {
                vstd::arithmetic::div_mod::lemma_fundamental_div_mod_converse(
                    b,
                    4,
                    i as int,
                    b - 4 * (i as int),
                );
            }
        }
        i = i + 1;
    }
    proof {
        assert(data@.len() == width * height * 4) by (nonlinear_arith)
            requires
                data@.len() == 4 * (width * height),
        ;
    }
    Texture { data, width, height }
}

} // verus!
