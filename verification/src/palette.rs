//! Packed 15-bit colour words.
//!
//! A colour word holds red in bits 0 to 4, green in bits 5 to 9, blue in
//! bits 10 to 14 and an alpha flag in bit 15. Each channel is first brought
//! to the range of eight bits; its top five bits make the field, and the top
//! bit of alpha makes the flag. A word is stored low byte first.

use vstd::prelude::*;
use crate::pixel::Rgba;
use crate::sample::{lemma_rescale_bounded, rescale, scale, Sample};

verus! {

/// A channel brought to the range of eight bits, rounded down.
pub open spec fn channel8<T: Sample>(c: T) -> nat {
    rescale(c.value(), T::max_spec(), 255)
}

/// The colour word of four eight-bit channels. Without `use_alpha` the
/// alpha flag stays clear.
pub open spec fn color_word(r8: nat, g8: nat, b8: nat, a8: nat, use_alpha: bool) -> nat {
    (if use_alpha && a8 >= 128 {
        0x8000nat
    } else {
        0nat
    }) + (b8 / 8) * 1024 + (g8 / 8) * 32 + r8 / 8
}

/// The colour word of a colour.
pub open spec fn packed_color<T: Sample>(c: Rgba<T>, use_alpha: bool) -> nat {
    color_word(channel8(c.r), channel8(c.g), channel8(c.b), channel8(c.a), use_alpha)
}

/// The bytes of a palette: two for each colour, low byte first.
pub open spec fn palette_bytes<T: Sample>(colors: Seq<Rgba<T>>, use_alpha: bool) -> Seq<u8> {
    Seq::new(
        2 * colors.len(),
        |i: int|
            if i % 2 == 0 {
                (packed_color(colors[i / 2], use_alpha) % 256) as u8
            } else {
                (packed_color(colors[i / 2], use_alpha) / 256) as u8
            },
    )
}

/// Every colour word fits in sixteen bits and holds the top five bits of
/// red, green and blue in its three fields; its top bit is set only where
/// alpha is asked for and the top bit of alpha is set.
pub proof fn lemma_packed_color_fields<T: Sample>(c: Rgba<T>, use_alpha: bool)
    ensures
        packed_color(c, use_alpha) <= 0xFFFF,
        !use_alpha ==> packed_color(c, use_alpha) < 0x8000,
        packed_color(c, use_alpha) % 32 == channel8(c.r) / 8,
        (packed_color(c, use_alpha) / 32) % 32 == channel8(c.g) / 8,
        (packed_color(c, use_alpha) / 1024) % 32 == channel8(c.b) / 8,
        packed_color(c, use_alpha) >= 0x8000 <==> use_alpha && channel8(c.a) >= 128,
{
    T::lemma_value_bounds(c.r);
    T::lemma_value_bounds(c.g);
    T::lemma_value_bounds(c.b);
    T::lemma_value_bounds(c.a);
    lemma_rescale_bounded(c.r.value(), T::max_spec(), 255);
    lemma_rescale_bounded(c.g.value(), T::max_spec(), 255);
    lemma_rescale_bounded(c.b.value(), T::max_spec(), 255);
    lemma_rescale_bounded(c.a.value(), T::max_spec(), 255);
}

/// Brings a channel to the range of eight bits.
fn normalize<T: Sample>(c: T) -> (c8: u16)
    ensures
        c8 == channel8(c),
        c8 <= 255,
{
    proof {
        T::lemma_value_bounds(c);
    }
    scale(c.to_u32(), T::max_value(), 255) as u16
}

/// Packs a colour into its colour word.
pub fn pack_color<T: Sample>(c: Rgba<T>, use_alpha: bool) -> (word: u16)
    ensures
        word == packed_color(c, use_alpha),
{
    let r: u16 = normalize(c.r);
    let g: u16 = normalize(c.g);
    let b: u16 = normalize(c.b);
    let a: u16 = if use_alpha {
        normalize(c.a)
    } else {
        0
    };
    let word: u16 = (a & 0x80) << 8 | (b & 0xF8) << 7 | (g & 0xF8) << 2 | r >> 3;
    assert(word == (if a >= 128 {
        0x8000int
    } else {
        0int
    }) + (b / 8) * 1024 + (g / 8) * 32 + r / 8) by (bit_vector)
        requires
            word == (a & 0x80) << 8 | (b & 0xF8) << 7 | (g & 0xF8) << 2 | r >> 3,
            r <= 255,
            g <= 255,
            b <= 255,
            a <= 255,
    ;
    word
}

/// Encodes a series of colours as palette data.
pub fn encode_palette<T: Sample>(palette: &Vec<Rgba<T>>, use_alpha: bool) -> (out: Vec<u8>)
    ensures
        out@ == palette_bytes(palette@, use_alpha),
{
    let mut out: Vec<u8> = Vec::new();
    let mut i: usize = 0;
    while i < palette.len()
        invariant
            i <= palette.len(),
            out@.len() == 2 * i,
            forall|j: int| 0 <= j < 2 * i ==> out@[j] == palette_bytes(palette@, use_alpha)[j],
        decreases palette.len() - i,
    {
        let word: u16 = pack_color(palette[i], use_alpha);
        let lo: u8 = (word & 0xFF) as u8;
        let hi: u8 = (word >> 8) as u8;
        proof {
            assert(word & 0xFF == word % 256 && word >> 8 == word / 256 && word >> 8 <= 255)
                by (bit_vector);
        }
        out.push(lo);
        out.push(hi);
        i += 1;
    }
    assert(out@ =~= palette_bytes(palette@, use_alpha));
    out
}

} // verus!
