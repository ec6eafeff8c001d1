//! Tile patterns, palettes and direct colour for the AGB platform.

use vstd::prelude::*;
use crate::palette::{encode_palette, palette_bytes};
use crate::pixel::{Pixel, Rgba};
use crate::raster::Raster;
use crate::sample::Sample;
use crate::tiles::{
    lemma_tile_is_stretch_of_scan,
    lemma_tiles_fit,
    tile_scan,
    TileChunkIterator,
    TileChunks,
};

verus! {

/// Two samples in one byte: the first in the low nibble, the second in the
/// high nibble. What a sample holds above its low four bits is dropped.
pub open spec fn nibble_pair(first: nat, second: nat) -> u8 {
    (first % 16 + 16 * (second % 16)) as u8
}

/// A series of samples packed two to a byte.
pub open spec fn nibble_pairs<P: Sample>(samples: Seq<P>) -> Seq<u8> {
    Seq::new(
        samples.len() / 2,
        |i: int| nibble_pair(samples[2 * i].value(), samples[2 * i + 1].value()),
    )
}

/// A series of samples, one byte each. What a sample holds above its low
/// eight bits is dropped.
pub open spec fn low_bytes<P: Sample>(samples: Seq<P>) -> Seq<u8> {
    Seq::new(samples.len(), |i: int| (samples[i].value() % 256) as u8)
}

/// The 4bpp tile pattern data of a raster of indexes: tiles of 8 by 8, two
/// indexes to a byte.
pub open spec fn indexes_4bpp<P: Sample>(data: Seq<P>, width: nat) -> Seq<u8> {
    nibble_pairs(tile_scan(data, width, 8, 8))
}

/// The 8bpp tile pattern data of a raster of indexes, with square tiles of
/// `tsize` samples a side: one index to a byte.
pub open spec fn indexes_8bpp<P: Sample>(data: Seq<P>, width: nat, tsize: nat) -> Seq<u8> {
    low_bytes(tile_scan(data, width, tsize, tsize))
}

/// The colours of a series of pixels.
pub open spec fn colors_of<P: Pixel>(pixels: Seq<P>) -> Seq<Rgba<P::Subpixel>> {
    Seq::new(pixels.len(), |i: int| pixels[i].rgba())
}

/// Hands out the pixels of a raster as colours, row by row.
pub struct ImageRgbaIterator<'a, P> {
    image: &'a Raster<P>,
    next: usize,
}

impl<'a, P: Pixel> ImageRgbaIterator<'a, P> {
    /// The raster whose pixels are handed out.
    pub closed spec fn image(&self) -> Raster<P> {
        *self.image
    }

    /// How many pixels have been handed out.
    pub closed spec fn position(&self) -> nat {
        self.next as nat
    }

    /// Starts before the first pixel of `image`.
    pub fn new(image: &'a Raster<P>) -> (it: Self)
        ensures
            it.image() == *image,
            it.position() == 0,
    {
        ImageRgbaIterator { image, next: 0 }
    }

    /// The colour of the next pixel, or `None` after the last one.
    pub fn next(&mut self) -> (color: Option<Rgba<P::Subpixel>>)
        ensures
            final(self).image() == old(self).image(),
            color == if old(self).position() < old(self).image()@.pixels.len() {
                Some(old(self).image()@.pixels[old(self).position() as int].rgba())
            } else {
                None
            },
            final(self).position() == if color.is_some() {
                old(self).position() + 1
            } else {
                old(self).position()
            },
    {
        let pixels = self.image.pixels();
        if self.next < pixels.len() {
            let color = pixels[self.next].to_rgba();
            self.next = self.next + 1;
            Some(color)
        } else {
            None
        }
    }
}

/// Encoder for 4bpp tile patterns for the AGB platform.
pub struct AGB4Encoder {}

impl AGB4Encoder {
    /// The encoder of 4bpp patterns; the format has no variants.
    pub fn new() -> (enc: Self) {
        AGB4Encoder {  }
    }

    /// Encodes a raster of indexes, `width` samples wide, as 4bpp tile
    /// patterns. The rows of tiles follow from the length of `data`.
    pub fn encode_indexes<P: Sample>(&self, data: Vec<P>, width: u32, _height: u32) -> (out: Vec<u8>)
        ensures
            out@ == indexes_4bpp(data@, width as nat),
    {
        let ghost scan = tile_scan(data@, width as nat, 8, 8);
        let ghost want = indexes_4bpp(data@, width as nat);
        let mut out: Vec<u8> = Vec::new();
        let mut tiles = TileChunkIterator::new(data, 8, 8, width);
        let ghost chunks = tiles@;
        loop
            invariant
                chunks.position == 0,
                chunks.tile_width == 8,
                chunks.tile_height == 8,
                chunks.scan() == scan,
                want == nibble_pairs(scan),
                tiles@.position <= chunks.tile_count(),
                tiles@ == (TileChunks { position: tiles@.position, ..chunks }),
                out@.len() == tiles@.position * 32,
                forall|j: int| 0 <= j < out@.len() ==> out@[j] == want[j],
            ensures
                tiles@.position == chunks.tile_count(),
                out@.len() == tiles@.position * 32,
                forall|j: int| 0 <= j < out@.len() ==> out@[j] == want[j],
            decreases chunks.tile_count() - tiles@.position,
        {
            let ghost t = tiles@.position;
            let next = tiles.next();
            if next.is_none() {
                break ;
            }
            let tile = next.unwrap();
            proof {
                lemma_tile_is_stretch_of_scan(chunks, t);
            }
            let mut i: usize = 0;
            while i < 32
                invariant
                    i <= 32,
                    tile@.len() == 64,
                    (t + 1) * 64 <= scan.len(),
                    tile@ == scan.subrange((t * 64) as int, ((t + 1) * 64) as int),
                    want == nibble_pairs(scan),
                    out@.len() == t * 32 + i,
                    forall|j: int| 0 <= j < out@.len() ==> out@[j] == want[j],
                decreases 32 - i,
            {
                let first: u32 = tile[2 * i].to_u32();
                let second: u32 = tile[2 * i + 1].to_u32();
                let byte: u8 = ((first & 0x0F) | (second & 0x0F) << 4) as u8;
                proof {
                    assert(((first & 0x0F) | (second & 0x0F) << 4) == first % 16 + 16 * (second
                        % 16)) by (bit_vector);
                    let j = t * 32 + i;
                    assert(tile@[2 * i + 1] == scan[2 * j + 1]);
                    assert(want[j as int] == nibble_pair(scan[2 * j].value(), scan[2 * j + 1].value()));
                }
                out.push(byte);
                i += 1;
            }
        }
        proof {
            lemma_tiles_fit(chunks.data.len(), chunks.width, 8, 8);
            assert(scan.len() == chunks.tile_count() * 64);
        }
        assert(out@ =~= want);
        out
    }

    /// Encodes a palette of colours; the alpha flag of each word stays clear.
    pub fn encode_palette<T: Sample>(&self, palette: Vec<Rgba<T>>) -> (out: Vec<u8>)
        ensures
            out@ == palette_bytes(palette@, false),
    {
        encode_palette(&palette, false)
    }

    /// The largest index that a 4bpp pattern can hold.
    pub fn palette_maxcol(&self) -> (maxcol: u16)
        ensures
            maxcol == 15,
    {
        15
    }
}

/// Encoder for 8bpp tile patterns for the AGB platform.
pub struct AGB8Encoder {
    tsize: u32,
}

impl AGB8Encoder {
    /// The side of the square tiles into which a raster is cut: 8 for tiled
    /// patterns, 1 for chunky ones, which keep the raster's own order.
    pub closed spec fn tile_size(&self) -> nat {
        self.tsize as nat
    }

    /// The encoder of patterns in tiles of 8 by 8.
    pub fn new_tiled() -> (enc: Self)
        ensures
            enc.tile_size() == 8,
    {
        AGB8Encoder { tsize: 8 }
    }

    /// The encoder of patterns that keep the order of the raster.
    pub fn new_chunky() -> (enc: Self)
        ensures
            enc.tile_size() == 1,
    {
        AGB8Encoder { tsize: 1 }
    }

    /// Encodes a raster of indexes, `width` samples wide, as 8bpp patterns.
    /// The rows of tiles follow from the length of `data`.
    pub fn encode_indexes<P: Sample>(&self, data: Vec<P>, width: u32, _height: u32) -> (out: Vec<u8>)
        ensures
            out@ == indexes_8bpp(data@, width as nat, self.tile_size()),
    {
        let ghost side = self.tsize as nat;
        let ghost area = side * side;
        let ghost scan = tile_scan(data@, width as nat, side, side);
        let ghost want = indexes_8bpp(data@, width as nat, side);
        let mut out: Vec<u8> = Vec::new();
        let mut tiles = TileChunkIterator::new(data, self.tsize, self.tsize, width);
        let ghost chunks = tiles@;
        loop
            invariant
                chunks.position == 0,
                chunks.tile_width == side,
                chunks.tile_height == side,
                area == side * side,
                chunks.scan() == scan,
                want == low_bytes(scan),
                tiles@.position <= chunks.tile_count(),
                tiles@ == (TileChunks { position: tiles@.position, ..chunks }),
                out@.len() == tiles@.position * area,
                forall|j: int| 0 <= j < out@.len() ==> out@[j] == want[j],
            ensures
                tiles@.position == chunks.tile_count(),
                out@.len() == tiles@.position * area,
                forall|j: int| 0 <= j < out@.len() ==> out@[j] == want[j],
            decreases chunks.tile_count() - tiles@.position,
        {
            let ghost t = tiles@.position;
            let next = tiles.next();
            if next.is_none() {
                break ;
            }
            let tile = next.unwrap();
            proof {
                lemma_tile_is_stretch_of_scan(chunks, t);
                assert((t + 1) * area == t * area + area) by (nonlinear_arith);
            }
            let mut i: usize = 0;
            while i < tile.len()
                invariant
                    i <= tile@.len(),
                    tile@.len() == area,
                    t * area + area <= scan.len(),
                    tile@ == scan.subrange((t * area) as int, (t * area + area) as int),
                    want == low_bytes(scan),
                    out@.len() == t * area + i,
                    forall|j: int| 0 <= j < out@.len() ==> out@[j] == want[j],
                decreases tile@.len() - i,
            {
                let index: u32 = tile[i].to_u32();
                let byte: u8 = (index & 0xFF) as u8;
                proof {
                    assert(index & 0xFF == index % 256) by (bit_vector);
                }
                out.push(byte);
                i += 1;
            }
        }
        assert(out@ =~= want);
        out
    }

    /// Encodes a palette of colours; the alpha flag of each word stays clear.
    pub fn encode_palette<T: Sample>(&self, palette: Vec<Rgba<T>>) -> (out: Vec<u8>)
        ensures
            out@ == palette_bytes(palette@, false),
    {
        encode_palette(&palette, false)
    }

    /// The largest index that an 8bpp pattern can hold.
    pub fn palette_maxcol(&self) -> (maxcol: u16)
        ensures
            maxcol == 255,
    {
        255
    }
}

/// Encoder for 15-bit direct colour, for the AGB platform and for the NTR
/// platform, which reads bit 15 as an alpha flag.
pub struct AGB16Encoder {
    allow_ntr_alpha: bool,
}

impl AGB16Encoder {
    /// Whether the alpha flag of a word follows the pixel's alpha channel.
    pub closed spec fn alpha_enabled(&self) -> bool {
        self.allow_ntr_alpha
    }

    /// The encoder for the AGB platform, which ignores bit 15: the flag
    /// stays clear.
    pub fn new_agb() -> (enc: Self)
        ensures
            !enc.alpha_enabled(),
    {
        AGB16Encoder { allow_ntr_alpha: false }
    }

    /// The encoder for the NTR platform: the flag follows the top bit of
    /// the pixel's alpha channel.
    pub fn new_ntr() -> (enc: Self)
        ensures
            enc.alpha_enabled(),
    {
        AGB16Encoder { allow_ntr_alpha: true }
    }

    /// Encodes every pixel of a raster, row by row, as a colour word.
    pub fn encode_colors<P: Pixel>(&self, image: &Raster<P>) -> (out: Vec<u8>)
        ensures
            out@ == palette_bytes(colors_of(image@.pixels), self.alpha_enabled()),
    {
        let mut colors: Vec<Rgba<P::Subpixel>> = Vec::new();
        let mut pixels = ImageRgbaIterator::new(image);
        loop
            invariant
                pixels.image() == *image,
                pixels.position() <= image@.pixels.len(),
                colors@.len() == pixels.position(),
                forall|j: int| 0 <= j < colors@.len() ==> colors@[j] == image@.pixels[j].rgba(),
            ensures
                colors@.len() == image@.pixels.len(),
                forall|j: int| 0 <= j < colors@.len() ==> colors@[j] == image@.pixels[j].rgba(),
            decreases image@.pixels.len() - pixels.position(),
        {
            match pixels.next() {
                Some(color) => {
                    colors.push(color);
                },
                None => {
                    break ;
                },
            }
        }
        assert(colors@ =~= colors_of(image@.pixels));
        encode_palette(&colors, self.allow_ntr_alpha)
    }
}

} // verus!
