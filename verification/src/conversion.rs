//! Palette indexes drawn as grayscale, and read back from it.
//!
//! An image editor can author index data as a grayscale image: the
//! luminance of each pixel stands for an index, and the tiles of the pattern
//! data lie side by side in the image, from left to right and from top to
//! bottom.

use vstd::prelude::*;
use crate::pixel::{LumaA, Pixel};
use crate::raster::{lemma_place_in_bounds, Raster, RasterView};
use crate::sample::{
    lemma_rescale_bounded,
    lemma_rescale_nearest_same_range,
    lemma_rescale_same_range,
    rescale,
    rescale_nearest,
    sample_values,
    scale,
    scale_nearest,
    Sample,
};
use crate::tiles::{
    count_tiles,
    lemma_div_mod_of_sum,
    lemma_tile_address_in_bounds,
    lemma_tile_scan_is_reordering,
    lemma_tiles_fit,
    tile_address,
    tile_address_place,
    tile_count,
    tile_scan,
    tile_source_place,
};

verus! {

/// The index that a pixel of luminance and alpha stands for, among the
/// indexes `0..=maxcol`: its luminance brought to that range, rounded down.
/// A fully transparent pixel stands for index zero, whatever its luminance.
pub open spec fn luma_index<S: Sample>(pixel: LumaA<S>, maxcol: S) -> nat {
    if pixel.alpha.value() == 0 {
        0
    } else {
        rescale(pixel.luma.value(), S::max_spec(), maxcol.value())
    }
}

/// The length of a series of pixels once the fully transparent pixels at
/// its end are cut off.
pub open spec fn opaque_len<P: Pixel>(pixels: Seq<P>) -> nat
    decreases pixels.len(),
{
    if pixels.len() == 0 {
        0
    } else if pixels.last().luma_alpha().alpha.value() != 0 {
        pixels.len()
    } else {
        opaque_len(pixels.drop_last())
    }
}

/// The index data that an image stands for: the indexes of its pixels in
/// tile order, up to the last pixel that is not fully transparent. Pixels
/// outside the whole tiles of the image stand for nothing.
pub open spec fn luma_indexes<P: Pixel>(
    image: RasterView<P>,
    maxcol: P::Subpixel,
    tw: nat,
    th: nat,
) -> Seq<nat> {
    let scan = tile_scan(image.pixels, image.width, tw, th);
    Seq::new(opaque_len(scan), |k: int| luma_index(scan[k].luma_alpha(), maxcol))
}

/// No pixel stands for an index above `maxcol`.
pub proof fn lemma_luma_index_in_range<S: Sample>(pixel: LumaA<S>, maxcol: S)
    ensures
        luma_index(pixel, maxcol) <= maxcol.value(),
{
    S::lemma_value_bounds(pixel.luma);
    lemma_rescale_bounded(pixel.luma.value(), S::max_spec(), maxcol.value());
}

/// Cutting off a transparent last pixel does not change where the opaque
/// part of a series ends.
proof fn lemma_opaque_len_step<P: Pixel>(pixels: Seq<P>, n: nat)
    requires
        0 < n <= pixels.len(),
    ensures
        opaque_len(pixels.take(n as int)) <= n,
        pixels[n - 1].luma_alpha().alpha.value() != 0 ==> opaque_len(pixels.take(n as int)) == n,
        pixels[n - 1].luma_alpha().alpha.value() == 0 ==> opaque_len(pixels.take(n as int))
            == opaque_len(pixels.take(n - 1)),
    decreases n,
{
    let head = pixels.take(n as int);
    assert(head.last() == pixels[n - 1]);
    assert(head.drop_last() =~= pixels.take(n - 1));
    if n > 1 {
        lemma_opaque_len_step(pixels, (n - 1) as nat);
    } else {
        assert(opaque_len(pixels.take(0)) == 0);
    }
}

/// The index that a pixel of luminance and alpha stands for.
pub fn index_of_luma<S: Sample>(pixel: LumaA<S>, maxcol: S) -> (index: S)
    ensures
        index.value() == luma_index(pixel, maxcol),
{
    proof {
        S::lemma_value_bounds(pixel.luma);
        S::lemma_value_bounds(maxcol);
    }
    if pixel.alpha.to_u32() == 0 {
        S::from_u32(0)
    } else {
        S::from_u32(scale(pixel.luma.to_u32(), S::max_value(), maxcol.to_u32()))
    }
}

/// Given an image, produces the index data that its luminance stands for.
///
/// The image is cut into tiles of `tsize.0` by `tsize.1` pixels, and the
/// tiles are read from left to right and from top to bottom. Each pixel is
/// read as luminance with alpha, and its luminance is mapped to an index in
/// `0..=maxcol`. The data ends with the last pixel, in tile order, that is
/// not fully transparent, so that blank tiles at the end of an image are
/// not encoded. A fully transparent pixel before that end gives index zero.
pub fn indexes_from_luma<P: Pixel>(image: &Raster<P>, maxcol: P::Subpixel, tsize: (u32, u32)) -> (out:
    Vec<P::Subpixel>)
    ensures
        sample_values(out@) == luma_indexes(image@, maxcol, tsize.0 as nat, tsize.1 as nat),
{
    let tw: u32 = tsize.0;
    let th: u32 = tsize.1;
    let width: u32 = image.width();
    let pixels = image.pixels();
    let len: usize = pixels.len();
    let ghost scan = tile_scan(pixels@, width as nat, tw as nat, th as nat);
    proof {
        lemma_tiles_fit(len as nat, width as nat, tw as nat, th as nat);
    }
    let count: usize = count_tiles(len, width, tw, th);
    let total: usize = if count == 0 {
        0
    } else {
        count * ((tw as usize) * (th as usize))
    };
    assert(total == scan.len()) by (nonlinear_arith)
        requires
            total == (if count == 0 {
                0
            } else {
                count * (tw * th)
            }),
            scan.len() == count * (tw * th),
    ;
    assert(scan.take(total as int) =~= scan);
    let mut n: usize = total;
    let mut trimming: bool = true;
    while trimming && n > 0
        invariant
            n <= total,
            total == scan.len(),
            len == pixels@.len(),
            total == tile_count(len as nat, width as nat, tw as nat, th as nat) * (tw * th),
            scan == tile_scan(pixels@, width as nat, tw as nat, th as nat),
            opaque_len(scan) == opaque_len(scan.take(n as int)),
            !trimming ==> n > 0 && scan[n - 1].luma_alpha().alpha.value() != 0,
        decreases n + (if trimming { 1nat } else { 0nat }),
    {
        let src: usize = tile_source_place(n - 1, len, width, tw, th);
        let last = pixels[src].to_luma_alpha();
        proof {
            lemma_opaque_len_step(scan, n as nat);
        }
        if last.alpha.to_u32() != 0 {
            trimming = false;
        } else {
            n -= 1;
        }
    }
    proof {
        if n > 0 {
            lemma_opaque_len_step(scan, n as nat);
        }
    }
    let mut out: Vec<P::Subpixel> = Vec::new();
    let mut k: usize = 0;
    while k < n
        invariant
            k <= n <= total,
            len == pixels@.len(),
            total == tile_count(len as nat, width as nat, tw as nat, th as nat) * (tw * th),
            scan == tile_scan(pixels@, width as nat, tw as nat, th as nat),
            out@.len() == k,
            forall|j: int| 0 <= j < k ==> out@[j].value() == luma_index(scan[j].luma_alpha(), maxcol),
        decreases n - k,
    {
        let src: usize = tile_source_place(k, len, width, tw, th);
        let index = index_of_luma(pixels[src].to_luma_alpha(), maxcol);
        out.push(index);
        k += 1;
    }
    out
}

/// The luminance, in eight bits, by which an index among `0..=maxcol` is
/// drawn: the index brought to the range `0..=255` and rounded to the
/// nearest gray level, a half rounded up. An index at or above `maxcol` is
/// drawn with full luminance.
pub open spec fn index_luma(index: nat, maxcol: nat) -> nat {
    if index >= maxcol {
        255
    } else {
        rescale_nearest(index, maxcol, 255)
    }
}

/// Whether `c` is the least number whose square is at least `n`.
pub open spec fn is_ceil_sqrt(c: nat, n: nat) -> bool {
    c * c >= n && (c == 0 || (c - 1) * (c - 1) < n)
}

/// The square root of `n`, rounded up.
pub open spec fn ceil_sqrt(n: nat) -> nat {
    choose|c: nat| is_ceil_sqrt(c, n)
}

/// The quotient of `n` by `d`, rounded up; zero where `d` is zero.
pub open spec fn ceil_div(n: nat, d: nat) -> nat {
    if d == 0 {
        0
    } else {
        ((n + d - 1) / (d as int)) as nat
    }
}

/// The extent of the image in which `tcount` tiles of `tw` by `th` pixels
/// are laid out when the caller names none: the smallest roughly square
/// grid, as many tiles wide as the square root of `tcount`, rounded up, and
/// as many rows high as they need.
pub open spec fn default_image_size(tcount: nat, tw: nat, th: nat) -> (nat, nat) {
    let cols = ceil_sqrt(tcount);
    (cols * tw, ceil_div(tcount, cols) * th)
}

/// The extent of the image that shows `len` indexes in tiles of `tw` by `th`
/// pixels, or nothing where the shapes do not match: where a tile is empty,
/// where the indexes do not fill whole tiles, or where the extent is not
/// made of whole tiles.
pub open spec fn luma_image_size(len: nat, tw: nat, th: nat, isize: Option<(nat, nat)>) -> Option<
    (nat, nat),
> {
    if tw == 0 || th == 0 || len % (tw * th) != 0 {
        None
    } else {
        let size = match isize {
            Some(size) => size,
            None => default_image_size(len / (tw * th), tw, th),
        };
        if size.0 % tw != 0 || size.1 % th != 0 {
            None
        } else {
            Some(size)
        }
    }
}

/// The pixel at `(x, y)` of the image, `width` pixels wide, that shows the
/// given indexes: opaque, with the luminance of the index at the tile
/// address of the place, or fully transparent and black where the indexes
/// end before that address.
pub open spec fn luma_image_pixel(
    indexes: Seq<nat>,
    maxcol: nat,
    width: nat,
    tw: nat,
    th: nat,
    x: nat,
    y: nat,
) -> LumaA<u8> {
    let k = tile_address(x, y, width, tw, th);
    if k >= indexes.len() {
        LumaA { luma: 0u8, alpha: 0u8 }
    } else {
        LumaA { luma: index_luma(indexes[k as int], maxcol) as u8, alpha: 255u8 }
    }
}

/// The image that shows the given indexes, or nothing where the shapes do
/// not match or where no raster can hold an image of that extent.
pub open spec fn luma_image(
    indexes: Seq<nat>,
    maxcol: nat,
    tw: nat,
    th: nat,
    isize: Option<(nat, nat)>,
) -> Option<RasterView<LumaA<u8>>> {
    match luma_image_size(indexes.len(), tw, th, isize) {
        Some((w, h)) => if w <= u32::MAX && h <= u32::MAX && w * h <= usize::MAX {
            Some(
                RasterView {
                    width: w,
                    height: h,
                    pixels: Seq::new(
                        w * h,
                        |i: int|
                            luma_image_pixel(
                                indexes,
                                maxcol,
                                w,
                                tw,
                                th,
                                (i % (w as int)) as nat,
                                (i / (w as int)) as nat,
                            ),
                    ),
                },
            )
        } else {
            None
        },
        None => None,
    }
}

/// An extent that the caller names, as numbers.
pub open spec fn size_view(isize: Option<(u32, u32)>) -> Option<(nat, nat)> {
    match isize {
        Some((w, h)) => Some((w as nat, h as nat)),
        None => None,
    }
}

/// Only one number is the least whose square is at least `n`.
pub proof fn lemma_ceil_sqrt_unique(a: nat, b: nat, n: nat)
    requires
        is_ceil_sqrt(a, n),
        is_ceil_sqrt(b, n),
    ensures
        a == b,
        a == ceil_sqrt(n),
{
    if a < b {
        assert(a * a <= (b - 1) * (b - 1)) by (nonlinear_arith)
            requires
                0 <= a <= b - 1,
        ;
    }
    if b < a {
        assert(b * b <= (a - 1) * (a - 1)) by (nonlinear_arith)
            requires
                0 <= b <= a - 1,
        ;
    }
    let c = ceil_sqrt(n);
    if a < c {
        assert(a * a <= (c - 1) * (c - 1)) by (nonlinear_arith)
            requires
                0 <= a <= c - 1,
        ;
    }
    if c < a {
        assert(c * c <= (a - 1) * (a - 1)) by (nonlinear_arith)
            requires
                0 <= c <= a - 1,
        ;
    }
}

/// Every number has a square root, rounded up.
pub proof fn lemma_ceil_sqrt_exists(n: nat)
    ensures
        is_ceil_sqrt(ceil_sqrt(n), n),
    decreases n,
{
    if n == 0 {
        assert(is_ceil_sqrt(0, 0));
    } else {
        lemma_ceil_sqrt_exists((n - 1) as nat);
        let c = ceil_sqrt((n - 1) as nat);
        if c * c >= n {
            assert(is_ceil_sqrt(c, n));
        } else {
            assert((c + 1) * (c + 1) >= n) by (nonlinear_arith)
                requires
                    c * c >= n - 1,
                    c >= 0,
            ;
            assert(is_ceil_sqrt(c + 1, n));
        }
    }
}

/// The extent that is chosen where the caller names none is made of whole
/// tiles, and its grid has a place for every tile.
pub proof fn lemma_default_image_holds_every_tile(tcount: nat, tw: nat, th: nat)
    requires
        0 < tw,
        0 < th,
    ensures
        ({
            let size = default_image_size(tcount, tw, th);
            &&& size.0 % tw == 0
            &&& size.1 % th == 0
            &&& (size.0 / tw) * (size.1 / th) >= tcount
        }),
{
    lemma_ceil_sqrt_exists(tcount);
    let cols = ceil_sqrt(tcount);
    let rows = ceil_div(tcount, cols);
    lemma_div_mod_of_sum(cols as int, 0, tw as int);
    lemma_div_mod_of_sum(rows as int, 0, th as int);
    if cols > 0 {
        let n = tcount + cols - 1;
        assert(n == cols * (n / (cols as int)) + n % (cols as int)) by (nonlinear_arith)
            requires
                cols > 0,
        ;
        assert(cols * rows >= tcount) by (nonlinear_arith)
            requires
                n == cols * rows + n % (cols as int),
                n % (cols as int) < cols,
                n == tcount + cols - 1,
        ;
    } else {
        assert(0 * rows == 0) by (nonlinear_arith);
    }
}

/// The square root of `n`, rounded up.
pub fn ceil_sqrt_of(n: u64) -> (c: u64)
    ensures
        is_ceil_sqrt(c as nat, n as nat),
        c == ceil_sqrt(n as nat),
        c <= 0x1_0000_0000,
{
    let mut c: u64 = 0;
    let mut square: u128 = 0;
    while square < n as u128
        invariant
            c <= 0x1_0000_0000,
            square == c * c,
            c == 0 || (c - 1) * (c - 1) < n,
        decreases 0x1_0000_0000 - c,
    {
        assert(c < 0x1_0000_0000) by (nonlinear_arith)
            requires
                c * c < n,
                n <= 0xFFFF_FFFF_FFFF_FFFF,
                c <= 0x1_0000_0000,
        ;
        c += 1;
        assert(c * c <= 0x1_0000_0000 * 0x1_0000_0000) by (nonlinear_arith)
            requires
                c <= 0x1_0000_0000,
        ;
        square = (c as u128) * (c as u128);
    }
    proof {
        lemma_ceil_sqrt_unique(c as nat, c as nat, n as nat);
    }
    c
}

/// The luminance by which an index among `0..=maxcol` is drawn: the nearest
/// gray level, and full luminance at or above `maxcol`.
pub fn luma_of_index<S: Sample>(index: S, maxcol: u16) -> (luma: u8)
    ensures
        luma == index_luma(index.value(), maxcol as nat),
{
    let i: u32 = index.to_u32();
    if i >= maxcol as u32 {
        255
    } else {
        scale_nearest(i, maxcol as u32, 255) as u8
    }
}

/// The extent of the image that shows `len` indexes, where the shapes
/// match and a raster can hold it.
fn image_size(len: usize, tw: u32, th: u32, isize: Option<(u32, u32)>) -> (size: Option<(u32, u32)>)
    ensures
        size_view(size) == match luma_image_size(
            len as nat,
            tw as nat,
            th as nat,
            size_view(isize),
        ) {
            Some((w, h)) => if w <= u32::MAX && h <= u32::MAX && w * h <= usize::MAX {
                Some((w, h))
            } else {
                None
            },
            None => None,
        },
{
    if tw == 0 || th == 0 {
        return None;
    }
    assert(tw * th <= 0xFFFF_FFFF * 0xFFFF_FFFF) by (nonlinear_arith)
        requires
            tw <= 0xFFFF_FFFF,
            th <= 0xFFFF_FFFF,
    ;
    assert(0 < tw * th) by (nonlinear_arith)
        requires
            0 < tw,
            0 < th,
    ;
    let tstride: u64 = (tw as u64) * (th as u64);
    if (len as u64) % tstride != 0 {
        return None;
    }
    let tcount: u64 = (len as u64) / tstride;
    let iw: u128;
    let ih: u128;
    match isize {
        Some((w, h)) => {
            iw = w as u128;
            ih = h as u128;
        },
        None => {
            let cols: u64 = ceil_sqrt_of(tcount);
            let rows: u128 = if cols == 0 {
                0
            } else {
                (tcount as u128 + cols as u128 - 1) / (cols as u128)
            };
            assert(cols * tw <= 0x1_0000_0000 * 0xFFFF_FFFF) by (nonlinear_arith)
                requires
                    cols <= 0x1_0000_0000,
                    tw <= 0xFFFF_FFFF,
            ;
            assert(rows * th <= 0x1_FFFF_FFFF_FFFF_FFFF * 0xFFFF_FFFF) by (nonlinear_arith)
                requires
                    rows <= 0x1_FFFF_FFFF_FFFF_FFFF,
                    th <= 0xFFFF_FFFF,
            ;
            iw = (cols as u128) * (tw as u128);
            ih = rows * (th as u128);
        },
    }
    if iw > u32::MAX as u128 || ih > u32::MAX as u128 {
        return None;
    }
    if iw % (tw as u128) != 0 || ih % (th as u128) != 0 {
        return None;
    }
    assert(iw * ih <= 0xFFFF_FFFF * 0xFFFF_FFFF) by (nonlinear_arith)
        requires
            iw <= 0xFFFF_FFFF,
            ih <= 0xFFFF_FFFF,
    ;
    if iw * ih > usize::MAX as u128 {
        return None;
    }
    Some((iw as u32, ih as u32))
}

/// Given index data, produces an image that shows it: each index among
/// `0..=maxcol` is drawn as the nearest of the gray levels `0..=255`, and the
/// tiles lie side by side from left to right and from top to bottom.
///
/// The image has the extent `isize` where one is given; otherwise the
/// smallest roughly square grid of tiles that holds the data. There is no
/// image where a tile is empty, where the data does not fill whole tiles,
/// where the extent is not made of whole tiles, or where the extent is more
/// than a raster can hold. The image may hold more or fewer tiles than the
/// data: pixels without an index are fully transparent, indexes without a
/// pixel are not shown.
pub fn luma_from_indexes<S: Sample>(
    data: Vec<S>,
    maxcol: u16,
    tsize: (u32, u32),
    isize: Option<(u32, u32)>,
) -> (image: Option<Box<Raster<LumaA<u8>>>>)
    ensures
        tsize.0 == 0 || tsize.1 == 0 || data@.len() % ((tsize.0 * tsize.1) as nat) != 0
            ==> image.is_none(),
        image.is_some() <==> luma_image(
            sample_values(data@),
            maxcol as nat,
            tsize.0 as nat,
            tsize.1 as nat,
            size_view(isize),
        ).is_some(),
        image.is_some() ==> image.unwrap()@ == luma_image(
            sample_values(data@),
            maxcol as nat,
            tsize.0 as nat,
            tsize.1 as nat,
            size_view(isize),
        ).unwrap(),
{
    let tw: u32 = tsize.0;
    let th: u32 = tsize.1;
    let size = image_size(data.len(), tw, th, isize);
    if size.is_none() {
        return None;
    }
    let iw: u32 = size.unwrap().0;
    let ih: u32 = size.unwrap().1;
    let ghost indexes = sample_values(data@);
    let ghost want = luma_image(indexes, maxcol as nat, tw as nat, th as nat, size_view(isize)).unwrap();
    assert(iw * ih <= 0xFFFF_FFFF * 0xFFFF_FFFF) by (nonlinear_arith)
        requires
            iw <= 0xFFFF_FFFF,
            ih <= 0xFFFF_FFFF,
    ;
    let total: usize = ((iw as u64) * (ih as u64)) as usize;
    let mut pixels: Vec<LumaA<u8>> = Vec::new();
    let mut i: usize = 0;
    while i < total
        invariant
            i <= total,
            total == iw * ih,
            0 < tw,
            0 < th,
            iw % tw == 0,
            ih % th == 0,
            indexes == sample_values(data@),
            want.pixels.len() == total,
            want.width == iw,
            forall|j: int| 0 <= j < total ==> want.pixels[j] == #[trigger] luma_image_pixel(
                indexes,
                maxcol as nat,
                iw as nat,
                tw as nat,
                th as nat,
                (j % (iw as int)) as nat,
                (j / (iw as int)) as nat,
            ),
            pixels@.len() == i,
            forall|j: int| 0 <= j < i ==> pixels@[j] == want.pixels[j],
        decreases total - i,
    {
        assert(0 < iw) by (nonlinear_arith)
            requires
                i < iw * ih,
                0 <= i,
                0 <= ih,
        ;
        let column: usize = i % (iw as usize);
        let row: usize = i / (iw as usize);
        assert(row < ih) by (nonlinear_arith)
            requires
                row == (i as int) / (iw as int),
                i < iw * ih,
                0 < iw,
        ;
        let x: u32 = column as u32;
        let y: u32 = row as u32;
        proof {
            lemma_tile_address_in_bounds(
                x as nat,
                y as nat,
                iw as nat,
                ih as nat,
                tw as nat,
                th as nat,
            );
        }
        let k: u64 = tile_address_place(x, y, iw, tw, th);
        let pixel = if k >= data.len() as u64 {
            LumaA { luma: 0u8, alpha: 0u8 }
        } else {
            LumaA { luma: luma_of_index(data[k as usize], maxcol), alpha: 255u8 }
        };
        proof {
            assert(want.pixels[i as int] == luma_image_pixel(
                indexes,
                maxcol as nat,
                iw as nat,
                tw as nat,
                th as nat,
                (i as int % (iw as int)) as nat,
                (i as int / (iw as int)) as nat,
            ));
        }
        pixels.push(pixel);
        i += 1;
    }
    assert(pixels@ =~= want.pixels);
    match Raster::from_vec(iw, ih, pixels) {
        Some(raster) => Some(Box::new(raster)),
        None => None,
    }
}

/// The opaque part of a series of pixels holds every pixel that is not
/// fully transparent.
pub proof fn lemma_opaque_len_covers<P: Pixel>(pixels: Seq<P>, k: nat)
    requires
        k < pixels.len(),
        pixels[k as int].luma_alpha().alpha.value() != 0,
    ensures
        k < opaque_len(pixels) <= pixels.len(),
    decreases pixels.len(),
{
    if pixels.last().luma_alpha().alpha.value() == 0 {
        lemma_opaque_len_covers(pixels.drop_last(), k);
    }
}

/// Reading an image as index data, with 255 as the largest index, and
/// drawing that data at the extent of the image gives back the luminance of
/// every pixel that is not fully transparent, for an image of eight-bit
/// channels that is made of whole tiles.
///
/// The index data of an image ends with its last pixel that is not fully
/// transparent, and data that does not fill whole tiles cannot be drawn; so
/// the law speaks of the images whose index data fills whole tiles.
pub proof fn lemma_luma_round_trip<P: Pixel<Subpixel = u8>>(image: RasterView<P>, tw: nat, th: nat)
    requires
        image.wf(),
        0 < tw,
        0 < th,
        image.width % tw == 0,
        image.height % th == 0,
        luma_indexes(image, 255u8, tw, th).len() % (tw * th) == 0,
    ensures
        ({
            let indexes = luma_indexes(image, 255u8, tw, th);
            let back = luma_image(indexes, 255, tw, th, Some((image.width, image.height)));
            &&& back.is_some()
            &&& back.unwrap().wf()
            &&& back.unwrap().width == image.width
            &&& back.unwrap().height == image.height
            &&& forall|x: nat, y: nat|
                #![trigger image.pixel(x, y)]
                x < image.width && y < image.height && image.pixel(
                    x,
                    y,
                ).luma_alpha().alpha.value() != 0 ==> back.unwrap().pixel(x, y) == (LumaA {
                    luma: image.pixel(x, y).luma_alpha().luma,
                    alpha: 255u8,
                })
        }),
{
    let w = image.width;
    let h = image.height;
    let indexes = luma_indexes(image, 255u8, tw, th);
    let back = luma_image(indexes, 255, tw, th, Some((w, h)));
    let scan = tile_scan(image.pixels, w, tw, th);
    lemma_tile_scan_is_reordering(image.pixels, w, h, tw, th);
    assert forall|x: nat, y: nat|
        #![trigger image.pixel(x, y)]
        x < w && y < h && image.pixel(x, y).luma_alpha().alpha.value() != 0 implies back.unwrap().pixel(
        x,
        y,
    ) == (LumaA { luma: image.pixel(x, y).luma_alpha().luma, alpha: 255u8 }) by {
        let k = tile_address(x, y, w, tw, th);
        assert(scan[k as int] == image.pixel(x, y));
        lemma_opaque_len_covers(scan, k);
        let luma = image.pixel(x, y).luma_alpha().luma;
        assert(rescale(luma as nat, 255, 255) == luma) by {
            lemma_rescale_same_range(luma as nat, 255);
        }
        assert(index_luma(luma as nat, 255) == luma) by {
            lemma_rescale_nearest_same_range(luma as nat, 255);
        }
        assert(indexes[k as int] == luma);
        lemma_place_in_bounds(x, y, w, h);
        lemma_div_mod_of_sum(y as int, x as int, w as int);
        assert(back.unwrap().pixel(x, y) == luma_image_pixel(indexes, 255, w, tw, th, x, y));
    }
}

} // verus!
