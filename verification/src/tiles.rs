//! Tile order: the block-scan order in which tile-based graphics memory
//! holds the samples of a raster image.
//!
//! A buffer is read as a raster `width` samples wide and cut into tiles of
//! `tw` by `th` samples. Tiles follow each other row by row, and so do the
//! samples inside each tile. Only whole tiles count: what a raster holds
//! beyond the last whole tile of a row, or below the last whole row of tiles,
//! belongs to no tile.

use vstd::prelude::*;
use vstd::arithmetic::div_mod::{
    lemma_fundamental_div_mod,
    lemma_fundamental_div_mod_converse,
    lemma_multiply_divide_lt,
};

verus! {

/// How many whole tiles of width `tw` lie side by side in `width` samples.
pub open spec fn tile_columns(width: nat, tw: nat) -> nat {
    if tw == 0 {
        0
    } else {
        width / tw
    }
}

/// How many whole rows of tiles of height `th` a buffer of `len` samples
/// holds when it is read as a raster `width` samples wide.
pub open spec fn tile_rows(len: nat, width: nat, th: nat) -> nat {
    if th == 0 || width == 0 {
        0
    } else {
        (len / width) / th
    }
}

/// How many whole tiles the buffer holds.
pub open spec fn tile_count(len: nat, width: nat, tw: nat, th: nat) -> nat {
    tile_columns(width, tw) * tile_rows(len, width, th)
}

/// The raster column of the sample at column `px` of tile `t`.
pub open spec fn tile_x(t: nat, px: nat, width: nat, tw: nat) -> nat {
    (t % (width / tw)) * tw + px
}

/// The raster row of the sample at row `py` of tile `t`.
pub open spec fn tile_y(t: nat, py: nat, width: nat, tw: nat, th: nat) -> nat {
    (t / (width / tw)) * th + py
}

/// Where in the raster buffer the sample at `(px, py)` of tile `t` lies.
pub open spec fn tile_sample_index(t: nat, px: nat, py: nat, width: nat, tw: nat, th: nat) -> nat {
    tile_y(t, py, width, tw, th) * width + tile_x(t, px, width, tw)
}

/// Where in the raster buffer the sample lies that stands at position `k`
/// of the tile order.
pub open spec fn tile_source(k: nat, width: nat, tw: nat, th: nat) -> nat {
    let t = k / (tw * th);
    let p = k % (tw * th);
    tile_sample_index(t, p % tw, p / tw, width, tw, th)
}

/// The tile to which the sample of raster position `(x, y)` belongs.
pub open spec fn tile_of(x: nat, y: nat, width: nat, tw: nat, th: nat) -> nat {
    (y / th) * (width / tw) + x / tw
}

/// Where in its tile the sample of raster position `(x, y)` stands.
pub open spec fn place_in_tile(x: nat, y: nat, tw: nat, th: nat) -> nat {
    (y % th) * tw + x % tw
}

/// Where in the tile order the sample of raster position `(x, y)` stands.
pub open spec fn tile_address(x: nat, y: nat, width: nat, tw: nat, th: nat) -> nat {
    tile_of(x, y, width, tw, th) * (tw * th) + place_in_tile(x, y, tw, th)
}

/// The samples of all whole tiles, in tile order.
pub open spec fn tile_scan<T>(data: Seq<T>, width: nat, tw: nat, th: nat) -> Seq<T> {
    Seq::new(
        tile_count(data.len(), width, tw, th) * (tw * th),
        |k: int| data[tile_source(k as nat, width, tw, th) as int],
    )
}

/// Dividing `q * d + r` by `d` gives `q` and leaves `r`, for `r` below `d`.
pub(crate) proof fn lemma_div_mod_of_sum(q: int, r: int, d: int)
    requires
        0 <= r < d,
    ensures
        (q * d + r) / d == q,
        (q * d + r) % d == r,
{
    lemma_fundamental_div_mod_converse(q * d + r, d, q, r);
}

/// A number is made of the whole multiples of `d` that it holds and of a
/// rest below `d`.
proof fn lemma_whole_part(n: int, d: int)
    requires
        0 <= n,
        0 < d,
    ensures
        0 <= (n / d) * d <= n,
        0 <= n / d,
        0 <= n % d < d,
        n == (n / d) * d + n % d,
{
    lemma_fundamental_div_mod(n, d);
    assert(d * (n / d) == (n / d) * d) by (nonlinear_arith);
    assert(0 <= n / d) by (nonlinear_arith)
        requires
            0 <= n,
            0 < d,
    ;
    assert(0 <= (n / d) * d) by (nonlinear_arith)
        requires
            0 <= n / d,
            0 < d,
    ;
}

/// Place `(row, col)` of a grid of `rows` by `cols` has its position, row by
/// row, among the `rows * cols` positions of the grid.
proof fn lemma_row_major_bound(row: int, col: int, rows: int, cols: int)
    requires
        0 <= row < rows,
        0 <= col < cols,
    ensures
        0 <= row * cols + col < rows * cols,
{
    assert(row * cols + cols <= rows * cols) by (nonlinear_arith)
        requires
            row + 1 <= rows,
            0 < cols,
    ;
    assert(0 <= row * cols) by (nonlinear_arith)
        requires
            0 <= row,
            0 <= cols,
    ;
}

/// A buffer holds at least as many samples as its whole tiles cover.
pub proof fn lemma_tiles_fit(len: nat, width: nat, tw: nat, th: nat)
    ensures
        tile_count(len, width, tw, th) * (tw * th) <= len,
        tile_count(len, width, tw, th) <= len,
        tile_count(len, width, tw, th) > 0 ==> tw > 0 && th > 0 && tw <= width && tw * th <= len,
{
    let cols = tile_columns(width, tw);
    let rows = tile_rows(len, width, th);
    if tw == 0 || th == 0 || width == 0 {
        assert(cols * rows == 0) by (nonlinear_arith)
            requires
                cols == 0 || rows == 0,
        ;
        assert(0 * (tw * th) == 0) by (nonlinear_arith);
    } else {
        lemma_whole_part(width as int, tw as int);
        lemma_whole_part(len as int, width as int);
        lemma_whole_part((len / width) as int, th as int);
        let full = len / width;
        assert(cols * rows * (tw * th) == (cols * tw) * (rows * th)) by (nonlinear_arith);
        assert((cols * tw) * (rows * th) <= width * full) by (nonlinear_arith)
            requires
                cols * tw <= width,
                rows * th <= full,
        ;
        assert(width * full == full * width) by (nonlinear_arith);
        assert(cols * rows <= cols * rows * (tw * th)) by (nonlinear_arith)
            requires
                tw >= 1,
                th >= 1,
        ;
        if cols * rows > 0 {
            assert(cols >= 1 && rows >= 1) by (nonlinear_arith)
                requires
                    cols * rows > 0,
            ;
            assert(tw * th <= cols * rows * (tw * th)) by (nonlinear_arith)
                requires
                    cols * rows >= 1,
            ;
            assert(tw <= cols * tw) by (nonlinear_arith)
                requires
                    cols >= 1,
            ;
        }
    }
}

/// The sample at `(px, py)` of a whole tile lies inside the raster: its
/// column is one of the columns that whole tiles cover, its row is one of the
/// rows that they cover, and its place in the buffer exists.
pub proof fn lemma_tile_sample_in_bounds(
    t: nat,
    px: nat,
    py: nat,
    len: nat,
    width: nat,
    tw: nat,
    th: nat,
)
    requires
        t < tile_count(len, width, tw, th),
        px < tw,
        py < th,
    ensures
        tile_x(t, px, width, tw) < tile_columns(width, tw) * tw <= width,
        tile_y(t, py, width, tw, th) < tile_rows(len, width, th) * th,
        tile_rows(len, width, th) * th * width <= len,
        tile_sample_index(t, px, py, width, tw, th) < len,
{
    lemma_tiles_fit(len, width, tw, th);
    let cols = width / tw;
    let full = len / width;
    let rows = full / th;
    assert(cols >= 1 && rows >= 1) by (nonlinear_arith)
        requires
            cols * rows > 0,
    ;
    lemma_whole_part(width as int, tw as int);
    lemma_whole_part(len as int, width as int);
    lemma_whole_part(full as int, th as int);
    lemma_whole_part(t as int, cols as int);
    let tx = t % cols;
    let ty = t / cols;
    lemma_multiply_divide_lt(t as int, cols as int, rows as int);
    lemma_row_major_bound(tx as int, px as int, cols as int, tw as int);
    lemma_row_major_bound(ty as int, py as int, rows as int, th as int);
    let x = tile_x(t, px, width, tw);
    let y = tile_y(t, py, width, tw, th);
    lemma_row_major_bound(y as int, x as int, full as int, width as int);
    assert(rows * th * width <= full * width) by (nonlinear_arith)
        requires
            rows * th <= full,
    ;
}

/// The tile-order position of the sample at `(px, py)` of tile `t` is
/// `t * (tw * th) + py * tw + px`.
pub proof fn lemma_tile_address_of_sample(t: nat, px: nat, py: nat, width: nat, tw: nat, th: nat)
    requires
        0 < tile_columns(width, tw),
        px < tw,
        py < th,
    ensures
        tile_address(tile_x(t, px, width, tw), tile_y(t, py, width, tw, th), width, tw, th)
            == t * (tw * th) + py * tw + px,
{
    let cols = width / tw;
    lemma_whole_part(t as int, cols as int);
    let tx = t % cols;
    let ty = t / cols;
    lemma_div_mod_of_sum(tx as int, px as int, tw as int);
    lemma_div_mod_of_sum(ty as int, py as int, th as int);
}

/// The sample that stands at the tile-order position of `(x, y)` is the one
/// at `(x, y)` of the raster, for every column that whole tiles cover.
pub proof fn lemma_tile_source_of_address(x: nat, y: nat, width: nat, tw: nat, th: nat)
    requires
        0 < th,
        x < tile_columns(width, tw) * tw,
    ensures
        tile_source(tile_address(x, y, width, tw, th), width, tw, th) == y * width + x,
        tile_address(x, y, width, tw, th) < (y / th + 1) * tile_columns(width, tw) * (tw * th),
        tile_address(x, y, width, tw, th) >= (y / th) * tile_columns(width, tw) * (tw * th),
{
    let cols = width / tw;
    assert(tw > 0) by {
        if tw == 0 {
            assert(tile_columns(width, tw) * tw == 0) by (nonlinear_arith)
                requires
                    tw == 0,
            ;
        }
    }
    let area = tw * th;
    lemma_whole_part(x as int, tw as int);
    lemma_whole_part(y as int, th as int);
    let tx = x / tw;
    let ty = y / th;
    let px = x % tw;
    let py = y % th;
    assert(tx < cols) by (nonlinear_arith)
        requires
            tx * tw <= x,
            x < cols * tw,
            0 < tw,
    ;
    let t = ty * cols + tx;
    let p = py * tw + px;
    lemma_row_major_bound(py as int, px as int, th as int, tw as int);
    assert(th * tw == tw * th) by (nonlinear_arith);
    lemma_div_mod_of_sum(t as int, p as int, area as int);
    lemma_div_mod_of_sum(py as int, px as int, tw as int);
    lemma_div_mod_of_sum(ty as int, tx as int, cols as int);
    assert(tile_address(x, y, width, tw, th) == t * area + p);
    assert(tile_x(t, px, width, tw) == x);
    assert(tile_y(t, py, width, tw, th) == y);
    assert(t * area + p < (t + 1) * area) by (nonlinear_arith)
        requires
            p < area,
    ;
    assert((ty + 1) * cols == ty * cols + cols) by (nonlinear_arith);
    assert((t + 1) * area <= (ty + 1) * cols * area) by (nonlinear_arith)
        requires
            t + 1 <= (ty + 1) * cols,
            0 <= area,
    ;
    assert(ty * cols * area <= t * area) by (nonlinear_arith)
        requires
            ty * cols <= t,
            0 <= area,
    ;
}

/// In a raster made of whole tiles, every place has its tile-order position
/// among the positions of the raster's samples.
pub proof fn lemma_tile_address_in_bounds(
    x: nat,
    y: nat,
    width: nat,
    height: nat,
    tw: nat,
    th: nat,
)
    requires
        0 < tw,
        0 < th,
        width % tw == 0,
        height % th == 0,
        x < width,
        y < height,
    ensures
        tile_address(x, y, width, tw, th) < width * height,
{
    let cols = width / tw;
    let rows = height / th;
    let area = tw * th;
    lemma_whole_part(width as int, tw as int);
    lemma_whole_part(height as int, th as int);
    lemma_whole_part(y as int, th as int);
    lemma_tile_source_of_address(x, y, width, tw, th);
    assert(y / th < rows) by (nonlinear_arith)
        requires
            (y / th) * th <= y,
            y < rows * th,
            0 < th,
    ;
    assert((y / th + 1) * cols * area <= rows * cols * area) by (nonlinear_arith)
        requires
            y / th + 1 <= rows,
            0 <= cols,
            0 <= area,
    ;
    assert(rows * cols * area == (cols * tw) * (rows * th)) by (nonlinear_arith)
        requires
            area == tw * th,
    ;
}

/// Position `k` of the tile order belongs to tile `k / (tw * th)`, and the
/// sample that stands there lies inside the buffer, in a column that whole
/// tiles cover; the tile-order position of that sample is `k` again.
pub proof fn lemma_tile_source_in_bounds(k: nat, len: nat, width: nat, tw: nat, th: nat)
    requires
        k < tile_count(len, width, tw, th) * (tw * th),
    ensures
        0 < width,
        tile_source(k, width, tw, th) < len,
        tile_source(k, width, tw, th) % width < tile_columns(width, tw) * tw,
        tile_address(
            tile_source(k, width, tw, th) % width,
            tile_source(k, width, tw, th) / width,
            width,
            tw,
            th,
        ) == k,
{
    lemma_tiles_fit(len, width, tw, th);
    let count = tile_count(len, width, tw, th);
    let area = tw * th;
    assert(count > 0 && area > 0) by (nonlinear_arith)
        requires
            k < count * area,
            0 <= k,
            0 <= count,
            0 <= area,
    ;
    lemma_whole_part(k as int, area as int);
    let t = k / area;
    let p = k % area;
    assert(t < count) by (nonlinear_arith)
        requires
            t * area <= k,
            k < count * area,
            0 < area,
    ;
    lemma_whole_part(p as int, tw as int);
    let px = p % tw;
    let py = p / tw;
    assert(py < th) by (nonlinear_arith)
        requires
            py * tw <= p,
            p < tw * th,
            0 < tw,
    ;
    lemma_tile_sample_in_bounds(t, px, py, len, width, tw, th);
    assert(0 < tile_columns(width, tw)) by (nonlinear_arith)
        requires
            0 <= tile_x(t, px, width, tw) < tile_columns(width, tw) * tw,
            0 < tw,
    ;
    lemma_tile_address_of_sample(t, px, py, width, tw, th);
    let x = tile_x(t, px, width, tw);
    let y = tile_y(t, py, width, tw, th);
    lemma_div_mod_of_sum(y as int, x as int, width as int);
}

/// Where the raster is made of whole tiles, the tile order holds every
/// sample of the buffer exactly once: it is as long as the buffer, each of
/// its positions holds the sample that the tile address formula names, and
/// position and raster place determine each other.
pub proof fn lemma_tile_scan_is_reordering<T>(
    data: Seq<T>,
    width: nat,
    height: nat,
    tw: nat,
    th: nat,
)
    requires
        0 < tw,
        0 < th,
        width % tw == 0,
        height % th == 0,
        data.len() == width * height,
    ensures
        tile_count(data.len(), width, tw, th) * (tw * th) == data.len(),
        tile_scan(data, width, tw, th).len() == data.len(),
        forall|k: nat|
            #![trigger tile_source(k, width, tw, th)]
            k < data.len() ==> {
                let src = tile_source(k, width, tw, th);
                &&& src < data.len()
                &&& tile_scan(data, width, tw, th)[k as int] == data[src as int]
                &&& tile_address(src % width, src / width, width, tw, th) == k
            },
        forall|x: nat, y: nat|
            #![trigger tile_address(x, y, width, tw, th)]
            x < width && y < height ==> {
                let k = tile_address(x, y, width, tw, th);
                &&& k < data.len()
                &&& tile_source(k, width, tw, th) == y * width + x
                &&& tile_scan(data, width, tw, th)[k as int] == data[(y * width + x) as int]
            },
{
    let len = data.len();
    let cols = tile_columns(width, tw);
    let rows = tile_rows(len, width, th);
    let area = tw * th;
    lemma_whole_part(width as int, tw as int);
    lemma_whole_part(height as int, th as int);
    if width == 0 {
        assert(width * height == 0) by (nonlinear_arith)
            requires
                width == 0,
        ;
        assert(cols * rows * area == 0) by (nonlinear_arith)
            requires
                rows == 0,
        ;
    } else {
        lemma_div_mod_of_sum(height as int, 0, width as int);
        assert(cols * rows * (tw * th) == (cols * tw) * (rows * th)) by (nonlinear_arith);
    }
    assert forall|k: nat|
        #![trigger tile_source(k, width, tw, th)]
        k < data.len() implies {
            let src = tile_source(k, width, tw, th);
            &&& src < data.len()
            &&& tile_scan(data, width, tw, th)[k as int] == data[src as int]
            &&& tile_address(src % width, src / width, width, tw, th) == k
        } by {
        lemma_tile_source_in_bounds(k, len, width, tw, th);
    }
    assert forall|x: nat, y: nat|
        #![trigger tile_address(x, y, width, tw, th)]
        x < width && y < height implies {
            let k = tile_address(x, y, width, tw, th);
            &&& k < data.len()
            &&& tile_source(k, width, tw, th) == y * width + x
            &&& tile_scan(data, width, tw, th)[k as int] == data[(y * width + x) as int]
        } by {
        lemma_tile_source_of_address(x, y, width, tw, th);
        lemma_tile_address_in_bounds(x, y, width, height, tw, th);
    }
}

/// With tiles of a single sample the tile order is the raster's own order.
pub proof fn lemma_unit_tiles_keep_raster_order<T>(data: Seq<T>, width: nat)
    requires
        0 < width,
        data.len() % width == 0,
    ensures
        tile_scan(data, width, 1, 1) == data,
{
    let height = data.len() / width;
    lemma_whole_part(data.len() as int, width as int);
    assert(width * height == height * width) by (nonlinear_arith);
    lemma_tile_scan_is_reordering(data, width, height, 1, 1);
    let scan = tile_scan(data, width, 1, 1);
    assert forall|k: int| 0 <= k < data.len() implies scan[k] == data[k] by {
        lemma_whole_part(k, width as int);
        assert(tile_source(k as nat, width, 1, 1) == k);
    }
}

/// A raster of exactly one tile has the same order in tiles as in rows.
pub proof fn lemma_single_tile_keeps_raster_order<T>(data: Seq<T>, tw: nat, th: nat)
    requires
        0 < tw,
        0 < th,
        data.len() == tw * th,
    ensures
        tile_scan(data, tw, tw, th) == data,
{
    lemma_div_mod_of_sum(1, 0, tw as int);
    lemma_div_mod_of_sum(1, 0, th as int);
    lemma_tile_scan_is_reordering(data, tw, th, tw, th);
    let scan = tile_scan(data, tw, tw, th);
    assert forall|k: int| 0 <= k < data.len() implies scan[k] == data[k] by {
        lemma_div_mod_of_sum(0, k, (tw * th) as int);
        lemma_whole_part(k, tw as int);
        assert(0 * tw == 0 && 0 * th == 0) by (nonlinear_arith);
        assert(tile_source(k as nat, tw, tw, th) == k);
    }
}

/// Where the raster is made of whole tiles, its tiles hold as many samples
/// as the buffer, and each sample of the raster is found in its tile: the
/// sample at `(x, y)` stands at `(x % tw, y % th)` of the tile in column
/// `x / tw` of the row `y / th` of tiles.
pub proof fn lemma_tiles_hold_every_sample<T>(chunks: TileChunks<T>, height: nat)
    requires
        0 < chunks.tile_width,
        0 < chunks.tile_height,
        chunks.width % chunks.tile_width == 0,
        height % chunks.tile_height == 0,
        chunks.data.len() == chunks.width * height,
    ensures
        chunks.tile_count() * (chunks.tile_width * chunks.tile_height) == chunks.data.len(),
        forall|x: nat, y: nat|
            #![trigger tile_of(x, y, chunks.width, chunks.tile_width, chunks.tile_height)]
            x < chunks.width && y < height ==> {
                let t = tile_of(x, y, chunks.width, chunks.tile_width, chunks.tile_height);
                let p = place_in_tile(x, y, chunks.tile_width, chunks.tile_height);
                &&& t < chunks.tile_count()
                &&& p < chunks.tile_width * chunks.tile_height
                &&& chunks.tile(t)[p as int] == chunks.data[(y * chunks.width + x) as int]
            },
{
    let tw = chunks.tile_width;
    let th = chunks.tile_height;
    let width = chunks.width;
    let area = tw * th;
    lemma_tile_scan_is_reordering(chunks.data, width, height, tw, th);
    assert forall|x: nat, y: nat|
        #![trigger tile_of(x, y, width, tw, th)]
        x < width && y < height implies {
            let t = tile_of(x, y, width, tw, th);
            let p = place_in_tile(x, y, tw, th);
            &&& t < chunks.tile_count()
            &&& p < area
            &&& chunks.tile(t)[p as int] == chunks.data[(y * width + x) as int]
        } by {
        let t = tile_of(x, y, width, tw, th);
        let p = place_in_tile(x, y, tw, th);
        let k = tile_address(x, y, width, tw, th);
        lemma_whole_part(x as int, tw as int);
        lemma_whole_part(y as int, th as int);
        lemma_row_major_bound((y % th) as int, (x % tw) as int, th as int, tw as int);
        assert(th * tw == tw * th) by (nonlinear_arith);
        assert(k == t * area + p);
        lemma_div_mod_of_sum(t as int, p as int, area as int);
        assert(t < chunks.tile_count()) by (nonlinear_arith)
            requires
                t * area + p < chunks.tile_count() * area,
                0 <= p,
                0 < area,
        ;
        assert(tile_source(k, width, tw, th) == y * width + x);
    }
}

/// Tile `t` is the `t`-th stretch of `tw * th` samples of the tile order.
pub proof fn lemma_tile_is_stretch_of_scan<T>(chunks: TileChunks<T>, t: nat)
    requires
        t < chunks.tile_count(),
    ensures
        (t + 1) * (chunks.tile_width * chunks.tile_height) <= chunks.scan().len(),
        chunks.tile(t) == chunks.scan().subrange(
            (t * (chunks.tile_width * chunks.tile_height)) as int,
            ((t + 1) * (chunks.tile_width * chunks.tile_height)) as int,
        ),
{
    let tw = chunks.tile_width;
    let th = chunks.tile_height;
    let area = tw * th;
    let count = chunks.tile_count();
    lemma_tiles_fit(chunks.data.len(), chunks.width, tw, th);
    assert(0 < area) by (nonlinear_arith)
        requires
            0 < tw,
            0 < th,
            area == tw * th,
    ;
    assert((t + 1) * area <= count * area) by (nonlinear_arith)
        requires
            t + 1 <= count,
            0 <= area,
    ;
    assert((t + 1) * area == t * area + area) by (nonlinear_arith);
    let stretch = chunks.scan().subrange((t * area) as int, ((t + 1) * area) as int);
    assert forall|p: int| 0 <= p < area implies chunks.tile(t)[p] == stretch[p] by {
        lemma_div_mod_of_sum(t as int, p, area as int);
    }
}

/// Where in a buffer of `len` samples the sample at `(px, py)` of tile `t`
/// lies.
pub fn tile_sample_place(
    t: usize,
    px: u32,
    py: u32,
    len: usize,
    width: u32,
    tw: u32,
    th: u32,
) -> (src: usize)
    requires
        t < tile_count(len as nat, width as nat, tw as nat, th as nat),
        px < tw,
        py < th,
    ensures
        src == tile_sample_index(
            t as nat,
            px as nat,
            py as nat,
            width as nat,
            tw as nat,
            th as nat,
        ),
        src < len,
{
    let cols: usize = (width / tw) as usize;
    proof {
        lemma_tile_sample_in_bounds(
            t as nat,
            px as nat,
            py as nat,
            len as nat,
            width as nat,
            tw as nat,
            th as nat,
        );
        assert(0 < cols) by (nonlinear_arith)
            requires
                0 <= tile_x(t as nat, px as nat, width as nat, tw as nat) < cols * tw,
                0 < tw,
        ;
        let covered = tile_rows(len as nat, width as nat, th as nat) * th;
        assert(covered <= covered * width) by (nonlinear_arith)
            requires
                0 <= covered,
                1 <= width,
        ;
    }
    let tx: usize = t % cols;
    let ty: usize = t / cols;
    proof {
        assert(0 <= ty * th <= ty * th + py) by (nonlinear_arith)
            requires
                0 <= ty,
                0 <= th,
                0 <= py,
        ;
        assert(0 <= tx * tw <= tx * tw + px) by (nonlinear_arith)
            requires
                0 <= tx,
                0 <= tw,
                0 <= px,
        ;
        assert(0 <= (ty * th + py) * width <= (ty * th + py) * width + (tx * tw + px))
            by (nonlinear_arith)
            requires
                0 <= ty * th + py,
                0 <= width,
                0 <= tx * tw + px,
        ;
    }
    let row: usize = ty * (th as usize) + (py as usize);
    let col: usize = tx * (tw as usize) + (px as usize);
    row * (width as usize) + col
}

/// Where in a buffer of `len` samples the sample lies that stands at
/// position `k` of the tile order.
pub fn tile_source_place(k: usize, len: usize, width: u32, tw: u32, th: u32) -> (src: usize)
    requires
        k < tile_count(len as nat, width as nat, tw as nat, th as nat) * (tw * th),
    ensures
        src == tile_source(k as nat, width as nat, tw as nat, th as nat),
        src < len,
{
    proof {
        lemma_tiles_fit(len as nat, width as nat, tw as nat, th as nat);
        let count = tile_count(len as nat, width as nat, tw as nat, th as nat);
        assert(count > 0 && tw * th > 0) by (nonlinear_arith)
            requires
                0 <= k < count * (tw * th),
                0 <= count,
                0 <= tw * th,
        ;
    }
    let area: usize = (tw as usize) * (th as usize);
    let t: usize = k / area;
    let p: usize = k % area;
    proof {
        let count = tile_count(len as nat, width as nat, tw as nat, th as nat);
        lemma_whole_part(k as int, area as int);
        assert(t < count) by (nonlinear_arith)
            requires
                t * area <= k,
                k < count * area,
                0 < area,
        ;
        lemma_whole_part(p as int, tw as int);
        assert(p / (tw as usize) < th) by (nonlinear_arith)
            requires
                (p / (tw as usize)) * tw <= p,
                p < tw * th,
                0 < tw,
        ;
    }
    tile_sample_place(
        t,
        (p % (tw as usize)) as u32,
        (p / (tw as usize)) as u32,
        len,
        width,
        tw,
        th,
    )
}

/// How many whole tiles a buffer of `len` samples holds.
pub fn count_tiles(len: usize, width: u32, tw: u32, th: u32) -> (count: usize)
    ensures
        count == tile_count(len as nat, width as nat, tw as nat, th as nat),
{
    proof {
        lemma_tiles_fit(len as nat, width as nat, tw as nat, th as nat);
    }
    if tw == 0 || th == 0 || width == 0 {
        0
    } else {
        let cols: usize = (width / tw) as usize;
        let rows: usize = (len / (width as usize)) / (th as usize);
        cols * rows
    }
}

/// Where in the tile order the sample of place `(x, y)` stands, in a raster
/// `width` samples wide.
pub fn tile_address_place(x: u32, y: u32, width: u32, tw: u32, th: u32) -> (k: u64)
    requires
        0 < tw,
        0 < th,
        tile_address(x as nat, y as nat, width as nat, tw as nat, th as nat) <= u64::MAX,
    ensures
        k == tile_address(x as nat, y as nat, width as nat, tw as nat, th as nat),
{
    let cols: u64 = (width / tw) as u64;
    let tx: u64 = (x / tw) as u64;
    let ty: u64 = (y / th) as u64;
    let px: u64 = (x % tw) as u64;
    let py: u64 = (y % th) as u64;
    assert(tw * th <= 0xFFFF_FFFF * 0xFFFF_FFFF && 1 <= tw * th) by (nonlinear_arith)
        requires
            0 < tw <= 0xFFFF_FFFF,
            0 < th <= 0xFFFF_FFFF,
    ;
    let area: u64 = (tw as u64) * (th as u64);
    proof {
        assert(0 <= ty * cols <= ty * cols + tx) by (nonlinear_arith)
            requires
                0 <= ty,
                0 <= cols,
                0 <= tx,
        ;
        assert(0 <= py * tw <= py * tw + px) by (nonlinear_arith)
            requires
                0 <= py,
                0 <= tw,
                0 <= px,
        ;
        assert(0 <= ty * cols + tx <= (ty * cols + tx) * area) by (nonlinear_arith)
            requires
                0 <= ty * cols + tx,
                1 <= area,
        ;
    }
    (ty * cols + tx) * area + (py * (tw as u64) + px)
}

/// What a tile chunk iterator stands for: the buffer it reads, the shape of
/// the raster and of its tiles, and how many tiles it has handed out.
pub struct TileChunks<T> {
    pub data: Seq<T>,
    pub width: nat,
    pub tile_width: nat,
    pub tile_height: nat,
    pub position: nat,
}

impl<T> TileChunks<T> {
    /// How many tiles the iterator hands out from start to end.
    pub open spec fn tile_count(self) -> nat {
        tile_count(self.data.len(), self.width, self.tile_width, self.tile_height)
    }

    /// The samples of tile `t`, row by row.
    pub open spec fn tile(self, t: nat) -> Seq<T> {
        Seq::new(
            self.tile_width * self.tile_height,
            |p: int|
                self.data[tile_sample_index(
                    t,
                    (p as nat) % self.tile_width,
                    (p as nat) / self.tile_width,
                    self.width,
                    self.tile_width,
                    self.tile_height,
                ) as int],
        )
    }

    /// All samples that the iterator hands out from start to end.
    pub open spec fn scan(self) -> Seq<T> {
        tile_scan(self.data, self.width, self.tile_width, self.tile_height)
    }
}

/// Cuts a flat raster buffer into tiles and hands them out one by one, in
/// tile order. Each tile is handed out once.
pub struct TileChunkIterator<T> {
    data: Vec<T>,
    tw: u32,
    th: u32,
    width: u32,
    count: usize,
    next: usize,
}

impl<T> View for TileChunkIterator<T> {
    type V = TileChunks<T>;

    closed spec fn view(&self) -> TileChunks<T> {
        TileChunks {
            data: self.data@,
            width: self.width as nat,
            tile_width: self.tw as nat,
            tile_height: self.th as nat,
            position: self.next as nat,
        }
    }
}

impl<T> TileChunkIterator<T> {
    #[verifier::type_invariant]
    spec fn inv(self) -> bool {
        &&& self.count == tile_count(
            self.data@.len(),
            self.width as nat,
            self.tw as nat,
            self.th as nat,
        )
        &&& self.next <= self.count
    }
}

impl<T: Copy> TileChunkIterator<T> {
    /// Takes the buffer `data`, read as a raster `width` samples wide, to be
    /// cut into tiles of `tw` by `th` samples.
    pub fn new(data: Vec<T>, tw: u32, th: u32, width: u32) -> (it: Self)
        ensures
            it@ == (TileChunks {
                data: data@,
                width: width as nat,
                tile_width: tw as nat,
                tile_height: th as nat,
                position: 0,
            }),
    {
        let count: usize = count_tiles(data.len(), width, tw, th);
        TileChunkIterator { data, tw, th, width, count, next: 0 }
    }

    /// The next tile, or `None` once every whole tile has been handed out.
    pub fn next(&mut self) -> (tile: Option<Vec<T>>)
        ensures
            old(self)@.position < old(self)@.tile_count() ==> tile.is_some()
                && tile.unwrap()@ == old(self)@.tile(old(self)@.position)
                && final(self)@ == (TileChunks {
                position: old(self)@.position + 1,
                ..old(self)@
            }),
            old(self)@.position >= old(self)@.tile_count() ==> tile.is_none() && final(self)@ == old(
                self,
            )@,
    {
        proof {
            use_type_invariant(&*self);
        }
        if self.next >= self.count {
            return None;
        }
        let t: usize = self.next;
        let len: usize = self.data.len();
        proof {
            lemma_tiles_fit(len as nat, self.width as nat, self.tw as nat, self.th as nat);
        }
        let tw: usize = self.tw as usize;
        let area: usize = tw * (self.th as usize);
        let mut tile: Vec<T> = Vec::new();
        let mut p: usize = 0;
        while p < area
            invariant
                p <= area,
                tw == self.tw,
                area == self.tw * self.th,
                0 < tw,
                len == self.data@.len(),
                t < tile_count(len as nat, self.width as nat, self.tw as nat, self.th as nat),
                tile@.len() == p,
                forall|q: int|
                    0 <= q < p ==> tile@[q] == self.data@[tile_sample_index(
                        t as nat,
                        (q as nat) % (self.tw as nat),
                        (q as nat) / (self.tw as nat),
                        self.width as nat,
                        self.tw as nat,
                        self.th as nat,
                    ) as int],
            decreases area - p,
        {
            proof {
                lemma_whole_part(p as int, tw as int);
                assert(p / tw < self.th) by (nonlinear_arith)
                    requires
                        (p / tw) * tw <= p,
                        p < tw * self.th,
                        0 < tw,
                ;
            }
            let src: usize = tile_sample_place(
                t,
                (p % tw) as u32,
                (p / tw) as u32,
                len,
                self.width,
                self.tw,
                self.th,
            );
            tile.push(self.data[src]);
            p += 1;
        }
        self.next = t + 1;
        Some(tile)
    }
}

} // verus!
