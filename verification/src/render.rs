//! Tile compositor for the bitmap-caching mode.
//!
//! The canvas content of a tile is rebuilt by clearing it and blending the
//! clipped bitmaps of every cache entry whose occupancy list names the tile,
//! in sequence order. The contract states the result pixel-for-pixel as a
//! fold ([`composite`]) of the premultiplied blend over *all* entries: entries
//! that cover a pixel of the tile without occupying the tile hold only zero
//! pixels there, and blending zero is the identity.

use vstd::prelude::*;

use crate::buffer::{as_usize, lemma_row_disjoint, BufferMutRef};
use crate::cache::TiledCachedPrimitive;
use crate::dirty_rect::DirtyRect;
use crate::pixel::{blend_px, lemma_blend_zero_px, px_nonzero};
use crate::{max_u32, min_u32, tile_covers, TILE_SIZE};

verus! {

/// The fully transparent pixel.
pub open spec fn zero_px() -> Seq<u8> {
    seq![0u8, 0u8, 0u8, 0u8]
}

/// Value of pixel `(x, y)` after blending the first `k` entries, in order,
/// over a cleared background.
pub open spec fn composite_prefix(
    entries: Seq<TiledCachedPrimitive>,
    k: int,
    x: int,
    y: int,
) -> Seq<u8>
    decreases k,
{
    if k <= 0 {
        zero_px()
    } else {
        let prev = composite_prefix(entries, k - 1, x, y);
        let e = entries[k - 1];
        if e.inner.rect.contains(x, y) {
            blend_px(e.px_at(x, y)@, prev)
        } else {
            prev
        }
    }
}

/// Value of pixel `(x, y)` after blending every entry, in order, over a
/// cleared background.
pub open spec fn composite(entries: Seq<TiledCachedPrimitive>, x: int, y: int) -> Seq<u8> {
    composite_prefix(entries, entries.len() as int, x, y)
}

/// A composited pixel value always has the four RGBA channels.
pub proof fn lemma_composite_len(entries: Seq<TiledCachedPrimitive>, k: int, x: int, y: int)
    ensures
        composite_prefix(entries, k, x, y).len() == 4,
    decreases k,
{
    if k > 0 {
        lemma_composite_len(entries, k - 1, x, y);
    }
}

/// The entry's occupancy list agrees with its bitmap on the
/// `tw * th` tile grid.
pub open spec fn occupancy_ok(e: TiledCachedPrimitive, tw: int, th: int) -> bool {
    forall|tx: u16, ty: u16|
        #[trigger] e.occupied(tx as int, ty as int) <==> tx < tw && ty < th
            && e.tile_has_nonzero(tx as int, ty as int)
}

/// Occupancy agreement carries over to an entry that differs only in its
/// per-frame flags and draw order.
pub proof fn lemma_occupancy_frame(
    a: TiledCachedPrimitive,
    b: TiledCachedPrimitive,
    tw: int,
    th: int,
)
    requires
        a.buffer == b.buffer,
        a.inner.rect == b.inner.rect,
        a.occupied_tiles == b.occupied_tiles,
        occupancy_ok(a, tw, th),
    ensures
        occupancy_ok(b, tw, th),
{
    assert forall|tx: u16, ty: u16| #[trigger] b.occupied(tx as int, ty as int) <==> tx < tw && ty
        < th && b.tile_has_nonzero(tx as int, ty as int) by {
        TiledCachedPrimitive::lemma_nonzero_frame(a, b, tx as int, ty as int);
        assert(b.occupied(tx as int, ty as int) == a.occupied(tx as int, ty as int));
    }
}

/// A skipped entry — one not occupying the tile — leaves the composite of the
/// tile's pixels unchanged.
proof fn lemma_skip_entry(
    e: TiledCachedPrimitive,
    tw: int,
    th: int,
    tile_x: int,
    tile_y: int,
    x: int,
    y: int,
)
    requires
        e.wf(),
        occupancy_ok(e, tw, th),
        0 <= tile_x < tw,
        0 <= tile_y < th,
        tile_x <= u16::MAX,
        tile_y <= u16::MAX,
        !e.occupied(tile_x, tile_y),
        tile_covers(tile_x, tile_y, x, y),
        e.inner.rect.contains(x, y),
    ensures
        !px_nonzero(e.px_at(x, y)),
{
    let tx = tile_x as u16;
    let ty = tile_y as u16;
    assert(tx as int == tile_x && ty as int == tile_y);
    assert(!e.occupied(tx as int, ty as int));
    assert(!e.tile_has_nonzero(tile_x, tile_y));
    if px_nonzero(e.px_at(x, y)) {
        assert(e.tile_has_nonzero(tile_x, tile_y));
    }
}

/// Rebuild one tile of the canvas from the cache entries, in sequence order.
///
/// Pixels of the tile end up equal to the blend fold of *all* entries over a
/// cleared background; pixels outside the tile are untouched.
pub fn update_canvas_tile(
    canvas: &mut BufferMutRef,
    entries: &Vec<TiledCachedPrimitive>,
    tile_x: u32,
    tile_y: u32,
    tiles_wide: u32,
    tiles_tall: u32,
)
    requires
        old(canvas).wf(),
        old(canvas).width + TILE_SIZE <= u32::MAX,
        old(canvas).height + TILE_SIZE <= u32::MAX,
        tile_x <= u16::MAX,
        tile_y <= u16::MAX,
        tile_x < tiles_wide,
        tile_y < tiles_tall,
        (tile_x as int) * (TILE_SIZE as int) < old(canvas).width,
        (tile_y as int) * (TILE_SIZE as int) < old(canvas).height,
        forall|j: int| 0 <= j < entries@.len() ==> (#[trigger] entries@[j]).wf(),
        forall|j: int|
            0 <= j < entries@.len() ==> occupancy_ok(
                #[trigger] entries@[j],
                tiles_wide as int,
                tiles_tall as int,
            ),
    ensures
        final(canvas).wf(),
        final(canvas).width == old(canvas).width,
        final(canvas).height == old(canvas).height,
        final(canvas).data@.len() == old(canvas).data@.len(),
        forall|x: int, y: int|
            0 <= x < old(canvas).width && 0 <= y < old(canvas).height && tile_covers(
                tile_x as int,
                tile_y as int,
                x,
                y,
            ) ==> final(canvas).px(x, y)@ == composite(entries@, x, y),
        forall|x: int, y: int|
            0 <= x < old(canvas).width && 0 <= y < old(canvas).height && !tile_covers(
                tile_x as int,
                tile_y as int,
                x,
                y,
            ) ==> final(canvas).px(x, y) == old(canvas).px(x, y),
{
    let w = canvas.width;
    let h = canvas.height;
    let x0 = tile_x * TILE_SIZE;
    let x1 = min_u32(x0 + TILE_SIZE, w);
    let y0 = tile_y * TILE_SIZE;
    let y1 = min_u32(y0 + TILE_SIZE, h);

    // Clear the tile.
    let mut y = y0;
    while y < y1
        invariant
            canvas.wf(),
            canvas.width == old(canvas).width,
            canvas.height == old(canvas).height,
            canvas.data@.len() == old(canvas).data@.len(),
            w == canvas.width,
            h == canvas.height,
            x0 == (tile_x as int) * (TILE_SIZE as int),
            y0 == (tile_y as int) * (TILE_SIZE as int),
            x0 < w,
            y0 < h,
            x1 == if x0 + TILE_SIZE <= w {
                x0 + TILE_SIZE
            } else {
                w as int
            },
            y1 == if y0 + TILE_SIZE <= h {
                y0 + TILE_SIZE
            } else {
                h as int
            },
            y0 <= y <= y1,
            forall|x2: int, y2: int|
                x0 <= x2 < x1 && y0 <= y2 < y ==> (#[trigger] canvas.px(x2, y2))@ == zero_px(),
            forall|x2: int, y2: int|
                0 <= x2 < w && 0 <= y2 < h && !(y0 <= y2 < y && x0 <= x2 < x1) ==> (
                #[trigger] canvas.px(x2, y2)) == old(canvas).px(x2, y2),
        decreases y1 - y,
    {
        let ghost prev = *canvas;
        canvas.fill_span(x0, x1, y, [0u8, 0u8, 0u8, 0u8]);
        proof {
            assert forall|x2: int, y2: int|
                0 <= x2 < w && 0 <= y2 < h && !(y2 == y && x0 <= x2 < x1) implies (
            #[trigger] canvas.px(x2, y2)) == prev.px(x2, y2) by {
                lemma_row_disjoint(w as int, y as int, x0 as int, x1 as int, x2, y2);
                prev.lemma_span_bounds(x2 + 1, y2);
            }
            assert forall|x2: int| x0 <= x2 < x1 implies (#[trigger] canvas.px(
                x2,
                y as int,
            ))@ == zero_px() by {
                assert(canvas.px(x2, y as int) == ([0u8, 0u8, 0u8, 0u8]));
                assert(canvas.px(x2, y as int)@ =~= zero_px());
            }
        }
        y = y + 1;
    }

    proof {
        assert forall|x2: int, y2: int| x0 <= x2 < x1 && y0 <= y2 < y1 implies (
        #[trigger] canvas.px(x2, y2))@ == composite_prefix(entries@, 0, x2, y2) by {}
    }

    // Blend every entry that occupies this tile, in order.
    let n = entries.len();
    let mut j: usize = 0;
    while j < n
        invariant
            canvas.wf(),
            canvas.width == old(canvas).width,
            canvas.height == old(canvas).height,
            canvas.data@.len() == old(canvas).data@.len(),
            w == canvas.width,
            h == canvas.height,
            n == entries@.len(),
            j <= n,
            tile_x <= u16::MAX,
            tile_y <= u16::MAX,
            tile_x < tiles_wide,
            tile_y < tiles_tall,
            x0 == (tile_x as int) * (TILE_SIZE as int),
            y0 == (tile_y as int) * (TILE_SIZE as int),
            x0 < w,
            y0 < h,
            x1 == if x0 + TILE_SIZE <= w {
                x0 + TILE_SIZE
            } else {
                w as int
            },
            y1 == if y0 + TILE_SIZE <= h {
                y0 + TILE_SIZE
            } else {
                h as int
            },
            forall|i: int| 0 <= i < entries@.len() ==> (#[trigger] entries@[i]).wf(),
            forall|i: int|
                0 <= i < entries@.len() ==> occupancy_ok(
                    #[trigger] entries@[i],
                    tiles_wide as int,
                    tiles_tall as int,
                ),
            forall|x2: int, y2: int|
                x0 <= x2 < x1 && y0 <= y2 < y1 ==> (#[trigger] canvas.px(x2, y2))@
                    == composite_prefix(entries@, j as int, x2, y2),
            forall|x2: int, y2: int|
                0 <= x2 < w && 0 <= y2 < h && !(y0 <= y2 < y1 && x0 <= x2 < x1) ==> (
                #[trigger] canvas.px(x2, y2)) == old(canvas).px(x2, y2),
        decreases n - j,
    {
        let ghost e_spec = entries@[j as int];
        let occupies = entries[j].contains_tile(tile_x, tile_y);
        if occupies {
            let min_x = entries[j].inner.rect.min_x;
            let min_y = entries[j].inner.rect.min_y;
            let max_x = entries[j].inner.rect.max_x;
            let max_y = entries[j].inner.rect.max_y;
            let ew = max_x - min_x;
            let rx0 = max_u32(min_x, x0);
            let rx1 = min_u32(max_x, x1);
            let ry0 = max_u32(min_y, y0);
            let ry1 = min_u32(max_y, y1);
            if rx0 < rx1 && ry0 < ry1 {
                let mut ry = ry0;
                while ry < ry1
                    invariant
                        canvas.wf(),
                        canvas.width == old(canvas).width,
                        canvas.height == old(canvas).height,
                        canvas.data@.len() == old(canvas).data@.len(),
                        w == canvas.width,
                        h == canvas.height,
                        n == entries@.len(),
                        j < n,
                        e_spec == entries@[j as int],
                        e_spec.wf(),
                        min_x == e_spec.inner.rect.min_x,
                        min_y == e_spec.inner.rect.min_y,
                        max_x == e_spec.inner.rect.max_x,
                        max_y == e_spec.inner.rect.max_y,
                        ew == e_spec.spec_width(),
                        x0 < w,
                        y0 < h,
                        x1 <= w,
                        y1 <= h,
                        rx0 == if min_x >= x0 {
                            min_x as int
                        } else {
                            x0 as int
                        },
                        rx1 == if max_x <= x1 {
                            max_x as int
                        } else {
                            x1 as int
                        },
                        ry0 == if min_y >= y0 {
                            min_y as int
                        } else {
                            y0 as int
                        },
                        ry1 == if max_y <= y1 {
                            max_y as int
                        } else {
                            y1 as int
                        },
                        rx0 < rx1,
                        ry0 <= ry <= ry1,
                        x0 <= rx0,
                        rx1 <= x1,
                        y0 <= ry0,
                        ry1 <= y1,
                        forall|x2: int, y2: int|
                            x0 <= x2 < x1 && y0 <= y2 < y1 && (rx0 <= x2 < rx1 && ry0 <= y2 < ry)
                                ==> (#[trigger] canvas.px(x2, y2))@ == blend_px(
                                e_spec.px_at(x2, y2)@,
                                composite_prefix(entries@, j as int, x2, y2),
                            ),
                        forall|x2: int, y2: int|
                            x0 <= x2 < x1 && y0 <= y2 < y1 && !(rx0 <= x2 < rx1 && ry0 <= y2 < ry)
                                ==> (#[trigger] canvas.px(x2, y2))@ == composite_prefix(
                                entries@,
                                j as int,
                                x2,
                                y2,
                            ),
                        forall|x2: int, y2: int|
                            0 <= x2 < w && 0 <= y2 < h && !(y0 <= y2 < y1 && x0 <= x2 < x1) ==> (
                            #[trigger] canvas.px(x2, y2)) == old(canvas).px(x2, y2),
                    decreases ry1 - ry,
                {
                    let ghost prev = *canvas;
                    let ly = ry - min_y;
                    proof {
                        vstd::arithmetic::mul::lemma_mul_inequality(
                            ly + 1,
                            e_spec.spec_height(),
                            ew as int,
                        );
                        assert((ly + 1) * ew == ly * ew + ew) by (nonlinear_arith);
                        vstd::arithmetic::mul::lemma_mul_is_commutative(
                            e_spec.spec_height(),
                            ew as int,
                        );
                        vstd::arithmetic::mul::lemma_mul_nonnegative(ly as int, ew as int);
                    }
                    let off = ly * ew + (rx0 - min_x);
                    let count = rx1 - rx0;
                    let src = vstd::slice::slice_subrange(
                        entries[j].buffer.as_slice(),
                        as_usize(off),
                        as_usize(off + count),
                    );
                    canvas.blend_span(src, rx0, rx1, ry);
                    proof {
                        assert forall|x2: int, y2: int|
                            0 <= x2 < w && 0 <= y2 < h && !(y2 == ry && rx0 <= x2 < rx1) implies (
                        #[trigger] canvas.px(x2, y2)) == prev.px(x2, y2) by {
                            lemma_row_disjoint(w as int, ry as int, rx0 as int, rx1 as int, x2, y2);
                            prev.lemma_span_bounds(x2 + 1, y2);
                        }
                        assert forall|x2: int| rx0 <= x2 < rx1 implies (#[trigger] canvas.px(
                            x2,
                            ry as int,
                        ))@ == blend_px(
                            e_spec.px_at(x2, ry as int)@,
                            composite_prefix(entries@, j as int, x2, ry as int),
                        ) by {
                            let i = (ry as int) * w + x2;
                            assert(canvas.data@[i]@ == blend_px(
                                src@[x2 - rx0]@,
                                prev.data@[i]@,
                            ));
                            assert(src@[x2 - rx0] == e_spec.buffer@[off + x2 - rx0]);
                            assert(off + x2 - rx0 == ly * ew + (x2 - min_x));
                            assert(e_spec.local_px(x2 - min_x, ly as int) == e_spec.buffer@[ly * ew
                                + (x2 - min_x)]);
                            assert(e_spec.px_at(x2, ry as int) == e_spec.local_px(
                                x2 - min_x,
                                ly as int,
                            ));
                            assert(prev.px(x2, ry as int) == prev.data@[i]);
                        }
                    }
                    ry = ry + 1;
                }
            }
            proof {
                assert forall|x2: int, y2: int| x0 <= x2 < x1 && y0 <= y2 < y1 implies (
                #[trigger] canvas.px(x2, y2))@ == composite_prefix(
                    entries@,
                    j + 1,
                    x2,
                    y2,
                ) by {
                    if e_spec.inner.rect.contains(x2, y2) {
                        assert(rx0 <= x2 < rx1 && ry0 <= y2 < ry1);
                    }
                }
            }
        } else {
            proof {
                assert forall|x2: int, y2: int| x0 <= x2 < x1 && y0 <= y2 < y1 implies (
                #[trigger] canvas.px(x2, y2))@ == composite_prefix(
                    entries@,
                    j + 1,
                    x2,
                    y2,
                ) by {
                    if e_spec.inner.rect.contains(x2, y2) {
                        assert(tile_covers(tile_x as int, tile_y as int, x2, y2));
                        lemma_skip_entry(
                            e_spec,
                            tiles_wide as int,
                            tiles_tall as int,
                            tile_x as int,
                            tile_y as int,
                            x2,
                            y2,
                        );
                        lemma_composite_len(entries@, j as int, x2, y2);
                        lemma_blend_zero_px(
                            e_spec.px_at(x2, y2),
                            composite_prefix(entries@, j as int, x2, y2),
                        );
                    }
                }
            }
        }
        j = j + 1;
    }
}

/// Flag bit: at least one occupying entry of the tile appeared, changed or
/// disappeared this frame.
pub const DIRTY_TILE_MASK: u8 = 1;

/// Flag bit: some cache entry's bitmap has a non-zero pixel in the tile.
pub const OCCUPIED_TILE_MASK: u8 = 2;

/// The entry appeared or was re-rendered this frame, or its hash no longer
/// occurs among the frame's primitives.
pub open spec fn entry_changed(e: TiledCachedPrimitive) -> bool {
    !e.inner.seen_this_frame || e.inner.rendered_this_frame
}

/// Whether `mask` is set in the flag byte of tile `(tx, ty)`.
pub open spec fn tile_flag(dt: Seq<u8>, tiles_x: int, tx: int, ty: int, mask: u8) -> bool {
    (dt[ty * tiles_x + tx] & mask) != 0
}

/// Some entry occupies the tile.
pub open spec fn tile_occupied_by_some(entries: Seq<TiledCachedPrimitive>, tx: int, ty: int) -> bool {
    exists|j: int| 0 <= j < entries.len() && (#[trigger] entries[j]).occupied(tx, ty)
}

/// Some changed entry occupies the tile.
pub open spec fn tile_dirty_by_some(entries: Seq<TiledCachedPrimitive>, tx: int, ty: int) -> bool {
    exists|j: int|
        0 <= j < entries.len() && entry_changed(#[trigger] entries[j]) && entries[j].occupied(tx, ty)
}

/// The entry's occupancy list stays inside the `tiles_x * tiles_y` grid.
pub open spec fn tiles_in_grid(e: TiledCachedPrimitive, tiles_x: int, tiles_y: int) -> bool {
    forall|k: int|
        0 <= k < e.occupied_tiles@.len() ==> (#[trigger] e.occupied_tiles@[k]).0 < tiles_x
            && e.occupied_tiles@[k].1 < tiles_y
}

/// Occupancy over a prefix of the entries, with the tile list of entry `j`
/// itself processed up to position `k`.
spec fn occupied_in_prefix(
    entries: Seq<TiledCachedPrimitive>,
    j: int,
    k: int,
    tx: int,
    ty: int,
) -> bool {
    ||| exists|j2: int| 0 <= j2 < j && (#[trigger] entries[j2]).occupied(tx, ty)
    ||| (0 <= j < entries.len() && exists|k2: int|
        0 <= k2 < k && (#[trigger] entries[j].occupied_tiles@[k2]) == ((tx as u16, ty as u16)))
}

/// Same as [`occupied_in_prefix`], restricted to changed entries.
spec fn dirty_in_prefix(
    entries: Seq<TiledCachedPrimitive>,
    j: int,
    k: int,
    tx: int,
    ty: int,
) -> bool {
    ||| exists|j2: int|
        0 <= j2 < j && entry_changed(#[trigger] entries[j2]) && entries[j2].occupied(tx, ty)
    ||| (0 <= j < entries.len() && entry_changed(entries[j]) && exists|k2: int|
        0 <= k2 < k && (#[trigger] entries[j].occupied_tiles@[k2]) == ((tx as u16, ty as u16)))
}

proof fn lemma_or_small(v: u8, m: u8)
    by (bit_vector)
    requires
        v < 4,
        m < 4,
    ensures
        (v | m) < 4,
{
}

proof fn lemma_or_bit(v: u8, m: u8, b: u8)
    by (bit_vector)
    ensures
        (((v | m) & b) != 0) == (((v & b) != 0) || ((m & b) != 0)),
{
}

/// Rebuild the per-tile flag array: walk every entry's occupancy list, set
/// the occupied bit on each listed tile, and the dirty bit where the entry
/// changed this frame.
pub fn update_dirty_tiles(entries: &Vec<TiledCachedPrimitive>, tiles_x: u32, tiles_y: u32) -> (r:
    Vec<u8>)
    requires
        tiles_x <= u16::MAX,
        tiles_y <= u16::MAX,
        (tiles_x as int) * (tiles_y as int) <= u32::MAX,
        forall|j: int|
            0 <= j < entries@.len() ==> tiles_in_grid(
                #[trigger] entries@[j],
                tiles_x as int,
                tiles_y as int,
            ),
    ensures
        r@.len() == (tiles_x as int) * (tiles_y as int),
        forall|t: int| 0 <= t < r@.len() ==> (#[trigger] r@[t]) < 4,
        forall|tx: u16, ty: u16|
            tx < tiles_x && ty < tiles_y ==> (#[trigger] tile_flag(
                r@,
                tiles_x as int,
                tx as int,
                ty as int,
                OCCUPIED_TILE_MASK,
            ) <==> tile_occupied_by_some(entries@, tx as int, ty as int)),
        forall|tx: u16, ty: u16|
            tx < tiles_x && ty < tiles_y ==> (#[trigger] tile_flag(
                r@,
                tiles_x as int,
                tx as int,
                ty as int,
                DIRTY_TILE_MASK,
            ) <==> tile_dirty_by_some(entries@, tx as int, ty as int)),
{
    let total = as_usize(tiles_x * tiles_y);
    let mut flags: Vec<u8> = Vec::new();
    let mut t: usize = 0;
    while t < total
        invariant
            t <= total,
            flags@.len() == t,
            forall|i: int| 0 <= i < t ==> flags@[i] == 0u8,
        decreases total - t,
    {
        flags.push(0u8);
        t = t + 1;
    }

    proof {
        assert(forall|m: u8| (0u8 & m) == 0u8) by (bit_vector);
        assert forall|tx2: u16, ty2: u16| tx2 < tiles_x && ty2 < tiles_y implies !tile_flag(
            flags@,
            tiles_x as int,
            tx2 as int,
            ty2 as int,
            OCCUPIED_TILE_MASK,
        ) && !tile_flag(flags@, tiles_x as int, tx2 as int, ty2 as int, DIRTY_TILE_MASK) by {
            vstd::arithmetic::mul::lemma_mul_inequality(
                ty2 as int + 1,
                tiles_y as int,
                tiles_x as int,
            );
            assert((ty2 as int + 1) * (tiles_x as int) == (ty2 as int) * (tiles_x as int)
                + tiles_x) by (nonlinear_arith);
            vstd::arithmetic::mul::lemma_mul_is_commutative(tiles_y as int, tiles_x as int);
            vstd::arithmetic::mul::lemma_mul_nonnegative(ty2 as int, tiles_x as int);
            assert(flags@[(ty2 as int) * (tiles_x as int) + tx2] == 0u8);
        }
    }
    let n = entries.len();
    let mut j: usize = 0;
    while j < n
        invariant
            n == entries@.len(),
            j <= n,
            tiles_x <= u16::MAX,
            tiles_y <= u16::MAX,
            (tiles_x as int) * (tiles_y as int) <= u32::MAX,
            flags@.len() == (tiles_x as int) * (tiles_y as int),
            forall|t: int| 0 <= t < flags@.len() ==> (#[trigger] flags@[t]) < 4,
            forall|i: int|
                0 <= i < entries@.len() ==> tiles_in_grid(
                    #[trigger] entries@[i],
                    tiles_x as int,
                    tiles_y as int,
                ),
            forall|tx: u16, ty: u16|
                tx < tiles_x && ty < tiles_y ==> (#[trigger] tile_flag(
                    flags@,
                    tiles_x as int,
                    tx as int,
                    ty as int,
                    OCCUPIED_TILE_MASK,
                ) <==> occupied_in_prefix(entries@, j as int, 0, tx as int, ty as int)),
            forall|tx: u16, ty: u16|
                tx < tiles_x && ty < tiles_y ==> (#[trigger] tile_flag(
                    flags@,
                    tiles_x as int,
                    tx as int,
                    ty as int,
                    DIRTY_TILE_MASK,
                ) <==> dirty_in_prefix(entries@, j as int, 0, tx as int, ty as int)),
        decreases n - j,
    {
        let changed = !entries[j].inner.seen_this_frame || entries[j].inner.rendered_this_frame;
        let mask: u8 = if changed {
            OCCUPIED_TILE_MASK | DIRTY_TILE_MASK
        } else {
            OCCUPIED_TILE_MASK
        };
        proof {
            assert((2u8 | 1u8) == 3u8) by (bit_vector);
            if changed {
                assert((3u8 & 2u8) != 0 && (3u8 & 1u8) != 0) by (bit_vector);
            } else {
                assert((2u8 & 2u8) != 0 && (2u8 & 1u8) == 0) by (bit_vector);
            }
        }
        let m = entries[j].occupied_tiles.len();
        let mut k: usize = 0;
        while k < m
            invariant
                n == entries@.len(),
                j < n,
                m == entries@[j as int].occupied_tiles@.len(),
                k <= m,
                tiles_x <= u16::MAX,
                tiles_y <= u16::MAX,
                (tiles_x as int) * (tiles_y as int) <= u32::MAX,
                flags@.len() == (tiles_x as int) * (tiles_y as int),
                forall|t: int| 0 <= t < flags@.len() ==> (#[trigger] flags@[t]) < 4,
                mask == if entry_changed(entries@[j as int]) {
                    3u8
                } else {
                    2u8
                },
                (mask & OCCUPIED_TILE_MASK) != 0,
                (mask & DIRTY_TILE_MASK) != 0 <==> entry_changed(entries@[j as int]),
                forall|i: int|
                    0 <= i < entries@.len() ==> tiles_in_grid(
                        #[trigger] entries@[i],
                        tiles_x as int,
                        tiles_y as int,
                    ),
                forall|tx: u16, ty: u16|
                    tx < tiles_x && ty < tiles_y ==> (#[trigger] tile_flag(
                        flags@,
                        tiles_x as int,
                        tx as int,
                        ty as int,
                        OCCUPIED_TILE_MASK,
                    ) <==> occupied_in_prefix(entries@, j as int, k as int, tx as int, ty as int)),
                forall|tx: u16, ty: u16|
                    tx < tiles_x && ty < tiles_y ==> (#[trigger] tile_flag(
                        flags@,
                        tiles_x as int,
                        tx as int,
                        ty as int,
                        DIRTY_TILE_MASK,
                    ) <==> dirty_in_prefix(entries@, j as int, k as int, tx as int, ty as int)),
            decreases m - k,
        {
            let tile = entries[j].occupied_tiles[k];
            let tx = tile.0;
            let ty = tile.1;
            proof {
                vstd::arithmetic::mul::lemma_mul_inequality(
                    ty as int + 1,
                    tiles_y as int,
                    tiles_x as int,
                );
                assert((ty as int + 1) * (tiles_x as int) == (ty as int) * (tiles_x as int)
                    + tiles_x) by (nonlinear_arith);
                vstd::arithmetic::mul::lemma_mul_is_commutative(tiles_y as int, tiles_x as int);
                vstd::arithmetic::mul::lemma_mul_nonnegative(ty as int, tiles_x as int);
            }
            let idx = (ty as u32) * tiles_x + (tx as u32);
            let ghost before = flags@;
            let v = flags[as_usize(idx)];
            flags.set(as_usize(idx), v | mask);
            proof {
                lemma_or_small(v, mask);
                lemma_or_bit(v, mask, OCCUPIED_TILE_MASK);
                lemma_or_bit(v, mask, DIRTY_TILE_MASK);
                assert(entries@[j as int].occupied_tiles@[k as int] =~= ((tx, ty)));
                assert(entries@[j as int].occupied_tiles@[k as int] == ((tx, ty)));
                assert forall|tx2: u16, ty2: u16| tx2 < tiles_x && ty2 < tiles_y implies (
                #[trigger] tile_flag(
                    flags@,
                    tiles_x as int,
                    tx2 as int,
                    ty2 as int,
                    OCCUPIED_TILE_MASK,
                ) <==> occupied_in_prefix(
                    entries@,
                    j as int,
                    k + 1,
                    tx2 as int,
                    ty2 as int,
                )) by {
                    if tx2 == tx && ty2 == ty {
                        assert(((tx2 as int) as u16) == tx2 && ((ty2 as int) as u16) == ty2);
                        assert(tile_flag(
                            flags@,
                            tiles_x as int,
                            tx2 as int,
                            ty2 as int,
                            OCCUPIED_TILE_MASK,
                        ));
                    } else {
                        assert(((tx2 as int) as u16) == tx2 && ((ty2 as int) as u16) == ty2);
                        vstd::arithmetic::mul::lemma_mul_inequality(
                            ty2 as int + 1,
                            tiles_y as int,
                            tiles_x as int,
                        );
                        assert((ty2 as int + 1) * (tiles_x as int) == (ty2 as int) * (
                        tiles_x as int) + tiles_x) by (nonlinear_arith);
                        vstd::arithmetic::mul::lemma_mul_is_commutative(
                            tiles_y as int,
                            tiles_x as int,
                        );
                        vstd::arithmetic::mul::lemma_mul_nonnegative(ty2 as int, tiles_x as int);
                        lemma_row_disjoint(
                            tiles_x as int,
                            ty as int,
                            tx as int,
                            tx as int + 1,
                            tx2 as int,
                            ty2 as int,
                        );
                        assert(flags@[(ty2 as int) * (tiles_x as int) + tx2] == before[(
                        ty2 as int) * (tiles_x as int) + tx2]);
                        assert(tile_flag(
                            flags@,
                            tiles_x as int,
                            tx2 as int,
                            ty2 as int,
                            OCCUPIED_TILE_MASK,
                        ) == tile_flag(
                            before,
                            tiles_x as int,
                            tx2 as int,
                            ty2 as int,
                            OCCUPIED_TILE_MASK,
                        ));
                    }
                }
                assert forall|tx2: u16, ty2: u16| tx2 < tiles_x && ty2 < tiles_y implies (
                #[trigger] tile_flag(
                    flags@,
                    tiles_x as int,
                    tx2 as int,
                    ty2 as int,
                    DIRTY_TILE_MASK,
                ) <==> dirty_in_prefix(entries@, j as int, k + 1, tx2 as int, ty2 as int)) by {
                    assert(((tx2 as int) as u16) == tx2 && ((ty2 as int) as u16) == ty2);
                    if tx2 == tx && ty2 == ty {
                        assert(tile_flag(flags@, tiles_x as int, tx2 as int, ty2 as int, DIRTY_TILE_MASK)
                            == (((v | mask) & DIRTY_TILE_MASK) != 0));
                        if entry_changed(entries@[j as int]) {
                            assert(tile_flag(flags@, tiles_x as int, tx2 as int, ty2 as int, DIRTY_TILE_MASK));
                            assert(entries@[j as int].occupied_tiles@[k as int] == ((tx2, ty2)));
                            assert(dirty_in_prefix(entries@, j as int, k + 1, tx2 as int, ty2 as int));
                        } else {
                            assert((mask & DIRTY_TILE_MASK) == 0);
                            assert(tile_flag(flags@, tiles_x as int, tx2 as int, ty2 as int, DIRTY_TILE_MASK)
                                == tile_flag(before, tiles_x as int, tx2 as int, ty2 as int, DIRTY_TILE_MASK));
                            assert(tile_flag(before, tiles_x as int, tx2 as int, ty2 as int, DIRTY_TILE_MASK)
                                == dirty_in_prefix(entries@, j as int, k as int, tx2 as int, ty2 as int));
                            assert(dirty_in_prefix(entries@, j as int, k as int, tx2 as int, ty2 as int)
                                == dirty_in_prefix(entries@, j as int, k + 1, tx2 as int, ty2 as int));
                        }
                    } else {
                        vstd::arithmetic::mul::lemma_mul_inequality(
                            ty2 as int + 1,
                            tiles_y as int,
                            tiles_x as int,
                        );
                        assert((ty2 as int + 1) * (tiles_x as int) == (ty2 as int) * (
                        tiles_x as int) + tiles_x) by (nonlinear_arith);
                        vstd::arithmetic::mul::lemma_mul_is_commutative(
                            tiles_y as int,
                            tiles_x as int,
                        );
                        vstd::arithmetic::mul::lemma_mul_nonnegative(ty2 as int, tiles_x as int);
                        lemma_row_disjoint(
                            tiles_x as int,
                            ty as int,
                            tx as int,
                            tx as int + 1,
                            tx2 as int,
                            ty2 as int,
                        );
                        assert(flags@[(ty2 as int) * (tiles_x as int) + tx2] == before[(
                        ty2 as int) * (tiles_x as int) + tx2]);
                        assert(tile_flag(
                            flags@,
                            tiles_x as int,
                            tx2 as int,
                            ty2 as int,
                            DIRTY_TILE_MASK,
                        ) == tile_flag(
                            before,
                            tiles_x as int,
                            tx2 as int,
                            ty2 as int,
                            DIRTY_TILE_MASK,
                        ));
                    }
                }
            }
            k = k + 1;
        }
        proof {
            assert forall|tx2: u16, ty2: u16| tx2 < tiles_x && ty2 < tiles_y implies (
            occupied_in_prefix(entries@, j as int, m as int, tx2 as int, ty2 as int)
                <==> occupied_in_prefix(entries@, j + 1, 0, tx2 as int, ty2 as int)) by {
                if occupied_in_prefix(entries@, j as int, m as int, tx2 as int, ty2 as int) {
                    if exists|k2: int|
                        0 <= k2 < m && (#[trigger] entries@[j as int].occupied_tiles@[k2]) == ((
                        tx2,
                        ty2,
                    )) {
                        assert(entries@[j as int].occupied(tx2 as int, ty2 as int));
                    }
                }
                if occupied_in_prefix(entries@, j + 1, 0, tx2 as int, ty2 as int) {
                    let j2 = choose|j2: int|
                        0 <= j2 < j + 1 && (#[trigger] entries@[j2]).occupied(
                            tx2 as int,
                            ty2 as int,
                        );
                    if j2 == j {
                        let k2 = choose|k2: int|
                            0 <= k2 < entries@[j2].occupied_tiles@.len()
                                && entries@[j2].occupied_tiles@[k2] == (((tx2 as int) as u16, (
                            ty2 as int) as u16));
                        assert(entries@[j as int].occupied_tiles@[k2] == ((tx2, ty2)));
                    }
                }
            }
            assert forall|tx2: u16, ty2: u16| tx2 < tiles_x && ty2 < tiles_y implies (
            dirty_in_prefix(entries@, j as int, m as int, tx2 as int, ty2 as int)
                <==> dirty_in_prefix(entries@, j + 1, 0, tx2 as int, ty2 as int)) by {
                if dirty_in_prefix(entries@, j as int, m as int, tx2 as int, ty2 as int) {
                    if entry_changed(entries@[j as int]) && exists|k2: int|
                        0 <= k2 < m && (#[trigger] entries@[j as int].occupied_tiles@[k2]) == ((
                        tx2,
                        ty2,
                    )) {
                        assert(entries@[j as int].occupied(tx2 as int, ty2 as int));
                    }
                }
                if dirty_in_prefix(entries@, j + 1, 0, tx2 as int, ty2 as int) {
                    let j2 = choose|j2: int|
                        0 <= j2 < j + 1 && entry_changed(#[trigger] entries@[j2])
                            && entries@[j2].occupied(tx2 as int, ty2 as int);
                    if j2 == j {
                        let k2 = choose|k2: int|
                            0 <= k2 < entries@[j2].occupied_tiles@.len()
                                && entries@[j2].occupied_tiles@[k2] == (((tx2 as int) as u16, (
                            ty2 as int) as u16));
                        assert(entries@[j as int].occupied_tiles@[k2] == ((tx2, ty2)));
                    }
                }
            }
        }
        j = j + 1;
    }
    proof {
        assert forall|tx2: u16, ty2: u16| tx2 < tiles_x && ty2 < tiles_y implies (
        occupied_in_prefix(entries@, n as int, 0, tx2 as int, ty2 as int)
            <==> tile_occupied_by_some(entries@, tx2 as int, ty2 as int)) by {}
        assert forall|tx2: u16, ty2: u16| tx2 < tiles_x && ty2 < tiles_y implies (dirty_in_prefix(
            entries@,
            n as int,
            0,
            tx2 as int,
            ty2 as int,
        ) <==> tile_dirty_by_some(entries@, tx2 as int, ty2 as int)) by {}
    }
    flags
}

/// Union of the rects of the changed entries among the first `k`; the empty
/// rect when none changed.
pub open spec fn dirty_union_prefix(entries: Seq<TiledCachedPrimitive>, k: int) -> DirtyRect
    decreases k,
{
    if k <= 0 {
        DirtyRect { min_x: 0, min_y: 0, max_x: 0, max_y: 0 }
    } else {
        let r = dirty_union_prefix(entries, k - 1);
        let e = entries[k - 1];
        if entry_changed(e) {
            if r.spec_is_empty() {
                e.inner.rect
            } else {
                r.spec_union(e.inner.rect)
            }
        } else {
            r
        }
    }
}

/// When every entry was seen again and none was re-rendered, the dirty union
/// is the empty rect.
pub proof fn lemma_no_change_no_dirty(entries: Seq<TiledCachedPrimitive>, k: int)
    requires
        forall|j: int| 0 <= j < entries.len() ==> !entry_changed(#[trigger] entries[j]),
        k <= entries.len(),
    ensures
        dirty_union_prefix(entries, k) == (DirtyRect { min_x: 0, min_y: 0, max_x: 0, max_y: 0 }),
    decreases k,
{
    if k > 0 {
        lemma_no_change_no_dirty(entries, k - 1);
    }
}

/// The dirty union contains the rect of every changed entry that entered it.
pub proof fn lemma_dirty_union_contains(entries: Seq<TiledCachedPrimitive>, k: int, j: int)
    requires
        0 <= j < k <= entries.len(),
        entry_changed(entries[j]),
        forall|j2: int|
            0 <= j2 < entries.len() && entry_changed(#[trigger] entries[j2])
                ==> entries[j2].inner.rect.min_x < entries[j2].inner.rect.max_x
                && entries[j2].inner.rect.min_y < entries[j2].inner.rect.max_y,
    ensures
        dirty_union_prefix(entries, k).min_x <= entries[j].inner.rect.min_x,
        dirty_union_prefix(entries, k).min_y <= entries[j].inner.rect.min_y,
        dirty_union_prefix(entries, k).max_x >= entries[j].inner.rect.max_x,
        dirty_union_prefix(entries, k).max_y >= entries[j].inner.rect.max_y,
    decreases k,
{
    let r = dirty_union_prefix(entries, k - 1);
    let e = entries[k - 1];
    if j == k - 1 {
        if r.spec_is_empty() {
            assert(dirty_union_prefix(entries, k) == e.inner.rect);
        } else {
            assert(dirty_union_prefix(entries, k) == r.spec_union(e.inner.rect));
        }
    } else {
        lemma_dirty_union_contains(entries, k - 1, j);
        if entry_changed(e) {
            lemma_dirty_union_nonempty(entries, k - 1, j);
            assert(!r.spec_is_empty());
            assert(dirty_union_prefix(entries, k) == r.spec_union(e.inner.rect));
        }
    }
}

/// Every bound of a non-empty dirty union is attained by the rect of some
/// changed entry: the union is the smallest rect containing them.
pub proof fn lemma_dirty_union_attained(entries: Seq<TiledCachedPrimitive>, k: int)
    requires
        0 <= k <= entries.len(),
        !dirty_union_prefix(entries, k).spec_is_empty(),
    ensures
        exists|j: int|
            0 <= j < k && entry_changed(#[trigger] entries[j]) && entries[j].inner.rect.min_x
                == dirty_union_prefix(entries, k).min_x,
        exists|j: int|
            0 <= j < k && entry_changed(#[trigger] entries[j]) && entries[j].inner.rect.min_y
                == dirty_union_prefix(entries, k).min_y,
        exists|j: int|
            0 <= j < k && entry_changed(#[trigger] entries[j]) && entries[j].inner.rect.max_x
                == dirty_union_prefix(entries, k).max_x,
        exists|j: int|
            0 <= j < k && entry_changed(#[trigger] entries[j]) && entries[j].inner.rect.max_y
                == dirty_union_prefix(entries, k).max_y,
    decreases k,
{
    if k > 0 {
        let r = dirty_union_prefix(entries, k - 1);
        let e = entries[k - 1];
        if entry_changed(e) {
            if r.spec_is_empty() {
                assert(dirty_union_prefix(entries, k) == e.inner.rect);
                assert(entry_changed(entries[k - 1]));
            } else {
                lemma_dirty_union_attained(entries, k - 1);
                assert(dirty_union_prefix(entries, k) == r.spec_union(e.inner.rect));
                let u = dirty_union_prefix(entries, k);
                if u.min_x == e.inner.rect.min_x {
                    assert(entry_changed(entries[k - 1]));
                } else {
                    let j = choose|j: int|
                        0 <= j < k - 1 && entry_changed(#[trigger] entries[j])
                            && entries[j].inner.rect.min_x == r.min_x;
                    assert(entry_changed(entries[j]));
                }
                if u.min_y == e.inner.rect.min_y {
                    assert(entry_changed(entries[k - 1]));
                } else {
                    let j = choose|j: int|
                        0 <= j < k - 1 && entry_changed(#[trigger] entries[j])
                            && entries[j].inner.rect.min_y == r.min_y;
                    assert(entry_changed(entries[j]));
                }
                if u.max_x == e.inner.rect.max_x {
                    assert(entry_changed(entries[k - 1]));
                } else {
                    let j = choose|j: int|
                        0 <= j < k - 1 && entry_changed(#[trigger] entries[j])
                            && entries[j].inner.rect.max_x == r.max_x;
                    assert(entry_changed(entries[j]));
                }
                if u.max_y == e.inner.rect.max_y {
                    assert(entry_changed(entries[k - 1]));
                } else {
                    let j = choose|j: int|
                        0 <= j < k - 1 && entry_changed(#[trigger] entries[j])
                            && entries[j].inner.rect.max_y == r.max_y;
                    assert(entry_changed(entries[j]));
                }
            }
        } else {
            lemma_dirty_union_attained(entries, k - 1);
            assert(dirty_union_prefix(entries, k) == r);
        }
    }
}

/// Smallest rect containing the rects of all entries that appeared, changed
/// or disappeared this frame.
pub fn update_dirty_rect(entries: &Vec<TiledCachedPrimitive>) -> (r: DirtyRect)
    ensures
        r == dirty_union_prefix(entries@, entries@.len() as int),
{
    let mut dirty = DirtyRect::new_empty();
    let n = entries.len();
    let mut j: usize = 0;
    while j < n
        invariant
            n == entries@.len(),
            j <= n,
            dirty == dirty_union_prefix(entries@, j as int),
        decreases n - j,
    {
        let changed = !entries[j].inner.seen_this_frame || entries[j].inner.rendered_this_frame;
        if changed {
            if dirty.is_empty() {
                dirty = entries[j].inner.rect;
            } else {
                dirty = dirty.union(entries[j].inner.rect);
            }
        }
        j = j + 1;
    }
    dirty
}

/// Drop every cache entry whose hash did not occur among this frame's
/// primitives, keeping the rest in order.
pub fn evict_unseen(entries: &mut Vec<TiledCachedPrimitive>)
    ensures
        final(entries)@ == old(entries)@.filter(
            |e: TiledCachedPrimitive| e.inner.seen_this_frame,
        ),
{
    let ghost orig = entries@;
    let ghost pred = |e: TiledCachedPrimitive| e.inner.seen_this_frame;
    let mut rest: Vec<TiledCachedPrimitive> = Vec::new();
    core::mem::swap(entries, &mut rest);
    let n = rest.len();
    proof {
        reveal(Seq::filter);
        assert(orig.subrange(0, 0).filter(pred) =~= entries@);
        assert(rest@ == orig.subrange(0, n as int));
    }
    let mut i: usize = 0;
    while i < n
        invariant
            n == orig.len(),
            i <= n,
            rest@ == orig.subrange(i as int, n as int),
            entries@ == orig.subrange(0, i as int).filter(pred),
            pred == (|e: TiledCachedPrimitive| e.inner.seen_this_frame),
        decreases n - i,
    {
        let e = rest.remove(0);
        proof {
            reveal(Seq::filter);
            assert(e == orig[i as int]);
            assert(rest@ =~= orig.subrange(i + 1, n as int));
            assert(orig.subrange(0, i + 1).drop_last() =~= orig.subrange(0, i as int));
            assert(orig.subrange(0, i + 1).last() == orig[i as int]);
        }
        let ghost kept_before = entries@;
        if e.inner.seen_this_frame {
            entries.push(e);
            proof {
                reveal(Seq::filter);
                assert(pred(orig[i as int]));
                assert(entries@ == kept_before.push(orig[i as int]));
                assert(entries@ =~= orig.subrange(0, i + 1).filter(pred));
            }
        } else {
            proof {
                reveal(Seq::filter);
                assert(!pred(orig[i as int]));
                assert(entries@ =~= orig.subrange(0, i + 1).filter(pred));
            }
        }
        i = i + 1;
    }
    proof {
        assert(orig.subrange(0, n as int) =~= orig);
    }
}

/// Every element the filter keeps is an element of the sequence.
pub proof fn lemma_filter_element_of<A>(s: Seq<A>, pred: spec_fn(A) -> bool, i: int)
    requires
        0 <= i < s.filter(pred).len(),
    ensures
        exists|j: int| 0 <= j < s.len() && #[trigger] s[j] == s.filter(pred)[i],
    decreases s.len(),
{
    reveal(Seq::filter);
    if s.len() > 0 {
        let f = s.filter(pred);
        let fd = s.drop_last().filter(pred);
        if pred(s.last()) && i == f.len() - 1 {
            assert(s[s.len() - 1] == f[i]);
        } else {
            lemma_filter_element_of(s.drop_last(), pred, i);
            let j = choose|j: int| 0 <= j < s.drop_last().len() && #[trigger] s.drop_last()[j] == fd[i];
            assert(s[j] == s.drop_last()[j]);
        }
    }
}

/// Filtering a sequence of entries with pairwise distinct hashes keeps the
/// hashes pairwise distinct.
pub proof fn lemma_filter_hash_unique(
    s: Seq<TiledCachedPrimitive>,
    pred: spec_fn(TiledCachedPrimitive) -> bool,
)
    requires
        forall|j1: int, j2: int|
            #![trigger s[j1], s[j2]]
            0 <= j1 < j2 < s.len() ==> s[j1].hash != s[j2].hash,
    ensures
        forall|j1: int, j2: int|
            #![trigger s.filter(pred)[j1], s.filter(pred)[j2]]
            0 <= j1 < j2 < s.filter(pred).len() ==> s.filter(pred)[j1].hash != s.filter(
                pred,
            )[j2].hash,
    decreases s.len(),
{
    reveal(Seq::filter);
    if s.len() > 0 {
        let sd = s.drop_last();
        assert forall|j1: int, j2: int|
            #![trigger sd[j1], sd[j2]]
            0 <= j1 < j2 < sd.len() implies sd[j1].hash != sd[j2].hash by {
            assert(sd[j1] == s[j1] && sd[j2] == s[j2]);
        }
        lemma_filter_hash_unique(sd, pred);
        let f = s.filter(pred);
        let fd = sd.filter(pred);
        if pred(s.last()) {
            assert forall|j1: int, j2: int|
                #![trigger f[j1], f[j2]]
                0 <= j1 < j2 < f.len() implies f[j1].hash != f[j2].hash by {
                if j2 == f.len() - 1 {
                    assert(f[j1] == fd[j1]);
                    lemma_filter_element_of(sd, pred, j1);
                    let j = choose|j: int| 0 <= j < sd.len() && #[trigger] sd[j] == fd[j1];
                    assert(s[j] == sd[j]);
                    assert(s[j].hash != s[s.len() - 1].hash);
                } else {
                    assert(f[j1] == fd[j1] && f[j2] == fd[j2]);
                }
            }
        }
    }
}

/// The dirty union is not empty once a well-formed non-empty rect of a
/// changed entry has entered it.
pub proof fn lemma_dirty_union_nonempty(entries: Seq<TiledCachedPrimitive>, k: int, j: int)
    requires
        0 <= j < k <= entries.len(),
        entry_changed(entries[j]),
        forall|j2: int|
            0 <= j2 < entries.len() && entry_changed(#[trigger] entries[j2])
                ==> entries[j2].inner.rect.min_x < entries[j2].inner.rect.max_x
                && entries[j2].inner.rect.min_y < entries[j2].inner.rect.max_y,
    ensures
        dirty_union_prefix(entries, k).min_x < dirty_union_prefix(entries, k).max_x,
        dirty_union_prefix(entries, k).min_y < dirty_union_prefix(entries, k).max_y,
    decreases k,
{
    let r = dirty_union_prefix(entries, k - 1);
    let e = entries[k - 1];
    if j == k - 1 {
        if r.spec_is_empty() {
            assert(dirty_union_prefix(entries, k) == e.inner.rect);
        } else {
            assert(dirty_union_prefix(entries, k) == r.spec_union(e.inner.rect));
        }
    } else {
        lemma_dirty_union_nonempty(entries, k - 1, j);
        if entry_changed(e) {
            assert(!r.spec_is_empty());
            assert(dirty_union_prefix(entries, k) == r.spec_union(e.inner.rect));
        }
    }
}

/// Every element satisfying the predicate leaves the sequence unchanged by
/// the filter.
pub proof fn lemma_filter_all_kept<A>(s: Seq<A>, pred: spec_fn(A) -> bool)
    requires
        forall|i: int| 0 <= i < s.len() ==> pred(#[trigger] s[i]),
    ensures
        s.filter(pred) == s,
    decreases s.len(),
{
    reveal(Seq::filter);
    if s.len() > 0 {
        lemma_filter_all_kept(s.drop_last(), pred);
        assert(pred(s.last()));
        assert(s.filter(pred) =~= s);
    }
}

/// Blend a rectangle of the canvas over the same rectangle of the buffer,
/// reading the canvas `canvas_row_offset` rows below.
pub fn blit_rect(
    canvas: &BufferMutRef,
    buffer: &mut BufferMutRef,
    rect: DirtyRect,
    canvas_row_offset: u32,
)
    requires
        canvas.wf(),
        old(buffer).wf(),
        rect.min_x <= rect.max_x,
        rect.min_y <= rect.max_y,
        rect.max_x <= old(buffer).width,
        rect.max_y <= old(buffer).height,
        rect.max_x <= canvas.width,
        rect.max_y + canvas_row_offset <= canvas.height,
    ensures
        final(buffer).wf(),
        final(buffer).width == old(buffer).width,
        final(buffer).height == old(buffer).height,
        final(buffer).data@.len() == old(buffer).data@.len(),
        forall|x: int, y: int|
            rect.contains(x, y) ==> (#[trigger] final(buffer).px(x, y))@ == blend_px(
                canvas.px(x, y + canvas_row_offset)@,
                old(buffer).px(x, y)@,
            ),
        forall|x: int, y: int|
            0 <= x < old(buffer).width && 0 <= y < old(buffer).height && !rect.contains(x, y)
                ==> (#[trigger] final(buffer).px(x, y)) == old(buffer).px(x, y),
{
    let min_x = rect.min_x;
    let max_x = rect.max_x;
    let mut y = rect.min_y;
    while y < rect.max_y
        invariant
            canvas.wf(),
            buffer.wf(),
            buffer.width == old(buffer).width,
            buffer.height == old(buffer).height,
            buffer.data@.len() == old(buffer).data@.len(),
            min_x == rect.min_x,
            max_x == rect.max_x,
            rect.min_x <= rect.max_x,
            rect.min_y <= y <= rect.max_y,
            rect.max_x <= buffer.width,
            rect.max_y <= buffer.height,
            rect.max_x <= canvas.width,
            rect.max_y + canvas_row_offset <= canvas.height,
            forall|x2: int, y2: int|
                rect.contains(x2, y2) && y2 < y ==> (#[trigger] buffer.px(x2, y2))@ == blend_px(
                    canvas.px(x2, y2 + canvas_row_offset)@,
                    old(buffer).px(x2, y2)@,
                ),
            forall|x2: int, y2: int|
                0 <= x2 < buffer.width && 0 <= y2 < buffer.height && !(rect.contains(x2, y2) && y2
                    < y) ==> (#[trigger] buffer.px(x2, y2)) == old(buffer).px(x2, y2),
        decreases rect.max_y - y,
    {
        let ghost prev = *buffer;
        let src = canvas.get_span(min_x, max_x, y + canvas_row_offset);
        proof {
            let cy = (y + canvas_row_offset) as int;
            canvas.lemma_span_bounds(max_x as int, cy);
            assert(src@ == canvas.data@.subrange(
                canvas.idx(min_x as int, cy),
                canvas.idx(max_x as int, cy),
            ));
            assert(src@.len() == max_x - min_x);
        }
        buffer.blend_span(src.as_slice(), min_x, max_x, y);
        proof {
            assert forall|x2: int, y2: int|
                0 <= x2 < buffer.width && 0 <= y2 < buffer.height && !(y2 == y && min_x <= x2
                    < max_x) implies (#[trigger] buffer.px(x2, y2)) == prev.px(x2, y2) by {
                lemma_row_disjoint(
                    buffer.width as int,
                    y as int,
                    min_x as int,
                    max_x as int,
                    x2,
                    y2,
                );
                prev.lemma_span_bounds(x2 + 1, y2);
            }
            assert forall|x2: int| min_x <= x2 < max_x implies (#[trigger] buffer.px(
                x2,
                y as int,
            ))@ == blend_px(
                canvas.px(x2, y + canvas_row_offset)@,
                old(buffer).px(x2, y as int)@,
            ) by {
                let cy = (y + canvas_row_offset) as int;
                let a = canvas.idx(min_x as int, cy);
                let b = canvas.idx(max_x as int, cy);
                canvas.lemma_span_bounds(max_x as int, cy);
                assert(src@ == canvas.data@.subrange(a, b));
                assert(canvas.data@.subrange(a, b)[x2 - min_x] == canvas.data@[a + (x2 - min_x)]);
                let i = (y as int) * buffer.width + x2;
                assert(buffer.data@[i]@ == blend_px(src@[x2 - min_x]@, prev.data@[i]@));
                assert(src@[x2 - min_x] == canvas.data@[cy * canvas.width + x2]);
                assert(canvas.px(x2, cy) == canvas.data@[cy * canvas.width + x2]);
                assert(prev.px(x2, y as int) == old(buffer).px(x2, y as int));
                assert(buffer.px(x2, y as int) == buffer.data@[i]);
            }
        }
        y = y + 1;
    }
}

/// Blend the canvas over the buffer for every tile whose flag byte has the
/// occupied bit set; tiles without it are untouched.
pub fn blit_to_buffer_from_tiledcanvas(
    dirty_tiles: &Vec<u8>,
    tiles_x: u32,
    tiles_y: u32,
    canvas: &BufferMutRef,
    buffer: &mut BufferMutRef,
)
    requires
        canvas.wf(),
        old(buffer).wf(),
        canvas.width == old(buffer).width,
        canvas.height == old(buffer).height,
        dirty_tiles@.len() == (tiles_x as int) * (tiles_y as int),
        (tiles_x as int) * (tiles_y as int) <= u32::MAX,
        old(buffer).width <= (tiles_x as int) * (TILE_SIZE as int),
        old(buffer).height <= (tiles_y as int) * (TILE_SIZE as int),
        (tiles_x as int) * (TILE_SIZE as int) <= u32::MAX,
        (tiles_y as int) * (TILE_SIZE as int) <= u32::MAX,
    ensures
        final(buffer).wf(),
        final(buffer).width == old(buffer).width,
        final(buffer).height == old(buffer).height,
        final(buffer).data@.len() == old(buffer).data@.len(),
        forall|tx: int, ty: int, x: int, y: int|
            #![trigger tile_covers(tx, ty, x, y)]
            0 <= tx < tiles_x && 0 <= ty < tiles_y && tile_covers(tx, ty, x, y) && 0 <= x < old(
                buffer,
            ).width && 0 <= y < old(buffer).height && tile_flag(
                dirty_tiles@,
                tiles_x as int,
                tx,
                ty,
                OCCUPIED_TILE_MASK,
            ) ==> final(buffer).px(x, y)@ == blend_px(
                canvas.px(x, y)@,
                old(buffer).px(x, y)@,
            ),
        forall|tx: int, ty: int, x: int, y: int|
            #![trigger tile_covers(tx, ty, x, y)]
            0 <= tx < tiles_x && 0 <= ty < tiles_y && tile_covers(tx, ty, x, y) && 0 <= x < old(
                buffer,
            ).width && 0 <= y < old(buffer).height && !tile_flag(
                dirty_tiles@,
                tiles_x as int,
                tx,
                ty,
                OCCUPIED_TILE_MASK,
            ) ==> final(buffer).px(x, y) == old(buffer).px(x, y),
{
    let w = buffer.width;
    let h = buffer.height;
    let mut ty = 0u32;
    while ty < tiles_y
        invariant
            canvas.wf(),
            buffer.wf(),
            buffer.width == old(buffer).width,
            buffer.height == old(buffer).height,
            buffer.data@.len() == old(buffer).data@.len(),
            w == buffer.width,
            h == buffer.height,
            canvas.width == buffer.width,
            canvas.height == buffer.height,
            ty <= tiles_y,
            dirty_tiles@.len() == (tiles_x as int) * (tiles_y as int),
            (tiles_x as int) * (tiles_y as int) <= u32::MAX,
            w <= (tiles_x as int) * (TILE_SIZE as int),
            h <= (tiles_y as int) * (TILE_SIZE as int),
            (tiles_x as int) * (TILE_SIZE as int) <= u32::MAX,
            (tiles_y as int) * (TILE_SIZE as int) <= u32::MAX,
            forall|tx2: int, ty2: int, x: int, y: int|
                #![trigger tile_covers(tx2, ty2, x, y)]
                0 <= tx2 < tiles_x && 0 <= ty2 < ty && tile_covers(tx2, ty2, x, y) && 0 <= x < w
                    && 0 <= y < h && tile_flag(
                    dirty_tiles@,
                    tiles_x as int,
                    tx2,
                    ty2,
                    OCCUPIED_TILE_MASK,
                ) ==> buffer.px(x, y)@ == blend_px(
                    canvas.px(x, y)@,
                    old(buffer).px(x, y)@,
                ),
            forall|tx2: int, ty2: int, x: int, y: int|
                #![trigger tile_covers(tx2, ty2, x, y)]
                0 <= tx2 < tiles_x && 0 <= ty2 < tiles_y && tile_covers(tx2, ty2, x, y) && 0 <= x
                    < w && 0 <= y < h && !(ty2 < ty && tile_flag(
                    dirty_tiles@,
                    tiles_x as int,
                    tx2,
                    ty2,
                    OCCUPIED_TILE_MASK,
                )) ==> buffer.px(x, y) == old(buffer).px(x, y),
        decreases tiles_y - ty,
    {
        proof {
            vstd::arithmetic::mul::lemma_mul_inequality(
                ty as int + 1,
                tiles_y as int,
                TILE_SIZE as int,
            );
            vstd::arithmetic::mul::lemma_mul_nonnegative(ty as int, TILE_SIZE as int);
        }
        let mut tx = 0u32;
        while tx < tiles_x
            invariant
                canvas.wf(),
                buffer.wf(),
                buffer.width == old(buffer).width,
                buffer.height == old(buffer).height,
                buffer.data@.len() == old(buffer).data@.len(),
                w == buffer.width,
                h == buffer.height,
                canvas.width == buffer.width,
                canvas.height == buffer.height,
                ty < tiles_y,
                tx <= tiles_x,
                dirty_tiles@.len() == (tiles_x as int) * (tiles_y as int),
                (tiles_x as int) * (tiles_y as int) <= u32::MAX,
                w <= (tiles_x as int) * (TILE_SIZE as int),
                h <= (tiles_y as int) * (TILE_SIZE as int),
                (tiles_x as int) * (TILE_SIZE as int) <= u32::MAX,
                (tiles_y as int) * (TILE_SIZE as int) <= u32::MAX,
                forall|tx2: int, ty2: int, x: int, y: int|
                    #![trigger tile_covers(tx2, ty2, x, y)]
                    0 <= tx2 < tiles_x && 0 <= ty2 < tiles_y && tile_covers(tx2, ty2, x, y) && 0
                        <= x < w && 0 <= y < h && (ty2 < ty || (ty2 == ty && tx2 < tx))
                        && tile_flag(
                        dirty_tiles@,
                        tiles_x as int,
                        tx2,
                        ty2,
                        OCCUPIED_TILE_MASK,
                    ) ==> buffer.px(x, y)@ == blend_px(
                        canvas.px(x, y)@,
                        old(buffer).px(x, y)@,
                    ),
                forall|tx2: int, ty2: int, x: int, y: int|
                    #![trigger tile_covers(tx2, ty2, x, y)]
                    0 <= tx2 < tiles_x && 0 <= ty2 < tiles_y && tile_covers(tx2, ty2, x, y) && 0
                        <= x < w && 0 <= y < h && !((ty2 < ty || (ty2 == ty && tx2 < tx))
                        && tile_flag(
                        dirty_tiles@,
                        tiles_x as int,
                        tx2,
                        ty2,
                        OCCUPIED_TILE_MASK,
                    )) ==> buffer.px(x, y) == old(buffer).px(x, y),
            decreases tiles_x - tx,
        {
            proof {
                vstd::arithmetic::mul::lemma_mul_inequality(
                    tx as int + 1,
                    tiles_x as int,
                    TILE_SIZE as int,
                );
                vstd::arithmetic::mul::lemma_mul_nonnegative(tx as int, TILE_SIZE as int);
                vstd::arithmetic::mul::lemma_mul_inequality(
                    ty as int + 1,
                    tiles_y as int,
                    tiles_x as int,
                );
                assert((ty as int + 1) * (tiles_x as int) == (ty as int) * (tiles_x as int)
                    + tiles_x) by (nonlinear_arith);
                vstd::arithmetic::mul::lemma_mul_is_commutative(tiles_y as int, tiles_x as int);
                vstd::arithmetic::mul::lemma_mul_nonnegative(ty as int, tiles_x as int);
            }
            let idx = ty * tiles_x + tx;
            let flag = dirty_tiles[as_usize(idx)];
            let occupied = (flag & OCCUPIED_TILE_MASK) != 0;
            let x_start = tx * TILE_SIZE;
            let y_start = ty * TILE_SIZE;
            if occupied && x_start < w && y_start < h {
                let rect = DirtyRect {
                    min_x: x_start,
                    min_y: y_start,
                    max_x: min_u32(x_start + TILE_SIZE, w),
                    max_y: min_u32(y_start + TILE_SIZE, h),
                };
                let ghost prev = *buffer;
                blit_rect(canvas, buffer, rect, 0);
                proof {
                    assert forall|tx2: int, ty2: int, x: int, y: int|
                        0 <= tx2 < tiles_x && 0 <= ty2 < tiles_y && tile_covers(tx2, ty2, x, y)
                            && 0 <= x < w && 0 <= y < h && !(tx2 == tx && ty2 == ty) implies !rect.contains(
                        x,
                        y,
                    ) by {
                        if rect.contains(x, y) {
                            assert(tile_covers(tx as int, ty as int, x, y));
                            crate::lemma_tile_covers_unique(
                                tx2,
                                ty2,
                                tx as int,
                                ty as int,
                                x,
                                y,
                            );
                        }
                    }
                    assert forall|x: int, y: int|
                        tile_covers(tx as int, ty as int, x, y) && 0 <= x < w && 0 <= y
                            < h implies rect.contains(x, y) by {}
                }
            } else {
                proof {
                    if occupied {
                        assert forall|x: int, y: int|
                            tile_covers(tx as int, ty as int, x, y) && 0 <= x < w && 0 <= y
                                < h implies false by {}
                    }
                }
            }
            tx = tx + 1;
        }
        ty = ty + 1;
    }
}

/// When no entry occupies the pixel's tile, the composite there is the
/// transparent pixel: covering entries hold only zeros in that tile.
pub proof fn lemma_composite_zero(
    entries: Seq<TiledCachedPrimitive>,
    k: int,
    tw: int,
    th: int,
    tx: int,
    ty: int,
    x: int,
    y: int,
)
    requires
        forall|j: int| 0 <= j < entries.len() ==> (#[trigger] entries[j]).wf(),
        forall|j: int| 0 <= j < entries.len() ==> occupancy_ok(#[trigger] entries[j], tw, th),
        forall|j: int| 0 <= j < entries.len() ==> !(#[trigger] entries[j]).occupied(tx, ty),
        0 <= tx < tw,
        0 <= ty < th,
        tx <= u16::MAX,
        ty <= u16::MAX,
        tile_covers(tx, ty, x, y),
        k <= entries.len(),
    ensures
        composite_prefix(entries, k, x, y) == zero_px(),
    decreases k,
{
    if k > 0 {
        lemma_composite_zero(entries, k - 1, tw, th, tx, ty, x, y);
        let e = entries[k - 1];
        if e.inner.rect.contains(x, y) {
            lemma_skip_entry(e, tw, th, tx, ty, x, y);
            lemma_blend_zero_px(e.px_at(x, y), zero_px());
        }
    }
}

/// Recomposite every tile whose dirty bit is set, in tile order; tiles
/// without the bit keep their canvas content.
pub fn render_from_tiledcache(
    entries: &Vec<TiledCachedPrimitive>,
    canvas: &mut BufferMutRef,
    dirty_tiles: &Vec<u8>,
    tiles_x: u32,
    tiles_y: u32,
)
    requires
        old(canvas).wf(),
        old(canvas).width + TILE_SIZE <= u32::MAX,
        old(canvas).height + TILE_SIZE <= u32::MAX,
        dirty_tiles@.len() == (tiles_x as int) * (tiles_y as int),
        (tiles_x as int) * (tiles_y as int) <= u32::MAX,
        tiles_x <= u16::MAX,
        tiles_y <= u16::MAX,
        old(canvas).width <= (tiles_x as int) * (TILE_SIZE as int),
        old(canvas).height <= (tiles_y as int) * (TILE_SIZE as int),
        (tiles_x as int) * (TILE_SIZE as int) <= u32::MAX,
        (tiles_y as int) * (TILE_SIZE as int) <= u32::MAX,
        forall|j: int| 0 <= j < entries@.len() ==> (#[trigger] entries@[j]).wf(),
        forall|j: int|
            0 <= j < entries@.len() ==> occupancy_ok(
                #[trigger] entries@[j],
                tiles_x as int,
                tiles_y as int,
            ),
    ensures
        final(canvas).wf(),
        final(canvas).width == old(canvas).width,
        final(canvas).height == old(canvas).height,
        final(canvas).data@.len() == old(canvas).data@.len(),
        forall|tx: int, ty: int, x: int, y: int|
            #![trigger tile_covers(tx, ty, x, y)]
            0 <= tx < tiles_x && 0 <= ty < tiles_y && tile_covers(tx, ty, x, y) && 0 <= x < old(
                canvas,
            ).width && 0 <= y < old(canvas).height && tile_flag(
                dirty_tiles@,
                tiles_x as int,
                tx,
                ty,
                DIRTY_TILE_MASK,
            ) ==> final(canvas).px(x, y)@ == composite(entries@, x, y),
        forall|tx: int, ty: int, x: int, y: int|
            #![trigger tile_covers(tx, ty, x, y)]
            0 <= tx < tiles_x && 0 <= ty < tiles_y && tile_covers(tx, ty, x, y) && 0 <= x < old(
                canvas,
            ).width && 0 <= y < old(canvas).height && !tile_flag(
                dirty_tiles@,
                tiles_x as int,
                tx,
                ty,
                DIRTY_TILE_MASK,
            ) ==> final(canvas).px(x, y) == old(canvas).px(x, y),
{
    let w = canvas.width;
    let h = canvas.height;
    let mut ty = 0u32;
    while ty < tiles_y
        invariant
            canvas.wf(),
            canvas.width == old(canvas).width,
            canvas.height == old(canvas).height,
            canvas.data@.len() == old(canvas).data@.len(),
            w == canvas.width,
            h == canvas.height,
            canvas.width + TILE_SIZE <= u32::MAX,
            canvas.height + TILE_SIZE <= u32::MAX,
            ty <= tiles_y,
            tiles_x <= u16::MAX,
            tiles_y <= u16::MAX,
            dirty_tiles@.len() == (tiles_x as int) * (tiles_y as int),
            (tiles_x as int) * (tiles_y as int) <= u32::MAX,
            w <= (tiles_x as int) * (TILE_SIZE as int),
            h <= (tiles_y as int) * (TILE_SIZE as int),
            (tiles_x as int) * (TILE_SIZE as int) <= u32::MAX,
            (tiles_y as int) * (TILE_SIZE as int) <= u32::MAX,
            forall|j: int| 0 <= j < entries@.len() ==> (#[trigger] entries@[j]).wf(),
            forall|j: int|
                0 <= j < entries@.len() ==> occupancy_ok(
                    #[trigger] entries@[j],
                    tiles_x as int,
                    tiles_y as int,
                ),
            forall|tx2: int, ty2: int, x: int, y: int|
                #![trigger tile_covers(tx2, ty2, x, y)]
                0 <= tx2 < tiles_x && 0 <= ty2 < tiles_y && tile_covers(tx2, ty2, x, y) && 0 <= x
                    < w && 0 <= y < h && ty2 < ty && tile_flag(
                    dirty_tiles@,
                    tiles_x as int,
                    tx2,
                    ty2,
                    DIRTY_TILE_MASK,
                ) ==> canvas.px(x, y)@ == composite(entries@, x, y),
            forall|tx2: int, ty2: int, x: int, y: int|
                #![trigger tile_covers(tx2, ty2, x, y)]
                0 <= tx2 < tiles_x && 0 <= ty2 < tiles_y && tile_covers(tx2, ty2, x, y) && 0 <= x
                    < w && 0 <= y < h && !(ty2 < ty && tile_flag(
                    dirty_tiles@,
                    tiles_x as int,
                    tx2,
                    ty2,
                    DIRTY_TILE_MASK,
                )) ==> canvas.px(x, y) == old(canvas).px(x, y),
        decreases tiles_y - ty,
    {
        proof {
            vstd::arithmetic::mul::lemma_mul_inequality(
                ty as int + 1,
                tiles_y as int,
                TILE_SIZE as int,
            );
            vstd::arithmetic::mul::lemma_mul_nonnegative(ty as int, TILE_SIZE as int);
        }
        let mut tx = 0u32;
        while tx < tiles_x
            invariant
                canvas.wf(),
                canvas.width == old(canvas).width,
                canvas.height == old(canvas).height,
                canvas.data@.len() == old(canvas).data@.len(),
                w == canvas.width,
                h == canvas.height,
                canvas.width + TILE_SIZE <= u32::MAX,
                canvas.height + TILE_SIZE <= u32::MAX,
                ty < tiles_y,
                tx <= tiles_x,
                tiles_x <= u16::MAX,
                tiles_y <= u16::MAX,
                dirty_tiles@.len() == (tiles_x as int) * (tiles_y as int),
                (tiles_x as int) * (tiles_y as int) <= u32::MAX,
                w <= (tiles_x as int) * (TILE_SIZE as int),
                h <= (tiles_y as int) * (TILE_SIZE as int),
                (tiles_x as int) * (TILE_SIZE as int) <= u32::MAX,
                (tiles_y as int) * (TILE_SIZE as int) <= u32::MAX,
                forall|j: int| 0 <= j < entries@.len() ==> (#[trigger] entries@[j]).wf(),
                forall|j: int|
                    0 <= j < entries@.len() ==> occupancy_ok(
                        #[trigger] entries@[j],
                        tiles_x as int,
                        tiles_y as int,
                    ),
                forall|tx2: int, ty2: int, x: int, y: int|
                    #![trigger tile_covers(tx2, ty2, x, y)]
                    0 <= tx2 < tiles_x && 0 <= ty2 < tiles_y && tile_covers(tx2, ty2, x, y) && 0
                        <= x < w && 0 <= y < h && (ty2 < ty || (ty2 == ty && tx2 < tx))
                        && tile_flag(
                        dirty_tiles@,
                        tiles_x as int,
                        tx2,
                        ty2,
                        DIRTY_TILE_MASK,
                    ) ==> canvas.px(x, y)@ == composite(entries@, x, y),
                forall|tx2: int, ty2: int, x: int, y: int|
                    #![trigger tile_covers(tx2, ty2, x, y)]
                    0 <= tx2 < tiles_x && 0 <= ty2 < tiles_y && tile_covers(tx2, ty2, x, y) && 0
                        <= x < w && 0 <= y < h && !((ty2 < ty || (ty2 == ty && tx2 < tx))
                        && tile_flag(
                        dirty_tiles@,
                        tiles_x as int,
                        tx2,
                        ty2,
                        DIRTY_TILE_MASK,
                    )) ==> canvas.px(x, y) == old(canvas).px(x, y),
            decreases tiles_x - tx,
        {
            proof {
                vstd::arithmetic::mul::lemma_mul_inequality(
                    tx as int + 1,
                    tiles_x as int,
                    TILE_SIZE as int,
                );
                vstd::arithmetic::mul::lemma_mul_nonnegative(tx as int, TILE_SIZE as int);
                vstd::arithmetic::mul::lemma_mul_inequality(
                    ty as int + 1,
                    tiles_y as int,
                    tiles_x as int,
                );
                assert((ty as int + 1) * (tiles_x as int) == (ty as int) * (tiles_x as int)
                    + tiles_x) by (nonlinear_arith);
                vstd::arithmetic::mul::lemma_mul_is_commutative(tiles_y as int, tiles_x as int);
                vstd::arithmetic::mul::lemma_mul_nonnegative(ty as int, tiles_x as int);
            }
            let idx = ty * tiles_x + tx;
            let flag = dirty_tiles[as_usize(idx)];
            let dirty = (flag & DIRTY_TILE_MASK) != 0;
            let x_start = tx * TILE_SIZE;
            let y_start = ty * TILE_SIZE;
            if dirty && x_start < w && y_start < h {
                let ghost prev = *canvas;
                update_canvas_tile(canvas, entries, tx, ty, tiles_x, tiles_y);
                proof {
                    assert forall|tx2: int, ty2: int, x: int, y: int|
                        0 <= tx2 < tiles_x && 0 <= ty2 < tiles_y && tile_covers(tx2, ty2, x, y)
                            && 0 <= x < w && 0 <= y < h && !(tx2 == tx && ty2 == ty) implies !tile_covers(
                        tx as int,
                        ty as int,
                        x,
                        y,
                    ) by {
                        if tile_covers(tx as int, ty as int, x, y) {
                            crate::lemma_tile_covers_unique(tx2, ty2, tx as int, ty as int, x, y);
                        }
                    }
                }
            } else {
                proof {
                    if dirty {
                        assert forall|x: int, y: int|
                            tile_covers(tx as int, ty as int, x, y) && 0 <= x < w && 0 <= y
                                < h implies false by {}
                    }
                }
            }
            tx = tx + 1;
        }
        ty = ty + 1;
    }
}

} // verus!
