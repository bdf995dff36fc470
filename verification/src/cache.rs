//! Per-primitive cache entries: screen rect, z-order, per-frame flags, and —
//! for the bitmap-caching mode — the rasterized bitmap with its tile
//! occupancy list.

use vstd::prelude::*;

use crate::buffer::{as_usize, copy_pixels, BufferRef};
use crate::dirty_rect::DirtyRect;
use crate::pixel::px_nonzero;
use crate::{max_u32, min_u32, tile_covers, TILE_SIZE};

verus! {

/// The part of a cache entry refreshed on every hash hit.
#[derive(Debug, Clone, Copy)]
pub struct CacheReuse {
    /// Draw order within the frame: the index of the primitive.
    pub z_order: u32,
    /// Cropped screen rect of the primitive.
    pub rect: DirtyRect,
    /// The entry's hash occurred among this frame's primitives.
    pub seen_this_frame: bool,
    /// The entry was created (and its bitmap rasterized) this frame.
    pub rendered_this_frame: bool,
}

/// A cached primitive for the bitmap-caching mode: the rasterized pixels of
/// the cropped rect, plus the list of tiles in which the bitmap has at least
/// one non-zero pixel.
#[derive(Debug)]
pub struct TiledCachedPrimitive {
    /// Content hash of the primitive; the cache key.
    pub hash: u32,
    pub inner: CacheReuse,
    /// Rasterized pixels, `rect.width() * rect.height()`, row-major.
    pub buffer: Vec<[u8; 4]>,
    /// Tiles (in frame-buffer tile coordinates) occupied by the bitmap.
    pub occupied_tiles: Vec<(u16, u16)>,
}

impl TiledCachedPrimitive {
    /// The rect is non-empty, the bitmap matches its size, and the tile
    /// arithmetic on its corners cannot overflow.
    pub open spec fn wf(self) -> bool {
        &&& self.inner.rect.min_x < self.inner.rect.max_x
        &&& self.inner.rect.min_y < self.inner.rect.max_y
        &&& self.inner.rect.max_x + TILE_SIZE <= u32::MAX
        &&& self.inner.rect.max_y + TILE_SIZE <= u32::MAX
        &&& self.buffer@.len() == self.spec_width() * self.spec_height()
        &&& self.spec_width() * self.spec_height() <= u32::MAX
        &&& self.spec_width() <= 8192
        &&& self.spec_height() <= 8192
    }

    pub open spec fn spec_width(self) -> int {
        self.inner.rect.max_x - self.inner.rect.min_x
    }

    pub open spec fn spec_height(self) -> int {
        self.inner.rect.max_y - self.inner.rect.min_y
    }

    /// Bitmap pixel at local coordinates `(lx, ly)`.
    pub open spec fn local_px(self, lx: int, ly: int) -> [u8; 4] {
        self.buffer@[ly * self.spec_width() + lx]
    }

    /// Bitmap pixel under frame coordinates `(x, y)` (which must lie in the
    /// rect).
    pub open spec fn px_at(self, x: int, y: int) -> [u8; 4] {
        self.local_px(x - self.inner.rect.min_x, y - self.inner.rect.min_y)
    }

    /// Some pixel of the bitmap inside tile `(tx, ty)` is non-zero.
    pub open spec fn tile_has_nonzero(self, tx: int, ty: int) -> bool {
        exists|x: int, y: int|
            tile_covers(tx, ty, x, y) && self.inner.rect.contains(x, y) && px_nonzero(
                #[trigger] self.px_at(x, y),
            )
    }

    /// Membership in the occupancy list.
    pub open spec fn occupied(self, tx: int, ty: int) -> bool {
        self.occupied_tiles@.contains((tx as u16, ty as u16))
    }

    /// A read-only view of the bitmap sized to the rect.
    pub fn get_buffer_ref(&self) -> (r: BufferRef)
        requires
            self.wf(),
        ensures
            r.wf(),
            r.data@ == self.buffer@,
            r.width == self.spec_width(),
            r.height == self.spec_height(),
    {
        let width = self.inner.rect.width();
        let height = self.inner.rect.height();
        BufferRef {
            data: copy_pixels(&self.buffer),
            width,
            height,
            width_extent: width - 1,
            height_extent: height - 1,
        }
    }

    /// Whether tile `(tx, ty)` is in the occupancy list.
    pub fn contains_tile(&self, tx: u32, ty: u32) -> (r: bool)
        requires
            tx <= u16::MAX,
            ty <= u16::MAX,
        ensures
            r == self.occupied(tx as int, ty as int),
    {
        let n = self.occupied_tiles.len();
        let mut i: usize = 0;
        while i < n
            invariant
                n == self.occupied_tiles@.len(),
                i <= n,
                forall|j: int| 0 <= j < i ==> self.occupied_tiles@[j] != ((tx as u16, ty as u16)),
            decreases n - i,
        {
            let t = self.occupied_tiles[i];
            if t.0 == tx as u16 && t.1 == ty as u16 {
                proof {
                    assert(self.occupied_tiles@[i as int] == ((tx as u16, ty as u16)));
                }
                return true;
            }
            i = i + 1;
        }
        proof {
            if self.occupied_tiles@.contains((tx as u16, ty as u16)) {
                let j = choose|j: int|
                    0 <= j < self.occupied_tiles@.len() && self.occupied_tiles@[j] == ((
                    tx as u16,
                    ty as u16,
                ));
            }
        }
        false
    }

    /// Whether some pixel of the bitmap in the local box
    /// `[sx, ex) x [sy, ey)` is non-zero.
    fn slab_has_nonzero(&self, sx: u32, ex: u32, sy: u32, ey: u32) -> (r: bool)
        requires
            self.wf(),
            sx <= ex <= self.spec_width(),
            sy <= ey <= self.spec_height(),
        ensures
            r == exists|lx: int, ly: int|
                sx <= lx < ex && sy <= ly < ey && px_nonzero(#[trigger] self.local_px(lx, ly)),
    {
        let width = self.inner.rect.width();
        let mut y = sy;
        while y < ey
            invariant
                self.wf(),
                width == self.spec_width(),
                sx <= ex <= self.spec_width(),
                sy <= y <= ey <= self.spec_height(),
                forall|lx: int, ly: int|
                    sx <= lx < ex && sy <= ly < y ==> !px_nonzero(#[trigger] self.local_px(lx, ly)),
            decreases ey - y,
        {
            let mut x = sx;
            while x < ex
                invariant
                    self.wf(),
                    width == self.spec_width(),
                    sx <= x <= ex <= self.spec_width(),
                    sy <= y < ey <= self.spec_height(),
                    forall|lx: int| sx <= lx < x ==> !px_nonzero(#[trigger] self.local_px(lx, y as int)),
                decreases ex - x,
            {
                proof {
                    vstd::arithmetic::mul::lemma_mul_inequality(
                        y + 1,
                        self.spec_height(),
                        self.spec_width(),
                    );
                    assert((y + 1) * self.spec_width() == y * self.spec_width()
                        + self.spec_width()) by (nonlinear_arith);
                    vstd::arithmetic::mul::lemma_mul_is_commutative(
                        self.spec_height(),
                        self.spec_width(),
                    );
                    vstd::arithmetic::mul::lemma_mul_nonnegative(y as int, self.spec_width());
                }
                let offset = as_usize(x + y * width);
                let p = self.buffer[offset];
                if p[0] != 0 || p[1] != 0 || p[2] != 0 || p[3] != 0 {
                    proof {
                        assert(px_nonzero(self.local_px(x as int, y as int)));
                    }
                    return true;
                }
                proof {
                    assert(!px_nonzero(self.local_px(x as int, y as int)));
                }
                x = x + 1;
            }
            y = y + 1;
        }
        false
    }

    /// Rebuild the occupancy list: a tile of the `tiles_wide * tiles_tall`
    /// grid is listed exactly when the bitmap has a non-zero pixel inside it.
    pub fn update_occupied_tiles(&mut self, tiles_wide: u32, tiles_tall: u32)
        requires
            old(self).wf(),
            tiles_wide <= u16::MAX,
            tiles_tall <= u16::MAX,
        ensures
            final(self).hash == old(self).hash,
            final(self).inner == old(self).inner,
            final(self).buffer == old(self).buffer,
            final(self).wf(),
            final(self).occupied_tiles@.no_duplicates(),
            forall|k1: int, k2: int|
                #![trigger final(self).occupied_tiles@[k1], final(self).occupied_tiles@[k2]]
                0 <= k1 < k2 < final(self).occupied_tiles@.len()
                    ==> final(self).occupied_tiles@[k1].1 < final(self).occupied_tiles@[k2].1 || (
                final(self).occupied_tiles@[k1].1 == final(self).occupied_tiles@[k2].1 && final(self).occupied_tiles@[k1].0 < final(self).occupied_tiles@[k2].0),
            forall|tx: u16, ty: u16|
                #[trigger] final(self).occupied(tx as int, ty as int) <==> tx < tiles_wide && ty
                    < tiles_tall && final(self).tile_has_nonzero(tx as int, ty as int),
    {
        let min_x = self.inner.rect.min_x;
        let min_y = self.inner.rect.min_y;
        let max_x = self.inner.rect.max_x;
        let max_y = self.inner.rect.max_y;
        let first_tile_x = min_u32(min_x / TILE_SIZE, tiles_wide);
        let first_tile_y = min_u32(min_y / TILE_SIZE, tiles_tall);
        let last_tile_x = min_u32((max_x + (TILE_SIZE - 1)) / TILE_SIZE, tiles_wide);
        let last_tile_y = min_u32((max_y + (TILE_SIZE - 1)) / TILE_SIZE, tiles_tall);

        let mut tiles: Vec<(u16, u16)> = Vec::new();

        proof {
            self.lemma_candidate_range(
                tiles_wide as int,
                tiles_tall as int,
                first_tile_x as int,
                first_tile_y as int,
                last_tile_x as int,
                last_tile_y as int,
            );
            assert((last_tile_x as int) * (TILE_SIZE as int) <= u32::MAX) by (nonlinear_arith)
                requires
                    TILE_SIZE == 64,
                    last_tile_x <= (max_x + TILE_SIZE - 1) / (TILE_SIZE as int),
                    max_x + TILE_SIZE <= u32::MAX,
                    0 <= max_x,
            ;
            assert((last_tile_y as int) * (TILE_SIZE as int) <= u32::MAX) by (nonlinear_arith)
                requires
                    TILE_SIZE == 64,
                    last_tile_y <= (max_y + TILE_SIZE - 1) / (TILE_SIZE as int),
                    max_y + TILE_SIZE <= u32::MAX,
                    0 <= max_y,
            ;
        }

        let mut tile_y = first_tile_y;
        while tile_y < last_tile_y
            invariant
                self.wf(),
                *self == *old(self),
                tiles_wide <= u16::MAX,
                tiles_tall <= u16::MAX,
                min_x == self.inner.rect.min_x,
                min_y == self.inner.rect.min_y,
                max_x == self.inner.rect.max_x,
                max_y == self.inner.rect.max_y,
                first_tile_y <= tile_y <= last_tile_y,
                first_tile_x <= last_tile_x <= tiles_wide,
                last_tile_y <= tiles_tall,
                (last_tile_x as int) * (TILE_SIZE as int) <= u32::MAX,
                (last_tile_y as int) * (TILE_SIZE as int) <= u32::MAX,
                forall|tx: int, ty: int|
                    0 <= tx < tiles_wide && 0 <= ty < tiles_tall && #[trigger] self.tile_has_nonzero(
                        tx,
                        ty,
                    ) ==> first_tile_x <= tx < last_tile_x && first_tile_y <= ty < last_tile_y,
                tiles@.no_duplicates(),
                forall|k1: int, k2: int|
                    #![trigger tiles@[k1], tiles@[k2]]
                    0 <= k1 < k2 < tiles@.len() ==> tiles@[k1].1 < tiles@[k2].1 || (tiles@[k1].1
                        == tiles@[k2].1 && tiles@[k1].0 < tiles@[k2].0),
                forall|j: int|
                    0 <= j < tiles@.len() ==> first_tile_x <= (#[trigger] tiles@[j]).0 < last_tile_x
                        && first_tile_y <= tiles@[j].1 < tile_y && self.tile_has_nonzero(
                        tiles@[j].0 as int,
                        tiles@[j].1 as int,
                    ),
                forall|tx: u16, ty: u16|
                    #![trigger self.tile_has_nonzero(tx as int, ty as int)]
                    first_tile_x <= tx < last_tile_x && first_tile_y <= ty < tile_y
                        && self.tile_has_nonzero(tx as int, ty as int) ==> tiles@.contains((tx, ty)),
            decreases last_tile_y - tile_y,
        {
            proof {
                vstd::arithmetic::mul::lemma_mul_inequality(
                    tile_y as int + 1,
                    last_tile_y as int,
                    TILE_SIZE as int,
                );
                vstd::arithmetic::mul::lemma_mul_nonnegative(tile_y as int, TILE_SIZE as int);
            }
            let py0 = max_u32(tile_y * TILE_SIZE, min_y);
            let py1 = min_u32((tile_y + 1) * TILE_SIZE, max_y);
            let mut tile_x = first_tile_x;
            while tile_x < last_tile_x
                invariant
                    self.wf(),
                    *self == *old(self),
                    tiles_wide <= u16::MAX,
                    tiles_tall <= u16::MAX,
                    min_x == self.inner.rect.min_x,
                    min_y == self.inner.rect.min_y,
                    max_x == self.inner.rect.max_x,
                    max_y == self.inner.rect.max_y,
                    first_tile_y <= tile_y < last_tile_y <= tiles_tall,
                    first_tile_x <= tile_x <= last_tile_x <= tiles_wide,
                    (last_tile_x as int) * (TILE_SIZE as int) <= u32::MAX,
                    py0 == if (tile_y as int) * (TILE_SIZE as int) >= min_y {
                        (tile_y as int) * (TILE_SIZE as int)
                    } else {
                        min_y as int
                    },
                    py1 == if (tile_y as int + 1) * (TILE_SIZE as int) <= max_y {
                        (tile_y as int + 1) * (TILE_SIZE as int)
                    } else {
                        max_y as int
                    },
                    tiles@.no_duplicates(),
                    forall|k1: int, k2: int|
                        #![trigger tiles@[k1], tiles@[k2]]
                        0 <= k1 < k2 < tiles@.len() ==> tiles@[k1].1 < tiles@[k2].1 || (
                        tiles@[k1].1 == tiles@[k2].1 && tiles@[k1].0 < tiles@[k2].0),
                    forall|j: int|
                        0 <= j < tiles@.len() ==> first_tile_x <= (#[trigger] tiles@[j]).0
                            < last_tile_x && first_tile_y <= tiles@[j].1 <= tile_y && (tiles@[j].1
                            < tile_y || tiles@[j].0 < tile_x) && self.tile_has_nonzero(
                            tiles@[j].0 as int,
                            tiles@[j].1 as int,
                        ),
                    forall|tx: u16, ty: u16|
                        #![trigger self.tile_has_nonzero(tx as int, ty as int)]
                        first_tile_x <= tx < last_tile_x && first_tile_y <= ty && (ty < tile_y || (
                        ty == tile_y && tx < tile_x)) && self.tile_has_nonzero(tx as int, ty as int)
                            ==> tiles@.contains((tx, ty)),
                decreases last_tile_x - tile_x,
            {
                proof {
                    vstd::arithmetic::mul::lemma_mul_inequality(
                        tile_x as int + 1,
                        last_tile_x as int,
                        TILE_SIZE as int,
                    );
                    vstd::arithmetic::mul::lemma_mul_nonnegative(tile_x as int, TILE_SIZE as int);
                }
                let px0 = max_u32(tile_x * TILE_SIZE, min_x);
                let px1 = min_u32((tile_x + 1) * TILE_SIZE, max_x);
                let hit = if px0 < px1 && py0 < py1 {
                    let sx = px0 - min_x;
                    let ex = px1 - min_x;
                    let sy = py0 - min_y;
                    let ey = py1 - min_y;
                    self.slab_has_nonzero(sx, ex, sy, ey)
                } else {
                    false
                };
                proof {
                    self.lemma_slab_tile_match(
                        tile_x as int,
                        tile_y as int,
                        px0 as int,
                        px1 as int,
                        py0 as int,
                        py1 as int,
                    );
                    assert(hit == self.tile_has_nonzero(tile_x as int, tile_y as int));
                }
                if hit {
                    let ghost before = tiles@;
                    let ghost e = ((tile_x as u16, tile_y as u16));
                    tiles.push((tile_x as u16, tile_y as u16));
                    proof {
                        assert(e.0 as int == tile_x as int && e.1 as int == tile_y as int);
                        assert(self.tile_has_nonzero(e.0 as int, e.1 as int));
                        assert(tiles@[before.len() as int] == e);
                        assert forall|t: (u16, u16)| before.contains(t) implies tiles@.contains(
                            t,
                        ) by {
                            let j = choose|j: int| 0 <= j < before.len() && before[j] == t;
                            assert(tiles@[j] == t);
                        }
                        assert forall|i: int, j: int|
                            0 <= i < tiles@.len() && 0 <= j < tiles@.len() && i != j implies tiles@[i]
                            != tiles@[j] by {
                            if i < before.len() && j < before.len() {
                                assert(before[i] == tiles@[i] && before[j] == tiles@[j]);
                            } else if j == before.len() as int && i < j {
                                assert(before[i] == tiles@[i]);
                                assert(before[i].0 < tile_x || before[i].1 < tile_y);
                            } else if i == before.len() as int && j < i {
                                assert(before[j] == tiles@[j]);
                                assert(before[j].0 < tile_x || before[j].1 < tile_y);
                            }
                        }
                        assert(tiles@.no_duplicates());
                        assert forall|tx: u16, ty: u16|
                            first_tile_x <= tx < last_tile_x && first_tile_y <= ty && (ty < tile_y
                                || (ty == tile_y && tx < tile_x + 1)) && self.tile_has_nonzero(
                                tx as int,
                                ty as int,
                            ) implies tiles@.contains((tx, ty)) by {
                            if ty == tile_y && tx as int == tile_x as int {
                                assert((tx, ty) == e);
                                assert(tiles@.contains((tx, ty)));
                            } else {
                                assert(before.contains((tx, ty)));
                            }
                        }
                    }
                } else {
                    proof {
                        assert forall|tx: u16, ty: u16|
                            first_tile_x <= tx < last_tile_x && first_tile_y <= ty && (ty < tile_y
                                || (ty == tile_y && tx < tile_x + 1)) && self.tile_has_nonzero(
                                tx as int,
                                ty as int,
                            ) implies tiles@.contains((tx, ty)) by {
                            if ty == tile_y && tx as int == tile_x as int {
                                assert(self.tile_has_nonzero(tx as int, ty as int)
                                    == self.tile_has_nonzero(tile_x as int, tile_y as int));
                                assert(false);
                            } else {
                                assert(tiles@.contains((tx, ty)));
                            }
                        }
                    }
                }
                tile_x = tile_x + 1;
            }
            tile_y = tile_y + 1;
        }
        let ghost tl = tiles@;
        self.occupied_tiles = tiles;
        proof {
            assert forall|tx: u16, ty: u16| #[trigger] self.occupied(
                tx as int,
                ty as int,
            ) implies tx < tiles_wide && ty < tiles_tall && self.tile_has_nonzero(
                tx as int,
                ty as int,
            ) by {
                Self::lemma_nonzero_frame(*old(self), *self, tx as int, ty as int);
                assert(((tx as int) as u16) == tx && ((ty as int) as u16) == ty);
                assert(tl.contains((tx, ty)));
                let j = choose|j: int| 0 <= j < tl.len() && tl[j] == ((tx, ty));
                assert(tl[j].0 == tx && tl[j].1 == ty);
                assert(old(self).tile_has_nonzero(tl[j].0 as int, tl[j].1 as int));
            }
            assert forall|tx: u16, ty: u16|
                tx < tiles_wide && ty < tiles_tall && self.tile_has_nonzero(
                    tx as int,
                    ty as int,
                ) implies #[trigger] self.occupied(tx as int, ty as int) by {
                Self::lemma_nonzero_frame(*old(self), *self, tx as int, ty as int);
                assert(old(self).tile_has_nonzero(tx as int, ty as int));
                assert(tl.contains((tx, ty)));
                assert(((tx as int) as u16) == tx && ((ty as int) as u16) == ty);
            }
        }
    }

    /// Tile occupancy depends only on the bitmap and the rect, not on the
    /// occupancy list itself.
    pub proof fn lemma_nonzero_frame(a: Self, b: Self, tx: int, ty: int)
        requires
            a.buffer == b.buffer,
            a.inner.rect == b.inner.rect,
        ensures
            a.tile_has_nonzero(tx, ty) == b.tile_has_nonzero(tx, ty),
    {
        if a.tile_has_nonzero(tx, ty) {
            let (x, y) = choose|x: int, y: int|
                tile_covers(tx, ty, x, y) && a.inner.rect.contains(x, y) && px_nonzero(
                    #[trigger] a.px_at(x, y),
                );
            assert(b.px_at(x, y) == a.px_at(x, y));
            assert(b.tile_has_nonzero(tx, ty));
        }
        if b.tile_has_nonzero(tx, ty) {
            let (x, y) = choose|x: int, y: int|
                tile_covers(tx, ty, x, y) && b.inner.rect.contains(x, y) && px_nonzero(
                    #[trigger] b.px_at(x, y),
                );
            assert(a.px_at(x, y) == b.px_at(x, y));
            assert(a.tile_has_nonzero(tx, ty));
        }
    }

    /// Any tile of the grid holding a non-zero pixel of the rect lies in the
    /// candidate range that the occupancy walk visits.
    proof fn lemma_candidate_range(
        self,
        tiles_wide: int,
        tiles_tall: int,
        ftx: int,
        fty: int,
        ltx: int,
        lty: int,
    )
        requires
            self.wf(),
            ftx <= (self.inner.rect.min_x as int) / (TILE_SIZE as int),
            fty <= (self.inner.rect.min_y as int) / (TILE_SIZE as int),
            ltx == if (self.inner.rect.max_x + TILE_SIZE - 1) / (TILE_SIZE as int) <= tiles_wide {
                (self.inner.rect.max_x + TILE_SIZE - 1) / (TILE_SIZE as int)
            } else {
                tiles_wide
            },
            lty == if (self.inner.rect.max_y + TILE_SIZE - 1) / (TILE_SIZE as int) <= tiles_tall {
                (self.inner.rect.max_y + TILE_SIZE - 1) / (TILE_SIZE as int)
            } else {
                tiles_tall
            },
        ensures
            forall|tx: int, ty: int|
                0 <= tx < tiles_wide && 0 <= ty < tiles_tall && #[trigger] self.tile_has_nonzero(
                    tx,
                    ty,
                ) ==> ftx <= tx < ltx && fty <= ty < lty,
    {
        let mnx = self.inner.rect.min_x as int;
        let mny = self.inner.rect.min_y as int;
        let mxx = self.inner.rect.max_x as int;
        let mxy = self.inner.rect.max_y as int;
        let t = TILE_SIZE as int;
        assert forall|tx: int, ty: int|
            0 <= tx < tiles_wide && 0 <= ty < tiles_tall && #[trigger] self.tile_has_nonzero(tx, ty)
                implies ftx <= tx < ltx && fty <= ty < lty by {
            let (x, y) = choose|x: int, y: int|
                tile_covers(tx, ty, x, y) && self.inner.rect.contains(x, y) && px_nonzero(
                    #[trigger] self.px_at(x, y),
                );
            assert(mnx < (tx + 1) * t && tx * t < mxx && mny < (ty + 1) * t && ty * t < mxy);
            assert(mnx / t <= tx) by (nonlinear_arith)
                requires
                    mnx < (tx + 1) * t,
                    t == 64,
                    0 <= tx,
                    0 <= mnx,
            ;
            assert(mny / t <= ty) by (nonlinear_arith)
                requires
                    mny < (ty + 1) * t,
                    t == 64,
                    0 <= ty,
                    0 <= mny,
            ;
            assert(tx < (mxx + t - 1) / t) by (nonlinear_arith)
                requires
                    tx * t < mxx,
                    t == 64,
                    0 <= tx,
                    0 <= mxx,
            ;
            assert(ty < (mxy + t - 1) / t) by (nonlinear_arith)
                requires
                    ty * t < mxy,
                    t == 64,
                    0 <= ty,
                    0 <= mxy,
            ;
        }
    }

    /// The local slab scanned for tile `(tx, ty)` holds a non-zero pixel
    /// exactly when the tile holds a non-zero pixel of the rect.
    proof fn lemma_slab_tile_match(self, tx: int, ty: int, px0: int, px1: int, py0: int, py1: int)
        requires
            self.wf(),
            0 <= tx,
            0 <= ty,
            px0 == if tx * TILE_SIZE >= self.inner.rect.min_x {
                tx * TILE_SIZE
            } else {
                self.inner.rect.min_x as int
            },
            px1 == if (tx + 1) * TILE_SIZE <= self.inner.rect.max_x {
                (tx + 1) * TILE_SIZE
            } else {
                self.inner.rect.max_x as int
            },
            py0 == if ty * TILE_SIZE >= self.inner.rect.min_y {
                ty * TILE_SIZE
            } else {
                self.inner.rect.min_y as int
            },
            py1 == if (ty + 1) * TILE_SIZE <= self.inner.rect.max_y {
                (ty + 1) * TILE_SIZE
            } else {
                self.inner.rect.max_y as int
            },
        ensures
            self.tile_has_nonzero(tx, ty) <==> (px0 < px1 && py0 < py1 && exists|lx: int, ly: int|
                px0 - self.inner.rect.min_x <= lx < px1 - self.inner.rect.min_x && py0
                    - self.inner.rect.min_y <= ly < py1 - self.inner.rect.min_y && px_nonzero(
                    #[trigger] self.local_px(lx, ly),
                )),
    {
        let minx = self.inner.rect.min_x as int;
        let miny = self.inner.rect.min_y as int;
        if self.tile_has_nonzero(tx, ty) {
            let (x, y) = choose|x: int, y: int|
                tile_covers(tx, ty, x, y) && self.inner.rect.contains(x, y) && px_nonzero(
                    #[trigger] self.px_at(x, y),
                );
            assert(px0 <= x < px1 && py0 <= y < py1);
            assert(px_nonzero(self.local_px(x - minx, y - miny)));
        }
        if px0 < px1 && py0 < py1 && exists|lx: int, ly: int|
            px0 - minx <= lx < px1 - minx && py0 - miny <= ly < py1 - miny && px_nonzero(
                #[trigger] self.local_px(lx, ly),
            ) {
            let (lx, ly) = choose|lx: int, ly: int|
                px0 - minx <= lx < px1 - minx && py0 - miny <= ly < py1 - miny && px_nonzero(
                    #[trigger] self.local_px(lx, ly),
                );
            let x = lx + minx;
            let y = ly + miny;
            assert(tile_covers(tx, ty, x, y));
            assert(self.inner.rect.contains(x, y));
            assert(px_nonzero(self.px_at(x, y)));
            assert(self.tile_has_nonzero(tx, ty));
        }
    }
}

} // verus!
