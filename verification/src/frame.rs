//! The renderer object and its per-frame protocol.
//!
//! Mesh preparation and rasterization work on `f32` screen coordinates and
//! happen outside this crate; a frame reaches the renderer as a list of
//! [`PrimitiveInput`] records — content hash, cropped integer rect, and the
//! rasterized bitmap used when the hash misses the cache. The renderer keeps
//! the per-primitive bitmap cache, decides which tiles changed, recomposites
//! only those, and reports the smallest rectangle containing the change.

use vstd::prelude::*;

use crate::buffer::{copy_pixels, BufferMutRef};
use crate::cache::{CacheReuse, TiledCachedPrimitive};
use crate::dirty_rect::{ComputeTiledDirtyRects, DirtyRect};
use crate::render::{
    composite, entry_changed, evict_unseen, occupancy_ok, render_from_tiledcache,
    tile_dirty_by_some, tile_flag, tiles_in_grid, update_dirty_rect, update_dirty_tiles, zero_px,
    DIRTY_TILE_MASK,
};
use crate::TILE_SIZE;

verus! {

/// Byte order of the four color channels in every buffer and bitmap.
#[derive(Debug, Clone, Copy, PartialEq, Eq, Structural)]
pub enum ColorFieldOrder {
    Rgba,
    Bgra,
}

/// Caching mode of the renderer.
#[derive(Debug, Clone, Copy, PartialEq, Eq, Structural)]
pub enum SoftwareRenderCaching {
    /// Cache per-primitive bitmaps, recomposite dirty tiles of a canvas.
    BlendTiled,
    /// Cache prepared meshes, redraw a non-overlapping set of changed tiled
    /// bounding boxes.
    MeshTiled,
    /// Cache prepared meshes, redraw the union of changed bounding boxes.
    Mesh,
    /// No cache; redraw the whole frame.
    Direct,
}

/// One prepared primitive of a frame, in draw order.
#[derive(Debug)]
pub struct PrimitiveInput {
    /// Content hash of the primitive (see [`crate::hash::hash_primitive`]).
    pub hash: u32,
    /// Cropped screen rect.
    pub rect: DirtyRect,
    /// Rasterized pixels of the rect, row-major; consulted only when the
    /// hash misses the cache.
    pub bitmap: Vec<[u8; 4]>,
    /// Caller-side key of the prepared mesh; only the mesh-caching modes
    /// read it.
    pub mesh_id: u32,
}

/// Oversized or degenerate primitives are dropped rather than cached.
pub open spec fn skip_dims(width: int, height: int) -> bool {
    width == 0 || height == 0 || width > 8192 || height > 8192
}

pub open spec fn prim_skipped(p: PrimitiveInput) -> bool {
    skip_dims(p.rect.max_x - p.rect.min_x, p.rect.max_y - p.rect.min_y)
}

/// A usable primitive record: the rect is ordered, and — unless the
/// primitive is dropped by the size guard — the bitmap matches the rect and
/// the rect leaves room for the tile arithmetic.
pub open spec fn prim_wf(p: PrimitiveInput) -> bool {
    &&& p.rect.wf()
    &&& !prim_skipped(p) ==> {
        &&& p.bitmap@.len() == (p.rect.max_x - p.rect.min_x) * (p.rect.max_y - p.rect.min_y)
        &&& p.rect.max_x + TILE_SIZE <= u32::MAX
        &&& p.rect.max_y + TILE_SIZE <= u32::MAX
    }
}

/// Whether a primitive of the given cropped size is dropped (degenerate or
/// past the size guard).
pub fn should_skip(width: u32, height: u32) -> (r: bool)
    ensures
        r == skip_dims(width as int, height as int),
{
    width == 0 || height == 0 || width > 8192 || height > 8192
}

/// Some primitive of the frame carries this hash.
pub open spec fn hash_in_prims(prims: Seq<PrimitiveInput>, h: u32) -> bool {
    exists|i: int| 0 <= i < prims.len() && (#[trigger] prims[i]).hash == h
}

/// Some cache entry carries this hash.
pub open spec fn hash_in_entries(entries: Seq<TiledCachedPrimitive>, h: u32) -> bool {
    exists|j: int| 0 <= j < entries.len() && (#[trigger] entries[j]).hash == h
}

/// A cached primitive for the mesh-caching modes: the prepared mesh itself
/// lives outside the crate and is referred to by `mesh_id`.
#[derive(Debug, Clone, Copy)]
pub struct MeshCachedPrimitive {
    /// Content hash of the primitive; the cache key.
    pub hash: u32,
    pub inner: CacheReuse,
    /// Caller-side key of the prepared mesh to re-rasterize.
    pub mesh_id: u32,
}

/// The software renderer: caches, tile state, and options.
#[derive(Debug)]
pub struct EguiSoftwareRender {
    /// Bitmap cache of the `BlendTiled` mode, in draw order.
    pub tiledcached_primitives: Vec<TiledCachedPrimitive>,
    /// Mesh cache of the `Mesh` and `MeshTiled` modes.
    pub dirtycached_primitives: Vec<MeshCachedPrimitive>,
    /// Buffer size of the last cached frame, `(0, 0)` before the first.
    pub cached_size: (u32, u32),
    /// Tile grid size `[columns, rows]` for `cached_size`.
    pub tiles_dim: [u32; 2],
    /// Per-tile flag bytes of the last frame.
    pub dirty_tiles: Vec<u8>,
    /// Non-overlapping dirty decomposition of the `MeshTiled` mode.
    pub dirty_rects: ComputeTiledDirtyRects,
    pub output_field_order: ColorFieldOrder,
    pub convert_tris_to_rects: bool,
    pub allow_raster_opt: bool,
    pub caching: SoftwareRenderCaching,
}

impl EguiSoftwareRender {
    /// Cache entries are well formed, keyed by distinct hashes, and their
    /// occupancy lists agree with their bitmaps on the current tile grid.
    pub open spec fn wf(self) -> bool {
        &&& forall|j: int|
            0 <= j < self.tiledcached_primitives@.len() ==> (
            #[trigger] self.tiledcached_primitives@[j]).wf()
        &&& forall|j1: int, j2: int|
            0 <= j1 < j2 < self.tiledcached_primitives@.len()
                ==> self.tiledcached_primitives@[j1].hash != self.tiledcached_primitives@[j2].hash
        &&& forall|j: int|
            0 <= j < self.tiledcached_primitives@.len() ==> occupancy_ok(
                #[trigger] self.tiledcached_primitives@[j],
                self.tiles_dim[0] as int,
                self.tiles_dim[1] as int,
            )
        &&& self.tiles_dim[0] <= u16::MAX
        &&& self.tiles_dim[1] <= u16::MAX
        &&& (self.tiles_dim[0] as int) * (self.tiles_dim[1] as int) <= u32::MAX
        &&& (self.tiles_dim[0] as int) * (TILE_SIZE as int) <= u32::MAX
        &&& (self.tiles_dim[1] as int) * (TILE_SIZE as int) <= u32::MAX
    }

    /// The tile grid spans the cached buffer size; the bitmap-caching mode
    /// maintains this between frames of one size.
    pub open spec fn grid_covers(self) -> bool {
        &&& self.cached_size.0 <= (self.tiles_dim[0] as int) * (TILE_SIZE as int)
        &&& self.cached_size.1 <= (self.tiles_dim[1] as int) * (TILE_SIZE as int)
    }

    /// A fresh renderer for the given output channel order, with bitmap
    /// caching, rectangle conversion and raster shortcuts enabled.
    pub fn new(output_field_order: ColorFieldOrder) -> (r: Self)
        ensures
            r.wf(),
            r.grid_covers(),
            r.tiledcached_primitives@.len() == 0,
            r.dirtycached_primitives@.len() == 0,
            r.cached_size == (0u32, 0u32),
            r.output_field_order == output_field_order,
            r.convert_tris_to_rects == true,
            r.allow_raster_opt == true,
            r.caching == SoftwareRenderCaching::BlendTiled,
    {
        EguiSoftwareRender {
            tiledcached_primitives: Vec::new(),
            dirtycached_primitives: Vec::new(),
            cached_size: (0, 0),
            tiles_dim: [0, 0],
            dirty_tiles: Vec::new(),
            dirty_rects: ComputeTiledDirtyRects::new(),
            output_field_order,
            convert_tris_to_rects: true,
            allow_raster_opt: true,
            caching: SoftwareRenderCaching::BlendTiled,
        }
    }

    /// Toggle conversion of suitable triangle pairs into rectangles.
    pub fn with_convert_tris_to_rects(self, set: bool) -> (r: Self)
        ensures
            r == (Self { convert_tris_to_rects: set, ..self }),
    {
        Self { convert_tris_to_rects: set, ..self }
    }

    /// Toggle the specialized raster fast paths.
    pub fn with_allow_raster_opt(self, set: bool) -> (r: Self)
        ensures
            r == (Self { allow_raster_opt: set, ..self }),
    {
        Self { allow_raster_opt: set, ..self }
    }

    /// Select the caching mode at construction.
    pub fn with_caching(self, set: SoftwareRenderCaching) -> (r: Self)
        ensures
            r == (Self { caching: set, ..self }),
    {
        Self { caching: set, ..self }
    }

    /// The caching mode of the renderer.
    pub fn caching(&self) -> (r: SoftwareRenderCaching)
        ensures
            r == self.caching,
    {
        self.caching
    }

    /// Change the caching mode; a change clears the cache.
    pub fn set_caching(&mut self, caching: SoftwareRenderCaching)
        requires
            old(self).wf(),
        ensures
            final(self).wf(),
            final(self).caching == caching,
            old(self).caching != caching ==> final(self).tiledcached_primitives@.len() == 0
                && final(self).dirtycached_primitives@.len() == 0 && final(self).dirty_tiles@.len()
                == 0 && final(self).dirty_rects.minimal_non_overlapping_bboxes@.len() == 0
                && final(self).dirty_rects.bboxes@.len() == 0,
            old(self).caching == caching ==> *final(self) == *old(self),
    {
        if self.caching == caching {
            return ;
        }
        self.caching = caching;
        self.clear_cache();
    }

    /// Drop cached entries and tile state; the next frame redraws everything.
    pub fn clear_cache(&mut self)
        requires
            old(self).wf(),
        ensures
            final(self).wf(),
            final(self).tiledcached_primitives@.len() == 0,
            final(self).dirtycached_primitives@.len() == 0,
            final(self).dirty_tiles@.len() == 0,
            final(self).dirty_rects.minimal_non_overlapping_bboxes@.len() == 0,
            final(self).dirty_rects.bboxes@.len() == 0,
            final(self).caching == old(self).caching,
            final(self).cached_size == old(self).cached_size,
            final(self).tiles_dim == old(self).tiles_dim,
    {
        self.tiledcached_primitives = Vec::new();
        self.dirtycached_primitives = Vec::new();
        self.dirty_tiles = Vec::new();
        self.dirty_rects = ComputeTiledDirtyRects::new();
    }

    /// The buffer size of the last rendered frame, or `(0, 0)`.
    pub fn cached_size(&self) -> (r: (u32, u32))
        ensures
            r == self.cached_size,
    {
        self.cached_size
    }
}

/// Index of the cache entry carrying `hash`, if any.
pub fn find_entry(entries: &Vec<TiledCachedPrimitive>, hash: u32) -> (r: Option<usize>)
    ensures
        match r {
            Some(j) => j < entries@.len() && entries@[j as int].hash == hash,
            None => !hash_in_entries(entries@, hash),
        },
{
    let n = entries.len();
    let mut j: usize = 0;
    while j < n
        invariant
            n == entries@.len(),
            j <= n,
            forall|j2: int| 0 <= j2 < j ==> (#[trigger] entries@[j2]).hash != hash,
        decreases n - j,
    {
        if entries[j].hash == hash {
            return Some(j);
        }
        j = j + 1;
    }
    None
}

/// The entry as it stands at the start of a frame: the same record with the
/// seen flag lowered.
pub open spec fn marked_unseen(a: TiledCachedPrimitive, b: TiledCachedPrimitive) -> bool {
    &&& b.hash == a.hash
    &&& b.inner.z_order == a.inner.z_order
    &&& b.inner.rect == a.inner.rect
    &&& b.inner.seen_this_frame == false
    &&& b.inner.rendered_this_frame == a.inner.rendered_this_frame
    &&& b.buffer == a.buffer
    &&& b.occupied_tiles == a.occupied_tiles
}

/// Lower the seen flag of every cache entry.
pub fn mark_all_unseen(entries: &mut Vec<TiledCachedPrimitive>)
    ensures
        final(entries)@.len() == old(entries)@.len(),
        forall|j: int|
            0 <= j < old(entries)@.len() ==> marked_unseen(
                old(entries)@[j],
                #[trigger] final(entries)@[j],
            ),
{
    let n = entries.len();
    let mut j: usize = 0;
    while j < n
        invariant
            n == old(entries)@.len(),
            entries@.len() == n,
            j <= n,
            forall|j2: int|
                0 <= j2 < j ==> marked_unseen(old(entries)@[j2], #[trigger] entries@[j2]),
            forall|j2: int| j <= j2 < n ==> entries@[j2] == old(entries)@[j2],
        decreases n - j,
    {
        let mut e = entries.remove(j);
        e.inner.seen_this_frame = false;
        entries.insert(j, e);
        proof {
            assert forall|j2: int| 0 <= j2 < j + 1 implies marked_unseen(
                old(entries)@[j2],
                #[trigger] entries@[j2],
            ) by {}
        }
        j = j + 1;
    }
}

/// Refresh the hit entry at `idx`: new z-order and flags, and the new rect —
/// unless, on a hash collision, the new rect does not have the entry's
/// bitmap size, in which case the cached rect stays. The entry moves to the
/// end of the cache.
fn refresh_entry(
    entries: &mut Vec<TiledCachedPrimitive>,
    idx: usize,
    z: u32,
    rect: DirtyRect,
    tiles_x: u32,
    tiles_y: u32,
)
    requires
        idx < old(entries)@.len(),
        old(entries)@[idx as int].wf(),
        rect.wf(),
        !skip_dims(rect.max_x - rect.min_x, rect.max_y - rect.min_y) ==> rect.max_x + TILE_SIZE
            <= u32::MAX && rect.max_y + TILE_SIZE <= u32::MAX,
        tiles_x <= u16::MAX,
        tiles_y <= u16::MAX,
    ensures
        final(entries)@.len() == old(entries)@.len(),
        forall|j: int| 0 <= j < idx ==> final(entries)@[j] == old(entries)@[j],
        forall|j: int|
            idx <= j < old(entries)@.len() - 1 ==> final(entries)@[j] == old(entries)@[j + 1],
        ({
            let e2 = final(entries)@[old(entries)@.len() - 1];
            let e1 = old(entries)@[idx as int];
            &&& e2.hash == e1.hash
            &&& e2.buffer == e1.buffer
            &&& e2.inner.z_order == z
            &&& e2.inner.seen_this_frame == true
            &&& e2.inner.rendered_this_frame == false
            &&& e2.inner.rect == if rect.max_x - rect.min_x == e1.inner.rect.max_x
                - e1.inner.rect.min_x && rect.max_y - rect.min_y == e1.inner.rect.max_y
                - e1.inner.rect.min_y {
                rect
            } else {
                e1.inner.rect
            }
            &&& e2.wf()
            &&& occupancy_ok(e2, tiles_x as int, tiles_y as int) || (e2.inner.rect
                == e1.inner.rect && e2.occupied_tiles == e1.occupied_tiles)
        }),
{
    let mut e = entries.remove(idx);
    e.inner.z_order = z;
    e.inner.seen_this_frame = true;
    e.inner.rendered_this_frame = false;
    let er = e.inner.rect;
    let same_dims = rect.max_x - rect.min_x == er.max_x - er.min_x && rect.max_y - rect.min_y
        == er.max_y - er.min_y;
    if same_dims {
        proof {
            assert(!skip_dims(rect.max_x - rect.min_x, rect.max_y - rect.min_y));
        }
        if !(rect == er) {
            e.inner.rect = rect;
            e.update_occupied_tiles(tiles_x, tiles_y);
        }
    }
    entries.push(e);
}

/// Insert a freshly rasterized entry at the end of the cache and compute its
/// tile occupancy.
fn insert_entry(
    entries: &mut Vec<TiledCachedPrimitive>,
    hash: u32,
    rect: DirtyRect,
    bitmap: &Vec<[u8; 4]>,
    z: u32,
    tiles_x: u32,
    tiles_y: u32,
)
    requires
        rect.min_x < rect.max_x,
        rect.min_y < rect.max_y,
        rect.max_x - rect.min_x <= 8192,
        rect.max_y - rect.min_y <= 8192,
        rect.max_x + TILE_SIZE <= u32::MAX,
        rect.max_y + TILE_SIZE <= u32::MAX,
        bitmap@.len() == (rect.max_x - rect.min_x) * (rect.max_y - rect.min_y),
        (rect.max_x - rect.min_x) * (rect.max_y - rect.min_y) <= u32::MAX,
        tiles_x <= u16::MAX,
        tiles_y <= u16::MAX,
    ensures
        final(entries)@.len() == old(entries)@.len() + 1,
        forall|j: int| 0 <= j < old(entries)@.len() ==> final(entries)@[j] == old(entries)@[j],
        ({
            let e2 = final(entries)@[old(entries)@.len() as int];
            &&& e2.hash == hash
            &&& e2.inner.rect == rect
            &&& e2.buffer@ == bitmap@
            &&& e2.inner.z_order == z
            &&& e2.inner.seen_this_frame == true
            &&& e2.inner.rendered_this_frame == true
            &&& e2.wf()
            &&& occupancy_ok(e2, tiles_x as int, tiles_y as int)
        }),
{
    let mut e = TiledCachedPrimitive {
        hash,
        inner: CacheReuse {
            z_order: z,
            rect,
            seen_this_frame: true,
            rendered_this_frame: true,
        },
        buffer: copy_pixels(bitmap),
        occupied_tiles: Vec::new(),
    };
    e.update_occupied_tiles(tiles_x, tiles_y);
    entries.push(e);
}

/// A frame against an empty cache whose primitives all carry distinct hashes
/// and pass the size guard: every primitive then inserts one entry.
pub open spec fn fresh_frame(old_entries: Seq<TiledCachedPrimitive>, prims: Seq<PrimitiveInput>) -> bool {
    &&& old_entries.len() == 0
    &&& forall|i1: int, i2: int|
        #![trigger prims[i1], prims[i2]]
        0 <= i1 < i2 < prims.len() ==> prims[i1].hash != prims[i2].hash
    &&& forall|i: int| 0 <= i < prims.len() ==> !prim_skipped(#[trigger] prims[i])
}

/// The refreshed-or-inserted record for primitive `i`: its hash and z-order,
/// and its rect — unless a colliding hash arrived with a rect of another
/// size, in which case the cached rect stays with the cached bitmap.
pub open spec fn tiled_entry_from_prim(
    e: TiledCachedPrimitive,
    prims: Seq<PrimitiveInput>,
    i: int,
) -> bool {
    &&& prims[i].hash == e.hash
    &&& e.inner.z_order == i
    &&& (e.inner.rect == prims[i].rect || !(prims[i].rect.max_x - prims[i].rect.min_x
        == e.inner.rect.max_x - e.inner.rect.min_x && prims[i].rect.max_y - prims[i].rect.min_y
        == e.inner.rect.max_y - e.inner.rect.min_y))
}

/// Every entry seen this frame was refreshed or inserted by some primitive.
pub open spec fn tiled_entries_from_prims(
    entries: Seq<TiledCachedPrimitive>,
    prims: Seq<PrimitiveInput>,
) -> bool {
    forall|j: int|
        0 <= j < entries.len() && (#[trigger] entries[j]).inner.seen_this_frame ==> exists|i: int|
            0 <= i < prims.len() && tiled_entry_from_prim(entries[j], prims, i)
}

/// `b` is the rect of an entry that changed this frame: a kept entry that
/// was re-rendered, or an old entry whose hash vanished from the primitives.
pub open spec fn changed_rect_of_frame(
    kept: Seq<TiledCachedPrimitive>,
    old_entries: Seq<TiledCachedPrimitive>,
    prims: Seq<PrimitiveInput>,
    b: DirtyRect,
) -> bool {
    ||| exists|j: int|
        0 <= j < kept.len() && (#[trigger] kept[j]).inner.rendered_this_frame && kept[j].inner.rect
            == b
    ||| exists|j: int|
        0 <= j < old_entries.len() && !hash_in_prims(prims, (#[trigger] old_entries[j]).hash)
            && old_entries[j].inner.rect == b
}

/// The cache entry produced by inserting primitive `k` of a fresh frame.
pub open spec fn entry_matches_prim(e: TiledCachedPrimitive, p: PrimitiveInput, k: int) -> bool {
    &&& e.hash == p.hash
    &&& e.inner.rect == p.rect
    &&& e.buffer@ == p.bitmap@
    &&& e.inner.z_order == k
    &&& e.inner.seen_this_frame == true
    &&& e.inner.rendered_this_frame == true
}

proof fn lemma_hash_prefix_step(prims: Seq<PrimitiveInput>, i: int, h: u32)
    requires
        0 <= i < prims.len(),
    ensures
        hash_in_prims(prims.subrange(0, i + 1), h) <==> (hash_in_prims(prims.subrange(0, i), h)
            || prims[i].hash == h),
{
    let a = prims.subrange(0, i);
    let b = prims.subrange(0, i + 1);
    if hash_in_prims(b, h) {
        let k = choose|k: int| 0 <= k < b.len() && (#[trigger] b[k]).hash == h;
        if k < i {
            assert(a[k] == b[k]);
        } else {
            assert(b[i] == prims[i]);
        }
    }
    if hash_in_prims(a, h) {
        let k = choose|k: int| 0 <= k < a.len() && (#[trigger] a[k]).hash == h;
        assert(b[k] == a[k]);
    }
    if prims[i].hash == h {
        assert(b[i] == prims[i]);
    }
}

/// Walk the frame's primitives in draw order: a hash hit refreshes the cache
/// entry and moves it to the end, a miss inserts a freshly rasterized entry,
/// and degenerate or oversized primitives are dropped.
#[verifier::rlimit(100)]
#[verifier::spinoff_prover]
pub fn process_prims(
    entries: &mut Vec<TiledCachedPrimitive>,
    prims: &Vec<PrimitiveInput>,
    tiles_x: u32,
    tiles_y: u32,
)
    requires
        forall|j: int| 0 <= j < old(entries)@.len() ==> (#[trigger] old(entries)@[j]).wf(),
        forall|j1: int, j2: int|
            0 <= j1 < j2 < old(entries)@.len() ==> old(entries)@[j1].hash != old(entries)@[j2].hash,
        forall|j: int|
            0 <= j < old(entries)@.len() ==> occupancy_ok(
                #[trigger] old(entries)@[j],
                tiles_x as int,
                tiles_y as int,
            ),
        forall|j: int|
            0 <= j < old(entries)@.len() ==> !(#[trigger] old(entries)@[j]).inner.seen_this_frame,
        tiles_x <= u16::MAX,
        tiles_y <= u16::MAX,
        forall|i: int| 0 <= i < prims@.len() ==> prim_wf(#[trigger] prims@[i]),
        prims@.len() <= u32::MAX,
    ensures
        forall|j: int| 0 <= j < final(entries)@.len() ==> (#[trigger] final(entries)@[j]).wf(),
        forall|j1: int, j2: int|
            0 <= j1 < j2 < final(entries)@.len() ==> final(entries)@[j1].hash != final(entries)@[j2].hash,
        forall|j: int|
            0 <= j < final(entries)@.len() ==> occupancy_ok(
                #[trigger] final(entries)@[j],
                tiles_x as int,
                tiles_y as int,
            ),
        forall|j: int|
            0 <= j < final(entries)@.len() ==> ((#[trigger] final(entries)@[j]).inner.seen_this_frame <==> hash_in_prims(prims@, final(entries)@[j].hash)),
        forall|j: int|
            0 <= j < final(entries)@.len() && (#[trigger] final(entries)@[j]).inner.rendered_this_frame
                && final(entries)@[j].inner.seen_this_frame ==> !hash_in_entries(
                old(entries)@,
                final(entries)@[j].hash,
            ),
        forall|j: int|
            0 <= j < old(entries)@.len() ==> hash_in_entries(
                final(entries)@,
                (#[trigger] old(entries)@[j]).hash,
            ),
        forall|j: int|
            0 <= j < final(entries)@.len() ==> hash_in_entries(
                old(entries)@,
                (#[trigger] final(entries)@[j]).hash,
            ) || hash_in_prims(prims@, final(entries)@[j].hash),
        fresh_frame(old(entries)@, prims@) ==> final(entries)@.len() == prims@.len()
            && (forall|k: int|
            0 <= k < prims@.len() ==> entry_matches_prim(
                #[trigger] final(entries)@[k],
                prims@[k],
                k,
            )),
        tiled_entries_from_prims(final(entries)@, prims@),
        forall|j: int|
            0 <= j < old(entries)@.len() && !hash_in_prims(
                prims@,
                (#[trigger] old(entries)@[j]).hash,
            ) ==> exists|j2: int|
                0 <= j2 < final(entries)@.len() && final(entries)@[j2] == old(entries)@[j],
        forall|i: int|
            0 <= i < prims@.len() && !prim_skipped(#[trigger] prims@[i]) ==> hash_in_entries(
                final(entries)@,
                prims@[i].hash,
            ),
        forall|j: int|
            0 <= j < final(entries)@.len() && (#[trigger] final(entries)@[j]).inner.seen_this_frame
                && !hash_in_entries(old(entries)@, final(entries)@[j].hash) ==> final(entries)@[j].inner.rendered_this_frame,
        forall|j: int|
            0 <= j < final(entries)@.len() && (#[trigger] final(entries)@[j]).inner.seen_this_frame
                && final(entries)@[j].inner.rendered_this_frame ==> exists|i: int|
                0 <= i < prims@.len() && (#[trigger] prims@[i]).hash == final(entries)@[j].hash
                    && !prim_skipped(prims@[i]),
{
    let n = prims.len();
    let mut i: usize = 0;
    while i < n
        invariant
            n == prims@.len(),
            i <= n,
            tiles_x <= u16::MAX,
            tiles_y <= u16::MAX,
            prims@.len() <= u32::MAX,
            forall|k: int| 0 <= k < prims@.len() ==> prim_wf(#[trigger] prims@[k]),
            forall|j1: int, j2: int|
                0 <= j1 < j2 < old(entries)@.len() ==> old(entries)@[j1].hash != old(entries)@[j2].hash,
            forall|j: int| 0 <= j < entries@.len() ==> (#[trigger] entries@[j]).wf(),
            forall|j1: int, j2: int|
                0 <= j1 < j2 < entries@.len() ==> entries@[j1].hash != entries@[j2].hash,
            forall|j: int|
                0 <= j < entries@.len() ==> occupancy_ok(
                    #[trigger] entries@[j],
                    tiles_x as int,
                    tiles_y as int,
                ),
            forall|j: int|
                0 <= j < entries@.len() ==> ((#[trigger] entries@[j]).inner.seen_this_frame
                    <==> hash_in_prims(prims@.subrange(0, i as int), entries@[j].hash)),
            forall|j: int|
                0 <= j < entries@.len() && (#[trigger] entries@[j]).inner.rendered_this_frame
                    && entries@[j].inner.seen_this_frame ==> !hash_in_entries(
                    old(entries)@,
                    entries@[j].hash,
                ),
            forall|j: int|
                0 <= j < old(entries)@.len() ==> hash_in_entries(
                    entries@,
                    (#[trigger] old(entries)@[j]).hash,
                ),
            forall|j: int|
                0 <= j < entries@.len() ==> hash_in_entries(
                    old(entries)@,
                    (#[trigger] entries@[j]).hash,
                ) || hash_in_prims(prims@.subrange(0, i as int), entries@[j].hash),
            fresh_frame(old(entries)@, prims@) ==> entries@.len() == i && (forall|k: int|
                0 <= k < i ==> entry_matches_prim(#[trigger] entries@[k], prims@[k], k)),
            forall|j: int|
                0 <= j < entries@.len() && (#[trigger] entries@[j]).inner.seen_this_frame
                    ==> exists|i2: int|
                    0 <= i2 < i && tiled_entry_from_prim(entries@[j], prims@, i2),
            forall|j: int|
                0 <= j < old(entries)@.len() && !hash_in_prims(
                    prims@.subrange(0, i as int),
                    (#[trigger] old(entries)@[j]).hash,
                ) ==> exists|j2: int|
                    0 <= j2 < entries@.len() && entries@[j2] == old(entries)@[j],
            forall|i2: int|
                0 <= i2 < i && !prim_skipped(#[trigger] prims@[i2]) ==> hash_in_entries(
                    entries@,
                    prims@[i2].hash,
                ),
            forall|j: int|
                0 <= j < entries@.len() && (#[trigger] entries@[j]).inner.seen_this_frame
                    && !hash_in_entries(old(entries)@, entries@[j].hash)
                    ==> entries@[j].inner.rendered_this_frame,
            forall|j: int|
                0 <= j < entries@.len() && (#[trigger] entries@[j]).inner.seen_this_frame
                    && entries@[j].inner.rendered_this_frame ==> exists|i2: int|
                    0 <= i2 < i && (#[trigger] prims@[i2]).hash == entries@[j].hash
                        && !prim_skipped(prims@[i2]),
        decreases n - i,
    {
        let h = prims[i].hash;
        let pr = prims[i].rect;
        let ghost pre = entries@;
        let ghost prefix = prims@.subrange(0, i as int);
        let ghost prefix1 = prims@.subrange(0, i + 1);
        let hit = find_entry(entries, h);
        proof {
            assert forall|g: u32| true implies (hash_in_prims(prefix1, g) <==> (hash_in_prims(
                prefix,
                g,
            ) || prims@[i as int].hash == g)) by {
                lemma_hash_prefix_step(prims@, i as int, g);
            }
        }
        match hit {
            Some(idx) => {
                proof {
                    if fresh_frame(old(entries)@, prims@) {
                        assert(hash_in_prims(prefix, pre[idx as int].hash));
                        let k = choose|k: int|
                            0 <= k < prefix.len() && (#[trigger] prefix[k]).hash == pre[
                            idx as int].hash;
                        assert(prims@[k].hash == prims@[i as int].hash);
                        assert(false);
                    }
                }
                let renew = entries[idx].inner.seen_this_frame
                    && entries[idx].inner.rendered_this_frame;
                if renew {
                    // the hash first appeared earlier this same frame: the
                    // cache walk decides against the pre-frame cache, so this
                    // occurrence replaces the entry as a fresh insert
                    let w = pr.max_x - pr.min_x;
                    let hh = pr.max_y - pr.min_y;
                    if !should_skip(w, hh) {
                        proof {
                            vstd::arithmetic::mul::lemma_mul_inequality(w as int, 8192, hh as int);
                            vstd::arithmetic::mul::lemma_mul_inequality(hh as int, 8192, 8192);
                            vstd::arithmetic::mul::lemma_mul_is_commutative(w as int, hh as int);
                            vstd::arithmetic::mul::lemma_mul_is_commutative(8192, hh as int);
                        }
                        let _replaced = entries.remove(idx);
                        insert_entry(entries, h, pr, &prims[i].bitmap, i as u32, tiles_x, tiles_y);
                    proof {
                        let m = pre.len();
                        let e2 = entries@[m - 1];
                        assert forall|j: int| 0 <= j < entries@.len() implies (#[trigger] entries@[j]).wf()
                            && occupancy_ok(entries@[j], tiles_x as int, tiles_y as int) by {
                            if j < idx {
                                assert(entries@[j] == pre[j]);
                            } else if j < m - 1 {
                                assert(entries@[j] == pre[j + 1]);
                            } else {
                                assert(e2.wf() && occupancy_ok(e2, tiles_x as int, tiles_y as int));
                            }
                        }
                        assert forall|j1: int, j2: int|
                            0 <= j1 < j2 < entries@.len() implies entries@[j1].hash
                            != entries@[j2].hash by {
                            let a1 = if j1 < idx {
                                j1
                            } else {
                                j1 + 1
                            };
                            let a2 = if j2 < idx {
                                j2
                            } else {
                                j2 + 1
                            };
                            if j2 < m - 1 {
                                assert(entries@[j1] == pre[a1] && entries@[j2] == pre[a2]);
                            } else {
                                assert(entries@[j1] == pre[a1]);
                                assert(entries@[j2].hash == pre[idx as int].hash);
                            }
                        }
                        assert forall|j: int| 0 <= j < entries@.len() implies ((#[trigger] entries@[j]).inner.seen_this_frame
                            <==> hash_in_prims(prefix1, entries@[j].hash)) by {
                            if j < idx {
                                assert(entries@[j] == pre[j]);
                            } else if j < m - 1 {
                                assert(entries@[j] == pre[j + 1]);
                            } else {
                                assert(entries@[j].hash == h);
                            }
                        }
                        assert forall|j: int|
                            0 <= j < entries@.len() && (#[trigger] entries@[j]).inner.rendered_this_frame
                                && entries@[j].inner.seen_this_frame implies !hash_in_entries(
                            old(entries)@,
                            entries@[j].hash,
                        ) by {
                            if j < idx {
                                assert(entries@[j] == pre[j]);
                            } else if j < m - 1 {
                                assert(entries@[j] == pre[j + 1]);
                            } else {
                                assert(pre[idx as int].inner.seen_this_frame
                                    && pre[idx as int].inner.rendered_this_frame);
                                assert(!hash_in_entries(old(entries)@, pre[idx as int].hash));
                            }
                        }
                        assert forall|j: int| 0 <= j < old(entries)@.len() implies hash_in_entries(
                            entries@,
                            (#[trigger] old(entries)@[j]).hash,
                        ) by {
                            assert(hash_in_entries(pre, old(entries)@[j].hash));
                            let j2 = choose|j2: int|
                                0 <= j2 < pre.len() && (#[trigger] pre[j2]).hash == old(entries)@[j].hash;
                            if j2 < idx {
                                assert(entries@[j2] == pre[j2]);
                            } else if j2 == idx {
                                assert(entries@[m - 1].hash == pre[idx as int].hash);
                            } else {
                                assert(entries@[j2 - 1] == pre[j2]);
                            }
                        }
                        assert forall|j: int| 0 <= j < entries@.len() implies hash_in_entries(
                            old(entries)@,
                            (#[trigger] entries@[j]).hash,
                        ) || hash_in_prims(prefix1, entries@[j].hash) by {
                            if j < idx {
                                assert(entries@[j] == pre[j]);
                            } else if j < m - 1 {
                                assert(entries@[j] == pre[j + 1]);
                            } else {
                                assert(entries@[j].hash == pre[idx as int].hash);
                            }
                        }
                        assert forall|j: int|
                            0 <= j < entries@.len() && (#[trigger] entries@[j]).inner.seen_this_frame implies exists|
                            i2: int,
                        | 0 <= i2 < i + 1 && tiled_entry_from_prim(entries@[j], prims@, i2) by {
                            if j == m - 1 {
                                assert(tiled_entry_from_prim(entries@[j], prims@, i as int));
                            } else {
                                let a = if j < idx {
                                    j
                                } else {
                                    j + 1
                                };
                                assert(entries@[j] == pre[a]);
                                if pre[a].inner.seen_this_frame {
                                    let i2 = choose|i2: int|
                                        0 <= i2 < i && tiled_entry_from_prim(pre[a], prims@, i2);
                                    assert(tiled_entry_from_prim(entries@[j], prims@, i2));
                                }
                            }
                        }
                        assert forall|j0: int|
                            0 <= j0 < old(entries)@.len() && !hash_in_prims(
                                prefix1,
                                (#[trigger] old(entries)@[j0]).hash,
                            ) implies exists|j2: int|
                            0 <= j2 < entries@.len() && entries@[j2] == old(entries)@[j0] by {
                            assert(!hash_in_prims(prefix, old(entries)@[j0].hash));
                            let j2 = choose|j2: int|
                                0 <= j2 < pre.len() && #[trigger] pre[j2] == old(entries)@[j0];
                            if j2 < idx {
                                assert(entries@[j2] == pre[j2]);
                            } else if j2 == idx {
                                assert(hash_in_prims(prefix1, old(entries)@[j0].hash));
                            } else {
                                assert(entries@[j2 - 1] == pre[j2]);
                            }
                        }
                        assert forall|i2: int|
                            0 <= i2 < i + 1 && !prim_skipped(#[trigger] prims@[i2]) implies hash_in_entries(
                            entries@,
                            prims@[i2].hash,
                        ) by {
                            if i2 == i {
                                assert(entries@[m - 1].hash == h);
                            } else {
                                assert(hash_in_entries(pre, prims@[i2].hash));
                                let j2 = choose|j2: int|
                                    0 <= j2 < pre.len() && (#[trigger] pre[j2]).hash
                                        == prims@[i2].hash;
                                if j2 < idx {
                                    assert(entries@[j2] == pre[j2]);
                                } else if j2 == idx {
                                    assert(entries@[m - 1].hash == pre[idx as int].hash);
                                } else {
                                    assert(entries@[j2 - 1] == pre[j2]);
                                }
                            }
                        }
                        assert forall|j: int|
                            0 <= j < entries@.len() && (#[trigger] entries@[j]).inner.seen_this_frame
                                && !hash_in_entries(old(entries)@, entries@[j].hash) implies entries@[j].inner.rendered_this_frame by {
                            if j < idx {
                                assert(entries@[j] == pre[j]);
                            } else if j < m - 1 {
                                assert(entries@[j] == pre[j + 1]);
                            } else {
                                assert(entries@[j].inner.rendered_this_frame);
                            }
                        }
                    }
                    } else {
                        proof {
                            assert forall|j: int|
                                0 <= j < entries@.len() && !(#[trigger] entries@[j]).inner.seen_this_frame implies !hash_in_prims(
                                prefix1,
                                entries@[j].hash,
                            ) by {
                                if entries@[j].hash == h {
                                    assert(entries@[j] == entries@[idx as int]);
                                }
                            }
                            assert forall|i2: int|
                                0 <= i2 < i + 1 && !prim_skipped(
                                    #[trigger] prims@[i2],
                                ) implies hash_in_entries(entries@, prims@[i2].hash) by {
                                if i2 == i {
                                    assert(entries@[idx as int].hash == h);
                                }
                            }
                        }
                    }
                } else {
                    refresh_entry(entries, idx, i as u32, pr, tiles_x, tiles_y);
                    proof {
                        let m = pre.len();
                        let e2 = entries@[m - 1];
                        assert forall|j: int| 0 <= j < entries@.len() implies (#[trigger] entries@[j]).wf()
                            && occupancy_ok(entries@[j], tiles_x as int, tiles_y as int) by {
                            if j < idx {
                                assert(entries@[j] == pre[j]);
                            } else if j < m - 1 {
                                assert(entries@[j] == pre[j + 1]);
                            } else {
                                if !(occupancy_ok(e2, tiles_x as int, tiles_y as int)) {
                                    assert(e2.inner.rect == pre[idx as int].inner.rect
                                        && e2.occupied_tiles == pre[idx as int].occupied_tiles);
                                    crate::render::lemma_occupancy_frame(
                                        pre[idx as int],
                                        e2,
                                        tiles_x as int,
                                        tiles_y as int,
                                    );
                                }
                            }
                        }
                        assert forall|j1: int, j2: int|
                            0 <= j1 < j2 < entries@.len() implies entries@[j1].hash
                            != entries@[j2].hash by {
                            let a1 = if j1 < idx {
                                j1
                            } else {
                                j1 + 1
                            };
                            let a2 = if j2 < idx {
                                j2
                            } else {
                                j2 + 1
                            };
                            if j2 < m - 1 {
                                assert(entries@[j1] == pre[a1] && entries@[j2] == pre[a2]);
                            } else {
                                assert(entries@[j1] == pre[a1]);
                                assert(entries@[j2].hash == pre[idx as int].hash);
                            }
                        }
                        assert forall|j: int| 0 <= j < entries@.len() implies ((#[trigger] entries@[j]).inner.seen_this_frame
                            <==> hash_in_prims(prefix1, entries@[j].hash)) by {
                            if j < idx {
                                assert(entries@[j] == pre[j]);
                            } else if j < m - 1 {
                                assert(entries@[j] == pre[j + 1]);
                            } else {
                                assert(entries@[j].hash == h);
                            }
                        }
                        assert forall|j: int|
                            0 <= j < entries@.len() && (#[trigger] entries@[j]).inner.rendered_this_frame
                                && entries@[j].inner.seen_this_frame implies !hash_in_entries(
                            old(entries)@,
                            entries@[j].hash,
                        ) by {
                            if j < idx {
                                assert(entries@[j] == pre[j]);
                            } else if j < m - 1 {
                                assert(entries@[j] == pre[j + 1]);
                            }
                        }
                        assert forall|j: int| 0 <= j < old(entries)@.len() implies hash_in_entries(
                            entries@,
                            (#[trigger] old(entries)@[j]).hash,
                        ) by {
                            assert(hash_in_entries(pre, old(entries)@[j].hash));
                            let j2 = choose|j2: int|
                                0 <= j2 < pre.len() && (#[trigger] pre[j2]).hash == old(entries)@[j].hash;
                            if j2 < idx {
                                assert(entries@[j2] == pre[j2]);
                            } else if j2 == idx {
                                assert(entries@[m - 1].hash == pre[idx as int].hash);
                            } else {
                                assert(entries@[j2 - 1] == pre[j2]);
                            }
                        }
                        assert forall|j: int| 0 <= j < entries@.len() implies hash_in_entries(
                            old(entries)@,
                            (#[trigger] entries@[j]).hash,
                        ) || hash_in_prims(prefix1, entries@[j].hash) by {
                            if j < idx {
                                assert(entries@[j] == pre[j]);
                            } else if j < m - 1 {
                                assert(entries@[j] == pre[j + 1]);
                            } else {
                                assert(entries@[j].hash == pre[idx as int].hash);
                            }
                        }
                        assert forall|j: int|
                            0 <= j < entries@.len() && (#[trigger] entries@[j]).inner.seen_this_frame implies exists|
                            i2: int,
                        | 0 <= i2 < i + 1 && tiled_entry_from_prim(entries@[j], prims@, i2) by {
                            if j == m - 1 {
                                assert(tiled_entry_from_prim(entries@[j], prims@, i as int));
                            } else {
                                let a = if j < idx {
                                    j
                                } else {
                                    j + 1
                                };
                                assert(entries@[j] == pre[a]);
                                if pre[a].inner.seen_this_frame {
                                    let i2 = choose|i2: int|
                                        0 <= i2 < i && tiled_entry_from_prim(pre[a], prims@, i2);
                                    assert(tiled_entry_from_prim(entries@[j], prims@, i2));
                                }
                            }
                        }
                        assert forall|j0: int|
                            0 <= j0 < old(entries)@.len() && !hash_in_prims(
                                prefix1,
                                (#[trigger] old(entries)@[j0]).hash,
                            ) implies exists|j2: int|
                            0 <= j2 < entries@.len() && entries@[j2] == old(entries)@[j0] by {
                            assert(!hash_in_prims(prefix, old(entries)@[j0].hash));
                            let j2 = choose|j2: int|
                                0 <= j2 < pre.len() && #[trigger] pre[j2] == old(entries)@[j0];
                            if j2 < idx {
                                assert(entries@[j2] == pre[j2]);
                            } else if j2 == idx {
                                assert(hash_in_prims(prefix1, old(entries)@[j0].hash));
                            } else {
                                assert(entries@[j2 - 1] == pre[j2]);
                            }
                        }
                        assert forall|i2: int|
                            0 <= i2 < i + 1 && !prim_skipped(#[trigger] prims@[i2]) implies hash_in_entries(
                            entries@,
                            prims@[i2].hash,
                        ) by {
                            if i2 == i {
                                assert(entries@[m - 1].hash == h);
                            } else {
                                assert(hash_in_entries(pre, prims@[i2].hash));
                                let j2 = choose|j2: int|
                                    0 <= j2 < pre.len() && (#[trigger] pre[j2]).hash
                                        == prims@[i2].hash;
                                if j2 < idx {
                                    assert(entries@[j2] == pre[j2]);
                                } else if j2 == idx {
                                    assert(entries@[m - 1].hash == pre[idx as int].hash);
                                } else {
                                    assert(entries@[j2 - 1] == pre[j2]);
                                }
                            }
                        }
                        assert forall|j: int|
                            0 <= j < entries@.len() && (#[trigger] entries@[j]).inner.seen_this_frame
                                && !hash_in_entries(old(entries)@, entries@[j].hash) implies entries@[j].inner.rendered_this_frame by {
                            if j < idx {
                                assert(entries@[j] == pre[j]);
                            } else if j < m - 1 {
                                assert(entries@[j] == pre[j + 1]);
                            } else {
                                if !pre[idx as int].inner.seen_this_frame {
                                    assert(!hash_in_prims(prefix, pre[idx as int].hash));
                                    assert(hash_in_entries(old(entries)@, pre[idx as int].hash));
                                } else {
                                    assert(hash_in_entries(old(entries)@, pre[idx as int].hash));
                                }
                                assert(hash_in_entries(old(entries)@, entries@[j].hash));
                            }
                        }
                    }
                }
            },
            None => {
                let w = pr.max_x - pr.min_x;
                let hh = pr.max_y - pr.min_y;
                if !should_skip(w, hh) {
                    proof {
                        vstd::arithmetic::mul::lemma_mul_inequality(w as int, 8192, hh as int);
                        vstd::arithmetic::mul::lemma_mul_inequality(hh as int, 8192, 8192);
                        vstd::arithmetic::mul::lemma_mul_is_commutative(w as int, hh as int);
                        vstd::arithmetic::mul::lemma_mul_is_commutative(8192, hh as int);
                    }
                    insert_entry(entries, h, pr, &prims[i].bitmap, i as u32, tiles_x, tiles_y);
                    proof {
                        let m = pre.len();
                        assert forall|j1: int, j2: int|
                            0 <= j1 < j2 < entries@.len() implies entries@[j1].hash
                            != entries@[j2].hash by {
                            if j2 == m {
                                assert(entries@[j1] == pre[j1]);
                                assert(entries@[j2].hash == h);
                            } else {
                                assert(entries@[j1] == pre[j1] && entries@[j2] == pre[j2]);
                            }
                        }
                        assert forall|j: int| 0 <= j < entries@.len() implies ((
                        #[trigger] entries@[j]).inner.seen_this_frame <==> hash_in_prims(
                            prefix1,
                            entries@[j].hash,
                        )) by {
                            if j < m {
                                assert(entries@[j] == pre[j]);
                            } else {
                                assert(entries@[j].hash == h);
                            }
                        }
                        assert forall|j: int|
                            0 <= j < entries@.len() && (#[trigger] entries@[j]).inner.rendered_this_frame
                                && entries@[j].inner.seen_this_frame implies !hash_in_entries(
                            old(entries)@,
                            entries@[j].hash,
                        ) by {
                            if j < m {
                                assert(entries@[j] == pre[j]);
                            } else {
                                if hash_in_entries(old(entries)@, h) {
                                    let j2 = choose|j2: int|
                                        0 <= j2 < old(entries)@.len() && (#[trigger] old(entries)@[j2]).hash == h;
                                    assert(hash_in_entries(pre, old(entries)@[j2].hash));
                                    assert(false);
                                }
                            }
                        }
                        assert forall|j: int| 0 <= j < old(entries)@.len() implies hash_in_entries(
                            entries@,
                            (#[trigger] old(entries)@[j]).hash,
                        ) by {
                            assert(hash_in_entries(pre, old(entries)@[j].hash));
                            let j2 = choose|j2: int|
                                0 <= j2 < pre.len() && (#[trigger] pre[j2]).hash == old(entries)@[j].hash;
                            assert(entries@[j2] == pre[j2]);
                        }
                        assert forall|j: int| 0 <= j < entries@.len() implies hash_in_entries(
                            old(entries)@,
                            (#[trigger] entries@[j]).hash,
                        ) || hash_in_prims(prefix1, entries@[j].hash) by {
                            if j < m {
                                assert(entries@[j] == pre[j]);
                            }
                        }
                        assert forall|j: int|
                            0 <= j < entries@.len() && (#[trigger] entries@[j]).inner.seen_this_frame implies exists|
                            i2: int,
                        | 0 <= i2 < i + 1 && tiled_entry_from_prim(entries@[j], prims@, i2) by {
                            if j < m {
                                assert(entries@[j] == pre[j]);
                                if pre[j].inner.seen_this_frame {
                                    let i2 = choose|i2: int|
                                        0 <= i2 < i && tiled_entry_from_prim(pre[j], prims@, i2);
                                    assert(tiled_entry_from_prim(entries@[j], prims@, i2));
                                }
                            } else {
                                assert(tiled_entry_from_prim(entries@[m as int], prims@, i as int));
                            }
                        }
                        assert forall|j0: int|
                            0 <= j0 < old(entries)@.len() && !hash_in_prims(
                                prefix1,
                                (#[trigger] old(entries)@[j0]).hash,
                            ) implies exists|j2: int|
                            0 <= j2 < entries@.len() && entries@[j2] == old(entries)@[j0] by {
                            assert(!hash_in_prims(prefix, old(entries)@[j0].hash));
                            let j2 = choose|j2: int|
                                0 <= j2 < pre.len() && #[trigger] pre[j2] == old(entries)@[j0];
                            assert(entries@[j2] == pre[j2]);
                        }
                    }
                } else {
                    proof {
                        assert forall|j: int| 0 <= j < entries@.len() implies ((
                        #[trigger] entries@[j]).inner.seen_this_frame <==> hash_in_prims(
                            prefix1,
                            entries@[j].hash,
                        )) by {
                            assert(entries@[j].hash != h);
                        }
                        if fresh_frame(old(entries)@, prims@) {
                            assert(!prim_skipped(prims@[i as int]));
                            assert(false);
                        }
                    }
                }
            },
        }
        i = i + 1;
    }
    proof {
        assert(prims@.subrange(0, n as int) =~= prims@);
    }
}

impl EguiSoftwareRender {
    /// One frame of the bitmap-caching mode, drawn into the persistent
    /// canvas.
    ///
    /// Primitives whose hash is cached are reused; new ones enter the cache
    /// with their bitmap; entries whose hash no longer occurs are dropped.
    /// Tiles where an entry appeared, changed or disappeared are cleared and
    /// recomposited in draw order. Two frames with the same primitives leave
    /// the canvas untouched and report an empty rect; a redraw frame over a
    /// cleared canvas leaves every pixel equal to the blend fold of the cached
    /// bitmaps.
    pub fn render_blendtiled(
        &mut self,
        canvas: &mut BufferMutRef,
        redraw_everything_this_frame: bool,
        prims: &Vec<PrimitiveInput>,
    ) -> (r: DirtyRect)
        requires
            old(self).wf(),
            old(canvas).wf(),
            old(canvas).width + TILE_SIZE <= u32::MAX,
            old(canvas).height + TILE_SIZE <= u32::MAX,
            old(canvas).width <= (u16::MAX as int) * (TILE_SIZE as int),
            old(canvas).height <= (u16::MAX as int) * (TILE_SIZE as int),
            !redraw_everything_this_frame ==> old(self).cached_size == ((
                old(canvas).width,
                old(canvas).height,
            )) && old(self).grid_covers(),
            forall|i: int| 0 <= i < prims@.len() ==> prim_wf(#[trigger] prims@[i]),
            prims@.len() <= u32::MAX,
        ensures
            final(self).wf(),
            final(self).grid_covers(),
            final(self).cached_size == ((old(canvas).width, old(canvas).height)),
            final(self).caching == old(self).caching,
            final(canvas).wf(),
            final(canvas).width == old(canvas).width,
            final(canvas).height == old(canvas).height,
            final(canvas).data@.len() == old(canvas).data@.len(),
            redraw_everything_this_frame ==> r == (DirtyRect {
                min_x: 0,
                min_y: 0,
                max_x: old(canvas).width,
                max_y: old(canvas).height,
            }),
            (!redraw_everything_this_frame && (forall|j: int|
                0 <= j < old(self).tiledcached_primitives@.len() ==> hash_in_prims(
                    prims@,
                    (#[trigger] old(self).tiledcached_primitives@[j]).hash,
                )) && (forall|i: int|
                0 <= i < prims@.len() && !prim_skipped(#[trigger] prims@[i]) ==> hash_in_entries(
                    old(self).tiledcached_primitives@,
                    prims@[i].hash,
                ))) ==> (r.spec_is_empty() && final(canvas).data@ == old(canvas).data@),
            (!redraw_everything_this_frame && !r.spec_is_empty()) ==> {
                &&& final(self).dirty_tiles@.len() == (final(self).tiles_dim[0] as int) * (final(self).tiles_dim[1] as int)
                &&& (forall|tx: int, ty: int, x: int, y: int|
                    #![trigger crate::tile_covers(tx, ty, x, y)]
                    0 <= tx < final(self).tiles_dim[0] && 0 <= ty < final(self).tiles_dim[1]
                        && crate::tile_covers(tx, ty, x, y) && 0 <= x < old(canvas).width && 0 <= y
                        < old(canvas).height && tile_flag(
                        final(self).dirty_tiles@,
                        final(self).tiles_dim[0] as int,
                        tx,
                        ty,
                        DIRTY_TILE_MASK,
                    ) ==> final(canvas).px(x, y)@ == composite(
                        final(self).tiledcached_primitives@,
                        x,
                        y,
                    ))
                &&& (forall|tx: int, ty: int, x: int, y: int|
                    #![trigger crate::tile_covers(tx, ty, x, y)]
                    0 <= tx < final(self).tiles_dim[0] && 0 <= ty < final(self).tiles_dim[1]
                        && crate::tile_covers(tx, ty, x, y) && 0 <= x < old(canvas).width && 0 <= y
                        < old(canvas).height && !tile_flag(
                        final(self).dirty_tiles@,
                        final(self).tiles_dim[0] as int,
                        tx,
                        ty,
                        DIRTY_TILE_MASK,
                    ) ==> final(canvas).px(x, y) == old(canvas).px(x, y))
            },
            !redraw_everything_this_frame ==> (forall|j: int|
                0 <= j < final(self).tiledcached_primitives@.len() && (#[trigger] final(self).tiledcached_primitives@[j]).inner.rendered_this_frame ==> {
                    let e = final(self).tiledcached_primitives@[j].inner.rect;
                    r.min_x <= e.min_x && r.min_y <= e.min_y && e.max_x <= r.max_x && e.max_y
                        <= r.max_y
                }),
            tiled_entries_from_prims(final(self).tiledcached_primitives@, prims@),
            forall|j: int|
                0 <= j < final(self).tiledcached_primitives@.len() ==> (#[trigger] final(self).tiledcached_primitives@[j]).inner.seen_this_frame,
            forall|i: int|
                0 <= i < prims@.len() && !prim_skipped(#[trigger] prims@[i]) ==> hash_in_entries(
                    final(self).tiledcached_primitives@,
                    prims@[i].hash,
                ),
            !redraw_everything_this_frame ==> (forall|j: int|
                0 <= j < final(self).tiledcached_primitives@.len() ==> ((#[trigger] final(self).tiledcached_primitives@[j]).inner.rendered_this_frame <==> !hash_in_entries(
                    old(self).tiledcached_primitives@,
                    final(self).tiledcached_primitives@[j].hash,
                ))),
            redraw_everything_this_frame ==> (forall|j: int|
                0 <= j < final(self).tiledcached_primitives@.len() ==> (#[trigger] final(self).tiledcached_primitives@[j]).inner.rendered_this_frame),
            (redraw_everything_this_frame && (exists|i: int|
                0 <= i < prims@.len() && !prim_skipped(#[trigger] prims@[i])))
                ==> final(self).dirty_tiles@.len() == (final(self).tiles_dim[0] as int) * (final(self).tiles_dim[1] as int) && final(self).tiles_dim[0] >= 1 && final(self).tiles_dim[1]
                >= 1,
            (!redraw_everything_this_frame && !r.spec_is_empty()) ==> final(self).tiles_dim[0] >= 1
                && final(self).tiles_dim[1] >= 1,
            (!redraw_everything_this_frame && !r.spec_is_empty()) ==> {
                let kept = final(self).tiledcached_primitives@;
                let olds = old(self).tiledcached_primitives@;
                &&& (exists|b: DirtyRect|
                    changed_rect_of_frame(kept, olds, prims@, b) && #[trigger] b.min_x == r.min_x)
                &&& (exists|b: DirtyRect|
                    changed_rect_of_frame(kept, olds, prims@, b) && #[trigger] b.min_y == r.min_y)
                &&& (exists|b: DirtyRect|
                    changed_rect_of_frame(kept, olds, prims@, b) && #[trigger] b.max_x == r.max_x)
                &&& (exists|b: DirtyRect|
                    changed_rect_of_frame(kept, olds, prims@, b) && #[trigger] b.max_y == r.max_y)
            },
            !redraw_everything_this_frame ==> (forall|j: int|
                0 <= j < old(self).tiledcached_primitives@.len() && !hash_in_prims(
                    prims@,
                    (#[trigger] old(self).tiledcached_primitives@[j]).hash,
                ) ==> {
                    let e = old(self).tiledcached_primitives@[j].inner.rect;
                    r.min_x <= e.min_x && r.min_y <= e.min_y && e.max_x <= r.max_x && e.max_y
                        <= r.max_y
                }),
            (redraw_everything_this_frame && fresh_frame(Seq::empty(), prims@) && (forall|
                x: int,
                y: int,
            |
                0 <= x < old(canvas).width && 0 <= y < old(canvas).height ==> (#[trigger] old(
                    canvas,
                ).px(x, y))@ == zero_px())) ==> {
                &&& final(self).tiledcached_primitives@.len() == prims@.len()
                &&& (forall|k: int|
                    0 <= k < prims@.len() ==> entry_matches_prim(
                        #[trigger] final(self).tiledcached_primitives@[k],
                        prims@[k],
                        k,
                    ))
                &&& (forall|x: int, y: int|
                    0 <= x < old(canvas).width && 0 <= y < old(canvas).height ==> (
                    #[trigger] final(canvas).px(x, y))@ == composite(
                        final(self).tiledcached_primitives@,
                        x,
                        y,
                    ))
            },
    {
        let w = canvas.width;
        let h = canvas.height;
        if redraw_everything_this_frame {
            self.tiledcached_primitives = Vec::new();
            let tiles_x = (w + (TILE_SIZE - 1)) / TILE_SIZE;
            let tiles_y = (h + (TILE_SIZE - 1)) / TILE_SIZE;
            proof {
                assert(tiles_x <= u16::MAX && (w as int) <= (tiles_x as int) * (
                TILE_SIZE as int)) by (nonlinear_arith)
                    requires
                        tiles_x == (w + TILE_SIZE - 1) / (TILE_SIZE as int),
                        w <= (u16::MAX as int) * (TILE_SIZE as int),
                        TILE_SIZE == 64,
                        0 <= w,
                ;
                assert(tiles_y <= u16::MAX && (h as int) <= (tiles_y as int) * (
                TILE_SIZE as int)) by (nonlinear_arith)
                    requires
                        tiles_y == (h + TILE_SIZE - 1) / (TILE_SIZE as int),
                        h <= (u16::MAX as int) * (TILE_SIZE as int),
                        TILE_SIZE == 64,
                        0 <= h,
                ;
                assert((tiles_x as int) * (tiles_y as int) <= u32::MAX
                    && (tiles_x as int) * (TILE_SIZE as int) <= u32::MAX
                    && (tiles_y as int) * (TILE_SIZE as int) <= u32::MAX) by (nonlinear_arith)
                    requires
                        0 <= tiles_x <= u16::MAX,
                        0 <= tiles_y <= u16::MAX,
                        TILE_SIZE == 64,
                ;
            }
            self.tiles_dim = [tiles_x, tiles_y];
        }
        self.cached_size = (w, h);
        let tiles_x = self.tiles_dim[0];
        let tiles_y = self.tiles_dim[1];

        let ghost before_mark = self.tiledcached_primitives@;
        mark_all_unseen(&mut self.tiledcached_primitives);
        proof {
            assert forall|j: int|
                0 <= j < self.tiledcached_primitives@.len() implies (
            #[trigger] self.tiledcached_primitives@[j]).wf() && occupancy_ok(
                self.tiledcached_primitives@[j],
                tiles_x as int,
                tiles_y as int,
            ) && !self.tiledcached_primitives@[j].inner.seen_this_frame
                && self.tiledcached_primitives@[j].hash == before_mark[j].hash by {
                crate::render::lemma_occupancy_frame(
                    before_mark[j],
                    self.tiledcached_primitives@[j],
                    tiles_x as int,
                    tiles_y as int,
                );
            }
        }
        let ghost marked = self.tiledcached_primitives@;

        process_prims(&mut self.tiledcached_primitives, prims, tiles_x, tiles_y);
        let ghost mid = self.tiledcached_primitives@;

        proof {
            assert forall|j: int| 0 <= j < mid.len() implies tiles_in_grid(
                #[trigger] mid[j],
                tiles_x as int,
                tiles_y as int,
            ) by {
                let e = mid[j];
                assert forall|k: int|
                    0 <= k < e.occupied_tiles@.len() implies (#[trigger] e.occupied_tiles@[k]).0
                    < tiles_x && e.occupied_tiles@[k].1 < tiles_y by {
                    let t = e.occupied_tiles@[k];
                    assert(e.occupied_tiles@.contains(t));
                    assert(t =~= ((t.0, t.1)));
                    assert(((t.0 as int) as u16) == t.0 && ((t.1 as int) as u16) == t.1);
                    assert(e.occupied(t.0 as int, t.1 as int));
                }
            }
        }
        let dirty_rect = update_dirty_rect(&self.tiledcached_primitives);
        let was_empty = dirty_rect.is_empty();
        if !was_empty {
            self.dirty_tiles = update_dirty_tiles(&self.tiledcached_primitives, tiles_x, tiles_y);
        }
        evict_unseen(&mut self.tiledcached_primitives);
        proof {
            let pred = |e: TiledCachedPrimitive| e.inner.seen_this_frame;
            assert forall|j: int|
                0 <= j < self.tiledcached_primitives@.len() implies (
            #[trigger] self.tiledcached_primitives@[j]).wf() && occupancy_ok(
                self.tiledcached_primitives@[j],
                tiles_x as int,
                tiles_y as int,
            ) by {
                crate::render::lemma_filter_element_of(mid, pred, j);
                let j2 = choose|j2: int|
                    0 <= j2 < mid.len() && #[trigger] mid[j2] == mid.filter(pred)[j];
            }
            crate::render::lemma_filter_hash_unique(mid, pred);
        }
        if !was_empty {
            render_from_tiledcache(
                &self.tiledcached_primitives,
                canvas,
                &self.dirty_tiles,
                tiles_x,
                tiles_y,
            );
        }
        proof {
            let oldcache = old(self).tiledcached_primitives@;
            if !redraw_everything_this_frame && (forall|j: int|
                0 <= j < oldcache.len() ==> hash_in_prims(prims@, (#[trigger] oldcache[j]).hash))
                && (forall|i: int|
                0 <= i < prims@.len() && !prim_skipped(#[trigger] prims@[i]) ==> hash_in_entries(
                    oldcache,
                    prims@[i].hash,
                )) {
                assert forall|j: int| 0 <= j < mid.len() implies !entry_changed(
                    #[trigger] mid[j],
                ) by {
                    if hash_in_entries(marked, mid[j].hash) {
                        let j2 = choose|j2: int|
                            0 <= j2 < marked.len() && (#[trigger] marked[j2]).hash == mid[j].hash;
                        assert(oldcache[j2].hash == marked[j2].hash);
                        assert(hash_in_prims(prims@, mid[j].hash));
                    }
                    assert(hash_in_prims(prims@, mid[j].hash));
                    assert(mid[j].inner.seen_this_frame);
                    if mid[j].inner.rendered_this_frame {
                        let i2 = choose|i2: int|
                            0 <= i2 < prims@.len() && (#[trigger] prims@[i2]).hash == mid[j].hash
                                && !prim_skipped(prims@[i2]);
                        assert(hash_in_entries(oldcache, mid[j].hash));
                        let j3 = choose|j3: int|
                            0 <= j3 < oldcache.len() && (#[trigger] oldcache[j3]).hash
                                == mid[j].hash;
                        assert(marked[j3].hash == oldcache[j3].hash);
                        assert(hash_in_entries(marked, mid[j].hash));
                        assert(false);
                    }
                }
                crate::render::lemma_no_change_no_dirty(mid, mid.len() as int);
                assert(dirty_rect == (DirtyRect { min_x: 0, min_y: 0, max_x: 0, max_y: 0 }));
            }
            if !redraw_everything_this_frame {
                let pred = |e: TiledCachedPrimitive| e.inner.seen_this_frame;
                assert forall|j: int|
                    0 <= j < self.tiledcached_primitives@.len() && (
                #[trigger] self.tiledcached_primitives@[j]).inner.rendered_this_frame implies {
                    let e = self.tiledcached_primitives@[j].inner.rect;
                    dirty_rect.min_x <= e.min_x && dirty_rect.min_y <= e.min_y && e.max_x
                        <= dirty_rect.max_x && e.max_y <= dirty_rect.max_y
                } by {
                    crate::render::lemma_filter_element_of(mid, pred, j);
                    let j2 = choose|j2: int|
                        0 <= j2 < mid.len() && #[trigger] mid[j2] == mid.filter(pred)[j];
                    assert forall|j3: int|
                        0 <= j3 < mid.len() && entry_changed(#[trigger] mid[j3]) implies mid[
                    j3].inner.rect.min_x < mid[j3].inner.rect.max_x && mid[j3].inner.rect.min_y
                        < mid[j3].inner.rect.max_y by {
                        assert(mid[j3].wf());
                    }
                    crate::render::lemma_dirty_union_contains(mid, mid.len() as int, j2);
                }
                assert forall|j0: int|
                    0 <= j0 < old(self).tiledcached_primitives@.len() && !hash_in_prims(
                        prims@,
                        (#[trigger] old(self).tiledcached_primitives@[j0]).hash,
                    ) implies {
                    let e = old(self).tiledcached_primitives@[j0].inner.rect;
                    dirty_rect.min_x <= e.min_x && dirty_rect.min_y <= e.min_y && e.max_x
                        <= dirty_rect.max_x && e.max_y <= dirty_rect.max_y
                } by {
                    assert(marked_unseen(before_mark[j0], marked[j0]));
                    let j2 = choose|j2: int| 0 <= j2 < mid.len() && #[trigger] mid[j2] == marked[j0];
                    assert(!mid[j2].inner.seen_this_frame);
                    assert forall|j3: int|
                        0 <= j3 < mid.len() && entry_changed(#[trigger] mid[j3]) implies mid[
                    j3].inner.rect.min_x < mid[j3].inner.rect.max_x && mid[j3].inner.rect.min_y
                        < mid[j3].inner.rect.max_y by {
                        assert(mid[j3].wf());
                    }
                    crate::render::lemma_dirty_union_contains(mid, mid.len() as int, j2);
                }
                // each bound of a non-empty dirty rect is attained by a rect
                // that changed this frame
                if !dirty_rect.spec_is_empty() {
                    let pred = |e: TiledCachedPrimitive| e.inner.seen_this_frame;
                    crate::render::lemma_dirty_union_attained(mid, mid.len() as int);
                    assert forall|j2: int|
                        0 <= j2 < mid.len() && entry_changed(
                            #[trigger] mid[j2],
                        ) implies changed_rect_of_frame(
                        self.tiledcached_primitives@,
                        old(self).tiledcached_primitives@,
                        prims@,
                        mid[j2].inner.rect,
                    ) by {
                        if mid[j2].inner.seen_this_frame {
                            mid.lemma_filter_contains(pred, j2);
                            let jf = choose|jf: int|
                                0 <= jf < mid.filter(pred).len() && #[trigger] mid.filter(
                                    pred,
                                )[jf] == mid[j2];
                            assert(self.tiledcached_primitives@[jf].inner.rendered_this_frame
                                && self.tiledcached_primitives@[jf].inner.rect
                                == mid[j2].inner.rect);
                        } else {
                            assert(!hash_in_prims(prims@, mid[j2].hash));
                            assert(hash_in_entries(marked, mid[j2].hash));
                            let j0 = choose|j0: int|
                                0 <= j0 < marked.len() && (#[trigger] marked[j0]).hash
                                    == mid[j2].hash;
                            assert(!hash_in_prims(prims@, marked[j0].hash));
                            let j3 = choose|j3: int|
                                0 <= j3 < mid.len() && #[trigger] mid[j3] == marked[j0];
                            assert(mid[j3].hash == mid[j2].hash);
                            assert(j3 == j2);
                            assert(marked_unseen(before_mark[j0], marked[j0]));
                            assert(old(self).tiledcached_primitives@[j0].inner.rect
                                == mid[j2].inner.rect);
                            assert(!hash_in_prims(
                                prims@,
                                old(self).tiledcached_primitives@[j0].hash,
                            ));
                        }
                    }
                }
            }
            {
                let pred = |e: TiledCachedPrimitive| e.inner.seen_this_frame;
                assert(self.tiledcached_primitives@ == mid.filter(pred));
                assert forall|jf: int|
                    0 <= jf < self.tiledcached_primitives@.len() && (
                #[trigger] self.tiledcached_primitives@[jf]).inner.seen_this_frame implies exists|
                    i2: int,
                |
                    0 <= i2 < prims@.len() && tiled_entry_from_prim(
                        self.tiledcached_primitives@[jf],
                        prims@,
                        i2,
                    ) by {
                    crate::render::lemma_filter_element_of(mid, pred, jf);
                    let j2 = choose|j2: int|
                        0 <= j2 < mid.len() && #[trigger] mid[j2] == mid.filter(pred)[jf];
                    assert(mid[j2].inner.seen_this_frame);
                    let i2 = choose|i2: int|
                        0 <= i2 < prims@.len() && tiled_entry_from_prim(mid[j2], prims@, i2);
                    assert(tiled_entry_from_prim(self.tiledcached_primitives@[jf], prims@, i2));
                }
                assert(tiled_entries_from_prims(self.tiledcached_primitives@, prims@));
                assert forall|jf: int|
                    0 <= jf < self.tiledcached_primitives@.len() implies (
                #[trigger] self.tiledcached_primitives@[jf]).inner.seen_this_frame by {
                    mid.lemma_filter_pred(pred, jf);
                }
                // on a reuse frame, the marked copy carries the same hashes
                // as the old cache
                if !redraw_everything_this_frame {
                    assert(before_mark == old(self).tiledcached_primitives@);
                    assert forall|g: u32| true implies (hash_in_entries(marked, g)
                        == hash_in_entries(old(self).tiledcached_primitives@, g)) by {
                        if hash_in_entries(marked, g) {
                            let j2 = choose|j2: int|
                                0 <= j2 < marked.len() && (#[trigger] marked[j2]).hash == g;
                            assert(marked_unseen(before_mark[j2], marked[j2]));
                            assert(before_mark[j2].hash == g);
                        }
                        if hash_in_entries(before_mark, g) {
                            let j2 = choose|j2: int|
                                0 <= j2 < before_mark.len() && (#[trigger] before_mark[j2]).hash
                                    == g;
                            assert(marked_unseen(before_mark[j2], marked[j2]));
                            assert(marked[j2].hash == g);
                        }
                    }
                }
                // every usable primitive is cached after the frame
                assert forall|i2: int|
                    0 <= i2 < prims@.len() && !prim_skipped(
                        #[trigger] prims@[i2],
                    ) implies hash_in_entries(
                    self.tiledcached_primitives@,
                    prims@[i2].hash,
                ) by {
                    assert(hash_in_entries(mid, prims@[i2].hash));
                    let j2 = choose|j2: int|
                        0 <= j2 < mid.len() && (#[trigger] mid[j2]).hash == prims@[i2].hash;
                    assert(hash_in_prims(prims@, mid[j2].hash));
                    assert(mid[j2].inner.seen_this_frame);
                    mid.lemma_filter_contains(pred, j2);
                    let jf = choose|jf: int|
                        0 <= jf < mid.filter(pred).len() && #[trigger] mid.filter(pred)[jf]
                            == mid[j2];
                    assert(self.tiledcached_primitives@[jf].hash == prims@[i2].hash);
                }
                // a kept entry was re-rendered exactly when its hash was new
                assert forall|jf: int|
                    0 <= jf < self.tiledcached_primitives@.len() implies ((
                #[trigger] self.tiledcached_primitives@[jf]).inner.rendered_this_frame
                    == !hash_in_entries(marked, self.tiledcached_primitives@[jf].hash)) by {
                    crate::render::lemma_filter_element_of(mid, pred, jf);
                    let j2 = choose|j2: int|
                        0 <= j2 < mid.len() && #[trigger] mid[j2] == mid.filter(pred)[jf];
                    assert(mid[j2].inner.seen_this_frame);
                }
                if redraw_everything_this_frame {
                    assert(marked =~= Seq::<TiledCachedPrimitive>::empty());
                    assert forall|jf: int|
                        0 <= jf < self.tiledcached_primitives@.len() implies (
                    #[trigger] self.tiledcached_primitives@[jf]).inner.rendered_this_frame by {
                        assert(!hash_in_entries(marked, self.tiledcached_primitives@[jf].hash));
                    }
                    if exists|i2: int|
                        0 <= i2 < prims@.len() && !prim_skipped(#[trigger] prims@[i2]) {
                        let i2 = choose|i2: int|
                            0 <= i2 < prims@.len() && !prim_skipped(#[trigger] prims@[i2]);
                        assert(hash_in_entries(mid, prims@[i2].hash));
                        let j2 = choose|j2: int|
                            0 <= j2 < mid.len() && (#[trigger] mid[j2]).hash == prims@[i2].hash;
                        assert(mid[j2].inner.seen_this_frame);
                        assert(mid[j2].inner.rendered_this_frame);
                        assert forall|j3: int|
                            0 <= j3 < mid.len() && entry_changed(#[trigger] mid[j3]) implies mid[
                        j3].inner.rect.min_x < mid[j3].inner.rect.max_x
                            && mid[j3].inner.rect.min_y < mid[j3].inner.rect.max_y by {
                            assert(mid[j3].wf());
                        }
                        crate::render::lemma_dirty_union_nonempty(mid, mid.len() as int, j2);
                        assert(!was_empty);
                    }
                }
            }
            if redraw_everything_this_frame && fresh_frame(Seq::empty(), prims@) && (forall|
                x: int,
                y: int,
            |
                0 <= x < w && 0 <= y < h ==> (#[trigger] old(canvas).px(x, y))@ == zero_px()) {
                assert(marked =~= Seq::<TiledCachedPrimitive>::empty());
                assert(fresh_frame(marked, prims@));
                assert forall|j: int| 0 <= j < mid.len() implies (
                #[trigger] mid[j]).inner.seen_this_frame && mid[j].inner.rendered_this_frame by {
                    assert(entry_matches_prim(mid[j], prims@[j], j));
                }
                crate::render::lemma_filter_all_kept(
                    mid,
                    |e: TiledCachedPrimitive| e.inner.seen_this_frame,
                );
                assert(self.tiledcached_primitives@ == mid);
                assert forall|x: int, y: int| 0 <= x < w && 0 <= y < h implies (
                #[trigger] canvas.px(x, y))@ == composite(mid, x, y) by {
                    crate::lemma_pixel_in_tile(
                        x,
                        y,
                        w as int,
                        h as int,
                        tiles_x as int,
                        tiles_y as int,
                    );
                    let tx = x / (TILE_SIZE as int);
                    let ty = y / (TILE_SIZE as int);
                    if was_empty {
                        if mid.len() > 0 {
                            assert(entry_matches_prim(mid[0], prims@[0], 0));
                            assert forall|j2: int|
                                0 <= j2 < mid.len() && entry_changed(
                                    #[trigger] mid[j2],
                                ) implies mid[j2].inner.rect.min_x < mid[j2].inner.rect.max_x
                                && mid[j2].inner.rect.min_y < mid[j2].inner.rect.max_y by {
                                assert(mid[j2].wf());
                            }
                            crate::render::lemma_dirty_union_nonempty(mid, mid.len() as int, 0);
                            assert(false);
                        }
                        assert(canvas.px(x, y) == old(canvas).px(x, y));
                    } else {
                        assert(((tx as u16) as int) == tx && ((ty as u16) as int) == ty);
                        assert(tile_flag(
                            self.dirty_tiles@,
                            tiles_x as int,
                            (tx as u16) as int,
                            (ty as u16) as int,
                            DIRTY_TILE_MASK,
                        ) == tile_flag(self.dirty_tiles@, tiles_x as int, tx, ty, DIRTY_TILE_MASK));
                        if tile_flag(self.dirty_tiles@, tiles_x as int, tx, ty, DIRTY_TILE_MASK) {
                        } else {
                            assert(!tile_dirty_by_some(mid, tx, ty));
                            assert forall|j: int| 0 <= j < mid.len() implies !(
                            #[trigger] mid[j]).occupied(tx, ty) by {
                                if mid[j].occupied(tx, ty) {
                                    assert(entry_changed(mid[j]));
                                    assert(tile_dirty_by_some(mid, tx, ty));
                                }
                            }
                            crate::render::lemma_composite_zero(
                                mid,
                                mid.len() as int,
                                tiles_x as int,
                                tiles_y as int,
                                tx,
                                ty,
                                x,
                                y,
                            );
                            assert(canvas.px(x, y) == old(canvas).px(x, y));
                        }
                    }
                }
            }
        }
        if redraw_everything_this_frame {
            DirtyRect { min_x: 0, min_y: 0, max_x: w, max_y: h }
        } else {
            dirty_rect
        }
    }
}

/// Bitmap pixel of a primitive under frame coordinates inside its rect.
pub open spec fn prim_px(p: PrimitiveInput, x: int, y: int) -> [u8; 4] {
    p.bitmap@[(y - p.rect.min_y) * (p.rect.max_x - p.rect.min_x) + (x - p.rect.min_x)]
}

/// Value of pixel `(x, y)` after blending the first `k` primitives of the
/// frame, in draw order, over `base`; dropped primitives contribute nothing.
pub open spec fn composite_prims_prefix(
    prims: Seq<PrimitiveInput>,
    k: int,
    x: int,
    y: int,
    base: Seq<u8>,
) -> Seq<u8>
    decreases k,
{
    if k <= 0 {
        base
    } else {
        let prev = composite_prims_prefix(prims, k - 1, x, y, base);
        let p = prims[k - 1];
        if !prim_skipped(p) && p.rect.contains(x, y) {
            crate::pixel::blend_px(prim_px(p, x, y)@, prev)
        } else {
            prev
        }
    }
}

/// The blend fold of a fresh frame's cache entries equals the blend fold of
/// the primitives they were built from.
pub proof fn lemma_tiled_equals_direct(
    entries: Seq<TiledCachedPrimitive>,
    prims: Seq<PrimitiveInput>,
    k: int,
    x: int,
    y: int,
)
    requires
        entries.len() == prims.len(),
        forall|j: int|
            0 <= j < prims.len() ==> entry_matches_prim(#[trigger] entries[j], prims[j], j),
        forall|j: int| 0 <= j < prims.len() ==> !prim_skipped(#[trigger] prims[j]),
        k <= prims.len(),
    ensures
        crate::render::composite_prefix(entries, k, x, y) == composite_prims_prefix(
            prims,
            k,
            x,
            y,
            zero_px(),
        ),
    decreases k,
{
    if k > 0 {
        lemma_tiled_equals_direct(entries, prims, k - 1, x, y);
        let e = entries[k - 1];
        let p = prims[k - 1];
        if p.rect.contains(x, y) {
            assert(e.px_at(x, y) == prim_px(p, x, y));
        }
    }
}

/// Render a frame without caching: blend every primitive's bitmap, clipped to
/// the buffer, over the buffer in draw order.
pub fn render_direct(buffer: &mut BufferMutRef, prims: &Vec<PrimitiveInput>)
    requires
        old(buffer).wf(),
        forall|i: int| 0 <= i < prims@.len() ==> prim_wf(#[trigger] prims@[i]),
    ensures
        final(buffer).wf(),
        final(buffer).width == old(buffer).width,
        final(buffer).height == old(buffer).height,
        final(buffer).data@.len() == old(buffer).data@.len(),
        forall|x: int, y: int|
            0 <= x < old(buffer).width && 0 <= y < old(buffer).height ==> (#[trigger] final(buffer).px(x, y))@ == composite_prims_prefix(prims@, prims@.len() as int, x, y, old(buffer).px(x, y)@),
{
    let w = buffer.width;
    let h = buffer.height;
    let n = prims.len();
    let mut i: usize = 0;
    while i < n
        invariant
            buffer.wf(),
            buffer.width == old(buffer).width,
            buffer.height == old(buffer).height,
            buffer.data@.len() == old(buffer).data@.len(),
            w == buffer.width,
            h == buffer.height,
            n == prims@.len(),
            i <= n,
            forall|k: int| 0 <= k < prims@.len() ==> prim_wf(#[trigger] prims@[k]),
            forall|x: int, y: int|
                0 <= x < w && 0 <= y < h ==> (#[trigger] buffer.px(x, y))@
                    == composite_prims_prefix(prims@, i as int, x, y, old(buffer).px(x, y)@),
        decreases n - i,
    {
        let ghost p_spec = prims@[i as int];
        let min_x = prims[i].rect.min_x;
        let min_y = prims[i].rect.min_y;
        let max_x = prims[i].rect.max_x;
        let max_y = prims[i].rect.max_y;
        let pw = max_x - min_x;
        let ph = max_y - min_y;
        let skipped = should_skip(pw, ph);
        let rx0 = crate::min_u32(min_x, w);
        let rx1 = crate::min_u32(max_x, w);
        let ry0 = crate::min_u32(min_y, h);
        let ry1 = crate::min_u32(max_y, h);
        if !skipped && rx0 < rx1 && ry0 < ry1 {
            let mut ry = ry0;
            while ry < ry1
                invariant
                    buffer.wf(),
                    buffer.width == old(buffer).width,
                    buffer.height == old(buffer).height,
                    buffer.data@.len() == old(buffer).data@.len(),
                    w == buffer.width,
                    h == buffer.height,
                    n == prims@.len(),
                    i < n,
                    p_spec == prims@[i as int],
                    prim_wf(p_spec),
                    !prim_skipped(p_spec),
                    min_x == p_spec.rect.min_x,
                    min_y == p_spec.rect.min_y,
                    max_x == p_spec.rect.max_x,
                    max_y == p_spec.rect.max_y,
                    pw == max_x - min_x,
                    rx0 == if min_x <= w {
                        min_x as int
                    } else {
                        w as int
                    },
                    rx1 == if max_x <= w {
                        max_x as int
                    } else {
                        w as int
                    },
                    ry0 == if min_y <= h {
                        min_y as int
                    } else {
                        h as int
                    },
                    ry1 == if max_y <= h {
                        max_y as int
                    } else {
                        h as int
                    },
                    rx0 < rx1,
                    ry0 <= ry <= ry1,
                    rx0 >= min_x,
                    ry0 >= min_y,
                    forall|x: int, y: int|
                        0 <= x < w && 0 <= y < h && (rx0 <= x < rx1 && ry0 <= y < ry) ==> (
                        #[trigger] buffer.px(x, y))@ == crate::pixel::blend_px(
                            prim_px(p_spec, x, y)@,
                            composite_prims_prefix(prims@, i as int, x, y, old(buffer).px(x, y)@),
                        ),
                    forall|x: int, y: int|
                        0 <= x < w && 0 <= y < h && !(rx0 <= x < rx1 && ry0 <= y < ry) ==> (
                        #[trigger] buffer.px(x, y))@ == composite_prims_prefix(
                            prims@,
                            i as int,
                            x,
                            y,
                            old(buffer).px(x, y)@,
                        ),
                decreases ry1 - ry,
            {
                let ghost prev = *buffer;
                let ly = ry - min_y;
                proof {
                    vstd::arithmetic::mul::lemma_mul_inequality(
                        ly + 1,
                        (max_y - min_y) as int,
                        pw as int,
                    );
                    assert((ly + 1) * pw == ly * pw + pw) by (nonlinear_arith);
                    vstd::arithmetic::mul::lemma_mul_is_commutative(
                        (max_y - min_y) as int,
                        pw as int,
                    );
                    vstd::arithmetic::mul::lemma_mul_nonnegative(ly as int, pw as int);
                    assert(((max_y - min_y) as int) * (pw as int) <= 8192 * 8192)
                        by (nonlinear_arith)
                        requires
                            0 <= (max_y - min_y) as int <= 8192,
                            0 <= pw as int <= 8192,
                    ;
                }
                let off = ly * pw + (rx0 - min_x);
                let count = rx1 - rx0;
                let src = vstd::slice::slice_subrange(
                    prims[i].bitmap.as_slice(),
                    crate::buffer::as_usize(off),
                    crate::buffer::as_usize(off + count),
                );
                buffer.blend_span(src, rx0, rx1, ry);
                proof {
                    assert forall|x2: int, y2: int|
                        0 <= x2 < w && 0 <= y2 < h && !(y2 == ry && rx0 <= x2 < rx1) implies (
                    #[trigger] buffer.px(x2, y2)) == prev.px(x2, y2) by {
                        crate::buffer::lemma_row_disjoint(
                            w as int,
                            ry as int,
                            rx0 as int,
                            rx1 as int,
                            x2,
                            y2,
                        );
                        prev.lemma_span_bounds(x2 + 1, y2);
                    }
                    assert forall|x2: int| rx0 <= x2 < rx1 implies (#[trigger] buffer.px(
                        x2,
                        ry as int,
                    ))@ == crate::pixel::blend_px(
                        prim_px(p_spec, x2, ry as int)@,
                        prev.px(x2, ry as int)@,
                    ) by {
                        let idx2 = (ry as int) * w + x2;
                        assert(buffer.data@[idx2]@ == crate::pixel::blend_px(
                            src@[x2 - rx0]@,
                            prev.data@[idx2]@,
                        ));
                        assert(src@[x2 - rx0] == p_spec.bitmap@[off + x2 - rx0]);
                        assert(off + x2 - rx0 == ly * pw + (x2 - min_x));
                        assert(prim_px(p_spec, x2, ry as int) == p_spec.bitmap@[(ry - min_y)
                            * pw + (x2 - min_x)]);
                        assert(prev.px(x2, ry as int) == prev.data@[idx2]);
                        assert(buffer.px(x2, ry as int) == buffer.data@[idx2]);
                    }
                }
                ry = ry + 1;
            }
        }
        proof {
            assert forall|x: int, y: int| 0 <= x < w && 0 <= y < h implies (#[trigger] buffer.px(
                x,
                y,
            ))@ == composite_prims_prefix(prims@, i + 1, x, y, old(buffer).px(x, y)@) by {
                if !prim_skipped(p_spec) && p_spec.rect.contains(x, y) {
                    assert(rx0 <= x < rx1 && ry0 <= y < ry1);
                }
            }
        }
        i = i + 1;
    }
}

/// One prepared primitive of a frame for the mesh-caching modes.
#[derive(Debug, Clone, Copy)]
pub struct MeshPrimInput {
    /// Content hash of the primitive.
    pub hash: u32,
    /// Cropped screen rect.
    pub rect: DirtyRect,
    /// Caller-side key of the prepared mesh.
    pub mesh_id: u32,
}

/// Union of the rects of changed mesh-cache entries among the first `k`.
pub open spec fn mesh_dirty_union_prefix(entries: Seq<MeshCachedPrimitive>, k: int) -> DirtyRect
    decreases k,
{
    if k <= 0 {
        DirtyRect { min_x: 0, min_y: 0, max_x: 0, max_y: 0 }
    } else {
        let r = mesh_dirty_union_prefix(entries, k - 1);
        let e = entries[k - 1];
        if !e.inner.seen_this_frame || e.inner.rendered_this_frame {
            if r.spec_is_empty() {
                e.inner.rect
            } else {
                r.spec_union(e.inner.rect)
            }
        } else {
            r
        }
    }
}

/// Every mesh-cache entry has a non-empty rect with room for tile snapping,
/// and the entries carry pairwise distinct hashes.
pub open spec fn mesh_cache_wf(entries: Seq<MeshCachedPrimitive>) -> bool {
    &&& forall|j: int|
        0 <= j < entries.len() ==> (#[trigger] entries[j]).inner.rect.min_x
            < entries[j].inner.rect.max_x && entries[j].inner.rect.min_y
            < entries[j].inner.rect.max_y && entries[j].inner.rect.max_x + TILE_SIZE <= u32::MAX
            && entries[j].inner.rect.max_y + TILE_SIZE <= u32::MAX
    &&& forall|j1: int, j2: int|
        #![trigger entries[j1], entries[j2]]
        0 <= j1 < j2 < entries.len() ==> entries[j1].hash != entries[j2].hash
}

/// A usable mesh-mode primitive record: the rect is ordered and — unless the
/// size guard drops the primitive — leaves room for tile snapping.
pub open spec fn mesh_prim_wf(p: MeshPrimInput) -> bool {
    &&& p.rect.wf()
    &&& !skip_dims(p.rect.max_x - p.rect.min_x, p.rect.max_y - p.rect.min_y) ==> p.rect.max_x
        + TILE_SIZE <= u32::MAX && p.rect.max_y + TILE_SIZE <= u32::MAX
}

/// Some mesh-mode primitive of the frame carries this hash.
pub open spec fn hash_in_mesh_prims(prims: Seq<MeshPrimInput>, h: u32) -> bool {
    exists|i: int| 0 <= i < prims.len() && (#[trigger] prims[i]).hash == h
}

/// Some mesh-cache entry carries this hash.
pub open spec fn hash_in_mesh_entries(entries: Seq<MeshCachedPrimitive>, h: u32) -> bool {
    exists|j: int| 0 <= j < entries.len() && (#[trigger] entries[j]).hash == h
}

/// The entry appeared or was re-rendered this frame, or its hash no longer
/// occurs among the frame's primitives.
pub open spec fn mesh_entry_changed(e: MeshCachedPrimitive) -> bool {
    !e.inner.seen_this_frame || e.inner.rendered_this_frame
}

/// The refreshed-or-inserted record for primitive `i`: hash and z-order from
/// the primitive, and the primitive's rect unless the size guard rejected it.
pub open spec fn mesh_entry_from_prim(e: MeshCachedPrimitive, prims: Seq<MeshPrimInput>, i: int) -> bool {
    &&& prims[i].hash == e.hash
    &&& e.inner.z_order == i
    &&& (e.inner.rect == prims[i].rect || skip_dims(
        prims[i].rect.max_x - prims[i].rect.min_x,
        prims[i].rect.max_y - prims[i].rect.min_y,
    ))
}

/// Every cache entry was refreshed or inserted by some primitive of the
/// frame.
pub open spec fn mesh_entries_from_prims(
    entries: Seq<MeshCachedPrimitive>,
    prims: Seq<MeshPrimInput>,
) -> bool {
    forall|j: int|
        0 <= j < entries.len() ==> (#[trigger] entries[j]).inner.seen_this_frame && (exists|i: int|
            0 <= i < prims.len() && mesh_entry_from_prim(entries[j], prims, i))
}

/// The mesh dirty union is empty when no entry changed.
proof fn lemma_mesh_no_change_no_dirty(entries: Seq<MeshCachedPrimitive>, k: int)
    requires
        forall|j: int| 0 <= j < entries.len() ==> !mesh_entry_changed(#[trigger] entries[j]),
        k <= entries.len(),
    ensures
        mesh_dirty_union_prefix(entries, k) == (DirtyRect {
            min_x: 0,
            min_y: 0,
            max_x: 0,
            max_y: 0,
        }),
    decreases k,
{
    if k > 0 {
        lemma_mesh_no_change_no_dirty(entries, k - 1);
    }
}

/// The mesh dirty union is non-empty once a changed entry entered it.
proof fn lemma_mesh_union_nonempty(entries: Seq<MeshCachedPrimitive>, k: int, j: int)
    requires
        0 <= j < k <= entries.len(),
        mesh_entry_changed(entries[j]),
        forall|j2: int|
            0 <= j2 < entries.len() ==> (#[trigger] entries[j2]).inner.rect.min_x
                < entries[j2].inner.rect.max_x && entries[j2].inner.rect.min_y
                < entries[j2].inner.rect.max_y,
    ensures
        mesh_dirty_union_prefix(entries, k).min_x < mesh_dirty_union_prefix(entries, k).max_x,
        mesh_dirty_union_prefix(entries, k).min_y < mesh_dirty_union_prefix(entries, k).max_y,
    decreases k,
{
    let r = mesh_dirty_union_prefix(entries, k - 1);
    let e = entries[k - 1];
    if j == k - 1 {
        if r.spec_is_empty() {
            assert(mesh_dirty_union_prefix(entries, k) == e.inner.rect);
        } else {
            assert(mesh_dirty_union_prefix(entries, k) == r.spec_union(e.inner.rect));
        }
    } else {
        lemma_mesh_union_nonempty(entries, k - 1, j);
        if mesh_entry_changed(e) {
            assert(!r.spec_is_empty());
            assert(mesh_dirty_union_prefix(entries, k) == r.spec_union(e.inner.rect));
        }
    }
}

/// The mesh dirty union contains the rect of every changed entry.
proof fn lemma_mesh_union_contains(entries: Seq<MeshCachedPrimitive>, k: int, j: int)
    requires
        0 <= j < k <= entries.len(),
        mesh_entry_changed(entries[j]),
        forall|j2: int|
            0 <= j2 < entries.len() ==> (#[trigger] entries[j2]).inner.rect.min_x
                < entries[j2].inner.rect.max_x && entries[j2].inner.rect.min_y
                < entries[j2].inner.rect.max_y,
    ensures
        mesh_dirty_union_prefix(entries, k).min_x <= entries[j].inner.rect.min_x,
        mesh_dirty_union_prefix(entries, k).min_y <= entries[j].inner.rect.min_y,
        mesh_dirty_union_prefix(entries, k).max_x >= entries[j].inner.rect.max_x,
        mesh_dirty_union_prefix(entries, k).max_y >= entries[j].inner.rect.max_y,
    decreases k,
{
    let r = mesh_dirty_union_prefix(entries, k - 1);
    let e = entries[k - 1];
    if j == k - 1 {
        if r.spec_is_empty() {
            assert(mesh_dirty_union_prefix(entries, k) == e.inner.rect);
        } else {
            assert(mesh_dirty_union_prefix(entries, k) == r.spec_union(e.inner.rect));
        }
    } else {
        lemma_mesh_union_contains(entries, k - 1, j);
        if mesh_entry_changed(e) {
            lemma_mesh_union_nonempty(entries, k - 1, j);
            assert(!r.spec_is_empty());
            assert(mesh_dirty_union_prefix(entries, k) == r.spec_union(e.inner.rect));
        }
    }
}

/// The entry of frame start: the same record with the seen flag lowered.
pub open spec fn mesh_marked_unseen(a: MeshCachedPrimitive, b: MeshCachedPrimitive) -> bool {
    &&& b.hash == a.hash
    &&& b.inner.z_order == a.inner.z_order
    &&& b.inner.rect == a.inner.rect
    &&& b.inner.seen_this_frame == false
    &&& b.inner.rendered_this_frame == a.inner.rendered_this_frame
    &&& b.mesh_id == a.mesh_id
}

/// Index of the mesh-cache entry carrying `hash`, if any.
fn find_mesh_entry(entries: &Vec<MeshCachedPrimitive>, hash: u32) -> (r: Option<usize>)
    ensures
        match r {
            Some(j) => j < entries@.len() && entries@[j as int].hash == hash,
            None => !hash_in_mesh_entries(entries@, hash),
        },
{
    let n = entries.len();
    let mut j: usize = 0;
    while j < n
        invariant
            n == entries@.len(),
            j <= n,
            forall|j2: int| 0 <= j2 < j ==> (#[trigger] entries@[j2]).hash != hash,
        decreases n - j,
    {
        if entries[j].hash == hash {
            return Some(j);
        }
        j = j + 1;
    }
    None
}

impl EguiSoftwareRender {
    /// One frame of the mesh-caching modes: refresh or insert mesh-cache
    /// entries, compute the dirty union, and — in the tiled mode — rebuild
    /// the non-overlapping decomposition of the changed rects. The caller
    /// re-rasterizes the cached meshes against the returned region
    /// (or against [`ComputeTiledDirtyRects::intersections`] in the tiled
    /// mode).
    #[verifier::rlimit(100)]
    #[verifier::spinoff_prover]
    pub fn render_meshmaybetiled(
        &mut self,
        width: u32,
        height: u32,
        redraw_everything_this_frame: bool,
        prims: &Vec<MeshPrimInput>,
    ) -> (r: DirtyRect)
        requires
            mesh_cache_wf(old(self).dirtycached_primitives@),
            forall|i: int| 0 <= i < prims@.len() ==> mesh_prim_wf(#[trigger] prims@[i]),
            prims@.len() <= u32::MAX,
        ensures
            mesh_cache_wf(final(self).dirtycached_primitives@),
            final(self).tiledcached_primitives == old(self).tiledcached_primitives,
            final(self).tiles_dim == old(self).tiles_dim,
            final(self).caching == old(self).caching,
            final(self).cached_size == ((width, height)),
            redraw_everything_this_frame ==> r == (DirtyRect {
                min_x: 0,
                min_y: 0,
                max_x: width,
                max_y: height,
            }),
            mesh_entries_from_prims(final(self).dirtycached_primitives@, prims@),
            (!redraw_everything_this_frame && (forall|j: int|
                0 <= j < old(self).dirtycached_primitives@.len() ==> hash_in_mesh_prims(
                    prims@,
                    (#[trigger] old(self).dirtycached_primitives@[j]).hash,
                )) && (forall|i: int|
                0 <= i < prims@.len() ==> hash_in_mesh_entries(
                    old(self).dirtycached_primitives@,
                    (#[trigger] prims@[i]).hash,
                ))) ==> r.spec_is_empty(),
            (!redraw_everything_this_frame && r.spec_is_empty()) ==> forall|j: int|
                0 <= j < final(self).dirtycached_primitives@.len() ==> !(#[trigger] final(self).dirtycached_primitives@[j]).inner.rendered_this_frame,
            !redraw_everything_this_frame ==> (forall|j: int|
                0 <= j < final(self).dirtycached_primitives@.len() && (#[trigger] final(self).dirtycached_primitives@[j]).inner.rendered_this_frame ==> {
                    let e = final(self).dirtycached_primitives@[j].inner.rect;
                    r.min_x <= e.min_x && r.min_y <= e.min_y && e.max_x <= r.max_x && e.max_y
                        <= r.max_y
                }),
            !redraw_everything_this_frame ==> (forall|j: int|
                0 <= j < old(self).dirtycached_primitives@.len() && !hash_in_mesh_prims(
                    prims@,
                    (#[trigger] old(self).dirtycached_primitives@[j]).hash,
                ) ==> {
                    let e = old(self).dirtycached_primitives@[j].inner.rect;
                    r.min_x <= e.min_x && r.min_y <= e.min_y && e.max_x <= r.max_x && e.max_y
                        <= r.max_y
                }),
            (old(self).caching == SoftwareRenderCaching::MeshTiled && !r.spec_is_empty()
                && !redraw_everything_this_frame) ==> {
                &&& (forall|i: int, j: int, x: int, y: int|
                    #![trigger final(self).dirty_rects.minimal_non_overlapping_bboxes@[i].contains(x, y), final(self).dirty_rects.minimal_non_overlapping_bboxes@[j].contains(x, y)]
                    0 <= i < j < final(self).dirty_rects.minimal_non_overlapping_bboxes@.len()
                        ==> !(final(self).dirty_rects.minimal_non_overlapping_bboxes@[i].contains(
                        x,
                        y,
                    ) && final(self).dirty_rects.minimal_non_overlapping_bboxes@[j].contains(x, y)))
                &&& (forall|x: int, y: int|
                    #![all_triggers]
                    crate::dirty_rect::rects_cover(
                        final(self).dirty_rects.minimal_non_overlapping_bboxes@,
                        x,
                        y,
                    ) == crate::dirty_rect::rects_cover(final(self).dirty_rects.bboxes@, x, y))
                &&& (forall|j: int|
                    0 <= j < final(self).dirtycached_primitives@.len() && (#[trigger] final(self).dirtycached_primitives@[j]).inner.rendered_this_frame ==> exists|c: int|
                        0 <= c < final(self).dirty_rects.bboxes@.len()
                            && final(self).dirty_rects.bboxes@[c]
                            == crate::dirty_rect::spec_tiled_rect(
                            final(self).dirtycached_primitives@[j].inner.rect,
                        ))
            },
    {
        if redraw_everything_this_frame {
            self.dirtycached_primitives = Vec::new();
        }
        self.cached_size = (width, height);
        let ghost oldcache = old(self).dirtycached_primitives@;
        let mut cache: Vec<MeshCachedPrimitive> = Vec::new();
        core::mem::swap(&mut self.dirtycached_primitives, &mut cache);
        let n0 = cache.len();
        let ghost pre_mark = cache@;
        let mut j: usize = 0;
        while j < n0
            invariant
                n0 == cache@.len(),
                j <= n0,
                pre_mark.len() == n0,
                mesh_cache_wf(cache@),
                forall|j2: int| 0 <= j2 < j ==> mesh_marked_unseen(pre_mark[j2], #[trigger] cache@[j2]),
                forall|j2: int| j <= j2 < n0 ==> #[trigger] cache@[j2] == pre_mark[j2],
            decreases n0 - j,
        {
            let mut e = cache[j];
            e.inner.seen_this_frame = false;
            cache.set(j, e);
            j = j + 1;
        }
        let ghost marked = cache@;

        let np = prims.len();
        let mut i: usize = 0;
        while i < np
            invariant
                np == prims@.len(),
                i <= np,
                prims@.len() <= u32::MAX,
                forall|k: int| 0 <= k < prims@.len() ==> mesh_prim_wf(#[trigger] prims@[k]),
                mesh_cache_wf(cache@),
                marked.len() == n0,
                cache@.len() >= n0,
                forall|j2: int| 0 <= j2 < n0 ==> (#[trigger] cache@[j2]).hash == marked[j2].hash,
                forall|j2: int|
                    0 <= j2 < cache@.len() ==> ((#[trigger] cache@[j2]).inner.seen_this_frame
                        <==> hash_in_mesh_prims(prims@.subrange(0, i as int), cache@[j2].hash)),
                forall|j2: int|
                    0 <= j2 < cache@.len() && (#[trigger] cache@[j2]).inner.seen_this_frame
                        ==> exists|i2: int|
                        0 <= i2 < i && mesh_entry_from_prim(cache@[j2], prims@, i2),
                forall|j2: int|
                    0 <= j2 < cache@.len() && (#[trigger] cache@[j2]).inner.seen_this_frame
                        && cache@[j2].inner.rendered_this_frame ==> !hash_in_mesh_entries(
                        marked,
                        cache@[j2].hash,
                    ),
                forall|j2: int|
                    0 <= j2 < n0 && !hash_in_mesh_prims(
                        prims@.subrange(0, i as int),
                        (#[trigger] marked[j2]).hash,
                    ) ==> cache@[j2] == marked[j2],
                forall|j2: int|
                    n0 <= j2 < cache@.len() ==> (#[trigger] cache@[j2]).inner.seen_this_frame,
            decreases np - i,
        {
            let h = prims[i].hash;
            let pr = prims[i].rect;
            let ghost prefix = prims@.subrange(0, i as int);
            let ghost prefix1 = prims@.subrange(0, i + 1);
            proof {
                assert forall|g: u32| true implies (hash_in_mesh_prims(prefix1, g) <==> (
                hash_in_mesh_prims(prefix, g) || prims@[i as int].hash == g)) by {
                    let a = prefix;
                    let b = prefix1;
                    if hash_in_mesh_prims(b, g) {
                        let k = choose|k: int| 0 <= k < b.len() && (#[trigger] b[k]).hash == g;
                        if k < i {
                            assert(a[k] == b[k]);
                        } else {
                            assert(b[i as int] == prims@[i as int]);
                        }
                    }
                    if hash_in_mesh_prims(a, g) {
                        let k = choose|k: int| 0 <= k < a.len() && (#[trigger] a[k]).hash == g;
                        assert(b[k] == a[k]);
                    }
                    if prims@[i as int].hash == g {
                        assert(b[i as int] == prims@[i as int]);
                    }
                }
            }
            let hit = find_mesh_entry(&cache, h);
            let ghost pre = cache@;
            match hit {
                Some(k) => {
                    let mut e = cache[k];
                    e.inner.z_order = i as u32;
                    e.inner.seen_this_frame = true;
                    e.inner.rendered_this_frame = false;
                    let w = pr.max_x - pr.min_x;
                    let hh = pr.max_y - pr.min_y;
                    if !should_skip(w, hh) {
                        e.inner.rect = pr;
                    }
                    cache.set(k, e);
                    proof {
                        assert(mesh_entry_from_prim(cache@[k as int], prims@, i as int));
                        assert forall|j2: int|
                            0 <= j2 < cache@.len() && (#[trigger] cache@[j2]).inner.seen_this_frame implies exists|
                            i2: int,
                        | 0 <= i2 < i + 1 && mesh_entry_from_prim(cache@[j2], prims@, i2) by {
                            if j2 != k {
                                assert(cache@[j2] == pre[j2]);
                                let i2 = choose|i2: int|
                                    0 <= i2 < i && mesh_entry_from_prim(pre[j2], prims@, i2);
                                assert(mesh_entry_from_prim(cache@[j2], prims@, i2));
                            }
                        }
                    }
                },
                None => {
                    let w = pr.max_x - pr.min_x;
                    let hh = pr.max_y - pr.min_y;
                    if !should_skip(w, hh) {
                        cache.push(
                            MeshCachedPrimitive {
                                hash: h,
                                inner: CacheReuse {
                                    z_order: i as u32,
                                    rect: pr,
                                    seen_this_frame: true,
                                    rendered_this_frame: true,
                                },
                                mesh_id: prims[i].mesh_id,
                            },
                        );
                        proof {
                            let m = pre.len();
                            assert(mesh_entry_from_prim(cache@[m as int], prims@, i as int));
                            assert forall|j1: int, j2: int|
                                #![trigger cache@[j1], cache@[j2]]
                                0 <= j1 < j2 < cache@.len() implies cache@[j1].hash
                                != cache@[j2].hash by {
                                if j2 == m {
                                    assert(cache@[j1] == pre[j1]);
                                } else {
                                    assert(cache@[j1] == pre[j1] && cache@[j2] == pre[j2]);
                                }
                            }
                            assert forall|j2: int|
                                0 <= j2 < cache@.len() && (#[trigger] cache@[j2]).inner.seen_this_frame
                                    && cache@[j2].inner.rendered_this_frame implies !hash_in_mesh_entries(
                                marked,
                                cache@[j2].hash,
                            ) by {
                                if j2 < m {
                                    assert(cache@[j2] == pre[j2]);
                                } else {
                                    if hash_in_mesh_entries(marked, h) {
                                        let j3 = choose|j3: int|
                                            0 <= j3 < marked.len() && (#[trigger] marked[j3]).hash
                                                == h;
                                        assert(pre[j3].hash == h);
                                        assert(hash_in_mesh_entries(pre, h));
                                    }
                                }
                            }
                            assert forall|j2: int|
                                0 <= j2 < cache@.len() && (#[trigger] cache@[j2]).inner.seen_this_frame implies exists|
                                i2: int,
                            | 0 <= i2 < i + 1 && mesh_entry_from_prim(cache@[j2], prims@, i2) by {
                                if j2 < m {
                                    assert(cache@[j2] == pre[j2]);
                                    let i2 = choose|i2: int|
                                        0 <= i2 < i && mesh_entry_from_prim(pre[j2], prims@, i2);
                                    assert(mesh_entry_from_prim(cache@[j2], prims@, i2));
                                }
                            }
                        }
                    }
                },
            }
            i = i + 1;
        }
        proof {
            assert(prims@.subrange(0, np as int) =~= prims@);
        }
        let ghost mid = cache@;

        let mut dirty = DirtyRect::new_empty();
        let nm = cache.len();
        let mut j2: usize = 0;
        while j2 < nm
            invariant
                nm == cache@.len(),
                j2 <= nm,
                cache@ == mid,
                dirty == mesh_dirty_union_prefix(cache@, j2 as int),
            decreases nm - j2,
        {
            let e = cache[j2];
            if !e.inner.seen_this_frame || e.inner.rendered_this_frame {
                if dirty.is_empty() {
                    dirty = e.inner.rect;
                } else {
                    dirty = dirty.union(e.inner.rect);
                }
            }
            j2 = j2 + 1;
        }
        let tiled_mode = self.caching() == SoftwareRenderCaching::MeshTiled;
        let dirty_empty = dirty.is_empty();
        if tiled_mode && !dirty_empty && !redraw_everything_this_frame {
            let mut changed: Vec<DirtyRect> = Vec::new();
            let mut j3: usize = 0;
            while j3 < nm
                invariant
                    nm == cache@.len(),
                    j3 <= nm,
                    cache@ == mid,
                    mesh_cache_wf(cache@),
                    forall|c: int|
                        0 <= c < changed@.len() ==> (#[trigger] changed@[c]).wf()
                            && changed@[c].max_x + TILE_SIZE <= u32::MAX && changed@[c].max_y
                            + TILE_SIZE <= u32::MAX,
                    forall|jc: int|
                        0 <= jc < j3 && mesh_entry_changed(#[trigger] cache@[jc]) ==> exists|c: int|
                            0 <= c < changed@.len() && changed@[c] == cache@[jc].inner.rect,
                decreases nm - j3,
            {
                let e = cache[j3];
                let ghost chb = changed@;
                if !e.inner.seen_this_frame || e.inner.rendered_this_frame {
                    changed.push(e.inner.rect);
                }
                proof {
                    assert forall|jc: int|
                        0 <= jc < j3 + 1 && mesh_entry_changed(#[trigger] cache@[jc]) implies exists|
                        c: int,
                    | 0 <= c < changed@.len() && changed@[c] == cache@[jc].inner.rect by {
                        if jc < j3 {
                            let c = choose|c: int|
                                0 <= c < chb.len() && chb[c] == cache@[jc].inner.rect;
                            assert(changed@[c] == cache@[jc].inner.rect);
                        } else {
                            assert(changed@[changed@.len() - 1] == cache@[jc].inner.rect);
                        }
                    }
                }
                j3 = j3 + 1;
            }
            self.dirty_rects.set_bboxes(&changed);
            proof {
                assert forall|jc: int|
                    0 <= jc < nm && mesh_entry_changed(#[trigger] mid[jc]) implies exists|c: int|
                    0 <= c < self.dirty_rects.bboxes@.len() && self.dirty_rects.bboxes@[c]
                        == crate::dirty_rect::spec_tiled_rect(mid[jc].inner.rect) by {
                    let c = choose|c: int| 0 <= c < changed@.len() && changed@[c] == mid[jc].inner.rect;
                    assert(self.dirty_rects.bboxes@[c] == crate::dirty_rect::spec_tiled_rect(
                        changed@[c],
                    ));
                }
            }
        }
        let mut kept: Vec<MeshCachedPrimitive> = Vec::new();
        let mut j4: usize = 0;
        while j4 < nm
            invariant
                nm == cache@.len(),
                j4 <= nm,
                cache@ == mid,
                mesh_cache_wf(cache@),
                forall|c: int|
                    #![trigger kept@[c]]
                    0 <= c < kept@.len() ==> exists|jk: int|
                        0 <= jk < j4 && kept@[c] == #[trigger] cache@[jk],
                forall|c: int| 0 <= c < kept@.len() ==> (#[trigger] kept@[c]).inner.seen_this_frame,
                forall|c1: int, c2: int|
                    #![trigger kept@[c1], kept@[c2]]
                    0 <= c1 < c2 < kept@.len() ==> kept@[c1].hash != kept@[c2].hash,
            decreases nm - j4,
        {
            let e = cache[j4];
            let ghost kb = kept@;
            if e.inner.seen_this_frame {
                kept.push(e);
                proof {
                    assert(kept@[kb.len() as int] == cache@[j4 as int]);
                    assert forall|c: int| #![trigger kept@[c]] 0 <= c < kept@.len() implies exists|
                        jk: int,
                    | 0 <= jk < j4 + 1 && kept@[c] == #[trigger] cache@[jk] by {
                        if c < kb.len() {
                            assert(kept@[c] == kb[c]);
                            let jk = choose|jk: int|
                                0 <= jk < j4 && kb[c] == #[trigger] cache@[jk];
                            assert(kept@[c] == cache@[jk]);
                        } else {
                            assert(kept@[c] == cache@[j4 as int]);
                        }
                    }
                    assert forall|c1: int, c2: int|
                        #![trigger kept@[c1], kept@[c2]]
                        0 <= c1 < c2 < kept@.len() implies kept@[c1].hash != kept@[c2].hash by {
                        if c2 == kb.len() {
                            assert(kept@[c1] == kb[c1]);
                            let jk = choose|jk: int|
                                0 <= jk < j4 && kb[c1] == #[trigger] cache@[jk];
                            assert(cache@[jk].hash != cache@[j4 as int].hash);
                        } else {
                            assert(kept@[c1] == kb[c1] && kept@[c2] == kb[c2]);
                        }
                    }
                }
            }
            j4 = j4 + 1;
        }
        self.dirtycached_primitives = kept;
        let result = if redraw_everything_this_frame {
            DirtyRect { min_x: 0, min_y: 0, max_x: width, max_y: height }
        } else {
            dirty
        };
        proof {
            assert(self.dirtycached_primitives@ == kept@);
            assert(mesh_entries_from_prims(self.dirtycached_primitives@, prims@)) by {
                assert forall|jf: int|
                    0 <= jf < self.dirtycached_primitives@.len() implies (
                #[trigger] self.dirtycached_primitives@[jf]).inner.seen_this_frame && (exists|
                    i2: int,
                |
                    0 <= i2 < prims@.len() && mesh_entry_from_prim(
                        self.dirtycached_primitives@[jf],
                        prims@,
                        i2,
                    )) by {
                    assert(self.dirtycached_primitives@ == kept@);
                    assert(self.dirtycached_primitives@[jf] == kept@[jf]);
                    let jk = choose|jk: int| 0 <= jk < nm && kept@[jf] == #[trigger] mid[jk];
                    assert(mid[jk].inner.seen_this_frame);
                    let i2 = choose|i2: int|
                        0 <= i2 < prims@.len() && mesh_entry_from_prim(mid[jk], prims@, i2);
                    assert(mesh_entry_from_prim(self.dirtycached_primitives@[jf], prims@, i2));
                }
            }
            if !redraw_everything_this_frame {
                assert(oldcache == pre_mark);
                assert forall|j0: int|
                    0 <= j0 < oldcache.len() implies (#[trigger] oldcache[j0]).hash
                    == marked[j0].hash && oldcache[j0].inner.rect == marked[j0].inner.rect by {
                    assert(mesh_marked_unseen(pre_mark[j0], marked[j0]));
                }
                // primitives whose hash vanished stay unseen, so they entered
                // the dirty union with their old rect
                assert forall|j0: int|
                    0 <= j0 < oldcache.len() && !hash_in_mesh_prims(
                        prims@,
                        (#[trigger] oldcache[j0]).hash,
                    ) implies {
                    let e = oldcache[j0].inner.rect;
                    result.min_x <= e.min_x && result.min_y <= e.min_y && e.max_x <= result.max_x
                        && e.max_y <= result.max_y
                } by {
                    assert(mid[j0] == marked[j0]);
                    assert(!mid[j0].inner.seen_this_frame);
                    lemma_mesh_union_contains(mid, nm as int, j0);
                }
                // every re-rendered kept entry entered the union too
                assert forall|jf: int|
                    0 <= jf < self.dirtycached_primitives@.len() && (
                #[trigger] self.dirtycached_primitives@[jf]).inner.rendered_this_frame implies {
                    let e = self.dirtycached_primitives@[jf].inner.rect;
                    result.min_x <= e.min_x && result.min_y <= e.min_y && e.max_x <= result.max_x
                        && e.max_y <= result.max_y
                } by {
                    assert(self.dirtycached_primitives@[jf] == kept@[jf]);
                    let jk = choose|jk: int| 0 <= jk < nm && kept@[jf] == #[trigger] mid[jk];
                    lemma_mesh_union_contains(mid, nm as int, jk);
                }
                if result.spec_is_empty() {
                    assert forall|jf: int|
                        0 <= jf < self.dirtycached_primitives@.len() implies !(
                    #[trigger] self.dirtycached_primitives@[jf]).inner.rendered_this_frame by {
                        assert(self.dirtycached_primitives@[jf] == kept@[jf]);
                        let jk = choose|jk: int| 0 <= jk < nm && kept@[jf] == #[trigger] mid[jk];
                        if mid[jk].inner.rendered_this_frame {
                            lemma_mesh_union_nonempty(mid, nm as int, jk);
                        }
                    }
                }
                if (forall|j0: int|
                    0 <= j0 < oldcache.len() ==> hash_in_mesh_prims(
                        prims@,
                        (#[trigger] oldcache[j0]).hash,
                    )) && (forall|i2: int|
                    0 <= i2 < prims@.len() ==> hash_in_mesh_entries(
                        oldcache,
                        (#[trigger] prims@[i2]).hash,
                    )) {
                    assert forall|jm: int| 0 <= jm < nm implies !mesh_entry_changed(
                        #[trigger] mid[jm],
                    ) by {
                        if jm < n0 {
                            assert(mid[jm].hash == marked[jm].hash);
                            assert(marked[jm].hash == oldcache[jm].hash);
                            assert(hash_in_mesh_prims(prims@, mid[jm].hash));
                            assert(mid[jm].inner.seen_this_frame);
                        } else {
                            assert(mid[jm].inner.seen_this_frame);
                        }
                        if mid[jm].inner.seen_this_frame && mid[jm].inner.rendered_this_frame {
                            assert(!hash_in_mesh_entries(marked, mid[jm].hash));
                            let i2 = choose|i2: int|
                                0 <= i2 < prims@.len() && mesh_entry_from_prim(
                                    mid[jm],
                                    prims@,
                                    i2,
                                );
                            assert(hash_in_mesh_entries(oldcache, prims@[i2].hash));
                            let j3 = choose|j3: int|
                                0 <= j3 < oldcache.len() && (#[trigger] oldcache[j3]).hash
                                    == mid[jm].hash;
                            assert(marked[j3].hash == mid[jm].hash);
                            assert(hash_in_mesh_entries(marked, mid[jm].hash));
                        }
                    }
                    lemma_mesh_no_change_no_dirty(mid, nm as int);
                }
                if tiled_mode && !dirty_empty {
                    assert forall|jf: int|
                        0 <= jf < self.dirtycached_primitives@.len() && (
                    #[trigger] self.dirtycached_primitives@[jf]).inner.rendered_this_frame implies exists|
                        c: int,
                    |
                        0 <= c < self.dirty_rects.bboxes@.len() && self.dirty_rects.bboxes@[c]
                            == crate::dirty_rect::spec_tiled_rect(
                            self.dirtycached_primitives@[jf].inner.rect,
                        ) by {
                        assert(self.dirtycached_primitives@[jf] == kept@[jf]);
                        let jk = choose|jk: int| 0 <= jk < nm && kept@[jf] == #[trigger] mid[jk];
                        assert(mesh_entry_changed(mid[jk]));
                        let c = choose|c: int|
                            0 <= c < self.dirty_rects.bboxes@.len()
                                && #[trigger] self.dirty_rects.bboxes@[c]
                                == crate::dirty_rect::spec_tiled_rect(mid[jk].inner.rect);
                    }
                }
            }
        }
        result
    }
}

/// The fields of the frame's primitives that the mesh-caching modes read.
pub open spec fn mesh_view(prims: Seq<PrimitiveInput>) -> Seq<MeshPrimInput> {
    prims.map_values(
        |p: PrimitiveInput| MeshPrimInput { hash: p.hash, rect: p.rect, mesh_id: p.mesh_id },
    )
}

impl EguiSoftwareRender {
    /// Render one frame into `buffer`.
    ///
    /// `Direct` redraws the whole buffer from the primitives. `BlendTiled`
    /// runs the bitmap cache and recomposites the dirty tiles of `buffer`
    /// (the persistent canvas). The mesh-caching modes update the mesh cache
    /// and the dirty region and leave `buffer` alone: re-rasterization of the
    /// cached meshes happens outside the crate, against the returned rect or
    /// [`ComputeTiledDirtyRects::intersections`].
    pub fn render(
        &mut self,
        buffer: &mut BufferMutRef,
        redraw_everything_this_frame: bool,
        prims: &Vec<PrimitiveInput>,
    ) -> (r: DirtyRect)
        requires
            old(self).wf(),
            old(buffer).wf(),
            old(buffer).width + TILE_SIZE <= u32::MAX,
            old(buffer).height + TILE_SIZE <= u32::MAX,
            old(buffer).width <= (u16::MAX as int) * (TILE_SIZE as int),
            old(buffer).height <= (u16::MAX as int) * (TILE_SIZE as int),
            !redraw_everything_this_frame ==> old(self).cached_size == ((
                old(buffer).width,
                old(buffer).height,
            )),
            old(self).caching == SoftwareRenderCaching::BlendTiled
                && !redraw_everything_this_frame ==> old(self).grid_covers(),
            forall|i: int| 0 <= i < prims@.len() ==> prim_wf(#[trigger] prims@[i]),
            prims@.len() <= u32::MAX,
            old(self).caching == SoftwareRenderCaching::Mesh || old(self).caching
                == SoftwareRenderCaching::MeshTiled ==> mesh_cache_wf(
                old(self).dirtycached_primitives@,
            ),
        ensures
            final(self).wf(),
            final(self).caching == old(self).caching,
            final(buffer).wf(),
            final(buffer).width == old(buffer).width,
            final(buffer).height == old(buffer).height,
            final(buffer).data@.len() == old(buffer).data@.len(),
            old(self).caching == SoftwareRenderCaching::Direct ==> *final(self) == *old(self) && r
                == (DirtyRect {
                min_x: 0,
                min_y: 0,
                max_x: old(buffer).width,
                max_y: old(buffer).height,
            }) && (forall|x: int, y: int|
                0 <= x < old(buffer).width && 0 <= y < old(buffer).height ==> (#[trigger] final(buffer).px(x, y))@ == composite_prims_prefix(prims@, prims@.len() as int, x, y, old(buffer).px(x, y)@)),
            old(self).caching == SoftwareRenderCaching::BlendTiled ==> {
                &&& final(self).grid_covers()
                &&& final(self).cached_size == ((old(buffer).width, old(buffer).height))
                &&& (redraw_everything_this_frame ==> r == (DirtyRect {
                    min_x: 0,
                    min_y: 0,
                    max_x: old(buffer).width,
                    max_y: old(buffer).height,
                }))
                &&& ((!redraw_everything_this_frame && (forall|j: int|
                    0 <= j < old(self).tiledcached_primitives@.len() ==> hash_in_prims(
                        prims@,
                        (#[trigger] old(self).tiledcached_primitives@[j]).hash,
                    )) && (forall|i: int|
                    0 <= i < prims@.len() && !prim_skipped(#[trigger] prims@[i])
                        ==> hash_in_entries(
                        old(self).tiledcached_primitives@,
                        prims@[i].hash,
                    ))) ==> (r.spec_is_empty() && final(buffer).data@ == old(buffer).data@))
                &&& ((!redraw_everything_this_frame && !r.spec_is_empty()) ==> {
                    &&& final(self).dirty_tiles@.len() == (final(self).tiles_dim[0] as int) * (
                    final(self).tiles_dim[1] as int)
                    &&& (forall|tx: int, ty: int, x: int, y: int|
                        #![trigger crate::tile_covers(tx, ty, x, y)]
                        0 <= tx < final(self).tiles_dim[0] && 0 <= ty < final(self).tiles_dim[1]
                            && crate::tile_covers(tx, ty, x, y) && 0 <= x < old(buffer).width && 0
                            <= y < old(buffer).height && tile_flag(
                            final(self).dirty_tiles@,
                            final(self).tiles_dim[0] as int,
                            tx,
                            ty,
                            DIRTY_TILE_MASK,
                        ) ==> final(buffer).px(x, y)@ == composite(
                            final(self).tiledcached_primitives@,
                            x,
                            y,
                        ))
                    &&& (forall|tx: int, ty: int, x: int, y: int|
                        #![trigger crate::tile_covers(tx, ty, x, y)]
                        0 <= tx < final(self).tiles_dim[0] && 0 <= ty < final(self).tiles_dim[1]
                            && crate::tile_covers(tx, ty, x, y) && 0 <= x < old(buffer).width && 0
                            <= y < old(buffer).height && !tile_flag(
                            final(self).dirty_tiles@,
                            final(self).tiles_dim[0] as int,
                            tx,
                            ty,
                            DIRTY_TILE_MASK,
                        ) ==> final(buffer).px(x, y) == old(buffer).px(x, y))
                })
                &&& (!redraw_everything_this_frame ==> (forall|j: int|
                    0 <= j < final(self).tiledcached_primitives@.len() && (#[trigger] final(self).tiledcached_primitives@[j]).inner.rendered_this_frame ==> {
                        let e = final(self).tiledcached_primitives@[j].inner.rect;
                        r.min_x <= e.min_x && r.min_y <= e.min_y && e.max_x <= r.max_x && e.max_y
                            <= r.max_y
                    }))
                &&& tiled_entries_from_prims(final(self).tiledcached_primitives@, prims@)
                &&& (forall|j: int|
                    0 <= j < final(self).tiledcached_primitives@.len() ==> (#[trigger] final(self).tiledcached_primitives@[j]).inner.seen_this_frame)
                &&& (forall|i: int|
                    0 <= i < prims@.len() && !prim_skipped(#[trigger] prims@[i])
                        ==> hash_in_entries(
                        final(self).tiledcached_primitives@,
                        prims@[i].hash,
                    ))
                &&& (!redraw_everything_this_frame ==> (forall|j: int|
                    0 <= j < final(self).tiledcached_primitives@.len() ==> ((#[trigger] final(self).tiledcached_primitives@[j]).inner.rendered_this_frame <==> !hash_in_entries(
                        old(self).tiledcached_primitives@,
                        final(self).tiledcached_primitives@[j].hash,
                    ))))
                &&& (redraw_everything_this_frame ==> (forall|j: int|
                    0 <= j < final(self).tiledcached_primitives@.len() ==> (#[trigger] final(self).tiledcached_primitives@[j]).inner.rendered_this_frame))
                &&& ((redraw_everything_this_frame && (exists|i: int|
                    0 <= i < prims@.len() && !prim_skipped(#[trigger] prims@[i]))) ==> final(self).dirty_tiles@.len() == (final(self).tiles_dim[0] as int) * (final(self).tiles_dim[1] as int)
                    && final(self).tiles_dim[0] >= 1 && final(self).tiles_dim[1] >= 1)
                &&& ((!redraw_everything_this_frame && !r.spec_is_empty()) ==> final(self).tiles_dim[0] >= 1 && final(self).tiles_dim[1] >= 1)
                &&& ((!redraw_everything_this_frame && !r.spec_is_empty()) ==> {
                    let kept = final(self).tiledcached_primitives@;
                    let olds = old(self).tiledcached_primitives@;
                    &&& (exists|b: DirtyRect|
                        changed_rect_of_frame(kept, olds, prims@, b) && #[trigger] b.min_x
                            == r.min_x)
                    &&& (exists|b: DirtyRect|
                        changed_rect_of_frame(kept, olds, prims@, b) && #[trigger] b.min_y
                            == r.min_y)
                    &&& (exists|b: DirtyRect|
                        changed_rect_of_frame(kept, olds, prims@, b) && #[trigger] b.max_x
                            == r.max_x)
                    &&& (exists|b: DirtyRect|
                        changed_rect_of_frame(kept, olds, prims@, b) && #[trigger] b.max_y
                            == r.max_y)
                })
                &&& (!redraw_everything_this_frame ==> (forall|j: int|
                    0 <= j < old(self).tiledcached_primitives@.len() && !hash_in_prims(
                        prims@,
                        (#[trigger] old(self).tiledcached_primitives@[j]).hash,
                    ) ==> {
                        let e = old(self).tiledcached_primitives@[j].inner.rect;
                        r.min_x <= e.min_x && r.min_y <= e.min_y && e.max_x <= r.max_x && e.max_y
                            <= r.max_y
                    }))
                &&& ((redraw_everything_this_frame && fresh_frame(Seq::empty(), prims@) && (forall|
                    x: int,
                    y: int,
                |
                    0 <= x < old(buffer).width && 0 <= y < old(buffer).height ==> (#[trigger] old(buffer).px(x, y))@ == zero_px())) ==> {
                    &&& final(self).tiledcached_primitives@.len() == prims@.len()
                    &&& (forall|k: int|
                        0 <= k < prims@.len() ==> entry_matches_prim(
                            #[trigger] final(self).tiledcached_primitives@[k],
                            prims@[k],
                            k,
                        ))
                    &&& (forall|x: int, y: int|
                        0 <= x < old(buffer).width && 0 <= y < old(buffer).height ==> (
                        #[trigger] final(buffer).px(x, y))@ == composite(
                            final(self).tiledcached_primitives@,
                            x,
                            y,
                        ))
                })
            },
            old(self).caching == SoftwareRenderCaching::Mesh || old(self).caching
                == SoftwareRenderCaching::MeshTiled ==> {
                &&& final(buffer).data@ == old(buffer).data@
                &&& final(self).cached_size == ((old(buffer).width, old(buffer).height))
                &&& final(self).tiledcached_primitives == old(self).tiledcached_primitives
                &&& mesh_cache_wf(final(self).dirtycached_primitives@)
                &&& mesh_entries_from_prims(
                    final(self).dirtycached_primitives@,
                    mesh_view(prims@),
                )
                &&& (redraw_everything_this_frame ==> r == (DirtyRect {
                    min_x: 0,
                    min_y: 0,
                    max_x: old(buffer).width,
                    max_y: old(buffer).height,
                }))
                &&& ((!redraw_everything_this_frame && (forall|j: int|
                    0 <= j < old(self).dirtycached_primitives@.len() ==> hash_in_prims(
                        prims@,
                        (#[trigger] old(self).dirtycached_primitives@[j]).hash,
                    )) && (forall|i: int|
                    0 <= i < prims@.len() ==> hash_in_mesh_entries(
                        old(self).dirtycached_primitives@,
                        (#[trigger] prims@[i]).hash,
                    ))) ==> r.spec_is_empty())
                &&& ((!redraw_everything_this_frame && r.spec_is_empty()) ==> forall|j: int|
                    0 <= j < final(self).dirtycached_primitives@.len() ==> !(#[trigger] final(self).dirtycached_primitives@[j]).inner.rendered_this_frame)
                &&& (!redraw_everything_this_frame ==> (forall|j: int|
                    0 <= j < final(self).dirtycached_primitives@.len() && (#[trigger] final(self).dirtycached_primitives@[j]).inner.rendered_this_frame ==> {
                        let e = final(self).dirtycached_primitives@[j].inner.rect;
                        r.min_x <= e.min_x && r.min_y <= e.min_y && e.max_x <= r.max_x && e.max_y
                            <= r.max_y
                    }))
                &&& (!redraw_everything_this_frame ==> (forall|j: int|
                    0 <= j < old(self).dirtycached_primitives@.len() && !hash_in_prims(
                        prims@,
                        (#[trigger] old(self).dirtycached_primitives@[j]).hash,
                    ) ==> {
                        let e = old(self).dirtycached_primitives@[j].inner.rect;
                        r.min_x <= e.min_x && r.min_y <= e.min_y && e.max_x <= r.max_x && e.max_y
                            <= r.max_y
                    }))
                &&& ((old(self).caching == SoftwareRenderCaching::MeshTiled && !r.spec_is_empty()
                    && !redraw_everything_this_frame) ==> {
                    &&& (forall|i: int, j: int, x: int, y: int|
                        #![trigger final(self).dirty_rects.minimal_non_overlapping_bboxes@[i].contains(x, y), final(self).dirty_rects.minimal_non_overlapping_bboxes@[j].contains(x, y)]
                        0 <= i < j < final(self).dirty_rects.minimal_non_overlapping_bboxes@.len()
                            ==> !(final(self).dirty_rects.minimal_non_overlapping_bboxes@[i].contains(x, y) && final(self).dirty_rects.minimal_non_overlapping_bboxes@[j].contains(x, y)))
                    &&& (forall|x: int, y: int|
                        #![all_triggers]
                        crate::dirty_rect::rects_cover(
                            final(self).dirty_rects.minimal_non_overlapping_bboxes@,
                            x,
                            y,
                        ) == crate::dirty_rect::rects_cover(final(self).dirty_rects.bboxes@, x, y))
                })
            },
    {
        let mode = self.caching();
        if mode == SoftwareRenderCaching::Direct {
            let w = buffer.width;
            let h = buffer.height;
            render_direct(buffer, prims);
            DirtyRect { min_x: 0, min_y: 0, max_x: w, max_y: h }
        } else if mode == SoftwareRenderCaching::BlendTiled {
            self.render_blendtiled(buffer, redraw_everything_this_frame, prims)
        } else {
            let w = buffer.width;
            let h = buffer.height;
            let np = prims.len();
            let mut mp: Vec<MeshPrimInput> = Vec::new();
            let mut k: usize = 0;
            while k < np
                invariant
                    np == prims@.len(),
                    k <= np,
                    mp@.len() == k,
                    forall|t: int|
                        0 <= t < k ==> #[trigger] mp@[t] == (MeshPrimInput {
                            hash: prims@[t].hash,
                            rect: prims@[t].rect,
                            mesh_id: prims@[t].mesh_id,
                        }),
                decreases np - k,
            {
                mp.push(
                    MeshPrimInput {
                        hash: prims[k].hash,
                        rect: prims[k].rect,
                        mesh_id: prims[k].mesh_id,
                    },
                );
                k = k + 1;
            }
            proof {
                assert(mp@ =~= mesh_view(prims@));
                assert forall|i: int| 0 <= i < mp@.len() implies mesh_prim_wf(
                    #[trigger] mp@[i],
                ) by {
                    assert(prim_wf(prims@[i]));
                }
                assert forall|g: u32| true implies (hash_in_mesh_prims(mp@, g) == hash_in_prims(
                    prims@,
                    g,
                )) by {
                    if hash_in_mesh_prims(mp@, g) {
                        let i = choose|i: int| 0 <= i < mp@.len() && (#[trigger] mp@[i]).hash == g;
                        assert(prims@[i].hash == g);
                    }
                    if hash_in_prims(prims@, g) {
                        let i = choose|i: int|
                            0 <= i < prims@.len() && (#[trigger] prims@[i]).hash == g;
                        assert(mp@[i].hash == g);
                    }
                }
            }
            self.render_meshmaybetiled(w, h, redraw_everything_this_frame, &mp)
        }
    }
}

/// The renderer together with its persistent off-screen canvas.
#[derive(Debug)]
pub struct EguiSoftwareRenderCanvas {
    /// Premultiplied canvas pixels, `cached_size` sized.
    pub canvas: Vec<[u8; 4]>,
    pub renderer: EguiSoftwareRender,
}

impl EguiSoftwareRender {
    /// Wrap the renderer with an internally owned canvas.
    pub fn with_canvas(self) -> (r: EguiSoftwareRenderCanvas)
        ensures
            r.renderer == self,
            r.canvas@.len() == 0,
    {
        EguiSoftwareRenderCanvas { canvas: Vec::new(), renderer: self }
    }
}

impl EguiSoftwareRenderCanvas {
    /// Render a frame into `buffer`.
    ///
    /// In the bitmap-caching mode the frame is drawn into the internal
    /// canvas — resized and cleared when the buffer size changed — and the
    /// tiles of the canvas that hold any content are then blended over the
    /// corresponding tiles of `buffer`. In the mesh-caching modes the cache
    /// bookkeeping runs and the dirty region of the canvas is blended over
    /// `buffer` (the caller re-rasterizes the cached meshes into the canvas
    /// between frames). The direct mode blends every primitive straight into
    /// `buffer`.
    pub fn render(
        &mut self,
        buffer: &mut BufferMutRef,
        prims: &Vec<PrimitiveInput>,
    ) -> (r: DirtyRect)
        requires
            old(self).renderer.wf(),
            old(buffer).wf(),
            old(buffer).width + TILE_SIZE <= u32::MAX,
            old(buffer).height + TILE_SIZE <= u32::MAX,
            old(buffer).width <= (u16::MAX as int) * (TILE_SIZE as int),
            old(buffer).height <= (u16::MAX as int) * (TILE_SIZE as int),
            forall|i: int| 0 <= i < prims@.len() ==> prim_wf(#[trigger] prims@[i]),
            prims@.len() <= u32::MAX,
            old(self).renderer.cached_size == ((old(buffer).width, old(buffer).height))
                && old(self).renderer.caching == SoftwareRenderCaching::BlendTiled ==> old(self).renderer.grid_covers(),
            old(self).renderer.caching == SoftwareRenderCaching::Mesh || old(self).renderer.caching == SoftwareRenderCaching::MeshTiled ==> mesh_cache_wf(
                old(self).renderer.dirtycached_primitives@,
            ),
        ensures
            final(self).renderer.wf(),
            final(buffer).wf(),
            final(buffer).width == old(buffer).width,
            final(buffer).height == old(buffer).height,
            final(buffer).data@.len() == old(buffer).data@.len(),
            final(self).renderer.caching == old(self).renderer.caching,
            old(self).renderer.caching == SoftwareRenderCaching::Direct ==> *final(self) == *old(self) && r == (DirtyRect {
                min_x: 0,
                min_y: 0,
                max_x: old(buffer).width,
                max_y: old(buffer).height,
            }) && (forall|x: int, y: int|
                0 <= x < old(buffer).width && 0 <= y < old(buffer).height ==> (#[trigger] final(buffer).px(x, y))@ == composite_prims_prefix(prims@, prims@.len() as int, x, y, old(buffer).px(x, y)@)),
            old(self).renderer.caching == SoftwareRenderCaching::BlendTiled ==> {
                let w = old(buffer).width;
                let h = old(buffer).height;
                let redraw = old(self).renderer.cached_size != ((w, h));
                let tiles_x = final(self).renderer.tiles_dim[0];
                let tiles_y = final(self).renderer.tiles_dim[1];
                let blitted = final(self).renderer.dirty_tiles@.len() == (tiles_x as int) * (
                tiles_y as int) && tiles_x > 0 && tiles_y > 0;
                &&& final(self).renderer.grid_covers()
                &&& final(self).renderer.cached_size == ((w, h))
                &&& final(self).canvas@.len() == w * h
                &&& (redraw ==> r == (DirtyRect { min_x: 0, min_y: 0, max_x: w, max_y: h }))
                &&& ((redraw && (exists|i: int|
                    0 <= i < prims@.len() && !prim_skipped(#[trigger] prims@[i]))) ==> blitted)
                &&& ((!redraw && !r.spec_is_empty()) ==> blitted)
                &&& ((!redraw && old(self).canvas@.len() == w * h && (forall|j: int|
                    0 <= j < old(self).renderer.tiledcached_primitives@.len() ==> hash_in_prims(
                        prims@,
                        (#[trigger] old(self).renderer.tiledcached_primitives@[j]).hash,
                    )) && (forall|i: int|
                    0 <= i < prims@.len() && !prim_skipped(#[trigger] prims@[i])
                        ==> hash_in_entries(
                        old(self).renderer.tiledcached_primitives@,
                        prims@[i].hash,
                    ))) ==> (r.spec_is_empty() && final(self).canvas@ == old(self).canvas@))
                &&& ((!redraw && old(self).canvas@.len() == w * h && !r.spec_is_empty()) ==> {
                    &&& (forall|tx: int, ty: int, x: int, y: int|
                        #![trigger crate::tile_covers(tx, ty, x, y)]
                        0 <= tx < tiles_x && 0 <= ty < tiles_y && crate::tile_covers(tx, ty, x, y)
                            && 0 <= x < w && 0 <= y < h && tile_flag(
                            final(self).renderer.dirty_tiles@,
                            tiles_x as int,
                            tx,
                            ty,
                            DIRTY_TILE_MASK,
                        ) ==> final(self).canvas@[y * w + x]@ == composite(
                            final(self).renderer.tiledcached_primitives@,
                            x,
                            y,
                        ))
                    &&& (forall|tx: int, ty: int, x: int, y: int|
                        #![trigger crate::tile_covers(tx, ty, x, y)]
                        0 <= tx < tiles_x && 0 <= ty < tiles_y && crate::tile_covers(tx, ty, x, y)
                            && 0 <= x < w && 0 <= y < h && !tile_flag(
                            final(self).renderer.dirty_tiles@,
                            tiles_x as int,
                            tx,
                            ty,
                            DIRTY_TILE_MASK,
                        ) ==> final(self).canvas@[y * w + x] == old(self).canvas@[y * w + x])
                })
                &&& ((redraw && fresh_frame(Seq::empty(), prims@)) ==> {
                    &&& final(self).renderer.tiledcached_primitives@.len() == prims@.len()
                    &&& (forall|k: int|
                        0 <= k < prims@.len() ==> entry_matches_prim(
                            #[trigger] final(self).renderer.tiledcached_primitives@[k],
                            prims@[k],
                            k,
                        ))
                    &&& (forall|x: int, y: int|
                        0 <= x < w && 0 <= y < h ==> (#[trigger] final(self).canvas@[y * w + x])@
                            == composite(final(self).renderer.tiledcached_primitives@, x, y))
                })
                &&& (blitted ==> (forall|tx: int, ty: int, x: int, y: int|
                    #![trigger crate::tile_covers(tx, ty, x, y)]
                    0 <= tx < tiles_x && 0 <= ty < tiles_y && crate::tile_covers(tx, ty, x, y) && 0
                        <= x < w && 0 <= y < h ==> ((tile_flag(
                        final(self).renderer.dirty_tiles@,
                        tiles_x as int,
                        tx,
                        ty,
                        crate::render::OCCUPIED_TILE_MASK,
                    ) ==> final(buffer).px(x, y)@ == crate::pixel::blend_px(
                        final(self).canvas@[y * w + x]@,
                        old(buffer).px(x, y)@,
                    )) && (!tile_flag(
                        final(self).renderer.dirty_tiles@,
                        tiles_x as int,
                        tx,
                        ty,
                        crate::render::OCCUPIED_TILE_MASK,
                    ) ==> final(buffer).px(x, y) == old(buffer).px(x, y)))))
                &&& (!blitted ==> final(buffer).data@ == old(buffer).data@)
            },
            old(self).renderer.caching == SoftwareRenderCaching::Mesh || old(self).renderer.caching == SoftwareRenderCaching::MeshTiled ==> {
                let w = old(buffer).width;
                let h = old(buffer).height;
                let redraw = old(self).renderer.cached_size != ((w, h));
                let c = r.spec_intersection(
                    DirtyRect { min_x: 0, min_y: 0, max_x: w, max_y: h },
                );
                &&& final(self).renderer.cached_size == ((w, h))
                &&& final(self).canvas@.len() == w * h
                &&& (redraw ==> r == (DirtyRect { min_x: 0, min_y: 0, max_x: w, max_y: h }))
                &&& ((c.min_x < c.max_x && c.min_y < c.max_y) ==> {
                    &&& (forall|x: int, y: int|
                        c.contains(x, y) ==> (#[trigger] final(buffer).px(x, y))@
                            == crate::pixel::blend_px(
                            final(self).canvas@[y * w + x]@,
                            old(buffer).px(x, y)@,
                        ))
                    &&& (forall|x: int, y: int|
                        0 <= x < w && 0 <= y < h && !c.contains(x, y) ==> (#[trigger] final(buffer).px(x, y)) == old(buffer).px(x, y))
                })
                &&& (!(c.min_x < c.max_x && c.min_y < c.max_y) ==> final(buffer).data@ == old(buffer).data@)
            },
    {
        let w = buffer.width;
        let h = buffer.height;
        if self.renderer.caching() == SoftwareRenderCaching::Direct {
            render_direct(buffer, prims);
            return DirtyRect { min_x: 0, min_y: 0, max_x: w, max_y: h };
        }
        let sz = self.renderer.cached_size();
        let redraw = !(sz.0 == w && sz.1 == h);
        let mut data: Vec<[u8; 4]> = Vec::new();
        core::mem::swap(&mut self.canvas, &mut data);
        let ghost canvas0 = data@;
        if redraw || data.len() != as_usize_mul(w, h) {
            data = zero_pixels(as_usize_mul(w, h));
        }
        let mut cbuf = BufferMutRef::new(data, w, h);
        let ghost cbuf0 = cbuf;
        let dirty: DirtyRect;
        if self.renderer.caching() == SoftwareRenderCaching::BlendTiled {
            dirty = self.renderer.render_blendtiled(&mut cbuf, redraw, prims);
            let tiles_x = self.renderer.tiles_dim[0];
            let tiles_y = self.renderer.tiles_dim[1];
            let blit_ok = self.renderer.dirty_tiles.len() == as_usize_mul(tiles_x, tiles_y)
                && tiles_x > 0 && tiles_y > 0;
            if blit_ok {
                crate::render::blit_to_buffer_from_tiledcanvas(
                    &self.renderer.dirty_tiles,
                    tiles_x,
                    tiles_y,
                    &cbuf,
                    buffer,
                );
            }
        } else {
            // mesh-caching bookkeeping; the canvas content is the caller's
            dirty = self.renderer.render(&mut cbuf, redraw, prims);
            let full = DirtyRect { min_x: 0, min_y: 0, max_x: w, max_y: h };
            let c = dirty.intersection(full);
            if c.min_x < c.max_x && c.min_y < c.max_y {
                crate::render::blit_rect(&cbuf, buffer, c, 0);
            }
        }
        proof {
            assert forall|x: int, y: int|
                #![trigger cbuf.px(x, y)]
                #![trigger cbuf.data@[y * w + x]]
                0 <= x < w && 0 <= y < h implies cbuf.px(x, y) == cbuf.data@[y * w + x] by {
                cbuf.lemma_span_bounds(x + 1, y);
            }
            assert forall|x: int, y: int|
                #![trigger cbuf0.px(x, y)]
                #![trigger cbuf0.data@[y * w + x]]
                0 <= x < w && 0 <= y < h implies cbuf0.px(x, y) == cbuf0.data@[y * w + x] by {
                cbuf0.lemma_span_bounds(x + 1, y);
            }
            if !redraw && canvas0.len() == w * h {
                assert(cbuf0.data@ == canvas0);
            }
            if redraw {
                assert forall|x: int, y: int| 0 <= x < w && 0 <= y < h implies (#[trigger] cbuf0.px(
                    x,
                    y,
                ))@ == zero_px() by {
                    cbuf0.lemma_span_bounds(x + 1, y);
                    assert(cbuf0.px(x, y) == cbuf0.data@[y * w + x]);
                    assert(cbuf0.data@[y * w + x] == ([0u8, 0u8, 0u8, 0u8]));
                    assert(cbuf0.px(x, y)@ =~= zero_px());
                }
            }
        }
        let BufferMutRef { data: done, .. } = cbuf;
        self.canvas = done;
        dirty
    }
}

/// `a * b` as a `usize`, for buffer sizes that fit the renderer's `u32`
/// index arithmetic.
pub fn as_usize_mul(a: u32, b: u32) -> (r: usize)
    requires
        (a as int) * (b as int) <= u32::MAX,
    ensures
        r == (a as int) * (b as int),
{
    proof {
        vstd::arithmetic::mul::lemma_mul_nonnegative(a as int, b as int);
    }
    (a as usize) * (b as usize)
}

/// A vector of `n` transparent pixels.
pub fn zero_pixels(n: usize) -> (r: Vec<[u8; 4]>)
    ensures
        r@.len() == n,
        forall|i: int| 0 <= i < n ==> r@[i] == ([0u8, 0u8, 0u8, 0u8]),
{
    let mut out: Vec<[u8; 4]> = Vec::new();
    let mut i: usize = 0;
    while i < n
        invariant
            i <= n,
            out@.len() == i,
            forall|j: int| 0 <= j < i ==> out@[j] == ([0u8, 0u8, 0u8, 0u8]),
        decreases n - i,
    {
        out.push([0u8, 0u8, 0u8, 0u8]);
        i = i + 1;
    }
    out
}

} // verus!
