//! Verified core of a CPU software renderer for an immediate-mode UI.
//!
//! The crate covers the integer heart of the renderer: premultiplied-alpha
//! pixel blending, the order-sensitive primitive hash, integer dirty
//! rectangles with their tiled non-overlapping decomposition, per-primitive
//! bitmap caching with tile occupancy, and the tile compositor that rebuilds
//! only the tiles that changed between frames.
//!
//! Screen-space mesh preparation and triangle rasterization work on `f32`
//! coordinates and live outside the verified core; they hand this crate plain
//! integer data (rects, pixel rows, hash inputs) and take plain data back.

use vstd::prelude::*;

pub mod buffer;
pub mod cache;
pub mod dirty_rect;
pub mod frame;
pub mod hash;
pub mod pixel;
pub mod render;
pub mod texture;

pub use buffer::{as_usize, BufferMutRef, BufferRef};
pub use cache::{CacheReuse, TiledCachedPrimitive};
pub use dirty_rect::{ComputeTiledDirtyRects, DirtyRect};
pub use frame::{
    ColorFieldOrder, EguiSoftwareRender, EguiSoftwareRenderCanvas, MeshCachedPrimitive,
    MeshPrimInput, PrimitiveInput, SoftwareRenderCaching,
};
pub use hash::{Hash32, HashVertex};
pub use texture::{Texture, TextureStore};

verus! {

/// Side length in pixels of the square regions used for dirty tracking.
pub const TILE_SIZE: u32 = 64;

/// Whether pixel `(x, y)` lies inside tile `(tx, ty)`.
pub open spec fn tile_covers(tx: int, ty: int, x: int, y: int) -> bool {
    &&& tx * (TILE_SIZE as int) <= x < (tx + 1) * (TILE_SIZE as int)
    &&& ty * (TILE_SIZE as int) <= y < (ty + 1) * (TILE_SIZE as int)
}

/// Two tiles covering the same pixel are the same tile.
pub proof fn lemma_tile_covers_unique(tx1: int, ty1: int, tx2: int, ty2: int, x: int, y: int)
    requires
        tile_covers(tx1, ty1, x, y),
        tile_covers(tx2, ty2, x, y),
    ensures
        tx1 == tx2,
        ty1 == ty2,
{
    assert(tx1 == tx2) by (nonlinear_arith)
        requires
            tx1 * 64 <= x < (tx1 + 1) * 64,
            tx2 * 64 <= x < (tx2 + 1) * 64,
    ;
    assert(ty1 == ty2) by (nonlinear_arith)
        requires
            ty1 * 64 <= y < (ty1 + 1) * 64,
            ty2 * 64 <= y < (ty2 + 1) * 64,
    ;
}

/// Every pixel of a `w * h` image covered by the tile grid lies in the tile
/// given by dividing its coordinates by the tile size.
pub proof fn lemma_pixel_in_tile(x: int, y: int, w: int, h: int, tiles_x: int, tiles_y: int)
    requires
        0 <= x < w,
        0 <= y < h,
        w <= tiles_x * (TILE_SIZE as int),
        h <= tiles_y * (TILE_SIZE as int),
    ensures
        tile_covers(x / (TILE_SIZE as int), y / (TILE_SIZE as int), x, y),
        0 <= x / (TILE_SIZE as int) < tiles_x,
        0 <= y / (TILE_SIZE as int) < tiles_y,
{
    assert(x / 64 * 64 <= x < (x / 64 + 1) * 64) by (nonlinear_arith)
        requires
            0 <= x,
    ;
    assert(y / 64 * 64 <= y < (y / 64 + 1) * 64) by (nonlinear_arith)
        requires
            0 <= y,
    ;
    assert(x / 64 < tiles_x) by (nonlinear_arith)
        requires
            0 <= x,
            x < tiles_x * 64,
    ;
    assert(y / 64 < tiles_y) by (nonlinear_arith)
        requires
            0 <= y,
            y < tiles_y * 64,
    ;
}

pub fn min_u32(a: u32, b: u32) -> (r: u32)
    ensures
        r == if a <= b {
            a
        } else {
            b
        },
{
    if a <= b {
        a
    } else {
        b
    }
}

pub fn max_u32(a: u32, b: u32) -> (r: u32)
    ensures
        r == if a >= b {
            a
        } else {
            b
        },
{
    if a >= b {
        a
    } else {
        b
    }
}

} // verus!
