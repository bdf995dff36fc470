//! Premultiplied-alpha pixel operations on 8-bit unorm channels.
//!
//! All color math follows the canonical blend `dst <- src + dst*(255 - src_a)`
//! with the `+128; add high byte; shift` rounding, and the unorm channel
//! product `a*b/255` with the same rounding. Every row kernel states
//! element-for-element equality with the scalar reference [`blend_px`], so all
//! of them produce bit-identical output.

use vstd::prelude::*;

verus! {

/// Rounded byte product `a*b/255`, computed as `(t + t/256)/256` with
/// `t = a*b + 128`. For `a, b` in `0..=255` the result is in `0..=255`.
pub open spec fn unorm_scale(a: int, b: int) -> int {
    let t = a * b + 128;
    (t + t / 256) / 256
}

/// One channel of the premultiplied blend: source channel plus the destination
/// channel scaled by the complement of the source alpha, saturating at 255.
pub open spec fn blend_channel(s: int, d: int, a: int) -> int {
    let v = s + unorm_scale(d, 255 - a);
    if v >= 255 {
        255
    } else {
        v
    }
}

/// Scalar reference for the premultiplied blend of one RGBA pixel.
pub open spec fn blend_px(src: Seq<u8>, dst: Seq<u8>) -> Seq<u8> {
    Seq::new(4, |i: int| blend_channel(src[i] as int, dst[i] as int, src[3] as int) as u8)
}

/// Channel-wise unorm product of two pixels (vertex-color modulation).
pub open spec fn unorm_px(a: Seq<u8>, b: Seq<u8>) -> Seq<u8> {
    Seq::new(4, |i: int| unorm_scale(a[i] as int, b[i] as int) as u8)
}

/// Some byte of the pixel is non-zero, i.e. its 32-bit word is non-zero;
/// both color and alpha participate.
pub open spec fn px_nonzero(p: [u8; 4]) -> bool {
    p@[0] != 0 || p@[1] != 0 || p@[2] != 0 || p@[3] != 0
}

/// A fully zero pixel blends as the identity; stated pointwise over a pixel
/// value for use by the tile compositor.
pub proof fn lemma_blend_zero_px(z: [u8; 4], dst: Seq<u8>)
    requires
        !px_nonzero(z),
        dst.len() == 4,
    ensures
        blend_px(z@, dst) == dst,
{
    assert(z@ =~= seq![0u8, 0u8, 0u8, 0u8]);
    lemma_blend_transparent_identity(dst);
}

pub proof fn lemma_unorm_scale_bounds(a: int, b: int)
    requires
        0 <= a <= 255,
        0 <= b <= 255,
    ensures
        0 <= unorm_scale(a, b) <= 255,
{
    let t = a * b + 128;
    assert(a * b <= 255 * 255) by (nonlinear_arith)
        requires
            0 <= a <= 255,
            0 <= b <= 255,
    ;
    assert(t <= 65153);
    assert(t / 256 <= 254);
    assert((t + t / 256) / 256 <= 255);
}

/// One channel of the blend, on machine integers. The division by 256 is the
/// `>> 8` of the classical trick written as arithmetic.
fn blend_channel_u8(s: u8, d: u8, a: u8) -> (r: u8)
    ensures
        r == blend_channel(s as int, d as int, a as int),
{
    let ca: u32 = 255 - (a as u32);
    proof {
        assert((d as int) * (ca as int) <= 255 * 255) by (nonlinear_arith)
            requires
                0 <= d as int <= 255,
                0 <= ca as int <= 255,
        ;
        lemma_unorm_scale_bounds(d as int, ca as int);
    }
    let t: u32 = (d as u32) * ca + 128;
    let v: u32 = (t + t / 256) / 256;
    let sum: u32 = (s as u32) + v;
    if sum >= 255 {
        255
    } else {
        sum as u8
    }
}

/// Scalar premultiplied blend of one pixel: `blend(src, dst)` as unorm, with
/// blend function `(ONE, ONE_MINUS_SRC_ALPHA)`.
pub fn egui_blend_u8(src: [u8; 4], dst: [u8; 4]) -> (r: [u8; 4])
    ensures
        r@ == blend_px(src@, dst@),
{
    let a = src[3];
    let r = [
        blend_channel_u8(src[0], dst[0], a),
        blend_channel_u8(src[1], dst[1], a),
        blend_channel_u8(src[2], dst[2], a),
        blend_channel_u8(src[3], dst[3], a),
    ];
    proof {
        assert(r@ =~= blend_px(src@, dst@));
    }
    r
}

/// Channel-wise unorm product of two pixels.
fn unorm_channel_u8(x: u8, y: u8) -> (r: u8)
    ensures
        r == unorm_scale(x as int, y as int),
{
    proof {
        assert((x as int) * (y as int) <= 255 * 255) by (nonlinear_arith)
            requires
                0 <= x as int <= 255,
                0 <= y as int <= 255,
        ;
        lemma_unorm_scale_bounds(x as int, y as int);
    }
    let t: u32 = (x as u32) * (y as u32) + 128;
    ((t + t / 256) / 256) as u8
}

/// Unorm multiply of all four channels (vertex-color times texel).
pub fn unorm_mult4x4(x: [u8; 4], y: [u8; 4]) -> (r: [u8; 4])
    ensures
        r@ == unorm_px(x@, y@),
{
    let r = [
        unorm_channel_u8(x[0], y[0]),
        unorm_channel_u8(x[1], y[1]),
        unorm_channel_u8(x[2], y[2]),
        unorm_channel_u8(x[3], y[3]),
    ];
    proof {
        assert(r@ =~= unorm_px(x@, y@));
    }
    r
}

/// Blend `n` pixels of `src` starting at `src_start` over `dst` starting at
/// `dst_start`; pixels of `dst` outside that range are untouched.
pub fn blend_range(
    src: &[[u8; 4]],
    src_start: usize,
    dst: &mut Vec<[u8; 4]>,
    dst_start: usize,
    n: usize,
)
    requires
        src_start + n <= src@.len(),
        dst_start + n <= old(dst)@.len(),
    ensures
        final(dst)@.len() == old(dst)@.len(),
        forall|i: int|
            dst_start <= i < dst_start + n ==> final(dst)@[i]@ == blend_px(
                src@[i - dst_start + src_start]@,
                old(dst)@[i]@,
            ),
        forall|i: int|
            0 <= i < old(dst)@.len() && !(dst_start <= i < dst_start + n) ==> final(dst)@[i]
                == old(dst)@[i],
{
    let src_len: usize = src.len();
    let dst_len: usize = dst.len();
    let mut k: usize = 0;
    while k < n
        invariant
            src_start + n <= src_len == src@.len(),
            dst_start + n <= dst_len,
            dst_start + n <= dst@.len(),
            dst@.len() == old(dst)@.len(),
            k <= n,
            forall|i: int|
                dst_start <= i < dst_start + k ==> dst@[i]@ == blend_px(
                    src@[i - dst_start + src_start]@,
                    old(dst)@[i]@,
                ),
            forall|i: int|
                0 <= i < old(dst)@.len() && !(dst_start <= i < dst_start + k) ==> dst@[i]
                    == old(dst)@[i],
        decreases n - k,
    {
        let p = egui_blend_u8(src[src_start + k], dst[dst_start + k]);
        dst.set(dst_start + k, p);
        k = k + 1;
    }
}

/// `dst[i] <- blend(src[i], dst[i])` over two rows of equal length.
pub fn egui_blend_u8_slice(src: &[[u8; 4]], dst: &mut Vec<[u8; 4]>)
    requires
        src@.len() == old(dst)@.len(),
    ensures
        final(dst)@.len() == old(dst)@.len(),
        forall|i: int|
            0 <= i < final(dst)@.len() ==> final(dst)@[i]@ == blend_px(src@[i]@, old(dst)@[i]@),
{
    let n = dst.len();
    blend_range(src, 0, dst, 0, n);
}

/// Broadcast form: blend one source color over every pixel of the row.
pub fn egui_blend_u8_slice_one_src(src: [u8; 4], dst: &mut Vec<[u8; 4]>)
    ensures
        final(dst)@.len() == old(dst)@.len(),
        forall|i: int|
            0 <= i < final(dst)@.len() ==> final(dst)@[i]@ == blend_px(src@, old(dst)@[i]@),
{
    let n = dst.len();
    let mut k: usize = 0;
    while k < n
        invariant
            n == dst@.len(),
            dst@.len() == old(dst)@.len(),
            k <= n,
            forall|i: int| 0 <= i < k ==> dst@[i]@ == blend_px(src@, old(dst)@[i]@),
            forall|i: int| k <= i < n ==> dst@[i] == old(dst)@[i],
        decreases n - k,
    {
        let p = egui_blend_u8(src, dst[k]);
        dst.set(k, p);
        k = k + 1;
    }
}

/// Tinted form: each source pixel is modulated by `tint` before the blend.
pub fn egui_blend_u8_slice_tinted(src: &[[u8; 4]], tint: [u8; 4], dst: &mut Vec<[u8; 4]>)
    requires
        src@.len() == old(dst)@.len(),
    ensures
        final(dst)@.len() == old(dst)@.len(),
        forall|i: int|
            0 <= i < final(dst)@.len() ==> final(dst)@[i]@ == blend_px(
                unorm_px(src@[i]@, tint@),
                old(dst)@[i]@,
            ),
{
    let n = dst.len();
    let mut k: usize = 0;
    while k < n
        invariant
            src@.len() == old(dst)@.len(),
            n == dst@.len(),
            dst@.len() == old(dst)@.len(),
            k <= n,
            forall|i: int|
                0 <= i < k ==> dst@[i]@ == blend_px(unorm_px(src@[i]@, tint@), old(dst)@[i]@),
            forall|i: int| k <= i < n ==> dst@[i] == old(dst)@[i],
        decreases n - k,
    {
        let s = unorm_mult4x4(src[k], tint);
        let p = egui_blend_u8(s, dst[k]);
        dst.set(k, p);
        k = k + 1;
    }
}

/// Tinted broadcast form: one constant texel color, a per-pixel vertex color.
pub fn egui_blend_u8_slice_one_src_tinted(
    const_tex: [u8; 4],
    vert_colors: &[[u8; 4]],
    dst: &mut Vec<[u8; 4]>,
)
    requires
        vert_colors@.len() == old(dst)@.len(),
    ensures
        final(dst)@.len() == old(dst)@.len(),
        forall|i: int|
            0 <= i < final(dst)@.len() ==> final(dst)@[i]@ == blend_px(
                unorm_px(vert_colors@[i]@, const_tex@),
                old(dst)@[i]@,
            ),
{
    let n = dst.len();
    let mut k: usize = 0;
    while k < n
        invariant
            vert_colors@.len() == old(dst)@.len(),
            n == dst@.len(),
            dst@.len() == old(dst)@.len(),
            k <= n,
            forall|i: int|
                0 <= i < k ==> dst@[i]@ == blend_px(
                    unorm_px(vert_colors@[i]@, const_tex@),
                    old(dst)@[i]@,
                ),
            forall|i: int| k <= i < n ==> dst@[i] == old(dst)@[i],
        decreases n - k,
    {
        let s = unorm_mult4x4(vert_colors[k], const_tex);
        let p = egui_blend_u8(s, dst[k]);
        dst.set(k, p);
        k = k + 1;
    }
}

/// Swap the red and blue channels; applied on ingest when the output buffer
/// uses the other field order.
pub fn swizzle_rgba_bgra(c: [u8; 4]) -> (r: [u8; 4])
    ensures
        r@[0] == c@[2],
        r@[1] == c@[1],
        r@[2] == c@[0],
        r@[3] == c@[3],
{
    [c[2], c[1], c[0], c[3]]
}

/// Blending a fully transparent source leaves the destination unchanged.
pub proof fn lemma_blend_transparent_identity(dst: Seq<u8>)
    requires
        dst.len() == 4,
    ensures
        blend_px(seq![0u8, 0u8, 0u8, 0u8], dst) == dst,
{
    assert(forall|d: u32|
        d <= 255 ==> #[trigger] ((d * 255 + 128 + (d * 255 + 128) / 256) / 256) == d)
        by (bit_vector);
    assert forall|i: int| 0 <= i < 4 implies blend_channel(0, dst[i] as int, 0) == dst[i] as int by {
        let d = dst[i] as u32;
        assert((d * 255 + 128 + (d * 255 + 128) / 256) / 256 == d);
        assert(unorm_scale(dst[i] as int, 255) == dst[i] as int);
    }
    assert(blend_px(seq![0u8, 0u8, 0u8, 0u8], dst) =~= dst);
}

/// Blending a fully opaque source replaces the destination with the source.
pub proof fn lemma_blend_opaque_src(src: Seq<u8>, dst: Seq<u8>)
    requires
        src.len() == 4,
        dst.len() == 4,
        src[3] == 255,
    ensures
        blend_px(src, dst) == src,
{
    assert forall|i: int| 0 <= i < 4 implies blend_channel(src[i] as int, dst[i] as int, 255)
        == src[i] as int by {
        assert(unorm_scale(dst[i] as int, 0) == 0);
    }
    assert(blend_px(src, dst) =~= src);
}

} // verus!
