//! Owned 32-bit-per-pixel image buffers with row-span operations.
//!
//! A buffer holds `width * height` RGBA pixels in row-major order. The span
//! operations are the only way rows are written, and each states exactly which
//! pixels changed and to what.

use vstd::prelude::*;

use crate::pixel::{blend_px, blend_range, egui_blend_u8, unorm_mult4x4, unorm_px};

verus! {

/// Lossless cast of a pixel coordinate or count to `usize`.
pub fn as_usize(v: u32) -> (r: usize)
    ensures
        r == v,
{
    v as usize
}

/// Element-wise copy of a pixel vector.
pub fn copy_pixels(src: &Vec<[u8; 4]>) -> (r: Vec<[u8; 4]>)
    ensures
        r@ == src@,
{
    let n = src.len();
    let mut out: Vec<[u8; 4]> = Vec::new();
    let mut i: usize = 0;
    while i < n
        invariant
            n == src@.len(),
            i <= n,
            out@ == src@.subrange(0, i as int),
        decreases n - i,
    {
        out.push(src[i]);
        proof {
            assert(out@ =~= src@.subrange(0, i + 1));
        }
        i = i + 1;
    }
    proof {
        assert(out@ =~= src@);
    }
    out
}

/// Mutable pixel buffer.
#[derive(Debug)]
pub struct BufferMutRef {
    pub data: Vec<[u8; 4]>,
    pub width: u32,
    pub height: u32,
    pub width_extent: u32,
    pub height_extent: u32,
}

/// Read-only pixel buffer (a cached primitive's bitmap).
#[derive(Debug)]
pub struct BufferRef {
    pub data: Vec<[u8; 4]>,
    pub width: u32,
    pub height: u32,
    pub width_extent: u32,
    pub height_extent: u32,
}

impl BufferMutRef {
    /// Dimensions are positive and consistent with the pixel data; the total
    /// pixel count fits the `u32` index arithmetic used throughout.
    pub open spec fn wf(self) -> bool {
        &&& self.width >= 1
        &&& self.height >= 1
        &&& self.data@.len() == self.width * self.height
        &&& self.width * self.height <= u32::MAX
        &&& self.width_extent == self.width - 1
        &&& self.height_extent == self.height - 1
    }

    /// Row-major index of the pixel at `(x, y)`.
    pub open spec fn idx(self, x: int, y: int) -> int {
        y * self.width + x
    }

    /// The pixel at `(x, y)`.
    pub open spec fn px(self, x: int, y: int) -> [u8; 4] {
        self.data@[self.idx(x, y)]
    }

    pub fn new(data: Vec<[u8; 4]>, width: u32, height: u32) -> (r: Self)
        requires
            width >= 1,
            height >= 1,
            data@.len() == width * height,
            width * height <= u32::MAX,
        ensures
            r.wf(),
            r.data == data,
            r.width == width,
            r.height == height,
    {
        BufferMutRef {
            data,
            width,
            height,
            width_extent: width - 1,
            height_extent: height - 1,
        }
    }

    /// In-row index arithmetic stays inside the buffer.
    pub proof fn lemma_span_bounds(self, end: int, y: int)
        requires
            self.wf(),
            0 <= end <= self.width,
            0 <= y < self.height,
        ensures
            y * self.width + end <= self.data@.len(),
            0 <= y * self.width,
    {
        vstd::arithmetic::mul::lemma_mul_inequality(y + 1, self.height as int, self.width as int);
        assert((y + 1) * self.width == y * self.width + self.width) by (nonlinear_arith);
        vstd::arithmetic::mul::lemma_mul_is_commutative(self.height as int, self.width as int);
        vstd::arithmetic::mul::lemma_mul_nonnegative(y, self.width as int);
    }

    /// Index range of the pixels `[start, end)` of row `y`.
    pub fn get_range(&self, start: u32, end: u32, y: u32) -> (r: core::ops::Range<usize>)
        requires
            self.wf(),
            start <= end <= self.width,
            y < self.height,
        ensures
            r.start == self.idx(start as int, y as int),
            r.end == self.idx(end as int, y as int),
    {
        proof {
            self.lemma_span_bounds(end as int, y as int);
        }
        let row_start = y * self.width;
        let start = as_usize(row_start + start);
        let end = as_usize(row_start + end);
        start..end
    }

    /// Copy of the pixels `[start, end)` of row `y`.
    pub fn get_span(&self, start: u32, end: u32, y: u32) -> (r: Vec<[u8; 4]>)
        requires
            self.wf(),
            start <= end <= self.width,
            y < self.height,
        ensures
            r@ == self.data@.subrange(self.idx(start as int, y as int), self.idx(end as int, y as int)),
    {
        proof {
            self.lemma_span_bounds(end as int, y as int);
        }
        let row_start = y * self.width;
        let mut out: Vec<[u8; 4]> = Vec::new();
        let mut x = start;
        while x < end
            invariant
                self.wf(),
                start <= x <= end <= self.width,
                y < self.height,
                y * self.width + end <= self.data@.len(),
                out@ == self.data@.subrange(self.idx(start as int, y as int), self.idx(x as int, y as int)),
                row_start == y * self.width,
            decreases end - x,
        {
            out.push(self.data[as_usize(row_start + x)]);
            proof {
                assert(out@ =~= self.data@.subrange(
                    self.idx(start as int, y as int),
                    self.idx(x + 1, y as int),
                ));
            }
            x = x + 1;
        }
        out
    }

    /// The pixel at `(x, y)`.
    pub fn get(&self, x: u32, y: u32) -> (r: [u8; 4])
        requires
            self.wf(),
            x < self.width,
            y < self.height,
        ensures
            r == self.px(x as int, y as int),
    {
        proof {
            self.lemma_span_bounds(x + 1, y as int);
        }
        self.data[as_usize(x + y * self.width)]
    }

    /// Overwrite the pixel at `(x, y)`.
    pub fn set(&mut self, x: u32, y: u32, px: [u8; 4])
        requires
            old(self).wf(),
            x < old(self).width,
            y < old(self).height,
        ensures
            final(self).wf(),
            final(self).width == old(self).width,
            final(self).height == old(self).height,
            final(self).data@ == old(self).data@.update(old(self).idx(x as int, y as int), px),
    {
        proof {
            self.lemma_span_bounds(x + 1, y as int);
        }
        let i = as_usize(x + y * self.width);
        self.data.set(i, px);
    }

    /// Overwrite the pixel at the coordinates clamped into the buffer.
    pub fn set_clamped(&mut self, x: u32, y: u32, px: [u8; 4])
        requires
            old(self).wf(),
        ensures
            final(self).wf(),
            final(self).width == old(self).width,
            final(self).height == old(self).height,
            final(self).data@ == old(self).data@.update(
                old(self).idx(
                    if x < old(self).width { x as int } else { old(self).width - 1 },
                    if y < old(self).height { y as int } else { old(self).height - 1 },
                ),
                px,
            ),
    {
        let cx = if x <= self.width_extent { x } else { self.width_extent };
        let cy = if y <= self.height_extent { y } else { self.height_extent };
        self.set(cx, cy, px);
    }

    /// Fill the pixels `[start, end)` of row `y` with one color.
    pub fn fill_span(&mut self, start: u32, end: u32, y: u32, px: [u8; 4])
        requires
            old(self).wf(),
            start <= end <= old(self).width,
            y < old(self).height,
        ensures
            final(self).wf(),
            final(self).width == old(self).width,
            final(self).height == old(self).height,
            final(self).data@.len() == old(self).data@.len(),
            forall|i: int|
                old(self).idx(start as int, y as int) <= i < old(self).idx(end as int, y as int)
                    ==> final(self).data@[i] == px,
            forall|i: int|
                0 <= i < old(self).data@.len() && !(old(self).idx(start as int, y as int) <= i
                    < old(self).idx(end as int, y as int)) ==> final(self).data@[i] == old(
                    self,
                ).data@[i],
    {
        proof {
            self.lemma_span_bounds(end as int, y as int);
        }
        let mut x = start;
        while x < end
            invariant
                self.wf(),
                self.width == old(self).width,
                self.height == old(self).height,
                self.data@.len() == old(self).data@.len(),
                start <= x <= end <= self.width,
                y < self.height,
                0 <= y * self.width,
                y * self.width + end <= self.data@.len(),
                forall|i: int|
                    old(self).idx(start as int, y as int) <= i < old(self).idx(x as int, y as int)
                        ==> self.data@[i] == px,
                forall|i: int|
                    0 <= i < old(self).data@.len() && !(old(self).idx(start as int, y as int) <= i
                        < old(self).idx(x as int, y as int)) ==> self.data@[i] == old(
                        self,
                    ).data@[i],
            decreases end - x,
        {
            self.set(x, y, px);
            x = x + 1;
        }
    }

    /// Blend `src` over the pixels `[start, end)` of row `y`.
    pub fn blend_span(&mut self, src: &[[u8; 4]], start: u32, end: u32, y: u32)
        requires
            old(self).wf(),
            start <= end <= old(self).width,
            y < old(self).height,
            src@.len() == end - start,
        ensures
            final(self).wf(),
            final(self).width == old(self).width,
            final(self).height == old(self).height,
            final(self).data@.len() == old(self).data@.len(),
            forall|i: int|
                old(self).idx(start as int, y as int) <= i < old(self).idx(end as int, y as int)
                    ==> final(self).data@[i]@ == blend_px(
                    src@[i - old(self).idx(start as int, y as int)]@,
                    old(self).data@[i]@,
                ),
            forall|i: int|
                0 <= i < old(self).data@.len() && !(old(self).idx(start as int, y as int) <= i
                    < old(self).idx(end as int, y as int)) ==> final(self).data@[i] == old(
                    self,
                ).data@[i],
    {
        proof {
            self.lemma_span_bounds(end as int, y as int);
        }
        let row_start = as_usize(y * self.width + start);
        let n = as_usize(end - start);
        blend_range(src, 0, &mut self.data, row_start, n);
    }

    /// Blend one color over the pixels `[start, end)` of row `y`.
    pub fn blend_span_one_src(&mut self, color: [u8; 4], start: u32, end: u32, y: u32)
        requires
            old(self).wf(),
            start <= end <= old(self).width,
            y < old(self).height,
        ensures
            final(self).wf(),
            final(self).width == old(self).width,
            final(self).height == old(self).height,
            final(self).data@.len() == old(self).data@.len(),
            forall|i: int|
                old(self).idx(start as int, y as int) <= i < old(self).idx(end as int, y as int)
                    ==> final(self).data@[i]@ == blend_px(color@, old(self).data@[i]@),
            forall|i: int|
                0 <= i < old(self).data@.len() && !(old(self).idx(start as int, y as int) <= i
                    < old(self).idx(end as int, y as int)) ==> final(self).data@[i] == old(
                    self,
                ).data@[i],
    {
        proof {
            self.lemma_span_bounds(end as int, y as int);
        }
        let mut x = start;
        while x < end
            invariant
                self.wf(),
                self.width == old(self).width,
                self.height == old(self).height,
                self.data@.len() == old(self).data@.len(),
                start <= x <= end <= self.width,
                y < self.height,
                0 <= y * self.width,
                y * self.width + end <= self.data@.len(),
                forall|i: int|
                    old(self).idx(start as int, y as int) <= i < old(self).idx(x as int, y as int)
                        ==> self.data@[i]@ == blend_px(color@, old(self).data@[i]@),
                forall|i: int|
                    0 <= i < old(self).data@.len() && !(old(self).idx(start as int, y as int) <= i
                        < old(self).idx(x as int, y as int)) ==> self.data@[i] == old(
                        self,
                    ).data@[i],
            decreases end - x,
        {
            let d = self.get(x, y);
            let p = egui_blend_u8(color, d);
            self.set(x, y, p);
            x = x + 1;
        }
    }

    /// Modulate each `src` pixel by `tint`, then blend it over row `y`.
    pub fn blend_span_tinted(&mut self, src: &[[u8; 4]], tint: [u8; 4], start: u32, end: u32, y: u32)
        requires
            old(self).wf(),
            start <= end <= old(self).width,
            y < old(self).height,
            src@.len() == end - start,
        ensures
            final(self).wf(),
            final(self).width == old(self).width,
            final(self).height == old(self).height,
            final(self).data@.len() == old(self).data@.len(),
            forall|i: int|
                old(self).idx(start as int, y as int) <= i < old(self).idx(end as int, y as int)
                    ==> final(self).data@[i]@ == blend_px(
                    unorm_px(src@[i - old(self).idx(start as int, y as int)]@, tint@),
                    old(self).data@[i]@,
                ),
            forall|i: int|
                0 <= i < old(self).data@.len() && !(old(self).idx(start as int, y as int) <= i
                    < old(self).idx(end as int, y as int)) ==> final(self).data@[i] == old(
                    self,
                ).data@[i],
    {
        proof {
            self.lemma_span_bounds(end as int, y as int);
        }
        let mut x = start;
        while x < end
            invariant
                self.wf(),
                self.width == old(self).width,
                self.height == old(self).height,
                self.data@.len() == old(self).data@.len(),
                start <= x <= end <= self.width,
                y < self.height,
                0 <= y * self.width,
                y * self.width + end <= self.data@.len(),
                src@.len() == end - start,
                forall|i: int|
                    old(self).idx(start as int, y as int) <= i < old(self).idx(x as int, y as int)
                        ==> self.data@[i]@ == blend_px(
                        unorm_px(src@[i - old(self).idx(start as int, y as int)]@, tint@),
                        old(self).data@[i]@,
                    ),
                forall|i: int|
                    0 <= i < old(self).data@.len() && !(old(self).idx(start as int, y as int) <= i
                        < old(self).idx(x as int, y as int)) ==> self.data@[i] == old(
                        self,
                    ).data@[i],
            decreases end - x,
        {
            let s = unorm_mult4x4(src[as_usize(x - start)], tint);
            let d = self.get(x, y);
            let p = egui_blend_u8(s, d);
            self.set(x, y, p);
            x = x + 1;
        }
    }
}

/// A row-major index inside the span `[a, b)` of row `y` belongs to no other
/// pixel of the image.
pub proof fn lemma_row_disjoint(w: int, y: int, a: int, b: int, x2: int, y2: int)
    requires
        0 <= a <= b <= w,
        0 <= x2 < w,
        0 <= y,
        0 <= y2,
        !(y2 == y && a <= x2 < b),
    ensures
        !(y * w + a <= y2 * w + x2 < y * w + b),
{
    if y2 < y {
        vstd::arithmetic::mul::lemma_mul_inequality(y2 + 1, y, w);
        assert((y2 + 1) * w == y2 * w + w) by (nonlinear_arith);
    } else if y2 > y {
        vstd::arithmetic::mul::lemma_mul_inequality(y + 1, y2, w);
        assert((y + 1) * w == y * w + w) by (nonlinear_arith);
    }
}

impl BufferRef {
    pub open spec fn wf(self) -> bool {
        &&& self.width >= 1
        &&& self.height >= 1
        &&& self.data@.len() == self.width * self.height
        &&& self.width * self.height <= u32::MAX
        &&& self.width_extent == self.width - 1
        &&& self.height_extent == self.height - 1
    }

    pub open spec fn idx(self, x: int, y: int) -> int {
        y * self.width + x
    }

    pub open spec fn px(self, x: int, y: int) -> [u8; 4] {
        self.data@[self.idx(x, y)]
    }

    proof fn lemma_idx_bounds(self, x: int, y: int)
        requires
            self.wf(),
            0 <= x < self.width,
            0 <= y < self.height,
        ensures
            0 <= y * self.width + x < self.data@.len(),
            y * self.width + x <= u32::MAX,
    {
        vstd::arithmetic::mul::lemma_mul_inequality(y + 1, self.height as int, self.width as int);
        assert((y + 1) * self.width == y * self.width + self.width) by (nonlinear_arith);
        vstd::arithmetic::mul::lemma_mul_is_commutative(self.height as int, self.width as int);
        vstd::arithmetic::mul::lemma_mul_nonnegative(y, self.width as int);
    }

    /// The pixel at `(x, y)`.
    pub fn get_ref(&self, x: u32, y: u32) -> (r: [u8; 4])
        requires
            self.wf(),
            x < self.width,
            y < self.height,
        ensures
            r == self.px(x as int, y as int),
    {
        proof {
            self.lemma_idx_bounds(x as int, y as int);
        }
        self.data[as_usize(x + y * self.width)]
    }

    /// The pixel at the coordinates clamped into the buffer.
    pub fn get_ref_clamped(&self, x: u32, y: u32) -> (r: [u8; 4])
        requires
            self.wf(),
        ensures
            r == self.px(
                if x < self.width { x as int } else { self.width - 1 },
                if y < self.height { y as int } else { self.height - 1 },
            ),
    {
        let cx = if x <= self.width_extent { x } else { self.width_extent };
        let cy = if y <= self.height_extent { y } else { self.height_extent };
        self.get_ref(cx, cy)
    }
}

} // verus!
