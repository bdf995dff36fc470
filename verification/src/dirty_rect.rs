//! Integer rectangles used for dirty-region tracking, and the decomposition
//! of a set of tile-snapped rectangles into non-overlapping strips.

use vstd::prelude::*;

use crate::TILE_SIZE;

verus! {

/// Half-open integer rectangle `[min_x, max_x) x [min_y, max_y)`.
///
/// The rectangle is empty exactly when `min == max` on either axis.
#[derive(Debug, Clone, Copy, PartialEq, Eq, Structural)]
pub struct DirtyRect {
    pub min_x: u32,
    pub min_y: u32,
    pub max_x: u32,
    pub max_y: u32,
}

impl DirtyRect {
    /// The min corner does not exceed the max corner on either axis.
    pub open spec fn wf(self) -> bool {
        self.min_x <= self.max_x && self.min_y <= self.max_y
    }

    /// Point membership in the half-open pixel region.
    pub open spec fn contains(self, x: int, y: int) -> bool {
        self.min_x <= x < self.max_x && self.min_y <= y < self.max_y
    }

    pub open spec fn spec_is_empty(self) -> bool {
        self.min_x == self.max_x || self.min_y == self.max_y
    }

    /// The smallest rectangle containing both.
    pub open spec fn spec_union(self, other: DirtyRect) -> DirtyRect {
        DirtyRect {
            min_x: if self.min_x <= other.min_x {
                self.min_x
            } else {
                other.min_x
            },
            min_y: if self.min_y <= other.min_y {
                self.min_y
            } else {
                other.min_y
            },
            max_x: if self.max_x >= other.max_x {
                self.max_x
            } else {
                other.max_x
            },
            max_y: if self.max_y >= other.max_y {
                self.max_y
            } else {
                other.max_y
            },
        }
    }

    pub fn new_empty() -> (r: Self)
        ensures
            r == (DirtyRect { min_x: 0, min_y: 0, max_x: 0, max_y: 0 }),
    {
        Self { min_x: 0, min_y: 0, max_x: 0, max_y: 0 }
    }

    /// Snap the min corner down and the max corner up to multiples of `T`.
    pub fn tiled<const T: u32>(self) -> (r: Self)
        requires
            T >= 1,
            self.max_x + T - 1 <= u32::MAX,
            self.max_y + T - 1 <= u32::MAX,
        ensures
            r.min_x == self.min_x / T * T,
            r.min_y == self.min_y / T * T,
            r.max_x == (self.max_x + T - 1) / (T as int) * (T as int),
            r.max_y == (self.max_y + T - 1) / (T as int) * (T as int),
    {
        proof {
            let t = T as int;
            assert(forall|v: int| v >= 0 && t >= 1 ==> #[trigger] (v / t * t) <= v) by (nonlinear_arith);
        }
        Self {
            min_x: self.min_x / T * T,
            min_y: self.min_y / T * T,
            max_x: (self.max_x + (T - 1)) / T * T,
            max_y: (self.max_y + (T - 1)) / T * T,
        }
    }

    pub fn width(self) -> (r: u32)
        requires
            self.min_x <= self.max_x,
        ensures
            r == self.max_x - self.min_x,
    {
        self.max_x - self.min_x
    }

    pub fn height(self) -> (r: u32)
        requires
            self.min_y <= self.max_y,
        ensures
            r == self.max_y - self.min_y,
    {
        self.max_y - self.min_y
    }

    pub fn is_empty(&self) -> (r: bool)
        ensures
            r == self.spec_is_empty(),
            self.wf() ==> (r <==> forall|x: int, y: int| !self.contains(x, y)),
    {
        let r = self.min_x == self.max_x || self.min_y == self.max_y;
        proof {
            if self.wf() && !r {
                assert(self.contains(self.min_x as int, self.min_y as int));
            }
        }
        r
    }

    /// The rectangles overlap on both axes.
    pub open spec fn spec_intersects(self, other: Self) -> bool {
        self.min_x < other.max_x && self.max_x > other.min_x && self.min_y < other.max_y
            && self.max_y > other.min_y
    }

    /// Component-wise clamp of this rectangle into `other`.
    pub open spec fn spec_intersection(self, other: Self) -> Self {
        DirtyRect {
            min_x: if self.min_x >= other.min_x {
                self.min_x
            } else {
                other.min_x
            },
            min_y: if self.min_y >= other.min_y {
                self.min_y
            } else {
                other.min_y
            },
            max_x: if self.max_x <= other.max_x {
                self.max_x
            } else {
                other.max_x
            },
            max_y: if self.max_y <= other.max_y {
                self.max_y
            } else {
                other.max_y
            },
        }
    }

    /// Overlap test: the rectangles share a point exactly when both spans
    /// overlap.
    pub fn intersects(self, other: Self) -> (r: bool)
        ensures
            r == self.spec_intersects(other),
            !self.spec_is_empty() && !other.spec_is_empty() && self.wf() && other.wf() ==> (r
                <==> exists|x: int, y: int| self.contains(x, y) && other.contains(x, y)),
    {
        let r = self.min_x < other.max_x && self.max_x > other.min_x && self.min_y < other.max_y
            && self.max_y > other.min_y;
        proof {
            if !self.spec_is_empty() && !other.spec_is_empty() && self.wf() && other.wf() && r {
                let x: int = if self.min_x >= other.min_x {
                    self.min_x as int
                } else {
                    other.min_x as int
                };
                let y: int = if self.min_y >= other.min_y {
                    self.min_y as int
                } else {
                    other.min_y as int
                };
                assert(self.contains(x, y) && other.contains(x, y));
            }
        }
        r
    }

    pub fn intersection(self, other: DirtyRect) -> (r: Self)
        ensures
            r == self.spec_intersection(other),
            forall|x: int, y: int| r.contains(x, y) <==> self.contains(x, y) && other.contains(x, y),
    {
        Self {
            min_x: if self.min_x >= other.min_x { self.min_x } else { other.min_x },
            min_y: if self.min_y >= other.min_y { self.min_y } else { other.min_y },
            max_x: if self.max_x <= other.max_x { self.max_x } else { other.max_x },
            max_y: if self.max_y <= other.max_y { self.max_y } else { other.max_y },
        }
    }

    pub fn union(&self, other: DirtyRect) -> (r: Self)
        ensures
            r == self.spec_union(other),
            forall|x: int, y: int| self.contains(x, y) || other.contains(x, y) ==> r.contains(x, y),
    {
        Self {
            min_x: if self.min_x <= other.min_x { self.min_x } else { other.min_x },
            min_y: if self.min_y <= other.min_y { self.min_y } else { other.min_y },
            max_x: if self.max_x >= other.max_x { self.max_x } else { other.max_x },
            max_y: if self.max_y >= other.max_y { self.max_y } else { other.max_y },
        }
    }
}

/// Non-overlapping decomposition of a set of tile-snapped rectangles, kept
/// with its scratch buffers.
#[derive(Debug)]
pub struct ComputeTiledDirtyRects {
    /// The decomposition: pairwise disjoint rects covering the snapped union.
    pub minimal_non_overlapping_bboxes: Vec<DirtyRect>,
    /// The tile-snapped input rectangles of the last call.
    pub bboxes: Vec<DirtyRect>,
}

impl ComputeTiledDirtyRects {
    pub fn new() -> (r: Self)
        ensures
            r.minimal_non_overlapping_bboxes@.len() == 0,
            r.bboxes@.len() == 0,
    {
        ComputeTiledDirtyRects { minimal_non_overlapping_bboxes: Vec::new(), bboxes: Vec::new() }
    }

    /// The rects of the decomposition that overlap `other`, each clamped to
    /// `other`, in order.
    pub fn intersections(&self, other: DirtyRect) -> (r: Vec<DirtyRect>)
        ensures
            r@ == self.minimal_non_overlapping_bboxes@.filter(
                |b: DirtyRect| b.spec_intersects(other),
            ).map_values(|b: DirtyRect| b.spec_intersection(other)),
    {
        let ghost pred = |b: DirtyRect| b.spec_intersects(other);
        let ghost f = |b: DirtyRect| b.spec_intersection(other);
        let ghost src = self.minimal_non_overlapping_bboxes@;
        let mut out: Vec<DirtyRect> = Vec::new();
        let n = self.minimal_non_overlapping_bboxes.len();
        proof {
            reveal(Seq::filter);
            assert(src.subrange(0, 0).filter(pred).map_values(f) =~= out@);
        }
        let mut i: usize = 0;
        while i < n
            invariant
                n == src.len(),
                src == self.minimal_non_overlapping_bboxes@,
                i <= n,
                out@ == src.subrange(0, i as int).filter(pred).map_values(f),
                pred == (|b: DirtyRect| b.spec_intersects(other)),
                f == (|b: DirtyRect| b.spec_intersection(other)),
            decreases n - i,
        {
            let b = self.minimal_non_overlapping_bboxes[i];
            proof {
                reveal(Seq::filter);
                assert(src.subrange(0, i + 1).drop_last() =~= src.subrange(0, i as int));
                assert(src.subrange(0, i + 1).last() == src[i as int]);
            }
            if b.intersects(other) {
                out.push(b.intersection(other));
                proof {
                    assert(out@ =~= src.subrange(0, i + 1).filter(pred).map_values(f));
                }
            } else {
                proof {
                    assert(out@ =~= src.subrange(0, i + 1).filter(pred).map_values(f));
                }
            }
            i = i + 1;
        }
        proof {
            assert(src.subrange(0, n as int) =~= src);
        }
        out
    }
}

/// Point membership in a half-open interval.
pub open spec fn interval_covers(iv: (u32, u32), x: int) -> bool {
    iv.0 <= x < iv.1
}

/// Point membership in some interval of the list.
pub open spec fn intervals_cover(s: Seq<(u32, u32)>, x: int) -> bool {
    exists|i: int| 0 <= i < s.len() && interval_covers(#[trigger] s[i], x)
}

/// Point membership in some rectangle of the list.
pub open spec fn rects_cover(s: Seq<DirtyRect>, x: int, y: int) -> bool {
    exists|i: int| 0 <= i < s.len() && (#[trigger] s[i]).contains(x, y)
}

/// Sort intervals by their start with adjacent swaps; the set of covered
/// points is untouched.
fn sort_intervals(v: &mut Vec<(u32, u32)>)
    ensures
        final(v)@.len() == old(v)@.len(),
        forall|a: int, b: int|
            0 <= a < b < final(v)@.len() ==> (#[trigger] final(v)@[a]).0 <= (#[trigger] final(v)@[b]).0,
        forall|x: int| intervals_cover(final(v)@, x) == intervals_cover(old(v)@, x),
        forall|iv: (u32, u32)| final(v)@.contains(iv) == old(v)@.contains(iv),
{
    let n = v.len();
    let mut i: usize = 1;
    while i < n
        invariant
            n == v@.len(),
            v@.len() == old(v)@.len(),
            n == 0 || 1 <= i <= n,
            forall|a: int, b: int|
                0 <= a < b < i ==> (#[trigger] v@[a]).0 <= (#[trigger] v@[b]).0,
            forall|x: int|
                #![all_triggers]
                intervals_cover(v@, x) == intervals_cover(old(v)@, x),
            forall|iv: (u32, u32)| #![all_triggers] v@.contains(iv) == old(v)@.contains(iv),
        decreases n - i,
    {
        let mut k: usize = i;
        while k > 0 && v[k - 1].0 > v[k].0
            invariant
                n == v@.len(),
                v@.len() == old(v)@.len(),
                i < n,
                k <= i,
                forall|a: int, b: int|
                    0 <= a < b <= i && b != k ==> (#[trigger] v@[a]).0 <= (#[trigger] v@[b]).0,
                forall|b: int| k < b <= i ==> (#[trigger] v@[b]).0 >= v@[k as int].0,
                forall|x: int|
                #![all_triggers]
                intervals_cover(v@, x) == intervals_cover(old(v)@, x),
                forall|iv: (u32, u32)| #![all_triggers] v@.contains(iv) == old(v)@.contains(iv),
            decreases k,
        {
            let ghost before = v@;
            let a = v[k - 1];
            let b = v[k];
            v.set(k - 1, b);
            v.set(k, a);
            proof {
                assert forall|x: int| intervals_cover(v@, x) == intervals_cover(before, x) by {
                    if intervals_cover(v@, x) {
                        let j = choose|j: int|
                            0 <= j < v@.len() && interval_covers(#[trigger] v@[j], x);
                        if j == k - 1 {
                            assert(interval_covers(before[k as int], x));
                        } else if j == k {
                            assert(interval_covers(before[k - 1], x));
                        } else {
                            assert(interval_covers(before[j], x));
                        }
                    }
                    if intervals_cover(before, x) {
                        let j = choose|j: int|
                            0 <= j < before.len() && interval_covers(#[trigger] before[j], x);
                        if j == k - 1 {
                            assert(interval_covers(v@[k as int], x));
                        } else if j == k {
                            assert(interval_covers(v@[k - 1], x));
                        } else {
                            assert(interval_covers(v@[j], x));
                        }
                    }
                }
                assert forall|iv: (u32, u32)| v@.contains(iv) == before.contains(iv) by {
                    if v@.contains(iv) {
                        let j = choose|j: int| 0 <= j < v@.len() && v@[j] == iv;
                        if j == k - 1 {
                            assert(before[k as int] == iv);
                        } else if j == k {
                            assert(before[k - 1] == iv);
                        } else {
                            assert(before[j] == iv);
                        }
                    }
                    if before.contains(iv) {
                        let j = choose|j: int| 0 <= j < before.len() && before[j] == iv;
                        if j == k - 1 {
                            assert(v@[k as int] == iv);
                        } else if j == k {
                            assert(v@[k - 1] == iv);
                        } else {
                            assert(v@[j] == iv);
                        }
                    }
                }
            }
            k = k - 1;
        }
        i = i + 1;
    }
}

/// Merge a start-sorted interval list into maximal intervals separated by
/// gaps; the set of covered points is untouched.
fn merge_intervals(v: &Vec<(u32, u32)>) -> (out: Vec<(u32, u32)>)
    requires
        forall|a: int, b: int|
            0 <= a < b < v@.len() ==> (#[trigger] v@[a]).0 <= (#[trigger] v@[b]).0,
        forall|a: int| 0 <= a < v@.len() ==> (#[trigger] v@[a]).0 <= v@[a].1,
    ensures
        forall|a: int, b: int|
            0 <= a < b < out@.len() ==> (#[trigger] out@[a]).1 < (#[trigger] out@[b]).0,
        forall|a: int| 0 <= a < out@.len() ==> (#[trigger] out@[a]).0 <= out@[a].1,
        forall|x: int| intervals_cover(out@, x) == intervals_cover(v@, x),
        forall|a: int|
            0 <= a < out@.len() ==> (exists|j: int|
                0 <= j < v@.len() && (#[trigger] out@[a]).0 == (#[trigger] v@[j]).0) && (exists|
                j: int,
            | 0 <= j < v@.len() && out@[a].1 == (#[trigger] v@[j]).1),
{
    let n = v.len();
    let mut out: Vec<(u32, u32)> = Vec::new();
    if n == 0 {
        proof {
            assert forall|x: int| intervals_cover(out@, x) == intervals_cover(v@, x) by {}
        }
        return out;
    }
    let mut last = v[0];
    proof {
        assert forall|x: int|
            (intervals_cover(out@, x) || interval_covers(last, x)) == intervals_cover(
                v@.subrange(0, 1),
                x,
            ) by {
            if interval_covers(last, x) {
                assert(interval_covers(v@.subrange(0, 1)[0], x));
            }
            if intervals_cover(v@.subrange(0, 1), x) {
                let j = choose|j: int|
                    0 <= j < v@.subrange(0, 1).len() && interval_covers(
                        #[trigger] v@.subrange(0, 1)[j],
                        x,
                    );
                assert(v@.subrange(0, 1)[j] == v@[0]);
            }
        }
    }
    let mut idx: usize = 1;
    while idx < n
        invariant
            n == v@.len(),
            1 <= idx <= n,
            forall|a: int, b: int|
                0 <= a < b < v@.len() ==> (#[trigger] v@[a]).0 <= (#[trigger] v@[b]).0,
            forall|a: int| 0 <= a < v@.len() ==> (#[trigger] v@[a]).0 <= v@[a].1,
            last.0 <= last.1,
            forall|a: int, b: int|
                0 <= a < b < out@.len() ==> (#[trigger] out@[a]).1 < (#[trigger] out@[b]).0,
            forall|a: int| 0 <= a < out@.len() ==> (#[trigger] out@[a]).0 <= out@[a].1,
            forall|a: int| 0 <= a < out@.len() ==> (#[trigger] out@[a]).1 < last.0,
            forall|a: int|
                0 <= a < out@.len() ==> (exists|j: int|
                    0 <= j < v@.len() && (#[trigger] out@[a]).0 == (#[trigger] v@[j]).0) && (
                exists|j: int| 0 <= j < v@.len() && out@[a].1 == (#[trigger] v@[j]).1),
            exists|j: int| 0 <= j < v@.len() && last.0 == (#[trigger] v@[j]).0,
            exists|j: int| 0 <= j < v@.len() && last.1 == (#[trigger] v@[j]).1,
            forall|k: int| idx <= k < n ==> last.0 <= (#[trigger] v@[k]).0,
            forall|x: int|
                #![all_triggers]
                (intervals_cover(out@, x) || interval_covers(last, x)) == intervals_cover(
                    v@.subrange(0, idx as int),
                    x,
                ),
        decreases n - idx,
    {
        let ghost prefix = v@.subrange(0, idx as int);
        let ghost prefix1 = v@.subrange(0, idx + 1);
        let (s, e) = v[idx];
        proof {
            assert(prefix1.drop_last() =~= prefix);
            assert(prefix1[idx as int] == v@[idx as int]);
            assert forall|x: int|
                intervals_cover(prefix1, x) == (intervals_cover(prefix, x) || interval_covers(
                    v@[idx as int],
                    x,
                )) by {
                if intervals_cover(prefix1, x) {
                    let j = choose|j: int|
                        0 <= j < prefix1.len() && interval_covers(#[trigger] prefix1[j], x);
                    if j < idx {
                        assert(interval_covers(prefix[j], x));
                    }
                }
                if intervals_cover(prefix, x) {
                    let j = choose|j: int|
                        0 <= j < prefix.len() && interval_covers(#[trigger] prefix[j], x);
                    assert(interval_covers(prefix1[j], x));
                }
                if interval_covers(v@[idx as int], x) {
                    assert(interval_covers(prefix1[idx as int], x));
                }
            }
        }
        if s <= last.1 {
            let ghost last0 = last;
            let new_end = if e >= last.1 {
                e
            } else {
                last.1
            };
            last = (last.0, new_end);
            proof {
                assert forall|x: int|
                    (intervals_cover(out@, x) || interval_covers(last, x)) == intervals_cover(
                        prefix1,
                        x,
                    ) by {
                    assert((intervals_cover(out@, x) || interval_covers(last0, x))
                        == intervals_cover(prefix, x));
                    assert(intervals_cover(prefix1, x) == (intervals_cover(prefix, x)
                        || interval_covers(v@[idx as int], x)));
                    assert(interval_covers(last, x) == (interval_covers(last0, x)
                        || interval_covers(v@[idx as int], x)));
                }
            }
        } else {
            let ghost outb = out@;
            out.push(last);
            proof {
                assert forall|x: int|
                    (intervals_cover(out@, x) || interval_covers(v@[idx as int], x))
                        == (intervals_cover(outb, x) || interval_covers(last, x)
                        || interval_covers(v@[idx as int], x)) by {
                    if intervals_cover(out@, x) {
                        let j = choose|j: int|
                            0 <= j < out@.len() && interval_covers(#[trigger] out@[j], x);
                        if j < outb.len() {
                            assert(interval_covers(outb[j], x));
                        }
                    }
                    if intervals_cover(outb, x) {
                        let j = choose|j: int|
                            0 <= j < outb.len() && interval_covers(#[trigger] outb[j], x);
                        assert(interval_covers(out@[j], x));
                    }
                    if interval_covers(last, x) {
                        assert(interval_covers(out@[outb.len() as int], x));
                    }
                }
            }
            let ghost last0 = last;
            last = v[idx];
            proof {
                assert forall|x: int|
                    (intervals_cover(out@, x) || interval_covers(last, x)) == intervals_cover(
                        prefix1,
                        x,
                    ) by {
                    assert((intervals_cover(outb, x) || interval_covers(last0, x))
                        == intervals_cover(prefix, x));
                    assert(intervals_cover(prefix1, x) == (intervals_cover(prefix, x)
                        || interval_covers(v@[idx as int], x)));
                    assert((intervals_cover(out@, x) || interval_covers(v@[idx as int], x)) == (
                    intervals_cover(outb, x) || interval_covers(last0, x) || interval_covers(
                        v@[idx as int],
                        x,
                    )));
                }
            }
        }
        idx = idx + 1;
    }
    let ghost outb = out@;
    out.push(last);
    proof {
        assert(v@.subrange(0, n as int) =~= v@);
        assert forall|x: int| intervals_cover(out@, x) == intervals_cover(v@, x) by {
            assert((intervals_cover(outb, x) || interval_covers(last, x)) == intervals_cover(
                v@.subrange(0, n as int),
                x,
            ));
            if intervals_cover(out@, x) {
                let j = choose|j: int| 0 <= j < out@.len() && interval_covers(#[trigger] out@[j], x);
                if j < outb.len() {
                    assert(interval_covers(outb[j], x));
                } else {
                    assert(interval_covers(last, x));
                }
            }
            if intervals_cover(v@, x) {
                if intervals_cover(outb, x) {
                    let j = choose|j: int|
                        0 <= j < outb.len() && interval_covers(#[trigger] outb[j], x);
                    assert(interval_covers(out@[j], x));
                } else {
                    assert(interval_covers(last, x));
                    assert(interval_covers(out@[outb.len() as int], x));
                }
            }
        }
    }
    out
}

/// Strictly ascending values.
pub open spec fn strictly_sorted(ys: Seq<u32>) -> bool {
    forall|a: int, b: int| 0 <= a < b < ys.len() ==> ys[a] < ys[b]
}

/// Every vertical edge of every rect occurs among the values.
pub open spec fn edges_complete(rects: Seq<DirtyRect>, ys: Seq<u32>) -> bool {
    forall|i: int|
        0 <= i < rects.len() ==> ys.contains((#[trigger] rects[i]).min_y) && ys.contains(
            rects[i].max_y,
        )
}

/// Some rect overlapping the strip `[y0, y1)` covers column `x`.
pub open spec fn strip_covers(rects: Seq<DirtyRect>, y0: int, y1: int, x: int) -> bool {
    exists|i: int|
        0 <= i < rects.len() && (#[trigger] rects[i]).min_y < y1 && rects[i].max_y > y0
            && rects[i].min_x <= x < rects[i].max_x
}

/// Sort values ascending with adjacent swaps; membership is untouched.
fn sort_u32s(v: &mut Vec<u32>)
    ensures
        final(v)@.len() == old(v)@.len(),
        forall|a: int, b: int| 0 <= a < b < final(v)@.len() ==> final(v)@[a] <= final(v)@[b],
        forall|val: u32| #![all_triggers] final(v)@.contains(val) == old(v)@.contains(val),
{
    let n = v.len();
    let mut i: usize = 1;
    while i < n
        invariant
            n == v@.len(),
            v@.len() == old(v)@.len(),
            n == 0 || 1 <= i <= n,
            forall|a: int, b: int| 0 <= a < b < i ==> v@[a] <= v@[b],
            forall|val: u32| #![all_triggers] v@.contains(val) == old(v)@.contains(val),
        decreases n - i,
    {
        let mut k: usize = i;
        while k > 0 && v[k - 1] > v[k]
            invariant
                n == v@.len(),
                v@.len() == old(v)@.len(),
                i < n,
                k <= i,
                forall|a: int, b: int| 0 <= a < b <= i && b != k ==> v@[a] <= v@[b],
                forall|b: int| k < b <= i ==> v@[b] >= v@[k as int],
                forall|val: u32| #![all_triggers] v@.contains(val) == old(v)@.contains(val),
            decreases k,
        {
            let ghost before = v@;
            let a = v[k - 1];
            let b = v[k];
            v.set(k - 1, b);
            v.set(k, a);
            proof {
                assert forall|val: u32| v@.contains(val) == before.contains(val) by {
                    if v@.contains(val) {
                        let j = choose|j: int| 0 <= j < v@.len() && v@[j] == val;
                        if j == k - 1 {
                            assert(before[k as int] == val);
                        } else if j == k {
                            assert(before[k - 1] == val);
                        } else {
                            assert(before[j] == val);
                        }
                    }
                    if before.contains(val) {
                        let j = choose|j: int| 0 <= j < before.len() && before[j] == val;
                        if j == k - 1 {
                            assert(v@[k as int] == val);
                        } else if j == k {
                            assert(v@[k - 1] == val);
                        } else {
                            assert(v@[j] == val);
                        }
                    }
                }
            }
            k = k - 1;
        }
        i = i + 1;
    }
}

/// Collapse equal neighbours of an ascending list into a strictly ascending
/// one; membership is untouched.
fn dedup_sorted(v: &Vec<u32>) -> (out: Vec<u32>)
    requires
        forall|a: int, b: int| 0 <= a < b < v@.len() ==> v@[a] <= v@[b],
    ensures
        strictly_sorted(out@),
        forall|val: u32| #![all_triggers] out@.contains(val) == v@.contains(val),
{
    let n = v.len();
    let mut out: Vec<u32> = Vec::new();
    let mut i: usize = 0;
    while i < n
        invariant
            n == v@.len(),
            i <= n,
            forall|a: int, b: int| 0 <= a < b < v@.len() ==> v@[a] <= v@[b],
            strictly_sorted(out@),
            out@.len() > 0 ==> i > 0 && out@[out@.len() - 1] == v@[i - 1],
            forall|val: u32| #![all_triggers] out@.contains(val) == v@.subrange(0, i as int).contains(val),
        decreases n - i,
    {
        let ghost outb = out@;
        let ghost pre = v@.subrange(0, i as int);
        let ghost pre1 = v@.subrange(0, i + 1);
        let cur = v[i];
        let push_it = if out.len() == 0 {
            true
        } else {
            let last = out[out.len() - 1];
            last != cur
        };
        if push_it {
            out.push(cur);
        }
        proof {
            assert(pre1.drop_last() =~= pre);
            assert(pre1[i as int] == v@[i as int]);
            assert forall|val: u32| out@.contains(val) == pre1.contains(val) by {
                if out@.contains(val) {
                    let j = choose|j: int| 0 <= j < out@.len() && out@[j] == val;
                    if j < outb.len() {
                        assert(outb[j] == val);
                        assert(outb.contains(val));
                        let j2 = choose|j2: int| 0 <= j2 < pre.len() && pre[j2] == val;
                        assert(pre1[j2] == val);
                    } else {
                        assert(val == cur);
                        assert(pre1[i as int] == val);
                    }
                }
                if pre1.contains(val) {
                    let j = choose|j: int| 0 <= j < pre1.len() && pre1[j] == val;
                    if j < i {
                        assert(pre[j] == val);
                        assert(outb.contains(val));
                        let j2 = choose|j2: int| 0 <= j2 < outb.len() && outb[j2] == val;
                        assert(out@[j2] == val);
                    } else {
                        assert(val == cur);
                        if push_it {
                            assert(out@[out@.len() - 1] == val);
                        } else {
                            assert(outb[outb.len() - 1] == val);
                            assert(out@[out@.len() - 1] == val);
                        }
                    }
                }
            }
        }
        i = i + 1;
    }
    proof {
        assert(v@.subrange(0, n as int) =~= v@);
    }
    out
}

/// A rect overlapping a strip between adjacent edge values spans the whole
/// strip.
proof fn lemma_strip_span(rects: Seq<DirtyRect>, ys: Seq<u32>, s: int, i: int)
    requires
        strictly_sorted(ys),
        edges_complete(rects, ys),
        0 <= s,
        s + 1 < ys.len(),
        0 <= i < rects.len(),
        rects[i].min_y < ys[s + 1],
        rects[i].max_y > ys[s],
    ensures
        rects[i].min_y <= ys[s],
        rects[i].max_y >= ys[s + 1],
{
    let t1 = choose|t: int| 0 <= t < ys.len() && ys[t] == rects[i].min_y;
    let t2 = choose|t: int| 0 <= t < ys.len() && ys[t] == rects[i].max_y;
    if t1 > s {
        assert(ys[s + 1] <= ys[t1]);
    }
    if t2 < s + 1 {
        assert(ys[t2] <= ys[s]);
    }
}

/// A coordinate on the tile grid.
pub open spec fn tile_aligned(v: u32) -> bool {
    v % TILE_SIZE == 0
}

/// The tile-snapped rectangle: min corner rounded down, max corner rounded
/// up to multiples of the tile size.
pub open spec fn spec_tiled_rect(b: DirtyRect) -> DirtyRect {
    DirtyRect {
        min_x: ((b.min_x as int) / (TILE_SIZE as int) * (TILE_SIZE as int)) as u32,
        min_y: ((b.min_y as int) / (TILE_SIZE as int) * (TILE_SIZE as int)) as u32,
        max_x: ((b.max_x + TILE_SIZE - 1) / (TILE_SIZE as int) * (TILE_SIZE as int)) as u32,
        max_y: ((b.max_y + TILE_SIZE - 1) / (TILE_SIZE as int) * (TILE_SIZE as int)) as u32,
    }
}

impl ComputeTiledDirtyRects {
    /// Snap every input rect to tile boundaries and decompose their union
    /// into rects that pairwise share no point and together cover exactly
    /// the union of the snapped inputs: one run of merged x-intervals per
    /// horizontal strip between adjacent snapped edges.
    #[verifier::rlimit(100)]
    #[verifier::spinoff_prover]
    pub fn set_bboxes(&mut self, boxes: &Vec<DirtyRect>)
        requires
            forall|i: int|
                0 <= i < boxes@.len() ==> (#[trigger] boxes@[i]).wf() && boxes@[i].max_x
                    + TILE_SIZE <= u32::MAX && boxes@[i].max_y + TILE_SIZE <= u32::MAX,
        ensures
            final(self).bboxes@.len() == boxes@.len(),
            forall|i: int|
                0 <= i < boxes@.len() ==> final(self).bboxes@[i] == spec_tiled_rect(
                    #[trigger] boxes@[i],
                ),
            forall|i: int, j: int, x: int, y: int|
                #![trigger final(self).minimal_non_overlapping_bboxes@[i].contains(x, y), final(self).minimal_non_overlapping_bboxes@[j].contains(x, y)]
                0 <= i < j < final(self).minimal_non_overlapping_bboxes@.len() ==> !(final(self).minimal_non_overlapping_bboxes@[i].contains(x, y) && final(self).minimal_non_overlapping_bboxes@[j].contains(x, y)),
            forall|x: int, y: int|
                #![all_triggers]
                rects_cover(final(self).minimal_non_overlapping_bboxes@, x, y) == rects_cover(
                    final(self).bboxes@,
                    x,
                    y,
                ),
            forall|r: int|
                0 <= r < final(self).minimal_non_overlapping_bboxes@.len() ==> {
                    let b = #[trigger] final(self).minimal_non_overlapping_bboxes@[r];
                    tile_aligned(b.min_x) && tile_aligned(b.min_y) && tile_aligned(b.max_x)
                        && tile_aligned(b.max_y)
                },
    {
        let nb = boxes.len();
        let mut snapped: Vec<DirtyRect> = Vec::new();
        let mut bi: usize = 0;
        while bi < nb
            invariant
                nb == boxes@.len(),
                bi <= nb,
                forall|i: int|
                    0 <= i < boxes@.len() ==> (#[trigger] boxes@[i]).wf() && boxes@[i].max_x
                        + TILE_SIZE <= u32::MAX && boxes@[i].max_y + TILE_SIZE <= u32::MAX,
                snapped@.len() == bi,
                forall|i: int|
                    0 <= i < bi ==> #[trigger] snapped@[i] == spec_tiled_rect(boxes@[i]),
                forall|i: int|
                    0 <= i < bi ==> (#[trigger] snapped@[i]).min_x <= snapped@[i].max_x
                        && snapped@[i].min_y <= snapped@[i].max_y,
                forall|i: int|
                    0 <= i < bi ==> tile_aligned((#[trigger] snapped@[i]).min_x) && tile_aligned(
                        snapped@[i].min_y,
                    ) && tile_aligned(snapped@[i].max_x) && tile_aligned(snapped@[i].max_y),
            decreases nb - bi,
        {
            let b = boxes[bi];
            let t = b.tiled::<TILE_SIZE>();
            proof {
                assert(forall|v: int| v >= 0 ==> #[trigger] (v / 64 * 64) <= v) by (nonlinear_arith);
                assert(forall|v: int| v >= 0 ==> v <= #[trigger] ((v + 63) / 64 * 64)) by (nonlinear_arith);
                assert(forall|q: int| 0 <= q ==> #[trigger] ((q * 64) % 64) == 0) by (nonlinear_arith);
                assert(t == spec_tiled_rect(b));
                assert(tile_aligned(t.min_x) && tile_aligned(t.min_y) && tile_aligned(t.max_x)
                    && tile_aligned(t.max_y));
            }
            snapped.push(t);
            bi = bi + 1;
        }

        let mut ys_raw: Vec<u32> = Vec::new();
        let mut bi2: usize = 0;
        while bi2 < nb
            invariant
                nb == snapped@.len(),
                bi2 <= nb,
                forall|i: int|
                    0 <= i < bi2 ==> ys_raw@.contains((#[trigger] snapped@[i]).min_y)
                        && ys_raw@.contains(snapped@[i].max_y),
                forall|r: int|
                    0 <= r < ys_raw@.len() ==> exists|i: int|
                        0 <= i < nb && ((#[trigger] ys_raw@[r]) == (#[trigger] snapped@[i]).min_y
                            || ys_raw@[r] == snapped@[i].max_y),
            decreases nb - bi2,
        {
            let ghost r0 = ys_raw@;
            ys_raw.push(snapped[bi2].min_y);
            let ghost r1 = ys_raw@;
            ys_raw.push(snapped[bi2].max_y);
            proof {
                assert(ys_raw@[r1.len() as int] == snapped@[bi2 as int].max_y);
                assert(ys_raw@[r0.len() as int] == snapped@[bi2 as int].min_y);
                assert forall|i: int|
                    0 <= i < bi2 + 1 implies ys_raw@.contains((#[trigger] snapped@[i]).min_y)
                    && ys_raw@.contains(snapped@[i].max_y) by {
                    if i < bi2 {
                        let j1 = choose|j: int| 0 <= j < r0.len() && r0[j] == snapped@[i].min_y;
                        assert(ys_raw@[j1] == snapped@[i].min_y);
                        let j2 = choose|j: int| 0 <= j < r0.len() && r0[j] == snapped@[i].max_y;
                        assert(ys_raw@[j2] == snapped@[i].max_y);
                    }
                }
                assert forall|r: int| 0 <= r < ys_raw@.len() implies exists|i: int|
                    0 <= i < nb && ((#[trigger] ys_raw@[r]) == (#[trigger] snapped@[i]).min_y
                        || ys_raw@[r] == snapped@[i].max_y) by {
                    if r < r0.len() {
                        assert(ys_raw@[r] == r0[r]);
                        let i = choose|i: int|
                            0 <= i < nb && ((#[trigger] r0[r]) == (#[trigger] snapped@[i]).min_y
                                || r0[r] == snapped@[i].max_y);
                        assert(ys_raw@[r] == snapped@[i].min_y || ys_raw@[r] == snapped@[i].max_y);
                    } else if r == r0.len() as int {
                        assert(ys_raw@[r] == snapped@[bi2 as int].min_y);
                    } else {
                        assert(ys_raw@[r] == snapped@[bi2 as int].max_y);
                    }
                }
            }
            bi2 = bi2 + 1;
        }
        let ghost ys_raw0 = ys_raw@;
        sort_u32s(&mut ys_raw);
        let ys = dedup_sorted(&ys_raw);
        proof {
            assert(edges_complete(snapped@, ys@));
            assert forall|t: int| 0 <= t < ys@.len() implies tile_aligned(#[trigger] ys@[t]) by {
                assert(ys@.contains(ys@[t]));
                assert(ys_raw@.contains(ys@[t]));
                assert(ys_raw0.contains(ys@[t]));
                let r = choose|r: int| 0 <= r < ys_raw0.len() && ys_raw0[r] == ys@[t];
                let i = choose|i: int|
                    0 <= i < nb && ((#[trigger] ys_raw0[r]) == (#[trigger] snapped@[i]).min_y
                        || ys_raw0[r] == snapped@[i].max_y);
            }
        }

        let mut out: Vec<DirtyRect> = Vec::new();
        let ylen = ys.len();
        proof {
            if ylen > 0 {
                assert forall|x: int, y: int|
                    #![all_triggers]
                    rects_cover(out@, x, y) == (rects_cover(snapped@, x, y) && y
                        < ys@[0]) by {
                    if rects_cover(snapped@, x, y) && y < ys@[0] {
                        let i = choose|i: int|
                            0 <= i < snapped@.len() && (#[trigger] snapped@[i]).contains(x, y);
                        let t = choose|t: int| 0 <= t < ys@.len() && ys@[t] == snapped@[i].min_y;
                        assert(ys@[0] <= ys@[t]);
                        assert(false);
                    }
                }
            }
        }
        let ghost snapped0 = snapped@;
        let mut s: usize = 0;
        while s + 1 < ylen
            invariant
                snapped@ == snapped0,
                nb == snapped@.len(),
                ylen == ys@.len(),
                s + 1 <= ylen || s == 0,
                strictly_sorted(ys@),
                edges_complete(snapped@, ys@),
                forall|i: int|
                    0 <= i < snapped@.len() ==> (#[trigger] snapped@[i]).min_x <= snapped@[i].max_x
                        && snapped@[i].min_y <= snapped@[i].max_y,
                ylen > 0 ==> s < ylen,
                forall|r: int| 0 <= r < out@.len() ==> (#[trigger] out@[r]).max_y <= ys@[s as int],
                forall|r: int| 0 <= r < out@.len() ==> (#[trigger] out@[r]).min_y <= out@[r].max_y,
                forall|t: int| 0 <= t < ys@.len() ==> tile_aligned(#[trigger] ys@[t]),
                forall|i: int|
                    0 <= i < snapped@.len() ==> tile_aligned((#[trigger] snapped@[i]).min_x)
                        && tile_aligned(snapped@[i].min_y) && tile_aligned(snapped@[i].max_x)
                        && tile_aligned(snapped@[i].max_y),
                forall|r: int|
                    0 <= r < out@.len() ==> tile_aligned((#[trigger] out@[r]).min_x)
                        && tile_aligned(out@[r].min_y) && tile_aligned(out@[r].max_x)
                        && tile_aligned(out@[r].max_y),
                forall|i: int, j: int, x: int, y: int|
                    #![trigger out@[i].contains(x, y), out@[j].contains(x, y)]
                    0 <= i < j < out@.len() ==> !(out@[i].contains(x, y) && out@[j].contains(
                        x,
                        y,
                    )),
                forall|x: int, y: int|
                    #![all_triggers]
                    rects_cover(out@, x, y) == (rects_cover(snapped@, x, y) && y < ys@[s as int]),
            decreases ylen - s,
        {
            let y0 = ys[s];
            let y1 = ys[s + 1];
            let mut xiv: Vec<(u32, u32)> = Vec::new();
            let mut k: usize = 0;
            while k < nb
                invariant
                    nb == snapped@.len(),
                    k <= nb,
                    s + 1 < ys@.len(),
                    y0 == ys@[s as int],
                    y1 == ys@[s + 1],
                    forall|i: int|
                        0 <= i < snapped@.len() ==> (#[trigger] snapped@[i]).min_x
                            <= snapped@[i].max_x && snapped@[i].min_y <= snapped@[i].max_y,
                    forall|a: int| 0 <= a < xiv@.len() ==> (#[trigger] xiv@[a]).0 <= xiv@[a].1,
                    forall|a: int|
                        0 <= a < xiv@.len() ==> exists|i: int|
                            0 <= i < nb && (#[trigger] xiv@[a]).0 == (#[trigger] snapped@[i]).min_x
                                && xiv@[a].1 == snapped@[i].max_x,
                    forall|x: int|
                        #![all_triggers]
                        intervals_cover(xiv@, x) == strip_covers(
                            snapped@.subrange(0, k as int),
                            y0 as int,
                            y1 as int,
                            x,
                        ),
                decreases nb - k,
            {
                let ghost pre = snapped@.subrange(0, k as int);
                let ghost pre1 = snapped@.subrange(0, k + 1);
                let ghost xb = xiv@;
                let bsn = snapped[k];
                if bsn.min_y < y1 && bsn.max_y > y0 {
                    xiv.push((bsn.min_x, bsn.max_x));
                }
                proof {
                    assert forall|a: int| 0 <= a < xiv@.len() implies exists|i: int|
                        0 <= i < nb && (#[trigger] xiv@[a]).0 == (#[trigger] snapped@[i]).min_x
                            && xiv@[a].1 == snapped@[i].max_x by {
                        if a < xb.len() {
                            assert(xiv@[a] == xb[a]);
                            let i = choose|i: int|
                                0 <= i < nb && (#[trigger] xb[a]).0 == (#[trigger] snapped@[i]).min_x
                                    && xb[a].1 == snapped@[i].max_x;
                            assert(xiv@[a].0 == snapped@[i].min_x && xiv@[a].1
                                == snapped@[i].max_x);
                        } else {
                            assert(xiv@[a].0 == snapped@[k as int].min_x && xiv@[a].1
                                == snapped@[k as int].max_x);
                        }
                    }
                    assert(pre1.drop_last() =~= pre);
                    assert(pre1[k as int] == snapped@[k as int]);
                    assert forall|x: int| intervals_cover(xiv@, x) == strip_covers(
                        pre1,
                        y0 as int,
                        y1 as int,
                        x,
                    ) by {
                        if intervals_cover(xiv@, x) {
                            let a = choose|a: int|
                                0 <= a < xiv@.len() && interval_covers(#[trigger] xiv@[a], x);
                            if a < xb.len() {
                                assert(interval_covers(xb[a], x));
                                assert(strip_covers(pre, y0 as int, y1 as int, x));
                                let i = choose|i: int|
                                    0 <= i < pre.len() && (#[trigger] pre[i]).min_y < y1
                                        && pre[i].max_y > y0 && pre[i].min_x <= x < pre[i].max_x;
                                assert(pre1[i] == pre[i]);
                            } else {
                                assert(pre1[k as int].min_y < y1 && pre1[k as int].max_y > y0
                                    && pre1[k as int].min_x <= x < pre1[k as int].max_x);
                            }
                        }
                        if strip_covers(pre1, y0 as int, y1 as int, x) {
                            let i = choose|i: int|
                                0 <= i < pre1.len() && (#[trigger] pre1[i]).min_y < y1
                                    && pre1[i].max_y > y0 && pre1[i].min_x <= x < pre1[i].max_x;
                            if i < k {
                                assert(pre[i] == pre1[i]);
                                assert(strip_covers(pre, y0 as int, y1 as int, x));
                                assert(intervals_cover(xb, x));
                                let a = choose|a: int|
                                    0 <= a < xb.len() && interval_covers(#[trigger] xb[a], x);
                                assert(interval_covers(xiv@[a], x));
                            } else {
                                assert(interval_covers(xiv@[xb.len() as int], x));
                            }
                        }
                    }
                }
                k = k + 1;
            }
            proof {
                assert(snapped@.subrange(0, nb as int) =~= snapped@);
            }
            let ghost xiv0 = xiv@;
            sort_intervals(&mut xiv);
            proof {
                assert forall|a: int| 0 <= a < xiv@.len() implies (#[trigger] xiv@[a]).0
                    <= xiv@[a].1 && tile_aligned(xiv@[a].0) && tile_aligned(xiv@[a].1) by {
                    assert(xiv@.contains(xiv@[a]));
                    assert(xiv0.contains(xiv@[a]));
                    let j = choose|j: int| 0 <= j < xiv0.len() && xiv0[j] == xiv@[a];
                    assert(xiv0[j].0 == xiv@[a].0 && xiv0[j].1 == xiv@[a].1);
                    let i = choose|i: int|
                        0 <= i < nb && (#[trigger] xiv0[j]).0 == (#[trigger] snapped@[i]).min_x
                            && xiv0[j].1 == snapped@[i].max_x;
                }
            }
            let merged = merge_intervals(&xiv);
            proof {
                assert forall|a: int| 0 <= a < merged@.len() implies tile_aligned(
                    (#[trigger] merged@[a]).0,
                ) && tile_aligned(merged@[a].1) by {
                    let j1 = choose|j: int|
                        0 <= j < xiv@.len() && (#[trigger] merged@[a]).0 == (#[trigger] xiv@[j]).0;
                    let j2 = choose|j: int|
                        0 <= j < xiv@.len() && merged@[a].1 == (#[trigger] xiv@[j]).1;
                }
            }
            let ghost outb = out@;
            let ghost prevlen = out@.len() as int;
            let nm = merged.len();
            // the first merged interval may continue the rect emitted for the
            // same x-run in the previous strip; later intervals always open
            // new rects
            let mut extended = false;
            if nm > 0 {
                let iv0 = merged[0];
                let olen = out.len();
                if olen > 0 {
                    let last = out[olen - 1];
                    if last.min_x == iv0.0 && last.max_x == iv0.1 && last.max_y == y0 {
                        let lr = DirtyRect {
                            min_x: last.min_x,
                            min_y: last.min_y,
                            max_x: last.max_x,
                            max_y: y1,
                        };
                        out.set(olen - 1, lr);
                        extended = true;
                    }
                }
                if !extended {
                    out.push(DirtyRect { min_x: iv0.0, min_y: y0, max_x: iv0.1, max_y: y1 });
                }
            }
            let ghost mid = out@;
            let ghost idx0: int = if extended {
                prevlen - 1
            } else {
                prevlen
            };
            let mut q: usize = 1;
            while q < nm
                invariant
                    nm == merged@.len(),
                    1 <= q,
                    q <= nm || nm == 0,
                    nm == 0 ==> q == 1,
                    y0 == ys@[s as int],
                    y1 == ys@[s + 1],
                    out@.len() == mid.len() + q - 1,
                    forall|t: int| 0 <= t < mid.len() ==> #[trigger] out@[t] == mid[t],
                    forall|t: int|
                        0 <= t < q - 1 ==> #[trigger] out@[mid.len() + t] == (DirtyRect {
                            min_x: merged@[1 + t].0,
                            min_y: y0,
                            max_x: merged@[1 + t].1,
                            max_y: y1,
                        }),
                decreases nm - q,
            {
                let iv = merged[q];
                out.push(DirtyRect { min_x: iv.0, min_y: y0, max_x: iv.1, max_y: y1 });
                q = q + 1;
            }
            proof {
                assert(s + 1 < ylen);
                assert(y0 < y1);
                if nm == 0 {
                    assert(out@ == outb);
                    assert forall|x: int, y: int|
                        #![all_triggers]
                        rects_cover(out@, x, y) == (rects_cover(snapped@, x, y) && y < ys@[s
                            + 1]) by {
                        assert(rects_cover(outb, x, y) == (rects_cover(snapped@, x, y) && y
                            < ys@[s as int]));
                        assert(intervals_cover(merged@, x) == strip_covers(
                            snapped@,
                            y0 as int,
                            y1 as int,
                            x,
                        ));
                        if rects_cover(snapped@, x, y) && ys@[s as int] <= y < ys@[s + 1] {
                            let i = choose|i: int|
                                0 <= i < snapped@.len() && (#[trigger] snapped@[i]).contains(x, y);
                            assert(strip_covers(snapped@, y0 as int, y1 as int, x));
                            assert(false);
                        }
                    }
                } else {
                    // where each rect of the new state comes from
                    assert(out@.len() == idx0 + nm);
                    assert forall|r: int| 0 <= r < idx0 implies #[trigger] out@[r] == outb[r] by {
                        assert(out@[r] == mid[r]);
                    }
                    assert(extended ==> outb[prevlen - 1].min_x == merged@[0].0
                        && outb[prevlen - 1].max_x == merged@[0].1 && outb[prevlen - 1].max_y
                        == y0);
                    assert forall|r: int| idx0 <= r < out@.len() implies (#[trigger] out@[r]).min_x
                        == merged@[r - idx0].0 && out@[r].max_x == merged@[r - idx0].1
                        && out@[r].max_y == y1 && out@[r].min_y <= y0 && (r == idx0
                        || out@[r].min_y == y0) by {
                        let t = r - idx0;
                        if t == 0 {
                            assert(out@[idx0] == mid[idx0]);
                            if extended {
                                assert(outb[prevlen - 1].min_y <= outb[prevlen - 1].max_y);
                            }
                        } else {
                            assert(out@[mid.len() + (t - 1)] == (DirtyRect {
                                min_x: merged@[t].0,
                                min_y: y0,
                                max_x: merged@[t].1,
                                max_y: y1,
                            }));
                        }
                    }
                    assert forall|r: int| 0 <= r < out@.len() implies (#[trigger] out@[r]).max_y
                        <= ys@[s + 1] by {
                        if r < idx0 {
                            assert(out@[r] == outb[r]);
                            assert(outb[r].max_y <= ys@[s as int]);
                        }
                    }
                    assert forall|r: int| 0 <= r < out@.len() implies (#[trigger] out@[r]).min_y
                        <= out@[r].max_y by {
                        if r < idx0 {
                            assert(out@[r] == outb[r]);
                        } else if r == idx0 && extended {
                            assert(outb[prevlen - 1].min_y <= outb[prevlen - 1].max_y);
                        }
                    }
                    // disjointness
                    assert forall|i: int, j: int, x: int, y: int|
                        0 <= i < j < out@.len() implies !(out@[i].contains(x, y)
                        && out@[j].contains(x, y)) by {
                        if out@[i].contains(x, y) && out@[j].contains(x, y) {
                            if j < idx0 {
                                assert(outb[i].contains(x, y) && outb[j].contains(x, y));
                            } else if i >= idx0 {
                                assert(merged@[i - idx0].1 < merged@[j - idx0].0);
                            } else {
                                // an untouched rect of earlier strips against
                                // a rect of this strip
                                assert(out@[i] == outb[i]);
                                assert(outb[i].max_y <= y0);
                                if j == idx0 && extended {
                                    if y < y0 {
                                        assert(outb[prevlen - 1].contains(x, y));
                                        assert(outb[i].contains(x, y));
                                    }
                                } else {
                                    assert(out@[j].min_y == y0);
                                }
                            }
                        }
                    }
                    // coverage
                    assert forall|x: int, y: int|
                        #![all_triggers]
                        rects_cover(out@, x, y) == (rects_cover(snapped@, x, y) && y < ys@[s
                            + 1]) by {
                        assert(rects_cover(outb, x, y) == (rects_cover(snapped@, x, y) && y
                            < ys@[s as int]));
                        assert(intervals_cover(merged@, x) == strip_covers(
                            snapped@,
                            y0 as int,
                            y1 as int,
                            x,
                        ));
                        if rects_cover(out@, x, y) {
                            let r = choose|r: int|
                                0 <= r < out@.len() && (#[trigger] out@[r]).contains(x, y);
                            if r < idx0 {
                                assert(outb[r].contains(x, y));
                                assert(rects_cover(snapped@, x, y) && y < ys@[s as int]);
                            } else if y < y0 {
                                assert(r == idx0 && extended);
                                assert(outb[prevlen - 1].contains(x, y));
                                assert(rects_cover(outb, x, y));
                            } else {
                                assert(interval_covers(merged@[r - idx0], x));
                                assert(intervals_cover(merged@, x));
                                assert(strip_covers(snapped@, y0 as int, y1 as int, x));
                                let i = choose|i: int|
                                    0 <= i < snapped@.len() && (#[trigger] snapped@[i]).min_y < y1
                                        && snapped@[i].max_y > y0 && snapped@[i].min_x <= x
                                        < snapped@[i].max_x;
                                lemma_strip_span(snapped@, ys@, s as int, i);
                                assert(snapped@[i].contains(x, y));
                            }
                        }
                        if rects_cover(snapped@, x, y) && y < ys@[s + 1] {
                            if y < ys@[s as int] {
                                assert(rects_cover(outb, x, y));
                                let r = choose|r: int|
                                    0 <= r < outb.len() && (#[trigger] outb[r]).contains(x, y);
                                if extended && r == prevlen - 1 {
                                    assert(out@[idx0].contains(x, y));
                                } else {
                                    assert(out@[r] == outb[r]);
                                    assert(out@[r].contains(x, y));
                                }
                            } else {
                                let i = choose|i: int|
                                    0 <= i < snapped@.len() && (#[trigger] snapped@[i]).contains(
                                        x,
                                        y,
                                    );
                                assert(snapped@[i].min_y < y1 && snapped@[i].max_y > y0
                                    && snapped@[i].min_x <= x < snapped@[i].max_x);
                                assert(strip_covers(snapped@, y0 as int, y1 as int, x));
                                assert(intervals_cover(merged@, x));
                                let a = choose|a: int|
                                    0 <= a < merged@.len() && interval_covers(
                                        #[trigger] merged@[a],
                                        x,
                                    );
                                assert(out@[idx0 + a].contains(x, y));
                            }
                        }
                    }
                }
            }
            s = s + 1;
        }
        proof {
            if ylen == 0 {
                assert forall|x: int, y: int| !rects_cover(snapped@, x, y) by {
                    if rects_cover(snapped@, x, y) {
                        let i = choose|i: int|
                            0 <= i < snapped@.len() && (#[trigger] snapped@[i]).contains(x, y);
                        assert(ys@.contains(snapped@[i].min_y));
                    }
                }
            } else {
                assert(s == ylen - 1);
                assert forall|x: int, y: int|
                    #![all_triggers]
                    rects_cover(out@, x, y) == rects_cover(snapped@, x, y) by {
                    assert(rects_cover(out@, x, y) == (rects_cover(snapped@, x, y) && y
                        < ys@[s as int]));
                    if rects_cover(snapped@, x, y) && y >= ys@[s as int] {
                        let i = choose|i: int|
                            0 <= i < snapped@.len() && (#[trigger] snapped@[i]).contains(x, y);
                        let t = choose|t: int| 0 <= t < ys@.len() && ys@[t] == snapped@[i].max_y;
                        if t < ylen - 1 {
                            assert(ys@[t] <= ys@[ylen - 1]);
                        }
                        assert(snapped@[i].max_y <= ys@[s as int]);
                        assert(false);
                    }
                }
            }
        }
        self.minimal_non_overlapping_bboxes = out;
        self.bboxes = snapped;
    }
}

} // verus!
