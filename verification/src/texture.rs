//! The texture store: 32-bit-per-pixel textures keyed by their encoded id,
//! created whole, patched in place, and freed by the per-frame delta.
//!
//! Channel swizzling to the renderer's field order happens before ingest and
//! bilinear sampling works on `f32` coordinates, so both stay with the
//! caller; the store holds and updates the texel data.

use vstd::prelude::*;

use crate::buffer::{as_usize, lemma_row_disjoint};

verus! {

/// A 2D RGBA texture: `width * height` texels, row-major.
#[derive(Debug)]
pub struct Texture {
    pub width: u32,
    pub height: u32,
    pub data: Vec<[u8; 4]>,
}

impl Texture {
    /// Positive dimensions consistent with the texel data.
    pub open spec fn wf(self) -> bool {
        &&& self.width >= 1
        &&& self.height >= 1
        &&& self.data@.len() == self.width * self.height
        &&& self.width * self.height <= u32::MAX
    }

    /// The texel at `(x, y)`.
    pub open spec fn texel(self, x: int, y: int) -> [u8; 4] {
        self.data@[y * self.width + x]
    }

    /// In-texture index arithmetic stays inside the data.
    pub proof fn lemma_texel_bounds(self, x: int, y: int)
        requires
            self.wf(),
            0 <= x < self.width,
            0 <= y < self.height,
        ensures
            0 <= y * self.width + x < self.data@.len(),
            y * self.width + x <= u32::MAX,
    {
        vstd::arithmetic::mul::lemma_mul_inequality(y + 1, self.height as int, self.width as int);
        assert((y + 1) * self.width == y * self.width + self.width) by (nonlinear_arith);
        vstd::arithmetic::mul::lemma_mul_is_commutative(self.height as int, self.width as int);
        vstd::arithmetic::mul::lemma_mul_nonnegative(y, self.width as int);
    }
}

/// Textures keyed by their encoded id (see
/// [`crate::hash::encode_texture_id`]), each id at most once.
#[derive(Debug)]
pub struct TextureStore {
    pub entries: Vec<(u32, Texture)>,
}

impl TextureStore {
    /// Ids are pairwise distinct and every texture is well formed.
    pub open spec fn wf(self) -> bool {
        &&& forall|j1: int, j2: int|
            #![trigger self.entries@[j1], self.entries@[j2]]
            0 <= j1 < j2 < self.entries@.len() ==> self.entries@[j1].0 != self.entries@[j2].0
        &&& forall|j: int| 0 <= j < self.entries@.len() ==> (#[trigger] self.entries@[j]).1.wf()
    }

    /// The texture stored under `id`, if any.
    pub open spec fn spec_get(self, id: u32) -> Option<Texture> {
        if exists|j: int| 0 <= j < self.entries@.len() && (#[trigger] self.entries@[j]).0 == id {
            Some(
                self.entries@[choose|j: int|
                    0 <= j < self.entries@.len() && (#[trigger] self.entries@[j]).0 == id].1,
            )
        } else {
            None
        }
    }

    pub fn new() -> (r: Self)
        ensures
            r.wf(),
            r.entries@.len() == 0,
            forall|id: u32| #[trigger] r.spec_get(id) is None,
    {
        TextureStore { entries: Vec::new() }
    }

    /// In a store with distinct ids, the entry at a matching index is the
    /// stored texture.
    pub proof fn lemma_get_at(self, id: u32, j: int)
        requires
            self.wf(),
            0 <= j < self.entries@.len(),
            self.entries@[j].0 == id,
        ensures
            self.spec_get(id) == Some(self.entries@[j].1),
    {
        let j2 = choose|j2: int|
            0 <= j2 < self.entries@.len() && (#[trigger] self.entries@[j2]).0 == id;
        if j2 != j {
            assert(self.entries@[j2].0 != self.entries@[j].0);
        }
    }

    /// Index of the entry keyed `id`, if any.
    pub fn find(&self, id: u32) -> (r: Option<usize>)
        requires
            self.wf(),
        ensures
            match r {
                Some(j) => j < self.entries@.len() && self.entries@[j as int].0 == id
                    && self.spec_get(id) == Some(self.entries@[j as int].1),
                None => self.spec_get(id) is None,
            },
    {
        let n = self.entries.len();
        let mut j: usize = 0;
        while j < n
            invariant
                self.wf(),
                n == self.entries@.len(),
                j <= n,
                forall|j2: int| 0 <= j2 < j ==> (#[trigger] self.entries@[j2]).0 != id,
            decreases n - j,
        {
            if self.entries[j].0 == id {
                proof {
                    self.lemma_get_at(id, j as int);
                }
                return Some(j);
            }
            j = j + 1;
        }
        None
    }

    /// Texel `(x, y)` of the texture stored at index `j`.
    pub fn texel_at(&self, j: usize, x: u32, y: u32) -> (r: [u8; 4])
        requires
            self.wf(),
            j < self.entries@.len(),
            x < self.entries@[j as int].1.width,
            y < self.entries@[j as int].1.height,
        ensures
            r == self.entries@[j as int].1.texel(x as int, y as int),
    {
        let t = &self.entries[j].1;
        proof {
            t.lemma_texel_bounds(x as int, y as int);
        }
        t.data[as_usize(y * t.width + x)]
    }

    /// Whichever index changed, ids found elsewhere keep their texture.
    proof fn lemma_frame_except(self, other: Self, id: u32)
        requires
            self.wf(),
            other.wf(),
            forall|j: int|
                0 <= j < self.entries@.len() && (#[trigger] self.entries@[j]).0 != id
                    ==> exists|j2: int|
                    0 <= j2 < other.entries@.len() && #[trigger] other.entries@[j2]
                        == self.entries@[j],
            forall|j: int|
                0 <= j < other.entries@.len() && (#[trigger] other.entries@[j]).0 != id
                    ==> exists|j2: int|
                    0 <= j2 < self.entries@.len() && #[trigger] self.entries@[j2]
                        == other.entries@[j],
        ensures
            forall|k: u32| k != id ==> #[trigger] self.spec_get(k) == other.spec_get(k),
    {
        assert forall|k: u32| k != id implies #[trigger] self.spec_get(k) == other.spec_get(k) by {
            if self.spec_get(k) is Some {
                let j = choose|j: int|
                    0 <= j < self.entries@.len() && (#[trigger] self.entries@[j]).0 == k;
                let j2 = choose|j2: int|
                    0 <= j2 < other.entries@.len() && #[trigger] other.entries@[j2]
                        == self.entries@[j];
                self.lemma_get_at(k, j);
                other.lemma_get_at(k, j2);
            }
            if other.spec_get(k) is Some {
                let j = choose|j: int|
                    0 <= j < other.entries@.len() && (#[trigger] other.entries@[j]).0 == k;
                let j2 = choose|j2: int|
                    0 <= j2 < self.entries@.len() && #[trigger] self.entries@[j2]
                        == other.entries@[j];
                other.lemma_get_at(k, j);
                self.lemma_get_at(k, j2);
            }
        }
    }

    /// Create or replace the texture under `id` (a delta `set` without a
    /// position).
    pub fn set(&mut self, id: u32, width: u32, height: u32, pixels: Vec<[u8; 4]>)
        requires
            old(self).wf(),
            width >= 1,
            height >= 1,
            pixels@.len() == width * height,
            width * height <= u32::MAX,
        ensures
            final(self).wf(),
            final(self).spec_get(id) == Some(Texture { width, height, data: pixels }),
            forall|k: u32| k != id ==> #[trigger] final(self).spec_get(k) == old(self).spec_get(k),
    {
        let ghost tex_spec = Texture { width, height, data: pixels };
        let tex = Texture { width, height, data: pixels };
        let found = self.find(id);
        let ghost pre = *old(self);
        match found {
            Some(j) => {
                self.entries.set(j, (id, tex));
                proof {
                    assert forall|j1: int, j2: int|
                        #![trigger self.entries@[j1], self.entries@[j2]]
                        0 <= j1 < j2 < self.entries@.len() implies self.entries@[j1].0
                        != self.entries@[j2].0 by {
                        if j1 != j && j2 != j {
                            assert(self.entries@[j1] == pre.entries@[j1]);
                            assert(self.entries@[j2] == pre.entries@[j2]);
                        } else if j1 == j {
                            assert(self.entries@[j2] == pre.entries@[j2]);
                            assert(pre.entries@[j2].0 != pre.entries@[j as int].0);
                        } else {
                            assert(self.entries@[j1] == pre.entries@[j1]);
                            assert(pre.entries@[j1].0 != pre.entries@[j as int].0);
                        }
                    }
                    self.lemma_get_at(id, j as int);
                    assert forall|j2: int|
                        0 <= j2 < self.entries@.len() && (#[trigger] self.entries@[j2]).0
                            != id implies exists|j3: int|
                        0 <= j3 < pre.entries@.len() && #[trigger] pre.entries@[j3]
                            == self.entries@[j2] by {
                        assert(self.entries@[j2] == pre.entries@[j2]);
                    }
                    assert forall|j2: int|
                        0 <= j2 < pre.entries@.len() && (#[trigger] pre.entries@[j2]).0
                            != id implies exists|j3: int|
                        0 <= j3 < self.entries@.len() && #[trigger] self.entries@[j3]
                            == pre.entries@[j2] by {
                        assert(self.entries@[j2] == pre.entries@[j2]);
                    }
                    self.lemma_frame_except(pre, id);
                }
            },
            None => {
                let ghost m = self.entries@.len();
                self.entries.push((id, tex));
                proof {
                    assert forall|j1: int, j2: int|
                        #![trigger self.entries@[j1], self.entries@[j2]]
                        0 <= j1 < j2 < self.entries@.len() implies self.entries@[j1].0
                        != self.entries@[j2].0 by {
                        if j2 < m {
                            assert(self.entries@[j1] == pre.entries@[j1]);
                            assert(self.entries@[j2] == pre.entries@[j2]);
                        } else {
                            assert(self.entries@[j1] == pre.entries@[j1]);
                            if pre.entries@[j1].0 == id {
                                assert(pre.spec_get(id) is None);
                            }
                        }
                    }
                    self.lemma_get_at(id, m as int);
                    assert forall|j2: int|
                        0 <= j2 < self.entries@.len() && (#[trigger] self.entries@[j2]).0
                            != id implies exists|j3: int|
                        0 <= j3 < pre.entries@.len() && #[trigger] pre.entries@[j3]
                            == self.entries@[j2] by {
                        assert(self.entries@[j2] == pre.entries@[j2]);
                    }
                    assert forall|j2: int|
                        0 <= j2 < pre.entries@.len() && (#[trigger] pre.entries@[j2]).0
                            != id implies exists|j3: int|
                        0 <= j3 < self.entries@.len() && #[trigger] self.entries@[j3]
                            == pre.entries@[j2] by {
                        assert(self.entries@[j2] == pre.entries@[j2]);
                    }
                    self.lemma_frame_except(pre, id);
                }
            },
        }
    }

    /// Remove the texture under `id`, if present.
    pub fn free(&mut self, id: u32)
        requires
            old(self).wf(),
        ensures
            final(self).wf(),
            final(self).spec_get(id) is None,
            forall|k: u32| k != id ==> #[trigger] final(self).spec_get(k) == old(self).spec_get(k),
    {
        let found = self.find(id);
        match found {
            Some(j) => {
                let ghost pre = *old(self);
                self.entries.remove(j);
                proof {
                    assert forall|j1: int, j2: int|
                        #![trigger self.entries@[j1], self.entries@[j2]]
                        0 <= j1 < j2 < self.entries@.len() implies self.entries@[j1].0
                        != self.entries@[j2].0 && self.entries@[j1].1.wf()
                        && self.entries@[j2].1.wf() by {
                        let a1 = if j1 < j {
                            j1
                        } else {
                            j1 + 1
                        };
                        let a2 = if j2 < j {
                            j2
                        } else {
                            j2 + 1
                        };
                        assert(self.entries@[j1] == pre.entries@[a1]);
                        assert(self.entries@[j2] == pre.entries@[a2]);
                    }
                    assert forall|j2: int| 0 <= j2 < self.entries@.len() implies (
                    #[trigger] self.entries@[j2]).1.wf() && self.entries@[j2].0 != id by {
                        let a = if j2 < j {
                            j2
                        } else {
                            j2 + 1
                        };
                        assert(self.entries@[j2] == pre.entries@[a]);
                        if a != j {
                            assert(pre.entries@[a].0 != pre.entries@[j as int].0);
                        }
                    }
                    if self.spec_get(id) is Some {
                        let j2 = choose|j2: int|
                            0 <= j2 < self.entries@.len() && (#[trigger] self.entries@[j2]).0
                                == id;
                    }
                    assert forall|j2: int|
                        0 <= j2 < self.entries@.len() && (#[trigger] self.entries@[j2]).0
                            != id implies exists|j3: int|
                        0 <= j3 < pre.entries@.len() && #[trigger] pre.entries@[j3]
                            == self.entries@[j2] by {
                        let a = if j2 < j {
                            j2
                        } else {
                            j2 + 1
                        };
                        assert(pre.entries@[a] == self.entries@[j2]);
                    }
                    assert forall|j2: int|
                        0 <= j2 < pre.entries@.len() && (#[trigger] pre.entries@[j2]).0
                            != id implies exists|j3: int|
                        0 <= j3 < self.entries@.len() && #[trigger] self.entries@[j3]
                            == pre.entries@[j2] by {
                        if j2 < j {
                            assert(self.entries@[j2] == pre.entries@[j2]);
                        } else {
                            assert(self.entries@[j2 - 1] == pre.entries@[j2]);
                        }
                    }
                    self.lemma_frame_except(pre, id);
                }
            },
            None => {},
        }
    }

    /// Overwrite the texels of the patch window that fall inside the texture
    /// under `id` (a delta `set` with a position); an absent id changes
    /// nothing.
    pub fn patch(&mut self, id: u32, pos_x: u32, pos_y: u32, w: u32, h: u32, pixels: &Vec<[u8; 4]>)
        requires
            old(self).wf(),
            pixels@.len() == w * h,
            w * h <= u32::MAX,
            pos_x + w <= u32::MAX,
            pos_y + h <= u32::MAX,
        ensures
            final(self).wf(),
            old(self).spec_get(id) is None ==> *final(self) == *old(self),
            forall|k: u32| k != id ==> #[trigger] final(self).spec_get(k) == old(self).spec_get(k),
            (old(self).spec_get(id) is Some) ==> {
                let t0 = old(self).spec_get(id)->Some_0;
                let t1 = final(self).spec_get(id)->Some_0;
                &&& final(self).spec_get(id) is Some
                &&& t1.width == t0.width
                &&& t1.height == t0.height
                &&& forall|tx: int, ty: int|
                    0 <= tx < t0.width && 0 <= ty < t0.height ==> #[trigger] t1.texel(tx, ty) == (
                    if pos_x <= tx < pos_x + w && pos_y <= ty < pos_y + h {
                        pixels@[(ty - pos_y) * w + (tx - pos_x)]
                    } else {
                        t0.texel(tx, ty)
                    })
            },
    {
        let found = self.find(id);
        let j = match found {
            Some(j) => j,
            None => {
                return ;
            },
        };
        let ghost pre = *old(self);
        let (key, mut tex) = self.entries.remove(j);
        let ghost t0 = tex;
        let tw = tex.width;
        let th = tex.height;
        let mut y: u32 = 0;
        while y < h
            invariant
                t0.wf(),
                tex.width == t0.width,
                tex.height == t0.height,
                tex.data@.len() == t0.data@.len(),
                tw == t0.width,
                th == t0.height,
                pixels@.len() == w * h,
                w * h <= u32::MAX,
                pos_x + w <= u32::MAX,
                pos_y + h <= u32::MAX,
                y <= h,
                forall|tx: int, ty: int|
                    0 <= tx < t0.width && 0 <= ty < t0.height ==> #[trigger] tex.texel(tx, ty) == (
                    if pos_x <= tx < pos_x + w && pos_y <= ty < pos_y + y {
                        pixels@[(ty - pos_y) * w + (tx - pos_x)]
                    } else {
                        t0.texel(tx, ty)
                    }),
            decreases h - y,
        {
            let ty = pos_y + y;
            let mut x: u32 = 0;
            while x < w
                invariant
                    t0.wf(),
                    tex.width == t0.width,
                    tex.height == t0.height,
                    tex.data@.len() == t0.data@.len(),
                    tw == t0.width,
                    th == t0.height,
                    pixels@.len() == w * h,
                    w * h <= u32::MAX,
                    pos_x + w <= u32::MAX,
                    pos_y + h <= u32::MAX,
                    y < h,
                    x <= w,
                    ty == pos_y + y,
                    forall|tx: int, ty2: int|
                        0 <= tx < t0.width && 0 <= ty2 < t0.height ==> #[trigger] tex.texel(
                            tx,
                            ty2,
                        ) == (if (pos_x <= tx < pos_x + w && pos_y <= ty2 < pos_y + y) || (ty2
                            == pos_y + y && pos_x <= tx < pos_x + x) {
                            pixels@[(ty2 - pos_y) * w + (tx - pos_x)]
                        } else {
                            t0.texel(tx, ty2)
                        }),
                decreases w - x,
            {
                let tx = pos_x + x;
                if tx < tw && ty < th {
                    let ghost before = tex;
                    proof {
                        tex.lemma_texel_bounds(tx as int, ty as int);
                        vstd::arithmetic::mul::lemma_mul_inequality(
                            y as int + 1,
                            h as int,
                            w as int,
                        );
                        assert((y as int + 1) * (w as int) == (y as int) * (w as int)
                            + w) by (nonlinear_arith);
                        vstd::arithmetic::mul::lemma_mul_is_commutative(h as int, w as int);
                        vstd::arithmetic::mul::lemma_mul_nonnegative(y as int, w as int);
                    }
                    let src = pixels[as_usize(y * w + x)];
                    let idx = as_usize(ty * tw + tx);
                    tex.data.set(idx, src);
                    proof {
                        assert forall|tx2: int, ty2: int|
                            0 <= tx2 < t0.width && 0 <= ty2 < t0.height && !(ty2 == ty && tx2
                                == tx) implies #[trigger] tex.texel(tx2, ty2) == before.texel(
                            tx2,
                            ty2,
                        ) by {
                            lemma_row_disjoint(
                                t0.width as int,
                                ty as int,
                                tx as int,
                                tx as int + 1,
                                tx2,
                                ty2,
                            );
                            before.lemma_texel_bounds(tx2, ty2);
                        }
                        assert(tex.texel(tx as int, ty as int) == src);
                    }
                }
                proof {
                    if !(tx < tw && ty < th) {
                        assert(!(pos_x + x < t0.width && pos_y + y < t0.height));
                    }
                }
                x = x + 1;
            }
            y = y + 1;
        }
        self.entries.push((key, tex));
        proof {
            let m = self.entries@.len() - 1;
            assert(self.entries@[m] == ((key, tex)));
            assert forall|j1: int, j2: int|
                #![trigger self.entries@[j1], self.entries@[j2]]
                0 <= j1 < j2 < self.entries@.len() implies self.entries@[j1].0
                != self.entries@[j2].0 && self.entries@[j1].1.wf() && self.entries@[j2].1.wf() by {
                let a1 = if j1 < j {
                    j1
                } else {
                    j1 + 1
                };
                if j2 < m {
                    let a2 = if j2 < j {
                        j2
                    } else {
                        j2 + 1
                    };
                    assert(self.entries@[j1] == pre.entries@[a1]);
                    assert(self.entries@[j2] == pre.entries@[a2]);
                } else {
                    assert(self.entries@[j1] == pre.entries@[a1]);
                    assert(pre.entries@[a1].0 != pre.entries@[j as int].0);
                }
            }
            self.lemma_get_at(id, m);
            assert forall|j2: int|
                0 <= j2 < self.entries@.len() && (#[trigger] self.entries@[j2]).0
                    != id implies exists|j3: int|
                0 <= j3 < pre.entries@.len() && #[trigger] pre.entries@[j3]
                    == self.entries@[j2] by {
                let a = if j2 < j {
                    j2
                } else {
                    j2 + 1
                };
                assert(pre.entries@[a] == self.entries@[j2]);
            }
            assert forall|j2: int|
                0 <= j2 < pre.entries@.len() && (#[trigger] pre.entries@[j2]).0
                    != id implies exists|j3: int|
                0 <= j3 < self.entries@.len() && #[trigger] self.entries@[j3]
                    == pre.entries@[j2] by {
                if j2 < j {
                    assert(self.entries@[j2] == pre.entries@[j2]);
                } else {
                    assert(self.entries@[j2 - 1] == pre.entries@[j2]);
                }
            }
            self.lemma_frame_except(pre, id);
            pre.lemma_get_at(id, j as int);
        }
    }
}

} // verus!
