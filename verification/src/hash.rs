//! Order-sensitive 32-bit primitive hash.
//!
//! An FNV-1a style mixer with an extra rotation step (`*_wrap`) so that the
//! position of a value within the stream matters. The per-primitive hash
//! consumes the cropped box size, the encoded texture id, the bit patterns of
//! every indexed vertex, and the index count, in that order.

use vstd::prelude::*;

verus! {

pub const FNV_OFFSET_BASIS: u32 = 0x811C_9DC5;

pub const FNV_PRIME: u32 = 0x0100_0193;

/// FNV-1a mixing step: xor the value in, multiply by the prime (mod 2^32).
pub open spec fn fnv_mix(s: u32, v: u32) -> u32 {
    (s ^ v).wrapping_mul(FNV_PRIME)
}

/// Rotate the accumulator left by five bits.
pub open spec fn wrap_rotate(s: u32) -> u32 {
    (s << 5u32) | (s >> 27u32)
}

/// Bit patterns of one vertex as consumed by the hash: screen position, UV,
/// and the color packed as a little-endian `u32`.
#[derive(Debug, Clone, Copy, PartialEq, Eq, Structural)]
pub struct HashVertex {
    pub pos_x_bits: u32,
    pub pos_y_bits: u32,
    pub uv_x_bits: u32,
    pub uv_y_bits: u32,
    pub color: u32,
}

/// Mixing all five fields of one vertex, then rotating.
pub open spec fn hash_vertex_step(s: u32, v: HashVertex) -> u32 {
    wrap_rotate(
        fnv_mix(
            fnv_mix(fnv_mix(fnv_mix(fnv_mix(s, v.pos_x_bits), v.pos_y_bits), v.uv_x_bits), v.uv_y_bits),
            v.color,
        ),
    )
}

/// Accumulator after consuming the first `n` vertices of `vs`, starting
/// from `s0`.
pub open spec fn hash_vertices_prefix(s0: u32, vs: Seq<HashVertex>, n: int) -> u32
    decreases n,
{
    if n <= 0 {
        s0
    } else {
        hash_vertex_step(hash_vertices_prefix(s0, vs, n - 1), vs[n - 1])
    }
}

/// The whole per-primitive hash over the gathered (index-ordered) vertices.
pub open spec fn spec_hash_primitive(
    w_bits: u32,
    h_bits: u32,
    tex_code: u32,
    verts: Seq<HashVertex>,
) -> u32 {
    let s1 = wrap_rotate(fnv_mix(FNV_OFFSET_BASIS, w_bits));
    let s2 = wrap_rotate(fnv_mix(s1, h_bits));
    let s3 = wrap_rotate(fnv_mix(s2, tex_code));
    let s4 = hash_vertices_prefix(s3, verts, verts.len() as int);
    wrap_rotate(fnv_mix(s4, verts.len() as u32))
}

/// Streaming 32-bit hasher.
#[derive(Debug, Clone, Copy)]
pub struct Hash32 {
    state: u32,
}

impl View for Hash32 {
    type V = u32;

    closed spec fn view(&self) -> u32 {
        self.state
    }
}

impl Hash32 {
    pub fn new_fnv() -> (r: Self)
        ensures
            r@ == FNV_OFFSET_BASIS,
    {
        Hash32 { state: FNV_OFFSET_BASIS }
    }

    /// Mix a value in without rotating; stream position is only weakly
    /// preserved, which is why vertex records end with [`Hash32::fnv_wrap`].
    pub fn hash(&mut self, v: u32)
        ensures
            final(self)@ == fnv_mix(old(self)@, v),
    {
        self.state = (self.state ^ v).wrapping_mul(FNV_PRIME);
    }

    /// Rotate the accumulator only.
    pub fn fnv_wrap(&mut self)
        ensures
            final(self)@ == wrap_rotate(old(self)@),
    {
        self.state = (self.state << 5u32) | (self.state >> 27u32);
    }

    /// Mix a value in, then rotate so that stream position matters.
    pub fn hash_wrap(&mut self, v: u32)
        ensures
            final(self)@ == wrap_rotate(fnv_mix(old(self)@, v)),
    {
        self.hash(v);
        self.fnv_wrap();
    }

    pub fn finalize(&self) -> (r: u32)
        ensures
            r == self@,
    {
        self.state
    }
}

/// Texture ids from the two id spaces are kept apart by a fixed bias on
/// user-managed ids.
pub fn encode_texture_id(user: bool, id: u32) -> (r: u32)
    ensures
        r == if user {
            id.wrapping_add(9358476u32)
        } else {
            id
        },
{
    if user {
        id.wrapping_add(9358476)
    } else {
        id
    }
}

/// Pack an RGBA byte quadruple as a little-endian `u32`.
pub fn pack_color_le(c: [u8; 4]) -> (r: u32)
    ensures
        r == c@[0] + c@[1] * 0x100 + c@[2] * 0x1_0000 + c@[3] * 0x100_0000,
{
    (c[0] as u32) + (c[1] as u32) * 0x100 + (c[2] as u32) * 0x1_0000 + (c[3] as u32) * 0x100_0000
}

/// Hash one primitive: cropped box size bits, encoded texture id, the vertex
/// record of every index in order, and the index count.
pub fn hash_primitive(
    w_bits: u32,
    h_bits: u32,
    tex_code: u32,
    indices: &Vec<u32>,
    vertices: &Vec<HashVertex>,
) -> (r: u32)
    requires
        forall|i: int| 0 <= i < indices@.len() ==> (#[trigger] indices@[i]) < vertices@.len(),
        indices@.len() <= u32::MAX,
    ensures
        r == spec_hash_primitive(
            w_bits,
            h_bits,
            tex_code,
            indices@.map_values(|ix: u32| vertices@[ix as int]),
        ),
{
    let ghost gathered = indices@.map_values(|ix: u32| vertices@[ix as int]);
    let mut hasher = Hash32::new_fnv();
    hasher.hash_wrap(w_bits);
    hasher.hash_wrap(h_bits);
    hasher.hash_wrap(tex_code);
    let ghost s3 = hasher@;
    let n = indices.len();
    let mut i: usize = 0;
    while i < n
        invariant
            n == indices@.len(),
            i <= n,
            forall|j: int| 0 <= j < indices@.len() ==> (#[trigger] indices@[j]) < vertices@.len(),
            gathered == indices@.map_values(|ix: u32| vertices@[ix as int]),
            hasher@ == hash_vertices_prefix(s3, gathered, i as int),
        decreases n - i,
    {
        let ix = indices[i];
        let v = vertices[ix as usize];
        hasher.hash(v.pos_x_bits);
        hasher.hash(v.pos_y_bits);
        hasher.hash(v.uv_x_bits);
        hasher.hash(v.uv_y_bits);
        hasher.hash(v.color);
        hasher.fnv_wrap();
        proof {
            assert(gathered[i as int] == vertices@[indices@[i as int] as int]);
        }
        i = i + 1;
    }
    let count = n as u32;
    hasher.hash_wrap(count);
    proof {
        assert(gathered.len() == indices@.len());
    }
    hasher.finalize()
}

} // verus!
