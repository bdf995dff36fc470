use egui_software_backend::hash::{
    encode_texture_id, hash_primitive, pack_color_le, Hash32, HashVertex,
};

fn vert(px: u32, py: u32, ux: u32, uy: u32, c: u32) -> HashVertex {
    HashVertex { pos_x_bits: px, pos_y_bits: py, uv_x_bits: ux, uv_y_bits: uy, color: c }
}

#[test]
fn hasher_mixes_like_fnv1a() {
    // one step: (basis ^ v) * prime, then the five-bit rotation
    let mut h = Hash32::new_fnv();
    h.hash(7);
    let mixed = (0x811C_9DC5u32 ^ 7).wrapping_mul(0x0100_0193);
    assert_eq!(h.finalize(), mixed);
    h.fnv_wrap();
    assert_eq!(h.finalize(), (mixed << 5) | (mixed >> 27));
}

#[test]
fn hash_wrap_is_mix_then_rotate() {
    let mut a = Hash32::new_fnv();
    a.hash_wrap(99);
    let mut b = Hash32::new_fnv();
    b.hash(99);
    b.fnv_wrap();
    assert_eq!(a.finalize(), b.finalize());
}

#[test]
fn stream_order_matters() {
    let va = vec![vert(1, 2, 3, 4, 5), vert(6, 7, 8, 9, 10)];
    let idx_ab = vec![0u32, 1];
    let idx_ba = vec![1u32, 0];
    let h1 = hash_primitive(10, 10, 0, &idx_ab, &va);
    let h2 = hash_primitive(10, 10, 0, &idx_ba, &va);
    assert_ne!(h1, h2);
}

#[test]
fn hash_depends_on_box_size_and_texture() {
    let va = vec![vert(1, 2, 3, 4, 5)];
    let idx = vec![0u32];
    let h1 = hash_primitive(16, 16, 0, &idx, &va);
    let h2 = hash_primitive(17, 16, 0, &idx, &va);
    let h3 = hash_primitive(16, 16, 1, &idx, &va);
    assert_ne!(h1, h2);
    assert_ne!(h1, h3);
}

#[test]
fn identical_inputs_hash_identically() {
    let va = vec![vert(10, 20, 30, 40, 50), vert(1, 1, 1, 1, 1), vert(2, 2, 2, 2, 2)];
    let idx = vec![0u32, 1, 2, 0, 2, 1];
    assert_eq!(hash_primitive(5, 6, 7, &idx, &va), hash_primitive(5, 6, 7, &idx, &va));
}

#[test]
fn user_texture_ids_are_biased_apart() {
    assert_eq!(encode_texture_id(false, 12), 12);
    assert_eq!(encode_texture_id(true, 12), 12 + 9358476);
    assert_eq!(encode_texture_id(true, u32::MAX), u32::MAX.wrapping_add(9358476));
}

#[test]
fn colors_pack_little_endian() {
    assert_eq!(pack_color_le([1, 2, 3, 4]), 0x04030201);
    assert_eq!(pack_color_le([255, 0, 0, 255]), 0xFF0000FF);
}
