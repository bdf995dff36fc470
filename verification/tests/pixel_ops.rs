use egui_software_backend::pixel::{
    egui_blend_u8, egui_blend_u8_slice, egui_blend_u8_slice_one_src, egui_blend_u8_slice_tinted,
    unorm_mult4x4,
};

fn blend_reference(src: [u8; 4], dst: [u8; 4]) -> [u8; 4] {
    let ca = 255u32 - src[3] as u32;
    let mut out = [0u8; 4];
    for i in 0..4 {
        let t = dst[i] as u32 * ca + 128;
        let v = (t + (t >> 8)) >> 8;
        out[i] = (src[i] as u32 + v).min(255) as u8;
    }
    out
}

#[test]
fn blend_transparent_source_keeps_destination() {
    let dst = [13, 200, 77, 91];
    assert_eq!(egui_blend_u8([0, 0, 0, 0], dst), dst);
}

#[test]
fn blend_opaque_source_replaces_destination() {
    let src = [10, 20, 30, 255];
    assert_eq!(egui_blend_u8(src, [200, 100, 50, 25]), src);
}

#[test]
fn blend_half_alpha_exact_value() {
    // channel = src + ((dst * (255 - 128) + 128) with the +high-byte shift)
    let r = egui_blend_u8([100, 0, 0, 128], [50, 60, 70, 80]);
    assert_eq!(r, [125, 30, 35, 168]);
}

#[test]
fn blend_matches_shift_trick_reference() {
    for sa in [0u8, 1, 127, 128, 254, 255] {
        for d in [0u8, 1, 63, 128, 200, 255] {
            let src = [40, 200, 7, sa];
            let dst = [d, d, d, d];
            assert_eq!(egui_blend_u8(src, dst), blend_reference(src, dst));
        }
    }
}

#[test]
fn blend_saturates_per_channel() {
    // 200 + round-ish(200 * 245 / 255) overflows a byte and clamps to 255
    let r = egui_blend_u8([200, 0, 0, 10], [200, 200, 0, 0]);
    assert_eq!(r[0], 255);
    assert_eq!(r[2], 0);
}

#[test]
fn unorm_product_rounds_like_the_trick() {
    assert_eq!(unorm_mult4x4([255; 4], [255; 4]), [255; 4]);
    assert_eq!(unorm_mult4x4([128; 4], [128; 4]), [64; 4]);
    assert_eq!(unorm_mult4x4([255; 4], [0; 4]), [0; 4]);
    assert_eq!(unorm_mult4x4([255, 0, 128, 64], [100, 100, 100, 100]), [100, 0, 50, 25]);
}

#[test]
fn slice_kernel_matches_scalar_reference() {
    let src: Vec<[u8; 4]> = vec![
        [255, 0, 0, 255],
        [0, 0, 0, 0],
        [10, 20, 30, 128],
        [200, 200, 200, 64],
    ];
    let dst0: Vec<[u8; 4]> = vec![[9, 8, 7, 6], [1, 2, 3, 4], [250, 250, 250, 250], [0, 0, 0, 0]];
    let mut dst = dst0.clone();
    egui_blend_u8_slice(&src, &mut dst);
    for i in 0..4 {
        assert_eq!(dst[i], blend_reference(src[i], dst0[i]));
    }
}

#[test]
fn broadcast_kernel_matches_scalar_reference() {
    let color = [77, 66, 55, 190];
    let dst0: Vec<[u8; 4]> = vec![[9, 8, 7, 6], [1, 2, 3, 4], [255; 4]];
    let mut dst = dst0.clone();
    egui_blend_u8_slice_one_src(color, &mut dst);
    for i in 0..3 {
        assert_eq!(dst[i], blend_reference(color, dst0[i]));
    }
}

#[test]
fn tinted_kernel_modulates_then_blends() {
    let src: Vec<[u8; 4]> = vec![[255, 255, 255, 255], [128, 64, 32, 255]];
    let tint = [128, 255, 255, 255];
    let dst0: Vec<[u8; 4]> = vec![[0, 0, 0, 0], [10, 10, 10, 10]];
    let mut dst = dst0.clone();
    egui_blend_u8_slice_tinted(&src, tint, &mut dst);
    for i in 0..2 {
        let tinted = unorm_mult4x4(src[i], tint);
        assert_eq!(dst[i], blend_reference(tinted, dst0[i]));
    }
}
