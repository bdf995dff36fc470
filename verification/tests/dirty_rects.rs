use egui_software_backend::dirty_rect::{ComputeTiledDirtyRects, DirtyRect};

fn rect(min_x: u32, min_y: u32, max_x: u32, max_y: u32) -> DirtyRect {
    DirtyRect { min_x, min_y, max_x, max_y }
}

fn covered(rects: &[DirtyRect], x: u32, y: u32) -> bool {
    rects.iter().any(|r| r.min_x <= x && x < r.max_x && r.min_y <= y && y < r.max_y)
}

#[test]
fn empty_rect_and_dimensions() {
    let r = DirtyRect::new_empty();
    assert!(r.is_empty());
    let q = rect(2, 3, 10, 20);
    assert!(!q.is_empty());
    assert_eq!(q.width(), 8);
    assert_eq!(q.height(), 17);
    assert!(rect(5, 1, 5, 9).is_empty());
}

#[test]
fn tiled_snaps_to_multiples_of_sixty_four() {
    let r = rect(65, 0, 130, 64).tiled::<64>();
    assert_eq!(r, rect(64, 0, 192, 64));
    let r2 = rect(0, 63, 64, 65).tiled::<64>();
    assert_eq!(r2, rect(0, 0, 64, 128));
}

#[test]
fn union_and_intersection_fields() {
    let a = rect(0, 0, 10, 10);
    let b = rect(5, 5, 20, 8);
    assert_eq!(a.union(b), rect(0, 0, 20, 10));
    assert_eq!(a.intersection(b), rect(5, 5, 10, 8));
    assert!(a.intersects(b));
    assert!(!rect(0, 0, 4, 4).intersects(rect(4, 0, 8, 4)));
    // overlap needs both axes: x spans overlap here but y spans do not
    assert!(!rect(0, 0, 8, 4).intersects(rect(0, 4, 8, 8)));
}

#[test]
fn decomposition_of_two_overlapping_rects() {
    let mut d = ComputeTiledDirtyRects::new();
    let boxes = vec![rect(0, 0, 65, 65), rect(64, 0, 128, 64)];
    d.set_bboxes(&boxes);
    // snapped: (0,0,128,128) and (64,0,128,64); the two strips carry the
    // same x-run, so the second extends the first vertically
    assert_eq!(d.bboxes, vec![rect(0, 0, 128, 128), rect(64, 0, 128, 64)]);
    let out = &d.minimal_non_overlapping_bboxes;
    assert_eq!(out.len(), 1);
    assert_eq!(out[0], rect(0, 0, 128, 128));
}

#[test]
fn decomposition_is_disjoint_and_covers_union() {
    let mut d = ComputeTiledDirtyRects::new();
    let boxes = vec![rect(10, 10, 70, 70), rect(100, 0, 140, 40), rect(60, 60, 130, 130)];
    d.set_bboxes(&boxes);
    let out = &d.minimal_non_overlapping_bboxes;
    // pairwise disjoint
    for i in 0..out.len() {
        for j in (i + 1)..out.len() {
            let a = out[i];
            let b = out[j];
            let x_overlap = a.min_x < b.max_x && b.min_x < a.max_x;
            let y_overlap = a.min_y < b.max_y && b.min_y < a.max_y;
            assert!(!(x_overlap && y_overlap));
        }
    }
    // union equals the union of the snapped inputs (sampled on a grid)
    for x in (0..300).step_by(16) {
        for y in (0..300).step_by(16) {
            assert_eq!(covered(out, x, y), covered(&d.bboxes, x, y));
        }
    }
}

#[test]
fn decomposition_of_empty_input_is_empty() {
    let mut d = ComputeTiledDirtyRects::new();
    d.set_bboxes(&Vec::new());
    assert_eq!(d.minimal_non_overlapping_bboxes.len(), 0);
    assert_eq!(d.bboxes.len(), 0);
}

#[test]
fn intersections_clamp_to_the_probe() {
    let mut d = ComputeTiledDirtyRects::new();
    d.set_bboxes(&vec![rect(0, 0, 64, 64), rect(128, 0, 192, 64)]);
    let hits = d.intersections(rect(32, 0, 160, 64));
    assert_eq!(hits.len(), 2);
    assert_eq!(hits[0], rect(32, 0, 64, 64));
    assert_eq!(hits[1], rect(128, 0, 160, 64));
    let none = d.intersections(rect(64, 0, 128, 64));
    assert_eq!(none.len(), 0);
}
