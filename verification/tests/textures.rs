use egui_software_backend::texture::TextureStore;

const A: [u8; 4] = [10, 20, 30, 40];
const B: [u8; 4] = [50, 60, 70, 80];
const C: [u8; 4] = [90, 91, 92, 93];

#[test]
fn set_creates_and_replaces() {
    let mut store = TextureStore::new();
    assert!(store.find(7).is_none());
    store.set(7, 2, 2, vec![A; 4]);
    let j = store.find(7).unwrap();
    assert_eq!(store.texel_at(j, 0, 0), A);
    assert_eq!(store.texel_at(j, 1, 1), A);
    // replacing under the same id swaps the whole texture
    store.set(7, 1, 1, vec![B]);
    let j = store.find(7).unwrap();
    assert_eq!(store.texel_at(j, 0, 0), B);
    assert_eq!(store.entries.len(), 1);
}

#[test]
fn patch_overwrites_only_the_window() {
    let mut store = TextureStore::new();
    store.set(1, 4, 4, vec![A; 16]);
    store.patch(1, 1, 2, 2, 1, &vec![B, C]);
    let j = store.find(1).unwrap();
    assert_eq!(store.texel_at(j, 1, 2), B);
    assert_eq!(store.texel_at(j, 2, 2), C);
    assert_eq!(store.texel_at(j, 0, 2), A);
    assert_eq!(store.texel_at(j, 1, 1), A);
    assert_eq!(store.texel_at(j, 3, 3), A);
}

#[test]
fn patch_clips_to_the_texture_and_skips_absent_ids() {
    let mut store = TextureStore::new();
    store.set(1, 2, 2, vec![A; 4]);
    // window sticking out: only the in-bounds texel changes
    store.patch(1, 1, 1, 2, 2, &vec![B, B, B, B]);
    let j = store.find(1).unwrap();
    assert_eq!(store.texel_at(j, 1, 1), B);
    assert_eq!(store.texel_at(j, 0, 0), A);
    assert_eq!(store.texel_at(j, 0, 1), A);
    // an id that was never set: nothing changes, nothing panics
    store.patch(9, 0, 0, 1, 1, &vec![C]);
    assert!(store.find(9).is_none());
}

#[test]
fn free_removes_only_the_named_id() {
    let mut store = TextureStore::new();
    store.set(1, 1, 1, vec![A]);
    store.set(2, 1, 1, vec![B]);
    store.free(1);
    assert!(store.find(1).is_none());
    let j = store.find(2).unwrap();
    assert_eq!(store.texel_at(j, 0, 0), B);
    // freeing an absent id is a no-op
    store.free(5);
    assert_eq!(store.entries.len(), 1);
}
