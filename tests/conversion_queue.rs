use bevy_skybox_cubemap::{ConversionError, SkyboxTextureConversion, Texture, TextureStore};

/// A stacked image of six square faces of `side` pixels with four bytes per pixel, every byte
/// different from its neighbours.
fn stacked(side: u32) -> Texture {
    let len = (side * side * 6 * 4) as usize;
    let data: Vec<u8> = (0..len).map(|i| (i % 251) as u8).collect();
    Texture::new(data, side, side * 6)
}

fn queue_with(handles: &[u64]) -> SkyboxTextureConversion {
    let mut queue = SkyboxTextureConversion::new();
    for &h in handles {
        assert_eq!(queue.make_array(h), Ok(()));
    }
    queue
}

#[test]
fn converted_at_first_pass_after_residency() {
    let mut queue = queue_with(&[1]);
    let mut store = TextureStore::new();
    let report = queue.convert_skyboxes(&mut store);
    assert!(report.is_empty());
    assert!(queue.is_pending(1));
    let original = stacked(2);
    let bytes = original.data.clone();
    store.insert(1, original);
    let report = queue.convert_skyboxes(&mut store);
    assert_eq!(report, vec![(1, Ok(()))]);
    assert!(!queue.is_pending(1));
    assert!(queue.is_converted(1));
    let t = store.get(1).unwrap();
    assert_eq!(t.layers, 6);
    assert_eq!(t.width, 2);
    assert_eq!(t.height, 2);
    assert_eq!(t.data, bytes);
}

#[test]
fn unresident_references_stay_queued() {
    let mut queue = queue_with(&[1, 2, 3]);
    let mut store = TextureStore::new();
    store.insert(9, stacked(1));
    for _ in 0..4 {
        let before = queue.len();
        let report = queue.convert_skyboxes(&mut store);
        assert!(report.is_empty());
        assert!(queue.len() >= before);
        assert_eq!(queue.pending_handles(), vec![1, 2, 3]);
    }
    assert_eq!(store.get(9).unwrap().layers, 1);
}

#[test]
fn second_pass_leaves_buffer_as_first_left_it() {
    let mut queue = queue_with(&[4]);
    let mut store = TextureStore::new();
    store.insert(4, stacked(3));
    let first = queue.convert_skyboxes(&mut store);
    assert_eq!(first, vec![(4, Ok(()))]);
    let after_one = store.get(4).unwrap();
    let (data, width, height, layers) =
        (after_one.data.clone(), after_one.width, after_one.height, after_one.layers);
    let second = queue.convert_skyboxes(&mut store);
    assert!(second.is_empty());
    let after_two = store.get(4).unwrap();
    assert_eq!(after_two.data, data);
    assert_eq!((after_two.width, after_two.height, after_two.layers), (width, height, layers));
    assert_eq!((width, height, layers), (3, 3, 6));
}

#[test]
fn enqueue_order_does_not_matter() {
    for order in [[1u64, 2u64], [2u64, 1u64]] {
        let mut queue = queue_with(&order);
        let mut store = TextureStore::new();
        store.insert(2, stacked(2));
        let report = queue.convert_skyboxes(&mut store);
        assert_eq!(report, vec![(2, Ok(()))]);
        assert_eq!(queue.pending_handles(), vec![1]);
        assert_eq!(store.get(2).unwrap().layers, 6);
        assert!(!store.is_resident(1));
        store.insert(1, stacked(1));
        let report = queue.convert_skyboxes(&mut store);
        assert_eq!(report, vec![(1, Ok(()))]);
        assert!(queue.is_empty());
        assert_eq!(store.get(1).unwrap().layers, 6);
        assert_eq!(store.get(2).unwrap().layers, 6);
        assert_eq!(store.get(2).unwrap().height, 2);
    }
}

#[test]
fn divisible_buffer_becomes_six_layers() {
    let mut queue = queue_with(&[5]);
    let mut store = TextureStore::new();
    let original = stacked(2);
    let len = original.data.len();
    assert_eq!(len, 96);
    let bytes = original.data.clone();
    store.insert(5, original);
    queue.convert_skyboxes(&mut store);
    let t = store.get(5).unwrap();
    assert_eq!(t.layers, 6);
    assert_eq!(t.layer_len(), len / 6);
    assert_eq!(t.layer_len(), 16);
    for i in 0..6u32 {
        let layer = t.layer(i);
        assert_eq!(layer.len(), 16);
        assert_eq!(layer, bytes[(i as usize) * 16..(i as usize + 1) * 16].to_vec());
    }
}

#[test]
fn indivisible_buffer_is_malformed_and_unchanged() {
    let mut queue = queue_with(&[6]);
    let mut store = TextureStore::new();
    let data: Vec<u8> = (0..25u8).collect();
    store.insert(6, Texture::new(data.clone(), 1, 6));
    let report = queue.convert_skyboxes(&mut store);
    assert_eq!(report, vec![(6, Err(ConversionError::MalformedLayout))]);
    assert!(queue.is_empty());
    assert!(!queue.is_converted(6));
    let t = store.get(6).unwrap();
    assert_eq!(t.data, data);
    assert_eq!((t.width, t.height, t.layers), (1, 6, 1));
}

#[test]
fn enqueued_twice_converted_once() {
    let mut queue = SkyboxTextureConversion::new();
    assert_eq!(queue.make_array(7), Ok(()));
    assert_eq!(queue.make_array(7), Ok(()));
    assert_eq!(queue.len(), 1);
    let mut store = TextureStore::new();
    store.insert(7, stacked(2));
    let report = queue.convert_skyboxes(&mut store);
    assert_eq!(report, vec![(7, Ok(()))]);
    assert!(queue.is_empty());
    let t = store.get(7).unwrap();
    assert_eq!((t.width, t.height, t.layers), (2, 2, 6));
}

#[test]
fn enqueue_after_conversion_is_refused() {
    let mut queue = queue_with(&[8]);
    let mut store = TextureStore::new();
    store.insert(8, stacked(1));
    queue.convert_skyboxes(&mut store);
    assert_eq!(queue.make_array(8), Err(ConversionError::DuplicateConversion));
    assert!(queue.is_empty());
    assert_eq!(queue.convert_skyboxes(&mut store), vec![]);
    assert_eq!(store.get(8).unwrap().height, 1);
}

#[test]
fn blocked_entry_does_not_delay_others() {
    let mut queue = queue_with(&[1, 2, 3, 4]);
    let mut store = TextureStore::new();
    store.insert(2, stacked(1));
    store.insert(4, stacked(1));
    let report = queue.convert_skyboxes(&mut store);
    assert_eq!(report, vec![(2, Ok(())), (4, Ok(()))]);
    assert_eq!(queue.pending_handles(), vec![1, 3]);
}

#[test]
fn non_square_strips_are_malformed() {
    let mut t = Texture::new(vec![0u8; 48], 2, 6);
    assert_eq!(t.reinterpret_stacked_as_array(), Err(ConversionError::MalformedLayout));
    assert_eq!((t.width, t.height, t.layers), (2, 6, 1));
}

#[test]
fn height_not_divisible_is_malformed() {
    let mut t = Texture::new(vec![0u8; 42], 1, 7);
    assert_eq!(t.reinterpret_stacked_as_array(), Err(ConversionError::MalformedLayout));
    assert_eq!((t.width, t.height, t.layers), (1, 7, 1));
}

#[test]
fn layered_image_is_not_converted_again() {
    let mut t = stacked(2);
    assert_eq!(t.reinterpret_stacked_as_array(), Ok(()));
    assert_eq!((t.width, t.height, t.layers), (2, 2, 6));
    assert_eq!(t.reinterpret_stacked_as_array(), Err(ConversionError::MalformedLayout));
    assert_eq!((t.width, t.height, t.layers), (2, 2, 6));
}

#[test]
fn empty_image_converts() {
    let mut t = Texture::new(Vec::new(), 0, 0);
    assert_eq!(t.reinterpret_stacked_as_array(), Ok(()));
    assert_eq!((t.width, t.height, t.layers), (0, 0, 6));
    assert_eq!(t.layer_len(), 0);
}

#[test]
fn store_insert_get_remove() {
    let mut store = TextureStore::new();
    assert!(!store.is_resident(3));
    assert!(store.get(3).is_none());
    store.insert(3, stacked(1));
    assert!(store.is_resident(3));
    let t = store.remove(3).unwrap();
    assert_eq!(t.data.len(), 24);
    assert!(!store.is_resident(3));
    assert!(store.remove(3).is_none());
}

#[test]
fn default_queue_is_empty() {
    let queue = SkyboxTextureConversion::default();
    assert!(queue.is_empty());
    assert_eq!(queue.len(), 0);
    assert!(queue.pending_handles().is_empty());
    assert!(!queue.is_converted(0));
}
