use voxtree::geom::{isqrt, normalize, V3};
use voxtree::queue_indices::QueueIndices;
use voxtree::rot::{cos_milli, sin_milli};
use voxtree::volume::{Volume, VolumeError, DEEP_COLOR, SHALLOW_COLOR, SURFACE_COLOR};

fn flat_density(size: usize, value: i64) -> Vec<i64> {
    vec![value; size * size * size]
}

#[test]
fn volume_new_is_invisible() {
    let v = Volume::new(8);
    assert_eq!(v.size(), 8);
    for z in 0..8 {
        for y in 0..8 {
            for x in 0..8 {
                assert_eq!(v.get(x, y, z), 0);
            }
        }
    }
}

#[test]
fn create_volume_keeps_data() {
    let mut data = vec![0u16; 8];
    data[3] = 0x8123;
    let v = Volume::create_volume(2, data);
    assert_eq!(v.get(1, 1, 0), 0x8123);
    assert_eq!(v.get(0, 0, 0), 0);
}

#[test]
fn set_then_get() {
    let mut v = Volume::new(4);
    v.set(1, 2, 3, 0x8001);
    assert_eq!(v.get(1, 2, 3), 0x8001);
    assert_eq!(v.get(3, 2, 1), 0);
}

#[test]
fn checked_access_out_of_bounds() {
    let mut v = Volume::new(4);
    assert_eq!(v.get_checked(4, 0, 0), Err(VolumeError::OutOfBounds));
    assert_eq!(v.set_checked(0, 0, 4, 7), Err(VolumeError::OutOfBounds));
    assert_eq!(v.set_checked(1, 1, 1, 0x8007), Ok(()));
    assert_eq!(v.get_checked(1, 1, 1), Ok(0x8007));
}

#[test]
fn bytes_round_trip() {
    let mut v = Volume::new(6);
    v.set(0, 0, 0, 0x8421);
    v.set(5, 5, 5, 0x1ff);
    v.set(2, 3, 4, 0xabcd);
    let bytes = v.to_bytes();
    assert_eq!(bytes.len(), 2 * 6 * 6 * 6);
    let w = Volume::from_bytes(6, &bytes).unwrap();
    assert_eq!(w.data, v.data);
}

#[test]
fn from_bytes_short_buffer_is_io_error() {
    let bytes = vec![0u8; 2 * 4 * 4 * 4 - 1];
    assert!(matches!(Volume::from_bytes(4, &bytes), Err(VolumeError::Io)));
}

#[test]
fn from_bytes_little_endian() {
    let mut bytes = vec![0u8; 2 * 2 * 2 * 2];
    bytes[0] = 0x34;
    bytes[1] = 0x12;
    let v = Volume::from_bytes(2, &bytes).unwrap();
    assert_eq!(v.get(0, 0, 0), 0x1234);
}

#[test]
fn generate_flat_negative_noise_is_empty() {
    // A noise field that always reads -1.0 never clears the height bias:
    // the whole volume stays invisible.
    let size = 64;
    let density = flat_density(size, -1000);
    let v = Volume::generate(size, &density);
    for i in 0..v.data.len() {
        assert_eq!(v.data[i], 0);
    }
}

#[test]
fn generate_solid_noise_colors_by_depth() {
    // A noise field that always reads +1.0 makes every cell solid; the
    // column coloring then depends only on burial depth from the top.
    let size = 16;
    let density = flat_density(size, 1000);
    let v = Volume::generate(size, &density);
    assert_eq!(v.get(7, 15, 7), SURFACE_COLOR);
    for y in 11..15 {
        assert_eq!(v.get(7, y, 7), SHALLOW_COLOR);
    }
    for y in 0..11 {
        assert_eq!(v.get(7, y, 7), DEEP_COLOR);
    }
}

#[test]
fn generate_round_trips_through_bytes() {
    let size = 16;
    let density = flat_density(size, 1000);
    let v = Volume::generate(size, &density);
    let saved = v.to_bytes();
    let loaded = Volume::from_bytes(size, &saved).unwrap();
    let again = Volume::generate(size, &density);
    assert_eq!(loaded.data, again.data);
}

#[test]
fn isqrt_exact_values() {
    assert_eq!(isqrt(0), 0);
    assert_eq!(isqrt(1), 1);
    assert_eq!(isqrt(24), 4);
    assert_eq!(isqrt(25), 5);
    assert_eq!(isqrt(6_250_000), 2500);
    assert_eq!(isqrt(u64::MAX), 4_294_967_295);
}

#[test]
fn normalize_exact() {
    let v = normalize(V3 { x: 3000, y: 4000, z: 0 });
    assert_eq!(v, V3 { x: 600, y: 800, z: 0 });
    let zero = normalize(V3 { x: 0, y: 0, z: 0 });
    assert_eq!(zero, V3 { x: 0, y: 1000, z: 0 });
}

#[test]
fn sine_table_values() {
    assert_eq!(sin_milli(0), 0);
    assert_eq!(sin_milli(30), 500);
    assert_eq!(sin_milli(90), 1000);
    assert_eq!(sin_milli(210), -500);
    assert_eq!(cos_milli(0), 1000);
    assert_eq!(cos_milli(90), 0);
}

#[test]
fn queue_families_shared_family_appears_once() {
    let q = QueueIndices { graphics_family: Some(3), present_family: Some(3) };
    assert!(q.is_correct());
    assert_eq!(q.queue_families(), vec![3]);
}

#[test]
fn queue_families_distinct() {
    let q = QueueIndices { graphics_family: Some(1), present_family: Some(2) };
    assert!(q.is_correct());
    assert_eq!(q.queue_families(), vec![1, 2]);
    let half = QueueIndices { graphics_family: Some(1), present_family: None };
    assert!(!half.is_correct());
}
