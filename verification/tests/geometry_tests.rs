use etagere::geometry::{point2, size2, Point, Rectangle, Size};
use etagere::sizing::{adjust_size, convert_coordinates, shelf_height};
use etagere::{AllocId, AllocatorOptions};

#[test]
fn size_is_empty_when_a_side_is_not_positive() {
    assert!(size2(0, 5).is_empty());
    assert!(size2(5, 0).is_empty());
    assert!(size2(-1, 5).is_empty());
    assert!(size2(5, -7).is_empty());
    assert!(!size2(1, 1).is_empty());
    assert!(!size2(i32::MAX, 1).is_empty());
}

#[test]
fn rectangle_size_is_max_minus_min() {
    let r = Rectangle { min: point2(3, 10), max: point2(20, 15) };
    assert_eq!(r.size(), Size { width: 17, height: 5 });
    let inverted = Rectangle { min: point2(5, 5), max: point2(2, 9) };
    assert_eq!(inverted.size(), Size { width: -3, height: 4 });
}

#[test]
fn rectangles_that_touch_do_not_intersect() {
    let a = Rectangle { min: point2(0, 0), max: point2(10, 10) };
    let right = Rectangle { min: point2(10, 0), max: point2(20, 10) };
    let below = Rectangle { min: point2(0, 10), max: point2(10, 20) };
    let inside = Rectangle { min: point2(9, 9), max: point2(11, 11) };
    assert!(!a.intersects(&right));
    assert!(!a.intersects(&below));
    assert!(a.intersects(&inside));
    assert!(inside.intersects(&a));
    assert!(a.intersects(&a));
}

#[test]
fn shorthands_build_the_values() {
    assert_eq!(size2(3, 4), Size { width: 3, height: 4 });
    assert_eq!(point2(-3, 4), Point { x: -3, y: 4 });
}

#[test]
fn adjust_size_rounds_up_to_the_alignment() {
    let mut v = 20;
    adjust_size(8, &mut v);
    assert_eq!(v, 24);
    let mut v = 30;
    adjust_size(16, &mut v);
    assert_eq!(v, 32);
    let mut v = 16;
    adjust_size(8, &mut v);
    assert_eq!(v, 16);
    let mut v = 5;
    adjust_size(1, &mut v);
    assert_eq!(v, 5);
    let mut v = 1;
    adjust_size(64, &mut v);
    assert_eq!(v, 64);
}

#[test]
fn shelf_height_rounds_up_to_its_bucket() {
    assert_eq!(shelf_height(0), 0);
    assert_eq!(shelf_height(1), 8);
    assert_eq!(shelf_height(8), 8);
    assert_eq!(shelf_height(31), 32);
    assert_eq!(shelf_height(32), 32);
    assert_eq!(shelf_height(33), 48);
    assert_eq!(shelf_height(127), 128);
    assert_eq!(shelf_height(128), 128);
    assert_eq!(shelf_height(129), 160);
    assert_eq!(shelf_height(511), 512);
    assert_eq!(shelf_height(512), 512);
    assert_eq!(shelf_height(513), 576);
    assert_eq!(shelf_height(65472), 65472);
}

#[test]
fn convert_coordinates_exchanges_when_flipped() {
    assert_eq!(convert_coordinates(false, 3, 9), (3, 9));
    assert_eq!(convert_coordinates(true, 3, 9), (9, 3));
}

#[test]
fn alloc_id_packs_three_fields() {
    let id = AllocId::from_parts(5, 7, 3);
    assert_eq!(id.serialize(), 5 + (7 << 12) + (3 << 24));
    assert_eq!(id.primary_index(), 5);
    assert_eq!(id.generation_bits(), 3);
    let top = AllocId::from_parts(4095, 4095, 255);
    assert_eq!(top.serialize(), u32::MAX);
    // The counter keeps its low twelve bits.
    assert_eq!(AllocId::from_parts(1, 4096, 0).serialize(), 1);
}

#[test]
fn alloc_id_serializes_as_its_bits() {
    assert_eq!(AllocId::deserialize(0xDEAD_BEEF).serialize(), 0xDEAD_BEEF);
    assert_eq!(AllocId::deserialize(17), AllocId(17));
    assert_eq!(AllocId::deserialize(0xAB00_1234).generation_bits(), 0xAB);
    assert_eq!(AllocId::deserialize(0xAB00_1234).primary_index(), 0x234);
}

#[test]
fn default_options_are_plain() {
    let options = AllocatorOptions::default();
    assert_eq!(options.alignment, size2(1, 1));
    assert!(!options.vertical_shelves);
    assert_eq!(options.num_columns, 1);
}
