use etagere::{size2, AllocId, Allocation, AllocatorOptions, BucketedAtlasAllocator, Point, Rectangle};

fn rect(x0: i32, y0: i32, x1: i32, y1: i32) -> Rectangle {
    Rectangle { min: Point { x: x0, y: y0 }, max: Point { x: x1, y: y1 } }
}

fn basic(mut atlas: BucketedAtlasAllocator) {
    let full = atlas.allocate(size2(1000, 1000)).unwrap().id;
    assert!(atlas.allocate(size2(1, 1)).is_none());
    atlas.deallocate(full);
    let a = atlas.allocate(size2(10, 10)).unwrap().id;
    let b = atlas.allocate(size2(50, 30)).unwrap().id;
    let c = atlas.allocate(size2(12, 45)).unwrap().id;
    let d = atlas.allocate(size2(60, 45)).unwrap().id;
    let e = atlas.allocate(size2(1, 1)).unwrap().id;
    let f = atlas.allocate(size2(128, 128)).unwrap().id;
    let g = atlas.allocate(size2(256, 256)).unwrap().id;
    atlas.deallocate(b);
    atlas.deallocate(f);
    atlas.deallocate(c);
    atlas.deallocate(e);
    let h = atlas.allocate(size2(500, 200)).unwrap().id;
    atlas.deallocate(a);
    let i = atlas.allocate(size2(500, 200)).unwrap().id;
    atlas.deallocate(g);
    atlas.deallocate(h);
    atlas.deallocate(d);
    atlas.deallocate(i);
    let full = atlas.allocate(size2(1000, 1000)).unwrap().id;
    assert!(atlas.allocate(size2(1, 1)).is_none());
    atlas.deallocate(full);
}

fn oversized(mut atlas: BucketedAtlasAllocator) {
    assert!(atlas.allocate(size2(65280, 1)).is_none());
    assert!(atlas.allocate(size2(1, 65280)).is_none());
}

fn coalesce(mut atlas: BucketedAtlasAllocator) {
    // Allocate 7 shelves (leaving 32px of remaining space on top).
    let mut ids = Vec::new();
    for _ in 0..7 {
        for _ in 0..8 {
            ids.push(atlas.allocate(size2(32, 32)).unwrap().id)
        }
    }
    // Free the first shelf.
    for i in 0..8 {
        atlas.deallocate(ids[i]);
    }
    // Free the 3rd and 4th shelf.
    for i in 16..32 {
        atlas.deallocate(ids[i]);
    }
    // Not enough space left in existing shelves and above.
    // even coalescing is not sufficient.
    assert!(atlas.allocate(size2(70, 70)).is_none());
    // Not enough space left in existing shelves and above.
    // The 3rd and 4th row can be coalesced to fit this allocation, though.
    let id = atlas.allocate(size2(64, 64)).unwrap().id;
    // Deallocate everything
    for i in 8..16 {
        atlas.deallocate(ids[i]);
    }
    atlas.deallocate(id);
    for i in 32..56 {
        atlas.deallocate(ids[i]);
    }
    assert!(atlas.is_empty());
}

#[test]
fn bucketed_atlas_basic() {
    basic(BucketedAtlasAllocator::new(size2(1000, 1000)));
}

#[test]
fn bucketed_fuzz_01() {
    oversized(BucketedAtlasAllocator::new(size2(1000, 1000)));
}

#[test]
fn bucketed_test_coalesce_shelves() {
    coalesce(BucketedAtlasAllocator::new(size2(256, 256)));
}

#[test]
fn allocator_atlas_basic() {
    basic(BucketedAtlasAllocator::with_options(size2(1000, 1000), &AllocatorOptions::default()));
}

#[test]
fn allocator_fuzz_01() {
    oversized(BucketedAtlasAllocator::with_options(size2(1000, 1000), &AllocatorOptions::default()));
}

#[test]
fn allocator_test_coalesce_shelves() {
    coalesce(BucketedAtlasAllocator::with_options(size2(256, 256), &AllocatorOptions::default()));
}

fn in_range(val: i32, start: i32, end: i32) -> bool {
    let ok = val >= start && val < end;
    if !ok {
        println!("{:?} not in {:?}..{:?}", val, start, end);
    }
    ok
}

#[test]
fn columns() {
    let mut atlas = BucketedAtlasAllocator::with_options(
        size2(64, 64),
        &AllocatorOptions { num_columns: 2, ..AllocatorOptions::default() },
    );
    let a = atlas.allocate(size2(24, 46)).unwrap();
    let b = atlas.allocate(size2(24, 32)).unwrap();
    let c = atlas.allocate(size2(24, 32)).unwrap();
    assert!(in_range(a.rectangle.min.x, 0, 32));
    assert!(in_range(a.rectangle.max.x, 0, 32));
    assert!(in_range(b.rectangle.min.x, 32, 64));
    assert!(in_range(b.rectangle.max.x, 32, 64));
    assert!(in_range(c.rectangle.min.x, 32, 64));
    assert!(in_range(c.rectangle.max.x, 32, 64));
    atlas.deallocate(b.id);
    atlas.deallocate(c.id);
    atlas.deallocate(a.id);
    assert!(atlas.is_empty());
    let a = atlas.allocate(size2(24, 46)).unwrap();
    let b = atlas.allocate(size2(24, 32)).unwrap();
    let c = atlas.allocate(size2(24, 32)).unwrap();
    let d = atlas.allocate(size2(24, 8)).unwrap();
    assert_eq!(a.rectangle.min.x, 0);
    assert_eq!(b.rectangle.min.x, 32);
    assert_eq!(c.rectangle.min.x, 32);
    assert_eq!(d.rectangle.min.x, 0);
}

#[test]
fn vertical() {
    let mut atlas = BucketedAtlasAllocator::with_options(
        size2(128, 256),
        &AllocatorOptions { num_columns: 2, vertical_shelves: true, ..AllocatorOptions::default() },
    );
    assert_eq!(atlas.size(), size2(128, 256));
    let a = atlas.allocate(size2(32, 16)).unwrap();
    let b = atlas.allocate(size2(16, 32)).unwrap();
    assert!(a.rectangle.size().width >= 32);
    assert!(a.rectangle.size().height >= 16);
    assert!(b.rectangle.size().width >= 16);
    assert!(b.rectangle.size().height >= 32);
    let c = atlas.allocate(size2(128, 128)).unwrap();
    atlas.deallocate(a.id);
    atlas.deallocate(b.id);
    atlas.deallocate(c.id);
    assert!(atlas.is_empty());
}

#[test]
fn bucketed_places_at_exact_positions() {
    let mut atlas = BucketedAtlasAllocator::new(size2(1000, 1000));
    // A shelf of 16 with four bins of 250: the chain starts at the last.
    let a = atlas.allocate(size2(10, 10)).unwrap();
    assert_eq!(a.rectangle, rect(750, 0, 760, 16));
    assert_eq!(a.id, AllocId(3 + (1 << 12)));
    let b = atlas.allocate(size2(10, 10)).unwrap();
    assert_eq!(b.rectangle, rect(760, 0, 770, 16));
    assert_eq!(b.id, AllocId(3 + (2 << 12)));
    // Too high for the first shelf: a shelf of 48 with two bins of 500.
    let c = atlas.allocate(size2(150, 40)).unwrap();
    assert_eq!(c.rectangle, rect(500, 16, 650, 64));
    assert_eq!(c.id, AllocId(5 + (1 << 12)));
    // Too wide for any bin that is there: a shelf with one bin.
    let d = atlas.allocate(size2(600, 16)).unwrap();
    assert_eq!(d.rectangle, rect(0, 64, 600, 80));
    assert_eq!(d.id, AllocId(6 + (1 << 12)));
}

#[test]
fn bucketed_full_surface_then_refill() {
    let mut atlas = BucketedAtlasAllocator::new(size2(1000, 1000));
    let full = atlas.allocate(size2(1000, 1000)).unwrap();
    assert_eq!(full.rectangle, rect(0, 0, 1000, 1000));
    assert!(atlas.allocate(size2(1, 1)).is_none());
    atlas.deallocate(full.id);
    assert!(atlas.is_empty());
    let again = atlas.allocate(size2(1000, 1000)).unwrap();
    assert_eq!(again.rectangle, rect(0, 0, 1000, 1000));
    // The bin was recycled: same index, next generation.
    assert_eq!(full.id, AllocId(1 << 12));
    assert_eq!(again.id, AllocId((1 << 12) + (1 << 24)));
}

#[test]
fn bucketed_rejects_empty_and_oversized() {
    let mut atlas = BucketedAtlasAllocator::with_options(
        size2(100, 100),
        &AllocatorOptions { num_columns: 2, ..AllocatorOptions::default() },
    );
    assert!(atlas.allocate(size2(0, 10)).is_none());
    assert!(atlas.allocate(size2(10, -1)).is_none());
    // A column is 50 wide.
    assert!(atlas.allocate(size2(51, 10)).is_none());
    assert!(atlas.allocate(size2(10, 101)).is_none());
    assert!(atlas.allocate(size2(i32::MAX, 1)).is_none());
    assert!(atlas.is_empty());
    assert!(atlas.allocate(size2(50, 100)).is_some());
}

#[test]
fn bucketed_column_width_is_rounded_to_the_alignment() {
    let mut atlas = BucketedAtlasAllocator::with_options(
        size2(100, 64),
        &AllocatorOptions { alignment: size2(8, 1), num_columns: 3, ..AllocatorOptions::default() },
    );
    // A third of 100 is 33, rounded down to 32.
    assert!(atlas.allocate(size2(33, 8)).is_none());
    let a = atlas.allocate(size2(32, 64)).unwrap();
    assert_eq!(a.rectangle, rect(0, 0, 32, 64));
    let b = atlas.allocate(size2(32, 64)).unwrap();
    assert_eq!(b.rectangle, rect(32, 0, 64, 64));
    let c = atlas.allocate(size2(32, 64)).unwrap();
    assert_eq!(c.rectangle, rect(64, 0, 96, 64));
    assert!(atlas.allocate(size2(8, 8)).is_none());
}

#[test]
fn bucketed_space_comes_back_with_the_whole_bin() {
    let mut atlas = BucketedAtlasAllocator::new(size2(64, 16));
    // One shelf of 16 with one bin of 64.
    let a = atlas.allocate(size2(40, 16)).unwrap();
    let b = atlas.allocate(size2(24, 16)).unwrap();
    assert_eq!(a.rectangle, rect(0, 0, 40, 16));
    assert_eq!(b.rectangle, rect(40, 0, 64, 16));
    atlas.deallocate(a.id);
    // The bin still holds `b`: nothing is free.
    assert!(atlas.allocate(size2(8, 16)).is_none());
    assert!(!atlas.is_empty());
    atlas.deallocate(b.id);
    assert!(atlas.is_empty());
    let c = atlas.allocate(size2(8, 16)).unwrap();
    assert_eq!(c.rectangle, rect(0, 0, 8, 16));
}

#[test]
fn bucketed_placements_stay_apart_and_inside() {
    let mut atlas = BucketedAtlasAllocator::with_options(
        size2(2048, 2048),
        &AllocatorOptions { alignment: size2(4, 8), vertical_shelves: false, num_columns: 2 },
    );
    let sizes = [(10, 10), (50, 30), (12, 45), (60, 45), (1, 1), (128, 128), (256, 256), (500, 200)];
    let mut live: Vec<Allocation> = Vec::new();
    for round in 0..6 {
        for &(w, h) in sizes.iter() {
            if let Some(a) = atlas.allocate(size2(w, h)) {
                assert!(a.rectangle.size().width >= w);
                assert!(a.rectangle.size().height >= h);
                assert!(a.rectangle.min.x >= 0 && a.rectangle.min.y >= 0);
                assert!(a.rectangle.max.x <= 2048 && a.rectangle.max.y <= 2048);
                assert_eq!(a.rectangle.min.x % 4, 0);
                assert_eq!(a.rectangle.min.y % 8, 0);
                for other in live.iter() {
                    assert!(!a.rectangle.intersects(&other.rectangle));
                    assert!(a.id != other.id);
                }
                assert!(atlas.is_allocated(a.id));
                live.push(a);
            }
        }
        let mut k = round % 3;
        while k < live.len() {
            let gone = live.remove(k);
            atlas.deallocate(gone.id);
            k += 2;
        }
    }
    for a in live.iter() {
        atlas.deallocate(a.id);
    }
    assert!(atlas.is_empty());
}

#[test]
fn bucketed_clear_is_like_new() {
    let mut used = BucketedAtlasAllocator::with_options(
        size2(256, 128),
        &AllocatorOptions { num_columns: 2, ..AllocatorOptions::default() },
    );
    used.allocate(size2(40, 100)).unwrap();
    used.allocate(size2(40, 100)).unwrap();
    used.clear();
    assert!(used.is_empty());
    let mut fresh = BucketedAtlasAllocator::with_options(
        size2(256, 128),
        &AllocatorOptions { num_columns: 2, ..AllocatorOptions::default() },
    );
    for &(w, h) in [(40, 100), (40, 100), (7, 9), (128, 128)].iter() {
        assert_eq!(used.allocate(size2(w, h)), fresh.allocate(size2(w, h)));
    }
}

#[test]
fn bucketed_failed_allocation_changes_nothing() {
    let mut plain = BucketedAtlasAllocator::new(size2(200, 100));
    let mut probed = BucketedAtlasAllocator::new(size2(200, 100));
    let requests = [(50, 20), (60, 40), (10, 10), (150, 30), (200, 100)];
    for &(w, h) in requests.iter() {
        assert!(probed.allocate(size2(500, 500)).is_none());
        assert!(probed.allocate(size2(0, 0)).is_none());
        assert_eq!(plain.allocate(size2(w, h)), probed.allocate(size2(w, h)));
    }
}

#[test]
fn bucketed_shelves_stay_in_their_column() {
    let mut atlas = BucketedAtlasAllocator::with_options(
        size2(300, 64),
        &AllocatorOptions { alignment: size2(16, 1), num_columns: 3, ..AllocatorOptions::default() },
    );
    // Columns are 96 wide: 100 rounded down to a multiple of 16.
    let mut seen = Vec::new();
    for _ in 0..3 {
        let a = atlas.allocate(size2(96, 64)).unwrap();
        seen.push(a.rectangle.min.x);
        assert_eq!(a.rectangle.max.x - a.rectangle.min.x, 96);
    }
    assert_eq!(seen, vec![0, 96, 192]);
    assert!(atlas.allocate(size2(16, 16)).is_none());
}

#[test]
fn bucketed_collects_merged_shelves() {
    let mut atlas = BucketedAtlasAllocator::with_options(
        size2(64, 64),
        &AllocatorOptions { num_columns: 2, ..AllocatorOptions::default() },
    );
    // Two shelves fill the first column, a third starts the second.
    let a = atlas.allocate(size2(32, 32)).unwrap();
    let b = atlas.allocate(size2(32, 32)).unwrap();
    let c = atlas.allocate(size2(32, 32)).unwrap();
    assert_eq!(a.rectangle, rect(0, 0, 32, 32));
    assert_eq!(b.rectangle, rect(0, 32, 32, 64));
    assert_eq!(c.rectangle, rect(32, 0, 64, 32));
    atlas.deallocate(a.id);
    atlas.deallocate(b.id);
    // No shelf is high enough and none can be added: the two shelves of
    // the first column are merged.
    let tall = atlas.allocate(size2(32, 64)).unwrap();
    assert_eq!(tall.rectangle, rect(0, 0, 32, 64));
    // The second column goes, and with it the shelf that was merged away.
    atlas.deallocate(c.id);
    assert!(!atlas.is_empty());
    // The first column is full: the next shelf starts the second again.
    let d = atlas.allocate(size2(32, 8)).unwrap();
    assert_eq!(d.rectangle, rect(32, 0, 64, 8));
    assert!(!d.rectangle.intersects(&tall.rectangle));
    atlas.deallocate(tall.id);
    assert!(!atlas.is_empty());
    atlas.deallocate(d.id);
    assert!(atlas.is_empty());
    let again = atlas.allocate(size2(32, 64)).unwrap();
    assert_eq!(again.rectangle, rect(0, 0, 32, 64));
}

#[test]
fn bucketed_regions_show_used_and_free_parts() {
    let mut atlas = BucketedAtlasAllocator::new(size2(64, 16));
    assert_eq!(atlas.regions().len(), 0);
    atlas.allocate(size2(40, 16)).unwrap();
    let regions = atlas.regions();
    assert_eq!(regions.len(), 2);
    assert_eq!(regions[0].rectangle, rect(0, 0, 40, 16));
    assert!(regions[0].allocated);
    assert_eq!(regions[1].rectangle, rect(40, 0, 64, 16));
    assert!(!regions[1].allocated);
    atlas.allocate(size2(24, 16)).unwrap();
    let regions = atlas.regions();
    assert_eq!(regions.len(), 1);
    assert_eq!(regions[0].rectangle, rect(0, 0, 64, 16));
}

#[test]
fn bucketed_clone_goes_its_own_way() {
    let mut atlas = BucketedAtlasAllocator::new(size2(100, 100));
    let a = atlas.allocate(size2(10, 10)).unwrap();
    let mut copy = atlas.clone();
    atlas.deallocate(a.id);
    assert!(atlas.is_empty());
    assert!(!copy.is_empty());
    assert!(copy.is_allocated(a.id));
    copy.deallocate(a.id);
    assert!(copy.is_empty());
}

#[test]
fn bucketed_generation_wraps_after_255() {
    let mut atlas = BucketedAtlasAllocator::new(size2(100, 100));
    for round in 0..300u32 {
        let a = atlas.allocate(size2(100, 100)).unwrap();
        assert_eq!(a.rectangle, rect(0, 0, 100, 100));
        assert_eq!(a.id.primary_index(), 0);
        assert_eq!(a.id.generation_bits(), (round % 256) as u8);
        assert_eq!(a.id, AllocId((1 << 12) + ((round % 256) << 24)));
        atlas.deallocate(a.id);
        assert!(atlas.is_empty());
    }
}

#[test]
fn bucketed_bin_stops_after_4095_items() {
    let mut atlas = BucketedAtlasAllocator::new(size2(80, 8));
    // One shelf of two bins of 40. The second bin is looked at first.
    let mut first = Vec::new();
    for k in 0..5 {
        let a = atlas.allocate(size2(8, 8)).unwrap();
        assert_eq!(a.rectangle, rect(40 + 8 * k, 0, 48 + 8 * k, 8));
        first.push(a.id);
    }
    let keep = atlas.allocate(size2(8, 8)).unwrap();
    assert_eq!(keep.rectangle, rect(0, 0, 8, 8));
    for id in first {
        atlas.deallocate(id);
    }
    // The second bin is empty again, but it goes on counting.
    for n in 1..=4090u32 {
        let a = atlas.allocate(size2(8, 8)).unwrap();
        assert_eq!(a.rectangle, rect(40, 0, 48, 8));
        assert_eq!(a.id, AllocId(1 + ((5 + n) << 12)));
        atlas.deallocate(a.id);
    }
    // It has handed out 4095 rectangles: the first bin takes over.
    let a = atlas.allocate(size2(8, 8)).unwrap();
    assert_eq!(a.rectangle, rect(8, 0, 16, 8));
    assert_eq!(a.id, AllocId(2 << 12));
}

#[test]
fn bucketed_vertical_places_at_exact_positions() {
    let mut atlas = BucketedAtlasAllocator::with_options(
        size2(128, 256),
        &AllocatorOptions { num_columns: 2, vertical_shelves: true, ..AllocatorOptions::default() },
    );
    // Shelves run down the surface: a shelf of 32 across holds the first
    // rectangle, 16 along.
    let a = atlas.allocate(size2(32, 16)).unwrap();
    assert_eq!(a.rectangle, rect(0, 0, 32, 16));
    // The second is 16 across and goes to the same shelf, after the first.
    let b = atlas.allocate(size2(16, 32)).unwrap();
    assert_eq!(b.rectangle, rect(0, 16, 32, 48));
    // The request is compared with the column as it is and as it lies.
    assert!(atlas.allocate(size2(129, 8)).is_none());
    assert!(atlas.allocate(size2(8, 129)).is_none());
}
