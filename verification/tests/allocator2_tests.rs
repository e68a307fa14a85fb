use etagere::allocator2::AtlasAllocator;
use etagere::{size2, AllocId, Allocation, AllocatorOptions, Point, Rectangle, Size};

fn rect(x0: i32, y0: i32, x1: i32, y1: i32) -> Rectangle {
    Rectangle { min: Point { x: x0, y: y0 }, max: Point { x: x1, y: y1 } }
}

#[test]
fn test_simple() {
    let mut atlas = AtlasAllocator::new(size2(1000, 1000));
    assert!(atlas.is_empty());
    let a1 = atlas.allocate(size2(20, 30)).unwrap();
    let a2 = atlas.allocate(size2(30, 40)).unwrap();
    let a3 = atlas.allocate(size2(20, 30)).unwrap();
    assert!(a1.id != a2.id);
    assert!(a1.id != a3.id);
    assert!(!atlas.is_empty());
    atlas.deallocate(a1.id);
    atlas.deallocate(a2.id);
    atlas.deallocate(a3.id);
    assert!(atlas.is_empty());
}

#[test]
fn test_options() {
    let alignment = size2(8, 16);
    let mut atlas = AtlasAllocator::with_options(
        size2(1000, 1000),
        &AllocatorOptions { alignment, vertical_shelves: true, ..AllocatorOptions::default() },
    );
    assert!(atlas.is_empty());
    let a1 = atlas.allocate(size2(20, 30)).unwrap();
    let a2 = atlas.allocate(size2(30, 40)).unwrap();
    let a3 = atlas.allocate(size2(20, 30)).unwrap();
    assert!(a1.id != a2.id);
    assert!(a1.id != a3.id);
    assert!(!atlas.is_empty());
    assert_eq!(a1.rectangle.min.x % alignment.width, 0);
    assert_eq!(a1.rectangle.min.y % alignment.height, 0);
    assert_eq!(a2.rectangle.min.x % alignment.width, 0);
    assert_eq!(a2.rectangle.min.y % alignment.height, 0);
    assert_eq!(a3.rectangle.min.x % alignment.width, 0);
    assert_eq!(a3.rectangle.min.y % alignment.height, 0);
    assert!(a1.rectangle.size().width >= 20);
    assert!(a1.rectangle.size().height >= 30);
    assert!(a2.rectangle.size().width >= 30);
    assert!(a2.rectangle.size().height >= 40);
    assert!(a3.rectangle.size().width >= 20);
    assert!(a3.rectangle.size().height >= 30);
    atlas.deallocate(a1.id);
    atlas.deallocate(a2.id);
    atlas.deallocate(a3.id);
    assert!(atlas.is_empty());
}

#[test]
fn per_item_places_at_exact_positions() {
    let mut atlas = AtlasAllocator::new(size2(1000, 1000));
    let a1 = atlas.allocate(size2(20, 30)).unwrap();
    assert_eq!(a1.rectangle, rect(0, 0, 20, 32));
    assert_eq!(a1.id, AllocId(0));
    let a2 = atlas.allocate(size2(30, 40)).unwrap();
    assert_eq!(a2.rectangle, rect(0, 32, 30, 80));
    assert_eq!(a2.id, AllocId(1));
    let a3 = atlas.allocate(size2(20, 30)).unwrap();
    assert_eq!(a3.rectangle, rect(20, 0, 40, 32));
    assert_eq!(a3.id, AllocId(2));
    assert!(atlas.check());
}

#[test]
fn per_item_vertical_turns_the_rectangle() {
    let mut atlas = AtlasAllocator::with_options(
        size2(300, 200),
        &AllocatorOptions { vertical_shelves: true, ..AllocatorOptions::default() },
    );
    assert_eq!(atlas.size(), size2(300, 200));
    let a = atlas.allocate(size2(20, 30)).unwrap();
    // The shelf is 24 across (20 in its bucket) and the item 30 along.
    assert_eq!(a.rectangle, rect(0, 0, 24, 30));
    let b = atlas.allocate(size2(20, 30)).unwrap();
    assert_eq!(b.rectangle, rect(0, 30, 24, 60));
    assert!(atlas.check());
}

#[test]
fn per_item_rejects_empty_and_oversized() {
    let mut atlas = AtlasAllocator::new(size2(100, 100));
    assert!(atlas.allocate(size2(0, 10)).is_none());
    assert!(atlas.allocate(size2(10, 0)).is_none());
    assert!(atlas.allocate(size2(-3, 10)).is_none());
    assert!(atlas.allocate(size2(101, 10)).is_none());
    assert!(atlas.allocate(size2(10, 101)).is_none());
    assert!(atlas.allocate(size2(65280, 1)).is_none());
    assert!(atlas.allocate(size2(1, 65280)).is_none());
    assert!(atlas.allocate(size2(i32::MAX, i32::MAX)).is_none());
    assert!(atlas.is_empty());
}

#[test]
fn per_item_wants_an_item_strictly_wider() {
    let mut atlas = AtlasAllocator::new(size2(100, 64));
    // An item as wide as the surface never fits: the free item has to be
    // wider than the request.
    assert!(atlas.allocate(size2(100, 8)).is_none());
    let a = atlas.allocate(size2(99, 8)).unwrap();
    // One pixel is left over: too little to cut the item.
    assert_eq!(a.rectangle, rect(0, 0, 99, 8));
    assert!(atlas.allocate(size2(1, 8)).is_some());
    assert!(atlas.check());
}

#[test]
fn per_item_aligned_request_may_exceed_surface() {
    let mut atlas = AtlasAllocator::with_options(
        size2(100, 100),
        &AllocatorOptions { alignment: size2(64, 1), ..AllocatorOptions::default() },
    );
    // 70 is rounded up to 128, which exceeds the surface.
    assert!(atlas.allocate(size2(70, 10)).is_none());
    let a = atlas.allocate(size2(10, 10)).unwrap();
    assert_eq!(a.rectangle, rect(0, 0, 64, 16));
}

#[test]
fn per_item_shelf_too_tall_is_passed_over() {
    let mut atlas = AtlasAllocator::new(size2(200, 400));
    let tall = atlas.allocate(size2(10, 100)).unwrap();
    assert_eq!(tall.rectangle, rect(0, 0, 10, 112));
    // The shelf of 112 holds something and is more than twice 8 high.
    let small = atlas.allocate(size2(10, 8)).unwrap();
    assert_eq!(small.rectangle, rect(0, 112, 10, 120));
    // A request of 56 is at least half of 112: it goes to the first
    // shelf, the lowest that is high enough.
    let half = atlas.allocate(size2(10, 56)).unwrap();
    assert_eq!(half.rectangle, rect(10, 0, 20, 64));
    // One of 72 finds the first shelf too: the empty one is higher.
    let more = atlas.allocate(size2(10, 72)).unwrap();
    assert_eq!(more.rectangle, rect(20, 0, 30, 80));
}

#[test]
fn per_item_merges_free_neighbours() {
    let mut atlas = AtlasAllocator::new(size2(100, 32));
    let a = atlas.allocate(size2(20, 32)).unwrap();
    let b = atlas.allocate(size2(20, 32)).unwrap();
    let c = atlas.allocate(size2(20, 32)).unwrap();
    assert_eq!(a.rectangle, rect(0, 0, 20, 32));
    assert_eq!(b.rectangle, rect(20, 0, 40, 32));
    assert_eq!(c.rectangle, rect(40, 0, 60, 32));
    atlas.deallocate(a.id);
    atlas.deallocate(b.id);
    assert!(atlas.check());
    // The merged item of 40 takes a request of 39, but not one of 40.
    assert!(atlas.allocate(size2(40, 32)).is_none());
    let d = atlas.allocate(size2(39, 32)).unwrap();
    assert_eq!(d.rectangle, rect(0, 0, 39, 32));
    atlas.deallocate(c.id);
    atlas.deallocate(d.id);
    assert!(atlas.is_empty());
    assert!(atlas.check());
}

#[test]
fn per_item_recycles_indices() {
    let mut atlas = AtlasAllocator::new(size2(100, 32));
    let a = atlas.allocate(size2(20, 32)).unwrap();
    let b = atlas.allocate(size2(20, 32)).unwrap();
    assert_eq!(a.id, AllocId(0));
    assert_eq!(b.id, AllocId(1));
    atlas.deallocate(b.id);
    // Item 2, the free rest, was merged into item 1 and its index
    // released: the next cut takes it again.
    let c = atlas.allocate(size2(30, 32)).unwrap();
    assert_eq!(c.id, AllocId(1));
    let d = atlas.allocate(size2(30, 32)).unwrap();
    assert_eq!(d.id, AllocId(2));
    assert_eq!(d.rectangle, rect(50, 0, 80, 32));
}

#[test]
fn per_item_placements_stay_apart_and_inside() {
    let mut atlas = AtlasAllocator::with_options(
        size2(512, 512),
        &AllocatorOptions { alignment: size2(4, 8), ..AllocatorOptions::default() },
    );
    let sizes = [(10, 10), (50, 30), (12, 45), (60, 45), (1, 1), (128, 128), (256, 256), (3, 200)];
    let mut live: Vec<Allocation> = Vec::new();
    for round in 0..4 {
        for &(w, h) in sizes.iter() {
            if let Some(a) = atlas.allocate(size2(w, h)) {
                assert!(a.rectangle.size().width >= w);
                assert!(a.rectangle.size().height >= h);
                assert!(a.rectangle.min.x >= 0 && a.rectangle.min.y >= 0);
                assert!(a.rectangle.max.x <= 512 && a.rectangle.max.y <= 512);
                assert_eq!(a.rectangle.min.x % 4, 0);
                assert_eq!(a.rectangle.min.y % 8, 0);
                for other in live.iter() {
                    assert!(!a.rectangle.intersects(&other.rectangle));
                    assert!(a.id != other.id);
                }
                live.push(a);
            }
        }
        let mut k = round;
        while k < live.len() {
            let gone = live.remove(k);
            assert!(atlas.is_allocated(gone.id));
            atlas.deallocate(gone.id);
            assert!(!atlas.is_allocated(gone.id));
            assert!(atlas.check());
            k += 2;
        }
    }
    for a in live.iter() {
        atlas.deallocate(a.id);
    }
    assert!(atlas.is_empty());
    assert!(atlas.check());
}

#[test]
fn per_item_clear_is_like_new() {
    let mut used = AtlasAllocator::new(size2(400, 300));
    let first = used.allocate(size2(40, 30)).unwrap();
    used.allocate(size2(100, 100)).unwrap();
    used.deallocate(first.id);
    used.clear();
    assert!(used.is_empty());
    let mut fresh = AtlasAllocator::new(size2(400, 300));
    for &(w, h) in [(40, 30), (100, 100), (7, 9), (300, 200)].iter() {
        assert_eq!(used.allocate(size2(w, h)), fresh.allocate(size2(w, h)));
    }
}

#[test]
fn per_item_failed_allocation_changes_nothing() {
    let mut plain = AtlasAllocator::new(size2(200, 100));
    let mut probed = AtlasAllocator::new(size2(200, 100));
    let requests = [(50, 20), (60, 40), (10, 10), (150, 30)];
    for &(w, h) in requests.iter() {
        assert!(probed.allocate(size2(500, 500)).is_none());
        assert!(probed.allocate(size2(0, 0)).is_none());
        assert_eq!(plain.allocate(size2(w, h)), probed.allocate(size2(w, h)));
    }
}

#[test]
fn per_item_surface_of_full_height_is_usable() {
    let mut atlas = AtlasAllocator::new(size2(65535, 65535));
    let a = atlas.allocate(size2(10, 10)).unwrap();
    assert_eq!(a.rectangle, rect(0, 0, 10, 16));
    assert_eq!(atlas.size(), Size { width: 65535, height: 65535 });
    // The bucket of this height would pass the surface.
    assert!(atlas.allocate(size2(10, 65500)).is_none());
}

#[test]
fn per_item_regions_show_every_item() {
    let mut atlas = AtlasAllocator::new(size2(100, 64));
    let regions = atlas.regions();
    assert_eq!(regions.len(), 1);
    assert_eq!(regions[0].rectangle, rect(0, 0, 100, 64));
    assert!(!regions[0].allocated);
    atlas.allocate(size2(20, 30)).unwrap();
    let regions = atlas.regions();
    assert_eq!(regions.len(), 3);
    assert_eq!(regions[0].rectangle, rect(0, 0, 20, 32));
    assert!(regions[0].allocated);
    assert_eq!(regions[1].rectangle, rect(20, 0, 100, 32));
    assert!(!regions[1].allocated);
    assert_eq!(regions[2].rectangle, rect(0, 32, 100, 64));
    assert!(!regions[2].allocated);
}

#[test]
fn per_item_merges_empty_shelves() {
    let mut atlas = AtlasAllocator::new(size2(100, 96));
    let a = atlas.allocate(size2(20, 32)).unwrap();
    let b = atlas.allocate(size2(20, 8)).unwrap();
    assert_eq!(a.rectangle, rect(0, 0, 20, 32));
    assert_eq!(b.rectangle, rect(0, 32, 20, 40));
    assert_eq!(atlas.regions().len(), 5);
    atlas.deallocate(b.id);
    // The shelf of 8 and the empty rest after it are one shelf again.
    let regions = atlas.regions();
    assert_eq!(regions.len(), 3);
    assert_eq!(regions[2].rectangle, rect(0, 32, 100, 96));
    atlas.deallocate(a.id);
    let regions = atlas.regions();
    assert_eq!(regions.len(), 1);
    assert_eq!(regions[0].rectangle, rect(0, 0, 100, 96));
    assert!(atlas.is_empty());
    assert!(atlas.check());
}

#[test]
fn per_item_clone_goes_its_own_way() {
    let mut atlas = AtlasAllocator::new(size2(100, 100));
    let a = atlas.allocate(size2(10, 10)).unwrap();
    let mut copy = atlas.clone();
    atlas.deallocate(a.id);
    assert!(atlas.is_empty());
    assert!(!copy.is_empty());
    copy.deallocate(a.id);
    assert!(copy.is_empty());
}

#[test]
fn per_item_gives_back_in_any_order() {
    let mut atlas = AtlasAllocator::new(size2(128, 128));
    let mut ids = Vec::new();
    for _ in 0..4 {
        for _ in 0..3 {
            ids.push(atlas.allocate(size2(40, 30)).unwrap().id);
        }
    }
    assert!(atlas.allocate(size2(40, 30)).is_none());
    let order = [5, 0, 11, 6, 7, 2, 1, 9, 10, 3, 8, 4];
    for (step, &k) in order.iter().enumerate() {
        assert!(!atlas.is_empty());
        atlas.deallocate(ids[k]);
        assert!(atlas.check());
        assert_eq!(atlas.is_empty(), step + 1 == order.len());
    }
    let regions = atlas.regions();
    assert_eq!(regions.len(), 1);
    assert_eq!(regions[0].rectangle, rect(0, 0, 128, 128));
}
