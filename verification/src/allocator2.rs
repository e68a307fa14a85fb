//! A shelf-packing allocator that tracks every rectangle on its own.
//!
//! The surface is cut into shelves stacked across it, and each shelf into
//! items laid side by side along it. Shelves and items live in two dense
//! arrays and are chained by index; released slots are recycled before the
//! arrays grow. Adjacent free items, and adjacent empty shelves, are merged
//! when a rectangle is given back.

use vstd::prelude::*;
use crate::alloc_id::{AllocId, Allocation, AllocatorOptions};
use crate::geometry::{Point, Rectangle, Region, Size};
use crate::sizing::{
    adjust_size, aligned_up, bucket_height, convert_coordinates, lemma_aligned_up,
    lemma_aligned_up_bound, lemma_bucket_height, lemma_divisor_of_eight, lemma_multiples,
    shelf_height,
};

verus! {

/// An empty shelf taller than the request by more than this is cut in two.
pub const SHELF_SPLIT_THRESHOLD: u16 = 8;

/// A free item wider than the request by more than this is cut in two.
pub const ITEM_SPLIT_THRESHOLD: u16 = 8;

/// Shelves and items are addressed by 16-bit indices; this one means "none".
pub const NO_INDEX: u16 = 0xFFFF;

#[derive(Copy, Clone, Debug, PartialEq, Eq, Structural)]
pub struct ShelfIndex(pub u16);

impl ShelfIndex {
    pub fn index(self) -> (r: usize)
        ensures
            r == self.0,
    {
        self.0 as usize
    }

    pub fn is_some(self) -> (r: bool)
        ensures
            r == (self.0 != NO_INDEX),
    {
        self.0 != NO_INDEX
    }

    pub fn is_none(self) -> (r: bool)
        ensures
            r == (self.0 == NO_INDEX),
    {
        self.0 == NO_INDEX
    }
}

#[derive(Copy, Clone, Debug, PartialEq, Eq, Structural)]
pub struct ItemIndex(pub u16);

impl ItemIndex {
    pub fn index(self) -> (r: usize)
        ensures
            r == self.0,
    {
        self.0 as usize
    }

    pub fn is_some(self) -> (r: bool)
        ensures
            r == (self.0 != NO_INDEX),
    {
        self.0 != NO_INDEX
    }

    pub fn is_none(self) -> (r: bool)
        ensures
            r == (self.0 == NO_INDEX),
    {
        self.0 == NO_INDEX
    }
}

#[derive(Copy, Clone)]
struct Shelf {
    y: u16,
    height: u16,
    prev: ShelfIndex,
    next: ShelfIndex,
    first_item: ItemIndex,
    is_empty: bool,
}

#[derive(Copy, Clone)]
struct Item {
    x: u16,
    width: u16,
    prev: ItemIndex,
    next: ItemIndex,
    shelf: ShelfIndex,
    allocated: bool,
}

/// One stretch of a shelf, in shelf coordinates: `x` runs along the shelf
/// and `y` across the shelves.
pub struct Cell {
    pub x: int,
    pub y: int,
    pub width: int,
    pub height: int,
    pub allocated: bool,
}

/// What an [`AtlasAllocator`] stands for.
pub struct AtlasView {
    /// The surface, as given at construction.
    pub size: Size,
    pub alignment: Size,
    pub vertical: bool,
    /// The items in use, by item index. Together they tile the surface.
    pub cells: Map<int, Cell>,
    /// Item indices that were released, in the order in which they will be
    /// taken again.
    pub recycled: Seq<int>,
    /// Number of item indices ever taken.
    pub slots: int,
    /// Number of shelves that can still be made.
    pub shelf_room: int,
    /// The rectangles handed out and not yet given back.
    pub placements: Map<AllocId, Rectangle>,
}

impl Cell {
    /// The cell as a box on the surface.
    pub open spec fn rectangle(self, vertical: bool) -> Rectangle {
        let r = Rectangle {
            min: Point { x: self.x as i32, y: self.y as i32 },
            max: Point { x: (self.x + self.width) as i32, y: (self.y + self.height) as i32 },
        };
        if vertical {
            r.transposed()
        } else {
            r
        }
    }

    /// Order of preference among fitting cells: the lower shelf height
    /// first, then the shelf nearer to the origin, then the item nearer to
    /// the start of its shelf.
    pub open spec fn preferred_to(self, other: Cell) -> bool {
        self.height < other.height || (self.height == other.height && (self.y < other.y || (self.y
            == other.y && self.x <= other.x)))
    }
}

impl AtlasView {
    /// Extent of the surface along the shelves.
    pub open spec fn along(self) -> int {
        if self.vertical {
            self.size.height as int
        } else {
            self.size.width as int
        }
    }

    /// Extent of the surface across the shelves.
    pub open spec fn across(self) -> int {
        if self.vertical {
            self.size.width as int
        } else {
            self.size.height as int
        }
    }

    /// Alignment of positions along the shelves.
    pub open spec fn align_along(self) -> int {
        if self.vertical {
            self.alignment.height as int
        } else {
            self.alignment.width as int
        }
    }

    /// The state right after construction: one free cell over the whole
    /// surface.
    pub open spec fn fresh(size: Size, options: AllocatorOptions) -> AtlasView {
        let v = AtlasView {
            size,
            alignment: options.alignment,
            vertical: options.vertical_shelves,
            cells: Map::empty(),
            recycled: Seq::empty(),
            slots: 1,
            shelf_room: 65534,
            placements: Map::empty(),
        };
        AtlasView {
            cells: Map::empty().insert(
                0,
                Cell { x: 0, y: 0, width: v.along(), height: v.across(), allocated: false },
            ),
            ..v
        }
    }

    /// The request in shelf coordinates, with its width aligned and its
    /// height aligned and bucketed; `None` where the request is empty or
    /// its aligned size exceeds the surface.
    pub open spec fn normalized(self, requested: Size) -> Option<(int, int)> {
        let w = aligned_up(requested.width as int, self.alignment.width as int);
        let h = aligned_up(requested.height as int, self.alignment.height as int);
        if requested.empty() || w > self.size.width || h > self.size.height {
            None
        } else if self.vertical {
            Some((h, bucket_height(w)))
        } else {
            Some((w, bucket_height(h)))
        }
    }

    /// Cell `i` is free, strictly wider than `w`, on a shelf at least `h`
    /// high that is empty or at most twice as high as `h`.
    pub open spec fn fits(self, i: int, w: int, h: int) -> bool {
        &&& self.cells.contains_key(i)
        &&& !self.cells[i].allocated
        &&& self.cells[i].width > w
        &&& self.cells[i].height >= h
        &&& (self.cells[i].width == self.along() || self.cells[i].height <= 2 * h)
    }

    /// Cell `i` fits and no fitting cell is preferred to it.
    pub open spec fn best_fit(self, i: int, w: int, h: int) -> bool {
        &&& self.fits(i, w, h)
        &&& forall|j: int| #[trigger] self.fits(j, w, h) ==> self.cells[i].preferred_to(self.cells[j])
    }

    /// Placing in cell `i` cuts its shelf: the shelf is empty and higher
    /// than `h` by more than the threshold.
    pub open spec fn cuts_shelf(self, i: int, h: int) -> bool {
        self.cells[i].width == self.along() && self.cells[i].height > h + SHELF_SPLIT_THRESHOLD
    }

    /// Placing in cell `i` cuts the cell: it is wider than `w` by more than
    /// the threshold.
    pub open spec fn cuts_item(self, i: int, w: int) -> bool {
        self.cells[i].width - w > ITEM_SPLIT_THRESHOLD
    }

    /// The `k`-th item index that will be taken next.
    pub open spec fn upcoming(self, k: int) -> int {
        if k < self.recycled.len() {
            self.recycled[k]
        } else {
            self.slots + (k - self.recycled.len())
        }
    }

    /// The state after the `k` next item indices were taken.
    pub open spec fn taken(self, k: int) -> AtlasView {
        if k <= self.recycled.len() {
            AtlasView { recycled: self.recycled.skip(k), ..self }
        } else {
            AtlasView {
                recycled: Seq::empty(),
                slots: self.slots + (k - self.recycled.len()),
                ..self
            }
        }
    }

    /// There are item indices and shelves left for the cuts that placing
    /// in cell `i` makes.
    pub open spec fn has_room(self, i: int, w: int, h: int) -> bool {
        let items_needed = (if self.cuts_shelf(i, h) {
            1int
        } else {
            0int
        }) + (if self.cuts_item(i, w) {
            1int
        } else {
            0int
        });
        &&& self.recycled.len() + (65535 - self.slots) >= items_needed
        &&& self.cuts_shelf(i, h) ==> self.shelf_room >= 1
    }

    /// The request can be placed: it is accepted, some cell fits it, and
    /// there is room for the cuts that placing it in the best one makes.
    pub open spec fn placeable(self, requested: Size) -> bool {
        let n = self.normalized(requested);
        n is Some && exists|i: int|
            #[trigger] self.best_fit(i, n->Some_0.0, n->Some_0.1) && self.has_room(
                i,
                n->Some_0.0,
                n->Some_0.1,
            )
    }

    /// Cell `k` is free and starts where `c` ends, on the shelf of `c`.
    pub open spec fn free_after(self, k: int, c: Cell) -> bool {
        &&& self.cells.contains_key(k)
        &&& !self.cells[k].allocated
        &&& self.cells[k].x == c.x + c.width
        &&& self.cells[k].y == c.y
    }

    /// Cell `k` is free and ends where `c` starts, on the shelf of `c`.
    pub open spec fn free_before(self, k: int, c: Cell) -> bool {
        &&& self.cells.contains_key(k)
        &&& !self.cells[k].allocated
        &&& self.cells[k].x + self.cells[k].width == c.x
        &&& self.cells[k].y == c.y
    }

    /// Cell `k` is all of an empty shelf that starts where the shelf of
    /// `c` ends.
    pub open spec fn empty_below(self, k: int, c: Cell) -> bool {
        &&& self.cells.contains_key(k)
        &&& !self.cells[k].allocated
        &&& self.cells[k].x == 0
        &&& self.cells[k].width == self.along()
        &&& self.cells[k].y == c.y + c.height
    }

    /// Cell `k` is all of an empty shelf that ends where the shelf of `c`
    /// starts.
    pub open spec fn empty_above(self, k: int, c: Cell) -> bool {
        &&& self.cells.contains_key(k)
        &&& !self.cells[k].allocated
        &&& self.cells[k].x == 0
        &&& self.cells[k].width == self.along()
        &&& self.cells[k].y + self.cells[k].height == c.y
    }

    /// The state after cell `i` was marked free and its rectangle taken
    /// off the placements.
    pub open spec fn freed(self, i: int) -> AtlasView {
        AtlasView {
            cells: self.cells.insert(i, Cell { allocated: false, ..self.cells[i] }),
            placements: self.placements.remove(AllocId(i as u32)),
            ..self
        }
    }

    /// The state after cell `k` took in the cell `n` on its right. The
    /// index `n` is the next to be taken again.
    pub open spec fn joined(self, k: int, n: int) -> AtlasView {
        AtlasView {
            cells: self.cells.remove(n).insert(
                k,
                Cell { width: self.cells[k].width + self.cells[n].width, ..self.cells[k] },
            ),
            recycled: seq![n] + self.recycled,
            ..self
        }
    }

    /// The state after the shelf of cell `k` took in the shelf of cell `b`
    /// next to it. The index `b` is the next to be taken again.
    pub open spec fn stacked(self, k: int, b: int) -> AtlasView {
        AtlasView {
            cells: self.cells.remove(b).insert(
                k,
                Cell { height: self.cells[k].height + self.cells[b].height, ..self.cells[k] },
            ),
            recycled: seq![b] + self.recycled,
            shelf_room: self.shelf_room + 1,
            ..self
        }
    }

    /// The state after cell `i`, which lies where `c` does, took in the
    /// free cell on its right, if there is one.
    pub open spec fn merged_right(self, i: int, c: Cell) -> AtlasView {
        if exists|k: int| #[trigger] self.free_after(k, c) {
            self.joined(i, choose|k: int| #[trigger] self.free_after(k, c))
        } else {
            self
        }
    }

    /// The free cell on the left of the place of `c`, or else `i`.
    pub open spec fn left_of(self, i: int, c: Cell) -> int {
        if exists|k: int| #[trigger] self.free_before(k, c) {
            choose|k: int| #[trigger] self.free_before(k, c)
        } else {
            i
        }
    }

    /// The state after the free cell on the left of cell `i`, if there is
    /// one, took in cell `i`, which starts where `c` does.
    pub open spec fn merged_left(self, i: int, c: Cell) -> AtlasView {
        if exists|k: int| #[trigger] self.free_before(k, c) {
            self.joined(self.left_of(i, c), i)
        } else {
            self
        }
    }

    /// The state after the shelf of cell `s`, which lies where the shelf
    /// of `c` does, took in the empty shelf after it, if there is one.
    pub open spec fn merged_below(self, s: int, c: Cell) -> AtlasView {
        if exists|k: int| #[trigger] self.empty_below(k, c) {
            self.stacked(s, choose|k: int| #[trigger] self.empty_below(k, c))
        } else {
            self
        }
    }

    /// The state after the empty shelf before the shelf of cell `s`, if
    /// there is one, took in that shelf, which starts where the shelf of
    /// `c` does.
    pub open spec fn merged_above(self, s: int, c: Cell) -> AtlasView {
        if exists|k: int| #[trigger] self.empty_above(k, c) {
            self.stacked(choose|k: int| #[trigger] self.empty_above(k, c), s)
        } else {
            self
        }
    }

    /// The state after the rectangle in cell `i` was given back: the cell
    /// is free and takes in the free cell on its right; the free cell on
    /// its left takes in the result; and where that leaves the shelf with
    /// one free cell, the shelf takes in the empty shelf after it, and the
    /// empty shelf before it takes in the result.
    pub open spec fn released(self, i: int) -> AtlasView {
        let c = self.cells[i];
        let v2 = self.freed(i).merged_right(i, c);
        let s = v2.left_of(i, c);
        let v3 = v2.merged_left(i, c);
        if v3.cells[s].width == self.along() {
            v3.merged_below(s, c).merged_above(s, c)
        } else {
            v3
        }
    }

    /// `region` shows cell `i`: it has its box and tells whether it is
    /// allocated.
    pub open spec fn shows(self, i: int, region: Region) -> bool {
        &&& self.cells.contains_key(i)
        &&& region.rectangle == self.cells[i].rectangle(self.vertical)
        &&& region.allocated == self.cells[i].allocated
    }

    /// `region` shows one of the cells.
    pub open spec fn shows_a_cell(self, region: Region) -> bool {
        exists|i: int| #[trigger] self.shows(i, region)
    }

    /// One of `regions` shows cell `i`.
    pub open spec fn shown_in(self, i: int, regions: Seq<Region>) -> bool {
        exists|k: int| 0 <= k < regions.len() && #[trigger] self.shows(i, regions[k])
    }

    /// Region `a` comes before region `b` when the surface is read shelf
    /// by shelf, and each shelf from its start.
    pub open spec fn reads_before(self, a: Region, b: Region) -> bool {
        if self.vertical {
            a.rectangle.min.x < b.rectangle.min.x || (a.rectangle.min.x == b.rectangle.min.x
                && a.rectangle.min.y < b.rectangle.min.y)
        } else {
            a.rectangle.min.y < b.rectangle.min.y || (a.rectangle.min.y == b.rectangle.min.y
                && a.rectangle.min.x < b.rectangle.min.x)
        }
    }

    /// `regions` shows the cells: each region shows a cell, each cell is
    /// shown, none twice, and they come shelf by shelf, each shelf from
    /// its start.
    pub open spec fn drawn_by(self, regions: Seq<Region>) -> bool {
        &&& forall|k: int| 0 <= k < regions.len() ==> self.shows_a_cell(#[trigger] regions[k])
        &&& forall|i: int| #[trigger] self.cells.contains_key(i) ==> self.shown_in(i, regions)
        &&& forall|k: int, l: int|
            #![trigger regions[k], regions[l]]
            0 <= k < l < regions.len() ==> self.reads_before(regions[k], regions[l])
        &&& forall|k: int, l: int|
            #![trigger regions[k], regions[l]]
            0 <= k < l < regions.len() ==> regions[k] != regions[l]
    }

    /// The box handed out when `w` by `h` is placed in cell `i`.
    pub open spec fn placed_rectangle(self, i: int, w: int, h: int) -> Rectangle {
        Cell { x: self.cells[i].x, y: self.cells[i].y, width: w, height: h, allocated: true }.rectangle(
            self.vertical,
        )
    }

    /// The state after `w` by `h` was placed in cell `i`.
    pub open spec fn place(self, i: int, w: int, h: int) -> AtlasView {
        let c = self.cells[i];
        let cut_shelf = self.cuts_shelf(i, h);
        let cut_item = self.cuts_item(i, w);
        let height = if cut_shelf { h } else { c.height };
        let width = if cut_item { w } else { c.width };
        let taken_cell = Cell { x: c.x, y: c.y, width, height, allocated: true };
        let cells1 = if cut_shelf {
            self.cells.insert(
                self.upcoming(0),
                Cell { x: 0, y: c.y + h, width: self.along(), height: c.height - h, allocated: false },
            )
        } else {
            self.cells
        };
        let k: int = if cut_shelf { 1 } else { 0 };
        let cells2 = if cut_item {
            cells1.insert(
                self.upcoming(k),
                Cell { x: c.x + w, y: c.y, width: c.width - w, height, allocated: false },
            )
        } else {
            cells1
        };
        let after = self.taken(k + if cut_item { 1int } else { 0int });
        AtlasView {
            cells: cells2.insert(i, taken_cell),
            shelf_room: if cut_shelf { self.shelf_room - 1 } else { self.shelf_room },
            placements: self.placements.insert(AllocId(i as u32), self.placed_rectangle(i, w, h)),
            ..after
        }
    }
}

/// A shelf-packing dynamic atlas allocator tracking each allocation
/// individually and with support for coalescing empty shelves.
#[derive(Clone)]
pub struct AtlasAllocator {
    shelves: Vec<Shelf>,
    items: Vec<Item>,
    alignment: Size,
    flip_xy: bool,
    size: Size,
    first_shelf: ShelfIndex,
    free_items: ItemIndex,
    free_shelves: ShelfIndex,
    /// Indices of the shelves that are part of the surface.
    live_shelves: Ghost<Set<int>>,
    /// Indices of the items that are part of a shelf.
    live_items: Ghost<Set<int>>,
    /// The chain of released item slots, from `free_items` on.
    spare_items: Ghost<Seq<int>>,
    /// The chain of released shelf slots, from `free_shelves` on.
    spare_shelves: Ghost<Seq<int>>,
    /// The rectangles handed out and not yet given back.
    placed: Ghost<Map<AllocId, Rectangle>>,
}

impl View for AtlasAllocator {
    type V = AtlasView;

    closed spec fn view(&self) -> AtlasView {
        AtlasView {
            size: self.size,
            alignment: self.alignment,
            vertical: self.flip_xy,
            cells: Map::new(|i: int| self.live_items@.contains(i), |i: int| self.cell(i)),
            recycled: self.spare_items@,
            slots: self.items@.len() as int,
            shelf_room: self.spare_shelves@.len() + (65535 - self.shelves@.len()),
            placements: self.placed@,
        }
    }
}

impl AtlasAllocator {
    /// Sizes and options that an allocator can be made with.
    pub open spec fn valid_setup(size: Size, options: AllocatorOptions) -> bool {
        &&& 1 <= size.width <= 65535
        &&& 1 <= size.height <= 65535
        &&& options.alignment.width >= 1
        &&& options.alignment.height >= 1
    }

    spec fn along(&self) -> int {
        if self.flip_xy {
            self.size.height as int
        } else {
            self.size.width as int
        }
    }

    spec fn across(&self) -> int {
        if self.flip_xy {
            self.size.width as int
        } else {
            self.size.height as int
        }
    }

    spec fn align_along(&self) -> int {
        if self.flip_xy {
            self.alignment.height as int
        } else {
            self.alignment.width as int
        }
    }

    spec fn cell(&self, i: int) -> Cell {
        let item = self.items@[i];
        let shelf = self.shelves@[item.shelf.0 as int];
        Cell {
            x: item.x as int,
            y: shelf.y as int,
            width: item.width as int,
            height: shelf.height as int,
            allocated: item.allocated,
        }
    }

    spec fn shelf_live(&self, s: int) -> bool {
        self.live_shelves@.contains(s)
    }

    spec fn item_live(&self, i: int) -> bool {
        self.live_items@.contains(i)
    }

    /// What holds of a live shelf. The rule that two neighbours are not
    /// both empty is waived for the shelf `hole`.
    spec fn shelf_ok(&self, s: int, hole: int) -> bool {
        let sh = self.shelves@[s];
        let first = sh.first_item.0 as int;
        let p = sh.prev.0 as int;
        let n = sh.next.0 as int;
        &&& 0 <= s < self.shelves@.len()
        &&& sh.height >= 1
        &&& sh.y + sh.height <= self.across()
        &&& sh.y as int % 8 == 0
        &&& self.live_items@.contains(first)
        &&& 0 <= first < self.items@.len()
        &&& self.items@[first].shelf.0 == s
        &&& self.items@[first].prev.0 == NO_INDEX
        &&& sh.is_empty <==> (!self.items@[first].allocated && self.items@[first].next.0 == NO_INDEX)
        &&& if sh.prev.0 == NO_INDEX {
            sh.y == 0 && self.first_shelf.0 == s
        } else {
            &&& self.live_shelves@.contains(p)
            &&& 0 <= p < self.shelves@.len()
            &&& self.shelves@[p].next.0 == s
            &&& self.shelves@[p].y + self.shelves@[p].height == sh.y
        }
        &&& if sh.next.0 == NO_INDEX {
            sh.y + sh.height == self.across()
        } else {
            &&& self.live_shelves@.contains(n)
            &&& 0 <= n < self.shelves@.len()
            &&& self.shelves@[n].prev.0 == s
            &&& self.shelves@[n].y == sh.y + sh.height
            &&& (s == hole || n == hole || !(sh.is_empty && self.shelves@[n].is_empty))
        }
    }

    /// What holds of a live item. The rule that two neighbours are not
    /// both free is waived for the item `hole`.
    spec fn item_ok(&self, i: int, hole: int) -> bool {
        let it = self.items@[i];
        let s = it.shelf.0 as int;
        let p = it.prev.0 as int;
        let n = it.next.0 as int;
        &&& 0 <= i < self.items@.len()
        &&& self.live_shelves@.contains(s)
        &&& 0 <= s < self.shelves@.len()
        &&& it.width >= 1
        &&& it.x + it.width <= self.along()
        &&& it.x as int % self.align_along() == 0
        &&& if it.prev.0 == NO_INDEX {
            it.x == 0 && self.shelves@[s].first_item.0 == i
        } else {
            &&& self.live_items@.contains(p)
            &&& 0 <= p < self.items@.len()
            &&& self.items@[p].next.0 == i
            &&& self.items@[p].shelf == it.shelf
            &&& self.items@[p].x + self.items@[p].width == it.x
        }
        &&& if it.next.0 == NO_INDEX {
            it.x + it.width == self.along()
        } else {
            &&& self.live_items@.contains(n)
            &&& 0 <= n < self.items@.len()
            &&& self.items@[n].prev.0 == i
            &&& self.items@[n].shelf == it.shelf
            &&& self.items@[n].x == it.x + it.width
            &&& (i == hole || n == hole || it.allocated || self.items@[n].allocated)
        }
    }

    /// Distinct live shelves cover distinct stretches across the surface.
    spec fn shelves_apart(&self) -> bool {
        forall|s: int, t: int|
            #![trigger self.shelf_live(s), self.shelf_live(t)]
            self.shelf_live(s) && self.shelf_live(t) && s != t ==> {
                ||| self.shelves@[s].y + self.shelves@[s].height <= self.shelves@[t].y
                ||| self.shelves@[t].y + self.shelves@[t].height <= self.shelves@[s].y
            }
    }

    /// Distinct live items of one shelf cover distinct stretches along it.
    spec fn items_apart(&self) -> bool {
        forall|i: int, j: int|
            #![trigger self.item_live(i), self.item_live(j)]
            self.item_live(i) && self.item_live(j) && i != j && self.items@[i].shelf
                == self.items@[j].shelf ==> {
                ||| self.items@[i].x + self.items@[i].width <= self.items@[j].x
                ||| self.items@[j].x + self.items@[j].width <= self.items@[i].x
            }
    }

    spec fn spare_items_ok(&self) -> bool {
        let list = self.spare_items@;
        &&& self.free_items.0 == (if list.len() > 0 { list[0] } else { NO_INDEX as int })
        &&& forall|k: int|
            0 <= k < list.len() ==> {
                &&& 0 <= #[trigger] list[k] < self.items@.len()
                &&& list[k] != NO_INDEX
                &&& !self.live_items@.contains(list[k])
                &&& !self.items@[list[k]].allocated
                &&& k + 1 == list.len() ==> self.items@[list[k]].next.0 == NO_INDEX
            }
        &&& forall|k: int, l: int|
            #![trigger list[k], list[l]]
            0 <= k && l == k + 1 && l < list.len() ==> self.items@[list[k]].next.0 == list[l]
        &&& forall|k: int, l: int|
            #![trigger list[k], list[l]]
            0 <= k < l < list.len() ==> list[k] != list[l]
    }

    spec fn spare_shelves_ok(&self) -> bool {
        let list = self.spare_shelves@;
        &&& self.free_shelves.0 == (if list.len() > 0 { list[0] } else { NO_INDEX as int })
        &&& forall|k: int|
            0 <= k < list.len() ==> {
                &&& 0 <= #[trigger] list[k] < self.shelves@.len()
                &&& list[k] != NO_INDEX
                &&& !self.live_shelves@.contains(list[k])
                &&& k + 1 == list.len() ==> self.shelves@[list[k]].next.0 == NO_INDEX
            }
        &&& forall|k: int, l: int|
            #![trigger list[k], list[l]]
            0 <= k && l == k + 1 && l < list.len() ==> self.shelves@[list[k]].next.0 == list[l]
        &&& forall|k: int, l: int|
            #![trigger list[k], list[l]]
            0 <= k < l < list.len() ==> list[k] != list[l]
    }

    spec fn placed_ok(&self) -> bool {
        &&& forall|id: AllocId| #[trigger]
            self.placed@.contains_key(id) <==> {
                &&& self.live_items@.contains(id.0 as int)
                &&& id.0 < self.items@.len()
                &&& self.items@[id.0 as int].allocated
            }
        &&& forall|id: AllocId| #[trigger]
            self.placed@.contains_key(id) ==> {
                &&& self.placed@[id].within(self.cell(id.0 as int).rectangle(self.flip_xy))
                &&& self.placed@[id].min.x <= self.placed@[id].max.x
                &&& self.placed@[id].min.y <= self.placed@[id].max.y
            }
        &&& forall|i: int|
            0 <= i < self.items@.len() && (#[trigger] self.items@[i]).allocated ==> self.live_items@.contains(i)
    }

    /// The internal consistency of the allocator: shelves tile the surface
    /// across, the items of each shelf tile it along, the links mirror
    /// each other, no two neighbouring items are both free and no two
    /// neighbouring shelves are both empty.
    pub closed spec fn wf(&self) -> bool {
        self.inv(-1, -1)
    }

    /// The invariant, with the two merging rules waived for one shelf and
    /// one item.
    spec fn inv(&self, shelf_hole: int, item_hole: int) -> bool {
        &&& Self::valid_setup(
            self.size,
            AllocatorOptions {
                alignment: self.alignment,
                vertical_shelves: self.flip_xy,
                num_columns: 1,
            },
        )
        &&& self.shelves@.len() <= 65535
        &&& self.items@.len() <= 65535
        &&& self.live_shelves@.contains(self.first_shelf.0 as int)
        &&& self.shelves@[self.first_shelf.0 as int].prev.0 == NO_INDEX
        &&& forall|s: int| #[trigger] self.shelf_live(s) ==> self.shelf_ok(s, shelf_hole)
        &&& forall|i: int| #[trigger] self.item_live(i) ==> self.item_ok(i, item_hole)
        &&& self.shelves_apart()
        &&& self.items_apart()
        &&& self.spare_items_ok()
        &&& self.spare_shelves_ok()
        &&& self.placed_ok()
    }

    /// Create an atlas allocator with provided options.
    pub fn with_options(size: Size, options: &AllocatorOptions) -> (atlas: Self)
        requires
            Self::valid_setup(size, *options),
        ensures
            atlas.wf(),
            atlas@ == AtlasView::fresh(size, *options),
    {
        let first_shelf = ShelfIndex(0);
        let first_item = ItemIndex(0);
        let (_, across) = if options.vertical_shelves {
            (size.height as u16, size.width as u16)
        } else {
            (size.width as u16, size.height as u16)
        };
        let (along, _) = if options.vertical_shelves {
            (size.height as u16, size.width as u16)
        } else {
            (size.width as u16, size.height as u16)
        };
        let mut shelves: Vec<Shelf> = Vec::new();
        shelves.push(
            Shelf {
                y: 0,
                height: across,
                prev: ShelfIndex(NO_INDEX),
                next: ShelfIndex(NO_INDEX),
                is_empty: true,
                first_item,
            },
        );
        let mut items: Vec<Item> = Vec::new();
        items.push(
            Item {
                x: 0,
                width: along,
                prev: ItemIndex(NO_INDEX),
                next: ItemIndex(NO_INDEX),
                shelf: first_shelf,
                allocated: false,
            },
        );
        let atlas = AtlasAllocator {
            shelves,
            items,
            size,
            alignment: options.alignment,
            flip_xy: options.vertical_shelves,
            first_shelf,
            free_items: ItemIndex(NO_INDEX),
            free_shelves: ShelfIndex(NO_INDEX),
            live_shelves: Ghost(Set::empty().insert(0int)),
            live_items: Ghost(Set::empty().insert(0int)),
            spare_items: Ghost(Seq::empty()),
            spare_shelves: Ghost(Seq::empty()),
            placed: Ghost(Map::empty()),
        };
        proof {
            assert(atlas.shelf_ok(0, -1));
            assert(atlas.item_ok(0, -1));
            assert(atlas@.cells =~= AtlasView::fresh(size, *options).cells);
        }
        atlas
    }

    /// Create an atlas allocator with default options.
    pub fn new(size: Size) -> (atlas: Self)
        requires
            Self::valid_setup(size, AllocatorOptions::standard()),
        ensures
            atlas.wf(),
            atlas@ == AtlasView::fresh(size, AllocatorOptions::standard()),
    {
        Self::with_options(size, &AllocatorOptions::default())
    }

    pub fn size(&self) -> (size: Size)
        ensures
            size == self@.size,
    {
        self.size
    }

    /// True when no rectangle is placed.
    pub fn is_empty(&self) -> (r: bool)
        requires
            self.wf(),
        ensures
            r <==> self@.placements =~= Map::empty(),
    {
        proof {
            self.use_shelf(self.first_shelf.0 as int);
        }
        let shelf = &self.shelves[self.first_shelf.index()];
        let item = &self.items[shelf.first_item.index()];
        let r = shelf.next.is_none() && item.next.is_none() && !item.allocated;
        proof {
            let s0 = self.first_shelf.0 as int;
            let f0 = shelf.first_item.0 as int;
            self.use_shelf(s0);
            self.use_item(f0);
            if r {
                assert forall|id: AllocId| !self.placed@.contains_key(id) by {
                    if self.placed@.contains_key(id) {
                        let i = id.0 as int;
                        self.use_item(i);
                        let s = self.items@[i].shelf.0 as int;
                        self.use_shelf(s);
                        assert(self.shelf_live(s) && self.shelf_live(s0));
                        assert(self.item_live(i) && self.item_live(f0));
                    }
                }
                assert(self@.placements =~= Map::empty());
            } else {
                if item.allocated {
                    assert(self.placed@.contains_key(AllocId(f0 as u32)));
                } else if item.next.0 != NO_INDEX {
                    let n = item.next.0 as int;
                    self.use_item(n);
                    assert(self.placed@.contains_key(AllocId(n as u32)));
                } else {
                    let t = shelf.next.0 as int;
                    self.use_shelf(t);
                    let ft = self.shelves@[t].first_item.0 as int;
                    self.use_item(ft);
                    if self.items@[ft].allocated {
                        assert(self.placed@.contains_key(AllocId(ft as u32)));
                    } else {
                        let n = self.items@[ft].next.0 as int;
                        self.use_item(n);
                        assert(self.placed@.contains_key(AllocId(n as u32)));
                    }
                }
            }
        }
        r
    }

    /// What the invariant, with two rules waived, says of the live shelf
    /// `s`.
    proof fn see_shelf(&self, s: int, hs: int, hi: int)
        requires
            self.inv(hs, hi),
            self.live_shelves@.contains(s),
        ensures
            self.shelf_ok(s, hs),
            self.shelf_live(s),
    {
        assert(self.shelf_live(s));
    }

    /// What the invariant, with two rules waived, says of the live item
    /// `i`.
    proof fn see_item(&self, i: int, hs: int, hi: int)
        requires
            self.inv(hs, hi),
            self.live_items@.contains(i),
        ensures
            self.item_ok(i, hi),
            self.item_live(i),
    {
        assert(self.item_live(i));
    }

    /// A free item spans its shelf exactly when the shelf is marked empty,
    /// and is then the only item of the shelf.
    proof fn lemma_spans(&self, i: int, hs: int, hi: int)
        requires
            self.inv(hs, hi),
            self.live_items@.contains(i),
        ensures
            !self.items@[i].allocated ==> (self.shelves@[self.items@[i].shelf.0 as int].is_empty
                <==> self.items@[i].width == self.along()),
            self.shelves@[self.items@[i].shelf.0 as int].is_empty ==> !self.items@[i].allocated
                && self.shelves@[self.items@[i].shelf.0 as int].first_item.0 == i,
    {
        let s = self.items@[i].shelf.0 as int;
        self.see_item(i, hs, hi);
        self.see_shelf(s, hs, hi);
        let f = self.shelves@[s].first_item.0 as int;
        self.see_item(f, hs, hi);
        if self.items@[i].width == self.along() {
            if self.items@[i].prev.0 != NO_INDEX {
                self.see_item(self.items@[i].prev.0 as int, hs, hi);
            }
            if self.items@[i].next.0 != NO_INDEX {
                self.see_item(self.items@[i].next.0 as int, hs, hi);
            }
        }
        if self.shelves@[s].is_empty {
            assert(self.item_live(i) && self.item_live(f));
        }
    }

    /// Live items that start in one place are one item, and so are live
    /// items of one shelf that end in one place.
    proof fn lemma_one_place(&self, i: int, j: int, hs: int, hi: int)
        requires
            self.inv(hs, hi),
            self.live_items@.contains(i),
            self.live_items@.contains(j),
            self.cell(i).y == self.cell(j).y,
            self.cell(i).x == self.cell(j).x || self.cell(i).x + self.cell(i).width == self.cell(
                j,
            ).x + self.cell(j).width,
        ensures
            i == j,
    {
        self.see_item(i, hs, hi);
        self.see_item(j, hs, hi);
        let s = self.items@[i].shelf.0 as int;
        let t = self.items@[j].shelf.0 as int;
        self.see_shelf(s, hs, hi);
        self.see_shelf(t, hs, hi);
        assert(self.shelf_live(s) && self.shelf_live(t));
        assert(self.item_live(i) && self.item_live(j));
    }

    /// Live shelves that start at one height are one shelf, and so are
    /// live shelves that end at one height.
    proof fn lemma_one_level(&self, s: int, t: int, hs: int, hi: int)
        requires
            self.inv(hs, hi),
            self.live_shelves@.contains(s),
            self.live_shelves@.contains(t),
            self.shelves@[s].y == self.shelves@[t].y || self.shelves@[s].y
                + self.shelves@[s].height == self.shelves@[t].y + self.shelves@[t].height,
        ensures
            s == t,
    {
        self.see_shelf(s, hs, hi);
        self.see_shelf(t, hs, hi);
        assert(self.shelf_live(s) && self.shelf_live(t));
    }

    /// What the invariant says of the live shelf `s`.
    proof fn use_shelf(&self, s: int)
        requires
            self.wf(),
            self.live_shelves@.contains(s),
        ensures
            self.shelf_ok(s, -1),
            self.shelf_live(s),
    {
        assert(self.shelf_live(s));
    }

    /// What the invariant says of the live item `i`.
    proof fn use_item(&self, i: int)
        requires
            self.wf(),
            self.live_items@.contains(i),
        ensures
            self.item_ok(i, -1),
            self.item_live(i),
    {
        assert(self.item_live(i));
    }

    /// A free item spans its shelf exactly when the shelf is marked empty.
    proof fn lemma_empty_flag(&self, i: int)
        requires
            self.wf(),
            self.item_live(i),
            !self.items@[i].allocated,
        ensures
            self.shelves@[self.items@[i].shelf.0 as int].is_empty <==> self.items@[i].width
                == self.along(),
    {
        let s = self.items@[i].shelf.0 as int;
        self.use_item(i);
        self.use_shelf(s);
        let f = self.shelves@[s].first_item.0 as int;
        self.use_item(f);
        if self.items@[i].width == self.along() {
            if self.items@[i].prev.0 != NO_INDEX {
                self.use_item(self.items@[i].prev.0 as int);
            }
            if self.items@[i].next.0 != NO_INDEX {
                self.use_item(self.items@[i].next.0 as int);
            }
        }
        if self.shelves@[s].is_empty {
            assert(self.item_live(i) && self.item_live(f));
        }
    }

    /// What `fits` means on the arrays.
    proof fn lemma_fits(&self, i: int, w: int, h: int)
        requires
            self.wf(),
        ensures
            self@.fits(i, w, h) <==> {
                &&& self.item_live(i)
                &&& !self.items@[i].allocated
                &&& self.items@[i].width > w
                &&& self.shelves@[self.items@[i].shelf.0 as int].height >= h
                &&& (self.shelves@[self.items@[i].shelf.0 as int].is_empty
                    || self.shelves@[self.items@[i].shelf.0 as int].height <= 2 * h)
            },
    {
        if self.item_live(i) && !self.items@[i].allocated {
            self.lemma_empty_flag(i);
        }
    }

    /// The first free item of the shelf that is strictly wider than
    /// `width`, if there is one.
    fn find_item(&self, shelf_idx: ShelfIndex, width: u16) -> (r: ItemIndex)
        requires
            self.wf(),
            self.shelf_live(shelf_idx.0 as int),
        ensures
            r.0 == NO_INDEX ==> forall|i: int|
                #![trigger self.item_live(i)]
                self.item_live(i) && self.items@[i].shelf == shelf_idx ==> self.items@[i].allocated
                    || self.items@[i].width <= width,
            r.0 != NO_INDEX ==> {
                &&& self.item_live(r.0 as int)
                &&& self.items@[r.0 as int].shelf == shelf_idx
                &&& !self.items@[r.0 as int].allocated
                &&& self.items@[r.0 as int].width > width
                &&& forall|i: int|
                    #![trigger self.item_live(i)]
                    self.item_live(i) && self.items@[i].shelf == shelf_idx
                        && !self.items@[i].allocated && self.items@[i].width > width
                        ==> self.items@[r.0 as int].x <= self.items@[i].x
            },
    {
        proof {
            self.use_shelf(shelf_idx.0 as int);
        }
        let mut item_idx = self.shelves[shelf_idx.index()].first_item;
        let ghost mut front: int = 0;
        proof {
            self.use_item(item_idx.0 as int);
        }
        while item_idx.is_some()
            invariant
                self.wf(),
                self.shelf_live(shelf_idx.0 as int),
                item_idx.0 != NO_INDEX ==> self.item_live(item_idx.0 as int)
                    && self.items@[item_idx.0 as int].shelf == shelf_idx
                    && front == self.items@[item_idx.0 as int].x,
                item_idx.0 == NO_INDEX ==> front == self.along(),
                0 <= front <= self.along(),
                forall|i: int|
                    #![trigger self.item_live(i)]
                    self.item_live(i) && self.items@[i].shelf == shelf_idx && self.items@[i].x
                        < front ==> self.items@[i].allocated || self.items@[i].width <= width,
            decreases self.along() - front,
        {
            proof {
                self.use_item(item_idx.0 as int);
            }
            let item = &self.items[item_idx.index()];
            if !item.allocated && item.width > width {
                return item_idx;
            }
            proof {
                let cur = item_idx.0 as int;
                let new_front = item.x + item.width;
                if item.next.0 != NO_INDEX {
                    self.use_item(item.next.0 as int);
                }
                assert forall|i: int|
                    #![trigger self.item_live(i)]
                    self.item_live(i) && self.items@[i].shelf == shelf_idx && self.items@[i].x
                        < new_front implies self.items@[i].allocated || self.items@[i].width
                    <= width by {
                    assert(self.item_live(cur));
                    self.use_item(i);
                }
                front = new_front;
            }
            item_idx = item.next;
        }
        proof {
            assert forall|i: int|
                #![trigger self.item_live(i)]
                self.item_live(i) && self.items@[i].shelf == shelf_idx implies self.items@[i].allocated
                || self.items@[i].width <= width by {
                self.use_item(i);
            }
        }
        item_idx
    }

    /// The best fitting item for `width` by `height`, with its shelf, if
    /// any item fits.
    fn find_fit(&self, width: u16, height: u16) -> (r: (ShelfIndex, ItemIndex))
        requires
            self.wf(),
        ensures
            r.1.0 == NO_INDEX ==> forall|i: int| !self@.fits(i, width as int, height as int),
            r.1.0 != NO_INDEX ==> {
                &&& self@.best_fit(r.1.0 as int, width as int, height as int)
                &&& self.item_live(r.1.0 as int)
                &&& self.items@[r.1.0 as int].shelf == r.0
            },
    {
        let mut selected_shelf_height: u32 = 65536;
        let mut selected_shelf = ShelfIndex(NO_INDEX);
        let mut selected_item = ItemIndex(NO_INDEX);
        let mut shelf_idx = self.first_shelf;
        let ghost mut front: int = 0;
        let ghost w = width as int;
        let ghost h = height as int;
        proof {
            self.use_shelf(shelf_idx.0 as int);
        }
        while shelf_idx.is_some()
            invariant
                self.wf(),
                w == width,
                h == height,
                shelf_idx.0 != NO_INDEX ==> self.shelf_live(shelf_idx.0 as int) && front
                    == self.shelves@[shelf_idx.0 as int].y,
                shelf_idx.0 == NO_INDEX ==> front == self.across(),
                0 <= front <= self.across(),
                selected_item.0 == NO_INDEX ==> selected_shelf_height == 65536,
                selected_item.0 != NO_INDEX ==> {
                    &&& self@.fits(selected_item.0 as int, w, h)
                    &&& self.item_live(selected_item.0 as int)
                    &&& self.items@[selected_item.0 as int].shelf == selected_shelf
                    &&& self.shelf_live(selected_shelf.0 as int)
                    &&& selected_shelf_height == self.shelves@[selected_shelf.0 as int].height
                    &&& self.shelves@[selected_shelf.0 as int].y < front
                },
                forall|i: int|
                    #![trigger self.item_live(i)]
                    self.item_live(i) && self@.fits(i, w, h) && self.cell(i).y < front ==> {
                        &&& selected_item.0 != NO_INDEX
                        &&& self.cell(selected_item.0 as int).preferred_to(self.cell(i))
                    },
            decreases self.across() - front,
        {
            let ghost cur = shelf_idx.0 as int;
            proof {
                self.use_shelf(cur);
            }
            let shelf = &self.shelves[shelf_idx.index()];
            let ghost new_front = shelf.y + shelf.height;
            let skip = shelf.height < height || shelf.height as u32 >= selected_shelf_height || (
            !shelf.is_empty && shelf.height as u32 > height as u32 * 2);
            let mut found = ItemIndex(NO_INDEX);
            if !skip {
                found = self.find_item(shelf_idx, width);
            }
            let ghost old_selected = selected_item.0 as int;
            let perfect = found.is_some() && shelf.height == height;
            if found.is_some() {
                proof {
                    self.lemma_fits(found.0 as int, w, h);
                }
                selected_shelf = shelf_idx;
                selected_shelf_height = shelf.height as u32;
                selected_item = found;
            }
            proof {
                if shelf.next.0 != NO_INDEX {
                    self.use_shelf(shelf.next.0 as int);
                }
                assert forall|i: int|
                    #![trigger self.item_live(i)]
                    self.item_live(i) && self@.fits(i, w, h) && self.cell(i).y
                        < new_front implies selected_item.0 != NO_INDEX && self.cell(
                    selected_item.0 as int,
                ).preferred_to(self.cell(i)) by {
                    self.lemma_fits(i, w, h);
                    self.use_item(i);
                    let t = self.items@[i].shelf.0 as int;
                    assert(self.shelf_live(t) && self.shelf_live(cur));
                    if old_selected != NO_INDEX as int {
                        self.use_item(old_selected);
                    }
                }
            }
            if perfect {
                proof {
                    assert forall|i: int| #[trigger]
                        self@.fits(i, w, h) implies self@.cells[selected_item.0 as int].preferred_to(
                        self@.cells[i],
                    ) by {
                        self.lemma_fits(i, w, h);
                        self.use_item(i);
                        assert(self.item_live(i));
                        let t = self.items@[i].shelf.0 as int;
                        self.use_shelf(t);
                        assert(self.shelf_live(t) && self.shelf_live(cur));
                    }
                }
                return (selected_shelf, selected_item);
            }
            proof {
                front = new_front;
            }
            shelf_idx = shelf.next;
        }
        proof {
            assert forall|i: int| #[trigger] self@.fits(i, w, h) implies selected_item.0 != NO_INDEX
                && self@.cells[selected_item.0 as int].preferred_to(self@.cells[i]) by {
                assert(self.item_live(i));
                self.use_item(i);
                self.use_shelf(self.items@[i].shelf.0 as int);
            }
        }
        (selected_shelf, selected_item)
    }

    /// Slot `k` of the item array is neither part of a shelf nor in the
    /// chain of released slots.
    spec fn item_limbo(&self, k: int) -> bool {
        &&& 0 <= k < self.items@.len()
        &&& !self.live_items@.contains(k)
        &&& !self.items@[k].allocated
        &&& forall|j: int| 0 <= j < self.spare_items@.len() ==> self.spare_items@[j] != k
    }

    /// Slot `k` of the shelf array is neither part of the surface nor in
    /// the chain of released slots.
    spec fn shelf_limbo(&self, k: int) -> bool {
        &&& 0 <= k < self.shelves@.len()
        &&& !self.live_shelves@.contains(k)
        &&& forall|j: int| 0 <= j < self.spare_shelves@.len() ==> self.spare_shelves@[j] != k
    }

    /// The two allocators agree on all but the item array and the chain
    /// of released item slots.
    spec fn same_but_items(&self, other: &Self) -> bool {
        &&& self.shelves@ == other.shelves@
        &&& self.alignment == other.alignment
        &&& self.flip_xy == other.flip_xy
        &&& self.size == other.size
        &&& self.first_shelf == other.first_shelf
        &&& self.free_shelves == other.free_shelves
        &&& self.live_shelves@ == other.live_shelves@
        &&& self.live_items@ == other.live_items@
        &&& self.spare_shelves@ == other.spare_shelves@
        &&& self.placed@ == other.placed@
    }

    /// The two allocators agree on all but the shelf array and the chain
    /// of released shelf slots.
    spec fn same_but_shelves(&self, other: &Self) -> bool {
        &&& self.items@ == other.items@
        &&& self.alignment == other.alignment
        &&& self.flip_xy == other.flip_xy
        &&& self.size == other.size
        &&& self.first_shelf == other.first_shelf
        &&& self.free_items == other.free_items
        &&& self.live_shelves@ == other.live_shelves@
        &&& self.live_items@ == other.live_items@
        &&& self.spare_items@ == other.spare_items@
        &&& self.placed@ == other.placed@
    }

    /// The invariant carries over to a state that agrees with this one on
    /// every live shelf and item and keeps its own chains in order.
    proof fn lemma_frame(&self, new: &Self, hs: int, hi: int)
        requires
            self.inv(hs, hi),
            new.alignment == self.alignment,
            new.flip_xy == self.flip_xy,
            new.size == self.size,
            new.first_shelf == self.first_shelf,
            new.live_shelves@ == self.live_shelves@,
            new.live_items@ == self.live_items@,
            new.placed@ == self.placed@,
            self.shelves@.len() <= new.shelves@.len() <= 65535,
            self.items@.len() <= new.items@.len() <= 65535,
            forall|s: int|
                0 <= s < self.shelves@.len() && !(#[trigger] new.shelves@[s] == self.shelves@[s])
                    ==> !self.live_shelves@.contains(s),
            forall|i: int|
                0 <= i < self.items@.len() && !(#[trigger] new.items@[i] == self.items@[i])
                    ==> !self.live_items@.contains(i),
            new.spare_items_ok(),
            new.spare_shelves_ok(),
            forall|i: int|
                0 <= i < new.items@.len() && (#[trigger] new.items@[i]).allocated
                    ==> new.live_items@.contains(i),
        ensures
            new.inv(hs, hi),
    {
        assert(self.shelf_live(self.first_shelf.0 as int));
        assert(self.shelf_ok(self.first_shelf.0 as int, hs));
        assert forall|s: int| #[trigger] new.shelf_live(s) implies new.shelf_ok(s, hs) by {
            assert(self.shelf_live(s));
            assert(self.shelf_ok(s, hs));
        }
        assert forall|i: int| #[trigger] new.item_live(i) implies new.item_ok(i, hi) by {
            assert(self.item_live(i));
            assert(self.item_ok(i, hi));
        }
        assert(new.shelves_apart()) by {
            assert forall|s: int, t: int|
                #![trigger new.shelf_live(s), new.shelf_live(t)]
                new.shelf_live(s) && new.shelf_live(t) && s != t implies {
                ||| new.shelves@[s].y + new.shelves@[s].height <= new.shelves@[t].y
                ||| new.shelves@[t].y + new.shelves@[t].height <= new.shelves@[s].y
            } by {
                assert(self.shelf_live(s) && self.shelf_live(t));
            }
        }
        assert(new.items_apart()) by {
            assert forall|i: int, j: int|
                #![trigger new.item_live(i), new.item_live(j)]
                new.item_live(i) && new.item_live(j) && i != j && new.items@[i].shelf
                    == new.items@[j].shelf implies {
                ||| new.items@[i].x + new.items@[i].width <= new.items@[j].x
                ||| new.items@[j].x + new.items@[j].width <= new.items@[i].x
            } by {
                assert(self.item_live(i) && self.item_live(j));
            }
        }
        assert(new.placed_ok()) by {
            assert forall|id: AllocId| #[trigger] new.placed@.contains_key(id) implies {
                &&& new.placed@[id].within(new.cell(id.0 as int).rectangle(new.flip_xy))
                &&& new.placed@[id].min.x <= new.placed@[id].max.x
                &&& new.placed@[id].min.y <= new.placed@[id].max.y
            } by {
                assert(self.item_live(id.0 as int));
                assert(self.item_ok(id.0 as int, hi));
            }
            assert forall|id: AllocId| #[trigger]
                new.placed@.contains_key(id) <==> {
                    &&& new.live_items@.contains(id.0 as int)
                    &&& id.0 < new.items@.len()
                    &&& new.items@[id.0 as int].allocated
                } by {
                if new.live_items@.contains(id.0 as int) {
                    assert(self.item_live(id.0 as int));
                    assert(self.item_ok(id.0 as int, hi));
                }
            }
        }
    }

    /// Whether `count` item slots, at most two, can still be taken.
    fn has_item_slots(&self, count: usize) -> (r: bool)
        requires
            self.wf(),
            count <= 2,
        ensures
            r == (self@.recycled.len() + (65535 - self@.slots) >= count),
    {
        let mut available: usize = 65535 - self.items.len();
        let ghost list = self.spare_items@;
        if self.free_items.is_some() {
            assert(list.len() > 0);
            assert(0 <= list[0] < self.items@.len());
            available += 1;
            if self.items[self.free_items.index()].next.is_some() {
                available += 1;
            }
            assert(list.len() >= 2 ==> list[1] != NO_INDEX && self.items@[list[0]].next.0 == list[1]);
        } else {
            assert(list.len() > 0 ==> list[0] != NO_INDEX);
        }
        available >= count
    }

    /// Whether one more shelf can be made.
    fn has_shelf_slot(&self) -> (r: bool)
        requires
            self.wf(),
        ensures
            r == (self@.shelf_room >= 1),
    {
        self.free_shelves.is_some() || self.shelves.len() < 65535
    }

    /// Stores `item` in a recycled slot, or in a new one when none is
    /// left to recycle. The slot is not yet part of any shelf.
    fn add_item(&mut self, item: Item) -> (idx: ItemIndex)
        requires
            old(self).wf(),
            !item.allocated,
            old(self).spare_items@.len() > 0 || old(self).items@.len() < 65535,
        ensures
            final(self).wf(),
            final(self).same_but_items(old(self)),
            idx.0 == old(self)@.upcoming(0),
            idx.0 != NO_INDEX,
            final(self).item_limbo(idx.0 as int),
            final(self).items@[idx.0 as int] == item,
            final(self).items@.len() == old(self)@.taken(1).slots,
            final(self).spare_items@ == old(self)@.taken(1).recycled,
            forall|k: int|
                0 <= k < old(self).items@.len() && k != idx.0 ==> final(self).items@[k] == old(
                    self,
                ).items@[k],
            forall|k: int| old(self).item_limbo(k) ==> final(self).item_limbo(k),
    {
        if self.free_items.is_some() {
            let idx = self.free_items;
            assert(0 <= self.spare_items@[0] < self.items@.len());
            self.free_items = self.items[idx.index()].next;
            self.items[idx.index()] = item;
            proof {
                let ghost rest = self.spare_items@.skip(1);
                assert forall|k: int| 0 <= k < rest.len() implies rest[k] == old(
                    self,
                ).spare_items@[k + 1] by {}
                self.spare_items = Ghost(rest);
                old(self).lemma_frame(&*self, -1, -1);
            }
            return idx;
        }
        let idx = ItemIndex(self.items.len() as u16);
        self.items.push(item);
        proof {
            let ghost list = self.spare_items@;
            assert(list.len() > 0 ==> list[0] != NO_INDEX);
            assert(list =~= Seq::empty());
            if old(self).live_items@.contains(idx.0 as int) {
                old(self).use_item(idx.0 as int);
            }
            old(self).lemma_frame(&*self, -1, -1);
        }
        idx
    }

    /// Stores `shelf` in a recycled slot, or in a new one when none is
    /// left to recycle. The slot is not yet part of the surface.
    fn add_shelf(&mut self, shelf: Shelf) -> (idx: ShelfIndex)
        requires
            old(self).wf(),
            old(self).spare_shelves@.len() > 0 || old(self).shelves@.len() < 65535,
        ensures
            final(self).wf(),
            final(self).same_but_shelves(old(self)),
            idx.0 != NO_INDEX,
            final(self).shelf_limbo(idx.0 as int),
            final(self).shelves@[idx.0 as int] == shelf,
            final(self).shelves@.len() >= old(self).shelves@.len(),
            final(self)@.shelf_room == old(self)@.shelf_room - 1,
            forall|k: int|
                0 <= k < old(self).shelves@.len() && k != idx.0 ==> final(self).shelves@[k] == old(
                    self,
                ).shelves@[k],
            forall|k: int| old(self).item_limbo(k) ==> final(self).item_limbo(k),
    {
        if self.free_shelves.is_some() {
            let idx = self.free_shelves;
            assert(0 <= self.spare_shelves@[0] < self.shelves@.len());
            self.free_shelves = self.shelves[idx.index()].next;
            self.shelves[idx.index()] = shelf;
            proof {
                let ghost rest = self.spare_shelves@.skip(1);
                assert forall|k: int| 0 <= k < rest.len() implies rest[k] == old(
                    self,
                ).spare_shelves@[k + 1] by {}
                self.spare_shelves = Ghost(rest);
                old(self).lemma_frame(&*self, -1, -1);
            }
            return idx;
        }
        let idx = ShelfIndex(self.shelves.len() as u16);
        self.shelves.push(shelf);
        proof {
            let ghost list = self.spare_shelves@;
            assert(list.len() > 0 ==> list[0] != NO_INDEX);
            assert(list =~= Seq::empty());
            if old(self).live_shelves@.contains(idx.0 as int) {
                old(self).use_shelf(idx.0 as int);
            }
            old(self).lemma_frame(&*self, -1, -1);
        }
        idx
    }

    /// The item array after item `i` was handed out for `w`; the remainder
    /// goes to slot `rest` unless that is `NO_INDEX`.
    spec fn occupied_items(items: Seq<Item>, i: int, w: u16, rest: u16) -> Seq<Item> {
        let it = items[i];
        if rest == NO_INDEX {
            items.update(i, Item { allocated: true, ..it })
        } else {
            let a = items.update(
                rest as int,
                Item {
                    x: (it.x + w) as u16,
                    width: (it.width - w) as u16,
                    prev: ItemIndex(i as u16),
                    next: it.next,
                    shelf: it.shelf,
                    allocated: false,
                },
            );
            let b = a.update(i, Item { width: w, next: ItemIndex(rest), allocated: true, ..it });
            if it.next.0 != NO_INDEX {
                b.update(
                    it.next.0 as int,
                    Item { prev: ItemIndex(rest), ..items[it.next.0 as int] },
                )
            } else {
                b
            }
        }
    }

    /// `new` is this allocator after `occupy`.
    spec fn occupied(&self, new: &Self, i: int, w: u16, rest: u16, rect: Rectangle) -> bool {
        let s = self.items@[i].shelf.0 as int;
        &&& new.items@ == Self::occupied_items(self.items@, i, w, rest)
        &&& new.shelves@ == self.shelves@.update(s, Shelf { is_empty: false, ..self.shelves@[s] })
        &&& new.alignment == self.alignment
        &&& new.flip_xy == self.flip_xy
        &&& new.size == self.size
        &&& new.first_shelf == self.first_shelf
        &&& new.free_items == self.free_items
        &&& new.free_shelves == self.free_shelves
        &&& new.live_shelves@ == self.live_shelves@
        &&& new.live_items@ == (if rest == NO_INDEX {
            self.live_items@
        } else {
            self.live_items@.insert(rest as int)
        })
        &&& new.spare_items@ == self.spare_items@
        &&& new.spare_shelves@ == self.spare_shelves@
        &&& new.placed@ == self.placed@.insert(AllocId(i as u32), rect)
    }

    /// What `occupy` asks for.
    spec fn can_occupy(&self, i: int, w: u16, rest: u16, rect: Rectangle) -> bool {
        &&& self.wf()
        &&& self.live_items@.contains(i)
        &&& !self.items@[i].allocated
        &&& 1 <= w < self.items@[i].width
        &&& w as int % self.align_along() == 0
        &&& rest != NO_INDEX ==> self.item_limbo(rest as int)
        &&& rect.within(Cell { width: w as int, ..self.cell(i) }.rectangle(self.flip_xy))
        &&& rect.min.x <= rect.max.x
        &&& rect.min.y <= rect.max.y
    }

    proof fn lemma_occupy_shelves(&self, new: &Self, i: int, w: u16, rest: u16, rect: Rectangle)
        requires
            self.can_occupy(i, w, rest, rect),
            self.occupied(new, i, w, rest, rect),
        ensures
            forall|s: int| #[trigger] new.shelf_live(s) ==> new.shelf_ok(s, -1),
            new.shelves_apart(),
            new.spare_shelves_ok(),
            new.live_shelves@.contains(new.first_shelf.0 as int),
            new.shelves@[new.first_shelf.0 as int].prev.0 == NO_INDEX,
    {
        let s0 = self.items@[i].shelf.0 as int;
        self.use_item(i);
        self.use_shelf(s0);
        self.lemma_empty_flag(i);
        self.use_shelf(self.first_shelf.0 as int);
        if self.items@[i].next.0 != NO_INDEX {
            self.use_item(self.items@[i].next.0 as int);
        }
        assert forall|s: int| #[trigger] new.shelf_live(s) implies new.shelf_ok(s, -1) by {
            self.use_shelf(s);
            let f = self.shelves@[s].first_item.0 as int;
            self.use_item(f);
            if s == s0 && f != i {
                assert(self.item_live(f) && self.item_live(i));
            }
        }
        assert forall|s: int, t: int|
            #![trigger new.shelf_live(s), new.shelf_live(t)]
            new.shelf_live(s) && new.shelf_live(t) && s != t implies {
            ||| new.shelves@[s].y + new.shelves@[s].height <= new.shelves@[t].y
            ||| new.shelves@[t].y + new.shelves@[t].height <= new.shelves@[s].y
        } by {
            assert(self.shelf_live(s) && self.shelf_live(t));
            self.use_shelf(s);
            self.use_shelf(t);
        }
    }

    proof fn lemma_occupy_items(&self, new: &Self, i: int, w: u16, rest: u16, rect: Rectangle)
        requires
            self.can_occupy(i, w, rest, rect),
            self.occupied(new, i, w, rest, rect),
        ensures
            forall|k: int| #[trigger] new.item_live(k) ==> new.item_ok(k, -1),
            new.items_apart(),
            new.spare_items_ok(),
    {
        let s0 = self.items@[i].shelf.0 as int;
        let n0 = self.items@[i].next.0 as int;
        let p0 = self.items@[i].prev.0 as int;
        self.use_item(i);
        self.use_shelf(s0);
        if n0 != NO_INDEX {
            self.use_item(n0);
        }
        if p0 != NO_INDEX {
            self.use_item(p0);
        }
        lemma_multiples(self.items@[i].x as int, w as int, self.align_along());
        assert forall|k: int| #[trigger] new.item_live(k) implies new.item_ok(k, -1) by {
            if k == rest as int && rest != NO_INDEX {
            } else {
                self.use_item(k);
                let kn = self.items@[k].next.0 as int;
                let kp = self.items@[k].prev.0 as int;
                if kn != NO_INDEX {
                    self.use_item(kn);
                }
                if kp != NO_INDEX {
                    self.use_item(kp);
                }
                self.use_shelf(self.items@[k].shelf.0 as int);
            }
        }
        assert forall|a: int, b: int|
            #![trigger new.item_live(a), new.item_live(b)]
            new.item_live(a) && new.item_live(b) && a != b && new.items@[a].shelf
                == new.items@[b].shelf implies {
            ||| new.items@[a].x + new.items@[a].width <= new.items@[b].x
            ||| new.items@[b].x + new.items@[b].width <= new.items@[a].x
        } by {
            let a0 = if a == rest as int && rest != NO_INDEX { i } else { a };
            let b0 = if b == rest as int && rest != NO_INDEX { i } else { b };
            assert(self.item_live(a0) && self.item_live(b0));
            self.use_item(a0);
            self.use_item(b0);
        }
        let list = self.spare_items@;
        assert forall|k: int| 0 <= k < list.len() implies new.items@[#[trigger] list[k]]
            == self.items@[list[k]] by {}
    }

    proof fn lemma_occupy_placed(&self, new: &Self, i: int, w: u16, rest: u16, rect: Rectangle)
        requires
            self.can_occupy(i, w, rest, rect),
            self.occupied(new, i, w, rest, rect),
        ensures
            new.placed_ok(),
            forall|k: int|
                self.live_items@.contains(k) && k != i ==> #[trigger] new.cell(k) == self.cell(k),
            new.cell(i) == (Cell {
                width: if rest == NO_INDEX { self.cell(i).width } else { w as int },
                allocated: true,
                ..self.cell(i)
            }),
            rest != NO_INDEX ==> new.cell(rest as int) == (Cell {
                x: self.cell(i).x + w,
                width: self.cell(i).width - w,
                ..self.cell(i)
            }),
    {
        let s0 = self.items@[i].shelf.0 as int;
        let n0 = self.items@[i].next.0 as int;
        self.use_item(i);
        self.use_shelf(s0);
        if n0 != NO_INDEX {
            self.use_item(n0);
        }
        assert forall|k: int| self.live_items@.contains(k) && k != i implies #[trigger] new.cell(k)
            == self.cell(k) by {
            self.use_item(k);
        }
        assert forall|id: AllocId| #[trigger]
            new.placed@.contains_key(id) <==> {
                &&& new.live_items@.contains(id.0 as int)
                &&& id.0 < new.items@.len()
                &&& new.items@[id.0 as int].allocated
            } by {
            if id != AllocId(i as u32) {
                if self.live_items@.contains(id.0 as int) {
                    self.use_item(id.0 as int);
                }
            }
        }
        assert forall|id: AllocId| #[trigger] new.placed@.contains_key(id) implies {
            &&& new.placed@[id].within(new.cell(id.0 as int).rectangle(new.flip_xy))
            &&& new.placed@[id].min.x <= new.placed@[id].max.x
            &&& new.placed@[id].min.y <= new.placed@[id].max.y
        } by {
            if id != AllocId(i as u32) {
                assert(self.placed@.contains_key(id));
                self.use_item(id.0 as int);
            }
        }
    }

    /// Hands the free item `item_idx` out for a rectangle `width` wide.
    /// When `rest` is a slot, the item is cut and what remains of it stays
    /// free in that slot.
    fn occupy(&mut self, item_idx: ItemIndex, width: u16, rest: ItemIndex, Ghost(rect): Ghost<Rectangle>)
        requires
            old(self).can_occupy(item_idx.0 as int, width, rest.0, rect),
        ensures
            final(self).wf(),
            old(self).occupied(final(self), item_idx.0 as int, width, rest.0, rect),
    {
        proof {
            self.use_item(item_idx.0 as int);
            self.use_shelf(self.items@[item_idx.0 as int].shelf.0 as int);
            if self.items@[item_idx.0 as int].next.0 != NO_INDEX {
                self.use_item(self.items@[item_idx.0 as int].next.0 as int);
            }
        }
        let item = self.items[item_idx.index()];
        self.shelves[item.shelf.index()].is_empty = false;
        if rest.is_some() {
            self.items[rest.index()] = Item {
                x: item.x + width,
                width: item.width - width,
                prev: item_idx,
                next: item.next,
                shelf: item.shelf,
                allocated: false,
            };
            self.items[item_idx.index()].width = width;
            self.items[item_idx.index()].next = rest;
            if item.next.is_some() {
                self.items[item.next.index()].prev = rest;
            }
            proof {
                self.live_items = Ghost(self.live_items@.insert(rest.0 as int));
            }
        }
        self.items[item_idx.index()].allocated = true;
        proof {
            self.placed = Ghost(self.placed@.insert(AllocId(item_idx.0 as u32), rect));
            assert(self.items@ =~= Self::occupied_items(
                old(self).items@,
                item_idx.0 as int,
                width,
                rest.0,
            ));
            assert(self.shelves@ =~= old(self).shelves@.update(
                item.shelf.0 as int,
                Shelf { is_empty: false, ..old(self).shelves@[item.shelf.0 as int] },
            ));
            old(self).lemma_occupy_shelves(&*self, item_idx.0 as int, width, rest.0, rect);
            old(self).lemma_occupy_items(&*self, item_idx.0 as int, width, rest.0, rect);
            old(self).lemma_occupy_placed(&*self, item_idx.0 as int, width, rest.0, rect);
        }
    }

    /// The shelf array after shelf `s` was cut down to height `h`; what
    /// remains of it becomes the shelf `fresh`, with the item `fresh_item`.
    spec fn cut_shelves(shelves: Seq<Shelf>, s: int, h: u16, fresh: u16, fresh_item: u16) -> Seq<
        Shelf,
    > {
        let sh = shelves[s];
        let a = shelves.update(
            fresh as int,
            Shelf {
                y: (sh.y + h) as u16,
                height: (sh.height - h) as u16,
                prev: ShelfIndex(s as u16),
                next: sh.next,
                first_item: ItemIndex(fresh_item),
                is_empty: true,
            },
        );
        let b = a.update(s, Shelf { height: h, next: ShelfIndex(fresh), ..sh });
        if sh.next.0 != NO_INDEX {
            b.update(
                sh.next.0 as int,
                Shelf { prev: ShelfIndex(fresh), ..shelves[sh.next.0 as int] },
            )
        } else {
            b
        }
    }

    /// `new` is this allocator after `cut_shelf`.
    spec fn shelf_cut(&self, new: &Self, s: int, h: u16, fresh: u16, fresh_item: u16) -> bool {
        &&& new.shelves@ == Self::cut_shelves(self.shelves@, s, h, fresh, fresh_item)
        &&& new.items@ == self.items@.update(
            fresh_item as int,
            Item {
                x: 0,
                width: self.along() as u16,
                prev: ItemIndex(NO_INDEX),
                next: ItemIndex(NO_INDEX),
                shelf: ShelfIndex(fresh),
                allocated: false,
            },
        )
        &&& new.alignment == self.alignment
        &&& new.flip_xy == self.flip_xy
        &&& new.size == self.size
        &&& new.first_shelf == self.first_shelf
        &&& new.free_items == self.free_items
        &&& new.free_shelves == self.free_shelves
        &&& new.live_shelves@ == self.live_shelves@.insert(fresh as int)
        &&& new.live_items@ == self.live_items@.insert(fresh_item as int)
        &&& new.spare_items@ == self.spare_items@
        &&& new.spare_shelves@ == self.spare_shelves@
        &&& new.placed@ == self.placed@
    }

    /// What `cut_shelf` asks for.
    spec fn can_cut_shelf(&self, s: int, h: u16, fresh: u16, fresh_item: u16) -> bool {
        &&& self.wf()
        &&& self.live_shelves@.contains(s)
        &&& !self.shelves@[s].is_empty
        &&& 1 <= h < self.shelves@[s].height
        &&& h as int % 8 == 0
        &&& self.shelf_limbo(fresh as int)
        &&& self.item_limbo(fresh_item as int)
        &&& self.shelves@[s].next.0 != NO_INDEX ==> !self.shelves@[self.shelves@[s].next.0 as int].is_empty
        &&& forall|id: AllocId| #[trigger]
            self.placed@.contains_key(id) && self.items@[id.0 as int].shelf.0 == s
                ==> self.placed@[id].within(
                Cell { height: h as int, ..self.cell(id.0 as int) }.rectangle(self.flip_xy),
            )
    }

    proof fn lemma_cut_shelves(&self, new: &Self, s: int, h: u16, fresh: u16, fresh_item: u16)
        requires
            self.can_cut_shelf(s, h, fresh, fresh_item),
            self.shelf_cut(new, s, h, fresh, fresh_item),
        ensures
            forall|t: int| #[trigger] new.shelf_live(t) ==> new.shelf_ok(t, -1),
            new.shelves_apart(),
            new.spare_shelves_ok(),
            new.live_shelves@.contains(new.first_shelf.0 as int),
            new.shelves@[new.first_shelf.0 as int].prev.0 == NO_INDEX,
    {
        let n0 = self.shelves@[s].next.0 as int;
        let p0 = self.shelves@[s].prev.0 as int;
        self.use_shelf(s);
        self.use_shelf(self.first_shelf.0 as int);
        if n0 != NO_INDEX {
            self.use_shelf(n0);
        }
        if p0 != NO_INDEX {
            self.use_shelf(p0);
        }
        assert forall|t: int| #[trigger] new.shelf_live(t) implies new.shelf_ok(t, -1) by {
            if t == fresh as int {
            } else {
                self.use_shelf(t);
                let tn = self.shelves@[t].next.0 as int;
                let tp = self.shelves@[t].prev.0 as int;
                if tn != NO_INDEX {
                    self.use_shelf(tn);
                }
                if tp != NO_INDEX {
                    self.use_shelf(tp);
                }
                self.use_item(self.shelves@[t].first_item.0 as int);
            }
        }
        assert forall|a: int, b: int|
            #![trigger new.shelf_live(a), new.shelf_live(b)]
            new.shelf_live(a) && new.shelf_live(b) && a != b implies {
            ||| new.shelves@[a].y + new.shelves@[a].height <= new.shelves@[b].y
            ||| new.shelves@[b].y + new.shelves@[b].height <= new.shelves@[a].y
        } by {
            let a0 = if a == fresh as int { s } else { a };
            let b0 = if b == fresh as int { s } else { b };
            assert(self.shelf_live(a0) && self.shelf_live(b0));
            self.use_shelf(a0);
            self.use_shelf(b0);
        }
        let list = self.spare_shelves@;
        assert forall|k: int| 0 <= k < list.len() implies new.shelves@[#[trigger] list[k]]
            == self.shelves@[list[k]] by {}
    }

    proof fn lemma_cut_items(&self, new: &Self, s: int, h: u16, fresh: u16, fresh_item: u16)
        requires
            self.can_cut_shelf(s, h, fresh, fresh_item),
            self.shelf_cut(new, s, h, fresh, fresh_item),
        ensures
            forall|k: int| #[trigger] new.item_live(k) ==> new.item_ok(k, -1),
            new.items_apart(),
            new.spare_items_ok(),
            new.placed_ok(),
    {
        let n0 = self.shelves@[s].next.0 as int;
        self.use_shelf(s);
        if n0 != NO_INDEX {
            self.use_shelf(n0);
        }
        vstd::arithmetic::div_mod::lemma_small_mod(0, self.align_along() as nat);
        assert forall|k: int| #[trigger] new.item_live(k) implies new.item_ok(k, -1) by {
            if k == fresh_item as int {
            } else {
                self.use_item(k);
                let kn = self.items@[k].next.0 as int;
                let kp = self.items@[k].prev.0 as int;
                if kn != NO_INDEX {
                    self.use_item(kn);
                }
                if kp != NO_INDEX {
                    self.use_item(kp);
                }
                self.use_shelf(self.items@[k].shelf.0 as int);
            }
        }
        assert forall|a: int, b: int|
            #![trigger new.item_live(a), new.item_live(b)]
            new.item_live(a) && new.item_live(b) && a != b && new.items@[a].shelf
                == new.items@[b].shelf implies {
            ||| new.items@[a].x + new.items@[a].width <= new.items@[b].x
            ||| new.items@[b].x + new.items@[b].width <= new.items@[a].x
        } by {
            if a != fresh_item as int {
                self.use_item(a);
            }
            if b != fresh_item as int {
                self.use_item(b);
            }
            if a != fresh_item as int && b != fresh_item as int {
                assert(self.item_live(a) && self.item_live(b));
            }
        }
        let list = self.spare_items@;
        assert forall|k: int| 0 <= k < list.len() implies new.items@[#[trigger] list[k]]
            == self.items@[list[k]] by {}
        assert forall|id: AllocId| #[trigger]
            new.placed@.contains_key(id) <==> {
                &&& new.live_items@.contains(id.0 as int)
                &&& id.0 < new.items@.len()
                &&& new.items@[id.0 as int].allocated
            } by {
            if self.live_items@.contains(id.0 as int) {
                self.use_item(id.0 as int);
            }
        }
        assert forall|id: AllocId| #[trigger] new.placed@.contains_key(id) implies {
            &&& new.placed@[id].within(new.cell(id.0 as int).rectangle(new.flip_xy))
            &&& new.placed@[id].min.x <= new.placed@[id].max.x
            &&& new.placed@[id].min.y <= new.placed@[id].max.y
        } by {
            self.use_item(id.0 as int);
            self.use_shelf(self.items@[id.0 as int].shelf.0 as int);
        }
    }

    /// Cuts the shelf `shelf_idx`, which holds something, down to `height`.
    /// What remains of it becomes the empty shelf `fresh`, whose one free
    /// item is `fresh_item`.
    fn cut_shelf(&mut self, shelf_idx: ShelfIndex, height: u16, fresh: ShelfIndex, fresh_item: ItemIndex)
        requires
            old(self).can_cut_shelf(shelf_idx.0 as int, height, fresh.0, fresh_item.0),
        ensures
            final(self).wf(),
            old(self).shelf_cut(final(self), shelf_idx.0 as int, height, fresh.0, fresh_item.0),
    {
        proof {
            self.use_shelf(shelf_idx.0 as int);
            if self.shelves@[shelf_idx.0 as int].next.0 != NO_INDEX {
                self.use_shelf(self.shelves@[shelf_idx.0 as int].next.0 as int);
            }
        }
        let shelf = self.shelves[shelf_idx.index()];
        let (along, _) = convert_coordinates(
            self.flip_xy,
            self.size.width as u16,
            self.size.height as u16,
        );
        self.shelves[fresh.index()] = Shelf {
            y: shelf.y + height,
            height: shelf.height - height,
            prev: shelf_idx,
            next: shelf.next,
            first_item: fresh_item,
            is_empty: true,
        };
        self.items[fresh_item.index()] = Item {
            x: 0,
            width: along,
            prev: ItemIndex(NO_INDEX),
            next: ItemIndex(NO_INDEX),
            shelf: fresh,
            allocated: false,
        };
        self.shelves[shelf_idx.index()].height = height;
        self.shelves[shelf_idx.index()].next = fresh;
        if shelf.next.is_some() {
            self.shelves[shelf.next.index()].prev = fresh;
        }
        proof {
            self.live_shelves = Ghost(self.live_shelves@.insert(fresh.0 as int));
            self.live_items = Ghost(self.live_items@.insert(fresh_item.0 as int));
            assert(self.shelves@ =~= Self::cut_shelves(
                old(self).shelves@,
                shelf_idx.0 as int,
                height,
                fresh.0,
                fresh_item.0,
            ));
            old(self).lemma_cut_shelves(&*self, shelf_idx.0 as int, height, fresh.0, fresh_item.0);
            old(self).lemma_cut_items(&*self, shelf_idx.0 as int, height, fresh.0, fresh_item.0);
        }
    }

    /// On a shelf that is marked empty, the first item is the only one.
    proof fn lemma_alone(&self, i: int, k: int)
        requires
            self.wf(),
            self.live_items@.contains(i),
            self.live_items@.contains(k),
            self.items@[i].shelf == self.items@[k].shelf,
            self.shelves@[self.items@[i].shelf.0 as int].is_empty,
        ensures
            i == k,
    {
        let s = self.items@[i].shelf.0 as int;
        self.use_item(i);
        self.use_item(k);
        self.use_shelf(s);
        let f = self.shelves@[s].first_item.0 as int;
        self.use_item(f);
        assert(self.item_live(i) && self.item_live(k) && self.item_live(f));
    }

    /// Live items in one place are one item.
    proof fn lemma_same_place(&self, i: int, j: int)
        requires
            self.wf(),
            self.live_items@.contains(i),
            self.live_items@.contains(j),
            self.cell(i).x == self.cell(j).x,
            self.cell(i).y == self.cell(j).y,
        ensures
            i == j,
    {
        self.use_item(i);
        self.use_item(j);
        let s = self.items@[i].shelf.0 as int;
        let t = self.items@[j].shelf.0 as int;
        self.use_shelf(s);
        self.use_shelf(t);
        assert(self.shelf_live(s) && self.shelf_live(t));
        assert(self.item_live(i) && self.item_live(j));
    }

    /// `taken` is this allocator after `take_slots`.
    spec fn slots_taken(
        &self,
        taken: &Self,
        cut_shelf: bool,
        cut_item: bool,
        fresh: u16,
        fresh_item: u16,
        rest: u16,
    ) -> bool {
        let count = (if cut_shelf { 1int } else { 0int }) + (if cut_item { 1int } else { 0int });
        &&& taken.alignment == self.alignment
        &&& taken.flip_xy == self.flip_xy
        &&& taken.size == self.size
        &&& taken.live_shelves@ == self.live_shelves@
        &&& taken.live_items@ == self.live_items@
        &&& taken.placed@ == self.placed@
        &&& self.items@.len() <= taken.items@.len()
        &&& self.shelves@.len() <= taken.shelves@.len()
        &&& forall|k: int|
            self.live_items@.contains(k) ==> #[trigger] taken.items@[k] == self.items@[k]
        &&& forall|k: int|
            self.live_shelves@.contains(k) ==> #[trigger] taken.shelves@[k] == self.shelves@[k]
        &&& cut_shelf ==> taken.shelf_limbo(fresh as int) && taken.item_limbo(fresh_item as int)
            && fresh_item == self@.upcoming(0)
        &&& cut_item ==> taken.item_limbo(rest as int) && rest != NO_INDEX && rest
            == self@.upcoming(if cut_shelf { 1 } else { 0 })
        &&& cut_item && cut_shelf ==> fresh_item != rest
        &&& !cut_item ==> rest == NO_INDEX
        &&& taken@.recycled == self@.taken(count).recycled
        &&& taken@.slots == self@.taken(count).slots
        &&& taken@.shelf_room == self@.shelf_room - (if cut_shelf { 1int } else { 0int })
    }

    /// Takes the slots that the cuts need: a shelf and its item when the
    /// shelf is cut, then an item for what remains of the item.
    fn take_slots(&mut self, cut_shelf: bool, cut_item: bool) -> (r: (ShelfIndex, ItemIndex, ItemIndex))
        requires
            old(self).wf(),
            old(self)@.recycled.len() + (65535 - old(self)@.slots) >= (if cut_shelf { 1int } else { 0int })
                + (if cut_item { 1int } else { 0int }),
            cut_shelf ==> old(self)@.shelf_room >= 1,
        ensures
            final(self).wf(),
            old(self).slots_taken(final(self), cut_shelf, cut_item, r.0.0, r.1.0, r.2.0),
    {
        let blank_item = Item {
            x: 0,
            width: 0,
            prev: ItemIndex(NO_INDEX),
            next: ItemIndex(NO_INDEX),
            shelf: ShelfIndex(NO_INDEX),
            allocated: false,
        };
        let mut fresh_shelf = ShelfIndex(NO_INDEX);
        let mut fresh_item = ItemIndex(NO_INDEX);
        let mut rest = ItemIndex(NO_INDEX);
        proof {
            assert forall|k: int| old(self).live_items@.contains(k) implies 0 <= k < old(
                self,
            ).items@.len() by {
                old(self).use_item(k);
            }
            assert forall|k: int| old(self).live_shelves@.contains(k) implies 0 <= k < old(
                self,
            ).shelves@.len() by {
                old(self).use_shelf(k);
            }
        }
        if cut_shelf {
            fresh_shelf = self.add_shelf(
                Shelf {
                    y: 0,
                    height: 0,
                    prev: ShelfIndex(NO_INDEX),
                    next: ShelfIndex(NO_INDEX),
                    first_item: ItemIndex(NO_INDEX),
                    is_empty: true,
                },
            );
            fresh_item = self.add_item(blank_item);
        }
        let ghost middle = *self;
        if cut_item {
            rest = self.add_item(blank_item);
            proof {
                if cut_shelf {
                    if old(self)@.recycled.len() >= 2 {
                        assert(old(self)@.recycled.skip(1).skip(1) =~= old(self)@.recycled.skip(2));
                    }
                    if middle.spare_items@.len() > 0 {
                        assert(middle.spare_items@[0] == rest.0);
                    }
                }
            }
        }
        proof {
            let count = (if cut_shelf { 1int } else { 0int }) + (if cut_item { 1int } else { 0int });
            assert(self@.recycled =~= old(self)@.taken(count).recycled);
        }
        (fresh_shelf, fresh_item, rest)
    }

    /// After the item was handed out, its shelf is ready to be cut.
    proof fn lemma_cut_ready(
        &self,
        taken: &Self,
        occupied: &Self,
        i: int,
        w: u16,
        h: u16,
        fresh: u16,
        fresh_item: u16,
        rest: u16,
        rect: Rectangle,
    )
        requires
            self.wf(),
            occupied.wf(),
            self.live_items@.contains(i),
            self@.fits(i, w as int, h as int),
            self@.cuts_shelf(i, h as int),
            1 <= h,
            h as int % 8 == 0,
            self.slots_taken(taken, true, self@.cuts_item(i, w as int), fresh, fresh_item, rest),
            taken.occupied(occupied, i, w, rest, rect),
            rect == self@.placed_rectangle(i, w as int, h as int),
        ensures
            occupied.can_cut_shelf(self.items@[i].shelf.0 as int, h, fresh, fresh_item),
    {
        let s0 = self.items@[i].shelf.0 as int;
        self.use_item(i);
        self.use_shelf(s0);
        self.lemma_empty_flag(i);
        let n0 = self.shelves@[s0].next.0 as int;
        if n0 != NO_INDEX {
            self.use_shelf(n0);
            assert(taken.shelves@[n0] == self.shelves@[n0]);
        }
        if self.items@[i].next.0 != NO_INDEX {
            self.use_item(self.items@[i].next.0 as int);
        }
        assert(taken.items@[i] == self.items@[i]);
        assert(taken.shelves@[s0] == self.shelves@[s0]);
        assert(occupied.items@[i].shelf.0 == s0);
        assert(occupied.shelves@[s0].height == self.shelves@[s0].height);
        assert(occupied.shelves@[s0].y == self.shelves@[s0].y);
        assert(occupied.shelves@[s0].next == self.shelves@[s0].next);
        assert forall|id: AllocId| #[trigger]
            occupied.placed@.contains_key(id) && occupied.items@[id.0 as int].shelf.0
                == s0 implies occupied.placed@[id].within(
            Cell { height: h as int, ..occupied.cell(id.0 as int) }.rectangle(occupied.flip_xy),
        ) by {
            if id != AllocId(i as u32) {
                assert(self.placed@.contains_key(id));
                let k = id.0 as int;
                self.use_item(k);
                assert(taken.items@[k] == self.items@[k]);
                assert(occupied.items@[k].shelf == self.items@[k].shelf);
                self.lemma_alone(i, k);
            }
        }
    }

    /// What the view becomes through `take_slots`, `occupy` and
    /// `cut_shelf`, in this order.
    proof fn lemma_placed_view(
        &self,
        taken: &Self,
        occupied: &Self,
        new: &Self,
        i: int,
        w: u16,
        h: u16,
        fresh: u16,
        fresh_item: u16,
        rest: u16,
        rect: Rectangle,
    )
        requires
            self.wf(),
            self.live_items@.contains(i),
            self@.fits(i, w as int, h as int),
            self.slots_taken(
                taken,
                self@.cuts_shelf(i, h as int),
                self@.cuts_item(i, w as int),
                fresh,
                fresh_item,
                rest,
            ),
            taken.occupied(occupied, i, w, rest, rect),
            rect == self@.placed_rectangle(i, w as int, h as int),
            if self@.cuts_shelf(i, h as int) {
                occupied.shelf_cut(new, self.items@[i].shelf.0 as int, h, fresh, fresh_item)
            } else {
                new == occupied
            },
        ensures
            new@ == self@.place(i, w as int, h as int),
    {
        let after = self@.place(i, w as int, h as int);
        let s0 = self.items@[i].shelf.0 as int;
        self.use_item(i);
        self.use_shelf(s0);
        self.lemma_empty_flag(i);
        if self.items@[i].next.0 != NO_INDEX {
            self.use_item(self.items@[i].next.0 as int);
        }
        if self.shelves@[s0].next.0 != NO_INDEX {
            self.use_shelf(self.shelves@[s0].next.0 as int);
        }
        assert(new@.recycled =~= after.recycled);
        let cut_shelf = self@.cuts_shelf(i, h as int);
        let cut_item = self@.cuts_item(i, w as int);
        assert(taken.items@[i] == self.items@[i]);
        assert(taken.shelves@[s0] == self.shelves@[s0]);
        assert(new.items@[i].shelf.0 == s0);
        assert(new.cell(i) == after.cells[i]);
        if cut_item {
            assert(new.cell(rest as int) == after.cells[rest as int]);
        }
        if cut_shelf {
            assert(new.cell(fresh_item as int) == after.cells[fresh_item as int]);
        }
        assert forall|k: int| new@.cells.contains_key(k) implies new@.cells[k]
            == after.cells[k] by {
            if self.live_items@.contains(k) && k != i {
                self.use_item(k);
                let s = self.items@[k].shelf.0 as int;
                self.use_shelf(s);
                assert(taken.items@[k] == self.items@[k]);
                assert(taken.shelves@[s] == self.shelves@[s]);
                assert(occupied.items@[k].shelf == self.items@[k].shelf);
                assert(new.items@[k].shelf == self.items@[k].shelf);
                if cut_shelf && s == s0 {
                    self.lemma_alone(i, k);
                }
                assert(new.cell(k) == self.cell(k));
            }
        }
        assert(new@.cells =~= after.cells);
    }

    /// Places `width` by `height` at the start of the free item
    /// `item_idx`, cutting its shelf and the item where enough is left.
    fn place_at(&mut self, shelf_idx: ShelfIndex, item_idx: ItemIndex, width: u16, height: u16) -> (a:
        Allocation)
        requires
            old(self).wf(),
            old(self).live_items@.contains(item_idx.0 as int),
            old(self).items@[item_idx.0 as int].shelf == shelf_idx,
            old(self)@.fits(item_idx.0 as int, width as int, height as int),
            old(self)@.has_room(item_idx.0 as int, width as int, height as int),
            1 <= width,
            1 <= height,
            width as int % old(self).align_along() == 0,
            height as int % 8 == 0,
        ensures
            final(self).wf(),
            a.id == AllocId(item_idx.0 as u32),
            a.rectangle == old(self)@.placed_rectangle(
                item_idx.0 as int,
                width as int,
                height as int,
            ),
            final(self)@ == old(self)@.place(item_idx.0 as int, width as int, height as int),
            a.rectangle.within(Rectangle::surface(old(self)@.size)),
            a.rectangle.width() == (if old(self)@.vertical { height } else { width }),
            a.rectangle.height() == (if old(self)@.vertical { width } else { height }),
            if old(self)@.vertical {
                a.rectangle.min.y as int % old(self)@.alignment.height as int == 0
                    && a.rectangle.min.x as int % 8 == 0
            } else {
                a.rectangle.min.x as int % old(self)@.alignment.width as int == 0
                    && a.rectangle.min.y as int % 8 == 0
            },
    {
        let ghost i0 = item_idx.0 as int;
        let ghost s0 = shelf_idx.0 as int;
        proof {
            self.use_item(i0);
            self.use_shelf(s0);
            self.lemma_empty_flag(i0);
        }
        let shelf = self.shelves[shelf_idx.index()];
        let item = self.items[item_idx.index()];
        let cut_shelf = shelf.is_empty && shelf.height as u32 > height as u32
            + SHELF_SPLIT_THRESHOLD as u32;
        let cut_item = item.width - width > ITEM_SPLIT_THRESHOLD;
        let (fresh_shelf, fresh_item, rest) = self.take_slots(cut_shelf, cut_item);
        let ghost taken = *self;

        let x0 = item.x;
        let y0 = shelf.y;
        let x1 = x0 + width;
        let y1 = y0 + height;
        let (x0, y0) = convert_coordinates(self.flip_xy, x0, y0);
        let (x1, y1) = convert_coordinates(self.flip_xy, x1, y1);
        let rectangle = Rectangle {
            min: Point { x: x0 as i32, y: y0 as i32 },
            max: Point { x: x1 as i32, y: y1 as i32 },
        };
        proof {
            assert(taken.items@[i0] == old(self).items@[i0]);
            assert(taken.shelves@[s0] == old(self).shelves@[s0]);
        }
        self.occupy(item_idx, width, rest, Ghost(rectangle));
        let ghost occupied = *self;
        if cut_shelf {
            proof {
                old(self).lemma_cut_ready(
                    &taken,
                    &occupied,
                    i0,
                    width,
                    height,
                    fresh_shelf.0,
                    fresh_item.0,
                    rest.0,
                    rectangle,
                );
            }
            self.cut_shelf(shelf_idx, height, fresh_shelf, fresh_item);
        }
        proof {
            old(self).lemma_placed_view(
                &taken,
                &occupied,
                &*self,
                i0,
                width,
                height,
                fresh_shelf.0,
                fresh_item.0,
                rest.0,
                rectangle,
            );
        }
        Allocation { id: AllocId(item_idx.0 as u32), rectangle }
    }

    /// Allocate a rectangle in the atlas.
    ///
    /// Nothing is placed, and nothing changes, when the request is empty,
    /// when its aligned size exceeds the surface, when no free item fits
    /// it, or when the arrays cannot hold the pieces that a cut would
    /// make. Otherwise the rectangle goes to the start of the best fitting
    /// free item, which is cut to size where enough would be left over.
    pub fn allocate(&mut self, size: Size) -> (r: Option<Allocation>)
        requires
            old(self).wf(),
        ensures
            final(self).wf(),
            r is Some <==> old(self)@.placeable(size),
            r is None ==> final(self)@ == old(self)@,
            r matches Some(a) ==> {
                let (w, h) = old(self)@.normalized(size)->Some_0;
                let i = a.id.0 as int;
                &&& old(self)@.normalized(size) is Some
                &&& a.id.0 < 65535
                &&& old(self)@.best_fit(i, w, h)
                &&& old(self)@.has_room(i, w, h)
                &&& a.rectangle == old(self)@.placed_rectangle(i, w, h)
                &&& final(self)@ == old(self)@.place(i, w, h)
            },
            r matches Some(a) ==> {
                &&& a.rectangle.width() >= size.width
                &&& a.rectangle.height() >= size.height
                &&& a.rectangle.within(Rectangle::surface(old(self)@.size))
                &&& if old(self)@.vertical {
                    &&& a.rectangle.min.y as int % old(self)@.alignment.height as int == 0
                    &&& a.rectangle.min.x as int % 8 == 0
                    &&& 8int % old(self)@.alignment.width as int == 0 ==> a.rectangle.min.x as int
                        % old(self)@.alignment.width as int == 0
                } else {
                    &&& a.rectangle.min.x as int % old(self)@.alignment.width as int == 0
                    &&& a.rectangle.min.y as int % 8 == 0
                    &&& 8int % old(self)@.alignment.height as int == 0 ==> a.rectangle.min.y as int
                        % old(self)@.alignment.height as int == 0
                }
            },
    {
        if size.is_empty() {
            return None;
        }
        proof {
            lemma_aligned_up(size.width as int, self.alignment.width as int);
            lemma_aligned_up(size.height as int, self.alignment.height as int);
            lemma_aligned_up_bound(size.width as int, self.alignment.width as int);
            lemma_aligned_up_bound(size.height as int, self.alignment.height as int);
        }
        if size.width > self.size.width || size.height > self.size.height {
            return None;
        }
        let mut aligned_width = size.width;
        let mut aligned_height = size.height;
        adjust_size(self.alignment.width, &mut aligned_width);
        adjust_size(self.alignment.height, &mut aligned_height);
        if aligned_width > self.size.width || aligned_height > self.size.height {
            return None;
        }
        let (width, height) = convert_coordinates(
            self.flip_xy,
            aligned_width as u16,
            aligned_height as u16,
        );
        let ghost raw_height = height as int;
        proof {
            lemma_bucket_height(height as int);
        }
        if height > 65472 {
            return None;
        }
        let height = shelf_height(height);
        let ghost w = width as int;
        let ghost h = height as int;
        assert(old(self)@.normalized(size) == Some((w, h)));
        let (selected_shelf, selected_item) = self.find_fit(width, height);
        if selected_item.is_none() {
            return None;
        }
        let ghost i0 = selected_item.0 as int;
        proof {
            self.use_item(i0);
            self.use_shelf(selected_shelf.0 as int);
            self.lemma_empty_flag(i0);
        }
        let shelf = &self.shelves[selected_shelf.index()];
        let item = &self.items[selected_item.index()];
        let cut_shelf = shelf.is_empty && shelf.height as u32 > height as u32
            + SHELF_SPLIT_THRESHOLD as u32;
        let cut_item = item.width - width > ITEM_SPLIT_THRESHOLD;
        let needed: usize = (if cut_shelf {
            1usize
        } else {
            0usize
        }) + (if cut_item {
            1usize
        } else {
            0usize
        });
        if !self.has_item_slots(needed) || (cut_shelf && !self.has_shelf_slot()) {
            proof {
                assert forall|j: int| self@.best_fit(j, w, h) implies !self@.has_room(j, w, h) by {
                    assert(self@.fits(j, w, h) && self@.fits(i0, w, h));
                    self.lemma_same_place(i0, j);
                }
            }
            return None;
        }
        assert(self@.best_fit(i0, w, h) && self@.has_room(i0, w, h));
        proof {
            let n = self@.normalized(size);
            assert(n == Some((w, h)));
            assert(n->Some_0.0 == w && n->Some_0.1 == h);
            assert(self@.best_fit(i0, n->Some_0.0, n->Some_0.1) && self@.has_room(
                i0,
                n->Some_0.0,
                n->Some_0.1,
            ));
            assert(self@.placeable(size));
        }
        proof {
            if self.flip_xy {
                assert(w == aligned_height);
            } else {
                assert(w == aligned_width);
            }
        }
        let a = self.place_at(selected_shelf, selected_item, width, height);
        proof {
            if self.flip_xy {
                if 8int % self.alignment.width as int == 0 {
                    lemma_divisor_of_eight(a.rectangle.min.x as int, self.alignment.width as int);
                }
            } else {
                if 8int % self.alignment.height as int == 0 {
                    lemma_divisor_of_eight(a.rectangle.min.y as int, self.alignment.height as int);
                }
            }
        }
        Some(a)
    }

    /// Nothing free lies before item `k`.
    spec fn left_closed(&self, k: int) -> bool {
        self.items@[k].prev.0 == NO_INDEX || self.items@[self.items@[k].prev.0 as int].allocated
    }

    /// Nothing free lies after item `k`.
    spec fn right_closed(&self, k: int) -> bool {
        self.items@[k].next.0 == NO_INDEX || self.items@[self.items@[k].next.0 as int].allocated
    }

    /// No empty shelf lies before shelf `s`.
    spec fn above_closed(&self, s: int) -> bool {
        self.shelves@[s].prev.0 == NO_INDEX || !self.shelves@[self.shelves@[s].prev.0 as int].is_empty
    }

    /// No empty shelf lies after shelf `s`.
    spec fn below_closed(&self, s: int) -> bool {
        self.shelves@[s].next.0 == NO_INDEX || !self.shelves@[self.shelves@[s].next.0 as int].is_empty
    }

    /// Item `k` is the only one of its shelf.
    spec fn alone(&self, k: int) -> bool {
        self.items@[k].prev.0 == NO_INDEX && self.items@[k].next.0 == NO_INDEX
    }

    /// The shelf array with shelf `s` marked empty where `mark` is set.
    spec fn marked(shelves: Seq<Shelf>, s: int, mark: bool) -> Seq<Shelf> {
        if mark {
            shelves.update(s, Shelf { is_empty: true, ..shelves[s] })
        } else {
            shelves
        }
    }

    /// `new` is this allocator after `release`.
    spec fn let_go(&self, new: &Self, i: int) -> bool {
        let s = self.items@[i].shelf.0 as int;
        &&& new.items@ == self.items@.update(i, Item { allocated: false, ..self.items@[i] })
        &&& new.shelves@ == Self::marked(self.shelves@, s, self.alone(i))
        &&& new.alignment == self.alignment
        &&& new.flip_xy == self.flip_xy
        &&& new.size == self.size
        &&& new.first_shelf == self.first_shelf
        &&& new.free_items == self.free_items
        &&& new.free_shelves == self.free_shelves
        &&& new.live_shelves@ == self.live_shelves@
        &&& new.live_items@ == self.live_items@
        &&& new.spare_items@ == self.spare_items@
        &&& new.spare_shelves@ == self.spare_shelves@
        &&& new.placed@ == self.placed@.remove(AllocId(i as u32))
    }

    proof fn lemma_release(&self, new: &Self, i: int)
        requires
            self.wf(),
            self.live_items@.contains(i),
            self.items@[i].allocated,
            self.let_go(new, i),
        ensures
            new.inv(self.items@[i].shelf.0 as int, i),
            new@ == self@.freed(i),
    {
        let s0 = self.items@[i].shelf.0 as int;
        self.use_item(i);
        self.use_shelf(s0);
        self.use_shelf(self.first_shelf.0 as int);
        let f0 = self.shelves@[s0].first_item.0 as int;
        self.use_item(f0);
        assert(self.item_live(i) && self.item_live(f0));
        assert forall|s: int| #[trigger] new.shelf_live(s) implies new.shelf_ok(s, s0) by {
            self.use_shelf(s);
            self.use_item(self.shelves@[s].first_item.0 as int);
        }
        assert forall|k: int| #[trigger] new.item_live(k) implies new.item_ok(k, i) by {
            self.use_item(k);
        }
        assert(new.shelves_apart()) by {
            assert forall|a: int, b: int|
                #![trigger new.shelf_live(a), new.shelf_live(b)]
                new.shelf_live(a) && new.shelf_live(b) && a != b implies {
                ||| new.shelves@[a].y + new.shelves@[a].height <= new.shelves@[b].y
                ||| new.shelves@[b].y + new.shelves@[b].height <= new.shelves@[a].y
            } by {
                assert(self.shelf_live(a) && self.shelf_live(b));
            }
        }
        assert(new.items_apart()) by {
            assert forall|a: int, b: int|
                #![trigger new.item_live(a), new.item_live(b)]
                new.item_live(a) && new.item_live(b) && a != b && new.items@[a].shelf
                    == new.items@[b].shelf implies {
                ||| new.items@[a].x + new.items@[a].width <= new.items@[b].x
                ||| new.items@[b].x + new.items@[b].width <= new.items@[a].x
            } by {
                assert(self.item_live(a) && self.item_live(b));
            }
        }
        let list = self.spare_items@;
        assert forall|k: int| 0 <= k < list.len() implies new.items@[#[trigger] list[k]]
            == self.items@[list[k]] by {}
        let slist = self.spare_shelves@;
        assert forall|k: int| 0 <= k < slist.len() implies new.shelves@[#[trigger] slist[k]]
            == self.shelves@[slist[k]] by {}
        assert(new.placed_ok()) by {
            assert forall|id: AllocId| #[trigger]
                new.placed@.contains_key(id) <==> {
                    &&& new.live_items@.contains(id.0 as int)
                    &&& id.0 < new.items@.len()
                    &&& new.items@[id.0 as int].allocated
                } by {
                if self.live_items@.contains(id.0 as int) {
                    self.use_item(id.0 as int);
                }
            }
            assert forall|id: AllocId| #[trigger] new.placed@.contains_key(id) implies {
                &&& new.placed@[id].within(new.cell(id.0 as int).rectangle(new.flip_xy))
                &&& new.placed@[id].min.x <= new.placed@[id].max.x
                &&& new.placed@[id].min.y <= new.placed@[id].max.y
            } by {
                assert(self.placed@.contains_key(id));
                self.use_item(id.0 as int);
            }
        }
        assert(new@.cells =~= self@.freed(i).cells) by {
            assert forall|k: int| new@.cells.contains_key(k) implies new@.cells[k] == self@.freed(
                i,
            ).cells[k] by {
                self.use_item(k);
            }
        }
    }

    /// Marks the placed item `item_idx` free and takes its rectangle off
    /// the placements. Its free neighbours are not merged yet.
    fn release(&mut self, item_idx: ItemIndex)
        requires
            old(self).wf(),
            old(self).live_items@.contains(item_idx.0 as int),
            old(self).items@[item_idx.0 as int].allocated,
        ensures
            final(self).inv(old(self).items@[item_idx.0 as int].shelf.0 as int, item_idx.0 as int),
            old(self).let_go(final(self), item_idx.0 as int),
            final(self)@ == old(self)@.freed(item_idx.0 as int),
    {
        proof {
            self.use_item(item_idx.0 as int);
        }
        let item = self.items[item_idx.index()];
        self.items[item_idx.index()].allocated = false;
        if item.prev.is_none() && item.next.is_none() {
            self.shelves[item.shelf.index()].is_empty = true;
        }
        proof {
            self.placed = Ghost(self.placed@.remove(AllocId(item_idx.0 as u32)));
            assert(self.shelves@ =~= Self::marked(
                old(self).shelves@,
                item.shelf.0 as int,
                old(self).alone(item_idx.0 as int),
            ));
            old(self).lemma_release(&*self, item_idx.0 as int);
        }
    }

    /// The item array after item `k` took in `n`, the item after it. The
    /// slot `n` is chained before `head`, the first released slot.
    spec fn joined_items(items: Seq<Item>, k: int, n: int, head: ItemIndex) -> Seq<Item> {
        let next = items[n].next;
        let a = items.update(
            k,
            Item { width: (items[k].width + items[n].width) as u16, next, ..items[k] },
        );
        let b = if next.0 != NO_INDEX {
            a.update(next.0 as int, Item { prev: ItemIndex(k as u16), ..items[next.0 as int] })
        } else {
            a
        };
        b.update(n, Item { next: head, ..items[n] })
    }

    /// `new` is this allocator after `join`.
    spec fn join_done(&self, new: &Self, k: int, n: int) -> bool {
        let s = self.items@[k].shelf.0 as int;
        &&& new.items@ == Self::joined_items(self.items@, k, n, self.free_items)
        &&& new.shelves@ == Self::marked(
            self.shelves@,
            s,
            self.items@[k].prev.0 == NO_INDEX && self.items@[n].next.0 == NO_INDEX,
        )
        &&& new.alignment == self.alignment
        &&& new.flip_xy == self.flip_xy
        &&& new.size == self.size
        &&& new.first_shelf == self.first_shelf
        &&& new.free_items.0 == n
        &&& new.free_shelves == self.free_shelves
        &&& new.live_shelves@ == self.live_shelves@
        &&& new.live_items@ == self.live_items@.remove(n)
        &&& new.spare_items@ == seq![n] + self.spare_items@
        &&& new.spare_shelves@ == self.spare_shelves@
        &&& new.placed@ == self.placed@
    }

    /// What `join` asks for.
    spec fn can_join(&self, k: int, n: int, hi: int) -> bool {
        &&& self.inv(self.items@[k].shelf.0 as int, hi)
        &&& hi == k || hi == n
        &&& self.live_items@.contains(k)
        &&& self.items@[k].next.0 == n
        &&& n != NO_INDEX
        &&& !self.items@[k].allocated
        &&& !self.items@[n].allocated
        &&& self.right_closed(n)
    }

    proof fn lemma_join_shelves(&self, new: &Self, k: int, n: int, hi: int)
        requires
            self.can_join(k, n, hi),
            self.join_done(new, k, n),
        ensures
            forall|s: int| #[trigger] new.shelf_live(s) ==> new.shelf_ok(s, self.items@[k].shelf.0 as int),
            new.shelves_apart(),
            new.spare_shelves_ok(),
            new.live_shelves@.contains(new.first_shelf.0 as int),
            new.shelves@[new.first_shelf.0 as int].prev.0 == NO_INDEX,
    {
        let s0 = self.items@[k].shelf.0 as int;
        self.see_item(k, s0, hi);
        self.see_item(n, s0, hi);
        self.see_shelf(s0, s0, hi);
        self.see_shelf(self.first_shelf.0 as int, s0, hi);
        let nn = self.items@[n].next.0 as int;
        if nn != NO_INDEX {
            self.see_item(nn, s0, hi);
        }
        assert forall|s: int| #[trigger] new.shelf_live(s) implies new.shelf_ok(s, s0) by {
            self.see_shelf(s, s0, hi);
            let f = self.shelves@[s].first_item.0 as int;
            self.see_item(f, s0, hi);
        }
        assert forall|a: int, b: int|
            #![trigger new.shelf_live(a), new.shelf_live(b)]
            new.shelf_live(a) && new.shelf_live(b) && a != b implies {
            ||| new.shelves@[a].y + new.shelves@[a].height <= new.shelves@[b].y
            ||| new.shelves@[b].y + new.shelves@[b].height <= new.shelves@[a].y
        } by {
            assert(self.shelf_live(a) && self.shelf_live(b));
        }
        let slist = self.spare_shelves@;
        assert forall|j: int| 0 <= j < slist.len() implies new.shelves@[#[trigger] slist[j]]
            == self.shelves@[slist[j]] by {}
    }

    proof fn lemma_join_items(&self, new: &Self, k: int, n: int, hi: int)
        requires
            self.can_join(k, n, hi),
            self.join_done(new, k, n),
        ensures
            forall|j: int| #[trigger] new.item_live(j) ==> new.item_ok(j, k),
            new.items_apart(),
            new.right_closed(k),
            new.left_closed(k) == self.left_closed(k),
            new.items@[k].prev == self.items@[k].prev,
            new.items@[k].next == self.items@[n].next,
            new.items@[k].shelf == self.items@[k].shelf,
            !new.items@[k].allocated,
            new.live_items@.contains(k),
    {
        let s0 = self.items@[k].shelf.0 as int;
        self.see_item(k, s0, hi);
        self.see_item(n, s0, hi);
        self.see_shelf(s0, s0, hi);
        let nn = self.items@[n].next.0 as int;
        let kp = self.items@[k].prev.0 as int;
        if nn != NO_INDEX {
            self.see_item(nn, s0, hi);
        }
        if kp != NO_INDEX {
            self.see_item(kp, s0, hi);
        }
        assert forall|j: int| #[trigger] new.item_live(j) implies new.item_ok(j, k) by {
            self.see_item(j, s0, hi);
            let jn = self.items@[j].next.0 as int;
            let jp = self.items@[j].prev.0 as int;
            if jn != NO_INDEX {
                self.see_item(jn, s0, hi);
            }
            if jp != NO_INDEX {
                self.see_item(jp, s0, hi);
            }
            self.see_shelf(self.items@[j].shelf.0 as int, s0, hi);
        }
        assert forall|a: int, b: int|
            #![trigger new.item_live(a), new.item_live(b)]
            new.item_live(a) && new.item_live(b) && a != b && new.items@[a].shelf
                == new.items@[b].shelf implies {
            ||| new.items@[a].x + new.items@[a].width <= new.items@[b].x
            ||| new.items@[b].x + new.items@[b].width <= new.items@[a].x
        } by {
            assert(self.item_live(a) && self.item_live(b) && self.item_live(n));
            self.see_item(a, s0, hi);
            self.see_item(b, s0, hi);
        }
    }

    proof fn lemma_join_rest(&self, new: &Self, k: int, n: int, hi: int)
        requires
            self.can_join(k, n, hi),
            self.join_done(new, k, n),
        ensures
            new.spare_items_ok(),
            new.placed_ok(),
            new@ == self@.joined(k, n),
    {
        let s0 = self.items@[k].shelf.0 as int;
        self.see_item(k, s0, hi);
        self.see_item(n, s0, hi);
        self.see_shelf(s0, s0, hi);
        let nn = self.items@[n].next.0 as int;
        if nn != NO_INDEX {
            self.see_item(nn, s0, hi);
        }
        let list = self.spare_items@;
        let nlist = new.spare_items@;
        assert forall|j: int| 0 <= j < list.len() implies new.items@[#[trigger] list[j]]
            == self.items@[list[j]] && nlist[j + 1] == list[j] by {}
        assert(new.spare_items_ok()) by {
            assert forall|j: int| 0 <= j < nlist.len() implies {
                &&& 0 <= #[trigger] nlist[j] < new.items@.len()
                &&& nlist[j] != NO_INDEX
                &&& !new.live_items@.contains(nlist[j])
                &&& !new.items@[nlist[j]].allocated
                &&& j + 1 == nlist.len() ==> new.items@[nlist[j]].next.0 == NO_INDEX
            } by {
                if j > 0 {
                    assert(nlist[j] == list[j - 1]);
                }
            }
            assert forall|a: int, b: int|
                #![trigger nlist[a], nlist[b]]
                0 <= a && b == a + 1 && b < nlist.len() implies new.items@[nlist[a]].next.0
                == nlist[b] by {
                if a > 0 {
                    assert(nlist[a] == list[a - 1]);
                    assert(nlist[b] == list[b - 1]);
                } else {
                    assert(nlist[b] == list[0]);
                }
            }
            assert forall|a: int, b: int|
                #![trigger nlist[a], nlist[b]]
                0 <= a < b < nlist.len() implies nlist[a] != nlist[b] by {
                assert(nlist[b] == list[b - 1]);
                if a > 0 {
                    assert(nlist[a] == list[a - 1]);
                }
            }
        }
        assert(new.placed_ok()) by {
            assert forall|id: AllocId| #[trigger]
                new.placed@.contains_key(id) <==> {
                    &&& new.live_items@.contains(id.0 as int)
                    &&& id.0 < new.items@.len()
                    &&& new.items@[id.0 as int].allocated
                } by {
                if self.live_items@.contains(id.0 as int) {
                    self.see_item(id.0 as int, s0, hi);
                }
            }
            assert forall|id: AllocId| #[trigger] new.placed@.contains_key(id) implies {
                &&& new.placed@[id].within(new.cell(id.0 as int).rectangle(new.flip_xy))
                &&& new.placed@[id].min.x <= new.placed@[id].max.x
                &&& new.placed@[id].min.y <= new.placed@[id].max.y
            } by {
                self.see_item(id.0 as int, s0, hi);
            }
            assert forall|j: int|
                0 <= j < new.items@.len() && (#[trigger] new.items@[j]).allocated implies new.live_items@.contains(
                j,
            ) by {
                assert(self.items@[j].allocated);
            }
        }
        assert(new@.cells =~= self@.joined(k, n).cells) by {
            assert forall|j: int| new@.cells.contains_key(j) implies new@.cells[j]
                == self@.joined(k, n).cells[j] by {
                self.see_item(j, s0, hi);
            }
        }
    }

    /// Merges the free item after the free item `item_idx` into it, and
    /// releases its slot. Where this leaves the item alone on its shelf,
    /// the shelf is marked empty.
    fn join(&mut self, item_idx: ItemIndex, Ghost(hi): Ghost<int>)
        requires
            old(self).can_join(
                item_idx.0 as int,
                old(self).items@[item_idx.0 as int].next.0 as int,
                hi,
            ),
        ensures
            final(self).inv(
                old(self).items@[item_idx.0 as int].shelf.0 as int,
                item_idx.0 as int,
            ),
            old(self).join_done(
                final(self),
                item_idx.0 as int,
                old(self).items@[item_idx.0 as int].next.0 as int,
            ),
            final(self)@ == old(self)@.joined(
                item_idx.0 as int,
                old(self).items@[item_idx.0 as int].next.0 as int,
            ),
            final(self).right_closed(item_idx.0 as int),
            final(self).left_closed(item_idx.0 as int) == old(self).left_closed(item_idx.0 as int),
            final(self).items@[item_idx.0 as int].prev == old(self).items@[item_idx.0 as int].prev,
            final(self).items@[item_idx.0 as int].shelf == old(self).items@[item_idx.0 as int].shelf,
            !final(self).items@[item_idx.0 as int].allocated,
            final(self).live_items@.contains(item_idx.0 as int),
    {
        let ghost k = item_idx.0 as int;
        let ghost n = self.items@[k].next.0 as int;
        let ghost s0 = self.items@[k].shelf.0 as int;
        proof {
            self.see_item(k, s0, hi);
            self.see_item(n, s0, hi);
            self.see_shelf(s0, s0, hi);
            if self.items@[n].next.0 != NO_INDEX {
                self.see_item(self.items@[n].next.0 as int, s0, hi);
            }
        }
        let item = self.items[item_idx.index()];
        let next = item.next;
        let next_next = self.items[next.index()].next;
        let next_width = self.items[next.index()].width;
        self.items[item_idx.index()].next = next_next;
        self.items[item_idx.index()].width = item.width + next_width;
        if next_next.is_some() {
            self.items[next_next.index()].prev = item_idx;
        }
        self.items[next.index()].next = self.free_items;
        self.free_items = next;
        if item.prev.is_none() && next_next.is_none() {
            self.shelves[item.shelf.index()].is_empty = true;
        }
        proof {
            self.live_items = Ghost(self.live_items@.remove(n));
            self.spare_items = Ghost(seq![n] + self.spare_items@);
            assert(self.items@ =~= Self::joined_items(old(self).items@, k, n, old(self).free_items));
            assert(self.shelves@ =~= Self::marked(
                old(self).shelves@,
                s0,
                old(self).items@[k].prev.0 == NO_INDEX && old(self).items@[n].next.0 == NO_INDEX,
            ));
            old(self).lemma_join_shelves(&*self, k, n, hi);
            old(self).lemma_join_items(&*self, k, n, hi);
            old(self).lemma_join_rest(&*self, k, n, hi);
        }
    }

    /// The shelf array after shelf `s` took in `t`, the shelf after it.
    /// The slot `t` is chained before `head`, the first released slot.
    spec fn stacked_shelves(shelves: Seq<Shelf>, s: int, t: int, head: ShelfIndex) -> Seq<Shelf> {
        let next = shelves[t].next;
        let a = shelves.update(
            s,
            Shelf { height: (shelves[s].height + shelves[t].height) as u16, next, ..shelves[s] },
        );
        let b = if next.0 != NO_INDEX {
            a.update(next.0 as int, Shelf { prev: ShelfIndex(s as u16), ..shelves[next.0 as int] })
        } else {
            a
        };
        b.update(t, Shelf { next: head, ..shelves[t] })
    }

    /// `new` is this allocator after `stack`.
    spec fn stack_done(&self, new: &Self, s: int, t: int) -> bool {
        let ft = self.shelves@[t].first_item.0 as int;
        &&& new.shelves@ == Self::stacked_shelves(self.shelves@, s, t, self.free_shelves)
        &&& new.items@ == self.items@.update(ft, Item { next: self.free_items, ..self.items@[ft] })
        &&& new.alignment == self.alignment
        &&& new.flip_xy == self.flip_xy
        &&& new.size == self.size
        &&& new.first_shelf == self.first_shelf
        &&& new.free_items.0 == ft
        &&& new.free_shelves.0 == t
        &&& new.live_shelves@ == self.live_shelves@.remove(t)
        &&& new.live_items@ == self.live_items@.remove(ft)
        &&& new.spare_items@ == seq![ft] + self.spare_items@
        &&& new.spare_shelves@ == seq![t] + self.spare_shelves@
        &&& new.placed@ == self.placed@
    }

    /// What `stack` asks for.
    spec fn can_stack(&self, s: int, t: int, hs: int) -> bool {
        &&& self.inv(hs, -1)
        &&& hs == s || hs == t
        &&& self.live_shelves@.contains(s)
        &&& self.shelves@[s].next.0 == t
        &&& t != NO_INDEX
        &&& self.shelves@[s].is_empty
        &&& self.shelves@[t].is_empty
        &&& self.below_closed(t)
    }

    proof fn lemma_stack_shelves(&self, new: &Self, s: int, t: int, hs: int)
        requires
            self.can_stack(s, t, hs),
            self.stack_done(new, s, t),
        ensures
            forall|u: int| #[trigger] new.shelf_live(u) ==> new.shelf_ok(u, s),
            new.shelves_apart(),
            new.spare_shelves_ok(),
            new.live_shelves@.contains(new.first_shelf.0 as int),
            new.shelves@[new.first_shelf.0 as int].prev.0 == NO_INDEX,
            new.below_closed(s),
            new.above_closed(s) == self.above_closed(s),
            new.shelves@[s].is_empty,
            new.shelves@[s].prev == self.shelves@[s].prev,
            new.shelves@[s].y == self.shelves@[s].y,
            new.shelves@[s].first_item == self.shelves@[s].first_item,
            new.live_shelves@.contains(s),
    {
        self.see_shelf(s, hs, -1);
        self.see_shelf(t, hs, -1);
        self.see_shelf(self.first_shelf.0 as int, hs, -1);
        let tn = self.shelves@[t].next.0 as int;
        let sp = self.shelves@[s].prev.0 as int;
        if tn != NO_INDEX {
            self.see_shelf(tn, hs, -1);
        }
        if sp != NO_INDEX {
            self.see_shelf(sp, hs, -1);
        }
        let ft = self.shelves@[t].first_item.0 as int;
        self.see_item(ft, hs, -1);
        assert forall|u: int| #[trigger] new.shelf_live(u) implies new.shelf_ok(u, s) by {
            self.see_shelf(u, hs, -1);
            let un = self.shelves@[u].next.0 as int;
            let up = self.shelves@[u].prev.0 as int;
            if un != NO_INDEX {
                self.see_shelf(un, hs, -1);
            }
            if up != NO_INDEX {
                self.see_shelf(up, hs, -1);
            }
            let f = self.shelves@[u].first_item.0 as int;
            self.see_item(f, hs, -1);
        }
        assert forall|a: int, b: int|
            #![trigger new.shelf_live(a), new.shelf_live(b)]
            new.shelf_live(a) && new.shelf_live(b) && a != b implies {
            ||| new.shelves@[a].y + new.shelves@[a].height <= new.shelves@[b].y
            ||| new.shelves@[b].y + new.shelves@[b].height <= new.shelves@[a].y
        } by {
            assert(self.shelf_live(a) && self.shelf_live(b) && self.shelf_live(t));
            self.see_shelf(a, hs, -1);
            self.see_shelf(b, hs, -1);
        }
        let list = self.spare_shelves@;
        let nlist = new.spare_shelves@;
        assert forall|j: int| 0 <= j < list.len() implies new.shelves@[#[trigger] list[j]]
            == self.shelves@[list[j]] && nlist[j + 1] == list[j] by {}
        assert(new.spare_shelves_ok()) by {
            assert forall|j: int| 0 <= j < nlist.len() implies {
                &&& 0 <= #[trigger] nlist[j] < new.shelves@.len()
                &&& nlist[j] != NO_INDEX
                &&& !new.live_shelves@.contains(nlist[j])
                &&& j + 1 == nlist.len() ==> new.shelves@[nlist[j]].next.0 == NO_INDEX
            } by {
                if j > 0 {
                    assert(nlist[j] == list[j - 1]);
                }
            }
            assert forall|a: int, b: int|
                #![trigger nlist[a], nlist[b]]
                0 <= a && b == a + 1 && b < nlist.len() implies new.shelves@[nlist[a]].next.0
                == nlist[b] by {
                if a > 0 {
                    assert(nlist[a] == list[a - 1]);
                    assert(nlist[b] == list[b - 1]);
                } else {
                    assert(nlist[b] == list[0]);
                }
            }
            assert forall|a: int, b: int|
                #![trigger nlist[a], nlist[b]]
                0 <= a < b < nlist.len() implies nlist[a] != nlist[b] by {
                assert(nlist[b] == list[b - 1]);
                if a > 0 {
                    assert(nlist[a] == list[a - 1]);
                }
            }
        }
    }

    proof fn lemma_stack_items(&self, new: &Self, s: int, t: int, hs: int)
        requires
            self.can_stack(s, t, hs),
            self.stack_done(new, s, t),
        ensures
            forall|j: int| #[trigger] new.item_live(j) ==> new.item_ok(j, -1),
            new.items_apart(),
            new.spare_items_ok(),
    {
        self.see_shelf(s, hs, -1);
        self.see_shelf(t, hs, -1);
        let ft = self.shelves@[t].first_item.0 as int;
        self.see_item(ft, hs, -1);
        assert forall|j: int| #[trigger] new.item_live(j) implies new.item_ok(j, -1) by {
            self.see_item(j, hs, -1);
            self.lemma_spans(j, hs, -1);
            let jn = self.items@[j].next.0 as int;
            let jp = self.items@[j].prev.0 as int;
            if jn != NO_INDEX {
                self.see_item(jn, hs, -1);
                self.lemma_spans(jn, hs, -1);
            }
            if jp != NO_INDEX {
                self.see_item(jp, hs, -1);
                self.lemma_spans(jp, hs, -1);
            }
            self.see_shelf(self.items@[j].shelf.0 as int, hs, -1);
        }
        assert forall|a: int, b: int|
            #![trigger new.item_live(a), new.item_live(b)]
            new.item_live(a) && new.item_live(b) && a != b && new.items@[a].shelf
                == new.items@[b].shelf implies {
            ||| new.items@[a].x + new.items@[a].width <= new.items@[b].x
            ||| new.items@[b].x + new.items@[b].width <= new.items@[a].x
        } by {
            assert(self.item_live(a) && self.item_live(b));
        }
        let list = self.spare_items@;
        let nlist = new.spare_items@;
        assert forall|j: int| 0 <= j < list.len() implies new.items@[#[trigger] list[j]]
            == self.items@[list[j]] && nlist[j + 1] == list[j] by {}
        assert(new.spare_items_ok()) by {
            assert forall|j: int| 0 <= j < nlist.len() implies {
                &&& 0 <= #[trigger] nlist[j] < new.items@.len()
                &&& nlist[j] != NO_INDEX
                &&& !new.live_items@.contains(nlist[j])
                &&& !new.items@[nlist[j]].allocated
                &&& j + 1 == nlist.len() ==> new.items@[nlist[j]].next.0 == NO_INDEX
            } by {
                if j > 0 {
                    assert(nlist[j] == list[j - 1]);
                } else {
                    self.lemma_spans(ft, hs, -1);
                }
            }
            assert forall|a: int, b: int|
                #![trigger nlist[a], nlist[b]]
                0 <= a && b == a + 1 && b < nlist.len() implies new.items@[nlist[a]].next.0
                == nlist[b] by {
                if a > 0 {
                    assert(nlist[a] == list[a - 1]);
                    assert(nlist[b] == list[b - 1]);
                } else {
                    assert(nlist[b] == list[0]);
                }
            }
            assert forall|a: int, b: int|
                #![trigger nlist[a], nlist[b]]
                0 <= a < b < nlist.len() implies nlist[a] != nlist[b] by {
                assert(nlist[b] == list[b - 1]);
                if a > 0 {
                    assert(nlist[a] == list[a - 1]);
                }
            }
        }
    }

    proof fn lemma_stack_rest(&self, new: &Self, s: int, t: int, hs: int)
        requires
            self.can_stack(s, t, hs),
            self.stack_done(new, s, t),
        ensures
            new.placed_ok(),
            new@ == self@.stacked(
                self.shelves@[s].first_item.0 as int,
                self.shelves@[t].first_item.0 as int,
            ),
    {
        self.see_shelf(s, hs, -1);
        self.see_shelf(t, hs, -1);
        let ft = self.shelves@[t].first_item.0 as int;
        let fs = self.shelves@[s].first_item.0 as int;
        self.see_item(ft, hs, -1);
        self.see_item(fs, hs, -1);
        self.lemma_spans(ft, hs, -1);
        self.lemma_spans(fs, hs, -1);
        assert(self.shelf_live(s) && self.shelf_live(t));
        assert forall|j: int| new.live_items@.contains(j) && j != fs implies new.cell(j)
            == self.cell(j) by {
            self.see_item(j, hs, -1);
            self.lemma_spans(j, hs, -1);
            self.see_shelf(self.items@[j].shelf.0 as int, hs, -1);
        }
        assert(new.placed_ok()) by {
            assert forall|id: AllocId| #[trigger]
                new.placed@.contains_key(id) <==> {
                    &&& new.live_items@.contains(id.0 as int)
                    &&& id.0 < new.items@.len()
                    &&& new.items@[id.0 as int].allocated
                } by {
                if self.live_items@.contains(id.0 as int) {
                    self.see_item(id.0 as int, hs, -1);
                }
            }
            assert forall|id: AllocId| #[trigger] new.placed@.contains_key(id) implies {
                &&& new.placed@[id].within(new.cell(id.0 as int).rectangle(new.flip_xy))
                &&& new.placed@[id].min.x <= new.placed@[id].max.x
                &&& new.placed@[id].min.y <= new.placed@[id].max.y
            } by {
                self.see_item(id.0 as int, hs, -1);
                self.lemma_spans(id.0 as int, hs, -1);
                assert(new.live_items@.contains(id.0 as int));
            }
            assert forall|j: int|
                0 <= j < new.items@.len() && (#[trigger] new.items@[j]).allocated implies new.live_items@.contains(
                j,
            ) by {
                assert(self.items@[j].allocated);
            }
        }
        assert(new@.cells =~= self@.stacked(fs, ft).cells);
    }

    /// Merges the empty shelf after the empty shelf `shelf_idx` into it,
    /// and releases its slot and the slot of its one item.
    fn stack(&mut self, shelf_idx: ShelfIndex, Ghost(hs): Ghost<int>)
        requires
            old(self).can_stack(
                shelf_idx.0 as int,
                old(self).shelves@[shelf_idx.0 as int].next.0 as int,
                hs,
            ),
        ensures
            final(self).inv(shelf_idx.0 as int, -1),
            final(self)@ == old(self)@.stacked(
                old(self).shelves@[shelf_idx.0 as int].first_item.0 as int,
                old(self).shelves@[old(self).shelves@[shelf_idx.0 as int].next.0 as int].first_item.0 as int,
            ),
            final(self).below_closed(shelf_idx.0 as int),
            final(self).above_closed(shelf_idx.0 as int) == old(self).above_closed(
                shelf_idx.0 as int,
            ),
            final(self).shelves@[shelf_idx.0 as int].is_empty,
            final(self).shelves@[shelf_idx.0 as int].prev == old(self).shelves@[shelf_idx.0 as int].prev,
            final(self).shelves@[shelf_idx.0 as int].y == old(self).shelves@[shelf_idx.0 as int].y,
            final(self).shelves@[shelf_idx.0 as int].first_item == old(
                self,
            ).shelves@[shelf_idx.0 as int].first_item,
            final(self).live_shelves@.contains(shelf_idx.0 as int),
    {
        let ghost s = shelf_idx.0 as int;
        let ghost t = self.shelves@[s].next.0 as int;
        proof {
            self.see_shelf(s, hs, -1);
            self.see_shelf(t, hs, -1);
            if self.shelves@[t].next.0 != NO_INDEX {
                self.see_shelf(self.shelves@[t].next.0 as int, hs, -1);
            }
            self.see_item(self.shelves@[t].first_item.0 as int, hs, -1);
        }
        let shelf = self.shelves[shelf_idx.index()];
        let next = shelf.next;
        let next_next = self.shelves[next.index()].next;
        let next_height = self.shelves[next.index()].height;
        let next_item = self.shelves[next.index()].first_item;
        self.shelves[shelf_idx.index()].next = next_next;
        self.shelves[shelf_idx.index()].height = shelf.height + next_height;
        if next_next.is_some() {
            self.shelves[next_next.index()].prev = shelf_idx;
        }
        self.items[next_item.index()].next = self.free_items;
        self.free_items = next_item;
        self.shelves[next.index()].next = self.free_shelves;
        self.free_shelves = next;
        proof {
            let ghost ft = next_item.0 as int;
            self.live_items = Ghost(self.live_items@.remove(ft));
            self.spare_items = Ghost(seq![ft] + self.spare_items@);
            self.live_shelves = Ghost(self.live_shelves@.remove(t));
            self.spare_shelves = Ghost(seq![t] + self.spare_shelves@);
            assert(self.shelves@ =~= Self::stacked_shelves(
                old(self).shelves@,
                s,
                t,
                old(self).free_shelves,
            ));
            old(self).lemma_stack_shelves(&*self, s, t, hs);
            old(self).lemma_stack_items(&*self, s, t, hs);
            old(self).lemma_stack_rest(&*self, s, t, hs);
        }
    }

    /// With nothing free on either side of item `k`, the rule on free
    /// neighbours holds of it too.
    proof fn lemma_close_item(&self, hs: int, k: int)
        requires
            self.inv(hs, k),
            self.live_items@.contains(k),
            self.left_closed(k),
            self.right_closed(k),
        ensures
            self.inv(hs, -1),
    {
        self.see_item(k, hs, k);
        assert forall|j: int| #[trigger] self.item_live(j) implies self.item_ok(j, -1) by {
            self.see_item(j, hs, k);
        }
    }

    /// With no empty shelf on either side of shelf `s`, or with `s`
    /// holding something, the rule on empty neighbours holds of it too.
    proof fn lemma_close_shelf(&self, s: int)
        requires
            self.inv(s, -1),
            self.live_shelves@.contains(s),
            !self.shelves@[s].is_empty || (self.above_closed(s) && self.below_closed(s)),
        ensures
            self.wf(),
    {
        self.see_shelf(s, s, -1);
        assert forall|u: int| #[trigger] self.shelf_live(u) implies self.shelf_ok(u, -1) by {
            self.see_shelf(u, s, -1);
        }
    }

    /// An item is alone on its shelf exactly when it spans the surface.
    proof fn lemma_alone_spans(&self, k: int, hs: int, hi: int)
        requires
            self.inv(hs, hi),
            self.live_items@.contains(k),
        ensures
            self.alone(k) <==> self.items@[k].width == self.along(),
    {
        self.see_item(k, hs, hi);
        if self.items@[k].prev.0 != NO_INDEX {
            self.see_item(self.items@[k].prev.0 as int, hs, hi);
        }
        if self.items@[k].next.0 != NO_INDEX {
            self.see_item(self.items@[k].next.0 as int, hs, hi);
        }
    }

    /// Merges the item after `item_idx` into it if it is free.
    fn merge_next(&mut self, item_idx: ItemIndex, Ghost(c): Ghost<Cell>)
        requires
            old(self).inv(
                old(self).items@[item_idx.0 as int].shelf.0 as int,
                item_idx.0 as int,
            ),
            old(self).live_items@.contains(item_idx.0 as int),
            !old(self).items@[item_idx.0 as int].allocated,
            c.x == old(self).cell(item_idx.0 as int).x,
            c.y == old(self).cell(item_idx.0 as int).y,
            c.width == old(self).cell(item_idx.0 as int).width,
        ensures
            final(self).inv(
                old(self).items@[item_idx.0 as int].shelf.0 as int,
                item_idx.0 as int,
            ),
            final(self)@ == old(self)@.merged_right(item_idx.0 as int, c),
            final(self).right_closed(item_idx.0 as int),
            final(self).left_closed(item_idx.0 as int) == old(self).left_closed(item_idx.0 as int),
            final(self).items@[item_idx.0 as int].prev == old(self).items@[item_idx.0 as int].prev,
            final(self).items@[item_idx.0 as int].shelf == old(self).items@[item_idx.0 as int].shelf,
            final(self).items@[item_idx.0 as int].x == old(self).items@[item_idx.0 as int].x,
            final(self).shelves@[old(self).items@[item_idx.0 as int].shelf.0 as int].y == old(
                self,
            ).shelves@[old(self).items@[item_idx.0 as int].shelf.0 as int].y,
            final(self).shelves@[old(self).items@[item_idx.0 as int].shelf.0 as int].height == old(
                self,
            ).shelves@[old(self).items@[item_idx.0 as int].shelf.0 as int].height,
            !final(self).items@[item_idx.0 as int].allocated,
            final(self).live_items@.contains(item_idx.0 as int),
    {
        let ghost i = item_idx.0 as int;
        let ghost s0 = self.items@[i].shelf.0 as int;
        proof {
            self.see_item(i, s0, i);
        }
        let next = self.items[item_idx.index()].next;
        let ghost n = next.0 as int;
        proof {
            if n != NO_INDEX {
                self.see_item(n, s0, i);
                if self.items@[n].next.0 != NO_INDEX {
                    self.see_item(self.items@[n].next.0 as int, s0, i);
                }
            }
            assert forall|k: int| #[trigger] self@.free_after(k, c) implies n != NO_INDEX && k
                == n by {
                self.see_item(k, s0, i);
                if n != NO_INDEX {
                    self.lemma_one_place(k, n, s0, i);
                }
            }
        }
        if next.is_some() && !self.items[next.index()].allocated {
            proof {
                assert(self@.free_after(n, c));
            }
            self.join(item_idx, Ghost(i));
        }
    }

    /// Merges `item_idx` into the item before it if that one is free, and
    /// returns the item that is left.
    fn merge_prev(&mut self, item_idx: ItemIndex, Ghost(c): Ghost<Cell>) -> (survivor: ItemIndex)
        requires
            old(self).inv(
                old(self).items@[item_idx.0 as int].shelf.0 as int,
                item_idx.0 as int,
            ),
            old(self).live_items@.contains(item_idx.0 as int),
            !old(self).items@[item_idx.0 as int].allocated,
            old(self).right_closed(item_idx.0 as int),
            c.x == old(self).cell(item_idx.0 as int).x,
            c.y == old(self).cell(item_idx.0 as int).y,
        ensures
            final(self).inv(old(self).items@[item_idx.0 as int].shelf.0 as int, -1),
            final(self)@ == old(self)@.merged_left(item_idx.0 as int, c),
            survivor.0 == old(self)@.left_of(item_idx.0 as int, c),
            final(self).live_items@.contains(survivor.0 as int),
            !final(self).items@[survivor.0 as int].allocated,
            final(self).items@[survivor.0 as int].shelf == old(self).items@[item_idx.0 as int].shelf,
            final(self).shelves@[old(self).items@[item_idx.0 as int].shelf.0 as int].y == old(
                self,
            ).shelves@[old(self).items@[item_idx.0 as int].shelf.0 as int].y,
            final(self).shelves@[old(self).items@[item_idx.0 as int].shelf.0 as int].height == old(
                self,
            ).shelves@[old(self).items@[item_idx.0 as int].shelf.0 as int].height,
    {
        let ghost i = item_idx.0 as int;
        let ghost s0 = self.items@[i].shelf.0 as int;
        proof {
            self.see_item(i, s0, i);
            self.see_shelf(s0, s0, i);
        }
        let prev = self.items[item_idx.index()].prev;
        let ghost p = prev.0 as int;
        proof {
            if p != NO_INDEX {
                self.see_item(p, s0, i);
                if self.items@[p].prev.0 != NO_INDEX {
                    self.see_item(self.items@[p].prev.0 as int, s0, i);
                }
            }
            assert forall|k: int| #[trigger] self@.free_before(k, c) implies p != NO_INDEX && k
                == p by {
                self.see_item(k, s0, i);
                if p != NO_INDEX {
                    self.lemma_one_place(k, p, s0, i);
                }
            }
        }
        if prev.is_some() && !self.items[prev.index()].allocated {
            proof {
                assert(self@.free_before(p, c));
            }
            self.join(prev, Ghost(i));
            proof {
                self.lemma_close_item(s0, p);
            }
            prev
        } else {
            proof {
                self.lemma_close_item(s0, i);
            }
            item_idx
        }
    }

    /// Merges the shelf after `shelf_idx` into it if it is empty.
    fn merge_next_shelf(&mut self, shelf_idx: ShelfIndex, Ghost(c): Ghost<Cell>)
        requires
            old(self).inv(shelf_idx.0 as int, -1),
            old(self).live_shelves@.contains(shelf_idx.0 as int),
            old(self).shelves@[shelf_idx.0 as int].is_empty,
            c.y == old(self).shelves@[shelf_idx.0 as int].y,
            c.height == old(self).shelves@[shelf_idx.0 as int].height,
        ensures
            final(self).inv(shelf_idx.0 as int, -1),
            final(self)@ == old(self)@.merged_below(
                old(self).shelves@[shelf_idx.0 as int].first_item.0 as int,
                c,
            ),
            final(self).below_closed(shelf_idx.0 as int),
            final(self).above_closed(shelf_idx.0 as int) == old(self).above_closed(
                shelf_idx.0 as int,
            ),
            final(self).shelves@[shelf_idx.0 as int].is_empty,
            final(self).shelves@[shelf_idx.0 as int].prev == old(self).shelves@[shelf_idx.0 as int].prev,
            final(self).shelves@[shelf_idx.0 as int].y == old(self).shelves@[shelf_idx.0 as int].y,
            final(self).shelves@[shelf_idx.0 as int].first_item == old(
                self,
            ).shelves@[shelf_idx.0 as int].first_item,
            final(self).live_shelves@.contains(shelf_idx.0 as int),
    {
        let ghost s = shelf_idx.0 as int;
        proof {
            self.see_shelf(s, s, -1);
        }
        let next = self.shelves[shelf_idx.index()].next;
        let ghost t = next.0 as int;
        proof {
            if t != NO_INDEX {
                self.see_shelf(t, s, -1);
                let ft = self.shelves@[t].first_item.0 as int;
                self.see_item(ft, s, -1);
                self.lemma_spans(ft, s, -1);
                if self.shelves@[t].next.0 != NO_INDEX {
                    self.see_shelf(self.shelves@[t].next.0 as int, s, -1);
                }
            }
            assert forall|k: int| #[trigger] self@.empty_below(k, c) implies t != NO_INDEX
                && self.shelves@[t].is_empty && k == self.shelves@[t].first_item.0 by {
                self.see_item(k, s, -1);
                let tk = self.items@[k].shelf.0 as int;
                self.see_shelf(tk, s, -1);
                self.lemma_spans(k, s, -1);
                if t != NO_INDEX {
                    self.lemma_one_level(tk, t, s, -1);
                    self.lemma_one_place(k, self.shelves@[t].first_item.0 as int, s, -1);
                }
            }
        }
        if next.is_some() && self.shelves[next.index()].is_empty {
            proof {
                assert(self@.empty_below(self.shelves@[t].first_item.0 as int, c));
            }
            self.stack(shelf_idx, Ghost(s));
        }
    }

    /// Merges the shelf `shelf_idx` into the shelf before it if that one
    /// is empty.
    fn merge_prev_shelf(&mut self, shelf_idx: ShelfIndex, Ghost(c): Ghost<Cell>)
        requires
            old(self).inv(shelf_idx.0 as int, -1),
            old(self).live_shelves@.contains(shelf_idx.0 as int),
            old(self).shelves@[shelf_idx.0 as int].is_empty,
            old(self).below_closed(shelf_idx.0 as int),
            c.y == old(self).shelves@[shelf_idx.0 as int].y,
        ensures
            final(self).wf(),
            final(self)@ == old(self)@.merged_above(
                old(self).shelves@[shelf_idx.0 as int].first_item.0 as int,
                c,
            ),
    {
        let ghost s = shelf_idx.0 as int;
        proof {
            self.see_shelf(s, s, -1);
        }
        let prev = self.shelves[shelf_idx.index()].prev;
        let ghost p = prev.0 as int;
        proof {
            if p != NO_INDEX {
                self.see_shelf(p, s, -1);
                let fp = self.shelves@[p].first_item.0 as int;
                self.see_item(fp, s, -1);
                self.lemma_spans(fp, s, -1);
                if self.shelves@[p].prev.0 != NO_INDEX {
                    self.see_shelf(self.shelves@[p].prev.0 as int, s, -1);
                }
            }
            assert forall|k: int| #[trigger] self@.empty_above(k, c) implies p != NO_INDEX
                && self.shelves@[p].is_empty && k == self.shelves@[p].first_item.0 by {
                self.see_item(k, s, -1);
                let tk = self.items@[k].shelf.0 as int;
                self.see_shelf(tk, s, -1);
                self.lemma_spans(k, s, -1);
                if p != NO_INDEX {
                    self.lemma_one_level(tk, p, s, -1);
                    self.lemma_one_place(k, self.shelves@[p].first_item.0 as int, s, -1);
                }
            }
        }
        if prev.is_some() && self.shelves[prev.index()].is_empty {
            proof {
                assert(self@.empty_above(self.shelves@[p].first_item.0 as int, c));
            }
            self.stack(prev, Ghost(s));
            proof {
                self.lemma_close_shelf(p);
            }
        } else {
            proof {
                self.lemma_close_shelf(s);
            }
        }
    }

    /// Deallocate a rectangle in the atlas.
    ///
    /// The item becomes free and is merged with the free items next to it;
    /// a shelf that is left empty is merged with the empty shelves next to
    /// it. The slots of what was merged away are recycled.
    pub fn deallocate(&mut self, id: AllocId)
        requires
            old(self).wf(),
            old(self)@.placements.contains_key(id),
        ensures
            final(self).wf(),
            final(self)@ == old(self)@.released(id.0 as int),
            final(self)@.placements == old(self)@.placements.remove(id),
    {
        let ghost i = id.0 as int;
        let ghost c = self.cell(i);
        let ghost v0 = self@;
        proof {
            self.use_item(i);
            self.use_shelf(self.items@[i].shelf.0 as int);
            assert(v0.cells[i] == c);
        }
        let item_idx = ItemIndex(id.0 as u16);
        let ghost s0 = self.items@[i].shelf.0 as int;
        self.release(item_idx);
        let ghost v1 = self@;
        self.merge_next(item_idx, Ghost(c));
        let ghost v2 = self@;
        let survivor = self.merge_prev(item_idx, Ghost(c));
        let ghost v3 = self@;
        let ghost k = survivor.0 as int;
        proof {
            assert(v1 == v0.freed(i));
            assert(v2 == v1.merged_right(i, c));
            assert(v3 == v2.merged_left(i, c));
            assert(k == v2.left_of(i, c));
            self.see_item(k, s0, -1);
            self.lemma_alone_spans(k, s0, -1);
            self.lemma_spans(k, s0, -1);
            self.see_shelf(s0, s0, -1);
            assert(v3.cells[k] == self.cell(k));
            assert(v3.along() == v0.along());
        }
        let item = self.items[survivor.index()];
        if item.prev.is_none() && item.next.is_none() {
            let shelf_idx = item.shelf;
            assert(self.shelves@[s0].first_item.0 == k);
            self.merge_next_shelf(shelf_idx, Ghost(c));
            let ghost v4 = self@;
            self.merge_prev_shelf(shelf_idx, Ghost(c));
            proof {
                assert(v4 == v3.merged_below(k, c));
                assert(self@ == v4.merged_above(k, c));
            }
        } else {
            proof {
                self.lemma_close_shelf(s0);
            }
        }
    }

    /// From item `i` on, the items of a shelf mirror their links, no two
    /// neighbours are both free, and their widths add up to the surface;
    /// `accum` is covered so far, and `prev` came before `i`.
    spec fn items_consistent(&self, i: int, prev: int, prev_allocated: bool, accum: int) -> bool
        decreases self.along() - accum,
    {
        if i == NO_INDEX {
            accum == self.along()
        } else if !(0 <= i < self.items@.len() && self.items@[i].width >= 1 && 0 <= accum
            && accum + self.items@[i].width <= self.along()) {
            false
        } else {
            &&& self.items@[i].prev.0 == prev
            &&& (prev_allocated || self.items@[i].allocated)
            &&& self.items_consistent(
                self.items@[i].next.0 as int,
                i,
                self.items@[i].allocated,
                accum + self.items@[i].width,
            )
        }
    }

    /// From shelf `s` on, no two neighbouring shelves are both empty, an
    /// empty shelf holds one free item, the items of each shelf are
    /// consistent, and the heights add up to the surface; `accum` is
    /// covered so far.
    spec fn shelves_consistent(&self, s: int, prev_empty: bool, accum: int) -> bool
        decreases self.across() - accum,
    {
        if s == NO_INDEX {
            accum == self.across()
        } else if !(0 <= s < self.shelves@.len() && self.shelves@[s].height >= 1 && 0 <= accum
            && accum + self.shelves@[s].height <= self.across()) {
            false
        } else {
            let sh = self.shelves@[s];
            let first = sh.first_item.0 as int;
            &&& !(prev_empty && sh.is_empty)
            &&& 0 <= first < self.items@.len()
            &&& sh.is_empty ==> !self.items@[first].allocated && self.items@[first].next.0
                == NO_INDEX
            &&& self.items_consistent(first, NO_INDEX as int, true, 0)
            &&& self.shelves_consistent(sh.next.0 as int, sh.is_empty, accum + sh.height)
        }
    }

    /// What `check` tests: walked from the first shelf, the shelves tile
    /// the surface across and the items of each shelf tile it along, the
    /// links back mirror the links forward, no two neighbouring shelves are
    /// both empty and no two neighbouring items both free.
    pub closed spec fn consistent(&self) -> bool {
        self.shelves_consistent(self.first_shelf.0 as int, false, 0)
    }

    proof fn lemma_items_consistent(&self, i: int, prev_allocated: bool)
        requires
            self.wf(),
            self.live_items@.contains(i),
            prev_allocated || self.items@[i].allocated,
        ensures
            self.items_consistent(
                i,
                self.items@[i].prev.0 as int,
                prev_allocated,
                self.items@[i].x as int,
            ),
        decreases self.along() - self.items@[i].x,
    {
        self.use_item(i);
        let n = self.items@[i].next.0 as int;
        if n != NO_INDEX {
            self.use_item(n);
            self.lemma_items_consistent(n, self.items@[i].allocated);
        }
        assert(self.items_consistent(
            n,
            i,
            self.items@[i].allocated,
            self.items@[i].x + self.items@[i].width,
        ));
    }

    proof fn lemma_shelves_consistent(&self, s: int, prev_empty: bool)
        requires
            self.wf(),
            self.live_shelves@.contains(s),
            !(prev_empty && self.shelves@[s].is_empty),
        ensures
            self.shelves_consistent(s, prev_empty, self.shelves@[s].y as int),
        decreases self.across() - self.shelves@[s].y,
    {
        self.use_shelf(s);
        let n = self.shelves@[s].next.0 as int;
        let first = self.shelves@[s].first_item.0 as int;
        self.use_item(first);
        self.lemma_items_consistent(first, true);
        if n != NO_INDEX {
            self.use_shelf(n);
            self.lemma_shelves_consistent(n, self.shelves@[s].is_empty);
        }
        assert(self.items_consistent(first, NO_INDEX as int, true, 0));
        assert(self.shelves_consistent(
            n,
            self.shelves@[s].is_empty,
            self.shelves@[s].y + self.shelves@[s].height,
        ));
    }

    /// A well-formed allocator passes `check`.
    pub proof fn lemma_consistent(&self)
        requires
            self.wf(),
        ensures
            self.consistent(),
    {
        let s = self.first_shelf.0 as int;
        self.use_shelf(s);
        self.lemma_shelves_consistent(s, false);
    }

    /// Walks the items of one shelf, as `check` does.
    fn check_items(&self, first: ItemIndex, target: i64) -> (ok: bool)
        requires
            target == self.along(),
        ensures
            ok == self.items_consistent(first.0 as int, NO_INDEX as int, true, 0),
    {
        if target < 0 {
            return false;
        }
        let mut accum: i64 = 0;
        let mut prev_allocated = true;
        let mut item_idx = first;
        let mut prev_item_idx = ItemIndex(NO_INDEX);
        while item_idx.is_some()
            invariant
                target == self.along(),
                0 <= accum <= target,
                self.items_consistent(first.0 as int, NO_INDEX as int, true, 0)
                    == self.items_consistent(
                    item_idx.0 as int,
                    prev_item_idx.0 as int,
                    prev_allocated,
                    accum as int,
                ),
            decreases target - accum,
        {
            if item_idx.index() >= self.items.len() {
                return false;
            }
            let item = &self.items[item_idx.index()];
            if item.width == 0 || accum + item.width as i64 > target {
                return false;
            }
            if item.prev.0 != prev_item_idx.0 {
                return false;
            }
            if !prev_allocated && !item.allocated {
                return false;
            }
            accum = accum + item.width as i64;
            prev_allocated = item.allocated;
            prev_item_idx = item_idx;
            item_idx = item.next;
        }
        accum == target
    }

    /// The internal consistency check: walks the shelves and their items
    /// and tests that they tile the surface, that links back mirror links
    /// forward, and that nothing that could be merged lies side by side.
    pub fn check(&self) -> (ok: bool)
        ensures
            ok == self.consistent(),
            self.wf() ==> ok,
    {
        proof {
            if self.wf() {
                self.lemma_consistent();
            }
        }
        let (target_w, target_h) = if self.flip_xy {
            (self.size.height as i64, self.size.width as i64)
        } else {
            (self.size.width as i64, self.size.height as i64)
        };
        if target_h < 0 {
            return false;
        }
        let mut prev_empty = false;
        let mut accum: i64 = 0;
        let mut shelf_idx = self.first_shelf;
        while shelf_idx.is_some()
            invariant
                target_w == self.along(),
                target_h == self.across(),
                0 <= accum <= target_h,
                self.wf() ==> self.consistent(),
                self.consistent() == self.shelves_consistent(
                    shelf_idx.0 as int,
                    prev_empty,
                    accum as int,
                ),
            decreases target_h - accum,
        {
            if shelf_idx.index() >= self.shelves.len() {
                return false;
            }
            let shelf = &self.shelves[shelf_idx.index()];
            if shelf.height == 0 || accum + shelf.height as i64 > target_h {
                return false;
            }
            if prev_empty && shelf.is_empty {
                return false;
            }
            if shelf.first_item.index() >= self.items.len() {
                return false;
            }
            if shelf.is_empty {
                let first = &self.items[shelf.first_item.index()];
                if first.allocated || first.next.is_some() {
                    return false;
                }
            }
            if !self.check_items(shelf.first_item, target_w) {
                return false;
            }
            accum = accum + shelf.height as i64;
            prev_empty = shelf.is_empty;
            shelf_idx = shelf.next;
        }
        accum == target_h
    }

    /// Whether `id` names a rectangle that is placed.
    pub fn is_allocated(&self, id: AllocId) -> (r: bool)
        requires
            self.wf(),
        ensures
            r == self@.placements.contains_key(id),
    {
        let index = id.0 as usize;
        index < self.items.len() && self.items[index].allocated
    }

    /// Forget every placement and go back to the state right after
    /// construction.
    pub fn clear(&mut self)
        requires
            old(self).wf(),
        ensures
            final(self).wf(),
            final(self)@ == AtlasView::fresh(
                old(self)@.size,
                AllocatorOptions {
                    alignment: old(self)@.alignment,
                    vertical_shelves: old(self)@.vertical,
                    num_columns: 1,
                },
            ),
    {
        self.items.clear();
        self.shelves.clear();
        let first_shelf = ShelfIndex(0);
        let first_item = ItemIndex(0);
        let (along, across) = convert_coordinates(
            self.flip_xy,
            self.size.width as u16,
            self.size.height as u16,
        );
        self.shelves.push(
            Shelf {
                y: 0,
                height: across,
                prev: ShelfIndex(NO_INDEX),
                next: ShelfIndex(NO_INDEX),
                is_empty: true,
                first_item,
            },
        );
        self.items.push(
            Item {
                x: 0,
                width: along,
                prev: ItemIndex(NO_INDEX),
                next: ItemIndex(NO_INDEX),
                shelf: first_shelf,
                allocated: false,
            },
        );
        self.first_shelf = first_shelf;
        self.free_shelves = ShelfIndex(NO_INDEX);
        self.free_items = ItemIndex(NO_INDEX);
        proof {
            self.live_shelves = Ghost(Set::empty().insert(0int));
            self.live_items = Ghost(Set::empty().insert(0int));
            self.spare_items = Ghost(Seq::empty());
            self.spare_shelves = Ghost(Seq::empty());
            self.placed = Ghost(Map::empty());
            vstd::arithmetic::div_mod::lemma_small_mod(0, self.align_along() as nat);
            assert(self.shelf_ok(0, -1));
            assert(self.item_ok(0, -1));
            assert(self@.cells =~= AtlasView::fresh(
                self.size,
                AllocatorOptions {
                    alignment: self.alignment,
                    vertical_shelves: self.flip_xy,
                    num_columns: 1,
                },
            ).cells);
        }
    }

    /// No two rectangles that are placed overlap.
    pub proof fn lemma_placements_apart(&self, a: AllocId, b: AllocId)
        requires
            self.wf(),
            self@.placements.contains_key(a),
            self@.placements.contains_key(b),
            a != b,
        ensures
            !self@.placements[a].overlaps(self@.placements[b]),
    {
        let i = a.0 as int;
        let j = b.0 as int;
        self.use_item(i);
        self.use_item(j);
        let s = self.items@[i].shelf.0 as int;
        let t = self.items@[j].shelf.0 as int;
        self.use_shelf(s);
        self.use_shelf(t);
        assert(self.shelf_live(s) && self.shelf_live(t));
        assert(self.item_live(i) && self.item_live(j));
        crate::geometry::lemma_within_disjoint(
            self.placed@[a],
            self.placed@[b],
            self.cell(i).rectangle(self.flip_xy),
            self.cell(j).rectangle(self.flip_xy),
        );
    }

    /// Every rectangle that is placed lies on the surface, in the cell
    /// that its handle names, and that cell is marked allocated.
    pub proof fn lemma_placements_inside(&self, a: AllocId)
        requires
            self.wf(),
            self@.placements.contains_key(a),
        ensures
            self@.placements[a].within(Rectangle::surface(self@.size)),
            self@.cells.contains_key(a.0 as int),
            self@.cells[a.0 as int].allocated,
            self@.placements[a].within(self@.cells[a.0 as int].rectangle(self@.vertical)),
    {
        let i = a.0 as int;
        self.use_item(i);
        self.use_shelf(self.items@[i].shelf.0 as int);
    }

    /// Every cell that is marked allocated holds a placed rectangle.
    pub proof fn lemma_allocated_is_placed(&self, i: int)
        requires
            self.wf(),
            self@.cells.contains_key(i),
            self@.cells[i].allocated,
        ensures
            0 <= i < 65535,
            self@.placements.contains_key(AllocId(i as u32)),
    {
        self.use_item(i);
    }

    /// With nothing placed, the surface is one free cell.
    pub proof fn lemma_drained(&self, i: int)
        requires
            self.wf(),
            self@.placements =~= Map::empty(),
            self@.cells.contains_key(i),
        ensures
            self@.cells[i] == (Cell {
                x: 0,
                y: 0,
                width: self@.along(),
                height: self@.across(),
                allocated: false,
            }),
    {
        let s0 = self.first_shelf.0 as int;
        self.use_shelf(s0);
        let f0 = self.shelves@[s0].first_item.0 as int;
        self.use_item(f0);
        assert(!self.placed@.contains_key(AllocId(f0 as u32)));
        if self.items@[f0].next.0 != NO_INDEX {
            let n = self.items@[f0].next.0 as int;
            self.use_item(n);
            assert(!self.placed@.contains_key(AllocId(n as u32)));
        }
        if self.shelves@[s0].next.0 != NO_INDEX {
            let t = self.shelves@[s0].next.0 as int;
            self.use_shelf(t);
            let ft = self.shelves@[t].first_item.0 as int;
            self.use_item(ft);
            assert(!self.placed@.contains_key(AllocId(ft as u32)));
            if self.items@[ft].next.0 != NO_INDEX {
                let n = self.items@[ft].next.0 as int;
                self.use_item(n);
                assert(!self.placed@.contains_key(AllocId(n as u32)));
            }
        }
        self.use_item(i);
        let s = self.items@[i].shelf.0 as int;
        self.use_shelf(s);
        assert(self.shelf_live(s) && self.shelf_live(s0));
        assert(self.item_live(i) && self.item_live(f0));
    }

    /// No two neighbouring cells of a shelf are both free, and no two
    /// neighbouring shelves are both empty.
    pub proof fn lemma_merged(&self, i: int, j: int)
        requires
            self.wf(),
            self@.cells.contains_key(i),
        ensures
            !self@.cells[i].allocated ==> !self@.free_after(j, self@.cells[i]),
            !self@.cells[i].allocated && self@.cells[i].width == self@.along()
                ==> !self@.empty_below(j, self@.cells[i]),
    {
        self.use_item(i);
        let s = self.items@[i].shelf.0 as int;
        self.use_shelf(s);
        self.lemma_spans(i, -1, -1);
        if self.live_items@.contains(j) {
            self.use_item(j);
            let t = self.items@[j].shelf.0 as int;
            self.use_shelf(t);
            self.lemma_spans(j, -1, -1);
            let n = self.items@[i].next.0 as int;
            if n != NO_INDEX && self.cell(j).y == self.cell(i).y && self.cell(j).x == self.cell(
                i,
            ).x + self.cell(i).width {
                self.use_item(n);
                self.lemma_one_place(j, n, -1, -1);
            }
            let u = self.shelves@[s].next.0 as int;
            if u != NO_INDEX && self.shelves@[t].y == self.shelves@[s].y + self.shelves@[s].height {
                self.use_shelf(u);
                self.lemma_one_level(t, u, -1, -1);
            }
        }
    }

    /// The cells lie on the surface, and distinct cells do not overlap.
    pub proof fn lemma_cells_tile(&self, i: int, j: int)
        requires
            self.wf(),
            self@.cells.contains_key(i),
            self@.cells.contains_key(j),
        ensures
            0 <= self@.cells[i].x,
            0 <= self@.cells[i].y,
            1 <= self@.cells[i].width,
            1 <= self@.cells[i].height,
            self@.cells[i].x + self@.cells[i].width <= self@.along(),
            self@.cells[i].y + self@.cells[i].height <= self@.across(),
            i != j ==> !self@.cells[i].rectangle(self@.vertical).overlaps(
                self@.cells[j].rectangle(self@.vertical),
            ),
    {
        self.use_item(i);
        self.use_item(j);
        let s = self.items@[i].shelf.0 as int;
        let t = self.items@[j].shelf.0 as int;
        self.use_shelf(s);
        self.use_shelf(t);
        assert(self.shelf_live(s) && self.shelf_live(t));
        assert(self.item_live(i) && self.item_live(j));
    }

    /// The stretches that the surface is cut into, free or allocated,
    /// shelf by shelf from the start of the surface and, within a shelf,
    /// from its start: each item once.
    pub fn regions(&self) -> (r: Vec<Region>)
        requires
            self.wf(),
        ensures
            self@.drawn_by(r@),
    {
        let mut out: Vec<Region> = Vec::new();
        let ghost mut which: Seq<int> = Seq::empty();
        let ghost mut at: Map<int, int> = Map::empty();
        let mut shelf_idx = self.first_shelf;
        let ghost mut front: int = 0;
        proof {
            self.use_shelf(shelf_idx.0 as int);
        }
        while shelf_idx.is_some()
            invariant
                self.wf(),
                shelf_idx.0 != NO_INDEX ==> self.live_shelves@.contains(shelf_idx.0 as int) && front
                    == self.shelves@[shelf_idx.0 as int].y,
                shelf_idx.0 == NO_INDEX ==> front == self.across(),
                0 <= front <= self.across(),
                out@.len() == which.len(),
                forall|k: int|
                    0 <= k < which.len() ==> self.live_items@.contains(#[trigger] which[k])
                        && self@.shows(which[k], out@[k]) && self.cell(which[k]).y < front,
                forall|i: int|
                    self.live_items@.contains(i) && self.cell(i).y < front ==> #[trigger] at.contains_key(i)
                        && 0 <= at[i] < which.len() && which[at[i]] == i,
                forall|k: int, l: int|
                    #![trigger which[k], which[l]]
                    0 <= k < l < which.len() ==> which[k] != which[l] && self@.reads_before(
                        out@[k],
                        out@[l],
                    ),
            decreases self.across() - front,
        {
            let ghost cur = shelf_idx.0 as int;
            proof {
                self.use_shelf(cur);
                self.use_item(self.shelves@[cur].first_item.0 as int);
            }
            let shelf = &self.shelves[shelf_idx.index()];
            let mut item_idx = shelf.first_item;
            let ghost mut edge: int = 0;
            while item_idx.is_some()
                invariant
                    self.wf(),
                    self.live_shelves@.contains(cur),
                    cur == shelf_idx.0,
                    *shelf == self.shelves@[cur],
                    front == self.shelves@[cur].y,
                    item_idx.0 != NO_INDEX ==> self.live_items@.contains(item_idx.0 as int)
                        && self.items@[item_idx.0 as int].shelf.0 == cur && edge
                        == self.items@[item_idx.0 as int].x,
                    item_idx.0 == NO_INDEX ==> edge == self.along(),
                    0 <= edge <= self.along(),
                    out@.len() == which.len(),
                    forall|k: int|
                        0 <= k < which.len() ==> self.live_items@.contains(#[trigger] which[k])
                            && self@.shows(which[k], out@[k]) && (self.cell(which[k]).y < front
                            || (self.items@[which[k]].shelf.0 == cur && self.cell(which[k]).x
                            < edge)),
                    forall|i: int|
                        self.live_items@.contains(i) && (self.cell(i).y < front || (
                        self.items@[i].shelf.0 == cur && self.cell(i).x < edge))
                            ==> #[trigger] at.contains_key(i) && 0 <= at[i] < which.len()
                            && which[at[i]] == i,
                    forall|k: int, l: int|
                        #![trigger which[k], which[l]]
                        0 <= k < l < which.len() ==> which[k] != which[l] && self@.reads_before(
                            out@[k],
                            out@[l],
                        ),
                decreases self.along() - edge,
            {
                let ghost i = item_idx.0 as int;
                proof {
                    self.use_item(i);
                    self.use_shelf(cur);
                    if self.items@[i].next.0 != NO_INDEX {
                        self.use_item(self.items@[i].next.0 as int);
                    }
                }
                let item = &self.items[item_idx.index()];
                let (x0, y0) = convert_coordinates(self.flip_xy, item.x, shelf.y);
                let (x1, y1) = convert_coordinates(
                    self.flip_xy,
                    item.x + item.width,
                    shelf.y + shelf.height,
                );
                let region = Region {
                    rectangle: Rectangle {
                        min: Point { x: x0 as i32, y: y0 as i32 },
                        max: Point { x: x1 as i32, y: y1 as i32 },
                    },
                    allocated: item.allocated,
                };
                out.push(region);
                proof {
                    let ghost pos = which.len() as int;
                    let ghost old_which = which;
                    let ghost old_at = at;
                    let ghost new_edge = item.x + item.width;
                    which = which.push(i);
                    at = at.insert(i, pos);
                    assert(self@.shows(i, region));
                    assert forall|k: int| 0 <= k < which.len() implies self.live_items@.contains(
                        #[trigger] which[k],
                    ) && self@.shows(which[k], out@[k]) && (self.cell(which[k]).y < front || (
                    self.items@[which[k]].shelf.0 == cur && self.cell(which[k]).x < new_edge)) by {
                        if k < pos {
                            assert(which[k] == old_which[k]);
                        }
                    }
                    assert forall|j: int|
                        self.live_items@.contains(j) && (self.cell(j).y < front || (
                        self.items@[j].shelf.0 == cur && self.cell(j).x < new_edge)) implies #[trigger] at.contains_key(
                        j,
                    ) && 0 <= at[j] < which.len() && which[at[j]] == j by {
                        if j != i {
                            self.use_item(j);
                            assert(self.item_live(i) && self.item_live(j));
                            if self.cell(j).y >= front {
                                assert(self.items@[j].shelf == self.items@[i].shelf);
                                assert(self.cell(j).x < edge);
                            }
                            assert(old_at.contains_key(j));
                            assert(0 <= old_at[j] < old_which.len());
                            assert(which[old_at[j]] == old_which[old_at[j]]);
                        } else {
                            assert(at[i] == pos);
                            assert(which[pos] == i);
                        }
                    }
                    assert forall|k: int, l: int|
                        #![trigger which[k], which[l]]
                        0 <= k < l < which.len() implies which[k] != which[l] && self@.reads_before(
                        out@[k],
                        out@[l],
                    ) by {
                        if l < pos {
                            assert(which[k] == old_which[k] && which[l] == old_which[l]);
                        } else {
                            assert(which[k] == old_which[k]);
                            self.use_item(old_which[k]);
                            self.use_shelf(self.items@[old_which[k]].shelf.0 as int);
                            assert(self@.shows(which[k], out@[k]));
                            assert(self@.shows(i, out@[l]));
                        }
                    }
                    edge = new_edge;
                }
                item_idx = item.next;
            }
            proof {
                let ghost new_front = shelf.y + shelf.height;
                if shelf.next.0 != NO_INDEX {
                    self.use_shelf(shelf.next.0 as int);
                }
                assert forall|k: int| 0 <= k < which.len() implies self.cell(#[trigger] which[k]).y
                    < new_front by {
                    self.use_item(which[k]);
                }
                assert forall|j: int|
                    self.live_items@.contains(j) && self.cell(j).y < new_front implies #[trigger] at.contains_key(
                    j,
                ) && 0 <= at[j] < which.len() && which[at[j]] == j by {
                    self.use_item(j);
                    let t = self.items@[j].shelf.0 as int;
                    self.use_shelf(t);
                    assert(self.shelf_live(t) && self.shelf_live(cur));
                }
                front = new_front;
            }
            shelf_idx = shelf.next;
        }
        proof {
            let ghost view = self@;
            let ghost list = out@;
            assert forall|i: int| #[trigger] view.cells.contains_key(i) implies view.shown_in(
                i,
                list,
            ) by {
                self.use_item(i);
                self.use_shelf(self.items@[i].shelf.0 as int);
                assert(at.contains_key(i));
                assert(view.shows(which[at[i]], list[at[i]]));
            }
            assert forall|k: int| 0 <= k < list.len() implies view.shows_a_cell(
                #[trigger] list[k],
            ) by {
                assert(view.shows(which[k], list[k]));
            }
            assert forall|k: int, l: int|
                #![trigger list[k], list[l]]
                0 <= k < l < list.len() implies list[k] != list[l] && view.reads_before(
                list[k],
                list[l],
            ) by {
                let a = which[k];
                let b = which[l];
                self.lemma_cells_tile(a, b);
                assert(view.shows(a, list[k]));
                assert(view.shows(b, list[l]));
            }
            assert(view.drawn_by(list));
        }
        out
    }

}

} // verus!
