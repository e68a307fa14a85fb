//! A shelf-packing allocator that groups rectangles into bins.
//!
//! Shelves are stacked in columns, and each shelf is cut into bins of one
//! width. Rectangles fill a bin from its start; a bin counts the
//! rectangles it holds and is emptied as a whole when the last one is
//! given back. Shelves are removed from the top once every bin of the top
//! shelf is empty, and their bins are recycled.

use vstd::prelude::*;
use crate::alloc_id::{AllocId, Allocation, AllocatorOptions};
use crate::geometry::{Point, Rectangle, Region, Size};
use crate::sizing::{
    adjust_size, aligned_up, bucket_height, convert_coordinates, lemma_aligned_up,
    lemma_aligned_up_bound, lemma_bucket_height, lemma_divisor_of_eight,
    lemma_multiple_of_multiple, lemma_multiples, lemma_rounded_down, lemma_shares_fit,
    shelf_height,
};

verus! {

/// A bin hands out at most this many rectangles before it is recycled.
pub const MAX_ITEMS_PER_BIN: u16 = 4095;

/// The bin array never grows beyond this length.
pub const MAX_BIN_COUNT: usize = 4095;

/// The shelf array never grows beyond this length.
pub const MAX_SHELF_COUNT: usize = 65535;

/// Bins are addressed by 16-bit indices; this one means "none".
pub const NO_BIN: u16 = 0xFFFF;

#[derive(Copy, Clone, Debug, PartialEq, Eq, Structural)]
pub struct BinIndex(pub u16);

impl BinIndex {
    pub fn to_usize(self) -> (r: usize)
        ensures
            r == self.0,
    {
        self.0 as usize
    }
}

#[derive(Copy, Clone)]
struct Shelf {
    x: u16,
    y: u16,
    height: u16,
    bin_width: u16,
    first_bin: BinIndex,
}

#[derive(Copy, Clone)]
struct Bin {
    x: u16,
    free_space: u16,
    next: BinIndex,
    /// Bins are cleared when their reference count goes back to zero.
    refcount: u16,
    /// Similar to refcount except that the counter is not decremented
    /// when an item is deallocated. It keeps the handles of one bin apart.
    item_count: u16,
    shelf: u16,
    generation: u8,
}

/// A bin, as the contracts see it.
pub struct BinView {
    /// Index of the bin: the primary index of the handles it mints.
    pub index: int,
    pub x: int,
    /// Width that is not handed out yet, at the end of the bin.
    pub free_space: int,
    /// Number of rectangles in the bin that are placed.
    pub refcount: int,
    /// Number of rectangles handed out since the bin was made.
    pub item_count: int,
    pub generation: int,
}

/// A shelf, as the contracts see it, in shelf coordinates.
pub struct ShelfView {
    pub x: int,
    pub y: int,
    pub height: int,
    pub bin_width: int,
    /// The bins from the start of the shelf on. A search looks at them
    /// from the last to the first.
    pub bins: Seq<BinView>,
}

/// What a [`BucketedAtlasAllocator`] stands for.
pub struct BucketedView {
    /// The surface, as given at construction.
    pub size: Size,
    pub alignment: Size,
    pub vertical: bool,
    pub num_columns: int,
    pub column_width: int,
    pub current_column: int,
    /// Height that is left above the shelves of the current column.
    pub available_height: int,
    /// The shelves in the order in which they were added.
    pub shelves: Seq<ShelfView>,
    /// Bins of removed shelves, in the order in which they will be taken
    /// again.
    pub recycled: Seq<BinView>,
    /// Number of bin indices ever taken.
    pub slots: int,
    /// The rectangles handed out and not yet given back.
    pub placements: Map<AllocId, Rectangle>,
}

impl ShelfView {
    /// Bin `r` has `w` left and has handles left to mint.
    pub open spec fn admits(self, r: int, w: int) -> bool {
        self.bins[r].free_space >= w && self.bins[r].item_count < MAX_ITEMS_PER_BIN
    }

    /// The last bin before `upto` that admits `w`, or -1.
    pub open spec fn candidate(self, w: int, upto: int) -> int
        decreases upto,
    {
        if upto <= 0 {
            -1
        } else if self.admits(upto - 1, w) {
            upto - 1
        } else {
            self.candidate(w, upto - 1)
        }
    }

    /// The last bin before `upto` that admits `w` and has exactly `w`
    /// left, or -1.
    pub open spec fn exact(self, w: int, upto: int) -> int
        decreases upto,
    {
        if upto <= 0 {
            -1
        } else if self.admits(upto - 1, w) && self.bins[upto - 1].free_space == w {
            upto - 1
        } else {
            self.exact(w, upto - 1)
        }
    }

    /// No bin of the shelf holds anything.
    pub open spec fn vacant(self) -> bool {
        forall|r: int| 0 <= r < self.bins.len() ==> (#[trigger] self.bins[r]).refcount == 0
    }
}

impl BucketedView {
    /// Extent of the surface along the shelves.
    pub open spec fn along(self) -> int {
        if self.vertical {
            self.size.height as int
        } else {
            self.size.width as int
        }
    }

    /// Extent of the surface across the shelves.
    pub open spec fn across(self) -> int {
        if self.vertical {
            self.size.width as int
        } else {
            self.size.height as int
        }
    }

    /// Alignment of the columns: that of positions along the shelves.
    pub open spec fn align_along(self) -> int {
        if self.vertical {
            self.alignment.height as int
        } else {
            self.alignment.width as int
        }
    }

    /// The width of a column of a surface `along` wide: an equal share,
    /// rounded down to the alignment.
    pub open spec fn column_share(along: int, num_columns: int, alignment: int) -> int {
        along / num_columns - (along / num_columns) % alignment
    }

    /// The handle that bin `r` of shelf `s` mints next.
    pub open spec fn handle(self, s: int, r: int) -> AllocId {
        let bin = self.shelves[s].bins[r];
        AllocId::pack(bin.index, bin.item_count + 1, bin.generation)
    }

    /// The box that is handed out when `w` is taken from bin `r` of shelf
    /// `s`: as high as the shelf, at the start of what is left of the bin.
    pub open spec fn slot_rectangle(self, s: int, r: int, w: int) -> Rectangle {
        let shelf = self.shelves[s];
        let bin = shelf.bins[r];
        let x = bin.x + shelf.bin_width - bin.free_space;
        let laid = Rectangle {
            min: Point { x: x as i32, y: shelf.y as i32 },
            max: Point { x: (x + w) as i32, y: (shelf.y + shelf.height) as i32 },
        };
        if self.vertical {
            laid.transposed()
        } else {
            laid
        }
    }

    /// The state after `w` was taken from bin `r` of shelf `s`.
    pub open spec fn filled(self, s: int, r: int, w: int) -> BucketedView {
        let shelf = self.shelves[s];
        let bin = shelf.bins[r];
        let taken = BinView {
            free_space: bin.free_space - w,
            refcount: bin.refcount + 1,
            item_count: bin.item_count + 1,
            ..bin
        };
        BucketedView {
            shelves: self.shelves.update(s, ShelfView { bins: shelf.bins.update(r, taken), ..shelf }),
            placements: self.placements.insert(self.handle(s, r), self.slot_rectangle(s, r, w)),
            ..self
        }
    }

    /// Bin `r` of shelf `s` is the bin that `id` names.
    pub open spec fn seats(self, s: int, r: int, id: AllocId) -> bool {
        &&& 0 <= s < self.shelves.len()
        &&& 0 <= r < self.shelves[s].bins.len()
        &&& self.shelves[s].bins[r].index == id.primary()
    }

    /// Bin `r` of shelf `s` is the bin that `id` names, in the generation
    /// of `id`, and it holds something.
    pub open spec fn holds_in(self, s: int, r: int, id: AllocId) -> bool {
        &&& self.seats(s, r, id)
        &&& self.shelves[s].bins[r].generation == id.generation()
        &&& self.shelves[s].bins[r].refcount > 0
    }

    /// A bin of a shelf is the bin that `id` names, in the generation of
    /// `id`, and it holds something.
    pub open spec fn may_hold(self, id: AllocId) -> bool {
        exists|s: int, r: int| #[trigger] self.holds_in(s, r, id)
    }

    /// The state after the rectangle `id` was taken out of bin `r` of
    /// shelf `s`. A bin that holds nothing any more is free from its start
    /// again.
    pub open spec fn vacated(self, s: int, r: int, id: AllocId) -> BucketedView {
        let shelf = self.shelves[s];
        let bin = shelf.bins[r];
        let given = BinView {
            free_space: if bin.refcount == 1 {
                shelf.bin_width
            } else {
                bin.free_space
            },
            refcount: bin.refcount - 1,
            ..bin
        };
        BucketedView {
            shelves: self.shelves.update(s, ShelfView { bins: shelf.bins.update(r, given), ..shelf }),
            placements: self.placements.remove(id),
            ..self
        }
    }

    /// The bin that a search for `w` by `h` settles on, from shelf `k` on,
    /// when `best` is the bin found so far and `waste` the height that it
    /// wastes.
    ///
    /// A shelf is passed over if it is lower than `h`, if its bins are
    /// narrower than `w`, if it wastes more height than the best, or if it
    /// wastes more than `h` while a shelf can still be added. On a shelf
    /// that wastes less than the best, the last bin that admits `w` is the
    /// new best. A bin that wastes nothing in either direction ends the
    /// search.
    pub open spec fn search_from(
        self,
        w: int,
        h: int,
        can_add: bool,
        k: int,
        best: Option<(int, int)>,
        waste: int,
    ) -> Option<(int, int)>
        decreases self.shelves.len() - k,
    {
        if k < 0 || k >= self.shelves.len() {
            best
        } else {
            let shelf = self.shelves[k];
            let y_waste = shelf.height - h;
            let c = shelf.candidate(w, shelf.bins.len() as int);
            let e = shelf.exact(w, shelf.bins.len() as int);
            if shelf.height < h || shelf.bin_width < w || y_waste > waste || (can_add && y_waste
                > h) {
                self.search_from(w, h, can_add, k + 1, best, waste)
            } else if y_waste < waste {
                if c < 0 {
                    self.search_from(w, h, can_add, k + 1, best, waste)
                } else if y_waste == 0 && shelf.bins[c].free_space == w {
                    Some((k, c))
                } else {
                    self.search_from(w, h, can_add, k + 1, Some((k, c)), y_waste)
                }
            } else if y_waste == 0 && e >= 0 {
                Some((k, e))
            } else {
                self.search_from(w, h, can_add, k + 1, best, waste)
            }
        }
    }

    /// The bin that a search for `w` by `h` settles on, as shelf and
    /// place in the shelf.
    pub open spec fn search(self, w: int, h: int, can_add: bool) -> Option<(int, int)> {
        self.search_from(w, h, can_add, 0, None, 65535)
    }

    /// Bin `r` of shelf `s` can take `w` by `h`.
    pub open spec fn takes(self, s: int, r: int, w: int, h: int) -> bool {
        &&& 0 <= s < self.shelves.len()
        &&& 0 <= r < self.shelves[s].bins.len()
        &&& self.shelves[s].height >= h
        &&& self.shelves[s].bin_width >= w
        &&& self.shelves[s].admits(r, w)
    }

    /// The number of bins that a new shelf for `w` by `h` is cut into:
    /// the fewer, the larger the item is in the column; and no more than
    /// there are bin indices that were never taken.
    pub open spec fn bin_count(column_width: int, w: int, h: int, slots: int) -> int {
        let larger = if w > h {
            w
        } else {
            h
        };
        let ratio = column_width / larger;
        let count: int = if ratio <= 4 {
            1
        } else if ratio <= 15 {
            2
        } else if ratio <= 64 {
            4
        } else if ratio <= 256 {
            8
        } else {
            16
        };
        if count <= MAX_BIN_COUNT - slots {
            count
        } else {
            MAX_BIN_COUNT - slots
        }
    }

    /// The generation after `generation`: one more, modulo 256.
    pub open spec fn next_generation(generation: int) -> int {
        if generation == 255 {
            0
        } else {
            generation + 1
        }
    }

    /// The `r`-th bin of a new shelf: it takes the `r`-th recycled index,
    /// in its next generation, or else an index that was never taken.
    pub open spec fn fresh_bin(self, r: int, x: int, bin_width: int) -> BinView {
        BinView {
            index: if r < self.recycled.len() {
                self.recycled[r].index
            } else {
                self.slots + (r - self.recycled.len())
            },
            x,
            free_space: bin_width,
            refcount: 0,
            item_count: 0,
            generation: if r < self.recycled.len() {
                Self::next_generation(self.recycled[r].generation)
            } else {
                0
            },
        }
    }

    /// A further column is there to go on to.
    pub open spec fn can_add_column(self) -> bool {
        self.current_column + 1 < self.num_columns
    }

    /// The shelf for `w` by `h` starts a new column.
    pub open spec fn advances(self) -> bool {
        self.available_height == 0 && self.can_add_column()
    }

    /// The height of a new shelf for an item `h` high: its bucket, or what
    /// is left of the column.
    pub open spec fn new_height(self, h: int) -> int {
        let available = if self.advances() {
            self.across()
        } else {
            self.available_height
        };
        if bucket_height(h) <= available {
            bucket_height(h)
        } else {
            available
        }
    }

    /// The number of bins of a new shelf for `w` by `h`.
    pub open spec fn new_count(self, w: int, h: int) -> int {
        Self::bin_count(self.column_width, w, self.new_height(h), self.slots)
    }

    /// The width of the bins of a new shelf for `w` by `h`: an equal share
    /// of the column, rounded down to the alignment.
    pub open spec fn new_bin_width(self, w: int, h: int) -> int {
        let share = self.column_width / self.new_count(w, h);
        share - share % (self.alignment.width as int)
    }

    /// The state after one shelf for `w` by `h` was added, with `count` of
    /// its bins.
    pub open spec fn pushed_with(self, w: int, h: int, count: int) -> BucketedView {
        let column = if self.advances() {
            self.current_column + 1
        } else {
            self.current_column
        };
        let available = if self.advances() {
            self.across()
        } else {
            self.available_height
        };
        let height = self.new_height(h);
        let bin_width = self.new_bin_width(w, h);
        let x = column * self.column_width;
        let taken = if count <= self.recycled.len() {
            count
        } else {
            self.recycled.len() as int
        };
        BucketedView {
            shelves: self.shelves.push(
                ShelfView {
                    x,
                    y: self.across() - available,
                    height,
                    bin_width,
                    bins: Seq::new(
                        count as nat,
                        |r: int| self.fresh_bin(r, x + r * bin_width, bin_width),
                    ),
                },
            ),
            recycled: self.recycled.skip(taken),
            slots: self.slots + (count - taken),
            current_column: column,
            available_height: available - height,
            ..self
        }
    }

    /// The state after one shelf for `w` by `h` was added, in the next
    /// column if the current one is full.
    pub open spec fn pushed(self, w: int, h: int) -> BucketedView {
        self.pushed_with(w, h, self.new_count(w, h))
    }

    /// What is left of the current column is too low for `h`, and there is
    /// a column to go on to: a shelf that fills the rest comes first.
    pub open spec fn needs_filler(self, h: int) -> bool {
        self.available_height != 0 && self.available_height < h && self.can_add_column()
    }

    /// The state after a shelf for `w` by `h` was added, behind a shelf
    /// that fills the rest of the current column where that is too low.
    pub open spec fn with_shelf(self, w: int, h: int) -> BucketedView {
        if self.needs_filler(h) {
            self.pushed(0, self.available_height).pushed(w, h)
        } else {
            self.pushed(w, h)
        }
    }

    /// One shelf for `w` by `h` can be added right away: the column, or
    /// the next one, has height left, and there is a shelf index and a bin
    /// index left.
    pub open spec fn can_push(self) -> bool {
        &&& self.available_height >= 1 || self.can_add_column()
        &&& self.shelves.len() < MAX_SHELF_COUNT
        &&& self.slots < MAX_BIN_COUNT
    }

    /// A shelf that holds `w` by `h` can be added: there is height for it
    /// in the current column or there is a further column, the shelf and
    /// bin arrays have room, also behind the shelf that fills the rest of
    /// the column if one is needed, and the bins of the shelf will be at
    /// least `w` wide.
    pub open spec fn can_add_shelf(self, w: int, h: int) -> bool {
        let ready = if self.needs_filler(h) {
            self.pushed(0, self.available_height)
        } else {
            self
        };
        &&& self.available_height >= h || self.can_add_column()
        &&& self.shelves.len() < MAX_SHELF_COUNT
        &&& self.slots < MAX_BIN_COUNT
        &&& ready.shelves.len() < MAX_SHELF_COUNT
        &&& ready.slots < MAX_BIN_COUNT
        &&& ready.new_bin_width(w, h) >= w
    }

    /// The state after the last shelf got one more bin, at `x`.
    spec fn with_bin(self, x: int) -> BucketedView {
        let s = self.shelves.len() - 1;
        let shelf = self.shelves[s];
        BucketedView {
            shelves: self.shelves.update(
                s,
                ShelfView { bins: shelf.bins.push(self.fresh_bin(0, x, shelf.bin_width)), ..shelf },
            ),
            recycled: if self.recycled.len() > 0 {
                self.recycled.skip(1)
            } else {
                self.recycled
            },
            slots: if self.recycled.len() > 0 {
                self.slots
            } else {
                self.slots + 1
            },
            ..self
        }
    }

    /// Shelf `i` can start a merge for a width of `w`: its bins are wide
    /// enough, hold nothing, and the bin that would be used has handles
    /// left to mint.
    pub open spec fn starts(self, i: int, w: int) -> bool {
        &&& self.shelves[i].bin_width >= w
        &&& self.shelves[i].vacant()
        &&& self.shelves[i].bins.len() > 0
        &&& self.shelves[i].bins.last().item_count < MAX_ITEMS_PER_BIN
    }

    /// Shelf `j` can join a merge that shelf `i` starts: it stands in the
    /// same column and holds nothing.
    pub open spec fn joins(self, i: int, j: int) -> bool {
        self.shelves[j].x == self.shelves[i].x && self.shelves[j].vacant()
    }

    /// The first run of two or three shelves, from shelf `k` on, that can
    /// be merged into one at least `h` high, as its first shelf and its
    /// length. The search ends where a run would pass the last shelf.
    pub open spec fn coalesce_from(self, w: int, h: int, k: int) -> Option<(int, int)>
        decreases self.shelves.len() - k,
    {
        let n = self.shelves.len();
        if k < 0 || k >= n {
            None
        } else if !self.starts(k, w) {
            self.coalesce_from(w, h, k + 1)
        } else if k + 1 >= n {
            None
        } else if !self.joins(k, k + 1) {
            self.coalesce_from(w, h, k + 1)
        } else if self.shelves[k].height + self.shelves[k + 1].height >= h {
            Some((k, 2))
        } else if k + 2 >= n {
            None
        } else if !self.joins(k, k + 2) {
            self.coalesce_from(w, h, k + 1)
        } else if self.shelves[k].height + self.shelves[k + 1].height + self.shelves[k
            + 2].height >= h {
            Some((k, 3))
        } else {
            self.coalesce_from(w, h, k + 1)
        }
    }

    /// The shelves that are merged for `w` by `h` start with one that was
    /// merged away before: it has no height, and it lies within the shelf
    /// that took it in.
    pub open spec fn merges_squashed(self, w: int, h: int) -> bool {
        self.coalesce_from(w, h, 0) matches Some(span) && self.shelves[span.0].height == 0
    }

    /// The state after `count` shelves, two or three, were merged into
    /// shelf `i`: it has the height of them all, and the others have none.
    pub open spec fn merged(self, i: int, count: int) -> BucketedView {
        let total = self.shelves[i].height + self.shelves[i + 1].height + if count == 3 {
            self.shelves[i + 2].height
        } else {
            0
        };
        BucketedView {
            shelves: Seq::new(
                self.shelves.len(),
                |s: int|
                    if s == i {
                        ShelfView { height: total, ..self.shelves[s] }
                    } else if i < s < i + count {
                        ShelfView { height: 0, ..self.shelves[s] }
                    } else {
                        self.shelves[s]
                    },
            ),
            ..self
        }
    }

    /// The request in shelf coordinates, aligned; `None` where it is
    /// empty, where its aligned width exceeds a column or its aligned
    /// height the surface, or where it does so once turned to lie along
    /// the shelves.
    pub open spec fn normalized(self, requested: Size) -> Option<(int, int)> {
        let aw = aligned_up(requested.width as int, self.alignment.width as int);
        let ah = aligned_up(requested.height as int, self.alignment.height as int);
        let w = if self.vertical {
            ah
        } else {
            aw
        };
        let h = if self.vertical {
            aw
        } else {
            ah
        };
        if requested.empty() || aw > self.column_width || ah > self.across() || w
            > self.column_width || h > self.across() {
            None
        } else {
            Some((w, h))
        }
    }

    /// Where `w` by `h` goes: the state in which it is placed, the shelf
    /// and the bin. It goes to the bin that the search settles on; else to
    /// the last bin of a new shelf, if one can be added; else to the last
    /// bin of the first of the shelves that can be merged for it.
    pub open spec fn prepared(self, w: int, h: int) -> Option<(BucketedView, int, int)> {
        let can_add = self.can_add_shelf(w, h);
        let found = self.search(w, h, can_add);
        let span = self.coalesce_from(w, h, 0);
        if found is Some {
            Some((self, found->Some_0.0, found->Some_0.1))
        } else if can_add {
            let v = self.with_shelf(w, h);
            Some((v, v.shelves.len() - 1, v.shelves.last().bins.len() - 1))
        } else if span is Some {
            Some(
                (
                    self.merged(span->Some_0.0, span->Some_0.1),
                    span->Some_0.0,
                    self.shelves[span->Some_0.0].bins.len() - 1,
                ),
            )
        } else {
            None
        }
    }

    /// The box of `w` by `h` at (`x`, `y`) in shelf coordinates, on the
    /// surface.
    pub open spec fn boxed(self, x: int, y: int, w: int, h: int) -> Rectangle {
        let laid = Rectangle {
            min: Point { x: x as i32, y: y as i32 },
            max: Point { x: (x + w) as i32, y: (y + h) as i32 },
        };
        if self.vertical {
            laid.transposed()
        } else {
            laid
        }
    }

    /// What is shown of bin `r` of shelf `s`: the part that was handed
    /// out, and then the part that is left if there is any.
    pub open spec fn bin_regions(self, s: int, r: int) -> Seq<Region> {
        let shelf = self.shelves[s];
        let bin = shelf.bins[r];
        let used = shelf.bin_width - bin.free_space;
        let taken = Region {
            rectangle: self.boxed(bin.x, shelf.y, used, shelf.height),
            allocated: true,
        };
        let rest = Region {
            rectangle: self.boxed(bin.x + used, shelf.y, bin.free_space, shelf.height),
            allocated: false,
        };
        if bin.free_space > 0 {
            seq![taken, rest]
        } else {
            seq![taken]
        }
    }

    /// What is shown of the bins of shelf `s` before `upto`, the last of
    /// them first.
    pub open spec fn shelf_regions(self, s: int, upto: int) -> Seq<Region>
        decreases upto,
    {
        if upto <= 0 {
            Seq::empty()
        } else {
            self.bin_regions(s, upto - 1) + self.shelf_regions(s, upto - 1)
        }
    }

    /// What is shown of the shelves from `s` on.
    pub open spec fn regions_from(self, s: int) -> Seq<Region>
        decreases self.shelves.len() - s,
    {
        if s < 0 || s >= self.shelves.len() {
            Seq::empty()
        } else {
            self.shelf_regions(s, self.shelves[s].bins.len() as int) + self.regions_from(s + 1)
        }
    }

    /// What is shown of the allocator: shelf by shelf, and bin by bin from
    /// the last bin of the shelf to the first, the stretch that was handed
    /// out and the stretch that is left.
    pub open spec fn regions(self) -> Seq<Region> {
        self.regions_from(0)
    }

    /// The state after the last shelf was removed. Its bins are the next
    /// to be taken again, the last of them first. The height of the shelf
    /// is available again; where the shelf was the first of its column,
    /// the column before it, which is full, is the current one again.
    pub open spec fn popped(self) -> BucketedView {
        let last = self.shelves.last();
        let count = last.bins.len();
        let steps_back = last.y == 0 && self.current_column > 0;
        BucketedView {
            shelves: self.shelves.drop_last(),
            recycled: Seq::new(count, |k: int| last.bins[count - 1 - k]) + self.recycled,
            current_column: if steps_back {
                self.current_column - 1
            } else {
                self.current_column
            },
            available_height: if steps_back {
                0
            } else {
                self.available_height + last.height
            },
            ..self
        }
    }

    /// The state after the shelves were collected: the last shelf is
    /// removed as long as none of its bins holds anything.
    pub open spec fn collected(self) -> BucketedView
        decreases self.shelves.len(),
    {
        if self.shelves.len() > 0 && self.shelves.last().vacant() {
            self.popped().collected()
        } else {
            self
        }
    }

    /// The state after the rectangle `id` was given back to bin `r` of
    /// shelf `s`: it is taken out of the bin, and where that empties a bin
    /// of the last shelf, the shelves are collected.
    pub open spec fn released(self, s: int, r: int, id: AllocId) -> BucketedView {
        let v = self.vacated(s, r, id);
        if self.shelves[s].bins[r].refcount == 1 && s == self.shelves.len() - 1 {
            v.collected()
        } else {
            v
        }
    }

    /// The state right after construction: no shelf, no bin.
    pub open spec fn fresh(size: Size, options: AllocatorOptions) -> BucketedView {
        let v = BucketedView {
            size,
            alignment: options.alignment,
            vertical: options.vertical_shelves,
            num_columns: options.num_columns as int,
            column_width: 0,
            current_column: 0,
            available_height: 0,
            shelves: Seq::empty(),
            recycled: Seq::empty(),
            slots: 0,
            placements: Map::empty(),
        };
        BucketedView {
            column_width: Self::column_share(v.along(), v.num_columns, v.align_along()),
            available_height: v.across(),
            ..v
        }
    }
}

/// A Shelf-packing dynamic texture atlas allocator.
///
/// Items are accumulated into bins which are laid out in rows (shelves) of
/// variable height. When allocating we first look for a suitable bin. If
/// none is found, a new shelf of the desired height is pushed.
///
/// Lifetime isn't tracked at item granularity. Instead, items are grouped
/// into bins and deallocation happens per bin when all items of the bins
/// are removed. When the top-most shelf is empty, it is removed,
/// potentially cascading into garbage-collecting the next shelf, etc.
///
/// This allocator works well when there are a lot of small items with
/// similar sizes (typically, glyph atlases).
#[derive(Clone)]
pub struct BucketedAtlasAllocator {
    shelves: Vec<Shelf>,
    bins: Vec<Bin>,
    available_height: u16,
    width: u16,
    height: u16,
    first_unallocated_bin: BinIndex,
    flip_xy: bool,
    alignment: Size,
    current_column: u16,
    column_width: u16,
    num_columns: u16,
    /// For each shelf, the indices of its bins from the start of the
    /// shelf on: the reverse of the chain that starts at `first_bin`.
    rows: Ghost<Seq<Seq<int>>>,
    /// For each shelf, the column it stands in.
    cols: Ghost<Seq<int>>,
    /// For each shelf, how far its column is filled up to and with it.
    tops: Ghost<Seq<int>>,
    /// For each bin, its place in the row of its shelf, or -1.
    rank: Ghost<Seq<int>>,
    /// The chain of bins of removed shelves, from `first_unallocated_bin`.
    spare: Ghost<Seq<int>>,
    /// For each bin, the handles of the rectangles it holds.
    tenants: Ghost<Seq<Set<AllocId>>>,
    /// The rectangles handed out and not yet given back.
    placed: Ghost<Map<AllocId, Rectangle>>,
}

impl View for BucketedAtlasAllocator {
    type V = BucketedView;

    closed spec fn view(&self) -> BucketedView {
        BucketedView {
            size: self.surface(),
            alignment: self.alignment,
            vertical: self.flip_xy,
            num_columns: self.num_columns as int,
            column_width: self.column_width as int,
            current_column: self.current_column as int,
            available_height: self.available_height as int,
            shelves: Seq::new(self.shelves@.len(), |s: int| self.shelf_view(s)),
            recycled: Seq::new(self.spare@.len(), |k: int| self.bin_view(self.spare@[k])),
            slots: self.bins@.len() as int,
            placements: self.placed@,
        }
    }
}

impl BucketedAtlasAllocator {
    /// Sizes and options that an allocator can be made with.
    pub open spec fn valid_setup(size: Size, options: AllocatorOptions) -> bool {
        &&& 1 <= size.width < 65535
        &&& 1 <= size.height < 65535
        &&& 1 <= options.alignment.width <= 65535
        &&& 1 <= options.alignment.height <= 65535
        &&& 1 <= options.num_columns <= 65535
    }

    spec fn surface(&self) -> Size {
        if self.flip_xy {
            Size { width: self.height as i32, height: self.width as i32 }
        } else {
            Size { width: self.width as i32, height: self.height as i32 }
        }
    }

    spec fn align_along(&self) -> int {
        if self.flip_xy {
            self.alignment.height as int
        } else {
            self.alignment.width as int
        }
    }

    /// The unit that positions along a shelf are multiples of: the
    /// alignment along the shelves where the bins are cut to it.
    spec fn pitch(&self) -> int {
        if self.flip_xy && self.alignment.width != self.alignment.height {
            1
        } else {
            self.align_along()
        }
    }

    spec fn bin_view(&self, b: int) -> BinView {
        BinView {
            index: b,
            x: self.bins@[b].x as int,
            free_space: self.bins@[b].free_space as int,
            refcount: self.bins@[b].refcount as int,
            item_count: self.bins@[b].item_count as int,
            generation: self.bins@[b].generation as int,
        }
    }

    spec fn shelf_view(&self, s: int) -> ShelfView {
        ShelfView {
            x: self.shelves@[s].x as int,
            y: self.shelves@[s].y as int,
            height: self.shelves@[s].height as int,
            bin_width: self.shelves@[s].bin_width as int,
            bins: Seq::new(self.rows@[s].len(), |r: int| self.bin_view(self.rows@[s][r])),
        }
    }

    /// Shelf `s` is the first of its column.
    spec fn leads(&self, s: int) -> bool {
        s == 0 || self.cols@[s - 1] != self.cols@[s]
    }

    /// How far the column of shelf `s` is filled below it.
    spec fn base(&self, s: int) -> int {
        if self.leads(s) {
            0
        } else {
            self.tops@[s - 1]
        }
    }

    /// What holds of shelf `s`. The shelf `open` may still be without
    /// bins.
    spec fn shelf_ok(&self, s: int, open: int) -> bool {
        let sh = self.shelves@[s];
        let row = self.rows@[s];
        &&& 0 <= s < self.shelves@.len()
        &&& s != open ==> row.len() >= 1
        &&& row.len() <= 16
        &&& sh.first_bin.0 == (if row.len() >= 1 {
            row[row.len() - 1]
        } else {
            NO_BIN as int
        })
        &&& 0 <= self.cols@[s] < self.num_columns
        &&& sh.x == self.cols@[s] * self.column_width
        &&& sh.x + self.column_width <= self.width
        &&& sh.x as int % self.pitch() == 0
        &&& sh.bin_width as int % self.pitch() == 0
        &&& sh.bin_width <= self.column_width
        &&& self.base(s) <= self.tops@[s] <= self.height
        &&& 1 <= self.tops@[s]
        &&& self.tops@[s] % 8 == 0 || self.tops@[s] == self.height
        &&& sh.height == self.tops@[s] - self.base(s)
        &&& sh.y <= self.base(s)
        &&& sh.y == 0 <==> self.leads(s)
        &&& sh.y <= self.height
        &&& sh.y as int % 8 == 0
        &&& s > 0 ==> self.cols@[s - 1] == self.cols@[s] || (self.cols@[s] == self.cols@[s - 1]
            + 1 && self.tops@[s - 1] == self.height)
        &&& s == 0 ==> self.cols@[s] == 0
        &&& forall|r: int|
            0 <= r < row.len() ==> {
                &&& 0 <= #[trigger] row[r] < self.bins@.len()
                &&& self.rank@[row[r]] == r
                &&& self.bins@[row[r]].shelf == s
            }
    }

    /// What holds of bin `b`.
    spec fn bin_ok(&self, b: int) -> bool {
        let bin = self.bins@[b];
        let s = bin.shelf as int;
        let r = self.rank@[b];
        &&& 0 <= b < self.bins@.len()
        &&& self.tenants@[b].finite()
        &&& self.tenants@[b].len() == bin.refcount
        &&& bin.refcount <= bin.item_count <= MAX_ITEMS_PER_BIN
        &&& forall|id: AllocId| #[trigger] self.tenants@[b].contains(id) ==> id.primary() == b
        &&& if r >= 0 {
            &&& s < self.shelves@.len()
            &&& r < self.rows@[s].len()
            &&& self.rows@[s][r] == b
            &&& bin.x == self.shelves@[s].x + r * self.shelves@[s].bin_width
            &&& bin.x + self.shelves@[s].bin_width <= self.shelves@[s].x + self.column_width
            &&& bin.free_space <= self.shelves@[s].bin_width
            &&& bin.refcount == 0 ==> bin.free_space == self.shelves@[s].bin_width
            &&& bin.x as int % self.pitch() == 0
            &&& bin.free_space as int % self.pitch() == 0
            &&& bin.next.0 == (if r > 0 {
                self.rows@[s][r - 1]
            } else {
                NO_BIN as int
            })
        } else {
            r == -1 && bin.refcount == 0
        }
    }

    spec fn spare_ok(&self) -> bool {
        let list = self.spare@;
        &&& self.first_unallocated_bin.0 == (if list.len() > 0 {
            list[0]
        } else {
            NO_BIN as int
        })
        &&& forall|k: int|
            0 <= k < list.len() ==> {
                &&& 0 <= #[trigger] list[k] < self.bins@.len()
                &&& self.rank@[list[k]] == -1
                &&& k + 1 == list.len() ==> self.bins@[list[k]].next.0 == NO_BIN
            }
        &&& forall|k: int, l: int|
            #![trigger list[k], list[l]]
            0 <= k && l == k + 1 && l < list.len() ==> self.bins@[list[k]].next.0 == list[l]
        &&& forall|k: int, l: int|
            #![trigger list[k], list[l]]
            0 <= k < l < list.len() ==> list[k] != list[l]
    }

    /// The rectangle of `id` in shelf coordinates.
    spec fn laid(&self, id: AllocId) -> Rectangle {
        if self.flip_xy {
            self.placed@[id].transposed()
        } else {
            self.placed@[id]
        }
    }

    /// What holds of the placed rectangle `id`.
    spec fn tenant_ok(&self, id: AllocId) -> bool {
        let b = id.primary();
        let bin = self.bins@[b];
        let sh = self.shelves@[bin.shelf as int];
        let r = self.laid(id);
        &&& self.rank@[b] >= 0
        &&& id.generation() == bin.generation
        &&& 1 <= id.counter() <= bin.item_count
        &&& bin.x <= r.min.x < r.max.x <= bin.x + sh.bin_width - bin.free_space
        &&& r.min.y == sh.y
        &&& r.min.y < r.max.y <= sh.y + sh.height
    }

    spec fn placed_ok(&self) -> bool {
        &&& forall|id: AllocId| #[trigger]
            self.placed@.contains_key(id) <==> 0 <= id.primary() < self.bins@.len()
                && self.tenants@[id.primary()].contains(id)
        &&& forall|id: AllocId| #[trigger] self.placed@.contains_key(id) ==> self.tenant_ok(id)
        &&& forall|a: AllocId, b: AllocId|
            #![trigger self.placed@.contains_key(a), self.placed@.contains_key(b)]
            self.placed@.contains_key(a) && self.placed@.contains_key(b) && a != b && a.primary()
                == b.primary() ==> self.laid(a).max.x <= self.laid(b).min.x || self.laid(b).max.x
                <= self.laid(a).min.x
    }

    /// The setup, the lengths, and the book-keeping of the columns.
    spec fn frame_ok(&self) -> bool {
        let n = self.shelves@.len() as int;
        &&& 1 <= self.width < 65535
        &&& 1 <= self.height < 65535
        &&& 1 <= self.alignment.width <= 65535
        &&& 1 <= self.alignment.height <= 65535
        &&& 1 <= self.num_columns
        &&& self.column_width == BucketedView::column_share(
            self.width as int,
            self.num_columns as int,
            self.align_along(),
        )
        &&& self.column_width * self.num_columns <= self.width
        &&& self.column_width as int % self.align_along() == 0
        &&& self.column_width as int % self.pitch() == 0
        &&& self.current_column < self.num_columns
        &&& n <= MAX_SHELF_COUNT
        &&& self.bins@.len() <= MAX_BIN_COUNT
        &&& self.rows@.len() == n
        &&& self.cols@.len() == n
        &&& self.tops@.len() == n
        &&& self.rank@.len() == self.bins@.len()
        &&& self.tenants@.len() == self.bins@.len()
        &&& self.available_height == self.height - (if n > 0 {
            self.tops@[n - 1]
        } else {
            0
        })
        &&& self.current_column == (if n > 0 {
            self.cols@[n - 1]
        } else {
            0
        })
    }

    /// The invariant; the shelf `open` may still be without bins.
    spec fn inv(&self, open: int) -> bool {
        &&& self.frame_ok()
        &&& forall|s: int| 0 <= s < self.shelves@.len() ==> #[trigger] self.shelf_ok(s, open)
        &&& forall|b: int| 0 <= b < self.bins@.len() ==> #[trigger] self.bin_ok(b)
        &&& self.spare_ok()
        &&& self.placed_ok()
    }

    /// Bin `b` is a bin of the last shelf and holds something.
    spec fn tops_off(&self, b: int) -> bool {
        &&& 0 <= b < self.bins@.len()
        &&& self.rank@[b] >= 0
        &&& self.bins@[b].shelf == self.shelves@.len() - 1
        &&& self.bins@[b].refcount > 0
    }

    /// The last shelf, if there is one, holds something.
    spec fn settled(&self) -> bool {
        self.shelves@.len() > 0 ==> exists|b: int| #[trigger] self.tops_off(b)
    }

    /// Every shelf that has a height starts where the shelves below it in
    /// its column end. This holds until shelves are merged into one that
    /// had been merged away itself.
    pub closed spec fn tiled(&self) -> bool {
        forall|s: int|
            0 <= s < self.shelves@.len() && (#[trigger] self.shelves@[s]).height > 0
                ==> self.shelves@[s].y == self.base(s)
    }

    /// The internal consistency of the allocator: the shelves of a column
    /// lie one above the other within the surface, the bins of a shelf
    /// lie side by side within its column, each bin counts the rectangles
    /// it holds, and these lie side by side in the used part of their bin.
    pub closed spec fn wf(&self) -> bool {
        self.inv(-1) && self.settled()
    }

    /// Create an atlas allocator with provided options.
    pub fn with_options(size: Size, options: &AllocatorOptions) -> (atlas: Self)
        requires
            Self::valid_setup(size, *options),
        ensures
            atlas.wf(),
            atlas.tiled(),
            atlas@ == BucketedView::fresh(size, *options),
    {
        let (width, height, shelf_alignment) = if options.vertical_shelves {
            (size.height as u16, size.width as u16, options.alignment.height as u16)
        } else {
            (size.width as u16, size.height as u16, options.alignment.width as u16)
        };
        let share: u16 = width / (options.num_columns as u16);
        proof {
            if share < shelf_alignment {
                vstd::arithmetic::div_mod::lemma_small_mod(share as nat, shelf_alignment as nat);
            }
        }
        let column_width: u16 = share - share % shelf_alignment;
        proof {
            let nc = options.num_columns as int;
            let a = shelf_alignment as int;
            vstd::arithmetic::div_mod::lemma_fundamental_div_mod(width as int, nc);
            vstd::arithmetic::div_mod::lemma_fundamental_div_mod(share as int, a);
            vstd::arithmetic::div_mod::lemma_mod_multiples_basic(share as int / a, a);
            vstd::arithmetic::mul::lemma_mul_is_commutative(a, share as int / a);
            assert(column_width as int % a == 0);
            vstd::arithmetic::mul::lemma_mul_inequality(column_width as int, share as int, nc);
            vstd::arithmetic::mul::lemma_mul_is_commutative(share as int, nc);
            assert(column_width * nc <= width);
        }
        let atlas = BucketedAtlasAllocator {
            shelves: Vec::new(),
            bins: Vec::new(),
            available_height: height,
            width,
            height,
            first_unallocated_bin: BinIndex(NO_BIN),
            flip_xy: options.vertical_shelves,
            alignment: options.alignment,
            current_column: 0,
            num_columns: options.num_columns as u16,
            column_width,
            rows: Ghost(Seq::empty()),
            cols: Ghost(Seq::empty()),
            tops: Ghost(Seq::empty()),
            rank: Ghost(Seq::empty()),
            spare: Ghost(Seq::empty()),
            tenants: Ghost(Seq::empty()),
            placed: Ghost(Map::empty()),
        };
        proof {
            assert(atlas@.shelves =~= Seq::empty());
            assert(atlas@.recycled =~= Seq::empty());
        }
        atlas
    }

    /// Create an atlas allocator with default options.
    pub fn new(size: Size) -> (atlas: Self)
        requires
            Self::valid_setup(size, AllocatorOptions::standard()),
        ensures
            atlas.wf(),
            atlas.tiled(),
            atlas@ == BucketedView::fresh(size, AllocatorOptions::standard()),
    {
        Self::with_options(size, &AllocatorOptions::default())
    }

    /// Forget every placement and go back to the state right after
    /// construction.
    pub fn clear(&mut self)
        requires
            old(self).wf(),
        ensures
            final(self).wf(),
            final(self).tiled(),
            final(self)@ == BucketedView::fresh(
                old(self)@.size,
                AllocatorOptions {
                    alignment: old(self)@.alignment,
                    vertical_shelves: old(self)@.vertical,
                    num_columns: old(self)@.num_columns as i32,
                },
            ),
    {
        self.shelves.clear();
        self.bins.clear();
        self.first_unallocated_bin = BinIndex(NO_BIN);
        self.available_height = self.height;
        self.current_column = 0;
        proof {
            self.rows = Ghost(Seq::empty());
            self.cols = Ghost(Seq::empty());
            self.tops = Ghost(Seq::empty());
            self.rank = Ghost(Seq::empty());
            self.spare = Ghost(Seq::empty());
            self.tenants = Ghost(Seq::empty());
            self.placed = Ghost(Map::empty());
            assert(self@.shelves =~= Seq::empty());
            assert(self@.recycled =~= Seq::empty());
        }
    }

    pub fn size(&self) -> (size: Size)
        ensures
            size == self@.size,
    {
        let (w, h) = convert_coordinates(self.flip_xy, self.width, self.height);
        Size { width: w as i32, height: h as i32 }
    }

    /// True when no rectangle is placed.
    pub fn is_empty(&self) -> (r: bool)
        requires
            self.wf(),
        ensures
            r <==> self@.placements =~= Map::empty(),
            r <==> self@.shelves.len() == 0,
    {
        proof {
            if self.shelves@.len() == 0 {
                assert forall|id: AllocId| !self.placed@.contains_key(id) by {
                    if self.placed@.contains_key(id) {
                        assert(self.tenant_ok(id));
                        assert(self.bin_ok(id.primary()));
                    }
                }
                assert(self.placed@ =~= Map::empty());
            } else {
                let b = choose|b: int| #[trigger] self.tops_off(b);
                assert(self.bin_ok(b));
                assert(self.tenants@[b].len() > 0);
                let id = self.tenants@[b].choose();
                assert(self.tenants@[b].contains(id));
                assert(self.placed@.contains_key(id));
            }
        }
        self.shelves.is_empty()
    }

    /// What the invariant says of shelf `s`.
    proof fn see_shelf(&self, s: int, open: int)
        requires
            self.inv(open),
            0 <= s < self.shelves@.len(),
        ensures
            self.shelf_ok(s, open),
    {
    }

    /// What the invariant says of bin `b`, and of its shelf if it has one.
    proof fn see_bin(&self, b: int, open: int)
        requires
            self.inv(open),
            0 <= b < self.bins@.len(),
        ensures
            self.bin_ok(b),
            self.rank@[b] >= 0 ==> self.shelf_ok(self.bins@[b].shelf as int, open),
    {
        assert(self.bin_ok(b));
        if self.rank@[b] >= 0 {
            assert(self.shelf_ok(self.bins@[b].shelf as int, open));
        }
    }

    /// What the invariant says of the placed rectangle `id`.
    proof fn see_tenant(&self, id: AllocId, open: int)
        requires
            self.inv(open),
            self.placed@.contains_key(id),
        ensures
            self.tenant_ok(id),
            0 <= id.primary() < self.bins@.len(),
            self.tenants@[id.primary()].contains(id),
            self.bin_ok(id.primary()),
            self.shelf_ok(self.bins@[id.primary()].shelf as int, open),
    {
        assert(self.tenant_ok(id));
        self.see_bin(id.primary(), open);
    }

    /// `new` is this allocator with bin `b`, the tenants of `b` and the
    /// placements replaced.
    spec fn rebinned(&self, new: &Self, b: int, bin: Bin, tenants: Set<AllocId>, placed: Map<
        AllocId,
        Rectangle,
    >) -> bool {
        &&& new.bins@ == self.bins@.update(b, bin)
        &&& new.tenants@ == self.tenants@.update(b, tenants)
        &&& new.placed@ == placed
        &&& new.shelves@ == self.shelves@
        &&& new.available_height == self.available_height
        &&& new.width == self.width
        &&& new.height == self.height
        &&& new.first_unallocated_bin == self.first_unallocated_bin
        &&& new.flip_xy == self.flip_xy
        &&& new.alignment == self.alignment
        &&& new.current_column == self.current_column
        &&& new.column_width == self.column_width
        &&& new.num_columns == self.num_columns
        &&& new.rows@ == self.rows@
        &&& new.cols@ == self.cols@
        &&& new.tops@ == self.tops@
        &&& new.rank@ == self.rank@
        &&& new.spare@ == self.spare@
    }

    /// The parts of the invariant that a change to one bin's counters
    /// leaves alone.
    proof fn lemma_rebinned(&self, new: &Self, b: int, bin: Bin, tenants: Set<AllocId>, placed: Map<
        AllocId,
        Rectangle,
    >)
        requires
            self.inv(-1),
            0 <= b < self.bins@.len(),
            self.rebinned(new, b, bin, tenants, placed),
            bin.shelf == self.bins@[b].shelf,
            bin.next == self.bins@[b].next,
            bin.x == self.bins@[b].x,
            new.bin_ok(b),
            self.rank@[b] >= 0,
        ensures
            new.frame_ok(),
            forall|s: int| 0 <= s < new.shelves@.len() ==> #[trigger] new.shelf_ok(s, -1),
            forall|c: int| 0 <= c < new.bins@.len() ==> #[trigger] new.bin_ok(c),
            new.spare_ok(),
            new@.shelves =~= self@.shelves.update(
                self.bins@[b].shelf as int,
                ShelfView {
                    bins: self@.shelves[self.bins@[b].shelf as int].bins.update(
                        self.rank@[b],
                        new.bin_view(b),
                    ),
                    ..self@.shelves[self.bins@[b].shelf as int]
                },
            ),
            new@.recycled =~= self@.recycled,
    {
        assert forall|s: int| 0 <= s < new.shelves@.len() implies #[trigger] new.shelf_ok(
            s,
            -1,
        ) by {
            self.see_shelf(s, -1);
        }
        assert forall|c: int| 0 <= c < new.bins@.len() implies #[trigger] new.bin_ok(c) by {
            if c != b {
                self.see_bin(c, -1);
            }
        }
        let list = self.spare@;
        assert forall|k: int| 0 <= k < list.len() implies new.bins@[#[trigger] list[k]].next
            == self.bins@[list[k]].next by {}
        self.see_bin(b, -1);
        assert forall|k: int| 0 <= k < list.len() implies new.bin_view(#[trigger] list[k])
            == self.bin_view(list[k]) by {}
        {
            let s0 = self.bins@[b].shelf as int;
            let r0 = self.rank@[b];
            let target = self@.shelves.update(
                s0,
                ShelfView { bins: self@.shelves[s0].bins.update(r0, new.bin_view(b)), ..self@.shelves[s0] },
            );
            assert forall|s: int| 0 <= s < new.shelves@.len() implies new@.shelves[s]
                == target[s] by {
                self.see_shelf(s, -1);
                let row = self.rows@[s];
                assert forall|r: int| 0 <= r < row.len() implies new.shelf_view(s).bins[r] == (
                if s == s0 && r == r0 {
                    new.bin_view(b)
                } else {
                    self.shelf_view(s).bins[r]
                }) by {
                    assert(self.rank@[row[r]] == r);
                }
                if s == s0 {
                    assert(new.shelf_view(s).bins =~= self.shelf_view(s).bins.update(
                        r0,
                        new.bin_view(b),
                    ));
                } else {
                    assert(new.shelf_view(s).bins =~= self.shelf_view(s).bins);
                }
            }
            assert(new@.shelves =~= target);
        }
    }

    /// The bin that `alloc_from_bin` leaves in place of `bin`.
    spec fn bin_taken(bin: Bin, w: u16) -> Bin {
        Bin {
            free_space: (bin.free_space - w) as u16,
            refcount: (bin.refcount + 1) as u16,
            item_count: (bin.item_count + 1) as u16,
            ..bin
        }
    }

    /// What `alloc_from_bin` asks for.
    spec fn can_fill(&self, b: int, w: u16) -> bool {
        &&& self.inv(-1)
        &&& 0 <= b < self.bins@.len()
        &&& self.rank@[b] >= 0
        &&& 1 <= w <= self.bins@[b].free_space
        &&& self.bins@[b].item_count < MAX_ITEMS_PER_BIN
        &&& self.shelves@[self.bins@[b].shelf as int].height >= 1
        &&& w as int % self.pitch() == 0
    }

    proof fn lemma_fill(&self, new: &Self, b: int, w: u16, id: AllocId, rect: Rectangle)
        requires
            self.can_fill(b, w),
            self.rebinned(
                new,
                b,
                Self::bin_taken(self.bins@[b], w),
                self.tenants@[b].insert(id),
                self.placed@.insert(id, rect),
            ),
            id == self@.handle(self.bins@[b].shelf as int, self.rank@[b]),
            rect == self@.slot_rectangle(self.bins@[b].shelf as int, self.rank@[b], w as int),
            id.primary() == b,
            id.counter() == self.bins@[b].item_count + 1,
            id.generation() == self.bins@[b].generation,
        ensures
            new.inv(-1),
            new@ == self@.filled(self.bins@[b].shelf as int, self.rank@[b], w as int),
            !self.placed@.contains_key(id),
            rect.within(Rectangle::surface(self@.size)),
            new.laid(id).min.x as int % self.pitch() == 0,
            new.laid(id).min.y as int % 8 == 0,
            new.laid(id).max.x - new.laid(id).min.x == w,
            new.laid(id).max.y - new.laid(id).min.y == self.shelves@[self.bins@[b].shelf as int].height,
    {
        let s0 = self.bins@[b].shelf as int;
        let r0 = self.rank@[b];
        self.see_bin(b, -1);
        self.see_shelf(s0, -1);
        let bin = self.bins@[b];
        let sh = self.shelves@[s0];
        assert(!self.tenants@[b].contains(id)) by {
            if self.tenants@[b].contains(id) {
                assert(self.placed@.contains_key(id));
                self.see_tenant(id, -1);
            }
        }
        lemma_multiples(bin.free_space as int, w as int, self.pitch());
        lemma_multiples(sh.bin_width as int, bin.free_space as int, self.pitch());
        lemma_multiples(bin.x as int, sh.bin_width - bin.free_space, self.pitch());
        assert(new.bin_ok(b)) by {
            assert forall|other: AllocId| #[trigger]
                new.tenants@[b].contains(other) implies other.primary() == b by {
                if other != id {
                    assert(self.tenants@[b].contains(other));
                }
            }
        }
        self.lemma_rebinned(
            new,
            b,
            Self::bin_taken(bin, w),
            self.tenants@[b].insert(id),
            self.placed@.insert(id, rect),
        );
        assert(self@.shelves[s0].bins[r0] == self.bin_view(b));
        assert(new.placed_ok()) by {
            assert forall|other: AllocId| #[trigger]
                new.placed@.contains_key(other) <==> 0 <= other.primary() < new.bins@.len()
                    && new.tenants@[other.primary()].contains(other) by {
                if other != id {
                    assert(self.placed@.contains_key(other) <==> 0 <= other.primary()
                        < self.bins@.len() && self.tenants@[other.primary()].contains(other));
                }
            }
            assert forall|other: AllocId| #[trigger]
                new.placed@.contains_key(other) implies new.tenant_ok(other) by {
                if other != id {
                    self.see_tenant(other, -1);
                }
            }
            assert forall|x: AllocId, y: AllocId|
                #![trigger new.placed@.contains_key(x), new.placed@.contains_key(y)]
                new.placed@.contains_key(x) && new.placed@.contains_key(y) && x != y && x.primary()
                    == y.primary() implies new.laid(x).max.x <= new.laid(y).min.x || new.laid(
                y,
            ).max.x <= new.laid(x).min.x by {
                if x != id {
                    self.see_tenant(x, -1);
                }
                if y != id {
                    self.see_tenant(y, -1);
                }
                if x != id && y != id {
                    assert(self.placed@.contains_key(x) && self.placed@.contains_key(y));
                }
            }
        }
    }

    /// Hands out `width` from the start of what is left of the bin.
    fn alloc_from_bin(&mut self, shelf_index: usize, bin_index: BinIndex, width: u16) -> (a:
        Allocation)
        requires
            old(self).can_fill(bin_index.0 as int, width),
            old(self).bins@[bin_index.0 as int].shelf == shelf_index,
        ensures
            final(self).inv(-1),
            final(self)@ == old(self)@.filled(
                shelf_index as int,
                old(self).rank@[bin_index.0 as int],
                width as int,
            ),
            a.id == old(self)@.handle(shelf_index as int, old(self).rank@[bin_index.0 as int]),
            a.rectangle == old(self)@.slot_rectangle(
                shelf_index as int,
                old(self).rank@[bin_index.0 as int],
                width as int,
            ),
            !old(self)@.placements.contains_key(a.id),
            a.rectangle.within(Rectangle::surface(old(self)@.size)),
            final(self).laid(a.id).min.x as int % old(self).pitch() == 0,
            final(self).laid(a.id).min.y as int % 8 == 0,
            final(self).laid(a.id).max.x - final(self).laid(a.id).min.x == width,
            final(self).laid(a.id).max.y - final(self).laid(a.id).min.y == old(
                self,
            ).shelves@[shelf_index as int].height,
            final(self).placed@.contains_key(a.id),
            final(self).tiled() == old(self).tiled(),
            final(self).shelves@ == old(self).shelves@,
            final(self).rank@ == old(self).rank@,
            final(self).bins@.len() == old(self).bins@.len(),
            forall|c: int|
                0 <= c < old(self).bins@.len() ==> (#[trigger] final(self).bins@[c]).shelf == old(
                    self,
                ).bins@[c].shelf && final(self).bins@[c].refcount >= old(self).bins@[c].refcount,
            final(self).bins@[bin_index.0 as int].refcount > 0,
    {
        let ghost b = bin_index.0 as int;
        proof {
            self.see_bin(b, -1);
            self.see_shelf(shelf_index as int, -1);
        }
        let shelf = self.shelves[shelf_index];
        let bin = self.bins[bin_index.to_usize()];
        let min_x = bin.x + shelf.bin_width - bin.free_space;
        let min_y = shelf.y;
        let max_x = min_x + width;
        let max_y = min_y + shelf.height;
        let (min_x, min_y) = convert_coordinates(self.flip_xy, min_x, min_y);
        let (max_x, max_y) = convert_coordinates(self.flip_xy, max_x, max_y);
        self.bins[bin_index.to_usize()].free_space = bin.free_space - width;
        self.bins[bin_index.to_usize()].refcount = bin.refcount + 1;
        self.bins[bin_index.to_usize()].item_count = bin.item_count + 1;
        let id = AllocId::from_parts(bin_index.0, bin.item_count + 1, bin.generation);
        let rectangle = Rectangle {
            min: Point { x: min_x as i32, y: min_y as i32 },
            max: Point { x: max_x as i32, y: max_y as i32 },
        };
        proof {
            self.tenants = Ghost(self.tenants@.update(b, self.tenants@[b].insert(id)));
            self.placed = Ghost(self.placed@.insert(id, rectangle));
            assert(self.bins@ =~= old(self).bins@.update(b, Self::bin_taken(old(self).bins@[b], width)));
            assert(old(self)@.shelves[shelf_index as int].bins[old(self).rank@[b]] == old(
                self,
            ).bin_view(b));
            old(self).lemma_fill(&*self, b, width, id, rectangle);
        }
        Allocation { id, rectangle }
    }

    /// The bin that `deallocate_from_bin` leaves in place of `bin`.
    spec fn bin_given(bin: Bin, bin_width: u16) -> Bin {
        Bin {
            refcount: (bin.refcount - 1) as u16,
            free_space: if bin.refcount == 1 {
                bin_width
            } else {
                bin.free_space
            },
            ..bin
        }
    }

    proof fn lemma_vacate(&self, new: &Self, id: AllocId)
        requires
            self.inv(-1),
            self.placed@.contains_key(id),
            self.rebinned(
                new,
                id.primary(),
                Self::bin_given(
                    self.bins@[id.primary()],
                    self.shelves@[self.bins@[id.primary()].shelf as int].bin_width,
                ),
                self.tenants@[id.primary()].remove(id),
                self.placed@.remove(id),
            ),
        ensures
            new.inv(-1),
            self@.seats(self.bins@[id.primary()].shelf as int, self.rank@[id.primary()], id),
            new@ == self@.vacated(
                self.bins@[id.primary()].shelf as int,
                self.rank@[id.primary()],
                id,
            ),
    {
        let b = id.primary();
        self.see_tenant(id, -1);
        let s0 = self.bins@[b].shelf as int;
        let r0 = self.rank@[b];
        let bin = self.bins@[b];
        let sh = self.shelves@[s0];
        self.see_shelf(s0, -1);
        assert(new.bin_ok(b)) by {
            assert forall|other: AllocId| #[trigger]
                new.tenants@[b].contains(other) implies other.primary() == b by {
                assert(self.tenants@[b].contains(other));
            }
        }
        self.lemma_rebinned(
            new,
            b,
            Self::bin_given(bin, sh.bin_width),
            self.tenants@[b].remove(id),
            self.placed@.remove(id),
        );
        assert(self@.shelves[s0].bins[r0] == self.bin_view(b));
        assert(new.placed_ok()) by {
            assert forall|other: AllocId| #[trigger]
                new.placed@.contains_key(other) <==> 0 <= other.primary() < new.bins@.len()
                    && new.tenants@[other.primary()].contains(other) by {
                assert(self.placed@.contains_key(other) <==> 0 <= other.primary()
                    < self.bins@.len() && self.tenants@[other.primary()].contains(other));
            }
            assert forall|other: AllocId| #[trigger]
                new.placed@.contains_key(other) implies new.tenant_ok(other) by {
                self.see_tenant(other, -1);
                if other.primary() == b && bin.refcount == 1 {
                    new.tenants@[b].lemma_len0_is_empty();
                    assert(new.tenants@[b].contains(other));
                }
            }
            assert forall|x: AllocId, y: AllocId|
                #![trigger new.placed@.contains_key(x), new.placed@.contains_key(y)]
                new.placed@.contains_key(x) && new.placed@.contains_key(y) && x != y && x.primary()
                    == y.primary() implies new.laid(x).max.x <= new.laid(y).min.x || new.laid(
                y,
            ).max.x <= new.laid(x).min.x by {
                assert(self.placed@.contains_key(x) && self.placed@.contains_key(y));
            }
        }
    }

    /// Takes the rectangle `id` out of its bin. Returns true if the
    /// shelves should be garbage-collected as a result: the bin holds
    /// nothing any more and is on the top-most shelf.
    fn deallocate_from_bin(&mut self, id: AllocId) -> (collect: bool)
        requires
            old(self).inv(-1),
            old(self).placed@.contains_key(id),
        ensures
            final(self).inv(-1),
            old(self)@.seats(
                old(self).bins@[id.primary()].shelf as int,
                old(self).rank@[id.primary()],
                id,
            ),
            final(self)@ == old(self)@.vacated(
                old(self).bins@[id.primary()].shelf as int,
                old(self).rank@[id.primary()],
                id,
            ),
            old(self).settled() && !collect ==> final(self).settled(),
            final(self).tiled() == old(self).tiled(),
            collect == (old(self).bins@[id.primary()].refcount == 1 && old(
                self,
            ).bins@[id.primary()].shelf == old(self).shelves@.len() - 1),
    {
        let bin_index = id.primary_index();
        let ghost b = bin_index as int;
        proof {
            self.see_tenant(id, -1);
        }
        let bin = self.bins[bin_index];
        let shelf_index = bin.shelf as usize;
        let bin_width = self.shelves[shelf_index].bin_width;
        self.bins[bin_index].refcount = bin.refcount - 1;
        let bin_is_empty = bin.refcount == 1;
        if bin_is_empty {
            self.bins[bin_index].free_space = bin_width;
        }
        proof {
            self.tenants = Ghost(self.tenants@.update(b, self.tenants@[b].remove(id)));
            self.placed = Ghost(self.placed@.remove(id));
            assert(self.bins@ =~= old(self).bins@.update(
                b,
                Self::bin_given(old(self).bins@[b], bin_width),
            ));
            old(self).lemma_vacate(&*self, id);
            if old(self).settled() && !(bin_is_empty && shelf_index == self.shelves@.len() - 1) {
                let top = choose|c: int| #[trigger] old(self).tops_off(c);
                assert(self.tops_off(top));
            }
        }
        bin_is_empty && shelf_index == self.shelves.len() - 1
    }

    /// Walks the bins of shelf `idx`. Returns whether none of them holds
    /// anything, and then the last bin of the chain; else a bin that holds
    /// something.
    fn scan_shelf(&self, idx: usize) -> (r: (bool, BinIndex))
        requires
            self.inv(-1),
            idx < self.shelves@.len(),
        ensures
            r.0 == self@.shelves[idx as int].vacant(),
            r.0 ==> r.1.0 == self.rows@[idx as int][0],
            !r.0 ==> 0 <= r.1.0 < self.bins@.len() && self.rank@[r.1.0 as int] >= 0
                && self.bins@[r.1.0 as int].shelf == idx && self.bins@[r.1.0 as int].refcount > 0,
    {
        proof {
            self.see_shelf(idx as int, -1);
        }
        let ghost row = self.rows@[idx as int];
        let mut bin_index = self.shelves[idx].first_bin;
        let mut last_bin = bin_index;
        let ghost mut pos: int = row.len() - 1;
        while bin_index.0 != NO_BIN
            invariant
                self.inv(-1),
                idx < self.shelves@.len(),
                row == self.rows@[idx as int],
                -1 <= pos < row.len(),
                row.len() >= 1,
                bin_index.0 == (if pos >= 0 {
                    row[pos]
                } else {
                    NO_BIN as int
                }),
                last_bin.0 == (if pos + 1 < row.len() {
                    row[pos + 1]
                } else {
                    row[row.len() - 1]
                }),
                forall|r: int| pos < r < row.len() ==> self.bins@[#[trigger] row[r]].refcount == 0,
            decreases pos + 1,
        {
            proof {
                self.see_shelf(idx as int, -1);
                assert(0 <= row[pos] < self.bins@.len());
                self.see_bin(row[pos], -1);
            }
            let bin = &self.bins[bin_index.to_usize()];
            if bin.refcount != 0 {
                proof {
                    assert(self@.shelves[idx as int].bins[pos].refcount != 0);
                }
                return (false, bin_index);
            }
            last_bin = bin_index;
            bin_index = bin.next;
            proof {
                pos = pos - 1;
            }
        }
        proof {
            self.see_shelf(idx as int, -1);
            assert(row[0] < self.bins@.len());
            if pos >= 0 {
                assert(0 <= row[pos] < self.bins@.len());
            }
            assert forall|r: int| 0 <= r < row.len() implies (#[trigger] self@.shelves[idx as int].bins[r]).refcount
                == 0 by {
                assert(self.bins@[row[r]].refcount == 0);
            }
        }
        (true, last_bin)
    }

    /// Whether no bin of shelf `idx` holds anything.
    fn shelf_is_empty(&self, idx: usize) -> (r: bool)
        requires
            self.inv(-1),
            idx < self.shelves@.len(),
        ensures
            r == self@.shelves[idx as int].vacant(),
    {
        self.scan_shelf(idx).0
    }

    /// `new` is this allocator after `pop_shelf`.
    spec fn shelf_popped(&self, new: &Self) -> bool {
        let last = self.shelves@.len() - 1;
        let row = self.rows@[last];
        let sh = self.shelves@[last];
        let steps_back = sh.y == 0 && self.current_column > 0;
        &&& new.shelves@ == self.shelves@.drop_last()
        &&& new.bins@ == self.bins@.update(
            row[0],
            Bin { next: self.first_unallocated_bin, ..self.bins@[row[0]] },
        )
        &&& new.first_unallocated_bin == sh.first_bin
        &&& new.available_height == (if steps_back {
            0
        } else {
            self.available_height + sh.height
        })
        &&& new.current_column == (if steps_back {
            self.current_column - 1
        } else {
            self.current_column as int
        })
        &&& new.width == self.width
        &&& new.height == self.height
        &&& new.flip_xy == self.flip_xy
        &&& new.alignment == self.alignment
        &&& new.column_width == self.column_width
        &&& new.num_columns == self.num_columns
        &&& new.rows@ == self.rows@.drop_last()
        &&& new.cols@ == self.cols@.drop_last()
        &&& new.tops@ == self.tops@.drop_last()
        &&& new.rank@ == Seq::new(
            self.rank@.len(),
            |c: int|
                if self.rank@[c] >= 0 && self.bins@[c].shelf == last {
                    -1
                } else {
                    self.rank@[c]
                },
        )
        &&& new.spare@ == Seq::new(row.len(), |k: int| row[row.len() - 1 - k]) + self.spare@
        &&& new.tenants@ == self.tenants@
        &&& new.placed@ == self.placed@
    }

    proof fn lemma_pop(&self, new: &Self)
        requires
            self.inv(-1),
            self.shelves@.len() > 0,
            self@.shelves.last().vacant(),
            self.shelf_popped(new),
        ensures
            new.inv(-1),
            new@ == self@.popped(),
            self.tiled() ==> new.tiled(),
    {
        let n = self.shelves@.len() as int;
        let last = n - 1;
        let row = self.rows@[last];
        let sh = self.shelves@[last];
        let m = row.len() as int;
        self.see_shelf(last, -1);
        if n >= 2 {
            self.see_shelf(last - 1, -1);
        }
        self.see_shelf(0, -1);
        assert forall|r: int| 0 <= r < m implies self.bins@[#[trigger] row[r]].refcount == 0
            && self.bin_ok(row[r]) by {
            assert(self@.shelves[last].bins[r].refcount == 0);
            self.see_bin(row[r], -1);
        }
        assert(new.frame_ok());
        assert forall|s: int| 0 <= s < new.shelves@.len() implies #[trigger] new.shelf_ok(
            s,
            -1,
        ) by {
            self.see_shelf(s, -1);
            let rw = self.rows@[s];
            assert forall|r: int| 0 <= r < rw.len() implies {
                &&& 0 <= #[trigger] rw[r] < new.bins@.len()
                &&& new.rank@[rw[r]] == r
                &&& new.bins@[rw[r]].shelf == s
            } by {}
        }
        assert forall|c: int| 0 <= c < new.bins@.len() implies #[trigger] new.bin_ok(c) by {
            self.see_bin(c, -1);
            if self.rank@[c] >= 0 {
                let sc = self.bins@[c].shelf as int;
                self.see_shelf(sc, -1);
                if sc != last {
                    assert(self.rows@[sc][self.rank@[c]] == c);
                    if c == row[0] {
                        assert(self.rank@[row[0]] == 0);
                    }
                }
            }
        }
        let list = self.spare@;
        let nlist = new.spare@;
        assert forall|k: int| 0 <= k < nlist.len() implies {
            &&& 0 <= #[trigger] nlist[k] < new.bins@.len()
            &&& new.rank@[nlist[k]] == -1
            &&& k + 1 == nlist.len() ==> new.bins@[nlist[k]].next.0 == NO_BIN
        } by {
            if k < m {
                assert(nlist[k] == row[m - 1 - k]);
            } else {
                assert(nlist[k] == list[k - m]);
                assert(self.rank@[list[k - m]] == -1);
            }
        }
        assert forall|k: int, l: int|
            #![trigger nlist[k], nlist[l]]
            0 <= k && l == k + 1 && l < nlist.len() implies new.bins@[nlist[k]].next.0
            == nlist[l] by {
            if l < m {
                assert(nlist[k] == row[m - 1 - k]);
                assert(nlist[l] == row[m - 1 - l]);
            } else if k < m {
                assert(nlist[k] == row[0]);
                assert(nlist[l] == list[0]);
            } else {
                assert(nlist[k] == list[k - m]);
                assert(nlist[l] == list[l - m]);
                assert(self.rank@[list[k - m]] == -1);
            }
        }
        assert forall|k: int, l: int|
            #![trigger nlist[k], nlist[l]]
            0 <= k < l < nlist.len() implies nlist[k] != nlist[l] by {
            if k < m {
                assert(nlist[k] == row[m - 1 - k]);
            } else {
                assert(nlist[k] == list[k - m]);
            }
            if l < m {
                assert(nlist[l] == row[m - 1 - l]);
            } else {
                assert(nlist[l] == list[l - m]);
                assert(self.rank@[list[l - m]] == -1);
            }
        }
        assert(new.placed_ok()) by {
            assert forall|id: AllocId| #[trigger] new.placed@.contains_key(id) implies new.tenant_ok(
                id,
            ) by {
                self.see_tenant(id, -1);
                let c = id.primary();
                if self.bins@[c].shelf == last {
                    assert(self.rows@[last][self.rank@[c]] == c);
                    assert(self.bins@[row[self.rank@[c]]].refcount == 0);
                    self.tenants@[c].lemma_len0_is_empty();
                }
            }
            assert forall|x: AllocId, y: AllocId|
                #![trigger new.placed@.contains_key(x), new.placed@.contains_key(y)]
                new.placed@.contains_key(x) && new.placed@.contains_key(y) && x != y && x.primary()
                    == y.primary() implies new.laid(x).max.x <= new.laid(y).min.x || new.laid(
                y,
            ).max.x <= new.laid(x).min.x by {
                assert(self.placed@.contains_key(x) && self.placed@.contains_key(y));
            }
        }
        assert(new@.shelves =~= self@.popped().shelves) by {
            assert forall|s: int| 0 <= s < new.shelves@.len() implies new.shelf_view(s)
                == self.shelf_view(s) by {
                self.see_shelf(s, -1);
                let rw = self.rows@[s];
                assert forall|r: int| 0 <= r < rw.len() implies new.bin_view(#[trigger] rw[r])
                    == self.bin_view(rw[r]) by {}
                assert(new.shelf_view(s).bins =~= self.shelf_view(s).bins);
            }
        }
        assert(new@.recycled =~= self@.popped().recycled) by {
            assert forall|k: int| 0 <= k < nlist.len() implies new.bin_view(#[trigger] nlist[k])
                == self@.popped().recycled[k] by {
                if k < m {
                    assert(nlist[k] == row[m - 1 - k]);
                } else {
                    assert(nlist[k] == list[k - m]);
                }
            }
        }
    }

    /// Removes the last shelf, none of whose bins holds anything, and
    /// chains its bins before the released ones. `last_bin` ends the chain
    /// of the shelf.
    fn pop_shelf(&mut self, last_bin: BinIndex)
        requires
            old(self).inv(-1),
            old(self).shelves@.len() > 0,
            old(self)@.shelves.last().vacant(),
            last_bin.0 == old(self).rows@[old(self).shelves@.len() - 1][0],
        ensures
            final(self).inv(-1),
            final(self)@ == old(self)@.popped(),
            old(self).tiled() ==> final(self).tiled(),
            final(self).shelves@.len() == old(self).shelves@.len() - 1,
    {
        let ghost n = self.shelves@.len() as int;
        let ghost row = self.rows@[n - 1];
        proof {
            self.see_shelf(n - 1, -1);
            assert(0 <= row[0] < self.bins@.len());
            if n >= 2 {
                self.see_shelf(n - 2, -1);
            }
            self.see_shelf(0, -1);
        }
        let shelf = self.shelves[self.shelves.len() - 1];
        self.bins[last_bin.to_usize()].next = self.first_unallocated_bin;
        self.first_unallocated_bin = shelf.first_bin;
        if shelf.y == 0 && self.current_column > 0 {
            // The column before this one is full.
            self.current_column = self.current_column - 1;
            self.available_height = 0;
        } else {
            // Reclaim the height of the shelf.
            self.available_height = self.available_height + shelf.height;
        }
        self.shelves.pop();
        proof {
            let ghost before = *old(self);
            self.rank = Ghost(
                Seq::new(
                    before.rank@.len(),
                    |c: int|
                        if before.rank@[c] >= 0 && before.bins@[c].shelf == n - 1 {
                            -1
                        } else {
                            before.rank@[c]
                        },
                ),
            );
            self.spare = Ghost(Seq::new(row.len(), |k: int| row[row.len() - 1 - k]) + self.spare@);
            self.rows = Ghost(self.rows@.drop_last());
            self.cols = Ghost(self.cols@.drop_last());
            self.tops = Ghost(self.tops@.drop_last());
            assert(self.shelves@ =~= old(self).shelves@.drop_last());
            old(self).lemma_pop(&*self);
        }
    }

    /// Removes shelves from the top as long as the last one holds nothing.
    fn cleanup_shelves(&mut self)
        requires
            old(self).inv(-1),
        ensures
            final(self).wf(),
            final(self)@ == old(self)@.collected(),
            old(self).tiled() ==> final(self).tiled(),
    {
        while self.shelves.len() > 0
            invariant
                self.inv(-1),
                old(self).tiled() ==> self.tiled(),
                self@.collected() == old(self)@.collected(),
            decreases self.shelves@.len(),
        {
            let (empty, bin) = self.scan_shelf(self.shelves.len() - 1);
            if !empty {
                proof {
                    assert(self.tops_off(bin.0 as int));
                }
                return ;
            }
            // We didn't run into any bin on this shelf with live elements,
            // this means we can remove it.
            self.pop_shelf(bin);
        }
    }

    /// The shelf of the bin that `id` names.
    pub closed spec fn shelf_of(&self, id: AllocId) -> int {
        self.bins@[id.primary()].shelf as int
    }

    /// The place in its shelf of the bin that `id` names.
    pub closed spec fn rank_of(&self, id: AllocId) -> int {
        self.rank@[id.primary()]
    }

    /// Deallocate a rectangle in the atlas.
    ///
    /// Space is only reclaimed when all items of the same bin are
    /// deallocated.
    pub fn deallocate(&mut self, id: AllocId)
        requires
            old(self).wf(),
            old(self)@.placements.contains_key(id),
        ensures
            final(self).wf(),
            old(self)@.seats(old(self).shelf_of(id), old(self).rank_of(id), id),
            final(self)@ == old(self)@.released(old(self).shelf_of(id), old(self).rank_of(id), id),
            final(self)@.placements == old(self)@.placements.remove(id),
            old(self).tiled() ==> final(self).tiled(),
    {
        proof {
            self.see_tenant(id, -1);
            self.see_shelf(self.bins@[id.primary()].shelf as int, -1);
            assert(self@.shelves[self.shelf_of(id)].bins[self.rank_of(id)] == self.bin_view(
                id.primary(),
            ));
        }
        if self.deallocate_from_bin(id) {
            let ghost vacated = self@;
            self.cleanup_shelves();
            proof {
                Self::lemma_collected_keeps(vacated);
            }
        }
    }

    /// Collecting shelves leaves the placements alone.
    proof fn lemma_collected_keeps(v: BucketedView)
        ensures
            v.collected().placements == v.placements,
            v.collected().size == v.size,
            v.collected().alignment == v.alignment,
            v.collected().vertical == v.vertical,
            v.collected().num_columns == v.num_columns,
            v.collected().column_width == v.column_width,
            v.collected().slots == v.slots,
        decreases v.shelves.len(),
    {
        if v.shelves.len() > 0 && v.shelves.last().vacant() {
            Self::lemma_collected_keeps(v.popped());
        }
    }

    /// The last bin of shelf `idx` that admits `width`; with `exact`, the
    /// last that admits it and has exactly `width` left.
    fn find_in_shelf(&self, idx: usize, width: u16, exact: bool) -> (r: (BinIndex, Ghost<int>))
        requires
            self.inv(-1),
            idx < self.shelves@.len(),
        ensures
            r.1@ == (if exact {
                self@.shelves[idx as int].exact(width as int, self.rows@[idx as int].len() as int)
            } else {
                self@.shelves[idx as int].candidate(
                    width as int,
                    self.rows@[idx as int].len() as int,
                )
            }),
            -1 <= r.1@ < self.rows@[idx as int].len(),
            r.1@ < 0 ==> r.0.0 == NO_BIN,
            r.1@ >= 0 ==> r.0.0 == self.rows@[idx as int][r.1@] && r.0.0 != NO_BIN
                && self@.shelves[idx as int].admits(r.1@, width as int) && (exact
                ==> self.bins@[r.0.0 as int].free_space == width),
    {
        proof {
            self.see_shelf(idx as int, -1);
        }
        let ghost row = self.rows@[idx as int];
        let ghost view = self@.shelves[idx as int];
        let mut bin_index = self.shelves[idx].first_bin;
        let ghost mut pos: int = row.len() - 1;
        let ghost w = width as int;
        while bin_index.0 != NO_BIN
            invariant
                self.inv(-1),
                idx < self.shelves@.len(),
                row == self.rows@[idx as int],
                view == self@.shelves[idx as int],
                w == width,
                -1 <= pos < row.len(),
                row.len() >= 1,
                bin_index.0 == (if pos >= 0 {
                    row[pos]
                } else {
                    NO_BIN as int
                }),
                exact ==> view.exact(w, row.len() as int) == view.exact(w, pos + 1),
                !exact ==> view.candidate(w, row.len() as int) == view.candidate(w, pos + 1),
            decreases pos + 1,
        {
            proof {
                self.see_shelf(idx as int, -1);
                assert(0 <= row[pos] < self.bins@.len());
                self.see_bin(row[pos], -1);
                assert(view.bins[pos] == self.bin_view(row[pos]));
            }
            let bin = &self.bins[bin_index.to_usize()];
            if bin.free_space >= width && bin.item_count < MAX_ITEMS_PER_BIN && (!exact
                || bin.free_space == width) {
                return (bin_index, Ghost(pos));
            }
            bin_index = bin.next;
            proof {
                pos = pos - 1;
                if pos >= 0 {
                    assert(0 <= row[pos] < self.bins@.len());
                }
            }
        }
        proof {
            self.see_shelf(idx as int, -1);
            if pos >= 0 {
                assert(0 <= row[pos] < self.bins@.len());
            }
        }
        (bin_index, Ghost(-1))
    }

    /// Looks for a bin for `width` by `height` on the shelves that are
    /// there.
    fn find_bin(&self, width: u16, height: u16, can_add_shelf: bool) -> (r: (usize, BinIndex))
        requires
            self.inv(-1),
            1 <= height,
        ensures
            self@.search(width as int, height as int, can_add_shelf) is None <==> r.1.0 == NO_BIN,
            self@.search(width as int, height as int, can_add_shelf) matches Some(found) ==> {
                &&& self@.takes(found.0, found.1, width as int, height as int)
                &&& r.0 == found.0
                &&& r.1.0 == self.rows@[found.0][found.1]
            },
    {
        let mut selected_shelf: usize = 0;
        let mut selected_bin = BinIndex(NO_BIN);
        let mut best_waste: u16 = 0xFFFF;
        let ghost mut best: Option<(int, int)> = None;
        let ghost w = width as int;
        let ghost h = height as int;
        let mut shelf_index: usize = 0;
        while shelf_index < self.shelves.len()
            invariant
                self.inv(-1),
                w == width,
                h == height,
                1 <= h,
                shelf_index <= self.shelves@.len(),
                self@.search(w, h, can_add_shelf) == self@.search_from(
                    w,
                    h,
                    can_add_shelf,
                    shelf_index as int,
                    best,
                    best_waste as int,
                ),
                best is None <==> selected_bin.0 == NO_BIN,
                best matches Some(found) ==> {
                    &&& self@.takes(found.0, found.1, w, h)
                    &&& selected_shelf == found.0
                    &&& selected_bin.0 == self.rows@[found.0][found.1]
                    &&& selected_bin.0 != NO_BIN
                },
            decreases self.shelves@.len() - shelf_index,
        {
            proof {
                self.see_shelf(shelf_index as int, -1);
            }
            let shelf = &self.shelves[shelf_index];
            let ghost view = self@.shelves[shelf_index as int];
            if shelf.height < height || shelf.bin_width < width {
                shelf_index += 1;
                continue ;
            }
            let y_waste = shelf.height - height;
            if y_waste > best_waste || (can_add_shelf && y_waste > height) {
                shelf_index += 1;
                continue ;
            }
            if y_waste < best_waste {
                let (bin, Ghost(pos)) = self.find_in_shelf(shelf_index, width, false);
                if bin.0 != NO_BIN {
                    proof {
                        assert(0 <= self.rows@[shelf_index as int][pos] < self.bins@.len());
                        assert(view.bins[pos] == self.bin_view(self.rows@[shelf_index as int][pos]));
                    }
                    let exact_fit = y_waste == 0 && self.bins[bin.to_usize()].free_space == width;
                    selected_shelf = shelf_index;
                    selected_bin = bin;
                    proof {
                        best = Some((shelf_index as int, pos));
                    }
                    if exact_fit {
                        return (selected_shelf, selected_bin);
                    }
                    best_waste = y_waste;
                }
            } else {
                if y_waste == 0 {
                    let (bin, Ghost(pos)) = self.find_in_shelf(shelf_index, width, true);
                    if bin.0 != NO_BIN {
                        return (shelf_index, bin);
                    }
                }
            }
            shelf_index += 1;
        }
        (selected_shelf, selected_bin)
    }

    /// The view of bin `r` of shelf `s` is that of the bin at that place
    /// in the row.
    proof fn lemma_seat(&self, s: int, r: int, open: int)
        requires
            self.inv(open),
            0 <= s < self.shelves@.len(),
            0 <= r < self.rows@[s].len(),
        ensures
            0 <= self.rows@[s][r] < self.bins@.len(),
            self.rank@[self.rows@[s][r]] == r,
            self.bins@[self.rows@[s][r]].shelf == s,
            self@.shelves[s].bins[r] == self.bin_view(self.rows@[s][r]),
            self@.shelves[s].bins.len() == self.rows@[s].len(),
            self@.shelves[s] == self.shelf_view(s),
            self.bin_ok(self.rows@[s][r]),
            self.shelf_ok(s, open),
    {
        self.see_shelf(s, open);
        assert(0 <= self.rows@[s][r] < self.bins@.len());
        self.see_bin(self.rows@[s][r], open);
    }

    /// A shelf that has a bin need not be waived any more.
    proof fn lemma_close(&self, s: int)
        requires
            self.inv(s),
            0 <= s < self.shelves@.len() ==> self.rows@[s].len() >= 1,
        ensures
            self.inv(-1),
    {
        assert forall|t: int| 0 <= t < self.shelves@.len() implies #[trigger] self.shelf_ok(
            t,
            -1,
        ) by {
            self.see_shelf(t, s);
        }
    }

    /// The number of bins that a new shelf for `width` by `height` is cut
    /// into.
    fn num_bins(&self, width: u16, height: u16) -> (count: u16)
        requires
            self.frame_ok(),
            width >= 1 || height >= 1,
        ensures
            count == BucketedView::bin_count(
                self.column_width as int,
                width as int,
                height as int,
                self.bins@.len() as int,
            ),
            count <= 16,
    {
        let larger = if width > height {
            width
        } else {
            height
        };
        let ratio = self.column_width / larger;
        let count: u16 = if ratio <= 4 {
            1
        } else if ratio <= 15 {
            2
        } else if ratio <= 64 {
            4
        } else if ratio <= 256 {
            8
        } else {
            16
        };
        let left = (MAX_BIN_COUNT - self.bins.len()) as u16;
        if count <= left {
            count
        } else {
            left
        }
    }

    /// The generation after `generation`: one more, modulo 256.
    fn bump(generation: u8) -> (next: u8)
        ensures
            next == BucketedView::next_generation(generation as int),
    {
        if generation == 255 {
            0
        } else {
            generation + 1
        }
    }

    /// `new` is this allocator after `add_bin`.
    spec fn bin_added(&self, new: &Self, x: u16, idx: int) -> bool {
        let s = self.shelves@.len() - 1;
        let r = self.rows@[s].len() as int;
        let reuse = self.spare@.len() > 0;
        let bin = Bin {
            x,
            free_space: self.shelves@[s].bin_width,
            next: self.shelves@[s].first_bin,
            refcount: 0,
            item_count: 0,
            shelf: s as u16,
            generation: if reuse {
                BucketedView::next_generation(self.bins@[idx].generation as int) as u8
            } else {
                0
            },
        };
        &&& idx == (if reuse {
            self.spare@[0]
        } else {
            self.bins@.len() as int
        })
        &&& new.bins@ == (if reuse {
            self.bins@.update(idx, bin)
        } else {
            self.bins@.push(bin)
        })
        &&& new.rank@ == (if reuse {
            self.rank@.update(idx, r)
        } else {
            self.rank@.push(r)
        })
        &&& new.tenants@ == (if reuse {
            self.tenants@
        } else {
            self.tenants@.push(Set::empty())
        })
        &&& new.spare@ == (if reuse {
            self.spare@.skip(1)
        } else {
            self.spare@
        })
        &&& new.first_unallocated_bin.0 == (if reuse {
            self.bins@[idx].next.0
        } else {
            NO_BIN
        })
        &&& new.shelves@ == self.shelves@.update(
            s,
            Shelf { first_bin: BinIndex(idx as u16), ..self.shelves@[s] },
        )
        &&& new.rows@ == self.rows@.update(s, self.rows@[s].push(idx))
        &&& new.available_height == self.available_height
        &&& new.width == self.width
        &&& new.height == self.height
        &&& new.flip_xy == self.flip_xy
        &&& new.alignment == self.alignment
        &&& new.current_column == self.current_column
        &&& new.column_width == self.column_width
        &&& new.num_columns == self.num_columns
        &&& new.cols@ == self.cols@
        &&& new.tops@ == self.tops@
        &&& new.placed@ == self.placed@
    }

    /// What `add_bin` asks for.
    spec fn can_add_bin(&self, x: u16) -> bool {
        let s = self.shelves@.len() - 1;
        let r = self.rows@[s].len() as int;
        &&& self.shelves@.len() >= 1
        &&& self.inv(s)
        &&& r < 16
        &&& x == self.shelves@[s].x + r * self.shelves@[s].bin_width
        &&& x + self.shelves@[s].bin_width <= self.shelves@[s].x + self.column_width
        &&& x as int % self.pitch() == 0
        &&& self.spare@.len() > 0 || self.bins@.len() < MAX_BIN_COUNT
    }

    proof fn lemma_add_bin(&self, new: &Self, x: u16, idx: int)
        requires
            self.can_add_bin(x),
            self.bin_added(new, x, idx),
        ensures
            new.inv(self.shelves@.len() - 1),
            new@ == self@.with_bin(x as int),
            new.tiled() == self.tiled(),
    {
        let s = self.shelves@.len() - 1;
        let r = self.rows@[s].len() as int;
        let reuse = self.spare@.len() > 0;
        let list = self.spare@;
        if self.tiled() {
            assert forall|t: int|
                0 <= t < new.shelves@.len() && (#[trigger] new.shelves@[t]).height
                    > 0 implies new.shelves@[t].y == new.base(t) by {
                assert(self.shelves@[t].height > 0);
            }
        }
        if new.tiled() {
            assert forall|t: int|
                0 <= t < self.shelves@.len() && (#[trigger] self.shelves@[t]).height
                    > 0 implies self.shelves@[t].y == self.base(t) by {
                assert(new.shelves@[t].height > 0);
            }
        }
        self.see_shelf(s, s);
        if reuse {
            assert(0 <= list[0] < self.bins@.len());
            self.see_bin(idx, s);
        }
        assert(new.frame_ok());
        assert forall|t: int| 0 <= t < new.shelves@.len() implies #[trigger] new.shelf_ok(t, s) by {
            self.see_shelf(t, s);
            let rw = new.rows@[t];
            assert forall|q: int| 0 <= q < rw.len() implies {
                &&& 0 <= #[trigger] rw[q] < new.bins@.len()
                &&& new.rank@[rw[q]] == q
                &&& new.bins@[rw[q]].shelf == t
            } by {
                if t == s && q == r {
                } else {
                    assert(rw[q] == self.rows@[t][q]);
                    assert(self.rank@[self.rows@[t][q]] == q);
                }
            }
        }
        assert forall|c: int| 0 <= c < new.bins@.len() implies #[trigger] new.bin_ok(c) by {
            if c != idx {
                self.see_bin(c, s);
                if self.rank@[c] >= 0 {
                    self.see_shelf(self.bins@[c].shelf as int, s);
                    assert(self.rows@[self.bins@[c].shelf as int][self.rank@[c]] == c);
                }
            } else {
                if r > 0 {
                    assert(0 <= self.rows@[s][r - 1] < self.bins@.len());
                }
                assert forall|id: AllocId| #[trigger]
                    new.tenants@[c].contains(id) implies id.primary() == c by {
                    if reuse {
                        self.tenants@[c].lemma_len0_is_empty();
                    }
                }
            }
        }
        let nlist = new.spare@;
        assert(new.spare_ok()) by {
            assert forall|k: int| 0 <= k < nlist.len() implies {
                &&& 0 <= #[trigger] nlist[k] < new.bins@.len()
                &&& new.rank@[nlist[k]] == -1
                &&& k + 1 == nlist.len() ==> new.bins@[nlist[k]].next.0 == NO_BIN
            } by {
                if reuse {
                    assert(nlist[k] == list[k + 1]);
                } else {
                    assert(nlist[k] == list[k]);
                }
            }
            assert forall|k: int, l: int|
                #![trigger nlist[k], nlist[l]]
                0 <= k && l == k + 1 && l < nlist.len() implies new.bins@[nlist[k]].next.0
                == nlist[l] by {
                if reuse {
                    assert(nlist[k] == list[k + 1]);
                    assert(nlist[l] == list[l + 1]);
                }
            }
            assert forall|k: int, l: int|
                #![trigger nlist[k], nlist[l]]
                0 <= k < l < nlist.len() implies nlist[k] != nlist[l] by {
                if reuse {
                    assert(nlist[k] == list[k + 1]);
                    assert(nlist[l] == list[l + 1]);
                }
            }
            if reuse && list.len() > 1 {
                assert(nlist[0] == list[1]);
            }
        }
        assert(new.placed_ok()) by {
            assert forall|id: AllocId| #[trigger]
                new.placed@.contains_key(id) <==> 0 <= id.primary() < new.bins@.len()
                    && new.tenants@[id.primary()].contains(id) by {
                assert(self.placed@.contains_key(id) <==> 0 <= id.primary() < self.bins@.len()
                    && self.tenants@[id.primary()].contains(id));
            }
            assert forall|id: AllocId| #[trigger] new.placed@.contains_key(id) implies new.tenant_ok(
                id,
            ) by {
                self.see_tenant(id, s);
            }
            assert forall|x: AllocId, y: AllocId|
                #![trigger new.placed@.contains_key(x), new.placed@.contains_key(y)]
                new.placed@.contains_key(x) && new.placed@.contains_key(y) && x != y && x.primary()
                    == y.primary() implies new.laid(x).max.x <= new.laid(y).min.x || new.laid(
                y,
            ).max.x <= new.laid(x).min.x by {
                assert(self.placed@.contains_key(x) && self.placed@.contains_key(y));
            }
        }
        let target = self@.with_bin(x as int);
        assert(new@.shelves =~= target.shelves) by {
            assert forall|t: int| 0 <= t < new.shelves@.len() implies new.shelf_view(t)
                == target.shelves[t] by {
                self.see_shelf(t, s);
                let rw = self.rows@[t];
                assert forall|q: int| 0 <= q < rw.len() implies new.bin_view(#[trigger] rw[q])
                    == self.bin_view(rw[q]) by {
                    assert(self.rank@[rw[q]] == q);
                }
                if t == s {
                    assert(new.shelf_view(t).bins =~= self.shelf_view(t).bins.push(
                        self@.fresh_bin(0, x as int, self.shelves@[s].bin_width as int),
                    ));
                } else {
                    assert(new.shelf_view(t).bins =~= self.shelf_view(t).bins);
                }
            }
        }
        assert(new@.recycled =~= target.recycled) by {
            assert forall|k: int| 0 <= k < nlist.len() implies new.bin_view(#[trigger] nlist[k])
                == target.recycled[k] by {
                if reuse {
                    assert(nlist[k] == list[k + 1]);
                } else {
                    assert(nlist[k] == list[k]);
                }
            }
        }
    }

    /// Gives the last shelf one more bin, at `x`, in a recycled slot or
    /// in a new one when none is left to recycle.
    fn add_bin(&mut self, x: u16)
        requires
            old(self).can_add_bin(x),
        ensures
            final(self).inv(old(self).shelves@.len() - 1),
            final(self)@ == old(self)@.with_bin(x as int),
            final(self).shelves@.len() == old(self).shelves@.len(),
            final(self).rows@[old(self).shelves@.len() - 1].len() == old(
                self,
            ).rows@[old(self).shelves@.len() - 1].len() + 1,
            final(self).shelves@[old(self).shelves@.len() - 1].x == old(
                self,
            ).shelves@[old(self).shelves@.len() - 1].x,
            final(self).shelves@[old(self).shelves@.len() - 1].bin_width == old(
                self,
            ).shelves@[old(self).shelves@.len() - 1].bin_width,
            final(self).column_width == old(self).column_width,
            final(self).flip_xy == old(self).flip_xy,
            final(self).alignment == old(self).alignment,
            final(self).tiled() == old(self).tiled(),
    {
        let shelf_index = self.shelves.len() - 1;
        let ghost s = shelf_index as int;
        proof {
            self.see_shelf(s, s);
            if self.spare@.len() > 0 {
                assert(0 <= self.spare@[0] < self.bins@.len());
            }
        }
        let shelf = self.shelves[shelf_index];
        let mut bin = Bin {
            next: shelf.first_bin,
            x,
            free_space: shelf.bin_width,
            refcount: 0,
            shelf: shelf_index as u16,
            generation: 0,
            item_count: 0,
        };
        let mut bin_index = self.first_unallocated_bin;
        if bin_index.0 == NO_BIN {
            bin_index = BinIndex(self.bins.len() as u16);
            self.bins.push(bin);
            proof {
                self.rank = Ghost(self.rank@.push(self.rows@[s].len() as int));
                self.tenants = Ghost(self.tenants@.push(Set::empty()));
                assert(self.spare@.len() == 0);
            }
        } else {
            let idx = bin_index.to_usize();
            bin.generation = Self::bump(self.bins[idx].generation);
            self.first_unallocated_bin = self.bins[idx].next;
            self.bins[idx] = bin;
            proof {
                self.rank = Ghost(self.rank@.update(idx as int, self.rows@[s].len() as int));
                self.spare = Ghost(self.spare@.skip(1));
            }
        }
        self.shelves[shelf_index].first_bin = bin_index;
        proof {
            self.rows = Ghost(self.rows@.update(s, self.rows@[s].push(bin_index.0 as int)));
            assert(self.shelves@ =~= old(self).shelves@.update(
                s,
                Shelf { first_bin: bin_index, ..old(self).shelves@[s] },
            ));
            old(self).lemma_add_bin(&*self, x, bin_index.0 as int);
        }
    }

    /// `new` is this allocator after a shelf without bins was pushed.
    spec fn shelf_pushed(&self, new: &Self, shelf: Shelf) -> bool {
        let advance = self.available_height == 0 && self.current_column + 1 < self.num_columns;
        let column = if advance {
            self.current_column + 1
        } else {
            self.current_column as int
        };
        let available = if advance {
            self.height
        } else {
            self.available_height
        };
        &&& shelf.x == column * self.column_width
        &&& shelf.y == self.height - available
        &&& 1 <= shelf.height <= available
        &&& shelf.height as int % 8 == 0 || shelf.height == available
        &&& shelf.bin_width <= self.column_width
        &&& shelf.bin_width as int % self.pitch() == 0
        &&& shelf.first_bin.0 == NO_BIN
        &&& new.shelves@ == self.shelves@.push(shelf)
        &&& new.rows@ == self.rows@.push(Seq::empty())
        &&& new.cols@ == self.cols@.push(column)
        &&& new.tops@ == self.tops@.push(shelf.y + shelf.height)
        &&& new.current_column == column
        &&& new.available_height == available - shelf.height
        &&& new.bins@ == self.bins@
        &&& new.width == self.width
        &&& new.height == self.height
        &&& new.first_unallocated_bin == self.first_unallocated_bin
        &&& new.flip_xy == self.flip_xy
        &&& new.alignment == self.alignment
        &&& new.column_width == self.column_width
        &&& new.num_columns == self.num_columns
        &&& new.rank@ == self.rank@
        &&& new.spare@ == self.spare@
        &&& new.tenants@ == self.tenants@
        &&& new.placed@ == self.placed@
    }

    proof fn lemma_shelf_pushed(&self, new: &Self, shelf: Shelf)
        requires
            self.inv(-1),
            self.shelves@.len() < MAX_SHELF_COUNT,
            self.available_height >= 1 || self.current_column + 1 < self.num_columns,
            self.shelf_pushed(new, shelf),
        ensures
            new.inv(self.shelves@.len() as int),
            self.tiled() ==> new.tiled(),
            new@.shelves =~= self@.shelves.push(
                ShelfView {
                    x: shelf.x as int,
                    y: shelf.y as int,
                    height: shelf.height as int,
                    bin_width: shelf.bin_width as int,
                    bins: Seq::empty(),
                },
            ),
            new@.recycled =~= self@.recycled,
    {
        let n = self.shelves@.len() as int;
        let cw = self.column_width as int;
        let column = new.current_column as int;
        if n > 0 {
            self.see_shelf(n - 1, -1);
        }
        assert((column + 1) * cw <= self.num_columns * cw) by (nonlinear_arith)
            requires
                0 <= column + 1 <= self.num_columns,
                0 <= cw,
        ;
        assert((column + 1) * cw == column * cw + cw) by (nonlinear_arith);
        assert(self.num_columns * cw == cw * self.num_columns) by (nonlinear_arith);
        lemma_multiple_of_multiple(column, cw, self.pitch());
        assert(new.frame_ok());
        assert forall|t: int| 0 <= t < new.shelves@.len() implies #[trigger] new.shelf_ok(t, n) by {
            if t < n {
                self.see_shelf(t, -1);
            }
        }
        assert forall|c: int| 0 <= c < new.bins@.len() implies #[trigger] new.bin_ok(c) by {
            self.see_bin(c, -1);
        }
        assert(new.spare_ok());
        assert(new.placed_ok()) by {
            assert forall|id: AllocId| #[trigger] new.placed@.contains_key(id) implies new.tenant_ok(
                id,
            ) by {
                self.see_tenant(id, -1);
            }
            assert forall|x: AllocId, y: AllocId|
                #![trigger new.placed@.contains_key(x), new.placed@.contains_key(y)]
                new.placed@.contains_key(x) && new.placed@.contains_key(y) && x != y && x.primary()
                    == y.primary() implies new.laid(x).max.x <= new.laid(y).min.x || new.laid(
                y,
            ).max.x <= new.laid(x).min.x by {
                assert(self.placed@.contains_key(x) && self.placed@.contains_key(y));
            }
        }
        let target = self@.shelves.push(
            ShelfView {
                x: shelf.x as int,
                y: shelf.y as int,
                height: shelf.height as int,
                bin_width: shelf.bin_width as int,
                bins: Seq::empty(),
            },
        );
        assert forall|t: int| 0 <= t < new.shelves@.len() implies new.shelf_view(t)
            == target[t] by {
            if t < n {
                assert(new.shelf_view(t).bins =~= self.shelf_view(t).bins);
            } else {
                assert(new.shelf_view(t).bins =~= Seq::empty());
            }
        }
    }

    /// Adds one shelf for `width` by `height`, in the next column if the
    /// current one is full, and cuts it into bins. Returns its index.
    fn push_shelf(&mut self, width: u16, height: u16) -> (shelf_index: usize)
        requires
            old(self).inv(-1),
            old(self)@.can_push(),
            1 <= height,
        ensures
            final(self).inv(-1),
            final(self)@ == old(self)@.pushed(width as int, height as int),
            old(self).tiled() ==> final(self).tiled(),
            shelf_index == old(self).shelves@.len(),
            final(self).shelves@.len() == old(self).shelves@.len() + 1,
    {
        let can_add_column = self.current_column + 1 < self.num_columns;
        let advance = self.available_height == 0 && can_add_column;
        let column: u16 = if advance {
            self.current_column + 1
        } else {
            self.current_column
        };
        let available: u16 = if advance {
            self.height
        } else {
            self.available_height
        };
        proof {
            lemma_bucket_height(height as int);
            if self.shelves@.len() > 0 {
                self.see_shelf(self.shelves@.len() - 1, -1);
            }
            if height > 65472 {
                assert(bucket_height(height as int) >= 65536);
            }
        }
        let shelf_h: u16 = if height > 65472 {
            available
        } else {
            let bucket = shelf_height(height);
            if bucket <= available {
                bucket
            } else {
                available
            }
        };
        let num_bins = self.num_bins(width, shelf_h);
        let share: u16 = self.column_width / num_bins;
        proof {
            lemma_rounded_down(share as int, self.alignment.width as int);
            let cw = self.column_width as int;
            assert((column + 1) * cw <= self.num_columns * cw) by (nonlinear_arith)
                requires
                    0 <= column + 1 <= self.num_columns,
                    0 <= cw,
            ;
            assert((column + 1) * cw == column * cw + cw) by (nonlinear_arith);
            assert(self.num_columns * cw == cw * self.num_columns) by (nonlinear_arith);
            assert(0 <= column * cw) by (nonlinear_arith)
                requires
                    0 <= column,
                    0 <= cw,
            ;
            lemma_multiple_of_multiple(column as int, cw, self.pitch());
            vstd::arithmetic::div_mod::lemma_div_pos_is_pos(cw, num_bins as int);
            vstd::arithmetic::div_mod::lemma_fundamental_div_mod(cw, num_bins as int);
            assert(share <= cw) by (nonlinear_arith)
                requires
                    cw == num_bins * share + cw % (num_bins as int),
                    num_bins >= 1,
                    share >= 0,
                    cw % (num_bins as int) >= 0,
            ;
        }
        let bin_width: u16 = share - share % (self.alignment.width as u16);
        let x0: u16 = column * self.column_width;
        let y: u16 = self.height - available;
        let shelf_index = self.shelves.len();
        self.current_column = column;
        self.available_height = available - shelf_h;
        self.shelves.push(
            Shelf { x: x0, y, height: shelf_h, bin_width, first_bin: BinIndex(NO_BIN) },
        );
        proof {
            self.rows = Ghost(self.rows@.push(Seq::empty()));
            self.cols = Ghost(self.cols@.push(column as int));
            self.tops = Ghost(self.tops@.push(y + shelf_h));
            old(self).lemma_shelf_pushed(
                &*self,
                Shelf { x: x0, y, height: shelf_h, bin_width, first_bin: BinIndex(NO_BIN) },
            );
            let target = old(self)@.pushed_with(width as int, height as int, 0);
            let n = old(self).shelves@.len() as int;
            assert(old(self)@.across() == self.height);
            assert(old(self)@.advances() == advance);
            assert(target.shelves[n].x == x0);
            assert(target.shelves[n].y == y);
            assert(old(self)@.new_height(height as int) == shelf_h);
            assert(target.shelves[n].height == shelf_h);
            assert(old(self)@.new_count(width as int, height as int) == num_bins);
            assert(target.shelves[n].bin_width == bin_width);
            assert(target.shelves[n].bins =~= Seq::empty());
            assert(self@.shelves =~= target.shelves);
            assert(self@.recycled =~= old(self)@.pushed_with(
                width as int,
                height as int,
                0,
            ).recycled);
        }
        let ghost before = old(self)@;
        let ghost s = shelf_index as int;
        let ghost w = width as int;
        let ghost h = height as int;
        // Initialize the bins for our new shelf.
        let mut x: u16 = x0;
        let mut made: u16 = 0;
        while made < num_bins
            invariant
                self.inv(s),
                s == shelf_index,
                self.shelves@.len() == s + 1,
                before == old(self)@,
                w == width,
                h == height,
                made <= num_bins <= 16,
                num_bins == before.new_count(w, h),
                num_bins <= MAX_BIN_COUNT - before.slots,
                bin_width == before.new_bin_width(w, h),
                0 <= bin_width <= self.column_width / num_bins,
                bin_width as int % self.pitch() == 0,
                self.rows@[s].len() == made,
                self.shelves@[s].x == x0,
                self.shelves@[s].bin_width == bin_width,
                x0 + self.column_width <= 65535,
                x0 as int % self.pitch() == 0,
                x == x0 + made * bin_width,
                x as int % self.pitch() == 0,
                old(self).tiled() ==> self.tiled(),
                self@ == before.pushed_with(w, h, made as int),
            decreases num_bins - made,
        {
            proof {
                lemma_shares_fit(
                    self.column_width as int,
                    num_bins as int,
                    bin_width as int,
                    made as int,
                );
                lemma_multiples(x as int, bin_width as int, self.pitch());
            }
            let ghost prior = self@;
            self.add_bin(x);
            x = x + bin_width;
            made = made + 1;
            proof {
                let now = before.pushed_with(w, h, made as int);
                let was = before.pushed_with(w, h, made - 1);
                assert(self@.recycled =~= now.recycled);
                assert(self@.shelves[s].bins =~= now.shelves[s].bins);
                assert(self@.shelves =~= now.shelves);
            }
        }
        proof {
            self.lemma_close(s);
        }
        shelf_index
    }

    /// Adds a shelf for `width` by `height`, behind a shelf that fills the
    /// rest of the current column where that is too low. Returns the
    /// index of the shelf.
    fn add_shelf(&mut self, width: u16, height: u16) -> (shelf_index: usize)
        requires
            old(self).inv(-1),
            old(self)@.can_add_shelf(width as int, height as int),
            1 <= height,
        ensures
            final(self).inv(-1),
            final(self)@ == old(self)@.with_shelf(width as int, height as int),
            old(self).tiled() ==> final(self).tiled(),
            shelf_index == final(self).shelves@.len() - 1,
            final(self).shelves@.len() > old(self).shelves@.len(),
    {
        let can_add_column = self.current_column + 1 < self.num_columns;
        if self.available_height != 0 && self.available_height < height && can_add_column {
            // We have room to add a shelf in a new column but current one
            // doesn't have enough available space. First add a shelf to
            // fill the current column's remaining height.
            let rest = self.available_height;
            self.push_shelf(0, rest);
        }
        self.push_shelf(width, height)
    }

    /// The number of released bins, counted up to `limit`.
    fn spare_count(&self, limit: u16) -> (count: u16)
        requires
            self.inv(-1),
        ensures
            count == (if self.spare@.len() <= limit {
                self.spare@.len() as int
            } else {
                limit as int
            }),
    {
        let mut count: u16 = 0;
        let mut bin_index = self.first_unallocated_bin;
        let ghost list = self.spare@;
        while count < limit && bin_index.0 != NO_BIN
            invariant
                self.inv(-1),
                list == self.spare@,
                count <= limit,
                count <= list.len(),
                bin_index.0 == (if count < list.len() {
                    list[count as int]
                } else {
                    NO_BIN as int
                }),
            decreases limit - count,
        {
            proof {
                assert(0 <= list[count as int] < self.bins@.len());
                if count + 1 < list.len() {
                    assert(self.bins@[list[count as int]].next.0 == list[count + 1]);
                }
            }
            bin_index = self.bins[bin_index.to_usize()].next;
            count = count + 1;
        }
        proof {
            if count < list.len() {
                assert(0 <= list[count as int] < self.bins@.len());
            }
        }
        count
    }

    /// Whether a shelf that holds `width` by `height` can be added.
    fn can_add_shelf(&self, width: u16, height: u16) -> (r: bool)
        requires
            self.inv(-1),
            1 <= height <= self.height,
        ensures
            r == self@.can_add_shelf(width as int, height as int),
    {
        let can_add_column = self.current_column + 1 < self.num_columns;
        if !(self.available_height >= height || can_add_column) {
            return false;
        }
        if self.shelves.len() >= MAX_SHELF_COUNT || self.bins.len() >= MAX_BIN_COUNT {
            return false;
        }
        proof {
            lemma_bucket_height(height as int);
            lemma_bucket_height(self.available_height as int);
            if height > 65472 {
                assert(bucket_height(height as int) >= 65536);
            }
        }
        let needs_filler = self.available_height != 0 && self.available_height < height
            && can_add_column;
        let mut slots: usize = self.bins.len();
        let mut shelves: usize = self.shelves.len();
        let mut available = self.available_height;
        if needs_filler {
            let count = self.num_bins(0, self.available_height);
            let recycled = self.spare_count(count);
            slots = slots + (count - recycled) as usize;
            shelves = shelves + 1;
            available = 0;
            proof {
                let ready = self@.pushed(0, self.available_height as int);
                assert(self@.new_height(self.available_height as int) == self.available_height);
                assert(ready.slots == slots);
                assert(ready.shelves.len() == shelves);
                assert(ready.available_height == 0);
                assert(ready.current_column == self.current_column);
            }
        }
        if shelves >= MAX_SHELF_COUNT || slots >= MAX_BIN_COUNT {
            return false;
        }
        let room: u16 = if available == 0 && can_add_column {
            self.height
        } else {
            available
        };
        let shelf_h: u16 = if height > 65472 {
            room
        } else {
            let bucket = shelf_height(height);
            if bucket <= room {
                bucket
            } else {
                room
            }
        };
        let larger = if width > shelf_h {
            width
        } else {
            shelf_h
        };
        let ratio = self.column_width / larger;
        let wanted: u16 = if ratio <= 4 {
            1
        } else if ratio <= 15 {
            2
        } else if ratio <= 64 {
            4
        } else if ratio <= 256 {
            8
        } else {
            16
        };
        let left = (MAX_BIN_COUNT - slots) as u16;
        let count = if wanted <= left {
            wanted
        } else {
            left
        };
        let share = self.column_width / count;
        proof {
            lemma_rounded_down(share as int, self.alignment.width as int);
            let ready = if needs_filler {
                self@.pushed(0, self.available_height as int)
            } else {
                self@
            };
            assert(ready.column_width == self.column_width);
            assert(ready.across() == self.height);
            assert(ready.new_height(height as int) == shelf_h);
            assert(ready.new_count(width as int, height as int) == count);
        }
        let bin_width = share - share % (self.alignment.width as u16);
        bin_width >= width
    }

    /// Find a sequence of consecutive shelves that can be coalesced into a
    /// single one tall enough to fit the provided size. Returns the first
    /// of them and their number, or zero.
    fn find_span(&self, w: u16, h: u16) -> (r: (usize, usize))
        requires
            self.inv(-1),
        ensures
            self@.coalesce_from(w as int, h as int, 0) is None <==> r.1 == 0,
            self@.coalesce_from(w as int, h as int, 0) matches Some(span) ==> {
                &&& r.0 == span.0
                &&& r.1 == span.1
                &&& 2 <= r.1 <= 3
                &&& r.0 + r.1 <= self.shelves@.len()
                &&& self@.starts(span.0, w as int)
                &&& self@.joins(span.0, span.0 + 1)
                &&& r.1 == 3 ==> self@.joins(span.0, span.0 + 2)
                &&& self@.merged(span.0, span.1).shelves[span.0].height >= h
            },
    {
        let len = self.shelves.len();
        let mut shelf_index: usize = 0;
        while shelf_index < len
            invariant
                self.inv(-1),
                len == self.shelves@.len(),
                shelf_index <= len,
                self@.coalesce_from(w as int, h as int, 0) == self@.coalesce_from(
                    w as int,
                    h as int,
                    shelf_index as int,
                ),
            decreases len - shelf_index,
        {
            let ghost k = shelf_index as int;
            proof {
                self.see_shelf(k, -1);
                self.lemma_seat(k, self.rows@[k].len() - 1, -1);
            }
            if self.shelves[shelf_index].bin_width < w {
                shelf_index += 1;
                continue ;
            }
            if !self.shelf_is_empty(shelf_index) {
                shelf_index += 1;
                continue ;
            }
            let first_bin = self.shelves[shelf_index].first_bin;
            if self.bins[first_bin.to_usize()].item_count >= MAX_ITEMS_PER_BIN {
                shelf_index += 1;
                continue ;
            }
            assert(self@.starts(k, w as int));
            let shelf_x = self.shelves[shelf_index].x;
            let mut coalesced_height: u32 = self.shelves[shelf_index].height as u32;
            if shelf_index + 1 >= len {
                return (0, 0);
            }
            if self.shelves[shelf_index + 1].x != shelf_x || !self.shelf_is_empty(shelf_index + 1) {
                shelf_index += 1;
                continue ;
            }
            coalesced_height = coalesced_height + self.shelves[shelf_index + 1].height as u32;
            if coalesced_height >= h as u32 {
                return (shelf_index, 2);
            }
            if shelf_index + 2 >= len {
                return (0, 0);
            }
            if self.shelves[shelf_index + 2].x != shelf_x || !self.shelf_is_empty(shelf_index + 2) {
                shelf_index += 1;
                continue ;
            }
            coalesced_height = coalesced_height + self.shelves[shelf_index + 2].height as u32;
            if coalesced_height >= h as u32 {
                return (shelf_index, 3);
            }
            shelf_index += 1;
        }
        (0, 0)
    }

    /// `new` is this allocator after `merge_span`.
    spec fn span_merged(&self, new: &Self, i: int, count: int) -> bool {
        let total = self.shelves@[i].height + self.shelves@[i + 1].height + if count == 3 {
            self.shelves@[i + 2].height as int
        } else {
            0
        };
        &&& new.shelves@ =~= Seq::new(
            self.shelves@.len(),
            |s: int|
                if s == i {
                    Shelf { height: total as u16, ..self.shelves@[s] }
                } else if i < s < i + count {
                    Shelf { height: 0, ..self.shelves@[s] }
                } else {
                    self.shelves@[s]
                },
        )
        &&& new.tops@ =~= Seq::new(
            self.tops@.len(),
            |s: int|
                if i <= s < i + count {
                    self.tops@[i + count - 1]
                } else {
                    self.tops@[s]
                },
        )
        &&& new.bins@ == self.bins@
        &&& new.available_height == self.available_height
        &&& new.width == self.width
        &&& new.height == self.height
        &&& new.first_unallocated_bin == self.first_unallocated_bin
        &&& new.flip_xy == self.flip_xy
        &&& new.alignment == self.alignment
        &&& new.current_column == self.current_column
        &&& new.column_width == self.column_width
        &&& new.num_columns == self.num_columns
        &&& new.rows@ == self.rows@
        &&& new.cols@ == self.cols@
        &&& new.rank@ == self.rank@
        &&& new.spare@ == self.spare@
        &&& new.tenants@ == self.tenants@
        &&& new.placed@ == self.placed@
    }

    /// What `merge_span` asks for.
    spec fn can_merge(&self, i: int, count: int) -> bool {
        &&& self.inv(-1)
        &&& 2 <= count <= 3
        &&& 0 <= i
        &&& i + count <= self.shelves@.len()
        &&& self.column_width >= 1
        &&& forall|s: int|
            i <= s < i + count ==> self.shelves@[s].x == self.shelves@[i].x && (
            #[trigger] self@.shelves[s]).vacant()
    }

    /// Shelves of one column that start at one place stand in one column.
    proof fn lemma_same_column(&self, s: int, t: int)
        requires
            self.inv(-1),
            0 <= s < self.shelves@.len(),
            0 <= t < self.shelves@.len(),
            self.column_width >= 1,
            self.shelves@[s].x == self.shelves@[t].x,
        ensures
            self.cols@[s] == self.cols@[t],
    {
        self.see_shelf(s, -1);
        self.see_shelf(t, -1);
        let a = self.cols@[s];
        let b = self.cols@[t];
        let cw = self.column_width as int;
        assert(a == b) by (nonlinear_arith)
            requires
                a * cw == b * cw,
                cw >= 1,
        ;
    }

    /// A shelf that holds nothing has no placed rectangle.
    proof fn lemma_vacant_shelf(&self, id: AllocId)
        requires
            self.inv(-1),
            self.placed@.contains_key(id),
        ensures
            !self@.shelves[self.bins@[id.primary()].shelf as int].vacant(),
    {
        self.see_tenant(id, -1);
        let b = id.primary();
        let s = self.bins@[b].shelf as int;
        self.lemma_seat(s, self.rank@[b], -1);
        if self.bins@[b].refcount == 0 {
            self.tenants@[b].lemma_len0_is_empty();
        }
        assert(self@.shelves[s].bins[self.rank@[b]].refcount > 0);
    }

    proof fn lemma_merge(&self, new: &Self, i: int, count: int)
        requires
            self.can_merge(i, count),
            self.span_merged(new, i, count),
        ensures
            new.inv(-1),
            new@ == self@.merged(i, count),
            self.settled() ==> new.settled(),
            self.tiled() && self.shelves@[i].height > 0 ==> new.tiled(),
    {
        let n = self.shelves@.len() as int;
        assert(self@.shelves[i].vacant());
        assert(self@.shelves[i + 1].vacant());
        self.lemma_same_column(i, i + 1);
        self.see_shelf(i, -1);
        self.see_shelf(i + 1, -1);
        if count == 3 {
            assert(self@.shelves[i + 2].vacant());
            self.lemma_same_column(i, i + 2);
            self.see_shelf(i + 2, -1);
        }
        if i + count < n {
            self.see_shelf(i + count, -1);
        }
        assert(new.frame_ok());
        assert forall|t: int| 0 <= t < new.shelves@.len() implies #[trigger] new.shelf_ok(
            t,
            -1,
        ) by {
            self.see_shelf(t, -1);
            if t > 0 {
                self.see_shelf(t - 1, -1);
            }
        }
        assert forall|c: int| 0 <= c < new.bins@.len() implies #[trigger] new.bin_ok(c) by {
            self.see_bin(c, -1);
        }
        assert(new.spare_ok());
        assert(new.placed_ok()) by {
            assert forall|id: AllocId| #[trigger] new.placed@.contains_key(id) implies new.tenant_ok(
                id,
            ) by {
                self.see_tenant(id, -1);
                self.lemma_vacant_shelf(id);
                let s = self.bins@[id.primary()].shelf as int;
                if i <= s < i + count {
                    assert(self@.shelves[s].vacant());
                }
            }
            assert forall|x: AllocId, y: AllocId|
                #![trigger new.placed@.contains_key(x), new.placed@.contains_key(y)]
                new.placed@.contains_key(x) && new.placed@.contains_key(y) && x != y && x.primary()
                    == y.primary() implies new.laid(x).max.x <= new.laid(y).min.x || new.laid(
                y,
            ).max.x <= new.laid(x).min.x by {
                assert(self.placed@.contains_key(x) && self.placed@.contains_key(y));
            }
        }
        assert(new@.shelves =~= self@.merged(i, count).shelves) by {
            assert forall|t: int| 0 <= t < n implies new.shelf_view(t) == self@.merged(
                i,
                count,
            ).shelves[t] by {
                assert(new.shelf_view(t).bins =~= self.shelf_view(t).bins);
            }
        }
        assert(new@.recycled =~= self@.recycled);
        if self.settled() {
            let top = choose|c: int| #[trigger] self.tops_off(c);
            assert(new.tops_off(top));
        }
        if self.tiled() && self.shelves@[i].height > 0 {
            assert forall|t: int|
                0 <= t < new.shelves@.len() && (#[trigger] new.shelves@[t]).height
                    > 0 implies new.shelves@[t].y == new.base(t) by {
                if t == i {
                    assert(self.shelves@[i].height > 0);
                } else {
                    assert(self.shelves@[t].height > 0);
                }
            }
        }
    }

    /// Merges `count` shelves, two or three, into shelf `start`: it gets the
    /// height of them all, and the others are squashed to zero. They are
    /// not removed, so that no item can go in, and they will be
    /// garbage-collected whenever there is no shelf above them.
    fn merge_span(&mut self, start: usize, count: usize)
        requires
            old(self).can_merge(start as int, count as int),
        ensures
            final(self).inv(-1),
            final(self)@ == old(self)@.merged(start as int, count as int),
            old(self).settled() ==> final(self).settled(),
            old(self).tiled() && old(self).shelves@[start as int].height > 0 ==> final(self).tiled(),
            final(self).bins@ == old(self).bins@,
            final(self).rows@ == old(self).rows@,
            final(self).rank@ == old(self).rank@,
            final(self).shelves@.len() == old(self).shelves@.len(),
            final(self).shelves@[start as int].first_bin == old(self).shelves@[start as int].first_bin,
    {
        let ghost i = start as int;
        proof {
            assert(self@.shelves[i].vacant());
            assert(self@.shelves[i + 1].vacant());
            self.lemma_same_column(i, i + 1);
            self.see_shelf(i, -1);
            self.see_shelf(i + 1, -1);
            if count == 3 {
                assert(self@.shelves[i + 2].vacant());
                self.lemma_same_column(i, i + 2);
                self.see_shelf(i + 2, -1);
            }
        }
        let mut total: u16 = self.shelves[start].height + self.shelves[start + 1].height;
        self.shelves[start + 1].height = 0;
        if count == 3 {
            total = total + self.shelves[start + 2].height;
            self.shelves[start + 2].height = 0;
        }
        self.shelves[start].height = total;
        proof {
            let ghost before = *old(self);
            self.tops = Ghost(
                Seq::new(
                    before.tops@.len(),
                    |s: int|
                        if i <= s < i + count {
                            before.tops@[i + count - 1]
                        } else {
                            before.tops@[s]
                        },
                ),
            );
            assert(self.shelves@ =~= Seq::new(
                before.shelves@.len(),
                |s: int|
                    if s == i {
                        Shelf { height: total, ..before.shelves@[s] }
                    } else if i < s < i + count {
                        Shelf { height: 0, ..before.shelves@[s] }
                    } else {
                        before.shelves@[s]
                    },
            ));
            old(self).lemma_merge(&*self, i, count as int);
        }
    }

    /// Find a sequence of consecutive shelves that can be coalesced into a
    /// single one tall enough to fit the provided size.
    ///
    /// If such a sequence is found, grow the height of first shelf and
    /// squash the other ones to zero. For simplicity, the bin width is
    /// not modified.
    fn coalesce_shelves(&mut self, w: u16, h: u16) -> (r: (usize, BinIndex))
        requires
            old(self).inv(-1),
            old(self).column_width >= 1,
        ensures
            final(self).inv(-1),
            old(self).settled() ==> final(self).settled(),
            old(self).tiled() && !old(self)@.merges_squashed(w as int, h as int)
                ==> final(self).tiled(),
            old(self)@.coalesce_from(w as int, h as int, 0) is None <==> r.1.0 == NO_BIN,
            r.1.0 == NO_BIN ==> final(self)@ == old(self)@,
            old(self)@.coalesce_from(w as int, h as int, 0) matches Some(span) ==> {
                &&& final(self)@ == old(self)@.merged(span.0, span.1)
                &&& r.0 == span.0
                &&& span.0 < final(self).shelves@.len()
                &&& final(self).rows@[span.0].len() >= 1
                &&& r.1.0 == final(self).rows@[span.0][final(self).rows@[span.0].len() - 1]
                &&& final(self).rows@[span.0].len() == old(self)@.shelves[span.0].bins.len()
                &&& final(self).shelves@[span.0].height >= h
                &&& final(self).shelves@[span.0].bin_width >= w
                &&& final(self).bins@[r.1.0 as int].item_count < MAX_ITEMS_PER_BIN
                &&& final(self).bins@[r.1.0 as int].refcount == 0
            },
    {
        let (start, count) = self.find_span(w, h);
        if count == 0 {
            return (0, BinIndex(NO_BIN));
        }
        let ghost i = start as int;
        proof {
            self.see_shelf(i, -1);
            self.lemma_seat(i, self.rows@[i].len() - 1, -1);
            assert forall|s: int| i <= s < i + count implies self.shelves@[s].x
                == self.shelves@[i].x && (#[trigger] self@.shelves[s]).vacant() by {
                self.see_shelf(s, -1);
            }
            assert(self@.shelves[i].bins.last().refcount == 0);
        }
        self.merge_span(start, count);
        proof {
            self.see_shelf(i, -1);
        }
        (start, self.shelves[start].first_bin)
    }

    /// The shelf that `add_shelf` adds for `w` by `h` is at least `h`
    /// high, and its last bin is new and at least `w` wide.
    proof fn lemma_new_shelf(v: BucketedView, w: int, h: int)
        requires
            v.can_add_shelf(w, h),
            1 <= h <= v.across(),
            0 <= v.available_height,
            0 <= v.recycled.len(),
        ensures
            v.with_shelf(w, h).shelves.len() >= 1,
            v.with_shelf(w, h).shelves.last().height >= h,
            v.with_shelf(w, h).shelves.last().bin_width >= w,
            v.with_shelf(w, h).shelves.last().bins.len() >= 1,
            v.with_shelf(w, h).shelves.last().bins.last().free_space == v.with_shelf(
                w,
                h,
            ).shelves.last().bin_width,
            v.with_shelf(w, h).shelves.last().bins.last().item_count == 0,
            v.with_shelf(w, h).shelves.last().bins.last().refcount == 0,
            v.with_shelf(w, h).placements == v.placements,
            v.with_shelf(w, h).size == v.size,
            v.with_shelf(w, h).vertical == v.vertical,
            v.with_shelf(w, h).alignment == v.alignment,
    {
        lemma_bucket_height(h);
        let ready = if v.needs_filler(h) {
            v.pushed(0, v.available_height)
        } else {
            v
        };
        if v.needs_filler(h) {
            lemma_bucket_height(v.available_height);
            assert(v.new_height(v.available_height) == v.available_height);
            assert(ready.available_height == 0);
            assert(ready.advances());
        }
        assert(ready.new_height(h) >= h);
        assert(ready.new_count(w, h) >= 1);
    }

    /// Finds the bin for `w` by `h`: one that is there, or the last of a
    /// new shelf, or the last of the first of the shelves that are merged
    /// for it.
    fn prepare(&mut self, w: u16, h: u16) -> (r: (usize, BinIndex, Ghost<int>))
        requires
            old(self).wf(),
            1 <= w <= old(self).column_width,
            1 <= h <= old(self).height,
            w as int % old(self).pitch() == 0,
        ensures
            final(self).inv(-1),
            old(self)@.prepared(w as int, h as int) is None <==> r.1.0 == NO_BIN,
            r.1.0 == NO_BIN ==> final(self)@ == old(self)@ && final(self).settled(),
            old(self)@.prepared(w as int, h as int) matches Some(p) ==> {
                &&& final(self)@ == p.0
                &&& r.0 == p.1
                &&& r.2@ == p.2
                &&& final(self).can_fill(r.1.0 as int, w)
                &&& final(self).bins@[r.1.0 as int].shelf == r.0
                &&& final(self).rank@[r.1.0 as int] == r.2@
                &&& final(self).shelves@[r.0 as int].height >= h
                &&& final(self).settled() || r.0 == final(self).shelves@.len() - 1
                &&& final(self)@.placements == old(self)@.placements
                &&& final(self)@.size == old(self)@.size
                &&& final(self)@.vertical == old(self)@.vertical
                &&& final(self)@.alignment == old(self)@.alignment
                &&& final(self).pitch() == old(self).pitch()
            },
            old(self).tiled() && !(old(self)@.search(
                w as int,
                h as int,
                old(self)@.can_add_shelf(w as int, h as int),
            ) is None && !old(self)@.can_add_shelf(w as int, h as int) && old(self)@.merges_squashed(
                w as int,
                h as int,
            )) ==> final(self).tiled(),
    {
        let ghost view = self@;
        let ghost wi = w as int;
        let ghost hi = h as int;
        let can_add_shelf = self.can_add_shelf(w, h);
        let (found_shelf, found_bin) = self.find_bin(w, h, can_add_shelf);
        if found_bin.0 != NO_BIN {
            let ghost k = view.search(wi, hi, can_add_shelf)->Some_0.1;
            proof {
                self.lemma_seat(found_shelf as int, k, -1);
            }
            return (found_shelf, found_bin, Ghost(k));
        }
        if can_add_shelf {
            proof {
                Self::lemma_new_shelf(view, wi, hi);
            }
            let shelf = self.add_shelf(w, h);
            let ghost k = self.rows@[shelf as int].len() - 1;
            proof {
                self.see_shelf(shelf as int, -1);
                self.lemma_seat(shelf as int, k, -1);
            }
            let bin = self.shelves[shelf].first_bin;
            return (shelf, bin, Ghost(k));
        }
        // Attempt to merge some empty shelves to make a big enough spot.
        let (shelf, bin) = self.coalesce_shelves(w, h);
        if bin.0 == NO_BIN {
            return (0, bin, Ghost(0));
        }
        let ghost k = self.rows@[shelf as int].len() - 1;
        proof {
            self.lemma_seat(shelf as int, k, -1);
        }
        (shelf, bin, Ghost(k))
    }

    /// Allocate a rectangle in the atlas.
    ///
    /// Nothing is placed, and nothing changes, when the request is empty,
    /// when its aligned size exceeds a column or the surface, or when no
    /// bin takes it, no shelf can be added and no shelves can be merged
    /// for it.
    pub fn allocate(&mut self, requested_size: Size) -> (r: Option<Allocation>)
        requires
            old(self).wf(),
        ensures
            final(self).wf(),
            r is Some <==> {
                &&& old(self)@.normalized(requested_size) is Some
                &&& old(self)@.prepared(
                    old(self)@.normalized(requested_size)->Some_0.0,
                    old(self)@.normalized(requested_size)->Some_0.1,
                ) is Some
            },
            r is None ==> final(self)@ == old(self)@ && (old(self).tiled() ==> final(self).tiled()),
            r matches Some(a) ==> {
                let (w, h) = old(self)@.normalized(requested_size)->Some_0;
                let (v, s, k) = old(self)@.prepared(w, h)->Some_0;
                &&& old(self).tiled() && !(old(self)@.search(w, h, old(self)@.can_add_shelf(w, h))
                    is None && !old(self)@.can_add_shelf(w, h) && old(self)@.merges_squashed(w, h))
                    ==> final(self).tiled()
                &&& a.id == v.handle(s, k)
                &&& a.rectangle == v.slot_rectangle(s, k, w)
                &&& final(self)@ == v.filled(s, k, w)
            },
            r matches Some(a) ==> {
                &&& !old(self)@.placements.contains_key(a.id)
                &&& final(self)@.placements == old(self)@.placements.insert(a.id, a.rectangle)
                &&& a.rectangle.width() >= requested_size.width
                &&& a.rectangle.height() >= requested_size.height
                &&& a.rectangle.within(Rectangle::surface(old(self)@.size))
                &&& if old(self)@.vertical {
                    &&& a.rectangle.min.x as int % 8 == 0
                    &&& 8int % old(self)@.alignment.width as int == 0 ==> a.rectangle.min.x as int
                        % old(self)@.alignment.width as int == 0
                    &&& old(self)@.alignment.width == old(self)@.alignment.height
                        ==> a.rectangle.min.y as int % old(self)@.alignment.height as int == 0
                } else {
                    &&& a.rectangle.min.x as int % old(self)@.alignment.width as int == 0
                    &&& a.rectangle.min.y as int % 8 == 0
                    &&& 8int % old(self)@.alignment.height as int == 0 ==> a.rectangle.min.y as int
                        % old(self)@.alignment.height as int == 0
                }
            },
    {
        if requested_size.is_empty() {
            return None;
        }
        proof {
            lemma_aligned_up(requested_size.width as int, self.alignment.width as int);
            lemma_aligned_up(requested_size.height as int, self.alignment.height as int);
            lemma_aligned_up_bound(requested_size.width as int, self.alignment.width as int);
            lemma_aligned_up_bound(requested_size.height as int, self.alignment.height as int);
        }
        if requested_size.width > 65535 || requested_size.height > 65535 {
            return None;
        }
        let mut aligned_width = requested_size.width;
        let mut aligned_height = requested_size.height;
        adjust_size(self.alignment.width, &mut aligned_width);
        adjust_size(self.alignment.height, &mut aligned_height);
        if aligned_width > self.column_width as i32 || aligned_height > self.height as i32 {
            return None;
        }
        let (w, h) = convert_coordinates(self.flip_xy, aligned_width as u16, aligned_height as u16);
        if w > self.column_width || h > self.height {
            return None;
        }
        assert(self@.normalized(requested_size) == Some((w as int, h as int)));
        assert(w as int % self.pitch() == 0);
        let (shelf, bin, Ghost(k)) = self.prepare(w, h);
        if bin.0 == NO_BIN {
            return None;
        }
        let ghost before = *self;
        let a = self.alloc_from_bin(shelf, bin, w);
        proof {
            if shelf == self.shelves@.len() - 1 {
                assert(self.tops_off(bin.0 as int));
            } else {
                before.see_bin(bin.0 as int, -1);
                assert(before.settled());
                let top = choose|c: int| #[trigger] before.tops_off(c);
                assert(before.tops_off(top));
                assert(self.bins@[top].shelf == before.bins@[top].shelf);
                assert(self.bins@[top].refcount >= before.bins@[top].refcount);
                assert(self.tops_off(top));
            }
            if self.flip_xy {
                if 8int % self.alignment.width as int == 0 {
                    lemma_divisor_of_eight(a.rectangle.min.x as int, self.alignment.width as int);
                }
            } else {
                if 8int % self.alignment.height as int == 0 {
                    lemma_divisor_of_eight(a.rectangle.min.y as int, self.alignment.height as int);
                }
            }
        }
        Some(a)
    }

    /// The columns of the shelves never go down.
    proof fn lemma_columns_ordered(&self, s: int, t: int)
        requires
            self.inv(-1),
            0 <= s <= t < self.shelves@.len(),
        ensures
            self.cols@[s] <= self.cols@[t],
        decreases t - s,
    {
        if s < t {
            self.see_shelf(t, -1);
            self.lemma_columns_ordered(s, t - 1);
        }
    }

    /// Within a column, a later shelf starts no lower than an earlier one
    /// ends.
    proof fn lemma_column_order(&self, s: int, t: int)
        requires
            self.inv(-1),
            0 <= s < t < self.shelves@.len(),
            self.cols@[s] == self.cols@[t],
        ensures
            !self.leads(t),
            self.tops@[s] <= self.base(t),
        decreases t - s,
    {
        self.see_shelf(t, -1);
        self.see_shelf(t - 1, -1);
        self.lemma_columns_ordered(s, t - 1);
        self.lemma_columns_ordered(t - 1, t);
        if s < t - 1 {
            self.lemma_column_order(s, t - 1);
        }
    }

    /// The rectangles of two bins of one shelf, or of two shelves, keep
    /// apart.
    proof fn lemma_bins_apart(&self, a: AllocId, b: AllocId)
        requires
            self.inv(-1),
            self.tiled(),
            self.placed@.contains_key(a),
            self.placed@.contains_key(b),
            a.primary() != b.primary(),
        ensures
            !self.laid(a).overlaps(self.laid(b)),
    {
        self.see_tenant(a, -1);
        self.see_tenant(b, -1);
        let p = a.primary();
        let q = b.primary();
        let s = self.bins@[p].shelf as int;
        let t = self.bins@[q].shelf as int;
        let cw = self.column_width as int;
        if s == t {
            let bw = self.shelves@[s].bin_width as int;
            let rp = self.rank@[p];
            let rq = self.rank@[q];
            if rp < rq {
                assert((rp + 1) * bw <= rq * bw) by (nonlinear_arith)
                    requires
                        rp + 1 <= rq,
                        0 <= bw,
                ;
                assert((rp + 1) * bw == rp * bw + bw) by (nonlinear_arith);
            } else {
                assert((rq + 1) * bw <= rp * bw) by (nonlinear_arith)
                    requires
                        rq + 1 <= rp,
                        0 <= bw,
                ;
                assert((rq + 1) * bw == rq * bw + bw) by (nonlinear_arith);
            }
        } else if self.cols@[s] != self.cols@[t] {
            let cs = self.cols@[s];
            let ct = self.cols@[t];
            if cs < ct {
                assert((cs + 1) * cw <= ct * cw) by (nonlinear_arith)
                    requires
                        cs + 1 <= ct,
                        0 <= cw,
                ;
                assert((cs + 1) * cw == cs * cw + cw) by (nonlinear_arith);
            } else {
                assert((ct + 1) * cw <= cs * cw) by (nonlinear_arith)
                    requires
                        ct + 1 <= cs,
                        0 <= cw,
                ;
                assert((ct + 1) * cw == ct * cw + cw) by (nonlinear_arith);
            }
        } else {
            assert(self.shelves@[s].height > 0);
            assert(self.shelves@[t].height > 0);
            if s < t {
                self.lemma_column_order(s, t);
            } else {
                self.lemma_column_order(t, s);
            }
        }
    }

    /// No two rectangles that are placed overlap, as long as no shelves
    /// were merged into one that had been merged away itself.
    pub proof fn lemma_placements_apart(&self, a: AllocId, b: AllocId)
        requires
            self.wf(),
            self.tiled(),
            self@.placements.contains_key(a),
            self@.placements.contains_key(b),
            a != b,
        ensures
            !self@.placements[a].overlaps(self@.placements[b]),
    {
        if a.primary() == b.primary() {
            self.see_tenant(a, -1);
            self.see_tenant(b, -1);
        } else {
            self.lemma_bins_apart(a, b);
        }
    }

    /// Every rectangle that is placed lies on the surface.
    pub proof fn lemma_placements_inside(&self, a: AllocId)
        requires
            self.wf(),
            self@.placements.contains_key(a),
        ensures
            self@.placements[a].within(Rectangle::surface(self@.size)),
            self@.seats(self.shelf_of(a), self.rank_of(a), a),
            self@.shelves[self.shelf_of(a)].bins[self.rank_of(a)].refcount > 0,
            self@.shelves[self.shelf_of(a)].bins[self.rank_of(a)].generation == a.generation(),
    {
        self.see_tenant(a, -1);
        let b = a.primary();
        let s = self.bins@[b].shelf as int;
        self.lemma_seat(s, self.rank@[b], -1);
        if self.bins@[b].refcount == 0 {
            self.tenants@[b].lemma_len0_is_empty();
        }
        let bw = self.shelves@[s].bin_width as int;
        let r = self.rank@[b];
        assert(0 <= r * bw) by (nonlinear_arith)
            requires
                0 <= r,
                0 <= bw,
        ;
    }

    /// With nothing placed, no shelf is left, and the whole height of the
    /// first column is available.
    pub proof fn lemma_drained(&self)
        requires
            self.wf(),
            self@.placements =~= Map::empty(),
        ensures
            self@.shelves.len() == 0,
            self@.current_column == 0,
            self@.available_height == self@.across(),
    {
        if self.shelves@.len() > 0 {
            let b = choose|b: int| #[trigger] self.tops_off(b);
            assert(self.bin_ok(b));
            let id = self.tenants@[b].choose();
            assert(self.tenants@[b].contains(id));
            assert(self.placed@.contains_key(id));
        }
    }

    /// As long as no shelves were merged into one that had been merged
    /// away itself, two shelves of one column that have a height lie one
    /// above the other.
    pub proof fn lemma_shelves_apart(&self, s: int, t: int)
        requires
            self.wf(),
            self.tiled(),
            0 <= s < t < self@.shelves.len(),
            self@.shelves[s].x == self@.shelves[t].x,
            self@.column_width >= 1,
            self@.shelves[s].height > 0,
            self@.shelves[t].height > 0,
        ensures
            self@.shelves[s].y + self@.shelves[s].height <= self@.shelves[t].y,
    {
        self.see_shelf(s, -1);
        self.see_shelf(t, -1);
        self.lemma_same_column(s, t);
        self.lemma_column_order(s, t);
        assert(self.shelves@[s].height > 0);
        assert(self.shelves@[t].height > 0);
    }

    /// The column of shelf `s`.
    pub closed spec fn column_of(&self, s: int) -> int {
        self.cols@[s]
    }

    /// Every shelf lies within one column, and the width of a column is a
    /// multiple of the alignment along the shelves.
    pub proof fn lemma_columns(&self, s: int)
        requires
            self.wf(),
            0 <= s < self@.shelves.len(),
        ensures
            0 <= self.column_of(s) < self@.num_columns,
            self@.shelves[s].x == self.column_of(s) * self@.column_width,
            self@.shelves[s].x + self@.column_width <= self@.along(),
            self@.shelves[s].bin_width <= self@.column_width,
            self@.column_width % self@.align_along() == 0,
            self@.column_width == BucketedView::column_share(
                self@.along(),
                self@.num_columns,
                self@.align_along(),
            ),
            0 <= self@.shelves[s].y,
            self@.shelves[s].y + self@.shelves[s].height <= self@.across(),
    {
        self.see_shelf(s, -1);
    }

    /// Each bin index is found in one place only.
    pub proof fn lemma_seat_unique(&self, s: int, r: int, t: int, q: int, id: AllocId)
        requires
            self.wf(),
            self@.seats(s, r, id),
            self@.seats(t, q, id),
        ensures
            s == t,
            r == q,
    {
        self.lemma_seat(s, r, -1);
        self.lemma_seat(t, q, -1);
    }

    /// Whether `id` can name a rectangle that is placed: its bin holds
    /// something and is of the generation of `id`. The rectangles of a bin
    /// are not told apart.
    pub fn is_allocated(&self, id: AllocId) -> (r: bool)
        requires
            self.wf(),
        ensures
            r == self@.may_hold(id),
            self@.placements.contains_key(id) ==> r,
    {
        let bin_index = id.primary_index();
        let ghost b = id.primary();
        proof {
            if self.placed@.contains_key(id) {
                self.see_tenant(id, -1);
                if self.bins@[b].refcount == 0 {
                    self.tenants@[b].lemma_len0_is_empty();
                }
            }
            if 0 <= b < self.bins@.len() {
                self.see_bin(b, -1);
                if self.rank@[b] >= 0 {
                    self.lemma_seat(self.bins@[b].shelf as int, self.rank@[b], -1);
                }
            }
            assert forall|s: int, k: int| #[trigger] self@.holds_in(s, k, id) implies 0 <= b
                < self.bins@.len() && self.bins@[b].generation == id.generation()
                && self.bins@[b].refcount > 0 by {
                self.lemma_seat(s, k, -1);
            }
        }
        let r = bin_index < self.bins.len() && self.bins[bin_index].generation
            == id.generation_bits() && self.bins[bin_index].refcount > 0;
        proof {
            if r {
                assert(self@.holds_in(self.bins@[b].shelf as int, self.rank@[b], id));
            }
        }
        r
    }

    /// With nothing placed, a request for the whole surface goes to a new
    /// shelf that covers it. This holds where the shelves are horizontal,
    /// the surface is one column, its size is a multiple of the alignment,
    /// and a bin index is left.
    pub proof fn lemma_refill(&self)
        requires
            self.wf(),
            self@.placements =~= Map::empty(),
            self@.num_columns == 1,
            self@.size.width as int % self@.alignment.width as int == 0,
            self@.size.height as int % self@.alignment.height as int == 0,
            !self@.vertical,
            self@.slots < MAX_BIN_COUNT,
        ensures
            self@.shelves.len() == 0,
            self@.normalized(self@.size) == Some((self@.along(), self@.across())),
            self@.prepared(self@.along(), self@.across()) matches Some(p) && p.1 == 0 && p.2 == 0
                && p.0.slot_rectangle(0, 0, self@.along()) == Rectangle::surface(self@.size),
    {
        let v = self@;
        if self.shelves@.len() > 0 {
            let b = choose|b: int| #[trigger] self.tops_off(b);
            assert(self.bin_ok(b));
            let id = self.tenants@[b].choose();
            assert(self.tenants@[b].contains(id));
            assert(self.placed@.contains_key(id));
        }
        assert(v.shelves =~= Seq::empty());
        let w = v.along();
        let h = v.across();
        lemma_aligned_up(v.size.width as int, v.alignment.width as int);
        lemma_aligned_up(v.size.height as int, v.alignment.height as int);
        lemma_bucket_height(h);
        let a = v.align_along();
        vstd::arithmetic::div_mod::lemma_div_basics(self.width as int);
        assert(self.width as int / 1 == self.width as int);
        assert(v.column_width == w);
        assert(v.normalized(v.size) == Some((w, h)));
        assert(v.search(w, h, v.can_add_shelf(w, h)) is None);
        assert(!v.needs_filler(h));
        assert(v.new_height(h) == h);
        let larger = if w > h {
            w
        } else {
            h
        };
        assert(v.column_width / larger <= 1) by {
            if w == larger {
                vstd::arithmetic::div_mod::lemma_div_basics(w);
            } else {
                vstd::arithmetic::div_mod::lemma_basic_div(w, larger);
            }
        }
        assert(v.new_count(w, h) == 1);
        assert(v.column_width / 1 == v.column_width);
        assert(v.new_bin_width(w, h) == w);
        assert(v.can_add_shelf(w, h));
        let p = v.with_shelf(w, h);
        assert(p.shelves.len() == 1);
        assert(p.shelves[0].bins.len() == 1);
        assert(0 * p.shelves[0].bin_width == 0) by (nonlinear_arith);
        assert(0 * v.column_width == 0) by (nonlinear_arith);
    }


    /// The stretches that the bins are cut into, for display: the part of
    /// each bin that was handed out, as one stretch, and the part that is
    /// left.
    pub fn regions(&self) -> (r: Vec<Region>)
        requires
            self.wf(),
        ensures
            r@ == self@.regions(),
    {
        let mut out: Vec<Region> = Vec::new();
        let ghost view = self@;
        let mut shelf_index: usize = 0;
        while shelf_index < self.shelves.len()
            invariant
                self.inv(-1),
                view == self@,
                shelf_index <= self.shelves@.len(),
                out@ + view.regions_from(shelf_index as int) == view.regions(),
            decreases self.shelves@.len() - shelf_index,
        {
            let ghost s = shelf_index as int;
            proof {
                self.see_shelf(s, -1);
                self.lemma_seat(s, 0, -1);
            }
            let shelf = &self.shelves[shelf_index];
            let ghost row = self.rows@[s];
            let ghost done = out@;
            let mut bin_index = shelf.first_bin;
            let ghost mut pos: int = row.len() - 1;
            while bin_index.0 != NO_BIN
                invariant
                    self.inv(-1),
                    view == self@,
                    s == shelf_index,
                    s < self.shelves@.len(),
                    *shelf == self.shelves@[s],
                    row == self.rows@[s],
                    row.len() >= 1,
                    -1 <= pos < row.len(),
                    bin_index.0 == (if pos >= 0 {
                        row[pos]
                    } else {
                        NO_BIN as int
                    }),
                    out@ + view.shelf_regions(s, pos + 1) == done + view.shelf_regions(
                        s,
                        row.len() as int,
                    ),
                decreases pos + 1,
            {
                proof {
                    self.lemma_seat(s, pos, -1);
                }
                let bin = &self.bins[bin_index.to_usize()];
                let used = shelf.bin_width - bin.free_space;
                let ghost before = out@;
                let (x0, y0) = convert_coordinates(self.flip_xy, bin.x, shelf.y);
                let (x1, y1) = convert_coordinates(
                    self.flip_xy,
                    bin.x + used,
                    shelf.y + shelf.height,
                );
                out.push(
                    Region {
                        rectangle: Rectangle {
                            min: Point { x: x0 as i32, y: y0 as i32 },
                            max: Point { x: x1 as i32, y: y1 as i32 },
                        },
                        allocated: true,
                    },
                );
                if bin.free_space > 0 {
                    let (x0, y0) = convert_coordinates(self.flip_xy, bin.x + used, shelf.y);
                    let (x1, y1) = convert_coordinates(
                        self.flip_xy,
                        bin.x + shelf.bin_width,
                        shelf.y + shelf.height,
                    );
                    out.push(
                        Region {
                            rectangle: Rectangle {
                                min: Point { x: x0 as i32, y: y0 as i32 },
                                max: Point { x: x1 as i32, y: y1 as i32 },
                            },
                            allocated: false,
                        },
                    );
                }
                proof {
                    assert(out@ =~= before + view.bin_regions(s, pos));
                    assert(view.shelf_regions(s, pos + 1) == view.bin_regions(s, pos)
                        + view.shelf_regions(s, pos));
                    assert(out@ + view.shelf_regions(s, pos) =~= before + view.shelf_regions(
                        s,
                        pos + 1,
                    ));
                    pos = pos - 1;
                    if pos >= 0 {
                        assert(0 <= row[pos] < self.bins@.len());
                    }
                }
                bin_index = bin.next;
            }
            proof {
                if pos >= 0 {
                    assert(0 <= row[pos] < self.bins@.len());
                }
                assert(view.shelf_regions(s, 0) =~= Seq::empty());
                assert(out@ =~= done + view.shelf_regions(s, row.len() as int));
                assert(out@ + view.regions_from(s + 1) =~= done + view.regions_from(s));
            }
            shelf_index += 1;
        }
        proof {
            assert(out@ =~= out@ + view.regions_from(shelf_index as int));
        }
        out
    }

}

} // verus!
