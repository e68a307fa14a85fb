//! Handles to placed rectangles, and the options of the allocators.

use vstd::prelude::*;
use crate::geometry::{Rectangle, Size};

verus! {

/// Opaque 32-bit handle to a placed rectangle.
///
/// From the lowest bit up it holds twelve bits of primary index, twelve
/// bits of item counter and eight bits of generation.
#[derive(Copy, Clone, Debug, PartialEq, Eq, Hash, Structural)]
pub struct AllocId(pub u32);

/// Number of values of the primary index, and of the item counter.
pub const FIELD_SPAN: u32 = 4096;

/// Weight of the generation field.
pub const GENERATION_UNIT: u32 = 0x100_0000;

impl AllocId {
    pub fn serialize(&self) -> (bytes: u32)
        ensures
            bytes == self.0,
    {
        self.0
    }

    pub fn deserialize(bytes: u32) -> (id: AllocId)
        ensures
            id == AllocId(bytes),
    {
        AllocId(bytes)
    }

    /// The primary index: the lowest twelve bits.
    pub open spec fn primary(self) -> int {
        self.0 as int % 4096
    }

    /// The item counter: the middle twelve bits.
    pub open spec fn counter(self) -> int {
        (self.0 as int / 4096) % 4096
    }

    /// The generation: the highest eight bits.
    pub open spec fn generation(self) -> int {
        self.0 as int / 0x100_0000
    }

    /// The handle with the given fields; the counter is taken modulo 4096.
    pub open spec fn pack(primary: int, counter: int, generation: int) -> AllocId {
        AllocId((primary + (counter % 4096) * 4096 + generation * 0x100_0000) as u32)
    }

    /// Packs the three fields into a handle.
    pub fn from_parts(primary: u16, counter: u16, generation: u8) -> (id: AllocId)
        requires
            primary < 4096,
        ensures
            id == AllocId::pack(primary as int, counter as int, generation as int),
            id.primary() == primary,
            id.counter() == counter as int % 4096,
            id.generation() == generation,
    {
        let p: u32 = primary as u32;
        let c: u32 = counter as u32;
        let g: u32 = generation as u32;
        let bits: u32 = (p & 0xfff) | ((c << 12) & 0xff_f000) | (g << 24);
        assert(bits == p + (c % 4096) * 4096 + g * 0x100_0000) by (bit_vector)
            requires
                p < 4096,
                c < 65536,
                g < 256,
                bits == (p & 0xfff) | ((c << 12) & 0xff_f000) | (g << 24),
        ;
        assert(bits % 4096 == p && (bits / 4096) % 4096 == c % 4096 && bits / 0x100_0000 == g)
            by (bit_vector)
            requires
                p < 4096,
                c < 65536,
                g < 256,
                bits == (p & 0xfff) | ((c << 12) & 0xff_f000) | (g << 24),
        ;
        AllocId(bits)
    }

    /// Reads the primary index back.
    pub fn primary_index(&self) -> (r: usize)
        ensures
            r == self.primary(),
            r < 4096,
    {
        let bits: u32 = self.0;
        let low: u32 = bits & 0xfff;
        assert(low == bits % 4096) by (bit_vector)
            requires
                low == bits & 0xfff,
        ;
        low as usize
    }

    /// Reads the generation back.
    pub fn generation_bits(&self) -> (r: u8)
        ensures
            r == self.generation(),
    {
        let bits: u32 = self.0;
        let high: u32 = (bits & 0xff00_0000) >> 24;
        assert(high == bits / 0x100_0000 && high < 256) by (bit_vector)
            requires
                high == (bits & 0xff00_0000) >> 24,
        ;
        high as u8
    }
}

/// Options to tweak the behavior of the atlas allocators.
#[derive(Copy, Clone, Debug, PartialEq, Eq, Hash, Structural)]
pub struct AllocatorOptions {
    /// Item sizes are rounded up to a multiple of this alignment.
    ///
    /// Default value: [1, 1] (no alignment).
    pub alignment: Size,
    /// Use vertical instead of horizontal shelves.
    ///
    /// Default value: false.
    pub vertical_shelves: bool,
    /// Number of columns that the bucketed allocator splits its surface
    /// into; the other allocator does not read it.
    ///
    /// Default value: 1.
    pub num_columns: i32,
}

impl AllocatorOptions {
    /// No alignment, horizontal shelves, a single column.
    pub open spec fn standard() -> AllocatorOptions {
        AllocatorOptions {
            alignment: Size { width: 1, height: 1 },
            vertical_shelves: false,
            num_columns: 1,
        }
    }
}

impl Default for AllocatorOptions {
    fn default() -> (options: Self)
        ensures
            options == AllocatorOptions::standard(),
    {
        AllocatorOptions {
            alignment: Size { width: 1, height: 1 },
            vertical_shelves: false,
            num_columns: 1,
        }
    }
}

/// A placed rectangle and the handle that gives it back.
#[derive(Copy, Clone, Debug, PartialEq, Eq, Structural)]
pub struct Allocation {
    pub id: AllocId,
    pub rectangle: Rectangle,
}

} // verus!
