//! Rounding of requested sizes and the exchange of axes for vertical shelves.

use vstd::prelude::*;

verus! {

/// The smallest multiple of `alignment` that is not below `size`.
pub open spec fn aligned_up(size: int, alignment: int) -> int
    recommends
        alignment > 0,
{
    if size % alignment == 0 {
        size
    } else {
        size + alignment - size % alignment
    }
}

/// `aligned_up` yields a multiple of the alignment, at least the size and
/// less than one alignment step above it.
pub proof fn lemma_aligned_up(size: int, alignment: int)
    requires
        alignment > 0,
    ensures
        aligned_up(size, alignment) % alignment == 0,
        size <= aligned_up(size, alignment) < size + alignment,
        size > 0 ==> aligned_up(size, alignment) >= alignment,
        size % alignment == 0 ==> aligned_up(size, alignment) == size,
{
    let r = size % alignment;
    assert(0 <= r < alignment);
    if r != 0 {
        assert((size + alignment - r) % alignment == 0) by (nonlinear_arith)
            requires
                r == size % alignment,
                alignment > 0,
        ;
        assert(size > 0 ==> size + alignment - r >= alignment) by (nonlinear_arith)
            requires
                r == size % alignment,
                alignment > 0,
        ;
    } else {
        assert(size > 0 ==> size >= alignment) by (nonlinear_arith)
            requires
                0 == size % alignment,
                alignment > 0,
        ;
    }
}

/// Sums and differences of multiples of `m` are multiples of `m`.
pub proof fn lemma_multiples(a: int, b: int, m: int)
    requires
        m > 0,
        a % m == 0,
        b % m == 0,
    ensures
        (a + b) % m == 0,
        (a - b) % m == 0,
{
    vstd::arithmetic::div_mod::lemma_add_mod_noop(a, b, m);
    vstd::arithmetic::div_mod::lemma_sub_mod_noop(a, b, m);
    vstd::arithmetic::div_mod::lemma_small_mod(0, m as nat);
}

/// A multiple of a multiple of `p` is a multiple of `p`.
pub proof fn lemma_multiple_of_multiple(k: int, m: int, p: int)
    requires
        p > 0,
        m % p == 0,
    ensures
        (k * m) % p == 0,
{
    let q = m / p;
    vstd::arithmetic::div_mod::lemma_fundamental_div_mod(m, p);
    assert(k * m == (k * q) * p) by (nonlinear_arith)
        requires
            m == p * q,
    ;
    vstd::arithmetic::div_mod::lemma_mod_multiples_basic(k * q, p);
}

/// What is left of `x` after its remainder by `a` is taken off is a
/// multiple of `a` between zero and `x`.
pub proof fn lemma_rounded_down(x: int, a: int)
    requires
        x >= 0,
        a > 0,
    ensures
        0 <= x - x % a <= x,
        (x - x % a) % a == 0,
{
    vstd::arithmetic::div_mod::lemma_fundamental_div_mod(x, a);
    vstd::arithmetic::div_mod::lemma_mod_multiples_basic(x / a, a);
    vstd::arithmetic::mul::lemma_mul_is_commutative(a, x / a);
    if x < a {
        vstd::arithmetic::div_mod::lemma_small_mod(x as nat, a as nat);
    }
}

/// `count` shares of `total`, each rounded down, fit in `total`.
pub proof fn lemma_shares_fit(total: int, count: int, each: int, r: int)
    requires
        total >= 0,
        count >= 1,
        0 <= each <= total / count,
        0 <= r < count,
    ensures
        0 <= r * each,
        (r + 1) * each <= total,
        (r + 1) * each == r * each + each,
{
    vstd::arithmetic::div_mod::lemma_fundamental_div_mod(total, count);
    let share = total / count;
    assert((r + 1) * each <= count * share) by (nonlinear_arith)
        requires
            0 <= each <= share,
            0 <= r < count,
    ;
    assert(0 <= r * each) by (nonlinear_arith)
        requires
            0 <= each,
            0 <= r,
    ;
    assert((r + 1) * each == r * each + each) by (nonlinear_arith);
}

/// A multiple of eight is a multiple of every divisor of eight.
pub proof fn lemma_divisor_of_eight(value: int, divisor: int)
    requires
        divisor >= 1,
        8int % divisor == 0,
        value % 8 == 0,
    ensures
        value % divisor == 0,
{
    if divisor > 8 {
        vstd::arithmetic::div_mod::lemma_small_mod(8, divisor as nat);
    } else if divisor == 1 {
        assert(value % 1 == 0);
    } else if divisor == 2 {
        assert(value % 2 == 0);
    } else if divisor == 3 {
        assert(8int % 3 == 2);
    } else if divisor == 4 {
        assert(value % 4 == 0);
    } else if divisor == 5 {
        assert(8int % 5 == 3);
    } else if divisor == 6 {
        assert(8int % 6 == 2);
    } else if divisor == 7 {
        assert(8int % 7 == 1);
    } else {
        assert(divisor == 8);
    }
}

/// Rounding up never passes the alignment itself or the size plus it.
pub proof fn lemma_aligned_up_bound(size: int, alignment: int)
    requires
        alignment > 0,
        size >= 0,
    ensures
        aligned_up(size, alignment) <= if alignment > size { alignment } else { 2 * size },
{
    if alignment > size {
        vstd::arithmetic::div_mod::lemma_small_mod(size as nat, alignment as nat);
    } else {
        lemma_aligned_up(size, alignment);
    }
}

/// Rounds `size` up to a multiple of `alignment`, in place.
pub fn adjust_size(alignment: i32, size: &mut i32)
    requires
        alignment > 0,
        *old(size) >= 0,
        aligned_up(*old(size) as int, alignment as int) <= i32::MAX,
    ensures
        *final(size) == aligned_up(*old(size) as int, alignment as int),
{
    let rem = *size % alignment;
    if rem > 0 {
        *size += alignment - rem;
    }
}

/// Exchanges the two coordinates when shelves run vertically.
pub fn convert_coordinates(flip_xy: bool, x: u16, y: u16) -> (r: (u16, u16))
    ensures
        r == flipped(flip_xy, x, y),
{
    if flip_xy {
        (y, x)
    } else {
        (x, y)
    }
}

/// The pair, exchanged when `flip_xy` is set.
pub open spec fn flipped(flip_xy: bool, x: u16, y: u16) -> (u16, u16) {
    if flip_xy {
        (y, x)
    } else {
        (x, y)
    }
}

/// The step to which shelf heights of this magnitude are rounded.
pub open spec fn height_step(size: int) -> int {
    if size < 32 {
        8
    } else if size < 128 {
        16
    } else if size < 512 {
        32
    } else {
        64
    }
}

/// The height of the shelf that an item of height `size` asks for: `size`
/// rounded up to its step.
pub open spec fn bucket_height(size: int) -> int {
    aligned_up(size, height_step(size))
}

/// A bucketed height is a multiple of eight that is at least the height
/// it was made from and less than 64 above it.
pub proof fn lemma_bucket_height(size: int)
    requires
        0 <= size,
    ensures
        bucket_height(size) % 8 == 0,
        size <= bucket_height(size) < size + 64,
        size > 0 ==> bucket_height(size) >= 8,
{
    let step = height_step(size);
    lemma_aligned_up(size, step);
    let b = bucket_height(size);
    assert(b % 8 == 0) by (nonlinear_arith)
        requires
            b % step == 0,
            step == 8 || step == 16 || step == 32 || step == 64,
    ;
}

/// Rounds a height up to the shelf height of its bucket.
pub fn shelf_height(size: u16) -> (r: u16)
    requires
        bucket_height(size as int) <= u16::MAX,
    ensures
        r == bucket_height(size as int),
{
    let alignment: u16 = if size < 32 {
        8
    } else if size < 128 {
        16
    } else if size < 512 {
        32
    } else {
        64
    };
    let rem: u16 = size % alignment;
    let mut size = size;
    if rem > 0 {
        size += alignment - rem;
    }
    size
}

} // verus!
