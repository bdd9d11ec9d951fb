//! The base page size and address alignment.

use vstd::arithmetic::div_mod::{
    lemma_fundamental_div_mod, lemma_mod_add_multiples_vanish, lemma_mod_multiples_basic,
};
use vstd::prelude::*;

verus! {

/// Size in bytes of the smallest unit of physical memory that is handed out.
pub const BASE_PAGE_SIZE: usize = 0x1000;

/// Whether `address` is a multiple of `alignment`.
pub open spec fn is_aligned(address: int, alignment: int) -> bool {
    address % alignment == 0
}

/// The greatest multiple of `alignment` that is at most `address`.
pub open spec fn align_down_spec(address: int, alignment: int) -> int {
    address - address % alignment
}

/// The least multiple of `alignment` that is at least `address`.
pub open spec fn align_up_spec(address: int, alignment: int) -> int {
    if address % alignment == 0 {
        address
    } else {
        address - address % alignment + alignment
    }
}

/// `align_down_spec` yields a multiple of the alignment, less than one
/// alignment step below the address, and no multiple lies in between.
pub proof fn lemma_align_down(address: int, alignment: int)
    requires
        0 <= address,
        0 < alignment,
    ensures
        is_aligned(align_down_spec(address, alignment), alignment),
        0 <= align_down_spec(address, alignment) <= address,
        address < align_down_spec(address, alignment) + alignment,
        forall|other: int|
            is_aligned(other, alignment) && other <= address ==> other <= align_down_spec(
                address,
                alignment,
            ),
{
    let down = align_down_spec(address, alignment);
    lemma_fundamental_div_mod(address, alignment);
    assert(0 <= address % alignment < alignment) by (nonlinear_arith)
        requires
            0 < alignment,
    ;
    assert(down == alignment * (address / alignment));
    assert(alignment * (address / alignment) == (address / alignment) * alignment)
        by (nonlinear_arith);
    lemma_mod_multiples_basic(address / alignment, alignment);
    assert(0 <= down) by (nonlinear_arith)
        requires
            0 <= address,
            0 < alignment,
            down == alignment * (address / alignment),
    ;
    assert forall|other: int| is_aligned(other, alignment) && other <= address implies other
        <= down by {
        if down < other {
            lemma_multiples_apart(down, other, alignment);
        }
    }
}

/// `align_up_spec` yields a multiple of the alignment, less than one
/// alignment step above the address, and no multiple lies in between.
pub proof fn lemma_align_up(address: int, alignment: int)
    requires
        0 <= address,
        0 < alignment,
    ensures
        is_aligned(align_up_spec(address, alignment), alignment),
        address <= align_up_spec(address, alignment) < address + alignment,
        forall|other: int|
            is_aligned(other, alignment) && address <= other ==> align_up_spec(address, alignment)
                <= other,
{
    let up = align_up_spec(address, alignment);
    lemma_align_down(address, alignment);
    if address % alignment != 0 {
        lemma_mod_add_multiples_vanish(align_down_spec(address, alignment), alignment);
        assert(up == alignment + align_down_spec(address, alignment));
    }
    assert forall|other: int| is_aligned(other, alignment) && address <= other implies up
        <= other by {
        if other < up {
            lemma_multiples_apart(other, up, alignment);
        }
    }
}

/// Two multiples of `alignment` are equal or at least `alignment` apart.
pub proof fn lemma_multiples_apart(low: int, high: int, alignment: int)
    requires
        0 < alignment,
        is_aligned(low, alignment),
        is_aligned(high, alignment),
        low < high,
    ensures
        low + alignment <= high,
{
    lemma_fundamental_div_mod(low, alignment);
    lemma_fundamental_div_mod(high, alignment);
    let p = low / alignment;
    let q = high / alignment;
    assert(p < q) by (nonlinear_arith)
        requires
            0 < alignment,
            alignment * p < alignment * q,
    ;
    assert(alignment * p + alignment <= alignment * q) by (nonlinear_arith)
        requires
            0 < alignment,
            p + 1 <= q,
    ;
}

/// Rounds `address` down to a multiple of `alignment`.
pub fn align_down(address: usize, alignment: usize) -> (aligned: usize)
    requires
        alignment > 0,
    ensures
        aligned == align_down_spec(address as int, alignment as int),
{
    proof {
        lemma_align_down(address as int, alignment as int);
    }
    address - address % alignment
}

/// Rounds `address` up to a multiple of `alignment`, or returns `None` when
/// that multiple does not fit the address type.
pub fn align_up(address: usize, alignment: usize) -> (aligned: Option<usize>)
    requires
        alignment > 0,
    ensures
        match aligned {
            Some(up) => up == align_up_spec(address as int, alignment as int),
            None => align_up_spec(address as int, alignment as int) > usize::MAX,
        },
{
    proof {
        lemma_align_down(address as int, alignment as int);
    }
    let remainder: usize = address % alignment;
    if remainder == 0 {
        Some(address)
    } else {
        (address - remainder).checked_add(alignment)
    }
}

} // verus!
