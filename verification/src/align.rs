//! Alignment utility: round a requested byte count up to a required boundary,
//! either the bump engine's fixed 8-byte default or an alignment the caller
//! supplies (such as the natural alignment of its value type).

use vstd::prelude::*;
use vstd::arithmetic::div_mod::{
    lemma_add_mod_noop, lemma_mod_division_less_than_divisor, lemma_mod_self_0, lemma_small_mod,
};

verus! {

/// The smallest multiple of `align` that is greater than or equal to `size`.
pub open spec fn spec_align_up(size: int, align: int) -> int
    recommends
        0 <= size,
        1 <= align,
{
    if size % align == 0 {
        size
    } else {
        size + (align - size % align)
    }
}

/// The aligned size is a multiple of the required alignment and lies within
/// one alignment step above the requested size.
pub proof fn lemma_align_up_bounds(size: int, align: int)
    requires
        0 <= size,
        1 <= align,
    ensures
        spec_align_up(size, align) % align == 0,
        size <= spec_align_up(size, align) < size + align,
{
    let rem = size % align;
    lemma_mod_division_less_than_divisor(size, align);
    if rem != 0 {
        lemma_add_mod_noop(size, align - rem, align);
        lemma_small_mod((align - rem) as nat, align as nat);
        lemma_mod_self_0(align);
    }
}

/// Alignment is idempotent: rounding an already rounded size changes nothing.
pub proof fn lemma_align_up_idempotent(size: int, align: int)
    requires
        0 <= size,
        1 <= align,
    ensures
        spec_align_up(spec_align_up(size, align), align) == spec_align_up(size, align),
{
    lemma_align_up_bounds(size, align);
}

/// Round `size` up to a multiple of `align` bytes.
pub fn align_up_to(size: i32, align: i32) -> (r: i32)
    requires
        0 <= size,
        1 <= align,
        size + align - 1 <= i32::MAX,
    ensures
        r == spec_align_up(size as int, align as int),
{
    let rem: i32 = size % align;
    proof {
        lemma_mod_division_less_than_divisor(size as int, align as int);
    }
    if rem == 0 {
        size
    } else {
        size + (align - rem)
    }
}

/// Round `size` up to the bump engine's fixed 8-byte default alignment.
pub fn align_up(size: i32) -> (r: i32)
    requires
        0 <= size,
        size + 7 <= i32::MAX,
    ensures
        r == spec_align_up(size as int, 8),
{
    align_up_to(size, 8)
}

} // verus!
