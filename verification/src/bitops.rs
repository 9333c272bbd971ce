//! The bits primitive: a value of up to 128 bits held in a `u128`, cut to its
//! width by a mask, and the bitwise facts the rest of the crate rests on.

use vstd::prelude::*;

verus! {

/// The all-ones value of a bits primitive of the given width: the value whose
/// bit positions `0 .. width` are set.
pub open spec fn low_mask(width: u128) -> u128 {
    if width >= 128 {
        !0u128
    } else {
        ((1u128 << width) - 1) as u128
    }
}

/// A value `x` lies within a width when the mask of that width covers it.
pub open spec fn within(x: u128, m: u128) -> bool {
    x & m == x
}

/// The all-ones value of the width, computed.
pub fn mask_of_width(width: u32) -> (r: u128)
    requires
        1 <= width <= 128,
    ensures
        r == low_mask(width as u128),
{
    if width >= 128 {
        !0u128
    } else {
        proof {
            lemma_shift_at_least_one(width as u128);
        }
        (1u128 << width) - 1
    }
}

proof fn lemma_shift_at_least_one(w: u128)
    by (bit_vector)
    requires
        w < 128,
    ensures
        1u128 << w >= 1,
{
}

/// Zero is the identity of the union.
pub proof fn lemma_or_zero(x: u128)
    by (bit_vector)
    ensures
        x | 0 == x,
        0 | x == x,
{
}

/// The operations of the algebra stay within any mask that covers both
/// operands.
pub proof fn lemma_mask_closed(x: u128, y: u128, m: u128)
    by (bit_vector)
    requires
        x & m == x,
        y & m == y,
    ensures
        (x | y) & m == (x | y),
        (x & y) & m == (x & y),
        (x ^ y) & m == (x ^ y),
        (x & !y) & m == (x & !y),
{
}

/// Cutting to a mask twice is cutting once.
pub proof fn lemma_and_mask_idem(x: u128, m: u128)
    by (bit_vector)
    ensures
        (x & m) & m == x & m,
        (x & m) & x == x & m,
{
}

/// A mask covers itself.
pub proof fn lemma_mask_self(m: u128)
    by (bit_vector)
    ensures
        m & m == m,
{
}

/// Cutting to a value within a mask stays within the mask.
pub proof fn lemma_and_within(x: u128, a: u128, m: u128)
    by (bit_vector)
    requires
        a & m == a,
    ensures
        (x & a) & m == x & a,
{
}

/// A set of known bits within a mask is all set in the mask's cut to it.
pub proof fn lemma_all_of_mask(a: u128, m: u128)
    by (bit_vector)
    requires
        a & m == a,
    ensures
        a | (m & a) == m & a,
{
}

/// Zero is absorbing for the intersection.
pub proof fn lemma_and_zero(x: u128)
    by (bit_vector)
    ensures
        x & 0 == 0,
        0 & x == 0,
{
}

/// Uniting a covered value changes nothing.
pub proof fn lemma_or_absorb(r: u128, y: u128)
    by (bit_vector)
    requires
        y & r == y,
    ensures
        r | y == r,
        y | r == r,
{
}

/// Bits removed from a value within a mask stay within the mask.
pub proof fn lemma_diff_within(r: u128, f: u128, s: u128)
    by (bit_vector)
    requires
        r & s == r,
    ensures
        (r & !f) & s == r & !f,
{
}

/// Covering is transitive.
pub proof fn lemma_within_trans(a: u128, b: u128, c: u128)
    by (bit_vector)
    requires
        a & b == a,
        b & c == b,
    ensures
        a & c == a,
{
}

/// What is left of a value after removing bits still comes from the value.
pub proof fn lemma_diff_sub(r: u128, f: u128)
    by (bit_vector)
    ensures
        (r & !f) & r == r & !f,
{
}

/// One step of the decomposition's reconstruction: if the rest of the run
/// rebuilds what was left after a flag was removed, then the flag's full
/// pattern together with the rest rebuilds the whole.
pub proof fn lemma_reconstruct_step(f: u128, r: u128, y: u128, rp: u128)
    by (bit_vector)
    requires
        y | rp == (r & !f) | y,
    ensures
        (f | y) | rp == r | (f | y),
{
}

/// A value within a mask is at most the mask.
pub proof fn lemma_within_le(x: u128, m: u128)
    by (bit_vector)
    requires
        x & m == x,
    ensures
        x <= m,
{
}

/// Within a width, flipping against the width's mask is the bitwise NOT, as
/// far as a set of known bits inside that width can see.
pub proof fn lemma_flip_is_not(x: u128, m: u128, a: u128)
    by (bit_vector)
    requires
        a & m == a,
    ensures
        (x ^ m) & a == !x & a,
{
}

} // verus!
