//! The flags value algebra: membership, set operations and truncation over a
//! bits value read against a flag-set descriptor.

use vstd::prelude::*;

use crate::bitops::lemma_all_of_mask;
use crate::bitops::lemma_and_mask_idem;
use crate::bitops::lemma_and_within;
use crate::bitops::lemma_flip_is_not;
use crate::bitops::lemma_mask_closed;
use crate::bitops::lemma_mask_self;
use crate::bitops::mask_of_width;
use crate::bitops::within;
use crate::chars::str_eq;
use crate::descriptor::FlagSetDescriptor;
use crate::descriptor::lookup;
use crate::descriptor::lookup_from;
use crate::descriptor::or_up_to;

verus! {

/// A flags value: a bits value paired, by convention, with the descriptor it
/// is read against. Copied by value; every mutating operation replaces the
/// whole value.
#[derive(Debug, Clone, Copy, PartialEq, Eq, Structural)]
pub struct FlagsValue {
    pub bits: u128,
}

impl FlagsValue {
    /// A value fits a descriptor when its bits lie within the width.
    pub open spec fn valid(&self, d: &FlagSetDescriptor) -> bool {
        within(self.bits, d.mask_spec())
    }

    /// The raw stored bits, unmodified.
    pub fn bits(&self) -> (r: u128)
        ensures
            r == self.bits,
    {
        self.bits
    }

    /// The value with all bits unset.
    pub fn empty() -> (r: FlagsValue)
        ensures
            r.bits == 0,
    {
        FlagsValue { bits: 0 }
    }

    /// Whether all bits are unset.
    pub fn is_empty(&self) -> (r: bool)
        ensures
            r == (self.bits == 0),
    {
        self.bits == 0
    }

    /// The value with every bit of the primitive set, known or not.
    pub fn all_bits(d: &FlagSetDescriptor) -> (r: FlagsValue)
        requires
            d.wf(),
        ensures
            r.bits == d.mask_spec(),
            r.valid(d),
    {
        let r = FlagsValue { bits: mask_of_width(d.width) };
        proof {
            lemma_mask_self(d.mask_spec());
        }
        r
    }

    /// Whether every bit of the primitive is set.
    pub fn is_all_bits(&self, d: &FlagSetDescriptor) -> (r: bool)
        requires
            d.wf(),
        ensures
            r == (self.bits == d.mask_spec()),
    {
        self.bits == mask_of_width(d.width)
    }

    /// The value with every known bit set: the union of every definition's
    /// bits and the extra valid bits.
    pub fn all(d: &FlagSetDescriptor) -> (r: FlagsValue)
        requires
            d.wf(),
        ensures
            r.bits == d.all_spec(),
            r.valid(d),
    {
        let n = d.defs.len();
        let mut acc: u128 = 0;
        let mut i: usize = 0;
        while i < n
            invariant
                i <= n,
                n == d.defs@.len(),
                acc == or_up_to(d.flags_seq(), i as int),
            decreases n - i,
        {
            assert(d.flags_seq()[i as int].1 == d.defs@[i as int].bits);
            acc = acc | d.defs[i].bits;
            i = i + 1;
        }
        let r = FlagsValue { bits: acc | d.extra_valid_bits };
        proof {
            d.lemma_all_within();
        }
        r
    }

    /// `Some` exactly when `raw` has no bits outside the known bits.
    pub fn from_bits(d: &FlagSetDescriptor, raw: u128) -> (r: Option<FlagsValue>)
        requires
            d.wf(),
            within(raw, d.mask_spec()),
        ensures
            r == if raw & d.all_spec() == raw {
                Some((FlagsValue { bits: raw }))
            } else {
                None::<FlagsValue>
            },
    {
        let truncated = Self::from_bits_truncate(d, raw);
        if truncated.bits == raw {
            Some(truncated)
        } else {
            None
        }
    }

    /// The value of `raw` with any unknown bits unset.
    pub fn from_bits_truncate(d: &FlagSetDescriptor, raw: u128) -> (r: FlagsValue)
        requires
            d.wf(),
            within(raw, d.mask_spec()),
        ensures
            r.bits == raw & d.all_spec(),
            r.valid(d),
    {
        let a = Self::all(d);
        let r = FlagsValue { bits: raw & a.bits };
        proof {
            lemma_mask_closed(raw, a.bits, d.mask_spec());
        }
        r
    }

    /// The value of exactly `raw`, unknown bits kept: the explicit escape
    /// hatch, not validated against the known bits.
    pub fn from_bits_retain(d: &FlagSetDescriptor, raw: u128) -> (r: FlagsValue)
        requires
            d.wf(),
            within(raw, d.mask_spec()),
        ensures
            r.bits == raw,
            r.valid(d),
    {
        FlagsValue { bits: raw }
    }

    /// Exact, case-sensitive, first-match lookup of a flag name in declared
    /// order; the empty name never matches.
    pub fn from_flag_name(d: &FlagSetDescriptor, name: &str) -> (r: Option<FlagsValue>)
        requires
            d.wf(),
        ensures
            r == match lookup(d.flags_seq(), name@) {
                Some(b) => Some((FlagsValue { bits: b })),
                None => None::<FlagsValue>,
            },
    {
        if name.is_empty() {
            return None;
        }
        let n = d.defs.len();
        let mut i: usize = 0;
        while i < n
            invariant
                i <= n,
                n == d.defs@.len(),
                name@.len() != 0,
                lookup_from(d.flags_seq(), 0, name@) == lookup_from(d.flags_seq(), i as int, name@),
            decreases n - i,
        {
            assert(d.flags_seq()[i as int] == (d.defs@[i as int].name@, d.defs@[i as int].bits));
            if str_eq(name, d.defs[i].name.as_str()) {
                return Some(FlagsValue { bits: d.defs[i].bits });
            }
            i = i + 1;
        }
        None
    }

    /// Whether every known bit is set in this value; unknown bits may be set
    /// as well.
    pub fn is_all(&self, d: &FlagSetDescriptor) -> (r: bool)
        requires
            d.wf(),
        ensures
            r == (d.all_spec() | self.bits == self.bits),
    {
        let a = Self::all(d);
        a.bits | self.bits == self.bits
    }

    /// Whether any bit outside the known bits is set.
    pub fn contains_unknown_bits(&self, d: &FlagSetDescriptor) -> (r: bool)
        requires
            d.wf(),
        ensures
            r == (d.all_spec() & self.bits != self.bits),
    {
        let a = Self::all(d);
        a.bits & self.bits != self.bits
    }

    /// The value with any unknown bits unset.
    pub fn truncated(&self, d: &FlagSetDescriptor) -> (r: FlagsValue)
        requires
            d.wf(),
        ensures
            r.bits == self.bits & d.all_spec(),
            r.valid(d),
    {
        let a = Self::all(d);
        let r = FlagsValue { bits: self.bits & a.bits };
        proof {
            lemma_and_within(self.bits, a.bits, d.mask_spec());
        }
        r
    }

    /// Unset any unknown bits, in place.
    pub fn truncate(&mut self, d: &FlagSetDescriptor)
        requires
            d.wf(),
            old(self).valid(d),
        ensures
            final(self).bits == old(self).bits & d.all_spec(),
            final(self).valid(d),
    {
        *self = Self::from_bits_truncate(d, self.bits);
    }

    /// Whether this value and `other` share any set bit. A zero-bit flag
    /// intersects nothing.
    pub fn intersects(&self, other: FlagsValue) -> (r: bool)
        ensures
            r == (self.bits & other.bits != 0),
    {
        self.bits & other.bits != 0
    }

    /// Whether every set bit of `other` is set in this value. A zero-bit flag
    /// is contained in everything.
    pub fn contains(&self, other: FlagsValue) -> (r: bool)
        ensures
            r == (self.bits & other.bits == other.bits),
    {
        self.bits & other.bits == other.bits
    }

    /// The bitwise NOT within the primitive's width, unknown bits kept: not
    /// truncated, unlike `complement`.
    pub fn not(self, d: &FlagSetDescriptor) -> (r: FlagsValue)
        requires
            d.wf(),
            self.valid(d),
        ensures
            r.bits == self.bits ^ d.mask_spec(),
            r.valid(d),
    {
        let m = mask_of_width(d.width);
        let x = self.bits;
        let r = FlagsValue { bits: x ^ m };
        proof {
            assert((x ^ m) & m == x ^ m) by (bit_vector)
                requires
                    x & m == x,
            ;
        }
        r
    }

    /// The bitwise AND with `other`.
    pub fn and(self, other: FlagsValue) -> (r: FlagsValue)
        ensures
            r.bits == self.bits & other.bits,
    {
        FlagsValue { bits: self.bits & other.bits }
    }

    /// The bitwise OR with `other`.
    pub fn or(self, other: FlagsValue) -> (r: FlagsValue)
        ensures
            r.bits == self.bits | other.bits,
    {
        FlagsValue { bits: self.bits | other.bits }
    }

    /// The bitwise XOR with `other`.
    pub fn xor(self, other: FlagsValue) -> (r: FlagsValue)
        ensures
            r.bits == self.bits ^ other.bits,
    {
        FlagsValue { bits: self.bits ^ other.bits }
    }

    /// The intersection with `other`: the bits set in both.
    pub fn intersection(self, other: FlagsValue) -> (r: FlagsValue)
        ensures
            r.bits == self.bits & other.bits,
    {
        self.and(other)
    }

    /// The union with `other`: the bits set in either.
    pub fn union(self, other: FlagsValue) -> (r: FlagsValue)
        ensures
            r.bits == self.bits | other.bits,
    {
        self.or(other)
    }

    /// The bits set in this value and not in `other`. `other` is not
    /// truncated first, so this differs from an AND with the complement
    /// whenever `other` carries unknown bits.
    pub fn difference(self, other: FlagsValue) -> (r: FlagsValue)
        ensures
            r.bits == self.bits & !other.bits,
    {
        FlagsValue { bits: self.bits & !other.bits }
    }

    /// The symmetric difference with `other`: the bits set in exactly one.
    pub fn symmetric_difference(self, other: FlagsValue) -> (r: FlagsValue)
        ensures
            r.bits == self.bits ^ other.bits,
    {
        self.xor(other)
    }

    /// The bitwise NOT followed by truncation: only known bits survive.
    pub fn complement(self, d: &FlagSetDescriptor) -> (r: FlagsValue)
        requires
            d.wf(),
            self.valid(d),
        ensures
            r.bits == !self.bits & d.all_spec(),
            r.valid(d),
    {
        let r = self.not(d).truncated(d);
        proof {
            d.lemma_all_within();
            lemma_flip_is_not(self.bits, d.mask_spec(), d.all_spec());
        }
        r
    }

    /// Set the bits of `other` in this value.
    pub fn set(&mut self, other: FlagsValue)
        ensures
            final(self).bits == old(self).bits | other.bits,
    {
        *self = self.union(other);
    }

    /// Unset the bits of `other` in this value. As with `difference`, `other`
    /// is not truncated first.
    pub fn unset(&mut self, other: FlagsValue)
        ensures
            final(self).bits == old(self).bits & !other.bits,
    {
        *self = self.difference(other);
    }

    /// Toggle the bits of `other` in this value.
    pub fn toggle(&mut self, other: FlagsValue)
        ensures
            final(self).bits == old(self).bits ^ other.bits,
    {
        *self = self.symmetric_difference(other);
    }
}

/// Truncation is idempotent: truncating a truncated value changes nothing,
/// and the truncation of the all-bits value still has every known bit set.
pub proof fn lemma_truncation_idempotence(d: &FlagSetDescriptor, v: FlagsValue)
    requires
        d.wf(),
    ensures
        (v.bits & d.all_spec()) & d.all_spec() == v.bits & d.all_spec(),
        d.all_spec() | (d.mask_spec() & d.all_spec()) == d.mask_spec() & d.all_spec(),
{
    lemma_and_mask_idem(v.bits, d.all_spec());
    d.lemma_all_within();
    lemma_all_of_mask(d.all_spec(), d.mask_spec());
}

/// A zero-bit flag is contained in every value and intersects none.
pub proof fn lemma_zero_bit_flag(v: FlagsValue, z: FlagsValue)
    requires
        z.bits == 0,
    ensures
        v.bits & z.bits == z.bits,
        !(v.bits & z.bits != 0),
{
    let b = v.bits;
    assert(b & 0 == 0) by (bit_vector);
}

} // verus!
