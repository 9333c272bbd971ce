//! A worked example of a concrete flag-set type built on the library: nine
//! named flags over a 32-bit primitive, every operation delegated to the
//! generic algebra with this type's descriptor.

use vstd::prelude::*;
use vstd::assert_seqs_equal;

use crate::bitops::lemma_or_absorb;
use crate::bitops::low_mask;
use crate::bitops::within;
use crate::descriptor::FlagDef;
use crate::descriptor::FlagSetDescriptor;
use crate::descriptor::lookup;
use crate::descriptor::or_up_to;
use crate::iter::state_values;
use crate::iter::yields_from;
use crate::value::FlagsValue;

verus! {

/// The example's definition table: aliases, a multi-bit convenience flag,
/// and one flag that covers most of the primitive.
pub open spec fn ex_defs() -> Seq<(Seq<char>, u128)> {
    seq![
        ("Flag1"@, 512u128),
        ("Flag2"@, 4096u128),
        ("Flag3"@, 2u128),
        ("Flag4"@, 0xFFFF_FFFDu128),
        ("Flag5"@, 7u128),
        ("Flag6"@, 4608u128),
        ("Flag7"@, 514u128),
        ("Flag8"@, 18u128),
        ("Flag9"@, 1u128),
    ]
}

/// The all-ones value of the example's 32-bit primitive.
pub open spec fn ex_mask() -> u128 {
    0xFFFF_FFFFu128
}

/// The example's known bits; its definitions cover the whole primitive.
pub open spec fn ex_all() -> u128 {
    0xFFFF_FFFFu128
}

/// An example flags value.
#[derive(Debug, Clone, Copy, PartialEq, Eq, Structural)]
pub struct ExampleFlags {
    pub value: FlagsValue,
}

/// The example's descriptor yields the mask and known bits above.
proof fn lemma_example_descriptor(d: &FlagSetDescriptor)
    requires
        d.wf(),
        d.flags_seq() == ex_defs(),
        d.extra_valid_bits == 0xFFFF_FFFFu128,
        d.width == 32,
    ensures
        d.mask_spec() == ex_mask(),
        d.all_spec() == ex_all(),
{
    assert(low_mask(32) == 0xFFFF_FFFFu128) by (bit_vector);
    d.lemma_or_up_to_within(d.flags_seq().len() as int);
    lemma_or_absorb(0xFFFF_FFFFu128, or_up_to(d.flags_seq(), d.flags_seq().len() as int));
}

impl ExampleFlags {
    /// The example's descriptor, built afresh: nine definitions over a
    /// 32-bit primitive, every bit of which counts as known.
    pub fn descriptor() -> (d: FlagSetDescriptor)
        ensures
            d.wf(),
            d.flags_seq() == ex_defs(),
            d.extra_valid_bits == 0xFFFF_FFFFu128,
            d.width == 32,
            d.mask_spec() == ex_mask(),
            d.all_spec() == ex_all(),
    {
        let defs = vec![
            FlagDef::new("Flag1", 512),
            FlagDef::new("Flag2", 4096),
            FlagDef::new("Flag3", 2),
            FlagDef::new("Flag4", 0xFFFF_FFFD),
            FlagDef::new("Flag5", 7),
            FlagDef::new("Flag6", 4608),
            FlagDef::new("Flag7", 514),
            FlagDef::new("Flag8", 18),
            FlagDef::new("Flag9", 1),
        ];
        proof {
            assert(low_mask(32) == 0xFFFF_FFFFu128) by (bit_vector);
            assert(512u128 & 0xFFFF_FFFFu128 == 512u128 && 4096u128 & 0xFFFF_FFFFu128 == 4096u128
                && 2u128 & 0xFFFF_FFFFu128 == 2u128 && 0xFFFF_FFFDu128 & 0xFFFF_FFFFu128
                == 0xFFFF_FFFDu128 && 7u128 & 0xFFFF_FFFFu128 == 7u128 && 4608u128
                & 0xFFFF_FFFFu128 == 4608u128 && 514u128 & 0xFFFF_FFFFu128 == 514u128 && 18u128
                & 0xFFFF_FFFFu128 == 18u128 && 1u128 & 0xFFFF_FFFFu128 == 1u128
                && 0xFFFF_FFFFu128 & 0xFFFF_FFFFu128 == 0xFFFF_FFFFu128) by (bit_vector);
            assert forall|i: int| 0 <= i < defs@.len() implies within(
                #[trigger] defs@[i].bits,
                low_mask(32),
            ) by {
                if i == 0 {
                    assert(defs@[0].bits == 512);
                } else if i == 1 {
                    assert(defs@[1].bits == 4096);
                } else if i == 2 {
                    assert(defs@[2].bits == 2);
                } else if i == 3 {
                    assert(defs@[3].bits == 0xFFFF_FFFD);
                } else if i == 4 {
                    assert(defs@[4].bits == 7);
                } else if i == 5 {
                    assert(defs@[5].bits == 4608);
                } else if i == 6 {
                    assert(defs@[6].bits == 514);
                } else if i == 7 {
                    assert(defs@[7].bits == 18);
                } else {
                    assert(defs@[8].bits == 1);
                }
            }
        }
        let d = FlagSetDescriptor::new(defs, 0xFFFF_FFFF, 32);
        proof {
            assert_seqs_equal!(d.flags_seq() == ex_defs());
            lemma_example_descriptor(&d);
        }
        d
    }

    /// The raw stored bits, unmodified.
    pub fn bits(&self) -> (r: u128)
        ensures
            r == self.value.bits,
    {
        self.value.bits()
    }

    /// `Some` exactly when `raw` has no bits outside the known bits.
    pub fn from_bits(raw: u128) -> (r: Option<ExampleFlags>)
        requires
            raw & ex_mask() == raw,
        ensures
            r == if raw & ex_all() == raw {
                Some((ExampleFlags { value: (FlagsValue { bits: raw }) }))
            } else {
                None::<ExampleFlags>
            },
    {
        let d = Self::descriptor();
        match FlagsValue::from_bits(&d, raw) {
            Some(v) => Some(ExampleFlags { value: v }),
            None => None,
        }
    }

    /// The value of `raw` with any unknown bits unset.
    pub fn from_bits_truncate(raw: u128) -> (r: ExampleFlags)
        requires
            raw & ex_mask() == raw,
        ensures
            r.value.bits == raw & ex_all(),
    {
        let d = Self::descriptor();
        ExampleFlags { value: FlagsValue::from_bits_truncate(&d, raw) }
    }

    /// The value of exactly `raw`.
    pub fn from_bits_retain(raw: u128) -> (r: ExampleFlags)
        requires
            raw & ex_mask() == raw,
        ensures
            r.value.bits == raw,
    {
        ExampleFlags { value: (FlagsValue { bits: raw }) }
    }

    /// Exact, case-sensitive, first-match lookup of a flag name.
    pub fn from_flag_name(name: &str) -> (r: Option<ExampleFlags>)
        ensures
            r == match lookup(ex_defs(), name@) {
                Some(b) => Some((ExampleFlags { value: (FlagsValue { bits: b }) })),
                None => None::<ExampleFlags>,
            },
    {
        let d = Self::descriptor();
        match FlagsValue::from_flag_name(&d, name) {
            Some(v) => Some(ExampleFlags { value: v }),
            None => None,
        }
    }

    /// The value with all bits unset.
    pub fn empty() -> (r: ExampleFlags)
        ensures
            r.value.bits == 0,
    {
        ExampleFlags { value: FlagsValue::empty() }
    }

    /// Whether all bits are unset.
    pub fn is_empty(&self) -> (r: bool)
        ensures
            r == (self.value.bits == 0),
    {
        self.value.is_empty()
    }

    /// The value with every bit of the primitive set.
    pub fn all_bits() -> (r: ExampleFlags)
        ensures
            r.value.bits == ex_mask(),
    {
        let d = Self::descriptor();
        ExampleFlags { value: FlagsValue::all_bits(&d) }
    }

    /// Whether every bit of the primitive is set.
    pub fn is_all_bits(&self) -> (r: bool)
        ensures
            r == (self.value.bits == ex_mask()),
    {
        let d = Self::descriptor();
        self.value.is_all_bits(&d)
    }

    /// The value with every known bit set.
    pub fn all() -> (r: ExampleFlags)
        ensures
            r.value.bits == ex_all(),
    {
        let d = Self::descriptor();
        ExampleFlags { value: FlagsValue::all(&d) }
    }

    /// Whether every known bit is set in this value.
    pub fn is_all(&self) -> (r: bool)
        ensures
            r == (ex_all() | self.value.bits == self.value.bits),
    {
        let d = Self::descriptor();
        self.value.is_all(&d)
    }

    /// Whether any bit outside the known bits is set.
    pub fn contains_unknown_bits(&self) -> (r: bool)
        ensures
            r == (ex_all() & self.value.bits != self.value.bits),
    {
        let d = Self::descriptor();
        self.value.contains_unknown_bits(&d)
    }

    /// The value with any unknown bits unset.
    pub fn truncated(&self) -> (r: ExampleFlags)
        ensures
            r.value.bits == self.value.bits & ex_all(),
    {
        let d = Self::descriptor();
        ExampleFlags { value: self.value.truncated(&d) }
    }

    /// Unset any unknown bits, in place.
    pub fn truncate(&mut self)
        requires
            old(self).value.bits & ex_mask() == old(self).value.bits,
        ensures
            final(self).value.bits == old(self).value.bits & ex_all(),
    {
        let d = Self::descriptor();
        let mut v = self.value;
        v.truncate(&d);
        self.value = v;
    }

    /// Whether this value and `other` share any set bit.
    pub fn intersects(&self, other: ExampleFlags) -> (r: bool)
        ensures
            r == (self.value.bits & other.value.bits != 0),
    {
        self.value.intersects(other.value)
    }

    /// Whether every set bit of `other` is set in this value.
    pub fn contains(&self, other: ExampleFlags) -> (r: bool)
        ensures
            r == (self.value.bits & other.value.bits == other.value.bits),
    {
        self.value.contains(other.value)
    }

    /// The bitwise NOT within the primitive's width, not truncated.
    pub fn not(self) -> (r: ExampleFlags)
        requires
            self.value.bits & ex_mask() == self.value.bits,
        ensures
            r.value.bits == self.value.bits ^ ex_mask(),
    {
        let d = Self::descriptor();
        ExampleFlags { value: self.value.not(&d) }
    }

    /// The bitwise AND with `other`.
    pub fn and(self, other: ExampleFlags) -> (r: ExampleFlags)
        ensures
            r.value.bits == self.value.bits & other.value.bits,
    {
        ExampleFlags { value: self.value.and(other.value) }
    }

    /// The bitwise OR with `other`.
    pub fn or(self, other: ExampleFlags) -> (r: ExampleFlags)
        ensures
            r.value.bits == self.value.bits | other.value.bits,
    {
        ExampleFlags { value: self.value.or(other.value) }
    }

    /// The bitwise XOR with `other`.
    pub fn xor(self, other: ExampleFlags) -> (r: ExampleFlags)
        ensures
            r.value.bits == self.value.bits ^ other.value.bits,
    {
        ExampleFlags { value: self.value.xor(other.value) }
    }

    /// The intersection with `other`.
    pub fn intersection(self, other: ExampleFlags) -> (r: ExampleFlags)
        ensures
            r.value.bits == self.value.bits & other.value.bits,
    {
        self.and(other)
    }

    /// The union with `other`.
    pub fn union(self, other: ExampleFlags) -> (r: ExampleFlags)
        ensures
            r.value.bits == self.value.bits | other.value.bits,
    {
        self.or(other)
    }

    /// The bits set in this value and not in `other`, `other` untruncated.
    pub fn difference(self, other: ExampleFlags) -> (r: ExampleFlags)
        ensures
            r.value.bits == self.value.bits & !other.value.bits,
    {
        ExampleFlags { value: self.value.difference(other.value) }
    }

    /// The bits set in exactly one of this value and `other`.
    pub fn symmetric_difference(self, other: ExampleFlags) -> (r: ExampleFlags)
        ensures
            r.value.bits == self.value.bits ^ other.value.bits,
    {
        self.xor(other)
    }

    /// The bitwise NOT followed by truncation.
    pub fn complement(self) -> (r: ExampleFlags)
        requires
            self.value.bits & ex_mask() == self.value.bits,
        ensures
            r.value.bits == !self.value.bits & ex_all(),
    {
        let d = Self::descriptor();
        ExampleFlags { value: self.value.complement(&d) }
    }

    /// Set the bits of `other` in this value.
    pub fn set(&mut self, other: ExampleFlags)
        ensures
            final(self).value.bits == old(self).value.bits | other.value.bits,
    {
        let mut v = self.value;
        v.set(other.value);
        self.value = v;
    }

    /// Unset the bits of `other` in this value, `other` untruncated.
    pub fn unset(&mut self, other: ExampleFlags)
        ensures
            final(self).value.bits == old(self).value.bits & !other.value.bits,
    {
        let mut v = self.value;
        v.unset(other.value);
        self.value = v;
    }

    /// Toggle the bits of `other` in this value.
    pub fn toggle(&mut self, other: ExampleFlags)
        ensures
            final(self).value.bits == old(self).value.bits ^ other.value.bits,
    {
        let mut v = self.value;
        v.toggle(other.value);
        self.value = v;
    }

    /// The values of the decomposition, in yield order: one per contained,
    /// defined, named flag, then any leftover remainder, once, last.
    pub fn iter(&self) -> (r: Vec<FlagsValue>)
        ensures
            r@.len() == state_values(ex_defs(), 0, self.value.bits, self.value.bits).len(),
            forall|k: int|
                0 <= k < r@.len() ==> #[trigger] r@[k].bits == state_values(
                    ex_defs(),
                    0,
                    self.value.bits,
                    self.value.bits,
                )[k],
    {
        let d = Self::descriptor();
        let ghost vals = state_values(ex_defs(), 0, self.value.bits, self.value.bits);
        let mut it = self.value.iter(&d);
        let mut out: Vec<FlagsValue> = Vec::new();
        let mut done = false;
        proof {
            assert_seqs_equal!(vals.skip(0) == vals);
        }
        while !done
            invariant
                it.wf(),
                out@.len() <= vals.len(),
                !done ==> it.future() == vals.skip(out@.len() as int),
                done ==> out@.len() == vals.len(),
                forall|k: int| 0 <= k < out@.len() ==> #[trigger] out@[k].bits == vals[k],
            decreases (if done {
                0int
            } else {
                it.future().len() + 1int
            }),
        {
            let ghost m = out@.len() as int;
            match it.next() {
                Some(x) => {
                    proof {
                        assert(vals.skip(m)[0] == vals[m]);
                        assert_seqs_equal!(vals.skip(m).skip(1) == vals.skip(m + 1));
                    }
                    out.push(x);
                },
                None => {
                    proof {
                        assert(vals.skip(m).len() == 0);
                    }
                    done = true;
                },
            }
        }
        out
    }

    /// The named flags of the decomposition, in yield order, each with its
    /// name and full bit pattern; unattributed bits are not yielded.
    pub fn iter_names(&self) -> (r: Vec<(String, FlagsValue)>)
        ensures
            ({
                let idxs = yields_from(ex_defs(), 0, self.value.bits, self.value.bits);
                &&& r@.len() == idxs.len()
                &&& forall|k: int|
                    0 <= k < r@.len() ==> (#[trigger] r@[k]).0@ == ex_defs()[idxs[k]].0 && r@[
                        k].1.bits == ex_defs()[idxs[k]].1
            }),
    {
        let d = Self::descriptor();
        let ghost idxs = yields_from(ex_defs(), 0, self.value.bits, self.value.bits);
        let mut it = self.value.iter_names(&d);
        let mut out: Vec<(String, FlagsValue)> = Vec::new();
        let mut done = false;
        proof {
            assert_seqs_equal!(idxs.skip(0) == idxs);
        }
        while !done
            invariant
                it.wf(),
                it.flags.flags_seq() == ex_defs(),
                it.source == self.value,
                out@.len() <= idxs.len(),
                idxs == yields_from(ex_defs(), 0, self.value.bits, self.value.bits),
                !done ==> it.future() == idxs.skip(out@.len() as int),
                done ==> out@.len() == idxs.len(),
                forall|k: int|
                    0 <= k < out@.len() ==> (#[trigger] out@[k]).0@ == ex_defs()[idxs[k]].0 && out@[
                        k].1.bits == ex_defs()[idxs[k]].1,
            decreases (if done {
                0int
            } else {
                it.future().len() + 1int
            }),
        {
            let ghost m = out@.len() as int;
            match it.next() {
                Some(item) => {
                    proof {
                        assert(idxs.skip(m)[0] == idxs[m]);
                        assert_seqs_equal!(idxs.skip(m).skip(1) == idxs.skip(m + 1));
                    }
                    out.push(item);
                },
                None => {
                    proof {
                        assert(idxs.skip(m).len() == 0);
                    }
                    done = true;
                },
            }
        }
        out
    }
}

} // verus!
