//! The flag-set descriptor: an immutable, ordered table of named flag
//! definitions over a bits primitive of a chosen width, plus a mask of extra
//! bits that are known without being named.

use vstd::prelude::*;

use crate::bitops::low_mask;
use crate::bitops::within;
use crate::bitops::lemma_mask_closed;

verus! {

/// One named flag definition: a name and the bit pattern it stands for.
///
/// Definitions may alias each other's bits, cover several bits, or cover
/// none; declaration order in the table is meaningful.
pub struct FlagDef {
    pub name: String,
    pub bits: u128,
}

impl FlagDef {
    pub fn new(name: &str, bits: u128) -> (r: FlagDef)
        ensures
            r.name@ == name@,
            r.bits == bits,
    {
        FlagDef { name: name.to_owned(), bits }
    }
}

/// The descriptor of one flag-set type: its table of definitions in declared
/// order, the extra bits treated as known though unnamed, and the width of
/// the underlying bits primitive.
pub struct FlagSetDescriptor {
    pub defs: Vec<FlagDef>,
    pub extra_valid_bits: u128,
    pub width: u32,
}

/// The union of the bit patterns of the first `n` definitions.
pub open spec fn or_up_to(s: Seq<(Seq<char>, u128)>, n: int) -> u128
    decreases n,
{
    if n <= 0 {
        0u128
    } else {
        or_up_to(s, n - 1) | s[n - 1].1
    }
}

/// First-match lookup of a name in the table, from position `i` on.
pub open spec fn lookup_from(s: Seq<(Seq<char>, u128)>, i: int, name: Seq<char>) -> Option<u128>
    decreases s.len() - i,
{
    if i >= s.len() {
        None
    } else if s[i].0 == name {
        Some(s[i].1)
    } else {
        lookup_from(s, i + 1, name)
    }
}

/// Exact, case-sensitive, first-match lookup; the empty name never matches.
pub open spec fn lookup(s: Seq<(Seq<char>, u128)>, name: Seq<char>) -> Option<u128> {
    if name.len() == 0 {
        None
    } else {
        lookup_from(s, 0, name)
    }
}

impl FlagSetDescriptor {
    /// The table as a sequence of (name, bits) pairs.
    pub open spec fn flags_seq(&self) -> Seq<(Seq<char>, u128)> {
        self.defs@.map(|i: int, d: FlagDef| (d.name@, d.bits))
    }

    /// The all-ones value of the descriptor's width.
    pub open spec fn mask_spec(&self) -> u128 {
        low_mask(self.width as u128)
    }

    /// Every definition and the extra valid bits lie within the width.
    pub open spec fn wf(&self) -> bool {
        &&& 1 <= self.width <= 128
        &&& forall|i: int|
            0 <= i < self.defs@.len() ==> within(#[trigger] self.defs@[i].bits, self.mask_spec())
        &&& within(self.extra_valid_bits, self.mask_spec())
    }

    /// The known bits: the union of every definition's bits and the extra
    /// valid bits.
    pub open spec fn all_spec(&self) -> u128 {
        or_up_to(self.flags_seq(), self.flags_seq().len() as int) | self.extra_valid_bits
    }

    pub fn new(defs: Vec<FlagDef>, extra_valid_bits: u128, width: u32) -> (r: FlagSetDescriptor)
        requires
            1 <= width <= 128,
            forall|i: int|
                0 <= i < defs@.len() ==> within(#[trigger] defs@[i].bits, low_mask(width as u128)),
            within(extra_valid_bits, low_mask(width as u128)),
        ensures
            r == (FlagSetDescriptor { defs, extra_valid_bits, width }),
            r.wf(),
    {
        FlagSetDescriptor { defs, extra_valid_bits, width }
    }

    /// A partial union of definitions stays within the width.
    pub proof fn lemma_or_up_to_within(&self, n: int)
        requires
            self.wf(),
            n <= self.flags_seq().len(),
        ensures
            within(or_up_to(self.flags_seq(), n), self.mask_spec()),
        decreases n,
    {
        if n <= 0 {
            assert(0u128 & self.mask_spec() == 0) by (bit_vector);
        } else {
            self.lemma_or_up_to_within(n - 1);
            lemma_mask_closed(
                or_up_to(self.flags_seq(), n - 1),
                self.flags_seq()[n - 1].1,
                self.mask_spec(),
            );
        }
    }

    /// The known bits lie within the width.
    pub proof fn lemma_all_within(&self)
        requires
            self.wf(),
        ensures
            within(self.all_spec(), self.mask_spec()),
    {
        self.lemma_or_up_to_within(self.flags_seq().len() as int);
        lemma_mask_closed(
            or_up_to(self.flags_seq(), self.flags_seq().len() as int),
            self.extra_valid_bits,
            self.mask_spec(),
        );
    }
}

} // verus!
