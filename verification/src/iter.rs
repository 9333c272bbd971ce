//! The decomposition iterator: explaining a flags value as an ordered run of
//! named flags, in declared order, with one leftover remainder.

use vstd::prelude::*;
use vstd::assert_seqs_equal;

use crate::bitops::lemma_and_zero;
use crate::bitops::lemma_diff_sub;
use crate::bitops::lemma_diff_within;
use crate::bitops::lemma_within_trans;
use crate::bitops::lemma_mask_closed;
use crate::bitops::lemma_mask_self;
use crate::bitops::lemma_or_absorb;
use crate::bitops::lemma_or_zero;
use crate::bitops::lemma_reconstruct_step;
use crate::descriptor::FlagSetDescriptor;
use crate::value::FlagsValue;

verus! {

/// The indices of the definitions that the decomposition yields, run from
/// the state `(i, source, remaining)`: an entry is yielded when the source
/// fully contains it and it still has an unattributed bit; the run stops
/// short as soon as nothing is left to explain.
pub open spec fn yields_from(
    s: Seq<(Seq<char>, u128)>,
    i: int,
    source: u128,
    remaining: u128,
) -> Seq<int>
    decreases s.len() - i,
{
    if i < 0 || i >= s.len() || remaining == 0 {
        Seq::empty()
    } else {
        let f = s[i].1;
        if source & f == f && remaining & f != 0 {
            seq![i] + yields_from(s, i + 1, source, remaining & !f)
        } else {
            yields_from(s, i + 1, source, remaining)
        }
    }
}

/// The bits never attributed to a yielded definition by the run.
pub open spec fn remaining_after(
    s: Seq<(Seq<char>, u128)>,
    i: int,
    source: u128,
    remaining: u128,
) -> u128
    decreases s.len() - i,
{
    if i < 0 || i >= s.len() || remaining == 0 {
        remaining
    } else {
        let f = s[i].1;
        if source & f == f && remaining & f != 0 {
            remaining_after(s, i + 1, source, remaining & !f)
        } else {
            remaining_after(s, i + 1, source, remaining)
        }
    }
}

/// The union of a sequence of bits values.
pub open spec fn or_values(vs: Seq<u128>) -> u128
    decreases vs.len(),
{
    if vs.len() == 0 {
        0u128
    } else {
        vs[0] | or_values(vs.skip(1))
    }
}

/// The union of the definitions at the given indices.
pub open spec fn or_index_bits(s: Seq<(Seq<char>, u128)>, idxs: Seq<int>) -> u128
    decreases idxs.len(),
{
    if idxs.len() == 0 {
        0u128
    } else {
        s[idxs[0]].1 | or_index_bits(s, idxs.skip(1))
    }
}

/// The full sequence of bits values that the outer decomposition layer
/// yields from a state: one value per yielded named flag, then the leftover
/// remainder, once, if it is not empty.
pub open spec fn state_values(
    s: Seq<(Seq<char>, u128)>,
    i: int,
    source: u128,
    remaining: u128,
) -> Seq<u128> {
    let idxs = yields_from(s, i, source, remaining);
    let rem = remaining_after(s, i, source, remaining);
    idxs.map(|k: int, j: int| s[j].1) + if rem != 0 {
        seq![rem]
    } else {
        Seq::empty()
    }
}

/// A run that yields nothing leaves its remaining bits untouched.
pub proof fn lemma_exhausted_remaining(s: Seq<(Seq<char>, u128)>, i: int, source: u128, remaining: u128)
    requires
        yields_from(s, i, source, remaining).len() == 0,
    ensures
        remaining_after(s, i, source, remaining) == remaining,
    decreases s.len() - i,
{
    if i < 0 || i >= s.len() || remaining == 0 {
    } else {
        let f = s[i].1;
        if source & f == f && remaining & f != 0 {
            assert((seq![i] + yields_from(s, i + 1, source, remaining & !f)).len() > 0);
        } else {
            lemma_exhausted_remaining(s, i + 1, source, remaining);
        }
    }
}

/// Every index the run yields points into the table, at or after the cursor.
pub proof fn lemma_yields_bounds(s: Seq<(Seq<char>, u128)>, i: int, source: u128, remaining: u128)
    ensures
        forall|k: int|
            0 <= k < yields_from(s, i, source, remaining).len() ==> i <= #[trigger] yields_from(
                s,
                i,
                source,
                remaining,
            )[k] < s.len(),
    decreases s.len() - i,
{
    let y = yields_from(s, i, source, remaining);
    if i < 0 || i >= s.len() || remaining == 0 {
    } else {
        let f = s[i].1;
        if source & f == f && remaining & f != 0 {
            lemma_yields_bounds(s, i + 1, source, remaining & !f);
            let tail = yields_from(s, i + 1, source, remaining & !f);
            assert forall|k: int| 0 <= k < y.len() implies i <= #[trigger] y[k] < s.len() by {
                if k == 0 {
                    assert(y[0] == i);
                } else {
                    assert(y[k] == tail[k - 1]);
                }
            }
        } else {
            lemma_yields_bounds(s, i + 1, source, remaining);
            let tail = yields_from(s, i + 1, source, remaining);
            assert forall|k: int| 0 <= k < y.len() implies i <= #[trigger] y[k] < s.len() by {
                assert(y[k] == tail[k]);
            }
        }
    }
}

/// The final remainder comes from the remaining bits it started with.
pub proof fn lemma_remaining_within(
    s: Seq<(Seq<char>, u128)>,
    i: int,
    source: u128,
    remaining: u128,
)
    ensures
        remaining_after(s, i, source, remaining) & remaining == remaining_after(
            s,
            i,
            source,
            remaining,
        ),
    decreases s.len() - i,
{
    if i < 0 || i >= s.len() || remaining == 0 {
        lemma_mask_self(remaining);
    } else {
        let f = s[i].1;
        if source & f == f && remaining & f != 0 {
            lemma_remaining_within(s, i + 1, source, remaining & !f);
            lemma_diff_sub(remaining, f);
            lemma_within_trans(
                remaining_after(s, i + 1, source, remaining & !f),
                remaining & !f,
                remaining,
            );
        } else {
            lemma_remaining_within(s, i + 1, source, remaining);
        }
    }
}

/// The heart of the round-trip law: from any state whose remaining bits come
/// from the source, the union of the yielded definitions and the final
/// remainder rebuilds the remaining bits, up to bits the yields re-cover; and
/// every yielded bit comes from the source.
proof fn lemma_reconstruct(s: Seq<(Seq<char>, u128)>, i: int, source: u128, remaining: u128)
    requires
        remaining & source == remaining,
    ensures
        ({
            let y = or_index_bits(s, yields_from(s, i, source, remaining));
            &&& y | remaining_after(s, i, source, remaining) == remaining | y
            &&& y & source == y
        }),
    decreases s.len() - i,
{
    let y = or_index_bits(s, yields_from(s, i, source, remaining));
    if i < 0 || i >= s.len() || remaining == 0 {
        lemma_or_zero(remaining);
        lemma_and_zero(source);
    } else {
        let f = s[i].1;
        if source & f == f && remaining & f != 0 {
            let rem2 = remaining & !f;
            assert(f & source == f) by (bit_vector)
                requires
                    source & f == f,
            ;
            lemma_diff_within(remaining, f, source);
            lemma_reconstruct(s, i + 1, source, rem2);
            let tail = yields_from(s, i + 1, source, rem2);
            let yp = or_index_bits(s, tail);
            let rp = remaining_after(s, i + 1, source, rem2);
            assert_seqs_equal!((seq![i] + tail).skip(1) == tail);
            assert(y == f | yp);
            lemma_reconstruct_step(f, remaining, yp, rp);
            lemma_mask_closed(f, yp, source);
        } else {
            lemma_reconstruct(s, i + 1, source, remaining);
        }
    }
}

/// The union over mapped indices is the union over the index list.
pub proof fn lemma_or_values_of_index_bits(s: Seq<(Seq<char>, u128)>, idxs: Seq<int>)
    ensures
        or_values(idxs.map(|k: int, j: int| s[j].1)) == or_index_bits(s, idxs),
    decreases idxs.len(),
{
    let m = idxs.map(|k: int, j: int| s[j].1);
    if idxs.len() == 0 {
        assert(m.len() == 0);
    } else {
        lemma_or_values_of_index_bits(s, idxs.skip(1));
        assert_seqs_equal!(m.skip(1) == idxs.skip(1).map(|k: int, j: int| s[j].1));
        assert(m[0] == s[idxs[0]].1);
    }
}

/// Appending one value to a union folds it in at the end.
proof fn lemma_or_values_push(vs: Seq<u128>, r: u128)
    ensures
        or_values(vs + seq![r]) == or_values(vs) | r,
    decreases vs.len(),
{
    let x = vs + seq![r];
    if vs.len() == 0 {
        assert(x.len() == 1);
        assert(x[0] == r);
        assert_seqs_equal!(x.skip(1) == Seq::<u128>::empty());
        assert(or_values(x.skip(1)) == 0);
        assert(or_values(x) == r | 0);
        assert(or_values(vs) == 0);
        lemma_or_zero(r);
    } else {
        lemma_or_values_push(vs.skip(1), r);
        assert_seqs_equal!(x.skip(1) == vs.skip(1) + seq![r]);
        assert(x[0] == vs[0]);
        assert(or_values(x) == vs[0] | (or_values(vs.skip(1)) | r));
        let a = vs[0];
        let b = or_values(vs.skip(1));
        assert(a | (b | r) == (a | b) | r) by (bit_vector);
    }
}

/// The round-trip law of the decomposition: folding union over the values
/// the outer layer yields, the final remainder included, reproduces the
/// source value exactly.
pub proof fn lemma_decomposition_round_trip(d: &FlagSetDescriptor, v: FlagsValue)
    ensures
        or_values(state_values(d.flags_seq(), 0, v.bits, v.bits)) == v.bits,
{
    let s = d.flags_seq();
    let idxs = yields_from(s, 0, v.bits, v.bits);
    let rem = remaining_after(s, 0, v.bits, v.bits);
    let y = or_index_bits(s, idxs);
    lemma_mask_self(v.bits);
    lemma_reconstruct(s, 0, v.bits, v.bits);
    lemma_or_absorb(v.bits, y);
    lemma_or_values_of_index_bits(s, idxs);
    let m = idxs.map(|k: int, j: int| s[j].1);
    if rem != 0 {
        lemma_or_values_push(m, rem);
    } else {
        assert_seqs_equal!(m + Seq::<u128>::empty() == m);
        lemma_or_zero(y);
    }
}

/// Whether bit position `b` is set in `x`.
pub open spec fn has_bit(x: u128, b: u128) -> bool {
    b < 128 && (x >> b) & 1 == 1
}

/// The position of the lowest set bit, for a witness that a non-zero value
/// has one.
spec fn low_bit_index(x: u128) -> u128
    decreases x,
    when true
    via low_bit_index_decreases
{
    if x & 1 == 1 || x < 2 {
        0
    } else {
        (1 + low_bit_index(x >> 1)) as u128
    }
}

#[via_fn]
proof fn low_bit_index_decreases(x: u128) {
    assert(x >= 2 ==> (x >> 1) < x) by (bit_vector);
}

/// A non-zero value has its lowest bit set.
proof fn lemma_low_bit(x: u128)
    requires
        x != 0,
    ensures
        has_bit(x, low_bit_index(x)),
    decreases x,
{
    if x & 1 == 1 {
        assert((x >> 0u128) & 1 == 1) by (bit_vector)
            requires
                x & 1 == 1,
        ;
    } else {
        assert(x >= 2 && x >> 1 != 0 && (x >> 1) < x) by (bit_vector)
            requires
                x != 0 && x & 1 != 1,
        ;
        lemma_low_bit(x >> 1);
        let k = low_bit_index(x >> 1);
        assert((((x >> 1) >> k) & 1 == 1 && k < 128) ==> ((x >> ((k + 1) as u128)) & 1 == 1 && k
            + 1 < 128)) by (bit_vector);
    }
}

/// A set bit of a union comes from one of its sides, and either way stays.
proof fn lemma_bit_or(y: u128, z: u128, b: u128)
    by (bit_vector)
    ensures
        ((y | z) >> b) & 1 == 1 <==> ((y >> b) & 1 == 1 || (z >> b) & 1 == 1),
{
}

/// A set bit survives the removal of a flag exactly when the flag lacks it.
proof fn lemma_bit_diff(r: u128, f: u128, b: u128)
    by (bit_vector)
    ensures
        ((r & !f) >> b) & 1 == 1 <==> ((r >> b) & 1 == 1 && !((f >> b) & 1 == 1)),
{
}

/// Two values sharing a set bit intersect.
proof fn lemma_bit_shared(r: u128, f: u128, b: u128)
    by (bit_vector)
    requires
        (r >> b) & 1 == 1,
        (f >> b) & 1 == 1,
    ensures
        r & f != 0,
{
}

/// Each listed definition lies within the union of the listed definitions.
proof fn lemma_elem_within_or(s: Seq<(Seq<char>, u128)>, ids: Seq<int>, t: int)
    requires
        0 <= t < ids.len(),
    ensures
        s[ids[t]].1 & or_index_bits(s, ids) == s[ids[t]].1,
    decreases ids.len(),
{
    let f = s[ids[t]].1;
    let h = s[ids[0]].1;
    let rest = or_index_bits(s, ids.skip(1));
    if t == 0 {
        assert(f & (f | rest) == f) by (bit_vector);
    } else {
        assert(ids.skip(1)[t - 1] == ids[t]);
        lemma_elem_within_or(s, ids.skip(1), t - 1);
        assert(f & rest == f ==> f & (h | rest) == f) by (bit_vector);
    }
}

/// A set bit of a union of definitions is set in one of them.
proof fn lemma_bit_in_or(s: Seq<(Seq<char>, u128)>, ids: Seq<int>, b: u128)
    requires
        has_bit(or_index_bits(s, ids), b),
    ensures
        exists|t: int| 0 <= t < ids.len() && has_bit(#[trigger] s[ids[t]].1, b),
    decreases ids.len(),
{
    if ids.len() == 0 {
        assert((0u128 >> b) & 1 == 0) by (bit_vector);
    } else {
        let h = s[ids[0]].1;
        let rest = or_index_bits(s, ids.skip(1));
        lemma_bit_or(h, rest, b);
        if has_bit(h, b) {
            assert(0 <= 0 < ids.len() && has_bit(s[ids[0]].1, b));
        } else {
            lemma_bit_in_or(s, ids.skip(1), b);
            let t = choose|t: int|
                0 <= t < ids.skip(1).len() && has_bit(#[trigger] s[ids.skip(1)[t]].1, b);
            assert(ids.skip(1)[t] == ids[t + 1]);
            assert(0 <= t + 1 < ids.len() && has_bit(s[ids[t + 1]].1, b));
        }
    }
}

/// A run whose every remaining bit some upcoming, fully contained
/// definition explains attributes them all: nothing is left over.
proof fn lemma_covered_consumed(s: Seq<(Seq<char>, u128)>, i: int, source: u128, r: u128)
    requires
        0 <= i,
        r & source == r,
        forall|b: u128|
            has_bit(r, b) ==> exists|j: int|
                i <= j < s.len() && (#[trigger] s[j].1) & source == s[j].1 && has_bit(s[j].1, b),
    ensures
        remaining_after(s, i, source, r) == 0,
    decreases s.len() - i,
{
    if r == 0 {
    } else if i >= s.len() {
        lemma_low_bit(r);
        assert(has_bit(r, low_bit_index(r)));
        assert(false);
    } else {
        let f = s[i].1;
        if source & f == f && r & f != 0 {
            let r2 = r & !f;
            lemma_diff_within(r, f, source);
            assert forall|b: u128| has_bit(r2, b) implies exists|j: int|
                i + 1 <= j < s.len() && (#[trigger] s[j].1) & source == s[j].1 && has_bit(
                    s[j].1,
                    b,
                ) by {
                lemma_bit_diff(r, f, b);
                assert(has_bit(r, b));
                let j = choose|j: int|
                    i <= j < s.len() && (#[trigger] s[j].1) & source == s[j].1 && has_bit(
                        s[j].1,
                        b,
                    );
                assert(j != i);
            }
            lemma_covered_consumed(s, i + 1, source, r2);
        } else {
            assert forall|b: u128| has_bit(r, b) implies exists|j: int|
                i + 1 <= j < s.len() && (#[trigger] s[j].1) & source == s[j].1 && has_bit(
                    s[j].1,
                    b,
                ) by {
                let j = choose|j: int|
                    i <= j < s.len() && (#[trigger] s[j].1) & source == s[j].1 && has_bit(
                        s[j].1,
                        b,
                    );
                if j == i {
                    lemma_bit_shared(r, f, b);
                    assert(f & source == f ==> source & f == f) by (bit_vector);
                    assert(false);
                }
            }
            lemma_covered_consumed(s, i + 1, source, r);
        }
    }
}

/// A value that is a union of defined flags is explained in full: its
/// decomposition yields definitions whose union is the value itself, and
/// leaves no remainder.
pub proof fn lemma_union_of_flags_decomposes(s: Seq<(Seq<char>, u128)>, ids: Seq<int>)
    requires
        forall|t: int| 0 <= t < ids.len() ==> 0 <= #[trigger] ids[t] < s.len(),
    ensures
        ({
            let u = or_index_bits(s, ids);
            &&& remaining_after(s, 0, u, u) == 0
            &&& or_index_bits(s, yields_from(s, 0, u, u)) == u
        }),
{
    let u = or_index_bits(s, ids);
    lemma_mask_self(u);
    assert forall|b: u128| has_bit(u, b) implies exists|j: int|
        0 <= j < s.len() && (#[trigger] s[j].1) & u == s[j].1 && has_bit(s[j].1, b) by {
        lemma_bit_in_or(s, ids, b);
        let t = choose|t: int| 0 <= t < ids.len() && has_bit(#[trigger] s[ids[t]].1, b);
        lemma_elem_within_or(s, ids, t);
        assert(0 <= ids[t] < s.len() && s[ids[t]].1 & u == s[ids[t]].1 && has_bit(s[ids[t]].1, b));
    }
    lemma_covered_consumed(s, 0, u, u);
    lemma_reconstruct(s, 0, u, u);
    let y = or_index_bits(s, yields_from(s, 0, u, u));
    lemma_or_zero(y);
    lemma_or_absorb(u, y);
}

/// An iterator over the named flags that explain a value.
///
/// Yielded entries correspond to contained, defined, named flags, each with
/// its full bit pattern; bits never attributed to one stay in `remaining`.
pub struct IterNames<'a> {
    pub flags: &'a FlagSetDescriptor,
    pub index: usize,
    pub source: FlagsValue,
    pub remaining: FlagsValue,
}

impl<'a> IterNames<'a> {
    pub open spec fn wf(&self) -> bool {
        self.index <= self.flags.defs@.len()
    }

    /// The indices this iterator will still yield.
    pub open spec fn future(&self) -> Seq<int> {
        yields_from(
            self.flags.flags_seq(),
            self.index as int,
            self.source.bits,
            self.remaining.bits,
        )
    }

    /// The bits this iterator will never attribute to a named flag.
    pub open spec fn final_remaining(&self) -> u128 {
        remaining_after(
            self.flags.flags_seq(),
            self.index as int,
            self.source.bits,
            self.remaining.bits,
        )
    }

    pub fn new(d: &'a FlagSetDescriptor, flags: &FlagsValue) -> (r: IterNames<'a>)
        ensures
            r.flags == d,
            r.index == 0,
            r.source == *flags,
            r.remaining == *flags,
            r.wf(),
    {
        IterNames { flags: d, index: 0, source: *flags, remaining: *flags }
    }

    /// The bits not yet attributed to a yielded flag; once the iterator is
    /// done, the bits that no contained, defined, named flag explains.
    pub fn remaining(&self) -> (r: FlagsValue)
        ensures
            r == self.remaining,
    {
        self.remaining
    }

    /// The next contained, defined, named flag with an unattributed bit, in
    /// declared order; its full bit pattern leaves `remaining`.
    pub fn next(&mut self) -> (r: Option<(String, FlagsValue)>)
        requires
            old(self).wf(),
        ensures
            final(self).wf(),
            final(self).flags == old(self).flags,
            final(self).source == old(self).source,
            match r {
                None => {
                    &&& old(self).future() == Seq::<int>::empty()
                    &&& final(self).remaining == old(self).remaining
                    &&& final(self).future() == Seq::<int>::empty()
                },
                Some(item) => {
                    let s = old(self).flags.flags_seq();
                    let j = old(self).future()[0];
                    &&& old(self).future().len() > 0
                    &&& item.0@ == s[j].0
                    &&& item.1.bits == s[j].1
                    &&& final(self).remaining.bits == old(self).remaining.bits & !s[j].1
                    &&& final(self).future() == old(self).future().skip(1)
                    &&& final(self).final_remaining() == old(self).final_remaining()
                },
            },
    {
        loop
            invariant
                self.wf(),
                self.flags == old(self).flags,
                self.source == old(self).source,
                self.remaining == old(self).remaining,
                self.future() == old(self).future(),
                self.final_remaining() == old(self).final_remaining(),
            decreases self.flags.defs@.len() - self.index,
        {
            let fl: &FlagSetDescriptor = self.flags;
            if self.index >= fl.defs.len() {
                return None;
            }
            if self.remaining.bits == 0 {
                return None;
            }
            let idx = self.index;
            proof {
                assert(fl.flags_seq()[idx as int] == (fl.defs@[idx as int].name@, fl.defs@[
                    idx as int].bits));
            }
            let f = fl.defs[idx].bits;
            self.index = idx + 1;
            if self.source.bits & f == f && self.remaining.bits & f != 0 {
                let tail = Ghost(
                    yields_from(
                        fl.flags_seq(),
                        idx + 1,
                        self.source.bits,
                        self.remaining.bits & !f,
                    ),
                );
                proof {
                    assert_seqs_equal!((seq![idx as int] + tail@).skip(1) == tail@);
                }
                self.remaining = FlagsValue { bits: self.remaining.bits & !f };
                return Some((fl.defs[idx].name.clone(), FlagsValue { bits: f }));
            }
        }
    }
}

/// An iterator over the flags values that together rebuild a source value:
/// the named flags that explain it first, then, once, any leftover remainder.
pub struct Iter<'a> {
    pub inner: IterNames<'a>,
    pub done: bool,
}

impl<'a> Iter<'a> {
    pub open spec fn wf(&self) -> bool {
        self.inner.wf()
    }

    /// The bits values this iterator will still yield.
    pub open spec fn future(&self) -> Seq<u128> {
        if self.done {
            Seq::empty()
        } else {
            state_values(
                self.inner.flags.flags_seq(),
                self.inner.index as int,
                self.inner.source.bits,
                self.inner.remaining.bits,
            )
        }
    }

    pub fn new(d: &'a FlagSetDescriptor, flags: &FlagsValue) -> (r: Iter<'a>)
        ensures
            r.inner.flags == d,
            r.wf(),
            r.future() == state_values(d.flags_seq(), 0, flags.bits, flags.bits),
    {
        Iter { inner: IterNames::new(d, flags), done: false }
    }

    /// The next value of the decomposition: a named flag's full pattern, or,
    /// last and once, the non-empty remainder.
    pub fn next(&mut self) -> (r: Option<FlagsValue>)
        requires
            old(self).wf(),
        ensures
            final(self).wf(),
            final(self).inner.flags == old(self).inner.flags,
            match r {
                None => {
                    &&& old(self).future() == Seq::<u128>::empty()
                    &&& final(self).future() == Seq::<u128>::empty()
                },
                Some(v) => {
                    &&& old(self).future().len() > 0
                    &&& v.bits == old(self).future()[0]
                    &&& final(self).future() == old(self).future().skip(1)
                },
            },
    {
        if self.done {
            return None;
        }
        let ghost s = self.inner.flags.flags_seq();
        let ghost i0 = self.inner.index as int;
        let ghost src0 = self.inner.source.bits;
        let ghost r0 = self.inner.remaining.bits;
        let ghost idxs0 = self.inner.future();
        let ghost rem0 = self.inner.final_remaining();
        let ghost vals0 = self.future();
        match self.inner.next() {
            Some(item) => {
                proof {
                    let idxs1 = self.inner.future();
                    let m0 = idxs0.map(|k: int, j: int| s[j].1);
                    let m1 = idxs1.map(|k: int, j: int| s[j].1);
                    assert(m0.len() > 0);
                    assert(vals0[0] == m0[0]);
                    assert(m0[0] == s[idxs0[0]].1);
                    assert_seqs_equal!(self.future() == vals0.skip(1), k => {
                        if k < m1.len() {
                            assert(self.future()[k] == m1[k]);
                            assert(m1[k] == s[idxs1[k]].1);
                            assert(idxs1[k] == idxs0[k + 1]);
                            assert(vals0[k + 1] == m0[k + 1]);
                        } else {
                            assert(self.future()[k] == rem0);
                            assert(vals0[k + 1] == rem0);
                        }
                    });
                }
                Some(item.1)
            },
            None => {
                self.done = true;
                proof {
                    lemma_exhausted_remaining(s, i0, src0, r0);
                    assert(rem0 == r0);
                    assert(idxs0.map(|k: int, j: int| s[j].1).len() == 0);
                }
                if self.inner.remaining.bits != 0 {
                    proof {
                        assert(vals0 == idxs0.map(|k: int, j: int| s[j].1) + seq![rem0]);
                        assert(vals0[0] == rem0);
                        assert_seqs_equal!(vals0.skip(1) == Seq::<u128>::empty());
                    }
                    Some(self.inner.remaining)
                } else {
                    proof {
                        assert_seqs_equal!(vals0 == Seq::<u128>::empty());
                    }
                    None
                }
            },
        }
    }
}

impl FlagsValue {
    /// Yield the contained flags values: one per contained, defined, named
    /// flag, then any unknown or unattributed bits together, once, last.
    pub fn iter<'a>(&self, d: &'a FlagSetDescriptor) -> (r: Iter<'a>)
        ensures
            r.inner.flags == d,
            r.wf(),
            r.future() == state_values(d.flags_seq(), 0, self.bits, self.bits),
    {
        Iter::new(d, self)
    }

    /// Yield the contained, defined, named flags with their names; bits not
    /// attributed to one stay with the iterator's `remaining`.
    pub fn iter_names<'a>(&self, d: &'a FlagSetDescriptor) -> (r: IterNames<'a>)
        ensures
            r.flags == d,
            r.index == 0,
            r.source == *self,
            r.remaining == *self,
            r.wf(),
    {
        IterNames::new(d, self)
    }
}

} // verus!
