//! The canonical text form, writing side: names of the decomposition joined
//! by `" | "`, with the leftover remainder as one trailing hexadecimal
//! token.

use vstd::prelude::*;
use vstd::assert_seqs_equal;

use crate::descriptor::FlagSetDescriptor;
use crate::hex::render_base;
use crate::hex::render_digits;
use crate::hex::render_fixed_base;
use crate::hex::render_fixed_digits;
use crate::iter::IterNames;
use crate::iter::remaining_after;
use crate::iter::yields_from;
use crate::value::FlagsValue;

verus! {

/// The separator between rendered tokens.
pub open spec fn sep() -> Seq<char> {
    seq![' ', '|', ' ']
}

/// The tokens joined by the separator.
pub open spec fn fmt_items(items: Seq<Seq<char>>) -> Seq<char>
    decreases items.len(),
{
    if items.len() == 0 {
        Seq::empty()
    } else if items.len() == 1 {
        items[0]
    } else {
        items[0] + sep() + fmt_items(items.skip(1))
    }
}

/// The trailing remainder token: `0x` and the uppercase hexadecimal digits.
pub open spec fn hex_item(rem: u128) -> Seq<char> {
    seq!['0', 'x'] + render_base(rem, 16, true)
}

/// The names of the flags the decomposition of `v` yields, in order.
pub open spec fn yielded_names(s: Seq<(Seq<char>, u128)>, v: u128) -> Seq<Seq<char>> {
    yields_from(s, 0, v, v).map(|k: int, j: int| s[j].0)
}

/// The tokens of the retaining text form of `v`: the yielded names, then
/// the remainder as a hexadecimal token if it is not empty.
pub open spec fn items_of(s: Seq<(Seq<char>, u128)>, v: u128) -> Seq<Seq<char>> {
    yielded_names(s, v) + if remaining_after(s, 0, v, v) != 0 {
        seq![hex_item(remaining_after(s, 0, v, v))]
    } else {
        Seq::empty()
    }
}

/// Appending one token folds it onto the joined text after one separator.
pub proof fn lemma_fmt_items_push(items: Seq<Seq<char>>, x: Seq<char>)
    ensures
        fmt_items(items.push(x)) == if items.len() == 0 {
            x
        } else {
            fmt_items(items) + sep() + x
        },
    decreases items.len(),
{
    let p = items.push(x);
    if items.len() == 0 {
        assert(p.len() == 1);
        assert(p[0] == x);
    } else if items.len() == 1 {
        assert(p.len() == 2);
        assert(p[0] == items[0]);
        assert_seqs_equal!(p.skip(1) == seq![x]);
        assert(fmt_items(p.skip(1)) == x);
    } else {
        lemma_fmt_items_push(items.skip(1), x);
        assert(p[0] == items[0]);
        assert_seqs_equal!(p.skip(1) == items.skip(1).push(x));
        assert(fmt_items(p) == items[0] + sep() + (fmt_items(items.skip(1)) + sep() + x));
        assert_seqs_equal!(
            items[0] + sep() + (fmt_items(items.skip(1)) + sep() + x)
                == (items[0] + sep() + fmt_items(items.skip(1))) + sep() + x);
    }
}

/// Write the named part of the decomposition of `v`: the joined names, a
/// flag telling whether there were none, and the remainder value.
fn write_named(d: &FlagSetDescriptor, v: &FlagsValue) -> (r: (String, bool, FlagsValue))
    ensures
        r.0@ == fmt_items(yielded_names(d.flags_seq(), v.bits)),
        r.1 == (yielded_names(d.flags_seq(), v.bits).len() == 0),
        r.2.bits == remaining_after(d.flags_seq(), 0, v.bits, v.bits),
{
    let ghost s = d.flags_seq();
    let ghost full = yields_from(s, 0, v.bits, v.bits);
    let ghost names = yielded_names(s, v.bits);
    let mut it = IterNames::new(d, v);
    let mut out = String::new();
    let mut first = true;
    let mut done = false;
    let ghost mut m: int = 0;
    proof {
        assert_seqs_equal!(full.skip(0) == full);
    }
    while !done
        invariant
            it.wf(),
            it.flags == d,
            it.source == *v,
            s == d.flags_seq(),
            names == yielded_names(s, v.bits),
            full == yields_from(s, 0, v.bits, v.bits),
            0 <= m <= full.len(),
            !done ==> it.future() == full.skip(m),
            !done ==> it.final_remaining() == remaining_after(s, 0, v.bits, v.bits),
            out@ == fmt_items(full.take(m).map(|k: int, j: int| s[j].0)),
            first == (m == 0),
            done ==> m == full.len() && it.remaining.bits == remaining_after(
                s,
                0,
                v.bits,
                v.bits,
            ),
        decreases (if done {
            0int
        } else {
            it.future().len() + 1int
        }),
    {
        let ghost pre = it;
        match it.next() {
            Some(item) => {
                proof {
                    assert(pre.future()[0] == full.skip(m)[0]);
                    assert(full.skip(m)[0] == full[m]);
                    assert_seqs_equal!(pre.future().skip(1) == full.skip(m + 1));
                }
                if first {
                    proof {
                        assert_seqs_equal!(
                            full.take(0).map(|k: int, j: int| s[j].0)
                                == Seq::<Seq<char>>::empty());
                    }
                    out.append(item.0.as_str());
                } else {
                    proof {
                        reveal_strlit(" | ");
                        assert(" | "@ == sep());
                    }
                    out.append(" | ");
                    out.append(item.0.as_str());
                }
                proof {
                    let before = full.take(m).map(|k: int, j: int| s[j].0);
                    lemma_fmt_items_push(before, item.0@);
                    assert_seqs_equal!(
                        full.take(m + 1).map(|k: int, j: int| s[j].0)
                            == before.push(item.0@));
                    m = m + 1;
                }
                first = false;
            },
            None => {
                proof {
                    assert(full.skip(m).len() == 0);
                    assert(m == full.len());
                    crate::iter::lemma_exhausted_remaining(
                        s,
                        pre.index as int,
                        pre.source.bits,
                        pre.remaining.bits,
                    );
                }
                done = true;
            },
        }
    }
    proof {
        assert_seqs_equal!(full.take(full.len() as int) == full);
        assert(names == full.map(|k: int, j: int| s[j].0));
    }
    let rem = it.remaining();
    (out, first, rem)
}

/// The retaining text form: each yielded flag's name in order, joined by
/// `" | "`, then the non-empty remainder as one uppercase hexadecimal token;
/// the empty value renders as the empty string.
pub fn to_writer(d: &FlagSetDescriptor, v: &FlagsValue) -> (r: String)
    ensures
        r@ == fmt_items(items_of(d.flags_seq(), v.bits)),
{
    let ghost s = d.flags_seq();
    let ghost names = yielded_names(s, v.bits);
    let (mut out, first, rem) = write_named(d, v);
    if rem.bits() != 0 {
        if !first {
            proof {
                reveal_strlit(" | ");
                assert(" | "@ == sep());
            }
            out.append(" | ");
        }
        proof {
            reveal_strlit("0x");
            assert("0x"@ == seq!['0', 'x']);
        }
        out.append("0x");
        let digits = render_digits(rem.bits(), 16, true);
        out.append(digits.as_str());
        proof {
            lemma_fmt_items_push(names, hex_item(rem.bits));
            assert_seqs_equal!(items_of(s, v.bits) == names.push(hex_item(rem.bits)));
            assert_seqs_equal!(out@ == fmt_items(items_of(s, v.bits)));
        }
    } else {
        proof {
            assert_seqs_equal!(items_of(s, v.bits) == names);
        }
    }
    out
}

/// The truncating text form: the retaining form of the truncated value, so
/// unknown bits never appear.
pub fn to_writer_truncate(d: &FlagSetDescriptor, v: &FlagsValue) -> (r: String)
    requires
        d.wf(),
    ensures
        r@ == fmt_items(items_of(d.flags_seq(), v.bits & d.all_spec())),
{
    let t = v.truncated(d);
    to_writer(d, &t)
}

/// The strict text form: the yielded names only; unnamed bits are silently
/// dropped from the rendering.
pub fn to_writer_strict(d: &FlagSetDescriptor, v: &FlagsValue) -> (r: String)
    ensures
        r@ == fmt_items(yielded_names(d.flags_seq(), v.bits)),
{
    let (out, _, _) = write_named(d, v);
    out
}

impl FlagsValue {
    /// The raw bits as uppercase hexadecimal digits, unpadded.
    pub fn upper_hex(&self) -> (r: String)
        ensures
            r@ == render_base(self.bits, 16, true),
    {
        render_digits(self.bits, 16, true)
    }

    /// The raw bits as lowercase hexadecimal digits, unpadded.
    pub fn lower_hex(&self) -> (r: String)
        ensures
            r@ == render_base(self.bits, 16, false),
    {
        render_digits(self.bits, 16, false)
    }

    /// The raw bits as octal digits, unpadded.
    pub fn octal(&self) -> (r: String)
        ensures
            r@ == render_base(self.bits, 8, true),
    {
        render_digits(self.bits, 8, true)
    }

    /// The raw bits as binary digits, unpadded.
    pub fn binary(&self) -> (r: String)
        ensures
            r@ == render_base(self.bits, 2, true),
    {
        render_digits(self.bits, 2, true)
    }
}

/// A diagnostic line for a flags value: the flag-set type's name, the text
/// form of the value (or its hexadecimal form when empty), and the raw bits
/// in binary, octal and hexadecimal, each padded to the width.
pub fn debug_string(d: &FlagSetDescriptor, label: &str, v: &FlagsValue) -> (r: String)
    requires
        d.wf(),
    ensures
        r@ == label@ + " { flags: "@ + (if v.bits == 0 {
            seq!['0', 'x'] + render_base(v.bits, 16, true)
        } else {
            fmt_items(items_of(d.flags_seq(), v.bits))
        }) + ", bits: 0b"@ + render_fixed_base(v.bits, d.width as nat, 2, true) + ", octal: 0o"@
            + render_fixed_base(v.bits, ((d.width + 2) / 3) as nat, 8, true) + ", hex: 0x"@
            + render_fixed_base(v.bits, ((d.width + 3) / 4) as nat, 16, true) + " }"@,
{
    let mut out = label.to_owned();
    out.append(" { flags: ");
    if v.bits() == 0 {
        proof {
            reveal_strlit("0x");
            assert("0x"@ == seq!['0', 'x']);
        }
        out.append("0x");
        let digits = v.upper_hex();
        out.append(digits.as_str());
    } else {
        let flags_text = to_writer(d, v);
        out.append(flags_text.as_str());
    }
    out.append(", bits: 0b");
    let bin = render_fixed_digits(v.bits(), d.width as usize, 2, true);
    out.append(bin.as_str());
    out.append(", octal: 0o");
    let oct = render_fixed_digits(v.bits(), ((d.width + 2) / 3) as usize, 8, true);
    out.append(oct.as_str());
    out.append(", hex: 0x");
    let hexd = render_fixed_digits(v.bits(), ((d.width + 3) / 4) as usize, 16, true);
    out.append(hexd.as_str());
    out.append(" }");
    proof {
        assert_seqs_equal!(out@ == label@ + " { flags: "@ + (if v.bits == 0 {
            seq!['0', 'x'] + render_base(v.bits, 16, true)
        } else {
            fmt_items(items_of(d.flags_seq(), v.bits))
        }) + ", bits: 0b"@ + render_fixed_base(v.bits, d.width as nat, 2, true) + ", octal: 0o"@
            + render_fixed_base(v.bits, ((d.width + 2) / 3) as nat, 8, true) + ", hex: 0x"@
            + render_fixed_base(v.bits, ((d.width + 3) / 4) as nat, 16, true) + " }"@);
    }
    out
}

} // verus!
