//! The text round-trip laws: what the writer produces, the reader takes
//! back to the value it came from.

use vstd::prelude::*;
use vstd::assert_seqs_equal;

use crate::bitops::lemma_within_le;
use crate::bitops::lemma_within_trans;
use crate::chars::all_wsp;
use crate::chars::is_wsp;
use crate::chars::lemma_split_at_bar;
use crate::chars::lemma_split_no_bar;
use crate::chars::lemma_trim_padded;
use crate::chars::no_bar;
use crate::chars::split_bar;
use crate::chars::trim;
use crate::descriptor::FlagSetDescriptor;
use crate::descriptor::lookup_from;
use crate::hex::lemma_hex_digit_plain;
use crate::hex::lemma_hex_round_trip;
use crate::hex::lemma_render_digits_hex;
use crate::hex::render_base;
use crate::iter::lemma_decomposition_round_trip;
use crate::iter::lemma_exhausted_remaining;
use crate::iter::lemma_or_values_of_index_bits;
use crate::iter::lemma_remaining_within;
use crate::iter::lemma_union_of_flags_decomposes;
use crate::iter::lemma_yields_bounds;
use crate::iter::or_index_bits;
use crate::iter::or_values;
use crate::iter::remaining_after;
use crate::iter::state_values;
use crate::iter::yields_from;
use crate::parse::ParseError;
use crate::parse::parse_segment;
use crate::parse::parse_segments;
use crate::parse::parse_text;
use crate::text::fmt_items;
use crate::text::hex_item;
use crate::text::items_of;
use crate::text::sep;
use crate::text::yielded_names;
use crate::value::FlagsValue;

verus! {

/// A token that survives the writer-reader round trip as itself: non-empty,
/// free of the separator, and not padded by whitespace at either end.
pub open spec fn token_ok(t: Seq<char>) -> bool {
    t.len() > 0 && no_bar(t) && !is_wsp(t[0]) && !is_wsp(t[t.len() - 1])
}

/// A flag name the text codec can carry back and forth: a round-trippable
/// token that does not begin like a hexadecimal token.
pub open spec fn name_token_ok(t: Seq<char>) -> bool {
    token_ok(t) && !(t.len() >= 2 && t[0] == '0' && t[1] == 'x')
}

/// Names the text codec can read back: each one carryable, no two alike.
pub open spec fn parseable_names(s: Seq<(Seq<char>, u128)>) -> bool {
    &&& forall|i: int| 0 <= i < s.len() ==> name_token_ok(#[trigger] s[i].0)
    &&& forall|i: int, j: int| 0 <= i < j < s.len() ==> s[i].0 != s[j].0
}

/// With names no two alike, looking a definition's name up finds exactly
/// that definition's bits.
proof fn lemma_lookup_from_unique(s: Seq<(Seq<char>, u128)>, i: int, j: int)
    requires
        parseable_names(s),
        0 <= i <= j < s.len(),
    ensures
        lookup_from(s, i, s[j].0) == Some(s[j].1),
    decreases j - i,
{
    if i < j {
        assert(s[i].0 != s[j].0);
        lemma_lookup_from_unique(s, i + 1, j);
    }
}

/// Whitespace never holds the separator.
proof fn lemma_wsp_not_bar(w: Seq<char>)
    requires
        all_wsp(w),
    ensures
        no_bar(w),
{
    assert forall|i: int| 0 <= i < w.len() implies #[trigger] w[i] != '|' by {
        assert(is_wsp(w[i]));
    }
}

/// Reading back a written run of tokens: when every token parses to its
/// value and carries cleanly, the split, trimmed, parsed and united text of
/// the run, under any leading whitespace, is the union of the values.
proof fn lemma_parse_formatted(
    s: Seq<(Seq<char>, u128)>,
    mask: u128,
    items: Seq<Seq<char>>,
    vals: Seq<u128>,
    w: Seq<char>,
    strict: bool,
)
    requires
        items.len() == vals.len(),
        items.len() > 0,
        all_wsp(w),
        forall|k: int| 0 <= k < items.len() ==> token_ok(#[trigger] items[k]),
        forall|k: int|
            0 <= k < items.len() ==> parse_segment(s, mask, #[trigger] items[k], strict)
                == Ok::<u128, ParseError>(vals[k]),
    ensures
        parse_segments(s, mask, split_bar(w + fmt_items(items)), strict) == Ok::<
            u128,
            ParseError,
        >(or_values(vals)),
    decreases items.len(),
{
    lemma_wsp_not_bar(w);
    assert(token_ok(items[0]));
    if items.len() == 1 {
        let x = items[0];
        assert(fmt_items(items) == x);
        let whole = w + x;
        assert(no_bar(whole)) by {
            assert forall|i: int| 0 <= i < whole.len() implies #[trigger] whole[i] != '|' by {
                if i < w.len() {
                    assert(whole[i] == w[i]);
                } else {
                    assert(whole[i] == x[i - w.len()]);
                }
            }
        }
        lemma_split_no_bar(whole);
        let segs = split_bar(whole);
        assert(segs == seq![whole]);
        assert(segs[0] == whole);
        assert_seqs_equal!(segs.skip(1) == Seq::<Seq<char>>::empty());
        assert(parse_segments(s, mask, Seq::<Seq<char>>::empty(), strict) == Ok::<
            u128,
            ParseError,
        >(0u128));
        lemma_trim_padded(w, x, Seq::empty());
        assert_seqs_equal!(w + x + Seq::<char>::empty() == whole);
        assert(trim(segs[0]) == x);
        let b = vals[0];
        assert(b | 0 == b) by (bit_vector);
        assert_seqs_equal!(vals.skip(1) == Seq::<u128>::empty());
        assert(or_values(Seq::<u128>::empty()) == 0);
        assert(or_values(vals) == vals[0] | or_values(vals.skip(1)));
        assert(or_values(vals) == b | 0);
    } else {
        let x = items[0];
        let rest_items = items.skip(1);
        assert(fmt_items(items) == x + sep() + fmt_items(rest_items));
        let s1 = w + x + seq![' '];
        let s2 = seq![' '] + fmt_items(rest_items);
        assert(no_bar(s1)) by {
            assert forall|i: int| 0 <= i < s1.len() implies #[trigger] s1[i] != '|' by {
                if i < w.len() {
                    assert(s1[i] == w[i]);
                } else if i < w.len() + x.len() {
                    assert(s1[i] == x[i - w.len()]);
                } else {
                    assert(s1[i] == ' ');
                }
            }
        }
        assert_seqs_equal!(w + fmt_items(items) == s1 + seq!['|'] + s2);
        lemma_split_at_bar(s1, s2);
        let segs = split_bar(w + fmt_items(items));
        assert(segs == seq![s1] + split_bar(s2));
        assert(segs[0] == s1);
        assert_seqs_equal!(segs.skip(1) == split_bar(s2));
        assert(all_wsp(seq![' '])) by {
            assert(seq![' '][0] == ' ');
        }
        lemma_trim_padded(w, x, seq![' ']);
        assert(trim(segs[0]) == x);
        let rest_vals = vals.skip(1);
        assert(rest_items.len() == rest_vals.len());
        assert forall|k: int| 0 <= k < rest_items.len() implies token_ok(
            #[trigger] rest_items[k],
        ) by {
            assert(rest_items[k] == items[k + 1]);
        }
        assert forall|k: int| 0 <= k < rest_items.len() implies parse_segment(
            s,
            mask,
            #[trigger] rest_items[k],
            strict,
        ) == Ok::<u128, ParseError>(rest_vals[k]) by {
            assert(rest_items[k] == items[k + 1]);
            assert(rest_vals[k] == vals[k + 1]);
        }
        lemma_parse_formatted(s, mask, rest_items, rest_vals, seq![' '], strict);
        assert(parse_segments(s, mask, split_bar(s2), strict) == Ok::<u128, ParseError>(
            or_values(rest_vals),
        ));
        assert(or_values(vals) == vals[0] | or_values(rest_vals));
    }
}

/// The written text of a non-empty value is not blank.
proof fn lemma_formatted_not_blank(items: Seq<Seq<char>>)
    requires
        items.len() > 0,
        token_ok(items[0]),
    ensures
        !all_wsp(fmt_items(items)),
{
    let f = fmt_items(items);
    if items.len() == 1 {
        assert(f == items[0]);
        assert(!is_wsp(f[0]));
    } else {
        assert(f == items[0] + sep() + fmt_items(items.skip(1)));
        assert(f[0] == items[0][0]);
        assert(!is_wsp(f[0]));
    }
}

/// The trailing remainder token carries cleanly and parses back to the
/// remainder.
proof fn lemma_hex_token(rem: u128, mask: u128, s: Seq<(Seq<char>, u128)>, strict: bool)
    requires
        rem <= mask,
        !strict,
    ensures
        token_ok(hex_item(rem)),
        parse_segment(s, mask, hex_item(rem), strict) == Ok::<u128, ParseError>(rem),
{
    let digits = render_base(rem, 16, true);
    let t = hex_item(rem);
    lemma_render_digits_hex(rem, 16, true);
    assert(t.len() == 2 + digits.len());
    assert(t[0] == '0');
    assert(t[1] == 'x');
    assert(t[t.len() - 1] == digits[digits.len() - 1]);
    lemma_hex_digit_plain(digits[digits.len() - 1]);
    assert(no_bar(t)) by {
        assert forall|i: int| 0 <= i < t.len() implies #[trigger] t[i] != '|' by {
            if i >= 2 {
                assert(t[i] == digits[i - 2]);
                lemma_hex_digit_plain(digits[i - 2]);
            }
        }
    }
    assert(!is_wsp(t[0]));
    assert_seqs_equal!(t.skip(2) == digits);
    lemma_hex_round_trip(rem, mask, true);
}

/// Text round-trip of the retaining form: reading back the written text of
/// any valid value restores exactly its bits, unknown bits included, as
/// long as the descriptor's names are ones the codec can carry.
pub proof fn lemma_text_round_trip(d: &FlagSetDescriptor, v: FlagsValue)
    requires
        d.wf(),
        v.valid(d),
        parseable_names(d.flags_seq()),
    ensures
        parse_text(d.flags_seq(), d.mask_spec(), fmt_items(items_of(d.flags_seq(), v.bits)), false)
            == Ok::<u128, ParseError>(v.bits),
{
    let s = d.flags_seq();
    let mask = d.mask_spec();
    let idxs = yields_from(s, 0, v.bits, v.bits);
    let rem = remaining_after(s, 0, v.bits, v.bits);
    let names = yielded_names(s, v.bits);
    let items = items_of(s, v.bits);
    let vals = state_values(s, 0, v.bits, v.bits);
    lemma_yields_bounds(s, 0, v.bits, v.bits);
    lemma_decomposition_round_trip(d, v);
    if v.bits == 0 {
        assert(idxs.len() == 0);
        assert(rem == 0);
        assert(names.len() == 0);
        assert_seqs_equal!(items == Seq::<Seq<char>>::empty());
        assert(fmt_items(items) == Seq::<char>::empty());
        assert(all_wsp(Seq::<char>::empty()));
    } else {
        lemma_remaining_within(s, 0, v.bits, v.bits);
        lemma_within_trans(rem, v.bits, mask);
        lemma_within_le(rem, mask);
        assert forall|k: int| 0 <= k < names.len() implies token_ok(#[trigger] items[k])
            && parse_segment(s, mask, items[k], false) == Ok::<u128, ParseError>(vals[k]) by {
            let j = idxs[k];
            assert(names[k] == s[j].0);
            assert(items[k] == names[k]);
            assert(name_token_ok(s[j].0));
            lemma_lookup_from_unique(s, 0, j);
            assert(vals[k] == idxs.map(|q: int, p: int| s[p].1)[k]);
            assert(vals[k] == s[j].1);
        }
        if rem != 0 {
            lemma_hex_token(rem, mask, s, false);
            assert(items.len() == names.len() + 1);
            assert(vals.len() == names.len() + 1);
            assert(items[names.len() as int] == hex_item(rem));
            assert(vals[names.len() as int] == rem);
            assert(items.len() > 0);
        } else {
            assert_seqs_equal!(items == names);
            assert_seqs_equal!(vals == idxs.map(|q: int, p: int| s[p].1));
            if idxs.len() == 0 {
                lemma_exhausted_remaining(s, 0, v.bits, v.bits);
                assert(false);
            }
        }
        assert forall|k: int| 0 <= k < items.len() implies token_ok(#[trigger] items[k]) by {}
        assert forall|k: int| 0 <= k < items.len() implies parse_segment(
            s,
            mask,
            #[trigger] items[k],
            false,
        ) == Ok::<u128, ParseError>(vals[k]) by {}
        lemma_parse_formatted(s, mask, items, vals, Seq::empty(), false);
        assert_seqs_equal!(Seq::<char>::empty() + fmt_items(items) == fmt_items(items));
        lemma_formatted_not_blank(items);
    }
}

/// Text round-trip of the strict form: the written strict text of any value
/// reads back as exactly the union of the named flags its decomposition
/// yields; for a value made only of such flags, that is the value itself.
pub proof fn lemma_text_round_trip_strict(d: &FlagSetDescriptor, v: FlagsValue)
    requires
        d.wf(),
        parseable_names(d.flags_seq()),
    ensures
        ({
            let s = d.flags_seq();
            let named = or_values(
                yields_from(s, 0, v.bits, v.bits).map(|q: int, p: int| s[p].1),
            );
            parse_text(s, d.mask_spec(), fmt_items(yielded_names(s, v.bits)), true) == Ok::<
                u128,
                ParseError,
            >(named)
        }),
{
    let s = d.flags_seq();
    let mask = d.mask_spec();
    let idxs = yields_from(s, 0, v.bits, v.bits);
    let names = yielded_names(s, v.bits);
    let vals = idxs.map(|q: int, p: int| s[p].1);
    lemma_yields_bounds(s, 0, v.bits, v.bits);
    if idxs.len() == 0 {
        assert(names.len() == 0);
        assert(fmt_items(names) == Seq::<char>::empty());
        assert(all_wsp(Seq::<char>::empty()));
        assert(vals.len() == 0);
    } else {
        assert forall|k: int| 0 <= k < names.len() implies token_ok(#[trigger] names[k])
            && parse_segment(s, mask, names[k], true) == Ok::<u128, ParseError>(vals[k]) by {
            let j = idxs[k];
            assert(names[k] == s[j].0);
            assert(name_token_ok(s[j].0));
            lemma_lookup_from_unique(s, 0, j);
            assert(vals[k] == s[j].1);
        }
        lemma_parse_formatted(s, mask, names, vals, Seq::empty(), true);
        assert_seqs_equal!(Seq::<char>::empty() + fmt_items(names) == fmt_items(names));
        lemma_formatted_not_blank(names);
    }
}

/// Text round-trip of the strict form for a value composed only of named
/// flags: a union of defined flags reads back from its strict text as
/// exactly itself.
pub proof fn lemma_text_round_trip_strict_exact(
    d: &FlagSetDescriptor,
    v: FlagsValue,
    ids: Seq<int>,
)
    requires
        d.wf(),
        parseable_names(d.flags_seq()),
        forall|t: int| 0 <= t < ids.len() ==> 0 <= #[trigger] ids[t] < d.flags_seq().len(),
        v.bits == or_index_bits(d.flags_seq(), ids),
    ensures
        parse_text(
            d.flags_seq(),
            d.mask_spec(),
            fmt_items(yielded_names(d.flags_seq(), v.bits)),
            true,
        ) == Ok::<u128, ParseError>(v.bits),
{
    let s = d.flags_seq();
    lemma_union_of_flags_decomposes(s, ids);
    lemma_text_round_trip_strict(d, v);
    let idxs = yields_from(s, 0, v.bits, v.bits);
    lemma_or_values_of_index_bits(s, idxs);
    assert_seqs_equal!(idxs.map(|q: int, p: int| s[p].1) == idxs.map(|k: int, j: int| s[j].1));
}

} // verus!
