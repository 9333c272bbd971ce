//! The canonical text form, reading side: the input split on `|`, each
//! segment trimmed and read as a flag name or a hexadecimal token, and the
//! results united.

use vstd::prelude::*;
use vstd::assert_seqs_equal;

use crate::bitops::mask_of_width;
use crate::chars::all_wsp;
use crate::chars::chars_vec;
use crate::chars::lemma_split_at_bar;
use crate::chars::lemma_split_no_bar;
use crate::chars::no_bar;
use crate::chars::split_bar;
use crate::chars::str_eq_range;
use crate::chars::trim;
use crate::chars::trim_bounds;
use crate::chars::wsp_char;
use crate::descriptor::FlagSetDescriptor;
use crate::descriptor::lookup;
use crate::descriptor::lookup_from;
use crate::hex::hex_value;
use crate::hex::parse_hex;
use crate::value::FlagsValue;

verus! {

/// Why a text form fails to parse. All three are local to one `|`-delimited
/// segment and recoverable by the caller.
#[derive(Debug, Clone, Copy, PartialEq, Eq, Structural)]
pub enum ParseError {
    /// A segment trimmed to nothing, as around a doubled or dangling `|`.
    EmptyFlag,
    /// A segment that is no hexadecimal token and matches no flag name.
    InvalidNamedFlag,
    /// A `0x` segment with bad digits or a value beyond the width; in strict
    /// reading, any `0x` segment at all.
    InvalidHexFlag,
}

/// What one trimmed segment denotes: nothing, a hexadecimal token's value,
/// or a named flag's bits.
pub open spec fn parse_segment(
    s: Seq<(Seq<char>, u128)>,
    mask: u128,
    t: Seq<char>,
    strict: bool,
) -> Result<u128, ParseError> {
    if t.len() == 0 {
        Err(ParseError::EmptyFlag)
    } else if t.len() >= 2 && t[0] == '0' && t[1] == 'x' {
        if strict {
            Err(ParseError::InvalidHexFlag)
        } else {
            match hex_value(t.skip(2), mask) {
                Some(v) => Ok(v),
                None => Err(ParseError::InvalidHexFlag),
            }
        }
    } else {
        match lookup(s, t) {
            Some(b) => Ok(b),
            None => Err(ParseError::InvalidNamedFlag),
        }
    }
}

/// The segments read left to right: the first failure wins, else the union
/// of what each denotes.
pub open spec fn parse_segments(
    s: Seq<(Seq<char>, u128)>,
    mask: u128,
    segs: Seq<Seq<char>>,
    strict: bool,
) -> Result<u128, ParseError>
    decreases segs.len(),
{
    if segs.len() == 0 {
        Ok(0u128)
    } else {
        match parse_segment(s, mask, trim(segs[0]), strict) {
            Err(e) => Err(e),
            Ok(b) => match parse_segments(s, mask, segs.skip(1), strict) {
                Err(e) => Err(e),
                Ok(rest) => Ok(b | rest),
            },
        }
    }
}

/// What a whole input denotes: the empty value for blank input, else its
/// split, trimmed, parsed and united segments.
pub open spec fn parse_text(
    s: Seq<(Seq<char>, u128)>,
    mask: u128,
    input: Seq<char>,
    strict: bool,
) -> Result<u128, ParseError> {
    if all_wsp(input) {
        Ok(0u128)
    } else {
        parse_segments(s, mask, split_bar(input), strict)
    }
}

/// Read one trimmed segment held in `cs[lo .. hi]`.
fn seg_parse(d: &FlagSetDescriptor, cs: &Vec<char>, lo: usize, hi: usize, strict: bool) -> (r:
    Result<u128, ParseError>)
    requires
        d.wf(),
        lo <= hi <= cs@.len(),
    ensures
        r == parse_segment(
            d.flags_seq(),
            d.mask_spec(),
            cs@.subrange(lo as int, hi as int),
            strict,
        ),
{
    let ghost t = cs@.subrange(lo as int, hi as int);
    if lo == hi {
        return Err(ParseError::EmptyFlag);
    }
    proof {
        assert(t[0] == cs@[lo as int]);
        if t.len() >= 2 {
            assert(t[1] == cs@[lo as int + 1]);
        }
    }
    if hi - lo >= 2 && cs[lo] == '0' && cs[lo + 1] == 'x' {
        if strict {
            return Err(ParseError::InvalidHexFlag);
        }
        let mask = mask_of_width(d.width);
        proof {
            assert_seqs_equal!(t.skip(2) == cs@.subrange(lo as int + 2, hi as int));
        }
        match parse_hex(cs, lo + 2, hi, mask) {
            Some(v) => Ok(v),
            None => Err(ParseError::InvalidHexFlag),
        }
    } else {
        let n = d.defs.len();
        let mut i: usize = 0;
        while i < n
            invariant
                i <= n,
                n == d.defs@.len(),
                t == cs@.subrange(lo as int, hi as int),
                lo < hi <= cs@.len(),
                !(t.len() >= 2 && t[0] == '0' && t[1] == 'x'),
                lookup_from(d.flags_seq(), 0, t) == lookup_from(d.flags_seq(), i as int, t),
            decreases n - i,
        {
            proof {
                assert(d.flags_seq()[i as int] == (d.defs@[i as int].name@, d.defs@[
                    i as int].bits));
            }
            if str_eq_range(d.defs[i].name.as_str(), cs, lo, hi) {
                proof {
                    assert(d.flags_seq()[i as int].0 == t);
                    assert(lookup_from(d.flags_seq(), i as int, t) == Some(
                        d.flags_seq()[i as int].1,
                    ));
                }
                return Ok(d.defs[i].bits);
            }
            i = i + 1;
        }
        Err(ParseError::InvalidNamedFlag)
    }
}

/// Read a whole input against the descriptor.
fn parse_core(d: &FlagSetDescriptor, input: &str, strict: bool) -> (r: Result<
    FlagsValue,
    ParseError,
>)
    requires
        d.wf(),
    ensures
        r == match parse_text(d.flags_seq(), d.mask_spec(), input@, strict) {
            Ok(b) => Ok::<FlagsValue, ParseError>((FlagsValue { bits: b })),
            Err(e) => Err::<FlagsValue, ParseError>(e),
        },
{
    let cs = chars_vec(input);
    let mut i: usize = 0;
    let mut blank = true;
    while i < cs.len()
        invariant
            i <= cs@.len(),
            cs@ == input@,
            blank == all_wsp(cs@.take(i as int)),
        decreases cs@.len() - i,
    {
        let w = wsp_char(cs[i]);
        proof {
            let p = cs@.take(i as int);
            let q = cs@.take(i as int + 1);
            assert(q[i as int] == cs@[i as int]);
            assert forall|k: int| 0 <= k < p.len() implies p[k] == q[k] by {}
            if all_wsp(p) && crate::chars::is_wsp(cs@[i as int]) {
                assert forall|k: int| 0 <= k < q.len() implies crate::chars::is_wsp(
                    #[trigger] q[k],
                ) by {
                    if k < i as int {
                        assert(q[k] == p[k]);
                    }
                }
            }
            if !all_wsp(p) {
                let k = choose|k: int| 0 <= k < p.len() && !crate::chars::is_wsp(#[trigger] p[k]);
                assert(!crate::chars::is_wsp(q[k]));
            }
        }
        blank = blank && w;
        i = i + 1;
    }
    proof {
        assert_seqs_equal!(cs@.take(cs@.len() as int) == cs@);
    }
    if blank {
        return Ok(FlagsValue { bits: 0 });
    }
    let mask = mask_of_width(d.width);
    let ghost sq = d.flags_seq();
    let mut pos: usize = 0;
    let mut acc: u128 = 0;
    proof {
        assert_seqs_equal!(cs@.skip(0) == cs@);
        let whole = parse_segments(sq, mask, split_bar(cs@), strict);
        if whole is Ok {
            let b = whole->Ok_0;
            assert(0u128 | b == b) by (bit_vector);
        }
    }
    loop
        invariant
            pos <= cs@.len(),
            cs@ == input@,
            !all_wsp(cs@),
            d.wf(),
            sq == d.flags_seq(),
            mask == d.mask_spec(),
            ({
                let rest = parse_segments(sq, mask, split_bar(cs@.skip(pos as int)), strict);
                let whole = parse_segments(sq, mask, split_bar(cs@), strict);
                match rest {
                    Ok(b) => whole == Ok::<u128, ParseError>(acc | b),
                    Err(e) => whole == Err::<u128, ParseError>(e),
                }
            }),
        decreases cs@.len() - pos,
    {
        let mut j: usize = pos;
        while j < cs.len() && cs[j] != '|'
            invariant
                pos <= j <= cs@.len(),
                forall|k: int| pos <= k < j ==> #[trigger] cs@[k] != '|',
            decreases cs@.len() - j,
        {
            j = j + 1;
        }
        let ghost sfx = cs@.skip(pos as int);
        let ghost head = cs@.subrange(pos as int, j as int);
        proof {
            assert(no_bar(head)) by {
                assert forall|k: int| 0 <= k < head.len() implies #[trigger] head[k] != '|' by {
                    assert(head[k] == cs@[pos + k]);
                }
            }
        }
        let (lo, hi) = trim_bounds(&cs, pos, j);
        let seg = seg_parse(d, &cs, lo, hi, strict);
        if j < cs.len() {
            proof {
                assert(cs@[j as int] == '|');
                assert_seqs_equal!(sfx == head + seq!['|'] + cs@.skip(j as int + 1));
                lemma_split_at_bar(head, cs@.skip(j as int + 1));
                let segs = split_bar(sfx);
                assert(segs[0] == head);
                assert_seqs_equal!(segs.skip(1) == split_bar(cs@.skip(j as int + 1)));
            }
            match seg {
                Err(e) => {
                    return Err(e);
                },
                Ok(b) => {
                    proof {
                        let rest2 = parse_segments(
                            sq,
                            mask,
                            split_bar(cs@.skip(j as int + 1)),
                            strict,
                        );
                        if rest2 is Ok {
                            let c = rest2->Ok_0;
                            assert(acc | (b | c) == (acc | b) | c) by (bit_vector);
                        }
                    }
                    acc = acc | b;
                    pos = j + 1;
                },
            }
        } else {
            proof {
                assert_seqs_equal!(sfx == head);
                lemma_split_no_bar(head);
                let segs = split_bar(sfx);
                assert(segs == seq![head]);
                assert(segs[0] == head);
                assert_seqs_equal!(segs.skip(1) == Seq::<Seq<char>>::empty());
                assert(parse_segments(sq, mask, Seq::<Seq<char>>::empty(), strict)
                    == Ok::<u128, ParseError>(0u128));
            }
            match seg {
                Err(e) => {
                    return Err(e);
                },
                Ok(b) => {
                    proof {
                        assert(b | 0 == b) by (bit_vector);
                    }
                    return Ok(FlagsValue { bits: acc | b });
                },
            }
        }
    }
}

/// Read the retaining text form: blank input is the empty value; segments
/// are split on `|`, trimmed, read as names or `0x` tokens, and united
/// exactly, unknown bits kept.
pub fn from_text(d: &FlagSetDescriptor, input: &str) -> (r: Result<FlagsValue, ParseError>)
    requires
        d.wf(),
    ensures
        r == match parse_text(d.flags_seq(), d.mask_spec(), input@, false) {
            Ok(b) => Ok::<FlagsValue, ParseError>((FlagsValue { bits: b })),
            Err(e) => Err::<FlagsValue, ParseError>(e),
        },
{
    parse_core(d, input, false)
}

/// Read as `from_text`, then unset any unknown bits.
pub fn from_text_truncate(d: &FlagSetDescriptor, input: &str) -> (r: Result<
    FlagsValue,
    ParseError,
>)
    requires
        d.wf(),
    ensures
        r == match parse_text(d.flags_seq(), d.mask_spec(), input@, false) {
            Ok(b) => Ok::<FlagsValue, ParseError>((FlagsValue { bits: b & d.all_spec() })),
            Err(e) => Err::<FlagsValue, ParseError>(e),
        },
{
    match parse_core(d, input, false) {
        Ok(v) => Ok(v.truncated(d)),
        Err(e) => Err(e),
    }
}

/// Read the strict text form: as `from_text`, but any `0x` segment is
/// refused outright, so every bit comes from a named flag.
pub fn from_text_strict(d: &FlagSetDescriptor, input: &str) -> (r: Result<FlagsValue, ParseError>)
    requires
        d.wf(),
    ensures
        r == match parse_text(d.flags_seq(), d.mask_spec(), input@, true) {
            Ok(b) => Ok::<FlagsValue, ParseError>((FlagsValue { bits: b })),
            Err(e) => Err::<FlagsValue, ParseError>(e),
        },
{
    parse_core(d, input, true)
}

} // verus!
