//! Character-level ground for the text codec: whitespace, trimming, and
//! splitting an input on the `|` separator, with the exec counterparts.

use vstd::prelude::*;
use vstd::assert_seqs_equal;

verus! {

/// The whitespace trimmed around the tokens of the text form.
pub open spec fn is_wsp(c: char) -> bool {
    c == ' ' || c == '\t' || c == '\n' || c == '\r' || c == '\u{0b}' || c == '\u{0c}'
}

/// Every character is whitespace.
pub open spec fn all_wsp(s: Seq<char>) -> bool {
    forall|i: int| 0 <= i < s.len() ==> is_wsp(#[trigger] s[i])
}

/// No character is the `|` separator.
pub open spec fn no_bar(s: Seq<char>) -> bool {
    forall|i: int| 0 <= i < s.len() ==> #[trigger] s[i] != '|'
}

/// The sequence with its leading whitespace dropped.
pub open spec fn trim_front(s: Seq<char>) -> Seq<char>
    decreases s.len(),
{
    if s.len() > 0 && is_wsp(s[0]) {
        trim_front(s.skip(1))
    } else {
        s
    }
}

/// The sequence with its trailing whitespace dropped.
pub open spec fn trim_back(s: Seq<char>) -> Seq<char>
    decreases s.len(),
{
    if s.len() > 0 && is_wsp(s[s.len() - 1]) {
        trim_back(s.drop_last())
    } else {
        s
    }
}

/// The sequence with surrounding whitespace dropped.
pub open spec fn trim(s: Seq<char>) -> Seq<char> {
    trim_back(trim_front(s))
}

/// The segments of `s` between its `|` separators, in order; a sequence
/// without a separator is one segment, and every separator bounds two.
pub open spec fn split_bar(s: Seq<char>) -> Seq<Seq<char>>
    decreases s.len(),
{
    if s.len() == 0 {
        seq![Seq::empty()]
    } else if s[0] == '|' {
        seq![Seq::empty()] + split_bar(s.skip(1))
    } else {
        let r = split_bar(s.skip(1));
        seq![seq![s[0]] + r[0]] + r.skip(1)
    }
}

/// A sequence without a separator is its own single segment.
pub proof fn lemma_split_no_bar(s: Seq<char>)
    requires
        no_bar(s),
    ensures
        split_bar(s) == seq![s],
    decreases s.len(),
{
    if s.len() == 0 {
        assert_seqs_equal!(split_bar(s)[0] == s);
        assert_seqs_equal!(split_bar(s) == seq![s]);
    } else {
        assert(s[0] != '|');
        assert(no_bar(s.skip(1))) by {
            assert forall|i: int| 0 <= i < s.skip(1).len() implies #[trigger] s.skip(1)[i]
                != '|' by {
                assert(s.skip(1)[i] == s[i + 1]);
            }
        }
        lemma_split_no_bar(s.skip(1));
        let r = split_bar(s.skip(1));
        assert(r[0] == s.skip(1));
        assert_seqs_equal!(seq![s[0]] + s.skip(1) == s);
        assert_seqs_equal!(r.skip(1) == Seq::<Seq<char>>::empty());
        assert_seqs_equal!(split_bar(s) == seq![s]);
    }
}

/// Splitting at the first separator peels off the segment before it.
pub proof fn lemma_split_at_bar(s1: Seq<char>, s2: Seq<char>)
    requires
        no_bar(s1),
    ensures
        split_bar(s1 + seq!['|'] + s2) == seq![s1] + split_bar(s2),
    decreases s1.len(),
{
    let s = s1 + seq!['|'] + s2;
    if s1.len() == 0 {
        assert(s[0] == '|');
        assert_seqs_equal!(s.skip(1) == s2);
        assert_seqs_equal!(split_bar(s) == seq![s1] + split_bar(s2));
    } else {
        assert(s[0] == s1[0]);
        assert(s1[0] != '|');
        assert(no_bar(s1.skip(1))) by {
            assert forall|i: int| 0 <= i < s1.skip(1).len() implies #[trigger] s1.skip(1)[i]
                != '|' by {
                assert(s1.skip(1)[i] == s1[i + 1]);
            }
        }
        lemma_split_at_bar(s1.skip(1), s2);
        assert_seqs_equal!(s.skip(1) == s1.skip(1) + seq!['|'] + s2);
        let r = split_bar(s.skip(1));
        assert(r[0] == s1.skip(1));
        assert_seqs_equal!(seq![s[0]] + r[0] == s1);
        assert_seqs_equal!(r.skip(1) == split_bar(s2));
        assert_seqs_equal!(split_bar(s) == seq![s1] + split_bar(s2));
    }
}

/// Leading whitespace before a sequence trims away.
pub proof fn lemma_trim_front_prepend(w: Seq<char>, x: Seq<char>)
    requires
        all_wsp(w),
    ensures
        trim_front(w + x) == trim_front(x),
    decreases w.len(),
{
    if w.len() == 0 {
        assert_seqs_equal!(w + x == x);
    } else {
        assert((w + x)[0] == w[0]);
        assert(is_wsp(w[0]));
        assert(all_wsp(w.skip(1))) by {
            assert forall|i: int| 0 <= i < w.skip(1).len() implies is_wsp(
                #[trigger] w.skip(1)[i],
            ) by {
                assert(w.skip(1)[i] == w[i + 1]);
            }
        }
        lemma_trim_front_prepend(w.skip(1), x);
        assert_seqs_equal!((w + x).skip(1) == w.skip(1) + x);
    }
}

/// Trailing whitespace after a sequence trims away.
pub proof fn lemma_trim_back_append(x: Seq<char>, w: Seq<char>)
    requires
        all_wsp(w),
    ensures
        trim_back(x + w) == trim_back(x),
    decreases w.len(),
{
    if w.len() == 0 {
        assert_seqs_equal!(x + w == x);
    } else {
        let s = x + w;
        assert(s[s.len() - 1] == w[w.len() - 1]);
        assert(is_wsp(w[w.len() - 1]));
        assert(all_wsp(w.drop_last())) by {
            assert forall|i: int| 0 <= i < w.drop_last().len() implies is_wsp(
                #[trigger] w.drop_last()[i],
            ) by {
                assert(w.drop_last()[i] == w[i]);
            }
        }
        lemma_trim_back_append(x, w.drop_last());
        assert_seqs_equal!(s.drop_last() == x + w.drop_last());
    }
}

/// Trimming strips exactly the whitespace padding around a token whose own
/// ends are not whitespace.
pub proof fn lemma_trim_padded(w1: Seq<char>, x: Seq<char>, w2: Seq<char>)
    requires
        all_wsp(w1),
        all_wsp(w2),
        x.len() == 0 || (!is_wsp(x[0]) && !is_wsp(x[x.len() - 1])),
    ensures
        trim(w1 + x + w2) == x,
{
    assert_seqs_equal!(w1 + x + w2 == w1 + (x + w2));
    lemma_trim_front_prepend(w1, x + w2);
    if x.len() == 0 {
        assert_seqs_equal!(x + w2 == w2);
        lemma_trim_front_all_wsp(w2);
        assert(trim_front(w1 + x + w2).len() == 0);
        assert_seqs_equal!(trim(w1 + x + w2) == x);
    } else {
        assert((x + w2)[0] == x[0]);
        assert(trim_front(x + w2) == x + w2);
        lemma_trim_back_append(x, w2);
        assert(trim_back(x) == x);
    }
}

/// An all-whitespace sequence trims to nothing from the front.
pub proof fn lemma_trim_front_all_wsp(w: Seq<char>)
    requires
        all_wsp(w),
    ensures
        trim_front(w).len() == 0,
    decreases w.len(),
{
    if w.len() == 0 {
    } else {
        assert(is_wsp(w[0]));
        assert(all_wsp(w.skip(1))) by {
            assert forall|i: int| 0 <= i < w.skip(1).len() implies is_wsp(
                #[trigger] w.skip(1)[i],
            ) by {
                assert(w.skip(1)[i] == w[i + 1]);
            }
        }
        lemma_trim_front_all_wsp(w.skip(1));
    }
}

/// Whether the character is trimmed whitespace.
pub fn wsp_char(c: char) -> (r: bool)
    ensures
        r == is_wsp(c),
{
    c == ' ' || c == '\t' || c == '\n' || c == '\r' || c == '\u{0b}' || c == '\u{0c}'
}

/// The characters of a string slice, in order.
pub fn chars_vec(s: &str) -> (r: Vec<char>)
    ensures
        r@ == s@,
{
    let mut out: Vec<char> = Vec::new();
    for c in it: s.chars()
        invariant
            it.seq() == s@,
            out@ == it.seq().take(it.index() as int),
    {
        out.push(c);
    }
    proof {
        assert_seqs_equal!(out@ == s@);
    }
    out
}

/// Whether two string slices hold the same characters.
pub fn str_eq(a: &str, b: &str) -> (r: bool)
    ensures
        r == (a@ == b@),
{
    let sa = a.to_owned();
    let sb = b.to_owned();
    sa == sb
}

/// Whether a string slice equals a range of a character vector.
pub fn str_eq_range(name: &str, cs: &Vec<char>, lo: usize, hi: usize) -> (r: bool)
    requires
        lo <= hi <= cs@.len(),
    ensures
        r == (name@ == cs@.subrange(lo as int, hi as int)),
{
    let nv = chars_vec(name);
    let t = Ghost(cs@.subrange(lo as int, hi as int));
    if nv.len() != hi - lo {
        assert(name@.len() != t@.len());
        return false;
    }
    let mut i: usize = 0;
    while i < nv.len()
        invariant
            i <= nv@.len(),
            nv@ == name@,
            t@ == cs@.subrange(lo as int, hi as int),
            nv@.len() == hi - lo,
            lo <= hi <= cs@.len(),
            forall|k: int| 0 <= k < i ==> nv@[k] == t@[k],
        decreases nv@.len() - i,
    {
        if nv[i] != cs[lo + i] {
            assert(t@[i as int] == cs@[lo + i]);
            return false;
        }
        assert(nv@[i as int] == t@[i as int]);
        i = i + 1;
    }
    proof {
        assert_seqs_equal!(name@ == cs@.subrange(lo as int, hi as int));
    }
    true
}

/// The bounds of the trimmed token inside the range `a .. b`.
pub fn trim_bounds(cs: &Vec<char>, a: usize, b: usize) -> (r: (usize, usize))
    requires
        a <= b <= cs@.len(),
    ensures
        a <= r.0 <= r.1 <= b,
        cs@.subrange(r.0 as int, r.1 as int) == trim(cs@.subrange(a as int, b as int)),
{
    let mut lo: usize = a;
    while lo < b && wsp_char(cs[lo])
        invariant
            a <= lo <= b <= cs@.len(),
            trim_front(cs@.subrange(a as int, b as int)) == trim_front(
                cs@.subrange(lo as int, b as int),
            ),
        decreases b - lo,
    {
        proof {
            let s = cs@.subrange(lo as int, b as int);
            assert(s[0] == cs@[lo as int]);
            assert_seqs_equal!(s.skip(1) == cs@.subrange(lo as int + 1, b as int));
        }
        lo = lo + 1;
    }
    proof {
        let s = cs@.subrange(lo as int, b as int);
        if lo < b {
            assert(s[0] == cs@[lo as int]);
        }
        assert(trim_front(s) == s);
    }
    let mut hi: usize = b;
    while hi > lo && wsp_char(cs[hi - 1])
        invariant
            a <= lo <= hi <= b <= cs@.len(),
            trim_front(cs@.subrange(a as int, b as int)) == cs@.subrange(lo as int, b as int),
            trim_back(cs@.subrange(lo as int, b as int)) == trim_back(
                cs@.subrange(lo as int, hi as int),
            ),
        decreases hi,
    {
        proof {
            let s = cs@.subrange(lo as int, hi as int);
            assert(s[s.len() - 1] == cs@[hi - 1]);
            assert_seqs_equal!(s.drop_last() == cs@.subrange(lo as int, hi as int - 1));
        }
        hi = hi - 1;
    }
    proof {
        let s = cs@.subrange(lo as int, hi as int);
        if hi > lo {
            assert(s[s.len() - 1] == cs@[hi - 1]);
        }
        assert(trim_back(s) == s);
    }
    (lo, hi)
}

} // verus!
