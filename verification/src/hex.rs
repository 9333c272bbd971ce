//! Rendering a bits value as hexadecimal, octal or binary text, and parsing
//! hexadecimal text back, with the round trip between the two.

use vstd::prelude::*;
use vstd::assert_seqs_equal;

verus! {

/// The digit character of a value below sixteen.
pub open spec fn digit_char(v: u128, upper: bool) -> char {
    if v == 0 {
        '0'
    } else if v == 1 {
        '1'
    } else if v == 2 {
        '2'
    } else if v == 3 {
        '3'
    } else if v == 4 {
        '4'
    } else if v == 5 {
        '5'
    } else if v == 6 {
        '6'
    } else if v == 7 {
        '7'
    } else if v == 8 {
        '8'
    } else if v == 9 {
        '9'
    } else if v == 10 {
        if upper {
            'A'
        } else {
            'a'
        }
    } else if v == 11 {
        if upper {
            'B'
        } else {
            'b'
        }
    } else if v == 12 {
        if upper {
            'C'
        } else {
            'c'
        }
    } else if v == 13 {
        if upper {
            'D'
        } else {
            'd'
        }
    } else if v == 14 {
        if upper {
            'E'
        } else {
            'e'
        }
    } else {
        if upper {
            'F'
        } else {
            'f'
        }
    }
}

/// Whether the character is a hexadecimal digit, of either case.
pub open spec fn is_hex_digit(c: char) -> bool {
    (48 <= c as u32 && c as u32 <= 57) || (97 <= c as u32 && c as u32 <= 102) || (65 <= c as u32
        && c as u32 <= 70)
}

/// The value of a hexadecimal digit character.
pub open spec fn hex_digit_val(c: char) -> u128 {
    if 48 <= c as u32 && c as u32 <= 57 {
        (c as u32 - 48) as u128
    } else if 97 <= c as u32 && c as u32 <= 102 {
        (c as u32 - 87) as u128
    } else if 65 <= c as u32 && c as u32 <= 70 {
        (c as u32 - 55) as u128
    } else {
        0
    }
}

/// The digits of `n` in the given base, most significant first, without
/// leading zeros; zero renders as one digit.
pub open spec fn render_base(n: u128, base: u128, upper: bool) -> Seq<char>
    decreases n,
    when 2 <= base
    via render_base_decreases
{
    if n < base {
        seq![digit_char(n, upper)]
    } else {
        render_base(n / base, base, upper) + seq![digit_char(n % base, upper)]
    }
}

#[via_fn]
proof fn render_base_decreases(n: u128, base: u128, upper: bool) {
    assert(n >= base && base >= 2 ==> n / base < n) by (nonlinear_arith);
}

/// Exactly `k` digits of `n` in the given base, most significant first,
/// zero-padded on the left.
pub open spec fn render_fixed_base(n: u128, k: nat, base: u128, upper: bool) -> Seq<char>
    decreases k,
{
    if k == 0 {
        Seq::empty()
    } else {
        render_fixed_base(n / base, (k - 1) as nat, base, upper) + seq![
            digit_char(n % base, upper),
        ]
    }
}

/// The number a sequence of hexadecimal digits denotes.
pub open spec fn hex_num(digits: Seq<char>) -> nat
    decreases digits.len(),
{
    if digits.len() == 0 {
        0
    } else {
        hex_num(digits.drop_last()) * 16 + hex_digit_val(digits.last()) as nat
    }
}

/// Whether the sequence is a non-empty run of hexadecimal digits.
pub open spec fn valid_hex(digits: Seq<char>) -> bool {
    digits.len() > 0 && forall|i: int|
        0 <= i < digits.len() ==> is_hex_digit(#[trigger] digits[i])
}

/// What parsing a hexadecimal token yields: its number, if the digits are
/// well formed and the number fits under the mask.
pub open spec fn hex_value(digits: Seq<char>, mask: u128) -> Option<u128> {
    if valid_hex(digits) && hex_num(digits) <= mask {
        Some(hex_num(digits) as u128)
    } else {
        None
    }
}

/// The digit character of a value below sixteen, as a string slice.
fn digit_str(v: u128, upper: bool) -> (r: &'static str)
    requires
        v < 16,
    ensures
        r@ == seq![digit_char(v, upper)],
{
    proof {
        reveal_strlit("0");
        reveal_strlit("1");
        reveal_strlit("2");
        reveal_strlit("3");
        reveal_strlit("4");
        reveal_strlit("5");
        reveal_strlit("6");
        reveal_strlit("7");
        reveal_strlit("8");
        reveal_strlit("9");
        reveal_strlit("a");
        reveal_strlit("b");
        reveal_strlit("c");
        reveal_strlit("d");
        reveal_strlit("e");
        reveal_strlit("f");
        reveal_strlit("A");
        reveal_strlit("B");
        reveal_strlit("C");
        reveal_strlit("D");
        reveal_strlit("E");
        reveal_strlit("F");
    }
    if v == 0 {
        "0"
    } else if v == 1 {
        "1"
    } else if v == 2 {
        "2"
    } else if v == 3 {
        "3"
    } else if v == 4 {
        "4"
    } else if v == 5 {
        "5"
    } else if v == 6 {
        "6"
    } else if v == 7 {
        "7"
    } else if v == 8 {
        "8"
    } else if v == 9 {
        "9"
    } else if v == 10 {
        if upper {
            "A"
        } else {
            "a"
        }
    } else if v == 11 {
        if upper {
            "B"
        } else {
            "b"
        }
    } else if v == 12 {
        if upper {
            "C"
        } else {
            "c"
        }
    } else if v == 13 {
        if upper {
            "D"
        } else {
            "d"
        }
    } else if v == 14 {
        if upper {
            "E"
        } else {
            "e"
        }
    } else {
        if upper {
            "F"
        } else {
            "f"
        }
    }
}

/// The digits of `n` in the given base, without leading zeros.
pub fn render_digits(n: u128, base: u128, upper: bool) -> (r: String)
    requires
        2 <= base <= 16,
    ensures
        r@ == render_base(n, base, upper),
    decreases n,
{
    if n < base {
        digit_str(n, upper).to_owned()
    } else {
        proof {
            assert(n / base < n && n / base >= 0 && n % base < base) by (nonlinear_arith)
                requires
                    n >= base && base >= 2,
            ;
        }
        let rest = render_digits(n / base, base, upper);
        rest.concat(digit_str(n % base, upper))
    }
}

/// Exactly `k` digits of `n` in the given base, zero-padded on the left.
pub fn render_fixed_digits(n: u128, k: usize, base: u128, upper: bool) -> (r: String)
    requires
        2 <= base <= 16,
    ensures
        r@ == render_fixed_base(n, k as nat, base, upper),
    decreases k,
{
    if k == 0 {
        let r = String::new();
        proof {
            assert_seqs_equal!(r@ == render_fixed_base(n, 0, base, upper));
        }
        r
    } else {
        proof {
            assert(n % base < base && n / base >= 0) by (nonlinear_arith)
                requires
                    base >= 2 && n >= 0,
            ;
        }
        let rest = render_fixed_digits(n / base, k - 1, base, upper);
        rest.concat(digit_str(n % base, upper))
    }
}

/// The value of one hexadecimal digit character, either case.
fn hex_digit_of(c: char) -> (r: Option<u128>)
    ensures
        r is Some <==> is_hex_digit(c),
        r is Some ==> r->0 == hex_digit_val(c),
{
    let u = c as u32;
    if 48 <= u && u <= 57 {
        Some((u - 48) as u128)
    } else if 97 <= u && u <= 102 {
        Some((u - 87) as u128)
    } else if 65 <= u && u <= 70 {
        Some((u - 55) as u128)
    } else {
        None
    }
}

/// Scaling by sixteen stays under the mask while the value stays under a
/// sixteenth of it.
proof fn lemma_mul16_bound(a: u128, m: u128)
    by (bit_vector)
    requires
        a <= (m >> 4),
    ensures
        a * 16 <= m,
{
}

/// A prefix of a digit run denotes no more than the whole run.
proof fn lemma_hex_num_mono(digits: Seq<char>, k: int)
    requires
        0 <= k <= digits.len(),
    ensures
        hex_num(digits.take(k)) <= hex_num(digits),
    decreases digits.len(),
{
    if k == digits.len() {
        assert_seqs_equal!(digits.take(k) == digits);
    } else {
        assert_seqs_equal!(digits.drop_last().take(k) == digits.take(k));
        lemma_hex_num_mono(digits.drop_last(), k);
        assert(hex_num(digits.drop_last()) * 16 + hex_digit_val(digits.last()) as nat >= hex_num(
            digits.drop_last(),
        ));
    }
}

/// Parse the hexadecimal digits in `cs[from .. to]` into a value under the
/// mask.
pub fn parse_hex(cs: &Vec<char>, from: usize, to: usize, mask: u128) -> (r: Option<u128>)
    requires
        from <= to <= cs@.len(),
    ensures
        r == hex_value(cs@.subrange(from as int, to as int), mask),
{
    let ghost whole = cs@.subrange(from as int, to as int);
    if from == to {
        return None;
    }
    let mut acc: u128 = 0;
    let mut i: usize = from;
    while i < to
        invariant
            from <= i <= to <= cs@.len(),
            whole == cs@.subrange(from as int, to as int),
            whole.len() > 0,
            forall|k: int| from <= k < i ==> is_hex_digit(#[trigger] cs@[k]),
            acc as nat == hex_num(cs@.subrange(from as int, i as int)),
            acc <= mask,
        decreases to - i,
    {
        let c = cs[i];
        proof {
            assert(whole[i - from] == cs@[i as int]);
        }
        match hex_digit_of(c) {
            None => {
                assert(!is_hex_digit(whole[i - from]));
                return None;
            },
            Some(dv) => {
                proof {
                    assert_seqs_equal!(
                        cs@.subrange(from as int, i as int + 1).drop_last()
                            == cs@.subrange(from as int, i as int));
                    assert(cs@.subrange(from as int, i as int + 1).last() == cs@[i as int]);
                    assert(hex_num(cs@.subrange(from as int, i as int + 1)) == hex_num(
                        cs@.subrange(from as int, i as int),
                    ) * 16 + hex_digit_val(cs@[i as int]) as nat);
                    assert_seqs_equal!(whole.take(i - from + 1)
                        == cs@.subrange(from as int, i as int + 1));
                    lemma_hex_num_mono(whole, i - from + 1);
                }
                if acc > (mask >> 4) {
                    proof {
                        assert(mask >> 4 == mask / 16) by (bit_vector);
                        assert(mask / 16 * 16 + 16 > mask) by (nonlinear_arith);
                        assert(acc * 16 >= (mask / 16 + 1) * 16) by (nonlinear_arith)
                            requires
                                acc >= mask / 16 + 1,
                        ;
                    }
                    return None;
                }
                proof {
                    lemma_mul16_bound(acc, mask);
                }
                let next = acc * 16;
                if dv > mask - next {
                    return None;
                }
                acc = next + dv;
            },
        }
        i = i + 1;
    }
    proof {
        assert_seqs_equal!(whole == cs@.subrange(from as int, to as int));
        assert(valid_hex(whole));
    }
    Some(acc)
}

/// Every character a rendering in a base up to sixteen emits is a
/// hexadecimal digit.
pub proof fn lemma_render_digits_hex(n: u128, base: u128, upper: bool)
    requires
        2 <= base <= 16,
    ensures
        render_base(n, base, upper).len() > 0,
        forall|i: int|
            0 <= i < render_base(n, base, upper).len() ==> is_hex_digit(
                #[trigger] render_base(n, base, upper)[i],
            ),
    decreases n,
{
    if n < base {
        assert(is_hex_digit(digit_char(n, upper)));
    } else {
        assert(n / base < n && n % base < base) by (nonlinear_arith)
            requires
                n >= base && base >= 2,
        ;
        lemma_render_digits_hex(n / base, base, upper);
        assert(is_hex_digit(digit_char(n % base, upper)));
        let a = render_base(n / base, base, upper);
        let whole = render_base(n, base, upper);
        assert forall|i: int| 0 <= i < whole.len() implies is_hex_digit(#[trigger] whole[i]) by {
            if i < a.len() {
                assert(whole[i] == a[i]);
            } else {
                assert(whole[i] == digit_char(n % base, upper));
            }
        }
    }
}

/// Parsing the hexadecimal rendering of a value under the mask gives the
/// value back.
pub proof fn lemma_hex_round_trip(n: u128, mask: u128, upper: bool)
    requires
        n <= mask,
    ensures
        hex_value(render_base(n, 16, upper), mask) == Some(n),
{
    lemma_render_digits_hex(n, 16, upper);
    lemma_hex_num_render(n, upper);
}

/// The number a hexadecimal rendering denotes is the value rendered.
proof fn lemma_hex_num_render(n: u128, upper: bool)
    ensures
        hex_num(render_base(n, 16, upper)) == n,
    decreases n,
{
    if n < 16 {
        let w = render_base(n, 16, upper);
        assert(w == seq![digit_char(n, upper)]);
        assert_seqs_equal!(w.drop_last() == Seq::<char>::empty());
        assert(w.last() == digit_char(n, upper));
        assert(hex_digit_val(digit_char(n, upper)) == n);
        assert(hex_num(w.drop_last()) == 0);
        assert(hex_num(w) == hex_num(w.drop_last()) * 16 + hex_digit_val(w.last()) as nat);
        assert(hex_num(w) == n);
    } else {
        assert(n / 16 < n && n % 16 < 16) by (nonlinear_arith)
            requires
                n >= 16,
        ;
        lemma_hex_num_render(n / 16, upper);
        let a = render_base(n / 16, 16, upper);
        let w = render_base(n, 16, upper);
        assert(w == a + seq![digit_char(n % 16, upper)]);
        assert(a.len() > 0) by {
            lemma_render_digits_hex(n / 16, 16, upper);
        }
        assert_seqs_equal!(w.drop_last() == a);
        assert(w.last() == digit_char(n % 16, upper));
        assert(hex_digit_val(digit_char(n % 16, upper)) == n % 16);
        assert(hex_num(w) == (n / 16) * 16 + (n % 16));
        assert((n / 16) * 16 + (n % 16) == n) by (nonlinear_arith);
        assert(hex_num(w) == n);
    }
}

/// A hexadecimal digit is neither the separator nor whitespace.
pub proof fn lemma_hex_digit_plain(c: char)
    requires
        is_hex_digit(c),
    ensures
        c != '|',
        !crate::chars::is_wsp(c),
{
    assert('|' as u32 == 124);
    assert(' ' as u32 == 32);
    assert('\t' as u32 == 9);
    assert('\n' as u32 == 10);
    assert('\r' as u32 == 13);
    assert('\u{0b}' as u32 == 11);
    assert('\u{0c}' as u32 == 12);
}

} // verus!
