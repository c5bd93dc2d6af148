//! Decimal codec for participant identifiers.
//!
//! The wire format tags every payload with a base-10 unsigned sender id, so
//! the library prints and parses `u32` values itself, against a single
//! mathematical description of decimal notation.

use vstd::prelude::*;

verus! {

/// The decimal digit character for a value below ten.
pub open spec fn digit_char(d: nat) -> char {
    if d == 0 {
        '0'
    } else if d == 1 {
        '1'
    } else if d == 2 {
        '2'
    } else if d == 3 {
        '3'
    } else if d == 4 {
        '4'
    } else if d == 5 {
        '5'
    } else if d == 6 {
        '6'
    } else if d == 7 {
        '7'
    } else if d == 8 {
        '8'
    } else {
        '9'
    }
}

/// Whether `c` is a decimal digit character.
pub open spec fn is_dec_digit(c: char) -> bool {
    c == '0' || c == '1' || c == '2' || c == '3' || c == '4' || c == '5' || c == '6' || c == '7'
        || c == '8' || c == '9'
}

/// The numeric value of a digit character (meaningful when `is_dec_digit(c)`).
pub open spec fn digit_value(c: char) -> nat {
    if c == '0' {
        0
    } else if c == '1' {
        1
    } else if c == '2' {
        2
    } else if c == '3' {
        3
    } else if c == '4' {
        4
    } else if c == '5' {
        5
    } else if c == '6' {
        6
    } else if c == '7' {
        7
    } else if c == '8' {
        8
    } else {
        9
    }
}

/// The decimal rendering of `n`: most significant digit first, no sign, no
/// leading zeros (a single `'0'` for zero).
pub open spec fn dec_chars(n: nat) -> Seq<char>
    decreases n,
{
    if n < 10 {
        seq![digit_char(n)]
    } else {
        dec_chars(n / 10).push(digit_char(n % 10))
    }
}

/// Whether every character of `s` is a decimal digit.
pub open spec fn all_digits(s: Seq<char>) -> bool {
    forall|i: int| 0 <= i < s.len() ==> is_dec_digit(#[trigger] s[i])
}

/// The numeric value of a digit string, most significant digit first.
pub open spec fn dec_value(s: Seq<char>) -> nat
    decreases s.len(),
{
    if s.len() == 0 {
        0
    } else {
        dec_value(s.drop_last()) * 10 + digit_value(s.last())
    }
}

/// What the sender-tag parser accepts: a non-empty run of digits whose value
/// fits in `u32`. Anything else (empty, a sign, a non-digit, overflow) is
/// rejected and the payload falls back to raw text.
pub open spec fn parse_u32_chars(s: Seq<char>) -> Option<u32> {
    if s.len() > 0 && all_digits(s) && dec_value(s) <= u32::MAX {
        Some(dec_value(s) as u32)
    } else {
        None
    }
}

/// The decimal rendering of any value is a non-empty digit string.
pub proof fn lemma_dec_chars_digits(n: nat)
    ensures
        dec_chars(n).len() >= 1,
        all_digits(dec_chars(n)),
    decreases n,
{
    if n >= 10 {
        lemma_dec_chars_digits(n / 10);
    }
}

/// Printing is faithful: the digit string of `n` evaluates back to `n`.
pub proof fn lemma_dec_chars_value(n: nat)
    ensures
        dec_value(dec_chars(n)) == n,
    decreases n,
{
    if n < 10 {
        assert(dec_chars(n).drop_last() =~= Seq::<char>::empty());
        assert(dec_value(dec_chars(n).drop_last()) == 0);
    } else {
        lemma_dec_chars_value(n / 10);
        assert(dec_chars(n).drop_last() =~= dec_chars(n / 10));
    }
}

/// Round trip: a printed `u32` always parses back to itself.
pub proof fn lemma_parse_dec_chars(n: u32)
    ensures
        parse_u32_chars(dec_chars(n as nat)) == Some(n),
{
    lemma_dec_chars_digits(n as nat);
    lemma_dec_chars_value(n as nat);
}

/// Extending a digit string with more digits never lowers its value.
pub proof fn lemma_dec_value_prefix_le(s: Seq<char>, i: int)
    requires
        0 <= i <= s.len(),
    ensures
        dec_value(s.take(i)) <= dec_value(s),
    decreases s.len(),
{
    if i == s.len() {
        assert(s.take(i) =~= s);
    } else {
        lemma_dec_value_prefix_le(s.drop_last(), i);
        assert(s.drop_last().take(i) =~= s.take(i));
    }
}

/// The digit character for a value below ten.
pub fn digit_to_char_str(d: u32) -> (r: &'static str)
    requires
        d < 10,
    ensures
        r@ == seq![digit_char(d as nat)],
{
    let r: &'static str = match d {
        0 => "0",
        1 => "1",
        2 => "2",
        3 => "3",
        4 => "4",
        5 => "5",
        6 => "6",
        7 => "7",
        8 => "8",
        _ => "9",
    };
    proof {
        reveal_strlit("0");
        reveal_strlit("1");
        reveal_strlit("2");
        reveal_strlit("3");
        reveal_strlit("4");
        reveal_strlit("5");
        reveal_strlit("6");
        reveal_strlit("7");
        reveal_strlit("8");
        reveal_strlit("9");
        assert(r@ =~= seq![digit_char(d as nat)]);
    }
    r
}

/// The digit value of a character, or `None` off the digit range.
pub fn char_to_digit(c: char) -> (r: Option<u32>)
    ensures
        r is Some <==> is_dec_digit(c),
        r is Some ==> r->0 < 10 && r->0 as nat == digit_value(c),
{
    match c {
        '0' => Some(0),
        '1' => Some(1),
        '2' => Some(2),
        '3' => Some(3),
        '4' => Some(4),
        '5' => Some(5),
        '6' => Some(6),
        '7' => Some(7),
        '8' => Some(8),
        '9' => Some(9),
        _ => None,
    }
}

/// Appends the decimal rendering of `n` to `s`.
fn push_decimal(s: &mut String, n: u32)
    ensures
        final(s)@ == old(s)@ + dec_chars(n as nat),
    decreases n,
{
    if n >= 10 {
        push_decimal(s, n / 10);
    }
    let d = digit_to_char_str(n % 10);
    s.append(d);
    proof {
        if n < 10 {
            assert(n % 10 == n);
        }
        assert(s@ =~= old(s)@ + dec_chars(n as nat));
    }
}

/// Prints `n` in decimal.
pub fn u32_to_decimal(n: u32) -> (r: String)
    ensures
        r@ == dec_chars(n as nat),
{
    let mut s = String::new();
    push_decimal(&mut s, n);
    proof {
        assert(s@ =~= dec_chars(n as nat));
    }
    s
}

/// Parses a digit-only string as a `u32`, exactly as `parse_u32_chars` says:
/// `None` on an empty string, on any non-digit, and on overflow.
pub fn parse_u32_decimal(s: &str) -> (r: Option<u32>)
    ensures
        r == parse_u32_chars(s@),
{
    let n = s.unicode_len();
    if n == 0 {
        return None;
    }
    let mut val: u32 = 0;
    let mut i: usize = 0;
    while i < n
        invariant
            n == s@.len(),
            n > 0,
            0 <= i <= n,
            all_digits(s@.take(i as int)),
            val as nat == dec_value(s@.take(i as int)),
        decreases n - i,
    {
        let c = s.get_char(i);
        match char_to_digit(c) {
            None => {
                return None;
            },
            Some(d) => {
                if val > (u32::MAX - d) / 10 {
                    proof {
                        let t = s@.take(i as int + 1);
                        assert(t.drop_last() =~= s@.take(i as int));
                        assert(t.last() == c);
                        assert(dec_value(t) == val * 10 + d);
                        assert(val * 10 + d > u32::MAX) by (nonlinear_arith)
                            requires
                                val > (u32::MAX - d) / 10,
                                d < 10,
                        ;
                        lemma_dec_value_prefix_le(s@, i as int + 1);
                        assert(dec_value(s@) > u32::MAX);
                    }
                    return None;
                }
                proof {
                    assert(val * 10 + d <= u32::MAX) by (nonlinear_arith)
                        requires
                            val <= (u32::MAX - d) / 10,
                            d < 10,
                    ;
                }
                val = val * 10 + d;
                proof {
                    let t = s@.take(i as int + 1);
                    assert(t.drop_last() =~= s@.take(i as int));
                    assert(t.last() == c);
                }
                i = i + 1;
            },
        }
    }
    proof {
        assert(s@.take(n as int) =~= s@);
    }
    Some(val)
}

} // verus!
