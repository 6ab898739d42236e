//! The text forms the board writes: decimal numbers and the record of a
//! turn in the game notation, and the trimming of trailing white space.

use vstd::prelude::*;

verus! {

/// The decimal digit `d` (0 to 9) as a character.
pub open spec fn digit_char(d: int) -> char {
    if d == 0 { '0' }
    else if d == 1 { '1' }
    else if d == 2 { '2' }
    else if d == 3 { '3' }
    else if d == 4 { '4' }
    else if d == 5 { '5' }
    else if d == 6 { '6' }
    else if d == 7 { '7' }
    else if d == 8 { '8' }
    else { '9' }
}

/// The decimal digits of a natural number, most significant first, without
/// leading zeros (zero is the single digit `0`).
pub open spec fn nat_decimal(n: nat) -> Seq<char>
    decreases n,
{
    if n < 10 {
        seq![digit_char(n as int)]
    } else {
        nat_decimal(n / 10).push(digit_char((n % 10) as int))
    }
}

/// An integer as Rust's `Display` writes it: a minus sign before negative
/// numbers, then the decimal digits.
pub open spec fn int_decimal(n: int) -> Seq<char> {
    if n < 0 {
        seq!['-'] + nat_decimal((-n) as nat)
    } else {
        nat_decimal(n as nat)
    }
}

/// The record of one turn in the game notation:
/// `"{n}. [{q1},{r1}][{q2},{r2}]; "`.
pub open spec fn turn_record(n: int, q1: int, r1: int, q2: int, r2: int) -> Seq<char> {
    int_decimal(n) + seq!['.', ' ', '['] + int_decimal(q1) + seq![','] + int_decimal(r1)
        + seq![']', '['] + int_decimal(q2) + seq![','] + int_decimal(r2) + seq![']', ';', ' ']
}

/// The characters that Unicode gives the `White_Space` property.
pub open spec fn is_white_space(c: char) -> bool {
    ||| ('\u{9}' <= c && c <= '\u{d}')
    ||| c == ' '
    ||| c == '\u{85}'
    ||| c == '\u{a0}'
    ||| c == '\u{1680}'
    ||| ('\u{2000}' <= c && c <= '\u{200a}')
    ||| c == '\u{2028}'
    ||| c == '\u{2029}'
    ||| c == '\u{202f}'
    ||| c == '\u{205f}'
    ||| c == '\u{3000}'
}

/// A text without its trailing white space.
pub open spec fn trim_end(s: Seq<char>) -> Seq<char>
    decreases s.len(),
{
    if s.len() > 0 && is_white_space(s.last()) {
        trim_end(s.drop_last())
    } else {
        s
    }
}

/// Whether `c` is white space (see [`is_white_space`]).
pub fn char_is_white_space(c: char) -> (b: bool)
    ensures
        b == is_white_space(c),
{
    ('\u{9}' <= c && c <= '\u{d}') || c == ' ' || c == '\u{85}' || c == '\u{a0}'
        || c == '\u{1680}' || ('\u{2000}' <= c && c <= '\u{200a}') || c == '\u{2028}'
        || c == '\u{2029}' || c == '\u{202f}' || c == '\u{205f}' || c == '\u{3000}'
}

/// The digit `d` as a one-character string.
fn digit_str(d: i64) -> (s: &'static str)
    requires
        0 <= d < 10,
    ensures
        s@ == seq![digit_char(d as int)],
{
    proof {
        reveal_strlit("0");
        reveal_strlit("1");
        reveal_strlit("2");
        reveal_strlit("3");
        reveal_strlit("4");
        reveal_strlit("5");
        reveal_strlit("6");
        reveal_strlit("7");
        reveal_strlit("8");
        reveal_strlit("9");
    }
    if d == 0 { "0" }
    else if d == 1 { "1" }
    else if d == 2 { "2" }
    else if d == 3 { "3" }
    else if d == 4 { "4" }
    else if d == 5 { "5" }
    else if d == 6 { "6" }
    else if d == 7 { "7" }
    else if d == 8 { "8" }
    else { "9" }
}

/// Appends the decimal digits of a natural number.
fn push_nat_decimal(s: &mut String, n: i64)
    requires
        n >= 0,
    ensures
        final(s)@ == old(s)@ + nat_decimal(n as nat),
    decreases n,
{
    if n >= 10 {
        push_nat_decimal(s, n / 10);
    }
    s.append(digit_str(n % 10));
    proof {
        if n >= 10 {
            assert(final(s)@ =~= old(s)@ + nat_decimal(n as nat)) by {
                assert(nat_decimal(n as nat) == nat_decimal((n / 10) as nat).push(
                    digit_char((n % 10) as int),
                ));
            }
        }
    }
}

/// Appends an integer as `Display` writes it.
pub fn push_decimal(s: &mut String, n: i64)
    requires
        n > i64::MIN,
    ensures
        final(s)@ == old(s)@ + int_decimal(n as int),
{
    if n < 0 {
        proof {
            reveal_strlit("-");
        }
        s.append("-");
        push_nat_decimal(s, -n);
        proof {
            assert(final(s)@ =~= old(s)@ + int_decimal(n as int));
        }
    } else {
        push_nat_decimal(s, n);
    }
}

/// Appends the record of one turn: `"{n}. [{q1},{r1}][{q2},{r2}]; "`.
pub fn push_turn_record(s: &mut String, n: i64, m: [(i32, i32); 2])
    requires
        n > i64::MIN,
    ensures
        final(s)@ == old(s)@ + turn_record(
            n as int,
            m[0].0 as int,
            m[0].1 as int,
            m[1].0 as int,
            m[1].1 as int,
        ),
{
    proof {
        reveal_strlit(". [");
        reveal_strlit(",");
        reveal_strlit("][");
        reveal_strlit("]; ");
    }
    let ghost s0 = s@;
    push_decimal(s, n);
    s.append(". [");
    push_decimal(s, m[0].0 as i64);
    s.append(",");
    push_decimal(s, m[0].1 as i64);
    s.append("][");
    push_decimal(s, m[1].0 as i64);
    s.append(",");
    push_decimal(s, m[1].1 as i64);
    s.append("]; ");
    proof {
        assert(s@ =~= s0 + turn_record(
            n as int,
            m[0].0 as int,
            m[0].1 as int,
            m[1].0 as int,
            m[1].1 as int,
        ));
    }
}

/// The text `s` without its trailing white space.
pub fn trimmed_end(s: &str) -> (t: String)
    ensures
        t@ == trim_end(s@),
{
    let mut k = s.unicode_len();
    proof {
        assert(s@.subrange(0, k as int) =~= s@);
    }
    while k > 0 && char_is_white_space(s.get_char(k - 1))
        invariant
            k <= s@.len(),
            trim_end(s@) == trim_end(s@.subrange(0, k as int)),
        decreases k,
    {
        proof {
            let sub = s@.subrange(0, k as int);
            assert(sub.drop_last() =~= s@.subrange(0, k - 1));
        }
        k = k - 1;
    }
    proof {
        assert(s@.subrange(0, k as int) == trim_end(s@.subrange(0, k as int)));
    }
    String::from_str(s.substring_char(0, k))
}

} // verus!
