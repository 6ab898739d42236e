//! Reading a game back from its record in the game notation:
//! `"1. [q,r][q,r]; 2. [q,r][q,r]; ..."`.
//!
//! The record is cut at each `;` into turns.  A turn that is blank, or that
//! has no `.`, is passed over.  After the first `.` comes the move, which
//! must hold `][` between its two cells; each cell, stripped of brackets and
//! spaces, is a comma-separated list in which the parts that read as an
//! `i32` (after trimming) are the coordinates, and there must be exactly
//! two of them.

use vstd::prelude::*;
use crate::notation::{char_is_white_space, is_white_space};

verus! {

/// Why a game record could not be read.
#[derive(Clone, Copy, PartialEq, Eq, Structural, Debug)]
pub enum RecordError {
    /// A move without `][` between its two cells.
    Malformed,
    /// A cell that does not hold exactly two coordinates.
    BadCoordinates,
}

/// The characters that trimming removes: white space, or (for a cell)
/// brackets and spaces.
pub open spec fn strippable(cell: bool, c: char) -> bool {
    if cell {
        c == '[' || c == ']' || c == ' '
    } else {
        is_white_space(c)
    }
}

/// `s` without the strippable characters at its start.
pub open spec fn strip_start(s: Seq<char>, cell: bool) -> Seq<char>
    decreases s.len(),
{
    if s.len() > 0 && strippable(cell, s[0]) {
        strip_start(s.drop_first(), cell)
    } else {
        s
    }
}

/// `s` without the strippable characters at its end.
pub open spec fn strip_end(s: Seq<char>, cell: bool) -> Seq<char>
    decreases s.len(),
{
    if s.len() > 0 && strippable(cell, s.last()) {
        strip_end(s.drop_last(), cell)
    } else {
        s
    }
}

/// `s` without the strippable characters at either end.
pub open spec fn strip(s: Seq<char>, cell: bool) -> Seq<char> {
    strip_start(strip_end(s, cell), cell)
}

/// The first position at or after `from` that holds `c`, or the length of
/// `s` when there is none.
pub open spec fn first_from(s: Seq<char>, c: char, from: int) -> int
    decreases s.len() - from,
{
    if from >= s.len() {
        s.len() as int
    } else if s[from] == c {
        from
    } else {
        first_from(s, c, from + 1)
    }
}

/// The first position at or after `from` where `][` begins, or the length
/// of `s` when there is none.
pub open spec fn first_pair(s: Seq<char>, from: int) -> int
    decreases s.len() - from,
{
    if from + 1 >= s.len() {
        s.len() as int
    } else if s[from] == ']' && s[from + 1] == '[' {
        from
    } else {
        first_pair(s, from + 1)
    }
}

/// Whether `c` is an ASCII decimal digit.
pub open spec fn is_digit(c: char) -> bool {
    '0' <= c && c <= '9'
}

/// Whether every character of `d` is a decimal digit.
pub open spec fn all_digits(d: Seq<char>) -> bool {
    forall|i: int| 0 <= i < d.len() ==> #[trigger] is_digit(d[i])
}

/// The value of a string of decimal digits.
pub open spec fn digits_value(d: Seq<char>) -> int
    decreases d.len(),
{
    if d.len() == 0 {
        0
    } else {
        digits_value(d.drop_last()) * 10 + (d.last() as int - '0' as int)
    }
}

/// The `i32` that `t` spells, as `str::parse` reads one: an optional `+`
/// or `-`, then at least one decimal digit and nothing else, with a value
/// in range.
pub open spec fn parse_int(t: Seq<char>) -> Option<i32> {
    let signed = t.len() > 0 && (t[0] == '+' || t[0] == '-');
    let d = if signed {
        t.drop_first()
    } else {
        t
    };
    let v = if signed && t[0] == '-' {
        -digits_value(d)
    } else {
        digits_value(d)
    };
    if d.len() > 0 && all_digits(d) && i32::MIN <= v <= i32::MAX {
        Some(v as i32)
    } else {
        None
    }
}

/// The numbers among the comma-separated parts of `m` from position `from`
/// on: each part is trimmed, and the parts that do not read as an `i32` are
/// left out.
pub open spec fn numbers_from(m: Seq<char>, from: int) -> Seq<i32>
    decreases m.len() - from,
    via numbers_from_decreases
{
    let e = first_from(m, ',', from);
    let here = parse_int(strip(m.subrange(from, e), false));
    let rest = if e < m.len() {
        numbers_from(m, e + 1)
    } else {
        Seq::empty()
    };
    match here {
        Some(v) => seq![v] + rest,
        None => rest,
    }
}

#[via_fn]
proof fn numbers_from_decreases(m: Seq<char>, from: int) {
    lemma_first_from_bounds(m, ',', from);
}

/// The cell that `m` spells: its numbers, when there are exactly two.
pub open spec fn parse_cell(m: Seq<char>) -> Option<(i32, i32)> {
    let ns = numbers_from(m, 0);
    if ns.len() == 2 {
        Some((ns[0], ns[1]))
    } else {
        None
    }
}

/// What one trimmed turn of the record holds: nothing (`None`) when it is
/// blank or has no `.`, else its move or the reason it cannot be read.
pub open spec fn turn_of(seg: Seq<char>) -> Option<Result<[(i32, i32); 2], RecordError>> {
    let dot = first_from(seg, '.', 0);
    if seg.len() == 0 || dot >= seg.len() {
        None
    } else {
        let mv = strip(seg.subrange(dot + 1, seg.len() as int), false);
        let h = first_pair(mv, 0);
        if h >= mv.len() {
            Some(Err(RecordError::Malformed))
        } else {
            let e = first_pair(mv, h + 2);
            let a = parse_cell(strip(mv.subrange(0, h), true));
            let b = parse_cell(strip(mv.subrange(h + 2, e), true));
            if a is Some && b is Some {
                Some(Ok([a->0, b->0]))
            } else {
                Some(Err(RecordError::BadCoordinates))
            }
        }
    }
}

/// The moves of the record `s` from position `from` on, up to the first
/// turn that cannot be read, and the reason for that one if there is one.
pub open spec fn record_from(s: Seq<char>, from: int) -> (Seq<[(i32, i32); 2]>, Option<RecordError>)
    decreases s.len() - from,
    via record_from_decreases
{
    let e = first_from(s, ';', from);
    let t = turn_of(strip(s.subrange(from, e), false));
    let rest = if e < s.len() {
        record_from(s, e + 1)
    } else {
        (Seq::empty(), None)
    };
    match t {
        None => rest,
        Some(Ok(m)) => (seq![m] + rest.0, rest.1),
        Some(Err(x)) => (Seq::empty(), Some(x)),
    }
}

#[via_fn]
proof fn record_from_decreases(s: Seq<char>, from: int) {
    lemma_first_from_bounds(s, ';', from);
}

/// The moves of a game record, in order, up to the first turn that cannot
/// be read, and the reason for that one if there is one.
pub open spec fn record_moves(s: Seq<char>) -> (Seq<[(i32, i32); 2]>, Option<RecordError>) {
    record_from(s, 0)
}

/// Whether `c` is stripped (see [`strippable`]).
fn is_strippable(cell: bool, c: char) -> (b: bool)
    ensures
        b == strippable(cell, c),
{
    if cell {
        c == '[' || c == ']' || c == ' '
    } else {
        char_is_white_space(c)
    }
}

/// The first position in `from..hi` that holds `c`, or `hi`.
fn find_char(s: &Vec<char>, c: char, lo: usize, from: usize, hi: usize) -> (r: usize)
    requires
        lo <= from <= hi <= s.len(),
    ensures
        from <= r <= hi,
        r - lo == first_from(s@.subrange(lo as int, hi as int), c, from - lo),
{
    let ghost sub = s@.subrange(lo as int, hi as int);
    let mut i = from;
    while i < hi && s[i] != c
        invariant
            lo <= from <= i <= hi <= s.len(),
            sub == s@.subrange(lo as int, hi as int),
            first_from(sub, c, from - lo) == first_from(sub, c, i - lo),
        decreases hi - i,
    {
        proof {
            assert(sub[i - lo] == s@[i as int]);
        }
        i = i + 1;
    }
    proof {
        if i < hi {
            assert(sub[i - lo] == s@[i as int]);
        }
    }
    i
}

/// The first position in `from..hi` where `][` begins, or `hi`.
fn find_pair(s: &Vec<char>, lo: usize, from: usize, hi: usize) -> (r: usize)
    requires
        lo <= from <= hi <= s.len(),
    ensures
        from <= r <= hi,
        r - lo == first_pair(s@.subrange(lo as int, hi as int), from - lo),
{
    let ghost sub = s@.subrange(lo as int, hi as int);
    let mut i = from;
    while hi - i > 1 && !(s[i] == ']' && s[i + 1] == '[')
        invariant
            lo <= from <= i <= hi <= s.len(),
            sub == s@.subrange(lo as int, hi as int),
            first_pair(sub, from - lo) == first_pair(sub, i - lo),
        decreases hi - i,
    {
        proof {
            assert(sub[i - lo] == s@[i as int]);
            assert(sub[i + 1 - lo] == s@[i + 1]);
        }
        i = i + 1;
    }
    if hi - i > 1 {
        proof {
            assert(sub[i - lo] == s@[i as int]);
            assert(sub[i + 1 - lo] == s@[i + 1]);
        }
        i
    } else {
        hi
    }
}

/// The range within `lo..hi` that is left of `s[lo..hi]` when the
/// strippable characters at both ends are removed.
fn strip_range(s: &Vec<char>, lo: usize, hi: usize, cell: bool) -> (r: (usize, usize))
    requires
        lo <= hi <= s.len(),
    ensures
        lo <= r.0 <= r.1 <= hi,
        s@.subrange(r.0 as int, r.1 as int) == strip(s@.subrange(lo as int, hi as int), cell),
{
    let mut b = hi;
    while b > lo && is_strippable(cell, s[b - 1])
        invariant
            lo <= b <= hi <= s.len(),
            strip_end(s@.subrange(lo as int, hi as int), cell) == strip_end(s@.subrange(lo as int, b as int), cell),
        decreases b,
    {
        proof {
            let sub = s@.subrange(lo as int, b as int);
            assert(sub.drop_last() =~= s@.subrange(lo as int, b - 1));
        }
        b = b - 1;
    }
    let ghost kept = s@.subrange(lo as int, b as int);
    proof {
        assert(strip_end(kept, cell) == kept);
    }
    let mut a = lo;
    while a < b && is_strippable(cell, s[a])
        invariant
            lo <= a <= b <= hi <= s.len(),
            strip_start(kept, cell) == strip_start(s@.subrange(a as int, b as int), cell),
        decreases b - a,
    {
        proof {
            let sub = s@.subrange(a as int, b as int);
            assert(sub.drop_first() =~= s@.subrange(a + 1, b as int));
        }
        a = a + 1;
    }
    proof {
        let sub = s@.subrange(a as int, b as int);
        assert(strip_start(sub, cell) == sub);
    }
    (a, b)
}

/// The `i32` that `s[lo..hi]` spells (see [`parse_int`]).
fn parse_int_range(s: &Vec<char>, lo: usize, hi: usize) -> (r: Option<i32>)
    requires
        lo <= hi <= s.len(),
    ensures
        r == parse_int(s@.subrange(lo as int, hi as int)),
{
    let ghost t = s@.subrange(lo as int, hi as int);
    let mut start = lo;
    let mut neg = false;
    if lo < hi && (s[lo] == '+' || s[lo] == '-') {
        neg = s[lo] == '-';
        start = lo + 1;
    }
    let ghost d = s@.subrange(start as int, hi as int);
    proof {
        if start > lo {
            assert(t.drop_first() =~= d);
        } else {
            assert(t =~= d);
        }
    }
    if start == hi {
        return None;
    }
    let mut acc: i64 = 0;
    let mut i = start;
    proof {
        assert(s@.subrange(start as int, start as int) =~= Seq::<char>::empty());
    }
    while i < hi
        invariant
            lo <= start <= i <= hi <= s.len(),
            d == s@.subrange(start as int, hi as int),
            t == s@.subrange(lo as int, hi as int),
            start == lo || start == lo + 1,
            start == lo + 1 <==> (t.len() > 0 && (t[0] == '+' || t[0] == '-')),
            d == (if start > lo { t.drop_first() } else { t }),
            acc == digits_value(s@.subrange(start as int, i as int)),
            0 <= acc <= 2147483648,
            forall|k: int| start <= k < i ==> is_digit(#[trigger] s@[k]),
        decreases hi - i,
    {
        let c = s[i];
        if !('0' <= c && c <= '9') {
            proof {
                assert(d[i - start] == c);
                assert(!is_digit(d[i - start]));
                assert(!all_digits(d));
            }
            return None;
        }
        let ghost before = s@.subrange(start as int, i as int);
        acc = acc * 10 + (c as u32 - '0' as u32) as i64;
        proof {
            assert(s@.subrange(start as int, i + 1).drop_last() =~= before);
        }
        if acc > 2147483648 {
            proof {
                if all_digits(d) {
                    lemma_digits_prefix(d, i + 1 - start);
                    assert(d.subrange(0, i + 1 - start) =~= s@.subrange(start as int, i + 1));
                }
            }
            return None;
        }
        i = i + 1;
    }
    proof {
        assert(s@.subrange(start as int, i as int) =~= d);
        assert forall|k: int| 0 <= k < d.len() implies #[trigger] is_digit(d[k]) by {
            assert(d[k] == s@[start + k]);
        }
        assert(all_digits(d));
    }
    let v: i64 = if neg {
        -acc
    } else {
        acc
    };
    if v < -2147483648 || v > 2147483647 {
        None
    } else {
        Some(v as i32)
    }
}

/// The numbers among the comma-separated parts of `s[lo..hi]` (see
/// [`numbers_from`]).
fn numbers_in(s: &Vec<char>, lo: usize, hi: usize) -> (v: Vec<i32>)
    requires
        lo <= hi <= s.len(),
    ensures
        v@ == numbers_from(s@.subrange(lo as int, hi as int), 0),
{
    let ghost m = s@.subrange(lo as int, hi as int);
    let mut out: Vec<i32> = Vec::new();
    let mut from = lo;
    loop
        invariant
            lo <= from <= hi <= s.len(),
            m == s@.subrange(lo as int, hi as int),
            numbers_from(m, 0) == out@ + numbers_from(m, from - lo),
        decreases hi - from,
    {
        let e = find_char(s, ',', lo, from, hi);
        let (a, b) = strip_range(s, from, e, false);
        let here = parse_int_range(s, a, b);
        proof {
            assert(m.subrange(from - lo, e - lo) =~= s@.subrange(from as int, e as int));
        }
        let ghost before = out@;
        match here {
            Some(x) => {
                out.push(x);
            },
            None => {},
        }
        if e < hi {
            proof {
                assert(numbers_from(m, 0) == out@ + numbers_from(m, e + 1 - lo));
            }
            from = e + 1;
        } else {
            proof {
                assert(out@ =~= numbers_from(m, 0));
            }
            return out;
        }
    }
}

/// The cell that `s[lo..hi]` spells (see [`parse_cell`]).
fn parse_cell_range(s: &Vec<char>, lo: usize, hi: usize) -> (r: Option<(i32, i32)>)
    requires
        lo <= hi <= s.len(),
    ensures
        r == parse_cell(s@.subrange(lo as int, hi as int)),
{
    let ns = numbers_in(s, lo, hi);
    if ns.len() == 2 {
        Some((ns[0], ns[1]))
    } else {
        None
    }
}

/// What the trimmed turn `s[lo..hi]` holds (see [`turn_of`]).
fn turn_in(s: &Vec<char>, lo: usize, hi: usize) -> (r: Option<Result<[(i32, i32); 2], RecordError>>)
    requires
        lo <= hi <= s.len(),
    ensures
        r == turn_of(s@.subrange(lo as int, hi as int)),
{
    let ghost seg = s@.subrange(lo as int, hi as int);
    if lo == hi {
        return None;
    }
    let dot = find_char(s, '.', lo, lo, hi);
    if dot >= hi {
        return None;
    }
    let (a, b) = strip_range(s, dot + 1, hi, false);
    let ghost mv = s@.subrange(a as int, b as int);
    proof {
        assert(seg.subrange(dot + 1 - lo, seg.len() as int) =~= s@.subrange(dot + 1, hi as int));
    }
    let h = find_pair(s, a, a, b);
    if h >= b {
        return Some(Err(RecordError::Malformed));
    }
    proof {
        lemma_first_pair_bounds(mv, 0);
    }
    let e = find_pair(s, a, h + 2, b);
    let (a1, b1) = strip_range(s, a, h, true);
    let (a2, b2) = strip_range(s, h + 2, e, true);
    proof {
        assert(mv.subrange(0, h - a) =~= s@.subrange(a as int, h as int));
        assert(mv.subrange(h + 2 - a, e - a) =~= s@.subrange(h + 2, e as int));
    }
    let c1 = parse_cell_range(s, a1, b1);
    let c2 = parse_cell_range(s, a2, b2);
    match (c1, c2) {
        (Some(x), Some(y)) => Some(Ok([x, y])),
        _ => Some(Err(RecordError::BadCoordinates)),
    }
}

/// The characters of `text`.
fn chars_of(text: &str) -> (v: Vec<char>)
    ensures
        v@ == text@,
{
    let n = text.unicode_len();
    let mut v: Vec<char> = Vec::new();
    let mut i: usize = 0;
    while i < n
        invariant
            i <= n,
            n == text@.len(),
            v@ == text@.subrange(0, i as int),
        decreases n - i,
    {
        v.push(text.get_char(i));
        i = i + 1;
        proof {
            assert(v@ =~= text@.subrange(0, i as int));
        }
    }
    proof {
        assert(v@ =~= text@);
    }
    v
}

/// Reads a game record: its moves in order, up to the first turn that
/// cannot be read, and the reason for that one if there is one (see
/// [`record_moves`]).
pub fn read_record(text: &str) -> (r: (Vec<[(i32, i32); 2]>, Option<RecordError>))
    ensures
        r.0@ == record_moves(text@).0,
        r.1 == record_moves(text@).1,
{
    let s = chars_of(text);
    let n = s.len();
    proof {
        assert(s@.subrange(0, n as int) =~= s@);
    }
    let mut out: Vec<[(i32, i32); 2]> = Vec::new();
    let mut from: usize = 0;
    loop
        invariant
            from <= n,
            n == s@.len(),
            s@ == text@,
            s@.subrange(0, n as int) == s@,
            record_moves(s@).0 == out@ + record_from(s@, from as int).0,
            record_moves(s@).1 == record_from(s@, from as int).1,
        decreases n - from,
    {
        let e = find_char(&s, ';', 0, from, n);
        let (a, b) = strip_range(&s, from, e, false);
        let t = turn_in(&s, a, b);
        let ghost prev = out@;
        let ghost rest = if e < n {
            record_from(s@, e + 1)
        } else {
            (Seq::<[(i32, i32); 2]>::empty(), None::<RecordError>)
        };
        match t {
            None => {},
            Some(Ok(m)) => {
                out.push(m);
                proof {
                    assert(prev + (seq![m] + rest.0) =~= out@ + rest.0);
                }
            },
            Some(Err(x)) => {
                proof {
                    assert(out@ + Seq::<[(i32, i32); 2]>::empty() =~= out@);
                }
                return (out, Some(x));
            },
        }
        if e < n {
            from = e + 1;
        } else {
            proof {
                assert(out@ + rest.0 =~= out@);
            }
            return (out, None);
        }
    }
}

proof fn lemma_digits_prefix(d: Seq<char>, k: int)
    requires
        0 <= k <= d.len(),
        forall|i: int| 0 <= i < d.len() ==> #[trigger] is_digit(d[i]),
    ensures
        digits_value(d) >= digits_value(d.subrange(0, k)) >= 0,
    decreases d.len(),
{
    if d.len() == 0 {
        assert(d.subrange(0, k) =~= d);
    } else if k == d.len() {
        assert(d.subrange(0, k) =~= d);
        lemma_digits_prefix(d.drop_last(), k - 1);
        assert(is_digit(d[d.len() - 1]));
    } else {
        lemma_digits_prefix(d.drop_last(), k);
        assert(d.drop_last().subrange(0, k) =~= d.subrange(0, k));
        assert(is_digit(d[d.len() - 1]));
        assert forall|i: int| 0 <= i < d.drop_last().len() implies #[trigger] is_digit(d.drop_last()[i]) by {
            assert(is_digit(d[i]));
        }
    }
}

proof fn lemma_first_from_bounds(s: Seq<char>, c: char, from: int)
    ensures
        from <= s.len() ==> from <= first_from(s, c, from) <= s.len(),
        from > s.len() ==> first_from(s, c, from) == s.len(),
        first_from(s, c, from) < s.len() ==> s[first_from(s, c, from)] == c,
    decreases s.len() - from,
{
    if from < s.len() && s[from] != c {
        lemma_first_from_bounds(s, c, from + 1);
    }
}

proof fn lemma_first_pair_bounds(s: Seq<char>, from: int)
    ensures
        from <= s.len() ==> from <= first_pair(s, from) <= s.len(),
        first_pair(s, from) < s.len() ==> first_pair(s, from) + 2 <= s.len(),
        first_pair(s, from) >= s.len() ==> first_pair(s, from) == s.len(),
    decreases s.len() - from,
{
    if from + 1 < s.len() && !(s[from] == ']' && s[from + 1] == '[') {
        lemma_first_pair_bounds(s, from + 1);
    }
}

} // verus!
