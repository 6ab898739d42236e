//! The record that a game writes reads back as the game's moves.

use vstd::prelude::*;
use crate::board::{Board, has_six, occupies, player_cells, six_from, step};
use crate::engine::{replays, turn_taken, winner_of};
use crate::fxhash::Coord;
use crate::notation::{digit_char, int_decimal, is_white_space, nat_decimal, turn_record, trim_end};
use crate::game_record::{
    all_digits, digits_value, first_from, first_pair, is_digit, numbers_from, parse_cell, parse_int,
    record_from, record_moves, strip, strip_end, strip_start, strippable, turn_of,
};

verus! {

/// The record of the turns `ms`, numbered from `first` on.
pub open spec fn record_of(ms: Seq<[(i32, i32); 2]>, first: int) -> Seq<char>
    decreases ms.len(),
{
    if ms.len() == 0 {
        Seq::empty()
    } else {
        turn_record(first, ms[0][0].0 as int, ms[0][0].1 as int, ms[0][1].0 as int, ms[0][1].1 as int)
            + record_of(ms.drop_first(), first + 1)
    }
}

proof fn lemma_digit_char(d: int)
    requires
        0 <= d < 10,
    ensures
        is_digit(digit_char(d)),
        digit_char(d) as int - '0' as int == d,
{
}

proof fn lemma_nat_decimal(n: nat)
    ensures
        nat_decimal(n).len() > 0,
        all_digits(nat_decimal(n)),
        digits_value(nat_decimal(n)) == n,
    decreases n,
{
    let s = nat_decimal(n);
    if n < 10 {
        lemma_digit_char(n as int);
        assert(s.drop_last() =~= Seq::<char>::empty());
        assert(digits_value(s.drop_last()) == 0);
    } else {
        lemma_nat_decimal(n / 10);
        lemma_digit_char((n % 10) as int);
        let p = nat_decimal(n / 10);
        assert(s.drop_last() =~= p);
        assert(s.last() == digit_char((n % 10) as int));
        assert((n / 10) as int * 10 + (n % 10) as int == n) by (nonlinear_arith);
        assert forall|i: int| 0 <= i < s.len() implies #[trigger] is_digit(s[i]) by {
            if i < p.len() {
                assert(is_digit(p[i]));
            }
        }
    }
}

/// The characters of a number as `Display` writes it: a leading `-` for a
/// negative number, and digits otherwise; the last is a digit.
proof fn lemma_int_decimal(n: int)
    ensures
        int_decimal(n).len() > 0,
        forall|i: int| 0 <= i < int_decimal(n).len() ==> is_digit(#[trigger] int_decimal(n)[i]) || (i == 0
            && int_decimal(n)[i] == '-'),
        is_digit(int_decimal(n).last()),
        i32::MIN <= n <= i32::MAX ==> parse_int(int_decimal(n)) == Some(n as i32),
{
    if n < 0 {
        let m = (-n) as nat;
        lemma_nat_decimal(m);
        let s = int_decimal(n);
        let d = nat_decimal(m);
        assert(s.drop_first() =~= d);
        assert forall|i: int| 0 <= i < s.len() implies is_digit(#[trigger] s[i]) || (i == 0 && s[i] == '-') by {
            if i > 0 {
                assert(s[i] == d[i - 1]);
                assert(is_digit(d[i - 1]));
            }
        }
        assert(is_digit(d[d.len() - 1]));
        assert(s.last() == d.last());
    } else {
        lemma_nat_decimal(n as nat);
        let d = nat_decimal(n as nat);
        assert(is_digit(d[0]));
        assert(is_digit(d[d.len() - 1]));
    }
}

proof fn lemma_first_skip(s: Seq<char>, c: char, from: int, k: int)
    requires
        0 <= from <= k <= s.len(),
        forall|i: int| from <= i < k ==> s[i] != c,
    ensures
        first_from(s, c, from) == first_from(s, c, k),
    decreases k - from,
{
    if from < k {
        lemma_first_skip(s, c, from + 1, k);
    }
}

/// The first `c` from `from` on is at `k` when none comes before it.
proof fn lemma_first_at(s: Seq<char>, c: char, from: int, k: int)
    requires
        0 <= from <= k < s.len(),
        s[k] == c,
        forall|i: int| from <= i < k ==> s[i] != c,
    ensures
        first_from(s, c, from) == k,
{
    lemma_first_skip(s, c, from, k);
}

/// There is no `c` from `from` on.
proof fn lemma_first_none(s: Seq<char>, c: char, from: int)
    requires
        0 <= from <= s.len(),
        forall|i: int| from <= i < s.len() ==> s[i] != c,
    ensures
        first_from(s, c, from) == s.len(),
{
    lemma_first_skip(s, c, from, s.len() as int);
}

proof fn lemma_pair_skip(s: Seq<char>, from: int, k: int)
    requires
        0 <= from <= k <= s.len(),
        forall|i: int| from <= i < k ==> s[i] != ']',
    ensures
        first_pair(s, from) == first_pair(s, k),
    decreases k - from,
{
    if from < k {
        lemma_pair_skip(s, from + 1, k);
    }
}

/// The first `][` from `from` on is at `k` when no `]` comes before it.
proof fn lemma_pair_at(s: Seq<char>, from: int, k: int)
    requires
        0 <= from <= k,
        k + 1 < s.len(),
        s[k] == ']',
        s[k + 1] == '[',
        forall|i: int| from <= i < k ==> s[i] != ']',
    ensures
        first_pair(s, from) == k,
{
    lemma_pair_skip(s, from, k);
}

/// There is no `][` from `from` on when no `]` comes before the last
/// character.
proof fn lemma_pair_none(s: Seq<char>, from: int)
    requires
        0 <= from <= s.len(),
        forall|i: int| from <= i < s.len() - 1 ==> s[i] != ']',
    ensures
        first_pair(s, from) == s.len(),
{
    if from < s.len() {
        lemma_pair_skip(s, from, s.len() - 1);
    }
}

/// Stripping keeps a text that begins and ends with characters it keeps.
proof fn lemma_strip_keep(x: Seq<char>, cell: bool)
    requires
        x.len() > 0,
        !strippable(cell, x[0]),
        !strippable(cell, x.last()),
    ensures
        strip(x, cell) == x,
{
}

/// Stripping removes one strippable character before such a text.
proof fn lemma_strip_lead(c: char, x: Seq<char>, cell: bool)
    requires
        strippable(cell, c),
        x.len() > 0,
        !strippable(cell, x[0]),
        !strippable(cell, x.last()),
    ensures
        strip(seq![c] + x, cell) == x,
{
    let y = seq![c] + x;
    assert(y.last() == x.last());
    assert(strip_end(y, cell) == y);
    assert(y[0] == c);
    assert(y.drop_first() =~= x);
    assert(strip_start(x, cell) == x);
    assert(strip_start(y, cell) == strip_start(x, cell));
}

/// Stripping removes one strippable character after such a text.
proof fn lemma_strip_trail(x: Seq<char>, c: char, cell: bool)
    requires
        strippable(cell, c),
        x.len() > 0,
        !strippable(cell, x[0]),
        !strippable(cell, x.last()),
    ensures
        strip(x + seq![c], cell) == x,
{
    let y = x + seq![c];
    assert(y.drop_last() =~= x);
    assert(strip_end(y, cell) == strip_end(x, cell));
}

/// A number as `Display` writes it, then a comma, then another, reads back
/// as the cell of the two.
proof fn lemma_cell_reads_back(a: i32, b: i32)
    ensures
        parse_cell(int_decimal(a as int) + seq![','] + int_decimal(b as int)) == Some((a, b)),
{
    let da = int_decimal(a as int);
    let db = int_decimal(b as int);
    lemma_int_decimal(a as int);
    lemma_int_decimal(b as int);
    let m = da + seq![','] + db;
    let ka = da.len() as int;
    assert(m[ka] == ',');
    assert forall|i: int| 0 <= i < ka implies m[i] != ',' by {
        assert(m[i] == da[i]);
        assert(is_digit(da[i]) || da[i] == '-');
    }
    lemma_first_at(m, ',', 0, ka);
    assert forall|i: int| ka + 1 <= i < m.len() implies m[i] != ',' by {
        assert(m[i] == db[i - ka - 1]);
        assert(is_digit(db[i - ka - 1]) || db[i - ka - 1] == '-');
    }
    lemma_first_none(m, ',', ka + 1);
    assert(m.subrange(0, ka) =~= da);
    assert(m.subrange(ka + 1, m.len() as int) =~= db);
    assert(is_digit(da[0]) || da[0] == '-');
    assert(is_digit(db[0]) || db[0] == '-');
    lemma_strip_keep(da, false);
    lemma_strip_keep(db, false);
    assert(numbers_from(m, ka + 1) == seq![b]);
    assert(numbers_from(m, 0) == seq![a] + seq![b]);
}

/// Whether every character of `s` is a digit, a minus sign or a comma.
spec fn plain(s: Seq<char>) -> bool {
    forall|i: int| 0 <= i < s.len() ==> is_digit(#[trigger] s[i]) || s[i] == '-' || s[i] == ','
}

proof fn lemma_plain_cell(a: int, b: int)
    ensures
        plain(int_decimal(a) + seq![','] + int_decimal(b)),
        (int_decimal(a) + seq![','] + int_decimal(b)).len() > 0,
        is_digit((int_decimal(a) + seq![','] + int_decimal(b))[0]) || (int_decimal(a) + seq![','] + int_decimal(
            b,
        ))[0] == '-',
        is_digit((int_decimal(a) + seq![','] + int_decimal(b)).last()),
{
    lemma_int_decimal(a);
    lemma_int_decimal(b);
    let da = int_decimal(a);
    let db = int_decimal(b);
    let p = da + seq![','] + db;
    assert forall|i: int| 0 <= i < p.len() implies is_digit(#[trigger] p[i]) || p[i] == '-' || p[i] == ',' by {
        if i < da.len() {
            assert(p[i] == da[i]);
            assert(is_digit(da[i]) || da[i] == '-');
        } else if i > da.len() {
            assert(p[i] == db[i - da.len() - 1]);
            assert(is_digit(db[i - da.len() - 1]) || db[i - da.len() - 1] == '-');
        }
    }
    assert(p[0] == da[0]);
    assert(is_digit(da[0]) || da[0] == '-');
    assert(p.last() == db.last());
}

/// The text of a cell in the record: `q,r`.
spec fn cell_text(c: (i32, i32)) -> Seq<char> {
    int_decimal(c.0 as int) + seq![','] + int_decimal(c.1 as int)
}

/// The text of a move in the record: `[q,r][q,r]`.
spec fn move_text(m: [(i32, i32); 2]) -> Seq<char> {
    seq!['['] + cell_text(m[0]) + seq![']', '['] + cell_text(m[1]) + seq![']']
}

/// The move's text splits at its `][` into two cells that read back.
proof fn lemma_move_reads_back(m: [(i32, i32); 2])
    ensures
        ({
            let mv = move_text(m);
            let h = cell_text(m[0]).len() + 1int;
            &&& first_pair(mv, 0) == h
            &&& h + 2 <= mv.len()
            &&& first_pair(mv, h + 2) == mv.len()
            &&& parse_cell(strip(mv.subrange(0, h), true)) == Some(m[0])
            &&& parse_cell(strip(mv.subrange(h + 2, mv.len() as int), true)) == Some(m[1])
            &&& mv[0] == '['
            &&& mv.last() == ']'
            &&& forall|i: int| 0 <= i < mv.len() ==> #[trigger] mv[i] != ';' && mv[i] != '.'
        }),
{
    let p1 = cell_text(m[0]);
    let p2 = cell_text(m[1]);
    lemma_plain_cell(m[0].0 as int, m[0].1 as int);
    lemma_plain_cell(m[1].0 as int, m[1].1 as int);
    let a = seq!['['] + p1;
    let mv = move_text(m);
    let h = a.len() as int;
    assert(mv =~= a + seq![']', '['] + p2 + seq![']']);
    assert forall|i: int| 0 <= i < mv.len() implies #[trigger] mv[i] != ';' && mv[i] != '.' && (i < h || h + 2
        <= i < mv.len() - 1 ==> mv[i] != ']') by {
        if 1 <= i < h {
            assert(mv[i] == p1[i - 1]);
            assert(is_digit(p1[i - 1]) || p1[i - 1] == '-' || p1[i - 1] == ',');
        } else if h + 2 <= i < mv.len() - 1 {
            assert(mv[i] == p2[i - h - 2]);
            assert(is_digit(p2[i - h - 2]) || p2[i - h - 2] == '-' || p2[i - h - 2] == ',');
        }
    }
    assert(mv[h] == ']' && mv[h + 1] == '[');
    lemma_pair_at(mv, 0, h);
    lemma_pair_none(mv, h + 2);
    assert(mv.subrange(0, h) =~= seq!['['] + p1);
    assert(mv.subrange(h + 2, mv.len() as int) =~= p2 + seq![']']);
    lemma_strip_lead('[', p1, true);
    lemma_strip_trail(p2, ']', true);
    lemma_cell_reads_back(m[0].0, m[0].1);
    lemma_cell_reads_back(m[1].0, m[1].1);
}

/// A turn's number, a dot and a space, then its move, reads back as the
/// move.
proof fn lemma_numbered_move(f: int, m: [(i32, i32); 2])
    ensures
        ({
            let x = int_decimal(f) + seq!['.', ' '] + move_text(m);
            &&& turn_of(x) == Some(Ok::<[(i32, i32); 2], crate::game_record::RecordError>(m))
            &&& x.len() > 0
            &&& !is_white_space(x[0])
            &&& x.last() == ']'
            &&& forall|i: int| 0 <= i < x.len() ==> #[trigger] x[i] != ';'
        }),
{
    let df = int_decimal(f);
    lemma_int_decimal(f);
    lemma_move_reads_back(m);
    let mv = move_text(m);
    let x = df + seq!['.', ' '] + mv;
    let kf = df.len() as int;
    assert forall|i: int| 0 <= i < x.len() implies (i < kf ==> x[i] != '.') && #[trigger] x[i] != ';' by {
        if i < kf {
            assert(x[i] == df[i]);
            assert(is_digit(df[i]) || df[i] == '-');
        } else if i >= kf + 2 {
            assert(x[i] == mv[i - kf - 2]);
        }
    }
    assert(x[kf] == '.');
    lemma_first_at(x, '.', 0, kf);
    assert(x.subrange(kf + 1, x.len() as int) =~= seq![' '] + mv);
    lemma_strip_lead(' ', mv, false);
    assert(x[0] == df[0]);
    assert(is_digit(df[0]) || df[0] == '-');
    assert(x.last() == mv.last());
    let h = cell_text(m[0]).len() + 1int;
    let a = parse_cell(strip(mv.subrange(0, h), true));
    let b = parse_cell(strip(mv.subrange(h + 2, mv.len() as int), true));
    assert([a->0, b->0] =~= m);
}

/// One turn of the record is its number and move, then `"; "`.
proof fn lemma_turn_record_text(f: int, m: [(i32, i32); 2])
    ensures
        turn_record(f, m[0].0 as int, m[0].1 as int, m[1].0 as int, m[1].1 as int) == int_decimal(f) + seq![
            '.',
            ' ',
        ] + move_text(m) + seq![';', ' '],
{
    assert(turn_record(f, m[0].0 as int, m[0].1 as int, m[1].0 as int, m[1].1 as int) =~= int_decimal(f)
        + seq!['.', ' '] + move_text(m) + seq![';', ' ']);
}

proof fn lemma_first_bounds(s: Seq<char>, c: char, from: int)
    requires
        0 <= from <= s.len(),
    ensures
        from <= first_from(s, c, from) <= s.len(),
        first_from(s, c, from) < s.len() ==> s[first_from(s, c, from)] == c,
    decreases s.len() - from,
{
    if from < s.len() && s[from] != c {
        lemma_first_bounds(s, c, from + 1);
    }
}

/// Searching from `k` on is searching the text that starts at `k`.
proof fn lemma_first_shift(s: Seq<char>, c: char, k: int)
    requires
        0 <= k <= s.len(),
    ensures
        first_from(s, c, k) == k + first_from(s.subrange(k, s.len() as int), c, 0),
    decreases s.len() - k,
{
    let sub = s.subrange(k, s.len() as int);
    if k < s.len() && s[k] != c {
        lemma_first_shift(s, c, k + 1);
        lemma_first_shift(sub, c, 1);
        assert(sub.subrange(1, sub.len() as int) =~= s.subrange(k + 1, s.len() as int));
        assert(sub[0] == s[k]);
    } else if k < s.len() {
        assert(sub[0] == s[k]);
    }
}

/// Reading the record from `k` on is reading the text that starts at `k`.
proof fn lemma_record_shift(s: Seq<char>, k: int)
    requires
        0 <= k <= s.len(),
    ensures
        record_from(s, k) == record_from(s.subrange(k, s.len() as int), 0),
    decreases s.len() - k,
{
    let sub = s.subrange(k, s.len() as int);
    let e = first_from(s, ';', k);
    lemma_first_shift(s, ';', k);
    lemma_first_bounds(s, ';', k);
    let e2 = first_from(sub, ';', 0);
    assert(s.subrange(k, e) =~= sub.subrange(0, e2));
    if e < s.len() {
        lemma_record_shift(s, e + 1);
        lemma_record_shift(sub, e2 + 1);
        assert(sub.subrange(e2 + 1, sub.len() as int) =~= s.subrange(e + 1, s.len() as int));
    }
}

/// Stripping the end of a text after a strippable character.
proof fn lemma_strip_end_cons(c: char, z: Seq<char>, cell: bool)
    requires
        strippable(cell, c),
    ensures
        strip_end(seq![c] + z, cell) == (if strip_end(z, cell).len() == 0 {
            Seq::<char>::empty()
        } else {
            seq![c] + strip_end(z, cell)
        }),
    decreases z.len(),
{
    let y = seq![c] + z;
    if z.len() == 0 {
        assert(y.drop_last() =~= Seq::<char>::empty());
        assert(strip_end(Seq::<char>::empty(), cell) == Seq::<char>::empty());
    } else if strippable(cell, z.last()) {
        assert(y.last() == z.last());
        assert(y.drop_last() =~= seq![c] + z.drop_last());
        lemma_strip_end_cons(c, z.drop_last(), cell);
    } else {
        assert(y.last() == z.last());
    }
}

/// A strippable character in front changes nothing once stripped.
proof fn lemma_strip_cons(c: char, z: Seq<char>, cell: bool)
    requires
        strippable(cell, c),
    ensures
        strip(seq![c] + z, cell) == strip(z, cell),
{
    lemma_strip_end_cons(c, z, cell);
    let t = strip_end(z, cell);
    if t.len() == 0 {
        assert(strip_start(Seq::<char>::empty(), cell) == Seq::<char>::empty());
        assert(strip_start(t, cell) == t);
    } else {
        let y = seq![c] + t;
        assert(y[0] == c);
        assert(y.drop_first() =~= t);
    }
}

/// A space before a record changes nothing that is read of it.
proof fn lemma_record_space(x: Seq<char>)
    ensures
        record_from(seq![' '] + x, 0) == record_from(x, 0),
{
    let y = seq![' '] + x;
    assert(y[0] == ' ');
    lemma_first_shift(y, ';', 1);
    assert(y.subrange(1, y.len() as int) =~= x);
    let ex = first_from(x, ';', 0);
    lemma_first_bounds(x, ';', 0);
    let ey = first_from(y, ';', 0);
    assert(ey == 1 + ex);
    assert(y.subrange(0, ey) =~= seq![' '] + x.subrange(0, ex));
    lemma_strip_cons(' ', x.subrange(0, ex), false);
    if ex < x.len() {
        lemma_record_shift(y, ey + 1);
        lemma_record_shift(x, ex + 1);
        assert(y.subrange(ey + 1, y.len() as int) =~= x.subrange(ex + 1, x.len() as int));
    }
}

/// A space after a record changes nothing that is read of it.
proof fn lemma_record_trailing_space(s: Seq<char>, k: int)
    requires
        0 <= k <= s.len(),
    ensures
        record_from(s.push(' '), k) == record_from(s, k),
    decreases s.len() - k,
{
    let t = s.push(' ');
    let e = first_from(s, ';', k);
    lemma_first_bounds(s, ';', k);
    if e < s.len() {
        assert forall|i: int| k <= i < e implies t[i] != ';' by {
            lemma_first_skip_back(s, ';', k, i);
        }
        lemma_first_at(t, ';', k, e);
        assert(t.subrange(k, e) =~= s.subrange(k, e));
        lemma_record_trailing_space(s, e + 1);
    } else {
        assert forall|i: int| k <= i < t.len() implies t[i] != ';' by {
            if i < s.len() {
                lemma_first_skip_back(s, ';', k, i);
            }
        }
        lemma_first_none(t, ';', k);
        let seg = s.subrange(k, e);
        assert(t.subrange(k, t.len() as int) =~= seg.push(' '));
        assert(seg.push(' ').drop_last() =~= seg);
        assert(strip_end(seg.push(' '), false) == strip_end(seg, false));
    }
}

/// No `c` comes before the first one.
proof fn lemma_first_skip_back(s: Seq<char>, c: char, from: int, i: int)
    requires
        0 <= from <= i < first_from(s, c, from),
    ensures
        s[i] != c,
    decreases i - from,
{
    if from < s.len() && s[from] != c && from < i {
        lemma_first_skip_back(s, c, from + 1, i);
    }
}

/// The record of the turns `ms` reads back as `ms`.
proof fn lemma_record_of_reads_back(ms: Seq<[(i32, i32); 2]>, f: int)
    ensures
        record_from(record_of(ms, f), 0) == (ms, None::<crate::game_record::RecordError>),
    decreases ms.len(),
{
    let h = record_of(ms, f);
    if ms.len() == 0 {
        assert(strip(Seq::<char>::empty(), false) == Seq::<char>::empty());
        assert(h.subrange(0, 0) =~= Seq::<char>::empty());
    } else {
        let m = ms[0];
        lemma_turn_record_text(f, m);
        lemma_numbered_move(f, m);
        let x = int_decimal(f) + seq!['.', ' '] + move_text(m);
        let rest = record_of(ms.drop_first(), f + 1);
        assert(h =~= x + seq![';'] + (seq![' '] + rest));
        assert forall|i: int| 0 <= i < x.len() implies h[i] != ';' by {
            assert(h[i] == x[i]);
        }
        lemma_first_at(h, ';', 0, x.len() as int);
        assert(h.subrange(0, x.len() as int) =~= x);
        lemma_strip_keep(x, false);
        lemma_record_shift(h, x.len() + 1int);
        assert(h.subrange(x.len() + 1int, h.len() as int) =~= seq![' '] + rest);
        lemma_record_space(rest);
        lemma_record_of_reads_back(ms.drop_first(), f + 1);
        assert(seq![m] + ms.drop_first() =~= ms);
    }
}

/// A non-empty record ends with `"; "`.
proof fn lemma_record_of_end(ms: Seq<[(i32, i32); 2]>, f: int)
    requires
        ms.len() > 0,
    ensures
        record_of(ms, f).len() >= 2,
        record_of(ms, f).last() == ' ',
        record_of(ms, f)[record_of(ms, f).len() - 2] == ';',
    decreases ms.len(),
{
    let m = ms[0];
    lemma_turn_record_text(f, m);
    let tr = turn_record(f, m[0].0 as int, m[0].1 as int, m[1].0 as int, m[1].1 as int);
    let rest = record_of(ms.drop_first(), f + 1);
    if ms.len() > 1 {
        lemma_record_of_end(ms.drop_first(), f + 1);
    } else {
        assert(rest =~= Seq::<char>::empty());
    }
    let h = record_of(ms, f);
    assert(h == tr + rest);
}

/// Appending a turn to the turns appends its record.
proof fn lemma_record_of_push(ms: Seq<[(i32, i32); 2]>, m: [(i32, i32); 2], f: int)
    ensures
        record_of(ms.push(m), f) == record_of(ms, f) + turn_record(
            f + ms.len(),
            m[0].0 as int,
            m[0].1 as int,
            m[1].0 as int,
            m[1].1 as int,
        ),
    decreases ms.len(),
{
    if ms.len() == 0 {
        assert(ms.push(m).drop_first() =~= Seq::<[(i32, i32); 2]>::empty());
        assert(record_of(ms.push(m).drop_first(), f + 1) == Seq::<char>::empty());
        assert(record_of(ms, f) == Seq::<char>::empty());
        assert(ms.push(m)[0] == m);
        assert(record_of(ms.push(m), f) =~= record_of(ms, f) + turn_record(
            f + ms.len(),
            m[0].0 as int,
            m[0].1 as int,
            m[1].0 as int,
            m[1].1 as int,
        ));
    } else {
        lemma_record_of_push(ms.drop_first(), m, f + 1);
        assert(ms.push(m).drop_first() =~= ms.drop_first().push(m));
        assert(ms.push(m)[0] == ms[0]);
        let tr = turn_record(f, ms[0][0].0 as int, ms[0][0].1 as int, ms[0][1].0 as int, ms[0][1].1 as int);
        let tl = turn_record(f + ms.len(), m[0].0 as int, m[0].1 as int, m[1].0 as int, m[1].1 as int);
        assert(tr + (record_of(ms.drop_first(), f + 1) + tl) =~= (tr + record_of(ms.drop_first(), f + 1)) + tl);
    }
}

/// The record that the turns `ms` write reads back as `ms`: as written,
/// and without its trailing space, as the export gives it.
pub proof fn law_record_reads_back(ms: Seq<[(i32, i32); 2]>, first: int)
    ensures
        record_moves(record_of(ms, first)) == (ms, None::<crate::game_record::RecordError>),
        record_moves(trim_end(record_of(ms, first))) == (ms, None::<crate::game_record::RecordError>),
{
    lemma_record_of_reads_back(ms, first);
    let h = record_of(ms, first);
    if ms.len() > 0 {
        lemma_record_of_end(ms, first);
        let d = h.drop_last();
        assert(is_white_space(h.last()));
        assert(d.last() == h[h.len() - 2]);
        assert(!is_white_space(d.last()));
        assert(trim_end(d) == d);
        assert(trim_end(h) == d);
        assert(d.push(' ') =~= h);
        lemma_record_trailing_space(d, 0);
    } else {
        assert(trim_end(h) == h);
    }
}

proof fn lemma_history_is_record(bs: Seq<Board>, ms: Seq<[(i32, i32); 2]>, k: int)
    requires
        0 <= k <= ms.len(),
        bs.len() == ms.len() + 1,
        bs[0].is_new_game(),
        forall|i: int| 0 <= i < ms.len() ==> #[trigger] bs[i].played_to(bs[i + 1], ms[i]),
    ensures
        bs[k].game_history@ == record_of(ms.take(k), 1),
        bs[k].turn == 2 + k,
    decreases k,
{
    if k == 0 {
        assert(ms.take(0) =~= Seq::<[(i32, i32); 2]>::empty());
    } else {
        lemma_history_is_record(bs, ms, k - 1);
        let j = k - 1;
        assert(bs[j].played_to(bs[j + 1], ms[j]));
        lemma_record_of_push(ms.take(k - 1), ms[k - 1], 1);
        assert(ms.take(k - 1).push(ms[k - 1]) =~= ms.take(k));
    }
}

/// The record of a game, as the export gives it, reads back as the turns
/// that were played: for boards that run from a new game through the
/// turns `ms`, each played in turn.
pub proof fn law_export_reads_back(bs: Seq<Board>, ms: Seq<[(i32, i32); 2]>)
    requires
        bs.len() == ms.len() + 1,
        bs[0].is_new_game(),
        forall|i: int| 0 <= i < ms.len() ==> #[trigger] bs[i].played_to(bs[i + 1], ms[i]),
    ensures
        bs[ms.len() as int].game_history@ == record_of(ms, 1),
        record_moves(trim_end(bs[ms.len() as int].game_history@)) == (ms, None::<crate::game_record::RecordError>),
{
    lemma_history_is_record(bs, ms, ms.len() as int);
    assert(ms.take(ms.len() as int) =~= ms);
    law_record_reads_back(ms, 1);
}

/// Whether two boards show the same game: the same stones, turns of
/// placement, drawing window, record, turn and winner.
pub open spec fn same_game(b1: Board, b2: Board) -> bool {
    &&& b1.moves@ == b2.moves@
    &&& b1.turn_placed@ == b2.turn_placed@
    &&& b1.window == b2.window
    &&& b1.game_history@ == b2.game_history@
    &&& b1.turn == b2.turn
    &&& b1.winner == b2.winner
}

proof fn lemma_replays_agree(bs1: Seq<Board>, bs2: Seq<Board>, ms: Seq<[(i32, i32); 2]>, k1: int, k2: int, i: int)
    requires
        replays(bs1, ms, k1),
        replays(bs2, ms, k2),
        0 <= i <= k1,
        i <= k2,
    ensures
        same_game(bs1[i], bs2[i]),
    decreases i,
{
    if i > 0 {
        lemma_replays_agree(bs1, bs2, ms, k1, k2, i - 1);
        let j = i - 1;
        assert(turn_taken(bs1[j], bs1[j + 1], ms[j]));
        assert(turn_taken(bs2[j], bs2[j + 1], ms[j]));
        assert(bs1[i].moves@ =~= bs2[i].moves@);
        assert(bs1[i].turn_placed@ =~= bs2[i].turn_placed@);
        assert(bs1[i].game_history@ =~= bs2[i].game_history@);
    } else {
        assert(bs1[0].moves@ =~= bs2[0].moves@);
        assert(bs1[0].turn_placed@ =~= bs2[0].turn_placed@);
    }
}

/// A game is determined by its turns: two runs of the same turns from a new
/// game stop at the same turn and show the same game.
pub proof fn law_replay_is_determined(bs1: Seq<Board>, bs2: Seq<Board>, ms: Seq<[(i32, i32); 2]>, k1: int, k2: int)
    requires
        replays(bs1, ms, k1),
        replays(bs2, ms, k2),
    ensures
        k1 == k2,
        same_game(bs1[k1], bs2[k2]),
{
    if k1 < k2 {
        lemma_replays_agree(bs1, bs2, ms, k1, k2, k1);
        assert(turn_taken(bs2[k1], bs2[k1 + 1], ms[k1]));
    } else if k2 < k1 {
        lemma_replays_agree(bs1, bs2, ms, k1, k2, k2);
        assert(turn_taken(bs1[k2], bs1[k2 + 1], ms[k2]));
    } else {
        lemma_replays_agree(bs1, bs2, ms, k1, k2, k1);
    }
}

/// A game exported and imported again is the same game: when every turn
/// `ms` of a game was taken, the export reads back as `ms`, and replaying
/// what is read takes every turn and ends in the same game.
pub proof fn law_import_of_export(bs: Seq<Board>, ms: Seq<[(i32, i32); 2]>, bs2: Seq<Board>, k2: int)
    requires
        replays(bs, ms, ms.len() as int),
        replays(bs2, record_moves(trim_end(bs[ms.len() as int].game_history@)).0, k2),
    ensures
        record_moves(trim_end(bs[ms.len() as int].game_history@)) == (ms, None::<crate::game_record::RecordError>),
        k2 == ms.len(),
        same_game(bs2[k2], bs[ms.len() as int]),
{
    assert forall|i: int| 0 <= i < ms.len() implies #[trigger] bs[i].played_to(bs[i + 1], ms[i]) by {
        assert(turn_taken(bs[i], bs[i + 1], ms[i]));
    }
    law_export_reads_back(bs, ms);
    law_replay_is_determined(bs, bs2, ms, ms.len() as int, k2);
}

/// A position with at most one cell holds no six in a row.
proof fn lemma_single_no_six(pos: Set<Coord>)
    requires
        forall|a: Coord, b: Coord| pos.contains(a) && pos.contains(b) ==> a == b,
    ensures
        !has_six(pos),
{
    if has_six(pos) {
        let (q, r, k) = choose|q: int, r: int, k: int| 0 <= k < 3 && #[trigger] six_from(pos, q, r, k);
        assert(occupies(pos, step(q, r, k, 0)));
        assert(occupies(pos, step(q, r, k, 1)));
        let a = step(q, r, k, 0);
        let b = step(q, r, k, 1);
        assert((a.0 as i32, a.1 as i32) != (b.0 as i32, b.1 as i32));
    }
}

/// In a game played from a new board the winner is always the one that
/// the stones show (X first when both have six in a row); so a board
/// without a winner holds no six in a row of either player.
pub proof fn law_winner_is_six_in_a_row(bs: Seq<Board>, ms: Seq<[(i32, i32); 2]>, k: int)
    requires
        replays(bs, ms, k),
    ensures
        forall|i: int| 0 <= i <= k ==> #[trigger] bs[i].winner == winner_of(bs[i].moves@),
        forall|i: int|
            0 <= i <= k && #[trigger] bs[i].winner is None ==> !has_six(player_cells(bs[i].moves@, 1))
                && !has_six(player_cells(bs[i].moves@, 2)),
{
    assert forall|i: int| 0 <= i <= k implies #[trigger] bs[i].winner == winner_of(bs[i].moves@) by {
        if i == 0 {
            let m0 = bs[0].moves@;
            assert(m0 == set![(1u8, 0i32, 0i32)]);
            assert forall|a: Coord, b: Coord| player_cells(m0, 1).contains(a) && player_cells(m0, 1).contains(b)
                implies a == b by {
            }
            assert forall|a: Coord, b: Coord| player_cells(m0, 2).contains(a) && player_cells(m0, 2).contains(b)
                implies a == b by {
            }
            lemma_single_no_six(player_cells(m0, 1));
            lemma_single_no_six(player_cells(m0, 2));
        } else {
            let j = i - 1;
            assert(turn_taken(bs[j], bs[j + 1], ms[j]));
        }
    }
}

/// A turn taken on a board whose winner is the one its stones show wins
/// exactly when the player who moved then has six in a row, and that
/// player is the winner.
pub proof fn law_turn_wins_for_mover(b: Board, next: Board, m: [(i32, i32); 2])
    requires
        turn_taken(b, next, m),
        b.winner == winner_of(b.moves@),
    ensures
        ({
            let p = b.spec_current_player();
            &&& next.winner is Some <==> has_six(player_cells(next.moves@, p.spec_value()))
            &&& next.winner is Some ==> next.winner == Some(p)
        }),
{
    let p = b.spec_current_player();
    let o = p.spec_other();
    assert(player_cells(next.moves@, o.spec_value()) =~= player_cells(b.moves@, o.spec_value()));
    assert(!has_six(player_cells(b.moves@, 1)) && !has_six(player_cells(b.moves@, 2)));
}

} // verus!
