//! The six-cell windows that the engine's evaluation counts stones in.
//!
//! A window is a key `(dq, dr, q, r)`: a win axis `(dq, dr)`, one of
//! `(1, 0)`, `(0, 1)` and `(1, -1)`, and its first cell `(q, r)`; its cells
//! are the first and the five that follow along the axis.  For every window
//! that holds a stone the engine keeps the number of X and of O stones in
//! it; a window with stones of one player only is "pure" and is worth
//! `10^n` for its `n` stones.  A cell's score is the sum of the worth of the
//! eighteen windows through it.

use vstd::prelude::*;
use crate::board::in_bounds;
use crate::fxhash::{Coord, WindowKey};

verus! {

/// Whether an integer fits in an `i32`.
pub open spec fn in_i32(x: int) -> bool {
    i32::MIN <= x <= i32::MAX
}

/// `1` for true, `0` for false.
pub open spec fn ind(b: bool) -> int {
    if b {
        1
    } else {
        0
    }
}

/// The axis of a window key: 0 for `(1, 0)`, 1 for `(0, 1)`, 2 for
/// `(1, -1)`, and -1 for any other direction.
pub open spec fn axis_of(w: WindowKey) -> int {
    if w.0 == 1 && w.1 == 0 {
        0
    } else if w.0 == 0 && w.1 == 1 {
        1
    } else if w.0 == 1 && w.1 == -1 {
        2
    } else {
        -1
    }
}

/// Whether a key names a window (its direction is a win axis).
pub open spec fn is_window(w: WindowKey) -> bool {
    axis_of(w) >= 0
}

/// Cell `i` of window `w`, counted from its first cell.
pub open spec fn window_cell(w: WindowKey, i: int) -> (int, int) {
    if axis_of(w) == 0 {
        (w.2 + i, w.3 as int)
    } else if axis_of(w) == 1 {
        (w.2 as int, w.3 + i)
    } else {
        (w.2 + i, w.3 - i)
    }
}

/// The place (0 to 5) of cell `c` in window `w`, or -1 when `w` does not
/// cover `c`.
pub open spec fn place_in(w: WindowKey, c: (int, int)) -> int {
    let i = if axis_of(w) == 1 {
        c.1 - w.3
    } else {
        c.0 - w.2
    };
    if is_window(w) && 0 <= i < 6 && window_cell(w, i) == c {
        i
    } else {
        -1
    }
}

/// The first cell of the window on axis `d` in which `(q, r)` is cell `k`.
pub open spec fn start_of(q: int, r: int, d: int, k: int) -> (int, int) {
    if d == 0 {
        (q - k, r)
    } else if d == 1 {
        (q, r - k)
    } else {
        (q - k, r + k)
    }
}

/// The window on axis `d` in which `(q, r)` is cell `k`.
pub open spec fn window_through(q: int, r: int, d: int, k: int) -> WindowKey {
    let s = start_of(q, r, d, k);
    (
        if d == 1 { 0i32 } else { 1i32 },
        if d == 0 { 0i32 } else if d == 1 { 1i32 } else { -1i32 },
        s.0 as i32,
        s.1 as i32,
    )
}

/// Whether the cell `c` holds a stone of player `p`.
pub open spec fn holds(stones: Map<Coord, u8>, c: (int, int), p: u8) -> bool {
    &&& in_i32(c.0)
    &&& in_i32(c.1)
    &&& stones.contains_key((c.0 as i32, c.1 as i32))
    &&& stones[(c.0 as i32, c.1 as i32)] == p
}

/// The number of stones of player `p` in window `w`.
pub open spec fn count_in(stones: Map<Coord, u8>, w: WindowKey, p: u8) -> int {
    ind(holds(stones, window_cell(w, 0), p)) + ind(holds(stones, window_cell(w, 1), p)) + ind(
        holds(stones, window_cell(w, 2), p),
    ) + ind(holds(stones, window_cell(w, 3), p)) + ind(holds(stones, window_cell(w, 4), p)) + ind(
        holds(stones, window_cell(w, 5), p),
    )
}

/// Whether the tallies `wc` are those of `stones`: a window has an entry
/// exactly when it holds a stone, and the entry counts its X stones and
/// its O stones.
pub open spec fn tallies_of(wc: Map<WindowKey, [i32; 2]>, stones: Map<Coord, u8>) -> bool {
    &&& forall|w: WindowKey| #[trigger]
        wc.contains_key(w) <==> is_window(w) && count_in(stones, w, 1) + count_in(stones, w, 2) > 0
    &&& forall|w: WindowKey| #[trigger]
        wc.contains_key(w) ==> wc[w][0] == count_in(stones, w, 1) && wc[w][1] == count_in(stones, w, 2)
}

/// The windows whose tally is `x` X stones and `o` O stones.
pub open spec fn bucket(wc: Map<WindowKey, [i32; 2]>, x: int, o: int) -> Set<WindowKey> {
    wc.dom().filter(|w: WindowKey| wc[w][0] == x && wc[w][1] == o)
}

/// Whether `x_needs[k]` counts the windows with `k + 1` X stones and no O
/// stone, and `o_needs[k]` those with `k + 1` O stones and no X stone.
pub open spec fn needs_of(wc: Map<WindowKey, [i32; 2]>, x_needs: [i32; 6], o_needs: [i32; 6]) -> bool {
    &&& forall|k: int| 0 <= k < 6 ==> #[trigger] x_needs[k] == bucket(wc, k + 1, 0).len()
    &&& forall|k: int| 0 <= k < 6 ==> #[trigger] o_needs[k] == bucket(wc, 0, k + 1).len()
}

/// `10^x` for `x` from 0 to 9.
pub open spec fn pow10(x: int) -> int {
    if x == 0 {
        1
    } else if x == 1 {
        10
    } else if x == 2 {
        100
    } else if x == 3 {
        1_000
    } else if x == 4 {
        10_000
    } else if x == 5 {
        100_000
    } else if x == 6 {
        1_000_000
    } else if x == 7 {
        10_000_000
    } else if x == 8 {
        100_000_000
    } else {
        1_000_000_000
    }
}

/// The worth of a tally: `10^n` for `n > 0` stones of one player only,
/// else nothing.
pub open spec fn tally_worth(x: int, o: int) -> int {
    if o == 0 && x > 0 {
        pow10(x)
    } else if x == 0 && o > 0 {
        pow10(o)
    } else {
        0
    }
}

/// The worth of window `w` under tallies `wc` (nothing when untallied).
pub open spec fn worth(wc: Map<WindowKey, [i32; 2]>, w: WindowKey) -> int {
    if wc.contains_key(w) {
        tally_worth(wc[w][0] as int, wc[w][1] as int)
    } else {
        0
    }
}

/// The worth of the window on axis `d` in which `c` is cell `k`.
pub open spec fn term(wc: Map<WindowKey, [i32; 2]>, c: Coord, d: int, k: int) -> int {
    let s = start_of(c.0 as int, c.1 as int, d, k);
    if in_i32(s.0) && in_i32(s.1) {
        worth(wc, window_through(c.0 as int, c.1 as int, d, k))
    } else {
        0
    }
}

/// The worth of the six windows on axis `d` through `c`.
pub open spec fn axis_sum(wc: Map<WindowKey, [i32; 2]>, c: Coord, d: int) -> int {
    term(wc, c, d, 0) + term(wc, c, d, 1) + term(wc, c, d, 2) + term(wc, c, d, 3) + term(wc, c, d, 4)
        + term(wc, c, d, 5)
}

/// The score of cell `c`: the worth of the eighteen windows through it.
pub open spec fn cell_sum(wc: Map<WindowKey, [i32; 2]>, c: Coord) -> int {
    axis_sum(wc, c, 0) + axis_sum(wc, c, 1) + axis_sum(wc, c, 2)
}

/// The score the map `cs` gives cell `c`; a missing entry is zero.
pub open spec fn score_of(cs: Map<Coord, i64>, c: Coord) -> int {
    if cs.contains_key(c) {
        cs[c] as int
    } else {
        0
    }
}

/// Whether `cs` gives every cell the worth of the windows through it.
pub open spec fn scores_of(wc: Map<WindowKey, [i32; 2]>, cs: Map<Coord, i64>) -> bool {
    forall|c: Coord| #[trigger] score_of(cs, c) == cell_sum(wc, c)
}

// ----------------------------------------------------------------------
// Lemmas
// ----------------------------------------------------------------------

/// The window on axis `d` through `(q, r)` at place `k` has that axis, and
/// `(q, r)` is its cell `k`.
pub proof fn lemma_window_through(q: int, r: int, d: int, k: int)
    requires
        0 <= d < 3,
        0 <= k < 6,
        in_i32(start_of(q, r, d, k).0),
        in_i32(start_of(q, r, d, k).1),
        in_i32(q),
        in_i32(r),
    ensures
        axis_of(window_through(q, r, d, k)) == d,
        is_window(window_through(q, r, d, k)),
        place_in(window_through(q, r, d, k), (q, r)) == k,
        window_through(q, r, d, k).2 == start_of(q, r, d, k).0,
        window_through(q, r, d, k).3 == start_of(q, r, d, k).1,
{
}

/// Placing one stone of `p0` on the empty cell `c0` adds one to the count of
/// `p0` in each window that covers `c0`, and changes no other count.
pub proof fn lemma_count_insert(stones: Map<Coord, u8>, c0: Coord, p0: u8, w: WindowKey, p: u8)
    requires
        !stones.contains_key(c0),
        is_window(w),
    ensures
        count_in(stones.insert(c0, p0), w, p) == count_in(stones, w, p) + ind(
            place_in(w, (c0.0 as int, c0.1 as int)) >= 0 && p0 == p,
        ),
{
    let s2 = stones.insert(c0, p0);
    let c = (c0.0 as int, c0.1 as int);
    assert forall|i: int| 0 <= i < 6 implies #[trigger] holds(s2, window_cell(w, i), p) == (holds(
        stones,
        window_cell(w, i),
        p,
    ) || (window_cell(w, i) == c && p0 == p)) by {
        let x = window_cell(w, i);
        if in_i32(x.0) && in_i32(x.1) {
            if (x.0 as i32, x.1 as i32) == c0 {
                assert(x == c);
            } else {
                assert(x != c);
            }
        }
    }
    assert forall|i: int| 0 <= i < 6 implies (window_cell(w, i) == c <==> place_in(w, c) == i) by {
    }
    assert forall|i: int| 0 <= i < 6 && window_cell(w, i) == c implies !holds(
        stones,
        window_cell(w, i),
        p,
    ) by {
        assert((c.0 as i32, c.1 as i32) == c0);
    }
}

/// Taking the stone off cell `c0` subtracts one from the count of its
/// player in each window that covers `c0`, and changes no other count.
pub proof fn lemma_count_remove(stones: Map<Coord, u8>, c0: Coord, w: WindowKey, p: u8)
    requires
        stones.contains_key(c0),
        is_window(w),
    ensures
        count_in(stones.remove(c0), w, p) == count_in(stones, w, p) - ind(
            place_in(w, (c0.0 as int, c0.1 as int)) >= 0 && stones[c0] == p,
        ),
{
    let s2 = stones.remove(c0);
    assert(s2.insert(c0, stones[c0]) =~= stones);
    lemma_count_insert(s2, c0, stones[c0], w, p);
}

/// A bucket of finitely many tallies is finite, and no larger than the
/// tallies.
pub proof fn lemma_bucket_finite(wc: Map<WindowKey, [i32; 2]>, x: int, o: int)
    requires
        wc.dom().finite(),
    ensures
        bucket(wc, x, o).finite(),
        bucket(wc, x, o).len() <= wc.dom().len(),
{
    wc.dom().lemma_len_filter(|w: WindowKey| wc[w][0] == x && wc[w][1] == o);
    vstd::set_lib::lemma_len_subset(bucket(wc, x, o), wc.dom());
}

/// The size of a bucket after one tally is set.
pub proof fn lemma_bucket_insert(wc: Map<WindowKey, [i32; 2]>, w0: WindowKey, v: [i32; 2], x: int, o: int)
    requires
        wc.dom().finite(),
    ensures
        bucket(wc.insert(w0, v), x, o).finite(),
        bucket(wc.insert(w0, v), x, o).len() == bucket(wc, x, o).len() - ind(
            wc.contains_key(w0) && wc[w0][0] == x && wc[w0][1] == o,
        ) + ind(v[0] == x && v[1] == o),
{
    let b = bucket(wc, x, o);
    let b2 = bucket(wc.insert(w0, v), x, o);
    wc.dom().lemma_len_filter(|w: WindowKey| wc[w][0] == x && wc[w][1] == o);
    let mid = b.remove(w0);
    if v[0] == x && v[1] == o {
        assert(b2 =~= mid.insert(w0));
    } else {
        assert(b2 =~= mid);
    }
}

/// The size of a bucket after one tally is dropped.
pub proof fn lemma_bucket_remove(wc: Map<WindowKey, [i32; 2]>, w0: WindowKey, x: int, o: int)
    requires
        wc.dom().finite(),
    ensures
        bucket(wc.remove(w0), x, o).finite(),
        bucket(wc.remove(w0), x, o).len() == bucket(wc, x, o).len() - ind(
            wc.contains_key(w0) && wc[w0][0] == x && wc[w0][1] == o,
        ),
{
    let b = bucket(wc, x, o);
    let b2 = bucket(wc.remove(w0), x, o);
    wc.dom().lemma_len_filter(|w: WindowKey| wc[w][0] == x && wc[w][1] == o);
    assert(b2 =~= b.remove(w0));
}

/// One term of a cell's score when the worth of window `w0` alone changes.
proof fn lemma_term_frame(
    wc: Map<WindowKey, [i32; 2]>,
    wc2: Map<WindowKey, [i32; 2]>,
    w0: WindowKey,
    c: Coord,
    d: int,
    k: int,
)
    requires
        is_window(w0),
        forall|w: WindowKey| w != w0 ==> #[trigger] worth(wc2, w) == worth(wc, w),
        0 <= d < 3,
        0 <= k < 6,
    ensures
        term(wc2, c, d, k) == term(wc, c, d, k) + (if axis_of(w0) == d && place_in(
            w0,
            (c.0 as int, c.1 as int),
        ) == k {
            worth(wc2, w0) - worth(wc, w0)
        } else {
            0
        }),
{
    let s = start_of(c.0 as int, c.1 as int, d, k);
    let wt = window_through(c.0 as int, c.1 as int, d, k);
    if in_i32(s.0) && in_i32(s.1) {
        lemma_window_through(c.0 as int, c.1 as int, d, k);
        if axis_of(w0) == d && place_in(w0, (c.0 as int, c.1 as int)) == k {
            assert(wt == w0);
        } else {
            assert(wt != w0) by {
                if wt == w0 {
                    assert(place_in(wt, (c.0 as int, c.1 as int)) == k);
                }
            }
        }
    } else {
        if axis_of(w0) == d && place_in(w0, (c.0 as int, c.1 as int)) == k {
            assert(window_cell(w0, k) == (c.0 as int, c.1 as int));
            assert(s.0 == w0.2 && s.1 == w0.3);
        }
    }
}

/// The six terms of a cell's score on axis `d` when the worth of window
/// `w0` alone changes.
proof fn lemma_axis_frame(
    wc: Map<WindowKey, [i32; 2]>,
    wc2: Map<WindowKey, [i32; 2]>,
    w0: WindowKey,
    c: Coord,
    d: int,
)
    requires
        is_window(w0),
        forall|w: WindowKey| w != w0 ==> #[trigger] worth(wc2, w) == worth(wc, w),
        0 <= d < 3,
    ensures
        axis_sum(wc2, c, d) == axis_sum(wc, c, d) + (if axis_of(w0) == d && place_in(
            w0,
            (c.0 as int, c.1 as int),
        ) >= 0 {
            worth(wc2, w0) - worth(wc, w0)
        } else {
            0
        }),
{
    lemma_term_frame(wc, wc2, w0, c, d, 0);
    lemma_term_frame(wc, wc2, w0, c, d, 1);
    lemma_term_frame(wc, wc2, w0, c, d, 2);
    lemma_term_frame(wc, wc2, w0, c, d, 3);
    lemma_term_frame(wc, wc2, w0, c, d, 4);
    lemma_term_frame(wc, wc2, w0, c, d, 5);
}

/// A cell's score when the worth of window `w0` alone changes: it moves by
/// the change exactly when `w0` covers the cell.
pub proof fn lemma_cell_sum_frame(
    wc: Map<WindowKey, [i32; 2]>,
    wc2: Map<WindowKey, [i32; 2]>,
    w0: WindowKey,
    c: Coord,
)
    requires
        is_window(w0),
        forall|w: WindowKey| w != w0 ==> #[trigger] worth(wc2, w) == worth(wc, w),
    ensures
        cell_sum(wc2, c) == cell_sum(wc, c) + (if place_in(w0, (c.0 as int, c.1 as int)) >= 0 {
            worth(wc2, w0) - worth(wc, w0)
        } else {
            0
        }),
{
    lemma_axis_frame(wc, wc2, w0, c, 0);
    lemma_axis_frame(wc, wc2, w0, c, 1);
    lemma_axis_frame(wc, wc2, w0, c, 2);
}

/// Whether all six cells of window `w` have `i32` coordinates.
pub open spec fn window_fits(w: WindowKey) -> bool {
    &&& in_i32(window_cell(w, 5).0)
    &&& in_i32(window_cell(w, 5).1)
}

/// Whether every tally is that of a window whose cells are `i32` cells,
/// and counts at most six stones.
pub open spec fn tallies_sane(wc: Map<WindowKey, [i32; 2]>) -> bool {
    forall|w: WindowKey| #[trigger]
        wc.contains_key(w) ==> is_window(w) && window_fits(w) && 0 <= wc[w][0] && 0 <= wc[w][1]
            && wc[w][0] + wc[w][1] <= 6
}

/// A window's worth is between 0 and a million.
pub proof fn lemma_worth_bounds(wc: Map<WindowKey, [i32; 2]>, w: WindowKey)
    requires
        tallies_sane(wc),
    ensures
        0 <= worth(wc, w) <= 1_000_000,
{
}

/// A cell's score is between 0 and eighteen million.
pub proof fn lemma_cell_sum_bounds(wc: Map<WindowKey, [i32; 2]>, c: Coord)
    requires
        tallies_sane(wc),
    ensures
        0 <= cell_sum(wc, c) <= 18_000_000,
{
    assert forall|d: int, k: int| 0 <= d < 3 && 0 <= k < 6 implies 0 <= #[trigger] term(wc, c, d, k)
        <= 1_000_000 by {
        lemma_worth_bounds(wc, window_through(c.0 as int, c.1 as int, d, k));
    }
    assert(0 <= term(wc, c, 0, 0) <= 1_000_000);
    assert(0 <= term(wc, c, 0, 1) <= 1_000_000);
    assert(0 <= term(wc, c, 0, 2) <= 1_000_000);
    assert(0 <= term(wc, c, 0, 3) <= 1_000_000);
    assert(0 <= term(wc, c, 0, 4) <= 1_000_000);
    assert(0 <= term(wc, c, 0, 5) <= 1_000_000);
    assert(0 <= term(wc, c, 1, 0) <= 1_000_000);
    assert(0 <= term(wc, c, 1, 1) <= 1_000_000);
    assert(0 <= term(wc, c, 1, 2) <= 1_000_000);
    assert(0 <= term(wc, c, 1, 3) <= 1_000_000);
    assert(0 <= term(wc, c, 1, 4) <= 1_000_000);
    assert(0 <= term(wc, c, 1, 5) <= 1_000_000);
    assert(0 <= term(wc, c, 2, 0) <= 1_000_000);
    assert(0 <= term(wc, c, 2, 1) <= 1_000_000);
    assert(0 <= term(wc, c, 2, 2) <= 1_000_000);
    assert(0 <= term(wc, c, 2, 3) <= 1_000_000);
    assert(0 <= term(wc, c, 2, 4) <= 1_000_000);
    assert(0 <= term(wc, c, 2, 5) <= 1_000_000);
}

/// Cell `i` of a window is at place `i` in it.
pub proof fn lemma_place_of_cell(w: WindowKey, i: int)
    requires
        is_window(w),
        0 <= i < 6,
    ensures
        place_in(w, window_cell(w, i)) == i,
{
}

/// Whether every stone stands within the bounds.
pub open spec fn stones_fit(stones: Map<Coord, u8>) -> bool {
    forall|c: Coord| #[trigger] stones.contains_key(c) ==> in_bounds(c.0 as int) && in_bounds(c.1 as int)
}

/// The only window with axis `d` in which `(q, r)` is cell `k`.
pub proof fn lemma_window_unique(w: WindowKey, q: int, r: int, d: int, k: int)
    requires
        is_window(w),
        axis_of(w) == d,
        0 <= k < 6,
        place_in(w, (q, r)) == k,
    ensures
        w == window_through(q, r, d, k),
        in_i32(start_of(q, r, d, k).0),
        in_i32(start_of(q, r, d, k).1),
{
    assert(window_cell(w, k) == (q, r));
}

/// The windows with a stone of `s` at one of their places `m < n`, where
/// place `m` is cell `m % 6` on axis `m / 6`.
pub open spec fn windows_near(s: Set<Coord>, n: nat) -> Set<WindowKey>
    decreases n,
{
    if n == 0 {
        Set::empty()
    } else {
        let m = (n - 1) as int;
        windows_near(s, (n - 1) as nat).union(
            s.map(|c: Coord| window_through(c.0 as int, c.1 as int, m / 6, m % 6)),
        )
    }
}

proof fn lemma_windows_near_len(s: Set<Coord>, n: nat)
    requires
        s.finite(),
    ensures
        windows_near(s, n).finite(),
        windows_near(s, n).len() <= n * s.len(),
    decreases n,
{
    if n > 0 {
        let m = (n - 1) as int;
        let f = |c: Coord| window_through(c.0 as int, c.1 as int, m / 6, m % 6);
        lemma_windows_near_len(s, (n - 1) as nat);
        let img = s.map(f);
        vstd::set_lib::lemma_map_size_bound(s, img, f);
        vstd::set_lib::lemma_len_union(windows_near(s, (n - 1) as nat), img);
        let l = s.len();
        assert((n - 1) * l + l == n * l) by (nonlinear_arith);
    }
}

proof fn lemma_windows_near_contains(s: Set<Coord>, n: nat, c: Coord, d: int, k: int)
    requires
        s.contains(c),
        0 <= d < 3,
        0 <= k < 6,
        6 * d + k < n,
    ensures
        windows_near(s, n).contains(window_through(c.0 as int, c.1 as int, d, k)),
    decreases n,
{
    let m = (n - 1) as int;
    if 6 * d + k == m {
        let f = |c: Coord| window_through(c.0 as int, c.1 as int, m / 6, m % 6);
        assert(m / 6 == d && m % 6 == k);
        assert(s.map(f).contains(f(c)));
    } else {
        lemma_windows_near_contains(s, (n - 1) as nat, c, d, k);
    }
}

/// The tallies of a position with `n` stones within the bounds cover at
/// most `18 n` windows: each stone lies in eighteen windows.
pub proof fn lemma_tally_count(wc: Map<WindowKey, [i32; 2]>, stones: Map<Coord, u8>)
    requires
        tallies_of(wc, stones),
        stones.dom().finite(),
        stones_fit(stones),
    ensures
        wc.dom().finite(),
        wc.dom().len() <= 18 * stones.dom().len(),
{
    let near = windows_near(stones.dom(), 18);
    assert forall|w: WindowKey| wc.dom().contains(w) implies near.contains(w) by {
        assert(is_window(w) && count_in(stones, w, 1) + count_in(stones, w, 2) > 0);
        let i = choose|i: int|
            0 <= i < 6 && (holds(stones, #[trigger] window_cell(w, i), 1) || holds(
                stones,
                window_cell(w, i),
                2,
            ));
        let x = window_cell(w, i);
        let c: Coord = (x.0 as i32, x.1 as i32);
        assert(stones.contains_key(c));
        lemma_place_of_cell(w, i);
        lemma_window_unique(w, x.0, x.1, axis_of(w), i);
        lemma_windows_near_contains(stones.dom(), 18, c, axis_of(w), i);
    }
    lemma_windows_near_len(stones.dom(), 18);
    vstd::set_lib::lemma_len_subset(wc.dom(), near);
}

/// The tallies of a position within the bounds are sane.
pub proof fn lemma_tallies_sane(wc: Map<WindowKey, [i32; 2]>, stones: Map<Coord, u8>)
    requires
        tallies_of(wc, stones),
        stones_fit(stones),
    ensures
        tallies_sane(wc),
{
    assert forall|w: WindowKey| #[trigger] wc.contains_key(w) implies is_window(w) && window_fits(w)
        && 0 <= wc[w][0] && 0 <= wc[w][1] && wc[w][0] + wc[w][1] <= 6 by {
        let i = choose|i: int|
            0 <= i < 6 && (holds(stones, #[trigger] window_cell(w, i), 1) || holds(
                stones,
                window_cell(w, i),
                2,
            ));
        let x = window_cell(w, i);
        assert(stones.contains_key((x.0 as i32, x.1 as i32)));
    }
}

/// Whether window `w` is one of the first `n` windows through `p` (place
/// `m` being cell `m % 6` on axis `m / 6`).
pub open spec fn done_at(w: WindowKey, p: Coord, n: int) -> bool {
    let i = place_in(w, (p.0 as int, p.1 as int));
    i >= 0 && 6 * axis_of(w) + i < n
}

/// The count of player `pl` in `w`: in `after` for the first `n` windows
/// through `p`, in `before` for all others.
pub open spec fn mixed_count(
    before: Map<Coord, u8>,
    after: Map<Coord, u8>,
    p: Coord,
    n: int,
    w: WindowKey,
    pl: u8,
) -> int {
    if done_at(w, p, n) {
        count_in(after, w, pl)
    } else {
        count_in(before, w, pl)
    }
}

/// The tallies half way through moving from `before` to `after`, which
/// differ in cell `p` only: the first `n` windows through `p` are tallied
/// as in `after`, all others as in `before`.
pub open spec fn tallies_mixed(
    wc: Map<WindowKey, [i32; 2]>,
    before: Map<Coord, u8>,
    after: Map<Coord, u8>,
    p: Coord,
    n: int,
) -> bool {
    &&& forall|w: WindowKey| #[trigger]
        wc.contains_key(w) <==> is_window(w) && mixed_count(before, after, p, n, w, 1) + mixed_count(
            before,
            after,
            p,
            n,
            w,
            2,
        ) > 0
    &&& forall|w: WindowKey| #[trigger]
        wc.contains_key(w) ==> wc[w][0] == mixed_count(before, after, p, n, w, 1) && wc[w][1]
            == mixed_count(before, after, p, n, w, 2)
}

/// Before any window through `p` is redone, the tallies are those of `before`.
pub proof fn lemma_mixed_start(
    wc: Map<WindowKey, [i32; 2]>,
    before: Map<Coord, u8>,
    after: Map<Coord, u8>,
    p: Coord,
)
    requires
        tallies_of(wc, before),
    ensures
        tallies_mixed(wc, before, after, p, 0),
{
}

/// Once all eighteen windows through `p` are redone, the tallies are those
/// of `after`, when `after` differs from `before` in cell `p` only.
pub proof fn lemma_mixed_end(
    wc: Map<WindowKey, [i32; 2]>,
    before: Map<Coord, u8>,
    after: Map<Coord, u8>,
    p: Coord,
)
    requires
        tallies_mixed(wc, before, after, p, 18),
        after == before.insert(p, after[p]) && !before.contains_key(p) || after == before.remove(p)
            && before.contains_key(p),
    ensures
        tallies_of(wc, after),
{
    assert forall|w: WindowKey| is_window(w) && !done_at(w, p, 18) implies #[trigger] count_in(after, w, 1)
        == count_in(before, w, 1) && count_in(after, w, 2) == count_in(before, w, 2) by {
        if !before.contains_key(p) {
            lemma_count_insert(before, p, after[p], w, 1);
            lemma_count_insert(before, p, after[p], w, 2);
        } else {
            lemma_count_remove(before, p, w, 1);
            lemma_count_remove(before, p, w, 2);
        }
    }
    assert forall|w: WindowKey| #[trigger] wc.contains_key(w) <==> is_window(w) && count_in(after, w, 1)
        + count_in(after, w, 2) > 0 by {
        if is_window(w) && !done_at(w, p, 18) {
            assert(count_in(after, w, 1) == count_in(before, w, 1));
        }
    }
    assert forall|w: WindowKey| #[trigger] wc.contains_key(w) implies wc[w][0] == count_in(after, w, 1)
        && wc[w][1] == count_in(after, w, 2) by {
        if is_window(w) && !done_at(w, p, 18) {
            assert(count_in(after, w, 1) == count_in(before, w, 1));
        }
    }
}

/// The tally of the window redone at step `n`, when `p` gains or loses a
/// stone: it is the only one whose status changes.
pub proof fn lemma_mixed_step(
    wc: Map<WindowKey, [i32; 2]>,
    wc2: Map<WindowKey, [i32; 2]>,
    before: Map<Coord, u8>,
    after: Map<Coord, u8>,
    p: Coord,
    d: int,
    k: int,
)
    requires
        0 <= d < 3,
        0 <= k < 6,
        stones_fit(before),
        in_bounds(p.0 as int),
        in_bounds(p.1 as int),
        tallies_mixed(wc, before, after, p, 6 * d + k),
        ({
            let key = window_through(p.0 as int, p.1 as int, d, k);
            let x = count_in(after, key, 1);
            let o = count_in(after, key, 2);
            if x + o > 0 {
                wc2 == wc.insert(key, [x as i32, o as i32])
            } else {
                wc2 == wc.remove(key)
            }
        }),
    ensures
        tallies_mixed(wc2, before, after, p, 6 * d + k + 1),
{
    let key = window_through(p.0 as int, p.1 as int, d, k);
    lemma_window_through(p.0 as int, p.1 as int, d, k);
    let n = 6 * d + k;
    assert forall|w: WindowKey| w != key implies done_at(w, p, n) == done_at(w, p, n + 1) by {
        let i = place_in(w, (p.0 as int, p.1 as int));
        if i >= 0 && 6 * axis_of(w) + i == n {
            assert(axis_of(w) == d && i == k);
            lemma_window_unique(w, p.0 as int, p.1 as int, d, k);
        }
    }
    assert(done_at(key, p, n + 1));
    assert(!done_at(key, p, n));
    assert forall|w: WindowKey| #[trigger] wc2.contains_key(w) <==> is_window(w) && mixed_count(
        before,
        after,
        p,
        n + 1,
        w,
        1,
    ) + mixed_count(before, after, p, n + 1, w, 2) > 0 by {
        if w != key {
            assert(wc.contains_key(w) == wc2.contains_key(w));
        }
    }
    assert forall|w: WindowKey| #[trigger] wc2.contains_key(w) implies wc2[w][0] == mixed_count(
        before,
        after,
        p,
        n + 1,
        w,
        1,
    ) && wc2[w][1] == mixed_count(before, after, p, n + 1, w, 2) by {
        if w != key {
            assert(wc.contains_key(w));
        }
    }
}

/// The tallies that a position determines: for every window holding a
/// stone, its numbers of X and of O stones.
pub open spec fn tallies_for(stones: Map<Coord, u8>) -> Map<WindowKey, [i32; 2]> {
    Map::new(
        |w: WindowKey| is_window(w) && count_in(stones, w, 1) + count_in(stones, w, 2) > 0,
        |w: WindowKey| [count_in(stones, w, 1) as i32, count_in(stones, w, 2) as i32],
    )
}

/// The score of cell `c` in a position: the worth of the eighteen windows
/// through it.
#[verifier::opaque]
pub open spec fn position_score(stones: Map<Coord, u8>, c: Coord) -> i64 {
    cell_sum(tallies_for(stones), c) as i64
}

/// The score of every cell in a position.
pub open spec fn score_fn(stones: Map<Coord, u8>) -> spec_fn(Coord) -> i64 {
    |c: Coord| position_score(stones, c)
}

/// Tallies that are those of a position are the position's tallies.
pub proof fn lemma_tallies_for(wc: Map<WindowKey, [i32; 2]>, stones: Map<Coord, u8>)
    requires
        tallies_of(wc, stones),
    ensures
        wc == tallies_for(stones),
{
    assert forall|w: WindowKey| #[trigger] wc.contains_key(w) implies wc[w] == tallies_for(stones)[w] by {
        assert(wc[w]@ =~= tallies_for(stones)[w]@);
    }
    assert(wc =~= tallies_for(stones));
}

/// The eighteen windows through the origin `(0, 0)`.
pub open spec fn origin_windows() -> Set<WindowKey> {
    set![
        (1i32, 0i32, 0i32, 0i32),
        (1i32, 0i32, -1i32, 0i32),
        (1i32, 0i32, -2i32, 0i32),
        (1i32, 0i32, -3i32, 0i32),
        (1i32, 0i32, -4i32, 0i32),
        (1i32, 0i32, -5i32, 0i32),
        (0i32, 1i32, 0i32, 0i32),
        (0i32, 1i32, 0i32, -1i32),
        (0i32, 1i32, 0i32, -2i32),
        (0i32, 1i32, 0i32, -3i32),
        (0i32, 1i32, 0i32, -4i32),
        (0i32, 1i32, 0i32, -5i32),
        (1i32, -1i32, 0i32, 0i32),
        (1i32, -1i32, -1i32, 1i32),
        (1i32, -1i32, -2i32, 2i32),
        (1i32, -1i32, -3i32, 3i32),
        (1i32, -1i32, -4i32, 4i32),
        (1i32, -1i32, -5i32, 5i32)
    ]
}

/// The tallies of a position with X's stone on the origin alone: the
/// eighteen windows through the origin hold one X stone each, and no window
/// holds anything else.
pub proof fn lemma_origin_tallies()
    ensures
        ({
            let wc = tallies_for(map![(0i32, 0i32) => 1u8]);
            &&& bucket(wc, 1, 0) == origin_windows()
            &&& origin_windows().len() == 18
            &&& forall|x: int, o: int| !(x == 1 && o == 0) ==> #[trigger] bucket(wc, x, o) == Set::<WindowKey>::empty()
        }),
{
    let st = map![(0i32, 0i32) => 1u8];
    let wc = tallies_for(st);
    assert forall|w: WindowKey| #[trigger] wc.contains_key(w) implies wc[w][0] == 1 && wc[w][1] == 0
        && origin_windows().contains(w) by {
        assert(count_in(st, w, 2) == 0);
        assert(count_in(st, w, 1) <= 1);
    }
    assert forall|w: WindowKey| #[trigger] origin_windows().contains(w) implies wc.contains_key(w) by {
        assert(count_in(st, w, 1) == 1);
    }
    assert(bucket(wc, 1, 0) =~= origin_windows());
    assert forall|x: int, o: int| !(x == 1 && o == 0) implies #[trigger] bucket(wc, x, o) == Set::<WindowKey>::empty() by {
        assert(bucket(wc, x, o) =~= Set::<WindowKey>::empty());
    }
}

/// A window is worth ten times more for each stone of one player only:
/// `10^n` for `n` stones of X alone or of O alone, and nothing when it holds
/// stones of both players or none.
pub proof fn law_window_worth()
    ensures
        pow10(0) == 1,
        forall|n: int| 1 <= n <= 9 ==> #[trigger] pow10(n) == 10 * pow10(n - 1),
        forall|n: int|
            1 <= n <= 6 ==> #[trigger] tally_worth(n, 0) == vstd::arithmetic::power::pow(10, n as nat) && tally_worth(
                0,
                n,
            ) == vstd::arithmetic::power::pow(10, n as nat),
        forall|x: int, o: int| x > 0 && o > 0 ==> #[trigger] tally_worth(x, o) == 0,
        tally_worth(0, 0) == 0,
{
    reveal_with_fuel(vstd::arithmetic::power::pow, 7);
    assert forall|n: int|
        1 <= n <= 6 implies #[trigger] tally_worth(n, 0) == vstd::arithmetic::power::pow(10, n as nat) && tally_worth(
            0,
            n,
        ) == vstd::arithmetic::power::pow(10, n as nat) by {
        if n == 1 {
        } else if n == 2 {
        } else if n == 3 {
        } else if n == 4 {
        } else if n == 5 {
        } else {
        }
    }
}

} // verus!
