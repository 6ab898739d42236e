//! The candidate moves of a position: the pairs of cells the search tries.
//!
//! When no free cell scores as high as a window of four (10 000), every
//! pair of the top cells is a candidate, scored by its two cells' scores.
//! Otherwise each of the first critical cells is played in turn, the top
//! cells of the resulting position are ranked again, and each of them other
//! than the first cell pairs up with it.

use vstd::prelude::*;
use crate::fxhash::{Coord, MovePair};
use crate::neighbours::empty_for;
use crate::selection::{Entry, entry_of, is_top_cells, kept, law_kept_best, lemma_kept_shape};
use crate::windows::score_fn;

verus! {

/// A scored pair: the pair with its cells in order, the score of the first
/// cell tried, and that of the second.
pub type ScoredPair = (MovePair, i64, i64);

/// The score from which a cell is critical: that of a window of four stones.
pub const CRITICAL_SCORE: i64 = 10_000;

/// The order of cells: by `q`, then by `r`.
pub open spec fn coord_lt(a: Coord, b: Coord) -> bool {
    a.0 < b.0 || (a.0 == b.0 && a.1 < b.1)
}

/// A pair of cells in order, the lesser cell first.
pub open spec fn norm_pair(a: Coord, b: Coord) -> MovePair {
    if coord_lt(a, b) {
        (a, b)
    } else {
        (b, a)
    }
}

/// Whether `top` is a possible ranking of the `n` best free cells of the
/// position `stones`, for some order of visiting them.
#[verifier::opaque]
pub open spec fn is_top_of(stones: Map<Coord, u8>, n: nat, top: Seq<Coord>) -> bool {
    exists|order: Seq<Coord>|
        order.no_duplicates() && order.to_set() == empty_for(stones) && #[trigger] is_top_cells(
            order,
            score_fn(stones),
            n,
            top,
        )
}

/// The pairs `(top[i], top[j])` for the given `i` and every `j > i`.
pub open spec fn pair_row(top: Seq<Coord>, i: int) -> Seq<MovePair> {
    Seq::new((top.len() - i - 1) as nat, |t: int| (top[i], top[i + 1 + t]))
}

/// The pairs `(top[i], top[j])` with `i < k` and `i < j`, row by row.
pub open spec fn pairs_upto(top: Seq<Coord>, k: nat) -> Seq<MovePair>
    decreases k,
{
    if k == 0 {
        Seq::empty()
    } else {
        pairs_upto(top, (k - 1) as nat) + pair_row(top, k - 1)
    }
}

/// Each pair scored by the scores of its cells, as they come.
pub open spec fn scored_pairs(pairs: Seq<MovePair>, sc: spec_fn(Coord) -> i64) -> Seq<ScoredPair> {
    pairs.map_values(|m: MovePair| (norm_pair(m.0, m.1), sc(m.0), sc(m.1)))
}

/// The first `k` elements of `s`, or all of them.
pub open spec fn cap(s: Seq<Coord>, k: nat) -> Seq<Coord> {
    if k < s.len() {
        s.take(k as int)
    } else {
        s
    }
}

/// The critical cells of a ranking: the first `k` that score at least
/// [`CRITICAL_SCORE`].
pub open spec fn critical_cells(top: Seq<Coord>, sc: spec_fn(Coord) -> i64, k: nat) -> Seq<Coord> {
    cap(top.filter(is_critical(sc)), k)
}

/// Whether a cell scores at least [`CRITICAL_SCORE`].
pub open spec fn is_critical(sc: spec_fn(Coord) -> i64) -> spec_fn(Coord) -> bool {
    |c: Coord| sc(c) >= CRITICAL_SCORE
}

/// Whether a cell is not `c1`.
pub open spec fn other_than(c1: Coord) -> spec_fn(Coord) -> bool {
    |c2: Coord| c2 != c1
}

/// The scored pair of critical cell `c1`, scoring `s1`, with cell `c2`,
/// scored as `after` has it.
pub open spec fn pair_entry(c1: Coord, s1: i64, after: spec_fn(Coord) -> i64) -> spec_fn(Coord) -> ScoredPair {
    |c2: Coord| (norm_pair(c1, c2), s1, after(c2))
}

/// The moves of scored pairs.
pub open spec fn pair_of() -> spec_fn(ScoredPair) -> MovePair {
    |e: ScoredPair| e.0
}

/// The scored pairs that critical cell `c1`, scoring `s1`, forms with the
/// cells of `cand` other than itself, scored as `after` has them.
pub open spec fn entries_for(c1: Coord, s1: i64, after: spec_fn(Coord) -> i64, cand: Seq<Coord>) -> Seq<ScoredPair> {
    cand.filter(other_than(c1)).map_values(pair_entry(c1, s1, after))
}

/// The scored pairs of the first `i` critical cells, each with the ranking
/// `cands[k]` of the position after it was played by `p`.
pub open spec fn critical_scored(
    crit: Seq<Coord>,
    stones: Map<Coord, u8>,
    p: u8,
    cands: Seq<Seq<Coord>>,
    i: nat,
) -> Seq<ScoredPair>
    decreases i,
{
    if i == 0 {
        Seq::empty()
    } else {
        let k = i - 1;
        critical_scored(crit, stones, p, cands, k as nat) + entries_for(
            crit[k],
            score_fn(stones)(crit[k]),
            score_fn(stones.insert(crit[k], p)),
            cands[k],
        )
    }
}

/// What the candidate search of position `stones`, with `p` to move,
/// returns: the moves, their scored pairs, and whether the position is
/// critical, for some ranking `top` of its `top_n` best cells.
pub open spec fn candidates_of(
    stones: Map<Coord, u8>,
    p: u8,
    top_n: nat,
    critical_n: nat,
    moves: Seq<MovePair>,
    scored: Seq<ScoredPair>,
    critical: bool,
) -> bool {
    exists|top: Seq<Coord>| #[trigger]
        is_top_of(stones, top_n, top) && {
            let sc = score_fn(stones);
            if top.len() == 0 {
                &&& moves == Seq::<MovePair>::empty()
                &&& scored == Seq::<ScoredPair>::empty()
                &&& !critical
            } else if sc(top[0]) < CRITICAL_SCORE {
                &&& !critical
                &&& moves == pairs_upto(top, top.len())
                &&& scored == scored_pairs(moves, sc)
            } else {
                let crit = critical_cells(top, sc, critical_n);
                &&& critical
                &&& moves.no_duplicates()
                &&& moves.to_set() == scored.map_values(pair_of()).to_set()
                &&& exists|cands: Seq<Seq<Coord>>|
                    cands.len() == crit.len() && (forall|i: int|
                        0 <= i < crit.len() ==> is_top_of(
                            stones.insert(crit[i], p),
                            top_n,
                            #[trigger] cands[i],
                        )) && scored == critical_scored(crit, stones, p, cands, crit.len())
            }
        }
}

/// Only the first `i` rankings count for the scored pairs of the first `i`
/// critical cells.
pub proof fn lemma_critical_scored_prefix(
    crit: Seq<Coord>,
    stones: Map<Coord, u8>,
    p: u8,
    cands: Seq<Seq<Coord>>,
    cands2: Seq<Seq<Coord>>,
    i: nat,
)
    requires
        i <= cands.len(),
        i <= cands2.len(),
        forall|k: int| 0 <= k < i ==> cands[k] == cands2[k],
    ensures
        critical_scored(crit, stones, p, cands, i) == critical_scored(crit, stones, p, cands2, i),
    decreases i,
{
    if i > 0 {
        lemma_critical_scored_prefix(crit, stones, p, cands, cands2, (i - 1) as nat);
    }
}

/// The cells of a ranking are free cells next to a stone.
pub proof fn lemma_top_is_free(stones: Map<Coord, u8>, n: nat, top: Seq<Coord>)
    requires
        is_top_of(stones, n, top),
    ensures
        forall|i: int| 0 <= i < top.len() ==> #[trigger] empty_for(stones).contains(top[i]),
{
    reveal(is_top_of);
    let order = choose|order: Seq<Coord>|
        order.no_duplicates() && order.to_set() == empty_for(stones) && #[trigger] is_top_cells(
            order,
            score_fn(stones),
            n,
            top,
        );
    lemma_kept_shape(order, score_fn(stones), n);
    assert forall|i: int| 0 <= i < top.len() implies #[trigger] empty_for(stones).contains(top[i]) by {
        assert(top.to_set().contains(top[i]));
        let e = choose|e: Entry| kept(order, score_fn(stones), n).contains(e) && e.1 == top[i];
        assert(order.contains(e.1));
        let k = choose|k: int| 0 <= k < order.len() && order[k] == e.1;
        assert(order.to_set().contains(order[k]));
    }
}

/// The first cell of a ranking of at least one cell scores at least as
/// much as every free cell next to a stone, and there is one exactly when
/// there is such a free cell.
pub proof fn lemma_top_first_is_best(stones: Map<Coord, u8>, n: nat, top: Seq<Coord>)
    requires
        is_top_of(stones, n, top),
        n >= 1,
    ensures
        top.len() > 0 <==> exists|c: Coord| #[trigger] empty_for(stones).contains(c),
        top.len() > 0 ==> forall|c: Coord| #[trigger] empty_for(stones).contains(c) ==> score_fn(stones)(c)
            <= score_fn(stones)(top[0]),
{
    lemma_top_is_free(stones, n, top);
    reveal(is_top_of);
    let sc = score_fn(stones);
    let order = choose|order: Seq<Coord>|
        order.no_duplicates() && order.to_set() == empty_for(stones) && #[trigger] is_top_cells(
            order,
            sc,
            n,
            top,
        );
    lemma_kept_shape(order, sc, n);
    law_kept_best(order, sc, n);
    let kp = kept(order, sc, n);
    if exists|c: Coord| #[trigger] empty_for(stones).contains(c) {
        let c = choose|c: Coord| #[trigger] empty_for(stones).contains(c);
        assert(order.to_set().contains(c));
        let i = choose|i: int| 0 <= i < order.len() && order[i] == c;
        assert(kp.len() >= 1);
        let e0 = kp.choose();
        assert(kp.contains(e0));
        assert(top.to_set().contains(e0.1));
        assert(top.len() > 0);
    }
    if top.len() > 0 {
        assert(empty_for(stones).contains(top[0]));
        assert(top.to_set().contains(top[0]));
        let e = choose|e: Entry| kp.contains(e) && e.1 == top[0];
        assert(e == entry_of(sc, top[0]));
        assert forall|c: Coord| #[trigger] empty_for(stones).contains(c) implies sc(c) <= sc(top[0]) by {
            assert(order.to_set().contains(c));
            let i = choose|i: int| 0 <= i < order.len() && order[i] == c;
            if kp.contains(entry_of(sc, c)) {
                assert(kp.map(|e: Entry| e.1).contains(c));
                assert(top.to_set().contains(c));
                let j = choose|j: int| 0 <= j < top.len() && top[j] == c;
                if j > 0 {
                    assert(sc(top[0]) >= sc(top[j]));
                }
            } else {
                assert(sc(order[i]) <= e.0);
            }
        }
    }
}

/// The candidate search calls a position critical exactly when some free
/// cell next to a stone scores at least [`CRITICAL_SCORE`] (when it ranks
/// at least one cell).
pub proof fn law_critical_flag(
    stones: Map<Coord, u8>,
    p: u8,
    top_n: nat,
    critical_n: nat,
    moves: Seq<MovePair>,
    scored: Seq<ScoredPair>,
    critical: bool,
)
    requires
        candidates_of(stones, p, top_n, critical_n, moves, scored, critical),
        top_n >= 1,
    ensures
        critical <==> exists|c: Coord| #[trigger] empty_for(stones).contains(c) && score_fn(stones)(c) >= CRITICAL_SCORE,
{
    let top = choose|top: Seq<Coord>| #[trigger]
        is_top_of(stones, top_n, top) && {
            let sc = score_fn(stones);
            if top.len() == 0 {
                &&& moves == Seq::<MovePair>::empty()
                &&& scored == Seq::<ScoredPair>::empty()
                &&& !critical
            } else if sc(top[0]) < CRITICAL_SCORE {
                &&& !critical
                &&& moves == pairs_upto(top, top.len())
                &&& scored == scored_pairs(moves, sc)
            } else {
                let crit = critical_cells(top, sc, critical_n);
                &&& critical
                &&& moves.no_duplicates()
                &&& moves.to_set() == scored.map_values(pair_of()).to_set()
                &&& exists|cands: Seq<Seq<Coord>>|
                    cands.len() == crit.len() && (forall|i: int|
                        0 <= i < crit.len() ==> is_top_of(
                            stones.insert(crit[i], p),
                            top_n,
                            #[trigger] cands[i],
                        )) && scored == critical_scored(crit, stones, p, cands, crit.len())
            }
        };
    lemma_top_first_is_best(stones, top_n, top);
    lemma_top_is_free(stones, top_n, top);
    if critical {
        assert(empty_for(stones).contains(top[0]));
    }
}

proof fn lemma_pairs_upto(top: Seq<Coord>, k: nat)
    requires
        top.no_duplicates(),
        k <= top.len(),
    ensures
        2 * pairs_upto(top, k).len() == k * (2 * top.len() - k - 1),
        forall|x: int|
            0 <= x < pairs_upto(top, k).len() ==> exists|i: int, j: int|
                0 <= i < k && i < j < top.len() && #[trigger] pairs_upto(top, k)[x] == (top[i], top[j]),
        forall|i: int, j: int| 0 <= i < k && i < j < top.len() ==> pairs_upto(top, k).contains((#[trigger] top[i], #[trigger] top[j])),
        pairs_upto(top, k).no_duplicates(),
    decreases k,
{
    if k > 0 {
        let n = top.len() as int;
        lemma_pairs_upto(top, (k - 1) as nat);
        let prev = pairs_upto(top, (k - 1) as nat);
        let row = pair_row(top, k - 1);
        let s = pairs_upto(top, k);
        assert(s == prev + row);
        let kk = k as int;
        assert(2 * s.len() == kk * (2 * n - kk - 1)) by (nonlinear_arith)
            requires
                2 * prev.len() == (kk - 1) * (2 * n - (kk - 1) - 1),
                s.len() == prev.len() + row.len(),
                row.len() == n - kk,
        ;
        assert forall|x: int| 0 <= x < s.len() implies exists|i: int, j: int|
            0 <= i < k && i < j < top.len() && #[trigger] s[x] == (top[i], top[j]) by {
            if x < prev.len() {
                assert(s[x] == prev[x]);
            } else {
                let t = x - prev.len();
                assert(s[x] == row[t]);
                assert(row[t] == (top[kk - 1], top[kk + t]));
            }
        }
        assert forall|i: int, j: int| 0 <= i < k && i < j < top.len() implies s.contains((#[trigger] top[i], #[trigger] top[j])) by {
            if i < k - 1 {
                assert(prev.contains((top[i], top[j])));
                let x = choose|x: int| 0 <= x < prev.len() && prev[x] == (top[i], top[j]);
                assert(s[x] == prev[x]);
            } else {
                let t = j - kk;
                assert(row[t] == (top[i], top[j]));
                assert(s[prev.len() + t] == row[t]);
            }
        }
        assert forall|x: int, y: int| 0 <= x < s.len() && 0 <= y < s.len() && x != y implies s[x] != s[y] by {
            if x < prev.len() && y < prev.len() {
                assert(s[x] == prev[x] && s[y] == prev[y]);
            } else if x >= prev.len() && y >= prev.len() {
                assert(s[x] == row[x - prev.len()] && s[y] == row[y - prev.len()]);
                assert(top[kk + (x - prev.len())] != top[kk + (y - prev.len())]);
            } else if x < prev.len() {
                assert(s[x] == prev[x]);
                let (i, j) = choose|i: int, j: int| 0 <= i < k - 1 && i < j < top.len() && #[trigger] prev[x] == (top[i], top[j]);
                assert(s[y] == row[y - prev.len()]);
                assert(top[i] != top[kk - 1]);
            } else {
                assert(s[y] == prev[y]);
                let (i, j) = choose|i: int, j: int| 0 <= i < k - 1 && i < j < top.len() && #[trigger] prev[y] == (top[i], top[j]);
                assert(s[x] == row[x - prev.len()]);
                assert(top[i] != top[kk - 1]);
            }
        }
    }
}

/// In a quiet position (no free cell scores [`CRITICAL_SCORE`]) the
/// candidate moves are exactly the pairs of two different ranked cells:
/// every move has two different cells of the ranking, every pair of two
/// ranked cells is a move, and no pair occurs twice, in either order.
pub proof fn law_quiet_candidates(
    stones: Map<Coord, u8>,
    p: u8,
    top_n: nat,
    critical_n: nat,
    moves: Seq<MovePair>,
    scored: Seq<ScoredPair>,
    critical: bool,
)
    requires
        candidates_of(stones, p, top_n, critical_n, moves, scored, critical),
        !critical,
    ensures
        exists|top: Seq<Coord>|
            #[trigger] is_top_of(stones, top_n, top) && top.no_duplicates() && 2 * moves.len() == top.len() * (
            top.len() - 1) && (forall|x: int|
                0 <= x < moves.len() ==> (#[trigger] moves[x]).0 != moves[x].1 && top.contains(moves[x].0)
                    && top.contains(moves[x].1)) && (forall|i: int, j: int|
                0 <= i < j < top.len() ==> moves.contains((#[trigger] top[i], #[trigger] top[j]))) && (forall|
                x: int,
                y: int,
            |
                0 <= x < moves.len() && 0 <= y < moves.len() && x != y ==> #[trigger] moves[x] != #[trigger] moves[y]
                    && moves[x] != (moves[y].1, moves[y].0)),
{
    let top = choose|top: Seq<Coord>| #[trigger]
        is_top_of(stones, top_n, top) && {
            let sc = score_fn(stones);
            if top.len() == 0 {
                &&& moves == Seq::<MovePair>::empty()
                &&& scored == Seq::<ScoredPair>::empty()
                &&& !critical
            } else if sc(top[0]) < CRITICAL_SCORE {
                &&& !critical
                &&& moves == pairs_upto(top, top.len())
                &&& scored == scored_pairs(moves, sc)
            } else {
                let crit = critical_cells(top, sc, critical_n);
                &&& critical
                &&& moves.no_duplicates()
                &&& moves.to_set() == scored.map_values(pair_of()).to_set()
                &&& exists|cands: Seq<Seq<Coord>>|
                    cands.len() == crit.len() && (forall|i: int|
                        0 <= i < crit.len() ==> is_top_of(
                            stones.insert(crit[i], p),
                            top_n,
                            #[trigger] cands[i],
                        )) && scored == critical_scored(crit, stones, p, cands, crit.len())
            }
        };
    reveal(is_top_of);
    let order = choose|order: Seq<Coord>|
        order.no_duplicates() && order.to_set() == empty_for(stones) && #[trigger] is_top_cells(
            order,
            score_fn(stones),
            top_n,
            top,
        );
    assert(top.no_duplicates());
    if top.len() == 0 {
        assert(2 * moves.len() == top.len() * (top.len() - 1));
    } else {
        lemma_pairs_upto(top, top.len());
        let n = top.len() as int;
        assert(n * (2 * n - n - 1) == n * (n - 1)) by (nonlinear_arith);
        assert forall|x: int| 0 <= x < moves.len() implies (#[trigger] moves[x]).0 != moves[x].1 && top.contains(
            moves[x].0,
        ) && top.contains(moves[x].1) by {
            let (i, j) = choose|i: int, j: int| 0 <= i < n && i < j < n && #[trigger] pairs_upto(top, top.len())[x] == (top[i], top[j]);
            assert(top[i] != top[j]);
        }
        assert forall|x: int, y: int|
            0 <= x < moves.len() && 0 <= y < moves.len() && x != y implies #[trigger] moves[x] != #[trigger] moves[y]
                && moves[x] != (moves[y].1, moves[y].0) by {
            let (i1, j1) = choose|i: int, j: int| 0 <= i < n && i < j < n && #[trigger] pairs_upto(top, top.len())[x] == (top[i], top[j]);
            let (i2, j2) = choose|i: int, j: int| 0 <= i < n && i < j < n && #[trigger] pairs_upto(top, top.len())[y] == (top[i], top[j]);
            if moves[x] == (moves[y].1, moves[y].0) {
                assert(top[i1] == top[j2]);
                assert(top[j1] == top[i2]);
            }
        }
    }
}

} // verus!
