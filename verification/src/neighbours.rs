//! The neighbourhood of a cell that the engine draws its candidate cells
//! from: the 24 cells at most two steps away along both coordinates.

use vstd::prelude::*;
use crate::fxhash::Coord;
use crate::windows::{in_i32, ind};

verus! {

/// Offset `j` (0 to 23) of the neighbourhood, in the order in which
/// `neighbor_offsets` lists them: `dq` from -2 to 2, and for each `dq`,
/// `dr` from -2 to 2, leaving out `(0, 0)`.
pub open spec fn offset(j: int) -> (int, int) {
    let t = if j < 12 {
        j
    } else {
        j + 1
    };
    (t / 5 - 2, t % 5 - 2)
}

/// Whether the integer cell `c` holds a stone.
pub open spec fn occupied(stones: Map<Coord, u8>, c: (int, int)) -> bool {
    in_i32(c.0) && in_i32(c.1) && stones.contains_key((c.0 as i32, c.1 as i32))
}

/// The number of stones at offsets `j` to 23 from cell `c`, looking back:
/// the stones `s` with `s + offset == c`.
pub open spec fn neighbours_from(stones: Map<Coord, u8>, c: Coord, j: int) -> int
    decreases 24 - j,
{
    if j < 0 || j >= 24 {
        0
    } else {
        ind(occupied(stones, (c.0 - offset(j).0, c.1 - offset(j).1))) + neighbours_from(stones, c, j + 1)
    }
}

/// The number of stones in the neighbourhood of `c`.
pub open spec fn neighbours(stones: Map<Coord, u8>, c: Coord) -> int {
    neighbours_from(stones, c, 0)
}

/// The number of offsets `j` to 23 that lead from `p` to `c`.
pub open spec fn hits_from(p: Coord, c: Coord, j: int) -> int
    decreases 24 - j,
{
    if j < 0 || j >= 24 {
        0
    } else {
        ind(p.0 + offset(j).0 == c.0 && p.1 + offset(j).1 == c.1) + hits_from(p, c, j + 1)
    }
}

/// Whether `fc` counts the neighbours of every cell that has any.
pub open spec fn frontier_of(fc: Map<Coord, i32>, stones: Map<Coord, u8>) -> bool {
    &&& forall|c: Coord| #[trigger] fc.contains_key(c) <==> neighbours(stones, c) > 0
    &&& forall|c: Coord| #[trigger] fc.contains_key(c) ==> fc[c] == neighbours(stones, c)
}

/// Whether `empty` is the set of free cells that have a neighbour.
pub open spec fn empty_of(empty: Set<Coord>, fc: Map<Coord, i32>, stones: Map<Coord, u8>) -> bool {
    forall|c: Coord| #[trigger] empty.contains(c) <==> fc.contains_key(c) && !stones.contains_key(c)
}

/// A count over offsets `j` to 23 is between 0 and `24 - j`.
pub proof fn lemma_neighbours_bound(stones: Map<Coord, u8>, c: Coord, j: int)
    requires
        0 <= j <= 24,
    ensures
        0 <= neighbours_from(stones, c, j) <= 24 - j,
    decreases 24 - j,
{
    if j < 24 {
        lemma_neighbours_bound(stones, c, j + 1);
    }
}

/// A stone placed on the free cell `p` is a neighbour of exactly the cells
/// that an offset leads to from `p`.
pub proof fn lemma_neighbours_insert(stones: Map<Coord, u8>, p: Coord, v: u8, c: Coord, j: int)
    requires
        !stones.contains_key(p),
        0 <= j <= 24,
    ensures
        neighbours_from(stones.insert(p, v), c, j) == neighbours_from(stones, c, j) + hits_from(p, c, j),
    decreases 24 - j,
{
    if j < 24 {
        lemma_neighbours_insert(stones, p, v, c, j + 1);
        let x = (c.0 - offset(j).0, c.1 - offset(j).1);
        if in_i32(x.0) && in_i32(x.1) {
            if (x.0 as i32, x.1 as i32) == p {
                assert(p.0 + offset(j).0 == c.0 && p.1 + offset(j).1 == c.1);
            }
        }
    }
}

/// Taking the stone off `p` removes it from the neighbours of exactly the
/// cells that an offset leads to from `p`.
pub proof fn lemma_neighbours_remove(stones: Map<Coord, u8>, p: Coord, c: Coord, j: int)
    requires
        stones.contains_key(p),
        0 <= j <= 24,
    ensures
        neighbours_from(stones.remove(p), c, j) == neighbours_from(stones, c, j) - hits_from(p, c, j),
{
    let s2 = stones.remove(p);
    assert(s2.insert(p, stones[p]) =~= stones);
    lemma_neighbours_insert(s2, p, stones[p], c, j);
}

/// The cell that offset `j` leads to from `p` is hit by offset `j`.
pub proof fn lemma_hits_step(p: Coord, c: Coord, j: int)
    requires
        0 <= j < 24,
    ensures
        hits_from(p, c, j) == hits_from(p, c, j + 1) + ind(
            p.0 + offset(j).0 == c.0 && p.1 + offset(j).1 == c.1,
        ),
{
}

/// A count of hits over offsets `j` to 23 is between 0 and `24 - j`.
pub proof fn lemma_hits_bound(p: Coord, c: Coord, j: int)
    requires
        0 <= j <= 24,
    ensures
        0 <= hits_from(p, c, j) <= 24 - j,
    decreases 24 - j,
{
    if j < 24 {
        lemma_hits_bound(p, c, j + 1);
    }
}

/// Fewer offsets never hit more often.
pub proof fn lemma_hits_mono(p: Coord, c: Coord, i: int, j: int)
    requires
        0 <= i <= j <= 24,
    ensures
        hits_from(p, c, i) >= hits_from(p, c, j),
    decreases j - i,
{
    if i < j {
        lemma_hits_mono(p, c, i + 1, j);
        lemma_hits_bound(p, c, i + 1);
    }
}

/// No stone, no neighbour.
pub proof fn lemma_neighbours_none(c: Coord, j: int)
    requires
        0 <= j <= 24,
    ensures
        neighbours_from(Map::<Coord, u8>::empty(), c, j) == 0,
    decreases 24 - j,
{
    if j < 24 {
        lemma_neighbours_none(c, j + 1);
    }
}

/// The free cells of a position that have a stone in their neighbourhood:
/// the cells the engine considers for its moves.
pub open spec fn empty_for(stones: Map<Coord, u8>) -> Set<Coord> {
    Set::new(|c: Coord| neighbours(stones, c) > 0 && !stones.contains_key(c))
}

/// Whether `(a, b)` moves at most two steps along each coordinate, and
/// not zero steps along both.
pub open spec fn in_square(a: int, b: int) -> bool {
    -2 <= a <= 2 && -2 <= b <= 2 && (a, b) != (0int, 0int)
}

/// The neighbourhood is the five-by-five square around the cell without
/// the cell itself: each offset moves at most two steps along each
/// coordinate and not zero steps along both, no two offsets are the same,
/// and every such move is one of them.
pub proof fn law_neighbourhood_is_the_square()
    ensures
        forall|j: int| 0 <= j < 24 ==> -2 <= #[trigger] offset(j).0 <= 2 && -2 <= offset(j).1 <= 2 && offset(j)
            != (0int, 0int),
        forall|i: int, j: int| 0 <= i < 24 && 0 <= j < 24 && i != j ==> #[trigger] offset(i) != #[trigger] offset(j),
        forall|a: int, b: int| #[trigger] in_square(a, b) ==> exists|j: int| 0 <= j < 24 && #[trigger] offset(j) == (a, b),
{
    assert forall|j: int| 0 <= j < 24 implies -2 <= #[trigger] offset(j).0 <= 2 && -2 <= offset(j).1 <= 2 && offset(j)
        != (0int, 0int) by {
        let t = if j < 12 { j } else { j + 1 };
        assert(t == 5 * (t / 5) + t % 5 && 0 <= t % 5 < 5) by (nonlinear_arith)
            requires 0 <= t;
        assert(0 <= t / 5 <= 4) by (nonlinear_arith)
            requires 0 <= t < 25;
    }
    assert forall|i: int, j: int| 0 <= i < 24 && 0 <= j < 24 && i != j implies #[trigger] offset(i) != #[trigger] offset(j) by {
        let ti = if i < 12 { i } else { i + 1 };
        let tj = if j < 12 { j } else { j + 1 };
        assert(ti == 5 * (ti / 5) + ti % 5) by (nonlinear_arith)
            requires 0 <= ti;
        assert(tj == 5 * (tj / 5) + tj % 5) by (nonlinear_arith)
            requires 0 <= tj;
    }
    assert forall|a: int, b: int| #[trigger] in_square(a, b) implies exists|j: int| 0 <= j < 24 && #[trigger] offset(j) == (a, b) by {
        let t = 5 * (a + 2) + (b + 2);
        assert(t / 5 == a + 2 && t % 5 == b + 2) by (nonlinear_arith)
            requires t == 5 * (a + 2) + (b + 2), 0 <= b + 2 < 5;
        let j = if t < 12 { t } else { t - 1 };
        assert(t != 12);
        assert(offset(j) == (a, b));
    }
}

} // verus!
