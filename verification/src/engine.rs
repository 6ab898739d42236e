//! The engine's position: the stones, and what the search reads of them,
//! kept up to date stone by stone: the window tallies and the numbers of
//! pure windows, the cell scores, the neighbourhood counts, the free cells
//! next to a stone, and the Zobrist hash.

use vstd::prelude::*;
use rustc_hash::{FxHashMap, FxHashSet};
use crate::draws::KeyDraws;
use crate::board::{Board, Cell, has_six, player_cells, play_error, six_from, occupies, step};
use crate::notation::trim_end;
use crate::game_record::{RecordError, read_record, record_moves};
use crate::hashing::{hash_of, lemma_xor_agree, lemma_xor_empty, lemma_xor_insert, lemma_xor_remove, stone_key};
use crate::candidates::{
    CRITICAL_SCORE, ScoredPair, candidates_of, cap, coord_lt, critical_cells, critical_scored,
    entries_for, is_top_of, lemma_critical_scored_prefix, lemma_top_is_free, norm_pair, pair_row,
    pairs_upto, scored_pairs, other_than, pair_entry, pair_of,
};
use crate::selection::{is_top_cells, lemma_kept_shape, map_scores, score_at, select_top_cells, Entry};
use crate::board::{in_bounds, cell_in_bounds};
use crate::fxhash::{
    Coord, Stone, WindowKey, MovePair, coord_map_contains, stone_set_to_vec,
    coord_set_to_vec, pair_set_insert, pair_set_into_vec, coord_map_len, coord_map_get, coord_map_insert,
    coord_map_remove, coord_set_insert, coord_set_remove, stone_map_get,
    stone_map_insert, window_map_get, window_map_insert, window_map_remove,
};
use crate::neighbours::{
    lemma_neighbours_none, empty_for,
    empty_of, frontier_of, hits_from, lemma_hits_bound, lemma_hits_mono, lemma_hits_step,
    lemma_neighbours_bound, lemma_neighbours_insert, lemma_neighbours_remove, neighbours, offset,
};
use crate::windows::{
    bucket, cell_sum, ind, is_window, lemma_bucket_insert, lemma_bucket_remove,
    lemma_cell_sum_bounds, lemma_cell_sum_frame, lemma_place_of_cell, lemma_worth_bounds,
    needs_of, place_in, pow10, score_of, scores_of, tallies_sane, tally_worth, window_cell,
    window_fits, worth, axis_of, count_in, lemma_count_insert, lemma_count_remove,
    lemma_mixed_end, lemma_mixed_start, lemma_mixed_step, lemma_tallies_sane, lemma_tally_count,
    lemma_window_through, start_of, stones_fit, lemma_origin_tallies, tallies_mixed, tallies_of, window_through,
    holds, term, in_i32, lemma_tallies_for, score_fn, tallies_for, position_score,
};

verus! {

/// The most stones the engine's position may hold: the counts of pure
/// windows are `i32`s, and every stone lies in eighteen windows.
pub const MAX_STONES: usize = 100_000_000;

/// Whether `v` lists the 24 offsets of the neighbourhood in order.
pub open spec fn offsets_listed(v: Seq<(i32, i32)>) -> bool {
    &&& v.len() == 24
    &&& forall|j: int| 0 <= j < 24 ==> #[trigger] v[j].0 == offset(j).0 && v[j].1 == offset(j).1
}

/// The 24 offsets of a cell's neighbourhood: `dq` from -2 to 2, and for each
/// `dq`, `dr` from -2 to 2, leaving out `(0, 0)`.
pub fn neighbor_offsets() -> (v: Vec<(i32, i32)>)
    ensures
        offsets_listed(v@),
{
    let mut v: Vec<(i32, i32)> = Vec::with_capacity(24);
    for dq in -2i32..3
        invariant
            v@.len() == 5 * (dq + 2) - (if dq > 0 { 1int } else { 0 }),
            forall|j: int| 0 <= j < v@.len() ==> #[trigger] v@[j].0 == offset(j).0 && v@[j].1 == offset(j).1,
    {
        for dr in -2i32..3
            invariant
                -2 <= dq <= 2,
                v@.len() == 5 * (dq + 2) + (dr + 2) - (if dq > 0 || (dq == 0 && dr > 0) { 1int } else { 0 }),
                forall|j: int| 0 <= j < v@.len() ==> #[trigger] v@[j].0 == offset(j).0 && v@[j].1 == offset(j).1,
        {
            if dq != 0 || dr != 0 {
                let ghost before = v@;
                proof {
                    let j = v@.len() as int;
                    let a = dq + 2;
                    let b = dr + 2;
                    assert((5 * a + b) / 5 == a && (5 * a + b) % 5 == b) by (nonlinear_arith)
                        requires
                            0 <= b < 5,
                            0 <= a;
                    assert(offset(j) == (dq as int, dr as int));
                }
                v.push((dq, dr));
                proof {
                    assert forall|j: int| 0 <= j < v@.len() implies #[trigger] v@[j].0 == offset(j).0 && v@[j].1 == offset(j).1 by {
                        if j < before.len() {
                            assert(v@[j] == before[j]);
                        }
                    }
                }
            }
        }
    }
    v
}

/// The window on axis `d` in which `(q, r)` is cell `k`.
fn window_key_exec(q: i32, r: i32, d: usize, k: i32) -> (w: WindowKey)
    requires
        in_bounds(q as int),
        in_bounds(r as int),
        d < 3,
        0 <= k < 6,
    ensures
        w == window_through(q as int, r as int, d as int, k as int),
{
    if d == 0 {
        (1, 0, q - k, r)
    } else if d == 1 {
        (0, 1, q, r - k)
    } else {
        (1, -1, q - k, r + k)
    }
}


/// `10^x` for a tally of `x` stones.
fn pow10_of(x: i32) -> (v: i64)
    requires
        0 <= x <= 9,
    ensures
        v == pow10(x as int),
{
    if x == 0 {
        1
    } else if x == 1 {
        10
    } else if x == 2 {
        100
    } else if x == 3 {
        1_000
    } else if x == 4 {
        10_000
    } else if x == 5 {
        100_000
    } else if x == 6 {
        1_000_000
    } else if x == 7 {
        10_000_000
    } else if x == 8 {
        100_000_000
    } else {
        1_000_000_000
    }
}

/// Cell `i` of window `key`.
fn window_cell_exec(key: WindowKey, i: i32) -> (c: Coord)
    requires
        is_window(key),
        window_fits(key),
        0 <= i < 6,
    ensures
        c.0 == window_cell(key, i as int).0,
        c.1 == window_cell(key, i as int).1,
{
    let (dq, dr, sq, sr) = key;
    let cq = if dq == 1 { sq + i } else { sq };
    let cr = if dr == 1 {
        sr + i
    } else if dr == -1 {
        sr - i
    } else {
        sr
    };
    (cq, cr)
}


/// The winner of a position, X first: the player with six in a row.
pub open spec fn winner_of(moves: Set<Stone>) -> Option<Cell> {
    if has_six(player_cells(moves, 1)) {
        Some(Cell::X)
    } else if has_six(player_cells(moves, 2)) {
        Some(Cell::O)
    } else {
        None
    }
}

/// Whether `next` is board `b` after the engine played the stones `m`:
/// the rules admit them, they are placed, and the winner is decided anew.
pub open spec fn turn_taken(b: Board, next: Board, m: [(i32, i32); 2]) -> bool {
    &&& b.accepts(m)
    &&& b.played_to(next, m)
    &&& next.winner == winner_of(next.moves@)
}

/// Whether the boards `bs` are a new game followed by the first `k` turns
/// `ms`, each taken in turn.
pub open spec fn replayed_to(bs: Seq<Board>, ms: Seq<[(i32, i32); 2]>, k: int) -> bool {
    &&& 0 <= k <= ms.len()
    &&& bs.len() == k + 1
    &&& bs[0].is_new_game()
    &&& forall|i: int| 0 <= i < k ==> turn_taken(#[trigger] bs[i], bs[i + 1], ms[i])
}

/// Whether the boards `bs` are a new game followed by the first `k` turns
/// `ms`, each taken in turn, with turn `k` (if there is one) refused.
pub open spec fn replays(bs: Seq<Board>, ms: Seq<[(i32, i32); 2]>, k: int) -> bool {
    &&& 0 <= k <= ms.len()
    &&& bs.len() == k + 1
    &&& bs[0].is_new_game()
    &&& forall|i: int| 0 <= i < k ==> turn_taken(#[trigger] bs[i], bs[i + 1], ms[i])
    &&& k < ms.len() ==> !bs[k].accepts(ms[k])
}

/// Whether every turn of `ms` that a game from a new board reaches and
/// whose stones the rules accept fits the engine: its cells lie within the
/// bounds and the stones fit the engine's limit.  Turns after the first
/// refused one do not count.
pub open spec fn importable(ms: Seq<[(i32, i32); 2]>) -> bool {
    forall|bs: Seq<Board>, i: int|
        #![trigger replayed_to(bs, ms, i)]
        replayed_to(bs, ms, i) && i < ms.len() && bs[i].accepts(ms[i]) ==> cell_in_bounds(ms[i][0])
            && cell_in_bounds(ms[i][1]) && 2 * i + 3 <= MAX_STONES
}

/// Why a game record could not be imported.
#[derive(Debug)]
pub enum ImportError {
    /// A turn of the record could not be read.
    Record(RecordError),
    /// The board refused a turn, with this message.
    Refused(String),
}

/// The tally of window `key`: its X and O stones, none when untallied.
pub open spec fn tally_at(wc: Map<WindowKey, [i32; 2]>, key: WindowKey) -> [i32; 2] {
    if wc.contains_key(key) {
        wc[key]
    } else {
        [0i32, 0i32]
    }
}

/// A tally with one more stone of X (`is_x`) or of O.
pub open spec fn tally_plus(t: [i32; 2], is_x: bool) -> [i32; 2] {
    if is_x {
        [(t[0] + 1) as i32, t[1]]
    } else {
        [t[0], (t[1] + 1) as i32]
    }
}

/// A tally with one stone of X (`is_x`) or of O fewer.
pub open spec fn tally_minus(t: [i32; 2], is_x: bool) -> [i32; 2] {
    if is_x {
        [(t[0] - 1) as i32, t[1]]
    } else {
        [t[0], (t[1] - 1) as i32]
    }
}

/// The index in the X counts of a pure X tally (`x - 1`), or -1.
pub open spec fn pure_x(t: [i32; 2]) -> int {
    if t[1] == 0 && t[0] > 0 {
        t[0] - 1
    } else {
        -1
    }
}

/// The index in the O counts of a pure O tally (`o - 1`), or -1.
pub open spec fn pure_o(t: [i32; 2]) -> int {
    if t[0] == 0 && t[1] > 0 {
        t[1] - 1
    } else {
        -1
    }
}

/// Whether `n1` is `n0` with one taken from entry `a` and one added to
/// entry `b` (an index of -1 stands for no change).
pub open spec fn needs_moved(n0: [i32; 6], n1: [i32; 6], a: int, b: int) -> bool {
    forall|k: int| 0 <= k < 6 ==> #[trigger] n1[k] == n0[k] - ind(k == a) + ind(k == b)
}

/// Whether window `key` covers cell `c`.
pub open spec fn covers(key: WindowKey, c: Coord) -> bool {
    place_in(key, (c.0 as int, c.1 as int)) >= 0
}

/// Whether the scores `cs1` are `cs0` with `net` added to each cell of
/// window `key` (a cell without an entry counting 0, and gaining one),
/// and nothing else changed; all of `cs0` when `net` is 0.
pub open spec fn scores_moved(cs0: Map<Coord, i64>, cs1: Map<Coord, i64>, key: WindowKey, net: int) -> bool {
    if net == 0 {
        cs1 == cs0
    } else {
        &&& forall|c: Coord| #[trigger] cs1.contains_key(c) == (cs0.contains_key(c) || covers(key, c))
        &&& forall|c: Coord| #[trigger] score_of(cs1, c) == score_of(cs0, c) + (if covers(key, c) {
            net
        } else {
            0
        })
    }
}

/// Whether one change of a tally fits the counts of pure windows and the
/// scores of the window's cells.
pub open spec fn room_to_update(xn: [i32; 6], on: [i32; 6], cs: Map<Coord, i64>, key: WindowKey) -> bool {
    &&& forall|k: int| 0 <= k < 6 ==> i32::MIN < #[trigger] xn[k] < i32::MAX
    &&& forall|k: int| 0 <= k < 6 ==> i32::MIN < #[trigger] on[k] < i32::MAX
    &&& forall|c: Coord|
        covers(key, c) ==> -4_000_000_000_000_000_000 <= #[trigger] score_of(cs, c) <= 4_000_000_000_000_000_000
}

/// Counts and scores that are those of sane tallies leave room for a
/// change of a tally.
proof fn lemma_room(wc: Map<WindowKey, [i32; 2]>, xn: [i32; 6], on: [i32; 6], cs: Map<Coord, i64>, key: WindowKey)
    requires
        wc.dom().finite(),
        wc.dom().len() < i32::MAX - 1,
        tallies_sane(wc),
        needs_of(wc, xn, on),
        scores_of(wc, cs),
    ensures
        room_to_update(xn, on, cs, key),
{
    assert forall|k: int| 0 <= k < 6 implies i32::MIN < #[trigger] xn[k] < i32::MAX by {
        vstd::set_lib::lemma_len_subset(bucket(wc, k + 1, 0), wc.dom());
    }
    assert forall|k: int| 0 <= k < 6 implies i32::MIN < #[trigger] on[k] < i32::MAX by {
        vstd::set_lib::lemma_len_subset(bucket(wc, 0, k + 1), wc.dom());
    }
    assert forall|c: Coord| covers(key, c) implies -4_000_000_000_000_000_000 <= #[trigger] score_of(cs, c)
        <= 4_000_000_000_000_000_000 by {
        lemma_cell_sum_bounds(wc, c);
    }
}

/// Whether cell `c` lies within the bounds or scores below
/// [`CRITICAL_SCORE`].
pub open spec fn fits_or_quiet(sc: spec_fn(Coord) -> i64, c: Coord) -> bool {
    sc(c) < CRITICAL_SCORE || cell_in_bounds(c)
}

pub struct Engine {
    pub board: Board,
    current_hash: u64,
    empty_cells_set: FxHashSet<Coord>,
    frontier_counts: FxHashMap<Coord, i32>,
    window_counts: FxHashMap<WindowKey, [i32; 2]>,
    x_needs: [i32; 6],
    o_needs: [i32; 6],
    cell_scores: FxHashMap<Coord, i64>,
    board_state: FxHashMap<Coord, u8>,
    zobrist_table: FxHashMap<Stone, u64>,
    rng: KeyDraws,
    key_draw: Ghost<Map<Stone, int>>,
}

impl Engine {
    /// The engine's board.
    pub closed spec fn spec_board(&self) -> Board {
        self.board
    }

    /// The engine's stones: the player's number (1 or 2) on each occupied cell.
    pub closed spec fn stones(&self) -> Map<Coord, u8> {
        self.board_state@
    }

    /// The Zobrist hash of the position.
    pub closed spec fn hash(&self) -> u64 {
        self.current_hash
    }

    /// The random key drawn for each stone so far.
    pub closed spec fn zobrist(&self) -> Map<Stone, u64> {
        self.zobrist_table@
    }

    /// The tally of X and O stones of every window that holds a stone.
    pub closed spec fn tallies(&self) -> Map<WindowKey, [i32; 2]> {
        self.window_counts@
    }

    /// The number of windows with `k + 1` X stones and no O stone.
    pub closed spec fn spec_x_needs(&self) -> [i32; 6] {
        self.x_needs
    }

    /// The number of windows with `k + 1` O stones and no X stone.
    pub closed spec fn spec_o_needs(&self) -> [i32; 6] {
        self.o_needs
    }

    /// The stored cell scores.
    pub closed spec fn scores(&self) -> Map<Coord, i64> {
        self.cell_scores@
    }

    /// The stored neighbourhood counts.
    pub closed spec fn frontier(&self) -> Map<Coord, i32> {
        self.frontier_counts@
    }

    /// The free cells that have a stone in their neighbourhood.
    pub closed spec fn empty_cells(&self) -> Set<Coord> {
        self.empty_cells_set@
    }

    /// The engine's invariant: every stored structure is the one its stones
    /// determine, the stones belong to X or O and lie within the bounds, and
    /// every stone has its Zobrist key.
    #[verifier::opaque]
    pub closed spec fn wf(&self) -> bool {
        let st = self.board_state@;
        let wc = self.window_counts@;
        &&& self.board.cells_ok()
        &&& st.dom().finite()
        &&& st.dom().len() <= MAX_STONES
        &&& stones_fit(st)
        &&& forall|c: Coord| #[trigger] st.contains_key(c) ==> st[c] == 1 || st[c] == 2
        &&& tallies_of(wc, st)
        &&& tallies_sane(wc)
        &&& wc.dom().finite()
        &&& wc.dom().len() <= 18 * st.dom().len()
        &&& needs_of(wc, self.x_needs, self.o_needs)
        &&& scores_of(wc, self.cell_scores@)
        &&& frontier_of(self.frontier_counts@, st)
        &&& empty_of(self.empty_cells_set@, self.frontier_counts@, st)
        &&& forall|c: Coord| #[trigger] st.contains_key(c) ==> self.zobrist_table@.contains_key((st[c], c.0, c.1))
        &&& self.current_hash == hash_of(st, self.zobrist_table@)
    }

    /// The values the engine's generator has drawn so far, in order.
    pub closed spec fn draws(&self) -> Seq<u64> {
        self.rng.drawn()
    }

    /// For each stone with a key, the place among the draws of the value
    /// that became its key.
    pub closed spec fn key_index(&self) -> Map<Stone, int> {
        self.key_draw@
    }

    /// Whether every key is a draw of the generator of its own: each stone
    /// with a key has the place of the draw that became its key, and no two
    /// stones share a draw.
    pub closed spec fn keys_drawn(&self) -> bool {
        let kd = self.key_draw@;
        let d = self.rng.drawn();
        &&& kd.dom() == self.zobrist_table@.dom()
        &&& forall|s: Stone| #[trigger] kd.contains_key(s) ==> 0 <= kd[s] < d.len() && self.zobrist_table@[s] == d[kd[s]]
        &&& forall|s: Stone, t: Stone| #[trigger] kd.contains_key(s) && #[trigger] kd.contains_key(t) && s != t ==> kd[s] != kd[t]
    }

    /// Whether the engine's stones are the board's: the same cells, each with
    /// the same player.
    pub closed spec fn in_sync(&self) -> bool {
        &&& forall|c: Coord| #[trigger]
            self.board_state@.contains_key(c) ==> self.board.moves@.contains((self.board_state@[c], c.0, c.1))
        &&& forall|s: Stone| #[trigger]
            self.board.moves@.contains(s) ==> self.board_state@.contains_key((s.1, s.2))
    }

    /// A new engine on a new board: X's stone on `(0, 0)`, O to move; its
    /// Zobrist keys are drawn from a generator seeded with `seed`.
    pub fn new(seed: u64) -> (e: Self)
        ensures
            e.wf(),
            e.keys_drawn(),
            e.in_sync(),
            e.spec_board().is_new_game(),
            e.stones() == map![(0i32, 0i32) => 1u8],
            e.zobrist().contains_key((1u8, 0i32, 0i32)),
            e.hash() == e.zobrist()[(1u8, 0i32, 0i32)],
            e.spec_x_needs() == [18i32, 0i32, 0i32, 0i32, 0i32, 0i32],
            e.spec_o_needs() == [0i32, 0i32, 0i32, 0i32, 0i32, 0i32],
    {
        Self::with_name(seed)
    }

    /// A new engine on a new board, with a generator seeded with `seed` for
    /// its Zobrist keys; the key of X's first stone is drawn first.
    pub fn with_name(seed: u64) -> (e: Self)
        ensures
            e.wf(),
            e.keys_drawn(),
            e.in_sync(),
            e.spec_board().is_new_game(),
            e.stones() == map![(0i32, 0i32) => 1u8],
            e.zobrist().contains_key((1u8, 0i32, 0i32)),
            e.hash() == e.zobrist()[(1u8, 0i32, 0i32)],
            e.spec_x_needs() == [18i32, 0i32, 0i32, 0i32, 0i32, 0i32],
            e.spec_o_needs() == [0i32, 0i32, 0i32, 0i32, 0i32, 0i32],
    {
        let mut rng = KeyDraws::new(seed);
        let mut zobrist_table: FxHashMap<Stone, u64> = FxHashMap::default();
        let first = rng.next();
        let key_draw: Ghost<Map<Stone, int>> = Ghost(Map::<Stone, int>::empty().insert((1u8, 0i32, 0i32), 0int));
        stone_map_insert(&mut zobrist_table, (1, 0, 0), first);
        let mut engine = Engine {
            board: Board::new(),
            current_hash: 0,
            empty_cells_set: FxHashSet::default(),
            frontier_counts: FxHashMap::default(),
            window_counts: FxHashMap::default(),
            x_needs: [0, 0, 0, 0, 0, 0],
            o_needs: [0, 0, 0, 0, 0, 0],
            cell_scores: FxHashMap::default(),
            board_state: FxHashMap::default(),
            zobrist_table,
            rng,
            key_draw,
        };
        proof {
            assert(engine.board.moves@.len() == 1) by {
                assert(engine.board.moves@ =~= Set::empty().insert((1u8, 0i32, 0i32)));
            }
        }
        let ghost before = engine;
        engine.init_incremental_state();
        proof {
            assert(before.zobrist().contains_key((1u8, 0i32, 0i32)));
            engine.lemma_new_game_position();
        }
        engine
    }

    /// The engine's position in a new game: X's stone on the origin, its
    /// key as the hash, and one X stone in each of the eighteen windows
    /// through the origin.
    proof fn lemma_new_game_position(&self)
        requires
            self.wf(),
            self.in_sync(),
            self.spec_board().is_new_game(),
        ensures
            self.stones() == map![(0i32, 0i32) => 1u8],
            self.zobrist().contains_key((1u8, 0i32, 0i32)),
            self.hash() == self.zobrist()[(1u8, 0i32, 0i32)],
            self.spec_x_needs() == [18i32, 0i32, 0i32, 0i32, 0i32, 0i32],
            self.spec_o_needs() == [0i32, 0i32, 0i32, 0i32, 0i32, 0i32],
    {
        reveal(Engine::wf);
        let st = self.board_state@;
        assert forall|c: Coord| #[trigger] st.contains_key(c) implies c == (0i32, 0i32) && st[c] == 1u8 by {
            assert(self.board.moves@.contains((st[c], c.0, c.1)));
        }
        assert(self.board.moves@.contains((1u8, 0i32, 0i32)));
        assert(st.contains_key((0i32, 0i32)));
        assert(st =~= map![(0i32, 0i32) => 1u8]);
        let z = self.zobrist_table@;
        let key = stone_key(st, z);
        lemma_xor_empty(key);
        lemma_xor_insert(Set::<Coord>::empty(), key, (0i32, 0i32));
        assert(st.dom() =~= Set::<Coord>::empty().insert((0i32, 0i32)));
        let k = z[(1u8, 0i32, 0i32)];
        assert(0u64 ^ k == k) by (bit_vector);
        lemma_tallies_for(self.window_counts@, st);
        lemma_origin_tallies();
        let wc = self.window_counts@;
        assert(self.x_needs[0] == bucket(wc, 1, 0).len());
        assert forall|k: int| 1 <= k < 6 implies self.x_needs[k] == 0 by {
            assert(self.x_needs[k] == bucket(wc, k + 1, 0).len());
            assert(bucket(wc, k + 1, 0) == Set::<WindowKey>::empty());
        }
        assert forall|k: int| 0 <= k < 6 implies self.o_needs[k] == 0 by {
            assert(self.o_needs[k] == bucket(wc, 0, k + 1).len());
            assert(bucket(wc, 0, k + 1) == Set::<WindowKey>::empty());
        }
        assert(self.x_needs@ =~= [18i32, 0i32, 0i32, 0i32, 0i32, 0i32]@);
        assert(self.o_needs@ =~= [0i32, 0i32, 0i32, 0i32, 0i32, 0i32]@);
    }

    /// Back to a new game: the board is reset and every derived structure
    /// rebuilt from it (the Zobrist keys drawn so far are kept).
    pub fn reset(&mut self)
        requires
            old(self).wf(),
        ensures
            final(self).wf(),
            old(self).keys_drawn() ==> final(self).keys_drawn(),
            final(self).in_sync(),
            final(self).spec_board().is_new_game(),
            forall|s: Stone| #[trigger] old(self).zobrist().contains_key(s) ==> final(self).zobrist().contains_key(s)
                && final(self).zobrist()[s] == old(self).zobrist()[s],
            final(self).stones() == map![(0i32, 0i32) => 1u8],
            final(self).zobrist().contains_key((1u8, 0i32, 0i32)),
            final(self).hash() == final(self).zobrist()[(1u8, 0i32, 0i32)],
            final(self).spec_x_needs() == [18i32, 0i32, 0i32, 0i32, 0i32, 0i32],
            final(self).spec_o_needs() == [0i32, 0i32, 0i32, 0i32, 0i32, 0i32],
    {
        proof {
            reveal(Engine::wf);
        }
        self.board.reset();
        proof {
            assert(self.board.moves@.len() == 1) by {
                assert(self.board.moves@ =~= Set::empty().insert((1u8, 0i32, 0i32)));
            }
        }
        let ghost mid = *self;
        self.init_incremental_state();
        proof {
            assert(mid.zobrist() == old(self).zobrist());
            assert forall|s: Stone| #[trigger] old(self).zobrist().contains_key(s) implies self.zobrist().contains_key(s)
                && self.zobrist()[s] == old(self).zobrist()[s] by {
                assert(mid.zobrist().contains_key(s));
            }
            self.lemma_new_game_position();
        }
    }

    /// Rebuilds every derived structure from the board's stones.
    fn init_incremental_state(&mut self)
        requires
            old(self).board.cells_ok(),
            old(self).board.moves@.len() <= MAX_STONES,
        ensures
            final(self).wf(),
            old(self).keys_drawn() ==> final(self).keys_drawn(),
            final(self).in_sync(),
            final(self).board == old(self).board,
            forall|s: Stone| #[trigger] old(self).zobrist().contains_key(s) ==> final(self).zobrist().contains_key(s)
                && final(self).zobrist()[s] == old(self).zobrist()[s],
    {
        proof {
            reveal(Engine::wf);
        }
        self.current_hash = 0;
        self.empty_cells_set.clear();
        self.frontier_counts.clear();
        self.window_counts.clear();
        self.x_needs = [0, 0, 0, 0, 0, 0];
        self.o_needs = [0, 0, 0, 0, 0, 0];
        self.cell_scores.clear();
        self.board_state.clear();
        proof {
            let st = self.board_state@;
            let wc = self.window_counts@;
            assert(st.dom() =~= Set::empty());
            assert(wc.dom() =~= Set::empty());
            assert forall|k: int| 0 <= k < 6 implies #[trigger] self.x_needs[k] == bucket(wc, k + 1, 0).len() by {
                assert(bucket(wc, k + 1, 0) =~= Set::empty());
            }
            assert forall|k: int| 0 <= k < 6 implies #[trigger] self.o_needs[k] == bucket(wc, 0, k + 1).len() by {
                assert(bucket(wc, 0, k + 1) =~= Set::empty());
            }
            assert forall|c: Coord| #[trigger] score_of(self.cell_scores@, c) == cell_sum(wc, c) by {
            }
            assert forall|c: Coord| #[trigger] self.frontier_counts@.contains_key(c) <==> neighbours(st, c) > 0 by {
                lemma_neighbours_none(c, 0);
            }
            lemma_xor_empty(stone_key(st, self.zobrist_table@));
        }

        let existing = stone_set_to_vec(&self.board.moves);
        proof {
            existing@.unique_seq_to_set();
        }
        for i in 0..existing.len()
            invariant
                existing@.no_duplicates(),
                existing@.to_set() == self.board.moves@,
                existing@.len() <= MAX_STONES,
                self.board == old(self).board,
                self.board.cells_ok(),
                self.wf(),
                old(self).keys_drawn() ==> self.keys_drawn(),
                forall|s: Stone| #[trigger] old(self).zobrist().contains_key(s) ==> self.zobrist().contains_key(s)
                    && self.zobrist()[s] == old(self).zobrist()[s],
                self.board_state@.dom().len() == i,
                forall|c: Coord| #[trigger] self.board_state@.contains_key(c) <==> exists|j: int|
                    0 <= j < i && (existing@[j].1, existing@[j].2) == c,
                forall|c: Coord| #[trigger] self.board_state@.contains_key(c) ==> self.board.moves@.contains(
                    (self.board_state@[c], c.0, c.1),
                ),
        {
            let s = existing[i];
            proof {
                reveal(Engine::wf);
                assert(existing@.to_set().contains(s));
                if self.board_state@.contains_key((s.1, s.2)) {
                    let j = choose|j: int| 0 <= j < i && (existing@[j].1, existing@[j].2) == (s.1, s.2);
                    assert(existing@.to_set().contains(existing@[j]));
                    assert(existing@[j] == s);
                }
            }
            let ghost before = *self;
            self.add_move(s);
            proof {
                reveal(Engine::wf);
                assert forall|t: Stone| #[trigger] old(self).zobrist().contains_key(t) implies self.zobrist().contains_key(t)
                    && self.zobrist()[t] == old(self).zobrist()[t] by {
                    assert(before.zobrist().contains_key(t));
                }
                assert forall|c: Coord| #[trigger] self.board_state@.contains_key(c) <==> exists|j: int|
                    0 <= j < i + 1 && (existing@[j].1, existing@[j].2) == c by {
                    if c == (s.1, s.2) {
                        assert((existing@[i as int].1, existing@[i as int].2) == c);
                    }
                }
            }
        }
        proof {
            assert forall|t: Stone| #[trigger] self.board.moves@.contains(t) implies self.board_state@.contains_key(
                (t.1, t.2),
            ) by {
                assert(existing@.to_set().contains(t));
                let j = choose|j: int| 0 <= j < existing@.len() && existing@[j] == t;
            }
        }
    }

    /// A window of six stones of player `pl` exists exactly when `pl` has six
    /// in a row on the board: the counts of pure windows of six are the
    /// board's win condition.
    pub proof fn law_pure_six_windows(&self, pl: u8)
        requires
            self.wf(),
            self.in_sync(),
            pl == 1 || pl == 2,
        ensures
            (if pl == 1 {
                self.spec_x_needs()[5] > 0
            } else {
                self.spec_o_needs()[5] > 0
            }) <==> has_six(player_cells(self.spec_board().moves@, pl)),
    {
        reveal(Engine::wf);
        let st = self.board_state@;
        let wc = self.window_counts@;
        let pos = player_cells(self.board.moves@, pl);
        let b = if pl == 1 {
            bucket(wc, 6, 0)
        } else {
            bucket(wc, 0, 6)
        };
        assert(if pl == 1 { self.x_needs[5] == bucket(wc, 5int + 1, 0).len() } else { self.o_needs[5] == bucket(wc, 0, 5int + 1).len() });
        crate::windows::lemma_bucket_finite(wc, 6, 0);
        crate::windows::lemma_bucket_finite(wc, 0, 6);
        assert forall|x: (int, int)| #[trigger] holds(st, x, pl) <==> occupies(pos, x) by {
            if in_i32(x.0) && in_i32(x.1) {
                let c: Coord = (x.0 as i32, x.1 as i32);
                if st.contains_key(c) {
                    assert(self.board.moves@.contains((st[c], c.0, c.1)));
                    if self.board.moves@.contains((pl, c.0, c.1)) {
                        assert(st[c] == pl);
                    }
                }
                if pos.contains(c) {
                    assert(self.board.moves@.contains((pl, c.0, c.1)));
                    assert(st.contains_key(c));
                    assert(self.board.moves@.contains((st[c], c.0, c.1)));
                }
            }
        }
        if b.len() > 0 {
            let w = b.choose();
            assert(b.contains(w));
            assert(count_in(st, w, pl) == 6);
            let kb = if axis_of(w) == 0 { 2int } else if axis_of(w) == 1 { 1int } else { 0int };
            assert forall|i: int| 0 <= i < 6 implies #[trigger] occupies(pos, step(w.2 as int, w.3 as int, kb, i)) by {
                assert(step(w.2 as int, w.3 as int, kb, i) == window_cell(w, i));
                assert(holds(st, window_cell(w, 0), pl));
                assert(holds(st, window_cell(w, 1), pl));
                assert(holds(st, window_cell(w, 2), pl));
                assert(holds(st, window_cell(w, 3), pl));
                assert(holds(st, window_cell(w, 4), pl));
                assert(holds(st, window_cell(w, 5), pl));
            }
            assert(six_from(pos, w.2 as int, w.3 as int, kb));
        }
        if has_six(pos) {
            let (q, r, kb) = choose|q: int, r: int, k: int| 0 <= k < 3 && #[trigger] six_from(pos, q, r, k);
            assert(occupies(pos, step(q, r, kb, 0)));
            assert(occupies(pos, step(q, r, kb, 5)));
            let w: WindowKey = if kb == 2 {
                (1i32, 0i32, q as i32, r as i32)
            } else if kb == 1 {
                (0i32, 1i32, q as i32, r as i32)
            } else {
                (1i32, -1i32, q as i32, r as i32)
            };
            assert forall|i: int| 0 <= i < 6 implies #[trigger] holds(st, window_cell(w, i), pl) by {
                assert(step(q, r, kb, i) == window_cell(w, i));
                assert(occupies(pos, step(q, r, kb, i)));
            }
            assert(holds(st, window_cell(w, 0), pl));
            assert(holds(st, window_cell(w, 1), pl));
            assert(holds(st, window_cell(w, 2), pl));
            assert(holds(st, window_cell(w, 3), pl));
            assert(holds(st, window_cell(w, 4), pl));
            assert(holds(st, window_cell(w, 5), pl));
            assert(count_in(st, w, pl) == 6);
            let other: u8 = if pl == 1 { 2 } else { 1 };
            assert(!holds(st, window_cell(w, 0), other));
            assert(!holds(st, window_cell(w, 1), other));
            assert(!holds(st, window_cell(w, 2), other));
            assert(!holds(st, window_cell(w, 3), other));
            assert(!holds(st, window_cell(w, 4), other));
            assert(!holds(st, window_cell(w, 5), other));
            assert(count_in(st, w, other) == 0);
            assert(wc.contains_key(w));
            assert(b.contains(w));
        }
    }

    /// Places the current player's two stones `m` on the board and in the
    /// engine's position.
    ///
    /// Refused, with nothing changed, when the board refuses them.
    /// Otherwise the result says whether a player now has six in a row, and
    /// that player (X first) is the winner.
    pub fn play(&mut self, m: [(i32, i32); 2]) -> (res: Result<bool, String>)
        requires
            old(self).wf(),
            old(self).in_sync(),
            old(self).spec_board().accepts(m) ==> old(self).spec_board().has_room_for(m)
                && old(self).spec_board().turn >= 1 && old(self).stones().len() + 2 <= MAX_STONES,
        ensures
            final(self).wf(),
            old(self).keys_drawn() ==> final(self).keys_drawn(),
            final(self).in_sync(),
            res is Ok <==> old(self).spec_board().accepts(m),
            res matches Err(e) ==> e@ == play_error(old(self).spec_board(), m) && *final(self) == *old(self),
            res matches Ok(won) ==> {
                let p = old(self).spec_board().spec_current_player();
                let b1 = final(self).spec_board();
                let x6 = has_six(player_cells(b1.moves@, 1));
                let o6 = has_six(player_cells(b1.moves@, 2));
                &&& old(self).spec_board().played_to(b1, m)
                &&& final(self).stones() == old(self).stones().insert(m[0], p.spec_value()).insert(
                    m[1],
                    p.spec_value(),
                )
                &&& final(self).zobrist().contains_key((p.spec_value(), m[0].0, m[0].1))
                &&& final(self).zobrist().contains_key((p.spec_value(), m[1].0, m[1].1))
                &&& final(self).hash() == old(self).hash() ^ final(self).zobrist()[(p.spec_value(), m[0].0, m[0].1)]
                    ^ final(self).zobrist()[(p.spec_value(), m[1].0, m[1].1)]
                &&& forall|s: Stone| #[trigger] old(self).zobrist().contains_key(s) ==> final(self).zobrist().contains_key(s)
                    && final(self).zobrist()[s] == old(self).zobrist()[s]
                &&& won == (x6 || o6)
                &&& b1.winner == (if x6 {
                    Some(Cell::X)
                } else if o6 {
                    Some(Cell::O)
                } else {
                    None::<Cell>
                })
            },
    {
        proof {
            reveal(Engine::wf);
        }
        let pval = self.board.current_player().value();
        let is_win = match self.board.play(m) {
            Ok(w) => w,
            Err(e) => {
                return Err(e);
            },
        };
        proof {
            assert(!self.board_state@.contains_key(m[0]));
            assert(!self.board_state@.contains_key(m[1]));
        }
        let ghost e0 = *self;
        self.add_move((pval, m[0].0, m[0].1));
        let ghost e1 = *self;
        self.add_move((pval, m[1].0, m[1].1));
        proof {
            let s0: Stone = (pval, m[0].0, m[0].1);
            assert(e0.zobrist() == old(self).zobrist());
            assert(e1.zobrist().contains_key(s0));
            assert(self.zobrist()[s0] == e1.zobrist()[s0]);
            assert forall|s: Stone| #[trigger] e0.zobrist().contains_key(s) implies self.zobrist().contains_key(s)
                && self.zobrist()[s] == e0.zobrist()[s] by {
                assert(e1.zobrist().contains_key(s));
            }
        }
        proof {
            assert forall|c: Coord| #[trigger] self.board_state@.contains_key(c) implies self.board.moves@.contains(
                (self.board_state@[c], c.0, c.1),
            ) by {
            }
            assert forall|t: Stone| #[trigger] self.board.moves@.contains(t) implies self.board_state@.contains_key(
                (t.1, t.2),
            ) by {
            }
            assert(self.in_sync());
            self.law_pure_six_windows(1);
            self.law_pure_six_windows(2);
        }
        if self.x_needs[5] > 0 {
            self.board.winner = Some(Cell::X);
            return Ok(true);
        }
        if self.o_needs[5] > 0 {
            self.board.winner = Some(Cell::O);
            return Ok(true);
        }
        Ok(is_win)
    }

    /// Starts a new game and plays the turns of a game record in order.
    ///
    /// Stops at the first turn the board refuses, with its message; when
    /// every move read was played, the result is the reason the record
    /// could not be read further, if there is one.
    pub fn import_record(&mut self, text: &str) -> (res: Result<(), ImportError>)
        requires
            old(self).wf(),
            importable(record_moves(text@).0),
        ensures
            final(self).wf(),
            old(self).keys_drawn() ==> final(self).keys_drawn(),
            final(self).in_sync(),
            forall|s: Stone| #[trigger] old(self).zobrist().contains_key(s) ==> final(self).zobrist().contains_key(s)
                && final(self).zobrist()[s] == old(self).zobrist()[s],
            ({
                let ms = record_moves(text@).0;
                let perr = record_moves(text@).1;
                exists|bs: Seq<Board>, k: int|
                    #![trigger replays(bs, ms, k)]
                    replays(bs, ms, k) && final(self).spec_board() == bs[k] && (if k < ms.len() {
                        res matches Err(ImportError::Refused(e)) && e@ == play_error(bs[k], ms[k])
                    } else {
                        &&& perr is None ==> res is Ok
                        &&& perr matches Some(x) ==> res matches Err(ImportError::Record(y)) && y == x
                    })
            }),
    {
        self.reset();
        let (ms, perr) = read_record(text);
        let ghost mut bs: Seq<Board> = seq![self.board];
        proof {
            reveal(Engine::wf);
            assert(self.board_state@.dom().subset_of(set![(0i32, 0i32)])) by {
                assert forall|c: Coord| #[trigger] self.board_state@.dom().contains(c) implies c == (0i32, 0i32) by {
                    assert(self.board.moves@.contains((self.board_state@[c], c.0, c.1)));
                }
            }
            vstd::set_lib::lemma_len_subset(self.board_state@.dom(), set![(0i32, 0i32)]);
        }
        let mut i: usize = 0;
        while i < ms.len()
            invariant
                self.wf(),
                old(self).keys_drawn() ==> self.keys_drawn(),
                self.in_sync(),
                ms@ == record_moves(text@).0,
                perr == record_moves(text@).1,
                importable(ms@),
                i <= ms.len(),
                bs.len() == i + 1,
                bs[0].is_new_game(),
                forall|j: int| 0 <= j < i ==> turn_taken(#[trigger] bs[j], bs[j + 1], ms@[j]),
                self.board == bs[i as int],
                self.board.turn == 2 + i,
                self.board_state@.len() <= 1 + 2 * i,
                forall|s: Stone| #[trigger] old(self).zobrist().contains_key(s) ==> self.zobrist().contains_key(s)
                    && self.zobrist()[s] == old(self).zobrist()[s],
            decreases ms.len() - i,
        {
            let m = ms[i];
            let ghost before = *self;
            proof {
                reveal(Engine::wf);
                assert(replayed_to(bs, ms@, i as int));
            }
            match self.play(m) {
                Ok(_) => {},
                Err(e) => {
                    proof {
                        assert(replays(bs, ms@, i as int));
                    }
                    return Err(ImportError::Refused(e));
                },
            }
            proof {
                reveal(Engine::wf);
                assert forall|s: Stone| #[trigger] old(self).zobrist().contains_key(s) implies self.zobrist().contains_key(s)
                    && self.zobrist()[s] == old(self).zobrist()[s] by {
                    assert(before.zobrist().contains_key(s));
                }
                let st0 = before.board_state@;
                assert(self.board_state@.dom() == st0.dom().insert(m[0]).insert(m[1]));
                assert(self.board_state@.len() <= st0.len() + 2);
                bs = bs.push(self.board);
                assert(winner_of(self.board.moves@) == self.board.winner);
                assert(turn_taken(bs[i as int], bs[i + 1], ms@[i as int]));
            }
            i = i + 1;
        }
        proof {
            assert(replays(bs, ms@, i as int));
        }
        match perr {
            Some(x) => Err(ImportError::Record(x)),
            None => Ok(()),
        }
    }

    /// The game record without its trailing space.
    pub fn export(&self) -> (s: String)
        ensures
            s@ == trim_end(self.spec_board().game_history@),
    {
        self.board.export()
    }

    /// Whether every free cell next to a stone that scores at least
    /// [`CRITICAL_SCORE`] lies within the bounds, so that a stone can be
    /// tried on any of them.
    pub open spec fn critical_fit(&self) -> bool {
        forall|c: Coord| #[trigger] empty_for(self.stones()).contains(c) && score_fn(self.stones())(c)
            >= CRITICAL_SCORE ==> cell_in_bounds(c)
    }

    /// Whether every free cell next to a stone that scores at least
    /// [`CRITICAL_SCORE`] lies within the bounds.
    pub fn check_critical_fit(&self) -> (b: bool)
        requires
            self.wf(),
        ensures
            b == self.critical_fit(),
    {
        proof {
            reveal(Engine::wf);
        }
        let ghost sc = score_fn(self.stones());
        let cells = coord_set_to_vec(&self.empty_cells_set);
        let mut ok = true;
        for i in 0..cells.len()
            invariant
                self.wf(),
                sc == score_fn(self.stones()),
                cells@.to_set() == self.empty_cells_set@,
                ok == forall|k: int| 0 <= k < i ==> #[trigger] fits_or_quiet(sc, cells@[k]),
        {
            let c = cells[i];
            let ghost before = ok;
            let s = self.cell_score(c);
            if s >= CRITICAL_SCORE && !(crate::board::COORD_MIN <= c.0 && c.0 <= crate::board::COORD_MAX
                && crate::board::COORD_MIN <= c.1 && c.1 <= crate::board::COORD_MAX) {
                ok = false;
            }
            proof {
                if ok {
                    assert forall|k: int| 0 <= k < i + 1 implies #[trigger] fits_or_quiet(sc, cells@[k]) by {
                        if k < i {
                            assert(fits_or_quiet(sc, cells@[k]));
                        }
                    }
                } else if !before {
                    let k = choose|k: int| 0 <= k < i && !#[trigger] fits_or_quiet(sc, cells@[k]);
                    assert(!(forall|k2: int| 0 <= k2 < i + 1 ==> #[trigger] fits_or_quiet(sc, cells@[k2])));
                } else {
                    assert(!fits_or_quiet(sc, cells@[i as int]));
                }
            }
        }
        proof {
            assert forall|c: Coord| #[trigger] empty_for(self.stones()).contains(c) <==> cells@.to_set().contains(c) by {
            }
            if ok {
                assert forall|c: Coord| #[trigger] empty_for(self.stones()).contains(c) && sc(c) >= CRITICAL_SCORE implies cell_in_bounds(c) by {
                    assert(cells@.to_set().contains(c));
                    let k = choose|k: int| 0 <= k < cells@.len() && cells@[k] == c;
                    assert(fits_or_quiet(sc, cells@[k]));
                }
            } else {
                let k = choose|k: int| 0 <= k < cells@.len() && !#[trigger] fits_or_quiet(sc, cells@[k]);
                assert(cells@.contains(cells@[k]));
                assert(cells@.to_set().contains(cells@[k]));
                assert(empty_for(self.stones()).contains(cells@[k]));
            }
        }
        ok
    }

    /// The score of cell `c` (the worth of the windows through it).
    pub fn cell_score(&self, c: Coord) -> (s: i64)
        requires
            self.wf(),
        ensures
            s == score_fn(self.stones())(c),
    {
        proof {
            reveal(Engine::wf);
        }
        proof {
            lemma_tallies_for(self.window_counts@, self.board_state@);
            lemma_cell_sum_bounds(self.window_counts@, c);
            assert(score_of(self.cell_scores@, c) == cell_sum(self.window_counts@, c));
            reveal(position_score);
        }
        match coord_map_get(&self.cell_scores, c) {
            Some(v) => v,
            None => 0,
        }
    }

    /// The `n` best free cells next to a stone, ranked from the highest
    /// score down (as a bounded heap of `(score, cell)` entries keeps them,
    /// visiting the cells in the order the cell set gives).
    pub fn get_top_cells(&self, n: usize) -> (top: Vec<Coord>)
        requires
            self.wf(),
        ensures
            is_top_of(self.stones(), n as nat, top@),
    {
        proof {
            reveal(Engine::wf);
        }
        let cells = coord_set_to_vec(&self.empty_cells_set);
        let top = select_top_cells(&cells, &self.cell_scores, n);
        proof {
            let st = self.board_state@;
            lemma_tallies_for(self.window_counts@, st);
            assert forall|c: Coord| #[trigger] map_scores(self.cell_scores@)(c) == score_fn(st)(c) by {
                reveal(position_score);
                lemma_cell_sum_bounds(self.window_counts@, c);
                assert(score_of(self.cell_scores@, c) == cell_sum(self.window_counts@, c));
            }
            assert(map_scores(self.cell_scores@) =~= score_fn(st));
            assert(cells@.to_set() =~= empty_for(st));
            assert(is_top_cells(cells@, score_fn(st), n as nat, top@));
            reveal(is_top_of);
        }
        top
    }

    /// Every pair `(top[i], top[j])` with `i < j`, row by row, and the pairs
    /// scored by their cells' scores.
    fn all_pairs(&self, top: &Vec<Coord>) -> (res: (Vec<MovePair>, Vec<ScoredPair>))
        requires
            self.wf(),
        ensures
            res.0@ == pairs_upto(top@, top@.len()),
            res.1@ == scored_pairs(res.0@, score_fn(self.stones())),
    {
        let ghost sc = score_fn(self.board_state@);
        let mut moves: Vec<MovePair> = Vec::new();
        let mut scored: Vec<ScoredPair> = Vec::new();
        for i in 0..top.len()
            invariant
                self.wf(),
                sc == score_fn(self.board_state@),
                moves@ == pairs_upto(top@, i as nat),
                scored@ == scored_pairs(moves@, sc),
        {
            for j in (i + 1)..top.len()
                invariant
                    self.wf(),
                    sc == score_fn(self.board_state@),
                    i < top@.len(),
                    moves@ == pairs_upto(top@, i as nat) + pair_row(top@, i as int).take(j - i - 1),
                    scored@ == scored_pairs(moves@, sc),
            {
                let c1 = top[i];
                let c2 = top[j];
                let s1 = self.cell_score(c1);
                let s2 = self.cell_score(c2);
                let key: MovePair = if c1.0 < c2.0 || (c1.0 == c2.0 && c1.1 < c2.1) {
                    (c1, c2)
                } else {
                    (c2, c1)
                };
                let ghost m0 = moves@;
                scored.push((key, s1, s2));
                moves.push((c1, c2));
                proof {
                    let row = pair_row(top@, i as int);
                    assert(row[j - i - 1] == (c1, c2));
                    assert(row.take(j - i) =~= row.take(j - i - 1).push((c1, c2)));
                    assert(moves@ =~= pairs_upto(top@, i as nat) + row.take(j - i));
                    assert(scored_pairs(moves@, sc) =~= scored_pairs(m0, sc).push((key, s1, s2)));
                }
            }
            proof {
                let row = pair_row(top@, i as int);
                assert(row.take(top@.len() - i - 1) =~= row);
                assert(pairs_upto(top@, (i + 1) as nat) == pairs_upto(top@, i as nat) + row);
            }
        }
        (moves, scored)
    }

    /// The first `k` cells of `top` that score at least [`CRITICAL_SCORE`].
    fn critical_of(&self, top: &Vec<Coord>, k: usize) -> (crit: Vec<Coord>)
        requires
            self.wf(),
        ensures
            crit@ == critical_cells(top@, score_fn(self.stones()), k as nat),
    {
        let ghost sc = score_fn(self.board_state@);
        let ghost pred = crate::candidates::is_critical(sc);
        let mut critical: Vec<Coord> = Vec::new();
        for i in 0..top.len()
            invariant
                self.wf(),
                sc == score_fn(self.board_state@),
                pred == crate::candidates::is_critical(sc),
                critical@ == cap(top@.take(i as int).filter(pred), k as nat),
        {
            let c = top[i];
            let ghost t0 = top@.take(i as int);
            let ghost t1 = top@.take(i + 1);
            proof {
                assert(t1 =~= t0.push(c));
                t0.lemma_filter_push(c, pred);
            }
            if critical.len() < k && self.cell_score(c) >= CRITICAL_SCORE {
                critical.push(c);
            }
            proof {
                let f0 = t0.filter(pred);
                if pred(c) {
                    if f0.len() < k {
                        assert(critical@ =~= t1.filter(pred));
                    } else {
                        assert(t1.filter(pred).take(k as int) =~= f0.take(k as int));
                    }
                }
            }
        }
        proof {
            assert(top@.take(top@.len() as int) =~= top@);
        }
        critical
    }

    /// Adds the pairs of `c1`, scoring `s1`, with every cell of `cands` other
    /// than itself, scored as now, to `scored` and to `moves_set`.
    fn pair_up(
        &self,
        c1: Coord,
        s1: i64,
        cands: &Vec<Coord>,
        scored: &mut Vec<ScoredPair>,
        moves_set: &mut FxHashSet<MovePair>,
    )
        requires
            self.wf(),
            old(moves_set)@ == old(scored)@.map_values(pair_of()).to_set(),
        ensures
            final(scored)@ == old(scored)@ + entries_for(c1, s1, score_fn(self.stones()), cands@),
            final(moves_set)@ == final(scored)@.map_values(pair_of()).to_set(),
    {
        let ghost after = score_fn(self.board_state@);
        let ghost keep = other_than(c1);
        let ghost mk = pair_entry(c1, s1, after);
        let ghost base = scored@;
        for j in 0..cands.len()
            invariant
                self.wf(),
                after == score_fn(self.board_state@),
                keep == other_than(c1),
                mk == pair_entry(c1, s1, after),
                scored@ == base + cands@.take(j as int).filter(keep).map_values(mk),
                moves_set@ == scored@.map_values(pair_of()).to_set(),
        {
            let c2 = cands[j];
            let ghost t0 = cands@.take(j as int);
            let ghost t1 = cands@.take(j + 1);
            let ghost sc_before = scored@;
            proof {
                assert(t1 =~= t0.push(c2));
                t0.lemma_filter_push(c2, keep);
            }
            if !(c2.0 == c1.0 && c2.1 == c1.1) {
                let s2 = self.cell_score(c2);
                let pair: MovePair = if c1.0 < c2.0 || (c1.0 == c2.0 && c1.1 < c2.1) {
                    (c1, c2)
                } else {
                    (c2, c1)
                };
                scored.push((pair, s1, s2));
                pair_set_insert(moves_set, pair);
                proof {
                    let g0 = t0.filter(keep);
                    assert(t1.filter(keep) == g0.push(c2));
                    assert(g0.push(c2).map_values(mk) =~= g0.map_values(mk).push(mk(c2)));
                    assert(scored@ =~= base + t1.filter(keep).map_values(mk));
                    let pm = pair_of();
                    let a = sc_before.map_values(pm);
                    assert(scored@.map_values(pm) =~= a.push(pair));
                    assert forall|x: MovePair| a.push(pair).to_set().contains(x) <==> a.to_set().insert(pair).contains(x) by {
                        if a.push(pair).contains(x) && x != pair {
                            let k = choose|k: int| 0 <= k < a.push(pair).len() && a.push(pair)[k] == x;
                            assert(a[k] == x);
                        }
                        if a.contains(x) {
                            let k = choose|k: int| 0 <= k < a.len() && a[k] == x;
                            assert(a.push(pair)[k] == x);
                        }
                        if x == pair {
                            assert(a.push(pair)[a.len() as int] == x);
                        }
                    }
                    assert(scored@.map_values(pm).to_set() =~= a.to_set().insert(pair));
                }
            }
        }
        proof {
            assert(cands@.take(cands@.len() as int) =~= cands@);
        }
    }

    /// Tries critical cell `c1` for player `pval`: places it, ranks the
    /// `top_n` best cells of the resulting position, adds the pairs of `c1`
    /// with them to `scored` and `moves_set`, and takes `c1` off again.
    /// Returns the ranking used.
    fn try_critical(
        &mut self,
        c1: Coord,
        pval: u8,
        top_n: usize,
        scored: &mut Vec<ScoredPair>,
        moves_set: &mut FxHashSet<MovePair>,
    ) -> (cand: Vec<Coord>)
        requires
            old(self).wf(),
            empty_for(old(self).stones()).contains(c1),
            cell_in_bounds(c1),
            pval == 1 || pval == 2,
            old(self).stones().len() < MAX_STONES,
            old(moves_set)@ == old(scored)@.map_values(pair_of()).to_set(),
        ensures
            final(self).wf(),
            old(self).keys_drawn() ==> final(self).keys_drawn(),
            final(self).stones() == old(self).stones(),
            final(self).hash() == old(self).hash(),
            final(self).spec_board() == old(self).spec_board(),
            forall|s: Stone| #[trigger] old(self).zobrist_table@.contains_key(s) ==> final(self).zobrist_table@.contains_key(s)
                && final(self).zobrist_table@[s] == old(self).zobrist_table@[s],
            is_top_of(old(self).stones().insert(c1, pval), top_n as nat, cand@),
            final(scored)@ == old(scored)@ + entries_for(
                c1,
                score_fn(old(self).stones())(c1),
                score_fn(old(self).stones().insert(c1, pval)),
                cand@,
            ),
            final(moves_set)@ == final(scored)@.map_values(pair_of()).to_set(),
    {
        let ghost st0 = self.board_state@;
        let ghost h0 = self.current_hash;
        let ghost e0 = *self;
        let s1 = self.cell_score(c1);
        self.add_move((pval, c1.0, c1.1));
        let ghost z1 = self.zobrist_table@;
        let ghost e1 = *self;
        let cand = self.get_top_cells(top_n);
        self.pair_up(c1, s1, &cand, scored, moves_set);
        self.remove_move((pval, c1.0, c1.1));
        proof {
            assert(st0.insert(c1, pval).remove(c1) =~= st0);
            let m = (pval, c1.0, c1.1);
            let hz = z1[m];
            assert((h0 ^ hz) ^ hz == h0) by (bit_vector);
            assert forall|s: Stone| #[trigger] e0.zobrist_table@.contains_key(s) implies self.zobrist_table@.contains_key(s)
                && self.zobrist_table@[s] == e0.zobrist_table@[s] by {
                assert(e0.zobrist().contains_key(s));
                assert(e1.zobrist().contains_key(s));
            }
        }
        cand
    }

    /// Tries each critical cell in turn for player `pval` (see
    /// `try_critical`), and returns the distinct moves formed and every
    /// scored pair, for some ranking of each resulting position.
    fn critical_pairs(&mut self, critical: &Vec<Coord>, pval: u8, top_n: usize) -> (res: (Vec<MovePair>, Vec<ScoredPair>))
        requires
            old(self).wf(),
            forall|k: int| 0 <= k < critical@.len() ==> cell_in_bounds(#[trigger] critical@[k]),
            forall|k: int| 0 <= k < critical@.len() ==> #[trigger] empty_for(old(self).stones()).contains(critical@[k]),
            pval == 1 || pval == 2,
            old(self).stones().len() < MAX_STONES,
        ensures
            final(self).wf(),
            old(self).keys_drawn() ==> final(self).keys_drawn(),
            final(self).stones() == old(self).stones(),
            final(self).hash() == old(self).hash(),
            final(self).spec_board() == old(self).spec_board(),
            forall|s: Stone| #[trigger] old(self).zobrist().contains_key(s) ==> final(self).zobrist().contains_key(s)
                && final(self).zobrist()[s] == old(self).zobrist()[s],
            res.0@.no_duplicates(),
            res.0@.to_set() == res.1@.map_values(pair_of()).to_set(),
            exists|cands: Seq<Seq<Coord>>|
                cands.len() == critical@.len() && (forall|i: int|
                    0 <= i < critical@.len() ==> is_top_of(
                        old(self).stones().insert(critical@[i], pval),
                        top_n as nat,
                        #[trigger] cands[i],
                    )) && res.1@ == critical_scored(critical@, old(self).stones(), pval, cands, critical@.len()),
    {
        let ghost st0 = self.board_state@;
        let ghost p = pval;
        let ghost h0 = self.current_hash;
        let ghost z0 = self.zobrist_table@;
        let mut moves_set: FxHashSet<MovePair> = FxHashSet::default();
        let mut scored: Vec<ScoredPair> = Vec::new();
        let ghost mut cands: Seq<Seq<Coord>> = Seq::empty();
        proof {
            assert(scored@.map_values(pair_of()).to_set() =~= moves_set@);
        }
        for i in 0..critical.len()
            invariant
                self.wf(),
                old(self).keys_drawn() ==> self.keys_drawn(),
                self.board_state@ == st0,
                st0.dom().len() < MAX_STONES,
                forall|k: int| 0 <= k < critical@.len() ==> cell_in_bounds(#[trigger] critical@[k]),
                forall|k: int| 0 <= k < critical@.len() ==> #[trigger] empty_for(st0).contains(critical@[k]),
                pval == 1 || pval == 2,
                p == pval,
                self.current_hash == h0,
                self.board == old(self).board,
                forall|s: Stone| #[trigger] z0.contains_key(s) ==> self.zobrist_table@.contains_key(s)
                    && self.zobrist_table@[s] == z0[s],
                cands.len() == i,
                forall|k: int| 0 <= k < i ==> is_top_of(st0.insert(critical@[k], p), top_n as nat, #[trigger] cands[k]),
                scored@ == critical_scored(critical@, st0, p, cands, i as nat),
                moves_set@ == scored@.map_values(pair_of()).to_set(),
        {
            let c1 = critical[i];
            proof {
                assert(empty_for(st0).contains(c1));
                assert(cell_in_bounds(critical@[i as int]));
            }
            let ghost z_mid = self.zobrist_table@;
            let c2_candidates = self.try_critical(c1, pval, top_n, &mut scored, &mut moves_set);
            proof {
                assert forall|s: Stone| #[trigger] z0.contains_key(s) implies self.zobrist_table@.contains_key(s)
                    && self.zobrist_table@[s] == z0[s] by {
                    assert(z_mid.contains_key(s));
                }
                let cands2 = cands.push(c2_candidates@);
                lemma_critical_scored_prefix(critical@, st0, p, cands, cands2, i as nat);
                assert(cands2[i as int] == c2_candidates@);
                assert(scored@ == critical_scored(critical@, st0, p, cands2, (i + 1) as nat));
                assert forall|k: int| 0 <= k < i + 1 implies is_top_of(st0.insert(critical@[k], p), top_n as nat, #[trigger] cands2[k]) by {
                    if k < i {
                        assert(cands2[k] == cands[k]);
                    }
                }
                cands = cands2;
            }
        }
        let moves = pair_set_into_vec(moves_set);
        (moves, scored)
    }

    /// The candidate moves of the position for the player to move, with the
    /// scores of their cells, and whether the position is critical (a free
    /// cell scores at least [`CRITICAL_SCORE`]).
    ///
    /// The engine's position is the same afterwards (new Zobrist keys may
    /// have been drawn for the cells tried).
    pub fn candidate_moves(&mut self, top_n: usize, critical_n: usize) -> (res: (Vec<MovePair>, Vec<ScoredPair>, bool))
        requires
            old(self).wf(),
            old(self).critical_fit(),
            old(self).stones().len() < MAX_STONES,
        ensures
            final(self).wf(),
            old(self).keys_drawn() ==> final(self).keys_drawn(),
            final(self).stones() == old(self).stones(),
            final(self).hash() == old(self).hash(),
            final(self).spec_board() == old(self).spec_board(),
            forall|s: Stone| #[trigger] old(self).zobrist().contains_key(s) ==> final(self).zobrist().contains_key(s)
                && final(self).zobrist()[s] == old(self).zobrist()[s],
            candidates_of(
                old(self).stones(),
                old(self).spec_board().spec_current_player().spec_value(),
                top_n as nat,
                critical_n as nat,
                res.0@,
                res.1@,
                res.2,
            ),
    {
        let ghost st0 = self.board_state@;
        let ghost sc = score_fn(st0);
        let top_cells = self.get_top_cells(top_n);
        if top_cells.len() == 0 {
            let moves: Vec<MovePair> = Vec::new();
            let scored: Vec<ScoredPair> = Vec::new();
            proof {
                assert(moves@ =~= Seq::<MovePair>::empty());
                assert(scored@ =~= Seq::<ScoredPair>::empty());
            }
            return (moves, scored, false);
        }
        let top_score = self.cell_score(top_cells[0]);
        let has_critical = top_score >= CRITICAL_SCORE;
        if !has_critical {
            let (moves, scored) = self.all_pairs(&top_cells);
            return (moves, scored, false);
        }

        let critical = self.critical_of(&top_cells, critical_n);
        proof {
            lemma_top_is_free(st0, top_n as nat, top_cells@);
            let pred = crate::candidates::is_critical(sc);
            assert forall|k: int| 0 <= k < critical@.len() implies #[trigger] empty_for(st0).contains(critical@[k])
                && cell_in_bounds(critical@[k]) by {
                let f = top_cells@.filter(pred);
                assert(critical@[k] == f[k]);
                top_cells@.lemma_filter_pred(pred, k);
                assert(sc(f[k]) >= CRITICAL_SCORE);
                assert(f.contains(f[k]));
                top_cells@.lemma_filter_contains_rev(pred, f[k]);
                assert(top_cells@.contains(f[k]));
                let t = choose|t: int| 0 <= t < top_cells@.len() && top_cells@[t] == f[k];
                assert(empty_for(st0).contains(top_cells@[t]));
            }
        }

        proof {
            assert forall|k: int| 0 <= k < critical@.len() implies cell_in_bounds(#[trigger] critical@[k]) by {
                assert(empty_for(st0).contains(critical@[k]));
            }
        }
        let pval = self.board.current_player().value();
        let (moves, scored) = self.critical_pairs(&critical, pval, top_n);
        proof {
            assert(is_top_of(st0, top_n as nat, top_cells@));
        }
        (moves, scored, true)
    }

    /// Two engines with the same stones agree on everything derived from
    /// the stones: the window tallies, the numbers of pure windows, every
    /// cell's score, the neighbourhood counts and the free cells next to a
    /// stone.
    pub proof fn law_derived_from_stones(e1: &Engine, e2: &Engine)
        requires
            e1.wf(),
            e2.wf(),
            e1.stones() == e2.stones(),
        ensures
            e1.tallies() == e2.tallies(),
            e1.spec_x_needs() == e2.spec_x_needs(),
            e1.spec_o_needs() == e2.spec_o_needs(),
            forall|c: Coord| #[trigger] score_of(e1.scores(), c) == score_of(e2.scores(), c),
            e1.frontier() == e2.frontier(),
            e1.empty_cells() == e2.empty_cells(),
    {
        reveal(Engine::wf);
        let st = e1.board_state@;
        lemma_tallies_for(e1.window_counts@, st);
        lemma_tallies_for(e2.window_counts@, st);
        assert(e1.x_needs@ =~= e2.x_needs@) by {
            assert forall|k: int| 0 <= k < 6 implies e1.x_needs@[k] == e2.x_needs@[k] by {
                assert(e1.x_needs[k] == bucket(e1.window_counts@, k + 1, 0).len());
                assert(e2.x_needs[k] == bucket(e2.window_counts@, k + 1, 0).len());
            }
        }
        assert(e1.o_needs@ =~= e2.o_needs@) by {
            assert forall|k: int| 0 <= k < 6 implies e1.o_needs@[k] == e2.o_needs@[k] by {
                assert(e1.o_needs[k] == bucket(e1.window_counts@, 0, k + 1).len());
                assert(e2.o_needs[k] == bucket(e2.window_counts@, 0, k + 1).len());
            }
        }
        assert(e1.frontier_counts@ =~= e2.frontier_counts@);
        assert(e1.empty_cells_set@ =~= e2.empty_cells_set@);
    }

    /// Taking off the stone just placed gives back the position before it:
    /// the same stones and hash, and everything derived from them.
    pub proof fn law_remove_undoes_add(e0: &Engine, e1: &Engine, e2: &Engine, m: Stone)
        requires
            e0.wf(),
            e1.wf(),
            e2.wf(),
            !e0.stones().contains_key((m.1, m.2)),
            e1.stones() == e0.stones().insert((m.1, m.2), m.0),
            e1.hash() == e0.hash() ^ e1.zobrist()[m],
            e2.stones() == e1.stones().remove((m.1, m.2)),
            e2.hash() == e1.hash() ^ e1.zobrist()[m],
        ensures
            e2.stones() == e0.stones(),
            e2.hash() == e0.hash(),
            e2.tallies() == e0.tallies(),
            e2.spec_x_needs() == e0.spec_x_needs(),
            e2.spec_o_needs() == e0.spec_o_needs(),
            forall|c: Coord| #[trigger] score_of(e2.scores(), c) == score_of(e0.scores(), c),
            e2.frontier() == e0.frontier(),
            e2.empty_cells() == e0.empty_cells(),
    {
        assert(e2.stones() =~= e0.stones());
        let h = e0.hash();
        let z = e1.zobrist()[m];
        assert((h ^ z) ^ z == h) by (bit_vector);
        Engine::law_derived_from_stones(e2, e0);
    }

    /// What the engine keeps is what its stones determine: the window
    /// tallies are the stones' tallies, the counts of pure windows count
    /// them, every cell's score (0 when it has no entry) is the worth of the
    /// windows through it, the neighbourhood counts are the stones', and the
    /// free cells kept are the free cells next to a stone.
    pub proof fn law_derived_values(&self)
        requires
            self.wf(),
        ensures
            self.tallies() == tallies_for(self.stones()),
            needs_of(self.tallies(), self.spec_x_needs(), self.spec_o_needs()),
            forall|c: Coord| #[trigger] score_of(self.scores(), c) == cell_sum(tallies_for(self.stones()), c),
            frontier_of(self.frontier(), self.stones()),
            self.empty_cells() == empty_for(self.stones()),
            self.stones().dom().finite(),
            stones_fit(self.stones()),
    {
        reveal(Engine::wf);
        lemma_tallies_for(self.window_counts@, self.board_state@);
        assert(self.empty_cells_set@ =~= empty_for(self.board_state@));
    }

    /// Every Zobrist key is a draw of the engine's generator of its own:
    /// each stone with a key has a place among the draws whose value is its
    /// key, and no two stones share a place, so a key is never copied from
    /// another stone's.
    pub proof fn law_keys_are_own_draws(&self)
        requires
            self.keys_drawn(),
        ensures
            self.key_index().dom() == self.zobrist().dom(),
            forall|s: Stone| #[trigger] self.key_index().contains_key(s) ==> 0 <= self.key_index()[s] < self.draws().len()
                && self.zobrist()[s] == self.draws()[self.key_index()[s]],
            forall|s: Stone, t: Stone| #[trigger] self.key_index().contains_key(s) && #[trigger] self.key_index().contains_key(t) && s != t
                ==> self.key_index()[s] != self.key_index()[t],
    {
        reveal(Engine::wf);
    }

    /// The hash of a position is the exclusive or of the keys of its
    /// stones.
    pub proof fn law_hash_is_xor_of_keys(&self)
        requires
            self.wf(),
        ensures
            self.hash() == hash_of(self.stones(), self.zobrist()),
    {
        reveal(Engine::wf);
    }

    /// Two positions with the same stones hash alike when their key tables
    /// give those stones the same keys, whatever order the stones were
    /// placed in.
    pub proof fn law_same_stones_same_hash(e1: &Engine, e2: &Engine)
        requires
            e1.wf(),
            e2.wf(),
            e1.stones() == e2.stones(),
            forall|c: Coord| #[trigger] e1.stones().contains_key(c) ==> e1.zobrist()[(e1.stones()[c], c.0, c.1)]
                == e2.zobrist()[(e1.stones()[c], c.0, c.1)],
        ensures
            e1.hash() == e2.hash(),
    {
        reveal(Engine::wf);
        let st = e1.stones();
        assert forall|c: Coord| st.dom().contains(c) implies stone_key(st, e1.zobrist())(c) == stone_key(
            st,
            e2.zobrist(),
        )(c) by {
            assert(st.contains_key(c));
        }
        lemma_xor_agree(st.dom(), stone_key(st, e1.zobrist()), stone_key(st, e2.zobrist()));
    }

    /// The number of windows with `k + 1` X stones and no O stone, for `k`
    /// from 0 to 5.
    pub fn x_needs(&self) -> (r: [i32; 6])
        ensures
            r == self.spec_x_needs(),
    {
        self.x_needs
    }

    /// The number of windows with `k + 1` O stones and no X stone, for `k`
    /// from 0 to 5.
    pub fn o_needs(&self) -> (r: [i32; 6])
        ensures
            r == self.spec_o_needs(),
    {
        self.o_needs
    }

    /// The Zobrist hash of the position.
    pub fn current_hash(&self) -> (h: u64)
        ensures
            h == self.hash(),
    {
        self.current_hash
    }

    /// The number of stones in the engine's position.
    pub fn stone_count(&self) -> (n: usize)
        requires
            self.wf(),
        ensures
            n == self.stones().len(),
    {
        coord_map_len(&self.board_state)
    }

    /// The Zobrist key of a stone: the one drawn before, or a fresh random
    /// one, which is kept.
    fn zobrist_get(&mut self, key: Stone) -> (v: u64)
        ensures
            old(self).zobrist_table@.contains_key(key) ==> v == old(self).zobrist_table@[key]
                && final(self).zobrist_table@ == old(self).zobrist_table@,
            !old(self).zobrist_table@.contains_key(key) ==> final(self).zobrist_table@
                == old(self).zobrist_table@.insert(key, v),
            old(self).zobrist_table@.contains_key(key) ==> *final(self) == *old(self),
            !old(self).zobrist_table@.contains_key(key) ==> final(self).rng.drawn() == old(self).rng.drawn().push(v),
            old(self).keys_drawn() ==> final(self).keys_drawn(),
            final(self).board == old(self).board,
            final(self).current_hash == old(self).current_hash,
            final(self).empty_cells_set == old(self).empty_cells_set,
            final(self).frontier_counts == old(self).frontier_counts,
            final(self).window_counts == old(self).window_counts,
            final(self).x_needs == old(self).x_needs,
            final(self).o_needs == old(self).o_needs,
            final(self).cell_scores == old(self).cell_scores,
            final(self).board_state == old(self).board_state,
    {
        if let Some(v) = stone_map_get(&self.zobrist_table, key) {
            return v;
        }
        let ghost n = self.rng.drawn().len();
        let v: u64 = self.rng.next();
        stone_map_insert(&mut self.zobrist_table, key, v);
        proof {
            self.key_draw@ = self.key_draw@.insert(key, n as int);
            if old(self).keys_drawn() {
                assert(self.key_draw@.dom() =~= self.zobrist_table@.dom());
                assert forall|s: Stone, t: Stone| #[trigger] self.key_draw@.contains_key(s) && #[trigger] self.key_draw@.contains_key(t) && s != t
                    implies self.key_draw@[s] != self.key_draw@[t] by {
                    if s != key && t != key {
                        assert(old(self).key_draw@.contains_key(s) && old(self).key_draw@.contains_key(t));
                    } else if s != key {
                        assert(old(self).key_draw@.contains_key(s));
                    } else {
                        assert(old(self).key_draw@.contains_key(t));
                    }
                }
            }
        }
        v
    }

    /// Places a stone `(player, q, r)` on the free cell `(q, r)` and brings
    /// every derived structure up to date.
    pub fn add_move(&mut self, move_: Stone)
        requires
            old(self).wf(),
            move_.0 == 1 || move_.0 == 2,
            in_bounds(move_.1 as int),
            in_bounds(move_.2 as int),
            !old(self).stones().contains_key((move_.1, move_.2)),
            old(self).stones().len() < MAX_STONES,
        ensures
            final(self).wf(),
            old(self).keys_drawn() ==> final(self).keys_drawn(),
            final(self).stones() == old(self).stones().insert((move_.1, move_.2), move_.0),
            final(self).zobrist().contains_key(move_),
            forall|s: Stone| #[trigger] old(self).zobrist().contains_key(s) ==> final(self).zobrist().contains_key(s)
                && final(self).zobrist()[s] == old(self).zobrist()[s],
            final(self).hash() == old(self).hash() ^ final(self).zobrist()[move_],
            final(self).spec_board() == old(self).spec_board(),
            !old(self).zobrist().contains_key(move_) ==> final(self).draws() == old(self).draws().push(
                final(self).zobrist()[move_],
            ),
            old(self).zobrist().contains_key(move_) ==> final(self).draws() == old(self).draws(),
    {
        proof {
            reveal(Engine::wf);
        }
        let (player, q, r) = move_;
        let ghost p: Coord = (q, r);
        let ghost st0 = self.board_state@;
        let ghost zob0 = self.zobrist_table@;

        coord_map_insert(&mut self.board_state, (q, r), player);
        let ghost st1 = self.board_state@;
        let zh = self.zobrist_get(move_);
        let ghost d1 = self.draws();
        self.current_hash = self.current_hash ^ zh;
        coord_set_remove(&mut self.empty_cells_set, (q, r));
        proof {
            assert(st1.dom() =~= st0.dom().insert(p));
            assert forall|c: Coord| #[trigger] self.empty_cells_set@.contains(c) <==> self.frontier_counts@.contains_key(c)
                && !st1.contains_key(c) by {
            }
        }

        let offsets = neighbor_offsets();
        let ghost fc0 = self.frontier_counts@;
        for j in 0..offsets.len()
            invariant
                offsets_listed(offsets@),
                in_bounds(q as int),
                in_bounds(r as int),
                p == (q, r),
                self.board_state@ == st1,
                st1 == st0.insert(p, player),
                !st0.contains_key(p),
                frontier_of(fc0, st0),
                forall|c: Coord| #[trigger] self.frontier_counts@.contains_key(c) <==> neighbours(st0, c) + hits_from(
                    p,
                    c,
                    0,
                ) - hits_from(p, c, j as int) > 0,
                forall|c: Coord| #[trigger] self.frontier_counts@.contains_key(c) ==> self.frontier_counts@[c]
                    == neighbours(st0, c) + hits_from(p, c, 0) - hits_from(p, c, j as int),
                empty_of(self.empty_cells_set@, self.frontier_counts@, st1),
                self.window_counts == old(self).window_counts,
                self.x_needs == old(self).x_needs,
                self.o_needs == old(self).o_needs,
                self.cell_scores == old(self).cell_scores,
                self.board == old(self).board,
                self.zobrist_table@.contains_key(move_),
                forall|s: Stone| #[trigger] zob0.contains_key(s) ==> self.zobrist_table@.contains_key(s)
                    && self.zobrist_table@[s] == zob0[s],
                old(self).keys_drawn() ==> self.keys_drawn(),
                self.draws() == d1,
                self.zobrist_table@[move_] == zh,
                self.current_hash == old(self).current_hash ^ self.zobrist_table@[move_],
        {
            let (dq, dr) = offsets[j];
            let n: Coord = (q + dq, r + dr);
            let ghost fc1 = self.frontier_counts@;
            proof {
                lemma_neighbours_bound(st0, n, 0);
                lemma_hits_bound(p, n, 0);
                lemma_hits_bound(p, n, j as int);
                lemma_hits_mono(p, n, 0, j as int);
            }
            let cnt = match coord_map_get(&self.frontier_counts, n) {
                Some(c) => c,
                None => 0i32,
            };
            proof {
                if fc1.contains_key(n) {
                    assert(cnt == neighbours(st0, n) + hits_from(p, n, 0) - hits_from(p, n, j as int));
                }
            }
            coord_map_insert(&mut self.frontier_counts, n, cnt + 1);
            if !coord_map_contains(&self.board_state, n) {
                coord_set_insert(&mut self.empty_cells_set, n);
            }
            proof {
                assert forall|c: Coord| #[trigger] self.frontier_counts@.contains_key(c) <==> neighbours(st0, c)
                    + hits_from(p, c, 0) - hits_from(p, c, j + 1) > 0 by {
                    lemma_hits_step(p, c, j as int);
                    lemma_neighbours_bound(st0, c, 0);
                    lemma_hits_mono(p, c, 0, j as int);
                    lemma_hits_bound(p, c, j as int);
                    if c != n {
                        assert(fc1.contains_key(c) == self.frontier_counts@.contains_key(c));
                    }
                }
                assert forall|c: Coord| #[trigger] self.frontier_counts@.contains_key(c) implies self.frontier_counts@[c]
                    == neighbours(st0, c) + hits_from(p, c, 0) - hits_from(p, c, j + 1) by {
                    lemma_hits_step(p, c, j as int);
                    lemma_neighbours_bound(st0, c, 0);
                    lemma_hits_mono(p, c, 0, j as int);
                    if c != n {
                        assert(fc1.contains_key(c));
                    }
                }
            }
        }
        proof {
            assert forall|c: Coord| #[trigger] self.frontier_counts@.contains_key(c) <==> neighbours(st1, c) > 0 by {
                lemma_neighbours_insert(st0, p, player, c, 0);
            }
            assert forall|c: Coord| #[trigger] self.frontier_counts@.contains_key(c) implies self.frontier_counts@[c]
                == neighbours(st1, c) by {
                lemma_neighbours_insert(st0, p, player, c, 0);
            }
        }

        let is_x = player == 1;
        proof {
            lemma_mixed_start(self.window_counts@, st0, st1, p);
        }
        for d in 0..3usize
            invariant
                in_bounds(q as int),
                in_bounds(r as int),
                p == (q, r),
                player == 1 || player == 2,
                is_x == (player == 1),
                stones_fit(st0),
                st0.dom().finite(),
                st0.dom().len() < MAX_STONES,
                st1 == st0.insert(p, player),
                !st0.contains_key(p),
                tallies_mixed(self.window_counts@, st0, st1, p, 6 * d),
                self.window_counts@.dom().finite(),
                self.window_counts@.dom().len() <= 18 * st0.dom().len() + 6 * d,
                tallies_sane(self.window_counts@),
                needs_of(self.window_counts@, self.x_needs, self.o_needs),
                scores_of(self.window_counts@, self.cell_scores@),
                self.board_state@ == st1,
                frontier_of(self.frontier_counts@, st1),
                empty_of(self.empty_cells_set@, self.frontier_counts@, st1),
                self.board == old(self).board,
                self.zobrist_table@.contains_key(move_),
                forall|s: Stone| #[trigger] zob0.contains_key(s) ==> self.zobrist_table@.contains_key(s)
                    && self.zobrist_table@[s] == zob0[s],
                old(self).keys_drawn() ==> self.keys_drawn(),
                self.draws() == d1,
                self.zobrist_table@[move_] == zh,
                self.current_hash == old(self).current_hash ^ self.zobrist_table@[move_],
        {
            for k in 0..6i32
                invariant
                    in_bounds(q as int),
                    in_bounds(r as int),
                    p == (q, r),
                    d < 3,
                    player == 1 || player == 2,
                    is_x == (player == 1),
                    stones_fit(st0),
                    st0.dom().finite(),
                    st0.dom().len() < MAX_STONES,
                    st1 == st0.insert(p, player),
                    !st0.contains_key(p),
                    tallies_mixed(self.window_counts@, st0, st1, p, 6 * d + k),
                    self.window_counts@.dom().finite(),
                    self.window_counts@.dom().len() <= 18 * st0.dom().len() + 6 * d + k,
                    tallies_sane(self.window_counts@),
                    needs_of(self.window_counts@, self.x_needs, self.o_needs),
                    scores_of(self.window_counts@, self.cell_scores@),
                    self.board_state@ == st1,
                    frontier_of(self.frontier_counts@, st1),
                    empty_of(self.empty_cells_set@, self.frontier_counts@, st1),
                    self.board == old(self).board,
                    self.zobrist_table@.contains_key(move_),
                    forall|s: Stone| #[trigger] zob0.contains_key(s) ==> self.zobrist_table@.contains_key(s)
                        && self.zobrist_table@[s] == zob0[s],
                    old(self).keys_drawn() ==> self.keys_drawn(),
                    self.draws() == d1,
                    self.zobrist_table@[move_] == zh,
                    self.current_hash == old(self).current_hash ^ self.zobrist_table@[move_],
            {
                let key = window_key_exec(q, r, d, k);
                let ghost wc0 = self.window_counts@;
                proof {
                    lemma_window_through(q as int, r as int, d as int, k as int);
                    lemma_count_insert(st0, p, player, key, 1);
                    lemma_count_insert(st0, p, player, key, 2);
                    assert(window_cell(key, k as int) == (q as int, r as int));
                    assert(!holds(st0, window_cell(key, k as int), 1));
                    assert(!holds(st0, window_cell(key, k as int), 2));
                    assert(count_in(st0, key, 1) + count_in(st0, key, 2) <= 5);
                    assert(!crate::windows::done_at(key, p, 6 * d + k));
                    lemma_room(wc0, self.x_needs, self.o_needs, self.cell_scores@, key);
                }
                self.update_window_add(key, is_x);
                proof {
                    let x = count_in(st1, key, 1);
                    let o = count_in(st1, key, 2);
                    assert(self.window_counts@ =~= wc0.insert(key, [x as i32, o as i32]));
                    lemma_mixed_step(wc0, self.window_counts@, st0, st1, p, d as int, k as int);
                }
            }
        }
        proof {
            lemma_mixed_end(self.window_counts@, st0, st1, p);
            assert(st1.dom().len() == st0.dom().len() + 1);
            assert forall|c: Coord| #[trigger] st1.contains_key(c) implies self.zobrist_table@.contains_key((st1[c], c.0, c.1)) by {
                if c != p {
                    assert(st0.contains_key(c));
                }
            }
            let z1 = self.zobrist_table@;
            assert forall|c: Coord| st0.dom().contains(c) implies stone_key(st0, zob0)(c) == stone_key(st1, z1)(c) by {
                assert(st0.contains_key(c));
                assert(zob0.contains_key((st0[c], c.0, c.1)));
            }
            lemma_xor_agree(st0.dom(), stone_key(st0, zob0), stone_key(st1, z1));
            lemma_xor_insert(st0.dom(), stone_key(st1, z1), p);
        }
    }

    /// Takes the stone `(player, q, r)` off its cell and brings every
    /// derived structure up to date.
    pub fn remove_move(&mut self, move_: Stone)
        requires
            old(self).wf(),
            old(self).stones().contains_key((move_.1, move_.2)),
            old(self).stones()[(move_.1, move_.2)] == move_.0,
        ensures
            final(self).wf(),
            old(self).keys_drawn() ==> final(self).keys_drawn(),
            final(self).stones() == old(self).stones().remove((move_.1, move_.2)),
            final(self).zobrist() == old(self).zobrist(),
            final(self).hash() == old(self).hash() ^ old(self).zobrist()[move_],
            final(self).spec_board() == old(self).spec_board(),
            final(self).draws() == old(self).draws(),
    {
        proof {
            reveal(Engine::wf);
        }
        let (player, q, r) = move_;
        let ghost p: Coord = (q, r);
        let ghost st0 = self.board_state@;
        let ghost zob0 = self.zobrist_table@;
        proof {
            assert(st0.contains_key(p));
            assert(zob0.contains_key(move_));
        }

        coord_map_remove(&mut self.board_state, (q, r));
        let ghost st1 = self.board_state@;
        let zh = self.zobrist_get(move_);
        let ghost d1 = self.draws();
        self.current_hash = self.current_hash ^ zh;

        let here = match coord_map_get(&self.frontier_counts, (q, r)) {
            Some(c) => c,
            None => 0i32,
        };
        if here > 0 {
            coord_set_insert(&mut self.empty_cells_set, (q, r));
        }
        proof {
            assert(st0.dom().remove(p) =~= st1.dom());
            assert forall|c: Coord| #[trigger] self.empty_cells_set@.contains(c) <==> self.frontier_counts@.contains_key(c)
                && !st1.contains_key(c) by {
                if c == p && self.frontier_counts@.contains_key(c) {
                    assert(neighbours(st0, c) > 0);
                }
            }
            assert forall|c: Coord| #[trigger] self.frontier_counts@.contains_key(c) <==> neighbours(st1, c)
                + hits_from(p, c, 0) > 0 by {
                lemma_neighbours_remove(st0, p, c, 0);
            }
            assert forall|c: Coord| #[trigger] self.frontier_counts@.contains_key(c) implies self.frontier_counts@[c]
                == neighbours(st1, c) + hits_from(p, c, 0) by {
                lemma_neighbours_remove(st0, p, c, 0);
            }
        }

        let offsets = neighbor_offsets();
        for j in 0..offsets.len()
            invariant
                offsets_listed(offsets@),
                in_bounds(q as int),
                in_bounds(r as int),
                p == (q, r),
                self.board_state@ == st1,
                forall|c: Coord| #[trigger] self.frontier_counts@.contains_key(c) <==> neighbours(st1, c)
                    + hits_from(p, c, j as int) > 0,
                forall|c: Coord| #[trigger] self.frontier_counts@.contains_key(c) ==> self.frontier_counts@[c]
                    == neighbours(st1, c) + hits_from(p, c, j as int),
                empty_of(self.empty_cells_set@, self.frontier_counts@, st1),
                self.window_counts == old(self).window_counts,
                self.x_needs == old(self).x_needs,
                self.o_needs == old(self).o_needs,
                self.cell_scores == old(self).cell_scores,
                self.board == old(self).board,
                self.zobrist_table@ == zob0,
                old(self).keys_drawn() ==> self.keys_drawn(),
                self.draws() == d1,
                self.zobrist_table@[move_] == zh,
                self.current_hash == old(self).current_hash ^ zob0[move_],
        {
            let (dq, dr) = offsets[j];
            let n: Coord = (q + dq, r + dr);
            let ghost fc1 = self.frontier_counts@;
            proof {
                lemma_hits_step(p, n, j as int);
                lemma_neighbours_bound(st1, n, 0);
                lemma_hits_bound(p, n, j as int + 1);
                assert(fc1.contains_key(n));
            }
            match coord_map_get(&self.frontier_counts, n) {
                Some(cnt) => {
                    let left = cnt - 1;
                    if left == 0 {
                        coord_map_remove(&mut self.frontier_counts, n);
                        coord_set_remove(&mut self.empty_cells_set, n);
                    } else {
                        coord_map_insert(&mut self.frontier_counts, n, left);
                    }
                },
                None => {},
            }
            proof {
                assert forall|c: Coord| #[trigger] self.frontier_counts@.contains_key(c) <==> neighbours(st1, c)
                    + hits_from(p, c, j + 1) > 0 by {
                    lemma_hits_step(p, c, j as int);
                    lemma_neighbours_bound(st1, c, 0);
                    lemma_hits_bound(p, c, j as int + 1);
                    if c != n {
                        assert(fc1.contains_key(c) == self.frontier_counts@.contains_key(c));
                    }
                }
                assert forall|c: Coord| #[trigger] self.frontier_counts@.contains_key(c) implies self.frontier_counts@[c]
                    == neighbours(st1, c) + hits_from(p, c, j + 1) by {
                    lemma_hits_step(p, c, j as int);
                    if c != n {
                        assert(fc1.contains_key(c));
                    }
                }
            }
        }

        let is_x = player == 1;
        proof {
            lemma_mixed_start(self.window_counts@, st0, st1, p);
        }
        for d in 0..3usize
            invariant
                in_bounds(q as int),
                in_bounds(r as int),
                p == (q, r),
                player == 1 || player == 2,
                is_x == (player == 1),
                stones_fit(st0),
                st0.dom().finite(),
                st0.dom().len() <= MAX_STONES,
                st1 == st0.remove(p),
                st0.contains_key(p),
                st0[p] == player,
                tallies_mixed(self.window_counts@, st0, st1, p, 6 * d),
                self.window_counts@.dom().finite(),
                self.window_counts@.dom().len() <= 18 * st0.dom().len(),
                tallies_sane(self.window_counts@),
                needs_of(self.window_counts@, self.x_needs, self.o_needs),
                scores_of(self.window_counts@, self.cell_scores@),
                self.board_state@ == st1,
                frontier_of(self.frontier_counts@, st1),
                empty_of(self.empty_cells_set@, self.frontier_counts@, st1),
                self.board == old(self).board,
                self.zobrist_table@ == zob0,
                old(self).keys_drawn() ==> self.keys_drawn(),
                self.draws() == d1,
                self.zobrist_table@[move_] == zh,
                self.current_hash == old(self).current_hash ^ zob0[move_],
        {
            for k in 0..6i32
                invariant
                    in_bounds(q as int),
                    in_bounds(r as int),
                    p == (q, r),
                    d < 3,
                    player == 1 || player == 2,
                    is_x == (player == 1),
                    stones_fit(st0),
                    st0.dom().finite(),
                    st0.dom().len() <= MAX_STONES,
                    st1 == st0.remove(p),
                    st0.contains_key(p),
                    st0[p] == player,
                    tallies_mixed(self.window_counts@, st0, st1, p, 6 * d + k),
                    self.window_counts@.dom().finite(),
                    self.window_counts@.dom().len() <= 18 * st0.dom().len(),
                    tallies_sane(self.window_counts@),
                    needs_of(self.window_counts@, self.x_needs, self.o_needs),
                    scores_of(self.window_counts@, self.cell_scores@),
                    self.board_state@ == st1,
                    frontier_of(self.frontier_counts@, st1),
                    empty_of(self.empty_cells_set@, self.frontier_counts@, st1),
                    self.board == old(self).board,
                    self.zobrist_table@ == zob0,
                    old(self).keys_drawn() ==> self.keys_drawn(),
                    self.draws() == d1,
                    self.zobrist_table@[move_] == zh,
                    self.current_hash == old(self).current_hash ^ zob0[move_],
            {
                let key = window_key_exec(q, r, d, k);
                let ghost wc0 = self.window_counts@;
                proof {
                    lemma_window_through(q as int, r as int, d as int, k as int);
                    lemma_count_remove(st0, p, key, 1);
                    lemma_count_remove(st0, p, key, 2);
                    assert(window_cell(key, k as int) == (q as int, r as int));
                    assert(holds(st0, window_cell(key, k as int), player));
                    assert(!crate::windows::done_at(key, p, 6 * d + k));
                    assert(count_in(st0, key, player) >= 1);
                    assert(wc0.contains_key(key));
                    lemma_room(wc0, self.x_needs, self.o_needs, self.cell_scores@, key);
                }
                self.update_window_remove(key, is_x);
                proof {
                    let x = count_in(st1, key, 1);
                    let o = count_in(st1, key, 2);
                    if x + o > 0 {
                        assert(self.window_counts@ =~= wc0.insert(key, [x as i32, o as i32]));
                    } else {
                        assert(self.window_counts@ =~= wc0.remove(key));
                    }
                    lemma_mixed_step(wc0, self.window_counts@, st0, st1, p, d as int, k as int);
                }
            }
        }
        proof {
            lemma_mixed_end(self.window_counts@, st0, st1, p);
            assert(stones_fit(st1));
            lemma_tally_count(self.window_counts@, st1);
            lemma_xor_remove(st0.dom(), stone_key(st0, zob0), p);
            assert(st1.dom() =~= st0.dom().remove(p));
            assert forall|c: Coord| st1.dom().contains(c) implies stone_key(st0, zob0)(c) == stone_key(st1, zob0)(c) by {
            }
            lemma_xor_agree(st1.dom(), stone_key(st0, zob0), stone_key(st1, zob0));
        }
    }

    /// One window tally gains a stone of X (`is_x`) or of O.  The count of
    /// pure windows for the old tally (if it was pure) loses one and that
    /// for the new tally (if it is pure) gains one; when the window's worth
    /// changes, each of its six cells gains the difference in its score (a
    /// cell without an entry counting 0), and no other score changes.
    fn update_window_add(&mut self, key: WindowKey, is_x: bool)
        requires
            old(self).window_counts@.dom().finite(),
            old(self).window_counts@.dom().len() < i32::MAX - 1,
            tallies_sane(old(self).window_counts@),
            room_to_update(old(self).x_needs, old(self).o_needs, old(self).cell_scores@, key),
            is_window(key),
            window_fits(key),
            tally_at(old(self).window_counts@, key)[0] + tally_at(old(self).window_counts@, key)[1] < 6,
        ensures
            final(self).window_counts@ == old(self).window_counts@.insert(
                key,
                tally_plus(tally_at(old(self).window_counts@, key), is_x),
            ),
            ({
                let t = tally_at(old(self).window_counts@, key);
                let t2 = tally_plus(t, is_x);
                &&& needs_moved(old(self).x_needs, final(self).x_needs, pure_x(t), pure_x(t2))
                &&& needs_moved(old(self).o_needs, final(self).o_needs, pure_o(t), pure_o(t2))
                &&& scores_moved(
                    old(self).cell_scores@,
                    final(self).cell_scores@,
                    key,
                    tally_worth(t2[0] as int, t2[1] as int) - tally_worth(t[0] as int, t[1] as int),
                )
            }),
            final(self).window_counts@.dom().finite(),
            final(self).window_counts@.dom().len() <= old(self).window_counts@.dom().len() + 1,
            tallies_sane(final(self).window_counts@),
            needs_of(old(self).window_counts@, old(self).x_needs, old(self).o_needs) ==> needs_of(
                final(self).window_counts@,
                final(self).x_needs,
                final(self).o_needs,
            ),
            scores_of(old(self).window_counts@, old(self).cell_scores@) ==> scores_of(
                final(self).window_counts@,
                final(self).cell_scores@,
            ),
            final(self).board == old(self).board,
            final(self).current_hash == old(self).current_hash,
            final(self).empty_cells_set == old(self).empty_cells_set,
            final(self).frontier_counts == old(self).frontier_counts,
            final(self).board_state == old(self).board_state,
            final(self).zobrist_table == old(self).zobrist_table,
            final(self).rng == old(self).rng,
            final(self).key_draw == old(self).key_draw,
    {
        let ghost wc0 = self.window_counts@;
        let ghost xn0 = self.x_needs;
        let ghost on0 = self.o_needs;
        let ghost cs0 = self.cell_scores@;
        let counts = match window_map_get(&self.window_counts, key) {
            Some(c) => c,
            None => [0i32, 0i32],
        };
        let x_c = counts[0];
        let o_c = counts[1];
        proof {
            assert(counts == tally_at(wc0, key));
        }

        let old_val: i64 = if o_c == 0 && x_c > 0 {
            self.x_needs[(x_c - 1) as usize] = self.x_needs[(x_c - 1) as usize] - 1;
            pow10_of(x_c)
        } else if x_c == 0 && o_c > 0 {
            self.o_needs[(o_c - 1) as usize] = self.o_needs[(o_c - 1) as usize] - 1;
            pow10_of(o_c)
        } else {
            0
        };

        let (new_x_c, new_o_c) = if is_x {
            (x_c + 1, o_c)
        } else {
            (x_c, o_c + 1)
        };
        window_map_insert(&mut self.window_counts, key, [new_x_c, new_o_c]);
        let ghost wc1 = self.window_counts@;
        let ghost xn1 = self.x_needs;
        let ghost on1 = self.o_needs;
        proof {
            assert([new_x_c, new_o_c] == tally_plus(tally_at(wc0, key), is_x));
            if needs_of(wc0, xn0, on0) {
                assert forall|k: int| 0 <= k < 6 implies #[trigger] xn1[k] + ind(
                    new_o_c == 0 && new_x_c == k + 1,
                ) == bucket(wc1, k + 1, 0).len() by {
                    assert(xn0[k] == bucket(wc0, k + 1, 0).len());
                    lemma_bucket_insert(wc0, key, [new_x_c, new_o_c], k + 1, 0);
                }
                assert forall|k: int| 0 <= k < 6 implies #[trigger] on1[k] + ind(
                    new_x_c == 0 && new_o_c == k + 1,
                ) == bucket(wc1, 0, k + 1).len() by {
                    assert(on0[k] == bucket(wc0, 0, k + 1).len());
                    lemma_bucket_insert(wc0, key, [new_x_c, new_o_c], 0, k + 1);
                }
            }
        }

        let new_val: i64 = if new_o_c == 0 && new_x_c > 0 {
            self.x_needs[(new_x_c - 1) as usize] = self.x_needs[(new_x_c - 1) as usize] + 1;
            pow10_of(new_x_c)
        } else if new_x_c == 0 && new_o_c > 0 {
            self.o_needs[(new_o_c - 1) as usize] = self.o_needs[(new_o_c - 1) as usize] + 1;
            pow10_of(new_o_c)
        } else {
            0
        };

        let ghost xn2 = self.x_needs;
        let ghost on2 = self.o_needs;
        proof {
            assert forall|k: int| 0 <= k < 6 implies #[trigger] xn2[k] == xn1[k] + ind(
                new_o_c == 0 && new_x_c == k + 1,
            ) by {
            }
            assert forall|k: int| 0 <= k < 6 implies #[trigger] on2[k] == on1[k] + ind(
                new_x_c == 0 && new_o_c == k + 1,
            ) by {
            }
            assert(worth(wc0, key) == old_val);
            assert(worth(wc1, key) == new_val);
            assert forall|w: WindowKey| w != key implies #[trigger] worth(wc1, w) == worth(wc0, w) by {
            }
            assert(tallies_sane(wc1));
        }

        let net = new_val - old_val;
        if net != 0 {
            for i in 0..6i32
                invariant
                    is_window(key),
                    window_fits(key),
                    net == worth(wc1, key) - worth(wc0, key),
                    -1_000_000 <= net <= 1_000_000,
                    room_to_update(xn0, on0, cs0, key),
                    forall|c: Coord| #[trigger] self.cell_scores@.contains_key(c) == (cs0.contains_key(c) || 0
                        <= place_in(key, (c.0 as int, c.1 as int)) < i),
                    forall|c: Coord| #[trigger] score_of(self.cell_scores@, c) == score_of(cs0, c) + (if 0
                        <= place_in(key, (c.0 as int, c.1 as int)) < i {
                        net as int
                    } else {
                        0
                    }),
                    self.window_counts@ == wc1,
                    self.x_needs == xn2,
                    self.o_needs == on2,
                    self.board == old(self).board,
                    self.current_hash == old(self).current_hash,
                    self.empty_cells_set == old(self).empty_cells_set,
                    self.frontier_counts == old(self).frontier_counts,
                    self.board_state == old(self).board_state,
                    self.zobrist_table == old(self).zobrist_table,
                    self.rng == old(self).rng,
                    self.key_draw == old(self).key_draw,
            {
                let cell = window_cell_exec(key, i);
                proof {
                    lemma_place_of_cell(key, i as int);
                    assert(place_in(key, (cell.0 as int, cell.1 as int)) == i);
                    assert(-4_000_000_000_000_000_000 <= score_of(cs0, cell) <= 4_000_000_000_000_000_000);
                }
                let s = match coord_map_get(&self.cell_scores, cell) {
                    Some(v) => v,
                    None => 0i64,
                };
                proof {
                    assert(s == score_of(self.cell_scores@, cell));
                }
                let ghost cs_before = self.cell_scores@;
                coord_map_insert(&mut self.cell_scores, cell, s + net);
                proof {
                    assert forall|c: Coord| #[trigger] self.cell_scores@.contains_key(c) == (cs0.contains_key(c)
                        || 0 <= place_in(key, (c.0 as int, c.1 as int)) < i + 1) by {
                        assert(cs_before.contains_key(c) == (cs0.contains_key(c) || 0 <= place_in(
                            key,
                            (c.0 as int, c.1 as int),
                        ) < i));
                        if c != cell {
                            assert(place_in(key, (c.0 as int, c.1 as int)) != i);
                        }
                    }
                    assert forall|c: Coord| #[trigger] score_of(self.cell_scores@, c) == score_of(cs0, c) + (if 0
                        <= place_in(key, (c.0 as int, c.1 as int)) < i + 1 {
                        net as int
                    } else {
                        0
                    }) by {
                        assert(score_of(cs_before, c) == score_of(cs0, c) + (if 0 <= place_in(
                            key,
                            (c.0 as int, c.1 as int),
                        ) < i {
                            net as int
                        } else {
                            0
                        }));
                        if c != cell {
                            assert(place_in(key, (c.0 as int, c.1 as int)) != i);
                        }
                    }
                }
            }
        }
        proof {
            let t = tally_at(wc0, key);
            let t2 = tally_plus(t, is_x);
            assert(worth(wc0, key) == tally_worth(t[0] as int, t[1] as int));
            assert(worth(wc1, key) == tally_worth(t2[0] as int, t2[1] as int));
            if net == 0 {
                assert(self.cell_scores@ =~= cs0);
            } else {
                assert forall|c: Coord| #[trigger] self.cell_scores@.contains_key(c) implies (cs0.contains_key(c)
                    || covers(key, c)) by {
                }
            }
            assert(needs_moved(xn0, self.x_needs, pure_x(t), pure_x(t2)));
            assert(needs_moved(on0, self.o_needs, pure_o(t), pure_o(t2)));
            if scores_of(wc0, cs0) {
                assert forall|c: Coord| #[trigger] score_of(self.cell_scores@, c) == cell_sum(wc1, c) by {
                    lemma_cell_sum_frame(wc0, wc1, key, c);
                    assert(score_of(cs0, c) == cell_sum(wc0, c));
                }
            }
            if needs_of(wc0, xn0, on0) {
                assert forall|k: int| 0 <= k < 6 implies #[trigger] self.x_needs[k] == bucket(wc1, k + 1, 0).len() by {
                    assert(xn1[k] + ind(new_o_c == 0 && new_x_c == k + 1) == bucket(wc1, k + 1, 0).len());
                    assert(xn2[k] == xn1[k] + ind(new_o_c == 0 && new_x_c == k + 1));
                }
                assert forall|k: int| 0 <= k < 6 implies #[trigger] self.o_needs[k] == bucket(wc1, 0, k + 1).len() by {
                    assert(on1[k] + ind(new_x_c == 0 && new_o_c == k + 1) == bucket(wc1, 0, k + 1).len());
                    assert(on2[k] == on1[k] + ind(new_x_c == 0 && new_o_c == k + 1));
                }
            }
        }
    }

    /// One window tally loses a stone of X (`is_x`) or of O.  An untallied
    /// window is left alone, and nothing changes.  Otherwise the count of
    /// pure windows for the old tally (if it was pure) loses one and that
    /// for the new tally (if it is pure) gains one; when the window's worth
    /// changes, each of its six cells gains the difference in its score (a
    /// cell without an entry counting 0), and no other score changes; a
    /// tally left with no stone is dropped.
    fn update_window_remove(&mut self, key: WindowKey, is_x: bool)
        requires
            old(self).window_counts@.dom().finite(),
            old(self).window_counts@.contains_key(key) ==> {
                let t = old(self).window_counts@[key];
                &&& is_window(key)
                &&& window_fits(key)
                &&& 0 <= t[0] && 0 <= t[1] && t[0] + t[1] <= 6
                &&& room_to_update(old(self).x_needs, old(self).o_needs, old(self).cell_scores@, key)
            },
        ensures
            !old(self).window_counts@.contains_key(key) ==> *final(self) == *old(self),
            final(self).window_counts@ == (if !old(self).window_counts@.contains_key(key) {
                old(self).window_counts@
            } else {
                let t2 = tally_minus(old(self).window_counts@[key], is_x);
                if t2[0] == 0 && t2[1] == 0 {
                    old(self).window_counts@.remove(key)
                } else {
                    old(self).window_counts@.insert(key, t2)
                }
            }),
            old(self).window_counts@.contains_key(key) ==> ({
                let t = old(self).window_counts@[key];
                let t2 = tally_minus(t, is_x);
                &&& needs_moved(old(self).x_needs, final(self).x_needs, pure_x(t), pure_x(t2))
                &&& needs_moved(old(self).o_needs, final(self).o_needs, pure_o(t), pure_o(t2))
                &&& scores_moved(
                    old(self).cell_scores@,
                    final(self).cell_scores@,
                    key,
                    tally_worth(t2[0] as int, t2[1] as int) - tally_worth(t[0] as int, t[1] as int),
                )
            }),
            final(self).window_counts@.dom().finite(),
            final(self).window_counts@.dom().len() <= old(self).window_counts@.dom().len(),
            tallies_sane(old(self).window_counts@) && (old(self).window_counts@.contains_key(key) ==> (if is_x {
                old(self).window_counts@[key][0] > 0
            } else {
                old(self).window_counts@[key][1] > 0
            })) ==> tallies_sane(final(self).window_counts@),
            needs_of(old(self).window_counts@, old(self).x_needs, old(self).o_needs) ==> needs_of(
                final(self).window_counts@,
                final(self).x_needs,
                final(self).o_needs,
            ),
            scores_of(old(self).window_counts@, old(self).cell_scores@) ==> scores_of(
                final(self).window_counts@,
                final(self).cell_scores@,
            ),
            final(self).board == old(self).board,
            final(self).current_hash == old(self).current_hash,
            final(self).empty_cells_set == old(self).empty_cells_set,
            final(self).frontier_counts == old(self).frontier_counts,
            final(self).board_state == old(self).board_state,
            final(self).zobrist_table == old(self).zobrist_table,
            final(self).rng == old(self).rng,
            final(self).key_draw == old(self).key_draw,
    {
        let ghost wc0 = self.window_counts@;
        let ghost xn0 = self.x_needs;
        let ghost on0 = self.o_needs;
        let ghost cs0 = self.cell_scores@;
        let counts = match window_map_get(&self.window_counts, key) {
            Some(c) => c,
            None => {
                return;
            },
        };
        let x_c = counts[0];
        let o_c = counts[1];

        let old_val: i64 = if o_c == 0 && x_c > 0 {
            self.x_needs[(x_c - 1) as usize] = self.x_needs[(x_c - 1) as usize] - 1;
            pow10_of(x_c)
        } else if x_c == 0 && o_c > 0 {
            self.o_needs[(o_c - 1) as usize] = self.o_needs[(o_c - 1) as usize] - 1;
            pow10_of(o_c)
        } else {
            0
        };

        let (new_x_c, new_o_c) = if is_x {
            (x_c - 1, o_c)
        } else {
            (x_c, o_c - 1)
        };
        let emptied = new_x_c == 0 && new_o_c == 0;
        if emptied {
            window_map_remove(&mut self.window_counts, key);
        } else {
            window_map_insert(&mut self.window_counts, key, [new_x_c, new_o_c]);
        }
        let ghost wc1 = self.window_counts@;
        let ghost xn1 = self.x_needs;
        let ghost on1 = self.o_needs;
        proof {
            assert([new_x_c, new_o_c] == tally_minus(wc0[key], is_x));
            if emptied {
                assert(wc1 =~= wc0.remove(key));
            } else {
                assert(wc1 =~= wc0.insert(key, [new_x_c, new_o_c]));
            }
            assert(wc1.dom().finite());
            if needs_of(wc0, xn0, on0) {
                assert forall|k: int| 0 <= k < 6 implies #[trigger] xn1[k] + ind(
                    new_o_c == 0 && new_x_c == k + 1,
                ) == bucket(wc1, k + 1, 0).len() by {
                    assert(xn0[k] == bucket(wc0, k + 1, 0).len());
                    if emptied {
                        lemma_bucket_remove(wc0, key, k + 1, 0);
                    } else {
                        lemma_bucket_insert(wc0, key, [new_x_c, new_o_c], k + 1, 0);
                    }
                }
                assert forall|k: int| 0 <= k < 6 implies #[trigger] on1[k] + ind(
                    new_x_c == 0 && new_o_c == k + 1,
                ) == bucket(wc1, 0, k + 1).len() by {
                    assert(on0[k] == bucket(wc0, 0, k + 1).len());
                    if emptied {
                        lemma_bucket_remove(wc0, key, 0, k + 1);
                    } else {
                        lemma_bucket_insert(wc0, key, [new_x_c, new_o_c], 0, k + 1);
                    }
                }
            }
        }

        let new_val: i64 = if new_o_c == 0 && new_x_c > 0 {
            self.x_needs[(new_x_c - 1) as usize] = self.x_needs[(new_x_c - 1) as usize] + 1;
            pow10_of(new_x_c)
        } else if new_x_c == 0 && new_o_c > 0 {
            self.o_needs[(new_o_c - 1) as usize] = self.o_needs[(new_o_c - 1) as usize] + 1;
            pow10_of(new_o_c)
        } else {
            0
        };

        let ghost xn2 = self.x_needs;
        let ghost on2 = self.o_needs;
        proof {
            assert forall|k: int| 0 <= k < 6 implies #[trigger] xn2[k] == xn1[k] + ind(
                new_o_c == 0 && new_x_c == k + 1,
            ) by {
            }
            assert forall|k: int| 0 <= k < 6 implies #[trigger] on2[k] == on1[k] + ind(
                new_x_c == 0 && new_o_c == k + 1,
            ) by {
            }
            assert(worth(wc0, key) == old_val);
            assert(worth(wc1, key) == new_val);
            assert forall|w: WindowKey| w != key implies #[trigger] worth(wc1, w) == worth(wc0, w) by {
            }
        }

        let net = new_val - old_val;
        if net != 0 {
            for i in 0..6i32
                invariant
                    is_window(key),
                    window_fits(key),
                    net == worth(wc1, key) - worth(wc0, key),
                    -1_000_000 <= net <= 1_000_000,
                    room_to_update(xn0, on0, cs0, key),
                    forall|c: Coord| #[trigger] self.cell_scores@.contains_key(c) == (cs0.contains_key(c) || 0
                        <= place_in(key, (c.0 as int, c.1 as int)) < i),
                    forall|c: Coord| #[trigger] score_of(self.cell_scores@, c) == score_of(cs0, c) + (if 0
                        <= place_in(key, (c.0 as int, c.1 as int)) < i {
                        net as int
                    } else {
                        0
                    }),
                    self.window_counts@ == wc1,
                    self.x_needs == xn2,
                    self.o_needs == on2,
                    self.board == old(self).board,
                    self.current_hash == old(self).current_hash,
                    self.empty_cells_set == old(self).empty_cells_set,
                    self.frontier_counts == old(self).frontier_counts,
                    self.board_state == old(self).board_state,
                    self.zobrist_table == old(self).zobrist_table,
                    self.rng == old(self).rng,
                    self.key_draw == old(self).key_draw,
            {
                let cell = window_cell_exec(key, i);
                proof {
                    lemma_place_of_cell(key, i as int);
                    assert(place_in(key, (cell.0 as int, cell.1 as int)) == i);
                    assert(-4_000_000_000_000_000_000 <= score_of(cs0, cell) <= 4_000_000_000_000_000_000);
                }
                let s = match coord_map_get(&self.cell_scores, cell) {
                    Some(v) => v,
                    None => 0i64,
                };
                proof {
                    assert(s == score_of(self.cell_scores@, cell));
                }
                let ghost cs_before = self.cell_scores@;
                coord_map_insert(&mut self.cell_scores, cell, s + net);
                proof {
                    assert forall|c: Coord| #[trigger] self.cell_scores@.contains_key(c) == (cs0.contains_key(c)
                        || 0 <= place_in(key, (c.0 as int, c.1 as int)) < i + 1) by {
                        assert(cs_before.contains_key(c) == (cs0.contains_key(c) || 0 <= place_in(
                            key,
                            (c.0 as int, c.1 as int),
                        ) < i));
                        if c != cell {
                            assert(place_in(key, (c.0 as int, c.1 as int)) != i);
                        }
                    }
                    assert forall|c: Coord| #[trigger] score_of(self.cell_scores@, c) == score_of(cs0, c) + (if 0
                        <= place_in(key, (c.0 as int, c.1 as int)) < i + 1 {
                        net as int
                    } else {
                        0
                    }) by {
                        assert(score_of(cs_before, c) == score_of(cs0, c) + (if 0 <= place_in(
                            key,
                            (c.0 as int, c.1 as int),
                        ) < i {
                            net as int
                        } else {
                            0
                        }));
                        if c != cell {
                            assert(place_in(key, (c.0 as int, c.1 as int)) != i);
                        }
                    }
                }
            }
        }
        proof {
            let t = wc0[key];
            let t2 = tally_minus(t, is_x);
            assert(worth(wc0, key) == tally_worth(t[0] as int, t[1] as int));
            if net == 0 {
                assert(self.cell_scores@ =~= cs0);
            }
            assert(needs_moved(xn0, self.x_needs, pure_x(t), pure_x(t2)));
            assert(needs_moved(on0, self.o_needs, pure_o(t), pure_o(t2)));
            if scores_of(wc0, cs0) {
                assert forall|c: Coord| #[trigger] score_of(self.cell_scores@, c) == cell_sum(wc1, c) by {
                    lemma_cell_sum_frame(wc0, wc1, key, c);
                    assert(score_of(cs0, c) == cell_sum(wc0, c));
                }
            }
            if needs_of(wc0, xn0, on0) {
                assert forall|k: int| 0 <= k < 6 implies #[trigger] self.x_needs[k] == bucket(wc1, k + 1, 0).len() by {
                    assert(xn1[k] + ind(new_o_c == 0 && new_x_c == k + 1) == bucket(wc1, k + 1, 0).len());
                    assert(xn2[k] == xn1[k] + ind(new_o_c == 0 && new_x_c == k + 1));
                }
                assert forall|k: int| 0 <= k < 6 implies #[trigger] self.o_needs[k] == bucket(wc1, 0, k + 1).len() by {
                    assert(on1[k] + ind(new_x_c == 0 && new_o_c == k + 1) == bucket(wc1, 0, k + 1).len());
                    assert(on2[k] == on1[k] + ind(new_x_c == 0 && new_o_c == k + 1));
                }
            }
        }
    }
}

/// A window tally that gains a stone and then loses it again is back where
/// it was, as the two updates state them: the tallies, the counts of pure
/// windows, and every cell's score (0 without an entry).
pub proof fn law_tally_change_undone(
    wc0: Map<WindowKey, [i32; 2]>,
    wc1: Map<WindowKey, [i32; 2]>,
    wc2: Map<WindowKey, [i32; 2]>,
    key: WindowKey,
    is_x: bool,
    xn: Seq<[i32; 6]>,
    on: Seq<[i32; 6]>,
    cs: Seq<Map<Coord, i64>>,
)
    requires
        xn.len() == 3,
        on.len() == 3,
        cs.len() == 3,
        ({
            let t = tally_at(wc0, key);
            let t2 = tally_plus(t, is_x);
            let t3 = tally_minus(t2, is_x);
            &&& 0 <= t[0] && 0 <= t[1] && t[0] + t[1] < 6
            &&& wc0.contains_key(key) ==> !(t[0] == 0 && t[1] == 0)
            &&& wc1 == wc0.insert(key, t2)
            &&& wc2 == (if t3[0] == 0 && t3[1] == 0 {
                wc1.remove(key)
            } else {
                wc1.insert(key, t3)
            })
            &&& needs_moved(xn[0], xn[1], pure_x(t), pure_x(t2))
            &&& needs_moved(on[0], on[1], pure_o(t), pure_o(t2))
            &&& scores_moved(cs[0], cs[1], key, tally_worth(t2[0] as int, t2[1] as int) - tally_worth(t[0] as int, t[1] as int))
            &&& needs_moved(xn[1], xn[2], pure_x(t2), pure_x(t3))
            &&& needs_moved(on[1], on[2], pure_o(t2), pure_o(t3))
            &&& scores_moved(cs[1], cs[2], key, tally_worth(t3[0] as int, t3[1] as int) - tally_worth(t2[0] as int, t2[1] as int))
        }),
    ensures
        wc2 == wc0,
        xn[2] == xn[0],
        on[2] == on[0],
        forall|c: Coord| #[trigger] score_of(cs[2], c) == score_of(cs[0], c),
{
    let t = tally_at(wc0, key);
    let t2 = tally_plus(t, is_x);
    let t3 = tally_minus(t2, is_x);
    assert(t3 =~= t);
    assert(xn[2]@ =~= xn[0]@);
    assert(on[2]@ =~= on[0]@);
    if wc0.contains_key(key) {
        assert(wc2 =~= wc0);
    } else {
        assert(wc2 =~= wc0);
    }
    assert forall|c: Coord| #[trigger] score_of(cs[2], c) == score_of(cs[0], c) by {
    }
}

} // verus!
