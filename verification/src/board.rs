//! The board: the stones placed so far, whose turn it is, the game record,
//! the drawing window and the winner; the rules of placing a turn's two
//! stones and of six in a row.

use vstd::prelude::*;
use rustc_hash::{FxHashMap, FxHashSet};
use crate::fxhash::{
    Coord, Stone, coord_map_insert, coord_set_contains, coord_set_insert, coord_set_to_vec,
    stone_set_contains, stone_set_insert, stone_set_to_vec,
};
use crate::notation::{push_turn_record, trim_end, trimmed_end, turn_record};

verus! {

/// The smallest coordinate a stone may have (`i32::MIN + 6`): the drawing
/// window reaches six cells beyond every stone.
pub const COORD_MIN: i32 = -2147483642;

/// The largest coordinate a stone may have (`i32::MAX - 6`).
pub const COORD_MAX: i32 = 2147483641;

/// Whether a coordinate lies where a stone may stand.
pub open spec fn in_bounds(c: int) -> bool {
    COORD_MIN <= c <= COORD_MAX
}

/// Whether both coordinates of a cell lie within the bounds.
pub open spec fn cell_in_bounds(c: Coord) -> bool {
    in_bounds(c.0 as int) && in_bounds(c.1 as int)
}

/// Whether the integer pair `c` is a cell of `pos`.
pub open spec fn occupies(pos: Set<Coord>, c: (int, int)) -> bool {
    &&& i32::MIN <= c.0 <= i32::MAX
    &&& i32::MIN <= c.1 <= i32::MAX
    &&& pos.contains((c.0 as i32, c.1 as i32))
}

/// The cell `i` steps from `(q, r)` along win axis `k`: axis 0 is
/// `(1, -1)`, axis 1 is `(0, 1)`, axis 2 is `(1, 0)`.
pub open spec fn step(q: int, r: int, k: int, i: int) -> (int, int) {
    if k == 0 {
        (q + i, r - i)
    } else if k == 1 {
        (q, r + i)
    } else {
        (q + i, r)
    }
}

/// Whether `pos` holds the six cells from `(q, r)` along axis `k`.
pub open spec fn six_from(pos: Set<Coord>, q: int, r: int, k: int) -> bool {
    forall|i: int| 0 <= i < 6 ==> #[trigger] occupies(pos, step(q, r, k, i))
}

/// Whether `pos` holds six cells in a row along one of the three axes.
pub open spec fn has_six(pos: Set<Coord>) -> bool {
    exists|q: int, r: int, k: int| 0 <= k < 3 && #[trigger] six_from(pos, q, r, k)
}

/// The cells on which `moves` holds a stone of player `p`.
pub open spec fn player_cells(moves: Set<Stone>, p: u8) -> Set<Coord> {
    Set::new(|c: Coord| moves.contains((p, c.0, c.1)))
}

/// Whether every cell of `pos` lies within the bounds.
pub open spec fn cells_in_bounds(pos: Set<Coord>) -> bool {
    forall|c: Coord| pos.contains(c) ==> in_bounds(c.0 as int) && in_bounds(c.1 as int)
}

/// The drawing window grown to show six cells around `(q, r)`:
/// `(max_q, min_q, max_r, min_r)`.
pub open spec fn grow_window(w: (int, int, int, int), q: int, r: int) -> (int, int, int, int) {
    (
        if w.0 >= q + 6 { w.0 } else { q + 6 },
        if w.1 <= q - 6 { w.1 } else { q - 6 },
        if w.2 >= r + 6 { w.2 } else { r + 6 },
        if w.3 <= r - 6 { w.3 } else { r - 6 },
    )
}

/// A drawing window as integers.
pub open spec fn window_ints(w: (i32, i32, i32, i32)) -> (int, int, int, int) {
    (w.0 as int, w.1 as int, w.2 as int, w.3 as int)
}

/// Whether the cell `(q, r)` has a cell of `pos` just before it on axis
/// `k`, or is not the first of six in a row there.
pub open spec fn clear_at(pos: Set<Coord>, q: int, r: int, k: int) -> bool {
    occupies(pos, step(q, r, k, -1)) || !six_from(pos, q, r, k)
}

/// The text of the error that `Board::play` returns for stones `m` the
/// rules do not admit.
pub open spec fn play_error(b: Board, m: [(i32, i32); 2]) -> Seq<char> {
    if b.winner is Some {
        "Game is already over"@
    } else if m[0] == m[1] {
        "You must provide two different moves"@
    } else {
        "Cell is already occupied"@
    }
}

/// Walking back along axis `k` from a cell whose `j` predecessors are all in
/// `pos`, one comes to the first cell of that run: the returned `t >= j`
/// counts the cells before it.
proof fn lemma_run_start(pos: Set<Coord>, q: int, r: int, k: int, j: int) -> (t: int)
    requires
        cells_in_bounds(pos),
        0 <= k < 3,
        j >= 0,
        forall|i: int| 0 <= i <= j ==> #[trigger] occupies(pos, step(q, r, k, -i)),
    ensures
        t >= j,
        forall|i: int| 0 <= i <= t ==> #[trigger] occupies(pos, step(q, r, k, -i)),
        !occupies(pos, step(q, r, k, -(t + 1))),
    decreases (if k == 1 { r - j } else { q - j }) - COORD_MIN,
{
    let c = step(q, r, k, -j);
    assert(occupies(pos, c));
    assert(pos.contains((c.0 as i32, c.1 as i32)));
    if occupies(pos, step(q, r, k, -(j + 1))) {
        assert forall|i: int| 0 <= i <= j + 1 implies #[trigger] occupies(pos, step(q, r, k, -i)) by {
            if i <= j {
                assert(occupies(pos, step(q, r, k, -i)));
            }
        }
        lemma_run_start(pos, q, r, k, j + 1)
    } else {
        j
    }
}

/// If no cell of `pos` starts six in a row, `pos` holds no six in a row.
proof fn lemma_no_six(pos: Set<Coord>)
    requires
        cells_in_bounds(pos),
        forall|c: Coord, k: int| pos.contains(c) && 0 <= k < 3 ==> #[trigger] clear_at(pos, c.0 as int, c.1 as int, k),
    ensures
        !has_six(pos),
{
    if has_six(pos) {
        let (q, r, k) = choose|q: int, r: int, k: int| 0 <= k < 3 && #[trigger] six_from(pos, q, r, k);
        assert(occupies(pos, step(q, r, k, 0)));
        assert forall|i: int| 0 <= i <= 0 implies #[trigger] occupies(pos, step(q, r, k, -i)) by {
            assert(step(q, r, k, -i) == step(q, r, k, 0));
        }
        let t = lemma_run_start(pos, q, r, k, 0);
        let u = step(q, r, k, -t);
        assert(occupies(pos, u));
        let c: Coord = (u.0 as i32, u.1 as i32);
        assert(pos.contains(c));
        assert(clear_at(pos, c.0 as int, c.1 as int, k));
        assert(step(u.0, u.1, k, -1) == step(q, r, k, -(t + 1)));
        assert forall|i: int| 0 <= i < 6 implies #[trigger] occupies(pos, step(u.0, u.1, k, i)) by {
            if i <= t {
                assert(step(u.0, u.1, k, i) == step(q, r, k, -(t - i)));
                assert(occupies(pos, step(q, r, k, -(t - i))));
            } else {
                assert(step(u.0, u.1, k, i) == step(q, r, k, i - t));
                assert(occupies(pos, step(q, r, k, i - t)));
            }
        }
        assert(six_from(pos, c.0 as int, c.1 as int, k));
    }
}

/// The cell `i` steps from `(q, r)` along axis `k`, in 64-bit integers.
fn step_exec(q: i32, r: i32, k: usize, i: i64) -> (c: (i64, i64))
    requires
        k < 3,
        -0x1_0000_0000 <= i <= 0x1_0000_0000,
    ensures
        c.0 == step(q as int, r as int, k as int, i as int).0,
        c.1 == step(q as int, r as int, k as int, i as int).1,
{
    if k == 0 {
        (q as i64 + i, r as i64 - i)
    } else if k == 1 {
        (q as i64, r as i64 + i)
    } else {
        (q as i64 + i, r as i64)
    }
}

/// The number of cells of `pos` in a row from `(q, r)` along axis `k`.
fn run_length(pos: &FxHashSet<Coord>, q: i32, r: i32, k: usize) -> (count: i64)
    requires
        k < 3,
        cells_in_bounds(pos@),
        pos@.contains((q, r)),
    ensures
        count >= 1,
        forall|i: int| 0 <= i < count ==> #[trigger] occupies(pos@, step(q as int, r as int, k as int, i)),
        !occupies(pos@, step(q as int, r as int, k as int, count as int)),
{
    let mut count: i64 = 1;
    proof {
        assert forall|i: int| 0 <= i < 1 implies #[trigger] occupies(pos@, step(q as int, r as int, k as int, i)) by {
            assert(step(q as int, r as int, k as int, i) == (q as int, r as int));
        }
    }
    loop
        invariant
            k < 3,
            cells_in_bounds(pos@),
            1 <= count,
            forall|i: int| 0 <= i < count ==> #[trigger] occupies(pos@, step(q as int, r as int, k as int, i)),
        ensures
            count >= 1,
            forall|i: int| 0 <= i < count ==> #[trigger] occupies(pos@, step(q as int, r as int, k as int, i)),
            !occupies(pos@, step(q as int, r as int, k as int, count as int)),
        decreases (if k == 1 { COORD_MAX - r - count } else { COORD_MAX - q - count }) + 1,
    {
        let ghost last = step(q as int, r as int, k as int, count - 1);
        proof {
            assert(occupies(pos@, last));
            assert(pos@.contains((last.0 as i32, last.1 as i32)));
        }
        let (nq, nr) = step_exec(q, r, k, count);
        if !coord_set_contains(pos, (nq as i32, nr as i32)) {
            break;
        }
        count += 1;
    }
    count
}

/// `n` spaces.
pub open spec fn spaces(n: nat) -> Seq<char> {
    Seq::new(n, |i: int| ' ')
}

/// How the drawing shows cell `(q, r)`: `"X "`, `"O "` or `". "`.
pub open spec fn cell_text(moves: Set<Stone>, q: int, r: int) -> Seq<char> {
    if moves.contains((1u8, q as i32, r as i32)) {
        seq!['X', ' ']
    } else if moves.contains((2u8, q as i32, r as i32)) {
        seq!['O', ' ']
    } else {
        seq!['.', ' ']
    }
}

/// The cells `(q, lo)` to `(q, lo + n - 1)` of one row of the drawing.
pub open spec fn row_text(moves: Set<Stone>, q: int, lo: int, n: nat) -> Seq<char>
    decreases n,
{
    if n == 0 {
        Seq::empty()
    } else {
        row_text(moves, q, lo, (n - 1) as nat) + cell_text(moves, q, lo + n - 1)
    }
}

/// `a - b`, or 0 when `b > a`.
pub open spec fn sat_sub(a: int, b: int) -> int {
    if a >= b {
        a - b
    } else {
        0
    }
}

/// The first `k` rows of the drawing of window `w` with stones `moves`:
/// row `i` shows `q = max_q - i` for `r` from `min_r` to `max_r`, ends the
/// line, and indents the next line by `width - (i + 1)` spaces.
pub open spec fn rows_text(moves: Set<Stone>, w: (int, int, int, int), width: int, k: nat) -> Seq<char>
    decreases k,
{
    if k == 0 {
        Seq::empty()
    } else {
        let i = k - 1;
        rows_text(moves, w, width, i as nat) + row_text(moves, w.0 - i, w.3, sat_sub(w.2 + 1, w.3) as nat)
            + seq!['\n'] + spaces(sat_sub(width, i + 1) as nat)
    }
}

/// The drawing of the board: `width = max_q - min_q` spaces, then one row
/// per `q` from `max_q` down to `min_q`, each shifted one space further left.
pub open spec fn board_text(b: Board) -> Seq<char> {
    let w = window_ints(b.window);
    let width = w.0 - w.1;
    spaces(width as nat) + rows_text(b.moves@, w, width, sat_sub(w.0 + 1, w.1) as nat)
}

/// Where the cells of row `i` of a drawing of `width` and `ncols` columns
/// begin: after the first indent, each earlier row's two characters per
/// column, its line end and the indent of the next line.
pub open spec fn row_start(width: int, ncols: int, i: nat) -> int
    decreases i,
{
    if i == 0 {
        width
    } else {
        row_start(width, ncols, (i - 1) as nat) + 2 * ncols + 1 + sat_sub(width, i as int)
    }
}

proof fn lemma_row_text_at(moves: Set<Stone>, q: int, lo: int, n: nat, t: int)
    requires
        0 <= t < n,
    ensures
        row_text(moves, q, lo, n).len() == 2 * n,
        row_text(moves, q, lo, n)[2 * t] == cell_text(moves, q, lo + t)[0],
        row_text(moves, q, lo, n)[2 * t + 1] == ' ',
    decreases n,
{
    lemma_row_text_len(moves, q, lo, (n - 1) as nat);
    if t < n - 1 {
        lemma_row_text_at(moves, q, lo, (n - 1) as nat, t);
    }
}

proof fn lemma_row_text_len(moves: Set<Stone>, q: int, lo: int, n: nat)
    ensures
        row_text(moves, q, lo, n).len() == 2 * n,
    decreases n,
{
    if n > 0 {
        lemma_row_text_len(moves, q, lo, (n - 1) as nat);
    }
}

proof fn lemma_rows_text(moves: Set<Stone>, w: (int, int, int, int), width: int, k: nat, m: nat)
    requires
        m <= k,
        width >= 0,
    ensures
        width + rows_text(moves, w, width, m).len() == row_start(width, sat_sub(w.2 + 1, w.3), m),
        rows_text(moves, w, width, m).len() <= rows_text(moves, w, width, k).len(),
        forall|x: int| 0 <= x < rows_text(moves, w, width, m).len() ==> #[trigger] rows_text(moves, w, width, k)[x]
            == rows_text(moves, w, width, m)[x],
    decreases k,
{
    let ncols = sat_sub(w.2 + 1, w.3);
    if k > 0 {
        let i = k - 1;
        lemma_row_text_len(moves, w.0 - i, w.3, ncols as nat);
        if m < k {
            lemma_rows_text(moves, w, width, (k - 1) as nat, m);
        } else {
            lemma_rows_text(moves, w, width, (k - 1) as nat, (k - 1) as nat);
        }
    }
}

/// The drawing shows every stone inside its window: at the place of cell
/// `(q, r)` (row `max_q - q`, column `r - min_r`) stands `X` for a stone of
/// X, `O` for a stone of O and `.` for a free cell, followed by a space.
pub proof fn law_drawing_shows_stones(b: Board, q: i32, r: i32)
    requires
        b.cells_ok(),
        b.window.1 <= q <= b.window.0,
        b.window.3 <= r <= b.window.2,
    ensures
        ({
            let w = window_ints(b.window);
            let text = board_text(b);
            let pos = row_start(w.0 - w.1, w.2 + 1 - w.3, (w.0 - q) as nat) + 2 * (r - w.3);
            &&& 0 <= pos && pos + 1 < text.len()
            &&& b.moves@.contains((1u8, q, r)) ==> text[pos] == 'X'
            &&& b.moves@.contains((2u8, q, r)) ==> text[pos] == 'O'
            &&& !b.moves@.contains((1u8, q, r)) && !b.moves@.contains((2u8, q, r)) ==> text[pos] == '.'
            &&& text[pos + 1] == ' '
        }),
{
    let w = window_ints(b.window);
    let width = w.0 - w.1;
    let ncols = w.2 + 1 - w.3;
    let k = (w.0 + 1 - w.1) as nat;
    let i = (w.0 - q) as nat;
    let t = r - w.3;
    let mv = b.moves@;
    lemma_rows_text(mv, w, width, k, (i + 1) as nat);
    lemma_rows_text(mv, w, width, (i + 1) as nat, i);
    lemma_row_text_at(mv, w.0 - i, w.3, ncols as nat, t);
    lemma_row_start_nonneg(width, ncols, i);
    let rows = rows_text(mv, w, width, (i + 1) as nat);
    let before = rows_text(mv, w, width, i);
    let row = row_text(mv, w.0 - i, w.3, ncols as nat);
    assert(rows == before + row + seq!['\n'] + spaces(sat_sub(width, i + 1int) as nat));
    let x = before.len() + 2 * t;
    assert(rows[x] == row[2 * t]);
    assert(rows[x + 1] == row[2 * t + 1]);
    let text = board_text(b);
    assert(text == spaces(width as nat) + rows_text(mv, w, width, k));
    assert(text[width + x] == rows_text(mv, w, width, k)[x]);
    assert(text[width + x + 1] == rows_text(mv, w, width, k)[x + 1]);
    if mv.contains((2u8, q, r)) && mv.contains((1u8, q, r)) {
        assert((2u8, q, r) == (1u8, q, r));
    }
}

proof fn lemma_row_start_nonneg(width: int, ncols: int, i: nat)
    requires
        width >= 0,
        ncols >= 0,
    ensures
        row_start(width, ncols, i) >= width,
    decreases i,
{
    if i > 0 {
        lemma_row_start_nonneg(width, ncols, (i - 1) as nat);
    }
}

/// A player, and the stone it places.
#[derive(Clone, Copy, PartialEq, Eq, Hash, Debug, Structural)]
pub enum Cell {
    X,
    O,
}

impl Cell {
    /// The player's number in stones: 1 for X, 2 for O.
    pub open spec fn spec_value(self) -> u8 {
        match self {
            Cell::X => 1,
            Cell::O => 2,
        }
    }

    /// The player's number in stones: 1 for X, 2 for O.
    pub fn value(self) -> (v: u8)
        ensures
            v == self.spec_value(),
    {
        match self {
            Cell::X => 1,
            Cell::O => 2,
        }
    }

    /// The other player.
    pub open spec fn spec_other(self) -> Cell {
        match self {
            Cell::X => Cell::O,
            Cell::O => Cell::X,
        }
    }

    /// The letter that shows the player's stones: `"X"` or `"O"`.
    pub fn symbol(self) -> (s: &'static str)
        ensures
            s@ == (if self == Cell::X { seq!['X'] } else { seq!['O'] }),
    {
        proof {
            reveal_strlit("X");
            reveal_strlit("O");
        }
        match self {
            Cell::X => "X",
            Cell::O => "O",
        }
    }
}

/// The player whose turn number is `turn`: O on even turns, X on odd ones.
pub open spec fn player_of_turn(turn: u32) -> Cell {
    if turn % 2 == 0 {
        Cell::O
    } else {
        Cell::X
    }
}

pub struct Board {
    /// Every stone placed: `(player, q, r)` with 1 for X and 2 for O.
    pub moves: FxHashSet<Stone>,
    /// The turn in which each occupied cell was filled.
    pub turn_placed: FxHashMap<Coord, u32>,
    /// The record of the turns played, in the game notation.
    pub game_history: String,
    /// The drawing window `(max_q, min_q, max_r, min_r)`.
    pub window: (i32, i32, i32, i32),
    /// The number of the turn to be played.
    pub turn: u32,
    /// The player who has made six in a row, once the game is over.
    pub winner: Option<Cell>,
}

impl Board {
    /// The board's own invariant: every stone belongs to X or O and lies
    /// within the bounds, and the first turn has been played.
    pub open spec fn wf(&self) -> bool {
        &&& self.cells_ok()
        &&& self.turn >= 1
        &&& self.window_covers()
    }

    /// Whether the stones are X's or O's within the bounds, finitely many,
    /// and at most one on each cell.
    pub open spec fn cells_ok(&self) -> bool {
        &&& self.stones_ok()
        &&& forall|s: Stone, t: Stone|
            #[trigger] self.moves@.contains(s) && #[trigger] self.moves@.contains(t) && s.1 == t.1 && s.2
                == t.2 ==> s == t
        &&& self.moves@.finite()
    }

    /// Whether every stone belongs to X or O and lies within the bounds.
    pub open spec fn stones_ok(&self) -> bool {
        forall|s: Stone|
            #[trigger] self.moves@.contains(s) ==> (s.0 == 1 || s.0 == 2) && in_bounds(s.1 as int) && in_bounds(
                s.2 as int,
            )
    }

    /// Whether the drawing window shows every stone with six cells to spare
    /// on each side.
    pub open spec fn window_covers(&self) -> bool {
        forall|s: Stone|
            #[trigger] self.moves@.contains(s) ==> self.window.1 <= s.1 - 6 && s.1 + 6 <= self.window.0
                && self.window.3 <= s.2 - 6 && s.2 + 6 <= self.window.2
    }

    /// Whether the number of stones is that of the turns played: one stone
    /// in the first turn, two in each one after.
    pub open spec fn stones_match_turns(&self) -> bool {
        self.moves@.len() == 2 * self.turn - 3
    }

    /// Whether a stone of either player stands on `c`.
    pub open spec fn is_occupied(&self, c: Coord) -> bool {
        self.moves@.contains((1u8, c.0, c.1)) || self.moves@.contains((2u8, c.0, c.1))
    }

    /// The player to move.
    pub open spec fn spec_current_player(&self) -> Cell {
        player_of_turn(self.turn)
    }

    /// Whether `next` is this board after its player placed the stones `m`,
    /// leaving aside the winner: the stones are added, each cell records
    /// the turn, the drawing window grows around both, the game record gains
    /// the turn, and the turn passes.
    pub open spec fn played_to(&self, next: Board, m: [(i32, i32); 2]) -> bool {
        let p = self.spec_current_player();
        &&& next.moves@ == self.moves@.insert((p.spec_value(), m[0].0, m[0].1)).insert(
            (p.spec_value(), m[1].0, m[1].1),
        )
        &&& next.turn_placed@ == self.turn_placed@.insert(m[0], self.turn).insert(m[1], self.turn)
        &&& window_ints(next.window) == grow_window(
            grow_window(window_ints(self.window), m[0].0 as int, m[0].1 as int),
            m[1].0 as int,
            m[1].1 as int,
        )
        &&& next.game_history@ == self.game_history@ + turn_record(
            self.turn - 1,
            m[0].0 as int,
            m[0].1 as int,
            m[1].0 as int,
            m[1].1 as int,
        )
        &&& next.turn == self.turn + 1
    }

    /// Whether the rules admit the two stones `m` now: the game is not over,
    /// the cells differ and both are free.
    pub open spec fn accepts(&self, m: [(i32, i32); 2]) -> bool {
        &&& self.winner is None
        &&& m[0] != m[1]
        &&& !self.is_occupied(m[0])
        &&& !self.is_occupied(m[1])
    }

    /// Whether the bookkeeping of a turn with stones `m` stays within the
    /// integer types: the cells lie within the bounds and the turn counter
    /// can grow.
    pub open spec fn has_room_for(&self, m: [(i32, i32); 2]) -> bool {
        &&& in_bounds(m[0].0 as int)
        &&& in_bounds(m[0].1 as int)
        &&& in_bounds(m[1].0 as int)
        &&& in_bounds(m[1].1 as int)
        &&& self.turn < u32::MAX
    }

    /// Whether the board is that of a new game: X's first stone stands on
    /// `(0, 0)`, placed in turn 1, the record is empty, the drawing window
    /// spans six cells around the origin, and O is to move in turn 2.
    pub open spec fn is_new_game(&self) -> bool {
        &&& self.moves@ == set![(1u8, 0i32, 0i32)]
        &&& self.turn_placed@ == map![(0i32, 0i32) => 1u32]
        &&& self.game_history@ == Seq::<char>::empty()
        &&& self.window == (6i32, -6i32, 6i32, -6i32)
        &&& self.turn == 2
        &&& self.winner == None::<Cell>
    }

    /// A new game: X's first stone stands on `(0, 0)` and O is to move.
    pub fn new() -> (b: Self)
        ensures
            b.wf(),
            b.is_new_game(),
    {
        let mut b = Board {
            moves: FxHashSet::default(),
            turn_placed: FxHashMap::default(),
            game_history: String::new(),
            window: (6, -6, 6, -6),
            turn: 2,
            winner: None,
        };
        stone_set_insert(&mut b.moves, (Cell::X.value(), 0, 0));
        coord_map_insert(&mut b.turn_placed, (0, 0), 1);
        proof {
            assert(b.moves@ =~= set![(1u8, 0i32, 0i32)]);
            assert(b.turn_placed@ =~= map![(0i32, 0i32) => 1u32]);
        }
        b
    }

    /// Back to the position of a new game.
    pub fn reset(&mut self)
        ensures
            final(self).wf(),
            final(self).is_new_game(),
    {
        self.moves.clear();
        stone_set_insert(&mut self.moves, (Cell::X.value(), 0, 0));
        self.turn_placed.clear();
        coord_map_insert(&mut self.turn_placed, (0, 0), 1);
        self.game_history = String::new();
        self.window = (6, -6, 6, -6);
        self.turn = 2;
        self.winner = None;
        proof {
            assert(self.moves@ =~= set![(1u8, 0i32, 0i32)]);
            assert(self.turn_placed@ =~= map![(0i32, 0i32) => 1u32]);
        }
    }

    /// The player to move: O on even turns, X on odd ones.
    pub fn current_player(&self) -> (c: Cell)
        ensures
            c == self.spec_current_player(),
    {
        if self.turn % 2 == 0 {
            Cell::O
        } else {
            Cell::X
        }
    }

    /// Places the current player's two stones `m`.
    ///
    /// Refused, with the board unchanged, when the game is over, when the
    /// two cells are the same, or when either cell holds a stone.  Otherwise
    /// both stones are placed, recorded in the game notation, the turn
    /// passes, and the result says whether the mover now has six in a row
    /// (and then is the winner).
    pub fn play(&mut self, m: [(i32, i32); 2]) -> (res: Result<bool, String>)
        requires
            old(self).stones_ok(),
            old(self).accepts(m) ==> old(self).has_room_for(m) && old(self).turn >= 1,
        ensures
            final(self).stones_ok(),
            old(self).cells_ok() ==> final(self).cells_ok(),
            old(self).wf() ==> final(self).wf(),
            res is Ok <==> old(self).accepts(m),
            res matches Err(e) ==> e@ == play_error(*old(self), m) && *final(self) == *old(self),
            res matches Ok(won) ==> {
                let p = old(self).spec_current_player();
                &&& old(self).played_to(*final(self), m)
                &&& won == has_six(player_cells(final(self).moves@, p.spec_value()))
                &&& final(self).winner == (if won { Some(p) } else { None::<Cell> })
            },
    {
        if self.winner.is_some() {
            return Err(String::from_str("Game is already over"));
        }
        if m[0].0 == m[1].0 && m[0].1 == m[1].1 {
            return Err(String::from_str("You must provide two different moves"));
        }
        let player = self.current_player();
        let pval = player.value();
        let other: u8 = if pval == 1 { 2 } else { 1 };

        let (q0, r0) = m[0];
        if stone_set_contains(&self.moves, (pval, q0, r0)) || stone_set_contains(&self.moves, (other, q0, r0)) {
            return Err(String::from_str("Cell is already occupied"));
        }
        let (q1, r1) = m[1];
        if stone_set_contains(&self.moves, (pval, q1, r1)) || stone_set_contains(&self.moves, (other, q1, r1)) {
            return Err(String::from_str("Cell is already occupied"));
        }

        stone_set_insert(&mut self.moves, (pval, q0, r0));
        coord_map_insert(&mut self.turn_placed, (q0, r0), self.turn);
        self.grow_window_around(q0, r0);
        stone_set_insert(&mut self.moves, (pval, q1, r1));
        coord_map_insert(&mut self.turn_placed, (q1, r1), self.turn);
        self.grow_window_around(q1, r1);

        push_turn_record(&mut self.game_history, (self.turn - 1) as i64, m);
        self.turn = self.turn + 1;
        proof {
            assert(player_of_turn(self.turn).spec_other() == player);
        }
        Ok(self.check_win())
    }

    /// A new game has one stone, placed in its first turn.
    pub proof fn law_new_game_count(&self)
        requires
            self.is_new_game(),
        ensures
            self.stones_match_turns(),
    {
        assert(self.moves@ =~= Set::empty().insert((1u8, 0i32, 0i32)));
    }

    /// A turn the rules admit places exactly two stones: when the stones
    /// matched the turns before, they match them after.
    pub proof fn law_turn_places_two(&self, next: Board, m: [(i32, i32); 2])
        requires
            self.wf(),
            self.accepts(m),
            self.played_to(next, m),
        ensures
            next.moves@.len() == self.moves@.len() + 2,
            self.stones_match_turns() ==> next.stones_match_turns(),
    {
        let p = self.spec_current_player().spec_value();
        assert(!self.moves@.contains((p, m[0].0, m[0].1)));
        assert(!self.moves@.contains((p, m[1].0, m[1].1)));
        assert((p, m[0].0, m[0].1) != (p, m[1].0, m[1].1));
    }

    /// The players alternate: after a turn, the other player is to move.
    pub proof fn law_players_alternate(&self, next: Board, m: [(i32, i32); 2])
        requires
            self.played_to(next, m),
        ensures
            next.spec_current_player() == self.spec_current_player().spec_other(),
    {
    }

    /// Whether the drawing window can be drawn: its rows run down from
    /// `max_q` to `min_q`, which is above `i32::MIN`, and its width fits an
    /// `i32`.
    pub open spec fn drawable(&self) -> bool {
        &&& self.window.1 <= self.window.0
        &&& self.window.1 > i32::MIN
        &&& self.window.0 - self.window.1 <= i32::MAX
    }

    /// The drawing of the board, row by row (see [`board_text`]).
    pub fn render(&self) -> (text: String)
        requires
            self.drawable(),
        ensures
            text@ == board_text(*self),
    {
        let (max_q, min_q, max_r, min_r) = self.window;
        let width: i32 = max_q - min_q;
        let ghost w = window_ints(self.window);
        let ghost mv = self.moves@;
        let mut output = String::new();
        let mut s: i32 = 0;
        while s < width
            invariant
                0 <= s <= width,
                output@ == spaces(s as nat),
            decreases width - s,
        {
            output.append(" ");
            s = s + 1;
            proof {
                reveal_strlit(" ");
                assert(output@ =~= spaces(s as nat));
            }
        }
        let ghost head = output@;
        let mut indent: i64 = 1;
        let mut i: i32 = max_q;
        while i >= min_q
            invariant
                self.drawable(),
                w == window_ints(self.window),
                mv == self.moves@,
                max_q == self.window.0,
                min_q == self.window.1,
                max_r == self.window.2,
                min_r == self.window.3,
                width == max_q - min_q,
                min_q - 1 <= i <= max_q,
                indent == max_q - i + 1,
                head == spaces(width as nat),
                output@ == head + rows_text(mv, w, width as int, (max_q - i) as nat),
            decreases i - min_q + 1,
        {
            let ghost before = output@;
            let ghost k = (max_q - i) as nat;
            let mut j: i32 = min_r;
            let ghost mut count: nat = 0;
            let mut done_row = min_r > max_r;
            while !done_row
                invariant
                    min_r <= max_r ==> min_r <= j <= max_r,
                    done_row ==> (min_r > max_r || j == max_r),
                    !done_row ==> min_r <= max_r,
                    count == (if done_row { sat_sub(max_r + 1, min_r as int) } else { j - min_r }),
                    output@ == before + row_text(mv, i as int, min_r as int, count),
                    mv == self.moves@,
                    min_r == self.window.3,
                    max_r == self.window.2,
                decreases (if done_row { 0 } else { max_r - j + 1 }),
            {
                if stone_set_contains(&self.moves, (1, i, j)) {
                    output.append("X ");
                } else if stone_set_contains(&self.moves, (2, i, j)) {
                    output.append("O ");
                } else {
                    output.append(". ");
                }
                proof {
                    reveal_strlit("X ");
                    reveal_strlit("O ");
                    reveal_strlit(". ");
                    assert(output@ =~= before + row_text(mv, i as int, min_r as int, (count + 1) as nat));
                    count = (count + 1) as nat;
                }
                if j == max_r {
                    done_row = true;
                } else {
                    j = j + 1;
                }
            }
            output.append("\n");
            proof {
                reveal_strlit("\n");
            }
            let mut t: i64 = 0;
            let pad: i64 = if width as i64 >= indent { width as i64 - indent } else { 0 };
            let ghost mid = output@;
            while t < pad
                invariant
                    0 <= t <= pad,
                    output@ == mid + spaces(t as nat),
                decreases pad - t,
            {
                output.append(" ");
                t = t + 1;
                proof {
                    reveal_strlit(" ");
                    assert(output@ =~= mid + spaces(t as nat));
                }
            }
            proof {
                assert(rows_text(mv, w, width as int, (k + 1) as nat) == rows_text(mv, w, width as int, k)
                    + row_text(mv, w.0 - k, w.3, sat_sub(w.2 + 1, w.3) as nat) + seq!['\n'] + spaces(
                    sat_sub(width as int, k + 1int) as nat,
                ));
                assert(output@ =~= head + rows_text(mv, w, width as int, (k + 1) as nat));
            }
            indent = indent + 1;
            i = i - 1;
        }
        output
    }

    /// Grows the drawing window to show six cells around `(q, r)`.
    fn grow_window_around(&mut self, q: i32, r: i32)
        requires
            in_bounds(q as int),
            in_bounds(r as int),
        ensures
            window_ints(final(self).window) == grow_window(window_ints(old(self).window), q as int, r as int),
            final(self).moves == old(self).moves,
            final(self).turn_placed == old(self).turn_placed,
            final(self).game_history == old(self).game_history,
            final(self).turn == old(self).turn,
            final(self).winner == old(self).winner,
    {
        let w = self.window;
        self.window = (
            if w.0 >= q + 6 { w.0 } else { q + 6 },
            if w.1 <= q - 6 { w.1 } else { q - 6 },
            if w.2 >= r + 6 { w.2 } else { r + 6 },
            if w.3 <= r - 6 { w.3 } else { r - 6 },
        );
    }

    /// The game record without its trailing space.
    pub fn export(&self) -> (s: String)
        ensures
            s@ == trim_end(self.game_history@),
    {
        trimmed_end(self.game_history.as_str())
    }

    /// Whether the player who moved last (the one not to move) has six in
    /// a row; if so, that player becomes the winner.
    pub fn check_win(&mut self) -> (won: bool)
        requires
            old(self).stones_ok(),
        ensures
            won == has_six(
                player_cells(old(self).moves@, old(self).spec_current_player().spec_other().spec_value()),
            ),
            final(self).winner == (if won {
                Some(old(self).spec_current_player().spec_other())
            } else {
                old(self).winner
            }),
            final(self).moves == old(self).moves,
            final(self).turn_placed == old(self).turn_placed,
            final(self).game_history == old(self).game_history,
            final(self).window == old(self).window,
            final(self).turn == old(self).turn,
    {
        let player = if self.current_player() == Cell::O {
            Cell::X
        } else {
            Cell::O
        };
        let pval = player.value();
        let ghost pos_spec = player_cells(self.moves@, pval);

        let stones = stone_set_to_vec(&self.moves);
        let mut positions: FxHashSet<Coord> = FxHashSet::default();
        for i in 0..stones.len()
            invariant
                stones@.to_set() == self.moves@,
                forall|c: Coord| #[trigger] positions@.contains(c) <==> exists|j: int|
                    0 <= j < i && stones@[j] == (pval, c.0, c.1),
        {
            let s = stones[i];
            if s.0 == pval {
                coord_set_insert(&mut positions, (s.1, s.2));
            }
            proof {
                assert forall|c: Coord| #[trigger] positions@.contains(c) <==> exists|j: int|
                    0 <= j < i + 1 && stones@[j] == (pval, c.0, c.1) by {
                    if positions@.contains(c) && c != (s.1, s.2) {
                        let j = choose|j: int| 0 <= j < i && stones@[j] == (pval, c.0, c.1);
                        assert(0 <= j < i + 1);
                    }
                    if exists|j: int| 0 <= j < i + 1 && stones@[j] == (pval, c.0, c.1) {
                        let j = choose|j: int| 0 <= j < i + 1 && stones@[j] == (pval, c.0, c.1);
                        if j < i {
                        } else {
                            assert(stones@[j] == s);
                        }
                    }
                }
            }
        }
        proof {
            assert forall|c: Coord| positions@.contains(c) <==> pos_spec.contains(c) by {
                if positions@.contains(c) {
                    let j = choose|j: int| 0 <= j < stones@.len() && stones@[j] == (pval, c.0, c.1);
                    assert(stones@.to_set().contains(stones@[j]));
                }
                if pos_spec.contains(c) {
                    assert(stones@.to_set().contains((pval, c.0, c.1)));
                    let j = choose|j: int| 0 <= j < stones@.len() && stones@[j] == (pval, c.0, c.1);
                }
            }
            assert(positions@ =~= pos_spec);
            assert forall|c: Coord| pos_spec.contains(c) implies in_bounds(c.0 as int) && in_bounds(c.1 as int) by {
                assert(self.moves@.contains((pval, c.0, c.1)));
            }
        }

        let cells = coord_set_to_vec(&positions);
        for a in 0..cells.len()
            invariant
                positions@ == pos_spec,
                cells_in_bounds(pos_spec),
                cells@.to_set() == pos_spec,
                self.winner == old(self).winner,
                self.moves == old(self).moves,
                self.turn_placed == old(self).turn_placed,
                self.game_history == old(self).game_history,
                self.window == old(self).window,
                self.turn == old(self).turn,
                player == old(self).spec_current_player().spec_other(),
                pos_spec == player_cells(old(self).moves@, player.spec_value()),
                forall|b: int, k: int| 0 <= b < a && 0 <= k < 3 ==> #[trigger] clear_at(
                    pos_spec,
                    cells@[b].0 as int,
                    cells@[b].1 as int,
                    k,
                ),
        {
            let (q, r) = cells[a];
            proof {
                assert(cells@.to_set().contains(cells@[a as int]));
            }
            for k in 0..3usize
                invariant
                    positions@ == pos_spec,
                    cells_in_bounds(pos_spec),
                    pos_spec.contains((q, r)),
                    self.winner == old(self).winner,
                    self.moves == old(self).moves,
                    self.turn_placed == old(self).turn_placed,
                    self.game_history == old(self).game_history,
                    self.window == old(self).window,
                    self.turn == old(self).turn,
                    player == old(self).spec_current_player().spec_other(),
                    pos_spec == player_cells(old(self).moves@, player.spec_value()),
                    forall|kk: int| 0 <= kk < k ==> #[trigger] clear_at(pos_spec, q as int, r as int, kk),
            {
                let (pq, pr) = step_exec(q, r, k, -1);
                if coord_set_contains(&positions, (pq as i32, pr as i32)) {
                    proof {
                        assert(occupies(pos_spec, step(q as int, r as int, k as int, -1)));
                    }
                } else {
                    let count = run_length(&positions, q, r, k);
                    if count >= 6 {
                        self.winner = Some(player);
                        proof {
                            assert(six_from(pos_spec, q as int, r as int, k as int));
                        }
                        return true;
                    }
                    proof {
                        assert(!occupies(pos_spec, step(q as int, r as int, k as int, count as int)));
                        assert(!six_from(pos_spec, q as int, r as int, k as int)) by {
                            if six_from(pos_spec, q as int, r as int, k as int) {
                                assert(occupies(pos_spec, step(q as int, r as int, k as int, count as int)));
                            }
                        }
                    }
                }
            }
            proof {
                assert forall|b: int, k: int| 0 <= b < a + 1 && 0 <= k < 3 implies #[trigger] clear_at(
                    pos_spec,
                    cells@[b].0 as int,
                    cells@[b].1 as int,
                    k,
                ) by {
                    if b == a {
                        assert(clear_at(pos_spec, q as int, r as int, k));
                    }
                }
            }
        }
        proof {
            assert forall|c: Coord, k: int| pos_spec.contains(c) && 0 <= k < 3 implies #[trigger] clear_at(
                pos_spec,
                c.0 as int,
                c.1 as int,
                k,
            ) by {
                assert(cells@.to_set().contains(c));
                let b = choose|b: int| 0 <= b < cells@.len() && cells@[b] == c;
                assert(clear_at(pos_spec, cells@[b].0 as int, cells@[b].1 as int, k));
            }
            lemma_no_six(pos_spec);
        }
        false
    }
}

} // verus!
