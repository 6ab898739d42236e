use hexfish::board::{Board, Cell};

fn play_ok(b: &mut Board, m: [(i32, i32); 2]) -> bool {
    match b.play(m) {
        Ok(w) => w,
        Err(e) => panic!("unexpected refusal: {}", e),
    }
}

#[test]
fn new_board_has_x_at_origin_and_o_to_move() {
    let b = Board::new();
    assert!(b.moves.contains(&(1, 0, 0)));
    assert_eq!(b.moves.len(), 1);
    assert_eq!(b.turn_placed.get(&(0, 0)), Some(&1));
    assert_eq!(b.turn, 2);
    assert_eq!(b.window, (6, -6, 6, -6));
    assert_eq!(b.winner, None);
    assert_eq!(b.current_player(), Cell::O);
    assert_eq!(b.export(), "");
}

#[test]
fn cell_values_and_symbols() {
    assert_eq!(Cell::X.value(), 1);
    assert_eq!(Cell::O.value(), 2);
    assert_eq!(Cell::X.symbol(), "X");
    assert_eq!(Cell::O.symbol(), "O");
}

#[test]
fn play_records_turn_and_passes_it() {
    let mut b = Board::new();
    assert!(!play_ok(&mut b, [(1, 0), (2, 0)]));
    assert_eq!(b.turn, 3);
    assert_eq!(b.current_player(), Cell::X);
    assert!(b.moves.contains(&(2, 1, 0)));
    assert!(b.moves.contains(&(2, 2, 0)));
    assert_eq!(b.turn_placed.get(&(1, 0)), Some(&2));
    assert_eq!(b.turn_placed.get(&(2, 0)), Some(&2));
    assert_eq!(b.game_history, "1. [1,0][2,0]; ");
    assert_eq!(b.export(), "1. [1,0][2,0];");
    assert_eq!(b.window, (8, -6, 6, -6));
}

#[test]
fn history_writes_negative_numbers() {
    let mut b = Board::new();
    play_ok(&mut b, [(-3, 12), (0, -1)]);
    play_ok(&mut b, [(-10, 0), (7, -7)]);
    assert_eq!(b.export(), "1. [-3,12][0,-1]; 2. [-10,0][7,-7];");
    assert_eq!(b.window, (13, -16, 18, -13));
}

#[test]
fn same_cell_twice_is_refused() {
    let mut b = Board::new();
    let r = b.play([(3, 3), (3, 3)]);
    assert_eq!(r, Err("You must provide two different moves".to_string()));
    assert_eq!(b.turn, 2);
    assert_eq!(b.moves.len(), 1);
}

#[test]
fn occupied_cell_is_refused() {
    let mut b = Board::new();
    assert_eq!(b.play([(0, 0), (1, 1)]), Err("Cell is already occupied".to_string()));
    play_ok(&mut b, [(1, 0), (2, 0)]);
    assert_eq!(b.play([(5, 5), (2, 0)]), Err("Cell is already occupied".to_string()));
    assert_eq!(b.moves.len(), 3);
    assert_eq!(b.turn, 3);
}

#[test]
fn six_in_a_row_wins_and_ends_the_game() {
    let mut b = Board::new();
    assert!(!play_ok(&mut b, [(1, 1), (2, 1)]));
    assert!(!play_ok(&mut b, [(10, 10), (11, 10)]));
    assert!(!play_ok(&mut b, [(3, 1), (4, 1)]));
    assert!(!play_ok(&mut b, [(10, 12), (11, 12)]));
    assert!(play_ok(&mut b, [(5, 1), (6, 1)]));
    assert_eq!(b.winner, Some(Cell::O));
    assert_eq!(b.play([(20, 20), (21, 20)]), Err("Game is already over".to_string()));
}

#[test]
fn five_in_a_row_does_not_win() {
    let mut b = Board::new();
    assert!(!play_ok(&mut b, [(1, 1), (2, 1)]));
    assert!(!play_ok(&mut b, [(10, 10), (11, 10)]));
    assert!(!play_ok(&mut b, [(3, 1), (4, 1)]));
    assert!(!play_ok(&mut b, [(10, 12), (11, 12)]));
    assert!(!play_ok(&mut b, [(5, 1), (7, 1)]));
    assert_eq!(b.winner, None);
}

#[test]
fn six_on_the_anti_diagonal_wins() {
    let mut b = Board::new();
    assert!(!play_ok(&mut b, [(20, 20), (21, 21)]));
    assert!(!play_ok(&mut b, [(1, -1), (2, -2)]));
    assert!(!play_ok(&mut b, [(22, 25), (23, 27)]));
    assert!(!play_ok(&mut b, [(3, -3), (4, -4)]));
    assert_eq!(b.winner, None);
    // X now holds (0,0) to (4,-4): five; one more makes six.
    assert!(!play_ok(&mut b, [(30, 30), (31, 31)]));
    assert!(play_ok(&mut b, [(5, -5), (40, 40)]));
    assert_eq!(b.winner, Some(Cell::X));
}

#[test]
fn check_win_looks_at_the_player_who_just_moved() {
    let mut b = Board::new();
    for q in 1..6 {
        b.moves.insert((1, q, 0));
    }
    // O is to move, so the last mover is X, who has (0,0)..(5,0).
    assert!(b.check_win());
    assert_eq!(b.winner, Some(Cell::X));
}

#[test]
fn check_win_ignores_the_player_to_move() {
    let mut b = Board::new();
    for r in 0..6 {
        b.moves.insert((2, 7, r));
    }
    assert!(!b.check_win());
    assert_eq!(b.winner, None);
}

#[test]
fn reset_returns_to_a_new_game() {
    let mut b = Board::new();
    play_ok(&mut b, [(1, 1), (2, 1)]);
    b.reset();
    assert_eq!(b.moves.len(), 1);
    assert!(b.moves.contains(&(1, 0, 0)));
    assert_eq!(b.turn, 2);
    assert_eq!(b.game_history, "");
    assert_eq!(b.window, (6, -6, 6, -6));
    assert_eq!(b.winner, None);
}

fn expected_drawing(b: &Board) -> String {
    let (max_q, min_q, max_r, min_r) = b.window;
    let width = (max_q - min_q) as usize;
    let mut out = " ".repeat(width);
    let mut indent = 1usize;
    let mut q = max_q;
    while q >= min_q {
        for r in min_r..=max_r {
            let cell = if b.moves.contains(&(1, q, r)) {
                "X "
            } else if b.moves.contains(&(2, q, r)) {
                "O "
            } else {
                ". "
            };
            out.push_str(cell);
        }
        out.push('\n');
        out.push_str(&" ".repeat(width.saturating_sub(indent)));
        indent += 1;
        q -= 1;
    }
    out
}

#[test]
fn new_board_drawing() {
    let b = Board::new();
    let text = b.render();
    let lines: Vec<&str> = text.split('\n').collect();
    assert_eq!(lines.len(), 14);
    assert_eq!(lines[0], format!("{}{}", " ".repeat(12), ". ".repeat(13)));
    assert_eq!(lines[6], format!("{}{}X {}", " ".repeat(6), ". ".repeat(6), ". ".repeat(6)));
    assert_eq!(lines[12], ". ".repeat(13));
    assert_eq!(lines[13], "");
    assert_eq!(text, expected_drawing(&b));
}

#[test]
fn drawing_shows_both_players_and_grows() {
    let mut b = Board::new();
    play_ok(&mut b, [(1, 0), (0, 7)]);
    let text = b.render();
    assert_eq!(text, expected_drawing(&b));
    let lines: Vec<&str> = text.split('\n').collect();
    // window is now (7, -6, 13, -6): 14 rows of 20 cells
    assert_eq!(lines.len(), 15);
    assert_eq!(lines[6], format!("{}{}O {}", " ".repeat(7), ". ".repeat(6), ". ".repeat(13)));
    assert_eq!(lines[7], format!("{}{}X {}O {}", " ".repeat(6), ". ".repeat(6), ". ".repeat(6), ". ".repeat(6)));
}

#[test]
fn check_win_reads_only_the_stones() {
    let mut b = Board::new();
    for q in 1..=6 {
        b.moves.insert((2, q, 5));
    }
    assert!(!b.check_win());
    assert_eq!(b.winner, None);
    b.turn = 3;
    assert!(b.check_win());
    assert_eq!(b.winner, Some(Cell::O));
}
