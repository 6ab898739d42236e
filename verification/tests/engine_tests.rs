use hexfish::board::Cell;
use hexfish::engine::{neighbor_offsets, Engine};

#[test]
fn neighbor_offsets_lists_the_24_cells_around() {
    let v = neighbor_offsets();
    assert_eq!(v.len(), 24);
    assert_eq!(v[0], (-2, -2));
    assert_eq!(v[11], (0, -1));
    assert_eq!(v[12], (0, 1));
    assert_eq!(v[23], (2, 2));
    assert!(!v.contains(&(0, 0)));
}

#[test]
fn new_engine_counts_the_first_stone() {
    let e = Engine::new(7);
    assert_eq!(e.x_needs(), [18, 0, 0, 0, 0, 0]);
    assert_eq!(e.o_needs(), [0, 0, 0, 0, 0, 0]);
    assert_eq!(e.stone_count(), 1);
    assert_eq!(e.board.current_player(), Cell::O);
    // (1,0) lies in five windows with the stone on (0,0), each worth 10.
    assert_eq!(e.cell_score((1, 0)), 50);
    assert_eq!(e.cell_score((2, 0)), 40);
    assert_eq!(e.cell_score((1, -1)), 50);
    assert_eq!(e.cell_score((1, 1)), 0);
    assert_eq!(e.cell_score((0, 0)), 180);
}

#[test]
fn top_cells_are_the_best_free_neighbours() {
    let e = Engine::new(7);
    let top = e.get_top_cells(6);
    assert_eq!(top.len(), 6);
    let mut sorted = top.clone();
    sorted.sort();
    assert_eq!(sorted, vec![(-1, 0), (-1, 1), (0, -1), (0, 1), (1, -1), (1, 0)]);
    let all = e.get_top_cells(100);
    assert_eq!(all.len(), 24);
    for w in all.windows(2) {
        assert!(e.cell_score(w[0]) >= e.cell_score(w[1]));
    }
    assert!(e.get_top_cells(0).is_empty());
}

#[test]
fn quiet_positions_pair_up_all_top_cells() {
    let mut e = Engine::new(7);
    let hash = e.current_hash();
    let (moves, scored, critical) = e.candidate_moves(25, 10);
    assert!(!critical);
    assert_eq!(moves.len(), 24 * 23 / 2);
    assert_eq!(scored.len(), moves.len());
    for (m, s) in moves.iter().zip(scored.iter()) {
        let key = if m.0 < m.1 { *m } else { (m.1, m.0) };
        assert_eq!(s.0, key);
        assert_eq!(s.1, e.cell_score(m.0));
        assert_eq!(s.2, e.cell_score(m.1));
    }
    assert_eq!(e.current_hash(), hash);
    assert_eq!(e.stone_count(), 1);
}

#[test]
fn add_then_remove_restores_the_position() {
    let mut e = Engine::new(7);
    let hash = e.current_hash();
    let xn = e.x_needs();
    let on = e.o_needs();
    let s = e.cell_score((1, 0));
    e.add_move((2, 1, 0));
    assert_ne!(e.current_hash(), hash);
    assert_eq!(e.o_needs()[0], 13);
    assert_eq!(e.cell_score((2, 0)), 10);
    e.remove_move((2, 1, 0));
    assert_eq!(e.current_hash(), hash);
    assert_eq!(e.x_needs(), xn);
    assert_eq!(e.o_needs(), on);
    assert_eq!(e.cell_score((1, 0)), s);
    assert_eq!(e.stone_count(), 1);
}

#[test]
fn engine_play_mirrors_the_board() {
    let mut e = Engine::new(7);
    assert_eq!(e.play([(1, 0), (2, 0)]), Ok(false));
    assert_eq!(e.stone_count(), 3);
    assert_eq!(e.board.turn, 3);
    assert_eq!(e.export(), "1. [1,0][2,0];");
    assert_eq!(e.play([(1, 0), (5, 5)]), Err("Cell is already occupied".to_string()));
    assert_eq!(e.stone_count(), 3);
}

#[test]
fn engine_play_reports_six_in_a_row() {
    let mut e = Engine::new(7);
    assert_eq!(e.play([(1, 1), (2, 1)]), Ok(false));
    assert_eq!(e.play([(10, 10), (11, 10)]), Ok(false));
    assert_eq!(e.play([(3, 1), (4, 1)]), Ok(false));
    assert_eq!(e.o_needs()[3], 3);
    assert_eq!(e.play([(10, 12), (11, 12)]), Ok(false));
    assert_eq!(e.play([(5, 1), (6, 1)]), Ok(true));
    assert_eq!(e.o_needs()[5], 1);
    assert_eq!(e.board.winner, Some(Cell::O));
    assert_eq!(e.play([(30, 30), (31, 30)]), Err("Game is already over".to_string()));
}

#[test]
fn critical_positions_try_the_critical_cells() {
    let mut e = Engine::new(7);
    assert_eq!(e.play([(1, 1), (2, 1)]), Ok(false));
    assert_eq!(e.play([(10, 10), (11, 10)]), Ok(false));
    assert_eq!(e.play([(3, 1), (4, 1)]), Ok(false));
    // O threatens (0,1) and (5,1); it is X's turn.
    assert!(e.cell_score((5, 1)) >= 10_000);
    let hash = e.current_hash();
    let count = e.stone_count();
    let (moves, scored, critical) = e.candidate_moves(20, 10);
    assert!(critical);
    assert!(!moves.is_empty());
    for m in &moves {
        assert!(m.0 < m.1);
        assert!(scored.iter().any(|s| s.0 == *m));
    }
    for s in &scored {
        assert!(moves.contains(&s.0));
        assert!(s.1 >= 10_000);
    }
    assert_eq!(e.current_hash(), hash);
    assert_eq!(e.stone_count(), count);
}

#[test]
fn reset_starts_over() {
    let mut e = Engine::new(7);
    assert_eq!(e.play([(1, 1), (2, 1)]), Ok(false));
    e.reset();
    assert_eq!(e.stone_count(), 1);
    assert_eq!(e.x_needs(), [18, 0, 0, 0, 0, 0]);
    assert_eq!(e.board.turn, 2);
    assert_eq!(e.export(), "");
}

#[test]
fn new_engine_counts_eighteen_windows_through_the_origin() {
    let e = Engine::new(11);
    assert_eq!(e.x_needs(), [18, 0, 0, 0, 0, 0]);
    assert_eq!(e.o_needs(), [0; 6]);
    assert_eq!(e.stone_count(), 1);
}

#[test]
fn reset_counts_like_a_new_engine() {
    let mut e = Engine::new(3);
    e.play([(1, 0), (2, 0)]).unwrap();
    e.play([(0, 1), (0, 2)]).unwrap();
    e.reset();
    assert_eq!(e.x_needs(), [18, 0, 0, 0, 0, 0]);
    assert_eq!(e.o_needs(), [0; 6]);
    assert_eq!(e.stone_count(), 1);
    assert_ne!(e.current_hash(), 0);
    assert_eq!(e.export(), "");
}

#[test]
fn same_seed_same_keys() {
    let a = Engine::new(42);
    let b = Engine::new(42);
    assert_eq!(a.current_hash(), b.current_hash());
}

#[test]
fn refused_turns_leave_a_new_engine_as_it_was() {
    let mut e = Engine::new(5);
    assert_eq!(e.play([(0, 0), (1, 0)]), Err("Cell is already occupied".to_string()));
    assert_eq!(e.play([(1, 0), (1, 0)]), Err("You must provide two different moves".to_string()));
    assert_eq!(e.board.turn, 2);
    assert_eq!(e.x_needs(), [18, 0, 0, 0, 0, 0]);
    assert_eq!(e.export(), "");
}

#[test]
fn candidates_are_found_next_to_the_coordinate_bound() {
    let max = hexfish::board::COORD_MAX;
    let mut e = Engine::new(9);
    e.play([(max, 0), (max, 1)]).unwrap();
    assert!(e.check_critical_fit());
    let (moves, scored, critical) = e.candidate_moves(5, 3);
    assert!(!critical);
    assert_eq!(moves.len(), 10);
    assert_eq!(scored.len(), 10);
}
