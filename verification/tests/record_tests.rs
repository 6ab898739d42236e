use hexfish::board::Cell;
use hexfish::engine::{Engine, ImportError};
use hexfish::game_record::{read_record, RecordError};

#[test]
fn reads_the_exported_notation() {
    let (moves, err) = read_record("1. [1,0][2,0]; 2. [-3,12][0,-1];");
    assert_eq!(moves, vec![[(1, 0), (2, 0)], [(-3, 12), (0, -1)]]);
    assert_eq!(err, None);
}

#[test]
fn blank_turns_and_turns_without_a_dot_are_skipped() {
    let (moves, err) = read_record(";  ; hello ; 3. [4,5][6,7] ;;");
    assert_eq!(moves, vec![[(4, 5), (6, 7)]]);
    assert_eq!(err, None);
}

#[test]
fn empty_record_has_no_moves() {
    let (m, e) = read_record("");
    assert!(m.is_empty() && e.is_none());
    let (m, e) = read_record("   ");
    assert!(m.is_empty() && e.is_none());
}

#[test]
fn spaces_and_signs_inside_cells() {
    let (moves, err) = read_record("1.[ 1 , +2 ][ -3 ,4 ]");
    assert_eq!(moves, vec![[(1, 2), (-3, 4)]]);
    assert_eq!(err, None);
}

#[test]
fn parts_that_are_not_numbers_are_dropped() {
    let (moves, err) = read_record("1. [1,x,2][3,,4]");
    assert_eq!(moves, vec![[(1, 2), (3, 4)]]);
    assert_eq!(err, None);
}

#[test]
fn a_move_without_the_separator_is_malformed() {
    let (moves, err) = read_record("1. [1,0][2,0]; 2. [1,1] [2,2]; 3. [5,5][6,6]");
    assert_eq!(moves, vec![[(1, 0), (2, 0)]]);
    assert_eq!(err, Some(RecordError::Malformed));
}

#[test]
fn a_cell_with_three_numbers_is_refused() {
    let (moves, err) = read_record("1. [1,2,3][4,5]");
    assert!(moves.is_empty());
    assert_eq!(err, Some(RecordError::BadCoordinates));
}

#[test]
fn out_of_range_numbers_do_not_count() {
    let (_, err) = read_record("1. [2147483648,1][0,0]");
    assert_eq!(err, Some(RecordError::BadCoordinates));
    let (moves, err) = read_record("1. [-2147483648,2147483647][0,1]");
    assert_eq!(moves, vec![[(-2147483648, 2147483647), (0, 1)]]);
    assert_eq!(err, None);
}

#[test]
fn a_lone_sign_is_not_a_number() {
    let (_, err) = read_record("1. [-,1][2,3]");
    assert_eq!(err, Some(RecordError::BadCoordinates));
}

#[test]
fn only_the_first_two_cells_count() {
    let (moves, err) = read_record("1. [1,2][3,4][5,6]");
    assert_eq!(moves, vec![[(1, 2), (3, 4)]]);
    assert_eq!(err, None);
}

#[test]
fn import_replays_the_record() {
    let mut e = Engine::new(7);
    let r = e.import_record("1. [1,0][2,0]; 2. [0,1][0,2];");
    assert!(r.is_ok());
    assert_eq!(e.board.turn, 4);
    assert_eq!(e.stone_count(), 5);
    assert_eq!(e.export(), "1. [1,0][2,0]; 2. [0,1][0,2];");
}

#[test]
fn import_stops_at_a_refused_turn() {
    let mut e = Engine::new(7);
    let r = e.import_record("1. [1,0][2,0]; 2. [1,0][5,5]; 3. [9,9][8,8]");
    match r {
        Err(ImportError::Refused(msg)) => assert_eq!(msg, "Cell is already occupied"),
        other => panic!("unexpected result {:?}", other),
    }
    assert_eq!(e.board.turn, 3);
    assert_eq!(e.export(), "1. [1,0][2,0];");
}

#[test]
fn import_reports_an_unreadable_turn_after_playing_the_others() {
    let mut e = Engine::new(7);
    let r = e.import_record("1. [1,0][2,0]; 2. [0,1]");
    match r {
        Err(ImportError::Record(RecordError::Malformed)) => {}
        other => panic!("unexpected result {:?}", other),
    }
    assert_eq!(e.board.turn, 3);
}

#[test]
fn import_starts_from_a_new_game() {
    let mut e = Engine::new(7);
    e.play([(3, 3), (4, 4)]).unwrap();
    assert!(e.import_record("").is_ok());
    assert_eq!(e.board.turn, 2);
    assert_eq!(e.stone_count(), 1);
    assert_eq!(e.export(), "");
}

#[test]
fn import_of_a_winning_game_sets_the_winner() {
    let mut e = Engine::new(7);
    let record = "1. [5,5][6,6]; 2. [0,1][0,2]; 3. [7,7][8,8]; 4. [0,3][0,4]; 5. [9,9][10,10]; 6. [0,5][0,6]";
    assert!(e.import_record(record).is_ok());
    assert_eq!(e.board.winner, Some(Cell::X));
    let r = e.import_record(&format!("{}; 7. [1,1][2,2]", record));
    match r {
        Err(ImportError::Refused(msg)) => assert_eq!(msg, "Game is already over"),
        other => panic!("unexpected result {:?}", other),
    }
}

#[test]
fn exported_record_reads_back() {
    let mut b = hexfish::board::Board::new();
    let ms = vec![
        [(1, 0), (2, 0)],
        [(-3, 12), (0, -1)],
        [(2147483641, -2147483642), (5, 5)],
    ];
    for m in ms.iter() {
        b.play(*m).unwrap();
    }
    let (moves, err) = read_record(&b.export());
    assert_eq!(moves, ms);
    assert_eq!(err, None);
    let (moves, err) = read_record(&b.game_history);
    assert_eq!(moves, ms);
    assert_eq!(err, None);
}

#[test]
fn importing_an_export_rebuilds_the_game() {
    let mut e = Engine::new(7);
    e.play([(1, 0), (2, 0)]).unwrap();
    e.play([(0, 1), (-1, 1)]).unwrap();
    e.play([(3, -3), (4, -4)]).unwrap();
    let record = e.export();
    let hash_before = e.current_hash();
    let mut f = Engine::new(7);
    assert!(f.import_record(&record).is_ok());
    assert_eq!(f.export(), record);
    assert_eq!(f.board.turn, e.board.turn);
    assert_eq!(f.board.moves, e.board.moves);
    assert_eq!(f.x_needs(), e.x_needs());
    assert_eq!(f.o_needs(), e.o_needs());
    // the same game in the same engine hashes the same
    assert!(e.import_record(&record).is_ok());
    assert_eq!(e.current_hash(), hash_before);
}

#[test]
fn turns_after_a_refused_one_are_not_looked_at() {
    let mut e = Engine::new(7);
    let r = e.import_record("1. [1,0][2,0]; 2. [1,0][2147483647,5]; 3. [2147483647,2147483647][0,9]");
    match r {
        Err(ImportError::Refused(msg)) => assert_eq!(msg, "Cell is already occupied"),
        other => panic!("unexpected result {:?}", other),
    }
    assert_eq!(e.board.turn, 3);
}
