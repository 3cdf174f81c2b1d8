use game_engines::game::{LoadError, MoveError};
use game_engines::ultittt::{get_winner_of, RawUltiTTTState};

/// A position where sub-board 0 holds two marks of player 1 on its top
/// row, sub-board 1 is already won by player 2, and the next move may go
/// anywhere open.
fn mid_game_dump() -> Vec<i64> {
    let mut board: Vec<i64> = vec![0; 81];
    board[0] = 1; // sub-board 0, cell 0
    board[1] = 1; // sub-board 0, cell 1
    board[9 + 3] = 2; // sub-board 1, middle row won by player 2
    board[9 + 4] = 2;
    board[9 + 5] = 2;
    let mut win_state: Vec<i64> = vec![0; 9];
    win_state[1] = 2;
    let mut dump = board;
    dump.extend_from_slice(&win_state);
    dump.extend_from_slice(&[5, 1, -1]); // turn, mover, active sub-board
    dump
}

#[test]
fn ultittt_new_state_is_open() {
    let s = RawUltiTTTState::new();
    assert_eq!(s.board, vec![0i64; 81]);
    assert_eq!(s.win_state, vec![0i64; 9]);
    assert_eq!(s.turn, 0);
    assert_eq!(s.curr_pid, 1);
    assert_eq!(s.active_cell, -1);
    assert_eq!(s.winner(), 0);
    assert_eq!(s.score(), (0, 0));
    assert_eq!(s.get_legal_moves().len(), 81);
}

#[test]
fn ultittt_alternating_subboard_is_drawn() {
    // full, no three in a row: the evaluator reports a draw
    let g: Vec<i64> = vec![1, 2, 1, 1, 2, 2, 2, 1, 1];
    assert_eq!(get_winner_of(&g), -1);
}

#[test]
fn ultittt_evaluator_finds_lines() {
    assert_eq!(get_winner_of(&vec![1, 1, 1, 0, 0, 0, 0, 0, 0]), 1);
    assert_eq!(get_winner_of(&vec![0, 0, 2, 0, 2, 0, 2, 0, 0]), 2);
    assert_eq!(get_winner_of(&vec![2, 0, 0, 0, 2, 0, 0, 0, 2]), 2);
    assert_eq!(get_winner_of(&vec![0, 0, 0, 0, 0, 0, 0, 0, 0]), 0);
}

#[test]
fn ultittt_won_line_beats_fullness() {
    // a full grid whose top row is won scores for the winner, not as a
    // draw
    assert_eq!(get_winner_of(&vec![1, 1, 1, 2, 2, 1, 1, 2, 2]), 1);
    // a line of drawn sub-boards never wins the outer evaluation
    assert_eq!(get_winner_of(&vec![-1, -1, -1, 1, 2, 1, 2, 1, 2]), -1);
}

#[test]
fn ultittt_ninth_mark_still_wins_its_subboard() {
    // sub-board 0 has eight marks and no line; player 1's ninth mark
    // fills it while completing the main diagonal
    let mut board: Vec<i64> = vec![0; 81];
    let sub0: [i64; 9] = [1, 2, 1, 2, 1, 2, 2, 1, 0];
    for (cell, v) in sub0.iter().enumerate() {
        board[cell] = *v;
    }
    let mut dump = board;
    dump.extend_from_slice(&[0; 9]); // every sub-board still open
    dump.extend_from_slice(&[8, 1, -1]);
    let s = RawUltiTTTState::load(&dump).unwrap();
    let s2 = s.play(((0, 0), (2, 2))).unwrap();
    assert_eq!(s2.win_state[0], 1);
}

#[test]
fn ultittt_play_constrains_next_mover() {
    let s = RawUltiTTTState::new();
    let s2 = s.play(((0, 0), (1, 1))).unwrap();
    assert_eq!(s2.board[4], 1); // sub-board 0, cell 4
    assert_eq!(s2.turn, 1);
    assert_eq!(s2.curr_pid, 2);
    assert_eq!(s2.active_cell, 4);
    let ms = s2.get_legal_moves();
    assert_eq!(ms.len(), 9);
    for m in &ms {
        assert_eq!(m.0, (1, 1)); // only the pointed-at sub-board is open
    }
    // the source state is untouched
    assert_eq!(s.board[4], 0);
    assert_eq!(s.active_cell, -1);
}

#[test]
fn ultittt_decided_subboard_never_offered() {
    let s = RawUltiTTTState::load(&mid_game_dump()).unwrap();
    let ms = s.get_legal_moves();
    assert_eq!(ms.len(), 81 - 2 - 9); // sub-board 1 closed, two cells taken
    for m in &ms {
        assert_ne!(m.0, (0, 1)); // no move lands in the won sub-board
    }
}

#[test]
fn ultittt_winning_a_subboard_updates_the_cache() {
    let s = RawUltiTTTState::load(&mid_game_dump()).unwrap();
    let s2 = s.play(((0, 0), (0, 2))).unwrap();
    assert_eq!(s2.win_state[0], 1);
    assert_eq!(s2.win_state[1], 2);
    assert_eq!(s2.active_cell, 2); // sub-board 2 is still open
    assert_eq!(s2.curr_pid, 2);
    assert_eq!(s2.winner(), 0);
}

#[test]
fn ultittt_played_cell_not_legal_again() {
    let s = RawUltiTTTState::new();
    let m = ((1, 2), (2, 0));
    let s2 = s.play(m).unwrap();
    assert!(!s2.get_legal_moves().contains(&m));
}

#[test]
fn ultittt_play_rejects_out_of_range() {
    let s = RawUltiTTTState::new();
    assert!(matches!(s.play(((3, 0), (0, 0))), Err(MoveError::OutOfRange)));
}

#[test]
fn ultittt_play_rejects_occupied_cell() {
    let s = RawUltiTTTState::load(&mid_game_dump()).unwrap();
    assert!(matches!(s.play(((0, 0), (0, 0))), Err(MoveError::Illegal)));
}

#[test]
fn ultittt_play_rejects_wrong_subboard() {
    let s = RawUltiTTTState::new();
    let s2 = s.play(((0, 0), (1, 1))).unwrap();
    // the next move must go to sub-board 4, not sub-board 0
    assert!(matches!(s2.play(((0, 0), (0, 0))), Err(MoveError::Illegal)));
}

#[test]
fn ultittt_three_subboards_win_the_game() {
    let mut board: Vec<i64> = vec![0; 81];
    for sub in 0..3 {
        for cell in 0..3 {
            board[9 * sub + cell] = 1; // top row of each sub-board
        }
    }
    let mut dump = board;
    dump.extend_from_slice(&[1, 1, 1, 0, 0, 0, 0, 0, 0]); // win cache
    dump.extend_from_slice(&[18, 2, -1]);
    let s = RawUltiTTTState::load(&dump).unwrap();
    assert_eq!(s.winner(), 1);
    assert_eq!(s.score(), (1, 0));
}

#[test]
fn ultittt_copy_equals_and_is_independent() {
    let s = RawUltiTTTState::load(&mid_game_dump()).unwrap();
    let c = s.copy();
    assert!(s.equals(&c));
    let snapshot = s.save();
    let _child = c.play(((0, 0), (0, 2))).unwrap();
    assert_eq!(s.save(), snapshot);
}

#[test]
fn ultittt_save_load_round_trip() {
    let s = RawUltiTTTState::new().play(((2, 2), (0, 1))).unwrap();
    let dump = s.save();
    assert_eq!(dump.len(), 93);
    let back = RawUltiTTTState::load(&dump).unwrap();
    assert!(back.equals(&s));
}

#[test]
fn ultittt_load_rejects_bad_dumps() {
    let s = RawUltiTTTState::new();
    let dump = s.save();
    assert!(matches!(RawUltiTTTState::load(&dump[..80].to_vec()), Err(LoadError::WrongLength)));
    let mut bad_cell = dump.clone();
    bad_cell[7] = 5;
    assert!(matches!(RawUltiTTTState::load(&bad_cell), Err(LoadError::OutOfDomain)));
    let mut bad_cache = dump.clone();
    bad_cache[81] = 1; // the win cache must agree with the board
    assert!(matches!(RawUltiTTTState::load(&bad_cache), Err(LoadError::OutOfDomain)));
    let mut bad_active = dump.clone();
    bad_active[92] = 9;
    assert!(matches!(RawUltiTTTState::load(&bad_active), Err(LoadError::OutOfDomain)));
}
