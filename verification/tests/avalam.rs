use game_engines::avalam::RawAvalamState;
use game_engines::game::{LoadError, MoveError};

type Move = ((usize, usize), (usize, usize));

fn sorted(mut v: Vec<Move>) -> Vec<Move> {
    v.sort();
    v
}

#[test]
fn avalam_initial_board_and_ratios() {
    let s = RawAvalamState::new();
    let board: Vec<i64> = vec![
         0,  0,  1, -1,  0,  0,  0,  0,  0,
         0,  1, -1,  1, -1,  0,  0,  0,  0,
         0, -1,  1, -1,  1, -1,  1,  0,  0,
         0,  1, -1,  1, -1,  1, -1,  1, -1,
         1, -1,  1, -1,  0, -1,  1, -1,  1,
        -1,  1, -1,  1, -1,  1, -1,  1,  0,
         0,  0,  1, -1,  1, -1,  1, -1,  0,
         0,  0,  0,  0, -1,  1, -1,  1,  0,
         0,  0,  0,  0,  0, -1,  1,  0,  0,
    ];
    let ratios: Vec<i64> = vec![
        0, 0, 1, 0, 0, 0, 0, 0, 0,
        0, 1, 0, 1, 0, 0, 0, 0, 0,
        0, 0, 1, 0, 1, 0, 1, 0, 0,
        0, 1, 0, 1, 0, 1, 0, 1, 0,
        1, 0, 1, 0, 0, 0, 1, 0, 1,
        0, 1, 0, 1, 0, 1, 0, 1, 0,
        0, 0, 1, 0, 1, 0, 1, 0, 0,
        0, 0, 0, 0, 0, 1, 0, 1, 0,
        0, 0, 0, 0, 0, 0, 1, 0, 0,
        0, 0, 0, 1, 0, 0, 0, 0, 0,
        0, 0, 1, 0, 1, 0, 0, 0, 0,
        0, 1, 0, 1, 0, 1, 0, 0, 0,
        0, 0, 1, 0, 1, 0, 1, 0, 1,
        0, 1, 0, 1, 0, 1, 0, 1, 0,
        1, 0, 1, 0, 1, 0, 1, 0, 0,
        0, 0, 0, 1, 0, 1, 0, 1, 0,
        0, 0, 0, 0, 1, 0, 1, 0, 0,
        0, 0, 0, 0, 0, 1, 0, 0, 0,
    ];
    assert_eq!(s.board, board);
    assert_eq!(s.ratios, ratios);
    assert_eq!(s.turn, 0);
    assert_eq!(s.curr_pid, 1);
}

#[test]
fn avalam_initial_score_moves_winner() {
    let s = RawAvalamState::new();
    assert_eq!(s.score(), (24, 24));
    let ms = s.get_legal_moves();
    assert_eq!(ms.len(), 292);
    assert!(ms.contains(&((4, 3), (3, 4))));
    assert!(!ms.contains(&((4, 4), (3, 4))));
    assert_eq!(s.winner(), 0);
}

#[test]
fn avalam_play_merges_stacks() {
    let s = RawAvalamState::new();
    let s2 = s.play(((4, 3), (3, 4))).unwrap();
    assert_eq!(s2.board[4 * 9 + 3], 0);
    assert_eq!(s2.board[3 * 9 + 4], -2);
    assert_eq!(s2.ratios[3 * 9 + 4] + s2.ratios[81 + 3 * 9 + 4], 2);
    assert_eq!(s2.ratios[4 * 9 + 3], 0);
    assert_eq!(s2.ratios[81 + 4 * 9 + 3], 0);
    assert_eq!(s2.turn, 1);
    assert_eq!(s2.curr_pid, 2);
    // the source state is untouched
    assert_eq!(s.board[4 * 9 + 3], -1);
    assert_eq!(s.turn, 0);
}

#[test]
fn avalam_play_rejects_empty_origin() {
    let s = RawAvalamState::new();
    // the centre cell starts empty, so moving from it is illegal
    assert!(matches!(s.play(((4, 4), (3, 4))), Err(MoveError::Illegal)));
}

#[test]
fn avalam_play_rejects_out_of_range() {
    let s = RawAvalamState::new();
    assert!(matches!(s.play(((9, 0), (8, 0))), Err(MoveError::OutOfRange)));
}

#[test]
fn avalam_play_rejects_non_adjacent() {
    let s = RawAvalamState::new();
    assert!(matches!(s.play(((0, 2), (2, 2))), Err(MoveError::Illegal)));
}

#[test]
fn avalam_played_move_not_legal_again() {
    let s = RawAvalamState::new();
    let m = ((4, 3), (3, 4));
    let s2 = s.play(m).unwrap();
    let ms = s2.get_legal_moves();
    assert!(!ms.contains(&m));
    for m2 in &ms {
        assert_ne!(m2.0, (4, 3));
    }
}

#[test]
fn avalam_tall_stack_stops_merging() {
    // merge until a stack of 5 exists, then no move may target it
    let s = RawAvalamState::new();
    let s2 = s.play(((4, 3), (3, 4))).unwrap(); // height 2 at (3,4)
    let s3 = s2.play(((2, 3), (3, 4))).unwrap(); // height 3
    let s4 = s3.play(((3, 3), (3, 4))).unwrap(); // height 4
    let s5 = s4.play(((2, 4), (3, 4))).unwrap(); // height 5
    assert_eq!(s5.board[3 * 9 + 4].abs(), 5);
    for m in s5.get_legal_moves() {
        assert_ne!(m.0, (3, 4));
        assert_ne!(m.1, (3, 4));
    }
}

#[test]
fn avalam_copy_equals_and_is_independent() {
    let s = RawAvalamState::new();
    let c = s.copy();
    assert!(s.equals(&c));
    assert!(c.equals(&s));
    let snapshot = s.save();
    let _child = c.play(((4, 3), (3, 4))).unwrap();
    assert_eq!(s.save(), snapshot);
    assert!(s.equals(&c));
}

#[test]
fn avalam_save_load_round_trip() {
    let s = RawAvalamState::new().play(((4, 3), (3, 4))).unwrap();
    let dump = s.save();
    assert_eq!(dump.len(), 245);
    let back = RawAvalamState::load(&dump).unwrap();
    assert!(back.equals(&s));
}

#[test]
fn avalam_load_rejects_bad_dumps() {
    let s = RawAvalamState::new();
    let dump = s.save();
    assert!(matches!(RawAvalamState::load(&dump[..100].to_vec()), Err(LoadError::WrongLength)));
    let mut bad_height = dump.clone();
    bad_height[0] = 9;
    assert!(matches!(RawAvalamState::load(&bad_height), Err(LoadError::OutOfDomain)));
    let mut bad_ratio = dump.clone();
    bad_ratio[81] = 5; // channel no longer sums to the stack height
    assert!(matches!(RawAvalamState::load(&bad_ratio), Err(LoadError::OutOfDomain)));
    let mut bad_pid = dump.clone();
    bad_pid[244] = 3;
    assert!(matches!(RawAvalamState::load(&bad_pid), Err(LoadError::OutOfDomain)));
}

#[test]
fn avalam_moves_are_symmetric_pairs() {
    // every legal move has occupied endpoints within reach of each other
    let s = RawAvalamState::new();
    for m in sorted(s.get_legal_moves()) {
        let ((a, b), (c, d)) = m;
        assert!(a.abs_diff(c) <= 1 && b.abs_diff(d) <= 1);
        assert!(s.board[a * 9 + b] != 0);
        assert!(s.board[c * 9 + d] != 0);
    }
}
