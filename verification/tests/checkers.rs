use game_engines::checkers::RawCheckersState;
use game_engines::game::{LoadError, MoveError};

type Move = ((usize, usize), (usize, usize));

fn sorted(mut v: Vec<Move>) -> Vec<Move> {
    v.sort();
    v
}

/// A position with a white man on local (3,4) and black men on (3,3) and
/// (4,2): white to move must capture, and the capture starts a chain.
fn chain_dump() -> Vec<i64> {
    vec![
        3, 3, 3, 0, 0, 3, 3, 3,
        3, 3, 0, 0, 0, 0, 3, 3,
        3, 0, 0, 0, 0, 0, 0, 3,
        0, 0, 0, -1, 1, 0, 0, 0,
        3, 0, -1, 0, 0, 0, 0, 3,
        3, 3, 0, 0, 0, 0, 3, 3,
        3, 3, 3, 0, 0, 3, 3, 3,
        0, 1, 0,
    ]
}

#[test]
fn checkers_initial_state() {
    let s = RawCheckersState::new();
    let base: Vec<i64> = vec![
        3, 3, 3, 1, 1, 3, 3, 3,
        3, 3, 0, 1, 1, 1, 3, 3,
        3, -1, 0, 0, 1, 1, 1, 3,
        -1, -1, -1, 0, 0, 1, 1, 1,
        3, -1, -1, -1, 0, 0, 1, 3,
        3, 3, -1, -1, -1, 0, 3, 3,
        3, 3, 3, -1, -1, 3, 3, 3,
    ];
    assert_eq!(s.board, base);
    assert_eq!(s.turn, 0);
    assert_eq!(s.curr_pid, 1);
    assert!(s.cached_moves.is_none());
    assert_eq!(s.score(), (12, 12));
    assert_eq!(s.winner(), 0);
}

#[test]
fn checkers_initial_moves_are_the_seven_slides() {
    let s = RawCheckersState::new();
    let expected: Vec<Move> = vec![
        ((2, 1), (3, 0)),
        ((2, 1), (3, 2)),
        ((2, 3), (3, 2)),
        ((2, 3), (3, 4)),
        ((2, 5), (3, 4)),
        ((2, 5), (3, 6)),
        ((2, 7), (3, 6)),
    ];
    assert_eq!(sorted(s.get_legal_moves()), expected);
}

#[test]
fn checkers_capture_is_forced() {
    let s = RawCheckersState::load(&chain_dump()).unwrap();
    // the white man could slide, but the available capture silences every
    // other move
    assert_eq!(s.get_legal_moves(), vec![((3, 4), (5, 2))]);
}

#[test]
fn checkers_capture_chain_keeps_the_mover() {
    let s = RawCheckersState::load(&chain_dump()).unwrap();
    let s2 = s.play(((3, 4), (5, 2))).unwrap();
    // a further capture waits: same mover, only continuations from the
    // landing square are offered
    assert_eq!(s2.curr_pid, 1);
    assert_eq!(s2.turn, 1);
    assert!(s2.cached_moves.is_some());
    assert_eq!(s2.get_legal_moves(), vec![((5, 2), (7, 4))]);
    // the jumped black man is gone
    assert_eq!(s2.score(), (1, 1));

    let s3 = s2.play(((5, 2), (7, 4))).unwrap();
    // chain over: turn passes, no cache, second black man gone
    assert_eq!(s3.curr_pid, 2);
    assert_eq!(s3.turn, 2);
    assert!(s3.cached_moves.is_none());
    assert_eq!(s3.score(), (1, 0));
    // the man reached the far row mid-chain and was crowned
    assert_eq!(s3.board[5 * 8 + 2], 2);
    // black has no pieces left, so white has won
    assert_eq!(s3.winner(), 1);
}

#[test]
fn checkers_played_move_not_legal_again() {
    let s = RawCheckersState::load(&chain_dump()).unwrap();
    let m = ((3, 4), (5, 2));
    let s2 = s.play(m).unwrap();
    assert!(!s2.get_legal_moves().contains(&m));
}

#[test]
fn checkers_play_rejects_out_of_range() {
    let s = RawCheckersState::new();
    assert!(matches!(s.play(((8, 0), (0, 0))), Err(MoveError::OutOfRange)));
}

#[test]
fn checkers_play_rejects_blocked_slide() {
    let s = RawCheckersState::new();
    assert!(matches!(s.play(((0, 1), (1, 2))), Err(MoveError::Illegal)));
}

#[test]
fn checkers_play_rejects_slide_while_chain_pending() {
    let s = RawCheckersState::load(&chain_dump()).unwrap();
    let s2 = s.play(((3, 4), (5, 2))).unwrap();
    // only the continuation is allowed, not a quiet move elsewhere
    assert!(matches!(s2.play(((5, 2), (6, 3))), Err(MoveError::Illegal)));
}

#[test]
fn checkers_mover_without_moves_loses() {
    // one white man boxed in by a black king it cannot jump: white to
    // move has pieces but no move, so black wins
    let dump: Vec<i64> = vec![
        3, 3, 3, 1, 0, 3, 3, 3,
        3, 3, 0, -2, 0, 0, 3, 3,
        3, 0, 0, -2, 0, 0, 0, 3,
        0, 0, 0, 0, 0, 0, 0, 0,
        3, 0, 0, 0, 0, 0, 0, 3,
        3, 3, 0, 0, 0, 0, 3, 3,
        3, 3, 3, 0, 0, 3, 3, 3,
        0, 1, 0,
    ];
    let s = RawCheckersState::load(&dump).unwrap();
    assert_eq!(s.score(), (1, 2));
    assert!(s.get_legal_moves().is_empty());
    assert_eq!(s.winner(), 2);
}

#[test]
fn checkers_copy_equals_and_is_independent() {
    let s = RawCheckersState::load(&chain_dump()).unwrap();
    let c = s.copy();
    assert!(s.equals(&c));
    let snapshot = s.save();
    let _child = c.play(((3, 4), (5, 2))).unwrap();
    assert_eq!(s.save(), snapshot);
}

#[test]
fn checkers_save_load_round_trip() {
    let s = RawCheckersState::new();
    let back = RawCheckersState::load(&s.save()).unwrap();
    assert!(back.equals(&s));

    // a state with a pending chain round-trips too, cache included
    let pending = RawCheckersState::load(&chain_dump())
        .unwrap()
        .play(((3, 4), (5, 2)))
        .unwrap();
    let dump = pending.save();
    assert_eq!(dump[58], 1);
    let back2 = RawCheckersState::load(&dump).unwrap();
    assert!(back2.equals(&pending));
    assert_eq!(back2.get_legal_moves(), vec![((5, 2), (7, 4))]);
}


/// A position where white's forced capture lands on a square with two
/// further captures: local white man on (2,6), black men on (2,5), (2,3)
/// and (3,4).
fn fork_dump() -> Vec<i64> {
    vec![
        3, 3, 3, 0, 0, 3, 3, 3,
        3, 3, 0, 0, 0, 0, 3, 3,
        3, 0, 0, -1, 0, -1, 1, 3,
        0, 0, 0, 0, -1, 0, 0, 0,
        3, 0, 0, 0, 0, 0, 0, 3,
        3, 3, 0, 0, 0, 0, 3, 3,
        3, 3, 3, 0, 0, 3, 3, 3,
        0, 1, 0,
    ]
}

#[test]
fn checkers_chain_with_two_continuations() {
    let s = RawCheckersState::load(&fork_dump()).unwrap();
    assert_eq!(s.get_legal_moves(), vec![((0, 5), (2, 3))]);
    let s2 = s.play(((0, 5), (2, 3))).unwrap();
    assert_eq!(s2.curr_pid, 1);
    let expected: Vec<Move> = vec![((2, 3), (4, 1)), ((2, 3), (4, 5))];
    assert_eq!(sorted(s2.get_legal_moves()), expected);
    // the two-branch pending state round-trips, cache included
    let back = RawCheckersState::load(&s2.save()).unwrap();
    assert!(back.equals(&s2));
}

#[test]
fn checkers_load_rejects_partial_or_empty_chains() {
    let pending = RawCheckersState::load(&fork_dump())
        .unwrap()
        .play(((0, 5), (2, 3)))
        .unwrap();
    let dump = pending.save();
    assert_eq!(dump.len(), 59 + 8); // two pending moves
    // a chain flagged but empty is no chain a play can leave behind
    let mut empty_chain = dump.clone();
    empty_chain.truncate(59);
    assert!(matches!(RawCheckersState::load(&empty_chain), Err(LoadError::OutOfDomain)));
    // a strict subset of the continuations is not a valid pending cache
    let mut partial_chain = dump.clone();
    partial_chain.truncate(59 + 4);
    assert!(matches!(RawCheckersState::load(&partial_chain), Err(LoadError::OutOfDomain)));
}

#[test]
fn checkers_load_rejects_bad_dumps() {
    let s = RawCheckersState::new();
    let dump = s.save();
    assert!(matches!(RawCheckersState::load(&dump[..20].to_vec()), Err(LoadError::WrongLength)));
    let mut bad_sentinel = dump.clone();
    bad_sentinel[0] = 0; // a corner must hold the sentinel
    assert!(matches!(RawCheckersState::load(&bad_sentinel), Err(LoadError::OutOfDomain)));
    let mut bad_piece = dump.clone();
    bad_piece[3] = 7;
    assert!(matches!(RawCheckersState::load(&bad_piece), Err(LoadError::OutOfDomain)));
    let mut bad_flag = dump.clone();
    bad_flag[58] = 2;
    assert!(matches!(RawCheckersState::load(&bad_flag), Err(LoadError::OutOfDomain)));
    let mut bad_tail = dump.clone();
    bad_tail[58] = 1;
    bad_tail.push(5); // a pending chain must come in groups of four values
    assert!(matches!(RawCheckersState::load(&bad_tail), Err(LoadError::WrongLength)));
    let mut fake_chain = dump.clone();
    fake_chain[58] = 1;
    // a well-shaped pending move that the board does not justify
    fake_chain.extend_from_slice(&[2, 1, 3, 0]);
    assert!(matches!(RawCheckersState::load(&fake_chain), Err(LoadError::OutOfDomain)));
}
