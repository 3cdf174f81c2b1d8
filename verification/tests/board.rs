use game_engines::avalam::RawAvalamState;
use game_engines::board::{gen_moves, BoardState};

type Move = ((usize, usize), (usize, usize));

fn sorted(mut v: Vec<Move>) -> Vec<Move> {
    v.sort();
    v
}

#[test]
fn board_new_matches_scratch_derivation() {
    let s = BoardState::new();
    assert_eq!(s.moves.len(), 292);
    assert_eq!(sorted(s.moves.clone()), sorted(gen_moves(&s.board)));
    let raw = RawAvalamState::new();
    assert_eq!(s.board, raw.board);
    assert_eq!(s.ratios, raw.ratios);
    assert_eq!(sorted(s.moves.clone()), sorted(raw.get_legal_moves()));
}

#[test]
fn board_stack_merges_like_the_other_engine() {
    let s = BoardState::new();
    let s2 = s.stack((4, 3), (3, 4));
    assert_eq!(s2.board[4 * 9 + 3], 0);
    assert_eq!(s2.board[3 * 9 + 4], -2);
    assert_eq!(s2.ratios[3 * 9 + 4] + s2.ratios[81 + 3 * 9 + 4], 2);
    // the source state is untouched
    assert_eq!(s.board[3 * 9 + 4], -1);
    assert_eq!(s.moves.len(), 292);
}

#[test]
fn board_incremental_cache_equals_recomputation() {
    // cross-check on a short playout: after every play the incrementally
    // maintained cache must equal the set derived from the board from
    // scratch
    let mut s = BoardState::new();
    for _ply in 0..4 {
        let m = s.moves[0];
        s = s.stack(m.0, m.1);
        assert_eq!(sorted(s.moves.clone()), sorted(gen_moves(&s.board)));
        assert!(!s.moves.contains(&m));
    }
}

#[test]
fn board_copy_is_deep_and_equal() {
    let s = BoardState::new();
    let c = s.copy();
    assert_eq!(s.board, c.board);
    assert_eq!(s.ratios, c.ratios);
    assert_eq!(s.moves, c.moves);
    let m = c.moves[0];
    let _child = c.stack(m.0, m.1);
    assert_eq!(s.board, c.board);
    assert_eq!(s.moves.len(), 292);
}

#[test]
fn board_gen_moves_respects_merge_limit() {
    let s = BoardState::new();
    let s2 = s.stack((4, 3), (3, 4)); // height 2 at (3,4)
    let s3 = s2.stack((2, 3), (3, 4)); // height 3
    let s4 = s3.stack((3, 3), (3, 4)); // height 4
    for m in gen_moves(&s4.board) {
        if m.1 == (3, 4) {
            // only single stacks may still climb onto the tower of four
            assert_eq!(s4.board[m.0 .0 * 9 + m.0 .1].abs(), 1);
        }
    }
}
