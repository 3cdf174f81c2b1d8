//! A second engine for the stacking game that keeps its legal-move set
//! incrementally: instead of rescanning the board after a play, it filters
//! the previous set. Filtering is enough because a play can never create a
//! new legal move — the origin empties and the destination only grows — so
//! the cache is proved to stay exactly the set that [`gen_moves`] would
//! derive from the new board from scratch.

use vstd::prelude::*;
use crate::game::{Coords, Move, abs_i64, abs_val, copy_moves};
use crate::avalam::{
    av_board_wf, av_ratios_wf, av_legal, av_idx, av_next_board, av_next_ratios,
    av_base_board, av_base_ratios, base_array, base_ratio_array, scan_legal_moves,
};

verus! {

broadcast use vstd::seq_lib::lemma_seq_contains_after_push;

/// The stacking game's board, ratio table and cached legal-move set.
pub struct BoardState {
    /// Signed stack heights, row-major, 81 cells.
    pub board: Vec<i64>,
    /// Buried-piece counts, 2 channels of 81 cells (player 1, player 2).
    pub ratios: Vec<i64>,
    /// The complete, duplicate-free set of moves legal on `board`.
    pub moves: Vec<Move>,
}

impl BoardState {
    /// The state's invariant: well-formed board and ratio table, and a
    /// cache holding exactly the board's legal moves, without duplicates.
    pub open spec fn wf(&self) -> bool {
        &&& av_board_wf(self.board@)
        &&& av_ratios_wf(self.board@, self.ratios@)
        &&& self.moves@.no_duplicates()
        &&& forall|m: Move| self.moves@.contains(m) <==> av_legal(self.board@, m)
    }

    /// Builds the initial position, with its move set derived from scratch.
    pub fn new() -> (r: Self)
        ensures
            r.board@ == av_base_board(),
            r.ratios@ == av_base_ratios(),
            r.wf(),
    {
        let board = base_array();
        let ratios = base_ratio_array(&board);
        proof {
            assert(forall|k: int| 0 <= k < 81 ==> -1i64 <= #[trigger] av_base_board()[k] <= 1i64);
            assert(ratios@ =~= av_base_ratios());
        }
        let moves = gen_moves(&board);
        BoardState { board, ratios, moves }
    }

    /// Deep-clones the state; the copy shares nothing with the source.
    pub fn copy(&self) -> (r: Self)
        ensures
            r.board@ == self.board@,
            r.ratios@ == self.ratios@,
            r.moves@ == self.moves@,
            self.wf() ==> r.wf(),
    {
        BoardState {
            board: self.board.clone(),
            ratios: self.ratios.clone(),
            moves: copy_moves(&self.moves),
        }
    }

    /// Plays the stack at `origin` onto `dest`, producing the next state.
    /// Callers pass only moves drawn from the cached set. The new cache is
    /// the old one with the dead moves filtered out, and it is proved equal
    /// to the legal-move set of the new board — re-deriving the set from
    /// scratch with [`gen_moves`] gives the same set.
    #[verifier::loop_isolation(false)]
    pub fn stack(&self, origin: Coords, dest: Coords) -> (r: Self)
        requires
            self.wf(),
            av_legal(self.board@, (origin, dest)),
        ensures
            r.board@ == av_next_board(self.board@, (origin, dest)),
            r.ratios@ == av_next_ratios(self.ratios@, (origin, dest)),
            r.wf(),
    {
        let mv: Move = (origin, dest);
        let (oi, oj) = origin;
        let (di, dj) = dest;
        let o: usize = oi * 9 + oj;
        let d: usize = di * 9 + dj;
        proof {
            assert(oj < 9 && dj < 9);
            assert(o != d);
        }
        let top: i64 = self.board[o];
        let bottom: i64 = self.board[d];
        let a_bottom: i64 = abs_i64(bottom);
        let merged: i64 = if top >= 0 {
            top + a_bottom
        } else {
            top - a_bottom
        };
        let mut board: Vec<i64> = self.board.clone();
        board.set(o, 0);
        board.set(d, merged);

        let t0: i64 = self.ratios[o];
        let t1: i64 = self.ratios[81 + o];
        let b0: i64 = self.ratios[d];
        let b1: i64 = self.ratios[81 + d];
        let mut ratios: Vec<i64> = self.ratios.clone();
        ratios.set(o, 0);
        ratios.set(81 + o, 0);
        ratios.set(d, t0 + b0);
        ratios.set(81 + d, t1 + b1);

        proof {
            assert(board@ =~= av_next_board(self.board@, mv));
            assert(ratios@ =~= av_next_ratios(self.ratios@, mv));
            assert(abs_val(merged) == abs_val(top) + abs_val(bottom));
            lemma_stack_only_shrinks(self.board@, mv);
            assert forall|k: int| 0 <= k < 81 implies
                0 <= #[trigger] ratios@[k] && 0 <= ratios@[81 + k]
                    && ratios@[k] + ratios@[81 + k] == abs_val(board@[k]) by {
                if k == o {
                    assert(ratios@[k] == 0);
                    assert(ratios@[81 + k] == 0);
                    assert(board@[k] == 0);
                } else if k == d {
                    assert(ratios@[k] == t0 + b0);
                    assert(ratios@[81 + k] == t1 + b1);
                    assert(board@[k] == merged);
                } else {
                    assert(ratios@[k] == self.ratios@[k]);
                    assert(ratios@[81 + k] == self.ratios@[81 + k]);
                    assert(board@[k] == self.board@[k]);
                }
            }
        }

        // Filter the cache: moves touching the emptied origin die; moves
        // touching the grown destination die when the merge limit is now
        // exceeded; every other move keeps both its endpoint heights.
        let mut moves: Vec<Move> = Vec::new();
        let mut t: usize = 0;
        while t < self.moves.len()
            invariant
                self.wf(),
                av_legal(self.board@, mv),
                mv == (origin, dest),
                board@ == av_next_board(self.board@, mv),
                av_board_wf(board@),
                t <= self.moves@.len(),
                moves@.no_duplicates(),
                forall|m: Move| moves@.contains(m) <==>
                    (self.moves@.take(t as int).contains(m) && av_legal(board@, m)),
            decreases self.moves@.len() - t,
        {
            let m: Move = self.moves[t];
            let touches_origin: bool = (m.0.0 == oi && m.0.1 == oj)
                || (m.1.0 == oi && m.1.1 == oj);
            let touches_dest: bool = (m.0.0 == di && m.0.1 == dj)
                || (m.1.0 == di && m.1.1 == dj);
            proof {
                assert(self.moves@.contains(m));
                assert(av_legal(self.board@, m));
                assert(!moves@.contains(m)) by {
                    if self.moves@.take(t as int).contains(m) {
                        let u = choose|u: int|
                            0 <= u < t && #[trigger] self.moves@.take(t as int)[u] == m;
                        assert(self.moves@[u] == m);
                        assert(self.moves@[t as int] == m);
                    }
                }
                assert(self.moves@.take(t as int + 1).contains(m)) by {
                    assert(self.moves@.take(t as int + 1)[t as int] == m);
                }
                assert forall|x: Move| self.moves@.take(t as int).contains(x)
                    implies #[trigger] self.moves@.take(t as int + 1).contains(x) by {
                    let u = choose|u: int|
                        0 <= u < t && #[trigger] self.moves@.take(t as int)[u] == x;
                    assert(self.moves@.take(t as int + 1)[u] == x);
                }
                assert forall|x: Move| self.moves@.take(t as int + 1).contains(x) && x != m
                    implies #[trigger] self.moves@.take(t as int).contains(x) by {
                    let u = choose|u: int|
                        0 <= u < t + 1 && #[trigger] self.moves@.take(t as int + 1)[u] == x;
                    assert(u < t);
                    assert(self.moves@.take(t as int)[u] == x);
                }
                lemma_kept_move_cases(self.board@, mv, m);
            }
            let mut pushed: bool = false;
            if !touches_origin {
                proof {
                    assert(mv.0.0 == oi && mv.0.1 == oj && mv.1.0 == di && mv.1.1 == dj);
                    assert(m.0 != mv.0) by {
                        if m.0 == mv.0 {
                            assert(m.0.0 == oi && m.0.1 == oj);
                        }
                    }
                    assert(m.1 != mv.0) by {
                        if m.1 == mv.0 {
                            assert(m.1.0 == oi && m.1.1 == oj);
                        }
                    }
                }
                if touches_dest {
                    let ax: i64 = abs_i64(board[m.0.0 * 9 + m.0.1]);
                    let ay: i64 = abs_i64(board[m.1.0 * 9 + m.1.1]);
                    proof {
                        assert(ax as int ==
                            abs_val(board@[av_idx(m.0.0 as int, m.0.1 as int)]));
                        assert(ay as int ==
                            abs_val(board@[av_idx(m.1.0 as int, m.1.1 as int)]));
                    }
                    if ax + ay <= 5 {
                        proof {
                            assert(av_legal(board@, m));
                        }
                        moves.push(m);
                        pushed = true;
                    } else {
                        proof {
                            assert(!av_legal(board@, m));
                        }
                    }
                } else {
                    proof {
                        assert(m.0 != mv.1) by {
                            if m.0 == mv.1 {
                                assert(m.0.0 == di && m.0.1 == dj);
                            }
                        }
                        assert(m.1 != mv.1) by {
                            if m.1 == mv.1 {
                                assert(m.1.0 == di && m.1.1 == dj);
                            }
                        }
                        assert(av_legal(board@, m));
                    }
                    moves.push(m);
                    pushed = true;
                }
            } else {
                proof {
                    assert(!av_legal(board@, m));
                }
            }
            proof {
                assert(pushed ==> av_legal(board@, m));
                assert(!pushed ==> !av_legal(board@, m));
                assert forall|x: Move| #[trigger] moves@.contains(x) implies
                    (self.moves@.take(t as int + 1).contains(x) && av_legal(board@, x)) by {
                }
                assert forall|x: Move|
                    self.moves@.take(t as int + 1).contains(x) && av_legal(board@, x)
                    implies #[trigger] moves@.contains(x) by {
                    if x != m {
                        assert(self.moves@.take(t as int).contains(x));
                    }
                }
            }
            t = t + 1;
        }
        proof {
            assert(self.moves@.take(self.moves@.len() as int) =~= self.moves@);
            lemma_stack_only_shrinks(self.board@, mv);
        }

        BoardState { board, ratios, moves }
    }
}

/// Derives the complete, duplicate-free legal-move set of a stacking-game
/// board from scratch.
pub fn gen_moves(board: &Vec<i64>) -> (r: Vec<Move>)
    requires
        av_board_wf(board@),
    ensures
        r@.no_duplicates(),
        forall|m: Move| r@.contains(m) <==> av_legal(board@, m),
{
    scan_legal_moves(board)
}

/// A play can only shrink the legal-move set: any move legal after the
/// play was already legal before it.
proof fn lemma_stack_only_shrinks(b: Seq<i64>, mv: Move)
    requires
        av_board_wf(b),
        av_legal(b, mv),
    ensures
        forall|m: Move| av_legal(av_next_board(b, mv), m) ==> av_legal(b, m),
{
    let o = av_idx(mv.0.0 as int, mv.0.1 as int);
    let d = av_idx(mv.1.0 as int, mv.1.1 as int);
    let b2 = av_next_board(b, mv);
    assert(mv.0.1 < 9 && mv.1.1 < 9);
    assert(o != d);
    assert(abs_val(b2[d]) == abs_val(b[o]) + abs_val(b[d]));
    assert forall|m: Move| av_legal(b2, m) implies av_legal(b, m) by {
        let x = av_idx(m.0.0 as int, m.0.1 as int);
        let y = av_idx(m.1.0 as int, m.1.1 as int);
        assert(m.0.1 < 9 && m.1.1 < 9);
        assert(x != y);
        assert(x != o && y != o) by {
            assert(b2[o] == 0);
        }
        if x == d {
            assert(b2[y] == b[y]);
            assert(abs_val(b[d]) < abs_val(b2[d]));
        } else if y == d {
            assert(b2[x] == b[x]);
            assert(abs_val(b[d]) < abs_val(b2[d]));
        } else {
            assert(b2[x] == b[x] && b2[y] == b[y]);
        }
    }
}

/// How each previously legal move fares after a play: dead if it touches
/// the emptied origin; if it touches the grown destination, alive exactly
/// when the merge limit still holds; otherwise alive.
proof fn lemma_kept_move_cases(b: Seq<i64>, mv: Move, m: Move)
    requires
        av_board_wf(b),
        av_legal(b, mv),
        av_legal(b, m),
    ensures
        (m.0 == mv.0 || m.1 == mv.0) ==> !av_legal(av_next_board(b, mv), m),
        m.0 != mv.0 && m.1 != mv.0 ==> (av_legal(av_next_board(b, mv), m) <==>
            abs_val(av_next_board(b, mv)[av_idx(m.0.0 as int, m.0.1 as int)])
                + abs_val(av_next_board(b, mv)[av_idx(m.1.0 as int, m.1.1 as int)]) <= 5),
        m.0 != mv.0 && m.1 != mv.0 && m.0 != mv.1 && m.1 != mv.1
            ==> av_legal(av_next_board(b, mv), m),
{
    let o = av_idx(mv.0.0 as int, mv.0.1 as int);
    let d = av_idx(mv.1.0 as int, mv.1.1 as int);
    let x = av_idx(m.0.0 as int, m.0.1 as int);
    let y = av_idx(m.1.0 as int, m.1.1 as int);
    let b2 = av_next_board(b, mv);
    assert(mv.0.1 < 9 && mv.1.1 < 9 && m.0.1 < 9 && m.1.1 < 9);
    assert(o != d);
    assert(x != y);
    assert((m.0 == mv.0) == (x == o));
    assert((m.1 == mv.0) == (y == o));
    assert(abs_val(b2[d]) == abs_val(b[o]) + abs_val(b[d]));
    if x == o || y == o {
        assert(b2[o] == 0);
    } else {
        if x == d {
            assert(b2[y] == b[y]);
        } else if y == d {
            assert(b2[x] == b[x]);
        } else {
            assert(b2[x] == b[x] && b2[y] == b[y]);
        }
    }
}

} // verus!
