//! The stacking/merge game on a 9×9 diamond board.
//!
//! A cell holds a signed stack height: the sign is the controlling player
//! (positive for player 1, negative for player 2), the magnitude is the
//! stack's height, 0 is an empty cell. A move takes the whole stack at its
//! origin and puts it on top of the stack at its destination; the merged
//! stack belongs to the mover of the origin stack and may never exceed
//! height 5. A parallel two-channel ratio table counts, per cell and per
//! player, how many of that player's single pieces are buried in the stack.

use vstd::prelude::*;
use crate::game::{Move, MoveError, LoadError, abs_val, abs_i64, next_pid_spec, next_pid};

verus! {

broadcast use vstd::seq_lib::lemma_seq_contains_after_push;

/// Index of cell (i, j) in the row-major board sequence.
pub open spec fn av_idx(i: int, j: int) -> int {
    i * 9 + j
}

/// Both coordinates lie on the 9×9 grid.
pub open spec fn av_in_bounds(i: int, j: int) -> bool {
    0 <= i < 9 && 0 <= j < 9
}

/// A board sequence is 81 cells of heights with magnitude at most 5.
pub open spec fn av_board_wf(b: Seq<i64>) -> bool {
    &&& b.len() == 81
    &&& forall|k: int| 0 <= k < 81 ==> abs_val(#[trigger] b[k]) <= 5
}

/// The move `m` is legal on board `b`: both endpoints are distinct occupied
/// cells on the grid at Chebyshev distance 1, and the merged stack would
/// not exceed height 5.
pub open spec fn av_legal(b: Seq<i64>, m: Move) -> bool {
    let oi = m.0.0 as int;
    let oj = m.0.1 as int;
    let di = m.1.0 as int;
    let dj = m.1.1 as int;
    &&& av_in_bounds(oi, oj)
    &&& av_in_bounds(di, dj)
    &&& !(oi == di && oj == dj)
    &&& -1 <= oi - di <= 1
    &&& -1 <= oj - dj <= 1
    &&& abs_val(b[av_idx(oi, oj)]) >= 1
    &&& abs_val(b[av_idx(di, dj)]) >= 1
    &&& abs_val(b[av_idx(oi, oj)]) + abs_val(b[av_idx(di, dj)]) <= 5
}

/// The complete legal-move set of a board.
pub open spec fn av_legal_set(b: Seq<i64>) -> Set<Move> {
    Set::new(|m: Move| av_legal(b, m))
}

/// The board of the initial position: 48 single pieces in a diamond, the
/// centre and the corners empty.
pub open spec fn av_base_board() -> Seq<i64> {
    seq![
         0i64,  0,  1, -1i64,  0,  0,  0,  0,  0,
         0,  1, -1i64,  1, -1i64,  0,  0,  0,  0,
         0, -1i64,  1, -1i64,  1, -1i64,  1,  0,  0,
         0,  1, -1i64,  1, -1i64,  1, -1i64,  1, -1i64,
         1, -1i64,  1, -1i64,  0, -1i64,  1, -1i64,  1,
        -1i64,  1, -1i64,  1, -1i64,  1, -1i64,  1,  0,
         0,  0,  1, -1i64,  1, -1i64,  1, -1i64,  0,
         0,  0,  0,  0, -1i64,  1, -1i64,  1,  0,
         0,  0,  0,  0,  0, -1i64,  1,  0,  0,
    ]
}

/// Returns the board of the initial position.
pub fn base_array() -> (r: Vec<i64>)
    ensures
        r@ == av_base_board(),
{
    let r: Vec<i64> = vec![
         0i64,  0,  1, -1,  0,  0,  0,  0,  0,
         0,  1, -1,  1, -1,  0,  0,  0,  0,
         0, -1,  1, -1,  1, -1,  1,  0,  0,
         0,  1, -1,  1, -1,  1, -1,  1, -1,
         1, -1,  1, -1,  0, -1,  1, -1,  1,
        -1,  1, -1,  1, -1,  1, -1,  1,  0,
         0,  0,  1, -1,  1, -1,  1, -1,  0,
         0,  0,  0,  0, -1,  1, -1,  1,  0,
         0,  0,  0,  0,  0, -1,  1,  0,  0,
    ];
    proof {
        assert(r@ =~= av_base_board());
    }
    r
}

/// The ratio table of the initial position: channel 0 counts player 1's
/// buried pieces, channel 1 player 2's; every starting stack is one single
/// piece of its controlling player.
pub open spec fn av_base_ratios() -> Seq<i64> {
    Seq::new(162, |k: int|
        if k < 81 {
            if av_base_board()[k] == 1i64 { 1i64 } else { 0i64 }
        } else {
            if av_base_board()[k - 81] == -1i64 { 1i64 } else { 0i64 }
        })
}

/// The ratio table is 162 cells (two channels of 81); channels are
/// non-negative and, per cell, sum to the stack height there.
pub open spec fn av_ratios_wf(b: Seq<i64>, r: Seq<i64>) -> bool {
    &&& r.len() == 162
    &&& forall|k: int| 0 <= k < 81 ==>
            0 <= #[trigger] r[k] && 0 <= r[81 + k] && r[k] + r[81 + k] == abs_val(b[k])
}

/// The stacking game's state: board, ratio table, ply counter and mover.
pub struct RawAvalamState {
    /// Signed stack heights, row-major, 81 cells.
    pub board: Vec<i64>,
    /// Buried-piece counts, 2 channels of 81 cells (player 1, player 2).
    pub ratios: Vec<i64>,
    /// Number of plies played so far.
    pub turn: u32,
    /// Whose turn it is: 1 or 2.
    pub curr_pid: u32,
}

impl RawAvalamState {
    /// The state's invariant: a well-formed board, a coherent ratio table,
    /// and a mover id of 1 or 2. In particular every occupied cell's height
    /// magnitude is between 1 and 5 and its two ratio channels sum exactly
    /// to that magnitude.
    pub open spec fn wf(&self) -> bool {
        &&& av_board_wf(self.board@)
        &&& av_ratios_wf(self.board@, self.ratios@)
        &&& self.curr_pid == 1 || self.curr_pid == 2
    }

    /// Two states are equal when board, ratio table, ply counter and mover
    /// all agree.
    pub open spec fn eq_spec(&self, other: &Self) -> bool {
        &&& self.board@ == other.board@
        &&& self.ratios@ == other.ratios@
        &&& self.turn == other.turn
        &&& self.curr_pid == other.curr_pid
    }

    /// Builds the initial position: player 1 moves first, ply 0.
    pub fn new() -> (r: Self)
        ensures
            r.board@ == av_base_board(),
            r.ratios@ == av_base_ratios(),
            r.turn == 0,
            r.curr_pid == 1,
            r.wf(),
    {
        let board = base_array();
        let ratios = base_ratio_array(&board);
        proof {
            assert(forall|k: int| 0 <= k < 81 ==> -1i64 <= #[trigger] av_base_board()[k] <= 1i64);
            assert(ratios@ =~= av_base_ratios());
        }
        RawAvalamState { board, ratios, turn: 0, curr_pid: 1 }
    }

    /// Deep-clones the state; the copy shares nothing with the source.
    pub fn copy(&self) -> (r: Self)
        ensures
            r.eq_spec(self),
            self.wf() ==> r.wf(),
    {
        RawAvalamState {
            board: self.board.clone(),
            ratios: self.ratios.clone(),
            turn: self.turn,
            curr_pid: self.curr_pid,
        }
    }

    /// The equality comparison of the shared contract.
    pub fn equals(&self, other: &Self) -> (r: bool)
        ensures
            r == self.eq_spec(other),
    {
        crate::game::vec_i64_eq(&self.board, &other.board)
            && crate::game::vec_i64_eq(&self.ratios, &other.ratios)
            && self.turn == other.turn
            && self.curr_pid == other.curr_pid
    }
}

/// Builds the ratio table matching a board of single pieces: channel 0
/// marks the cells player 1 occupies, channel 1 those of player 2.
pub(crate) fn base_ratio_array(board: &Vec<i64>) -> (r: Vec<i64>)
    requires
        board@.len() == 81,
    ensures
        r@.len() == 162,
        forall|k: int| 0 <= k < 81 ==>
            #[trigger] r@[k] == (if board@[k] == 1i64 { 1i64 } else { 0i64 }),
        forall|k: int| 81 <= k < 162 ==>
            #[trigger] r@[k] == (if board@[k - 81] == -1i64 { 1i64 } else { 0i64 }),
{
    let mut r: Vec<i64> = Vec::new();
    let mut k: usize = 0;
    while k < 81
        invariant
            board@.len() == 81,
            r@.len() == k,
            k <= 81,
            forall|t: int| 0 <= t < k ==>
                #[trigger] r@[t] == (if board@[t] == 1i64 { 1i64 } else { 0i64 }),
        decreases 81 - k,
    {
        if board[k] == 1 {
            r.push(1);
        } else {
            r.push(0);
        }
        k = k + 1;
    }
    let mut k: usize = 0;
    while k < 81
        invariant
            board@.len() == 81,
            r@.len() == 81 + k,
            k <= 81,
            forall|t: int| 0 <= t < 81 ==>
                #[trigger] r@[t] == (if board@[t] == 1i64 { 1i64 } else { 0i64 }),
            forall|t: int| 81 <= t < 81 + k ==>
                #[trigger] r@[t] == (if board@[t - 81] == -1i64 { 1i64 } else { 0i64 }),
        decreases 81 - k,
    {
        if board[k] == -1 {
            r.push(1);
        } else {
            r.push(0);
        }
        k = k + 1;
    }
    r
}

/// All four coordinates of the move lie on the 9×9 grid.
pub open spec fn av_move_in_range(m: Move) -> bool {
    m.0.0 < 9 && m.0.1 < 9 && m.1.0 < 9 && m.1.1 < 9
}

/// The signed height of the merged stack: the origin's sign rules the
/// result, the magnitudes add.
pub open spec fn av_merged(top: i64, bottom: i64) -> int {
    if top > 0 {
        top + abs_val(bottom)
    } else if top < 0 {
        top - abs_val(bottom)
    } else {
        0
    }
}

/// The board after playing `m`: the origin empties, the destination holds
/// the merged stack.
pub open spec fn av_next_board(b: Seq<i64>, m: Move) -> Seq<i64> {
    let o = av_idx(m.0.0 as int, m.0.1 as int);
    let d = av_idx(m.1.0 as int, m.1.1 as int);
    b.update(o, 0i64).update(d, av_merged(b[o], b[d]) as i64)
}

/// The ratio table after playing `m`: both of the origin's channels are
/// zeroed, the destination's channels receive their sums.
pub open spec fn av_next_ratios(rt: Seq<i64>, m: Move) -> Seq<i64> {
    let o = av_idx(m.0.0 as int, m.0.1 as int);
    let d = av_idx(m.1.0 as int, m.1.1 as int);
    rt.update(o, 0i64)
        .update(81 + o, 0i64)
        .update(d, (rt[o] + rt[d]) as i64)
        .update(81 + d, (rt[81 + o] + rt[81 + d]) as i64)
}

/// Number of cells with a positive height among the first `n`.
pub open spec fn av_count_pos(b: Seq<i64>, n: int) -> int
    decreases n,
{
    if n <= 0 {
        0
    } else {
        av_count_pos(b, n - 1) + if b[n - 1] > 0 { 1int } else { 0int }
    }
}

/// Number of cells with a negative height among the first `n`.
pub open spec fn av_count_neg(b: Seq<i64>, n: int) -> int
    decreases n,
{
    if n <= 0 {
        0
    } else {
        av_count_neg(b, n - 1) + if b[n - 1] < 0 { 1int } else { 0int }
    }
}

/// The winner of a board: 0 while any move remains, else -1 on a tie of
/// controlled towers, else the player controlling strictly more towers.
pub open spec fn av_winner_spec(b: Seq<i64>) -> int {
    if exists|m: Move| av_legal(b, m) {
        0
    } else if av_count_pos(b, 81) == av_count_neg(b, 81) {
        -1
    } else if av_count_pos(b, 81) < av_count_neg(b, 81) {
        2
    } else {
        1
    }
}

/// The legal moves whose origin is the cell (i, j): one for each of its
/// up-to-8 occupied neighbours onto which its stack may merge.
pub(crate) fn moves_for(board: &Vec<i64>, i: usize, j: usize) -> (r: Vec<Move>)
    requires
        av_board_wf(board@),
        i < 9,
        j < 9,
        abs_val(board@[av_idx(i as int, j as int)]) >= 1,
    ensures
        r@.no_duplicates(),
        forall|m: Move| r@.contains(m) <==>
            (av_legal(board@, m) && m.0.0 == i && m.0.1 == j),
{
    let v: i64 = abs_i64(board[i * 9 + j]);
    let mut r: Vec<Move> = Vec::new();
    let mut di: usize = 0;
    while di < 3
        invariant
            av_board_wf(board@),
            i < 9,
            j < 9,
            1 <= v <= 5,
            v as int == abs_val(board@[av_idx(i as int, j as int)]),
            di <= 3,
            r@.no_duplicates(),
            forall|m: Move| r@.contains(m) <==>
                (av_legal(board@, m) && m.0.0 == i && m.0.1 == j
                    && m.1.0 as int - i as int + 1 < di),
        decreases 3 - di,
    {
        let mut dj: usize = 0;
        while dj < 3
            invariant
                av_board_wf(board@),
                i < 9,
                j < 9,
                1 <= v <= 5,
                v as int == abs_val(board@[av_idx(i as int, j as int)]),
                di < 3,
                dj <= 3,
                r@.no_duplicates(),
                forall|m: Move| r@.contains(m) <==>
                    (av_legal(board@, m) && m.0.0 == i && m.0.1 == j
                        && (m.1.0 as int - i as int + 1 < di
                            || (m.1.0 as int - i as int + 1 == di
                                && m.1.1 as int - j as int + 1 < dj))),
            decreases 3 - dj,
        {
            if !(di == 1 && dj == 1) && i + di >= 1 && i + di <= 9 && j + dj >= 1 && j + dj <= 9 {
                let ni: usize = i + di - 1;
                let nj: usize = j + dj - 1;
                let nb: i64 = abs_i64(board[ni * 9 + nj]);
                if nb >= 1 && nb + v <= 5 {
                    let m: Move = ((i, j), (ni, nj));
                    proof {
                        assert(av_legal(board@, m));
                        assert(!r@.contains(m));
                    }
                    r.push(m);
                }
            }
            dj = dj + 1;
        }
        di = di + 1;
    }
    r
}

/// Scans all 81 cells once and collects the complete, duplicate-free set
/// of legal moves of a board.
pub(crate) fn scan_legal_moves(board: &Vec<i64>) -> (r: Vec<Move>)
    requires
        av_board_wf(board@),
    ensures
        r@.no_duplicates(),
        forall|m: Move| r@.contains(m) <==> av_legal(board@, m),
{
    let mut r: Vec<Move> = Vec::new();
    let mut k: usize = 0;
    while k < 81
        invariant
            av_board_wf(board@),
            k <= 81,
            r@.no_duplicates(),
            forall|m: Move| r@.contains(m) <==>
                (av_legal(board@, m) && av_idx(m.0.0 as int, m.0.1 as int) < k),
        decreases 81 - k,
    {
        let i: usize = k / 9;
        let j: usize = k % 9;
        let v: i64 = abs_i64(board[k]);
        if v >= 1 && v < 5 {
            let mut ms: Vec<Move> = moves_for(&board, i, j);
            proof {
                let rs = r@;
                let mss = ms@;
                assert forall|a: int, b: int|
                    0 <= a < rs.len() && 0 <= b < mss.len() implies rs[a] != mss[b] by {
                    assert(rs.contains(rs[a]));
                    assert(mss.contains(mss[b]));
                }
                vstd::seq_lib::lemma_no_dup_in_concat(rs, mss);
            }
            let ghost rs = r@;
            let ghost mss = ms@;
            r.append(&mut ms);
            proof {
                assert(i as int * 9 + j as int == k as int);
                assert forall|m: Move| #[trigger] r@.contains(m)
                    implies rs.contains(m) || mss.contains(m) by {
                    let u = choose|u: int| 0 <= u < r@.len() && #[trigger] r@[u] == m;
                    if u < rs.len() {
                        assert(rs[u] == m);
                    } else {
                        assert(mss[u - rs.len()] == m);
                    }
                }
                assert forall|m: Move| rs.contains(m) || mss.contains(m)
                    implies #[trigger] r@.contains(m) by {
                    if rs.contains(m) {
                        let u = choose|u: int| 0 <= u < rs.len() && #[trigger] rs[u] == m;
                        assert(r@[u] == m);
                    } else {
                        let u = choose|u: int| 0 <= u < mss.len() && #[trigger] mss[u] == m;
                        assert(r@[rs.len() + u] == m);
                    }
                }
                assert forall|m: Move| #[trigger] r@.contains(m)
                    implies av_legal(board@, m)
                        && av_idx(m.0.0 as int, m.0.1 as int) < k + 1 by {
                    if rs.contains(m) {
                    } else {
                        assert(mss.contains(m));
                    }
                }
                assert forall|m: Move|
                    av_legal(board@, m)
                        && av_idx(m.0.0 as int, m.0.1 as int) < k + 1
                    implies #[trigger] r@.contains(m) by {
                    if av_idx(m.0.0 as int, m.0.1 as int) < k {
                        assert(rs.contains(m));
                    } else {
                        assert(m.0.0 as int * 9 + m.0.1 as int == i as int * 9 + j as int);
                        assert(m.0.1 < 9 && j < 9);
                        assert(m.0.0 == i && m.0.1 == j);
                        assert(mss.contains(m));
                    }
                }
            }
        } else {
            proof {
                assert forall|m: Move| av_legal(board@, m)
                    && av_idx(m.0.0 as int, m.0.1 as int) == k implies false by {
                    assert(abs_val(board@[k as int]) >= 1);
                    assert(abs_val(board@[av_idx(m.1.0 as int, m.1.1 as int)]) >= 1);
                }
            }
        }
        k = k + 1;
    }
    r
}

impl RawAvalamState {
    /// The complete, duplicate-free set of moves available in this state;
    /// in this game both players may play the same set.
    pub fn get_legal_moves(&self) -> (r: Vec<Move>)
        requires
            self.wf(),
        ensures
            r@.no_duplicates(),
            forall|m: Move| r@.contains(m) <==> av_legal(self.board@, m),
    {
        scan_legal_moves(&self.board)
    }

    /// Whether any move remains on the board.
    pub(crate) fn _has_moves(&self) -> (r: bool)
        requires
            self.wf(),
        ensures
            r == exists|m: Move| av_legal(self.board@, m),
    {
        let mut k: usize = 0;
        while k < 81
            invariant
                self.wf(),
                k <= 81,
                forall|m: Move| av_legal(self.board@, m)
                    ==> av_idx(m.0.0 as int, m.0.1 as int) >= k,
            decreases 81 - k,
        {
            let i: usize = k / 9;
            let j: usize = k % 9;
            let v: i64 = abs_i64(self.board[k]);
            if v >= 1 && v < 5 {
                let ms: Vec<Move> = moves_for(&self.board, i, j);
                if ms.len() > 0 {
                    proof {
                        assert(ms@.contains(ms@[0]));
                    }
                    return true;
                }
            }
            proof {
                assert forall|m: Move| av_legal(self.board@, m)
                    implies av_idx(m.0.0 as int, m.0.1 as int) >= k + 1 by {
                    if av_idx(m.0.0 as int, m.0.1 as int) == k {
                        assert(m.0.0 == k / 9 && m.0.1 == k % 9);
                        assert(abs_val(self.board@[k as int]) >= 1);
                        assert(abs_val(self.board@[av_idx(m.1.0 as int, m.1.1 as int)]) >= 1);
                    }
                }
            }
            k = k + 1;
        }
        false
    }

    /// The score: how many towers each player controls.
    pub fn score(&self) -> (r: (usize, usize))
        requires
            self.board@.len() == 81,
        ensures
            r.0 == av_count_pos(self.board@, 81),
            r.1 == av_count_neg(self.board@, 81),
    {
        let mut p1: usize = 0;
        let mut p2: usize = 0;
        let mut k: usize = 0;
        while k < 81
            invariant
                self.board@.len() == 81,
                k <= 81,
                p1 == av_count_pos(self.board@, k as int),
                p2 == av_count_neg(self.board@, k as int),
                p1 <= k,
                p2 <= k,
            decreases 81 - k,
        {
            let v: i64 = self.board[k];
            if v > 0 {
                p1 = p1 + 1;
            }
            if v < 0 {
                p2 = p2 + 1;
            }
            k = k + 1;
        }
        (p1, p2)
    }

    /// The winner: 0 while the game is unfinished, -1 on a tie, otherwise
    /// the id of the player controlling more towers.
    pub fn winner(&self) -> (r: isize)
        requires
            self.wf(),
        ensures
            r as int == av_winner_spec(self.board@),
    {
        if self._has_moves() {
            return 0;
        }
        let (p1, p2) = self.score();
        if p1 == p2 {
            return -1;
        }
        if p1 < p2 {
            2
        } else {
            1
        }
    }

    /// Plays a move, producing the next state and leaving this one
    /// untouched. A coordinate off the board or a move outside the legal
    /// set is rejected.
    pub fn play(&self, c_move: Move) -> (r: Result<Self, MoveError>)
        requires
            self.wf(),
            self.turn < u32::MAX,
        ensures
            !av_move_in_range(c_move) ==> r == Err::<Self, MoveError>(MoveError::OutOfRange),
            av_move_in_range(c_move) && !av_legal(self.board@, c_move)
                ==> r == Err::<Self, MoveError>(MoveError::Illegal),
            av_legal(self.board@, c_move) ==> (r matches Ok(s)
                && s.board@ == av_next_board(self.board@, c_move)
                && s.ratios@ == av_next_ratios(self.ratios@, c_move)
                && s.turn == self.turn + 1
                && s.curr_pid == next_pid_spec(self.curr_pid)
                && s.wf()),
    {
        let ((oi, oj), (di, dj)) = c_move;
        if !(oi < 9 && oj < 9 && di < 9 && dj < 9) {
            return Err(MoveError::OutOfRange);
        }
        let o: usize = oi * 9 + oj;
        let d: usize = di * 9 + dj;
        let top: i64 = self.board[o];
        let bottom: i64 = self.board[d];
        let same: bool = oi == di && oj == dj;
        let adj: bool = (if oi >= di { oi - di } else { di - oi }) <= 1
            && (if oj >= dj { oj - dj } else { dj - oj }) <= 1;
        let a_top: i64 = abs_i64(top);
        let a_bottom: i64 = abs_i64(bottom);
        if same || !adj || a_top < 1 || a_bottom < 1 || a_top + a_bottom > 5 {
            proof {
                assert(!av_legal(self.board@, c_move));
            }
            return Err(MoveError::Illegal);
        }
        proof {
            assert(av_legal(self.board@, c_move));
        }

        let merged: i64 = if top >= 0 {
            top + a_bottom
        } else {
            top - a_bottom
        };
        proof {
            assert(merged as int == av_merged(top, bottom));
        }
        let mut board: Vec<i64> = self.board.clone();
        board.set(o, 0);
        board.set(d, merged);

        let t0: i64 = self.ratios[o];
        let t1: i64 = self.ratios[81 + o];
        let b0: i64 = self.ratios[d];
        let b1: i64 = self.ratios[81 + d];
        let mut ratios: Vec<i64> = self.ratios.clone();
        ratios.set(o, 0);
        ratios.set(81 + o, 0);
        ratios.set(d, t0 + b0);
        ratios.set(81 + d, t1 + b1);

        let s = RawAvalamState {
            board,
            ratios,
            turn: self.turn + 1,
            curr_pid: next_pid(self.curr_pid),
        };
        proof {
            assert(s.board@ =~= av_next_board(self.board@, c_move));
            assert(s.ratios@ =~= av_next_ratios(self.ratios@, c_move));
            let o = av_idx(oi as int, oj as int);
            let d = av_idx(di as int, dj as int);
            assert(o != d) by {
                assert(oj < 9 && dj < 9);
            }
            assert(s.wf()) by {
                assert(abs_val(merged) == abs_val(top) + abs_val(bottom));
                assert forall|k: int| 0 <= k < 81 implies
                    0 <= #[trigger] s.ratios@[k] && 0 <= s.ratios@[81 + k]
                        && s.ratios@[k] + s.ratios@[81 + k] == abs_val(s.board@[k]) by {
                    if k == o {
                        assert(s.ratios@[k] == 0);
                        assert(s.ratios@[81 + k] == 0);
                        assert(s.board@[k] == 0);
                    } else if k == d {
                        assert(s.ratios@[k] == t0 + b0);
                        assert(s.ratios@[81 + k] == t1 + b1);
                        assert(s.board@[k] == merged);
                        assert(t0 + b0 + (t1 + b1) == abs_val(top) + abs_val(bottom));
                    } else {
                        assert(s.ratios@[k] == self.ratios@[k]);
                        assert(s.ratios@[81 + k] == self.ratios@[81 + k]);
                        assert(s.board@[k] == self.board@[k]);
                    }
                }
            }
        }
        Ok(s)
    }
}

/// The full field set of a state, as one flat sequence of plain values for
/// an external persistence adapter: 81 board cells, 162 ratio cells, the
/// ply counter, the mover.
pub open spec fn av_save_spec(s: RawAvalamState) -> Seq<i64> {
    s.board@ + s.ratios@ + seq![s.turn as i64, s.curr_pid as i64]
}

/// A field dump that can be reconstructed verbatim into a well-formed
/// state: right length, heights and ratio sums in domain, mover 1 or 2,
/// ply counter within range.
pub open spec fn av_dump_ok(d: Seq<i64>) -> bool {
    &&& d.len() == 245
    &&& av_board_wf(d.subrange(0, 81))
    &&& av_ratios_wf(d.subrange(0, 81), d.subrange(81, 243))
    &&& 0 <= d[243] <= u32::MAX
    &&& (d[244] == 1 || d[244] == 2)
}

impl RawAvalamState {
    /// Dumps the full field set for an external persistence adapter.
    pub fn save(&self) -> (r: Vec<i64>)
        ensures
            r@ == av_save_spec(*self),
    {
        let mut r: Vec<i64> = self.board.clone();
        let mut rt: Vec<i64> = self.ratios.clone();
        r.append(&mut rt);
        r.push(self.turn as i64);
        r.push(self.curr_pid as i64);
        proof {
            assert(r@ =~= av_save_spec(*self));
        }
        r
    }

    /// Reconstructs a state verbatim from adapter-supplied field values,
    /// rejecting a dump of the wrong shape or with a value out of domain.
    pub fn load(data: &Vec<i64>) -> (r: Result<Self, LoadError>)
        ensures
            data@.len() != 245 ==> r == Err::<Self, LoadError>(LoadError::WrongLength),
            data@.len() == 245 && !av_dump_ok(data@)
                ==> r == Err::<Self, LoadError>(LoadError::OutOfDomain),
            av_dump_ok(data@) ==> (r matches Ok(s)
                && s.board@ == data@.subrange(0, 81)
                && s.ratios@ == data@.subrange(81, 243)
                && s.turn as i64 == data@[243]
                && s.curr_pid as i64 == data@[244]
                && s.wf()),
    {
        if data.len() != 245 {
            return Err(LoadError::WrongLength);
        }
        let mut board: Vec<i64> = Vec::new();
        let mut k: usize = 0;
        while k < 81
            invariant
                data@.len() == 245,
                k <= 81,
                board@ =~= data@.subrange(0, k as int),
                forall|t: int| 0 <= t < k ==> abs_val(#[trigger] data@[t]) <= 5,
            decreases 81 - k,
        {
            let v: i64 = data[k];
            if v < -5 || v > 5 {
                proof {
                    assert(abs_val(data@.subrange(0, 81)[k as int]) > 5);
                    assert(!av_board_wf(data@.subrange(0, 81)));
                }
                return Err(LoadError::OutOfDomain);
            }
            board.push(v);
            k = k + 1;
        }
        proof {
            assert(board@ =~= data@.subrange(0, 81));
            assert(av_board_wf(board@));
        }
        let mut ratios: Vec<i64> = Vec::new();
        let mut k: usize = 0;
        while k < 162
            invariant
                data@.len() == 245,
                k <= 162,
                ratios@ =~= data@.subrange(81, 81 + k as int),
            decreases 162 - k,
        {
            ratios.push(data[81 + k]);
            k = k + 1;
        }
        proof {
            assert(ratios@ =~= data@.subrange(81, 243));
        }
        let mut k: usize = 0;
        while k < 81
            invariant
                data@.len() == 245,
                board@ == data@.subrange(0, 81),
                ratios@ == data@.subrange(81, 243),
                av_board_wf(board@),
                k <= 81,
                forall|t: int| 0 <= t < k ==>
                    0 <= #[trigger] ratios@[t] && 0 <= ratios@[81 + t]
                        && ratios@[t] + ratios@[81 + t] == abs_val(board@[t]),
            decreases 81 - k,
        {
            let r0: i64 = ratios[k];
            let r1: i64 = ratios[81 + k];
            let b: i64 = abs_i64(board[k]);
            if r0 < 0 || r1 < 0 || r0 > 5 || r1 > 5 || r0 + r1 != b {
                proof {
                    assert(!av_ratios_wf(data@.subrange(0, 81), data@.subrange(81, 243)));
                }
                return Err(LoadError::OutOfDomain);
            }
            k = k + 1;
        }
        let turn_v: i64 = data[243];
        if turn_v < 0 || turn_v > u32::MAX as i64 {
            return Err(LoadError::OutOfDomain);
        }
        let pid_v: i64 = data[244];
        if pid_v != 1 && pid_v != 2 {
            return Err(LoadError::OutOfDomain);
        }
        let s = RawAvalamState {
            board,
            ratios,
            turn: turn_v as u32,
            curr_pid: pid_v as u32,
        };
        proof {
            assert(av_dump_ok(data@));
        }
        Ok(s)
    }
}

/// Saving a well-formed state always yields a dump that `load` accepts and
/// reconstructs verbatim: the round trip gives back an equal state.
pub proof fn lemma_save_load_round_trip(s: RawAvalamState)
    requires
        s.wf(),
    ensures
        av_dump_ok(av_save_spec(s)),
        av_save_spec(s).subrange(0, 81) == s.board@,
        av_save_spec(s).subrange(81, 243) == s.ratios@,
        av_save_spec(s)[243] == s.turn as i64,
        av_save_spec(s)[244] == s.curr_pid as i64,
{
    let d = av_save_spec(s);
    assert(d.subrange(0, 81) =~= s.board@);
    assert(d.subrange(81, 243) =~= s.ratios@);
}

/// Once a stack has moved away its origin is empty, so no move from that
/// cell — the move just played included — is legal in the next state.
pub proof fn lemma_played_origin_frozen(b: Seq<i64>, m: Move, m2: Move)
    requires
        av_board_wf(b),
        av_legal(b, m),
        m2.0 == m.0,
    ensures
        !av_legal(av_next_board(b, m), m2),
{
    let o = av_idx(m.0.0 as int, m.0.1 as int);
    let d = av_idx(m.1.0 as int, m.1.1 as int);
    assert(o != d) by {
        assert(m.0.1 < 9 && m.1.1 < 9);
    }
    assert(av_next_board(b, m)[o] == 0);
}

} // verus!
