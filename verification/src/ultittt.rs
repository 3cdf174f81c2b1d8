//! The recursive 3×3-of-3×3 grid game.
//!
//! The 9×9 cell grid is logically partitioned into 9 sub-boards of 9 cells
//! each, addressed as `(super_cell, sub_cell)`. One 3-in-a-row evaluator is
//! applied twice: to a sub-board's 9 cells, giving its cached `win_state`
//! entry, and to the 9 `win_state` entries, giving the overall winner. A
//! move must land in the active sub-board propagated from the previous
//! move, unless that sub-board is decided or no constraint is pending.

use vstd::prelude::*;
use crate::game::{Move, MoveError, LoadError, next_pid_spec, next_pid};

verus! {

broadcast use vstd::seq_lib::lemma_seq_contains_after_push;

/// The three cells of one winning line all hold the same player's mark:
/// only 1 and 2 own lines, so a line of drawn sub-boards (-1) or of open
/// cells never wins.
pub open spec fn ttt_line_win(g: Seq<i64>, a: int, b: int, c: int) -> bool {
    g[a] == g[b] && g[b] == g[c] && (g[a] == 1 || g[a] == 2)
}

/// The 3-in-a-row evaluator on 9 cell values in row-major order: the
/// owner of the first winning line — the two diagonals, the three rows,
/// then the three columns — else -1 when no cell is open (full and
/// drawn), else 0 (still open). A won line counts even when its last
/// mark is the one that fills the grid.
pub open spec fn ttt_winner_of(g: Seq<i64>) -> int {
    if ttt_line_win(g, 0, 4, 8) {
        g[0] as int
    } else if ttt_line_win(g, 2, 4, 6) {
        g[2] as int
    } else if ttt_line_win(g, 0, 1, 2) {
        g[0] as int
    } else if ttt_line_win(g, 3, 4, 5) {
        g[3] as int
    } else if ttt_line_win(g, 6, 7, 8) {
        g[6] as int
    } else if ttt_line_win(g, 0, 3, 6) {
        g[0] as int
    } else if ttt_line_win(g, 1, 4, 7) {
        g[1] as int
    } else if ttt_line_win(g, 2, 5, 8) {
        g[2] as int
    } else if forall|k: int| 0 <= k < 9 ==> g[k] != 0 {
        -1
    } else {
        0
    }
}

/// Whether the three cells of one line all hold one player's mark.
fn line_won(a: i64, b: i64, c: i64) -> (r: bool)
    ensures
        r == (a == b && b == c && (a == 1 || a == 2)),
{
    a == b && b == c && (a == 1 || a == 2)
}

/// The 3-in-a-row evaluator: the owner of the first winning line, else
/// -1 when the section is full without one, else 0 while it stays open.
pub fn get_winner_of(g: &Vec<i64>) -> (r: i64)
    requires
        g@.len() == 9,
    ensures
        r as int == ttt_winner_of(g@),
{
    if line_won(g[0], g[4], g[8]) {
        return g[0];
    }
    if line_won(g[2], g[4], g[6]) {
        return g[2];
    }
    if line_won(g[0], g[1], g[2]) {
        return g[0];
    }
    if line_won(g[3], g[4], g[5]) {
        return g[3];
    }
    if line_won(g[6], g[7], g[8]) {
        return g[6];
    }
    if line_won(g[0], g[3], g[6]) {
        return g[0];
    }
    if line_won(g[1], g[4], g[7]) {
        return g[1];
    }
    if line_won(g[2], g[5], g[8]) {
        return g[2];
    }
    if g[0] != 0 && g[1] != 0 && g[2] != 0 && g[3] != 0 && g[4] != 0 && g[5] != 0 && g[6] != 0
        && g[7] != 0 && g[8] != 0 {
        return -1;
    }
    0
}

/// Index of the sub-board the move's super-cell addresses.
pub open spec fn ttt_sup(m: Move) -> int {
    3 * m.0.0 + m.0.1
}

/// Index of the cell inside that sub-board.
pub open spec fn ttt_sub(m: Move) -> int {
    3 * m.1.0 + m.1.1
}

/// Index of the addressed cell on the flat 81-cell grid.
pub open spec fn ttt_cell(m: Move) -> int {
    ttt_sup(m) * 9 + ttt_sub(m)
}

/// All four coordinates of the move lie in a 3×3 grid.
pub open spec fn ttt_move_in_range(m: Move) -> bool {
    m.0.0 < 3 && m.0.1 < 3 && m.1.0 < 3 && m.1.1 < 3
}

/// The 9 cells of sub-board `s`.
pub open spec fn ttt_row(b: Seq<i64>, s: int) -> Seq<i64> {
    b.subrange(9 * s, 9 * s + 9)
}

/// The recursive-grid game's state.
pub struct RawUltiTTTState {
    /// The 81 cells, row `s` holding sub-board `s`: 0 empty, else the
    /// owning player's id.
    pub board: Vec<i64>,
    /// Number of plies played so far.
    pub turn: u32,
    /// Whose turn it is: 1 or 2.
    pub curr_pid: u32,
    /// Per-sub-board cached outcome, recomputed for the sub-board just
    /// played into: 0 open, -1 full or drawn, else the winner's id.
    pub win_state: Vec<i64>,
    /// The sub-board the next move must address, or -1 for "anywhere a
    /// sub-board is open".
    pub active_cell: i64,
}

impl RawUltiTTTState {
    /// The state's invariant: domains, and a win cache that agrees with
    /// the evaluator on every sub-board.
    pub open spec fn wf(&self) -> bool {
        &&& self.board@.len() == 81
        &&& forall|k: int| 0 <= k < 81 ==>
                (#[trigger] self.board@[k] == 0 || self.board@[k] == 1 || self.board@[k] == 2)
        &&& self.win_state@.len() == 9
        &&& forall|s: int| 0 <= s < 9 ==>
                #[trigger] self.win_state@[s] as int == ttt_winner_of(ttt_row(self.board@, s))
        &&& -1 <= self.active_cell <= 8
        &&& self.curr_pid == 1 || self.curr_pid == 2
    }

    /// The next move may land anywhere open: no constraint is pending or
    /// the pointed-at sub-board is already decided.
    pub open spec fn unconstrained(&self) -> bool {
        self.active_cell == -1 || self.win_state@[self.active_cell as int] != 0
    }

    /// The move `m` is legal: in range, its cell is empty, and its
    /// sub-board is the active one — or any undecided one when no
    /// constraint applies.
    pub open spec fn legal(&self, m: Move) -> bool {
        &&& ttt_move_in_range(m)
        &&& self.board@[ttt_cell(m)] == 0
        &&& if self.unconstrained() {
                self.win_state@[ttt_sup(m)] == 0
            } else {
                ttt_sup(m) == self.active_cell
            }
    }

    /// Two states are equal when board, ply counter, mover, win cache and
    /// active sub-board all agree.
    pub open spec fn eq_spec(&self, other: &Self) -> bool {
        &&& self.board@ == other.board@
        &&& self.turn == other.turn
        &&& self.curr_pid == other.curr_pid
        &&& self.win_state@ == other.win_state@
        &&& self.active_cell == other.active_cell
    }

    /// Builds the initial position: an empty grid, no constraint, player 1
    /// to move.
    pub fn new() -> (r: Self)
        ensures
            r.board@ == Seq::new(81, |k: int| 0i64),
            r.win_state@ == Seq::new(9, |s: int| 0i64),
            r.turn == 0,
            r.curr_pid == 1,
            r.active_cell == -1,
            r.wf(),
    {
        let mut board: Vec<i64> = Vec::new();
        let mut k: usize = 0;
        while k < 81
            invariant
                k <= 81,
                board@ =~= Seq::new(k as nat, |t: int| 0i64),
            decreases 81 - k,
        {
            board.push(0);
            proof {
                assert(board@ =~= Seq::new((k + 1) as nat, |t: int| 0i64));
            }
            k = k + 1;
        }
        let mut win_state: Vec<i64> = Vec::new();
        let mut k: usize = 0;
        while k < 9
            invariant
                k <= 9,
                win_state@ =~= Seq::new(k as nat, |t: int| 0i64),
            decreases 9 - k,
        {
            win_state.push(0);
            proof {
                assert(win_state@ =~= Seq::new((k + 1) as nat, |t: int| 0i64));
            }
            k = k + 1;
        }
        let r = RawUltiTTTState { board, turn: 0, curr_pid: 1, win_state, active_cell: -1 };
        proof {
            assert(r.wf()) by {
                assert forall|s: int| 0 <= s < 9 implies
                    #[trigger] r.win_state@[s] as int == ttt_winner_of(ttt_row(r.board@, s)) by {
                    assert(ttt_row(r.board@, s)[0] == 0);
                    assert(ttt_winner_of(ttt_row(r.board@, s)) == 0);
                }
            }
        }
        r
    }

    /// Deep-clones the state; the copy shares nothing with the source.
    pub fn copy(&self) -> (r: Self)
        ensures
            r.eq_spec(self),
            self.wf() ==> r.wf(),
    {
        RawUltiTTTState {
            board: self.board.clone(),
            turn: self.turn,
            curr_pid: self.curr_pid,
            win_state: self.win_state.clone(),
            active_cell: self.active_cell,
        }
    }

    /// The equality comparison of the shared contract.
    pub fn equals(&self, other: &Self) -> (r: bool)
        ensures
            r == self.eq_spec(other),
    {
        crate::game::vec_i64_eq(&self.board, &other.board)
            && crate::game::vec_i64_eq(&self.win_state, &other.win_state)
            && self.turn == other.turn
            && self.curr_pid == other.curr_pid
            && self.active_cell == other.active_cell
    }

    /// The complete, duplicate-free set of moves available to the mover.
    /// No move lands in a decided sub-board.
    pub fn get_legal_moves(&self) -> (r: Vec<Move>)
        requires
            self.wf(),
        ensures
            r@.no_duplicates(),
            forall|m: Move| r@.contains(m) <==> self.legal(m),
    {
        let mut r: Vec<Move> = Vec::new();
        let mut k: usize = 0;
        while k < 81
            invariant
                self.wf(),
                k <= 81,
                r@.no_duplicates(),
                forall|m: Move| r@.contains(m) <==> (self.legal(m) && ttt_cell(m) < k),
            decreases 81 - k,
        {
            let sup: usize = k / 9;
            let sub: usize = k % 9;
            let m: Move = ((sup / 3, sup % 3), (sub / 3, sub % 3));
            proof {
                assert(ttt_sup(m) == sup && ttt_sub(m) == sub && ttt_cell(m) == k);
                assert forall|m2: Move| self.legal(m2) && ttt_cell(m2) == k
                    implies m2 == m by {
                    assert(0 <= ttt_sup(m2) < 9 && 0 <= ttt_sub(m2) < 9);
                    assert(ttt_sup(m2) == sup && ttt_sub(m2) == sub);
                    assert(m2.0.1 < 3 && m2.1.1 < 3);
                    assert(m2.0.0 == sup / 3 && m2.0.1 == sup % 3);
                    assert(m2.1.0 == sub / 3 && m2.1.1 == sub % 3);
                }
            }
            let ok: bool = if self.board[k] != 0 {
                false
            } else if self.active_cell == -1 || self.win_state[self.active_cell as usize] != 0 {
                self.win_state[sup] == 0
            } else {
                sup as i64 == self.active_cell
            };
            let ghost rs = r@;
            if ok {
                proof {
                    assert(self.legal(m));
                    assert(!r@.contains(m));
                }
                r.push(m);
            } else {
                proof {
                    assert(!self.legal(m));
                }
            }
            proof {
                assert forall|x: Move| #[trigger] r@.contains(x)
                    implies (self.legal(x) && ttt_cell(x) < k + 1) by {
                    let u = choose|u: int| 0 <= u < r@.len() && #[trigger] r@[u] == x;
                    if u < rs.len() {
                        assert(rs[u] == x);
                        assert(rs.contains(x));
                    } else {
                        assert(x == m);
                    }
                    assert(self.legal(x));
                    assert(ttt_cell(x) < k + 1);
                }
                assert forall|x: Move| self.legal(x) && ttt_cell(x) < k + 1
                    implies #[trigger] r@.contains(x) by {
                    if ttt_cell(x) == k {
                        assert(x == m);
                        assert(ok);
                        assert(r@[rs.len() as int] == x);
                    } else {
                        assert(rs.contains(x));
                        let u = choose|u: int| 0 <= u < rs.len() && #[trigger] rs[u] == x;
                        assert(r@[u] == x);
                    }
                }
            }
            k = k + 1;
        }
        r
    }

    /// Plays a move, producing the next state and leaving this one
    /// untouched: the mover's id is written into the addressed cell, the
    /// sub-board played into has its cached outcome recomputed, and the
    /// next mover is constrained to the sub-board the move pointed at,
    /// unless that one is decided.
    pub fn play(&self, c_move: Move) -> (r: Result<Self, MoveError>)
        requires
            self.wf(),
            self.turn < u32::MAX,
        ensures
            !ttt_move_in_range(c_move) ==> r == Err::<Self, MoveError>(MoveError::OutOfRange),
            ttt_move_in_range(c_move) && !self.legal(c_move)
                ==> r == Err::<Self, MoveError>(MoveError::Illegal),
            self.legal(c_move) ==> (r matches Ok(s)
                && s.board@ == self.board@.update(ttt_cell(c_move), self.curr_pid as i64)
                && s.win_state@ == self.win_state@.update(
                    ttt_sup(c_move),
                    ttt_winner_of(ttt_row(s.board@, ttt_sup(c_move))) as i64)
                && s.active_cell == (if s.win_state@[ttt_sub(c_move)] != 0 {
                    -1int
                } else {
                    ttt_sub(c_move)
                })
                && s.turn == self.turn + 1
                && s.curr_pid == next_pid_spec(self.curr_pid)
                && s.wf()),
    {
        let ((a, b), (c, d)) = c_move;
        if !(a < 3 && b < 3 && c < 3 && d < 3) {
            return Err(MoveError::OutOfRange);
        }
        let sup: usize = 3 * a + b;
        let sub: usize = 3 * c + d;
        let cell: usize = sup * 9 + sub;
        let ok: bool = if self.board[cell] != 0 {
            false
        } else if self.active_cell == -1 || self.win_state[self.active_cell as usize] != 0 {
            self.win_state[sup] == 0
        } else {
            sup as i64 == self.active_cell
        };
        if !ok {
            proof {
                assert(!self.legal(c_move));
            }
            return Err(MoveError::Illegal);
        }
        proof {
            assert(self.legal(c_move));
        }

        let mut board: Vec<i64> = self.board.clone();
        board.set(cell, self.curr_pid as i64);

        let mut row: Vec<i64> = Vec::new();
        let mut k: usize = 0;
        while k < 9
            invariant
                board@.len() == 81,
                sup < 9,
                k <= 9,
                row@ =~= board@.subrange(9 * sup as int, 9 * sup as int + k as int),
            decreases 9 - k,
        {
            row.push(board[9 * sup + k]);
            k = k + 1;
        }
        proof {
            assert(row@ =~= ttt_row(board@, sup as int));
        }
        let w: i64 = get_winner_of(&row);
        let mut win_state: Vec<i64> = self.win_state.clone();
        win_state.set(sup, w);

        let active: i64 = if win_state[sub] != 0 {
            -1
        } else {
            sub as i64
        };
        let s = RawUltiTTTState {
            board,
            turn: self.turn + 1,
            curr_pid: next_pid(self.curr_pid),
            win_state,
            active_cell: active,
        };
        proof {
            assert(s.board@ =~= self.board@.update(ttt_cell(c_move), self.curr_pid as i64));
            assert(s.win_state@ =~= self.win_state@.update(
                ttt_sup(c_move),
                ttt_winner_of(ttt_row(s.board@, ttt_sup(c_move))) as i64));
            assert(s.wf()) by {
                assert forall|t: int| 0 <= t < 9 implies
                    #[trigger] s.win_state@[t] as int
                        == ttt_winner_of(ttt_row(s.board@, t)) by {
                    if t != sup {
                        assert(ttt_row(s.board@, t) =~= ttt_row(self.board@, t));
                    }
                }
            }
        }
        Ok(s)
    }

    /// The winner of the whole game: the evaluator applied to the nine
    /// cached sub-board outcomes.
    pub fn winner(&self) -> (r: i64)
        requires
            self.win_state@.len() == 9,
        ensures
            r as int == ttt_winner_of(self.win_state@),
    {
        get_winner_of(&self.win_state)
    }

    /// The score: one point to the player who has won the whole game,
    /// nothing otherwise.
    pub fn score(&self) -> (r: (usize, usize))
        requires
            self.win_state@.len() == 9,
        ensures
            ttt_winner_of(self.win_state@) == 1 ==> r == (1usize, 0usize),
            ttt_winner_of(self.win_state@) == 2 ==> r == (0usize, 1usize),
            ttt_winner_of(self.win_state@) != 1 && ttt_winner_of(self.win_state@) != 2
                ==> r == (0usize, 0usize),
    {
        let w: i64 = self.winner();
        if w == 1 {
            (1, 0)
        } else if w == 2 {
            (0, 1)
        } else {
            (0, 0)
        }
    }
}

/// The full field set of a state, as one flat sequence of plain values for
/// an external persistence adapter: 81 cells, 9 cached outcomes, the ply
/// counter, the mover, the active sub-board.
pub open spec fn ttt_save_spec(s: RawUltiTTTState) -> Seq<i64> {
    s.board@ + s.win_state@ + seq![s.turn as i64, s.curr_pid as i64, s.active_cell]
}

/// A field dump that can be reconstructed verbatim into a well-formed
/// state.
pub open spec fn ttt_dump_ok(d: Seq<i64>) -> bool {
    &&& d.len() == 93
    &&& forall|k: int| 0 <= k < 81 ==> (#[trigger] d[k] == 0 || d[k] == 1 || d[k] == 2)
    &&& forall|s: int| 0 <= s < 9 ==>
            #[trigger] d[81 + s] as int == ttt_winner_of(ttt_row(d.subrange(0, 81), s))
    &&& 0 <= d[90] <= u32::MAX
    &&& (d[91] == 1 || d[91] == 2)
    &&& -1 <= d[92] <= 8
}

impl RawUltiTTTState {
    /// Dumps the full field set for an external persistence adapter.
    pub fn save(&self) -> (r: Vec<i64>)
        ensures
            r@ == ttt_save_spec(*self),
    {
        let mut r: Vec<i64> = self.board.clone();
        let mut w: Vec<i64> = self.win_state.clone();
        r.append(&mut w);
        r.push(self.turn as i64);
        r.push(self.curr_pid as i64);
        r.push(self.active_cell);
        proof {
            assert(r@ =~= ttt_save_spec(*self));
        }
        r
    }

    /// Reconstructs a state verbatim from adapter-supplied field values,
    /// rejecting a dump of the wrong shape, with a value out of domain, or
    /// with a win cache that contradicts its board.
    pub fn load(data: &Vec<i64>) -> (r: Result<Self, LoadError>)
        ensures
            data@.len() != 93 ==> r == Err::<Self, LoadError>(LoadError::WrongLength),
            data@.len() == 93 && !ttt_dump_ok(data@)
                ==> r == Err::<Self, LoadError>(LoadError::OutOfDomain),
            ttt_dump_ok(data@) ==> (r matches Ok(s)
                && s.board@ == data@.subrange(0, 81)
                && s.win_state@ == data@.subrange(81, 90)
                && s.turn as i64 == data@[90]
                && s.curr_pid as i64 == data@[91]
                && s.active_cell == data@[92]
                && s.wf()),
    {
        if data.len() != 93 {
            return Err(LoadError::WrongLength);
        }
        let mut board: Vec<i64> = Vec::new();
        let mut k: usize = 0;
        while k < 81
            invariant
                data@.len() == 93,
                k <= 81,
                board@ =~= data@.subrange(0, k as int),
                forall|t: int| 0 <= t < k ==>
                    (#[trigger] data@[t] == 0 || data@[t] == 1 || data@[t] == 2),
            decreases 81 - k,
        {
            let v: i64 = data[k];
            if v != 0 && v != 1 && v != 2 {
                return Err(LoadError::OutOfDomain);
            }
            board.push(v);
            k = k + 1;
        }
        proof {
            assert(board@ =~= data@.subrange(0, 81));
        }
        let mut win_state: Vec<i64> = Vec::new();
        let mut k: usize = 0;
        while k < 9
            invariant
                data@.len() == 93,
                board@ == data@.subrange(0, 81),
                board@.len() == 81,
                k <= 9,
                win_state@ =~= data@.subrange(81, 81 + k as int),
                forall|s: int| 0 <= s < k ==>
                    #[trigger] data@[81 + s] as int
                        == ttt_winner_of(ttt_row(data@.subrange(0, 81), s)),
            decreases 9 - k,
        {
            let v: i64 = data[81 + k];
            let mut row: Vec<i64> = Vec::new();
            let mut t: usize = 0;
            while t < 9
                invariant
                    board@.len() == 81,
                    k < 9,
                    t <= 9,
                    row@ =~= board@.subrange(9 * k as int, 9 * k as int + t as int),
                decreases 9 - t,
            {
                row.push(board[9 * k + t]);
                t = t + 1;
            }
            proof {
                assert(row@ =~= ttt_row(board@, k as int));
            }
            let w: i64 = get_winner_of(&row);
            if v != w {
                return Err(LoadError::OutOfDomain);
            }
            win_state.push(v);
            k = k + 1;
        }
        proof {
            assert(win_state@ =~= data@.subrange(81, 90));
        }
        let turn_v: i64 = data[90];
        if turn_v < 0 || turn_v > u32::MAX as i64 {
            return Err(LoadError::OutOfDomain);
        }
        let pid_v: i64 = data[91];
        if pid_v != 1 && pid_v != 2 {
            return Err(LoadError::OutOfDomain);
        }
        let active_v: i64 = data[92];
        if active_v < -1 || active_v > 8 {
            return Err(LoadError::OutOfDomain);
        }
        let s = RawUltiTTTState {
            board,
            turn: turn_v as u32,
            curr_pid: pid_v as u32,
            win_state,
            active_cell: active_v,
        };
        proof {
            assert(ttt_dump_ok(data@));
            assert(s.wf()) by {
                assert forall|t: int| 0 <= t < 9 implies
                    #[trigger] s.win_state@[t] as int
                        == ttt_winner_of(ttt_row(s.board@, t)) by {
                    assert(s.win_state@[t] == data@[81 + t]);
                }
            }
        }
        Ok(s)
    }
}

/// Saving a well-formed state always yields a dump that `load` accepts and
/// reconstructs verbatim: the round trip gives back an equal state.
pub proof fn lemma_ttt_save_load_round_trip(s: RawUltiTTTState)
    requires
        s.wf(),
    ensures
        ttt_dump_ok(ttt_save_spec(s)),
        ttt_save_spec(s).subrange(0, 81) == s.board@,
        ttt_save_spec(s).subrange(81, 90) == s.win_state@,
        ttt_save_spec(s)[90] == s.turn as i64,
        ttt_save_spec(s)[91] == s.curr_pid as i64,
        ttt_save_spec(s)[92] == s.active_cell,
{
    let d = ttt_save_spec(s);
    assert(d.subrange(0, 81) =~= s.board@);
    assert(d.subrange(81, 90) =~= s.win_state@);
}

/// A legal move never lands in a decided sub-board.
pub proof fn lemma_no_move_into_decided(s: RawUltiTTTState, m: Move)
    requires
        s.wf(),
        s.legal(m),
    ensures
        s.win_state@[ttt_sup(m)] == 0,
{
}

/// The cell just filled cannot be played again: after a play, the very
/// same move is no longer legal.
pub proof fn lemma_played_cell_frozen(s: RawUltiTTTState, m: Move, s2: RawUltiTTTState)
    requires
        s.wf(),
        s.legal(m),
        s2.board@ == s.board@.update(ttt_cell(m), s.curr_pid as i64),
    ensures
        !s2.legal(m),
{
    assert(s2.board@[ttt_cell(m)] == s.curr_pid as i64);
}

} // verus!
