//! The checkers variant with forced multi-jump capture chains.
//!
//! The 8×8 board is stored in a rotated local frame, a 7×8 grid in which
//! the playable diamond's diagonals run straight along rows and columns;
//! the six cells in each corner of the grid fall outside the diamond and
//! hold the sentinel value 3. Moves cross the boundary through two affine
//! transforms applied coordinate-wise: `to_local` and `from_local`. A
//! simple man (±1) moves one step along the two axis directions advancing
//! toward the far edge, a king (±2) along all four; a capture jumps an
//! adjacent enemy onto the empty cell behind it. Captures are forced, and
//! a capture that lands where another capture waits keeps the mover on
//! turn, restricted to continuing from the landing square.

use vstd::prelude::*;
use crate::game::{Coords, Move, MoveError, LoadError, abs_val, next_pid_spec, next_pid, copy_moves};

verus! {

broadcast use vstd::seq_lib::lemma_seq_contains_after_push;

/// Index of local cell (i, j) in the row-major board sequence.
pub open spec fn ck_idx(i: int, j: int) -> int {
    i * 8 + j
}

/// The local cell lies on the 7×8 grid.
pub open spec fn ck_in_grid(i: int, j: int) -> bool {
    0 <= i < 7 && 0 <= j < 8
}

/// The local cell lies on the playable diamond: its image under
/// `from_local` falls on the 8×8 external board.
pub open spec fn ck_playable(i: int, j: int) -> bool {
    &&& ck_in_grid(i, j)
    &&& 0 <= 4 + i - j <= 7
    &&& 0 <= i + j - 3 <= 7
}

/// The external square of a local cell: the inverse rotation.
pub open spec fn ck_from_local(p: (int, int)) -> (int, int) {
    (4 + p.0 - p.1, p.0 + p.1 - 3)
}

/// The local cell of an external square.
pub open spec fn ck_to_local(e: (int, int)) -> (int, int) {
    ((e.0 + e.1 - 1) / 2, (e.1 - e.0 + 7) / 2)
}

/// A board sequence is 56 cells: sentinels exactly on the non-playable
/// grid cells, pieces (man ±1, king ±2) or emptiness elsewhere.
pub open spec fn ck_board_wf(b: Seq<i64>) -> bool {
    &&& b.len() == 56
    &&& forall|i: int, j: int| ck_in_grid(i, j) && ck_playable(i, j) ==>
            -2 <= #[trigger] b[ck_idx(i, j)] <= 2
    &&& forall|i: int, j: int| ck_in_grid(i, j) && !ck_playable(i, j) ==>
            #[trigger] b[ck_idx(i, j)] == 3
}

/// The local board of the initial position.
pub open spec fn ck_base_board() -> Seq<i64> {
    seq![
         3i64, 3, 3, 1, 1, 3, 3, 3,
         3, 3, 0, 1, 1, 1, 3, 3,
         3, -1i64, 0, 0, 1, 1, 1, 3,
         -1i64, -1i64, -1i64, 0, 0, 1, 1, 1,
         3, -1i64, -1i64, -1i64, 0, 0, 1, 3,
         3, 3, -1i64, -1i64, -1i64, 0, 3, 3,
         3, 3, 3, -1i64, -1i64, 3, 3, 3,
    ]
}

/// Returns the local board of the initial position.
pub fn base_array() -> (r: Vec<i64>)
    ensures
        r@ == ck_base_board(),
{
    let r: Vec<i64> = vec![
         3i64, 3, 3, 1, 1, 3, 3, 3,
         3, 3, 0, 1, 1, 1, 3, 3,
         3, -1, 0, 0, 1, 1, 1, 3,
         -1, -1, -1, 0, 0, 1, 1, 1,
         3, -1, -1, -1, 0, 0, 1, 3,
         3, 3, -1, -1, -1, 0, 3, 3,
         3, 3, 3, -1, -1, 3, 3, 3,
    ];
    proof {
        assert(r@ =~= ck_base_board());
    }
    r
}

/// The four axis directions of the local frame, with the marker that says
/// which two of them a simple man of each colour may use.
pub open spec fn ck_dir(d: int) -> (int, int) {
    if d == 0 {
        (0, -1)
    } else if d == 1 {
        (0, 1)
    } else if d == 2 {
        (-1, 0)
    } else {
        (1, 0)
    }
}

/// The colour whose men advance along direction `d`.
pub open spec fn ck_marker(d: int) -> int {
    if d == 0 {
        1
    } else if d == 1 {
        -1
    } else if d == 2 {
        -1
    } else {
        1
    }
}

/// The piece value `v` may look along direction `d`: kings look along all
/// four directions, a man only along the two of its own colour.
pub open spec fn ck_dir_allowed(v: i64, d: int) -> bool {
    abs_val(v) != 1 || (if v > 0 { ck_marker(d) == 1 } else { ck_marker(d) == -1 })
}

/// The next cell along `d` seen from the piece at (i, j) holds an enemy:
/// a value of the opposite sign, the sentinel included when negative
/// pieces look at it.
pub open spec fn ck_enemy(b: Seq<i64>, i: int, j: int, mi: int, mj: int) -> bool {
    if b[ck_idx(i, j)] > 0 {
        b[ck_idx(mi, mj)] < 0
    } else {
        b[ck_idx(mi, mj)] > 0
    }
}

/// The piece at (i, j) can capture along direction `d`: the adjacent cell
/// holds an enemy and the cell behind it is on the grid and empty.
pub open spec fn ck_capture_at(b: Seq<i64>, i: int, j: int, d: int) -> bool {
    let di = ck_dir(d).0;
    let dj = ck_dir(d).1;
    &&& ck_dir_allowed(b[ck_idx(i, j)], d)
    &&& ck_in_grid(i + 2 * di, j + 2 * dj)
    &&& ck_enemy(b, i, j, i + di, j + dj)
    &&& b[ck_idx(i + 2 * di, j + 2 * dj)] == 0
}

/// The piece at (i, j) can slide one step along direction `d`.
pub open spec fn ck_slide_at(b: Seq<i64>, i: int, j: int, d: int) -> bool {
    let di = ck_dir(d).0;
    let dj = ck_dir(d).1;
    &&& ck_dir_allowed(b[ck_idx(i, j)], d)
    &&& ck_in_grid(i + di, j + dj)
    &&& b[ck_idx(i + di, j + dj)] == 0
}

/// The local cell holds a piece of the mover `pid`.
pub open spec fn ck_mover_piece(b: Seq<i64>, pid: u32, i: int, j: int) -> bool {
    &&& ck_in_grid(i, j)
    &&& (if pid == 1 {
            b[ck_idx(i, j)] > 0
        } else {
            b[ck_idx(i, j)] < 0
        })
    &&& b[ck_idx(i, j)] < 3
}

/// Some piece of the mover has a capture available.
pub open spec fn ck_any_capture(b: Seq<i64>, pid: u32) -> bool {
    exists|i: int, j: int, d: int|
        0 <= d < 4 && #[trigger] ck_mover_piece(b, pid, i, j) && #[trigger] ck_capture_at(b, i, j, d)
}

/// Some piece of the mover has any move, capture or slide.
pub open spec fn ck_has_moves(b: Seq<i64>, pid: u32) -> bool {
    exists|i: int, j: int, d: int|
        #![trigger ck_mover_piece(b, pid, i, j), ck_capture_at(b, i, j, d)]
        #![trigger ck_mover_piece(b, pid, i, j), ck_slide_at(b, i, j, d)]
        0 <= d < 4 && ck_mover_piece(b, pid, i, j)
            && (ck_capture_at(b, i, j, d) || ck_slide_at(b, i, j, d))
}

/// The move from local origin `o` to local target `t` is a capture of the
/// mover along some direction.
pub open spec fn ck_capture_move(b: Seq<i64>, pid: u32, o: (int, int), t: (int, int)) -> bool {
    exists|d: int| 0 <= d < 4 && #[trigger] ck_dir(d) == ((t.0 - o.0) / 2, (t.1 - o.1) / 2)
        && t.0 - o.0 == 2 * ck_dir(d).0 && t.1 - o.1 == 2 * ck_dir(d).1
        && ck_mover_piece(b, pid, o.0, o.1) && ck_capture_at(b, o.0, o.1, d)
}

/// The move from local origin `o` to local target `t` is a slide of the
/// mover along some direction.
pub open spec fn ck_slide_move(b: Seq<i64>, pid: u32, o: (int, int), t: (int, int)) -> bool {
    exists|d: int| 0 <= d < 4 && #[trigger] ck_dir(d) == (t.0 - o.0, t.1 - o.1)
        && ck_mover_piece(b, pid, o.0, o.1) && ck_slide_at(b, o.0, o.1, d)
}

/// The local move is legal under capture precedence: when any capture is
/// available to the mover anywhere, only captures are; otherwise slides.
pub open spec fn ck_local_legal(b: Seq<i64>, pid: u32, o: (int, int), t: (int, int)) -> bool {
    if ck_any_capture(b, pid) {
        ck_capture_move(b, pid, o, t)
    } else {
        ck_slide_move(b, pid, o, t)
    }
}

/// All four coordinates of the external move lie on the 8×8 board.
pub open spec fn ck_move_in_range(m: Move) -> bool {
    m.0.0 < 8 && m.0.1 < 8 && m.1.0 < 8 && m.1.1 < 8
}

/// The external square sits on a dark diagonal: only those squares are
/// images of local cells.
pub open spec fn ck_odd(e: (int, int)) -> bool {
    (e.0 + e.1) % 2 == 1
}

/// The local origin of an external move.
pub open spec fn ck_local_o(m: Move) -> (int, int) {
    ck_to_local((m.0.0 as int, m.0.1 as int))
}

/// The local target of an external move.
pub open spec fn ck_local_t(m: Move) -> (int, int) {
    ck_to_local((m.1.0 as int, m.1.1 as int))
}

/// The external move is legal on board `b` for mover `pid` when no
/// capture chain is pending: both squares are dark squares of the board
/// and the local move they name is legal.
pub open spec fn ck_ext_legal(b: Seq<i64>, pid: u32, m: Move) -> bool {
    &&& ck_move_in_range(m)
    &&& ck_odd((m.0.0 as int, m.0.1 as int))
    &&& ck_odd((m.1.0 as int, m.1.1 as int))
    &&& ck_local_legal(b, pid, ck_local_o(m), ck_local_t(m))
}

/// Round trip of the coordinate rotation: a local cell, carried to the
/// external board and back, is unchanged; its external image is in range
/// and on a dark square exactly when the cell is playable.
pub proof fn lemma_from_to_local(p: (int, int))
    ensures
        ck_to_local(ck_from_local(p)) == p,
        ck_playable(p.0, p.1) ==> 0 <= ck_from_local(p).0 <= 7 && 0 <= ck_from_local(p).1 <= 7
            && ck_odd(ck_from_local(p)),
{
    let e = ck_from_local(p);
    assert(e.0 + e.1 - 1 == 2 * p.0);
    assert(e.1 - e.0 + 7 == 2 * p.1);
    assert((2 * p.0) / 2 == p.0);
    assert((2 * p.1) / 2 == p.1);
    assert(ck_playable(p.0, p.1) ==> (e.0 + e.1) % 2 == 1) by {
        assert(e.0 + e.1 == 2 * p.0 + 1);
    }
}

/// The other direction of the rotation round trip: an in-range dark
/// external square, carried to the local frame and back, is unchanged,
/// and its local cell is playable.
pub proof fn lemma_to_from_local(e: (int, int))
    requires
        0 <= e.0 <= 7,
        0 <= e.1 <= 7,
        ck_odd(e),
    ensures
        ck_from_local(ck_to_local(e)) == e,
        ck_playable(ck_to_local(e).0, ck_to_local(e).1),
{
    let p = ck_to_local(e);
    assert(e.0 + e.1 == 2 * ((e.0 + e.1 - 1) / 2) + 1);
    assert(e.1 - e.0 + 7 == 2 * ((e.1 - e.0 + 7) / 2) + ((e.1 - e.0 + 7) % 2));
    assert((e.1 - e.0 + 7) % 2 == 0) by {
        assert((e.0 + e.1) % 2 == 1);
    }
}

/// Number of cells holding a piece of player 1 among the first `n`.
pub open spec fn ck_count_p1(b: Seq<i64>, n: int) -> int
    decreases n,
{
    if n <= 0 {
        0
    } else {
        ck_count_p1(b, n - 1) + if b[n - 1] == 1 || b[n - 1] == 2 { 1int } else { 0int }
    }
}

/// Number of cells holding a piece of player 2 among the first `n`.
pub open spec fn ck_count_p2(b: Seq<i64>, n: int) -> int
    decreases n,
{
    if n <= 0 {
        0
    } else {
        ck_count_p2(b, n - 1) + if b[n - 1] == -1 || b[n - 1] == -2 { 1int } else { 0int }
    }
}

/// A move a pending capture chain may hold: an external capture move of
/// the mover, named by its dark squares.
pub open spec fn ck_cached_move_ok(b: Seq<i64>, pid: u32, m: Move) -> bool {
    &&& ck_move_in_range(m)
    &&& ck_odd((m.0.0 as int, m.0.1 as int))
    &&& ck_odd((m.1.0 as int, m.1.1 as int))
    &&& ck_capture_move(b, pid, ck_local_o(m), ck_local_t(m))
}

/// The cache lists exactly the continuations from landing cell `ld`:
/// each member is a capture of the mover whose local origin is `ld`, and
/// none is missing.
pub open spec fn ck_pending_from(b: Seq<i64>, pid: u32, c: Seq<Move>, ld: (int, int)) -> bool {
    forall|m: Move| #[trigger] c.contains(m) <==> ck_continuation(b, pid, ld, m)
}

/// A pending-chain cache a play can leave behind: duplicate-free,
/// non-empty, and exactly the continuation set from one landing cell.
pub open spec fn ck_pending_ok(b: Seq<i64>, pid: u32, c: Seq<Move>) -> bool {
    &&& c.no_duplicates()
    &&& c.len() > 0
    &&& exists|ld: (int, int)| #[trigger] ck_pending_from(b, pid, c, ld)
}

/// The checkers game's state.
pub struct RawCheckersState {
    /// The rotated 7×8 local board.
    pub board: Vec<i64>,
    /// Number of plies played so far.
    pub turn: u32,
    /// Whose turn it is: 1 or 2.
    pub curr_pid: u32,
    /// While a capture chain is pending: the only moves the mover may
    /// play, all continuing from the last landing square.
    pub cached_moves: Option<Vec<Move>>,
}

impl RawCheckersState {
    /// The state's invariant: a well-formed board, a mover id of 1 or 2,
    /// and, when a chain is pending, a non-empty duplicate-free cache
    /// holding exactly the mover's continuation captures from one landing
    /// square.
    pub open spec fn wf(&self) -> bool {
        &&& ck_board_wf(self.board@)
        &&& self.curr_pid == 1 || self.curr_pid == 2
        &&& match self.cached_moves {
                Some(c) => ck_pending_ok(self.board@, self.curr_pid, c@),
                None => true,
            }
    }

    /// Two states are equal when board, ply counter, mover agree and the
    /// pending caches hold the same move set.
    pub open spec fn eq_spec(&self, other: &Self) -> bool {
        &&& self.board@ == other.board@
        &&& self.turn == other.turn
        &&& self.curr_pid == other.curr_pid
        &&& match (self.cached_moves, other.cached_moves) {
                (Option::None, Option::None) => true,
                (Option::Some(a), Option::Some(b)) =>
                    forall|m: Move| a@.contains(m) <==> b@.contains(m),
                _ => false,
            }
    }

    /// Builds the initial position: player 1 moves first, no chain is
    /// pending.
    pub fn new() -> (r: Self)
        ensures
            r.board@ == ck_base_board(),
            r.turn == 0,
            r.curr_pid == 1,
            r.cached_moves is None,
            r.wf(),
    {
        let board = base_array();
        let r = RawCheckersState { board, turn: 0, curr_pid: 1, cached_moves: None };
        proof {
            assert(ck_board_wf(r.board@)) by {
                assert forall|i: int, j: int| ck_in_grid(i, j) && ck_playable(i, j) implies
                    -2 <= #[trigger] r.board@[ck_idx(i, j)] <= 2 by {
                    assert(-1 <= ck_base_board()[i * 8 + j] <= 1 || ck_base_board()[i * 8 + j] == 3);
                }
                assert forall|i: int, j: int| ck_in_grid(i, j) && !ck_playable(i, j) implies
                    #[trigger] r.board@[ck_idx(i, j)] == 3 by {
                    assert(ck_base_board()[i * 8 + j] == 3 || -1 <= ck_base_board()[i * 8 + j] <= 1);
                }
            }
        }
        r
    }

    /// Deep-clones the state; the copy shares nothing with the source.
    pub fn copy(&self) -> (r: Self)
        ensures
            r.eq_spec(self),
            r.board@ == self.board@,
            r.cached_moves matches Some(c) ==> (self.cached_moves matches Some(o) && c@ == o@),
            r.cached_moves is None <==> self.cached_moves is None,
            self.wf() ==> r.wf(),
    {
        let cached: Option<Vec<Move>> = match &self.cached_moves {
            None => None,
            Some(c) => Some(copy_moves(c)),
        };
        RawCheckersState {
            board: self.board.clone(),
            turn: self.turn,
            curr_pid: self.curr_pid,
            cached_moves: cached,
        }
    }

    /// The equality comparison of the shared contract.
    pub fn equals(&self, other: &Self) -> (r: bool)
        ensures
            r == self.eq_spec(other),
    {
        if !crate::game::vec_i64_eq(&self.board, &other.board) {
            return false;
        }
        if self.turn != other.turn || self.curr_pid != other.curr_pid {
            return false;
        }
        match (&self.cached_moves, &other.cached_moves) {
            (None, None) => true,
            (Some(a), Some(b)) => move_sets_equal(a, b),
            _ => false,
        }
    }

    /// The score: how many pieces each player has on the board.
    pub fn score(&self) -> (r: (usize, usize))
        requires
            self.board@.len() == 56,
        ensures
            r.0 == ck_count_p1(self.board@, 56),
            r.1 == ck_count_p2(self.board@, 56),
    {
        let mut p1: usize = 0;
        let mut p2: usize = 0;
        let mut k: usize = 0;
        while k < 56
            invariant
                self.board@.len() == 56,
                k <= 56,
                p1 == ck_count_p1(self.board@, k as int),
                p2 == ck_count_p2(self.board@, k as int),
                p1 <= k,
                p2 <= k,
            decreases 56 - k,
        {
            let v: i64 = self.board[k];
            if v == 1 || v == 2 {
                p1 = p1 + 1;
            }
            if v == -1 || v == -2 {
                p2 = p2 + 1;
            }
            k = k + 1;
        }
        (p1, p2)
    }
}

/// Whether the move list contains the move.
pub fn vec_contains_move(v: &Vec<Move>, m: Move) -> (r: bool)
    ensures
        r == v@.contains(m),
{
    let mut k: usize = 0;
    while k < v.len()
        invariant
            k <= v@.len(),
            forall|t: int| 0 <= t < k ==> v@[t] != m,
        decreases v@.len() - k,
    {
        let c: Move = v[k];
        if c.0.0 == m.0.0 && c.0.1 == m.0.1 && c.1.0 == m.1.0 && c.1.1 == m.1.1 {
            proof {
                assert(v@[k as int] == m);
            }
            return true;
        }
        k = k + 1;
    }
    false
}

/// Whether the two move lists hold the same set of moves.
pub fn move_sets_equal(a: &Vec<Move>, b: &Vec<Move>) -> (r: bool)
    ensures
        r == (forall|m: Move| a@.contains(m) <==> b@.contains(m)),
{
    let mut k: usize = 0;
    while k < a.len()
        invariant
            k <= a@.len(),
            forall|t: int| 0 <= t < k ==> b@.contains(#[trigger] a@[t]),
        decreases a@.len() - k,
    {
        if !vec_contains_move(b, a[k]) {
            proof {
                assert(a@.contains(a@[k as int]));
            }
            return false;
        }
        k = k + 1;
    }
    let mut k: usize = 0;
    while k < b.len()
        invariant
            k <= b@.len(),
            forall|t: int| 0 <= t < a@.len() ==> b@.contains(#[trigger] a@[t]),
            forall|t: int| 0 <= t < k ==> a@.contains(#[trigger] b@[t]),
        decreases b@.len() - k,
    {
        if !vec_contains_move(a, b[k]) {
            proof {
                assert(b@.contains(b@[k as int]));
            }
            return false;
        }
        k = k + 1;
    }
    proof {
        assert forall|m: Move| a@.contains(m) implies b@.contains(m) by {
            let u = choose|u: int| 0 <= u < a@.len() && #[trigger] a@[u] == m;
        }
        assert forall|m: Move| b@.contains(m) implies a@.contains(m) by {
            let u = choose|u: int| 0 <= u < b@.len() && #[trigger] b@[u] == m;
        }
    }
    true
}

/// The landing cell of a capture by the piece at (i, j) along `d`.
pub open spec fn ck_cap_dest(b: Seq<i64>, i: int, j: int, d: int, c: Coords) -> bool {
    &&& ck_capture_at(b, i, j, d)
    &&& c.0 as int == i + 2 * ck_dir(d).0
    &&& c.1 as int == j + 2 * ck_dir(d).1
}

/// The target cell of a slide by the piece at (i, j) along `d`.
pub open spec fn ck_slide_dest(b: Seq<i64>, i: int, j: int, d: int, c: Coords) -> bool {
    &&& ck_slide_at(b, i, j, d)
    &&& c.0 as int == i + ck_dir(d).0
    &&& c.1 as int == j + ck_dir(d).1
}

/// The external image of a local cell, coordinate-wise.
pub open spec fn ck_from_local_cell(c: Coords) -> Coords {
    (((4 + c.0 - c.1) as usize), ((c.0 + c.1 - 3) as usize))
}

/// One of the four direction deltas of the local frame.
fn dir_delta(d: usize) -> (r: (i64, i64))
    requires
        d < 4,
    ensures
        (r.0 as int, r.1 as int) == ck_dir(d as int),
{
    if d == 0 {
        (0, -1)
    } else if d == 1 {
        (0, 1)
    } else if d == 2 {
        (-1, 0)
    } else {
        (1, 0)
    }
}

/// The colour whose men advance along the direction.
fn marker_of(d: usize) -> (r: i64)
    requires
        d < 4,
    ensures
        r as int == ck_marker(d as int),
{
    if d == 0 {
        1
    } else if d == 1 {
        -1
    } else if d == 2 {
        -1
    } else {
        1
    }
}

/// The moves of the single piece at (i, j): its captures when it has any
/// — or when a capture was already found elsewhere, in which case slides
/// are of no use — otherwise its slides. The flag reports whether a
/// capture is now known.
pub(crate) fn piece_moves(board: &Vec<i64>, i: usize, j: usize, capture_found: bool)
    -> (r: (Vec<Coords>, bool))
    requires
        ck_board_wf(board@),
        ck_playable(i as int, j as int),
        board@[ck_idx(i as int, j as int)] != 0,
        board@[ck_idx(i as int, j as int)] != 3,
    ensures
        r.1 == (capture_found
            || exists|d: int| 0 <= d < 4 && ck_capture_at(board@, i as int, j as int, d)),
        (exists|d: int| 0 <= d < 4 && ck_capture_at(board@, i as int, j as int, d))
            ==> (r.0@.no_duplicates() && forall|c: Coords| r.0@.contains(c) <==>
                exists|d: int| 0 <= d < 4 && #[trigger] ck_cap_dest(board@, i as int, j as int, d, c)),
        (!exists|d: int| 0 <= d < 4 && ck_capture_at(board@, i as int, j as int, d))
            && capture_found ==> r.0@ == Seq::<Coords>::empty(),
        (!exists|d: int| 0 <= d < 4 && ck_capture_at(board@, i as int, j as int, d))
            && !capture_found ==> (r.0@.no_duplicates() && forall|c: Coords| r.0@.contains(c) <==>
                exists|d: int| 0 <= d < 4 && #[trigger] ck_slide_dest(board@, i as int, j as int, d, c)),
{
    let v: i64 = board[i * 8 + j];
    let ii: i64 = i as i64;
    let jj: i64 = j as i64;
    let mut caps: Vec<Coords> = Vec::new();
    let mut slides: Vec<Coords> = Vec::new();
    let mut d: usize = 0;
    while d < 4
        invariant
            ck_board_wf(board@),
            ck_playable(i as int, j as int),
            v == board@[ck_idx(i as int, j as int)],
            v != 0,
            v != 3,
            ii == i as int,
            jj == j as int,
            d <= 4,
            caps@.no_duplicates(),
            slides@.no_duplicates(),
            forall|c: Coords| caps@.contains(c) <==>
                exists|d2: int| 0 <= d2 < d && #[trigger] ck_cap_dest(board@, i as int, j as int, d2, c),
            forall|c: Coords| slides@.contains(c) <==>
                exists|d2: int| 0 <= d2 < d && #[trigger] ck_slide_dest(board@, i as int, j as int, d2, c),
        decreases 4 - d,
    {
        let (di, dj) = dir_delta(d);
        let mk: i64 = marker_of(d);
        let allowed: bool = !(v == 1 || v == -1) || (if v > 0 { mk == 1 } else { mk == -1 });
        proof {
            assert(allowed == ck_dir_allowed(v, d as int));
        }
        if allowed {
            let li: i64 = ii + 2 * di;
            let lj: i64 = jj + 2 * dj;
            if 0 <= li && li < 7 && 0 <= lj && lj < 8 {
                let mi: i64 = ii + di;
                let mj: i64 = jj + dj;
                let mval: i64 = board[(mi * 8 + mj) as usize];
                let enemy: bool = if v > 0 {
                    mval < 0
                } else {
                    mval > 0
                };
                if enemy && board[(li * 8 + lj) as usize] == 0 {
                    let c: Coords = (li as usize, lj as usize);
                    proof {
                        assert(ck_cap_dest(board@, i as int, j as int, d as int, c));
                        assert(!caps@.contains(c)) by {
                            if exists|d2: int| 0 <= d2 < d
                                && #[trigger] ck_cap_dest(board@, i as int, j as int, d2, c) {
                                let d2 = choose|d2: int| 0 <= d2 < d
                                    && #[trigger] ck_cap_dest(board@, i as int, j as int, d2, c);
                                assert(ck_dir(d2) == ck_dir(d as int));
                            }
                        }
                    }
                    caps.push(c);
                    proof {
                        assert forall|c2: Coords| caps@.contains(c2) implies
                            exists|d2: int| 0 <= d2 < d + 1
                                && #[trigger] ck_cap_dest(board@, i as int, j as int, d2, c2) by {
                            if c2 == c {
                                assert(ck_cap_dest(board@, i as int, j as int, d as int, c2));
                            }
                        }
                    }
                }
            }
            let mi: i64 = ii + di;
            let mj: i64 = jj + dj;
            if 0 <= mi && mi < 7 && 0 <= mj && mj < 8 {
                if board[(mi * 8 + mj) as usize] == 0 {
                    let c: Coords = (mi as usize, mj as usize);
                    proof {
                        assert(ck_slide_dest(board@, i as int, j as int, d as int, c));
                        assert(!slides@.contains(c)) by {
                            if exists|d2: int| 0 <= d2 < d
                                && #[trigger] ck_slide_dest(board@, i as int, j as int, d2, c) {
                                let d2 = choose|d2: int| 0 <= d2 < d
                                    && #[trigger] ck_slide_dest(board@, i as int, j as int, d2, c);
                                assert(ck_dir(d2) == ck_dir(d as int));
                            }
                        }
                    }
                    slides.push(c);
                    proof {
                        assert forall|c2: Coords| slides@.contains(c2) implies
                            exists|d2: int| 0 <= d2 < d + 1
                                && #[trigger] ck_slide_dest(board@, i as int, j as int, d2, c2) by {
                            if c2 == c {
                                assert(ck_slide_dest(board@, i as int, j as int, d as int, c2));
                            }
                        }
                    }
                }
            }
        }
        proof {
            assert forall|c: Coords| (exists|d2: int| 0 <= d2 < d + 1
                && #[trigger] ck_cap_dest(board@, i as int, j as int, d2, c))
                implies caps@.contains(c) by {
                let d2 = choose|d2: int| 0 <= d2 < d + 1
                    && #[trigger] ck_cap_dest(board@, i as int, j as int, d2, c);
                if d2 == d {
                    assert(ck_capture_at(board@, i as int, j as int, d as int));
                }
            }
            assert forall|c: Coords| (exists|d2: int| 0 <= d2 < d + 1
                && #[trigger] ck_slide_dest(board@, i as int, j as int, d2, c))
                implies slides@.contains(c) by {
                let d2 = choose|d2: int| 0 <= d2 < d + 1
                    && #[trigger] ck_slide_dest(board@, i as int, j as int, d2, c);
                if d2 == d {
                    assert(ck_slide_at(board@, i as int, j as int, d as int));
                }
            }
        }
        d = d + 1;
    }
    let has_cap: bool = caps.len() > 0;
    proof {
        if caps@.len() > 0 {
            assert(caps@.contains(caps@[0]));
        } else {
            assert forall|d2: int| 0 <= d2 < 4
                implies !ck_capture_at(board@, i as int, j as int, d2) by {
                if ck_capture_at(board@, i as int, j as int, d2) {
                    let di2 = ck_dir(d2).0;
                    let dj2 = ck_dir(d2).1;
                    let c: Coords = (((ii + 2 * di2) as usize), ((jj + 2 * dj2) as usize));
                    assert(ck_cap_dest(board@, i as int, j as int, d2, c));
                    assert(caps@.contains(c));
                }
            }
        }
    }
    if has_cap || capture_found {
        (caps, true)
    } else {
        (slides, false)
    }
}

/// An empty cell of a well-formed board is playable: the sentinel cells
/// all hold 3.
pub proof fn lemma_empty_is_playable(b: Seq<i64>, i: int, j: int)
    requires
        ck_board_wf(b),
        ck_in_grid(i, j),
        b[ck_idx(i, j)] == 0,
    ensures
        ck_playable(i, j),
{
    if !ck_playable(i, j) {
        assert(b[ck_idx(i, j)] == 3);
    }
}

/// A piece of the mover sits on a playable cell: the sentinel cells all
/// hold 3.
pub proof fn lemma_piece_is_playable(b: Seq<i64>, pid: u32, i: int, j: int)
    requires
        ck_board_wf(b),
        ck_mover_piece(b, pid, i, j),
    ensures
        ck_playable(i, j),
{
    if !ck_playable(i, j) {
        assert(b[ck_idx(i, j)] == 3);
    }
}

/// The external moves of one piece's captures: pairing the piece's square
/// with the images of its landing cells yields exactly the external
/// capture moves whose local origin is that piece.
proof fn lemma_piece_caps_ext(b: Seq<i64>, pid: u32, i: usize, j: usize, dests: Seq<Coords>, me: Move)
    requires
        ck_board_wf(b),
        ck_playable(i as int, j as int),
        ck_mover_piece(b, pid, i as int, j as int),
        forall|c: Coords| dests.contains(c) <==>
            exists|d: int| 0 <= d < 4 && #[trigger] ck_cap_dest(b, i as int, j as int, d, c),
    ensures
        (exists|u: int| 0 <= u < dests.len()
            && me == (ck_from_local_cell((i, j)), ck_from_local_cell(#[trigger] dests[u])))
            <==> (ck_move_in_range(me)
                && ck_odd((me.0.0 as int, me.0.1 as int))
                && ck_odd((me.1.0 as int, me.1.1 as int))
                && ck_local_o(me) == (i as int, j as int)
                && ck_capture_move(b, pid, ck_local_o(me), ck_local_t(me))),
{
    if exists|u: int| 0 <= u < dests.len()
        && me == (ck_from_local_cell((i, j)), ck_from_local_cell(#[trigger] dests[u])) {
        let u = choose|u: int| 0 <= u < dests.len()
            && me == (ck_from_local_cell((i, j)), ck_from_local_cell(#[trigger] dests[u]));
        let c = dests[u];
        assert(dests.contains(c));
        let d = choose|d: int| 0 <= d < 4 && #[trigger] ck_cap_dest(b, i as int, j as int, d, c);
        lemma_empty_is_playable(b, c.0 as int, c.1 as int);
        lemma_from_to_local((i as int, j as int));
        lemma_from_to_local((c.0 as int, c.1 as int));
        assert((me.0.0 as int, me.0.1 as int) == ck_from_local((i as int, j as int)));
        assert((me.1.0 as int, me.1.1 as int) == ck_from_local((c.0 as int, c.1 as int)));
        assert(ck_local_o(me) == (i as int, j as int));
        assert(ck_local_t(me) == (c.0 as int, c.1 as int));
        assert(ck_capture_move(b, pid, ck_local_o(me), ck_local_t(me))) by {
            assert(c.0 as int - i as int == 2 * ck_dir(d).0);
            assert(c.1 as int - j as int == 2 * ck_dir(d).1);
            assert(ck_dir(d) == ((c.0 as int - i as int) / 2, (c.1 as int - j as int) / 2)) by {
                assert((2 * ck_dir(d).0) / 2 == ck_dir(d).0);
                assert((2 * ck_dir(d).1) / 2 == ck_dir(d).1);
            }
        }
    }
    if ck_move_in_range(me)
        && ck_odd((me.0.0 as int, me.0.1 as int))
        && ck_odd((me.1.0 as int, me.1.1 as int))
        && ck_local_o(me) == (i as int, j as int)
        && ck_capture_move(b, pid, ck_local_o(me), ck_local_t(me)) {
        let o = ck_local_o(me);
        let t = ck_local_t(me);
        let d = choose|d: int| 0 <= d < 4 && #[trigger] ck_dir(d) == ((t.0 - o.0) / 2, (t.1 - o.1) / 2)
            && t.0 - o.0 == 2 * ck_dir(d).0 && t.1 - o.1 == 2 * ck_dir(d).1
            && ck_mover_piece(b, pid, o.0, o.1) && ck_capture_at(b, o.0, o.1, d);
        lemma_to_from_local((me.0.0 as int, me.0.1 as int));
        lemma_to_from_local((me.1.0 as int, me.1.1 as int));
        assert(ck_in_grid(t.0, t.1));
        let c: Coords = (t.0 as usize, t.1 as usize);
        assert(ck_cap_dest(b, i as int, j as int, d, c));
        assert(dests.contains(c));
        let u = choose|u: int| 0 <= u < dests.len() && #[trigger] dests[u] == c;
        assert(me.0 == ck_from_local_cell((i, j))) by {
            assert(ck_from_local(o) == (me.0.0 as int, me.0.1 as int));
        }
        assert(me.1 == ck_from_local_cell(c)) by {
            assert(ck_from_local(t) == (me.1.0 as int, me.1.1 as int));
        }
        assert(me == (ck_from_local_cell((i, j)), ck_from_local_cell(dests[u])));
    }
}

/// The external moves of one piece's slides, in the same pairing.
proof fn lemma_piece_slides_ext(b: Seq<i64>, pid: u32, i: usize, j: usize, dests: Seq<Coords>, me: Move)
    requires
        ck_board_wf(b),
        ck_playable(i as int, j as int),
        ck_mover_piece(b, pid, i as int, j as int),
        forall|c: Coords| dests.contains(c) <==>
            exists|d: int| 0 <= d < 4 && #[trigger] ck_slide_dest(b, i as int, j as int, d, c),
    ensures
        (exists|u: int| 0 <= u < dests.len()
            && me == (ck_from_local_cell((i, j)), ck_from_local_cell(#[trigger] dests[u])))
            <==> (ck_move_in_range(me)
                && ck_odd((me.0.0 as int, me.0.1 as int))
                && ck_odd((me.1.0 as int, me.1.1 as int))
                && ck_local_o(me) == (i as int, j as int)
                && ck_slide_move(b, pid, ck_local_o(me), ck_local_t(me))),
{
    if exists|u: int| 0 <= u < dests.len()
        && me == (ck_from_local_cell((i, j)), ck_from_local_cell(#[trigger] dests[u])) {
        let u = choose|u: int| 0 <= u < dests.len()
            && me == (ck_from_local_cell((i, j)), ck_from_local_cell(#[trigger] dests[u]));
        let c = dests[u];
        assert(dests.contains(c));
        let d = choose|d: int| 0 <= d < 4 && #[trigger] ck_slide_dest(b, i as int, j as int, d, c);
        lemma_empty_is_playable(b, c.0 as int, c.1 as int);
        lemma_from_to_local((i as int, j as int));
        lemma_from_to_local((c.0 as int, c.1 as int));
        assert((me.0.0 as int, me.0.1 as int) == ck_from_local((i as int, j as int)));
        assert((me.1.0 as int, me.1.1 as int) == ck_from_local((c.0 as int, c.1 as int)));
        assert(ck_local_o(me) == (i as int, j as int));
        assert(ck_local_t(me) == (c.0 as int, c.1 as int));
        assert(ck_slide_move(b, pid, ck_local_o(me), ck_local_t(me))) by {
            assert(c.0 as int - i as int == ck_dir(d).0);
            assert(c.1 as int - j as int == ck_dir(d).1);
        }
    }
    if ck_move_in_range(me)
        && ck_odd((me.0.0 as int, me.0.1 as int))
        && ck_odd((me.1.0 as int, me.1.1 as int))
        && ck_local_o(me) == (i as int, j as int)
        && ck_slide_move(b, pid, ck_local_o(me), ck_local_t(me)) {
        let o = ck_local_o(me);
        let t = ck_local_t(me);
        let d = choose|d: int| 0 <= d < 4 && #[trigger] ck_dir(d) == (t.0 - o.0, t.1 - o.1)
            && ck_mover_piece(b, pid, o.0, o.1) && ck_slide_at(b, o.0, o.1, d);
        lemma_to_from_local((me.0.0 as int, me.0.1 as int));
        lemma_to_from_local((me.1.0 as int, me.1.1 as int));
        assert(ck_in_grid(t.0, t.1));
        let c: Coords = (t.0 as usize, t.1 as usize);
        assert(ck_slide_dest(b, i as int, j as int, d, c));
        assert(dests.contains(c));
        let u = choose|u: int| 0 <= u < dests.len() && #[trigger] dests[u] == c;
        assert(me.0 == ck_from_local_cell((i, j))) by {
            assert(ck_from_local(o) == (me.0.0 as int, me.0.1 as int));
        }
        assert(me.1 == ck_from_local_cell(c)) by {
            assert(ck_from_local(t) == (me.1.0 as int, me.1.1 as int));
        }
        assert(me == (ck_from_local_cell((i, j)), ck_from_local_cell(dests[u])));
    }
}

/// Carries a local move to the external frame, coordinate-wise.
fn from_local_mv(o: Coords, c: Coords) -> (me: Move)
    requires
        ck_playable(o.0 as int, o.1 as int),
        ck_playable(c.0 as int, c.1 as int),
    ensures
        me == (ck_from_local_cell(o), ck_from_local_cell(c)),
{
    (((4 + o.0) - o.1, (o.0 + o.1) - 3), ((4 + c.0) - c.1, (c.0 + c.1) - 3))
}


/// Appends, for one piece, the external image of each of its target cells
/// to the accumulated move list, keeping the list duplicate-free.
fn append_ext_moves(moves: &mut Vec<Move>, i: usize, j: usize, dests: &Vec<Coords>, Ghost(b): Ghost<Seq<i64>>)
    requires
        ck_board_wf(b),
        ck_playable(i as int, j as int),
        dests@.no_duplicates(),
        forall|c: Coords| dests@.contains(c) ==>
            ck_in_grid(c.0 as int, c.1 as int) && b[ck_idx(c.0 as int, c.1 as int)] == 0,
        old(moves)@.no_duplicates(),
        forall|me: Move| #[trigger] old(moves)@.contains(me) ==> me.0 != ck_from_local_cell((i, j)),
    ensures
        final(moves)@.no_duplicates(),
        final(moves)@.len() == old(moves)@.len() + dests@.len(),
        forall|me: Move| #[trigger] final(moves)@.contains(me) <==>
            (old(moves)@.contains(me) || exists|u: int| 0 <= u < dests@.len()
                && me == (ck_from_local_cell((i, j)), ck_from_local_cell(#[trigger] dests@[u]))),
{
    let ghost base = moves@;
    let mut t: usize = 0;
    while t < dests.len()
        invariant
            ck_board_wf(b),
            ck_playable(i as int, j as int),
            dests@.no_duplicates(),
            forall|c: Coords| dests@.contains(c) ==>
                ck_in_grid(c.0 as int, c.1 as int) && b[ck_idx(c.0 as int, c.1 as int)] == 0,
            base.no_duplicates(),
            forall|me: Move| #[trigger] base.contains(me) ==> me.0 != ck_from_local_cell((i, j)),
            t <= dests@.len(),
            moves@.no_duplicates(),
            moves@.len() == base.len() + t,
            forall|me: Move| #[trigger] moves@.contains(me) <==>
                (base.contains(me) || exists|u: int| 0 <= u < t
                    && me == (ck_from_local_cell((i, j)),
                        ck_from_local_cell(#[trigger] dests@[u]))),
        decreases dests@.len() - t,
    {
        let c: Coords = dests[t];
        proof {
            assert(dests@.contains(c));
            lemma_empty_is_playable(b, c.0 as int, c.1 as int);
        }
        let me: Move = from_local_mv((i, j), c);
        proof {
            lemma_from_to_local((i as int, j as int));
            lemma_from_to_local((c.0 as int, c.1 as int));
            assert(me.0 == ck_from_local_cell((i, j)));
            assert(me.1 == ck_from_local_cell(c));
            if exists|u: int| 0 <= u < t
                && me == (ck_from_local_cell((i, j)),
                    ck_from_local_cell(#[trigger] dests@[u])) {
                let u = choose|u: int| 0 <= u < t
                    && me == (ck_from_local_cell((i, j)),
                        ck_from_local_cell(#[trigger] dests@[u]));
                let c2 = dests@[u];
                assert(dests@.contains(c2));
                lemma_empty_is_playable(b, c2.0 as int, c2.1 as int);
                lemma_from_to_local((c2.0 as int, c2.1 as int));
                assert(me.1 == ck_from_local_cell(c2));
                assert((me.1.0 as int, me.1.1 as int)
                    == ck_from_local((c2.0 as int, c2.1 as int)));
                assert((me.1.0 as int, me.1.1 as int)
                    == ck_from_local((c.0 as int, c.1 as int)));
                assert(ck_to_local(ck_from_local((c2.0 as int, c2.1 as int)))
                    == (c2.0 as int, c2.1 as int));
                assert(ck_to_local(ck_from_local((c.0 as int, c.1 as int)))
                    == (c.0 as int, c.1 as int));
                assert(c2.0 as int == c.0 as int && c2.1 as int == c.1 as int);
                assert(c2 == c);
                assert(dests@[u] == dests@[t as int]);
                assert(u != t as int);
                assert(false);
            }
            assert(!moves@.contains(me));
        }
        let ghost prev = moves@;
        moves.push(me);
        proof {
            assert forall|me2: Move| moves@.contains(me2) implies
                (base.contains(me2) || exists|u: int| 0 <= u < t + 1
                    && me2 == (ck_from_local_cell((i, j)),
                        ck_from_local_cell(#[trigger] dests@[u]))) by {
                if me2 == me {
                    assert(me2 == (ck_from_local_cell((i, j)),
                        ck_from_local_cell(dests@[t as int])));
                } else {
                    assert(prev.contains(me2));
                    if !base.contains(me2) {
                        let u = choose|u: int| 0 <= u < t
                            && me2 == (ck_from_local_cell((i, j)),
                                ck_from_local_cell(#[trigger] dests@[u]));
                        assert(0 <= u < t + 1
                            && me2 == (ck_from_local_cell((i, j)),
                                ck_from_local_cell(dests@[u])));
                    }
                }
            }
            assert forall|me2: Move| (base.contains(me2) || exists|u: int| 0 <= u < t + 1
                && me2 == (ck_from_local_cell((i, j)),
                    ck_from_local_cell(#[trigger] dests@[u])))
                implies moves@.contains(me2) by {
                if base.contains(me2) {
                    assert(prev.contains(me2));
                } else {
                    let u = choose|u: int| 0 <= u < t + 1
                        && me2 == (ck_from_local_cell((i, j)),
                            ck_from_local_cell(#[trigger] dests@[u]));
                    if u < t {
                        assert(prev.contains(me2));
                    } else {
                        assert(me2 == me);
                    }
                }
            }
        }
        t = t + 1;
    }
}

/// Some piece of the mover among the first `n` cells has a capture.
pub open spec fn ck_any_capture_upto(b: Seq<i64>, pid: u32, n: int) -> bool {
    exists|i: int, j: int, d: int|
        0 <= d < 4 && #[trigger] ck_mover_piece(b, pid, i, j) && ck_idx(i, j) < n
            && #[trigger] ck_capture_at(b, i, j, d)
}

/// An external capture move whose origin lies among the first `n` cells.
pub open spec fn ck_ext_cap_upto(b: Seq<i64>, pid: u32, n: int, me: Move) -> bool {
    &&& ck_move_in_range(me)
    &&& ck_odd((me.0.0 as int, me.0.1 as int))
    &&& ck_odd((me.1.0 as int, me.1.1 as int))
    &&& ck_capture_move(b, pid, ck_local_o(me), ck_local_t(me))
    &&& ck_idx(ck_local_o(me).0, ck_local_o(me).1) < n
}

/// An external slide move whose origin lies among the first `n` cells.
pub open spec fn ck_ext_slide_upto(b: Seq<i64>, pid: u32, n: int, me: Move) -> bool {
    &&& ck_move_in_range(me)
    &&& ck_odd((me.0.0 as int, me.0.1 as int))
    &&& ck_odd((me.1.0 as int, me.1.1 as int))
    &&& ck_slide_move(b, pid, ck_local_o(me), ck_local_t(me))
    &&& ck_idx(ck_local_o(me).0, ck_local_o(me).1) < n
}

impl RawCheckersState {
    /// Whether the mover has any move at all, chain or no chain.
    pub(crate) fn _has_moves(&self) -> (r: bool)
        requires
            self.wf(),
        ensures
            r == ck_has_moves(self.board@, self.curr_pid),
    {
        let mut k: usize = 0;
        while k < 56
            invariant
                self.wf(),
                k <= 56,
                forall|i: int, j: int, d: int|
                    #![trigger ck_mover_piece(self.board@, self.curr_pid, i, j), ck_capture_at(self.board@, i, j, d)]
                    #![trigger ck_mover_piece(self.board@, self.curr_pid, i, j), ck_slide_at(self.board@, i, j, d)]
                    0 <= d < 4
                    && ck_mover_piece(self.board@, self.curr_pid, i, j)
                    && ck_idx(i, j) < k
                    ==> !(ck_capture_at(self.board@, i, j, d)
                        || ck_slide_at(self.board@, i, j, d)),
            decreases 56 - k,
        {
            let i: usize = k / 8;
            let j: usize = k % 8;
            let v: i64 = self.board[k];
            let mover: bool = (if self.curr_pid == 1 { v > 0 } else { v < 0 }) && v < 3;
            proof {
                assert(ck_idx(i as int, j as int) == k);
                assert(mover == ck_mover_piece(self.board@, self.curr_pid, i as int, j as int));
            }
            if mover {
                proof {
                    lemma_piece_is_playable(self.board@, self.curr_pid, i as int, j as int);
                }
                let (dests, found) = piece_moves(&self.board, i, j, false);
                if dests.len() > 0 {
                    proof {
                        assert(dests@.contains(dests@[0]));
                        assert(ck_has_moves(self.board@, self.curr_pid)) by {
                            if exists|d: int| 0 <= d < 4
                                && ck_capture_at(self.board@, i as int, j as int, d) {
                                let d = choose|d: int| 0 <= d < 4
                                    && ck_capture_at(self.board@, i as int, j as int, d);
                                assert(ck_mover_piece(self.board@, self.curr_pid, i as int, j as int)
                                    && ck_capture_at(self.board@, i as int, j as int, d));
                            } else {
                                let d = choose|d: int| 0 <= d < 4
                                    && #[trigger] ck_slide_dest(self.board@, i as int, j as int, d, dests@[0]);
                                assert(ck_mover_piece(self.board@, self.curr_pid, i as int, j as int)
                                    && ck_slide_at(self.board@, i as int, j as int, d));
                            }
                        }
                    }
                    return true;
                }
                proof {
                    assert(!exists|d: int| 0 <= d < 4
                        && ck_capture_at(self.board@, i as int, j as int, d)) by {
                        if exists|d: int| 0 <= d < 4
                            && ck_capture_at(self.board@, i as int, j as int, d) {
                            let d = choose|d: int| 0 <= d < 4
                                && ck_capture_at(self.board@, i as int, j as int, d);
                            let c: Coords = (((i as int + 2 * ck_dir(d).0) as usize),
                                ((j as int + 2 * ck_dir(d).1) as usize));
                            assert(ck_cap_dest(self.board@, i as int, j as int, d, c));
                            assert(dests@.contains(c));
                        }
                    }
                    assert forall|i2: int, j2: int, d: int|
                        0 <= d < 4
                        && ck_mover_piece(self.board@, self.curr_pid, i2, j2)
                        && ck_idx(i2, j2) < k + 1
                        implies !(ck_capture_at(self.board@, i2, j2, d)
                            || ck_slide_at(self.board@, i2, j2, d)) by {
                        if ck_idx(i2, j2) == k {
                            assert(i2 == i as int && j2 == j as int);
                            if ck_slide_at(self.board@, i2, j2, d) {
                                let c: Coords = (((i2 + ck_dir(d).0) as usize),
                                    ((j2 + ck_dir(d).1) as usize));
                                assert(ck_slide_dest(self.board@, i2, j2, d, c));
                                assert(dests@.contains(c));
                            }
                        }
                    }
                }
            } else {
                proof {
                    assert forall|i2: int, j2: int, d: int|
                        0 <= d < 4
                        && ck_mover_piece(self.board@, self.curr_pid, i2, j2)
                        && ck_idx(i2, j2) < k + 1
                        implies !(ck_capture_at(self.board@, i2, j2, d)
                            || ck_slide_at(self.board@, i2, j2, d)) by {
                        if ck_idx(i2, j2) == k {
                            assert(i2 == i as int && j2 == j as int);
                        }
                    }
                }
            }
            k = k + 1;
        }
        proof {
            if ck_has_moves(self.board@, self.curr_pid) {
                let (i, j, d) = choose|i: int, j: int, d: int|
                    0 <= d < 4 && #[trigger] ck_mover_piece(self.board@, self.curr_pid, i, j)
                        && (#[trigger] ck_capture_at(self.board@, i, j, d)
                            || ck_slide_at(self.board@, i, j, d));
                assert(ck_idx(i, j) < 56);
            }
        }
        false
    }

    /// The complete, duplicate-free set of external moves available to the
    /// mover: the pending chain's continuations while one is pending; else
    /// every capture when any capture exists, else every slide.
    #[verifier::rlimit(100)]
    pub fn get_legal_moves(&self) -> (r: Vec<Move>)
        requires
            self.wf(),
        ensures
            self.cached_moves matches Some(c) ==> r@ == c@,
            self.cached_moves is None ==> (r@.no_duplicates()
                && forall|me: Move| r@.contains(me) <==>
                    ck_ext_legal(self.board@, self.curr_pid, me)),
    {
        match &self.cached_moves {
            Some(c) => {
                return copy_moves(c);
            },
            None => {},
        }
        let mut moves: Vec<Move> = Vec::new();
        let mut capture: bool = false;
        let mut k: usize = 0;
        while k < 56
            invariant
                self.wf(),
                self.cached_moves is None,
                k <= 56,
                capture == ck_any_capture_upto(self.board@, self.curr_pid, k as int),
                moves@.no_duplicates(),
                capture ==> forall|me: Move| moves@.contains(me) <==>
                    ck_ext_cap_upto(self.board@, self.curr_pid, k as int, me),
                !capture ==> forall|me: Move| moves@.contains(me) <==>
                    ck_ext_slide_upto(self.board@, self.curr_pid, k as int, me),
            decreases 56 - k,
        {
            let ghost b = self.board@;
            let ghost pid = self.curr_pid;
            let i: usize = k / 8;
            let j: usize = k % 8;
            let v: i64 = self.board[k];
            let mover: bool = (if self.curr_pid == 1 { v > 0 } else { v < 0 }) && v < 3;
            proof {
                assert(ck_idx(i as int, j as int) == k);
                assert(mover == ck_mover_piece(b, pid, i as int, j as int));
                assert forall|i2: int, j2: int| ck_in_grid(i2, j2)
                    && ck_idx(i2, j2) == k implies i2 == i as int && j2 == j as int by {
                    assert(j2 < 8);
                }
            }
            if mover {
                proof {
                    lemma_piece_is_playable(b, pid, i as int, j as int);
                }
                let (dests, found) = piece_moves(&self.board, i, j, capture);
                let ghost has_cap = exists|d: int| 0 <= d < 4
                    && ck_capture_at(b, i as int, j as int, d);
                if found && !capture {
                    moves = Vec::new();
                    capture = true;
                    proof {
                        assert forall|me: Move| !ck_ext_cap_upto(b, pid, k as int, me) by {
                            if ck_ext_cap_upto(b, pid, k as int, me) {
                                let o = ck_local_o(me);
                                let t2 = ck_local_t(me);
                                let d = choose|d: int| 0 <= d < 4
                                    && #[trigger] ck_dir(d) == ((t2.0 - o.0) / 2, (t2.1 - o.1) / 2)
                                    && t2.0 - o.0 == 2 * ck_dir(d).0 && t2.1 - o.1 == 2 * ck_dir(d).1
                                    && ck_mover_piece(b, pid, o.0, o.1)
                                    && ck_capture_at(b, o.0, o.1, d);
                                assert(ck_mover_piece(b, pid, o.0, o.1)
                                    && ck_idx(o.0, o.1) < k && ck_capture_at(b, o.0, o.1, d));
                                assert(ck_any_capture_upto(b, pid, k as int));
                            }
                        }
                    }
                }
                proof {
                    if has_cap {
                        assert(capture);
                        let d = choose|d: int| 0 <= d < 4
                            && ck_capture_at(b, i as int, j as int, d);
                        assert(ck_mover_piece(b, pid, i as int, j as int)
                            && ck_capture_at(b, i as int, j as int, d));
                        assert(ck_any_capture_upto(b, pid, k as int + 1));
                    } else if !capture {
                    } else {
                        assert(dests@ == Seq::<Coords>::empty());
                    }
                }
                let ghost base = moves@;
                proof {
                    assert forall|me: Move| base.contains(me)
                        implies me.0 != ck_from_local_cell((i, j)) by {
                        if me.0 == ck_from_local_cell((i, j)) {
                            lemma_from_to_local((i as int, j as int));
                            assert((me.0.0 as int, me.0.1 as int)
                                == ck_from_local((i as int, j as int)));
                            assert(ck_local_o(me) == (i as int, j as int));
                            assert(ck_idx(i as int, j as int) == k);
                        }
                    }
                }
                append_ext_moves(&mut moves, i, j, &dests, Ghost(b));
                proof {
                    assert forall|i2: int, j2: int| ck_in_grid(i2, j2)
                        && ck_idx(i2, j2) == k implies i2 == i as int && j2 == j as int by {
                        assert(j2 < 8);
                    }
                    if has_cap {
                        assert forall|me: Move| moves@.contains(me) implies
                            ck_ext_cap_upto(b, pid, k as int + 1, me) by {
                            if !base.contains(me) {
                                lemma_piece_caps_ext(b, pid, i, j, dests@, me);
                                assert(ck_local_o(me) == (i as int, j as int));
                                assert(ck_idx(i as int, j as int) == k);
                            }
                        }
                        assert forall|me: Move| ck_ext_cap_upto(b, pid, k as int + 1, me)
                            implies moves@.contains(me) by {
                            let o = ck_local_o(me);
                            assert(ck_mover_piece(b, pid, o.0, o.1));
                            if ck_idx(o.0, o.1) == k {
                                assert(o == (i as int, j as int));
                                lemma_piece_caps_ext(b, pid, i, j, dests@, me);
                            } else {
                                assert(ck_ext_cap_upto(b, pid, k as int, me));
                            }
                        }
                    } else if capture {
                        assert forall|me: Move| ck_ext_cap_upto(b, pid, k as int + 1, me)
                            implies moves@.contains(me) by {
                            let o = ck_local_o(me);
                            assert(ck_mover_piece(b, pid, o.0, o.1));
                            if ck_idx(o.0, o.1) == k {
                                assert(o == (i as int, j as int));
                                let t2 = ck_local_t(me);
                                let d = choose|d: int| 0 <= d < 4
                                    && #[trigger] ck_dir(d) == ((t2.0 - o.0) / 2, (t2.1 - o.1) / 2)
                                    && t2.0 - o.0 == 2 * ck_dir(d).0 && t2.1 - o.1 == 2 * ck_dir(d).1
                                    && ck_mover_piece(b, pid, o.0, o.1)
                                    && ck_capture_at(b, o.0, o.1, d);
                                assert(ck_capture_at(b, i as int, j as int, d));
                                assert(false);
                            } else {
                                assert(ck_ext_cap_upto(b, pid, k as int, me));
                            }
                        }
                        assert forall|me: Move| moves@.contains(me) implies
                            ck_ext_cap_upto(b, pid, k as int + 1, me) by {}
                    } else {
                        assert forall|me: Move| moves@.contains(me) implies
                            ck_ext_slide_upto(b, pid, k as int + 1, me) by {
                            if !base.contains(me) {
                                lemma_piece_slides_ext(b, pid, i, j, dests@, me);
                                assert(ck_local_o(me) == (i as int, j as int));
                                assert(ck_idx(i as int, j as int) == k);
                            }
                        }
                        assert forall|me: Move| ck_ext_slide_upto(b, pid, k as int + 1, me)
                            implies moves@.contains(me) by {
                            let o = ck_local_o(me);
                            assert(ck_mover_piece(b, pid, o.0, o.1));
                            if ck_idx(o.0, o.1) == k {
                                assert(o == (i as int, j as int));
                                lemma_piece_slides_ext(b, pid, i, j, dests@, me);
                            } else {
                                assert(ck_ext_slide_upto(b, pid, k as int, me));
                            }
                        }
                        assert(!ck_any_capture_upto(b, pid, k as int + 1)) by {
                            if ck_any_capture_upto(b, pid, k as int + 1) {
                                let (i2, j2, d) = choose|i2: int, j2: int, d: int|
                                    0 <= d < 4 && #[trigger] ck_mover_piece(b, pid, i2, j2)
                                        && ck_idx(i2, j2) < k + 1
                                        && #[trigger] ck_capture_at(b, i2, j2, d);
                                if ck_idx(i2, j2) == k {
                                    assert(i2 == i as int && j2 == j as int);
                                    assert(ck_capture_at(b, i as int, j as int, d));
                                }
                            }
                        }
                    }
                }
            } else {
                proof {
                    assert forall|i2: int, j2: int| ck_in_grid(i2, j2)
                        && ck_idx(i2, j2) == k implies i2 == i as int && j2 == j as int by {
                        assert(j2 < 8);
                    }
                    if capture {
                        assert forall|me: Move| ck_ext_cap_upto(b, pid, k as int + 1, me)
                            implies ck_ext_cap_upto(b, pid, k as int, me) by {
                            let o = ck_local_o(me);
                            assert(ck_mover_piece(b, pid, o.0, o.1));
                            if ck_idx(o.0, o.1) == k {
                                assert(o == (i as int, j as int));
                                assert(false);
                            }
                        }
                    } else {
                        assert forall|me: Move| ck_ext_slide_upto(b, pid, k as int + 1, me)
                            implies ck_ext_slide_upto(b, pid, k as int, me) by {
                            let o = ck_local_o(me);
                            assert(ck_mover_piece(b, pid, o.0, o.1));
                            if ck_idx(o.0, o.1) == k {
                                assert(o == (i as int, j as int));
                                assert(false);
                            }
                        }
                        assert(!ck_any_capture_upto(b, pid, k as int + 1)) by {
                            if ck_any_capture_upto(b, pid, k as int + 1) {
                                let (i2, j2, d) = choose|i2: int, j2: int, d: int|
                                    0 <= d < 4 && #[trigger] ck_mover_piece(b, pid, i2, j2)
                                        && ck_idx(i2, j2) < k + 1
                                        && #[trigger] ck_capture_at(b, i2, j2, d);
                                if ck_idx(i2, j2) == k {
                                    assert(i2 == i as int && j2 == j as int);
                                }
                            }
                        }
                    }
                }
            }
            k = k + 1;
        }
        proof {
            let b = self.board@;
            let pid = self.curr_pid;
            assert(ck_any_capture_upto(b, pid, 56) == ck_any_capture(b, pid)) by {
                if ck_any_capture(b, pid) {
                    let (i2, j2, d) = choose|i2: int, j2: int, d: int|
                        0 <= d < 4 && #[trigger] ck_mover_piece(b, pid, i2, j2)
                            && #[trigger] ck_capture_at(b, i2, j2, d);
                    assert(ck_idx(i2, j2) < 56);
                    assert(ck_mover_piece(b, pid, i2, j2) && ck_idx(i2, j2) < 56
                        && ck_capture_at(b, i2, j2, d));
                }
            }
            if capture {
                assert forall|me: Move| moves@.contains(me) <==>
                    ck_ext_legal(b, pid, me) by {
                    if ck_ext_legal(b, pid, me) {
                        assert(ck_mover_piece(b, pid, ck_local_o(me).0, ck_local_o(me).1));
                        assert(ck_idx(ck_local_o(me).0, ck_local_o(me).1) < 56);
                    }
                }
            } else {
                assert forall|me: Move| moves@.contains(me) <==>
                    ck_ext_legal(b, pid, me) by {
                    if ck_ext_legal(b, pid, me) {
                        assert(ck_mover_piece(b, pid, ck_local_o(me).0, ck_local_o(me).1));
                        assert(ck_idx(ck_local_o(me).0, ck_local_o(me).1) < 56);
                    }
                }
            }
        }
        moves
    }

    /// The winner: a side without pieces has lost; a side to move without
    /// a move has lost; otherwise the game goes on.
    pub fn winner(&self) -> (r: u32)
        requires
            self.wf(),
        ensures
            r as int == ck_winner_spec(self.board@, self.curr_pid),
    {
        let (p1, p2) = self.score();
        if p1 == 0 || p2 == 0 {
            if p1 > 0 {
                return 1;
            }
            return 2;
        }
        if !self._has_moves() {
            return next_pid(self.curr_pid);
        }
        0
    }
}

/// The winner of a board with `pid` to move: the side keeping pieces when
/// the other has none, else the opponent of a mover without moves, else 0
/// while the game goes on.
pub open spec fn ck_winner_spec(b: Seq<i64>, pid: u32) -> int {
    if ck_count_p1(b, 56) == 0 || ck_count_p2(b, 56) == 0 {
        if ck_count_p1(b, 56) > 0 {
            1
        } else {
            2
        }
    } else if !ck_has_moves(b, pid) {
        next_pid_spec(pid) as int
    } else {
        0
    }
}

/// The local cells of origin and target differ by more than one step:
/// the move jumps, so it is a capture.
pub open spec fn ck_capture_shape(lo: (int, int), ld: (int, int)) -> bool {
    (if lo.0 <= ld.0 { ld.0 - lo.0 } else { lo.0 - ld.0 })
        + (if lo.1 <= ld.1 { ld.1 - lo.1 } else { lo.1 - ld.1 }) > 1
}

/// The piece on local cell `p` has a further capture available.
pub open spec fn ck_any_capture_from(b: Seq<i64>, p: (int, int)) -> bool {
    exists|d: int| 0 <= d < 4 && ck_capture_at(b, p.0, p.1, d)
}

/// An external move continuing a pending chain: a capture of the mover
/// whose local origin is the last landing cell `ld`.
pub open spec fn ck_continuation(b: Seq<i64>, pid: u32, ld: (int, int), m2: Move) -> bool {
    &&& ck_move_in_range(m2)
    &&& ck_odd((m2.0.0 as int, m2.0.1 as int))
    &&& ck_odd((m2.1.0 as int, m2.1.1 as int))
    &&& ck_local_o(m2) == ld
    &&& ck_capture_move(b, pid, ck_local_o(m2), ck_local_t(m2))
}

/// The external row on which the mover's men promote to kings.
pub open spec fn ck_promote_row(pid: u32) -> int {
    if pid == 1 {
        7
    } else {
        0
    }
}

/// The local board after playing the external move `m`: every cell of the
/// bounding rectangle between the move's local endpoints is emptied —
/// taking the jumped piece with it — and the moved piece arrives on the
/// target cell, doubled to a king when a man reaches its promotion row.
pub open spec fn ck_next_board(b: Seq<i64>, m: Move, pid: u32) -> Seq<i64> {
    let lo = ck_local_o(m);
    let ld = ck_local_t(m);
    let x0 = if lo.0 <= ld.0 { lo.0 } else { ld.0 };
    let x1 = if lo.0 <= ld.0 { ld.0 } else { lo.0 };
    let y0 = if lo.1 <= ld.1 { lo.1 } else { ld.1 };
    let y1 = if lo.1 <= ld.1 { ld.1 } else { lo.1 };
    let beg = b[ck_idx(lo.0, lo.1)];
    let fin = if m.1.0 as int == ck_promote_row(pid) && abs_val(beg) == 1 {
        (2 * beg) as i64
    } else {
        beg
    };
    Seq::new(56, |k: int| {
        let i = k / 8;
        let j = k % 8;
        if i == ld.0 && j == ld.1 {
            fin
        } else if x0 <= i <= x1 && y0 <= j <= y1 {
            0i64
        } else {
            b[k]
        }
    })
}

/// How one play transforms a state: the board as `ck_next_board`; the ply
/// counter advanced; and, when the move was a capture and the landing
/// piece can capture again, the same mover stays on turn with the pending
/// cache holding exactly the continuations from the landing cell —
/// otherwise the turn passes and no cache is pending.
pub open spec fn ck_play_rel(pre: RawCheckersState, m: Move, post: RawCheckersState) -> bool {
    let lo = ck_local_o(m);
    let ld = ck_local_t(m);
    &&& post.board@ == ck_next_board(pre.board@, m, pre.curr_pid)
    &&& post.turn == pre.turn + 1
    &&& if ck_capture_shape(lo, ld) && ck_any_capture_from(post.board@, ld) {
            &&& post.curr_pid == pre.curr_pid
            &&& post.cached_moves matches Some(c)
            &&& (post.cached_moves matches Some(c) ==> c@.no_duplicates()
                && forall|m2: Move| #[trigger] c@.contains(m2) <==>
                    ck_continuation(post.board@, pre.curr_pid, ld, m2))
        } else {
            &&& post.curr_pid == next_pid_spec(pre.curr_pid)
            &&& post.cached_moves is None
        }
}

/// The cell jumped over in a two-step axis move between playable cells is
/// itself playable: the diamond is convex along rows and columns.
proof fn lemma_mid_playable(lo: (int, int), ld: (int, int))
    requires
        ck_playable(lo.0, lo.1),
        ck_playable(ld.0, ld.1),
        (lo.0 == ld.0 && (ld.1 - lo.1 == 2 || lo.1 - ld.1 == 2))
            || (lo.1 == ld.1 && (ld.0 - lo.0 == 2 || lo.0 - ld.0 == 2)),
    ensures
        ck_playable((lo.0 + ld.0) / 2, (lo.1 + ld.1) / 2),
{
}

impl RawCheckersState {
    /// The moves the mover may play now: the pending chain's
    /// continuations while one is pending, else the legal set of the
    /// board.
    pub open spec fn legal_now(&self, m: Move) -> bool {
        match self.cached_moves {
            Some(c) => c@.contains(m),
            None => ck_ext_legal(self.board@, self.curr_pid, m),
        }
    }

    /// Plays a move, producing the next state and leaving this one
    /// untouched. A coordinate off the board or a move outside the set
    /// `get_legal_moves` would return is rejected.
    #[verifier::rlimit(100)]
    pub fn play(&self, c_move: Move) -> (r: Result<Self, MoveError>)
        requires
            self.wf(),
            self.turn < u32::MAX,
        ensures
            !ck_move_in_range(c_move) ==> r == Err::<Self, MoveError>(MoveError::OutOfRange),
            ck_move_in_range(c_move) && !self.legal_now(c_move)
                ==> r == Err::<Self, MoveError>(MoveError::Illegal),
            self.legal_now(c_move) ==> (r matches Ok(s2)
                && ck_play_rel(*self, c_move, s2)
                && s2.wf()),
    {
        let ((ea, eb), (ec, ed)) = c_move;
        if !(ea < 8 && eb < 8 && ec < 8 && ed < 8) {
            proof {
                if self.legal_now(c_move) && self.cached_moves is Some {
                    assert(self.cached_moves->Some_0@.contains(c_move));
                    lemma_cached_is_capture(*self, c_move);
                }
            }
            return Err(MoveError::OutOfRange);
        }
        let is_in: bool = match &self.cached_moves {
            Some(c) => vec_contains_move(c, c_move),
            None => {
                let all = self.get_legal_moves();
                vec_contains_move(&all, c_move)
            },
        };
        if !is_in {
            return Err(MoveError::Illegal);
        }
        proof {
            assert(self.legal_now(c_move));
            if self.cached_moves is Some {
                assert(self.cached_moves->Some_0@.contains(c_move));
                lemma_cached_is_capture(*self, c_move);
            }
            assert(ck_odd((ea as int, eb as int)) && ck_odd((ec as int, ed as int)));
            lemma_to_from_local((ea as int, eb as int));
            lemma_to_from_local((ec as int, ed as int));
        }
        let lox: usize = ((ea + eb) - 1) / 2;
        let loy: usize = ((eb + 7) - ea) / 2;
        let ldx: usize = ((ec + ed) - 1) / 2;
        let ldy: usize = ((ed + 7) - ec) / 2;
        proof {
            assert(lox as int == ck_local_o(c_move).0);
            assert(loy as int == ck_local_o(c_move).1);
            assert(ldx as int == ck_local_t(c_move).0);
            assert(ldy as int == ck_local_t(c_move).1);
            assert(ck_playable(lox as int, loy as int));
            assert(ck_playable(ldx as int, ldy as int));
            assert(ck_mover_piece(self.board@, self.curr_pid, lox as int, loy as int)) by {
                if self.cached_moves is Some {
                        let o = ck_local_o(c_move);
                        let t2 = ck_local_t(c_move);
                        let d = choose|d: int| 0 <= d < 4
                            && #[trigger] ck_dir(d) == ((t2.0 - o.0) / 2, (t2.1 - o.1) / 2)
                            && t2.0 - o.0 == 2 * ck_dir(d).0 && t2.1 - o.1 == 2 * ck_dir(d).1
                            && ck_mover_piece(self.board@, self.curr_pid, o.0, o.1)
                            && ck_capture_at(self.board@, o.0, o.1, d);
                } else {
                        if ck_any_capture(self.board@, self.curr_pid) {
                            let o = ck_local_o(c_move);
                            let t2 = ck_local_t(c_move);
                            let d = choose|d: int| 0 <= d < 4
                                && #[trigger] ck_dir(d) == ((t2.0 - o.0) / 2, (t2.1 - o.1) / 2)
                                && t2.0 - o.0 == 2 * ck_dir(d).0 && t2.1 - o.1 == 2 * ck_dir(d).1
                                && ck_mover_piece(self.board@, self.curr_pid, o.0, o.1)
                                && ck_capture_at(self.board@, o.0, o.1, d);
                        } else {
                            let o = ck_local_o(c_move);
                            let t2 = ck_local_t(c_move);
                            let d = choose|d: int| 0 <= d < 4
                                && #[trigger] ck_dir(d) == (t2.0 - o.0, t2.1 - o.1)
                                && ck_mover_piece(self.board@, self.curr_pid, o.0, o.1)
                                && ck_slide_at(self.board@, o.0, o.1, d);
                        }
                }
            }
        }
        let board: Vec<i64> = build_next_board(
            &self.board, c_move, (lox, loy), (ldx, ldy), self.curr_pid);
        let ghost b2 = board@;
        proof {
            assert(ck_board_wf(b2)) by {
                lemma_rect_playable(self.board@, c_move, self.curr_pid,
                    (lox as int, loy as int), (ldx as int, ldy as int));
            }
        }

        let dx: usize = if lox <= ldx { ldx - lox } else { lox - ldx };
        let dy: usize = if loy <= ldy { ldy - loy } else { loy - ldy };
        let is_capture: bool = dx + dy > 1;
        if is_capture {
            proof {
                assert((ldx as int * 8 + ldy as int) / 8 == ldx as int);
                assert((ldx as int * 8 + ldy as int) % 8 == ldy as int);
                assert(board@[ck_idx(ldx as int, ldy as int)] != 0
                    && board@[ck_idx(ldx as int, ldy as int)] != 3) by {
                    let beg = self.board@[ck_idx(lox as int, loy as int)];
                    assert(beg != 0);
                    assert(-2 <= beg <= 2);
                }
            }
            proof {
                assert(ck_mover_piece(b2, self.curr_pid, ldx as int, ldy as int));
            }
            let cache: Vec<Move> = continuations_from(&board, ldx, ldy, self.curr_pid);
            if cache.len() > 0 {
                let s2 = RawCheckersState {
                    board,
                    turn: self.turn + 1,
                    curr_pid: self.curr_pid,
                    cached_moves: Some(cache),
                };
                proof {
                    assert(ck_capture_shape(ck_local_o(c_move), ck_local_t(c_move)));
                    assert(ck_play_rel(*self, c_move, s2));
                    assert(s2.wf()) by {
                        assert(ck_pending_from(b2, self.curr_pid,
                            s2.cached_moves->Some_0@, (ldx as int, ldy as int)));
                    }
                }
                return Ok(s2);
            }
            proof {
                assert(!ck_any_capture_from(b2, (ldx as int, ldy as int)));
            }
        } else {
            proof {
                assert(!ck_capture_shape(ck_local_o(c_move), ck_local_t(c_move)));
            }
        }
        let s2 = RawCheckersState {
            board,
            turn: self.turn + 1,
            curr_pid: next_pid(self.curr_pid),
            cached_moves: None,
        };
        proof {
            assert(ck_play_rel(*self, c_move, s2));
        }
        Ok(s2)
    }
}


/// Builds the board after a play: the bounding rectangle between the
/// move's local endpoints emptied, the moved piece on the target cell,
/// promoted when a man reaches its promotion row.
fn build_next_board(b: &Vec<i64>, c_move: Move, lo: Coords, ld: Coords, pid: u32) -> (r: Vec<i64>)
    requires
        ck_board_wf(b@),
        (lo.0 as int, lo.1 as int) == ck_local_o(c_move),
        (ld.0 as int, ld.1 as int) == ck_local_t(c_move),
        ck_playable(lo.0 as int, lo.1 as int),
        ck_playable(ld.0 as int, ld.1 as int),
        ck_mover_piece(b@, pid, lo.0 as int, lo.1 as int),
        ck_cached_move_ok(b@, pid, c_move) || ck_ext_legal(b@, pid, c_move),
    ensures
        r@ == ck_next_board(b@, c_move, pid),
        ck_board_wf(r@),
{
    let (lox, loy) = lo;
    let (ldx, ldy) = ld;
    let x0: usize = if lox <= ldx { lox } else { ldx };
    let x1: usize = if lox <= ldx { ldx } else { lox };
    let y0: usize = if loy <= ldy { loy } else { ldy };
    let y1: usize = if loy <= ldy { ldy } else { loy };
    let beg: i64 = b[lox * 8 + loy];
    let promote: bool = c_move.1.0 == (if pid == 1 { 7 } else { 0 });
    let fin: i64 = if promote && (beg == 1 || beg == -1) {
        2 * beg
    } else {
        beg
    };
    let mut board: Vec<i64> = Vec::new();
    let mut k: usize = 0;
    while k < 56
        invariant
            ck_board_wf(b@),
            k <= 56,
            lox < 7,
            loy < 8,
            ldx < 7,
            ldy < 8,
            x0 == if lox <= ldx { lox } else { ldx },
            x1 == if lox <= ldx { ldx } else { lox },
            y0 == if loy <= ldy { loy } else { ldy },
            y1 == if loy <= ldy { ldy } else { loy },
            beg == b@[ck_idx(lox as int, loy as int)],
            fin as int == (if c_move.1.0 as int == ck_promote_row(pid) && abs_val(beg) == 1 {
                2 * beg
            } else {
                beg as int
            }),
            board@.len() == k,
            forall|t: int| 0 <= t < k ==> #[trigger] board@[t] == (
                if t / 8 == ldx as int && t % 8 == ldy as int {
                    fin
                } else if x0 <= t / 8 <= x1 && y0 <= t % 8 <= y1 {
                    0i64
                } else {
                    b@[t]
                }),
        decreases 56 - k,
    {
        let i: usize = k / 8;
        let j: usize = k % 8;
        let v: i64 = if i == ldx && j == ldy {
            fin
        } else if x0 <= i && i <= x1 && y0 <= j && j <= y1 {
            0
        } else {
            b[k]
        };
        board.push(v);
        k = k + 1;
    }
    proof {
        assert(board@ =~= ck_next_board(b@, c_move, pid));
        lemma_rect_playable(b@, c_move, pid, (lox as int, loy as int), (ldx as int, ldy as int));
    }
    board
}


/// The continuation captures of the piece on local cell (lx, ly), as
/// external moves: exactly the moves a pending chain from that cell
/// offers, and non-empty exactly when the piece can capture again.
fn continuations_from(board: &Vec<i64>, lx: usize, ly: usize, pid: u32) -> (r: Vec<Move>)
    requires
        ck_board_wf(board@),
        ck_playable(lx as int, ly as int),
        ck_mover_piece(board@, pid, lx as int, ly as int),
    ensures
        r@.no_duplicates(),
        forall|m2: Move| #[trigger] r@.contains(m2) <==>
            ck_continuation(board@, pid, (lx as int, ly as int), m2),
        r@.len() > 0 <==> ck_any_capture_from(board@, (lx as int, ly as int)),
{
    proof {
        assert(board@[ck_idx(lx as int, ly as int)] != 0
            && board@[ck_idx(lx as int, ly as int)] != 3);
    }
    let (dests, _found) = piece_moves(board, lx, ly, true);
    let ghost has_cap = exists|d: int| 0 <= d < 4
        && ck_capture_at(board@, lx as int, ly as int, d);
    proof {
        if !has_cap {
            assert(dests@ == Seq::<Coords>::empty());
        }
    }
    let mut r: Vec<Move> = Vec::new();
    append_ext_moves(&mut r, lx, ly, &dests, Ghost(board@));
    proof {
        if has_cap {
            assert forall|m2: Move| r@.contains(m2) implies
                #[trigger] ck_continuation(board@, pid, (lx as int, ly as int), m2) by {
                lemma_piece_caps_ext(board@, pid, lx, ly, dests@, m2);
            }
            assert forall|m2: Move|
                #[trigger] ck_continuation(board@, pid, (lx as int, ly as int), m2)
                implies r@.contains(m2) by {
                lemma_piece_caps_ext(board@, pid, lx, ly, dests@, m2);
            }
            assert(r@.len() > 0) by {
                let d = choose|d: int| 0 <= d < 4
                    && ck_capture_at(board@, lx as int, ly as int, d);
                let c: Coords = (((lx as int + 2 * ck_dir(d).0) as usize),
                    ((ly as int + 2 * ck_dir(d).1) as usize));
                assert(ck_cap_dest(board@, lx as int, ly as int, d, c));
                assert(dests@.contains(c));
            }
            assert(ck_any_capture_from(board@, (lx as int, ly as int))) by {
                let d = choose|d: int| 0 <= d < 4
                    && ck_capture_at(board@, lx as int, ly as int, d);
                let p = (lx as int, ly as int);
                assert(ck_capture_at(board@, p.0, p.1, d));
            }
        } else {
            assert(r@.len() == 0);
            assert forall|m2: Move| !ck_continuation(board@, pid, (lx as int, ly as int), m2)
                && !r@.contains(m2) by {
                if ck_continuation(board@, pid, (lx as int, ly as int), m2) {
                    let o = (lx as int, ly as int);
                    let t2 = ck_local_t(m2);
                    let d = choose|d: int| 0 <= d < 4
                        && #[trigger] ck_dir(d) == ((t2.0 - o.0) / 2, (t2.1 - o.1) / 2)
                        && t2.0 - o.0 == 2 * ck_dir(d).0 && t2.1 - o.1 == 2 * ck_dir(d).1
                        && ck_mover_piece(board@, pid, o.0, o.1)
                        && ck_capture_at(board@, o.0, o.1, d);
                }
            }
            assert(!ck_any_capture_from(board@, (lx as int, ly as int))) by {
                if ck_any_capture_from(board@, (lx as int, ly as int)) {
                    let p = (lx as int, ly as int);
                    let d = choose|d: int| 0 <= d < 4 && ck_capture_at(board@, p.0, p.1, d);
                    assert(ck_capture_at(board@, lx as int, ly as int, d));
                }
            }
        }
    }
    r
}

/// Every cell the play rewrites is playable, and the values it writes are
/// in domain, so the new board is well-formed.
proof fn lemma_rect_playable(b: Seq<i64>, m: Move, pid: u32, lo: (int, int), ld: (int, int))
    requires
        ck_board_wf(b),
        lo == ck_local_o(m),
        ld == ck_local_t(m),
        ck_playable(lo.0, lo.1),
        ck_playable(ld.0, ld.1),
        ck_mover_piece(b, pid, lo.0, lo.1),
        ck_cached_move_ok(b, pid, m) || ck_ext_legal(b, pid, m),
    ensures
        ck_board_wf(ck_next_board(b, m, pid)),
{
    let b2 = ck_next_board(b, m, pid);
    let x0 = if lo.0 <= ld.0 { lo.0 } else { ld.0 };
    let x1 = if lo.0 <= ld.0 { ld.0 } else { lo.0 };
    let y0 = if lo.1 <= ld.1 { lo.1 } else { ld.1 };
    let y1 = if lo.1 <= ld.1 { ld.1 } else { lo.1 };
    let o = ck_local_o(m);
    let t = ck_local_t(m);
    assert(ck_capture_move(b, pid, o, t) || ck_slide_move(b, pid, o, t)) by {
        if ck_ext_legal(b, pid, m) {
        }
    }
    let step: int = if ck_capture_move(b, pid, o, t) {
        let d = choose|d: int| 0 <= d < 4
            && #[trigger] ck_dir(d) == ((t.0 - o.0) / 2, (t.1 - o.1) / 2)
            && t.0 - o.0 == 2 * ck_dir(d).0 && t.1 - o.1 == 2 * ck_dir(d).1
            && ck_mover_piece(b, pid, o.0, o.1) && ck_capture_at(b, o.0, o.1, d);
        2
    } else {
        let d = choose|d: int| 0 <= d < 4 && #[trigger] ck_dir(d) == (t.0 - o.0, t.1 - o.1)
            && ck_mover_piece(b, pid, o.0, o.1) && ck_slide_at(b, o.0, o.1, d);
        1
    };
    assert((o.0 == t.0 && -2 <= o.1 - t.1 <= 2) || (o.1 == t.1 && -2 <= o.0 - t.0 <= 2));
    assert forall|i: int, j: int| ck_in_grid(i, j) && x0 <= i <= x1 && y0 <= j <= y1
        implies ck_playable(i, j) by {
        if (i, j) == lo || (i, j) == ld {
        } else {
            lemma_mid_playable(lo, ld);
            assert(i == (lo.0 + ld.0) / 2 && j == (lo.1 + ld.1) / 2);
        }
    }
    assert forall|i: int, j: int| ck_in_grid(i, j) && ck_playable(i, j)
        implies -2 <= #[trigger] b2[ck_idx(i, j)] <= 2 by {
        assert(b2[ck_idx(i, j)] == b2[i * 8 + j]);
        assert((i * 8 + j) / 8 == i && (i * 8 + j) % 8 == j);
    }
    assert forall|i: int, j: int| ck_in_grid(i, j) && !ck_playable(i, j)
        implies #[trigger] b2[ck_idx(i, j)] == 3 by {
        assert((i * 8 + j) / 8 == i && (i * 8 + j) % 8 == j);
        assert(!(i == ld.0 && j == ld.1));
        assert(!(x0 <= i <= x1 && y0 <= j <= y1));
        assert(b2[ck_idx(i, j)] == b[ck_idx(i, j)]);
    }
}

/// Every move of a pending cache is an external capture move of the
/// mover, named by dark squares.
pub proof fn lemma_cached_is_capture(s: RawCheckersState, m: Move)
    requires
        s.wf(),
        s.cached_moves matches Some(c) && c@.contains(m),
    ensures
        ck_cached_move_ok(s.board@, s.curr_pid, m),
{
    let c = s.cached_moves->Some_0;
    let ld = choose|ld: (int, int)| #[trigger] ck_pending_from(s.board@, s.curr_pid, c@, ld);
    assert(ck_continuation(s.board@, s.curr_pid, ld, m));
}

/// Forced capture: while any capture is available to the mover, every
/// legal move is a capture — no slide survives in the legal set.
pub proof fn lemma_forced_capture(b: Seq<i64>, pid: u32, m: Move)
    requires
        ck_any_capture(b, pid),
        ck_ext_legal(b, pid, m),
    ensures
        ck_capture_move(b, pid, ck_local_o(m), ck_local_t(m)),
{
}

/// The move just played is never legal in the state it produced: its
/// origin has been emptied, and a pending chain continues from the
/// landing cell, not from the origin.
pub proof fn lemma_ck_played_move_not_legal(
    pre: RawCheckersState,
    m: Move,
    post: RawCheckersState,
)
    requires
        pre.wf(),
        pre.legal_now(m),
        ck_play_rel(pre, m, post),
    ensures
        !post.legal_now(m),
{
    let o = ck_local_o(m);
    let t = ck_local_t(m);
    assert(ck_capture_move(pre.board@, pre.curr_pid, o, t)
        || ck_slide_move(pre.board@, pre.curr_pid, o, t)) by {
        if pre.cached_moves is Some {
            assert(pre.cached_moves->Some_0@.contains(m));
            lemma_cached_is_capture(pre, m);
        }
    }
    assert(o != t) by {
        if ck_capture_move(pre.board@, pre.curr_pid, o, t) {
            let d = choose|d: int| 0 <= d < 4
                && #[trigger] ck_dir(d) == ((t.0 - o.0) / 2, (t.1 - o.1) / 2)
                && t.0 - o.0 == 2 * ck_dir(d).0 && t.1 - o.1 == 2 * ck_dir(d).1
                && ck_mover_piece(pre.board@, pre.curr_pid, o.0, o.1)
                && ck_capture_at(pre.board@, o.0, o.1, d);
            assert(ck_dir(d) != (0int, 0int));
        } else {
            let d = choose|d: int| 0 <= d < 4 && #[trigger] ck_dir(d) == (t.0 - o.0, t.1 - o.1)
                && ck_mover_piece(pre.board@, pre.curr_pid, o.0, o.1)
                && ck_slide_at(pre.board@, o.0, o.1, d);
            assert(ck_dir(d) != (0int, 0int));
        }
    }
    assert(ck_mover_piece(pre.board@, pre.curr_pid, o.0, o.1)) by {
        if ck_capture_move(pre.board@, pre.curr_pid, o, t) {
            let d = choose|d: int| 0 <= d < 4
                && #[trigger] ck_dir(d) == ((t.0 - o.0) / 2, (t.1 - o.1) / 2)
                && t.0 - o.0 == 2 * ck_dir(d).0 && t.1 - o.1 == 2 * ck_dir(d).1
                && ck_mover_piece(pre.board@, pre.curr_pid, o.0, o.1)
                && ck_capture_at(pre.board@, o.0, o.1, d);
        } else {
            let d = choose|d: int| 0 <= d < 4 && #[trigger] ck_dir(d) == (t.0 - o.0, t.1 - o.1)
                && ck_mover_piece(pre.board@, pre.curr_pid, o.0, o.1)
                && ck_slide_at(pre.board@, o.0, o.1, d);
        }
    }
    let b2 = post.board@;
    assert(b2[ck_idx(o.0, o.1)] == 0) by {
        assert((o.0 * 8 + o.1) / 8 == o.0 && (o.0 * 8 + o.1) % 8 == o.1);
    }
    if ck_capture_shape(o, t) && ck_any_capture_from(b2, t) {
        if post.cached_moves is Some && post.cached_moves->Some_0@.contains(m) {
            assert(ck_continuation(b2, pre.curr_pid, t, m));
            assert(ck_local_o(m) == t);
        }
    } else {
        if ck_ext_legal(b2, post.curr_pid, m) {
            assert(ck_mover_piece(b2, post.curr_pid, o.0, o.1)) by {
                if ck_any_capture(b2, post.curr_pid) {
                    let d = choose|d: int| 0 <= d < 4
                        && #[trigger] ck_dir(d) == ((t.0 - o.0) / 2, (t.1 - o.1) / 2)
                        && t.0 - o.0 == 2 * ck_dir(d).0 && t.1 - o.1 == 2 * ck_dir(d).1
                        && ck_mover_piece(b2, post.curr_pid, o.0, o.1)
                        && ck_capture_at(b2, o.0, o.1, d);
                } else {
                    let d = choose|d: int| 0 <= d < 4
                        && #[trigger] ck_dir(d) == (t.0 - o.0, t.1 - o.1)
                        && ck_mover_piece(b2, post.curr_pid, o.0, o.1)
                        && ck_slide_at(b2, o.0, o.1, d);
                }
            }
        }
    }
}

/// A move list flattened to plain values, four coordinates per move.
pub open spec fn ck_flat_moves(ms: Seq<Move>) -> Seq<i64> {
    Seq::new((ms.len() * 4) as nat, |k: int| {
        let m = ms[k / 4];
        if k % 4 == 0 {
            m.0.0 as i64
        } else if k % 4 == 1 {
            m.0.1 as i64
        } else if k % 4 == 2 {
            m.1.0 as i64
        } else {
            m.1.1 as i64
        }
    })
}

/// The moves encoded in a dump's tail, four values each.
pub open spec fn ck_parse_moves(d: Seq<i64>) -> Seq<Move> {
    Seq::new(((d.len() - 59) / 4) as nat, |u: int| {
        ((d[59 + 4 * u] as usize, d[59 + 4 * u + 1] as usize),
            (d[59 + 4 * u + 2] as usize, d[59 + 4 * u + 3] as usize))
    })
}

/// The full field set of a state, as one flat sequence of plain values
/// for an external persistence adapter: 56 board cells, the ply counter,
/// the mover, a pending-chain flag, and the pending moves if any.
pub open spec fn ck_save_spec(s: RawCheckersState) -> Seq<i64> {
    s.board@ + seq![s.turn as i64, s.curr_pid as i64]
        + match s.cached_moves {
            Some(c) => seq![1i64] + ck_flat_moves(c@),
            None => seq![0i64],
        }
}

/// The dump's length fits its pending-chain flag.
pub open spec fn ck_shape_ok(d: Seq<i64>) -> bool {
    &&& d.len() >= 59
    &&& d[58] == 0 ==> d.len() == 59
    &&& d[58] == 1 ==> (d.len() - 59) % 4 == 0
}

/// A field dump that can be reconstructed verbatim into a well-formed
/// state: a well-formed board, fields in domain, and a pending chain — if
/// one is flagged — that is non-empty and holds exactly the mover's
/// continuation captures from one landing square.
pub open spec fn ck_dump_ok(d: Seq<i64>) -> bool {
    &&& ck_shape_ok(d)
    &&& ck_board_wf(d.subrange(0, 56))
    &&& 0 <= d[56] <= u32::MAX
    &&& d[57] == 1 || d[57] == 2
    &&& d[58] == 0 || d[58] == 1
    &&& d[58] == 1 ==> {
            &&& forall|k: int| 59 <= k < d.len() ==> 0 <= #[trigger] d[k] < 8
            &&& ck_pending_ok(d.subrange(0, 56), d[57] as u32, ck_parse_moves(d))
        }
}

/// Whether the move is one a pending chain may hold on this board.
#[verifier::rlimit(100)]
fn is_cached_move_ok(board: &Vec<i64>, pid: u32, m: Move) -> (r: bool)
    requires
        ck_board_wf(board@),
    ensures
        r == ck_cached_move_ok(board@, pid, m),
{
    let ((ea, eb), (ec, ed)) = m;
    if !(ea < 8 && eb < 8 && ec < 8 && ed < 8) {
        return false;
    }
    if (ea + eb) % 2 != 1 || (ec + ed) % 2 != 1 {
        return false;
    }
    proof {
        lemma_to_from_local((ea as int, eb as int));
        lemma_to_from_local((ec as int, ed as int));
    }
    let lox: usize = ((ea + eb) - 1) / 2;
    let loy: usize = ((eb + 7) - ea) / 2;
    let ldx: usize = ((ec + ed) - 1) / 2;
    let ldy: usize = ((ed + 7) - ec) / 2;
    proof {
        assert(lox as int == ck_local_o(m).0);
        assert(loy as int == ck_local_o(m).1);
        assert(ldx as int == ck_local_t(m).0);
        assert(ldy as int == ck_local_t(m).1);
        assert(ck_playable(lox as int, loy as int));
        assert(ck_playable(ldx as int, ldy as int));
    }
    let v: i64 = board[lox * 8 + loy];
    let mover: bool = (if pid == 1 { v > 0 } else { v < 0 }) && v < 3;
    if !mover {
        proof {
            if ck_cached_move_ok(board@, pid, m) {
                let o = ck_local_o(m);
                let t2 = ck_local_t(m);
                let d = choose|d: int| 0 <= d < 4
                    && #[trigger] ck_dir(d) == ((t2.0 - o.0) / 2, (t2.1 - o.1) / 2)
                    && t2.0 - o.0 == 2 * ck_dir(d).0 && t2.1 - o.1 == 2 * ck_dir(d).1
                    && ck_mover_piece(board@, pid, o.0, o.1)
                    && ck_capture_at(board@, o.0, o.1, d);
            }
        }
        return false;
    }
    let dx: i64 = ldx as i64 - lox as i64;
    let dy: i64 = ldy as i64 - loy as i64;
    let dd: usize = if dx == 0 && dy == -2 {
        0
    } else if dx == 0 && dy == 2 {
        1
    } else if dx == -2 && dy == 0 {
        2
    } else if dx == 2 && dy == 0 {
        3
    } else {
        proof {
            if ck_cached_move_ok(board@, pid, m) {
                let o = ck_local_o(m);
                let t2 = ck_local_t(m);
                let d = choose|d: int| 0 <= d < 4
                    && #[trigger] ck_dir(d) == ((t2.0 - o.0) / 2, (t2.1 - o.1) / 2)
                    && t2.0 - o.0 == 2 * ck_dir(d).0 && t2.1 - o.1 == 2 * ck_dir(d).1
                    && ck_mover_piece(board@, pid, o.0, o.1)
                    && ck_capture_at(board@, o.0, o.1, d);
            }
        }
        return false;
    };
    let (di, dj) = dir_delta(dd);
    let mk: i64 = marker_of(dd);
    let allowed: bool = !(v == 1 || v == -1) || (if v > 0 { mk == 1 } else { mk == -1 });
    let mi: i64 = lox as i64 + di;
    let mj: i64 = loy as i64 + dj;
    let mval: i64 = board[(mi * 8 + mj) as usize];
    let enemy: bool = if v > 0 {
        mval < 0
    } else {
        mval > 0
    };
    let ok: bool = allowed && enemy && board[ldx * 8 + ldy] == 0;
    proof {
        let o = ck_local_o(m);
        let t2 = ck_local_t(m);
        if ok {
            assert(ck_dir(dd as int) == ((t2.0 - o.0) / 2, (t2.1 - o.1) / 2)) by {
                assert((2 * ck_dir(dd as int).0) / 2 == ck_dir(dd as int).0);
                assert((2 * ck_dir(dd as int).1) / 2 == ck_dir(dd as int).1);
            }
            assert(ck_capture_at(board@, o.0, o.1, dd as int));
            assert(ck_cached_move_ok(board@, pid, m));
        } else {
            if ck_cached_move_ok(board@, pid, m) {
                let d = choose|d: int| 0 <= d < 4
                    && #[trigger] ck_dir(d) == ((t2.0 - o.0) / 2, (t2.1 - o.1) / 2)
                    && t2.0 - o.0 == 2 * ck_dir(d).0 && t2.1 - o.1 == 2 * ck_dir(d).1
                    && ck_mover_piece(board@, pid, o.0, o.1)
                    && ck_capture_at(board@, o.0, o.1, d);
                assert(d == dd as int);
            }
        }
    }
    ok
}

/// Whether the move list holds a move twice.
fn has_duplicate(ms: &Vec<Move>) -> (r: bool)
    ensures
        r == !ms@.no_duplicates(),
{
    let mut u: usize = 0;
    while u < ms.len()
        invariant
            u <= ms@.len(),
            forall|a: int, w: int| 0 <= a < w < u ==> ms@[a] != ms@[w],
        decreases ms@.len() - u,
    {
        let mut w: usize = 0;
        while w < u
            invariant
                w <= u,
                u < ms@.len(),
                forall|a: int, w2: int| 0 <= a < w2 < u ==> ms@[a] != ms@[w2],
                forall|a: int| 0 <= a < w ==> ms@[a] != ms@[u as int],
            decreases u - w,
        {
            let x: Move = ms[w];
            let y: Move = ms[u];
            if x.0.0 == y.0.0 && x.0.1 == y.0.1 && x.1.0 == y.1.0 && x.1.1 == y.1.1 {
                proof {
                    assert(ms@[w as int] == ms@[u as int]);
                }
                return true;
            }
            w = w + 1;
        }
        u = u + 1;
    }
    false
}

impl RawCheckersState {
    /// Dumps the full field set for an external persistence adapter.
    pub fn save(&self) -> (r: Vec<i64>)
        ensures
            r@ == ck_save_spec(*self),
    {
        let mut r: Vec<i64> = self.board.clone();
        r.push(self.turn as i64);
        r.push(self.curr_pid as i64);
        match &self.cached_moves {
            None => {
                r.push(0);
            },
            Some(c) => {
                r.push(1);
                let mut u: usize = 0;
                while u < c.len()
                    invariant
                        u <= c@.len(),
                        r@ =~= self.board@ + seq![self.turn as i64, self.curr_pid as i64]
                            + seq![1i64] + ck_flat_moves(c@.take(u as int)),
                    decreases c@.len() - u,
                {
                    let m: Move = c[u];
                    r.push(m.0.0 as i64);
                    r.push(m.0.1 as i64);
                    r.push(m.1.0 as i64);
                    r.push(m.1.1 as i64);
                    proof {
                        assert(r@ =~= self.board@ + seq![self.turn as i64, self.curr_pid as i64]
                            + seq![1i64] + ck_flat_moves(c@.take(u as int + 1)));
                    }
                    u = u + 1;
                }
                proof {
                    assert(c@.take(c@.len() as int) =~= c@);
                    assert(ck_flat_moves(c@.take(c@.len() as int)) =~= ck_flat_moves(c@));
                }
            },
        }
        proof {
            assert(r@ =~= ck_save_spec(*self));
        }
        r
    }

    /// Reconstructs a state verbatim from adapter-supplied field values,
    /// rejecting a dump of the wrong shape, with a value out of domain,
    /// or with a pending chain that its board does not justify.
    #[verifier::rlimit(100)]
    pub fn load(data: &Vec<i64>) -> (r: Result<Self, LoadError>)
        ensures
            data@.len() < 59 ==> r == Err::<Self, LoadError>(LoadError::WrongLength),
            data@.len() >= 59 && data@[58] != 0 && data@[58] != 1
                ==> r == Err::<Self, LoadError>(LoadError::OutOfDomain),
            data@.len() >= 59 && (data@[58] == 0 || data@[58] == 1) && !ck_shape_ok(data@)
                ==> r == Err::<Self, LoadError>(LoadError::WrongLength),
            ck_shape_ok(data@) && (data@[58] == 0 || data@[58] == 1) && !ck_dump_ok(data@)
                ==> r == Err::<Self, LoadError>(LoadError::OutOfDomain),
            ck_dump_ok(data@) ==> (r matches Ok(s)
                && s.board@ == data@.subrange(0, 56)
                && s.turn as i64 == data@[56]
                && s.curr_pid as i64 == data@[57]
                && (data@[58] == 0 ==> s.cached_moves is None)
                && (data@[58] == 1 ==> (s.cached_moves matches Some(c)
                    && c@ == ck_parse_moves(data@)))
                && s.wf()),
    {
        if data.len() < 59 {
            return Err(LoadError::WrongLength);
        }
        let flag: i64 = data[58];
        if flag != 0 && flag != 1 {
            return Err(LoadError::OutOfDomain);
        }
        if flag == 0 && data.len() != 59 {
            return Err(LoadError::WrongLength);
        }
        if flag == 1 && (data.len() - 59) % 4 != 0 {
            return Err(LoadError::WrongLength);
        }
        let mut board: Vec<i64> = Vec::new();
        let mut k: usize = 0;
        while k < 56
            invariant
                data@.len() >= 59,
                k <= 56,
                board@ =~= data@.subrange(0, k as int),
            decreases 56 - k,
        {
            board.push(data[k]);
            k = k + 1;
        }
        proof {
            assert(board@ =~= data@.subrange(0, 56));
        }
        let mut k: usize = 0;
        while k < 56
            invariant
                data@.len() >= 59,
                ck_shape_ok(data@),
                data@[58] == 0 || data@[58] == 1,
                board@ == data@.subrange(0, 56),
                board@.len() == 56,
                k <= 56,
                forall|i: int, j: int| ck_in_grid(i, j) && ck_idx(i, j) < k ==> (
                    if ck_playable(i, j) {
                        -2 <= #[trigger] board@[ck_idx(i, j)] <= 2
                    } else {
                        board@[ck_idx(i, j)] == 3
                    }),
            decreases 56 - k,
        {
            let i: usize = k / 8;
            let j: usize = k % 8;
            let playable: bool = {
                let a: i64 = (4 + i as i64) - j as i64;
                let b: i64 = (i as i64 + j as i64) - 3;
                0 <= a && a <= 7 && 0 <= b && b <= 7
            };
            proof {
                assert(playable == ck_playable(i as int, j as int));
                assert(ck_idx(i as int, j as int) == k);
            }
            let v: i64 = board[k];
            if playable {
                if v < -2 || v > 2 {
                    proof {
                        assert(!ck_board_wf(data@.subrange(0, 56)));
                    }
                    return Err(LoadError::OutOfDomain);
                }
            } else {
                if v != 3 {
                    proof {
                        assert(!ck_board_wf(data@.subrange(0, 56)));
                    }
                    return Err(LoadError::OutOfDomain);
                }
            }
            proof {
                assert forall|i2: int, j2: int| ck_in_grid(i2, j2) && ck_idx(i2, j2) < k + 1
                    implies (
                    if ck_playable(i2, j2) {
                        -2 <= #[trigger] board@[ck_idx(i2, j2)] <= 2
                    } else {
                        board@[ck_idx(i2, j2)] == 3
                    }) by {
                    if ck_idx(i2, j2) == k {
                        assert(j2 < 8);
                        assert(i2 == i as int && j2 == j as int);
                    }
                }
            }
            k = k + 1;
        }
        proof {
            assert(ck_board_wf(board@));
        }
        let turn_v: i64 = data[56];
        if turn_v < 0 || turn_v > u32::MAX as i64 {
            return Err(LoadError::OutOfDomain);
        }
        let pid_v: i64 = data[57];
        if pid_v != 1 && pid_v != 2 {
            return Err(LoadError::OutOfDomain);
        }
        if flag == 0 {
            let s = RawCheckersState {
                board,
                turn: turn_v as u32,
                curr_pid: pid_v as u32,
                cached_moves: None,
            };
            proof {
                assert(ck_dump_ok(data@));
            }
            return Ok(s);
        }
        let n: usize = (data.len() - 59) / 4;
        let mut ms: Vec<Move> = Vec::new();
        let mut u: usize = 0;
        while u < n
            invariant
                data@.len() == 59 + 4 * n,
                data@.len() <= usize::MAX,
                ck_shape_ok(data@),
                data@[58] == 1,
                u <= n,
                ms@.len() == u,
                forall|k2: int| 59 <= k2 < 59 + 4 * u ==> 0 <= #[trigger] data@[k2] < 8,
                forall|w: int| 0 <= w < u ==> #[trigger] ms@[w] == ck_parse_moves(data@)[w],
            decreases n - u,
        {
            proof {
                assert(59 + 4 * (u as int) + 3 < data@.len());
            }
            let a: i64 = data[59 + 4 * u];
            let b: i64 = data[59 + 4 * u + 1];
            let c: i64 = data[59 + 4 * u + 2];
            let e: i64 = data[59 + 4 * u + 3];
            if a < 0 || a > 7 || b < 0 || b > 7 || c < 0 || c > 7 || e < 0 || e > 7 {
                proof {
                    assert(!ck_dump_ok(data@));
                }
                return Err(LoadError::OutOfDomain);
            }
            let m: Move = ((a as usize, b as usize), (c as usize, e as usize));
            proof {
                assert(m == ck_parse_moves(data@)[u as int]);
            }
            ms.push(m);
            u = u + 1;
        }
        proof {
            assert(ms@ =~= ck_parse_moves(data@));
        }
        if has_duplicate(&ms) {
            proof {
                assert(!ck_dump_ok(data@));
            }
            return Err(LoadError::OutOfDomain);
        }
        if n == 0 {
            proof {
                assert(ck_parse_moves(data@).len() == 0);
                assert(!ck_dump_ok(data@));
            }
            return Err(LoadError::OutOfDomain);
        }
        // A genuine pending chain continues from one landing square: its
        // canonical witness is the first cached move's origin. Check that
        // the dump's moves are exactly the continuations from there.
        let m0: Move = ms[0];
        proof {
            assert(ms@[0] == m0);
            assert(ms@.contains(m0));
        }
        if !is_cached_move_ok(&board, pid_v as u32, m0) {
            proof {
                assert(!ck_pending_ok(board@, pid_v as u32, ms@)) by {
                    if ck_pending_ok(board@, pid_v as u32, ms@) {
                        let ld = choose|ld: (int, int)|
                            #[trigger] ck_pending_from(board@, pid_v as u32, ms@, ld);
                        assert(ck_continuation(board@, pid_v as u32, ld, m0));
                    }
                }
                assert(!ck_dump_ok(data@));
            }
            return Err(LoadError::OutOfDomain);
        }
        proof {
            lemma_to_from_local((m0.0.0 as int, m0.0.1 as int));
        }
        let (ea0, eb0) = m0.0;
        let lox: usize = ((ea0 + eb0) - 1) / 2;
        let loy: usize = ((eb0 + 7) - ea0) / 2;
        proof {
            assert(lox as int == ck_local_o(m0).0);
            assert(loy as int == ck_local_o(m0).1);
            assert(ck_playable(lox as int, loy as int));
            assert(ck_mover_piece(board@, pid_v as u32, lox as int, loy as int)) by {
                let o = ck_local_o(m0);
                let t2 = ck_local_t(m0);
                let d = choose|d: int| 0 <= d < 4
                    && #[trigger] ck_dir(d) == ((t2.0 - o.0) / 2, (t2.1 - o.1) / 2)
                    && t2.0 - o.0 == 2 * ck_dir(d).0 && t2.1 - o.1 == 2 * ck_dir(d).1
                    && ck_mover_piece(board@, pid_v as u32, o.0, o.1)
                    && ck_capture_at(board@, o.0, o.1, d);
            }
        }
        let cont: Vec<Move> = continuations_from(&board, lox, loy, pid_v as u32);
        if !move_sets_equal(&ms, &cont) {
            proof {
                assert(!ck_pending_ok(board@, pid_v as u32, ms@)) by {
                    if ck_pending_ok(board@, pid_v as u32, ms@) {
                        let ld = choose|ld: (int, int)|
                            #[trigger] ck_pending_from(board@, pid_v as u32, ms@, ld);
                        assert(ck_continuation(board@, pid_v as u32, ld, m0));
                        assert(ld == (lox as int, loy as int));
                        assert forall|m2: Move| ms@.contains(m2) <==>
                            #[trigger] cont@.contains(m2) by {
                            assert(ms@.contains(m2) <==>
                                ck_continuation(board@, pid_v as u32, ld, m2));
                        }
                    }
                }
                assert(!ck_dump_ok(data@));
            }
            return Err(LoadError::OutOfDomain);
        }
        let s = RawCheckersState {
            board,
            turn: turn_v as u32,
            curr_pid: pid_v as u32,
            cached_moves: Some(ms),
        };
        proof {
            assert(ck_pending_ok(board@, pid_v as u32, ms@)) by {
                assert(ck_pending_from(board@, pid_v as u32, ms@,
                    (lox as int, loy as int))) by {
                    assert forall|m2: Move| #[trigger] ms@.contains(m2) <==>
                        ck_continuation(board@, pid_v as u32,
                            (lox as int, loy as int), m2) by {
                        assert(ms@.contains(m2) <==> cont@.contains(m2));
                    }
                }
            }
            assert(ck_dump_ok(data@)) by {
                assert(forall|k2: int| 59 <= k2 < data@.len() ==> 0 <= #[trigger] data@[k2] < 8);
            }
            assert(s.wf());
        }
        Ok(s)
    }
}

/// Saving a well-formed state always yields a dump that `load` accepts and
/// reconstructs verbatim: the round trip gives back an equal state.
pub proof fn lemma_ck_save_load_round_trip(s: RawCheckersState)
    requires
        s.wf(),
    ensures
        ck_dump_ok(ck_save_spec(s)),
        ck_save_spec(s).subrange(0, 56) == s.board@,
        ck_save_spec(s)[56] == s.turn as i64,
        ck_save_spec(s)[57] == s.curr_pid as i64,
        s.cached_moves is None ==> ck_save_spec(s)[58] == 0,
        s.cached_moves matches Some(c) ==> (ck_save_spec(s)[58] == 1
            && ck_parse_moves(ck_save_spec(s)) == c@),
{
    let d = ck_save_spec(s);
    assert(d.subrange(0, 56) =~= s.board@);
    match s.cached_moves {
        None => {
            assert(d.len() == 59);
        },
        Some(c) => {
            assert(d.len() == 59 + 4 * c@.len());
            assert((d.len() - 59) % 4 == 0);
            assert forall|k: int| 59 <= k < d.len() implies 0 <= #[trigger] d[k] < 8 by {
                let u = (k - 59) / 4;
                let m = c@[u];
                assert(c@.contains(m));
                assert(ck_cached_move_ok(s.board@, s.curr_pid, m));
                assert(d[k] == ck_flat_moves(c@)[k - 59]);
            }
            assert(ck_parse_moves(d) =~= c@) by {
                assert forall|u: int| 0 <= u < c@.len() implies
                    #[trigger] ck_parse_moves(d)[u] == c@[u] by {
                    let m = c@[u];
                    assert(c@.contains(m));
                    assert(ck_cached_move_ok(s.board@, s.curr_pid, m));
                    assert(m.0.0 < 8 && m.0.1 < 8 && m.1.0 < 8 && m.1.1 < 8);
                    assert(ck_flat_moves(c@)[4 * u] == m.0.0 as i64);
                    assert(ck_flat_moves(c@)[4 * u + 1] == m.0.1 as i64);
                    assert(ck_flat_moves(c@)[4 * u + 2] == m.1.0 as i64);
                    assert(ck_flat_moves(c@)[4 * u + 3] == m.1.1 as i64);
                    assert(d[59 + 4 * u] == ck_flat_moves(c@)[4 * u]);
                    assert(d[59 + 4 * u + 1] == ck_flat_moves(c@)[4 * u + 1]);
                    assert(d[59 + 4 * u + 2] == ck_flat_moves(c@)[4 * u + 2]);
                    assert(d[59 + 4 * u + 3] == ck_flat_moves(c@)[4 * u + 3]);
                    assert(ck_parse_moves(d)[u].0.0 == (m.0.0 as i64) as usize);
                    assert(ck_parse_moves(d)[u].0.1 == (m.0.1 as i64) as usize);
                    assert(ck_parse_moves(d)[u].1.0 == (m.1.0 as i64) as usize);
                    assert(ck_parse_moves(d)[u].1.1 == (m.1.1 as i64) as usize);
                }
            }
            assert(ck_pending_ok(d.subrange(0, 56), d[57] as u32, ck_parse_moves(d))) by {
                assert(d.subrange(0, 56) == s.board@);
                assert(d[57] as u32 == s.curr_pid);
                assert(ck_parse_moves(d) == c@);
            }
        },
    }
}

/// A capture that lands where a further capture waits keeps the mover on
/// turn, and every move then available originates from the landing
/// square.
pub proof fn lemma_chain_continues_from_landing(
    pre: RawCheckersState,
    m: Move,
    post: RawCheckersState,
)
    requires
        pre.wf(),
        pre.legal_now(m),
        ck_play_rel(pre, m, post),
        ck_capture_shape(ck_local_o(m), ck_local_t(m)),
        ck_any_capture_from(post.board@, ck_local_t(m)),
    ensures
        post.curr_pid == pre.curr_pid,
        forall|m2: Move| post.legal_now(m2) ==> ck_local_o(m2) == ck_local_t(m),
{
    let ld = ck_local_t(m);
    assert forall|m2: Move| post.legal_now(m2) implies ck_local_o(m2) == ld by {
        assert(post.cached_moves->Some_0@.contains(m2));
        assert(ck_continuation(post.board@, pre.curr_pid, ld, m2));
    }
}

} // verus!
