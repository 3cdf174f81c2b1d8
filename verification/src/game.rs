//! Types shared by the rule engines: board coordinates, moves, the player
//! id arithmetic, and the error taxonomy of the shared contract.

use vstd::prelude::*;

verus! {

/// A cell of a board, as (row, column).
pub type Coords = (usize, usize);

/// An ordered pair of coordinates (origin, destination).
///
/// Each engine gives it its own meaning: "move the stack at origin onto
/// destination", "move or jump the piece at origin to destination", or
/// "play in sub-cell destination of super-cell origin".
pub type Move = (Coords, Coords);

/// Why `play` refused a move.
#[derive(Clone, Copy, Debug, PartialEq, Eq, Structural)]
pub enum MoveError {
    /// A coordinate of the move lies outside the board.
    OutOfRange,
    /// The move is inside the board but not in the current legal-move set.
    Illegal,
}

/// Why `load` refused a field dump.
#[derive(Clone, Copy, Debug, PartialEq, Eq, Structural)]
pub enum LoadError {
    /// The dump does not have the expected number of values.
    WrongLength,
    /// A value lies outside its field's domain, or the fields contradict
    /// one another.
    OutOfDomain,
}

/// Magnitude of a signed cell value.
pub open spec fn abs_val(v: i64) -> int {
    if v >= 0 {
        v as int
    } else {
        -(v as int)
    }
}

/// Magnitude of a signed cell value.
pub fn abs_i64(v: i64) -> (r: i64)
    requires
        i64::MIN < v,
    ensures
        r as int == abs_val(v),
{
    if v >= 0 {
        v
    } else {
        -v
    }
}

/// Element-wise comparison of two integer vectors.
pub fn vec_i64_eq(a: &Vec<i64>, b: &Vec<i64>) -> (r: bool)
    ensures
        r == (a@ == b@),
{
    if a.len() != b.len() {
        assert(a@ != b@);
        return false;
    }
    let mut k: usize = 0;
    while k < a.len()
        invariant
            a@.len() == b@.len(),
            k <= a@.len(),
            forall|t: int| 0 <= t < k ==> a@[t] == b@[t],
        decreases a@.len() - k,
    {
        if a[k] != b[k] {
            return false;
        }
        k = k + 1;
    }
    proof {
        assert(a@ =~= b@);
    }
    true
}

/// Element-wise copy of a move list.
pub fn copy_moves(v: &Vec<Move>) -> (r: Vec<Move>)
    ensures
        r@ == v@,
{
    let mut r: Vec<Move> = Vec::new();
    let mut t: usize = 0;
    while t < v.len()
        invariant
            t <= v@.len(),
            r@ =~= v@.take(t as int),
        decreases v@.len() - t,
    {
        r.push(v[t]);
        t = t + 1;
    }
    proof {
        assert(v@.take(v@.len() as int) =~= v@);
    }
    r
}

/// The player who moves after `pid`: 1 and 2 alternate.
pub open spec fn next_pid_spec(pid: u32) -> u32 {
    (((pid % 2) + 1)) as u32
}

/// Switches the mover, as every engine does at the end of a completed turn.
pub fn next_pid(pid: u32) -> (r: u32)
    ensures
        r == next_pid_spec(pid),
{
    (pid % 2) + 1
}

} // verus!
