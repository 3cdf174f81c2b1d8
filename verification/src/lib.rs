//! Turn-based, two-player, perfect-information board-game state engines.
//!
//! Three independent rule engines share one abstract contract (build the
//! initial state, copy a state, play a move producing a new state, enumerate
//! legal moves, score, winner, equality, and a plain-value field dump for an
//! external persistence adapter):
//!
//! * [`avalam::RawAvalamState`] — a stacking/merge game on a diamond board;
//! * [`checkers::RawCheckersState`] — a checkers variant with forced
//!   multi-jump capture chains;
//! * [`ultittt::RawUltiTTTState`] — a recursive 3×3-of-3×3 grid game.
//!
//! [`board::BoardState`] is a second stacking-game engine that keeps its
//! legal-move set incrementally instead of recomputing it; its cache is
//! proved equal to the set that [`board::gen_moves`] derives from scratch.

pub mod game;

pub mod avalam;

pub mod board;

pub mod checkers;

pub mod ultittt;
