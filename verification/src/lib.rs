//! Micro Shogi (4x5 drop shogi): a verified rules engine, position notation and
//! packing, a dense-rank KPG solver and small retrograde solvers.
use vstd::prelude::*;

pub mod dense_kpg;
pub mod notation;
pub mod packing;
pub mod report;
pub mod retro;
pub mod rules;
pub mod table;

pub use notation::parse;
pub use packing::{canonical_key, canonical_turn, mirror, pack, unpack};
pub use rules::{initial, perft, Cell, Kind, Move, Owner, Position, NFILE, NRANK, NSQ};

verus! {

} // verus!
