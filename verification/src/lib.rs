//! A two-phase solver core for the 3x3x3 cube: the cubie-level model, the
//! coordinate encoders, the transition and pruning tables built from them,
//! and the two pruned depth-first searches.

pub mod bits;
pub mod coord;
pub mod cube;
pub mod lehmer;
pub mod numbers;
pub mod perm;
pub mod perm_coord;
pub mod phase0;
pub mod phase1;
pub mod pieces;
pub mod pruning_table;
pub mod search;
pub mod slice_coord;
pub mod solving;
pub mod state;
pub mod transition_table;

pub use bits::get_nth_zero;
pub use coord::{COCoord, Coord, EOCoord};
pub use cube::Cube;
pub use numbers::{factorial_digits, FactorialDigits};
pub use perm_coord::{CPCoord, EPCoord, UD2Coord};
pub use phase0::{phase0, Phase0Coord, Phase0Tables};
pub use phase1::{phase1, Phase1Coord, Phase1Tables};
pub use pieces::{Corner, CubeStateErr, Edge, Face, Move, NUM_CORNERS, NUM_EDGES};
pub use pruning_table::{
    get_co_prune_table, get_cp_prune_table, get_eo_prune_table, get_ep_prune_table,
    get_ud1_prune_table, get_ud2_prune_table,
};
pub use search::Group;
pub use slice_coord::UD1Coord;
pub use transition_table::{
    get_co_transition_table, get_cp_transition_table, get_eo_transition_table,
    get_ep_transition_table, get_ud1_transition_table, get_ud2_transition_table,
};
