//! A Battlesnake engine: a deterministic board simulation, a territory
//! heuristic and a Monte-Carlo tree search over joint moves.

pub mod battlesnake_api;
pub mod game_state;
pub mod heuristic;
pub mod joint_moves;
pub mod search;
pub mod simulation_laws;
pub mod tree;
pub mod visualizer;
