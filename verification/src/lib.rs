//! A tile-drafting board game engine driven by Monte-Carlo tree search.
//!
//! The crate models the game state (player boards, factories, the shared
//! pool), generates and applies drafting moves, and chooses moves by two
//! tree-search variants: a rollout-based UCT search and a prior-guided
//! PUCT search fed by a pluggable evaluation policy.  A fixed-size numeric
//! encoding connects game states to a learned value/policy function.
use vstd::prelude::*;

pub mod agent;
pub mod board;
pub mod encoding;
pub mod heuristic;
pub mod mcts;
pub mod mcts_heuristic;
pub mod mcts_rollout;
pub mod moves;
pub mod rng;
pub mod state;
pub mod tiles;

pub use agent::{AIAgent, HumanAgent, SimpleAI};
pub use board::PlayerBoard;
pub use heuristic::HeuristicAI;
pub use mcts_heuristic::MctsHeuristicAI;
pub use mcts_rollout::MctsAI;
pub use moves::{Move, MoveDestination, MoveSource};
pub use state::{GameState, TurnState};
pub use tiles::{Tile, TileBagSummary};
