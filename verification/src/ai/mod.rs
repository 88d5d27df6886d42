//! The search engine: the game contract it plays against, the arena of tree
//! nodes, and the search step.

pub mod game;
pub mod tree;
pub mod arena;
pub mod rollout;
pub mod montecarlo;
pub mod ai;

pub use self::ai::Engine;
pub use self::game::Game;
