//! A Monte Carlo tree search engine for two-player, perfect-information games,
//! together with the rules of ultimate tic-tac-toe.
//!
//! The search tree lives in an arena of nodes addressed by identifier. One search
//! step selects a path, expands a leaf, and later folds the outcome of a batch of
//! random playouts back into the statistics along that path.

pub mod ai;
pub mod game;
