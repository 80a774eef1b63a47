//! Depth-limited game-tree search that recommends a chess move.
//!
//! `engine::search` explores the replies to a position down to a fixed
//! depth, scores every position reached with `evaluator::evaluate`, carries
//! the score of the best reply up the tree, and picks at random one of the
//! moves of the highest score at the root. The rules of chess come from a
//! rules engine behind `rules`.

pub mod engine;
pub mod evaluator;
pub mod node;
pub mod rules;
pub mod score;
pub mod selector;
