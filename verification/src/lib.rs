//! A two-snake adversarial move-selection engine for a bounded grid game:
//! an incremental board simulator, a legal-move generator, a flood-fill
//! position evaluator, and an iterative-deepening negamax search with a
//! transposition table and move-ordering heuristics.
pub mod board;
pub mod eval;
pub mod game;
pub mod recorder;
pub mod search;
pub mod ttable;
pub mod zobrist;
