//! A search engine for Fianco, a two-player game on a 9x9 grid.
//!
//! The engine finds a move by iterative-deepening negamax with alpha-beta
//! pruning, a transposition table keyed by Zobrist fingerprints, and a
//! repetition detector over the current search path.
//!
//! - `board`: the grid and its cells.
//! - `moves`: the move generator with the forced-capture rule.
//! - `eval`: terminal positions, breakthrough triangles and the heuristic.
//! - `zobrist`: fingerprints of positions.
//! - `table`: the transposition table.
//! - `ordering`: the order in which a node tries its moves.
//! - `budget`: the time a search may take, and its cancellation.
//! - `model`: what a search returns, as a function of what it starts from.
//! - `search`: the engine itself.
//! - `pruning`: the proof that pruning does not change the score.
//! - `pondering`: the life cycle of the background search.
pub mod board;
pub mod moves;
pub mod eval;
pub mod zobrist;
pub mod table;
pub mod ordering;
pub mod budget;
pub mod model;
pub mod search;
pub mod pruning;
pub mod pondering;
