//! A move-search engine for a falling-block puzzle game.
//!
//! Given a board and a queue of upcoming pieces, the engine grows a tree of
//! placement sequences and reports the best next move found so far.
//!
//! * [`game`] holds the model of the game: boards and moves, the placement
//!   enumerator, the state transition with its scoring rules, the heuristic
//!   evaluator, the diagrams of states and a game to play against;
//! * [`tree`] holds the search tree with selection, expansion, pruning,
//!   back-propagation and re-rooting;
//! * [`worker`] holds the run flag, the node budget and one unit of search
//!   work.
//!
//! The library runs in one thread. A unit of work is split into steps so
//! that a host can run several workers over one tree and hold the tree only
//! while a leaf is selected and while its children are installed.
//!
//! Contracts are stated over mathematical views of the data and proved; the
//! one call that is taken on trust is the source of random numbers in
//! [`game::sim`].
pub mod game;
pub mod tree;
pub mod worker;

pub use game::sim::SimState;
pub use game::{Key, Move, MoveStats, Piece, Rotation, State};
pub use worker::{BotStats, Worker};
