//! Optimal solver for the sliding-tile puzzle on an `N` by `N` board.
//!
//! The board model and the rule for legal slides live in [`state`] and
//! [`successors`], the Manhattan estimate in [`heuristic`], the
//! iterative-deepening search in [`search`], and random scrambling of the
//! ordered board in [`scramble`].

pub mod heuristic;
pub mod scramble;
pub mod search;
pub mod state;
pub mod successors;

pub use heuristic::{distancia_manhattan, Heuristic, Manhattan};
pub use scramble::{pick_successor, scramble};
pub use search::{ida_star_search, reversed, search, SearchResult, INF};
pub use state::{State, CELLS, N};
pub use successors::successors;
