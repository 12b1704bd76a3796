//! Greedy solver for the book-scanning scheduling puzzle: choose an order of
//! libraries to sign up within a day budget and, per chosen library, the most
//! valuable books it can still ship, so that no book is shipped twice.
//!
//! Scores are kept as exact rationals and compared by cross-multiplication,
//! so no rounding can flip a comparison; the whole run is proved equal to a
//! recursive specification of the greedy pass (`model::greedy_select`), and
//! the laws every run obeys are proved once over that model (`laws`).

pub mod laws;
pub mod library;
pub mod model;
pub mod problem;
