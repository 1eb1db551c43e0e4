//! Optimal play on a small bomb grid, solved exactly.
//!
//! A board of `width * height` cells hides `num_bombs` bombs. A revealed cell
//! shows a color that depends on how many bombs lie in its 3x3 neighborhood.
//! The player reveals cells one at a time and keeps the rewards of the colors
//! seen when a bomb is hit. The crate enumerates every bomb arrangement, counts
//! for each partially revealed board how many arrangements agree with it, and
//! from those counts computes the best expected score by backward induction.

pub mod arrangement;
pub mod bounds;
pub mod clue;
pub mod completion;
pub mod grid;
pub mod index;
pub mod solver;
pub mod table;
