//! A nonogram (picture-logic) constraint model and line-solving engine.
//!
//! Clues are ordered runs of colored cells per row and column. The
//! library models the grid and its clues, derives per-line forced
//! cells with a two-pass interval reachability fit, validates lines
//! against their clues, and propagates deductions across the grid to
//! a fixpoint. Contracts pin each step down: the solver only adds
//! information, never writes a cell a remaining completion would
//! contradict, and reports `Solved` exactly when every line matches
//! its clue.

pub mod axis;
pub mod constraints;
pub mod data;
pub mod error;
pub mod fill;
pub mod laws;
pub mod mask;
pub mod pos;
pub mod puzzle;
pub mod rule;
pub mod rules;
pub mod run;
pub mod solver;

pub use axis::Axis;
pub use axis::Line;
pub use axis::LinePosition;
pub use data::Color;
pub use data::PuzzleData;
pub use data::RawRun;
pub use error::Error;
pub use fill::Fill;
pub use pos::Position;
pub use mask::LineMask;
pub use puzzle::LineValidation;
pub use puzzle::Puzzle;
pub use rule::Rule;
pub use rules::Rules;
pub use run::Run;
pub use solver::SolveOutcome;
pub use solver::SolveStatus;
pub use solver::Solver;
