//! Verified solvers for a collection of small text-grid puzzles.
//!
//! The heart of the library is the guard-patrol simulation in [`grid`] and
//! [`patrol`]: a deterministic walk over a 2-D cell grid with a turn-right
//! rule, together with a loop detector that is proved to terminate.

pub mod antennas;
pub mod calibration;
pub mod disk;
pub mod grid;
pub mod location_lists;
pub mod mul_scan;
pub mod patrol;
pub mod print_queue;
pub mod reports;
pub mod text;
pub mod word_search;
