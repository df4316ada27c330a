//! Solvers for four small text puzzles: calibration values, cube games,
//! engine schematics and scratchcards. Each parses its input text and reduces
//! it to a number; every function carries a contract proved by Verus.

pub mod calibration;
pub mod cubes;
pub mod schematic;
pub mod scratchcards;
pub mod text;

