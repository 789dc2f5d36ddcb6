//! Rule engine, validity checker, solver and generator for the Binox puzzle:
//! a square grid of `X` and `O` in which every row and column holds as many
//! `X` as `O`, no line holds three equal symbols in a row, and no two rows
//! and no two columns are alike.

pub mod line;
pub mod row;
pub mod grid;
pub mod board;
pub mod rules;
pub mod codec;
pub mod presolve;
pub mod solutions;
pub mod rest;
pub mod solver;
pub mod clues;
mod random;
pub mod generator;
