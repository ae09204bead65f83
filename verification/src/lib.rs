pub mod basic;
pub mod bench;
pub mod board;
pub mod player;
pub mod solver_utils;
pub mod solvers;
