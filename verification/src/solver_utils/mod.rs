pub mod cache;
pub mod move_sorter;
pub mod position;
pub mod solver_manager;

pub use position::{Position, WithInfo};
pub use solver_manager::{LaissezFaire, Logger, SolverManager};
pub use cache::Cache;
pub use move_sorter::MoveSorter;
