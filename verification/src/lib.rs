pub mod ball;
pub mod cells;
pub mod display;
pub mod moves;
pub mod parity;
pub mod search;
pub mod solver;
pub mod store;
