pub mod bits;
pub mod board;
pub mod moves;
pub mod movegen;
pub mod evaluate;
pub mod notation;
pub mod ui;
pub mod distinct;
