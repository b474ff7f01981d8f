//! Minesweeper: the board, its rules and an automatic player, with their
//! behaviour stated as contracts and proved.

pub mod cell;
pub mod grid;
pub mod count;
pub mod board;
pub mod mines;
pub mod opening;
pub mod random;
pub mod solver;
pub mod layouts;
pub mod big;
pub mod settings;
pub mod input;
pub mod render;
pub mod deduction;
pub mod autoplay;

