pub mod game;
pub mod mcts;
pub mod tictactoe;

pub use tictactoe::TicTacToe;
