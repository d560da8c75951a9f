//! A bitboard chess move generator and engine core.
pub mod bits;
pub mod board;
pub mod castle;
pub mod evaluate;
pub mod fen;
pub mod hash;
pub mod legal_moves;
pub mod move_list;
pub mod moves;
pub mod piece;
pub mod position;
pub mod rays;
pub mod search;
pub mod side;
pub mod square;
pub mod squares;
pub mod text;
pub mod utils;
pub mod display;
pub mod play;
pub mod engine;
pub mod makeable;
