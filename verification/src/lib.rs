//! Bitboard chess position core: occupancy masks, a FEN decoder and
//! Zobrist fingerprints of piece placement.

pub mod bitboard;
pub mod board;
pub mod fen;
pub mod position;
pub mod zobrist;

pub use bitboard::Bitboard;
pub use board::{Board, BoardBuilder};
pub use fen::{init_boardbuilder_from_fen, FenError, FenField};
pub use position::{index_to_piece, GameState, Move, Piece, Side, StateHistory};
pub use zobrist::gen_zobrist_random_array;
