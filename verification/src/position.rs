//! The plain data of a position: piece kinds, sides and the game state.

use vstd::prelude::*;

verus! {

/// The most game states that a history can hold.
pub const MAX_GAME_MOVES: usize = 1024;

/// A move. It carries no data yet.
#[derive(Clone, Copy, Debug, PartialEq, Eq)]
pub struct Move;

/// The kind of a piece. `NoPiece` stands for an index that names no kind.
#[derive(Clone, Copy, Debug, PartialEq, Eq)]
pub enum Piece {
    Pawn,
    Knight,
    Bishop,
    Rook,
    Queen,
    King,
    NoPiece,
}

/// The side that owns a piece or is to move.
#[derive(Clone, Copy, Debug, PartialEq, Eq)]
pub enum Side {
    White,
    Black,
}

/// What a position holds besides the placement of its pieces.
#[derive(Clone, Copy, Debug, PartialEq, Eq)]
pub struct GameState {
    /// The side to move.
    pub active_side: Side,
    /// Castling rights: 1 for White's king side, 2 for White's queen side, 4 for Black's
    /// king side, 8 for Black's queen side.
    pub castling: u8,
    /// Half moves since the last capture or pawn move.
    pub half_moves: u8,
    /// The number of the full move.
    pub move_counter: u8,
    /// The square behind a pawn that has just advanced two squares, if any.
    pub en_passant_square: Option<u8>,
    /// The fingerprint of the piece placement.
    pub curr_zobrist_key: u64,
    /// The move to make next.
    pub next_move: Move,
}

/// The game states of the moves made so far.
pub struct StateHistory {
    history: [GameState; MAX_GAME_MOVES],
    count: usize,
}

impl Piece {
    /// The number of a kind: 0 for a pawn up to 5 for a king, and 6 for no kind.
    pub open spec fn index(self) -> int {
        match self {
            Piece::Pawn => 0,
            Piece::Knight => 1,
            Piece::Bishop => 2,
            Piece::Rook => 3,
            Piece::Queen => 4,
            Piece::King => 5,
            Piece::NoPiece => 6,
        }
    }
}

/// The kind whose number is `idx`; from 6 on there is none.
pub open spec fn piece_at_index(idx: int) -> Piece {
    if idx == 0 {
        Piece::Pawn
    } else if idx == 1 {
        Piece::Knight
    } else if idx == 2 {
        Piece::Bishop
    } else if idx == 3 {
        Piece::Rook
    } else if idx == 4 {
        Piece::Queen
    } else if idx == 5 {
        Piece::King
    } else {
        Piece::NoPiece
    }
}

/// The kind of piece that the number `idx` stands for.
pub fn index_to_piece(idx: usize) -> (piece: Piece)
    ensures
        piece == piece_at_index(idx as int),
        idx < 6 ==> piece.index() == idx,
        idx >= 6 ==> piece == Piece::NoPiece,
{
    match idx {
        0 => Piece::Pawn,
        1 => Piece::Knight,
        2 => Piece::Bishop,
        3 => Piece::Rook,
        4 => Piece::Queen,
        5 => Piece::King,
        _ => Piece::NoPiece,
    }
}

/// Every kind is found again from its number.
pub proof fn lemma_piece_index_inverse(piece: Piece)
    ensures
        0 <= piece.index() <= 6,
        piece_at_index(piece.index()) == piece,
{
}

} // verus!
