use bitchess::position::{index_to_piece, GameState, Move, Piece, Side, MAX_GAME_MOVES};

#[test]
fn index_to_piece_names_the_six_kinds() {
    assert_eq!(index_to_piece(0), Piece::Pawn);
    assert_eq!(index_to_piece(1), Piece::Knight);
    assert_eq!(index_to_piece(2), Piece::Bishop);
    assert_eq!(index_to_piece(3), Piece::Rook);
    assert_eq!(index_to_piece(4), Piece::Queen);
    assert_eq!(index_to_piece(5), Piece::King);
}

#[test]
fn index_to_piece_gives_no_kind_from_six_on() {
    assert_eq!(index_to_piece(6), Piece::NoPiece);
    assert_eq!(index_to_piece(7), Piece::NoPiece);
    assert_eq!(index_to_piece(usize::MAX), Piece::NoPiece);
}

#[test]
fn game_state_is_plain_data() {
    let state = GameState {
        active_side: Side::Black,
        castling: 12,
        half_moves: 1,
        move_counter: 2,
        en_passant_square: None,
        curr_zobrist_key: 0,
        next_move: Move,
    };
    let copy = state;
    assert_eq!(copy, state);
    assert_eq!(copy.active_side, Side::Black);
}

#[test]
fn history_limit() {
    assert_eq!(MAX_GAME_MOVES, 1024);
}
