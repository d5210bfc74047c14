use bitchess::bitboard::Bitboard;
use bitchess::fen::{
    decode_castling, decode_number, decode_placement, decode_side, init_boardbuilder_from_fen,
    next_field, FenError, FenField,
};
use bitchess::position::{Move, Side};

const START: &str = "rnbqkbnr/pppppppp/8/8/8/8/PPPPPPPP/RNBQKBNR w KQkq - 0 1";

fn chars(text: &str) -> Vec<char> {
    text.chars().collect()
}

fn masks(board: &[Bitboard; 6]) -> [u64; 6] {
    [board[0].0, board[1].0, board[2].0, board[3].0, board[4].0, board[5].0]
}

#[test]
fn start_position_white_bitboards() {
    let builder = init_boardbuilder_from_fen(START).unwrap();
    let white = masks(&builder.piece_bitboards[0]);
    assert_eq!(white[0], 0x0000_0000_0000_FF00);
    assert_eq!(white[1], 0x0000_0000_0000_0042);
    assert_eq!(white[2], 0x0000_0000_0000_0024);
    assert_eq!(white[3], 0x0000_0000_0000_0081);
    assert_eq!(white[4], 0x0000_0000_0000_0008);
    assert_eq!(white[5], 0x0000_0000_0000_0010);
}

#[test]
fn start_position_black_bitboards() {
    let builder = init_boardbuilder_from_fen(START).unwrap();
    let black = masks(&builder.piece_bitboards[1]);
    assert_eq!(black[0], 0x00FF_0000_0000_0000);
    assert_eq!(black[1], 0x4200_0000_0000_0000);
    assert_eq!(black[2], 0x2400_0000_0000_0000);
    assert_eq!(black[3], 0x8100_0000_0000_0000);
    assert_eq!(black[4], 0x0800_0000_0000_0000);
    assert_eq!(black[5], 0x1000_0000_0000_0000);
}

#[test]
fn start_position_side_bitboards_and_state() {
    let builder = init_boardbuilder_from_fen(START).unwrap();
    assert_eq!(builder.side_bitboards[0].0, 0x0000_0000_0000_FFFF);
    assert_eq!(builder.side_bitboards[1].0, 0xFFFF_0000_0000_0000);
    assert_eq!(builder.game_state.active_side, Side::White);
    assert_eq!(builder.game_state.castling, 15);
    assert_eq!(builder.game_state.half_moves, 0);
    assert_eq!(builder.game_state.move_counter, 1);
    assert_eq!(builder.game_state.en_passant_square, None);
    assert_eq!(builder.game_state.curr_zobrist_key, 0);
    assert_eq!(builder.game_state.next_move, Move);
}

#[test]
fn position_after_two_moves() {
    let fen = "rnbqkbnr/pppp1ppp/8/4p3/4P3/8/PPPPKPPP/RNBQ1BNR b kq - 1 2";
    let builder = init_boardbuilder_from_fen(fen).unwrap();
    let white = masks(&builder.piece_bitboards[0]);
    let black = masks(&builder.piece_bitboards[1]);
    assert_eq!(white[0], 0x0000_0000_1000_EF00);
    assert_eq!(white[5], 0x0000_0000_0000_1000);
    assert_eq!(white[4], 0x0000_0000_0000_0008);
    assert_eq!(black[0], 0x00EF_0010_0000_0000);
    assert_eq!(black[5], 0x1000_0000_0000_0000);
    assert_eq!(builder.game_state.active_side, Side::Black);
    assert_eq!(builder.game_state.castling, 12);
    assert_eq!(builder.game_state.half_moves, 1);
    assert_eq!(builder.game_state.move_counter, 2);
    assert_eq!(builder.game_state.en_passant_square, None);
}

#[test]
fn side_bitboards_are_the_union_of_the_six_kinds() {
    let fens = [
        START,
        "rnbqkbnr/pppp1ppp/8/4p3/4P3/8/PPPPKPPP/RNBQ1BNR b kq - 1 2",
        "r3k2r/p1ppqpb1/bn2pnp1/3PN3/1p2P3/2N2Q1p/PPPBBPPP/R3K2R w KQkq - 0 1",
        "8/2p5/3p4/KP5r/1R3p1k/8/4P1P1/8 w - - 0 1",
        "8/8/8/8/8/8/8/8 w - - 0 1",
    ];
    for fen in fens {
        let builder = init_boardbuilder_from_fen(fen).unwrap();
        for side in 0..2 {
            let mut union = 0u64;
            let mut sum = 0u128;
            for kind in 0..6 {
                let mask = builder.piece_bitboards[side][kind].0;
                assert_eq!(union & mask, 0);
                union |= mask;
                sum += mask as u128;
            }
            assert_eq!(builder.side_bitboards[side].0, union);
            assert_eq!(builder.side_bitboards[side].0 as u128, sum);
        }
        assert_eq!(builder.side_bitboards[0].0 & builder.side_bitboards[1].0, 0);
    }
}

#[test]
fn castling_mask_of_all_rights() {
    assert_eq!(decode_castling(&chars("KQkq")), Ok(15));
    let builder = init_boardbuilder_from_fen("8/8/8/8/8/8/8/8 w KQkq - 0 1").unwrap();
    assert_eq!(builder.game_state.castling, 15);
}

#[test]
fn castling_mask_of_no_rights() {
    assert_eq!(decode_castling(&chars("-")), Ok(0));
    let builder = init_boardbuilder_from_fen("8/8/8/8/8/8/8/8 w - - 0 1").unwrap();
    assert_eq!(builder.game_state.castling, 0);
}

#[test]
fn castling_mask_of_single_letters() {
    assert_eq!(decode_castling(&chars("K")), Ok(1));
    assert_eq!(decode_castling(&chars("Q")), Ok(2));
    assert_eq!(decode_castling(&chars("k")), Ok(4));
    assert_eq!(decode_castling(&chars("q")), Ok(8));
}

#[test]
fn castling_mask_of_mixed_rights() {
    assert_eq!(decode_castling(&chars("Kk")), Ok(5));
    assert_eq!(decode_castling(&chars("Kq")), Ok(9));
    assert_eq!(decode_castling(&chars("Qk")), Ok(6));
    let builder = init_boardbuilder_from_fen("8/8/8/8/8/8/8/8 w Kq - 0 1").unwrap();
    assert_eq!(builder.game_state.castling, 9);
}

#[test]
fn castling_ignores_other_characters() {
    assert_eq!(decode_castling(&chars("x-K?z")), Ok(1));
    assert_eq!(decode_castling(&chars("")), Ok(0));
}

#[test]
fn castling_letters_add_up() {
    assert_eq!(decode_castling(&chars("KK")), Ok(2));
    assert_eq!(decode_castling(&chars("qq")), Ok(16));
    let many = "q".repeat(31);
    assert_eq!(decode_castling(&chars(&many)), Ok(248));
    let top = format!("{}kQK", many);
    assert_eq!(decode_castling(&chars(&top)), Ok(255));
}

#[test]
fn castling_sum_past_a_byte_is_refused() {
    let many = "q".repeat(32);
    assert_eq!(decode_castling(&chars(&many)), Err(FenError::CastlingOverflow));
    let fen = format!("8/8/8/8/8/8/8/8 w {} - 0 1", many);
    assert_eq!(init_boardbuilder_from_fen(&fen).err(), Some(FenError::CastlingOverflow));
    let over = format!("{}kQKK", "q".repeat(31));
    assert_eq!(decode_castling(&chars(&over)), Err(FenError::CastlingOverflow));
}

#[test]
fn illegal_character_in_placement_is_fatal() {
    let staged = init_boardbuilder_from_fen("8/8/8/8/8/8/8/X7 w - - 0 1");
    assert!(staged.is_err());
    assert_eq!(staged.err(), Some(FenError::UnsupportedCharacter('X')));
}

#[test]
fn the_first_illegal_character_is_reported() {
    assert_eq!(
        init_boardbuilder_from_fen("8/8/9/8/8/0/8/8 w - - 0 1").err(),
        Some(FenError::UnsupportedCharacter('9'))
    );
    assert_eq!(
        init_boardbuilder_from_fen("8/8/8/8/8/0/8/8 w - - 0 1").err(),
        Some(FenError::UnsupportedCharacter('0'))
    );
    assert_eq!(
        init_boardbuilder_from_fen("rnbqkbnr/ppp\u{e9}pppp/8/8/8/8/8/8 w - - 0 1").err(),
        Some(FenError::UnsupportedCharacter('\u{e9}'))
    );
}

#[test]
fn missing_fields_are_reported_in_order() {
    let cases = [
        ("", FenField::Placement),
        ("   \t\n", FenField::Placement),
        ("8/8/8/8/8/8/8/8", FenField::ActiveColor),
        ("8/8/8/8/8/8/8/8 w", FenField::Castling),
        ("8/8/8/8/8/8/8/8 w -", FenField::EnPassant),
        ("8/8/8/8/8/8/8/8 w - -", FenField::HalfmoveClock),
        ("8/8/8/8/8/8/8/8 w - - 0", FenField::FullmoveNumber),
        ("8/8/8/8/8/8/8/8 w - - 0   ", FenField::FullmoveNumber),
    ];
    for (fen, field) in cases {
        assert_eq!(init_boardbuilder_from_fen(fen).err(), Some(FenError::MissingField(field)));
    }
}

#[test]
fn a_bad_placement_is_reported_before_a_missing_field() {
    assert_eq!(
        init_boardbuilder_from_fen("8/8/X").err(),
        Some(FenError::UnsupportedCharacter('X'))
    );
}

#[test]
fn clocks_must_be_numbers_that_fit_a_byte() {
    let half = Some(FenError::InvalidNumber(FenField::HalfmoveClock));
    let full = Some(FenError::InvalidNumber(FenField::FullmoveNumber));
    assert_eq!(init_boardbuilder_from_fen("8/8/8/8/8/8/8/8 w - - x 1").err(), half);
    assert_eq!(init_boardbuilder_from_fen("8/8/8/8/8/8/8/8 w - - 256 1").err(), half);
    assert_eq!(init_boardbuilder_from_fen("8/8/8/8/8/8/8/8 w - - -1 1").err(), half);
    assert_eq!(init_boardbuilder_from_fen("8/8/8/8/8/8/8/8 w - - 0 one").err(), full);
    assert_eq!(init_boardbuilder_from_fen("8/8/8/8/8/8/8/8 w - - 0 1000").err(), full);
    assert_eq!(init_boardbuilder_from_fen("8/8/8/8/8/8/8/8 w - - 0 1.5").err(), full);
    assert_eq!(init_boardbuilder_from_fen("8/8/8/8/8/8/8/8 w - - x y").err(), half);
}

#[test]
fn clocks_at_the_limits() {
    let builder = init_boardbuilder_from_fen("8/8/8/8/8/8/8/8 w - - 255 0").unwrap();
    assert_eq!(builder.game_state.half_moves, 255);
    assert_eq!(builder.game_state.move_counter, 0);
    let builder = init_boardbuilder_from_fen("8/8/8/8/8/8/8/8 w - - 099 +7").unwrap();
    assert_eq!(builder.game_state.half_moves, 99);
    assert_eq!(builder.game_state.move_counter, 7);
}

#[test]
fn numbers_are_read_as_the_standard_library_reads_them() {
    let alphabet = ['+', '-', '0', '1', '2', '5', '6', '9', ' ', 'a', '_'];
    let mut texts: Vec<String> = vec![String::new()];
    let mut grown: Vec<String> = vec![String::new()];
    for _ in 0..4 {
        let mut next = Vec::new();
        for text in &grown {
            for c in alphabet {
                let mut longer = text.clone();
                longer.push(c);
                next.push(longer);
            }
        }
        texts.extend(next.iter().cloned());
        grown = next;
    }
    texts.push("000000000000000000000000255".to_string());
    texts.push("000000000000000000000000256".to_string());
    texts.push("99999999999999999999999999999999".to_string());
    texts.push("\u{663}".to_string());
    for text in texts {
        assert_eq!(decode_number(&chars(&text)), text.parse::<u8>().ok(), "{:?}", text);
    }
}

#[test]
fn number_examples() {
    assert_eq!(decode_number(&chars("0")), Some(0));
    assert_eq!(decode_number(&chars("42")), Some(42));
    assert_eq!(decode_number(&chars("+42")), Some(42));
    assert_eq!(decode_number(&chars("255")), Some(255));
    assert_eq!(decode_number(&chars("256")), None);
    assert_eq!(decode_number(&chars("")), None);
    assert_eq!(decode_number(&chars("+")), None);
    assert_eq!(decode_number(&chars("++1")), None);
    assert_eq!(decode_number(&chars("-0")), None);
    assert_eq!(decode_number(&chars("1 ")), None);
}

#[test]
fn active_color() {
    assert_eq!(decode_side(&chars("w")), Side::White);
    assert_eq!(decode_side(&chars("b")), Side::Black);
    let builder = init_boardbuilder_from_fen("8/8/8/8/8/8/8/8 b - - 0 1").unwrap();
    assert_eq!(builder.game_state.active_side, Side::Black);
}

#[test]
fn unknown_active_color_falls_back_to_white() {
    for token in ["x", "B", "W", "bb", "black", "-", "wb"] {
        assert_eq!(decode_side(&chars(token)), Side::White);
        let fen = format!("8/8/8/8/8/8/8/8 {} - - 0 1", token);
        let builder = init_boardbuilder_from_fen(&fen).unwrap();
        assert_eq!(builder.game_state.active_side, Side::White);
    }
}

#[test]
fn en_passant_field_is_read_and_set_aside() {
    let fen = "rnbqkbnr/pppp1ppp/8/4p3/4P3/8/PPPP1PPP/RNBQKBNR w KQkq e6 0 2";
    let builder = init_boardbuilder_from_fen(fen).unwrap();
    assert_eq!(builder.game_state.en_passant_square, None);
    let builder = init_boardbuilder_from_fen("8/8/8/8/8/8/8/8 w - anything 0 2").unwrap();
    assert_eq!(builder.game_state.en_passant_square, None);
}

#[test]
fn fields_may_be_parted_by_any_run_of_blanks() {
    let plain = init_boardbuilder_from_fen(START).unwrap();
    let spaced = init_boardbuilder_from_fen(
        "\t rnbqkbnr/pppppppp/8/8/8/8/PPPPPPPP/RNBQKBNR\nw \r\n KQkq\x0C-   0\t1 \n",
    )
    .unwrap();
    assert_eq!(spaced.piece_bitboards, plain.piece_bitboards);
    assert_eq!(spaced.side_bitboards, plain.side_bitboards);
    assert_eq!(spaced.game_state, plain.game_state);
}

#[test]
fn other_blank_characters_do_not_part_fields() {
    assert_eq!(
        init_boardbuilder_from_fen("8/8/8/8/8/8/8/8\u{b}w - - 0 1").err(),
        Some(FenError::UnsupportedCharacter('\u{b}'))
    );
    assert_eq!(
        init_boardbuilder_from_fen("8/8/8/8/8/8/8/8\u{a0}w - - 0 1").err(),
        Some(FenError::UnsupportedCharacter('\u{a0}'))
    );
}

#[test]
fn what_follows_the_sixth_field_is_not_read() {
    let plain = init_boardbuilder_from_fen(START).unwrap();
    let longer = format!("{} and more ???", START);
    let builder = init_boardbuilder_from_fen(&longer).unwrap();
    assert_eq!(builder.piece_bitboards, plain.piece_bitboards);
    assert_eq!(builder.game_state, plain.game_state);
}

#[test]
fn fields_are_found_as_the_standard_library_splits_them() {
    let texts = [
        "",
        " ",
        "a",
        " a",
        "a ",
        "a b",
        "  a \t b\n\nc\r\x0Cd  ",
        "8/8/8/8/8/8/8/8 w - - 0 1",
        "one\u{b}two three\u{a0}four",
    ];
    for text in texts {
        let all = chars(text);
        let mut found: Vec<String> = Vec::new();
        let mut from = 0;
        loop {
            let (start, end) = next_field(&all, from);
            if start >= all.len() {
                break;
            }
            found.push(all[start..end].iter().collect());
            from = end;
        }
        let expected: Vec<String> = text.split_ascii_whitespace().map(|f| f.to_string()).collect();
        assert_eq!(found, expected, "{:?}", text);
    }
}

#[test]
fn next_field_bounds() {
    let all = chars("  ab  c");
    assert_eq!(next_field(&all, 0), (2, 4));
    assert_eq!(next_field(&all, 4), (6, 7));
    assert_eq!(next_field(&all, 7), (7, 7));
    assert_eq!(next_field(&all, 3), (3, 4));
}

#[test]
fn placement_of_a_single_piece() {
    let planes = decode_placement(&chars("8/8/8/8/8/8/8/4K3")).unwrap();
    let mut expected = [0u64; 12];
    expected[5] = 1 << 4;
    assert_eq!(planes, expected);
    let planes = decode_placement(&chars("k7")).unwrap();
    let mut expected = [0u64; 12];
    expected[11] = 1 << 56;
    assert_eq!(planes, expected);
}

#[test]
fn placement_puts_each_letter_in_its_mask() {
    let planes = decode_placement(&chars("PNBRQKpnbrqk")).unwrap_err();
    assert_eq!(planes, FenError::OffBoard);
    let planes = decode_placement(&chars("PNBRQK2/pnbrqk2")).unwrap();
    for kind in 0..6 {
        assert_eq!(planes[kind], 1u64 << (56 + kind));
        assert_eq!(planes[6 + kind], 1u64 << (48 + kind));
    }
}

#[test]
fn empty_placement_ranks() {
    let planes = decode_placement(&chars("")).unwrap();
    assert_eq!(planes, [0u64; 12]);
    let planes = decode_placement(&chars("///////")).unwrap();
    assert_eq!(planes, [0u64; 12]);
    let planes = decode_placement(&chars("/////2P/P/1P")).unwrap();
    assert_eq!(planes[0], (1 << 18) | (1 << 8) | (1 << 1));
}

#[test]
fn a_rank_may_run_on_into_the_squares_above() {
    let planes = decode_placement(&chars("8/8/8/8/8/8/8/PPPPPPPPP")).unwrap();
    assert_eq!(planes[0], 0x1FF);
    let planes = decode_placement(&chars("8/8/8/8/8/8/8/88888888")).unwrap();
    assert_eq!(planes, [0u64; 12]);
    let long_run = "8".repeat(100);
    let planes = decode_placement(&chars(&format!("{}/7Q", long_run))).unwrap();
    assert_eq!(planes[4], 1 << 55);
}

#[test]
fn a_piece_past_the_last_square_is_refused() {
    assert_eq!(decode_placement(&chars("8P")), Err(FenError::OffBoard));
    assert_eq!(decode_placement(&chars("PPPPPPPPP")), Err(FenError::OffBoard));
    assert_eq!(decode_placement(&chars("8/88p")), Err(FenError::OffBoard));
    let long_run = "8".repeat(100);
    assert_eq!(decode_placement(&chars(&format!("{}k", long_run))), Err(FenError::OffBoard));
    assert_eq!(
        init_boardbuilder_from_fen("8P/8/8/8/8/8/8/8 w - - 0 1").err(),
        Some(FenError::OffBoard)
    );
}

#[test]
fn a_ninth_rank_is_refused() {
    assert_eq!(decode_placement(&chars("8/8/8/8/8/8/8/8/")), Err(FenError::TooManyRanks));
    assert_eq!(decode_placement(&chars("////////")), Err(FenError::TooManyRanks));
    assert_eq!(
        init_boardbuilder_from_fen("8/8/8/8/8/8/8/8/8 w - - 0 1").err(),
        Some(FenError::TooManyRanks)
    );
}

#[test]
fn a_square_cannot_be_filled_twice() {
    assert_eq!(decode_placement(&chars("P7/8P")), Err(FenError::SquareOccupied(56)));
    assert_eq!(decode_placement(&chars("p7/8P")), Err(FenError::SquareOccupied(56)));
    assert_eq!(decode_placement(&chars("8/8/8/8/8/8/n7/8Q")), Err(FenError::SquareOccupied(8)));
    assert_eq!(decode_placement(&chars("8/8/8/8/8/p7/8/88Q")), Err(FenError::SquareOccupied(16)));
    assert_eq!(
        init_boardbuilder_from_fen("k7/8K w - - 0 1").err(),
        Some(FenError::SquareOccupied(56))
    );
}

#[test]
fn a_rank_that_runs_on_into_free_squares_is_taken() {
    let planes = decode_placement(&chars("1P6/8P")).unwrap();
    assert_eq!(planes[0], (1 << 57) | (1 << 56));
}
