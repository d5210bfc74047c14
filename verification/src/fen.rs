//! Decoding of position text: six fields separated by blanks, of which the first places
//! the pieces.

use vstd::prelude::*;
use vstd::slice::slice_subrange;
use crate::bitboard::{has_bit, lemma_empty_mask, lemma_mask_probe, lemma_set_bit, Bitboard};
use crate::board::{pairwise_disjoint, side_occupancy, union_of_six, BoardBuilder, PositionView};
use crate::position::{GameState, Move, Side};

verus! {

/// The six fields of position text, in the order in which they stand.
#[derive(Clone, Copy, Debug, PartialEq, Eq)]
pub enum FenField {
    Placement,
    ActiveColor,
    Castling,
    EnPassant,
    HalfmoveClock,
    FullmoveNumber,
}

/// Why position text was turned down.
#[derive(Clone, Copy, Debug, PartialEq, Eq)]
pub enum FenError {
    /// The text ends before this field.
    MissingField(FenField),
    /// The placement holds a character that is neither a piece letter, a digit from 1 to 8
    /// nor a slash.
    UnsupportedCharacter(char),
    /// The placement steps below the lowest rank.
    TooManyRanks,
    /// The placement puts a piece past the last square.
    OffBoard,
    /// The placement puts a piece on a square that already holds one.
    SquareOccupied(u8),
    /// The castling letters add up to more than 255.
    CastlingOverflow,
    /// The field is not a number from 0 to 255.
    InvalidNumber(FenField),
}

/// The position that the text `s` stands for, or the first fault in it. The text holds six
/// fields: the placement, the side to move, the castling letters, the en passant square, the
/// half move clock and the full move number. The fields are read in that order, and what
/// follows the sixth is not read. The en passant field has to be there and is set aside.
pub open spec fn decode_fen(s: Seq<char>) -> Result<PositionView, FenError> {
    if field(s, 0) is None {
        Err(FenError::MissingField(FenField::Placement))
    } else if placement_of(field(s, 0).unwrap()) is Err {
        Err(placement_of(field(s, 0).unwrap())->Err_0)
    } else if field(s, 1) is None {
        Err(FenError::MissingField(FenField::ActiveColor))
    } else if field(s, 2) is None {
        Err(FenError::MissingField(FenField::Castling))
    } else if castling_of(field(s, 2).unwrap()) is Err {
        Err(FenError::CastlingOverflow)
    } else if field(s, 3) is None {
        Err(FenError::MissingField(FenField::EnPassant))
    } else if field(s, 4) is None {
        Err(FenError::MissingField(FenField::HalfmoveClock))
    } else if number_of(field(s, 4).unwrap()) is None {
        Err(FenError::InvalidNumber(FenField::HalfmoveClock))
    } else if field(s, 5) is None {
        Err(FenError::MissingField(FenField::FullmoveNumber))
    } else if number_of(field(s, 5).unwrap()) is None {
        Err(FenError::InvalidNumber(FenField::FullmoveNumber))
    } else {
        let planes = placement_of(field(s, 0).unwrap()).unwrap();
        Ok(
            PositionView {
                planes,
                sides: seq![union_of_six(planes, 0), union_of_six(planes, 6)],
                state: GameState {
                    active_side: side_of(field(s, 1).unwrap()),
                    castling: castling_of(field(s, 2).unwrap()).unwrap(),
                    half_moves: number_of(field(s, 4).unwrap()).unwrap(),
                    move_counter: number_of(field(s, 5).unwrap()).unwrap(),
                    en_passant_square: None,
                    curr_zobrist_key: 0,
                    next_move: Move,
                },
            },
        )
    }
}

/// Decodes position text into a staged position. The key of the staged position is 0 and
/// its en passant square is left out.
pub fn init_boardbuilder_from_fen(fen: &str) -> (staged: Result<BoardBuilder, FenError>)
    ensures
        match staged {
            Ok(builder) => decode_fen(fen@) == Ok::<PositionView, FenError>(builder@)
                && builder@.wf(),
            Err(e) => decode_fen(fen@) == Err::<PositionView, FenError>(e),
        },
{
    let chars = characters(fen);
    let text = chars.as_slice();
    let ghost s = fen@;

    let (start0, end0) = next_field(text, 0);
    assert(field_start(s, 0) == start0);
    if start0 >= text.len() {
        return Err(FenError::MissingField(FenField::Placement));
    }
    let planes = match decode_placement(slice_subrange(text, start0, end0)) {
        Ok(planes) => planes,
        Err(e) => {
            return Err(e);
        },
    };

    let (start1, end1) = next_field(text, end0);
    assert(field_start(s, 1) == start1);
    if start1 >= text.len() {
        return Err(FenError::MissingField(FenField::ActiveColor));
    }
    let active_side = decode_side(slice_subrange(text, start1, end1));

    let (start2, end2) = next_field(text, end1);
    assert(field_start(s, 2) == start2);
    if start2 >= text.len() {
        return Err(FenError::MissingField(FenField::Castling));
    }
    let castling = match decode_castling(slice_subrange(text, start2, end2)) {
        Ok(mask) => mask,
        Err(e) => {
            return Err(e);
        },
    };

    let (start3, end3) = next_field(text, end2);
    assert(field_start(s, 3) == start3);
    if start3 >= text.len() {
        return Err(FenError::MissingField(FenField::EnPassant));
    }

    let (start4, end4) = next_field(text, end3);
    assert(field_start(s, 4) == start4);
    if start4 >= text.len() {
        return Err(FenError::MissingField(FenField::HalfmoveClock));
    }
    let half_moves = match decode_number(slice_subrange(text, start4, end4)) {
        Some(n) => n,
        None => {
            return Err(FenError::InvalidNumber(FenField::HalfmoveClock));
        },
    };

    let (start5, end5) = next_field(text, end4);
    assert(field_start(s, 5) == start5);
    if start5 >= text.len() {
        return Err(FenError::MissingField(FenField::FullmoveNumber));
    }
    let move_counter = match decode_number(slice_subrange(text, start5, end5)) {
        Some(n) => n,
        None => {
            return Err(FenError::InvalidNumber(FenField::FullmoveNumber));
        },
    };

    let white = [
        Bitboard(planes[0]),
        Bitboard(planes[1]),
        Bitboard(planes[2]),
        Bitboard(planes[3]),
        Bitboard(planes[4]),
        Bitboard(planes[5]),
    ];
    let black = [
        Bitboard(planes[6]),
        Bitboard(planes[7]),
        Bitboard(planes[8]),
        Bitboard(planes[9]),
        Bitboard(planes[10]),
        Bitboard(planes[11]),
    ];
    proof {
        assert forall|i: int, j: int| 0 <= i < 6 && 0 <= j < 6 && i != j implies (
        #[trigger] white[i]).0 & (#[trigger] white[j]).0 == 0 by {
            assert(planes@[i] & planes@[j] == 0);
        }
        assert forall|i: int, j: int| 0 <= i < 6 && 0 <= j < 6 && i != j implies (
        #[trigger] black[i]).0 & (#[trigger] black[j]).0 == 0 by {
            assert(planes@[i + 6] & planes@[j + 6] == 0);
        }
    }
    let white_all = side_occupancy(&white);
    let black_all = side_occupancy(&black);
    let builder = BoardBuilder {
        piece_bitboards: [white, black],
        side_bitboards: [white_all, black_all],
        game_state: GameState {
            active_side,
            castling,
            half_moves,
            move_counter,
            en_passant_square: None,
            curr_zobrist_key: 0,
            next_move: Move,
        },
    };
    proof {
        assert(builder@.planes =~= planes@);
        assert(builder@.sides =~= seq![union_of_six(planes@, 0), union_of_six(planes@, 6)]);
    }
    Ok(builder)
}

/// Every position that decodes is well formed: no square is claimed by two masks, and each
/// side's occupancy is the union of that side's six masks.
pub proof fn lemma_decoded_wf(s: Seq<char>)
    requires
        decode_fen(s) is Ok,
    ensures
        decode_fen(s).unwrap().wf(),
{
    lemma_scan_wf(field(s, 0).unwrap());
}

/// The characters of `text`, in order.
pub fn characters(text: &str) -> (chars: Vec<char>)
    ensures
        chars@ == text@,
{
    let mut chars: Vec<char> = Vec::new();
    for c in it: text.chars()
        invariant
            chars@ == it.seq().take(it.index() as int),
    {
        chars.push(c);
    }
    chars
}

/// The characters that part one field from the next: blank, tab, line feed, form feed and
/// carriage return.
pub open spec fn is_separator(c: char) -> bool {
    c == ' ' || c == '\t' || c == '\n' || c == '\x0C' || c == '\r'
}

/// The first place at or after `from` that holds no separator; the length of `s` if there
/// is none.
pub open spec fn skip_separators(s: Seq<char>, from: int) -> int
    decreases s.len() - from,
{
    if 0 <= from < s.len() && is_separator(s[from]) {
        skip_separators(s, from + 1)
    } else {
        from
    }
}

/// The first place at or after `from` that holds a separator; the length of `s` if there is
/// none.
pub open spec fn field_end(s: Seq<char>, from: int) -> int
    decreases s.len() - from,
{
    if 0 <= from < s.len() && !is_separator(s[from]) {
        field_end(s, from + 1)
    } else {
        from
    }
}

/// Where field `k` starts, counting from 0. A field is a longest run of characters that are
/// no separators. Where `s` has no such field, this is the length of `s`.
pub open spec fn field_start(s: Seq<char>, k: nat) -> int
    decreases k,
{
    if k == 0 {
        skip_separators(s, 0)
    } else {
        skip_separators(s, field_end(s, field_start(s, (k - 1) as nat)))
    }
}

/// Field `k` of `s`, if `s` has that many.
pub open spec fn field(s: Seq<char>, k: nat) -> Option<Seq<char>> {
    let start = field_start(s, k);
    if start < s.len() {
        Some(s.subrange(start, field_end(s, start)))
    } else {
        None
    }
}

/// Whether `c` parts fields.
pub fn is_separator_char(c: char) -> (b: bool)
    ensures
        b == is_separator(c),
{
    c == ' ' || c == '\t' || c == '\n' || c == '\x0C' || c == '\r'
}

/// The field that starts at or after `from`: where it starts and where it ends. An empty
/// field at the end of the text means that none is left.
pub fn next_field(text: &[char], from: usize) -> (bounds: (usize, usize))
    requires
        from <= text@.len(),
    ensures
        bounds.0 == skip_separators(text@, from as int),
        bounds.1 == field_end(text@, bounds.0 as int),
        from <= bounds.0 <= bounds.1 <= text@.len(),
{
    let mut start: usize = from;
    while start < text.len() && is_separator_char(text[start])
        invariant
            from <= start <= text@.len(),
            skip_separators(text@, from as int) == skip_separators(text@, start as int),
        decreases text@.len() - start,
    {
        start += 1;
    }
    let mut end: usize = start;
    while end < text.len() && !is_separator_char(text[end])
        invariant
            start <= end <= text@.len(),
            field_end(text@, start as int) == field_end(text@, end as int),
        decreases text@.len() - end,
    {
        end += 1;
    }
    (start, end)
}

/// The mask that a piece letter puts its piece on: 0 to 5 for White's pawn, knight, bishop,
/// rook, queen and king, 6 to 11 for Black's.
pub open spec fn plane_of(c: char) -> Option<int> {
    if c == 'P' {
        Some(0)
    } else if c == 'N' {
        Some(1)
    } else if c == 'B' {
        Some(2)
    } else if c == 'R' {
        Some(3)
    } else if c == 'Q' {
        Some(4)
    } else if c == 'K' {
        Some(5)
    } else if c == 'p' {
        Some(6)
    } else if c == 'n' {
        Some(7)
    } else if c == 'b' {
        Some(8)
    } else if c == 'r' {
        Some(9)
    } else if c == 'q' {
        Some(10)
    } else if c == 'k' {
        Some(11)
    } else {
        None
    }
}

/// The number of empty squares that a digit from 1 to 8 stands for.
pub open spec fn run_of(c: char) -> Option<int> {
    match digit_value(c) {
        Some(d) => if 1 <= d <= 8 {
            Some(d)
        } else {
            None
        },
        None => None,
    }
}

/// Whether one of the masks holds square `sq`.
pub open spec fn occupied(planes: Seq<u64>, sq: u64) -> bool {
    exists|p: int| 0 <= p < planes.len() && has_bit(#[trigger] planes[p], sq)
}

/// Where a scan of the placement stands: the masks filled so far, and the rank and file of
/// the square that comes next. The file counts on past the edge of the board.
pub struct Scan {
    pub planes: Seq<u64>,
    pub rank: int,
    pub file: int,
}

impl Scan {
    /// Twelve masks of which no two share a square, a rank on the board, and a file that
    /// has not gone back.
    pub open spec fn wf(self) -> bool {
        &&& self.planes.len() == 12
        &&& pairwise_disjoint(self.planes)
        &&& 0 <= self.rank <= 7
        &&& 0 <= self.file
    }

    /// The square that comes next: eight to a rank.
    pub open spec fn square(self) -> int {
        8 * self.rank + self.file
    }
}

/// The scan before the first character: an empty board, at the first file of the top rank.
pub open spec fn scan_start() -> Scan {
    Scan { planes: Seq::new(12, |i: int| 0u64), rank: 7, file: 0 }
}

/// What one character does to a scan. A slash goes to the first file of the rank below. A
/// digit from 1 to 8 passes that many squares. A piece letter sets the next square in its
/// mask and passes it; the square has to be on the board and free.
pub open spec fn scan_step(st: Scan, c: char) -> Result<Scan, FenError> {
    if c == '/' {
        if st.rank == 0 {
            Err(FenError::TooManyRanks)
        } else {
            Ok(Scan { planes: st.planes, rank: st.rank - 1, file: 0 })
        }
    } else if run_of(c) is Some {
        Ok(Scan { planes: st.planes, rank: st.rank, file: st.file + run_of(c).unwrap() })
    } else if plane_of(c) is Some {
        let p = plane_of(c).unwrap();
        if st.square() >= 64 {
            Err(FenError::OffBoard)
        } else if occupied(st.planes, st.square() as u64) {
            Err(FenError::SquareOccupied(st.square() as u8))
        } else {
            Ok(
                Scan {
                    planes: st.planes.update(p, st.planes[p] | (1u64 << (st.square() as u64))),
                    rank: st.rank,
                    file: st.file + 1,
                },
            )
        }
    } else {
        Err(FenError::UnsupportedCharacter(c))
    }
}

/// The scan after the characters of `s`, taken from left to right; the first fault ends it.
pub open spec fn scan(s: Seq<char>) -> Result<Scan, FenError>
    decreases s.len(),
{
    if s.len() == 0 {
        Ok(scan_start())
    } else {
        match scan(s.drop_last()) {
            Ok(st) => scan_step(st, s.last()),
            Err(e) => Err(e),
        }
    }
}

/// The twelve masks that the placement field `s` stands for.
pub open spec fn placement_of(s: Seq<char>) -> Result<Seq<u64>, FenError> {
    match scan(s) {
        Ok(st) => Ok(st.planes),
        Err(e) => Err(e),
    }
}

/// The mask of the piece letter `c`, if it is one.
pub fn plane_index(c: char) -> (p: Option<usize>)
    ensures
        match p {
            Some(i) => plane_of(c) == Some(i as int) && i < 12,
            None => plane_of(c) is None,
        },
{
    if c == 'P' {
        Some(0)
    } else if c == 'N' {
        Some(1)
    } else if c == 'B' {
        Some(2)
    } else if c == 'R' {
        Some(3)
    } else if c == 'Q' {
        Some(4)
    } else if c == 'K' {
        Some(5)
    } else if c == 'p' {
        Some(6)
    } else if c == 'n' {
        Some(7)
    } else if c == 'b' {
        Some(8)
    } else if c == 'r' {
        Some(9)
    } else if c == 'q' {
        Some(10)
    } else if c == 'k' {
        Some(11)
    } else {
        None
    }
}

/// The twelve masks that the placement `field` fills, or the first fault in it.
pub fn decode_placement(field: &[char]) -> (planes: Result<[u64; 12], FenError>)
    ensures
        match planes {
            Ok(masks) => placement_of(field@) == Ok::<Seq<u64>, FenError>(masks@)
                && pairwise_disjoint(masks@),
            Err(e) => placement_of(field@) == Err::<Seq<u64>, FenError>(e),
        },
{
    let mut planes: [u64; 12] = [0u64;12];
    let mut taken: u64 = 0;
    let mut rank: u8 = 7;
    let mut file: u8 = 0;
    let mut i: usize = 0;
    let ghost mut st = scan_start();
    proof {
        assert(planes@ =~= st.planes);
        assert(field@.take(0) =~= Seq::<char>::empty());
        lemma_empty_mask();
        lemma_scan_wf(field@.take(0));
    }
    while i < field.len()
        invariant
            i <= field@.len(),
            scan(field@.take(i as int)) == Ok::<Scan, FenError>(st),
            st.wf(),
            st.planes == planes@,
            st.rank == rank,
            file <= 64,
            file == if st.file < 64 {
                st.file
            } else {
                64
            },
            forall|k: u64| has_bit(taken, k) <==> occupied(planes@, k),
        decreases field@.len() - i,
    {
        let c = field[i];
        let ghost here = field@.take(i + 1);
        proof {
            assert(here.drop_last() =~= field@.take(i as int));
            assert(here.last() == c);
            assert(scan(here) == scan_step(st, c));
            if scan_step(st, c) is Ok {
                lemma_scan_step_wf(st, c);
            } else {
                lemma_scan_fault_stays(field@, i + 1);
            }
        }
        if c == '/' {
            if rank == 0 {
                return Err(FenError::TooManyRanks);
            }
            rank -= 1;
            file = 0;
        } else {
            let run = decode_digit(c);
            if run.is_some() && 1 <= run.unwrap() && run.unwrap() <= 8 {
                let n = run.unwrap();
                file = if file + n > 64 {
                    64
                } else {
                    file + n
                };
            } else {
                match plane_index(c) {
                    Some(p) => {
                        if file >= 64 {
                            return Err(FenError::OffBoard);
                        }
                        let sq: u8 = rank * 8 + file;
                        if sq >= 64 {
                            return Err(FenError::OffBoard);
                        }
                        let bit: u64 = 1u64 << sq;
                        proof {
                            lemma_mask_probe(taken, sq as u64);
                        }
                        if taken & bit != 0 {
                            return Err(FenError::SquareOccupied(sq));
                        }
                        let ghost before = planes@;
                        let ghost taken_before = taken;
                        planes[p] = planes[p] | bit;
                        taken = taken | bit;
                        file += 1;
                        proof {
                            let grown = before[p as int] | bit;
                            lemma_set_bit(before[p as int], sq as u64);
                            lemma_set_bit(taken_before, sq as u64);
                            assert(planes@ =~= before.update(p as int, grown));
                            assert forall|k: u64| has_bit(taken, k) <==> occupied(
                                planes@,
                                k,
                            ) by {
                                if has_bit(taken, k) {
                                    if k == sq as u64 {
                                        assert(has_bit(planes@[p as int], k));
                                    } else {
                                        assert(occupied(before, k));
                                        let q = choose|q: int|
                                            0 <= q < before.len() && has_bit(
                                                #[trigger] before[q],
                                                k,
                                            );
                                        assert(has_bit(planes@[q], k));
                                    }
                                }
                                if occupied(planes@, k) {
                                    let q = choose|q: int|
                                        0 <= q < planes@.len() && has_bit(
                                            #[trigger] planes@[q],
                                            k,
                                        );
                                    if k != sq as u64 {
                                        assert(has_bit(before[q], k));
                                    }
                                }
                            }
                        }
                    },
                    None => {
                        return Err(FenError::UnsupportedCharacter(c));
                    },
                }
            }
        }
        proof {
            st = scan_step(st, c).unwrap();
        }
        i += 1;
    }
    proof {
        assert(field@.take(i as int) =~= field@);
    }
    Ok(planes)
}

/// A mask that grows by a bit which another mask lacks still shares nothing with that one.
proof fn lemma_grow_apart(a: u64, b: u64, bit: u64)
    requires
        a & b == 0,
        b & bit == 0,
    ensures
        (a | bit) & b == 0,
        b & (a | bit) == 0,
{
    assert((a | bit) & b == 0 && b & (a | bit) == 0) by (bit_vector)
        requires
            a & b == 0,
            b & bit == 0,
    ;
}

/// A step that succeeds on a well-formed scan leaves a well-formed scan.
pub proof fn lemma_scan_step_wf(st: Scan, c: char)
    requires
        st.wf(),
        scan_step(st, c) is Ok,
    ensures
        scan_step(st, c).unwrap().wf(),
{
    let next = scan_step(st, c).unwrap();
    if c != '/' && run_of(c) is None {
        let p = plane_of(c).unwrap();
        let sq = st.square() as u64;
        let bit = 1u64 << sq;
        assert forall|i: int, j: int|
            0 <= i < 12 && 0 <= j < 12 && i != j implies #[trigger] next.planes[i]
            & #[trigger] next.planes[j] == 0 by {
            assert(st.planes[i] & st.planes[j] == 0);
            if i == p {
                assert(!has_bit(st.planes[j], sq));
                lemma_mask_probe(st.planes[j], sq);
                lemma_grow_apart(st.planes[i], st.planes[j], bit);
            } else if j == p {
                assert(!has_bit(st.planes[i], sq));
                lemma_mask_probe(st.planes[i], sq);
                assert(st.planes[j] & st.planes[i] == 0);
                lemma_grow_apart(st.planes[j], st.planes[i], bit);
            }
        }
    }
}

/// Every scan that succeeds is well formed: the masks it has filled share no square.
pub proof fn lemma_scan_wf(s: Seq<char>)
    requires
        scan(s) is Ok,
    ensures
        scan(s).unwrap().wf(),
    decreases s.len(),
{
    if s.len() == 0 {
        assert(0u64 & 0u64 == 0) by (bit_vector);
    } else {
        lemma_scan_wf(s.drop_last());
        lemma_scan_step_wf(scan(s.drop_last()).unwrap(), s.last());
    }
}

/// Once a scan has met a fault, more characters do not mend it.
pub proof fn lemma_scan_fault_stays(s: Seq<char>, n: int)
    requires
        0 <= n <= s.len(),
        scan(s.take(n)) is Err,
    ensures
        scan(s) == scan(s.take(n)),
    decreases s.len() - n,
{
    if n == s.len() {
        assert(s.take(n) =~= s);
    } else {
        assert(s.take(n + 1).drop_last() =~= s.take(n));
        lemma_scan_fault_stays(s, n + 1);
    }
}

/// The side that the second field names: Black for the one letter `b`, White for anything
/// else.
pub open spec fn side_of(s: Seq<char>) -> Side {
    if s.len() == 1 && s[0] == 'b' {
        Side::Black
    } else {
        Side::White
    }
}

/// The side to move that `field` names.
pub fn decode_side(field: &[char]) -> (side: Side)
    ensures
        side == side_of(field@),
{
    if field.len() == 1 && field[0] == 'b' {
        Side::Black
    } else {
        Side::White
    }
}

/// What a letter of the castling field adds to the mask.
pub open spec fn castling_weight(c: char) -> int {
    if c == 'K' {
        1
    } else if c == 'Q' {
        2
    } else if c == 'k' {
        4
    } else if c == 'q' {
        8
    } else {
        0
    }
}

/// The sum of what the characters of `s` add to the mask.
pub open spec fn castling_sum(s: Seq<char>) -> int
    decreases s.len(),
{
    if s.len() == 0 {
        0
    } else {
        castling_sum(s.drop_last()) + castling_weight(s.last())
    }
}

/// The castling mask that the third field stands for, where it fits in eight bits.
pub open spec fn castling_of(s: Seq<char>) -> Result<u8, FenError> {
    if castling_sum(s) <= 255 {
        Ok(castling_sum(s) as u8)
    } else {
        Err(FenError::CastlingOverflow)
    }
}

/// The castling mask of `field`.
pub fn decode_castling(field: &[char]) -> (mask: Result<u8, FenError>)
    ensures
        mask == castling_of(field@),
{
    let mut sum: u8 = 0;
    let mut i: usize = 0;
    while i < field.len()
        invariant
            i <= field@.len(),
            sum == castling_sum(field@.take(i as int)),
        decreases field@.len() - i,
    {
        let c = field[i];
        let weight: u8 = if c == 'K' {
            1
        } else if c == 'Q' {
            2
        } else if c == 'k' {
            4
        } else if c == 'q' {
            8
        } else {
            0
        };
        proof {
            assert(field@.take(i + 1).drop_last() =~= field@.take(i as int));
            lemma_castling_sum_grows(field@, i + 1);
        }
        if sum > 255 - weight {
            return Err(FenError::CastlingOverflow);
        }
        sum += weight;
        i += 1;
    }
    proof {
        assert(field@.take(i as int) =~= field@);
    }
    Ok(sum)
}

proof fn lemma_castling_sum_nonnegative(s: Seq<char>)
    ensures
        0 <= castling_sum(s),
    decreases s.len(),
{
    if s.len() > 0 {
        lemma_castling_sum_nonnegative(s.drop_last());
    }
}

/// A longer field never adds up to less.
pub proof fn lemma_castling_sum_grows(s: Seq<char>, n: int)
    requires
        0 <= n <= s.len(),
    ensures
        0 <= castling_sum(s.take(n)) <= castling_sum(s),
    decreases s.len() - n,
{
    if n == s.len() {
        assert(s.take(n) =~= s);
        lemma_castling_sum_nonnegative(s);
    } else {
        lemma_castling_sum_grows(s, n + 1);
        assert(s.take(n + 1).drop_last() =~= s.take(n));
        lemma_castling_sum_nonnegative(s.take(n));
    }
}

/// The value of a decimal digit.
pub open spec fn digit_value(c: char) -> Option<int> {
    if c == '0' {
        Some(0)
    } else if c == '1' {
        Some(1)
    } else if c == '2' {
        Some(2)
    } else if c == '3' {
        Some(3)
    } else if c == '4' {
        Some(4)
    } else if c == '5' {
        Some(5)
    } else if c == '6' {
        Some(6)
    } else if c == '7' {
        Some(7)
    } else if c == '8' {
        Some(8)
    } else if c == '9' {
        Some(9)
    } else {
        None
    }
}

/// Whether every character of `s` is a decimal digit.
pub open spec fn all_digits(s: Seq<char>) -> bool {
    forall|i: int| 0 <= i < s.len() ==> (#[trigger] digit_value(s[i])) is Some
}

/// The number that the digits of `s` write in base ten.
pub open spec fn decimal_value(s: Seq<char>) -> int
    decreases s.len(),
{
    if s.len() == 0 {
        0
    } else {
        10 * decimal_value(s.drop_last()) + digit_value(s.last()).unwrap_or(0)
    }
}

/// The number from 0 to 255 that `s` writes: decimal digits, at least one, after at most one
/// plus sign.
pub open spec fn number_of(s: Seq<char>) -> Option<u8> {
    let digits = if s.len() > 0 && s[0] == '+' {
        s.drop_first()
    } else {
        s
    };
    if digits.len() > 0 && all_digits(digits) && decimal_value(digits) <= 255 {
        Some(decimal_value(digits) as u8)
    } else {
        None
    }
}

/// The value of the digit `c`, if it is one.
pub fn decode_digit(c: char) -> (d: Option<u8>)
    ensures
        match d {
            Some(v) => digit_value(c) == Some(v as int),
            None => digit_value(c) is None,
        },
{
    if c == '0' {
        Some(0)
    } else if c == '1' {
        Some(1)
    } else if c == '2' {
        Some(2)
    } else if c == '3' {
        Some(3)
    } else if c == '4' {
        Some(4)
    } else if c == '5' {
        Some(5)
    } else if c == '6' {
        Some(6)
    } else if c == '7' {
        Some(7)
    } else if c == '8' {
        Some(8)
    } else if c == '9' {
        Some(9)
    } else {
        None
    }
}

/// The number from 0 to 255 that `field` writes.
pub fn decode_number(field: &[char]) -> (n: Option<u8>)
    ensures
        n == number_of(field@),
{
    let first: usize = if field.len() > 0 && field[0] == '+' {
        1
    } else {
        0
    };
    let ghost digits = field@.subrange(first as int, field@.len() as int);
    proof {
        if first == 1 {
            assert(digits =~= field@.drop_first());
        } else {
            assert(digits =~= field@);
        }
    }
    if first == field.len() {
        return None;
    }
    let mut value: u16 = 0;
    let mut i: usize = first;
    while i < field.len()
        invariant
            first <= i <= field@.len(),
            digits == field@.subrange(first as int, field@.len() as int),
            digits == if field@.len() > 0 && field@[0] == '+' {
                field@.drop_first()
            } else {
                field@
            },
            all_digits(digits.take(i - first)),
            value == decimal_value(digits.take(i - first)),
            value <= 255,
        decreases field@.len() - i,
    {
        proof {
            assert(digits.take(i - first + 1).drop_last() =~= digits.take(i - first));
            assert(digits[i - first] == field@[i as int]);
            lemma_decimal_value_grows(digits, i - first + 1);
        }
        match decode_digit(field[i]) {
            Some(d) => {
                value = value * 10 + d as u16;
                if value > 255 {
                    return None;
                }
            },
            None => {
                return None;
            },
        }
        i += 1;
        proof {
            let upto = digits.take(i - first);
            assert forall|j: int| 0 <= j < upto.len() implies (#[trigger] digit_value(
                upto[j],
            )) is Some by {
                if j < upto.len() - 1 {
                    assert(upto[j] == digits.take(i - first - 1)[j]);
                }
            }
        }
    }
    proof {
        assert(digits.take(i - first) =~= digits);
    }
    Some(value as u8)
}

proof fn lemma_decimal_value_nonnegative(s: Seq<char>)
    ensures
        0 <= decimal_value(s),
    decreases s.len(),
{
    if s.len() > 0 {
        lemma_decimal_value_nonnegative(s.drop_last());
    }
}

/// A longer run of digits never writes a smaller number.
pub proof fn lemma_decimal_value_grows(s: Seq<char>, n: int)
    requires
        0 <= n <= s.len(),
    ensures
        0 <= decimal_value(s.take(n)) <= decimal_value(s),
    decreases s.len() - n,
{
    lemma_decimal_value_nonnegative(s.take(n));
    if n == s.len() {
        assert(s.take(n) =~= s);
    } else {
        lemma_decimal_value_grows(s, n + 1);
        assert(s.take(n + 1).drop_last() =~= s.take(n));
    }
}

} // verus!
