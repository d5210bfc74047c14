//! The position itself: staged by a decoder, then finished with its fingerprint.

use vstd::prelude::*;
use crate::bitboard::{
    disjoint, has_bit, lemma_clear_lowest, lemma_empty_mask, lemma_union_view, Bitboard,
};
use crate::position::GameState;
use crate::zobrist::{
    entry_occupied, gen_zobrist_random_array, lemma_xor_of_empty, lemma_xor_of_insert, xor_of,
    zobrist_key, zobrist_table,
};

verus! {

/// A position as a decoder leaves it: the fingerprint is still to be computed.
pub struct BoardBuilder {
    pub piece_bitboards: [[Bitboard; 6]; 2],
    pub side_bitboards: [Bitboard; 2],
    pub game_state: GameState,
}

/// A finished position.
pub struct Board {
    pub piece_bitboards: [[Bitboard; 6]; 2],
    pub side_bitboards: [Bitboard; 2],
    pub game_state: GameState,
    pub zobrist_randoms: [u64; 781],
}

/// What a staged or finished position says of the board: the twelve masks, each side's
/// occupancy, and the game state.
pub struct PositionView {
    pub planes: Seq<u64>,
    pub sides: Seq<u64>,
    pub state: GameState,
}

impl PositionView {
    /// Twelve masks of which no two share a square, and for each side an occupancy that is
    /// the union of that side's six masks.
    pub open spec fn wf(self) -> bool {
        &&& self.planes.len() == 12
        &&& self.sides.len() == 2
        &&& pairwise_disjoint(self.planes)
        &&& self.sides[0] == union_of_six(self.planes, 0)
        &&& self.sides[1] == union_of_six(self.planes, 6)
    }

    /// Whether the piece of `side` and `kind` stands on square `sq`.
    pub open spec fn holds(self, side: int, kind: int, sq: u8) -> bool {
        Bitboard(self.planes[6 * side + kind])@.contains(sq)
    }
}

/// The twelve masks of a placement in one row: White's six kinds from pawn to king, then
/// Black's six. The mask of side `s` and kind `k` stands at `6 * s + k`.
pub open spec fn planes_of(pieces: [[Bitboard; 6]; 2]) -> Seq<u64> {
    Seq::new(12, |i: int| pieces[i / 6][i % 6].0)
}

/// The union of the six masks that start at `base`.
pub open spec fn union_of_six(planes: Seq<u64>, base: int) -> u64 {
    planes[base] | planes[base + 1] | planes[base + 2] | planes[base + 3] | planes[base + 4]
        | planes[base + 5]
}

/// Whether no square is claimed by two of the masks.
pub open spec fn pairwise_disjoint(planes: Seq<u64>) -> bool {
    forall|p: int, q: int|
        0 <= p < planes.len() && 0 <= q < planes.len() && p != q ==> #[trigger] planes[p]
            & #[trigger] planes[q] == 0
}

impl View for BoardBuilder {
    type V = PositionView;

    open spec fn view(&self) -> PositionView {
        PositionView {
            planes: planes_of(self.piece_bitboards),
            sides: seq![self.side_bitboards[0].0, self.side_bitboards[1].0],
            state: self.game_state,
        }
    }
}

impl View for Board {
    type V = PositionView;

    open spec fn view(&self) -> PositionView {
        PositionView {
            planes: planes_of(self.piece_bitboards),
            sides: seq![self.side_bitboards[0].0, self.side_bitboards[1].0],
            state: self.game_state,
        }
    }
}

impl BoardBuilder {
    /// Finishes the staged position: draws the table and sets the key of the placement.
    /// The staged position is used up.
    pub fn init(self) -> (board: Board)
        ensures
            board.piece_bitboards == self.piece_bitboards,
            board.side_bitboards == self.side_bitboards,
            board.zobrist_randoms@ == zobrist_table(),
            board.game_state == (GameState {
                curr_zobrist_key: zobrist_key(self@.planes, zobrist_table()),
                ..self.game_state
            }),
            board@ == (PositionView { state: board.game_state, ..self@ }),
    {
        let zobrist_randoms = gen_zobrist_random_array();
        let key = self.initialize_zobrist_key(&zobrist_randoms);
        let mut game_state = self.game_state;
        game_state.curr_zobrist_key = key;
        Board {
            piece_bitboards: self.piece_bitboards,
            side_bitboards: self.side_bitboards,
            game_state,
            zobrist_randoms,
        }
    }

    /// The key of the placement under the table `zobrist_randoms`: the XOR of the entries
    /// for every occupied square of every mask.
    pub fn initialize_zobrist_key(&self, zobrist_randoms: &[u64; 781]) -> (key: u64)
        ensures
            key == zobrist_key(self@.planes, zobrist_randoms@),
    {
        let ghost planes = planes_of(self.piece_bitboards);
        let ghost table = zobrist_randoms@;
        let mut hash: u64 = 0;
        proof {
            assert(entries_before(planes, 0) =~= Set::<int>::empty());
            lemma_xor_of_empty(table, 768);
            lemma_empty_mask();
        }
        let mut color: usize = 0;
        while color < 2
            invariant
                color <= 2,
                planes == planes_of(self.piece_bitboards),
                table == zobrist_randoms@,
                hash == xor_of(table, entries_before(planes, 6 * color as int), 768),
                forall|k: u64| !has_bit(0u64, k),
            decreases 2 - color,
        {
            let mut piece: usize = 0;
            while piece < 6
                invariant
                    color < 2,
                    piece <= 6,
                    planes == planes_of(self.piece_bitboards),
                    table == zobrist_randoms@,
                    hash == xor_of(table, entries_before(planes, 6 * color as int + piece as int), 768),
                    forall|k: u64| !has_bit(0u64, k),
                decreases 6 - piece,
            {
                let board: u64 = self.piece_bitboards[color][piece].0;
                let offset: usize = (color * 6) + piece;
                let mut rest: u64 = board;
                proof {
                    assert(planes[offset as int] == board);
                    assert(entries_folded(planes, offset as int, rest) =~= entries_before(
                        planes,
                        offset as int,
                    ));
                }
                while rest != 0
                    invariant
                        offset < 12,
                        planes.len() == 12,
                        planes[offset as int] == board,
                        table == zobrist_randoms@,
                        forall|k: u64| has_bit(rest, k) ==> has_bit(board, k),
                        hash == xor_of(table, entries_folded(planes, offset as int, rest), 768),
                    decreases rest,
                {
                    broadcast use vstd::std_specs::bits::axiom_u64_trailing_zeros;

                    let sq: usize = rest.trailing_zeros() as usize;
                    let rand_idx: usize = sq * 12 + offset;
                    let ghost before = rest;
                    proof {
                        lemma_clear_lowest(rest, sq as u64);
                        assert(has_bit(rest, sq as u64));
                    }
                    hash ^= zobrist_randoms[rand_idx];
                    rest ^= 1u64 << sq;
                    proof {
                        let had = entries_folded(planes, offset as int, before);
                        assert(!had.contains(rand_idx as int));
                        assert(entry_occupied(planes, rand_idx as int));
                        assert(entries_folded(planes, offset as int, rest) =~= had.insert(
                            rand_idx as int,
                        ));
                        lemma_xor_of_insert(table, had, rand_idx as int, 768);
                    }
                }
                piece += 1;
                proof {
                    assert(entries_folded(planes, offset as int, rest) =~= entries_before(
                        planes,
                        offset as int + 1,
                    ));
                }
            }
            color += 1;
        }
        proof {
            assert(entries_before(planes, 12) =~= crate::zobrist::occupied_entries(planes));
        }
        hash
    }
}

/// The entries of the table that a fold has taken in when it has done the masks before
/// `plane`.
pub open spec fn entries_before(planes: Seq<u64>, plane: int) -> Set<int> {
    Set::new(|i: int| entry_occupied(planes, i) && i % 12 < plane)
}

/// The entries of the table that a fold has taken in when it stands in mask `plane` with
/// the squares of `rest` still to come: those of the masks before, and those of this mask's
/// squares that are no longer in `rest`.
pub open spec fn entries_folded(planes: Seq<u64>, plane: int, rest: u64) -> Set<int> {
    Set::new(
        |i: int|
            entry_occupied(planes, i) && (i % 12 < plane || (i % 12 == plane && !has_bit(
                rest,
                (i / 12) as u64,
            ))),
    )
}

/// The occupancy of a side: the union of its six masks, of which no two share a square.
pub fn side_occupancy(pieces: &[Bitboard; 6]) -> (all: Bitboard)
    requires
        forall|i: int, j: int|
            0 <= i < 6 && 0 <= j < 6 && i != j ==> disjoint(
                (#[trigger] pieces[i]).0,
                (#[trigger] pieces[j]).0,
            ),
    ensures
        all.0 == pieces[0].0 | pieces[1].0 | pieces[2].0 | pieces[3].0 | pieces[4].0
            | pieces[5].0,
{
    let two = pieces[0] + pieces[1];
    proof {
        lemma_union_apart(pieces[0].0, pieces[1].0, pieces[2].0);
    }
    let three = two + pieces[2];
    proof {
        lemma_union_apart(pieces[0].0, pieces[1].0, pieces[3].0);
        lemma_union_apart(two.0, pieces[2].0, pieces[3].0);
    }
    let four = three + pieces[3];
    proof {
        lemma_union_apart(pieces[0].0, pieces[1].0, pieces[4].0);
        lemma_union_apart(two.0, pieces[2].0, pieces[4].0);
        lemma_union_apart(three.0, pieces[3].0, pieces[4].0);
    }
    let five = four + pieces[4];
    proof {
        lemma_union_apart(pieces[0].0, pieces[1].0, pieces[5].0);
        lemma_union_apart(two.0, pieces[2].0, pieces[5].0);
        lemma_union_apart(three.0, pieces[3].0, pieces[5].0);
        lemma_union_apart(four.0, pieces[4].0, pieces[5].0);
    }
    five + pieces[5]
}

/// Two masks that each share nothing with a third share nothing with it together.
pub proof fn lemma_union_apart(a: u64, b: u64, c: u64)
    requires
        a & c == 0,
        b & c == 0,
    ensures
        (a | b) & c == 0,
{
    assert((a | b) & c == 0) by (bit_vector)
        requires
            a & c == 0,
            b & c == 0,
    ;
}

/// In a well-formed position a side holds a square just when one of its six kinds does.
pub proof fn lemma_side_squares(position: PositionView, side: int)
    requires
        position.wf(),
        0 <= side < 2,
    ensures
        forall|sq: u8|
            Bitboard(position.sides[side])@.contains(sq) <==> exists|kind: int|
                0 <= kind < 6 && #[trigger] position.holds(side, kind, sq),
{
    let p = position.planes;
    let b = 6 * side;
    let two = p[b] | p[b + 1];
    let three = two | p[b + 2];
    let four = three | p[b + 3];
    let five = four | p[b + 4];
    lemma_union_view(p[b], p[b + 1]);
    lemma_union_view(two, p[b + 2]);
    lemma_union_view(three, p[b + 3]);
    lemma_union_view(four, p[b + 4]);
    lemma_union_view(five, p[b + 5]);
    assert(position.sides[side] == five | p[b + 5]);
    assert forall|sq: u8|
        Bitboard(position.sides[side])@.contains(sq) <==> exists|kind: int|
            0 <= kind < 6 && #[trigger] position.holds(side, kind, sq) by {
        if Bitboard(position.sides[side])@.contains(sq) {
            let kind: int = if position.holds(side, 0, sq) {
                0
            } else if position.holds(side, 1, sq) {
                1
            } else if position.holds(side, 2, sq) {
                2
            } else if position.holds(side, 3, sq) {
                3
            } else if position.holds(side, 4, sq) {
                4
            } else {
                5
            };
            assert(position.holds(side, kind, sq));
        }
    }
}

} // verus!
