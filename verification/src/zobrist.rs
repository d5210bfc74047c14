//! Zobrist fingerprints: a fixed table of pseudo-random values, and the key of a placement
//! as the XOR of the table's entries for the occupied squares.

use vstd::prelude::*;
use rand::rngs::StdRng;
use rand::{Rng, SeedableRng};
use crate::bitboard::has_bit;

verus! {

/// The seed of the table. Every table is drawn from it.
pub const ZOBRIST_SEED: u64 = 0b0101000101000010100101001111000011101101000111011011001111111100;

/// The number of entries in the table: one for each of 64 squares in each of 12 masks, and
/// 13 more that are set aside for the side to move, the castling rights and the en passant
/// file.
pub const ZOBRIST_ENTRIES: usize = 781;

/// The number of entries that stand for a piece on a square.
pub const PLACEMENT_ENTRIES: usize = 768;

/// `rand::rngs::StdRng`, the generator that the table is drawn from. Nothing of its inside
/// is known here: a value of it is only made, drawn from and dropped.
#[verifier::external_type_specification]
#[verifier::external_body]
pub struct ExStdRng(StdRng);

/// The 64-bit values that a generator will yield from now on, by the number of draws
/// before each: what `rand::Rng::random::<u64>` returns on the next call stands at 0.
pub uninterp spec fn upcoming(rng: StdRng) -> Map<nat, u64>;

/// The 64-bit values that a generator made by `rand::SeedableRng::seed_from_u64` from
/// `seed` yields, in the order of the draws.
pub uninterp spec fn seeded_stream(seed: u64) -> Map<nat, u64>;

/// Calls `StdRng::seed_from_u64`. Nothing is proved of it. The contract claims that the
/// values which the new generator yields depend on the seed alone: the seed is spread over
/// 32 bytes by a fixed recurrence and handed to the ChaCha generator with twelve rounds,
/// and neither step reads anything else.
#[verifier::external_body]
fn seeded_rng(seed: u64) -> (rng: StdRng)
    ensures
        upcoming(rng) == seeded_stream(seed),
{
    StdRng::seed_from_u64(seed)
}

/// Calls `Rng::random::<u64>` on a `StdRng`, which takes the generator's next 64-bit
/// output. Nothing is proved of it. The contract claims that the value is the first of
/// those that were to come, and that the others come after it in their order.
#[verifier::external_body]
fn draw_u64(rng: &mut StdRng) -> (value: u64)
    ensures
        value == upcoming(*old(rng))[0],
        forall|k: nat| (#[trigger] upcoming(*final(rng))[k]) == upcoming(*old(rng))[k + 1],
{
    rng.random::<u64>()
}

/// The table: its entry `i` is the value that the generator seeded with `ZOBRIST_SEED`
/// yields after `i` draws.
pub open spec fn zobrist_table() -> Seq<u64> {
    Seq::new(ZOBRIST_ENTRIES as nat, |i: int| seeded_stream(ZOBRIST_SEED)[i as nat])
}

/// Draws the table. Every call returns the same 781 values in the same order.
pub fn gen_zobrist_random_array() -> (table: [u64; 781])
    ensures
        table@ == zobrist_table(),
{
    let mut rng = seeded_rng(ZOBRIST_SEED);
    let mut table: [u64; 781] = [0u64;781];
    let mut i: usize = 0;
    while i < 781
        invariant
            i <= 781,
            forall|j: int| 0 <= j < i ==> table@[j] == seeded_stream(ZOBRIST_SEED)[j as nat],
            forall|k: nat|
                (#[trigger] upcoming(rng)[k]) == seeded_stream(ZOBRIST_SEED)[(k + i) as nat],
        decreases 781 - i,
    {
        let ghost before = rng;
        let value = draw_u64(&mut rng);
        table[i] = value;
        proof {
            assert(value == upcoming(before)[0]);
            assert forall|k: nat|
                (#[trigger] upcoming(rng)[k]) == seeded_stream(ZOBRIST_SEED)[(k + i + 1) as nat] by {
                assert(upcoming(rng)[k] == upcoming(before)[k + 1]);
                assert(upcoming(before)[(k + 1) as nat] == seeded_stream(ZOBRIST_SEED)[(k + 1
                    + i) as nat]);
            }
        }
        i += 1;
    }
    proof {
        assert(table@ =~= zobrist_table());
    }
    table
}

/// The place in the table of a piece: square first, then side and kind. Sides count from 0
/// for White, kinds from 0 for a pawn, squares from 0.
pub open spec fn zobrist_index(side: int, piece: int, square: int) -> int {
    square * 12 + (side * 6 + piece)
}

/// The place in the table of the piece of `side` and kind `piece` on `square`.
pub fn table_index(side: usize, piece: usize, square: usize) -> (index: usize)
    requires
        side < 2,
        piece < 6,
        square < 64,
    ensures
        index == zobrist_index(side as int, piece as int, square as int),
        index < PLACEMENT_ENTRIES,
{
    square * 12 + (side * 6 + piece)
}

/// Whether entry `i` of the table stands for a piece that is on the board: entry `i`
/// belongs to square `i / 12` in mask `i % 12`.
pub open spec fn entry_occupied(planes: Seq<u64>, i: int) -> bool {
    0 <= i < PLACEMENT_ENTRIES && has_bit(planes[i % 12], (i / 12) as u64)
}

/// The entries of the table that stand for the pieces on the board.
pub open spec fn occupied_entries(planes: Seq<u64>) -> Set<int> {
    Set::new(|i: int| entry_occupied(planes, i))
}

/// The XOR of the entries of `table` that stand below `n` and are in `picked`; 0 if there
/// is none.
pub open spec fn xor_of(table: Seq<u64>, picked: Set<int>, n: nat) -> u64
    decreases n,
{
    if n == 0 {
        0
    } else if picked.contains(n - 1) {
        xor_of(table, picked, (n - 1) as nat) ^ table[n - 1]
    } else {
        xor_of(table, picked, (n - 1) as nat)
    }
}

/// The key of a placement: the XOR of the table's entries for every occupied square of every
/// mask. Only the placement counts; the side to move, the castling rights and the en passant
/// square do not.
pub open spec fn zobrist_key(planes: Seq<u64>, table: Seq<u64>) -> u64 {
    xor_of(table, occupied_entries(planes), PLACEMENT_ENTRIES as nat)
}

/// A piece on a square. Sides count from 0 for White, piece kinds from 0 for a pawn.
pub struct Placed {
    pub side: int,
    pub piece: int,
    pub square: int,
}

impl Placed {
    /// Whether the side, the kind and the square exist.
    pub open spec fn on_board(self) -> bool {
        0 <= self.side < 2 && 0 <= self.piece < 6 && 0 <= self.square < 64
    }

    /// The place of this piece in the table.
    pub open spec fn entry(self) -> int {
        zobrist_index(self.side, self.piece, self.square)
    }

    /// Whether the masks hold this piece.
    pub open spec fn held_by(self, planes: Seq<u64>) -> bool {
        self.on_board() && has_bit(planes[self.side * 6 + self.piece], self.square as u64)
    }
}

/// The key that comes of folding the pieces of `order` one after the other, from 0: each
/// XORs its entry of the table into the key.
pub open spec fn fold_placed(table: Seq<u64>, order: Seq<Placed>) -> u64
    decreases order.len(),
{
    if order.len() == 0 {
        0
    } else {
        fold_placed(table, order.drop_last()) ^ table[order.last().entry()]
    }
}

/// The entries of the table that the pieces of `order` stand for.
pub open spec fn entries_of(order: Seq<Placed>) -> Set<int> {
    Set::new(|i: int| exists|k: int| 0 <= k < order.len() && (#[trigger] order[k]).entry() == i)
}

/// The order of folding does not matter: two orders that hold the same pieces, each as often
/// in the one as in the other, fold to the same key.
pub proof fn lemma_fold_order_free(table: Seq<u64>, a: Seq<Placed>, b: Seq<Placed>)
    requires
        a.to_multiset() == b.to_multiset(),
    ensures
        fold_placed(table, a) == fold_placed(table, b),
    decreases a.len(),
{
    a.to_multiset_ensures();
    b.to_multiset_ensures();
    if a.len() > 0 {
        let last = a.len() - 1;
        let x = a[last];
        assert(a.contains(x));
        assert(a.to_multiset().count(x) > 0);
        assert(b.to_multiset().count(x) > 0);
        assert(b.contains(x));
        let j = choose|j: int| 0 <= j < b.len() && b[j] == x;
        assert(a.remove(last) =~= a.drop_last());
        lemma_fold_order_free(table, a.drop_last(), b.remove(j));
        lemma_fold_without(table, b, j);
    }
}

/// The key of a placement is what comes of folding its pieces in any order: `order` may be
/// any list that holds every piece on the board once and nothing else.
pub proof fn lemma_key_is_fold(planes: Seq<u64>, table: Seq<u64>, order: Seq<Placed>)
    requires
        planes.len() == 12,
        order.no_duplicates(),
        forall|t: Placed| order.contains(t) <==> t.held_by(planes),
    ensures
        fold_placed(table, order) == zobrist_key(planes, table),
{
    assert forall|k: int| 0 <= k < order.len() implies (#[trigger] order[k]).on_board() by {
        assert(order.contains(order[k]));
    }
    lemma_fold_is_xor_of(table, order);
    assert(entries_of(order) =~= occupied_entries(planes)) by {
        assert forall|i: int| entries_of(order).contains(i) <==> entry_occupied(planes, i) by {
            if entries_of(order).contains(i) {
                let k = choose|k: int| 0 <= k < order.len() && (#[trigger] order[k]).entry()
                    == i;
                assert(order.contains(order[k]));
                assert(order[k].held_by(planes));
            }
            if entry_occupied(planes, i) {
                let t = Placed { side: (i % 12) / 6, piece: (i % 12) % 6, square: i / 12 };
                assert(t.held_by(planes));
                assert(order.contains(t));
                let k = choose|k: int| 0 <= k < order.len() && order[k] == t;
                assert(order[k].entry() == i);
            }
        }
    }
}

/// Two placements of which one has a single piece more have keys that differ by that
/// piece's entry of the table: the keys are the same only if that entry is 0.
pub proof fn lemma_key_of_one_more(
    fewer: Seq<u64>,
    more: Seq<u64>,
    table: Seq<u64>,
    extra: Placed,
)
    requires
        fewer.len() == 12,
        more.len() == 12,
        extra.held_by(more),
        !extra.held_by(fewer),
        forall|t: Placed| t != extra ==> (t.held_by(more) <==> t.held_by(fewer)),
    ensures
        zobrist_key(more, table) == zobrist_key(fewer, table) ^ table[extra.entry()],
        zobrist_key(more, table) != zobrist_key(fewer, table) <==> table[extra.entry()] != 0,
{
    let x = extra.entry();
    assert(occupied_entries(more) =~= occupied_entries(fewer).insert(x)) by {
        assert forall|i: int| entry_occupied(more, i) <==> (entry_occupied(fewer, i) || i == x) by {
            if 0 <= i < PLACEMENT_ENTRIES {
                let t = Placed { side: (i % 12) / 6, piece: (i % 12) % 6, square: i / 12 };
                assert(t.entry() == i);
                assert(t.held_by(more) <==> entry_occupied(more, i));
                assert(t.held_by(fewer) <==> entry_occupied(fewer, i));
            }
        }
    }
    assert(!occupied_entries(fewer).contains(x));
    lemma_xor_of_insert(table, occupied_entries(fewer), x, PLACEMENT_ENTRIES as nat);
    lemma_xor_laws(zobrist_key(fewer, table), table[x], 0);
    lemma_xor_laws(zobrist_key(fewer, table), 0, 0);
}

/// XOR may take its operands in any order, and taking one twice takes it back.
proof fn lemma_xor_laws(a: u64, b: u64, c: u64)
    ensures
        (a ^ b) ^ c == (a ^ c) ^ b,
        (a ^ b) ^ b == a,
        a ^ b == b ^ a,
        a ^ 0 == a,
        (a ^ b == a) ==> b == 0,
{
    assert((a ^ b) ^ c == (a ^ c) ^ b && (a ^ b) ^ b == a && a ^ b == b ^ a && a ^ 0 == a && ((a
        ^ b == a) ==> b == 0)) by (bit_vector);
}

/// The XOR of no entries is 0.
pub proof fn lemma_xor_of_empty(table: Seq<u64>, n: nat)
    ensures
        xor_of(table, Set::<int>::empty(), n) == 0,
    decreases n,
{
    if n > 0 {
        lemma_xor_of_empty(table, (n - 1) as nat);
    }
}

/// Taking one more entry into the set XORs that entry into the result.
pub proof fn lemma_xor_of_insert(table: Seq<u64>, picked: Set<int>, x: int, n: nat)
    requires
        0 <= x,
        !picked.contains(x),
    ensures
        xor_of(table, picked.insert(x), n) == if x < n {
            xor_of(table, picked, n) ^ table[x]
        } else {
            xor_of(table, picked, n)
        },
    decreases n,
{
    if n > 0 {
        lemma_xor_of_insert(table, picked, x, (n - 1) as nat);
        lemma_xor_laws(xor_of(table, picked, (n - 1) as nat), table[x], table[n - 1]);
    }
}

/// Leaving one entry out of the set XORs that entry out of the result.
pub proof fn lemma_xor_of_remove(table: Seq<u64>, picked: Set<int>, x: int, n: nat)
    requires
        0 <= x,
        picked.contains(x),
    ensures
        xor_of(table, picked.remove(x), n) == if x < n {
            xor_of(table, picked, n) ^ table[x]
        } else {
            xor_of(table, picked, n)
        },
{
    let rest = picked.remove(x);
    assert(rest.insert(x) =~= picked);
    lemma_xor_of_insert(table, rest, x, n);
    lemma_xor_laws(xor_of(table, rest, n), table[x], 0);
}

/// A fold is the fold without one of its pieces, with that piece's entry XORed in.
pub proof fn lemma_fold_without(table: Seq<u64>, order: Seq<Placed>, j: int)
    requires
        0 <= j < order.len(),
    ensures
        fold_placed(table, order) == fold_placed(table, order.remove(j)) ^ table[order[j].entry()],
    decreases order.len(),
{
    if j == order.len() - 1 {
        assert(order.remove(j) =~= order.drop_last());
    } else {
        let front = order.drop_last();
        lemma_fold_without(table, front, j);
        assert(front.remove(j) =~= order.remove(j).drop_last());
        assert(order.remove(j).last() == order.last());
        lemma_xor_laws(
            fold_placed(table, front.remove(j)),
            table[order[j].entry()],
            table[order.last().entry()],
        );
    }
}

/// Folding pieces of which none comes twice XORs the entries that they stand for.
pub proof fn lemma_fold_is_xor_of(table: Seq<u64>, order: Seq<Placed>)
    requires
        order.no_duplicates(),
        forall|k: int| 0 <= k < order.len() ==> (#[trigger] order[k]).on_board(),
    ensures
        fold_placed(table, order) == xor_of(table, entries_of(order), PLACEMENT_ENTRIES as nat),
    decreases order.len(),
{
    if order.len() == 0 {
        assert(entries_of(order) =~= Set::<int>::empty());
        lemma_xor_of_empty(table, PLACEMENT_ENTRIES as nat);
    } else {
        let front = order.drop_last();
        let x = order.last();
        lemma_fold_is_xor_of(table, front);
        assert(!entries_of(front).contains(x.entry())) by {
            if entries_of(front).contains(x.entry()) {
                let k = choose|k: int| 0 <= k < front.len() && (#[trigger] front[k]).entry()
                    == x.entry();
                assert(order[k].on_board() && x.on_board());
                assert(order[k] == x);
            }
        }
        assert(entries_of(order) =~= entries_of(front).insert(x.entry())) by {
            assert forall|i: int| entries_of(order).contains(i) <==> entries_of(front).insert(
                x.entry(),
            ).contains(i) by {
                if entries_of(order).contains(i) {
                    let k = choose|k: int| 0 <= k < order.len() && (#[trigger] order[k]).entry()
                        == i;
                    if k < front.len() {
                        assert(front[k].entry() == i);
                    }
                }
                if entries_of(front).contains(i) {
                    let k = choose|k: int| 0 <= k < front.len() && (#[trigger] front[k]).entry()
                        == i;
                    assert(order[k].entry() == i);
                }
                if i == x.entry() {
                    assert(order[order.len() - 1].entry() == i);
                }
            }
        }
        assert(order[order.len() - 1].on_board());
        lemma_xor_of_insert(table, entries_of(front), x.entry(), PLACEMENT_ENTRIES as nat);
    }
}

} // verus!
