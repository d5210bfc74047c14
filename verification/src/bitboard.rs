//! The 64-bit occupancy mask and its square-indexed operations.

use vstd::prelude::*;

verus! {

/// A set of up to 64 squares: bit `i` is set exactly when square `i` is occupied.
#[derive(Clone, Copy, Debug, PartialEq, Eq)]
pub struct Bitboard(pub u64);

/// Whether bit `sq` of `mask` is set. Squares run from 0 to 63.
pub open spec fn has_bit(mask: u64, sq: u64) -> bool {
    sq < 64 && (mask >> sq) & 1 == 1
}

/// Whether no square is claimed by both masks.
pub open spec fn disjoint(a: u64, b: u64) -> bool {
    a & b == 0
}

/// Whether each element is smaller than the one after it.
pub open spec fn strictly_ascending(s: Seq<u8>) -> bool {
    forall|i: int, j: int| 0 <= i < j < s.len() ==> s[i] < s[j]
}

impl View for Bitboard {
    type V = Set<u8>;

    /// The occupied squares.
    open spec fn view(&self) -> Set<u8> {
        Set::new(|sq: u8| has_bit(self.0, sq as u64))
    }
}

/// The character at place `i` of the grid text. A row takes 17 places: eight cells, each
/// followed by a blank, then a line feed. Row `r` shows squares `56 - 8r` to `63 - 8r`,
/// left to right.
pub open spec fn grid_char(mask: u64, i: int) -> char {
    let row = i / 17;
    let col = i % 17;
    if col == 16 {
        '\n'
    } else if col % 2 == 1 {
        ' '
    } else if has_bit(mask, (56 - 8 * row + col / 2) as u64) {
        '1'
    } else {
        '0'
    }
}

/// The eight-row grid of `0` and `1` that shows `mask`.
pub open spec fn grid(mask: u64) -> Seq<char> {
    Seq::new(136, |i: int| grid_char(mask, i))
}

impl Default for Bitboard {
    /// The empty board.
    fn default() -> (empty: Bitboard)
        ensures
            empty.0 == 0,
    {
        Bitboard(0)
    }
}

impl std::ops::Add for Bitboard {
    type Output = Bitboard;

    /// The union of two boards that share no square.
    fn add(self, rhs: Bitboard) -> (both: Bitboard) {
        proof {
            lemma_disjoint_sum(self.0, rhs.0);
        }
        Bitboard(self.0 + rhs.0)
    }
}

impl vstd::std_specs::ops::AddSpecImpl for Bitboard {
    open spec fn obeys_add_spec() -> bool {
        true
    }

    open spec fn add_req(self, rhs: Bitboard) -> bool {
        disjoint(self.0, rhs.0)
    }

    open spec fn add_spec(self, rhs: Bitboard) -> Bitboard {
        Bitboard(self.0 | rhs.0)
    }
}

impl std::ops::AddAssign for Bitboard {
    /// Takes the squares of `rhs` into this board, which shares none with it.
    fn add_assign(&mut self, rhs: Bitboard)
        requires
            disjoint(old(self).0, rhs.0),
        ensures
            final(self).0 == old(self).0 | rhs.0,
    {
        *self = *self + rhs
    }
}

impl Bitboard {
    /// The board as text: eight rows of eight cells, `1` for an occupied square and `0`
    /// for a free one, each cell followed by a blank and each row by a line feed. The first
    /// row holds squares 56 to 63 from left to right, the last row squares 0 to 7.
    pub fn to_string(&self) -> (text: String)
        ensures
            text@ == grid(self.0),
    {
        let mut text = String::new();
        let mut rank: u64 = 0;
        while rank < 8
            invariant
                rank <= 8,
                text@ == grid(self.0).take(17 * rank as int),
            decreases 8 - rank,
        {
            let mut cell: u64 = 0;
            while cell < 8
                invariant
                    rank < 8,
                    cell <= 8,
                    text@ == grid(self.0).take(17 * rank as int + 2 * cell as int),
                decreases 8 - cell,
            {
                let file: u64 = 7 - cell;
                let sq: u64 = 63 - (rank * 8) - file;
                let mask: u64 = 1u64 << sq;
                let ghost at = 17 * rank as int + 2 * cell as int;
                proof {
                    lemma_mask_probe(self.0, sq);
                    reveal_strlit("1 ");
                    reveal_strlit("0 ");
                    assert(at / 17 == rank as int && at % 17 == 2 * cell as int);
                    assert((at + 1) / 17 == rank as int && (at + 1) % 17 == 2 * cell as int + 1);
                }
                if self.0 & mask != 0 {
                    text.append("1 ");
                } else {
                    text.append("0 ");
                }
                cell += 1;
                proof {
                    assert(text@ =~= grid(self.0).take(at + 2));
                }
            }
            proof {
                reveal_strlit("\n");
                let at = 17 * rank as int + 16;
                assert(at / 17 == rank as int && at % 17 == 16);
            }
            text.append("\n");
            rank += 1;
            proof {
                assert(text@ =~= grid(self.0).take(17 * rank as int));
            }
        }
        proof {
            assert(text@ =~= grid(self.0));
        }
        text
    }

    /// The occupied squares in ascending order. The board itself is left as it was.
    pub fn serialize(&self) -> (squares: Vec<u8>)
        ensures
            strictly_ascending(squares@),
            squares@.to_set() == self@,
            squares@.len() == self@.len(),
    {
        let mut bb: u64 = self.0;
        let mut squares: Vec<u8> = Vec::new();
        while bb != 0
            invariant
                strictly_ascending(squares@),
                forall|i: int| 0 <= i < squares@.len() ==> has_bit(self.0, squares@[i] as u64),
                forall|k: u64|
                    has_bit(self.0, k) ==> (has_bit(bb, k) || squares@.contains(k as u8)),
                forall|k: u64| has_bit(bb, k) ==> has_bit(self.0, k),
                forall|k: u64, i: int|
                    has_bit(bb, k) && 0 <= i < squares@.len() ==> squares@[i] < k,
            decreases bb,
        {
            broadcast use vstd::std_specs::bits::axiom_u64_trailing_zeros;

            let idx: u32 = bb.trailing_zeros();
            proof {
                lemma_clear_lowest(bb, idx as u64);
            }
            let ghost before = bb;
            let ghost prior = squares@;
            bb -= 1u64 << idx;
            squares.push(idx as u8);
            proof {
                assert(has_bit(before, idx as u64));
                assert forall|i: int| 0 <= i < squares@.len() implies has_bit(
                    self.0,
                    squares@[i] as u64,
                ) by {
                    if i < prior.len() {
                        assert(squares@[i] == prior[i]);
                    }
                }
                assert forall|k: u64| has_bit(self.0, k) implies (has_bit(bb, k)
                    || squares@.contains(k as u8)) by {
                    if has_bit(before, k) {
                        if k == idx as u64 {
                            assert(squares@[prior.len() as int] == k as u8);
                        }
                    } else {
                        let i = choose|i: int| 0 <= i < prior.len() && prior[i] == k as u8;
                        assert(squares@[i] == k as u8);
                    }
                }
                assert forall|k: u64, i: int|
                    has_bit(bb, k) && 0 <= i < squares@.len() implies squares@[i] < k by {
                    assert(has_bit(before, k));
                    if i < prior.len() {
                        assert(squares@[i] == prior[i]);
                    } else {
                        assert(squares@[i] == idx as u8);
                        if k < idx as u64 {
                            assert((before >> k) & 1u64 == 0u64);
                        }
                    }
                }
                assert forall|i: int, j: int| 0 <= i < j < squares@.len() implies squares@[i]
                    < squares@[j] by {
                    assert(squares@[i] == prior[i]);
                    if j < prior.len() {
                        assert(squares@[j] == prior[j]);
                    }
                }
            }
        }
        proof {
            assert(squares@.to_set() =~= self@) by {
                assert forall|sq: u8| squares@.to_set().contains(sq) <==> self@.contains(sq) by {
                    if squares@.contains(sq) {
                        let i = choose|i: int| 0 <= i < squares@.len() && squares@[i] == sq;
                    }
                    if has_bit(self.0, sq as u64) {
                        lemma_empty_mask();
                        assert(!has_bit(bb, sq as u64));
                    }
                }
            }
            squares@.unique_seq_to_set();
        }
        squares
    }
}

/// The empty mask holds no square.
pub proof fn lemma_empty_mask()
    ensures
        forall|k: u64| !has_bit(0u64, k),
{
    assert forall|k: u64| !has_bit(0u64, k) by {
        assert(((0u64 >> k) & 1) == 0) by (bit_vector);
    }
}

/// Testing a square against its one-bit mask reads the same bit as shifting it down.
pub proof fn lemma_mask_probe(mask: u64, sq: u64)
    requires
        sq < 64,
    ensures
        (mask & (1u64 << sq) != 0) <==> has_bit(mask, sq),
{
    assert((mask & (1u64 << sq) != 0) <==> ((mask >> sq) & 1 == 1)) by (bit_vector)
        requires
            sq < 64,
    ;
}

/// Setting a square in a mask adds that square and no other.
pub proof fn lemma_set_bit(mask: u64, sq: u64)
    requires
        sq < 64,
    ensures
        forall|k: u64|
            #![trigger has_bit(mask | (1u64 << sq), k)]
            has_bit(mask | (1u64 << sq), k) <==> (has_bit(mask, k) || k == sq),
{
    assert forall|k: u64|
        #![trigger has_bit(mask | (1u64 << sq), k)]
        has_bit(mask | (1u64 << sq), k) <==> (has_bit(mask, k) || k == sq) by {
        assert(k < 64 ==> ((((mask | (1u64 << sq)) >> k) & 1 == 1) <==> ((mask >> k) & 1 == 1
            || k == sq))) by (bit_vector)
            requires
                sq < 64,
        ;
    }
}

/// Clearing the lowest set bit of a non-empty mask removes that square and no other.
pub proof fn lemma_clear_lowest(mask: u64, idx: u64)
    requires
        idx < 64,
        (mask >> idx) & 1 == 1,
    ensures
        mask >= 1u64 << idx,
        (mask - (1u64 << idx)) as u64 == mask ^ (1u64 << idx),
        (mask - (1u64 << idx)) < mask,
        forall|k: u64|
            #![trigger has_bit((mask - (1u64 << idx)) as u64, k)]
            has_bit((mask - (1u64 << idx)) as u64, k) <==> (has_bit(mask, k) && k != idx),
{
    assert(mask >= 1u64 << idx && (mask - (1u64 << idx)) as u64 == mask ^ (1u64 << idx) && (mask
        - (1u64 << idx)) < mask) by (bit_vector)
        requires
            idx < 64,
            (mask >> idx) & 1 == 1,
    ;
    let cleared = (mask - (1u64 << idx)) as u64;
    assert forall|k: u64| has_bit(cleared, k) <==> (has_bit(mask, k) && k != idx) by {
        assert(k < 64 ==> (((cleared >> k) & 1 == 1) <==> ((mask >> k) & 1 == 1 && k != idx)))
            by (bit_vector)
            requires
                idx < 64,
                (mask >> idx) & 1 == 1,
                cleared == mask ^ (1u64 << idx),
        ;
    }
}

/// Adding two masks that share no bit neither carries nor overflows: the sum is their union.
pub proof fn lemma_disjoint_sum(a: u64, b: u64)
    requires
        disjoint(a, b),
    ensures
        a + b <= u64::MAX,
        (a + b) as u64 == a | b,
{
    assert(a + b <= 0xffff_ffff_ffff_ffff && (a + b) as u64 == a | b) by (bit_vector)
        requires
            a & b == 0,
    ;
}

/// The union of two masks holds the squares of both and no other.
pub proof fn lemma_union_view(a: u64, b: u64)
    ensures
        Bitboard(a | b)@ == Bitboard(a)@.union(Bitboard(b)@),
{
    assert forall|sq: u8| #[trigger]
        Bitboard(a | b)@.contains(sq) <==> (Bitboard(a)@.contains(sq) || Bitboard(b)@.contains(
            sq,
        )) by {
        let k = sq as u64;
        assert((((a | b) >> k) & 1 == 1) <==> ((a >> k) & 1 == 1 || (b >> k) & 1 == 1))
            by (bit_vector);
    }
    assert(Bitboard(a | b)@ =~= Bitboard(a)@.union(Bitboard(b)@));
}

/// The mask that holds those of the squares below `n` that are in `squares`.
pub open spec fn mask_below(squares: Set<u8>, n: nat) -> u64
    decreases n,
{
    if n == 0 {
        0
    } else if squares.contains((n - 1) as u8) {
        mask_below(squares, (n - 1) as nat) | (1u64 << ((n - 1) as u64))
    } else {
        mask_below(squares, (n - 1) as nat)
    }
}

/// The mask that is built from a set of squares.
pub open spec fn mask_of(squares: Set<u8>) -> u64 {
    mask_below(squares, 64)
}

/// A mask built from squares below `n` holds just those of them that are in the set.
pub proof fn lemma_mask_below(squares: Set<u8>, n: nat)
    requires
        n <= 64,
    ensures
        forall|k: u64|
            has_bit(#[trigger] mask_below(squares, n), k) <==> (k < n && squares.contains(k as u8)),
    decreases n,
{
    if n == 0 {
        lemma_empty_mask();
    } else {
        lemma_mask_below(squares, (n - 1) as nat);
        lemma_set_bit(mask_below(squares, (n - 1) as nat), (n - 1) as u64);
    }
}

/// The board built from a set of squares on the board holds just these squares.
pub proof fn lemma_mask_of_view(squares: Set<u8>)
    requires
        forall|sq: u8| squares.contains(sq) ==> sq < 64,
    ensures
        Bitboard(mask_of(squares))@ == squares,
{
    lemma_mask_below(squares, 64);
    assert(Bitboard(mask_of(squares))@ =~= squares);
}

/// A set of squares has one ascending listing only.
pub proof fn lemma_ascending_unique(a: Seq<u8>, b: Seq<u8>)
    requires
        strictly_ascending(a),
        strictly_ascending(b),
        a.to_set() == b.to_set(),
    ensures
        a == b,
    decreases a.len(),
{
    if a.len() == 0 {
        if b.len() > 0 {
            assert(b.to_set().contains(b[0]));
            assert(a.contains(b[0]));
        }
        assert(a =~= b);
    } else {
        let top = a.last();
        assert(a.to_set().contains(top));
        assert(b.contains(top));
        let j = choose|j: int| 0 <= j < b.len() && b[j] == top;
        if j < b.len() - 1 {
            assert(b.to_set().contains(b.last()));
            assert(a.contains(b.last()));
            let i = choose|i: int| 0 <= i < a.len() && a[i] == b.last();
            assert(a[i] <= top);
        }
        assert(b.last() == top);
        let a_front = a.drop_last();
        let b_front = b.drop_last();
        assert(a_front.to_set() =~= b_front.to_set()) by {
            assert forall|x: u8| a_front.contains(x) <==> b_front.contains(x) by {
                if a_front.contains(x) {
                    let i = choose|i: int| 0 <= i < a_front.len() && a_front[i] == x;
                    assert(a[i] == x && x < top);
                    assert(a.to_set().contains(x));
                    assert(b.contains(x));
                    let k = choose|k: int| 0 <= k < b.len() && b[k] == x;
                    assert(b_front[k] == x);
                }
                if b_front.contains(x) {
                    let i = choose|i: int| 0 <= i < b_front.len() && b_front[i] == x;
                    assert(b[i] == x && x < top);
                    assert(b.to_set().contains(x));
                    assert(a.contains(x));
                    let k = choose|k: int| 0 <= k < a.len() && a[k] == x;
                    assert(a_front[k] == x);
                }
            }
        }
        lemma_ascending_unique(a_front, b_front);
        assert(a =~= a_front.push(top));
        assert(b =~= b_front.push(top));
    }
}

/// The order of squares by their numbers.
pub open spec fn square_leq() -> spec_fn(u8, u8) -> bool {
    |a: u8, b: u8| a <= b
}

/// The ascending listing of the board that is built from a list of squares, none of them
/// twice, is that list sorted: the empty list for no squares.
pub proof fn lemma_listing_is_sorted_squares(squares: Seq<u8>, listing: Seq<u8>)
    requires
        squares.no_duplicates(),
        forall|i: int| 0 <= i < squares.len() ==> squares[i] < 64,
        strictly_ascending(listing),
        listing.to_set() == Bitboard(mask_of(squares.to_set()))@,
    ensures
        listing == squares.sort_by(square_leq()),
{
    let leq = square_leq();
    let sorted = squares.sort_by(leq);
    assert(vstd::relations::total_ordering(leq));
    squares.lemma_sort_by_ensures(leq);
    squares.to_multiset_ensures();
    sorted.to_multiset_ensures();
    squares.lemma_multiset_has_no_duplicates();
    sorted.lemma_multiset_has_no_duplicates_conv();
    assert forall|i: int, j: int| 0 <= i < j < sorted.len() implies sorted[i] < sorted[j] by {
        assert(leq(sorted[i], sorted[j]));
    }
    assert forall|sq: u8| squares.to_set().contains(sq) implies sq < 64 by {
        let i = choose|i: int| 0 <= i < squares.len() && squares[i] == sq;
    }
    lemma_mask_of_view(squares.to_set());
    assert(sorted.to_set() =~= squares.to_set()) by {
        assert forall|sq: u8| sorted.contains(sq) <==> squares.contains(sq) by {
            assert(sorted.to_multiset().count(sq) == squares.to_multiset().count(sq));
        }
    }
    lemma_ascending_unique(listing, sorted);
}

} // verus!
