use vstd::prelude::*;

verus! {

/// A card is `rank * 4 + suit`, with rank 0..13 (2..A) and suit 0..4 (c, d, h, s).
pub type Card = u8;

/// Number of distinct two-card combos drawn from a 52-card deck.
pub const NUM_COMBOS: usize = 1326;

pub open spec fn spec_rank(c: u8) -> u8 {
    c / 4
}

pub open spec fn spec_suit(c: u8) -> u8 {
    c % 4
}

/// Rank of a card (0 = deuce, 12 = ace).
pub fn rank(c: Card) -> (r: u8)
    ensures
        r == spec_rank(c),
        c < 52 ==> r < 13,
{
    c / 4
}

/// Suit of a card (0 = clubs, 1 = diamonds, 2 = hearts, 3 = spades).
pub fn suit(c: Card) -> (s: u8)
    ensures
        s == spec_suit(c),
        s < 4,
{
    c % 4
}

/// The card of the given rank and suit.
pub fn card(r: u8, s: u8) -> (c: Card)
    requires
        r < 13,
        s < 4,
    ensures
        c == r * 4 + s,
        c < 52,
        spec_rank(c) == r,
        spec_suit(c) == s,
{
    r * 4 + s
}

/// A card is determined by its rank and suit.
pub proof fn lemma_card_rank_suit(c: u8)
    ensures
        c == spec_rank(c) * 4 + spec_suit(c),
        c < 52 ==> spec_rank(c) < 13,
{
}

// ---------------------------------------------------------------------------
// Combo indexing: unordered pairs of distinct cards <-> 0..1326
// ---------------------------------------------------------------------------

/// Triangular number `b * (b - 1) / 2`: how many combos have a higher card below `b`.
pub open spec fn tri(b: int) -> int {
    b * (b - 1) / 2
}

/// Index of the combo made of cards `lo < hi`.
pub open spec fn spec_combo_index(c1: int, c2: int) -> int {
    if c1 < c2 {
        tri(c2) + c1
    } else {
        tri(c1) + c2
    }
}

proof fn lemma_tri_step(b: int)
    requires
        b >= 0,
    ensures
        tri(b + 1) == tri(b) + b,
        tri(b) >= 0,
{
    assert((b + 1) * b == b * (b - 1) + 2 * b) by (nonlinear_arith);
    assert(b * (b - 1) >= 0) by (nonlinear_arith)
        requires
            b >= 0,
    ;
}

proof fn lemma_tri_mono(b: int, d: int)
    requires
        0 <= b < d,
    ensures
        tri(b + 1) <= tri(d),
    decreases d - b,
{
    lemma_tri_step(b);
    lemma_tri_step(d - 1);
    if b + 1 < d {
        lemma_tri_mono(b, d - 1);
    }
}

/// Two combos with the same index are made of the same two cards.
pub proof fn lemma_combo_index_injective(a: int, b: int, c: int, d: int)
    requires
        0 <= a < b,
        0 <= c < d,
        spec_combo_index(a, b) == spec_combo_index(c, d),
    ensures
        a == c,
        b == d,
{
    lemma_tri_step(b);
    lemma_tri_step(d);
    if b < d {
        lemma_tri_mono(b, d);
    } else if d < b {
        lemma_tri_mono(d, b);
    }
}

/// Combo indices of two distinct cards below 52 lie in 0..1326.
pub proof fn lemma_combo_index_range(a: int, b: int)
    requires
        0 <= a < b < 52,
    ensures
        0 <= spec_combo_index(a, b) < NUM_COMBOS,
{
    lemma_tri_step(b);
    if b < 51 {
        lemma_tri_mono(b, 52);
    }
    assert(tri(52) == 1326) by (nonlinear_arith);
}

/// Index (0..1326) of the unordered combo of two distinct cards.
pub fn combo_index(c1: Card, c2: Card) -> (idx: u16)
    requires
        c1 < 52,
        c2 < 52,
        c1 != c2,
    ensures
        idx == spec_combo_index(c1 as int, c2 as int),
        idx < NUM_COMBOS,
{
    let (lo, hi) = if c1 < c2 {
        (c1 as u16, c2 as u16)
    } else {
        (c2 as u16, c1 as u16)
    };
    proof {
        lemma_combo_index_range(lo as int, hi as int);
        assert(hi * (hi - 1) <= 51 * 51) by (nonlinear_arith)
            requires
                1 <= hi <= 51,
        ;
    }
    hi * (hi - 1) / 2 + lo
}

/// The two cards (lower first) of the combo with the given index.
pub fn combo_from_index(idx: u16) -> (r: (Card, Card))
    requires
        idx < NUM_COMBOS,
    ensures
        r.0 < r.1 < 52,
        spec_combo_index(r.0 as int, r.1 as int) == idx,
{
    let mut hi: u16 = 1;
    // next_tri == tri(hi + 1): the first index whose higher card is above `hi`
    let mut next_tri: u16 = 1;
    proof {
        assert(tri(1) == 0);
        assert(tri(2) == 1);
    }
    while next_tri <= idx
        invariant
            1 <= hi <= 51,
            tri(hi as int) <= idx,
            next_tri == tri(hi + 1),
            idx < NUM_COMBOS,
        decreases 52 - hi,
    {
        proof {
            lemma_tri_step(hi as int);
            lemma_tri_step(hi + 1);
            if hi == 51 {
                assert(tri(52) == 1326) by (nonlinear_arith);
            }
        }
        hi = hi + 1;
        next_tri = next_tri + hi;
    }
    proof {
        lemma_tri_step(hi as int);
    }
    let lo = idx - (next_tri - hi);
    (lo as u8, hi as u8)
}

proof fn lemma_combo_index_onto_from(i: int, b: int)
    requires
        1 <= b <= 51,
        tri(b) <= i < NUM_COMBOS,
    ensures
        exists|x: int, y: int| 0 <= x < y < 52 && spec_combo_index(x, y) == i,
    decreases 52 - b,
{
    lemma_tri_step(b);
    if i < tri(b + 1) {
        assert(spec_combo_index(i - tri(b), b) == i);
    } else {
        if b == 51 {
            assert(tri(52) == 1326) by (nonlinear_arith);
        }
        lemma_combo_index_onto_from(i, b + 1);
    }
}

/// Every index in 0..1326 is the index of some combo of two distinct cards below 52.
pub proof fn lemma_combo_index_onto(i: int)
    requires
        0 <= i < NUM_COMBOS,
    ensures
        exists|x: int, y: int| 0 <= x < y < 52 && spec_combo_index(x, y) == i,
{
    assert(tri(1) == 0);
    lemma_combo_index_onto_from(i, 1);
}

/// `combo_index` and `combo_from_index` are inverse to each other.
pub proof fn lemma_combo_roundtrip(a: int, b: int, idx: int)
    requires
        0 <= a < b,
        spec_combo_index(a, b) == idx,
    ensures
        forall|c: int, d: int|
            0 <= c < d && #[trigger] spec_combo_index(c, d) == idx ==> c == a && d == b,
{
    assert forall|c: int, d: int|
        0 <= c < d && #[trigger] spec_combo_index(c, d) == idx implies c == a && d == b by {
        lemma_combo_index_injective(a, b, c, d);
    }
}

// ---------------------------------------------------------------------------
// Hand: a set of cards as a 64-bit mask
// ---------------------------------------------------------------------------

/// A set of cards, bit `c` set iff card `c` is in the set.
#[derive(Clone, Copy, PartialEq, Eq, Structural, Debug, Hash)]
pub struct Hand(pub u64);

impl Hand {
    /// Whether card `c` is in the set.
    pub open spec fn has(self, c: int) -> bool {
        0 <= c < 64 && (self.0 >> (c as u64)) & 1u64 == 1u64
    }

    /// The cards below `n` that are in the set, ascending.
    pub open spec fn cards_below(self, n: int) -> Seq<u8>
        decreases n,
    {
        if n <= 0 {
            Seq::empty()
        } else if self.has(n - 1) {
            self.cards_below(n - 1).push((n - 1) as u8)
        } else {
            self.cards_below(n - 1)
        }
    }

    /// All cards of the set, ascending.
    pub open spec fn spec_cards(self) -> Seq<u8> {
        self.cards_below(64)
    }

    /// The empty set.
    pub fn new() -> (h: Hand)
        ensures
            forall|c: int| !h.has(c),
    {
        proof {
            assert forall|c: u64| c < 64 implies (0u64 >> c) & 1u64 != 1u64 by {
                assert((0u64 >> c) & 1u64 == 0u64) by (bit_vector);
            }
        }
        Hand(0)
    }

    /// Whether card `c` is in the set.
    pub fn contains(&self, c: Card) -> (b: bool)
        requires
            c < 64,
        ensures
            b == self.has(c as int),
    {
        (self.0 >> (c as u64)) & 1u64 == 1u64
    }

    /// The set with card `c` added (as a mask: bit `c` set).
    pub open spec fn spec_add(self, c: u8) -> Hand {
        Hand(self.0 | (1u64 << (c as u64)))
    }

    /// The set with card `c` added.
    pub fn add(&self, c: Card) -> (h: Hand)
        requires
            c < 64,
        ensures
            h == self.spec_add(c),
            forall|d: int| h.has(d) == (self.has(d) || d == c),
    {
        let x = self.0;
        let r = x | (1u64 << (c as u64));
        proof {
            assert forall|d: int| (Hand(r)).has(d) == (self.has(d) || d == c) by {
                if 0 <= d < 64 {
                    let du = d as u64;
                    let cu = c as u64;
                    assert(((x | (1u64 << cu)) >> du) & 1u64 == 1u64 <==> ((x >> du) & 1u64
                        == 1u64 || du == cu)) by (bit_vector)
                        requires
                            du < 64,
                            cu < 64,
                    ;
                }
            }
        }
        Hand(r)
    }

    /// The union of two sets.
    pub fn union(&self, other: Hand) -> (h: Hand)
        ensures
            h == Hand(self.0 | other.0),
            forall|d: int| h.has(d) == (self.has(d) || other.has(d)),
    {
        let x = self.0;
        let y = other.0;
        proof {
            assert forall|d: int| (Hand(x | y)).has(d) == (self.has(d) || other.has(d)) by {
                if 0 <= d < 64 {
                    let du = d as u64;
                    assert(((x | y) >> du) & 1u64 == 1u64 <==> ((x >> du) & 1u64 == 1u64 || (y
                        >> du) & 1u64 == 1u64)) by (bit_vector)
                        requires
                            du < 64,
                    ;
                }
            }
        }
        Hand(x | y)
    }

    /// The cards of the set, ascending.
    pub fn cards(&self) -> (v: Vec<Card>)
        ensures
            v@ == self.spec_cards(),
    {
        let mut v: Vec<Card> = Vec::new();
        let mut c: u8 = 0;
        while c < 64
            invariant
                c <= 64,
                v@ == self.cards_below(c as int),
            decreases 64 - c,
        {
            if self.contains(c) {
                v.push(c);
            }
            c = c + 1;
        }
        v
    }

    /// Number of cards in the set.
    pub fn count(&self) -> (n: usize)
        ensures
            n == self.spec_cards().len(),
    {
        self.cards().len()
    }
}

/// The cards listed by `cards_below` are exactly the members below `n`, each once, ascending.
pub proof fn lemma_cards_below(h: Hand, n: int)
    requires
        0 <= n <= 64,
    ensures
        forall|i: int| 0 <= i < h.cards_below(n).len() ==> h.has(#[trigger] h.cards_below(n)[i] as int)
            && h.cards_below(n)[i] < n,
        forall|c: int| 0 <= c < n && h.has(c) ==> h.cards_below(n).contains(c as u8),
        forall|i: int, j: int|
            0 <= i < j < h.cards_below(n).len() ==> h.cards_below(n)[i] < h.cards_below(n)[j],
        h.cards_below(n).len() <= n,
    decreases n,
{
    if n > 0 {
        lemma_cards_below(h, n - 1);
        let prev = h.cards_below(n - 1);
        if h.has(n - 1) {
            assert forall|c: int| 0 <= c < n && h.has(c) implies h.cards_below(n).contains(
                c as u8,
            ) by {
                if c == n - 1 {
                    assert(h.cards_below(n)[prev.len() as int] == c as u8);
                } else {
                    let k = choose|k: int| 0 <= k < prev.len() && prev[k] == c as u8;
                    assert(h.cards_below(n)[k] == c as u8);
                }
            }
        }
    }
}

} // verus!
