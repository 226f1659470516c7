//! Suit isomorphism: the 169 canonical preflop hands, postflop canonical keys,
//! and board-preserving suit permutations for isomorphic card deduction.
use vstd::prelude::*;
use crate::card::{
    rank, suit, combo_index, combo_from_index, Card, Hand, NUM_COMBOS, spec_rank, spec_suit,
    spec_combo_index, tri, lemma_combo_index_injective, lemma_combo_index_range,
};

verus! {

// ---------------------------------------------------------------------------
// CanonicalHand: the 169 preflop equivalence classes
// ---------------------------------------------------------------------------

pub const NUM_CANONICAL_HANDS: usize = 169;

/// A preflop hand up to suit relabelling: the two ranks (0..13) and whether it is suited.
#[derive(Debug, Clone, Copy, PartialEq, Eq, Structural, Hash)]
pub struct CanonicalHand {
    pub hi: u8,
    pub lo: u8,
    pub suited: bool,
}

impl CanonicalHand {
    /// The index of the hand. Layout: pairs 0..13, suited 13..91, offsuit 91..169;
    /// within the suited and offsuit blocks, (hi, lo) with hi > lo in triangular order.
    pub open spec fn spec_index(self) -> int {
        if self.hi == self.lo {
            self.hi as int
        } else if self.suited {
            13 + tri(self.hi as int) + self.lo
        } else {
            91 + tri(self.hi as int) + self.lo
        }
    }

    /// A hand of one of the 169 classes: a pair (never suited) or two ranks hi > lo.
    pub open spec fn is_valid(self) -> bool {
        &&& self.hi < 13
        &&& self.lo <= self.hi
        &&& self.hi == self.lo ==> !self.suited
    }

    /// Map to index 0..169.
    pub fn index(&self) -> (idx: u8)
        requires
            self.hi < 13,
            self.lo < 13,
            self.hi == self.lo || self.hi > 0,
        ensures
            idx == self.spec_index(),
    {
        if self.hi == self.lo {
            self.hi
        } else {
            let h = self.hi as u16;
            proof {
                assert(h * (h - 1) <= 12 * 11) by (nonlinear_arith)
                    requires
                        1 <= h <= 12,
                ;
                assert(tri(h as int) == h * (h - 1) / 2);
            }
            let base = h * (h - 1) / 2;
            if self.suited {
                13 + base as u8 + self.lo
            } else {
                91 + base as u8 + self.lo
            }
        }
    }

    /// Inverse of `index`: the hand whose index is `idx` (for `idx < 169`).
    /// Above 168 the same triangular decoding continues past the ace.
    pub fn from_index(idx: u8) -> (h: CanonicalHand)
        ensures
            idx < 13 ==> h == (CanonicalHand { hi: idx, lo: idx, suited: false }),
            idx >= 13 ==> ({
                let offset = if idx < 91 { idx - 13 } else { idx - 91 };
                &&& h.suited == (idx < 91)
                &&& h.hi >= 1
                &&& tri(h.hi as int) <= offset < tri(h.hi + 1)
                &&& h.lo == offset - tri(h.hi as int)
            }),
            idx < NUM_CANONICAL_HANDS ==> h.is_valid() && h.spec_index() == idx,
    {
        if idx < 13 {
            CanonicalHand { hi: idx, lo: idx, suited: false }
        } else {
            let (suited, offset) = if idx < 91 {
                (true, idx - 13)
            } else {
                (false, idx - 91)
            };
            let mut hi: u8 = 1;
            // next == tri(hi + 1)
            let mut next: u16 = 1;
            proof {
                lemma_tri_facts(0);
                lemma_tri_facts(1);
            }
            while next <= offset as u16
                invariant
                    1 <= hi <= 23,
                    tri(hi as int) <= offset,
                    next == tri(hi + 1),
                    offset <= 242,
                decreases 300 - next,
            {
                proof {
                    lemma_tri_facts(hi as int);
                    lemma_tri_facts(hi + 1);
                    lemma_tri_facts(hi + 2);
                    if hi >= 22 {
                        lemma_tri_ge(hi + 1, 23);
                        assert(tri(23) == 253) by (nonlinear_arith);
                    }
                }
                hi = hi + 1;
                next = next + hi as u16;
            }
            proof {
                lemma_tri_facts(hi as int);
                lemma_tri_facts(hi + 1);
                if idx < 169 {
                    if hi >= 13 {
                        lemma_tri_ge(hi as int, 13);
                        assert(tri(13) == 78) by (nonlinear_arith);
                    }
                }
            }
            let lo = offset - (next - hi as u16) as u8;
            CanonicalHand { hi, lo, suited }
        }
    }

    /// Short name such as "AA", "AKs" or "T9o".
    pub fn to_string(&self) -> (s: String)
        requires
            self.hi < 13,
            self.lo < 13,
        ensures
            s@ == seq![rank_char(self.hi), rank_char(self.lo)] + (if self.hi == self.lo {
                Seq::<char>::empty()
            } else if self.suited {
                seq!['s']
            } else {
                seq!['o']
            }),
    {
        let mut s = String::from_str(rank_str(self.hi));
        s.append(rank_str(self.lo));
        if self.hi != self.lo {
            if self.suited {
                proof {
                    reveal_strlit("s");
                }
                s.append("s");
            } else {
                proof {
                    reveal_strlit("o");
                }
                s.append("o");
            }
        }
        s
    }
}

proof fn lemma_tri_facts(b: int)
    requires
        b >= 0,
    ensures
        tri(b + 1) == tri(b) + b,
        tri(b) >= 0,
{
    assert((b + 1) * b == b * (b - 1) + 2 * b) by (nonlinear_arith);
    assert(b * (b - 1) >= 0) by (nonlinear_arith)
        requires
            b >= 0,
    ;
}

proof fn lemma_tri_ge(b: int, d: int)
    requires
        0 <= d <= b,
    ensures
        tri(d) <= tri(b),
    decreases b - d,
{
    if d < b {
        lemma_tri_facts(b - 1);
        lemma_tri_ge(b - 1, d);
    }
}

/// The character of a rank: '2'..'9', 'T', 'J', 'Q', 'K', 'A'.
pub open spec fn rank_char(r: u8) -> char {
    seq!['2', '3', '4', '5', '6', '7', '8', '9', 'T', 'J', 'Q', 'K', 'A'][r as int]
}

fn rank_str(r: u8) -> (s: &'static str)
    requires
        r < 13,
    ensures
        s@ == seq![rank_char(r)],
{
    proof {
        reveal_strlit("2");
        reveal_strlit("3");
        reveal_strlit("4");
        reveal_strlit("5");
        reveal_strlit("6");
        reveal_strlit("7");
        reveal_strlit("8");
        reveal_strlit("9");
        reveal_strlit("T");
        reveal_strlit("J");
        reveal_strlit("Q");
        reveal_strlit("K");
        reveal_strlit("A");
    }
    match r {
        0 => "2",
        1 => "3",
        2 => "4",
        3 => "5",
        4 => "6",
        5 => "7",
        6 => "8",
        7 => "9",
        8 => "T",
        9 => "J",
        10 => "Q",
        11 => "K",
        _ => "A",
    }
}

/// The canonical hand of two hole cards.
pub fn canonical_hand(c1: Card, c2: Card) -> (h: CanonicalHand)
    ensures
        h == spec_canonical_hand(c1, c2),
        h.hi == if spec_rank(c1) >= spec_rank(c2) { spec_rank(c1) } else { spec_rank(c2) },
        h.lo == if spec_rank(c1) >= spec_rank(c2) { spec_rank(c2) } else { spec_rank(c1) },
        h.suited == (spec_suit(c1) == spec_suit(c2)),
{
    let r1 = rank(c1);
    let r2 = rank(c2);
    let s1 = suit(c1);
    let s2 = suit(c2);
    let suited = s1 == s2;
    let (hi, lo) = if r1 >= r2 {
        (r1, r2)
    } else {
        (r2, r1)
    };
    CanonicalHand { hi, lo, suited }
}

/// Index and decoding are inverse on the 169 classes.
pub proof fn lemma_index_roundtrip(h: CanonicalHand)
    requires
        h.is_valid(),
    ensures
        0 <= h.spec_index() < NUM_CANONICAL_HANDS,
        h.hi != h.lo ==> tri(h.hi as int) <= h.spec_index() - (if h.suited { 13int } else { 91int })
            < tri(h.hi + 1),
{
    lemma_tri_facts(h.hi as int);
    lemma_tri_ge(12, h.hi as int);
    assert(tri(12) == 66) by (nonlinear_arith);
}

/// The canonical hand of two distinct cards is one of the 169 classes.
pub proof fn law_canonical_hand_valid(c1: Card, c2: Card)
    requires
        c1 < 52,
        c2 < 52,
        c1 != c2,
    ensures
        ({
            let r1 = spec_rank(c1);
            let r2 = spec_rank(c2);
            let h = CanonicalHand {
                hi: if r1 >= r2 { r1 } else { r2 },
                lo: if r1 >= r2 { r2 } else { r1 },
                suited: spec_suit(c1) == spec_suit(c2),
            };
            h.is_valid()
        }),
{
}


/// The canonical hand of two cards: the higher rank, the lower rank, and whether the
/// suits agree.
pub open spec fn spec_canonical_hand(c1: u8, c2: u8) -> CanonicalHand {
    let r1 = spec_rank(c1);
    let r2 = spec_rank(c2);
    CanonicalHand {
        hi: if r1 >= r2 { r1 } else { r2 },
        lo: if r1 >= r2 { r2 } else { r1 },
        suited: spec_suit(c1) == spec_suit(c2),
    }
}

/// Distinct classes have distinct indices; since `from_index` gives a class of each index
/// below 169, index and decoding are inverse both ways.
pub proof fn law_index_injective(a: CanonicalHand, b: CanonicalHand)
    requires
        a.is_valid(),
        b.is_valid(),
        a.spec_index() == b.spec_index(),
    ensures
        a == b,
{
    lemma_index_roundtrip(a);
    lemma_index_roundtrip(b);
    lemma_tri_facts(1);
    lemma_tri_facts(0);
    lemma_tri_ge(12, a.hi as int);
    lemma_tri_ge(12, b.hi as int);
    assert(tri(12) == 66) by (nonlinear_arith);
    if a.hi != a.lo && b.hi != b.lo {
        lemma_tri_ge(a.hi as int, 1);
        lemma_tri_ge(b.hi as int, 1);
        assert(a.suited == b.suited);
        if a.hi < b.hi {
            lemma_tri_facts(a.hi as int);
            lemma_tri_ge(b.hi as int, a.hi + 1);
        } else if b.hi < a.hi {
            lemma_tri_facts(b.hi as int);
            lemma_tri_ge(a.hi as int, b.hi + 1);
        }
    } else if a.hi != a.lo {
        lemma_tri_ge(a.hi as int, 1);
    } else if b.hi != b.lo {
        lemma_tri_ge(b.hi as int, 1);
    }
}

/// The two cards of every one of the 169 classes can be dealt: each class is the
/// canonical hand of some pair of distinct cards of the deck.
pub proof fn law_canonical_hand_onto(h: CanonicalHand)
    requires
        h.is_valid(),
    ensures
        exists|c1: u8, c2: u8|
            c1 < 52 && c2 < 52 && c1 != c2 && #[trigger] spec_canonical_hand(c1, c2) == h,
{
    let c1 = (4 * h.hi) as u8;
    let c2: u8 = if h.hi == h.lo {
        (4 * h.lo + 1) as u8
    } else if h.suited {
        (4 * h.lo) as u8
    } else {
        (4 * h.lo + 1) as u8
    };
    assert(spec_rank(c1) == h.hi && spec_suit(c1) == 0);
    assert(spec_rank(c2) == h.lo);
    assert(spec_canonical_hand(c1, c2) == h);
}

// ---------------------------------------------------------------------------
// Suit permutations
// ---------------------------------------------------------------------------

/// `p` is a permutation of the four suits: `p[s]` is where suit `s` goes.
pub open spec fn is_suit_perm(p: Seq<u8>) -> bool {
    &&& p.len() == 4
    &&& forall|s: int| 0 <= s < 4 ==> p[s] < 4
    &&& forall|s: int, t: int| 0 <= s < 4 && 0 <= t < 4 && p[s] == p[t] ==> s == t
}

/// The card `c` with its suit relabelled by `p`.
pub open spec fn map_card(p: Seq<u8>, c: u8) -> u8 {
    (spec_rank(c) * 4 + p[spec_suit(c) as int]) as u8
}

/// The largest `i` with `p[i] == k`, or 0 when there is none.
pub open spec fn last_preimage(p: Seq<u8>, k: u8) -> u8 {
    if p[3] == k {
        3
    } else if p[2] == k {
        2
    } else if p[1] == k {
        1
    } else {
        0
    }
}

/// The inverse of a suit permutation: `inv[perm[i]] = i`.
pub fn inverse_suit_perm(perm: &[u8; 4]) -> (inv: [u8; 4])
    requires
        forall|i: int| 0 <= i < 4 ==> perm[i] < 4,
    ensures
        forall|k: int| 0 <= k < 4 ==> inv[k] == last_preimage(perm@, k as u8),
{
    let mut inv = [0u8; 4];
    let mut i: usize = 0;
    while i < 4
        invariant
            i <= 4,
            forall|j: int| 0 <= j < 4 ==> perm[j] < 4,
            forall|k: int|
                0 <= k < 4 ==> inv[k] == (if i >= 4 && perm[3] == k {
                    3u8
                } else if i >= 3 && perm[2] == k {
                    2u8
                } else if i >= 2 && perm[1] == k {
                    1u8
                } else {
                    0u8
                }),
        decreases 4 - i,
    {
        inv[perm[i] as usize] = i as u8;
        i = i + 1;
    }
    inv
}

/// The inverse of a suit permutation is a suit permutation, and undoes it on both sides.
pub proof fn law_inverse_suit_perm(p: Seq<u8>, inv: Seq<u8>)
    requires
        is_suit_perm(p),
        inv.len() == 4,
        forall|k: int| 0 <= k < 4 ==> inv[k] == last_preimage(p, k as u8),
    ensures
        is_suit_perm(inv),
        forall|s: int| 0 <= s < 4 ==> inv[p[s] as int] == s,
        forall|k: int| 0 <= k < 4 ==> p[inv[k] as int] == k,
{
    // every k < 4 has a preimage: p is injective on four values below 4
    assert forall|k: int| 0 <= k < 4 implies p[inv[k] as int] == k by {
        if p[0] != k && p[1] != k && p[2] != k && p[3] != k {
            assert(p[0] != p[1] && p[0] != p[2] && p[0] != p[3] && p[1] != p[2] && p[1] != p[3]
                && p[2] != p[3]);
        }
    }
}

/// `t` is the combo permutation table of the suit permutation `p`.
pub open spec fn is_combo_table(p: Seq<u8>, t: Seq<u16>) -> bool {
    &&& t.len() == NUM_COMBOS
    &&& forall|a: int, b: int|
        0 <= a < b < 52 ==> #[trigger] t[spec_combo_index(a, b)] == spec_combo_index(
            map_card(p, a as u8) as int,
            map_card(p, b as u8) as int,
        )
    &&& forall|i: int| 0 <= i < NUM_COMBOS ==> t[i] < NUM_COMBOS
}

proof fn lemma_map_card(p: Seq<u8>, c: u8)
    requires
        is_suit_perm(p),
        c < 52,
    ensures
        map_card(p, c) < 52,
        spec_rank(map_card(p, c)) == spec_rank(c),
        spec_suit(map_card(p, c)) == p[spec_suit(c) as int],
{
}

proof fn lemma_map_card_injective(p: Seq<u8>, a: u8, b: u8)
    requires
        is_suit_perm(p),
        a < 52,
        b < 52,
        map_card(p, a) == map_card(p, b),
    ensures
        a == b,
{
    lemma_map_card(p, a);
    lemma_map_card(p, b);
}

/// A combo permutation table of a suit permutation is a bijection of 0..1326.
pub proof fn law_combo_table_bijective(p: Seq<u8>, t: Seq<u16>)
    requires
        is_suit_perm(p),
        is_combo_table(p, t),
    ensures
        forall|i: int, j: int| 0 <= i < NUM_COMBOS && 0 <= j < NUM_COMBOS && i != j ==> t[i] != t[j],
{
    assert forall|i: int, j: int|
        0 <= i < NUM_COMBOS && 0 <= j < NUM_COMBOS && i != j implies t[i] != t[j] by {
        crate::card::lemma_combo_index_onto(i);
        crate::card::lemma_combo_index_onto(j);
        let (a, b) = choose|x: int, y: int| 0 <= x < y < 52 && spec_combo_index(x, y) == i;
        let (c, d) = choose|x: int, y: int| 0 <= x < y < 52 && spec_combo_index(x, y) == j;
        assert(t[spec_combo_index(a, b)] == t[i]);
        assert(t[spec_combo_index(c, d)] == t[j]);
        let pa = map_card(p, a as u8);
        let pb = map_card(p, b as u8);
        let pc = map_card(p, c as u8);
        let pd = map_card(p, d as u8);
        lemma_map_card(p, a as u8);
        lemma_map_card(p, b as u8);
        lemma_map_card(p, c as u8);
        lemma_map_card(p, d as u8);
        if t[i] == t[j] {
            if pa != pb && pc != pd {
                let (x1, y1) = if pa < pb { (pa, pb) } else { (pb, pa) };
                let (x2, y2) = if pc < pd { (pc, pd) } else { (pd, pc) };
                lemma_combo_index_injective(x1 as int, y1 as int, x2 as int, y2 as int);
                if pa == pc {
                    lemma_map_card_injective(p, a as u8, c as u8);
                    lemma_map_card_injective(p, b as u8, d as u8);
                } else {
                    lemma_map_card_injective(p, a as u8, d as u8);
                    lemma_map_card_injective(p, b as u8, c as u8);
                }
            } else {
                if pa == pb {
                    lemma_map_card_injective(p, a as u8, b as u8);
                } else {
                    lemma_map_card_injective(p, c as u8, d as u8);
                }
            }
        }
    }
}

/// Relabelling suits by a permutation and then by its inverse leaves every combo where it
/// was: the table of the inverse undoes the table of the permutation.
pub proof fn law_combo_table_inverse(p: Seq<u8>, q: Seq<u8>, tp: Seq<u16>, tq: Seq<u16>)
    requires
        is_suit_perm(p),
        q.len() == 4,
        forall|k: int| 0 <= k < 4 ==> q[k] == last_preimage(p, k as u8),
        is_combo_table(p, tp),
        is_combo_table(q, tq),
    ensures
        forall|i: int| 0 <= i < NUM_COMBOS ==> tq[tp[i] as int] == i,
{
    law_inverse_suit_perm(p, q);
    assert forall|i: int| 0 <= i < NUM_COMBOS implies tq[tp[i] as int] == i by {
        crate::card::lemma_combo_index_onto(i);
        let (a, b) = choose|x: int, y: int| 0 <= x < y < 52 && spec_combo_index(x, y) == i;
        assert(tp[spec_combo_index(a, b)] == tp[i]);
        let pa = map_card(p, a as u8);
        let pb = map_card(p, b as u8);
        lemma_map_card(p, a as u8);
        lemma_map_card(p, b as u8);
        lemma_map_card(q, pa);
        lemma_map_card(q, pb);
        crate::card::lemma_card_rank_suit(a as u8);
        crate::card::lemma_card_rank_suit(b as u8);
        assert(map_card(q, pa) == a);
        assert(map_card(q, pb) == b);
        if pa < pb {
            assert(tq[spec_combo_index(pa as int, pb as int)] == spec_combo_index(a, b));
        } else {
            assert(pa != pb);
            assert(tq[spec_combo_index(pb as int, pa as int)] == spec_combo_index(b, a));
        }
    }
}

/// Combo index permutation table of a suit permutation: entry `i` is the index of
/// combo `i` after relabelling suits by `perm`.
pub fn combo_permutation(perm: &[u8; 4]) -> (table: [u16; NUM_COMBOS])
    requires
        is_suit_perm(perm@),
    ensures
        is_combo_table(perm@, table@),
{
    let mut table = [0u16; NUM_COMBOS];
    let mut idx: u16 = 0;
    while idx < NUM_COMBOS as u16
        invariant
            idx <= NUM_COMBOS,
            is_suit_perm(perm@),
            forall|a: int, b: int|
                0 <= a < b < 52 && spec_combo_index(a, b) < idx ==> #[trigger] table[spec_combo_index(
                    a,
                    b,
                )] == spec_combo_index(
                    map_card(perm@, a as u8) as int,
                    map_card(perm@, b as u8) as int,
                ),
            forall|i: int| 0 <= i < idx ==> table[i] < NUM_COMBOS,
        decreases NUM_COMBOS - idx,
    {
        let (c1, c2) = combo_from_index(idx);
        let c1p = rank(c1) * 4 + perm[suit(c1) as usize];
        let c2p = rank(c2) * 4 + perm[suit(c2) as usize];
        proof {
            assert(c1p == map_card(perm@, c1));
            assert(c2p == map_card(perm@, c2));
            assert(spec_suit(c1) != spec_suit(c2) || spec_rank(c1) != spec_rank(c2));
        }
        let v = combo_index(c1p, c2p);
        table[idx as usize] = v;
        proof {
            assert forall|a: int, b: int|
                0 <= a < b < 52 && spec_combo_index(a, b) < idx + 1 implies #[trigger] table[spec_combo_index(
                a,
                b,
            )] == spec_combo_index(
                map_card(perm@, a as u8) as int,
                map_card(perm@, b as u8) as int,
            ) by {
                if spec_combo_index(a, b) == idx {
                    lemma_combo_index_injective(a, b, c1 as int, c2 as int);
                }
            }
        }
        idx = idx + 1;
    }
    proof {
        assert forall|a: int, b: int|
            0 <= a < b < 52 implies #[trigger] table[spec_combo_index(a, b)] == spec_combo_index(
            map_card(perm@, a as u8) as int,
            map_card(perm@, b as u8) as int,
        ) by {
            lemma_combo_index_range(a, b);
        }
    }
    table
}


// ---------------------------------------------------------------------------
// Relabelled boards and their order
// ---------------------------------------------------------------------------

/// `c` is the board `b` with suits renamed by `m`.
pub open spec fn renamed_board(b: Hand, m: Seq<u8>, c: Hand) -> bool {
    forall|d: int| #[trigger] c.has(d) <==> exists|x: int| #[trigger] b.has(x) && d == map_card(m, x as u8)
}

proof fn lemma_map_card_any(p: Seq<u8>, c: u8)
    requires
        is_suit_perm(p),
        c < 64,
    ensures
        map_card(p, c) < 64,
        spec_rank(map_card(p, c)) == spec_rank(c),
        spec_suit(map_card(p, c)) == p[spec_suit(c) as int],
{
}

/// Hands holding the same cards agree on their bits from `m` up.
proof fn lemma_hand_bits_from(a: Hand, b: Hand, m: u64)
    requires
        m <= 64,
        forall|d: int| 0 <= d < 64 ==> a.has(d) == b.has(d),
    ensures
        a.0 >> m == b.0 >> m,
    decreases 64 - m,
{
    let x = a.0;
    let y = b.0;
    if m == 64 {
        assert(x >> 64u64 == y >> 64u64) by (bit_vector);
    } else {
        let n = (m + 1) as u64;
        lemma_hand_bits_from(a, b, n);
        assert(a.has(m as int) == b.has(m as int));
        assert((x >> m) & 1u64 == 1u64 || (x >> m) & 1u64 == 0u64) by (bit_vector);
        assert((y >> m) & 1u64 == 1u64 || (y >> m) & 1u64 == 0u64) by (bit_vector);
        assert(x >> m == y >> m) by (bit_vector)
            requires
                m < 64,
                n == m + 1,
                (x >> m) & 1u64 == (y >> m) & 1u64,
                x >> n == y >> n,
        ;
    }
}

/// Two hands holding the same cards are equal.
proof fn lemma_hand_ext(a: Hand, b: Hand)
    requires
        forall|d: int| 0 <= d < 64 ==> a.has(d) == b.has(d),
    ensures
        a == b,
{
    lemma_hand_bits_from(a, b, 0);
    let x = a.0;
    let y = b.0;
    assert(x >> 0u64 == x && y >> 0u64 == y) by (bit_vector);
}

/// A board renamed by one renaming is one hand.
proof fn lemma_renamed_unique(b: Hand, m: Seq<u8>, c1: Hand, c2: Hand)
    requires
        renamed_board(b, m, c1),
        renamed_board(b, m, c2),
    ensures
        c1 == c2,
{
    assert forall|d: int| 0 <= d < 64 implies c1.has(d) == c2.has(d) by {
        assert(c1.has(d) == c2.has(d));
    }
    lemma_hand_ext(c1, c2);
}

/// Rename by `s`, then by `p`: suit `i` becomes `p[s[i]]`.
pub open spec fn compose_suit_perms(s: Seq<u8>, p: Seq<u8>) -> Seq<u8> {
    seq![p[s[0] as int], p[s[1] as int], p[s[2] as int], p[s[3] as int]]
}

/// Renaming by `s` and then by `p` is renaming by their composition.
proof fn lemma_renamed_compose(b: Hand, s: Seq<u8>, b2: Hand, p: Seq<u8>, h: Hand)
    requires
        is_suit_perm(s),
        is_suit_perm(p),
        renamed_board(b, s, b2),
        renamed_board(b2, p, h),
    ensures
        is_suit_perm(compose_suit_perms(s, p)),
        renamed_board(b, compose_suit_perms(s, p), h),
{
    let q = compose_suit_perms(s, p);
    assert(forall|i: int| 0 <= i < 4 ==> q[i] == p[s[i] as int]);
    assert forall|x: int| 0 <= x < 64 implies map_card(p, #[trigger] map_card(s, x as u8)) == map_card(q, x as u8) by {
        lemma_map_card_any(s, x as u8);
    }
    assert forall|d: int| #[trigger] h.has(d) <==> exists|x: int| #[trigger] b.has(x) && d == map_card(q, x as u8) by {
        if h.has(d) {
            let y = choose|y: int| #[trigger] b2.has(y) && d == map_card(p, y as u8);
            let x = choose|x: int| #[trigger] b.has(x) && y == map_card(s, x as u8);
            assert(map_card(p, map_card(s, x as u8)) == map_card(q, x as u8));
        }
        if exists|x: int| #[trigger] b.has(x) && d == map_card(q, x as u8) {
            let x = choose|x: int| #[trigger] b.has(x) && d == map_card(q, x as u8);
            let y = map_card(s, x as u8) as int;
            lemma_map_card_any(s, x as u8);
            assert(b2.has(y));
            assert(map_card(p, map_card(s, x as u8)) == map_card(q, x as u8));
        }
    }
}

/// A renamed board renamed back by the inverse renaming is the board.
proof fn lemma_renamed_inverse(b: Hand, s: Seq<u8>, b2: Hand) -> (inv: Seq<u8>)
    requires
        is_suit_perm(s),
        renamed_board(b, s, b2),
    ensures
        inv == seq![last_preimage(s, 0), last_preimage(s, 1), last_preimage(s, 2), last_preimage(s, 3)],
        is_suit_perm(inv),
        renamed_board(b2, inv, b),
{
    let inv = seq![last_preimage(s, 0), last_preimage(s, 1), last_preimage(s, 2), last_preimage(s, 3)];
    law_inverse_suit_perm(s, inv);
    assert forall|d: int| #[trigger] b.has(d) <==> exists|y: int| #[trigger] b2.has(y) && d == map_card(inv, y as u8) by {
        if b.has(d) {
            let y = map_card(s, d as u8) as int;
            lemma_map_card_any(s, d as u8);
            assert(b2.has(y));
            lemma_map_card_any(inv, y as u8);
            vstd::arithmetic::div_mod::lemma_fundamental_div_mod(d, 4);
            assert(d == map_card(inv, y as u8));
        }
        if exists|y: int| #[trigger] b2.has(y) && d == map_card(inv, y as u8) {
            let y = choose|y: int| #[trigger] b2.has(y) && d == map_card(inv, y as u8);
            let x = choose|x: int| #[trigger] b.has(x) && y == map_card(s, x as u8);
            lemma_map_card_any(s, x as u8);
            vstd::arithmetic::div_mod::lemma_fundamental_div_mod(x, 4);
            assert(d == x);
        }
    }
    inv
}

/// Renaming suits keeps the number of cards.
pub proof fn law_renaming_keeps_card_count(b: Hand, m: Seq<u8>, h: Hand)
    requires
        is_suit_perm(m),
        renamed_board(b, m, h),
    ensures
        h.spec_cards().len() == b.spec_cards().len(),
{
    crate::card::lemma_cards_below(b, 64);
    crate::card::lemma_cards_below(h, 64);
    let sb = b.spec_cards();
    let sh = h.spec_cards();
    let f = |x: u8| map_card(m, x);
    assert(sb.no_duplicates());
    assert(sh.no_duplicates());
    sb.unique_seq_to_set();
    sh.unique_seq_to_set();
    assert(sb.to_set().map(f) =~= sh.to_set()) by {
        assert forall|d: u8| #[trigger] sh.to_set().contains(d) implies sb.to_set().map(f).contains(d) by {
            let k = choose|k: int| 0 <= k < sh.len() && sh[k] == d;
            assert(h.has(sh[k] as int));
            let x = choose|x: int| #[trigger] b.has(x) && d as int == map_card(m, x as u8);
            assert(sb.contains(x as u8));
            assert(sb.to_set().contains(x as u8));
            assert(f(x as u8) == d);
            assert(sb.to_set().contains(x as u8) && f(x as u8) == d);
        }
        assert forall|d: u8| #[trigger] sb.to_set().map(f).contains(d) implies sh.to_set().contains(d) by {
            let x = choose|x: u8| sb.to_set().contains(x) && f(x) == d;
            let k = choose|k: int| 0 <= k < sb.len() && sb[k] == x;
            assert(b.has(sb[k] as int));
            lemma_map_card_any(m, x);
            assert(h.has(d as int));
        }
    }
    assert(vstd::relations::injective_on(f, sb.to_set())) by {
        assert forall|x: u8, y: u8| sb.to_set().contains(x) && sb.to_set().contains(y) && #[trigger] f(x) == #[trigger] f(y) implies x == y by {
            let kx = choose|k: int| 0 <= k < sb.len() && sb[k] == x;
            let ky = choose|k: int| 0 <= k < sb.len() && sb[k] == y;
            assert(b.has(sb[kx] as int) && b.has(sb[ky] as int));
            lemma_map_card_any(m, x);
            lemma_map_card_any(m, y);
            vstd::arithmetic::div_mod::lemma_fundamental_div_mod(x as int, 4);
            vstd::arithmetic::div_mod::lemma_fundamental_div_mod(y as int, 4);
        }
    }
    vstd::set_lib::lemma_map_size(sb.to_set(), sh.to_set(), f);
}

/// From card `c` up: the lowest card held by exactly one of `a` and `b` is held by `a`.
pub open spec fn hand_less_from(a: Hand, b: Hand, c: int) -> bool
    decreases 64 - c,
{
    if c >= 64 {
        false
    } else if a.has(c) != b.has(c) {
        a.has(c)
    } else {
        hand_less_from(a, b, c + 1)
    }
}

/// The order of boards: `a` comes first when the lowest card held by exactly one of them
/// is held by `a`.
pub open spec fn hand_less(a: Hand, b: Hand) -> bool {
    hand_less_from(a, b, 0)
}

/// The order is transitive.
proof fn lemma_less_trans(a: Hand, b: Hand, c: Hand, k: int)
    requires
        0 <= k <= 64,
        hand_less_from(a, b, k),
        hand_less_from(b, c, k),
    ensures
        hand_less_from(a, c, k),
    decreases 64 - k,
{
    if k < 64 && a.has(k) == b.has(k) && b.has(k) == c.has(k) {
        lemma_less_trans(a, b, c, k + 1);
    }
}

/// The order is strict and total: of two boards holding different cards, exactly one
/// comes first.
proof fn lemma_less_total(a: Hand, b: Hand, k: int)
    requires
        0 <= k <= 64,
    ensures
        !(hand_less_from(a, b, k) && hand_less_from(b, a, k)),
        !hand_less_from(a, b, k) && !hand_less_from(b, a, k) ==> forall|d: int|
            k <= d < 64 ==> a.has(d) == b.has(d),
    decreases 64 - k,
{
    if k < 64 {
        lemma_less_total(a, b, k + 1);
    }
}

/// Two boards of which neither comes first are equal.
proof fn lemma_less_antisym(a: Hand, b: Hand)
    requires
        !hand_less(a, b),
        !hand_less(b, a),
    ensures
        a == b,
{
    lemma_less_total(a, b, 0);
    lemma_hand_ext(a, b);
}

/// Whether `a` comes before `b`.
fn hand_lt(a: Hand, b: Hand) -> (r: bool)
    ensures
        r == hand_less(a, b),
{
    let mut c: u8 = 0;
    while c < 64
        invariant
            c <= 64,
            hand_less(a, b) == hand_less_from(a, b, c as int),
        decreases 64 - c,
    {
        let x = a.contains(c);
        let y = b.contains(c);
        if x != y {
            return x;
        }
        c = c + 1;
    }
    false
}

/// The board `board` with suits renamed by `m`.
fn relabel_board(board: Hand, m: &[u8; 4]) -> (r: Hand)
    requires
        is_suit_perm(m@),
    ensures
        renamed_board(board, m@, r),
{
    let board_cards = board.cards();
    proof {
        crate::card::lemma_cards_below(board, 64);
    }
    let mut canonical = Hand::new();
    let mut j: usize = 0;
    while j < board_cards.len()
        invariant
            j <= board_cards.len(),
            board_cards@ == board.spec_cards(),
            is_suit_perm(m@),
            forall|i: int|
                0 <= i < board_cards.len() ==> board.has(#[trigger] board_cards@[i] as int)
                    && board_cards@[i] < 64,
            forall|d: int| #[trigger]
                canonical.has(d) <==> exists|k: int|
                    0 <= k < j && d == map_card(m@, #[trigger] board_cards@[k]),
        decreases board_cards.len() - j,
    {
        let c = board_cards[j];
        let cs = m[suit(c) as usize];
        let mapped = rank(c) * 4 + cs;
        proof {
            assert(mapped == map_card(m@, c));
        }
        let next = canonical.add(mapped);
        proof {
            assert forall|d: int| #[trigger]
                next.has(d) <==> exists|k: int|
                    0 <= k < j + 1 && d == map_card(m@, #[trigger] board_cards@[k]) by {
                if next.has(d) && !canonical.has(d) {
                    assert(d == map_card(m@, board_cards@[j as int]));
                }
                if exists|k: int| 0 <= k < j + 1 && d == map_card(m@, #[trigger] board_cards@[k]) {
                    let k = choose|k: int| 0 <= k < j + 1 && d == map_card(m@, #[trigger] board_cards@[k]);
                    if k < j {
                        assert(canonical.has(d));
                    }
                }
            }
        }
        canonical = next;
        j = j + 1;
    }
    proof {
        assert forall|d: int| #[trigger]
            canonical.has(d) <==> exists|c: int| #[trigger] board.has(c) && d == map_card(m@, c as u8) by {
            if canonical.has(d) {
                let k = choose|k: int| 0 <= k < j && d == map_card(m@, #[trigger] board_cards@[k]);
                assert(board.has(board_cards@[k] as int));
            }
            if exists|c: int| #[trigger] board.has(c) && d == map_card(m@, c as u8) {
                let c = choose|c: int| #[trigger] board.has(c) && d == map_card(m@, c as u8);
                assert(board_cards@.contains(c as u8));
                let k = choose|k: int| 0 <= k < board_cards@.len() && board_cards@[k] == c as u8;
                assert(d == map_card(m@, board_cards@[k]));
            }
        }
    }
    canonical
}

/// The number of a suit renaming `p`, reading `p[0] p[1] p[2] p[3]` in base 4: renamings
/// are tried in this order.
pub open spec fn perm_code(p: Seq<u8>) -> int {
    64 * p[0] + 16 * p[1] + 4 * p[2] + p[3]
}

/// The renaming whose number is `code`.
pub open spec fn perm_of_code(code: int) -> Seq<u8> {
    seq![(code / 64) as u8, ((code / 16) % 4) as u8, ((code / 4) % 4) as u8, (code % 4) as u8]
}

/// A renaming is the one of its number, and numbers run below 256.
proof fn lemma_perm_code(p: Seq<u8>)
    requires
        is_suit_perm(p),
    ensures
        0 <= perm_code(p) < 256,
        perm_of_code(perm_code(p)) == p,
{
    let a = p[0];
    let b = p[1];
    let c = p[2];
    let d = p[3];
    let x: u32 = (64 * a + 16 * b + 4 * c + d) as u32;
    assert(x / 64 == a && (x / 16) % 4 == b && (x / 4) % 4 == c && x % 4 == d) by (bit_vector)
        requires
            a < 4,
            b < 4,
            c < 4,
            d < 4,
            x == 64 * a + 16 * b + 4 * c + d,
    ;
    assert(perm_of_code(perm_code(p)) =~= p);
}

/// The identity renaming has the lowest number of all renamings.
proof fn lemma_identity_first(p: Seq<u8>)
    requires
        is_suit_perm(p),
        perm_code(p) <= perm_code(seq![0u8, 1u8, 2u8, 3u8]),
    ensures
        p == seq![0u8, 1u8, 2u8, 3u8],
{
    assert(p[0] == 0);
    assert(p[1] == 1);
    assert(p[2] == 2);
    assert(p[3] == 3);
    assert(p =~= seq![0u8, 1u8, 2u8, 3u8]);
}

/// The renaming numbered `code`, when it is one.
fn decode_perm(code: u32) -> (r: ([u8; 4], bool))
    requires
        code < 256,
    ensures
        r.0@ == perm_of_code(code as int),
        r.1 == is_suit_perm(r.0@),
{
    let p = [(code / 64) as u8, ((code / 16) % 4) as u8, ((code / 4) % 4) as u8, (code % 4) as u8];
    assert(p@ =~= perm_of_code(code as int));
    let ok = p[0] != p[1] && p[0] != p[2] && p[0] != p[3] && p[1] != p[2] && p[1] != p[3] && p[2]
        != p[3];
    (p, ok)
}

/// `c` is the canonical form of `board` and `m` its renaming: `c` is `board` renamed by
/// `m`, no renaming of the board comes before `c`, and `m` is the first renaming (by
/// number) that gives `c`.
pub open spec fn is_canonical_board(board: Hand, c: Hand, m: Seq<u8>) -> bool {
    &&& is_suit_perm(m)
    &&& renamed_board(board, m, c)
    &&& forall|p: Seq<u8>, h: Hand|
        is_suit_perm(p) && #[trigger] renamed_board(board, p, h) ==> !hand_less(h, c)
    &&& forall|p: Seq<u8>, h: Hand|
        is_suit_perm(p) && #[trigger] renamed_board(board, p, h) && h == c ==> perm_code(m)
            <= perm_code(p)
}

/// Convert a board to canonical form: of all the boards that renaming its suits gives,
/// the first in the order of boards (the lowest card held by one board and not the other
/// is held by the first); of the renamings that give it, the first by number, so suits
/// absent from the board take the free names in their own order. Returns the canonical
/// board and the renaming (`perm[suit] = canonical_suit`).
pub fn canonical_board(board: Hand) -> (r: (Hand, [u8; 4]))
    ensures
        is_canonical_board(board, r.0, r.1@),
{
    let mut best = board;
    let mut best_perm = [0u8, 1, 2, 3];
    let mut found = false;
    let mut code: u32 = 0;
    while code < 256
        invariant
            code <= 256,
            found ==> is_suit_perm(best_perm@) && renamed_board(board, best_perm@, best)
                && perm_code(best_perm@) < code,
            code > 27 ==> found,
            forall|p: Seq<u8>, h: Hand|
                is_suit_perm(p) && perm_code(p) < code && #[trigger] renamed_board(board, p, h)
                    ==> !hand_less(h, best),
            forall|p: Seq<u8>, h: Hand|
                is_suit_perm(p) && perm_code(p) < code && #[trigger] renamed_board(board, p, h)
                    && h == best ==> perm_code(best_perm@) <= perm_code(p),
        decreases 256 - code,
    {
        let (q, ok) = decode_perm(code);
        proof {
            if code == 27 {
                assert(q@ =~= seq![0u8, 1u8, 2u8, 3u8]);
            }
        }
        if ok {
            proof {
                lemma_perm_code(q@);
            }
            let h = relabel_board(board, &q);
            if !found || hand_lt(h, best) {
                proof {
                    assert forall|p: Seq<u8>, h2: Hand|
                        is_suit_perm(p) && perm_code(p) < code + 1 && #[trigger] renamed_board(board, p, h2)
                            implies !hand_less(h2, h) && (h2 == h ==> code <= perm_code(p)) by {
                        if perm_code(p) == code {
                            lemma_perm_code(p);
                            assert(p == q@);
                            lemma_renamed_unique(board, p, h, h2);
                            lemma_less_total(h, h, 0);
                        } else {
                            if hand_less(h2, h) {
                                lemma_less_trans(h2, h, best, 0);
                            }
                            if h2 == h {
                                lemma_less_total(h, h, 0);
                            }
                        }
                    }
                }
                best = h;
                best_perm = q;
                found = true;
            } else {
                proof {
                    assert forall|p: Seq<u8>, h2: Hand|
                        is_suit_perm(p) && perm_code(p) < code + 1 && #[trigger] renamed_board(board, p, h2)
                            implies !hand_less(h2, best) && (h2 == best ==> perm_code(best_perm@) <= perm_code(p)) by {
                        if perm_code(p) == code {
                            lemma_perm_code(p);
                            assert(p == q@);
                            lemma_renamed_unique(board, p, h, h2);
                        }
                    }
                }
            }
        } else {
            proof {
                assert forall|p: Seq<u8>| is_suit_perm(p) implies perm_code(p) != code by {
                    lemma_perm_code(p);
                }
            }
        }
        code = code + 1;
    }
    proof {
        assert forall|p: Seq<u8>, h: Hand|
            is_suit_perm(p) && #[trigger] renamed_board(board, p, h) implies !hand_less(h, best)
                && (h == best ==> perm_code(best_perm@) <= perm_code(p)) by {
            lemma_perm_code(p);
        }
    }
    (best, best_perm)
}

/// Boards that differ only by the names of their suits have one canonical form.
pub proof fn law_canonical_board_relabel(
    b: Hand,
    sigma: Seq<u8>,
    b2: Hand,
    c1: Hand,
    m1: Seq<u8>,
    c2: Hand,
    m2: Seq<u8>,
)
    requires
        is_suit_perm(sigma),
        renamed_board(b, sigma, b2),
        is_canonical_board(b, c1, m1),
        is_canonical_board(b2, c2, m2),
    ensures
        c1 == c2,
{
    lemma_renamed_compose(b, sigma, b2, m2, c2);
    assert(!hand_less(c2, c1));
    let inv = lemma_renamed_inverse(b, sigma, b2);
    lemma_renamed_compose(b2, inv, b, m1, c1);
    assert(!hand_less(c1, c2));
    lemma_less_antisym(c1, c2);
}

/// Renaming by the identity keeps a board.
proof fn lemma_renamed_identity(c: Hand)
    ensures
        is_suit_perm(seq![0u8, 1u8, 2u8, 3u8]),
        renamed_board(c, seq![0u8, 1u8, 2u8, 3u8], c),
{
    let id = seq![0u8, 1u8, 2u8, 3u8];
    assert forall|x: int| 0 <= x < 64 implies #[trigger] map_card(id, x as u8) == x by {
        assert(id[spec_suit(x as u8) as int] == spec_suit(x as u8));
    }
    assert forall|d: int| #[trigger] c.has(d) <==> exists|x: int| #[trigger] c.has(x) && d == map_card(id, x as u8) by {
        if c.has(d) {
            assert(d == map_card(id, d as u8));
        }
    }
}

/// A canonical board is its own canonical form, renamed by the identity.
pub proof fn law_canonical_board_fixed_point(b: Hand, c: Hand, m: Seq<u8>, c2: Hand, m2: Seq<u8>)
    requires
        is_canonical_board(b, c, m),
        is_canonical_board(c, c2, m2),
    ensures
        c2 == c,
        m2 == seq![0u8, 1u8, 2u8, 3u8],
{
    law_canonical_board_relabel(b, m, c, c, m, c2, m2);
    let id = seq![0u8, 1u8, 2u8, 3u8];
    lemma_renamed_identity(c);
    assert(perm_code(m2) <= perm_code(id));
    lemma_identity_first(m2);
}

// ---------------------------------------------------------------------------
// Postflop canonical observation key
// ---------------------------------------------------------------------------

pub open spec fn pow256(n: nat) -> int
    decreases n,
{
    if n == 0 {
        1
    } else {
        256 * pow256((n - 1) as nat)
    }
}

/// Number of suits that already carry a label (255 = no label yet).
pub open spec fn count_labeled(m: Seq<u8>) -> int {
    (if m[0] != 255 { 1int } else { 0int }) + (if m[1] != 255 { 1int } else { 0int }) + (if m[2]
        != 255 { 1int } else { 0int }) + (if m[3] != 255 { 1int } else { 0int })
}

/// Suit labels given in order of first appearance along `cards`: the first suit seen
/// gets 0, the next new suit 1, and so on; suits never seen keep 255.
pub open spec fn first_labels(cards: Seq<u8>) -> Seq<u8>
    decreases cards.len(),
{
    if cards.len() == 0 {
        seq![255u8, 255u8, 255u8, 255u8]
    } else {
        let m = first_labels(cards.drop_last());
        let s = spec_suit(cards.last()) as int;
        if m[s] == 255 {
            m.update(s, count_labeled(m) as u8)
        } else {
            m
        }
    }
}

/// A partial labelling: length 4, each label below the number of labelled suits, no label
/// twice.
pub open spec fn labels_ok(m: Seq<u8>) -> bool {
    &&& m.len() == 4
    &&& forall|s: int| 0 <= s < 4 ==> m[s] == 255 || m[s] < count_labeled(m)
    &&& forall|s: int, t: int| 0 <= s < 4 && 0 <= t < 4 && s != t && m[s] != 255 ==> m[s] != m[t]
}

proof fn lemma_label_step(m: Seq<u8>, s: int)
    requires
        labels_ok(m),
        0 <= s < 4,
        m[s] == 255,
    ensures
        count_labeled(m) < 4,
        labels_ok(m.update(s, count_labeled(m) as u8)),
        count_labeled(m.update(s, count_labeled(m) as u8)) == count_labeled(m) + 1,
{
}

proof fn lemma_first_labels(cards: Seq<u8>)
    ensures
        labels_ok(first_labels(cards)),
        forall|i: int|
            0 <= i < cards.len() ==> first_labels(cards)[spec_suit(#[trigger] cards[i]) as int]
                != 255,
    decreases cards.len(),
{
    if cards.len() > 0 {
        let prev = cards.drop_last();
        lemma_first_labels(prev);
        let m = first_labels(prev);
        let s = spec_suit(cards.last()) as int;
        if m[s] == 255 {
            lemma_label_step(m, s);
        }
        assert forall|i: int| 0 <= i < cards.len() implies first_labels(cards)[spec_suit(
            #[trigger] cards[i],
        ) as int] != 255 by {
            if i < cards.len() - 1 {
                assert(cards[i] == prev[i]);
            }
        }
    }
}

/// Code of a card after renaming its suit by `m`: `rank * 4 + m[suit]`.
pub open spec fn relabelled_code(m: Seq<u8>, c: u8) -> int {
    spec_rank(c) * 4 + m[spec_suit(c) as int]
}

/// The key of the first `n` cards with suits renamed by `m`: card `i` in byte `i`.
pub open spec fn observation_key(cards: Seq<u8>, m: Seq<u8>, n: nat) -> int
    decreases n,
{
    if n == 0 {
        0
    } else {
        observation_key(cards, m, (n - 1) as nat) + relabelled_code(m, cards[n - 1]) * pow256(
            (n - 1) as nat,
        )
    }
}

/// The key of a hole and a board: the hole cards then the board cards, each ascending;
/// suits renamed 0, 1, ... in order of first appearance along that list; card `i` of the
/// list stored as `rank * 4 + renamed_suit` in byte `i`.
pub open spec fn hands_key(hole: Hand, board: Hand) -> int {
    let all = hole.spec_cards() + board.spec_cards();
    observation_key(all, first_labels(all), all.len())
}

proof fn lemma_key_bound(cards: Seq<u8>, m: Seq<u8>, n: nat)
    requires
        n <= cards.len(),
        m.len() == 4,
        forall|i: int| 0 <= i < cards.len() ==> #[trigger] cards[i] < 64,
        forall|i: int| 0 <= i < cards.len() ==> m[spec_suit(#[trigger] cards[i]) as int] < 4,
    ensures
        0 <= observation_key(cards, m, n),
        4 * observation_key(cards, m, n) < pow256(n),
        pow256(n) > 0,
    decreases n,
{
    if n > 0 {
        lemma_key_bound(cards, m, (n - 1) as nat);
        let c = relabelled_code(m, cards[n - 1]);
        let p = pow256((n - 1) as nat);
        assert(0 <= c < 64);
        assert(4 * c * p <= 252 * p) by (nonlinear_arith)
            requires
                0 <= c < 64,
                p > 0,
        ;
        assert(c * p >= 0) by (nonlinear_arith)
            requires
                0 <= c,
                p > 0,
        ;
        assert(pow256(n) == 256 * p);
        assert(observation_key(cards, m, n) == observation_key(cards, m, (n - 1) as nat) + c * p);
        assert(4 * (c * p) == 4 * c * p) by (nonlinear_arith);
    }
}

/// The key of a hole and a board of at most eight cards in all.
fn key_of_hands(hole: Hand, board: Hand) -> (key: i64)
    requires
        hole.spec_cards().len() + board.spec_cards().len() <= 8,
    ensures
        key == hands_key(hole, board),
{
    let mut cards = hole.cards();
    let mut board_cards = board.cards();
    cards.append(&mut board_cards);
    let ghost all = hole.spec_cards() + board.spec_cards();
    proof {
        assert(cards@ =~= all);
        crate::card::lemma_cards_below(hole, 64);
        crate::card::lemma_cards_below(board, 64);
        assert forall|i: int| 0 <= i < all.len() implies #[trigger] all[i] < 64 by {
            if i < hole.spec_cards().len() {
                assert(all[i] == hole.spec_cards()[i]);
            } else {
                assert(all[i] == board.spec_cards()[i - hole.spec_cards().len()]);
            }
        }
    }
    // suits numbered in order of first appearance
    let mut suit_map = [255u8; 4];
    let mut next_suit: u8 = 0;
    let mut i: usize = 0;
    proof {
        assert(cards@.take(0) =~= Seq::<u8>::empty());
    }
    while i < cards.len()
        invariant
            i <= cards.len(),
            cards@ == all,
            suit_map@ == first_labels(cards@.take(i as int)),
            labels_ok(suit_map@),
            next_suit == count_labeled(suit_map@),
        decreases cards.len() - i,
    {
        let s = suit(cards[i]) as usize;
        proof {
            assert(cards@.take(i + 1).drop_last() =~= cards@.take(i as int));
            assert(cards@.take(i + 1).last() == cards@[i as int]);
        }
        if suit_map[s] == 255 {
            proof {
                lemma_label_step(suit_map@, s as int);
            }
            suit_map[s] = next_suit;
            next_suit = next_suit + 1;
        }
        i = i + 1;
    }
    proof {
        assert(cards@.take(i as int) =~= cards@);
        lemma_first_labels(all);
    }
    let mut key: u64 = 0;
    let mut place: u64 = 1;
    let mut j: usize = 0;
    while j < cards.len()
        invariant
            j <= cards.len() <= 8,
            cards@ == all,
            forall|i: int| 0 <= i < all.len() ==> #[trigger] all[i] < 64,
            suit_map@ == first_labels(all),
            labels_ok(suit_map@),
            forall|i: int|
                0 <= i < all.len() ==> suit_map@[spec_suit(#[trigger] all[i]) as int] != 255,
            key == observation_key(all, suit_map@, j as nat),
            j < cards.len() ==> place == pow256(j as nat),
            place <= 0x0100_0000_0000_0000,
        decreases cards.len() - j,
    {
        let c = cards[j];
        let code = rank(c) * 4 + suit_map[suit(c) as usize];
        proof {
            assert(suit_map@[spec_suit(all[j as int]) as int] < 4);
            assert(code == relabelled_code(suit_map@, c));
            assert(code < 64);
            assert((code as u64) * place <= 63 * 0x0100_0000_0000_0000) by (nonlinear_arith)
                requires
                    code < 64,
                    place <= 0x0100_0000_0000_0000,
            ;
            lemma_key_bound(all, suit_map@, j as nat);
        }
        key = key + (code as u64) * place;
        if j + 1 < cards.len() {
            proof {
                if j >= 7 {
                    assert(false);
                }
                lemma_pow256_small(j as nat);
            }
            place = place * 256;
        }
        j = j + 1;
    }
    proof {
        lemma_key_bound(all, suit_map@, j as nat);
        assert(all.len() <= 8);
        lemma_pow256_mono(j as nat, 8);
        lemma_pow256_small(7);
    }
    key as i64
}

/// `key` is the canonical observation key of `hole` on `board`: of the keys of the hole
/// and board under the renamings of the suits, the least.
pub open spec fn is_canonical_key(hole: Hand, board: Hand, key: int) -> bool {
    &&& exists|p: Seq<u8>, h: Hand, b: Hand|
        #![trigger renamed_board(hole, p, h), renamed_board(board, p, b)]
        is_suit_perm(p) && renamed_board(hole, p, h) && renamed_board(board, p, b) && key
            == hands_key(h, b)
    &&& forall|p: Seq<u8>, h: Hand, b: Hand|
        #![trigger renamed_board(hole, p, h), renamed_board(board, p, b)]
        is_suit_perm(p) && renamed_board(hole, p, h) && renamed_board(board, p, b) ==> key
            <= hands_key(h, b)
}

/// Canonical observation key for postflop equity tables, suit-isomorphic: the hole cards
/// then the board cards, each ascending; suits renamed 0, 1, ... in order of first
/// appearance along that list; card `i` of the list stored as `rank * 4 + renamed_suit`
/// in byte `i` of the key. Where cards of one rank make that list depend on the suits'
/// names, the key is the least that renaming the suits gives, so every renaming of the
/// same hole and board gets one key. The list holds at most eight cards (a ninth would
/// shift past the key's width).
pub fn canonical_observation(hole: Hand, board: Hand) -> (key: i64)
    requires
        hole.spec_cards().len() + board.spec_cards().len() <= 8,
    ensures
        is_canonical_key(hole, board, key as int),
{
    let mut best: i64 = 0;
    let mut found = false;
    let ghost mut wp: Seq<u8> = seq![0u8, 1u8, 2u8, 3u8];
    let ghost mut wh: Hand = hole;
    let ghost mut wb: Hand = board;
    let mut code: u32 = 0;
    while code < 256
        invariant
            code <= 256,
            hole.spec_cards().len() + board.spec_cards().len() <= 8,
            found ==> is_suit_perm(wp) && renamed_board(hole, wp, wh) && renamed_board(board, wp, wb)
                && best == hands_key(wh, wb),
            code > 27 ==> found,
            forall|p: Seq<u8>, h: Hand, b: Hand|
                #![trigger renamed_board(hole, p, h), renamed_board(board, p, b)]
                is_suit_perm(p) && perm_code(p) < code && renamed_board(hole, p, h)
                    && renamed_board(board, p, b) ==> best <= hands_key(h, b),
        decreases 256 - code,
    {
        let (q, ok) = decode_perm(code);
        proof {
            if code == 27 {
                assert(q@ =~= seq![0u8, 1u8, 2u8, 3u8]);
            }
        }
        if ok {
            proof {
                lemma_perm_code(q@);
            }
            let h = relabel_board(hole, &q);
            let b = relabel_board(board, &q);
            proof {
                law_renaming_keeps_card_count(hole, q@, h);
                law_renaming_keeps_card_count(board, q@, b);
            }
            let k = key_of_hands(h, b);
            let ghost old_best = best;
            if !found || k < best {
                best = k;
                found = true;
                proof {
                    wp = q@;
                    wh = h;
                    wb = b;
                }
            }
            proof {
                assert forall|p: Seq<u8>, h2: Hand, b2: Hand|
                    #![trigger renamed_board(hole, p, h2), renamed_board(board, p, b2)]
                    is_suit_perm(p) && perm_code(p) < code + 1 && renamed_board(hole, p, h2)
                        && renamed_board(board, p, b2) implies best <= hands_key(h2, b2) by {
                    if perm_code(p) == code {
                        lemma_perm_code(p);
                        assert(p == q@);
                        lemma_renamed_unique(hole, p, h, h2);
                        lemma_renamed_unique(board, p, b, b2);
                    }
                }
            }
        } else {
            proof {
                assert forall|p: Seq<u8>| is_suit_perm(p) implies perm_code(p) != code by {
                    lemma_perm_code(p);
                }
            }
        }
        code = code + 1;
    }
    proof {
        assert forall|p: Seq<u8>, h: Hand, b: Hand|
            #![trigger renamed_board(hole, p, h), renamed_board(board, p, b)]
            is_suit_perm(p) && renamed_board(hole, p, h) && renamed_board(board, p, b) implies best
                <= hands_key(h, b) by {
            lemma_perm_code(p);
        }
    }
    best
}

/// The cards of `l`, each renamed by `p`.
pub open spec fn renamed_list(l: Seq<u8>, p: Seq<u8>) -> Seq<u8> {
    l.map_values(|c: u8| map_card(p, c))
}

/// No two cards of `h` share a rank.
pub open spec fn ranks_distinct(h: Hand) -> bool {
    forall|c: int, d: int| h.has(c) && h.has(d) && c != d ==> spec_rank(c as u8) != spec_rank(d as u8)
}

pub open spec fn increasing(a: Seq<u8>) -> bool {
    forall|i: int, j: int| 0 <= i < j < a.len() ==> a[i] < a[j]
}

/// Two increasing lists with the same members are equal.
proof fn lemma_sorted_unique(a: Seq<u8>, b: Seq<u8>)
    requires
        increasing(a),
        increasing(b),
        forall|x: u8| a.contains(x) <==> b.contains(x),
    ensures
        a == b,
    decreases a.len(),
{
    if a.len() == 0 {
        if b.len() > 0 {
            assert(b.contains(b[0]));
        }
        assert(a =~= b);
    } else if b.len() == 0 {
        assert(a.contains(a[0]));
    } else {
        assert(a.contains(a[0]));
        assert(b.contains(b[0]));
        let j = choose|j: int| 0 <= j < b.len() && b[j] == a[0];
        let i = choose|i: int| 0 <= i < a.len() && a[i] == b[0];
        assert(a[0] == b[0]);
        let a1 = a.drop_first();
        let b1 = b.drop_first();
        assert forall|x: u8| a1.contains(x) <==> b1.contains(x) by {
            if a1.contains(x) {
                let k = choose|k: int| 0 <= k < a1.len() && a1[k] == x;
                assert(a[k + 1] == x);
                assert(a.contains(x));
                let m = choose|m: int| 0 <= m < b.len() && b[m] == x;
                assert(m != 0);
                assert(b1[m - 1] == x);
            }
            if b1.contains(x) {
                let k = choose|k: int| 0 <= k < b1.len() && b1[k] == x;
                assert(b[k + 1] == x);
                assert(b.contains(x));
                let m = choose|m: int| 0 <= m < a.len() && a[m] == x;
                assert(m != 0);
                assert(a1[m - 1] == x);
            }
        }
        lemma_sorted_unique(a1, b1);
        assert(a =~= seq![a[0]] + a1);
        assert(b =~= seq![b[0]] + b1);
    }
}

/// A hand with no two cards of one rank, renamed: its cards in order are its own cards
/// renamed, in the same order.
proof fn lemma_renamed_cards(h: Hand, p: Seq<u8>, r: Hand)
    requires
        is_suit_perm(p),
        ranks_distinct(h),
        renamed_board(h, p, r),
    ensures
        r.spec_cards() == renamed_list(h.spec_cards(), p),
{
    crate::card::lemma_cards_below(h, 64);
    crate::card::lemma_cards_below(r, 64);
    let l = h.spec_cards();
    let m = renamed_list(l, p);
    assert forall|i: int, j: int| 0 <= i < j < m.len() implies m[i] < m[j] by {
        assert(h.has(l[i] as int) && h.has(l[j] as int));
        assert(spec_rank(l[i]) != spec_rank(l[j]));
        assert(spec_rank(l[i]) < spec_rank(l[j]));
        lemma_map_card_any(p, l[i]);
        lemma_map_card_any(p, l[j]);
    }
    assert forall|x: u8| r.spec_cards().contains(x) <==> m.contains(x) by {
        if r.spec_cards().contains(x) {
            let k = choose|k: int| 0 <= k < r.spec_cards().len() && r.spec_cards()[k] == x;
            assert(r.has(x as int));
            let y = choose|y: int| #[trigger] h.has(y) && x as int == map_card(p, y as u8);
            assert(l.contains(y as u8));
            let ky = choose|ky: int| 0 <= ky < l.len() && l[ky] == y as u8;
            assert(m[ky] == x);
        }
        if m.contains(x) {
            let k = choose|k: int| 0 <= k < m.len() && m[k] == x;
            assert(h.has(l[k] as int));
            lemma_map_card_any(p, l[k]);
            assert(r.has(x as int));
        }
    }
    lemma_sorted_unique(r.spec_cards(), m);
}

/// First-appearance labels of a renamed list are the labels of the list, carried over by
/// the renaming.
proof fn lemma_first_labels_renamed(l: Seq<u8>, p: Seq<u8>)
    requires
        is_suit_perm(p),
        forall|i: int| 0 <= i < l.len() ==> #[trigger] l[i] < 64,
    ensures
        forall|s: int| 0 <= s < 4 ==> #[trigger] first_labels(renamed_list(l, p))[p[s] as int]
            == first_labels(l)[s],
        count_labeled(first_labels(renamed_list(l, p))) == count_labeled(first_labels(l)),
        first_labels(renamed_list(l, p)).len() == 4,
    decreases l.len(),
{
    let ml = renamed_list(l, p);
    lemma_first_labels(l);
    lemma_first_labels(ml);
    if l.len() > 0 {
        let prev = l.drop_last();
        let mprev = renamed_list(prev, p);
        lemma_first_labels_renamed(prev, p);
        lemma_first_labels(prev);
        lemma_first_labels(mprev);
        assert(ml.drop_last() =~= mprev);
        lemma_map_card_any(p, l.last());
        assert(ml.last() == map_card(p, l.last()));
        let m = first_labels(prev);
        let m2 = first_labels(mprev);
        let s0 = spec_suit(l.last()) as int;
        let t0 = p[s0] as int;
        assert(spec_suit(ml.last()) as int == t0);
        assert(m2[t0] == m[s0]);
        if m[s0] == 255 {
            lemma_label_step(m, s0);
            lemma_label_step(m2, t0);
            assert(first_labels(l) == m.update(s0, count_labeled(m) as u8));
            assert(first_labels(ml) == m2.update(t0, count_labeled(m2) as u8));
        } else {
            assert(first_labels(l) == m);
            assert(first_labels(ml) == m2);
        }
        assert forall|s: int| 0 <= s < 4 implies #[trigger] first_labels(ml)[p[s] as int] == first_labels(l)[s] by {
            if s != s0 {
                assert(p[s] != p[s0]);
            }
        }
    } else {
        assert(first_labels(l) == seq![255u8, 255u8, 255u8, 255u8]);
        assert(first_labels(ml) == seq![255u8, 255u8, 255u8, 255u8]);
    }
}

/// A renamed list keeps its key when its suits are numbered by first appearance.
proof fn lemma_key_renamed(l: Seq<u8>, p: Seq<u8>, n: nat)
    requires
        is_suit_perm(p),
        n <= l.len(),
        forall|i: int| 0 <= i < l.len() ==> #[trigger] l[i] < 64,
    ensures
        observation_key(
            renamed_list(l, p),
            first_labels(renamed_list(l, p)),
            n,
        ) == observation_key(l, first_labels(l), n),
    decreases n,
{
    lemma_first_labels_renamed(l, p);
    if n > 0 {
        lemma_key_renamed(l, p, (n - 1) as nat);
        let c = l[n - 1];
        lemma_map_card_any(p, c);
    }
}

/// Where neither the hole nor the board holds two cards of one rank, the canonical key is
/// the key of the hole and board as they are: suits numbered by first appearance.
pub proof fn law_canonical_observation_first_appearance(hole: Hand, board: Hand, key: int)
    requires
        ranks_distinct(hole),
        ranks_distinct(board),
        is_canonical_key(hole, board, key),
    ensures
        key == hands_key(hole, board),
{
    let (p, h, b) = choose|p: Seq<u8>, h: Hand, b: Hand|
        #![trigger renamed_board(hole, p, h), renamed_board(board, p, b)]
        is_suit_perm(p) && renamed_board(hole, p, h) && renamed_board(board, p, b) && key
            == hands_key(h, b);
    lemma_renamed_cards(hole, p, h);
    lemma_renamed_cards(board, p, b);
    crate::card::lemma_cards_below(hole, 64);
    crate::card::lemma_cards_below(board, 64);
    let all = hole.spec_cards() + board.spec_cards();
    assert forall|i: int| 0 <= i < all.len() implies #[trigger] all[i] < 64 by {
        if i < hole.spec_cards().len() {
            assert(all[i] == hole.spec_cards()[i]);
        } else {
            assert(all[i] == board.spec_cards()[i - hole.spec_cards().len()]);
        }
    }
    assert(h.spec_cards() + b.spec_cards() =~= renamed_list(all, p));
    lemma_key_renamed(all, p, all.len());
}

/// Renaming the suits of a hole and a board alike leaves their canonical observation
/// key unchanged.
pub proof fn law_canonical_observation_relabel(
    hole: Hand,
    board: Hand,
    sigma: Seq<u8>,
    hole2: Hand,
    board2: Hand,
    k1: int,
    k2: int,
)
    requires
        is_suit_perm(sigma),
        renamed_board(hole, sigma, hole2),
        renamed_board(board, sigma, board2),
        is_canonical_key(hole, board, k1),
        is_canonical_key(hole2, board2, k2),
    ensures
        k1 == k2,
{
    let (p2, h2, b2) = choose|p: Seq<u8>, h: Hand, b: Hand|
        #![trigger renamed_board(hole2, p, h), renamed_board(board2, p, b)]
        is_suit_perm(p) && renamed_board(hole2, p, h) && renamed_board(board2, p, b) && k2
            == hands_key(h, b);
    lemma_renamed_compose(hole, sigma, hole2, p2, h2);
    lemma_renamed_compose(board, sigma, board2, p2, b2);
    assert(k1 <= k2);
    let (p1, h1, b1) = choose|p: Seq<u8>, h: Hand, b: Hand|
        #![trigger renamed_board(hole, p, h), renamed_board(board, p, b)]
        is_suit_perm(p) && renamed_board(hole, p, h) && renamed_board(board, p, b) && k1
            == hands_key(h, b);
    let inv_h = lemma_renamed_inverse(hole, sigma, hole2);
    let inv_b = lemma_renamed_inverse(board, sigma, board2);
    lemma_renamed_compose(hole2, inv_h, hole, p1, h1);
    lemma_renamed_compose(board2, inv_h, board, p1, b1);
    assert(k2 <= k1);
}

proof fn lemma_pow256_mono(a: nat, b: nat)
    requires
        a <= b,
    ensures
        pow256(a) <= pow256(b),
    decreases b - a,
{
    if a < b {
        lemma_pow256_mono(a, (b - 1) as nat);
        lemma_pow256_pos((b - 1) as nat);
    }
}

proof fn lemma_pow256_pos(n: nat)
    ensures
        pow256(n) > 0,
    decreases n,
{
    if n > 0 {
        lemma_pow256_pos((n - 1) as nat);
    }
}

proof fn lemma_pow256_small(n: nat)
    requires
        n <= 7,
    ensures
        pow256(n) <= 0x0100_0000_0000_0000,
        pow256(n + 1) <= 0x0100_0000_0000_0000 || n == 7,
        pow256(n + 1) <= 0x1_0000_0000_0000_0000,
{
    assert(pow256(0) == 1);
    assert(pow256(1) == 256);
    assert(pow256(2) == 65536);
    assert(pow256(3) == 0x100_0000);
    assert(pow256(4) == 0x1_0000_0000);
    assert(pow256(5) == 0x100_0000_0000);
    assert(pow256(6) == 0x1_0000_0000_0000);
    assert(pow256(7) == 0x100_0000_0000_0000);
    assert(pow256(8) == 0x1_0000_0000_0000_0000);
}


// ---------------------------------------------------------------------------
// Arrangements of a list of distinct values
// ---------------------------------------------------------------------------

pub open spec fn no_dup(s: Seq<u8>) -> bool {
    forall|i: int, j: int| 0 <= i < j < s.len() ==> s[i] != s[j]
}

/// `p` lists the distinct values of `items` in some order.
pub open spec fn is_arrangement(p: Seq<u8>, items: Seq<u8>) -> bool {
    &&& p.len() == items.len()
    &&& no_dup(p)
    &&& forall|i: int| 0 <= i < p.len() ==> items.contains(#[trigger] p[i])
}

proof fn lemma_remove_facts(items: Seq<u8>, i: int)
    requires
        no_dup(items),
        0 <= i < items.len(),
    ensures
        no_dup(items.remove(i)),
        forall|x: u8| #[trigger]
            items.remove(i).contains(x) <==> (items.contains(x) && x != items[i]),
{
    let r = items.remove(i);
    assert forall|a: int, b: int| 0 <= a < b < r.len() implies r[a] != r[b] by {
        let ia = if a < i { a } else { a + 1 };
        let ib = if b < i { b } else { b + 1 };
        assert(r[a] == items[ia] && r[b] == items[ib]);
    }
    assert forall|x: u8| #[trigger] r.contains(x) <==> (items.contains(x) && x != items[i]) by {
        if r.contains(x) {
            let k = choose|k: int| 0 <= k < r.len() && r[k] == x;
            let ik = if k < i { k } else { k + 1 };
            assert(items[ik] == x);
        }
        if items.contains(x) && x != items[i] {
            let k = choose|k: int| 0 <= k < items.len() && items[k] == x;
            if k < i {
                assert(r[k] == x);
            } else {
                assert(k != i);
                assert(r[k - 1] == x);
            }
        }
    }
}

fn copy_bytes(v: &Vec<u8>) -> (r: Vec<u8>)
    ensures
        r@ == v@,
{
    let mut r: Vec<u8> = Vec::new();
    let mut i: usize = 0;
    while i < v.len()
        invariant
            i <= v.len(),
            r@ == v@.take(i as int),
        decreases v.len() - i,
    {
        r.push(v[i]);
        i = i + 1;
        proof {
            assert(r@ =~= v@.take(i as int));
        }
    }
    proof {
        assert(v@.take(i as int) =~= v@);
    }
    r
}

/// All arrangements of `items` (distinct values): for each position `i` in turn,
/// `items[i]` followed by each arrangement of the other values.
fn permutations(items: &Vec<u8>) -> (result: Vec<Vec<u8>>)
    requires
        no_dup(items@),
    ensures
        forall|k: int| 0 <= k < result.len() ==> is_arrangement(#[trigger] result@[k]@, items@),
        forall|p: Seq<u8>|
            is_arrangement(p, items@) ==> exists|k: int|
                0 <= k < result.len() && #[trigger] result@[k]@ == p,
        forall|k1: int, k2: int| 0 <= k1 < k2 < result.len() ==> result@[k1]@ != result@[k2]@,
    decreases items.len(),
{
    if items.len() <= 1 {
        let mut result: Vec<Vec<u8>> = Vec::new();
        result.push(copy_bytes(items));
        proof {
            assert forall|p: Seq<u8>| is_arrangement(p, items@) implies exists|k: int|
                0 <= k < result.len() && #[trigger] result@[k]@ == p by {
                if items.len() == 1 {
                    assert(items@.contains(p[0]));
                }
                assert(p =~= items@);
                assert(result@[0]@ == p);
            }
        }
        return result;
    }
    let n = items.len();
    let mut result: Vec<Vec<u8>> = Vec::new();
    let mut i: usize = 0;
    while i < n
        invariant
            n == items.len(),
            n >= 2,
            i <= n,
            no_dup(items@),
            forall|k: int|
                0 <= k < result.len() ==> is_arrangement(#[trigger] result@[k]@, items@) && exists|
                    i2: int,
                | 0 <= i2 < i && result@[k]@[0] == items@[i2],
            forall|p: Seq<u8>|
                is_arrangement(p, items@) && (exists|i2: int| 0 <= i2 < i && p[0] == items@[i2])
                    ==> exists|k: int| 0 <= k < result.len() && #[trigger] result@[k]@ == p,
            forall|k1: int, k2: int|
                0 <= k1 < k2 < result.len() ==> result@[k1]@ != result@[k2]@,
        decreases n - i,
    {
        let item = items[i];
        let mut rest: Vec<u8> = Vec::new();
        let mut j: usize = 0;
        while j < n
            invariant
                n == items.len(),
                i < n,
                j <= n,
                rest@ == (if j <= i {
                    items@.subrange(0, j as int)
                } else {
                    items@.subrange(0, i as int) + items@.subrange(i + 1, j as int)
                }),
            decreases n - j,
        {
            if j != i {
                rest.push(items[j]);
            }
            j = j + 1;
            proof {
                if j <= i {
                    assert(rest@ =~= items@.subrange(0, j as int));
                } else {
                    assert(rest@ =~= items@.subrange(0, i as int) + items@.subrange(
                        i + 1,
                        j as int,
                    ));
                }
            }
        }
        proof {
            assert(rest@ =~= items@.remove(i as int));
            lemma_remove_facts(items@, i as int);
        }
        let subs = permutations(&rest);
        let ghost before = result@;
        let mut j2: usize = 0;
        while j2 < subs.len()
            invariant
                n == items.len(),
                n >= 2,
                i < n,
                item == items@[i as int],
                no_dup(items@),
                rest@ == items@.remove(i as int),
                no_dup(rest@),
                forall|x: u8| #[trigger] rest@.contains(x) <==> (items@.contains(x) && x != item),
                forall|k: int| 0 <= k < subs.len() ==> is_arrangement(#[trigger] subs@[k]@, rest@),
                forall|p: Seq<u8>|
                    is_arrangement(p, rest@) ==> exists|k: int|
                        0 <= k < subs.len() && #[trigger] subs@[k]@ == p,
                forall|k1: int, k2: int|
                    0 <= k1 < k2 < subs.len() ==> subs@[k1]@ != subs@[k2]@,
                j2 <= subs.len(),
                result@.len() == before.len() + j2,
                forall|k: int| 0 <= k < before.len() ==> result@[k] == before[k],
                forall|k: int|
                    0 <= k < before.len() ==> is_arrangement(#[trigger] before[k]@, items@)
                        && exists|i2: int| 0 <= i2 < i && before[k]@[0] == items@[i2],
                forall|k1: int, k2: int|
                    0 <= k1 < k2 < before.len() ==> before[k1]@ != before[k2]@,
                forall|k: int|
                    0 <= k < j2 ==> #[trigger] result@[before.len() + k]@ == seq![item]
                        + subs@[k]@,
            decreases subs.len() - j2,
        {
            let mut sub = copy_bytes(&subs[j2]);
            sub.insert(0, item);
            proof {
                assert(sub@ =~= seq![item] + subs@[j2 as int]@);
            }
            result.push(sub);
            j2 = j2 + 1;
        }
        proof {
            // new entries are arrangements starting with items[i]
            assert forall|k: int| 0 <= k < j2 implies is_arrangement(
                #[trigger] result@[before.len() + k]@,
                items@,
            ) by {
                let q = subs@[k]@;
                let p = result@[before.len() + k]@;
                assert(p == seq![item] + q);
                assert(is_arrangement(q, rest@));
                assert forall|a: int, b: int| 0 <= a < b < p.len() implies p[a] != p[b] by {
                    if a == 0 {
                        assert(rest@.contains(q[b - 1]));
                    } else {
                        assert(p[a] == q[a - 1] && p[b] == q[b - 1]);
                    }
                }
                assert forall|a: int| 0 <= a < p.len() implies items@.contains(#[trigger] p[a]) by {
                    if a == 0 {
                        assert(items@[i as int] == item);
                    } else {
                        assert(p[a] == q[a - 1]);
                        assert(rest@.contains(q[a - 1]));
                    }
                }
            }
            assert forall|k: int| 0 <= k < result.len() implies is_arrangement(
                #[trigger] result@[k]@,
                items@,
            ) && exists|i2: int| 0 <= i2 < i + 1 && result@[k]@[0] == items@[i2] by {
                if k < before.len() {
                    assert(result@[k] == before[k]);
                } else {
                    let kk = k - before.len();
                    assert(result@[before.len() + kk]@ == seq![item] + subs@[kk]@);
                    assert(result@[k]@[0] == items@[i as int]);
                }
            }
            assert forall|p: Seq<u8>|
                is_arrangement(p, items@) && (exists|i2: int| 0 <= i2 < i + 1 && p[0] == items@[i2])
                    implies exists|k: int| 0 <= k < result.len() && #[trigger] result@[k]@ == p by {
                let i2 = choose|i2: int| 0 <= i2 < i + 1 && p[0] == items@[i2];
                if i2 < i {
                    let k = choose|k: int| 0 <= k < before.len() && #[trigger] before[k]@ == p;
                    assert(result@[k] == before[k]);
                } else {
                    let q = p.drop_first();
                    assert forall|a: int, b: int| 0 <= a < b < q.len() implies q[a] != q[b] by {
                        assert(q[a] == p[a + 1] && q[b] == p[b + 1]);
                    }
                    assert forall|a: int| 0 <= a < q.len() implies rest@.contains(#[trigger] q[a]) by {
                        assert(q[a] == p[a + 1]);
                        assert(items@.contains(p[a + 1]));
                        assert(p[0] != p[a + 1]);
                    }
                    assert(is_arrangement(q, rest@));
                    let k = choose|k: int| 0 <= k < subs.len() && #[trigger] subs@[k]@ == q;
                    assert(result@[before.len() + k]@ == seq![item] + subs@[k]@);
                    assert(seq![item] + q =~= p);
                }
            }
            assert forall|k1: int, k2: int| 0 <= k1 < k2 < result.len() implies result@[k1]@
                != result@[k2]@ by {
                if k2 < before.len() {
                    assert(result@[k1] == before[k1]);
                    assert(result@[k2] == before[k2]);
                } else if k1 < before.len() {
                    assert(result@[k1] == before[k1]);
                    let i2 = choose|i2: int| 0 <= i2 < i && before[k1]@[0] == items@[i2];
                    let kk = k2 - before.len();
                    assert(result@[before.len() + kk]@ == seq![item] + subs@[kk]@);
                    assert(result@[k2]@[0] == items@[i as int]);
                } else {
                    let a = k1 - before.len();
                    let b = k2 - before.len();
                    assert(result@[before.len() + a]@ == seq![item] + subs@[a]@);
                    assert(result@[before.len() + b]@ == seq![item] + subs@[b]@);
                    if result@[k1]@ == result@[k2]@ {
                        assert(subs@[a]@ =~= result@[k1]@.drop_first());
                        assert(subs@[b]@ =~= result@[k2]@.drop_first());
                    }
                }
            }
        }
        i = i + 1;
    }
    proof {
        assert forall|p: Seq<u8>| is_arrangement(p, items@) implies exists|k: int|
            0 <= k < result.len() && #[trigger] result@[k]@ == p by {
            assert(items@.contains(p[0]));
            let i2 = choose|i2: int| 0 <= i2 < items@.len() && items@[i2] == p[0];
            assert(exists|i3: int| 0 <= i3 < n && p[0] == items@[i3]);
        }
    }
    result
}


// ---------------------------------------------------------------------------
// Board-preserving suit permutations
// ---------------------------------------------------------------------------

/// Bits `0..n` of the rank mask of suit `s` on the board: bit `r` set iff card `r * 4 + s` is on it.
pub open spec fn mask_upto(board: Hand, s: int, n: int) -> u16
    decreases n,
{
    if n <= 0 {
        0u16
    } else {
        mask_upto(board, s, n - 1) | (if board.has((n - 1) * 4 + s) {
            1u16 << ((n - 1) as u16)
        } else {
            0u16
        })
    }
}

/// The rank bitmask of suit `s` on the board.
pub open spec fn suit_mask(board: Hand, s: int) -> u16 {
    mask_upto(board, s, 16)
}

/// `p` maps every suit to a suit with the same rank bitmask on the board.
pub open spec fn preserves_masks(board: Hand, p: Seq<u8>) -> bool {
    forall|s: int| 0 <= s < 4 ==> suit_mask(board, p[s] as int) == suit_mask(board, s)
}

pub open spec fn is_identity(p: Seq<u8>) -> bool {
    forall|s: int| 0 <= s < 4 ==> p[s] == s
}

/// The suit permutations this module enumerates for a board: permutations of the four
/// suits that keep each suit's rank bitmask, other than the identity.
pub open spec fn is_board_symmetry(board: Hand, p: Seq<u8>) -> bool {
    &&& is_suit_perm(p)
    &&& preserves_masks(board, p)
    &&& !is_identity(p)
}

/// `base` with position `group[i]` set to `gp[i]` for `i < n`, in that order.
pub open spec fn overwrite(base: Seq<u8>, group: Seq<u8>, gp: Seq<u8>, n: int) -> Seq<u8>
    decreases n,
{
    if n <= 0 {
        base
    } else {
        overwrite(base, group, gp, n - 1).update(group[n - 1] as int, gp[n - 1])
    }
}

proof fn lemma_overwrite(base: Seq<u8>, group: Seq<u8>, gp: Seq<u8>, n: int)
    requires
        base.len() == 4,
        0 <= n <= group.len(),
        n <= gp.len(),
        no_dup(group),
        forall|i: int| 0 <= i < group.len() ==> group[i] < 4,
    ensures
        overwrite(base, group, gp, n).len() == 4,
        forall|i: int|
            0 <= i < n ==> #[trigger] overwrite(base, group, gp, n)[group[i] as int] == gp[i],
        forall|t: int|
            0 <= t < 4 && !group.subrange(0, n).contains(t as u8) ==> #[trigger] overwrite(
                base,
                group,
                gp,
                n,
            )[t] == base[t],
    decreases n,
{
    if n > 0 {
        lemma_overwrite(base, group, gp, n - 1);
        let prev = overwrite(base, group, gp, n - 1);
        assert forall|t: int|
            0 <= t < 4 && !group.subrange(0, n).contains(t as u8) implies #[trigger] overwrite(
            base,
            group,
            gp,
            n,
        )[t] == base[t] by {
            let sub = group.subrange(0, n - 1);
            let full = group.subrange(0, n);
            assert(full[n - 1] == group[n - 1]);
            if sub.contains(t as u8) {
                let k = choose|k: int| 0 <= k < n - 1 && sub[k] == t as u8;
                assert(full[k] == t as u8);
            }
        }
    }
}

proof fn lemma_mask_bit(board: Hand, s: int, n: int, r: int)
    requires
        0 <= s < 4,
        0 <= n <= 16,
        0 <= r < 16,
    ensures
        ((mask_upto(board, s, n) >> (r as u16)) & 1u16 == 1u16) == (r < n && board.has(r * 4 + s)),
        n < 16 ==> mask_upto(board, s, n) < (1u16 << (n as u16)),
    decreases n,
{
    if n > 0 {
        lemma_mask_bit(board, s, n - 1, r);
        let x = mask_upto(board, s, n - 1);
        let k = (n - 1) as u16;
        let ru = r as u16;
        assert(((x | (1u16 << k)) >> ru) & 1u16 == 1u16 <==> (((x >> ru) & 1u16 == 1u16) || ru
            == k)) by (bit_vector)
            requires
                k < 16,
                ru < 16,
        ;
        assert(x | 0u16 == x) by (bit_vector);
        assert(x < (1u16 << k) && k < 16 ==> (x >> k) & 1u16 == 0u16) by (bit_vector);
        if n < 16 {
            let nn = n as u16;
            assert(x < (1u16 << k) && nn == k + 1 && nn < 16 ==> (x | (1u16 << k)) < (1u16 << nn)
                && x < (1u16 << nn)) by (bit_vector);
        }
    } else {
        let ru = r as u16;
        assert((0u16 >> ru) & 1u16 == 0u16) by (bit_vector);
        assert(0u16 < (1u16 << 0u16)) by (bit_vector);
    }
}

/// Two suits with the same rank bitmask have the same ranks on the board.
proof fn lemma_same_mask_same_cards(board: Hand, s: int, t: int, r: int)
    requires
        0 <= s < 4,
        0 <= t < 4,
        0 <= r < 16,
        suit_mask(board, s) == suit_mask(board, t),
    ensures
        board.has(r * 4 + s) == board.has(r * 4 + t),
{
    lemma_mask_bit(board, s, 16, r);
    lemma_mask_bit(board, t, 16, r);
}

/// Whether a list of renamings holds `p`.
fn holds_perm(list: &Vec<[u8; 4]>, p: &[u8; 4]) -> (b: bool)
    ensures
        b == exists|k: int| 0 <= k < list.len() && #[trigger] list@[k]@ == p@,
{
    let mut k: usize = 0;
    while k < list.len()
        invariant
            k <= list.len(),
            forall|x: int| 0 <= x < k ==> list@[x]@ != p@,
        decreases list.len() - k,
    {
        let q = list[k];
        if q[0] == p[0] && q[1] == p[1] && q[2] == p[2] && q[3] == p[3] {
            assert(list@[k as int]@ =~= p@);
            return true;
        }
        proof {
            assert(q@[0] != p@[0] || q@[1] != p@[1] || q@[2] != p@[2] || q@[3] != p@[3]);
        }
        k = k + 1;
    }
    false
}

/// Enumerate all non-identity suit permutations that preserve the board: suits with the
/// same rank bitmask on the board may be exchanged freely. They come in increasing order
/// of their number (`perm[0] perm[1] perm[2] perm[3]` in base 4), which is the order in
/// which the product of the arrangements of each group lists them, the group of the lowest
/// suit varying slowest.
pub fn board_suit_perms(board: Hand) -> (result: Vec<[u8; 4]>)
    ensures
        forall|k: int| 0 <= k < result.len() ==> is_board_symmetry(board, #[trigger] result@[k]@),
        forall|p: Seq<u8>|
            is_board_symmetry(board, p) ==> exists|k: int|
                0 <= k < result.len() && #[trigger] result@[k]@ == p,
        forall|k1: int, k2: int|
            0 <= k1 < k2 < result.len() ==> perm_code(result@[k1]@) < perm_code(result@[k2]@),
{
    let all = board_symmetries(board);
    let mut result: Vec<[u8; 4]> = Vec::new();
    let mut code: u32 = 0;
    while code < 256
        invariant
            code <= 256,
            forall|k: int| 0 <= k < all.len() ==> is_board_symmetry(board, #[trigger] all@[k]@),
            forall|p: Seq<u8>|
                is_board_symmetry(board, p) ==> exists|k: int|
                    0 <= k < all.len() && #[trigger] all@[k]@ == p,
            forall|k: int| 0 <= k < result.len() ==> is_board_symmetry(board, #[trigger] result@[k]@),
            forall|k: int| 0 <= k < result.len() ==> #[trigger] perm_code(result@[k]@) < code,
            forall|p: Seq<u8>|
                is_board_symmetry(board, p) && perm_code(p) < code ==> exists|k: int|
                    0 <= k < result.len() && #[trigger] result@[k]@ == p,
            forall|k1: int, k2: int|
                0 <= k1 < k2 < result.len() ==> perm_code(result@[k1]@) < perm_code(result@[k2]@),
        decreases 256 - code,
    {
        let (q, ok) = decode_perm(code);
        if ok {
            proof {
                lemma_perm_code(q@);
            }
            if holds_perm(&all, &q) {
                let ghost old = result@;
                result.push(q);
                proof {
                    assert(result@[old.len() as int] == q);
                    assert forall|k: int| 0 <= k < result.len() implies is_board_symmetry(board, #[trigger] result@[k]@)
                        && perm_code(result@[k]@) < code + 1 by {
                        if k < old.len() {
                            assert(result@[k] == old[k]);
                        } else {
                            let j = choose|j: int| 0 <= j < all.len() && #[trigger] all@[j]@ == q@;
                        }
                    }
                    assert forall|k1: int, k2: int| 0 <= k1 < k2 < result.len() implies perm_code(result@[k1]@)
                        < perm_code(result@[k2]@) by {
                        assert(result@[k1] == old[k1]);
                        if k2 < old.len() {
                            assert(result@[k2] == old[k2]);
                        }
                    }
                    assert forall|p: Seq<u8>|
                        is_board_symmetry(board, p) && perm_code(p) < code + 1 implies exists|k: int|
                            0 <= k < result.len() && #[trigger] result@[k]@ == p by {
                        if perm_code(p) == code {
                            lemma_perm_code(p);
                            assert(result@[old.len() as int]@ == p);
                        } else {
                            let k = choose|k: int| 0 <= k < old.len() && #[trigger] old[k]@ == p;
                            assert(result@[k] == old[k]);
                        }
                    }
                }
            } else {
                proof {
                    assert forall|p: Seq<u8>|
                        is_board_symmetry(board, p) && perm_code(p) < code + 1 implies exists|k: int|
                            0 <= k < result.len() && #[trigger] result@[k]@ == p by {
                        if perm_code(p) == code {
                            lemma_perm_code(p);
                            let j = choose|j: int| 0 <= j < all.len() && #[trigger] all@[j]@ == p;
                            assert(all@[j]@ == q@);
                        }
                    }
                }
            }
        } else {
            proof {
                assert forall|p: Seq<u8>| is_suit_perm(p) implies perm_code(p) != code by {
                    lemma_perm_code(p);
                }
            }
        }
        code = code + 1;
    }
    proof {
        assert forall|p: Seq<u8>| is_board_symmetry(board, p) implies exists|k: int|
            0 <= k < result.len() && #[trigger] result@[k]@ == p by {
            lemma_perm_code(p);
        }
    }
    result
}

/// All non-identity suit permutations that preserve the board, each once: the
/// arrangements of each group of suits with one rank bitmask, combined.
fn board_symmetries(board: Hand) -> (result: Vec<[u8; 4]>)
    ensures
        forall|k: int| 0 <= k < result.len() ==> is_board_symmetry(board, #[trigger] result@[k]@),
        forall|p: Seq<u8>|
            is_board_symmetry(board, p) ==> exists|k: int|
                0 <= k < result.len() && #[trigger] result@[k]@ == p,
        forall|k1: int, k2: int| 0 <= k1 < k2 < result.len() ==> result@[k1]@ != result@[k2]@,
{
    // rank bitmask of each suit
    let mut suit_ranks = [0u16; 4];
    let mut s: usize = 0;
    while s < 4
        invariant
            s <= 4,
            forall|t: int| 0 <= t < s ==> suit_ranks[t] == suit_mask(board, t),
        decreases 4 - s,
    {
        let mut m: u16 = 0;
        let mut r: u8 = 0;
        while r < 16
            invariant
                s < 4,
                r <= 16,
                m == mask_upto(board, s as int, r as int),
            decreases 16 - r,
        {
            if board.contains(r * 4 + s as u8) {
                m = m | (1u16 << (r as u16));
            } else {
                proof {
                    assert(m | 0u16 == m) by (bit_vector);
                }
            }
            r = r + 1;
        }
        suit_ranks[s] = m;
        s = s + 1;
    }
    let ghost mask = |t: int| suit_mask(board, t);
    // group suits by their rank bitmask
    let mut groups: Vec<Vec<u8>> = Vec::new();
    let mut assigned = [false; 4];
    let mut s: u8 = 0;
    while s < 4
        invariant
            s <= 4,
            forall|t: int| 0 <= t < 4 ==> suit_ranks[t] == suit_mask(board, t),
            groups_ok(board, groups@),
            forall|t: int|
                0 <= t < 4 ==> (assigned[t] <==> exists|g: int|
                    0 <= g < groups.len() && #[trigger] groups@[g]@.contains(t as u8)),
            forall|t: int| 0 <= t < s ==> assigned[t],
            forall|t: int, u: int|
                0 <= t < 4 && 0 <= u < 4 && assigned[t] && suit_mask(board, u) == suit_mask(
                    board,
                    t,
                ) ==> assigned[u],
        decreases 4 - s,
    {
        if assigned[s as usize] {
            s = s + 1;
            continue;
        }
        let ghost assigned0 = assigned;
        proof {
            assert forall|u: int|
                0 <= u < 4 && suit_mask(board, u) == suit_mask(board, s as int) implies !assigned[u]
                && u >= s by {
                if assigned[u] {
                    assert(assigned[s as int]);
                }
            }
        }
        let mut group: Vec<u8> = Vec::new();
        group.push(s);
        proof {
            assert forall|u: u8| u < 4 implies (#[trigger] group@.contains(u) <==> (u == s || (s
                < u < s + 1 && suit_mask(board, u as int) == suit_mask(board, s as int)))) by {
                if u == s {
                    assert(group@[0] == s);
                }
            }
        }
        let mut s2: u8 = s + 1;
        while s2 < 4
            invariant
                s < 4,
                s < s2 <= 4,
                forall|t: int| 0 <= t < 4 ==> suit_ranks[t] == suit_mask(board, t),
                group@.len() >= 1,
                group@[0] == s,
                no_dup(group@),
                forall|i: int| 0 <= i < group@.len() ==> group@[i] < 4,
                forall|u: u8|
                    u < 4 ==> (#[trigger] group@.contains(u) <==> (u == s || (s < u < s2
                        && suit_mask(board, u as int) == suit_mask(board, s as int)))),
                forall|u: int|
                    #![trigger assigned[u]]
                    0 <= u < 4 && u != s ==> assigned[u] == (assigned0[u] || (s < u < s2
                        && suit_mask(board, u) == suit_mask(board, s as int))),
                !assigned[s as int],
                forall|u: int|
                    0 <= u < 4 && #[trigger] suit_mask(board, u) == suit_mask(board, s as int)
                        ==> !assigned0[u] && u >= s,
            decreases 4 - s2,
        {
            proof {
                assert(suit_ranks[s2 as int] == suit_mask(board, s2 as int));
                assert(suit_ranks[s as int] == suit_mask(board, s as int));
            }
            let ghost a_before = assigned;
            if !assigned[s2 as usize] && suit_ranks[s2 as usize] == suit_ranks[s as usize] {
                let ghost old_group = group@;
                proof {
                    assert(!old_group.contains(s2));
                }
                group.push(s2);
                assigned[s2 as usize] = true;
                proof {
                    assert(group@ == old_group.push(s2));
                    assert forall|i: int, j: int| 0 <= i < j < group@.len() implies group@[i]
                        != group@[j] by {
                        if j == group@.len() - 1 {
                            assert(group@[i] == old_group[i]);
                            assert(old_group.contains(old_group[i]));
                        } else {
                            assert(group@[i] == old_group[i] && group@[j] == old_group[j]);
                        }
                    }
                    assert forall|u: u8| u < 4 implies (#[trigger] group@.contains(u) <==> (u == s
                        || (s < u < s2 + 1 && suit_mask(board, u as int) == suit_mask(
                        board,
                        s as int,
                    )))) by {
                        if group@.contains(u) && u != s2 {
                            let k = choose|k: int| 0 <= k < group@.len() && group@[k] == u;
                            assert(k < old_group.len());
                            assert(old_group[k] == u);
                            assert(old_group.contains(u));
                        }
                        if u == s || (s < u < s2 && suit_mask(board, u as int) == suit_mask(board, s as int)) {
                            assert(old_group.contains(u));
                            let k = choose|k: int| 0 <= k < old_group.len() && old_group[k] == u;
                            assert(group@[k] == u);
                        }
                        if u == s2 {
                            assert(group@[group@.len() - 1] == u);
                        }
                    }
                }
            }
            proof {
                assert forall|u: int|
                    0 <= u < 4 && u != s implies assigned[u] == (assigned0[u] || (s < u < s2 + 1
                        && #[trigger] suit_mask(board, u) == suit_mask(board, s as int))) by {
                    if u != s2 {
                        assert(assigned[u] == a_before[u]);
                        assert(a_before[u] == (assigned0[u] || (s < u < s2 && suit_mask(board, u)
                            == suit_mask(board, s as int))));
                    } else {
                        assert(a_before[u] == assigned0[u]);
                    }
                }
            }
            s2 = s2 + 1;
        }
        assigned[s as usize] = true;
        let ghost old_groups = groups@;
        let ghost new_group = group@;
        groups.push(group);
        proof {
            let g_new = groups.len() - 1;
            assert(groups@ == old_groups.push(group));
            assert(groups@[g_new]@ == new_group);
            assert forall|g: int| 0 <= g < g_new implies groups@[g] == old_groups[g] by {}
            assert forall|u: int| 0 <= u < 4 implies (new_group.contains(u as u8) <==> #[trigger] suit_mask(board, u)
                == suit_mask(board, s as int)) by {
                assert(new_group.contains((u as u8)) == new_group.contains(u as u8));
            }
            assert forall|t: int| 0 <= t < 4 implies (assigned[t] <==> exists|g: int|
                0 <= g < groups.len() && #[trigger] groups@[g]@.contains(t as u8)) by {
                if assigned[t] {
                    if assigned0[t] {
                        let g = choose|g: int|
                            0 <= g < old_groups.len() && #[trigger] old_groups[g]@.contains(t as u8);
                        assert(groups@[g] == old_groups[g]);
                        assert(groups@[g]@.contains(t as u8));
                    } else {
                        if t != s {
                            assert(suit_mask(board, t) == suit_mask(board, s as int));
                        }
                        assert(new_group.contains(t as u8));
                        assert(groups@[g_new]@.contains(t as u8));
                    }
                }
                if exists|g: int| 0 <= g < groups.len() && #[trigger] groups@[g]@.contains(t as u8) {
                    let g = choose|g: int|
                        0 <= g < groups.len() && #[trigger] groups@[g]@.contains(t as u8);
                    if g < g_new {
                        assert(groups@[g] == old_groups[g]);
                        assert(old_groups[g]@.contains(t as u8));
                        assert(assigned0[t]);
                        if t != s {
                            assert(suit_mask(board, t) == suit_mask(board, t));
                        }
                    } else {
                        assert(new_group.contains(t as u8));
                        if t != s {
                            assert(suit_mask(board, t) == suit_mask(board, s as int));
                        }
                    }
                }
            }
            assert forall|g1: int, g2: int| 0 <= g1 < g2 < groups.len() implies suit_mask(
                board,
                groups@[g1]@[0] as int,
            ) != suit_mask(board, groups@[g2]@[0] as int) by {
                if g2 == g_new {
                    let t = groups@[g1]@[0] as int;
                    assert(groups@[g1] == old_groups[g1]);
                    assert(groups@[g1]@.contains(t as u8));
                    assert(assigned0[t]);
                } else {
                    assert(groups@[g1] == old_groups[g1]);
                    assert(groups@[g2] == old_groups[g2]);
                }
            }
            assert forall|g: int| 0 <= g < groups.len() implies {
                let gr = #[trigger] groups@[g]@;
                &&& gr.len() >= 1
                &&& no_dup(gr)
                &&& forall|i: int| 0 <= i < gr.len() ==> gr[i] < 4
                &&& forall|u: int|
                    0 <= u < 4 ==> (gr.contains(u as u8) <==> #[trigger] suit_mask(board, u)
                        == suit_mask(board, gr[0] as int))
            } by {
                if g < g_new {
                    assert(groups@[g] == old_groups[g]);
                }
            }
            assert(groups_ok(board, groups@));
            assert forall|t: int| 0 <= t < s + 1 implies assigned[t] by {
                if t < s {
                    assert(assigned0[t]);
                }
            }
        }
        s = s + 1;
    }
    // Cartesian product of the permutations within each group
    proof {
        assert(groups_ok(board, groups@));
        assert forall|t: int| 0 <= t < 4 implies #[trigger] grouped(groups@, t) by {
            assert(assigned[t]);
        }
    }
    let mut all_perms: Vec<[u8; 4]> = Vec::new();
    all_perms.push([0u8, 1, 2, 3]);
    let mut gi: usize = 0;
    proof {
        assert forall|p: Seq<u8>| partial_symmetry(board, groups@, 0, p) implies exists|k: int|
            0 <= k < all_perms.len() && #[trigger] all_perms@[k]@ == p by {
            assert(all_perms@[0]@ =~= p);
        }
        assert(partial_symmetry(board, groups@, 0, all_perms@[0]@));
    }
    while gi < groups.len()
        invariant
            gi <= groups.len(),
            groups_ok(board, groups@),
            forall|t: int| 0 <= t < 4 ==> #[trigger] grouped(groups@, t),
            forall|k: int|
                0 <= k < all_perms.len() ==> partial_symmetry(
                    board,
                    groups@,
                    gi as int,
                    #[trigger] all_perms@[k]@,
                ),
            forall|p: Seq<u8>|
                partial_symmetry(board, groups@, gi as int, p) ==> exists|k: int|
                    0 <= k < all_perms.len() && #[trigger] all_perms@[k]@ == p,
            forall|k1: int, k2: int|
                0 <= k1 < k2 < all_perms.len() ==> all_perms@[k1]@ != all_perms@[k2]@,
        decreases groups.len() - gi,
    {
        let group = &groups[gi];
        let ghost gset = group@;
        if group.len() <= 1 {
            proof {
                lemma_singleton_group(board, groups@, gi as int, gi + 1, all_perms@);
            }
            gi = gi + 1;
            continue;
        }
        let group_perms = permutations(group);
        let mut new_all: Vec<[u8; 4]> = Vec::new();
        let ghost mut ks: Seq<int> = Seq::empty();
        let ghost mut js: Seq<int> = Seq::empty();
        let mut b: usize = 0;
        while b < all_perms.len()
            invariant
                b <= all_perms.len(),
                group@ == gset,
                gset == groups@[gi as int]@,
                gi < groups.len(),
                gset.len() >= 2,
                no_dup(gset),
                forall|i: int| 0 <= i < gset.len() ==> gset[i] < 4,
                forall|k: int| 0 <= k < group_perms.len() ==> is_arrangement(#[trigger] group_perms@[k]@, gset),
                forall|k: int| 0 <= k < all_perms.len() ==> (#[trigger] all_perms@[k]@).len() == 4,
                ks.len() == new_all.len(),
                js.len() == new_all.len(),
                forall|x: int|
                    0 <= x < new_all.len() ==> 0 <= #[trigger] ks[x] < b && 0 <= js[x]
                        < group_perms.len() && new_all@[x]@ == overwrite(
                        all_perms@[ks[x]]@,
                        gset,
                        group_perms@[js[x]]@,
                        gset.len() as int,
                    ),
                forall|k: int, j: int|
                    0 <= k < b && 0 <= j < group_perms.len() ==> #[trigger] pair_listed(ks, js, k, j),
                forall|x1: int, x2: int|
                    0 <= x1 < x2 < new_all.len() ==> ks[x1] != ks[x2] || js[x1] != js[x2],
            decreases all_perms.len() - b,
        {
            let mut j: usize = 0;
            let ghost ks0 = ks;
            let ghost js0 = js;
            let ghost len0 = new_all.len();
            while j < group_perms.len()
                invariant
                    b < all_perms.len(),
                    j <= group_perms.len(),
                    group@ == gset,
                    gset == groups@[gi as int]@,
                    gi < groups.len(),
                    gset.len() >= 2,
                    no_dup(gset),
                    forall|i: int| 0 <= i < gset.len() ==> gset[i] < 4,
                    forall|k: int|
                        0 <= k < group_perms.len() ==> is_arrangement(#[trigger] group_perms@[k]@, gset),
                    forall|k: int| 0 <= k < all_perms.len() ==> (#[trigger] all_perms@[k]@).len() == 4,
                    ks.len() == new_all.len(),
                    js.len() == new_all.len(),
                    new_all.len() == len0 + j,
                    ks0.len() == len0,
                    js0.len() == len0,
                    forall|x: int| 0 <= x < len0 ==> ks[x] == ks0[x] && js[x] == js0[x],
                    forall|x: int|
                        0 <= x < len0 ==> 0 <= #[trigger] ks0[x] < b && 0 <= js0[x]
                            < group_perms.len(),
                    forall|x: int|
                        len0 <= x < new_all.len() ==> ks[x] == b && js[x] == x - len0,
                    forall|x: int|
                        0 <= x < new_all.len() ==> 0 <= #[trigger] ks[x] <= b && 0 <= js[x]
                            < group_perms.len() && new_all@[x]@ == overwrite(
                            all_perms@[ks[x]]@,
                            gset,
                            group_perms@[js[x]]@,
                            gset.len() as int,
                        ),
                    forall|k: int, jj: int|
                        0 <= k < b && 0 <= jj < group_perms.len() ==> #[trigger] pair_listed(ks0, js0, k, jj),
                    forall|x1: int, x2: int|
                        0 <= x1 < x2 < len0 ==> ks0[x1] != ks0[x2] || js0[x1] != js0[x2],
                decreases group_perms.len() - j,
            {
                let gp = &group_perms[j];
                let mut perm = all_perms[b];
                let mut i: usize = 0;
                while i < group.len()
                    invariant
                        i <= group.len(),
                        group@ == gset,
                        gp@ == group_perms@[j as int]@,
                        gp@.len() == gset.len(),
                        no_dup(gset),
                        forall|t: int| 0 <= t < gset.len() ==> gset[t] < 4,
                        perm@ == overwrite(all_perms@[b as int]@, gset, gp@, i as int),
                        all_perms@[b as int]@.len() == 4,
                    decreases group.len() - i,
                {
                    proof {
                        lemma_overwrite(all_perms@[b as int]@, gset, gp@, i as int);
                    }
                    perm[group[i] as usize] = gp[i];
                    i = i + 1;
                    proof {
                        assert(perm@ =~= overwrite(all_perms@[b as int]@, gset, gp@, i as int));
                    }
                }
                new_all.push(perm);
                proof {
                    ks = ks.push(b as int);
                    js = js.push(j as int);
                }
                j = j + 1;
            }
            proof {
                assert forall|k: int, jj: int|
                    0 <= k < b + 1 && 0 <= jj < group_perms.len() implies #[trigger] pair_listed(ks, js, k, jj) by {
                    if k < b {
                        assert(pair_listed(ks0, js0, k, jj));
                        let x = choose|x: int| 0 <= x < ks0.len() && ks0[x] == k && js0[x] == jj;
                        assert(ks[x] == k && js[x] == jj);
                    } else {
                        assert(ks[len0 + jj] == k && js[len0 + jj] == jj);
                    }
                }
            }
            b = b + 1;
        }
        proof {
            lemma_product_step(board, groups@, gi as int, all_perms@, group_perms@, new_all@, ks, js, gi + 1);
        }
        all_perms = new_all;
        gi = gi + 1;
    }
    proof {
        assert forall|p: Seq<u8>| is_board_symmetry(board, p) implies partial_symmetry(
            board,
            groups@,
            gi as int,
            p,
        ) by {
            assert forall|t: int| 0 <= t < 4 && !in_groups_before(groups@, gi as int, t) implies p[t]
                == t by {
                assert(grouped(groups@, t));
                let g = choose|g: int| 0 <= g < groups.len() && #[trigger] groups@[g]@.contains(
                    t as u8,
                );
                assert(in_groups_before(groups@, gi as int, t));
            }
        }
    }
    // remove the identity
    let mut result: Vec<[u8; 4]> = Vec::new();
    let ghost mut picked: Seq<int> = Seq::empty();
    let mut k: usize = 0;
    while k < all_perms.len()
        invariant
            k <= all_perms.len(),
            forall|kk: int|
                0 <= kk < all_perms.len() ==> {
                    let p = #[trigger] all_perms@[kk]@;
                    &&& is_suit_perm(p)
                    &&& preserves_masks(board, p)
                },
            forall|k1: int, k2: int|
                0 <= k1 < k2 < all_perms.len() ==> all_perms@[k1]@ != all_perms@[k2]@,
            picked.len() == result.len(),
            forall|x: int|
                0 <= x < result.len() ==> 0 <= #[trigger] picked[x] < k && result@[x]@
                    == all_perms@[picked[x]]@ && !is_identity(result@[x]@),
            forall|x1: int, x2: int| 0 <= x1 < x2 < result.len() ==> picked[x1] < picked[x2],
            forall|kk: int|
                0 <= kk < k && !is_identity(all_perms@[kk]@) ==> exists|x: int|
                    0 <= x < result.len() && #[trigger] picked[x] == kk,
        decreases all_perms.len() - k,
    {
        let p = all_perms[k];
        if !(p[0] == 0 && p[1] == 1 && p[2] == 2 && p[3] == 3) {
            let ghost old_result = result@;
            let ghost old_picked = picked;
            result.push(p);
            proof {
                picked = picked.push(k as int);
                assert(!is_identity(p@));
                assert forall|x: int| 0 <= x < result.len() implies 0 <= #[trigger] picked[x] < k + 1
                    && result@[x]@ == all_perms@[picked[x]]@ && !is_identity(result@[x]@) by {
                    if x < old_result.len() {
                        assert(result@[x] == old_result[x]);
                        assert(picked[x] == old_picked[x]);
                    }
                }
                assert forall|kk: int|
                    0 <= kk < k + 1 && !is_identity(all_perms@[kk]@) implies exists|x: int|
                        0 <= x < result.len() && #[trigger] picked[x] == kk by {
                    if kk < k {
                        let x = choose|x: int| 0 <= x < old_result.len() && #[trigger] old_picked[x] == kk;
                        assert(picked[x] == kk);
                    } else {
                        assert(picked[old_result.len() as int] == kk);
                    }
                }
            }
        } else {
            proof {
                assert(is_identity(p@));
            }
        }
        k = k + 1;
    }
    proof {
        assert forall|x: int| 0 <= x < result.len() implies is_board_symmetry(
            board,
            #[trigger] result@[x]@,
        ) by {
            assert(result@[x]@ == all_perms@[picked[x]]@);
        }
        assert forall|p: Seq<u8>| is_board_symmetry(board, p) implies exists|x: int|
            0 <= x < result.len() && #[trigger] result@[x]@ == p by {
            let kk = choose|kk: int| 0 <= kk < all_perms.len() && #[trigger] all_perms@[kk]@ == p;
            let x = choose|x: int| 0 <= x < result.len() && #[trigger] picked[x] == kk;
        }
        assert forall|x1: int, x2: int| 0 <= x1 < x2 < result.len() implies result@[x1]@
            != result@[x2]@ by {
            assert(picked[x1] < picked[x2]);
        }
    }
    result
}

/// The groups are the classes of suits with equal rank bitmasks, each listed once.
pub open spec fn groups_ok(board: Hand, groups: Seq<Vec<u8>>) -> bool {
    &&& forall|g: int|
        0 <= g < groups.len() ==> {
            let gr = #[trigger] groups[g]@;
            &&& gr.len() >= 1
            &&& no_dup(gr)
            &&& forall|i: int| 0 <= i < gr.len() ==> gr[i] < 4
            &&& forall|u: int|
                0 <= u < 4 ==> (gr.contains(u as u8) <==> #[trigger] suit_mask(board, u)
                    == suit_mask(board, gr[0] as int))
        }
    &&& forall|g1: int, g2: int|
        0 <= g1 < g2 < groups.len() ==> suit_mask(board, groups[g1]@[0] as int) != suit_mask(
            board,
            groups[g2]@[0] as int,
        )
}

/// Permutations that keep masks and fix every suit outside the first `gi` groups.
pub open spec fn partial_symmetry(board: Hand, groups: Seq<Vec<u8>>, gi: int, p: Seq<u8>) -> bool {
    &&& is_suit_perm(p)
    &&& preserves_masks(board, p)
    &&& forall|t: int| 0 <= t < 4 && !in_groups_before(groups, gi, t) ==> p[t] == t
}

proof fn lemma_group_disjoint(board: Hand, groups: Seq<Vec<u8>>, g1: int, g2: int, t: int)
    requires
        groups_ok(board, groups),
        0 <= g1 < groups.len(),
        0 <= g2 < groups.len(),
        0 <= t < 4,
        groups[g1]@.contains(t as u8),
        groups[g2]@.contains(t as u8),
    ensures
        g1 == g2,
{
    let a = groups[g1]@;
    let b = groups[g2]@;
    assert(suit_mask(board, t) == suit_mask(board, a[0] as int));
    assert(suit_mask(board, t) == suit_mask(board, b[0] as int));
    if g1 < g2 {
        assert(suit_mask(board, a[0] as int) != suit_mask(board, b[0] as int));
    } else if g2 < g1 {
        assert(suit_mask(board, b[0] as int) != suit_mask(board, a[0] as int));
    }
}

proof fn lemma_singleton_group(board: Hand, groups: Seq<Vec<u8>>, gi: int, gn: int, all: Seq<[u8; 4]>)
    requires
        gn == gi + 1,
        groups_ok(board, groups),
        0 <= gi < groups.len(),
        groups[gi]@.len() <= 1,
        forall|p: Seq<u8>|
            partial_symmetry(board, groups, gi, p) ==> exists|k: int|
                0 <= k < all.len() && #[trigger] all[k]@ == p,
        forall|k: int| 0 <= k < all.len() ==> partial_symmetry(board, groups, gi, #[trigger] all[k]@),
    ensures
        forall|p: Seq<u8>|
            partial_symmetry(board, groups, gn, p) ==> exists|k: int|
                0 <= k < all.len() && #[trigger] all[k]@ == p,
        forall|k: int|
            0 <= k < all.len() ==> partial_symmetry(board, groups, gn, #[trigger] all[k]@),
{
    let gr = groups[gi]@;
    let t0 = gr[0] as int;
    assert forall|k: int| 0 <= k < all.len() implies partial_symmetry(
        board,
        groups,
        gn,
        #[trigger] all[k]@,
    ) by {
        let p = all[k]@;
        assert(partial_symmetry(board, groups, gi, p));
        assert forall|t: int| 0 <= t < 4 && !in_groups_before(groups, gn, t) implies p[t]
            == t by {
            if in_groups_before(groups, gi, t) {
                let g = choose|g: int| 0 <= g < gi && #[trigger] groups[g]@.contains(t as u8);
                assert(in_groups_before(groups, gn, t));
            }
        }
    }
    assert forall|p: Seq<u8>| partial_symmetry(board, groups, gn, p) implies exists|k: int|
        0 <= k < all.len() && #[trigger] all[k]@ == p by {
        assert forall|t: int| 0 <= t < 4 && !in_groups_before(groups, gi, t) implies p[t] == t by {
            if gr.contains(t as u8) {
                let k = choose|k: int| 0 <= k < gr.len() && gr[k] == t as u8;
                assert(k == 0);
                // p[t] has the mask of t, so it is in the same (single-element) group
                assert(suit_mask(board, p[t] as int) == suit_mask(board, t));
                assert(gr.contains(p[t]));
                let k2 = choose|k2: int| 0 <= k2 < gr.len() && gr[k2] == p[t];
                assert(k2 == 0);
            } else {
                if in_groups_before(groups, gn, t) {
                    let g = choose|g: int| 0 <= g < gi + 1 && #[trigger] groups[g]@.contains(
                        t as u8,
                    );
                    assert(g != gi);
                    assert(in_groups_before(groups, gi, t));
                }
            }
        }
        assert(partial_symmetry(board, groups, gi, p));
    }
}

proof fn lemma_product_step(
    board: Hand,
    groups: Seq<Vec<u8>>,
    gi: int,
    all: Seq<[u8; 4]>,
    gps: Seq<Vec<u8>>,
    new_all: Seq<[u8; 4]>,
    ks: Seq<int>,
    js: Seq<int>,
    gn: int,
)
    requires
        gn == gi + 1,
        groups_ok(board, groups),
        forall|t: int| 0 <= t < 4 ==> #[trigger] grouped(groups, t),
        0 <= gi < groups.len(),
        groups[gi]@.len() >= 2,
        forall|k: int| 0 <= k < gps.len() ==> is_arrangement(#[trigger] gps[k]@, groups[gi]@),
        forall|p: Seq<u8>|
            is_arrangement(p, groups[gi]@) ==> exists|k: int| 0 <= k < gps.len() && #[trigger] gps[k]@ == p,
        forall|k1: int, k2: int| 0 <= k1 < k2 < gps.len() ==> gps[k1]@ != gps[k2]@,
        forall|p: Seq<u8>|
            partial_symmetry(board, groups, gi, p) ==> exists|k: int|
                0 <= k < all.len() && #[trigger] all[k]@ == p,
        forall|k: int| 0 <= k < all.len() ==> partial_symmetry(board, groups, gi, #[trigger] all[k]@),
        forall|k1: int, k2: int| 0 <= k1 < k2 < all.len() ==> all[k1]@ != all[k2]@,
        ks.len() == new_all.len(),
        js.len() == new_all.len(),
        forall|x: int|
            0 <= x < new_all.len() ==> 0 <= #[trigger] ks[x] < all.len() && 0 <= js[x] < gps.len()
                && new_all[x]@ == overwrite(
                all[ks[x]]@,
                groups[gi]@,
                gps[js[x]]@,
                groups[gi]@.len() as int,
            ),
        forall|k: int, j: int|
            0 <= k < all.len() && 0 <= j < gps.len() ==> #[trigger] pair_listed(ks, js, k, j),
        forall|x1: int, x2: int|
            0 <= x1 < x2 < new_all.len() ==> ks[x1] != ks[x2] || js[x1] != js[x2],
    ensures
        forall|p: Seq<u8>|
            partial_symmetry(board, groups, gn, p) ==> exists|k: int|
                0 <= k < new_all.len() && #[trigger] new_all[k]@ == p,
        forall|k: int|
            0 <= k < new_all.len() ==> partial_symmetry(board, groups, gn, #[trigger] new_all[k]@),
        forall|k1: int, k2: int| 0 <= k1 < k2 < new_all.len() ==> new_all[k1]@ != new_all[k2]@,
{
    let gset = groups[gi]@;
    let m = gset.len() as int;
    assert(gset.subrange(0, m) =~= gset);
    assert(gset.contains(gset[0]));
    // suits of the current group are not in any earlier group
    assert forall|t: int| 0 <= t < 4 && gset.contains(t as u8) implies !in_groups_before(
        groups,
        gi,
        t,
    ) by {
        if in_groups_before(groups, gi, t) {
            let g = choose|g: int| 0 <= g < gi && #[trigger] groups[g]@.contains(t as u8);
            lemma_group_disjoint(board, groups, g, gi, t);
        }
    }
    // soundness
    assert forall|x: int| 0 <= x < new_all.len() implies partial_symmetry(
        board,
        groups,
        gn,
        #[trigger] new_all[x]@,
    ) by {
        let base = all[ks[x]]@;
        let gp = gps[js[x]]@;
        let p = new_all[x]@;
        assert(partial_symmetry(board, groups, gi, base));
        lemma_overwrite(base, gset, gp, m);
        assert(p.len() == 4);
        assert forall|t: int| 0 <= t < 4 implies p[t] < 4 && (gset.contains(t as u8) ==> gset.contains(p[t]))
            && (!gset.contains(t as u8) ==> p[t] == base[t] && !gset.contains(p[t]))
            && suit_mask(board, p[t] as int) == suit_mask(board, t) by {
            if gset.contains(t as u8) {
                let i = choose|i: int| 0 <= i < m && gset[i] == t as u8;
                assert(p[gset[i] as int] == gp[i]);
                assert(gset.contains(gp[i]));
                let i2 = choose|i2: int| 0 <= i2 < m && gset[i2] == gp[i];
                assert(gset[i2] < 4);
            } else {
                assert(p[t] == base[t]);
                assert(suit_mask(board, base[t] as int) == suit_mask(board, t));
            }
        }
        assert forall|s: int, t: int| 0 <= s < 4 && 0 <= t < 4 && p[s] == p[t] implies s == t by {
            if gset.contains(s as u8) && gset.contains(t as u8) {
                let i = choose|i: int| 0 <= i < m && gset[i] == s as u8;
                let j = choose|j: int| 0 <= j < m && gset[j] == t as u8;
                assert(p[gset[i] as int] == gp[i]);
                assert(p[gset[j] as int] == gp[j]);
                if i != j {
                    if i < j {
                        assert(gp[i] != gp[j]);
                    } else {
                        assert(gp[j] != gp[i]);
                    }
                }
            } else if !gset.contains(s as u8) && !gset.contains(t as u8) {
                assert(base[s] == base[t]);
            }
        }
        assert forall|t: int| 0 <= t < 4 && !in_groups_before(groups, gn, t) implies p[t]
            == t by {
            if gset.contains(t as u8) {
                assert(in_groups_before(groups, gn, t));
            } else if in_groups_before(groups, gi, t) {
                let g = choose|g: int| 0 <= g < gi && #[trigger] groups[g]@.contains(t as u8);
                assert(in_groups_before(groups, gn, t));
            }
        }
    }
    // completeness
    assert forall|sig: Seq<u8>| partial_symmetry(board, groups, gn, sig) implies exists|k: int|
        0 <= k < new_all.len() && #[trigger] new_all[k]@ == sig by {
        let b = Seq::new(4, |t: int| if gset.contains(t as u8) { t as u8 } else { sig[t] });
        assert forall|t: int| 0 <= t < 4 implies (gset.contains(t as u8) <==> gset.contains(sig[t])) by {
            assert(suit_mask(board, sig[t] as int) == suit_mask(board, t));
        }
        assert(is_suit_perm(b)) by {
            assert forall|s: int, t: int| 0 <= s < 4 && 0 <= t < 4 && b[s] == b[t] implies s == t by {
                if gset.contains(s as u8) != gset.contains(t as u8) {
                    assert(false);
                }
            }
        }
        assert(preserves_masks(board, b));
        assert forall|t: int| 0 <= t < 4 && !in_groups_before(groups, gi, t) implies b[t] == t by {
            if !gset.contains(t as u8) {
                if in_groups_before(groups, gn, t) {
                    let g = choose|g: int| 0 <= g < gi + 1 && #[trigger] groups[g]@.contains(t as u8);
                    assert(g != gi);
                    assert(in_groups_before(groups, gi, t));
                }
            }
        }
        assert(partial_symmetry(board, groups, gi, b));
        let k = choose|k: int| 0 <= k < all.len() && #[trigger] all[k]@ == b;
        let gp = Seq::new(m as nat, |i: int| sig[gset[i] as int]);
        assert(is_arrangement(gp, gset)) by {
            assert forall|i: int| 0 <= i < m implies gset.contains(#[trigger] gp[i]) by {
                assert(gset.contains(gset[i]));
            }
            assert forall|a: int, c: int| 0 <= a < c < m implies gp[a] != gp[c] by {
                assert(gset[a] != gset[c]);
            }
        }
        let j = choose|j: int| 0 <= j < gps.len() && #[trigger] gps[j]@ == gp;
        assert(pair_listed(ks, js, k, j));
        let x = choose|x: int| 0 <= x < ks.len() && ks[x] == k && js[x] == j;
        lemma_overwrite(b, gset, gp, m);
        assert(new_all[x]@ =~= sig) by {
            assert forall|t: int| 0 <= t < 4 implies new_all[x]@[t] == sig[t] by {
                if gset.contains(t as u8) {
                    let i = choose|i: int| 0 <= i < m && gset[i] == t as u8;
                    assert(new_all[x]@[gset[i] as int] == gp[i]);
                }
            }
        }
    }
    // no duplicates
    assert forall|x1: int, x2: int| 0 <= x1 < x2 < new_all.len() implies new_all[x1]@
        != new_all[x2]@ by {
        let b1 = all[ks[x1]]@;
        let b2 = all[ks[x2]]@;
        let g1 = gps[js[x1]]@;
        let g2 = gps[js[x2]]@;
        lemma_overwrite(b1, gset, g1, m);
        lemma_overwrite(b2, gset, g2, m);
        if new_all[x1]@ == new_all[x2]@ {
            if js[x1] != js[x2] {
                assert(g1 =~= g2) by {
                    assert forall|i: int| 0 <= i < m implies g1[i] == g2[i] by {
                        assert(new_all[x1]@[gset[i] as int] == g1[i]);
                        assert(new_all[x2]@[gset[i] as int] == g2[i]);
                    }
                }
                if js[x1] < js[x2] {
                    assert(gps[js[x1]]@ != gps[js[x2]]@);
                } else {
                    assert(gps[js[x2]]@ != gps[js[x1]]@);
                }
            } else {
                assert(partial_symmetry(board, groups, gi, b1));
                assert(partial_symmetry(board, groups, gi, b2));
                assert(b1 =~= b2) by {
                    assert forall|t: int| 0 <= t < 4 implies b1[t] == b2[t] by {
                        if gset.contains(t as u8) {
                            assert(!in_groups_before(groups, gi, t));
                        } else {
                            assert(new_all[x1]@[t] == b1[t]);
                            assert(new_all[x2]@[t] == b2[t]);
                        }
                    }
                }
                if ks[x1] < ks[x2] {
                    assert(all[ks[x1]]@ != all[ks[x2]]@);
                } else {
                    assert(all[ks[x2]]@ != all[ks[x1]]@);
                }
            }
        }
    }
}

/// Some entry `x` pairs `k` with `j`.
pub open spec fn pair_listed(ks: Seq<int>, js: Seq<int>, k: int, j: int) -> bool {
    exists|x: int| 0 <= x < ks.len() && ks[x] == k && js[x] == j
}

// ---------------------------------------------------------------------------
// Canonical next cards
// ---------------------------------------------------------------------------

/// A canonical card with its associated isomorphic combo permutations.
pub struct CanonicalCard {
    pub card: Card,
    /// Combo permutation tables, one per isomorphic card (identity not included).
    pub perms: Vec<[u16; NUM_COMBOS]>,
}

/// Cards `c` and `d` (below 52) are exchanged by some board symmetry: same rank, and suits
/// with the same rank bitmask on the board.
pub open spec fn card_equiv(board: Hand, c: int, d: int) -> bool {
    &&& 0 <= c < 52
    &&& 0 <= d < 52
    &&& spec_rank(c as u8) == spec_rank(d as u8)
    &&& suit_mask(board, spec_suit(c as u8) as int) == suit_mask(board, spec_suit(d as u8) as int)
}

/// Some card below `c` is equivalent to `d`: `d`'s class was already dealt with.
pub open spec fn class_started(board: Hand, d: int, c: int) -> bool {
    exists|e: int| 0 <= e < c && #[trigger] card_equiv(board, e, d)
}

/// The entry for representative `card`: one table per other card of its class, each the
/// combo table of the first board symmetry (by number, see [`perm_code`]) taking `card`
/// to that card; the tables in increasing number of their symmetries.
pub open spec fn entry_ok(board: Hand, card: u8, perms: Seq<[u16; NUM_COMBOS]>) -> bool {
    exists|targets: Seq<u8>, sigmas: Seq<Seq<u8>>|
        #[trigger] entry_witness(board, card, perms, targets, sigmas)
}

pub open spec fn entry_witness(
    board: Hand,
    card: u8,
    perms: Seq<[u16; NUM_COMBOS]>,
    targets: Seq<u8>,
    sigmas: Seq<Seq<u8>>,
) -> bool {
    &&& targets.len() == perms.len()
    &&& sigmas.len() == perms.len()
    &&& forall|j: int|
        0 <= j < perms.len() ==> {
            &&& is_board_symmetry(board, #[trigger] sigmas[j])
            &&& map_card(sigmas[j], card) == targets[j]
            &&& is_combo_table(sigmas[j], perms[j]@)
        }
    &&& no_dup(targets)
    &&& forall|d: u8| #[trigger]
        targets.contains(d) <==> (d != card && card_equiv(board, card as int, d as int))
    &&& forall|j: int, p: Seq<u8>|
        0 <= j < perms.len() && is_board_symmetry(board, p) && #[trigger] map_card(p, card)
            == #[trigger] targets[j] ==> perm_code(sigmas[j]) <= perm_code(p)
    &&& forall|j1: int, j2: int|
        0 <= j1 < j2 < perms.len() ==> perm_code(sigmas[j1]) < perm_code(sigmas[j2])
}

proof fn lemma_equiv_board(board: Hand, c: int, d: int)
    requires
        card_equiv(board, c, d),
    ensures
        board.has(c) == board.has(d),
{
    let r = spec_rank(c as u8) as int;
    lemma_same_mask_same_cards(
        board,
        spec_suit(c as u8) as int,
        spec_suit(d as u8) as int,
        r,
    );
    crate::card::lemma_card_rank_suit(c as u8);
    crate::card::lemma_card_rank_suit(d as u8);
}

proof fn lemma_symmetry_maps_within_class(board: Hand, sig: Seq<u8>, c: u8)
    requires
        is_board_symmetry(board, sig),
        c < 52,
    ensures
        card_equiv(board, c as int, map_card(sig, c) as int),
        (map_card(sig, c) == c) == (sig[spec_suit(c) as int] == spec_suit(c)),
{
    lemma_map_card(sig, c);
    crate::card::lemma_card_rank_suit(c);
}

/// Exchanging two suits with equal rank bitmasks is a board symmetry.
proof fn lemma_transposition(board: Hand, a: int, b: int) -> (sig: Seq<u8>)
    requires
        0 <= a < 4,
        0 <= b < 4,
        a != b,
        suit_mask(board, a) == suit_mask(board, b),
    ensures
        is_board_symmetry(board, sig),
        sig[a] == b,
{
    let sig = Seq::new(4, |t: int| if t == a { b as u8 } else if t == b { a as u8 } else { t as u8 });
    assert(sig[a] != a);
    sig
}

/// The canonical next cards of `board`: representatives in ascending order, each the
/// smallest card of its class and not on the board, with an entry per other card of its
/// class; every card off the board is in the class of some representative.
pub open spec fn next_cards_ok(board: Hand, result: Seq<CanonicalCard>) -> bool {
    &&& reps_ok(board, result)
    &&& forall|d: int|
        0 <= d < 52 && !board.has(d) ==> exists|k: int|
            0 <= k < result.len() && #[trigger] card_equiv(board, result[k].card as int, d)
}

/// Representatives in ascending order, each the smallest card of its class and off the
/// board, with an entry per other card of its class.
pub open spec fn reps_ok(board: Hand, result: Seq<CanonicalCard>) -> bool {
    &&& forall|k: int|
        0 <= k < result.len() ==> {
            let cc = #[trigger] result[k];
            &&& cc.card < 52
            &&& !board.has(cc.card as int)
            &&& forall|e: int| 0 <= e < cc.card ==> !card_equiv(board, e, cc.card as int)
            &&& entry_ok(board, cc.card, cc.perms@)
        }
    &&& forall|k1: int, k2: int| 0 <= k1 < k2 < result.len() ==> result[k1].card < result[k2].card
}

/// Compute canonical next cards for dealing from a board: one representative (the lowest
/// card) per class of cards exchanged by board symmetries, ascending, with the combo
/// permutation tables that carry it to the other cards of its class.
pub fn canonical_next_cards(board: Hand) -> (result: Vec<CanonicalCard>)
    ensures
        next_cards_ok(board, result@),
{
    let suit_perms = board_suit_perms(board);
    let mut assigned = [false; 52];
    let mut result: Vec<CanonicalCard> = Vec::new();
    let mut c: u8 = 0;
    while c < 52
        invariant
            c <= 52,
            forall|k1: int, k2: int|
                0 <= k1 < k2 < suit_perms.len() ==> perm_code(suit_perms@[k1]@) < perm_code(
                    suit_perms@[k2]@,
                ),
            forall|k: int| 0 <= k < suit_perms.len() ==> is_board_symmetry(board, #[trigger] suit_perms@[k]@),
            forall|p: Seq<u8>|
                is_board_symmetry(board, p) ==> exists|k: int|
                    0 <= k < suit_perms.len() && #[trigger] suit_perms@[k]@ == p,
            forall|d: int|
                #![trigger assigned[d]]
                0 <= d < 52 ==> assigned[d] == (!board.has(d) && class_started(board, d, c as int)),
            forall|k: int|
                0 <= k < result.len() ==> {
                    let cc = #[trigger] result@[k];
                    &&& cc.card < c
                    &&& !board.has(cc.card as int)
                    &&& forall|e: int| 0 <= e < cc.card ==> !card_equiv(board, e, cc.card as int)
                    &&& entry_ok(board, cc.card, cc.perms@)
                },
            forall|k1: int, k2: int|
                0 <= k1 < k2 < result.len() ==> result@[k1].card < result@[k2].card,
            forall|d: int|
                0 <= d < 52 && !board.has(d) && class_started(board, d, c as int) ==> exists|k: int|
                    0 <= k < result.len() && #[trigger] card_equiv(board, result@[k].card as int, d),
        decreases 52 - c,
    {
        if board.contains(c) || assigned[c as usize] {
            proof {
                assert forall|d: int| #![trigger assigned[d]] 0 <= d < 52 implies assigned[d] == (!board.has(d)
                    && class_started(board, d, c + 1)) by {
                    if class_started(board, d, c + 1) && !class_started(board, d, c as int) {
                        assert(card_equiv(board, c as int, d));
                        lemma_equiv_board(board, c as int, d);
                        if !board.has(c as int) {
                            assert(assigned[c as int]);
                            let e = choose|e: int| 0 <= e < c && #[trigger] card_equiv(board, e, c as int);
                            assert(card_equiv(board, e, d));
                        }
                    }
                }
                assert forall|d: int|
                    0 <= d < 52 && !board.has(d) && class_started(board, d, c + 1) implies exists|k: int|
                        0 <= k < result.len() && #[trigger] card_equiv(board, result@[k].card as int, d) by {
                    if !class_started(board, d, c as int) {
                        assert(card_equiv(board, c as int, d));
                        lemma_equiv_board(board, c as int, d);
                        assert(assigned[c as int]);
                        let e = choose|e: int| 0 <= e < c && #[trigger] card_equiv(board, e, c as int);
                        assert(card_equiv(board, e, d));
                    }
                }
            }
            c = c + 1;
            continue;
        }
        proof {
            assert(!class_started(board, c as int, c as int));
        }
        assigned[c as usize] = true;
        let mut perms: Vec<[u16; NUM_COMBOS]> = Vec::new();
        let ghost mut targets: Seq<u8> = Seq::empty();
        let ghost mut sigmas: Seq<Seq<u8>> = Seq::empty();
        let ghost mut idxs: Seq<int> = Seq::empty();
        let mut k: usize = 0;
        while k < suit_perms.len()
            invariant
                c < 52,
                !board.has(c as int),
                !class_started(board, c as int, c as int),
                k <= suit_perms.len(),
                forall|kk: int| 0 <= kk < suit_perms.len() ==> is_board_symmetry(board, #[trigger] suit_perms@[kk]@),
                targets.len() == perms.len(),
                sigmas.len() == perms.len(),
                forall|j: int|
                    0 <= j < perms.len() ==> {
                        &&& is_board_symmetry(board, #[trigger] sigmas[j])
                        &&& map_card(sigmas[j], c) == targets[j]
                        &&& is_combo_table(sigmas[j], perms@[j]@)
                    },
                no_dup(targets),
                forall|d: u8| #[trigger] targets.contains(d) ==> d != c && card_equiv(board, c as int, d as int),
                forall|d: int|
                    #![trigger assigned[d]]
                    0 <= d < 52 ==> assigned[d] == (!board.has(d) && (class_started(board, d, c as int) || d == c
                        || targets.contains(d as u8))),
                forall|kk: int|
                    0 <= kk < k ==> #[trigger] map_card(suit_perms@[kk]@, c) == c || targets.contains(
                        map_card(suit_perms@[kk]@, c),
                    ),
                forall|k1: int, k2: int|
                    0 <= k1 < k2 < suit_perms.len() ==> perm_code(suit_perms@[k1]@) < perm_code(
                        suit_perms@[k2]@,
                    ),
                idxs.len() == perms.len(),
                forall|j: int|
                    0 <= j < perms.len() ==> 0 <= #[trigger] idxs[j] < k && sigmas[j]
                        == suit_perms@[idxs[j]]@,
                forall|j1: int, j2: int| 0 <= j1 < j2 < perms.len() ==> idxs[j1] < idxs[j2],
                forall|j: int, kk: int|
                    0 <= j < perms.len() && 0 <= kk < k && #[trigger] map_card(suit_perms@[kk]@, c)
                        == #[trigger] targets[j] ==> idxs[j] <= kk,
            decreases suit_perms.len() - k,
        {
            let sp = suit_perms[k];
            let mapped = rank(c) * 4 + sp[suit(c) as usize];
            proof {
                lemma_symmetry_maps_within_class(board, sp@, c);
                assert(mapped == map_card(sp@, c));
                lemma_equiv_board(board, c as int, mapped as int);
                if class_started(board, mapped as int, c as int) {
                    let e = choose|e: int| 0 <= e < c && #[trigger] card_equiv(board, e, mapped as int);
                    assert(card_equiv(board, e, c as int));
                }
            }
            if mapped != c && !board.contains(mapped) && !assigned[mapped as usize] {
                assigned[mapped as usize] = true;
                let table = combo_permutation(&sp);
                perms.push(table);
                proof {
                    let old_targets = targets;
                    let old_idxs = idxs;
                    targets = targets.push(mapped);
                    sigmas = sigmas.push(sp@);
                    idxs = idxs.push(k as int);
                    assert forall|j: int, kk: int|
                        0 <= j < perms.len() && 0 <= kk < k + 1 && #[trigger] map_card(suit_perms@[kk]@, c)
                            == #[trigger] targets[j] implies idxs[j] <= kk by {
                        if j == perms.len() - 1 && kk < k {
                            assert(targets[j] == mapped);
                            assert(map_card(suit_perms@[kk]@, c) == c || old_targets.contains(
                                map_card(suit_perms@[kk]@, c)));
                        }
                        if j < perms.len() - 1 {
                            assert(targets[j] == old_targets[j]);
                            assert(idxs[j] == old_idxs[j]);
                        }
                    }
                    assert(!old_targets.contains(mapped));
                    assert forall|a: int, b: int| 0 <= a < b < targets.len() implies targets[a]
                        != targets[b] by {
                        if b == targets.len() - 1 {
                            assert(old_targets.contains(old_targets[a]));
                        } else {
                            assert(targets[a] == old_targets[a] && targets[b] == old_targets[b]);
                        }
                    }
                    assert forall|d: u8| #[trigger] targets.contains(d) implies d != c && card_equiv(
                        board,
                        c as int,
                        d as int,
                    ) by {
                        if d != mapped {
                            let i = choose|i: int| 0 <= i < targets.len() && targets[i] == d;
                            assert(old_targets[i] == d);
                            assert(old_targets.contains(d));
                        }
                    }
                    assert forall|d: int| #![trigger assigned[d]] 0 <= d < 52 implies assigned[d] == (!board.has(d)
                        && (class_started(board, d, c as int) || d == c || targets.contains(d as u8))) by {
                        if d != mapped {
                            if targets.contains(d as u8) {
                                let i = choose|i: int| 0 <= i < targets.len() && targets[i] == d as u8;
                                assert(old_targets[i] == d as u8);
                                assert(old_targets.contains(d as u8));
                            }
                            if old_targets.contains(d as u8) {
                                let i = choose|i: int| 0 <= i < old_targets.len() && old_targets[i] == d as u8;
                                assert(targets[i] == d as u8);
                            }
                        } else {
                            assert(targets[targets.len() - 1] == mapped);
                        }
                    }
                    assert forall|kk: int| 0 <= kk < k + 1 implies #[trigger] map_card(
                        suit_perms@[kk]@,
                        c,
                    ) == c || targets.contains(map_card(suit_perms@[kk]@, c)) by {
                        if kk < k && map_card(suit_perms@[kk]@, c) != c {
                            let d = map_card(suit_perms@[kk]@, c);
                            let i = choose|i: int| 0 <= i < old_targets.len() && old_targets[i] == d;
                            assert(targets[i] == d);
                        }
                        if kk == k {
                            assert(targets[targets.len() - 1] == mapped);
                        }
                    }
                }
            } else {
                proof {
                    assert forall|kk: int| 0 <= kk < k + 1 implies #[trigger] map_card(
                        suit_perms@[kk]@,
                        c,
                    ) == c || targets.contains(map_card(suit_perms@[kk]@, c)) by {
                        if kk == k && mapped != c {
                            assert(assigned[mapped as int]);
                        }
                    }
                }
            }
            k = k + 1;
        }
        proof {
            // every other card of the class was reached
            assert forall|d: u8| #[trigger] targets.contains(d) <==> (d != c && card_equiv(board, c as int, d as int)) by {
                if d != c && card_equiv(board, c as int, d as int) {
                    let sig = lemma_transposition(board, spec_suit(c) as int, spec_suit(d) as int);
                    let kk = choose|kk: int| 0 <= kk < suit_perms.len() && #[trigger] suit_perms@[kk]@ == sig;
                    crate::card::lemma_card_rank_suit(c);
                    crate::card::lemma_card_rank_suit(d);
                    assert(map_card(suit_perms@[kk]@, c) == d);
                }
            }
            assert forall|j: int, p: Seq<u8>|
                0 <= j < perms.len() && is_board_symmetry(board, p) && #[trigger] map_card(p, c)
                    == #[trigger] targets[j] implies perm_code(sigmas[j]) <= perm_code(p) by {
                let kk = choose|kk: int| 0 <= kk < suit_perms.len() && #[trigger] suit_perms@[kk]@ == p;
                assert(map_card(suit_perms@[kk]@, c) == targets[j]);
                assert(idxs[j] <= kk);
                if idxs[j] < kk {
                    assert(perm_code(suit_perms@[idxs[j]]@) < perm_code(suit_perms@[kk]@));
                }
            }
            assert forall|j1: int, j2: int| 0 <= j1 < j2 < perms.len() implies perm_code(sigmas[j1])
                < perm_code(sigmas[j2]) by {
                assert(idxs[j1] < idxs[j2]);
                assert(perm_code(suit_perms@[idxs[j1]]@) < perm_code(suit_perms@[idxs[j2]]@));
            }
            assert(entry_witness(board, c, perms@, targets, sigmas));
        }
        let ghost old_result = result@;
        result.push(CanonicalCard { card: c, perms });
        proof {
            assert forall|kk: int| 0 <= kk < result.len() implies {
                let cc = #[trigger] result@[kk];
                &&& cc.card < c + 1
                &&& !board.has(cc.card as int)
                &&& forall|e: int| 0 <= e < cc.card ==> !card_equiv(board, e, cc.card as int)
                &&& entry_ok(board, cc.card, cc.perms@)
            } by {
                if kk < old_result.len() {
                    assert(result@[kk] == old_result[kk]);
                } else {
                    assert forall|e: int| 0 <= e < c implies !card_equiv(board, e, c as int) by {
                        if card_equiv(board, e, c as int) {
                            assert(class_started(board, c as int, c as int));
                        }
                    }
                }
            }
            assert forall|k1: int, k2: int| 0 <= k1 < k2 < result.len() implies result@[k1].card
                < result@[k2].card by {
                if k2 < old_result.len() {
                    assert(result@[k1] == old_result[k1]);
                    assert(result@[k2] == old_result[k2]);
                } else {
                    assert(result@[k1] == old_result[k1]);
                }
            }
            assert forall|d: int| #![trigger assigned[d]] 0 <= d < 52 implies assigned[d] == (!board.has(d)
                && class_started(board, d, c + 1)) by {
                if class_started(board, d, c + 1) && !class_started(board, d, c as int) {
                    assert(card_equiv(board, c as int, d));
                    if d != c {
                        assert(targets.contains(d as u8));
                    }
                }
                if class_started(board, d, c as int) {
                    let e = choose|e: int| 0 <= e < c && #[trigger] card_equiv(board, e, d);
                    assert(card_equiv(board, e, d));
                }
                if targets.contains(d as u8) || d == c {
                    assert(card_equiv(board, c as int, d));
                }
            }
            assert forall|d: int|
                0 <= d < 52 && !board.has(d) && class_started(board, d, c + 1) implies exists|kk: int|
                    0 <= kk < result.len() && #[trigger] card_equiv(board, result@[kk].card as int, d) by {
                if class_started(board, d, c as int) {
                    let kk = choose|kk: int|
                        0 <= kk < old_result.len() && #[trigger] card_equiv(board, old_result[kk].card as int, d);
                    assert(result@[kk] == old_result[kk]);
                } else {
                    let e = choose|e: int| 0 <= e < c + 1 && #[trigger] card_equiv(board, e, d);
                    assert(e == c);
                    assert(result@[old_result.len() as int].card == c);
                }
            }
        }
        c = c + 1;
    }
    proof {
        assert forall|d: int| 0 <= d < 52 && !board.has(d) implies exists|k: int|
            0 <= k < result.len() && #[trigger] card_equiv(board, result@[k].card as int, d) by {
            assert(card_equiv(board, d, d));
            assert(class_started(board, d, 52));
        }
    }
    result
}

// ---------------------------------------------------------------------------
// Composition of combo permutations (group closure)
// ---------------------------------------------------------------------------

/// A table whose entries are all combo indices.
pub open spec fn valid_table(t: Seq<u16>) -> bool {
    &&& t.len() == NUM_COMBOS
    &&& forall|c: int| 0 <= c < NUM_COMBOS ==> t[c] < NUM_COMBOS
}

/// Apply `a`, then `b`: entry `c` is `b[a[c]]`.
pub open spec fn compose_tables(a: Seq<u16>, b: Seq<u16>) -> Seq<u16> {
    Seq::new(NUM_COMBOS as nat, |c: int| b[a[c] as int])
}

pub open spec fn identity_table() -> Seq<u16> {
    Seq::new(NUM_COMBOS as nat, |c: int| c as u16)
}

/// `t` is one of the tables of `r`.
pub open spec fn holds_table(r: Seq<[u16; NUM_COMBOS]>, t: Seq<u16>) -> bool {
    exists|k: int| 0 <= k < r.len() && #[trigger] r[k]@ == t
}

/// `t` is one of the given tables.
pub open spec fn is_given(gens: Seq<[u16; NUM_COMBOS]>, t: Seq<u16>) -> bool {
    exists|i: int| 0 <= i < gens.len() && #[trigger] gens[i]@ == t
}

/// `t` is the composition of two (not necessarily distinct) tables among the first `n`
/// of `r`.
pub open spec fn composed_from(r: Seq<[u16; NUM_COMBOS]>, n: int, t: Seq<u16>) -> bool {
    exists|a: int, b: int| 0 <= a < n && 0 <= b < n && t == #[trigger] compose_tables(r[a]@, r[b]@)
}

/// No table occurs twice in `r`.
pub open spec fn distinct_tables(r: Seq<[u16; NUM_COMBOS]>) -> bool {
    forall|k1: int, k2: int| 0 <= k1 < k2 < r.len() ==> r[k1]@ != r[k2]@
}

/// `r` is the group closure of the tables `gens`, the identity left out: valid tables,
/// each once, none the identity; every given table other than the identity is in it;
/// the composition of any two of its tables (a table with itself too) is the identity
/// or in it; and each of its tables is a given one or the composition of two before it.
pub open spec fn is_closure(gens: Seq<[u16; NUM_COMBOS]>, r: Seq<[u16; NUM_COMBOS]>) -> bool {
    &&& forall|k: int| 0 <= k < r.len() ==> valid_table(#[trigger] r[k]@)
    &&& forall|k: int| 0 <= k < r.len() ==> #[trigger] r[k]@ != identity_table()
    &&& distinct_tables(r)
    &&& forall|i: int|
        0 <= i < gens.len() ==> #[trigger] gens[i]@ == identity_table() || holds_table(r, gens[i]@)
    &&& forall|i: int, j: int|
        #![trigger compose_tables(r[i]@, r[j]@)]
        0 <= i < r.len() && 0 <= j < r.len() ==> {
            let t = compose_tables(r[i]@, r[j]@);
            t == identity_table() || holds_table(r, t)
        }
    &&& forall|k: int|
        0 <= k < r.len() ==> is_given(gens, #[trigger] r[k]@) || exists|i: int, j: int|
            0 <= i < k && 0 <= j < k && r[k]@ == compose_tables(r[i]@, r[j]@)
}

/// Whether two tables are equal.
fn same_table(a: &[u16; NUM_COMBOS], b: &[u16; NUM_COMBOS]) -> (r: bool)
    ensures
        r == (a@ == b@),
{
    let mut c: usize = 0;
    while c < NUM_COMBOS
        invariant
            c <= NUM_COMBOS,
            forall|x: int| 0 <= x < c ==> a[x] == b[x],
        decreases NUM_COMBOS - c,
    {
        if a[c] != b[c] {
            assert(a@[c as int] != b@[c as int]);
            return false;
        }
        c = c + 1;
    }
    assert(a@ =~= b@);
    true
}

/// Whether `t` is one of the tables of `r`.
fn find_table(r: &Vec<[u16; NUM_COMBOS]>, t: &[u16; NUM_COMBOS]) -> (b: bool)
    ensures
        b == holds_table(r@, t@),
{
    let mut k: usize = 0;
    while k < r.len()
        invariant
            k <= r.len(),
            forall|x: int| 0 <= x < k ==> r@[x]@ != t@,
        decreases r.len() - k,
    {
        if same_table(&r[k], t) {
            assert(r@[k as int]@ == t@);
            return true;
        }
        k = k + 1;
    }
    false
}

/// The tables of `r` as sequences.
pub open spec fn table_views(r: Seq<[u16; NUM_COMBOS]>) -> Seq<Seq<u16>> {
    r.map_values(|x: [u16; NUM_COMBOS]| x@)
}

/// `acc` followed by the tables of `gens` in their order, each left out when it is the
/// identity or already listed.
pub open spec fn seed_list(acc: Seq<Seq<u16>>, gens: Seq<[u16; NUM_COMBOS]>) -> Seq<Seq<u16>>
    decreases gens.len(),
{
    if gens.len() == 0 {
        acc
    } else {
        let prev = seed_list(acc, gens.drop_last());
        let t = gens.last()@;
        if t == identity_table() || prev.contains(t) {
            prev
        } else {
            prev.push(t)
        }
    }
}

proof fn lemma_seed_concat(acc: Seq<Seq<u16>>, a: Seq<[u16; NUM_COMBOS]>, t: Seq<[u16; NUM_COMBOS]>)
    ensures
        seed_list(seed_list(acc, a), t) == seed_list(acc, a + t),
    decreases t.len(),
{
    if t.len() == 0 {
        assert(a + t =~= a);
    } else {
        lemma_seed_concat(acc, a, t.drop_last());
        assert((a + t).drop_last() =~= a + t.drop_last());
        assert((a + t).last() == t.last());
    }
}

/// Appends to `result` each table of `src` that is not the identity and not yet there.
fn seed_tables(result: &mut Vec<[u16; NUM_COMBOS]>, src: &[[u16; NUM_COMBOS]], id: &[u16; NUM_COMBOS])
    requires
        id@ == identity_table(),
        forall|i: int| 0 <= i < src@.len() ==> valid_table(#[trigger] src@[i]@),
        forall|k: int| 0 <= k < old(result).len() ==> valid_table(#[trigger] old(result)@[k]@),
        forall|k: int| 0 <= k < old(result).len() ==> #[trigger] old(result)@[k]@ != identity_table(),
        distinct_tables(old(result)@),
    ensures
        final(result).len() >= old(result).len(),
        forall|k: int| 0 <= k < old(result).len() ==> #[trigger] final(result)@[k] == old(result)@[k],
        forall|k: int| old(result).len() <= k < final(result).len() ==> is_given(src@, #[trigger] final(result)@[k]@),
        forall|k: int| 0 <= k < final(result).len() ==> valid_table(#[trigger] final(result)@[k]@),
        forall|k: int| 0 <= k < final(result).len() ==> #[trigger] final(result)@[k]@ != identity_table(),
        distinct_tables(final(result)@),
        forall|i: int| 0 <= i < src@.len() ==> #[trigger] src@[i]@ == identity_table() || holds_table(final(result)@, src@[i]@),
        table_views(final(result)@) == seed_list(table_views(old(result)@), src@),
{
    let ghost start = result@;
    proof {
        assert(src@.take(0) =~= Seq::<[u16; NUM_COMBOS]>::empty());
    }
    let mut idx: usize = 0;
    while idx < src.len()
        invariant
            idx <= src.len(),
            id@ == identity_table(),
            forall|i: int| 0 <= i < src@.len() ==> valid_table(#[trigger] src@[i]@),
            result.len() >= start.len(),
            forall|k: int| 0 <= k < start.len() ==> #[trigger] result@[k] == start[k],
            forall|k: int| start.len() <= k < result.len() ==> is_given(src@, #[trigger] result@[k]@),
            forall|k: int| 0 <= k < result.len() ==> valid_table(#[trigger] result@[k]@),
            forall|k: int| 0 <= k < result.len() ==> #[trigger] result@[k]@ != identity_table(),
            distinct_tables(result@),
            forall|i: int|
                0 <= i < idx ==> #[trigger] src@[i]@ == identity_table() || holds_table(result@, src@[i]@),
            table_views(result@) == seed_list(table_views(start), src@.take(idx as int)),
        decreases src.len() - idx,
    {
        let perm = src[idx];
        let ghost old_result = result@;
        proof {
            assert(src@.take(idx + 1).drop_last() =~= src@.take(idx as int));
            assert(src@.take(idx + 1).last() == src@[idx as int]);
            assert(holds_table(old_result, perm@) <==> table_views(old_result).contains(perm@)) by {
                if holds_table(old_result, perm@) {
                    let k = choose|k: int| 0 <= k < old_result.len() && #[trigger] old_result[k]@ == perm@;
                    assert(table_views(old_result)[k] == perm@);
                }
                if table_views(old_result).contains(perm@) {
                    let k = choose|k: int| 0 <= k < table_views(old_result).len() && table_views(old_result)[k] == perm@;
                    assert(old_result[k]@ == perm@);
                }
            }
        }
        if !same_table(&perm, id) && !find_table(result, &perm) {
            result.push(perm);
            proof {
                lemma_push_table(old_result, perm, result@);
                assert(is_given(src@, perm@));
                assert(table_views(result@) =~= table_views(old_result).push(perm@));
            }
        }
        proof {
            assert forall|i: int| 0 <= i < idx + 1 implies #[trigger] src@[i]@ == identity_table()
                || holds_table(result@, src@[i]@) by {
                if holds_table(old_result, src@[i]@) {
                    let k = choose|k: int| 0 <= k < old_result.len() && #[trigger] old_result[k]@ == src@[i]@;
                    assert(result@[k] == old_result[k]);
                }
            }
        }
        idx = idx + 1;
    }
    proof {
        assert(src@.take(idx as int) =~= src@);
    }
}

/// Compose all pairs of tables, and pairs drawn from their compositions, until nothing
/// new appears: the closure of `ancestor` together with `this_level` under composition,
/// without the identity and without repeats, the given tables first in their order.
pub fn compose_perms(
    ancestor: &[[u16; NUM_COMBOS]],
    this_level: &[[u16; NUM_COMBOS]],
) -> (result: Vec<[u16; NUM_COMBOS]>)
    requires
        forall|i: int| 0 <= i < ancestor@.len() ==> valid_table(#[trigger] ancestor@[i]@),
        forall|i: int| 0 <= i < this_level@.len() ==> valid_table(#[trigger] this_level@[i]@),
    ensures
        is_closure(ancestor@ + this_level@, result@),
        seed_list(Seq::empty(), ancestor@ + this_level@).len() <= result.len(),
        forall|i: int|
            0 <= i < seed_list(Seq::empty(), ancestor@ + this_level@).len() ==> #[trigger] result@[i]@
                == seed_list(Seq::empty(), ancestor@ + this_level@)[i],
{
    let ghost gens = ancestor@ + this_level@;
    let mut id = [0u16; NUM_COMBOS];
    let mut c: usize = 0;
    while c < NUM_COMBOS
        invariant
            c <= NUM_COMBOS,
            forall|x: int| 0 <= x < c ==> id[x] == x,
        decreases NUM_COMBOS - c,
    {
        id[c] = c as u16;
        c = c + 1;
    }
    proof {
        assert(id@ =~= identity_table());
    }
    // seed with the given tables, without the identity and repeats
    let mut result: Vec<[u16; NUM_COMBOS]> = Vec::new();
    proof {
        assert(table_views(result@) =~= Seq::<Seq<u16>>::empty());
    }
    seed_tables(&mut result, ancestor, &id);
    let ghost seeded = result@;
    seed_tables(&mut result, this_level, &id);
    let ghost seed = table_views(result@);
    proof {
        lemma_seed_concat(Seq::empty(), ancestor@, this_level@);
        assert(seed == seed_list(Seq::empty(), gens));
        assert forall|k: int| 0 <= k < result.len() implies is_given(gens, #[trigger] result@[k]@) by {
            if k < seeded.len() {
                assert(result@[k] == seeded[k]);
                let i = choose|i: int| 0 <= i < ancestor@.len() && #[trigger] ancestor@[i]@ == seeded[k]@;
                assert(gens[i] == ancestor@[i]);
            } else {
                let i = choose|i: int| 0 <= i < this_level@.len() && #[trigger] this_level@[i]@ == result@[k]@;
                assert(gens[ancestor@.len() + i] == this_level@[i]);
            }
        }
        assert forall|i: int| 0 <= i < gens.len() implies #[trigger] gens[i]@ == identity_table()
            || holds_table(result@, gens[i]@) by {
            if i < ancestor@.len() {
                assert(gens[i] == ancestor@[i]);
                if holds_table(seeded, ancestor@[i]@) {
                    let k = choose|k: int| 0 <= k < seeded.len() && #[trigger] seeded[k]@ == ancestor@[i]@;
                    assert(result@[k] == seeded[k]);
                }
            } else {
                assert(gens[i] == this_level@[i - ancestor@.len()]);
            }
        }
    }
    // iterative closure: compose all pairs until no new table appears
    loop
        invariant
            gens == ancestor@ + this_level@,
            id@ == identity_table(),
            seed == seed_list(Seq::empty(), gens),
            seed.len() <= result.len(),
            forall|i: int| 0 <= i < seed.len() ==> #[trigger] result@[i]@ == seed[i],
            forall|k: int| 0 <= k < result.len() ==> valid_table(#[trigger] result@[k]@),
            forall|k: int| 0 <= k < result.len() ==> #[trigger] result@[k]@ != identity_table(),
            distinct_tables(result@),
            forall|i: int|
                0 <= i < gens.len() ==> #[trigger] gens[i]@ == identity_table() || holds_table(
                    result@,
                    gens[i]@,
                ),
            forall|k: int|
                0 <= k < result.len() ==> is_given(gens, #[trigger] result@[k]@) || exists|i: int, j: int|
                    0 <= i < k && 0 <= j < k && result@[k]@ == compose_tables(
                        result@[i]@,
                        result@[j]@,
                    ),
        ensures
            is_closure(gens, result@),
            seed.len() <= result.len(),
            forall|i: int| 0 <= i < seed.len() ==> #[trigger] result@[i]@ == seed[i],
        decreases usize::MAX - result.len(),
    {
        let mut new_perms: Vec<[u16; NUM_COMBOS]> = Vec::new();
        let n = result.len();
        let mut i: usize = 0;
        while i < n
            invariant
                n == result.len(),
                i <= n,
                id@ == identity_table(),
                forall|k: int| 0 <= k < result.len() ==> valid_table(#[trigger] result@[k]@),
                forall|k: int| 0 <= k < new_perms.len() ==> valid_table(#[trigger] new_perms@[k]@),
                forall|k: int| 0 <= k < new_perms.len() ==> #[trigger] new_perms@[k]@ != identity_table(),
                forall|k: int| 0 <= k < new_perms.len() ==> !holds_table(result@, #[trigger] new_perms@[k]@),
                distinct_tables(new_perms@),
                forall|k: int|
                    0 <= k < new_perms.len() ==> composed_from(result@, n as int, #[trigger] new_perms@[k]@),
                forall|a: int, b: int|
                    #![trigger compose_tables(result@[a]@, result@[b]@)]
                    0 <= a < i && 0 <= b < n ==> {
                        let t = compose_tables(result@[a]@, result@[b]@);
                        t == identity_table() || holds_table(result@, t) || holds_table(new_perms@, t)
                    },
            decreases n - i,
        {
            let mut j: usize = 0;
            while j < n
                invariant
                    n == result.len(),
                    i < n,
                    j <= n,
                    id@ == identity_table(),
                    forall|k: int| 0 <= k < result.len() ==> valid_table(#[trigger] result@[k]@),
                    forall|k: int| 0 <= k < new_perms.len() ==> valid_table(#[trigger] new_perms@[k]@),
                    forall|k: int| 0 <= k < new_perms.len() ==> #[trigger] new_perms@[k]@ != identity_table(),
                    forall|k: int| 0 <= k < new_perms.len() ==> !holds_table(result@, #[trigger] new_perms@[k]@),
                    distinct_tables(new_perms@),
                    forall|k: int|
                        0 <= k < new_perms.len() ==> composed_from(result@, n as int, #[trigger] new_perms@[k]@),
                    forall|a: int, b: int|
                        #![trigger compose_tables(result@[a]@, result@[b]@)]
                        0 <= a < n && 0 <= b < n && (a < i || (a == i && b < j)) ==> {
                            let t = compose_tables(result@[a]@, result@[b]@);
                            t == identity_table() || holds_table(result@, t) || holds_table(new_perms@, t)
                        },
                decreases n - j,
            {
                // compose result[i] then result[j]: composed[c] = result[j][result[i][c]]
                let mut composed = [0u16; NUM_COMBOS];
                let mut c: usize = 0;
                while c < NUM_COMBOS
                    invariant
                        n == result.len(),
                        i < n,
                        j < n,
                        valid_table(result@[i as int]@),
                        valid_table(result@[j as int]@),
                        c <= NUM_COMBOS,
                        forall|x: int| 0 <= x < c ==> composed[x] == result@[j as int]@[result@[i as int]@[x] as int],
                    decreases NUM_COMBOS - c,
                {
                    let v = result[i][c];
                    composed[c] = result[j][v as usize];
                    c = c + 1;
                }
                proof {
                    assert(composed@ =~= compose_tables(result@[i as int]@, result@[j as int]@));
                }
                let ghost old_new = new_perms@;
                if !same_table(&composed, &id) && !find_table(&result, &composed) && !find_table(
                    &new_perms,
                    &composed,
                ) {
                    new_perms.push(composed);
                    proof {
                        lemma_push_table(old_new, composed, new_perms@);
                        assert forall|k: int| 0 <= k < new_perms.len() implies composed_from(result@, n as int, #[trigger] new_perms@[k]@) by {
                            if k < old_new.len() {
                                assert(new_perms@[k] == old_new[k]);
                            } else {
                                assert(new_perms@[k]@ == compose_tables(result@[i as int]@, result@[j as int]@));
                            }
                        }
                        assert forall|k: int| 0 <= k < new_perms.len() implies valid_table(#[trigger] new_perms@[k]@)
                            && new_perms@[k]@ != identity_table() && !holds_table(result@, new_perms@[k]@) by {
                            if k < old_new.len() {
                                assert(new_perms@[k] == old_new[k]);
                            }
                        }
                    }
                }
                proof {
                    assert forall|a: int, b: int|
                        #![trigger compose_tables(result@[a]@, result@[b]@)]
                        0 <= a < n && 0 <= b < n && (a < i || (a == i && b < j + 1)) implies {
                            let t = compose_tables(result@[a]@, result@[b]@);
                            t == identity_table() || holds_table(result@, t) || holds_table(new_perms@, t)
                        } by {
                        let t = compose_tables(result@[a]@, result@[b]@);
                        if holds_table(old_new, t) {
                            let k = choose|k: int| 0 <= k < old_new.len() && #[trigger] old_new[k]@ == t;
                            assert(new_perms@[k] == old_new[k]);
                        }
                        if a == i && b == j && t != identity_table() && !holds_table(result@, t)
                            && !holds_table(old_new, t) {
                            assert(new_perms@[old_new.len() as int] == composed);
                        }
                    }
                }
                j = j + 1;
            }
            i = i + 1;
        }
        if new_perms.len() == 0 {
            proof {
                assert forall|a: int, b: int|
                    #![trigger compose_tables(result@[a]@, result@[b]@)]
                    0 <= a < result.len() && 0 <= b < result.len() implies {
                        let t = compose_tables(result@[a]@, result@[b]@);
                        t == identity_table() || holds_table(result@, t)
                    } by {
                    let t = compose_tables(result@[a]@, result@[b]@);
                    if holds_table(new_perms@, t) {
                        let k = choose|k: int| 0 <= k < new_perms@.len() && #[trigger] new_perms@[k]@ == t;
                    }
                }
            }
            break;
        }
        let ghost old_result = result@;
        let ghost added = new_perms@;
        result.append(&mut new_perms);
        proof {
            lemma_append_tables(old_result, added, result@);
            assert forall|i: int| 0 <= i < seed.len() implies #[trigger] result@[i]@ == seed[i] by {
                assert(result@[i] == old_result[i]);
            }
            assert forall|k: int| 0 <= k < result.len() implies is_given(gens, #[trigger] result@[k]@) || exists|i: int, j: int|
                0 <= i < k && 0 <= j < k && result@[k]@ == compose_tables(
                    result@[i]@,
                    result@[j]@,
                ) by {
                if k < old_result.len() {
                    assert(result@[k] == old_result[k]);
                    if !is_given(gens, old_result[k]@) {
                        let (i, j) = choose|i: int, j: int|
                            0 <= i < k && 0 <= j < k && old_result[k]@ == compose_tables(
                                old_result[i]@,
                                old_result[j]@,
                            );
                        assert(result@[i] == old_result[i] && result@[j] == old_result[j]);
                    }
                } else {
                    assert(result@[k] == added[k - old_result.len()]);
                    assert(composed_from(old_result, n as int, added[k - old_result.len()]@));
                    let (a, b) = choose|a: int, b: int|
                        0 <= a < n && 0 <= b < n && added[k - old_result.len()]@ == #[trigger] compose_tables(
                            old_result[a]@,
                            old_result[b]@,
                        );
                    assert(result@[a] == old_result[a] && result@[b] == old_result[b]);
                }
            }
            assert forall|ii: int| 0 <= ii < gens.len() implies #[trigger] gens[ii]@ == identity_table()
                || holds_table(result@, gens[ii]@) by {
                if holds_table(old_result, gens[ii]@) {
                    let k = choose|k: int| 0 <= k < old_result.len() && #[trigger] old_result[k]@ == gens[ii]@;
                    assert(result@[k] == old_result[k]);
                }
            }
        }
    }
    result
}

proof fn lemma_push_table(old: Seq<[u16; NUM_COMBOS]>, t: [u16; NUM_COMBOS], new: Seq<[u16; NUM_COMBOS]>)
    requires
        new == old.push(t),
        distinct_tables(old),
        !holds_table(old, t@),
    ensures
        forall|x: Seq<u16>| holds_table(new, x) <==> (holds_table(old, x) || x == t@),
        forall|k: int| 0 <= k < old.len() ==> new[k] == old[k],
        new[old.len() as int] == t,
        distinct_tables(new),
{
    assert forall|x: Seq<u16>| holds_table(new, x) <==> (holds_table(old, x) || x == t@) by {
        if holds_table(new, x) {
            let k = choose|k: int| 0 <= k < new.len() && #[trigger] new[k]@ == x;
            if k < old.len() {
                assert(old[k] == new[k]);
            }
        }
        if holds_table(old, x) {
            let k = choose|k: int| 0 <= k < old.len() && #[trigger] old[k]@ == x;
            assert(old[k] == new[k]);
        }
        if x == t@ {
            assert(new[old.len() as int] == t);
        }
    }
    assert forall|k1: int, k2: int| 0 <= k1 < k2 < new.len() implies new[k1]@ != new[k2]@ by {
        assert(new[k1] == old[k1]);
        if k2 < old.len() {
            assert(new[k2] == old[k2]);
        }
    }
}

proof fn lemma_append_tables(
    old: Seq<[u16; NUM_COMBOS]>,
    added: Seq<[u16; NUM_COMBOS]>,
    new: Seq<[u16; NUM_COMBOS]>,
)
    requires
        new == old + added,
        forall|k: int| 0 <= k < old.len() ==> valid_table(#[trigger] old[k]@),
        forall|k: int| 0 <= k < added.len() ==> valid_table(#[trigger] added[k]@),
        forall|k: int| 0 <= k < old.len() ==> #[trigger] old[k]@ != identity_table(),
        forall|k: int| 0 <= k < added.len() ==> #[trigger] added[k]@ != identity_table(),
        forall|k: int| 0 <= k < added.len() ==> !holds_table(old, #[trigger] added[k]@),
        distinct_tables(old),
        distinct_tables(added),
    ensures
        forall|k: int| 0 <= k < new.len() ==> valid_table(#[trigger] new[k]@),
        forall|k: int| 0 <= k < new.len() ==> #[trigger] new[k]@ != identity_table(),
        distinct_tables(new),
{
    assert forall|k: int| 0 <= k < new.len() implies valid_table(#[trigger] new[k]@) && new[k]@ != identity_table() by {
        if k < old.len() {
            assert(old[k] == new[k]);
        } else {
            assert(added[k - old.len()] == new[k]);
        }
    }
    assert forall|k1: int, k2: int| 0 <= k1 < k2 < new.len() implies new[k1]@ != new[k2]@ by {
        if k2 < old.len() {
            assert(old[k1] == new[k1] && old[k2] == new[k2]);
        } else if k1 < old.len() {
            assert(old[k1] == new[k1]);
            assert(added[k2 - old.len()] == new[k2]);
            assert(!holds_table(old, added[k2 - old.len()]@));
        } else {
            assert(added[k1 - old.len()] == new[k1]);
            assert(added[k2 - old.len()] == new[k2]);
        }
    }
}

/// Each table of a closure `r1` of `g1` is in a closure `r2` of `g2` when every given
/// table of `g1` other than the identity is given in `g2`.
proof fn lemma_closure_member(
    g1: Seq<[u16; NUM_COMBOS]>,
    g2: Seq<[u16; NUM_COMBOS]>,
    r1: Seq<[u16; NUM_COMBOS]>,
    r2: Seq<[u16; NUM_COMBOS]>,
    k: int,
)
    requires
        is_closure(g1, r1),
        is_closure(g2, r2),
        forall|i: int| 0 <= i < g1.len() ==> #[trigger] g1[i]@ == identity_table() || is_given(g2, g1[i]@),
        0 <= k < r1.len(),
    ensures
        holds_table(r2, r1[k]@),
    decreases k,
{
    assert(r1[k]@ != identity_table());
    if is_given(g1, r1[k]@) {
        let i = choose|i: int| 0 <= i < g1.len() && #[trigger] g1[i]@ == r1[k]@;
        assert(is_given(g2, g1[i]@));
        let i2 = choose|i2: int| 0 <= i2 < g2.len() && #[trigger] g2[i2]@ == g1[i]@;
        assert(g2[i2]@ == identity_table() || holds_table(r2, g2[i2]@));
    } else {
        let (i, j) = choose|i: int, j: int|
            0 <= i < k && 0 <= j < k && r1[k]@ == compose_tables(r1[i]@, r1[j]@);
        lemma_closure_member(g1, g2, r1, r2, i);
        lemma_closure_member(g1, g2, r1, r2, j);
        let i2 = choose|i2: int| 0 <= i2 < r2.len() && #[trigger] r2[i2]@ == r1[i]@;
        let j2 = choose|j2: int| 0 <= j2 < r2.len() && #[trigger] r2[j2]@ == r1[j]@;
        assert(compose_tables(r2[i2]@, r2[j2]@) == r1[k]@);
    }
}

/// A table that maps no two combos to one: with all entries combo indices, a bijection
/// of the combos.
pub open spec fn injective_table(t: Seq<u16>) -> bool {
    &&& valid_table(t)
    &&& forall|a: int, b: int| 0 <= a < NUM_COMBOS && 0 <= b < NUM_COMBOS && a != b ==> t[a] != t[b]
}

/// Table `k` of a closure of bijections is a bijection.
proof fn lemma_closure_injective(gens: Seq<[u16; NUM_COMBOS]>, r: Seq<[u16; NUM_COMBOS]>, k: int)
    requires
        is_closure(gens, r),
        forall|i: int| 0 <= i < gens.len() ==> injective_table(#[trigger] gens[i]@),
        0 <= k < r.len(),
    ensures
        injective_table(r[k]@),
    decreases k,
{
    if is_given(gens, r[k]@) {
        let i = choose|i: int| 0 <= i < gens.len() && #[trigger] gens[i]@ == r[k]@;
        assert(injective_table(gens[i]@));
    } else {
        let (i, j) = choose|i: int, j: int|
            0 <= i < k && 0 <= j < k && r[k]@ == compose_tables(r[i]@, r[j]@);
        lemma_closure_injective(gens, r, i);
        lemma_closure_injective(gens, r, j);
        let t = r[k]@;
        assert forall|a: int, b: int| 0 <= a < NUM_COMBOS && 0 <= b < NUM_COMBOS && a != b implies t[a] != t[b] by {
            assert(t[a] == r[j]@[r[i]@[a] as int]);
            assert(t[b] == r[j]@[r[i]@[b] as int]);
        }
    }
}

/// Composing bijections gives bijections: when every given table is a bijection of the
/// combos, so is every table of the closure.
pub proof fn law_closure_of_bijections(gens: Seq<[u16; NUM_COMBOS]>, r: Seq<[u16; NUM_COMBOS]>)
    requires
        is_closure(gens, r),
        forall|i: int| 0 <= i < gens.len() ==> injective_table(#[trigger] gens[i]@),
    ensures
        forall|k: int| 0 <= k < r.len() ==> injective_table(#[trigger] r[k]@),
{
    assert forall|k: int| 0 <= k < r.len() implies injective_table(#[trigger] r[k]@) by {
        lemma_closure_injective(gens, r, k);
    }
}

/// The closure does not depend on the order in which the tables are given: the closure
/// of `a` then `t` and that of `t` then `a` hold the same tables, and as many.
pub proof fn law_compose_perms_order_free(
    a: Seq<[u16; NUM_COMBOS]>,
    t: Seq<[u16; NUM_COMBOS]>,
    r1: Seq<[u16; NUM_COMBOS]>,
    r2: Seq<[u16; NUM_COMBOS]>,
)
    requires
        is_closure(a + t, r1),
        is_closure(t + a, r2),
    ensures
        forall|x: Seq<u16>| holds_table(r1, x) <==> holds_table(r2, x),
        r1.len() == r2.len(),
{
    let g1 = a + t;
    let g2 = t + a;
    assert forall|i: int| 0 <= i < g1.len() implies #[trigger] g1[i]@ == identity_table() || is_given(g2, g1[i]@) by {
        if i < a.len() {
            assert(g2[t.len() + i] == g1[i]);
        } else {
            assert(g2[i - a.len()] == g1[i]);
        }
    }
    assert forall|i: int| 0 <= i < g2.len() implies #[trigger] g2[i]@ == identity_table() || is_given(g1, g2[i]@) by {
        if i < t.len() {
            assert(g1[a.len() + i] == g2[i]);
        } else {
            assert(g1[i - t.len()] == g2[i]);
        }
    }
    assert forall|x: Seq<u16>| holds_table(r1, x) <==> holds_table(r2, x) by {
        if holds_table(r1, x) {
            let k = choose|k: int| 0 <= k < r1.len() && #[trigger] r1[k]@ == x;
            lemma_closure_member(g1, g2, r1, r2, k);
        }
        if holds_table(r2, x) {
            let k = choose|k: int| 0 <= k < r2.len() && #[trigger] r2[k]@ == x;
            lemma_closure_member(g2, g1, r2, r1, k);
        }
    }
    let v1 = r1.map_values(|x: [u16; NUM_COMBOS]| x@);
    let v2 = r2.map_values(|x: [u16; NUM_COMBOS]| x@);
    assert(v1.no_duplicates()) by {
        assert forall|k1: int, k2: int| 0 <= k1 < v1.len() && 0 <= k2 < v1.len() && k1 != k2 implies v1[k1] != v1[k2] by {
            if k1 < k2 {
                assert(r1[k1]@ != r1[k2]@);
            } else {
                assert(r1[k2]@ != r1[k1]@);
            }
        }
    }
    assert(v2.no_duplicates()) by {
        assert forall|k1: int, k2: int| 0 <= k1 < v2.len() && 0 <= k2 < v2.len() && k1 != k2 implies v2[k1] != v2[k2] by {
            if k1 < k2 {
                assert(r2[k1]@ != r2[k2]@);
            } else {
                assert(r2[k2]@ != r2[k1]@);
            }
        }
    }
    assert(v1.to_set() =~= v2.to_set()) by {
        assert forall|x: Seq<u16>| v1.to_set().contains(x) implies v2.to_set().contains(x) by {
            let k = choose|k: int| 0 <= k < v1.len() && v1[k] == x;
            assert(r1[k]@ == x);
            assert(holds_table(r1, x));
            let k2 = choose|k2: int| 0 <= k2 < r2.len() && #[trigger] r2[k2]@ == x;
            assert(v2[k2] == x);
        }
        assert forall|x: Seq<u16>| v2.to_set().contains(x) implies v1.to_set().contains(x) by {
            let k = choose|k: int| 0 <= k < v2.len() && v2[k] == x;
            assert(r2[k]@ == x);
            assert(holds_table(r2, x));
            let k1 = choose|k1: int| 0 <= k1 < r1.len() && #[trigger] r1[k1]@ == x;
            assert(v1[k1] == x);
        }
    }
    v1.unique_seq_to_set();
    v2.unique_seq_to_set();
}

/// Suit `t` belongs to some group.
pub open spec fn grouped(groups: Seq<Vec<u8>>, t: int) -> bool {
    exists|g: int| 0 <= g < groups.len() && #[trigger] groups[g]@.contains(t as u8)
}

/// Suit `t` belongs to one of the first `gi` groups.
pub open spec fn in_groups_before(groups: Seq<Vec<u8>>, gi: int, t: int) -> bool {
    exists|g: int| 0 <= g < gi && #[trigger] groups[g]@.contains(t as u8)
}

// ---------------------------------------------------------------------------
// Multiplicity of the canonical next cards
// ---------------------------------------------------------------------------

/// The cards off the board.
pub open spec fn open_cards(board: Hand) -> Set<u8> {
    Set::new(|d: u8| d < 52 && !board.has(d as int))
}

/// The class of card `c`: the cards a board symmetry can take it to.
pub open spec fn class_of(board: Hand, c: u8) -> Set<u8> {
    Set::new(|d: u8| card_equiv(board, c as int, d as int))
}

/// How many cards the entries stand for: each representative and its isomorphic cards.
pub open spec fn multiplicity(r: Seq<CanonicalCard>) -> int
    decreases r.len(),
{
    if r.len() == 0 {
        0
    } else {
        multiplicity(r.drop_last()) + 1 + r.last().perms@.len()
    }
}

/// The union of the classes of the representatives.
pub open spec fn classes_of(board: Hand, r: Seq<CanonicalCard>) -> Set<u8>
    decreases r.len(),
{
    if r.len() == 0 {
        Set::empty()
    } else {
        classes_of(board, r.drop_last()) + class_of(board, r.last().card)
    }
}

/// A representative's class is itself plus one card per entry.
proof fn lemma_class_size(board: Hand, cc: CanonicalCard)
    requires
        cc.card < 52,
        entry_ok(board, cc.card, cc.perms@),
    ensures
        class_of(board, cc.card).finite(),
        class_of(board, cc.card).len() == 1 + cc.perms@.len(),
{
    let (targets, sigmas) = choose|targets: Seq<u8>, sigmas: Seq<Seq<u8>>|
        #[trigger] entry_witness(board, cc.card, cc.perms@, targets, sigmas);
    assert(entry_witness(board, cc.card, cc.perms@, targets, sigmas));
    assert(targets.no_duplicates()) by {
        assert forall|i: int, j: int|
            0 <= i < targets.len() && 0 <= j < targets.len() && i != j implies targets[i]
            != targets[j] by {
            if i < j {
                assert(targets[i] != targets[j]);
            } else {
                assert(targets[j] != targets[i]);
            }
        }
    }
    targets.unique_seq_to_set();
    assert(class_of(board, cc.card) =~= targets.to_set().insert(cc.card)) by {
        assert forall|d: u8| class_of(board, cc.card).contains(d) <==> targets.to_set().insert(
            cc.card,
        ).contains(d) by {
            assert(targets.contains(d) <==> (d != cc.card && card_equiv(
                board,
                cc.card as int,
                d as int,
            )));
        }
    }
    assert(!targets.to_set().contains(cc.card)) by {
        assert(!targets.contains(cc.card));
    }
}

proof fn lemma_classes_of(board: Hand, r: Seq<CanonicalCard>)
    requires
        reps_ok(board, r),
    ensures
        classes_of(board, r).finite(),
        classes_of(board, r).len() == multiplicity(r),
        forall|d: u8| #[trigger] classes_of(board, r).contains(d) ==> exists|k: int|
            0 <= k < r.len() && card_equiv(board, r[k].card as int, d as int),
    decreases r.len(),
{
    if r.len() > 0 {
        let prev = r.drop_last();
        let last = r.last();
        assert(reps_ok(board, prev)) by {
            assert forall|k: int| 0 <= k < prev.len() implies #[trigger] prev[k] == r[k] by {}
        }
        lemma_classes_of(board, prev);
        assert(r[r.len() - 1] == last);
        lemma_class_size(board, last);
        assert(classes_of(board, prev).disjoint(class_of(board, last.card))) by {
            assert forall|d: u8| !(classes_of(board, prev).contains(d) && class_of(
                board,
                last.card,
            ).contains(d)) by {
                if classes_of(board, prev).contains(d) && class_of(board, last.card).contains(d) {
                    let k = choose|k: int|
                        0 <= k < prev.len() && card_equiv(board, prev[k].card as int, d as int);
                    assert(r[k] == prev[k]);
                    assert(r[k].card < last.card);
                    assert(card_equiv(board, prev[k].card as int, last.card as int));
                }
            }
        }
        vstd::set_lib::lemma_set_disjoint_lens(classes_of(board, prev), class_of(board, last.card));
        assert forall|d: u8| #[trigger] classes_of(board, r).contains(d) implies exists|k: int|
            0 <= k < r.len() && card_equiv(board, r[k].card as int, d as int) by {
            if classes_of(board, prev).contains(d) {
                let k = choose|k: int|
                    0 <= k < prev.len() && card_equiv(board, prev[k].card as int, d as int);
                assert(r[k] == prev[k]);
            } else {
                assert(card_equiv(board, r[r.len() - 1].card as int, d as int));
            }
        }
    }
}

proof fn lemma_classes_contain(board: Hand, r: Seq<CanonicalCard>, k: int, d: u8)
    requires
        0 <= k < r.len(),
        card_equiv(board, r[k].card as int, d as int),
    ensures
        classes_of(board, r).contains(d),
    decreases r.len(),
{
    if k < r.len() - 1 {
        assert(r.drop_last()[k] == r[k]);
        lemma_classes_contain(board, r.drop_last(), k, d);
    } else {
        assert(class_of(board, r.last().card).contains(d));
    }
}

/// Every card off the board is counted exactly once: a representative stands for itself
/// and for one isomorphic card per entry, so the multiplicities of the canonical next
/// cards add up to the number of cards off the board.
pub proof fn law_multiplicity(board: Hand, r: Seq<CanonicalCard>)
    requires
        next_cards_ok(board, r),
    ensures
        open_cards(board).finite(),
        multiplicity(r) == open_cards(board).len(),
{
    lemma_classes_of(board, r);
    assert(classes_of(board, r) =~= open_cards(board)) by {
        assert forall|d: u8| #[trigger] classes_of(board, r).contains(d) <==> open_cards(
            board,
        ).contains(d) by {
            if classes_of(board, r).contains(d) {
                let k = choose|k: int|
                    0 <= k < r.len() && card_equiv(board, r[k].card as int, d as int);
                lemma_equiv_board(board, r[k].card as int, d as int);
            }
            if open_cards(board).contains(d) {
                let k = choose|k: int|
                    0 <= k < r.len() && #[trigger] card_equiv(board, r[k].card as int, d as int);
                lemma_classes_contain(board, r, k, d);
            }
        }
    }
}

} // verus!
