//! Compact combo indexing for the solver: the combos still in play (neither card on the
//! board, and in some player's range) numbered 0..live_count in ascending order, and the
//! combo permutation tables rewritten in that numbering.
use vstd::prelude::*;
use crate::card::{
    combo_from_index, Hand, NUM_COMBOS, spec_combo_index, lemma_combo_roundtrip,
};

verus! {

/// The two cards, lower first, of the combo with index `c`.
pub open spec fn combo_cards(c: int) -> (int, int) {
    choose|p: (int, int)| 0 <= p.0 < p.1 < 52 && spec_combo_index(p.0, p.1) == c
}

/// Combo `c` is in play: some player holds it in range and neither card is on the board.
pub open spec fn combo_live(board: Hand, active: Seq<bool>, c: int) -> bool {
    &&& active[c]
    &&& !board.has(combo_cards(c).0)
    &&& !board.has(combo_cards(c).1)
}

/// The live combos below `n`, ascending.
pub open spec fn live_below(board: Hand, active: Seq<bool>, n: int) -> Seq<u16>
    decreases n,
{
    if n <= 0 {
        Seq::empty()
    } else if combo_live(board, active, n - 1) {
        live_below(board, active, n - 1).push((n - 1) as u16)
    } else {
        live_below(board, active, n - 1)
    }
}

pub struct ComboMap {
    pub live_count: usize,
    /// Compact index to combo index.
    pub live_to_combo: Vec<u16>,
    /// Combo index to compact index (-1 for a combo out of play).
    pub combo_to_live: [i16; NUM_COMBOS],
}

impl ComboMap {
    /// The two tables are inverse: each compact index names a combo that maps back to it,
    /// and each combo maps to -1 or to a compact index naming it.
    pub open spec fn wf(self) -> bool {
        &&& self.live_count == self.live_to_combo@.len()
        &&& self.live_count <= NUM_COMBOS
        &&& forall|i: int|
            0 <= i < self.live_count ==> {
                let c = #[trigger] self.live_to_combo@[i];
                &&& c < NUM_COMBOS
                &&& self.combo_to_live[c as int] == i
            }
        &&& forall|c: int|
            0 <= c < NUM_COMBOS ==> {
                let i = #[trigger] self.combo_to_live[c];
                i == -1 || (0 <= i < self.live_count && self.live_to_combo@[i as int] == c)
            }
    }

    /// Number the combos in play: `active[c]` tells whether either player has combo `c` in
    /// range; a combo with a card on the board is out of play.
    pub fn new(board: Hand, active: &[bool; NUM_COMBOS]) -> (m: ComboMap)
        ensures
            m.wf(),
            m.live_to_combo@ == live_below(board, active@, NUM_COMBOS as int),
            forall|c: int|
                0 <= c < NUM_COMBOS ==> (#[trigger] m.combo_to_live[c] >= 0) == combo_live(
                    board,
                    active@,
                    c,
                ),
    {
        let mut live_to_combo: Vec<u16> = Vec::new();
        let mut combo_to_live = [-1i16; NUM_COMBOS];
        let mut c: usize = 0;
        while c < NUM_COMBOS
            invariant
                c <= NUM_COMBOS,
                live_to_combo@ == live_below(board, active@, c as int),
                live_to_combo@.len() <= c,
                forall|i: int|
                    0 <= i < live_to_combo@.len() ==> {
                        let d = #[trigger] live_to_combo@[i];
                        &&& d < c
                        &&& combo_to_live[d as int] == i
                    },
                forall|d: int|
                    0 <= d < NUM_COMBOS ==> {
                        let i = #[trigger] combo_to_live[d];
                        &&& (d >= c ==> i == -1)
                        &&& (d < c ==> (i >= 0) == combo_live(board, active@, d))
                        &&& (i == -1 || (0 <= i < live_to_combo@.len() && live_to_combo@[i as int]
                            == d))
                    },
            decreases NUM_COMBOS - c,
        {
            let (c1, c2) = combo_from_index(c as u16);
            proof {
                lemma_combo_roundtrip(c1 as int, c2 as int, c as int);
                let p = combo_cards(c as int);
                assert(0 <= c1 < c2 < 52 && spec_combo_index(c1 as int, c2 as int) == c);
                assert(p.0 == c1 && p.1 == c2);
            }
            let live = !board.contains(c1) && !board.contains(c2) && active[c];
            let ghost prev_list = live_to_combo@;
            let ghost prev_map = combo_to_live;
            if live {
                let li = live_to_combo.len();
                combo_to_live[c] = li as i16;
                live_to_combo.push(c as u16);
                proof {
                    assert forall|i: int| 0 <= i < live_to_combo@.len() implies {
                        let d = #[trigger] live_to_combo@[i];
                        &&& d < c + 1
                        &&& combo_to_live[d as int] == i
                    } by {
                        if i < prev_list.len() {
                            assert(live_to_combo@[i] == prev_list[i]);
                        }
                    }
                    assert forall|d: int| 0 <= d < NUM_COMBOS implies {
                        let i = #[trigger] combo_to_live[d];
                        &&& (d >= c + 1 ==> i == -1)
                        &&& (d < c + 1 ==> (i >= 0) == combo_live(board, active@, d))
                        &&& (i == -1 || (0 <= i < live_to_combo@.len() && live_to_combo@[i as int]
                            == d))
                    } by {
                        if d != c {
                            assert(combo_to_live[d] == prev_map[d]);
                            let i = prev_map[d];
                            if i != -1 {
                                assert(live_to_combo@[i as int] == prev_list[i as int]);
                            }
                        }
                    }
                }
            }
            c = c + 1;
        }
        ComboMap { live_count: live_to_combo.len(), live_to_combo, combo_to_live }
    }

    /// The compact form of a combo permutation table, entry `i` for compact index `i`.
    pub open spec fn spec_compact(self, perm: Seq<u16>, i: int) -> u16 {
        if i < self.live_count {
            let t = self.combo_to_live[perm[self.live_to_combo@[i] as int] as int];
            if t >= 0 {
                t as u16
            } else {
                self.live_count as u16
            }
        } else {
            i as u16
        }
    }

    /// Rewrite a combo permutation table in compact indices: each live combo goes to the
    /// compact index of its image, or to `live_count` (a zero-padded slot) when the image
    /// is out of play; indices from `live_count` on map to themselves.
    pub fn compact_perm(&self, perm: &[u16; NUM_COMBOS]) -> (r: [u16; NUM_COMBOS])
        requires
            self.wf(),
            forall|c: int| 0 <= c < NUM_COMBOS ==> #[trigger] perm[c] < NUM_COMBOS,
        ensures
            forall|i: int| 0 <= i < NUM_COMBOS ==> #[trigger] r[i] == self.spec_compact(perm@, i),
    {
        let mut compact = [0u16; NUM_COMBOS];
        let mut i: usize = 0;
        while i < self.live_count
            invariant
                self.wf(),
                forall|c: int| 0 <= c < NUM_COMBOS ==> #[trigger] perm[c] < NUM_COMBOS,
                i <= self.live_count,
                forall|j: int| 0 <= j < i ==> #[trigger] compact[j] == self.spec_compact(perm@, j),
            decreases self.live_count - i,
        {
            let orig_c = self.live_to_combo[i] as usize;
            let permuted_orig = perm[orig_c] as usize;
            let compact_target = self.combo_to_live[permuted_orig];
            let ghost prev = compact;
            if compact_target >= 0 {
                compact[i] = compact_target as u16;
            } else {
                // The image is out of play: the zero-padded slot.
                compact[i] = self.live_count as u16;
            }
            assert forall|j: int| 0 <= j < i + 1 implies #[trigger] compact[j] == self.spec_compact(
                perm@,
                j,
            ) by {
                if j < i {
                    assert(compact[j] == prev[j]);
                }
            }
            i = i + 1;
        }
        // Identity beyond the live combos.
        while i < NUM_COMBOS
            invariant
                self.wf(),
                self.live_count <= i <= NUM_COMBOS,
                forall|j: int| 0 <= j < i ==> #[trigger] compact[j] == self.spec_compact(perm@, j),
            decreases NUM_COMBOS - i,
        {
            let ghost prev = compact;
            compact[i] = i as u16;
            assert forall|j: int| 0 <= j < i + 1 implies #[trigger] compact[j] == self.spec_compact(
                perm@,
                j,
            ) by {
                if j < i {
                    assert(compact[j] == prev[j]);
                }
            }
            i = i + 1;
        }
        compact
    }
}

/// The compact numbering lists exactly the combos in play, in ascending order.
pub proof fn law_live_combos_ascending(board: Hand, active: Seq<bool>, n: int)
    requires
        0 <= n <= NUM_COMBOS,
    ensures
        forall|i: int, j: int|
            0 <= i < j < live_below(board, active, n).len() ==> live_below(board, active, n)[i]
                < live_below(board, active, n)[j],
        forall|c: int|
            0 <= c < n ==> (live_below(board, active, n).contains(c as u16) <==> combo_live(
                board,
                active,
                c,
            )),
        forall|i: int|
            0 <= i < live_below(board, active, n).len() ==> #[trigger] live_below(board, active, n)[i]
                < n,
    decreases n,
{
    if n > 0 {
        law_live_combos_ascending(board, active, n - 1);
        let prev = live_below(board, active, n - 1);
        let cur = live_below(board, active, n);
        assert forall|c: int| 0 <= c < n implies (cur.contains(c as u16) <==> combo_live(
            board,
            active,
            c,
        )) by {
            if c < n - 1 {
                if cur.contains(c as u16) && !prev.contains(c as u16) {
                    let k = choose|k: int| 0 <= k < cur.len() && cur[k] == c as u16;
                    assert(k == prev.len());
                }
                if prev.contains(c as u16) {
                    let k = choose|k: int| 0 <= k < prev.len() && prev[k] == c as u16;
                    assert(cur[k] == c as u16);
                }
            } else {
                if combo_live(board, active, c) {
                    assert(cur[prev.len() as int] == c as u16);
                } else {
                    assert(cur == prev);
                    if prev.contains(c as u16) {
                        let k = choose|k: int| 0 <= k < prev.len() && prev[k] == c as u16;
                        assert(prev[k] < n - 1);
                    }
                }
            }
        }
    }
}

} // verus!
