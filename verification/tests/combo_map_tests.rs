use nlhe::card::{card, combo_from_index, combo_index, Hand, NUM_COMBOS};
use nlhe::combo_map::ComboMap;
use nlhe::iso::combo_permutation;

#[test]
fn live_combos_are_numbered_in_order() {
    let board = Hand::new().add(card(12, 0)).add(card(11, 1)).add(card(0, 2));
    let mut active = [true; NUM_COMBOS];
    active[0] = false;
    let m = ComboMap::new(board, &active);
    // 51 combos hold each board card; 3 board pairs hold two of them; combo 0 is inactive.
    assert_eq!(m.live_count, NUM_COMBOS - (3 * 51 - 3) - 1);
    assert_eq!(m.live_to_combo.len(), m.live_count);
    for w in m.live_to_combo.windows(2) {
        assert!(w[0] < w[1]);
    }
    for c in 0..NUM_COMBOS {
        let (a, b) = combo_from_index(c as u16);
        let live = active[c] && !board.contains(a) && !board.contains(b);
        let i = m.combo_to_live[c];
        assert_eq!(i >= 0, live);
        if i >= 0 {
            assert_eq!(m.live_to_combo[i as usize] as usize, c);
        }
    }
}

#[test]
fn compact_permutation_follows_the_numbering() {
    let board = Hand::new().add(card(12, 3)).add(card(11, 3)).add(card(1, 1));
    let m = ComboMap::new(board, &[true; NUM_COMBOS]);
    let swap = combo_permutation(&[2, 1, 0, 3]);
    let compact = m.compact_perm(&swap);
    let ac_kc = combo_index(card(12, 0), card(11, 0));
    let ah_kh = combo_index(card(12, 2), card(11, 2));
    let from = m.combo_to_live[ac_kc as usize] as usize;
    assert_eq!(compact[from] as i16, m.combo_to_live[ah_kh as usize]);
    for i in m.live_count..NUM_COMBOS {
        assert_eq!(compact[i] as usize, i);
    }
    // Swapping clubs and hearts keeps the board, so every live combo stays live.
    for i in 0..m.live_count {
        assert!((compact[i] as usize) < m.live_count);
    }
}
