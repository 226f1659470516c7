use nlhe::card::{card, combo_from_index, combo_index, Hand, NUM_COMBOS};
use nlhe::iso::{canonical_hand, canonical_next_cards, CanonicalHand, NUM_CANONICAL_HANDS};

#[test]
fn index_and_decoding_are_inverse_on_valid_hands() {
    for hi in 0..13u8 {
        for lo in 0..=hi {
            for suited in [false, true] {
                if hi == lo && suited {
                    continue;
                }
                let h = CanonicalHand { hi, lo, suited };
                let idx = h.index();
                assert!((idx as usize) < NUM_CANONICAL_HANDS);
                assert_eq!(CanonicalHand::from_index(idx), h);
            }
        }
    }
}

#[test]
fn every_class_is_dealt() {
    let mut seen = [false; NUM_CANONICAL_HANDS];
    for c1 in 0..52u8 {
        for c2 in 0..52u8 {
            if c1 != c2 {
                let h = canonical_hand(c1, c2);
                assert_eq!(h, canonical_hand(c2, c1));
                seen[h.index() as usize] = true;
            }
        }
    }
    assert!(seen.iter().all(|&s| s));
}

#[test]
fn canonical_hand_names() {
    assert_eq!(canonical_hand(card(12, 0), card(12, 3)).to_string(), "AA");
    assert_eq!(canonical_hand(card(11, 2), card(12, 2)).to_string(), "AKs");
    assert_eq!(canonical_hand(card(8, 0), card(7, 1)).to_string(), "T9o");
    assert_eq!(CanonicalHand::from_index(0).to_string(), "22");
    assert_eq!(CanonicalHand::from_index(13).to_string(), "32s");
    assert_eq!(CanonicalHand::from_index(168).to_string(), "AKo");
}

#[test]
fn combo_index_roundtrip() {
    for idx in 0..NUM_COMBOS as u16 {
        let (a, b) = combo_from_index(idx);
        assert!(a < b && b < 52);
        assert_eq!(combo_index(a, b), idx);
        assert_eq!(combo_index(b, a), idx);
    }
}

#[test]
fn multiplicity_counts_every_open_card_once() {
    let boards = [
        Hand::new(),
        Hand::new().add(card(12, 2)).add(card(11, 2)).add(card(8, 2)).add(card(3, 2)),
        Hand::new().add(card(5, 0)).add(card(5, 1)).add(card(5, 2)).add(card(9, 3)).add(card(2, 3)),
    ];
    for board in boards {
        let canonical = canonical_next_cards(board);
        let total: usize = canonical.iter().map(|cc| 1 + cc.perms.len()).sum();
        assert_eq!(total, 52 - board.count());
        for w in canonical.windows(2) {
            assert!(w[0].card < w[1].card);
        }
    }
    // On the empty board all four suits are interchangeable: one card per rank.
    assert_eq!(canonical_next_cards(Hand::new()).len(), 13);
}

#[test]
fn canonical_form_is_a_fixed_point() {
    let boards = [
        Hand::new().add(card(12, 3)).add(card(11, 3)).add(card(1, 1)).add(card(5, 0)).add(card(0, 2)),
        Hand::new().add(card(7, 2)).add(card(7, 0)).add(card(3, 1)),
        Hand::new().add(card(0, 3)),
        Hand::new(),
    ];
    for board in boards {
        let (canon, _) = nlhe::iso::canonical_board(board);
        let (again, perm) = nlhe::iso::canonical_board(canon);
        assert_eq!(perm, [0, 1, 2, 3]);
        assert_eq!(again, canon);
    }
}

fn relabel(h: Hand, perm: [u8; 4]) -> Hand {
    let mut r = Hand::new();
    for c in h.cards() {
        r = r.add(card(c / 4, perm[(c % 4) as usize]));
    }
    r
}

#[test]
fn relabelled_boards_share_one_canonical_form() {
    let boards = [
        Hand::new().add(card(0, 0)).add(card(0, 2)).add(card(1, 0)),
        Hand::new().add(card(0, 0)).add(card(0, 1)).add(card(1, 0)),
        Hand::new().add(card(12, 3)).add(card(11, 3)).add(card(1, 1)).add(card(5, 0)).add(card(0, 2)),
        Hand::new().add(card(7, 2)).add(card(7, 0)).add(card(3, 1)).add(card(3, 3)),
    ];
    let perms = [[3, 1, 2, 0], [1, 0, 2, 3], [2, 3, 0, 1], [1, 3, 2, 0]];
    for board in boards {
        let (canon, perm) = nlhe::iso::canonical_board(board);
        assert_eq!(relabel(board, perm), canon);
        for p in perms {
            let (other, _) = nlhe::iso::canonical_board(relabel(board, p));
            assert_eq!(other, canon);
        }
    }
    // 2c 2h 3c and its clubs-spades relabelling 2s 2h 3s.
    let (c1, _) = nlhe::iso::canonical_board(boards[0]);
    assert_eq!(c1, Hand::new().add(card(0, 0)).add(card(0, 1)).add(card(1, 0)));
}

#[test]
fn relabelled_observations_share_one_key() {
    // AcAh on Kc 7d 2d and AsAh on Ks 7d 2d.
    let hole1 = Hand::new().add(card(12, 0)).add(card(12, 2));
    let board1 = Hand::new().add(card(11, 0)).add(card(5, 1)).add(card(0, 1));
    let hole2 = Hand::new().add(card(12, 3)).add(card(12, 2));
    let board2 = Hand::new().add(card(11, 3)).add(card(5, 1)).add(card(0, 1));
    let k1 = nlhe::iso::canonical_observation(hole1, board1);
    assert_eq!(k1, nlhe::iso::canonical_observation(hole2, board2));
    for p in [[3, 1, 2, 0], [1, 0, 2, 3], [2, 3, 0, 1], [1, 2, 3, 0]] {
        assert_eq!(nlhe::iso::canonical_observation(relabel(hole1, p), relabel(board1, p)), k1);
    }
    // No two cards of one rank in the hole or on the board: suits are numbered by first
    // appearance. AsKs on AhTh2d: Ks As 2d Th Ah give 44, 48, 1, 34, 50.
    let hole = Hand::new().add(card(12, 3)).add(card(11, 3));
    let board = Hand::new().add(card(12, 2)).add(card(8, 2)).add(card(0, 1));
    let expected: i64 = 44 + (48 << 8) + (1 << 16) + (34 << 24) + (50i64 << 32);
    assert_eq!(nlhe::iso::canonical_observation(hole, board), expected);
    // The least key: 2h 3h on a 4h board, renamed to clubs: 2c (0), 3c (4) and 4c (8).
    let hole = Hand::new().add(card(0, 2)).add(card(1, 2));
    let board = Hand::new().add(card(2, 2));
    assert_eq!(nlhe::iso::canonical_observation(hole, board), 4 * 256 + 8 * 65536);
}

#[test]
fn lone_order_three_generator_closes_to_its_group() {
    let g = nlhe::iso::combo_permutation(&[1, 3, 2, 0]);
    let closure = nlhe::iso::compose_perms(&[], &[g]);
    assert_eq!(closure.len(), 2);
    assert!(closure.contains(&g));
    let g2 = nlhe::iso::combo_permutation(&[3, 0, 2, 1]);
    assert!(closure.contains(&g2));
}

#[test]
fn closure_does_not_depend_on_argument_order() {
    let a = [nlhe::iso::combo_permutation(&[1, 0, 2, 3])];
    let t = [nlhe::iso::combo_permutation(&[0, 2, 1, 3]), nlhe::iso::combo_permutation(&[0, 1, 2, 3])];
    let r1 = nlhe::iso::compose_perms(&a, &t);
    let r2 = nlhe::iso::compose_perms(&t, &a);
    assert_eq!(r1.len(), 5);
    assert_eq!(r2.len(), 5);
    for x in &r1 {
        assert!(r2.contains(x));
    }
}

fn perm_number(p: &[u8; 4]) -> u32 {
    64 * p[0] as u32 + 16 * p[1] as u32 + 4 * p[2] as u32 + p[3] as u32
}

#[test]
fn board_symmetries_come_in_increasing_number() {
    let all = nlhe::iso::board_suit_perms(Hand::new());
    assert_eq!(all.len(), 23);
    assert_eq!(all[0], [0, 1, 3, 2]);
    assert_eq!(all[22], [3, 2, 1, 0]);
    for w in all.windows(2) {
        assert!(perm_number(&w[0]) < perm_number(&w[1]));
    }
    // Two pairs of interchangeable suits: c with h (both hold a 9), d with s (neither).
    let board = Hand::new().add(card(7, 0)).add(card(7, 2));
    assert_eq!(
        nlhe::iso::board_suit_perms(board),
        vec![[0, 3, 2, 1], [2, 1, 0, 3], [2, 3, 0, 1]]
    );
}

#[test]
fn closure_lists_the_given_tables_first() {
    let id = nlhe::iso::combo_permutation(&[0, 1, 2, 3]);
    let a = nlhe::iso::combo_permutation(&[1, 0, 2, 3]);
    let b = nlhe::iso::combo_permutation(&[0, 2, 1, 3]);
    let r = nlhe::iso::compose_perms(&[id, b], &[a, b]);
    assert_eq!(r.len(), 5);
    assert!(r[0] == b && r[1] == a);
}

#[test]
fn next_card_tables_follow_the_first_symmetry() {
    // 9c 9h 5d: clubs and hearts are interchangeable.
    let board = Hand::new().add(card(7, 0)).add(card(7, 2)).add(card(3, 1));
    let next = canonical_next_cards(board);
    assert_eq!(next[0].card, card(0, 0));
    assert_eq!(next[0].perms.len(), 1);
    assert!(next[0].perms[0] == nlhe::iso::combo_permutation(&[2, 1, 0, 3]));
}
