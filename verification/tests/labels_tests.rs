use nlhe::auto_size::{
    bet_size_label, build_postflop_bet_config, street_label, PostflopSizeCandidates,
    PostflopSizeSet, TurnSizeCandidates, TurnSizeSet,
};
use nlhe::buckets::{bucket_label, hand_bucket, STRAIGHT, STRAIGHT_FLUSH};
use nlhe::card::{card, Hand};
use nlhe::game::{BetConfig, BetSize, Street, IP, OOP};

#[test]
fn bucket_labels() {
    let expected = [
        "Straight Flush",
        "Quads",
        "Full House",
        "Flush",
        "Straight",
        "Set",
        "Trips",
        "Two Pair",
        "Overpair",
        "Top Pair",
        "2nd Pair",
        "3rd Pair",
        "4th Pair",
        "5th Pair",
        "Underpair",
        "Ace High",
        "King High",
        "Queen High or worse",
    ];
    for (code, label) in expected.iter().enumerate() {
        assert_eq!(bucket_label(code as u8), *label);
    }
    assert_eq!(bucket_label(18), "Unknown");
}

#[test]
fn straight_flush_and_wheel() {
    let board = Hand::new().add(card(7, 2)).add(card(6, 2)).add(card(5, 2));
    let hole = Hand::new().add(card(4, 2)).add(card(3, 2));
    assert_eq!(hand_bucket(hole, board), STRAIGHT_FLUSH);
    // A-2-3-4-5: the ace plays low.
    let board = Hand::new().add(card(0, 0)).add(card(1, 1)).add(card(2, 2));
    let hole = Hand::new().add(card(3, 3)).add(card(12, 0));
    assert_eq!(hand_bucket(hole, board), STRAIGHT);
}

#[test]
fn size_labels() {
    assert_eq!(street_label(Street::Preflop), "preflop");
    assert_eq!(street_label(Street::River), "river");
    assert_eq!(bet_size_label(BetSize::Frac(75, 100)), "75%");
    assert_eq!(bet_size_label(BetSize::Frac(2, 1)), "2x");
    assert_eq!(bet_size_label(BetSize::Frac(3, 2)), "3/2");
    assert_eq!(bet_size_label(BetSize::Bb(3)), "3bb");
    let t = TurnSizeSet {
        oop_bet: BetSize::Frac(50, 100),
        oop_raise: None,
        ip_bet: BetSize::Frac(75, 100),
        ip_raise: Some(BetSize::Frac(3, 1)),
    };
    assert_eq!(t.display(), "OOP 50/-, IP 75/300");
    let p = PostflopSizeSet { turn: Some(t), river: None };
    assert_eq!(p.display(), "turn=[OOP 50/-, IP 75/300], river=multi-size");
    let doc = TurnSizeSet {
        oop_bet: BetSize::Frac(50, 100),
        oop_raise: Some(BetSize::Frac(100, 100)),
        ip_bet: BetSize::Frac(3, 4),
        ip_raise: Some(BetSize::Frac(3, 2)),
    };
    assert_eq!(doc.display(), "OOP 50/100, IP 75/150");
    let odd = TurnSizeSet {
        oop_bet: BetSize::Frac(1, 3),
        oop_raise: Some(BetSize::Bb(4)),
        ip_bet: BetSize::Frac(-1, 2),
        ip_raise: None,
    };
    assert_eq!(odd.display(), "OOP 1/3/4bb, IP -1/2/-");
}

fn pools(bet: Vec<BetSize>, raise: Vec<BetSize>) -> TurnSizeCandidates {
    TurnSizeCandidates { oop_bet: bet.clone(), oop_raise: raise.clone(), ip_bet: bet, ip_raise: raise }
}

#[test]
fn single_size_grid_overrides_chosen_streets_only() {
    let base = BetConfig::default();
    let t = TurnSizeSet {
        oop_bet: BetSize::Frac(33, 100),
        oop_raise: Some(BetSize::Frac(3, 1)),
        ip_bet: BetSize::Frac(75, 100),
        ip_raise: None,
    };
    let set = PostflopSizeSet { turn: Some(t), river: None };
    let bc = build_postflop_bet_config(&base, &set);
    assert_eq!(bc.bet_sizes(Street::Turn, 0, OOP), &[BetSize::Frac(33, 100)]);
    assert_eq!(bc.bet_sizes(Street::Turn, 1, OOP), &[BetSize::Frac(3, 1)]);
    assert_eq!(bc.bet_sizes(Street::Turn, 2, OOP), &[BetSize::Frac(3, 1)]);
    assert_eq!(bc.bet_sizes(Street::Turn, 0, IP), &[BetSize::Frac(75, 100)]);
    assert!(bc.bet_sizes(Street::Turn, 1, IP).is_empty());
    for street in [Street::Preflop, Street::Flop, Street::River] {
        for depth in 0..4u8 {
            assert_eq!(bc.bet_sizes(street, depth, OOP), base.bet_sizes(street, depth, OOP));
            assert_eq!(bc.bet_sizes(street, depth, IP), base.bet_sizes(street, depth, IP));
        }
    }
}

#[test]
fn candidates_start_at_first_size_and_map_back_to_sets() {
    let c = PostflopSizeCandidates {
        turn: pools(vec![BetSize::Frac(33, 100), BetSize::Frac(75, 100)], vec![]),
        river: pools(vec![], vec![]),
    };
    let start = c.initial_sizes();
    assert_eq!(start[0], BetSize::Frac(33, 100));
    assert_eq!(start[1], BetSize::Frac(50, 100));
    assert_eq!(start[4], BetSize::Frac(50, 100));
    let set = c.size_set(start);
    assert_eq!(
        set,
        PostflopSizeSet {
            turn: Some(TurnSizeSet {
                oop_bet: BetSize::Frac(33, 100),
                oop_raise: None,
                ip_bet: BetSize::Frac(33, 100),
                ip_raise: None,
            }),
            river: None,
        }
    );
}
