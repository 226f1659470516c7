use nlhe::buckets::{
    hand_bucket, ACE_HIGH, FIFTH_PAIR, FLUSH, FOURTH_PAIR, FULL_HOUSE, OVERPAIR, QUADS,
    SECOND_PAIR, SET, STRAIGHT, THIRD_PAIR, TOP_PAIR, TRIPS, TWO_PAIR, UNDERPAIR,
};
use nlhe::card::{card, Hand};

/// The hand of cards written like "AhKd7c": rank 2..9, T, J, Q, K, A, then suit c, d, h, s.
fn h(cards: &str) -> Hand {
    let b = cards.as_bytes();
    let mut hand = Hand::new();
    let mut i = 0;
    while i + 1 < b.len() {
        let r = match b[i] {
            b'2'..=b'9' => b[i] - b'2',
            b'T' => 8,
            b'J' => 9,
            b'Q' => 10,
            b'K' => 11,
            b'A' => 12,
            other => panic!("bad rank {}", other as char),
        };
        let s = match b[i + 1] {
            b'c' => 0,
            b'd' => 1,
            b'h' => 2,
            b's' => 3,
            other => panic!("bad suit {}", other as char),
        };
        hand = hand.add(card(r, s));
        i += 2;
    }
    hand
}

#[test]
fn test_top_second_third_pair() {
    let board = h("AhKd7c");
    assert_eq!(hand_bucket(h("AdQh"), board), TOP_PAIR);
    assert_eq!(hand_bucket(h("KhJd"), board), SECOND_PAIR);
    assert_eq!(hand_bucket(h("7h6d"), board), THIRD_PAIR);
}

#[test]
fn test_overpair_and_underpair() {
    let board = h("KhQd7c");
    assert_eq!(hand_bucket(h("AdAh"), board), OVERPAIR);
    assert_eq!(hand_bucket(h("8h8d"), board), UNDERPAIR);
}

#[test]
fn test_high_card() {
    let board = h("AhKd7c");
    assert_eq!(hand_bucket(h("QhJd"), board), ACE_HIGH);
    assert_eq!(hand_bucket(h("JhTd"), board), ACE_HIGH);
    assert_eq!(hand_bucket(h("9h8d"), board), ACE_HIGH);
}

#[test]
fn test_set_and_trips() {
    let board = h("AhKd7c");
    assert_eq!(hand_bucket(h("AdAc"), board), SET);
    assert_eq!(hand_bucket(h("KhKs"), board), SET);

    let paired_board = h("7h7dAc");
    assert_eq!(hand_bucket(h("7cKd"), paired_board), TRIPS);
}

#[test]
fn test_two_pair_and_full_house() {
    let board = h("AsKd7c");
    assert_eq!(hand_bucket(h("AdKh"), board), TWO_PAIR);

    let trip_board = h("7h7d7c");
    assert_eq!(hand_bucket(h("AhAd"), trip_board), FULL_HOUSE);
}

#[test]
fn test_quads() {
    let trip_board = h("7h7d7c");
    assert_eq!(hand_bucket(h("7s6d"), trip_board), QUADS);
}

#[test]
fn test_flush_and_straight() {
    let flush_board = h("2h5h9h");
    assert_eq!(hand_bucket(h("JhTh"), flush_board), FLUSH);

    let straight_board = h("9hTdJs");
    assert_eq!(hand_bucket(h("QhKd"), straight_board), STRAIGHT);
}

#[test]
fn test_fourth_and_fifth_pair() {
    let turn_board = h("AhKd9c7h");
    assert_eq!(hand_bucket(h("9d8c"), turn_board), THIRD_PAIR);
    assert_eq!(hand_bucket(h("7s6d"), turn_board), FOURTH_PAIR);

    let river_board = h("AhKd9c7h5s");
    assert_eq!(hand_bucket(h("7d6c"), river_board), FOURTH_PAIR);
    assert_eq!(hand_bucket(h("5d4c"), river_board), FIFTH_PAIR);
}

#[test]
fn test_board_pair_one_pair_classification() {
    // Board has a pair of 7s; hand KQ makes the board pair (7s).
    // Distinct ranks desc: [A, 7]; 7 is at index 1 -> 2nd Pair.
    let board = h("7h7dAc");
    assert_eq!(hand_bucket(h("KhQd"), board), SECOND_PAIR);
}
