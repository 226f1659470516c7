//! Semantic hand buckets for the GUI: small integer codes (0..=17) ordered by
//! approximate made-hand strength, with their labels.
use vstd::prelude::*;
use crate::card::{Hand, rank, spec_rank};

verus! {

pub const STRAIGHT_FLUSH: u8 = 0;
pub const QUADS: u8 = 1;
pub const FULL_HOUSE: u8 = 2;
pub const FLUSH: u8 = 3;
pub const STRAIGHT: u8 = 4;
pub const SET: u8 = 5;
pub const TRIPS: u8 = 6;
pub const TWO_PAIR: u8 = 7;
pub const OVERPAIR: u8 = 8;
pub const TOP_PAIR: u8 = 9;
pub const SECOND_PAIR: u8 = 10;
pub const THIRD_PAIR: u8 = 11;
pub const FOURTH_PAIR: u8 = 12;
pub const FIFTH_PAIR: u8 = 13;
pub const UNDERPAIR: u8 = 14;
pub const ACE_HIGH: u8 = 15;
pub const KING_HIGH: u8 = 16;
pub const QUEEN_HIGH_OR_WORSE: u8 = 17;

/// Label of each bucket code; "Unknown" for any other code.
pub open spec fn label_text(code: u8) -> Seq<char> {
    if code == STRAIGHT_FLUSH {
        "Straight Flush"@
    } else if code == QUADS {
        "Quads"@
    } else if code == FULL_HOUSE {
        "Full House"@
    } else if code == FLUSH {
        "Flush"@
    } else if code == STRAIGHT {
        "Straight"@
    } else if code == SET {
        "Set"@
    } else if code == TRIPS {
        "Trips"@
    } else if code == TWO_PAIR {
        "Two Pair"@
    } else if code == OVERPAIR {
        "Overpair"@
    } else if code == TOP_PAIR {
        "Top Pair"@
    } else if code == SECOND_PAIR {
        "2nd Pair"@
    } else if code == THIRD_PAIR {
        "3rd Pair"@
    } else if code == FOURTH_PAIR {
        "4th Pair"@
    } else if code == FIFTH_PAIR {
        "5th Pair"@
    } else if code == UNDERPAIR {
        "Underpair"@
    } else if code == ACE_HIGH {
        "Ace High"@
    } else if code == KING_HIGH {
        "King High"@
    } else if code == QUEEN_HIGH_OR_WORSE {
        "Queen High or worse"@
    } else {
        "Unknown"@
    }
}

/// Human-readable label for a bucket code.
pub fn bucket_label(code: u8) -> (r: &'static str)
    ensures
        r@ == label_text(code),
{
    proof {
        reveal_strlit("Straight Flush");
        reveal_strlit("Quads");
        reveal_strlit("Full House");
        reveal_strlit("Flush");
        reveal_strlit("Straight");
        reveal_strlit("Set");
        reveal_strlit("Trips");
        reveal_strlit("Two Pair");
        reveal_strlit("Overpair");
        reveal_strlit("Top Pair");
        reveal_strlit("2nd Pair");
        reveal_strlit("3rd Pair");
        reveal_strlit("4th Pair");
        reveal_strlit("5th Pair");
        reveal_strlit("Underpair");
        reveal_strlit("Ace High");
        reveal_strlit("King High");
        reveal_strlit("Queen High or worse");
        reveal_strlit("Unknown");
    }
    match code {
        STRAIGHT_FLUSH => "Straight Flush",
        QUADS => "Quads",
        FULL_HOUSE => "Full House",
        FLUSH => "Flush",
        STRAIGHT => "Straight",
        SET => "Set",
        TRIPS => "Trips",
        TWO_PAIR => "Two Pair",
        OVERPAIR => "Overpair",
        TOP_PAIR => "Top Pair",
        SECOND_PAIR => "2nd Pair",
        THIRD_PAIR => "3rd Pair",
        FOURTH_PAIR => "4th Pair",
        FIFTH_PAIR => "5th Pair",
        UNDERPAIR => "Underpair",
        ACE_HIGH => "Ace High",
        KING_HIGH => "King High",
        QUEEN_HIGH_OR_WORSE => "Queen High or worse",
        _ => "Unknown",
    }
}

// ---------------------------------------------------------------------------
// Made-hand categories
// ---------------------------------------------------------------------------

/// Category of the best five-card hand a set of cards makes.
#[derive(Debug, Clone, Copy, PartialEq, Eq, Structural)]
pub enum HandRank {
    HighCard,
    OnePair,
    TwoPair,
    ThreeOfAKind,
    Straight,
    Flush,
    FullHouse,
    FourOfAKind,
    StraightFlush,
}

/// Whether `h` holds the card of rank `r` and suit `s`.
pub open spec fn holds(h: Hand, r: int, s: int) -> bool {
    h.has(4 * r + s)
}

pub open spec fn bit(b: bool) -> int {
    if b {
        1
    } else {
        0
    }
}

/// How many cards of rank `r` the hand holds.
pub open spec fn rank_count(h: Hand, r: int) -> int {
    bit(holds(h, r, 0)) + bit(holds(h, r, 1)) + bit(holds(h, r, 2)) + bit(holds(h, r, 3))
}

/// How many cards of suit `s` and rank below `n` the hand holds.
pub open spec fn suit_count_below(h: Hand, s: int, n: int) -> int
    decreases n,
{
    if n <= 0 {
        0
    } else {
        suit_count_below(h, s, n - 1) + bit(holds(h, n - 1, s))
    }
}

/// Rank `r`, where -1 stands for the ace playing low.
pub open spec fn low_ace(r: int) -> int {
    if r == -1 {
        12
    } else {
        r
    }
}

/// Five ranks in a row, topped by `top`, are all present (the wheel has top 3).
pub open spec fn rank_run_at(h: Hand, top: int) -> bool {
    &&& rank_count(h, top) > 0
    &&& rank_count(h, top - 1) > 0
    &&& rank_count(h, top - 2) > 0
    &&& rank_count(h, top - 3) > 0
    &&& rank_count(h, low_ace(top - 4)) > 0
}

/// Five ranks in a row, topped by `top`, are all present in suit `s`.
pub open spec fn suit_run_at(h: Hand, s: int, top: int) -> bool {
    &&& holds(h, top, s)
    &&& holds(h, top - 1, s)
    &&& holds(h, top - 2, s)
    &&& holds(h, top - 3, s)
    &&& holds(h, low_ace(top - 4), s)
}

pub open spec fn has_straight(h: Hand) -> bool {
    exists|top: int| 3 <= top <= 12 && #[trigger] rank_run_at(h, top)
}

pub open spec fn has_straight_flush(h: Hand) -> bool {
    exists|s: int, top: int| 0 <= s < 4 && 3 <= top <= 12 && #[trigger] suit_run_at(h, s, top)
}

/// Some rank other than `skip` has at least `k` cards.
pub open spec fn rank_with(h: Hand, k: int, skip: int) -> bool {
    exists|r: int| 0 <= r < 13 && r != skip && #[trigger] rank_count(h, r) >= k
}

pub open spec fn has_flush(h: Hand) -> bool {
    exists|s: int| 0 <= s < 4 && #[trigger] suit_count_below(h, s, 13) >= 5
}

/// The highest rank below `n` with at least `k` cards, or -1.
pub open spec fn top_rank_below(h: Hand, k: int, n: int) -> int
    decreases n,
{
    if n <= 0 {
        -1
    } else if rank_count(h, n - 1) >= k {
        n - 1
    } else {
        top_rank_below(h, k, n - 1)
    }
}

/// The highest rank with at least `k` cards, or -1.
pub open spec fn top_rank(h: Hand, k: int) -> int {
    top_rank_below(h, k, 13)
}

/// The category of the best five-card hand in `h`, tested from the strongest down: a
/// straight flush, four of a kind, three of a kind with a pair of another rank, five of
/// one suit, five ranks in a row (ace high or low), three of a kind, two pairs, a pair.
pub open spec fn spec_hand_rank(h: Hand) -> HandRank {
    if has_straight_flush(h) {
        HandRank::StraightFlush
    } else if rank_with(h, 4, -1) {
        HandRank::FourOfAKind
    } else if rank_with(h, 3, -1) && rank_with(h, 2, top_rank(h, 3)) {
        HandRank::FullHouse
    } else if has_flush(h) {
        HandRank::Flush
    } else if has_straight(h) {
        HandRank::Straight
    } else if rank_with(h, 3, -1) {
        HandRank::ThreeOfAKind
    } else if rank_with(h, 2, -1) && rank_with(h, 2, top_rank(h, 2)) {
        HandRank::TwoPair
    } else if rank_with(h, 2, -1) {
        HandRank::OnePair
    } else {
        HandRank::HighCard
    }
}

proof fn lemma_top_rank_below(h: Hand, k: int, n: int)
    requires
        0 <= n <= 13,
    ensures
        -1 <= top_rank_below(h, k, n) < n,
        top_rank_below(h, k, n) >= 0 ==> rank_count(h, top_rank_below(h, k, n)) >= k,
        forall|r: int| top_rank_below(h, k, n) < r < n ==> #[trigger] rank_count(h, r) < k,
    decreases n,
{
    if n > 0 {
        lemma_top_rank_below(h, k, n - 1);
    }
}

/// A set with a rank of `k` cards has its highest such rank at `top_rank`; otherwise
/// `top_rank` is -1.
pub proof fn lemma_top_rank(h: Hand, k: int)
    ensures
        -1 <= top_rank(h, k) < 13,
        top_rank(h, k) >= 0 <==> rank_with(h, k, -1),
        top_rank(h, k) >= 0 ==> rank_count(h, top_rank(h, k)) >= k,
        forall|r: int| top_rank(h, k) < r < 13 ==> #[trigger] rank_count(h, r) < k,
{
    lemma_top_rank_below(h, k, 13);
    if rank_with(h, k, -1) {
        let r = choose|r: int| 0 <= r < 13 && r != -1 && #[trigger] rank_count(h, r) >= k;
        assert(rank_count(h, r) >= k);
    }
    if top_rank(h, k) >= 0 {
        assert(rank_count(h, top_rank(h, k)) >= k);
    }
}

/// Two distinct ranks with `k` cards exist exactly when some rank other than the highest
/// one with `k` cards has them too.
pub proof fn law_two_ranks_with(h: Hand, k: int)
    ensures
        (rank_with(h, k, -1) && rank_with(h, k, top_rank(h, k))) <==> exists|r1: int, r2: int|
            0 <= r1 < 13 && 0 <= r2 < 13 && r1 != r2 && #[trigger] rank_count(h, r1) >= k
                && #[trigger] rank_count(h, r2) >= k,
{
    lemma_top_rank(h, k);
    if exists|r1: int, r2: int|
        0 <= r1 < 13 && 0 <= r2 < 13 && r1 != r2 && #[trigger] rank_count(h, r1) >= k
            && #[trigger] rank_count(h, r2) >= k {
        let (r1, r2) = choose|r1: int, r2: int|
            0 <= r1 < 13 && 0 <= r2 < 13 && r1 != r2 && #[trigger] rank_count(h, r1) >= k
                && #[trigger] rank_count(h, r2) >= k;
        assert(rank_count(h, r1) >= k);
        assert(rank_count(h, r2) >= k);
        if r1 == top_rank(h, k) {
            assert(rank_count(h, r2) >= k);
        } else {
            assert(rank_count(h, r1) >= k);
        }
    }
    if rank_with(h, k, -1) && rank_with(h, k, top_rank(h, k)) {
        let r2 = choose|r: int| 0 <= r < 13 && r != top_rank(h, k) && #[trigger] rank_count(h, r) >= k;
        let t = top_rank(h, k);
        assert(rank_count(h, t) >= k);
        assert(rank_count(h, r2) >= k);
    }
}

fn card_bit(h: &Hand, r: u8, s: u8) -> (b: u8)
    requires
        r < 13,
        s < 4,
    ensures
        b == bit(holds(*h, r as int, s as int)),
{
    if h.contains(4 * r + s) {
        1
    } else {
        0
    }
}

/// How many cards of rank `r` the hand holds.
fn count_rank(h: &Hand, r: u8) -> (n: u8)
    requires
        r < 13,
    ensures
        n == rank_count(*h, r as int),
        n <= 4,
{
    card_bit(h, r, 0) + card_bit(h, r, 1) + card_bit(h, r, 2) + card_bit(h, r, 3)
}

/// Whether some rank other than `skip` has at least `k` cards.
fn find_rank_with(h: &Hand, k: u8, skip: i8) -> (b: bool)
    ensures
        b == rank_with(*h, k as int, skip as int),
{
    let mut r: u8 = 0;
    while r < 13
        invariant
            r <= 13,
            forall|q: int| 0 <= q < r && q != skip ==> #[trigger] rank_count(*h, q) < k,
        decreases 13 - r,
    {
        if r as i8 != skip && count_rank(h, r) >= k {
            assert(rank_count(*h, r as int) >= k);
            return true;
        }
        r = r + 1;
    }
    false
}

/// The highest rank with at least `k` cards, or -1.
fn find_top_rank(h: &Hand, k: u8) -> (t: i8)
    ensures
        t == top_rank(*h, k as int),
{
    let mut n: u8 = 13;
    while n > 0
        invariant
            n <= 13,
            top_rank(*h, k as int) == top_rank_below(*h, k as int, n as int),
        decreases n,
    {
        if count_rank(h, n - 1) >= k {
            return (n - 1) as i8;
        }
        n = n - 1;
    }
    -1
}

fn find_flush(h: &Hand) -> (b: bool)
    ensures
        b == has_flush(*h),
{
    let mut s: u8 = 0;
    while s < 4
        invariant
            s <= 4,
            forall|q: int| 0 <= q < s ==> #[trigger] suit_count_below(*h, q, 13) < 5,
        decreases 4 - s,
    {
        let mut n: u8 = 0;
        let mut c: u8 = 0;
        while n < 13
            invariant
                n <= 13,
                s < 4,
                c == suit_count_below(*h, s as int, n as int),
                c <= n,
            decreases 13 - n,
        {
            c = c + card_bit(h, n, s);
            n = n + 1;
        }
        if c >= 5 {
            return true;
        }
        s = s + 1;
    }
    false
}

/// Whether five ranks in a row are present (ace high or low).
fn find_straight(h: &Hand) -> (b: bool)
    ensures
        b == has_straight(*h),
{
    let mut top: u8 = 3;
    while top <= 12
        invariant
            3 <= top <= 13,
            forall|t: int| 3 <= t < top ==> !#[trigger] rank_run_at(*h, t),
        decreases 13 - top,
    {
        let low = if top == 3 {
            12
        } else {
            top - 4
        };
        if count_rank(h, top) > 0 && count_rank(h, top - 1) > 0 && count_rank(h, top - 2) > 0
            && count_rank(h, top - 3) > 0 && count_rank(h, low) > 0 {
            assert(rank_run_at(*h, top as int));
            return true;
        }
        top = top + 1;
    }
    false
}

/// Whether five ranks in a row are present in one suit.
fn find_straight_flush(h: &Hand) -> (b: bool)
    ensures
        b == has_straight_flush(*h),
{
    let mut s: u8 = 0;
    while s < 4
        invariant
            s <= 4,
            forall|q: int, t: int| 0 <= q < s && 3 <= t <= 12 ==> !#[trigger] suit_run_at(*h, q, t),
        decreases 4 - s,
    {
        let mut top: u8 = 3;
        while top <= 12
            invariant
                s < 4,
                3 <= top <= 13,
                forall|q: int, t: int|
                    0 <= q < s && 3 <= t <= 12 ==> !#[trigger] suit_run_at(*h, q, t),
                forall|t: int| 3 <= t < top ==> !#[trigger] suit_run_at(*h, s as int, t),
            decreases 13 - top,
        {
            let low = if top == 3 {
                12
            } else {
                top - 4
            };
            if h.contains(4 * top + s) && h.contains(4 * (top - 1) + s) && h.contains(
                4 * (top - 2) + s,
            ) && h.contains(4 * (top - 3) + s) && h.contains(4 * low + s) {
                assert(suit_run_at(*h, s as int, top as int));
                return true;
            }
            top = top + 1;
        }
        s = s + 1;
    }
    false
}

/// The category of the best five-card hand in `h` (see `spec_hand_rank`).
pub fn hand_rank(h: Hand) -> (r: HandRank)
    ensures
        r == spec_hand_rank(h),
{
    if find_straight_flush(&h) {
        return HandRank::StraightFlush;
    }
    if find_rank_with(&h, 4, -1) {
        return HandRank::FourOfAKind;
    }
    let trips = find_rank_with(&h, 3, -1);
    if trips && find_rank_with(&h, 2, find_top_rank(&h, 3)) {
        return HandRank::FullHouse;
    }
    if find_flush(&h) {
        return HandRank::Flush;
    }
    if find_straight(&h) {
        return HandRank::Straight;
    }
    if trips {
        return HandRank::ThreeOfAKind;
    }
    let pair = find_rank_with(&h, 2, -1);
    if pair && find_rank_with(&h, 2, find_top_rank(&h, 2)) {
        return HandRank::TwoPair;
    }
    if pair {
        HandRank::OnePair
    } else {
        HandRank::HighCard
    }
}

// ---------------------------------------------------------------------------
// Buckets
// ---------------------------------------------------------------------------

/// The ranks at `r` or above present in `h`, highest first.
pub open spec fn ranks_from(h: Hand, r: int) -> Seq<u8>
    decreases 13 - r,
{
    if r >= 13 {
        Seq::empty()
    } else {
        let rest = ranks_from(h, r + 1);
        if rank_count(h, r) > 0 {
            rest.push(r as u8)
        } else {
            rest
        }
    }
}

/// The distinct ranks of a board, highest first.
pub open spec fn board_ranks(board: Hand) -> Seq<u8> {
    ranks_from(board, 0)
}

/// Every card of `h` belongs to a 52-card deck.
pub open spec fn deck_cards(h: Hand) -> bool {
    forall|c: int| h.has(c) ==> c < 52
}

/// Distinct ranks of the board, highest first.
fn distinct_board_ranks_desc(board: Hand) -> (v: Vec<u8>)
    requires
        deck_cards(board),
    ensures
        v@ == board_ranks(board),
{
    let mut ranks: Vec<u8> = Vec::new();
    let mut n: u8 = 13;
    while n > 0
        invariant
            n <= 13,
            ranks@ == ranks_from(board, n as int),
        decreases n,
    {
        let r = n - 1;
        if count_rank(&board, r) > 0 {
            ranks.push(r);
        }
        n = r;
    }
    ranks
}

/// The first index of `x` in `s` at `i` or later, or -1.
pub open spec fn index_from(s: Seq<u8>, x: u8, i: int) -> int
    decreases s.len() - i,
{
    if i < 0 || i >= s.len() {
        -1
    } else if s[i] == x {
        i
    } else {
        index_from(s, x, i + 1)
    }
}

/// Bucket of a pair made with the board card at position `i` of the distinct board ranks.
pub open spec fn position_bucket(i: int) -> u8 {
    if i == 0 {
        TOP_PAIR
    } else if i == 1 {
        SECOND_PAIR
    } else if i == 2 {
        THIRD_PAIR
    } else if i == 3 {
        FOURTH_PAIR
    } else if i == 4 {
        FIFTH_PAIR
    } else {
        UNDERPAIR
    }
}

/// Where the pair's rank stands among the board's distinct ranks; not on the board at all,
/// an underpair.
pub open spec fn spec_pair_bucket(pair_rank: u8, board: Hand) -> u8 {
    let i = index_from(board_ranks(board), pair_rank, 0);
    if i < 0 {
        UNDERPAIR
    } else {
        position_bucket(i)
    }
}

fn pair_bucket(pair_rank: u8, board: Hand) -> (b: u8)
    requires
        deck_cards(board),
    ensures
        b == spec_pair_bucket(pair_rank, board),
{
    let ranks = distinct_board_ranks_desc(board);
    let mut i: usize = 0;
    while i < ranks.len()
        invariant
            i <= ranks@.len(),
            ranks@ == board_ranks(board),
            index_from(ranks@, pair_rank, 0) == index_from(ranks@, pair_rank, i as int),
        decreases ranks@.len() - i,
    {
        if ranks[i] == pair_rank {
            return match i {
                0 => TOP_PAIR,
                1 => SECOND_PAIR,
                2 => THIRD_PAIR,
                3 => FOURTH_PAIR,
                4 => FIFTH_PAIR,
                _ => UNDERPAIR,
            };
        }
        i = i + 1;
    }
    // Not a board-made pair: an underpair.
    UNDERPAIR
}

/// Every hole card has rank `r`.
pub open spec fn all_of_rank(hole: Hand, r: u8) -> bool {
    forall|c: int| hole.has(c) ==> c / 4 == r
}

/// A one-pair hand: a pocket pair above every board rank is an overpair, below one an
/// underpair; a pair made with the board goes by the board rank it pairs.
pub open spec fn spec_one_pair_bucket(pair_rank: u8, hole: Hand, board: Hand) -> u8 {
    if all_of_rank(hole, pair_rank) {
        let ranks = board_ranks(board);
        if ranks.len() == 0 || pair_rank > ranks[0] {
            OVERPAIR
        } else {
            UNDERPAIR
        }
    } else {
        spec_pair_bucket(pair_rank, board)
    }
}

fn classify_one_pair(pair_rank: u8, hole: Hand, board: Hand) -> (b: u8)
    requires
        deck_cards(board),
    ensures
        b == spec_one_pair_bucket(pair_rank, hole, board),
{
    let mut is_pocket_pair = true;
    let mut c: u8 = 0;
    while c < 64
        invariant
            c <= 64,
            is_pocket_pair == forall|d: int| 0 <= d < c && hole.has(d) ==> d / 4 == pair_rank,
        decreases 64 - c,
    {
        if hole.contains(c) && rank(c) != pair_rank {
            is_pocket_pair = false;
        }
        c = c + 1;
    }
    if is_pocket_pair {
        let ranks = distinct_board_ranks_desc(board);
        if ranks.len() == 0 || pair_rank > ranks[0] {
            OVERPAIR
        } else {
            UNDERPAIR
        }
    } else {
        pair_bucket(pair_rank, board)
    }
}

/// Three of a kind: a set when both hole cards make it, trips otherwise.
pub open spec fn spec_trips_bucket(trip_rank: int, hole: Hand) -> u8 {
    if rank_count(hole, trip_rank) >= 2 {
        SET
    } else {
        TRIPS
    }
}

fn classify_three_of_a_kind(trip_rank: u8, hole: Hand) -> (b: u8)
    requires
        trip_rank < 13,
    ensures
        b == spec_trips_bucket(trip_rank as int, hole),
{
    let matches = count_rank(&hole, trip_rank);
    if matches >= 2 {
        SET
    } else {
        TRIPS
    }
}

/// High card: ace high, king high, or queen high and below.
pub open spec fn spec_high_card_bucket(top: int) -> u8 {
    if top == 12 {
        ACE_HIGH
    } else if top == 11 {
        KING_HIGH
    } else {
        QUEEN_HIGH_OR_WORSE
    }
}

fn classify_high_card(top: i8) -> (b: u8)
    ensures
        b == spec_high_card_bucket(top as int),
{
    match top {
        12 => ACE_HIGH,
        11 => KING_HIGH,
        _ => QUEEN_HIGH_OR_WORSE,
    }
}

/// The bucket of hole cards on a board, by the category of the best hand of both
/// together, refined for three of a kind, one pair and high card.
pub open spec fn spec_hand_bucket(hole: Hand, board: Hand) -> u8 {
    let all = Hand(hole.0 | board.0);
    match spec_hand_rank(all) {
        HandRank::StraightFlush => STRAIGHT_FLUSH,
        HandRank::FourOfAKind => QUADS,
        HandRank::FullHouse => FULL_HOUSE,
        HandRank::Flush => FLUSH,
        HandRank::Straight => STRAIGHT,
        HandRank::ThreeOfAKind => spec_trips_bucket(top_rank(all, 3), hole),
        HandRank::TwoPair => TWO_PAIR,
        HandRank::OnePair => spec_one_pair_bucket(top_rank(all, 2) as u8, hole, board),
        HandRank::HighCard => spec_high_card_bucket(top_rank(all, 1)),
    }
}

/// Classify hole cards and a board into a bucket code.
pub fn hand_bucket(hole: Hand, board: Hand) -> (b: u8)
    requires
        deck_cards(hole),
        deck_cards(board),
    ensures
        b == spec_hand_bucket(hole, board),
{
    let all = hole.union(board);
    match hand_rank(all) {
        HandRank::StraightFlush => STRAIGHT_FLUSH,
        HandRank::FourOfAKind => QUADS,
        HandRank::FullHouse => FULL_HOUSE,
        HandRank::Flush => FLUSH,
        HandRank::Straight => STRAIGHT,
        HandRank::ThreeOfAKind => {
            proof {
                lemma_top_rank(all, 3);
            }
            classify_three_of_a_kind(find_top_rank(&all, 3) as u8, hole)
        },
        HandRank::TwoPair => TWO_PAIR,
        HandRank::OnePair => {
            proof {
                lemma_top_rank(all, 2);
            }
            classify_one_pair(find_top_rank(&all, 2) as u8, hole, board)
        },
        HandRank::HighCard => classify_high_card(find_top_rank(&all, 1)),
    }
}


// ---------------------------------------------------------------------------
// Laws of the categories and buckets
// ---------------------------------------------------------------------------

/// A run of five ranks in one suit is a run of five ranks.
proof fn lemma_straight_flush_is_straight(h: Hand)
    requires
        has_straight_flush(h),
    ensures
        has_straight(h),
{
    let (s, top) = choose|s: int, top: int| 0 <= s < 4 && 3 <= top <= 12 && #[trigger] suit_run_at(h, s, top);
    assert(rank_run_at(h, top));
}

/// The category of a set of cards goes by the strongest hand it holds: a straight flush,
/// then four of a kind, then three of a kind with a pair of another rank, then five of one
/// suit (a flush beats a straight), then five ranks in a row, then three of a kind, then
/// two pairs, then a pair, and otherwise high card.
pub proof fn law_hand_rank_categories(h: Hand)
    ensures
        has_straight_flush(h) ==> spec_hand_rank(h) == HandRank::StraightFlush,
        !has_straight_flush(h) && (exists|r: int| 0 <= r < 13 && #[trigger] rank_count(h, r) >= 4)
            ==> spec_hand_rank(h) == HandRank::FourOfAKind,
        !has_straight_flush(h) && (forall|r: int| 0 <= r < 13 ==> #[trigger] rank_count(h, r) < 4)
            && (exists|r1: int, r2: int|
            0 <= r1 < 13 && 0 <= r2 < 13 && r1 != r2 && #[trigger] rank_count(h, r1) >= 3
                && #[trigger] rank_count(h, r2) >= 2) ==> spec_hand_rank(h) == HandRank::FullHouse,
        !has_straight_flush(h) && (forall|r: int| 0 <= r < 13 ==> #[trigger] rank_count(h, r) < 4)
            && !(exists|r1: int, r2: int|
            0 <= r1 < 13 && 0 <= r2 < 13 && r1 != r2 && #[trigger] rank_count(h, r1) >= 3
                && #[trigger] rank_count(h, r2) >= 2) && has_flush(h) ==> spec_hand_rank(h)
            == HandRank::Flush,
        !has_straight_flush(h) && (forall|r: int| 0 <= r < 13 ==> #[trigger] rank_count(h, r) < 4)
            && !(exists|r1: int, r2: int|
            0 <= r1 < 13 && 0 <= r2 < 13 && r1 != r2 && #[trigger] rank_count(h, r1) >= 3
                && #[trigger] rank_count(h, r2) >= 2) && !has_flush(h) && has_straight(h)
            ==> spec_hand_rank(h) == HandRank::Straight,
        !has_flush(h) && !has_straight(h) && (forall|r: int|
            0 <= r < 13 ==> #[trigger] rank_count(h, r) < 4) && !(exists|r1: int, r2: int|
            0 <= r1 < 13 && 0 <= r2 < 13 && r1 != r2 && #[trigger] rank_count(h, r1) >= 3
                && #[trigger] rank_count(h, r2) >= 2) && (exists|r: int|
            0 <= r < 13 && #[trigger] rank_count(h, r) >= 3) ==> spec_hand_rank(h)
            == HandRank::ThreeOfAKind,
        !has_flush(h) && !has_straight(h) && (forall|r: int|
            0 <= r < 13 ==> #[trigger] rank_count(h, r) < 3) && (exists|r1: int, r2: int|
            0 <= r1 < 13 && 0 <= r2 < 13 && r1 != r2 && #[trigger] rank_count(h, r1) >= 2
                && #[trigger] rank_count(h, r2) >= 2) ==> spec_hand_rank(h) == HandRank::TwoPair,
        !has_flush(h) && !has_straight(h) && (forall|r: int|
            0 <= r < 13 ==> #[trigger] rank_count(h, r) < 3) && !(exists|r1: int, r2: int|
            0 <= r1 < 13 && 0 <= r2 < 13 && r1 != r2 && #[trigger] rank_count(h, r1) >= 2
                && #[trigger] rank_count(h, r2) >= 2) && (exists|r: int|
            0 <= r < 13 && #[trigger] rank_count(h, r) >= 2) ==> spec_hand_rank(h)
            == HandRank::OnePair,
        !has_flush(h) && !has_straight(h) && (forall|r: int|
            0 <= r < 13 ==> #[trigger] rank_count(h, r) < 2) ==> spec_hand_rank(h)
            == HandRank::HighCard,
{
    lemma_top_rank(h, 3);
    lemma_top_rank(h, 2);
    law_two_ranks_with(h, 2);
    if has_straight_flush(h) {
        lemma_straight_flush_is_straight(h);
    }
    // three of a kind with a pair of another rank, as the category tests it
    let t = top_rank(h, 3);
    if exists|r1: int, r2: int|
        0 <= r1 < 13 && 0 <= r2 < 13 && r1 != r2 && #[trigger] rank_count(h, r1) >= 3
            && #[trigger] rank_count(h, r2) >= 2 {
        let (r1, r2) = choose|r1: int, r2: int|
            0 <= r1 < 13 && 0 <= r2 < 13 && r1 != r2 && #[trigger] rank_count(h, r1) >= 3
                && #[trigger] rank_count(h, r2) >= 2;
        assert(rank_with(h, 3, -1)) by {
            assert(rank_count(h, r1) >= 3);
        }
        if r2 != t {
            assert(rank_count(h, r2) >= 2);
        } else {
            assert(rank_count(h, r1) >= 2);
        }
        assert(rank_with(h, 2, t));
    }
    if rank_with(h, 3, -1) && rank_with(h, 2, t) {
        let r2 = choose|r: int| 0 <= r < 13 && r != t && #[trigger] rank_count(h, r) >= 2;
        assert(rank_count(h, t) >= 3);
        assert(rank_count(h, r2) >= 2);
    }
    if rank_with(h, 4, -1) {
        let r = choose|r: int| 0 <= r < 13 && r != -1 && #[trigger] rank_count(h, r) >= 4;
        assert(rank_count(h, r) >= 4);
    }
    if rank_with(h, 3, -1) {
        let r = choose|r: int| 0 <= r < 13 && r != -1 && #[trigger] rank_count(h, r) >= 3;
        assert(rank_count(h, r) >= 3);
    }
    if rank_with(h, 2, -1) {
        let r = choose|r: int| 0 <= r < 13 && r != -1 && #[trigger] rank_count(h, r) >= 2;
        assert(rank_count(h, r) >= 2);
    }
    if exists|r: int| 0 <= r < 13 && #[trigger] rank_count(h, r) >= 2 {
        let r = choose|r: int| 0 <= r < 13 && #[trigger] rank_count(h, r) >= 2;
        assert(rank_with(h, 2, -1));
    }
    if exists|r: int| 0 <= r < 13 && #[trigger] rank_count(h, r) >= 3 {
        let r = choose|r: int| 0 <= r < 13 && #[trigger] rank_count(h, r) >= 3;
        assert(rank_with(h, 3, -1));
    }
    if exists|r: int| 0 <= r < 13 && #[trigger] rank_count(h, r) >= 4 {
        let r = choose|r: int| 0 <= r < 13 && #[trigger] rank_count(h, r) >= 4;
        assert(rank_with(h, 4, -1));
    }
}

/// A high-card hand goes by the highest rank of the hole and board together: ace high,
/// king high, or queen high and below.
pub proof fn law_high_card_bucket(hole: Hand, board: Hand)
    requires
        forall|r: int| 0 <= r < 13 ==> #[trigger] rank_count(Hand(hole.0 | board.0), r) < 2,
        !has_flush(Hand(hole.0 | board.0)),
        !has_straight(Hand(hole.0 | board.0)),
    ensures
        rank_count(Hand(hole.0 | board.0), 12) > 0 ==> spec_hand_bucket(hole, board) == ACE_HIGH,
        rank_count(Hand(hole.0 | board.0), 12) == 0 && rank_count(Hand(hole.0 | board.0), 11) > 0
            ==> spec_hand_bucket(hole, board) == KING_HIGH,
        rank_count(Hand(hole.0 | board.0), 12) == 0 && rank_count(Hand(hole.0 | board.0), 11) == 0
            ==> spec_hand_bucket(hole, board) == QUEEN_HIGH_OR_WORSE,
{
    let all = Hand(hole.0 | board.0);
    law_hand_rank_categories(all);
    assert(spec_hand_rank(all) == HandRank::HighCard);
    lemma_top_rank(all, 1);
    let t = top_rank(all, 1);
    if rank_count(all, 12) > 0 {
        assert(t == 12);
    } else if rank_count(all, 11) > 0 {
        assert(t == 11);
    } else {
        assert(t != 12 && t != 11);
    }
}

/// Hole cards on a board with five of one suit and no straight flush, four of a kind or
/// full house are a flush, whether or not they also make a straight.
pub proof fn law_flush_bucket(hole: Hand, board: Hand)
    requires
        has_flush(Hand(hole.0 | board.0)),
        !has_straight_flush(Hand(hole.0 | board.0)),
        forall|r: int| 0 <= r < 13 ==> #[trigger] rank_count(Hand(hole.0 | board.0), r) < 3,
    ensures
        spec_hand_bucket(hole, board) == FLUSH,
{
    law_hand_rank_categories(Hand(hole.0 | board.0));
}


/// Three of a kind and no stronger hand: a set when the hole holds two cards of that
/// rank, trips when it holds fewer.
pub proof fn law_three_of_a_kind_bucket(hole: Hand, board: Hand, t: int)
    requires
        0 <= t < 13,
        rank_count(Hand(hole.0 | board.0), t) == 3,
        forall|r: int| 0 <= r < 13 && r != t ==> #[trigger] rank_count(Hand(hole.0 | board.0), r) < 2,
        !has_flush(Hand(hole.0 | board.0)),
        !has_straight(Hand(hole.0 | board.0)),
    ensures
        rank_count(hole, t) >= 2 ==> spec_hand_bucket(hole, board) == SET,
        rank_count(hole, t) < 2 ==> spec_hand_bucket(hole, board) == TRIPS,
{
    let all = Hand(hole.0 | board.0);
    law_hand_rank_categories(all);
    assert(rank_count(all, t) >= 3);
    assert(spec_hand_rank(all) == HandRank::ThreeOfAKind);
    lemma_top_rank(all, 3);
    assert(top_rank(all, 3) == t);
}

} // verus!
