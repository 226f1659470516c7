use nlhe::auto_size::{PostflopSizeCandidates, SearchStep, TurnSizeCandidates, MAX_ROUNDS};
use nlhe::game::BetSize;

fn empty() -> TurnSizeCandidates {
    TurnSizeCandidates { oop_bet: vec![], oop_raise: vec![], ip_bet: vec![], ip_raise: vec![] }
}

#[test]
fn coordinate_search_keeps_the_best_size_per_round() {
    let a = BetSize::Frac(33, 100);
    let b = BetSize::Frac(75, 100);
    let mut turn = empty();
    turn.oop_bet = vec![a, b];
    let c = PostflopSizeCandidates { turn, river: empty() };
    // Scores by round: b wins the first round, a the second.
    let score = |round: u32, size: BetSize| -> i32 {
        match (round, size == a) {
            (1, true) => 1,
            (1, false) => 2,
            (_, true) => 3,
            (_, false) => 2,
        }
    };
    let mut s = c.start_search();
    let mut screened = Vec::new();
    let mut best = i32::MIN;
    let chosen = loop {
        match c.step(&s) {
            SearchStep::Screen { role, candidate, set } => {
                let t = set.turn.unwrap();
                assert!(set.river.is_none());
                assert_eq!(t.ip_bet, BetSize::Frac(50, 100));
                assert_eq!(t.oop_raise, None);
                if candidate == 0 {
                    best = i32::MIN;
                }
                let sc = score(s.round, t.oop_bet);
                let better = sc > best;
                if better {
                    best = sc;
                }
                screened.push((s.round, role, candidate, t.oop_bet));
                s = c.record(s, better);
            }
            SearchStep::Final { set } => break set,
        }
    };
    assert_eq!(
        screened,
        vec![(1, 0, 0, a), (1, 0, 1, b), (2, 0, 0, a), (2, 0, 1, b)]
    );
    assert!(screened.len() as u32 <= MAX_ROUNDS * 2);
    assert_eq!(chosen.turn.unwrap().oop_bet, a);
}

#[test]
fn search_without_candidates_finishes_at_once() {
    let c = PostflopSizeCandidates { turn: empty(), river: empty() };
    let s = c.start_search();
    assert!(s.done);
    match c.step(&s) {
        SearchStep::Final { set } => {
            assert!(set.turn.is_none());
            assert!(set.river.is_none());
        }
        SearchStep::Screen { .. } => panic!("nothing to screen"),
    }
}

#[test]
fn unchanged_round_ends_the_search() {
    let a = BetSize::Frac(33, 100);
    let b = BetSize::Frac(75, 100);
    let mut river = empty();
    river.ip_raise = vec![a, b];
    let c = PostflopSizeCandidates { turn: empty(), river };
    let mut s = c.start_search();
    let mut n = 0;
    // The first candidate always scores best: nothing changes, one round only.
    while let SearchStep::Screen { role, candidate, .. } = c.step(&s) {
        assert_eq!(role, 7);
        s = c.record(s, candidate == 0);
        n += 1;
    }
    assert_eq!(n, 2);
    assert_eq!(s.round, 1);
}
