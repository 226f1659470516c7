use nlhe::card::{card, Hand};
use nlhe::game::{
    game_state_after_line, Action, BetConfig, BetSize, GameState, NodeType, Ratio, Street,
    TerminalType, IP, OOP,
};
use std::sync::Arc;

fn chips(g: &GameState) -> i64 {
    g.pot as i64 + g.bets[0] as i64 + g.bets[1] as i64 + g.stacks[0] as i64 + g.stacks[1] as i64
}

#[test]
fn every_legal_action_conserves_chips() {
    let g = GameState::new_hand(100);
    let before = chips(&g);
    for a in g.actions() {
        let next = g.apply(a);
        assert_eq!(chips(&next), before, "action {:?}", a);
        if next.node_type() == NodeType::Decision(next.to_act) {
            for b in next.actions() {
                assert_eq!(chips(&next.apply(b)), before, "actions {:?} then {:?}", a, b);
            }
        }
    }
}

#[test]
fn dealing_moves_bets_into_the_pot() {
    let g = GameState::new_hand(100).apply(Action::Bet(BetSize::Bb(3)));
    let g = g.apply(Action::Call);
    let before = chips(&g);
    let f = g.deal_street(&[card(12, 3), card(11, 2), card(8, 1)]);
    assert_eq!(chips(&f), before);
    assert_eq!(f.pot, 10);
    assert_eq!(f.bets, [0, 0]);
    assert_eq!(f.street, Street::Flop);
    assert!(!f.closed);
}

#[test]
fn fold_ends_hand_and_call_closes_round() {
    let g = GameState::new_postflop(Street::Turn, 20, [90, 90], Hand::new());
    let bet = g.apply(Action::Bet(BetSize::Frac(1, 2)));
    assert_eq!(bet.bets, [10, 0]);
    assert_eq!(bet.apply(Action::Fold).node_type(), NodeType::Terminal(TerminalType::Fold(IP)));
    assert_eq!(bet.apply(Action::Call).node_type(), NodeType::Chance(Street::River));
}

#[test]
fn river_call_goes_to_showdown_and_both_allin_runs_out() {
    let g = GameState::new_postflop(Street::River, 20, [90, 90], Hand::new());
    let g = g.apply(Action::Check).apply(Action::Check);
    assert_eq!(g.node_type(), NodeType::Terminal(TerminalType::Showdown));

    let p = GameState::new_hand(100).apply(Action::AllIn).apply(Action::AllIn);
    assert!(p.is_allin[0] && p.is_allin[1]);
    assert_eq!(p.node_type(), NodeType::Chance(Street::Flop));
    // With a player all in, dealing closes the action at once.
    let f = p.deal_street(&[card(0, 0), card(1, 1), card(2, 2)]);
    assert!(f.closed);
    assert_eq!(f.node_type(), NodeType::Chance(Street::Turn));
}

#[test]
fn preflop_actions_are_exact() {
    let g = GameState::new_hand(100);
    assert_eq!(
        g.actions(),
        vec![
            Action::Fold,
            Action::Call,
            Action::Bet(BetSize::Frac(1, 1)),
            Action::Bet(BetSize::Frac(3, 2)),
            Action::Bet(BetSize::Frac(2, 1)),
            Action::AllIn,
        ]
    );
    // The big blind, after the small blind calls, may check or raise.
    let g2 = g.apply(Action::Call);
    assert!(g2.closed);
}

#[test]
fn short_stack_facing_a_bet_can_only_fold_or_shove() {
    let g = GameState::new_postflop(Street::Flop, 100, [90, 30], Hand::new());
    let g = g.apply(Action::Bet(BetSize::Frac(1, 2)));
    assert_eq!(g.bets, [50, 0]);
    assert_eq!(g.actions(), vec![Action::Fold, Action::AllIn]);
    let called = g.apply(Action::AllIn);
    assert!(called.closed);
    assert_eq!(called.bets, [50, 30]);
}

#[test]
fn bet_amounts_round_half_to_even() {
    let g = GameState::new_postflop(Street::River, 10, [90, 90], Hand::new());
    assert_eq!(g.apply(Action::Bet(BetSize::Frac(1, 3))).bets[0], 3);
    assert_eq!(g.apply(Action::Bet(BetSize::Frac(2, 3))).bets[0], 7);
    // 2.5 and 7.5 are ties: they go to the even neighbour.
    assert_eq!(g.apply(Action::Bet(BetSize::Frac(1, 4))).bets[0], 2);
    assert_eq!(g.apply(Action::Bet(BetSize::Frac(3, 4))).bets[0], 8);
    let five = GameState::new_postflop(Street::River, 5, [90, 90], Hand::new());
    assert_eq!(five.apply(Action::Bet(BetSize::Frac(1, 2))).bets[0], 2);
    let twenty = GameState::new_postflop(Street::River, 20, [90, 90], Hand::new());
    assert_eq!(twenty.apply(Action::Bet(BetSize::Frac(33, 100))).bets[0], 7);
    assert_eq!(g.apply(Action::Bet(BetSize::Bb(5))).bets[0], 5);
    // A raise is sized on the pot after calling: 10 + 4 + 4 = 18, half of it on top of 4.
    let r = g.apply(Action::Bet(BetSize::Bb(4))).apply(Action::Bet(BetSize::Frac(1, 2)));
    assert_eq!(r.bets[1], 13);
    assert_eq!(r.n_raises, 2);
    assert_eq!(r.last_aggressor, Some(IP));
}

#[test]
fn geometric_sizing_reaches_allin_in_two_bets() {
    let mut bc = BetConfig::default();
    bc.geometric_2bets = true;
    bc.max_raises = 2;
    let g = GameState::new_postflop_with_bets(Street::Flop, 20, [90, 90], Hand::new(), Arc::new(bc));
    // round((sqrt(20 * 200) - 20) / 2) = round(21.62) = 22
    assert_eq!(
        g.actions(),
        vec![Action::Check, Action::Bet(BetSize::Frac(22, 20)), Action::AllIn]
    );
}

#[test]
fn allin_threshold_collapses_large_bets() {
    let mut bc = BetConfig::default();
    bc.allin_threshold = Ratio { num: 67, den: 100 };
    let g = GameState::new_postflop_with_bets(Street::River, 100, [90, 90], Hand::new(), Arc::new(bc));
    assert_eq!(
        g.actions(),
        vec![
            Action::Check,
            Action::Bet(BetSize::Frac(33, 100)),
            Action::Bet(BetSize::Frac(1, 2)),
            Action::AllIn,
        ]
    );
    let mut bc = BetConfig::default();
    bc.allin_threshold = Ratio { num: 50, den: 100 };
    let g = GameState::new_postflop_with_bets(Street::River, 100, [90, 90], Hand::new(), Arc::new(bc));
    assert_eq!(
        g.actions(),
        vec![Action::Check, Action::Bet(BetSize::Frac(33, 100)), Action::AllIn]
    );
}

#[test]
fn allin_pot_ratio_limits_the_shove() {
    let mut bc = BetConfig::default();
    bc.allin_pot_ratio = Ratio { num: 1, den: 1 };
    let deep = GameState::new_postflop_with_bets(
        Street::River,
        100,
        [300, 300],
        Hand::new(),
        Arc::new(bc.clone()),
    );
    assert!(!deep.actions().contains(&Action::AllIn));
    assert_eq!(deep.actions().len(), 5);
    let shallow = GameState::new_postflop_with_bets(Street::River, 100, [90, 90], Hand::new(), Arc::new(bc));
    assert!(shallow.actions().contains(&Action::AllIn));
}

#[test]
fn unbounded_and_missing_pot_ratios() {
    let mut bc = BetConfig::default();
    bc.allin_pot_ratio = Ratio { num: 1, den: 0 };
    let unbounded =
        GameState::new_postflop_with_bets(Street::River, 100, [300, 300], Hand::new(), Arc::new(bc.clone()));
    assert!(unbounded.actions().contains(&Action::AllIn));
    bc.allin_pot_ratio = Ratio { num: 0, den: 0 };
    let missing = GameState::new_postflop_with_bets(Street::River, 100, [300, 300], Hand::new(), Arc::new(bc));
    assert!(!missing.actions().contains(&Action::AllIn));
}

#[test]
fn no_donk_blocks_flop_leads_only() {
    let mut bc = BetConfig::default();
    bc.no_donk = true;
    let bc = Arc::new(bc);
    let flop = GameState::new_postflop_with_bets(Street::Flop, 20, [90, 90], Hand::new(), bc.clone());
    assert_eq!(flop.actions(), vec![Action::Check]);
    let ip = flop.apply(Action::Check);
    assert_eq!(ip.to_act, IP);
    assert!(ip.actions().len() > 1);
    let turn = GameState::new_postflop_with_bets(Street::Turn, 20, [90, 90], Hand::new(), bc);
    assert!(turn.actions().len() > 1);
}

#[test]
fn payoff_in_half_chips() {
    let g = GameState::new_hand(100);
    let folded = g.apply(Action::Fold);
    assert_eq!(folded.payoff(OOP, 0, 0), -2);
    assert_eq!(folded.payoff(IP, 0, 0), 2 * 3 - 2 * 2);

    let board = Hand::new().add(card(0, 0)).add(card(2, 1)).add(card(4, 2));
    let s = GameState::new_postflop(Street::River, 20, [90, 90], board)
        .set_holes(OOP, Hand::new().add(card(12, 0)).add(card(12, 1)))
        .set_holes(IP, Hand::new().add(card(11, 0)).add(card(11, 1)));
    assert_eq!(s.payoff(OOP, 10, 5), 40);
    assert_eq!(s.payoff(OOP, 5, 10), 0);
    assert_eq!(s.payoff(OOP, 7, 7), 20);
    // Without five cards for each player there is no showdown value.
    let short = GameState::new_postflop(Street::River, 20, [90, 90], Hand::new());
    assert_eq!(short.payoff(OOP, 10, 5), 0);
}

#[test]
fn action_text() {
    assert_eq!(Action::Fold.to_string(), "fold");
    assert_eq!(Action::Check.to_string(), "check");
    assert_eq!(Action::Call.to_string(), "call");
    assert_eq!(Action::AllIn.to_string(), "allin");
    assert_eq!(Action::Bet(BetSize::Frac(3, 1)).to_string(), "bet 3x");
    assert_eq!(Action::Bet(BetSize::Frac(75, 100)).to_string(), "bet 75%");
    assert_eq!(Action::Bet(BetSize::Frac(3, 2)).to_string(), "bet 3/2");
    assert_eq!(Action::Bet(BetSize::Frac(-1, 2)).to_string(), "bet -1/2");
    assert_eq!(Action::Bet(BetSize::Bb(2)).to_string(), "bet 2bb");
    assert!(Action::AllIn.is_aggressive());
    assert!(Action::Bet(BetSize::Bb(2)).is_aggressive());
    assert!(!Action::Call.is_aggressive());
}

#[test]
fn streets_follow_in_order() {
    assert_eq!(Street::Preflop.next(), Some(Street::Flop));
    assert_eq!(Street::Flop.next(), Some(Street::Turn));
    assert_eq!(Street::Turn.next(), Some(Street::River));
    assert_eq!(Street::River.next(), None);
    assert_eq!(Street::River.index(), 3);
}

#[test]
fn default_grid_and_its_copy_agree() {
    let bc = BetConfig::default();
    let copy = bc.clone();
    for street in [Street::Preflop, Street::Flop, Street::Turn, Street::River] {
        for depth in 0..5u8 {
            for player in [OOP, IP] {
                assert_eq!(bc.bet_sizes(street, depth, player), copy.bet_sizes(street, depth, player));
            }
        }
    }
    // The deepest list covers deeper raises.
    assert_eq!(bc.bet_sizes(Street::Turn, 4, OOP), &[BetSize::Frac(1, 1), BetSize::Frac(3, 2)]);
    assert_eq!(bc.max_raises, 3);
}

#[test]
fn offered_bets_never_put_the_player_all_in() {
    let mut geo = BetConfig::default();
    geo.geometric_2bets = true;
    let geo = Arc::new(geo);
    let states = vec![
        GameState::new_hand(100),
        GameState::new_hand(7),
        GameState::new_postflop(Street::Flop, 30, [40, 200], Hand::new()),
        GameState::new_postflop(Street::River, 100, [90, 90], Hand::new()),
        GameState::new_postflop_with_bets(Street::Turn, 50, [120, 120], Hand::new(), geo.clone())
            .apply(Action::Bet(BetSize::Frac(1, 2))),
    ];
    for g in states {
        for a in g.actions() {
            if let Action::Bet(_) = a {
                let p = g.to_act as usize;
                let next = g.apply(a);
                assert!(next.stacks[p] > 0, "{:?} all in from {:?}", a, g.stacks);
                assert!(!next.is_allin[p]);
            }
        }
    }
}

#[test]
fn lines_of_play() {
    let root = GameState::new_postflop(Street::Flop, 20, [90, 90], Hand::new());
    let line = [Action::Check, Action::Bet(BetSize::Frac(1, 2)), Action::Call];
    let end = game_state_after_line(&root, &line).unwrap();
    assert_eq!(end.bets, [10, 10]);
    assert!(end.closed);
    // An action that is not offered ends the line.
    assert!(game_state_after_line(&root, &[Action::Call]).is_none());
    // So does going past the end of the street.
    let past = [Action::Check, Action::Check, Action::Check];
    assert!(game_state_after_line(&root, &past).is_none());
    assert_eq!(game_state_after_line(&root, &[]).unwrap().to_act, OOP);
}

#[test]
fn payoffs_share_the_pot_at_a_fold() {
    let g = GameState::new_postflop(Street::River, 10, [90, 90], Hand::new());
    let g = g.apply(Action::Bet(BetSize::Frac(1, 2))).apply(Action::Fold);
    let total = (g.pot + g.bets[0] + g.bets[1]) as i64;
    let sum = g.payoff(0, 3, 7) + g.payoff(1, 7, 3);
    assert_eq!(sum, 2 * total - 2 * g.invested(0) as i64 - 2 * g.invested(1) as i64);
    assert_eq!(g.payoff(1, 7, 3), -2 * g.invested(1) as i64);
}
