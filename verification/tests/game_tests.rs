use nlhe::card::{card, Hand};
use nlhe::game::{Action, BetConfig, BetSize, GameState, NodeType, Street, TerminalType, IP, OOP};

#[test]
fn test_new_hand() {
    let g = GameState::new_hand(100);
    assert_eq!(g.street, Street::Preflop);
    assert_eq!(g.bets, [1, 2]);
    assert_eq!(g.stacks, [99, 98]);
    assert_eq!(g.to_act, OOP);
    assert_eq!(g.pot, 0);
}

#[test]
fn test_preflop_actions() {
    let g = GameState::new_hand(100);
    let actions = g.actions();
    // SB facing BB's 2bb: fold, call, raises, allin
    assert!(actions.contains(&Action::Fold));
    assert!(actions.contains(&Action::Call));
    assert!(actions.contains(&Action::AllIn));
    // Should have some raise sizes
    assert!(actions.len() >= 4);
}

#[test]
fn test_fold() {
    let g = GameState::new_hand(100);
    let g2 = g.apply(Action::Fold);
    assert_eq!(g2.folded, Some(OOP));
    assert!(matches!(g2.node_type(), NodeType::Terminal(TerminalType::Fold(OOP))));
    assert_eq!(g2.bets[0], 1);
    assert_eq!(g2.bets[1], 2);
}

#[test]
fn test_call_preflop() {
    let g = GameState::new_hand(100);
    let g2 = g.apply(Action::Call); // SB calls BB
    assert!(g2.closed); // Action closed, go to flop
    assert_eq!(g2.bets, [2, 2]);
    assert_eq!(g2.stacks[0], 98);
}

#[test]
fn test_check_postflop() {
    let g = GameState::new_postflop(Street::Flop, 10, [95, 95], Hand::new());
    assert_eq!(g.to_act, OOP);
    let actions = g.actions();
    assert!(actions.contains(&Action::Check));

    // OOP checks
    let g2 = g.apply(Action::Check);
    assert_eq!(g2.to_act, IP);
    assert!(!g2.closed);

    // IP checks
    let g3 = g2.apply(Action::Check);
    assert!(g3.closed);
}

#[test]
fn test_bet_call_postflop() {
    let g = GameState::new_postflop(Street::River, 20, [90, 90], Hand::new());
    // OOP bets 33% pot (= 20*33/100 = 6.6, rounds to 7)
    let g2 = g.apply(Action::Bet(BetSize::Frac(33, 100)));
    assert_eq!(g2.bets[0], 7); // 20 * 33/100 = 6.6 → 7 (rounded)
    assert_eq!(g2.to_act, IP);

    // IP calls
    let g3 = g2.apply(Action::Call);
    assert!(g3.closed);
    assert_eq!(g3.bets, [7, 7]);
}

#[test]
fn test_street_transition() {
    let g = GameState::new_hand(100);
    let g2 = g.apply(Action::Call); // SB calls BB, preflop closed
    assert!(g2.closed);

    // Deal flop
    let g3 = g2.deal_street(&[card(12, 3), card(11, 2), card(8, 1)]);
    assert_eq!(g3.street, Street::Flop);
    assert_eq!(g3.pot, 4); // 2+2
    assert_eq!(g3.bets, [0, 0]);
    assert_eq!(g3.to_act, OOP);
    assert_eq!(g3.board.count(), 3);
}

#[test]
fn test_node_type() {
    let g = GameState::new_hand(100);
    assert_eq!(g.node_type(), NodeType::Decision(OOP));

    let g2 = g.apply(Action::Call);
    assert!(matches!(g2.node_type(), NodeType::Chance(Street::Flop)));

    let g3 = g.apply(Action::Fold);
    assert!(matches!(g3.node_type(), NodeType::Terminal(TerminalType::Fold(_))));
}

#[test]
fn test_allin_preflop() {
    let g = GameState::new_hand(100);
    let g2 = g.apply(Action::AllIn); // SB shoves
    assert_eq!(g2.stacks[0], 0);
    assert!(g2.is_allin[0]);
    assert_eq!(g2.to_act, IP);

    let g3 = g2.apply(Action::Call); // BB calls
    assert!(g3.closed);
    // Both allin, should be chance node (need to run out board)
}

#[test]
fn test_invested() {
    let g = GameState::new_hand(100);
    assert_eq!(g.invested(OOP), 1);
    assert_eq!(g.invested(IP), 2);

    let g2 = g.apply(Action::Call);
    assert_eq!(g2.invested(OOP), 2);
    assert_eq!(g2.invested(IP), 2);
}

#[test]
fn test_per_player_bet_sizes() {
    let mut bc = BetConfig::default();
    // Shared turn bet size is 50% for everyone.
    bc.sizes[Street::Turn.index()] = vec![vec![BetSize::Frac(50, 100)]];
    // OOP turn bet size is overridden to 33%, IP to 75%.
    let mut oop_turn = [Vec::new(), Vec::new(), Vec::new(), Vec::new()];
    oop_turn[Street::Turn.index()] = vec![vec![BetSize::Frac(33, 100)]];
    let mut ip_turn = [Vec::new(), Vec::new(), Vec::new(), Vec::new()];
    ip_turn[Street::Turn.index()] = vec![vec![BetSize::Frac(75, 100)]];
    bc.player_sizes = [Some(oop_turn), Some(ip_turn)];

    let board = Hand::new().add(card(12, 3)).add(card(11, 2)).add(card(8, 1));
    let g = GameState::new_postflop_with_bets(
        Street::Turn,
        20,
        [90, 90],
        board,
        std::sync::Arc::new(bc),
    );

    let oop_actions = g.actions();
    assert!(oop_actions.contains(&Action::Bet(BetSize::Frac(33, 100))));
    assert!(!oop_actions.contains(&Action::Bet(BetSize::Frac(50, 100))));
    assert!(!oop_actions.contains(&Action::Bet(BetSize::Frac(75, 100))));

    let g2 = g.apply(Action::Check);
    let ip_actions = g2.actions();
    assert!(ip_actions.contains(&Action::Bet(BetSize::Frac(75, 100))));
    assert!(!ip_actions.contains(&Action::Bet(BetSize::Frac(33, 100))));
    assert!(!ip_actions.contains(&Action::Bet(BetSize::Frac(50, 100))));
}
