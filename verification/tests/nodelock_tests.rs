use nlhe::game::{Action, BetSize};
use nlhe::nodelock::resolve_node_ids;

#[test]
fn locked_lines_find_their_nodes() {
    let root: Vec<Action> = vec![];
    let check = vec![Action::Check];
    let bet = vec![Action::Bet(BetSize::Frac(1, 2))];
    let missing = vec![Action::Check, Action::Bet(BetSize::Frac(3, 4))];
    let index = vec![(root.clone(), 0u32), (check.clone(), 1), (bet.clone(), 2)];
    let ids = resolve_node_ids(&vec![bet, missing, root, check], &index);
    assert_eq!(ids, vec![Some(2), None, Some(0), Some(1)]);
    assert_eq!(resolve_node_ids(&vec![], &index), vec![]);
}
