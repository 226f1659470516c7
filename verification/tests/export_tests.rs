use nlhe::export::small_save_keeps;
use nlhe::game::Street;

#[test]
fn small_save_keeps_the_solved_street_and_the_next_first_nodes() {
    assert!(small_save_keeps(Street::Flop, Street::Flop, None));
    assert!(small_save_keeps(Street::Flop, Street::Flop, Some(Street::Flop)));
    assert!(small_save_keeps(Street::Flop, Street::Turn, Some(Street::Flop)));
    assert!(!small_save_keeps(Street::Flop, Street::Turn, Some(Street::Turn)));
    assert!(!small_save_keeps(Street::Flop, Street::River, Some(Street::Flop)));
    assert!(!small_save_keeps(Street::River, Street::Turn, Some(Street::River)));
    assert!(!small_save_keeps(Street::Turn, Street::River, None));
}
