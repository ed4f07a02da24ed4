use ruchei::trie::avl::{absolute, grow_step, relative, rotate_biases, shrink_step, Diff, Mode, Side, Walk};

#[test]
fn balance_seen_from_a_side() {
    assert_eq!(relative(Some(Side::L), Side::L), Some(Diff::Eq));
    assert_eq!(relative(Some(Side::L), Side::R), Some(Diff::Ne));
    assert_eq!(relative(None, Side::R), None);
    assert_eq!(absolute(Some(Diff::Ne), Side::L), Some(Side::R));
    assert_eq!(absolute(Some(Diff::Eq), Side::R), Some(Side::R));
}

#[test]
fn single_rotation_after_an_insert_balances_both_nodes() {
    // the rotated node leans right by two, its right child leans right: rotate left
    assert_eq!(
        rotate_biases(Side::L, Mode::Unbalanced, Some(Side::R), Some(Side::R)),
        (Mode::Unbalanced, None, None)
    );
}

#[test]
fn single_rotation_after_a_remove_keeps_the_height() {
    assert_eq!(
        rotate_biases(Side::L, Mode::Unbalanced, Some(Side::R), None),
        (Mode::Unbalanced, Some(Side::R), Some(Side::L))
    );
}

#[test]
fn first_half_of_a_double_rotation() {
    assert_eq!(
        rotate_biases(Side::R, Mode::Balanced, Some(Side::L), Some(Side::R)),
        (Mode::VeryUnbalanced, None, Some(Side::R))
    );
    assert_eq!(
        rotate_biases(Side::R, Mode::Balanced, Some(Side::L), Some(Side::L)),
        (Mode::Unbalanced, Some(Side::R), Some(Side::R))
    );
    assert_eq!(
        rotate_biases(Side::L, Mode::VeryUnbalanced, Some(Side::R), Some(Side::R)),
        (Mode::VeryUnbalanced, Some(Side::L), None)
    );
}

#[test]
fn growing_side_climbs_settles_or_rebalances() {
    assert_eq!(grow_step(None, Side::L), Walk::Climb(Some(Side::L)));
    assert_eq!(grow_step(Some(Side::R), Side::L), Walk::Settle(None));
    assert_eq!(grow_step(Some(Side::L), Side::L), Walk::Rebalance);
}

#[test]
fn shrinking_side_climbs_settles_or_rebalances() {
    assert_eq!(shrink_step(Some(Side::L), Side::L), Walk::Climb(None));
    assert_eq!(shrink_step(None, Side::L), Walk::Settle(Some(Side::R)));
    assert_eq!(shrink_step(Some(Side::R), Side::L), Walk::Rebalance);
}
