use ruchei::group_sequential::{group_sequential_all, GroupSequential};
use ruchei::merge::zip_sorted::Step;

#[test]
fn groups_consecutive_runs_by_key() {
    let out = group_sequential_all(vec![(1u32, 'a'), (1, 'b'), (2, 'c'), (1, 'd'), (1, 'e')]);
    assert_eq!(out, [(1, vec!['a', 'b']), (2, vec!['c']), (1, vec!['d', 'e'])]);
}

#[test]
fn grouping_nothing_gives_nothing() {
    let out: Vec<(u64, Vec<i32>)> = group_sequential_all(Vec::new());
    assert!(out.is_empty());
}

#[test]
fn group_is_yielded_when_the_key_changes_or_the_stream_ends() {
    let mut g = GroupSequential::new();
    assert!(matches!(g.feed(Some((7u8, "x"))), Step::Continue));
    assert!(matches!(g.feed(Some((7u8, "y"))), Step::Continue));
    match g.feed(Some((8u8, "z"))) {
        Step::Yield(group) => assert_eq!(group, (7, vec!["x", "y"])),
        _ => panic!("expected a group"),
    }
    match g.feed(None) {
        Step::Yield(group) => assert_eq!(group, (8, vec!["z"])),
        _ => panic!("expected the last group"),
    }
    assert!(!g.has_current());
    assert!(matches!(g.feed(None), Step::End));
}
