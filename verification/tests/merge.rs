use ruchei::merge::flatten_sorted::{flatten_sorted_all, FlattenSorted};
use ruchei::merge::product_sorted::product_sorted_all;
use ruchei::merge::zip_group_sorted::zip_group_sorted_all;
use ruchei::merge::zip_sorted::zip_sorted_all;

#[test]
fn zip_sorted_simple() {
    let s = zip_sorted_all(vec![(1, 2), (4, 5)], vec![(1, 3), (4, 6)]);
    assert_eq!(s, [(1, (2, 3)), (4, (5, 6))]);
}

#[test]
fn zip_sorted_l_extra() {
    let s = zip_sorted_all(vec![(1, 2), (3, 3), (4, 5)], vec![(1, 3), (4, 6)]);
    assert_eq!(s, [(1, (2, 3)), (4, (5, 6))]);
}

#[test]
fn zip_sorted_r_extra() {
    let s = zip_sorted_all(vec![(1, 2), (4, 5)], vec![(1, 3), (3, 3), (4, 6)]);
    assert_eq!(s, [(1, (2, 3)), (4, (5, 6))]);
}

#[test]
fn zip_sorted_duplicate_key() {
    let s = zip_sorted_all(vec![(1, 2), (1, 4)], vec![(1, 3), (1, 5)]);
    assert_eq!(s, [(1, (2, 3)), (1, (4, 5))]);
}

#[test]
fn zip_sorted_stops_at_shorter_stream() {
    let s = zip_sorted_all(vec![(1u64, 'a'), (2, 'b'), (3, 'c')], vec![(2u64, 'x')]);
    assert_eq!(s, [(2, ('b', 'x'))]);
    let e: Vec<(u64, ((), ()))> = zip_sorted_all(Vec::new(), vec![(1u64, ())]);
    assert!(e.is_empty());
}

#[test]
fn zip_group_sorted_simple() {
    let s = zip_group_sorted_all(vec![(1, 2), (4, 5)], vec![(1, 3), (4, 6)]);
    assert_eq!(s, [(1, (2, vec![3])), (4, (5, vec![6]))]);
}

#[test]
fn zip_group_sorted_l_extra() {
    let s = zip_group_sorted_all(vec![(1, 2), (3, 3), (4, 5)], vec![(1, 3), (4, 6)]);
    assert_eq!(s, [(1, (2, vec![3])), (3, (3, vec![])), (4, (5, vec![6]))]);
}

#[test]
fn zip_group_sorted_r_extra() {
    let s = zip_group_sorted_all(vec![(1, 2), (4, 5)], vec![(1, 3), (3, 3), (4, 6)]);
    assert_eq!(s, [(1, (2, vec![3])), (4, (5, vec![6]))]);
}

#[test]
fn zip_group_sorted_duplicate_key() {
    let s = zip_group_sorted_all(vec![(1, 2), (1, 4)], vec![(1, 3), (1, 5)]);
    assert_eq!(s, [(1, (2, vec![3, 5])), (1, (4, vec![]))]);
}

#[test]
fn zip_group_sorted_keeps_left_after_right_ends() {
    let s = zip_group_sorted_all(vec![(1i64, 'a'), (2, 'b'), (5, 'c')], vec![(2i64, 7), (2, 8)]);
    assert_eq!(s, [(1, ('a', vec![])), (2, ('b', vec![7, 8])), (5, ('c', vec![]))]);
}

#[test]
fn product_sorted_simple() {
    let s = product_sorted_all(vec![(1, 2), (4, 5)], vec![(1, 3), (4, 6)]);
    assert_eq!(s, [(1, (2, 3)), (4, (5, 6))]);
}

#[test]
fn prod() {
    let s = product_sorted_all(vec![(1, 2), (1, 3)], vec![(1, 4), (1, 5)]);
    assert_eq!(s, [(1, (2, 4)), (1, (3, 4)), (1, (2, 5)), (1, (3, 5))]);
}

#[test]
fn product_sorted_interleave() {
    let s = product_sorted_all(
        vec![(1, "a"), (2, "c"), (5, "f"), (6, "g")],
        vec![(1, "b"), (3, "d"), (4, "e"), (6, "h")],
    );
    assert_eq!(s, [(1, ("a", "b")), (6, ("g", "h"))]);
}

#[test]
fn product_sorted_groups_of_three_and_two() {
    let s = product_sorted_all(
        vec![(1u64, 'a'), (1, 'b'), (1, 'c'), (2, 'z')],
        vec![(1u64, 'x'), (1, 'y'), (3, 'q')],
    );
    assert_eq!(
        s,
        [
            (1, ('a', 'x')),
            (1, ('b', 'x')),
            (1, ('c', 'x')),
            (1, ('a', 'y')),
            (1, ('b', 'y')),
            (1, ('c', 'y')),
        ]
    );
}

#[test]
fn product_sorted_empty_side() {
    let e: Vec<(u64, (char, char))> = product_sorted_all(Vec::new(), vec![(1u64, 'x')]);
    assert!(e.is_empty());
    let e: Vec<(u64, (char, char))> = product_sorted_all(vec![(1u64, 'x')], Vec::new());
    assert!(e.is_empty());
}

fn keys_of(items: Vec<(i32, ())>) -> Vec<i32> {
    items.into_iter().map(|(k, ())| k).collect()
}

fn unit_items(keys: &[i32]) -> Vec<(i32, ())> {
    keys.iter().map(|k| (*k, ())).collect()
}

#[test]
fn flatten_sorted_interleave() {
    let a = unit_items(&[1, 3, 5]);
    let b = unit_items(&[2, 4, 6]);
    let c = keys_of(flatten_sorted_all(vec![a, b]));
    assert_eq!(c, [1, 2, 3, 4, 5, 6]);
}

#[test]
fn chain() {
    let a = unit_items(&[1, 2, 3]);
    let b = unit_items(&[4, 5, 6]);
    let c = keys_of(flatten_sorted_all(vec![a, b]));
    assert_eq!(c, [1, 2, 3, 4, 5, 6]);
}

#[test]
fn duplicate() {
    let a = unit_items(&[1, 1, 2]);
    let b = unit_items(&[1, 2, 2]);
    let c = keys_of(flatten_sorted_all(vec![a, b]));
    assert_eq!(c, [1, 1, 1, 2, 2, 2]);
}

#[test]
fn one_empty() {
    let a = unit_items(&[1, 2, 3].into_iter().filter(|k| *k < 4).collect::<Vec<_>>());
    let b = unit_items(&[4, 5, 6].into_iter().filter(|k| *k < 4).collect::<Vec<_>>());
    let c = keys_of(flatten_sorted_all(vec![a, b]));
    assert_eq!(c, [1, 2, 3]);
}

#[test]
fn both_empty() {
    let a = unit_items(&[]);
    let b = unit_items(&[]);
    let c = keys_of(flatten_sorted_all(vec![a, b]));
    assert_eq!(c, Vec::<i32>::new());
}

#[test]
fn flatten_sorted_keeps_values_of_equal_keys() {
    let a = vec![(1u64, 'a'), (3, 'c'), (3, 'd')];
    let b = vec![(2u64, 'b'), (3, 'e')];
    let c = vec![(0u64, 'z')];
    let mut out = flatten_sorted_all(vec![a, b, c]);
    let keys: Vec<u64> = out.iter().map(|(k, _)| *k).collect();
    assert_eq!(keys, [0, 1, 2, 3, 3, 3]);
    out[3..].sort();
    assert_eq!(out, [(0, 'z'), (1, 'a'), (2, 'b'), (3, 'c'), (3, 'd'), (3, 'e')]);
}

#[test]
fn flatten_sorted_core_fills_floor_with_least_key() {
    let mut core: FlattenSorted<&str, u64, char> = FlattenSorted::new();
    core.push_waiting(5, 'x', "s1");
    core.push_waiting(2, 'y', "s2");
    core.push_waiting(2, 'z', "s3");
    assert!(!core.fill_floor());
    let mut got = Vec::new();
    while let Some(e) = core.pop_floor() {
        got.push(e);
    }
    got.sort();
    assert_eq!(got, [(2, 'y', "s2"), (2, 'z', "s3")]);
    assert!(core.has_waiting());
    assert!(!core.fill_floor());
    assert_eq!(core.pop_floor(), Some((5, 'x', "s1")));
    assert!(core.fill_floor());
}
