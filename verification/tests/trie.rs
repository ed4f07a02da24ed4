use ruchei::trie::{common_prefix, Trie};
use ruchei::trie::nodes::Nodes;

#[test]
fn empty_get() {
    let trie = Trie::<i32>::default();
    assert!(trie.get(b"").is_none());
    assert!(trie.get(b"sub").is_none());
}

#[test]
fn insert_at_root() {
    let mut trie = Trie::<i32>::default();
    trie.insert(b"", 123);
    assert_eq!(*trie.get(b"").unwrap(), 123);
    assert!(trie.get(b"sub").is_none());
}

#[test]
fn insert_at_sub() {
    let mut trie = Trie::<i32>::default();
    trie.insert(b"sub", 123);
    assert_eq!(*trie.get(b"sub").unwrap(), 123);
    assert!(trie.get(b"").is_none());
}

#[test]
fn insert_ab() {
    let mut trie = Trie::<i32>::default();
    trie.insert(b"a", 123);
    trie.insert(b"b", 456);
    assert_eq!(*trie.get(b"a").unwrap(), 123);
    assert_eq!(*trie.get(b"b").unwrap(), 456);
    assert!(trie.get(b"").is_none());
}

#[test]
fn insert_common_ab() {
    let mut trie = Trie::<i32>::default();
    trie.insert(b"common-a", 123);
    trie.insert(b"common-b", 456);
    assert_eq!(*trie.get(b"common-a").unwrap(), 123);
    assert_eq!(*trie.get(b"common-b").unwrap(), 456);
    assert!(trie.get(b"").is_none());
    assert!(trie.get(b"common-").is_none());
}

#[test]
fn insert_nested_abc() {
    let mut trie = Trie::<i32>::default();
    trie.insert(b"ab", 456);
    trie.insert(b"a", 123);
    trie.insert(b"abc", 789);
    assert_eq!(*trie.get(b"a").unwrap(), 123);
    assert_eq!(*trie.get(b"ab").unwrap(), 456);
    assert_eq!(*trie.get(b"abc").unwrap(), 789);
    assert!(trie.get(b"").is_none());
    assert!(trie.get(b"b").is_none());
    assert!(trie.get(b"c").is_none());
}

#[test]
fn insert_remove_a() {
    let mut trie = Trie::<i32>::default();
    trie.insert(b"a", 123);
    assert_eq!(trie.remove(b"a").unwrap(), 123);
    assert!(trie.get(b"a").is_none());
}

#[test]
fn insert_remove_ab() {
    let mut trie = Trie::<i32>::default();
    trie.insert(b"+a", 123);
    trie.insert(b"+b", 456);
    assert_eq!(trie.remove(b"+a").unwrap(), 123);
    assert_eq!(trie.remove(b"+b").unwrap(), 456);
    assert!(trie.get(b"+a").is_none());
    assert!(trie.get(b"+b").is_none());
    assert!(trie.is_empty());
}

#[test]
fn insert_returns_the_replaced_value() {
    let mut trie = Trie::<&str>::default();
    assert_eq!(trie.insert(b"key", "one"), None);
    assert_eq!(trie.insert(b"key", "two"), Some("one"));
    assert_eq!(*trie.get(b"key").unwrap(), "two");
    assert_eq!(trie.remove(b"missing"), None);
    assert_eq!(trie.remove(b"ke"), None);
    assert_eq!(*trie.get(b"key").unwrap(), "two");
}

#[test]
fn remove_merges_edges_and_keeps_the_rest() {
    let mut trie = Trie::<u32>::default();
    trie.insert(b"abc", 1);
    trie.insert(b"abd", 2);
    trie.insert(b"ab", 3);
    assert_eq!(trie.remove(b"ab"), Some(3));
    assert_eq!(trie.remove(b"abc"), Some(1));
    assert_eq!(*trie.get(b"abd").unwrap(), 2);
    assert!(trie.get(b"ab").is_none());
    assert!(trie.get(b"abc").is_none());
    trie.insert(b"abx", 4);
    assert_eq!(*trie.get(b"abx").unwrap(), 4);
    assert_eq!(*trie.get(b"abd").unwrap(), 2);
}

#[test]
fn insert_key_that_meets_the_edge_again_after_leaving_it() {
    // The edge label "ab" and the rest of the key "cb" agree at their second byte only: the
    // edge is split after one byte, so the old value moves to the new key and the new one is
    // not kept.
    let mut trie = Trie::<i32>::default();
    trie.insert(b"xab", 1);
    assert_eq!(trie.insert(b"xcb", 2), None);
    assert!(trie.get(b"xab").is_none());
    assert_eq!(*trie.get(b"xcb").unwrap(), 1);
}

#[test]
fn common_prefix_counts_agreeing_positions() {
    assert_eq!(common_prefix(b"common-a", b"common-b"), (&b"common-"[..], &b"a"[..], &b"b"[..]));
    assert_eq!(common_prefix(b"ab", b"cb"), (&b"a"[..], &b"b"[..], &b"b"[..]));
    assert_eq!(common_prefix(b"", b"xyz"), (&b""[..], &b""[..], &b"xyz"[..]));
}

#[test]
fn get_mut_changes_the_value_in_place() {
    let mut trie = Trie::<i32>::default();
    trie.insert(b"abc", 1);
    trie.insert(b"abd", 2);
    *trie.get_mut(b"abc").unwrap() = 5;
    assert_eq!(*trie.get(b"abc").unwrap(), 5);
    assert_eq!(*trie.get(b"abd").unwrap(), 2);
    assert!(trie.get_mut(b"ab").is_none());
    assert!(trie.get_mut(b"abcd").is_none());
    assert!(Trie::<i32>::default().get_mut(b"").is_none());
}

#[test]
fn prefix_of_walks_shortest_first() {
    let mut trie = Trie::<i32>::default();
    trie.insert(b"", 0);
    trie.insert(b"a", 1);
    trie.insert(b"abc", 3);
    trie.insert(b"abd", 4);
    trie.insert(b"b", 5);
    let found: Vec<i32> = trie.prefix_of(b"abcde").into_iter().copied().collect();
    assert_eq!(found, vec![0, 1, 3]);
    let found: Vec<i32> = trie.prefix_of(b"x").into_iter().copied().collect();
    assert_eq!(found, vec![0]);
    let found: Vec<i32> = trie.prefix_of(b"ab").into_iter().copied().collect();
    assert_eq!(found, vec![0, 1]);
    assert!(Trie::<i32>::default().prefix_of(b"abc").is_empty());
}

#[test]
fn nodes_push_get_and_pop() {
    let mut nodes = Nodes::<&str>::new();
    let a = nodes.push("a");
    let b = nodes.push("b");
    assert_ne!(a, b);
    assert_eq!(nodes.roots(), 2);
    assert_eq!(nodes.get(a), Some(&"a"));
    *nodes.get_mut(b).unwrap() = "c";
    assert_eq!(nodes.get(b), Some(&"c"));
    assert_eq!(nodes.pop_at(a), "a");
    assert!(!nodes.contains(a));
    assert!(nodes.get_mut(a).is_none());
    assert_eq!(nodes.roots(), 1);
    nodes.decrement_roots();
    assert_eq!(nodes.roots(), 0);
    nodes.increment_roots();
    let c = nodes.push("d");
    assert_ne!(a, c);
    assert!(!nodes.contains(a));
}

#[test]
fn regular_insert_tells_a_split_that_keeps_the_key() {
    let mut trie = Trie::<i32>::default();
    assert!(trie.regular_insert(b"aXc"));
    trie.insert(b"aXc", 1);
    assert!(trie.regular_insert(b"bbc"));
    assert!(trie.regular_insert(b"aXd"));
    assert!(trie.regular_insert(b"aX"));
    assert!(trie.regular_insert(b"aXcde"));
    assert!(!trie.regular_insert(b"abc"));
    trie.insert(b"bbc", 2);
    assert_eq!(trie.get(b"bbc"), Some(&2));
    assert_eq!(trie.get(b"aXc"), Some(&1));
    trie.insert(b"aXd", 3);
    assert_eq!(trie.get(b"aXd"), Some(&3));
    assert_eq!(trie.get(b"aXc"), Some(&1));
}

#[test]
fn remove_of_a_missing_key_changes_nothing() {
    let mut trie = Trie::<i32>::default();
    trie.insert(b"abc", 1);
    trie.insert(b"abd", 2);
    assert_eq!(trie.remove(b"ab"), None);
    assert_eq!(trie.remove(b"abx"), None);
    assert_eq!(trie.remove(b"x"), None);
    assert_eq!(trie.get(b"abc"), Some(&1));
    assert_eq!(trie.get(b"abd"), Some(&2));
}
