use ruchei::multicast::buffered::SentOrder;

fn counted(order: &mut SentOrder, sent: usize, prev: Option<usize>, next: Option<usize>) -> usize {
    let key = order.insert(sent);
    order.count(prev, next, key, sent);
    key
}

#[test]
fn sent_order_starts_empty() {
    let order = SentOrder::new();
    assert_eq!(order.walk_from(None), Vec::<usize>::new());
    assert_eq!(order.sent_of(0), None);
}

#[test]
fn sent_order_keeps_connections_by_count() {
    let mut order = SentOrder::new();
    // firsts: []
    let a = counted(&mut order, 5, None, None);
    // firsts: [a(5)]; a count below 5 goes before a
    let b = counted(&mut order, 2, None, Some(a));
    // firsts: [b(2), a(5)]; a count of 7 goes after a
    let c = counted(&mut order, 7, Some(a), None);
    // firsts: [b(2), a(5), c(7)]; a count of 3 goes between b and a
    let d = counted(&mut order, 3, Some(b), Some(a));
    assert_eq!(order.walk_from(Some(b)), vec![b, d, a, c]);
    assert_eq!(order.walk_from(Some(a)), vec![a, c]);
    assert_eq!(order.walk_from(Some(c)), vec![c]);
    assert_eq!(order.sent_of(d), Some(3));
}

#[test]
fn sent_order_joins_the_group_of_its_count_last() {
    let mut order = SentOrder::new();
    let a = counted(&mut order, 1, None, None);
    let b = counted(&mut order, 4, Some(a), None);
    // firsts: [a(1), b(4)]; a second connection of count 1 joins a's group, before b
    let c = counted(&mut order, 1, None, Some(a));
    // a third joins after c
    let d = counted(&mut order, 1, None, Some(a));
    // a second of count 4 goes after b
    let e = counted(&mut order, 4, Some(a), Some(b));
    assert_eq!(order.walk_from(Some(a)), vec![a, c, d, b, e]);
    assert_eq!(order.walk_from(Some(b)), vec![b, e]);
}

#[test]
fn sent_order_insert_does_not_count() {
    let mut order = SentOrder::new();
    let a = order.insert(0);
    let b = order.insert(0);
    assert_ne!(a, b);
    assert_eq!(order.sent_of(a), Some(0));
    order.count(None, None, b, 0);
    assert_eq!(order.walk_from(Some(b)), vec![b]);
}

#[test]
fn sent_order_increment_moves_a_connection_to_its_new_count() {
    let mut order = SentOrder::new();
    let a = counted(&mut order, 0, None, None);
    let b = counted(&mut order, 0, None, Some(a));
    let c = counted(&mut order, 1, Some(a), None);
    assert_eq!(order.walk_from(Some(a)), vec![a, b, c]);
    // `a` starts the group of 0; its place there passes to `b`
    order.increment_sent(a, a);
    assert_eq!(order.sent_of(a), Some(1));
    assert_eq!(order.walk_from(Some(b)), vec![b, c, a]);
    // `b` is alone at 0 now; its group goes away
    order.increment_sent(b, b);
    assert_eq!(order.walk_from(Some(c)), vec![c, a, b]);
    // `a` sits behind `c`, which starts the group of 1
    order.increment_sent(a, c);
    assert_eq!(order.sent_of(a), Some(2));
    assert_eq!(order.walk_from(Some(c)), vec![c, b, a]);
}

#[test]
fn sent_order_uncount_returns_the_place_to_count_again() {
    let mut order = SentOrder::new();
    let a = counted(&mut order, 3, None, None);
    let b = counted(&mut order, 3, None, Some(a));
    let c = counted(&mut order, 8, Some(a), None);
    assert_eq!(order.uncount(b, a), (Some(a), Some(c)));
    assert_eq!(order.walk_from(Some(a)), vec![a, c]);
    order.count(None, Some(a), b, 3);
    assert_eq!(order.walk_from(Some(a)), vec![a, b, c]);
    assert_eq!(order.uncount(a, a), (Some(b), Some(c)));
    assert_eq!(order.walk_from(Some(b)), vec![b, c]);
    assert_eq!(order.uncount(c, c), (Some(b), None));
    assert_eq!(order.walk_from(Some(b)), vec![b]);
}

#[test]
fn sent_order_first_of_finds_the_group_start() {
    let mut order = SentOrder::new();
    let a = counted(&mut order, 2, None, None);
    let b = counted(&mut order, 2, None, Some(a));
    let c = counted(&mut order, 5, Some(a), None);
    assert_eq!(order.first_of(2), Some(a));
    assert_eq!(order.first_of(5), Some(c));
    assert_eq!(order.first_of(3), None);
    assert_eq!(order.first_of(9), None);
    order.increment_sent(a, a);
    assert_eq!(order.first_of(2), Some(b));
    assert_eq!(order.first_of(3), Some(a));
}
