use ruchei::collections::linked_slab::LinkedSlab;
use ruchei::deal::deal_next;

#[test]
fn deal_takes_turns_in_join_order() {
    let mut slab = LinkedSlab::<&str, 2>::new();
    let a = slab.insert("a");
    let b = slab.insert("b");
    let c = slab.insert("c");
    for k in [a, b, c] {
        slab.link_push::<1>(k);
    }
    let mut dealt = Vec::new();
    for _ in 0..6 {
        dealt.push(deal_next::<&str, 2, 1>(&mut slab).unwrap());
    }
    assert_eq!(dealt, vec![a, b, c, a, b, c]);
    assert_eq!(slab.front::<1>(), Some(a));
}

#[test]
fn deal_with_no_connection_gives_nothing() {
    let mut slab = LinkedSlab::<&str, 2>::new();
    assert_eq!(deal_next::<&str, 2, 1>(&mut slab), None);
    let a = slab.insert("a");
    assert_eq!(deal_next::<&str, 2, 1>(&mut slab), None);
    slab.link_push::<1>(a);
    assert_eq!(deal_next::<&str, 2, 1>(&mut slab), Some(a));
    assert_eq!(deal_next::<&str, 2, 1>(&mut slab), Some(a));
}

#[test]
fn deal_skips_a_removed_connection() {
    let mut slab = LinkedSlab::<&str, 2>::new();
    let a = slab.insert("a");
    let b = slab.insert("b");
    slab.link_push::<1>(a);
    slab.link_push::<1>(b);
    slab.remove(a).unwrap();
    assert_eq!(deal_next::<&str, 2, 1>(&mut slab), Some(b));
    assert_eq!(deal_next::<&str, 2, 1>(&mut slab), Some(b));
}

#[test]
fn refresh_moves_a_key_to_the_back() {
    let mut slab = LinkedSlab::<u8, 1>::new();
    let a = slab.insert(1);
    let b = slab.insert(2);
    let c = slab.insert(3);
    for k in [a, b, c] {
        slab.link_push::<0>(k);
    }
    assert!(slab.refresh::<0>(b));
    assert_eq!(slab.link_pop::<0>(), Some(a));
    assert_eq!(slab.link_pop::<0>(), Some(c));
    assert_eq!(slab.link_pop::<0>(), Some(b));
    assert!(!slab.refresh::<0>(b));
    assert_eq!(slab.front::<0>(), None);
}

#[test]
fn link_pop_at_takes_a_key_out_of_the_middle() {
    let mut slab = LinkedSlab::<u8, 1>::new();
    let a = slab.insert(1);
    let b = slab.insert(2);
    let c = slab.insert(3);
    for k in [a, b, c] {
        slab.link_push::<0>(k);
    }
    assert!(slab.link_pop_at::<0>(b));
    assert!(!slab.link_pop_at::<0>(b));
    assert_eq!(slab.link_of::<0>(Some(a)), (None, Some(c)));
    assert_eq!(*slab.get(b).unwrap(), 2);
}
