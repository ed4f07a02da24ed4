use ruchei::collections::linked_slab::LinkedSlab;

#[test]
fn linked_slab_test() {
    let mut slab = LinkedSlab::<i32, 3>::new();
    assert!(slab.is_empty());
    let a = slab.insert(123);
    let b = slab.insert(456);
    assert!(!slab.is_empty());
    slab.link_push::<0>(a);
    slab.link_push::<0>(b);
    slab.link_push::<1>(b);
    slab.link_push::<1>(a);
    slab.link_push::<2>(a);
    slab.link_push::<2>(b);
    assert_eq!(slab.link_pop::<0>().unwrap(), a);
    assert_eq!(slab.link_pop::<0>().unwrap(), b);
    assert!(slab.link_pop::<0>().is_none());
    assert_eq!(slab.link_pop::<1>().unwrap(), b);
    assert_eq!(slab.link_pop::<1>().unwrap(), a);
    assert!(slab.link_pop::<1>().is_none());
    slab.remove(a).unwrap();
    assert_eq!(slab.link_pop::<2>().unwrap(), b);
    assert!(slab.link_pop::<2>().is_none());
    assert!(slab.get_mut(a).is_none());
    assert_eq!(*slab.get_mut(b).unwrap(), 456);
    slab.remove(b).unwrap();
    assert!(slab.is_empty());
}

#[test]
fn linked_slab_push_is_idempotent_and_skips_missing_keys() {
    let mut slab = LinkedSlab::<&str, 1>::new();
    let a = slab.insert("a");
    slab.link_push::<0>(a);
    slab.link_push::<0>(a);
    slab.link_push::<0>(a + 100);
    assert_eq!(slab.link_pop::<0>(), Some(a));
    assert_eq!(slab.link_pop::<0>(), None);
}

#[test]
fn linked_slab_remove_unlinks_middle() {
    let mut slab = LinkedSlab::<u8, 2>::new();
    let a = slab.insert(1);
    let b = slab.insert(2);
    let c = slab.insert(3);
    for k in [a, b, c] {
        slab.link_push::<0>(k);
    }
    slab.link_push::<1>(b);
    assert_eq!(slab.remove(b), Some(2));
    assert_eq!(slab.remove(b), None);
    assert_eq!(slab.link_pop::<1>(), None);
    assert_eq!(slab.link_pop::<0>(), Some(a));
    assert_eq!(slab.link_pop::<0>(), Some(c));
    assert_eq!(slab.link_pop::<0>(), None);
    let d = slab.insert(4);
    assert_eq!(d, b);
    *slab.get_mut(d).unwrap() = 5;
    assert_eq!(slab.get_mut(d).copied(), Some(5));
}

#[test]
fn linked_slab_link_of_reports_neighbours() {
    let mut slab = LinkedSlab::<u8, 1>::new();
    let a = slab.insert(1);
    let b = slab.insert(2);
    let c = slab.insert(3);
    assert_eq!(slab.link_of::<0>(None), (None, None));
    slab.link_push::<0>(a);
    slab.link_push::<0>(b);
    slab.link_push::<0>(c);
    assert_eq!(slab.link_of::<0>(None), (Some(c), Some(a)));
    assert_eq!(slab.link_of::<0>(Some(a)), (None, Some(b)));
    assert_eq!(slab.link_of::<0>(Some(b)), (Some(a), Some(c)));
    assert_eq!(slab.link_of::<0>(Some(c)), (Some(b), None));
}

#[test]
fn linked_slab_link_insert_fills_a_gap() {
    let mut slab = LinkedSlab::<u8, 2>::new();
    let a = slab.insert(1);
    let b = slab.insert(2);
    let c = slab.insert(3);
    let d = slab.insert(4);
    slab.link_insert::<0>(None, b, None);
    slab.link_insert::<0>(None, a, Some(b));
    slab.link_insert::<0>(Some(b), d, None);
    slab.link_insert::<0>(Some(b), c, Some(d));
    slab.link_push::<1>(d);
    assert_eq!(slab.link_of::<0>(Some(c)), (Some(b), Some(d)));
    assert_eq!(slab.link_pop::<0>(), Some(a));
    assert_eq!(slab.link_pop::<0>(), Some(b));
    assert_eq!(slab.link_pop::<0>(), Some(c));
    assert_eq!(slab.link_pop::<0>(), Some(d));
    assert_eq!(slab.link_pop::<0>(), None);
    assert_eq!(slab.link_pop::<1>(), Some(d));
}

#[test]
fn linked_slab_new_key_is_in_no_list() {
    let mut slab = LinkedSlab::<u8, 1>::new();
    let a = slab.insert(1);
    slab.link_push::<0>(a);
    slab.remove(a).unwrap();
    let b = slab.insert(2);
    assert_eq!(slab.link_of::<0>(None), (None, None));
    assert_eq!(slab.link_pop::<0>(), None);
    assert_eq!(*slab.get(b).unwrap(), 2);
}
