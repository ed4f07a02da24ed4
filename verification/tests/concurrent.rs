use ruchei::concurrent::concurrent_size_hint;
use ruchei::connection_item::ConnectionItem;
use ruchei::multi_item::MultiItem;

#[test]
fn concurrent_size_hint_adds_running_futures() {
    assert_eq!(concurrent_size_hint(2, Some(5), 3), (5, Some(8)));
    assert_eq!(concurrent_size_hint(0, None, 4), (4, None));
}

#[test]
fn concurrent_size_hint_saturates_and_drops_overflowing_bound() {
    assert_eq!(concurrent_size_hint(usize::MAX - 1, Some(usize::MAX), 2), (usize::MAX, None));
    assert_eq!(concurrent_size_hint(1, Some(usize::MAX - 2), 2), (3, Some(usize::MAX)));
}

#[test]
fn connection_item_ignore_closed_keeps_items() {
    let item: ConnectionItem<&str, i32, ()> = ConnectionItem::Item(7);
    assert_eq!(item.ignore_closed(), Some(7));
    let closed: ConnectionItem<&str, i32, ()> = ConnectionItem::Closed("a", None);
    assert_eq!(closed.ignore_closed(), None);
    let failed: ConnectionItem<&str, i32, u8> = ConnectionItem::Closed("b", Some(1));
    assert_eq!(failed.ignore_closed(), None);
}

#[test]
fn multi_item_ignore_closed_keeps_items() {
    let item: MultiItem<&str, i32, ()> = MultiItem::Item(3);
    assert_eq!(item.ignore_closed(), Some(3));
    let closed: MultiItem<&str, i32, u8> = MultiItem::Closed("c", Some(2));
    assert_eq!(closed.ignore_closed(), None);
}
