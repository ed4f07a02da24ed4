use std::cell::RefCell;

use ruchei::poll::Polled;
use ruchei::read_callback::{next_from_read, read_start, read_turn, ReadEvent};

#[test]
fn read_of_an_ended_stream_stays_pending_without_a_poll() {
    assert_eq!(read_start::<()>(true), Some(Polled::Pending));
    assert_eq!(read_start::<()>(false), None);
}

#[test]
fn read_turns_hand_items_to_the_callback_in_order() {
    let seen = RefCell::new(Vec::new());
    let callback = |x: u8| seen.borrow_mut().push(x);
    assert_eq!(read_turn::<u8, (), _>(&callback, ReadEvent::Item(1)), None);
    assert_eq!(read_turn::<u8, (), _>(&callback, ReadEvent::Item(2)), None);
    assert_eq!(read_turn::<u8, (), _>(&callback, ReadEvent::Pending), Some(Polled::Ready(Ok(()))));
    assert_eq!(*seen.borrow(), vec![1, 2]);
    assert_eq!(read_turn::<u8, &str, _>(&callback, ReadEvent::Failed("e")), Some(Polled::Ready(Err("e"))));
    assert_eq!(read_turn::<u8, (), _>(&callback, ReadEvent::Ended), Some(Polled::Pending));
    assert_eq!(*seen.borrow(), vec![1, 2]);
}

#[test]
fn next_from_read_yields_errors_only() {
    assert_eq!(next_from_read::<()>(Polled::Ready(Ok(()))), Polled::Ready(None));
    assert_eq!(next_from_read(Polled::Ready(Err(4))), Polled::Ready(Some(4)));
    assert_eq!(next_from_read::<()>(Polled::Pending), Polled::Pending);
}
