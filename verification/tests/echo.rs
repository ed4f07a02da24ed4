use ruchei::compress::Seen;
use ruchei::echo::{
    interleaved_turn, EchoCall, EchoNext, EchoPoll, EchoQueue, EchoReply, EchoTurn,
};

#[test]
fn echo_sends_back_in_order() {
    let mut e = EchoQueue::new();
    e.received(1);
    e.received(2);
    e.received(3);
    assert_eq!(e.next_to_send(), Some(1));
    assert_eq!(e.next_to_send(), Some(2));
    assert_eq!(e.next_to_send(), Some(3));
    assert_eq!(e.next_to_send(), None);
}

#[test]
fn echo_holds_an_item_the_connection_was_not_ready_for() {
    let mut e = EchoQueue::new();
    e.received("a");
    e.received("b");
    let first = e.next_to_send().unwrap();
    e.not_ready(first);
    e.received("c");
    assert_eq!(e.next_to_send(), Some("a"));
    e.sent();
    assert_eq!(e.next_to_send(), Some("b"));
    e.sent();
    assert_eq!(e.next_to_send(), Some("c"));
    assert_eq!(e.next_to_send(), None);
}

#[test]
fn echo_owes_a_flush_after_a_send() {
    let mut e = EchoQueue::<u8>::new();
    assert!(!e.wants_flush());
    e.received(7);
    assert_eq!(e.next_to_send(), Some(7));
    e.sent();
    assert!(e.wants_flush());
    e.flushed();
    assert!(!e.wants_flush());
}

#[test]
fn interleaved_turn_table() {
    assert_eq!(interleaved_turn(Seen::Ended, true, true, true), EchoTurn::Finish);
    assert_eq!(interleaved_turn(Seen::Value, true, true, false), EchoTurn::SendHeld);
    assert_eq!(interleaved_turn(Seen::Pending, true, false, false), EchoTurn::Wait);
    assert_eq!(interleaved_turn(Seen::Value, true, false, false), EchoTurn::KeepHeld);
    assert_eq!(interleaved_turn(Seen::Pending, false, false, true), EchoTurn::TakeNext);
    assert_eq!(interleaved_turn(Seen::Pending, false, false, false), EchoTurn::Flush);
    assert_eq!(interleaved_turn(Seen::Value, false, false, false), EchoTurn::Again);
}

#[test]
fn echo_queue_reports_holding_and_pending() {
    let mut e = EchoQueue::new();
    assert!(!e.has_pending());
    e.received(1);
    assert!(e.has_pending());
    assert!(!e.is_holding());
    let t = e.next_to_send().unwrap();
    e.not_ready(t);
    assert!(e.is_holding());
    assert_eq!(e.next_to_send(), Some(1));
    assert!(!e.has_pending());
}

#[test]
fn echo_poll_reads_sends_and_flushes_in_order() {
    let mut state = EchoPoll::<u8>::new();
    let next: EchoNext<u8, ()> = state.begin(false);
    assert!(matches!(next, EchoNext::Call(EchoCall::Read)));
    assert!(matches!(state.reply::<()>(EchoReply::Item(1)), EchoNext::Call(EchoCall::Read)));
    assert!(matches!(state.reply::<()>(EchoReply::Item(2)), EchoNext::Call(EchoCall::Read)));
    assert!(matches!(state.reply::<()>(EchoReply::NoItem), EchoNext::Call(EchoCall::PollReady)));
    assert!(matches!(state.reply::<()>(EchoReply::Ready), EchoNext::Call(EchoCall::StartSend(1))));
    assert!(matches!(state.reply::<()>(EchoReply::Sent), EchoNext::Call(EchoCall::PollReady)));
    assert!(matches!(state.reply::<()>(EchoReply::Ready), EchoNext::Call(EchoCall::StartSend(2))));
    assert!(matches!(state.reply::<()>(EchoReply::Sent), EchoNext::Call(EchoCall::Flush)));
    assert!(matches!(state.reply::<()>(EchoReply::Flushed), EchoNext::Pending));
    let next: EchoNext<u8, ()> = state.begin(true);
    assert!(matches!(next, EchoNext::Pending));
}

#[test]
fn echo_poll_holds_an_item_the_connection_is_not_ready_for() {
    let mut state = EchoPoll::<u8>::new();
    let next: EchoNext<u8, ()> = state.begin(false);
    assert!(matches!(next, EchoNext::Call(EchoCall::Read)));
    assert!(matches!(state.reply::<()>(EchoReply::Item(7)), EchoNext::Call(EchoCall::Read)));
    assert!(matches!(state.reply::<()>(EchoReply::NoItem), EchoNext::Call(EchoCall::PollReady)));
    assert!(matches!(state.reply::<()>(EchoReply::NotReady), EchoNext::Pending));
    let next: EchoNext<u8, ()> = state.begin(true);
    assert!(matches!(next, EchoNext::Call(EchoCall::PollReady)));
    assert!(matches!(state.reply::<()>(EchoReply::Ready), EchoNext::Call(EchoCall::StartSend(7))));
}

#[test]
fn echo_poll_ends_with_the_failure_of_a_call() {
    let mut state = EchoPoll::<u8>::new();
    let next: EchoNext<u8, &str> = state.begin(false);
    assert!(matches!(next, EchoNext::Call(EchoCall::Read)));
    assert!(matches!(state.reply(EchoReply::Failed("read")), EchoNext::Failed("read")));
    let next: EchoNext<u8, &str> = state.begin(false);
    assert!(matches!(next, EchoNext::Call(EchoCall::Read)));
    assert!(matches!(state.reply::<&str>(EchoReply::Item(1)), EchoNext::Call(EchoCall::Read)));
    assert!(matches!(state.reply::<&str>(EchoReply::NoItem), EchoNext::Call(EchoCall::PollReady)));
    assert!(matches!(state.reply::<&str>(EchoReply::Ready), EchoNext::Call(EchoCall::StartSend(1))));
    assert!(matches!(state.reply(EchoReply::Failed("send")), EchoNext::Failed("send")));
}

#[test]
fn echo_poll_owes_a_flush_until_one_finishes() {
    let mut state = EchoPoll::<u8>::new();
    let next: EchoNext<u8, ()> = state.begin(true);
    assert!(matches!(next, EchoNext::Pending));
    let next: EchoNext<u8, ()> = state.begin(false);
    assert!(matches!(next, EchoNext::Call(EchoCall::Read)));
    assert!(matches!(state.reply::<()>(EchoReply::Item(3)), EchoNext::Call(EchoCall::Read)));
    assert!(matches!(state.reply::<()>(EchoReply::NoItem), EchoNext::Call(EchoCall::PollReady)));
    assert!(matches!(state.reply::<()>(EchoReply::Ready), EchoNext::Call(EchoCall::StartSend(3))));
    assert!(matches!(state.reply::<()>(EchoReply::Sent), EchoNext::Call(EchoCall::Flush)));
    assert!(matches!(state.reply::<()>(EchoReply::NotFlushed), EchoNext::Pending));
    let next: EchoNext<u8, ()> = state.begin(true);
    assert!(matches!(next, EchoNext::Call(EchoCall::Flush)));
    assert!(matches!(state.reply::<()>(EchoReply::Flushed), EchoNext::Pending));
    let next: EchoNext<u8, ()> = state.begin(true);
    assert!(matches!(next, EchoNext::Pending));
}
