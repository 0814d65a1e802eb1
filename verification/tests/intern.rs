use reclutch::traits::EmitterMutExt;
use reclutch::RawEventQueue;

#[test]
fn intern_test_event_listener() {
    let mut event = RawEventQueue::new();

    event.emit_owned(0).to_result().unwrap_err();

    let listener = event.create_listener();

    event.emit_owned(1).to_result().unwrap();
    event.emit_owned(2).to_result().unwrap();
    event.emit_owned(3).to_result().unwrap();

    event.pull_with(listener, |x| assert_eq!(x, &[1, 2, 3]));

    event.remove_listener(listener);
}

#[test]
fn intern_test_event_cleanup() {
    let mut event = RawEventQueue::new();

    let listener_1 = event.create_listener();

    event.emit_owned(10).to_result().unwrap();

    assert_eq!(event.events_len(), 1);

    let listener_2 = event.create_listener();

    event.emit_owned(20).to_result().unwrap();

    event.pull_with(listener_1, |x| assert_eq!(x, &[10, 20]));
    event.pull_with(listener_2, |x| assert_eq!(x, &[20]));
    event.pull_with(listener_2, |x| assert_eq!(x, &[]));
    event.pull_with(listener_2, |x| assert_eq!(x, &[]));

    assert_eq!(event.events_len(), 0);

    for _i in 0..10 {
        event.emit_owned(30).to_result().unwrap();
    }

    event.pull_with(listener_2, |x| assert_eq!(x, &[30; 10]));

    event.remove_listener(listener_1);

    assert_eq!(event.events_len(), 0);
}

#[test]
fn nonrc_test_event_listener() {
    let mut event = RawEventQueue::new();

    event.emit_owned(0i32).to_result().unwrap_err();

    let listener = event.create_listener();

    event.emit_owned(1i32).to_result().unwrap();
    event.emit_owned(2i32).to_result().unwrap();
    event.emit_owned(3i32).to_result().unwrap();

    event.pull_with(listener, |x| assert_eq!(x, &[1, 2, 3]));

    event.remove_listener(listener);
}

#[test]
fn nonrc_test_event_cleanup() {
    let mut event = RawEventQueue::new();

    let listener_1 = event.create_listener();

    event.emit_owned(10i32).to_result().unwrap();

    assert_eq!(event.events_len(), 1);

    let listener_2 = event.create_listener();

    event.emit_owned(20i32).to_result().unwrap();

    event.pull_with(listener_1, |x| assert_eq!(x, &[10i32, 20i32]));
    event.pull_with(listener_2, |x| assert_eq!(x, &[20i32]));
    event.pull_with(listener_2, |x| assert_eq!(x, &[]));
    event.pull_with(listener_2, |x| assert_eq!(x, &[]));

    assert_eq!(event.events_len(), 0);

    for _i in 0..10 {
        event.emit_owned(30i32).to_result().unwrap();
    }

    event.pull_with(listener_2, |x| assert_eq!(x, &[30i32; 10]));

    event.remove_listener(listener_1);

    assert_eq!(event.events_len(), 0);
}

#[test]
fn emit_without_listener_hands_the_event_back() {
    let mut event = RawEventQueue::new();
    match event.emit_owned(7u8) {
        reclutch::EmitResult::Undelivered(back) => assert_eq!(*back, 7),
        reclutch::EmitResult::Delivered => panic!("delivered with no listener"),
    }
    assert_eq!(event.events_len(), 0);
    assert!(reclutch::QueueInterfaceCommon::buffer_is_empty(&event));
}

#[test]
fn borrowed_emit_is_cloned_into_the_queue() {
    let mut event = RawEventQueue::new();
    let listener = event.create_listener();
    let item = String::from("tick");
    assert!(event.emit_borrowed(&item).was_delivered());
    event.pull_with(listener, |x| assert_eq!(x, &[String::from("tick")]));
}

#[test]
fn new_listener_sees_only_later_events() {
    let mut event = RawEventQueue::new();
    let early = event.create_listener();
    event.emit_owned(1).to_result().unwrap();
    let late = event.create_listener();
    event.emit_owned(2).to_result().unwrap();
    event.pull_with(late, |x| assert_eq!(x, &[2]));
    event.pull_with(early, |x| assert_eq!(x, &[1, 2]));
    assert_eq!(event.events_len(), 0);
}

#[test]
fn peek_get_and_finish_walk_one_event_at_a_time() {
    let mut event = RawEventQueue::new();
    let listener = event.create_listener();
    event.emit_owned(5).to_result().unwrap();
    event.emit_owned(6).to_result().unwrap();
    assert_eq!(event.peek_get(listener), Some(&5));
    event.peek_finish(listener);
    // the only listener has moved past the first event: it is dropped
    assert_eq!(event.events_len(), 1);
    assert_eq!(event.peek_get(listener), Some(&6));
    event.peek_finish(listener);
    assert_eq!(event.peek_get(listener), None);
    event.peek_finish(listener);
    assert_eq!(event.peek_get(listener), None);
    event.pull_with(listener, |x| assert!(x.is_empty()));
}

#[test]
fn removed_listener_stops_holding_back_events() {
    let mut event = RawEventQueue::new();
    let slow = event.create_listener();
    let fast = event.create_listener();
    event.extend(vec![1, 2, 3]);
    event.pull_with(fast, |x| assert_eq!(x, &[1, 2, 3]));
    assert_eq!(event.events_len(), 3);
    event.remove_listener(slow);
    assert_eq!(event.events_len(), 0);
    assert_eq!(event.peek_get(slow), None);
    assert_eq!(event.listeners_len(), 1);
}

#[test]
fn extend_without_listener_drops_the_events() {
    let mut event: RawEventQueue<u8> = Default::default();
    event.extend(vec![1, 2]);
    assert_eq!(event.events_len(), 0);
}

#[test]
fn removing_the_last_listener_drops_every_event() {
    let mut event = RawEventQueue::new();
    let listener = event.create_listener();
    event.emit_owned(1).to_result().unwrap();
    event.pull_with(listener, |x| assert_eq!(x, &[1]));
    event.emit_owned(2).to_result().unwrap();
    assert_eq!(event.events_len(), 1);
    event.remove_listener(listener);
    assert_eq!(event.events_len(), 0);
    assert!(!event.has_listeners());
}

#[test]
fn removing_an_unread_last_listener_drops_every_event() {
    let mut event = RawEventQueue::new();
    let listener = event.create_listener();
    event.emit_owned(1).to_result().unwrap();
    event.remove_listener(listener);
    assert_eq!(event.events_len(), 0);
}

#[test]
fn no_event_every_listener_received_stays_buffered() {
    let mut event = RawEventQueue::new();
    let first = event.create_listener();
    event.emit_owned(1).to_result().unwrap();
    let second = event.create_listener();
    event.emit_owned(2).to_result().unwrap();
    assert_eq!(event.events_len(), 2);

    event.pull_with(first, |x| assert_eq!(x, &[1, 2]));
    assert_eq!(event.events_len(), 1);

    event.remove_listener(second);
    assert_eq!(event.events_len(), 0);
    event.remove_listener(first);
    assert_eq!(event.events_len(), 0);
}
