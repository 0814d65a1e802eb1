use reclutch::traits::{EmitterExt, EmitterMutExt, QueueInterfaceCommon};
use reclutch::{BlackHole, EmitResult, EmitterMut};
use std::borrow::Cow;
use std::sync::mpsc;

#[test]
fn thirdparty_test_event_listener() {
    let mut event = Vec::new();

    event.emit_owned(0i32).to_result().unwrap_err();

    let (sender, receiver) = mpsc::channel();
    event.push(sender);

    let data = &[1, 2, 3];

    for i in data {
        event.emit_borrowed(i).to_result().unwrap();
    }
    for i in data {
        assert_eq!(receiver.recv(), Ok(*i));
    }
}

#[test]
fn thirdparty_test_event_cleanup() {
    let mut event = Vec::new();

    let (sender, subs1) = mpsc::channel();
    event.push(sender);

    event.emit_owned(10i32).to_result().unwrap();

    let (sender, subs2) = mpsc::channel();
    event.push(sender);

    event.emit_owned(20i32).to_result().unwrap();

    for _i in 0..10 {
        event.emit_owned(30i32).to_result().unwrap();
    }

    assert_eq!(subs1.recv(), Ok(10i32));
    assert_eq!(subs1.recv(), Ok(20i32));
    assert_eq!(subs2.recv(), Ok(20i32));
    for _i in 0..10 {
        assert_eq!(subs2.recv(), Ok(30i32));
    }
}

#[test]
fn dchans_test_event_listener() {
    let (event, subs) = crossbeam_channel::unbounded();

    event.emit_owned(1).to_result().unwrap();
    event.emit_owned(2).to_result().unwrap();
    event.emit_owned(3).to_result().unwrap();

    for i in [1, 2, 3].iter().copied() {
        assert_eq!(subs.recv(), Ok(i));
    }
}

#[test]
fn dchans_test_event_cleanup() {
    let mut event = Vec::new();

    let (sender, subs1) = crossbeam_channel::unbounded();
    event.push(sender);

    event.emit_owned(10i32).to_result().unwrap();

    let (sender, subs2) = crossbeam_channel::unbounded();
    event.push(sender);

    event.emit_owned(20i32).to_result().unwrap();

    for _i in 0..10 {
        event.emit_owned(30i32).to_result().unwrap();
    }

    assert_eq!(subs1.recv(), Ok(10i32));
    assert_eq!(subs1.recv(), Ok(20i32));
    assert_eq!(subs2.recv(), Ok(20i32));
    for _i in 0..10 {
        assert_eq!(subs2.recv(), Ok(30i32));
    }
}

#[test]
fn dchans_multiple_events() {
    let (event1, subs1) = crossbeam_channel::unbounded();
    let (event2, subs2) = crossbeam_channel::unbounded();

    event1.emit_owned(20i32).to_result().unwrap();
    event2.emit_owned(10i32).to_result().unwrap();

    assert!(!event1.buffer_is_empty());
    assert_eq!(subs1.try_recv(), Ok(20i32));
    assert_eq!(subs2.try_recv(), Ok(10i32));
    assert!(event1.buffer_is_empty());
    assert!(subs1.try_recv().is_err());
    assert!(subs2.try_recv().is_err());
}

#[test]
fn dropped_receivers_leave_the_broadcast() {
    let mut event = Vec::new();
    let (sender, receiver) = mpsc::channel();
    event.push(sender);
    let (sender, closed) = mpsc::channel();
    event.push(sender);
    drop(closed);
    assert!(event.emit_owned(1u8).was_delivered());
    assert_eq!(event.len(), 1);
    drop(receiver);
    assert!(event.emit_owned(2u8).was_undelivered());
    assert!(event.is_empty());
}

#[test]
fn closed_channel_hands_the_event_back() {
    let (sender, receiver) = mpsc::channel::<u8>();
    drop(receiver);
    match sender.emit_owned(9) {
        EmitResult::Undelivered(back) => assert_eq!(*back, 9),
        EmitResult::Delivered => panic!("delivered to a closed channel"),
    }
}

#[test]
fn black_hole_drops_everything() {
    let hole: BlackHole<u8> = BlackHole::default();
    assert!(hole.emit_owned(1).was_undelivered());
    assert!(hole.buffer_is_empty());
}

#[test]
fn emit_result_converts_to_and_from_result() {
    let ok: EmitResult<'static, u8> = EmitResult::Delivered;
    assert!(ok.was_delivered());
    assert!(!ok.was_undelivered());
    assert_eq!(ok.clone().to_result(), Ok(()));
    let back: Result<(), std::borrow::Cow<'static, u8>> = Err(std::borrow::Cow::Owned(4));
    let res: EmitResult<'static, u8> = back.into();
    assert!(res.was_undelivered());
    let again: Result<(), std::borrow::Cow<'static, u8>> = res.into();
    assert_eq!(again, Err(std::borrow::Cow::Owned(4)));
}

#[test]
fn empty_broadcast_list_leaves_the_event_undelivered() {
    let mut event: Vec<reclutch::RawEventQueue<i32>> = Vec::new();
    assert!(matches!(event.emit_owned(0), EmitResult::Undelivered(_)));
    assert!(event.is_empty());
}

#[test]
fn broadcast_keeps_exactly_the_queues_that_took_the_event() {
    let mut with_listener = reclutch::RawEventQueue::new();
    let listener = with_listener.create_listener();
    let without_listener = reclutch::RawEventQueue::new();
    let mut second = reclutch::RawEventQueue::new();
    let second_listener = second.create_listener();

    let mut event = vec![with_listener, without_listener, second];
    event.emit_owned(7i32).to_result().unwrap();

    assert_eq!(event.len(), 2);
    event[0].pull_with(listener, |x| assert_eq!(x, &[7]));
    event[1].pull_with(second_listener, |x| assert_eq!(x, &[7]));

    event[0].remove_listener(listener);
    event[1].remove_listener(second_listener);
    assert!(event.emit_owned(8).to_result().is_err());
    assert!(event.is_empty());
}

#[test]
fn slice_broadcast_offers_the_event_to_every_queue() {
    let without_listener = reclutch::RawEventQueue::<i32>::new();
    let mut first = reclutch::RawEventQueue::new();
    let first_listener = first.create_listener();
    let mut second = reclutch::RawEventQueue::new();
    let second_listener = second.create_listener();

    let mut queues = vec![without_listener, first, second];
    let result = EmitterMut::emit(&mut queues[..], Cow::Owned(5i32));
    assert!(result.was_delivered());
    assert_eq!(queues.len(), 3);
    assert_eq!(queues[0].events_len(), 0);
    queues[1].pull_with(first_listener, |x| assert_eq!(x, &[5]));
    queues[2].pull_with(second_listener, |x| assert_eq!(x, &[5]));
}

#[test]
fn slice_broadcast_nobody_listening_is_undelivered() {
    let mut queues = [reclutch::RawEventQueue::<i32>::new(), reclutch::RawEventQueue::new()];
    let result = EmitterMut::emit(&mut queues[..], Cow::Owned(6));
    assert!(matches!(result, EmitResult::Undelivered(Cow::Owned(6))));
}

#[test]
fn slice_of_one_queue_emits_to_it() {
    let mut only = reclutch::RawEventQueue::<i32>::new();
    let listener = only.create_listener();
    let mut queues = [only];
    assert!(EmitterMut::emit(&mut queues[..], Cow::Owned(3i32)).was_delivered());
    queues[0].pull_with(listener, |x| assert_eq!(x, &[3]));

    let mut lonely = [reclutch::RawEventQueue::<i32>::new()];
    assert!(EmitterMut::emit(&mut lonely[..], Cow::Owned(4)).was_undelivered());
}

#[test]
fn empty_slice_leaves_the_event_undelivered() {
    let mut queues: [reclutch::RawEventQueue<i32>; 0] = [];
    let result = EmitterMut::emit(&mut queues[..], Cow::Owned(1));
    assert!(matches!(result, EmitResult::Undelivered(Cow::Owned(1))));
}
