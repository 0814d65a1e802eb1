use reclutch::traits::EmitResult;
use std::borrow::Cow;
use std::sync::mpsc;

#[test]
fn subscribed_push_needs_a_listener() {
    let mut inner: reclutch::chans::Intern<i32> = reclutch::chans::Intern::new();
    let (tx, rx) = crossbeam_channel::bounded(1);
    inner.subscribe(tx);
    assert!(!inner.push(1));
    assert_eq!(inner.ev.events_len(), 0);
    assert!(rx.try_recv().is_err());

    let key = inner.ev.create_listener();
    assert!(inner.push(2));
    assert_eq!(inner.ev.events_len(), 1);
    assert_eq!(rx.try_recv(), Ok(()));
    // a full channel keeps its subscriber
    assert!(inner.extend(vec![3, 4]));
    assert!(inner.push(5));
    assert_eq!(inner.subscribers.len(), 1);
    assert_eq!(inner.ev.pull_with(key, |evs: &[i32]| evs.to_vec()), vec![2, 3, 4, 5]);
}

#[test]
fn subscribed_queue_drops_disconnected_subscribers() {
    let mut inner: reclutch::chans::Intern<i32> = reclutch::chans::Intern::new();
    let (tx1, rx1) = crossbeam_channel::bounded(1);
    let (tx2, rx2) = crossbeam_channel::bounded(1);
    let key = inner.listen_and_subscribe(tx1);
    inner.subscribe(tx2);
    drop(rx1);
    assert!(inner.push(7));
    assert_eq!(inner.subscribers.len(), 1);
    assert_eq!(rx2.try_recv(), Ok(()));
    assert!(inner.ev.contains_listener(key));
}

#[test]
fn subscribed_emit() {
    let mut inner: reclutch::chans::Intern<i32> = reclutch::chans::Intern::new();
    let r = inner.emit(Cow::Owned(3));
    assert!(matches!(r, EmitResult::Undelivered(Cow::Owned(3))));
    let key = inner.ev.create_listener();
    let x = 4;
    assert!(inner.emit(Cow::Borrowed(&x)).was_delivered());
    assert_eq!(inner.ev.pull_with(key, |evs: &[i32]| evs.to_vec()), vec![4]);
}

#[test]
fn copying_subscribers_receive_events() {
    let mut inner: reclutch::schans::Intern<i32> = reclutch::schans::Intern::new();
    assert!(!inner.push(1));
    let (tx, rx) = mpsc::channel();
    inner.subscribe(tx);
    // no listener, but a subscriber takes it
    assert!(inner.push(2));
    assert_eq!(inner.ev.events_len(), 0);
    assert!(inner.extend(vec![3, 4]));
    assert_eq!(rx.try_iter().collect::<Vec<_>>(), vec![2, 3, 4]);

    let key = inner.ev.create_listener();
    assert!(inner.push(5));
    assert_eq!(inner.ev.pull_with(key, |evs: &[i32]| evs.to_vec()), vec![5]);
    assert_eq!(rx.recv(), Ok(5));
}

#[test]
fn copying_subscribers_that_left_are_dropped() {
    let mut inner: reclutch::schans::Intern<i32> = reclutch::schans::Intern::new();
    let (tx1, rx1) = mpsc::channel();
    let (tx2, rx2) = mpsc::channel();
    inner.subscribe(tx1);
    inner.subscribe(tx2);
    drop(rx1);
    assert!(inner.extend(vec![1, 2]));
    assert_eq!(inner.subscribers.len(), 1);
    assert_eq!(rx2.try_iter().collect::<Vec<_>>(), vec![1, 2]);
    drop(rx2);
    assert!(!inner.push(3));
    assert!(inner.subscribers.is_empty());
}

#[test]
fn has_listeners_follows_the_listeners() {
    let mut q = reclutch::RawEventQueue::<u8>::new();
    assert!(!q.has_listeners());
    let key = q.create_listener();
    assert!(q.has_listeners());
    q.remove_listener(key);
    assert!(!q.has_listeners());
}

fn pull(inner: &mut reclutch::chans::Intern<i32>, key: reclutch::ListenerKey) -> Vec<i32> {
    inner.ev.pull_with(key, |evs: &[i32]| evs.to_vec())
}

#[test]
fn chans_test_event_listener() {
    let mut inner: reclutch::chans::Intern<i32> = reclutch::chans::Intern::new();
    inner.push(0i32);
    let (tx, notifier) = crossbeam_channel::bounded(1);
    let key = inner.listen_and_subscribe(tx);
    inner.extend(vec![1, 2, 3]);
    assert_eq!(notifier.recv(), Ok(()));
    assert_eq!(pull(&mut inner, key), &[1, 2, 3]);
}

#[test]
fn chans_test_event_cleanup() {
    let mut inner: reclutch::chans::Intern<i32> = reclutch::chans::Intern::new();
    let (tx1, notifier1) = crossbeam_channel::bounded(1);
    let key1 = inner.listen_and_subscribe(tx1);
    inner.push(10i32);
    assert!(inner.ev.events_len() != 0);
    let (tx2, notifier2) = crossbeam_channel::bounded(1);
    let key2 = inner.listen_and_subscribe(tx2);
    inner.push(20i32);

    assert_eq!(notifier1.recv(), Ok(()));
    assert_eq!(pull(&mut inner, key1), &[10i32, 20i32]);
    inner.ev.remove_listener(key1);

    assert_eq!(notifier2.recv(), Ok(()));
    assert_eq!(pull(&mut inner, key2), &[20i32]);
    assert_eq!(pull(&mut inner, key2), &[]);
    assert_eq!(pull(&mut inner, key2), &[]);
    assert_eq!(inner.ev.events_len(), 0);

    for _i in 0..10 {
        inner.push(30i32);
    }
    assert_eq!(notifier2.recv(), Ok(()));
    assert_eq!(pull(&mut inner, key2), &[30i32; 10]);
    inner.ev.remove_listener(key2);
    assert_eq!(inner.ev.events_len(), 0);
}

#[test]
fn chans_multiple_events() {
    let mut inner1: reclutch::chans::Intern<i32> = reclutch::chans::Intern::new();
    let mut inner2: reclutch::chans::Intern<i32> = reclutch::chans::Intern::new();
    let (tx1, notifier1) = crossbeam_channel::bounded(1);
    let (tx2, notifier2) = crossbeam_channel::bounded(1);
    let key1 = inner1.listen_and_subscribe(tx1);
    let key2 = inner2.listen_and_subscribe(tx2);
    inner1.push(20i32);
    inner2.push(10i32);
    assert_eq!(notifier1.try_recv(), Ok(()));
    assert_eq!(pull(&mut inner1, key1), &[20i32]);
    assert_eq!(notifier2.try_recv(), Ok(()));
    assert_eq!(pull(&mut inner2, key2), &[10i32]);
}

#[test]
fn schans_test_event_listener() {
    let mut inner: reclutch::schans::Intern<i32> = reclutch::schans::Intern::new();
    inner.push(0i32);
    let (tx, subs) = mpsc::channel();
    inner.subscribe(tx);
    inner.extend(vec![1, 2, 3]);
    for i in [1, 2, 3].iter().copied() {
        assert_eq!(subs.recv(), Ok(i));
    }
}

#[test]
fn schans_test_event_cleanup() {
    let mut inner: reclutch::schans::Intern<i32> = reclutch::schans::Intern::new();
    let (tx1, subs1) = mpsc::channel();
    inner.subscribe(tx1);
    inner.push(10i32);
    let (tx2, subs2) = mpsc::channel();
    inner.subscribe(tx2);
    inner.push(20i32);
    assert_eq!(subs1.recv(), Ok(10i32));
    assert_eq!(subs1.recv(), Ok(20i32));
    assert_eq!(subs2.recv(), Ok(20i32));
    for _i in 0..10 {
        inner.push(30i32);
    }
    for _i in 0..10 {
        assert_eq!(subs2.recv(), Ok(30i32));
    }
}
