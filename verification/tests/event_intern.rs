use reclutch::event_intern::EventIntern;

#[test]
fn nonts_test_event_listener() {
    let mut event = EventIntern::new();

    event.push(0i32);

    let listener = event.create_listener();

    event.push(1i32);
    event.push(2i32);
    event.push(3i32);

    event.pull_with(listener, |x| assert_eq!(x, &[1, 2, 3]));

    event.remove_listener(listener);
}

#[test]
fn nonts_test_event_cleanup() {
    let mut event = EventIntern::new();

    let listener_1 = event.create_listener();

    event.push(10i32);

    assert_eq!(event.event_len(), 1);

    let listener_2 = event.create_listener();

    event.push(20i32);

    event.pull_with(listener_1, |x| assert_eq!(x, &[10i32, 20i32]));
    event.pull_with(listener_2, |x| assert_eq!(x, &[20i32]));
    event.pull_with(listener_2, |x| assert_eq!(x, &[]));
    event.pull_with(listener_2, |x| assert_eq!(x, &[]));

    assert_eq!(event.event_len(), 0);

    for _i in 0..10 {
        event.push(30i32);
    }

    event.pull_with(listener_2, |x| assert_eq!(x, &[30i32; 10]));

    event.remove_listener(listener_1);

    assert_eq!(event.event_len(), 0);
}

#[test]
fn push_without_listener_is_buffered() {
    let mut event = EventIntern::new();
    event.extend(vec![1u8, 2]);
    assert_eq!(event.event_len(), 2);
    assert_eq!(event.listener_len(), 0);
    let listener = event.create_listener();
    assert_eq!(event.listener_len(), 1);
    event.pull_with(listener, |x| assert!(x.is_empty()));
    assert_eq!(event.event_len(), 2);
}
