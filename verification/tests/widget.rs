use reclutch::widget::EventIntern;

#[test]
fn widget_test_event_listener() {
    let mut event = EventIntern::new();

    event.push(0i32);

    let listener = event.new_listener();

    event.push(1i32);
    event.push(2i32);
    event.push(3i32);

    assert_eq!(event.peek(listener), &[1, 2, 3]);

    event.remove_listener(listener);
}

#[test]
fn widget_test_event_cleanup() {
    let mut event = EventIntern::new();

    let listener_1 = event.new_listener();

    event.push(10i32);

    event.cleanup();
    assert_eq!(event.event_len(), 1);

    let listener_2 = event.new_listener();

    event.push(20i32);

    assert_eq!(event.peek(listener_1), &[10i32, 20i32]);
    assert_eq!(event.peek(listener_2), &[20i32]);
    assert_eq!(event.peek(listener_2), &[]);
    assert_eq!(event.peek(listener_2), &[]);

    event.cleanup();
    assert_eq!(event.event_len(), 0);

    for _i in 0..10 {
        event.push(30i32);
    }

    assert_eq!(event.peek(listener_2), &[30i32; 10]);

    event.remove_listener(listener_1);

    event.cleanup();
    assert_eq!(event.event_len(), 0);
}

#[test]
fn listeners_are_numbered_in_order() {
    let mut event: EventIntern<u8> = EventIntern::new();
    assert_eq!(event.new_listener(), 0);
    assert_eq!(event.new_listener(), 1);
    assert_eq!(event.listener_len(), 2);
    event.remove_listener(0);
    assert_eq!(event.listener_len(), 1);
    assert_eq!(event.new_listener(), 2);
}

#[test]
fn peek_does_not_clean_up_by_itself() {
    let mut event = EventIntern::new();
    let listener = event.new_listener();
    event.push('a');
    assert_eq!(event.peek(listener), vec!['a']);
    assert_eq!(event.event_len(), 1);
    event.cleanup();
    assert_eq!(event.event_len(), 0);
}

#[test]
fn removing_the_last_widget_listener_drops_every_event() {
    let mut event = EventIntern::new();
    let listener = event.new_listener();
    event.push(1i32);
    event.push(2i32);
    event.remove_listener(listener);
    assert_eq!(event.event_len(), 0);
    event.push(3i32);
    event.cleanup();
    assert_eq!(event.event_len(), 0);
}
