use silk_engine::event::{Delivery, Dispatcher, Event};

struct Tick;

impl Event for Tick {}

#[test]
fn dispatcher_posts_functions_then_methods_in_order() {
    let mut d: Dispatcher<Tick> = Dispatcher::new();
    assert!(d.post_order().is_empty());
    d.sub_method(100, 7);
    d.sub(10);
    d.sub(20);
    d.sub_method_mut(200, 8);
    assert_eq!(
        d.post_order(),
        vec![
            Delivery::Call(10),
            Delivery::Call(20),
            Delivery::CallMethod(100, 7),
            Delivery::CallMethod(200, 8),
        ]
    );
}

#[test]
fn dispatcher_unsub_swaps_the_last_into_place() {
    let mut d: Dispatcher<Tick> = Dispatcher::new();
    d.sub(1);
    d.sub(2);
    d.sub(3);
    d.unsub(1);
    d.sub_method(5, 6);
    d.sub_method(7, 8);
    d.unsub_method(5, 6);
    assert_eq!(
        d.post_order(),
        vec![Delivery::Call(3), Delivery::Call(2), Delivery::CallMethod(7, 8)]
    );
}
