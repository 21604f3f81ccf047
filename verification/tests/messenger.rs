use colony::messenger::{has_kind, post, still_present, Dispatch, MessageTypes, Messenger, Signal, SIGNAL_COUNT};

fn kinds() -> Vec<MessageTypes> {
    vec![MessageTypes::ConsumeFood]
}

#[test]
fn kind_of_a_signal() {
    assert_eq!(MessageTypes::from(Signal::ConsumeFood), MessageTypes::ConsumeFood);
    assert_eq!(MessageTypes::ConsumeFood.index(), 0);
    assert_eq!(SIGNAL_COUNT, 1);
    assert!(has_kind(&kinds(), MessageTypes::ConsumeFood));
    assert!(!has_kind(&Vec::new(), MessageTypes::ConsumeFood));
}

#[test]
fn dispatch_keeps_what_it_is_given() {
    let d = Dispatch::new(Some((3, -4)), Signal::ConsumeFood, 17);
    assert_eq!(d.pos, Some((3, -4)));
    assert_eq!(d.signal, Signal::ConsumeFood);
    assert_eq!(d.delay, 17);
}

#[test]
fn presence_ends_when_the_lifetime_is_over() {
    assert!(still_present(100, 50, 100));
    assert!(still_present(100, 50, 149));
    assert!(!still_present(100, 50, 150));
    assert!(!still_present(100, 50, 151));
    assert!(!still_present(100, 0, 100));
    assert!(still_present(100, 0, 99));
    assert!(still_present(u64::MAX, u64::MAX, u64::MAX));
}

#[test]
fn new_bus_is_empty() {
    let bus = Messenger::new(5);
    assert_eq!(bus.now(), 5);
    assert!(bus.global_receive(&kinds()).is_empty());
    assert!(bus.local_receive((0, 0), u32::MAX, &kinds()).is_empty());
}

#[test]
fn global_message_is_present_until_it_expires() {
    let mut bus = Messenger::new(0);
    bus.expire(1000);
    bus.take(Dispatch::new(None, Signal::ConsumeFood, 50));
    assert_eq!(bus.global_receive(&kinds()), vec![Signal::ConsumeFood]);
    bus.expire(1049);
    assert_eq!(bus.global_receive(&kinds()), vec![Signal::ConsumeFood]);
    bus.expire(1050);
    assert!(bus.global_receive(&kinds()).is_empty());
}

#[test]
fn local_message_is_present_until_it_expires() {
    let mut bus = Messenger::new(0);
    bus.expire(1000);
    bus.take(Dispatch::new(Some((100, 0)), Signal::ConsumeFood, 50));
    assert_eq!(bus.local_receive((100, 0), 0, &kinds()), vec![((100, 0), Signal::ConsumeFood)]);
    bus.expire(1049);
    assert_eq!(bus.local_receive((100, 0), 0, &kinds()), vec![((100, 0), Signal::ConsumeFood)]);
    bus.expire(1050);
    assert!(bus.local_receive((100, 0), 0, &kinds()).is_empty());
    assert!(bus.local_receive((0, 0), u32::MAX, &kinds()).is_empty());
}

#[test]
fn local_message_is_found_by_distance() {
    let mut bus = Messenger::new(0);
    bus.ingest(vec![
        Dispatch::new(Some((100, 0)), Signal::ConsumeFood, 10),
        Dispatch::new(Some((-5000, 40)), Signal::ConsumeFood, 10),
        Dispatch::new(None, Signal::ConsumeFood, 10),
    ]);
    assert_eq!(bus.local_receive((90, 0), 10, &kinds()), vec![((100, 0), Signal::ConsumeFood)]);
    assert!(bus.local_receive((90, 0), 9, &kinds()).is_empty());
    assert_eq!(bus.local_receive((0, 0), 100_000, &kinds()).len(), 2);
    assert!(bus.local_receive((0, 0), 100_000, &Vec::new()).is_empty());
    assert_eq!(bus.global_receive(&kinds()).len(), 1);
}

#[test]
fn kinds_asked_twice_are_answered_twice() {
    let mut bus = Messenger::new(0);
    bus.take(Dispatch::new(None, Signal::ConsumeFood, 10));
    let twice = vec![MessageTypes::ConsumeFood, MessageTypes::ConsumeFood];
    assert_eq!(bus.global_receive(&twice).len(), 2);
    assert!(bus.global_receive(&Vec::new()).is_empty());
}

#[test]
fn update_takes_in_what_was_sent() {
    let mut bus = Messenger::new(0);
    let sender = bus.sender();
    assert!(post(&sender, Dispatch::new(Some((7, 7)), Signal::ConsumeFood, 100)));
    assert!(post(&sender, Dispatch::new(None, Signal::ConsumeFood, 100)));
    assert!(bus.local_receive((7, 7), 0, &kinds()).is_empty());
    bus.update(20);
    assert_eq!(bus.now(), 20);
    assert_eq!(bus.local_receive((7, 7), 0, &kinds()), vec![((7, 7), Signal::ConsumeFood)]);
    assert_eq!(bus.global_receive(&kinds()), vec![Signal::ConsumeFood]);
    bus.update(119);
    assert_eq!(bus.local_receive((7, 7), 0, &kinds()).len(), 1);
    bus.update(120);
    assert!(bus.local_receive((7, 7), 0, &kinds()).is_empty());
    assert!(bus.global_receive(&kinds()).is_empty());
}

#[test]
fn message_without_lifetime_lasts_from_one_update_to_the_next() {
    let mut bus = Messenger::new(0);
    let sender = bus.sender();
    assert!(post(&sender, Dispatch::new(Some((1, 2)), Signal::ConsumeFood, 0)));
    bus.update(10);
    assert_eq!(bus.local_receive((1, 2), 0, &kinds()).len(), 1);
    bus.update(10);
    assert!(bus.local_receive((1, 2), 0, &kinds()).is_empty());
}

#[test]
fn many_producers_send_through_cloned_handles() {
    let mut bus = Messenger::new(0);
    let a = bus.sender();
    let b = bus.sender();
    for i in 0..50 {
        assert!(post(&a, Dispatch::new(Some((i, 0)), Signal::ConsumeFood, 5)));
        assert!(post(&b, Dispatch::new(Some((0, i)), Signal::ConsumeFood, 5)));
    }
    bus.update(1);
    assert_eq!(bus.local_receive((0, 0), 1000, &kinds()).len(), 100);
}

#[test]
fn send_fails_when_the_bus_is_gone() {
    let bus = Messenger::new(0);
    let sender = bus.sender();
    drop(bus);
    assert!(!post(&sender, Dispatch::new(None, Signal::ConsumeFood, 0)));
}

#[test]
fn expiry_keeps_the_order_of_what_stays() {
    let mut bus = Messenger::new(0);
    bus.expire(100);
    bus.take(Dispatch::new(None, Signal::ConsumeFood, 10));
    bus.take(Dispatch::new(None, Signal::ConsumeFood, 30));
    bus.take(Dispatch::new(None, Signal::ConsumeFood, 20));
    bus.expire(115);
    assert_eq!(bus.global_receive(&kinds()).len(), 2);
    bus.expire(125);
    assert_eq!(bus.global_receive(&kinds()).len(), 1);
    bus.expire(130);
    assert_eq!(bus.global_receive(&kinds()).len(), 0);
}
