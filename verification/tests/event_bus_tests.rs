use task_orchestrator::{ChannelConfig, EventBus, EventType, SchedulerError};
use tokio::sync::broadcast::error::TryRecvError;

#[derive(Debug, Clone, Hash, PartialEq, Eq)]
enum TestEvent {
    EventA,
    EventB,
}

impl std::fmt::Display for TestEvent {
    fn fmt(&self, f: &mut std::fmt::Formatter<'_>) -> std::fmt::Result {
        match self {
            TestEvent::EventA => f.write_str("EventA"),
            TestEvent::EventB => f.write_str("EventB"),
        }
    }
}

impl EventType for TestEvent {}

fn config(capacity: usize, description: &str) -> ChannelConfig {
    ChannelConfig {
        capacity,
        description: description.to_string(),
    }
}

#[test]
fn test_event_bus_creation() {
    let event_bus = EventBus::<TestEvent>::new(vec![
        (TestEvent::EventA, config(10, "Channel A")),
        (TestEvent::EventB, config(20, "Channel B")),
    ]);

    assert_eq!(event_bus.channel_count(), 2);
    assert!(event_bus.clone_sender(&TestEvent::EventA).is_ok());
    assert!(event_bus.clone_sender(&TestEvent::EventB).is_ok());
}

#[test]
fn empty_bus_refuses_unknown_events() {
    let event_bus = EventBus::<TestEvent>::new(vec![]);
    assert_eq!(event_bus.channel_count(), 0);
    assert_eq!(
        event_bus.clone_sender(&TestEvent::EventA).err(),
        Some(SchedulerError::InvalidChannel("EventA".to_string()))
    );
    assert_eq!(
        event_bus.subscribe(&TestEvent::EventB).err(),
        Some(SchedulerError::InvalidChannel("EventB".to_string()))
    );
    assert!(event_bus.channel_config(0).is_none());
}

#[test]
fn duplicate_events_share_one_channel_and_keep_every_config() {
    let event_bus = EventBus::<TestEvent>::new(vec![
        (TestEvent::EventA, config(4, "first A")),
        (TestEvent::EventB, config(8, "B")),
        (TestEvent::EventA, config(16, "second A")),
    ]);
    assert_eq!(event_bus.channel_count(), 2);
    assert_eq!(event_bus.channel_config(0).unwrap().description, "first A");
    assert_eq!(event_bus.channel_config(1).unwrap().capacity, 8);
    assert_eq!(event_bus.channel_config(2).unwrap().description, "second A");
    assert!(event_bus.channel_config(3).is_none());
}

#[test]
fn add_channel_registers_new_event_and_records_config() {
    let event_bus = EventBus::<TestEvent>::new(vec![(TestEvent::EventA, config(10, "A"))]);
    assert!(event_bus.subscribe(&TestEvent::EventB).is_err());
    let event_bus = event_bus.add_channel(TestEvent::EventB, config(5, "B"));
    assert_eq!(event_bus.channel_count(), 2);
    assert!(event_bus.subscribe(&TestEvent::EventB).is_ok());
    assert_eq!(event_bus.channel_config(1).unwrap().description, "B");

    let event_bus = event_bus.add_channel(TestEvent::EventA, config(7, "A again"));
    assert_eq!(event_bus.channel_count(), 2);
    assert_eq!(event_bus.channel_config(2).unwrap().capacity, 7);
}

#[test]
fn messages_sent_on_a_cloned_sender_reach_subscribers_in_order() {
    let event_bus = EventBus::<TestEvent>::new(vec![
        (TestEvent::EventA, config(10, "A")),
        (TestEvent::EventB, config(10, "B")),
    ]);
    let mut rx_a = event_bus.subscribe(&TestEvent::EventA).unwrap();
    let mut rx_b = event_bus.subscribe(&TestEvent::EventB).unwrap();
    let tx_a = event_bus.clone_sender(&TestEvent::EventA).unwrap();
    for i in 0..3 {
        tx_a.send(format!("event_{}", i)).unwrap();
    }
    for i in 0..3 {
        assert_eq!(rx_a.try_recv().unwrap(), format!("event_{}", i));
    }
    assert_eq!(rx_a.try_recv(), Err(TryRecvError::Empty));
    assert_eq!(rx_b.try_recv(), Err(TryRecvError::Empty));
}

#[test]
fn channel_keeps_only_its_capacity_of_unread_messages() {
    let event_bus = EventBus::<TestEvent>::new(vec![(TestEvent::EventA, config(2, "small"))]);
    let mut rx = event_bus.subscribe(&TestEvent::EventA).unwrap();
    let tx = event_bus.clone_sender(&TestEvent::EventA).unwrap();
    for i in 0..3 {
        tx.send(format!("m{}", i)).unwrap();
    }
    assert_eq!(rx.try_recv(), Err(TryRecvError::Lagged(1)));
    assert_eq!(rx.try_recv().unwrap(), "m1");
    assert_eq!(rx.try_recv().unwrap(), "m2");
}

#[test]
fn later_configuration_sets_the_capacity_of_a_repeated_event() {
    let event_bus = EventBus::<TestEvent>::new(vec![
        (TestEvent::EventA, config(64, "big")),
        (TestEvent::EventA, config(1, "tiny")),
    ]);
    let mut rx = event_bus.subscribe(&TestEvent::EventA).unwrap();
    let tx = event_bus.clone_sender(&TestEvent::EventA).unwrap();
    tx.send("x".to_string()).unwrap();
    tx.send("y".to_string()).unwrap();
    assert_eq!(rx.try_recv(), Err(TryRecvError::Lagged(1)));
    assert_eq!(rx.try_recv().unwrap(), "y");
}

#[test]
fn add_channel_keeps_other_channels_and_replaces_its_own() {
    let event_bus = EventBus::<TestEvent>::new(vec![
        (TestEvent::EventA, config(10, "A")),
        (TestEvent::EventB, config(10, "B")),
    ]);
    let tx_b = event_bus.clone_sender(&TestEvent::EventB).unwrap();
    let mut rx_b = event_bus.subscribe(&TestEvent::EventB).unwrap();
    let mut rx_a_old = event_bus.subscribe(&TestEvent::EventA).unwrap();

    let event_bus = event_bus.add_channel(TestEvent::EventA, config(10, "A again"));

    let tx_b_new = event_bus.clone_sender(&TestEvent::EventB).unwrap();
    assert!(tx_b_new.same_channel(&tx_b));
    tx_b_new.send("b".to_string()).unwrap();
    assert_eq!(rx_b.try_recv().unwrap(), "b");

    let mut rx_a_new = event_bus.subscribe(&TestEvent::EventA).unwrap();
    let tx_a_new = event_bus.clone_sender(&TestEvent::EventA).unwrap();
    tx_a_new.send("a".to_string()).unwrap();
    assert_eq!(rx_a_new.try_recv().unwrap(), "a");
    assert!(rx_a_old.try_recv().is_err());
    assert!(!tx_a_new.same_channel(&tx_b));
}
