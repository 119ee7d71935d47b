use std::sync::{Arc, Mutex};

use task_orchestrator::{
    ChannelConfig, EventBus, EventType, Scheduler, SchedulerError, ShutdownAction, ShutdownInput,
    ShutdownState, StartAction, StartInput, StartState, TaskId, TaskRegistry,
};
use tokio::sync::broadcast::Receiver;

#[derive(Debug, Clone, Hash, PartialEq, Eq)]
enum TestEvent {
    EventA,
    EventB,
}

impl std::fmt::Display for TestEvent {
    fn fmt(&self, f: &mut std::fmt::Formatter<'_>) -> std::fmt::Result {
        match self {
            TestEvent::EventA => f.write_str("EventA"),
            TestEvent::EventB => f.write_str("EventB"),
        }
    }
}

impl EventType for TestEvent {}

#[derive(Debug, Clone, Copy, PartialEq, Eq)]
enum TestStatus {
    Idle,
    Running,
    Stopped,
}

struct TestTask {
    name: String,
    status: TestStatus,
    event: TestEvent,
    received_events: Vec<String>,
    init_error: Option<String>,
    shutdown_error: Option<String>,
}

type Handle = Arc<Mutex<TestTask>>;

fn task(name: &str, event: TestEvent) -> Handle {
    Arc::new(Mutex::new(TestTask {
        name: name.to_string(),
        status: TestStatus::Idle,
        event,
        received_events: Vec::new(),
        init_error: None,
        shutdown_error: None,
    }))
}

fn initialize(handle: &Handle, log: &mut Vec<String>) -> Result<(), SchedulerError> {
    let mut t = handle.lock().unwrap();
    log.push(format!("init {}", t.name));
    match &t.init_error {
        Some(e) => Err(SchedulerError::TaskInitialization(e.clone())),
        None => {
            t.status = TestStatus::Running;
            Ok(())
        }
    }
}

/// Runs start-up to completion the way an async runtime would, recording what it did.
fn run_start(
    scheduler: &Scheduler<TestEvent, Handle, Handle>,
    log: &mut Vec<String>,
    handlers: &mut Vec<(Handle, Receiver<String>)>,
) -> Result<(), SchedulerError> {
    let mut state = Scheduler::<TestEvent, Handle, Handle>::start_state();
    let mut input = StartInput::Proceed;
    for _ in 0..100 {
        let (next, action) = scheduler.start_step(state, input);
        state = next;
        input = match action {
            StartAction::InitializeBackground(h) => {
                StartInput::BackgroundInitialized(initialize(&h, log))
            }
            StartAction::SpawnBackground(h) => {
                log.push(format!("spawn {}", h.lock().unwrap().name));
                StartInput::Proceed
            }
            StartAction::InitializeEvent(h) => {
                let result = initialize(&h, log).map(|()| h.lock().unwrap().event.clone());
                StartInput::EventInitialized(result)
            }
            StartAction::SpawnEventHandler(h, rx) => {
                log.push(format!("handle {}", h.lock().unwrap().name));
                handlers.push((h, rx));
                StartInput::Proceed
            }
            StartAction::Complete(result) => return result,
            StartAction::Idle => panic!("start-up already over"),
        };
    }
    panic!("start-up did not end")
}

/// Runs shut-down to completion, recording the tasks it stopped.
fn run_shutdown(
    scheduler: &Scheduler<TestEvent, Handle, Handle>,
    log: &mut Vec<String>,
) -> Result<(), SchedulerError> {
    let mut state = Scheduler::<TestEvent, Handle, Handle>::shutdown_state();
    let mut input = ShutdownInput::Proceed;
    for _ in 0..100 {
        let (next, action) = scheduler.shutdown_step(state, input);
        state = next;
        let handle = match action {
            ShutdownAction::ShutdownBackground(h) | ShutdownAction::ShutdownEvent(h) => h,
            ShutdownAction::Complete(result) => return result,
            ShutdownAction::Idle => panic!("shut-down already over"),
        };
        let mut t = handle.lock().unwrap();
        log.push(format!("stop {}", t.name));
        input = ShutdownInput::ShutDown(match &t.shutdown_error {
            Some(e) => Err(SchedulerError::TaskShutdown(e.clone())),
            None => {
                t.status = TestStatus::Stopped;
                Ok(())
            }
        });
    }
    panic!("shut-down did not end")
}

fn bus_with_a() -> EventBus<TestEvent> {
    EventBus::new(vec![(
        TestEvent::EventA,
        ChannelConfig {
            capacity: 10,
            description: "Test channel".to_string(),
        },
    )])
}

#[test]
fn test_task_registration() {
    let mut registry = TaskRegistry::<Handle, Handle>::new();

    let bg_task = task("bg_task", TestEvent::EventA);
    let event_task = task("event_task", TestEvent::EventA);

    let bg_id = registry.register_background_task(bg_task.clone());
    let event_id = registry.register_event_task(event_task.clone());

    assert!(registry.get_background_task(&bg_id).is_some());
    assert!(registry.get_event_task(&event_id).is_some());
    assert!(Arc::ptr_eq(&registry.get_background_task(&bg_id).unwrap(), &bg_task));
    assert!(registry.get_event_task(&bg_id).is_none());
    assert!(registry.get_background_task(&event_id).is_none());
}

#[test]
fn test_scheduler_error_handling() {
    let scheduler: Scheduler<TestEvent, Handle, Handle> =
        Scheduler::new(EventBus::<TestEvent>::new(vec![]));

    // Test invalid task lookup
    let result = scheduler
        .task_registry()
        .get_background_task(&TaskId::new())
        .is_none();
    assert!(result);

    assert!(TaskRegistry::<Handle, Handle>::default()
        .get_event_task(&TaskId::new())
        .is_none());

    // Test invalid channel

    let event_bus = EventBus::<TestEvent>::new(vec![]);
    assert!(event_bus.clone_sender(&TestEvent::EventA).is_err());
}

#[test]
fn test_background_task_lifecycle() {
    let bg = task("bg_task", TestEvent::EventA);
    let mut scheduler: Scheduler<TestEvent, Handle, Handle> =
        Scheduler::new(EventBus::<TestEvent>::new(vec![]));
    scheduler.register_background_task(bg.clone());

    let mut log = Vec::new();
    let mut handlers = Vec::new();
    assert_eq!(run_start(&scheduler, &mut log, &mut handlers), Ok(()));
    assert_eq!(bg.lock().unwrap().status, TestStatus::Running);
    assert_eq!(log, vec!["init bg_task", "spawn bg_task"]);

    assert_eq!(run_shutdown(&scheduler, &mut log), Ok(()));
    assert_eq!(bg.lock().unwrap().status, TestStatus::Stopped);
}

#[test]
fn test_event_task_handling() {
    let ev = task("event_task", TestEvent::EventA);
    let mut scheduler: Scheduler<TestEvent, Handle, Handle> = Scheduler::new(bus_with_a());
    scheduler.register_event_task(ev.clone());

    let mut log = Vec::new();
    let mut handlers = Vec::new();
    assert_eq!(run_start(&scheduler, &mut log, &mut handlers), Ok(()));
    assert_eq!(handlers.len(), 1);

    let sender = scheduler
        .event_bus()
        .clone_sender(&TestEvent::EventA)
        .unwrap();
    for i in 0..5 {
        sender.send(format!("event_{}", i)).unwrap();
    }

    let (handle, rx) = &mut handlers[0];
    while let Ok(event) = rx.try_recv() {
        handle.lock().unwrap().received_events.push(event);
    }
    let events = &ev.lock().unwrap().received_events;
    assert_eq!(events.len(), 5);
    for i in 0..5 {
        assert_eq!(events[i], format!("event_{}", i));
    }
}

#[test]
fn start_initializes_background_tasks_before_event_tasks_in_order() {
    let mut scheduler: Scheduler<TestEvent, Handle, Handle> = Scheduler::new(bus_with_a());
    scheduler.register_event_task(task("e1", TestEvent::EventA));
    scheduler.register_background_task(task("b1", TestEvent::EventA));
    scheduler.register_event_task(task("e2", TestEvent::EventA));
    scheduler.register_background_task(task("b2", TestEvent::EventA));

    let mut log = Vec::new();
    let mut handlers = Vec::new();
    assert_eq!(run_start(&scheduler, &mut log, &mut handlers), Ok(()));
    assert_eq!(
        log,
        vec![
            "init b1", "spawn b1", "init b2", "spawn b2", "init e1", "handle e1", "init e2",
            "handle e2"
        ]
    );

    let mut stops = Vec::new();
    assert_eq!(run_shutdown(&scheduler, &mut stops), Ok(()));
    assert_eq!(stops, vec!["stop b1", "stop b2", "stop e1", "stop e2"]);
}

#[test]
fn start_stops_at_the_first_failed_initialization() {
    let mut scheduler: Scheduler<TestEvent, Handle, Handle> = Scheduler::new(bus_with_a());
    let first = task("b1", TestEvent::EventA);
    let failing = task("b2", TestEvent::EventA);
    failing.lock().unwrap().init_error = Some("broken".to_string());
    let never = task("e1", TestEvent::EventA);
    scheduler.register_background_task(first.clone());
    scheduler.register_background_task(failing);
    scheduler.register_event_task(never.clone());

    let mut log = Vec::new();
    let mut handlers = Vec::new();
    assert_eq!(
        run_start(&scheduler, &mut log, &mut handlers),
        Err(SchedulerError::TaskInitialization("broken".to_string()))
    );
    assert_eq!(log, vec!["init b1", "spawn b1", "init b2"]);
    assert_eq!(never.lock().unwrap().status, TestStatus::Idle);
    assert!(handlers.is_empty());
}

#[test]
fn event_task_without_a_channel_is_initialized_but_not_run() {
    let mut scheduler: Scheduler<TestEvent, Handle, Handle> = Scheduler::new(bus_with_a());
    let orphan = task("orphan", TestEvent::EventB);
    scheduler.register_event_task(orphan.clone());
    scheduler.register_event_task(task("listener", TestEvent::EventA));

    let mut log = Vec::new();
    let mut handlers = Vec::new();
    assert_eq!(run_start(&scheduler, &mut log, &mut handlers), Ok(()));
    assert_eq!(log, vec!["init orphan", "init listener", "handle listener"]);
    assert_eq!(orphan.lock().unwrap().status, TestStatus::Running);
    assert_eq!(handlers.len(), 1);
}

#[test]
fn start_with_no_tasks_completes_at_once_and_then_idles() {
    let scheduler: Scheduler<TestEvent, Handle, Handle> = Scheduler::new(bus_with_a());
    let (state, action) = scheduler.start_step(
        Scheduler::<TestEvent, Handle, Handle>::start_state(),
        StartInput::Proceed,
    );
    assert!(matches!(state, StartState::Finished));
    assert!(matches!(action, StartAction::Complete(Ok(()))));
    let (state, action) = scheduler.start_step(state, StartInput::Proceed);
    assert!(matches!(state, StartState::Finished));
    assert!(matches!(action, StartAction::Idle));
}

#[test]
fn an_answer_of_the_wrong_kind_repeats_the_request() {
    let mut scheduler: Scheduler<TestEvent, Handle, Handle> = Scheduler::new(bus_with_a());
    let bg = task("b1", TestEvent::EventA);
    scheduler.register_background_task(bg.clone());
    let (state, action) = scheduler.start_step(
        Scheduler::<TestEvent, Handle, Handle>::start_state(),
        StartInput::Proceed,
    );
    assert!(matches!(state, StartState::AwaitingBackground(0)));
    assert!(matches!(action, StartAction::InitializeBackground(_)));
    let (state, action) = scheduler.start_step(state, StartInput::Proceed);
    assert!(matches!(state, StartState::AwaitingBackground(0)));
    match action {
        StartAction::InitializeBackground(h) => assert!(Arc::ptr_eq(&h, &bg)),
        _ => panic!("expected the initialization request again"),
    }
}

#[test]
fn shutdown_stops_at_the_first_failure() {
    let mut scheduler: Scheduler<TestEvent, Handle, Handle> = Scheduler::new(bus_with_a());
    let failing = task("b1", TestEvent::EventA);
    failing.lock().unwrap().shutdown_error = Some("stuck".to_string());
    let later = task("e1", TestEvent::EventA);
    scheduler.register_background_task(failing);
    scheduler.register_event_task(later.clone());

    let mut log = Vec::new();
    assert_eq!(
        run_shutdown(&scheduler, &mut log),
        Err(SchedulerError::TaskShutdown("stuck".to_string()))
    );
    assert_eq!(log, vec!["stop b1"]);
    assert_eq!(later.lock().unwrap().status, TestStatus::Idle);

    let (state, action) = scheduler.shutdown_step(ShutdownState::Finished, ShutdownInput::Proceed);
    assert!(matches!(state, ShutdownState::Finished));
    assert!(matches!(action, ShutdownAction::Idle));
}

#[test]
fn registered_tasks_get_distinct_ids() {
    let mut scheduler: Scheduler<TestEvent, Handle, Handle> = Scheduler::new(bus_with_a());
    let a = scheduler.register_background_task(task("a", TestEvent::EventA));
    let b = scheduler.register_background_task(task("b", TestEvent::EventA));
    assert_ne!(a, b);
    assert_eq!(scheduler.event_bus().channel_count(), 1);
}
