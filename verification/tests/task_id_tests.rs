use task_orchestrator::{SchedulerError, TaskId};

#[test]
fn task_id_text_is_the_hyphenated_lowercase_uuid() {
    let id = TaskId(0x67e5504410b1426f9247bb680e5fe0c8);
    assert_eq!(id.to_string(), "67e55044-10b1-426f-9247-bb680e5fe0c8");
    assert_eq!(TaskId(0).to_string(), "00000000-0000-0000-0000-000000000000");
    assert_eq!(TaskId(u128::MAX).to_string(), "ffffffff-ffff-ffff-ffff-ffffffffffff");
}

#[test]
fn new_task_ids_are_random_version_four_uuids() {
    let a = TaskId::new();
    let b = TaskId::default();
    assert_ne!(a, b);
    for id in [a, b] {
        assert_eq!((id.0 >> 76) & 0xf, 4);
        assert_eq!((id.0 >> 62) & 0x3, 2);
        let text = id.to_string();
        assert_eq!(text.len(), 36);
        assert_eq!(&text[14..15], "4");
    }
}

#[test]
fn error_messages_name_their_kind() {
    let cases = vec![
        (SchedulerError::TaskInitialization("boom".to_string()), "Task initialization error: boom"),
        (SchedulerError::TaskExecution("x".to_string()), "Task execution error: x"),
        (SchedulerError::TaskShutdown("y".to_string()), "Task shutdown error: y"),
        (SchedulerError::InvalidChannel("EventA".to_string()), "Invalid channel: EventA"),
        (SchedulerError::EventSend("s".to_string()), "Event send error: s"),
        (SchedulerError::EventReceive("r".to_string()), "Event receive error: r"),
        (
            SchedulerError::TaskNotFound(TaskId(0x67e5504410b1426f9247bb680e5fe0c8)),
            "Task not found: 67e55044-10b1-426f-9247-bb680e5fe0c8",
        ),
    ];
    for (err, text) in cases {
        assert_eq!(err.to_string(), text);
    }
}
