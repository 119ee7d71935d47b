# task_orchestrator

A task scheduling library with an event bus, verified with Verus.

- `src/` is the verified library: task identifiers (`task_id.rs`), the error type and its
  messages (`error.rs`), the event bus of broadcast channels keyed by event kind
  (`event_bus.rs`), the task registry (`registry.rs`), and the scheduler (`scheduler.rs`), whose
  start-up and shut-down are state machines: each step takes the current state and what the
  runtime observed, and returns the next state and the action to perform.
- `app/` is the asynchronous layer on Tokio: the task traits that users implement, an error type
  with `Display`, and a scheduler whose `start` and `shutdown` run the library's state machines,
  awaiting each task and spawning its loop.
- `tests/` exercises the library, driving the state machines by hand.
