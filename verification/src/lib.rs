//! Task orchestration core: task identifiers, the event bus that maps event
//! kinds to broadcast channels, the task registry, and the scheduler whose
//! start-up and shut-down are written as verified state machines driven by an
//! asynchronous runtime.

pub mod error;
pub mod event_bus;
pub mod registry;
pub mod scheduler;
pub mod task_id;

pub use error::SchedulerError;
pub use event_bus::{ChannelConfig, EventBus, EventType};
pub use registry::TaskRegistry;
pub use scheduler::{
    Scheduler, ShutdownAction, ShutdownEffect, ShutdownInput, ShutdownState, StartAction,
    StartEffect, StartInput, StartState,
};
pub use task_id::TaskId;
