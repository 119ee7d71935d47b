//! The scheduler: the identifiers of registered tasks in registration order, the registry that
//! holds the tasks, and the event bus. Starting and shutting down await the tasks, so both are
//! written as state machines: a step takes the machine's state and what the runtime observed,
//! and gives the next state and the action that the runtime performs next.

use vstd::prelude::*;

use tokio::sync::broadcast::{Receiver, Sender};

use crate::error::SchedulerError;
use crate::event_bus::EventBus;
use crate::event_bus::EventType;
use crate::event_bus::{receives_from, same_channel};
use crate::registry::TaskRegistry;
use crate::task_id::{is_random_uuid, TaskId};

verus! {

/// Where start-up stands.
pub enum StartState {
    /// About to take up the background task at this position.
    Background(usize),
    /// Waiting for the background task at this position to initialize.
    AwaitingBackground(usize),
    /// About to take up the event-driven task at this position.
    Event(usize),
    /// Waiting for the event-driven task at this position to initialize and name its event.
    AwaitingEvent(usize),
    /// Start-up has completed.
    Finished,
}

/// What the runtime observed since the last step.
pub enum StartInput<E> {
    /// Nothing to report: the last action needed no answer.
    Proceed,
    /// The outcome of a background task's initialization.
    BackgroundInitialized(Result<(), SchedulerError>),
    /// The outcome of an event-driven task's initialization: on success, the event it
    /// subscribes to.
    EventInitialized(Result<E, SchedulerError>),
}

/// What the runtime does next during start-up.
pub enum StartAction<B, V> {
    /// Initialize this background task and answer with its outcome.
    InitializeBackground(B),
    /// Run this background task's execution loop in its own task.
    SpawnBackground(B),
    /// Initialize this event-driven task and answer with its outcome and subscribed event.
    InitializeEvent(V),
    /// Run this event-driven task's handler on the messages of this receiver, in its own task.
    SpawnEventHandler(V, Receiver<String>),
    /// Start-up is over with this result.
    Complete(Result<(), SchedulerError>),
    /// Start-up was already over: nothing to do.
    Idle,
}

/// The effect of a start-up step, naming tasks by identifier.
pub enum StartEffect<E> {
    InitializeBackground(TaskId),
    SpawnBackground(TaskId),
    InitializeEvent(TaskId),
    SpawnEventHandler(TaskId, E),
    Complete(Result<(), SchedulerError>),
    Idle,
}

/// Where shut-down stands.
pub enum ShutdownState {
    /// About to look for the next background task to shut down, from this position.
    Background(usize),
    /// Waiting for the background task at this position to shut down.
    AwaitingBackground(usize),
    /// About to look for the next event-driven task to shut down, from this position.
    Event(usize),
    /// Waiting for the event-driven task at this position to shut down.
    AwaitingEvent(usize),
    /// Shut-down has completed.
    Finished,
}

/// What the runtime observed since the last shut-down step.
pub enum ShutdownInput {
    /// Nothing to report.
    Proceed,
    /// The outcome of a task's shut-down.
    ShutDown(Result<(), SchedulerError>),
}

/// What the runtime does next during shut-down.
pub enum ShutdownAction<B, V> {
    /// Shut this background task down and answer with the outcome.
    ShutdownBackground(B),
    /// Shut this event-driven task down and answer with the outcome.
    ShutdownEvent(V),
    /// Shut-down is over with this result.
    Complete(Result<(), SchedulerError>),
    /// Shut-down was already over: nothing to do.
    Idle,
}

/// The effect of a shut-down step, naming tasks by identifier.
pub enum ShutdownEffect {
    ShutdownBackground(TaskId),
    ShutdownEvent(TaskId),
    Complete(Result<(), SchedulerError>),
    Idle,
}

/// Runs tasks: background tasks in a loop, event-driven tasks on the messages of the channel of
/// the event they subscribe to.
pub struct Scheduler<E, B, V> {
    task_registry: TaskRegistry<B, V>,
    background_task_ids: Vec<TaskId>,
    event_task_ids: Vec<TaskId>,
    event_bus: EventBus<E>,
}

impl<E: PartialEq, B, V> Scheduler<E, B, V> {
    /// The registry of tasks.
    pub closed spec fn registry(self) -> TaskRegistry<B, V> {
        self.task_registry
    }

    /// The identifiers of the background tasks, in registration order.
    pub closed spec fn background_ids(self) -> Seq<TaskId> {
        self.background_task_ids@
    }

    /// The identifiers of the event-driven tasks, in registration order.
    pub closed spec fn event_ids(self) -> Seq<TaskId> {
        self.event_task_ids@
    }

    /// The event bus.
    pub closed spec fn bus(self) -> EventBus<E> {
        self.event_bus
    }

    /// The scheduler's invariant: its bus is well formed and every listed identifier names a
    /// registered task of its kind.
    pub open spec fn well_formed(self) -> bool {
        &&& self.bus().well_formed()
        &&& forall|i: int|
            0 <= i < self.background_ids().len() ==> self.registry().background_tasks().contains_key(
                #[trigger] self.background_ids()[i],
            )
        &&& forall|i: int|
            0 <= i < self.event_ids().len() ==> self.registry().event_tasks().contains_key(
                #[trigger] self.event_ids()[i],
            )
    }

    /// A scheduler with no tasks and the given bus.
    pub fn new(event_bus: EventBus<E>) -> (scheduler: Self)
        requires
            event_bus.well_formed(),
        ensures
            scheduler.well_formed(),
            scheduler.bus() == event_bus,
            scheduler.background_ids() == Seq::<TaskId>::empty(),
            scheduler.event_ids() == Seq::<TaskId>::empty(),
            scheduler.background_ids().no_duplicates(),
            scheduler.event_ids().no_duplicates(),
            scheduler.registry().background_tasks() == Map::<TaskId, B>::empty(),
            scheduler.registry().event_tasks() == Map::<TaskId, V>::empty(),
    {
        Scheduler {
            task_registry: TaskRegistry::new(),
            background_task_ids: Vec::new(),
            event_task_ids: Vec::new(),
            event_bus,
        }
    }

    /// The event bus.
    pub fn event_bus(&self) -> (bus: &EventBus<E>)
        ensures
            *bus == self.bus(),
    {
        &self.event_bus
    }

    /// The registry of tasks.
    pub fn task_registry(&self) -> (registry: &TaskRegistry<B, V>)
        ensures
            *registry == self.registry(),
    {
        &self.task_registry
    }

    /// Registers a background task under a fresh identifier, which is appended to the
    /// background tasks' order and returned.
    pub fn register_background_task(&mut self, task: B) -> (id: TaskId)
        requires
            old(self).well_formed(),
        ensures
            final(self).well_formed(),
            is_random_uuid(id.0),
            final(self).background_ids() == old(self).background_ids().push(id),
            !old(self).background_ids().contains(id),
            !old(self).registry().background_tasks().contains_key(id),
            old(self).background_ids().no_duplicates() ==> final(self).background_ids().no_duplicates(),
            final(self).event_ids() == old(self).event_ids(),
            final(self).registry().background_tasks() == old(
                self,
            ).registry().background_tasks().insert(id, task),
            final(self).registry().event_tasks() == old(self).registry().event_tasks(),
            final(self).bus() == old(self).bus(),
    {
        let id = self.task_registry.register_background_task(task);
        self.background_task_ids.push(id);
        proof {
            if old(self).background_ids().contains(id) {
                let k = choose|k: int| 0 <= k < old(self).background_ids().len() && old(self).background_ids()[k] == id;
                assert(old(self).registry().background_tasks().contains_key(old(self).background_ids()[k]));
            }
            if old(self).background_ids().no_duplicates() {
                Self::lemma_appending_a_new_id_keeps_ids_distinct(old(self).background_ids(), id);
            }
            assert forall|i: int| 0 <= i < self.background_ids().len() implies self.registry().background_tasks().contains_key(
                #[trigger] self.background_ids()[i],
            ) by {
                if i < old(self).background_ids().len() {
                    assert(old(self).background_ids()[i] == self.background_ids()[i]);
                }
            }
            assert forall|i: int| 0 <= i < self.event_ids().len() implies self.registry().event_tasks().contains_key(
                #[trigger] self.event_ids()[i],
            ) by {
                assert(old(self).event_ids()[i] == self.event_ids()[i]);
            }
        }
        id
    }

    /// Registers an event-driven task under a fresh identifier, which is appended to the
    /// event-driven tasks' order and returned.
    pub fn register_event_task(&mut self, task: V) -> (id: TaskId)
        requires
            old(self).well_formed(),
        ensures
            final(self).well_formed(),
            is_random_uuid(id.0),
            final(self).event_ids() == old(self).event_ids().push(id),
            !old(self).event_ids().contains(id),
            !old(self).registry().event_tasks().contains_key(id),
            old(self).event_ids().no_duplicates() ==> final(self).event_ids().no_duplicates(),
            final(self).background_ids() == old(self).background_ids(),
            final(self).registry().event_tasks() == old(self).registry().event_tasks().insert(
                id,
                task,
            ),
            final(self).registry().background_tasks() == old(
                self,
            ).registry().background_tasks(),
            final(self).bus() == old(self).bus(),
    {
        let id = self.task_registry.register_event_task(task);
        self.event_task_ids.push(id);
        proof {
            if old(self).event_ids().contains(id) {
                let k = choose|k: int| 0 <= k < old(self).event_ids().len() && old(self).event_ids()[k] == id;
                assert(old(self).registry().event_tasks().contains_key(old(self).event_ids()[k]));
            }
            if old(self).event_ids().no_duplicates() {
                Self::lemma_appending_a_new_id_keeps_ids_distinct(old(self).event_ids(), id);
            }
            assert forall|i: int| 0 <= i < self.event_ids().len() implies self.registry().event_tasks().contains_key(
                #[trigger] self.event_ids()[i],
            ) by {
                if i < old(self).event_ids().len() {
                    assert(old(self).event_ids()[i] == self.event_ids()[i]);
                }
            }
            assert forall|i: int| 0 <= i < self.background_ids().len() implies self.registry().background_tasks().contains_key(
                #[trigger] self.background_ids()[i],
            ) by {
                assert(old(self).background_ids()[i] == self.background_ids()[i]);
            }
        }
        id
    }

    /// Tasks registered in turn get pairwise different identifiers: appending an identifier
    /// that is not yet listed to a list without repeats leaves a list without repeats.
    pub proof fn lemma_appending_a_new_id_keeps_ids_distinct(ids: Seq<TaskId>, id: TaskId)
        requires
            ids.no_duplicates(),
            !ids.contains(id),
        ensures
            ids.push(id).no_duplicates(),
    {
        let more = ids.push(id);
        assert forall|a: int, b: int| 0 <= a < more.len() && 0 <= b < more.len() && a != b implies more[a]
            != more[b] by {
            if a == ids.len() {
                assert(ids[b] == more[b]);
            } else if b == ids.len() {
                assert(ids[a] == more[a]);
            } else {
                assert(ids[a] == more[a] && ids[b] == more[b]);
            }
        }
    }

    // ---------------------------------------------------------------- start-up, as specified

    /// The first state of start-up.
    pub open spec fn start_initial() -> StartState {
        StartState::Background(0)
    }

    /// Takes up the task at a position: the next background task to initialize, else the next
    /// event-driven one, else completion. A listed task missing from the registry ends start-up
    /// with `TaskNotFound`.
    pub open spec fn start_take_up(self, state: StartState) -> (StartState, StartEffect<E>) {
        let nb = self.background_ids().len();
        let ne = self.event_ids().len();
        let event_phase = |i: int|
            if i < ne {
                let id = self.event_ids()[i];
                if self.registry().event_tasks().contains_key(id) {
                    (StartState::AwaitingEvent(i as usize), StartEffect::InitializeEvent(id))
                } else {
                    (StartState::Finished, StartEffect::Complete(Err(SchedulerError::TaskNotFound(id))))
                }
            } else {
                (StartState::Finished, StartEffect::Complete(Ok(())))
            };
        match state {
            StartState::Background(i) => if i < nb {
                let id = self.background_ids()[i as int];
                if self.registry().background_tasks().contains_key(id) {
                    (StartState::AwaitingBackground(i), StartEffect::InitializeBackground(id))
                } else {
                    (StartState::Finished, StartEffect::Complete(Err(SchedulerError::TaskNotFound(id))))
                }
            } else {
                event_phase(0)
            },
            StartState::Event(i) => event_phase(i as int),
            _ => (StartState::Finished, StartEffect::Idle),
        }
    }

    /// One step of start-up: from a state and what the runtime observed, the next state and the
    /// effect to perform. A failed initialization ends start-up with its error; a successful one
    /// spawns the task (an event-driven task only when the bus has a channel for its event) and
    /// moves on. An answer of the wrong kind repeats the pending request.
    pub open spec fn start_spec(self, state: StartState, input: StartInput<E>) -> (
        StartState,
        StartEffect<E>,
    ) {
        let nb = self.background_ids().len();
        let ne = self.event_ids().len();
        match state {
            StartState::AwaitingBackground(i) => if i < nb {
                let id = self.background_ids()[i as int];
                match input {
                    StartInput::BackgroundInitialized(Err(e)) => (
                        StartState::Finished,
                        StartEffect::Complete(Err(e)),
                    ),
                    StartInput::BackgroundInitialized(Ok(())) => (
                        StartState::Background((i + 1) as usize),
                        StartEffect::SpawnBackground(id),
                    ),
                    _ => (state, StartEffect::InitializeBackground(id)),
                }
            } else {
                self.start_take_up(StartState::Background(i))
            },
            StartState::AwaitingEvent(i) => if i < ne {
                let id = self.event_ids()[i as int];
                match input {
                    StartInput::EventInitialized(Err(e)) => (
                        StartState::Finished,
                        StartEffect::Complete(Err(e)),
                    ),
                    StartInput::EventInitialized(Ok(event)) => if self.bus().channels().dom().contains(
                        event,
                    ) {
                        (StartState::Event((i + 1) as usize), StartEffect::SpawnEventHandler(id, event))
                    } else {
                        self.start_take_up(StartState::Event((i + 1) as usize))
                    },
                    _ => (state, StartEffect::InitializeEvent(id)),
                }
            } else {
                self.start_take_up(StartState::Event(i))
            },
            _ => self.start_take_up(state),
        }
    }

    /// Whether an action carries out an effect: the task handles in it are clones of the
    /// registered tasks that the effect names, an event handler's receiver listens on the
    /// channel of the task's event and on no other, and a completion carries the same result.
    pub open spec fn start_action_performs(self, action: StartAction<B, V>, effect: StartEffect<E>) -> bool
        where B: Clone, V: Clone
    {
        match effect {
            StartEffect::InitializeBackground(id) => action matches StartAction::InitializeBackground(h)
                && cloned(self.registry().background_tasks()[id], h),
            StartEffect::SpawnBackground(id) => action matches StartAction::SpawnBackground(h)
                && cloned(self.registry().background_tasks()[id], h),
            StartEffect::InitializeEvent(id) => action matches StartAction::InitializeEvent(h)
                && cloned(self.registry().event_tasks()[id], h),
            StartEffect::SpawnEventHandler(id, event) => action matches StartAction::SpawnEventHandler(h, rx)
                && cloned(self.registry().event_tasks()[id], h)
                && receives_from(rx, self.bus().sender_of(event))
                && forall|s: Sender<String>|
                #[trigger] receives_from(rx, s) <==> same_channel(self.bus().sender_of(event), s),
            StartEffect::Complete(r) => action matches StartAction::Complete(s) && s == r,
            StartEffect::Idle => action is Idle,
        }
    }

    // ------------------------------------------------------------- shut-down, as specified

    /// The first state of shut-down.
    pub open spec fn shutdown_initial() -> ShutdownState {
        ShutdownState::Background(0)
    }

    /// Looks for the next registered event-driven task to shut down from position `i`, passing
    /// over identifiers that the registry does not hold; with none left, shut-down completes.
    pub open spec fn shutdown_scan_events(self, i: nat) -> (ShutdownState, ShutdownEffect)
        decreases self.event_ids().len() - i,
    {
        if i < self.event_ids().len() {
            let id = self.event_ids()[i as int];
            if self.registry().event_tasks().contains_key(id) {
                (ShutdownState::AwaitingEvent(i as usize), ShutdownEffect::ShutdownEvent(id))
            } else {
                self.shutdown_scan_events(i + 1)
            }
        } else {
            (ShutdownState::Finished, ShutdownEffect::Complete(Ok(())))
        }
    }

    /// Looks for the next registered background task to shut down from position `i`, then for
    /// the event-driven ones.
    pub open spec fn shutdown_scan_background(self, i: nat) -> (ShutdownState, ShutdownEffect)
        decreases self.background_ids().len() - i,
    {
        if i < self.background_ids().len() {
            let id = self.background_ids()[i as int];
            if self.registry().background_tasks().contains_key(id) {
                (ShutdownState::AwaitingBackground(i as usize), ShutdownEffect::ShutdownBackground(id))
            } else {
                self.shutdown_scan_background(i + 1)
            }
        } else {
            self.shutdown_scan_events(0)
        }
    }

    /// Takes up the next task to shut down from a position.
    pub open spec fn shutdown_take_up(self, state: ShutdownState) -> (ShutdownState, ShutdownEffect) {
        match state {
            ShutdownState::Background(i) => self.shutdown_scan_background(i as nat),
            ShutdownState::Event(i) => self.shutdown_scan_events(i as nat),
            _ => (ShutdownState::Finished, ShutdownEffect::Idle),
        }
    }

    /// One step of shut-down: a failed shut-down ends it with that error, a successful one moves
    /// on to the next task. An answer of the wrong kind repeats the pending request.
    pub open spec fn shutdown_spec(self, state: ShutdownState, input: ShutdownInput) -> (
        ShutdownState,
        ShutdownEffect,
    ) {
        let nb = self.background_ids().len();
        let ne = self.event_ids().len();
        match state {
            ShutdownState::AwaitingBackground(i) => if i < nb {
                let id = self.background_ids()[i as int];
                match input {
                    ShutdownInput::ShutDown(Err(e)) => (
                        ShutdownState::Finished,
                        ShutdownEffect::Complete(Err(e)),
                    ),
                    ShutdownInput::ShutDown(Ok(())) => self.shutdown_take_up(
                        ShutdownState::Background((i + 1) as usize),
                    ),
                    _ => (state, ShutdownEffect::ShutdownBackground(id)),
                }
            } else {
                self.shutdown_take_up(ShutdownState::Background(i))
            },
            ShutdownState::AwaitingEvent(i) => if i < ne {
                let id = self.event_ids()[i as int];
                match input {
                    ShutdownInput::ShutDown(Err(e)) => (
                        ShutdownState::Finished,
                        ShutdownEffect::Complete(Err(e)),
                    ),
                    ShutdownInput::ShutDown(Ok(())) => self.shutdown_take_up(
                        ShutdownState::Event((i + 1) as usize),
                    ),
                    _ => (state, ShutdownEffect::ShutdownEvent(id)),
                }
            } else {
                self.shutdown_take_up(ShutdownState::Event(i))
            },
            _ => self.shutdown_take_up(state),
        }
    }

    /// Whether a shut-down action carries out an effect.
    pub open spec fn shutdown_action_performs(self, action: ShutdownAction<B, V>, effect: ShutdownEffect) -> bool
        where B: Clone, V: Clone
    {
        match effect {
            ShutdownEffect::ShutdownBackground(id) => action matches ShutdownAction::ShutdownBackground(h)
                && cloned(self.registry().background_tasks()[id], h),
            ShutdownEffect::ShutdownEvent(id) => action matches ShutdownAction::ShutdownEvent(h)
                && cloned(self.registry().event_tasks()[id], h),
            ShutdownEffect::Complete(r) => action matches ShutdownAction::Complete(s) && s == r,
            ShutdownEffect::Idle => action is Idle,
        }
    }
}

impl<E: PartialEq, B, V> Scheduler<E, B, V> {
    // ------------------------------------------------------------------ laws of start-up

    /// Whether an answer is the kind the state waits for: a background task's initialization
    /// outcome while waiting for one, an event-driven task's while waiting for that; any answer
    /// elsewhere.
    pub open spec fn start_accepts(self, state: StartState, input: StartInput<E>) -> bool {
        match state {
            StartState::AwaitingBackground(i) => i < self.background_ids().len()
                ==> input is BackgroundInitialized,
            StartState::AwaitingEvent(i) => i < self.event_ids().len() ==> input is EventInitialized,
            _ => true,
        }
    }

    /// How far start-up has come: two ranks per task, the later one while waiting for it.
    pub open spec fn start_rank(self, state: StartState) -> int {
        let nb = self.background_ids().len() as int;
        let ne = self.event_ids().len() as int;
        let at_most = |i: int, n: int| if i < n { i } else { n };
        match state {
            StartState::Background(i) => 2 * at_most(i as int, nb),
            StartState::AwaitingBackground(i) => if (i as int) < nb { 2 * i + 1 } else { 2 * nb },
            StartState::Event(i) => 2 * nb + 2 * at_most(i as int, ne),
            StartState::AwaitingEvent(i) => if (i as int) < ne { 2 * nb + 2 * i + 1 } else { 2 * nb + 2 * ne },
            StartState::Finished => 2 * nb + 2 * ne + 2,
        }
    }

    /// How many tasks start-up has seen initialize successfully by a state: the tasks before
    /// its position, background tasks first.
    pub open spec fn start_confirmed(self, state: StartState) -> int {
        let nb = self.background_ids().len() as int;
        let ne = self.event_ids().len() as int;
        let at_most = |i: int, n: int| if i < n { i } else { n };
        match state {
            StartState::Background(i) => at_most(i as int, nb),
            StartState::AwaitingBackground(i) => at_most(i as int, nb),
            StartState::Event(i) => nb + at_most(i as int, ne),
            StartState::AwaitingEvent(i) => nb + at_most(i as int, ne),
            StartState::Finished => nb + ne,
        }
    }

    /// Whether an answer reports that the task being waited for initialized successfully.
    pub open spec fn start_confirms(self, state: StartState, input: StartInput<E>) -> bool {
        match state {
            StartState::AwaitingBackground(i) => i < self.background_ids().len()
                && input matches StartInput::BackgroundInitialized(Ok(_)),
            StartState::AwaitingEvent(i) => i < self.event_ids().len()
                && input matches StartInput::EventInitialized(Ok(_)),
            _ => false,
        }
    }

    /// Start-up always ends: every step that gets the answer it waits for moves it strictly
    /// forward, and its rank never exceeds twice the number of tasks plus two, so it completes
    /// within that many such steps; once finished it stays finished and does nothing.
    pub proof fn lemma_start_progress(self, state: StartState, input: StartInput<E>)
        requires
            self.well_formed(),
            self.start_accepts(state, input),
        ensures
            0 <= self.start_rank(state) <= 2 * (self.background_ids().len() + self.event_ids().len()) + 2,
            state is Finished ==> self.start_spec(state, input) == (
                StartState::Finished,
                StartEffect::<E>::Idle,
            ),
            !(state is Finished) ==> self.start_rank(state) < self.start_rank(
                self.start_spec(state, input).0,
            ),
    {
        self.lemma_lengths();
    }

    /// Start-up fails only with an error that a task's initialization returned: a well-formed
    /// scheduler never reports a task as missing on its own, and an error ends start-up.
    pub proof fn lemma_start_failures_come_from_tasks(self, state: StartState, input: StartInput<E>)
        requires
            self.well_formed(),
        ensures
            self.start_spec(state, input).1 matches StartEffect::Complete(Err(err)) ==> (
                (input matches StartInput::BackgroundInitialized(Err(e)) && e == err)
                || (input matches StartInput::EventInitialized(Err(e)) && e == err)),
            self.start_spec(state, input).1 matches StartEffect::Complete(Err(_))
                ==> self.start_spec(state, input).0 is Finished,
    {
        self.lemma_lengths();
    }

    /// Start-up succeeds only once every task has initialized successfully: each step adds one
    /// to the count of initialized tasks exactly when it gets a success for the task it waits
    /// for, and it completes with `Ok` only when that count reaches the number of tasks.
    pub proof fn lemma_start_success_needs_all_tasks(self, state: StartState, input: StartInput<E>)
        requires
            self.well_formed(),
            !(state is Finished),
        ensures
            ({
                let (next, effect) = self.start_spec(state, input);
                let count = self.start_confirmed(state) + if self.start_confirms(state, input) {
                    1int
                } else {
                    0int
                };
                &&& !(next is Finished) ==> self.start_confirmed(next) == count
                &&& effect matches StartEffect::Complete(Ok(_)) ==> count == self.background_ids().len()
                    + self.event_ids().len()
            }),
    {
        self.lemma_lengths();
    }

    /// Start-up runs a task only right after that task initialized successfully: a background
    /// task is spawned only on the success of its own initialization, and an event-driven task
    /// only on the success of its own, for the event it named, when the bus has a channel for
    /// that event.
    pub proof fn lemma_start_runs_only_initialized_tasks(self, state: StartState, input: StartInput<E>)
        requires
            self.well_formed(),
        ensures
            self.start_spec(state, input).1 matches StartEffect::SpawnBackground(id) ==> {
                &&& state matches StartState::AwaitingBackground(i) && i < self.background_ids().len()
                    && self.background_ids()[i as int] == id
                &&& input matches StartInput::BackgroundInitialized(Ok(_))
            },
            self.start_spec(state, input).1 matches StartEffect::SpawnEventHandler(id, event) ==> {
                &&& state matches StartState::AwaitingEvent(i) && i < self.event_ids().len()
                    && self.event_ids()[i as int] == id
                &&& input matches StartInput::EventInitialized(Ok(e)) && e == event
                &&& self.bus().channels().dom().contains(event)
            },
    {
        self.lemma_lengths();
    }

    // ---------------------------------------------------------------- laws of shut-down

    /// Whether an answer is the kind the state waits for.
    pub open spec fn shutdown_accepts(self, state: ShutdownState, input: ShutdownInput) -> bool {
        match state {
            ShutdownState::AwaitingBackground(i) => i < self.background_ids().len()
                ==> input is ShutDown,
            ShutdownState::AwaitingEvent(i) => i < self.event_ids().len() ==> input is ShutDown,
            _ => true,
        }
    }

    /// How far shut-down has come: two ranks per task, the later one while waiting for it.
    pub open spec fn shutdown_rank(self, state: ShutdownState) -> int {
        let nb = self.background_ids().len() as int;
        let ne = self.event_ids().len() as int;
        let at_most = |i: int, n: int| if i < n { i } else { n };
        match state {
            ShutdownState::Background(i) => 2 * at_most(i as int, nb),
            ShutdownState::AwaitingBackground(i) => if (i as int) < nb { 2 * i + 1 } else { 2 * nb },
            ShutdownState::Event(i) => 2 * nb + 2 * at_most(i as int, ne),
            ShutdownState::AwaitingEvent(i) => if (i as int) < ne { 2 * nb + 2 * i + 1 } else { 2 * nb + 2 * ne },
            ShutdownState::Finished => 2 * nb + 2 * ne + 2,
        }
    }

    /// How many tasks shut-down has seen stop successfully by a state.
    pub open spec fn shutdown_confirmed(self, state: ShutdownState) -> int {
        let nb = self.background_ids().len() as int;
        let ne = self.event_ids().len() as int;
        let at_most = |i: int, n: int| if i < n { i } else { n };
        match state {
            ShutdownState::Background(i) => at_most(i as int, nb),
            ShutdownState::AwaitingBackground(i) => at_most(i as int, nb),
            ShutdownState::Event(i) => nb + at_most(i as int, ne),
            ShutdownState::AwaitingEvent(i) => nb + at_most(i as int, ne),
            ShutdownState::Finished => nb + ne,
        }
    }

    /// Whether an answer reports that the task being waited for shut down successfully.
    pub open spec fn shutdown_confirms(self, state: ShutdownState, input: ShutdownInput) -> bool {
        match state {
            ShutdownState::AwaitingBackground(i) => i < self.background_ids().len()
                && input matches ShutdownInput::ShutDown(Ok(_)),
            ShutdownState::AwaitingEvent(i) => i < self.event_ids().len()
                && input matches ShutdownInput::ShutDown(Ok(_)),
            _ => false,
        }
    }

    /// Shut-down always ends: every step that gets the answer it waits for moves it strictly
    /// forward, within twice the number of tasks plus two; once finished it does nothing.
    pub proof fn lemma_shutdown_progress(self, state: ShutdownState, input: ShutdownInput)
        requires
            self.well_formed(),
            self.shutdown_accepts(state, input),
        ensures
            0 <= self.shutdown_rank(state) <= 2 * (self.background_ids().len() + self.event_ids().len()) + 2,
            state is Finished ==> self.shutdown_spec(state, input) == (
                ShutdownState::Finished,
                ShutdownEffect::Idle,
            ),
            !(state is Finished) ==> self.shutdown_rank(state) < self.shutdown_rank(
                self.shutdown_spec(state, input).0,
            ),
    {
        self.lemma_lengths();
        self.lemma_shutdown_step_registered(state);
    }

    /// Shut-down fails only with an error that a task's shut-down returned, and an error ends
    /// it.
    pub proof fn lemma_shutdown_failures_come_from_tasks(self, state: ShutdownState, input: ShutdownInput)
        requires
            self.well_formed(),
        ensures
            self.shutdown_spec(state, input).1 matches ShutdownEffect::Complete(Err(err)) ==> (
                input matches ShutdownInput::ShutDown(Err(e)) && e == err),
            self.shutdown_spec(state, input).1 matches ShutdownEffect::Complete(Err(_))
                ==> self.shutdown_spec(state, input).0 is Finished,
    {
        self.lemma_lengths();
        self.lemma_shutdown_step_registered(state);
    }

    /// Shut-down succeeds only once every task has shut down successfully: each step adds one to
    /// the count of stopped tasks exactly when it gets a success for the task it waits for, and
    /// it completes with `Ok` only when that count reaches the number of tasks.
    pub proof fn lemma_shutdown_success_needs_all_tasks(self, state: ShutdownState, input: ShutdownInput)
        requires
            self.well_formed(),
            !(state is Finished),
        ensures
            ({
                let (next, effect) = self.shutdown_spec(state, input);
                let count = self.shutdown_confirmed(state) + if self.shutdown_confirms(state, input) {
                    1int
                } else {
                    0int
                };
                &&& !(next is Finished) ==> self.shutdown_confirmed(next) == count
                &&& effect matches ShutdownEffect::Complete(Ok(_)) ==> count == self.background_ids().len()
                    + self.event_ids().len()
            }),
    {
        self.lemma_lengths();
        self.lemma_shutdown_step_registered(state);
    }

    /// The lists of identifiers are vectors, so their lengths fit in `usize`.
    proof fn lemma_lengths(self)
        ensures
            self.background_ids().len() <= usize::MAX,
            self.event_ids().len() <= usize::MAX,
    {
        assert(self.background_task_ids@.len() == self.background_task_ids.len());
        assert(self.event_task_ids@.len() == self.event_task_ids.len());
    }

    /// The take-ups that a shut-down step from `state` can reach pass over no task in a
    /// well-formed scheduler.
    proof fn lemma_shutdown_step_registered(self, state: ShutdownState)
        requires
            self.well_formed(),
        ensures
            match state {
                ShutdownState::AwaitingBackground(i) => {
                    &&& self.shutdown_take_up_registered_at(ShutdownState::Background(i))
                    &&& (i as int) < self.background_ids().len()
                        ==> self.shutdown_take_up_registered_at(ShutdownState::Background((i + 1) as usize))
                },
                ShutdownState::AwaitingEvent(i) => {
                    &&& self.shutdown_take_up_registered_at(ShutdownState::Event(i))
                    &&& (i as int) < self.event_ids().len()
                        ==> self.shutdown_take_up_registered_at(ShutdownState::Event((i + 1) as usize))
                },
                _ => self.shutdown_take_up_registered_at(state),
            },
            self.shutdown_take_up_registered_at(ShutdownState::Event(0)),
    {
        self.lemma_lengths();
        self.lemma_shutdown_take_up_registered(state);
        self.lemma_shutdown_take_up_registered(ShutdownState::Event(0));
        match state {
            ShutdownState::AwaitingBackground(i) => {
                if (i as int) < self.background_ids().len() {
                    self.lemma_shutdown_take_up_registered(ShutdownState::Background((i + 1) as usize));
                }
                self.lemma_shutdown_take_up_registered(ShutdownState::Background(i));
            },
            ShutdownState::AwaitingEvent(i) => {
                if (i as int) < self.event_ids().len() {
                    self.lemma_shutdown_take_up_registered(ShutdownState::Event((i + 1) as usize));
                }
                self.lemma_shutdown_take_up_registered(ShutdownState::Event(i));
            },
            _ => {},
        }
    }

    /// Taking up from `state` picks the listed task at its position (the registry holds it), or
    /// moves to the event-driven tasks, or completes.
    spec fn shutdown_take_up_registered_at(self, state: ShutdownState) -> bool {
        match state {
            ShutdownState::Background(i) => if (i as int) < self.background_ids().len() {
                self.shutdown_take_up(state) == (
                    ShutdownState::AwaitingBackground(i),
                    ShutdownEffect::ShutdownBackground(self.background_ids()[i as int]),
                )
            } else {
                self.shutdown_take_up(state) == self.shutdown_take_up(ShutdownState::Event(0))
            },
            ShutdownState::Event(i) => if (i as int) < self.event_ids().len() {
                self.shutdown_take_up(state) == (
                    ShutdownState::AwaitingEvent(i),
                    ShutdownEffect::ShutdownEvent(self.event_ids()[i as int]),
                )
            } else {
                self.shutdown_take_up(state) == (
                    ShutdownState::Finished,
                    ShutdownEffect::Complete(Ok(())),
                )
            },
            _ => true,
        }
    }

    /// In a well-formed scheduler every listed task is registered, so taking up the next task
    /// to shut down passes over none.
    proof fn lemma_shutdown_take_up_registered(self, state: ShutdownState)
        requires
            self.well_formed(),
        ensures
            self.shutdown_take_up_registered_at(state),
            self.shutdown_take_up(ShutdownState::Event(0)) == if 0 < self.event_ids().len() {
                (ShutdownState::AwaitingEvent(0), ShutdownEffect::ShutdownEvent(self.event_ids()[0]))
            } else {
                (ShutdownState::Finished, ShutdownEffect::Complete(Ok(())))
            },
    {
        assert(self.event_ids().len() > 0 ==> self.registry().event_tasks().contains_key(
            self.event_ids()[0],
        ));
        match state {
            ShutdownState::Background(i) => {
                if (i as int) < self.background_ids().len() {
                    assert(self.registry().background_tasks().contains_key(
                        self.background_ids()[i as int],
                    ));
                }
            },
            ShutdownState::Event(i) => {
                if (i as int) < self.event_ids().len() {
                    assert(self.registry().event_tasks().contains_key(self.event_ids()[i as int]));
                }
            },
            _ => {},
        }
    }
}

impl<E: PartialEq, B, V> Scheduler<E, B, V> {
    // ------------------------------------------------------- whole runs of start-up

    /// The runtime's answer to a start-up effect when the initialization of each background task
    /// ends as `init_background` says and that of each event-driven task as `init_event` says
    /// (on success, with the event the task subscribes to).
    pub open spec fn start_answer(
        effect: StartEffect<E>,
        init_background: spec_fn(TaskId) -> Result<(), SchedulerError>,
        init_event: spec_fn(TaskId) -> Result<E, SchedulerError>,
    ) -> StartInput<E> {
        match effect {
            StartEffect::InitializeBackground(id) => StartInput::BackgroundInitialized(init_background(id)),
            StartEffect::InitializeEvent(id) => StartInput::EventInitialized(init_event(id)),
            _ => StartInput::Proceed,
        }
    }

    /// The effects of at most `fuel` start-up steps from `state` and `input`, each later step
    /// answered by `start_answer`, up to and including the completion.
    pub open spec fn start_run(
        self,
        state: StartState,
        input: StartInput<E>,
        init_background: spec_fn(TaskId) -> Result<(), SchedulerError>,
        init_event: spec_fn(TaskId) -> Result<E, SchedulerError>,
        fuel: nat,
    ) -> Seq<StartEffect<E>>
        decreases fuel,
    {
        if fuel == 0 {
            Seq::empty()
        } else {
            let (next, effect) = self.start_spec(state, input);
            if effect is Complete || effect is Idle {
                seq![effect]
            } else {
                seq![effect] + self.start_run(
                    next,
                    Self::start_answer(effect, init_background, init_event),
                    init_background,
                    init_event,
                    (fuel - 1) as nat,
                )
            }
        }
    }

    /// What start-up does from the event-driven task at position `j` on: initialize each task
    /// in order; a failure ends start-up with that error; after a success, run the task's
    /// handler when the bus has a channel for its event; after the last task, complete with
    /// `Ok`.
    pub open spec fn start_order_events(
        self,
        j: nat,
        init_event: spec_fn(TaskId) -> Result<E, SchedulerError>,
    ) -> Seq<StartEffect<E>>
        decreases self.event_ids().len() - j,
    {
        if j < self.event_ids().len() {
            let id = self.event_ids()[j as int];
            seq![StartEffect::InitializeEvent(id)] + match init_event(id) {
                Err(e) => seq![StartEffect::Complete(Err(e))],
                Ok(event) => if self.bus().channels().dom().contains(event) {
                    seq![StartEffect::SpawnEventHandler(id, event)] + self.start_order_events(
                        j + 1,
                        init_event,
                    )
                } else {
                    self.start_order_events(j + 1, init_event)
                },
            }
        } else {
            seq![StartEffect::Complete(Ok(()))]
        }
    }

    /// What start-up does from the background task at position `i` on: initialize each task in
    /// order and spawn it after a success; a failure ends start-up with that error; then the
    /// event-driven tasks.
    pub open spec fn start_order_background(
        self,
        i: nat,
        init_background: spec_fn(TaskId) -> Result<(), SchedulerError>,
        init_event: spec_fn(TaskId) -> Result<E, SchedulerError>,
    ) -> Seq<StartEffect<E>>
        decreases self.background_ids().len() - i,
    {
        if i < self.background_ids().len() {
            let id = self.background_ids()[i as int];
            seq![StartEffect::InitializeBackground(id)] + match init_background(id) {
                Err(e) => seq![StartEffect::Complete(Err(e))],
                Ok(_) => seq![StartEffect::SpawnBackground(id)] + self.start_order_background(
                    i + 1,
                    init_background,
                    init_event,
                ),
            }
        } else {
            self.start_order_events(0, init_event)
        }
    }

    /// Enough steps for a whole start-up.
    pub open spec fn start_fuel(self) -> nat {
        2 * (self.background_ids().len() + self.event_ids().len()) + 1
    }

    /// Two runs whose first steps agree are the same run.
    proof fn lemma_start_run_same_step(
        self,
        s1: StartState,
        i1: StartInput<E>,
        s2: StartState,
        i2: StartInput<E>,
        init_background: spec_fn(TaskId) -> Result<(), SchedulerError>,
        init_event: spec_fn(TaskId) -> Result<E, SchedulerError>,
        fuel: nat,
    )
        requires
            self.start_spec(s1, i1) == self.start_spec(s2, i2),
        ensures
            self.start_run(s1, i1, init_background, init_event, fuel) == self.start_run(
                s2,
                i2,
                init_background,
                init_event,
                fuel,
            ),
    {
    }

    proof fn lemma_start_run_events(
        self,
        j: nat,
        init_background: spec_fn(TaskId) -> Result<(), SchedulerError>,
        init_event: spec_fn(TaskId) -> Result<E, SchedulerError>,
        fuel: nat,
    )
        requires
            self.well_formed(),
            j <= self.event_ids().len(),
            fuel >= 2 * (self.event_ids().len() - j) + 1,
        ensures
            self.start_run(StartState::Event(j as usize), StartInput::Proceed, init_background, init_event, fuel)
                == self.start_order_events(j, init_event),
        decreases self.event_ids().len() - j,
    {
        self.lemma_lengths();
        let ne = self.event_ids().len();
        if j < ne {
            let id = self.event_ids()[j as int];
            assert(self.registry().event_tasks().contains_key(id));
            let answer = StartInput::EventInitialized(init_event(id));
            assert(self.start_spec(StartState::Event(j as usize), StartInput::Proceed) == (
                StartState::AwaitingEvent(j as usize),
                StartEffect::<E>::InitializeEvent(id),
            ));
            let rest = self.start_run(
                StartState::AwaitingEvent(j as usize),
                answer,
                init_background,
                init_event,
                (fuel - 1) as nat,
            );
            match init_event(id) {
                Err(e) => {},
                Ok(event) => {
                    if self.bus().channels().dom().contains(event) {
                        self.lemma_start_run_events(j + 1, init_background, init_event, (fuel - 2) as nat);
                    } else {
                        self.lemma_start_run_same_step(
                            StartState::AwaitingEvent(j as usize),
                            answer,
                            StartState::Event((j + 1) as usize),
                            StartInput::Proceed,
                            init_background,
                            init_event,
                            (fuel - 1) as nat,
                        );
                        self.lemma_start_run_events(j + 1, init_background, init_event, (fuel - 1) as nat);
                    }
                },
            }
        }
    }

    proof fn lemma_start_run_background(
        self,
        i: nat,
        init_background: spec_fn(TaskId) -> Result<(), SchedulerError>,
        init_event: spec_fn(TaskId) -> Result<E, SchedulerError>,
        fuel: nat,
    )
        requires
            self.well_formed(),
            i <= self.background_ids().len(),
            fuel >= 2 * (self.background_ids().len() - i) + 2 * self.event_ids().len() + 1,
        ensures
            self.start_run(StartState::Background(i as usize), StartInput::Proceed, init_background, init_event, fuel)
                == self.start_order_background(i, init_background, init_event),
        decreases self.background_ids().len() - i,
    {
        self.lemma_lengths();
        let nb = self.background_ids().len();
        if i < nb {
            let id = self.background_ids()[i as int];
            assert(self.registry().background_tasks().contains_key(id));
            let waiting = StartState::AwaitingBackground(i as usize);
            let answer = StartInput::BackgroundInitialized(init_background(id));
            assert(self.start_spec(StartState::Background(i as usize), StartInput::Proceed) == (
                waiting,
                StartEffect::<E>::InitializeBackground(id),
            ));
            assert(Self::start_answer(StartEffect::InitializeBackground(id), init_background, init_event)
                == answer);
            let rest = self.start_run(waiting, answer, init_background, init_event, (fuel - 1) as nat);
            match init_background(id) {
                Err(e) => {
                    assert(self.start_spec(waiting, answer) == (
                        StartState::Finished,
                        StartEffect::<E>::Complete(Err(e)),
                    ));
                    assert(rest == seq![StartEffect::<E>::Complete(Err(e))]);
                },
                Ok(_) => {
                    let next = StartState::Background((i + 1) as usize);
                    assert(self.start_spec(waiting, answer) == (next, StartEffect::<E>::SpawnBackground(id)));
                    self.lemma_start_run_background(i + 1, init_background, init_event, (fuel - 2) as nat);
                    assert(rest == seq![StartEffect::<E>::SpawnBackground(id)] + self.start_run(
                        next,
                        StartInput::Proceed,
                        init_background,
                        init_event,
                        (fuel - 2) as nat,
                    ));
                },
            }
            assert(self.start_run(StartState::Background(i as usize), StartInput::Proceed, init_background, init_event, fuel)
                == seq![StartEffect::<E>::InitializeBackground(id)] + rest);
        } else {
            self.lemma_start_run_same_step(
                StartState::Background(i as usize),
                StartInput::Proceed,
                StartState::Event(0),
                StartInput::Proceed,
                init_background,
                init_event,
                fuel,
            );
            self.lemma_start_run_events(0, init_background, init_event, fuel);
        }
    }

    /// A whole start-up, from the first state, with the runtime answering each initialization
    /// as `init_background` and `init_event` say, does exactly what the tasks' order gives:
    /// each background task in registration order is initialized and, on success, spawned; then
    /// each event-driven task in registration order is initialized and, on success, gets its
    /// handler when the bus has a channel for its event; the first failure ends start-up with
    /// that very error, and no later task is initialized; with no failure start-up completes
    /// with `Ok`.
    pub proof fn lemma_start_runs_in_order(
        self,
        init_background: spec_fn(TaskId) -> Result<(), SchedulerError>,
        init_event: spec_fn(TaskId) -> Result<E, SchedulerError>,
    )
        requires
            self.well_formed(),
        ensures
            self.start_run(Self::start_initial(), StartInput::Proceed, init_background, init_event, self.start_fuel())
                == self.start_order_background(0, init_background, init_event),
    {
        self.lemma_start_run_background(0, init_background, init_event, self.start_fuel());
    }

    /// The tasks in the order start-up and shut-down take them: background tasks, then
    /// event-driven tasks, each in registration order.
    pub open spec fn task_order(self) -> Seq<TaskId> {
        self.background_ids() + self.event_ids()
    }

    /// The tasks that a sequence of start-up effects initializes, in order.
    pub open spec fn initialized_ids(trace: Seq<StartEffect<E>>) -> Seq<TaskId>
        decreases trace.len(),
    {
        if trace.len() == 0 {
            Seq::empty()
        } else {
            let rest = Self::initialized_ids(trace.drop_first());
            match trace[0] {
                StartEffect::InitializeBackground(id) => seq![id] + rest,
                StartEffect::InitializeEvent(id) => seq![id] + rest,
                _ => rest,
            }
        }
    }

    /// Whether the task at position `p` of the task order initializes successfully.
    pub open spec fn init_succeeds(
        self,
        p: int,
        init_background: spec_fn(TaskId) -> Result<(), SchedulerError>,
        init_event: spec_fn(TaskId) -> Result<E, SchedulerError>,
    ) -> bool {
        let nb = self.background_ids().len() as int;
        if p < nb {
            init_background(self.background_ids()[p]) is Ok
        } else {
            init_event(self.event_ids()[p - nb]) is Ok
        }
    }

    /// Whether the task at position `p` of the task order fails to initialize with `error`.
    pub open spec fn init_fails_with(
        self,
        p: int,
        init_background: spec_fn(TaskId) -> Result<(), SchedulerError>,
        init_event: spec_fn(TaskId) -> Result<E, SchedulerError>,
        error: SchedulerError,
    ) -> bool {
        let nb = self.background_ids().len() as int;
        if p < nb {
            init_background(self.background_ids()[p]) == Err::<(), SchedulerError>(error)
        } else {
            init_event(self.event_ids()[p - nb]) == Err::<E, SchedulerError>(error)
        }
    }

    proof fn lemma_initialized_prepend(effect: StartEffect<E>, trace: Seq<StartEffect<E>>)
        ensures
            Self::initialized_ids(seq![effect] + trace) == Self::initialized_ids(seq![effect])
                + Self::initialized_ids(trace),
    {
        assert((seq![effect] + trace).drop_first() =~= trace);
        assert(seq![effect].drop_first() =~= Seq::<StartEffect<E>>::empty());
        assert(Self::initialized_ids(Seq::<StartEffect<E>>::empty()) =~= Seq::<TaskId>::empty());
        assert(Self::initialized_ids(seq![effect]) + Self::initialized_ids(trace) =~= match effect {
            StartEffect::InitializeBackground(id) => seq![id] + Self::initialized_ids(trace),
            StartEffect::InitializeEvent(id) => seq![id] + Self::initialized_ids(trace),
            _ => Self::initialized_ids(trace),
        });
    }

    proof fn lemma_initialized_single(effect: StartEffect<E>)
        ensures
            Self::initialized_ids(seq![effect]) == match effect {
                StartEffect::InitializeBackground(id) => seq![id],
                StartEffect::InitializeEvent(id) => seq![id],
                _ => Seq::<TaskId>::empty(),
            },
    {
        assert(seq![effect].drop_first() =~= Seq::<StartEffect<E>>::empty());
        assert(Self::initialized_ids(Seq::<StartEffect<E>>::empty()) == Seq::<TaskId>::empty());
        match effect {
            StartEffect::InitializeBackground(id) => {
                assert(seq![id] + Seq::<TaskId>::empty() =~= seq![id]);
            },
            StartEffect::InitializeEvent(id) => {
                assert(seq![id] + Seq::<TaskId>::empty() =~= seq![id]);
            },
            _ => {},
        }
    }

    proof fn lemma_initialized_concat(a: Seq<StartEffect<E>>, b: Seq<StartEffect<E>>)
        ensures
            Self::initialized_ids(a + b) == Self::initialized_ids(a) + Self::initialized_ids(b),
        decreases a.len(),
    {
        if a.len() == 0 {
            assert(a + b =~= b);
            assert(Self::initialized_ids(a) + Self::initialized_ids(b) =~= Self::initialized_ids(b));
        } else {
            let rest = a.drop_first();
            Self::lemma_initialized_concat(rest, b);
            assert(a =~= seq![a[0]] + rest);
            assert(a + b =~= seq![a[0]] + (rest + b));
            Self::lemma_initialized_prepend(a[0], rest + b);
            Self::lemma_initialized_prepend(a[0], rest);
        }
    }

    /// The effects with which start-up takes the background tasks from position `i` on when
    /// each of them initializes successfully: initialize, then spawn, for each in order.
    pub open spec fn start_background_prefix(self, i: nat) -> Seq<StartEffect<E>>
        decreases self.background_ids().len() - i,
    {
        if i < self.background_ids().len() {
            let id = self.background_ids()[i as int];
            seq![StartEffect::InitializeBackground(id), StartEffect::SpawnBackground(id)]
                + self.start_background_prefix(i + 1)
        } else {
            Seq::empty()
        }
    }

    proof fn lemma_background_prefix(
        self,
        i: nat,
        init_background: spec_fn(TaskId) -> Result<(), SchedulerError>,
        init_event: spec_fn(TaskId) -> Result<E, SchedulerError>,
    )
        requires
            i <= self.background_ids().len(),
            forall|q: int| i <= q < self.background_ids().len() ==> #[trigger] init_background(self.background_ids()[q]) is Ok,
        ensures
            self.start_order_background(i, init_background, init_event) == self.start_background_prefix(i)
                + self.start_order_events(0, init_event),
            Self::initialized_ids(self.start_background_prefix(i)) == self.background_ids().subrange(
                i as int,
                self.background_ids().len() as int,
            ),
        decreases self.background_ids().len() - i,
    {
        let nb = self.background_ids().len();
        if i < nb {
            self.lemma_background_prefix(i + 1, init_background, init_event);
            let id = self.background_ids()[i as int];
            assert(init_background(id) is Ok);
            let rest = self.start_background_prefix(i + 1);
            let events = self.start_order_events(0, init_event);
            let two = seq![StartEffect::<E>::InitializeBackground(id), StartEffect::<E>::SpawnBackground(id)];
            assert(two =~= seq![StartEffect::<E>::InitializeBackground(id)] + seq![StartEffect::<E>::SpawnBackground(id)]);
            assert(seq![StartEffect::<E>::InitializeBackground(id)] + (seq![StartEffect::<E>::SpawnBackground(id)] + (rest + events))
                =~= (two + rest) + events);
            Self::lemma_initialized_concat(two, rest);
            Self::lemma_initialized_prepend(StartEffect::InitializeBackground(id), seq![StartEffect::<E>::SpawnBackground(id)]);
            Self::lemma_initialized_single(StartEffect::SpawnBackground(id));
            Self::lemma_initialized_single(StartEffect::InitializeBackground(id));
            assert(seq![id] + self.background_ids().subrange(i + 1int, nb as int) =~= self.background_ids().subrange(i as int, nb as int));
        } else {
            assert(self.start_background_prefix(i) + self.start_order_events(0, init_event) =~= self.start_order_events(0, init_event));
            assert(self.background_ids().subrange(i as int, nb as int) =~= Seq::<TaskId>::empty());
        }
    }

    proof fn lemma_events_all_succeed(self, j: nat, init_event: spec_fn(TaskId) -> Result<E, SchedulerError>)
        requires
            j <= self.event_ids().len(),
            forall|q: int| j <= q < self.event_ids().len() ==> #[trigger] init_event(self.event_ids()[q]) is Ok,
        ensures
            Self::initialized_ids(self.start_order_events(j, init_event)) == self.event_ids().subrange(
                j as int,
                self.event_ids().len() as int,
            ),
            self.start_order_events(j, init_event).len() > 0,
            self.start_order_events(j, init_event).last() == StartEffect::<E>::Complete(Ok(())),
        decreases self.event_ids().len() - j,
    {
        let ne = self.event_ids().len();
        if j < ne {
            self.lemma_events_all_succeed(j + 1, init_event);
            let id = self.event_ids()[j as int];
            let next = self.start_order_events(j + 1, init_event);
            assert(init_event(id) is Ok);
            let event = init_event(id)->Ok_0;
            let tail = if self.bus().channels().dom().contains(event) {
                seq![StartEffect::SpawnEventHandler(id, event)] + next
            } else {
                next
            };
            assert(self.start_order_events(j, init_event) == seq![StartEffect::InitializeEvent(id)] + tail);
            Self::lemma_initialized_prepend(StartEffect::SpawnEventHandler(id, event), next);
            Self::lemma_initialized_single(StartEffect::SpawnEventHandler(id, event));
            Self::lemma_initialized_prepend(StartEffect::InitializeEvent(id), tail);
            Self::lemma_initialized_single(StartEffect::InitializeEvent(id));
            assert(seq![id] + self.event_ids().subrange(j + 1int, ne as int) =~= self.event_ids().subrange(j as int, ne as int));
        } else {
            Self::lemma_initialized_single(StartEffect::Complete(Ok(())));
            assert(self.event_ids().subrange(j as int, ne as int) =~= Seq::<TaskId>::empty());
        }
    }

    proof fn lemma_events_first_failure(
        self,
        j: nat,
        q: int,
        init_event: spec_fn(TaskId) -> Result<E, SchedulerError>,
        error: SchedulerError,
    )
        requires
            j <= q < self.event_ids().len(),
            forall|r: int| j <= r < q ==> #[trigger] init_event(self.event_ids()[r]) is Ok,
            init_event(self.event_ids()[q]) == Err::<E, SchedulerError>(error),
        ensures
            Self::initialized_ids(self.start_order_events(j, init_event)) == self.event_ids().subrange(
                j as int,
                q + 1,
            ),
            self.start_order_events(j, init_event).len() >= 2,
            self.start_order_events(j, init_event)[self.start_order_events(j, init_event).len() - 2]
                == StartEffect::<E>::InitializeEvent(self.event_ids()[q]),
            self.start_order_events(j, init_event).last() == StartEffect::<E>::Complete(Err(error)),
        decreases q - j,
    {
        let id = self.event_ids()[j as int];
        Self::lemma_initialized_single(StartEffect::InitializeEvent(id));
        if j == q {
            let tail = seq![StartEffect::<E>::Complete(Err(error))];
            Self::lemma_initialized_single(StartEffect::Complete(Err(error)));
            assert(self.start_order_events(j, init_event) == seq![StartEffect::InitializeEvent(id)] + tail);
            Self::lemma_initialized_prepend(StartEffect::InitializeEvent(id), tail);
            assert(self.event_ids().subrange(j as int, q + 1) =~= seq![id]);
        } else {
            self.lemma_events_first_failure(j + 1, q, init_event, error);
            let next = self.start_order_events(j + 1, init_event);
            assert(init_event(id) is Ok);
            let event = init_event(id)->Ok_0;
            let tail = if self.bus().channels().dom().contains(event) {
                seq![StartEffect::SpawnEventHandler(id, event)] + next
            } else {
                next
            };
            assert(self.start_order_events(j, init_event) == seq![StartEffect::InitializeEvent(id)] + tail);
            Self::lemma_initialized_prepend(StartEffect::SpawnEventHandler(id, event), next);
            Self::lemma_initialized_single(StartEffect::SpawnEventHandler(id, event));
            Self::lemma_initialized_prepend(StartEffect::InitializeEvent(id), tail);
            assert(seq![id] + self.event_ids().subrange(j + 1int, q + 1) =~= self.event_ids().subrange(j as int, q + 1));
        }
    }

    proof fn lemma_background_all_succeed(
        self,
        i: nat,
        init_background: spec_fn(TaskId) -> Result<(), SchedulerError>,
        init_event: spec_fn(TaskId) -> Result<E, SchedulerError>,
    )
        requires
            i <= self.background_ids().len(),
            forall|q: int| i <= q < self.background_ids().len() ==> #[trigger] init_background(self.background_ids()[q]) is Ok,
            forall|q: int| 0 <= q < self.event_ids().len() ==> #[trigger] init_event(self.event_ids()[q]) is Ok,
        ensures
            Self::initialized_ids(self.start_order_background(i, init_background, init_event))
                == self.background_ids().subrange(i as int, self.background_ids().len() as int) + self.event_ids(),
            self.start_order_background(i, init_background, init_event).len() > 0,
            self.start_order_background(i, init_background, init_event).last() == StartEffect::<E>::Complete(Ok(())),
        decreases self.background_ids().len() - i,
    {
        let nb = self.background_ids().len();
        if i < nb {
            self.lemma_background_all_succeed(i + 1, init_background, init_event);
            let id = self.background_ids()[i as int];
            let next = self.start_order_background(i + 1, init_background, init_event);
            assert(init_background(id) is Ok);
            let tail = seq![StartEffect::SpawnBackground(id)] + next;
            assert(self.start_order_background(i, init_background, init_event) == seq![StartEffect::InitializeBackground(id)] + tail);
            Self::lemma_initialized_prepend(StartEffect::SpawnBackground(id), next);
            Self::lemma_initialized_single(StartEffect::SpawnBackground(id));
            Self::lemma_initialized_prepend(StartEffect::InitializeBackground(id), tail);
            Self::lemma_initialized_single(StartEffect::InitializeBackground(id));
            assert(seq![id] + (self.background_ids().subrange(i + 1int, nb as int) + self.event_ids())
                =~= self.background_ids().subrange(i as int, nb as int) + self.event_ids());
        } else {
            self.lemma_events_all_succeed(0, init_event);
            assert(self.background_ids().subrange(i as int, nb as int) =~= Seq::<TaskId>::empty());
            assert(self.event_ids().subrange(0, self.event_ids().len() as int) =~= self.event_ids());
            assert(Seq::<TaskId>::empty() + self.event_ids() =~= self.event_ids());
        }
    }

    proof fn lemma_background_first_failure(
        self,
        i: nat,
        q: int,
        init_background: spec_fn(TaskId) -> Result<(), SchedulerError>,
        init_event: spec_fn(TaskId) -> Result<E, SchedulerError>,
        error: SchedulerError,
    )
        requires
            i <= q < self.background_ids().len(),
            forall|r: int| i <= r < q ==> #[trigger] init_background(self.background_ids()[r]) is Ok,
            init_background(self.background_ids()[q]) == Err::<(), SchedulerError>(error),
        ensures
            Self::initialized_ids(self.start_order_background(i, init_background, init_event))
                == self.background_ids().subrange(i as int, q + 1),
            self.start_order_background(i, init_background, init_event).len() >= 2,
            self.start_order_background(i, init_background, init_event)[self.start_order_background(i, init_background, init_event).len() - 2]
                == StartEffect::<E>::InitializeBackground(self.background_ids()[q]),
            self.start_order_background(i, init_background, init_event).last() == StartEffect::<E>::Complete(Err(error)),
        decreases q - i,
    {
        let id = self.background_ids()[i as int];
        Self::lemma_initialized_single(StartEffect::InitializeBackground(id));
        if i == q {
            let tail = seq![StartEffect::<E>::Complete(Err(error))];
            Self::lemma_initialized_single(StartEffect::Complete(Err(error)));
            assert(self.start_order_background(i, init_background, init_event) == seq![StartEffect::InitializeBackground(id)] + tail);
            Self::lemma_initialized_prepend(StartEffect::InitializeBackground(id), tail);
            assert(self.background_ids().subrange(i as int, q + 1) =~= seq![id]);
        } else {
            self.lemma_background_first_failure(i + 1, q, init_background, init_event, error);
            let next = self.start_order_background(i + 1, init_background, init_event);
            assert(init_background(id) is Ok);
            let tail = seq![StartEffect::SpawnBackground(id)] + next;
            assert(self.start_order_background(i, init_background, init_event) == seq![StartEffect::InitializeBackground(id)] + tail);
            Self::lemma_initialized_prepend(StartEffect::SpawnBackground(id), next);
            Self::lemma_initialized_single(StartEffect::SpawnBackground(id));
            Self::lemma_initialized_prepend(StartEffect::InitializeBackground(id), tail);
            assert(seq![id] + self.background_ids().subrange(i + 1int, q + 1) =~= self.background_ids().subrange(i as int, q + 1));
        }
    }

    /// When every initialization succeeds, a whole start-up initializes each task exactly once,
    /// in the task order (background tasks, then event-driven ones, each in registration
    /// order), and completes with `Ok`.
    pub proof fn lemma_start_all_succeed(
        self,
        init_background: spec_fn(TaskId) -> Result<(), SchedulerError>,
        init_event: spec_fn(TaskId) -> Result<E, SchedulerError>,
    )
        requires
            self.well_formed(),
            forall|p: int| 0 <= p < self.task_order().len() ==> #[trigger] self.init_succeeds(p, init_background, init_event),
        ensures
            ({
                let trace = self.start_run(Self::start_initial(), StartInput::Proceed, init_background, init_event, self.start_fuel());
                &&& Self::initialized_ids(trace) == self.task_order()
                &&& trace.len() > 0
                &&& trace.last() == StartEffect::<E>::Complete(Ok(()))
            }),
    {
        self.lemma_start_runs_in_order(init_background, init_event);
        let nb = self.background_ids().len() as int;
        assert forall|q: int| 0 <= q < nb implies #[trigger] init_background(self.background_ids()[q]) is Ok by {
            assert(self.init_succeeds(q, init_background, init_event));
        }
        assert forall|q: int| 0 <= q < self.event_ids().len() implies #[trigger] init_event(self.event_ids()[q]) is Ok by {
            assert(self.init_succeeds(q + nb, init_background, init_event));
        }
        self.lemma_background_all_succeed(0, init_background, init_event);
        assert(self.background_ids().subrange(0, nb) =~= self.background_ids());
    }

    /// When the task at position `p` of the task order is the first whose initialization fails,
    /// with `error`, a whole start-up initializes exactly the tasks up to and including it, in
    /// order, and its last two effects are that task's initialization and the completion with
    /// that very error: the failing task is neither spawned nor given a handler, and no later
    /// task is initialized.
    pub proof fn lemma_start_first_failure(
        self,
        init_background: spec_fn(TaskId) -> Result<(), SchedulerError>,
        init_event: spec_fn(TaskId) -> Result<E, SchedulerError>,
        p: int,
        error: SchedulerError,
    )
        requires
            self.well_formed(),
            0 <= p < self.task_order().len(),
            forall|q: int| 0 <= q < p ==> #[trigger] self.init_succeeds(q, init_background, init_event),
            self.init_fails_with(p, init_background, init_event, error),
        ensures
            ({
                let trace = self.start_run(Self::start_initial(), StartInput::Proceed, init_background, init_event, self.start_fuel());
                &&& Self::initialized_ids(trace) == self.task_order().take(p + 1)
                &&& trace.len() >= 2
                &&& trace[trace.len() - 2] == if p < self.background_ids().len() {
                    StartEffect::<E>::InitializeBackground(self.task_order()[p])
                } else {
                    StartEffect::<E>::InitializeEvent(self.task_order()[p])
                }
                &&& trace.last() == StartEffect::<E>::Complete(Err(error))
            }),
    {
        self.lemma_start_runs_in_order(init_background, init_event);
        let nb = self.background_ids().len() as int;
        if p < nb {
            assert forall|r: int| 0 <= r < p implies #[trigger] init_background(self.background_ids()[r]) is Ok by {
                assert(self.init_succeeds(r, init_background, init_event));
            }
            self.lemma_background_first_failure(0, p, init_background, init_event, error);
            assert(self.background_ids().subrange(0, p + 1) =~= self.task_order().take(p + 1));
        } else {
            assert forall|r: int| 0 <= r < nb implies #[trigger] init_background(self.background_ids()[r]) is Ok by {
                assert(self.init_succeeds(r, init_background, init_event));
            }
            assert forall|r: int| 0 <= r < p - nb implies #[trigger] init_event(self.event_ids()[r]) is Ok by {
                assert(self.init_succeeds(r + nb, init_background, init_event));
            }
            self.lemma_events_first_failure(0, p - nb, init_event, error);
            self.lemma_background_prefix(0, init_background, init_event);
            let prefix = self.start_background_prefix(0);
            let events = self.start_order_events(0, init_event);
            Self::lemma_initialized_concat(prefix, events);
            assert(self.background_ids().subrange(0, nb) =~= self.background_ids());
            assert((prefix + events)[(prefix + events).len() - 2] == events[events.len() - 2]);
            assert((prefix + events).last() == events.last());
            assert(self.event_ids().subrange(0, p - nb + 1) =~= self.event_ids().subrange(0, p - nb + 1));
            assert(self.background_ids() + self.event_ids().subrange(0, p - nb + 1) =~= self.task_order().take(p + 1));
            assert(self.task_order()[p] == self.event_ids()[p - nb]);
        }
    }

    // ------------------------------------------------------ whole runs of shut-down

    /// The runtime's answer to a shut-down effect when each task's shut-down ends as
    /// `stop_background` or `stop_event` says.
    pub open spec fn shutdown_answer(
        effect: ShutdownEffect,
        stop_background: spec_fn(TaskId) -> Result<(), SchedulerError>,
        stop_event: spec_fn(TaskId) -> Result<(), SchedulerError>,
    ) -> ShutdownInput {
        match effect {
            ShutdownEffect::ShutdownBackground(id) => ShutdownInput::ShutDown(stop_background(id)),
            ShutdownEffect::ShutdownEvent(id) => ShutdownInput::ShutDown(stop_event(id)),
            _ => ShutdownInput::Proceed,
        }
    }

    /// The effects of at most `fuel` shut-down steps, each later step answered by
    /// `shutdown_answer`, up to and including the completion.
    pub open spec fn shutdown_run(
        self,
        state: ShutdownState,
        input: ShutdownInput,
        stop_background: spec_fn(TaskId) -> Result<(), SchedulerError>,
        stop_event: spec_fn(TaskId) -> Result<(), SchedulerError>,
        fuel: nat,
    ) -> Seq<ShutdownEffect>
        decreases fuel,
    {
        if fuel == 0 {
            Seq::empty()
        } else {
            let (next, effect) = self.shutdown_spec(state, input);
            if effect is Complete || effect is Idle {
                seq![effect]
            } else {
                seq![effect] + self.shutdown_run(
                    next,
                    Self::shutdown_answer(effect, stop_background, stop_event),
                    stop_background,
                    stop_event,
                    (fuel - 1) as nat,
                )
            }
        }
    }

    /// What shut-down does from the event-driven task at position `j` on: shut each registered
    /// task down in order; a failure ends shut-down with that error; after the last task,
    /// complete with `Ok`.
    pub open spec fn shutdown_order_events(
        self,
        j: nat,
        stop_event: spec_fn(TaskId) -> Result<(), SchedulerError>,
    ) -> Seq<ShutdownEffect>
        decreases self.event_ids().len() - j,
    {
        if j < self.event_ids().len() {
            let id = self.event_ids()[j as int];
            if self.registry().event_tasks().contains_key(id) {
                seq![ShutdownEffect::ShutdownEvent(id)] + match stop_event(id) {
                    Err(e) => seq![ShutdownEffect::Complete(Err(e))],
                    Ok(_) => self.shutdown_order_events(j + 1, stop_event),
                }
            } else {
                self.shutdown_order_events(j + 1, stop_event)
            }
        } else {
            seq![ShutdownEffect::Complete(Ok(()))]
        }
    }

    /// What shut-down does from the background task at position `i` on, then the event-driven
    /// tasks.
    pub open spec fn shutdown_order_background(
        self,
        i: nat,
        stop_background: spec_fn(TaskId) -> Result<(), SchedulerError>,
        stop_event: spec_fn(TaskId) -> Result<(), SchedulerError>,
    ) -> Seq<ShutdownEffect>
        decreases self.background_ids().len() - i,
    {
        if i < self.background_ids().len() {
            let id = self.background_ids()[i as int];
            if self.registry().background_tasks().contains_key(id) {
                seq![ShutdownEffect::ShutdownBackground(id)] + match stop_background(id) {
                    Err(e) => seq![ShutdownEffect::Complete(Err(e))],
                    Ok(_) => self.shutdown_order_background(i + 1, stop_background, stop_event),
                }
            } else {
                self.shutdown_order_background(i + 1, stop_background, stop_event)
            }
        } else {
            self.shutdown_order_events(0, stop_event)
        }
    }

    /// Enough steps for a whole shut-down.
    pub open spec fn shutdown_fuel(self) -> nat {
        self.background_ids().len() + self.event_ids().len() + 1
    }

    /// Two runs whose first steps agree are the same run.
    proof fn lemma_shutdown_run_same_step(
        self,
        s1: ShutdownState,
        i1: ShutdownInput,
        s2: ShutdownState,
        i2: ShutdownInput,
        stop_background: spec_fn(TaskId) -> Result<(), SchedulerError>,
        stop_event: spec_fn(TaskId) -> Result<(), SchedulerError>,
        fuel: nat,
    )
        requires
            self.shutdown_spec(s1, i1) == self.shutdown_spec(s2, i2),
        ensures
            self.shutdown_run(s1, i1, stop_background, stop_event, fuel) == self.shutdown_run(
                s2,
                i2,
                stop_background,
                stop_event,
                fuel,
            ),
    {
    }

    proof fn lemma_shutdown_run_events(
        self,
        j: nat,
        stop_background: spec_fn(TaskId) -> Result<(), SchedulerError>,
        stop_event: spec_fn(TaskId) -> Result<(), SchedulerError>,
        fuel: nat,
    )
        requires
            self.well_formed(),
            j <= self.event_ids().len(),
            fuel >= self.event_ids().len() - j + 1,
        ensures
            self.shutdown_run(ShutdownState::Event(j as usize), ShutdownInput::Proceed, stop_background, stop_event, fuel)
                == self.shutdown_order_events(j, stop_event),
        decreases self.event_ids().len() - j,
    {
        self.lemma_lengths();
        self.lemma_shutdown_step_registered(ShutdownState::Event(j as usize));
        let ne = self.event_ids().len();
        if j < ne {
            let id = self.event_ids()[j as int];
            self.lemma_shutdown_step_registered(ShutdownState::AwaitingEvent(j as usize));
            assert(self.registry().event_tasks().contains_key(id));
            let waiting = ShutdownState::AwaitingEvent(j as usize);
            let answer = ShutdownInput::ShutDown(stop_event(id));
            assert(self.shutdown_spec(ShutdownState::Event(j as usize), ShutdownInput::Proceed) == (
                waiting,
                ShutdownEffect::ShutdownEvent(id),
            ));
            assert(Self::shutdown_answer(ShutdownEffect::ShutdownEvent(id), stop_background, stop_event) == answer);
            let rest = self.shutdown_run(waiting, answer, stop_background, stop_event, (fuel - 1) as nat);
            assert(self.shutdown_run(ShutdownState::Event(j as usize), ShutdownInput::Proceed, stop_background, stop_event, fuel)
                == seq![ShutdownEffect::ShutdownEvent(id)] + rest);
            match stop_event(id) {
                Err(e) => {
                    assert(self.shutdown_spec(waiting, answer) == (
                        ShutdownState::Finished,
                        ShutdownEffect::Complete(Err(e)),
                    ));
                    assert(rest == seq![ShutdownEffect::Complete(Err(e))]);
                },
                Ok(_) => {
                    self.lemma_shutdown_run_same_step(
                        ShutdownState::AwaitingEvent(j as usize),
                        ShutdownInput::ShutDown(stop_event(id)),
                        ShutdownState::Event((j + 1) as usize),
                        ShutdownInput::Proceed,
                        stop_background,
                        stop_event,
                        (fuel - 1) as nat,
                    );
                    self.lemma_shutdown_run_events(j + 1, stop_background, stop_event, (fuel - 1) as nat);
                },
            }
        }
    }

    proof fn lemma_shutdown_run_background(
        self,
        i: nat,
        stop_background: spec_fn(TaskId) -> Result<(), SchedulerError>,
        stop_event: spec_fn(TaskId) -> Result<(), SchedulerError>,
        fuel: nat,
    )
        requires
            self.well_formed(),
            i <= self.background_ids().len(),
            fuel >= self.background_ids().len() - i + self.event_ids().len() + 1,
        ensures
            self.shutdown_run(ShutdownState::Background(i as usize), ShutdownInput::Proceed, stop_background, stop_event, fuel)
                == self.shutdown_order_background(i, stop_background, stop_event),
        decreases self.background_ids().len() - i,
    {
        self.lemma_lengths();
        self.lemma_shutdown_step_registered(ShutdownState::Background(i as usize));
        let nb = self.background_ids().len();
        if i < nb {
            let id = self.background_ids()[i as int];
            self.lemma_shutdown_step_registered(ShutdownState::AwaitingBackground(i as usize));
            assert(self.registry().background_tasks().contains_key(id));
            let waiting = ShutdownState::AwaitingBackground(i as usize);
            let answer = ShutdownInput::ShutDown(stop_background(id));
            assert(self.shutdown_spec(ShutdownState::Background(i as usize), ShutdownInput::Proceed) == (
                waiting,
                ShutdownEffect::ShutdownBackground(id),
            ));
            assert(Self::shutdown_answer(ShutdownEffect::ShutdownBackground(id), stop_background, stop_event) == answer);
            let rest = self.shutdown_run(waiting, answer, stop_background, stop_event, (fuel - 1) as nat);
            assert(self.shutdown_run(ShutdownState::Background(i as usize), ShutdownInput::Proceed, stop_background, stop_event, fuel)
                == seq![ShutdownEffect::ShutdownBackground(id)] + rest);
            match stop_background(id) {
                Err(e) => {
                    assert(self.shutdown_spec(waiting, answer) == (
                        ShutdownState::Finished,
                        ShutdownEffect::Complete(Err(e)),
                    ));
                    assert(rest == seq![ShutdownEffect::Complete(Err(e))]);
                },
                Ok(_) => {
                    self.lemma_shutdown_run_same_step(
                        ShutdownState::AwaitingBackground(i as usize),
                        ShutdownInput::ShutDown(stop_background(id)),
                        ShutdownState::Background((i + 1) as usize),
                        ShutdownInput::Proceed,
                        stop_background,
                        stop_event,
                        (fuel - 1) as nat,
                    );
                    self.lemma_shutdown_run_background(i + 1, stop_background, stop_event, (fuel - 1) as nat);
                },
            }
        } else {
            self.lemma_shutdown_run_same_step(
                ShutdownState::Background(i as usize),
                ShutdownInput::Proceed,
                ShutdownState::Event(0),
                ShutdownInput::Proceed,
                stop_background,
                stop_event,
                fuel,
            );
            self.lemma_shutdown_run_events(0, stop_background, stop_event, fuel);
        }
    }

    /// The tasks that a sequence of shut-down effects asks to shut down, in order.
    pub open spec fn stopped_ids(trace: Seq<ShutdownEffect>) -> Seq<TaskId>
        decreases trace.len(),
    {
        if trace.len() == 0 {
            Seq::empty()
        } else {
            let rest = Self::stopped_ids(trace.drop_first());
            match trace[0] {
                ShutdownEffect::ShutdownBackground(id) => seq![id] + rest,
                ShutdownEffect::ShutdownEvent(id) => seq![id] + rest,
                _ => rest,
            }
        }
    }

    /// What the shut-down of the task at position `p` of the task order ends with.
    pub open spec fn stop_outcome(
        self,
        p: int,
        stop_background: spec_fn(TaskId) -> Result<(), SchedulerError>,
        stop_event: spec_fn(TaskId) -> Result<(), SchedulerError>,
    ) -> Result<(), SchedulerError> {
        let nb = self.background_ids().len() as int;
        if p < nb {
            stop_background(self.background_ids()[p])
        } else {
            stop_event(self.event_ids()[p - nb])
        }
    }

    proof fn lemma_stopped_prepend(effect: ShutdownEffect, trace: Seq<ShutdownEffect>)
        ensures
            Self::stopped_ids(seq![effect] + trace) == match effect {
                ShutdownEffect::ShutdownBackground(id) => seq![id] + Self::stopped_ids(trace),
                ShutdownEffect::ShutdownEvent(id) => seq![id] + Self::stopped_ids(trace),
                _ => Self::stopped_ids(trace),
            },
    {
        assert((seq![effect] + trace).drop_first() =~= trace);
    }

    proof fn lemma_stopped_complete(result: Result<(), SchedulerError>)
        ensures
            Self::stopped_ids(seq![ShutdownEffect::Complete(result)]) == Seq::<TaskId>::empty(),
    {
        assert(seq![ShutdownEffect::Complete(result)].drop_first() =~= Seq::<ShutdownEffect>::empty());
        assert(Self::stopped_ids(Seq::<ShutdownEffect>::empty()) == Seq::<TaskId>::empty());
    }

    proof fn lemma_shutdown_events_order(
        self,
        j: nat,
        q: int,
        stop_event: spec_fn(TaskId) -> Result<(), SchedulerError>,
    )
        requires
            self.well_formed(),
            j <= q <= self.event_ids().len(),
            forall|r: int| j <= r < q ==> #[trigger] stop_event(self.event_ids()[r]) is Ok,
            q < self.event_ids().len() ==> stop_event(self.event_ids()[q]) is Err,
        ensures
            ({
                let trace = self.shutdown_order_events(j, stop_event);
                let ne = self.event_ids().len() as int;
                &&& Self::stopped_ids(trace) == self.event_ids().subrange(j as int, if q < ne { q + 1 } else { ne })
                &&& trace.len() >= 1
                &&& q < ne ==> trace.len() >= 2 && trace[trace.len() - 2] == ShutdownEffect::ShutdownEvent(self.event_ids()[q])
                &&& trace.last() == ShutdownEffect::Complete(if q < ne { stop_event(self.event_ids()[q]) } else { Ok(()) })
            }),
        decreases self.event_ids().len() - j,
    {
        let ne = self.event_ids().len() as int;
        if j < ne {
            let id = self.event_ids()[j as int];
            assert(self.registry().event_tasks().contains_key(id));
            if j == q {
                let tail = seq![ShutdownEffect::Complete(stop_event(id))];
                assert(self.shutdown_order_events(j, stop_event) == seq![ShutdownEffect::ShutdownEvent(id)] + tail);
                Self::lemma_stopped_prepend(ShutdownEffect::ShutdownEvent(id), tail);
                Self::lemma_stopped_complete(stop_event(id));
                assert(seq![id] + Seq::<TaskId>::empty() =~= self.event_ids().subrange(j as int, q + 1));
            } else {
                self.lemma_shutdown_events_order(j + 1, q, stop_event);
                let next = self.shutdown_order_events(j + 1, stop_event);
                assert(stop_event(id) is Ok);
                assert(self.shutdown_order_events(j, stop_event) == seq![ShutdownEffect::ShutdownEvent(id)] + next);
                Self::lemma_stopped_prepend(ShutdownEffect::ShutdownEvent(id), next);
                let end = if q < ne { q + 1 } else { ne };
                assert(seq![id] + self.event_ids().subrange(j + 1int, end) =~= self.event_ids().subrange(j as int, end));
            }
        } else {
            Self::lemma_stopped_complete(Ok(()));
            assert(self.event_ids().subrange(j as int, ne) =~= Seq::<TaskId>::empty());
        }
    }

    proof fn lemma_shutdown_background_order(
        self,
        i: nat,
        q: int,
        stop_background: spec_fn(TaskId) -> Result<(), SchedulerError>,
        stop_event: spec_fn(TaskId) -> Result<(), SchedulerError>,
    )
        requires
            self.well_formed(),
            i <= q <= self.task_order().len(),
            forall|r: int| i <= r < q ==> #[trigger] self.stop_outcome(r, stop_background, stop_event) is Ok,
            q < self.task_order().len() ==> self.stop_outcome(q, stop_background, stop_event) is Err,
            i <= self.background_ids().len(),
        ensures
            ({
                let trace = self.shutdown_order_background(i, stop_background, stop_event);
                let n = self.task_order().len() as int;
                let nb = self.background_ids().len() as int;
                &&& Self::stopped_ids(trace) == self.task_order().subrange(i as int, if q < n { q + 1 } else { n })
                &&& trace.len() >= 1
                &&& q < n ==> trace.len() >= 2 && trace[trace.len() - 2] == if q < nb {
                    ShutdownEffect::ShutdownBackground(self.task_order()[q])
                } else {
                    ShutdownEffect::ShutdownEvent(self.task_order()[q])
                }
                &&& trace.last() == ShutdownEffect::Complete(if q < n { self.stop_outcome(q, stop_background, stop_event) } else { Ok(()) })
            }),
        decreases self.background_ids().len() - i,
    {
        let nb = self.background_ids().len() as int;
        let n = self.task_order().len() as int;
        if i < nb {
            let id = self.background_ids()[i as int];
            assert(self.registry().background_tasks().contains_key(id));
            assert(self.task_order()[i as int] == id);
            if i == q {
                let tail = seq![ShutdownEffect::Complete(stop_background(id))];
                assert(self.shutdown_order_background(i, stop_background, stop_event) == seq![ShutdownEffect::ShutdownBackground(id)] + tail);
                Self::lemma_stopped_prepend(ShutdownEffect::ShutdownBackground(id), tail);
                Self::lemma_stopped_complete(stop_background(id));
                assert(seq![id] + Seq::<TaskId>::empty() =~= self.task_order().subrange(i as int, q + 1));
            } else {
                assert(self.stop_outcome(i as int, stop_background, stop_event) is Ok);
                self.lemma_shutdown_background_order(i + 1, q, stop_background, stop_event);
                let next = self.shutdown_order_background(i + 1, stop_background, stop_event);
                assert(self.shutdown_order_background(i, stop_background, stop_event) == seq![ShutdownEffect::ShutdownBackground(id)] + next);
                Self::lemma_stopped_prepend(ShutdownEffect::ShutdownBackground(id), next);
                let end = if q < n { q + 1 } else { n };
                assert(seq![id] + self.task_order().subrange(i + 1int, end) =~= self.task_order().subrange(i as int, end));
            }
        } else {
            let qe = q - nb;
            assert forall|r: int| 0 <= r < qe implies #[trigger] stop_event(self.event_ids()[r]) is Ok by {
                assert(self.stop_outcome(r + nb, stop_background, stop_event) is Ok);
            }
            if q < n {
                assert(self.stop_outcome(q, stop_background, stop_event) == stop_event(self.event_ids()[qe]));
            }
            self.lemma_shutdown_events_order(0, qe, stop_event);
            let end = if q < n { q + 1 } else { n };
            assert(self.event_ids().subrange(0, end - nb) =~= self.task_order().subrange(i as int, end));
            if q < n {
                assert(self.task_order()[q] == self.event_ids()[qe]);
            }
        }
    }

    /// A whole shut-down asks the tasks to shut down in the task order (background tasks, then
    /// event-driven ones, each in registration order), each exactly once, up to the first whose
    /// shut-down fails: with no failure every task is asked and shut-down completes with `Ok`;
    /// when the task at position `p` is the first to fail, the tasks up to and including it
    /// are asked, no later one, and shut-down completes with that task's very error right after
    /// asking it. Shut-down never reports an error of its own (such as `TaskNotFound`).
    pub proof fn lemma_shutdown_stops_in_order(
        self,
        stop_background: spec_fn(TaskId) -> Result<(), SchedulerError>,
        stop_event: spec_fn(TaskId) -> Result<(), SchedulerError>,
        p: int,
    )
        requires
            self.well_formed(),
            0 <= p <= self.task_order().len(),
            forall|r: int| 0 <= r < p ==> #[trigger] self.stop_outcome(r, stop_background, stop_event) is Ok,
            p < self.task_order().len() ==> self.stop_outcome(p, stop_background, stop_event) is Err,
        ensures
            ({
                let trace = self.shutdown_run(Self::shutdown_initial(), ShutdownInput::Proceed, stop_background, stop_event, self.shutdown_fuel());
                let n = self.task_order().len() as int;
                &&& p == n ==> Self::stopped_ids(trace) == self.task_order()
                &&& p == n ==> trace.len() >= 1 && trace.last() == ShutdownEffect::Complete(Ok(()))
                &&& p < n ==> Self::stopped_ids(trace) == self.task_order().take(p + 1)
                &&& p < n ==> trace.len() >= 2 && trace[trace.len() - 2] == if p < self.background_ids().len() {
                    ShutdownEffect::ShutdownBackground(self.task_order()[p])
                } else {
                    ShutdownEffect::ShutdownEvent(self.task_order()[p])
                }
                &&& p < n ==> trace.last() == ShutdownEffect::Complete(self.stop_outcome(p, stop_background, stop_event))
            }),
    {
        self.lemma_shutdown_runs_in_order(stop_background, stop_event);
        self.lemma_shutdown_background_order(0, p, stop_background, stop_event);
        assert(self.task_order().subrange(0, self.task_order().len() as int) =~= self.task_order());
        assert(self.task_order().subrange(0, p + 1) =~= self.task_order().take(p + 1));
    }

    /// A whole shut-down, from the first state, with the runtime answering each task's
    /// shut-down as `stop_background` and `stop_event` say, shuts the background tasks down in
    /// registration order and then the event-driven ones; the first failure ends it with that
    /// very error and no later task is shut down; with no failure it completes with `Ok`.
    pub proof fn lemma_shutdown_runs_in_order(
        self,
        stop_background: spec_fn(TaskId) -> Result<(), SchedulerError>,
        stop_event: spec_fn(TaskId) -> Result<(), SchedulerError>,
    )
        requires
            self.well_formed(),
        ensures
            self.shutdown_run(Self::shutdown_initial(), ShutdownInput::Proceed, stop_background, stop_event, self.shutdown_fuel())
                == self.shutdown_order_background(0, stop_background, stop_event),
    {
        self.lemma_shutdown_run_background(0, stop_background, stop_event, self.shutdown_fuel());
    }
}

impl<E: EventType + core::fmt::Display, B: Clone, V: Clone> Scheduler<E, B, V> {
    /// The first state of start-up.
    pub fn start_state() -> (state: StartState)
        ensures
            state == Self::start_initial(),
    {
        StartState::Background(0)
    }

    /// Takes up the next task from a position (see `start_take_up`).
    fn start_take_up_exec(&self, state: StartState) -> (out: (StartState, StartAction<B, V>))
        requires
            self.well_formed(),
        ensures
            out.0 == self.start_take_up(state).0,
            self.start_action_performs(out.1, self.start_take_up(state).1),
    {
        let nb = self.background_task_ids.len();
        let ne = self.event_task_ids.len();
        let event_index: usize = match state {
            StartState::Background(i) => {
                if i < nb {
                    let id = self.background_task_ids[i];
                    return match self.task_registry.get_background_task(&id) {
                        Some(task) => (StartState::AwaitingBackground(i), StartAction::InitializeBackground(task)),
                        None => (StartState::Finished, StartAction::Complete(Err(SchedulerError::TaskNotFound(id)))),
                    };
                }
                0
            },
            StartState::Event(i) => i,
            _ => {
                return (StartState::Finished, StartAction::Idle);
            },
        };
        if event_index < ne {
            let id = self.event_task_ids[event_index];
            match self.task_registry.get_event_task(&id) {
                Some(task) => (StartState::AwaitingEvent(event_index), StartAction::InitializeEvent(task)),
                None => (StartState::Finished, StartAction::Complete(Err(SchedulerError::TaskNotFound(id)))),
            }
        } else {
            (StartState::Finished, StartAction::Complete(Ok(())))
        }
    }

    /// One step of start-up (see `start_spec`): the next state and the action that the runtime
    /// performs next.
    pub fn start_step(&self, state: StartState, input: StartInput<E>) -> (out: (StartState, StartAction<B, V>))
        requires
            self.well_formed(),
        ensures
            out.0 == self.start_spec(state, input).0,
            self.start_action_performs(out.1, self.start_spec(state, input).1),
    {
        let nb = self.background_task_ids.len();
        let ne = self.event_task_ids.len();
        match state {
            StartState::AwaitingBackground(i) => {
                if i >= nb {
                    return self.start_take_up_exec(StartState::Background(i));
                }
                let id = self.background_task_ids[i];
                let task = match self.task_registry.get_background_task(&id) {
                    Some(task) => task,
                    None => {
                        return (StartState::Finished, StartAction::Complete(Err(SchedulerError::TaskNotFound(id))));
                    },
                };
                match input {
                    StartInput::BackgroundInitialized(Err(e)) => (StartState::Finished, StartAction::Complete(Err(e))),
                    StartInput::BackgroundInitialized(Ok(())) => (StartState::Background(i + 1), StartAction::SpawnBackground(task)),
                    _ => (state, StartAction::InitializeBackground(task)),
                }
            },
            StartState::AwaitingEvent(i) => {
                if i >= ne {
                    return self.start_take_up_exec(StartState::Event(i));
                }
                let id = self.event_task_ids[i];
                let task = match self.task_registry.get_event_task(&id) {
                    Some(task) => task,
                    None => {
                        return (StartState::Finished, StartAction::Complete(Err(SchedulerError::TaskNotFound(id))));
                    },
                };
                match input {
                    StartInput::EventInitialized(Err(e)) => (StartState::Finished, StartAction::Complete(Err(e))),
                    StartInput::EventInitialized(Ok(event)) => {
                        match self.event_bus.subscribe(&event) {
                            Ok(receiver) => (StartState::Event(i + 1), StartAction::SpawnEventHandler(task, receiver)),
                            Err(_) => self.start_take_up_exec(StartState::Event(i + 1)),
                        }
                    },
                    _ => (state, StartAction::InitializeEvent(task)),
                }
            },
            _ => self.start_take_up_exec(state),
        }
    }

    /// The first state of shut-down.
    pub fn shutdown_state() -> (state: ShutdownState)
        ensures
            state == Self::shutdown_initial(),
    {
        ShutdownState::Background(0)
    }

    /// Looks for the next task to shut down (see `shutdown_take_up`).
    fn shutdown_take_up_exec(&self, state: ShutdownState) -> (out: (ShutdownState, ShutdownAction<B, V>))
        requires
            self.well_formed(),
        ensures
            out.0 == self.shutdown_take_up(state).0,
            self.shutdown_action_performs(out.1, self.shutdown_take_up(state).1),
    {
        let nb = self.background_task_ids.len();
        let ne = self.event_task_ids.len();
        let mut event_index: usize = match state {
            ShutdownState::Background(start) => {
                let mut i = start;
                while i < nb
                    invariant
                        nb == self.background_ids().len(),
                        start <= i,
                        self.shutdown_take_up(state) == self.shutdown_scan_background(start as nat),
                        self.shutdown_scan_background(i as nat) == self.shutdown_scan_background(
                            start as nat,
                        ),
                    decreases nb - i,
                {
                    let id = self.background_task_ids[i];
                    match self.task_registry.get_background_task(&id) {
                        Some(task) => {
                            return (ShutdownState::AwaitingBackground(i), ShutdownAction::ShutdownBackground(task));
                        },
                        None => {
                            i = i + 1;
                        },
                    }
                }
                proof {
                    assert(self.shutdown_scan_background(i as nat) == self.shutdown_scan_events(0));
                }
                0
            },
            ShutdownState::Event(start) => start,
            _ => {
                return (ShutdownState::Finished, ShutdownAction::Idle);
            },
        };
        let ghost first = event_index;
        while event_index < ne
            invariant
                ne == self.event_ids().len(),
                first <= event_index,
                self.shutdown_take_up(state) == self.shutdown_scan_events(first as nat),
                self.shutdown_scan_events(event_index as nat) == self.shutdown_scan_events(
                    first as nat,
                ),
            decreases ne - event_index,
        {
            let id = self.event_task_ids[event_index];
            match self.task_registry.get_event_task(&id) {
                Some(task) => {
                    return (ShutdownState::AwaitingEvent(event_index), ShutdownAction::ShutdownEvent(task));
                },
                None => {
                    event_index = event_index + 1;
                },
            }
        }
        (ShutdownState::Finished, ShutdownAction::Complete(Ok(())))
    }

    /// One step of shut-down (see `shutdown_spec`).
    pub fn shutdown_step(&self, state: ShutdownState, input: ShutdownInput) -> (out: (ShutdownState, ShutdownAction<B, V>))
        requires
            self.well_formed(),
        ensures
            out.0 == self.shutdown_spec(state, input).0,
            self.shutdown_action_performs(out.1, self.shutdown_spec(state, input).1),
    {
        let nb = self.background_task_ids.len();
        let ne = self.event_task_ids.len();
        match state {
            ShutdownState::AwaitingBackground(i) => {
                if i >= nb {
                    return self.shutdown_take_up_exec(ShutdownState::Background(i));
                }
                match input {
                    ShutdownInput::ShutDown(Err(e)) => (ShutdownState::Finished, ShutdownAction::Complete(Err(e))),
                    ShutdownInput::ShutDown(Ok(())) => self.shutdown_take_up_exec(ShutdownState::Background(i + 1)),
                    ShutdownInput::Proceed => {
                        let id = self.background_task_ids[i];
                        match self.task_registry.get_background_task(&id) {
                            Some(task) => (state, ShutdownAction::ShutdownBackground(task)),
                            None => self.shutdown_take_up_exec(ShutdownState::Background(i + 1)),
                        }
                    },
                }
            },
            ShutdownState::AwaitingEvent(i) => {
                if i >= ne {
                    return self.shutdown_take_up_exec(ShutdownState::Event(i));
                }
                match input {
                    ShutdownInput::ShutDown(Err(e)) => (ShutdownState::Finished, ShutdownAction::Complete(Err(e))),
                    ShutdownInput::ShutDown(Ok(())) => self.shutdown_take_up_exec(ShutdownState::Event(i + 1)),
                    ShutdownInput::Proceed => {
                        let id = self.event_task_ids[i];
                        match self.task_registry.get_event_task(&id) {
                            Some(task) => (state, ShutdownAction::ShutdownEvent(task)),
                            None => self.shutdown_take_up_exec(ShutdownState::Event(i + 1)),
                        }
                    },
                }
            },
            _ => self.shutdown_take_up_exec(state),
        }
    }
}

} // verus!
