//! The event bus: one broadcast channel of text messages per event kind, created with the
//! capacity that its configuration asks for.

use vstd::laws_eq::obeys_concrete_eq;
use vstd::prelude::*;
use vstd::std_specs::cmp::PartialEqSpec;
use vstd::string::to_string_from_display_ensures;

use tokio::sync::broadcast::{Receiver, Sender};

use crate::error::SchedulerError;

verus! {

/// A kind of event that tasks can subscribe to.
pub trait EventType: Send + Sync + Clone + core::hash::Hash + Eq {

}

/// The configuration of one event channel.
#[derive(Debug, Clone)]
pub struct ChannelConfig {
    pub capacity: usize,
    pub description: String,
}

#[verifier::external_type_specification]
#[verifier::external_body]
#[verifier::reject_recursive_types(T)]
pub struct ExSender<T>(Sender<T>);

#[verifier::external_type_specification]
#[verifier::external_body]
#[verifier::reject_recursive_types(T)]
pub struct ExReceiver<T>(Receiver<T>);

/// The capacity that the broadcast channel behind a sender was created with.
pub uninterp spec fn channel_capacity(sender: Sender<String>) -> usize;

/// Whether a receiver listens on the channel that a sender sends on: the receiver gets the
/// values sent through that sender after the receiver was subscribed.
pub uninterp spec fn receives_from(receiver: Receiver<String>, sender: Sender<String>) -> bool;

/// Whether two senders send on the same channel, as `tokio::sync::broadcast::Sender::same_channel`
/// tells (the senders share the channel's state).
pub uninterp spec fn same_channel(a: Sender<String>, b: Sender<String>) -> bool;

/// Whether a capacity is one that `tokio::sync::broadcast::channel` accepts: it panics on zero
/// and on values above `usize::MAX / 2`.
pub open spec fn valid_capacity(capacity: usize) -> bool {
    0 < capacity <= usize::MAX / 2
}

/// Opens a channel with `tokio::sync::broadcast::channel` and keeps its sending half (the first
/// receiver is dropped, as the bus subscribes receivers on demand). The contract claims that the
/// channel was created with the given capacity (tokio rounds the buffer up to a power of two,
/// which is not stated), and that it is a new channel: tokio allocates fresh shared state for
/// it, so it is not the channel of any sender still alive, such as those in `live`, which the
/// call only borrows to name them.
#[verifier::external_body]
#[allow(unused_variables)]
fn open_channel<E>(capacity: usize, live: &Vec<(E, Sender<String>)>) -> (sender: Sender<String>)
    requires
        valid_capacity(capacity),
    ensures
        channel_capacity(sender) == capacity,
        forall|i: int|
            0 <= i < live@.len() ==> !same_channel(#[trigger] live@[i].1, sender) && !same_channel(
                sender,
                live@[i].1,
            ),
{
    tokio::sync::broadcast::channel(capacity).0
}

/// `Clone::clone` of `tokio::sync::broadcast::Sender`: another handle on the same channel (the
/// clone shares the channel's state), so it has the same capacity and every receiver that
/// listens on one listens on the other.
#[verifier::external_body]
fn sender_handle(sender: &Sender<String>) -> (copy: Sender<String>)
    ensures
        channel_capacity(copy) == channel_capacity(*sender),
        forall|r: Receiver<String>| #[trigger] receives_from(r, copy) <==> receives_from(r, *sender),
        forall|s: Sender<String>| #[trigger] same_channel(s, copy) <==> same_channel(s, *sender),
{
    sender.clone()
}

/// `tokio::sync::broadcast::Sender::subscribe`: a new receiver on the sender's channel that sees
/// the values sent from now on. Tokio panics when a channel already has `usize::MAX >> 2`
/// receivers, a count that is not tracked here (no machine holds that many).
#[verifier::external_body]
fn receiver_of(sender: &Sender<String>) -> (receiver: Receiver<String>)
    ensures
        receives_from(receiver, *sender),
        forall|s: Sender<String>| #[trigger] receives_from(receiver, s) <==> same_channel(*sender, s),
{
    sender.subscribe()
}

/// The channels that a sequence of registrations leaves: each registration maps its event to the
/// capacity of its configuration, and a later registration of the same event replaces an
/// earlier one.
pub open spec fn registered<E>(entries: Seq<(E, ChannelConfig)>) -> Map<E, usize>
    decreases entries.len(),
{
    if entries.len() == 0 {
        Map::empty()
    } else {
        let last = entries.last();
        registered(entries.drop_last()).insert(last.0, last.1.capacity)
    }
}

/// The configurations of a sequence of registrations, in order.
pub open spec fn configs_of<E>(entries: Seq<(E, ChannelConfig)>) -> Seq<ChannelConfig> {
    entries.map_values(|entry: (E, ChannelConfig)| entry.1)
}

/// Whether every registration asks for a capacity that a channel can be created with.
pub open spec fn capacities_valid<E>(entries: Seq<(E, ChannelConfig)>) -> bool {
    forall|i: int| 0 <= i < entries.len() ==> valid_capacity(#[trigger] entries[i].1.capacity)
}

/// The index of the channel of `event` in a list of channels.
spec fn position_of<E>(channels: Seq<(E, Sender<String>)>, event: E) -> int {
    choose|i: int| 0 <= i < channels.len() && channels[i].0 == event
}

/// Whether no event occurs twice in a list of channels.
spec fn events_unique<E>(channels: Seq<(E, Sender<String>)>) -> bool {
    forall|i: int, j: int|
        0 <= i < channels.len() && 0 <= j < channels.len() && #[trigger] channels[i].0
            == #[trigger] channels[j].0 ==> i == j
}

/// Whether the channels of a list are pairwise different channels.
spec fn channels_separate<E>(channels: Seq<(E, Sender<String>)>) -> bool {
    forall|i: int, j: int|
        #![trigger channels[i], channels[j]]
        0 <= i < channels.len() && 0 <= j < channels.len() && i != j ==> !same_channel(
            channels[i].1,
            channels[j].1,
        )
}

/// The map from events to channel capacities that a list of channels stands for.
spec fn channel_map<E>(channels: Seq<(E, Sender<String>)>) -> Map<E, usize> {
    Map::new(
        |e: E| exists|i: int| 0 <= i < channels.len() && channels[i].0 == e,
        |e: E| channel_capacity(channels[position_of(channels, e)].1),
    )
}

/// A set of broadcast channels keyed by event kind, with the list of the configurations it was
/// given.
pub struct EventBus<E> {
    channels: Vec<(E, Sender<String>)>,
    configs: Vec<ChannelConfig>,
}

impl<E: PartialEq> EventBus<E> {
    /// The channels of the bus: each registered event and the capacity of its channel.
    pub closed spec fn channels(self) -> Map<E, usize> {
        channel_map(self.channels@)
    }

    /// The sender of the channel of `event` (meaningful when the bus has a channel for it).
    pub closed spec fn sender_of(self, event: E) -> Sender<String> {
        self.channels@[position_of(self.channels@, event)].1
    }

    /// Every configuration given to the bus, in the order given, duplicates included.
    pub closed spec fn configs(self) -> Seq<ChannelConfig> {
        self.configs@
    }

    /// The bus's internal invariant: events compare by value, each has one channel, and
    /// different events have different channels.
    pub closed spec fn well_formed(self) -> bool {
        &&& obeys_concrete_eq::<E>()
        &&& events_unique(self.channels@)
        &&& channels_separate(self.channels@)
        &&& self.channels@.len() <= self.configs@.len()
    }

    proof fn lemma_position(channels: Seq<(E, Sender<String>)>, i: int)
        requires
            events_unique(channels),
            0 <= i < channels.len(),
        ensures
            position_of(channels, channels[i].0) == i,
    {
        let e = channels[i].0;
        assert(exists|k: int| 0 <= k < channels.len() && channels[k].0 == e);
        let j = position_of(channels, e);
        assert(channels[j].0 == channels[i].0);
    }

    /// Looks up the position of an event's channel.
    fn find(&self, event: &E) -> (found: Option<usize>)
        requires
            self.well_formed(),
        ensures
            match found {
                Some(i) => i < self.channels@.len() && self.channels@[i as int].0 == *event,
                None => !self.channels().dom().contains(*event),
            },
    {
        proof {
            reveal(obeys_concrete_eq);
        }
        let mut i: usize = 0;
        while i < self.channels.len()
            invariant
                i <= self.channels@.len(),
                obeys_concrete_eq::<E>(),
                E::obeys_eq_spec(),
                forall|x: E, y: E| x.eq_spec(&y) <==> x == y,
                forall|k: int| 0 <= k < i ==> self.channels@[k].0 != *event,
            decreases self.channels@.len() - i,
        {
            if self.channels[i].0 == *event {
                return Some(i);
            }
            i = i + 1;
        }
        None
    }

    /// Registers a channel for `event` with `config`'s capacity, replacing the event's earlier
    /// channel if it has one, and records the configuration.
    fn register(&mut self, event: E, config: ChannelConfig)
        requires
            old(self).well_formed(),
            valid_capacity(config.capacity),
        ensures
            final(self).well_formed(),
            final(self).channels() == old(self).channels().insert(event, config.capacity),
            final(self).configs() == old(self).configs().push(config),
            forall|other: E|
                other != event && old(self).channels().dom().contains(other)
                    ==> #[trigger] final(self).sender_of(other) == old(self).sender_of(other),
            forall|other: E|
                old(self).channels().dom().contains(other) ==> !same_channel(
                    #[trigger] old(self).sender_of(other),
                    final(self).sender_of(event),
                ),
    {
        let found = self.find(&event);
        let sender = open_channel(config.capacity, &self.channels);
        let ghost before = self.channels@;
        match found {
            Some(i) => {
                self.channels.set(i, (event, sender));
                proof {
                    let after = self.channels@;
                    let fresh_at = i as int;
                    assert(events_unique(after)) by {
                        assert forall|a: int, b: int|
                            0 <= a < after.len() && 0 <= b < after.len() && #[trigger] after[a].0
                                == #[trigger] after[b].0 implies a == b by {
                            assert(after[a].0 == before[a].0);
                            assert(after[b].0 == before[b].0);
                        }
                    }
                    assert forall|e: E| #[trigger]
                        channel_map(after).dom().contains(e) == channel_map(before).insert(
                            event,
                            config.capacity,
                        ).dom().contains(e) by {
                        if exists|k: int| 0 <= k < before.len() && before[k].0 == e {
                            let k = choose|k: int| 0 <= k < before.len() && before[k].0 == e;
                            assert(after[k].0 == e);
                        }
                        if exists|k: int| 0 <= k < after.len() && after[k].0 == e {
                            let k = choose|k: int| 0 <= k < after.len() && after[k].0 == e;
                            assert(before[k].0 == e);
                        }
                    }
                    assert forall|e: E| #[trigger] channel_map(after).dom().contains(e) implies
                        channel_map(after)[e] == channel_map(before).insert(
                            event,
                            config.capacity,
                        )[e] by {
                        let k = choose|k: int| 0 <= k < after.len() && after[k].0 == e;
                        Self::lemma_position(after, k);
                        Self::lemma_position(before, k);
                    }
                    assert(channel_map(after) =~= channel_map(before).insert(
                        event,
                        config.capacity,
                    ));
                    assert forall|other: E|
                        other != event && channel_map(before).dom().contains(other) implies after[position_of(
                            after,
                            other,
                        )].1 == before[position_of(before, other)].1 by {
                        let k = choose|k: int| 0 <= k < before.len() && before[k].0 == other;
                        Self::lemma_position(before, k);
                        assert(after[k].0 == other);
                        Self::lemma_position(after, k);
                    }
                    assert(channels_separate(after)) by {
                        assert forall|a: int, b: int|
                            #![trigger after[a], after[b]]
                            0 <= a < after.len() && 0 <= b < after.len() && a != b implies !same_channel(
                                after[a].1,
                                after[b].1,
                            ) by {
                            if a == fresh_at {
                                assert(after[b] == before[b]);
                                assert(after[a].1 == sender);
                            } else if b == fresh_at {
                                assert(after[a] == before[a]);
                                assert(after[b].1 == sender);
                            } else {
                                assert(after[a] == before[a]);
                                assert(after[b] == before[b]);
                            }
                        }
                    }
                    assert(channel_map(after).dom().contains(event));
                    assert forall|other: E| channel_map(before).dom().contains(other) implies !same_channel(
                        #[trigger] before[position_of(before, other)].1,
                        after[position_of(after, event)].1,
                    ) by {
                        let k = choose|k: int| 0 <= k < before.len() && before[k].0 == other;
                        Self::lemma_position(before, k);
                    }
                }
            },
            None => {
                self.channels.push((event, sender));
                proof {
                    let after = self.channels@;
                    let fresh_at = before.len() as int;
                    let n = before.len() as int;
                    assert(events_unique(after)) by {
                        assert forall|a: int, b: int|
                            0 <= a < after.len() && 0 <= b < after.len() && #[trigger] after[a].0
                                == #[trigger] after[b].0 implies a == b by {
                            if a < n && b == n {
                                assert(channel_map(before).dom().contains(before[a].0));
                            }
                            if b < n && a == n {
                                assert(channel_map(before).dom().contains(before[b].0));
                            }
                        }
                    }
                    assert forall|e: E| #[trigger]
                        channel_map(after).dom().contains(e) == channel_map(before).insert(
                            event,
                            config.capacity,
                        ).dom().contains(e) by {
                        if exists|k: int| 0 <= k < before.len() && before[k].0 == e {
                            let k = choose|k: int| 0 <= k < before.len() && before[k].0 == e;
                            assert(after[k].0 == e);
                        }
                        if e == event {
                            assert(after[n].0 == e);
                        }
                        if exists|k: int| 0 <= k < after.len() && after[k].0 == e {
                            let k = choose|k: int| 0 <= k < after.len() && after[k].0 == e;
                            if k < n {
                                assert(before[k].0 == e);
                            }
                        }
                    }
                    assert forall|e: E| #[trigger] channel_map(after).dom().contains(e) implies
                        channel_map(after)[e] == channel_map(before).insert(
                            event,
                            config.capacity,
                        )[e] by {
                        let k = choose|k: int| 0 <= k < after.len() && after[k].0 == e;
                        Self::lemma_position(after, k);
                        if k < n {
                            Self::lemma_position(before, k);
                        }
                    }
                    assert(channel_map(after) =~= channel_map(before).insert(
                        event,
                        config.capacity,
                    ));
                    assert forall|other: E|
                        other != event && channel_map(before).dom().contains(other) implies after[position_of(
                            after,
                            other,
                        )].1 == before[position_of(before, other)].1 by {
                        let k = choose|k: int| 0 <= k < before.len() && before[k].0 == other;
                        Self::lemma_position(before, k);
                        assert(after[k].0 == other);
                        Self::lemma_position(after, k);
                    }
                    assert(channels_separate(after)) by {
                        assert forall|a: int, b: int|
                            #![trigger after[a], after[b]]
                            0 <= a < after.len() && 0 <= b < after.len() && a != b implies !same_channel(
                                after[a].1,
                                after[b].1,
                            ) by {
                            if a == fresh_at {
                                assert(after[b] == before[b]);
                                assert(after[a].1 == sender);
                            } else if b == fresh_at {
                                assert(after[a] == before[a]);
                                assert(after[b].1 == sender);
                            } else {
                                assert(after[a] == before[a]);
                                assert(after[b] == before[b]);
                            }
                        }
                    }
                    assert(channel_map(after).dom().contains(event));
                    assert forall|other: E| channel_map(before).dom().contains(other) implies !same_channel(
                        #[trigger] before[position_of(before, other)].1,
                        after[position_of(after, event)].1,
                    ) by {
                        let k = choose|k: int| 0 <= k < before.len() && before[k].0 == other;
                        Self::lemma_position(before, k);
                    }
                }
            },
        }
        self.configs.push(config);
    }
}

impl<E: EventType + core::fmt::Display> EventBus<E> {
    /// A bus with one channel per event of `configs`, each created with its configuration's
    /// capacity (for an event given twice, the later configuration's), and with every
    /// configuration recorded in order.
    pub fn new(configs: Vec<(E, ChannelConfig)>) -> (bus: Self)
        requires
            obeys_concrete_eq::<E>(),
            capacities_valid(configs@),
        ensures
            bus.well_formed(),
            bus.channels() == registered(configs@),
            bus.configs() == configs_of(configs@),
    {
        let ghost input = configs@;
        let mut bus = EventBus { channels: Vec::new(), configs: Vec::new() };
        let mut rest = configs;
        let ghost mut done: int = 0;
        proof {
            assert(channel_map(bus.channels@) =~= Map::<E, usize>::empty());
            assert(input.take(0) =~= Seq::<(E, ChannelConfig)>::empty());
            assert(rest@ =~= input.skip(0));
        }
        while rest.len() > 0
            invariant
                0 <= done <= input.len(),
                rest@ == input.skip(done),
                capacities_valid(input),
                bus.well_formed(),
                bus.channels() == registered(input.take(done)),
                bus.configs() == configs_of(input.take(done)),
            decreases rest@.len(),
        {
            let (event, config) = rest.remove(0);
            proof {
                assert(input[done] == (event, config));
                assert(valid_capacity(input[done].1.capacity));
            }
            bus.register(event, config);
            proof {
                assert(input.take(done + 1).drop_last() =~= input.take(done));
                assert(input.take(done + 1).last() == (event, config));
                assert(configs_of(input.take(done + 1)) =~= configs_of(input.take(done)).push(
                    config,
                ));
                done = done + 1;
                assert(rest@ =~= input.skip(done));
            }
        }
        proof {
            assert(input.take(done) =~= input);
        }
        bus
    }

    /// The bus with one more channel: `event` gets a new channel with `config`'s capacity
    /// (replacing the one it had), and `config` is recorded after the others.
    pub fn add_channel(self, event: E, config: ChannelConfig) -> (bus: Self)
        requires
            self.well_formed(),
            valid_capacity(config.capacity),
        ensures
            bus.well_formed(),
            bus.channels() == self.channels().insert(event, config.capacity),
            bus.configs() == self.configs().push(config),
            forall|other: E|
                other != event && self.channels().dom().contains(other)
                    ==> #[trigger] bus.sender_of(other) == self.sender_of(other),
            forall|other: E|
                self.channels().dom().contains(other) ==> !same_channel(
                    #[trigger] self.sender_of(other),
                    bus.sender_of(event),
                ),
    {
        let mut bus = self;
        bus.register(event, config);
        bus
    }

    /// A receiver on the channel of `channel_event`, or `InvalidChannel` with the event's text
    /// when the bus has no channel for it.
    pub fn subscribe(&self, channel_event: &E) -> (result: Result<Receiver<String>, SchedulerError>)
        requires
            self.well_formed(),
        ensures
            result is Ok <==> self.channels().dom().contains(*channel_event),
            result matches Ok(receiver) ==> receives_from(receiver, self.sender_of(*channel_event)),
            result matches Ok(receiver) ==> forall|s: Sender<String>|
                #[trigger] receives_from(receiver, s) <==> same_channel(self.sender_of(*channel_event), s),
            result matches Err(err) ==> err matches SchedulerError::InvalidChannel(text)
                && to_string_from_display_ensures::<E>(channel_event, text),
    {
        match self.find(channel_event) {
            Some(i) => {
                proof {
                    assert(self.channels().dom().contains(*channel_event));
                    Self::lemma_position(self.channels@, i as int);
                }
                Ok(receiver_of(&self.channels[i].1))
            },
            None => Err(SchedulerError::InvalidChannel(channel_event.to_string())),
        }
    }

    /// Another sender on the channel of `channel_event`, or `InvalidChannel` with the event's
    /// text when the bus has no channel for it.
    pub fn clone_sender(&self, channel_event: &E) -> (result: Result<Sender<String>, SchedulerError>)
        requires
            self.well_formed(),
        ensures
            result is Ok <==> self.channels().dom().contains(*channel_event),
            result matches Ok(sender) ==> channel_capacity(sender) == self.channels()[*channel_event],
            result matches Ok(sender) ==> forall|r: Receiver<String>|
                #[trigger] receives_from(r, sender) <==> receives_from(r, self.sender_of(*channel_event)),
            result matches Ok(sender) ==> forall|s: Sender<String>|
                #[trigger] same_channel(s, sender) <==> same_channel(s, self.sender_of(*channel_event)),
            result matches Err(err) ==> err matches SchedulerError::InvalidChannel(text)
                && to_string_from_display_ensures::<E>(channel_event, text),
    {
        match self.find(channel_event) {
            Some(i) => {
                proof {
                    assert(self.channels().dom().contains(*channel_event));
                    Self::lemma_position(self.channels@, i as int);
                }
                Ok(sender_handle(&self.channels[i].1))
            },
            None => Err(SchedulerError::InvalidChannel(channel_event.to_string())),
        }
    }

    /// The number of channels: the number of distinct events registered.
    pub fn channel_count(&self) -> (count: usize)
        requires
            self.well_formed(),
        ensures
            count == self.channels().len(),
    {
        proof {
            self.lemma_count();
        }
        self.channels.len()
    }

    /// The configuration at position `channel_idx` of those given to the bus, if there is one.
    pub fn channel_config(&self, channel_idx: usize) -> (config: Option<&ChannelConfig>)
        ensures
            match config {
                Some(c) => channel_idx < self.configs().len() && *c == self.configs()[channel_idx as int],
                None => channel_idx >= self.configs().len(),
            },
    {
        if channel_idx < self.configs.len() {
            Some(&self.configs[channel_idx])
        } else {
            None
        }
    }
}


/// The events of a sequence of registrations.
pub open spec fn events_of<E>(entries: Seq<(E, ChannelConfig)>) -> Seq<E> {
    entries.map_values(|entry: (E, ChannelConfig)| entry.0)
}

/// A bus made from a list of registrations has one channel per distinct event of the list: its
/// channel count is the number of distinct events, never more than the number of
/// configurations.
pub proof fn lemma_registered_events<E>(entries: Seq<(E, ChannelConfig)>)
    ensures
        registered(entries).dom() == events_of(entries).to_set(),
        registered(entries).dom().finite(),
        registered(entries).len() <= entries.len(),
    decreases entries.len(),
{
    if entries.len() == 0 {
        assert(events_of(entries).to_set() =~= Set::<E>::empty());
    } else {
        let rest = entries.drop_last();
        lemma_registered_events(rest);
        assert(events_of(entries) =~= events_of(rest).push(entries.last().0));
        assert(events_of(entries).to_set() =~= events_of(rest).to_set().insert(entries.last().0))
            by {
            assert forall|e: E| events_of(entries).to_set().contains(e) <==> events_of(
                rest,
            ).to_set().insert(entries.last().0).contains(e) by {
                if events_of(entries).to_set().contains(e) {
                    let k = choose|k: int| 0 <= k < events_of(entries).len() && events_of(entries)[k] == e;
                    if k < rest.len() {
                        assert(events_of(rest)[k] == e);
                    }
                }
                if events_of(rest).to_set().contains(e) {
                    let k = choose|k: int| 0 <= k < events_of(rest).len() && events_of(rest)[k] == e;
                    assert(events_of(entries)[k] == e);
                }
                if e == entries.last().0 {
                    assert(events_of(entries)[entries.len() - 1] == e);
                }
            }
        }
    }
}

/// Adding a channel after building a bus is the same as building it with one more
/// registration: the channels and configurations that `add_channel` leaves (the old ones with
/// the new event's capacity inserted, and the new configuration appended) are those that `new`
/// gives for the registrations with the new one appended. So a bus built from a list and then
/// extended by any chain of `add_channel` calls lists every configuration in the order given,
/// duplicates kept.
pub proof fn lemma_add_channel_extends_registrations<E>(
    entries: Seq<(E, ChannelConfig)>,
    event: E,
    config: ChannelConfig,
)
    ensures
        registered(entries.push((event, config))) == registered(entries).insert(event, config.capacity),
        configs_of(entries.push((event, config))) == configs_of(entries).push(config),
{
    assert(entries.push((event, config)).drop_last() =~= entries);
    assert(configs_of(entries.push((event, config))) =~= configs_of(entries).push(config));
}

/// The channel of an event registered several times has the capacity of the last registration
/// of that event.
pub proof fn lemma_registered_last_wins<E>(entries: Seq<(E, ChannelConfig)>, k: int)
    requires
        0 <= k < entries.len(),
        forall|j: int| k < j < entries.len() ==> #[trigger] entries[j].0 != entries[k].0,
    ensures
        registered(entries).dom().contains(entries[k].0),
        registered(entries)[entries[k].0] == entries[k].1.capacity,
    decreases entries.len(),
{
    if k < entries.len() - 1 {
        let rest = entries.drop_last();
        assert(entries[entries.len() - 1].0 != entries[k].0);
        assert forall|j: int| k < j < rest.len() implies #[trigger] rest[j].0 != rest[k].0 by {
            assert(entries[j].0 != entries[k].0);
        }
        lemma_registered_last_wins(rest, k);
    }
}

impl<E: PartialEq> EventBus<E> {
    proof fn lemma_count(&self)
        requires
            self.well_formed(),
        ensures
            self.channels().dom().finite(),
            self.channels().len() == self.channels@.len(),
    {
        let chans = self.channels@;
        let keys = chans.map_values(|c: (E, Sender<String>)| c.0);
        assert(keys.no_duplicates()) by {
            assert forall|a: int, b: int| 0 <= a < keys.len() && 0 <= b < keys.len() && a != b
                implies keys[a] != keys[b] by {
                if keys[a] == keys[b] {
                    assert(chans[a].0 == chans[b].0);
                }
            }
        }
        assert(self.channels().dom() =~= keys.to_set()) by {
            assert forall|e: E| self.channels().dom().contains(e) <==> keys.to_set().contains(e) by {
                if self.channels().dom().contains(e) {
                    let k = choose|k: int| 0 <= k < chans.len() && chans[k].0 == e;
                    assert(keys[k] == e);
                }
                if keys.to_set().contains(e) {
                    let k = choose|k: int| 0 <= k < keys.len() && keys[k] == e;
                    assert(chans[k].0 == e);
                }
            }
        }
        keys.unique_seq_to_set();
    }

    /// The capacity recorded for an event is the capacity of the channel of its sender.
    pub proof fn lemma_capacity_is_the_senders(self, event: E)
        requires
            self.well_formed(),
            self.channels().dom().contains(event),
        ensures
            self.channels()[event] == channel_capacity(self.sender_of(event)),
    {
    }

    /// What a sender of an event sends, its subscribers hear: a receiver that listens on the
    /// event's channel (as `subscribe` gives) listens on every sender that `clone_sender` gives
    /// for the event.
    pub proof fn lemma_subscribers_hear_cloned_senders(
        self,
        event: E,
        receiver: Receiver<String>,
        sender: Sender<String>,
    )
        requires
            receives_from(receiver, self.sender_of(event)),
            forall|r: Receiver<String>|
                #[trigger] receives_from(r, sender) <==> receives_from(r, self.sender_of(event)),
        ensures
            receives_from(receiver, sender),
    {
    }

    /// Different events have different channels.
    pub proof fn lemma_events_have_separate_channels(self, first: E, second: E)
        requires
            self.well_formed(),
            self.channels().dom().contains(first),
            self.channels().dom().contains(second),
            first != second,
        ensures
            !same_channel(self.sender_of(first), self.sender_of(second)),
    {
        let chans = self.channels@;
        let i = choose|k: int| 0 <= k < chans.len() && chans[k].0 == first;
        let j = choose|k: int| 0 <= k < chans.len() && chans[k].0 == second;
        Self::lemma_position(chans, i);
        Self::lemma_position(chans, j);
        assert(!same_channel(chans[i].1, chans[j].1));
    }

    /// A receiver subscribed to one event never hears a sender cloned for another event: a
    /// receiver that listens exactly on the channel of `second` (as `subscribe` gives) does not
    /// listen on a sender that shares the channel of `first` (as `clone_sender` gives).
    pub proof fn lemma_other_events_are_not_heard(
        self,
        first: E,
        second: E,
        receiver: Receiver<String>,
        sender: Sender<String>,
    )
        requires
            self.well_formed(),
            self.channels().dom().contains(first),
            self.channels().dom().contains(second),
            first != second,
            forall|s: Sender<String>|
                #[trigger] receives_from(receiver, s) <==> same_channel(self.sender_of(second), s),
            forall|s: Sender<String>|
                #[trigger] same_channel(s, sender) <==> same_channel(s, self.sender_of(first)),
        ensures
            !receives_from(receiver, sender),
    {
        self.lemma_events_have_separate_channels(second, first);
        assert(same_channel(self.sender_of(second), sender) <==> same_channel(
            self.sender_of(second),
            self.sender_of(first),
        ));
    }

    /// Re-registering an event gives it a new channel: a receiver subscribed to the event before
    /// (on the channel of the old bus) never hears a sender cloned for it afterwards.
    pub proof fn lemma_replaced_channel_is_not_heard(
        before: Self,
        after: Self,
        event: E,
        receiver: Receiver<String>,
        sender: Sender<String>,
    )
        requires
            before.channels().dom().contains(event),
            forall|other: E|
                before.channels().dom().contains(other) ==> !same_channel(
                    #[trigger] before.sender_of(other),
                    after.sender_of(event),
                ),
            forall|s: Sender<String>|
                #[trigger] receives_from(receiver, s) <==> same_channel(before.sender_of(event), s),
            forall|s: Sender<String>|
                #[trigger] same_channel(s, sender) <==> same_channel(s, after.sender_of(event)),
        ensures
            !receives_from(receiver, sender),
    {
        assert(!same_channel(before.sender_of(event), after.sender_of(event)));
        assert(same_channel(before.sender_of(event), sender) <==> same_channel(
            before.sender_of(event),
            after.sender_of(event),
        ));
    }

    /// Every channel has a configuration: a well-formed bus never has more channels than
    /// configurations, so `channel_config` answers for every index below the channel count.
    pub proof fn lemma_channels_have_configs(self)
        requires
            self.well_formed(),
        ensures
            self.channels().len() <= self.configs().len(),
    {
        self.lemma_count();
    }

    /// Adding a channel for an event adds one to the channel count when the event is new and
    /// leaves it unchanged when the event already has a channel.
    pub proof fn lemma_add_channel_count(self, event: E, capacity: usize)
        requires
            self.well_formed(),
        ensures
            self.channels().insert(event, capacity).len() == self.channels().len() + if self.channels().dom().contains(
                event,
            ) {
                0int
            } else {
                1int
            },
    {
        self.lemma_count();
        if self.channels().dom().contains(event) {
            assert(self.channels().insert(event, capacity).dom() =~= self.channels().dom());
        }
    }
}

} // verus!
