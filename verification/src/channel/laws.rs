//! What holds of a channel whatever is done with it.
//!
//! A run of the channel is a sequence of events: a message is sent, the receiver asks for
//! the next message, or the receiver discards a message that it holds, which releases the
//! keys of that message. The laws below speak of the state after any run.

use crate::channel::model::{blocking, count_in, ids_of, without, ChannelView, KeyName};
use crate::channel::proofs::{
    extracting, lemma_admitted_wf, lemma_blocking_bounds, lemma_blocking_distinct,
    lemma_blocking_insert, lemma_blocking_remove, lemma_blocking_zero, lemma_checked_out_key,
    lemma_checked_out_keys, lemma_extracted_wf, lemma_front_decides, lemma_released_all_wf,
    lemma_released_wf, lemma_taken, lemma_without,
};
use vstd::prelude::*;

verus! {

/// What is done with a channel.
pub enum Event<T> {
    /// A message with these keys and this payload is offered.
    Send { keys: Seq<KeyName>, data: T },
    /// The receiver asks for the next message.
    Receive,
    /// The receiver discards the message `id`, which releases its keys in their order.
    Discard { id: i64 },
}

/// A channel together with what the receiver holds.
pub struct System<T> {
    /// the channel
    pub channel: ChannelView<T>,
    /// the keys of each message that was delivered and not yet discarded
    pub held: Map<i64, Seq<KeyName>>,
    /// the ids of the delivered messages, in the order of delivery
    pub delivered: Seq<i64>,
}

/// Whether a channel in the state `s` admits a message with the keys `keys`: it has a
/// capacity that is a size or none, room, an id left, and the keys fit a vector.
pub open spec fn accepts<T>(s: ChannelView<T>, keys: Seq<KeyName>) -> bool {
    &&& s.capacity_valid()
    &&& !s.full()
    &&& s.last_id < i64::MAX
    &&& keys.len() <= usize::MAX
}

/// Whether a channel in the state `s` has a message for the receiver.
pub open spec fn delivers<T>(s: ChannelView<T>) -> bool {
    s.queue.len() > 0 && s.deliverable(s.queue[0])
}

impl<T> System<T> {
    /// A new channel of capacity `capacity`; the receiver holds nothing.
    pub open spec fn start(capacity: i32) -> Self {
        System { channel: ChannelView::empty(capacity), held: Map::empty(), delivered: Seq::empty() }
    }

    /// The system after `event`. A message that the channel does not admit, a request that
    /// it cannot serve, and the discarding of a message that is not held change nothing.
    pub open spec fn after(self, event: Event<T>) -> Self {
        match event {
            Event::Send { keys, data } => if accepts(self.channel, keys) {
                System { channel: self.channel.admitted(keys, data), ..self }
            } else {
                self
            },
            Event::Receive => if delivers(self.channel) {
                let id = self.channel.queue[0];
                System {
                    channel: self.channel.extracted(id),
                    held: self.held.insert(id, self.channel.messages[id].keys),
                    delivered: self.delivered.push(id),
                }
            } else {
                self
            },
            Event::Discard { id } => if self.held.contains_key(id) {
                System {
                    channel: self.channel.released_all(self.held[id]),
                    held: self.held.remove(id),
                    ..self
                }
            } else {
                self
            },
        }
    }

    /// The system after the events `events`, from a new channel of capacity `capacity`.
    pub open spec fn run(capacity: i32, events: Seq<Event<T>>) -> Self
        decreases events.len(),
    {
        if events.len() == 0 {
            Self::start(capacity)
        } else {
            Self::run(capacity, events.drop_last()).after(events.last())
        }
    }

    /// Whether the keys that are checked out are the keys of the held messages, and no two
    /// held messages have a key in common.
    pub open spec fn exclusive(self) -> bool {
        &&& forall|id: i64, i: int|
            self.held.contains_key(id) && 0 <= i < self.held[id].len()
                ==> self.channel.checked_out.contains(#[trigger] self.held[id][i])
        &&& forall|key: KeyName| #[trigger]
            self.channel.checked_out.contains(key) ==> exists|id: i64| #[trigger]
                self.held.contains_key(id) && self.held[id].contains(key)
        &&& forall|a: i64, b: i64, key: KeyName|
            self.held.contains_key(a) && self.held.contains_key(b) && #[trigger] self.held[a].contains(
                key,
            ) && #[trigger] self.held[b].contains(key) ==> a == b
    }

    /// Whether the held messages are apart from the queued ones, and were given their ids
    /// by this channel.
    pub open spec fn held_apart(self) -> bool {
        forall|id: i64| #[trigger]
            self.held.contains_key(id) ==> !self.channel.messages.contains_key(id) && 0 < id
                <= self.channel.last_id
    }
}

/// One event takes a system whose channel is valid, and in which the held messages have
/// the checked-out keys between them, each key in one message, to such a system.
pub proof fn lemma_event_keeps_exclusive<T>(sys: System<T>, event: Event<T>)
    requires
        sys.channel.wf(),
        sys.exclusive(),
        sys.held_apart(),
    ensures
        sys.after(event).channel.wf(),
        sys.after(event).exclusive(),
        sys.after(event).held_apart(),
{
    let next = sys.after(event);
    match event {
        Event::Send { keys, data } => {
            if accepts(sys.channel, keys) {
                lemma_admitted_wf(sys.channel, keys, data);
                assert forall|key: KeyName| #[trigger]
                    next.channel.checked_out.contains(key) implies exists|id: i64| #[trigger]
                    next.held.contains_key(id) && next.held[id].contains(key) by {
                    assert(sys.channel.checked_out.contains(key));
                    let holder = choose|x: i64| #[trigger]
                        sys.held.contains_key(x) && sys.held[x].contains(key);
                    assert(next.held.contains_key(holder) && next.held[holder].contains(key));
                }
                assert forall|id: i64| #[trigger] next.held.contains_key(id) implies !next.channel.messages.contains_key(
                    id,
                ) && 0 < id <= next.channel.last_id by {
                    assert(sys.held.contains_key(id));
                }
            }
        },
        Event::Receive => {
            if delivers(sys.channel) {
                let id = sys.channel.queue[0];
                let keys = sys.channel.messages[id].keys;
                lemma_extracted_wf(sys.channel, id);
                lemma_blocking_zero(keys, sys.channel.checked_out);
                assert(blocking(keys, sys.channel.checked_out) == 0);
                assert(!sys.held.contains_key(id));
                assert forall|x: i64, i: int|
                    next.held.contains_key(x) && 0 <= i < next.held[x].len() implies next.channel.checked_out.contains(
                    #[trigger] next.held[x][i],
                ) by {
                    if x == id {
                        assert(keys.contains(keys[i]));
                    } else {
                        assert(sys.channel.checked_out.contains(sys.held[x][i]));
                    }
                }
                assert forall|key: KeyName| #[trigger]
                    next.channel.checked_out.contains(key) implies exists|x: i64| #[trigger]
                    next.held.contains_key(x) && next.held[x].contains(key) by {
                    if sys.channel.checked_out.contains(key) {
                        let holder = choose|x: i64| #[trigger]
                            sys.held.contains_key(x) && sys.held[x].contains(key);
                        assert(next.held.contains_key(holder) && next.held[holder].contains(key));
                    } else {
                        assert(keys.contains(key));
                        assert(next.held.contains_key(id) && next.held[id].contains(key));
                    }
                }
                assert forall|a: i64, b: i64, key: KeyName|
                    next.held.contains_key(a) && next.held.contains_key(b)
                        && #[trigger] next.held[a].contains(key) && #[trigger] next.held[b].contains(
                        key,
                    ) implies a == b by {
                    if a != b {
                        if a == id || b == id {
                            let other = if a == id { b } else { a };
                            let i = choose|i: int| 0 <= i < keys.len() && keys[i] == key;
                            let j = choose|j: int|
                                0 <= j < sys.held[other].len() && sys.held[other][j] == key;
                            assert(sys.channel.checked_out.contains(sys.held[other][j]));
                            assert(!sys.channel.checked_out.contains(keys[i]));
                        } else {
                            assert(sys.held[a].contains(key) && sys.held[b].contains(key));
                        }
                    }
                }
                assert forall|x: i64| #[trigger] next.held.contains_key(x) implies !next.channel.messages.contains_key(
                    x,
                ) && 0 < x <= next.channel.last_id by {
                    if x != id {
                        assert(sys.held.contains_key(x));
                    } else {
                        assert(sys.channel.messages.contains_key(id));
                    }
                }
            }
        },
        Event::Discard { id } => {
            if sys.held.contains_key(id) {
                let keys = sys.held[id];
                lemma_released_all_wf(sys.channel, keys);
                assert forall|x: i64, i: int|
                    next.held.contains_key(x) && 0 <= i < next.held[x].len() implies next.channel.checked_out.contains(
                    #[trigger] next.held[x][i],
                ) by {
                    let key = sys.held[x][i];
                    assert(sys.channel.checked_out.contains(key));
                    assert(sys.held[x].contains(key));
                    if keys.contains(key) {
                        assert(sys.held[id].contains(key));
                    }
                }
                assert forall|key: KeyName| #[trigger]
                    next.channel.checked_out.contains(key) implies exists|x: i64| #[trigger]
                    next.held.contains_key(x) && next.held[x].contains(key) by {
                    assert(sys.channel.checked_out.contains(key));
                    assert(!keys.contains(key));
                    let holder = choose|x: i64| #[trigger]
                        sys.held.contains_key(x) && sys.held[x].contains(key);
                    assert(next.held.contains_key(holder) && next.held[holder].contains(key));
                }
                assert forall|x: i64| #[trigger] next.held.contains_key(x) implies !next.channel.messages.contains_key(
                    x,
                ) && 0 < x <= next.channel.last_id by {
                    assert(sys.held.contains_key(x));
                }
            }
        },
    }
}

/// The partition invariant: after any run, the channel is valid, so that in its queue no
/// message that is free of conflicts stands behind one that has conflicts.
pub proof fn lemma_run_partitioned<T>(capacity: i32, events: Seq<Event<T>>)
    ensures
        System::run(capacity, events).channel.wf(),
        System::run(capacity, events).channel.partitioned(),
{
    lemma_run_exclusive(capacity, events);
}

/// At most one holder of a key: after any run, each key that is checked out is a key of
/// exactly one message that was delivered and not yet discarded, and each key of such a
/// message is checked out.
pub proof fn lemma_run_exclusive<T>(capacity: i32, events: Seq<Event<T>>)
    ensures
        System::run(capacity, events).channel.wf(),
        System::run(capacity, events).exclusive(),
        System::run(capacity, events).held_apart(),
    decreases events.len(),
{
    if events.len() > 0 {
        lemma_run_exclusive(capacity, events.drop_last());
        lemma_event_keeps_exclusive(System::run(capacity, events.drop_last()), events.last());
    }
}

// -------------------------------------------------------------------- progress

/// Whether each queued message has exactly one conflict for each different key of its own
/// that is checked out.
pub open spec fn exact<T>(s: ChannelView<T>) -> bool {
    forall|id: i64| #[trigger]
        s.messages.contains_key(id) ==> s.messages[id].conflicts == blocking(
            s.messages[id].keys,
            s.checked_out,
        )
}

/// Whether no queued message has a key twice.
pub open spec fn distinct_keys<T>(s: ChannelView<T>) -> bool {
    forall|id: i64| #[trigger] s.messages.contains_key(id) ==> s.messages[id].keys.no_duplicates()
}

/// Admitting a message without a key twice keeps the conflict counts exact.
pub proof fn lemma_admitted_exact<T>(s: ChannelView<T>, keys: Seq<KeyName>, data: T)
    requires
        s.wf(),
        s.last_id < i64::MAX,
        keys.len() <= usize::MAX,
        exact(s),
        distinct_keys(s),
        keys.no_duplicates(),
    ensures
        exact(s.admitted(keys, data)),
        distinct_keys(s.admitted(keys, data)),
{
    let r = s.admitted(keys, data);
    lemma_admitted_wf(s, keys, data);
    lemma_blocking_distinct(keys, s.checked_out);
    assert forall|id: i64| #[trigger] r.messages.contains_key(id) implies r.messages[id].conflicts
        == blocking(r.messages[id].keys, r.checked_out) && r.messages[id].keys.no_duplicates() by {
        if id != s.next_id() {
            assert(s.messages.contains_key(id));
        }
    }
}

/// Releasing a key keeps the conflict counts exact.
pub proof fn lemma_released_exact<T>(s: ChannelView<T>, key: KeyName)
    requires
        s.wf(),
        exact(s),
    ensures
        exact(s.released(key)),
        distinct_keys(s) ==> distinct_keys(s.released(key)),
        forall|id: i64| #[trigger]
            s.messages.contains_key(id) ==> s.released(key).messages[id].keys
                == s.messages[id].keys,
{
    let r = s.released(key);
    lemma_released_wf(s, key);
    assert forall|id: i64| #[trigger] r.messages.contains_key(id) implies r.messages[id].conflicts
        == blocking(r.messages[id].keys, r.checked_out) by {
        assert(s.messages.contains_key(id));
        lemma_blocking_remove(s.messages[id].keys, s.checked_out, key);
    }
    assert forall|id: i64| #[trigger] r.messages.contains_key(id) implies s.messages.contains_key(
        id,
    ) by {}
}

/// Releasing keys, one after the other, keeps the conflict counts exact and the keys of
/// the queued messages as they are.
pub proof fn lemma_released_all_exact<T>(s: ChannelView<T>, keys: Seq<KeyName>)
    requires
        s.wf(),
        exact(s),
    ensures
        exact(s.released_all(keys)),
        distinct_keys(s) ==> distinct_keys(s.released_all(keys)),
        forall|id: i64| #[trigger]
            s.messages.contains_key(id) ==> s.released_all(keys).messages[id].keys
                == s.messages[id].keys,
    decreases keys.len(),
{
    if keys.len() > 0 {
        let mid = s.released_all(keys.drop_last());
        lemma_released_all_exact(s, keys.drop_last());
        lemma_released_all_wf(s, keys.drop_last());
        lemma_released_exact(mid, keys.last());
        assert forall|id: i64| #[trigger] s.messages.contains_key(id) implies s.released_all(
            keys,
        ).messages[id].keys == s.messages[id].keys by {
            assert(mid.messages.contains_key(id));
        }
    }
}

/// While a message without a key twice is being extracted from a channel with exact
/// conflict counts, the counts stay exact.
proof fn lemma_checked_out_keys_exact<T>(s: ChannelView<T>, id: i64, keys: Seq<KeyName>, done: int)
    requires
        0 <= done <= keys.len(),
        extracting(s, id, keys, 0),
        keys.no_duplicates(),
        exact(s),
        distinct_keys(s),
    ensures
        exact(s.checked_out_keys(id, keys.take(done))),
        distinct_keys(s.checked_out_keys(id, keys.take(done))),
    decreases done,
{
    if done == 0 {
        assert(keys.take(0) =~= Seq::<KeyName>::empty());
    } else {
        let earlier = keys.take(done - 1);
        let now = keys.take(done);
        let key = keys[done - 1];
        assert(now.drop_last() =~= earlier);
        assert(now.last() == key);
        lemma_checked_out_keys_exact(s, id, keys, done - 1);
        lemma_checked_out_keys(s, id, keys, done - 1);
        let mid = s.checked_out_keys(id, earlier);
        lemma_checked_out_key(mid, id, keys, done - 1);
        let r = mid.checked_out_key(id, key);
        assert(keys.contains(key));
        assert(!earlier.contains(key)) by {
            if earlier.contains(key) {
                let i = choose|i: int| 0 <= i < earlier.len() && earlier[i] == key;
                assert(keys[i] == keys[done - 1]);
            }
        }
        assert(!mid.checked_out.contains(key));
        assert forall|x: i64| #[trigger] r.messages.contains_key(x) implies r.messages[x].conflicts
            == blocking(r.messages[x].keys, r.checked_out) && r.messages[x].keys.no_duplicates() by {
            assert(mid.messages.contains_key(x));
            let carried = mid.messages[x].keys;
            lemma_blocking_insert(carried, mid.checked_out, key);
            lemma_blocking_bounds(carried, mid.checked_out.insert(key));
        }
    }
}

/// Extracting a message keeps the conflict counts exact, where no queued message has a key
/// twice.
pub proof fn lemma_extracted_exact<T>(s: ChannelView<T>, id: i64)
    requires
        s.wf(),
        s.deliverable(id),
        exact(s),
        distinct_keys(s),
    ensures
        exact(s.extracted(id)),
        distinct_keys(s.extracted(id)),
{
    let keys = s.messages[id].keys;
    let t = s.taken(id);
    lemma_taken(s, id);
    assert forall|x: i64| #[trigger] t.messages.contains_key(x) implies s.messages.contains_key(
        x,
    ) by {}
    lemma_checked_out_keys_exact(t, id, keys, keys.len() as int);
    assert(keys.take(keys.len() as int) =~= keys);
}

/// Whether no message that is sent in `events` has a key twice.
pub open spec fn sends_distinct_keys<T>(events: Seq<Event<T>>) -> bool {
    forall|i: int|
        0 <= i < events.len() ==> match #[trigger] events[i] {
            Event::Send { keys, data } => keys.no_duplicates(),
            _ => true,
        }
}

/// After a run in which no message has a key twice, each queued message has exactly one
/// conflict for each of its keys that is checked out.
pub proof fn lemma_run_exact<T>(capacity: i32, events: Seq<Event<T>>)
    requires
        sends_distinct_keys(events),
    ensures
        System::run(capacity, events).channel.wf(),
        exact(System::run(capacity, events).channel),
        distinct_keys(System::run(capacity, events).channel),
    decreases events.len(),
{
    lemma_run_exclusive(capacity, events);
    if events.len() > 0 {
        let front = events.drop_last();
        assert forall|i: int| 0 <= i < front.len() implies match #[trigger] front[i] {
            Event::Send { keys, data } => keys.no_duplicates(),
            _ => true,
        } by {
            assert(front[i] == events[i]);
        }
        lemma_run_exact(capacity, front);
        let sys = System::run(capacity, front);
        match events.last() {
            Event::Send { keys, data } => {
                assert(events[events.len() - 1] == events.last());
                if accepts(sys.channel, keys) {
                    lemma_admitted_exact(sys.channel, keys, data);
                }
            },
            Event::Receive => {
                if delivers(sys.channel) {
                    lemma_extracted_exact(sys.channel, sys.channel.queue[0]);
                }
            },
            Event::Discard { id } => {
                if sys.held.contains_key(id) {
                    lemma_released_all_exact(sys.channel, sys.held[id]);
                }
            },
        }
    }
}

/// Progress on release: in a channel with exact conflict counts, once the keys `keys` are
/// released, a queued message none of whose other keys is checked out is free of
/// conflicts, and the channel has a message for the receiver.
pub proof fn lemma_release_unblocks<T>(s: ChannelView<T>, id: i64, keys: Seq<KeyName>)
    requires
        s.wf(),
        exact(s),
        s.messages.contains_key(id),
        forall|i: int|
            0 <= i < s.messages[id].keys.len() && s.checked_out.contains(
                #[trigger] s.messages[id].keys[i],
            ) ==> keys.contains(s.messages[id].keys[i]),
    ensures
        s.released_all(keys).wf(),
        s.released_all(keys).deliverable(id),
        delivers(s.released_all(keys)),
{
    let r = s.released_all(keys);
    lemma_released_all_wf(s, keys);
    lemma_released_all_exact(s, keys);
    let carried = s.messages[id].keys;
    assert(r.messages.contains_key(id));
    assert(r.messages[id].keys == carried);
    lemma_blocking_zero(carried, r.checked_out);
    assert forall|i: int| 0 <= i < carried.len() implies !r.checked_out.contains(
        #[trigger] carried[i],
    ) by {
        if s.checked_out.contains(carried[i]) {
            assert(keys.contains(carried[i]));
        }
    }
    assert(r.deliverable(id));
    assert(r.queue.contains(id));
    if !r.deliverable(r.queue[0]) {
        lemma_front_decides(r);
    }
}

/// In a channel with exact conflict counts, a queued message that has a conflict carries a
/// key that is checked out: it waits for a message that the receiver holds.
pub proof fn lemma_conflict_has_cause<T>(s: ChannelView<T>, id: i64)
    requires
        s.wf(),
        exact(s),
        s.messages.contains_key(id),
        !s.deliverable(id),
    ensures
        exists|i: int|
            0 <= i < s.messages[id].keys.len() && s.checked_out.contains(
                #[trigger] s.messages[id].keys[i],
            ),
{
    lemma_blocking_zero(s.messages[id].keys, s.checked_out);
}

// -------------------------------------------------------------------- release once

/// Releasing a key that is not checked out changes nothing, so that to release a key twice
/// is to release it once.
pub proof fn lemma_release_idempotent<T>(s: ChannelView<T>, key: KeyName)
    requires
        s.wf(),
    ensures
        !s.checked_out.contains(key) ==> s.released(key) == s,
        s.released(key).released(key) == s.released(key),
{
    lemma_released_wf(s, key);
    lemma_released_wf(s.released(key), key);
}

// -------------------------------------------------------------------- order of delivery

/// Whether each message of `events` is sent to an empty queue: what was sent before it
/// was delivered before it.
pub open spec fn sends_one_at_a_time<T>(capacity: i32, events: Seq<Event<T>>) -> bool {
    forall|i: int|
        0 <= i < events.len() && (#[trigger] events[i]) is Send ==> System::run(
            capacity,
            events.take(i),
        ).channel.queue.len() == 0
}

/// Whether the ids `ids` rise from each to the next.
pub open spec fn rising(ids: Seq<i64>) -> bool {
    forall|a: int, b: int| 0 <= a < b < ids.len() ==> ids[a] < ids[b]
}

/// Whether at most one message is queued, and it was sent after all that were delivered.
pub open spec fn delivered_before_queued<T>(sys: System<T>) -> bool {
    &&& sys.channel.queue.len() <= 1
    &&& forall|i: int, id: i64|
        #![trigger sys.delivered[i], sys.channel.messages.contains_key(id)]
        0 <= i < sys.delivered.len() && sys.channel.messages.contains_key(id) ==> sys.delivered[i]
            < id
    &&& forall|i: int|
        0 <= i < sys.delivered.len() ==> (#[trigger] sys.delivered[i]) <= sys.channel.last_id
}

/// Order of delivery: where each message is sent to an empty queue, the messages are
/// delivered in the order in which they were sent, whatever their keys.
pub proof fn lemma_run_in_order<T>(capacity: i32, events: Seq<Event<T>>)
    requires
        sends_one_at_a_time(capacity, events),
    ensures
        rising(System::run(capacity, events).delivered),
        delivered_before_queued(System::run(capacity, events)),
    decreases events.len(),
{
    lemma_run_exclusive(capacity, events);
    if events.len() > 0 {
        let front = events.drop_last();
        let end = events.len() - 1;
        assert(front =~= events.take(end));
        assert forall|i: int| 0 <= i < front.len() && (#[trigger] front[i]) is Send implies System::run(
            capacity,
            front.take(i),
        ).channel.queue.len() == 0 by {
            assert(front[i] == events[i]);
            assert(front.take(i) =~= events.take(i));
        }
        lemma_run_in_order(capacity, front);
        lemma_run_exclusive(capacity, front);
        let sys = System::run(capacity, front);
        let next = System::run(capacity, events);
        assert(next == sys.after(events.last()));
        match events.last() {
            Event::Send { keys, data } => {
                assert(events[end] is Send);
                assert(sys.channel.queue.len() == 0);
                if accepts(sys.channel, keys) {
                    lemma_admitted_wf(sys.channel, keys, data);
                    assert forall|i: int, id: i64|
                        #![trigger next.delivered[i], next.channel.messages.contains_key(id)]
                        0 <= i < next.delivered.len() && next.channel.messages.contains_key(
                            id,
                        ) implies next.delivered[i] < id by {
                        if sys.channel.messages.contains_key(id) {
                            assert(sys.channel.queue.contains(id));
                        }
                    }
                }
            },
            Event::Receive => {
                if delivers(sys.channel) {
                    let id = sys.channel.queue[0];
                    lemma_extracted_wf(sys.channel, id);
                    assert forall|i: int, x: i64|
                        #![trigger next.delivered[i], next.channel.messages.contains_key(x)]
                        0 <= i < next.delivered.len() && next.channel.messages.contains_key(
                            x,
                        ) implies next.delivered[i] < x by {
                        assert(next.channel.queue.len() == 0);
                        assert(next.channel.queue.contains(x));
                    }
                    assert forall|a: int, b: int|
                        0 <= a < b < next.delivered.len() implies next.delivered[a]
                        < next.delivered[b] by {
                        if b == sys.delivered.len() {
                            assert(sys.delivered[a] < id);
                        }
                    }
                }
            },
            Event::Discard { id } => {
                if sys.held.contains_key(id) {
                    lemma_released_all_wf(sys.channel, sys.held[id]);
                }
            },
        }
    }
}

// -------------------------------------------------------------------- messages apart

/// The keys of the messages that are sent in `events`.
pub open spec fn sent_keys<T>(events: Seq<Event<T>>) -> Set<KeyName>
    decreases events.len(),
{
    if events.len() == 0 {
        Set::empty()
    } else {
        match events.last() {
            Event::Send { keys, data } => sent_keys(events.drop_last()).union(keys.to_set()),
            _ => sent_keys(events.drop_last()),
        }
    }
}

/// Whether the messages that are sent in `events` have no key in common: each brings keys
/// that no message before it had.
pub open spec fn sends_keys_apart<T>(events: Seq<Event<T>>) -> bool
    decreases events.len(),
{
    if events.len() == 0 {
        true
    } else {
        &&& sends_keys_apart(events.drop_last())
        &&& match events.last() {
            Event::Send { keys, data } => forall|i: int|
                0 <= i < keys.len() ==> !sent_keys(events.drop_last()).contains(#[trigger] keys[i]),
            _ => true,
        }
    }
}

/// Whether the queued messages are free of conflicts and stand with the one sent last at
/// the front, no two of them share a key, and none has a key that is checked out or that
/// is not among `seen`.
pub open spec fn all_free<T>(sys: System<T>, seen: Set<KeyName>) -> bool {
    let s = sys.channel;
    &&& forall|id: i64, i: int|
        s.messages.contains_key(id) && 0 <= i < s.messages[id].keys.len() ==> seen.contains(
            #[trigger] s.messages[id].keys[i],
        ) && !s.checked_out.contains(s.messages[id].keys[i])
    &&& forall|id: i64, i: int|
        sys.held.contains_key(id) && 0 <= i < sys.held[id].len() ==> seen.contains(
            #[trigger] sys.held[id][i],
        )
    &&& forall|a: i64, b: i64, key: KeyName|
        s.messages.contains_key(a) && s.messages.contains_key(b)
            && #[trigger] s.messages[a].keys.contains(key) && #[trigger] s.messages[b].keys.contains(
            key,
        ) ==> a == b
    &&& forall|id: i64| #[trigger] s.messages.contains_key(id) ==> s.messages[id].conflicts == 0
    &&& forall|i: int, j: int| 0 <= i < j < s.queue.len() ==> s.queue[i] > s.queue[j]
}

/// Keys none of which is checked out make no conflict.
pub proof fn lemma_count_in_zero(keys: Seq<KeyName>, checked_out: Set<KeyName>)
    requires
        forall|i: int| 0 <= i < keys.len() ==> !checked_out.contains(#[trigger] keys[i]),
    ensures
        count_in(keys, checked_out) == 0,
    decreases keys.len(),
{
    if keys.len() > 0 {
        assert(!checked_out.contains(keys[keys.len() - 1]));
        assert forall|i: int| 0 <= i < keys.drop_last().len() implies !checked_out.contains(
            #[trigger] keys.drop_last()[i],
        ) by {
            assert(keys.drop_last()[i] == keys[i]);
        }
        lemma_count_in_zero(keys.drop_last(), checked_out);
    }
}

/// While a message is being extracted whose keys no other queued message carries, the
/// other messages stay where and as they are.
proof fn lemma_checked_out_keys_alone<T>(s: ChannelView<T>, id: i64, keys: Seq<KeyName>, done: int)
    requires
        0 <= done <= keys.len(),
        extracting(s, id, keys, 0),
        forall|x: i64, i: int|
            s.messages.contains_key(x) && 0 <= i < keys.len() ==> !(#[trigger] s.messages[x].keys.contains(keys[i])),
    ensures
        s.checked_out_keys(id, keys.take(done)).queue == s.queue,
        s.checked_out_keys(id, keys.take(done)).messages == s.messages,
    decreases done,
{
    if done == 0 {
        assert(keys.take(0) =~= Seq::<KeyName>::empty());
    } else {
        let earlier = keys.take(done - 1);
        let now = keys.take(done);
        let key = keys[done - 1];
        assert(now.drop_last() =~= earlier);
        assert(now.last() == key);
        lemma_checked_out_keys_alone(s, id, keys, done - 1);
        lemma_checked_out_keys(s, id, keys, done - 1);
        let mid = s.checked_out_keys(id, earlier);
        let listed = ids_of(mid.pending, key);
        let others = without(listed, id);
        assert(listed.no_duplicates()) by {
            if mid.pending.contains_key(key) {
                assert(mid.pending[key].no_duplicates());
            }
        }
        lemma_without(listed, id);
        if others.len() > 0 {
            let x = others[0];
            assert(others.contains(x));
            assert(x != id);
            assert(ids_of(mid.pending, key).contains(x));
            assert(mid.messages.contains_key(x) && mid.messages[x].keys.contains(key));
            assert(!s.messages[x].keys.contains(keys[done - 1]));
        }
        assert(others =~= Seq::<i64>::empty());
    }
}

/// Extracting a message whose keys no other queued message carries takes it out and
/// leaves the other messages where and as they are.
pub proof fn lemma_extracted_alone<T>(s: ChannelView<T>, id: i64)
    requires
        s.wf(),
        s.deliverable(id),
        forall|x: i64, i: int|
            s.messages.contains_key(x) && x != id && 0 <= i < s.messages[id].keys.len()
                ==> !(#[trigger] s.messages[x].keys.contains(s.messages[id].keys[i])),
    ensures
        s.extracted(id).queue == without(s.queue, id),
        s.extracted(id).messages == s.messages.remove(id),
{
    let keys = s.messages[id].keys;
    lemma_taken(s, id);
    lemma_checked_out_keys_alone(s.taken(id), id, keys, keys.len() as int);
    assert(keys.take(keys.len() as int) =~= keys);
}

/// Releasing keys that no queued message carries leaves the queued messages where and as
/// they are.
pub proof fn lemma_released_all_alone<T>(s: ChannelView<T>, keys: Seq<KeyName>)
    requires
        s.wf(),
        forall|x: i64, i: int|
            s.messages.contains_key(x) && 0 <= i < keys.len() ==> !(#[trigger] s.messages[x].keys.contains(keys[i])),
    ensures
        s.released_all(keys).queue == s.queue,
        s.released_all(keys).messages == s.messages,
    decreases keys.len(),
{
    if keys.len() > 0 {
        let front = keys.drop_last();
        let key = keys.last();
        assert forall|x: i64, i: int|
            s.messages.contains_key(x) && 0 <= i < front.len() implies !(#[trigger] s.messages[x].keys.contains(front[i])) by {
            assert(front[i] == keys[i]);
        }
        lemma_released_all_alone(s, front);
        lemma_released_all_wf(s, front);
        let mid = s.released_all(front);
        let ids = ids_of(mid.conflicted, key);
        if ids.len() > 0 {
            let x = ids[0];
            assert(mid.conflicted.contains_key(key));
            assert(mid.checked_out.contains(key));
            assert(ids == ids_of(mid.pending, key));
            assert(ids_of(mid.pending, key).contains(x));
            assert(mid.messages.contains_key(x) && mid.messages[x].keys.contains(key));
            assert(!s.messages[x].keys.contains(keys[keys.len() - 1]));
        }
        assert(ids =~= Seq::<i64>::empty());
    }
}

/// Messages apart never wait: after a run in which the messages have no key in common,
/// every queued message is free of conflicts, so that the receiver is never told to wait,
/// and the queue holds the messages with the one sent last at the front, which is the one
/// that the receiver gets next.
pub proof fn lemma_run_all_free<T>(capacity: i32, events: Seq<Event<T>>)
    requires
        sends_keys_apart(events),
    ensures
        all_free(System::run(capacity, events), sent_keys(events)),
        System::run(capacity, events).channel.queue.len() > 0 ==> delivers(
            System::run(capacity, events).channel,
        ),
    decreases events.len(),
{
    lemma_run_exclusive(capacity, events);
    let next = System::run(capacity, events);
    if events.len() > 0 {
        let front = events.drop_last();
        lemma_run_all_free(capacity, front);
        lemma_run_exclusive(capacity, front);
        let sys = System::run(capacity, front);
        let seen = sent_keys(front);
        let s = sys.channel;
        assert(next == sys.after(events.last()));
        match events.last() {
            Event::Send { keys, data } => {
                assert forall|i: int| 0 <= i < keys.len() implies !s.checked_out.contains(
                    #[trigger] keys[i],
                ) by {
                    if s.checked_out.contains(keys[i]) {
                        let holder = choose|x: i64| #[trigger]
                            sys.held.contains_key(x) && sys.held[x].contains(keys[i]);
                        let j = choose|j: int|
                            0 <= j < sys.held[holder].len() && sys.held[holder][j] == keys[i];
                        assert(seen.contains(sys.held[holder][j]));
                    }
                }
                lemma_count_in_zero(keys, s.checked_out);
                if accepts(s, keys) {
                    lemma_admitted_wf(s, keys, data);
                    let id = s.next_id();
                    let r = next.channel;
                    assert forall|x: i64, i: int|
                        r.messages.contains_key(x) && 0 <= i < r.messages[x].keys.len() implies sent_keys(
                        events,
                    ).contains(#[trigger] r.messages[x].keys[i]) && !r.checked_out.contains(
                        r.messages[x].keys[i],
                    ) by {
                        if x == id {
                            assert(keys.contains(keys[i]));
                        } else {
                            assert(s.messages.contains_key(x));
                            assert(seen.contains(s.messages[x].keys[i]));
                        }
                    }
                    assert forall|a: i64, b: i64, key: KeyName|
                        r.messages.contains_key(a) && r.messages.contains_key(b)
                            && #[trigger] r.messages[a].keys.contains(key)
                            && #[trigger] r.messages[b].keys.contains(key) implies a == b by {
                        if a != b {
                            if a == id || b == id {
                                let other = if a == id { b } else { a };
                                let i = choose|i: int| 0 <= i < keys.len() && keys[i] == key;
                                let j = choose|j: int|
                                    0 <= j < s.messages[other].keys.len()
                                        && s.messages[other].keys[j] == key;
                                assert(seen.contains(s.messages[other].keys[j]));
                                assert(!seen.contains(keys[i]));
                            } else {
                                assert(s.messages[a].keys.contains(key));
                                assert(s.messages[b].keys.contains(key));
                            }
                        }
                    }
                    assert forall|i: int, j: int| 0 <= i < j < r.queue.len() implies r.queue[i]
                        > r.queue[j] by {
                        assert(s.queue.contains(s.queue[j - 1]));
                        assert(s.messages.contains_key(s.queue[j - 1]));
                        if i > 0 {
                            assert(s.queue[i - 1] > s.queue[j - 1]);
                        }
                    }
                } else {
                    assert forall|x: i64, i: int|
                        sys.held.contains_key(x) && 0 <= i < sys.held[x].len() implies sent_keys(
                        events,
                    ).contains(#[trigger] sys.held[x][i]) by {
                        assert(seen.contains(sys.held[x][i]));
                    }
                }
                assert forall|x: i64, i: int|
                    next.held.contains_key(x) && 0 <= i < next.held[x].len() implies sent_keys(
                    events,
                ).contains(#[trigger] next.held[x][i]) by {
                    assert(seen.contains(sys.held[x][i]));
                }
                assert forall|x: i64, i: int|
                    next.channel.messages.contains_key(x) && 0 <= i
                        < next.channel.messages[x].keys.len() implies sent_keys(events).contains(
                    #[trigger] next.channel.messages[x].keys[i],
                ) && !next.channel.checked_out.contains(next.channel.messages[x].keys[i]) by {
                    if !accepts(s, keys) {
                        assert(seen.contains(s.messages[x].keys[i]));
                    }
                }
            },
            Event::Receive => {
                if delivers(s) {
                    let id = s.queue[0];
                    let keys = s.messages[id].keys;
                    assert forall|x: i64, i: int|
                        s.messages.contains_key(x) && x != id && 0 <= i
                            < keys.len() implies !(#[trigger] s.messages[x].keys.contains(keys[i])) by {
                        if s.messages[x].keys.contains(keys[i]) {
                            assert(s.messages[id].keys.contains(keys[i]));
                        }
                    }
                    lemma_extracted_alone(s, id);
                    lemma_extracted_wf(s, id);
                    let r = next.channel;
                    assert(s.queue.contains(id));
                    assert(s.queue.index_of(id) == 0);
                    assert(r.queue =~= s.queue.drop_first());
                    assert forall|x: i64, i: int|
                        r.messages.contains_key(x) && 0 <= i < r.messages[x].keys.len() implies seen.contains(
                        #[trigger] r.messages[x].keys[i],
                    ) && !r.checked_out.contains(r.messages[x].keys[i]) by {
                        let key = s.messages[x].keys[i];
                        assert(seen.contains(key) && !s.checked_out.contains(key));
                        assert(s.messages[x].keys.contains(key));
                        if keys.contains(key) {
                            assert(s.messages[id].keys.contains(key));
                        }
                    }
                    assert forall|x: i64, i: int|
                        next.held.contains_key(x) && 0 <= i < next.held[x].len() implies seen.contains(
                        #[trigger] next.held[x][i],
                    ) by {
                        if x == id {
                            assert(seen.contains(s.messages[id].keys[i]));
                        } else {
                            assert(seen.contains(sys.held[x][i]));
                        }
                    }
                    assert forall|a: i64, b: i64, key: KeyName|
                        r.messages.contains_key(a) && r.messages.contains_key(b)
                            && #[trigger] r.messages[a].keys.contains(key)
                            && #[trigger] r.messages[b].keys.contains(key) implies a == b by {
                        assert(s.messages[a].keys.contains(key));
                        assert(s.messages[b].keys.contains(key));
                    }
                }
            },
            Event::Discard { id } => {
                if sys.held.contains_key(id) {
                    let keys = sys.held[id];
                    assert forall|x: i64, i: int|
                        s.messages.contains_key(x) && 0 <= i
                            < keys.len() implies !(#[trigger] s.messages[x].keys.contains(keys[i])) by {
                        if s.messages[x].keys.contains(keys[i]) {
                            let j = choose|j: int|
                                0 <= j < s.messages[x].keys.len() && s.messages[x].keys[j]
                                    == keys[i];
                            assert(!s.checked_out.contains(s.messages[x].keys[j]));
                            assert(s.checked_out.contains(sys.held[id][i]));
                        }
                    }
                    lemma_released_all_alone(s, keys);
                    lemma_released_all_wf(s, keys);
                    let r = next.channel;
                    assert forall|x: i64, i: int|
                        r.messages.contains_key(x) && 0 <= i < r.messages[x].keys.len() implies seen.contains(
                        #[trigger] r.messages[x].keys[i],
                    ) && !r.checked_out.contains(r.messages[x].keys[i]) by {
                        assert(seen.contains(s.messages[x].keys[i]));
                    }
                    assert forall|x: i64, i: int|
                        next.held.contains_key(x) && 0 <= i < next.held[x].len() implies seen.contains(
                        #[trigger] next.held[x][i],
                    ) by {
                        assert(seen.contains(sys.held[x][i]));
                    }
                }
            },
        }
    }
    let r = next.channel;
    if r.queue.len() > 0 {
        assert(r.queue.contains(r.queue[0]));
        assert(r.messages.contains_key(r.queue[0]));
    }
}

} // verus!
