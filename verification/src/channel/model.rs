//! The channel as a mathematical value, and the steps that take one such value to the next.
//!
//! A channel is a queue of message ids, a table of the queued messages, the set of keys that
//! are checked out, and for each key the ids of the queued messages that carry it and of
//! those that it blocks. Admission, extraction and release are written here as functions on
//! such values; the executable channel is proved to follow them.

use vstd::prelude::*;

verus! {

/// The name of a key, as a sequence of characters.
pub type KeyName = Seq<char>;

/// A queued message: its keys in order, its payload, and the number of conflicts that keep
/// it from delivery.
pub struct MessageView<T> {
    pub keys: Seq<KeyName>,
    pub data: T,
    pub conflicts: nat,
}

/// The state of a channel.
pub struct ChannelView<T> {
    /// the ids of the queued messages, the next candidate for delivery first
    pub queue: Seq<i64>,
    /// the queued messages by id
    pub messages: Map<i64, MessageView<T>>,
    /// the keys held by messages that were delivered and not yet released
    pub checked_out: Set<KeyName>,
    /// for each key the ids of the queued messages that carry it, oldest first
    pub pending: Map<KeyName, Seq<i64>>,
    /// for each key the ids of the queued messages whose conflict count it has raised
    pub conflicted: Map<KeyName, Seq<i64>>,
    /// the id that was given out last
    pub last_id: i64,
    /// the largest number of queued messages, or -1 for no bound
    pub capacity: i32,
}

/// The capacity that stands for "no bound".
pub const UNBOUNDED: i32 = -1;

/// The largest conflict count; a count that has reached it stays there.
pub open spec fn max_conflicts() -> nat {
    usize::MAX as nat
}

/// The ids recorded under `key`, none where the table has no entry for it.
pub open spec fn ids_of(table: Map<KeyName, Seq<i64>>, key: KeyName) -> Seq<i64> {
    if table.contains_key(key) {
        table[key]
    } else {
        Seq::empty()
    }
}

/// `table` with `ids` recorded under `key`; the entry is dropped where `ids` is empty.
pub open spec fn put(table: Map<KeyName, Seq<i64>>, key: KeyName, ids: Seq<i64>) -> Map<
    KeyName,
    Seq<i64>,
> {
    if ids.len() == 0 {
        table.remove(key)
    } else {
        table.insert(key, ids)
    }
}

/// `ids` without `id`.
pub open spec fn without(ids: Seq<i64>, id: i64) -> Seq<i64> {
    if ids.contains(id) {
        ids.remove(ids.index_of(id))
    } else {
        ids
    }
}

/// `ids` with `id` at the end, unless it is there already.
pub open spec fn with_id(ids: Seq<i64>, id: i64) -> Seq<i64> {
    if ids.contains(id) {
        ids
    } else {
        ids.push(id)
    }
}

/// `queue` with `id` moved to the back.
pub open spec fn moved_back(queue: Seq<i64>, id: i64) -> Seq<i64> {
    without(queue, id).push(id)
}

/// `queue` with `id` moved to the front.
pub open spec fn moved_front(queue: Seq<i64>, id: i64) -> Seq<i64> {
    seq![id] + without(queue, id)
}

/// How many entries of `keys` are checked out, each entry counted.
pub open spec fn count_in(keys: Seq<KeyName>, checked_out: Set<KeyName>) -> nat
    decreases keys.len(),
{
    if keys.len() == 0 {
        0
    } else {
        count_in(keys.drop_last(), checked_out) + if checked_out.contains(keys.last()) {
            1nat
        } else {
            0nat
        }
    }
}

/// How many different keys among `keys` are checked out.
pub open spec fn blocking(keys: Seq<KeyName>, checked_out: Set<KeyName>) -> nat {
    keys.to_set().intersect(checked_out).len()
}

/// Whether one of the keys `mine` is among the keys `theirs`.
pub open spec fn shares_key(mine: Seq<KeyName>, theirs: Seq<KeyName>) -> bool {
    exists|i: int| 0 <= i < mine.len() && theirs.contains(#[trigger] mine[i])
}

/// A conflict count raised by one.
pub open spec fn raised(conflicts: nat) -> nat {
    if conflicts < max_conflicts() {
        conflicts + 1
    } else {
        conflicts
    }
}

/// A conflict count lowered by one.
pub open spec fn lowered(conflicts: nat) -> nat {
    if conflicts > 0 {
        (conflicts - 1) as nat
    } else {
        0
    }
}

impl<T> MessageView<T> {
    /// The same message with another conflict count.
    pub open spec fn with_conflicts(self, conflicts: nat) -> Self {
        MessageView { conflicts, ..self }
    }
}

impl<T> ChannelView<T> {
    /// The channel of capacity `capacity` before anything was sent.
    pub open spec fn empty(capacity: i32) -> Self {
        ChannelView {
            queue: Seq::empty(),
            messages: Map::empty(),
            checked_out: Set::empty(),
            pending: Map::empty(),
            conflicted: Map::empty(),
            last_id: 0,
            capacity,
        }
    }

    /// Whether the message `id` is queued and free of conflicts.
    pub open spec fn deliverable(self, id: i64) -> bool {
        self.messages.contains_key(id) && self.messages[id].conflicts == 0
    }

    /// Whether no message that is free of conflicts stands behind one that has conflicts.
    pub open spec fn partitioned(self) -> bool {
        forall|i: int, j: int|
            0 <= i < j < self.queue.len() && self.messages[self.queue[i]].conflicts > 0
                ==> self.messages[self.queue[j]].conflicts > 0
    }

    /// Whether the channel has no bound, or a bound that is a size.
    pub open spec fn capacity_valid(self) -> bool {
        self.capacity >= UNBOUNDED
    }

    /// Whether the queue has reached the bound.
    pub open spec fn full(self) -> bool {
        self.capacity != UNBOUNDED && self.queue.len() >= self.capacity
    }

    // ---------------------------------------------------------------- admission

    /// The key `key` of the new message `id` is recorded: `id` is pending under it, and
    /// conflicted under it where the key is checked out.
    pub open spec fn registered_key(self, id: i64, key: KeyName) -> Self {
        ChannelView {
            pending: put(self.pending, key, with_id(ids_of(self.pending, key), id)),
            conflicted: if self.checked_out.contains(key) {
                put(self.conflicted, key, with_id(ids_of(self.conflicted, key), id))
            } else {
                self.conflicted
            },
            ..self
        }
    }

    /// The keys `keys` of the new message `id` are recorded, one after the other.
    pub open spec fn registered(self, id: i64, keys: Seq<KeyName>) -> Self
        decreases keys.len(),
    {
        if keys.len() == 0 {
            self
        } else {
            self.registered(id, keys.drop_last()).registered_key(id, keys.last())
        }
    }

    /// The id that the next admitted message gets.
    pub open spec fn next_id(self) -> i64 {
        (self.last_id + 1) as i64
    }

    /// A message with the keys `keys` and the payload `data` is admitted: it gets the next
    /// id and one conflict for each of its keys that is checked out, and it is queued at
    /// the front where it has no conflict, at the back where it has one.
    pub open spec fn admitted(self, keys: Seq<KeyName>, data: T) -> Self {
        let id = self.next_id();
        let conflicts = count_in(keys, self.checked_out);
        let recorded = self.registered(id, keys);
        ChannelView {
            queue: if conflicts == 0 {
                seq![id] + self.queue
            } else {
                self.queue.push(id)
            },
            messages: self.messages.insert(id, MessageView { keys, data, conflicts }),
            pending: recorded.pending,
            conflicted: recorded.conflicted,
            last_id: id,
            ..self
        }
    }

    // ---------------------------------------------------------------- extraction

    /// The queued message `id` gets one conflict more and moves to the back.
    pub open spec fn demoted(self, id: i64) -> Self {
        ChannelView {
            queue: moved_back(self.queue, id),
            messages: self.messages.insert(
                id,
                self.messages[id].with_conflicts(raised(self.messages[id].conflicts)),
            ),
            ..self
        }
    }

    /// The messages `ids` are demoted, one after the other.
    pub open spec fn demoted_all(self, ids: Seq<i64>) -> Self
        decreases ids.len(),
    {
        if ids.len() == 0 {
            self
        } else {
            self.demoted_all(ids.drop_last()).demoted(ids.last())
        }
    }

    /// The key `key` of the message `id`, which is leaving the queue, is checked out: `id`
    /// is no longer pending under it, and every other message that is pending under it is
    /// recorded as conflicted and demoted.
    pub open spec fn checked_out_key(self, id: i64, key: KeyName) -> Self {
        let others = without(ids_of(self.pending, key), id);
        ChannelView {
            checked_out: self.checked_out.insert(key),
            pending: put(self.pending, key, others),
            conflicted: put(self.conflicted, key, others),
            ..self
        }.demoted_all(others)
    }

    /// The keys `keys` of the message `id` are checked out, one after the other.
    pub open spec fn checked_out_keys(self, id: i64, keys: Seq<KeyName>) -> Self
        decreases keys.len(),
    {
        if keys.len() == 0 {
            self
        } else {
            self.checked_out_keys(id, keys.drop_last()).checked_out_key(id, keys.last())
        }
    }

    /// The message `id` is gone from the queue and the table of messages.
    pub open spec fn taken(self, id: i64) -> Self {
        ChannelView { queue: without(self.queue, id), messages: self.messages.remove(id), ..self }
    }

    /// The message `id` is extracted: it leaves the queue, and its keys are checked out.
    pub open spec fn extracted(self, id: i64) -> Self {
        self.taken(id).checked_out_keys(id, self.messages[id].keys)
    }

    // ---------------------------------------------------------------- release

    /// The message `id`, if it is still queued and has a conflict, loses one; where that
    /// was its last, it moves to the front.
    pub open spec fn promoted(self, id: i64) -> Self {
        if self.messages.contains_key(id) && self.messages[id].conflicts > 0 {
            let conflicts = lowered(self.messages[id].conflicts);
            ChannelView {
                queue: if conflicts == 0 {
                    moved_front(self.queue, id)
                } else {
                    self.queue
                },
                messages: self.messages.insert(id, self.messages[id].with_conflicts(conflicts)),
                ..self
            }
        } else {
            self
        }
    }

    /// The messages `ids` are promoted, one after the other.
    pub open spec fn promoted_all(self, ids: Seq<i64>) -> Self
        decreases ids.len(),
    {
        if ids.len() == 0 {
            self
        } else {
            self.promoted_all(ids.drop_last()).promoted(ids.last())
        }
    }

    /// The key `key` is released: it is no longer checked out, and every message that was
    /// conflicted under it is promoted.
    pub open spec fn released(self, key: KeyName) -> Self {
        ChannelView {
            checked_out: self.checked_out.remove(key),
            conflicted: self.conflicted.remove(key),
            ..self
        }.promoted_all(ids_of(self.conflicted, key))
    }

    /// The keys `keys` are released, one after the other.
    pub open spec fn released_all(self, keys: Seq<KeyName>) -> Self
        decreases keys.len(),
    {
        if keys.len() == 0 {
            self
        } else {
            self.released_all(keys.drop_last()).released(keys.last())
        }
    }

    // ---------------------------------------------------------------- validity

    /// The queue holds each queued message once, and no id is ahead of the counter.
    pub open spec fn queue_valid(self) -> bool {
        &&& self.queue.no_duplicates()
        &&& forall|id: i64| self.queue.contains(id) <==> self.messages.contains_key(id)
        &&& forall|id: i64| #[trigger] self.messages.contains_key(id) ==> 0 < id <= self.last_id
        &&& 0 <= self.last_id
        &&& forall|id: i64| #[trigger]
            self.messages.contains_key(id) ==> self.messages[id].keys.len() <= usize::MAX
    }

    /// Under each key stand, once each, the queued messages that carry it.
    pub open spec fn pending_valid(self) -> bool {
        &&& forall|key: KeyName| #[trigger]
            self.pending.contains_key(key) ==> self.pending[key].len() > 0
                && self.pending[key].no_duplicates()
        &&& forall|key: KeyName, id: i64|
            #![trigger ids_of(self.pending, key).contains(id)]
            ids_of(self.pending, key).contains(id) <==> self.messages.contains_key(id)
                && self.messages[id].keys.contains(key)
    }

    /// A key that is checked out blocks the messages that are pending under it; any other
    /// blocks none.
    pub open spec fn conflicted_valid(self) -> bool {
        &&& forall|key: KeyName| #[trigger]
            self.conflicted.contains_key(key) ==> self.checked_out.contains(key)
        &&& forall|key: KeyName| #[trigger]
            self.checked_out.contains(key) ==> self.conflicted.contains_key(key)
                == self.pending.contains_key(key) && ids_of(self.conflicted, key) == ids_of(
                self.pending,
                key,
            )
    }

    /// Each queued message has at least one conflict for every key of its own that is
    /// checked out.
    pub open spec fn conflicts_valid(self) -> bool {
        forall|id: i64| #[trigger]
            self.messages.contains_key(id) ==> blocking(self.messages[id].keys, self.checked_out)
                <= self.messages[id].conflicts <= max_conflicts()
    }

    /// What holds of a channel in every state that it can reach.
    pub open spec fn wf(self) -> bool {
        &&& self.queue_valid()
        &&& self.pending_valid()
        &&& self.conflicted_valid()
        &&& self.conflicts_valid()
        &&& self.partitioned()
    }
}

} // verus!
