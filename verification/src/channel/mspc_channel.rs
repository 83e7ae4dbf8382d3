//! The channel: a queue of messages in which a message is delivered only while none of its
//! keys is held by a message that was delivered before and not yet released.

use crate::channel::linked_list::{Cell, List, ListNode};
use crate::channel::model::{
    count_in, ids_of, moved_back, moved_front, put, shares_key, with_id, without, ChannelView,
    KeyName, MessageView,
};
use crate::channel::proofs::{
    lemma_admitted_wf, lemma_demoted_all_frame, lemma_extracted_wf, lemma_front_decides,
    lemma_registered_frame, lemma_released_all_wf, lemma_released_wf,
};
use crate::errors::Errors;
use std::collections::HashMap;
use std::marker::PhantomData;
use vstd::hash_map::StringHashMap;
use vstd::hash_set::StringHashSet;
use vstd::prelude::*;

verus! {

broadcast use vstd::std_specs::hash::group_hash_axioms;

/// A key of a message. It is bound to a channel when its message is sent, and it is
/// released once, when the consumer is done with the message.
#[derive(Debug)]
pub struct Key {
    /// the name of the key
    name: String,
    /// whether the key is bound to a channel and not yet released
    attached: bool,
}

/// A message: a payload and the keys that it needs for itself while it is processed.
#[derive(Debug)]
pub struct InternalMessage<T> {
    /// a message with multi-keys
    keys: Vec<Key>,
    /// a message data
    pub data: T,
    /// how many conflicts keep the message from delivery
    ref_count: usize,
    /// message_id
    id: i64,
}

/// A copy of `ids`.
fn copy_ids(ids: &Vec<i64>) -> (copy: Vec<i64>)
    ensures
        copy@ == ids@,
{
    let mut copy: Vec<i64> = Vec::new();
    let n = ids.len();
    let mut i: usize = 0;
    while i < n
        invariant
            n == ids@.len(),
            i <= n,
            copy@ == ids@.take(i as int),
        decreases n - i,
    {
        copy.push(ids[i]);
        i = i + 1;
        assert(copy@ =~= ids@.take(i as int));
    }
    assert(ids@.take(n as int) =~= ids@);
    copy
}

/// Whether `id` is among `ids`.
fn has_id(ids: &Vec<i64>, id: i64) -> (found: bool)
    ensures
        found == ids@.contains(id),
{
    let n = ids.len();
    let mut i: usize = 0;
    while i < n
        invariant
            n == ids@.len(),
            i <= n,
            forall|j: int| 0 <= j < i ==> ids@[j] != id,
        decreases n - i,
    {
        if ids[i] == id {
            return true;
        }
        i = i + 1;
    }
    false
}

/// The ids of `ids` but `id`, in their order.
fn ids_without(ids: &Vec<i64>, id: i64) -> (rest: Vec<i64>)
    requires
        ids@.no_duplicates(),
    ensures
        rest@ == without(ids@, id),
{
    let mut rest: Vec<i64> = Vec::new();
    let n = ids.len();
    let mut i: usize = 0;
    while i < n
        invariant
            n == ids@.len(),
            i <= n,
            ids@.no_duplicates(),
            rest@ == without(ids@.take(i as int), id),
        decreases n - i,
    {
        let ghost done = ids@.take(i as int);
        let ghost next = ids@.take(i + 1);
        proof {
            assert(next =~= done.push(ids@[i as int]));
            if done.contains(id) {
                let at = done.index_of(id);
                assert(ids@[at] == id);
                assert(ids@[i as int] != id);
                assert(next[at] == id);
                assert(next.index_of(id) == at) by {
                    let other = next.index_of(id);
                    assert(ids@[other] == id);
                }
                assert(next.remove(at) =~= done.remove(at).push(ids@[i as int]));
            } else if ids@[i as int] == id {
                assert(next[i as int] == id);
                assert(next.index_of(id) == i) by {
                    let other = next.index_of(id);
                    if other < i {
                        assert(done[other] == id);
                    }
                }
                assert(next.remove(i as int) =~= done);
            } else {
                if next.contains(id) {
                    let at = next.index_of(id);
                    assert(done[at] == id);
                }
            }
        }
        if ids[i] != id {
            rest.push(ids[i]);
        }
        i = i + 1;
    }
    assert(ids@.take(n as int) =~= ids@);
    rest
}

/// The ids that `table` holds under `key`, with `id` at the end unless it is among them.
fn listed_with(table: &StringHashMap<Vec<i64>>, key: &String, id: i64) -> (ids: Vec<i64>)
    ensures
        ids@ == with_id(ids_of(table_view(table@), key@), id),
{
    match table.get(key.as_str()) {
        Some(listed) => {
            let mut ids = copy_ids(listed);
            if !has_id(listed, id) {
                ids.push(id);
            }
            ids
        },
        None => {
            let mut ids: Vec<i64> = Vec::new();
            ids.push(id);
            assert(ids@ =~= Seq::<i64>::empty().push(id));
            ids
        },
    }
}

impl Key {
    /// The name of the key.
    pub closed spec fn name(&self) -> KeyName {
        self.name@
    }

    /// Whether the key is bound to a channel and not yet released.
    pub closed spec fn attached(&self) -> bool {
        self.attached
    }
}

impl<T> View for InternalMessage<T> {
    type V = MessageView<T>;

    closed spec fn view(&self) -> MessageView<T> {
        MessageView { keys: self.key_names(), data: self.data, conflicts: self.ref_count as nat }
    }
}

impl<T> InternalMessage<T> {
    /// The keys of the message, in order.
    pub closed spec fn keys(&self) -> Seq<Key> {
        self.keys@
    }

    /// The names of the keys of the message, in order.
    pub open spec fn key_names(&self) -> Seq<KeyName> {
        Seq::new(self.keys().len(), |i: int| self.keys()[i].name())
    }

    /// The keys of a message are named as its view says. Where all of them are bound to a
    /// channel, all their names are to be released; where none is, none.
    pub proof fn lemma_names(&self)
        ensures
            self@.keys == self.key_names(),
            self.is_attached() ==> attached_names(self.keys()) == self@.keys,
            self.is_detached() ==> attached_names(self.keys()) == Seq::<KeyName>::empty(),
    {
        if self.is_attached() {
            lemma_attached_names(self.keys());
        }
        if self.is_detached() {
            lemma_detached_names(self.keys());
        }
    }

    /// The id that the channel gave to the message; 0 before it is sent.
    pub closed spec fn id(&self) -> i64 {
        self.id
    }

    /// Whether every key of the message is bound to a channel.
    pub open spec fn is_attached(&self) -> bool {
        forall|i: int| 0 <= i < self.keys().len() ==> (#[trigger] self.keys()[i]).attached()
    }

    /// Whether no key of the message is bound to a channel.
    pub open spec fn is_detached(&self) -> bool {
        forall|i: int| 0 <= i < self.keys().len() ==> !(#[trigger] self.keys()[i]).attached()
    }

    /// `new` makes a message with the keys named by `vecs`, in that order, and the payload
    /// `data_`. The message belongs to no channel yet: it has no id and no conflicts, and
    /// its keys are bound to nothing.
    pub fn new(vecs: Vec<String>, data_: T) -> (message: InternalMessage<T>)
        ensures
            message@ == (MessageView {
                keys: Seq::new(vecs@.len(), |i: int| vecs@[i]@),
                data: data_,
                conflicts: 0,
            }),
            message.id() == 0,
            message.is_detached(),
    {
        let mut message = InternalMessage { keys: Vec::new(), data: data_, ref_count: 0, id: 0 };
        let ghost names = vecs@;
        for vec in it: vecs
            invariant
                it.seq() == names,
                message.keys@.len() == it.index(),
                forall|j: int|
                    0 <= j < it.index() ==> (#[trigger] message.keys@[j]).name@ == names[j]@
                        && !message.keys@[j].attached,
                message.ref_count == 0,
                message.id == 0,
                message.data == data_,
        {
            message.keys.push(Key { name: vec, attached: false });
        }
        assert(message.key_names() =~= Seq::new(names.len(), |i: int| names[i]@));
        message
    }

    /// The payload of the message.
    pub fn payload(&self) -> (data: &T)
        ensures
            *data == self@.data,
    {
        &self.data
    }
}

/// `MspcChannel` is the state that the senders and the receiver of a channel share: the
/// queued messages in their order, and what is known of their keys.
pub struct MspcChannel<T> {
    /// the order of the queued messages
    cached_messages: List,
    /// the keys that are checked out
    counter: StringHashSet,
    /// the capacity of the channel, -1 for none
    bounded_size: i32,
    /// the id that was given out last
    message_id: i64,
    /// id -> node
    id_to_node: HashMap<i64, Cell>,
    /// key -> the ids of the queued messages that it blocks
    key_message_id_in_duplicate: StringHashMap<Vec<i64>>,
    /// id -> message
    id_to_message: HashMap<i64, InternalMessage<T>>,
    /// key -> the ids of the queued messages that carry it
    key_to_message_id: StringHashMap<Vec<i64>>,
}

/// A table of ids by key, each list of ids as a sequence.
pub open spec fn table_view(table: Map<KeyName, Vec<i64>>) -> Map<KeyName, Seq<i64>> {
    Map::new(|key: KeyName| table.contains_key(key), |key: KeyName| table[key]@)
}

/// A table of messages by id, each message as its view.
pub open spec fn messages_view<T>(table: Map<i64, InternalMessage<T>>) -> Map<
    i64,
    MessageView<T>,
> {
    Map::new(|id: i64| table.contains_key(id), |id: i64| table[id]@)
}

impl<T> View for MspcChannel<T> {
    type V = ChannelView<T>;

    closed spec fn view(&self) -> ChannelView<T> {
        ChannelView {
            queue: self.cached_messages@,
            messages: messages_view(self.id_to_message@),
            checked_out: self.counter@,
            pending: table_view(self.key_to_message_id@),
            conflicted: table_view(self.key_message_id_in_duplicate@),
            last_id: self.message_id,
            capacity: self.bounded_size,
        }
    }
}

impl<T> MspcChannel<T> {
    /// The tables agree with the list: each queued message has one node, which is a member
    /// of the list and carries its id, and each member of the list belongs to a message.
    spec fn shape(&self) -> bool {
        let list = self.cached_messages;
        &&& list.wf()
        &&& forall|id: i64|
            self.id_to_node@.contains_key(id) <==> #[trigger] self.id_to_message@.contains_key(id)
        &&& forall|id: i64| #[trigger]
            self.id_to_node@.contains_key(id) ==> list.contains(self.id_to_node@[id])
                && list.node(self.id_to_node@[id]).message_id == id
        &&& forall|i: int|
            0 <= i < list.cells().len() ==> self.id_to_node@.contains_key(
                list.node(#[trigger] list.cells()[i]).message_id,
            ) && self.id_to_node@[list.node(list.cells()[i]).message_id] == list.cells()[i]
        &&& forall|id: i64| #[trigger]
            self.id_to_message@.contains_key(id) ==> self.id_to_message@[id].id == id
                && self.id_to_message@[id].is_attached()
    }

    /// The state is one that a channel can reach.
    pub closed spec fn wf(&self) -> bool {
        &&& self.shape()
        &&& self@.wf()
    }

    /// In a channel of the right shape the queue holds each queued message once, at the
    /// position of its node.
    proof fn lemma_shape_queue(&self)
        requires
            self.shape(),
        ensures
            self@.queue.len() == self.cached_messages.cells().len(),
            self@.queue.no_duplicates(),
            forall|id: i64| self@.queue.contains(id) <==> self@.messages.contains_key(id),
            forall|id: i64| #[trigger]
                self.id_to_node@.contains_key(id) ==> {
                    let at = self.cached_messages.position(self.id_to_node@[id]);
                    &&& 0 <= at < self@.queue.len()
                    &&& self@.queue[at] == id
                    &&& self@.queue.index_of(id) == at
                    &&& self.cached_messages.cells()[at] == self.id_to_node@[id]
                },
    {
        let list = self.cached_messages;
        let cells = list.cells();
        let queue = self@.queue;
        list.lemma_wf_members();
        assert forall|i: int, j: int|
            0 <= i < queue.len() && 0 <= j < queue.len() && i != j implies queue[i] != queue[j] by {
            assert(self.id_to_node@[list.node(cells[i]).message_id] == cells[i]);
            assert(self.id_to_node@[list.node(cells[j]).message_id] == cells[j]);
        }
        assert forall|id: i64| queue.contains(id) <==> self@.messages.contains_key(id) by {
            if queue.contains(id) {
                let i = choose|i: int| 0 <= i < queue.len() && queue[i] == id;
                assert(self.id_to_node@.contains_key(list.node(cells[i]).message_id));
            }
            if self@.messages.contains_key(id) {
                assert(self.id_to_message@.contains_key(id));
                assert(self.id_to_node@.contains_key(id));
                let c = self.id_to_node@[id];
                assert(list.contains(c));
                let i = choose|i: int| 0 <= i < cells.len() && cells[i] == c;
                assert(queue[i] == id);
            }
        }
        assert forall|id: i64| #[trigger] self.id_to_node@.contains_key(id) implies {
            let at = list.position(self.id_to_node@[id]);
            &&& 0 <= at < queue.len()
            &&& queue[at] == id
            &&& queue.index_of(id) == at
            &&& cells[at] == self.id_to_node@[id]
        } by {
            let c = self.id_to_node@[id];
            assert(list.contains(c));
            let at = list.position(c);
            assert(0 <= at < cells.len() && cells[at] == c);
            assert(queue[at] == id);
            let found = queue.index_of(id);
            assert(0 <= found < queue.len() && queue[found] == id);
        }
    }

    /// `channel` makes a channel that holds at most `bounded_size_` messages at a time, or
    /// any number where `bounded_size_` is -1. Nothing is queued and no key is checked out.
    pub fn channel(bounded_size_: i32) -> (chan: MspcChannel<T>)
        ensures
            chan.wf(),
            chan@ == ChannelView::<T>::empty(bounded_size_),
    {
        let chan = MspcChannel {
            cached_messages: List::new(),
            counter: StringHashSet::new(),
            bounded_size: bounded_size_,
            message_id: 0,
            id_to_node: HashMap::new(),
            key_message_id_in_duplicate: StringHashMap::new(),
            id_to_message: HashMap::new(),
            key_to_message_id: StringHashMap::new(),
        };
        proof {
            assert(chan@.messages =~= Map::empty());
            assert(chan@.pending =~= Map::empty());
            assert(chan@.conflicted =~= Map::empty());
        }
        chan
    }

    /// Whether the message `message_id` is queued and free of conflicts.
    pub fn is_valid(&self, message_id: i64) -> (valid: bool)
        ensures
            valid == self@.deliverable(message_id),
    {
        match self.id_to_message.get(&message_id) {
            Some(res) => res.ref_count == 0,
            None => false,
        }
    }

    /// Moves the node of the queued message `id` to the front or to the back of the list.
    fn relocate(&mut self, id: i64, to_front: bool)
        requires
            old(self).shape(),
            old(self)@.messages.contains_key(id),
        ensures
            final(self).shape(),
            final(self)@ == (ChannelView {
                queue: if to_front {
                    moved_front(old(self)@.queue, id)
                } else {
                    moved_back(old(self)@.queue, id)
                },
                ..old(self)@
            }),
    {
        proof {
            self.lemma_shape_queue();
            self.cached_messages.lemma_wf_members();
        }
        let ghost cells = self.cached_messages.cells();
        let ghost queue = self@.queue;
        match self.id_to_node.get(&id) {
            Some(found) => {
                let node = *found;
                let ghost at = self.cached_messages.position(node);
                self.cached_messages.remove(&node);
                let ghost middle = self.cached_messages;
                proof {
                    assert(self.cached_messages@ == without(queue, id));
                    assert(!self.cached_messages.contains(node)) by {
                        if cells.remove(at).contains(node) {
                            let j = choose|j: int|
                                0 <= j < cells.remove(at).len() && cells.remove(at)[j] == node;
                            if j < at {
                                assert(cells[j] == node);
                            } else {
                                assert(cells[j + 1] == node);
                            }
                        }
                    }
                }
                if to_front {
                    self.cached_messages.list_push_first(&node);
                } else {
                    self.cached_messages.list_push_back(&node);
                }
                proof {
                    let list = self.cached_messages;
                    let fresh = list.cells();
                    assert(old(self).cached_messages.node(node).message_id == id);
                    assert(middle.node(node).message_id == id);
                    assert forall|c: Cell| list.contains(c) <==> old(self).cached_messages.contains(
                        c,
                    ) by {
                        if list.contains(c) {
                            let j = choose|j: int| 0 <= j < fresh.len() && fresh[j] == c;
                            if c != node {
                                let k = if to_front { j - 1 } else { j };
                                assert(cells.remove(at)[k] == c);
                                if k < at {
                                    assert(cells[k] == c);
                                } else {
                                    assert(cells[k + 1] == c);
                                }
                            }
                        }
                        if old(self).cached_messages.contains(c) {
                            let j = choose|j: int| 0 <= j < cells.len() && cells[j] == c;
                            if c == node {
                                let k = if to_front { 0int } else { fresh.len() - 1 };
                                assert(fresh[k] == c);
                            } else {
                                let k = if j < at { j } else { j - 1 };
                                assert(cells.remove(at)[k] == c);
                                let m = if to_front { k + 1 } else { k };
                                assert(fresh[m] == c);
                            }
                        }
                    }
                    assert forall|c: Cell| #[trigger]
                        old(self).cached_messages.has_node(c) implies list.node(c).message_id
                        == old(self).cached_messages.node(c).message_id by {
                        assert(middle.node(c).message_id == old(self).cached_messages.node(
                            c,
                        ).message_id);
                        assert(middle.has_node(c));
                    }
                    assert forall|i: int| 0 <= i < fresh.len() implies self.id_to_node@.contains_key(
                        list.node(#[trigger] fresh[i]).message_id,
                    ) && self.id_to_node@[list.node(fresh[i]).message_id] == fresh[i] by {
                        let c = fresh[i];
                        assert(list.contains(c));
                        assert(old(self).cached_messages.contains(c));
                        let j = choose|j: int| 0 <= j < cells.len() && cells[j] == c;
                        assert(old(self).cached_messages.has_node(cells[j]));
                    }
                    assert forall|x: i64| #[trigger] self.id_to_node@.contains_key(x) implies list.contains(
                        self.id_to_node@[x],
                    ) && list.node(self.id_to_node@[x]).message_id == x by {
                        let c = self.id_to_node@[x];
                        assert(old(self).cached_messages.contains(c));
                        assert(old(self).cached_messages.has_node(c));
                    }
                }
            },
            None => {},
        }
    }

    /// The conflict count of the queued message `id`.
    fn conflicts(&self, id: i64) -> (count: usize)
        requires
            self@.messages.contains_key(id),
        ensures
            count == self@.messages[id].conflicts,
    {
        match self.id_to_message.get(&id) {
            Some(message) => message.ref_count,
            None => 0,
        }
    }

    /// Sets the conflict count of the queued message `id`.
    fn set_conflicts(&mut self, id: i64, count: usize)
        requires
            old(self).shape(),
            old(self)@.messages.contains_key(id),
        ensures
            final(self).shape(),
            final(self)@ == (ChannelView {
                messages: old(self)@.messages.insert(
                    id,
                    old(self)@.messages[id].with_conflicts(count as nat),
                ),
                ..old(self)@
            }),
    {
        match self.id_to_message.remove(&id) {
            Some(message) => {
                let mut message = message;
                message.ref_count = count;
                self.id_to_message.insert(id, message);
                proof {
                    assert(self@.messages =~= old(self)@.messages.insert(
                        id,
                        old(self)@.messages[id].with_conflicts(count as nat),
                    ));
                }
            },
            None => {},
        }
    }

    /// Gives the queued message `id` one conflict more and moves it to the back.
    fn demote(&mut self, id: i64)
        requires
            old(self).shape(),
            old(self)@.messages.contains_key(id),
        ensures
            final(self).shape(),
            final(self)@ == old(self)@.demoted(id),
    {
        let count = self.conflicts(id);
        if count < usize::MAX {
            self.set_conflicts(id, count + 1);
        } else {
            self.set_conflicts(id, count);
        }
        self.relocate(id, false);
    }

    /// Takes one conflict from the message `id`, if it is still queued and has one, and
    /// moves it to the front where that was its last.
    fn promote(&mut self, id: i64)
        requires
            old(self).shape(),
        ensures
            final(self).shape(),
            final(self)@ == old(self)@.promoted(id),
    {
        if self.id_to_message.contains_key(&id) {
            let count = self.conflicts(id);
            if count > 0 {
                self.set_conflicts(id, count - 1);
                if count == 1 {
                    // the message is free now: it goes before all that still wait
                    self.relocate(id, true);
                }
            }
        }
    }

    /// The lists of pending ids hold no id twice, and each id in them is that of a queued
    /// message or `leaving`.
    spec fn tables_sound(&self, leaving: i64) -> bool {
        &&& forall|key: KeyName| #[trigger]
            self@.pending.contains_key(key) ==> self@.pending[key].no_duplicates()
        &&& forall|key: KeyName, id: i64|
            self@.pending.contains_key(key) && #[trigger] self@.pending[key].contains(id) ==> id
                == leaving || self@.messages.contains_key(id)
    }

    /// Checks out the key `key` of the message `id`, which has left the queue: the key is
    /// held from now on, `id` is no longer pending under it, and every other message that
    /// is pending under it gets a conflict and goes to the back.
    fn check_out(&mut self, id: i64, key: &String)
        requires
            old(self).shape(),
            old(self).tables_sound(id),
            !old(self)@.messages.contains_key(id),
        ensures
            final(self).shape(),
            final(self).tables_sound(id),
            !final(self)@.messages.contains_key(id),
            final(self)@ == old(self)@.checked_out_key(id, key@),
    {
        let others = match self.key_to_message_id.get(key.as_str()) {
            Some(ids) => {
                assert(self@.pending.contains_key(key@) && self@.pending[key@] == ids@);
                ids_without(ids, id)
            },
            None => Vec::new(),
        };
        let ghost listed = ids_of(old(self)@.pending, key@);
        proof {
            assert(others@ == without(listed, id));
            assert forall|j: int| 0 <= j < others@.len() implies old(self)@.messages.contains_key(
                #[trigger] others@[j],
            ) && others@[j] != id by {
                if listed.contains(id) {
                    let at = listed.index_of(id);
                    let k = if j < at { j } else { j + 1 };
                    assert(others@[j] == listed[k]);
                    assert(listed.contains(listed[k]));
                } else {
                    assert(listed.contains(listed[j]));
                }
            }
            assert(others@.no_duplicates()) by {
                if listed.contains(id) {
                    let at = listed.index_of(id);
                    assert forall|a: int, b: int|
                        0 <= a < others@.len() && 0 <= b < others@.len() && a != b implies others@[a]
                        != others@[b] by {
                        let ka = if a < at { a } else { a + 1 };
                        let kb = if b < at { b } else { b + 1 };
                        assert(others@[a] == listed[ka] && others@[b] == listed[kb]);
                    }
                }
            }
        }
        self.counter.insert(key.clone());
        if others.len() == 0 {
            self.key_to_message_id.remove(key.as_str());
            self.key_message_id_in_duplicate.remove(key.as_str());
        } else {
            self.key_to_message_id.insert(key.clone(), copy_ids(&others));
            self.key_message_id_in_duplicate.insert(key.clone(), copy_ids(&others));
        }
        let ghost base = self@;
        proof {
            assert(base.pending =~= put(old(self)@.pending, key@, others@));
            assert(base.conflicted =~= put(old(self)@.conflicted, key@, others@));
            assert(base == (ChannelView {
                checked_out: old(self)@.checked_out.insert(key@),
                pending: put(old(self)@.pending, key@, others@),
                conflicted: put(old(self)@.conflicted, key@, others@),
                ..old(self)@
            }));
        }
        let n = others.len();
        let mut j: usize = 0;
        while j < n
            invariant
                n == others@.len(),
                j <= n,
                self.shape(),
                self@ == base.demoted_all(others@.take(j as int)),
                forall|k: int| 0 <= k < n ==> base.messages.contains_key(#[trigger] others@[k]),
            decreases n - j,
        {
            proof {
                let done = others@.take(j as int);
                let next = others@.take(j + 1);
                assert(next.drop_last() =~= done);
                assert(next.last() == others@[j as int]);
                assert forall|k: int| 0 <= k < done.len() implies base.messages.contains_key(
                    #[trigger] done[k],
                ) by {
                    assert(done[k] == others@[k]);
                }
                lemma_demoted_all_frame(base, done);
            }
            self.demote(others[j]);
            j = j + 1;
        }
        proof {
            assert(others@.take(n as int) =~= others@);
            lemma_demoted_all_frame(base, others@);
            assert forall|k: KeyName| #[trigger] self@.pending.contains_key(k) implies self@.pending[k].no_duplicates() by {
                if k != key@ {
                    assert(old(self)@.pending.contains_key(k));
                }
            }
            assert forall|k: KeyName, x: i64|
                self@.pending.contains_key(k) && #[trigger] self@.pending[k].contains(x) implies x
                == id || self@.messages.contains_key(x) by {
                if k != key@ {
                    assert(old(self)@.pending.contains_key(k));
                    assert(old(self)@.pending[k].contains(x));
                } else {
                    let at = choose|at: int| 0 <= at < others@.len() && others@[at] == x;
                    assert(base.messages.contains_key(others@[at]));
                }
            }
        }
    }

    /// Takes the queued message `message_id`, which is free of conflicts, out of the channel
    /// and checks out its keys, one after the other.
    pub fn remove(&mut self, message_id: i64) -> (message: InternalMessage<T>)
        requires
            old(self).wf(),
            old(self)@.deliverable(message_id),
        ensures
            final(self).wf(),
            final(self)@ == old(self)@.extracted(message_id),
            message@ == old(self)@.messages[message_id],
            message.id() == message_id,
            message.is_attached(),
    {
        proof {
            self.lemma_shape_queue();
            self.cached_messages.lemma_wf_members();
            assert(self.id_to_message@.contains_key(message_id));
            assert(self.id_to_node@.contains_key(message_id));
        }
        let ghost cells = self.cached_messages.cells();
        let message = self.id_to_message.remove(&message_id).unwrap();
        let node = self.id_to_node.remove(&message_id).unwrap();
        let ghost at = self.cached_messages.position(node);
        self.cached_messages.remove(&node);
        let ghost middle = self.cached_messages;
        proof {
            assert(!middle.contains(node)) by {
                if cells.remove(at).contains(node) {
                    let j = choose|j: int|
                        0 <= j < cells.remove(at).len() && cells.remove(at)[j] == node;
                    if j < at {
                        assert(cells[j] == node);
                    } else {
                        assert(cells[j + 1] == node);
                    }
                }
            }
        }
        self.cached_messages.discard_node(node);
        proof {
            let list = self.cached_messages;
            assert(self@.messages =~= old(self)@.messages.remove(message_id));
            assert(self@ == old(self)@.taken(message_id));
            assert forall|i: int| 0 <= i < list.cells().len() implies self.id_to_node@.contains_key(
                list.node(#[trigger] list.cells()[i]).message_id,
            ) && self.id_to_node@[list.node(list.cells()[i]).message_id] == list.cells()[i] by {
                let k = if i < at { i } else { i + 1 };
                assert(list.cells()[i] == cells[k]);
                assert(old(self).cached_messages.has_node(cells[k]));
                assert(middle.node(cells[k]).message_id == old(self).cached_messages.node(
                    cells[k],
                ).message_id);
            }
            assert forall|x: i64| #[trigger] self.id_to_node@.contains_key(x) implies list.contains(
                self.id_to_node@[x],
            ) && list.node(self.id_to_node@[x]).message_id == x by {
                let c = old(self).id_to_node@[x];
                assert(old(self).id_to_node@.contains_key(x));
                assert(old(self).cached_messages.contains(c));
                assert(old(self).cached_messages.has_node(c));
                let j = choose|j: int| 0 <= j < cells.len() && cells[j] == c;
                assert(c != node);
                let k = if j < at { j } else { j - 1 };
                assert(cells.remove(at)[k] == c);
                assert(middle.node(c).message_id == old(self).cached_messages.node(c).message_id);
            }
            assert forall|key: KeyName, x: i64|
                self@.pending.contains_key(key) && #[trigger] self@.pending[key].contains(
                    x,
                ) implies x == message_id || self@.messages.contains_key(x) by {
                assert(ids_of(old(self)@.pending, key).contains(x));
            }
        }
        let ghost base = self@;
        let ghost names = message.key_names();
        let n = message.keys.len();
        let mut i: usize = 0;
        while i < n
            invariant
                n == names.len(),
                names == message.key_names(),
                i <= n,
                self.shape(),
                self.tables_sound(message_id),
                !self@.messages.contains_key(message_id),
                self@ == base.checked_out_keys(message_id, names.take(i as int)),
            decreases n - i,
        {
            proof {
                assert(names.take(i + 1).drop_last() =~= names.take(i as int));
                assert(names.take(i + 1).last() == names[i as int]);
            }
            self.check_out(message_id, &message.keys[i].name);
            i = i + 1;
        }
        proof {
            assert(names.take(n as int) =~= names);
            lemma_extracted_wf(old(self)@, message_id);
        }
        message
    }

    /// Records the key `key` of the new message `id`, and tells whether the key is checked
    /// out, so that the message has to wait for it.
    fn register_key(&mut self, id: i64, key: &String) -> (held: bool)
        requires
            old(self).shape(),
        ensures
            final(self).shape(),
            final(self)@ == old(self)@.registered_key(id, key@),
            held == old(self)@.checked_out.contains(key@),
    {
        let pending = listed_with(&self.key_to_message_id, key, id);
        self.key_to_message_id.insert(key.clone(), pending);
        let held = self.counter.contains(key.as_str());
        if held {
            let conflicted = listed_with(&self.key_message_id_in_duplicate, key, id);
            self.key_message_id_in_duplicate.insert(key.clone(), conflicted);
        }
        proof {
            let before = old(self)@;
            assert(self@.pending =~= put(
                before.pending,
                key@,
                with_id(ids_of(before.pending, key@), id),
            ));
            if held {
                assert(self@.conflicted =~= put(
                    before.conflicted,
                    key@,
                    with_id(ids_of(before.conflicted, key@), id),
                ));
            } else {
                assert(self@.conflicted =~= before.conflicted);
            }
        }
        held
    }

    /// Queues `message`, which has the next id: its keys are recorded, it gets one conflict
    /// for each of them that is checked out, and it goes to the front of the queue where it
    /// has none, to the back where it has one.
    pub(crate) fn push_message(&mut self, message: InternalMessage<T>)
        requires
            old(self).wf(),
            old(self)@.last_id < i64::MAX,
            message.id() == old(self)@.next_id(),
            message.is_attached(),
        ensures
            final(self).wf(),
            final(self)@ == old(self)@.admitted(message@.keys, message@.data),
    {
        let id = message.id;
        let ghost names = message.key_names();
        let ghost before = self@;
        let n = message.keys.len();
        let mut count: usize = 0;
        let mut i: usize = 0;
        while i < n
            invariant
                n == names.len(),
                names == message.key_names(),
                i <= n,
                count <= i,
                self.shape(),
                self@ == before.registered(id, names.take(i as int)),
                count == count_in(names.take(i as int), before.checked_out),
            decreases n - i,
        {
            proof {
                assert(names.take(i + 1).drop_last() =~= names.take(i as int));
                assert(names.take(i + 1).last() == names[i as int]);
                lemma_registered_frame(before, id, names.take(i as int));
            }
            let held = self.register_key(id, &message.keys[i].name);
            if held {
                count = count + 1;
            }
            i = i + 1;
        }
        proof {
            assert(names.take(n as int) =~= names);
            lemma_registered_frame(before, id, names);
            self.lemma_shape_queue();
            self.cached_messages.lemma_wf_members();
            assert(!self.id_to_message@.contains_key(id)) by {
                if self.id_to_message@.contains_key(id) {
                    assert(before.messages.contains_key(id));
                }
            }
        }
        let ghost recorded = *self;
        let mut message = message;
        message.ref_count = count;
        let item = ListNode::create_node(&mut self.cached_messages, id);
        let ghost made = self.cached_messages;
        proof {
            assert(made@ =~= recorded.cached_messages@) by {
                assert forall|i: int| 0 <= i < made.cells().len() implies made.node(
                    made.cells()[i],
                ) == recorded.cached_messages.node(made.cells()[i]) by {
                    assert(recorded.cached_messages.has_node(recorded.cached_messages.cells()[i]));
                }
            }
            made.lemma_wf_members();
        }
        self.id_to_node.insert(id, item);
        if count > 0 {
            self.cached_messages.list_push_back(&item);
        } else {
            self.cached_messages.list_push_first(&item);
        }
        self.id_to_message.insert(id, message);
        self.message_id = id;
        proof {
            let list = self.cached_messages;
            let cells = recorded.cached_messages.cells();
            assert(self@.messages =~= before.messages.insert(
                id,
                MessageView { keys: names, data: message.data, conflicts: count as nat },
            ));
            assert(self@.queue == if count == 0 {
                seq![id] + before.queue
            } else {
                before.queue.push(id)
            });
            assert(self@.pending == before.registered(id, names).pending);
            assert(self@.conflicted == before.registered(id, names).conflicted);
            assert(self@.checked_out == before.checked_out);
            lemma_admitted_wf(before, names, message.data);
            assert forall|i: int| 0 <= i < list.cells().len() implies self.id_to_node@.contains_key(
                list.node(#[trigger] list.cells()[i]).message_id,
            ) && self.id_to_node@[list.node(list.cells()[i]).message_id] == list.cells()[i] by {
                let c = list.cells()[i];
                if c != item {
                    let k = if count > 0 { i } else { i - 1 };
                    assert(cells[k] == c);
                    assert(recorded.cached_messages.has_node(cells[k]));
                    assert(made.node(c) == recorded.cached_messages.node(c));
                    assert(recorded.id_to_node@.contains_key(recorded.cached_messages.node(cells[k]).message_id));
                }
            }
            assert forall|x: i64| #[trigger] self.id_to_node@.contains_key(x) implies list.contains(
                self.id_to_node@[x],
            ) && list.node(self.id_to_node@[x]).message_id == x by {
                if x != id {
                    let c = recorded.id_to_node@[x];
                    assert(recorded.id_to_node@.contains_key(x));
                    assert(recorded.cached_messages.contains(c));
                    assert(recorded.cached_messages.has_node(c));
                    let j = choose|j: int| 0 <= j < cells.len() && cells[j] == c;
                    let k = if count > 0 { j } else { j + 1 };
                    assert(list.cells()[k] == c);
                    assert(made.node(c) == recorded.cached_messages.node(c));
                } else {
                    let k = if count > 0 { list.cells().len() - 1 } else { 0 };
                    assert(list.cells()[k] == item);
                }
            }
        }
    }

    /// Releases the key named `name`: it is no longer checked out, and every message that
    /// waited for it loses one conflict and is promoted if that was its last.
    fn release_name(&mut self, name: &String)
        requires
            old(self).wf(),
        ensures
            final(self).wf(),
            final(self)@ == old(self)@.released(name@),
    {
        self.counter.remove(name.as_str());
        let ids = match self.key_message_id_in_duplicate.get(name.as_str()) {
            Some(listed) => copy_ids(listed),
            None => Vec::new(),
        };
        self.key_message_id_in_duplicate.remove(name.as_str());
        let ghost base = self@;
        proof {
            assert(ids@ == ids_of(old(self)@.conflicted, name@));
            assert(base.conflicted =~= old(self)@.conflicted.remove(name@));
        }
        let n = ids.len();
        let mut j: usize = 0;
        while j < n
            invariant
                n == ids@.len(),
                j <= n,
                self.shape(),
                self@ == base.promoted_all(ids@.take(j as int)),
            decreases n - j,
        {
            proof {
                assert(ids@.take(j + 1).drop_last() =~= ids@.take(j as int));
                assert(ids@.take(j + 1).last() == ids@[j as int]);
            }
            self.promote(ids[j]);
            j = j + 1;
        }
        proof {
            assert(ids@.take(n as int) =~= ids@);
            lemma_released_wf(old(self)@, name@);
        }
    }

    /// Releases `key` if it is bound to this channel, as the end of a key's life does: the
    /// key is no longer checked out, and the messages that waited for it are promoted. The
    /// key is bound to nothing afterwards; one that was bound to nothing is left alone, and
    /// so is the channel.
    fn release_key(&mut self, key: &mut Key)
        requires
            old(self).wf(),
        ensures
            final(self).wf(),
            final(key).name() == old(key).name(),
            !final(key).attached(),
            old(key).attached() ==> final(self)@ == old(self)@.released(old(key).name()),
            !old(key).attached() ==> final(self)@ == old(self)@,
    {
        if key.attached {
            key.attached = false;
            self.release_name(&key.name);
        }
    }

    /// The state of a valid channel is a valid state.
    pub proof fn lemma_wf_view(&self)
        requires
            self.wf(),
        ensures
            self@.wf(),
    {
    }

    /// The number of queued messages.
    pub fn len(&self) -> (count: usize)
        requires
            self.wf(),
        ensures
            count == self@.queue.len(),
    {
        self.cached_messages.list_count()
    }

    /// The id that was given to the message admitted last, 0 before the first.
    pub fn last_id(&self) -> (id: i64)
        ensures
            id == self@.last_id,
    {
        self.message_id
    }

    /// The capacity that the channel was made with.
    pub fn capacity(&self) -> (bound: i32)
        ensures
            bound == self@.capacity,
    {
        self.bounded_size
    }

    /// Releases the keys of `message`, in their order: each key that is bound to the
    /// channel is released and bound to nothing afterwards. A message none of whose keys
    /// is bound, because it was never sent or was released before, changes nothing.
    pub fn release(&mut self, message: &mut InternalMessage<T>)
        requires
            old(self).wf(),
        ensures
            final(self).wf(),
            final(self)@ == old(self)@.released_all(attached_names(old(message).keys())),
            final(self)@.checked_out == old(self)@.checked_out.difference(
                attached_names(old(message).keys()).to_set(),
            ),
            final(self)@.messages.dom() == old(self)@.messages.dom(),
            final(self)@.queue.len() == old(self)@.queue.len(),
            forall|x: i64| #[trigger]
                old(self)@.messages.contains_key(x) ==> {
                    let before = old(self)@.messages[x];
                    let now = final(self)@.messages[x];
                    &&& now.keys == before.keys
                    &&& now.data == before.data
                    &&& now.conflicts <= before.conflicts
                    &&& !shares_key(attached_names(old(message).keys()), before.keys) ==> now
                        == before
                },
            old(message).is_attached() ==> attached_names(old(message).keys()) == old(
                message,
            )@.keys,
            old(message).is_detached() ==> final(self)@ == old(self)@,
            final(message).is_detached(),
            final(message)@ == old(message)@,
            final(message).id() == old(message).id(),
    {
        let ghost keys = message.keys@;
        let ghost before = self@;
        let n = message.keys.len();
        let mut i: usize = 0;
        while i < n
            invariant
                n == keys.len(),
                message.keys@.len() == n,
                i <= n,
                self.wf(),
                self@ == before.released_all(attached_names(keys.take(i as int))),
                forall|j: int| 0 <= j < i ==> !(#[trigger] message.keys@[j]).attached,
                forall|j: int| i <= j < n ==> (#[trigger] message.keys@[j]) == keys[j],
                forall|j: int| 0 <= j < n ==> (#[trigger] message.keys@[j]).name@ == keys[j].name@,
                message.data == old(message).data,
                message.ref_count == old(message).ref_count,
                message.id == old(message).id,
            decreases n - i,
        {
            proof {
                assert(keys.take(i + 1).drop_last() =~= keys.take(i as int));
                assert(keys.take(i + 1).last() == keys[i as int]);
                let so_far = attached_names(keys.take(i as int));
                assert(so_far.push(keys[i as int].name()).drop_last() =~= so_far);
            }
            self.release_key(&mut message.keys[i]);
            i = i + 1;
        }
        proof {
            assert(keys.take(n as int) =~= keys);
            assert(message.key_names() =~= old(message).key_names());
            old(message).lemma_names();
            lemma_released_all_wf(before, attached_names(keys));
        }
    }
}

/// The names of the keys among `keys` that are bound to a channel, in their order.
pub open spec fn attached_names(keys: Seq<Key>) -> Seq<KeyName>
    decreases keys.len(),
{
    if keys.len() == 0 {
        Seq::empty()
    } else if keys.last().attached() {
        attached_names(keys.drop_last()).push(keys.last().name())
    } else {
        attached_names(keys.drop_last())
    }
}

/// Keys that are bound to nothing have no names to release.
pub proof fn lemma_detached_names(keys: Seq<Key>)
    requires
        forall|i: int| 0 <= i < keys.len() ==> !(#[trigger] keys[i]).attached(),
    ensures
        attached_names(keys) == Seq::<KeyName>::empty(),
    decreases keys.len(),
{
    if keys.len() > 0 {
        assert(!keys[keys.len() - 1].attached());
        assert forall|i: int| 0 <= i < keys.drop_last().len() implies !(
        #[trigger] keys.drop_last()[i]).attached() by {
            assert(keys.drop_last()[i] == keys[i]);
        }
        lemma_detached_names(keys.drop_last());
    }
}

/// Keys that are all bound to a channel are released under all their names.
pub proof fn lemma_attached_names(keys: Seq<Key>)
    requires
        forall|i: int| 0 <= i < keys.len() ==> (#[trigger] keys[i]).attached(),
    ensures
        attached_names(keys) == Seq::new(keys.len(), |i: int| keys[i].name()),
    decreases keys.len(),
{
    if keys.len() > 0 {
        let front = keys.drop_last();
        assert(keys[keys.len() - 1].attached());
        assert forall|i: int| 0 <= i < front.len() implies (#[trigger] front[i]).attached() by {
            assert(front[i] == keys[i]);
        }
        lemma_attached_names(front);
        assert(attached_names(keys) =~= Seq::new(keys.len(), |i: int| keys[i].name()));
    } else {
        assert(attached_names(keys) =~= Seq::new(keys.len(), |i: int| keys[i].name()));
    }
}

/// The capacity as a size: none for -1, which stands for no bound. A capacity below -1 is
/// no size.
fn size_of_capacity(bounded_size: i32) -> (result: Result<Option<usize>, Errors>)
    ensures
        match result {
            Ok(None) => bounded_size == -1,
            Ok(Some(limit)) => bounded_size >= 0 && limit == bounded_size,
            Err(e) => e == Errors::TypeConversionError && bounded_size < -1,
        },
{
    if bounded_size == -1 {
        Ok(None)
    } else if bounded_size >= 0 {
        Ok(Some(bounded_size as usize))
    } else {
        Err(Errors::TypeConversionError)
    }
}

/// What became of a message that was offered to a channel.
#[derive(Debug)]
pub enum Admission<T> {
    /// The message is queued.
    Queued {
        /// whether the queue was empty before
        wake_receiver: bool,
    },
    /// The channel is full; here is the message.
    Full(InternalMessage<T>),
}

/// What a channel had for the receiver.
#[derive(Debug)]
pub enum Delivery<T> {
    /// A message, which the receiver holds from now on.
    Delivered {
        /// the message
        message: InternalMessage<T>,
        /// whether a bounded channel has room again
        wake_senders: bool,
    },
    /// Nothing is queued.
    Empty,
}

/// `Sender` is the sending side of a channel. Any number of senders may share one channel.
#[derive(Debug)]
pub struct Sender<T> {
    a: PhantomData<T>,
}

/// `Reciever` is the receiving side of a channel. A channel has one receiver.
#[derive(Debug)]
pub struct Reciever<T> {
    a: PhantomData<T>,
}

impl<T> Sender<T> {
    /// Offers `message` to the channel. A channel whose capacity is below -1 has no size
    /// that could bound it, and the offer fails. A channel that is full hands the message
    /// back as it came. Otherwise the message is admitted: it gets the next id, its keys
    /// are bound to the channel, and it is queued in front of the messages that wait for a
    /// key unless it has to wait itself. `wake_receiver` tells that the queue was empty
    /// before, so that a receiver may be waiting for this message.
    pub fn send(chan: &mut MspcChannel<T>, message: InternalMessage<T>) -> (result: Result<
        Admission<T>,
        Errors,
    >)
        requires
            old(chan).wf(),
            old(chan)@.last_id < i64::MAX,
        ensures
            final(chan).wf(),
            match result {
                Err(e) => {
                    &&& e == Errors::TypeConversionError
                    &&& !old(chan)@.capacity_valid()
                    &&& final(chan)@ == old(chan)@
                },
                Ok(Admission::Full(back)) => {
                    &&& old(chan)@.capacity_valid()
                    &&& old(chan)@.full()
                    &&& final(chan)@ == old(chan)@
                    &&& back == message
                },
                Ok(Admission::Queued { wake_receiver }) => {
                    &&& old(chan)@.capacity_valid()
                    &&& !old(chan)@.full()
                    &&& final(chan)@ == old(chan)@.admitted(message@.keys, message@.data)
                    &&& final(chan)@.queue.len() == old(chan)@.queue.len() + 1
                    &&& wake_receiver == (old(chan)@.queue.len() == 0)
                },
            },
    {
        let bound = match size_of_capacity(chan.bounded_size) {
            Ok(bound) => bound,
            Err(e) => {
                return Err(e);
            },
        };
        let queued = chan.cached_messages.list_count();
        match bound {
            Some(limit) => {
                if queued >= limit {
                    return Ok(Admission::Full(message));
                }
            },
            None => {},
        }
        let ghost names = message.key_names();
        let ghost offered = message;
        let mut message = message;
        message.id = chan.message_id + 1;
        let n = message.keys.len();
        let mut i: usize = 0;
        while i < n
            invariant
                n == message.keys@.len(),
                i <= n,
                message.key_names() == names,
                message.data == offered.data,
                message.id == chan.message_id + 1,
                forall|j: int| 0 <= j < i ==> (#[trigger] message.keys@[j]).attached,
            decreases n - i,
        {
            let ghost earlier = message.keys@;
            message.keys[i].attached = true;
            i = i + 1;
            proof {
                assert(message.key_names() =~= names) by {
                    assert forall|j: int| 0 <= j < n implies message.keys@[j].name
                        == earlier[j].name by {}
                }
            }
        }
        proof {
            lemma_admitted_wf(old(chan)@, names, offered.data);
        }
        chan.push_message(message);
        Ok(Admission::Queued { wake_receiver: queued == 0 })
    }
}

impl<T> Reciever<T> {
    /// Asks the channel for the next message. An empty channel has none. Otherwise the
    /// message at the front decides: if it is free of conflicts it is extracted, its keys
    /// are checked out, and the messages that share one of them wait behind all others;
    /// if it has a conflict, so has every queued message, and the answer is `KeyDuplicate`
    /// with nothing changed. `wake_senders` tells that a bounded channel has room after
    /// the extraction, so that a sender may go on.
    pub fn recv(chan: &mut MspcChannel<T>) -> (result: Result<Delivery<T>, Errors>)
        requires
            old(chan).wf(),
        ensures
            final(chan).wf(),
            match result {
                Ok(Delivery::Empty) => old(chan)@.queue.len() == 0 && final(chan)@ == old(chan)@,
                Ok(Delivery::Delivered { message, wake_senders }) => {
                    let id = old(chan)@.queue[0];
                    &&& old(chan)@.queue.len() > 0
                    &&& old(chan)@.deliverable(id)
                    &&& final(chan)@ == old(chan)@.extracted(id)
                    &&& message@ == old(chan)@.messages[id]
                    &&& message.id() == id
                    &&& message.is_attached()
                    &&& wake_senders == (0 <= old(chan)@.capacity && final(chan)@.queue.len()
                        < old(chan)@.capacity)
                    &&& final(chan)@.queue.len() == old(chan)@.queue.len() - 1
                    &&& final(chan)@.messages.dom() == old(chan)@.messages.dom().remove(id)
                    &&& final(chan)@.checked_out == old(chan)@.checked_out.union(
                        message@.keys.to_set(),
                    )
                    &&& forall|x: i64|
                        x != id && #[trigger] old(chan)@.messages.contains_key(x) ==> {
                            let before = old(chan)@.messages[x];
                            let now = final(chan)@.messages[x];
                            &&& now.keys == before.keys
                            &&& now.data == before.data
                            &&& !shares_key(message@.keys, before.keys) ==> now == before
                            &&& shares_key(message@.keys, before.keys) ==> now.conflicts > 0
                        }
                },
                Err(e) => {
                    &&& e == Errors::KeyDuplicate
                    &&& old(chan)@.queue.len() > 0
                    &&& forall|id: i64| !old(chan)@.deliverable(id)
                    &&& final(chan)@ == old(chan)@
                },
            },
    {
        if chan.cached_messages.list_count() == 0 {
            return Ok(Delivery::Empty);
        }
        let message_id = chan.cached_messages.list_first();
        if chan.is_valid(message_id) {
            let message = chan.remove(message_id);
            proof {
                lemma_extracted_wf(old(chan)@, message_id);
            }
            let room = match size_of_capacity(chan.bounded_size) {
                Ok(Some(limit)) => chan.cached_messages.list_count() < limit,
                _ => false,
            };
            Ok(Delivery::Delivered { message, wake_senders: room })
        } else {
            proof {
                lemma_front_decides(chan@);
            }
            Err(Errors::KeyDuplicate)
        }
    }
}

} // verus!
