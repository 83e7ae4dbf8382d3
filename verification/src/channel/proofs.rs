//! What the steps of the channel keep and change, proved on the mathematical state.

use crate::channel::model::{
    blocking, count_in, ids_of, lowered, max_conflicts, put, raised, shares_key, with_id,
    without, ChannelView, KeyName,
};
use vstd::prelude::*;

verus! {

/// Demoting queued messages changes the queue and their conflict counts and nothing else.
pub proof fn lemma_demoted_all_frame<T>(s: ChannelView<T>, ids: Seq<i64>)
    requires
        forall|i: int| 0 <= i < ids.len() ==> s.messages.contains_key(#[trigger] ids[i]),
    ensures
        s.demoted_all(ids).checked_out == s.checked_out,
        s.demoted_all(ids).pending == s.pending,
        s.demoted_all(ids).conflicted == s.conflicted,
        s.demoted_all(ids).last_id == s.last_id,
        s.demoted_all(ids).capacity == s.capacity,
        forall|id: i64|
            s.demoted_all(ids).messages.contains_key(id) <==> s.messages.contains_key(id),
        forall|id: i64| #[trigger]
            s.messages.contains_key(id) ==> s.demoted_all(ids).messages[id].keys
                == s.messages[id].keys && s.demoted_all(ids).messages[id].data
                == s.messages[id].data,
    decreases ids.len(),
{
    if ids.len() > 0 {
        let front = ids.drop_last();
        assert forall|i: int| 0 <= i < front.len() implies s.messages.contains_key(
            #[trigger] front[i],
        ) by {
            assert(front[i] == ids[i]);
        }
        lemma_demoted_all_frame(s, front);
        assert(s.messages.contains_key(ids[ids.len() - 1]));
    }
}

/// Promoting messages changes the queue and their conflict counts and nothing else.
pub proof fn lemma_promoted_all_frame<T>(s: ChannelView<T>, ids: Seq<i64>)
    ensures
        s.promoted_all(ids).checked_out == s.checked_out,
        s.promoted_all(ids).pending == s.pending,
        s.promoted_all(ids).conflicted == s.conflicted,
        s.promoted_all(ids).last_id == s.last_id,
        s.promoted_all(ids).capacity == s.capacity,
        forall|id: i64|
            s.promoted_all(ids).messages.contains_key(id) <==> s.messages.contains_key(id),
        forall|id: i64| #[trigger]
            s.messages.contains_key(id) ==> s.promoted_all(ids).messages[id].keys
                == s.messages[id].keys && s.promoted_all(ids).messages[id].data
                == s.messages[id].data,
    decreases ids.len(),
{
    if ids.len() > 0 {
        lemma_promoted_all_frame(s, ids.drop_last());
    }
}

/// Recording the keys of a new message changes the two tables of ids and nothing else.
pub proof fn lemma_registered_frame<T>(s: ChannelView<T>, id: i64, keys: Seq<KeyName>)
    ensures
        s.registered(id, keys).queue == s.queue,
        s.registered(id, keys).messages == s.messages,
        s.registered(id, keys).checked_out == s.checked_out,
        s.registered(id, keys).last_id == s.last_id,
        s.registered(id, keys).capacity == s.capacity,
    decreases keys.len(),
{
    if keys.len() > 0 {
        lemma_registered_frame(s, id, keys.drop_last());
    }
}

// -------------------------------------------------------------------- sequences of ids

/// Taking `id` out of a sequence without repeats leaves the other ids, in their order and
/// without repeats.
pub proof fn lemma_without(ids: Seq<i64>, id: i64)
    requires
        ids.no_duplicates(),
    ensures
        without(ids, id).no_duplicates(),
        !without(ids, id).contains(id),
        forall|x: i64| x != id ==> (without(ids, id).contains(x) <==> ids.contains(x)),
        without(ids, id).len() == if ids.contains(id) {
            ids.len() - 1
        } else {
            ids.len() as int
        },
{
    let rest = without(ids, id);
    if ids.contains(id) {
        let at = ids.index_of(id);
        assert forall|i: int| 0 <= i < rest.len() implies rest[i] == ids[if i < at {
            i
        } else {
            i + 1
        }] by {}
        assert forall|x: i64| x != id implies (rest.contains(x) <==> ids.contains(x)) by {
            if rest.contains(x) {
                let i = choose|i: int| 0 <= i < rest.len() && rest[i] == x;
                let k = if i < at { i } else { i + 1 };
                assert(ids[k] == x);
            }
            if ids.contains(x) {
                let k = choose|k: int| 0 <= k < ids.len() && ids[k] == x;
                let i = if k < at { k } else { k - 1 };
                assert(rest[i] == x);
            }
        }
        if rest.contains(id) {
            let i = choose|i: int| 0 <= i < rest.len() && rest[i] == id;
            let k = if i < at { i } else { i + 1 };
            assert(ids[k] == id);
        }
    }
}

// -------------------------------------------------------------------- counting keys

/// The different keys among `keys` that are checked out are no more than the entries of
/// `keys` that are checked out, and those are no more than `keys` has entries.
pub proof fn lemma_blocking_bounds(keys: Seq<KeyName>, checked_out: Set<KeyName>)
    ensures
        blocking(keys, checked_out) <= count_in(keys, checked_out) <= keys.len(),
    decreases keys.len(),
{
    broadcast use vstd::set::group_set_axioms;
    broadcast use vstd::seq_lib::seq_to_set_is_finite;

    if keys.len() == 0 {
        assert(keys.to_set().intersect(checked_out) =~= Set::empty());
    } else {
        let front = keys.drop_last();
        let last = keys.last();
        lemma_blocking_bounds(front, checked_out);
        let met = front.to_set().intersect(checked_out);
        assert forall|k: KeyName| keys.to_set().contains(k) <==> front.to_set().contains(k) || k
            == last by {
            if keys.contains(k) {
                let i = choose|i: int| 0 <= i < keys.len() && keys[i] == k;
                if i < keys.len() - 1 {
                    assert(front[i] == k);
                }
            }
            if front.contains(k) {
                let i = choose|i: int| 0 <= i < front.len() && front[i] == k;
                assert(keys[i] == k);
            }
            if k == last {
                assert(keys[keys.len() - 1] == k);
            }
        }
        if checked_out.contains(last) {
            assert(keys.to_set().intersect(checked_out) =~= met.insert(last));
        } else {
            assert(keys.to_set().intersect(checked_out) =~= met);
        }
    }
}

/// Checking out one more key blocks a message by at most one key more, and by none more
/// where the message does not carry it.
pub proof fn lemma_blocking_insert(keys: Seq<KeyName>, checked_out: Set<KeyName>, key: KeyName)
    ensures
        blocking(keys, checked_out) <= blocking(keys, checked_out.insert(key)) <= blocking(
            keys,
            checked_out,
        ) + 1,
        !keys.contains(key) || checked_out.contains(key) ==> blocking(
            keys,
            checked_out.insert(key),
        ) == blocking(keys, checked_out),
        keys.contains(key) && !checked_out.contains(key) ==> blocking(
            keys,
            checked_out.insert(key),
        ) == blocking(keys, checked_out) + 1,
{
    broadcast use vstd::set::group_set_axioms;
    broadcast use vstd::seq_lib::seq_to_set_is_finite;

    let met = keys.to_set().intersect(checked_out);
    let more = keys.to_set().intersect(checked_out.insert(key));
    if keys.contains(key) {
        assert(keys.to_set().contains(key));
        assert(more =~= met.insert(key));
    } else {
        assert(!keys.to_set().contains(key));
        assert(more =~= met);
    }
}

/// Releasing a key that a message carries and that was checked out blocks the message by
/// one key less; releasing any other key changes nothing for it.
pub proof fn lemma_blocking_remove(keys: Seq<KeyName>, checked_out: Set<KeyName>, key: KeyName)
    ensures
        keys.contains(key) && checked_out.contains(key) ==> blocking(
            keys,
            checked_out.remove(key),
        ) == blocking(keys, checked_out) - 1,
        !(keys.contains(key) && checked_out.contains(key)) ==> blocking(
            keys,
            checked_out.remove(key),
        ) == blocking(keys, checked_out),
{
    broadcast use vstd::set::group_set_axioms;
    broadcast use vstd::seq_lib::seq_to_set_is_finite;

    let met = keys.to_set().intersect(checked_out);
    let less = keys.to_set().intersect(checked_out.remove(key));
    if keys.contains(key) && checked_out.contains(key) {
        assert(keys.to_set().contains(key));
        assert(less =~= met.remove(key));
    } else {
        if keys.contains(key) {
            assert(keys.to_set().contains(key));
        } else {
            assert(!keys.to_set().contains(key));
        }
        assert(less =~= met);
    }
}

/// A message is blocked by no key exactly if none of its keys is checked out.
pub proof fn lemma_blocking_zero(keys: Seq<KeyName>, checked_out: Set<KeyName>)
    ensures
        blocking(keys, checked_out) == 0 <==> forall|i: int|
            0 <= i < keys.len() ==> !checked_out.contains(#[trigger] keys[i]),
{
    broadcast use vstd::set::group_set_axioms;
    broadcast use vstd::seq_lib::seq_to_set_is_finite;

    let met = keys.to_set().intersect(checked_out);
    if blocking(keys, checked_out) == 0 {
        assert forall|i: int| 0 <= i < keys.len() implies !checked_out.contains(
            #[trigger] keys[i],
        ) by {
            if checked_out.contains(keys[i]) {
                assert(keys.contains(keys[i]));
                assert(met.contains(keys[i]));
                assert(met.len() != 0);
            }
        }
    }
    if forall|i: int| 0 <= i < keys.len() ==> !checked_out.contains(#[trigger] keys[i]) {
        assert(met =~= Set::empty()) by {
            assert forall|k: KeyName| !met.contains(k) by {
                if met.contains(k) {
                    assert(keys.contains(k));
                    let i = choose|i: int| 0 <= i < keys.len() && keys[i] == k;
                    assert(!checked_out.contains(keys[i]));
                }
            }
        }
    }
}

/// Where no key occurs twice among `keys`, as many entries as different keys are checked
/// out.
pub proof fn lemma_blocking_distinct(keys: Seq<KeyName>, checked_out: Set<KeyName>)
    requires
        keys.no_duplicates(),
    ensures
        blocking(keys, checked_out) == count_in(keys, checked_out),
    decreases keys.len(),
{
    broadcast use vstd::set::group_set_axioms;
    broadcast use vstd::seq_lib::seq_to_set_is_finite;

    if keys.len() == 0 {
        assert(keys.to_set().intersect(checked_out) =~= Set::empty());
    } else {
        let front = keys.drop_last();
        let last = keys.last();
        lemma_blocking_distinct(front, checked_out);
        let met = front.to_set().intersect(checked_out);
        assert(!front.contains(last)) by {
            if front.contains(last) {
                let i = choose|i: int| 0 <= i < front.len() && front[i] == last;
                assert(keys[i] == keys[keys.len() - 1]);
            }
        }
        assert forall|k: KeyName| keys.to_set().contains(k) <==> front.to_set().contains(k) || k
            == last by {
            if keys.contains(k) {
                let i = choose|i: int| 0 <= i < keys.len() && keys[i] == k;
                if i < keys.len() - 1 {
                    assert(front[i] == k);
                }
            }
            if front.contains(k) {
                let i = choose|i: int| 0 <= i < front.len() && front[i] == k;
                assert(keys[i] == k);
            }
            if k == last {
                assert(keys[keys.len() - 1] == k);
            }
        }
        if checked_out.contains(last) {
            assert(!met.contains(last));
            assert(keys.to_set().intersect(checked_out) =~= met.insert(last));
        } else {
            assert(keys.to_set().intersect(checked_out) =~= met);
        }
    }
}

// -------------------------------------------------------------------- single moves

/// Demoting a queued message keeps the queue valid and partitioned.
pub proof fn lemma_demoted<T>(s: ChannelView<T>, id: i64)
    requires
        s.queue_valid(),
        s.partitioned(),
        s.messages.contains_key(id),
    ensures
        s.demoted(id).queue_valid(),
        s.demoted(id).partitioned(),
        s.demoted(id).messages.dom() == s.messages.dom(),
{
    let t = s.demoted(id);
    let rest = without(s.queue, id);
    lemma_without(s.queue, id);
    assert(s.queue.contains(id));
    let at = s.queue.index_of(id);
    assert(t.messages.dom() =~= s.messages.dom());
    assert(t.queue.no_duplicates()) by {
        assert forall|i: int, j: int|
            0 <= i < t.queue.len() && 0 <= j < t.queue.len() && i != j implies t.queue[i]
            != t.queue[j] by {
            if i < rest.len() {
                assert(rest.contains(rest[i]));
            }
            if j < rest.len() {
                assert(rest.contains(rest[j]));
            }
        }
    }
    assert forall|x: i64| t.queue.contains(x) <==> t.messages.contains_key(x) by {
        if t.queue.contains(x) {
            let i = choose|i: int| 0 <= i < t.queue.len() && t.queue[i] == x;
            if i < rest.len() {
                assert(rest[i] == x);
                assert(rest.contains(x));
                assert(x != id);
                assert(s.queue.contains(x));
                assert(s.messages.contains_key(x));
            } else {
                assert(x == id);
            }
        }
        if t.messages.contains_key(x) {
            if x == id {
                assert(t.queue[t.queue.len() - 1] == x);
            } else {
                assert(s.messages.contains_key(x));
                assert(s.queue.contains(x));
                assert(rest.contains(x));
                let i = choose|i: int| 0 <= i < rest.len() && rest[i] == x;
                assert(t.queue[i] == x);
            }
        }
    }
    assert forall|i: int, j: int|
        0 <= i < j < t.queue.len() && t.messages[t.queue[i]].conflicts
            > 0 implies t.messages[t.queue[j]].conflicts > 0 by {
        if j < rest.len() {
            let a = if i < at { i } else { i + 1 };
            let b = if j < at { j } else { j + 1 };
            assert(rest[i] == s.queue[a] && rest[j] == s.queue[b]);
            assert(rest.contains(rest[i]) && rest.contains(rest[j]));
        }
    }
}

/// Promoting a message keeps the queue valid and partitioned.
pub proof fn lemma_promoted<T>(s: ChannelView<T>, id: i64)
    requires
        s.queue_valid(),
        s.partitioned(),
    ensures
        s.promoted(id).queue_valid(),
        s.promoted(id).partitioned(),
        s.promoted(id).messages.dom() == s.messages.dom(),
{
    let t = s.promoted(id);
    if s.messages.contains_key(id) && s.messages[id].conflicts > 0 {
        assert(t.messages.dom() =~= s.messages.dom());
        assert(s.queue.contains(id));
        if s.messages[id].conflicts == 1 {
            let rest = without(s.queue, id);
            lemma_without(s.queue, id);
            let at = s.queue.index_of(id);
            assert(t.queue.no_duplicates()) by {
                assert forall|i: int, j: int|
                    0 <= i < t.queue.len() && 0 <= j < t.queue.len() && i != j implies t.queue[i]
                    != t.queue[j] by {
                    if i > 0 {
                        assert(rest.contains(rest[i - 1]));
                    }
                    if j > 0 {
                        assert(rest.contains(rest[j - 1]));
                    }
                }
            }
            assert forall|x: i64| t.queue.contains(x) <==> t.messages.contains_key(x) by {
                if t.queue.contains(x) {
                    let i = choose|i: int| 0 <= i < t.queue.len() && t.queue[i] == x;
                    if i > 0 {
                        assert(rest[i - 1] == x);
                        assert(rest.contains(x));
                        assert(x != id);
                        assert(s.queue.contains(x));
                        assert(s.messages.contains_key(x));
                    } else {
                        assert(x == id);
                    }
                }
                if t.messages.contains_key(x) {
                    if x == id {
                        assert(t.queue[0] == x);
                    } else {
                        assert(s.messages.contains_key(x));
                        assert(s.queue.contains(x));
                        assert(rest.contains(x));
                        let i = choose|i: int| 0 <= i < rest.len() && rest[i] == x;
                        assert(t.queue[i + 1] == x);
                    }
                }
            }
            assert forall|i: int, j: int|
                0 <= i < j < t.queue.len() && t.messages[t.queue[i]].conflicts
                    > 0 implies t.messages[t.queue[j]].conflicts > 0 by {
                if i > 0 {
                    let a = if i - 1 < at { i - 1 } else { i };
                    let b = if j - 1 < at { j - 1 } else { j };
                    assert(rest[i - 1] == s.queue[a] && rest[j - 1] == s.queue[b]);
                    assert(rest.contains(rest[i - 1]) && rest.contains(rest[j - 1]));
                }
            }
        } else {
            assert forall|i: int, j: int|
                0 <= i < j < t.queue.len() && t.messages[t.queue[i]].conflicts
                    > 0 implies t.messages[t.queue[j]].conflicts > 0 by {
                assert(s.messages[s.queue[i]].conflicts > 0);
                assert(s.messages[s.queue[j]].conflicts > 0);
            }
        }
    }
}

// -------------------------------------------------------------------- runs of moves

/// Demoting several queued messages, each once, keeps the queue valid and partitioned, and
/// raises the conflict count of each of them by one.
pub proof fn lemma_demoted_all<T>(s: ChannelView<T>, ids: Seq<i64>)
    requires
        s.queue_valid(),
        s.partitioned(),
        ids.no_duplicates(),
        forall|i: int| 0 <= i < ids.len() ==> s.messages.contains_key(#[trigger] ids[i]),
    ensures
        s.demoted_all(ids).queue_valid(),
        s.demoted_all(ids).partitioned(),
        s.demoted_all(ids).messages.dom() == s.messages.dom(),
        forall|id: i64| #[trigger]
            s.messages.contains_key(id) ==> s.demoted_all(ids).messages[id]
                == s.messages[id].with_conflicts(
                if ids.contains(id) {
                    raised(s.messages[id].conflicts)
                } else {
                    s.messages[id].conflicts
                },
            ),
    decreases ids.len(),
{
    if ids.len() > 0 {
        let front = ids.drop_last();
        let last = ids.last();
        assert forall|i: int| 0 <= i < front.len() implies s.messages.contains_key(
            #[trigger] front[i],
        ) by {
            assert(front[i] == ids[i]);
        }
        lemma_demoted_all(s, front);
        let mid = s.demoted_all(front);
        assert(s.messages.contains_key(ids[ids.len() - 1]));
        assert(mid.messages.dom().contains(last));
        lemma_demoted(mid, last);
        assert(!front.contains(last)) by {
            if front.contains(last) {
                let i = choose|i: int| 0 <= i < front.len() && front[i] == last;
                assert(ids[i] == ids[ids.len() - 1]);
            }
        }
        assert forall|id: i64| #[trigger] s.messages.contains_key(id) implies s.demoted_all(
            ids,
        ).messages[id] == s.messages[id].with_conflicts(
            if ids.contains(id) {
                raised(s.messages[id].conflicts)
            } else {
                s.messages[id].conflicts
            },
        ) by {
            if id == last {
                assert(ids[ids.len() - 1] == id);
            } else {
                if ids.contains(id) {
                    let i = choose|i: int| 0 <= i < ids.len() && ids[i] == id;
                    assert(front[i] == id);
                }
                if front.contains(id) {
                    let i = choose|i: int| 0 <= i < front.len() && front[i] == id;
                    assert(ids[i] == id);
                }
            }
        }
    } else {
        assert forall|id: i64| #[trigger] s.messages.contains_key(id) implies s.messages[id]
            == s.messages[id].with_conflicts(s.messages[id].conflicts) by {}
    }
}

/// Promoting several messages, each once, keeps the queue valid and partitioned, and lowers
/// the conflict count of each of them that is queued by one.
pub proof fn lemma_promoted_all<T>(s: ChannelView<T>, ids: Seq<i64>)
    requires
        s.queue_valid(),
        s.partitioned(),
        ids.no_duplicates(),
    ensures
        s.promoted_all(ids).queue_valid(),
        s.promoted_all(ids).partitioned(),
        s.promoted_all(ids).messages.dom() == s.messages.dom(),
        forall|id: i64| #[trigger]
            s.messages.contains_key(id) ==> s.promoted_all(ids).messages[id]
                == s.messages[id].with_conflicts(
                if ids.contains(id) {
                    lowered(s.messages[id].conflicts)
                } else {
                    s.messages[id].conflicts
                },
            ),
    decreases ids.len(),
{
    if ids.len() > 0 {
        let front = ids.drop_last();
        let last = ids.last();
        lemma_promoted_all(s, front);
        let mid = s.promoted_all(front);
        lemma_promoted(mid, last);
        assert(!front.contains(last)) by {
            if front.contains(last) {
                let i = choose|i: int| 0 <= i < front.len() && front[i] == last;
                assert(ids[i] == ids[ids.len() - 1]);
            }
        }
        assert forall|id: i64| #[trigger] s.messages.contains_key(id) implies s.promoted_all(
            ids,
        ).messages[id] == s.messages[id].with_conflicts(
            if ids.contains(id) {
                lowered(s.messages[id].conflicts)
            } else {
                s.messages[id].conflicts
            },
        ) by {
            assert(mid.messages.dom().contains(id));
            if id == last {
                assert(ids[ids.len() - 1] == id);
            } else {
                if ids.contains(id) {
                    let i = choose|i: int| 0 <= i < ids.len() && ids[i] == id;
                    assert(front[i] == id);
                }
                if front.contains(id) {
                    let i = choose|i: int| 0 <= i < front.len() && front[i] == id;
                    assert(ids[i] == id);
                }
            }
        }
    } else {
        assert forall|id: i64| #[trigger] s.messages.contains_key(id) implies s.messages[id]
            == s.messages[id].with_conflicts(s.messages[id].conflicts) by {}
    }
}

// -------------------------------------------------------------------- release

/// Releasing a key takes a valid channel to a valid channel.
pub proof fn lemma_released_wf<T>(s: ChannelView<T>, key: KeyName)
    requires
        s.wf(),
    ensures
        s.released(key).wf(),
        s.released(key).queue.len() == s.queue.len(),
        s.released(key).messages.dom() == s.messages.dom(),
        s.released(key).pending == s.pending,
        s.released(key).checked_out == s.checked_out.remove(key),
        s.released(key).last_id == s.last_id,
        s.released(key).capacity == s.capacity,
        !s.checked_out.contains(key) ==> s.released(key) == s,
        forall|id: i64| #[trigger]
            s.messages.contains_key(id) ==> s.released(key).messages[id]
                == s.messages[id].with_conflicts(
                if s.checked_out.contains(key) && s.messages[id].keys.contains(key) {
                    lowered(s.messages[id].conflicts)
                } else {
                    s.messages[id].conflicts
                },
            ),
{
    let ids = ids_of(s.conflicted, key);
    let t = ChannelView {
        checked_out: s.checked_out.remove(key),
        conflicted: s.conflicted.remove(key),
        ..s
    };
    let r = t.promoted_all(ids);
    assert(r == s.released(key));
    if !s.checked_out.contains(key) {
        assert(!s.conflicted.contains_key(key));
        assert(t.checked_out =~= s.checked_out);
        assert(t.conflicted =~= s.conflicted);
        assert(t == s);
        assert(ids.len() == 0);
        assert(r == s);
        assert forall|id: i64| #[trigger] s.messages.contains_key(id) implies s.messages[id]
            == s.messages[id].with_conflicts(s.messages[id].conflicts) by {}
    } else {
        assert(ids == ids_of(s.pending, key));
        assert(ids.no_duplicates()) by {
            if s.pending.contains_key(key) {
                assert(s.pending[key].no_duplicates());
            }
        }
        lemma_promoted_all(t, ids);
        lemma_promoted_all_frame(t, ids);
        lemma_queue_len(s);
        lemma_queue_len(r);
        assert forall|id: i64| #[trigger] r.messages.contains_key(id) implies r.messages[id].keys
            == s.messages[id].keys by {
            assert(s.messages.contains_key(id));
        }
        assert(r.queue_valid());
        assert(r.pending_valid()) by {
            assert forall|k: KeyName, id: i64|
                #![trigger ids_of(r.pending, k).contains(id)]
                ids_of(r.pending, k).contains(id) <==> r.messages.contains_key(id)
                    && r.messages[id].keys.contains(k) by {
                assert(ids_of(s.pending, k).contains(id) <==> s.messages.contains_key(id)
                    && s.messages[id].keys.contains(k));
                if r.messages.contains_key(id) {
                    assert(s.messages.contains_key(id));
                }
            }
        }
        assert(r.conflicted_valid()) by {
            assert forall|k: KeyName| #[trigger] r.conflicted.contains_key(k) implies r.checked_out.contains(
                k,
            ) by {
                assert(s.conflicted.contains_key(k));
            }
            assert forall|k: KeyName| #[trigger] r.checked_out.contains(k) implies r.conflicted.contains_key(
                k,
            ) == r.pending.contains_key(k) && ids_of(r.conflicted, k) == ids_of(r.pending, k) by {
                assert(s.checked_out.contains(k));
            }
        }
        assert(r.conflicts_valid()) by {
            assert forall|id: i64| #[trigger] r.messages.contains_key(id) implies blocking(
                r.messages[id].keys,
                r.checked_out,
            ) <= r.messages[id].conflicts <= max_conflicts() by {
                assert(s.messages.contains_key(id));
                let keys = s.messages[id].keys;
                lemma_blocking_remove(keys, s.checked_out, key);
                assert(ids_of(s.pending, key).contains(id) <==> s.messages.contains_key(id)
                    && keys.contains(key));
            }
        }
        assert forall|id: i64| #[trigger] s.messages.contains_key(id) implies r.messages[id]
            == s.messages[id].with_conflicts(
            if s.messages[id].keys.contains(key) {
                lowered(s.messages[id].conflicts)
            } else {
                s.messages[id].conflicts
            },
        ) by {
            assert(t.messages.contains_key(id));
            assert(ids_of(s.pending, key).contains(id) <==> s.messages.contains_key(id)
                && s.messages[id].keys.contains(key));
        }
    }
}

/// Releasing keys, one after the other, takes a valid channel to a valid channel in which
/// none of them is checked out.
pub proof fn lemma_released_all_wf<T>(s: ChannelView<T>, keys: Seq<KeyName>)
    requires
        s.wf(),
    ensures
        s.released_all(keys).wf(),
        s.released_all(keys).checked_out == s.checked_out.difference(keys.to_set()),
        s.released_all(keys).messages.dom() == s.messages.dom(),
        s.released_all(keys).queue.len() == s.queue.len(),
        s.released_all(keys).pending == s.pending,
        s.released_all(keys).last_id == s.last_id,
        s.released_all(keys).capacity == s.capacity,
        forall|x: i64| #[trigger]
            s.messages.contains_key(x) ==> {
                let now = s.released_all(keys).messages[x];
                &&& now.keys == s.messages[x].keys
                &&& now.data == s.messages[x].data
                &&& now.conflicts <= s.messages[x].conflicts
                &&& !shares_key(keys, s.messages[x].keys) ==> now == s.messages[x]
            },
    decreases keys.len(),
{
    if keys.len() == 0 {
        assert(s.checked_out.difference(keys.to_set()) =~= s.checked_out);
    } else {
        let front = keys.drop_last();
        let last = keys.last();
        lemma_released_all_wf(s, front);
        let mid = s.released_all(front);
        lemma_released_wf(mid, last);
        assert forall|x: i64| #[trigger] s.messages.contains_key(x) implies {
            let now = s.released_all(keys).messages[x];
            &&& now.keys == s.messages[x].keys
            &&& now.data == s.messages[x].data
            &&& now.conflicts <= s.messages[x].conflicts
            &&& !shares_key(keys, s.messages[x].keys) ==> now == s.messages[x]
        } by {
            assert(mid.messages.contains_key(x));
            let carried = s.messages[x].keys;
            if carried.contains(last) {
                assert(keys[keys.len() - 1] == last);
                assert(shares_key(keys, carried));
            }
            if shares_key(front, carried) {
                let i = choose|i: int| 0 <= i < front.len() && carried.contains(#[trigger] front[i]);
                assert(keys[i] == front[i]);
                assert(shares_key(keys, carried));
            }
        }
        assert(s.checked_out.difference(keys.to_set()) =~= s.checked_out.difference(
            front.to_set(),
        ).remove(last)) by {
            assert forall|k: KeyName| keys.contains(k) <==> front.contains(k) || k == last by {
                if keys.contains(k) {
                    let i = choose|i: int| 0 <= i < keys.len() && keys[i] == k;
                    if i < keys.len() - 1 {
                        assert(front[i] == k);
                    }
                }
                if front.contains(k) {
                    let i = choose|i: int| 0 <= i < front.len() && front[i] == k;
                    assert(keys[i] == k);
                }
                if k == last {
                    assert(keys[keys.len() - 1] == k);
                }
            }
        }
    }
}

/// In a valid queue stand as many ids as there are queued messages.
pub proof fn lemma_queue_len<T>(s: ChannelView<T>)
    requires
        s.queue_valid(),
    ensures
        s.queue.to_set() == s.messages.dom(),
        s.messages.dom().finite(),
        s.queue.len() == s.messages.dom().len(),
{
    broadcast use vstd::seq_lib::seq_to_set_is_finite;

    assert(s.queue.to_set() =~= s.messages.dom());
    s.queue.unique_seq_to_set();
}

// -------------------------------------------------------------------- extraction

/// What holds while the message `id` with the keys `keys` is being extracted, after the
/// first `done` of its keys were checked out: the channel is valid but for `id`, which is
/// still pending under the keys that are yet to come, none of which is checked out.
pub open spec fn extracting<T>(s: ChannelView<T>, id: i64, keys: Seq<KeyName>, done: int) -> bool {
    &&& s.queue_valid()
    &&& !s.messages.contains_key(id)
    &&& forall|key: KeyName| #[trigger]
        s.pending.contains_key(key) ==> s.pending[key].len() > 0 && s.pending[key].no_duplicates()
    &&& forall|key: KeyName, x: i64|
        #![trigger ids_of(s.pending, key).contains(x)]
        ids_of(s.pending, key).contains(x) <==> (s.messages.contains_key(x)
            && s.messages[x].keys.contains(key)) || (x == id && keys.contains(key) && !keys.take(
            done,
        ).contains(key))
    &&& s.conflicted_valid()
    &&& s.conflicts_valid()
    &&& forall|key: KeyName|
        keys.contains(key) && !keys.take(done).contains(key) ==> !(
        #[trigger] s.checked_out.contains(key))
    &&& s.partitioned()
}

/// Taking a deliverable message out of a valid channel starts its extraction.
pub proof fn lemma_taken<T>(s: ChannelView<T>, id: i64)
    requires
        s.wf(),
        s.deliverable(id),
    ensures
        extracting(s.taken(id), id, s.messages[id].keys, 0),
{
    let t = s.taken(id);
    let keys = s.messages[id].keys;
    let rest = without(s.queue, id);
    lemma_without(s.queue, id);
    assert(s.queue.contains(id));
    let at = s.queue.index_of(id);
    assert(t.queue_valid()) by {
        assert forall|x: i64| t.queue.contains(x) <==> t.messages.contains_key(x) by {
            if t.queue.contains(x) {
                assert(x != id);
                assert(s.queue.contains(x));
                assert(s.messages.contains_key(x));
            }
            if t.messages.contains_key(x) {
                assert(s.messages.contains_key(x));
                assert(s.queue.contains(x));
            }
        }
        assert forall|x: i64| #[trigger] t.messages.contains_key(x) implies 0 < x <= t.last_id
            && t.messages[x].keys.len() <= usize::MAX by {
            assert(s.messages.contains_key(x));
        }
    }
    assert(keys.take(0) =~= Seq::<KeyName>::empty());
    assert forall|key: KeyName, x: i64|
        #![trigger ids_of(t.pending, key).contains(x)]
        ids_of(t.pending, key).contains(x) <==> (t.messages.contains_key(x)
            && t.messages[x].keys.contains(key)) || (x == id && keys.contains(key) && !keys.take(
            0,
        ).contains(key)) by {
        assert(ids_of(s.pending, key).contains(x) <==> s.messages.contains_key(x)
            && s.messages[x].keys.contains(key));
    }
    assert(t.conflicts_valid()) by {
        assert forall|x: i64| #[trigger] t.messages.contains_key(x) implies blocking(
            t.messages[x].keys,
            t.checked_out,
        ) <= t.messages[x].conflicts <= max_conflicts() by {
            assert(s.messages.contains_key(x));
        }
    }
    assert forall|key: KeyName| keys.contains(key) && !keys.take(0).contains(key) implies !(
    #[trigger] t.checked_out.contains(key)) by {
        lemma_blocking_zero(keys, s.checked_out);
        let i = choose|i: int| 0 <= i < keys.len() && keys[i] == key;
        assert(!s.checked_out.contains(keys[i]));
    }
    assert(t.partitioned()) by {
        assert forall|i: int, j: int|
            0 <= i < j < t.queue.len() && t.messages[t.queue[i]].conflicts
                > 0 implies t.messages[t.queue[j]].conflicts > 0 by {
            let a = if i < at { i } else { i + 1 };
            let b = if j < at { j } else { j + 1 };
            assert(rest[i] == s.queue[a] && rest[j] == s.queue[b]);
            assert(rest.contains(rest[i]) && rest.contains(rest[j]));
        }
    }
}

/// Checking out the next key of the message that is being extracted carries the extraction
/// one key further.
pub proof fn lemma_checked_out_key<T>(s: ChannelView<T>, id: i64, keys: Seq<KeyName>, done: int)
    requires
        0 <= done < keys.len(),
        extracting(s, id, keys, done),
    ensures
        extracting(s.checked_out_key(id, keys[done]), id, keys, done + 1),
        s.checked_out_key(id, keys[done]).last_id == s.last_id,
        s.checked_out_key(id, keys[done]).capacity == s.capacity,
        s.checked_out_key(id, keys[done]).messages.dom() == s.messages.dom(),
        s.checked_out_key(id, keys[done]).checked_out == s.checked_out.insert(keys[done]),
        forall|x: i64| #[trigger]
            s.messages.contains_key(x) ==> s.checked_out_key(id, keys[done]).messages[x]
                == s.messages[x].with_conflicts(
                if s.messages[x].keys.contains(keys[done]) {
                    raised(s.messages[x].conflicts)
                } else {
                    s.messages[x].conflicts
                },
            ),
{
    let key = keys[done];
    let listed = ids_of(s.pending, key);
    let others = without(listed, id);
    let t = ChannelView {
        checked_out: s.checked_out.insert(key),
        pending: put(s.pending, key, others),
        conflicted: put(s.conflicted, key, others),
        ..s
    };
    let r = t.demoted_all(others);
    assert(r == s.checked_out_key(id, key));
    let earlier = keys.take(done);
    let now = keys.take(done + 1);
    assert(now =~= earlier.push(key));
    assert forall|k: KeyName| now.contains(k) <==> earlier.contains(k) || k == key by {
        if now.contains(k) {
            let i = choose|i: int| 0 <= i < now.len() && now[i] == k;
            if i < done {
                assert(earlier[i] == k);
            }
        }
        if earlier.contains(k) {
            let i = choose|i: int| 0 <= i < earlier.len() && earlier[i] == k;
            assert(now[i] == k);
        }
        if k == key {
            assert(now[done] == k);
        }
    }
    assert(keys.contains(key));
    assert(listed.no_duplicates()) by {
        if s.pending.contains_key(key) {
            assert(s.pending[key].no_duplicates());
        }
    }
    lemma_without(listed, id);
    // the others are the queued messages that carry the key
    assert forall|x: i64| others.contains(x) <==> s.messages.contains_key(x)
        && s.messages[x].keys.contains(key) by {
        assert(ids_of(s.pending, key).contains(x) <==> (s.messages.contains_key(x)
            && s.messages[x].keys.contains(key)) || (x == id && keys.contains(key)
            && !earlier.contains(key)));
    }
    assert forall|i: int| 0 <= i < others.len() implies t.messages.contains_key(
        #[trigger] others[i],
    ) by {
        assert(others.contains(others[i]));
    }
    lemma_demoted_all(t, others);
    lemma_demoted_all_frame(t, others);
    assert(r.messages.dom() =~= s.messages.dom());
    assert forall|x: i64| #[trigger] r.messages.contains_key(x) implies r.messages[x].keys
        == s.messages[x].keys by {
        assert(t.messages.contains_key(x));
    }
    assert(r.queue_valid());
    assert forall|k: KeyName| #[trigger] r.pending.contains_key(k) implies r.pending[k].len() > 0
        && r.pending[k].no_duplicates() by {
        if k != key {
            assert(s.pending.contains_key(k));
        }
    }
    assert forall|k: KeyName, x: i64|
        #![trigger ids_of(r.pending, k).contains(x)]
        ids_of(r.pending, k).contains(x) <==> (r.messages.contains_key(x)
            && r.messages[x].keys.contains(k)) || (x == id && keys.contains(k) && !now.contains(
            k,
        )) by {
        assert(ids_of(s.pending, k).contains(x) <==> (s.messages.contains_key(x)
            && s.messages[x].keys.contains(k)) || (x == id && keys.contains(k)
            && !earlier.contains(k)));
        if r.messages.contains_key(x) {
            assert(s.messages.contains_key(x));
        }
        if k == key {
            assert(ids_of(r.pending, k) == others);
        } else {
            assert(ids_of(r.pending, k) == ids_of(s.pending, k));
        }
    }
    assert(r.conflicted_valid()) by {
        assert forall|k: KeyName| #[trigger] r.conflicted.contains_key(k) implies r.checked_out.contains(
            k,
        ) by {
            if k != key {
                assert(s.conflicted.contains_key(k));
            }
        }
        assert forall|k: KeyName| #[trigger] r.checked_out.contains(k) implies r.conflicted.contains_key(
            k,
        ) == r.pending.contains_key(k) && ids_of(r.conflicted, k) == ids_of(r.pending, k) by {
            if k != key {
                assert(s.checked_out.contains(k));
            }
        }
    }
    assert(r.conflicts_valid()) by {
        assert forall|x: i64| #[trigger] r.messages.contains_key(x) implies blocking(
            r.messages[x].keys,
            r.checked_out,
        ) <= r.messages[x].conflicts <= max_conflicts() by {
            assert(s.messages.contains_key(x));
            assert(t.messages.contains_key(x));
            let carried = s.messages[x].keys;
            lemma_blocking_insert(carried, s.checked_out, key);
            lemma_blocking_bounds(carried, s.checked_out.insert(key));
            assert(others.contains(x) <==> carried.contains(key));
        }
    }
    assert forall|k: KeyName| keys.contains(k) && !now.contains(k) implies !(
    #[trigger] r.checked_out.contains(k)) by {
        assert(!s.checked_out.contains(k));
    }
    assert forall|x: i64| #[trigger] s.messages.contains_key(x) implies r.messages[x]
        == s.messages[x].with_conflicts(
        if s.messages[x].keys.contains(key) {
            raised(s.messages[x].conflicts)
        } else {
            s.messages[x].conflicts
        },
    ) by {
        assert(t.messages.contains_key(x));
        assert(others.contains(x) <==> s.messages[x].keys.contains(key));
    }
}

/// Checking out the first `done` keys of the message that is being extracted carries the
/// extraction that far.
pub proof fn lemma_checked_out_keys<T>(s: ChannelView<T>, id: i64, keys: Seq<KeyName>, done: int)
    requires
        0 <= done <= keys.len(),
        extracting(s, id, keys, 0),
    ensures
        extracting(s.checked_out_keys(id, keys.take(done)), id, keys, done),
        s.checked_out_keys(id, keys.take(done)).last_id == s.last_id,
        s.checked_out_keys(id, keys.take(done)).capacity == s.capacity,
        s.checked_out_keys(id, keys.take(done)).messages.dom() == s.messages.dom(),
        s.checked_out_keys(id, keys.take(done)).checked_out == s.checked_out.union(
            keys.take(done).to_set(),
        ),
    decreases done,
{
    if done == 0 {
        assert(keys.take(0) =~= Seq::<KeyName>::empty());
        assert(s.checked_out.union(keys.take(0).to_set()) =~= s.checked_out);
    } else {
        let earlier = keys.take(done - 1);
        let now = keys.take(done);
        assert(now.drop_last() =~= earlier);
        assert(now.last() == keys[done - 1]);
        lemma_checked_out_keys(s, id, keys, done - 1);
        let mid = s.checked_out_keys(id, earlier);
        lemma_checked_out_key(mid, id, keys, done - 1);
        assert(s.checked_out.union(now.to_set()) =~= s.checked_out.union(
            earlier.to_set(),
        ).insert(keys[done - 1])) by {
            assert forall|k: KeyName| now.contains(k) <==> earlier.contains(k) || k == keys[done
                - 1] by {
                if now.contains(k) {
                    let i = choose|i: int| 0 <= i < now.len() && now[i] == k;
                    if i < done - 1 {
                        assert(earlier[i] == k);
                    }
                }
                if earlier.contains(k) {
                    let i = choose|i: int| 0 <= i < earlier.len() && earlier[i] == k;
                    assert(now[i] == k);
                }
                if k == keys[done - 1] {
                    assert(now[done - 1] == k);
                }
            }
        }
    }
}

/// While a message is being extracted, a queued message that carries none of the keys
/// checked out so far stays as it is, and one that carries one of them has a conflict.
pub proof fn lemma_checked_out_keys_messages<T>(
    s: ChannelView<T>,
    id: i64,
    keys: Seq<KeyName>,
    done: int,
)
    requires
        0 <= done <= keys.len(),
        extracting(s, id, keys, 0),
    ensures
        forall|x: i64| #[trigger]
            s.messages.contains_key(x) ==> {
                let now = s.checked_out_keys(id, keys.take(done)).messages[x];
                &&& now.keys == s.messages[x].keys
                &&& now.data == s.messages[x].data
                &&& !shares_key(keys.take(done), s.messages[x].keys) ==> now == s.messages[x]
                &&& shares_key(keys.take(done), s.messages[x].keys) ==> now.conflicts > 0
            },
    decreases done,
{
    if done == 0 {
        assert(keys.take(0) =~= Seq::<KeyName>::empty());
    } else {
        let earlier = keys.take(done - 1);
        let now = keys.take(done);
        let key = keys[done - 1];
        assert(now.drop_last() =~= earlier);
        assert(now.last() == key);
        lemma_checked_out_keys_messages(s, id, keys, done - 1);
        lemma_checked_out_keys(s, id, keys, done - 1);
        let mid = s.checked_out_keys(id, earlier);
        lemma_checked_out_key(mid, id, keys, done - 1);
        assert forall|x: i64| #[trigger] s.messages.contains_key(x) implies {
            let after = s.checked_out_keys(id, now).messages[x];
            &&& after.keys == s.messages[x].keys
            &&& after.data == s.messages[x].data
            &&& !shares_key(now, s.messages[x].keys) ==> after == s.messages[x]
            &&& shares_key(now, s.messages[x].keys) ==> after.conflicts > 0
        } by {
            assert(mid.messages.contains_key(x));
            let carried = s.messages[x].keys;
            if shares_key(earlier, carried) {
                let i = choose|i: int| 0 <= i < earlier.len() && carried.contains(#[trigger] earlier[i]);
                assert(now[i] == earlier[i]);
                assert(shares_key(now, carried));
            }
            if carried.contains(key) {
                assert(now[done - 1] == key);
                assert(shares_key(now, carried));
            }
            if shares_key(now, carried) {
                let i = choose|i: int| 0 <= i < now.len() && carried.contains(#[trigger] now[i]);
                if i < done - 1 {
                    assert(earlier[i] == now[i]);
                    assert(shares_key(earlier, carried));
                } else {
                    assert(carried.contains(key));
                }
            }
        }
    }
}

/// Extracting a deliverable message takes a valid channel to a valid channel, in which the
/// message is no longer queued and its keys are checked out. A queued message that shares
/// no key with it stays as it is; one that shares a key with it has a conflict afterwards.
pub proof fn lemma_extracted_wf<T>(s: ChannelView<T>, id: i64)
    requires
        s.wf(),
        s.deliverable(id),
    ensures
        s.extracted(id).wf(),
        s.extracted(id).messages.dom() == s.messages.dom().remove(id),
        s.extracted(id).queue.len() == s.queue.len() - 1,
        s.extracted(id).checked_out == s.checked_out.union(s.messages[id].keys.to_set()),
        s.extracted(id).last_id == s.last_id,
        s.extracted(id).capacity == s.capacity,
        forall|x: i64|
            x != id && #[trigger] s.messages.contains_key(x) ==> {
                let now = s.extracted(id).messages[x];
                &&& now.keys == s.messages[x].keys
                &&& now.data == s.messages[x].data
                &&& !shares_key(s.messages[id].keys, s.messages[x].keys) ==> now == s.messages[x]
                &&& shares_key(s.messages[id].keys, s.messages[x].keys) ==> now.conflicts > 0
            },
{
    let keys = s.messages[id].keys;
    let t = s.taken(id);
    lemma_taken(s, id);
    lemma_checked_out_keys(t, id, keys, keys.len() as int);
    lemma_checked_out_keys_messages(t, id, keys, keys.len() as int);
    assert forall|x: i64| x != id && #[trigger] s.messages.contains_key(x) implies t.messages.contains_key(
        x,
    ) by {}
    assert(keys.take(keys.len() as int) =~= keys);
    let r = s.extracted(id);
    assert(r.pending_valid()) by {
        assert forall|key: KeyName, x: i64|
            #![trigger ids_of(r.pending, key).contains(x)]
            ids_of(r.pending, key).contains(x) <==> r.messages.contains_key(x)
                && r.messages[x].keys.contains(key) by {
            assert(ids_of(r.pending, key).contains(x) <==> (r.messages.contains_key(x)
                && r.messages[x].keys.contains(key)) || (x == id && keys.contains(key)
                && !keys.take(keys.len() as int).contains(key)));
        }
    }
    lemma_queue_len(s);
    lemma_queue_len(r);
    assert(t.messages.dom() =~= s.messages.dom().remove(id));
}

// -------------------------------------------------------------------- admission

/// Whether no table holds `id` yet.
pub open spec fn unlisted<T>(s: ChannelView<T>, id: i64) -> bool {
    &&& forall|key: KeyName| !(#[trigger] ids_of(s.pending, key)).contains(id)
    &&& forall|key: KeyName| !(#[trigger] ids_of(s.conflicted, key)).contains(id)
}

/// Recording the keys of a new message puts its id at the end of the pending ids of each of
/// its keys, and at the end of the conflicted ids of each of them that is checked out.
pub proof fn lemma_registered<T>(s: ChannelView<T>, id: i64, keys: Seq<KeyName>)
    requires
        unlisted(s, id),
    ensures
        forall|key: KeyName| #[trigger]
            s.registered(id, keys).pending.contains_key(key) <==> s.pending.contains_key(key)
                || keys.contains(key),
        forall|key: KeyName| #[trigger]
            ids_of(s.registered(id, keys).pending, key) == if keys.contains(key) {
                ids_of(s.pending, key).push(id)
            } else {
                ids_of(s.pending, key)
            },
        forall|key: KeyName| #[trigger]
            s.registered(id, keys).conflicted.contains_key(key) <==> s.conflicted.contains_key(
                key,
            ) || (keys.contains(key) && s.checked_out.contains(key)),
        forall|key: KeyName| #[trigger]
            ids_of(s.registered(id, keys).conflicted, key) == if keys.contains(key)
                && s.checked_out.contains(key) {
                ids_of(s.conflicted, key).push(id)
            } else {
                ids_of(s.conflicted, key)
            },
    decreases keys.len(),
{
    if keys.len() > 0 {
        let front = keys.drop_last();
        let last = keys.last();
        lemma_registered(s, id, front);
        lemma_registered_frame(s, id, front);
        let mid = s.registered(id, front);
        let r = s.registered(id, keys);
        assert(r == mid.registered_key(id, last));
        assert forall|k: KeyName| keys.contains(k) <==> front.contains(k) || k == last by {
            if keys.contains(k) {
                let i = choose|i: int| 0 <= i < keys.len() && keys[i] == k;
                if i < keys.len() - 1 {
                    assert(front[i] == k);
                }
            }
            if front.contains(k) {
                let i = choose|i: int| 0 <= i < front.len() && front[i] == k;
                assert(keys[i] == k);
            }
            if k == last {
                assert(keys[keys.len() - 1] == k);
            }
        }
        let listed = ids_of(mid.pending, last);
        assert(!ids_of(s.pending, last).contains(id));
        if front.contains(last) {
            assert(listed == ids_of(s.pending, last).push(id));
            assert(listed[listed.len() - 1] == id);
            assert(with_id(listed, id) == listed);
        } else {
            assert(listed == ids_of(s.pending, last));
            assert(with_id(listed, id) == listed.push(id));
        }
        let blocked = ids_of(mid.conflicted, last);
        assert(!ids_of(s.conflicted, last).contains(id));
        if s.checked_out.contains(last) {
            if front.contains(last) {
                assert(blocked == ids_of(s.conflicted, last).push(id));
                assert(blocked[blocked.len() - 1] == id);
                assert(with_id(blocked, id) == blocked);
            } else {
                assert(blocked == ids_of(s.conflicted, last));
                assert(with_id(blocked, id) == blocked.push(id));
            }
        }
        assert forall|key: KeyName| #[trigger]
            ids_of(r.pending, key) == if keys.contains(key) {
                ids_of(s.pending, key).push(id)
            } else {
                ids_of(s.pending, key)
            } by {
            if key != last {
                assert(ids_of(r.pending, key) == ids_of(mid.pending, key));
            }
        }
        assert forall|key: KeyName| #[trigger]
            ids_of(r.conflicted, key) == if keys.contains(key) && s.checked_out.contains(key) {
                ids_of(s.conflicted, key).push(id)
            } else {
                ids_of(s.conflicted, key)
            } by {
            if key != last {
                assert(ids_of(r.conflicted, key) == ids_of(mid.conflicted, key));
            }
        }
        assert forall|key: KeyName| #[trigger]
            r.pending.contains_key(key) <==> s.pending.contains_key(key) || keys.contains(key) by {
            if key != last {
                assert(r.pending.contains_key(key) == mid.pending.contains_key(key));
            }
        }
        assert forall|key: KeyName| #[trigger]
            r.conflicted.contains_key(key) <==> s.conflicted.contains_key(key) || (keys.contains(
                key,
            ) && s.checked_out.contains(key)) by {
            if key != last {
                assert(r.conflicted.contains_key(key) == mid.conflicted.contains_key(key));
            }
        }
    }
}

/// Admitting a message takes a valid channel to a valid channel.
pub proof fn lemma_admitted_wf<T>(s: ChannelView<T>, keys: Seq<KeyName>, data: T)
    requires
        s.wf(),
        s.last_id < i64::MAX,
        keys.len() <= usize::MAX,
    ensures
        s.admitted(keys, data).wf(),
        s.admitted(keys, data).queue.len() == s.queue.len() + 1,
        s.admitted(keys, data).messages.dom() == s.messages.dom().insert(s.next_id()),
        !s.messages.contains_key(s.next_id()),
        s.admitted(keys, data).checked_out == s.checked_out,
        s.admitted(keys, data).capacity == s.capacity,
{
    let id = s.next_id();
    let r = s.admitted(keys, data);
    let conflicts = count_in(keys, s.checked_out);
    assert(!s.messages.contains_key(id)) by {
        if s.messages.contains_key(id) {
            assert(0 < id <= s.last_id);
        }
    }
    assert(unlisted(s, id)) by {
        assert forall|key: KeyName| !(#[trigger] ids_of(s.pending, key)).contains(id) by {
            assert(ids_of(s.pending, key).contains(id) <==> s.messages.contains_key(id)
                && s.messages[id].keys.contains(key));
        }
        assert forall|key: KeyName| !(#[trigger] ids_of(s.conflicted, key)).contains(id) by {
            if s.conflicted.contains_key(key) {
                assert(s.checked_out.contains(key));
                assert(ids_of(s.conflicted, key) == ids_of(s.pending, key));
                assert(!ids_of(s.pending, key).contains(id));
            }
        }
    }
    lemma_registered(s, id, keys);
    lemma_registered_frame(s, id, keys);
    lemma_blocking_bounds(keys, s.checked_out);
    assert(!s.queue.contains(id));
    assert(r.queue_valid()) by {
        assert forall|i: int, j: int|
            0 <= i < r.queue.len() && 0 <= j < r.queue.len() && i != j implies r.queue[i]
            != r.queue[j] by {
            if conflicts == 0 {
                if i > 0 {
                    assert(s.queue.contains(s.queue[i - 1]));
                }
                if j > 0 {
                    assert(s.queue.contains(s.queue[j - 1]));
                }
            } else {
                if i < s.queue.len() {
                    assert(s.queue.contains(s.queue[i]));
                }
                if j < s.queue.len() {
                    assert(s.queue.contains(s.queue[j]));
                }
            }
        }
        assert forall|x: i64| r.queue.contains(x) <==> r.messages.contains_key(x) by {
            if r.queue.contains(x) {
                let i = choose|i: int| 0 <= i < r.queue.len() && r.queue[i] == x;
                if conflicts == 0 {
                    if i > 0 {
                        assert(s.queue.contains(s.queue[i - 1]));
                        assert(s.messages.contains_key(x));
                    }
                } else {
                    if i < s.queue.len() {
                        assert(s.queue.contains(s.queue[i]));
                        assert(s.messages.contains_key(x));
                    }
                }
            }
            if r.messages.contains_key(x) {
                if x == id {
                    let i = if conflicts == 0 { 0 } else { r.queue.len() - 1 };
                    assert(r.queue[i] == x);
                } else {
                    assert(s.messages.contains_key(x));
                    assert(s.queue.contains(x));
                    let i = choose|i: int| 0 <= i < s.queue.len() && s.queue[i] == x;
                    let k = if conflicts == 0 { i + 1 } else { i };
                    assert(r.queue[k] == x);
                }
            }
        }
        assert forall|x: i64| #[trigger] r.messages.contains_key(x) implies 0 < x <= r.last_id
            && r.messages[x].keys.len() <= usize::MAX by {
            if x != id {
                assert(s.messages.contains_key(x));
            }
        }
    }
    assert(r.pending_valid()) by {
        assert forall|key: KeyName| #[trigger] r.pending.contains_key(key) implies r.pending[key].len()
            > 0 && r.pending[key].no_duplicates() by {
            let listed = ids_of(s.pending, key);
            assert(!listed.contains(id));
            assert(ids_of(r.pending, key) == if keys.contains(key) {
                listed.push(id)
            } else {
                listed
            });
            if s.pending.contains_key(key) {
                assert(listed.no_duplicates());
            }
            if keys.contains(key) {
                assert forall|i: int, j: int|
                    0 <= i < listed.len() + 1 && 0 <= j < listed.len() + 1 && i
                        != j implies listed.push(id)[i] != listed.push(id)[j] by {
                    if i < listed.len() {
                        assert(listed.contains(listed[i]));
                    }
                    if j < listed.len() {
                        assert(listed.contains(listed[j]));
                    }
                }
            }
        }
        assert forall|key: KeyName, x: i64|
            #![trigger ids_of(r.pending, key).contains(x)]
            ids_of(r.pending, key).contains(x) <==> r.messages.contains_key(x)
                && r.messages[x].keys.contains(key) by {
            let listed = ids_of(s.pending, key);
            assert(listed.contains(x) <==> s.messages.contains_key(x)
                && s.messages[x].keys.contains(key));
            assert(ids_of(r.pending, key) == if keys.contains(key) {
                listed.push(id)
            } else {
                listed
            });
            if keys.contains(key) {
                let more = listed.push(id);
                if more.contains(x) {
                    let i = choose|i: int| 0 <= i < more.len() && more[i] == x;
                    if i < listed.len() {
                        assert(listed[i] == x);
                    }
                }
                if listed.contains(x) {
                    let i = choose|i: int| 0 <= i < listed.len() && listed[i] == x;
                    assert(more[i] == x);
                }
                assert(more[listed.len() as int] == id);
            }
        }
    }
    assert(r.conflicted_valid()) by {
        assert forall|key: KeyName| #[trigger] r.checked_out.contains(key) implies r.conflicted.contains_key(
            key,
        ) == r.pending.contains_key(key) && ids_of(r.conflicted, key) == ids_of(r.pending, key) by {
            assert(s.checked_out.contains(key));
            assert(ids_of(r.pending, key) == if keys.contains(key) {
                ids_of(s.pending, key).push(id)
            } else {
                ids_of(s.pending, key)
            });
            assert(ids_of(r.conflicted, key) == if keys.contains(key) && s.checked_out.contains(
                key,
            ) {
                ids_of(s.conflicted, key).push(id)
            } else {
                ids_of(s.conflicted, key)
            });
        }
    }
    assert(r.conflicts_valid()) by {
        assert forall|x: i64| #[trigger] r.messages.contains_key(x) implies blocking(
            r.messages[x].keys,
            r.checked_out,
        ) <= r.messages[x].conflicts <= max_conflicts() by {
            if x != id {
                assert(s.messages.contains_key(x));
            }
        }
    }
    assert(r.partitioned()) by {
        assert forall|i: int, j: int|
            0 <= i < j < r.queue.len() && r.messages[r.queue[i]].conflicts
                > 0 implies r.messages[r.queue[j]].conflicts > 0 by {
            if conflicts == 0 {
                if i > 0 {
                    assert(s.queue.contains(s.queue[i - 1]));
                    assert(s.queue.contains(s.queue[j - 1]));
                }
            } else {
                if j < s.queue.len() {
                    assert(s.queue.contains(s.queue[i]));
                    assert(s.queue.contains(s.queue[j]));
                }
            }
        }
    }
    assert(r.messages.dom() =~= s.messages.dom().insert(id));
}

// -------------------------------------------------------------------- delivery

/// In a valid channel the message at the front decides: where it has a conflict, every
/// queued message has one.
pub proof fn lemma_front_decides<T>(s: ChannelView<T>)
    requires
        s.wf(),
        s.queue.len() > 0,
        !s.deliverable(s.queue[0]),
    ensures
        forall|id: i64| !s.deliverable(id),
{
    assert forall|id: i64| !s.deliverable(id) by {
        if s.messages.contains_key(id) {
            assert(s.queue.contains(id));
            let j = choose|j: int| 0 <= j < s.queue.len() && s.queue[j] == id;
            assert(s.queue.contains(s.queue[0]));
            assert(s.messages.contains_key(s.queue[0]));
            if j > 0 {
                assert(s.messages[s.queue[0]].conflicts > 0);
                assert(s.messages[s.queue[j]].conflicts > 0);
            }
        }
    }
}

} // verus!
