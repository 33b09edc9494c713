//! Properties of the channel that relate several operations.
use vstd::prelude::*;
use crate::buff::{conflicts, first_free, lemma_first_free_from, lemma_first_free_is_len};
use crate::err::{RecvError, TrySendError};
use crate::key::Key;
use crate::message::Message;
use crate::state::State;

verus! {

/// The messages of `held` pairwise share no key, and each one's keys are
/// active.
pub open spec fn held_apart<K: Key, V>(held: Seq<Message<K, V>>, active: Set<K>) -> bool {
    &&& forall|i: int, j: int|
        0 <= i < held.len() && 0 <= j < held.len() && i != j ==> #[trigger] held[i].keys().disjoint(
            #[trigger] held[j].keys(),
        )
    &&& forall|i: int| 0 <= i < held.len() ==> #[trigger] held[i].keys().subset_of(active)
}

/// First in, first out among the messages that can go: when the message at
/// position `i` shares no key with the active keys, a receive hands out that
/// message or an earlier one, never the later message at position `j`.
pub proof fn lemma_fifo_modulo_conflict<K: Key, V>(s: State<K, V>, i: int, j: int)
    requires
        0 <= i < j < s.queue().len(),
        s.queue()[i].keys().disjoint(s.queue()[j].keys()),
        !conflicts(s.queue()[i], s.active()),
    ensures
        first_free(s.queue(), s.active()) <= i,
        s.recv_outcome() == Ok::<Option<Message<K, V>>, RecvError>(
            Some(s.queue()[first_free(s.queue(), s.active())]),
        ),
{
    lemma_first_free_from(s.queue(), s.active(), 0);
}

/// A receive hands out a message that shares no key with any message the
/// consumer still holds, and keeps all their keys active.
pub proof fn lemma_conflict_safety_on_delivery<K: Key, V>(
    pre: State<K, V>,
    r: Result<Option<Message<K, V>>, RecvError>,
    post: State<K, V>,
    held: Seq<Message<K, V>>,
)
    requires
        State::recv_step(pre, r, post),
        r is Ok && r->Ok_0 is Some,
        held_apart(held, pre.active()),
    ensures
        held_apart(held.push(r->Ok_0->Some_0), post.active()),
{
    let q = pre.queue();
    let m = r->Ok_0->Some_0;
    lemma_first_free_from(q, pre.active(), 0);
    let h = held.push(m);
    assert forall|i: int| 0 <= i < h.len() implies #[trigger] h[i].keys().subset_of(
        post.active(),
    ) by {
        if i < held.len() {
            assert(h[i] == held[i]);
            assert(held[i].keys().subset_of(pre.active()));
        }
    }
    assert forall|a: int, b: int|
        0 <= a < h.len() && 0 <= b < h.len() && a != b implies #[trigger] h[a].keys().disjoint(
        #[trigger] h[b].keys(),
    ) by {
        if a < held.len() && b < held.len() {
            assert(h[a] == held[a] && h[b] == held[b]);
        } else if a == held.len() {
            assert(h[b].keys().subset_of(pre.active()));
        } else {
            assert(h[a].keys().subset_of(pre.active()));
        }
    }
}

/// Releasing the keys of one held message keeps the keys of every other held
/// message active.
pub proof fn lemma_conflict_safety_on_release<K: Key, V>(
    pre: State<K, V>,
    post: State<K, V>,
    held: Seq<Message<K, V>>,
    k: int,
)
    requires
        0 <= k < held.len(),
        State::release_step(pre, held[k].keys(), post),
        held_apart(held, pre.active()),
    ensures
        held_apart(held.remove(k), post.active()),
{
    let h = held.remove(k);
    held.remove_ensures(k);
    assert forall|i: int| 0 <= i < h.len() implies #[trigger] h[i].keys().subset_of(
        post.active(),
    ) by {
        let o = if i < k {
            i
        } else {
            i + 1
        };
        assert(h[i] == held[o]);
        assert(held[o].keys().disjoint(held[k].keys()));
        assert(held[o].keys().subset_of(pre.active()));
    }
    assert forall|a: int, b: int|
        0 <= a < h.len() && 0 <= b < h.len() && a != b implies #[trigger] h[a].keys().disjoint(
        #[trigger] h[b].keys(),
    ) by {
        let oa = if a < k {
            a
        } else {
            a + 1
        };
        let ob = if b < k {
            b
        } else {
            b + 1
        };
        assert(h[a] == held[oa] && h[b] == held[ob]);
    }
}

/// A receive reports that every message conflicts exactly when the buffer is
/// not empty and each buffered message holds an active key.
pub proof fn lemma_all_conflict_precise<K: Key, V>(s: State<K, V>)
    ensures
        (s.recv_outcome() == Err::<Option<Message<K, V>>, RecvError>(RecvError::AllConflict)) == (
        s.queue().len() > 0 && forall|j: int|
            0 <= j < s.queue().len() ==> conflicts(#[trigger] s.queue()[j], s.active())),
{
    lemma_first_free_is_len(s.queue(), s.active());
}

/// Exactly the keys of a delivered message become active when it is handed
/// out, and exactly those become inactive again when it is released.
pub proof fn lemma_key_round_trip<K: Key, V>(
    s0: State<K, V>,
    r: Result<Option<Message<K, V>>, RecvError>,
    s1: State<K, V>,
    s2: State<K, V>,
)
    requires
        State::recv_step(s0, r, s1),
        r is Ok && r->Ok_0 is Some,
        State::release_step(s1, r->Ok_0->Some_0.keys(), s2),
    ensures
        s1.active().difference(s0.active()) == r->Ok_0->Some_0.keys(),
        s1.active().difference(s2.active()) == r->Ok_0->Some_0.keys(),
        s2.active() == s0.active(),
{
    let m = r->Ok_0->Some_0;
    lemma_first_free_from(s0.queue(), s0.active(), 0);
    assert(s1.active().difference(s0.active()) =~= m.keys());
    assert(s1.active().difference(s2.active()) =~= m.keys());
    assert(s2.active() =~= s0.active());
}

/// Releasing a delivered message takes exactly its keys out of the active
/// set, whatever else became active meanwhile: when the active keys are `a`
/// together with the message's own, `a` is left.
pub proof fn lemma_release_returns_keys<K: Key, V>(
    pre: State<K, V>,
    m: Message<K, V>,
    post: State<K, V>,
    a: Set<K>,
)
    requires
        pre.active() == a.union(m.keys()),
        a.disjoint(m.keys()),
        State::release_step(pre, m.keys(), post),
    ensures
        post.active() == a,
        pre.active().difference(post.active()) == m.keys(),
{
    assert(post.active() =~= a);
    assert(pre.active().difference(post.active()) =~= m.keys());
}

/// One operation keeps a drained channel drained.
proof fn lemma_step_keeps_drained<K: Key, V>(pre: State<K, V>, post: State<K, V>)
    requires
        State::step(pre, post),
        pre.drained(),
    ensures
        post.drained(),
{
    if exists|m: Message<K, V>, r: Result<(), TrySendError<Message<K, V>>>|
        #[trigger] State::send_step(pre, m, r, post) {
        let (m, r) = choose|m: Message<K, V>, r: Result<(), TrySendError<Message<K, V>>>|
            #[trigger] State::send_step(pre, m, r, post);
        assert(State::send_step(pre, m, r, post));
    }
}

/// Once a receive reports the channel disconnected, every later receive does
/// too, whatever operations come between.
pub proof fn lemma_disconnection_is_final<K: Key, V>(trace: Seq<State<K, V>>)
    requires
        trace.len() > 0,
        trace[0].recv_outcome() == Err::<Option<Message<K, V>>, RecvError>(RecvError::Disconnected),
        forall|i: int| 0 <= i < trace.len() - 1 ==> State::step(#[trigger] trace[i], trace[i + 1]),
    ensures
        forall|i: int|
            0 <= i < trace.len() ==> #[trigger] trace[i].recv_outcome() == Err::<
                Option<Message<K, V>>,
                RecvError,
            >(RecvError::Disconnected),
    decreases trace.len(),
{
    if trace.len() > 1 {
        let init = trace.drop_last();
        lemma_disconnection_is_final(init);
        let n = trace.len() - 1;
        assert(init[n - 1] == trace[n - 1]);
        assert(init[n - 1].recv_outcome() == Err::<Option<Message<K, V>>, RecvError>(
            RecvError::Disconnected,
        ));
        assert(trace[n - 1].drained());
        assert(State::step(trace[n - 1], trace[n]));
        lemma_step_keeps_drained(trace[n - 1], trace[n]);
        assert forall|i: int| 0 <= i < trace.len() implies #[trigger] trace[i].recv_outcome()
            == Err::<Option<Message<K, V>>, RecvError>(RecvError::Disconnected) by {
            if i < n {
                assert(init[i] == trace[i]);
            }
        }
    }
}

} // verus!
