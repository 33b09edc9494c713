//! The keyed buffer: a bounded FIFO queue with conflict-aware extraction.
use std::collections::HashMap;
use std::collections::VecDeque;
use vstd::prelude::*;
use vstd::std_specs::hash::obeys_key_model;
use crate::err::RecvError;
use crate::key::Key;
use crate::message::Message;

verus! {

broadcast use vstd::std_specs::hash::group_hash_axioms;

/// Message `m` shares a key with `active`.
pub open spec fn conflicts<K: Key, V>(m: Message<K, V>, active: Set<K>) -> bool {
    !m.keys().disjoint(active)
}

/// The first position at or after `i` whose message shares no key with
/// `active`, or the length of `q` when there is none.
pub open spec fn first_free_from<K: Key, V>(q: Seq<Message<K, V>>, active: Set<K>, i: int) -> int
    decreases q.len() - i,
{
    if 0 <= i < q.len() {
        if !conflicts(q[i], active) {
            i
        } else {
            first_free_from(q, active, i + 1)
        }
    } else {
        q.len() as int
    }
}

/// The first position of `q` whose message shares no key with `active`, or
/// the length of `q` when every message does.
pub open spec fn first_free<K: Key, V>(q: Seq<Message<K, V>>, active: Set<K>) -> int {
    first_free_from(q, active, 0)
}

/// What `first_free_from` returns: the first free position at or after `i`.
pub proof fn lemma_first_free_from<K: Key, V>(q: Seq<Message<K, V>>, active: Set<K>, i: int)
    requires
        0 <= i <= q.len(),
    ensures
        i <= first_free_from(q, active, i) <= q.len(),
        first_free_from(q, active, i) < q.len() ==> !conflicts(
            q[first_free_from(q, active, i)],
            active,
        ),
        forall|j: int| i <= j < first_free_from(q, active, i) ==> conflicts(q[j], active),
    decreases q.len() - i,
{
    if i < q.len() && conflicts(q[i], active) {
        lemma_first_free_from(q, active, i + 1);
    }
}

/// The scan may start at `c` when every message before `c` conflicts.
proof fn lemma_first_free_skip<K: Key, V>(q: Seq<Message<K, V>>, active: Set<K>, c: int)
    requires
        0 <= c <= q.len(),
        forall|j: int| 0 <= j < c ==> conflicts(q[j], active),
    ensures
        first_free(q, active) == first_free_from(q, active, c),
    decreases c,
{
    if c > 0 {
        lemma_first_free_skip(q, active, c - 1);
        assert(conflicts(q[c - 1], active));
    }
}

/// The first free position of `q` is its length exactly when every message
/// of `q` conflicts.
pub proof fn lemma_first_free_is_len<K: Key, V>(q: Seq<Message<K, V>>, active: Set<K>)
    ensures
        0 <= first_free(q, active) <= q.len(),
        (first_free(q, active) == q.len()) == (forall|j: int|
            0 <= j < q.len() ==> conflicts(#[trigger] q[j], active)),
{
    lemma_first_free_from(q, active, 0);
}

/// Blocker index `b` of key `k` after a scan over positions `[from, to)` of
/// `q`: lowered to each position there whose message holds `k`.
pub open spec fn lowered<K: Key, V>(q: Seq<Message<K, V>>, k: K, b: usize, from: int, to: int) -> usize
    decreases to - from,
{
    if from < to {
        let e = lowered(q, k, b, from, to - 1);
        if 0 <= to - 1 < q.len() && q[to - 1].keys().contains(k) && to - 1 < e {
            (to - 1) as usize
        } else {
            e
        }
    } else {
        b
    }
}

/// Message `j` of `q` holds an active key whose recorded blocker position is
/// at most `j`.
spec fn blocked<K: Key, V>(q: Seq<Message<K, V>>, blockers: Map<K, usize>, j: int) -> bool {
    exists|k: K| #[trigger]
        q[j].keys().contains(k) && blockers.contains_key(k) && blockers[k] <= j
}

/// A bounded FIFO queue of messages that hands out the earliest message that
/// shares no key with the active keys.
///
/// Each active key maps to the earliest position seen to hold it, or to the
/// capacity when none is known. Every message before the scan cursor holds an
/// active key whose recorded position is at most its own, so releasing a key
/// moves the cursor back just far enough.
pub struct KeyedBuff<K: Key, V> {
    buff: VecDeque<Message<K, V>>,
    cap: usize,
    activate_keys: HashMap<K, usize>,
    curr: usize,
}

impl<K: Key, V> KeyedBuff<K, V> {
    /// The buffered messages, oldest first.
    pub closed spec fn queue(&self) -> Seq<Message<K, V>> {
        self.buff@
    }

    /// The keys held by delivered messages.
    pub closed spec fn active(&self) -> Set<K> {
        self.activate_keys@.dom()
    }

    /// The number of messages the buffer holds at most.
    pub closed spec fn capacity(&self) -> nat {
        self.cap as nat
    }

    /// The scan cursor: every message before it is known to conflict.
    pub closed spec fn cursor(&self) -> nat {
        self.curr as nat
    }

    /// For each active key, the earliest position seen to hold it, or the
    /// capacity when none is known.
    pub closed spec fn blockers(&self) -> Map<K, usize> {
        self.activate_keys@
    }

    /// The active keys are those that have a blocker index.
    pub proof fn lemma_active_is_blocker_keys(&self)
        ensures
            self.active() == self.blockers().dom(),
    {
    }

    /// The buffer's invariant.
    pub closed spec fn wf(&self) -> bool {
        &&& 0 < self.cap
        &&& self.buff@.len() <= self.cap
        &&& self.curr <= self.buff@.len()
        &&& forall|j: int| 0 <= j < self.curr ==> #[trigger] blocked(self.buff@, self.activate_keys@, j)
    }

    /// A well-formed buffer holds between none and `capacity` messages.
    pub proof fn lemma_wf_bounds(&self)
        requires
            self.wf(),
        ensures
            0 < self.capacity(),
            self.queue().len() <= self.capacity(),
    {
    }

    /// An empty buffer of capacity `cap`.
    pub fn new(cap: usize) -> (r: Self)
        requires
            cap > 0,
        ensures
            r.wf(),
            r.queue() == Seq::<Message<K, V>>::empty(),
            r.active() == Set::<K>::empty(),
            r.capacity() == cap,
            r.cursor() == 0,
            r.blockers() == Map::<K, usize>::empty(),
    {
        KeyedBuff {
            buff: VecDeque::new(),
            cap,
            activate_keys: HashMap::with_capacity(cap),
            curr: 0,
        }
    }

    /// Append a message; the caller has made room for it.
    pub fn push_back(&mut self, m: Message<K, V>)
        requires
            old(self).wf(),
            old(self).queue().len() < old(self).capacity(),
        ensures
            final(self).wf(),
            final(self).queue() == old(self).queue().push(m),
            final(self).active() == old(self).active(),
            final(self).capacity() == old(self).capacity(),
            final(self).cursor() == old(self).cursor(),
            final(self).blockers() == old(self).blockers(),
    {
        let ghost q = self.buff@;
        self.buff.push_back(m);
        proof {
            assert forall|j: int| 0 <= j < self.curr implies #[trigger] blocked(
                self.buff@,
                self.activate_keys@,
                j,
            ) by {
                assert(blocked(q, self.activate_keys@, j));
                assert(self.buff@[j] == q[j]);
            }
        }
    }

    /// Take out the earliest message that shares no key with the active keys,
    /// and make its keys active; when every message conflicts, take nothing.
    pub fn pop_unconflict_front(&mut self) -> (r: Result<Message<K, V>, RecvError>)
        requires
            old(self).wf(),
        ensures
            final(self).wf(),
            final(self).capacity() == old(self).capacity(),
            ({
                let q = old(self).queue();
                let i = first_free(q, old(self).active());
                let b = old(self).blockers();
                if i < q.len() {
                    &&& r == Ok::<Message<K, V>, RecvError>(q[i])
                    &&& final(self).queue() == q.remove(i)
                    &&& final(self).active() == old(self).active().union(q[i].keys())
                    &&& final(self).cursor() == i
                    &&& final(self).blockers().dom() == b.dom().union(q[i].keys())
                    &&& forall|k: K| #[trigger]
                        b.contains_key(k) ==> final(self).blockers()[k] == lowered(
                            q,
                            k,
                            b[k],
                            old(self).cursor() as int,
                            i,
                        )
                    &&& forall|k: K| #[trigger]
                        q[i].keys().contains(k) ==> final(self).blockers()[k] == old(
                            self,
                        ).capacity()
                } else {
                    &&& r == Err::<Message<K, V>, RecvError>(RecvError::AllConflict)
                    &&& final(self).queue() == q
                    &&& final(self).active() == old(self).active()
                    &&& final(self).cursor() == q.len()
                    &&& final(self).blockers().dom() == b.dom()
                    &&& forall|k: K| #[trigger]
                        b.contains_key(k) ==> final(self).blockers()[k] == lowered(
                            q,
                            k,
                            b[k],
                            old(self).cursor() as int,
                            q.len() as int,
                        )
                }
            }),
    {
        proof {
            K::lemma_key_model();
        }
        let ghost q = self.buff@;
        let ghost a = self.activate_keys@.dom();
        proof {
            assert forall|j: int| 0 <= j < self.curr implies conflicts(q[j], a) by {
                assert(blocked(q, self.activate_keys@, j));
            }
            lemma_first_free_skip(q, a, self.curr as int);
        }
        let mut index: usize = self.curr;
        while index < self.buff.len()
            invariant
                obeys_key_model::<K>(),
                self.buff@ == q,
                self.cap == old(self).cap,
                0 < self.cap,
                q.len() <= self.cap,
                index <= q.len(),
                self.activate_keys@.dom() == a,
                forall|j: int| 0 <= j < index ==> #[trigger] blocked(q, self.activate_keys@, j),
                first_free(q, a) == first_free_from(q, a, index as int),
                old(self).curr <= index,
                forall|k: K| #[trigger]
                    a.contains(k) ==> self.activate_keys@[k] == lowered(
                        q,
                        k,
                        old(self).activate_keys@[k],
                        old(self).curr as int,
                        index as int,
                    ),
            ensures
                index == q.len() || (index < q.len() && !conflicts(q[index as int], a)),
            decreases q.len() - index,
        {
            let ghost before = self.activate_keys@;
            let conflict = self.buff[index].key_set().mark_conflicts(&mut self.activate_keys, index);
            proof {
                let after = self.activate_keys@;
                assert forall|j: int| 0 <= j < index implies #[trigger] blocked(q, after, j) by {
                    assert(blocked(q, before, j));
                    let k = choose|k: K| #[trigger]
                        q[j].keys().contains(k) && before.contains_key(k) && before[k] <= j;
                    assert(after.contains_key(k));
                }
                if conflict {
                    let k = choose|k: K| q[index as int].keys().contains(k) && a.contains(k);
                    assert(before.contains_key(k));
                    assert(blocked(q, after, index as int));
                }
            }
            if !conflict {
                break;
            }
            proof {
                assert forall|k: K| #[trigger] a.contains(k) implies self.activate_keys@[k] == lowered(
                    q,
                    k,
                    old(self).activate_keys@[k],
                    old(self).curr as int,
                    index + 1,
                ) by {
                    assert(before[k] == lowered(q, k, old(self).activate_keys@[k], old(self).curr as int, index as int));
                }
            }
            index = index + 1;
        }
        self.curr = index;
        if index >= self.buff.len() {
            proof {
                assert(first_free_from(q, a, index as int) == q.len());
            }
            Err(RecvError::AllConflict)
        } else {
            let msg = self.buff.remove(index).unwrap();
            let ghost mid = self.activate_keys@;

            let keys = msg.key_set().get_owned_keys();
            let mut i: usize = 0;
            while i < keys.len()
                invariant
                    obeys_key_model::<K>(),
                    i <= keys.len(),
                    keys@.to_set() == msg.keys(),
                    self.activate_keys@.dom() == a.union(keys@.subrange(0, i as int).to_set()),
                    forall|k: K| #[trigger]
                        a.contains(k) ==> self.activate_keys@.contains_key(k)
                            && self.activate_keys@[k] == mid[k],
                    a.disjoint(msg.keys()),
                    mid.dom() == a,
                    index < q.len(),
                    msg == q[index as int],
                    self.buff@ == q.remove(index as int),
                    self.curr == index,
                    self.cap == old(self).cap,
                    0 < self.cap,
                    q.len() <= self.cap,
                    forall|j: int| 0 <= j < index ==> #[trigger] blocked(q, mid, j),
                    forall|t: int|
                        0 <= t < i ==> #[trigger] self.activate_keys@[keys@[t]] == self.cap,
                    forall|k: K| #[trigger]
                        a.contains(k) ==> mid[k] == lowered(
                            q,
                            k,
                            old(self).activate_keys@[k],
                            old(self).curr as int,
                            index as int,
                        ),
                decreases keys.len() - i,
            {
                self.activate_keys.insert(keys[i].copy_key(), self.cap);
                proof {
                    assert(keys@.subrange(0, i + 1) == keys@.subrange(0, i as int).push(
                        keys@[i as int],
                    ));
                    keys@.subrange(0, i as int).lemma_push_to_set_commute(keys@[i as int]);
                    assert(keys@.to_set().contains(keys@[i as int]));
                }
                i = i + 1;
            }
            proof {
                assert(keys@.subrange(0, keys.len() as int) == keys@);
                assert forall|j: int| 0 <= j < self.curr implies #[trigger] blocked(
                    self.buff@,
                    self.activate_keys@,
                    j,
                ) by {
                    assert(blocked(q, mid, j));
                    let k = choose|k: K| #[trigger]
                        q[j].keys().contains(k) && mid.contains_key(k) && mid[k] <= j;
                    assert(self.buff@[j] == q[j]);
                    assert(a.contains(k));
                }
                assert(self.activate_keys@.dom() =~= a.union(msg.keys()));
                assert forall|k: K| #[trigger] msg.keys().contains(k) implies self.activate_keys@[k]
                    == self.cap by {
                    assert(keys@.to_set().contains(k));
                    assert(keys@.contains(k));
                    let t = choose|t: int| 0 <= t < keys@.len() && keys@[t] == k;
                    assert(self.activate_keys@[keys@[t]] == self.cap);
                }
            }
            Ok(msg)
        }
    }

    /// Make `key` inactive. The cursor moves back to the earliest message that
    /// was seen to wait for it.
    pub fn deactivate_key(&mut self, key: &K)
        requires
            old(self).wf(),
        ensures
            final(self).wf(),
            final(self).queue() == old(self).queue(),
            final(self).active() == old(self).active().remove(*key),
            final(self).capacity() == old(self).capacity(),
            final(self).blockers() == old(self).blockers().remove(*key),
            final(self).cursor() == if old(self).blockers().contains_key(*key) && old(
                self,
            ).blockers()[*key] < old(self).cursor() {
                old(self).blockers()[*key] as nat
            } else {
                old(self).cursor()
            },
    {
        proof {
            K::lemma_key_model();
        }
        let ghost before = self.activate_keys@;
        let ghost old_curr = self.curr;
        let removed = self.activate_keys.remove(key);
        match removed {
            Some(index) => {
                if index < self.cap && index < self.curr {
                    self.curr = index;
                }
            },
            None => {},
        }
        proof {
            let after = self.activate_keys@;
            assert(after == before.remove(*key));
            assert forall|j: int| 0 <= j < self.curr implies #[trigger] blocked(
                self.buff@,
                after,
                j,
            ) by {
                assert(blocked(self.buff@, before, j));
                let k = choose|k: K| #[trigger]
                    self.buff@[j].keys().contains(k) && before.contains_key(k) && before[k] <= j;
                assert(k != *key);
                assert(after.contains_key(k));
            }
            assert(after.dom() =~= before.dom().remove(*key));
        }
    }

    /// Whether the buffer holds `capacity` messages.
    pub fn is_full(&self) -> (r: bool)
        ensures
            r == (self.queue().len() == self.capacity()),
    {
        self.buff.len() == self.cap
    }

    /// Whether the buffer holds no message.
    pub fn is_empty(&self) -> (r: bool)
        ensures
            r == (self.queue().len() == 0),
    {
        self.buff.len() == 0
    }

    /// The number of buffered messages.
    pub fn len(&self) -> (r: usize)
        ensures
            r == self.queue().len(),
    {
        self.buff.len()
    }
}

} // verus!
