//! The channel state: the keyed buffer, the number of senders and whether the
//! channel is closed. Every send, receive and release is decided here; the
//! caller holds the state under a lock and does the waiting.
use vstd::prelude::*;
use vstd::multiset::Multiset;
use crate::buff::{first_free, lowered, KeyedBuff};
use crate::err::{RecvError, TrySendError};
use crate::key::{Key, KeySet};
use crate::message::Message;

verus! {

broadcast use {vstd::std_specs::hash::group_hash_axioms, vstd::seq_lib::group_to_multiset_ensures};

/// The state shared by the senders and the receiver of one channel.
pub struct State<K: Key, V> {
    buff: KeyedBuff<K, V>,
    n_senders: usize,
    disconnected: bool,
    sent: Ghost<Multiset<Message<K, V>>>,
    received: Ghost<Multiset<Message<K, V>>>,
}

impl<K: Key, V> State<K, V> {
    /// The buffered messages, oldest first.
    pub closed spec fn queue(&self) -> Seq<Message<K, V>> {
        self.buff.queue()
    }

    /// The keys held by delivered messages.
    pub closed spec fn active(&self) -> Set<K> {
        self.buff.active()
    }

    /// The capacity of the buffer.
    pub closed spec fn capacity(&self) -> nat {
        self.buff.capacity()
    }

    /// The buffer's scan cursor.
    pub closed spec fn cursor(&self) -> nat {
        self.buff.cursor()
    }

    /// The buffer's blocker index of each active key.
    pub closed spec fn blockers(&self) -> Map<K, usize> {
        self.buff.blockers()
    }

    /// The number of live senders.
    pub closed spec fn senders(&self) -> nat {
        self.n_senders as nat
    }

    /// Whether the channel is closed.
    pub closed spec fn disconnected(&self) -> bool {
        self.disconnected
    }

    /// Every message that a send appended so far.
    pub closed spec fn sent(&self) -> Multiset<Message<K, V>> {
        self.sent@
    }

    /// Every message that a receive handed out so far.
    pub closed spec fn received(&self) -> Multiset<Message<K, V>> {
        self.received@
    }

    /// The state's invariant.
    pub closed spec fn wf(&self) -> bool {
        &&& self.buff.wf()
        &&& self.sent@ == self.received@.add(self.buff.queue().to_multiset())
    }

    /// The channel is closed and its buffer empty: nothing can be received
    /// any more.
    pub open spec fn drained(&self) -> bool {
        self.disconnected() && self.queue().len() == 0
    }

    /// What a receive returns in this state.
    pub open spec fn recv_outcome(&self) -> Result<Option<Message<K, V>>, RecvError> {
        if self.queue().len() == 0 {
            if self.disconnected() {
                Err(RecvError::Disconnected)
            } else {
                Ok(None)
            }
        } else if first_free(self.queue(), self.active()) < self.queue().len() {
            Ok(Some(self.queue()[first_free(self.queue(), self.active())]))
        } else {
            Err(RecvError::AllConflict)
        }
    }

    /// `post` and `pre` agree in everything but the buffered messages, the
    /// active keys and the two logs.
    pub open spec fn same_channel(pre: Self, post: Self) -> bool {
        &&& post.capacity() == pre.capacity()
        &&& post.senders() == pre.senders()
        &&& post.disconnected() == pre.disconnected()
    }

    /// `post` and `pre` have the same scan cursor and blocker indices.
    pub open spec fn same_scan(pre: Self, post: Self) -> bool {
        &&& post.cursor() == pre.cursor()
        &&& post.blockers() == pre.blockers()
    }

    /// The blocker index of each key active in `pre` is lowered in `post` to
    /// every position in `[pre.cursor(), to)` whose message holds the key.
    pub open spec fn scan_lowers(pre: Self, post: Self, to: int) -> bool {
        forall|k: K| #[trigger]
            pre.blockers().contains_key(k) ==> post.blockers()[k] == lowered(
                pre.queue(),
                k,
                pre.blockers()[k],
                pre.cursor() as int,
                to,
            )
    }

    /// Releasing `keys` from `pre` moved the cursor of `post` back to the
    /// smallest blocker index below it among the released keys, if any.
    pub open spec fn rewound(pre: Self, keys: Set<K>, post: Self) -> bool {
        &&& post.cursor() <= pre.cursor()
        &&& forall|k: K| #[trigger]
            keys.contains(k) && pre.blockers().contains_key(k) && pre.blockers()[k] < pre.cursor()
                ==> post.cursor() <= pre.blockers()[k]
        &&& post.cursor() == pre.cursor() || exists|k: K| #[trigger]
            keys.contains(k) && pre.blockers().contains_key(k) && post.cursor()
                == pre.blockers()[k]
    }

    /// `post` and `pre` agree in everything.
    pub open spec fn unchanged(pre: Self, post: Self) -> bool {
        &&& Self::same_channel(pre, post)
        &&& Self::same_scan(pre, post)
        &&& post.queue() == pre.queue()
        &&& post.active() == pre.active()
        &&& post.sent() == pre.sent()
        &&& post.received() == pre.received()
    }

    /// A send of `m` from `pre` returned `r` and left `post`.
    pub open spec fn send_step(
        pre: Self,
        m: Message<K, V>,
        r: Result<(), TrySendError<Message<K, V>>>,
        post: Self,
    ) -> bool {
        if pre.disconnected() {
            r == Err::<(), TrySendError<Message<K, V>>>(TrySendError::Disconnected(m))
                && Self::unchanged(pre, post)
        } else if pre.queue().len() >= pre.capacity() {
            r == Err::<(), TrySendError<Message<K, V>>>(TrySendError::Full(m)) && Self::unchanged(
                pre,
                post,
            )
        } else {
            &&& r == Ok::<(), TrySendError<Message<K, V>>>(())
            &&& Self::same_channel(pre, post)
            &&& Self::same_scan(pre, post)
            &&& post.queue() == pre.queue().push(m)
            &&& post.active() == pre.active()
            &&& post.sent() == pre.sent().insert(m)
            &&& post.received() == pre.received()
        }
    }

    /// A receive from `pre` returned `r` and left `post`.
    pub open spec fn recv_step(
        pre: Self,
        r: Result<Option<Message<K, V>>, RecvError>,
        post: Self,
    ) -> bool {
        &&& r == pre.recv_outcome()
        &&& Self::same_channel(pre, post)
        &&& post.sent() == pre.sent()
        &&& match r {
            Ok(Some(m)) => {
                let i = first_free(pre.queue(), pre.active());
                &&& post.queue() == pre.queue().remove(i)
                &&& post.active() == pre.active().union(m.keys())
                &&& post.received() == pre.received().insert(m)
                &&& post.cursor() == i
                &&& post.blockers().dom() == pre.blockers().dom().union(m.keys())
                &&& Self::scan_lowers(pre, post, i)
                &&& forall|k: K| #[trigger]
                    m.keys().contains(k) ==> post.blockers()[k] == pre.capacity()
            },
            Err(RecvError::AllConflict) => {
                &&& post.queue() == pre.queue()
                &&& post.active() == pre.active()
                &&& post.received() == pre.received()
                &&& post.cursor() == pre.queue().len()
                &&& post.blockers().dom() == pre.blockers().dom()
                &&& Self::scan_lowers(pre, post, pre.queue().len() as int)
            },
            _ => {
                &&& post.queue() == pre.queue()
                &&& post.active() == pre.active()
                &&& post.received() == pre.received()
                &&& Self::same_scan(pre, post)
            },
        }
    }

    /// A release of `keys` from `pre` left `post`.
    pub open spec fn release_step(pre: Self, keys: Set<K>, post: Self) -> bool {
        &&& Self::same_channel(pre, post)
        &&& post.queue() == pre.queue()
        &&& post.active() == pre.active().difference(keys)
        &&& post.blockers() == pre.blockers().remove_keys(keys)
        &&& Self::rewound(pre, keys, post)
        &&& post.sent() == pre.sent()
        &&& post.received() == pre.received()
    }

    /// A new sender from `pre` left `post`.
    pub open spec fn add_sender_step(pre: Self, post: Self) -> bool {
        &&& Self::same_scan(pre, post)
        &&& post.senders() == pre.senders() + 1
        &&& post.capacity() == pre.capacity()
        &&& post.disconnected() == pre.disconnected()
        &&& post.queue() == pre.queue()
        &&& post.active() == pre.active()
        &&& post.sent() == pre.sent()
        &&& post.received() == pre.received()
    }

    /// A sender gone from `pre` left `post`; `last` tells whether it was the
    /// last one.
    pub open spec fn remove_sender_step(pre: Self, last: bool, post: Self) -> bool {
        &&& Self::same_scan(pre, post)
        &&& pre.senders() > 0
        &&& post.senders() == pre.senders() - 1
        &&& last == (post.senders() == 0)
        &&& post.disconnected() == (pre.disconnected() || last)
        &&& post.capacity() == pre.capacity()
        &&& post.queue() == pre.queue()
        &&& post.active() == pre.active()
        &&& post.sent() == pre.sent()
        &&& post.received() == pre.received()
    }

    /// The receiver gone from `pre` left `post`.
    pub open spec fn close_step(pre: Self, post: Self) -> bool {
        &&& Self::same_scan(pre, post)
        &&& post.disconnected()
        &&& post.senders() == pre.senders()
        &&& post.capacity() == pre.capacity()
        &&& post.queue() == pre.queue()
        &&& post.active() == pre.active()
        &&& post.sent() == pre.sent()
        &&& post.received() == pre.received()
    }

    /// `post` follows from `pre` by one operation on the channel.
    pub open spec fn step(pre: Self, post: Self) -> bool {
        ||| exists|m: Message<K, V>, r: Result<(), TrySendError<Message<K, V>>>| #[trigger]
            Self::send_step(pre, m, r, post)
        ||| exists|r: Result<Option<Message<K, V>>, RecvError>| #[trigger]
            Self::recv_step(pre, r, post)
        ||| exists|keys: Set<K>| #[trigger] Self::release_step(pre, keys, post)
        ||| Self::add_sender_step(pre, post)
        ||| exists|last: bool| #[trigger] Self::remove_sender_step(pre, last, post)
        ||| Self::close_step(pre, post)
    }

    /// A channel of capacity `cap` with one sender, nothing buffered and no
    /// key active.
    pub fn new(cap: usize) -> (r: Self)
        requires
            cap > 0,
        ensures
            r.wf(),
            r.queue() == Seq::<Message<K, V>>::empty(),
            r.active() == Set::<K>::empty(),
            r.capacity() == cap,
            r.senders() == 1,
            !r.disconnected(),
            r.sent() == Multiset::<Message<K, V>>::empty(),
            r.received() == Multiset::<Message<K, V>>::empty(),
    {
        let r = State {
            buff: KeyedBuff::new(cap),
            n_senders: 1,
            disconnected: false,
            sent: Ghost(Multiset::empty()),
            received: Ghost(Multiset::empty()),
        };
        proof {
            assert(r.buff.queue().to_multiset() =~= Multiset::empty()) by {
                assert forall|x: Message<K, V>| r.buff.queue().to_multiset().count(x) == 0 by {
                    assert(!r.buff.queue().contains(x));
                }
            }
            assert(r.sent@ =~= r.received@.add(r.buff.queue().to_multiset()));
        }
        r
    }

    /// Whether a sender may go on: the buffer has a free slot, or the
    /// channel is closed and the send will be refused.
    pub fn send_ready(&self) -> (r: bool)
        requires
            self.wf(),
        ensures
            r == (self.queue().len() < self.capacity() || self.disconnected()),
    {
        proof {
            self.buff.lemma_wf_bounds();
        }
        !self.buff.is_full() || self.disconnected
    }

    /// Append `m`, unless the channel is closed or the buffer full; either
    /// way the message comes back.
    pub fn try_send(&mut self, m: Message<K, V>) -> (r: Result<(), TrySendError<Message<K, V>>>)
        requires
            old(self).wf(),
        ensures
            final(self).wf(),
            Self::send_step(*old(self), m, r, *final(self)),
    {
        proof {
            self.buff.lemma_wf_bounds();
        }
        if self.disconnected {
            return Err(TrySendError::Disconnected(m));
        }
        if self.buff.is_full() {
            return Err(TrySendError::Full(m));
        }
        let ghost q = self.buff.queue();
        self.buff.push_back(m);
        proof {
            self.sent@ = self.sent@.insert(m);
            assert(self.buff.queue().to_multiset() == q.to_multiset().insert(m));
            assert(self.sent@ =~= self.received@.add(self.buff.queue().to_multiset()));
        }
        Ok(())
    }

    /// Receive: nothing while the buffer is empty and the channel open, the
    /// earliest message free of active keys otherwise, or why there is none.
    pub fn try_recv(&mut self) -> (r: Result<Option<Message<K, V>>, RecvError>)
        requires
            old(self).wf(),
        ensures
            final(self).wf(),
            Self::recv_step(*old(self), r, *final(self)),
    {
        if self.buff.is_empty() {
            if self.disconnected {
                return Err(RecvError::Disconnected);
            } else {
                return Ok(None);
            }
        }
        let ghost q = self.buff.queue();
        proof {
            crate::buff::lemma_first_free_is_len(q, self.buff.active());
        }
        match self.buff.pop_unconflict_front() {
            Ok(m) => {
                proof {
                    let i = first_free(q, old(self).active());
                    self.received@ = self.received@.insert(m);
                    assert(q.remove(i).to_multiset() == q.to_multiset().remove(q[i]));
                    assert(q.to_multiset().count(q[i]) > 0);
                    assert(self.sent@ =~= self.received@.add(self.buff.queue().to_multiset()));
                }
                Ok(Some(m))
            },
            Err(e) => Err(e),
        }
    }

    /// Make the given keys inactive: a delivered message that carried them
    /// is gone.
    pub fn release(&mut self, keys: &KeySet<K>)
        requires
            old(self).wf(),
        ensures
            final(self).wf(),
            Self::release_step(*old(self), keys@, *final(self)),
    {
        proof {
            K::lemma_key_model();
        }
        match keys {
            KeySet::Single(k) => {
                self.buff.deactivate_key(k);
                proof {
                    assert(old(self).active().remove(*k) =~= old(self).active().difference(set![*k]));
                    assert(old(self).blockers().remove(*k) =~= old(self).blockers().remove_keys(
                        set![*k],
                    ));
                    if self.cursor() != old(self).cursor() {
                        assert(set![*k].contains(*k));
                    }
                }
            },
            KeySet::Multiple(s) => {
                let ghost start = self.buff.active();
                let ghost mut seen: Set<K> = Set::empty();
                for k in it: s.iter()
                    invariant
                        vstd::std_specs::hash::obeys_key_model::<K>(),
                        it.seq().unref().to_set() == s@,
                        seen.subset_of(s@),
                        forall|j: int| 0 <= j < it.index() ==> seen.contains(*it.seq()[j]),
                        it.index() == it.seq().len() ==> s@.subset_of(seen),
                        self.wf(),
                        Self::same_channel(*old(self), *self),
                        self.queue() == old(self).queue(),
                        self.active() == start.difference(seen),
                        self.blockers() == old(self).blockers().remove_keys(seen),
                        Self::rewound(*old(self), seen, *self),
                        self.sent() == old(self).sent(),
                        self.received() == old(self).received(),
                {
                    let ghost idx = it.index();
                    let ghost pre = *self;
                    self.buff.deactivate_key(k);
                    proof {
                        assert(it.seq().unref()[idx] == *k);
                        assert(it.seq().unref().to_set().contains(*k));
                        let ghost old_seen = seen;
                        seen = seen.insert(*k);
                        assert(self.blockers() =~= old(self).blockers().remove_keys(seen));
                        let o = *old(self);
                        if pre.blockers().contains_key(*k) {
                            assert(!old_seen.contains(*k));
                            assert(pre.blockers()[*k] == o.blockers()[*k]);
                        }
                        assert forall|x: K| #[trigger]
                            seen.contains(x) && o.blockers().contains_key(x) && o.blockers()[x]
                                < o.cursor() implies self.cursor() <= o.blockers()[x] by {
                            if x != *k {
                                assert(old_seen.contains(x));
                            } else if old_seen.contains(x) {
                            } else {
                                assert(pre.blockers().contains_key(x));
                            }
                        }
                        if self.cursor() != o.cursor() {
                            if self.cursor() != pre.cursor() {
                                assert(seen.contains(*k) && o.blockers().contains_key(*k)
                                    && self.cursor() == o.blockers()[*k]);
                            } else {
                                let x = choose|x: K| #[trigger]
                                    old_seen.contains(x) && o.blockers().contains_key(x)
                                        && pre.cursor() == o.blockers()[x];
                                assert(seen.contains(x));
                            }
                        }
                        crate::key::lemma_seq_within(it.seq(), seen, idx + 1);
                        assert(self.active() =~= start.difference(seen));
                    }
                }
                proof {
                    assert(seen =~= s@);
                }
            },
        }
    }

    /// Count one more sender.
    pub fn add_sender(&mut self)
        requires
            old(self).wf(),
            old(self).senders() < usize::MAX,
        ensures
            final(self).wf(),
            Self::add_sender_step(*old(self), *final(self)),
    {
        self.n_senders = self.n_senders + 1;
    }

    /// Count one sender less; when none is left the channel closes. Tells
    /// whether it was the last one.
    pub fn remove_sender(&mut self) -> (last: bool)
        requires
            old(self).wf(),
            old(self).senders() > 0,
        ensures
            final(self).wf(),
            Self::remove_sender_step(*old(self), last, *final(self)),
    {
        self.n_senders = self.n_senders - 1;
        if self.n_senders == 0 {
            self.disconnected = true;
            true
        } else {
            false
        }
    }

    /// Close the channel: the receiver is gone.
    pub fn close(&mut self)
        requires
            old(self).wf(),
        ensures
            final(self).wf(),
            Self::close_step(*old(self), *final(self)),
    {
        self.disconnected = true;
    }

    /// The number of live senders.
    pub fn n_senders(&self) -> (r: usize)
        ensures
            r == self.senders(),
    {
        self.n_senders
    }

    /// Whether the channel is closed.
    pub fn is_disconnected(&self) -> (r: bool)
        ensures
            r == self.disconnected(),
    {
        self.disconnected
    }

    /// The number of buffered messages.
    pub fn len(&self) -> (r: usize)
        ensures
            r == self.queue().len(),
    {
        self.buff.len()
    }
}

/// Nothing is lost or duplicated: in every state that the channel's
/// operations reach from `State::new`, the messages sent are exactly those
/// received together with those still buffered.
pub proof fn lemma_conservation<K: Key, V>(s: State<K, V>)
    requires
        s.wf(),
    ensures
        s.sent() == s.received().add(s.queue().to_multiset()),
{
}

} // verus!
