//! Keys and key sets.
use std::collections::HashMap;
use std::collections::HashSet;
use vstd::prelude::*;
use vstd::std_specs::hash::obeys_key_model;

verus! {

broadcast use vstd::std_specs::hash::group_hash_axioms;

/// A key that messages carry.
///
/// A key behaves as a hash-table key: hashing is deterministic, `==` is
/// identity and a copy equals its source.
pub trait Key: Eq + std::hash::Hash + Clone + std::fmt::Debug + Sized {
    /// Hash tables keyed by this type behave as finite maps.
    proof fn lemma_key_model()
        ensures
            obeys_key_model::<Self>(),
    ;

    /// A copy of the key.
    fn copy_key(&self) -> (r: Self)
        ensures
            r == *self,
    ;
}

impl Key for u8 {
    proof fn lemma_key_model() {
    }

    fn copy_key(&self) -> (r: Self) {
        *self
    }
}

impl Key for u16 {
    proof fn lemma_key_model() {
    }

    fn copy_key(&self) -> (r: Self) {
        *self
    }
}

impl Key for u32 {
    proof fn lemma_key_model() {
    }

    fn copy_key(&self) -> (r: Self) {
        *self
    }
}

impl Key for u64 {
    proof fn lemma_key_model() {
    }

    fn copy_key(&self) -> (r: Self) {
        *self
    }
}

impl Key for usize {
    proof fn lemma_key_model() {
    }

    fn copy_key(&self) -> (r: Self) {
        *self
    }
}

impl Key for i8 {
    proof fn lemma_key_model() {
    }

    fn copy_key(&self) -> (r: Self) {
        *self
    }
}

impl Key for i16 {
    proof fn lemma_key_model() {
    }

    fn copy_key(&self) -> (r: Self) {
        *self
    }
}

impl Key for i32 {
    proof fn lemma_key_model() {
    }

    fn copy_key(&self) -> (r: Self) {
        *self
    }
}

impl Key for i64 {
    proof fn lemma_key_model() {
    }

    fn copy_key(&self) -> (r: Self) {
        *self
    }
}

impl Key for isize {
    proof fn lemma_key_model() {
    }

    fn copy_key(&self) -> (r: Self) {
        *self
    }
}

impl Key for u128 {
    proof fn lemma_key_model() {
    }

    fn copy_key(&self) -> (r: Self) {
        *self
    }
}

impl Key for i128 {
    proof fn lemma_key_model() {
    }

    fn copy_key(&self) -> (r: Self) {
        *self
    }
}

/// The keys of a message: one key, or a set of them.
#[derive(Debug, PartialEq, Eq)]
pub enum KeySet<K: Key> {
    /// A single key.
    Single(K),
    /// Several keys, without repetition.
    Multiple(HashSet<K>),
}

impl<K: Key> View for KeySet<K> {
    type V = Set<K>;

    open spec fn view(&self) -> Set<K> {
        match self {
            KeySet::Single(k) => set![*k],
            KeySet::Multiple(s) => s@,
        }
    }
}

/// Every element of `q` lies in `seen`.
pub(crate) proof fn lemma_seq_within<K>(q: Seq<&K>, seen: Set<K>, n: int)
    requires
        forall|j: int| 0 <= j < n && j < q.len() ==> seen.contains(*q[j]),
    ensures
        n == q.len() ==> q.unref().to_set().subset_of(seen),
{
    if n == q.len() {
        assert forall|k: K| q.unref().to_set().contains(k) implies seen.contains(k) by {
            assert(q.unref().contains(k));
            let j = choose|j: int| 0 <= j < q.unref().len() && q.unref()[j] == k;
            assert(seen.contains(*q[j]));
        }
    }
}

impl<K: Key> KeySet<K> {
    /// The set of the given keys; a key given twice counts once.
    pub fn from_keys(keys: Vec<K>) -> (r: Self)
        ensures
            r is Multiple,
            r@ == keys@.to_set(),
    {
        proof {
            K::lemma_key_model();
        }
        let mut set: HashSet<K> = HashSet::new();
        let mut i: usize = 0;
        while i < keys.len()
            invariant
                obeys_key_model::<K>(),
                i <= keys.len(),
                set@ == keys@.subrange(0, i as int).to_set(),
            decreases keys.len() - i,
        {
            let k = keys[i].copy_key();
            set.insert(k);
            proof {
                assert(keys@.subrange(0, i + 1) == keys@.subrange(0, i as int).push(keys@[i as int]));
                keys@.subrange(0, i as int).lemma_push_to_set_commute(keys@[i as int]);
            }
            i = i + 1;
        }
        assert(keys@.subrange(0, keys.len() as int) == keys@);
        KeySet::Multiple(set)
    }

    /// Whether this is a set of several keys rather than a single key.
    pub fn is_multiple(&self) -> (r: bool)
        ensures
            r == (self is Multiple),
    {
        match self {
            KeySet::Single(_) => false,
            KeySet::Multiple(_) => true,
        }
    }

    /// The key, when there is a single one.
    pub fn get_single_key(&self) -> (r: Option<&K>)
        ensures
            match self {
                KeySet::Single(k) => r == Some(k),
                KeySet::Multiple(_) => r is None,
            },
    {
        match self {
            KeySet::Single(k) => Some(k),
            KeySet::Multiple(_) => None,
        }
    }

    /// The set of keys, when there are several.
    pub fn get_key_set(&self) -> (r: Option<&HashSet<K>>)
        ensures
            match self {
                KeySet::Single(_) => r is None,
                KeySet::Multiple(s) => r == Some(s),
            },
    {
        match self {
            KeySet::Single(_) => None,
            KeySet::Multiple(s) => Some(s),
        }
    }

    /// The keys as a vector, each once.
    pub fn get_owned_keys(&self) -> (r: Vec<K>)
        ensures
            r@.to_set() == self@,
            r@.no_duplicates(),
    {
        proof {
            K::lemma_key_model();
        }
        match self {
            KeySet::Single(k) => {
                let v = vec![k.copy_key()];
                proof {
                    assert(v@ == seq![*k]);
                    assert(v@.to_set() =~= set![*k]) by {
                        assert(v@.contains(*k));
                    }
                }
                v
            },
            KeySet::Multiple(s) => {
                let mut v: Vec<K> = Vec::new();
                for k in it: s.iter()
                    invariant
                        obeys_key_model::<K>(),
                        it.seq().unref().to_set() == s@,
                        it.seq().unref().no_duplicates(),
                        v@ == it.seq().unref().take(it.index()),
                        it.seq().len() == 0 ==> v@ =~= it.seq().unref(),
                        it.index() == it.seq().len() ==> v@.to_set() == s@ && v@.no_duplicates(),
                {
                    let ghost idx = it.index();
                    v.push(k.copy_key());
                    proof {
                        assert(it.seq().unref().take(idx + 1) =~= it.seq().unref().take(idx).push(*k));
                        assert(it.seq().unref().take(it.seq().len() as int) =~= it.seq().unref());
                    }
                }
                v
            },
        }
    }

    /// Lower to `index` the blocker index of every active key of this set, and
    /// tell whether any key of the set is active.
    pub(crate) fn mark_conflicts(&self, active: &mut HashMap<K, usize>, index: usize) -> (conflict:
        bool)
        ensures
            final(active)@.dom() == old(active)@.dom(),
            forall|k: K| #[trigger]
                old(active)@.contains_key(k) ==> final(active)@[k] == (if self@.contains(k)
                    && index < old(active)@[k] {
                    index
                } else {
                    old(active)@[k]
                }),
            conflict == !self@.disjoint(old(active)@.dom()),
    {
        proof {
            K::lemma_key_model();
        }
        match self {
            KeySet::Single(k) => {
                let found = active.get(k);
                match found {
                    Some(b) => {
                        let blocker: usize = *b;
                        if index < blocker {
                            active.insert(k.copy_key(), index);
                        }
                        proof {
                            assert(set![*k].contains(*k));
                        }
                        true
                    },
                    None => {
                        proof {
                            assert(set![*k].disjoint(old(active)@.dom()));
                        }
                        false
                    },
                }
            },
            KeySet::Multiple(s) => {
                let ghost start = active@;
                let ghost mut seen: Set<K> = Set::empty();
                let mut conflict = false;
                for k in it: s.iter()
                    invariant
                        obeys_key_model::<K>(),
                        it.seq().unref().to_set() == s@,
                        seen.subset_of(s@),
                        forall|j: int| 0 <= j < it.index() ==> seen.contains(*it.seq()[j]),
                        it.index() == it.seq().len() ==> s@.subset_of(seen),
                        active@.dom() == start.dom(),
                        forall|k: K| #[trigger]
                            start.contains_key(k) ==> active@[k] == (if seen.contains(k) && index
                                < start[k] {
                                index
                            } else {
                                start[k]
                            }),
                        conflict == !seen.disjoint(start.dom()),
                {
                    let ghost idx = it.index();
                    let ghost prev = active@;
                    let found = active.get(k);
                    match found {
                        Some(b) => {
                            let blocker: usize = *b;
                            conflict = true;
                            if index < blocker {
                                active.insert(k.copy_key(), index);
                            }
                        },
                        None => {},
                    }
                    proof {
                        assert(it.seq().unref()[idx] == *k);
                        assert(it.seq().unref().to_set().contains(*k));
                        let ghost old_seen = seen;
                        seen = seen.insert(*k);
                        lemma_seq_within(it.seq(), seen, idx + 1);
                        if start.contains_key(*k) {
                            assert(seen.contains(*k) && start.dom().contains(*k));
                        }
                        if !conflict {
                            assert(seen.disjoint(start.dom()));
                        }
                    }
                }
                proof {
                    assert(seen =~= s@);
                }
                conflict
            },
        }
    }
}

} // verus!
