//! Messages: a key set and a value.
use std::collections::HashSet;
use vstd::prelude::*;
use crate::key::{Key, KeySet};

verus! {

/// A message: the keys it carries and its value.
#[derive(Debug, PartialEq, Eq)]
pub struct Message<K: Key, V> {
    key: KeySet<K>,
    value: V,
}

impl<K: Key, V> Message<K, V> {
    /// The key set of the message.
    pub closed spec fn spec_key(&self) -> KeySet<K> {
        self.key
    }

    /// The value of the message.
    pub closed spec fn spec_value(&self) -> V {
        self.value
    }

    /// The keys of the message, as a set.
    pub open spec fn keys(&self) -> Set<K> {
        self.spec_key()@
    }

    /// A message with several keys; a key given twice counts once.
    pub fn multiple_keys(keys: Vec<K>, value: V) -> (r: Self)
        ensures
            r.spec_key() is Multiple,
            r.keys() == keys@.to_set(),
            r.spec_value() == value,
    {
        Message { key: KeySet::from_keys(keys), value }
    }

    /// A message with a single key.
    pub fn single_key(key: K, value: V) -> (r: Self)
        ensures
            r.spec_key() == KeySet::Single(key),
            r.spec_value() == value,
    {
        Message { key: KeySet::Single(key), value }
    }

    /// Whether the message carries a set of keys rather than a single key.
    pub fn is_multiple(&self) -> (r: bool)
        ensures
            r == (self.spec_key() is Multiple),
    {
        self.key.is_multiple()
    }

    /// The key of a single-key message.
    pub fn get_single_key(&self) -> (r: Option<&K>)
        ensures
            match self.spec_key() {
                KeySet::Single(k) => r == Some(&k),
                KeySet::Multiple(_) => r is None,
            },
    {
        self.key.get_single_key()
    }

    /// The key set of a message with several keys.
    pub fn get_key_set(&self) -> (r: Option<&HashSet<K>>)
        ensures
            match self.spec_key() {
                KeySet::Single(_) => r is None,
                KeySet::Multiple(s) => r == Some(&s),
            },
    {
        self.key.get_key_set()
    }

    /// The value of the message.
    pub fn get_value(&self) -> (r: &V)
        ensures
            *r == self.spec_value(),
    {
        &self.value
    }

    /// The keys of the message.
    pub fn key_set(&self) -> (r: &KeySet<K>)
        ensures
            *r == self.spec_key(),
    {
        &self.key
    }
}

/// What a delivered message calls on the channel it came from when it is
/// dropped: the channel deactivates the message's keys.
pub trait DeactivateKeys {
    /// The key type of the channel.
    type Key: Key;

    /// Deactivate the given keys.
    fn release_key(&self, keys: &KeySet<Self::Key>);
}

} // verus!
