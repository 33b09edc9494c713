use kv_mpsc::buff::KeyedBuff;
use kv_mpsc::{Message, RecvError};

fn pop(b: &mut KeyedBuff<u64, u64>) -> Message<u64, u64> {
    match b.pop_unconflict_front() {
        Ok(m) => m,
        Err(e) => panic!("{:?}", e),
    }
}

#[test]
fn new_buffer_is_empty() {
    let mut b: KeyedBuff<u64, u64> = KeyedBuff::new(2);
    assert!(b.is_empty());
    assert!(!b.is_full());
    assert_eq!(b.len(), 0);
    assert_eq!(b.pop_unconflict_front(), Err(RecvError::AllConflict));
}

#[test]
fn full_at_capacity() {
    let mut b: KeyedBuff<u64, u64> = KeyedBuff::new(2);
    b.push_back(Message::single_key(1, 1));
    assert!(!b.is_full());
    b.push_back(Message::single_key(2, 2));
    assert!(b.is_full());
    assert_eq!(b.len(), 2);
}

#[test]
fn scan_skips_conflicting_and_rewinds_on_release() {
    let mut b: KeyedBuff<u64, u64> = KeyedBuff::new(4);
    b.push_back(Message::single_key(1, 10));
    b.push_back(Message::single_key(1, 11));
    b.push_back(Message::single_key(2, 12));
    assert_eq!(pop(&mut b), Message::single_key(1, 10));
    assert_eq!(pop(&mut b), Message::single_key(2, 12));
    assert_eq!(b.pop_unconflict_front(), Err(RecvError::AllConflict));
    b.push_back(Message::single_key(3, 13));
    assert_eq!(pop(&mut b), Message::single_key(3, 13));
    b.deactivate_key(&1);
    assert_eq!(pop(&mut b), Message::single_key(1, 11));
    assert!(b.is_empty());
}

#[test]
fn release_of_unrelated_key_keeps_blocked() {
    let mut b: KeyedBuff<u64, u64> = KeyedBuff::new(4);
    b.push_back(Message::multiple_keys(vec![1, 2], 0));
    b.push_back(Message::multiple_keys(vec![2, 3], 1));
    b.push_back(Message::single_key(1, 2));
    assert_eq!(pop(&mut b), Message::multiple_keys(vec![1, 2], 0));
    assert_eq!(b.pop_unconflict_front(), Err(RecvError::AllConflict));
    b.deactivate_key(&9);
    assert_eq!(b.pop_unconflict_front(), Err(RecvError::AllConflict));
    b.deactivate_key(&1);
    assert_eq!(pop(&mut b), Message::single_key(1, 2));
    b.deactivate_key(&2);
    assert_eq!(pop(&mut b), Message::multiple_keys(vec![2, 3], 1));
    assert!(b.is_empty());
}

#[test]
fn empty_key_set_is_never_blocked() {
    let mut b: KeyedBuff<u64, u64> = KeyedBuff::new(3);
    b.push_back(Message::single_key(5, 0));
    b.push_back(Message::single_key(5, 1));
    b.push_back(Message::multiple_keys(vec![], 2));
    assert_eq!(pop(&mut b), Message::single_key(5, 0));
    assert_eq!(pop(&mut b), Message::multiple_keys(vec![], 2));
    assert_eq!(b.pop_unconflict_front(), Err(RecvError::AllConflict));
}
