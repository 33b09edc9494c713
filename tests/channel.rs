use kv_mpsc::err::TrySendError;
use kv_mpsc::state::State;
use kv_mpsc::{KeySet, Message, RecvError};
use std::collections::HashSet;

fn recv_msg(s: &mut State<i32, i32>) -> Message<i32, i32> {
    match s.try_recv() {
        Ok(Some(m)) => m,
        other => panic!("expected a message, got {:?}", other),
    }
}

fn drop_msg<K: kv_mpsc::Key, V>(s: &mut State<K, V>, m: Message<K, V>) {
    s.release(m.key_set());
}

#[test]
fn test_sender_close() {
    let cap = 10;
    let mut s: State<i32, i32> = State::new(cap);
    let msg = Message::single_key(1, 1);
    assert_eq!(s.try_send(msg), Ok(()));
    assert!(s.remove_sender());
    assert_eq!(s.try_recv(), Ok(Some(Message::single_key(1, 1))));
    assert_eq!(s.try_recv(), Err(RecvError::Disconnected));
}

#[test]
fn test_receiver_close() {
    let cap = 10;
    let mut s: State<i32, i32> = State::new(cap);
    s.close();
    let msg = Message::single_key(1, 1);
    assert_eq!(s.try_send(msg), Err(TrySendError::Disconnected(Message::single_key(1, 1))));
}

#[test]
fn test_no_conflict_single_key_send_recv() {
    let cap = 10;
    let send = 100;
    let threads = 10;
    let mut s: State<i32, i32> = State::new(cap);
    for _ in 1..threads {
        s.add_sender();
    }
    let mut next = vec![0; threads as usize];
    let mut sum = 0;
    let mut received = 0;
    while received < send * threads {
        for thread_id in 0..threads {
            let i = next[thread_id as usize];
            if i < send && s.send_ready() {
                let msg = Message::single_key(thread_id * send + i, thread_id * send + i);
                assert_eq!(s.try_send(msg), Ok(()));
                next[thread_id as usize] = i + 1;
            }
        }
        let msg = recv_msg(&mut s);
        assert_eq!(msg.get_single_key().unwrap(), msg.get_value());
        sum += msg.get_value();
        received += 1;
        drop_msg(&mut s, msg);
    }
    assert_eq!((0..threads * send).sum::<i32>(), sum);
    assert_eq!(sum, 499500);
    for _ in 0..threads {
        s.remove_sender();
    }
    assert_eq!(s.try_recv(), Err(RecvError::Disconnected));
}

#[test]
fn test_no_conflict_multiple_keys_send_recv() {
    let cap = 10;
    let send = 100;
    let threads = 10;
    let mut s: State<i32, i32> = State::new(cap);
    let mut next = vec![0; threads as usize];
    let mut sum = 0;
    let mut received = 0;
    while received < send * threads {
        for thread_id in 0..threads {
            let i = next[thread_id as usize];
            if i < send && s.send_ready() {
                let key1 = thread_id * send + i;
                let msg = Message::multiple_keys(vec![key1, key1 * 2], thread_id * send + i);
                assert_eq!(s.try_send(msg), Ok(()));
                next[thread_id as usize] = i + 1;
            }
        }
        let msg = recv_msg(&mut s);
        sum += msg.get_value();
        received += 1;
        drop_msg(&mut s, msg);
    }
    assert_eq!((0..threads * send).sum::<i32>(), sum);
}

#[test]
fn test_conflict_single_key_send_recv() {
    let cap = 10;
    let key1 = 1;
    let key2 = 2;
    let mut s: State<usize, usize> = State::new(cap);
    for i in 0..cap {
        assert_eq!(s.try_send(Message::single_key(key1, i)), Ok(()));
    }
    let msg = match s.try_recv() {
        Ok(Some(m)) => m,
        other => panic!("{:?}", other),
    };
    assert_eq!(msg.get_single_key().unwrap(), &key1);
    assert_eq!(s.try_recv(), Err(RecvError::AllConflict));

    assert_eq!(s.try_send(Message::single_key(key2, cap)), Ok(()));
    let msg2 = match s.try_recv() {
        Ok(Some(m)) => m,
        other => panic!("{:?}", other),
    };
    assert_eq!(msg2.get_single_key().unwrap(), &key2);
    drop_msg(&mut s, msg);

    assert_eq!(s.try_send(Message::single_key(key2, cap)), Ok(()));

    let msg3 = match s.try_recv() {
        Ok(Some(m)) => m,
        other => panic!("{:?}", other),
    };
    assert_eq!(msg3.get_single_key().unwrap(), &key1);
    assert_eq!(s.try_recv(), Err(RecvError::AllConflict));
    drop_msg(&mut s, msg3);

    let remained_key1 = cap - 2;
    for _ in 0..remained_key1 {
        let msg4 = match s.try_recv() {
            Ok(Some(m)) => m,
            other => panic!("{:?}", other),
        };
        assert_eq!(msg4.get_single_key().unwrap(), &key1);
        assert_eq!(s.try_recv(), Err(RecvError::AllConflict));
        drop_msg(&mut s, msg4);
    }
    drop_msg(&mut s, msg2);
    let msg5 = match s.try_recv() {
        Ok(Some(m)) => m,
        other => panic!("{:?}", other),
    };
    assert_eq!(msg5.get_single_key().unwrap(), &key2);
}

#[test]
fn test_conflict_multiple_key_send_recv() {
    let cap = 10;
    let mut s: State<usize, usize> = State::new(cap);
    let keys = (0..cap).collect::<Vec<usize>>();
    for i in 0..keys.len() {
        let msg = Message::multiple_keys(keys[0..=i].to_vec(), i);
        assert_eq!(s.try_send(msg), Ok(()));
    }
    assert!(s.remove_sender());
    for i in 0..cap {
        let msg = match s.try_recv() {
            Ok(Some(m)) => m,
            other => panic!("{:?}", other),
        };
        assert_eq!(msg.get_key_set().unwrap(), &keys[0..=i].iter().copied().collect::<HashSet<usize>>());
        assert_eq!(msg.get_value(), &i);
        assert_eq!(
            s.try_recv(),
            if i < cap - 1 { Err(RecvError::AllConflict) } else { Err(RecvError::Disconnected) }
        );
        drop_msg(&mut s, msg);
    }
}

#[test]
fn single_sender_single_key_no_conflict() {
    let mut s: State<i32, i32> = State::new(1);
    assert_eq!(s.try_send(Message::single_key(1, 1)), Ok(()));
    let msg = recv_msg(&mut s);
    assert_eq!(msg.get_single_key(), Some(&1));
    assert_eq!(msg.get_value(), &1);
    assert!(s.remove_sender());
    assert_eq!(s.try_recv(), Err(RecvError::Disconnected));
}

#[test]
fn immediate_conflict() {
    let mut s: State<i32, i32> = State::new(1);
    assert_eq!(s.try_send(Message::single_key(1, 1)), Ok(()));
    assert!(!s.send_ready());
    assert_eq!(s.try_send(Message::single_key(1, 2)), Err(TrySendError::Full(Message::single_key(1, 2))));
    let msg = recv_msg(&mut s);
    assert_eq!(msg, Message::single_key(1, 1));
    assert!(s.send_ready());
    assert_eq!(s.try_send(Message::single_key(1, 2)), Ok(()));
    assert_eq!(s.try_recv(), Err(RecvError::AllConflict));
    drop_msg(&mut s, msg);
    let msg = recv_msg(&mut s);
    assert_eq!(msg, Message::single_key(1, 2));
    assert!(s.remove_sender());
    drop_msg(&mut s, msg);
    assert_eq!(s.try_recv(), Err(RecvError::Disconnected));
}

#[test]
fn receiver_closed_first() {
    let mut s: State<i32, i32> = State::new(10);
    s.close();
    assert!(s.is_disconnected());
    assert!(s.send_ready());
    assert_eq!(s.try_send(Message::single_key(1, 1)), Err(TrySendError::Disconnected(Message::single_key(1, 1))));
    assert_eq!(s.len(), 0);
}

#[test]
fn multi_key_conflict_cascade() {
    let mut s: State<i32, i32> = State::new(10);
    for i in 0..10 {
        assert_eq!(s.try_send(Message::multiple_keys((0..=i).collect(), i)), Ok(()));
    }
    assert!(s.remove_sender());
    for i in 0..10 {
        let msg = recv_msg(&mut s);
        assert_eq!(msg.get_value(), &i);
        if i < 9 {
            assert_eq!(s.try_recv(), Err(RecvError::AllConflict));
        }
        drop_msg(&mut s, msg);
    }
    assert_eq!(s.try_recv(), Err(RecvError::Disconnected));
}

#[test]
fn release_then_retry_across_producers() {
    let k1 = 1;
    let k2 = 2;
    let mut s: State<i32, i32> = State::new(10);
    for i in 0..10 {
        assert_eq!(s.try_send(Message::single_key(k1, i)), Ok(()));
    }
    let first = recv_msg(&mut s);
    assert_eq!(first.get_value(), &0);
    assert_eq!(s.try_recv(), Err(RecvError::AllConflict));
    s.add_sender();
    assert_eq!(s.n_senders(), 2);
    assert_eq!(s.try_send(Message::single_key(k2, 100)), Ok(()));
    let other = recv_msg(&mut s);
    assert_eq!(other.get_single_key(), Some(&k2));
    drop_msg(&mut s, first);
    let next = recv_msg(&mut s);
    assert_eq!(next.get_single_key(), Some(&k1));
    assert_eq!(next.get_value(), &1);
    assert_eq!(s.try_recv(), Err(RecvError::AllConflict));
    assert!(!s.remove_sender());
    assert!(!s.is_disconnected());
}

#[test]
fn empty_buffer_open_channel_gives_nothing() {
    let mut s: State<u64, u64> = State::new(3);
    assert_eq!(s.try_recv(), Ok(None));
    assert_eq!(s.n_senders(), 1);
    assert!(!s.is_disconnected());
}

#[test]
fn release_of_multiple_keys_unblocks() {
    let mut s: State<u64, u64> = State::new(4);
    assert_eq!(s.try_send(Message::multiple_keys(vec![1, 2, 3], 10)), Ok(()));
    assert_eq!(s.try_send(Message::single_key(3, 11)), Ok(()));
    assert_eq!(s.try_send(Message::single_key(4, 12)), Ok(()));
    let a = match s.try_recv() {
        Ok(Some(m)) => m,
        other => panic!("{:?}", other),
    };
    assert_eq!(a.get_value(), &10);
    let b = match s.try_recv() {
        Ok(Some(m)) => m,
        other => panic!("{:?}", other),
    };
    assert_eq!(b.get_value(), &12);
    assert_eq!(s.try_recv(), Err(RecvError::AllConflict));
    s.release(&KeySet::from_keys(vec![1, 2, 3]));
    assert_eq!(s.try_recv(), Ok(Some(Message::single_key(3, 11))));
}
