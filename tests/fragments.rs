use bitchat::fragment_manager::{decode_fragment, fragment_payload, FragmentError, FragmentManager};
use bitchat::packet::BitchatMessage;

fn payload(n: usize) -> Vec<u8> {
    (0..n).map(|i| (i * 7 % 251) as u8).collect()
}

fn feed(fm: &mut FragmentManager, frags: &[Vec<u8>], order: &[usize], now: i64) -> Vec<Option<Vec<u8>>> {
    order.iter().map(|&k| fm.handle_fragment(&frags[k][1..], "peerA".to_string(), now)).collect()
}

#[test]
fn five_fragments_reassembled_in_reverse() {
    let data = payload(500);
    // id "m" takes 2 bytes, tag, index and total 5 more: 100 bytes of payload per fragment.
    let frags = fragment_payload("m", &data, 107).unwrap();
    assert_eq!(frags.len(), 5);
    for f in &frags[..4] {
        assert_eq!(f.len() - 7, 100);
    }
    assert_eq!(frags[4].len() - 7, 100);
    let mut fm = FragmentManager::new();
    let out = feed(&mut fm, &frags, &[4, 3, 2, 1, 0], 0);
    assert!(out[..4].iter().all(|o| o.is_none()));
    assert_eq!(out[4].as_ref().unwrap(), &data);
    assert_eq!(fm.pending_count(), 0);
}

#[test]
fn mtu_one_hundred_leaves_remainder_last() {
    let data = payload(500);
    let frags = fragment_payload("m", &data, 100).unwrap();
    assert_eq!(frags.len(), 6);
    for f in &frags {
        assert!(f.len() <= 100);
    }
    for f in &frags[..5] {
        assert_eq!(f.len(), 100);
    }
    assert_eq!(frags[5].len() - 7, 500 - 5 * 93);
    let head = decode_fragment(&frags[2][1..]).ok().unwrap();
    assert_eq!(head.message_id, "m");
    assert_eq!(head.index, 2);
    assert_eq!(head.total, 6);
    assert_eq!(frags[2][0], 5);
}

#[test]
fn any_arrival_order_reassembles() {
    let data = payload(1000);
    let frags = fragment_payload("msg-7", &data, 64).unwrap();
    let n = frags.len();
    let mut order: Vec<usize> = (0..n).collect();
    let mut seed: u64 = 12345;
    for round in 0..5 {
        for i in (1..n).rev() {
            seed = seed.wrapping_mul(6364136223846793005).wrapping_add(1442695040888963407);
            order.swap(i, (seed >> 33) as usize % (i + 1));
        }
        let mut fm = FragmentManager::new();
        let out = feed(&mut fm, &frags, &order, round);
        assert!(out[..n - 1].iter().all(|o| o.is_none()));
        assert_eq!(out[n - 1].as_ref().unwrap(), &data);
    }
}

#[test]
fn empty_and_single_fragment() {
    let frags = fragment_payload("e", &[], 20).unwrap();
    assert_eq!(frags.len(), 1);
    let mut fm = FragmentManager::new();
    assert_eq!(fm.handle_fragment(&frags[0][1..], "p".to_string(), 0), Some(vec![]));
    assert!(fragment_payload("e", &[1, 2, 3], 7).is_none());
    assert_eq!(fragment_payload("e", &[1, 2, 3], 8).unwrap().len(), 3);
    assert!(fragment_payload(&"x".repeat(256), &[1], 1000).is_none());
}

#[test]
fn missing_fragment_never_delivers_and_expires() {
    let data = payload(300);
    let frags = fragment_payload("lost", &data, 60).unwrap();
    let mut fm = FragmentManager::new();
    let out = feed(&mut fm, &frags, &(1..frags.len()).collect::<Vec<_>>(), 1_000);
    assert!(out.iter().all(|o| o.is_none()));
    assert!(fm.is_pending(&"lost".to_string()));
    fm.evict_expired(30_999);
    assert!(fm.is_pending(&"lost".to_string()));
    fm.evict_expired(31_000);
    assert!(!fm.is_pending(&"lost".to_string()));
    assert_eq!(fm.pending_count(), 0);
}

#[test]
fn duplicates_and_protocol_errors() {
    let mut fm = FragmentManager::new();
    assert_eq!(fm.accept_fragment("a".to_string(), 3, 3, "p".to_string(), vec![1], 0), Err(FragmentError::IndexOutOfRange));
    assert_eq!(fm.accept_fragment("a".to_string(), 0, 0, "p".to_string(), vec![1], 0), Err(FragmentError::IndexOutOfRange));
    assert_eq!(fm.accept_fragment("a".to_string(), 0, 2, "p".to_string(), vec![1], 0), Ok(None));
    assert_eq!(fm.accept_fragment("a".to_string(), 0, 2, "p".to_string(), vec![9], 0), Ok(None));
    assert_eq!(fm.accept_fragment("a".to_string(), 1, 3, "p".to_string(), vec![2], 0), Err(FragmentError::TotalMismatch));
    assert_eq!(fm.accept_fragment("a".to_string(), 1, 2, "p".to_string(), vec![2], 0), Ok(Some(vec![9, 2])));
    assert!(!fm.is_pending(&"a".to_string()));
    assert_eq!(fm.handle_fragment(&[5, b'a'], "p".to_string(), 0), None);
}

#[test]
fn create_fragments_from_message() {
    let m = BitchatMessage::new("Alice".to_string(), "z".repeat(400));
    let fm = FragmentManager::new();
    let frags = fm.create_fragments(&m, 120).unwrap();
    let mut rx = FragmentManager::new();
    let mut result = None;
    for f in frags.iter().rev() {
        result = rx.handle_fragment(&f[1..], "peerA".to_string(), 0);
    }
    let d = BitchatMessage::from_binary_payload(&result.unwrap()).unwrap();
    assert_eq!(d.content, m.content);
    assert_eq!(d.id, m.id);
    let mut fm2 = FragmentManager::new();
    fm2.shutdown();
    assert_eq!(fm2.pending_count(), 0);
}

#[test]
fn late_fragment_is_not_delivered() {
    let data = payload(300);
    let frags = fragment_payload("late", &data, 60).unwrap();
    let n = frags.len();
    let mut fm = FragmentManager::new();
    for f in &frags[1..] {
        assert_eq!(fm.handle_fragment(&f[1..], "p".to_string(), 1_000), None);
    }
    // The missing fragment arrives after the inactivity window: the old
    // partial is dropped and a fresh record holds only this fragment.
    assert_eq!(fm.handle_fragment(&frags[0][1..], "p".to_string(), 31_000), None);
    assert!(fm.is_pending(&"late".to_string()));
    assert_eq!(fm.pending_count(), 1);
    // Just inside the window the message still completes.
    let mut fm = FragmentManager::new();
    for f in &frags[1..] {
        fm.handle_fragment(&f[1..], "p".to_string(), 1_000);
    }
    assert_eq!(fm.handle_fragment(&frags[0][1..], "p".to_string(), 30_999), Some(data));
    assert!(n > 1);
}
