use bitchat::peer_manager::{PeerEvent, PeerManager};
use bitchat::security_manager::{open_with_key, seal_with_key, SecurityManager};

#[test]
fn observe_new_then_known_peer() {
    let mut pm = PeerManager::new();
    assert!(pm.add_or_update_peer("peerA", "Alice", 10));
    let ev = pm.take_events();
    assert_eq!(ev.len(), 2);
    assert!(matches!(&ev[0], PeerEvent::Connected { nickname } if nickname == "Alice"));
    assert!(matches!(&ev[1], PeerEvent::ListChanged { peer_ids } if peer_ids == &vec!["peerA".to_string()]));
    assert!(!pm.add_or_update_peer("peerA", "Alicia", 20));
    assert!(pm.take_events().is_empty());
    assert_eq!(pm.get_peer_nickname("peerA"), Some("Alicia".to_string()));
    assert_eq!(pm.get_active_peer_count(), 1);
}

#[test]
fn remove_touch_signal_and_announce() {
    let mut pm = PeerManager::new();
    pm.add_or_update_peer("p1", "One", 1);
    pm.add_or_update_peer("p2", "Two", 2);
    pm.take_events();
    pm.update_peer_rssi("p2", -60);
    pm.update_peer_last_seen("p2", 99);
    assert!(!pm.has_announced_to_peer("p2"));
    pm.mark_peer_as_announced_to("p2");
    assert!(pm.has_announced_to_peer("p2"));
    assert!(!pm.has_announced_to_peer("nobody"));
    assert!(pm.take_events().is_empty());
    assert_eq!(pm.get_all_peer_rssi(), vec![("p1".to_string(), 0), ("p2".to_string(), -60)]);
    assert_eq!(
        pm.get_all_peer_nicknames(),
        vec![("p1".to_string(), "One".to_string()), ("p2".to_string(), "Two".to_string())]
    );
    pm.remove_peer("p1");
    let ev = pm.take_events();
    assert!(matches!(&ev[0], PeerEvent::Disconnected { nickname } if nickname == "One"));
    assert!(matches!(&ev[1], PeerEvent::ListChanged { peer_ids } if peer_ids == &vec!["p2".to_string()]));
    pm.remove_peer("p1");
    assert!(pm.take_events().is_empty());
    assert!(!pm.is_peer_active("p1"));
    assert_eq!(pm.get_all_peer_ids(), vec!["p2".to_string()]);
    pm.shutdown();
    assert_eq!(pm.get_active_peer_count(), 0);
}

fn paired() -> (SecurityManager, SecurityManager) {
    let mut a = SecurityManager::new();
    let mut b = SecurityManager::new();
    assert!(a.register_peer_key_bytes("B", &b.public_key_bytes()));
    assert!(b.register_peer_key_bytes("A", &a.public_key_bytes()));
    (a, b)
}

#[test]
fn encrypt_then_decrypt_with_peer_keys() {
    let (mut a, b) = paired();
    let msg = b"meet at the north gate".to_vec();
    let c = a.encrypt_for_peer(&msg, "B").unwrap();
    assert_ne!(&c[12..], &msg[..]);
    assert_eq!(c.len(), 12 + msg.len() + 16);
    assert_eq!(b.decrypt_from_peer(&c, "A").unwrap(), msg);
    assert!(b.decrypt_from_peer(&c, "stranger").is_none());
    let mut tampered = c.clone();
    tampered[20] ^= 1;
    assert!(b.decrypt_from_peer(&tampered, "A").is_none());
    assert!(b.decrypt_from_peer(&c[..11], "A").is_none());
}

#[test]
fn wrong_key_fails() {
    let (mut a, _b) = paired();
    let mut other = SecurityManager::new();
    assert!(other.register_peer_key_bytes("A", &a.public_key_bytes()));
    let c = a.encrypt_for_peer(b"secret", "B").unwrap();
    assert!(other.decrypt_from_peer(&c, "A").is_none());
    assert!(a.encrypt_for_peer(b"x", "nobody").is_none());
    assert!(!a.register_peer_key_bytes("C", &[1, 2, 3]));
    a.shutdown();
    assert!(!a.has_peer_key("B"));
}

#[test]
fn nonces_never_repeat() {
    let (mut a, _b) = paired();
    let c1 = a.encrypt_for_peer(b"same", "B").unwrap();
    let c2 = a.encrypt_for_peer(b"same", "B").unwrap();
    assert_ne!(&c1[..12], &c2[..12]);
    assert_ne!(c1, c2);
    assert_eq!(a.nonce_counter(), 2);
}

#[test]
fn seal_and_open_with_key() {
    let key = [7u8; 32];
    let nonce = [1u8; 12];
    let sealed = seal_with_key(&key, &nonce, b"hello").unwrap();
    assert_eq!(&sealed[..12], &nonce);
    assert_ne!(&sealed[12..17], b"hello");
    assert_eq!(open_with_key(&key, &sealed).unwrap(), b"hello".to_vec());
    assert!(open_with_key(&[8u8; 32], &sealed).is_none());
}
