use bitchat::connection_manager::{BluetoothConnectionManager, Outbound};
use bitchat::packet::BitchatMessage;
use bitchat::packet_processor::{Inbound, PacketProcessor};
use bitchat::protocol::MessageType;
use bitchat::service::{BluetoothMeshService, MeshEvent};
use bitchat::wire::DecodeError;

#[test]
fn tags_round_trip() {
    for t in 0u8..=255 {
        match MessageType::from_tag(t) {
            Some(m) => assert_eq!(m.tag(), t),
            None => assert!(t == 0 || t > 7),
        }
    }
    assert_eq!(MessageType::Fragment.tag(), 5);
}

#[test]
fn dispatches_by_tag() {
    let mut pp = PacketProcessor::new("me".to_string());
    let m = BitchatMessage::new("Alice".to_string(), "hi".to_string());
    let mut packet = vec![1u8];
    packet.extend(m.to_binary_payload().unwrap());
    assert!(matches!(pp.process_packet(&packet, "p"), Inbound::Message(d) if d.content == "hi"));
    assert!(matches!(pp.process_packet(&[1, 0], "p"), Inbound::Malformed(DecodeError::Truncated)));
    assert!(matches!(pp.process_packet(&[2, b'B', b'o'], "p"), Inbound::Announce(n) if n == "Bo"));
    assert!(matches!(pp.process_packet(&[2, 0xff], "p"), Inbound::Malformed(DecodeError::InvalidUtf8)));
    assert!(matches!(pp.process_packet(&[3], "p"), Inbound::Leave));
    assert!(matches!(pp.process_packet(&[4, 9, 9], "p"), Inbound::KeyExchange(k) if k == vec![9, 9]));
    assert!(matches!(pp.process_packet(&[5, 1, 2], "p"), Inbound::Fragment(f) if f == vec![1, 2]));
    assert!(matches!(pp.process_packet(&[], "p"), Inbound::Empty));
    assert!(matches!(pp.process_packet(&[42, 1], "p"), Inbound::Unknown(42)));
    assert!(matches!(pp.process_packet(&[0], "p"), Inbound::Unknown(0)));
    assert_eq!(pp.unknown_count, 2);
    pp.shutdown();
    assert_eq!(pp.unknown_count, 0);
}

#[test]
fn outbox_queue() {
    let mut cm = BluetoothConnectionManager::new();
    cm.broadcast_packet(&[1, 2]);
    cm.send_to("p", &[3]);
    let out = cm.take_outbox();
    assert_eq!(out.len(), 2);
    assert!(matches!(&out[0], Outbound::Broadcast { packet } if packet == &vec![1, 2]));
    assert!(matches!(&out[1], Outbound::Direct { peer_id, packet } if peer_id == "p" && packet == &vec![3]));
    cm.broadcast_packet(&[1]);
    cm.stop_services();
    assert!(cm.take_outbox().is_empty());
}

#[test]
fn service_end_to_end() {
    let mut tx = BluetoothMeshService::new();
    let mut rx = BluetoothMeshService::new();
    assert_eq!(tx.my_peer_id.len(), 36);
    assert_ne!(tx.my_peer_id, rx.my_peer_id);
    assert!(!tx.is_active);
    assert!(tx.start());
    assert!(!tx.start());
    assert!(tx.is_active);
    let m = BitchatMessage::new("Alice".to_string(), "y".repeat(300));
    // 354 encoded bytes; 42 bytes of header leave 58 per fragment.
    assert_eq!(tx.broadcast_message(&m, 100), Some(7));
    let small = BitchatMessage::new("Alice".to_string(), "hi".to_string());
    assert_eq!(tx.broadcast_message(&small, 100), Some(1));
    let out = tx.connection_manager.take_outbox();
    let mut got = Vec::new();
    for o in out.iter().rev() {
        if let Outbound::Broadcast { packet } = o {
            for e in rx.on_packet_received(packet, "node-a", 5) {
                if let MeshEvent::MessageReceived(d) = e {
                    got.push(d.content);
                }
            }
        }
    }
    assert_eq!(got, vec!["hi".to_string(), "y".repeat(300)]);

    let ev = rx.on_packet_received(b"\x02Alice", "node-a", 6);
    assert_eq!(ev.len(), 2);
    assert!(rx.peer_manager.is_peer_active("node-a"));
    let mut kx = vec![4u8];
    kx.extend(tx.security_manager.public_key_bytes());
    assert!(rx.on_packet_received(&kx, "node-a", 7).is_empty());
    assert!(rx.security_manager.has_peer_key("node-a"));
    let ev = rx.on_packet_received(&[3], "node-a", 8);
    assert_eq!(ev.len(), 2);
    assert!(!rx.peer_manager.is_peer_active("node-a"));
    assert!(matches!(rx.on_packet_received(&[1, 0], "x", 9)[0], MeshEvent::DecodeFailed(DecodeError::Truncated)));

    let identity = rx.security_manager.public_key_bytes();
    rx.start();
    rx.stop();
    assert!(!rx.is_active);
    assert!(!rx.security_manager.has_peer_key("node-a"));
    assert_eq!(rx.security_manager.public_key_bytes(), identity);
    rx.stop();
    assert!(!rx.is_active);
}

#[test]
fn private_message_sealed_and_opened() {
    let mut a = BluetoothMeshService::new();
    let mut b = BluetoothMeshService::new();
    let mut kx = vec![4u8];
    kx.extend(b.security_manager.public_key_bytes());
    a.on_packet_received(&kx, "node-b", 1);
    let mut kx = vec![4u8];
    kx.extend(a.security_manager.public_key_bytes());
    b.on_packet_received(&kx, "node-a", 1);

    let m = BluetoothMeshService::compose_message(
        "Alice".to_string(),
        "só para ti".to_string(),
        Some("Bob".to_string()),
        Some("#dm".to_string()),
    );
    assert!(m.is_private);
    let sealed = a.seal_private_message(&m, "node-b").unwrap();
    assert!(sealed.is_encrypted && sealed.content.is_empty());
    assert_ne!(sealed.encrypted_content.as_ref().unwrap()[12..], *m.content.as_bytes());
    let wire = sealed.to_binary_payload().unwrap();
    let received = BitchatMessage::from_binary_payload(&wire).unwrap();
    let opened = b.open_private_message(&received, "node-a").unwrap();
    assert_eq!(opened.content, "só para ti");
    assert_eq!(opened.recipient_nickname, Some("Bob".to_string()));
    assert_eq!(opened.channel, Some("#dm".to_string()));
    assert!(!opened.is_encrypted);
    assert!(b.open_private_message(&received, "node-c").is_none());
    assert!(a.seal_private_message(&m, "node-c").is_none());
    assert!(a.seal_private_message(&sealed, "node-b").is_none());
}
