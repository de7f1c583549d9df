use bitchat::external::{MAX_UTC_MILLIS, MIN_UTC_MILLIS};
use bitchat::packet::{BitchatMessage, DeliveryAck, DeliveryStatus, EncodingError, ReadReceipt};
use bitchat::wire::DecodeError;

fn plain(id: &str, sender: &str, content: &str) -> BitchatMessage {
    BitchatMessage {
        id: id.to_string(),
        sender: sender.to_string(),
        content: content.to_string(),
        timestamp: 1_700_000_000_123,
        is_relay: false,
        original_sender: None,
        is_private: false,
        recipient_nickname: None,
        sender_peer_id: None,
        mentions: None,
        channel: None,
        encrypted_content: None,
        is_encrypted: false,
        delivery_status: Some(DeliveryStatus::Sending),
    }
}

#[test]
fn encodes_exact_layout() {
    let m = plain("a", "b", "hi");
    let bytes = m.to_binary_payload().unwrap();
    let ts = 1_700_000_000_123i64.to_be_bytes();
    let mut expected = vec![0u8];
    expected.extend_from_slice(&ts);
    expected.extend_from_slice(&[1, b'a', 1, b'b', 0, 2, b'h', b'i']);
    assert_eq!(bytes, expected);
}

#[test]
fn round_trip_every_field() {
    let mut m = plain("id-1", "Alice", "héllo @Bob");
    m.is_relay = true;
    m.original_sender = Some("Carol".to_string());
    m.is_private = true;
    m.recipient_nickname = Some("Bob".to_string());
    m.sender_peer_id = Some("peer-9".to_string());
    m.mentions = Some(vec!["Bob".to_string(), "Dave".to_string()]);
    m.channel = Some("#general".to_string());
    let bytes = m.to_binary_payload().unwrap();
    assert_eq!(bytes[0], 0x7f);
    let d = BitchatMessage::from_binary_payload(&bytes).unwrap();
    assert_eq!(d.id, m.id);
    assert_eq!(d.sender, m.sender);
    assert_eq!(d.content, m.content);
    assert_eq!(d.timestamp, m.timestamp);
    assert!(d.is_relay && d.is_private && !d.is_encrypted);
    assert_eq!(d.original_sender, m.original_sender);
    assert_eq!(d.recipient_nickname, m.recipient_nickname);
    assert_eq!(d.sender_peer_id, m.sender_peer_id);
    assert_eq!(d.mentions, m.mentions);
    assert_eq!(d.channel, m.channel);
    assert!(d.delivery_status.is_none());
}

#[test]
fn round_trip_encrypted() {
    let mut m = plain("x", "Alice", "");
    m.is_encrypted = true;
    m.encrypted_content = Some(vec![0, 255, 7, 128]);
    let bytes = m.to_binary_payload().unwrap();
    assert_eq!(bytes[0], 0x80);
    let d = BitchatMessage::from_binary_payload(&bytes).unwrap();
    assert!(d.is_encrypted);
    assert_eq!(d.encrypted_content, Some(vec![0, 255, 7, 128]));
    assert_eq!(d.content, "");
}

#[test]
fn private_message_flags() {
    let mut m = plain("m1", "Alice", "hi");
    m.is_private = true;
    let bytes = m.to_binary_payload().unwrap();
    assert_eq!(bytes[0], 0x02);
    let d = BitchatMessage::from_binary_payload(&bytes).unwrap();
    assert!(d.is_private);
    assert!(d.recipient_nickname.is_none());
    assert!(d.mentions.is_none() && d.channel.is_none());

    m.recipient_nickname = Some("Bob".to_string());
    let bytes = m.to_binary_payload().unwrap();
    assert_eq!(bytes[0], 0x0a);
    let d = BitchatMessage::from_binary_payload(&bytes).unwrap();
    assert!(d.is_private);
    assert_eq!(d.recipient_nickname, Some("Bob".to_string()));
}

#[test]
fn short_buffers_are_truncated() {
    let bytes = plain("a", "b", "c").to_binary_payload().unwrap();
    for n in 0..9 {
        assert_eq!(BitchatMessage::from_binary_payload(&bytes[..n]).unwrap_err(), DecodeError::Truncated);
    }
    let empty = plain("", "", "").to_binary_payload().unwrap();
    assert_eq!(empty.len(), 13);
    for n in 9..13 {
        assert_eq!(BitchatMessage::from_binary_payload(&empty[..n]).unwrap_err(), DecodeError::Truncated);
    }
    // Too short even where the timestamp or the text could not be read.
    let mut bad = vec![0u8];
    bad.extend_from_slice(&i64::MAX.to_be_bytes());
    bad.extend_from_slice(&[1, 0xff]);
    for n in 9..=bad.len() {
        assert_eq!(BitchatMessage::from_binary_payload(&bad[..n]).unwrap_err(), DecodeError::Truncated);
    }
    assert!(BitchatMessage::from_binary_payload(&empty).is_ok());
    for n in 0..bytes.len() {
        assert!(BitchatMessage::from_binary_payload(&bytes[..n]).is_err());
    }
}

#[test]
fn invalid_utf8_is_reported() {
    let mut bytes = plain("a", "b", "c").to_binary_payload().unwrap();
    bytes[10] = 0xff;
    assert_eq!(BitchatMessage::from_binary_payload(&bytes).unwrap_err(), DecodeError::InvalidUtf8);
}

#[test]
fn invalid_timestamp_is_reported() {
    let mut bytes = plain("a", "b", "c").to_binary_payload().unwrap();
    bytes[1..9].copy_from_slice(&i64::MAX.to_be_bytes());
    assert_eq!(BitchatMessage::from_binary_payload(&bytes).unwrap_err(), DecodeError::InvalidTimestamp);
}

#[test]
fn oversized_fields_are_refused() {
    let long = "x".repeat(256);
    assert_eq!(plain(&long, "b", "c").to_binary_payload().unwrap_err(), EncodingError::InvalidMessage);
    assert!(plain(&"x".repeat(255), "b", "c").to_binary_payload().is_ok());
    let mut m = plain("a", "b", "c");
    m.is_encrypted = true;
    assert_eq!(m.to_binary_payload().unwrap_err(), EncodingError::InvalidMessage);
    let mut m = plain("a", "b", "c");
    m.mentions = Some(vec!["m".to_string(); 256]);
    assert!(m.to_binary_payload().is_err());
    m.mentions = Some(vec!["m".to_string(); 255]);
    assert!(m.to_binary_payload().is_ok());
}

#[test]
fn new_message_is_fresh() {
    let a = BitchatMessage::new("Alice".to_string(), "hello".to_string());
    let b = BitchatMessage::new("Alice".to_string(), "hello".to_string());
    assert_eq!(a.id.len(), 36);
    assert_ne!(a.id, b.id);
    assert_eq!(a.delivery_status, Some(DeliveryStatus::Sending));
    assert!(a.timestamp > 1_600_000_000_000);
    let d = BitchatMessage::from_binary_payload(&a.to_binary_payload().unwrap()).unwrap();
    assert_eq!(d.id, a.id);
}

#[test]
fn ack_and_receipt_round_trip() {
    let ack = DeliveryAck::new("m1".to_string(), "peerB".to_string(), "Bob".to_string(), 3);
    assert_eq!(ack.ack_id.len(), 36);
    let bytes = ack.to_binary_payload().unwrap();
    let d = DeliveryAck::from_binary_payload(&bytes).unwrap();
    assert_eq!(d.original_message_id, "m1");
    assert_eq!(d.ack_id, ack.ack_id);
    assert_eq!(d.recipient_id, "peerB");
    assert_eq!(d.recipient_nickname, "Bob");
    assert_eq!(d.timestamp, ack.timestamp);
    assert_eq!(d.hop_count, 3);
    assert_eq!(DeliveryAck::from_binary_payload(&bytes[..bytes.len() - 1]).unwrap_err(), DecodeError::Truncated);

    let rr = ReadReceipt::new("m1".to_string(), "peerB".to_string(), "Bob".to_string());
    let bytes = rr.to_binary_payload().unwrap();
    let d = ReadReceipt::from_binary_payload(&bytes).unwrap();
    assert_eq!(d.receipt_id, rr.receipt_id);
    assert_eq!(d.reader_nickname, "Bob");
    assert_eq!(d.timestamp, rr.timestamp);
}

#[test]
fn display_texts() {
    assert_eq!(DeliveryStatus::Sending.get_display_text(), "Sending...");
    assert_eq!(DeliveryStatus::Sent.get_display_text(), "Sent");
    assert_eq!(DeliveryStatus::Delivered { to: "Bob".to_string(), at: 0 }.get_display_text(), "Delivered to Bob");
    assert_eq!(DeliveryStatus::Read { by: "Bob".to_string(), at: 0 }.get_display_text(), "Read by Bob");
    assert_eq!(DeliveryStatus::Failed { reason: "gone".to_string() }.get_display_text(), "Failed: gone");
    assert_eq!(
        DeliveryStatus::PartiallyDelivered { reached: 3, total: 10 }.get_display_text(),
        "Delivered to 3/10"
    );
    assert_eq!(
        DeliveryStatus::PartiallyDelivered { reached: 0, total: 4294967295 }.get_display_text(),
        "Delivered to 0/4294967295"
    );
}

#[test]
fn timestamp_range_bounds() {
    for ts in [MIN_UTC_MILLIS, MAX_UTC_MILLIS, 0, -1] {
        let mut m = plain("a", "b", "c");
        m.timestamp = ts;
        let bytes = m.to_binary_payload().unwrap();
        assert_eq!(BitchatMessage::from_binary_payload(&bytes).unwrap().timestamp, ts);
    }
    for ts in [MIN_UTC_MILLIS - 1, MAX_UTC_MILLIS + 1, i64::MIN, i64::MAX] {
        let mut m = plain("a", "b", "c");
        m.timestamp = ts;
        assert_eq!(m.to_binary_payload().unwrap_err(), EncodingError::InvalidMessage);
        let mut bytes = plain("a", "b", "c").to_binary_payload().unwrap();
        bytes[1..9].copy_from_slice(&ts.to_be_bytes());
        assert_eq!(BitchatMessage::from_binary_payload(&bytes).unwrap_err(), DecodeError::InvalidTimestamp);
    }
}
