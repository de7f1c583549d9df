//! Dispatch of inbound packets: the type tag picks how the payload is read.

use vstd::prelude::*;
use vstd::utf8::{decode_utf8, valid_utf8};
use crate::external::string_from_utf8;
use crate::packet::{parse_ack, parse_message, parse_receipt, BitchatMessage, DeliveryAck, ReadReceipt, WireMessage, AckView, ReceiptView};
use crate::protocol::{MessageType};
use crate::wire::DecodeError;

verus! {

/// What an inbound packet turned out to be.
#[derive(Debug)]
pub enum Inbound {
    Message(BitchatMessage),
    /// A fragment's payload, for the reassembly engine.
    Fragment(Vec<u8>),
    /// A peer announced itself under this nickname.
    Announce(String),
    Leave,
    /// A peer's public key, SEC1-encoded.
    KeyExchange(Vec<u8>),
    DeliveryAck(DeliveryAck),
    ReadReceipt(ReadReceipt),
    /// The payload could not be read; the packet is dropped.
    Malformed(DecodeError),
    /// A type tag this node does not know; the packet is ignored.
    Unknown(u8),
    /// A packet without even a type tag.
    Empty,
}

/// The dispatch rule: what `packet` must be classified as.
pub open spec fn dispatched(packet: Seq<u8>, r: Inbound) -> bool {
    if packet.len() == 0 {
        r is Empty
    } else {
        let tag = packet[0];
        let payload = packet.skip(1);
        if tag == 1 {
            match r {
                Inbound::Message(m) => parse_message(payload) == Ok::<WireMessage, DecodeError>(m.wire())
                    && m.delivery_status is None,
                Inbound::Malformed(e) => parse_message(payload) == Err::<WireMessage, DecodeError>(e),
                _ => false,
            }
        } else if tag == 2 {
            match r {
                Inbound::Announce(s) => valid_utf8(payload) && s@ == decode_utf8(payload),
                Inbound::Malformed(e) => !valid_utf8(payload) && e == DecodeError::InvalidUtf8,
                _ => false,
            }
        } else if tag == 3 {
            r is Leave
        } else if tag == 4 {
            r matches Inbound::KeyExchange(k) && k@ == payload
        } else if tag == 5 {
            r matches Inbound::Fragment(f) && f@ == payload
        } else if tag == 6 {
            match r {
                Inbound::DeliveryAck(a) => parse_ack(payload) == Ok::<AckView, DecodeError>(a.view()),
                Inbound::Malformed(e) => parse_ack(payload) == Err::<AckView, DecodeError>(e),
                _ => false,
            }
        } else if tag == 7 {
            match r {
                Inbound::ReadReceipt(a) => parse_receipt(payload) == Ok::<ReceiptView, DecodeError>(a.view()),
                Inbound::Malformed(e) => parse_receipt(payload) == Err::<ReceiptView, DecodeError>(e),
                _ => false,
            }
        } else {
            r == Inbound::Unknown(tag)
        }
    }
}

pub struct PacketProcessor {
    pub my_peer_id: String,
    /// Packets seen with an unknown type tag.
    pub unknown_count: u64,
}

impl PacketProcessor {
    pub fn new(my_peer_id: String) -> (r: PacketProcessor)
        ensures
            r.my_peer_id@ == my_peer_id@,
            r.unknown_count == 0,
    {
        PacketProcessor { my_peer_id, unknown_count: 0 }
    }

    /// Reads the type tag of `packet` and its payload accordingly. Unknown
    /// tags are counted (saturating) and otherwise ignored.
    pub fn process_packet(&mut self, packet: &[u8], peer_id: &str) -> (r: Inbound)
        ensures
            dispatched(packet@, r),
            final(self).my_peer_id == old(self).my_peer_id,
            final(self).unknown_count == if r is Unknown && old(self).unknown_count < u64::MAX {
                (old(self).unknown_count + 1) as u64
            } else {
                old(self).unknown_count
            },
    {
        if packet.len() == 0 {
            return Inbound::Empty;
        }
        let tag = packet[0];
        let payload = vstd::slice::slice_subrange(packet, 1, packet.len());
        assert(payload@ =~= packet@.skip(1));
        match MessageType::from_tag(tag) {
            Some(MessageType::Message) => match BitchatMessage::from_binary_payload(payload) {
                Ok(m) => Inbound::Message(m),
                Err(e) => Inbound::Malformed(e),
            },
            Some(MessageType::Announce) => match string_from_utf8(vstd::slice::slice_to_vec(payload)) {
                Some(s) => Inbound::Announce(s),
                None => Inbound::Malformed(DecodeError::InvalidUtf8),
            },
            Some(MessageType::Leave) => Inbound::Leave,
            Some(MessageType::KeyExchange) => Inbound::KeyExchange(vstd::slice::slice_to_vec(payload)),
            Some(MessageType::Fragment) => Inbound::Fragment(vstd::slice::slice_to_vec(payload)),
            Some(MessageType::DeliveryAck) => match DeliveryAck::from_binary_payload(payload) {
                Ok(a) => Inbound::DeliveryAck(a),
                Err(e) => Inbound::Malformed(e),
            },
            Some(MessageType::ReadReceipt) => match ReadReceipt::from_binary_payload(payload) {
                Ok(a) => Inbound::ReadReceipt(a),
                Err(e) => Inbound::Malformed(e),
            },
            None => {
                if self.unknown_count < u64::MAX {
                    self.unknown_count = self.unknown_count + 1;
                }
                Inbound::Unknown(tag)
            },
        }
    }

    /// Clears the unknown-tag count.
    pub fn shutdown(&mut self)
        ensures
            final(self).unknown_count == 0,
            final(self).my_peer_id == old(self).my_peer_id,
    {
        self.unknown_count = 0;
    }
}

} // verus!
