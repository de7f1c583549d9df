//! Packet type tags: the first byte of every packet.

use vstd::prelude::*;

verus! {

pub const MESSAGE_TAG: u8 = 0x01;
pub const ANNOUNCE_TAG: u8 = 0x02;
pub const LEAVE_TAG: u8 = 0x03;
pub const KEY_EXCHANGE_TAG: u8 = 0x04;
pub const FRAGMENT_TAG: u8 = 0x05;
pub const DELIVERY_ACK_TAG: u8 = 0x06;
pub const READ_RECEIPT_TAG: u8 = 0x07;

/// The kinds of packet that travel between peers.
#[derive(Debug, Clone, Copy, PartialEq, Eq, Structural)]
pub enum MessageType {
    Message,
    Announce,
    Leave,
    KeyExchange,
    Fragment,
    DeliveryAck,
    ReadReceipt,
}

impl MessageType {
    pub open spec fn spec_tag(self) -> u8 {
        match self {
            MessageType::Message => MESSAGE_TAG,
            MessageType::Announce => ANNOUNCE_TAG,
            MessageType::Leave => LEAVE_TAG,
            MessageType::KeyExchange => KEY_EXCHANGE_TAG,
            MessageType::Fragment => FRAGMENT_TAG,
            MessageType::DeliveryAck => DELIVERY_ACK_TAG,
            MessageType::ReadReceipt => READ_RECEIPT_TAG,
        }
    }

    /// The byte that announces this kind of packet.
    pub fn tag(self) -> (r: u8)
        ensures
            r == self.spec_tag(),
    {
        match self {
            MessageType::Message => MESSAGE_TAG,
            MessageType::Announce => ANNOUNCE_TAG,
            MessageType::Leave => LEAVE_TAG,
            MessageType::KeyExchange => KEY_EXCHANGE_TAG,
            MessageType::Fragment => FRAGMENT_TAG,
            MessageType::DeliveryAck => DELIVERY_ACK_TAG,
            MessageType::ReadReceipt => READ_RECEIPT_TAG,
        }
    }

    /// The kind of packet a tag byte announces; `None` for unknown tags.
    pub fn from_tag(t: u8) -> (r: Option<MessageType>)
        ensures
            match r {
                Some(m) => m.spec_tag() == t,
                None => 1 > t || t > 7,
            },
    {
        if t == MESSAGE_TAG {
            Some(MessageType::Message)
        } else if t == ANNOUNCE_TAG {
            Some(MessageType::Announce)
        } else if t == LEAVE_TAG {
            Some(MessageType::Leave)
        } else if t == KEY_EXCHANGE_TAG {
            Some(MessageType::KeyExchange)
        } else if t == FRAGMENT_TAG {
            Some(MessageType::Fragment)
        } else if t == DELIVERY_ACK_TAG {
            Some(MessageType::DeliveryAck)
        } else if t == READ_RECEIPT_TAG {
            Some(MessageType::ReadReceipt)
        } else {
            None
        }
    }
}

} // verus!
