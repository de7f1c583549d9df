//! The mesh service: owns one of each component, routes inbound packets
//! between them and frames outbound messages for the transport.

use vstd::prelude::*;
use crate::connection_manager::{BluetoothConnectionManager, OutboundView};
use crate::fragment_manager::{accept_outcome, parse_fragment, FragmentManager, RecordView};
use crate::packet::{
    encode_wire, parse_ack, parse_message, parse_receipt, AckView, BitchatMessage, DeliveryAck, ReadReceipt,
    ReceiptView, WireMessage,
};
use crate::packet_processor::{Inbound, PacketProcessor};
use crate::peer_manager::{events_of, find_peer, peer_ids, PeerEvent, PeerEventView, PeerManager, PeerView};
use crate::protocol::MESSAGE_TAG;
use crate::security_manager::{find_id, sec1_public_key, SecurityManager};
use crate::wire::DecodeError;
use vstd::utf8::{decode_utf8, valid_utf8};

verus! {

/// Something the owner of the service should learn of.
#[derive(Debug)]
pub enum MeshEvent {
    MessageReceived(BitchatMessage),
    DeliveryAckReceived(DeliveryAck),
    ReadReceiptReceived(ReadReceipt),
    Peer(PeerEvent),
    DecodeFailed(DecodeError),
}

pub struct BluetoothMeshService {
    pub my_peer_id: String,
    pub is_active: bool,
    pub peer_manager: PeerManager,
    pub fragment_manager: FragmentManager,
    pub security_manager: SecurityManager,
    pub packet_processor: PacketProcessor,
    pub connection_manager: BluetoothConnectionManager,
}

/// `r` is exactly the presence events `ev`, in order.
pub open spec fn peer_events(r: Seq<MeshEvent>, ev: Seq<PeerEventView>) -> bool {
    &&& r.len() == ev.len()
    &&& forall|j: int| 0 <= j < r.len() ==> (#[trigger] r[j] matches MeshEvent::Peer(e) && e.view() == ev[j])
}

/// The single message event that decoding `bytes` gives.
pub open spec fn message_event(bytes: Seq<u8>, e: MeshEvent) -> bool {
    match e {
        MeshEvent::MessageReceived(m) => parse_message(bytes) == Ok::<WireMessage, DecodeError>(m.wire()),
        MeshEvent::DecodeFailed(x) => parse_message(bytes) == Err::<WireMessage, DecodeError>(x),
        _ => false,
    }
}

impl BluetoothMeshService {
    pub open spec fn components_wf(&self) -> bool {
        &&& self.peer_manager.wf()
        &&& self.fragment_manager.wf()
        &&& self.security_manager.wf()
    }

    /// The components are well formed, and presence events never wait in
    /// the peer manager: each call hands them to its caller.
    pub open spec fn wf(&self) -> bool {
        &&& self.components_wf()
        &&& self.peer_manager.pending_events().len() == 0
    }

    /// An inactive service with a freshly generated peer id (a UUID
    /// string), a fresh ephemeral identity and no state.
    pub fn new() -> (r: BluetoothMeshService)
        ensures
            r.wf(),
            !r.is_active,
            r.my_peer_id@.len() == 36,
            r.peer_manager.peers() == Seq::<PeerView>::empty(),
            r.fragment_manager@ == Seq::<RecordView>::empty(),
            r.security_manager.ids() == Seq::<Seq<char>>::empty(),
            r.connection_manager.pending() == Seq::<OutboundView>::empty(),
    {
        let my_peer_id = crate::external::new_uuid_string();
        let processor = PacketProcessor::new(my_peer_id.clone());
        BluetoothMeshService {
            my_peer_id,
            is_active: false,
            peer_manager: PeerManager::new(),
            fragment_manager: FragmentManager::new(),
            security_manager: SecurityManager::new(),
            packet_processor: processor,
            connection_manager: BluetoothConnectionManager::new(),
        }
    }

    /// Activates the service; returns whether it was inactive, in which
    /// case the transport is to be started. Idempotent.
    pub fn start(&mut self) -> (r: bool)
        ensures
            r == !old(self).is_active,
            final(self).is_active,
            old(self).is_active ==> *final(self) == *old(self),
            final(self).peer_manager == old(self).peer_manager,
            final(self).fragment_manager == old(self).fragment_manager,
            final(self).security_manager == old(self).security_manager,
    {
        if self.is_active {
            return false;
        }
        self.is_active = true;
        true
    }

    /// Deactivates the service and clears peers, reassembly state, peer keys
    /// and queued packets; this node's identity stays. Idempotent.
    pub fn stop(&mut self)
        requires
            old(self).wf(),
        ensures
            final(self).wf(),
            !final(self).is_active,
            old(self).is_active ==> {
                &&& final(self).peer_manager.peers() == Seq::<PeerView>::empty()
                &&& final(self).fragment_manager@ == Seq::<RecordView>::empty()
                &&& final(self).security_manager.ids() == Seq::<Seq<char>>::empty()
                &&& final(self).connection_manager.pending() == Seq::<OutboundView>::empty()
            },
            final(self).security_manager.identity() == old(self).security_manager.identity(),
            final(self).security_manager.prefix() == old(self).security_manager.prefix(),
            final(self).security_manager.counter() == old(self).security_manager.counter(),
            !old(self).is_active ==> *final(self) == *old(self),
    {
        if !self.is_active {
            return;
        }
        self.is_active = false;
        self.peer_manager.shutdown();
        self.fragment_manager.shutdown();
        self.security_manager.shutdown();
        self.packet_processor.shutdown();
        self.connection_manager.stop_services();
    }

    /// Drops reassembly records that have been idle for the whole window.
    pub fn evict_stale_fragments(&mut self, now_ms: i64)
        requires
            old(self).wf(),
        ensures
            final(self).wf(),
            final(self).fragment_manager@ == old(self).fragment_manager@.filter(
                |r: RecordView| !crate::fragment_manager::expired(r, now_ms),
            ),
    {
        self.fragment_manager.evict_expired(now_ms);
    }

    /// Handles one packet received from `peer_id` at `now_ms` and returns
    /// what the owner should learn of, in order.
    #[verifier::rlimit(60)]
    pub fn on_packet_received(&mut self, packet: &[u8], peer_id: &str, now_ms: i64) -> (r: Vec<MeshEvent>)
        requires
            old(self).wf(),
        ensures
            final(self).wf(),
            packet@.len() > 0 && packet@[0] == 1 ==> r@.len() == 1 && message_event(packet@.skip(1), r@[0]),
            packet@.len() > 0 && packet@[0] == 5 ==> match parse_fragment(packet@.skip(1)) {
                Ok(f) => {
                    let (recs, out) = accept_outcome(old(self).fragment_manager@, f.id, f.index, f.total, peer_id@, f.data, now_ms);
                    &&& final(self).fragment_manager@ == recs
                    &&& match out {
                        Ok(Some(v)) => r@.len() == 1 && message_event(v, r@[0]),
                        _ => r@.len() == 0,
                    }
                },
                Err(_) => r@.len() == 0 && final(self).fragment_manager@ == old(self).fragment_manager@,
            },
            packet@.len() > 0 && packet@[0] == 2 && valid_utf8(packet@.skip(1)) ==> ({
                let k = find_peer(final(self).peer_manager.peers(), peer_id@);
                k is Some && final(self).peer_manager.peers()[k->Some_0].nickname == decode_utf8(packet@.skip(1))
            }) && peer_events(r@, if find_peer(old(self).peer_manager.peers(), peer_id@) is None {
                seq![PeerEventView::Connected(decode_utf8(packet@.skip(1))),
                    PeerEventView::ListChanged(peer_ids(final(self).peer_manager.peers()))]
            } else {
                Seq::<PeerEventView>::empty()
            }),
            packet@.len() > 0 && packet@[0] == 3 ==> find_peer(final(self).peer_manager.peers(), peer_id@) is None
                && peer_events(r@, match find_peer(old(self).peer_manager.peers(), peer_id@) {
                    Some(k) => seq![PeerEventView::Disconnected(old(self).peer_manager.peers()[k].nickname),
                        PeerEventView::ListChanged(peer_ids(final(self).peer_manager.peers()))],
                    None => Seq::<PeerEventView>::empty(),
                }),
            packet@.len() > 0 && packet@[0] == 4 && sec1_public_key(packet@.skip(1)) ==> find_id(
                final(self).security_manager.ids(), peer_id@) is Some,
            packet@.len() > 0 && packet@[0] == 6 ==> r@.len() == 1 && match r@[0] {
                MeshEvent::DeliveryAckReceived(a) => parse_ack(packet@.skip(1)) == Ok::<AckView, DecodeError>(a.view()),
                MeshEvent::DecodeFailed(e) => parse_ack(packet@.skip(1)) == Err::<AckView, DecodeError>(e),
                _ => false,
            },
            packet@.len() > 0 && packet@[0] == 7 ==> r@.len() == 1 && match r@[0] {
                MeshEvent::ReadReceiptReceived(a) => parse_receipt(packet@.skip(1)) == Ok::<ReceiptView, DecodeError>(a.view()),
                MeshEvent::DecodeFailed(e) => parse_receipt(packet@.skip(1)) == Err::<ReceiptView, DecodeError>(e),
                _ => false,
            },
            packet@.len() == 0 || packet@[0] == 0 || packet@[0] > 7 ==> r@.len() == 0
                && final(self).peer_manager == old(self).peer_manager
                && final(self).fragment_manager == old(self).fragment_manager
                && final(self).security_manager == old(self).security_manager,
    {
        let inbound = self.packet_processor.process_packet(packet, peer_id);
        let ghost payload = packet@.skip(1);
        let mut events: Vec<MeshEvent> = Vec::new();
        match inbound {
            Inbound::Message(m) => {
                events.push(MeshEvent::MessageReceived(m));
            },
            Inbound::Fragment(p) => {
                events = self.on_fragment(p.as_slice(), peer_id, now_ms);
            },
            Inbound::Announce(nickname) => {
                events = self.on_announce(peer_id, nickname, now_ms);
            },
            Inbound::Leave => {
                events = self.on_leave(peer_id);
            },
            Inbound::KeyExchange(k) => {
                self.security_manager.register_peer_key_bytes(peer_id, k.as_slice());
            },
            Inbound::DeliveryAck(a) => events.push(MeshEvent::DeliveryAckReceived(a)),
            Inbound::ReadReceipt(a) => events.push(MeshEvent::ReadReceiptReceived(a)),
            Inbound::Malformed(e) => events.push(MeshEvent::DecodeFailed(e)),
            Inbound::Unknown(_) => {},
            Inbound::Empty => {},
        }
        events
    }

    fn on_fragment(&mut self, payload: &[u8], peer_id: &str, now_ms: i64) -> (r: Vec<MeshEvent>)
        requires
            old(self).wf(),
        ensures
            final(self).wf(),
            final(self).peer_manager == old(self).peer_manager,
            final(self).security_manager == old(self).security_manager,
            match parse_fragment(payload@) {
                Ok(f) => {
                    let (recs, out) = accept_outcome(old(self).fragment_manager@, f.id, f.index, f.total, peer_id@, f.data, now_ms);
                    &&& final(self).fragment_manager@ == recs
                    &&& match out {
                        Ok(Some(v)) => r@.len() == 1 && message_event(v, r@[0]),
                        _ => r@.len() == 0,
                    }
                },
                Err(_) => r@.len() == 0 && final(self).fragment_manager@ == old(self).fragment_manager@,
            },
    {
        let mut events: Vec<MeshEvent> = Vec::new();
        match self.fragment_manager.handle_fragment(payload, peer_id.to_owned(), now_ms) {
            Some(bytes) => match BitchatMessage::from_binary_payload(bytes.as_slice()) {
                Ok(m) => events.push(MeshEvent::MessageReceived(m)),
                Err(e) => events.push(MeshEvent::DecodeFailed(e)),
            },
            None => {},
        }
        events
    }

    fn on_announce(&mut self, peer_id: &str, nickname: String, now_ms: i64) -> (r: Vec<MeshEvent>)
        requires
            old(self).wf(),
        ensures
            final(self).wf(),
            final(self).fragment_manager == old(self).fragment_manager,
            final(self).security_manager == old(self).security_manager,
            ({
                let k = find_peer(final(self).peer_manager.peers(), peer_id@);
                k is Some && final(self).peer_manager.peers()[k->Some_0].nickname == nickname@
            }),
            peer_events(r@, if find_peer(old(self).peer_manager.peers(), peer_id@) is None {
                seq![PeerEventView::Connected(nickname@), PeerEventView::ListChanged(peer_ids(final(self).peer_manager.peers()))]
            } else {
                Seq::<PeerEventView>::empty()
            }),
    {
        let ghost before = self.peer_manager.peers();
        self.peer_manager.add_or_update_peer(peer_id, nickname.as_str(), now_ms);
        proof {
            crate::peer_manager::lemma_find_peer_nickname(self.peer_manager.peers(), before, peer_id@, nickname@, now_ms);
            if find_peer(before, peer_id@) is Some {
                assert(self.peer_manager.pending_events() =~= Seq::<PeerEventView>::empty());
            } else {
                assert(self.peer_manager.pending_events() =~= seq![PeerEventView::Connected(nickname@),
                    PeerEventView::ListChanged(peer_ids(self.peer_manager.peers()))]);
            }
        }
        self.take_peer_events()
    }

    fn on_leave(&mut self, peer_id: &str) -> (r: Vec<MeshEvent>)
        requires
            old(self).wf(),
        ensures
            final(self).wf(),
            final(self).fragment_manager == old(self).fragment_manager,
            final(self).security_manager == old(self).security_manager,
            find_peer(final(self).peer_manager.peers(), peer_id@) is None,
            peer_events(r@, match find_peer(old(self).peer_manager.peers(), peer_id@) {
                Some(k) => seq![PeerEventView::Disconnected(old(self).peer_manager.peers()[k].nickname),
                    PeerEventView::ListChanged(peer_ids(final(self).peer_manager.peers()))],
                None => Seq::<PeerEventView>::empty(),
            }),
    {
        proof {
            crate::peer_manager::lemma_find_peer_gone(self.peer_manager.peers(), peer_id@);
        }
        let ghost before = self.peer_manager.peers();
        self.peer_manager.remove_peer(peer_id);
        proof {
            if find_peer(before, peer_id@) is None {
                assert(self.peer_manager.pending_events() =~= Seq::<PeerEventView>::empty());
            } else {
                let k = find_peer(before, peer_id@)->Some_0;
                assert(self.peer_manager.pending_events() =~= seq![PeerEventView::Disconnected(before[k].nickname),
                    PeerEventView::ListChanged(peer_ids(self.peer_manager.peers()))]);
            }
        }
        self.take_peer_events()
    }

    fn take_peer_events(&mut self) -> (r: Vec<MeshEvent>)
        requires
            old(self).components_wf(),
        ensures
            final(self).wf(),
            final(self).peer_manager.peers() == old(self).peer_manager.peers(),
            final(self).fragment_manager == old(self).fragment_manager,
            final(self).security_manager == old(self).security_manager,
            peer_events(r@, old(self).peer_manager.pending_events()),
    {
        let mut taken = self.peer_manager.take_events();
        let ghost orig = events_of(taken@);
        let n = taken.len();
        let mut out: Vec<MeshEvent> = Vec::new();
        let mut i: usize = 0;
        assert(orig.skip(0) =~= orig);
        while i < n
            invariant
                i <= n == orig.len(),
                taken@.len() == n - i,
                events_of(taken@) =~= orig.skip(i as int),
                out@.len() == i,
                forall|j: int| 0 <= j < i ==> (#[trigger] out@[j] matches MeshEvent::Peer(e) && e.view() == orig[j]),
            decreases n - i,
        {
            let ghost before = taken@;
            assert(events_of(before)[0] == orig[i as int]);
            let e = taken.remove(0);
            assert forall|j: int| 0 <= j < taken@.len() implies #[trigger] events_of(taken@)[j] == orig.skip(i + 1)[j] by {
                assert(taken@[j] == before[j + 1]);
                assert(events_of(before)[j + 1] == orig.skip(i as int)[j + 1]);
            }
            out.push(MeshEvent::Peer(e));
            i = i + 1;
        }
        out
    }

    /// Frames `message` for the transport and queues it for broadcast: one
    /// Message packet when it fits in `mtu`, else its fragment packets.
    /// Returns how many packets were queued; `None` (nothing queued) when
    /// the message breaks the message invariant or cannot be fragmented.
    pub fn broadcast_message(&mut self, message: &BitchatMessage, mtu: usize) -> (r: Option<usize>)
        requires
            old(self).wf(),
        ensures
            final(self).wf(),
            final(self).peer_manager == old(self).peer_manager,
            final(self).fragment_manager == old(self).fragment_manager,
            r is None <==> !message.is_valid() || (1 + encode_wire(message.wire()).len() > mtu && ({
                let b = encode_wire(message.wire());
                let o = crate::fragment_manager::fragment_overhead(message.id@);
                !(mtu > o && crate::fragment_manager::chunk_count(b.len(), (mtu - o) as nat) <= 0xffff)
            })),
            r is None ==> final(self).connection_manager.pending() == old(self).connection_manager.pending(),
            message.is_valid() && 1 + encode_wire(message.wire()).len() <= mtu ==> r == Some(1usize)
                && final(self).connection_manager.pending() == old(self).connection_manager.pending().push(
                OutboundView::Broadcast(seq![MESSAGE_TAG] + encode_wire(message.wire()))),
            message.is_valid() && 1 + encode_wire(message.wire()).len() > mtu && r is Some ==> ({
                let b = encode_wire(message.wire());
                let size = (mtu - crate::fragment_manager::fragment_overhead(message.id@)) as nat;
                let n = crate::fragment_manager::chunk_count(b.len(), size);
                &&& r == Some(n as usize)
                &&& final(self).connection_manager.pending() == old(self).connection_manager.pending()
                    + fragment_broadcasts(message.id@, b, size, n)
            }),
    {
        let bytes = match message.to_binary_payload() {
            Ok(b) => b,
            Err(_) => return None,
        };
        if bytes.len() < mtu {
            let mut framed: Vec<u8> = Vec::new();
            framed.push(MESSAGE_TAG);
            crate::wire::write_bytes(&mut framed, bytes.as_slice());
            assert(framed@ =~= seq![MESSAGE_TAG] + encode_wire(message.wire()));
            self.connection_manager.broadcast_packet(framed.as_slice());
            return Some(1);
        }
        match crate::fragment_manager::fragment_payload(message.id.as_str(), bytes.as_slice(), mtu) {
            Some(frags) => {
                let n = frags.len();
                let mut i: usize = 0;
                let ghost size = (mtu - crate::fragment_manager::fragment_overhead(message.id@)) as nat;
                let ghost start = self.connection_manager.pending();
                assert(start + fragment_broadcasts(message.id@, bytes@, size, 0) =~= start);
                while i < n
                    invariant
                        n == frags@.len(),
                        i <= n,
                        bytes@ == encode_wire(message.wire()),
                        size == (mtu - crate::fragment_manager::fragment_overhead(message.id@)) as nat,
                        n == crate::fragment_manager::chunk_count(bytes@.len(), size),
                        forall|k: int| 0 <= k < n ==> (#[trigger] frags@[k])@ == crate::fragment_manager::fragment_packet(
                            message.id@, k as u16, n as u16, crate::fragment_manager::chunk(bytes@, size, k)),
                        self.connection_manager.pending() == start + fragment_broadcasts(message.id@, bytes@, size, i as nat),
                        self.peer_manager == old(self).peer_manager,
                        self.fragment_manager == old(self).fragment_manager,
                        self.security_manager == old(self).security_manager,
                    decreases n - i,
                {
                    self.connection_manager.broadcast_packet(frags[i].as_slice());
                    assert(start + fragment_broadcasts(message.id@, bytes@, size, (i + 1) as nat) =~= (start
                        + fragment_broadcasts(message.id@, bytes@, size, i as nat)).push(OutboundView::Broadcast(frags@[i as int]@)));
                    i = i + 1;
                }
                Some(n)
            },
            None => None,
        }
    }
}

/// Broadcasts of the first `count` fragment packets of `bytes`, the
/// encoding of message `id`, at `size` payload bytes per fragment.
pub open spec fn fragment_broadcasts(id: Seq<char>, bytes: Seq<u8>, size: nat, count: nat) -> Seq<OutboundView> {
    Seq::new(count, |k: int| OutboundView::Broadcast(crate::fragment_manager::fragment_packet(
        id, k as u16, crate::fragment_manager::chunk_count(bytes.len(), size) as u16,
        crate::fragment_manager::chunk(bytes, size, k))))
}

fn clone_text(o: &Option<String>) -> (r: Option<String>)
    ensures
        crate::packet::text_view(r) == crate::packet::text_view(*o),
{
    match o {
        Some(s) => Some(s.clone()),
        None => None,
    }
}

fn clone_mentions(o: &Option<Vec<String>>) -> (r: Option<Vec<String>>)
    ensures
        crate::packet::mentions_view(r) == crate::packet::mentions_view(*o),
{
    match o {
        Some(v) => {
            let mut out: Vec<String> = Vec::new();
            let mut i: usize = 0;
            while i < v.len()
                invariant
                    i <= v@.len(),
                    out@.len() == i,
                    forall|j: int| 0 <= j < i ==> (#[trigger] out@[j])@ == v@[j]@,
                decreases v@.len() - i,
            {
                out.push(v[i].clone());
                i = i + 1;
            }
            assert(crate::packet::texts_view(out@) =~= crate::packet::texts_view(v@));
            Some(out)
        },
        None => None,
    }
}

impl BluetoothMeshService {
    /// A new outgoing message from `sender`: fresh id and time, status
    /// `Sending`, private exactly when it names a recipient.
    pub fn compose_message(sender: String, content: String, recipient: Option<String>, channel: Option<String>) -> (r: BitchatMessage)
        ensures
            r.sender@ == sender@,
            r.content@ == content@,
            r.is_private == recipient is Some,
            crate::packet::text_view(r.recipient_nickname) == crate::packet::text_view(recipient),
            crate::packet::text_view(r.channel) == crate::packet::text_view(channel),
            !r.is_encrypted && !r.is_relay,
            r.original_sender is None && r.sender_peer_id is None && r.mentions is None,
            r.encrypted_content is None,
            r.delivery_status == Some(crate::packet::DeliveryStatus::Sending),
            r.id@.len() == 36,
            crate::external::utc_millis_in_range(r.timestamp),
    {
        let mut m = BitchatMessage::new(sender, content);
        m.is_private = recipient.is_some();
        m.recipient_nickname = recipient;
        m.channel = channel;
        m
    }

    /// Encrypts a plaintext message's content for `peer_id` under the key
    /// shared with that peer: the result carries the nonce and ciphertext,
    /// no plaintext, and every other field unchanged. `None` when the
    /// message is already encrypted or the encryption is refused (see
    /// `SecurityManager::encrypt_for_peer`).
    pub fn seal_private_message(&mut self, message: &BitchatMessage, peer_id: &str) -> (r: Option<BitchatMessage>)
        requires
            old(self).wf(),
        ensures
            final(self).wf(),
            final(self).peer_manager == old(self).peer_manager,
            final(self).fragment_manager == old(self).fragment_manager,
            final(self).security_manager.ids() == old(self).security_manager.ids(),
            final(self).security_manager.identity() == old(self).security_manager.identity(),
            message.is_encrypted ==> r is None,
            !message.is_encrypted ==> (r is Some <==> find_id(old(self).security_manager.ids(), peer_id@) is Some
                && old(self).security_manager.counter() < u32::MAX
                && crate::wire::utf8(message.content@).len() <= crate::security_manager::AES_GCM_P_MAX),
            r matches Some(e) ==> {
                let sm = old(self).security_manager;
                let k = find_id(sm.ids(), peer_id@)->Some_0;
                &&& e.is_encrypted
                &&& e.content@.len() == 0
                &&& crate::packet::bytes_view(e.encrypted_content) == Some(sm.next_nonce_bytes()
                    + crate::security_manager::aes_gcm_seal(sm.shared_with(k), sm.next_nonce_bytes(),
                    crate::wire::utf8(message.content@)))
                &&& same_envelope(e, *message)
            },
    {
        if message.is_encrypted {
            return None;
        }
        let data = message.content.as_str().as_bytes();
        let sealed = self.security_manager.encrypt_for_peer(data, peer_id);
        match sealed {
            Some(c) => {
                let e = BitchatMessage {
                    id: message.id.clone(),
                    sender: message.sender.clone(),
                    content: String::new(),
                    timestamp: message.timestamp,
                    is_relay: message.is_relay,
                    original_sender: clone_text(&message.original_sender),
                    is_private: message.is_private,
                    recipient_nickname: clone_text(&message.recipient_nickname),
                    sender_peer_id: clone_text(&message.sender_peer_id),
                    mentions: clone_mentions(&message.mentions),
                    channel: clone_text(&message.channel),
                    encrypted_content: Some(c),
                    is_encrypted: true,
                    delivery_status: message.delivery_status.clone(),
                };
                Some(e)
            },
            None => None,
        }
    }

    /// Decrypts an encrypted message from `peer_id` with the key shared with
    /// that peer. `None` when the message is not encrypted, no key is on
    /// record for the peer, the ciphertext is shorter than a nonce,
    /// authentication fails, or the plaintext is not UTF-8; the plaintext
    /// message whenever the ciphertext is the sealing of some text.
    pub fn open_private_message(&self, message: &BitchatMessage, peer_id: &str) -> (r: Option<BitchatMessage>)
        requires
            self.wf(),
        ensures
            !message.is_encrypted || message.encrypted_content is None ==> r is None,
            find_id(self.security_manager.ids(), peer_id@) is None ==> r is None,
            message.encrypted_content matches Some(c) && c@.len() < crate::security_manager::NONCE_LEN ==> r is None,
            r matches Some(d) ==> {
                let c = message.encrypted_content->Some_0@;
                let k = find_id(self.security_manager.ids(), peer_id@)->Some_0;
                &&& c.len() >= crate::security_manager::NONCE_LEN
                &&& c.skip(crate::security_manager::NONCE_LEN as int) == crate::security_manager::aes_gcm_seal(
                    self.security_manager.shared_with(k), c.take(crate::security_manager::NONCE_LEN as int),
                    crate::wire::utf8(d.content@))
                &&& !d.is_encrypted && d.encrypted_content is None
                &&& same_envelope(d, *message)
            },
            forall|s: Seq<char>| #[trigger] sealed_text(self.security_manager, peer_id@, *message, s)
                ==> (r matches Some(d) && d.content@ == s),
    {
        if !message.is_encrypted {
            return None;
        }
        let c = match &message.encrypted_content {
            Some(c) => c,
            None => return None,
        };
        let opened = self.security_manager.decrypt_from_peer(c.as_slice(), peer_id);
        proof {
            assert forall|s: Seq<char>| #[trigger] sealed_text(self.security_manager, peer_id@, *message, s)
                implies (opened matches Some(p) && p@ == crate::wire::utf8(s)) by {
                assert(crate::security_manager::aes_gcm_seal(
                    self.security_manager.shared_with(find_id(self.security_manager.ids(), peer_id@)->Some_0),
                    c@.take(crate::security_manager::NONCE_LEN as int), crate::wire::utf8(s))
                    == c@.skip(crate::security_manager::NONCE_LEN as int));
            }
        }
        match opened {
            Some(p) => {
                let ghost pb = p@;
                let r = with_plaintext(message, p);
                proof {
                    assert forall|s: Seq<char>| #[trigger] sealed_text(self.security_manager, peer_id@, *message, s)
                        implies (r matches Some(d) && d.content@ == s) by {
                        vstd::utf8::encode_utf8_valid_utf8(s);
                        vstd::utf8::encode_utf8_decode_utf8(s);
                    }
                    if r is Some {
                        vstd::utf8::decode_utf8_encode_utf8(pb);
                    }
                }
                r
            },
            None => None,
        }
    }
}

/// The fields that sealing and opening leave as they are.
pub open spec fn same_envelope(a: BitchatMessage, b: BitchatMessage) -> bool {
    &&& a.id@ == b.id@ && a.sender@ == b.sender@ && a.timestamp == b.timestamp
    &&& a.is_private == b.is_private && a.is_relay == b.is_relay
    &&& a.wire().original_sender == b.wire().original_sender
    &&& a.wire().recipient_nickname == b.wire().recipient_nickname
    &&& a.wire().sender_peer_id == b.wire().sender_peer_id
    &&& a.wire().mentions == b.wire().mentions
    &&& a.wire().channel == b.wire().channel
}

/// Whether `message` is encrypted, from a peer whose key is on record, and
/// carries a nonce followed by the sealing of text `s` under the key shared
/// with that peer.
pub open spec fn sealed_text(sm: SecurityManager, peer_id: Seq<char>, message: BitchatMessage, s: Seq<char>) -> bool {
    &&& message.is_encrypted
    &&& message.encrypted_content is Some
    &&& find_id(sm.ids(), peer_id) is Some
    &&& crate::wire::utf8(s).len() <= crate::security_manager::AES_GCM_P_MAX
    &&& ({
        let c = message.encrypted_content->Some_0@;
        &&& c.len() >= crate::security_manager::NONCE_LEN
        &&& c.skip(crate::security_manager::NONCE_LEN as int) == crate::security_manager::aes_gcm_seal(
            sm.shared_with(find_id(sm.ids(), peer_id)->Some_0), c.take(crate::security_manager::NONCE_LEN as int),
            crate::wire::utf8(s))
    })
}

/// The plaintext form of an encrypted message, given the decrypted bytes:
/// `None` exactly when the bytes are not UTF-8.
pub fn with_plaintext(message: &BitchatMessage, plaintext: Vec<u8>) -> (r: Option<BitchatMessage>)
    ensures
        r is Some <==> valid_utf8(plaintext@),
        r matches Some(d) ==> d.content@ == decode_utf8(plaintext@) && !d.is_encrypted
            && d.encrypted_content is None && d.delivery_status is None && same_envelope(d, *message),
{
    let content = match crate::external::string_from_utf8(plaintext) {
        Some(s) => s,
        None => return None,
    };
    Some(BitchatMessage {
        id: message.id.clone(),
        sender: message.sender.clone(),
        content,
        timestamp: message.timestamp,
        is_relay: message.is_relay,
        original_sender: clone_text(&message.original_sender),
        is_private: message.is_private,
        recipient_nickname: clone_text(&message.recipient_nickname),
        sender_peer_id: clone_text(&message.sender_peer_id),
        mentions: clone_mentions(&message.mentions),
        channel: clone_text(&message.channel),
        encrypted_content: None,
        is_encrypted: false,
        delivery_status: None,
    })
}

} // verus!
