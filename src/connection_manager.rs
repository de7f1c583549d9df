//! The library's side of the wireless transport: packets waiting to be sent.
//! Whoever drives the radio drains them and hands inbound packets to the
//! mesh service.

use vstd::prelude::*;

verus! {

/// A packet waiting for the transport.
#[derive(Debug, Clone)]
pub enum Outbound {
    Broadcast { packet: Vec<u8> },
    Direct { peer_id: String, packet: Vec<u8> },
}

pub enum OutboundView {
    Broadcast(Seq<u8>),
    Direct(Seq<char>, Seq<u8>),
}

impl Outbound {
    pub open spec fn view(&self) -> OutboundView {
        match self {
            Outbound::Broadcast { packet } => OutboundView::Broadcast(packet@),
            Outbound::Direct { peer_id, packet } => OutboundView::Direct(peer_id@, packet@),
        }
    }
}

pub open spec fn outbox_view(v: Seq<Outbound>) -> Seq<OutboundView> {
    v.map_values(|o: Outbound| o.view())
}

pub struct BluetoothConnectionManager {
    pub outbox: Vec<Outbound>,
}

impl BluetoothConnectionManager {
    pub open spec fn pending(&self) -> Seq<OutboundView> {
        outbox_view(self.outbox@)
    }

    /// A transport side with nothing to send.
    pub fn new() -> (r: BluetoothConnectionManager)
        ensures
            r.pending() == Seq::<OutboundView>::empty(),
    {
        let r = BluetoothConnectionManager { outbox: Vec::new() };
        assert(r.pending() =~= Seq::<OutboundView>::empty());
        r
    }

    /// Queues `packet` for every neighbor.
    pub fn broadcast_packet(&mut self, packet: &[u8])
        ensures
            final(self).pending() == old(self).pending().push(OutboundView::Broadcast(packet@)),
    {
        let p = vstd::slice::slice_to_vec(packet);
        self.outbox.push(Outbound::Broadcast { packet: p });
        assert(self.pending() =~= old(self).pending().push(OutboundView::Broadcast(packet@)));
    }

    /// Queues `packet` for one neighbor.
    pub fn send_to(&mut self, peer_id: &str, packet: &[u8])
        ensures
            final(self).pending() == old(self).pending().push(OutboundView::Direct(peer_id@, packet@)),
    {
        let p = vstd::slice::slice_to_vec(packet);
        self.outbox.push(Outbound::Direct { peer_id: peer_id.to_owned(), packet: p });
        assert(self.pending() =~= old(self).pending().push(OutboundView::Direct(peer_id@, packet@)));
    }

    /// Hands over everything queued, oldest first.
    pub fn take_outbox(&mut self) -> (r: Vec<Outbound>)
        ensures
            outbox_view(r@) == old(self).pending(),
            final(self).pending() == Seq::<OutboundView>::empty(),
    {
        let mut out: Vec<Outbound> = Vec::new();
        std::mem::swap(&mut out, &mut self.outbox);
        assert(self.pending() =~= Seq::<OutboundView>::empty());
        out
    }

    /// Drops whatever is still queued.
    pub fn stop_services(&mut self)
        ensures
            final(self).pending() == Seq::<OutboundView>::empty(),
    {
        self.outbox.clear();
        assert(self.pending() =~= Seq::<OutboundView>::empty());
    }
}

} // verus!
