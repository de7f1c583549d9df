//! Presence of nearby peers: who is known, under which nickname, when each
//! was last heard, and whether this node has announced itself to them.

use vstd::prelude::*;

verus! {

/// What is known of one neighbor. Times are milliseconds since the Unix epoch.
#[derive(Debug, Clone)]
pub struct Peer {
    pub nickname: String,
    pub last_seen: i64,
    pub rssi: i32,
    pub announced_to: bool,
}

pub struct PeerEntry {
    pub peer_id: String,
    pub peer: Peer,
}

pub struct PeerView {
    pub id: Seq<char>,
    pub nickname: Seq<char>,
    pub last_seen: i64,
    pub rssi: i32,
    pub announced_to: bool,
}

/// A change in presence, for the owner of the manager to act on.
#[derive(Debug, Clone)]
pub enum PeerEvent {
    Connected { nickname: String },
    Disconnected { nickname: String },
    ListChanged { peer_ids: Vec<String> },
}

pub enum PeerEventView {
    Connected(Seq<char>),
    Disconnected(Seq<char>),
    ListChanged(Seq<Seq<char>>),
}

impl PeerEntry {
    pub open spec fn view(&self) -> PeerView {
        PeerView {
            id: self.peer_id@,
            nickname: self.peer.nickname@,
            last_seen: self.peer.last_seen,
            rssi: self.peer.rssi,
            announced_to: self.peer.announced_to,
        }
    }
}

pub open spec fn ids_view(v: Seq<String>) -> Seq<Seq<char>> {
    v.map_values(|s: String| s@)
}

impl PeerEvent {
    pub open spec fn view(&self) -> PeerEventView {
        match self {
            PeerEvent::Connected { nickname } => PeerEventView::Connected(nickname@),
            PeerEvent::Disconnected { nickname } => PeerEventView::Disconnected(nickname@),
            PeerEvent::ListChanged { peer_ids } => PeerEventView::ListChanged(ids_view(peer_ids@)),
        }
    }
}

/// The known peers, one record per peer id, and the events not yet taken.
pub struct PeerManager {
    pub entries: Vec<PeerEntry>,
    pub events: Vec<PeerEvent>,
}

pub open spec fn peers_of(v: Seq<PeerEntry>) -> Seq<PeerView> {
    v.map_values(|e: PeerEntry| e.view())
}

pub open spec fn events_of(v: Seq<PeerEvent>) -> Seq<PeerEventView> {
    v.map_values(|e: PeerEvent| e.view())
}

pub open spec fn peer_ids(peers: Seq<PeerView>) -> Seq<Seq<char>> {
    peers.map_values(|p: PeerView| p.id)
}

pub open spec fn unique_ids(peers: Seq<PeerView>) -> bool {
    forall|k: int, l: int|
        0 <= k < peers.len() && 0 <= l < peers.len() && k != l ==> (#[trigger] peers[k]).id != (#[trigger] peers[l]).id
}

/// Position of the peer `id`, if known.
pub open spec fn find_peer(peers: Seq<PeerView>, id: Seq<char>) -> Option<int>
    decreases peers.len(),
{
    if peers.len() == 0 {
        None
    } else if peers.last().id == id {
        Some(peers.len() - 1)
    } else {
        find_peer(peers.drop_last(), id)
    }
}

proof fn lemma_find_peer(peers: Seq<PeerView>, id: Seq<char>)
    ensures
        match find_peer(peers, id) {
            Some(k) => 0 <= k < peers.len() && peers[k].id == id,
            None => forall|k: int| 0 <= k < peers.len() ==> (#[trigger] peers[k]).id != id,
        },
    decreases peers.len(),
{
    if peers.len() > 0 && peers.last().id != id {
        lemma_find_peer(peers.drop_last(), id);
        let d = peers.drop_last();
        assert forall|k: int| 0 <= k < d.len() implies d[k] == peers[k] by {}
    }
}

proof fn lemma_find_peer_unique(peers: Seq<PeerView>, id: Seq<char>, k: int)
    requires
        unique_ids(peers),
        0 <= k < peers.len(),
        peers[k].id == id,
    ensures
        find_peer(peers, id) == Some(k),
{
    lemma_find_peer(peers, id);
}

pub proof fn lemma_find_peer_nickname(after: Seq<PeerView>, before: Seq<PeerView>, id: Seq<char>, nick: Seq<char>, now: i64)
    requires
        unique_ids(after),
        match find_peer(before, id) {
            Some(k) => after == before.update(k, PeerView { nickname: nick, last_seen: now, ..before[k] }),
            None => after == before.push(PeerView { id: id, nickname: nick, last_seen: now, rssi: 0, announced_to: false }),
        },
    ensures
        find_peer(after, id) matches Some(k) && after[k].nickname == nick,
{
    lemma_find_peer(before, id);
    lemma_find_peer(after, id);
    let m = find_peer(after, id)->Some_0;
    match find_peer(before, id) {
        Some(k) => {
            assert(after[k].id == id);
            assert(m == k);
        },
        None => {
            assert(after[after.len() - 1].id == id);
            assert(m == after.len() - 1);
        },
    }
}

pub proof fn lemma_find_peer_gone(before: Seq<PeerView>, id: Seq<char>)
    requires
        unique_ids(before),
    ensures
        match find_peer(before, id) {
            Some(k) => find_peer(before.remove(k), id) is None,
            None => true,
        },
{
    lemma_find_peer(before, id);
    if let Some(k) = find_peer(before, id) {
        let r = before.remove(k);
        lemma_find_peer(r, id);
        if let Some(m) = find_peer(r, id) {
            let m0 = if m < k { m } else { m + 1 };
            assert(r[m] == before[m0]);
        }
    }
}

proof fn lemma_unique_remove(peers: Seq<PeerView>, k: int)
    requires
        unique_ids(peers),
        0 <= k < peers.len(),
    ensures
        unique_ids(peers.remove(k)),
{
    let r = peers.remove(k);
    assert forall|a: int, b: int| 0 <= a < r.len() && 0 <= b < r.len() && a != b implies
        (#[trigger] r[a]).id != (#[trigger] r[b]).id by {
        let a0 = if a < k { a } else { a + 1 };
        let b0 = if b < k { b } else { b + 1 };
        assert(r[a] == peers[a0] && r[b] == peers[b0]);
    }
}

impl PeerManager {
    pub open spec fn peers(&self) -> Seq<PeerView> {
        peers_of(self.entries@)
    }

    pub open spec fn pending_events(&self) -> Seq<PeerEventView> {
        events_of(self.events@)
    }

    pub open spec fn wf(&self) -> bool {
        unique_ids(self.peers())
    }

    /// A manager that knows no peer.
    pub fn new() -> (r: PeerManager)
        ensures
            r.wf(),
            r.peers() == Seq::<PeerView>::empty(),
            r.pending_events() == Seq::<PeerEventView>::empty(),
    {
        let r = PeerManager { entries: Vec::new(), events: Vec::new() };
        assert(r.peers() =~= Seq::<PeerView>::empty());
        assert(r.pending_events() =~= Seq::<PeerEventView>::empty());
        r
    }

    fn index_of(&self, id: &String) -> (r: Option<usize>)
        requires
            self.wf(),
        ensures
            match r {
                Some(k) => find_peer(self.peers(), id@) == Some(k as int) && k < self.peers().len(),
                None => find_peer(self.peers(), id@) is None,
            },
    {
        let mut i: usize = 0;
        while i < self.entries.len()
            invariant
                self.wf(),
                i <= self.entries@.len(),
                forall|j: int| 0 <= j < i ==> (#[trigger] self.peers()[j]).id != id@,
            decreases self.entries@.len() - i,
        {
            if self.entries[i].peer_id == *id {
                proof {
                    lemma_find_peer_unique(self.peers(), id@, i as int);
                }
                return Some(i);
            }
            i = i + 1;
        }
        proof {
            lemma_find_peer(self.peers(), id@);
        }
        None
    }

    /// The ids of all known peers, in the order they were first seen.
    pub fn get_all_peer_ids(&self) -> (r: Vec<String>)
        ensures
            ids_view(r@) == peer_ids(self.peers()),
    {
        let mut out: Vec<String> = Vec::new();
        let mut i: usize = 0;
        while i < self.entries.len()
            invariant
                i <= self.entries@.len(),
                out@.len() == i,
                ids_view(out@) =~= peer_ids(self.peers()).take(i as int),
            decreases self.entries@.len() - i,
        {
            let ghost prev = out@;
            out.push(self.entries[i].peer_id.clone());
            assert forall|j: int| 0 <= j < prev.len() implies ids_view(out@)[j] == ids_view(prev)[j] by {
                assert(out@[j] == prev[j]);
            }
            assert(ids_view(out@)[i as int] == self.peers()[i as int].id);
            i = i + 1;
        }
        assert(peer_ids(self.peers()).take(i as int) =~= peer_ids(self.peers()));
        out
    }

    /// Records that `peer_id` was heard under `nickname` at `now_ms`.
    /// Returns whether the peer was unknown; only then are a `Connected` and
    /// a `ListChanged` event queued.
    pub fn add_or_update_peer(&mut self, peer_id: &str, nickname: &str, now_ms: i64) -> (r: bool)
        requires
            old(self).wf(),
        ensures
            final(self).wf(),
            r == find_peer(old(self).peers(), peer_id@) is None,
            match find_peer(old(self).peers(), peer_id@) {
                Some(k) => {
                    &&& final(self).peers() == old(self).peers().update(
                        k,
                        PeerView { nickname: nickname@, last_seen: now_ms, ..old(self).peers()[k] },
                    )
                    &&& final(self).pending_events() == old(self).pending_events()
                },
                None => {
                    &&& final(self).peers() == old(self).peers().push(
                        PeerView { id: peer_id@, nickname: nickname@, last_seen: now_ms, rssi: 0, announced_to: false },
                    )
                    &&& final(self).pending_events() == old(self).pending_events()
                        + seq![PeerEventView::Connected(nickname@), PeerEventView::ListChanged(peer_ids(final(self).peers()))]
                },
            },
    {
        let key = peer_id.to_owned();
        let ghost old_peers = self.peers();
        let ghost old_events = self.pending_events();
        match self.index_of(&key) {
            Some(k) => {
                let mut e = self.entries.remove(k);
                e.peer.nickname = nickname.to_owned();
                e.peer.last_seen = now_ms;
                self.entries.insert(k, e);
                assert(self.peers() =~= old_peers.update(k as int, PeerView { nickname: nickname@, last_seen: now_ms, ..old_peers[k as int] }));
                proof {
                    assert forall|a: int, b: int| 0 <= a < self.peers().len() && 0 <= b < self.peers().len() && a != b implies
                        (#[trigger] self.peers()[a]).id != (#[trigger] self.peers()[b]).id by {
                        assert(self.peers()[a].id == old_peers[a].id);
                        assert(self.peers()[b].id == old_peers[b].id);
                    }
                }
                false
            },
            None => {
                let e = PeerEntry {
                    peer_id: key,
                    peer: Peer { nickname: nickname.to_owned(), last_seen: now_ms, rssi: 0, announced_to: false },
                };
                self.entries.push(e);
                assert(self.peers() =~= old_peers.push(e.view()));
                proof {
                    lemma_find_peer(old_peers, peer_id@);
                }
                let ids = self.get_all_peer_ids();
                self.events.push(PeerEvent::Connected { nickname: nickname.to_owned() });
                self.events.push(PeerEvent::ListChanged { peer_ids: ids });
                assert(self.pending_events() =~= old_events + seq![PeerEventView::Connected(nickname@), PeerEventView::ListChanged(peer_ids(self.peers()))]);
                true
            },
        }
    }

    /// Forgets `peer_id`; if it was known, queues a `Disconnected` event with
    /// the nickname on record and a `ListChanged` event.
    pub fn remove_peer(&mut self, peer_id: &str)
        requires
            old(self).wf(),
        ensures
            final(self).wf(),
            match find_peer(old(self).peers(), peer_id@) {
                Some(k) => {
                    &&& final(self).peers() == old(self).peers().remove(k)
                    &&& final(self).pending_events() == old(self).pending_events() + seq![
                        PeerEventView::Disconnected(old(self).peers()[k].nickname),
                        PeerEventView::ListChanged(peer_ids(final(self).peers())),
                    ]
                },
                None => final(self).peers() == old(self).peers() && final(self).pending_events() == old(self).pending_events(),
            },
    {
        let key = peer_id.to_owned();
        let ghost old_peers = self.peers();
        let ghost old_events = self.pending_events();
        match self.index_of(&key) {
            Some(k) => {
                let e = self.entries.remove(k);
                assert(self.peers() =~= old_peers.remove(k as int));
                proof {
                    lemma_unique_remove(old_peers, k as int);
                }
                let ids = self.get_all_peer_ids();
                self.events.push(PeerEvent::Disconnected { nickname: e.peer.nickname });
                self.events.push(PeerEvent::ListChanged { peer_ids: ids });
                assert(self.pending_events() =~= old_events + seq![
                    PeerEventView::Disconnected(old_peers[k as int].nickname),
                    PeerEventView::ListChanged(peer_ids(self.peers())),
                ]);
            },
            None => {},
        }
    }

    /// Hands over the queued events, oldest first.
    pub fn take_events(&mut self) -> (r: Vec<PeerEvent>)
        ensures
            events_of(r@) == old(self).pending_events(),
            final(self).pending_events() == Seq::<PeerEventView>::empty(),
            final(self).peers() == old(self).peers(),
    {
        let mut out: Vec<PeerEvent> = Vec::new();
        std::mem::swap(&mut out, &mut self.events);
        assert(self.pending_events() =~= Seq::<PeerEventView>::empty());
        out
    }

    /// Updates the given fields of `peer_id`'s record, if the peer is known.
    fn modify(&mut self, peer_id: &str, last_seen: Option<i64>, rssi: Option<i32>, announced: bool)
        requires
            old(self).wf(),
        ensures
            final(self).wf(),
            final(self).pending_events() == old(self).pending_events(),
            match find_peer(old(self).peers(), peer_id@) {
                Some(k) => final(self).peers() == old(self).peers().update(k, PeerView {
                    last_seen: match last_seen { Some(t) => t, None => old(self).peers()[k].last_seen },
                    rssi: match rssi { Some(v) => v, None => old(self).peers()[k].rssi },
                    announced_to: announced || old(self).peers()[k].announced_to,
                    ..old(self).peers()[k]
                }),
                None => final(self).peers() == old(self).peers(),
            },
    {
        let key = peer_id.to_owned();
        let ghost old_peers = self.peers();
        match self.index_of(&key) {
            Some(k) => {
                let mut e = self.entries.remove(k);
                match last_seen {
                    Some(t) => e.peer.last_seen = t,
                    None => {},
                }
                match rssi {
                    Some(v) => e.peer.rssi = v,
                    None => {},
                }
                if announced {
                    e.peer.announced_to = true;
                }
                self.entries.insert(k, e);
                assert(self.peers() =~= old_peers.update(k as int, PeerView {
                    last_seen: match last_seen { Some(t) => t, None => old_peers[k as int].last_seen },
                    rssi: match rssi { Some(v) => v, None => old_peers[k as int].rssi },
                    announced_to: announced || old_peers[k as int].announced_to,
                    ..old_peers[k as int]
                }));
                proof {
                    assert forall|a: int, b: int| 0 <= a < self.peers().len() && 0 <= b < self.peers().len() && a != b implies
                        (#[trigger] self.peers()[a]).id != (#[trigger] self.peers()[b]).id by {
                        assert(self.peers()[a].id == old_peers[a].id);
                        assert(self.peers()[b].id == old_peers[b].id);
                    }
                }
            },
            None => {},
        }
    }

    /// Refreshes when `peer_id` was last heard; no event.
    pub fn update_peer_last_seen(&mut self, peer_id: &str, now_ms: i64)
        requires
            old(self).wf(),
        ensures
            final(self).wf(),
            final(self).pending_events() == old(self).pending_events(),
            match find_peer(old(self).peers(), peer_id@) {
                Some(k) => final(self).peers() == old(self).peers().update(k, PeerView { last_seen: now_ms, ..old(self).peers()[k] }),
                None => final(self).peers() == old(self).peers(),
            },
    {
        self.modify(peer_id, Some(now_ms), None, false);
    }

    /// Records a new signal-strength estimate for `peer_id`.
    pub fn update_peer_rssi(&mut self, peer_id: &str, rssi: i32)
        requires
            old(self).wf(),
        ensures
            final(self).wf(),
            final(self).pending_events() == old(self).pending_events(),
            match find_peer(old(self).peers(), peer_id@) {
                Some(k) => final(self).peers() == old(self).peers().update(k, PeerView { rssi: rssi, ..old(self).peers()[k] }),
                None => final(self).peers() == old(self).peers(),
            },
    {
        self.modify(peer_id, None, Some(rssi), false);
    }

    /// Notes that this node has announced itself to `peer_id`.
    pub fn mark_peer_as_announced_to(&mut self, peer_id: &str)
        requires
            old(self).wf(),
        ensures
            final(self).wf(),
            final(self).pending_events() == old(self).pending_events(),
            match find_peer(old(self).peers(), peer_id@) {
                Some(k) => final(self).peers() == old(self).peers().update(k, PeerView { announced_to: true, ..old(self).peers()[k] }),
                None => final(self).peers() == old(self).peers(),
            },
    {
        self.modify(peer_id, None, None, true);
    }

    /// Whether this node has announced itself to `peer_id`; false for
    /// unknown peers.
    pub fn has_announced_to_peer(&self, peer_id: &str) -> (r: bool)
        requires
            self.wf(),
        ensures
            r == match find_peer(self.peers(), peer_id@) {
                Some(k) => self.peers()[k].announced_to,
                None => false,
            },
    {
        let key = peer_id.to_owned();
        match self.index_of(&key) {
            Some(k) => self.entries[k].peer.announced_to,
            None => false,
        }
    }

    /// The nickname on record for `peer_id`.
    pub fn get_peer_nickname(&self, peer_id: &str) -> (r: Option<String>)
        requires
            self.wf(),
        ensures
            match find_peer(self.peers(), peer_id@) {
                Some(k) => r matches Some(n) && n@ == self.peers()[k].nickname,
                None => r is None,
            },
    {
        let key = peer_id.to_owned();
        match self.index_of(&key) {
            Some(k) => Some(self.entries[k].peer.nickname.clone()),
            None => None,
        }
    }

    /// A snapshot of every known peer's id and nickname.
    pub fn get_all_peer_nicknames(&self) -> (r: Vec<(String, String)>)
        ensures
            r@.len() == self.peers().len(),
            forall|k: int| 0 <= k < r@.len() ==> (#[trigger] r@[k]).0@ == self.peers()[k].id
                && r@[k].1@ == self.peers()[k].nickname,
    {
        let mut out: Vec<(String, String)> = Vec::new();
        let mut i: usize = 0;
        while i < self.entries.len()
            invariant
                i <= self.entries@.len(),
                out@.len() == i,
                forall|k: int| 0 <= k < i ==> (#[trigger] out@[k]).0@ == self.peers()[k].id
                    && out@[k].1@ == self.peers()[k].nickname,
            decreases self.entries@.len() - i,
        {
            out.push((self.entries[i].peer_id.clone(), self.entries[i].peer.nickname.clone()));
            i = i + 1;
        }
        out
    }

    /// A snapshot of every known peer's id and signal strength.
    pub fn get_all_peer_rssi(&self) -> (r: Vec<(String, i32)>)
        ensures
            r@.len() == self.peers().len(),
            forall|k: int| 0 <= k < r@.len() ==> (#[trigger] r@[k]).0@ == self.peers()[k].id
                && r@[k].1 == self.peers()[k].rssi,
    {
        let mut out: Vec<(String, i32)> = Vec::new();
        let mut i: usize = 0;
        while i < self.entries.len()
            invariant
                i <= self.entries@.len(),
                out@.len() == i,
                forall|k: int| 0 <= k < i ==> (#[trigger] out@[k]).0@ == self.peers()[k].id
                    && out@[k].1 == self.peers()[k].rssi,
            decreases self.entries@.len() - i,
        {
            out.push((self.entries[i].peer_id.clone(), self.entries[i].peer.rssi));
            i = i + 1;
        }
        out
    }

    /// Number of known peers.
    pub fn get_active_peer_count(&self) -> (r: usize)
        ensures
            r == self.peers().len(),
    {
        self.entries.len()
    }

    /// Whether `peer_id` is known.
    pub fn is_peer_active(&self, peer_id: &str) -> (r: bool)
        requires
            self.wf(),
        ensures
            r == find_peer(self.peers(), peer_id@) is Some,
    {
        let key = peer_id.to_owned();
        self.index_of(&key).is_some()
    }

    /// Forgets every peer and every queued event.
    pub fn shutdown(&mut self)
        ensures
            final(self).wf(),
            final(self).peers() == Seq::<PeerView>::empty(),
            final(self).pending_events() == Seq::<PeerEventView>::empty(),
    {
        self.entries.clear();
        self.events.clear();
        assert(self.peers() =~= Seq::<PeerView>::empty());
        assert(self.pending_events() =~= Seq::<PeerEventView>::empty());
    }
}

} // verus!
