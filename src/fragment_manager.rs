//! Splitting encoded messages into MTU-sized fragment packets and putting
//! them back together on the receiving side.

use vstd::prelude::*;
use crate::packet::{encode_wire, BitchatMessage};
use crate::protocol::FRAGMENT_TAG;
use crate::wire::{
    be16, fits8, parse_text8, parse_u16, read_text8, read_u16, text8, utf8, write_bytes, write_text8,
    write_u16, write_u8, DecodeError,
};

verus! {

/// Inactivity window after which an incomplete reassembly is dropped.
pub const REASSEMBLY_TIMEOUT_MS: i64 = 30000;

/// Why an inbound fragment was refused.
#[derive(Debug, Clone, Copy, PartialEq, Eq, Structural)]
pub enum FragmentError {
    /// The fragment's total differs from the one first seen for its message.
    TotalMismatch,
    /// The fragment's index is not below its total.
    IndexOutOfRange,
}

/// One in-flight multi-part message.
pub struct Reassembly {
    pub message_id: String,
    pub total: u16,
    pub pieces: Vec<Option<Vec<u8>>>,
    pub peer_id: String,
    pub first_seen: i64,
    pub last_seen: i64,
}

pub struct RecordView {
    pub id: Seq<char>,
    pub total: u16,
    pub pieces: Seq<Option<Seq<u8>>>,
    pub peer_id: Seq<char>,
    pub first_seen: i64,
    pub last_seen: i64,
}

pub open spec fn opt_bytes(o: Option<Vec<u8>>) -> Option<Seq<u8>> {
    match o {
        Some(v) => Some(v@),
        None => None,
    }
}

impl Reassembly {
    pub open spec fn view(&self) -> RecordView {
        RecordView {
            id: self.message_id@,
            total: self.total,
            pieces: self.pieces@.map_values(|o: Option<Vec<u8>>| opt_bytes(o)),
            peer_id: self.peer_id@,
            first_seen: self.first_seen,
            last_seen: self.last_seen,
        }
    }
}

/// Reassembly state of one node: at most one record per message id.
pub struct FragmentManager {
    pub records: Vec<Reassembly>,
}

pub open spec fn records_view(v: Seq<Reassembly>) -> Seq<RecordView> {
    v.map_values(|r: Reassembly| r.view())
}

/// The records are keyed by message id, and each has one slot per fragment.
pub open spec fn records_wf(recs: Seq<RecordView>) -> bool {
    &&& forall|k: int| 0 <= k < recs.len() ==> (#[trigger] recs[k]).pieces.len() == recs[k].total
    &&& forall|k: int, l: int|
        0 <= k < recs.len() && 0 <= l < recs.len() && k != l ==> (#[trigger] recs[k]).id != (#[trigger] recs[l]).id
}

/// Position of the record for `id`, if any.
pub open spec fn find(recs: Seq<RecordView>, id: Seq<char>) -> Option<int>
    decreases recs.len(),
{
    if recs.len() == 0 {
        None
    } else if recs.last().id == id {
        Some(recs.len() - 1)
    } else {
        find(recs.drop_last(), id)
    }
}

/// Slots of a record that has received nothing yet.
pub open spec fn no_pieces(total: nat) -> Seq<Option<Seq<u8>>> {
    Seq::new(total, |i: int| None::<Seq<u8>>)
}

pub open spec fn complete(p: Seq<Option<Seq<u8>>>) -> bool {
    forall|i: int| 0 <= i < p.len() ==> (#[trigger] p[i]) is Some
}

pub open spec fn piece(o: Option<Seq<u8>>) -> Seq<u8> {
    match o {
        Some(x) => x,
        None => seq![],
    }
}

/// The slots' bytes concatenated in index order.
pub open spec fn joined(p: Seq<Option<Seq<u8>>>) -> Seq<u8> {
    p.map_values(|o: Option<Seq<u8>>| piece(o)).flatten()
}

/// Outcome of the first fragment seen for a message that has no record.
pub open spec fn start_outcome(
    recs: Seq<RecordView>,
    id: Seq<char>,
    index: u16,
    total: u16,
    peer_id: Seq<char>,
    data: Seq<u8>,
    now: i64,
) -> (Seq<RecordView>, Result<Option<Seq<u8>>, FragmentError>) {
    let p = no_pieces(total as nat).update(index as int, Some(data));
    if complete(p) {
        (recs, Ok(Some(joined(p))))
    } else {
        (recs.push(RecordView { id, total, pieces: p, peer_id, first_seen: now, last_seen: now }), Ok(None))
    }
}

/// Outcome of accepting fragment `index` of `total` for message `id` at
/// `now`: the new records, and the reassembled bytes once every slot is
/// filled. A record idle for the whole inactivity window counts as gone:
/// it is dropped and never delivered, and the fragment starts afresh.
pub open spec fn accept_outcome(
    recs: Seq<RecordView>,
    id: Seq<char>,
    index: u16,
    total: u16,
    peer_id: Seq<char>,
    data: Seq<u8>,
    now: i64,
) -> (Seq<RecordView>, Result<Option<Seq<u8>>, FragmentError>) {
    if index >= total {
        (recs, Err(FragmentError::IndexOutOfRange))
    } else {
        match find(recs, id) {
            Some(k) => if expired(recs[k], now) {
                start_outcome(recs.remove(k), id, index, total, peer_id, data, now)
            } else if recs[k].total != total {
                (recs, Err(FragmentError::TotalMismatch))
            } else {
                let p = recs[k].pieces.update(index as int, Some(data));
                if complete(p) {
                    (recs.remove(k), Ok(Some(joined(p))))
                } else {
                    (recs.update(k, RecordView { pieces: p, last_seen: now, ..recs[k] }), Ok(None))
                }
            },
            None => start_outcome(recs, id, index, total, peer_id, data, now),
        }
    }
}

/// Whether a record has seen no fragment for the whole inactivity window.
pub open spec fn expired(r: RecordView, now: i64) -> bool {
    now - r.last_seen >= REASSEMBLY_TIMEOUT_MS
}

proof fn lemma_find(recs: Seq<RecordView>, id: Seq<char>)
    ensures
        match find(recs, id) {
            Some(k) => 0 <= k < recs.len() && recs[k].id == id,
            None => forall|k: int| 0 <= k < recs.len() ==> (#[trigger] recs[k]).id != id,
        },
    decreases recs.len(),
{
    if recs.len() > 0 && recs.last().id != id {
        lemma_find(recs.drop_last(), id);
        let d = recs.drop_last();
        assert forall|k: int| 0 <= k < d.len() implies d[k] == recs[k] by {}
    }
}

proof fn lemma_find_removed(recs: Seq<RecordView>, id: Seq<char>, k: int)
    requires
        records_wf(recs),
        find(recs, id) == Some(k),
    ensures
        records_wf(recs.remove(k)),
        find(recs.remove(k), id) is None,
{
    lemma_find(recs, id);
    let r = recs.remove(k);
    assert forall|a: int, b: int| 0 <= a < r.len() && 0 <= b < r.len() && a != b implies
        (#[trigger] r[a]).id != (#[trigger] r[b]).id by {
        let a0 = if a < k { a } else { a + 1 };
        let b0 = if b < k { b } else { b + 1 };
        assert(r[a] == recs[a0] && r[b] == recs[b0]);
    }
    assert forall|m: int| 0 <= m < r.len() implies (#[trigger] r[m]).pieces.len() == r[m].total by {
        let m0 = if m < k { m } else { m + 1 };
        assert(r[m] == recs[m0]);
    }
    lemma_find(r, id);
    if let Some(m) = find(r, id) {
        let m0 = if m < k { m } else { m + 1 };
        assert(r[m] == recs[m0]);
    }
}

proof fn lemma_find_unique(recs: Seq<RecordView>, id: Seq<char>, k: int)
    requires
        records_wf(recs),
        0 <= k < recs.len(),
        recs[k].id == id,
    ensures
        find(recs, id) == Some(k),
{
    lemma_find(recs, id);
}

pub open spec fn pieces_view(v: Seq<Option<Vec<u8>>>) -> Seq<Option<Seq<u8>>> {
    v.map_values(|o: Option<Vec<u8>>| opt_bytes(o))
}

fn pieces_complete(p: &Vec<Option<Vec<u8>>>) -> (r: bool)
    ensures
        r == complete(pieces_view(p@)),
{
    let mut i: usize = 0;
    while i < p.len()
        invariant
            i <= p@.len(),
            forall|j: int| 0 <= j < i ==> (#[trigger] pieces_view(p@)[j]) is Some,
        decreases p@.len() - i,
    {
        if p[i].is_none() {
            assert(pieces_view(p@)[i as int] is None);
            return false;
        }
        i = i + 1;
    }
    true
}

proof fn lemma_joined_push(p: Seq<Option<Seq<u8>>>, i: int)
    requires
        0 <= i < p.len(),
    ensures
        joined(p.take(i + 1)) == joined(p.take(i)) + piece(p[i]),
{
    let f = |o: Option<Seq<u8>>| piece(o);
    let a = p.take(i).map_values(f);
    assert(p.take(i + 1).map_values(f) =~= a.push(piece(p[i])));
    a.lemma_flatten_push(piece(p[i]));
}

fn join_pieces(p: &Vec<Option<Vec<u8>>>) -> (r: Vec<u8>)
    ensures
        r@ == joined(pieces_view(p@)),
{
    let mut out: Vec<u8> = Vec::new();
    let ghost pv = pieces_view(p@);
    assert(pv.take(0).map_values(|o: Option<Seq<u8>>| piece(o)) =~= Seq::<Seq<u8>>::empty());
    let mut i: usize = 0;
    while i < p.len()
        invariant
            i <= p@.len(),
            pv == pieces_view(p@),
            out@ == joined(pv.take(i as int)),
        decreases p@.len() - i,
    {
        match &p[i] {
            Some(x) => write_bytes(&mut out, x.as_slice()),
            None => {
                assert(out@ =~= out@ + Seq::<u8>::empty());
            },
        }
        proof {
            lemma_joined_push(pv, i as int);
        }
        i = i + 1;
    }
    assert(pv.take(p@.len() as int) =~= pv);
    out
}

/// Bytes in front of a fragment's slice: type tag, length-prefixed message
/// id, index and total.
pub open spec fn fragment_overhead(id: Seq<char>) -> int {
    6 + utf8(id).len() as int
}

/// How many fragments carry `len` bytes at `size` bytes per fragment; an
/// empty payload still travels as one fragment.
pub open spec fn chunk_count(len: nat, size: nat) -> nat {
    if len == 0 {
        1
    } else {
        ((len - 1) as nat / size + 1) as nat
    }
}

pub open spec fn min(a: int, b: int) -> int {
    if a <= b {
        a
    } else {
        b
    }
}

/// The `k`-th slice of `data` at `size` bytes per slice.
pub open spec fn chunk(data: Seq<u8>, size: nat, k: int) -> Seq<u8> {
    data.subrange(min(k * size, data.len() as int), min((k + 1) * size, data.len() as int))
}

/// A fragment packet: `[tag][id][index][total][slice]`.
pub open spec fn fragment_packet(id: Seq<char>, index: u16, total: u16, slice: Seq<u8>) -> Seq<u8> {
    seq![FRAGMENT_TAG] + text8(id) + be16(index) + be16(total) + slice
}

/// The fields of a fragment packet's payload (what follows the tag).
pub struct FragmentView {
    pub id: Seq<char>,
    pub index: u16,
    pub total: u16,
    pub data: Seq<u8>,
}

pub open spec fn parse_fragment(b: Seq<u8>) -> Result<FragmentView, DecodeError> {
    match parse_text8(b) {
        Ok((id, b1)) => match parse_u16(b1) {
            Ok((index, b2)) => match parse_u16(b2) {
                Ok((total, b3)) => Ok(FragmentView { id, index, total, data: b3 }),
                Err(e) => Err(e),
            },
            Err(e) => Err(e),
        },
        Err(e) => Err(e),
    }
}

/// An inbound fragment, as read from a packet's payload.
pub struct FragmentPacket {
    pub message_id: String,
    pub index: u16,
    pub total: u16,
    pub data: Vec<u8>,
}

/// Reads the payload of a fragment packet (the bytes after the type tag).
pub fn decode_fragment(payload: &[u8]) -> (r: Result<FragmentPacket, DecodeError>)
    ensures
        match r {
            Ok(f) => parse_fragment(payload@) == Ok::<FragmentView, DecodeError>(
                FragmentView { id: f.message_id@, index: f.index, total: f.total, data: f.data@ },
            ),
            Err(e) => parse_fragment(payload@) == Err::<FragmentView, DecodeError>(e),
        },
{
    assert(payload@.skip(0) =~= payload@);
    let (message_id, at1) = match read_text8(payload, 0) {
        Ok(x) => x,
        Err(e) => return Err(e),
    };
    let (index, at2) = match read_u16(payload, at1) {
        Ok(x) => x,
        Err(e) => return Err(e),
    };
    let (total, at3) = match read_u16(payload, at2) {
        Ok(x) => x,
        Err(e) => return Err(e),
    };
    let rest = vstd::slice::slice_subrange(payload, at3, payload.len());
    let data = vstd::slice::slice_to_vec(rest);
    assert(data@ =~= payload@.skip(at3 as int));
    Ok(FragmentPacket { message_id, index, total, data })
}

proof fn lemma_chunk_bounds(len: nat, size: nat, k: nat)
    requires
        size > 0,
        len > 0,
        k < chunk_count(len, size),
    ensures
        k * size < len,
        (k + 1) * size == k * size + size,
{
    let q = ((len - 1) as nat / size) as nat;
    assert(k <= q);
    vstd::arithmetic::div_mod::lemma_fundamental_div_mod((len - 1) as int, size as int);
    vstd::arithmetic::mul::lemma_mul_inequality(k as int, q as int, size as int);
    vstd::arithmetic::mul::lemma_mul_is_distributive_add_other_way(size as int, k as int, 1);
    assert(q * size <= (len - 1) as int) by {
        vstd::arithmetic::div_mod::lemma_mod_bound((len - 1) as int, size as int);
        vstd::arithmetic::mul::lemma_mul_is_commutative(q as int, size as int);
    }
}

/// Splits `data`, the encoding of message `message_id`, into fragment
/// packets of at most `mtu` bytes each. Fails when the id does not fit its
/// one-byte length, when `mtu` leaves no room for payload, or when more
/// than 65535 fragments would be needed.
pub fn fragment_payload(message_id: &str, data: &[u8], mtu: usize) -> (r: Option<Vec<Vec<u8>>>)
    ensures
        r is Some <==> fits8(message_id@) && mtu > fragment_overhead(message_id@)
            && chunk_count(data@.len(), (mtu - fragment_overhead(message_id@)) as nat) <= 0xffff,
        r matches Some(fs) ==> {
            let size = (mtu - fragment_overhead(message_id@)) as nat;
            let n = chunk_count(data@.len(), size);
            &&& fs@.len() == n
            &&& forall|k: int| 0 <= k < n ==> (#[trigger] fs@[k])@ == fragment_packet(
                message_id@, k as u16, n as u16, chunk(data@, size, k))
            &&& forall|k: int| 0 <= k < n ==> (#[trigger] fs@[k])@.len() <= mtu
        },
{
    let id_len = message_id.as_bytes().len();
    if id_len > 255 || mtu <= 6 || mtu - 6 <= id_len {
        return None;
    }
    let size: usize = mtu - 6 - id_len;
    let len: usize = data.len();
    let count: usize = if len == 0 { 1 } else { (len - 1) / size + 1 };
    if count > 0xffff {
        return None;
    }
    let mut out: Vec<Vec<u8>> = Vec::new();
    let mut k: usize = 0;
    let mut start: usize = 0;
    while k < count
        invariant
            size == mtu - fragment_overhead(message_id@),
            size > 0,
            len == data@.len(),
            count == chunk_count(len as nat, size as nat),
            count <= 0xffff,
            fits8(message_id@),
            k <= count,
            start == min(k * size, len as int),
            out@.len() == k,
            forall|j: int| 0 <= j < k ==> (#[trigger] out@[j])@ == fragment_packet(
                message_id@, j as u16, count as u16, chunk(data@, size as nat, j)),
            forall|j: int| 0 <= j < k ==> (#[trigger] out@[j])@.len() <= mtu,
        decreases count - k,
    {
        proof {
            if len > 0 {
                lemma_chunk_bounds(len as nat, size as nat, k as nat);
            } else {
                assert(k == 0);
            }
        }
        let end: usize = if len - start > size { start + size } else { len };
        assert(end == min((k + 1) * size, len as int));
        let mut f: Vec<u8> = Vec::new();
        write_u8(&mut f, FRAGMENT_TAG);
        write_text8(&mut f, message_id);
        write_u16(&mut f, k as u16);
        write_u16(&mut f, count as u16);
        let slice = vstd::slice::slice_subrange(data, start, end);
        write_bytes(&mut f, slice);
        assert(f@ =~= fragment_packet(message_id@, k as u16, count as u16, chunk(data@, size as nat, k as int)));
        out.push(f);
        start = end;
        k = k + 1;
    }
    Some(out)
}

impl View for FragmentManager {
    type V = Seq<RecordView>;

    open spec fn view(&self) -> Seq<RecordView> {
        records_view(self.records@)
    }
}

impl FragmentManager {
    pub open spec fn wf(&self) -> bool {
        records_wf(self@)
    }

    /// A manager with no message in flight.
    pub fn new() -> (r: FragmentManager)
        ensures
            r.wf(),
            r@ == Seq::<RecordView>::empty(),
    {
        let r = FragmentManager { records: Vec::new() };
        assert(r@ =~= Seq::<RecordView>::empty());
        r
    }

    fn find_index(&self, id: &String) -> (r: Option<usize>)
        requires
            self.wf(),
        ensures
            match r {
                Some(k) => find(self@, id@) == Some(k as int) && k < self@.len(),
                None => find(self@, id@) is None,
            },
    {
        let mut i: usize = 0;
        while i < self.records.len()
            invariant
                self.wf(),
                i <= self.records@.len(),
                forall|j: int| 0 <= j < i ==> (#[trigger] self@[j]).id != id@,
            decreases self.records@.len() - i,
        {
            if self.records[i].message_id == *id {
                proof {
                    lemma_find_unique(self@, id@, i as int);
                }
                return Some(i);
            }
            i = i + 1;
        }
        proof {
            lemma_find(self@, id@);
        }
        None
    }

    /// Whether a message is being reassembled.
    pub fn is_pending(&self, message_id: &String) -> (r: bool)
        requires
            self.wf(),
        ensures
            r == find(self@, message_id@) is Some,
    {
        self.find_index(message_id).is_some()
    }

    /// Number of messages being reassembled.
    pub fn pending_count(&self) -> (r: usize)
        ensures
            r == self@.len(),
    {
        self.records.len()
    }

    /// Takes in fragment `index` of `total` of a message; once every
    /// fragment of the message is in, returns the bytes in index order and
    /// forgets the message.
    pub fn accept_fragment(
        &mut self,
        message_id: String,
        index: u16,
        total: u16,
        peer_id: String,
        data: Vec<u8>,
        now_ms: i64,
    ) -> (r: Result<Option<Vec<u8>>, FragmentError>)
        requires
            old(self).wf(),
        ensures
            final(self).wf(),
            ({
                let (recs, out) = accept_outcome(old(self)@, message_id@, index, total, peer_id@, data@, now_ms);
                &&& final(self)@ == recs
                &&& match r {
                    Ok(Some(v)) => out == Ok::<Option<Seq<u8>>, FragmentError>(Some(v@)),
                    Ok(None) => out == Ok::<Option<Seq<u8>>, FragmentError>(None),
                    Err(e) => out == Err::<Option<Seq<u8>>, FragmentError>(e),
                }
            }),
    {
        if index >= total {
            return Err(FragmentError::IndexOutOfRange);
        }
        let ghost old_recs = self@;
        match self.find_index(&message_id) {
            Some(k) => {
                if (now_ms as i128) - (self.records[k].last_seen as i128) >= (REASSEMBLY_TIMEOUT_MS as i128) {
                    self.records.remove(k);
                    assert(records_view(self.records@) =~= old_recs.remove(k as int));
                    proof {
                        lemma_find_removed(old_recs, message_id@, k as int);
                    }
                    return self.start_record(message_id, index, total, peer_id, data, now_ms);
                }
                if self.records[k].total != total {
                    return Err(FragmentError::TotalMismatch);
                }
                let mut rec = self.records.remove(k);
                assert(records_view(self.records@) =~= old_recs.remove(k as int));
                assert(rec.view() == old_recs[k as int]);
                let ghost before = rec.pieces@;
                rec.pieces.set(index as usize, Some(data));
                rec.last_seen = now_ms;
                let ghost p = old_recs[k as int].pieces.update(index as int, Some(data@));
                assert(pieces_view(rec.pieces@) =~= p);
                if pieces_complete(&rec.pieces) {
                    let out = join_pieces(&rec.pieces);
                    proof {
                        assert forall|a: int, b: int|
                            0 <= a < self@.len() && 0 <= b < self@.len() && a != b implies
                            (#[trigger] self@[a]).id != (#[trigger] self@[b]).id by {
                            let a0 = if a < k { a } else { a + 1 };
                            let b0 = if b < k { b } else { b + 1 };
                            assert(self@[a] == old_recs[a0]);
                            assert(self@[b] == old_recs[b0]);
                        }
                    }
                    Ok(Some(out))
                } else {
                    self.records.insert(k, rec);
                    assert(self@ =~= old_recs.update(k as int, RecordView { pieces: p, last_seen: now_ms, ..old_recs[k as int] }));
                    Ok(None)
                }
            },
            None => self.start_record(message_id, index, total, peer_id, data, now_ms),
        }
    }

    fn start_record(
        &mut self,
        message_id: String,
        index: u16,
        total: u16,
        peer_id: String,
        data: Vec<u8>,
        now_ms: i64,
    ) -> (r: Result<Option<Vec<u8>>, FragmentError>)
        requires
            old(self).wf(),
            index < total,
            find(old(self)@, message_id@) is None,
        ensures
            final(self).wf(),
            ({
                let (recs, out) = start_outcome(old(self)@, message_id@, index, total, peer_id@, data@, now_ms);
                &&& final(self)@ == recs
                &&& match r {
                    Ok(Some(v)) => out == Ok::<Option<Seq<u8>>, FragmentError>(Some(v@)),
                    Ok(None) => out == Ok::<Option<Seq<u8>>, FragmentError>(None),
                    Err(e) => out == Err::<Option<Seq<u8>>, FragmentError>(e),
                }
            }),
    {
        let ghost old_recs = self@;
        let mut pieces: Vec<Option<Vec<u8>>> = Vec::new();
        let mut i: u16 = 0;
        while i < total
            invariant
                i <= total,
                pieces@.len() == i,
                pieces_view(pieces@) =~= no_pieces(i as nat),
            decreases total - i,
        {
            let ghost prev = pieces@;
            pieces.push(None);
            assert forall|j: int| 0 <= j <= i implies pieces_view(pieces@)[j] == None::<Seq<u8>> by {
                if j < i {
                    assert(pieces@[j] == prev[j]);
                    assert(no_pieces(i as nat)[j] == None::<Seq<u8>>);
                }
            }
            assert(pieces_view(pieces@) =~= no_pieces(i as nat + 1));
            i = i + 1;
        }
        pieces.set(index as usize, Some(data));
        let ghost p = no_pieces(total as nat).update(index as int, Some(data@));
        assert(pieces_view(pieces@) =~= p);
        if pieces_complete(&pieces) {
            let out = join_pieces(&pieces);
            Ok(Some(out))
        } else {
            let rec = Reassembly {
                message_id,
                total,
                pieces,
                peer_id,
                first_seen: now_ms,
                last_seen: now_ms,
            };
            self.records.push(rec);
            assert(self@ =~= old_recs.push(rec.view()));
            proof {
                lemma_find(old_recs, rec.message_id@);
            }
            Ok(None)
        }
    }

    /// Drops every record that has seen no fragment for the inactivity
    /// window; what they held is never delivered.
    pub fn evict_expired(&mut self, now_ms: i64)
        requires
            old(self).wf(),
        ensures
            final(self).wf(),
            final(self)@ == old(self)@.filter(|r: RecordView| !expired(r, now_ms)),
    {
        let ghost orig = self@;
        let ghost pred = |r: RecordView| !expired(r, now_ms);
        let mut rest: Vec<Reassembly> = Vec::new();
        std::mem::swap(&mut rest, &mut self.records);
        let mut i: usize = 0;
        let n: usize = rest.len();
        assert(orig.take(0).filter(pred) =~= Seq::<RecordView>::empty());
        assert(records_view(rest@) =~= orig.skip(0));
        while i < n
            invariant
                i <= n == orig.len(),
                records_wf(orig),
                rest@.len() == n - i,
                pred == (|r: RecordView| !expired(r, now_ms)),
                records_view(rest@) =~= orig.skip(i as int),
                self@ == orig.take(i as int).filter(pred),
                forall|a: int| 0 <= a < self@.len() ==> exists|j: int| 0 <= j < i && #[trigger] self@[a] == orig[j],
                records_wf(self@),
            decreases n - i,
        {
            let ghost before = self@;
            let ghost rest_before = rest@;
            assert(records_view(rest_before)[0] == orig[i as int]);
            let r = rest.remove(0);
            assert(r.view() == orig[i as int]);
            assert forall|j: int| 0 <= j < rest@.len() implies #[trigger] records_view(rest@)[j] == orig.skip(i + 1)[j] by {
                assert(rest@[j] == rest_before[j + 1]);
                assert(records_view(rest_before)[j + 1] == orig.skip(i as int)[j + 1]);
            }
            assert(records_view(rest@) =~= orig.skip(i + 1));
            assert(orig.take(i + 1).drop_last() =~= orig.take(i as int));
            assert(orig.take(i + 1).last() == orig[i as int]);
            proof {
                reveal(Seq::filter);
            }
            if (now_ms as i128) - (r.last_seen as i128) < (REASSEMBLY_TIMEOUT_MS as i128) {
                self.records.push(r);
                assert(self@ =~= before.push(orig[i as int]));
                assert(pred(orig[i as int]));
                assert(orig.take(i + 1).filter(pred) == before.push(orig[i as int]));
                proof {
                    assert forall|a: int| 0 <= a < self@.len() implies exists|j: int| 0 <= j < i + 1 && #[trigger] self@[a] == orig[j] by {
                        if a < before.len() {
                            assert(self@[a] == before[a]);
                        } else {
                            assert(self@[a] == orig[i as int]);
                        }
                    }
                    assert forall|a: int, b: int|
                        0 <= a < self@.len() && 0 <= b < self@.len() && a != b implies
                        (#[trigger] self@[a]).id != (#[trigger] self@[b]).id by {
                        if a < before.len() && b < before.len() {
                            assert(self@[a] == before[a] && self@[b] == before[b]);
                        } else if a < before.len() {
                            let j = choose|j: int| 0 <= j < i && #[trigger] before[a] == orig[j];
                            assert(self@[a] == orig[j]);
                            assert(orig[j].id != orig[i as int].id);
                        } else if b < before.len() {
                            let j = choose|j: int| 0 <= j < i && #[trigger] before[b] == orig[j];
                            assert(self@[b] == orig[j]);
                            assert(orig[j].id != orig[i as int].id);
                        }
                    }
                }
            } else {
                assert(expired(orig[i as int], now_ms));
                assert(!pred(orig[i as int]));
                assert(orig.take(i + 1).filter(pred) == before);
            }
            i = i + 1;
        }
        assert(orig.take(n as int) =~= orig);
    }

    /// Takes in one fragment packet's payload (the bytes after the type tag)
    /// from `peer_id`; returns the reassembled message bytes once complete.
    /// Malformed and refused fragments are dropped and change nothing.
    pub fn handle_fragment(&mut self, payload: &[u8], peer_id: String, now_ms: i64) -> (r: Option<Vec<u8>>)
        requires
            old(self).wf(),
        ensures
            final(self).wf(),
            match parse_fragment(payload@) {
                Ok(f) => {
                    let (recs, out) = accept_outcome(old(self)@, f.id, f.index, f.total, peer_id@, f.data, now_ms);
                    &&& final(self)@ == recs
                    &&& match out {
                        Ok(Some(v)) => r matches Some(x) && x@ == v,
                        _ => r is None,
                    }
                },
                Err(_) => r is None && final(self)@ == old(self)@,
            },
    {
        match decode_fragment(payload) {
            Ok(f) => match self.accept_fragment(f.message_id, f.index, f.total, peer_id, f.data, now_ms) {
                Ok(out) => out,
                Err(_) => None,
            },
            Err(_) => None,
        }
    }

    /// Encodes `message` and splits it into fragment packets of at most
    /// `mtu` bytes; `None` when the message breaks the message invariant or
    /// the split is impossible (see `fragment_payload`).
    pub fn create_fragments(&self, message: &BitchatMessage, mtu: usize) -> (r: Option<Vec<Vec<u8>>>)
        ensures
            r is Some <==> message.is_valid() && ({
                let b = encode_wire(message.wire());
                let o = fragment_overhead(message.id@);
                mtu > o && chunk_count(b.len(), (mtu - o) as nat) <= 0xffff
            }),
            r matches Some(fs) ==> {
                let b = encode_wire(message.wire());
                let size = (mtu - fragment_overhead(message.id@)) as nat;
                let n = chunk_count(b.len(), size);
                &&& fs@.len() == n
                &&& forall|k: int| 0 <= k < n ==> (#[trigger] fs@[k])@ == fragment_packet(
                    message.id@, k as u16, n as u16, chunk(b, size, k))
                &&& forall|k: int| 0 <= k < n ==> (#[trigger] fs@[k])@.len() <= mtu
            },
    {
        match message.to_binary_payload() {
            Ok(bytes) => fragment_payload(message.id.as_str(), bytes.as_slice(), mtu),
            Err(_) => None,
        }
    }

    /// Forgets every message in flight.
    pub fn shutdown(&mut self)
        ensures
            final(self).wf(),
            final(self)@ == Seq::<RecordView>::empty(),
    {
        self.records.clear();
        assert(self@ =~= Seq::<RecordView>::empty());
    }
}

/// `order` lists each of `0..n` exactly once.
pub open spec fn is_permutation(order: Seq<int>, n: nat) -> bool {
    &&& order.len() == n
    &&& forall|j: int| 0 <= j < n ==> 0 <= #[trigger] order[j] < n
    &&& forall|j: int, l: int| 0 <= j < n && 0 <= l < n && j != l ==> #[trigger] order[j] != #[trigger] order[l]
    &&& forall|i: int| 0 <= i < n ==> #[trigger] listed(order, i)
}

/// Whether `i` occurs in `order`.
pub open spec fn listed(order: Seq<int>, i: int) -> bool {
    exists|j: int| 0 <= j < order.len() && order[j] == i
}

/// The slots of a record after the slices of `data` have arrived in
/// `order`, each filled as `accept_outcome` fills it.
pub open spec fn filled(data: Seq<u8>, size: nat, n: nat, order: Seq<int>) -> Seq<Option<Seq<u8>>>
    decreases order.len(),
{
    if order.len() == 0 {
        no_pieces(n)
    } else {
        let k = order.last();
        filled(data, size, n, order.drop_last()).update(k, Some(chunk(data, size, k)))
    }
}

proof fn lemma_filled(data: Seq<u8>, size: nat, n: nat, order: Seq<int>)
    requires
        forall|j: int| 0 <= j < order.len() ==> 0 <= #[trigger] order[j] < n,
    ensures
        filled(data, size, n, order).len() == n,
        forall|i: int| 0 <= i < n ==> #[trigger] filled(data, size, n, order)[i] == if exists|j: int|
            0 <= j < order.len() && order[j] == i {
            Some(chunk(data, size, i))
        } else {
            None
        },
    decreases order.len(),
{
    if order.len() > 0 {
        let d = order.drop_last();
        assert forall|j: int| 0 <= j < d.len() implies 0 <= #[trigger] d[j] < n by {
            assert(d[j] == order[j]);
        }
        lemma_filled(data, size, n, d);
        assert forall|i: int| 0 <= i < n implies #[trigger] filled(data, size, n, order)[i] == if exists|j: int|
            0 <= j < order.len() && order[j] == i {
            Some(chunk(data, size, i))
        } else {
            None
        } by {
            if i == order.last() {
                assert(order[order.len() - 1] == i);
            } else {
                if exists|j: int| 0 <= j < order.len() && order[j] == i {
                    let j = choose|j: int| 0 <= j < order.len() && order[j] == i;
                    assert(d[j] == i);
                }
                if exists|j: int| 0 <= j < d.len() && d[j] == i {
                    let j = choose|j: int| 0 <= j < d.len() && d[j] == i;
                    assert(order[j] == i);
                }
            }
        }
    }
}

proof fn lemma_chunks_cover(data: Seq<u8>, size: nat)
    requires
        size > 0,
    ensures
        chunk_count(data.len(), size) * size >= data.len(),
{
    let len = data.len();
    if len > 0 {
        let q = ((len - 1) as nat / size) as nat;
        vstd::arithmetic::div_mod::lemma_fundamental_div_mod((len - 1) as int, size as int);
        vstd::arithmetic::div_mod::lemma_mod_bound((len - 1) as int, size as int);
        vstd::arithmetic::mul::lemma_mul_is_commutative(q as int, size as int);
        vstd::arithmetic::mul::lemma_mul_is_distributive_add_other_way(size as int, q as int, 1);
    }
}

proof fn lemma_chunks_join(data: Seq<u8>, size: nat, j: nat)
    requires
        size > 0,
    ensures
        Seq::new(j, |k: int| chunk(data, size, k)).flatten() == data.take(min((j * size) as int, data.len() as int)),
    decreases j,
{
    let cs = Seq::new(j, |k: int| chunk(data, size, k));
    if j == 0 {
        assert(cs =~= Seq::<Seq<u8>>::empty());
        assert(data.take(0) =~= Seq::<u8>::empty());
    } else {
        let prev = Seq::new((j - 1) as nat, |k: int| chunk(data, size, k));
        lemma_chunks_join(data, size, (j - 1) as nat);
        assert(cs =~= prev.push(chunk(data, size, j - 1)));
        prev.lemma_flatten_push(chunk(data, size, j - 1));
        assert(j * size == (j - 1) * size + size) by (nonlinear_arith)
            requires
                j >= 1,
        ;
        assert(0 <= (j - 1) * size) by (nonlinear_arith)
            requires
                j >= 1,
        ;
        assert(data.take(min((j - 1) * size, data.len() as int)) + chunk(data, size, j - 1)
            =~= data.take(min((j * size) as int, data.len() as int)));
    }
}

/// Fragmenting at any payload size and reassembling in any arrival order
/// yields the original bytes, and nothing is delivered before the last
/// fragment arrives.
pub proof fn law_reassembly_any_order(data: Seq<u8>, size: nat, order: Seq<int>)
    requires
        size > 0,
        is_permutation(order, chunk_count(data.len(), size)),
    ensures
        forall|j: int|
            0 <= j < chunk_count(data.len(), size) ==> !complete(
                #[trigger] filled(data, size, chunk_count(data.len(), size), order.take(j)),
            ),
        complete(filled(data, size, chunk_count(data.len(), size), order)),
        joined(filled(data, size, chunk_count(data.len(), size), order)) == data,
{
    let n = chunk_count(data.len(), size);
    lemma_filled(data, size, n, order);
    assert forall|j: int| 0 <= j < n implies !complete(#[trigger] filled(data, size, n, order.take(j))) by {
        let t = order.take(j);
        assert forall|l: int| 0 <= l < t.len() implies 0 <= #[trigger] t[l] < n by {
            assert(t[l] == order[l]);
        }
        lemma_filled(data, size, n, t);
        let last = order[n - 1];
        if exists|l: int| 0 <= l < t.len() && t[l] == last {
            let l = choose|l: int| 0 <= l < t.len() && t[l] == last;
            assert(order[l] == order[n - 1]);
        }
        assert(filled(data, size, n, t)[last] is None);
    }
    let p = filled(data, size, n, order);
    assert forall|i: int| 0 <= i < n implies #[trigger] p[i] == Some(chunk(data, size, i)) by {
        assert(listed(order, i));
        let j = choose|j: int| 0 <= j < order.len() && order[j] == i;
        assert(order[j] == i);
    }
    let cs = Seq::new(n, |k: int| chunk(data, size, k));
    assert(p.map_values(|o: Option<Seq<u8>>| piece(o)) =~= cs);
    lemma_chunks_join(data, size, n);
    lemma_chunks_cover(data, size);
    assert(data.take(data.len() as int) =~= data);
}

/// Records and outputs after fragments `frags` arrive one by one from
/// `peer_id` at `now`, each taken in as `handle_fragment` takes it in.
pub open spec fn feed(recs: Seq<RecordView>, frags: Seq<FragmentView>, peer_id: Seq<char>, now: i64) -> (
    Seq<RecordView>,
    Seq<Result<Option<Seq<u8>>, FragmentError>>,
)
    decreases frags.len(),
{
    if frags.len() == 0 {
        (recs, seq![])
    } else {
        let (r1, outs) = feed(recs, frags.drop_last(), peer_id, now);
        let f = frags.last();
        let (r2, o) = accept_outcome(r1, f.id, f.index, f.total, peer_id, f.data, now);
        (r2, outs.push(o))
    }
}

/// The fragments of `data` (message `id`, `size` bytes per slice) in
/// arrival `order`.
pub open spec fn arrivals(id: Seq<char>, data: Seq<u8>, size: nat, order: Seq<int>) -> Seq<FragmentView> {
    order.map_values(|k: int| FragmentView {
        id,
        index: k as u16,
        total: chunk_count(data.len(), size) as u16,
        data: chunk(data, size, k),
    })
}

pub open spec fn in_flight(id: Seq<char>, data: Seq<u8>, size: nat, order: Seq<int>, peer_id: Seq<char>, now: i64) -> RecordView {
    RecordView {
        id,
        total: chunk_count(data.len(), size) as u16,
        pieces: filled(data, size, chunk_count(data.len(), size), order),
        peer_id,
        first_seen: now,
        last_seen: now,
    }
}

proof fn lemma_feed_prefix(
    recs: Seq<RecordView>,
    id: Seq<char>,
    data: Seq<u8>,
    size: nat,
    order: Seq<int>,
    peer_id: Seq<char>,
    now: i64,
    j: nat,
)
    requires
        size > 0,
        chunk_count(data.len(), size) <= 0xffff,
        is_permutation(order, chunk_count(data.len(), size)),
        find(recs, id) is None,
        1 <= j <= chunk_count(data.len(), size),
    ensures
        j < chunk_count(data.len(), size) ==> feed(recs, arrivals(id, data, size, order).take(j as int), peer_id, now)
            == (recs.push(in_flight(id, data, size, order.take(j as int), peer_id, now)),
                Seq::new(j, |i: int| Ok::<Option<Seq<u8>>, FragmentError>(None))),
        j == chunk_count(data.len(), size) ==> feed(recs, arrivals(id, data, size, order).take(j as int), peer_id, now)
            == (recs, Seq::new((j - 1) as nat, |i: int| Ok::<Option<Seq<u8>>, FragmentError>(None)).push(
                Ok::<Option<Seq<u8>>, FragmentError>(Some(data)))),
    decreases j,
{
    let n = chunk_count(data.len(), size);
    let a = arrivals(id, data, size, order);
    let t = a.take(j as int);
    law_reassembly_any_order(data, size, order);
    assert(t.drop_last() =~= a.take(j - 1));
    let k = order[j - 1];
    assert(t.last() == a[j - 1]);
    assert((k as u16) as int == k);
    assert(order.take(j as int).drop_last() =~= order.take(j - 1));
    assert(order.take(j as int).last() == k);
    let tj = order.take(j as int);
    assert forall|l: int| 0 <= l < tj.len() implies 0 <= #[trigger] tj[l] < n by {
        assert(tj[l] == order[l]);
    }
    lemma_filled(data, size, n, tj);
    let p = filled(data, size, n, tj);
    assert(p == filled(data, size, n, order.take(j - 1)).update(k, Some(chunk(data, size, k))));
    let c = chunk(data, size, k);
    let f = a[j - 1];
    assert(f == FragmentView { id, index: k as u16, total: n as u16, data: c });
    let none = Ok::<Option<Seq<u8>>, FragmentError>(None);
    if j == 1 {
        assert(a.take(0) =~= Seq::<FragmentView>::empty());
        assert(order.take(0) =~= Seq::<int>::empty());
        assert(filled(data, size, n, order.take(0)) == no_pieces(n));
        assert(feed(recs, t.drop_last(), peer_id, now) == (recs, Seq::<Result<Option<Seq<u8>>, FragmentError>>::empty()));
        let ao = accept_outcome(recs, id, k as u16, n as u16, peer_id, c, now);
        assert(Seq::<Result<Option<Seq<u8>>, FragmentError>>::empty().push(none) =~= Seq::new(1, |i: int| none));
        if j == n {
            assert(tj =~= order);
            assert(complete(p));
            assert(ao == (recs, Ok::<Option<Seq<u8>>, FragmentError>(Some(data))));
            assert(Seq::new(0, |i: int| none).push(Ok::<Option<Seq<u8>>, FragmentError>(Some(data)))
                =~= Seq::<Result<Option<Seq<u8>>, FragmentError>>::empty().push(Ok::<Option<Seq<u8>>, FragmentError>(Some(data))));
        } else {
            assert(!complete(p));
            assert(ao == (recs.push(in_flight(id, data, size, tj, peer_id, now)), none));
        }
        assert(feed(recs, t, peer_id, now) == (ao.0, Seq::<Result<Option<Seq<u8>>, FragmentError>>::empty().push(ao.1)));
    } else {
        lemma_feed_prefix(recs, id, data, size, order, peer_id, now, (j - 1) as nat);
        let prev = in_flight(id, data, size, order.take(j - 1), peer_id, now);
        let r1 = recs.push(prev);
        let outs = Seq::new((j - 1) as nat, |i: int| none);
        assert(feed(recs, t.drop_last(), peer_id, now) == (r1, outs));
        let kk = recs.len() as int;
        assert(find(r1, id) == Some(kk));
        assert(r1[kk] == prev);
        assert(!expired(prev, now));
        let tp = order.take(j - 1);
        assert forall|l: int| 0 <= l < tp.len() implies 0 <= #[trigger] tp[l] < n by {
            assert(tp[l] == order[l]);
        }
        lemma_filled(data, size, n, tp);
        assert(prev.pieces.update(k, Some(c)) == p);
        let ao = accept_outcome(r1, id, k as u16, n as u16, peer_id, c, now);
        assert(outs.push(none) =~= Seq::new(j, |i: int| none));
        if j == n {
            assert(tj =~= order);
            assert(complete(p));
            assert(r1.remove(kk) =~= recs);
            assert(ao == (recs, Ok::<Option<Seq<u8>>, FragmentError>(Some(data))));
        } else {
            assert(!complete(p));
            assert(r1.update(kk, RecordView { pieces: p, last_seen: now, ..r1[kk] })
                =~= recs.push(in_flight(id, data, size, tj, peer_id, now)));
            assert(ao == (recs.push(in_flight(id, data, size, tj, peer_id, now)), none));
        }
        assert(feed(recs, t, peer_id, now) == (ao.0, outs.push(ao.1)));
    }
}

/// Fed one by one to a reassembler that knows nothing of the message, the
/// fragments of a payload, in any arrival order, give no output until the
/// last one arrives; that one gives back exactly the payload, and no record
/// of the message is left.
pub proof fn law_fragments_reassemble_in_any_order(
    recs: Seq<RecordView>,
    id: Seq<char>,
    data: Seq<u8>,
    size: nat,
    order: Seq<int>,
    peer_id: Seq<char>,
    now: i64,
)
    requires
        size > 0,
        chunk_count(data.len(), size) <= 0xffff,
        is_permutation(order, chunk_count(data.len(), size)),
        find(recs, id) is None,
    ensures
        ({
            let (after, outs) = feed(recs, arrivals(id, data, size, order), peer_id, now);
            &&& after == recs
            &&& outs.len() == order.len()
            &&& forall|i: int| 0 <= i < outs.len() - 1 ==> outs[i] == Ok::<Option<Seq<u8>>, FragmentError>(None)
            &&& outs.last() == Ok::<Option<Seq<u8>>, FragmentError>(Some(data))
        }),
{
    let n = chunk_count(data.len(), size);
    lemma_feed_prefix(recs, id, data, size, order, peer_id, now, n);
    let a = arrivals(id, data, size, order);
    assert(a.take(n as int) =~= a);
}

/// The records are `recs`, possibly followed by one record of message `id`
/// whose slot `missing` is still empty.
pub open spec fn waiting_for(r: Seq<RecordView>, recs: Seq<RecordView>, id: Seq<char>, n: u16, missing: u16, now: i64) -> bool {
    ||| r == recs
    ||| {
        &&& r.len() == recs.len() + 1
        &&& r.drop_last() == recs
        &&& r.last().id == id
        &&& r.last().total == n
        &&& r.last().pieces.len() == n
        &&& r.last().pieces[missing as int] is None
        &&& r.last().last_seen == now
    }
}

proof fn lemma_missing_fragment(
    recs: Seq<RecordView>,
    id: Seq<char>,
    n: u16,
    missing: u16,
    frags: Seq<FragmentView>,
    peer_id: Seq<char>,
    now: i64,
)
    requires
        find(recs, id) is None,
        missing < n,
        forall|i: int| 0 <= i < frags.len() ==> (#[trigger] frags[i]).id == id && frags[i].total == n
            && frags[i].index != missing,
    ensures
        waiting_for(feed(recs, frags, peer_id, now).0, recs, id, n, missing, now),
        feed(recs, frags, peer_id, now).1.len() == frags.len(),
        forall|i: int| 0 <= i < frags.len() ==> !(#[trigger] feed(recs, frags, peer_id, now).1[i] matches Ok(Some(_))),
    decreases frags.len(),
{
    if frags.len() > 0 {
        let d = frags.drop_last();
        assert forall|i: int| 0 <= i < d.len() implies (#[trigger] d[i]).id == id && d[i].total == n
            && d[i].index != missing by {
            assert(d[i] == frags[i]);
        }
        lemma_missing_fragment(recs, id, n, missing, d, peer_id, now);
        let (r1, outs) = feed(recs, d, peer_id, now);
        let f = frags.last();
        assert(f == frags[frags.len() - 1]);
        let (r2, o) = accept_outcome(r1, f.id, f.index, f.total, peer_id, f.data, now);
        if f.index < n {
            if r1 == recs {
                let p = no_pieces(n as nat).update(f.index as int, Some(f.data));
                assert(p[missing as int] is None);
                assert(!complete(p));
                assert(r2 == recs.push(RecordView { id, total: n, pieces: p, peer_id, first_seen: now, last_seen: now }));
                assert(r2.drop_last() =~= recs);
            } else {
                let kk = recs.len() as int;
                assert(r1[kk] == r1.last());
                assert(find(r1, id) == Some(kk));
                assert(!expired(r1[kk], now));
                let p = r1[kk].pieces.update(f.index as int, Some(f.data));
                assert(p[missing as int] is None);
                assert(!complete(p));
                assert(r2 == r1.update(kk, RecordView { pieces: p, last_seen: now, ..r1[kk] }));
                assert(r2.drop_last() =~= recs);
            }
        }
        assert forall|i: int| 0 <= i < frags.len() implies !(#[trigger] feed(recs, frags, peer_id, now).1[i] matches Ok(Some(_))) by {
            if i < d.len() {
                assert(feed(recs, frags, peer_id, now).1[i] == outs[i]);
            }
        }
    }
}

/// Fragments of a message fed one by one, in any order and with any
/// repeats, never give output while one index never arrives.
pub proof fn law_missing_fragment_never_delivered(
    recs: Seq<RecordView>,
    id: Seq<char>,
    n: u16,
    missing: u16,
    frags: Seq<FragmentView>,
    peer_id: Seq<char>,
    now: i64,
)
    requires
        find(recs, id) is None,
        missing < n,
        forall|i: int| 0 <= i < frags.len() ==> (#[trigger] frags[i]).id == id && frags[i].total == n
            && frags[i].index != missing,
    ensures
        forall|i: int| 0 <= i < frags.len() ==> !(#[trigger] feed(recs, frags, peer_id, now).1[i] matches Ok(Some(_))),
{
    lemma_missing_fragment(recs, id, n, missing, frags, peer_id, now);
}

/// A fragment packet's payload reads back as the id, index, total and slice
/// it was built from.
pub proof fn law_fragment_packet_round_trip(id: Seq<char>, index: u16, total: u16, slice: Seq<u8>)
    requires
        fits8(id),
    ensures
        parse_fragment(fragment_packet(id, index, total, slice).skip(1)) == Ok::<FragmentView, DecodeError>(
            FragmentView { id, index, total, data: slice },
        ),
{
    let b = fragment_packet(id, index, total, slice).skip(1);
    assert(b =~= text8(id) + (be16(index) + (be16(total) + slice)));
    crate::wire::lemma_text8_round_trip(id, be16(index) + (be16(total) + slice));
    crate::wire::lemma_u16_round_trip(index, be16(total) + slice);
    crate::wire::lemma_u16_round_trip(total, slice);
}

/// Once the inactivity window has passed for a message that never
/// completed, eviction forgets it: the message id is unknown afterwards.
pub proof fn law_evicted_is_unknown(recs: Seq<RecordView>, id: Seq<char>, now: i64)
    requires
        records_wf(recs),
        find(recs, id) matches Some(k) && expired(recs[k], now),
    ensures
        find(recs.filter(|r: RecordView| !expired(r, now)), id) is None,
{
    let pred = |r: RecordView| !expired(r, now);
    let f = recs.filter(pred);
    lemma_find(recs, id);
    lemma_find(f, id);
    let k = find(recs, id)->Some_0;
    if find(f, id) is Some {
        let m = find(f, id)->Some_0;
        recs.lemma_filter_pred(pred, m);
        recs.lemma_filter_contains_rev(pred, f[m]);
        let l = choose|l: int| 0 <= l < recs.len() && recs[l] == f[m];
        assert(recs[l].id == id);
        assert(l == k);
    }
}

} // verus!
