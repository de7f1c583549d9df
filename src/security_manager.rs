//! Pairwise encryption: this node's ephemeral key pair, the peers' public
//! keys, and authenticated encryption under the key each pair agrees on.

use vstd::prelude::*;
use p256::ecdh::EphemeralSecret;
use p256::PublicKey;
use aes_gcm::aead::{Aead, KeyInit};
use crate::wire::be64;

verus! {

/// A P-256 public key. Verus refuses to declare p256's key types (their
/// curve bound is an outside trait), so the key is held here, opaque.
#[verifier::external_body]
pub struct EcPublicKey {
    key: PublicKey,
}

/// This node's ephemeral P-256 secret, held opaque for the same reason.
#[verifier::external_body]
pub struct EcSecret {
    secret: EphemeralSecret,
}

/// Largest plaintext AES-GCM takes, in bytes.
pub const AES_GCM_P_MAX: u64 = 0x10_0000_0000;

/// Bytes of an AES-GCM nonce.
pub const NONCE_LEN: usize = 12;

/// AES-256-GCM ciphertext with its tag, for a key, a nonce and a plaintext.
pub uninterp spec fn aes_gcm_seal(key: Seq<u8>, nonce: Seq<u8>, plaintext: Seq<u8>) -> Seq<u8>;

pub open spec fn opt_bytes(o: Option<Vec<u8>>) -> Option<Seq<u8>> {
    match o {
        Some(v) => Some(v@),
        None => None,
    }
}

/// What authenticated decryption returns: a plaintext only if the
/// ciphertext is its sealing, and the plaintext whenever one seals to the
/// ciphertext.
pub open spec fn opens_to(key: Seq<u8>, nonce: Seq<u8>, ciphertext: Seq<u8>, r: Option<Seq<u8>>) -> bool {
    &&& (r matches Some(p) ==> ciphertext == aes_gcm_seal(key, nonce, p))
    &&& forall|p: Seq<u8>|
        p.len() <= AES_GCM_P_MAX && #[trigger] aes_gcm_seal(key, nonce, p) == ciphertext ==> r == Some(p)
}

/// Whether bytes are a SEC1 encoding of a P-256 public key.
pub uninterp spec fn sec1_public_key(bytes: Seq<u8>) -> bool;

/// Relies on `EphemeralSecret::random` with `rand::thread_rng`: a fresh
/// secret scalar.
#[verifier::external_body]
fn fresh_secret() -> EcSecret {
    EcSecret { secret: EphemeralSecret::random(&mut rand::thread_rng()) }
}

/// Relies on `EphemeralSecret::public_key`.
#[verifier::external_body]
fn public_key_of(secret: &EcSecret) -> EcPublicKey {
    EcPublicKey { key: secret.secret.public_key() }
}

/// Relies on `EphemeralSecret::diffie_hellman` and
/// `SharedSecret::raw_secret_bytes`: the 32-byte x-coordinate of the shared
/// point.
#[verifier::external_body]
fn shared_key(secret: &EcSecret, peer: &EcPublicKey) -> (r: Vec<u8>)
    ensures
        r@.len() == 32,
{
    secret.secret.diffie_hellman(&peer.key).raw_secret_bytes().to_vec()
}

/// Relies on `rand::random`: a random value.
#[verifier::external_body]
fn random_u64() -> u64 {
    rand::random::<u64>()
}

/// Relies on `PublicKey::from_sec1_bytes`, which accepts exactly the SEC1
/// encodings of points on the curve.
#[verifier::external_body]
pub(crate) fn public_key_from_sec1(bytes: &[u8]) -> (r: Option<EcPublicKey>)
    ensures
        r is Some <==> sec1_public_key(bytes@),
{
    PublicKey::from_sec1_bytes(bytes).ok().map(|key| EcPublicKey { key })
}

/// Relies on `PublicKey::to_sec1_bytes`: the key's SEC1 encoding, which
/// `from_sec1_bytes` accepts.
#[verifier::external_body]
pub(crate) fn public_key_to_sec1(key: &EcPublicKey) -> (r: Vec<u8>)
    ensures
        sec1_public_key(r@),
{
    key.key.to_sec1_bytes().to_vec()
}

/// Relies on `Aes256Gcm::encrypt` (aes-gcm 0.10), which fails only on
/// plaintexts longer than `P_MAX` and otherwise returns ciphertext and tag.
#[verifier::external_body]
fn aes_gcm_encrypt(key: &[u8], nonce: &[u8], plaintext: &[u8]) -> (r: Option<Vec<u8>>)
    requires
        key@.len() == 32,
        nonce@.len() == NONCE_LEN,
    ensures
        plaintext@.len() <= AES_GCM_P_MAX ==> r is Some,
        r matches Some(c) ==> c@ == aes_gcm_seal(key@, nonce@, plaintext@),
{
    let cipher = aes_gcm::Aes256Gcm::new(aes_gcm::Key::<aes_gcm::Aes256Gcm>::from_slice(key));
    cipher.encrypt(aes_gcm::Nonce::from_slice(nonce), plaintext).ok()
}

/// Relies on `Aes256Gcm::decrypt` (aes-gcm 0.10): it returns the plaintext
/// exactly when the tag authenticates, that is when the ciphertext is the
/// sealing of that plaintext under the key and nonce.
#[verifier::external_body]
fn aes_gcm_decrypt(key: &[u8], nonce: &[u8], ciphertext: &[u8]) -> (r: Option<Vec<u8>>)
    requires
        key@.len() == 32,
        nonce@.len() == NONCE_LEN,
    ensures
        opens_to(key@, nonce@, ciphertext@, opt_bytes(r)),
{
    let cipher = aes_gcm::Aes256Gcm::new(aes_gcm::Key::<aes_gcm::Aes256Gcm>::from_slice(key));
    cipher.decrypt(aes_gcm::Nonce::from_slice(nonce), ciphertext).ok()
}

pub open spec fn be32(v: u32) -> Seq<u8> {
    seq![(v >> 24u32) as u8, (v >> 16u32) as u8, (v >> 8u32) as u8, v as u8]
}

/// The nonce of the `counter`-th encryption of a session whose nonces start
/// with the random `prefix`. Both nodes of a pair seal under the same key,
/// each with its own 64-bit random prefix.
pub open spec fn nonce_bytes(prefix: u64, counter: u32) -> Seq<u8> {
    be64(prefix) + be32(counter)
}

/// Seals `plaintext` under `key` and `nonce` and puts the nonce in front,
/// so that the receiver can recover it. Fails only on plaintexts longer
/// than AES-GCM allows.
pub fn seal_with_key(key: &[u8], nonce: &[u8], plaintext: &[u8]) -> (r: Option<Vec<u8>>)
    requires
        key@.len() == 32,
        nonce@.len() == NONCE_LEN,
    ensures
        r is Some <==> plaintext@.len() <= AES_GCM_P_MAX,
        r matches Some(c) ==> c@ == nonce@ + aes_gcm_seal(key@, nonce@, plaintext@),
{
    if plaintext.len() as u64 > AES_GCM_P_MAX {
        return None;
    }
    match aes_gcm_encrypt(key, nonce, plaintext) {
        Some(c) => {
            let mut out: Vec<u8> = Vec::new();
            crate::wire::write_bytes(&mut out, nonce);
            crate::wire::write_bytes(&mut out, c.as_slice());
            assert(out@ =~= nonce@ + aes_gcm_seal(key@, nonce@, plaintext@));
            Some(out)
        },
        None => None,
    }
}

/// Splits off the nonce in front of `packet` and authenticates and
/// decrypts the rest under `key`.
pub fn open_with_key(key: &[u8], packet: &[u8]) -> (r: Option<Vec<u8>>)
    requires
        key@.len() == 32,
    ensures
        packet@.len() < NONCE_LEN ==> r is None,
        packet@.len() >= NONCE_LEN ==> opens_to(key@, packet@.take(NONCE_LEN as int), packet@.skip(NONCE_LEN as int), opt_bytes(r)),
{
    if packet.len() < NONCE_LEN {
        return None;
    }
    let nonce = vstd::slice::slice_subrange(packet, 0, NONCE_LEN);
    let body = vstd::slice::slice_subrange(packet, NONCE_LEN, packet.len());
    assert(nonce@ =~= packet@.take(NONCE_LEN as int));
    assert(body@ =~= packet@.skip(NONCE_LEN as int));
    aes_gcm_decrypt(key, nonce, body)
}

/// Sealing then opening under the same key recovers the plaintext exactly.
pub proof fn law_open_sealed(key: Seq<u8>, nonce: Seq<u8>, plaintext: Seq<u8>, r: Option<Seq<u8>>)
    requires
        plaintext.len() <= AES_GCM_P_MAX,
        opens_to(key, nonce, aes_gcm_seal(key, nonce, plaintext), r),
    ensures
        r == Some(plaintext),
{
}

proof fn lemma_be32_injective(a: u32, b: u32)
    requires
        be32(a) == be32(b),
    ensures
        a == b,
{
    let x = be32(a);
    assert(x[0] == (a >> 24u32) as u8 && x[0] == (b >> 24u32) as u8);
    assert(x[1] == (a >> 16u32) as u8 && x[1] == (b >> 16u32) as u8);
    assert(x[2] == (a >> 8u32) as u8 && x[2] == (b >> 8u32) as u8);
    assert(x[3] == a as u8 && x[3] == b as u8);
    assert(a == b) by (bit_vector)
        requires
            (a >> 24u32) as u8 == (b >> 24u32) as u8,
            (a >> 16u32) as u8 == (b >> 16u32) as u8,
            (a >> 8u32) as u8 == (b >> 8u32) as u8,
            a as u8 == b as u8,
    ;
}

/// Different counters give different nonces.
pub proof fn law_nonces_differ(prefix: u64, c1: u32, c2: u32)
    requires
        c1 != c2,
    ensures
        nonce_bytes(prefix, c1) != nonce_bytes(prefix, c2),
{
    if nonce_bytes(prefix, c1) == nonce_bytes(prefix, c2) {
        assert(nonce_bytes(prefix, c1).skip(8) =~= be32(c1));
        assert(nonce_bytes(prefix, c2).skip(8) =~= be32(c2));
        lemma_be32_injective(c1, c2);
    }
}

/// One encryption took `before` to `after` and transmitted `c`: the nonce in
/// front of `c` is the one `before` had next, and the counter moved on.
pub open spec fn encryption_step(before: SecurityManager, after: SecurityManager, c: Seq<u8>) -> bool {
    &&& after.prefix() == before.prefix()
    &&& after.counter() == before.counter() + 1
    &&& c.len() >= NONCE_LEN
    &&& c.take(NONCE_LEN as int) == before.next_nonce_bytes()
}

/// Two successive encryptions of a session, whatever the peer and the
/// plaintext, transmit different nonces.
pub proof fn law_successive_nonces_differ(
    s0: SecurityManager,
    s1: SecurityManager,
    s2: SecurityManager,
    c1: Seq<u8>,
    c2: Seq<u8>,
)
    requires
        encryption_step(s0, s1, c1),
        encryption_step(s1, s2, c2),
    ensures
        c1.take(NONCE_LEN as int) != c2.take(NONCE_LEN as int),
{
    law_nonces_differ(s0.prefix(), s0.counter(), s1.counter());
}

/// A peer's public key and the key this node shares with it.
pub struct PeerKeyEntry {
    peer_id: String,
    key: EcPublicKey,
    shared: Vec<u8>,
}

/// This node's ephemeral identity, the public keys of its peers with the
/// key shared with each, and the nonce state of the session.
pub struct SecurityManager {
    my_secret: EcSecret,
    peer_keys: Vec<PeerKeyEntry>,
    nonce_prefix: u64,
    next_nonce: u32,
}

/// Position of `id` among the registered peers, if any.
pub open spec fn find_id(ids: Seq<Seq<char>>, id: Seq<char>) -> Option<int>
    decreases ids.len(),
{
    if ids.len() == 0 {
        None
    } else if ids.last() == id {
        Some(ids.len() - 1)
    } else {
        find_id(ids.drop_last(), id)
    }
}

proof fn lemma_find_id(ids: Seq<Seq<char>>, id: Seq<char>)
    ensures
        match find_id(ids, id) {
            Some(k) => 0 <= k < ids.len() && ids[k] == id,
            None => forall|k: int| 0 <= k < ids.len() ==> ids[k] != id,
        },
    decreases ids.len(),
{
    if ids.len() > 0 && ids.last() != id {
        lemma_find_id(ids.drop_last(), id);
        let d = ids.drop_last();
        assert forall|k: int| 0 <= k < d.len() implies d[k] == ids[k] by {}
    }
}

impl SecurityManager {
    /// The registered peer ids, in order of first registration.
    pub closed spec fn ids(&self) -> Seq<Seq<char>> {
        self.peer_keys@.map_values(|e: PeerKeyEntry| e.peer_id@)
    }

    /// The key shared with the `k`-th registered peer.
    pub closed spec fn shared_with(&self, k: int) -> Seq<u8> {
        self.peer_keys@[k].shared@
    }

    /// The public key on record for the `k`-th registered peer.
    pub closed spec fn peer_key(&self, k: int) -> EcPublicKey {
        self.peer_keys@[k].key
    }

    /// This node's ephemeral secret.
    pub closed spec fn identity(&self) -> EcSecret {
        self.my_secret
    }

    /// The random part of this session's nonces.
    pub closed spec fn prefix(&self) -> u64 {
        self.nonce_prefix
    }

    /// How many encryptions this session has done.
    pub closed spec fn counter(&self) -> u32 {
        self.next_nonce
    }

    /// The nonce the next encryption uses.
    pub open spec fn next_nonce_bytes(&self) -> Seq<u8> {
        nonce_bytes(self.prefix(), self.counter())
    }

    /// Peer ids are unique and every shared key is 32 bytes long.
    pub closed spec fn wf(&self) -> bool {
        &&& forall|k: int, l: int|
            0 <= k < self.ids().len() && 0 <= l < self.ids().len() && k != l ==> self.ids()[k] != self.ids()[l]
        &&& forall|k: int| 0 <= k < self.peer_keys@.len() ==> (#[trigger] self.peer_keys@[k]).shared@.len() == 32
    }

    /// A manager with a fresh ephemeral identity and no peer keys.
    pub fn new() -> (r: SecurityManager)
        ensures
            r.wf(),
            r.ids() == Seq::<Seq<char>>::empty(),
            r.counter() == 0,
    {
        let r = SecurityManager {
            my_secret: fresh_secret(),
            peer_keys: Vec::new(),
            nonce_prefix: random_u64(),
            next_nonce: 0,
        };
        assert(r.ids() =~= Seq::<Seq<char>>::empty());
        r
    }

    /// Number of encryptions done in this session.
    pub fn nonce_counter(&self) -> (r: u32)
        ensures
            r == self.counter(),
    {
        self.next_nonce
    }

    /// This node's ephemeral public key.
    pub fn get_public_key(&self) -> EcPublicKey {
        public_key_of(&self.my_secret)
    }

    /// SEC1 encoding of this node's public key, as sent in a key exchange.
    pub fn public_key_bytes(&self) -> (r: Vec<u8>)
        ensures
            sec1_public_key(r@),
    {
        let k = public_key_of(&self.my_secret);
        public_key_to_sec1(&k)
    }

    fn index_of(&self, id: &String) -> (r: Option<usize>)
        requires
            self.wf(),
        ensures
            match r {
                Some(k) => find_id(self.ids(), id@) == Some(k as int) && k < self.ids().len(),
                None => find_id(self.ids(), id@) is None,
            },
    {
        let mut i: usize = 0;
        while i < self.peer_keys.len()
            invariant
                self.wf(),
                i <= self.peer_keys@.len(),
                forall|j: int| 0 <= j < i ==> self.ids()[j] != id@,
            decreases self.peer_keys@.len() - i,
        {
            if self.peer_keys[i].peer_id == *id {
                proof {
                    lemma_find_id(self.ids(), id@);
                    let f = find_id(self.ids(), id@)->Some_0;
                    assert(self.ids()[f] == self.ids()[i as int]);
                }
                return Some(i);
            }
            i = i + 1;
        }
        proof {
            lemma_find_id(self.ids(), id@);
        }
        None
    }

    /// Whether a public key is on record for `peer_id`.
    pub fn has_peer_key(&self, peer_id: &str) -> (r: bool)
        requires
            self.wf(),
        ensures
            r == find_id(self.ids(), peer_id@) is Some,
    {
        let key = peer_id.to_owned();
        self.index_of(&key).is_some()
    }

    /// Records `public_key` for `peer_id`, replacing any earlier one, and
    /// derives the key this node shares with the peer.
    pub fn add_peer_public_key(&mut self, peer_id: &str, public_key: EcPublicKey)
        requires
            old(self).wf(),
        ensures
            final(self).wf(),
            final(self).identity() == old(self).identity(),
            final(self).prefix() == old(self).prefix(),
            final(self).counter() == old(self).counter(),
            match find_id(old(self).ids(), peer_id@) {
                Some(k) => final(self).ids() == old(self).ids() && final(self).peer_key(k) == public_key
                    && forall|j: int| 0 <= j < old(self).ids().len() && j != k
                        ==> #[trigger] final(self).shared_with(j) == old(self).shared_with(j),
                None => final(self).ids() == old(self).ids().push(peer_id@)
                    && final(self).peer_key(old(self).ids().len() as int) == public_key
                    && forall|j: int| 0 <= j < old(self).ids().len()
                        ==> #[trigger] final(self).shared_with(j) == old(self).shared_with(j),
            },
    {
        let id = peer_id.to_owned();
        let ghost old_ids = self.ids();
        let ghost old_keys = self.peer_keys@;
        let shared = shared_key(&self.my_secret, &public_key);
        match self.index_of(&id) {
            Some(k) => {
                let mut e = self.peer_keys.remove(k);
                e.key = public_key;
                e.shared = shared;
                self.peer_keys.insert(k, e);
                assert(self.ids() =~= old_ids);
                assert forall|j: int| 0 <= j < self.peer_keys@.len() implies (#[trigger] self.peer_keys@[j]).shared@.len() == 32 by {
                    if j != k {
                        assert(self.peer_keys@[j] == old_keys[j]);
                    }
                }
                assert forall|j: int| 0 <= j < old_ids.len() && j != k implies #[trigger] self.shared_with(j) == old(self).shared_with(j) by {
                    assert(self.peer_keys@[j] == old_keys[j]);
                }
            },
            None => {
                self.peer_keys.push(PeerKeyEntry { peer_id: id, key: public_key, shared });
                assert(self.ids() =~= old_ids.push(peer_id@));
                proof {
                    lemma_find_id(old_ids, peer_id@);
                }
                assert forall|j: int| 0 <= j < self.peer_keys@.len() implies (#[trigger] self.peer_keys@[j]).shared@.len() == 32 by {
                    if j < old_keys.len() {
                        assert(self.peer_keys@[j] == old_keys[j]);
                    }
                }
                assert forall|j: int| 0 <= j < old_ids.len() implies #[trigger] self.shared_with(j) == old(self).shared_with(j) by {
                    assert(self.peer_keys@[j] == old_keys[j]);
                }
            },
        }
    }

    /// Records the key carried by a key-exchange packet; returns whether the
    /// bytes held a public key.
    pub fn register_peer_key_bytes(&mut self, peer_id: &str, bytes: &[u8]) -> (r: bool)
        requires
            old(self).wf(),
        ensures
            final(self).wf(),
            r == sec1_public_key(bytes@),
            final(self).identity() == old(self).identity(),
            final(self).prefix() == old(self).prefix(),
            final(self).counter() == old(self).counter(),
            r ==> find_id(final(self).ids(), peer_id@) is Some,
            !r ==> final(self).ids() == old(self).ids(),
    {
        match public_key_from_sec1(bytes) {
            Some(k) => {
                self.add_peer_public_key(peer_id, k);
                proof {
                    lemma_find_id(self.ids(), peer_id@);
                    if find_id(self.ids(), peer_id@) is None {
                        lemma_find_id(old(self).ids(), peer_id@);
                        if find_id(old(self).ids(), peer_id@) is Some {
                            let k = find_id(old(self).ids(), peer_id@)->Some_0;
                            assert(self.ids()[k] == peer_id@);
                        } else {
                            assert(self.ids()[self.ids().len() - 1] == peer_id@);
                        }
                    }
                }
                true
            },
            None => false,
        }
    }

    /// Encrypts `data` for `peer_id` under the key this node shares with the
    /// peer, with a nonce never used before in this session; the nonce
    /// travels in front of the ciphertext. `None` when no key is on record
    /// for the peer, when the session's nonces are used up, or when the data
    /// is too long for AES-GCM.
    pub fn encrypt_for_peer(&mut self, data: &[u8], peer_id: &str) -> (r: Option<Vec<u8>>)
        requires
            old(self).wf(),
        ensures
            final(self).wf(),
            final(self).ids() == old(self).ids(),
            final(self).identity() == old(self).identity(),
            final(self).prefix() == old(self).prefix(),
            forall|j: int| 0 <= j < old(self).ids().len() ==> #[trigger] final(self).shared_with(j) == old(self).shared_with(j),
            r is Some <==> find_id(old(self).ids(), peer_id@) is Some && old(self).counter() < u32::MAX
                && data@.len() <= AES_GCM_P_MAX,
            r is None ==> final(self).counter() == old(self).counter(),
            r matches Some(c) ==> {
                let k = find_id(old(self).ids(), peer_id@)->Some_0;
                let nonce = old(self).next_nonce_bytes();
                &&& final(self).counter() == old(self).counter() + 1
                &&& c@ == nonce + aes_gcm_seal(old(self).shared_with(k), nonce, data@)
                &&& encryption_step(*old(self), *final(self), c@)
            },
    {
        let id = peer_id.to_owned();
        match self.index_of(&id) {
            Some(k) => {
                if self.next_nonce == u32::MAX || data.len() as u64 > AES_GCM_P_MAX {
                    return None;
                }
                assert(self.peer_keys@[k as int].shared@.len() == 32);
                let mut nonce: Vec<u8> = Vec::new();
                let p = self.nonce_prefix;
                crate::wire::write_i64(&mut nonce, p as i64);
                assert((p as i64) as u64 == p) by (bit_vector);
                let c = self.next_nonce;
                nonce.push((c >> 24u32) as u8);
                nonce.push((c >> 16u32) as u8);
                nonce.push((c >> 8u32) as u8);
                nonce.push(c as u8);
                assert(nonce@ =~= nonce_bytes(self.nonce_prefix, self.next_nonce));
                let sealed = seal_with_key(self.peer_keys[k].shared.as_slice(), nonce.as_slice(), data);
                self.next_nonce = self.next_nonce + 1;
                proof {
                    if sealed is Some {
                        assert(sealed->Some_0@.take(NONCE_LEN as int) =~= nonce@);
                    }
                }
                sealed
            },
            None => None,
        }
    }

    /// Authenticates and decrypts `data` from `peer_id` under the key shared
    /// with that peer, reading the nonce in front of it. `None` when no key
    /// is on record for the peer, when the data is shorter than a nonce, or
    /// when authentication fails.
    pub fn decrypt_from_peer(&self, data: &[u8], peer_id: &str) -> (r: Option<Vec<u8>>)
        requires
            self.wf(),
        ensures
            find_id(self.ids(), peer_id@) is None ==> r is None,
            data@.len() < NONCE_LEN ==> r is None,
            find_id(self.ids(), peer_id@) is Some && data@.len() >= NONCE_LEN ==> opens_to(
                self.shared_with(find_id(self.ids(), peer_id@)->Some_0), data@.take(NONCE_LEN as int),
                data@.skip(NONCE_LEN as int), opt_bytes(r)),
    {
        let id = peer_id.to_owned();
        match self.index_of(&id) {
            Some(k) => {
                assert(self.peer_keys@[k as int].shared@.len() == 32);
                open_with_key(self.peer_keys[k].shared.as_slice(), data)
            },
            None => None,
        }
    }

    /// Forgets all peer keys; this node's identity and nonce state stay.
    pub fn shutdown(&mut self)
        ensures
            final(self).wf(),
            final(self).ids() == Seq::<Seq<char>>::empty(),
            final(self).identity() == old(self).identity(),
            final(self).prefix() == old(self).prefix(),
            final(self).counter() == old(self).counter(),
    {
        self.peer_keys.clear();
        assert(self.ids() =~= Seq::<Seq<char>>::empty());
    }
}

} // verus!
