//! Application messages and their binary wire layout.

use vstd::prelude::*;
use vstd::string::StringExecFns;
use crate::external::{millis_representable, new_uuid_string, now_millis, utc_millis_in_range};
use crate::wire::{
    be16, be_i64, fits8, parse_bytes, parse_i64, parse_text, parse_text8, parse_u16, parse_u8,
    read_bytes, read_i64, read_text, read_text8, read_u16, read_u8, read_agrees, text8, utf8,
    write_bytes, write_i64, write_text8, write_u16, write_u8, DecodeError, Parsed,
};

verus! {

/// Local delivery state of a message; never carried on the wire.
#[derive(Debug, Clone, PartialEq, Eq)]
pub enum DeliveryStatus {
    Sending,
    Sent,
    Delivered { to: String, at: i64 },
    Read { by: String, at: i64 },
    Failed { reason: String },
    PartiallyDelivered { reached: u32, total: u32 },
}

/// A chat message. Timestamps are milliseconds since the Unix epoch, UTC.
#[derive(Debug, Clone)]
pub struct BitchatMessage {
    pub id: String,
    pub sender: String,
    pub content: String,
    pub timestamp: i64,
    pub is_relay: bool,
    pub original_sender: Option<String>,
    pub is_private: bool,
    pub recipient_nickname: Option<String>,
    pub sender_peer_id: Option<String>,
    pub mentions: Option<Vec<String>>,
    pub channel: Option<String>,
    pub encrypted_content: Option<Vec<u8>>,
    pub is_encrypted: bool,
    pub delivery_status: Option<DeliveryStatus>,
}

/// Encoding was asked of a message that breaks the message invariant.
#[derive(Debug, Clone, Copy, PartialEq, Eq, Structural)]
pub enum EncodingError {
    InvalidMessage,
}

/// The fields of a message that the wire carries.
pub struct WireMessage {
    pub id: Seq<char>,
    pub sender: Seq<char>,
    pub content: Seq<char>,
    pub timestamp: i64,
    pub is_relay: bool,
    pub original_sender: Option<Seq<char>>,
    pub is_private: bool,
    pub recipient_nickname: Option<Seq<char>>,
    pub sender_peer_id: Option<Seq<char>>,
    pub mentions: Option<Seq<Seq<char>>>,
    pub channel: Option<Seq<char>>,
    pub encrypted_content: Option<Seq<u8>>,
    pub is_encrypted: bool,
}

pub open spec fn text_view(o: Option<String>) -> Option<Seq<char>> {
    match o {
        Some(s) => Some(s@),
        None => None,
    }
}

pub open spec fn texts_view(v: Seq<String>) -> Seq<Seq<char>> {
    v.map_values(|s: String| s@)
}

pub open spec fn mentions_view(o: Option<Vec<String>>) -> Option<Seq<Seq<char>>> {
    match o {
        Some(v) => Some(texts_view(v@)),
        None => None,
    }
}

pub open spec fn bytes_view(o: Option<Vec<u8>>) -> Option<Seq<u8>> {
    match o {
        Some(v) => Some(v@),
        None => None,
    }
}

impl BitchatMessage {
    pub open spec fn wire(&self) -> WireMessage {
        WireMessage {
            id: self.id@,
            sender: self.sender@,
            content: self.content@,
            timestamp: self.timestamp,
            is_relay: self.is_relay,
            original_sender: text_view(self.original_sender),
            is_private: self.is_private,
            recipient_nickname: text_view(self.recipient_nickname),
            sender_peer_id: text_view(self.sender_peer_id),
            mentions: mentions_view(self.mentions),
            channel: text_view(self.channel),
            encrypted_content: bytes_view(self.encrypted_content),
            is_encrypted: self.is_encrypted,
        }
    }

    /// The message invariant: every field fits its wire section, the
    /// timestamp is representable, and a message is encrypted exactly when it
    /// holds ciphertext and no plaintext.
    pub open spec fn is_valid(&self) -> bool {
        valid_wire(self.wire())
    }
}

pub open spec fn opt_fits8(o: Option<Seq<char>>) -> bool {
    match o {
        Some(s) => fits8(s),
        None => true,
    }
}

pub open spec fn mentions_fit(o: Option<Seq<Seq<char>>>) -> bool {
    match o {
        Some(ms) => ms.len() <= 255 && forall|i: int| 0 <= i < ms.len() ==> fits8(#[trigger] ms[i]),
        None => true,
    }
}

pub open spec fn content_len(w: WireMessage) -> nat {
    if w.is_encrypted {
        match w.encrypted_content {
            Some(c) => c.len(),
            None => 0,
        }
    } else {
        utf8(w.content).len()
    }
}

pub open spec fn valid_wire(w: WireMessage) -> bool {
    &&& fits8(w.id)
    &&& fits8(w.sender)
    &&& utc_millis_in_range(w.timestamp)
    &&& (w.is_encrypted <==> w.encrypted_content is Some)
    &&& (w.is_encrypted ==> w.content.len() == 0)
    &&& content_len(w) <= 0xffff
    &&& opt_fits8(w.original_sender)
    &&& opt_fits8(w.recipient_nickname)
    &&& opt_fits8(w.sender_peer_id)
    &&& mentions_fit(w.mentions)
    &&& opt_fits8(w.channel)
}

pub open spec fn flag(c: bool, mask: u8) -> u8 {
    if c {
        mask
    } else {
        0
    }
}

/// Whether `mask`'s bit is set in a flags byte.
pub open spec fn has_flag(f: u8, mask: u8) -> bool {
    f & mask != 0
}

/// Flags byte: bit 0 relay, 1 private, 2 original sender, 3 recipient,
/// 4 sender peer id, 5 mentions, 6 channel, 7 encrypted.
pub open spec fn flags_of(w: WireMessage) -> u8 {
    flag(w.is_relay, 0x01) | flag(w.is_private, 0x02) | flag(w.original_sender is Some, 0x04)
        | flag(w.recipient_nickname is Some, 0x08) | flag(w.sender_peer_id is Some, 0x10)
        | flag(w.mentions is Some, 0x20) | flag(w.channel is Some, 0x40)
        | flag(w.is_encrypted, 0x80)
}

pub open spec fn opt_text8(o: Option<Seq<char>>) -> Seq<u8> {
    match o {
        Some(s) => text8(s),
        None => seq![],
    }
}

/// Consecutive length-prefixed texts.
pub open spec fn texts8(ms: Seq<Seq<char>>) -> Seq<u8> {
    ms.map_values(|s: Seq<char>| text8(s)).flatten()
}

pub open spec fn mentions_section(o: Option<Seq<Seq<char>>>) -> Seq<u8> {
    match o {
        Some(ms) => seq![ms.len() as u8] + texts8(ms),
        None => seq![],
    }
}

pub open spec fn content_section(w: WireMessage) -> Seq<u8> {
    if w.is_encrypted {
        match w.encrypted_content {
            Some(c) => be16(c.len() as u16) + c,
            None => seq![],
        }
    } else {
        be16(utf8(w.content).len() as u16) + utf8(w.content)
    }
}

/// The wire encoding of a message.
pub open spec fn encode_wire(w: WireMessage) -> Seq<u8> {
    seq![flags_of(w)] + be_i64(w.timestamp) + text8(w.id) + text8(w.sender) + content_section(w)
        + opt_text8(w.original_sender) + opt_text8(w.recipient_nickname) + opt_text8(
        w.sender_peer_id,
    ) + mentions_section(w.mentions) + opt_text8(w.channel)
}

pub open spec fn parse_opt_text8(present: bool, b: Seq<u8>) -> Parsed<Option<Seq<char>>> {
    if present {
        match parse_text8(b) {
            Ok((s, r)) => Ok((Some(s), r)),
            Err(e) => Err(e),
        }
    } else {
        Ok((None, b))
    }
}

pub open spec fn parse_texts8(n: nat, b: Seq<u8>) -> Parsed<Seq<Seq<char>>>
    decreases n,
{
    if n == 0 {
        Ok((seq![], b))
    } else {
        match parse_text8(b) {
            Ok((s, r)) => match parse_texts8((n - 1) as nat, r) {
                Ok((ss, r2)) => Ok((seq![s] + ss, r2)),
                Err(e) => Err(e),
            },
            Err(e) => Err(e),
        }
    }
}

pub open spec fn parse_mentions(present: bool, b: Seq<u8>) -> Parsed<Option<Seq<Seq<char>>>> {
    if present {
        match parse_u8(b) {
            Ok((n, r)) => match parse_texts8(n as nat, r) {
                Ok((ms, r2)) => Ok((Some(ms), r2)),
                Err(e) => Err(e),
            },
            Err(e) => Err(e),
        }
    } else {
        Ok((None, b))
    }
}

/// The content section: plaintext, or ciphertext when `encrypted`.
pub open spec fn parse_content(encrypted: bool, b: Seq<u8>) -> Parsed<(Seq<char>, Option<Seq<u8>>)> {
    match parse_u16(b) {
        Ok((n, r)) => if encrypted {
            match parse_bytes(r, n as nat) {
                Ok((x, r2)) => Ok(((Seq::<char>::empty(), Some(x)), r2)),
                Err(e) => Err(e),
            }
        } else {
            match parse_text(r, n as nat) {
                Ok((s, r2)) => Ok(((s, None), r2)),
                Err(e) => Err(e),
            }
        },
        Err(e) => Err(e),
    }
}

/// The optional sections that follow the content, as the flags announce them.
pub struct Extras {
    pub original_sender: Option<Seq<char>>,
    pub recipient_nickname: Option<Seq<char>>,
    pub sender_peer_id: Option<Seq<char>>,
    pub mentions: Option<Seq<Seq<char>>>,
    pub channel: Option<Seq<char>>,
}

pub open spec fn parse_extras(f: u8, b: Seq<u8>) -> Result<Extras, DecodeError> {
    match parse_opt_text8(has_flag(f, 0x04), b) {
        Ok((orig, b1)) => match parse_opt_text8(has_flag(f, 0x08), b1) {
            Ok((recip, b2)) => match parse_opt_text8(has_flag(f, 0x10), b2) {
                Ok((peer, b3)) => match parse_mentions(has_flag(f, 0x20), b3) {
                    Ok((ms, b4)) => match parse_opt_text8(has_flag(f, 0x40), b4) {
                        Ok((ch, _)) => Ok(
                            Extras {
                                original_sender: orig,
                                recipient_nickname: recip,
                                sender_peer_id: peer,
                                mentions: ms,
                                channel: ch,
                            },
                        ),
                        Err(e) => Err(e),
                    },
                    Err(e) => Err(e),
                },
                Err(e) => Err(e),
            },
            Err(e) => Err(e),
        },
        Err(e) => Err(e),
    }
}

/// Bytes of the smallest encoding: flags, timestamp, two empty texts and
/// an empty content section.
pub const MIN_ENCODED_LEN: usize = 13;

/// Decoding of a buffer: a buffer shorter than the smallest encoding is
/// truncated; otherwise the fields are read in wire order, and bytes after
/// the last announced section are ignored.
pub open spec fn parse_message(b: Seq<u8>) -> Result<WireMessage, DecodeError> {
    if b.len() < MIN_ENCODED_LEN {
        Err(DecodeError::Truncated)
    } else {
        parse_fields(b)
    }
}

/// The fields of a message, in wire order.
pub open spec fn parse_fields(b: Seq<u8>) -> Result<WireMessage, DecodeError> {
    match parse_u8(b) {
        Ok((f, b1)) => match parse_i64(b1) {
            Ok((ts, b2)) => if !utc_millis_in_range(ts) {
                Err(DecodeError::InvalidTimestamp)
            } else {
                match parse_text8(b2) {
                    Ok((id, b3)) => match parse_text8(b3) {
                        Ok((sender, b4)) => match parse_content(has_flag(f, 0x80), b4) {
                            Ok(((content, ct), b5)) => match parse_extras(f, b5) {
                                Ok(x) => Ok(
                                    WireMessage {
                                        id,
                                        sender,
                                        content,
                                        timestamp: ts,
                                        is_relay: has_flag(f, 0x01),
                                        original_sender: x.original_sender,
                                        is_private: has_flag(f, 0x02),
                                        recipient_nickname: x.recipient_nickname,
                                        sender_peer_id: x.sender_peer_id,
                                        mentions: x.mentions,
                                        channel: x.channel,
                                        encrypted_content: ct,
                                        is_encrypted: has_flag(f, 0x80),
                                    },
                                ),
                                Err(e) => Err(e),
                            },
                            Err(e) => Err(e),
                        },
                        Err(e) => Err(e),
                    },
                    Err(e) => Err(e),
                }
            },
            Err(e) => Err(e),
        },
        Err(e) => Err(e),
    }
}

fn read_opt_text8(present: bool, b: &[u8], pos: usize) -> (r: Result<(Option<String>, usize), DecodeError>)
    requires
        pos <= b@.len(),
    ensures
        read_agrees(b@, pos, r, parse_opt_text8(present, b@.skip(pos as int)), |v: Option<String>| text_view(v)),
{
    if present {
        match read_text8(b, pos) {
            Ok((s, q)) => Ok((Some(s), q)),
            Err(e) => Err(e),
        }
    } else {
        Ok((None, pos))
    }
}

fn read_texts8(n: u8, b: &[u8], pos: usize) -> (r: Result<(Vec<String>, usize), DecodeError>)
    requires
        pos <= b@.len(),
    ensures
        read_agrees(b@, pos, r, parse_texts8(n as nat, b@.skip(pos as int)), |v: Vec<String>| texts_view(v@)),
{
    let mut out: Vec<String> = Vec::new();
    let mut p: usize = pos;
    let mut i: u8 = 0;
    while i < n
        invariant
            i <= n,
            pos <= p <= b@.len(),
            out@.len() == i,
            parse_texts8(n as nat, b@.skip(pos as int)) == match parse_texts8((n - i) as nat, b@.skip(p as int)) {
                Ok((ss, r2)) => Ok((texts_view(out@) + ss, r2)),
                Err(e) => Err::<(Seq<Seq<char>>, Seq<u8>), DecodeError>(e),
            },
        decreases n - i,
    {
        let ghost rest = b@.skip(p as int);
        match read_text8(b, p) {
            Ok((s, q)) => {
                proof {
                    let k = (n - i) as nat;
                    assert(parse_texts8(k, rest) == match parse_texts8((k - 1) as nat, b@.skip(q as int)) {
                        Ok((ss, r2)) => Ok((seq![s@] + ss, r2)),
                        Err(e) => Err::<(Seq<Seq<char>>, Seq<u8>), DecodeError>(e),
                    });
                    assert(texts_view(out@.push(s)) =~= texts_view(out@).push(s@));
                    assert forall|ss: Seq<Seq<char>>| texts_view(out@) + (seq![s@] + ss) == texts_view(out@.push(s)) + ss by {
                        assert(texts_view(out@) + (seq![s@] + ss) =~= texts_view(out@).push(s@) + ss);
                    }
                }
                out.push(s);
                p = q;
                i = i + 1;
            },
            Err(e) => {
                return Err(e);
            },
        }
    }
    assert(texts_view(out@) + Seq::<Seq<char>>::empty() =~= texts_view(out@));
    Ok((out, p))
}

fn read_mentions(present: bool, b: &[u8], pos: usize) -> (r: Result<(Option<Vec<String>>, usize), DecodeError>)
    requires
        pos <= b@.len(),
    ensures
        read_agrees(b@, pos, r, parse_mentions(present, b@.skip(pos as int)), |v: Option<Vec<String>>| mentions_view(v)),
{
    if present {
        match read_u8(b, pos) {
            Ok((n, q)) => match read_texts8(n, b, q) {
                Ok((ms, q2)) => Ok((Some(ms), q2)),
                Err(e) => Err(e),
            },
            Err(e) => Err(e),
        }
    } else {
        Ok((None, pos))
    }
}

fn read_content(encrypted: bool, b: &[u8], pos: usize) -> (r: Result<((String, Option<Vec<u8>>), usize), DecodeError>)
    requires
        pos <= b@.len(),
    ensures
        read_agrees(b@, pos, r, parse_content(encrypted, b@.skip(pos as int)),
            |v: (String, Option<Vec<u8>>)| (v.0@, bytes_view(v.1))),
{
    match read_u16(b, pos) {
        Ok((n, q)) => if encrypted {
            match read_bytes(b, q, n as usize) {
                Ok((x, q2)) => {
                    let empty = String::new();
                    Ok(((empty, Some(x)), q2))
                },
                Err(e) => Err(e),
            }
        } else {
            match read_text(b, q, n as usize) {
                Ok((s, q2)) => Ok(((s, None), q2)),
                Err(e) => Err(e),
            }
        },
        Err(e) => Err(e),
    }
}

impl BitchatMessage {
    /// Decodes a message from its wire layout. The delivery status, a local
    /// notion, comes back unset.
    pub fn from_binary_payload(data: &[u8]) -> (r: Result<BitchatMessage, DecodeError>)
        ensures
            data@.len() < MIN_ENCODED_LEN ==> r == Err::<BitchatMessage, DecodeError>(DecodeError::Truncated),
            match r {
                Ok(m) => parse_message(data@) == Ok::<WireMessage, DecodeError>(m.wire())
                    && m.delivery_status is None,
                Err(e) => parse_message(data@) == Err::<WireMessage, DecodeError>(e),
            },
    {
        if data.len() < MIN_ENCODED_LEN {
            return Err(DecodeError::Truncated);
        }
        assert(data@.skip(0) =~= data@);
        let (flags, at1) = match read_u8(data, 0) {
            Ok(x) => x,
            Err(e) => return Err(e),
        };
        let (timestamp, at2) = match read_i64(data, at1) {
            Ok(x) => x,
            Err(e) => return Err(e),
        };
        if !millis_representable(timestamp) {
            return Err(DecodeError::InvalidTimestamp);
        }
        let (id, at3) = match read_text8(data, at2) {
            Ok(x) => x,
            Err(e) => return Err(e),
        };
        let (sender, at4) = match read_text8(data, at3) {
            Ok(x) => x,
            Err(e) => return Err(e),
        };
        let is_encrypted = flags & 0x80u8 != 0;
        let ((content, encrypted_content), at5) = match read_content(is_encrypted, data, at4) {
            Ok(x) => x,
            Err(e) => return Err(e),
        };
        let (original_sender, at6) = match read_opt_text8(flags & 0x04u8 != 0, data, at5) {
            Ok(x) => x,
            Err(e) => return Err(e),
        };
        let (recipient_nickname, at7) = match read_opt_text8(flags & 0x08u8 != 0, data, at6) {
            Ok(x) => x,
            Err(e) => return Err(e),
        };
        let (sender_peer_id, at8) = match read_opt_text8(flags & 0x10u8 != 0, data, at7) {
            Ok(x) => x,
            Err(e) => return Err(e),
        };
        let (mentions, at9) = match read_mentions(flags & 0x20u8 != 0, data, at8) {
            Ok(x) => x,
            Err(e) => return Err(e),
        };
        let (channel, _at) = match read_opt_text8(flags & 0x40u8 != 0, data, at9) {
            Ok(x) => x,
            Err(e) => return Err(e),
        };
        let m = BitchatMessage {
            id,
            sender,
            content,
            timestamp,
            is_relay: flags & 0x01u8 != 0,
            original_sender,
            is_private: flags & 0x02u8 != 0,
            recipient_nickname,
            sender_peer_id,
            mentions,
            channel,
            encrypted_content,
            is_encrypted,
            delivery_status: None,
        };
        Ok(m)
    }
}

fn fits8_str(s: &str) -> (r: bool)
    ensures
        r == fits8(s@),
{
    s.as_bytes().len() <= 255
}

fn opt_fits8_exec(o: &Option<String>) -> (r: bool)
    ensures
        r == opt_fits8(text_view(*o)),
{
    match o {
        Some(s) => fits8_str(s.as_str()),
        None => true,
    }
}

fn mentions_fit_exec(o: &Option<Vec<String>>) -> (r: bool)
    ensures
        r == mentions_fit(mentions_view(*o)),
{
    match o {
        Some(ms) => {
            if ms.len() > 255 {
                return false;
            }
            let mut i: usize = 0;
            while i < ms.len()
                invariant
                    i <= ms@.len() <= 255,
                    mentions_view(*o) == Some(texts_view(ms@)),
                    forall|j: int| 0 <= j < i ==> fits8(#[trigger] texts_view(ms@)[j]),
                decreases ms@.len() - i,
            {
                if !fits8_str(ms[i].as_str()) {
                    assert(!fits8(texts_view(ms@)[i as int]));
                    return false;
                }
                i = i + 1;
            }
            true
        },
        None => true,
    }
}

fn write_opt_text8(out: &mut Vec<u8>, o: &Option<String>)
    requires
        opt_fits8(text_view(*o)),
    ensures
        final(out)@ == old(out)@ + opt_text8(text_view(*o)),
{
    match o {
        Some(s) => write_text8(out, s.as_str()),
        None => {
            assert(out@ =~= out@ + Seq::<u8>::empty());
        },
    }
}

proof fn lemma_texts8_push(v: Seq<String>, i: int)
    requires
        0 <= i < v.len(),
    ensures
        texts8(texts_view(v.take(i + 1))) == texts8(texts_view(v.take(i))) + text8(v[i]@),
{
    let f = |s: Seq<char>| text8(s);
    let a = texts_view(v.take(i)).map_values(f);
    assert(texts_view(v.take(i + 1)).map_values(f) =~= a.push(text8(v[i]@)));
    a.lemma_flatten_push(text8(v[i]@));
}

fn write_texts8(out: &mut Vec<u8>, ms: &Vec<String>)
    requires
        forall|j: int| 0 <= j < ms@.len() ==> fits8(#[trigger] texts_view(ms@)[j]),
    ensures
        final(out)@ == old(out)@ + texts8(texts_view(ms@)),
{
    let mut i: usize = 0;
    assert(texts_view(ms@.take(0)).map_values(|s: Seq<char>| text8(s)) =~= Seq::<Seq<u8>>::empty());
    while i < ms.len()
        invariant
            i <= ms@.len(),
            forall|j: int| 0 <= j < ms@.len() ==> fits8(#[trigger] texts_view(ms@)[j]),
            out@ =~= old(out)@ + texts8(texts_view(ms@.take(i as int))),
        decreases ms@.len() - i,
    {
        assert(fits8(texts_view(ms@)[i as int]));
        write_text8(out, ms[i].as_str());
        proof {
            lemma_texts8_push(ms@, i as int);
        }
        i = i + 1;
    }
    assert(ms@.take(ms@.len() as int) =~= ms@);
}

impl BitchatMessage {
    /// Encodes the message in its wire layout; fails exactly when the
    /// message breaks the message invariant.
    pub fn to_binary_payload(&self) -> (r: Result<Vec<u8>, EncodingError>)
        ensures
            r is Ok <==> self.is_valid(),
            r matches Ok(b) ==> b@ == encode_wire(self.wire()),
    {
        let enc_ok = match &self.encrypted_content {
            Some(c) => self.is_encrypted && self.content.as_str().is_empty() && c.len() <= 0xffff,
            None => !self.is_encrypted && self.content.as_str().as_bytes().len() <= 0xffff,
        };
        if !(enc_ok && fits8_str(self.id.as_str()) && fits8_str(self.sender.as_str())
            && millis_representable(self.timestamp) && opt_fits8_exec(&self.original_sender)
            && opt_fits8_exec(&self.recipient_nickname) && opt_fits8_exec(&self.sender_peer_id)
            && mentions_fit_exec(&self.mentions) && opt_fits8_exec(&self.channel)) {
            return Err(EncodingError::InvalidMessage);
        }
        let flags: u8 = (if self.is_relay { 0x01u8 } else { 0u8 })
            | (if self.is_private { 0x02u8 } else { 0u8 })
            | (if self.original_sender.is_some() { 0x04u8 } else { 0u8 })
            | (if self.recipient_nickname.is_some() { 0x08u8 } else { 0u8 })
            | (if self.sender_peer_id.is_some() { 0x10u8 } else { 0u8 })
            | (if self.mentions.is_some() { 0x20u8 } else { 0u8 })
            | (if self.channel.is_some() { 0x40u8 } else { 0u8 })
            | (if self.is_encrypted { 0x80u8 } else { 0u8 });
        let mut out: Vec<u8> = Vec::new();
        write_u8(&mut out, flags);
        write_i64(&mut out, self.timestamp);
        write_text8(&mut out, self.id.as_str());
        write_text8(&mut out, self.sender.as_str());
        let ghost before_content = out@;
        match &self.encrypted_content {
            Some(c) => {
                write_u16(&mut out, c.len() as u16);
                write_bytes(&mut out, c.as_slice());
            },
            None => {
                let bytes = self.content.as_str().as_bytes();
                write_u16(&mut out, bytes.len() as u16);
                write_bytes(&mut out, bytes);
            },
        }
        assert(out@ =~= before_content + content_section(self.wire()));
        write_opt_text8(&mut out, &self.original_sender);
        write_opt_text8(&mut out, &self.recipient_nickname);
        write_opt_text8(&mut out, &self.sender_peer_id);
        let ghost before_mentions = out@;
        match &self.mentions {
            Some(ms) => {
                write_u8(&mut out, ms.len() as u8);
                write_texts8(&mut out, ms);
            },
            None => {},
        }
        assert(out@ =~= before_mentions + mentions_section(self.wire().mentions));
        write_opt_text8(&mut out, &self.channel);
        assert(out@ =~= encode_wire(self.wire()));
        Ok(out)
    }
}

proof fn lemma_flags(w: WireMessage)
    ensures
        has_flag(flags_of(w), 0x01) == w.is_relay,
        has_flag(flags_of(w), 0x02) == w.is_private,
        has_flag(flags_of(w), 0x04) == w.original_sender is Some,
        has_flag(flags_of(w), 0x08) == w.recipient_nickname is Some,
        has_flag(flags_of(w), 0x10) == w.sender_peer_id is Some,
        has_flag(flags_of(w), 0x20) == w.mentions is Some,
        has_flag(flags_of(w), 0x40) == w.channel is Some,
        has_flag(flags_of(w), 0x80) == w.is_encrypted,
{
    let a = flag(w.is_relay, 0x01);
    let b = flag(w.is_private, 0x02);
    let c = flag(w.original_sender is Some, 0x04);
    let d = flag(w.recipient_nickname is Some, 0x08);
    let e = flag(w.sender_peer_id is Some, 0x10);
    let g = flag(w.mentions is Some, 0x20);
    let h = flag(w.channel is Some, 0x40);
    let k = flag(w.is_encrypted, 0x80);
    let f = a | b | c | d | e | g | h | k;
    assert(f & 0x01 == a && f & 0x02 == b && f & 0x04 == c && f & 0x08 == d && f & 0x10 == e
        && f & 0x20 == g && f & 0x40 == h && f & 0x80 == k) by (bit_vector)
        requires
            a == 0 || a == 0x01,
            b == 0 || b == 0x02,
            c == 0 || c == 0x04,
            d == 0 || d == 0x08,
            e == 0 || e == 0x10,
            g == 0 || g == 0x20,
            h == 0 || h == 0x40,
            k == 0 || k == 0x80,
            f == a | b | c | d | e | g | h | k,
    ;
}

proof fn lemma_opt_text8_round_trip(o: Option<Seq<char>>, rest: Seq<u8>)
    requires
        opt_fits8(o),
    ensures
        parse_opt_text8(o is Some, opt_text8(o) + rest) == Ok::<(Option<Seq<char>>, Seq<u8>), DecodeError>((o, rest)),
{
    match o {
        Some(s) => crate::wire::lemma_text8_round_trip(s, rest),
        None => assert(Seq::<u8>::empty() + rest =~= rest),
    }
}

proof fn lemma_texts8_round_trip(ms: Seq<Seq<char>>, rest: Seq<u8>)
    requires
        forall|i: int| 0 <= i < ms.len() ==> fits8(#[trigger] ms[i]),
    ensures
        parse_texts8(ms.len(), texts8(ms) + rest) == Ok::<(Seq<Seq<char>>, Seq<u8>), DecodeError>((ms, rest)),
    decreases ms.len(),
{
    let f = |s: Seq<char>| text8(s);
    if ms.len() == 0 {
        assert(ms.map_values(f) =~= Seq::<Seq<u8>>::empty());
        assert(texts8(ms) + rest =~= rest);
        assert(ms =~= Seq::<Seq<char>>::empty());
    } else {
        let tail = ms.drop_first();
        assert(ms.map_values(f).drop_first() =~= tail.map_values(f));
        assert(texts8(ms) == text8(ms[0]) + texts8(tail));
        assert(texts8(ms) + rest =~= text8(ms[0]) + (texts8(tail) + rest));
        assert(fits8(ms[0]));
        crate::wire::lemma_text8_round_trip(ms[0], texts8(tail) + rest);
        assert forall|i: int| 0 <= i < tail.len() implies fits8(#[trigger] tail[i]) by {
            assert(tail[i] == ms[i + 1]);
        }
        lemma_texts8_round_trip(tail, rest);
        assert(seq![ms[0]] + tail =~= ms);
    }
}

proof fn lemma_mentions_round_trip(o: Option<Seq<Seq<char>>>, rest: Seq<u8>)
    requires
        mentions_fit(o),
    ensures
        parse_mentions(o is Some, mentions_section(o) + rest) == Ok::<(Option<Seq<Seq<char>>>, Seq<u8>), DecodeError>((o, rest)),
{
    match o {
        Some(ms) => {
            assert(mentions_section(o) + rest =~= seq![ms.len() as u8] + (texts8(ms) + rest));
            crate::wire::lemma_u8_round_trip(ms.len() as u8, texts8(ms) + rest);
            lemma_texts8_round_trip(ms, rest);
        },
        None => assert(Seq::<u8>::empty() + rest =~= rest),
    }
}

proof fn lemma_content_round_trip(w: WireMessage, rest: Seq<u8>)
    requires
        valid_wire(w),
    ensures
        parse_content(w.is_encrypted, content_section(w) + rest) == Ok::<((Seq<char>, Option<Seq<u8>>), Seq<u8>), DecodeError>(
            ((w.content, w.encrypted_content), rest),
        ),
{
    if w.is_encrypted {
        let c = w.encrypted_content.unwrap();
        assert(content_section(w) + rest =~= be16(c.len() as u16) + (c + rest));
        crate::wire::lemma_u16_round_trip(c.len() as u16, c + rest);
        crate::wire::lemma_bytes_round_trip(c, rest);
        assert(w.content =~= Seq::<char>::empty());
    } else {
        let u = utf8(w.content);
        assert(content_section(w) + rest =~= be16(u.len() as u16) + (u + rest));
        crate::wire::lemma_u16_round_trip(u.len() as u16, u + rest);
        crate::wire::lemma_text_round_trip(w.content, rest);
    }
}

pub open spec fn extras_bytes(w: WireMessage) -> Seq<u8> {
    opt_text8(w.original_sender) + (opt_text8(w.recipient_nickname) + (opt_text8(w.sender_peer_id)
        + (mentions_section(w.mentions) + opt_text8(w.channel))))
}

pub open spec fn extras_of(w: WireMessage) -> Extras {
    Extras {
        original_sender: w.original_sender,
        recipient_nickname: w.recipient_nickname,
        sender_peer_id: w.sender_peer_id,
        mentions: w.mentions,
        channel: w.channel,
    }
}

proof fn lemma_extras_round_trip(w: WireMessage)
    requires
        valid_wire(w),
    ensures
        parse_extras(flags_of(w), extras_bytes(w)) == Ok::<Extras, DecodeError>(extras_of(w)),
{
    let f = flags_of(w);
    lemma_flags(w);
    let e = opt_text8(w.channel);
    let d = mentions_section(w.mentions) + e;
    let c = opt_text8(w.sender_peer_id) + d;
    let b = opt_text8(w.recipient_nickname) + c;
    let a = opt_text8(w.original_sender) + b;
    lemma_opt_text8_round_trip(w.channel, Seq::<u8>::empty());
    assert(e + Seq::<u8>::empty() =~= e);
    lemma_mentions_round_trip(w.mentions, e);
    lemma_opt_text8_round_trip(w.sender_peer_id, d);
    lemma_opt_text8_round_trip(w.recipient_nickname, c);
    lemma_opt_text8_round_trip(w.original_sender, b);
}

proof fn lemma_head_round_trip(w: WireMessage)
    requires
        valid_wire(w),
    ensures
        ({
            let s4 = content_section(w) + extras_bytes(w);
            let s3 = text8(w.sender) + s4;
            let s2 = text8(w.id) + s3;
            let s1 = be_i64(w.timestamp) + s2;
            &&& encode_wire(w) == seq![flags_of(w)] + s1
            &&& parse_u8(encode_wire(w)) == Ok::<(u8, Seq<u8>), DecodeError>((flags_of(w), s1))
            &&& parse_i64(s1) == Ok::<(i64, Seq<u8>), DecodeError>((w.timestamp, s2))
            &&& parse_text8(s2) == Ok::<(Seq<char>, Seq<u8>), DecodeError>((w.id, s3))
            &&& parse_text8(s3) == Ok::<(Seq<char>, Seq<u8>), DecodeError>((w.sender, s4))
            &&& parse_content(w.is_encrypted, s4) == Ok::<((Seq<char>, Option<Seq<u8>>), Seq<u8>), DecodeError>(
                ((w.content, w.encrypted_content), extras_bytes(w)),
            )
        }),
{
    let a = extras_bytes(w);
    lemma_content_round_trip(w, a);
    let s4 = content_section(w) + a;
    crate::wire::lemma_text8_round_trip(w.sender, s4);
    let s3 = text8(w.sender) + s4;
    crate::wire::lemma_text8_round_trip(w.id, s3);
    let s2 = text8(w.id) + s3;
    crate::wire::lemma_i64_round_trip(w.timestamp, s2);
    let s1 = be_i64(w.timestamp) + s2;
    crate::wire::lemma_u8_round_trip(flags_of(w), s1);
    lemma_encode_wire_nested(w);
}

proof fn lemma_encode_wire_nested(w: WireMessage)
    ensures
        encode_wire(w) == seq![flags_of(w)] + (be_i64(w.timestamp) + (text8(w.id) + (text8(w.sender)
            + (content_section(w) + extras_bytes(w))))),
{
    let x0 = seq![flags_of(w)];
    let x1 = be_i64(w.timestamp);
    let x2 = text8(w.id);
    let x3 = text8(w.sender);
    let x4 = content_section(w);
    let x5 = opt_text8(w.original_sender);
    let x6 = opt_text8(w.recipient_nickname);
    let x7 = opt_text8(w.sender_peer_id);
    let x8 = mentions_section(w.mentions);
    let x9 = opt_text8(w.channel);
    let t8 = x8 + x9;
    let t7 = x7 + t8;
    let t6 = x6 + t7;
    let t5 = x5 + t6;
    assert(extras_bytes(w) == t5);
    let t4 = x4 + t5;
    let t3 = x3 + t4;
    let t2 = x2 + t3;
    let t1 = x1 + t2;
    let l1 = x0 + x1;
    let l2 = l1 + x2;
    let l3 = l2 + x3;
    let l4 = l3 + x4;
    let l5 = l4 + x5;
    let l6 = l5 + x6;
    let l7 = l6 + x7;
    let l8 = l7 + x8;
    let l9 = l8 + x9;
    assert(encode_wire(w) == l9);
    assert(l8 + x9 =~= l7 + t8);
    assert(l7 + t8 =~= l6 + t7);
    assert(l6 + t7 =~= l5 + t6);
    assert(l5 + t6 =~= l4 + t5);
    assert(l4 + t5 =~= l3 + t4);
    assert(l3 + t4 =~= l2 + t3);
    assert(l2 + t3 =~= l1 + t2);
    assert(l1 + t2 =~= x0 + t1);
}

/// Decoding the encoding of a valid message gives back every field that the
/// wire carries.
pub proof fn lemma_decode_encode(w: WireMessage)
    requires
        valid_wire(w),
    ensures
        parse_message(encode_wire(w)) == Ok::<WireMessage, DecodeError>(w),
{
    lemma_flags(w);
    lemma_head_round_trip(w);
    lemma_extras_round_trip(w);
    lemma_encode_wire_nested(w);
    assert(encode_wire(w).len() >= MIN_ENCODED_LEN);
}

/// Round trip of the codec: a valid message decodes from its own encoding to
/// the same wire-carried fields.
pub proof fn law_message_round_trip(m: BitchatMessage)
    requires
        m.is_valid(),
    ensures
        parse_message(encode_wire(m.wire())) == Ok::<WireMessage, DecodeError>(m.wire()),
{
    lemma_decode_encode(m.wire());
}

/// Every buffer shorter than the smallest encoding (13 bytes) is reported
/// truncated.
pub proof fn law_short_buffer_rejected(b: Seq<u8>)
    requires
        b.len() < MIN_ENCODED_LEN,
    ensures
        parse_message(b) == Err::<WireMessage, DecodeError>(DecodeError::Truncated),
{
}

proof fn lemma_uuid_fits(s: Seq<char>)
    requires
        s.len() == 36,
        vstd::utf8::is_ascii_chars(s),
    ensures
        fits8(s),
{
    vstd::utf8::is_ascii_chars_encode_utf8(s);
}

impl BitchatMessage {
    /// A fresh public plaintext message: new unique id, the current time,
    /// no optional sections, status `Sending`.
    pub fn new(sender: String, content: String) -> (r: BitchatMessage)
        ensures
            r.sender@ == sender@,
            r.content@ == content@,
            r.id@.len() == 36,
            utc_millis_in_range(r.timestamp),
            !r.is_relay && !r.is_private && !r.is_encrypted,
            r.original_sender is None && r.recipient_nickname is None && r.sender_peer_id is None,
            r.mentions is None && r.channel is None && r.encrypted_content is None,
            r.delivery_status == Some(DeliveryStatus::Sending),
            fits8(sender@) && utf8(content@).len() <= 0xffff ==> r.is_valid(),
    {
        let id = new_uuid_string();
        proof {
            lemma_uuid_fits(id@);
        }
        let timestamp = now_millis();
        BitchatMessage {
            id,
            sender,
            content,
            timestamp,
            is_relay: false,
            original_sender: None,
            is_private: false,
            recipient_nickname: None,
            sender_peer_id: None,
            mentions: None,
            channel: None,
            encrypted_content: None,
            is_encrypted: false,
            delivery_status: Some(DeliveryStatus::Sending),
        }
    }
}

/// Acknowledgment that a peer received a message.
#[derive(Debug, Clone)]
pub struct DeliveryAck {
    pub original_message_id: String,
    pub ack_id: String,
    pub recipient_id: String,
    pub recipient_nickname: String,
    pub timestamp: i64,
    pub hop_count: u8,
}

impl DeliveryAck {
    /// A fresh acknowledgment with its own unique id and the current time.
    pub fn new(original_message_id: String, recipient_id: String, recipient_nickname: String, hop_count: u8) -> (r: DeliveryAck)
        ensures
            r.original_message_id@ == original_message_id@,
            r.recipient_id@ == recipient_id@,
            r.recipient_nickname@ == recipient_nickname@,
            r.hop_count == hop_count,
            r.ack_id@.len() == 36,
            fits8(r.ack_id@),
            utc_millis_in_range(r.timestamp),
    {
        let ack_id = new_uuid_string();
        proof {
            lemma_uuid_fits(ack_id@);
        }
        DeliveryAck {
            original_message_id,
            ack_id,
            recipient_id,
            recipient_nickname,
            timestamp: now_millis(),
            hop_count,
        }
    }
}

/// Receipt that a peer displayed a message.
#[derive(Debug, Clone)]
pub struct ReadReceipt {
    pub original_message_id: String,
    pub receipt_id: String,
    pub reader_id: String,
    pub reader_nickname: String,
    pub timestamp: i64,
}

impl ReadReceipt {
    /// A fresh receipt with its own unique id and the current time.
    pub fn new(original_message_id: String, reader_id: String, reader_nickname: String) -> (r: ReadReceipt)
        ensures
            r.original_message_id@ == original_message_id@,
            r.reader_id@ == reader_id@,
            r.reader_nickname@ == reader_nickname@,
            r.receipt_id@.len() == 36,
            fits8(r.receipt_id@),
            utc_millis_in_range(r.timestamp),
    {
        let receipt_id = new_uuid_string();
        proof {
            lemma_uuid_fits(receipt_id@);
        }
        ReadReceipt {
            original_message_id,
            receipt_id,
            reader_id,
            reader_nickname,
            timestamp: now_millis(),
        }
    }
}

pub struct AckView {
    pub original_message_id: Seq<char>,
    pub ack_id: Seq<char>,
    pub recipient_id: Seq<char>,
    pub recipient_nickname: Seq<char>,
    pub timestamp: i64,
    pub hop_count: u8,
}

pub struct ReceiptView {
    pub original_message_id: Seq<char>,
    pub receipt_id: Seq<char>,
    pub reader_id: Seq<char>,
    pub reader_nickname: Seq<char>,
    pub timestamp: i64,
}

impl DeliveryAck {
    pub open spec fn view(&self) -> AckView {
        AckView {
            original_message_id: self.original_message_id@,
            ack_id: self.ack_id@,
            recipient_id: self.recipient_id@,
            recipient_nickname: self.recipient_nickname@,
            timestamp: self.timestamp,
            hop_count: self.hop_count,
        }
    }
}

impl ReadReceipt {
    pub open spec fn view(&self) -> ReceiptView {
        ReceiptView {
            original_message_id: self.original_message_id@,
            receipt_id: self.receipt_id@,
            reader_id: self.reader_id@,
            reader_nickname: self.reader_nickname@,
            timestamp: self.timestamp,
        }
    }
}

/// Four length-prefixed texts followed by a timestamp: the common head of
/// acknowledgments and receipts.
pub open spec fn parse_record_head(b: Seq<u8>) -> Parsed<(Seq<char>, Seq<char>, Seq<char>, Seq<char>, i64)> {
    match parse_text8(b) {
        Ok((a, b1)) => match parse_text8(b1) {
            Ok((c, b2)) => match parse_text8(b2) {
                Ok((d, b3)) => match parse_text8(b3) {
                    Ok((e, b4)) => match parse_i64(b4) {
                        Ok((ts, b5)) => if utc_millis_in_range(ts) {
                            Ok(((a, c, d, e, ts), b5))
                        } else {
                            Err(DecodeError::InvalidTimestamp)
                        },
                        Err(x) => Err(x),
                    },
                    Err(x) => Err(x),
                },
                Err(x) => Err(x),
            },
            Err(x) => Err(x),
        },
        Err(x) => Err(x),
    }
}

/// Wire layout of an acknowledgment: original id, ack id, recipient id,
/// recipient nickname, timestamp, hop count.
pub open spec fn parse_ack(b: Seq<u8>) -> Result<AckView, DecodeError> {
    match parse_record_head(b) {
        Ok(((o, a, r, n, ts), rest)) => match parse_u8(rest) {
            Ok((hop, _)) => Ok(
                AckView {
                    original_message_id: o,
                    ack_id: a,
                    recipient_id: r,
                    recipient_nickname: n,
                    timestamp: ts,
                    hop_count: hop,
                },
            ),
            Err(x) => Err(x),
        },
        Err(x) => Err(x),
    }
}

/// Wire layout of a read receipt: original id, receipt id, reader id,
/// reader nickname, timestamp.
pub open spec fn parse_receipt(b: Seq<u8>) -> Result<ReceiptView, DecodeError> {
    match parse_record_head(b) {
        Ok(((o, a, r, n, ts), _)) => Ok(
            ReceiptView { original_message_id: o, receipt_id: a, reader_id: r, reader_nickname: n, timestamp: ts },
        ),
        Err(x) => Err(x),
    }
}

pub open spec fn record_wire(a: Seq<char>, b: Seq<char>, c: Seq<char>, d: Seq<char>, ts: i64) -> Seq<u8> {
    text8(a) + text8(b) + text8(c) + text8(d) + be_i64(ts)
}

fn read_record_head(b: &[u8]) -> (r: Result<((String, String, String, String, i64), usize), DecodeError>)
    ensures
        read_agrees(b@, 0, r, parse_record_head(b@.skip(0)),
            |v: (String, String, String, String, i64)| (v.0@, v.1@, v.2@, v.3@, v.4)),
{
    let (a, at1) = match read_text8(b, 0) {
        Ok(x) => x,
        Err(e) => return Err(e),
    };
    let (c, at2) = match read_text8(b, at1) {
        Ok(x) => x,
        Err(e) => return Err(e),
    };
    let (d, at3) = match read_text8(b, at2) {
        Ok(x) => x,
        Err(e) => return Err(e),
    };
    let (e, at4) = match read_text8(b, at3) {
        Ok(x) => x,
        Err(e) => return Err(e),
    };
    let (ts, at5) = match read_i64(b, at4) {
        Ok(x) => x,
        Err(e) => return Err(e),
    };
    if !millis_representable(ts) {
        return Err(DecodeError::InvalidTimestamp);
    }
    Ok(((a, c, d, e, ts), at5))
}

fn write_record(out: &mut Vec<u8>, a: &str, b: &str, c: &str, d: &str, ts: i64) -> (ok: bool)
    ensures
        ok == (fits8(a@) && fits8(b@) && fits8(c@) && fits8(d@)),
        ok ==> final(out)@ == old(out)@ + record_wire(a@, b@, c@, d@, ts),
        !ok ==> final(out)@ == old(out)@,
{
    if !(fits8_str(a) && fits8_str(b) && fits8_str(c) && fits8_str(d)) {
        return false;
    }
    write_text8(out, a);
    write_text8(out, b);
    write_text8(out, c);
    write_text8(out, d);
    write_i64(out, ts);
    assert(out@ =~= old(out)@ + record_wire(a@, b@, c@, d@, ts));
    true
}

impl DeliveryAck {
    /// Encodes the acknowledgment; fails when a text field is longer than
    /// its one-byte length allows.
    pub fn to_binary_payload(&self) -> (r: Result<Vec<u8>, EncodingError>)
        ensures
            r is Ok <==> fits8(self.original_message_id@) && fits8(self.ack_id@) && fits8(self.recipient_id@)
                && fits8(self.recipient_nickname@),
            r matches Ok(b) ==> b@ == record_wire(self.original_message_id@, self.ack_id@, self.recipient_id@,
                self.recipient_nickname@, self.timestamp).push(self.hop_count),
    {
        let mut out: Vec<u8> = Vec::new();
        if !write_record(&mut out, self.original_message_id.as_str(), self.ack_id.as_str(),
            self.recipient_id.as_str(), self.recipient_nickname.as_str(), self.timestamp) {
            return Err(EncodingError::InvalidMessage);
        }
        out.push(self.hop_count);
        Ok(out)
    }

    /// Decodes an acknowledgment.
    pub fn from_binary_payload(data: &[u8]) -> (r: Result<DeliveryAck, DecodeError>)
        ensures
            match r {
                Ok(a) => parse_ack(data@) == Ok::<AckView, DecodeError>(a.view()),
                Err(e) => parse_ack(data@) == Err::<AckView, DecodeError>(e),
            },
    {
        assert(data@.skip(0) =~= data@);
        let ((o, a, rid, n, ts), p) = match read_record_head(data) {
            Ok(x) => x,
            Err(e) => return Err(e),
        };
        let (hop, _q) = match read_u8(data, p) {
            Ok(x) => x,
            Err(e) => return Err(e),
        };
        Ok(DeliveryAck {
            original_message_id: o,
            ack_id: a,
            recipient_id: rid,
            recipient_nickname: n,
            timestamp: ts,
            hop_count: hop,
        })
    }
}

impl ReadReceipt {
    /// Encodes the receipt; fails when a text field is longer than its
    /// one-byte length allows.
    pub fn to_binary_payload(&self) -> (r: Result<Vec<u8>, EncodingError>)
        ensures
            r is Ok <==> fits8(self.original_message_id@) && fits8(self.receipt_id@) && fits8(self.reader_id@)
                && fits8(self.reader_nickname@),
            r matches Ok(b) ==> b@ == record_wire(self.original_message_id@, self.receipt_id@, self.reader_id@,
                self.reader_nickname@, self.timestamp),
    {
        let mut out: Vec<u8> = Vec::new();
        if !write_record(&mut out, self.original_message_id.as_str(), self.receipt_id.as_str(),
            self.reader_id.as_str(), self.reader_nickname.as_str(), self.timestamp) {
            return Err(EncodingError::InvalidMessage);
        }
        assert(out@ =~= record_wire(self.original_message_id@, self.receipt_id@, self.reader_id@,
            self.reader_nickname@, self.timestamp));
        Ok(out)
    }

    /// Decodes a read receipt.
    pub fn from_binary_payload(data: &[u8]) -> (r: Result<ReadReceipt, DecodeError>)
        ensures
            match r {
                Ok(a) => parse_receipt(data@) == Ok::<ReceiptView, DecodeError>(a.view()),
                Err(e) => parse_receipt(data@) == Err::<ReceiptView, DecodeError>(e),
            },
    {
        assert(data@.skip(0) =~= data@);
        let ((o, a, rid, n, ts), _p) = match read_record_head(data) {
            Ok(x) => x,
            Err(e) => return Err(e),
        };
        Ok(ReadReceipt { original_message_id: o, receipt_id: a, reader_id: rid, reader_nickname: n, timestamp: ts })
    }
}

pub open spec fn digit_char(d: nat) -> char {
    if d == 0 { '0' } else if d == 1 { '1' } else if d == 2 { '2' } else if d == 3 { '3' } else if d == 4 {
        '4'
    } else if d == 5 { '5' } else if d == 6 { '6' } else if d == 7 { '7' } else if d == 8 { '8' } else { '9' }
}

/// Decimal digits of `n`, without leading zeros.
pub open spec fn decimal(n: nat) -> Seq<char>
    decreases n,
{
    if n < 10 {
        seq![digit_char(n)]
    } else {
        decimal(n / 10) + seq![digit_char(n % 10)]
    }
}

fn digit_str(d: u32) -> (r: &'static str)
    requires
        d < 10,
    ensures
        r@ == seq![digit_char(d as nat)],
{
    proof {
        reveal_strlit("0");
        reveal_strlit("1");
        reveal_strlit("2");
        reveal_strlit("3");
        reveal_strlit("4");
        reveal_strlit("5");
        reveal_strlit("6");
        reveal_strlit("7");
        reveal_strlit("8");
        reveal_strlit("9");
    }
    if d == 0 { "0" } else if d == 1 { "1" } else if d == 2 { "2" } else if d == 3 { "3" } else if d == 4 {
        "4"
    } else if d == 5 { "5" } else if d == 6 { "6" } else if d == 7 { "7" } else if d == 8 { "8" } else { "9" }
}

fn append_decimal(out: &mut String, n: u32)
    ensures
        final(out)@ == old(out)@ + decimal(n as nat),
    decreases n,
{
    if n >= 10 {
        append_decimal(out, n / 10);
    }
    out.append(digit_str(n % 10));
    assert(out@ =~= old(out)@ + decimal(n as nat));
}

/// How a delivery status reads to the user.
pub open spec fn display_text(s: DeliveryStatus) -> Seq<char> {
    match s {
        DeliveryStatus::Sending => "Sending..."@,
        DeliveryStatus::Sent => "Sent"@,
        DeliveryStatus::Delivered { to, at: _ } => "Delivered to "@ + to@,
        DeliveryStatus::Read { by, at: _ } => "Read by "@ + by@,
        DeliveryStatus::Failed { reason } => "Failed: "@ + reason@,
        DeliveryStatus::PartiallyDelivered { reached, total } => "Delivered to "@ + decimal(reached as nat) + "/"@
            + decimal(total as nat),
    }
}

impl DeliveryStatus {
    /// The status as shown to the user.
    pub fn get_display_text(&self) -> (r: String)
        ensures
            r@ == display_text(*self),
    {
        match self {
            DeliveryStatus::Sending => String::from_str("Sending..."),
            DeliveryStatus::Sent => String::from_str("Sent"),
            DeliveryStatus::Delivered { to, at: _ } => String::from_str("Delivered to ").concat(to.as_str()),
            DeliveryStatus::Read { by, at: _ } => String::from_str("Read by ").concat(by.as_str()),
            DeliveryStatus::Failed { reason } => String::from_str("Failed: ").concat(reason.as_str()),
            DeliveryStatus::PartiallyDelivered { reached, total } => {
                let mut s = String::from_str("Delivered to ");
                append_decimal(&mut s, *reached);
                s.append("/");
                append_decimal(&mut s, *total);
                s
            },
        }
    }
}

} // verus!
