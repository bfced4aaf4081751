//! Netlink message framing: the 16-byte message header codec, 4-byte
//! alignment, and the streaming reader that reassembles messages from a
//! chunked byte transport.

use vstd::prelude::*;
use vstd::arithmetic::div_mod::lemma_div_denominator;
use vstd::arithmetic::div_mod::lemma_fundamental_div_mod_converse;
use vstd::arithmetic::div_mod::lemma_small_mod;
use vstd::arithmetic::div_mod::lemma_fundamental_div_mod;
use vstd::arithmetic::div_mod::lemma_mod_multiples_basic;

verus! {

/* Message flags. */
pub const NLM_F_REQUEST: u16 = 1;
pub const NLM_F_MULTI: u16 = 2;
pub const NLM_F_ACK: u16 = 4;
pub const NLM_F_ECHO: u16 = 8;
pub const NLM_F_DUMP_INTR: u16 = 16;

/* Modifiers to GET requests. */
pub const NLM_F_ROOT: u16 = 0x100;
pub const NLM_F_MATCH: u16 = 0x200;
pub const NLM_F_ATOMIC: u16 = 0x400;
pub const NLM_F_DUMP: u16 = NLM_F_ROOT | NLM_F_MATCH;

/* Generic message kinds. */
pub const NLMSG_NOOP: u16 = 1;
pub const NLMSG_ERROR: u16 = 2;
pub const NLMSG_DONE: u16 = 3;
pub const NLMSG_OVERRUN: u16 = 4;

/// Byte length of the fixed message header.
pub const NLMSG_HDR_LEN: usize = 16;

/// Rounds a byte count up to the next 4-byte boundary.
pub open spec fn spec_align(n: int) -> int {
    ((n + 3) / 4) * 4
}

/// Splits `n` against the 4-byte boundary: rounding `n + 3` down to a
/// multiple of four lands on `n` when `n` is aligned, else one
/// boundary further.
proof fn lemma_align_split(n: int)
    requires
        0 <= n,
    ensures
        n % 4 == 0 ==> spec_align(n) == n,
        n % 4 != 0 ==> spec_align(n) == n + 4 - n % 4,
{
    lemma_fundamental_div_mod(n, 4);
    if n % 4 == 0 {
        lemma_fundamental_div_mod_converse(n + 3, 4, n / 4, 3);
    } else {
        lemma_fundamental_div_mod_converse(n + 3, 4, n / 4 + 1, n % 4 - 1);
    }
}

/// Message and attribute framing both advance by the aligned length.
pub fn align(len: usize) -> (r: usize)
    requires
        len <= usize::MAX - 3,
    ensures
        r == spec_align(len as int),
{
    proof {
        lemma_align_split(len as int);
    }
    let rem: usize = len % 4;
    if rem == 0 {
        len
    } else {
        len + (4 - rem)
    }
}

/// Alignment rounds up to the nearest multiple of four and is idempotent.
pub proof fn lemma_align_properties(n: int)
    requires
        0 <= n,
    ensures
        spec_align(spec_align(n)) == spec_align(n),
        spec_align(n) >= n,
        spec_align(n) - n < 4,
        spec_align(n) % 4 == 0,
{
    lemma_align_split(n);
    lemma_mod_multiples_basic((n + 3) / 4, 4);
    lemma_align_split(spec_align(n));
}

/// Value of the little-endian 16-bit field at offset `i`.
pub open spec fn spec_le16(s: Seq<u8>, i: int) -> int {
    s[i] + s[i + 1] * 0x100
}

/// Value of the little-endian 32-bit field at offset `i`.
pub open spec fn spec_le32(s: Seq<u8>, i: int) -> int {
    s[i] + s[i + 1] * 0x100 + s[i + 2] * 0x10000 + s[i + 3] * 0x100_0000
}

/// The two little-endian bytes of a 16-bit value.
pub open spec fn spec_le16_bytes(v: int) -> Seq<u8> {
    seq![(v % 0x100) as u8, ((v / 0x100) % 0x100) as u8]
}

/// The four little-endian bytes of a 32-bit value.
pub open spec fn spec_le32_bytes(v: int) -> Seq<u8> {
    seq![
        (v % 0x100) as u8,
        ((v / 0x100) % 0x100) as u8,
        ((v / 0x10000) % 0x100) as u8,
        ((v / 0x100_0000) % 0x100) as u8,
    ]
}

pub(crate) fn read_le16(buf: &[u8], off: usize) -> (r: u16)
    requires
        off + 2 <= buf@.len(),
    ensures
        r == spec_le16(buf@, off as int),
{
    let b0 = buf[off] as u16;
    let b1 = buf[off + 1] as u16;
    b0 + b1 * 0x100
}

pub(crate) fn read_le32(buf: &[u8], off: usize) -> (r: u32)
    requires
        off + 4 <= buf@.len(),
    ensures
        r == spec_le32(buf@, off as int),
{
    let b0 = buf[off] as u32;
    let b1 = buf[off + 1] as u32;
    let b2 = buf[off + 2] as u32;
    let b3 = buf[off + 3] as u32;
    b0 + b1 * 0x100 + b2 * 0x10000 + b3 * 0x100_0000
}

fn push_le16(out: &mut Vec<u8>, v: u16)
    ensures
        final(out)@ == old(out)@ + spec_le16_bytes(v as int),
{
    out.push((v % 0x100) as u8);
    out.push(((v / 0x100) % 0x100) as u8);
    assert(out@ =~= old(out)@ + spec_le16_bytes(v as int));
}

fn push_le32(out: &mut Vec<u8>, v: u32)
    ensures
        final(out)@ == old(out)@ + spec_le32_bytes(v as int),
{
    out.push((v % 0x100) as u8);
    out.push(((v / 0x100) % 0x100) as u8);
    out.push(((v / 0x10000) % 0x100) as u8);
    out.push(((v / 0x100_0000) % 0x100) as u8);
    assert(out@ =~= old(out)@ + spec_le32_bytes(v as int));
}

/// Re-encoding a decoded 16-bit field gives back its two bytes.
pub proof fn lemma_le16_roundtrip(s: Seq<u8>, i: int)
    requires
        0 <= i,
        i + 2 <= s.len(),
    ensures
        spec_le16_bytes(spec_le16(s, i)) =~= s.subrange(i, i + 2),
{
    let v = spec_le16(s, i);
    lemma_fundamental_div_mod_converse(v, 0x100, s[i + 1] as int, s[i] as int);
    lemma_small_mod(s[i + 1] as nat, 0x100);
}

/// Re-encoding a decoded 32-bit field gives back its four bytes.
pub proof fn lemma_le32_roundtrip(s: Seq<u8>, i: int)
    requires
        0 <= i,
        i + 4 <= s.len(),
    ensures
        spec_le32_bytes(spec_le32(s, i)) =~= s.subrange(i, i + 4),
{
    let v = spec_le32(s, i);
    let b0 = s[i] as int;
    let b1 = s[i + 1] as int;
    let b2 = s[i + 2] as int;
    let b3 = s[i + 3] as int;
    let q1 = b1 + b2 * 0x100 + b3 * 0x10000;
    let q2 = b2 + b3 * 0x100;
    lemma_fundamental_div_mod_converse(v, 0x100, q1, b0);
    lemma_fundamental_div_mod_converse(q1, 0x100, q2, b1);
    lemma_fundamental_div_mod_converse(q2, 0x100, b3, b2);
    lemma_div_denominator(v, 0x100, 0x100);
    lemma_div_denominator(v, 0x10000, 0x100);
    lemma_small_mod(b1 as nat, 0x100);
    lemma_small_mod(b2 as nat, 0x100);
    lemma_small_mod(b3 as nat, 0x100);
}

/// A decoded netlink message: the five header fields and a copied-out
/// payload, owned so that it stays valid across further reader calls.
pub struct NetlinkPacket {
    pub length: u32,
    pub kind: u16,
    pub flags: u16,
    pub sequence: u32,
    pub pid: u32,
    pub payload: Vec<u8>,
}

/// `p` holds exactly what the wire bytes `s` encode: each header field
/// reads its little-endian window, and the payload is everything after
/// the 16-byte header.
pub open spec fn is_decode_of(p: NetlinkPacket, s: Seq<u8>) -> bool {
    &&& p.length == spec_le32(s, 0)
    &&& p.kind == spec_le16(s, 4)
    &&& p.flags == spec_le16(s, 6)
    &&& p.sequence == spec_le32(s, 8)
    &&& p.pid == spec_le32(s, 12)
    &&& p.payload@ == s.skip(16)
}

/// The 16 header bytes that the five fields encode to.
pub open spec fn spec_header_bytes(
    length: u32,
    kind: u16,
    flags: u16,
    sequence: u32,
    pid: u32,
) -> Seq<u8> {
    spec_le32_bytes(length as int) + spec_le16_bytes(kind as int) + spec_le16_bytes(flags as int)
        + spec_le32_bytes(sequence as int) + spec_le32_bytes(pid as int)
}

/// The full encoding of a message: header bytes, then the payload.
pub open spec fn spec_encode(p: NetlinkPacket) -> Seq<u8> {
    spec_header_bytes(p.length, p.kind, p.flags, p.sequence, p.pid) + p.payload@
}

impl NetlinkPacket {
    /// Decodes one message from the front of `buf`; `None` exactly when
    /// even the fixed header is not there.
    pub fn new(buf: &[u8]) -> (r: Option<NetlinkPacket>)
        ensures
            r is Some <==> buf@.len() >= NLMSG_HDR_LEN,
            r matches Some(p) ==> is_decode_of(p, buf@),
    {
        if buf.len() < NLMSG_HDR_LEN {
            return None;
        }
        let length = read_le32(buf, 0);
        let kind = read_le16(buf, 4);
        let flags = read_le16(buf, 6);
        let sequence = read_le32(buf, 8);
        let pid = read_le32(buf, 12);
        let mut payload: Vec<u8> = Vec::new();
        payload.extend_from_slice(&buf[NLMSG_HDR_LEN..buf.len()]);
        assert(payload@ =~= buf@.skip(16));
        Some(NetlinkPacket { length, kind, flags, sequence, pid, payload })
    }

    pub fn get_length(&self) -> (r: u32)
        ensures
            r == self.length,
    {
        self.length
    }

    pub fn get_kind(&self) -> (r: u16)
        ensures
            r == self.kind,
    {
        self.kind
    }

    pub fn get_flags(&self) -> (r: u16)
        ensures
            r == self.flags,
    {
        self.flags
    }

    pub fn get_sequence(&self) -> (r: u32)
        ensures
            r == self.sequence,
    {
        self.sequence
    }

    pub fn get_pid(&self) -> (r: u32)
        ensures
            r == self.pid,
    {
        self.pid
    }

    /// The bytes after the fixed header.
    pub fn payload(&self) -> (r: &Vec<u8>)
        ensures
            r@ == self.payload@,
    {
        &self.payload
    }

    /// Serializes the message back to wire bytes.
    pub fn to_bytes(&self) -> (r: Vec<u8>)
        ensures
            r@ == spec_encode(*self),
    {
        let mut out: Vec<u8> = Vec::new();
        push_le32(&mut out, self.length);
        push_le16(&mut out, self.kind);
        push_le16(&mut out, self.flags);
        push_le32(&mut out, self.sequence);
        push_le32(&mut out, self.pid);
        out.extend_from_slice(self.payload.as_slice());
        assert(out@ =~= spec_encode(*self));
        out
    }
}

/// Decoding a message and re-encoding it gives back the original bytes.
pub proof fn lemma_decode_encode_roundtrip(p: NetlinkPacket, s: Seq<u8>)
    requires
        s.len() >= NLMSG_HDR_LEN,
        is_decode_of(p, s),
    ensures
        spec_encode(p) == s,
{
    lemma_le32_roundtrip(s, 0);
    lemma_le16_roundtrip(s, 4);
    lemma_le16_roundtrip(s, 6);
    lemma_le32_roundtrip(s, 8);
    lemma_le32_roundtrip(s, 12);
    assert(spec_encode(p) =~= s);
}

/// Declared length of the message at the front of `p`.
pub open spec fn spec_msg_len(p: Seq<u8>) -> int {
    spec_le32(p, 0)
}

/// Kind of the message at the front of `p`.
pub open spec fn spec_msg_kind(p: Seq<u8>) -> int {
    spec_le16(p, 4)
}

/// A complete message stands at the front of `p`: the header is there,
/// its declared length covers at least the header, and the buffer holds
/// the whole aligned extent.
pub open spec fn spec_framed(p: Seq<u8>) -> bool {
    &&& p.len() >= NLMSG_HDR_LEN
    &&& spec_msg_len(p) >= NLMSG_HDR_LEN
    &&& spec_align(spec_msg_len(p)) <= p.len()
}

/// The header is there but declares a length smaller than itself:
/// corrupt framing, on which parsing must end rather than loop.
pub open spec fn spec_corrupt(p: Seq<u8>) -> bool {
    p.len() >= NLMSG_HDR_LEN && spec_msg_len(p) < NLMSG_HDR_LEN
}

/// More transport bytes must arrive before a message can be framed.
pub open spec fn spec_starved(p: Seq<u8>) -> bool {
    p.len() < NLMSG_HDR_LEN || (spec_msg_len(p) >= NLMSG_HDR_LEN && p.len() < spec_align(
        spec_msg_len(p),
    ))
}

/// One complete message as carved from the stream: the declared length
/// matches the byte count and covers the header.
pub open spec fn wf_message(s: Seq<u8>) -> bool {
    s.len() >= NLMSG_HDR_LEN && spec_le32(s, 0) == s.len()
}

/// An owned copy of one complete message, so that it stays valid across
/// further reader calls.
pub struct NetlinkSlot {
    data: Vec<u8>,
}

impl View for NetlinkSlot {
    type V = Seq<u8>;

    closed spec fn view(&self) -> Seq<u8> {
        self.data@
    }
}

impl NetlinkSlot {
    /// Copies the given message bytes into an owned slot.
    pub fn new(data: &[u8]) -> (r: Self)
        ensures
            r@ == data@,
    {
        let mut owned: Vec<u8> = Vec::new();
        owned.extend_from_slice(data);
        NetlinkSlot { data: owned }
    }

    /// Number of bytes held.
    pub fn len(&self) -> (r: usize)
        ensures
            r == self@.len(),
    {
        self.data.len()
    }

    /// The raw message bytes.
    pub fn bytes(&self) -> (r: &Vec<u8>)
        ensures
            r@ == self@,
    {
        &self.data
    }

    /// Decodes the held message.
    pub fn get_packet(&self) -> (r: NetlinkPacket)
        requires
            self@.len() >= NLMSG_HDR_LEN,
        ensures
            is_decode_of(r, self@),
    {
        let r = NetlinkPacket::new(self.data.as_slice());
        r.unwrap()
    }
}

/// All complete messages at the front of `p`, each as its raw bytes,
/// carved one aligned extent after the other until the bytes run out or
/// the framing turns corrupt. Kind-blind: terminal kinds are the
/// streaming reader's concern.
pub open spec fn spec_frames(p: Seq<u8>) -> Seq<Seq<u8>>
    decreases p.len(),
{
    if !spec_framed(p) {
        Seq::empty()
    } else {
        seq![p.subrange(0, spec_msg_len(p))] + spec_frames(
            p.skip(spec_align(spec_msg_len(p))),
        )
    }
}

/// Walks the complete messages inside one in-memory byte buffer.
pub struct NetlinkIterable<'a> {
    buf: &'a [u8],
    pos: usize,
}

impl<'a> NetlinkIterable<'a> {
    /// The bytes not yet walked.
    pub closed spec fn remaining(&self) -> Seq<u8> {
        self.buf@.skip(self.pos as int)
    }

    pub closed spec fn wf(&self) -> bool {
        self.pos <= self.buf@.len()
    }

    pub fn new(buf: &'a [u8]) -> (r: Self)
        ensures
            r.wf(),
            r.remaining() == buf@,
    {
        let r = NetlinkIterable { buf, pos: 0 };
        assert(r.remaining() =~= buf@);
        r
    }

    /// Decodes the next complete message and steps over its aligned
    /// extent; `None` once no complete message is left.
    pub fn next(&mut self) -> (r: Option<NetlinkPacket>)
        requires
            old(self).wf(),
        ensures
            final(self).wf(),
            r is Some <==> spec_framed(old(self).remaining()),
            r matches Some(pkt) ==> {
                let p = old(self).remaining();
                let l = spec_msg_len(p);
                &&& is_decode_of(pkt, p.subrange(0, l))
                &&& final(self).remaining() == p.skip(spec_align(l))
                &&& final(self).remaining().len() + NLMSG_HDR_LEN <= p.len()
            },
            r is None ==> final(self).remaining() == old(self).remaining(),
    {
        let ghost p = self.remaining();
        let avail = self.buf.len() - self.pos;
        if avail < NLMSG_HDR_LEN {
            return None;
        }
        assert(forall|i: int| 0 <= i < p.len() ==> p[i] == self.buf@[self.pos + i]);
        let length32 = read_le32(self.buf, self.pos);
        assert(length32 == spec_msg_len(p));
        let length = length32 as usize;
        if length < NLMSG_HDR_LEN {
            return None;
        }
        if avail < length {
            proof {
                lemma_align_properties(length as int);
            }
            return None;
        }
        if avail - length < pad_of(length) {
            proof {
                lemma_align_properties(length as int);
            }
            return None;
        }
        let alen = length + pad_of(length);
        assert(alen == spec_align(length as int));
        let frame = &self.buf[self.pos..self.pos + length];
        assert(frame@ =~= p.subrange(0, length as int));
        let pkt = NetlinkPacket::new(frame);
        self.pos = self.pos + alen;
        assert(self.remaining() =~= p.skip(spec_align(spec_msg_len(p))));
        Some(pkt.unwrap())
    }
}

/// The messages the streaming reader yields from pending bytes `p`
/// before it must wait for more input, each as its raw bytes. Unlike
/// `spec_frames` this honours the terminal kinds: an error or overrun
/// message is consumed as terminal and yields nothing, a done message
/// is yielded and ends the stream.
pub open spec fn spec_messages(p: Seq<u8>) -> Seq<Seq<u8>>
    decreases p.len(),
{
    if !spec_framed(p) {
        Seq::empty()
    } else {
        let l = spec_msg_len(p);
        let k = spec_msg_kind(p);
        if k == NLMSG_ERROR || k == NLMSG_OVERRUN {
            Seq::empty()
        } else if k == NLMSG_DONE {
            seq![p.subrange(0, l)]
        } else {
            seq![p.subrange(0, l)] + spec_messages(p.skip(spec_align(l)))
        }
    }
}

/// Whether a reader that has drained `p` is still waiting for input,
/// rather than stopped on a terminal or corrupt message.
pub open spec fn spec_live(p: Seq<u8>) -> bool
    decreases p.len(),
{
    if p.len() < NLMSG_HDR_LEN {
        true
    } else if spec_msg_len(p) < NLMSG_HDR_LEN {
        false
    } else if !spec_framed(p) {
        true
    } else {
        let k = spec_msg_kind(p);
        if k == NLMSG_ERROR || k == NLMSG_OVERRUN || k == NLMSG_DONE {
            false
        } else {
            spec_live(p.skip(spec_align(spec_msg_len(p))))
        }
    }
}

/// The bytes a still-live reader keeps after draining `p`: the suffix
/// in which no further complete message could be framed.
pub open spec fn spec_rest(p: Seq<u8>) -> Seq<u8>
    decreases p.len(),
{
    if !spec_framed(p) {
        p
    } else {
        let k = spec_msg_kind(p);
        if k == NLMSG_ERROR || k == NLMSG_OVERRUN || k == NLMSG_DONE {
            Seq::empty()
        } else {
            spec_rest(p.skip(spec_align(spec_msg_len(p))))
        }
    }
}

/// Chunking does not matter: a reader that drains `p`, receives `q` and
/// drains again yields the same messages as one handed `p + q` whole.
/// Feeding byte by byte and feeding all at once therefore agree.
pub proof fn lemma_chunk_independence(p: Seq<u8>, q: Seq<u8>)
    ensures
        spec_live(p) ==> spec_messages(p + q) == spec_messages(p) + spec_messages(
            spec_rest(p) + q,
        ),
        !spec_live(p) ==> spec_messages(p + q) == spec_messages(p),
    decreases p.len(),
{
    if p.len() < NLMSG_HDR_LEN {
        assert(spec_messages(p) =~= Seq::<Seq<u8>>::empty());
        assert(spec_rest(p) == p);
        assert(spec_rest(p) + q =~= p + q);
        assert(spec_messages(p) + spec_messages(p + q) =~= spec_messages(p + q));
    } else {
        assert(forall|i: int| 0 <= i < p.len() ==> (p + q)[i] == p[i]);
        assert(spec_msg_len(p + q) == spec_msg_len(p));
        assert(spec_msg_kind(p + q) == spec_msg_kind(p));
        let l = spec_msg_len(p);
        let k = spec_msg_kind(p);
        if l < NLMSG_HDR_LEN {
            assert(!spec_framed(p) && !spec_framed(p + q));
            assert(spec_messages(p + q) =~= spec_messages(p));
        } else if !spec_framed(p) {
            assert(p.len() < spec_align(l));
            assert(spec_rest(p) == p);
            assert(spec_rest(p) + q =~= p + q);
            assert(spec_messages(p) =~= Seq::<Seq<u8>>::empty());
            assert(spec_messages(p) + spec_messages(p + q) =~= spec_messages(p + q));
        } else {
            lemma_align_properties(l);
            let a = spec_align(l);
            assert(spec_framed(p + q));
            assert((p + q).subrange(0, l) =~= p.subrange(0, l));
            assert((p + q).skip(a) =~= p.skip(a) + q);
            if k == NLMSG_ERROR || k == NLMSG_OVERRUN {
                assert(spec_messages(p + q) =~= spec_messages(p));
            } else if k == NLMSG_DONE {
                assert(spec_messages(p + q) =~= spec_messages(p));
            } else {
                lemma_chunk_independence(p.skip(a), q);
                assert(spec_rest(p) == spec_rest(p.skip(a)));
                assert(spec_live(p) == spec_live(p.skip(a)));
                if spec_live(p) {
                    assert(spec_messages(p + q) =~= seq![p.subrange(0, l)] + spec_messages(
                        p.skip(a) + q,
                    ));
                    assert(spec_messages(p) + spec_messages(spec_rest(p) + q) =~= seq![
                        p.subrange(0, l),
                    ] + (spec_messages(p.skip(a)) + spec_messages(spec_rest(p.skip(a)) + q)));
                    assert(spec_messages(p + q) =~= spec_messages(p) + spec_messages(
                        spec_rest(p) + q,
                    ));
                } else {
                    assert(spec_messages(p + q) =~= seq![p.subrange(0, l)] + spec_messages(
                        p.skip(a) + q,
                    ));
                    assert(spec_messages(p) =~= seq![p.subrange(0, l)] + spec_messages(p.skip(a)));
                    assert(spec_messages(p + q) =~= spec_messages(p));
                }
            }
        }
    }
}

/// What is left after a full drain holds no complete message: the
/// drain only stops short of one.
pub proof fn lemma_rest_unframed(p: Seq<u8>)
    ensures
        spec_live(p) ==> !spec_framed(spec_rest(p)),
    decreases p.len(),
{
    if spec_framed(p) {
        let k = spec_msg_kind(p);
        if k != NLMSG_ERROR && k != NLMSG_OVERRUN && k != NLMSG_DONE {
            lemma_align_properties(spec_msg_len(p));
            lemma_rest_unframed(p.skip(spec_align(spec_msg_len(p))));
        }
    }
}

/// The messages a reader yields when the chunks arrive one at a time,
/// the reader drained to starvation after each arrival: `pending` is
/// the residue carried in, each step appends one chunk and drains.
pub open spec fn spec_messages_chunked(pending: Seq<u8>, chunks: Seq<Seq<u8>>) -> Seq<Seq<u8>>
    decreases chunks.len(),
{
    if chunks.len() == 0 {
        Seq::empty()
    } else {
        let p = pending + chunks.first();
        spec_messages(p) + if spec_live(p) {
            spec_messages_chunked(spec_rest(p), chunks.drop_first())
        } else {
            Seq::empty()
        }
    }
}

/// Chunk-size independence in full: however the byte stream is cut
/// into chunks - one byte at a time or all at once - draining after
/// each chunk yields exactly the messages of the whole stream.
pub proof fn lemma_chunking_irrelevant(pending: Seq<u8>, chunks: Seq<Seq<u8>>)
    requires
        !spec_framed(pending),
    ensures
        spec_messages_chunked(pending, chunks) == spec_messages(pending + chunks.flatten()),
    decreases chunks.len(),
{
    if chunks.len() == 0 {
        assert(pending + chunks.flatten() =~= pending);
    } else {
        let p = pending + chunks.first();
        let q = chunks.drop_first().flatten();
        assert(pending + chunks.flatten() =~= p + q);
        lemma_chunk_independence(p, q);
        if spec_live(p) {
            lemma_rest_unframed(p);
            lemma_chunking_irrelevant(spec_rest(p), chunks.drop_first());
            assert(spec_messages_chunked(pending, chunks) =~= spec_messages(p) + spec_messages(
                spec_rest(p) + q,
            ));
        } else {
            assert(spec_messages_chunked(pending, chunks) =~= spec_messages(p));
        }
    }
}

/// Collects every complete message of an in-memory buffer, in stream
/// order: the eager form of the walk, one decoded message per
/// spec-level frame.
pub fn parse_frames(buf: &[u8]) -> (r: Vec<NetlinkPacket>)
    ensures
        r@.len() == spec_frames(buf@).len(),
        forall|i: int| 0 <= i < r@.len() ==> is_decode_of(r@[i], spec_frames(buf@)[i]),
{
    let mut it = NetlinkIterable::new(buf);
    let mut out: Vec<NetlinkPacket> = Vec::new();
    loop
        invariant
            it.wf(),
            out@.len() <= spec_frames(buf@).len(),
            spec_frames(it.remaining()) == spec_frames(buf@).skip(out@.len() as int),
            forall|i: int| 0 <= i < out@.len() ==> is_decode_of(out@[i], spec_frames(buf@)[i]),
        ensures
            out@.len() == spec_frames(buf@).len(),
            forall|i: int| 0 <= i < out@.len() ==> is_decode_of(out@[i], spec_frames(buf@)[i]),
        decreases it.remaining().len(),
    {
        let ghost rem = it.remaining();
        match it.next() {
            Some(pkt) => {
                proof {
                    assert(spec_frames(rem)[0] == rem.subrange(0, spec_msg_len(rem)));
                    assert(spec_frames(it.remaining()) =~= spec_frames(rem).skip(1));
                    assert(spec_frames(buf@).skip(out@.len() as int + 1) =~= spec_frames(
                        rem,
                    ).skip(1));
                }
                out.push(pkt);
            },
            None => {
                assert(spec_frames(rem) =~= Seq::<Seq<u8>>::empty());
                break;
            },
        }
    }
    out
}

/// Bytes of padding that alignment adds after `len`.
pub(crate) fn pad_of(len: usize) -> (r: usize)
    ensures
        r == spec_align(len as int) - len,
        r < 4,
{
    proof {
        lemma_align_split(len as int);
    }
    let rem: usize = len % 4;
    if rem == 0 {
        0
    } else {
        4 - rem
    }
}

enum NetlinkReaderState {
    Done,
    NeedMore,
    Error,
    Parsing,
}

/// What one reader step produced.
pub enum ReadOutcome {
    /// A complete message, copied out of the buffer.
    Msg(NetlinkSlot),
    /// Nothing can be framed until the transport hands more bytes.
    NeedMore,
    /// The stream has ended: a terminal state was reached earlier, an
    /// error or done message was consumed now, or the framing is corrupt.
    Finished,
    /// The kernel dropped messages; the stream is beyond recovery.
    Overrun,
}

/// Reassembles messages from a chunked byte stream. The transport
/// stays outside: its reads are handed in through `feed`, its closure
/// through `close`, its failure through `fail`; `try_read_message`
/// carves the next complete message out of what has arrived.
pub struct NetlinkReader {
    buf: Vec<u8>,
    read_at: usize,
    state: NetlinkReaderState,
}

impl NetlinkReader {
    /// The fed bytes not yet consumed.
    pub closed spec fn pending(&self) -> Seq<u8> {
        self.buf@.skip(self.read_at as int)
    }

    /// Terminal: the reader answers "no more messages" forever after.
    pub closed spec fn is_terminal(&self) -> bool {
        self.state is Done || self.state is Error
    }

    pub closed spec fn wf(&self) -> bool {
        self.read_at <= self.buf@.len()
    }

    /// A fresh reader: nothing pending, waiting for input.
    pub fn new() -> (r: Self)
        ensures
            r.wf(),
            !r.is_terminal(),
            r.pending() == Seq::<u8>::empty(),
    {
        let r = NetlinkReader { buf: Vec::new(), read_at: 0, state: NetlinkReaderState::NeedMore };
        assert(r.pending() =~= Seq::<u8>::empty());
        r
    }

    /// Appends one transport read to the pending bytes. The consumed
    /// prefix is dropped first, so memory stays bounded by the
    /// unconsumed tail plus one read chunk.
    pub fn feed(&mut self, chunk: &[u8])
        requires
            old(self).wf(),
        ensures
            final(self).wf(),
            final(self).pending() == old(self).pending() + chunk@,
            final(self).is_terminal() == old(self).is_terminal(),
    {
        let ghost p = self.pending();
        if self.read_at > 0 {
            let mut rest: Vec<u8> = Vec::new();
            rest.extend_from_slice(&self.buf.as_slice()[self.read_at..self.buf.len()]);
            assert(rest@ =~= p);
            self.buf = rest;
            self.read_at = 0;
        }
        self.buf.extend_from_slice(chunk);
        assert(self.pending() =~= p + chunk@);
    }

    /// The transport signalled closure: no more bytes will ever come.
    pub fn close(&mut self)
        requires
            old(self).wf(),
        ensures
            final(self).wf(),
            final(self).is_terminal(),
    {
        self.state = NetlinkReaderState::Done;
    }

    /// The transport failed: the stream is over.
    pub fn fail(&mut self)
        requires
            old(self).wf(),
        ensures
            final(self).wf(),
            final(self).is_terminal(),
    {
        self.state = NetlinkReaderState::Error;
    }

    /// Carves the next message out of the pending bytes and applies the
    /// kind-driven state transitions: an error message is consumed as
    /// terminal, an overrun is fatal, a done message is yielded and
    /// then the stream ends, everything else is yielded.
    pub fn try_read_message(&mut self) -> (r: ReadOutcome)
        requires
            old(self).wf(),
        ensures
            final(self).wf(),
            old(self).is_terminal() ==> r is Finished && final(self).is_terminal()
                && final(self).pending() == old(self).pending(),
            !old(self).is_terminal() && spec_starved(old(self).pending()) ==> r is NeedMore
                && !final(self).is_terminal() && final(self).pending() == old(self).pending(),
            !old(self).is_terminal() && spec_corrupt(old(self).pending()) ==> r is Finished
                && final(self).is_terminal(),
            !old(self).is_terminal() && spec_framed(old(self).pending()) ==> {
                let p = old(self).pending();
                let l = spec_msg_len(p);
                let k = spec_msg_kind(p);
                &&& k == NLMSG_ERROR ==> r is Finished && final(self).is_terminal()
                &&& k == NLMSG_OVERRUN ==> r is Overrun && final(self).is_terminal()
                &&& k != NLMSG_ERROR && k != NLMSG_OVERRUN ==> {
                    &&& r matches ReadOutcome::Msg(slot)
                    &&& slot@ == p.subrange(0, l)
                    &&& wf_message(slot@)
                    &&& final(self).pending() == p.skip(spec_align(l))
                    &&& final(self).is_terminal() <==> k == NLMSG_DONE
                }
            },
    {
        let ghost p = self.pending();
        match self.state {
            NetlinkReaderState::Done => {
                return ReadOutcome::Finished;
            },
            NetlinkReaderState::Error => {
                return ReadOutcome::Finished;
            },
            _ => {},
        }
        let avail = self.buf.len() - self.read_at;
        assert(avail == p.len());
        if avail < NLMSG_HDR_LEN {
            self.state = NetlinkReaderState::NeedMore;
            return ReadOutcome::NeedMore;
        }
        assert(forall|i: int| 0 <= i < p.len() ==> p[i] == self.buf@[self.read_at + i]);
        let length32 = read_le32(self.buf.as_slice(), self.read_at);
        assert(length32 == spec_msg_len(p));
        let length = length32 as usize;
        if length < NLMSG_HDR_LEN {
            self.state = NetlinkReaderState::Done;
            return ReadOutcome::Finished;
        }
        proof {
            lemma_align_properties(length as int);
        }
        if avail < length {
            self.state = NetlinkReaderState::NeedMore;
            return ReadOutcome::NeedMore;
        }
        if avail - length < pad_of(length) {
            self.state = NetlinkReaderState::NeedMore;
            return ReadOutcome::NeedMore;
        }
        let alen = length + pad_of(length);
        assert(alen == spec_align(length as int));
        let kind = read_le16(self.buf.as_slice(), self.read_at + 4);
        assert(kind == spec_msg_kind(p));
        if kind == NLMSG_ERROR {
            self.state = NetlinkReaderState::Error;
            return ReadOutcome::Finished;
        }
        if kind == NLMSG_OVERRUN {
            self.state = NetlinkReaderState::Error;
            return ReadOutcome::Overrun;
        }
        let slot = NetlinkSlot::new(&self.buf.as_slice()[self.read_at..self.read_at + length]);
        assert(slot@ =~= p.subrange(0, length as int));
        if kind == NLMSG_DONE {
            self.state = NetlinkReaderState::Done;
        } else if kind == NLMSG_NOOP {
            // no transition: a noop leaves the reader as it was
        } else {
            self.state = NetlinkReaderState::Parsing;
        }
        self.read_at = self.read_at + alen;
        assert(self.pending() =~= p.skip(spec_align(length as int)));
        ReadOutcome::Msg(slot)
    }

    /// Adapts the reader into the slot iterator.
    pub fn into_iter(self) -> (r: NetlinkSlotIterator)
        requires
            self.wf(),
        ensures
            r.reader_wf(),
            r.reader_pending() == self.pending(),
            r.reader_terminal() == self.is_terminal(),
    {
        NetlinkSlotIterator { reader: self }
    }
}

/// Lazy sequence view of a reader: each step carves one message, and
/// anything else - starvation, a terminal kind, corrupt framing, an
/// overrun - ends the sequence.
pub struct NetlinkSlotIterator {
    reader: NetlinkReader,
}

impl NetlinkSlotIterator {
    pub closed spec fn reader_pending(&self) -> Seq<u8> {
        self.reader.pending()
    }

    pub closed spec fn reader_terminal(&self) -> bool {
        self.reader.is_terminal()
    }

    pub closed spec fn reader_wf(&self) -> bool {
        self.reader.wf()
    }

    /// The next message, or `None` once the reader has nothing whole.
    pub fn next(&mut self) -> (r: Option<NetlinkSlot>)
        requires
            old(self).reader_wf(),
        ensures
            final(self).reader_wf(),
            ({
                let p = old(self).reader_pending();
                let l = spec_msg_len(p);
                let k = spec_msg_kind(p);
                !old(self).reader_terminal() && spec_framed(p) && k != NLMSG_ERROR && k
                    != NLMSG_OVERRUN ==> {
                    &&& r matches Some(slot)
                    &&& slot@ == p.subrange(0, l)
                    &&& final(self).reader_pending() == p.skip(spec_align(l))
                }
            }),
            ({
                let p = old(self).reader_pending();
                let k = spec_msg_kind(p);
                old(self).reader_terminal() || !spec_framed(p) || k == NLMSG_ERROR || k
                    == NLMSG_OVERRUN ==> r is None
            }),
    {
        match self.reader.try_read_message() {
            ReadOutcome::Msg(slot) => Some(slot),
            _ => None,
        }
    }
}

} // verus!
