//! Route-family decoding: the interface-info sub-header codec, the
//! attribute walker over tag-length-value records, and the link-dump
//! request encoder.

use vstd::prelude::*;
use crate::netlink::spec_align;
use crate::netlink::spec_le16;
use crate::netlink::spec_le32;
use crate::netlink::lemma_align_properties;
use crate::netlink::spec_header_bytes;
use crate::netlink::wf_message;
use crate::netlink::NetlinkPacket;
use crate::netlink::NLM_F_REQUEST;
use crate::netlink::NLM_F_DUMP;

verus! {

/* Route message kinds. */
pub const RTM_NEWLINK: u16 = 16;
pub const RTM_DELLINK: u16 = 17;
pub const RTM_GETLINK: u16 = 18;
pub const RTM_SETLINK: u16 = 19;
pub const RTM_NEWADDR: u16 = 20;

/* Link attribute kinds. */
pub const IFLA_UNSPEC: u16 = 0;
pub const IFLA_ADDRESS: u16 = 1;
pub const IFLA_BROADCAST: u16 = 2;
pub const IFLA_IFNAME: u16 = 3;
pub const IFLA_MTU: u16 = 4;
pub const IFLA_LINK: u16 = 5;
pub const IFLA_QDISC: u16 = 6;
pub const IFLA_STATS: u16 = 7;
pub const IFLA_COST: u16 = 8;
pub const IFLA_PRIORITY: u16 = 9;
pub const IFLA_MASTER: u16 = 10;
pub const IFLA_WIRELESS: u16 = 11;
pub const IFLA_PROTINFO: u16 = 12;
pub const IFLA_TXQLEN: u16 = 13;
pub const IFLA_MAP: u16 = 14;
pub const IFLA_WEIGHT: u16 = 15;
pub const IFLA_OPERSTATE: u16 = 16;
pub const IFLA_LINKMODE: u16 = 17;
pub const IFLA_LINKINFO: u16 = 18;
pub const IFLA_NET_NS_PID: u16 = 19;
pub const IFLA_IFALIAS: u16 = 20;
pub const IFLA_NUM_VF: u16 = 21;
pub const IFLA_VFINFO_LIST: u16 = 22;
pub const IFLA_STATS64: u16 = 23;
pub const IFLA_VF_PORTS: u16 = 24;
pub const IFLA_PORT_SELF: u16 = 25;
pub const IFLA_AF_SPEC: u16 = 26;

/* Nested attribute kinds under IFLA_LINKINFO. */
pub const IFLA_INFO_UNSPEC: u16 = 0;
pub const IFLA_INFO_KIND: u16 = 1;
pub const IFLA_INFO_DATA: u16 = 2;
pub const IFLA_INFO_XSTATS: u16 = 3;

/// Byte length of the attribute header (length and kind).
pub const RTA_HDR_LEN: usize = 4;

/// Byte length of the interface-info sub-header.
pub const IFINFO_LEN: usize = 16;

/// A decoded attribute record: its declared length, its kind, and a
/// copied-out value of `rta_len - 4` bytes.
pub struct RtAttrPacket {
    pub rta_len: u16,
    pub rta_type: u16,
    pub payload: Vec<u8>,
}

impl RtAttrPacket {
    pub fn get_rta_len(&self) -> (r: u16)
        ensures
            r == self.rta_len,
    {
        self.rta_len
    }

    pub fn get_rta_type(&self) -> (r: u16)
        ensures
            r == self.rta_type,
    {
        self.rta_type
    }

    /// The value bytes of the record.
    pub fn payload(&self) -> (r: &Vec<u8>)
        ensures
            r@ == self.payload@,
    {
        &self.payload
    }
}

/// A complete attribute record stands at the front of `p`: its 4-byte
/// header is there, and the declared length covers the header without
/// running past the remaining bytes.
pub open spec fn spec_attr_framed(p: Seq<u8>) -> bool {
    &&& p.len() >= RTA_HDR_LEN
    &&& spec_le16(p, 0) >= RTA_HDR_LEN
    &&& spec_le16(p, 0) <= p.len()
}

/// How far the walk steps over the record at the front of `p`: its
/// aligned length, clipped to the bytes that are actually there (the
/// final record's padding may be absent).
pub open spec fn spec_attr_advance(p: Seq<u8>) -> int {
    if spec_align(spec_le16(p, 0)) <= p.len() {
        spec_align(spec_le16(p, 0))
    } else {
        p.len() as int
    }
}

/// The attribute records in region `p`, each as its kind and value
/// bytes, in on-wire order. A record whose declared length is shorter
/// than its header or runs past the region ends the walk: a truncated
/// or corrupt tail decodes as nothing more, not as an error.
pub open spec fn spec_attrs(p: Seq<u8>) -> Seq<(int, Seq<u8>)>
    decreases p.len(),
{
    if !spec_attr_framed(p) {
        Seq::empty()
    } else {
        seq![(spec_le16(p, 2), p.subrange(4, spec_le16(p, 0)))] + spec_attrs(
            p.skip(spec_attr_advance(p)),
        )
    }
}

/// The walk is finite: every record consumes at least its own header,
/// so a region of `n` bytes holds at most `n / 4` records.
pub proof fn lemma_attr_walk_bounded(p: Seq<u8>)
    ensures
        spec_attrs(p).len() * 4 <= p.len(),
    decreases p.len(),
{
    if spec_attr_framed(p) {
        lemma_align_properties(spec_le16(p, 0));
        lemma_attr_walk_bounded(p.skip(spec_attr_advance(p)));
    }
}

/// Walks the attribute records of one byte region, zero-copy over the
/// region, handing out owned record copies. Nested attribute blocks
/// (the value under `IFLA_LINKINFO`, say) are walked by constructing a
/// new walker over the value bytes.
pub struct RtAttrIterator<'a> {
    buf: &'a [u8],
    pos: usize,
}

impl<'a> RtAttrIterator<'a> {
    /// The bytes not yet walked.
    pub closed spec fn remaining(&self) -> Seq<u8> {
        self.buf@.skip(self.pos as int)
    }

    pub closed spec fn wf(&self) -> bool {
        self.pos <= self.buf@.len()
    }

    pub fn new(buf: &'a [u8]) -> (r: Self)
        ensures
            r.wf(),
            r.remaining() == buf@,
    {
        let r = RtAttrIterator { buf, pos: 0 };
        assert(r.remaining() =~= buf@);
        r
    }

    /// Decodes the next record and steps over its aligned extent;
    /// `None` ends the walk once no complete record is left. Each step
    /// consumes at least four bytes, so the walk terminates.
    pub fn next(&mut self) -> (r: Option<RtAttrPacket>)
        requires
            old(self).wf(),
        ensures
            final(self).wf(),
            r is Some <==> spec_attr_framed(old(self).remaining()),
            r matches Some(a) ==> {
                let p = old(self).remaining();
                let l = spec_le16(p, 0);
                &&& a.rta_len == l
                &&& a.rta_type == spec_le16(p, 2)
                &&& a.payload@ == p.subrange(4, l)
                &&& final(self).remaining() == p.skip(spec_attr_advance(p))
                &&& final(self).remaining().len() + 4 <= p.len()
            },
            r is None ==> final(self).remaining() == old(self).remaining(),
    {
        let ghost p = self.remaining();
        let avail = self.buf.len() - self.pos;
        if avail < RTA_HDR_LEN {
            return None;
        }
        assert(forall|i: int| 0 <= i < p.len() ==> p[i] == self.buf@[self.pos + i]);
        let rta_len16 = crate::netlink::read_le16(self.buf, self.pos);
        assert(rta_len16 == spec_le16(p, 0));
        let rta_len = rta_len16 as usize;
        if rta_len < RTA_HDR_LEN || rta_len > avail {
            return None;
        }
        let rta_type = crate::netlink::read_le16(self.buf, self.pos + 2);
        assert(rta_type == spec_le16(p, 2));
        let mut payload: Vec<u8> = Vec::new();
        payload.extend_from_slice(&self.buf[self.pos + RTA_HDR_LEN..self.pos + rta_len]);
        assert(payload@ =~= p.subrange(4, spec_le16(p, 0)));
        proof {
            lemma_align_properties(rta_len as int);
        }
        let pad = crate::netlink::pad_of(rta_len);
        let step = if avail - rta_len < pad {
            avail
        } else {
            rta_len + pad
        };
        assert(step == spec_attr_advance(p));
        self.pos = self.pos + step;
        assert(self.remaining() =~= p.skip(spec_attr_advance(p)));
        Some(RtAttrPacket { rta_len: rta_len16, rta_type, payload })
    }
}

/// Collects every attribute record of a region, in on-wire order: the
/// eager form of the walk, one owned record per spec-level record.
pub fn parse_attrs(buf: &[u8]) -> (r: Vec<RtAttrPacket>)
    ensures
        r@.len() == spec_attrs(buf@).len(),
        forall|i: int|
            0 <= i < r@.len() ==> {
                &&& r@[i].rta_type == spec_attrs(buf@)[i].0
                &&& r@[i].payload@ == spec_attrs(buf@)[i].1
                &&& r@[i].rta_len == spec_attrs(buf@)[i].1.len() + 4
            },
{
    let mut it = RtAttrIterator::new(buf);
    let mut out: Vec<RtAttrPacket> = Vec::new();
    loop
        invariant
            it.wf(),
            out@.len() <= spec_attrs(buf@).len(),
            spec_attrs(it.remaining()) == spec_attrs(buf@).skip(out@.len() as int),
            forall|i: int|
                0 <= i < out@.len() ==> {
                    &&& out@[i].rta_type == spec_attrs(buf@)[i].0
                    &&& out@[i].payload@ == spec_attrs(buf@)[i].1
                    &&& out@[i].rta_len == spec_attrs(buf@)[i].1.len() + 4
                },
        ensures
            out@.len() == spec_attrs(buf@).len(),
            forall|i: int|
                0 <= i < out@.len() ==> {
                    &&& out@[i].rta_type == spec_attrs(buf@)[i].0
                    &&& out@[i].payload@ == spec_attrs(buf@)[i].1
                    &&& out@[i].rta_len == spec_attrs(buf@)[i].1.len() + 4
                },
        decreases it.remaining().len(),
    {
        let ghost rem = it.remaining();
        match it.next() {
            Some(a) => {
                proof {
                    assert(spec_attrs(rem)[0] == (spec_le16(rem, 2), rem.subrange(
                        4,
                        spec_le16(rem, 0),
                    )));
                    assert(spec_attrs(it.remaining()) =~= spec_attrs(rem).skip(1));
                    assert(spec_attrs(buf@).skip(out@.len() as int + 1) =~= spec_attrs(
                        rem,
                    ).skip(1));
                }
                out.push(a);
            },
            None => {
                assert(spec_attrs(rem) =~= Seq::<(int, Seq<u8>)>::empty());
                break;
            },
        }
    }
    out
}

/// The decoded interface-info sub-header that link messages carry
/// ahead of their attributes, with a copied-out attribute region.
pub struct IfInfoPacket {
    pub family: u8,
    pub device_type: u16,
    pub index: i32,
    pub flags: u32,
    pub change_mask: u32,
    pub payload: Vec<u8>,
}

/// `p` holds exactly what the sub-header bytes `s` encode; the byte at
/// offset 1 is padding and carries nothing.
pub open spec fn is_ifinfo_decode_of(p: IfInfoPacket, s: Seq<u8>) -> bool {
    &&& p.family == s[0]
    &&& p.device_type == spec_le16(s, 2)
    &&& p.index == spec_le32(s, 4) as u32 as i32
    &&& p.flags == spec_le32(s, 8)
    &&& p.change_mask == spec_le32(s, 12)
    &&& p.payload@ == s.skip(16)
}

impl IfInfoPacket {
    /// Decodes the sub-header from the front of a link message payload;
    /// `None` exactly when the 16 fixed bytes are not there.
    pub fn new(buf: &[u8]) -> (r: Option<IfInfoPacket>)
        ensures
            r is Some <==> buf@.len() >= IFINFO_LEN,
            r matches Some(p) ==> is_ifinfo_decode_of(p, buf@),
    {
        if buf.len() < IFINFO_LEN {
            return None;
        }
        let family = buf[0];
        let device_type = crate::netlink::read_le16(buf, 2);
        let index_raw = crate::netlink::read_le32(buf, 4);
        let index = index_raw as i32;
        let flags = crate::netlink::read_le32(buf, 8);
        let change_mask = crate::netlink::read_le32(buf, 12);
        let mut payload: Vec<u8> = Vec::new();
        payload.extend_from_slice(&buf[IFINFO_LEN..buf.len()]);
        assert(payload@ =~= buf@.skip(16));
        Some(IfInfoPacket { family, device_type, index, flags, change_mask, payload })
    }

    /// The attribute region after the sub-header.
    pub fn payload(&self) -> (r: &Vec<u8>)
        ensures
            r@ == self.payload@,
    {
        &self.payload
    }
}

/// The 32 bytes of a link-dump request: a header asking for a dumped
/// `RTM_GETLINK`, then an interface-info sub-header with the wildcard
/// family and every other field zero.
pub open spec fn spec_dump_links_request() -> Seq<u8> {
    spec_header_bytes(32, RTM_GETLINK, NLM_F_REQUEST | NLM_F_DUMP, 0, 0) + Seq::new(
        16,
        |i: int| 0u8,
    )
}

/// Encodes the link-dump request; sequence and pid are left zero for
/// the transport layer to fill in.
pub fn dump_links_request() -> (r: Vec<u8>)
    ensures
        r@ == spec_dump_links_request(),
        r@.len() == 32,
        wf_message(r@),
{
    let payload: Vec<u8> = vec![0u8; IFINFO_LEN];
    let pkt = NetlinkPacket {
        length: 32,
        kind: RTM_GETLINK,
        flags: NLM_F_REQUEST | NLM_F_DUMP,
        sequence: 0,
        pid: 0,
        payload,
    };
    let r = pkt.to_bytes();
    assert(r@ =~= spec_dump_links_request());
    assert(spec_le32(r@, 0) == 32);
    r
}

} // verus!
