//! Fixed-layout codec for the RoCEv2 Base Transport Header and for the
//! encapsulation metadata ("spray header") that the egress path inserts.
//!
//! All multi-byte wire fields are big-endian. The 24-bit fields are carried
//! as three raw bytes on the wire and are zero-extended into a `u32` on
//! read and truncated on write; [`BthHdr::wf`] captures the 24-bit bound.

use vstd::prelude::*;

verus! {

/// Length in bytes of an encoded Base Transport Header.
pub const BTH_LEN: usize = 12;

/// Length in bytes of an encoded spray header.
pub const SPRAY_LEN: usize = 8;

/// High byte of a big-endian `u16`.
pub open spec fn be16_hi(x: u16) -> u8 {
    (x >> 8) as u8
}

/// Low byte of a big-endian `u16`.
pub open spec fn be16_lo(x: u16) -> u8 {
    x as u8
}

/// A `u16` from its two big-endian bytes.
pub open spec fn be16(hi: u8, lo: u8) -> u16 {
    (((hi as u16) << 8) | (lo as u16)) as u16
}

/// Highest of the three big-endian bytes of a 24-bit value.
pub open spec fn u24_b0(x: u32) -> u8 {
    (x >> 16) as u8
}

/// Middle byte of a 24-bit value.
pub open spec fn u24_b1(x: u32) -> u8 {
    (x >> 8) as u8
}

/// Lowest byte of a 24-bit value.
pub open spec fn u24_b2(x: u32) -> u8 {
    x as u8
}

/// A 24-bit value zero-extended to `u32` from its three big-endian bytes.
pub open spec fn u24(b0: u8, b1: u8, b2: u8) -> u32 {
    (((b0 as u32) << 16) | ((b1 as u32) << 8) | (b2 as u32)) as u32
}

/// Composing a `u16` from its own two bytes gives the value back.
pub proof fn lemma_be16_roundtrip(x: u16)
    ensures
        be16(be16_hi(x), be16_lo(x)) == x,
{
    assert((((((x >> 8) as u8) as u16) << 8) | ((x as u8) as u16)) == x) by (bit_vector);
}

/// Reading the two bytes back out of a composed `u16` gives the bytes.
pub proof fn lemma_be16_split(hi: u8, lo: u8)
    ensures
        be16_hi(be16(hi, lo)) == hi,
        be16_lo(be16(hi, lo)) == lo,
{
    assert(((((hi as u16) << 8) | (lo as u16)) >> 8) as u8 == hi) by (bit_vector);
    assert(((((hi as u16) << 8) | (lo as u16)) as u8) == lo) by (bit_vector);
}

/// Composing a 24-bit value from its own three bytes gives the value back.
pub proof fn lemma_u24_roundtrip(x: u32)
    requires
        x < 0x1000000,
    ensures
        u24(u24_b0(x), u24_b1(x), u24_b2(x)) == x,
{
    assert(x < 0x1000000 ==> (((((x >> 16) as u8) as u32) << 16) | ((((x >> 8) as u8) as u32)
        << 8) | ((x as u8) as u32)) == x) by (bit_vector);
}

/// Three bytes always compose to a value below 2^24.
pub proof fn lemma_u24_bound(b0: u8, b1: u8, b2: u8)
    ensures
        u24(b0, b1, b2) < 0x1000000,
{
    assert((((b0 as u32) << 16) | ((b1 as u32) << 8) | (b2 as u32)) < 0x1000000)
        by (bit_vector);
}

/// RoCEv2 Base Transport Header, 12 bytes on the wire.
///
/// `dest_qpn` and `psn_seq` are 24-bit wire fields held zero-extended.
/// Bit 0 of `res` doubles as the final-packet marker on some paths.
#[derive(Clone, Copy, Debug, PartialEq, Eq)]
pub struct BthHdr {
    pub opcode: u8,
    pub sol_event: u8,
    pub part_key: u16,
    pub res: u8,
    pub dest_qpn: u32,
    pub ack: u8,
    pub psn_seq: u32,
}

/// The BTH opcode marking the first packet of a message.
pub const OPCODE_FIRST: u8 = 0;

/// The BTH opcode marking a middle packet of a message.
pub const OPCODE_MIDDLE: u8 = 1;

/// The BTH opcode marking the last packet of a message.
pub const OPCODE_LAST: u8 = 2;

impl BthHdr {
    /// The 24-bit wire fields fit in 24 bits.
    pub open spec fn wf(self) -> bool {
        self.dest_qpn < 0x1000000 && self.psn_seq < 0x1000000
    }
}

/// The 12 bytes that encode a Base Transport Header.
pub open spec fn spec_bth_bytes(h: BthHdr) -> Seq<u8> {
    seq![
        h.opcode,
        h.sol_event,
        be16_hi(h.part_key),
        be16_lo(h.part_key),
        h.res,
        u24_b0(h.dest_qpn),
        u24_b1(h.dest_qpn),
        u24_b2(h.dest_qpn),
        h.ack,
        u24_b0(h.psn_seq),
        u24_b1(h.psn_seq),
        u24_b2(h.psn_seq),
    ]
}

/// The header read from the first 12 bytes of `s`.
pub open spec fn spec_bth_parse(s: Seq<u8>) -> BthHdr
    recommends
        s.len() >= 12,
{
    BthHdr {
        opcode: s[0],
        sol_event: s[1],
        part_key: be16(s[2], s[3]),
        res: s[4],
        dest_qpn: u24(s[5], s[6], s[7]),
        ack: s[8],
        psn_seq: u24(s[9], s[10], s[11]),
    }
}

/// Read a Base Transport Header from the front of a byte region that is
/// already known to be long enough.
pub fn from_bytes(bytes: &[u8]) -> (h: BthHdr)
    requires
        bytes@.len() >= 12,
    ensures
        h == spec_bth_parse(bytes@),
        h.wf(),
{
    proof {
        lemma_u24_bound(bytes@[5], bytes@[6], bytes@[7]);
        lemma_u24_bound(bytes@[9], bytes@[10], bytes@[11]);
    }
    BthHdr {
        opcode: bytes[0],
        sol_event: bytes[1],
        part_key: ((bytes[2] as u16) << 8) | (bytes[3] as u16),
        res: bytes[4],
        dest_qpn: ((bytes[5] as u32) << 16) | ((bytes[6] as u32) << 8) | (bytes[7] as u32),
        ack: bytes[8],
        psn_seq: ((bytes[9] as u32) << 16) | ((bytes[10] as u32) << 8) | (bytes[11] as u32),
    }
}

/// Read a Base Transport Header at `offset`, rejecting a region too short
/// to hold one.
pub fn bth_decode(bytes: &[u8], offset: usize) -> (r: Option<BthHdr>)
    ensures
        offset + 12 <= bytes@.len() ==> r == Some(
            spec_bth_parse(bytes@.subrange(offset as int, offset + 12)),
        ),
        offset + 12 > bytes@.len() ==> r is None,
        r is Some ==> r->0.wf(),
{
    if bytes.len() >= 12 && offset <= bytes.len() - 12 {
        let ghost s = bytes@.subrange(offset as int, offset + 12);
        proof {
            lemma_u24_bound(s[5], s[6], s[7]);
            lemma_u24_bound(s[9], s[10], s[11]);
        }
        Some(
            BthHdr {
                opcode: bytes[offset],
                sol_event: bytes[offset + 1],
                part_key: ((bytes[offset + 2] as u16) << 8) | (bytes[offset + 3] as u16),
                res: bytes[offset + 4],
                dest_qpn: ((bytes[offset + 5] as u32) << 16) | ((bytes[offset + 6] as u32) << 8)
                    | (bytes[offset + 7] as u32),
                ack: bytes[offset + 8],
                psn_seq: ((bytes[offset + 9] as u32) << 16) | ((bytes[offset + 10] as u32) << 8)
                    | (bytes[offset + 11] as u32),
            },
        )
    } else {
        None
    }
}

impl BthHdr {
    /// Write this header over the 12 bytes at `offset`, leaving the rest of
    /// the region untouched.
    pub fn write(&self, buf: &mut Vec<u8>, offset: usize)
        requires
            offset + 12 <= old(buf).len(),
            self.wf(),
        ensures
            final(buf)@.len() == old(buf)@.len(),
            final(buf)@.subrange(offset as int, offset + 12) == spec_bth_bytes(*self),
            forall|i: int|
                0 <= i < old(buf)@.len() && !(offset <= i < offset + 12) ==> final(buf)@[i]
                    == old(buf)@[i],
    {
        buf[offset] = self.opcode;
        buf[offset + 1] = self.sol_event;
        buf[offset + 2] = (self.part_key >> 8) as u8;
        buf[offset + 3] = self.part_key as u8;
        buf[offset + 4] = self.res;
        buf[offset + 5] = (self.dest_qpn >> 16) as u8;
        buf[offset + 6] = (self.dest_qpn >> 8) as u8;
        buf[offset + 7] = self.dest_qpn as u8;
        buf[offset + 8] = self.ack;
        buf[offset + 9] = (self.psn_seq >> 16) as u8;
        buf[offset + 10] = (self.psn_seq >> 8) as u8;
        buf[offset + 11] = self.psn_seq as u8;
        proof {
            assert(buf@.subrange(offset as int, offset + 12) =~= spec_bth_bytes(*self));
        }
    }

    /// Encode this header as a fresh 12-byte vector.
    pub fn to_bytes(&self) -> (r: Vec<u8>)
        requires
            self.wf(),
        ensures
            r@ == spec_bth_bytes(*self),
    {
        let mut v: Vec<u8> = Vec::new();
        v.push(self.opcode);
        v.push(self.sol_event);
        v.push((self.part_key >> 8) as u8);
        v.push(self.part_key as u8);
        v.push(self.res);
        v.push((self.dest_qpn >> 16) as u8);
        v.push((self.dest_qpn >> 8) as u8);
        v.push(self.dest_qpn as u8);
        v.push(self.ack);
        v.push((self.psn_seq >> 16) as u8);
        v.push((self.psn_seq >> 8) as u8);
        v.push(self.psn_seq as u8);
        proof {
            assert(v@ =~= spec_bth_bytes(*self));
        }
        v
    }
}

/// Round-trip fidelity for the Base Transport Header: decoding an encoded
/// header gives back every field of the original, for every well-formed
/// header, including 24-bit fields at 0 and at 2^24 - 1.
pub proof fn lemma_bth_round_trip(h: BthHdr)
    requires
        h.wf(),
    ensures
        spec_bth_parse(spec_bth_bytes(h)) == h,
{
    lemma_be16_roundtrip(h.part_key);
    lemma_u24_roundtrip(h.dest_qpn);
    lemma_u24_roundtrip(h.psn_seq);
}

/// Encapsulation metadata carried on every sprayed packet: the UDP source
/// port as it was before path-hash rewriting, and the sequence number of
/// the first packet of the message in flight, 24 bits zero-extended.
#[derive(Clone, Copy, Debug, PartialEq, Eq)]
pub struct SprayHdr {
    pub orig_src_port: u16,
    pub first_seq: u32,
}

impl SprayHdr {
    /// The 24-bit wire field fits in 24 bits.
    pub open spec fn wf(self) -> bool {
        self.first_seq < 0x1000000
    }
}

/// The 8 bytes that encode a spray header; the last three are padding.
pub open spec fn spec_spray_bytes(h: SprayHdr) -> Seq<u8> {
    seq![
        be16_hi(h.orig_src_port),
        be16_lo(h.orig_src_port),
        u24_b0(h.first_seq),
        u24_b1(h.first_seq),
        u24_b2(h.first_seq),
        0u8,
        0u8,
        0u8,
    ]
}

/// The spray header read from the first 8 bytes of `s`; padding is ignored.
pub open spec fn spec_spray_parse(s: Seq<u8>) -> SprayHdr
    recommends
        s.len() >= 8,
{
    SprayHdr { orig_src_port: be16(s[0], s[1]), first_seq: u24(s[2], s[3], s[4]) }
}

/// Read a spray header at `offset`, rejecting a region too short to hold
/// one.
pub fn spray_decode(bytes: &[u8], offset: usize) -> (r: Option<SprayHdr>)
    ensures
        offset + 8 <= bytes@.len() ==> r == Some(
            spec_spray_parse(bytes@.subrange(offset as int, offset + 8)),
        ),
        offset + 8 > bytes@.len() ==> r is None,
        r is Some ==> r->0.wf(),
{
    if bytes.len() >= 8 && offset <= bytes.len() - 8 {
        let ghost s = bytes@.subrange(offset as int, offset + 8);
        proof {
            lemma_u24_bound(s[2], s[3], s[4]);
        }
        Some(
            SprayHdr {
                orig_src_port: ((bytes[offset] as u16) << 8) | (bytes[offset + 1] as u16),
                first_seq: ((bytes[offset + 2] as u32) << 16) | ((bytes[offset + 3] as u32) << 8)
                    | (bytes[offset + 4] as u32),
            },
        )
    } else {
        None
    }
}

impl SprayHdr {
    /// Write this header over the 8 bytes at `offset`, leaving the rest
    /// of the region untouched.
    pub fn write(&self, buf: &mut Vec<u8>, offset: usize)
        requires
            offset + 8 <= old(buf).len(),
            self.wf(),
        ensures
            final(buf)@.len() == old(buf)@.len(),
            final(buf)@.subrange(offset as int, offset + 8) == spec_spray_bytes(*self),
            forall|i: int|
                0 <= i < old(buf)@.len() && !(offset <= i < offset + 8) ==> final(buf)@[i]
                    == old(buf)@[i],
    {
        buf[offset] = (self.orig_src_port >> 8) as u8;
        buf[offset + 1] = self.orig_src_port as u8;
        buf[offset + 2] = (self.first_seq >> 16) as u8;
        buf[offset + 3] = (self.first_seq >> 8) as u8;
        buf[offset + 4] = self.first_seq as u8;
        buf[offset + 5] = 0u8;
        buf[offset + 6] = 0u8;
        buf[offset + 7] = 0u8;
        proof {
            assert(buf@.subrange(offset as int, offset + 8) =~= spec_spray_bytes(*self));
        }
    }

    /// Encode this header as a fresh 8-byte vector.
    pub fn to_bytes(&self) -> (r: Vec<u8>)
        requires
            self.wf(),
        ensures
            r@ == spec_spray_bytes(*self),
    {
        let mut v: Vec<u8> = Vec::new();
        v.push((self.orig_src_port >> 8) as u8);
        v.push(self.orig_src_port as u8);
        v.push((self.first_seq >> 16) as u8);
        v.push((self.first_seq >> 8) as u8);
        v.push(self.first_seq as u8);
        v.push(0u8);
        v.push(0u8);
        v.push(0u8);
        proof {
            assert(v@ =~= spec_spray_bytes(*self));
        }
        v
    }
}

/// Round-trip fidelity for the spray header: decoding an encoded header
/// gives back the original, for every well-formed header.
pub proof fn lemma_spray_round_trip(h: SprayHdr)
    requires
        h.wf(),
    ensures
        spec_spray_parse(spec_spray_bytes(h)) == h,
{
    lemma_be16_roundtrip(h.orig_src_port);
    lemma_u24_roundtrip(h.first_seq);
}

} // verus!
