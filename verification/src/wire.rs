//! Fixed-layout codecs for the outer packet headers the sprayer reads and
//! writes: Ethernet, IPv4, UDP and ARP, with the IPv4 header checksum.
//!
//! Every multi-byte field is big-endian. All access is bounds-checked
//! over byte regions; a region too short for the header is rejected.

use vstd::prelude::*;
use crate::bth::be16;
use crate::bth::be16_hi;
use crate::bth::be16_lo;
use crate::bth::lemma_be16_roundtrip;

verus! {

broadcast use vstd::array::group_array_axioms;

/// Length in bytes of an Ethernet header.
pub const ETH_LEN: usize = 14;

/// Length in bytes of an IPv4 header without options.
pub const IPV4_LEN: usize = 20;

/// Length in bytes of a UDP header.
pub const UDP_LEN: usize = 8;

/// Length in bytes of an ARP payload for Ethernet over IPv4.
pub const ARP_LEN: usize = 28;

/// The UDP destination port RoCEv2 traffic uses.
pub const ROCE_PORT: u16 = 4791;

/// The reserved UDP destination port carrying sprayed traffic, distinct
/// from the RoCEv2 port.
pub const SPRAY_PORT: u16 = 3000;

/// EtherType of IPv4.
pub const ETHERTYPE_IPV4: u16 = 0x0800;

/// EtherType of ARP.
pub const ETHERTYPE_ARP: u16 = 0x0806;

/// The IPv4 protocol number of UDP.
pub const IP_PROTO_UDP: u8 = 17;

/// The high half of a `u32`, big-endian first word.
pub open spec fn u32_hi(x: u32) -> u16 {
    (x >> 16) as u16
}

/// The low half of a `u32`.
pub open spec fn u32_lo(x: u32) -> u16 {
    x as u16
}

/// A `u32` from its four big-endian bytes.
pub open spec fn be32(b0: u8, b1: u8, b2: u8, b3: u8) -> u32 {
    (((b0 as u32) << 24) | ((b1 as u32) << 16) | ((b2 as u32) << 8) | (b3 as u32)) as u32
}

/// The four big-endian bytes of a `u32`, highest first.
pub open spec fn be32_b0(x: u32) -> u8 {
    (x >> 24) as u8
}

pub open spec fn be32_b1(x: u32) -> u8 {
    (x >> 16) as u8
}

pub open spec fn be32_b2(x: u32) -> u8 {
    (x >> 8) as u8
}

pub open spec fn be32_b3(x: u32) -> u8 {
    x as u8
}

/// Composing a `u32` from its own four bytes gives the value back.
pub proof fn lemma_be32_roundtrip(x: u32)
    ensures
        be32(be32_b0(x), be32_b1(x), be32_b2(x), be32_b3(x)) == x,
{
    assert((((((x >> 24) as u8) as u32) << 24) | ((((x >> 16) as u8) as u32) << 16) | ((((x
        >> 8) as u8) as u32) << 8) | ((x as u8) as u32)) == x) by (bit_vector);
}

/// Reading the four bytes back out of a composed `u32` gives the bytes.
pub proof fn lemma_be32_split(b0: u8, b1: u8, b2: u8, b3: u8)
    ensures
        be32_b0(be32(b0, b1, b2, b3)) == b0,
        be32_b1(be32(b0, b1, b2, b3)) == b1,
        be32_b2(be32(b0, b1, b2, b3)) == b2,
        be32_b3(be32(b0, b1, b2, b3)) == b3,
{
    assert({
        let x = (((b0 as u32) << 24) | ((b1 as u32) << 16) | ((b2 as u32) << 8) | (
        b3 as u32)) as u32;
        (x >> 24) as u8 == b0 && (x >> 16) as u8 == b1 && (x >> 8) as u8 == b2 && x as u8 == b3
    }) by (bit_vector);
}

/// Ethernet header: destination and source MAC addresses and the
/// EtherType of the payload.
#[derive(Clone, Copy, Debug, PartialEq, Eq)]
pub struct EthHdr {
    pub dst: [u8; 6],
    pub src: [u8; 6],
    pub ethertype: u16,
}

/// The 14 bytes that encode an Ethernet header.
pub open spec fn spec_eth_bytes(h: EthHdr) -> Seq<u8> {
    h.dst@ + h.src@ + seq![be16_hi(h.ethertype), be16_lo(h.ethertype)]
}

/// Read an Ethernet header at `offset`, rejecting a region too short to
/// hold one.
pub fn eth_decode(bytes: &[u8], offset: usize) -> (r: Option<EthHdr>)
    ensures
        offset + 14 <= bytes@.len() ==> (r is Some && spec_eth_bytes(r->0) == bytes@.subrange(
            offset as int,
            offset + 14,
        )),
        offset + 14 > bytes@.len() ==> r is None,
{
    if bytes.len() >= 14 && offset <= bytes.len() - 14 {
        let dst = [
            bytes[offset],
            bytes[offset + 1],
            bytes[offset + 2],
            bytes[offset + 3],
            bytes[offset + 4],
            bytes[offset + 5],
        ];
        let src = [
            bytes[offset + 6],
            bytes[offset + 7],
            bytes[offset + 8],
            bytes[offset + 9],
            bytes[offset + 10],
            bytes[offset + 11],
        ];
        let ethertype = ((bytes[offset + 12] as u16) << 8) | (bytes[offset + 13] as u16);
        let h = EthHdr { dst, src, ethertype };
        proof {
            crate::bth::lemma_be16_split(bytes@[offset + 12], bytes@[offset + 13]);
            assert(dst@ =~= seq![
                bytes@[offset as int],
                bytes@[offset + 1],
                bytes@[offset + 2],
                bytes@[offset + 3],
                bytes@[offset + 4],
                bytes@[offset + 5],
            ]);
            assert(src@ =~= seq![
                bytes@[offset + 6],
                bytes@[offset + 7],
                bytes@[offset + 8],
                bytes@[offset + 9],
                bytes@[offset + 10],
                bytes@[offset + 11],
            ]);
            assert(spec_eth_bytes(h) =~= bytes@.subrange(offset as int, offset + 14));
        }
        Some(h)
    } else {
        None
    }
}

impl EthHdr {
    /// Write this header over the 14 bytes at `offset`, leaving the rest
    /// of the region untouched.
    pub fn write(&self, buf: &mut Vec<u8>, offset: usize)
        requires
            offset + 14 <= old(buf).len(),
        ensures
            final(buf)@.len() == old(buf)@.len(),
            final(buf)@.subrange(offset as int, offset + 14) == spec_eth_bytes(*self),
            forall|i: int|
                0 <= i < old(buf)@.len() && !(offset <= i < offset + 14) ==> final(buf)@[i]
                    == old(buf)@[i],
    {
        let mut k: usize = 0;
        while k < 6
            invariant
                k <= 6,
                offset + 14 <= buf.len(),
                buf@.len() == old(buf)@.len(),
                forall|i: int| 0 <= i < k ==> buf@[offset + i] == self.dst@[i],
                forall|i: int|
                    0 <= i < old(buf)@.len() && !(offset <= i < offset + k) ==> buf@[i] == old(
                        buf,
                    )@[i],
            decreases 6 - k,
        {
            buf[offset + k] = self.dst[k];
            k += 1;
        }
        let mut k: usize = 0;
        while k < 6
            invariant
                k <= 6,
                offset + 14 <= buf.len(),
                buf@.len() == old(buf)@.len(),
                forall|i: int| 0 <= i < 6 ==> buf@[offset + i] == self.dst@[i],
                forall|i: int| 0 <= i < k ==> buf@[offset + 6 + i] == self.src@[i],
                forall|i: int|
                    0 <= i < old(buf)@.len() && !(offset <= i < offset + 6 + k) ==> buf@[i]
                        == old(buf)@[i],
            decreases 6 - k,
        {
            buf[offset + 6 + k] = self.src[k];
            k += 1;
        }
        buf[offset + 12] = (self.ethertype >> 8) as u8;
        buf[offset + 13] = self.ethertype as u8;
        proof {
            assert(buf@.subrange(offset as int, offset + 14) =~= spec_eth_bytes(*self));
        }
    }
}

/// IPv4 header without options: the fields the sprayer reads or rewrites.
#[derive(Clone, Copy, Debug, PartialEq, Eq)]
pub struct Ipv4Hdr {
    pub version_ihl: u8,
    pub tos: u8,
    pub tot_len: u16,
    pub id: u16,
    pub frag: u16,
    pub ttl: u8,
    pub proto: u8,
    pub check: u16,
    pub src: u32,
    pub dst: u32,
}

/// The 20 bytes that encode an IPv4 header.
pub open spec fn spec_ipv4_bytes(h: Ipv4Hdr) -> Seq<u8> {
    seq![
        h.version_ihl,
        h.tos,
        be16_hi(h.tot_len),
        be16_lo(h.tot_len),
        be16_hi(h.id),
        be16_lo(h.id),
        be16_hi(h.frag),
        be16_lo(h.frag),
        h.ttl,
        h.proto,
        be16_hi(h.check),
        be16_lo(h.check),
        be32_b0(h.src),
        be32_b1(h.src),
        be32_b2(h.src),
        be32_b3(h.src),
        be32_b0(h.dst),
        be32_b1(h.dst),
        be32_b2(h.dst),
        be32_b3(h.dst),
    ]
}

/// The header read from the first 20 bytes of `s`.
pub open spec fn spec_ipv4_parse(s: Seq<u8>) -> Ipv4Hdr
    recommends
        s.len() >= 20,
{
    Ipv4Hdr {
        version_ihl: s[0],
        tos: s[1],
        tot_len: be16(s[2], s[3]),
        id: be16(s[4], s[5]),
        frag: be16(s[6], s[7]),
        ttl: s[8],
        proto: s[9],
        check: be16(s[10], s[11]),
        src: be32(s[12], s[13], s[14], s[15]),
        dst: be32(s[16], s[17], s[18], s[19]),
    }
}

/// Read an IPv4 header at `offset`, rejecting a region too short to hold
/// one.
pub fn ipv4_decode(bytes: &[u8], offset: usize) -> (r: Option<Ipv4Hdr>)
    ensures
        offset + 20 <= bytes@.len() ==> r == Some(
            spec_ipv4_parse(bytes@.subrange(offset as int, offset + 20)),
        ),
        offset + 20 > bytes@.len() ==> r is None,
{
    if bytes.len() >= 20 && offset <= bytes.len() - 20 {
        Some(
            Ipv4Hdr {
                version_ihl: bytes[offset],
                tos: bytes[offset + 1],
                tot_len: ((bytes[offset + 2] as u16) << 8) | (bytes[offset + 3] as u16),
                id: ((bytes[offset + 4] as u16) << 8) | (bytes[offset + 5] as u16),
                frag: ((bytes[offset + 6] as u16) << 8) | (bytes[offset + 7] as u16),
                ttl: bytes[offset + 8],
                proto: bytes[offset + 9],
                check: ((bytes[offset + 10] as u16) << 8) | (bytes[offset + 11] as u16),
                src: ((bytes[offset + 12] as u32) << 24) | ((bytes[offset + 13] as u32) << 16)
                    | ((bytes[offset + 14] as u32) << 8) | (bytes[offset + 15] as u32),
                dst: ((bytes[offset + 16] as u32) << 24) | ((bytes[offset + 17] as u32) << 16)
                    | ((bytes[offset + 18] as u32) << 8) | (bytes[offset + 19] as u32),
            },
        )
    } else {
        None
    }
}

impl Ipv4Hdr {
    /// Write this header over the 20 bytes at `offset`, leaving the rest
    /// of the region untouched.
    pub fn write(&self, buf: &mut Vec<u8>, offset: usize)
        requires
            offset + 20 <= old(buf).len(),
        ensures
            final(buf)@.len() == old(buf)@.len(),
            final(buf)@.subrange(offset as int, offset + 20) == spec_ipv4_bytes(*self),
            forall|i: int|
                0 <= i < old(buf)@.len() && !(offset <= i < offset + 20) ==> final(buf)@[i]
                    == old(buf)@[i],
    {
        buf[offset] = self.version_ihl;
        buf[offset + 1] = self.tos;
        buf[offset + 2] = (self.tot_len >> 8) as u8;
        buf[offset + 3] = self.tot_len as u8;
        buf[offset + 4] = (self.id >> 8) as u8;
        buf[offset + 5] = self.id as u8;
        buf[offset + 6] = (self.frag >> 8) as u8;
        buf[offset + 7] = self.frag as u8;
        buf[offset + 8] = self.ttl;
        buf[offset + 9] = self.proto;
        buf[offset + 10] = (self.check >> 8) as u8;
        buf[offset + 11] = self.check as u8;
        buf[offset + 12] = (self.src >> 24) as u8;
        buf[offset + 13] = (self.src >> 16) as u8;
        buf[offset + 14] = (self.src >> 8) as u8;
        buf[offset + 15] = self.src as u8;
        buf[offset + 16] = (self.dst >> 24) as u8;
        buf[offset + 17] = (self.dst >> 16) as u8;
        buf[offset + 18] = (self.dst >> 8) as u8;
        buf[offset + 19] = self.dst as u8;
        proof {
            assert(buf@.subrange(offset as int, offset + 20) =~= spec_ipv4_bytes(*self));
        }
    }
}

/// Round-trip fidelity for the IPv4 header codec.
pub proof fn lemma_ipv4_round_trip(h: Ipv4Hdr)
    ensures
        spec_ipv4_parse(spec_ipv4_bytes(h)) == h,
{
    lemma_be16_roundtrip(h.tot_len);
    lemma_be16_roundtrip(h.id);
    lemma_be16_roundtrip(h.frag);
    lemma_be16_roundtrip(h.check);
    lemma_be32_roundtrip(h.src);
    lemma_be32_roundtrip(h.dst);
}

/// UDP header.
#[derive(Clone, Copy, Debug, PartialEq, Eq)]
pub struct UdpHdr {
    pub source: u16,
    pub dest: u16,
    pub len: u16,
    pub check: u16,
}

/// The 8 bytes that encode a UDP header.
pub open spec fn spec_udp_bytes(h: UdpHdr) -> Seq<u8> {
    seq![
        be16_hi(h.source),
        be16_lo(h.source),
        be16_hi(h.dest),
        be16_lo(h.dest),
        be16_hi(h.len),
        be16_lo(h.len),
        be16_hi(h.check),
        be16_lo(h.check),
    ]
}

/// The header read from the first 8 bytes of `s`.
pub open spec fn spec_udp_parse(s: Seq<u8>) -> UdpHdr
    recommends
        s.len() >= 8,
{
    UdpHdr {
        source: be16(s[0], s[1]),
        dest: be16(s[2], s[3]),
        len: be16(s[4], s[5]),
        check: be16(s[6], s[7]),
    }
}

/// Read a UDP header at `offset`, rejecting a region too short to hold
/// one.
pub fn udp_decode(bytes: &[u8], offset: usize) -> (r: Option<UdpHdr>)
    ensures
        offset + 8 <= bytes@.len() ==> r == Some(
            spec_udp_parse(bytes@.subrange(offset as int, offset + 8)),
        ),
        offset + 8 > bytes@.len() ==> r is None,
{
    if bytes.len() >= 8 && offset <= bytes.len() - 8 {
        Some(
            UdpHdr {
                source: ((bytes[offset] as u16) << 8) | (bytes[offset + 1] as u16),
                dest: ((bytes[offset + 2] as u16) << 8) | (bytes[offset + 3] as u16),
                len: ((bytes[offset + 4] as u16) << 8) | (bytes[offset + 5] as u16),
                check: ((bytes[offset + 6] as u16) << 8) | (bytes[offset + 7] as u16),
            },
        )
    } else {
        None
    }
}

impl UdpHdr {
    /// Write this header over the 8 bytes at `offset`, leaving the rest
    /// of the region untouched.
    pub fn write(&self, buf: &mut Vec<u8>, offset: usize)
        requires
            offset + 8 <= old(buf).len(),
        ensures
            final(buf)@.len() == old(buf)@.len(),
            final(buf)@.subrange(offset as int, offset + 8) == spec_udp_bytes(*self),
            forall|i: int|
                0 <= i < old(buf)@.len() && !(offset <= i < offset + 8) ==> final(buf)@[i]
                    == old(buf)@[i],
    {
        buf[offset] = (self.source >> 8) as u8;
        buf[offset + 1] = self.source as u8;
        buf[offset + 2] = (self.dest >> 8) as u8;
        buf[offset + 3] = self.dest as u8;
        buf[offset + 4] = (self.len >> 8) as u8;
        buf[offset + 5] = self.len as u8;
        buf[offset + 6] = (self.check >> 8) as u8;
        buf[offset + 7] = self.check as u8;
        proof {
            assert(buf@.subrange(offset as int, offset + 8) =~= spec_udp_bytes(*self));
        }
    }
}

/// Round-trip fidelity for the UDP header codec.
pub proof fn lemma_udp_round_trip(h: UdpHdr)
    ensures
        spec_udp_parse(spec_udp_bytes(h)) == h,
{
    lemma_be16_roundtrip(h.source);
    lemma_be16_roundtrip(h.dest);
    lemma_be16_roundtrip(h.len);
    lemma_be16_roundtrip(h.check);
}

/// One step of ones'-complement folding: move the carry half down.
pub open spec fn spec_fold_step(s: i64) -> i64 {
    if s >> 16 != 0 {
        ((s & 0xffff) + (s >> 16)) as i64
    } else {
        s
    }
}

/// What `csum_fold_helper` computes: four folding steps, then the
/// bitwise complement truncated to 16 bits.
pub open spec fn spec_csum_fold(csum: i64) -> u16 {
    !spec_fold_step(spec_fold_step(spec_fold_step(spec_fold_step(csum)))) as u16
}

/// Fold a 32-bit-and-carry ones'-complement sum down to the final 16-bit
/// checksum value.
pub fn csum_fold_helper(csum: i64) -> (r: u16)
    ensures
        r == spec_csum_fold(csum),
{
    let mut sum = csum;
    proof {
        lemma_fold_step_bounds(sum);
    }
    if sum >> 16 != 0 {
        sum = (sum & 0xffff) + (sum >> 16);
    }
    proof {
        lemma_fold_step_bounds(sum);
    }
    if sum >> 16 != 0 {
        sum = (sum & 0xffff) + (sum >> 16);
    }
    proof {
        lemma_fold_step_bounds(sum);
    }
    if sum >> 16 != 0 {
        sum = (sum & 0xffff) + (sum >> 16);
    }
    proof {
        lemma_fold_step_bounds(sum);
    }
    if sum >> 16 != 0 {
        sum = (sum & 0xffff) + (sum >> 16);
    }
    !sum as u16
}

/// The fold step's addition never leaves `i64`.
proof fn lemma_fold_step_bounds(s: i64)
    ensures
        i64::MIN <= (s & 0xffff) + (s >> 16) <= i64::MAX,
{
    assert(s & 0xffff <= 0xffff && s & 0xffff >= 0) by (bit_vector);
    assert(s >> 16 <= 0x0000_8000_0000_0000i64 && s >> 16 >= -0x0000_8000_0000_0000i64)
        by (bit_vector);
}

/// The sum of the ten 16-bit words an IPv4 header checksum covers, the
/// checksum field itself read as zero.
pub open spec fn spec_ipv4_sum(h: Ipv4Hdr) -> int {
    be16(h.version_ihl, h.tos) + h.tot_len + h.id + h.frag + be16(h.ttl, h.proto) + u32_hi(
        h.src,
    ) + u32_lo(h.src) + u32_hi(h.dst) + u32_lo(h.dst)
}

/// What `ipv4_checksum` computes: the folded complement of the header's
/// word sum, with the stored checksum field treated as zero.
pub open spec fn spec_ipv4_checksum(h: Ipv4Hdr) -> u16 {
    spec_csum_fold(spec_ipv4_sum(h) as i64)
}

/// The IPv4 header checksum of `h`: the ones'-complement of the
/// ones'-complement sum of its ten words, the checksum field counted as
/// zero.
pub fn ipv4_checksum(h: &Ipv4Hdr) -> (r: u16)
    ensures
        r == spec_ipv4_checksum(*h),
{
    proof {
        lemma_ipv4_sum_matches(*h);
    }
    let w0 = ((h.version_ihl as u32) << 8) | (h.tos as u32);
    let w4 = ((h.ttl as u32) << 8) | (h.proto as u32);
    let sum: u32 = w0 + h.tot_len as u32 + h.id as u32 + h.frag as u32 + w4 + (h.src >> 16)
        + (h.src & 0xffff) + (h.dst >> 16) + (h.dst & 0xffff);
    csum_fold_helper(sum as i64)
}

/// The executable word sum equals the specification's word sum.
proof fn lemma_ipv4_sum_matches(h: Ipv4Hdr)
    ensures
        ({
            let w0 = (((h.version_ihl as u32) << 8) | (h.tos as u32)) as int;
            let w4 = (((h.ttl as u32) << 8) | (h.proto as u32)) as int;
            &&& w0 == be16(h.version_ihl, h.tos)
            &&& w4 == be16(h.ttl, h.proto)
            &&& (h.src >> 16) as int == u32_hi(h.src)
            &&& (h.src & 0xffff) as int == u32_lo(h.src)
            &&& (h.dst >> 16) as int == u32_hi(h.dst)
            &&& (h.dst & 0xffff) as int == u32_lo(h.dst)
            &&& w0 <= 0xffff && w4 <= 0xffff
            &&& (h.src >> 16) <= 0xffff && (h.src & 0xffff) <= 0xffff
            &&& (h.dst >> 16) <= 0xffff && (h.dst & 0xffff) <= 0xffff
        }),
{
    let a = h.version_ihl;
    let b = h.tos;
    let c = h.ttl;
    let d = h.proto;
    let x = h.src;
    let y = h.dst;
    assert((((a as u32) << 8) | (b as u32)) == ((((a as u16) << 8) | (b as u16)) as u32))
        by (bit_vector);
    assert((((c as u32) << 8) | (d as u32)) == ((((c as u16) << 8) | (d as u16)) as u32))
        by (bit_vector);
    assert(((a as u32) << 8) | (b as u32) <= 0xffff) by (bit_vector);
    assert(((c as u32) << 8) | (d as u32) <= 0xffff) by (bit_vector);
    assert((x >> 16) == (((x >> 16) as u16) as u32) && (x >> 16) <= 0xffff) by (bit_vector);
    assert((x & 0xffff) == ((x as u16) as u32) && (x & 0xffff) <= 0xffff) by (bit_vector);
    assert((y >> 16) == (((y >> 16) as u16) as u32) && (y >> 16) <= 0xffff) by (bit_vector);
    assert((y & 0xffff) == ((y as u16) as u32) && (y & 0xffff) <= 0xffff) by (bit_vector);
}

/// ARP payload for Ethernet over IPv4: the operation and both
/// hardware/protocol address pairs.
#[derive(Clone, Copy, Debug, PartialEq, Eq)]
pub struct ArpHdr {
    pub oper: u16,
    pub sender_mac: [u8; 6],
    pub sender_ip: u32,
    pub target_mac: [u8; 6],
    pub target_ip: u32,
}

/// The ARP operation code of a request.
pub const ARP_REQUEST: u16 = 1;

/// The ARP operation code of a reply.
pub const ARP_REPLY: u16 = 2;

/// The 28 bytes that encode an ARP payload for Ethernet over IPv4: fixed
/// hardware type 1, protocol type IPv4, address lengths 6 and 4.
pub open spec fn spec_arp_bytes(h: ArpHdr) -> Seq<u8> {
    seq![0u8, 1u8, 0x08u8, 0x00u8, 6u8, 4u8, be16_hi(h.oper), be16_lo(h.oper)] + h.sender_mac@
        + seq![be32_b0(h.sender_ip), be32_b1(h.sender_ip), be32_b2(h.sender_ip), be32_b3(
        h.sender_ip,
    )] + h.target_mac@ + seq![be32_b0(h.target_ip), be32_b1(h.target_ip), be32_b2(h.target_ip),
        be32_b3(h.target_ip)]
}

/// Read an ARP payload at `offset`. Rejected when the region is too
/// short, or when the fixed hardware/protocol fields are not Ethernet
/// over IPv4.
pub fn arp_decode(bytes: &[u8], offset: usize) -> (r: Option<ArpHdr>)
    ensures
        r is Some ==> offset + 28 <= bytes@.len() && spec_arp_bytes(r->0) == bytes@.subrange(
            offset as int,
            offset + 28,
        ),
        offset + 28 <= bytes@.len() && bytes@.subrange(offset as int, offset + 6) =~= seq![
            0u8,
            1u8,
            0x08u8,
            0x00u8,
            6u8,
            4u8,
        ] ==> r is Some,
        offset + 28 > bytes@.len() ==> r is None,
{
    if bytes.len() >= 28 && offset <= bytes.len() - 28 {
        if bytes[offset] == 0 && bytes[offset + 1] == 1 && bytes[offset + 2] == 0x08
            && bytes[offset + 3] == 0x00 && bytes[offset + 4] == 6 && bytes[offset + 5] == 4 {
            let h = ArpHdr {
                oper: ((bytes[offset + 6] as u16) << 8) | (bytes[offset + 7] as u16),
                sender_mac: [
                    bytes[offset + 8],
                    bytes[offset + 9],
                    bytes[offset + 10],
                    bytes[offset + 11],
                    bytes[offset + 12],
                    bytes[offset + 13],
                ],
                sender_ip: ((bytes[offset + 14] as u32) << 24) | ((bytes[offset + 15] as u32)
                    << 16) | ((bytes[offset + 16] as u32) << 8) | (bytes[offset + 17] as u32),
                target_mac: [
                    bytes[offset + 18],
                    bytes[offset + 19],
                    bytes[offset + 20],
                    bytes[offset + 21],
                    bytes[offset + 22],
                    bytes[offset + 23],
                ],
                target_ip: ((bytes[offset + 24] as u32) << 24) | ((bytes[offset + 25] as u32)
                    << 16) | ((bytes[offset + 26] as u32) << 8) | (bytes[offset + 27] as u32),
            };
            proof {
                crate::bth::lemma_be16_split(bytes@[offset + 6], bytes@[offset + 7]);
                lemma_be32_split(
                    bytes@[offset + 14],
                    bytes@[offset + 15],
                    bytes@[offset + 16],
                    bytes@[offset + 17],
                );
                lemma_be32_split(
                    bytes@[offset + 24],
                    bytes@[offset + 25],
                    bytes@[offset + 26],
                    bytes@[offset + 27],
                );
                assert(h.sender_mac@ =~= seq![
                    bytes@[offset + 8],
                    bytes@[offset + 9],
                    bytes@[offset + 10],
                    bytes@[offset + 11],
                    bytes@[offset + 12],
                    bytes@[offset + 13],
                ]);
                assert(h.target_mac@ =~= seq![
                    bytes@[offset + 18],
                    bytes@[offset + 19],
                    bytes@[offset + 20],
                    bytes@[offset + 21],
                    bytes@[offset + 22],
                    bytes@[offset + 23],
                ]);
                assert(spec_arp_bytes(h) =~= bytes@.subrange(offset as int, offset + 28));
            }
            Some(h)
        } else {
            None
        }
    } else {
        None
    }
}

impl ArpHdr {
    /// Encode this payload as a fresh 28-byte vector.
    pub fn to_bytes(&self) -> (r: Vec<u8>)
        ensures
            r@ == spec_arp_bytes(*self),
    {
        let mut v: Vec<u8> = Vec::new();
        v.push(0u8);
        v.push(1u8);
        v.push(0x08u8);
        v.push(0x00u8);
        v.push(6u8);
        v.push(4u8);
        v.push((self.oper >> 8) as u8);
        v.push(self.oper as u8);
        v.push(self.sender_mac[0]);
        v.push(self.sender_mac[1]);
        v.push(self.sender_mac[2]);
        v.push(self.sender_mac[3]);
        v.push(self.sender_mac[4]);
        v.push(self.sender_mac[5]);
        v.push((self.sender_ip >> 24) as u8);
        v.push((self.sender_ip >> 16) as u8);
        v.push((self.sender_ip >> 8) as u8);
        v.push(self.sender_ip as u8);
        v.push(self.target_mac[0]);
        v.push(self.target_mac[1]);
        v.push(self.target_mac[2]);
        v.push(self.target_mac[3]);
        v.push(self.target_mac[4]);
        v.push(self.target_mac[5]);
        v.push((self.target_ip >> 24) as u8);
        v.push((self.target_ip >> 16) as u8);
        v.push((self.target_ip >> 8) as u8);
        v.push(self.target_ip as u8);
        proof {
            assert(v@ =~= spec_arp_bytes(*self));
        }
        v
    }
}

/// The 42-byte broadcast ARP request frame the peer-discovery path sends:
/// an Ethernet broadcast header followed by a request for every host,
/// from the given source address.
pub fn arp_request_frame(src_mac: [u8; 6], src_ip: u32) -> (r: Vec<u8>)
    ensures
        r@ == spec_eth_bytes(
            EthHdr {
                dst: [0xffu8, 0xffu8, 0xffu8, 0xffu8, 0xffu8, 0xffu8],
                src: src_mac,
                ethertype: ETHERTYPE_ARP,
            },
        ) + spec_arp_bytes(
            ArpHdr {
                oper: ARP_REQUEST,
                sender_mac: src_mac,
                sender_ip: src_ip,
                target_mac: [0xffu8, 0xffu8, 0xffu8, 0xffu8, 0xffu8, 0xffu8],
                target_ip: 0xffffffffu32,
            },
        ),
{
    let eth = EthHdr {
        dst: [0xffu8, 0xffu8, 0xffu8, 0xffu8, 0xffu8, 0xffu8],
        src: src_mac,
        ethertype: ETHERTYPE_ARP,
    };
    let arp = ArpHdr {
        oper: ARP_REQUEST,
        sender_mac: src_mac,
        sender_ip: src_ip,
        target_mac: [0xffu8, 0xffu8, 0xffu8, 0xffu8, 0xffu8, 0xffu8],
        target_ip: 0xffffffffu32,
    };
    let mut frame: Vec<u8> = Vec::new();
    let mut k: usize = 0;
    while k < 14
        invariant
            k <= 14,
            frame@.len() == k,
        decreases 14 - k,
    {
        frame.push(0u8);
        k += 1;
    }
    eth.write(&mut frame, 0);
    let mut arp_bytes = arp.to_bytes();
    frame.append(&mut arp_bytes);
    proof {
        assert(frame@.subrange(0, 14) =~= spec_eth_bytes(eth));
        assert(frame@ =~= spec_eth_bytes(eth) + spec_arp_bytes(arp));
    }
    frame
}

} // verus!
