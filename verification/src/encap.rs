//! The egress path: wrap an outbound RoCEv2 packet in an outer
//! Ethernet/IPv4/UDP tunnel plus a spray header, rewrite its UDP source
//! port to the reversible path-selection value, and redirect it toward
//! the resolved next hop.
//!
//! A packet that is not RoCEv2 traffic, is malformed or truncated, or
//! whose flow cannot be resolved, is passed through byte-for-byte
//! unchanged; nothing here aborts on a bad packet.

use vstd::prelude::*;
use crate::bth::OPCODE_FIRST;
use crate::bth::OPCODE_LAST;
use crate::bth::SprayHdr;
use crate::bth::be16;
use crate::bth::be16_hi;
use crate::bth::be16_lo;
use crate::bth::lemma_u24_bound;
use crate::bth::spec_spray_bytes;
use crate::bth::u24;
use crate::flow::FlowCache;
use crate::flow::FlowKey;
use crate::flow::FlowNextHop;
use crate::mask::mask;
use crate::mask::spec_mask;
use crate::wire::ETHERTYPE_IPV4;
use crate::wire::EthHdr;
use crate::wire::IP_PROTO_UDP;
use crate::wire::Ipv4Hdr;
use crate::wire::ROCE_PORT;
use crate::wire::SPRAY_PORT;
use crate::wire::UdpHdr;
use crate::wire::be32;
use crate::wire::ipv4_checksum;
use crate::wire::spec_eth_bytes;
use crate::wire::spec_ipv4_bytes;
use crate::wire::spec_ipv4_checksum;
use crate::wire::spec_udp_bytes;

verus! {

/// A RoCEv2 packet as the sprayer expects it on the wire: Ethernet, then
/// IPv4 carrying UDP, then UDP to the RoCEv2 port, then at least a Base
/// Transport Header.
pub open spec fn spec_is_roce(b: Seq<u8>) -> bool {
    &&& b.len() >= 54
    &&& be16(b[12], b[13]) == ETHERTYPE_IPV4
    &&& b[23] == IP_PROTO_UDP
    &&& be16(b[36], b[37]) == ROCE_PORT
}

/// The UDP source port of a RoCEv2 packet.
pub open spec fn spec_src_port(b: Seq<u8>) -> u16 {
    be16(b[34], b[35])
}

/// The destination QP of a RoCEv2 packet, zero-extended.
pub open spec fn spec_qpn(b: Seq<u8>) -> u32 {
    u24(b[47], b[48], b[49])
}

/// The BTH opcode of a RoCEv2 packet.
pub open spec fn spec_opcode(b: Seq<u8>) -> u8 {
    b[42]
}

/// The packet sequence number of a RoCEv2 packet, zero-extended.
pub open spec fn spec_seq_num(b: Seq<u8>) -> u32 {
    u24(b[51], b[52], b[53])
}

/// The five-tuple of a RoCEv2 packet.
pub open spec fn spec_flow_key(b: Seq<u8>) -> FlowKey {
    FlowKey {
        src_ip: be32(b[26], b[27], b[28], b[29]),
        dst_ip: be32(b[30], b[31], b[32], b[33]),
        src_port: be16(b[34], b[35]),
        dst_port: be16(b[36], b[37]),
        ip_proto: b[23],
    }
}

/// The inner packet as the tunnel carries it: the UDP source port
/// rewritten to `port` and the UDP checksum zeroed, everything else
/// untouched.
pub open spec fn spec_inner_rewritten(b: Seq<u8>, port: u16) -> Seq<u8> {
    b.update(34, be16_hi(port)).update(35, be16_lo(port)).update(40, 0u8).update(41, 0u8)
}

/// The outer IPv4 header of a sprayed frame: addresses from the resolved
/// next hop, total length covering tunnel and inner packet, checksum
/// freshly computed over a zeroed checksum field.
pub open spec fn spec_outer_ipv4(b: Seq<u8>, nh: FlowNextHop) -> Ipv4Hdr {
    let h0 = Ipv4Hdr {
        version_ihl: 0x45,
        tos: 0,
        tot_len: (36 + b.len()) as u16,
        id: 0,
        frag: 0,
        ttl: 64,
        proto: IP_PROTO_UDP,
        check: 0,
        src: nh.src_ip,
        dst: nh.dst_ip,
    };
    Ipv4Hdr { check: spec_ipv4_checksum(h0), ..h0 }
}

/// The whole sprayed frame built from a RoCEv2 packet `b`, its resolved
/// next hop and the first-sequence value of its message: outer Ethernet,
/// outer IPv4, outer UDP to the spray port with the masked source port,
/// the spray header, then the rewritten inner packet.
pub open spec fn spec_sprayed_frame(b: Seq<u8>, nh: FlowNextHop, fs: u32) -> Seq<u8> {
    let masked = spec_mask(spec_src_port(b), spec_seq_num(b));
    spec_eth_bytes(EthHdr { dst: nh.dst_mac, src: nh.src_mac, ethertype: ETHERTYPE_IPV4 })
        + spec_ipv4_bytes(spec_outer_ipv4(b, nh)) + spec_udp_bytes(
        UdpHdr { source: masked, dest: SPRAY_PORT, len: (16 + b.len()) as u16, check: 0 },
    ) + spec_spray_bytes(SprayHdr { orig_src_port: spec_src_port(b), first_seq: fs }) +
    spec_inner_rewritten(b, masked)
}

/// The first-sequence value a sprayed packet carries: the sequence
/// number itself on a first-opcode packet, else the value recorded for
/// the QP, else zero.
pub open spec fn spec_first_seq(t: Map<u32, u32>, opcode: u8, qp: u32, seqn: u32) -> u32 {
    if opcode == OPCODE_FIRST {
        seqn
    } else if t.contains_key(qp) {
        t[qp]
    } else {
        0
    }
}

/// The first-sequence table after one packet: a first-opcode packet
/// records its sequence number, a last-opcode packet clears the entry,
/// anything else leaves the table alone.
pub open spec fn spec_first_table_after(t: Map<u32, u32>, opcode: u8, qp: u32, seqn: u32) -> Map<
    u32,
    u32,
> {
    if opcode == OPCODE_FIRST {
        t.insert(qp, seqn)
    } else if opcode == OPCODE_LAST {
        t.remove(qp)
    } else {
        t
    }
}

/// The table entries interpreted as a map from QP to first sequence.
pub open spec fn fst_map(s: Seq<(u32, u32)>) -> Map<u32, u32>
    decreases s.len(),
{
    if s.len() == 0 {
        Map::empty()
    } else {
        fst_map(s.drop_last()).insert(s.last().0, s.last().1)
    }
}

/// Each QP appears at most once, and every recorded value fits 24 bits.
pub open spec fn fst_wf(s: Seq<(u32, u32)>) -> bool {
    &&& forall|i: int, j: int|
        0 <= i < j < s.len() ==> (#[trigger] s[i]).0 != (#[trigger] s[j]).0
    &&& forall|i: int| 0 <= i < s.len() ==> (#[trigger] s[i]).1 < 0x1000000
}

proof fn lemma_fst_contains(s: Seq<(u32, u32)>, k: u32)
    ensures
        fst_map(s).contains_key(k) <==> exists|i: int|
            0 <= i < s.len() && (#[trigger] s[i]).0 == k,
    decreases s.len(),
{
    if s.len() > 0 {
        lemma_fst_contains(s.drop_last(), k);
        if s.last().0 == k {
            assert(s[s.len() - 1].0 == k);
        } else {
            if fst_map(s).contains_key(k) {
                let i = choose|i: int|
                    0 <= i < s.drop_last().len() && (#[trigger] s.drop_last()[i]).0 == k;
                assert(s[i].0 == k);
            }
            if exists|i: int| 0 <= i < s.len() && (#[trigger] s[i]).0 == k {
                let i = choose|i: int| 0 <= i < s.len() && (#[trigger] s[i]).0 == k;
                assert(s.drop_last()[i].0 == k);
            }
        }
    }
}

proof fn lemma_fst_index(s: Seq<(u32, u32)>, i: int)
    requires
        fst_wf(s),
        0 <= i < s.len(),
    ensures
        fst_map(s).contains_key(s[i].0),
        fst_map(s)[s[i].0] == s[i].1,
    decreases s.len(),
{
    if i < s.len() - 1 {
        assert(fst_wf(s.drop_last()));
        lemma_fst_index(s.drop_last(), i);
        assert(s[i].0 != s.last().0);
    }
}

proof fn lemma_fst_update(s: Seq<(u32, u32)>, i: int, v: u32)
    requires
        fst_wf(s),
        0 <= i < s.len(),
    ensures
        fst_map(s.update(i, (s[i].0, v))) == fst_map(s).insert(s[i].0, v),
    decreases s.len(),
{
    let t = s.update(i, (s[i].0, v));
    if i == s.len() - 1 {
        assert(t.drop_last() =~= s.drop_last());
        assert(fst_map(t) =~= fst_map(s).insert(s[i].0, v));
    } else {
        assert(fst_wf(s.drop_last()));
        lemma_fst_update(s.drop_last(), i, v);
        assert(t.drop_last() =~= s.drop_last().update(i, (s[i].0, v)));
        assert(t.last() == s.last());
        assert(s[i].0 != s.last().0);
        assert(fst_map(t) =~= fst_map(s).insert(s[i].0, v));
    }
}

proof fn lemma_fst_push(s: Seq<(u32, u32)>, k: u32, v: u32)
    ensures
        fst_map(s.push((k, v))) == fst_map(s).insert(k, v),
{
    assert(s.push((k, v)).drop_last() =~= s);
}

proof fn lemma_fst_remove(s: Seq<(u32, u32)>, i: int)
    requires
        fst_wf(s),
        0 <= i < s.len(),
    ensures
        fst_map(s.remove(i)) == fst_map(s).remove(s[i].0),
    decreases s.len(),
{
    let t = s.remove(i);
    if i == s.len() - 1 {
        assert(t =~= s.drop_last());
        lemma_fst_contains(s.drop_last(), s[i].0);
        assert(forall|j: int|
            0 <= j < s.drop_last().len() ==> (#[trigger] s.drop_last()[j]).0 != s[i].0);
        assert(fst_map(t) =~= fst_map(s).remove(s[i].0));
    } else {
        assert(fst_wf(s.drop_last()));
        lemma_fst_remove(s.drop_last(), i);
        assert(t.drop_last() =~= s.drop_last().remove(i));
        assert(t.last() == s.last());
        assert(s[i].0 != s.last().0);
        assert(fst_map(t) =~= fst_map(s).remove(s[i].0));
    }
}

/// The per-QP record of the first sequence number of the message
/// currently in flight, kept by the egress path and echoed into every
/// spray header.
pub struct FirstSeqTable {
    entries: Vec<(u32, u32)>,
}

impl FirstSeqTable {
    /// The abstract map this table stores.
    pub closed spec fn view(&self) -> Map<u32, u32> {
        fst_map(self.entries@)
    }

    /// Keys are distinct and values fit 24 bits.
    pub closed spec fn wf(&self) -> bool {
        fst_wf(self.entries@)
    }

    /// An empty table.
    pub fn new() -> (t: FirstSeqTable)
        ensures
            t@ == Map::<u32, u32>::empty(),
            t.wf(),
    {
        FirstSeqTable { entries: Vec::new() }
    }

    /// The recorded first sequence of one QP.
    pub fn get(&self, qp: u32) -> (r: Option<u32>)
        requires
            self.wf(),
        ensures
            self@.contains_key(qp) ==> r == Some(self@[qp]) && self@[qp] < 0x1000000,
            !self@.contains_key(qp) ==> r is None,
    {
        let n = self.entries.len();
        let mut i: usize = 0;
        while i < n
            invariant
                i <= n,
                n == self.entries@.len(),
                self.wf(),
                forall|j: int| 0 <= j < i ==> (#[trigger] self.entries@[j]).0 != qp,
            decreases n - i,
        {
            if self.entries[i].0 == qp {
                proof {
                    lemma_fst_index(self.entries@, i as int);
                }
                return Some(self.entries[i].1);
            }
            i += 1;
        }
        proof {
            lemma_fst_contains(self.entries@, qp);
        }
        None
    }

    /// Record the first sequence of one QP.
    pub fn set(&mut self, qp: u32, fs: u32)
        requires
            old(self).wf(),
            fs < 0x1000000,
        ensures
            final(self).wf(),
            final(self)@ == old(self)@.insert(qp, fs),
    {
        let n = self.entries.len();
        let mut i: usize = 0;
        while i < n
            invariant
                i <= n,
                n == self.entries@.len(),
                self.wf(),
                fs < 0x1000000,
                self.entries@ == old(self).entries@,
                forall|j: int| 0 <= j < i ==> (#[trigger] self.entries@[j]).0 != qp,
            decreases n - i,
        {
            if self.entries[i].0 == qp {
                proof {
                    lemma_fst_update(self.entries@, i as int, fs);
                }
                let ghost before = self.entries@;
                self.entries[i] = (qp, fs);
                proof {
                    assert(self.entries@ == before.update(i as int, (qp, fs)));
                    assert(forall|j: int|
                        0 <= j < self.entries@.len() && j != i ==> (#[trigger] self.entries@[j])
                            == before[j]);
                    assert(self.entries@[i as int] == (qp, fs));
                    assert forall|j: int|
                        0 <= j < before.len() && j != i implies (#[trigger] before[j]).0
                        != qp by {
                        if j < i {
                            assert(before[j].0 != before[i as int].0);
                        } else {
                            assert(before[i as int].0 != before[j].0);
                        }
                    }
                    assert forall|a: int, b2: int|
                        0 <= a < b2 < self.entries@.len() implies (
                    #[trigger] self.entries@[a]).0 != (#[trigger] self.entries@[b2]).0 by {
                        if a == i {
                            assert(self.entries@[b2] == before[b2]);
                        } else if b2 == i {
                            assert(self.entries@[a] == before[a]);
                        } else {
                            assert(self.entries@[a] == before[a]);
                            assert(self.entries@[b2] == before[b2]);
                            assert(before[a].0 != before[b2].0);
                        }
                    }
                    assert forall|a: int|
                        0 <= a < self.entries@.len() implies (#[trigger] self.entries@[a]).1
                        < 0x1000000 by {
                        if a != i {
                            assert(self.entries@[a] == before[a]);
                            assert(before[a].1 < 0x1000000);
                        } else {
                            assert(self.entries@[a] == (qp, fs));
                        }
                    }
                    assert(fst_wf(self.entries@));
                }
                return ;
            }
            i += 1;
        }
        proof {
            lemma_fst_push(self.entries@, qp, fs);
        }
        self.entries.push((qp, fs));
    }

    /// Clear one QP's record, if any.
    pub fn clear(&mut self, qp: u32)
        requires
            old(self).wf(),
        ensures
            final(self).wf(),
            final(self)@ == old(self)@.remove(qp),
    {
        let n = self.entries.len();
        let mut i: usize = 0;
        while i < n
            invariant
                i <= n,
                n == self.entries@.len(),
                self.wf(),
                self.entries@ == old(self).entries@,
                forall|j: int| 0 <= j < i ==> (#[trigger] self.entries@[j]).0 != qp,
            decreases n - i,
        {
            if self.entries[i].0 == qp {
                proof {
                    lemma_fst_remove(self.entries@, i as int);
                }
                self.entries.remove(i);
                return ;
            }
            i += 1;
        }
        proof {
            lemma_fst_contains(self.entries@, qp);
            assert(self@ =~= self@.remove(qp));
        }
    }
}

/// What the egress path returns for one packet.
#[derive(Debug)]
pub enum EncapResult {
    /// Not sprayable (not RoCEv2, malformed, oversized, or unroutable):
    /// the input packet, byte-for-byte unchanged.
    PassThrough(Vec<u8>),
    /// The sprayed frame and the egress link to send it out of.
    Sprayed { frame: Vec<u8>, egress_ifidx: u32 },
}

/// The egress half of the sprayer: the flow next-hop cache and the
/// per-QP first-sequence table.
pub struct Encapsulator {
    cache: FlowCache,
    first: FirstSeqTable,
}

impl Encapsulator {
    /// The cached next hops.
    pub closed spec fn cache_view(&self) -> Map<FlowKey, FlowNextHop> {
        self.cache@
    }

    /// The recorded first sequences.
    pub closed spec fn first_view(&self) -> Map<u32, u32> {
        self.first@
    }

    /// Both underlying stores are well-formed.
    pub closed spec fn wf(&self) -> bool {
        self.cache.wf() && self.first.wf()
    }

    /// A fresh encapsulator: empty cache, empty table.
    pub fn new() -> (e: Encapsulator)
        ensures
            e.wf(),
            e.cache_view() == Map::<FlowKey, FlowNextHop>::empty(),
            e.first_view() == Map::<u32, u32>::empty(),
    {
        Encapsulator { cache: FlowCache::new(), first: FirstSeqTable::new() }
    }

    /// Wrap one outbound packet, or pass it through unchanged.
    ///
    /// `resolved` is the next-hop resolution collaborator's answer for
    /// this packet's destination, consulted only on a cache miss; a miss
    /// that the collaborator could not resolve either leaves the packet
    /// byte-for-byte as it came, and the encapsulator untouched.
    pub fn encapsulate(&mut self, pkt: Vec<u8>, resolved: Option<FlowNextHop>) -> (r: EncapResult)
        requires
            old(self).wf(),
        ensures
            final(self).wf(),
            (!spec_is_roce(pkt@) || pkt@.len() > 65499) ==> r == EncapResult::PassThrough(pkt)
                && final(self).cache_view() == old(self).cache_view() && final(self).first_view()
                == old(self).first_view(),
            (spec_is_roce(pkt@) && pkt@.len() <= 65499 && !old(self).cache_view().contains_key(
                spec_flow_key(pkt@),
            ) && resolved is None) ==> (r == EncapResult::PassThrough(pkt)
                && final(self).cache_view() == old(self).cache_view()
                && final(self).first_view() == old(self).first_view()),
            (spec_is_roce(pkt@) && pkt@.len() <= 65499 && (old(self).cache_view().contains_key(
                spec_flow_key(pkt@),
            ) || resolved is Some)) ==> ({
                let key = spec_flow_key(pkt@);
                let nh = if old(self).cache_view().contains_key(key) {
                    old(self).cache_view()[key]
                } else {
                    resolved->0
                };
                let fs = spec_first_seq(
                    old(self).first_view(),
                    spec_opcode(pkt@),
                    spec_qpn(pkt@),
                    spec_seq_num(pkt@),
                );
                &&& (r matches EncapResult::Sprayed { frame, egress_ifidx } && frame@
                    == spec_sprayed_frame(pkt@, nh, fs) && egress_ifidx == nh.ifidx)
                &&& final(self).cache_view() == (if old(self).cache_view().contains_key(key) {
                    old(self).cache_view()
                } else {
                    old(self).cache_view().insert(key, nh)
                })
                &&& final(self).first_view() == spec_first_table_after(
                    old(self).first_view(),
                    spec_opcode(pkt@),
                    spec_qpn(pkt@),
                    spec_seq_num(pkt@),
                )
            }),
    {
        if pkt.len() < 54 || pkt.len() > 65499 {
            return EncapResult::PassThrough(pkt);
        }
        let ethertype = ((pkt[12] as u16) << 8) | (pkt[13] as u16);
        if ethertype != ETHERTYPE_IPV4 {
            return EncapResult::PassThrough(pkt);
        }
        let proto = pkt[23];
        if proto != IP_PROTO_UDP {
            return EncapResult::PassThrough(pkt);
        }
        let dst_port = ((pkt[36] as u16) << 8) | (pkt[37] as u16);
        if dst_port != ROCE_PORT {
            return EncapResult::PassThrough(pkt);
        }
        let src_port = ((pkt[34] as u16) << 8) | (pkt[35] as u16);
        let qp = ((pkt[47] as u32) << 16) | ((pkt[48] as u32) << 8) | (pkt[49] as u32);
        let opcode = pkt[42];
        let seqn = ((pkt[51] as u32) << 16) | ((pkt[52] as u32) << 8) | (pkt[53] as u32);
        proof {
            lemma_u24_bound(pkt@[51], pkt@[52], pkt@[53]);
        }
        let key = FlowKey {
            src_ip: ((pkt[26] as u32) << 24) | ((pkt[27] as u32) << 16) | ((pkt[28] as u32) << 8)
                | (pkt[29] as u32),
            dst_ip: ((pkt[30] as u32) << 24) | ((pkt[31] as u32) << 16) | ((pkt[32] as u32) << 8)
                | (pkt[33] as u32),
            src_port,
            dst_port,
            ip_proto: proto,
        };
        let nh = match self.cache.lookup_or_resolve(key, resolved) {
            Some(nh) => nh,
            None => {
                return EncapResult::PassThrough(pkt);
            },
        };
        let fs: u32 = if opcode == OPCODE_FIRST {
            seqn
        } else {
            match self.first.get(qp) {
                Some(v) => v,
                None => 0,
            }
        };
        if opcode == OPCODE_FIRST {
            self.first.set(qp, seqn);
        } else if opcode == OPCODE_LAST {
            self.first.clear(qp);
        }
        let masked = mask(src_port, seqn);
        let mut inner = pkt;
        inner[34] = (masked >> 8) as u8;
        inner[35] = masked as u8;
        inner[40] = 0u8;
        inner[41] = 0u8;
        let outer_eth = EthHdr { dst: nh.dst_mac, src: nh.src_mac, ethertype: ETHERTYPE_IPV4 };
        let outer_ip0 = Ipv4Hdr {
            version_ihl: 0x45,
            tos: 0,
            tot_len: 36 + inner.len() as u16,
            id: 0,
            frag: 0,
            ttl: 64,
            proto: IP_PROTO_UDP,
            check: 0,
            src: nh.src_ip,
            dst: nh.dst_ip,
        };
        let check = ipv4_checksum(&outer_ip0);
        let outer_ip = Ipv4Hdr { check, ..outer_ip0 };
        let outer_udp = UdpHdr {
            source: masked,
            dest: SPRAY_PORT,
            len: 16 + inner.len() as u16,
            check: 0,
        };
        let spray = SprayHdr { orig_src_port: src_port, first_seq: fs };
        let mut frame: Vec<u8> = Vec::new();
        let mut k: usize = 0;
        while k < 50
            invariant
                k <= 50,
                frame@.len() == k,
            decreases 50 - k,
        {
            frame.push(0u8);
            k += 1;
        }
        outer_eth.write(&mut frame, 0);
        outer_ip.write(&mut frame, 14);
        outer_udp.write(&mut frame, 34);
        spray.write(&mut frame, 42);
        proof {
            assert(frame@.subrange(0, 14) =~= spec_eth_bytes(outer_eth));
            assert(frame@.subrange(14, 34) =~= spec_ipv4_bytes(outer_ip));
            assert(frame@.subrange(34, 42) =~= spec_udp_bytes(outer_udp));
            assert(frame@.subrange(42, 50) =~= spec_spray_bytes(spray));
            assert(inner@ =~= spec_inner_rewritten(pkt@, masked));
            assert(outer_ip == spec_outer_ipv4(pkt@, nh));
        }
        frame.append(&mut inner);
        proof {
            assert(frame@ =~= spec_sprayed_frame(pkt@, nh, fs));
        }
        EncapResult::Sprayed { frame, egress_ifidx: nh.ifidx }
    }
}

} // verus!
