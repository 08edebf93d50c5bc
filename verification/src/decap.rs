//! The ingress fast path: recognise a sprayed frame, strip the outer
//! tunnel and the spray header, restore the original UDP source port the
//! spray header carries, and hand the inner packet to the receiver's
//! admission classifier.
//!
//! Anything that is not a sprayed frame — other traffic, or a frame too
//! short for the headers it declares — is passed through byte-for-byte.

use vstd::prelude::*;
use crate::bth::SprayHdr;
use crate::bth::be16;
use crate::bth::lemma_u24_bound;
use crate::bth::spec_spray_parse;
use crate::encap::spec_inner_rewritten;
use crate::encap::spec_is_roce;
use crate::encap::spec_opcode;
use crate::encap::spec_qpn;
use crate::encap::spec_seq_num;
use crate::receiver::Receiver;
use crate::receiver::spec_ingest;
use crate::reorder::Packet;
use crate::wire::ETHERTYPE_IPV4;
use crate::wire::IP_PROTO_UDP;
use crate::wire::SPRAY_PORT;

verus! {

/// A sprayed frame as the egress path builds it: an outer
/// Ethernet/IPv4/UDP tunnel to the spray port, a spray header, and a
/// whole RoCEv2 packet inside.
pub open spec fn spec_is_sprayed(b: Seq<u8>) -> bool {
    &&& b.len() >= 104
    &&& be16(b[12], b[13]) == ETHERTYPE_IPV4
    &&& b[23] == IP_PROTO_UDP
    &&& be16(b[36], b[37]) == SPRAY_PORT
    &&& spec_is_roce(b.skip(50))
}

/// The spray header a sprayed frame carries.
pub open spec fn spec_frame_spray(b: Seq<u8>) -> SprayHdr {
    spec_spray_parse(b.subrange(42, 50))
}

/// The inner packet restored for forwarding: the tunnel and spray header
/// stripped, the UDP source port put back to the original the spray
/// header carries, and the UDP checksum zeroed.
pub open spec fn spec_restored(b: Seq<u8>) -> Seq<u8> {
    spec_inner_rewritten(b.skip(50), spec_frame_spray(b).orig_src_port)
}

/// Round-trip fidelity of the whole tunnel: a sprayed frame built from
/// any RoCEv2 packet whose UDP checksum is already zero is recognised on
/// ingress, and stripping it restores the packet byte-for-byte — the
/// spray header gives the masked source port back.
pub proof fn lemma_spray_strip_inverse(b: Seq<u8>, nh: crate::flow::FlowNextHop, fs: u32)
    requires
        spec_is_roce(b),
        b.len() <= 65499,
        fs < 0x1000000,
        b[40] == 0 && b[41] == 0,
    ensures
        spec_is_sprayed(crate::encap::spec_sprayed_frame(b, nh, fs)),
        spec_restored(crate::encap::spec_sprayed_frame(b, nh, fs)) == b,
{
    let frame = crate::encap::spec_sprayed_frame(b, nh, fs);
    let masked = crate::mask::spec_mask(crate::encap::spec_src_port(b), spec_seq_num(b));
    let inner = spec_inner_rewritten(b, masked);
    let eth = crate::wire::spec_eth_bytes(
        crate::wire::EthHdr { dst: nh.dst_mac, src: nh.src_mac, ethertype: ETHERTYPE_IPV4 },
    );
    let ip = crate::wire::spec_ipv4_bytes(crate::encap::spec_outer_ipv4(b, nh));
    let udp = crate::wire::spec_udp_bytes(
        crate::wire::UdpHdr {
            source: masked,
            dest: SPRAY_PORT,
            len: (16 + b.len()) as u16,
            check: 0,
        },
    );
    let spray = crate::bth::spec_spray_bytes(
        SprayHdr { orig_src_port: crate::encap::spec_src_port(b), first_seq: fs },
    );
    assert(eth.len() == 14 && ip.len() == 20 && udp.len() == 8 && spray.len() == 8);
    assert(frame.len() == 50 + b.len());
    assert(frame.skip(50) =~= inner);
    assert(frame.subrange(42, 50) =~= spray);

    // the outer headers say what the decapsulator checks
    crate::bth::lemma_be16_split(
        crate::bth::be16_hi(ETHERTYPE_IPV4),
        crate::bth::be16_lo(ETHERTYPE_IPV4),
    );
    crate::bth::lemma_be16_roundtrip(ETHERTYPE_IPV4);
    crate::bth::lemma_be16_roundtrip(SPRAY_PORT);
    assert(frame[12] == crate::bth::be16_hi(ETHERTYPE_IPV4) && frame[13]
        == crate::bth::be16_lo(ETHERTYPE_IPV4));
    assert(be16(frame[12], frame[13]) == ETHERTYPE_IPV4);
    assert(frame[23] == IP_PROTO_UDP);
    assert(frame[36] == crate::bth::be16_hi(SPRAY_PORT) && frame[37] == crate::bth::be16_lo(
        SPRAY_PORT,
    ));
    assert(be16(frame[36], frame[37]) == SPRAY_PORT);

    // the inner packet is still a RoCEv2 packet: the rewrite touched
    // only the UDP source port and checksum
    assert(inner[12] == b[12] && inner[13] == b[13] && inner[23] == b[23] && inner[36] == b[36]
        && inner[37] == b[37]);
    assert(spec_is_roce(inner));
    assert(spec_is_sprayed(frame));

    // the spray header hands the original port back
    crate::bth::lemma_be16_roundtrip(crate::encap::spec_src_port(b));
    crate::bth::lemma_u24_roundtrip(fs);
    assert(spec_frame_spray(frame) == (SprayHdr {
        orig_src_port: crate::encap::spec_src_port(b),
        first_seq: fs,
    }));
    crate::bth::lemma_be16_split(b[34], b[35]);
    assert(spec_restored(frame) =~= b);
}

/// What the ingress path makes of one received frame.
#[derive(Debug)]
pub enum DecapResult {
    /// Not a sprayed frame: the input, byte-for-byte unchanged.
    PassThrough(Vec<u8>),
    /// The restored inner packet with its transport fields read out,
    /// ready for the admission classifier.
    Inner(Packet),
}

/// Strip one received frame, or pass it through unchanged.
pub fn decap_packet(frame: Vec<u8>) -> (r: DecapResult)
    ensures
        !spec_is_sprayed(frame@) ==> r == DecapResult::PassThrough(frame),
        spec_is_sprayed(frame@) ==> (r matches DecapResult::Inner(p) && p.qp == spec_qpn(
            frame@.skip(50),
        ) && p.opcode == spec_opcode(frame@.skip(50)) && p.seq == spec_seq_num(frame@.skip(50))
            && p.data@ == spec_restored(frame@) && p.wf()),
{
    if frame.len() < 104 {
        return DecapResult::PassThrough(frame);
    }
    let ethertype = ((frame[12] as u16) << 8) | (frame[13] as u16);
    if ethertype != ETHERTYPE_IPV4 {
        return DecapResult::PassThrough(frame);
    }
    if frame[23] != IP_PROTO_UDP {
        return DecapResult::PassThrough(frame);
    }
    let outer_dport = ((frame[36] as u16) << 8) | (frame[37] as u16);
    if outer_dport != SPRAY_PORT {
        return DecapResult::PassThrough(frame);
    }
    let ghost inner_spec = frame@.skip(50);
    let inner_ethertype = ((frame[62] as u16) << 8) | (frame[63] as u16);
    let inner_proto = frame[73];
    let inner_dport = ((frame[86] as u16) << 8) | (frame[87] as u16);
    if inner_ethertype != crate::wire::ETHERTYPE_IPV4 || inner_proto != IP_PROTO_UDP
        || inner_dport != crate::wire::ROCE_PORT {
        proof {
            assert(inner_spec[12] == frame@[62] && inner_spec[13] == frame@[63]);
            assert(inner_spec[23] == frame@[73]);
            assert(inner_spec[36] == frame@[86] && inner_spec[37] == frame@[87]);
        }
        return DecapResult::PassThrough(frame);
    }
    let orig_port = ((frame[42] as u16) << 8) | (frame[43] as u16);
    let qp = ((frame[97] as u32) << 16) | ((frame[98] as u32) << 8) | (frame[99] as u32);
    let opcode = frame[92];
    let seqn = ((frame[101] as u32) << 16) | ((frame[102] as u32) << 8) | (frame[103] as u32);
    proof {
        lemma_u24_bound(frame@[97], frame@[98], frame@[99]);
        lemma_u24_bound(frame@[101], frame@[102], frame@[103]);
        assert(inner_spec[47] == frame@[97] && inner_spec[48] == frame@[98] && inner_spec[49]
            == frame@[99]);
        assert(inner_spec[42] == frame@[92]);
        assert(inner_spec[51] == frame@[101] && inner_spec[52] == frame@[102] && inner_spec[53]
            == frame@[103]);
        assert(spec_frame_spray(frame@).orig_src_port == be16(frame@[42], frame@[43]));
    }
    let n = frame.len();
    let mut data: Vec<u8> = Vec::new();
    let mut k: usize = 50;
    while k < n
        invariant
            50 <= k <= n,
            n == frame@.len(),
            data@.len() == k - 50,
            forall|i: int| 0 <= i < k - 50 ==> (#[trigger] data@[i]) == frame@[50 + i],
        decreases n - k,
    {
        data.push(frame[k]);
        k += 1;
    }
    data[34] = (orig_port >> 8) as u8;
    data[35] = orig_port as u8;
    data[40] = 0u8;
    data[41] = 0u8;
    proof {
        assert(data@ =~= spec_restored(frame@));
    }
    DecapResult::Inner(Packet { qp, opcode, seq: seqn, data })
}

/// What handing one frame to the receiver yields.
#[derive(Debug)]
pub enum ReceiveOutcome {
    /// Not a sprayed frame: the input, byte-for-byte unchanged; the
    /// receiver untouched.
    PassThrough(Vec<u8>),
    /// The packets forwarded on this arrival, in forwarding order —
    /// empty when the inner packet was out of order and is now buffered.
    Delivered(Vec<Packet>),
}

/// The whole ingress step for one received frame: strip the tunnel and
/// classify the inner packet, forwarding it and everything it unblocks,
/// or buffering it out of order.
pub fn receive_frame(rx: &mut Receiver, frame: Vec<u8>) -> (r: ReceiveOutcome)
    requires
        old(rx).wf(),
    ensures
        final(rx).wf(),
        !spec_is_sprayed(frame@) ==> r == ReceiveOutcome::PassThrough(frame) && final(rx).states()
            == old(rx).states() && final(rx).buffered() == old(rx).buffered(),
        spec_is_sprayed(frame@) ==> (r matches ReceiveOutcome::Delivered(fwd) && exists|p: Packet|
            p.qp == spec_qpn(frame@.skip(50)) && p.opcode == spec_opcode(frame@.skip(50))
                && p.seq == spec_seq_num(frame@.skip(50)) && p.data@ == spec_restored(frame@)
                && #[trigger] spec_ingest(old(rx).states(), old(rx).buffered(), p) == (
            final(rx).states(),
            final(rx).buffered(),
            fwd@,
            )),
{
    match decap_packet(frame) {
        DecapResult::PassThrough(b) => ReceiveOutcome::PassThrough(b),
        DecapResult::Inner(p) => {
            let ghost pp = p;
            let fwd = rx.ingest(p);
            proof {
                assert(spec_ingest(old(rx).states(), old(rx).buffered(), pp) == (
                    final(rx).states(),
                    final(rx).buffered(),
                    fwd@,
                ));
            }
            ReceiveOutcome::Delivered(fwd)
        },
    }
}

} // verus!
