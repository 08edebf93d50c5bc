//! Traffic generation: build the Base Transport Header streams a test
//! sender emits, message by message, and the control record that frames
//! a run.

use vstd::prelude::*;
use crate::bth::BthHdr;
use crate::bth::OPCODE_FIRST;
use crate::bth::OPCODE_LAST;
use crate::bth::OPCODE_MIDDLE;

verus! {

/// The position of one packet within a message.
#[derive(Clone, Copy, Debug, PartialEq, Eq, Structural)]
pub enum BthSeqType {
    First,
    Middle,
    Last,
}

/// One packet of a scripted message: its position, its sequence number,
/// whether it is the final packet of the whole run, and whether it
/// belongs to the preamble.
#[derive(Clone, Copy, Debug, PartialEq, Eq, Structural)]
pub struct Sequence {
    pub sequence_type: BthSeqType,
    pub id: u32,
    pub last: bool,
    pub pre: bool,
}

/// A scripted message: the destination QP and its packets in order.
#[derive(Debug)]
pub struct Message {
    pub qp_id: u32,
    pub sequence: Vec<Sequence>,
}

/// The header one scripted packet becomes: first packets carry the
/// first opcode; last packets carry the last opcode, the
/// acknowledgement bit, and the final-run marker in the reserved byte
/// when they end the run.
pub open spec fn spec_bth_of(qp_id: u32, st: BthSeqType, seq: u32, last: bool) -> BthHdr {
    BthHdr {
        opcode: match st {
            BthSeqType::First => OPCODE_FIRST,
            BthSeqType::Middle => OPCODE_MIDDLE,
            BthSeqType::Last => OPCODE_LAST,
        },
        sol_event: 0,
        part_key: 65535,
        res: if st is Last && last {
            1
        } else {
            0
        },
        dest_qpn: qp_id,
        ack: if st is Last {
            128
        } else {
            0
        },
        psn_seq: seq,
    }
}

/// A scripted stream of headers toward one QP.
#[derive(Debug)]
pub struct BthSeq {
    pub messages: Vec<BthHdr>,
    pub qp_id: u32,
}

impl BthSeq {
    /// An empty stream toward one QP.
    pub fn new(qp_id: u32) -> (s: BthSeq)
        requires
            qp_id < 0x1000000,
        ensures
            s.qp_id == qp_id,
            s.messages@ == Seq::<BthHdr>::empty(),
    {
        BthSeq { messages: Vec::new(), qp_id }
    }

    /// Append the header of one scripted packet.
    #[allow(unused_variables)]
    pub fn add_msg(&mut self, bth_seq_type: BthSeqType, seq: u32, last: bool, pre: bool)
        requires
            old(self).qp_id < 0x1000000,
            seq < 0x1000000,
        ensures
            final(self).qp_id == old(self).qp_id,
            final(self).messages@ == old(self).messages@.push(
                spec_bth_of(old(self).qp_id, bth_seq_type, seq, last),
            ),
    {
        let hdr = BthHdr {
            opcode: match bth_seq_type {
                BthSeqType::First => OPCODE_FIRST,
                BthSeqType::Middle => OPCODE_MIDDLE,
                BthSeqType::Last => OPCODE_LAST,
            },
            sol_event: 0,
            part_key: 65535,
            res: if matches!(bth_seq_type, BthSeqType::Last) && last {
                1
            } else {
                0
            },
            dest_qpn: self.qp_id,
            ack: if matches!(bth_seq_type, BthSeqType::Last) {
                128
            } else {
                0
            },
            psn_seq: seq,
        };
        self.messages.push(hdr);
    }

    /// The headers of one whole scripted message, in order.
    pub fn from_message(message: &Message) -> (s: BthSeq)
        requires
            message.qp_id < 0x1000000,
            forall|i: int|
                0 <= i < message.sequence@.len() ==> (#[trigger] message.sequence@[i]).id
                    < 0x1000000,
        ensures
            s.qp_id == message.qp_id,
            s.messages@.len() == message.sequence@.len(),
            forall|i: int|
                0 <= i < message.sequence@.len() ==> (#[trigger] s.messages@[i]) == spec_bth_of(
                    message.qp_id,
                    message.sequence@[i].sequence_type,
                    message.sequence@[i].id,
                    message.sequence@[i].last,
                ),
    {
        let mut s = BthSeq::new(message.qp_id);
        let n = message.sequence.len();
        let mut i: usize = 0;
        while i < n
            invariant
                i <= n,
                n == message.sequence@.len(),
                s.qp_id == message.qp_id,
                message.qp_id < 0x1000000,
                forall|j: int|
                    0 <= j < n ==> (#[trigger] message.sequence@[j]).id < 0x1000000,
                s.messages@.len() == i,
                forall|j: int|
                    0 <= j < i ==> (#[trigger] s.messages@[j]) == spec_bth_of(
                        message.qp_id,
                        message.sequence@[j].sequence_type,
                        message.sequence@[j].id,
                        message.sequence@[j].last,
                    ),
            decreases n - i,
        {
            let sq = message.sequence[i];
            s.add_msg(sq.sequence_type, sq.id, sq.last, sq.pre);
            i += 1;
        }
        s
    }
}

/// The scripted position of packet `k` of a run of `packets`-long
/// messages: each message opens with a first packet and closes with a
/// last packet.
pub open spec fn spec_run_type(k: int, packets: int) -> BthSeqType {
    if k % packets == 0 {
        BthSeqType::First
    } else if k % packets == packets - 1 {
        BthSeqType::Last
    } else {
        BthSeqType::Middle
    }
}

/// Build the headers of a whole run: `messages` messages of `packets`
/// packets each toward one QP, with consecutive sequence numbers from
/// `start` on, the very last packet carrying the final-run marker.
pub fn build_run(messages: u32, packets: u32, qpid: u32, start: u32) -> (r: Vec<BthHdr>)
    requires
        qpid < 0x1000000,
        packets > 0,
        messages * packets <= 0x100000,
        start + messages * packets <= 0x1000000,
    ensures
        r@.len() == messages * packets,
        forall|k: int|
            0 <= k < r@.len() ==> (#[trigger] r@[k]) == spec_bth_of(
                qpid,
                spec_run_type(k, packets as int),
                (start + k) as u32,
                k == messages * packets - 1,
            ),
{
    let total: u32 = messages * packets;
    let mut r: Vec<BthHdr> = Vec::new();
    let mut i: u32 = 0;
    while i < messages
        invariant
            i <= messages,
            total == messages * packets,
            qpid < 0x1000000,
            packets > 0,
            messages * packets <= 0x100000,
            start + messages * packets <= 0x1000000,
            r@.len() == i * packets,
            forall|k: int|
                0 <= k < r@.len() ==> (#[trigger] r@[k]) == spec_bth_of(
                    qpid,
                    spec_run_type(k, packets as int),
                    (start + k) as u32,
                    k == messages * packets - 1,
                ),
        decreases messages - i,
    {
        let mut j: u32 = 0;
        proof {
            assert(i * packets + packets == (i + 1) * packets && (i + 1) * packets <= messages
                * packets) by (nonlinear_arith)
                requires
                    i < messages,
                    packets > 0,
            ;
        }
        while j < packets
            invariant
                j <= packets,
                i < messages,
                total == messages * packets,
                qpid < 0x1000000,
                packets > 0,
                messages * packets <= 0x100000,
                start + messages * packets <= 0x1000000,
                i * packets + packets <= messages * packets,
                r@.len() == i * packets + j,
                forall|k: int|
                    0 <= k < r@.len() ==> (#[trigger] r@[k]) == spec_bth_of(
                        qpid,
                        spec_run_type(k, packets as int),
                        (start + k) as u32,
                        k == messages * packets - 1,
                    ),
            decreases packets - j,
        {
            let st = if j == 0 {
                BthSeqType::First
            } else if j == packets - 1 {
                BthSeqType::Last
            } else {
                BthSeqType::Middle
            };
            let ghost k = r@.len() as int;
            let seqn: u32 = start + i * packets + j;
            let is_run_last = i == messages - 1 && j == packets - 1;
            proof {
                assert(k == i * packets + j);
                assert(k % (packets as int) == j && spec_run_type(k, packets as int) == (
                if j == 0 {
                    BthSeqType::First
                } else if j == packets - 1 {
                    BthSeqType::Last
                } else {
                    BthSeqType::Middle
                })) by (nonlinear_arith)
                    requires
                        k == i * packets + j,
                        0 <= j < packets,
                        packets > 0,
                ;
                assert((k == messages * packets - 1) <==> (i == messages - 1 && j == packets
                    - 1)) by (nonlinear_arith)
                    requires
                        k == i * packets + j,
                        0 <= j < packets,
                        0 <= i < messages,
                        packets > 0,
                ;
            }
            let hdr = BthHdr {
                opcode: match st {
                    BthSeqType::First => OPCODE_FIRST,
                    BthSeqType::Middle => OPCODE_MIDDLE,
                    BthSeqType::Last => OPCODE_LAST,
                },
                sol_event: 0,
                part_key: 65535,
                res: if matches!(st, BthSeqType::Last) && is_run_last {
                    1
                } else {
                    0
                },
                dest_qpn: qpid,
                ack: if matches!(st, BthSeqType::Last) {
                    128
                } else {
                    0
                },
                psn_seq: seqn,
            };
            r.push(hdr);
            j += 1;
        }
        proof {
            assert(i * packets + packets == (i + 1) * packets) by (nonlinear_arith);
        }
        i += 1;
    }
    proof {
        assert(r@.len() == messages * packets);
    }
    r
}

/// The control record a test sender frames a run with: how many packets
/// the run holds, its first and last sequence numbers, the QP, and
/// whether this marks the start or the end of the run.
#[derive(Clone, Copy, Debug, PartialEq, Eq, Structural)]
pub struct CtrlSequence {
    pub num_packet: u32,
    pub first: u32,
    pub last: u32,
    pub qp_id: u32,
    pub start_end: u8,
}

impl CtrlSequence {
    /// The twelve bytes of the record that go on the wire: the packet
    /// count and both sequence bounds, each little-endian.
    pub fn to_bytes(&self) -> (r: Vec<u8>)
        ensures
            r@ == seq![
                self.num_packet as u8,
                (self.num_packet >> 8) as u8,
                (self.num_packet >> 16) as u8,
                (self.num_packet >> 24) as u8,
                self.first as u8,
                (self.first >> 8) as u8,
                (self.first >> 16) as u8,
                (self.first >> 24) as u8,
                self.last as u8,
                (self.last >> 8) as u8,
                (self.last >> 16) as u8,
                (self.last >> 24) as u8,
            ],
    {
        let mut v: Vec<u8> = Vec::new();
        v.push(self.num_packet as u8);
        v.push((self.num_packet >> 8) as u8);
        v.push((self.num_packet >> 16) as u8);
        v.push((self.num_packet >> 24) as u8);
        v.push(self.first as u8);
        v.push((self.first >> 8) as u8);
        v.push((self.first >> 16) as u8);
        v.push((self.first >> 24) as u8);
        v.push(self.last as u8);
        v.push((self.last >> 8) as u8);
        v.push((self.last >> 16) as u8);
        v.push((self.last >> 24) as u8);
        proof {
            assert(v@ =~= seq![
                self.num_packet as u8,
                (self.num_packet >> 8) as u8,
                (self.num_packet >> 16) as u8,
                (self.num_packet >> 24) as u8,
                self.first as u8,
                (self.first >> 8) as u8,
                (self.first >> 16) as u8,
                (self.first >> 24) as u8,
                self.last as u8,
                (self.last >> 8) as u8,
                (self.last >> 16) as u8,
                (self.last >> 24) as u8,
            ]);
        }
        v
    }
}

} // verus!
