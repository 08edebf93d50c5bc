//! The ingress side of spraying: the admission classifier (fast path) and
//! the reorder engine (slow path) joined over one per-QP tracker and one
//! reorder buffer.
//!
//! An arriving packet bearing exactly the expected sequence number of its
//! QP is forwarded at once, and the engine then drains every buffered
//! packet whose turn has come, in sequence order. Any other packet is
//! buffered under its (QP, sequence) key and the tracker is left alone.

use vstd::prelude::*;
use crate::bth::OPCODE_LAST;
use crate::reorder::Packet;
use crate::reorder::ReorderBuffer;
use crate::tracker::Admission;
use crate::tracker::QpState;
use crate::tracker::Tracker;
use crate::tracker::spec_qp_step;
use crate::tracker::spec_state;

verus! {

/// The packets of one QP currently buffered, keyed by sequence number
/// alone.
pub open spec fn qp_buf(b: Map<(u32, u32), Packet>, qp: u32) -> Map<u32, Packet> {
    Map::new(|s: u32| b.contains_key((qp, s)), |s: u32| b[(qp, s)])
}

/// The whole buffer with the entries of one QP replaced by `qb`.
pub open spec fn with_qp_buf(
    b: Map<(u32, u32), Packet>,
    qp: u32,
    qb: Map<u32, Packet>,
) -> Map<(u32, u32), Packet> {
    Map::new(
        |k: (u32, u32)| if k.0 == qp { qb.contains_key(k.1) } else { b.contains_key(k) },
        |k: (u32, u32)| if k.0 == qp { qb[k.1] } else { b[k] },
    )
}

/// What one drain pass over one QP's buffered packets yields: starting
/// from expected sequence `next`, every buffered packet whose sequence is
/// exactly the running expectation is removed and emitted, in order; a
/// last-opcode packet closes the message and stops the drain. The result
/// is the QP state after the drain, the remaining buffered packets, and
/// the emitted packets.
pub open spec fn spec_drain(next: u32, buf: Map<u32, Packet>) -> (QpState, Map<u32, Packet>, Seq<
    Packet,
>)
    decreases 0x1000000 - next,
{
    if next < 0x1000000 && buf.contains_key(next) {
        let p = buf[next];
        if p.opcode == OPCODE_LAST {
            (QpState::Idle, buf.remove(next), seq![p])
        } else {
            let r = spec_drain((next + 1) as u32, buf.remove(next));
            (r.0, r.1, seq![p] + r.2)
        }
    } else {
        (QpState::InMessage { next_expected: next }, buf, Seq::<Packet>::empty())
    }
}

/// What ingesting one packet does to the tracker map, the buffer map and
/// the egress: an out-of-order packet is buffered; an in-order packet is
/// emitted and, unless it closed its message, followed by the drain of its
/// QP's buffered packets.
pub open spec fn spec_ingest(
    tm: Map<u32, QpState>,
    bm: Map<(u32, u32), Packet>,
    p: Packet,
) -> (Map<u32, QpState>, Map<(u32, u32), Packet>, Seq<Packet>) {
    let (st1, adm) = spec_qp_step(spec_state(tm, p.qp), p.opcode, p.seq);
    if adm == Admission::OutOfOrder {
        (tm, bm.insert((p.qp, p.seq), p), Seq::<Packet>::empty())
    } else {
        match st1 {
            QpState::Idle => (tm.insert(p.qp, QpState::Idle), bm, seq![p]),
            QpState::InMessage { next_expected } => {
                let r = spec_drain(next_expected, qp_buf(bm, p.qp));
                (tm.insert(p.qp, r.0), with_qp_buf(bm, p.qp, r.1), seq![p] + r.2)
            },
        }
    }
}

/// Ingesting a whole arrival sequence, front first, concatenating the
/// egress of each step.
pub open spec fn spec_ingest_all(
    tm: Map<u32, QpState>,
    bm: Map<(u32, u32), Packet>,
    pkts: Seq<Packet>,
) -> (Map<u32, QpState>, Map<(u32, u32), Packet>, Seq<Packet>)
    decreases pkts.len(),
{
    if pkts.len() == 0 {
        (tm, bm, Seq::<Packet>::empty())
    } else {
        let r1 = spec_ingest(tm, bm, pkts[0]);
        let r2 = spec_ingest_all(r1.0, r1.1, pkts.skip(1));
        (r2.0, r2.1, r1.2 + r2.2)
    }
}

/// Removing one key of one QP from the whole buffer projects to removing
/// that sequence from the QP's own buffer, and touches no other QP.
proof fn lemma_qp_buf_remove(b: Map<(u32, u32), Packet>, qp: u32, s: u32)
    ensures
        qp_buf(b.remove((qp, s)), qp) == qp_buf(b, qp).remove(s),
        forall|k: (u32, u32)|
            k.0 != qp ==> (b.remove((qp, s)).contains_key(k) <==> b.contains_key(k)),
        forall|k: (u32, u32)|
            k.0 != qp && b.contains_key(k) ==> b.remove((qp, s))[k] == b[k],
{
    assert(qp_buf(b.remove((qp, s)), qp) =~= qp_buf(b, qp).remove(s));
}

/// The decapsulator's admission classifier and the reorder engine over
/// shared per-QP state: the receiving half of the sprayer.
pub struct Receiver {
    tracker: Tracker,
    buffer: ReorderBuffer,
}

impl Receiver {
    /// The abstract per-QP tracking states.
    pub closed spec fn states(&self) -> Map<u32, QpState> {
        self.tracker@
    }

    /// The abstract buffered-packet map.
    pub closed spec fn buffered(&self) -> Map<(u32, u32), Packet> {
        self.buffer@
    }

    /// Both underlying stores are well-formed.
    pub closed spec fn wf(&self) -> bool {
        self.tracker.wf() && self.buffer.wf()
    }

    /// A fresh receiver: every QP idle, nothing buffered.
    pub fn new() -> (r: Receiver)
        ensures
            r.wf(),
            r.states() == Map::<u32, QpState>::empty(),
            r.buffered() == Map::<(u32, u32), Packet>::empty(),
    {
        Receiver { tracker: Tracker::new(), buffer: ReorderBuffer::new() }
    }

    /// How many packets wait in the reorder buffer.
    pub fn buffered_count(&self) -> (n: usize)
        requires
            self.wf(),
        ensures
            n == self.buffered().dom().len(),
    {
        self.buffer.count()
    }

    /// The tracking state of one QP.
    pub fn qp_state(&self, qp: u32) -> (st: QpState)
        requires
            self.wf(),
        ensures
            st == spec_state(self.states(), qp),
    {
        self.tracker.state_of(qp)
    }

    /// Take delivery of one decapsulated packet: forward it at once if it
    /// is in order, together with every buffered packet whose turn its
    /// arrival opens, in strictly increasing sequence order; buffer it
    /// otherwise. Exactly [`spec_ingest`] on the receiver's maps.
    pub fn ingest(&mut self, p: Packet) -> (fwd: Vec<Packet>)
        requires
            old(self).wf(),
            p.wf(),
        ensures
            final(self).wf(),
            (final(self).states(), final(self).buffered(), fwd@) == spec_ingest(
                old(self).states(),
                old(self).buffered(),
                p,
            ),
    {
        let ghost tm0 = self.tracker@;
        let ghost bm0 = self.buffer@;
        let qp = p.qp;
        let ghost pp = p;
        let opcode = p.opcode;
        let seq = p.seq;
        let adm = self.tracker.observe(qp, opcode, seq);
        match adm {
            Admission::OutOfOrder => {
                self.buffer.insert(p);
                let fwd: Vec<Packet> = Vec::new();
                fwd
            },
            Admission::Forward => {
                let st1 = self.tracker.state_of(qp);
                let mut fwd: Vec<Packet> = Vec::new();
                fwd.push(p);
                match st1 {
                    QpState::Idle => {
                        assert(fwd@ =~= seq![pp]);
                        fwd
                    },
                    QpState::InMessage { next_expected } => {
                        let ghost full = spec_drain(next_expected, qp_buf(bm0, qp));
                        let mut next = next_expected;
                        assert(fwd@.subrange(1, fwd@.len() as int) =~= Seq::<Packet>::empty());
                        loop
                            invariant_except_break
                                self.wf(),
                                self.tracker@ == tm0.insert(
                                    qp,
                                    QpState::InMessage { next_expected },
                                ),
                                next <= 0x1000000,
                                fwd@.len() >= 1,
                                fwd@[0] == pp,
                                ({
                                    let cur = spec_drain(next, qp_buf(self.buffer@, qp));
                                    cur.0 == full.0 && cur.1 == full.1 && full.2 == fwd@.subrange(
                                        1,
                                        fwd@.len() as int,
                                    ) + cur.2
                                }),
                                forall|k: (u32, u32)|
                                    k.0 != qp ==> (self.buffer@.contains_key(k)
                                        <==> bm0.contains_key(k)),
                                forall|k: (u32, u32)|
                                    k.0 != qp && bm0.contains_key(k) ==> self.buffer@[k] == bm0[k],
                            ensures
                                self.wf(),
                                self.tracker@ == tm0.insert(qp, full.0),
                                qp_buf(self.buffer@, qp) == full.1,
                                fwd@ == seq![pp] + full.2,
                                forall|k: (u32, u32)|
                                    k.0 != qp ==> (self.buffer@.contains_key(k)
                                        <==> bm0.contains_key(k)),
                                forall|k: (u32, u32)|
                                    k.0 != qp && bm0.contains_key(k) ==> self.buffer@[k] == bm0[k],
                            decreases 0x1000000 - next,
                        {
                            let ghost bm_pre = self.buffer@;
                            let ghost cur = spec_drain(next, qp_buf(bm_pre, qp));
                            match self.buffer.remove(qp, next) {
                                None => {
                                    proof {
                                        assert(!qp_buf(bm_pre, qp).contains_key(next));
                                        assert(cur.2 == Seq::<Packet>::empty());
                                        assert(fwd@ =~= seq![pp] + full.2);
                                    }
                                    self.tracker.set(
                                        qp,
                                        QpState::InMessage { next_expected: next },
                                    );
                                    proof {
                                        assert(self.tracker@ =~= tm0.insert(qp, full.0));
                                    }
                                    break ;
                                },
                                Some(q) => {
                                    proof {
                                        lemma_qp_buf_remove(bm_pre, qp, next);
                                        assert(qp_buf(bm_pre, qp).contains_key(next));
                                        assert(qp_buf(bm_pre, qp)[next] == q);
                                    }
                                    if q.opcode == OPCODE_LAST {
                                        proof {
                                            assert(cur.0 == QpState::Idle && cur.2 =~= seq![q]);
                                        }
                                        fwd.push(q);
                                        proof {
                                            assert(fwd@ =~= seq![pp] + full.2);
                                        }
                                        self.tracker.set(qp, QpState::Idle);
                                        proof {
                                            assert(self.tracker@ =~= tm0.insert(qp, full.0));
                                            assert(qp_buf(self.buffer@, qp) == cur.1);
                                        }
                                        break ;
                                    } else {
                                        let ghost fwd_pre = fwd@;
                                        fwd.push(q);
                                        proof {
                                            let nxt = spec_drain(
                                                (next + 1) as u32,
                                                qp_buf(bm_pre, qp).remove(next),
                                            );
                                            assert(cur.0 == nxt.0 && cur.1 == nxt.1 && cur.2
                                                == seq![q] + nxt.2);
                                            assert(fwd@.subrange(1, fwd@.len() as int)
                                                =~= fwd_pre.subrange(1, fwd_pre.len() as int)
                                                + seq![q]);
                                            assert(full.2 =~= fwd@.subrange(1, fwd@.len() as int)
                                                + nxt.2);
                                        }
                                        next = next + 1;
                                    }
                                },
                            }
                        }
                        proof {
                            assert(self.buffer@ =~= with_qp_buf(bm0, qp, full.1));
                        }
                        fwd
                    },
                }
            },
        }
    }

    /// One batch iteration of the reorder engine: take delivery of a batch
    /// of decapsulated packets, front first, and return everything
    /// forwarded, in forwarding order. Exactly [`spec_ingest_all`] on the
    /// receiver's maps.
    pub fn process_batch(&mut self, pkts: Vec<Packet>) -> (out: Vec<Packet>)
        requires
            old(self).wf(),
            forall|i: int| 0 <= i < pkts@.len() ==> (#[trigger] pkts@[i]).wf(),
        ensures
            final(self).wf(),
            (final(self).states(), final(self).buffered(), out@) == spec_ingest_all(
                old(self).states(),
                old(self).buffered(),
                pkts@,
            ),
    {
        let ghost tm0 = self.states();
        let ghost bm0 = self.buffered();
        let ghost pkts0 = pkts@;
        let ghost full = spec_ingest_all(tm0, bm0, pkts0);
        let mut rest = pkts;
        let mut out: Vec<Packet> = Vec::new();
        assert(out@ + spec_ingest_all(tm0, bm0, rest@).2 =~= full.2);
        while rest.len() > 0
            invariant
                self.wf(),
                forall|i: int| 0 <= i < rest@.len() ==> (#[trigger] rest@[i]).wf(),
                ({
                    let cur = spec_ingest_all(self.states(), self.buffered(), rest@);
                    cur.0 == full.0 && cur.1 == full.1 && full.2 == out@ + cur.2
                }),
            decreases rest@.len(),
        {
            let ghost rest_pre = rest@;
            let ghost st_pre = self.states();
            let ghost bm_pre = self.buffered();
            let p = rest.remove(0);
            assert(rest@ =~= rest_pre.skip(1));
            let mut f = self.ingest(p);
            let ghost out_pre = out@;
            out.append(&mut f);
            proof {
                let r1 = spec_ingest(st_pre, bm_pre, rest_pre[0]);
                let r2 = spec_ingest_all(r1.0, r1.1, rest_pre.skip(1));
                assert(full.2 =~= out@ + r2.2);
            }
        }
        assert(out@ =~= full.2);
        out
    }
}

} // verus!
