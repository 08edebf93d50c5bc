//! Delivery-order guarantees of the receiver: packets of one QP leave in
//! strictly increasing sequence order, exactly once each, however they
//! arrived.
//!
//! [`lemma_reorder_correct`] states reordering correctness: feeding any
//! permutation of a contiguous run to the receiver emits the run in
//! order, exactly once each, with nothing left buffered.
//! [`lemma_in_order_passthrough`] specialises it: an already ordered run
//! passes through unchanged.

use vstd::prelude::*;
use crate::bth::OPCODE_FIRST;
use crate::bth::OPCODE_LAST;
use crate::reorder::Packet;
use crate::tracker::Admission;
use crate::tracker::QpState;
use crate::tracker::spec_qp_step;
use crate::tracker::spec_state;
use crate::receiver::qp_buf;
use crate::receiver::spec_drain;
use crate::receiver::spec_ingest;
use crate::receiver::spec_ingest_all;
use crate::receiver::with_qp_buf;

verus! {

/// `p` is one of the packets of `s`.
pub open spec fn occurs_in(p: Packet, s: Seq<Packet>) -> bool {
    exists|j: int| 0 <= j < s.len() && s[j] == p
}

/// Some packet of `arr` bears sequence number `x`.
pub open spec fn has_seq(arr: Seq<Packet>, x: int) -> bool {
    exists|j: int| 0 <= j < arr.len() && (#[trigger] arr[j]).seq == x
}

/// The packet at any position of a drain's output is the buffered packet
/// at the corresponding consecutive sequence number.
pub proof fn lemma_drain_at(next: u32, buf: Map<u32, Packet>, i: int)
    requires
        forall|s2: u32| #[trigger] buf.contains_key(s2) ==> buf[s2].seq == s2 && s2 < 0x1000000,
        0 <= i < spec_drain(next, buf).2.len(),
    ensures
        buf.contains_key((next + i) as u32),
        spec_drain(next, buf).2[i] == buf[(next + i) as u32],
    decreases 0x1000000 - next,
{
    let r = spec_drain(next, buf);
    let p = buf[next];
    if p.opcode == OPCODE_LAST {
        assert(i == 0);
        assert((next + 0) as u32 == next);
    } else {
        if i == 0 {
            assert((next + 0) as u32 == next);
        } else {
            lemma_drain_at((next + 1) as u32, buf.remove(next), i - 1);
            let rr = spec_drain((next + 1) as u32, buf.remove(next));
            assert(r.2 == seq![p] + rr.2);
            assert(r.2[i] == rr.2[i - 1]);
            assert((((next + 1) as u32) + (i - 1)) as u32 == (next + i) as u32);
        }
    }
}

/// What one drain pass emits and leaves behind: the output stays within
/// the 24-bit sequence space, the rest of the buffer is untouched, and
/// the state after the drain is `Idle` exactly when a last-opcode packet
/// ended it; otherwise the drain went on to the first gap.
pub proof fn lemma_drain_props(next: u32, buf: Map<u32, Packet>)
    requires
        forall|s2: u32| #[trigger] buf.contains_key(s2) ==> buf[s2].seq == s2 && s2 < 0x1000000,
    ensures
        ({
            let r = spec_drain(next, buf);
            &&& (r.2.len() == 0 || next + r.2.len() <= 0x1000000)
            &&& forall|s2: u32|
                #[trigger] r.1.contains_key(s2) <==> buf.contains_key(s2) && !(next <= s2 < next
                    + r.2.len())
            &&& forall|s2: u32| #[trigger] r.1.contains_key(s2) ==> r.1[s2] == buf[s2]
            &&& ((r.0 == QpState::Idle) <==> (r.2.len() > 0 && r.2.last().opcode == OPCODE_LAST))
            &&& (r.0 is InMessage ==> r.0 == (QpState::InMessage {
                next_expected: (next + r.2.len()) as u32,
            }) && !buf.contains_key((next + r.2.len()) as u32))
        }),
    decreases 0x1000000 - next,
{
    let r = spec_drain(next, buf);
    if next < 0x1000000 && buf.contains_key(next) {
        let p = buf[next];
        if p.opcode == OPCODE_LAST {
            assert(r.2 == seq![p]);
            assert(r.2.last() == p);
        } else {
            lemma_drain_props((next + 1) as u32, buf.remove(next));
            let rr = spec_drain((next + 1) as u32, buf.remove(next));
            assert(r.2 == seq![p] + rr.2);
            assert(r.2[0] == p);
            assert forall|s2: u32|
                #[trigger] r.1.contains_key(s2) <==> buf.contains_key(s2) && !(next <= s2 < next
                    + r.2.len()) by {
                assert(r.1.contains_key(s2) <==> buf.remove(next).contains_key(s2) && !((next
                    + 1) as u32 <= s2 < ((next + 1) as u32) + rr.2.len()));
            }
            if rr.2.len() == 0 {
                assert(r.2.last() == p);
            } else {
                assert(r.2.last() == rr.2.last());
            }
            if r.0 is InMessage {
                assert(rr.0 == (QpState::InMessage {
                    next_expected: (((next + 1) as u32) + rr.2.len()) as u32,
                }));
                assert((((next + 1) as u32) + rr.2.len()) as u32 == (next + r.2.len()) as u32);
            }
        }
    } else {
        assert(r.2.len() == 0);
        if next < 0x1000000 {
            assert(!buf.contains_key(next));
        } else {
            assert(!buf.contains_key((next + 0) as u32)) by {
                assert(forall|s2: u32| #[trigger] buf.contains_key(s2) ==> s2 < 0x1000000);
            }
        }
    }
}

/// A packet of `arr` is still a packet of `arr` extended by one.
proof fn lemma_occurs_push(x: Packet, arr: Seq<Packet>, p: Packet)
    requires
        occurs_in(x, arr),
    ensures
        occurs_in(x, arr.push(p)),
{
    let j = choose|j: int| 0 <= j < arr.len() && arr[j] == x;
    assert(arr.push(p)[j] == x);
}

/// The arrivals seen so far are some packets of one contiguous run of
/// sequence numbers `[s, s + n]` for QP `qp`: the first-opcode packet is
/// exactly the one at `s`, a last-opcode packet can only sit at `s + n`,
/// and no sequence number repeats.
pub open spec fn is_partial_run(arr: Seq<Packet>, qp: u32, s: u32, n: nat) -> bool {
    &&& qp < 0x1000000
    &&& s + n < 0x1000000
    &&& arr.len() <= n + 1
    &&& forall|i: int| 0 <= i < arr.len() ==> (#[trigger] arr[i]).qp == qp
    &&& forall|i: int| 0 <= i < arr.len() ==> s <= (#[trigger] arr[i]).seq <= s + n
    &&& forall|i: int, j: int|
        0 <= i < j < arr.len() ==> (#[trigger] arr[i]).seq != (#[trigger] arr[j]).seq
    &&& forall|i: int|
        0 <= i < arr.len() ==> (((#[trigger] arr[i]).opcode == OPCODE_FIRST) <==> arr[i].seq
            == s)
    &&& forall|i: int|
        0 <= i < arr.len() ==> (((#[trigger] arr[i]).opcode == OPCODE_LAST) ==> arr[i].seq == s
            + n)
}

/// A complete arrival: every packet of the run `[s, s + n]`, in some
/// order.
pub open spec fn is_run_arrival(pkts: Seq<Packet>, qp: u32, s: u32, n: nat) -> bool {
    is_partial_run(pkts, qp, s, n) && pkts.len() == n + 1
}

/// The receiver's invariant while one run arrives: the packets emitted so
/// far are exactly the arrivals with the sequence numbers `[s, s +
/// egress.len())`, in order; every other arrival waits in the buffer
/// under its own key; and the tracker expects exactly the first sequence
/// number not yet emitted, which is not buffered, unless the run was
/// closed by its last packet.
pub open spec fn run_inv(
    tm: Map<u32, QpState>,
    bm: Map<(u32, u32), Packet>,
    egress: Seq<Packet>,
    arr: Seq<Packet>,
    qp: u32,
    s: u32,
    n: nat,
) -> bool {
    let e = s + egress.len();
    &&& egress.len() <= n + 1
    &&& (has_seq(arr, s as int) <==> egress.len() > 0)
    &&& forall|k: (u32, u32)|
        #[trigger] bm.contains_key(k) ==> k.0 == qp && bm[k].qp == qp && bm[k].seq == k.1
            && occurs_in(bm[k], arr) && e <= k.1
    &&& forall|j: int|
        #![trigger arr[j]]
        0 <= j < arr.len() ==> (if arr[j].seq < e {
            egress[arr[j].seq - s] == arr[j]
        } else {
            bm.contains_key((qp, arr[j].seq)) && bm[(qp, arr[j].seq)] == arr[j]
        })
    &&& forall|i: int|
        0 <= i < egress.len() ==> (#[trigger] egress[i]).seq == s + i && egress[i].qp == qp
            && occurs_in(egress[i], arr)
    &&& (if egress.len() == 0 {
        spec_state(tm, qp) == QpState::Idle
    } else {
        ||| (spec_state(tm, qp) == (QpState::InMessage { next_expected: e as u32 })
            && !bm.contains_key((qp, e as u32)))
        ||| (spec_state(tm, qp) == QpState::Idle && e == s + n + 1 && egress.last().opcode
            == OPCODE_LAST)
    })
}

/// Ingesting a sequence and then one more packet is ingesting the
/// extended sequence.
pub proof fn lemma_ingest_all_snoc(
    tm: Map<u32, QpState>,
    bm: Map<(u32, u32), Packet>,
    s: Seq<Packet>,
    p: Packet,
)
    ensures
        spec_ingest_all(tm, bm, s.push(p)) == ({
            let r = spec_ingest_all(tm, bm, s);
            let r2 = spec_ingest(r.0, r.1, p);
            (r2.0, r2.1, r.2 + r2.2)
        }),
    decreases s.len(),
{
    let r = spec_ingest_all(tm, bm, s);
    let r2 = spec_ingest(r.0, r.1, p);
    if s.len() == 0 {
        let q = s.push(p);
        assert(q[0] == p);
        assert(q.skip(1) =~= Seq::<Packet>::empty());
        let ri = spec_ingest(tm, bm, p);
        assert(spec_ingest_all(ri.0, ri.1, q.skip(1)) == (ri.0, ri.1, Seq::<Packet>::empty()));
        assert(spec_ingest_all(tm, bm, q).0 == ri.0);
        assert(spec_ingest_all(tm, bm, q).1 == ri.1);
        assert(spec_ingest_all(tm, bm, q).2 == ri.2 + Seq::<Packet>::empty());
        assert(ri.2 + Seq::<Packet>::empty() =~= ri.2);
        assert(r == (tm, bm, Seq::<Packet>::empty()));
        assert(r.2 + r2.2 =~= r2.2);
    } else {
        let r1 = spec_ingest(tm, bm, s[0]);
        assert(s.push(p)[0] == s[0]);
        assert(s.push(p).skip(1) =~= s.skip(1).push(p));
        lemma_ingest_all_snoc(r1.0, r1.1, s.skip(1), p);
        let rs = spec_ingest_all(r1.0, r1.1, s.skip(1));
        assert(spec_ingest_all(tm, bm, s.push(p)).2 =~= r.2 + r2.2) by {
            assert(spec_ingest_all(tm, bm, s.push(p)).2 == r1.2 + (rs.2 + r2.2));
            assert(r.2 == r1.2 + rs.2);
        }
    }
}

/// The invariant survives an in-order arrival that does not close the
/// message: the packet bearing exactly the next expected sequence number
/// is emitted, the buffered packets at the sequence numbers right after
/// it are drained behind it, and the tracker moves to the first gap.
#[verifier::rlimit(100)]
proof fn lemma_forward_drain(
    tm: Map<u32, QpState>,
    bm: Map<(u32, u32), Packet>,
    egress: Seq<Packet>,
    arr: Seq<Packet>,
    p: Packet,
    qp: u32,
    s: u32,
    n: nat,
)
    requires
        is_partial_run(arr.push(p), qp, s, n),
        run_inv(tm, bm, egress, arr, qp, s, n),
        p.seq == s + egress.len(),
        !bm.contains_key((qp, p.seq)),
        spec_qp_step(spec_state(tm, qp), p.opcode, p.seq) == (
            QpState::InMessage { next_expected: (p.seq + 1) as u32 },
            Admission::Forward,
        ),
    ensures
        ({
            let r = spec_ingest(tm, bm, p);
            run_inv(r.0, r.1, egress + r.2, arr.push(p), qp, s, n)
        }),
{
    let arr2 = arr.push(p);
    let e = s + egress.len() as int;
    let r = spec_ingest(tm, bm, p);
    let qb = qp_buf(bm, qp);
    assert(arr2[arr.len() as int] == p);
    assert(forall|j: int| 0 <= j < arr.len() ==> (#[trigger] arr2[j]) == arr[j]);
    assert forall|j: int| 0 <= j < arr.len() implies (#[trigger] arr[j]).seq != p.seq by {
        assert(arr2[j].seq != arr2[arr.len() as int].seq);
    }
    assert(p.qp == qp && s <= p.seq <= s + n);

    // the drain's input buffer is keyed by the packets' own sequence
    // numbers, all inside the 24-bit space
    assert forall|s2: u32| #[trigger] qb.contains_key(s2) implies qb[s2].seq == s2 && s2
        < 0x1000000 by {
        assert(bm.contains_key((qp, s2)));
        let q = bm[(qp, s2)];
        assert(occurs_in(q, arr));
        let j = choose|j: int| 0 <= j < arr.len() && arr[j] == q;
        assert(arr2[j] == arr[j]);
        assert(s <= arr2[j].seq <= s + n);
    }
    lemma_drain_props((p.seq + 1) as u32, qb);
    let d = spec_drain((p.seq + 1) as u32, qb);
    assert(r.0 == tm.insert(qp, d.0));
    assert(r.1 == with_qp_buf(bm, qp, d.1));
    assert(r.2 == seq![p] + d.2);
    let eg2 = egress + r.2;
    let e2 = e + 1 + d.2.len() as int;
    assert(eg2.len() == egress.len() + 1 + d.2.len());
    assert(d.2.len() == 0 || (p.seq + 1) + d.2.len() <= 0x1000000);

    // what each drained packet is: the buffered arrival at its slot
    assert forall|i: int| 0 <= i < d.2.len() implies qb.contains_key((e + 1 + i) as u32) && (
    #[trigger] d.2[i]) == qb[(e + 1 + i) as u32] && bm.contains_key((qp, (e + 1 + i) as u32))
        && d.2[i] == bm[(qp, (e + 1 + i) as u32)] && d.2[i].seq == e + 1 + i && d.2[i].qp == qp
        && occurs_in(d.2[i], arr2) by {
        lemma_drain_at((p.seq + 1) as u32, qb, i);
        assert((((p.seq + 1) as u32) + i) as u32 == (e + 1 + i) as u32);
        let k = (qp, (e + 1 + i) as u32);
        assert(bm.contains_key(k));
        assert(bm[k].seq == k.1);
        assert(e + 1 + i < 0x1000000);
        lemma_occurs_push(bm[k], arr, p);
    }

    // egress contents
    assert forall|i: int| 0 <= i < eg2.len() implies (#[trigger] eg2[i]).seq == s + i
        && eg2[i].qp == qp && occurs_in(eg2[i], arr2) by {
        if i < egress.len() {
            assert(eg2[i] == egress[i]);
            lemma_occurs_push(egress[i], arr, p);
        } else if i == egress.len() {
            assert(eg2[i] == p);
            assert(occurs_in(p, arr2)) by {
                assert(arr2[arr.len() as int] == p);
            }
        } else {
            let i2 = i - egress.len() - 1;
            assert(eg2[i] == d.2[i2]);
        }
    }

    // the emitted run cannot outgrow the arrival run
    assert(eg2.len() <= n + 1) by {
        if eg2.len() > n + 1 {
            let x = eg2[n + 1 as int];
            assert(x.seq == s + n + 1);
            let j = choose|j: int| 0 <= j < arr2.len() && arr2[j] == x;
            assert(s <= arr2[j].seq <= s + n);
            assert(false);
        }
    }

    // every arrival is accounted for exactly where the invariant says
    assert forall|j: int|
        #![trigger arr2[j]]
        0 <= j < arr2.len() implies (if arr2[j].seq < e2 {
        eg2[arr2[j].seq - s] == arr2[j]
    } else {
        r.1.contains_key((qp, arr2[j].seq)) && r.1[(qp, arr2[j].seq)] == arr2[j]
    }) by {
        if j == arr.len() {
            assert(arr2[j] == p);
            assert(p.seq - s == egress.len());
            assert(eg2[p.seq - s] == p);
        } else {
            let q = arr[j];
            assert(arr2[j] == q);
            if q.seq < e {
                assert(eg2[q.seq - s] == egress[q.seq - s]);
            } else {
                assert(bm.contains_key((qp, q.seq)) && bm[(qp, q.seq)] == q);
                assert(qb.contains_key(q.seq) && qb[q.seq] == q);
                assert(q.seq != p.seq);
                if q.seq < e2 {
                    let i2 = q.seq - e - 1;
                    assert((e + 1 + i2) as u32 == q.seq);
                    assert(d.2[i2] == bm[(qp, (e + 1 + i2) as u32)]);
                    assert(eg2[q.seq - s] == d.2[i2]);
                } else {
                    assert(!((p.seq + 1) as u32 <= q.seq < ((p.seq + 1) as u32)
                        + d.2.len()));
                    assert(d.1.contains_key(q.seq));
                    assert(d.1[q.seq] == qb[q.seq]);
                    assert(r.1.contains_key((qp, q.seq)));
                    assert(r.1[(qp, q.seq)] == q);
                }
            }
        }
    }

    // what stays buffered
    assert forall|k: (u32, u32)| #[trigger] r.1.contains_key(k) implies k.0 == qp && r.1[k].qp
        == qp && r.1[k].seq == k.1 && occurs_in(r.1[k], arr2) && e2 <= k.1 by {
        if k.0 != qp {
            assert(bm.contains_key(k));
            assert(false);
        } else {
            assert(d.1.contains_key(k.1));
            assert(qb.contains_key(k.1));
            assert(bm.contains_key((qp, k.1)));
            assert(r.1[k] == d.1[k.1]);
            assert(d.1[k.1] == qb[k.1]);
            lemma_occurs_push(bm[(qp, k.1)], arr, p);
            assert(k.1 != p.seq);
            assert(!((p.seq + 1) as u32 <= k.1 < ((p.seq + 1) as u32) + d.2.len()));
            assert(e <= k.1);
            assert(e2 <= k.1);
        }
    }

    // the tracker after the drain
    assert(spec_state(r.0, qp) == d.0);
    if d.0 is InMessage {
        assert(d.0 == (QpState::InMessage { next_expected: (((p.seq + 1) as u32)
            + d.2.len()) as u32 }));
        assert((((p.seq + 1) as u32) + d.2.len()) as u32 == e2 as u32);
        assert(!qb.contains_key((((p.seq + 1) as u32) + d.2.len()) as u32));
        assert(!r.1.contains_key((qp, e2 as u32)));
    } else {
        assert(d.2.len() > 0 && d.2.last().opcode == OPCODE_LAST);
        let x = d.2[d.2.len() - 1];
        assert(x.seq == e + 1 + (d.2.len() - 1));
        let j = choose|j: int| 0 <= j < arr2.len() && arr2[j] == x;
        assert(arr2[j].opcode == OPCODE_LAST);
        assert(arr2[j].seq == s + n);
        assert(e2 == s + n + 1);
        assert(eg2.last() == x);
    }

    // the first packet of the run has now arrived
    assert(has_seq(arr2, s as int)) by {
        if egress.len() == 0 {
            assert(arr2[arr.len() as int].seq == s);
        } else {
            let x = egress[0];
            let j = choose|j: int| 0 <= j < arr.len() && arr[j] == x;
            assert(arr2[j].seq == s);
        }
    }
}

/// The invariant survives an out-of-order arrival: the packet is stored
/// under its own key and nothing else moves.
#[verifier::rlimit(50)]
proof fn lemma_buffer_ooo(
    tm: Map<u32, QpState>,
    bm: Map<(u32, u32), Packet>,
    egress: Seq<Packet>,
    arr: Seq<Packet>,
    p: Packet,
    qp: u32,
    s: u32,
    n: nat,
)
    requires
        is_partial_run(arr.push(p), qp, s, n),
        run_inv(tm, bm, egress, arr, qp, s, n),
        s + egress.len() < p.seq,
        spec_qp_step(spec_state(tm, qp), p.opcode, p.seq) == (
            spec_state(tm, qp),
            Admission::OutOfOrder,
        ),
    ensures
        ({
            let r = spec_ingest(tm, bm, p);
            run_inv(r.0, r.1, egress + r.2, arr.push(p), qp, s, n)
        }),
{
    let arr2 = arr.push(p);
    let e = s + egress.len() as int;
    let r = spec_ingest(tm, bm, p);
    assert(arr2[arr.len() as int] == p);
    assert(forall|j: int| 0 <= j < arr.len() ==> (#[trigger] arr2[j]) == arr[j]);
    assert forall|j: int| 0 <= j < arr.len() implies (#[trigger] arr[j]).seq != p.seq by {
        assert(arr2[j].seq != arr2[arr.len() as int].seq);
    }
    assert(p.qp == qp && s <= p.seq <= s + n);
    assert(r.0 == tm && r.1 == bm.insert((qp, p.seq), p) && r.2 == Seq::<Packet>::empty());
    let eg2 = egress + r.2;
    assert(eg2 =~= egress);

    // the first packet's arrival status does not change
    assert(has_seq(arr2, s as int) <==> has_seq(arr, s as int)) by {
        if has_seq(arr2, s as int) {
            let j = choose|j: int| 0 <= j < arr2.len() && (#[trigger] arr2[j]).seq == s as int;
            assert(p.seq > e >= s);
            assert(j < arr.len());
            assert(arr[j].seq == s as int);
        }
        if has_seq(arr, s as int) {
            let j = choose|j: int| 0 <= j < arr.len() && (#[trigger] arr[j]).seq == s as int;
            assert(arr2[j].seq == s as int);
        }
    }

    // what is buffered afterwards
    assert forall|k: (u32, u32)| #[trigger] r.1.contains_key(k) implies k.0 == qp && r.1[k].qp
        == qp && r.1[k].seq == k.1 && occurs_in(r.1[k], arr2) && e <= k.1 by {
        if k == (qp, p.seq) {
            assert(r.1[k] == p);
            assert(occurs_in(p, arr2)) by {
                assert(arr2[arr.len() as int] == p);
            }
        } else {
            assert(bm.contains_key(k));
            assert(r.1[k] == bm[k]);
            lemma_occurs_push(bm[k], arr, p);
        }
    }

    // every arrival accounted for
    assert forall|j: int|
        #![trigger arr2[j]]
        0 <= j < arr2.len() implies (if arr2[j].seq < e {
        eg2[arr2[j].seq - s] == arr2[j]
    } else {
        r.1.contains_key((qp, arr2[j].seq)) && r.1[(qp, arr2[j].seq)] == arr2[j]
    }) by {
        if j == arr.len() {
            assert(arr2[j] == p);
            assert(r.1.contains_key((qp, p.seq)) && r.1[(qp, p.seq)] == p);
        } else {
            let q = arr[j];
            assert(arr2[j] == q);
            if q.seq < e {
            } else {
                assert(bm.contains_key((qp, q.seq)) && bm[(qp, q.seq)] == q);
                assert(q.seq != p.seq);
                assert(r.1.contains_key((qp, q.seq)) && r.1[(qp, q.seq)] == q);
            }
        }
    }

    // emitted packets unchanged, still arrivals
    assert forall|i: int| 0 <= i < eg2.len() implies (#[trigger] eg2[i]).seq == s + i
        && eg2[i].qp == qp && occurs_in(eg2[i], arr2) by {
        assert(eg2[i] == egress[i]);
        lemma_occurs_push(egress[i], arr, p);
    }

    // tracker untouched; a waiting expectation stays unburied
    if egress.len() > 0 {
        if spec_state(tm, qp) is InMessage {
            assert(spec_state(tm, qp) == (QpState::InMessage { next_expected: e as u32 })
                && !bm.contains_key((qp, e as u32)));
            assert(p.seq != e as u32);
            assert(!r.1.contains_key((qp, e as u32)));
        }
    }
}

/// One arrival of the run preserves the invariant, whatever the packet.
proof fn lemma_run_step(
    tm: Map<u32, QpState>,
    bm: Map<(u32, u32), Packet>,
    egress: Seq<Packet>,
    arr: Seq<Packet>,
    p: Packet,
    qp: u32,
    s: u32,
    n: nat,
)
    requires
        is_partial_run(arr.push(p), qp, s, n),
        run_inv(tm, bm, egress, arr, qp, s, n),
    ensures
        ({
            let r = spec_ingest(tm, bm, p);
            run_inv(r.0, r.1, egress + r.2, arr.push(p), qp, s, n)
        }),
{
    let arr2 = arr.push(p);
    let e = s + egress.len() as int;
    let st0 = spec_state(tm, qp);
    assert(arr2[arr.len() as int] == p);
    assert(forall|j: int| 0 <= j < arr.len() ==> (#[trigger] arr2[j]) == arr[j]);
    assert forall|j: int| 0 <= j < arr.len() implies (#[trigger] arr[j]).seq != p.seq by {
        assert(arr2[j].seq != arr2[arr.len() as int].seq);
    }
    assert(p.qp == qp && s <= p.seq <= s + n);
    assert((p.opcode == OPCODE_FIRST) <==> (p.seq == s)) by {
        assert((arr2[arr.len() as int].opcode == OPCODE_FIRST) <==> arr2[arr.len() as int].seq
            == s);
    }

    // every sequence number below the expectation has already arrived
    assert forall|x: int| s <= x < e implies has_seq(arr, x) by {
        let q = egress[x - s];
        assert(q.seq == x);
        let j = choose|j: int| 0 <= j < arr.len() && arr[j] == q;
        assert(arr[j].seq == x);
    }
    // so the fresh packet's number lies at or beyond it
    assert(e <= p.seq) by {
        if p.seq < e {
            assert(has_seq(arr, p.seq as int));
            let j = choose|j: int| 0 <= j < arr.len() && (#[trigger] arr[j]).seq == p.seq as int;
            assert(false);
        }
    }

    if egress.len() == 0 {
        assert(st0 == QpState::Idle);
        if p.seq == s {
            assert(p.opcode == OPCODE_FIRST);
            assert(spec_qp_step(st0, p.opcode, p.seq) == (
                QpState::InMessage { next_expected: (p.seq + 1) as u32 },
                Admission::Forward,
            ));
            assert(!bm.contains_key((qp, p.seq))) by {
                if bm.contains_key((qp, p.seq)) {
                    let q = bm[(qp, p.seq)];
                    assert(occurs_in(q, arr));
                    let j = choose|j: int| 0 <= j < arr.len() && arr[j] == q;
                    assert(arr[j].seq == p.seq);
                    assert(false);
                }
            }
            lemma_forward_drain(tm, bm, egress, arr, p, qp, s, n);
        } else {
            assert(p.opcode != OPCODE_FIRST);
            assert(spec_qp_step(st0, p.opcode, p.seq) == (st0, Admission::OutOfOrder));
            assert(e < p.seq);
            lemma_buffer_ooo(tm, bm, egress, arr, p, qp, s, n);
        }
    } else {
        assert(s < e);
        assert(p.seq != s);
        assert(p.opcode != OPCODE_FIRST);
        if st0 is InMessage {
            assert(st0 == (QpState::InMessage { next_expected: e as u32 }) && !bm.contains_key(
                (qp, e as u32),
            ));
            if p.seq == e {
                assert(p.seq == e as u32);
                if p.opcode == OPCODE_LAST {
                    // the in-order last packet closes the message
                    assert(p.seq == s + n);
                    assert(e == s + n);
                    assert(spec_qp_step(st0, p.opcode, p.seq) == (
                        QpState::Idle,
                        Admission::Forward,
                    ));
                    let r = spec_ingest(tm, bm, p);
                    assert(r.0 == tm.insert(qp, QpState::Idle) && r.1 == bm && r.2 == seq![p]);
                    let eg2 = egress + r.2;
                    let e2 = e + 1;
                    assert(eg2.len() == egress.len() + 1);
                    assert forall|i: int| 0 <= i < eg2.len() implies (#[trigger] eg2[i]).seq == s
                        + i && eg2[i].qp == qp && occurs_in(eg2[i], arr2) by {
                        if i < egress.len() {
                            assert(eg2[i] == egress[i]);
                            lemma_occurs_push(egress[i], arr, p);
                        } else {
                            assert(eg2[i] == p);
                            assert(occurs_in(p, arr2)) by {
                                assert(arr2[arr.len() as int] == p);
                            }
                        }
                    }
                    assert forall|k: (u32, u32)| #[trigger] bm.contains_key(k) implies false by {
                        assert(e <= k.1);
                        assert(k.1 != e as u32);
                        let q = bm[k];
                        assert(occurs_in(q, arr));
                        let j = choose|j: int| 0 <= j < arr.len() && arr[j] == q;
                        assert(arr2[j] == arr[j]);
                        assert(s <= arr2[j].seq <= s + n);
                        assert(q.seq == k.1);
                    }
                    assert forall|j: int|
                        #![trigger arr2[j]]
                        0 <= j < arr2.len() implies (if arr2[j].seq < e2 {
                        eg2[arr2[j].seq - s] == arr2[j]
                    } else {
                        r.1.contains_key((qp, arr2[j].seq)) && r.1[(qp, arr2[j].seq)] == arr2[j]
                    }) by {
                        if j == arr.len() {
                            assert(arr2[j] == p);
                            assert(eg2[p.seq - s] == p);
                        } else {
                            let q = arr[j];
                            assert(arr2[j] == q);
                            if q.seq < e {
                                assert(eg2[q.seq - s] == egress[q.seq - s]);
                            } else {
                                assert(bm.contains_key((qp, q.seq)));
                                assert(false);
                            }
                        }
                    }
                    assert(has_seq(arr2, s as int)) by {
                        let x = egress[0];
                        let j = choose|j: int| 0 <= j < arr.len() && arr[j] == x;
                        assert(arr2[j].seq == s);
                    }
                    assert(spec_state(r.0, qp) == QpState::Idle);
                    assert(eg2.last() == p);
                    assert(e2 == s + n + 1);
                } else {
                    assert(spec_qp_step(st0, p.opcode, p.seq) == (
                        QpState::InMessage { next_expected: (p.seq + 1) as u32 },
                        Admission::Forward,
                    ));
                    assert(!bm.contains_key((qp, p.seq)));
                    lemma_forward_drain(tm, bm, egress, arr, p, qp, s, n);
                }
            } else {
                assert(e < p.seq);
                assert(e <= s + n);
                assert(p.seq != e as u32);
                assert(spec_qp_step(st0, p.opcode, p.seq) == (st0, Admission::OutOfOrder));
                lemma_buffer_ooo(tm, bm, egress, arr, p, qp, s, n);
            }
        } else {
            // the message is already complete: a further packet of the
            // run cannot exist
            assert(st0 == QpState::Idle && e == s + n + 1);
            assert(p.seq <= s + n);
            assert(false);
        }
    }
}

/// The invariant holds after any prefix of a run's arrivals, starting
/// from a fresh receiver.
proof fn lemma_run_induct(pkts: Seq<Packet>, qp: u32, s: u32, n: nat, k: int)
    requires
        is_partial_run(pkts, qp, s, n),
        0 <= k <= pkts.len(),
    ensures
        ({
            let r = spec_ingest_all(
                Map::<u32, QpState>::empty(),
                Map::<(u32, u32), Packet>::empty(),
                pkts.take(k),
            );
            run_inv(r.0, r.1, r.2, pkts.take(k), qp, s, n)
        }),
    decreases k,
{
    let tm0 = Map::<u32, QpState>::empty();
    let bm0 = Map::<(u32, u32), Packet>::empty();
    if k == 0 {
        assert(pkts.take(0) =~= Seq::<Packet>::empty());
        let r = spec_ingest_all(tm0, bm0, pkts.take(0));
        assert(r == (tm0, bm0, Seq::<Packet>::empty()));
        assert(!has_seq(pkts.take(0), s as int));
        assert(spec_state(tm0, qp) == QpState::Idle);
    } else {
        lemma_run_induct(pkts, qp, s, n, k - 1);
        let prev = pkts.take(k - 1);
        let p = pkts[k - 1];
        assert(pkts.take(k) =~= prev.push(p));
        assert(is_partial_run(pkts.take(k), qp, s, n)) by {
            assert(forall|i: int| 0 <= i < k ==> (#[trigger] pkts.take(k)[i]) == pkts[i]);
        }
        let r1 = spec_ingest_all(tm0, bm0, prev);
        lemma_ingest_all_snoc(tm0, bm0, prev, p);
        lemma_run_step(r1.0, r1.1, r1.2, prev, p, qp, s, n);
    }
}

/// Reordering correctness: feed the packets of one contiguous run `[s, s
/// + n]` of one QP to a fresh receiver in any order, and the receiver
/// emits them in strictly increasing sequence order, exactly once each —
/// every arrival ends up at its own slot of the egress — with nothing
/// left buffered.
pub proof fn lemma_reorder_correct(pkts: Seq<Packet>, qp: u32, s: u32, n: nat)
    requires
        is_run_arrival(pkts, qp, s, n),
    ensures
        ({
            let r = spec_ingest_all(
                Map::<u32, QpState>::empty(),
                Map::<(u32, u32), Packet>::empty(),
                pkts,
            );
            &&& r.2.len() == n + 1
            &&& forall|i: int| 0 <= i <= n ==> (#[trigger] r.2[i]).seq == s + i
            &&& forall|j: int|
                0 <= j < pkts.len() ==> r.2[(#[trigger] pkts[j]).seq - s] == pkts[j]
            &&& r.1 == Map::<(u32, u32), Packet>::empty()
        }),
{
    let tm0 = Map::<u32, QpState>::empty();
    let bm0 = Map::<(u32, u32), Packet>::empty();
    lemma_run_induct(pkts, qp, s, n, pkts.len() as int);
    assert(pkts.take(pkts.len() as int) =~= pkts);
    let r = spec_ingest_all(tm0, bm0, pkts);
    assert(run_inv(r.0, r.1, r.2, pkts, qp, s, n));
    let e = s + r.2.len() as int;

    // every sequence number of the run arrived: the n + 1 distinct
    // numbers fill the interval exactly
    let sq = pkts.map_values(|q: Packet| q.seq as int);
    assert(sq.no_duplicates()) by {
        assert forall|i: int, j: int| 0 <= i < j < sq.len() implies sq[i] != sq[j] by {
            assert(sq[i] == pkts[i].seq as int && sq[j] == pkts[j].seq as int);
        }
    }
    sq.unique_seq_to_set();
    let rng = vstd::set_lib::set_int_range(s as int, s + n + 1);
    vstd::set_lib::lemma_int_range(s as int, s + n + 1);
    assert(sq.to_set().subset_of(rng)) by {
        assert forall|x: int| sq.to_set().contains(x) implies rng.contains(x) by {
            let i = choose|i: int| 0 <= i < sq.len() && sq[i] == x;
            assert(sq[i] == pkts[i].seq as int);
            assert(s <= pkts[i].seq <= s + n);
        }
    }
    assert forall|x: int| s <= x <= s + n implies has_seq(pkts, x) by {
        if !sq.to_set().contains(x) {
            sq.to_set().lemma_subset_not_in_lt(rng, x);
            assert(false);
        }
        let i = choose|i: int| 0 <= i < sq.len() && sq[i] == x;
        assert(sq[i] == pkts[i].seq as int);
        assert(pkts[i].seq == x);
    }

    // the egress covers the whole run
    assert(has_seq(pkts, s as int));
    assert(r.2.len() > 0);
    if r.2.len() < n + 1 {
        assert(e <= s + n);
        assert(has_seq(pkts, e));
        let j = choose|j: int| 0 <= j < pkts.len() && (#[trigger] pkts[j]).seq == e;
        assert(r.1.contains_key((qp, pkts[j].seq)));
        assert(spec_state(r.0, qp) != QpState::Idle || e == s + n + 1);
        assert(pkts[j].seq == e as u32);
        assert(false);
    }
    assert(r.2.len() == n + 1);

    // nothing stays buffered
    assert forall|k: (u32, u32)| !(#[trigger] r.1.contains_key(k)) by {
        if r.1.contains_key(k) {
            let q = r.1[k];
            assert(occurs_in(q, pkts));
            let j = choose|j: int| 0 <= j < pkts.len() && pkts[j] == q;
            assert(s <= pkts[j].seq <= s + n);
            assert(q.seq == k.1);
            assert(e <= k.1);
            assert(false);
        }
    }
    assert(r.1 =~= Map::<(u32, u32), Packet>::empty());
}

/// In-order pass-through: a run that arrives already in order leaves the
/// receiver exactly as it came — the egress is the ingress, packet for
/// packet, with nothing buffered.
pub proof fn lemma_in_order_passthrough(pkts: Seq<Packet>, qp: u32, s: u32, n: nat)
    requires
        is_run_arrival(pkts, qp, s, n),
        forall|i: int| 0 <= i < pkts.len() ==> (#[trigger] pkts[i]).seq == s + i,
    ensures
        ({
            let r = spec_ingest_all(
                Map::<u32, QpState>::empty(),
                Map::<(u32, u32), Packet>::empty(),
                pkts,
            );
            r.2 == pkts && r.1 == Map::<(u32, u32), Packet>::empty()
        }),
{
    lemma_reorder_correct(pkts, qp, s, n);
    let r = spec_ingest_all(
        Map::<u32, QpState>::empty(),
        Map::<(u32, u32), Packet>::empty(),
        pkts,
    );
    assert forall|j: int| 0 <= j < pkts.len() implies r.2[j] == pkts[j] by {
        assert(pkts[j].seq - s == j);
        assert(r.2[pkts[j].seq - s] == pkts[j]);
    }
    assert(r.2 =~= pkts);
}

} // verus!
