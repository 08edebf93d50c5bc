//! Per-QP sequence tracking: the state machine that knows, for every
//! destination queue pair, the next expected sequence number and whether a
//! message is currently in flight.
//!
//! The ingress classifier consults [`Tracker::observe`] for every arriving
//! packet; the reorder engine advances the same state while draining
//! buffered packets. Exactly one path writes a given key at any instant.

use vstd::prelude::*;
use crate::bth::OPCODE_FIRST;
use crate::bth::OPCODE_LAST;

verus! {

/// Message-tracking state of one queue pair.
#[derive(Clone, Copy, Debug, PartialEq, Eq)]
pub enum QpState {
    /// No message in flight; waiting for a first-opcode packet.
    Idle,
    /// A message is in flight and `next_expected` is the sequence number
    /// owed next.
    InMessage { next_expected: u32 },
}

/// Admission decision for one arriving packet.
#[derive(Clone, Copy, Debug, PartialEq, Eq)]
pub enum Admission {
    /// The packet is in order: forward it at once.
    Forward,
    /// The packet is out of order: buffer it for the reorder engine.
    OutOfOrder,
}

/// The canonical per-QP transition on one arriving packet.
///
/// From `Idle`, a first-opcode packet with sequence `s` opens a message and
/// is forwarded, leaving `s + 1` expected; anything else is out of order.
/// In a message, the packet bearing exactly the expected sequence is
/// forwarded and the expectation advances, a last-opcode packet closing the
/// message back to `Idle`; any other sequence leaves the state unchanged
/// and is out of order.
pub open spec fn spec_qp_step(st: QpState, opcode: u8, seq: u32) -> (QpState, Admission) {
    match st {
        QpState::Idle => {
            if opcode == OPCODE_FIRST {
                (QpState::InMessage { next_expected: (seq + 1) as u32 }, Admission::Forward)
            } else {
                (st, Admission::OutOfOrder)
            }
        },
        QpState::InMessage { next_expected } => {
            if seq == next_expected {
                if opcode == OPCODE_LAST {
                    (QpState::Idle, Admission::Forward)
                } else {
                    (QpState::InMessage { next_expected: (seq + 1) as u32 }, Admission::Forward)
                }
            } else {
                (st, Admission::OutOfOrder)
            }
        },
    }
}

/// The tracking state of `qp` in map `m`, `Idle` when the key is absent.
pub open spec fn spec_state(m: Map<u32, QpState>, qp: u32) -> QpState {
    if m.contains_key(qp) {
        m[qp]
    } else {
        QpState::Idle
    }
}

/// The map after one observation: unchanged for an out-of-order packet,
/// updated to the stepped state for a forwarded one.
pub open spec fn spec_observe(m: Map<u32, QpState>, qp: u32, opcode: u8, seq: u32) -> (
    Map<u32, QpState>,
    Admission,
) {
    let (st, adm) = spec_qp_step(spec_state(m, qp), opcode, seq);
    if adm == Admission::Forward {
        (m.insert(qp, st), Admission::Forward)
    } else {
        (m, Admission::OutOfOrder)
    }
}

/// The association-list entries interpreted as a map from QP to state;
/// later entries shadow earlier ones, though well-formed trackers keep the
/// keys distinct.
pub open spec fn entries_map(s: Seq<(u32, QpState)>) -> Map<u32, QpState>
    decreases s.len(),
{
    if s.len() == 0 {
        Map::empty()
    } else {
        entries_map(s.drop_last()).insert(s.last().0, s.last().1)
    }
}

/// Each QP appears at most once among the entries.
pub open spec fn unique_qp_keys(s: Seq<(u32, QpState)>) -> bool {
    forall|i: int, j: int| 0 <= i < j < s.len() ==> (#[trigger] s[i]).0 != (#[trigger] s[j]).0
}

/// A key is in the map exactly when some entry carries it.
proof fn lemma_entries_contains(s: Seq<(u32, QpState)>, k: u32)
    ensures
        entries_map(s).contains_key(k) <==> exists|i: int|
            0 <= i < s.len() && (#[trigger] s[i]).0 == k,
    decreases s.len(),
{
    if s.len() > 0 {
        lemma_entries_contains(s.drop_last(), k);
        if s.last().0 == k {
            assert(s[s.len() - 1].0 == k);
        } else {
            if entries_map(s).contains_key(k) {
                let i = choose|i: int| 0 <= i < s.drop_last().len() && (#[trigger] s.drop_last()[i]).0 == k;
                assert(s[i].0 == k);
            }
            if exists|i: int| 0 <= i < s.len() && (#[trigger] s[i]).0 == k {
                let i = choose|i: int| 0 <= i < s.len() && (#[trigger] s[i]).0 == k;
                assert(s.drop_last()[i].0 == k);
            }
        }
    }
}

/// With distinct keys, the entry at any index gives the map's value at its
/// key.
proof fn lemma_entries_index(s: Seq<(u32, QpState)>, i: int)
    requires
        unique_qp_keys(s),
        0 <= i < s.len(),
    ensures
        entries_map(s).contains_key(s[i].0),
        entries_map(s)[s[i].0] == s[i].1,
    decreases s.len(),
{
    if i < s.len() - 1 {
        assert(unique_qp_keys(s.drop_last())) by {
            assert(forall|x: int, y: int|
                0 <= x < y < s.drop_last().len() ==> (#[trigger] s.drop_last()[x]).0 != (
                #[trigger] s.drop_last()[y]).0);
        }
        lemma_entries_index(s.drop_last(), i);
        assert(s[i].0 != s.last().0);
    }
}

/// Replacing the value at an index updates the map at that entry's key.
proof fn lemma_entries_update(s: Seq<(u32, QpState)>, i: int, v: QpState)
    requires
        unique_qp_keys(s),
        0 <= i < s.len(),
    ensures
        entries_map(s.update(i, (s[i].0, v))) == entries_map(s).insert(s[i].0, v),
    decreases s.len(),
{
    let t = s.update(i, (s[i].0, v));
    if i == s.len() - 1 {
        assert(t.drop_last() =~= s.drop_last());
        assert(entries_map(t) =~= entries_map(s).insert(s[i].0, v));
    } else {
        assert(unique_qp_keys(s.drop_last()));
        lemma_entries_update(s.drop_last(), i, v);
        assert(t.drop_last() =~= s.drop_last().update(i, (s[i].0, v)));
        assert(t.last() == s.last());
        assert(s[i].0 != s.last().0);
        assert(entries_map(t) =~= entries_map(s).insert(s[i].0, v));
    }
}

/// Appending an entry inserts its key.
proof fn lemma_entries_push(s: Seq<(u32, QpState)>, k: u32, v: QpState)
    ensures
        entries_map(s.push((k, v))) == entries_map(s).insert(k, v),
{
    assert(s.push((k, v)).drop_last() =~= s);
}

/// Per-QP sequence tracker: a small single-writer-per-key store from
/// destination QP to tracking state.
pub struct Tracker {
    entries: Vec<(u32, QpState)>,
}

impl Tracker {
    /// The abstract map this tracker stores.
    pub closed spec fn view(&self) -> Map<u32, QpState> {
        entries_map(self.entries@)
    }

    /// Entries carry pairwise distinct QP keys.
    pub closed spec fn wf(&self) -> bool {
        unique_qp_keys(self.entries@)
    }

    /// An empty tracker: every QP idle.
    pub fn new() -> (t: Tracker)
        ensures
            t@ == Map::<u32, QpState>::empty(),
            t.wf(),
    {
        Tracker { entries: Vec::new() }
    }

    /// The tracking state of one QP.
    pub fn state_of(&self, qp: u32) -> (st: QpState)
        requires
            self.wf(),
        ensures
            st == spec_state(self@, qp),
    {
        let n = self.entries.len();
        let mut i: usize = 0;
        while i < n
            invariant
                i <= n,
                n == self.entries@.len(),
                self.wf(),
                forall|j: int| 0 <= j < i ==> (#[trigger] self.entries@[j]).0 != qp,
            decreases n - i,
        {
            if self.entries[i].0 == qp {
                proof {
                    lemma_entries_index(self.entries@, i as int);
                }
                return self.entries[i].1;
            }
            i += 1;
        }
        proof {
            lemma_entries_contains(self.entries@, qp);
        }
        QpState::Idle
    }

    /// Record a new tracking state for one QP.
    fn set_state(&mut self, qp: u32, st: QpState)
        requires
            old(self).wf(),
        ensures
            final(self)@ == old(self)@.insert(qp, st),
            final(self).wf(),
    {
        let n = self.entries.len();
        let mut i: usize = 0;
        while i < n
            invariant
                i <= n,
                n == self.entries@.len(),
                self.wf(),
                self.entries@ == old(self).entries@,
                forall|j: int| 0 <= j < i ==> (#[trigger] self.entries@[j]).0 != qp,
            decreases n - i,
        {
            if self.entries[i].0 == qp {
                proof {
                    lemma_entries_update(self.entries@, i as int, st);
                }
                self.entries[i] = (qp, st);
                return ;
            }
            i += 1;
        }
        proof {
            lemma_entries_push(self.entries@, qp, st);
        }
        self.entries.push((qp, st));
    }

    /// Classify one arriving packet for its QP and, when it is in order,
    /// advance the per-QP state exactly as [`spec_qp_step`] says.
    pub fn observe(&mut self, qp: u32, opcode: u8, seq: u32) -> (adm: Admission)
        requires
            old(self).wf(),
            seq < 0x1000000,
        ensures
            final(self).wf(),
            (final(self)@, adm) == spec_observe(old(self)@, qp, opcode, seq),
    {
        let st = self.state_of(qp);
        let (st2, adm) = match st {
            QpState::Idle => {
                if opcode == OPCODE_FIRST {
                    (QpState::InMessage { next_expected: seq + 1 }, Admission::Forward)
                } else {
                    (st, Admission::OutOfOrder)
                }
            },
            QpState::InMessage { next_expected } => {
                if seq == next_expected {
                    if opcode == OPCODE_LAST {
                        (QpState::Idle, Admission::Forward)
                    } else {
                        (QpState::InMessage { next_expected: seq + 1 }, Admission::Forward)
                    }
                } else {
                    (st, Admission::OutOfOrder)
                }
            },
        };
        if let Admission::Forward = adm {
            self.set_state(qp, st2);
        }
        adm
    }

    /// Force the expectation of one QP, as the reorder engine does after a
    /// drain.
    pub fn set(&mut self, qp: u32, st: QpState)
        requires
            old(self).wf(),
        ensures
            final(self)@ == old(self)@.insert(qp, st),
            final(self).wf(),
    {
        self.set_state(qp, st);
    }
}

} // verus!
