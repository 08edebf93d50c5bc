//! The out-of-order packet buffer owned by the reorder engine: packets
//! that arrived ahead of their turn, keyed by destination QP and sequence
//! number, waiting for the gap before them to close.

use vstd::prelude::*;

verus! {

/// One received RoCEv2 packet after decapsulation: the transport fields
/// the reorder engine keys on, and the packet bytes to forward.
#[derive(Debug)]
pub struct Packet {
    pub qp: u32,
    pub opcode: u8,
    pub seq: u32,
    pub data: Vec<u8>,
}

impl Packet {
    /// The 24-bit wire fields fit in 24 bits.
    pub open spec fn wf(self) -> bool {
        self.qp < 0x1000000 && self.seq < 0x1000000
    }

    /// The buffer key of this packet.
    pub open spec fn key(self) -> (u32, u32) {
        (self.qp, self.seq)
    }
}

/// The buffered packets interpreted as a map from (QP, sequence) to
/// packet; later entries shadow earlier ones, though well-formed buffers
/// keep the keys distinct.
pub open spec fn buf_map(s: Seq<Packet>) -> Map<(u32, u32), Packet>
    decreases s.len(),
{
    if s.len() == 0 {
        Map::empty()
    } else {
        buf_map(s.drop_last()).insert(s.last().key(), s.last())
    }
}

/// Each (QP, sequence) pair appears at most once.
pub open spec fn unique_packet_keys(s: Seq<Packet>) -> bool {
    forall|i: int, j: int|
        0 <= i < j < s.len() ==> (#[trigger] s[i]).key() != (#[trigger] s[j]).key()
}

/// Every buffered packet has well-formed 24-bit fields.
pub open spec fn all_packets_wf(s: Seq<Packet>) -> bool {
    forall|i: int| 0 <= i < s.len() ==> (#[trigger] s[i]).wf()
}

/// A key is in the map exactly when some entry carries it.
proof fn lemma_buf_contains(s: Seq<Packet>, k: (u32, u32))
    ensures
        buf_map(s).contains_key(k) <==> exists|i: int|
            0 <= i < s.len() && (#[trigger] s[i]).key() == k,
    decreases s.len(),
{
    if s.len() > 0 {
        lemma_buf_contains(s.drop_last(), k);
        if s.last().key() == k {
            assert(s[s.len() - 1].key() == k);
        } else {
            if buf_map(s).contains_key(k) {
                let i = choose|i: int|
                    0 <= i < s.drop_last().len() && (#[trigger] s.drop_last()[i]).key() == k;
                assert(s[i].key() == k);
            }
            if exists|i: int| 0 <= i < s.len() && (#[trigger] s[i]).key() == k {
                let i = choose|i: int| 0 <= i < s.len() && (#[trigger] s[i]).key() == k;
                assert(s.drop_last()[i].key() == k);
            }
        }
    }
}

/// With distinct keys, the entry at any index gives the map's value at its
/// key.
proof fn lemma_buf_index(s: Seq<Packet>, i: int)
    requires
        unique_packet_keys(s),
        0 <= i < s.len(),
    ensures
        buf_map(s).contains_key(s[i].key()),
        buf_map(s)[s[i].key()] == s[i],
    decreases s.len(),
{
    if i < s.len() - 1 {
        assert(unique_packet_keys(s.drop_last()));
        lemma_buf_index(s.drop_last(), i);
        assert(s[i].key() != s.last().key());
    }
}

/// Replacing the entry at an index with one of the same key updates the
/// map at that key.
proof fn lemma_buf_update(s: Seq<Packet>, i: int, p: Packet)
    requires
        unique_packet_keys(s),
        0 <= i < s.len(),
        p.key() == s[i].key(),
    ensures
        buf_map(s.update(i, p)) == buf_map(s).insert(p.key(), p),
    decreases s.len(),
{
    let t = s.update(i, p);
    if i == s.len() - 1 {
        assert(t.drop_last() =~= s.drop_last());
        assert(buf_map(t) =~= buf_map(s).insert(p.key(), p));
    } else {
        assert(unique_packet_keys(s.drop_last()));
        lemma_buf_update(s.drop_last(), i, p);
        assert(t.drop_last() =~= s.drop_last().update(i, p));
        assert(t.last() == s.last());
        assert(s[i].key() != s.last().key());
        assert(buf_map(t) =~= buf_map(s).insert(p.key(), p));
    }
}

/// Appending an entry inserts its key.
proof fn lemma_buf_push(s: Seq<Packet>, p: Packet)
    ensures
        buf_map(s.push(p)) == buf_map(s).insert(p.key(), p),
{
    assert(s.push(p).drop_last() =~= s);
}

/// Removing the entry at an index removes its key from the map.
proof fn lemma_buf_remove(s: Seq<Packet>, i: int)
    requires
        unique_packet_keys(s),
        0 <= i < s.len(),
    ensures
        buf_map(s.remove(i)) == buf_map(s).remove(s[i].key()),
    decreases s.len(),
{
    let t = s.remove(i);
    if i == s.len() - 1 {
        assert(t =~= s.drop_last());
        lemma_buf_contains(s.drop_last(), s[i].key());
        assert(forall|j: int|
            0 <= j < s.drop_last().len() ==> (#[trigger] s.drop_last()[j]).key() != s[i].key());
        assert(!buf_map(s.drop_last()).contains_key(s[i].key()));
        assert(buf_map(t) =~= buf_map(s).remove(s[i].key()));
    } else {
        assert(unique_packet_keys(s.drop_last()));
        lemma_buf_remove(s.drop_last(), i);
        assert(t.drop_last() =~= s.drop_last().remove(i));
        assert(t.last() == s.last());
        assert(s[i].key() != s.last().key());
        assert(buf_map(t) =~= buf_map(s).remove(s[i].key()));
    }
}

/// The reorder buffer: out-of-order packets keyed by (QP, sequence),
/// created when the classifier sees a sequence other than the expected
/// one and drained by the reorder engine as gaps close.
pub struct ReorderBuffer {
    entries: Vec<Packet>,
}

impl ReorderBuffer {
    /// The abstract map this buffer stores.
    pub closed spec fn view(&self) -> Map<(u32, u32), Packet> {
        buf_map(self.entries@)
    }

    /// Keys are distinct and every packet is well-formed.
    pub closed spec fn wf(&self) -> bool {
        unique_packet_keys(self.entries@) && all_packets_wf(self.entries@)
    }

    /// An empty buffer.
    pub fn new() -> (b: ReorderBuffer)
        ensures
            b@ == Map::<(u32, u32), Packet>::empty(),
            b.wf(),
    {
        ReorderBuffer { entries: Vec::new() }
    }

    /// How many packets wait in the buffer.
    pub fn count(&self) -> (n: usize)
        requires
            self.wf(),
        ensures
            n == self@.dom().len(),
    {
        proof {
            lemma_buf_count(self.entries@);
        }
        self.entries.len()
    }

    /// Store one out-of-order packet under its (QP, sequence) key,
    /// replacing any packet already held under the same key.
    pub fn insert(&mut self, p: Packet)
        requires
            old(self).wf(),
            p.wf(),
        ensures
            final(self).wf(),
            final(self)@ == old(self)@.insert((p.qp, p.seq), p),
    {
        let n = self.entries.len();
        let mut i: usize = 0;
        while i < n
            invariant
                i <= n,
                n == self.entries@.len(),
                self.wf(),
                p.wf(),
                self.entries@ == old(self).entries@,
                forall|j: int| 0 <= j < i ==> (#[trigger] self.entries@[j]).key() != p.key(),
            decreases n - i,
        {
            if self.entries[i].qp == p.qp && self.entries[i].seq == p.seq {
                proof {
                    lemma_buf_update(self.entries@, i as int, p);
                }
                self.entries[i] = p;
                return ;
            }
            i += 1;
        }
        proof {
            lemma_buf_push(self.entries@, p);
        }
        self.entries.push(p);
    }

    /// Take the packet buffered under (qp, seq) out of the buffer, if one
    /// is there.
    pub fn remove(&mut self, qp: u32, seq: u32) -> (r: Option<Packet>)
        requires
            old(self).wf(),
        ensures
            final(self).wf(),
            old(self)@.contains_key((qp, seq)) ==> r == Some(old(self)@[(qp, seq)])
                && final(self)@ == old(self)@.remove((qp, seq)) && old(self)@[(qp, seq)].qp == qp
                && old(self)@[(qp, seq)].seq == seq && old(self)@[(qp, seq)].wf(),
            !old(self)@.contains_key((qp, seq)) ==> r is None && final(self)@ == old(self)@,
    {
        let n = self.entries.len();
        let mut i: usize = 0;
        while i < n
            invariant
                i <= n,
                n == self.entries@.len(),
                self.wf(),
                self.entries@ == old(self).entries@,
                forall|j: int| 0 <= j < i ==> (#[trigger] self.entries@[j]).key() != (qp, seq),
            decreases n - i,
        {
            if self.entries[i].qp == qp && self.entries[i].seq == seq {
                proof {
                    lemma_buf_index(self.entries@, i as int);
                    lemma_buf_remove(self.entries@, i as int);
                }
                return Some(self.entries.remove(i));
            }
            i += 1;
        }
        proof {
            lemma_buf_contains(self.entries@, (qp, seq));
        }
        None
    }
}

/// With distinct keys the map has exactly one key per entry.
proof fn lemma_buf_count(s: Seq<Packet>)
    requires
        unique_packet_keys(s),
    ensures
        buf_map(s).dom().len() == s.len(),
        buf_map(s).dom().finite(),
    decreases s.len(),
{
    if s.len() > 0 {
        assert(unique_packet_keys(s.drop_last()));
        lemma_buf_count(s.drop_last());
        lemma_buf_contains(s.drop_last(), s.last().key());
        assert(forall|j: int|
            0 <= j < s.drop_last().len() ==> (#[trigger] s.drop_last()[j]).key()
                != s.last().key()) by {
            assert(forall|j: int| 0 <= j < s.len() - 1 ==> (#[trigger] s[j]).key() != s[s.len() - 1].key());
        }
        assert(!buf_map(s.drop_last()).contains_key(s.last().key()));
        assert(buf_map(s).dom() =~= buf_map(s.drop_last()).dom().insert(s.last().key()));
    }
}

} // verus!
