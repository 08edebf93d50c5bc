//! The flow next-hop cache: resolved link-layer forwarding information
//! keyed by the full five-tuple of a flow, filled lazily from the
//! next-hop resolution collaborator and read on every packet thereafter.

use vstd::prelude::*;

verus! {

/// An IPv4 network as a prefix and its length.
#[derive(Clone, Copy, Debug, PartialEq, Eq, Structural)]
pub struct NetworkKey {
    pub prefix: u32,
    pub prefix_len: u8,
}

/// One local interface: its MAC address, kernel interface index and the
/// next hop used when sending through it.
#[derive(Clone, Copy, Debug, PartialEq, Eq)]
pub struct Interface {
    pub mac: [u8; 6],
    pub ifidx: u32,
    pub next_hop: u32,
}

/// The unique identity of a flow: both addresses, both ports, and the IP
/// protocol.
#[derive(Clone, Copy, Debug, PartialEq, Eq, Structural)]
pub struct FlowKey {
    pub src_ip: u32,
    pub dst_ip: u32,
    pub src_port: u16,
    pub dst_port: u16,
    pub ip_proto: u8,
}

/// A resolved next hop: the MAC addresses to write, the possibly
/// rewritten addresses, and the egress link.
#[derive(Clone, Copy, Debug, PartialEq, Eq)]
pub struct FlowNextHop {
    pub src_mac: [u8; 6],
    pub dst_mac: [u8; 6],
    pub src_ip: u32,
    pub dst_ip: u32,
    pub ifidx: u32,
}

/// The cache entries interpreted as a map from flow key to next hop.
pub open spec fn flow_map(s: Seq<(FlowKey, FlowNextHop)>) -> Map<FlowKey, FlowNextHop>
    decreases s.len(),
{
    if s.len() == 0 {
        Map::empty()
    } else {
        flow_map(s.drop_last()).insert(s.last().0, s.last().1)
    }
}

/// Each flow key appears at most once among the entries.
pub open spec fn unique_flow_keys(s: Seq<(FlowKey, FlowNextHop)>) -> bool {
    forall|i: int, j: int| 0 <= i < j < s.len() ==> (#[trigger] s[i]).0 != (#[trigger] s[j]).0
}

/// A key is in the map exactly when some entry carries it.
proof fn lemma_flow_contains(s: Seq<(FlowKey, FlowNextHop)>, k: FlowKey)
    ensures
        flow_map(s).contains_key(k) <==> exists|i: int|
            0 <= i < s.len() && (#[trigger] s[i]).0 == k,
    decreases s.len(),
{
    if s.len() > 0 {
        lemma_flow_contains(s.drop_last(), k);
        if s.last().0 == k {
            assert(s[s.len() - 1].0 == k);
        } else {
            if flow_map(s).contains_key(k) {
                let i = choose|i: int|
                    0 <= i < s.drop_last().len() && (#[trigger] s.drop_last()[i]).0 == k;
                assert(s[i].0 == k);
            }
            if exists|i: int| 0 <= i < s.len() && (#[trigger] s[i]).0 == k {
                let i = choose|i: int| 0 <= i < s.len() && (#[trigger] s[i]).0 == k;
                assert(s.drop_last()[i].0 == k);
            }
        }
    }
}

/// With distinct keys, the entry at any index gives the map's value at
/// its key.
proof fn lemma_flow_index(s: Seq<(FlowKey, FlowNextHop)>, i: int)
    requires
        unique_flow_keys(s),
        0 <= i < s.len(),
    ensures
        flow_map(s).contains_key(s[i].0),
        flow_map(s)[s[i].0] == s[i].1,
    decreases s.len(),
{
    if i < s.len() - 1 {
        assert(unique_flow_keys(s.drop_last()));
        lemma_flow_index(s.drop_last(), i);
        assert(s[i].0 != s.last().0);
    }
}

/// Appending an entry inserts its key.
proof fn lemma_flow_push(s: Seq<(FlowKey, FlowNextHop)>, k: FlowKey, v: FlowNextHop)
    ensures
        flow_map(s.push((k, v))) == flow_map(s).insert(k, v),
{
    assert(s.push((k, v)).drop_last() =~= s);
}

/// The flow next-hop cache. Entries are created once, on the first
/// packet of a flow, and never expire.
pub struct FlowCache {
    entries: Vec<(FlowKey, FlowNextHop)>,
}

impl FlowCache {
    /// The abstract map this cache stores.
    pub closed spec fn view(&self) -> Map<FlowKey, FlowNextHop> {
        flow_map(self.entries@)
    }

    /// Entries carry pairwise distinct keys.
    pub closed spec fn wf(&self) -> bool {
        unique_flow_keys(self.entries@)
    }

    /// An empty cache.
    pub fn new() -> (c: FlowCache)
        ensures
            c@ == Map::<FlowKey, FlowNextHop>::empty(),
            c.wf(),
    {
        FlowCache { entries: Vec::new() }
    }

    /// The cached next hop of a flow, if one is there.
    pub fn lookup(&self, key: &FlowKey) -> (r: Option<FlowNextHop>)
        requires
            self.wf(),
        ensures
            self@.contains_key(*key) ==> r == Some(self@[*key]),
            !self@.contains_key(*key) ==> r is None,
    {
        let n = self.entries.len();
        let mut i: usize = 0;
        while i < n
            invariant
                i <= n,
                n == self.entries@.len(),
                self.wf(),
                forall|j: int| 0 <= j < i ==> (#[trigger] self.entries@[j]).0 != *key,
            decreases n - i,
        {
            if self.entries[i].0 == *key {
                proof {
                    lemma_flow_index(self.entries@, i as int);
                }
                return Some(self.entries[i].1);
            }
            i += 1;
        }
        proof {
            lemma_flow_contains(self.entries@, *key);
        }
        None
    }

    /// Serve a flow from the cache, falling back on the result the
    /// next-hop resolution collaborator produced for it: a hit is
    /// returned as cached; a miss caches and returns the collaborator's
    /// answer; a miss the collaborator could not resolve either is
    /// unroutable and changes nothing.
    pub fn lookup_or_resolve(&mut self, key: FlowKey, resolved: Option<FlowNextHop>) -> (r:
        Option<FlowNextHop>)
        requires
            old(self).wf(),
        ensures
            final(self).wf(),
            old(self)@.contains_key(key) ==> r == Some(old(self)@[key]) && final(self)@ == old(
                self,
            )@,
            !old(self)@.contains_key(key) ==> (match resolved {
                Some(v) => r == Some(v) && final(self)@ == old(self)@.insert(key, v),
                None => r is None && final(self)@ == old(self)@,
            }),
    {
        let hit = self.lookup(&key);
        match hit {
            Some(v) => Some(v),
            None => {
                match resolved {
                    Some(v) => {
                        proof {
                            lemma_flow_contains(self.entries@, key);
                            lemma_flow_push(self.entries@, key, v);
                        }
                        self.entries.push((key, v));
                        Some(v)
                    },
                    None => None,
                }
            },
        }
    }
}

} // verus!
