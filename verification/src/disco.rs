//! Peer discovery configuration: which interfaces to probe with ARP and
//! how often.

use vstd::prelude::*;

verus! {

/// The peer-discovery task's configuration: the interfaces to probe,
/// the probe interval in seconds, and the descriptor of the packet map
/// the discovery filter feeds.
pub struct PeerDisco {
    pub interfaces: Vec<String>,
    pub interval: u64,
    pub peer_map_fd: i32,
}

impl PeerDisco {
    /// Bundle a discovery configuration.
    pub fn new(interfaces: Vec<String>, interval: u64, peer_map_fd: i32) -> (d: PeerDisco)
        ensures
            d.interfaces@ == interfaces@,
            d.interval == interval,
            d.peer_map_fd == peer_map_fd,
    {
        PeerDisco { interfaces, interval, peer_map_fd }
    }
}

} // verus!
