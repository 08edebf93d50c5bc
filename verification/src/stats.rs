//! Observability counters: the per-round delivery statistics the far-end
//! endpoint keeps over the packets it receives, and the small transmit
//! counter the peer-discovery filter maintains.

use vstd::prelude::*;

verus! {

/// A transmit counter kept by the peer-discovery packet filter.
#[derive(Clone, Copy, Debug, PartialEq, Eq, Structural)]
pub struct Stats {
    pub tx: u64,
}

/// What the peer-discovery filter does with a packet, by its UDP
/// destination port.
#[derive(Clone, Copy, Debug, PartialEq, Eq, Structural)]
pub enum DiscoAction {
    /// RoCEv2 data: count it and drop it.
    CountData,
    /// The discovery control port: start counting and drop it.
    StartCounting,
    /// Anything else passes through.
    Pass,
}

/// The port of discovery control traffic, next to the RoCEv2 data port.
pub const DISCO_PORT: u16 = 4792;

/// The discovery filter's state: whether counting has started, and the
/// transmit counter.
pub struct DiscoStats {
    pub started: bool,
    pub stats: Stats,
}

impl DiscoStats {
    /// A fresh filter: not yet counting.
    pub fn new() -> (d: DiscoStats)
        ensures
            !d.started,
            d.stats.tx == 0,
    {
        DiscoStats { started: false, stats: Stats { tx: 0 } }
    }

    /// Observe one packet by its UDP destination port: RoCEv2 data is
    /// counted once counting has started; the control port starts (or
    /// resets) the counter; everything else passes through untouched.
    pub fn observe(&mut self, dst_port: u16) -> (a: DiscoAction)
        ensures
            dst_port == 4791 && old(self).started ==> a == DiscoAction::CountData
                && final(self).started && final(self).stats.tx
                == vstd::wrapping::u64_specs::wrapping_add(old(self).stats.tx, 1),
            dst_port == 4791 && !old(self).started ==> (a == DiscoAction::CountData
                && *final(self) == *old(self)),
            dst_port == DISCO_PORT ==> a == DiscoAction::StartCounting && final(self).started
                && final(self).stats.tx == 0,
            dst_port != 4791 && dst_port != DISCO_PORT ==> (a == DiscoAction::Pass
                && *final(self) == *old(self)),
    {
        if dst_port == 4791 {
            if self.started {
                self.stats.tx = self.stats.tx.wrapping_add(1);
            }
            DiscoAction::CountData
        } else if dst_port == DISCO_PORT {
            self.started = true;
            self.stats.tx = 0;
            DiscoAction::StartCounting
        } else {
            DiscoAction::Pass
        }
    }
}

/// What one finished round looked like: packet and byte counts, how many
/// arrivals were out of order, and the gap between the sequence span and
/// the packet count.
#[derive(Clone, Copy, Debug, PartialEq, Eq, Structural)]
pub struct RoundSummary {
    pub packets: u64,
    pub out_of_order: u64,
    pub total_bytes: u64,
    pub lost: i64,
}

/// Per-round delivery statistics over a stream of received packets: one
/// round runs until a packet carries the final-packet marker, and every
/// arrival whose sequence number is not one past its predecessor's
/// counts as out of order.
pub struct RoundTracker {
    prev_seq: u32,
    packets: u64,
    out_of_order: u64,
    total_bytes: u64,
    first_seq: u32,
    first_packet: bool,
}

impl RoundTracker {
    /// The packets counted so far in the running round.
    pub closed spec fn packets(&self) -> u64 {
        self.packets
    }

    /// The out-of-order arrivals counted so far in the running round.
    pub closed spec fn out_of_order(&self) -> u64 {
        self.out_of_order
    }

    /// The bytes counted so far in the running round.
    pub closed spec fn total_bytes(&self) -> u64 {
        self.total_bytes
    }

    /// The last sequence number seen, zero before the first packet.
    pub closed spec fn prev_seq(&self) -> u32 {
        self.prev_seq
    }

    /// The first sequence number of the round, meaningful once a packet
    /// arrived.
    pub closed spec fn first_seq(&self) -> u32 {
        self.first_seq
    }

    /// No packet of the running round arrived yet.
    pub closed spec fn fresh(&self) -> bool {
        self.first_packet && self.prev_seq == 0 && self.packets == 0 && self.out_of_order == 0
            && self.total_bytes == 0
    }

    /// The tracker's internal invariant: waiting for a first packet
    /// means nothing of the round has been counted yet.
    pub closed spec fn inv(&self) -> bool {
        self.first_packet ==> self.fresh()
    }

    /// A tracker before its first packet.
    pub fn new() -> (t: RoundTracker)
        ensures
            t.fresh(),
            t.inv(),
    {
        RoundTracker {
            prev_seq: 0,
            packets: 0,
            out_of_order: 0,
            total_bytes: 0,
            first_seq: 0,
            first_packet: true,
        }
    }

    /// Count one received packet: `seq` its sequence number, `res` its
    /// reserved byte whose bit 0 marks the final packet of the round,
    /// `nbytes` its length. A marker packet closes the round, returns
    /// its summary and leaves the tracker fresh for the next round.
    pub fn on_packet(&mut self, seq: u32, res: u8, nbytes: u64) -> (r: Option<RoundSummary>)
        requires
            old(self).inv(),
        ensures
            final(self).inv(),
            ({
                let ooo = if old(self).prev_seq() > 0 && old(self).prev_seq() + 1 != seq {
                    vstd::wrapping::u64_specs::wrapping_add(old(self).out_of_order(), 1)
                } else {
                    old(self).out_of_order()
                };
                let fs = if old(self).fresh() {
                    seq
                } else {
                    old(self).first_seq()
                };
                let pk = vstd::wrapping::u64_specs::wrapping_add(old(self).packets(), 1);
                let tb = vstd::wrapping::u64_specs::wrapping_add(old(self).total_bytes(), nbytes);
                if res == 1 {
                    r == Some(
                        RoundSummary {
                            packets: pk,
                            out_of_order: ooo,
                            total_bytes: tb,
                            lost: vstd::wrapping::i64_specs::wrapping_add(
                                vstd::wrapping::i64_specs::wrapping_sub(
                                    (seq - fs) as i64,
                                    pk as i64,
                                ),
                                1,
                            ),
                        },
                    ) && final(self).fresh()
                } else {
                    r is None && final(self).packets() == pk && final(self).out_of_order() == ooo
                        && final(self).total_bytes() == tb && final(self).prev_seq() == seq
                        && final(self).first_seq() == fs && !final(self).fresh()
                }
            }),
    {
        if self.prev_seq > 0 && !(self.prev_seq as u64 + 1 == seq as u64) {
            self.out_of_order = self.out_of_order.wrapping_add(1);
        }
        if self.first_packet {
            self.first_seq = seq;
            self.first_packet = false;
        }
        self.prev_seq = seq;
        self.packets = self.packets.wrapping_add(1);
        self.total_bytes = self.total_bytes.wrapping_add(nbytes);
        if res == 1 {
            proof {
                assert(-0x1_0000_0000 < seq - self.first_seq < 0x1_0000_0000);
            }
            let summary = RoundSummary {
                packets: self.packets,
                out_of_order: self.out_of_order,
                total_bytes: self.total_bytes,
                lost: (seq as i64 - self.first_seq as i64).wrapping_sub(
                    #[verifier::truncate] (self.packets as i64),
                ).wrapping_add(1),
            };
            self.prev_seq = 0;
            self.packets = 0;
            self.out_of_order = 0;
            self.total_bytes = 0;
            self.first_seq = 0;
            self.first_packet = true;
            Some(summary)
        } else {
            None
        }
    }
}

} // verus!
