//! Reversible rewriting of the UDP source port used for path selection.
//!
//! Consecutive packets of one message must land on different ECMP hash
//! buckets, so the egress path XORs the low bits of the packet sequence
//! number into the UDP source port. The rewrite is an involution: the
//! ingress path recovers the original port from the same sequence number.

use vstd::prelude::*;

verus! {

/// Round-robin position across the sprayed links, used to spread packets
/// of one message over a fixed fan-out.
pub struct LinkCounter {
    pub links: u8,
    pub counter: u8,
}

/// What `mask` and `unmask` compute: the port XORed with the low 16 bits
/// of the sequence number.
pub open spec fn spec_mask(port: u16, num: u32) -> u16 {
    port ^ (num as u16)
}

/// Rewrite a UDP source port for path selection from the packet sequence
/// number.
pub fn mask(port: u16, num: u32) -> (r: u16)
    ensures
        r == spec_mask(port, num),
{
    port ^ num as u16
}

/// Recover the original UDP source port from a masked one and the same
/// sequence number.
pub fn unmask(port: u16, num: u32) -> (r: u16)
    ensures
        r == spec_mask(port, num),
{
    port ^ num as u16
}

/// Path-hash reversibility: unmasking a masked port with the same sequence
/// number gives back the original port, for every port and sequence number.
pub proof fn lemma_mask_unmask(port: u16, num: u32)
    ensures
        spec_mask(spec_mask(port, num), num) == port,
{
    let m = num as u16;
    assert((port ^ m) ^ m == port) by (bit_vector);
}

/// The round-robin position after seeing sequence number `seq`: back to
/// the first link at each multiple of the fan-out, one further otherwise.
pub open spec fn spec_mask2_counter(seq: u32, links: u8, counter: u8) -> u8
    recommends
        links > 0,
{
    if seq % (links as u32) == 0 {
        0u8
    } else {
        vstd::wrapping::u8_specs::wrapping_add(counter, 1)
    }
}

/// Rewrite a UDP source port spreading a message over a fixed fan-out of
/// links: the sequence number is first reduced by the round-robin
/// position, so a whole group of consecutive packets keeps one port.
pub fn mask2(unmasked_port: u16, seq: u32, link_counter: &mut LinkCounter) -> (r: u16)
    requires
        old(link_counter).links > 0,
    ensures
        final(link_counter).links == old(link_counter).links,
        final(link_counter).counter == spec_mask2_counter(
            seq,
            old(link_counter).links,
            old(link_counter).counter,
        ),
        r == spec_mask(
            unmasked_port,
            vstd::wrapping::u32_specs::wrapping_sub(seq, final(link_counter).counter as u32),
        ),
{
    if seq % (link_counter.links as u32) == 0 {
        link_counter.counter = 0;
    } else {
        link_counter.counter = link_counter.counter.wrapping_add(1);
    }
    let reduced_seq = seq.wrapping_sub(link_counter.counter as u32);
    unmasked_port ^ reduced_seq as u16
}

/// What `hash_16bit` computes: a fixed avalanche mix of one 16-bit value.
pub open spec fn spec_hash_16bit(num: u16) -> u16 {
    let h1 = vstd::wrapping::u16_specs::wrapping_mul(num ^ (num >> 8), 0x00FF);
    let h2 = vstd::wrapping::u16_specs::wrapping_mul(h1 ^ (h1 >> 5), 0x5BD1);
    let h3 = h2 ^ (h2 >> 3);
    let h4 = h3 ^ (h3 >> 2);
    h4 ^ (h4 >> 1)
}

/// A fixed avalanche hash of a 16-bit value, an alternative to the XOR
/// mask for spreading consecutive ports over ECMP buckets.
pub fn hash_16bit(num: u16) -> (r: u16)
    ensures
        r == spec_hash_16bit(num),
{
    let mut hash = num;
    hash = (hash ^ (hash >> 8)).wrapping_mul(0x00FF);
    hash = (hash ^ (hash >> 5)).wrapping_mul(0x5BD1);
    hash = hash ^ (hash >> 3);
    hash = hash ^ (hash >> 2);
    hash ^ (hash >> 1)
}

} // verus!
