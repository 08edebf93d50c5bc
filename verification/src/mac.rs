//! MAC addresses as values: conversion between the six raw bytes, the
//! packed 48-bit integer form, and the colon-separated hex text form.

use vstd::prelude::*;

verus! {

broadcast use vstd::array::group_array_axioms;

/// The packed 48-bit integer form of a MAC address, highest byte first.
pub open spec fn spec_mac_int(m: Seq<u8>) -> u64
    recommends
        m.len() == 6,
{
    (((m[0] as u64) << 40) | ((m[1] as u64) << 32) | ((m[2] as u64) << 24) | ((m[3] as u64)
        << 16) | ((m[4] as u64) << 8) | (m[5] as u64)) as u64
}

/// Pack a MAC address into one integer, highest byte first.
pub fn mac_to_int(mac: [u8; 6]) -> (r: u64)
    ensures
        r == spec_mac_int(mac@),
{
    ((mac[0] as u64) << 40) | ((mac[1] as u64) << 32) | ((mac[2] as u64) << 24) | ((mac[3] as u64)
        << 16) | ((mac[4] as u64) << 8) | (mac[5] as u64)
}

/// The character for one hex digit, lower case.
pub open spec fn hex_digit(n: u8) -> char
    recommends
        n < 16,
{
    if n == 0 {
        '0'
    } else if n == 1 {
        '1'
    } else if n == 2 {
        '2'
    } else if n == 3 {
        '3'
    } else if n == 4 {
        '4'
    } else if n == 5 {
        '5'
    } else if n == 6 {
        '6'
    } else if n == 7 {
        '7'
    } else if n == 8 {
        '8'
    } else if n == 9 {
        '9'
    } else if n == 10 {
        'a'
    } else if n == 11 {
        'b'
    } else if n == 12 {
        'c'
    } else if n == 13 {
        'd'
    } else if n == 14 {
        'e'
    } else {
        'f'
    }
}

/// The character for one hex digit, lower case.
fn hex_char(n: u8) -> (c: char)
    requires
        n < 16,
    ensures
        c == hex_digit(n),
{
    if n == 0 {
        '0'
    } else if n == 1 {
        '1'
    } else if n == 2 {
        '2'
    } else if n == 3 {
        '3'
    } else if n == 4 {
        '4'
    } else if n == 5 {
        '5'
    } else if n == 6 {
        '6'
    } else if n == 7 {
        '7'
    } else if n == 8 {
        '8'
    } else if n == 9 {
        '9'
    } else if n == 10 {
        'a'
    } else if n == 11 {
        'b'
    } else if n == 12 {
        'c'
    } else if n == 13 {
        'd'
    } else if n == 14 {
        'e'
    } else {
        'f'
    }
}

/// Relies on `String::push`: appends exactly one character.
#[verifier::external_body]
fn push_char(s: &mut String, c: char)
    ensures
        final(s)@ == old(s)@.push(c),
{
    s.push(c)
}

/// The byte of a packed MAC value at position `i`, highest first.
pub open spec fn spec_mac_byte(value: i64, i: int) -> u8
    recommends
        0 <= i < 6,
{
    ((value >> (8 * (5 - i)) as i64) & 0xff) as u8
}

/// The two hex characters of one byte.
pub open spec fn spec_byte_chars(b: u8) -> Seq<char> {
    seq![hex_digit((b >> 4) as u8), hex_digit((b & 0xf) as u8)]
}

/// The colon-separated lower-case hex text of the low 48 bits of a
/// packed MAC value.
pub open spec fn spec_mac_str(value: i64) -> Seq<char> {
    spec_byte_chars(spec_mac_byte(value, 0)) + seq![':'] + spec_byte_chars(
        spec_mac_byte(value, 1),
    ) + seq![':'] + spec_byte_chars(spec_mac_byte(value, 2)) + seq![':'] + spec_byte_chars(
        spec_mac_byte(value, 3),
    ) + seq![':'] + spec_byte_chars(spec_mac_byte(value, 4)) + seq![':'] + spec_byte_chars(
        spec_mac_byte(value, 5),
    )
}

/// Both nibbles of a byte are below 16.
proof fn lemma_nibbles(b: u8)
    ensures
        (b >> 4) < 16,
        (b & 0xf) < 16,
{
    assert((b >> 4) < 16 && (b & 0xf) < 16) by (bit_vector);
}

/// Append the two hex characters of one byte.
fn push_byte_hex(s: &mut String, b: u8)
    ensures
        final(s)@ == old(s)@ + spec_byte_chars(b),
{
    proof {
        lemma_nibbles(b);
    }
    push_char(s, hex_char(b >> 4));
    push_char(s, hex_char(b & 0xf));
    proof {
        assert(s@ =~= old(s)@ + spec_byte_chars(b));
    }
}

/// The colon-separated lower-case hex text of the low 48 bits of a
/// packed MAC value.
pub fn int_to_mac(value: i64) -> (r: String)
    ensures
        r@ == spec_mac_str(value),
{
    let b0 = ((value >> 40) & 0xff) as u8;
    let b1 = ((value >> 32) & 0xff) as u8;
    let b2 = ((value >> 24) & 0xff) as u8;
    let b3 = ((value >> 16) & 0xff) as u8;
    let b4 = ((value >> 8) & 0xff) as u8;
    let b5 = (value & 0xff) as u8;
    let mut s = String::new();
    push_byte_hex(&mut s, b0);
    push_char(&mut s, ':');
    push_byte_hex(&mut s, b1);
    push_char(&mut s, ':');
    push_byte_hex(&mut s, b2);
    push_char(&mut s, ':');
    push_byte_hex(&mut s, b3);
    push_char(&mut s, ':');
    push_byte_hex(&mut s, b4);
    push_char(&mut s, ':');
    push_byte_hex(&mut s, b5);
    proof {
        assert(value >> 0i64 == value) by (bit_vector);
        assert(b0 == spec_mac_byte(value, 0));
        assert(b1 == spec_mac_byte(value, 1));
        assert(b2 == spec_mac_byte(value, 2));
        assert(b3 == spec_mac_byte(value, 3));
        assert(b4 == spec_mac_byte(value, 4));
        assert(b5 == spec_mac_byte(value, 5));
        assert(s@ =~= spec_mac_str(value));
    }
    s
}

/// The numeric value of one hex character, or 16 when it is none.
pub open spec fn hex_val(c: char) -> int {
    if c == '0' {
        0
    } else if c == '1' {
        1
    } else if c == '2' {
        2
    } else if c == '3' {
        3
    } else if c == '4' {
        4
    } else if c == '5' {
        5
    } else if c == '6' {
        6
    } else if c == '7' {
        7
    } else if c == '8' {
        8
    } else if c == '9' {
        9
    } else if c == 'a' || c == 'A' {
        10
    } else if c == 'b' || c == 'B' {
        11
    } else if c == 'c' || c == 'C' {
        12
    } else if c == 'd' || c == 'D' {
        13
    } else if c == 'e' || c == 'E' {
        14
    } else if c == 'f' || c == 'F' {
        15
    } else {
        16
    }
}

/// The numeric value of one hex character.
fn hex_val_exec(c: char) -> (r: u8)
    requires
        hex_val(c) < 16,
    ensures
        r == hex_val(c),
{
    if c == '0' {
        0
    } else if c == '1' {
        1
    } else if c == '2' {
        2
    } else if c == '3' {
        3
    } else if c == '4' {
        4
    } else if c == '5' {
        5
    } else if c == '6' {
        6
    } else if c == '7' {
        7
    } else if c == '8' {
        8
    } else if c == '9' {
        9
    } else if c == 'a' || c == 'A' {
        10
    } else if c == 'b' || c == 'B' {
        11
    } else if c == 'c' || c == 'C' {
        12
    } else if c == 'd' || c == 'D' {
        13
    } else if c == 'e' || c == 'E' {
        14
    } else {
        15
    }
}

/// A well-formed colon-separated MAC text: six two-digit hex groups.
pub open spec fn is_mac_text(s: Seq<char>) -> bool {
    &&& s.len() == 17
    &&& s[2] == ':' && s[5] == ':' && s[8] == ':' && s[11] == ':' && s[14] == ':'
    &&& hex_val(s[0]) < 16 && hex_val(s[1]) < 16
    &&& hex_val(s[3]) < 16 && hex_val(s[4]) < 16
    &&& hex_val(s[6]) < 16 && hex_val(s[7]) < 16
    &&& hex_val(s[9]) < 16 && hex_val(s[10]) < 16
    &&& hex_val(s[12]) < 16 && hex_val(s[13]) < 16
    &&& hex_val(s[15]) < 16 && hex_val(s[16]) < 16
}

/// The six bytes a well-formed MAC text denotes.
pub open spec fn spec_mac_text_byte(s: Seq<char>, i: int) -> u8
    recommends
        is_mac_text(s),
        0 <= i < 6,
{
    (hex_val(s[3 * i]) * 16 + hex_val(s[3 * i + 1])) as u8
}

/// Parse a colon-separated MAC text into its six bytes.
pub fn mac_to_vec(mac: &str) -> (r: [u8; 6])
    requires
        is_mac_text(mac@),
    ensures
        r@[0] == spec_mac_text_byte(mac@, 0),
        r@[1] == spec_mac_text_byte(mac@, 1),
        r@[2] == spec_mac_text_byte(mac@, 2),
        r@[3] == spec_mac_text_byte(mac@, 3),
        r@[4] == spec_mac_text_byte(mac@, 4),
        r@[5] == spec_mac_text_byte(mac@, 5),
{
    let c0h = mac.get_char(0);
    let c0l = mac.get_char(1);
    let c1h = mac.get_char(3);
    let c1l = mac.get_char(4);
    let c2h = mac.get_char(6);
    let c2l = mac.get_char(7);
    let c3h = mac.get_char(9);
    let c3l = mac.get_char(10);
    let c4h = mac.get_char(12);
    let c4l = mac.get_char(13);
    let c5h = mac.get_char(15);
    let c5l = mac.get_char(16);
    let r = [
        hex_val_exec(c0h) * 16 + hex_val_exec(c0l),
        hex_val_exec(c1h) * 16 + hex_val_exec(c1l),
        hex_val_exec(c2h) * 16 + hex_val_exec(c2l),
        hex_val_exec(c3h) * 16 + hex_val_exec(c3l),
        hex_val_exec(c4h) * 16 + hex_val_exec(c4l),
        hex_val_exec(c5h) * 16 + hex_val_exec(c5l),
    ];
    r
}

} // verus!
