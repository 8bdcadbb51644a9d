use vstd::prelude::*;

verus! {

/// The fields of a command word, as mathematical values.
pub open spec fn cmd_word_spec(write: bool, incr: bool, func: u32, addr: u32, len: u32) -> u32 {
    (if write { 1u32 } else { 0u32 }) << 31u32
        | (if incr { 1u32 } else { 0u32 }) << 30u32
        | (func & 3u32) << 28u32
        | (addr & 0x1FFFFu32) << 11u32
        | (len & 0x7FFu32)
}

/// Direction bit of a command word.
pub open spec fn cmd_write(w: u32) -> bool {
    (w >> 31u32) & 1u32 == 1u32
}

/// Increment bit of a command word.
pub open spec fn cmd_incr(w: u32) -> bool {
    (w >> 30u32) & 1u32 == 1u32
}

/// Function field of a command word.
pub open spec fn cmd_func(w: u32) -> u32 {
    (w >> 28u32) & 3u32
}

/// Address field of a command word.
pub open spec fn cmd_addr(w: u32) -> u32 {
    (w >> 11u32) & 0x1FFFFu32
}

/// Length field of a command word.
pub open spec fn cmd_len(w: u32) -> u32 {
    w & 0x7FFu32
}

/// Half-word rotation used before the device's word order is configured.
pub open spec fn swap16_spec(x: u32) -> u32 {
    (x << 16u32) | (x >> 16u32)
}

/// Encodes a command word: direction in bit 31, increment in bit 30, function
/// in bits 28..30, address in bits 11..28 and byte length in bits 0..11.
pub fn cmd_word(write: bool, incr: bool, func: u32, addr: u32, len: u32) -> (r: u32)
    ensures
        r == cmd_word_spec(write, incr, func, addr, len),
{
    (write as u32) << 31u32 | (incr as u32) << 30u32 | (func & 0b11) << 28u32 | (addr & 0x1FFFF)
        << 11u32 | (len & 0x7FF)
}

/// Decodes the direction bit.
pub fn cmd_word_write(w: u32) -> (r: bool)
    ensures
        r == cmd_write(w),
{
    (w >> 31u32) & 1 == 1
}

/// Decodes the increment bit.
pub fn cmd_word_incr(w: u32) -> (r: bool)
    ensures
        r == cmd_incr(w),
{
    (w >> 30u32) & 1 == 1
}

/// Decodes the function field.
pub fn cmd_word_func(w: u32) -> (r: u32)
    ensures
        r == cmd_func(w),
{
    (w >> 28u32) & 3
}

/// Decodes the address field.
pub fn cmd_word_addr(w: u32) -> (r: u32)
    ensures
        r == cmd_addr(w),
{
    (w >> 11u32) & 0x1FFFF
}

/// Decodes the length field.
pub fn cmd_word_len(w: u32) -> (r: u32)
    ensures
        r == cmd_len(w),
{
    w & 0x7FF
}

/// Rotates a word left by 16 bits, exchanging its half-words.
pub fn swap16(x: u32) -> (r: u32)
    ensures
        r == swap16_spec(x),
{
    (x << 16u32) | (x >> 16u32)
}

/// Decoding an encoded command word gives back every field that fits its
/// width: the fields never overlap.
pub proof fn lemma_cmd_word_round_trip(write: bool, incr: bool, func: u32, addr: u32, len: u32)
    requires
        func < 4,
        addr < 0x20000,
        len < 0x800,
    ensures
        cmd_write(cmd_word_spec(write, incr, func, addr, len)) == write,
        cmd_incr(cmd_word_spec(write, incr, func, addr, len)) == incr,
        cmd_func(cmd_word_spec(write, incr, func, addr, len)) == func,
        cmd_addr(cmd_word_spec(write, incr, func, addr, len)) == addr,
        cmd_len(cmd_word_spec(write, incr, func, addr, len)) == len,
{
    let w: u32 = if write { 1 } else { 0 };
    let i: u32 = if incr { 1 } else { 0 };
    assert((w << 31u32 | i << 30u32 | (func & 3u32) << 28u32 | (addr & 0x1FFFFu32) << 11u32 | (len
        & 0x7FFu32)) >> 31u32 == w) by (bit_vector)
        requires
            i <= 1,
            w <= 1,
    ;
    assert(w & 1u32 == w) by (bit_vector)
        requires
            w <= 1,
    ;
    assert(((w << 31u32 | i << 30u32 | (func & 3u32) << 28u32 | (addr & 0x1FFFFu32) << 11u32 | (len
        & 0x7FFu32)) >> 30u32) & 1u32 == i) by (bit_vector)
        requires
            i <= 1,
    ;
    assert(((w << 31u32 | i << 30u32 | (func & 3u32) << 28u32 | (addr & 0x1FFFFu32) << 11u32 | (len
        & 0x7FFu32)) >> 28u32) & 3u32 == func) by (bit_vector)
        requires
            func < 4,
    ;
    assert(((w << 31u32 | i << 30u32 | (func & 3u32) << 28u32 | (addr & 0x1FFFFu32) << 11u32 | (len
        & 0x7FFu32)) >> 11u32) & 0x1FFFFu32 == addr) by (bit_vector)
        requires
            addr < 0x20000,
    ;
    assert((w << 31u32 | i << 30u32 | (func & 3u32) << 28u32 | (addr & 0x1FFFFu32) << 11u32 | (len
        & 0x7FFu32)) & 0x7FFu32 == len) by (bit_vector)
        requires
            len < 0x800,
    ;
}

/// Exchanging the half-words twice gives back the same word, so the
/// swapped encoding and decoding of the bring-up handshake undo each other.
pub proof fn lemma_swap16_involution(x: u32)
    ensures
        swap16_spec(swap16_spec(x)) == x,
{
    assert(((x << 16u32) | (x >> 16u32)) << 16u32 | ((x << 16u32) | (x >> 16u32)) >> 16u32 == x)
        by (bit_vector);
}

} // verus!
