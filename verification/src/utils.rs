//! Prefix masks and truncation of addresses to their network part.

use vstd::prelude::*;
use crate::errors::NetworkParseError;

verus! {

/// The greatest prefix length of an IPv4 block.
pub const MAX_LENGTH: u8 = 32;

/// The 32-bit value whose top `len` bits are one and whose other bits are zero.
pub open spec fn prefix_mask(len: u8) -> u32
    recommends
        len <= 32,
{
    if len == 0 {
        0u32
    } else {
        0xffff_ffffu32 << ((32 - len) as u32)
    }
}

/// `addr` with every bit outside its top `len` bits cleared.
pub open spec fn truncate(addr: u32, len: u8) -> u32
    recommends
        len <= 32,
{
    addr & prefix_mask(len)
}

/// Bit number `i` of `addr`, counted from the most significant bit, which is bit 1.
pub open spec fn bit_at(addr: u32, i: u8) -> u32
    recommends
        1 <= i <= 32,
{
    (addr >> ((32 - i) as u32)) & 1u32
}

/// A bit is zero or one.
pub proof fn lemma_bit_at_range(addr: u32, i: u8)
    ensures
        bit_at(addr, i) < 2,
{
    assert(bit_at(addr, i) < 2) by (bit_vector);
}

/// Bit `i` of the mask for `len` is set exactly when `i` lies within the first `len` bits.
pub proof fn lemma_prefix_mask_bits(len: u8, i: u8)
    requires
        len <= 32,
        1 <= i <= 32,
    ensures
        bit_at(prefix_mask(len), i) == if i <= len { 1u32 } else { 0u32 },
{
    assert(bit_at(prefix_mask(len), i) == if i <= len { 1u32 } else { 0u32 }) by (bit_vector)
        requires
            len <= 32,
            1 <= i <= 32,
    ;
}

/// The mask for no bits is zero and the mask for all 32 bits is all ones. So truncating to
/// no bits gives the all-zero address, and truncating to all 32 bits changes nothing.
pub proof fn lemma_truncate_ends(addr: u32)
    ensures
        prefix_mask(0) == 0,
        prefix_mask(32) == 0xffff_ffffu32,
        truncate(addr, 0) == 0,
        truncate(addr, 32) == addr,
{
    assert(prefix_mask(0) == 0 && prefix_mask(32) == 0xffff_ffffu32 && truncate(addr, 0) == 0
        && truncate(addr, 32) == addr) by (bit_vector);
}

/// Truncating twice to the same length is the same as truncating once.
pub proof fn lemma_truncate_idempotent(addr: u32, len: u8)
    requires
        len <= 32,
    ensures
        truncate(truncate(addr, len), len) == truncate(addr, len),
{
    assert(truncate(truncate(addr, len), len) == truncate(addr, len)) by (bit_vector)
        requires
            len <= 32,
    ;
}

/// Truncating to a longer prefix first does not change a truncation to a shorter one.
pub proof fn lemma_truncate_nested(addr: u32, short: u8, long: u8)
    requires
        short <= long <= 32,
    ensures
        truncate(truncate(addr, long), short) == truncate(addr, short),
{
    assert(truncate(truncate(addr, long), short) == truncate(addr, short)) by (bit_vector)
        requires
            short <= long <= 32,
    ;
}

/// Two addresses that agree on their first `len` bits agree on each of those bits.
pub proof fn lemma_prefix_fixes_bit(a: u32, b: u32, len: u8, i: u8)
    requires
        1 <= i <= len <= 32,
        truncate(a, len) == truncate(b, len),
    ensures
        bit_at(a, i) == bit_at(b, i),
{
    assert(bit_at(a, i) == bit_at(b, i)) by (bit_vector)
        requires
            1 <= i <= len <= 32,
            truncate(a, len) == truncate(b, len),
    ;
}

/// Two addresses that agree on their first `len` bits and on the next bit agree on their
/// first `len + 1` bits, and the other way round.
pub proof fn lemma_prefix_extends(a: u32, b: u32, len: u8)
    requires
        len < 32,
    ensures
        truncate(a, (len + 1) as u8) == truncate(b, (len + 1) as u8) <==> (truncate(a, len)
            == truncate(b, len) && bit_at(a, (len + 1) as u8) == bit_at(b, (len + 1) as u8)),
{
    let next: u8 = (len + 1) as u8;
    assert(truncate(a, next) == truncate(b, next) <==> (truncate(a, len) == truncate(b, len)
        && bit_at(a, next) == bit_at(b, next))) by (bit_vector)
        requires
            len < 32,
            next == len + 1,
    ;
}

/// Computes the mask that selects the top `len` bits of an address: its first `len` bits
/// are one and its other bits are zero.
///
/// Fails exactly when `len` exceeds 32.
pub fn get_cidr_mask(len: u8) -> (r: Result<u32, NetworkParseError>)
    ensures
        len <= 32 ==> r == Ok::<u32, NetworkParseError>(prefix_mask(len)),
        len <= 32 ==> forall|i: u8|
            1 <= i <= 32 ==> #[trigger] bit_at(r->Ok_0, i) == if i <= len {
                1u32
            } else {
                0u32
            },
        len > 32 ==> r == Err::<u32, NetworkParseError>(NetworkParseError::NetworkLengthError),
{
    if len > MAX_LENGTH {
        Err(NetworkParseError::NetworkLengthError)
    } else {
        proof {
            assert forall|i: u8| 1 <= i <= 32 implies #[trigger] bit_at(prefix_mask(len), i) == if i
                <= len {
                1u32
            } else {
                0u32
            } by {
                lemma_prefix_mask_bits(len, i);
            }
        }
        if len == 0 {
            Ok(0)
        } else {
            let right_len: u32 = (MAX_LENGTH - len) as u32;
            Ok(u32::MAX << right_len)
        }
    }
}

/// Clears the bits of `addr` that lie outside its top `len` bits.
///
/// Fails exactly when `len` exceeds 32. A length of 0 gives the all-zero address and a
/// length of 32 gives `addr` back.
pub fn cut_addr(addr: u32, len: u8) -> (r: Result<u32, NetworkParseError>)
    ensures
        len <= 32 ==> r == Ok::<u32, NetworkParseError>(truncate(addr, len)),
        len > 32 ==> r == Err::<u32, NetworkParseError>(NetworkParseError::NetworkLengthError),
        len == 0 ==> r == Ok::<u32, NetworkParseError>(0u32),
        len == 32 ==> r == Ok::<u32, NetworkParseError>(addr),
{
    if len > MAX_LENGTH {
        Err(NetworkParseError::NetworkLengthError)
    } else {
        let right_len: u32 = (MAX_LENGTH - len) as u32;
        let new_bits: u32 = if right_len == 32 {
            0
        } else {
            (addr >> right_len) << right_len
        };
        assert(new_bits == truncate(addr, len)) by (bit_vector)
            requires
                len <= 32,
                right_len == 32 - len,
                right_len == 32 ==> new_bits == 0,
                right_len < 32 ==> new_bits == (addr >> right_len) << right_len,
        ;
        proof {
            lemma_truncate_ends(addr);
        }
        Ok(new_bits)
    }
}

} // verus!
