//! Time-plus-randomness unique identifiers.
//!
//! A 64-bit identifier carries the wall-clock millisecond count modulo
//! `2^32` in its high half and a fresh uniform random 32-bit integer in its
//! low half; the 128-bit identifier does the same with 64-bit halves. The
//! clock and the random source are ambient collaborators: nothing is
//! promised of the values they hand back, and the assembly of the halves is
//! what is verified here.

use rand::RngCore;
use vstd::prelude::*;

use crate::error::Error;

verus! {

/// Relies on `std::time::SystemTime::now` and `duration_since`: whole
/// milliseconds since the Unix epoch, or `None` when the platform clock
/// reads before the epoch. Nothing is promised of the value: the clock may
/// say anything.
#[verifier::external_body]
fn now_unix_ms() -> Option<u128> {
    std::time::SystemTime::now().duration_since(std::time::UNIX_EPOCH).ok().map(|d| d.as_millis())
}

/// Relies on `rand::thread_rng` and `RngCore::next_u32`: a fresh 32-bit
/// integer from the thread-local generator. Nothing is promised of the
/// value: two calls may differ.
#[verifier::external_body]
fn random_u32() -> u32 {
    rand::thread_rng().next_u32()
}

/// Relies on `rand::thread_rng` and `RngCore::next_u64`: a fresh 64-bit
/// integer from the thread-local generator. Nothing is promised of the
/// value: two calls may differ.
#[verifier::external_body]
fn random_u64() -> u64 {
    rand::thread_rng().next_u64()
}

/// Assembles a 64-bit identifier from a millisecond reading and a random
/// 32-bit integer: the high 32 bits are the reading modulo `2^32`, the low
/// 32 bits are the random integer, and the whole equals their weighted sum
/// because the halves occupy disjoint bit ranges.
pub fn uid64_from_parts(t_ms: u128, r: u32) -> (u: u64)
    ensures
        u >> 32u64 == t_ms % 0x1_0000_0000,
        u & 0xffff_ffffu64 == r,
        u == (t_ms % 0x1_0000_0000) * 0x1_0000_0000 + r,
{
    let t32: u32 = (t_ms % 0x1_0000_0000) as u32;
    let u: u64 = ((t32 as u64) << 32u64) | (r as u64);
    proof {
        assert((((t32 as u64) << 32u64) | (r as u64)) >> 32u64 == t32 as u64) by (bit_vector);
        assert((((t32 as u64) << 32u64) | (r as u64)) & 0xffff_ffffu64 == r as u64) by (bit_vector);
        assert((((t32 as u64) << 32u64) | (r as u64)) == (t32 as u64) * 0x1_0000_0000 + (
        r as u64)) by (bit_vector);
    }
    u
}

/// Assembles a 128-bit identifier from a millisecond reading and a random
/// 64-bit integer: the high 64 bits are the reading modulo `2^64`, the low
/// 64 bits are the random integer, and the whole equals their weighted sum
/// because the halves occupy disjoint bit ranges.
pub fn uid128_from_parts(t_ms: u128, r: u64) -> (u: u128)
    ensures
        u >> 64u128 == t_ms % 0x1_0000_0000_0000_0000,
        u & 0xffff_ffff_ffff_ffffu128 == r,
        u == (t_ms % 0x1_0000_0000_0000_0000) * 0x1_0000_0000_0000_0000 + r,
{
    let t64: u64 = (t_ms % 0x1_0000_0000_0000_0000) as u64;
    let u: u128 = ((t64 as u128) << 64u128) | (r as u128);
    proof {
        assert((((t64 as u128) << 64u128) | (r as u128)) >> 64u128 == t64 as u128) by (bit_vector);
        assert((((t64 as u128) << 64u128) | (r as u128)) & 0xffff_ffff_ffff_ffffu128 == r
            as u128) by (bit_vector);
        assert((((t64 as u128) << 64u128) | (r as u128)) == (t64 as u128) * 0x1_0000_0000_0000_0000
            + (r as u128)) by (bit_vector);
    }
    u
}

/// Mints a 64-bit identifier: the current wall-clock millisecond count
/// modulo `2^32` in the high half, a fresh random 32-bit integer in the low
/// half. Fails exactly when the clock cannot be read, and then with
/// `ClockUnavailable`.
pub fn uid64() -> (r: Result<u64, Error>)
    ensures
        r is Err ==> r->Err_0 == Error::ClockUnavailable,
{
    match now_unix_ms() {
        Some(t) => Ok(uid64_from_parts(t, random_u32())),
        None => Err(Error::ClockUnavailable),
    }
}

/// Mints a 128-bit identifier: the current wall-clock millisecond count
/// modulo `2^64` in the high half, a fresh random 64-bit integer in the low
/// half. Fails exactly when the clock cannot be read, and then with
/// `ClockUnavailable`.
pub fn uid128() -> (r: Result<u128, Error>)
    ensures
        r is Err ==> r->Err_0 == Error::ClockUnavailable,
{
    match now_unix_ms() {
        Some(t) => Ok(uid128_from_parts(t, random_u64())),
        None => Err(Error::ClockUnavailable),
    }
}

} // verus!
