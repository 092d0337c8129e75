use std::collections::HashSet;
use std::time::SystemTime;
use std::time::UNIX_EPOCH;

use bnuid::decode;
use bnuid::encode;
use bnuid::uid128;
use bnuid::uid128_from_parts;
use bnuid::uid64;
use bnuid::uid64_from_parts;

const ALPHABET: &str = "aAbBcCdDeEfFgGhHiIjJkKlLmMnNoOpPqQrRsStTuUvVwWxXyYzZ0123456789";

#[test]
fn uid64_parts_assemble_exactly() {
    let u = uid64_from_parts(0x1_2345_6789, 0xDEAD_BEEF);
    assert_eq!(u, 0x2345_6789_DEAD_BEEF);
    assert_eq!(u >> 32, 0x2345_6789);
    assert_eq!(u & 0xFFFF_FFFF, 0xDEAD_BEEF);
}

#[test]
fn uid128_parts_assemble_exactly() {
    let u = uid128_from_parts(0x1_0000_0000_0000_0123, 0x4567_89AB_CDEF_0011);
    assert_eq!(u, 0x0000_0000_0000_0123_4567_89AB_CDEF_0011);
    assert_eq!(u >> 64, 0x123);
    assert_eq!(u & 0xFFFF_FFFF_FFFF_FFFF, 0x4567_89AB_CDEF_0011);
}

#[test]
fn uid64_fits_in_64_bits_and_succeeds() {
    let u = uid64().unwrap();
    assert!(u as u128 <= u64::MAX as u128);
}

#[test]
fn uid128_fits_in_128_bits_and_succeeds() {
    uid128().unwrap();
}

#[test]
fn uid64_top_half_tracks_the_clock() {
    let before = SystemTime::now().duration_since(UNIX_EPOCH).unwrap().as_millis();
    let u = uid64().unwrap();
    let after = SystemTime::now().duration_since(UNIX_EPOCH).unwrap().as_millis();
    let high = (u >> 32) as u128;
    let before_mod = before % (1u128 << 32);
    let after_mod = after % (1u128 << 32);
    // The window is a few milliseconds wide; a 2^32 ms wrap inside it is
    // out of the question unless the clock itself jumped.
    if before_mod <= after_mod {
        assert!(before_mod <= high && high <= after_mod);
    }
}

#[test]
fn uid128_round_trips_through_the_codec() {
    for _ in 0..10 {
        let id = uid128().unwrap();
        let s = encode(id, ALPHABET).unwrap();
        assert_eq!(decode(&s, ALPHABET).unwrap(), id);
    }
}

#[test]
fn uid64_collision_smoke() {
    let count: usize = 10_000_000;
    let mut seen = HashSet::<u64>::with_capacity(count * 2);
    let mut collisions: usize = 0;
    for _ in 0..count {
        let id = uid64().unwrap();
        if !seen.insert(id) {
            collisions += 1;
        }
    }
    // Well under 1% of ten million draws.
    assert!(collisions < count / 100);
}
