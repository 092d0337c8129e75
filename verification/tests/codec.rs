use bnuid::decode;
use bnuid::encode;
use bnuid::Error;

const ALPHABET: &str = "aAbBcCdDeEfFgGhHiIjJkKlLmMnNoOpPqQrRsStTuUvVwWxXyYzZ0123456789";

#[test]
fn zero_encodes_as_empty_string() {
    assert_eq!(encode(0, ALPHABET).unwrap(), "");
    assert_eq!(decode("", ALPHABET).unwrap(), 0);
}

#[test]
fn one_encodes_as_character_at_index_one() {
    assert_eq!(encode(1, ALPHABET).unwrap(), "A");
    assert_eq!(decode("A", ALPHABET).unwrap(), 1);
}

#[test]
fn sixty_one_encodes_as_character_at_index_sixty_one() {
    assert_eq!(encode(61, ALPHABET).unwrap(), "9");
    assert_eq!(decode("9", ALPHABET).unwrap(), 61);
}

#[test]
fn sixty_two_encodes_as_two_characters() {
    let s = encode(62, ALPHABET).unwrap();
    assert_eq!(s.chars().count(), 2);
    assert_eq!(s, "Aa");
    assert_eq!(decode(&s, ALPHABET).unwrap(), 62);
}

#[test]
fn large_value_round_trips() {
    let s = encode(512312, ALPHABET).unwrap();
    let len = s.chars().count();
    assert!(3 <= len && len <= 4);
    assert_eq!(decode(&s, ALPHABET).unwrap(), 512312);
}

#[test]
fn round_trip_on_many_values() {
    let cases: [u128; 12] = [
        0,
        1,
        61,
        62,
        63,
        3843,
        3844,
        238327,
        238328,
        1_000_000_007,
        1 << 64,
        u128::MAX,
    ];
    for &n in cases.iter() {
        let s = encode(n, ALPHABET).unwrap();
        assert_eq!(decode(&s, ALPHABET).unwrap(), n);
    }
}

#[test]
fn round_trip_on_a_binary_alphabet() {
    for n in 0u128..200 {
        let s = encode(n, "01").unwrap();
        assert_eq!(decode(&s, "01").unwrap(), n);
    }
    assert_eq!(encode(5, "01").unwrap(), "101");
    assert_eq!(decode("101", "01").unwrap(), 5);
}

#[test]
fn encode_inverts_decode_on_canonical_strings() {
    // Canonical: no leading lowest-valued digit ('a' in this alphabet).
    for s in ["", "A", "9", "Aa", "bEId", "9999"] {
        let n = decode(s, ALPHABET).unwrap();
        assert_eq!(encode(n, ALPHABET).unwrap(), s);
    }
    // A leading 'a' contributes nothing; encoding strips it.
    assert_eq!(encode(decode("aA", ALPHABET).unwrap(), ALPHABET).unwrap(), "A");
}

#[test]
fn encoded_length_is_ceil_log() {
    let cases: [(u128, usize); 8] = [
        (1, 1),
        (61, 1),
        (62, 2),
        (3843, 2),
        (3844, 3),
        (238327, 3),
        (238328, 4),
        (512312, 4),
    ];
    for &(n, expected) in cases.iter() {
        assert_eq!(encode(n, ALPHABET).unwrap().chars().count(), expected);
    }
}

#[test]
fn encoded_characters_come_from_the_alphabet() {
    let cases: [u128; 5] = [1, 62, 512312, 1 << 80, u128::MAX];
    for &n in cases.iter() {
        let s = encode(n, ALPHABET).unwrap();
        for c in s.chars() {
            assert!(ALPHABET.chars().any(|a| a == c));
        }
    }
}

#[test]
fn decode_is_linear_in_concatenation() {
    let s1 = "bE";
    let s2 = "Id";
    let joined = format!("{}{}", s1, s2);
    let b: u128 = 62;
    let weight = b.pow(s2.chars().count() as u32);
    assert_eq!(
        decode(&joined, ALPHABET).unwrap(),
        decode(s1, ALPHABET).unwrap() * weight + decode(s2, ALPHABET).unwrap()
    );
    assert_eq!(decode(&joined, ALPHABET).unwrap(), 512312);
}

#[test]
fn empty_string_decodes_to_zero_on_any_alphabet() {
    assert_eq!(decode("", ALPHABET).unwrap(), 0);
    assert_eq!(decode("", "01").unwrap(), 0);
    assert_eq!(decode("", "xyz").unwrap(), 0);
}

#[test]
fn short_alphabet_is_rejected() {
    assert_eq!(encode(7, "a"), Err(Error::InvalidAlphabet));
    assert_eq!(encode(7, ""), Err(Error::InvalidAlphabet));
    assert_eq!(decode("aa", "a"), Err(Error::InvalidAlphabet));
    assert_eq!(decode("", ""), Err(Error::InvalidAlphabet));
}

#[test]
fn duplicate_alphabet_is_rejected() {
    assert_eq!(encode(7, "aab"), Err(Error::InvalidAlphabet));
    assert_eq!(decode("b", "aba"), Err(Error::InvalidAlphabet));
}

#[test]
fn foreign_symbol_is_rejected() {
    assert_eq!(decode("a!a", ALPHABET), Err(Error::InvalidSymbol));
    assert_eq!(decode("2", "01"), Err(Error::InvalidSymbol));
}

#[test]
fn overflowing_decode_is_rejected() {
    let too_long: String = std::iter::repeat('9').take(22).collect();
    assert_eq!(decode(&too_long, ALPHABET), Err(Error::OutOfRange));
}

#[test]
fn decode_rejects_just_past_the_widest_value() {
    let widest = encode(u128::MAX, ALPHABET).unwrap();
    assert_eq!(decode(&widest, ALPHABET).unwrap(), u128::MAX);
    // One more trailing digit multiplies the value by the base: too wide.
    let past = format!("{}a", widest);
    assert_eq!(decode(&past, ALPHABET), Err(Error::OutOfRange));
}

#[test]
fn error_kinds_describe_themselves() {
    assert_eq!(Error::InvalidAlphabet.describe(), "invalid alphabet");
    assert_eq!(Error::InvalidSymbol.describe(), "invalid symbol");
    assert_eq!(Error::OutOfRange.describe(), "out of range");
    assert_eq!(Error::ClockUnavailable.describe(), "clock unavailable");
}
