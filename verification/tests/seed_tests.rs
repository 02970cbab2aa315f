use uv_map::{hashcode, prng, string_to_seed};

#[test]
fn prng_first_draws_from_zero() {
    let mut state: u32 = 0;
    assert_eq!(prng(&mut state), 12345);
    assert_eq!(state, 12345);
    assert_eq!(prng(&mut state), 1406932606);
    assert_eq!(state, 3554416254);
    assert_eq!(prng(&mut state), 654583775);
    assert_eq!(state, 2802067423);
    assert_eq!(prng(&mut state), 1449466924);
    assert_eq!(state, 3596950572);
}

#[test]
fn prng_wraps_and_masks() {
    let mut state: u32 = 0xffff_ffff;
    assert_eq!(prng(&mut state), 1043980748);
    assert_eq!(state, 3191464396);

    let mut state: u32 = 0x8000_0000;
    assert_eq!(prng(&mut state), 12345);
    assert_eq!(state, 2147495993);

    let mut state: u32 = 1;
    assert_eq!(prng(&mut state), 1103527590);
    assert_eq!(state, 1103527590);

    let mut state: u32 = 42;
    assert_eq!(prng(&mut state), 1250496027);
    assert_eq!(state, 3397979675);
}

#[test]
fn prng_output_is_below_two_to_the_31() {
    let mut state: u32 = 987654321;
    for _ in 0..1000 {
        let before = state;
        let r = prng(&mut state);
        assert!(r < 0x8000_0000);
        assert_eq!(r, state & 0x7fff_ffff);
        assert_eq!(state, before.wrapping_mul(1103515245).wrapping_add(12345));
    }
}

#[test]
fn prng_is_deterministic() {
    let mut a: u32 = 2024;
    let mut b: u32 = 2024;
    for _ in 0..100 {
        assert_eq!(prng(&mut a), prng(&mut b));
        assert_eq!(a, b);
    }
}

#[test]
fn hashcode_of_short_strings() {
    assert_eq!(hashcode(b""), 0);
    assert_eq!(hashcode(b"a"), 97);
    assert_eq!(hashcode(b"ab"), 3105);
    assert_eq!(hashcode(b"0"), 48);
    assert_eq!(hashcode(b"42"), 1662);
    assert_eq!(hashcode(b"hello"), 99162322);
}

#[test]
fn hashcode_wraps_modulo_two_to_the_32() {
    assert_eq!(hashcode(b"hello world"), 1794106052);
    assert_eq!(hashcode(b"The quick brown fox jumps over the lazy dog"), 3685539155);
    assert_eq!(hashcode(&[0xff; 8]), 3963989888);
    assert_eq!(hashcode(b"4294967295"), 3632702253);
}

#[test]
fn seed_of_decimal_tokens() {
    assert_eq!(string_to_seed(b"0"), 0);
    assert_eq!(string_to_seed(b"42"), 42);
    assert_eq!(string_to_seed(b"4294967295"), 4294967295);
    assert_eq!(string_to_seed(b"0000000001"), 1);
    assert_eq!(string_to_seed(b"0000000000"), 0);
}

#[test]
fn seed_of_empty_token_is_zero() {
    assert_eq!(string_to_seed(b""), 0);
}

#[test]
fn seed_of_overflowing_number_is_its_hash() {
    assert_eq!(string_to_seed(b"4294967296"), hashcode(b"4294967296"));
    assert_eq!(string_to_seed(b"4294967296"), 3632702254);
    assert_eq!(string_to_seed(b"9999999999"), 3028243360);
}

#[test]
fn seed_of_non_digit_token_is_its_hash() {
    assert_eq!(string_to_seed(b"12a"), 48736);
    assert_eq!(string_to_seed(b"-1"), 1444);
    assert_eq!(string_to_seed(b" 1"), 1041);
    assert_eq!(string_to_seed(b"hello"), 99162322);
    assert_eq!(string_to_seed(b"a0"), hashcode(b"a0"));
}

#[test]
fn seed_of_long_token_is_its_hash() {
    assert_eq!(string_to_seed(b"12345678901"), 745463030);
    assert_eq!(string_to_seed(b"00000000001"), 1065525809);
    assert_eq!(string_to_seed(b"hello world"), 1794106052);
    let long = b"The quick brown fox jumps over the lazy dog";
    assert_eq!(string_to_seed(long), hashcode(long));
}

#[test]
fn seed_differs_from_hash_for_numbers() {
    assert_ne!(string_to_seed(b"42"), hashcode(b"42"));
    assert_ne!(string_to_seed(b"0"), hashcode(b"0"));
}
