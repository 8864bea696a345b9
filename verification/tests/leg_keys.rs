use personal_shopper::utils::leg_key::{leg_key, parse_leg_key, parse_store_id};

#[test]
fn leg_keys_are_two_ids_with_a_dash() {
    assert_eq!(leg_key(12, 7), b"12-7".to_vec());
    assert_eq!(leg_key(0, 0), b"0-0".to_vec());
    assert_eq!(leg_key(u32::MAX, 100), b"4294967295-100".to_vec());
}

#[test]
fn leg_keys_are_read_back() {
    for (from, to) in [(0, 0), (1, 2), (10, 9), (4294967295, 4294967294), (1000, 1)] {
        assert_eq!(parse_leg_key(&leg_key(from, to)), Some((from, to)));
    }
}

#[test]
fn leg_keys_take_a_plus_sign_and_leading_zeros() {
    assert_eq!(parse_leg_key(b"+3-007"), Some((3, 7)));
    assert_eq!(parse_leg_key(b"0004294967295-+0"), Some((4294967295, 0)));
}

#[test]
fn leg_keys_that_are_none() {
    for text in [
        &b""[..],
        b"-",
        b"12",
        b"12-",
        b"-12",
        b"1-2-3",
        b"1--2",
        b"a-1",
        b"1-b",
        b" 1-2",
        b"1 -2",
        b"+-1",
        b"1-+",
        b"4294967296-1",
        b"1-99999999999999999999999",
        b"1.5-2",
    ] {
        assert_eq!(parse_leg_key(text), None);
    }
}

#[test]
fn store_ids_in_digits() {
    assert_eq!(parse_store_id(b"0"), Some(0));
    assert_eq!(parse_store_id(b"+42"), Some(42));
    assert_eq!(parse_store_id(b"4294967295"), Some(u32::MAX));
    assert_eq!(parse_store_id(b"4294967296"), None);
    assert_eq!(parse_store_id(b""), None);
    assert_eq!(parse_store_id(b"+"), None);
    assert_eq!(parse_store_id(b"-1"), None);
    assert_eq!(parse_store_id(b"12a"), None);
    assert_eq!(parse_store_id(b"++1"), None);
}
