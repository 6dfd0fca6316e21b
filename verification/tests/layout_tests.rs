use petaddr::layout::{
    advance_counter, counter_bytes, counter_value, decimal_digits, make_counter_key, make_entry_key,
    make_entry_prefix, push_digits,
};

#[test]
fn entry_key_is_zero_padded_to_ten_digits() {
    assert_eq!(make_entry_key(1), b"address:0000000001".to_vec());
    assert_eq!(make_entry_key(42), b"address:0000000042".to_vec());
    assert_eq!(make_entry_key(0), b"address:0000000000".to_vec());
    assert_eq!(make_entry_key(9_999_999_999), b"address:9999999999".to_vec());
}

#[test]
fn entry_key_matches_the_format_of_the_standard_library() {
    for id in [0u64, 7, 10, 123_456, 9_999_999_999, 10_000_000_000, u64::MAX] {
        assert_eq!(make_entry_key(id), format!("address:{:010}", id).into_bytes());
    }
}

#[test]
fn entry_key_grows_beyond_ten_digits() {
    assert_eq!(make_entry_key(10_000_000_000), b"address:10000000000".to_vec());
    assert_eq!(make_entry_key(u64::MAX), b"address:18446744073709551615".to_vec());
}

#[test]
fn entry_keys_sort_as_the_identifiers_do() {
    let ids = [1u64, 2, 9, 10, 11, 99, 100, 1_000_000, 9_999_999_999];
    for w in ids.windows(2) {
        assert!(make_entry_key(w[0]) < make_entry_key(w[1]));
    }
}

#[test]
fn counter_key_and_prefix_are_the_fixed_texts() {
    assert_eq!(make_counter_key(), b"counter".to_vec());
    assert_eq!(make_entry_prefix(), b"address:".to_vec());
}

#[test]
fn counter_bytes_are_big_endian() {
    assert_eq!(counter_bytes(1), vec![0, 0, 0, 0, 0, 0, 0, 1]);
    assert_eq!(counter_bytes(0x0102030405060708), vec![1, 2, 3, 4, 5, 6, 7, 8]);
    assert_eq!(counter_bytes(u64::MAX), vec![255; 8]);
    for n in [0u64, 255, 256, 65_535, 1 << 40, u64::MAX - 1] {
        assert_eq!(counter_bytes(n), n.to_be_bytes().to_vec());
    }
}

#[test]
fn counter_value_reads_eight_bytes_only() {
    assert_eq!(counter_value(&[0, 0, 0, 0, 0, 0, 1, 0]), Some(256));
    assert_eq!(counter_value(&[255; 8]), Some(u64::MAX));
    assert_eq!(counter_value(&[0; 7]), None);
    assert_eq!(counter_value(&[0; 9]), None);
    assert_eq!(counter_value(&[]), None);
}

#[test]
fn counter_round_trips() {
    for n in [0u64, 1, 41, 1 << 32, u64::MAX] {
        assert_eq!(counter_value(&counter_bytes(n)), Some(n));
    }
}

#[test]
fn advance_counter_starts_at_one() {
    assert_eq!(advance_counter(None), Some(counter_bytes(1)));
}

#[test]
fn advance_counter_adds_one() {
    let five = counter_bytes(5);
    assert_eq!(advance_counter(Some(&five)), Some(counter_bytes(6)));
}

#[test]
fn advance_counter_leaves_the_largest_number() {
    let max = counter_bytes(u64::MAX);
    assert_eq!(advance_counter(Some(&max)), Some(max.clone()));
}

#[test]
fn advance_counter_leaves_what_is_no_counter() {
    let odd = vec![1u8, 2, 3];
    assert_eq!(advance_counter(Some(&odd)), Some(odd.clone()));
}

#[test]
fn decimal_digits_counts_digits() {
    assert_eq!(decimal_digits(0), 1);
    assert_eq!(decimal_digits(9), 1);
    assert_eq!(decimal_digits(10), 2);
    assert_eq!(decimal_digits(u64::MAX), 20);
}

#[test]
fn push_digits_appends_the_last_digits() {
    let mut out = b"n=".to_vec();
    push_digits(1234, 6, &mut out);
    assert_eq!(out, b"n=001234".to_vec());
    let mut cut = Vec::new();
    push_digits(1234, 2, &mut cut);
    assert_eq!(cut, b"34".to_vec());
}
