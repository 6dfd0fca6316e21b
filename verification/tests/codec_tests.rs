use petaddr::address::{PetAddress, PetAddressInfo};
use petaddr::codec::{
    decode_entry, encode_entry, hex_digit_of, hex_value_of, push_bytes, push_escaped_byte,
    push_string, take_decimal_at, take_lit_at, take_string_at, unescape_first_at,
};

fn sample(id: u64) -> PetAddressInfo {
    PetAddressInfo {
        id,
        address: PetAddress {
            public_key: "7xKXPet".to_string(),
            private_key: "3mJr7A".to_string(),
            address: "7xKXPet".to_string(),
        },
        created_at: "2024-01-15T10:30:00.123456789Z".to_string(),
    }
}

#[test]
fn encode_entry_writes_the_exact_line() {
    let line = encode_entry(&sample(7));
    let expected = "{\"id\":7,\"address\":{\"public_key\":\"7xKXPet\",\"private_key\":\"3mJr7A\",\"address\":\"7xKXPet\"},\"created_at\":\"2024-01-15T10:30:00.123456789Z\"}";
    assert_eq!(String::from_utf8(line).unwrap(), expected);
}

#[test]
fn encoded_entry_is_json_with_the_same_members() {
    let line = encode_entry(&sample(12345));
    let value: serde_json::Value = serde_json::from_slice(&line).unwrap();
    assert_eq!(value["id"].as_u64(), Some(12345));
    assert_eq!(value["address"]["public_key"].as_str(), Some("7xKXPet"));
    assert_eq!(value["address"]["private_key"].as_str(), Some("3mJr7A"));
    assert_eq!(value["address"]["address"].as_str(), Some("7xKXPet"));
    assert_eq!(value["created_at"].as_str(), Some("2024-01-15T10:30:00.123456789Z"));
}

#[test]
fn entry_round_trips() {
    let info = sample(u64::MAX);
    let back = decode_entry(&encode_entry(&info)).unwrap();
    assert_eq!(back.id, info.id);
    assert_eq!(back.address.public_key, info.address.public_key);
    assert_eq!(back.address.private_key, info.address.private_key);
    assert_eq!(back.address.address, info.address.address);
    assert_eq!(back.created_at, info.created_at);
}

#[test]
fn entry_with_special_characters_round_trips() {
    let mut info = sample(3);
    info.address.public_key = "a\"b\\c\n\r\t\u{8}\u{c}\u{1}\u{1f}\u{7f}".to_string();
    info.address.private_key = "\u{e9}\u{4e2d}\u{1f600}".to_string();
    info.created_at = String::new();
    let line = encode_entry(&info);
    let back = decode_entry(&line).unwrap();
    assert_eq!(back.address.public_key, info.address.public_key);
    assert_eq!(back.address.private_key, info.address.private_key);
    assert_eq!(back.created_at, "");
    let value: serde_json::Value = serde_json::from_slice(&line).unwrap();
    assert_eq!(value["address"]["public_key"].as_str(), Some(info.address.public_key.as_str()));
    assert_eq!(value["address"]["private_key"].as_str(), Some(info.address.private_key.as_str()));
}

#[test]
fn strings_are_escaped_as_serde_json_escapes_them() {
    for text in ["plain", "quote\"d", "back\\slash", "line\nfeed", "\u{0}\u{b}\u{1f}", "tab\there", "\u{e9}t\u{e9}"] {
        let mut out = Vec::new();
        push_string(text, &mut out);
        let expected = serde_json::to_string(&serde_json::Value::String(text.to_string())).unwrap();
        assert_eq!(String::from_utf8(out).unwrap(), expected);
    }
}

#[test]
fn escaped_bytes_have_the_expected_form() {
    let mut out = Vec::new();
    push_escaped_byte(b'"', &mut out);
    push_escaped_byte(b'\\', &mut out);
    push_escaped_byte(0x01, &mut out);
    push_escaped_byte(0x1f, &mut out);
    push_escaped_byte(b'a', &mut out);
    push_escaped_byte(0x0a, &mut out);
    assert_eq!(out, b"\\\"\\\\\\u0001\\u001fa\\n".to_vec());
}

#[test]
fn decode_rejects_what_is_not_a_stored_line() {
    assert!(decode_entry(b"").is_none());
    assert!(decode_entry(b"{}").is_none());
    assert!(decode_entry(b"not json").is_none());
    let line = encode_entry(&sample(1));
    assert!(decode_entry(&line[..line.len() - 1]).is_none());
    let mut longer = line.clone();
    longer.push(b' ');
    assert!(decode_entry(&longer).is_none());
}

#[test]
fn decode_rejects_an_identifier_that_does_not_fit() {
    let line = b"{\"id\":18446744073709551616,\"address\":{\"public_key\":\"a\",\"private_key\":\"b\",\"address\":\"c\"},\"created_at\":\"d\"}";
    assert!(decode_entry(line).is_none());
    let fits = b"{\"id\":18446744073709551615,\"address\":{\"public_key\":\"a\",\"private_key\":\"b\",\"address\":\"c\"},\"created_at\":\"d\"}";
    assert_eq!(decode_entry(fits).unwrap().id, u64::MAX);
}

#[test]
fn decode_rejects_text_that_is_not_utf8() {
    let mut line = b"{\"id\":1,\"address\":{\"public_key\":\"".to_vec();
    line.push(0xff);
    line.extend_from_slice(b"\",\"private_key\":\"b\",\"address\":\"c\"},\"created_at\":\"d\"}");
    assert!(decode_entry(&line).is_none());
}

#[test]
fn take_lit_at_matches_at_a_position() {
    assert_eq!(take_lit_at(b"xxabc", 2, b"abc"), Some(5));
    assert_eq!(take_lit_at(b"xxabc", 2, b"ab"), Some(4));
    assert_eq!(take_lit_at(b"xxabc", 2, b"abd"), None);
    assert_eq!(take_lit_at(b"xxabc", 3, b"abc"), None);
    assert_eq!(take_lit_at(b"xx", 2, b""), Some(2));
}

#[test]
fn take_decimal_at_reads_all_digits() {
    assert_eq!(take_decimal_at(b"id=120,", 3), Some((120, 6)));
    assert_eq!(take_decimal_at(b"007", 0), Some((7, 3)));
    assert_eq!(take_decimal_at(b"x", 0), None);
    assert_eq!(take_decimal_at(b"", 0), None);
    assert_eq!(take_decimal_at(b"18446744073709551615", 0), Some((u64::MAX, 20)));
    assert_eq!(take_decimal_at(b"18446744073709551616", 0), None);
    assert_eq!(take_decimal_at(b"99999999999999999999999", 0), None);
}

#[test]
fn take_string_at_reads_up_to_the_closing_quote() {
    assert_eq!(take_string_at(b"\"abc\"rest", 0), Some((b"abc".to_vec(), 5)));
    assert_eq!(take_string_at(b"\"a\\\"b\"", 0), Some((b"a\"b".to_vec(), 6)));
    assert_eq!(take_string_at(b"\"\\u001f\\n\"", 0), Some((vec![0x1f, 0x0a], 10)));
    assert_eq!(take_string_at(b"\"open", 0), None);
    assert_eq!(take_string_at(b"abc", 0), None);
    assert_eq!(take_string_at(b"\"a\nb\"", 0), None);
    assert_eq!(take_string_at(b"\"\\x\"", 0), None);
}

#[test]
fn unescape_first_at_reads_one_byte() {
    assert_eq!(unescape_first_at(b"a", 0), Some((b'a', 1)));
    assert_eq!(unescape_first_at(b"\\t", 0), Some((0x09, 2)));
    assert_eq!(unescape_first_at(b"\\u0010", 0), Some((0x10, 6)));
    assert_eq!(unescape_first_at(b"\\u0041", 0), None);
    assert_eq!(unescape_first_at(b"\\u00", 0), None);
    assert_eq!(unescape_first_at(b"\\", 0), None);
    assert_eq!(unescape_first_at(b"\"", 0), None);
    assert_eq!(unescape_first_at(b"", 0), None);
}

#[test]
fn hex_digits_are_lower_case() {
    assert_eq!(hex_digit_of(0), b'0');
    assert_eq!(hex_digit_of(9), b'9');
    assert_eq!(hex_digit_of(10), b'a');
    assert_eq!(hex_digit_of(15), b'f');
    assert_eq!(hex_value_of(b'7'), Some(7));
    assert_eq!(hex_value_of(b'c'), Some(12));
    assert_eq!(hex_value_of(b'C'), None);
    assert_eq!(hex_value_of(b'g'), None);
}

#[test]
fn push_bytes_appends() {
    let mut out = vec![1u8];
    push_bytes(&[2, 3], &mut out);
    assert_eq!(out, vec![1, 2, 3]);
}

#[test]
fn positions_beyond_the_text_give_nothing() {
    assert_eq!(take_lit_at(b"ab", 3, b""), None);
    assert_eq!(take_decimal_at(b"12", 3), None);
    assert_eq!(take_string_at(b"\"a\"", 9), None);
    assert_eq!(unescape_first_at(b"a", 2), None);
    assert_eq!(take_decimal_at(b"12", 2), None);
}

#[test]
fn hex_digit_of_uses_the_low_four_bits() {
    assert_eq!(hex_digit_of(16), b'0');
    assert_eq!(hex_digit_of(0x1f), b'f');
    assert_eq!(hex_digit_of(0xab), b'b');
}
