use petaddr::health::{
    number_of_word, parse_vm_rss, skip_spaces_at, space_len_at, token_end_at, value_of_line,
};

fn by_the_standard_library(status: &str) -> u64 {
    for line in status.lines() {
        if line.starts_with("VmRSS:") {
            if let Some(kb_str) = line.split_whitespace().nth(1) {
                return kb_str.parse().unwrap_or(0);
            }
        }
    }
    0
}

#[test]
fn vm_rss_is_read_from_a_status_text() {
    let status = "Name:\tpetaddr\nVmPeak:\t  123456 kB\nVmRSS:\t    4321 kB\nThreads:\t8\n";
    assert_eq!(parse_vm_rss(status), 4321);
}

#[test]
fn vm_rss_is_zero_without_its_line() {
    assert_eq!(parse_vm_rss(""), 0);
    assert_eq!(parse_vm_rss("Name:\tpetaddr\nThreads:\t8\n"), 0);
    assert_eq!(parse_vm_rss(" VmRSS: 12 kB\n"), 0);
    assert_eq!(parse_vm_rss("vmrss: 12 kB\n"), 0);
}

#[test]
fn vm_rss_is_zero_where_the_word_is_no_number() {
    assert_eq!(parse_vm_rss("VmRSS: many kB\n"), 0);
    assert_eq!(parse_vm_rss("VmRSS: -5 kB\n"), 0);
    assert_eq!(parse_vm_rss("VmRSS: 12kB\n"), 0);
    assert_eq!(parse_vm_rss("VmRSS: 18446744073709551616\n"), 0);
    assert_eq!(parse_vm_rss("VmRSS: +\n"), 0);
}

#[test]
fn vm_rss_takes_the_first_line_that_tells_it() {
    assert_eq!(parse_vm_rss("VmRSS:\nVmRSS: 7\nVmRSS: 9\n"), 7);
    assert_eq!(parse_vm_rss("VmRSS: x\nVmRSS: 9\n"), 0);
    assert_eq!(parse_vm_rss("VmRSS: 5"), 5);
    assert_eq!(parse_vm_rss("VmRSS: +5\r\n"), 5);
    assert_eq!(parse_vm_rss("VmRSS:1 2 3"), 2);
}

#[test]
fn vm_rss_agrees_with_the_standard_library() {
    let texts = [
        "",
        "\n",
        "VmRSS:",
        "VmRSS: 18446744073709551615 kB",
        "VmRSS:\u{a0}12\u{2003}kB\n",
        "VmRSS:\u{3000}\u{85}77\u{1680}kB\n",
        "VmRSS: \u{e9}\n",
        "VmRSS:\t0012\r\nVmRSS: 5\n",
        "A\nB\nVmRSS:\u{2028}3\u{205f}x\nVmRSS: 4",
        "VmRSS:x\u{200a}\u{202f}+9\u{2029}\n",
        "VmRSS: \u{200b}8 9\n",
        "x\r\nVmRSS:\r\nVmRSS: 11 kB\r\n",
    ];
    for text in texts {
        assert_eq!(parse_vm_rss(text), by_the_standard_library(text));
    }
}

#[test]
fn value_of_line_tells_of_one_line() {
    assert_eq!(value_of_line(b"VmRSS:\t 250 kB"), Some(250));
    assert_eq!(value_of_line(b"VmRSS: kB"), Some(0));
    assert_eq!(value_of_line(b"VmRSS:"), None);
    assert_eq!(value_of_line(b"VmSize: 250 kB"), None);
}

#[test]
fn number_of_word_reads_digits_with_or_without_plus() {
    assert_eq!(number_of_word(b"0"), Some(0));
    assert_eq!(number_of_word(b"+17"), Some(17));
    assert_eq!(number_of_word(b"0017"), Some(17));
    assert_eq!(number_of_word(b""), None);
    assert_eq!(number_of_word(b"+"), None);
    assert_eq!(number_of_word(b"++1"), None);
    assert_eq!(number_of_word(b"1+"), None);
    assert_eq!(number_of_word(b"18446744073709551615"), Some(u64::MAX));
    assert_eq!(number_of_word(b"18446744073709551616"), None);
}

#[test]
fn white_space_is_what_unicode_calls_so() {
    for c in '\u{0}'..='\u{ffff}' {
        let mut buf = [0u8; 4];
        let text = c.encode_utf8(&mut buf).as_bytes();
        let expected = if c.is_whitespace() { text.len() } else { 0 };
        assert_eq!(space_len_at(text, 0), expected);
    }
    assert_eq!(space_len_at(b"a b", 1), 1);
    assert_eq!(space_len_at(b"a b", 3), 0);
    assert_eq!(space_len_at(&[0xe2, 0x80], 0), 0);
}

#[test]
fn words_are_found_between_white_space() {
    let line = b"  ab\t\tcd ";
    assert_eq!(skip_spaces_at(line, 0), 2);
    assert_eq!(token_end_at(line, 2), 4);
    assert_eq!(skip_spaces_at(line, 4), 6);
    assert_eq!(token_end_at(line, 6), 8);
    assert_eq!(skip_spaces_at(line, 8), 9);
    assert_eq!(token_end_at(line, 9), 9);
    assert_eq!(skip_spaces_at(line, 20), 20);
    assert_eq!(token_end_at(line, 20), 20);
}
