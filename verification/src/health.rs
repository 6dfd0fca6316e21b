//! Reading the resident memory of the process out of its status text.

use crate::codec::{take_decimal, take_decimal_at, take_lit, take_lit_at};
use vstd::prelude::*;
use vstd::slice::slice_subrange;
use vstd::utf8::encode_utf8;

verus! {

/// The number of bytes of the white space character that stands at `i`, zero
/// where none stands there. White space is what Unicode calls so, in UTF-8.
pub open spec fn space_at(l: Seq<u8>, i: int) -> int {
    if i < 0 || i >= l.len() {
        0
    } else if l[i] == 0x20 || 0x09 <= l[i] <= 0x0d {
        1
    } else if i + 1 < l.len() && l[i] == 0xc2 && (l[i + 1] == 0x85 || l[i + 1] == 0xa0) {
        2
    } else if i + 2 < l.len() && l[i] == 0xe1 && l[i + 1] == 0x9a && l[i + 2] == 0x80 {
        3
    } else if i + 2 < l.len() && l[i] == 0xe2 && l[i + 1] == 0x80 && (0x80 <= l[i + 2] <= 0x8a
        || l[i + 2] == 0xa8 || l[i + 2] == 0xa9 || l[i + 2] == 0xaf) {
        3
    } else if i + 2 < l.len() && l[i] == 0xe2 && l[i + 1] == 0x81 && l[i + 2] == 0x9f {
        3
    } else if i + 2 < l.len() && l[i] == 0xe3 && l[i + 1] == 0x80 && l[i + 2] == 0x80 {
        3
    } else {
        0
    }
}

/// The first place at or after `i` where no white space stands.
pub open spec fn skip_spaces(l: Seq<u8>, i: int) -> int
    decreases l.len() - i,
{
    if 0 <= i && space_at(l, i) > 0 {
        skip_spaces(l, i + space_at(l, i))
    } else {
        i
    }
}

/// The first place at or after `i` where white space stands or the line ends.
pub open spec fn token_end(l: Seq<u8>, i: int) -> int
    decreases l.len() - i,
{
    if 0 <= i < l.len() && space_at(l, i) == 0 {
        token_end(l, i + 1)
    } else {
        i
    }
}

/// The second of the words of a line that white space separates, if it has two.
pub open spec fn second_word(l: Seq<u8>) -> Option<Seq<u8>> {
    let first = skip_spaces(l, 0);
    if first >= l.len() {
        None
    } else {
        let second = skip_spaces(l, token_end(l, first));
        if second >= l.len() {
            None
        } else {
            Some(l.subrange(second, token_end(l, second)))
        }
    }
}

/// The number that a word spells: decimal digits, with a plus sign in front
/// or without, that spell a number which fits. Any other word spells none.
pub open spec fn word_number(w: Seq<u8>) -> Option<u64> {
    let digits = if w.len() > 0 && w[0] == 0x2b {
        w.subrange(1, w.len() as int)
    } else {
        w
    };
    match take_decimal(digits) {
        Some((n, rest)) => if rest.len() == 0 {
            Some(n)
        } else {
            None
        },
        None => None,
    }
}

/// The head of the line that tells the resident memory.
pub open spec fn rss_head() -> Seq<u8> {
    encode_utf8("VmRSS:"@)
}

/// What a line tells of the resident memory: nothing unless it starts with
/// `VmRSS:` and has a second word; then the number that the word spells, or
/// zero where it spells none.
pub open spec fn line_value(l: Seq<u8>) -> Option<u64> {
    if take_lit(l, rss_head()) is Some {
        match second_word(l) {
            Some(w) => Some(
                match word_number(w) {
                    Some(n) => n,
                    None => 0u64,
                },
            ),
            None => None,
        }
    } else {
        None
    }
}

/// The end of the line that starts at `i`: the place of the next line feed,
/// or the end of the text.
pub open spec fn line_end(t: Seq<u8>, i: int) -> int
    decreases t.len() - i,
{
    if 0 <= i < t.len() && t[i] != 0x0a {
        line_end(t, i + 1)
    } else {
        i
    }
}

/// The resident memory that the lines from `i` on tell: the value of the first
/// line that tells one, zero where none does.
pub open spec fn vm_rss_from(t: Seq<u8>, i: int) -> u64
    decreases t.len() - i,
{
    if 0 <= i < t.len() {
        let e = line_end(t, i);
        match line_value(t.subrange(i, e)) {
            Some(n) => n,
            None => if i <= e < t.len() {
                vm_rss_from(t, e + 1)
            } else {
                0
            },
        }
    } else {
        0
    }
}

/// The number of bytes of the white space character at `i`, zero where none stands there.
pub fn space_len_at(l: &[u8], i: usize) -> (n: usize)
    ensures
        n == space_at(l@, i as int),
        i + n <= l.len() || n == 0,
{
    if i >= l.len() {
        return 0;
    }
    let b: u8 = l[i];
    let left: usize = l.len() - i;
    if b == 0x20 || (0x09 <= b && b <= 0x0d) {
        1
    } else if left > 1 && b == 0xc2 && (l[i + 1] == 0x85 || l[i + 1] == 0xa0) {
        2
    } else if left > 2 && b == 0xe1 && l[i + 1] == 0x9a && l[i + 2] == 0x80 {
        3
    } else if left > 2 && b == 0xe2 && l[i + 1] == 0x80 && ((0x80 <= l[i + 2] && l[i + 2] <= 0x8a)
        || l[i + 2] == 0xa8 || l[i + 2] == 0xa9 || l[i + 2] == 0xaf) {
        3
    } else if left > 2 && b == 0xe2 && l[i + 1] == 0x81 && l[i + 2] == 0x9f {
        3
    } else if left > 2 && b == 0xe3 && l[i + 1] == 0x80 && l[i + 2] == 0x80 {
        3
    } else {
        0
    }
}

/// The first place at or after `i` where no white space stands.
pub fn skip_spaces_at(l: &[u8], i: usize) -> (j: usize)
    ensures
        j == skip_spaces(l@, i as int),
        i <= j,
        i <= l.len() ==> j <= l.len(),
{
    if i > l.len() {
        return i;
    }
    let mut j: usize = i;
    loop
        invariant
            i <= j <= l.len(),
            skip_spaces(l@, i as int) == skip_spaces(l@, j as int),
        decreases l.len() - j,
    {
        let n = space_len_at(l, j);
        if n == 0 {
            return j;
        }
        j = j + n;
    }
}

/// The first place at or after `i` where white space stands or the line ends.
pub fn token_end_at(l: &[u8], i: usize) -> (j: usize)
    ensures
        j == token_end(l@, i as int),
        i <= j,
        i <= l.len() ==> j <= l.len(),
{
    if i > l.len() {
        return i;
    }
    let mut j: usize = i;
    while j < l.len()
        invariant
            i <= j <= l.len(),
            token_end(l@, i as int) == token_end(l@, j as int),
        decreases l.len() - j,
    {
        if space_len_at(l, j) != 0 {
            return j;
        }
        j = j + 1;
    }
    j
}

/// The number that a word spells.
pub fn number_of_word(w: &[u8]) -> (r: Option<u64>)
    ensures
        r == word_number(w@),
{
    let start: usize = if w.len() > 0 && w[0] == 0x2b {
        1
    } else {
        0
    };
    let digits = slice_subrange(w, start, w.len());
    assert(digits@.subrange(0, digits@.len() as int) =~= digits@);
    if start == 0 {
        assert(digits@ =~= w@);
    }
    match take_decimal_at(digits, 0) {
        Some((n, end)) => {
            if end == digits.len() {
                Some(n)
            } else {
                None
            }
        },
        None => None,
    }
}

/// What a line tells of the resident memory.
pub fn value_of_line(l: &[u8]) -> (r: Option<u64>)
    ensures
        r == line_value(l@),
{
    assert(l@.subrange(0, l@.len() as int) =~= l@);
    if take_lit_at(l, 0, "VmRSS:".as_bytes()).is_none() {
        return None;
    }
    let first = skip_spaces_at(l, 0);
    if first >= l.len() {
        return None;
    }
    let after_first = token_end_at(l, first);
    let second = skip_spaces_at(l, after_first);
    if second >= l.len() {
        return None;
    }
    let after_second = token_end_at(l, second);
    let word = slice_subrange(l, second, after_second);
    match number_of_word(word) {
        Some(n) => Some(n),
        None => Some(0),
    }
}

/// The resident memory of the process in kilobytes, as its status text tells
/// it: the number on the first line that starts with `VmRSS:` and has a
/// second word; zero where that word is no number or no such line is there.
pub fn parse_vm_rss(status: &str) -> (kilobytes: u64)
    ensures
        kilobytes == vm_rss_from(encode_utf8(status@), 0),
{
    let t = status.as_bytes();
    let mut i: usize = 0;
    while i < t.len()
        invariant
            i <= t.len(),
            t@ == encode_utf8(status@),
            vm_rss_from(t@, 0) == vm_rss_from(t@, i as int),
        decreases t.len() - i,
    {
        let mut e: usize = i;
        while e < t.len() && t[e] != 0x0a
            invariant
                i <= e <= t.len(),
                line_end(t@, i as int) == line_end(t@, e as int),
            decreases t.len() - e,
        {
            e = e + 1;
        }
        match value_of_line(slice_subrange(t, i, e)) {
            Some(n) => {
                return n;
            },
            None => {},
        }
        if e >= t.len() {
            return 0;
        }
        i = e + 1;
    }
    0
}

} // verus!
