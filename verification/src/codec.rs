//! The stored form of a pooled address: one line of compact JSON,
//! `{"id":..,"address":{"public_key":..,"private_key":..,"address":..},"created_at":..}`,
//! and the reader that takes such a line apart again.

use crate::address::{PetAddress, PetAddressInfo, PetAddressInfoView, PetAddressView};
use crate::layout::{decimal, decimal_digits, decimal_width, digit_byte, digits_fixed, pow10, push_digits};
use crate::validation::{digit, is_digit};
use vstd::prelude::*;
use vstd::utf8::{decode_utf8, encode_utf8, valid_utf8};

verus! {

/// The lower-case hexadecimal digit for `v`.
pub open spec fn hex_digit(v: nat) -> u8 {
    if v % 16 < 10 {
        (0x30 + v % 16) as u8
    } else {
        (0x61 + v % 16 - 10) as u8
    }
}

/// The value of a lower-case hexadecimal digit.
pub open spec fn hex_value(b: u8) -> Option<nat> {
    if 0x30 <= b <= 0x39 {
        Some((b - 0x30) as nat)
    } else if 0x61 <= b <= 0x66 {
        Some((b - 0x61 + 10) as nat)
    } else {
        None
    }
}

/// How one byte of a text is written inside a JSON string: the quote, the
/// backslash and the control bytes are escaped, every other byte stands for itself.
pub open spec fn escape_byte(b: u8) -> Seq<u8> {
    if b == 0x22 {
        seq![0x5cu8, 0x22u8]
    } else if b == 0x5c {
        seq![0x5cu8, 0x5cu8]
    } else if b == 0x08 {
        seq![0x5cu8, 0x62u8]
    } else if b == 0x09 {
        seq![0x5cu8, 0x74u8]
    } else if b == 0x0a {
        seq![0x5cu8, 0x6eu8]
    } else if b == 0x0c {
        seq![0x5cu8, 0x66u8]
    } else if b == 0x0d {
        seq![0x5cu8, 0x72u8]
    } else if b < 0x20 {
        seq![0x5cu8, 0x75u8, 0x30u8, 0x30u8, hex_digit((b / 16) as nat), hex_digit((b % 16) as nat)]
    } else {
        seq![b]
    }
}

/// The bytes of a text as they stand between the quotes of a JSON string.
pub open spec fn escaped(s: Seq<u8>) -> Seq<u8>
    decreases s.len(),
{
    if s.len() == 0 {
        Seq::empty()
    } else {
        escape_byte(s[0]) + escaped(s.drop_first())
    }
}

/// A JSON string followed by `rest`.
pub open spec fn string_then(s: Seq<u8>, rest: Seq<u8>) -> Seq<u8> {
    seq![0x22u8] + (escaped(s) + (seq![0x22u8] + rest))
}

/// The opening of a stored line, up to the identifier.
pub open spec fn lit_id() -> Seq<u8> {
    encode_utf8("{\"id\":"@)
}

/// What stands between the identifier and the public key.
pub open spec fn lit_public_key() -> Seq<u8> {
    encode_utf8(",\"address\":{\"public_key\":"@)
}

/// What stands between the public key and the private key.
pub open spec fn lit_private_key() -> Seq<u8> {
    encode_utf8(",\"private_key\":"@)
}

/// What stands between the private key and the address.
pub open spec fn lit_address() -> Seq<u8> {
    encode_utf8(",\"address\":"@)
}

/// What stands between the address and the creation time.
pub open spec fn lit_created_at() -> Seq<u8> {
    encode_utf8("},\"created_at\":"@)
}

/// The closing of a stored line.
pub open spec fn lit_end() -> Seq<u8> {
    encode_utf8("}"@)
}

/// The stored line of an entry.
pub open spec fn entry_text(e: PetAddressInfoView) -> Seq<u8> {
    lit_id() + (decimal(e.id as nat) + (lit_public_key() + string_then(
        encode_utf8(e.address.public_key),
        lit_private_key() + string_then(
            encode_utf8(e.address.private_key),
            lit_address() + string_then(
                encode_utf8(e.address.address),
                lit_created_at() + string_then(encode_utf8(e.created_at), lit_end()),
            ),
        ),
    )))
}

/// The byte that a text inside a JSON string starts with, and how many bytes
/// spell it. The text does not start with the closing quote.
pub open spec fn unescape_first(t: Seq<u8>) -> Option<(u8, int)> {
    if t.len() == 0 {
        None
    } else if t[0] == 0x5c {
        if t.len() < 2 {
            None
        } else if t[1] == 0x22 {
            Some((0x22u8, 2))
        } else if t[1] == 0x5c {
            Some((0x5cu8, 2))
        } else if t[1] == 0x62 {
            Some((0x08u8, 2))
        } else if t[1] == 0x74 {
            Some((0x09u8, 2))
        } else if t[1] == 0x6e {
            Some((0x0au8, 2))
        } else if t[1] == 0x66 {
            Some((0x0cu8, 2))
        } else if t[1] == 0x72 {
            Some((0x0du8, 2))
        } else if t[1] == 0x75 && t.len() >= 6 && t[2] == 0x30 && t[3] == 0x30 && hex_value(t[4])
            is Some && hex_value(t[4])->0 < 2 && hex_value(t[5]) is Some {
            Some((((hex_value(t[4])->0) * 16 + hex_value(t[5])->0) as u8, 6))
        } else {
            None
        }
    } else if t[0] < 0x20 || t[0] == 0x22 {
        None
    } else {
        Some((t[0], 1))
    }
}

/// Reads the inside of a JSON string up to its closing quote: the bytes that
/// it stands for, and the number of bytes read, the quote included.
pub open spec fn scan_string(t: Seq<u8>) -> Option<(Seq<u8>, int)>
    decreases t.len(),
{
    if t.len() == 0 {
        None
    } else if t[0] == 0x22 {
        Some((Seq::empty(), 1))
    } else {
        match unescape_first(t) {
            None => None,
            Some((b, n)) => {
                if 1 <= n <= t.len() {
                    match scan_string(t.subrange(n, t.len() as int)) {
                        None => None,
                        Some((c, m)) => Some((seq![b] + c, n + m)),
                    }
                } else {
                    None
                }
            },
        }
    }
}

/// The number that a run of decimal digits spells.
pub open spec fn digits_value(s: Seq<u8>) -> nat
    decreases s.len(),
{
    if s.len() == 0 {
        0
    } else {
        digits_value(s.drop_last()) * 10 + (s.last() - 0x30) as nat
    }
}

/// How many decimal digits a text starts with.
pub open spec fn digit_run(t: Seq<u8>) -> nat
    decreases t.len(),
{
    if t.len() > 0 && is_digit(t[0]) {
        1 + digit_run(t.drop_first())
    } else {
        0
    }
}

/// Takes `lit` off the front of `t`.
pub open spec fn take_lit(t: Seq<u8>, lit: Seq<u8>) -> Option<Seq<u8>> {
    if lit.len() <= t.len() && t.subrange(0, lit.len() as int) == lit {
        Some(t.subrange(lit.len() as int, t.len() as int))
    } else {
        None
    }
}

/// Takes a number off the front of `t`: all the digits that `t` starts with,
/// at least one, which spell a number that fits.
pub open spec fn take_decimal(t: Seq<u8>) -> Option<(u64, Seq<u8>)> {
    let k = digit_run(t) as int;
    if k >= 1 && digits_value(t.subrange(0, k)) <= u64::MAX {
        Some((digits_value(t.subrange(0, k)) as u64, t.subrange(k, t.len() as int)))
    } else {
        None
    }
}

/// Takes a JSON string off the front of `t`.
pub open spec fn take_string(t: Seq<u8>) -> Option<(Seq<u8>, Seq<u8>)> {
    if t.len() > 0 && t[0] == 0x22 {
        match scan_string(t.drop_first()) {
            Some((c, n)) => if 1 + n <= t.len() {
                Some((c, t.subrange(1 + n, t.len() as int)))
            } else {
                None
            },
            None => None,
        }
    } else {
        None
    }
}

/// The fields of a stored line, each still as bytes.
pub struct RawEntry {
    pub id: u64,
    pub public_key: Seq<u8>,
    pub private_key: Seq<u8>,
    pub address: Seq<u8>,
    pub created_at: Seq<u8>,
}

/// Takes a stored line apart. Only lines in the form in which entries are
/// written are read: the members in their order, no white space.
pub open spec fn parse_entry(t: Seq<u8>) -> Option<RawEntry> {
    match take_lit(t, lit_id()) {
        Some(t1) => match take_decimal(t1) {
            Some((id, t2)) => match take_lit(t2, lit_public_key()) {
                Some(t3) => match take_string(t3) {
                    Some((public_key, t4)) => match take_lit(t4, lit_private_key()) {
                        Some(t5) => match take_string(t5) {
                            Some((private_key, t6)) => match take_lit(t6, lit_address()) {
                                Some(t7) => match take_string(t7) {
                                    Some((address, t8)) => parse_tail(
                                        t8,
                                        id,
                                        public_key,
                                        private_key,
                                        address,
                                    ),
                                    None => None,
                                },
                                None => None,
                            },
                            None => None,
                        },
                        None => None,
                    },
                    None => None,
                },
                None => None,
            },
            None => None,
        },
        None => None,
    }
}

/// The end of a stored line: the creation time and the closing brace.
pub open spec fn parse_tail(
    t8: Seq<u8>,
    id: u64,
    public_key: Seq<u8>,
    private_key: Seq<u8>,
    address: Seq<u8>,
) -> Option<RawEntry> {
    match take_lit(t8, lit_created_at()) {
        Some(t9) => match take_string(t9) {
            Some((created_at, t10)) => match take_lit(t10, lit_end()) {
                Some(t11) => if t11.len() == 0 {
                    Some(RawEntry { id, public_key, private_key, address, created_at })
                } else {
                    None
                },
                None => None,
            },
            None => None,
        },
        None => None,
    }
}

/// The entry that a stored line holds, if it is such a line and its texts are UTF-8.
pub open spec fn decoded_entry(t: Seq<u8>) -> Option<PetAddressInfoView> {
    match parse_entry(t) {
        Some(raw) => if valid_utf8(raw.public_key) && valid_utf8(raw.private_key) && valid_utf8(
            raw.address,
        ) && valid_utf8(raw.created_at) {
            Some(
                PetAddressInfoView {
                    id: raw.id,
                    address: PetAddressView {
                        public_key: decode_utf8(raw.public_key),
                        private_key: decode_utf8(raw.private_key),
                        address: decode_utf8(raw.address),
                    },
                    created_at: decode_utf8(raw.created_at),
                },
            )
        } else {
            None
        },
        None => None,
    }
}


/// A hexadecimal digit is read back as its value.
pub proof fn lemma_hex_round_trip(v: nat)
    requires
        v < 16,
    ensures
        hex_value(hex_digit(v)) == Some(v),
{
}

/// An escaped byte is read back as that byte, whatever follows it.
pub proof fn lemma_unescape_escape(b: u8, r: Seq<u8>)
    ensures
        unescape_first(escape_byte(b) + r) == Some((b, escape_byte(b).len() as int)),
        (escape_byte(b) + r)[0] != 0x22,
        1 <= escape_byte(b).len() <= 6,
{
    let e = escape_byte(b);
    let t = e + r;
    assert(forall|i: int| 0 <= i < e.len() ==> t[i] == e[i]);
    if b < 0x20 && b != 0x08 && b != 0x09 && b != 0x0a && b != 0x0c && b != 0x0d {
        lemma_hex_round_trip((b / 16) as nat);
        lemma_hex_round_trip((b % 16) as nat);
        assert(t[4] == hex_digit((b / 16) as nat));
        assert(t[5] == hex_digit((b % 16) as nat));
        assert(t[1] == 0x75);
        assert(t[2] == 0x30);
        assert(t[3] == 0x30);
    } else {
        assert(e.len() <= 2);
        if e.len() == 2 {
            assert(t[1] == e[1]);
        }
    }
}

/// An escaped text with its closing quote is read back as the text.
pub proof fn lemma_scan_escaped(s: Seq<u8>, r: Seq<u8>)
    ensures
        scan_string(escaped(s) + (seq![0x22u8] + r)) == Some((s, (escaped(s).len() + 1) as int)),
    decreases s.len(),
{
    let t = escaped(s) + (seq![0x22u8] + r);
    if s.len() == 0 {
        assert(t[0] == 0x22);
        assert(s =~= Seq::empty());
    } else {
        let e = escape_byte(s[0]);
        let tail = escaped(s.drop_first()) + (seq![0x22u8] + r);
        assert(t =~= e + tail);
        lemma_unescape_escape(s[0], tail);
        lemma_scan_escaped(s.drop_first(), r);
        assert(t.subrange(e.len() as int, t.len() as int) =~= tail);
        assert(seq![s[0]] + s.drop_first() =~= s);
    }
}

/// A JSON string is taken off the front of a text as the text that it spells.
pub proof fn lemma_take_string(s: Seq<u8>, r: Seq<u8>)
    ensures
        take_string(string_then(s, r)) == Some((s, r)),
{
    let t = string_then(s, r);
    let inner = escaped(s) + (seq![0x22u8] + r);
    assert(t.drop_first() =~= inner);
    lemma_scan_escaped(s, r);
    assert(t.subrange(1 + (escaped(s).len() + 1) as int, t.len() as int) =~= r);
}

/// A literal is taken off the front of a text that starts with it.
pub proof fn lemma_take_lit(lit: Seq<u8>, r: Seq<u8>)
    ensures
        take_lit(lit + r, lit) == Some(r),
{
    let t = lit + r;
    assert(t.subrange(0, lit.len() as int) =~= lit);
    assert(t.subrange(lit.len() as int, t.len() as int) =~= r);
}

/// Every byte of a fixed-width numeral is a digit.
pub proof fn lemma_digits_are_digits(n: nat, w: nat)
    ensures
        digits_fixed(n, w).len() == w,
        forall|i: int| 0 <= i < w ==> is_digit(#[trigger] digits_fixed(n, w)[i]),
    decreases w,
{
    if w > 0 {
        lemma_digits_are_digits(n / 10, (w - 1) as nat);
    }
}

/// A fixed-width numeral spells the number that it was written for, if the number fits.
pub proof fn lemma_digits_value(n: nat, w: nat)
    requires
        n < pow10(w),
    ensures
        digits_value(digits_fixed(n, w)) == n,
    decreases w,
{
    if w > 0 {
        let d = digits_fixed(n, w);
        lemma_digits_value(n / 10, (w - 1) as nat);
        assert(d.drop_last() =~= digits_fixed(n / 10, (w - 1) as nat));
        assert(d.last() == digit_byte(n % 10));
    }
}

/// A text that starts with `k` digits and then has another byte, or ends, starts
/// with a run of exactly `k` digits.
pub proof fn lemma_digit_run_exact(t: Seq<u8>, k: int)
    requires
        0 <= k <= t.len(),
        forall|i: int| 0 <= i < k ==> is_digit(#[trigger] t[i]),
        k == t.len() || !is_digit(t[k]),
    ensures
        digit_run(t) == k,
    decreases k,
{
    if k > 0 {
        assert(is_digit(t[0]));
        let u = t.drop_first();
        assert forall|i: int| 0 <= i < k - 1 implies is_digit(#[trigger] u[i]) by {
            assert(u[i] == t[i + 1]);
        }
        lemma_digit_run_exact(u, k - 1);
    }
}

/// A text that starts with `k` digits starts with a run of at least `k`.
pub proof fn lemma_digit_run_at_least(t: Seq<u8>, k: int)
    requires
        0 <= k <= t.len(),
        forall|i: int| 0 <= i < k ==> is_digit(#[trigger] t[i]),
    ensures
        digit_run(t) >= k,
        digit_run(t) <= t.len(),
    decreases t.len(),
{
    if t.len() > 0 && is_digit(t[0]) {
        let u = t.drop_first();
        if k > 0 {
            assert forall|i: int| 0 <= i < k - 1 implies is_digit(#[trigger] u[i]) by {
                assert(u[i] == t[i + 1]);
            }
            lemma_digit_run_at_least(u, k - 1);
        } else {
            lemma_digit_run_at_least(u, 0);
        }
    }
}

/// A longer run of digits spells no smaller a number than its beginning.
pub proof fn lemma_digits_value_monotone(s: Seq<u8>, j: int)
    requires
        0 <= j <= s.len(),
        forall|i: int| 0 <= i < s.len() ==> is_digit(#[trigger] s[i]),
    ensures
        digits_value(s.subrange(0, j)) <= digits_value(s),
    decreases s.len() - j,
{
    if j == s.len() {
        assert(s.subrange(0, j) =~= s);
    } else {
        let d = s.drop_last();
        assert forall|i: int| 0 <= i < d.len() implies is_digit(#[trigger] d[i]) by {
            assert(d[i] == s[i]);
        }
        lemma_digits_value_monotone(d, j);
        assert(d.subrange(0, j) =~= s.subrange(0, j));
        assert(is_digit(s[s.len() - 1]));
    }
}

/// A decimal numeral is taken off the front of a text as its number, when no digit follows it.
pub proof fn lemma_take_decimal(n: u64, r: Seq<u8>)
    requires
        r.len() == 0 || !is_digit(r[0]),
    ensures
        take_decimal(decimal(n as nat) + r) == Some((n, r)),
{
    let w = decimal_width(n as nat);
    let d = decimal(n as nat);
    let t = d + r;
    crate::layout::lemma_decimal_width_bound(n as nat);
    lemma_digits_are_digits(n as nat, w);
    lemma_digits_value(n as nat, w);
    assert forall|i: int| 0 <= i < w implies is_digit(#[trigger] t[i]) by {
        assert(t[i] == d[i]);
    }
    if r.len() > 0 {
        assert(t[w as int] == r[0]);
    }
    lemma_digit_run_exact(t, w as int);
    assert(t.subrange(0, w as int) =~= d);
    assert(t.subrange(w as int, t.len() as int) =~= r);
}

/// The first byte of what follows the identifier in a stored line is a comma.
pub proof fn lemma_lit_public_key_first()
    ensures
        lit_public_key().len() > 0,
        !is_digit(lit_public_key()[0]),
{
    let s = ",\"address\":{\"public_key\":"@;
    reveal_strlit(",\"address\":{\"public_key\":");
    assert(s.len() == 25);
    vstd::utf8::encode_utf8_first_scalar(s);
    assert(s[0] == ',');
    assert(encode_utf8(s) == vstd::utf8::encode_scalar(s[0] as u32) + encode_utf8(s.drop_first()));
    assert(vstd::utf8::has_width_1_encoding(s[0] as u32));
    assert(vstd::utf8::leading_byte_width_1(0x2cu32) == 0x2cu8) by (bit_vector);
    assert(encode_utf8(s)[0] == 0x2c);
}

/// A stored line is read back as the entry that was written.
pub proof fn lemma_entry_round_trip(e: PetAddressInfoView)
    ensures
        decoded_entry(entry_text(e)) == Some(e),
{
    let pk = encode_utf8(e.address.public_key);
    let sk = encode_utf8(e.address.private_key);
    let ad = encode_utf8(e.address.address);
    let cr = encode_utf8(e.created_at);
    let t10 = lit_end();
    let t9 = string_then(cr, t10);
    let t8 = lit_created_at() + t9;
    let t7 = string_then(ad, t8);
    let t6 = lit_address() + t7;
    let t5 = string_then(sk, t6);
    let t4 = lit_private_key() + t5;
    let t3 = string_then(pk, t4);
    let t2 = lit_public_key() + t3;
    let t1 = decimal(e.id as nat) + t2;
    let t0 = lit_id() + t1;
    assert(entry_text(e) == t0);
    lemma_take_lit(lit_id(), t1);
    lemma_lit_public_key_first();
    assert(t2[0] == lit_public_key()[0]);
    lemma_take_decimal(e.id, t2);
    lemma_take_lit(lit_public_key(), t3);
    lemma_take_string(pk, t4);
    lemma_take_lit(lit_private_key(), t5);
    lemma_take_string(sk, t6);
    lemma_take_lit(lit_address(), t7);
    lemma_take_string(ad, t8);
    lemma_take_lit(lit_created_at(), t9);
    lemma_take_string(cr, t10);
    lemma_take_lit(lit_end(), Seq::empty());
    assert(t10 + Seq::<u8>::empty() =~= t10);
    assert(parse_tail(t8, e.id, pk, sk, ad) == Some(
        RawEntry { id: e.id, public_key: pk, private_key: sk, address: ad, created_at: cr },
    ));
    assert(parse_entry(t0) == Some(
        RawEntry { id: e.id, public_key: pk, private_key: sk, address: ad, created_at: cr },
    ));
    vstd::utf8::encode_utf8_valid_utf8(e.address.public_key);
    vstd::utf8::encode_utf8_valid_utf8(e.address.private_key);
    vstd::utf8::encode_utf8_valid_utf8(e.address.address);
    vstd::utf8::encode_utf8_valid_utf8(e.created_at);
    vstd::utf8::encode_utf8_decode_utf8(e.address.public_key);
    vstd::utf8::encode_utf8_decode_utf8(e.address.private_key);
    vstd::utf8::encode_utf8_decode_utf8(e.address.address);
    vstd::utf8::encode_utf8_decode_utf8(e.created_at);
}


/// Escaping a text byte by byte: the last byte is escaped after the others.
pub proof fn lemma_escaped_push(a: Seq<u8>, b: u8)
    ensures
        escaped(a.push(b)) == escaped(a) + escape_byte(b),
    decreases a.len(),
{
    if a.len() == 0 {
        assert(a.push(b).drop_first() =~= Seq::<u8>::empty());
        assert(escaped(Seq::<u8>::empty()) =~= Seq::<u8>::empty());
        assert(a.push(b)[0] == b);
        assert(escaped(a.push(b)) =~= escaped(a) + escape_byte(b));
    } else {
        lemma_escaped_push(a.drop_first(), b);
        assert(a.push(b).drop_first() =~= a.drop_first().push(b));
        assert(escaped(a.push(b)) =~= escaped(a) + escape_byte(b));
    }
}

/// The first bytes of a text that are digits are as many as its run of digits
/// says, and the run ends where the text ends or another byte stands.
pub proof fn lemma_digit_run_digits(t: Seq<u8>)
    ensures
        digit_run(t) <= t.len(),
        forall|i: int| 0 <= i < digit_run(t) ==> is_digit(#[trigger] t[i]),
        digit_run(t) == t.len() || !is_digit(t[digit_run(t) as int]),
    decreases t.len(),
{
    if t.len() > 0 && is_digit(t[0]) {
        let u = t.drop_first();
        lemma_digit_run_digits(u);
        assert forall|i: int| 0 <= i < digit_run(t) implies is_digit(#[trigger] t[i]) by {
            if i > 0 {
                assert(t[i] == u[i - 1]);
            }
        }
        if digit_run(t) < t.len() {
            assert(t[digit_run(t) as int] == u[digit_run(u) as int]);
        }
    }
}

/// `String::from_utf8`: the text that the bytes spell in UTF-8, or nothing
/// where they are not UTF-8.
#[verifier::external_body]
pub(crate) fn string_from_utf8(bytes: Vec<u8>) -> (r: Option<String>)
    ensures
        match r {
            Some(s) => valid_utf8(bytes@) && s@ == decode_utf8(bytes@),
            None => !valid_utf8(bytes@),
        },
{
    match String::from_utf8(bytes) {
        Ok(s) => Some(s),
        Err(_) => None,
    }
}

/// Appends `src` to `out`.
pub fn push_bytes(src: &[u8], out: &mut Vec<u8>)
    ensures
        final(out)@ == old(out)@ + src@,
{
    let mut i: usize = 0;
    while i < src.len()
        invariant
            i <= src.len(),
            out@ == old(out)@ + src@.subrange(0, i as int),
        decreases src.len() - i,
    {
        out.push(src[i]);
        assert(src@.subrange(0, i + 1) =~= src@.subrange(0, i as int).push(src@[i as int]));
        i = i + 1;
    }
    assert(src@.subrange(0, i as int) =~= src@);
}

/// The lower-case hexadecimal digit for the low four bits of a value.
pub fn hex_digit_of(v: u8) -> (b: u8)
    ensures
        b == hex_digit(v as nat),
{
    let low: u8 = v % 16;
    if low < 10 {
        0x30 + low
    } else {
        0x61 + (low - 10)
    }
}

/// Appends one byte of a text as it is written inside a JSON string.
pub fn push_escaped_byte(b: u8, out: &mut Vec<u8>)
    ensures
        final(out)@ == old(out)@ + escape_byte(b),
{
    if b == 0x22 || b == 0x5c || b == 0x08 || b == 0x09 || b == 0x0a || b == 0x0c || b == 0x0d {
        let c: u8 = if b == 0x22 {
            0x22
        } else if b == 0x5c {
            0x5c
        } else if b == 0x08 {
            0x62
        } else if b == 0x09 {
            0x74
        } else if b == 0x0a {
            0x6e
        } else if b == 0x0c {
            0x66
        } else {
            0x72
        };
        out.push(0x5c);
        out.push(c);
        assert(out@ =~= old(out)@ + escape_byte(b));
    } else if b < 0x20 {
        out.push(0x5c);
        out.push(0x75);
        out.push(0x30);
        out.push(0x30);
        out.push(hex_digit_of(b / 16));
        out.push(hex_digit_of(b % 16));
        assert(out@ =~= old(out)@ + escape_byte(b));
    } else {
        out.push(b);
        assert(out@ =~= old(out)@ + escape_byte(b));
    }
}

/// Appends a text as a JSON string, quotes included.
pub fn push_string(text: &str, out: &mut Vec<u8>)
    ensures
        final(out)@ == old(out)@ + (seq![0x22u8] + (escaped(encode_utf8(text@)) + seq![0x22u8])),
{
    let s = text.as_bytes();
    out.push(0x22);
    let mut i: usize = 0;
    while i < s.len()
        invariant
            i <= s.len(),
            s@ == encode_utf8(text@),
            out@ == old(out)@.push(0x22u8) + escaped(s@.subrange(0, i as int)),
        decreases s.len() - i,
    {
        push_escaped_byte(s[i], out);
        proof {
            lemma_escaped_push(s@.subrange(0, i as int), s@[i as int]);
            assert(s@.subrange(0, i + 1) =~= s@.subrange(0, i as int).push(s@[i as int]));
        }
        i = i + 1;
    }
    assert(s@.subrange(0, i as int) =~= s@);
    out.push(0x22);
    assert(out@ =~= old(out)@ + (seq![0x22u8] + (escaped(encode_utf8(text@)) + seq![0x22u8])));
}

/// Appending a piece and then a rest is appending the piece with the rest.
pub proof fn lemma_append_piece(head: Seq<u8>, piece: Seq<u8>, rest: Seq<u8>)
    ensures
        (head + piece) + rest == head + (piece + rest),
{
    assert((head + piece) + rest =~= head + (piece + rest));
}

/// Appending a JSON string and then a rest is appending the string followed by the rest.
pub proof fn lemma_append_string(head: Seq<u8>, s: Seq<u8>, rest: Seq<u8>)
    ensures
        (head + (seq![0x22u8] + (escaped(s) + seq![0x22u8]))) + rest == head + string_then(s, rest),
{
    assert((head + (seq![0x22u8] + (escaped(s) + seq![0x22u8]))) + rest =~= head + string_then(
        s,
        rest,
    ));
}

/// Writes the stored line of an entry.
pub fn encode_entry(info: &PetAddressInfo) -> (line: Vec<u8>)
    ensures
        line@ == entry_text(info@),
{
    let ghost pk = encode_utf8(info.address.public_key@);
    let ghost sk = encode_utf8(info.address.private_key@);
    let ghost ad = encode_utf8(info.address.address@);
    let ghost cr = encode_utf8(info.created_at@);
    let ghost t10 = lit_end();
    let ghost t9 = string_then(cr, t10);
    let ghost t8 = lit_created_at() + t9;
    let ghost t7 = string_then(ad, t8);
    let ghost t6 = lit_address() + t7;
    let ghost t5 = string_then(sk, t6);
    let ghost t4 = lit_private_key() + t5;
    let ghost t3 = string_then(pk, t4);
    let ghost t2 = lit_public_key() + t3;
    let ghost t1 = decimal(info.id as nat) + t2;
    let ghost t0 = lit_id() + t1;
    let mut out: Vec<u8> = Vec::new();
    let ghost o0 = out@;
    assert(o0 + t0 =~= t0);
    push_bytes("{\"id\":".as_bytes(), &mut out);
    let ghost o1 = out@;
    proof {
        lemma_append_piece(o0, lit_id(), t1);
    }
    push_digits(info.id, decimal_digits(info.id), &mut out);
    let ghost o2 = out@;
    proof {
        lemma_append_piece(o1, decimal(info.id as nat), t2);
    }
    push_bytes(",\"address\":{\"public_key\":".as_bytes(), &mut out);
    let ghost o3 = out@;
    proof {
        lemma_append_piece(o2, lit_public_key(), t3);
    }
    push_string(info.address.public_key.as_str(), &mut out);
    let ghost o4 = out@;
    proof {
        lemma_append_string(o3, pk, t4);
    }
    push_bytes(",\"private_key\":".as_bytes(), &mut out);
    let ghost o5 = out@;
    proof {
        lemma_append_piece(o4, lit_private_key(), t5);
    }
    push_string(info.address.private_key.as_str(), &mut out);
    let ghost o6 = out@;
    proof {
        lemma_append_string(o5, sk, t6);
    }
    assert(o6 + t6 == t0);
    push_bytes(",\"address\":".as_bytes(), &mut out);
    let ghost o7 = out@;
    proof {
        lemma_append_piece(o6, lit_address(), t7);
    }
    push_string(info.address.address.as_str(), &mut out);
    let ghost o8 = out@;
    proof {
        lemma_append_string(o7, ad, t8);
    }
    push_bytes("},\"created_at\":".as_bytes(), &mut out);
    let ghost o9 = out@;
    proof {
        lemma_append_piece(o8, lit_created_at(), t9);
    }
    push_string(info.created_at.as_str(), &mut out);
    let ghost o10 = out@;
    proof {
        lemma_append_string(o9, cr, t10);
    }
    assert(o10 + t10 == t0);
    push_bytes("}".as_bytes(), &mut out);
    assert(out@ == t0);
    out
}

/// Takes `lit` off the text that starts at `pos`, and tells where the rest starts.
pub fn take_lit_at(t: &[u8], pos: usize, lit: &[u8]) -> (r: Option<usize>)
    ensures
        pos > t.len() ==> r is None,
        pos <= t.len() ==> (
            match take_lit(t@.subrange(pos as int, t@.len() as int), lit@) {
                Some(rest) => r matches Some(p) && pos <= p <= t.len() && rest == t@.subrange(
                    p as int,
                    t@.len() as int,
                ),
                None => r is None,
            }),
{
    if pos > t.len() {
        return None;
    }
    let ghost s = t@.subrange(pos as int, t@.len() as int);
    if lit.len() > t.len() - pos {
        return None;
    }
    let mut i: usize = 0;
    while i < lit.len()
        invariant
            i <= lit.len(),
            pos + lit.len() <= t.len(),
            s == t@.subrange(pos as int, t@.len() as int),
            forall|j: int| 0 <= j < i ==> t@[pos + j] == lit@[j],
        decreases lit.len() - i,
    {
        if t[pos + i] != lit[i] {
            assert(s.subrange(0, lit@.len() as int)[i as int] == t@[pos + i]);
            return None;
        }
        i = i + 1;
    }
    assert(s.subrange(0, lit@.len() as int) =~= lit@);
    assert(s.subrange(lit@.len() as int, s.len() as int) =~= t@.subrange(
        pos + lit@.len(),
        t@.len() as int,
    ));
    Some(pos + lit.len())
}

/// Whether a digit stands at `i`.
fn digit_at(t: &[u8], i: usize) -> (r: bool)
    ensures
        r == (i < t.len() && is_digit(t@[i as int])),
{
    i < t.len() && digit(t[i])
}

/// Takes a number off the text that starts at `pos`.
pub fn take_decimal_at(t: &[u8], pos: usize) -> (r: Option<(u64, usize)>)
    ensures
        pos > t.len() ==> r is None,
        pos <= t.len() ==> (
            match take_decimal(t@.subrange(pos as int, t@.len() as int)) {
                Some((n, rest)) => r matches Some((m, p)) && m == n && pos <= p <= t.len() && rest
                    == t@.subrange(p as int, t@.len() as int),
                None => r is None,
            }),
{
    if pos > t.len() {
        return None;
    }
    let ghost s = t@.subrange(pos as int, t@.len() as int);
    let mut i: usize = pos;
    let mut acc: u64 = 0;
    assert(t@.subrange(pos as int, pos as int) =~= Seq::<u8>::empty());
    while digit_at(t, i)
        invariant
            pos <= i <= t.len(),
            s == t@.subrange(pos as int, t@.len() as int),
            forall|j: int| pos <= j < i ==> is_digit(#[trigger] t@[j]),
            acc == digits_value(t@.subrange(pos as int, i as int)),
        decreases t.len() - i,
    {
        let d: u8 = t[i] - 0x30;
        let ghost next = t@.subrange(pos as int, i + 1);
        assert(next.drop_last() =~= t@.subrange(pos as int, i as int));
        assert(next.last() == t@[i as int]);
        if acc > (u64::MAX - d as u64) / 10 {
            proof {
                assert(digits_value(next) > u64::MAX);
                assert forall|j: int| 0 <= j < i + 1 - pos implies is_digit(#[trigger] s[j]) by {
                    assert(s[j] == t@[pos + j]);
                }
                lemma_digit_run_at_least(s, i + 1 - pos);
                lemma_digit_run_digits(s);
                let k = digit_run(s) as int;
                let run = s.subrange(0, k);
                assert forall|j: int| 0 <= j < run.len() implies is_digit(#[trigger] run[j]) by {
                    assert(run[j] == s[j]);
                }
                lemma_digits_value_monotone(run, i + 1 - pos);
                assert(run.subrange(0, i + 1 - pos) =~= next);
            }
            return None;
        }
        acc = acc * 10 + d as u64;
        i = i + 1;
    }
    proof {
        assert forall|j: int| 0 <= j < i - pos implies is_digit(#[trigger] s[j]) by {
            assert(s[j] == t@[pos + j]);
        }
        if i < t.len() {
            assert(s[i - pos] == t@[i as int]);
        }
        lemma_digit_run_exact(s, i - pos);
        assert(s.subrange(0, i - pos) =~= t@.subrange(pos as int, i as int));
        assert(s.subrange(i - pos, s.len() as int) =~= t@.subrange(i as int, t@.len() as int));
    }
    if i == pos {
        None
    } else {
        Some((acc, i))
    }
}

/// Reads the byte that the text inside a JSON string has at `pos`, with the
/// number of bytes that spell it.
pub fn unescape_first_at(t: &[u8], pos: usize) -> (r: Option<(u8, usize)>)
    ensures
        pos > t.len() ==> r is None,
        pos <= t.len() ==> (
            match unescape_first(t@.subrange(pos as int, t@.len() as int)) {
                Some((b, n)) => r == Some((b, n as usize)) && 1 <= n && pos + n <= t.len(),
                None => r is None,
            }),
{
    if pos > t.len() {
        return None;
    }
    let ghost s = t@.subrange(pos as int, t@.len() as int);
    let n: usize = t.len() - pos;
    if n == 0 {
        return None;
    }
    let c: u8 = t[pos];
    assert(s[0] == c);
    if c == 0x5c {
        if n < 2 {
            return None;
        }
        let e: u8 = t[pos + 1];
        assert(s[1] == e);
        if e == 0x22 {
            Some((0x22, 2))
        } else if e == 0x5c {
            Some((0x5c, 2))
        } else if e == 0x62 {
            Some((0x08, 2))
        } else if e == 0x74 {
            Some((0x09, 2))
        } else if e == 0x6e {
            Some((0x0a, 2))
        } else if e == 0x66 {
            Some((0x0c, 2))
        } else if e == 0x72 {
            Some((0x0d, 2))
        } else if e == 0x75 && n >= 6 {
            assert(s[2] == t@[pos + 2] && s[3] == t@[pos + 3] && s[4] == t@[pos + 4] && s[5] == t@[pos
                + 5]);
            if t[pos + 2] != 0x30 || t[pos + 3] != 0x30 {
                return None;
            }
            match (hex_value_of(t[pos + 4]), hex_value_of(t[pos + 5])) {
                (Some(h), Some(l)) => {
                    if h < 2 {
                        Some((h * 16 + l, 6))
                    } else {
                        None
                    }
                },
                _ => None,
            }
        } else {
            None
        }
    } else if c < 0x20 || c == 0x22 {
        None
    } else {
        Some((c, 1))
    }
}

/// The value of a lower-case hexadecimal digit.
pub fn hex_value_of(b: u8) -> (r: Option<u8>)
    ensures
        match hex_value(b) {
            Some(v) => r == Some(v as u8) && v < 16,
            None => r is None,
        },
{
    if 0x30 <= b && b <= 0x39 {
        Some(b - 0x30)
    } else if 0x61 <= b && b <= 0x66 {
        Some(b - 0x61 + 10)
    } else {
        None
    }
}

/// Takes a JSON string off the text that starts at `pos`.
pub fn take_string_at(t: &[u8], pos: usize) -> (r: Option<(Vec<u8>, usize)>)
    ensures
        pos > t.len() ==> r is None,
        pos <= t.len() ==> (
            match take_string(t@.subrange(pos as int, t@.len() as int)) {
                Some((c, rest)) => r matches Some((v, p)) && v@ == c && pos <= p <= t.len() && rest
                    == t@.subrange(p as int, t@.len() as int),
                None => r is None,
            }),
{
    if pos > t.len() {
        return None;
    }
    let ghost s = t@.subrange(pos as int, t@.len() as int);
    if pos >= t.len() {
        return None;
    }
    assert(s[0] == t@[pos as int]);
    if t[pos] != 0x22 {
        return None;
    }
    let start: usize = pos + 1;
    let ghost base = t@.subrange(start as int, t@.len() as int);
    assert(s.drop_first() =~= base);
    let mut out: Vec<u8> = Vec::new();
    let mut i: usize = start;
    assert(out@ + Seq::<u8>::empty() =~= out@);
    proof {
        match scan_string(base) {
            Some((c, n)) => {
                assert(out@ + c =~= c);
            },
            None => {},
        }
    }
    while i < t.len()
        invariant
            start == pos + 1,
            start <= i <= t.len(),
            s.len() > 0,
            s[0] == 0x22,
            s.drop_first() == base,
            base == t@.subrange(start as int, t@.len() as int),
            s == t@.subrange(pos as int, t@.len() as int),
            scan_string(base) == (match scan_string(t@.subrange(i as int, t@.len() as int)) {
                Some((c, n)) => Some((out@ + c, (i - start) + n)),
                None => None,
            }),
        decreases t.len() - i,
    {
        let ghost cur = t@.subrange(i as int, t@.len() as int);
        assert(cur[0] == t@[i as int]);
        if t[i] == 0x22 {
            assert(out@ + Seq::<u8>::empty() =~= out@);
            assert(s.subrange(1 + (i - start + 1), s.len() as int) =~= t@.subrange(
                i + 1,
                t@.len() as int,
            ));
            return Some((out, i + 1));
        }
        match unescape_first_at(t, i) {
            None => {
                return None;
            },
            Some((b, n)) => {
                let ghost before = out@;
                out.push(b);
                proof {
                    assert(cur.subrange(n as int, cur.len() as int) =~= t@.subrange(
                        i + n,
                        t@.len() as int,
                    ));
                    match scan_string(t@.subrange(i + n, t@.len() as int)) {
                        Some((c, m)) => {
                            assert(before + (seq![b] + c) =~= before.push(b) + c);
                        },
                        None => {},
                    }
                }
                i = i + n;
            },
        }
    }
    assert(t@.subrange(i as int, t@.len() as int).len() == 0);
    None
}

/// Reads a stored line.
pub fn decode_entry(line: &[u8]) -> (r: Option<PetAddressInfo>)
    ensures
        match r {
            Some(info) => decoded_entry(line@) == Some(info@),
            None => decoded_entry(line@) is None,
        },
{
    assert(line@.subrange(0, line@.len() as int) =~= line@);
    let at1 = match take_lit_at(line, 0, "{\"id\":".as_bytes()) {
        Some(p) => p,
        None => { return None; },
    };
    let (id, at2) = match take_decimal_at(line, at1) {
        Some(x) => x,
        None => { return None; },
    };
    let at3 = match take_lit_at(line, at2, ",\"address\":{\"public_key\":".as_bytes()) {
        Some(p) => p,
        None => { return None; },
    };
    let (public_key, at4) = match take_string_at(line, at3) {
        Some(x) => x,
        None => { return None; },
    };
    let at5 = match take_lit_at(line, at4, ",\"private_key\":".as_bytes()) {
        Some(p) => p,
        None => { return None; },
    };
    let (private_key, at6) = match take_string_at(line, at5) {
        Some(x) => x,
        None => { return None; },
    };
    let at7 = match take_lit_at(line, at6, ",\"address\":".as_bytes()) {
        Some(p) => p,
        None => { return None; },
    };
    let (address, at8) = match take_string_at(line, at7) {
        Some(x) => x,
        None => { return None; },
    };
    let at9 = match take_lit_at(line, at8, "},\"created_at\":".as_bytes()) {
        Some(p) => p,
        None => { return None; },
    };
    let (created_at, at10) = match take_string_at(line, at9) {
        Some(x) => x,
        None => { return None; },
    };
    let at11 = match take_lit_at(line, at10, "}".as_bytes()) {
        Some(p) => p,
        None => { return None; },
    };
    if at11 != line.len() {
        return None;
    }
    let ghost raw = RawEntry {
        id,
        public_key: public_key@,
        private_key: private_key@,
        address: address@,
        created_at: created_at@,
    };
    assert(parse_entry(line@) == Some(raw));
    let public_key = match string_from_utf8(public_key) {
        Some(x) => x,
        None => { return None; },
    };
    let private_key = match string_from_utf8(private_key) {
        Some(x) => x,
        None => { return None; },
    };
    let address = match string_from_utf8(address) {
        Some(x) => x,
        None => { return None; },
    };
    let created_at = match string_from_utf8(created_at) {
        Some(x) => x,
        None => { return None; },
    };
    Some(PetAddressInfo { id, address: PetAddress { public_key, private_key, address }, created_at })
}

} // verus!
