//! The persisted layout: how an identifier becomes a key, in which order the
//! keys are taken, and how the counter is written.

use vstd::prelude::*;

verus! {

/// The ASCII code of the decimal digit `d`.
pub open spec fn digit_byte(d: nat) -> u8 {
    (0x30 + d % 10) as u8
}

/// The last `w` decimal digits of `n`, most significant first.
pub open spec fn digits_fixed(n: nat, w: nat) -> Seq<u8>
    decreases w,
{
    if w == 0 {
        Seq::empty()
    } else {
        digits_fixed(n / 10, (w - 1) as nat).push(digit_byte(n % 10))
    }
}

/// How many digits the decimal numeral of `n` has.
pub open spec fn decimal_width(n: nat) -> nat
    decreases n,
{
    if n < 10 {
        1
    } else {
        1 + decimal_width(n / 10)
    }
}

/// The decimal numeral of `n`, without leading zeros.
pub open spec fn decimal(n: nat) -> Seq<u8> {
    digits_fixed(n, decimal_width(n))
}

/// The decimal numeral of `n`, filled with zeros on the left up to `w` digits.
/// A numeral that is longer than `w` is left as it is.
pub open spec fn zero_padded(n: nat, w: nat) -> Seq<u8> {
    digits_fixed(
        n,
        if decimal_width(n) < w {
            w
        } else {
            decimal_width(n)
        },
    )
}

/// The smallest number that no longer fits in `w` decimal digits.
pub open spec fn pow10(w: nat) -> nat
    decreases w,
{
    if w == 0 {
        1
    } else {
        10 * pow10((w - 1) as nat)
    }
}

/// Byte-wise lexicographic order, the order in which the store scans its keys.
pub open spec fn lex_lt(a: Seq<u8>, b: Seq<u8>) -> bool {
    exists|i: int|
        0 <= i <= a.len() && i <= b.len() && #[trigger] a.subrange(0, i) == b.subrange(0, i) && (
        if i == a.len() {
            i < b.len()
        } else {
            i < b.len() && a[i] < b[i]
        })
}

/// A fixed-width numeral has the width that was asked for.
pub proof fn lemma_digits_fixed_len(n: nat, w: nat)
    ensures
        digits_fixed(n, w).len() == w,
    decreases w,
{
    if w > 0 {
        lemma_digits_fixed_len(n / 10, (w - 1) as nat);
    }
}

/// The numeral of a number is as wide as the number needs, and no wider.
pub proof fn lemma_decimal_width_bound(n: nat)
    ensures
        1 <= decimal_width(n),
        n < pow10(decimal_width(n)),
        decimal_width(n) > 1 ==> pow10((decimal_width(n) - 1) as nat) <= n,
    decreases n,
{
    if n >= 10 {
        lemma_decimal_width_bound(n / 10);
        reveal_with_fuel(pow10, 2);
    } else {
        reveal_with_fuel(pow10, 2);
    }
}

/// Among numbers that fit in `w` digits, the fixed-width numerals are ordered
/// as the numbers are.
pub proof fn lemma_digits_fixed_ordered(a: nat, b: nat, w: nat)
    requires
        a < b,
        b < pow10(w),
    ensures
        lex_lt(digits_fixed(a, w), digits_fixed(b, w)),
    decreases w,
{
    let da = digits_fixed(a, w);
    let db = digits_fixed(b, w);
    lemma_digits_fixed_len(a, w);
    lemma_digits_fixed_len(b, w);
    if w == 0 {
        assert(false);
    } else {
        let pa = digits_fixed(a / 10, (w - 1) as nat);
        let pb = digits_fixed(b / 10, (w - 1) as nat);
        lemma_digits_fixed_len(a / 10, (w - 1) as nat);
        lemma_digits_fixed_len(b / 10, (w - 1) as nat);
        if a / 10 < b / 10 {
            lemma_digits_fixed_ordered(a / 10, b / 10, (w - 1) as nat);
            let i = choose|i: int|
                0 <= i <= pa.len() && i <= pb.len() && #[trigger] pa.subrange(0, i) == pb.subrange(
                    0,
                    i,
                ) && (if i == pa.len() {
                    i < pb.len()
                } else {
                    i < pb.len() && pa[i] < pb[i]
                });
            assert(da.subrange(0, i) =~= pa.subrange(0, i));
            assert(db.subrange(0, i) =~= pb.subrange(0, i));
            assert(da[i] == pa[i]);
            assert(db[i] == pb[i]);
        } else {
            assert(a / 10 == b / 10);
            assert(a % 10 < b % 10);
            let i = (w - 1) as int;
            assert(da.subrange(0, i) =~= pa);
            assert(db.subrange(0, i) =~= pb);
            assert(da[i] == digit_byte(a % 10));
            assert(db[i] == digit_byte(b % 10));
        }
    }
}

/// Distinct numbers have distinct fixed-width numerals, as long as both fit.
pub proof fn lemma_digits_fixed_injective(a: nat, b: nat, w: nat)
    requires
        a < pow10(w),
        b < pow10(w),
        digits_fixed(a, w) == digits_fixed(b, w),
    ensures
        a == b,
    decreases w,
{
    if w > 0 {
        let pa = digits_fixed(a / 10, (w - 1) as nat);
        let pb = digits_fixed(b / 10, (w - 1) as nat);
        lemma_digits_fixed_len(a / 10, (w - 1) as nat);
        lemma_digits_fixed_len(b / 10, (w - 1) as nat);
        let da = digits_fixed(a, w);
        let db = digits_fixed(b, w);
        assert(pa =~= da.drop_last());
        assert(pb =~= db.drop_last());
        assert(da.last() == digit_byte(a % 10));
        assert(db.last() == digit_byte(b % 10));
        lemma_digits_fixed_injective(a / 10, b / 10, (w - 1) as nat);
    }
}


/// A larger power of ten is no smaller.
pub proof fn lemma_pow10_monotone(a: nat, b: nat)
    requires
        a <= b,
    ensures
        pow10(a) <= pow10(b),
        pow10(a) >= 1,
    decreases b,
{
    if a < b {
        lemma_pow10_monotone(a, (b - 1) as nat);
    } else if b > 0 {
        lemma_pow10_monotone((a - 1) as nat, (b - 1) as nat);
    }
}

/// Putting the same bytes in front of two keys does not change their order.
pub proof fn lemma_lex_lt_prepend(p: Seq<u8>, a: Seq<u8>, b: Seq<u8>)
    requires
        lex_lt(a, b),
    ensures
        lex_lt(p + a, p + b),
{
    let i = choose|i: int|
        0 <= i <= a.len() && i <= b.len() && #[trigger] a.subrange(0, i) == b.subrange(0, i) && (
        if i == a.len() {
            i < b.len()
        } else {
            i < b.len() && a[i] < b[i]
        });
    let j = p.len() + i;
    assert((p + a).subrange(0, j) =~= p + a.subrange(0, i));
    assert((p + b).subrange(0, j) =~= p + b.subrange(0, i));
    if i < a.len() {
        assert((p + a)[j] == a[i]);
        assert((p + b)[j] == b[i]);
    }
}

/// No key comes before itself, and of two keys at most one comes before the other.
pub proof fn lemma_lex_lt_asymmetric(a: Seq<u8>, b: Seq<u8>)
    requires
        lex_lt(a, b),
    ensures
        !lex_lt(b, a),
        a != b,
{
    let i = choose|i: int|
        0 <= i <= a.len() && i <= b.len() && #[trigger] a.subrange(0, i) == b.subrange(0, i) && (
        if i == a.len() {
            i < b.len()
        } else {
            i < b.len() && a[i] < b[i]
        });
    if lex_lt(b, a) {
        let j = choose|j: int|
            0 <= j <= b.len() && j <= a.len() && #[trigger] b.subrange(0, j) == a.subrange(0, j)
                && (if j == b.len() {
                j < a.len()
            } else {
                j < a.len() && b[j] < a[j]
            });
        if i < j {
            assert(b.subrange(0, j)[i] == a.subrange(0, j)[i]);
        } else if j < i {
            assert(a.subrange(0, i)[j] == b.subrange(0, i)[j]);
        }
        assert(false);
    }
    if a == b {
        assert(false);
    }
}

/// The bytes `address:`, under which the entries are kept.
pub open spec fn entry_prefix() -> Seq<u8> {
    seq![0x61u8, 0x64u8, 0x64u8, 0x72u8, 0x65u8, 0x73u8, 0x73u8, 0x3au8]
}

/// The bytes `counter`, the key of the identifier counter.
pub open spec fn counter_key() -> Seq<u8> {
    seq![0x63u8, 0x6fu8, 0x75u8, 0x6eu8, 0x74u8, 0x65u8, 0x72u8]
}

/// Whether `k` starts with the bytes `p`.
pub open spec fn has_prefix(k: Seq<u8>, p: Seq<u8>) -> bool {
    p.len() <= k.len() && k.subrange(0, p.len() as int) == p
}

/// The key of the entry with identifier `id`: `address:` and the identifier in
/// decimal, zero-padded to ten digits.
pub open spec fn entry_key(id: u64) -> Seq<u8> {
    entry_prefix() + zero_padded(id as nat, 10)
}

/// Every entry key starts with the entry prefix, and the counter key does not.
pub proof fn lemma_entry_key_has_prefix(id: u64)
    ensures
        has_prefix(entry_key(id), entry_prefix()),
        !has_prefix(counter_key(), entry_prefix()),
        entry_key(id) != counter_key(),
{
    assert(entry_key(id).subrange(0, 8) =~= entry_prefix());
    assert(counter_key()[0] != entry_prefix()[0]);
    assert(entry_key(id)[0] == entry_prefix()[0]);
}

/// Different identifiers have different keys.
pub proof fn lemma_entry_key_injective(a: u64, b: u64)
    requires
        entry_key(a) == entry_key(b),
    ensures
        a == b,
{
    let wa = if decimal_width(a as nat) < 10 { 10 } else { decimal_width(a as nat) };
    let wb = if decimal_width(b as nat) < 10 { 10 } else { decimal_width(b as nat) };
    let za = zero_padded(a as nat, 10);
    let zb = zero_padded(b as nat, 10);
    lemma_digits_fixed_len(a as nat, wa);
    lemma_digits_fixed_len(b as nat, wb);
    assert(za =~= entry_key(a).subrange(8, entry_key(a).len() as int));
    assert(zb =~= entry_key(b).subrange(8, entry_key(b).len() as int));
    assert(wa == wb);
    lemma_decimal_width_bound(a as nat);
    lemma_decimal_width_bound(b as nat);
    lemma_pow10_monotone(decimal_width(a as nat), wa);
    lemma_pow10_monotone(decimal_width(b as nat), wb);
    lemma_digits_fixed_injective(a as nat, b as nat, wa);
}

/// Appends the last `w` decimal digits of `n` to `out`.
pub fn push_digits(n: u64, w: usize, out: &mut Vec<u8>)
    ensures
        final(out)@ == old(out)@ + digits_fixed(n as nat, w as nat),
    decreases w,
{
    if w > 0 {
        push_digits(n / 10, w - 1, out);
        let d: u8 = (n % 10) as u8;
        out.push(0x30 + d);
        assert(final(out)@ =~= old(out)@ + digits_fixed(n as nat, w as nat));
    } else {
        assert(out@ =~= old(out)@ + digits_fixed(n as nat, w as nat));
    }
}

/// The number of digits of the decimal numeral of `n`.
pub fn decimal_digits(n: u64) -> (w: usize)
    ensures
        w == decimal_width(n as nat),
        1 <= w <= 20,
{
    let mut w: usize = 1;
    let mut m: u64 = n;
    assert(m as nat * pow10(0) <= n) by {
        assert(pow10(0) == 1);
        assert(m as nat * 1 == m as nat);
    }
    while m >= 10
        invariant
            1 <= w <= 20,
            w + decimal_width(m as nat) == 1 + decimal_width(n as nat),
            m as nat * pow10((w - 1) as nat) <= n,
        decreases m,
    {
        proof {
            reveal_with_fuel(pow10, 21);
            assert(pow10(19) == 10_000_000_000_000_000_000);
            assert(pow10(w as nat) == 10 * pow10((w - 1) as nat));
            assert((m / 10) as nat * pow10(w as nat) <= m as nat * pow10((w - 1) as nat))
                by (nonlinear_arith)
                requires
                    pow10(w as nat) == 10 * pow10((w - 1) as nat),
                    (m / 10) * 10 <= m,
            ;
            if w >= 20 {
                lemma_pow10_monotone(19, (w - 1) as nat);
                assert(m as nat * pow10((w - 1) as nat) >= 10 * pow10(19)) by (nonlinear_arith)
                    requires
                        m >= 10,
                        pow10((w - 1) as nat) >= pow10(19),
                ;
            }
        }
        m = m / 10;
        w = w + 1;
    }
    w
}

/// Writes the key of the entry with identifier `id`.
pub fn make_entry_key(id: u64) -> (key: Vec<u8>)
    ensures
        key@ == entry_key(id),
{
    let mut key: Vec<u8> = make_entry_prefix();
    let d: usize = decimal_digits(id);
    let w: usize = if d < 10 { 10 } else { d };
    push_digits(id, w, &mut key);
    key
}

/// Writes the key of the counter.
pub fn make_counter_key() -> (key: Vec<u8>)
    ensures
        key@ == counter_key(),
{
    let mut key: Vec<u8> = Vec::new();
    key.push(0x63);
    key.push(0x6f);
    key.push(0x75);
    key.push(0x6e);
    key.push(0x74);
    key.push(0x65);
    key.push(0x72);
    assert(key@ =~= counter_key());
    key
}

/// Writes the prefix under which all entries are kept.
pub fn make_entry_prefix() -> (key: Vec<u8>)
    ensures
        key@ == entry_prefix(),
{
    let mut key: Vec<u8> = Vec::new();
    key.push(0x61);
    key.push(0x64);
    key.push(0x64);
    key.push(0x72);
    key.push(0x65);
    key.push(0x73);
    key.push(0x73);
    key.push(0x3a);
    assert(key@ =~= entry_prefix());
    key
}


/// The eight bytes of `n`, most significant first.
pub open spec fn be_bytes(n: u64) -> Seq<u8> {
    seq![
        (n / 0x100_0000_0000_0000 % 256) as u8,
        (n / 0x1_0000_0000_0000 % 256) as u8,
        (n / 0x100_0000_0000 % 256) as u8,
        (n / 0x1_0000_0000 % 256) as u8,
        (n / 0x100_0000 % 256) as u8,
        (n / 0x1_0000 % 256) as u8,
        (n / 0x100 % 256) as u8,
        (n % 256) as u8,
    ]
}

/// The number that eight bytes spell, most significant first.
pub open spec fn be_value(b: Seq<u8>) -> u64 {
    (b[0] * 0x100_0000_0000_0000 + b[1] * 0x1_0000_0000_0000 + b[2] * 0x100_0000_0000 + b[3]
        * 0x1_0000_0000 + b[4] * 0x100_0000 + b[5] * 0x1_0000 + b[6] * 0x100 + b[7]) as u64
}

/// What the stored counter stands for: nothing stored yet is zero, eight bytes
/// are a number, anything else is no counter.
pub open spec fn stored_counter(v: Option<Seq<u8>>) -> Option<u64> {
    match v {
        None => Some(0),
        Some(b) => if b.len() == 8 {
            Some(be_value(b))
        } else {
            None
        },
    }
}

/// What one step of the counter writes back: the next number, or what was there
/// when that is no counter or the largest number.
pub open spec fn advanced_counter(v: Option<Seq<u8>>) -> Seq<u8> {
    match stored_counter(v) {
        Some(n) => if n < u64::MAX {
            be_bytes((n + 1) as u64)
        } else {
            v->0
        },
        None => v->0,
    }
}

/// A counter value is read back from its bytes.
pub proof fn lemma_be_round_trip(n: u64)
    ensures
        be_bytes(n).len() == 8,
        be_value(be_bytes(n)) == n,
{
    assert((n / 0x100_0000_0000_0000 % 256) * 0x100_0000_0000_0000 + (n / 0x1_0000_0000_0000
        % 256) * 0x1_0000_0000_0000 + (n / 0x100_0000_0000 % 256) * 0x100_0000_0000 + (n
        / 0x1_0000_0000 % 256) * 0x1_0000_0000 + (n / 0x100_0000 % 256) * 0x100_0000 + (n
        / 0x1_0000 % 256) * 0x1_0000 + (n / 0x100 % 256) * 0x100 + (n % 256) == n)
        by (bit_vector);
}

/// Writes a counter value.
pub fn counter_bytes(n: u64) -> (b: Vec<u8>)
    ensures
        b@ == be_bytes(n),
{
    let mut b: Vec<u8> = Vec::new();
    b.push((n / 0x100_0000_0000_0000 % 256) as u8);
    b.push((n / 0x1_0000_0000_0000 % 256) as u8);
    b.push((n / 0x100_0000_0000 % 256) as u8);
    b.push((n / 0x1_0000_0000 % 256) as u8);
    b.push((n / 0x100_0000 % 256) as u8);
    b.push((n / 0x1_0000 % 256) as u8);
    b.push((n / 0x100 % 256) as u8);
    b.push((n % 256) as u8);
    assert(b@ =~= be_bytes(n));
    b
}

/// Reads a counter value: eight bytes are a number, anything else is none.
pub fn counter_value(b: &[u8]) -> (n: Option<u64>)
    ensures
        n == stored_counter(Some(b@)),
{
    if b.len() != 8 {
        return None;
    }
    let v: u64 = (b[0] as u64) * 0x100_0000_0000_0000 + (b[1] as u64) * 0x1_0000_0000_0000 + (
    b[2] as u64) * 0x100_0000_0000 + (b[3] as u64) * 0x1_0000_0000 + (b[4] as u64) * 0x100_0000
        + (b[5] as u64) * 0x1_0000 + (b[6] as u64) * 0x100 + (b[7] as u64);
    Some(v)
}

/// One step of the counter, as the store applies it to what it holds under the
/// counter key. It never removes the counter: what is no counter, and the
/// largest number, are written back as they are.
pub fn advance_counter(old_bytes: Option<&[u8]>) -> (next: Option<Vec<u8>>)
    ensures
        next matches Some(v) && v@ == advanced_counter(
            match old_bytes {
                Some(b) => Some(b@),
                None => None,
            },
        ),
{
    match old_bytes {
        None => Some(counter_bytes(1)),
        Some(b) => {
            match counter_value(b) {
                Some(n) => {
                    if n < u64::MAX {
                        Some(counter_bytes(n + 1))
                    } else {
                        Some(vstd::slice::slice_to_vec(b))
                    }
                },
                None => Some(vstd::slice::slice_to_vec(b)),
            }
        },
    }
}

/// The order in which entries are taken: a shorter key comes first, and of two
/// keys of one length the one that comes first byte by byte.
pub open spec fn key_before(a: Seq<u8>, b: Seq<u8>) -> bool {
    a.len() < b.len() || (a.len() == b.len() && lex_lt(a, b))
}

/// A larger number has no shorter numeral.
pub proof fn lemma_decimal_width_monotone(a: nat, b: nat)
    requires
        a <= b,
    ensures
        decimal_width(a) <= decimal_width(b),
    decreases b,
{
    if b >= 10 && a >= 10 {
        lemma_decimal_width_monotone(a / 10, b / 10);
    }
}

/// Of two keys at most one comes before the other, and no key before itself.
pub proof fn lemma_key_before_asymmetric(a: Seq<u8>, b: Seq<u8>)
    requires
        key_before(a, b),
    ensures
        !key_before(b, a),
        a != b,
{
    if a.len() == b.len() {
        lemma_lex_lt_asymmetric(a, b);
    }
}

/// The keys of the entries are taken in the order of their identifiers,
/// whatever the identifiers are.
pub proof fn lemma_entry_key_before(a: u64, b: u64)
    requires
        a < b,
    ensures
        key_before(entry_key(a), entry_key(b)),
{
    let wa: nat = if decimal_width(a as nat) < 10 { 10 } else { decimal_width(a as nat) };
    let wb: nat = if decimal_width(b as nat) < 10 { 10 } else { decimal_width(b as nat) };
    lemma_decimal_width_monotone(a as nat, b as nat);
    lemma_digits_fixed_len(a as nat, wa);
    lemma_digits_fixed_len(b as nat, wb);
    assert(entry_key(a).len() == 8 + wa);
    assert(entry_key(b).len() == 8 + wb);
    if wa == wb {
        lemma_decimal_width_bound(b as nat);
        lemma_pow10_monotone(decimal_width(b as nat), wb);
        lemma_digits_fixed_ordered(a as nat, b as nat, wb);
        lemma_lex_lt_prepend(entry_prefix(), zero_padded(a as nat, 10), zero_padded(b as nat, 10));
    }
}

} // verus!
