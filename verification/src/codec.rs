//! Fixed-width decimal numbers and lowercase hexadecimal text, as bytes.
//!
//! Sequence numbers appear in storage keys and snapshot records as twenty
//! ASCII digits, the width of the largest `u64`. Keys and tokens are carried
//! as lowercase hexadecimal text.

use vstd::prelude::*;

verus! {

pub open spec fn is_digit(b: u8) -> bool {
    48 <= b <= 57
}

/// Every byte of `s` is an ASCII digit.
pub open spec fn is_decimal(s: Seq<u8>) -> bool {
    forall|i: int| 0 <= i < s.len() ==> is_digit(#[trigger] s[i])
}

/// The last `width` decimal digits of `n`, most significant first.
pub open spec fn decimal(n: nat, width: nat) -> Seq<u8>
    decreases width,
{
    if width == 0 {
        Seq::empty()
    } else {
        decimal(n / 10, (width - 1) as nat).push((48 + n % 10) as u8)
    }
}

/// The number that a string of digits denotes.
pub open spec fn decimal_value(s: Seq<u8>) -> nat
    decreases s.len(),
{
    if s.len() == 0 {
        0
    } else {
        decimal_value(s.drop_last()) * 10 + (s.last() - 48) as nat
    }
}

pub open spec fn pow10(w: nat) -> nat
    decreases w,
{
    if w == 0 {
        1
    } else {
        10 * pow10((w - 1) as nat)
    }
}

/// What a stored sequence number field denotes: a `u64` written as exactly
/// twenty digits, or nothing.
pub open spec fn parse_seq(s: Seq<u8>) -> Option<nat> {
    if s.len() == 20 && is_decimal(s) && decimal_value(s) <= u64::MAX {
        Some(decimal_value(s))
    } else {
        None
    }
}

pub proof fn lemma_decimal_shape(n: nat, width: nat)
    ensures
        decimal(n, width).len() == width,
        is_decimal(decimal(n, width)),
    decreases width,
{
    if width > 0 {
        lemma_decimal_shape(n / 10, (width - 1) as nat);
    }
}

pub proof fn lemma_decimal_value(n: nat, width: nat)
    requires
        n < pow10(width),
    ensures
        decimal_value(decimal(n, width)) == n,
    decreases width,
{
    if width > 0 {
        let w = (width - 1) as nat;
        lemma_decimal_value(n / 10, w);
        lemma_decimal_shape(n / 10, w);
        let d = decimal(n, width);
        assert(d.drop_last() =~= decimal(n / 10, w));
    }
}

pub proof fn lemma_decimal_of_value(s: Seq<u8>)
    requires
        is_decimal(s),
    ensures
        decimal(decimal_value(s), s.len()) == s,
    decreases s.len(),
{
    if s.len() > 0 {
        let p = s.drop_last();
        lemma_decimal_of_value(p);
        let v = decimal_value(s);
        assert(v / 10 == decimal_value(p));
        assert((48 + v % 10) as u8 == s.last());
        assert(decimal(v, s.len()) =~= s);
    }
}

pub proof fn lemma_pow10_20()
    ensures
        pow10(20) == 100000000000000000000,
        u64::MAX < pow10(20),
{
    reveal_with_fuel(pow10, 21);
}

/// A `u64` survives being written as twenty digits and read back.
pub proof fn lemma_seq_round_trip(n: nat)
    requires
        n <= u64::MAX,
    ensures
        parse_seq(decimal(n, 20)) == Some(n),
{
    lemma_pow10_20();
    lemma_decimal_shape(n, 20);
    lemma_decimal_value(n, 20);
}

/// Only one string of twenty digits denotes a given number.
pub proof fn lemma_seq_canonical(s: Seq<u8>)
    requires
        parse_seq(s) is Some,
    ensures
        s == decimal(parse_seq(s)->0, 20),
{
    lemma_decimal_of_value(s);
}

/// Appends `n` in exactly `width` digits.
pub fn push_decimal(out: &mut Vec<u8>, n: u64, width: usize)
    ensures
        final(out)@ == old(out)@ + decimal(n as nat, width as nat),
    decreases width,
{
    if width == 0 {
        assert(out@ =~= old(out)@ + decimal(n as nat, 0));
    } else {
        push_decimal(out, n / 10, width - 1);
        let digit: u8 = (n % 10) as u8;
        out.push(48 + digit);
        assert(out@ =~= old(out)@ + decimal(n as nat, width as nat));
    }
}

/// The sequence number in the twenty bytes of `s` that begin at `from`, if
/// `s` has them and they denote one.
pub open spec fn seq_field(s: Seq<u8>, from: int) -> Option<nat> {
    if 0 <= from && from + 20 <= s.len() {
        parse_seq(s.subrange(from, from + 20))
    } else {
        None
    }
}

/// Reads the twenty digits of `s` that begin at `from`.
pub fn read_seq(s: &[u8], from: usize) -> (r: Option<u64>)
    ensures
        match r {
            Some(n) => seq_field(s@, from as int) == Some(n as nat),
            None => seq_field(s@, from as int) is None,
        },
{
    if from > s.len() || s.len() - from < 20 {
        return None;
    }
    let ghost field = s@.subrange(from as int, from + 20);
    let mut acc: u128 = 0;
    let mut i: usize = 0;
    while i < 20
        invariant
            i <= 20,
            from + 20 <= s.len(),
            field == s@.subrange(from as int, from + 20),
            is_decimal(field.subrange(0, i as int)),
            acc == decimal_value(field.subrange(0, i as int)),
            acc < pow10(i as nat),
        decreases 20 - i,
    {
        let b: u8 = s[from + i];
        assert(b == field[i as int]);
        if b < 48 || b > 57 {
            assert(!is_digit(field[i as int]));
            return None;
        }
        proof {
            lemma_pow10_20();
            lemma_pow10_monotone((i + 1) as nat, 20);
            let next = field.subrange(0, i + 1);
            assert(next.drop_last() =~= field.subrange(0, i as int));
            assert(next.last() == b);
        }
        acc = acc * 10 + (b - 48) as u128;
        i = i + 1;
    }
    assert(field.subrange(0, 20) =~= field);
    if acc > 18446744073709551615u128 {
        None
    } else {
        Some(acc as u64)
    }
}

pub proof fn lemma_pow10_monotone(a: nat, b: nat)
    requires
        a <= b,
    ensures
        pow10(a) <= pow10(b),
        pow10(a) >= 1,
    decreases b,
{
    if a < b {
        lemma_pow10_monotone(a, (b - 1) as nat);
    } else if a > 0 {
        lemma_pow10_monotone((a - 1) as nat, (a - 1) as nat);
    }
}

/// The lowercase hexadecimal digit for a value below sixteen.
pub open spec fn hex_digit(n: u8) -> u8 {
    if n < 10 {
        (48 + n) as u8
    } else {
        (87 + n) as u8
    }
}

/// The value of a lowercase hexadecimal digit.
pub open spec fn hex_value(c: u8) -> Option<u8> {
    if 48 <= c <= 57 {
        Some((c - 48) as u8)
    } else if 97 <= c <= 102 {
        Some((c - 87) as u8)
    } else {
        None
    }
}

/// `bytes` as lowercase hexadecimal text, two digits to the byte.
pub open spec fn hex(bytes: Seq<u8>) -> Seq<u8>
    decreases bytes.len(),
{
    if bytes.len() == 0 {
        Seq::empty()
    } else {
        hex(bytes.drop_last()).push(hex_digit(bytes.last() / 16)).push(hex_digit(bytes.last() % 16))
    }
}

/// The bytes that lowercase hexadecimal text stands for, if it is such text.
pub open spec fn unhex(text: Seq<u8>) -> Option<Seq<u8>>
    decreases text.len(),
{
    if text.len() == 0 {
        Some(Seq::empty())
    } else if text.len() == 1 {
        None
    } else {
        let front = unhex(text.subrange(0, text.len() - 2));
        let high = hex_value(text[text.len() - 2]);
        let low = hex_value(text[text.len() - 1]);
        if front is Some && high is Some && low is Some {
            Some(front->0.push((high->0 * 16 + low->0) as u8))
        } else {
            None
        }
    }
}

pub proof fn lemma_hex_len(bytes: Seq<u8>)
    ensures
        hex(bytes).len() == 2 * bytes.len(),
    decreases bytes.len(),
{
    if bytes.len() > 0 {
        lemma_hex_len(bytes.drop_last());
    }
}

/// Hexadecimal text reads back as the bytes it was made from.
pub proof fn lemma_hex_round_trip(bytes: Seq<u8>)
    ensures
        unhex(hex(bytes)) == Some(bytes),
    decreases bytes.len(),
{
    if bytes.len() > 0 {
        let front = bytes.drop_last();
        let b = bytes.last();
        lemma_hex_round_trip(front);
        lemma_hex_len(front);
        let text = hex(bytes);
        assert(text.subrange(0, text.len() - 2) =~= hex(front));
        assert(hex_value(hex_digit(b / 16)) == Some(b / 16));
        assert(hex_value(hex_digit(b % 16)) == Some(b % 16));
        assert((b / 16) * 16 + b % 16 == b);
        assert(front.push(b) =~= bytes);
    }
}

/// Text that is not hexadecimal up to some even length is not hexadecimal.
pub proof fn lemma_unhex_fails_on(text: Seq<u8>, upto: int)
    requires
        0 <= upto <= text.len(),
        upto % 2 == 0,
        (text.len() - upto) % 2 == 0,
        unhex(text.subrange(0, upto)) is None,
    ensures
        unhex(text) is None,
    decreases text.len(),
{
    if upto < text.len() {
        let front = text.subrange(0, text.len() - 2);
        assert(front.subrange(0, upto) =~= text.subrange(0, upto));
        lemma_unhex_fails_on(front, upto);
    } else {
        assert(text.subrange(0, upto) =~= text);
    }
}

/// Text of odd length is not hexadecimal.
pub proof fn lemma_unhex_odd(text: Seq<u8>)
    requires
        text.len() % 2 == 1,
    ensures
        unhex(text) is None,
    decreases text.len(),
{
    if text.len() > 1 {
        lemma_unhex_odd(text.subrange(0, text.len() - 2));
    }
}

fn hex_digit_of(n: u8) -> (c: u8)
    requires
        n < 16,
    ensures
        c == hex_digit(n),
{
    if n < 10 {
        48 + n
    } else {
        87 + n
    }
}

fn hex_value_of(c: u8) -> (r: Option<u8>)
    ensures
        r == hex_value(c),
        r matches Some(v) ==> v < 16,
{
    if 48 <= c && c <= 57 {
        Some(c - 48)
    } else if 97 <= c && c <= 102 {
        Some(c - 87)
    } else {
        None
    }
}

/// `bytes` as lowercase hexadecimal text.
pub fn to_hex(bytes: &Vec<u8>) -> (text: Vec<u8>)
    ensures
        text@ == hex(bytes@),
{
    let mut text: Vec<u8> = Vec::new();
    let mut i: usize = 0;
    while i < bytes.len()
        invariant
            i <= bytes.len(),
            text@ == hex(bytes@.subrange(0, i as int)),
        decreases bytes.len() - i,
    {
        let b: u8 = bytes[i];
        proof {
            let next = bytes@.subrange(0, i + 1);
            assert(next.drop_last() =~= bytes@.subrange(0, i as int));
            assert(next.last() == b);
        }
        text.push(hex_digit_of(b / 16));
        text.push(hex_digit_of(b % 16));
        i = i + 1;
    }
    assert(bytes@.subrange(0, bytes.len() as int) =~= bytes@);
    text
}

/// The bytes that `text` stands for, if it is lowercase hexadecimal text.
pub fn from_hex(text: &Vec<u8>) -> (r: Option<Vec<u8>>)
    ensures
        match r {
            Some(bytes) => unhex(text@) == Some(bytes@),
            None => unhex(text@) is None,
        },
{
    if text.len() % 2 != 0 {
        proof {
            lemma_unhex_odd(text@);
        }
        return None;
    }
    let mut bytes: Vec<u8> = Vec::new();
    let mut i: usize = 0;
    while i < text.len()
        invariant
            i <= text.len(),
            i % 2 == 0,
            text.len() % 2 == 0,
            unhex(text@.subrange(0, i as int)) == Some(bytes@),
        decreases text.len() - i,
    {
        let high = hex_value_of(text[i]);
        let low = hex_value_of(text[i + 1]);
        proof {
            let next = text@.subrange(0, i + 2);
            assert(next.subrange(0, next.len() - 2) =~= text@.subrange(0, i as int));
            assert(next[next.len() - 2] == text@[i as int]);
            assert(next[next.len() - 1] == text@[i + 1]);
        }
        match (high, low) {
            (Some(h), Some(l)) => {
                bytes.push(h * 16 + l);
            },
            _ => {
                proof {
                    lemma_unhex_fails_on(text@, i + 2);
                }
                return None;
            },
        }
        i = i + 2;
    }
    assert(text@.subrange(0, text.len() as int) =~= text@);
    Some(bytes)
}

/// The byte strings that a vector of byte vectors holds.
pub open spec fn views_of(items: Seq<Vec<u8>>) -> Seq<Seq<u8>> {
    Seq::new(items.len(), |i: int| items[i]@)
}

/// A copy of `src`.
pub fn copy_bytes(src: &Vec<u8>) -> (out: Vec<u8>)
    ensures
        out@ == src@,
{
    vstd::slice::slice_to_vec(src.as_slice())
}

/// Appends `src` to `out`.
pub fn append_bytes(out: &mut Vec<u8>, src: &Vec<u8>)
    ensures
        final(out)@ == old(out)@ + src@,
{
    out.extend_from_slice(src.as_slice());
    assert(out@ =~= old(out)@ + src@);
}

/// Whether two byte strings are the same.
pub fn bytes_equal(a: &[u8], b: &[u8]) -> (r: bool)
    ensures
        r == (a@ == b@),
{
    if a.len() != b.len() {
        return false;
    }
    let mut i: usize = 0;
    while i < a.len()
        invariant
            i <= a.len(),
            a.len() == b.len(),
            a@.subrange(0, i as int) == b@.subrange(0, i as int),
        decreases a.len() - i,
    {
        if a[i] != b[i] {
            return false;
        }
        assert(a@.subrange(0, i + 1) =~= a@.subrange(0, i as int).push(a@[i as int]));
        assert(b@.subrange(0, i + 1) =~= b@.subrange(0, i as int).push(b@[i as int]));
        i = i + 1;
    }
    assert(a@ =~= a@.subrange(0, a.len() as int));
    assert(b@ =~= b@.subrange(0, b.len() as int));
    true
}

/// Whether `s` begins with `prefix`.
pub fn has_prefix(s: &[u8], prefix: &[u8]) -> (r: bool)
    ensures
        r == starts_with(s@, prefix@),
{
    if s.len() < prefix.len() {
        return false;
    }
    let mut i: usize = 0;
    while i < prefix.len()
        invariant
            i <= prefix.len(),
            prefix.len() <= s.len(),
            s@.subrange(0, i as int) == prefix@.subrange(0, i as int),
        decreases prefix.len() - i,
    {
        if s[i] != prefix[i] {
            assert(s@.subrange(0, prefix.len() as int)[i as int] != prefix@[i as int]);
            return false;
        }
        assert(s@.subrange(0, i + 1) =~= s@.subrange(0, i as int).push(s@[i as int]));
        assert(prefix@.subrange(0, i + 1) =~= prefix@.subrange(0, i as int).push(prefix@[i as int]));
        i = i + 1;
    }
    assert(prefix@ =~= prefix@.subrange(0, prefix.len() as int));
    true
}

/// `s` begins with `prefix`.
pub open spec fn starts_with(s: Seq<u8>, prefix: Seq<u8>) -> bool {
    prefix.len() <= s.len() && s.subrange(0, prefix.len() as int) == prefix
}

} // verus!
