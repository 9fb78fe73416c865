//! Byte-level helpers shared by the document engine: character classes,
//! ASCII lowercasing, byte-sequence equality, and unsigned decimal numerals.

use vstd::prelude::*;

verus! {

/// Whitespace as the document format knows it: space, tab, line feed,
/// carriage return.
pub open spec fn is_ws(b: u8) -> bool {
    b == 32 || b == 9 || b == 10 || b == 13
}

pub fn ws_byte(b: u8) -> (r: bool)
    ensures
        r == is_ws(b),
{
    b == 32 || b == 9 || b == 10 || b == 13
}

pub open spec fn is_digit(b: u8) -> bool {
    48 <= b && b <= 57
}

pub fn digit_byte(b: u8) -> (r: bool)
    ensures
        r == is_digit(b),
{
    48 <= b && b <= 57
}

/// Bytes allowed in a tag name: ASCII letters, digits, `_ - . :`.
pub open spec fn is_name_byte(b: u8) -> bool {
    (65 <= b && b <= 90) || (97 <= b && b <= 122) || is_digit(b)
        || b == 95 || b == 45 || b == 46 || b == 58
}

pub fn name_byte(b: u8) -> (r: bool)
    ensures
        r == is_name_byte(b),
{
    (65 <= b && b <= 90) || (97 <= b && b <= 122) || digit_byte(b)
        || b == 95 || b == 45 || b == 46 || b == 58
}

/// ASCII lowercase of one byte.
pub open spec fn to_lower_byte(b: u8) -> u8 {
    if 65 <= b && b <= 90 { (b + 32) as u8 } else { b }
}

/// ASCII lowercase of a byte sequence.
pub open spec fn lower_bytes(s: Seq<u8>) -> Seq<u8> {
    s.map_values(|b: u8| to_lower_byte(b))
}

pub fn lower(v: &Vec<u8>) -> (r: Vec<u8>)
    ensures
        r@ == lower_bytes(v@),
{
    let mut r: Vec<u8> = Vec::new();
    let mut i: usize = 0;
    while i < v.len()
        invariant
            i <= v.len(),
            r@ == lower_bytes(v@.subrange(0, i as int)),
        decreases v.len() - i,
    {
        let b = v[i];
        if 65 <= b && b <= 90 {
            r.push(b + 32);
        } else {
            r.push(b);
        }
        i = i + 1;
        assert(v@.subrange(0, i as int).drop_last() =~= v@.subrange(0, i as int - 1));
        assert(r@ =~= lower_bytes(v@.subrange(0, i as int)));
    }
    assert(v@.subrange(0, v@.len() as int) =~= v@);
    r
}

/// Byte-sequence equality, decided in one forward scan.
pub fn bytes_eq(a: &Vec<u8>, b: &Vec<u8>) -> (r: bool)
    ensures
        r == (a@ == b@),
{
    if a.len() != b.len() {
        assert(a@ != b@) by {
            assert(a@.len() != b@.len());
        }
        return false;
    }
    let mut i: usize = 0;
    while i < a.len()
        invariant
            i <= a.len(),
            a@.len() == b@.len(),
            forall|j: int| 0 <= j < i ==> a@[j] == b@[j],
        decreases a.len() - i,
    {
        if a[i] != b[i] {
            assert(a@ != b@);
            return false;
        }
        i = i + 1;
    }
    assert(a@ =~= b@);
    true
}

/// All bytes of `s` are decimal digits.
pub open spec fn all_digits(s: Seq<u8>) -> bool {
    forall|i: int| 0 <= i < s.len() ==> is_digit(#[trigger] s[i])
}

/// The number a digit string denotes (most significant digit first).
pub open spec fn dec_value(s: Seq<u8>) -> nat
    decreases s.len(),
{
    if s.len() == 0 {
        0
    } else {
        dec_value(s.drop_last()) * 10 + (s.last() - 48) as nat
    }
}

/// What `str::parse` gives for an unsigned 16-bit decimal: the value, if the
/// text is one or more digits and fits.
pub open spec fn parse_u16(s: Seq<u8>) -> Option<u16> {
    if s.len() > 0 && all_digits(s) && dec_value(s) <= u16::MAX {
        Some(dec_value(s) as u16)
    } else {
        None
    }
}

/// What `str::parse` gives for an unsigned 32-bit decimal.
pub open spec fn parse_u32(s: Seq<u8>) -> Option<u32> {
    if s.len() > 0 && all_digits(s) && dec_value(s) <= u32::MAX {
        Some(dec_value(s) as u32)
    } else {
        None
    }
}

/// Appending one digit multiplies the value by ten and adds the digit.
proof fn lemma_dec_value_push(s: Seq<u8>, d: u8)
    ensures
        dec_value(s.push(d)) == dec_value(s) * 10 + (d - 48) as nat,
{
    assert(s.push(d).drop_last() =~= s);
    assert(s.push(d).last() == d);
}

pub fn dec_to_u16(v: &Vec<u8>) -> (r: Option<u16>)
    ensures
        r == parse_u16(v@),
{
    if v.len() == 0 {
        return None;
    }
    let mut acc: u32 = 0;
    let mut i: usize = 0;
    while i < v.len()
        invariant
            0 < v@.len(),
            i <= v.len(),
            acc == dec_value(v@.subrange(0, i as int)),
            acc <= u16::MAX,
            forall|j: int| 0 <= j < i ==> is_digit(#[trigger] v@[j]),
        decreases v.len() - i,
    {
        let b = v[i];
        if !digit_byte(b) {
            assert(!all_digits(v@));
            return None;
        }
        let next: u32 = acc * 10 + (b - 48) as u32;
        proof {
            lemma_dec_value_push(v@.subrange(0, i as int), b);
            assert(v@.subrange(0, i as int).push(b) =~= v@.subrange(0, i as int + 1));
        }
        if next > u16::MAX as u32 {
            proof {
                lemma_dec_value_le(v@.subrange(0, i as int + 1), v@);
            }
            return None;
        }
        acc = next;
        i = i + 1;
    }
    assert(v@.subrange(0, v@.len() as int) =~= v@);
    Some(acc as u16)
}

pub fn dec_to_u32(v: &Vec<u8>) -> (r: Option<u32>)
    ensures
        r == parse_u32(v@),
{
    if v.len() == 0 {
        return None;
    }
    let mut acc: u64 = 0;
    let mut i: usize = 0;
    while i < v.len()
        invariant
            0 < v@.len(),
            i <= v.len(),
            acc == dec_value(v@.subrange(0, i as int)),
            acc <= u32::MAX,
            forall|j: int| 0 <= j < i ==> is_digit(#[trigger] v@[j]),
        decreases v.len() - i,
    {
        let b = v[i];
        if !digit_byte(b) {
            assert(!all_digits(v@));
            return None;
        }
        let next: u64 = acc * 10 + (b - 48) as u64;
        proof {
            lemma_dec_value_push(v@.subrange(0, i as int), b);
            assert(v@.subrange(0, i as int).push(b) =~= v@.subrange(0, i as int + 1));
        }
        if next > u32::MAX as u64 {
            proof {
                lemma_dec_value_le(v@.subrange(0, i as int + 1), v@);
            }
            return None;
        }
        acc = next;
        i = i + 1;
    }
    assert(v@.subrange(0, v@.len() as int) =~= v@);
    Some(acc as u32)
}

/// A digit string is worth at least as much as any of its prefixes.
proof fn lemma_dec_value_le(p: Seq<u8>, s: Seq<u8>)
    requires
        p =~= s.subrange(0, p.len() as int),
        p.len() <= s.len(),
    ensures
        dec_value(p) <= dec_value(s),
    decreases s.len() - p.len(),
{
    if p.len() < s.len() {
        let q = s.subrange(0, p.len() as int + 1);
        assert(q.drop_last() =~= p);
        assert(dec_value(q) == dec_value(p) * 10 + (q.last() - 48) as nat);
        assert(dec_value(p) <= dec_value(p) * 10) by (nonlinear_arith);
        assert(q =~= s.subrange(0, q.len() as int));
        lemma_dec_value_le(q, s);
    } else {
        assert(p =~= s);
    }
}

/// The canonical decimal numeral for `n`: no leading zeros, at least one digit.
pub open spec fn dec_digits(n: nat) -> Seq<u8>
    decreases n,
{
    if n < 10 {
        seq![(48 + n) as u8]
    } else {
        dec_digits(n / 10).push((48 + n % 10) as u8)
    }
}

fn push_dec(n: u16, out: &mut Vec<u8>)
    ensures
        final(out)@ == old(out)@ + dec_digits(n as nat),
    decreases n,
{
    if n < 10 {
        out.push(48 + n as u8);
        assert(final(out)@ =~= old(out)@ + dec_digits(n as nat));
    } else {
        assert(n / 10 < n && n / 10 >= 1) by (nonlinear_arith)
            requires n >= 10;
        push_dec(n / 10, out);
        out.push(48 + (n % 10) as u8);
        assert(final(out)@ =~= old(out)@ + dec_digits(n as nat));
    }
}

/// Renders `n` as decimal digits.
pub fn u16_to_dec(n: u16) -> (r: Vec<u8>)
    ensures
        r@ == dec_digits(n as nat),
{
    let mut out: Vec<u8> = Vec::new();
    push_dec(n, &mut out);
    assert(out@ =~= dec_digits(n as nat));
    out
}

/// The canonical numeral is made of digits.
pub proof fn lemma_dec_digits_are_digits(n: nat)
    ensures
        dec_digits(n).len() > 0,
        all_digits(dec_digits(n)),
    decreases n,
{
    if n < 10 {
    } else {
        lemma_dec_digits_are_digits(n / 10);
        assert(n % 10 < 10) by (nonlinear_arith);
        assert forall|i: int| 0 <= i < dec_digits(n).len() implies is_digit(#[trigger] dec_digits(n)[i]) by {
            if i < dec_digits(n / 10).len() {
                assert(dec_digits(n)[i] == dec_digits(n / 10)[i]);
            }
        }
    }
}

/// Reading the canonical numeral back gives the number.
pub proof fn lemma_dec_roundtrip(n: nat)
    ensures
        dec_value(dec_digits(n)) == n,
    decreases n,
{
    if n < 10 {
        assert(dec_digits(n).drop_last() =~= Seq::<u8>::empty());
        assert(dec_digits(n).last() == (48 + n) as u8);
        assert(((48 + n) as u8) as nat == 48 + n);
        assert(dec_value(Seq::<u8>::empty()) == 0);
        assert(dec_value(dec_digits(n)) == 0 * 10 + ((48 + n) as u8 - 48) as nat);
    } else {
        lemma_dec_roundtrip(n / 10);
        assert(n % 10 < 10 && n / 10 * 10 + n % 10 == n) by (nonlinear_arith);
        let d = (48 + n % 10) as u8;
        lemma_dec_value_push(dec_digits(n / 10), d);
        assert((d - 48) as nat == n % 10);
        assert(dec_value(dec_digits(n)) == (n / 10) * 10 + n % 10);
    }
}

/// Reading a `u16`'s numeral back succeeds with the same value.
pub proof fn lemma_parse_u16_of_dec(n: u16)
    ensures
        parse_u16(dec_digits(n as nat)) == Some(n),
{
    lemma_dec_digits_are_digits(n as nat);
    lemma_dec_roundtrip(n as nat);
}

} // verus!

