//! Attributes on a tag: raw bytes of the shape ` key="value" ...`. The
//! engine only ever reads one attribute, the record identifier `id`, and
//! writes one when it serializes a record.

use vstd::prelude::*;
use crate::bytes::{is_ws, is_name_byte, dec_digits, parse_u16, dec_to_u16, u16_to_dec,
    lemma_parse_u16_of_dec, lemma_dec_digits_are_digits, is_digit};
use crate::doc::{find_from, find_non_ws, name_len, lemma_find_from, lemma_find_non_ws, name_bytes_range,
    lemma_find_non_ws_is, lemma_find_from_hit, lemma_name_len_is, scan_name, find_byte, copy_range, attrs_ok};
use crate::names::key_id;

verus! {

/// `"`
pub open spec fn quote_b() -> u8 {
    34
}

/// `=`
pub open spec fn eq_b() -> u8 {
    61
}

/// The value of the first attribute named `key` at or after `i`, read from
/// raw attribute bytes of the shape ` key="value"`, repeated. Nothing comes
/// of malformed attribute bytes.
pub open spec fn attr_lookup(a: Seq<u8>, i: int, key: Seq<u8>) -> Option<Seq<u8>>
    decreases a.len() - i,
    when 0 <= i
{
    let p = find_non_ws(a, i);
    if p >= a.len() {
        None
    } else {
        let nl = name_len(a.subrange(p, a.len() as int));
        let name = a.subrange(p, p + nl);
        if nl == 0 || p + nl + 1 >= a.len() {
            None
        } else if a[p + nl] != eq_b() || a[p + nl + 1] != quote_b() {
            None
        } else {
            let q = find_from(a, p + nl + 2, quote_b());
            if q >= a.len() {
                None
            } else {
                let value = a.subrange(p + nl + 2, q);
                if name == key {
                    Some(value)
                } else if i < q + 1 {
                    attr_lookup(a, q + 1, key)
                } else {
                    None
                }
            }
        }
    }
}

/// The record identifier carried by attribute bytes: the `id` attribute
/// read as an unsigned 16-bit decimal.
pub open spec fn id_of_attrs(a: Seq<u8>) -> Option<u16> {
    match attr_lookup(a, 0, key_id()) {
        None => None,
        Some(v) => parse_u16(v),
    }
}

/// Reads the value of the first attribute named `key`.
pub fn attr_lookup_exec(a: &Vec<u8>, key: &Vec<u8>) -> (r: Option<Vec<u8>>)
    ensures
        match r {
            Some(v) => attr_lookup(a@, 0, key@) == Some(v@),
            None => attr_lookup(a@, 0, key@) is None,
        },
{
    let mut i: usize = 0;
    loop
        invariant
            0 <= i <= a@.len(),
            attr_lookup(a@, 0, key@) == attr_lookup(a@, i as int, key@),
        decreases a@.len() - i,
    {
        let ghost i0 = i as int;
        let mut p = i;
        while p < a.len() && crate::bytes::ws_byte(a[p])
            invariant
                i <= p <= a@.len(),
                forall|j: int| i <= j < p ==> is_ws(a@[j]),
            decreases a@.len() - p,
        {
            p = p + 1;
        }
        proof {
            lemma_find_non_ws_is(a@, i0, p as int);
        }
        if p >= a.len() {
            return None;
        }
        let ne = scan_name(a, p, a.len());
        let ghost nl = name_len(a@.subrange(p as int, a@.len() as int));
        proof {
            assert(a@.subrange(p as int, a@.len() as int) =~= a@.skip(p as int));
            assert(ne - p == nl);
        }
        if ne == p || a.len() - ne <= 1 {
            return None;
        }
        if a[ne] != 61 || a[ne + 1] != 34 {
            return None;
        }
        let q = find_byte(a, ne + 2, 34);
        if q >= a.len() {
            return None;
        }
        let name = copy_range(a, p, ne);
        proof {
            assert(name@ =~= a@.subrange(p as int, p as int + nl));
        }
        if crate::bytes::bytes_eq(&name, key) {
            let value = copy_range(a, ne + 2, q);
            return Some(value);
        }
        proof {
            assert(attr_lookup(a@, i0, key@) == attr_lookup(a@, q as int + 1, key@));
        }
        i = q + 1;
    }
}

/// Reads the record identifier off attribute bytes, as the original decoder
/// did off a tag's `id` attribute.
pub fn id_of_attrs_exec(a: &Vec<u8>) -> (r: Option<u16>)
    ensures
        r == id_of_attrs(a@),
{
    match attr_lookup_exec(a, &crate::names::key_id_bytes()) {
        None => None,
        Some(v) => dec_to_u16(&v),
    }
}

/// The attribute bytes a record with identifier `id` is written with:
/// ` id="N"`.
pub open spec fn ser_attrs(id: u16) -> Seq<u8> {
    seq![32u8] + key_id() + seq![eq_b(), quote_b()] + dec_digits(id as nat) + seq![quote_b()]
}

/// Renders ` id="N"`.
pub fn ser_attrs_exec(id: u16) -> (r: Vec<u8>)
    ensures
        r@ == ser_attrs(id),
{
    let mut out: Vec<u8> = Vec::new();
    out.push(32);
    out.push(105);
    out.push(100);
    out.push(61);
    out.push(34);
    let digits = u16_to_dec(id);
    crate::values::append_bytes(&mut out, &digits);
    out.push(34);
    assert(out@ =~= ser_attrs(id));
    out
}

/// The written attributes are attribute bytes a tag may carry.
pub proof fn lemma_ser_attrs_ok(id: u16)
    ensures
        attrs_ok(ser_attrs(id)),
        ser_attrs(id).len() > 0,
        ser_attrs(id).last() != crate::doc::slash_b(),
{
    lemma_dec_digits_are_digits(id as nat);
    let a = ser_attrs(id);
    assert forall|j: int| 0 <= j < a.len() implies a[j] != crate::doc::lt_b() && a[j]
        != crate::doc::gt_b() by {
        if 5 <= j < 5 + dec_digits(id as nat).len() {
            assert(is_digit(a[j]));
        }
    }
}

/// Reading the identifier back off the written attributes gives it back.
pub proof fn lemma_id_roundtrip(id: u16)
    ensures
        id_of_attrs(ser_attrs(id)) == Some(id),
{
    let a = ser_attrs(id);
    let d = dec_digits(id as nat);
    lemma_dec_digits_are_digits(id as nat);
    lemma_find_non_ws_is(a, 0, 1);
    assert(a.subrange(1, a.len() as int).len() == a.len() - 1);
    assert forall|j: int| 0 <= j < 2 implies is_name_byte(#[trigger] a.subrange(1, a.len() as int)[j]) by {
        assert(a.subrange(1, a.len() as int)[j] == a[1 + j]);
    }
    assert(a[3] == eq_b());
    assert(!is_name_byte(a.subrange(1, a.len() as int)[2]));
    lemma_name_len_is(a.subrange(1, a.len() as int), 2);
    assert(name_len(a.subrange(1, a.len() as int)) == 2);
    assert(a.subrange(1, 3) =~= key_id());
    assert(a[4] == quote_b());
    assert forall|j: int| 5 <= j < 5 + d.len() implies a[j] != quote_b() by {
        assert(a[j] == d[j - 5]);
        assert(is_digit(d[j - 5]));
    }
    assert(a[5 + d.len() as int] == quote_b());
    lemma_find_from_hit(a, 5, quote_b(), 5 + d.len() as int);
    assert(a.subrange(5, 5 + d.len() as int) =~= d);
    assert(attr_lookup(a, 0, key_id()) == Some(d));
    lemma_parse_u16_of_dec(id);
}

} // verus!
