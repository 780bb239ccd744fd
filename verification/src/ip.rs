//! IPv4 dotted-quad addresses: conversion between text and the 32-bit
//! big-endian integer encoding, with round-trip proofs.

use vstd::prelude::*;
use vstd::string::StringExecFns;
use crate::num::{dec_str, dec_val, is_digits, is_canonical_dec};
use crate::num::{
    lemma_dec_str_shape, lemma_dec_val_of_dec_str, lemma_dec_str_of_dec_val, u64_to_dec, parse_u32,
};
use crate::text::{
    split_on, split_char, str_views, lemma_split_on_prepend, lemma_split_on_absent,
    lemma_split_on_props, join_with,
};

verus! {

/// A numeral for one address byte.
pub open spec fn is_octet(p: Seq<char>) -> bool {
    is_digits(p) && dec_val(p) <= 255
}

/// The value of a dotted quad: exactly four dot-separated numerals, each
/// at most 255, combined in big-endian octet order. Anything else is
/// rejected.
pub open spec fn spec_parse_ipv4(s: Seq<char>) -> Option<u32> {
    let ps = split_on(s, '.');
    if ps.len() == 4 && is_octet(ps[0]) && is_octet(ps[1]) && is_octet(ps[2]) && is_octet(ps[3]) {
        Some(
            ((dec_val(ps[0]) * 0x100_0000 + dec_val(ps[1]) * 0x1_0000 + dec_val(ps[2]) * 0x100
                + dec_val(ps[3])) as u32),
        )
    } else {
        None
    }
}

/// The canonical dotted-quad text of a 32-bit address value.
pub open spec fn ipv4_str(u: nat) -> Seq<char> {
    dec_str(u / 0x100_0000 % 256) + seq!['.'] + dec_str(u / 0x1_0000 % 256) + seq!['.'] + dec_str(
        u / 0x100 % 256,
    ) + seq!['.'] + dec_str(u % 256)
}

/// Parse a dotted-quad address into its 32-bit value.
pub fn ipv4_to_u32(ip: &str) -> (r: Option<u32>)
    ensures
        r == spec_parse_ipv4(ip@),
{
    let parts = split_char(ip, '.');
    proof {
        assert(parts@.len() == split_on(ip@, '.').len()) by {
            assert(str_views(parts@).len() == parts@.len());
        }
    }
    if parts.len() != 4 {
        return None;
    }
    proof {
        assert forall|k: int| 0 <= k < 4 implies parts@[k]@ == split_on(ip@, '.')[k] by {
            assert(str_views(parts@)[k] == parts@[k]@);
        }
    }
    let v0 = match parse_u32(parts[0].as_str()) {
        Some(v) => v,
        None => { return None; },
    };
    let v1 = match parse_u32(parts[1].as_str()) {
        Some(v) => v,
        None => { return None; },
    };
    let v2 = match parse_u32(parts[2].as_str()) {
        Some(v) => v,
        None => { return None; },
    };
    let v3 = match parse_u32(parts[3].as_str()) {
        Some(v) => v,
        None => { return None; },
    };
    if v0 > 255 || v1 > 255 || v2 > 255 || v3 > 255 {
        return None;
    }
    Some(v0 * 0x100_0000 + v1 * 0x1_0000 + v2 * 0x100 + v3)
}

/// Format a 32-bit address value as its canonical dotted-quad text.
pub fn u32_to_ipv4(u: u32) -> (r: String)
    ensures
        r@ == ipv4_str(u as nat),
{
    let mut r = u64_to_dec(((u >> 24) & 0xFF) as u64);
    proof {
        reveal_strlit(".");
        assert((".")@ =~= seq!['.']);
        assert((u >> 24) & 0xFF == u / 0x100_0000 % 256) by (bit_vector);
        assert((u >> 16) & 0xFF == u / 0x1_0000 % 256) by (bit_vector);
        assert((u >> 8) & 0xFF == u / 0x100 % 256) by (bit_vector);
        assert(u & 0xFF == u % 256) by (bit_vector);
    }
    r.append(".");
    let p1 = u64_to_dec(((u >> 16) & 0xFF) as u64);
    r.append(p1.as_str());
    r.append(".");
    let p2 = u64_to_dec(((u >> 8) & 0xFF) as u64);
    r.append(p2.as_str());
    r.append(".");
    let p3 = u64_to_dec((u & 0xFF) as u64);
    r.append(p3.as_str());
    proof {
        assert(r@ =~= ipv4_str(u as nat));
    }
    r
}

/// Splitting the canonical text of an address on dots yields exactly its
/// four octet numerals.
proof fn lemma_split_ipv4_str(u: nat)
    requires
        u < 0x1_0000_0000,
    ensures
        split_on(ipv4_str(u), '.') == seq![
            dec_str(u / 0x100_0000 % 256),
            dec_str(u / 0x1_0000 % 256),
            dec_str(u / 0x100 % 256),
            dec_str(u % 256),
        ],
{
    let p0 = dec_str(u / 0x100_0000 % 256);
    let p1 = dec_str(u / 0x1_0000 % 256);
    let p2 = dec_str(u / 0x100 % 256);
    let p3 = dec_str(u % 256);
    lemma_dec_str_shape(u / 0x100_0000 % 256);
    lemma_dec_str_shape(u / 0x1_0000 % 256);
    lemma_dec_str_shape(u / 0x100 % 256);
    lemma_dec_str_shape(u % 256);
    let t1 = p1 + seq!['.'] + p2 + seq!['.'] + p3;
    let t2 = p2 + seq!['.'] + p3;
    assert(ipv4_str(u) =~= p0 + seq!['.'] + t1);
    lemma_split_on_prepend(p0, t1, '.');
    assert(t1 =~= p1 + seq!['.'] + t2);
    lemma_split_on_prepend(p1, t2, '.');
    assert(t2 =~= p2 + seq!['.'] + p3);
    lemma_split_on_prepend(p2, p3, '.');
    lemma_split_on_absent(p3, '.');
    assert(split_on(ipv4_str(u), '.') =~= seq![p0, p1, p2, p3]);
}

/// Encoding an address value as text and parsing it back returns the
/// same value.
pub proof fn lemma_ipv4_round_trip_value(u: u32)
    ensures
        spec_parse_ipv4(ipv4_str(u as nat)) == Some(u),
{
    let n = u as nat;
    lemma_split_ipv4_str(n);
    lemma_dec_val_of_dec_str(n / 0x100_0000 % 256);
    lemma_dec_val_of_dec_str(n / 0x1_0000 % 256);
    lemma_dec_val_of_dec_str(n / 0x100 % 256);
    lemma_dec_val_of_dec_str(n % 256);
    lemma_dec_str_shape(n / 0x100_0000 % 256);
    lemma_dec_str_shape(n / 0x1_0000 % 256);
    lemma_dec_str_shape(n / 0x100 % 256);
    lemma_dec_str_shape(n % 256);
    assert((u / 0x100_0000 % 256) * 0x100_0000 + (u / 0x1_0000 % 256) * 0x1_0000 + (u / 0x100 % 256)
        * 0x100 + u % 256 == u) by (bit_vector);
}

/// A dotted quad whose four numerals carry no leading zeros.
pub open spec fn is_canonical_quad(s: Seq<char>) -> bool {
    let ps = split_on(s, '.');
    ps.len() == 4 && forall|i: int| 0 <= i < 4 ==> is_canonical_dec(#[trigger] ps[i]) && dec_val(
        ps[i],
    ) <= 255
}

/// Parsing a canonical dotted quad and encoding the value again returns
/// the original text. (Numerals with leading zeros parse to the same
/// value and are therefore not recovered verbatim.)
pub proof fn lemma_ipv4_round_trip_text(s: Seq<char>)
    requires
        is_canonical_quad(s),
    ensures
        spec_parse_ipv4(s) is Some,
        ipv4_str(spec_parse_ipv4(s)->Some_0 as nat) == s,
{
    let ps = split_on(s, '.');
    let v0 = dec_val(ps[0]);
    let v1 = dec_val(ps[1]);
    let v2 = dec_val(ps[2]);
    let v3 = dec_val(ps[3]);
    assert(is_octet(ps[0]) && is_octet(ps[1]) && is_octet(ps[2]) && is_octet(ps[3]));
    let n = v0 * 0x100_0000 + v1 * 0x1_0000 + v2 * 0x100 + v3;
    let u = spec_parse_ipv4(s)->Some_0;
    assert(u == n);
    assert(u as nat / 0x100_0000 % 256 == v0 && u as nat / 0x1_0000 % 256 == v1 && u as nat / 0x100
        % 256 == v2 && u as nat % 256 == v3) by (nonlinear_arith)
        requires
            u == v0 * 0x100_0000 + v1 * 0x1_0000 + v2 * 0x100 + v3,
            v0 <= 255 && v1 <= 255 && v2 <= 255 && v3 <= 255,
    ;
    lemma_dec_str_of_dec_val(ps[0]);
    lemma_dec_str_of_dec_val(ps[1]);
    lemma_dec_str_of_dec_val(ps[2]);
    lemma_dec_str_of_dec_val(ps[3]);
    lemma_split_on_props(s, '.');
    assert(join_with(ps, '.') == s);
    let q1 = ps.drop_first();
    let q2 = q1.drop_first();
    let q3 = q2.drop_first();
    assert(q3.len() == 1 && q3[0] == ps[3]);
    assert(join_with(q3, '.') == ps[3]);
    assert(q2.len() == 2 && q2[0] == ps[2]);
    assert(join_with(q2, '.') == ps[2] + seq!['.'] + join_with(q3, '.'));
    assert(q1.len() == 3 && q1[0] == ps[1]);
    assert(join_with(q1, '.') == ps[1] + seq!['.'] + join_with(q2, '.'));
    assert(join_with(ps, '.') == ps[0] + seq!['.'] + join_with(q1, '.'));
    assert(ipv4_str(u as nat) =~= s);
}

} // verus!
