//! The round-trip law of the JSON form.
//!
//! `CacheSystem::serialize_json` returns exactly `json_doc` of the entries,
//! and `CacheSystem::deserialize` returns only stores whose `json_doc` is
//! the input. The lemmas here close the remaining gap: `json_doc` is
//! injective, so a store decoded from another store's encoding holds the
//! same keys, values and timestamps, entry for entry.

use vstd::prelude::*;

use crate::codec::accessed_field;
use crate::codec::creation_field;
use crate::codec::dec_digits;
use crate::codec::esc_byte;
use crate::codec::esc_bytes;
use crate::codec::is_digit;
use crate::codec::lemma_dec_digits_are_digits;
use crate::codec::json_doc;
use crate::codec::json_entries;
use crate::codec::json_entry;
use crate::codec::value_field;
use crate::types::CacheEntry;
use crate::types::CacheSystem;

verus! {

/// Equal prefixes of equal length split an equal concatenation.
proof fn lemma_cancel(a: Seq<u8>, b: Seq<u8>, c: Seq<u8>, d: Seq<u8>)
    requires
        a + b == c + d,
        a.len() == c.len(),
    ensures
        a == c,
        b == d,
{
    assert forall|i: int| 0 <= i < a.len() implies a[i] == c[i] by {
        assert((a + b)[i] == a[i]);
        assert((c + d)[i] == c[i]);
    }
    assert(a =~= c);
    assert((a + b).len() == a.len() + b.len());
    assert((c + d).len() == c.len() + d.len());
    assert(b.len() == d.len());
    assert forall|i: int| 0 <= i < b.len() implies b[i] == d[i] by {
        assert((a + b)[a.len() + i] == b[i]);
        assert((c + d)[c.len() + i] == d[i]);
    }
    assert(b =~= d);
}

/// A digit run closed by a non-digit is read off an equal concatenation
/// in only one way.
proof fn lemma_digits_split(d1: Seq<u8>, r1: Seq<u8>, d2: Seq<u8>, r2: Seq<u8>)
    requires
        d1 + r1 == d2 + r2,
        d1.len() >= 1,
        d2.len() >= 1,
        forall|i: int| 0 <= i < d1.len() ==> is_digit(#[trigger] d1[i]),
        forall|i: int| 0 <= i < d2.len() ==> is_digit(#[trigger] d2[i]),
        r1.len() >= 1,
        r2.len() >= 1,
        !is_digit(r1[0]),
        !is_digit(r2[0]),
    ensures
        d1 == d2,
        r1 == r2,
{
    if d1.len() < d2.len() {
        assert((d1 + r1)[d1.len() as int] == r1[0]);
        assert((d2 + r2)[d1.len() as int] == d2[d1.len() as int]);
        assert(is_digit(d2[d1.len() as int]));
        assert(false);
    }
    if d2.len() < d1.len() {
        assert((d2 + r2)[d2.len() as int] == r2[0]);
        assert((d1 + r1)[d2.len() as int] == d1[d2.len() as int]);
        assert(is_digit(d1[d2.len() as int]));
        assert(false);
    }
    lemma_cancel(d1, r1, d2, r2);
}

/// Distinct numbers have distinct decimal renderings.
proof fn lemma_dec_digits_injective(n1: nat, n2: nat)
    requires
        dec_digits(n1) == dec_digits(n2),
    ensures
        n1 == n2,
    decreases n1,
{
    if n1 < 10 && n2 < 10 {
        assert(dec_digits(n1)[0] == (0x30 + n1) as u8);
        assert(dec_digits(n2)[0] == (0x30 + n2) as u8);
    } else if n1 >= 10 && n2 >= 10 {
        assert(dec_digits(n1).drop_last() =~= dec_digits(n1 / 10));
        assert(dec_digits(n2).drop_last() =~= dec_digits(n2 / 10));
        lemma_dec_digits_injective(n1 / 10, n2 / 10);
        assert(dec_digits(n1).last() == (0x30 + n1 % 10) as u8);
        assert(dec_digits(n2).last() == (0x30 + n2 % 10) as u8);
        assert(n1 % 10 == n2 % 10);
        assert(n1 == 10 * (n1 / 10) + n1 % 10);
        assert(n2 == 10 * (n2 / 10) + n2 % 10);
    } else if n1 < 10 {
        lemma_dec_digits_are_digits(n2 / 10);
        assert(dec_digits(n2).len() >= 2);
        assert(dec_digits(n1).len() == 1);
        assert(false);
    } else {
        lemma_dec_digits_are_digits(n1 / 10);
        assert(dec_digits(n1).len() >= 2);
        assert(dec_digits(n2).len() == 1);
        assert(false);
    }
}

/// The escaped form of a byte string, read from the front.
pub(crate) proof fn lemma_esc_bytes_first(s: Seq<u8>)
    requires
        s.len() >= 1,
    ensures
        esc_bytes(s) == esc_byte(s[0]) + esc_bytes(s.drop_first()),
    decreases s.len(),
{
    if s.len() == 1 {
        assert(s.drop_last() =~= Seq::<u8>::empty());
        assert(s.drop_first() =~= Seq::<u8>::empty());
        assert(esc_bytes(s) =~= esc_byte(s[0]) + esc_bytes(s.drop_first()));
    } else {
        lemma_esc_bytes_first(s.drop_last());
        assert(s.drop_last()[0] == s[0]);
        assert(s.drop_last().drop_first() =~= s.drop_first().drop_last());
        assert(s.drop_first().last() == s.last());
        assert(s.drop_first().len() >= 1);
        assert(esc_bytes(s) =~= esc_byte(s[0]) + esc_bytes(s.drop_first()));
    }
}

/// The shapes the escaped form of one byte can take.
pub(crate) proof fn lemma_esc_byte_shape(b: u8)
    ensures
        esc_byte(b).len() == 1 || esc_byte(b).len() == 2 || esc_byte(b).len() == 6,
        esc_byte(b)[0] != 0x22,
        esc_byte(b)[0] == 0x5c <==> (b == 0x22 || b == 0x5c || b < 0x20),
        esc_byte(b).len() == 1 ==> esc_byte(b)[0] == b && b != 0x22 && b != 0x5c,
        esc_byte(b).len() == 2 ==> esc_byte(b)[1] == b && (b == 0x22 || b == 0x5c),
        esc_byte(b).len() == 6 ==> b < 0x20 && esc_byte(b)[1] == 0x75 && esc_byte(b)[2] == 0x30
            && esc_byte(b)[3] == 0x30 && esc_byte(b)[4] == crate::codec::hex_digit(b / 16)
            && esc_byte(b)[5] == crate::codec::hex_digit(b % 16),
{
}

/// Escaping distributes over concatenation.
pub(crate) proof fn lemma_esc_bytes_concat(s1: Seq<u8>, s2: Seq<u8>)
    ensures
        esc_bytes(s1 + s2) == esc_bytes(s1) + esc_bytes(s2),
    decreases s2.len(),
{
    if s2.len() == 0 {
        assert(s1 + s2 =~= s1);
        assert(esc_bytes(s2) =~= Seq::<u8>::empty());
        assert(esc_bytes(s1 + s2) =~= esc_bytes(s1) + esc_bytes(s2));
    } else {
        assert((s1 + s2).drop_last() =~= s1 + s2.drop_last());
        assert((s1 + s2).last() == s2.last());
        lemma_esc_bytes_concat(s1, s2.drop_last());
        assert(esc_bytes(s1 + s2) =~= esc_bytes(s1) + esc_bytes(s2));
    }
}

/// Reading an escaped string: after `j` value bytes are decoded, the input
/// from the matching position on is the escape of the remaining bytes, the
/// closing quote, and the rest.
pub(crate) proof fn lemma_string_align(data: Seq<u8>, pos: int, v: Seq<u8>, rest: Seq<u8>, j: int)
    requires
        crate::codec::starts_with_string(data, pos, v, rest),
        0 <= j <= v.len(),
    ensures
        pos + esc_bytes(v.take(j)).len() + 1 <= data.len(),
        data.subrange(pos + esc_bytes(v.take(j)).len(), data.len() as int) == esc_bytes(
            v.skip(j),
        ) + seq![0x22u8] + rest,
        j == v.len() ==> data[pos + esc_bytes(v.take(j)).len()] == 0x22,
        j < v.len() ==> {
            let q = pos + esc_bytes(v.take(j)).len();
            &&& q + esc_byte(v[j]).len() + 1 <= data.len()
            &&& (forall|t: int| 0 <= t < esc_byte(v[j]).len() ==> data[q + t] == esc_byte(
                v[j],
            )[t])
            &&& esc_bytes(v.take(j + 1)) == esc_bytes(v.take(j)) + esc_byte(v[j])
            &&& v.take(j + 1) == v.take(j).push(v[j])
        },
{
    lemma_esc_bytes_concat(v.take(j), v.skip(j));
    assert(v.take(j) + v.skip(j) =~= v);
    let q = pos + esc_bytes(v.take(j)).len();
    let whole = data.subrange(pos, data.len() as int);
    assert(whole.len() == esc_bytes(v).len() + 1 + rest.len());
    assert(esc_bytes(v).len() == esc_bytes(v.take(j)).len() + esc_bytes(v.skip(j)).len());
    assert forall|i: int| 0 <= i < data.len() - q implies data.subrange(
        q,
        data.len() as int,
    )[i] == (esc_bytes(v.skip(j)) + seq![0x22u8] + rest)[i] by {
        assert(data.subrange(q, data.len() as int)[i] == data[q + i]);
        assert(data[q + i] == whole[q - pos + i]);
        assert(whole[q - pos + i] == (esc_bytes(v) + seq![0x22u8] + rest)[q - pos + i]);
        if i < esc_bytes(v.skip(j)).len() {
            assert((esc_bytes(v) + seq![0x22u8] + rest)[q - pos + i] == esc_bytes(v)[q - pos + i]);
            assert(esc_bytes(v)[q - pos + i] == esc_bytes(v.skip(j))[i]);
        }
    }
    assert(data.subrange(q, data.len() as int) =~= esc_bytes(v.skip(j)) + seq![0x22u8] + rest);
    if j == v.len() {
        assert(v.skip(j) =~= Seq::<u8>::empty());
        assert(esc_bytes(Seq::<u8>::empty()) =~= Seq::<u8>::empty());
        assert(data[q] == data.subrange(q, data.len() as int)[0]);
        assert(data[q] == (esc_bytes(v.skip(j)) + seq![0x22u8] + rest)[0]);
    } else {
        lemma_esc_bytes_first(v.skip(j));
        assert(v.skip(j)[0] == v[j]);
        assert(v.skip(j).drop_first() =~= v.skip(j + 1));
        lemma_esc_byte_shape(v[j]);
        assert(esc_bytes(v.skip(j)).len() >= esc_byte(v[j]).len());
        assert forall|t: int| 0 <= t < esc_byte(v[j]).len() implies data[q + t] == esc_byte(
            v[j],
        )[t] by {
            assert(data[q + t] == data.subrange(q, data.len() as int)[t]);
            assert((esc_bytes(v.skip(j)) + seq![0x22u8] + rest)[t] == esc_bytes(v.skip(j))[t]);
            assert(esc_bytes(v.skip(j))[t] == (esc_byte(v[j]) + esc_bytes(v.skip(j + 1)))[t]);
        }
        assert(v.take(j + 1).drop_last() =~= v.take(j));
        assert(v.take(j + 1).last() == v[j]);
        assert(v.take(j + 1) =~= v.take(j).push(v[j]));
        assert(esc_bytes(v.take(j + 1)) == esc_bytes(v.take(j + 1).drop_last()) + esc_byte(
            v.take(j + 1).last(),
        ));
    }
}

/// An escaped byte string closed by an unescaped quote is read off an
/// equal concatenation in only one way.
proof fn lemma_esc_split(s1: Seq<u8>, r1: Seq<u8>, s2: Seq<u8>, r2: Seq<u8>)
    requires
        esc_bytes(s1) + seq![0x22u8] + r1 == esc_bytes(s2) + seq![0x22u8] + r2,
    ensures
        s1 == s2,
        r1 == r2,
    decreases s1.len(),
{
    let lhs = esc_bytes(s1) + seq![0x22u8] + r1;
    let rhs = esc_bytes(s2) + seq![0x22u8] + r2;
    if s1.len() == 0 && s2.len() == 0 {
        assert(esc_bytes(s1) =~= Seq::<u8>::empty());
        assert(esc_bytes(s2) =~= Seq::<u8>::empty());
        assert(esc_bytes(s1) + seq![0x22u8] =~= seq![0x22u8]);
        assert(esc_bytes(s2) + seq![0x22u8] =~= seq![0x22u8]);
        lemma_cancel(seq![0x22u8], r1, seq![0x22u8], r2);
        assert(s1 =~= s2);
    } else if s1.len() == 0 {
        lemma_esc_bytes_first(s2);
        lemma_esc_byte_shape(s2[0]);
        assert(lhs[0] == 0x22);
        assert(rhs[0] == esc_byte(s2[0])[0]);
        assert(false);
    } else if s2.len() == 0 {
        lemma_esc_bytes_first(s1);
        lemma_esc_byte_shape(s1[0]);
        assert(rhs[0] == 0x22);
        assert(lhs[0] == esc_byte(s1[0])[0]);
        assert(false);
    } else {
        lemma_esc_bytes_first(s1);
        lemma_esc_bytes_first(s2);
        lemma_esc_byte_shape(s1[0]);
        lemma_esc_byte_shape(s2[0]);
        let b1 = s1[0];
        let b2 = s2[0];
        let tail1 = esc_bytes(s1.drop_first()) + seq![0x22u8] + r1;
        let tail2 = esc_bytes(s2.drop_first()) + seq![0x22u8] + r2;
        assert(lhs =~= esc_byte(b1) + tail1);
        assert(rhs =~= esc_byte(b2) + tail2);
        assert(lhs[0] == esc_byte(b1)[0]);
        assert(lhs[0] == esc_byte(b2)[0]);
        if esc_byte(b1)[0] != 0x5c {
            assert(esc_byte(b1).len() == 1 && esc_byte(b1)[0] == b1);
            assert(esc_byte(b2)[0] != 0x5c);
            assert(esc_byte(b2).len() == 1 && esc_byte(b2)[0] == b2);
            assert(b1 == b2);
        } else {
            assert(esc_byte(b2)[0] == 0x5c);
            assert(esc_byte(b1).len() >= 2 && esc_byte(b2).len() >= 2);
            assert(lhs[1] == esc_byte(b1)[1]);
            assert(lhs[1] == esc_byte(b2)[1]);
            if b1 == 0x22 || b1 == 0x5c {
                assert(esc_byte(b1)[1] == b1);
                assert(b2 == 0x22 || b2 == 0x5c || b2 < 0x20);
                if b2 < 0x20 && !(b2 == 0x22 || b2 == 0x5c) {
                    assert(esc_byte(b2)[1] == 0x75);
                    assert(false);
                }
                assert(esc_byte(b2)[1] == b2);
                assert(b1 == b2);
            } else {
                assert(b1 < 0x20);
                assert(esc_byte(b1)[1] == 0x75);
                if b2 == 0x22 || b2 == 0x5c {
                    assert(esc_byte(b2)[1] == b2);
                    assert(false);
                }
                assert(b2 < 0x20);
                assert(esc_byte(b1).len() == 6 && esc_byte(b2).len() == 6);
                assert(lhs[4] == esc_byte(b1)[4] && lhs[4] == esc_byte(b2)[4]);
                assert(lhs[5] == esc_byte(b1)[5] && lhs[5] == esc_byte(b2)[5]);
                lemma_hex_digit_injective(b1 / 16, b2 / 16);
                lemma_hex_digit_injective(b1 % 16, b2 % 16);
                assert(b1 == 16 * (b1 / 16) + b1 % 16);
                assert(b2 == 16 * (b2 / 16) + b2 % 16);
            }
        }
        assert(b1 == b2);
        lemma_cancel(esc_byte(b1), tail1, esc_byte(b2), tail2);
        lemma_esc_split(s1.drop_first(), r1, s2.drop_first(), r2);
        assert(s1 =~= s2) by {
            assert forall|i: int| 0 <= i < s1.len() implies s1[i] == s2[i] by {
                if i > 0 {
                    assert(s1[i] == s1.drop_first()[i - 1]);
                    assert(s2[i] == s2.drop_first()[i - 1]);
                }
            }
        }
    }
}

/// Distinct values below sixteen have distinct hexadecimal digits.
proof fn lemma_hex_digit_injective(x1: u8, x2: u8)
    requires
        x1 < 16,
        x2 < 16,
        crate::codec::hex_digit(x1) == crate::codec::hex_digit(x2),
    ensures
        x1 == x2,
{
}

/// Peeling a known prefix off a suffix of the data: the bytes of the
/// prefix stand at their positions and the remainder follows it.
pub(crate) proof fn lemma_peel(data: Seq<u8>, q: int, a: Seq<u8>, b: Seq<u8>)
    requires
        0 <= q <= data.len(),
        data.subrange(q, data.len() as int) == a + b,
    ensures
        q + a.len() <= data.len(),
        data.subrange(q + a.len(), data.len() as int) == b,
        forall|i: int| q <= i < q + a.len() ==> #[trigger] data[i] == a[i - q],
{
    assert(data.subrange(q, data.len() as int).len() == a.len() + b.len());
    assert forall|i: int| q <= i < q + a.len() implies #[trigger] data[i] == a[i - q] by {
        assert(data[i] == data.subrange(q, data.len() as int)[i - q]);
        assert((a + b)[i - q] == a[i - q]);
    }
    assert forall|i: int| 0 <= i < b.len() implies data.subrange(
        q + a.len(),
        data.len() as int,
    )[i] == b[i] by {
        assert(data.subrange(q + a.len(), data.len() as int)[i] == data[q + a.len() + i]);
        assert(data[q + a.len() + i] == data.subrange(q, data.len() as int)[a.len() + i]);
        assert((a + b)[a.len() + i] == b[i]);
    }
    assert(data.subrange(q + a.len(), data.len() as int) =~= b);
}

/// Every piece of an encoded entry stands at its own position: the
/// punctuation bytes, the field names, the key and the timestamps as
/// canonical numbers, and the value as an escaped string.
pub open spec fn entry_position_facts(
    data: Seq<u8>,
    pos: int,
    k: u32,
    e: CacheEntry<String>,
    rest: Seq<u8>,
) -> bool {
    ({
        let klen = dec_digits(k as nat).len() as int;
            let vlen = esc_bytes(vstd::utf8::encode_utf8(e.value@)).len() as int;
            let ctlen = dec_digits(e.creation_time as nat).len() as int;
            let lalen = dec_digits(e.last_accessed_time as nat).len() as int;
            let q2 = pos + 1 + klen;
            let q5 = q2 + 12;
            let q6 = q5 + vlen + 1;
            let q10 = q6 + 17;
            let q14 = q10 + ctlen + 22;
            let q16 = q14 + lalen + 1;
            &&& data[pos] == 0x22
            &&& crate::codec::starts_with_number(
                data,
                pos + 1,
                k as u64,
                data.subrange(q2, data.len() as int),
            )
            &&& data[q2] == 0x22
            &&& data[q2 + 1] == 0x3a
            &&& data[q2 + 2] == 0x7b
            &&& data[q2 + 3] == 0x22
            &&& data.subrange(q2 + 4, q2 + 9) == value_field()
            &&& data[q2 + 9] == 0x22
            &&& data[q2 + 10] == 0x3a
            &&& data[q2 + 11] == 0x22
            &&& crate::codec::starts_with_string(
                data,
                q5,
                vstd::utf8::encode_utf8(e.value@),
                data.subrange(q6, data.len() as int),
            )
            &&& vstd::utf8::valid_utf8(vstd::utf8::encode_utf8(e.value@))
            &&& vstd::utf8::decode_utf8(vstd::utf8::encode_utf8(e.value@)) == e.value@
            &&& data[q6] == 0x2c
            &&& data[q6 + 1] == 0x22
            &&& data.subrange(q6 + 2, q6 + 15) == creation_field()
            &&& data[q6 + 15] == 0x22
            &&& data[q6 + 16] == 0x3a
            &&& crate::codec::starts_with_number(
                data,
                q10,
                e.creation_time,
                data.subrange(q10 + ctlen, data.len() as int),
            )
            &&& data[q10 + ctlen] == 0x2c
            &&& data[q10 + ctlen + 1] == 0x22
            &&& data.subrange(q10 + ctlen + 2, q10 + ctlen + 20) == accessed_field()
            &&& data[q10 + ctlen + 20] == 0x22
            &&& data[q10 + ctlen + 21] == 0x3a
            &&& crate::codec::starts_with_number(
                data,
                q14,
                e.last_accessed_time,
                data.subrange(q14 + lalen, data.len() as int),
            )
            &&& data[q14 + lalen] == 0x7d
            &&& q16 == pos + json_entry(k, e).len()
            &&& q16 <= data.len()
            &&& data.subrange(q16, data.len() as int) == rest
    })
}

/// Where an encoded entry stands at `pos`, all of [`entry_position_facts`]
/// hold of it.
#[verifier::rlimit(100)]
pub(crate) proof fn lemma_entry_positions(
    data: Seq<u8>,
    pos: int,
    k: u32,
    e: CacheEntry<String>,
    rest: Seq<u8>,
)
    requires
        crate::codec::starts_with_entry(data, pos, k, e, rest),
    ensures
        entry_position_facts(data, pos, k, e, rest),
{
    let enc = vstd::utf8::encode_utf8(e.value@);
    let klen = dec_digits(k as nat).len() as int;
    let vlen = esc_bytes(enc).len() as int;
    let ctlen = dec_digits(e.creation_time as nat).len() as int;
    let lalen = dec_digits(e.last_accessed_time as nat).len() as int;
    let lit1 = seq![0x22u8, 0x3a, 0x7b, 0x22] + value_field() + seq![0x22u8, 0x3a, 0x22];
    let lit2 = seq![0x2cu8, 0x22] + creation_field() + seq![0x22u8, 0x3a];
    let lit3 = seq![0x2cu8, 0x22] + accessed_field() + seq![0x22u8, 0x3a];
    lemma_json_entry_decompose(k, e, rest);
    let f = seq![0x7du8] + rest;
    let ea = dec_digits(e.last_accessed_time as nat) + f;
    let d = lit3 + ea;
    let c = dec_digits(e.creation_time as nat) + d;
    let b = lit2 + c;
    let a = esc_bytes(enc) + seq![0x22u8] + b;
    let t = lit1 + a;
    let s = dec_digits(k as nat) + t;
    let n = data.len() as int;
    assert(data.subrange(pos, n) == seq![0x22u8] + s);
    lemma_peel(data, pos, seq![0x22u8], s);
    let q1 = pos + 1;
    assert(data.subrange(q1, n) == dec_digits(k as nat) + t);
    lemma_peel(data, q1, dec_digits(k as nat), t);
    let q2 = q1 + klen;
    lemma_dec_digits_are_digits(k as nat);
    assert(t[0] == lit1[0]);
    assert(crate::codec::starts_with_number(data, q1, k as u64, data.subrange(q2, n)));
    lemma_peel(data, q2, lit1, a);
    let q5 = q2 + 12;
    assert forall|i: int| 0 <= i < 5 implies data.subrange(q2 + 4, q2 + 9)[i] == value_field()[i]
        by {
        assert(data[q2 + 4 + i] == lit1[4 + i]);
        assert(lit1[4 + i] == value_field()[i]);
    }
    assert(data.subrange(q2 + 4, q2 + 9) =~= value_field());
    assert(crate::codec::starts_with_string(data, q5, enc, b)) by {
        assert(data.subrange(q5, n) == a);
    }
    lemma_peel(data, q5, esc_bytes(enc) + seq![0x22u8], b);
    let q6 = q5 + vlen + 1;
    assert(data.subrange(q6, n) == b);
    vstd::utf8::encode_utf8_valid_utf8(e.value@);
    vstd::utf8::encode_utf8_decode_utf8(e.value@);
    assert(crate::codec::starts_with_string(data, q5, enc, data.subrange(q6, n)));
    lemma_peel(data, q6, lit2, c);
    let q10 = q6 + 17;
    assert forall|i: int| 0 <= i < 13 implies data.subrange(q6 + 2, q6 + 15)[i]
        == creation_field()[i] by {
        assert(data[q6 + 2 + i] == lit2[2 + i]);
        assert(lit2[2 + i] == creation_field()[i]);
    }
    assert(data.subrange(q6 + 2, q6 + 15) =~= creation_field());
    lemma_dec_digits_are_digits(e.creation_time as nat);
    assert(d[0] == lit3[0]);
    assert(crate::codec::starts_with_number(
        data,
        q10,
        e.creation_time,
        data.subrange(q10 + ctlen, n),
    )) by {
        assert(data.subrange(q10, n) == c);
        lemma_peel(data, q10, dec_digits(e.creation_time as nat), d);
    }
    lemma_peel(data, q10, dec_digits(e.creation_time as nat), d);
    let q11 = q10 + ctlen;
    lemma_peel(data, q11, lit3, ea);
    let q14 = q11 + 22;
    assert forall|i: int| 0 <= i < 18 implies data.subrange(q11 + 2, q11 + 20)[i]
        == accessed_field()[i] by {
        assert(data[q11 + 2 + i] == lit3[2 + i]);
        assert(lit3[2 + i] == accessed_field()[i]);
    }
    assert(data.subrange(q11 + 2, q11 + 20) =~= accessed_field());
    lemma_dec_digits_are_digits(e.last_accessed_time as nat);
    assert(crate::codec::starts_with_number(
        data,
        q14,
        e.last_accessed_time,
        data.subrange(q14 + lalen, n),
    )) by {
        assert(data.subrange(q14, n) == ea);
        lemma_peel(data, q14, dec_digits(e.last_accessed_time as nat), f);
    }
    lemma_peel(data, q14, dec_digits(e.last_accessed_time as nat), f);
    let q15 = q14 + lalen;
    lemma_peel(data, q15, seq![0x7du8], rest);
    let q16 = q15 + 1;
    assert(data.subrange(pos, n).len() == json_entry(k, e).len() + rest.len());
    assert(data.subrange(q16, n).len() == rest.len());
    assert(data[pos] == 0x22);
    assert(crate::codec::starts_with_number(data, pos + 1, k as u64, data.subrange(q2, n)));
    assert(data[q2] == 0x22 && data[q2 + 1] == 0x3a && data[q2 + 2] == 0x7b && data[q2 + 3]
        == 0x22);
    assert(data.subrange(q2 + 4, q2 + 9) == value_field());
    assert(data[q2 + 9] == 0x22 && data[q2 + 10] == 0x3a && data[q2 + 11] == 0x22);
    assert(crate::codec::starts_with_string(data, q5, enc, data.subrange(q6, n)));
    assert(data[q6] == 0x2c && data[q6 + 1] == 0x22);
    assert(data.subrange(q6 + 2, q6 + 15) == creation_field());
    assert(data[q6 + 15] == 0x22 && data[q6 + 16] == 0x3a);
    assert(crate::codec::starts_with_number(
        data,
        q10,
        e.creation_time,
        data.subrange(q10 + ctlen, n),
    ));
    assert(data[q11] == 0x2c && data[q11 + 1] == 0x22);
    assert(data.subrange(q11 + 2, q11 + 20) == accessed_field());
    assert(data[q11 + 20] == 0x22 && data[q11 + 21] == 0x3a);
    assert(crate::codec::starts_with_number(
        data,
        q14,
        e.last_accessed_time,
        data.subrange(q14 + lalen, n),
    ));
    assert(data[q14 + lalen] == 0x7d);
    assert(q16 == pos + json_entry(k, e).len());
    assert(data.subrange(q16, n) == rest);
}

/// Both entries carry the same key, value, and timestamps.
pub open spec fn entry_agrees(a: (u32, CacheEntry<String>), b: (u32, CacheEntry<String>)) -> bool {
    &&& a.0 == b.0
    &&& a.1.value@ == b.1.value@
    &&& a.1.creation_time == b.1.creation_time
    &&& a.1.last_accessed_time == b.1.last_accessed_time
}

/// One encoded entry followed by a rest, regrouped from the front.
#[verifier::rlimit(100)]
proof fn lemma_json_entry_decompose(k: u32, e: CacheEntry<String>, r: Seq<u8>)
    ensures
        json_entry(k, e) + r == seq![0x22u8] + (dec_digits(k as nat) + ((seq![0x22u8, 0x3a, 0x7b,
            0x22] + value_field() + seq![0x22u8, 0x3a, 0x22]) + (esc_bytes(
            vstd::utf8::encode_utf8(e.value@),
        ) + seq![0x22u8] + ((seq![0x2cu8, 0x22] + creation_field() + seq![0x22u8, 0x3a])
            + (dec_digits(e.creation_time as nat) + ((seq![0x2cu8, 0x22] + accessed_field()
            + seq![0x22u8, 0x3a]) + (dec_digits(e.last_accessed_time as nat) + (seq![0x7du8]
            + r)))))))),
{
    assert(json_entry(k, e) + r =~= seq![0x22u8] + (dec_digits(k as nat) + ((seq![0x22u8, 0x3a,
        0x7b, 0x22] + value_field() + seq![0x22u8, 0x3a, 0x22]) + (esc_bytes(
        vstd::utf8::encode_utf8(e.value@),
    ) + seq![0x22u8] + ((seq![0x2cu8, 0x22] + creation_field() + seq![0x22u8, 0x3a])
        + (dec_digits(e.creation_time as nat) + ((seq![0x2cu8, 0x22] + accessed_field()
        + seq![0x22u8, 0x3a]) + (dec_digits(e.last_accessed_time as nat) + (seq![0x7du8]
        + r)))))))));
}

/// One encoded entry is read off an equal concatenation in only one way.
#[verifier::rlimit(50)]
proof fn lemma_json_entry_split(
    k1: u32,
    e1: CacheEntry<String>,
    r1: Seq<u8>,
    k2: u32,
    e2: CacheEntry<String>,
    r2: Seq<u8>,
)
    requires
        json_entry(k1, e1) + r1 == json_entry(k2, e2) + r2,
    ensures
        entry_agrees((k1, e1), (k2, e2)),
        r1 == r2,
{
    let v1 = vstd::utf8::encode_utf8(e1.value@);
    let v2 = vstd::utf8::encode_utf8(e2.value@);
    let lit1 = seq![0x22u8, 0x3a, 0x7b, 0x22] + value_field() + seq![0x22u8, 0x3a, 0x22];
    let lit2 = seq![0x2cu8, 0x22] + creation_field() + seq![0x22u8, 0x3a];
    let lit3 = seq![0x2cu8, 0x22] + accessed_field() + seq![0x22u8, 0x3a];

    let f1 = seq![0x7du8] + r1;
    let e1a = dec_digits(e1.last_accessed_time as nat) + f1;
    let d1 = lit3 + e1a;
    let c1 = dec_digits(e1.creation_time as nat) + d1;
    let b1 = lit2 + c1;
    let a1 = esc_bytes(v1) + seq![0x22u8] + b1;
    let t1 = lit1 + a1;
    let s1 = dec_digits(k1 as nat) + t1;

    let f2 = seq![0x7du8] + r2;
    let e2a = dec_digits(e2.last_accessed_time as nat) + f2;
    let d2 = lit3 + e2a;
    let c2 = dec_digits(e2.creation_time as nat) + d2;
    let b2 = lit2 + c2;
    let a2 = esc_bytes(v2) + seq![0x22u8] + b2;
    let t2 = lit1 + a2;
    let s2 = dec_digits(k2 as nat) + t2;

    lemma_json_entry_decompose(k1, e1, r1);
    lemma_json_entry_decompose(k2, e2, r2);
    assert(json_entry(k1, e1) + r1 == seq![0x22u8] + s1);
    assert(json_entry(k2, e2) + r2 == seq![0x22u8] + s2);
    lemma_cancel(seq![0x22u8], s1, seq![0x22u8], s2);

    lemma_dec_digits_are_digits(k1 as nat);
    lemma_dec_digits_are_digits(k2 as nat);
    assert(t1[0] == 0x22 && t2[0] == 0x22);
    lemma_digits_split(dec_digits(k1 as nat), t1, dec_digits(k2 as nat), t2);
    lemma_dec_digits_injective(k1 as nat, k2 as nat);

    lemma_cancel(lit1, a1, lit1, a2);
    lemma_esc_split(v1, b1, v2, b2);
    vstd::utf8::encode_utf8_decode_utf8(e1.value@);
    vstd::utf8::encode_utf8_decode_utf8(e2.value@);

    lemma_cancel(lit2, c1, lit2, c2);
    lemma_dec_digits_are_digits(e1.creation_time as nat);
    lemma_dec_digits_are_digits(e2.creation_time as nat);
    assert(d1[0] == 0x2c && d2[0] == 0x2c);
    lemma_digits_split(
        dec_digits(e1.creation_time as nat),
        d1,
        dec_digits(e2.creation_time as nat),
        d2,
    );
    lemma_dec_digits_injective(e1.creation_time as nat, e2.creation_time as nat);

    lemma_cancel(lit3, e1a, lit3, e2a);
    lemma_dec_digits_are_digits(e1.last_accessed_time as nat);
    lemma_dec_digits_are_digits(e2.last_accessed_time as nat);
    assert(f1[0] == 0x7d && f2[0] == 0x7d);
    lemma_digits_split(
        dec_digits(e1.last_accessed_time as nat),
        f1,
        dec_digits(e2.last_accessed_time as nat),
        f2,
    );
    lemma_dec_digits_injective(e1.last_accessed_time as nat, e2.last_accessed_time as nat);

    lemma_cancel(seq![0x7du8], r1, seq![0x7du8], r2);
}

/// An encoded entry begins with the quote before its key.
proof fn lemma_json_entry_first(k: u32, e: CacheEntry<String>)
    ensures
        json_entry(k, e).len() >= 1,
        json_entry(k, e)[0] == 0x22,
{
    assert(json_entry(k, e)[0] == (seq![0x22u8] + dec_digits(k as nat))[0]);
}

/// The entries after the first, each preceded by its comma.
pub open spec fn comma_entries(s: Seq<(u32, CacheEntry<String>)>) -> Seq<u8>
    decreases s.len(),
{
    if s.len() == 0 {
        Seq::empty()
    } else {
        seq![0x2cu8] + json_entry(s[0].0, s[0].1) + comma_entries(s.drop_first())
    }
}

/// Concatenation of byte strings regroups freely.
proof fn seq_assoc(a: Seq<u8>, b: Seq<u8>, c: Seq<u8>)
    ensures
        a + b + c == a + (b + c),
{
    assert(a + b + c =~= a + (b + c));
}

/// Appending one entry appends one comma-led encoding.
proof fn lemma_comma_entries_snoc(t: Seq<(u32, CacheEntry<String>)>, x: (u32, CacheEntry<String>))
    ensures
        comma_entries(t.push(x)) == comma_entries(t) + seq![0x2cu8] + json_entry(x.0, x.1),
    decreases t.len(),
{
    if t.len() == 0 {
        assert(t.push(x)[0] == x);
        assert(t.push(x).drop_first() =~= Seq::<(u32, CacheEntry<String>)>::empty());
        assert(comma_entries(t.push(x).drop_first()) == Seq::<u8>::empty());
        assert(comma_entries(t) == Seq::<u8>::empty());
        assert(comma_entries(t.push(x)) == seq![0x2cu8] + json_entry(x.0, x.1) + Seq::<
            u8,
        >::empty());
        assert(comma_entries(t.push(x)) =~= comma_entries(t) + seq![0x2cu8] + json_entry(
            x.0,
            x.1,
        ));
    } else {
        assert(t.push(x)[0] == t[0]);
        assert(t.push(x).drop_first() =~= t.drop_first().push(x));
        assert(t.push(x).drop_first() == t.drop_first().push(x));
        lemma_comma_entries_snoc(t.drop_first(), x);
        assert(comma_entries(t.push(x)) == seq![0x2cu8] + json_entry(t[0].0, t[0].1)
            + comma_entries(t.drop_first().push(x)));
        assert(comma_entries(t.push(x)) == seq![0x2cu8] + json_entry(t[0].0, t[0].1)
            + (comma_entries(t.drop_first()) + seq![0x2cu8] + json_entry(x.0, x.1)));
        assert(comma_entries(t) == seq![0x2cu8] + json_entry(t[0].0, t[0].1) + comma_entries(
            t.drop_first(),
        ));
        let s = seq![0x2cu8];
        let j0 = json_entry(t[0].0, t[0].1);
        let jx = json_entry(x.0, x.1);
        let c = comma_entries(t.drop_first());
        seq_assoc(s + j0, c + s, jx);
        seq_assoc(s + j0, c, s);
        assert(comma_entries(t.push(x)) == (((s + j0) + c) + s) + jx);
        assert(comma_entries(t) + seq![0x2cu8] + json_entry(x.0, x.1) == (((s + j0) + c) + s)
            + jx);
    }
}

/// The encoded entry list, read from the front.
proof fn lemma_json_entries_front(s: Seq<(u32, CacheEntry<String>)>)
    requires
        s.len() >= 1,
    ensures
        json_entries(s) == json_entry(s[0].0, s[0].1) + comma_entries(s.drop_first()),
    decreases s.len(),
{
    if s.len() == 1 {
        assert(s.drop_first() =~= Seq::<(u32, CacheEntry<String>)>::empty());
        assert(json_entries(s) =~= json_entry(s[0].0, s[0].1) + comma_entries(s.drop_first()));
    } else {
        lemma_json_entries_front(s.drop_last());
        assert(s.drop_last()[0] == s[0]);
        lemma_comma_entries_snoc(s.drop_last().drop_first(), s.last());
        assert(s.drop_last().drop_first().push(s.last()) =~= s.drop_first());
        assert(json_entries(s) =~= json_entry(s[0].0, s[0].1) + comma_entries(s.drop_first()));
    }
}

/// What a whole document pins down at its very front: the opening brace,
/// and either the closing brace of an empty store or the first entry.
pub(crate) proof fn lemma_doc_facts(data: Seq<u8>, orig: Seq<(u32, CacheEntry<String>)>)
    requires
        json_doc(orig) == data,
    ensures
        data.len() >= 2,
        data[0] == 0x7b,
        orig.len() == 0 ==> data.len() == 2 && data[1] == 0x7d,
        orig.len() >= 1 ==> data[1] == 0x22 && crate::codec::starts_with_entry(
            data,
            1,
            orig[0].0,
            orig[0].1,
            comma_entries(orig.skip(1)) + seq![0x7du8],
        ),
{
    if orig.len() == 0 {
        assert(json_entries(orig) =~= Seq::<u8>::empty());
        assert(json_doc(orig) =~= seq![0x7bu8, 0x7du8]);
        assert(data[0] == seq![0x7bu8, 0x7du8][0]);
        assert(data[1] == seq![0x7bu8, 0x7du8][1]);
    } else {
        lemma_json_entries_front(orig);
        assert(orig.skip(1) =~= orig.drop_first());
        let je = json_entry(orig[0].0, orig[0].1);
        let tail = comma_entries(orig.skip(1)) + seq![0x7du8];
        assert(json_doc(orig) =~= seq![0x7bu8] + (je + tail));
        assert(data.subrange(0, data.len() as int) =~= data);
        lemma_peel(data, 0, seq![0x7bu8], je + tail);
        lemma_json_entry_first(orig[0].0, orig[0].1);
        assert(data.subrange(1, data.len() as int) == je + tail);
        assert(data[1] == data.subrange(1, data.len() as int)[0]);
        assert((je + tail)[0] == je[0]);
    }
}

/// After one entry of a document is read, either its closing brace ends
/// the input, or a comma and the next entry stand there.
pub(crate) proof fn lemma_doc_step(
    data: Seq<u8>,
    p: int,
    orig: Seq<(u32, CacheEntry<String>)>,
    m: int,
)
    requires
        0 <= m < orig.len(),
        crate::codec::starts_with_entry(
            data,
            p,
            orig[m].0,
            orig[m].1,
            comma_entries(orig.skip(m + 1)) + seq![0x7du8],
        ),
    ensures
        ({
            let p2 = p + json_entry(orig[m].0, orig[m].1).len();
            &&& p2 <= data.len()
            &&& (m + 1 == orig.len() ==> p2 + 1 == data.len() && data[p2] == 0x7d)
            &&& (m + 1 < orig.len() ==> p2 + 1 < data.len() && data[p2] == 0x2c
                && crate::codec::starts_with_entry(
                data,
                p2 + 1,
                orig[m + 1].0,
                orig[m + 1].1,
                comma_entries(orig.skip(m + 2)) + seq![0x7du8],
            ))
        }),
{
    let je = json_entry(orig[m].0, orig[m].1);
    let tail = comma_entries(orig.skip(m + 1)) + seq![0x7du8];
    lemma_peel(data, p, je, tail);
    let p2 = p + je.len();
    assert(data.subrange(p2, data.len() as int) == tail);
    if m + 1 == orig.len() {
        assert(orig.skip(m + 1) =~= Seq::<(u32, CacheEntry<String>)>::empty());
        assert(comma_entries(orig.skip(m + 1)) =~= Seq::<u8>::empty());
        assert(tail =~= seq![0x7du8]);
        assert(data[p2] == data.subrange(p2, data.len() as int)[0]);
    } else {
        let s = orig.skip(m + 1);
        assert(s[0] == orig[m + 1]);
        assert(s.drop_first() =~= orig.skip(m + 2));
        let je2 = json_entry(orig[m + 1].0, orig[m + 1].1);
        let tail2 = comma_entries(orig.skip(m + 2)) + seq![0x7du8];
        assert(comma_entries(s) == seq![0x2cu8] + je2 + comma_entries(orig.skip(m + 2)));
        assert(tail =~= seq![0x2cu8] + (je2 + tail2));
        lemma_peel(data, p2, seq![0x2cu8], je2 + tail2);
        assert(data[p2] == 0x2c);
        lemma_json_entry_first(orig[m + 1].0, orig[m + 1].1);
        assert(data.subrange(p2 + 1, data.len() as int) == je2 + tail2);
    }
}

/// Entry sequences that agree key for key, value for value and time for
/// time have the same encoded entry list.
proof fn lemma_json_entries_congruence(
    a: Seq<(u32, CacheEntry<String>)>,
    b: Seq<(u32, CacheEntry<String>)>,
)
    requires
        a.len() == b.len(),
        forall|i: int| 0 <= i < a.len() ==> entry_agrees(#[trigger] a[i], b[i]),
    ensures
        json_entries(a) == json_entries(b),
    decreases a.len(),
{
    if a.len() == 0 {
    } else {
        assert(entry_agrees(a[a.len() - 1], b[b.len() - 1]));
        assert(json_entry(a.last().0, a.last().1) == json_entry(b.last().0, b.last().1));
        if a.len() > 1 {
            assert forall|i: int| 0 <= i < a.drop_last().len() implies entry_agrees(
                #[trigger] a.drop_last()[i],
                b.drop_last()[i],
            ) by {
                assert(a.drop_last()[i] == a[i]);
                assert(b.drop_last()[i] == b[i]);
            }
            lemma_json_entries_congruence(a.drop_last(), b.drop_last());
        }
    }
}

/// Entry sequences that agree key for key, value for value and time for
/// time have the same document.
pub(crate) proof fn lemma_json_doc_congruence(
    a: Seq<(u32, CacheEntry<String>)>,
    b: Seq<(u32, CacheEntry<String>)>,
)
    requires
        a.len() == b.len(),
        forall|i: int| 0 <= i < a.len() ==> entry_agrees(#[trigger] a[i], b[i]),
    ensures
        json_doc(a) == json_doc(b),
{
    lemma_json_entries_congruence(a, b);
}

/// A comma-led entry list closed by a brace is read in only one way.
proof fn lemma_comma_entries_split(
    a: Seq<(u32, CacheEntry<String>)>,
    b: Seq<(u32, CacheEntry<String>)>,
)
    requires
        comma_entries(a) + seq![0x7du8] == comma_entries(b) + seq![0x7du8],
    ensures
        a.len() == b.len(),
        forall|i: int| 0 <= i < a.len() ==> entry_agrees(#[trigger] a[i], b[i]),
    decreases a.len(),
{
    if a.len() == 0 && b.len() == 0 {
    } else if a.len() == 0 {
        assert(comma_entries(a) =~= Seq::<u8>::empty());
        assert((comma_entries(a) + seq![0x7du8])[0] == 0x7d);
        assert((comma_entries(b) + seq![0x7du8])[0] == (seq![0x2cu8] + json_entry(
            b[0].0,
            b[0].1,
        ) + comma_entries(b.drop_first()))[0]);
        assert(false);
    } else if b.len() == 0 {
        assert(comma_entries(b) =~= Seq::<u8>::empty());
        assert((comma_entries(b) + seq![0x7du8])[0] == 0x7d);
        assert((comma_entries(a) + seq![0x7du8])[0] == (seq![0x2cu8] + json_entry(
            a[0].0,
            a[0].1,
        ) + comma_entries(a.drop_first()))[0]);
        assert(false);
    } else {
        let ta = json_entry(a[0].0, a[0].1) + (comma_entries(a.drop_first()) + seq![0x7du8]);
        let tb = json_entry(b[0].0, b[0].1) + (comma_entries(b.drop_first()) + seq![0x7du8]);
        assert(comma_entries(a) + seq![0x7du8] =~= seq![0x2cu8] + ta);
        assert(comma_entries(b) + seq![0x7du8] =~= seq![0x2cu8] + tb);
        lemma_cancel(seq![0x2cu8], ta, seq![0x2cu8], tb);
        lemma_json_entry_split(
            a[0].0,
            a[0].1,
            comma_entries(a.drop_first()) + seq![0x7du8],
            b[0].0,
            b[0].1,
            comma_entries(b.drop_first()) + seq![0x7du8],
        );
        lemma_comma_entries_split(a.drop_first(), b.drop_first());
        assert forall|i: int| 0 <= i < a.len() implies entry_agrees(#[trigger] a[i], b[i]) by {
            if i > 0 {
                assert(a[i] == a.drop_first()[i - 1]);
                assert(b[i] == b.drop_first()[i - 1]);
                assert(entry_agrees(a.drop_first()[i - 1], b.drop_first()[i - 1]));
            }
        }
    }
}

/// Two entry sequences with the same JSON document agree entry for entry.
proof fn lemma_json_doc_injective(
    a: Seq<(u32, CacheEntry<String>)>,
    b: Seq<(u32, CacheEntry<String>)>,
)
    requires
        json_doc(a) == json_doc(b),
    ensures
        a.len() == b.len(),
        forall|i: int| 0 <= i < a.len() ==> entry_agrees(#[trigger] a[i], b[i]),
{
    let ea = json_entries(a) + seq![0x7du8];
    let eb = json_entries(b) + seq![0x7du8];
    assert(json_doc(a) =~= seq![0x7bu8] + ea);
    assert(json_doc(b) =~= seq![0x7bu8] + eb);
    lemma_cancel(seq![0x7bu8], ea, seq![0x7bu8], eb);
    if a.len() == 0 && b.len() == 0 {
    } else if a.len() == 0 {
        assert(json_entries(a) =~= Seq::<u8>::empty());
        assert(ea[0] == 0x7d);
        lemma_json_entries_front(b);
        lemma_json_entry_first(b[0].0, b[0].1);
        assert(eb[0] == json_entry(b[0].0, b[0].1)[0]);
        assert(false);
    } else if b.len() == 0 {
        assert(json_entries(b) =~= Seq::<u8>::empty());
        assert(eb[0] == 0x7d);
        lemma_json_entries_front(a);
        lemma_json_entry_first(a[0].0, a[0].1);
        assert(ea[0] == json_entry(a[0].0, a[0].1)[0]);
        assert(false);
    } else {
        lemma_json_entries_front(a);
        lemma_json_entries_front(b);
        assert(ea =~= json_entry(a[0].0, a[0].1) + (comma_entries(a.drop_first()) + seq![0x7du8]));
        assert(eb =~= json_entry(b[0].0, b[0].1) + (comma_entries(b.drop_first()) + seq![0x7du8]));
        lemma_json_entry_split(
            a[0].0,
            a[0].1,
            comma_entries(a.drop_first()) + seq![0x7du8],
            b[0].0,
            b[0].1,
            comma_entries(b.drop_first()) + seq![0x7du8],
        );
        lemma_comma_entries_split(a.drop_first(), b.drop_first());
        assert forall|i: int| 0 <= i < a.len() implies entry_agrees(#[trigger] a[i], b[i]) by {
            if i > 0 {
                assert(a[i] == a.drop_first()[i - 1]);
                assert(b[i] == b.drop_first()[i - 1]);
                assert(entry_agrees(a.drop_first()[i - 1], b.drop_first()[i - 1]));
            }
        }
    }
}

/// The document of a well-formed store is one that `deserialize` owes
/// success on: its keys are distinct and a store can hold its entries.
pub proof fn lemma_wf_store_encodable(st: CacheSystem<String>)
    requires
        st.wf(),
    ensures
        crate::codec::encodable_doc(json_doc(st.entries@), st.entries@),
{
}

/// Round-trip law: a store whose entries encode to the same JSON document
/// as another's holds the same keys, values and timestamps, in the same
/// order. `serialize_json` returns exactly the document of a store's
/// entries; `deserialize` succeeds on the document of every well-formed
/// store ([`lemma_wf_store_encodable`]) and returns only stores whose
/// document is its input; so decoding an encoded store always succeeds and
/// reproduces the original (key, value) pairs.
pub proof fn lemma_round_trip(st: CacheSystem<String>, st2: CacheSystem<String>)
    requires
        json_doc(st2.entries@) == json_doc(st.entries@),
    ensures
        st2.entries@.len() == st.entries@.len(),
        forall|i: int| 0 <= i < st2.entries@.len()
            ==> entry_agrees(#[trigger] st2.entries@[i], st.entries@[i]),
{
    lemma_json_doc_injective(st2.entries@, st.entries@);
}

} // verus!
