//! Serialization of the store's contents.
//!
//! The store's state is exposed as portable bytes in two shapes, both
//! covering the full entry mapping (key, value, both timestamps), written
//! in insertion order:
//!
//! - a textual JSON object, keyed by the decimal rendering of each key,
//!   each entry an object with the fields `value`, `creation_time` and
//!   `last_accessed_time`;
//! - a compact binary form: an eight-byte little-endian entry count, then
//!   per entry the four-byte little-endian key, the length-prefixed UTF-8
//!   bytes of the value, and the two eight-byte little-endian timestamps.
//!
//! Decoding accepts exactly the canonical JSON documents this module
//! produces and rebuilds a store (full to capacity, both orderings in
//! insertion order); the eviction-order fidelity of the source store is
//! not carried by the format.

use vstd::prelude::*;

use crate::errors::SerializeError;
use crate::types::CacheEntry;
use crate::types::CacheSystem;
use crate::types::lemma_push_contains;
use crate::types::lemma_push_no_dup;

verus! {

/// The decimal digits of `n`, most significant first.
pub open spec fn dec_digits(n: nat) -> Seq<u8>
    decreases n,
{
    if n < 10 {
        seq![(0x30 + n) as u8]
    } else {
        dec_digits(n / 10).push((0x30 + n % 10) as u8)
    }
}

/// The lowercase hexadecimal digit of a value below sixteen.
pub open spec fn hex_digit(n: u8) -> u8 {
    if n < 10 {
        (0x30 + n) as u8
    } else {
        (0x57 + n) as u8
    }
}

/// Whether a byte is a decimal digit.
pub open spec fn is_digit(b: u8) -> bool {
    0x30 <= b <= 0x39
}

/// The number a digit string denotes.
pub open spec fn num_of(s: Seq<u8>) -> int
    decreases s.len(),
{
    if s.len() == 0 {
        0
    } else {
        num_of(s.drop_last()) * 10 + (s.last() - 0x30)
    }
}

/// Every byte of a decimal rendering is a digit, and there is at least one.
pub(crate) proof fn lemma_dec_digits_are_digits(n: nat)
    ensures
        dec_digits(n).len() >= 1,
        forall|i: int| 0 <= i < dec_digits(n).len() ==> is_digit(#[trigger] dec_digits(n)[i]),
    decreases n,
{
    if n < 10 {
        assert(dec_digits(n)[0] == (0x30 + n) as u8);
    } else {
        lemma_dec_digits_are_digits(n / 10);
        assert forall|i: int| 0 <= i < dec_digits(n).len() implies is_digit(
            #[trigger] dec_digits(n)[i]) by {
            if i < dec_digits(n / 10).len() {
                assert(dec_digits(n)[i] == dec_digits(n / 10)[i]);
            } else {
                assert(dec_digits(n)[i] == (0x30 + n % 10) as u8);
            }
        }
    }
}

/// The decimal rendering of a number denotes that number.
pub(crate) proof fn lemma_num_of_dec_digits(n: nat)
    ensures
        num_of(dec_digits(n)) == n,
    decreases n,
{
    if n < 10 {
        assert(dec_digits(n).drop_last() =~= Seq::<u8>::empty());
        assert(num_of(Seq::<u8>::empty()) == 0);
        assert(((0x30 + n) as u8) as int == 0x30 + n);
    } else {
        lemma_num_of_dec_digits(n / 10);
        assert(dec_digits(n).drop_last() =~= dec_digits(n / 10));
        assert(dec_digits(n).last() == (0x30 + n % 10) as u8);
        assert(((0x30 + n % 10) as u8) as int == 0x30 + n % 10);
        assert(num_of(dec_digits(n)) == (n / 10) * 10 + n % 10);
        assert(n == (n / 10) * 10 + n % 10);
    }
}

/// Every prefix of a decimal rendering denotes at most the number.
pub(crate) proof fn lemma_num_of_dec_prefix(n: nat, j: int)
    requires
        0 <= j <= dec_digits(n).len(),
    ensures
        0 <= num_of(dec_digits(n).take(j)) <= n,
    decreases n,
{
    if j == dec_digits(n).len() {
        lemma_num_of_dec_digits(n);
        assert(dec_digits(n).take(j) =~= dec_digits(n));
    } else if n < 10 {
        assert(dec_digits(n).take(j) =~= Seq::<u8>::empty());
    } else {
        assert(dec_digits(n).take(j) =~= dec_digits(n / 10).take(j));
        lemma_num_of_dec_prefix(n / 10, j);
    }
}

/// How one byte of a value appears inside a JSON string: quote and
/// backslash are escaped, control bytes take the `\u00XX` form, and
/// everything else (including UTF-8 continuation bytes) passes through.
pub open spec fn esc_byte(b: u8) -> Seq<u8> {
    if b == 0x22 {
        seq![0x5c, 0x22]
    } else if b == 0x5c {
        seq![0x5c, 0x5c]
    } else if b < 0x20 {
        seq![0x5c, 0x75, 0x30, 0x30, hex_digit(b / 16), hex_digit(b % 16)]
    } else {
        seq![b]
    }
}

/// A whole byte string, escaped byte for byte.
pub open spec fn esc_bytes(s: Seq<u8>) -> Seq<u8>
    decreases s.len(),
{
    if s.len() == 0 {
        Seq::empty()
    } else {
        esc_bytes(s.drop_last()) + esc_byte(s.last())
    }
}

/// The bytes of the field name `value`.
pub open spec fn value_field() -> Seq<u8> {
    seq![0x76, 0x61, 0x6c, 0x75, 0x65]
}

/// The bytes of the field name `creation_time`.
pub open spec fn creation_field() -> Seq<u8> {
    seq![0x63, 0x72, 0x65, 0x61, 0x74, 0x69, 0x6f, 0x6e, 0x5f, 0x74, 0x69, 0x6d, 0x65]
}

/// The bytes of the field name `last_accessed_time`.
pub open spec fn accessed_field() -> Seq<u8> {
    seq![
        0x6c, 0x61, 0x73, 0x74, 0x5f, 0x61, 0x63, 0x63, 0x65, 0x73, 0x73, 0x65, 0x64, 0x5f,
        0x74, 0x69, 0x6d, 0x65,
    ]
}

/// One entry as JSON: `"<key>":{"value":"<escaped>","creation_time":<n>,
/// "last_accessed_time":<n>}`.
pub open spec fn json_entry(k: u32, e: CacheEntry<String>) -> Seq<u8> {
    seq![0x22u8] + dec_digits(k as nat) + seq![0x22u8, 0x3a, 0x7b, 0x22] + value_field()
        + seq![0x22u8, 0x3a, 0x22] + esc_bytes(vstd::utf8::encode_utf8(e.value@))
        + seq![0x22u8, 0x2c, 0x22] + creation_field() + seq![0x22u8, 0x3a]
        + dec_digits(e.creation_time as nat) + seq![0x2cu8, 0x22] + accessed_field()
        + seq![0x22u8, 0x3a] + dec_digits(e.last_accessed_time as nat) + seq![0x7du8]
}

/// The entries joined with commas, in sequence order.
pub open spec fn json_entries(s: Seq<(u32, CacheEntry<String>)>) -> Seq<u8>
    decreases s.len(),
{
    if s.len() == 0 {
        Seq::empty()
    } else if s.len() == 1 {
        json_entry(s[0].0, s[0].1)
    } else {
        json_entries(s.drop_last()) + seq![0x2cu8] + json_entry(s.last().0, s.last().1)
    }
}

/// The whole document: the entries inside one JSON object.
pub open spec fn json_doc(s: Seq<(u32, CacheEntry<String>)>) -> Seq<u8> {
    seq![0x7bu8] + json_entries(s) + seq![0x7du8]
}

/// The four bytes of `n`, least significant first.
pub open spec fn le_bytes_32(n: u32) -> Seq<u8> {
    seq![
        (n & 0xff) as u8,
        ((n >> 8) & 0xff) as u8,
        ((n >> 16) & 0xff) as u8,
        ((n >> 24) & 0xff) as u8,
    ]
}

/// The eight bytes of `n`, least significant first.
pub open spec fn le_bytes_64(n: u64) -> Seq<u8> {
    seq![
        (n & 0xff) as u8,
        ((n >> 8) & 0xff) as u8,
        ((n >> 16) & 0xff) as u8,
        ((n >> 24) & 0xff) as u8,
        ((n >> 32) & 0xff) as u8,
        ((n >> 40) & 0xff) as u8,
        ((n >> 48) & 0xff) as u8,
        ((n >> 56) & 0xff) as u8,
    ]
}

/// One entry in the binary form: key, value length, value bytes, both
/// timestamps.
pub open spec fn bin_entry(k: u32, e: CacheEntry<String>) -> Seq<u8> {
    le_bytes_32(k) + le_bytes_64(vstd::utf8::encode_utf8(e.value@).len() as u64)
        + vstd::utf8::encode_utf8(e.value@) + le_bytes_64(e.creation_time)
        + le_bytes_64(e.last_accessed_time)
}

/// The entries in the binary form, back to back, in sequence order.
pub open spec fn bin_entries(s: Seq<(u32, CacheEntry<String>)>) -> Seq<u8>
    decreases s.len(),
{
    if s.len() == 0 {
        Seq::empty()
    } else {
        bin_entries(s.drop_last()) + bin_entry(s.last().0, s.last().1)
    }
}

/// The whole binary document: the entry count, then the entries.
pub open spec fn bin_doc(s: Seq<(u32, CacheEntry<String>)>) -> Seq<u8> {
    le_bytes_64(s.len() as u64) + bin_entries(s)
}

/// Appends the decimal digits of `n`.
fn push_dec(out: &mut Vec<u8>, n: u64)
    ensures
        final(out)@ == old(out)@ + dec_digits(n as nat),
    decreases n,
{
    if n < 10 {
        out.push(0x30 + n as u8);
    } else {
        push_dec(out, n / 10);
        out.push(0x30 + (n % 10) as u8);
    }
    proof {
        assert(out@ =~= old(out)@ + dec_digits(n as nat));
    }
}

/// Appends the bytes of a slice.
fn push_bytes(out: &mut Vec<u8>, src: &[u8])
    ensures
        final(out)@ == old(out)@ + src@,
{
    let n = src.len();
    let mut i: usize = 0;
    while i < n
        invariant
            n == src@.len(),
            i <= n,
            out@ == old(out)@ + src@.take(i as int),
        decreases n - i,
    {
        out.push(src[i]);
        proof {
            assert(out@ =~= old(out)@ + src@.take(i + 1));
        }
        i += 1;
    }
    proof {
        assert(src@.take(n as int) =~= src@);
    }
}

/// Appends the bytes of the field name `value`.
fn push_value_field(out: &mut Vec<u8>)
    ensures
        final(out)@ == old(out)@ + value_field(),
{
    out.push(0x76);
    out.push(0x61);
    out.push(0x6c);
    out.push(0x75);
    out.push(0x65);
    proof {
        assert(out@ =~= old(out)@ + value_field());
    }
}

/// Appends the bytes of the field name `creation_time`.
fn push_creation_field(out: &mut Vec<u8>)
    ensures
        final(out)@ == old(out)@ + creation_field(),
{
    out.push(0x63);
    out.push(0x72);
    out.push(0x65);
    out.push(0x61);
    out.push(0x74);
    out.push(0x69);
    out.push(0x6f);
    out.push(0x6e);
    out.push(0x5f);
    out.push(0x74);
    out.push(0x69);
    out.push(0x6d);
    out.push(0x65);
    proof {
        assert(out@ =~= old(out)@ + creation_field());
    }
}

/// Appends the bytes of the field name `last_accessed_time`.
fn push_accessed_field(out: &mut Vec<u8>)
    ensures
        final(out)@ == old(out)@ + accessed_field(),
{
    out.push(0x6c);
    out.push(0x61);
    out.push(0x73);
    out.push(0x74);
    out.push(0x5f);
    out.push(0x61);
    out.push(0x63);
    out.push(0x63);
    out.push(0x65);
    out.push(0x73);
    out.push(0x73);
    out.push(0x65);
    out.push(0x64);
    out.push(0x5f);
    out.push(0x74);
    out.push(0x69);
    out.push(0x6d);
    out.push(0x65);
    proof {
        assert(out@ =~= old(out)@ + accessed_field());
    }
}

/// Appends a value's bytes with JSON escaping applied.
fn push_escaped(out: &mut Vec<u8>, src: &[u8])
    ensures
        final(out)@ == old(out)@ + esc_bytes(src@),
{
    let n = src.len();
    let mut i: usize = 0;
    while i < n
        invariant
            n == src@.len(),
            i <= n,
            out@ == old(out)@ + esc_bytes(src@.take(i as int)),
        decreases n - i,
    {
        let b = src[i];
        if b == 0x22 {
            out.push(0x5c);
            out.push(0x22);
        } else if b == 0x5c {
            out.push(0x5c);
            out.push(0x5c);
        } else if b < 0x20 {
            out.push(0x5c);
            out.push(0x75);
            out.push(0x30);
            out.push(0x30);
            out.push(if b / 16 < 10 { 0x30 + b / 16 } else { 0x57 + b / 16 });
            out.push(if b % 16 < 10 { 0x30 + b % 16 } else { 0x57 + b % 16 });
        } else {
            out.push(b);
        }
        proof {
            assert(src@.take(i + 1).drop_last() =~= src@.take(i as int));
            assert(src@.take(i + 1).last() == src@[i as int]);
            assert(out@ =~= old(out)@ + esc_bytes(src@.take(i + 1)));
        }
        i += 1;
    }
    proof {
        assert(src@.take(n as int) =~= src@);
    }
}

/// Appends one entry in the JSON form.
#[verifier::rlimit(50)]
fn push_json_entry(out: &mut Vec<u8>, k: u32, e: &CacheEntry<String>)
    ensures
        final(out)@ == old(out)@ + json_entry(k, *e),
{
    out.push(0x22);
    push_dec(out, k as u64);
    out.push(0x22);
    out.push(0x3a);
    out.push(0x7b);
    out.push(0x22);
    push_value_field(out);
    out.push(0x22);
    out.push(0x3a);
    out.push(0x22);
    push_escaped(out, e.value.as_str().as_bytes());
    out.push(0x22);
    out.push(0x2c);
    out.push(0x22);
    push_creation_field(out);
    out.push(0x22);
    out.push(0x3a);
    push_dec(out, e.creation_time);
    out.push(0x2c);
    out.push(0x22);
    push_accessed_field(out);
    out.push(0x22);
    out.push(0x3a);
    push_dec(out, e.last_accessed_time);
    out.push(0x7d);
    proof {
        assert(out@ =~= old(out)@ + json_entry(k, *e));
    }
}

/// Appends the four little-endian bytes of `n`.
fn push_le_32(out: &mut Vec<u8>, n: u32)
    ensures
        final(out)@ == old(out)@ + le_bytes_32(n),
{
    out.push((n & 0xff) as u8);
    out.push(((n >> 8) & 0xff) as u8);
    out.push(((n >> 16) & 0xff) as u8);
    out.push(((n >> 24) & 0xff) as u8);
    proof {
        assert(out@ =~= old(out)@ + le_bytes_32(n));
    }
}

/// Appends the eight little-endian bytes of `n`.
fn push_le_64(out: &mut Vec<u8>, n: u64)
    ensures
        final(out)@ == old(out)@ + le_bytes_64(n),
{
    out.push((n & 0xff) as u8);
    out.push(((n >> 8) & 0xff) as u8);
    out.push(((n >> 16) & 0xff) as u8);
    out.push(((n >> 24) & 0xff) as u8);
    out.push(((n >> 32) & 0xff) as u8);
    out.push(((n >> 40) & 0xff) as u8);
    out.push(((n >> 48) & 0xff) as u8);
    out.push(((n >> 56) & 0xff) as u8);
    proof {
        assert(out@ =~= old(out)@ + le_bytes_64(n));
    }
}

/// Appends one entry in the binary form.
fn push_bin_entry(out: &mut Vec<u8>, k: u32, e: &CacheEntry<String>)
    ensures
        final(out)@ == old(out)@ + bin_entry(k, *e),
{
    push_le_32(out, k);
    let vb = e.value.as_str().as_bytes();
    push_le_64(out, vb.len() as u64);
    push_bytes(out, vb);
    push_le_64(out, e.creation_time);
    push_le_64(out, e.last_accessed_time);
    proof {
        assert(out@ =~= old(out)@ + bin_entry(k, *e));
    }
}

impl CacheSystem<String> {
    /// Encodes the full entry mapping as a JSON object, in insertion
    /// order. The encoding is total, so this never fails.
    pub fn serialize_json(&self) -> (r: Result<Vec<u8>, SerializeError>)
        ensures
            r matches Ok(v) && v@ == json_doc(self.entries@),
    {
        let mut out: Vec<u8> = Vec::new();
        out.push(0x7b);
        let n = self.entries.len();
        let mut i: usize = 0;
        while i < n
            invariant
                n == self.entries@.len(),
                i <= n,
                out@ == seq![0x7bu8] + json_entries(self.entries@.take(i as int)),
            decreases n - i,
        {
            if i > 0 {
                out.push(0x2c);
            }
            let k = self.entries[i].0;
            push_json_entry(&mut out, k, &self.entries[i].1);
            proof {
                let t = self.entries@.take(i + 1);
                assert(t.drop_last() =~= self.entries@.take(i as int));
                assert(t.last() == self.entries@[i as int]);
                assert(out@ =~= seq![0x7bu8] + json_entries(t));
            }
            i += 1;
        }
        out.push(0x7d);
        proof {
            assert(self.entries@.take(n as int) =~= self.entries@);
            assert(out@ =~= json_doc(self.entries@));
        }
        Ok(out)
    }

    /// Encodes the full entry mapping in the compact binary form, in
    /// insertion order. The encoding is total, so this never fails.
    pub fn serialize_binary(&self) -> (r: Result<Vec<u8>, SerializeError>)
        ensures
            r matches Ok(v) && v@ == bin_doc(self.entries@),
    {
        let mut out: Vec<u8> = Vec::new();
        push_le_64(&mut out, self.entries.len() as u64);
        let n = self.entries.len();
        let mut i: usize = 0;
        while i < n
            invariant
                n == self.entries@.len(),
                i <= n,
                out@ == le_bytes_64(n as u64) + bin_entries(self.entries@.take(i as int)),
            decreases n - i,
        {
            let k = self.entries[i].0;
            push_bin_entry(&mut out, k, &self.entries[i].1);
            proof {
                let t = self.entries@.take(i + 1);
                assert(t.drop_last() =~= self.entries@.take(i as int));
                assert(t.last() == self.entries@[i as int]);
                assert(out@ =~= le_bytes_64(n as u64) + bin_entries(t));
            }
            i += 1;
        }
        proof {
            assert(self.entries@.take(n as int) =~= self.entries@);
            assert(out@ =~= bin_doc(self.entries@));
        }
        Ok(out)
    }
}

/// Relies on `String::from_utf8`: it succeeds exactly on valid UTF-8 input
/// and returns the string whose byte encoding is that input.
#[verifier::external_body]
fn bytes_to_string(b: Vec<u8>) -> (r: Option<String>)
    ensures
        match r {
            Some(s) => vstd::utf8::valid_utf8(b@) && vstd::utf8::encode_utf8(s@) == b@,
            None => !vstd::utf8::valid_utf8(b@),
        },
{
    match String::from_utf8(b) {
        Ok(s) => Some(s),
        Err(_) => None,
    }
}

/// Whether the vector and the slice hold the same bytes.
fn bytes_eq(a: &Vec<u8>, b: &[u8]) -> (r: bool)
    ensures
        r <==> a@ == b@,
{
    let n = a.len();
    if n != b.len() {
        return false;
    }
    let mut i: usize = 0;
    while i < n
        invariant
            n == a@.len(),
            n == b@.len(),
            i <= n,
            forall|j: int| 0 <= j < i ==> a@[j] == b@[j],
        decreases n - i,
    {
        if a[i] != b[i] {
            return false;
        }
        i += 1;
    }
    proof {
        assert(a@ =~= b@);
    }
    true
}

/// Reads one byte; succeeds exactly when that byte stands at `pos`.
fn expect_byte(data: &[u8], pos: usize, b: u8) -> (r: Option<usize>)
    ensures
        r matches Some(p) ==> pos < p <= data@.len() && p == pos + 1,
        pos < data@.len() && data@[pos as int] == b ==> r == Some((pos + 1) as usize),
{
    if pos < data.len() && data[pos] == b {
        Some(pos + 1)
    } else {
        None
    }
}

/// Reads a fixed byte string; succeeds exactly when it stands at `pos`.
fn expect_lit(data: &[u8], pos: usize, lit: &Vec<u8>) -> (r: Option<usize>)
    ensures
        r matches Some(p) ==> pos <= p <= data@.len() && p == pos + lit@.len(),
        pos + lit@.len() <= data@.len() && data@.subrange(pos as int, pos + lit@.len()) == lit@
            ==> r == Some((pos + lit@.len()) as usize),
{
    let n = data.len();
    let m = lit.len();
    if m > n || pos > n - m {
        return None;
    }
    let mut i: usize = 0;
    while i < m
        invariant
            n == data@.len(),
            m == lit@.len(),
            m <= n,
            pos <= n - m,
            i <= m,
        decreases m - i,
    {
        if data[pos + i] != lit[i] {
            proof {
                if pos + m <= n && data@.subrange(pos as int, pos + m) == lit@ {
                    assert(data@.subrange(pos as int, pos + m)[i as int] == data@[pos + i]);
                }
            }
            return None;
        }
        i += 1;
    }
    Some(pos + m)
}

/// The field name `value` as bytes.
fn value_field_bytes() -> (r: Vec<u8>)
    ensures
        r@ == value_field(),
{
    let mut out: Vec<u8> = Vec::new();
    push_value_field(&mut out);
    proof {
        assert(out@ =~= value_field());
    }
    out
}

/// The field name `creation_time` as bytes.
fn creation_field_bytes() -> (r: Vec<u8>)
    ensures
        r@ == creation_field(),
{
    let mut out: Vec<u8> = Vec::new();
    push_creation_field(&mut out);
    proof {
        assert(out@ =~= creation_field());
    }
    out
}

/// The field name `last_accessed_time` as bytes.
fn accessed_field_bytes() -> (r: Vec<u8>)
    ensures
        r@ == accessed_field(),
{
    let mut out: Vec<u8> = Vec::new();
    push_accessed_field(&mut out);
    proof {
        assert(out@ =~= accessed_field());
    }
    out
}

/// Whether the bytes of `data` from `pos` on read as the decimal rendering
/// of `n2` and then a rest that starts with no digit.
pub open spec fn starts_with_number(data: Seq<u8>, pos: int, n2: u64, rest: Seq<u8>) -> bool {
    &&& 0 <= pos <= data.len()
    &&& data.subrange(pos, data.len() as int) == dec_digits(n2 as nat) + rest
    &&& (rest.len() == 0 || !is_digit(rest[0]))
}

/// Reads a decimal number that fits a `u64`. Where the input from `pos` on
/// is a canonical rendering, reading succeeds and returns that number.
fn parse_u64(data: &[u8], pos: usize) -> (r: Option<(u64, usize)>)
    ensures
        r matches Some(t) ==> pos < t.1 <= data@.len(),
        forall|n2: u64, rest: Seq<u8>| #[trigger] starts_with_number(data@, pos as int, n2, rest)
            ==> (r matches Some(t) && t.0 == n2 && t.1 as int == pos + dec_digits(
                n2 as nat,
            ).len()),
{
    let n = data.len();
    if pos >= n {
        proof {
            assert forall|n2: u64, rest: Seq<u8>|
                starts_with_number(data@, pos as int, n2, rest) implies false by {
                lemma_dec_digits_are_digits(n2 as nat);
                assert(data@.subrange(pos as int, n as int).len() == 0);
            }
        }
        return None;
    }
    let mut p = pos;
    let mut val: u64 = 0;
    let mut any = false;
    loop
        invariant
            n == data@.len(),
            pos <= p <= n,
            any ==> pos < p,
            !any ==> p == pos,
            forall|j: int| pos <= j < p ==> is_digit(#[trigger] data@[j]),
            val == num_of(data@.subrange(pos as int, p as int)),
        ensures
            p == n || !is_digit(data@[p as int]),
        decreases n - p,
    {
        if p >= n {
            break;
        }
        let b = data[p];
        if b < 0x30 || b > 0x39 {
            break;
        }
        let d = (b - 0x30) as u64;
        if val > (u64::MAX - d) / 10 {
            proof {
                assert forall|n2: u64, rest: Seq<u8>|
                    starts_with_number(data@, pos as int, n2, rest) implies false by {
                    let j = lemma_digit_run_within(data@, pos as int, p as int, n2, rest);
                    let dd = dec_digits(n2 as nat);
                    assert(data@[p as int] == dd[j]);
                    assert(dd.take(j + 1).drop_last() =~= dd.take(j));
                    assert(dd.take(j + 1).last() == dd[j]);
                    assert(num_of(dd.take(j + 1)) == num_of(dd.take(j)) * 10 + (dd[j] - 0x30));
                    assert(data@.subrange(pos as int, p as int) == dd.take(j));
                    lemma_num_of_dec_prefix(n2 as nat, j + 1);
                    assert(val * 10 + d <= u64::MAX);
                    assert(val <= (u64::MAX - d) / 10) by (nonlinear_arith)
                        requires
                            val * 10 + d <= u64::MAX,
                            0 <= d <= 9,
                    ;
                }
            }
            return None;
        }
        proof {
            assert(val * 10 + d <= u64::MAX) by (nonlinear_arith)
                requires
                    val <= (u64::MAX - d) / 10,
                    d <= 9,
            ;
            assert(data@.subrange(pos as int, p as int + 1).drop_last() =~= data@.subrange(
                pos as int,
                p as int,
            ));
            assert(data@.subrange(pos as int, p as int + 1).last() == data@[p as int]);
        }
        val = val * 10 + d;
        any = true;
        p += 1;
    }
    proof {
        assert forall|n2: u64, rest: Seq<u8>|
            starts_with_number(data@, pos as int, n2, rest)
            implies any && val == n2 && p as int == pos + dec_digits(n2 as nat).len() by {
            let j = lemma_digit_run_within(data@, pos as int, p as int, n2, rest);
            let dd = dec_digits(n2 as nat);
            let big = dd.len() as int;
            lemma_dec_digits_are_digits(n2 as nat);
            assert(data@.subrange(pos as int, n as int).len() == big + rest.len());
            if j < big {
                assert(pos + j < n);
                assert(data@[pos + j] == data@.subrange(pos as int, n as int)[j]);
                assert(data@[pos + j] == (dd + rest)[j]);
                assert(is_digit(data@[pos + j]));
                assert(false);
            }
            assert(data@.subrange(pos as int, p as int) == dd.take(j));
            assert(dd.take(j) =~= dd);
            lemma_num_of_dec_digits(n2 as nat);
        }
    }
    if any {
        Some((val, p))
    } else {
        None
    }
}

/// In a canonical number, the digits read so far lie within the rendering:
/// hands back how many were read, at most the rendering's whole length,
/// with the bytes so far being exactly that prefix.
proof fn lemma_digit_run_within(data: Seq<u8>, pos: int, p: int, n2: u64, rest: Seq<u8>) -> (j:
    int)
    requires
        starts_with_number(data, pos, n2, rest),
        pos <= p <= data.len(),
        forall|j: int| pos <= j < p ==> is_digit(#[trigger] data[j]),
    ensures
        j == p - pos,
        j <= dec_digits(n2 as nat).len(),
        data.subrange(pos, p) == dec_digits(n2 as nat).take(j),
        p < data.len() && is_digit(data[p]) ==> j < dec_digits(n2 as nat).len() && data[p]
            == dec_digits(n2 as nat)[j],
{
    lemma_dec_digits_are_digits(n2 as nat);
    let big = dec_digits(n2 as nat).len() as int;
    let j = p - pos;
    if j > big {
        assert(data[pos + big] == data.subrange(pos, data.len() as int)[big]);
        assert(data[pos + big] == (dec_digits(n2 as nat) + rest)[big]);
        assert(rest.len() > 0 && data[pos + big] == rest[0]);
        assert(is_digit(data[pos + big]));
        assert(false);
    }
    assert forall|i: int| 0 <= i < j implies data.subrange(pos, p)[i] == dec_digits(
        n2 as nat,
    ).take(j)[i] by {
        assert(data[pos + i] == data.subrange(pos, data.len() as int)[i]);
        assert(data[pos + i] == (dec_digits(n2 as nat) + rest)[i]);
    }
    assert(data.subrange(pos, p) =~= dec_digits(n2 as nat).take(j));
    if p < data.len() && is_digit(data[p]) {
        if j == big {
            assert(data[pos + big] == data.subrange(pos, data.len() as int)[big]);
            assert(data[pos + big] == (dec_digits(n2 as nat) + rest)[big]);
            assert(rest.len() > 0 && data[pos + big] == rest[0]);
            assert(false);
        }
        assert(data[pos + j] == data.subrange(pos, data.len() as int)[j]);
        assert(data[pos + j] == (dec_digits(n2 as nat) + rest)[j]);
    }
    j
}

/// Reads a decimal number that fits a `u32`.
fn parse_u32(data: &[u8], pos: usize) -> (r: Option<(u32, usize)>)
    ensures
        r matches Some(t) ==> pos < t.1 <= data@.len(),
        forall|k: u32, rest: Seq<u8>| #[trigger] starts_with_number(
            data@,
            pos as int,
            k as u64,
            rest,
        ) ==> (r matches Some(t) && t.0 == k && t.1 as int == pos + dec_digits(k as nat).len()),
{
    match parse_u64(data, pos) {
        Some((v, p)) => {
            if v > 0xffff_ffff {
                None
            } else {
                Some((v as u32, p))
            }
        }
        None => None,
    }
}

/// The value of one hexadecimal digit.
fn hexval(b: u8) -> (r: Option<u8>)
    ensures
        r matches Some(v) ==> v < 16,
        r == (if 0x30 <= b && b <= 0x39 {
            Some((b - 0x30) as u8)
        } else if 0x61 <= b && b <= 0x66 {
            Some((b - 0x57) as u8)
        } else if 0x41 <= b && b <= 0x46 {
            Some((b - 0x37) as u8)
        } else {
            None
        }),
{
    if 0x30 <= b && b <= 0x39 {
        Some(b - 0x30)
    } else if 0x61 <= b && b <= 0x66 {
        Some(b - 0x57)
    } else if 0x41 <= b && b <= 0x46 {
        Some(b - 0x37)
    } else {
        None
    }
}

/// Whether the bytes of `data` from `pos` on read as an escaped string
/// body whose decoded bytes are `v`, its closing quote, and then `rest`.
pub open spec fn starts_with_string(data: Seq<u8>, pos: int, v: Seq<u8>, rest: Seq<u8>) -> bool {
    &&& 0 <= pos <= data.len()
    &&& data.subrange(pos, data.len() as int) == esc_bytes(v) + seq![0x22u8] + rest
}

/// Reads the body of a JSON string from `pos` (just past the opening
/// quote) through its closing quote, undoing the escapes of [`esc_byte`];
/// returns the raw bytes and the position after the closing quote. Where
/// the input from `pos` on is a canonical escaped string, reading succeeds
/// and returns its decoded bytes.
fn parse_string_bytes(data: &[u8], pos: usize) -> (r: Option<(Vec<u8>, usize)>)
    ensures
        r matches Some(t) ==> pos < t.1 <= data@.len(),
        forall|v: Seq<u8>, rest: Seq<u8>| #[trigger] starts_with_string(
            data@,
            pos as int,
            v,
            rest,
        ) ==> (r matches Some(t) && t.0@ == v && t.1 as int == pos + esc_bytes(v).len() + 1),
{
    let n = data.len();
    if pos >= n {
        proof {
            assert forall|v: Seq<u8>, rest: Seq<u8>|
                starts_with_string(data@, pos as int, v, rest) implies false by {
                crate::laws::lemma_string_align(data@, pos as int, v, rest, 0);
            }
        }
        return None;
    }
    let mut p = pos;
    let mut out: Vec<u8> = Vec::new();
    loop
        invariant
            n == data@.len(),
            pos <= p <= n,
            forall|v: Seq<u8>, rest: Seq<u8>| #[trigger] starts_with_string(
                data@,
                pos as int,
                v,
                rest,
            ) ==> {
                &&& out@.len() <= v.len()
                &&& out@ == v.take(out@.len() as int)
                &&& p as int == pos + esc_bytes(v.take(out@.len() as int)).len()
            },
        decreases n - p,
    {
        if p >= n {
            proof {
                assert forall|v: Seq<u8>, rest: Seq<u8>|
                    starts_with_string(data@, pos as int, v, rest) implies false by {
                    let j = out@.len() as int;
                    crate::laws::lemma_string_align(data@, pos as int, v, rest, j);
                }
            }
            return None;
        }
        let b = data[p];
        if b == 0x22 {
            proof {
                assert forall|v: Seq<u8>, rest: Seq<u8>| #[trigger] starts_with_string(
                    data@,
                    pos as int,
                    v,
                    rest,
                ) implies out@ == v && p + 1 == pos + esc_bytes(v).len() + 1 by {
                    let j = out@.len() as int;
                    crate::laws::lemma_string_align(data@, pos as int, v, rest, j);
                    if j < v.len() {
                        crate::laws::lemma_esc_byte_shape(v[j as int]);
                        assert(data@[p as int] == esc_byte(v[j as int])[0]);
                        assert(false);
                    }
                    assert(v.take(j) =~= v);
                }
            }
            return Some((out, p + 1));
        }
        proof {
            assert forall|v: Seq<u8>, rest: Seq<u8>| #[trigger] starts_with_string(
                data@,
                pos as int,
                v,
                rest,
            ) implies {
                let j = out@.len() as int;
                &&& j < v.len()
                &&& data@[p as int] == esc_byte(v[j])[0]
                &&& (forall|t: int| 0 <= t < esc_byte(v[j]).len() ==> data@[p + t] == esc_byte(
                    v[j],
                )[t])
                &&& p + esc_byte(v[j]).len() + 1 <= n
                &&& esc_bytes(v.take(j + 1)) == esc_bytes(v.take(j)) + esc_byte(v[j])
                &&& v.take(j + 1) == v.take(j).push(v[j])
            } by {
                let j = out@.len() as int;
                crate::laws::lemma_string_align(data@, pos as int, v, rest, j);
                if j == v.len() {
                    assert(data@[p as int] == 0x22);
                    assert(false);
                }
            }
        }
        if b == 0x5c {
            if n - p < 2 {
                proof {
                    assert forall|v: Seq<u8>, rest: Seq<u8>|
                        starts_with_string(data@, pos as int, v, rest) implies false by {
                        let j = out@.len() as int;
                        crate::laws::lemma_esc_byte_shape(v[j]);
                    }
                }
                return None;
            }
            let c = data[p + 1];
            if c == 0x22 || c == 0x5c {
                out.push(c);
                p += 2;
                proof {
                    assert forall|v: Seq<u8>, rest: Seq<u8>| #[trigger] starts_with_string(
                        data@,
                        pos as int,
                        v,
                        rest,
                    ) implies {
                        let m = out@.len() as int;
                        &&& m <= v.len()
                        &&& out@ == v.take(m)
                        &&& p as int == pos + esc_bytes(v.take(m)).len()
                    } by {
                        let j = (out@.len() - 1) as int;
                        crate::laws::lemma_esc_byte_shape(v[j]);
                        assert(data@[p - 2] == esc_byte(v[j])[0]);
                        assert(esc_byte(v[j])[0] == 0x5c);
                        assert(esc_byte(v[j]).len() == 2 || esc_byte(v[j]).len() == 6);
                        assert(data@[p - 1] == esc_byte(v[j])[1]);
                        assert(esc_byte(v[j]).len() == 2);
                        assert(v[j] == c);
                        assert(out@ =~= v.take(j + 1));
                    }
                }
            } else if c == 0x75 {
                if n - p < 6 {
                    proof {
                        assert forall|v: Seq<u8>, rest: Seq<u8>|
                            starts_with_string(data@, pos as int, v, rest) implies false by {
                            let j = out@.len() as int;
                            crate::laws::lemma_esc_byte_shape(v[j]);
                        }
                    }
                    return None;
                }
                if data[p + 2] != 0x30 || data[p + 3] != 0x30 {
                    proof {
                        assert forall|v: Seq<u8>, rest: Seq<u8>|
                            starts_with_string(data@, pos as int, v, rest) implies false by {
                            let j = out@.len() as int;
                            crate::laws::lemma_esc_byte_shape(v[j]);
                        }
                    }
                    return None;
                }
                let h1 = match hexval(data[p + 4]) {
                    Some(h) => h,
                    None => {
                        proof {
                            assert forall|v: Seq<u8>, rest: Seq<u8>|
                                starts_with_string(data@, pos as int, v, rest) implies false by {
                                let j = out@.len() as int;
                                crate::laws::lemma_esc_byte_shape(v[j]);
                            }
                        }
                        return None;
                    }
                };
                let h2 = match hexval(data[p + 5]) {
                    Some(h) => h,
                    None => {
                        proof {
                            assert forall|v: Seq<u8>, rest: Seq<u8>|
                                starts_with_string(data@, pos as int, v, rest) implies false by {
                                let j = out@.len() as int;
                                crate::laws::lemma_esc_byte_shape(v[j]);
                            }
                        }
                        return None;
                    }
                };
                out.push(h1 * 16 + h2);
                p += 6;
                proof {
                    assert forall|v: Seq<u8>, rest: Seq<u8>| #[trigger] starts_with_string(
                        data@,
                        pos as int,
                        v,
                        rest,
                    ) implies {
                        let m = out@.len() as int;
                        &&& m <= v.len()
                        &&& out@ == v.take(m)
                        &&& p as int == pos + esc_bytes(v.take(m)).len()
                    } by {
                        let j = (out@.len() - 1) as int;
                        crate::laws::lemma_esc_byte_shape(v[j]);
                        assert(esc_byte(v[j]).len() == 6);
                        assert(h1 == v[j] / 16 && h2 == v[j] % 16);
                        assert(h1 * 16 + h2 == v[j]);
                        assert(out@ =~= v.take(j + 1));
                    }
                }
            } else {
                proof {
                    assert forall|v: Seq<u8>, rest: Seq<u8>|
                        starts_with_string(data@, pos as int, v, rest) implies false by {
                        let j = out@.len() as int;
                        crate::laws::lemma_esc_byte_shape(v[j]);
                    }
                }
                return None;
            }
        } else {
            out.push(b);
            p += 1;
            proof {
                assert forall|v: Seq<u8>, rest: Seq<u8>| #[trigger] starts_with_string(
                    data@,
                    pos as int,
                    v,
                    rest,
                ) implies {
                    let m = out@.len() as int;
                    &&& m <= v.len()
                    &&& out@ == v.take(m)
                    &&& p as int == pos + esc_bytes(v.take(m)).len()
                } by {
                    let j = (out@.len() - 1) as int;
                    crate::laws::lemma_esc_byte_shape(v[j]);
                    assert(esc_byte(v[j]).len() == 1);
                    assert(v[j] == b);
                    assert(out@ =~= v.take(j + 1));
                }
            }
        }
    }
}


/// Whether the bytes of `data` from `pos` on read as one encoded entry and
/// then `rest`.
pub open spec fn starts_with_entry(
    data: Seq<u8>,
    pos: int,
    k: u32,
    e: CacheEntry<String>,
    rest: Seq<u8>,
) -> bool {
    &&& 0 <= pos <= data.len()
    &&& data.subrange(pos, data.len() as int) == json_entry(k, e) + rest
}

/// Reads one entry of the JSON document: the quoted decimal key, then the
/// object with the `value`, `creation_time` and `last_accessed_time`
/// fields, in that order. Where the input from `pos` on is an encoded
/// entry, reading succeeds and returns its key, value and timestamps.
#[verifier::rlimit(100)]
fn parse_entry(data: &[u8], pos: usize) -> (r: Option<((u32, String, u64, u64), usize)>)
    ensures
        r matches Some(t) ==> pos < t.1 <= data@.len(),
        forall|k: u32, e: CacheEntry<String>, rest: Seq<u8>| #[trigger] starts_with_entry(
            data@,
            pos as int,
            k,
            e,
            rest,
        ) ==> (r matches Some(t) && t.0.0 == k && t.0.1@ == e.value@ && t.0.2 == e.creation_time
            && t.0.3 == e.last_accessed_time && t.1 as int == pos + json_entry(k, e).len()),
{
    proof {
        assert forall|k: u32, e: CacheEntry<String>, rest: Seq<u8>| #[trigger] starts_with_entry(
            data@,
            pos as int,
            k,
            e,
            rest,
        ) implies crate::laws::entry_position_facts(data@, pos as int, k, e, rest) by {
            crate::laws::lemma_entry_positions(data@, pos as int, k, e, rest);
        }
    }
    let p = expect_byte(data, pos, 0x22)?;
    let (key, p) = parse_u32(data, p)?;
    let p = expect_byte(data, p, 0x22)?;
    let p = expect_byte(data, p, 0x3a)?;
    let p = expect_byte(data, p, 0x7b)?;
    let p = expect_byte(data, p, 0x22)?;
    let p = expect_lit(data, p, &value_field_bytes())?;
    let p = expect_byte(data, p, 0x22)?;
    let p = expect_byte(data, p, 0x3a)?;
    let p = expect_byte(data, p, 0x22)?;
    let (raw, p) = parse_string_bytes(data, p)?;
    let value = match bytes_to_string(raw) {
        Some(s) => s,
        None => return None,
    };
    proof {
        vstd::utf8::encode_utf8_decode_utf8(value@);
    }
    let p = expect_byte(data, p, 0x2c)?;
    let p = expect_byte(data, p, 0x22)?;
    let p = expect_lit(data, p, &creation_field_bytes())?;
    let p = expect_byte(data, p, 0x22)?;
    let p = expect_byte(data, p, 0x3a)?;
    let (creation, p) = parse_u64(data, p)?;
    let p = expect_byte(data, p, 0x2c)?;
    let p = expect_byte(data, p, 0x22)?;
    let p = expect_lit(data, p, &accessed_field_bytes())?;
    let p = expect_byte(data, p, 0x22)?;
    let p = expect_byte(data, p, 0x3a)?;
    let (accessed, p) = parse_u64(data, p)?;
    let p = expect_byte(data, p, 0x7d)?;
    Some(((key, value, creation, accessed), p))
}

/// Whether the decoded rows carry the same keys, values and timestamps as
/// the entries, row for row.
pub open spec fn rows_agree(
    rows: Seq<(u32, String, u64, u64)>,
    orig: Seq<(u32, CacheEntry<String>)>,
) -> bool {
    &&& rows.len() == orig.len()
    &&& forall|i: int| 0 <= i < orig.len() ==> {
        &&& (#[trigger] rows[i]).0 == orig[i].0
        &&& rows[i].1@ == orig[i].1.value@
        &&& rows[i].2 == orig[i].1.creation_time
        &&& rows[i].3 == orig[i].1.last_accessed_time
    }
}

/// Reads a whole JSON document into its (key, value, timestamps) rows;
/// nothing may follow the closing brace. Where the input is the document
/// of some entry sequence, reading succeeds with agreeing rows.
fn parse_doc(data: &[u8]) -> (r: Option<Vec<(u32, String, u64, u64)>>)
    ensures
        forall|orig: Seq<(u32, CacheEntry<String>)>| #![trigger json_doc(orig)] json_doc(orig)
            == data@ ==> (r matches Some(rows) && rows_agree(rows@, orig)),
{
    let n = data.len();
    proof {
        assert forall|orig: Seq<(u32, CacheEntry<String>)>| #![trigger json_doc(orig)] json_doc(
            orig,
        ) == data@ implies {
            &&& data@.len() >= 2
            &&& data@[0] == 0x7b
            &&& (orig.len() == 0 ==> data@.len() == 2 && data@[1] == 0x7d)
            &&& (orig.len() >= 1 ==> data@[1] == 0x22 && starts_with_entry(
                data@,
                1,
                orig[0].0,
                orig[0].1,
                crate::laws::comma_entries(orig.skip(1)) + seq![0x7du8],
            ))
        } by {
            crate::laws::lemma_doc_facts(data@, orig);
        }
    }
    let mut p = match expect_byte(data, 0, 0x7b) {
        Some(q) => q,
        None => return None,
    };
    if p < n && data[p] == 0x7d {
        if p + 1 == n {
            return Some(Vec::new());
        } else {
            return None;
        }
    }
    let mut out: Vec<(u32, String, u64, u64)> = Vec::new();
    loop
        invariant
            n == data@.len(),
            0 < p <= n,
            forall|orig: Seq<(u32, CacheEntry<String>)>| #![trigger json_doc(orig)] json_doc(
                orig,
            ) == data@ ==> {
                let m = out@.len() as int;
                &&& m < orig.len()
                &&& rows_agree(out@, orig.take(m))
                &&& starts_with_entry(
                    data@,
                    p as int,
                    orig[m].0,
                    orig[m].1,
                    crate::laws::comma_entries(orig.skip(m + 1)) + seq![0x7du8],
                )
            },
        decreases n - p,
    {
        let (row, p2) = match parse_entry(data, p) {
            Some(t) => t,
            None => return None,
        };
        out.push(row);
        proof {
            assert forall|orig: Seq<(u32, CacheEntry<String>)>| #![trigger json_doc(orig)]
                json_doc(orig) == data@ implies {
                let m = out@.len() as int;
                &&& m <= orig.len()
                &&& rows_agree(out@, orig.take(m))
                &&& p2 as int == p + json_entry(orig[m - 1].0, orig[m - 1].1).len()
                &&& (m == orig.len() ==> p2 + 1 == n && data@[p2 as int] == 0x7d)
                &&& (m < orig.len() ==> p2 + 1 < n && data@[p2 as int] == 0x2c
                    && starts_with_entry(
                    data@,
                    p2 + 1,
                    orig[m].0,
                    orig[m].1,
                    crate::laws::comma_entries(orig.skip(m + 1)) + seq![0x7du8],
                ))
            } by {
                let m = out@.len() - 1;
                crate::laws::lemma_doc_step(data@, p as int, orig, m);
                assert forall|i: int| 0 <= i < out@.len() implies {
                    &&& (#[trigger] out@[i]).0 == orig.take(out@.len() as int)[i].0
                    &&& out@[i].1@ == orig.take(out@.len() as int)[i].1.value@
                    &&& out@[i].2 == orig.take(out@.len() as int)[i].1.creation_time
                    &&& out@[i].3 == orig.take(out@.len() as int)[i].1.last_accessed_time
                } by {
                    if i < out@.len() - 1 {
                        assert(out@[i] == out@.drop_last()[i]);
                        assert(orig.take(m as int)[i] == orig[i]);
                    }
                }
            }
        }
        if p2 < n && data[p2] == 0x2c {
            p = p2 + 1;
        } else {
            let p3 = match expect_byte(data, p2, 0x7d) {
                Some(q) => q,
                None => return None,
            };
            if p3 == n {
                return Some(out);
            } else {
                return None;
            }
        }
    }
}

/// Whether `data` is the document of the entry sequence `orig`, with
/// distinct keys and few enough entries for a store to hold them.
pub open spec fn encodable_doc(data: Seq<u8>, orig: Seq<(u32, CacheEntry<String>)>) -> bool {
    &&& json_doc(orig) == data
    &&& crate::types::keys_of(orig).no_duplicates()
    &&& orig.len() <= 0xffff_ffff
}

impl CacheSystem<String> {
    /// Appends a decoded entry, timestamps included, to a store that does
    /// not yet hold its key and is not yet full; reports whether it did.
    fn restore(&mut self, key: u32, value: String, creation: u64, accessed: u64) -> (ok: bool)
        requires
            old(self).wf(),
        ensures
            final(self).wf(),
            final(self).capacity == old(self).capacity,
            ok <==> (!old(self).contains_key(key) && old(self).num_entries() < old(
                self).capacity),
            !ok ==> final(self).same_state(*old(self)),
            ok ==> {
                &&& final(self).entries@ == old(self).entries@.push(
                    (key, CacheEntry { value, creation_time: creation, last_accessed_time: accessed }))
                &&& final(self).order@ == old(self).order@.push(key)
                &&& final(self).recently_used@ == old(self).recently_used@.push(key)
            },
    {
        if self.entries.len() >= self.capacity as usize {
            return false;
        }
        match Self::find_key(&self.entries, key) {
            Some(i) => {
                proof {
                    assert(self.keys()[i as int] == key);
                    assert(self.keys().contains(key));
                }
                false
            }
            None => {
                self.order.push_back(key);
                self.recently_used.push_back(key);
                self.entries.push(
                    (key, CacheEntry { value, creation_time: creation, last_accessed_time: accessed }),
                );
                proof {
                    assert(self.keys() =~= old(self).keys().push(key));
                    lemma_push_no_dup(old(self).keys(), key);
                    lemma_push_no_dup(old(self).recently_used@, key);
                    assert forall|k: u32| #[trigger] self.recently_used@.contains(k)
                        implies self.keys().contains(k) by {
                        lemma_push_contains(old(self).recently_used@, key, k);
                        lemma_push_contains(old(self).keys(), key, k);
                    }
                    assert forall|k: u32| #[trigger] self.keys().contains(k)
                        implies self.recently_used@.contains(k) by {
                        lemma_push_contains(old(self).recently_used@, key, k);
                        lemma_push_contains(old(self).keys(), key, k);
                    }
                }
                true
            }
        }
    }

    /// Decodes a canonical JSON document into a store.
    ///
    /// The store that comes back re-encodes to exactly the input: its
    /// capacity equals its entry count and both orderings carry the keys
    /// in document order. Decoding succeeds on the document of every entry
    /// sequence with distinct keys that a store can hold, which covers
    /// everything `serialize_json` produces from a well-formed store.
    /// Input that cannot be read as a document fails with
    /// `DeserializeError`; input that reads but is not the canonical
    /// encoding of any store (stray bytes, duplicate keys, non-canonical
    /// numbers or escapes) fails with `InvalidFormat`.
    pub fn deserialize(data: &[u8]) -> (r: Result<CacheSystem<String>, SerializeError>)
        ensures
            r matches Ok(st) ==> {
                &&& st.wf()
                &&& json_doc(st.entries@) == data@
                &&& st.num_entries() == st.capacity
            },
            (exists|orig: Seq<(u32, CacheEntry<String>)>| #[trigger] encodable_doc(data@, orig))
                ==> r is Ok,
    {
        let rows = match parse_doc(data) {
            Some(v) => v,
            None => return Err(SerializeError::DeserializeError),
        };
        let count = rows.len();
        if count > 0xffff_ffff {
            return Err(SerializeError::DeserializeError);
        }
        let mut st = CacheSystem::<String>::new(count as u32);
        let mut i: usize = 0;
        while i < count
            invariant
                count == rows@.len(),
                count <= 0xffff_ffff,
                i <= count,
                st.wf(),
                st.capacity == count as u32,
                st.num_entries() == i,
                forall|orig: Seq<(u32, CacheEntry<String>)>| #[trigger] encodable_doc(data@, orig)
                    ==> rows_agree(rows@, orig),
                forall|j: int| 0 <= j < i ==> {
                    &&& (#[trigger] st.entries@[j]).0 == rows@[j].0
                    &&& st.entries@[j].1.value == rows@[j].1
                    &&& st.entries@[j].1.creation_time == rows@[j].2
                    &&& st.entries@[j].1.last_accessed_time == rows@[j].3
                },
            decreases count - i,
        {
            let key = rows[i].0;
            let value = rows[i].1.clone();
            let creation = rows[i].2;
            let accessed = rows[i].3;
            if !st.restore(key, value, creation, accessed) {
                proof {
                    if exists|orig: Seq<(u32, CacheEntry<String>)>| #[trigger] encodable_doc(
                        data@,
                        orig,
                    ) {
                        let orig = choose|orig: Seq<(u32, CacheEntry<String>)>| #[trigger]
                            encodable_doc(data@, orig);
                        assert(json_doc(orig) == data@);
                        assert(rows_agree(rows@, orig));
                        assert(st.contains_key(key));
                        let j = st.keys().index_of(key);
                        assert(st.keys()[j] == st.entries@[j].0);
                        assert(crate::types::keys_of(orig)[j] == orig[j].0);
                        assert(crate::types::keys_of(orig)[i as int] == orig[i as int].0);
                        assert(orig[j].0 == rows@[j].0);
                        assert(orig[i as int].0 == rows@[i as int].0);
                        assert(false);
                    }
                }
                return Err(SerializeError::InvalidFormat);
            }
            i += 1;
        }
        let enc = match st.serialize_json() {
            Ok(v) => v,
            Err(e) => return Err(e),
        };
        proof {
            if exists|orig: Seq<(u32, CacheEntry<String>)>| #[trigger] encodable_doc(data@, orig) {
                let orig = choose|orig: Seq<(u32, CacheEntry<String>)>| #[trigger] encodable_doc(
                    data@,
                    orig,
                );
                assert(json_doc(orig) == data@);
                assert(rows_agree(rows@, orig));
                assert forall|j: int| 0 <= j < st.entries@.len() implies crate::laws::entry_agrees(
                    #[trigger] st.entries@[j],
                    orig[j],
                ) by {
                    assert(st.entries@[j].1.value@ == rows@[j].1@);
                }
                crate::laws::lemma_json_doc_congruence(st.entries@, orig);
                assert(enc@ == data@);
            }
        }
        if bytes_eq(&enc, data) {
            Ok(st)
        } else {
            Err(SerializeError::InvalidFormat)
        }
    }
}

} // verus!
