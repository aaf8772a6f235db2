//! Canonical binary codec for values.
//!
//! The wire format is self-describing and deterministic: equal logical values
//! always encode to equal byte sequences, because mappings keep their entries
//! in canonical key order. Conflict resolution compares these bytes directly,
//! so the encoding doubles as the total order on values. The decoder accepts
//! canonical input only: a mapping whose keys are out of order is rejected.
//!
//! Layout: every value starts with a one-byte tag. Texts and byte strings are
//! length-prefixed (lengths are 8-byte little-endian); numbers are 16 bytes
//! little-endian; mappings and sequences are a count followed by the items.

use crate::value::{entries_sorted, key_less, key_lt, map_wf, vv_wf, DbValue, ValueMap, ValueView,
    entries_dv, list_dv, lemma_entries_dv, lemma_list_dv, lemma_key_lt_transitive};
use vstd::bytes::{spec_u64_from_le_bytes, spec_u64_to_le_bytes, u64_from_le_bytes,
    u64_to_le_bytes, lemma_auto_spec_u64_to_from_le_bytes, spec_u16_from_le_bytes,
    spec_u16_to_le_bytes, u16_from_le_bytes, u16_to_le_bytes,
    lemma_auto_spec_u16_to_from_le_bytes};
use vstd::prelude::*;
use vstd::slice::{slice_subrange, slice_to_vec};
use vstd::string::StrSliceExecFns;
use vstd::utf8::{decode_utf8, encode_utf8, encode_utf8_decode_utf8, encode_utf8_valid_utf8,
    valid_utf8};

verus! {

pub const TAG_TEXT: u8 = 1;
pub const TAG_NUMBER: u8 = 2;
pub const TAG_BOOLEAN: u8 = 3;
pub const TAG_OBJECT: u8 = 4;
pub const TAG_ARRAY: u8 = 5;
pub const TAG_ABSENT: u8 = 6;

// ---------------------------------------------------------------- integers

pub open spec fn enc_u64(x: u64) -> Seq<u8> {
    spec_u64_to_le_bytes(x)
}

pub open spec fn enc_u16(x: u16) -> Seq<u8> {
    spec_u16_to_le_bytes(x)
}

/// The two's-complement bit pattern of a signed 128-bit number.
pub open spec fn num_bits(n: int) -> u128 {
    (n as i128) as u128
}

pub open spec fn num_lo(n: int) -> u64 {
    (num_bits(n) % 0x1_0000_0000_0000_0000) as u64
}

pub open spec fn num_hi(n: int) -> u64 {
    (num_bits(n) / 0x1_0000_0000_0000_0000) as u64
}

/// A number encodes as its bit pattern, low half first.
pub open spec fn enc_i128(n: int) -> Seq<u8> {
    enc_u64(num_lo(n)) + enc_u64(num_hi(n))
}

/// Reassembles a signed number from the two halves of its bit pattern.
pub open spec fn num_join(lo: u64, hi: u64) -> int {
    (((hi as u128) * 0x1_0000_0000_0000_0000 + lo as u128) as i128) as int
}

pub proof fn lemma_num_join_split(n: int)
    requires
        i128::MIN <= n <= i128::MAX,
    ensures
        num_join(num_lo(n), num_hi(n)) == n,
{
    let x = n as i128;
    let u = num_bits(n);
    assert((x as u128) as i128 == x) by (bit_vector);
    vstd::arithmetic::div_mod::lemma_fundamental_div_mod(u as int, 0x1_0000_0000_0000_0000);
    assert(u / 0x1_0000_0000_0000_0000 < 0x1_0000_0000_0000_0000) by (nonlinear_arith);
    assert((num_hi(n) as u128) * 0x1_0000_0000_0000_0000 + (num_lo(n) as u128) == u);
}

// ------------------------------------------------------------- composites

/// Length-prefixed byte string.
pub open spec fn enc_bytes(b: Seq<u8>) -> Seq<u8> {
    enc_u64(b.len() as u64) + b
}

/// Length-prefixed UTF-8 text.
pub open spec fn enc_chars(s: Seq<char>) -> Seq<u8> {
    enc_bytes(encode_utf8(s))
}

/// Canonical encoding of a value view.
pub open spec fn enc_value(v: ValueView) -> Seq<u8>
    decreases v,
{
    match v {
        ValueView::Text(s) => seq![TAG_TEXT] + enc_chars(s),
        ValueView::Num(n) => seq![TAG_NUMBER] + enc_i128(n),
        ValueView::Flag(b) => seq![TAG_BOOLEAN, if b { 1u8 } else { 0u8 }],
        ValueView::Obj(es) => seq![TAG_OBJECT] + enc_u64(es.len() as u64) + enc_entries(es),
        ValueView::Arr(vs) => seq![TAG_ARRAY] + enc_u64(vs.len() as u64) + enc_items(vs),
        ValueView::Missing => seq![TAG_ABSENT],
    }
}

/// Mapping entries, each a key then a value, in entry order.
pub open spec fn enc_entries(es: Seq<(Seq<char>, ValueView)>) -> Seq<u8>
    decreases es,
{
    if es.len() == 0 {
        Seq::empty()
    } else {
        enc_entries(es.drop_last()) + enc_chars(es.last().0) + enc_value(es.last().1)
    }
}

/// Sequence items in order.
pub open spec fn enc_items(vs: Seq<ValueView>) -> Seq<u8>
    decreases vs,
{
    if vs.len() == 0 {
        Seq::empty()
    } else {
        enc_items(vs.drop_last()) + enc_value(vs.last())
    }
}

/// Values compare by their canonical encodings; this is the "greater" test
/// that conflict resolution uses.
pub open spec fn vv_gt(a: ValueView, b: ValueView) -> bool {
    crate::order::lex_lt(enc_value(b), enc_value(a))
}

// ------------------------------------------------------------ exec encode

/// Appends the bytes of `b` to `out`.
fn append_bytes(out: &mut Vec<u8>, b: &[u8])
    ensures
        final(out)@ == old(out)@ + b@,
{
    let n = b.len();
    let mut i: usize = 0;
    while i < n
        invariant
            n == b@.len(),
            i <= n,
            out@ == old(out)@ + b@.subrange(0, i as int),
        decreases n - i,
    {
        let x = *vstd::slice::slice_index_get(b, i);
        out.push(x);
        proof {
            assert(old(out)@ + b@.subrange(0, i + 1 as int) =~= (old(out)@ + b@.subrange(
                0,
                i as int,
            )).push(b@[i as int]));
        }
        i = i + 1;
    }
    proof {
        assert(b@.subrange(0, n as int) =~= b@);
    }
}

pub fn encode_u64(x: u64, out: &mut Vec<u8>)
    ensures
        final(out)@ == old(out)@ + enc_u64(x),
{
    let mut bs = u64_to_le_bytes(x);
    out.append(&mut bs);
}

pub fn encode_u16(x: u16, out: &mut Vec<u8>)
    ensures
        final(out)@ == old(out)@ + enc_u16(x),
{
    let mut bs = u16_to_le_bytes(x);
    out.append(&mut bs);
}

pub fn encode_byte_str(b: &Vec<u8>, out: &mut Vec<u8>)
    ensures
        final(out)@ == old(out)@ + enc_bytes(b@),
{
    encode_u64(b.len() as u64, out);
    append_bytes(out, b.as_slice());
    proof {
        assert(old(out)@ + enc_u64(b@.len() as u64) + b@ =~= old(out)@ + enc_bytes(b@));
    }
}

pub fn encode_str(s: &str, out: &mut Vec<u8>)
    ensures
        final(out)@ == old(out)@ + enc_chars(s@),
{
    let bs = s.as_bytes_vec();
    encode_byte_str(&bs, out);
}

pub fn encode_i128(x: i128, out: &mut Vec<u8>)
    ensures
        final(out)@ == old(out)@ + enc_i128(x as int),
{
    let u: u128 = x as u128;
    let lo: u64 = (u % 0x1_0000_0000_0000_0000) as u64;
    let hi: u64 = (u / 0x1_0000_0000_0000_0000) as u64;
    proof {
        vstd::arithmetic::div_mod::lemma_fundamental_div_mod(u as int, 0x1_0000_0000_0000_0000);
        assert(lo == num_lo(x as int));
        assert(hi == num_hi(x as int));
    }
    encode_u64(lo, out);
    encode_u64(hi, out);
    proof {
        assert(old(out)@ + enc_u64(num_lo(x as int)) + enc_u64(num_hi(x as int)) =~= old(out)@
            + enc_i128(x as int));
    }
}

/// Writes the canonical encoding of `v` after the bytes already in `out`.
pub fn encode_value(v: &DbValue, out: &mut Vec<u8>)
    ensures
        final(out)@ == old(out)@ + enc_value(v.dv()),
    decreases v,
{
    match v {
        DbValue::Text(s) => {
            out.push(TAG_TEXT);
            encode_str(s.as_str(), out);
            proof {
                assert(old(out)@.push(TAG_TEXT) + enc_chars(s@) =~= old(out)@ + enc_value(
                    v.dv(),
                ));
            }
        },
        DbValue::Number(n) => {
            out.push(TAG_NUMBER);
            encode_i128(*n, out);
            proof {
                assert(old(out)@.push(TAG_NUMBER) + enc_i128(*n as int) =~= old(out)@ + enc_value(
                    v.dv(),
                ));
            }
        },
        DbValue::Boolean(b) => {
            out.push(TAG_BOOLEAN);
            out.push(if *b { 1u8 } else { 0u8 });
            proof {
                assert(old(out)@.push(TAG_BOOLEAN).push(if *b { 1u8 } else { 0u8 }) =~= old(out)@
                    + enc_value(v.dv()));
            }
        },
        DbValue::Object(m) => {
            out.push(TAG_OBJECT);
            encode_u64(m.entries.len() as u64, out);
            encode_entry_list(&m.entries, out);
            proof {
                lemma_entries_dv(m.entries@);
                assert(old(out)@.push(TAG_OBJECT) + enc_u64(m.entries@.len() as u64) + enc_entries(
                    entries_dv(m.entries@),
                ) =~= old(out)@ + enc_value(v.dv()));
            }
        },
        DbValue::Array(a) => {
            out.push(TAG_ARRAY);
            encode_u64(a.len() as u64, out);
            encode_item_list(a, out);
            proof {
                lemma_list_dv(a@);
                assert(old(out)@.push(TAG_ARRAY) + enc_u64(a@.len() as u64) + enc_items(list_dv(a@))
                    =~= old(out)@ + enc_value(v.dv()));
            }
        },
        DbValue::Absent => {
            out.push(TAG_ABSENT);
            proof {
                assert(old(out)@.push(TAG_ABSENT) =~= old(out)@ + enc_value(v.dv()));
            }
        },
    }
}

fn encode_entry_list(es: &Vec<(String, DbValue)>, out: &mut Vec<u8>)
    ensures
        final(out)@ == old(out)@ + enc_entries(entries_dv(es@)),
    decreases es@,
{
    let n = es.len();
    let mut i: usize = 0;
    while i < n
        invariant
            n == es@.len(),
            i <= n,
            out@ == old(out)@ + enc_entries(entries_dv(es@.subrange(0, i as int))),
        decreases n - i,
    {
        encode_str(es[i].0.as_str(), out);
        encode_value(&es[i].1, out);
        proof {
            let pre = es@.subrange(0, i as int);
            let cur = es@.subrange(0, i + 1 as int);
            assert(cur.drop_last() =~= pre);
            assert(cur.last() == es@[i as int]);
            lemma_entries_dv(cur);
            lemma_entries_dv(pre);
            assert(entries_dv(cur).drop_last() =~= entries_dv(pre));
            assert(entries_dv(cur).last() == (es@[i as int].0@, es@[i as int].1.dv()));
            assert(enc_entries(entries_dv(cur)) == enc_entries(entries_dv(pre)) + enc_chars(
                es@[i as int].0@,
            ) + enc_value(es@[i as int].1.dv()));
            assert(old(out)@ + enc_entries(entries_dv(pre)) + enc_chars(es@[i as int].0@)
                + enc_value(es@[i as int].1.dv()) =~= old(out)@ + enc_entries(entries_dv(cur)));
        }
        i = i + 1;
    }
    proof {
        assert(es@.subrange(0, n as int) =~= es@);
    }
}

fn encode_item_list(vs: &Vec<DbValue>, out: &mut Vec<u8>)
    ensures
        final(out)@ == old(out)@ + enc_items(list_dv(vs@)),
    decreases vs@,
{
    let n = vs.len();
    let mut i: usize = 0;
    while i < n
        invariant
            n == vs@.len(),
            i <= n,
            out@ == old(out)@ + enc_items(list_dv(vs@.subrange(0, i as int))),
        decreases n - i,
    {
        encode_value(&vs[i], out);
        proof {
            let pre = vs@.subrange(0, i as int);
            let cur = vs@.subrange(0, i + 1 as int);
            assert(cur.drop_last() =~= pre);
            assert(cur.last() == vs@[i as int]);
            lemma_list_dv(cur);
            lemma_list_dv(pre);
            assert(list_dv(cur).drop_last() =~= list_dv(pre));
            assert(list_dv(cur).last() == vs@[i as int].dv());
            assert(enc_items(list_dv(cur)) == enc_items(list_dv(pre)) + enc_value(
                vs@[i as int].dv(),
            ));
            assert(old(out)@ + enc_items(list_dv(pre)) + enc_value(vs@[i as int].dv()) =~= old(out)@
                + enc_items(list_dv(cur)));
        }
        i = i + 1;
    }
    proof {
        assert(vs@.subrange(0, n as int) =~= vs@);
    }
}

/// Canonical encoding of one value as a fresh byte vector.
pub fn value_bytes(v: &DbValue) -> (r: Vec<u8>)
    ensures
        r@ == enc_value(v.dv()),
{
    let mut out: Vec<u8> = Vec::new();
    encode_value(v, &mut out);
    proof {
        assert(Seq::<u8>::empty() + enc_value(v.dv()) =~= enc_value(v.dv()));
    }
    out
}

/// Is `a` strictly greater than `b` in canonical byte order?
pub fn value_gt(a: &DbValue, b: &DbValue) -> (r: bool)
    ensures
        r == vv_gt(a.dv(), b.dv()),
{
    let ab = value_bytes(a);
    let bb = value_bytes(b);
    crate::order::lex_less(&bb, &ab)
}


// ------------------------------------------------------------- spec decode

pub open spec fn dec_u64(s: Seq<u8>, i: int) -> Option<(u64, int)> {
    if 0 <= i && i + 8 <= s.len() {
        Option::Some((spec_u64_from_le_bytes(s.subrange(i, i + 8)), i + 8))
    } else {
        Option::None
    }
}

pub open spec fn dec_u16(s: Seq<u8>, i: int) -> Option<(u16, int)> {
    if 0 <= i && i + 2 <= s.len() {
        Option::Some((spec_u16_from_le_bytes(s.subrange(i, i + 2)), i + 2))
    } else {
        Option::None
    }
}

pub open spec fn dec_i128(s: Seq<u8>, i: int) -> Option<(int, int)> {
    match dec_u64(s, i) {
        Option::Some((lo, j)) => match dec_u64(s, j) {
            Option::Some((hi, j2)) => Option::Some((num_join(lo, hi), j2)),
            Option::None => Option::None,
        },
        Option::None => Option::None,
    }
}

pub open spec fn dec_bytes(s: Seq<u8>, i: int) -> Option<(Seq<u8>, int)> {
    match dec_u64(s, i) {
        Option::Some((n, j)) => if j + n <= s.len() {
            Option::Some((s.subrange(j, j + n), j + n))
        } else {
            Option::None
        },
        Option::None => Option::None,
    }
}

pub open spec fn dec_chars(s: Seq<u8>, i: int) -> Option<(Seq<char>, int)> {
    match dec_bytes(s, i) {
        Option::Some((b, j)) => if valid_utf8(b) {
            Option::Some((decode_utf8(b), j))
        } else {
            Option::None
        },
        Option::None => Option::None,
    }
}

/// Decodes one value starting at `i`; canonical input only.
pub open spec fn dec_value(s: Seq<u8>, i: int) -> Option<(ValueView, int)>
    decreases s.len() - i, 0int,
{
    if !(0 <= i < s.len()) {
        Option::None
    } else {
        let tag = s[i];
        if tag == TAG_TEXT {
            match dec_chars(s, i + 1) {
                Option::Some((t, j)) => Option::Some((ValueView::Text(t), j)),
                Option::None => Option::None,
            }
        } else if tag == TAG_NUMBER {
            match dec_i128(s, i + 1) {
                Option::Some((n, j)) => Option::Some((ValueView::Num(n), j)),
                Option::None => Option::None,
            }
        } else if tag == TAG_BOOLEAN {
            if i + 2 <= s.len() && (s[i + 1] == 0 || s[i + 1] == 1) {
                Option::Some((ValueView::Flag(s[i + 1] == 1), i + 2))
            } else {
                Option::None
            }
        } else if tag == TAG_OBJECT {
            match dec_u64(s, i + 1) {
                Option::Some((n, j)) => match dec_entries(s, j, n as int) {
                    Option::Some((es, j2)) => if entries_sorted(es) {
                        Option::Some((ValueView::Obj(es), j2))
                    } else {
                        Option::None
                    },
                    Option::None => Option::None,
                },
                Option::None => Option::None,
            }
        } else if tag == TAG_ARRAY {
            match dec_u64(s, i + 1) {
                Option::Some((n, j)) => match dec_items(s, j, n as int) {
                    Option::Some((vs, j2)) => Option::Some((ValueView::Arr(vs), j2)),
                    Option::None => Option::None,
                },
                Option::None => Option::None,
            }
        } else if tag == TAG_ABSENT {
            Option::Some((ValueView::Missing, i + 1))
        } else {
            Option::None
        }
    }
}

/// Decodes `n` key/value entries starting at `i`.
pub open spec fn dec_entries(s: Seq<u8>, i: int, n: int) -> Option<
    (Seq<(Seq<char>, ValueView)>, int),
>
    decreases s.len() - i, n,
{
    if n <= 0 {
        Option::Some((Seq::empty(), i))
    } else {
        match dec_chars(s, i) {
            Option::Some((k, j)) => if j <= i || j > s.len() {
                Option::None
            } else {
                match dec_value(s, j) {
                    Option::Some((v, j2)) => if j2 <= i || j2 > s.len() {
                        Option::None
                    } else {
                        match dec_entries(s, j2, n - 1) {
                            Option::Some((rest, j3)) => Option::Some(
                                (seq![(k, v)] + rest, j3),
                            ),
                            Option::None => Option::None,
                        }
                    },
                    Option::None => Option::None,
                }
            },
            Option::None => Option::None,
        }
    }
}

/// Decodes `n` sequence items starting at `i`.
pub open spec fn dec_items(s: Seq<u8>, i: int, n: int) -> Option<(Seq<ValueView>, int)>
    decreases s.len() - i, n,
{
    if n <= 0 {
        Option::Some((Seq::empty(), i))
    } else {
        match dec_value(s, i) {
            Option::Some((v, j)) => if j <= i || j > s.len() {
                Option::None
            } else {
                match dec_items(s, j, n - 1) {
                    Option::Some((rest, j2)) => Option::Some((seq![v] + rest, j2)),
                    Option::None => Option::None,
                }
            },
            Option::None => Option::None,
        }
    }
}


// ------------------------------------------------- decode-of-encode lemmas

/// Splits knowledge about a two-part subrange into its parts.
pub proof fn lemma_split2(s: Seq<u8>, i: int, a: Seq<u8>, b: Seq<u8>)
    requires
        0 <= i,
        i + a.len() + b.len() <= s.len(),
        s.subrange(i, i + a.len() + b.len()) == a + b,
    ensures
        s.subrange(i, i + a.len()) == a,
        s.subrange(i + a.len(), i + a.len() + b.len()) == b,
{
    let whole = s.subrange(i, i + a.len() + b.len());
    assert(s.subrange(i, i + a.len()) =~= a) by {
        assert forall|k: int| 0 <= k < a.len() implies s.subrange(i, i + a.len())[k] == a[k] by {
            assert(whole[k] == (a + b)[k]);
        }
    }
    assert(s.subrange(i + a.len(), i + a.len() + b.len()) =~= b) by {
        assert forall|k: int|
            0 <= k < b.len() implies s.subrange(i + a.len(), i + a.len() + b.len())[k] == b[k] by {
            assert(whole[a.len() + k] == (a + b)[a.len() + k]);
        }
    }
}

pub proof fn lemma_dec_u64_enc(s: Seq<u8>, i: int, x: u64)
    requires
        0 <= i,
        i + 8 <= s.len(),
        s.subrange(i, i + 8) == enc_u64(x),
    ensures
        dec_u64(s, i) == Option::Some((x, i + 8)),
{
    lemma_auto_spec_u64_to_from_le_bytes();
}

pub proof fn lemma_dec_u16_enc(s: Seq<u8>, i: int, x: u16)
    requires
        0 <= i,
        i + 2 <= s.len(),
        s.subrange(i, i + 2) == enc_u16(x),
    ensures
        dec_u16(s, i) == Option::Some((x, i + 2)),
{
    lemma_auto_spec_u16_to_from_le_bytes();
    assert(spec_u16_to_le_bytes(x).len() == 2);
    assert(s.subrange(i, i + 2) == spec_u16_to_le_bytes(x));
    assert(spec_u16_from_le_bytes(spec_u16_to_le_bytes(x)) == x);
}

pub proof fn lemma_dec_i128_enc(s: Seq<u8>, i: int, n: int)
    requires
        i128::MIN <= n <= i128::MAX,
        0 <= i,
        i + 16 <= s.len(),
        s.subrange(i, i + 16) == enc_i128(n),
    ensures
        dec_i128(s, i) == Option::Some((n, i + 16)),
{
    lemma_auto_spec_u64_to_from_le_bytes();
    lemma_split2(s, i, enc_u64(num_lo(n)), enc_u64(num_hi(n)));
    lemma_dec_u64_enc(s, i, num_lo(n));
    lemma_dec_u64_enc(s, i + 8, num_hi(n));
    lemma_num_join_split(n);
}

pub proof fn lemma_dec_bytes_enc(s: Seq<u8>, i: int, b: Seq<u8>)
    requires
        b.len() < 0x1_0000_0000_0000_0000,
        0 <= i,
        i + 8 + b.len() <= s.len(),
        s.subrange(i, i + 8 + b.len()) == enc_bytes(b),
    ensures
        dec_bytes(s, i) == Option::Some((b, i + 8 + b.len())),
{
    lemma_auto_spec_u64_to_from_le_bytes();
    lemma_split2(s, i, enc_u64(b.len() as u64), b);
    lemma_dec_u64_enc(s, i, b.len() as u64);
}

pub proof fn lemma_dec_chars_enc(s: Seq<u8>, i: int, cs: Seq<char>)
    requires
        encode_utf8(cs).len() < 0x1_0000_0000_0000_0000,
        0 <= i,
        i + 8 + encode_utf8(cs).len() <= s.len(),
        s.subrange(i, i + 8 + encode_utf8(cs).len()) == enc_chars(cs),
    ensures
        dec_chars(s, i) == Option::Some((cs, i + 8 + encode_utf8(cs).len())),
{
    lemma_dec_bytes_enc(s, i, encode_utf8(cs));
    encode_utf8_valid_utf8(cs);
    encode_utf8_decode_utf8(cs);
}

/// Every encoding starts with its tag, so it is never empty.
pub proof fn lemma_enc_value_len(v: ValueView)
    ensures
        enc_value(v).len() >= 1,
        enc_value(v)[0] == match v {
            ValueView::Text(_) => TAG_TEXT,
            ValueView::Num(_) => TAG_NUMBER,
            ValueView::Flag(_) => TAG_BOOLEAN,
            ValueView::Obj(_) => TAG_OBJECT,
            ValueView::Arr(_) => TAG_ARRAY,
            ValueView::Missing => TAG_ABSENT,
        },
{
}

/// Head decomposition of the snoc-style entry encoding.
pub proof fn lemma_enc_entries_cons(es: Seq<(Seq<char>, ValueView)>)
    requires
        es.len() > 0,
    ensures
        enc_entries(es) == enc_chars(es[0].0) + enc_value(es[0].1) + enc_entries(es.drop_first()),
    decreases es.len(),
{
    if es.len() == 1 {
        assert(es.drop_last() =~= Seq::empty());
        assert(es.drop_first() =~= Seq::empty());
        assert(es.last() == es[0]);
        assert(enc_entries(es) =~= enc_chars(es[0].0) + enc_value(es[0].1) + enc_entries(
            es.drop_first(),
        ));
    } else {
        let dl = es.drop_last();
        lemma_enc_entries_cons(dl);
        assert(dl[0] == es[0]);
        assert(es.drop_first().drop_last() =~= dl.drop_first());
        assert(es.drop_first().last() == es.last());
        assert(enc_entries(es.drop_first()) == enc_entries(dl.drop_first()) + enc_chars(
            es.last().0,
        ) + enc_value(es.last().1));
        assert(enc_entries(es) =~= enc_chars(es[0].0) + enc_value(es[0].1) + enc_entries(
            es.drop_first(),
        ));
    }
}

/// Head decomposition of the snoc-style item encoding.
pub proof fn lemma_enc_items_cons(vs: Seq<ValueView>)
    requires
        vs.len() > 0,
    ensures
        enc_items(vs) == enc_value(vs[0]) + enc_items(vs.drop_first()),
    decreases vs.len(),
{
    if vs.len() == 1 {
        assert(vs.drop_last() =~= Seq::empty());
        assert(vs.drop_first() =~= Seq::empty());
        assert(enc_items(vs) =~= enc_value(vs[0]) + enc_items(vs.drop_first()));
    } else {
        let dl = vs.drop_last();
        lemma_enc_items_cons(dl);
        assert(dl[0] == vs[0]);
        assert(vs.drop_first().drop_last() =~= dl.drop_first());
        assert(vs.drop_first().last() == vs.last());
        assert(enc_items(vs.drop_first()) == enc_items(dl.drop_first()) + enc_value(vs.last()));
        assert(enc_items(vs) =~= enc_value(vs[0]) + enc_items(vs.drop_first()));
    }
}

/// All counts in the tree are small enough for their 8-byte length prefixes.
pub open spec fn vv_bounded(v: ValueView) -> bool
    decreases v,
{
    match v {
        ValueView::Text(t) => encode_utf8(t).len() < 0x1_0000_0000_0000_0000,
        ValueView::Num(n) => i128::MIN <= n <= i128::MAX,
        ValueView::Flag(_) => true,
        ValueView::Obj(es) => es.len() < 0x1_0000_0000_0000_0000 && (forall|i: int|
            0 <= i < es.len() ==> encode_utf8(#[trigger] es[i].0).len()
                < 0x1_0000_0000_0000_0000 && vv_bounded(es[i].1)),
        ValueView::Arr(vs) => vs.len() < 0x1_0000_0000_0000_0000 && (forall|i: int|
            0 <= i < vs.len() ==> vv_bounded(#[trigger] vs[i])),
        ValueView::Missing => true,
    }
}

/// Decoding after encoding yields the value back: the round trip for one
/// well-formed, bounded value.
pub proof fn lemma_dec_value_enc(s: Seq<u8>, i: int, v: ValueView)
    requires
        vv_wf(v),
        vv_bounded(v),
        0 <= i,
        i + enc_value(v).len() <= s.len(),
        s.subrange(i, i + enc_value(v).len()) == enc_value(v),
    ensures
        dec_value(s, i) == Option::Some((v, i + enc_value(v).len())),
    decreases v, 0int,
{
    let e = enc_value(v);
    lemma_auto_spec_u64_to_from_le_bytes();
    assert(s[i] == e[0]);
    match v {
        ValueView::Text(t) => {
            lemma_split2(s, i, seq![TAG_TEXT], enc_chars(t));
            lemma_dec_chars_enc(s, i + 1, t);
        },
        ValueView::Num(n) => {
            lemma_auto_spec_u64_to_from_le_bytes();
            lemma_split2(s, i, seq![TAG_NUMBER], enc_i128(n));
            lemma_dec_i128_enc(s, i + 1, n);
        },
        ValueView::Flag(b) => {
            assert(s[i + 1] == e[1]);
        },
        ValueView::Obj(es) => {
            assert(e =~= seq![TAG_OBJECT] + (enc_u64(es.len() as u64) + enc_entries(es)));
            lemma_split2(s, i, seq![TAG_OBJECT], enc_u64(es.len() as u64) + enc_entries(es));
            lemma_split2(s, i + 1, enc_u64(es.len() as u64), enc_entries(es));
            lemma_dec_u64_enc(s, i + 1, es.len() as u64);
            lemma_dec_entries_enc(s, i + 9, es);
        },
        ValueView::Arr(vs) => {
            assert(e =~= seq![TAG_ARRAY] + (enc_u64(vs.len() as u64) + enc_items(vs)));
            lemma_split2(s, i, seq![TAG_ARRAY], enc_u64(vs.len() as u64) + enc_items(vs));
            lemma_split2(s, i + 1, enc_u64(vs.len() as u64), enc_items(vs));
            lemma_dec_u64_enc(s, i + 1, vs.len() as u64);
            lemma_dec_items_enc(s, i + 9, vs);
        },
        ValueView::Missing => {
        },
    }
}

pub proof fn lemma_dec_entries_enc(s: Seq<u8>, i: int, es: Seq<(Seq<char>, ValueView)>)
    requires
        map_wf(es),
        forall|k: int|
            0 <= k < es.len() ==> encode_utf8(#[trigger] es[k].0).len() < 0x1_0000_0000_0000_0000
                && vv_bounded(es[k].1),
        0 <= i,
        i + enc_entries(es).len() <= s.len(),
        s.subrange(i, i + enc_entries(es).len()) == enc_entries(es),
    ensures
        dec_entries(s, i, es.len() as int) == Option::Some((es, i + enc_entries(es).len())),
    decreases es, es.len(),
{
    lemma_auto_spec_u64_to_from_le_bytes();
    if es.len() == 0 {
        assert(es =~= Seq::<(Seq<char>, ValueView)>::empty());
    } else {
        lemma_enc_entries_cons(es);
        let k0 = es[0].0;
        let v0 = es[0].1;
        let ek = enc_chars(k0);
        let ev = enc_value(v0);
        let rest = es.drop_first();
        let erest = enc_entries(rest);
        assert(ek + ev + erest =~= ek + (ev + erest));
        lemma_split2(s, i, ek, ev + erest);
        lemma_split2(s, i + ek.len(), ev, erest);
        lemma_dec_chars_enc(s, i, k0);
        assert(vv_wf(ValueView::Obj(es)));
        assert(vv_wf(v0)) by {
            assert(es[0].1 == v0);
        }
        lemma_dec_value_enc(s, i + ek.len(), v0);
        lemma_enc_value_len(v0);
        assert(map_wf(rest)) by {
            assert(forall|a: int, b: int|
                0 <= a < b < rest.len() ==> rest[a] == es[a + 1] && rest[b] == es[b + 1]);
            assert(forall|a: int| 0 <= a < rest.len() ==> #[trigger] rest[a] == es[a + 1]);
        }
        lemma_dec_entries_enc(s, i + ek.len() + ev.len(), rest);
        assert(seq![(k0, v0)] + rest =~= es);
    }
}

pub proof fn lemma_dec_items_enc(s: Seq<u8>, i: int, vs: Seq<ValueView>)
    requires
        forall|k: int| 0 <= k < vs.len() ==> vv_wf(#[trigger] vs[k]) && vv_bounded(vs[k]),
        0 <= i,
        i + enc_items(vs).len() <= s.len(),
        s.subrange(i, i + enc_items(vs).len()) == enc_items(vs),
    ensures
        dec_items(s, i, vs.len() as int) == Option::Some((vs, i + enc_items(vs).len())),
    decreases vs, vs.len(),
{
    lemma_auto_spec_u64_to_from_le_bytes();
    if vs.len() == 0 {
        assert(vs =~= Seq::<ValueView>::empty());
    } else {
        lemma_enc_items_cons(vs);
        let v0 = vs[0];
        let ev = enc_value(v0);
        let rest = vs.drop_first();
        let erest = enc_items(rest);
        lemma_split2(s, i, ev, erest);
        lemma_dec_value_enc(s, i, v0);
        lemma_enc_value_len(v0);
        assert(forall|a: int| 0 <= a < rest.len() ==> #[trigger] rest[a] == vs[a + 1]);
        lemma_dec_items_enc(s, i + ev.len(), rest);
        assert(seq![v0] + rest =~= vs);
    }
}

/// Whatever the decoder accepts is well formed: mappings come out sorted.
pub proof fn lemma_dec_value_wf(s: Seq<u8>, i: int)
    ensures
        dec_value(s, i) matches Option::Some(p) ==> vv_wf(p.0),
    decreases s.len() - i, 0int,
{
    if 0 <= i < s.len() {
        let tag = s[i];
        if tag == TAG_OBJECT {
            match dec_u64(s, i + 1) {
                Option::Some((n, j)) => {
                    lemma_dec_entries_wf(s, j, n as int);
                },
                Option::None => {},
            }
        } else if tag == TAG_ARRAY {
            match dec_u64(s, i + 1) {
                Option::Some((n, j)) => {
                    lemma_dec_items_wf(s, j, n as int);
                },
                Option::None => {},
            }
        }
    }
}

pub proof fn lemma_dec_entries_wf(s: Seq<u8>, i: int, n: int)
    ensures
        dec_entries(s, i, n) matches Option::Some(p) ==> forall|k: int|
            0 <= k < p.0.len() ==> vv_wf(#[trigger] p.0[k].1),
    decreases s.len() - i, n,
{
    if n > 0 {
        match dec_chars(s, i) {
            Option::Some((k0, j)) => {
                if !(j <= i || j > s.len()) {
                    lemma_dec_value_wf(s, j);
                    match dec_value(s, j) {
                        Option::Some((v, j2)) => {
                            if !(j2 <= i || j2 > s.len()) {
                                lemma_dec_entries_wf(s, j2, n - 1);
                                match dec_entries(s, j2, n - 1) {
                                    Option::Some((rest, j3)) => {
                                        let whole = seq![(k0, v)] + rest;
                                        assert(forall|k: int|
                                            1 <= k < whole.len() ==> #[trigger] whole[k]
                                                == rest[k - 1]);
                                        assert(whole[0] == (k0, v));
                                    },
                                    Option::None => {},
                                }
                            }
                        },
                        Option::None => {},
                    }
                }
            },
            Option::None => {},
        }
    }
}

pub proof fn lemma_dec_items_wf(s: Seq<u8>, i: int, n: int)
    ensures
        dec_items(s, i, n) matches Option::Some(p) ==> forall|k: int|
            0 <= k < p.0.len() ==> vv_wf(#[trigger] p.0[k]),
    decreases s.len() - i, n,
{
    if n > 0 {
        match dec_value(s, i) {
            Option::Some((v, j)) => {
                lemma_dec_value_wf(s, i);
                if !(j <= i || j > s.len()) {
                    lemma_dec_items_wf(s, j, n - 1);
                    match dec_items(s, j, n - 1) {
                        Option::Some((rest, j2)) => {
                            let whole = seq![v] + rest;
                            assert(forall|k: int|
                                1 <= k < whole.len() ==> #[trigger] whole[k] == rest[k - 1]);
                            assert(whole[0] == v);
                        },
                        Option::None => {},
                    }
                }
            },
            Option::None => {},
        }
    }
}


// ------------------------------------------------------------ exec decode

/// Relies on String::from_utf8: it succeeds exactly on valid UTF-8 and
/// returns the string whose bytes are the input.
#[verifier::external_body]
fn string_from_utf8(b: Vec<u8>) -> (r: Option<String>)
    ensures
        match r {
            Option::Some(t) => valid_utf8(b@) && t@ == decode_utf8(b@) && encode_utf8(t@) == b@,
            Option::None => !valid_utf8(b@),
        },
{
    String::from_utf8(b).ok()
}

pub fn decode_u64(s: &Vec<u8>, i: usize) -> (r: Option<(u64, usize)>)
    ensures
        match r {
            Option::Some(p) => dec_u64(s@, i as int) == Option::Some((p.0, p.1 as int)),
            Option::None => dec_u64(s@, i as int) is None,
        },
{
    if i <= s.len() && s.len() - i >= 8 {
        let sub = slice_subrange(s.as_slice(), i, i + 8);
        Option::Some((u64_from_le_bytes(sub), i + 8))
    } else {
        Option::None
    }
}

pub fn decode_u16(s: &Vec<u8>, i: usize) -> (r: Option<(u16, usize)>)
    ensures
        match r {
            Option::Some(p) => dec_u16(s@, i as int) == Option::Some((p.0, p.1 as int)),
            Option::None => dec_u16(s@, i as int) is None,
        },
{
    if i <= s.len() && s.len() - i >= 2 {
        let sub = slice_subrange(s.as_slice(), i, i + 2);
        Option::Some((u16_from_le_bytes(sub), i + 2))
    } else {
        Option::None
    }
}

pub fn decode_byte_str(s: &Vec<u8>, i: usize) -> (r: Option<(Vec<u8>, usize)>)
    ensures
        match r {
            Option::Some(p) => dec_bytes(s@, i as int) == Option::Some((p.0@, p.1 as int)),
            Option::None => dec_bytes(s@, i as int) is None,
        },
{
    match decode_u64(s, i) {
        Option::Some((n, j)) => {
            if n <= (s.len() - j) as u64 {
                let m = n as usize;
                let sub = slice_subrange(s.as_slice(), j, j + m);
                Option::Some((slice_to_vec(sub), j + m))
            } else {
                Option::None
            }
        },
        Option::None => Option::None,
    }
}

pub fn decode_str(s: &Vec<u8>, i: usize) -> (r: Option<(String, usize)>)
    ensures
        match r {
            Option::Some(p) => dec_chars(s@, i as int) == Option::Some((p.0@, p.1 as int)),
            Option::None => dec_chars(s@, i as int) is None,
        },
{
    match decode_byte_str(s, i) {
        Option::Some((b, j)) => match string_from_utf8(b) {
            Option::Some(t) => Option::Some((t, j)),
            Option::None => Option::None,
        },
        Option::None => Option::None,
    }
}

/// Decodes one value; accepts canonical input only.
pub fn decode_value(s: &Vec<u8>, i: usize) -> (r: Option<(DbValue, usize)>)
    ensures
        match r {
            Option::Some(p) => dec_value(s@, i as int) == Option::Some((p.0.dv(), p.1 as int))
                && p.0.wf(),
            Option::None => dec_value(s@, i as int) is None,
        },
    decreases s@.len() - i, 0int,
{
    proof {
        lemma_dec_value_wf(s@, i as int);
    }
    if i >= s.len() {
        return Option::None;
    }
    let tag = s[i];
    if tag == TAG_TEXT {
        match decode_str(s, i + 1) {
            Option::Some((t, j)) => Option::Some((DbValue::Text(t), j)),
            Option::None => Option::None,
        }
    } else if tag == TAG_NUMBER {
        match decode_u64(s, i + 1) {
            Option::Some((lo, j)) => match decode_u64(s, j) {
                Option::Some((hi, j2)) => {
                    proof {
                        vstd::arithmetic::mul::lemma_mul_inequality(
                            hi as int,
                            0xFFFF_FFFF_FFFF_FFFF,
                            0x1_0000_0000_0000_0000,
                        );
                    }
                    let u: u128 = (hi as u128) * 0x1_0000_0000_0000_0000 + (lo as u128);
                    let x: i128 = #[verifier::truncate] (u as i128);
                    Option::Some((DbValue::Number(x), j2))
                },
                Option::None => Option::None,
            },
            Option::None => Option::None,
        }
    } else if tag == TAG_BOOLEAN {
        if i + 1 < s.len() {
            let b = s[i + 1];
            if b == 0 || b == 1 {
                Option::Some((DbValue::Boolean(b == 1), i + 2))
            } else {
                Option::None
            }
        } else {
            Option::None
        }
    } else if tag == TAG_OBJECT {
        match decode_u64(s, i + 1) {
            Option::Some((n, j)) => match decode_entry_list(s, j, n) {
                Option::Some((es, j2)) => {
                    if check_entries_sorted(&es) {
                        Option::Some((DbValue::Object(ValueMap { entries: es }), j2))
                    } else {
                        Option::None
                    }
                },
                Option::None => Option::None,
            },
            Option::None => Option::None,
        }
    } else if tag == TAG_ARRAY {
        match decode_u64(s, i + 1) {
            Option::Some((n, j)) => match decode_item_list(s, j, n) {
                Option::Some((vs, j2)) => Option::Some((DbValue::Array(vs), j2)),
                Option::None => Option::None,
            },
            Option::None => Option::None,
        }
    } else if tag == TAG_ABSENT {
        Option::Some((DbValue::Absent, i + 1))
    } else {
        Option::None
    }
}

fn decode_entry_list(s: &Vec<u8>, i: usize, n: u64) -> (r: Option<(Vec<(String, DbValue)>, usize)>)
    ensures
        match r {
            Option::Some(p) => dec_entries(s@, i as int, n as int) == Option::Some(
                (entries_dv(p.0@), p.1 as int),
            ),
            Option::None => dec_entries(s@, i as int, n as int) is None,
        },
    decreases s@.len() - i, n as int,
{
    let ghost i0 = i as int;
    let ghost n0 = n as int;
    let mut acc: Vec<(String, DbValue)> = Vec::new();
    let mut cur: usize = i;
    let mut rem: u64 = n;
    proof {
        lemma_entries_dv(acc@);
    }
    loop
        invariant
            cur >= i,
            rem <= n,
            i0 == i as int,
            n0 == n as int,
            rem < n ==> cur > i,
            match dec_entries(s@, cur as int, rem as int) {
                Option::Some(p) => dec_entries(s@, i0, n0) == Option::Some(
                    (entries_dv(acc@) + p.0, p.1),
                ),
                Option::None => dec_entries(s@, i0, n0) is None,
            },
        decreases rem,
    {
        if rem == 0 {
            proof {
                assert(dec_entries(s@, cur as int, 0) == Option::Some(
                    (Seq::<(Seq<char>, ValueView)>::empty(), cur as int),
                ));
                assert(entries_dv(acc@) + Seq::<(Seq<char>, ValueView)>::empty() =~= entries_dv(
                    acc@,
                ));
            }
            return Option::Some((acc, cur));
        }
        let k = match decode_str(s, cur) {
            Option::Some(p) => p,
            Option::None => {
                return Option::None;
            },
        };
        let (key, jk) = k;
        if jk <= cur || jk > s.len() {
            return Option::None;
        }
        let v = match decode_value(s, jk) {
            Option::Some(p) => p,
            Option::None => {
                return Option::None;
            },
        };
        let (val, jv) = v;
        if jv <= cur || jv > s.len() {
            return Option::None;
        }
        proof {
            let tail = dec_entries(s@, jv as int, rem - 1);
            match tail {
                Option::Some(p) => {
                    assert(dec_entries(s@, cur as int, rem as int) == Option::Some(
                        (seq![(key@, val.dv())] + p.0, p.1),
                    ));
                    lemma_entries_dv(acc@);
                    lemma_entries_dv(acc@.push((key, val)));
                    assert(entries_dv(acc@.push((key, val))) =~= entries_dv(acc@).push(
                        (key@, val.dv()),
                    ));
                    assert(entries_dv(acc@) + (seq![(key@, val.dv())] + p.0) =~= entries_dv(
                        acc@.push((key, val)),
                    ) + p.0);
                },
                Option::None => {},
            }
        }
        acc.push((key, val));
        cur = jv;
        rem = rem - 1;
    }
}

fn decode_item_list(s: &Vec<u8>, i: usize, n: u64) -> (r: Option<(Vec<DbValue>, usize)>)
    ensures
        match r {
            Option::Some(p) => dec_items(s@, i as int, n as int) == Option::Some(
                (list_dv(p.0@), p.1 as int),
            ),
            Option::None => dec_items(s@, i as int, n as int) is None,
        },
    decreases s@.len() - i, n as int,
{
    let ghost i0 = i as int;
    let ghost n0 = n as int;
    let mut acc: Vec<DbValue> = Vec::new();
    let mut cur: usize = i;
    let mut rem: u64 = n;
    proof {
        lemma_list_dv(acc@);
    }
    loop
        invariant
            cur >= i,
            rem <= n,
            i0 == i as int,
            n0 == n as int,
            rem < n ==> cur > i,
            match dec_items(s@, cur as int, rem as int) {
                Option::Some(p) => dec_items(s@, i0, n0) == Option::Some(
                    (list_dv(acc@) + p.0, p.1),
                ),
                Option::None => dec_items(s@, i0, n0) is None,
            },
        decreases rem,
    {
        if rem == 0 {
            proof {
                assert(dec_items(s@, cur as int, 0) == Option::Some(
                    (Seq::<ValueView>::empty(), cur as int),
                ));
                assert(list_dv(acc@) + Seq::<ValueView>::empty() =~= list_dv(acc@));
            }
            return Option::Some((acc, cur));
        }
        if cur > s.len() {
            return Option::None;
        }
        let v = match decode_value(s, cur) {
            Option::Some(p) => p,
            Option::None => {
                return Option::None;
            },
        };
        let (val, jv) = v;
        if jv <= cur || jv > s.len() {
            return Option::None;
        }
        proof {
            let tail = dec_items(s@, jv as int, rem - 1);
            match tail {
                Option::Some(p) => {
                    assert(dec_items(s@, cur as int, rem as int) == Option::Some(
                        (seq![val.dv()] + p.0, p.1),
                    ));
                    lemma_list_dv(acc@);
                    lemma_list_dv(acc@.push(val));
                    assert(list_dv(acc@.push(val)) =~= list_dv(acc@).push(val.dv()));
                    assert(list_dv(acc@) + (seq![val.dv()] + p.0) =~= list_dv(acc@.push(val))
                        + p.0);
                },
                Option::None => {},
            }
        }
        acc.push(val);
        cur = jv;
        rem = rem - 1;
    }
}

/// Adjacent order carries to every pair by transitivity.
proof fn lemma_key_run(es: Seq<(Seq<char>, ValueView)>, i: int, j: int)
    requires
        forall|k: int| 1 <= k < es.len() ==> key_lt(#[trigger] es[k - 1].0, es[k].0),
        0 <= i < j < es.len(),
    ensures
        key_lt(es[i].0, es[j].0),
    decreases j - i,
{
    if j == i + 1 {
        assert(key_lt(es[j - 1].0, es[j].0));
    } else {
        lemma_key_run(es, i, j - 1);
        assert(key_lt(es[j - 1].0, es[j].0));
        lemma_key_lt_transitive(es[i].0, es[j - 1].0, es[j].0);
    }
}

fn check_entries_sorted(es: &Vec<(String, DbValue)>) -> (r: bool)
    ensures
        r == entries_sorted(entries_dv(es@)),
{
    proof {
        lemma_entries_dv(es@);
    }
    let n = es.len();
    let mut idx: usize = 1;
    while idx < n
        invariant
            n == es@.len(),
            1 <= idx || n == 0,
            idx <= n || n == 0,
            forall|k: int|
                1 <= k < idx ==> key_lt(
                    #[trigger] entries_dv(es@)[k - 1].0,
                    entries_dv(es@)[k].0,
                ),
        decreases n - idx,
    {
        proof {
            lemma_entries_dv(es@);
        }
        if !key_less(es[idx - 1].0.as_str(), es[idx].0.as_str()) {
            proof {
                lemma_entries_dv(es@);
                let dv = entries_dv(es@);
                assert(!key_lt(dv[idx - 1].0, dv[idx as int].0));
                assert(!entries_sorted(dv)) by {
                    if entries_sorted(dv) {
                        assert(key_lt(dv[idx - 1].0, dv[idx as int].0));
                    }
                }
            }
            return false;
        }
        idx = idx + 1;
    }
    proof {
        let dv = entries_dv(es@);
        assert forall|a: int, b: int| 0 <= a < b < dv.len() implies key_lt(dv[a].0, dv[b].0) by {
            lemma_key_run(dv, a, b);
        }
    }
    true
}


// -------------------------------------------------- mapping-field codec

/// A bare mapping field: count, then sorted key/value entries.
pub open spec fn enc_map_field(es: Seq<(Seq<char>, ValueView)>) -> Seq<u8> {
    enc_u64(es.len() as u64) + enc_entries(es)
}

pub open spec fn dec_map_field(s: Seq<u8>, i: int) -> Option<(Seq<(Seq<char>, ValueView)>, int)> {
    match dec_u64(s, i) {
        Option::Some((n, j)) => match dec_entries(s, j, n as int) {
            Option::Some((es, j2)) => if entries_sorted(es) {
                Option::Some((es, j2))
            } else {
                Option::None
            },
            Option::None => Option::None,
        },
        Option::None => Option::None,
    }
}

pub proof fn lemma_dec_map_field_enc(s: Seq<u8>, i: int, es: Seq<(Seq<char>, ValueView)>)
    requires
        map_wf(es),
        vv_bounded(ValueView::Obj(es)),
        0 <= i,
        i + enc_map_field(es).len() <= s.len(),
        s.subrange(i, i + enc_map_field(es).len()) == enc_map_field(es),
    ensures
        dec_map_field(s, i) == Option::Some((es, i + enc_map_field(es).len())),
{
    lemma_auto_spec_u64_to_from_le_bytes();
    lemma_split2(s, i, enc_u64(es.len() as u64), enc_entries(es));
    lemma_dec_u64_enc(s, i, es.len() as u64);
    lemma_dec_entries_enc(s, i + 8, es);
}

pub fn encode_map_field(m: &ValueMap, out: &mut Vec<u8>)
    ensures
        final(out)@ == old(out)@ + enc_map_field(m.dv()),
{
    encode_u64(m.entries.len() as u64, out);
    encode_entry_list(&m.entries, out);
    proof {
        lemma_entries_dv(m.entries@);
        assert(old(out)@ + enc_u64(m.entries@.len() as u64) + enc_entries(m.dv()) =~= old(out)@
            + enc_map_field(m.dv()));
    }
}

pub fn decode_map_field(s: &Vec<u8>, i: usize) -> (r: Option<(ValueMap, usize)>)
    ensures
        match r {
            Option::Some(p) => dec_map_field(s@, i as int) == Option::Some(
                (p.0.dv(), p.1 as int),
            ) && p.0.wf(),
            Option::None => dec_map_field(s@, i as int) is None,
        },
{
    let (n, j) = match decode_u64(s, i) {
        Option::Some(p) => p,
        Option::None => {
            return Option::None;
        },
    };
    let (es, j2) = match decode_entry_list(s, j, n) {
        Option::Some(p) => p,
        Option::None => {
            return Option::None;
        },
    };
    if check_entries_sorted(&es) {
        let m = ValueMap { entries: es };
        proof {
            lemma_dec_entries_wf(s@, j as int, n as int);
        }
        Option::Some((m, j2))
    } else {
        Option::None
    }
}


// ------------------------------------------------------------ order laws

/// The canonical encoding is injective on well-formed, bounded values: equal
/// bytes mean equal values. Together with determinism (the encoding is a
/// function of the view) this is what makes the encoding canonical.
pub proof fn lemma_enc_value_injective(a: ValueView, b: ValueView)
    requires
        vv_wf(a),
        vv_bounded(a),
        vv_wf(b),
        vv_bounded(b),
        enc_value(a) == enc_value(b),
    ensures
        a == b,
{
    let s = enc_value(a);
    assert(s.subrange(0, s.len() as int) =~= s);
    lemma_dec_value_enc(s, 0, a);
    lemma_dec_value_enc(s, 0, b);
}

/// The byte order that conflict resolution uses is a strict total order on
/// well-formed, bounded values: for any two, either one is greater than the
/// other or they are the same value.
pub proof fn lemma_value_order_total(a: ValueView, b: ValueView)
    requires
        vv_wf(a),
        vv_bounded(a),
        vv_wf(b),
        vv_bounded(b),
    ensures
        vv_gt(a, b) || vv_gt(b, a) || a == b,
        !(vv_gt(a, b) && vv_gt(b, a)),
        !vv_gt(a, a),
{
    crate::order::lemma_lex_lt_trichotomy(enc_value(a), enc_value(b));
    crate::order::lemma_lex_lt_asymmetric(enc_value(a), enc_value(b));
    crate::order::lemma_lex_lt_irreflexive(enc_value(a));
    if !vv_gt(a, b) && !vv_gt(b, a) {
        lemma_enc_value_injective(a, b);
    }
}

} // verus!





