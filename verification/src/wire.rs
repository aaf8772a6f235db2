//! Length-prefixed list encodings for the transport protocol.
//!
//! Every list goes to the wire as an 8-byte little-endian count followed by
//! the encodings of its elements in order; the primitives come from the
//! value codec. Each list kind has a specification encoder and decoder, an
//! executable pair proved against them, and a decode-of-encode lemma.

use crate::codec::{dec_bytes, dec_chars, dec_u64, decode_byte_str, decode_str, enc_bytes,
    enc_chars, enc_u64, encode_byte_str, encode_str, encode_u64, lemma_dec_bytes_enc,
    lemma_dec_chars_enc, lemma_dec_u64_enc, lemma_split2};
use vstd::bytes::lemma_auto_spec_u64_to_from_le_bytes;
use vstd::prelude::*;
use vstd::utf8::encode_utf8;

verus! {

// -------------------------------------------------------------- byte lists

pub open spec fn bytes_list_bounded(xs: Seq<Seq<u8>>) -> bool {
    &&& xs.len() < 0x1_0000_0000_0000_0000
    &&& forall|i: int| 0 <= i < xs.len() ==> (#[trigger] xs[i]).len() < 0x1_0000_0000_0000_0000
}

pub open spec fn enc_bytes_list(xs: Seq<Seq<u8>>) -> Seq<u8>
    decreases xs.len(),
{
    if xs.len() == 0 {
        Seq::empty()
    } else {
        enc_bytes_list(xs.drop_last()) + enc_bytes(xs.last())
    }
}

/// Count-prefixed byte-string list.
pub open spec fn enc_bytes_list_field(xs: Seq<Seq<u8>>) -> Seq<u8> {
    enc_u64(xs.len() as u64) + enc_bytes_list(xs)
}

pub open spec fn dec_bytes_list(s: Seq<u8>, i: int, n: int) -> Option<(Seq<Seq<u8>>, int)>
    decreases n,
{
    if n <= 0 {
        Option::Some((Seq::empty(), i))
    } else {
        match dec_bytes(s, i) {
            Option::Some((b, j)) => match dec_bytes_list(s, j, n - 1) {
                Option::Some((rest, j2)) => Option::Some((seq![b] + rest, j2)),
                Option::None => Option::None,
            },
            Option::None => Option::None,
        }
    }
}

pub open spec fn dec_bytes_list_field(s: Seq<u8>, i: int) -> Option<(Seq<Seq<u8>>, int)> {
    match dec_u64(s, i) {
        Option::Some((n, j)) => dec_bytes_list(s, j, n as int),
        Option::None => Option::None,
    }
}

pub proof fn lemma_enc_bytes_list_cons(xs: Seq<Seq<u8>>)
    requires
        xs.len() > 0,
    ensures
        enc_bytes_list(xs) == enc_bytes(xs[0]) + enc_bytes_list(xs.drop_first()),
    decreases xs.len(),
{
    if xs.len() == 1 {
        assert(xs.drop_last() =~= Seq::empty());
        assert(xs.drop_first() =~= Seq::empty());
        assert(enc_bytes_list(xs) =~= enc_bytes(xs[0]) + enc_bytes_list(xs.drop_first()));
    } else {
        let dl = xs.drop_last();
        lemma_enc_bytes_list_cons(dl);
        assert(dl[0] == xs[0]);
        assert(xs.drop_first().drop_last() =~= dl.drop_first());
        assert(xs.drop_first().last() == xs.last());
        assert(enc_bytes_list(xs.drop_first()) == enc_bytes_list(dl.drop_first()) + enc_bytes(
            xs.last(),
        ));
        assert(enc_bytes_list(xs) =~= enc_bytes(xs[0]) + enc_bytes_list(xs.drop_first()));
    }
}

pub proof fn lemma_dec_bytes_list_enc(s: Seq<u8>, i: int, xs: Seq<Seq<u8>>)
    requires
        forall|k: int| 0 <= k < xs.len() ==> (#[trigger] xs[k]).len() < 0x1_0000_0000_0000_0000,
        0 <= i,
        i + enc_bytes_list(xs).len() <= s.len(),
        s.subrange(i, i + enc_bytes_list(xs).len()) == enc_bytes_list(xs),
    ensures
        dec_bytes_list(s, i, xs.len() as int) == Option::Some(
            (xs, i + enc_bytes_list(xs).len()),
        ),
    decreases xs.len(),
{
    lemma_auto_spec_u64_to_from_le_bytes();
    if xs.len() == 0 {
        assert(xs =~= Seq::<Seq<u8>>::empty());
    } else {
        lemma_enc_bytes_list_cons(xs);
        let e0 = enc_bytes(xs[0]);
        let rest = xs.drop_first();
        lemma_split2(s, i, e0, enc_bytes_list(rest));
        lemma_dec_bytes_enc(s, i, xs[0]);
        assert(forall|k: int| 0 <= k < rest.len() ==> #[trigger] rest[k] == xs[k + 1]);
        lemma_dec_bytes_list_enc(s, i + e0.len(), rest);
        assert(seq![xs[0]] + rest =~= xs);
    }
}

pub proof fn lemma_dec_bytes_list_field_enc(s: Seq<u8>, i: int, xs: Seq<Seq<u8>>)
    requires
        bytes_list_bounded(xs),
        0 <= i,
        i + enc_bytes_list_field(xs).len() <= s.len(),
        s.subrange(i, i + enc_bytes_list_field(xs).len()) == enc_bytes_list_field(xs),
    ensures
        dec_bytes_list_field(s, i) == Option::Some((xs, i + enc_bytes_list_field(xs).len())),
{
    lemma_auto_spec_u64_to_from_le_bytes();
    lemma_split2(s, i, enc_u64(xs.len() as u64), enc_bytes_list(xs));
    lemma_dec_u64_enc(s, i, xs.len() as u64);
    lemma_dec_bytes_list_enc(s, i + 8, xs);
}

pub fn encode_bytes_list(v: &Vec<Vec<u8>>, out: &mut Vec<u8>)
    ensures
        final(out)@ == old(out)@ + enc_bytes_list_field(v.deep_view()),
{
    encode_u64(v.len() as u64, out);
    let n = v.len();
    let mut i: usize = 0;
    while i < n
        invariant
            n == v@.len(),
            out@ == old(out)@ + enc_u64(v@.len() as u64) + enc_bytes_list(
                v.deep_view().subrange(0, i as int),
            ),
            i <= n,
        decreases n - i,
    {
        encode_byte_str(&v[i], out);
        proof {
            let pre = v.deep_view().subrange(0, i as int);
            let cur = v.deep_view().subrange(0, i + 1 as int);
            assert(cur.drop_last() =~= pre);
            assert(cur.last() == v.deep_view()[i as int]);
            assert(v.deep_view()[i as int] == v@[i as int].deep_view());
            assert(v@[i as int].deep_view() == v@[i as int]@);
            assert(old(out)@ + enc_u64(v@.len() as u64) + enc_bytes_list(pre) + enc_bytes(
                v@[i as int]@,
            ) =~= old(out)@ + enc_u64(v@.len() as u64) + enc_bytes_list(cur));
        }
        i = i + 1;
    }
    proof {
        assert(v.deep_view().subrange(0, n as int) =~= v.deep_view());
        assert(old(out)@ + enc_u64(v@.len() as u64) + enc_bytes_list(v.deep_view()) =~= old(out)@
            + enc_bytes_list_field(v.deep_view()));
    }
}

pub fn decode_bytes_list(s: &Vec<u8>, i: usize) -> (r: Option<(Vec<Vec<u8>>, usize)>)
    ensures
        match r {
            Option::Some(p) => dec_bytes_list_field(s@, i as int) == Option::Some(
                (p.0.deep_view(), p.1 as int),
            ),
            Option::None => dec_bytes_list_field(s@, i as int) is None,
        },
{
    let (n, j) = match crate::codec::decode_u64(s, i) {
        Option::Some(p) => p,
        Option::None => {
            return Option::None;
        },
    };
    let mut acc: Vec<Vec<u8>> = Vec::new();
    let mut cur: usize = j;
    let mut rem: u64 = n;
    proof {
        assert(acc.deep_view() =~= Seq::<Seq<u8>>::empty());
        match dec_bytes_list(s@, j as int, n as int) {
            Option::Some(p) => {
                assert(acc.deep_view() + p.0 =~= p.0);
            },
            Option::None => {},
        }
    }
    loop
        invariant
            dec_bytes_list_field(s@, i as int) == dec_bytes_list(s@, j as int, n as int),
            match dec_bytes_list(s@, cur as int, rem as int) {
                Option::Some(p) => dec_bytes_list(s@, j as int, n as int) == Option::Some(
                    (acc.deep_view() + p.0, p.1),
                ),
                Option::None => dec_bytes_list(s@, j as int, n as int) is None,
            },
        decreases rem,
    {
        if rem == 0 {
            proof {
                assert(acc.deep_view() + Seq::<Seq<u8>>::empty() =~= acc.deep_view());
            }
            return Option::Some((acc, cur));
        }
        let b = match decode_byte_str(s, cur) {
            Option::Some(p) => p,
            Option::None => {
                return Option::None;
            },
        };
        let (item, jb) = b;
        let ghost prev = acc.deep_view();
        let ghost itemv = item@;
        acc.push(item);
        proof {
            assert(acc.deep_view() =~~= prev.push(itemv));
            match dec_bytes_list(s@, jb as int, rem - 1) {
                Option::Some(p) => {
                    assert(prev + (seq![itemv] + p.0) =~= prev.push(itemv) + p.0);
                },
                Option::None => {},
            }
        }
        cur = jb;
        rem = rem - 1;
    }
}

// ------------------------------------------------------------ string lists

pub open spec fn str_list_bounded(xs: Seq<Seq<char>>) -> bool {
    &&& xs.len() < 0x1_0000_0000_0000_0000
    &&& forall|i: int|
        0 <= i < xs.len() ==> encode_utf8(#[trigger] xs[i]).len() < 0x1_0000_0000_0000_0000
}

pub open spec fn enc_str_list(xs: Seq<Seq<char>>) -> Seq<u8>
    decreases xs.len(),
{
    if xs.len() == 0 {
        Seq::empty()
    } else {
        enc_str_list(xs.drop_last()) + enc_chars(xs.last())
    }
}

/// Count-prefixed text list.
pub open spec fn enc_str_list_field(xs: Seq<Seq<char>>) -> Seq<u8> {
    enc_u64(xs.len() as u64) + enc_str_list(xs)
}

pub open spec fn dec_str_list(s: Seq<u8>, i: int, n: int) -> Option<(Seq<Seq<char>>, int)>
    decreases n,
{
    if n <= 0 {
        Option::Some((Seq::empty(), i))
    } else {
        match dec_chars(s, i) {
            Option::Some((t, j)) => match dec_str_list(s, j, n - 1) {
                Option::Some((rest, j2)) => Option::Some((seq![t] + rest, j2)),
                Option::None => Option::None,
            },
            Option::None => Option::None,
        }
    }
}

pub open spec fn dec_str_list_field(s: Seq<u8>, i: int) -> Option<(Seq<Seq<char>>, int)> {
    match dec_u64(s, i) {
        Option::Some((n, j)) => dec_str_list(s, j, n as int),
        Option::None => Option::None,
    }
}

pub proof fn lemma_enc_str_list_cons(xs: Seq<Seq<char>>)
    requires
        xs.len() > 0,
    ensures
        enc_str_list(xs) == enc_chars(xs[0]) + enc_str_list(xs.drop_first()),
    decreases xs.len(),
{
    if xs.len() == 1 {
        assert(xs.drop_last() =~= Seq::empty());
        assert(xs.drop_first() =~= Seq::empty());
        assert(enc_str_list(xs) =~= enc_chars(xs[0]) + enc_str_list(xs.drop_first()));
    } else {
        let dl = xs.drop_last();
        lemma_enc_str_list_cons(dl);
        assert(dl[0] == xs[0]);
        assert(xs.drop_first().drop_last() =~= dl.drop_first());
        assert(xs.drop_first().last() == xs.last());
        assert(enc_str_list(xs.drop_first()) == enc_str_list(dl.drop_first()) + enc_chars(
            xs.last(),
        ));
        assert(enc_str_list(xs) =~= enc_chars(xs[0]) + enc_str_list(xs.drop_first()));
    }
}

pub proof fn lemma_dec_str_list_enc(s: Seq<u8>, i: int, xs: Seq<Seq<char>>)
    requires
        forall|k: int|
            0 <= k < xs.len() ==> encode_utf8(#[trigger] xs[k]).len() < 0x1_0000_0000_0000_0000,
        0 <= i,
        i + enc_str_list(xs).len() <= s.len(),
        s.subrange(i, i + enc_str_list(xs).len()) == enc_str_list(xs),
    ensures
        dec_str_list(s, i, xs.len() as int) == Option::Some((xs, i + enc_str_list(xs).len())),
    decreases xs.len(),
{
    lemma_auto_spec_u64_to_from_le_bytes();
    if xs.len() == 0 {
        assert(xs =~= Seq::<Seq<char>>::empty());
    } else {
        lemma_enc_str_list_cons(xs);
        let e0 = enc_chars(xs[0]);
        let rest = xs.drop_first();
        lemma_split2(s, i, e0, enc_str_list(rest));
        lemma_dec_chars_enc(s, i, xs[0]);
        assert(forall|k: int| 0 <= k < rest.len() ==> #[trigger] rest[k] == xs[k + 1]);
        lemma_dec_str_list_enc(s, i + e0.len(), rest);
        assert(seq![xs[0]] + rest =~= xs);
    }
}

pub proof fn lemma_dec_str_list_field_enc(s: Seq<u8>, i: int, xs: Seq<Seq<char>>)
    requires
        str_list_bounded(xs),
        0 <= i,
        i + enc_str_list_field(xs).len() <= s.len(),
        s.subrange(i, i + enc_str_list_field(xs).len()) == enc_str_list_field(xs),
    ensures
        dec_str_list_field(s, i) == Option::Some((xs, i + enc_str_list_field(xs).len())),
{
    lemma_auto_spec_u64_to_from_le_bytes();
    lemma_split2(s, i, enc_u64(xs.len() as u64), enc_str_list(xs));
    lemma_dec_u64_enc(s, i, xs.len() as u64);
    lemma_dec_str_list_enc(s, i + 8, xs);
}

pub fn encode_str_list(v: &Vec<String>, out: &mut Vec<u8>)
    ensures
        final(out)@ == old(out)@ + enc_str_list_field(v.deep_view()),
{
    encode_u64(v.len() as u64, out);
    let n = v.len();
    let mut i: usize = 0;
    while i < n
        invariant
            n == v@.len(),
            out@ == old(out)@ + enc_u64(v@.len() as u64) + enc_str_list(
                v.deep_view().subrange(0, i as int),
            ),
            i <= n,
        decreases n - i,
    {
        encode_str(v[i].as_str(), out);
        proof {
            let pre = v.deep_view().subrange(0, i as int);
            let cur = v.deep_view().subrange(0, i + 1 as int);
            assert(cur.drop_last() =~= pre);
            assert(cur.last() == v.deep_view()[i as int]);
            assert(v.deep_view()[i as int] == v@[i as int].deep_view());
            assert(old(out)@ + enc_u64(v@.len() as u64) + enc_str_list(pre) + enc_chars(
                v@[i as int]@,
            ) =~= old(out)@ + enc_u64(v@.len() as u64) + enc_str_list(cur));
        }
        i = i + 1;
    }
    proof {
        assert(v.deep_view().subrange(0, n as int) =~= v.deep_view());
        assert(old(out)@ + enc_u64(v@.len() as u64) + enc_str_list(v.deep_view()) =~= old(out)@
            + enc_str_list_field(v.deep_view()));
    }
}

pub fn decode_str_list(s: &Vec<u8>, i: usize) -> (r: Option<(Vec<String>, usize)>)
    ensures
        match r {
            Option::Some(p) => dec_str_list_field(s@, i as int) == Option::Some(
                (p.0.deep_view(), p.1 as int),
            ),
            Option::None => dec_str_list_field(s@, i as int) is None,
        },
{
    let (n, j) = match crate::codec::decode_u64(s, i) {
        Option::Some(p) => p,
        Option::None => {
            return Option::None;
        },
    };
    let mut acc: Vec<String> = Vec::new();
    let mut cur: usize = j;
    let mut rem: u64 = n;
    proof {
        assert(acc.deep_view() =~= Seq::<Seq<char>>::empty());
        match dec_str_list(s@, j as int, n as int) {
            Option::Some(p) => {
                assert(acc.deep_view() + p.0 =~= p.0);
            },
            Option::None => {},
        }
    }
    loop
        invariant
            dec_str_list_field(s@, i as int) == dec_str_list(s@, j as int, n as int),
            match dec_str_list(s@, cur as int, rem as int) {
                Option::Some(p) => dec_str_list(s@, j as int, n as int) == Option::Some(
                    (acc.deep_view() + p.0, p.1),
                ),
                Option::None => dec_str_list(s@, j as int, n as int) is None,
            },
        decreases rem,
    {
        if rem == 0 {
            proof {
                assert(acc.deep_view() + Seq::<Seq<char>>::empty() =~= acc.deep_view());
            }
            return Option::Some((acc, cur));
        }
        let b = match decode_str(s, cur) {
            Option::Some(p) => p,
            Option::None => {
                return Option::None;
            },
        };
        let (item, jb) = b;
        let ghost prev = acc.deep_view();
        let ghost itemv = item@;
        acc.push(item);
        proof {
            assert(acc.deep_view() =~~= prev.push(itemv));
            match dec_str_list(s@, jb as int, rem - 1) {
                Option::Some(p) => {
                    assert(prev + (seq![itemv] + p.0) =~= prev.push(itemv) + p.0);
                },
                Option::None => {},
            }
        }
        cur = jb;
        rem = rem - 1;
    }
}


// ------------------------------------------------------- nested text lists

pub open spec fn str_list_list_bounded(xs: Seq<Seq<Seq<char>>>) -> bool {
    &&& xs.len() < 0x1_0000_0000_0000_0000
    &&& forall|i: int| 0 <= i < xs.len() ==> str_list_bounded(#[trigger] xs[i])
}

pub open spec fn enc_str_list_list(xs: Seq<Seq<Seq<char>>>) -> Seq<u8>
    decreases xs.len(),
{
    if xs.len() == 0 {
        Seq::empty()
    } else {
        enc_str_list_list(xs.drop_last()) + enc_str_list_field(xs.last())
    }
}

pub open spec fn enc_str_list_list_field(xs: Seq<Seq<Seq<char>>>) -> Seq<u8> {
    enc_u64(xs.len() as u64) + enc_str_list_list(xs)
}

pub open spec fn dec_str_list_list(s: Seq<u8>, i: int, n: int) -> Option<(Seq<Seq<Seq<char>>>, int)>
    decreases n,
{
    if n <= 0 {
        Option::Some((Seq::empty(), i))
    } else {
        match dec_str_list_field(s, i) {
            Option::Some((t, j)) => match dec_str_list_list(s, j, n - 1) {
                Option::Some((rest, j2)) => Option::Some((seq![t] + rest, j2)),
                Option::None => Option::None,
            },
            Option::None => Option::None,
        }
    }
}

pub open spec fn dec_str_list_list_field(s: Seq<u8>, i: int) -> Option<(Seq<Seq<Seq<char>>>, int)> {
    match dec_u64(s, i) {
        Option::Some((n, j)) => dec_str_list_list(s, j, n as int),
        Option::None => Option::None,
    }
}

pub proof fn lemma_enc_str_list_list_cons(xs: Seq<Seq<Seq<char>>>)
    requires
        xs.len() > 0,
    ensures
        enc_str_list_list(xs) == enc_str_list_field(xs[0]) + enc_str_list_list(xs.drop_first()),
    decreases xs.len(),
{
    if xs.len() == 1 {
        assert(xs.drop_last() =~= Seq::empty());
        assert(xs.drop_first() =~= Seq::empty());
        assert(enc_str_list_list(xs) =~= enc_str_list_field(xs[0]) + enc_str_list_list(
            xs.drop_first(),
        ));
    } else {
        let dl = xs.drop_last();
        lemma_enc_str_list_list_cons(dl);
        assert(dl[0] == xs[0]);
        assert(xs.drop_first().drop_last() =~= dl.drop_first());
        assert(xs.drop_first().last() == xs.last());
        assert(enc_str_list_list(xs.drop_first()) == enc_str_list_list(dl.drop_first())
            + enc_str_list_field(xs.last()));
        assert(enc_str_list_list(xs) =~= enc_str_list_field(xs[0]) + enc_str_list_list(
            xs.drop_first(),
        ));
    }
}

pub proof fn lemma_dec_str_list_list_enc(s: Seq<u8>, i: int, xs: Seq<Seq<Seq<char>>>)
    requires
        forall|k: int| 0 <= k < xs.len() ==> str_list_bounded(#[trigger] xs[k]),
        0 <= i,
        i + enc_str_list_list(xs).len() <= s.len(),
        s.subrange(i, i + enc_str_list_list(xs).len()) == enc_str_list_list(xs),
    ensures
        dec_str_list_list(s, i, xs.len() as int) == Option::Some(
            (xs, i + enc_str_list_list(xs).len()),
        ),
    decreases xs.len(),
{
    if xs.len() == 0 {
        assert(xs =~= Seq::<Seq<Seq<char>>>::empty());
    } else {
        lemma_enc_str_list_list_cons(xs);
        let e0 = enc_str_list_field(xs[0]);
        let rest = xs.drop_first();
        lemma_split2(s, i, e0, enc_str_list_list(rest));
        lemma_dec_str_list_field_enc(s, i, xs[0]);
        assert(forall|k: int| 0 <= k < rest.len() ==> #[trigger] rest[k] == xs[k + 1]);
        lemma_dec_str_list_list_enc(s, i + e0.len(), rest);
        assert(seq![xs[0]] + rest =~= xs);
    }
}

pub proof fn lemma_dec_str_list_list_field_enc(s: Seq<u8>, i: int, xs: Seq<Seq<Seq<char>>>)
    requires
        str_list_list_bounded(xs),
        0 <= i,
        i + enc_str_list_list_field(xs).len() <= s.len(),
        s.subrange(i, i + enc_str_list_list_field(xs).len()) == enc_str_list_list_field(xs),
    ensures
        dec_str_list_list_field(s, i) == Option::Some(
            (xs, i + enc_str_list_list_field(xs).len()),
        ),
{
    lemma_auto_spec_u64_to_from_le_bytes();
    lemma_split2(s, i, enc_u64(xs.len() as u64), enc_str_list_list(xs));
    lemma_dec_u64_enc(s, i, xs.len() as u64);
    lemma_dec_str_list_list_enc(s, i + 8, xs);
}

pub fn encode_str_list_list(v: &Vec<Vec<String>>, out: &mut Vec<u8>)
    ensures
        final(out)@ == old(out)@ + enc_str_list_list_field(v.deep_view()),
{
    encode_u64(v.len() as u64, out);
    let n = v.len();
    let mut i: usize = 0;
    while i < n
        invariant
            n == v@.len(),
            out@ == old(out)@ + enc_u64(v@.len() as u64) + enc_str_list_list(
                v.deep_view().subrange(0, i as int),
            ),
            i <= n,
        decreases n - i,
    {
        encode_str_list(&v[i], out);
        proof {
            let pre = v.deep_view().subrange(0, i as int);
            let cur = v.deep_view().subrange(0, i + 1 as int);
            assert(cur.drop_last() =~= pre);
            assert(cur.last() == v.deep_view()[i as int]);
            assert(v.deep_view()[i as int] == v@[i as int].deep_view());
            assert(old(out)@ + enc_u64(v@.len() as u64) + enc_str_list_list(pre)
                + enc_str_list_field(v@[i as int].deep_view()) =~= old(out)@ + enc_u64(
                v@.len() as u64,
            ) + enc_str_list_list(cur));
        }
        i = i + 1;
    }
    proof {
        assert(v.deep_view().subrange(0, n as int) =~= v.deep_view());
        assert(old(out)@ + enc_u64(v@.len() as u64) + enc_str_list_list(v.deep_view()) =~= old(
            out,
        )@ + enc_str_list_list_field(v.deep_view()));
    }
}

pub fn decode_str_list_list(s: &Vec<u8>, i: usize) -> (r: Option<(Vec<Vec<String>>, usize)>)
    ensures
        match r {
            Option::Some(p) => dec_str_list_list_field(s@, i as int) == Option::Some(
                (p.0.deep_view(), p.1 as int),
            ),
            Option::None => dec_str_list_list_field(s@, i as int) is None,
        },
{
    let (n, j) = match crate::codec::decode_u64(s, i) {
        Option::Some(p) => p,
        Option::None => {
            return Option::None;
        },
    };
    let mut acc: Vec<Vec<String>> = Vec::new();
    let mut cur: usize = j;
    let mut rem: u64 = n;
    proof {
        assert(acc.deep_view() =~= Seq::<Seq<Seq<char>>>::empty());
        match dec_str_list_list(s@, j as int, n as int) {
            Option::Some(p) => {
                assert(acc.deep_view() + p.0 =~= p.0);
            },
            Option::None => {},
        }
    }
    loop
        invariant
            dec_str_list_list_field(s@, i as int) == dec_str_list_list(s@, j as int, n as int),
            match dec_str_list_list(s@, cur as int, rem as int) {
                Option::Some(p) => dec_str_list_list(s@, j as int, n as int) == Option::Some(
                    (acc.deep_view() + p.0, p.1),
                ),
                Option::None => dec_str_list_list(s@, j as int, n as int) is None,
            },
        decreases rem,
    {
        if rem == 0 {
            proof {
                assert(acc.deep_view() + Seq::<Seq<Seq<char>>>::empty() =~= acc.deep_view());
            }
            return Option::Some((acc, cur));
        }
        let b = match decode_str_list(s, cur) {
            Option::Some(p) => p,
            Option::None => {
                return Option::None;
            },
        };
        let (item, jb) = b;
        let ghost prev = acc.deep_view();
        let ghost itemv = item.deep_view();
        acc.push(item);
        proof {
            assert(acc.deep_view() =~~= prev.push(itemv));
            match dec_str_list_list(s@, jb as int, rem - 1) {
                Option::Some(p) => {
                    assert(prev + (seq![itemv] + p.0) =~= prev.push(itemv) + p.0);
                },
                Option::None => {},
            }
        }
        cur = jb;
        rem = rem - 1;
    }
}

// -------------------------------------------------------------- peer lists

pub open spec fn peer_list_bounded(xs: Seq<(Seq<u8>, Seq<Seq<u8>>)>) -> bool {
    &&& xs.len() < 0x1_0000_0000_0000_0000
    &&& forall|i: int|
        0 <= i < xs.len() ==> (#[trigger] xs[i]).0.len() < 0x1_0000_0000_0000_0000
            && bytes_list_bounded(xs[i].1)
}

pub open spec fn enc_peer(p: (Seq<u8>, Seq<Seq<u8>>)) -> Seq<u8> {
    enc_bytes(p.0) + enc_bytes_list_field(p.1)
}

pub open spec fn enc_peer_list(xs: Seq<(Seq<u8>, Seq<Seq<u8>>)>) -> Seq<u8>
    decreases xs.len(),
{
    if xs.len() == 0 {
        Seq::empty()
    } else {
        enc_peer_list(xs.drop_last()) + enc_peer(xs.last())
    }
}

pub open spec fn enc_peer_list_field(xs: Seq<(Seq<u8>, Seq<Seq<u8>>)>) -> Seq<u8> {
    enc_u64(xs.len() as u64) + enc_peer_list(xs)
}

pub open spec fn dec_peer_list(s: Seq<u8>, i: int, n: int) -> Option<
    (Seq<(Seq<u8>, Seq<Seq<u8>>)>, int),
>
    decreases n,
{
    if n <= 0 {
        Option::Some((Seq::empty(), i))
    } else {
        match dec_bytes(s, i) {
            Option::Some((key, j)) => match dec_bytes_list_field(s, j) {
                Option::Some((vals, j2)) => match dec_peer_list(s, j2, n - 1) {
                    Option::Some((rest, j3)) => Option::Some((seq![(key, vals)] + rest, j3)),
                    Option::None => Option::None,
                },
                Option::None => Option::None,
            },
            Option::None => Option::None,
        }
    }
}

pub open spec fn dec_peer_list_field(s: Seq<u8>, i: int) -> Option<
    (Seq<(Seq<u8>, Seq<Seq<u8>>)>, int),
> {
    match dec_u64(s, i) {
        Option::Some((n, j)) => dec_peer_list(s, j, n as int),
        Option::None => Option::None,
    }
}

pub proof fn lemma_enc_peer_list_cons(xs: Seq<(Seq<u8>, Seq<Seq<u8>>)>)
    requires
        xs.len() > 0,
    ensures
        enc_peer_list(xs) == enc_peer(xs[0]) + enc_peer_list(xs.drop_first()),
    decreases xs.len(),
{
    if xs.len() == 1 {
        assert(xs.drop_last() =~= Seq::empty());
        assert(xs.drop_first() =~= Seq::empty());
        assert(enc_peer_list(xs) =~= enc_peer(xs[0]) + enc_peer_list(xs.drop_first()));
    } else {
        let dl = xs.drop_last();
        lemma_enc_peer_list_cons(dl);
        assert(dl[0] == xs[0]);
        assert(xs.drop_first().drop_last() =~= dl.drop_first());
        assert(xs.drop_first().last() == xs.last());
        assert(enc_peer_list(xs.drop_first()) == enc_peer_list(dl.drop_first()) + enc_peer(
            xs.last(),
        ));
        assert(enc_peer_list(xs) =~= enc_peer(xs[0]) + enc_peer_list(xs.drop_first()));
    }
}

pub proof fn lemma_dec_peer_list_enc(s: Seq<u8>, i: int, xs: Seq<(Seq<u8>, Seq<Seq<u8>>)>)
    requires
        forall|k: int|
            0 <= k < xs.len() ==> (#[trigger] xs[k]).0.len() < 0x1_0000_0000_0000_0000
                && bytes_list_bounded(xs[k].1),
        0 <= i,
        i + enc_peer_list(xs).len() <= s.len(),
        s.subrange(i, i + enc_peer_list(xs).len()) == enc_peer_list(xs),
    ensures
        dec_peer_list(s, i, xs.len() as int) == Option::Some((xs, i + enc_peer_list(xs).len())),
    decreases xs.len(),
{
    lemma_auto_spec_u64_to_from_le_bytes();
    if xs.len() == 0 {
        assert(xs =~= Seq::<(Seq<u8>, Seq<Seq<u8>>)>::empty());
    } else {
        lemma_enc_peer_list_cons(xs);
        let e0 = enc_peer(xs[0]);
        let rest = xs.drop_first();
        assert(e0 =~= enc_bytes(xs[0].0) + enc_bytes_list_field(xs[0].1));
        lemma_split2(s, i, e0, enc_peer_list(rest));
        lemma_split2(s, i, enc_bytes(xs[0].0), enc_bytes_list_field(xs[0].1));
        lemma_dec_bytes_enc(s, i, xs[0].0);
        lemma_dec_bytes_list_field_enc(s, i + enc_bytes(xs[0].0).len(), xs[0].1);
        assert(forall|k: int| 0 <= k < rest.len() ==> #[trigger] rest[k] == xs[k + 1]);
        lemma_dec_peer_list_enc(s, i + e0.len(), rest);
        assert(seq![xs[0]] + rest =~= xs);
        assert((xs[0].0, xs[0].1) == xs[0]);
    }
}

pub proof fn lemma_dec_peer_list_field_enc(s: Seq<u8>, i: int, xs: Seq<(Seq<u8>, Seq<Seq<u8>>)>)
    requires
        peer_list_bounded(xs),
        0 <= i,
        i + enc_peer_list_field(xs).len() <= s.len(),
        s.subrange(i, i + enc_peer_list_field(xs).len()) == enc_peer_list_field(xs),
    ensures
        dec_peer_list_field(s, i) == Option::Some((xs, i + enc_peer_list_field(xs).len())),
{
    lemma_auto_spec_u64_to_from_le_bytes();
    lemma_split2(s, i, enc_u64(xs.len() as u64), enc_peer_list(xs));
    lemma_dec_u64_enc(s, i, xs.len() as u64);
    lemma_dec_peer_list_enc(s, i + 8, xs);
}

pub fn encode_peer_list(v: &Vec<(Vec<u8>, Vec<Vec<u8>>)>, out: &mut Vec<u8>)
    ensures
        final(out)@ == old(out)@ + enc_peer_list_field(v.deep_view()),
{
    encode_u64(v.len() as u64, out);
    let n = v.len();
    let mut i: usize = 0;
    while i < n
        invariant
            n == v@.len(),
            out@ == old(out)@ + enc_u64(v@.len() as u64) + enc_peer_list(
                v.deep_view().subrange(0, i as int),
            ),
            i <= n,
        decreases n - i,
    {
        encode_byte_str(&v[i].0, out);
        encode_bytes_list(&v[i].1, out);
        proof {
            let pre = v.deep_view().subrange(0, i as int);
            let cur = v.deep_view().subrange(0, i + 1 as int);
            assert(cur.drop_last() =~= pre);
            assert(cur.last() == v.deep_view()[i as int]);
            assert(v.deep_view()[i as int] == v@[i as int].deep_view());
            assert(v@[i as int].deep_view() == (v@[i as int].0.deep_view(), v@[
                i as int
            ].1.deep_view()));
            assert(v@[i as int].0.deep_view() =~= v@[i as int].0@);
            assert(old(out)@ + enc_u64(v@.len() as u64) + enc_peer_list(pre) + enc_bytes(
                v@[i as int].0@,
            ) + enc_bytes_list_field(v@[i as int].1.deep_view()) =~= old(out)@ + enc_u64(
                v@.len() as u64,
            ) + enc_peer_list(cur));
        }
        i = i + 1;
    }
    proof {
        assert(v.deep_view().subrange(0, n as int) =~= v.deep_view());
        assert(old(out)@ + enc_u64(v@.len() as u64) + enc_peer_list(v.deep_view()) =~= old(out)@
            + enc_peer_list_field(v.deep_view()));
    }
}

pub fn decode_peer_list(s: &Vec<u8>, i: usize) -> (r: Option<(Vec<(Vec<u8>, Vec<Vec<u8>>)>, usize)>)
    ensures
        match r {
            Option::Some(p) => dec_peer_list_field(s@, i as int) == Option::Some(
                (p.0.deep_view(), p.1 as int),
            ),
            Option::None => dec_peer_list_field(s@, i as int) is None,
        },
{
    let (n, j) = match crate::codec::decode_u64(s, i) {
        Option::Some(p) => p,
        Option::None => {
            return Option::None;
        },
    };
    let mut acc: Vec<(Vec<u8>, Vec<Vec<u8>>)> = Vec::new();
    let mut cur: usize = j;
    let mut rem: u64 = n;
    proof {
        assert(acc.deep_view() =~= Seq::<(Seq<u8>, Seq<Seq<u8>>)>::empty());
        match dec_peer_list(s@, j as int, n as int) {
            Option::Some(p) => {
                assert(acc.deep_view() + p.0 =~= p.0);
            },
            Option::None => {},
        }
    }
    loop
        invariant
            dec_peer_list_field(s@, i as int) == dec_peer_list(s@, j as int, n as int),
            match dec_peer_list(s@, cur as int, rem as int) {
                Option::Some(p) => dec_peer_list(s@, j as int, n as int) == Option::Some(
                    (acc.deep_view() + p.0, p.1),
                ),
                Option::None => dec_peer_list(s@, j as int, n as int) is None,
            },
        decreases rem,
    {
        if rem == 0 {
            proof {
                assert(acc.deep_view() + Seq::<(Seq<u8>, Seq<Seq<u8>>)>::empty()
                    =~= acc.deep_view());
            }
            return Option::Some((acc, cur));
        }
        let b = match decode_byte_str(s, cur) {
            Option::Some(p) => p,
            Option::None => {
                return Option::None;
            },
        };
        let (key, jk) = b;
        let b2 = match decode_bytes_list(s, jk) {
            Option::Some(p) => p,
            Option::None => {
                return Option::None;
            },
        };
        let (vals, jv) = b2;
        let ghost prev = acc.deep_view();
        let ghost itemv = (key@, vals.deep_view());
        acc.push((key, vals));
        proof {
            assert(acc.deep_view() =~~= prev.push(itemv));
            match dec_peer_list(s@, jv as int, rem - 1) {
                Option::Some(p) => {
                    assert(prev + (seq![itemv] + p.0) =~= prev.push(itemv) + p.0);
                },
                Option::None => {},
            }
        }
        cur = jv;
        rem = rem - 1;
    }
}

} // verus!

