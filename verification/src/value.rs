//! The replicated value model.
//!
//! A value is a finite tagged tree; a mapping keeps its entries sorted by the
//! UTF-8 bytes of their keys, so that equal logical mappings always have equal
//! canonical encodings. Specifications speak about values through their deep
//! views: `ValueView` for a value, a sequence of key/view pairs for a mapping.

use crate::order::{lemma_lex_lt_irreflexive, lemma_lex_lt_transitive, lemma_lex_lt_trichotomy,
    lex_less, lex_lt};
use vstd::prelude::*;
use vstd::utf8::{encode_utf8, encode_utf8_decode_utf8};

verus! {

/// Deep view of a value: the mathematical tree that contracts speak about.
pub enum ValueView {
    Text(Seq<char>),
    Num(int),
    Flag(bool),
    Obj(Seq<(Seq<char>, ValueView)>),
    Arr(Seq<ValueView>),
    Missing,
}

/// Strict order on mapping keys: lexicographic on their UTF-8 bytes.
pub open spec fn key_lt(a: Seq<char>, b: Seq<char>) -> bool {
    lex_lt(encode_utf8(a), encode_utf8(b))
}

pub proof fn lemma_key_lt_irreflexive(a: Seq<char>)
    ensures
        !key_lt(a, a),
{
    lemma_lex_lt_irreflexive(encode_utf8(a));
}

pub proof fn lemma_key_lt_transitive(a: Seq<char>, b: Seq<char>, c: Seq<char>)
    requires
        key_lt(a, b),
        key_lt(b, c),
    ensures
        key_lt(a, c),
{
    lemma_lex_lt_transitive(encode_utf8(a), encode_utf8(b), encode_utf8(c));
}

/// Keys that neither precede nor follow each other are equal.
pub proof fn lemma_key_order_total(a: Seq<char>, b: Seq<char>)
    ensures
        key_lt(a, b) || key_lt(b, a) || a == b,
{
    lemma_lex_lt_trichotomy(encode_utf8(a), encode_utf8(b));
    if !key_lt(a, b) && !key_lt(b, a) {
        encode_utf8_decode_utf8(a);
        encode_utf8_decode_utf8(b);
    }
}

/// Entries of a mapping stand in strictly increasing key order.
pub open spec fn entries_sorted(es: Seq<(Seq<char>, ValueView)>) -> bool {
    forall|i: int, j: int| 0 <= i < j < es.len() ==> key_lt(es[i].0, es[j].0)
}

/// Well-formed view: every mapping in the tree keeps its entries sorted.
pub open spec fn vv_wf(v: ValueView) -> bool
    decreases v,
{
    match v {
        ValueView::Obj(es) => entries_sorted(es) && (forall|i: int|
            0 <= i < es.len() ==> vv_wf(#[trigger] es[i].1)),
        ValueView::Arr(vs) => forall|i: int| 0 <= i < vs.len() ==> vv_wf(#[trigger] vs[i]),
        _ => true,
    }
}

/// Well-formed mapping view.
pub open spec fn map_wf(es: Seq<(Seq<char>, ValueView)>) -> bool {
    vv_wf(ValueView::Obj(es))
}

/// The value a mapping view holds at a key, if any.
pub open spec fn oget(es: Seq<(Seq<char>, ValueView)>, k: Seq<char>) -> Option<ValueView>
    decreases es.len(),
{
    if es.len() == 0 {
        Option::None
    } else if es[0].0 == k {
        Option::Some(es[0].1)
    } else {
        oget(es.drop_first(), k)
    }
}

/// A replicated value: a tagged tree ordered by its canonical encoding.
#[derive(Debug, PartialEq, Eq)]
pub enum DbValue {
    Text(String),
    Number(i128),
    Boolean(bool),
    Object(ValueMap),
    Array(Vec<DbValue>),
    Absent,
}

/// A mapping from string keys to values, entries sorted by key bytes.
#[derive(Debug, PartialEq, Eq)]
pub struct ValueMap {
    /// Entries in strictly increasing key order; keep `wf` when changing them.
    pub entries: Vec<(String, DbValue)>,
}

/// Deep view of a sequence of concrete entries.
pub open spec fn entries_dv(es: Seq<(String, DbValue)>) -> Seq<(Seq<char>, ValueView)>
    decreases es,
{
    if es.len() == 0 {
        Seq::empty()
    } else {
        entries_dv(es.drop_last()).push((es.last().0@, es.last().1.dv()))
    }
}

/// Deep view of a sequence of concrete values.
pub open spec fn list_dv(vs: Seq<DbValue>) -> Seq<ValueView>
    decreases vs,
{
    if vs.len() == 0 {
        Seq::empty()
    } else {
        list_dv(vs.drop_last()).push(vs.last().dv())
    }
}

pub proof fn lemma_entries_dv(es: Seq<(String, DbValue)>)
    ensures
        entries_dv(es).len() == es.len(),
        forall|i: int|
            0 <= i < es.len() ==> #[trigger] entries_dv(es)[i] == (es[i].0@, es[i].1.dv()),
    decreases es.len(),
{
    if es.len() > 0 {
        lemma_entries_dv(es.drop_last());
    }
}

pub proof fn lemma_list_dv(vs: Seq<DbValue>)
    ensures
        list_dv(vs).len() == vs.len(),
        forall|i: int| 0 <= i < vs.len() ==> #[trigger] list_dv(vs)[i] == vs[i].dv(),
    decreases vs.len(),
{
    if vs.len() > 0 {
        lemma_list_dv(vs.drop_last());
    }
}

impl DbValue {
    /// Deep view of this value.
    pub open spec fn dv(self) -> ValueView
        decreases self,
    {
        match self {
            DbValue::Text(s) => ValueView::Text(s@),
            DbValue::Number(n) => ValueView::Num(n as int),
            DbValue::Boolean(b) => ValueView::Flag(b),
            DbValue::Object(m) => ValueView::Obj(entries_dv(m.entries@)),
            DbValue::Array(a) => ValueView::Arr(list_dv(a@)),
            DbValue::Absent => ValueView::Missing,
        }
    }

    /// Well-formedness: every mapping in the tree keeps sorted entries.
    pub open spec fn wf(self) -> bool {
        vv_wf(self.dv())
    }
}

impl ValueMap {
    /// Deep view: the sequence of key/value views, in entry order.
    pub open spec fn dv(self) -> Seq<(Seq<char>, ValueView)> {
        entries_dv(self.entries@)
    }

    pub open spec fn wf(self) -> bool {
        map_wf(self.dv())
    }

    pub open spec fn spec_len(self) -> nat {
        self.entries@.len()
    }

    /// An empty mapping.
    pub fn new() -> (r: ValueMap)
        ensures
            r.dv() =~= Seq::<(Seq<char>, ValueView)>::empty(),
            r.wf(),
    {
        let r = ValueMap { entries: Vec::new() };
        proof {
            assert(r.dv() =~= Seq::<(Seq<char>, ValueView)>::empty());
        }
        r
    }

    pub fn len(&self) -> (r: usize)
        ensures
            r == self.spec_len(),
    {
        self.entries.len()
    }

    /// Index of the entry that holds `key`, if any.
    fn find_idx(&self, key: &str) -> (r: Option<usize>)
        ensures
            match r {
                Option::Some(i) => i < self.dv().len() && self.dv()[i as int].0 == key@ && (
                forall|j: int| 0 <= j < i ==> self.dv()[j].0 != key@),
                Option::None => forall|j: int| 0 <= j < self.dv().len() ==> self.dv()[j].0 != key@,
            },
    {
        proof {
            lemma_entries_dv(self.entries@);
        }
        let n = self.entries.len();
        let mut i: usize = 0;
        while i < n
            invariant
                n == self.dv().len(),
                n == self.entries@.len(),
                i <= n,
                forall|j: int| 0 <= j < i ==> self.dv()[j].0 != key@,
            decreases n - i,
        {
            proof {
                lemma_entries_dv(self.entries@);
            }
            if keys_equal(self.entries[i].0.as_str(), key) {
                return Option::Some(i);
            }
            i = i + 1;
        }
        Option::None
    }

    /// The value stored under `key`, if any.
    pub fn get(&self, key: &str) -> (r: Option<&DbValue>)
        ensures
            match r {
                Option::Some(v) => oget(self.dv(), key@) == Option::Some(v.dv()),
                Option::None => oget(self.dv(), key@) is None,
            },
    {
        match self.find_idx(key) {
            Option::Some(i) => {
                proof {
                    lemma_entries_dv(self.entries@);
                    lemma_oget_at(self.dv(), key@, i as int);
                }
                Option::Some(&self.entries[i].1)
            },
            Option::None => {
                proof {
                    lemma_oget_absent(self.dv(), key@);
                }
                Option::None
            },
        }
    }

    /// Stores `value` under `key`, replacing any earlier value.
    pub fn insert(&mut self, key: String, value: DbValue)
        requires
            old(self).wf(),
            value.wf(),
        ensures
            final(self).wf(),
            oget(final(self).dv(), key@) == Option::Some(value.dv()),
            forall|k: Seq<char>|
                k != key@ ==> oget(final(self).dv(), k) == oget(old(self).dv(), k),
            final(self).spec_len() == old(self).spec_len() + (if oget(old(self).dv(), key@)
                is Some {
                0int
            } else {
                1int
            }),
    {
        proof {
            lemma_entries_dv(self.entries@);
        }
        let ghost old_dv = self.dv();
        let n = self.entries.len();
        let mut i: usize = 0;
        while i < n && key_less(self.entries[i].0.as_str(), key.as_str())
            invariant
                *self == *old(self),
                n == self.dv().len(),
                n == self.entries@.len(),
                i <= n,
                forall|j: int| 0 <= j < i ==> key_lt(#[trigger] self.dv()[j].0, key@),
            decreases n - i,
        {
            proof {
                lemma_entries_dv(self.entries@);
            }
            i = i + 1;
        }
        if i < n && keys_equal(self.entries[i].0.as_str(), key.as_str()) {
            // Same key: replace the value in place.
            self.entries.remove(i);
            self.entries.insert(i, (key, value));
            proof {
                lemma_entries_dv(old(self).entries@);
                lemma_entries_dv(self.entries@);
                assert(self.dv() =~= old_dv.update(i as int, (old_dv[i as int].0, value.dv())));
                lemma_sorted_update(old_dv, i as int, value.dv());
                assert forall|j: int| 0 <= j < i implies old_dv[j].0 != old_dv[i as int].0 by {
                    if old_dv[j].0 == old_dv[i as int].0 {
                        lemma_key_lt_irreflexive(old_dv[j].0);
                    }
                }
                lemma_oget_update(old_dv, i as int, value.dv());
                lemma_oget_at(old_dv, key@, i as int);
                assert forall|ii: int| 0 <= ii < self.dv().len() implies vv_wf(
                    #[trigger] self.dv()[ii].1,
                ) by {
                    if ii != i {
                        assert(self.dv()[ii] == old_dv[ii]);
                    }
                }
            }
        } else {
            // New key: it stands between the scanned prefix and the rest.
            proof {
                lemma_entries_dv(self.entries@);
                if i < n {
                    lemma_key_order_total(old_dv[i as int].0, key@);
                }
                assert forall|j: int| i <= j < n implies key_lt(
                    key@,
                    #[trigger] old_dv[j].0,
                ) by {
                    if j > i {
                        lemma_key_lt_transitive(key@, old_dv[i as int].0, old_dv[j].0);
                    }
                }
            }
            self.entries.insert(i, (key, value));
            proof {
                lemma_entries_dv(old(self).entries@);
                lemma_entries_dv(self.entries@);
                assert(self.dv() =~= old_dv.insert(i as int, (key@, value.dv())));
                lemma_sorted_insert(old_dv, i as int, key@, value.dv());
                assert forall|j: int| 0 <= j < i implies old_dv[j].0 != key@ by {
                    if old_dv[j].0 == key@ {
                        lemma_key_lt_irreflexive(key@);
                    }
                }
                lemma_oget_insert(old_dv, i as int, key@, value.dv());
                assert forall|j: int| 0 <= j < old_dv.len() implies old_dv[j].0 != key@ by {
                    if j >= i {
                        lemma_key_lt_irreflexive(key@);
                    }
                }
                lemma_oget_absent(old_dv, key@);
                assert forall|ii: int| 0 <= ii < self.dv().len() implies vv_wf(
                    #[trigger] self.dv()[ii].1,
                ) by {
                    if ii < i {
                        assert(self.dv()[ii] == old_dv[ii]);
                    } else if ii > i {
                        assert(self.dv()[ii] == old_dv[ii - 1]);
                    }
                }
            }
        }
    }
}

/// Two strings are equal exactly when neither key precedes the other.
pub fn keys_equal(a: &str, b: &str) -> (r: bool)
    ensures
        r == (a@ == b@),
{
    let r = !key_less(a, b) && !key_less(b, a);
    proof {
        lemma_key_order_total(a@, b@);
        if a@ == b@ {
            lemma_key_lt_irreflexive(a@);
        }
    }
    r
}

/// Compares two keys in the canonical key order.
pub fn key_less(a: &str, b: &str) -> (r: bool)
    ensures
        r == key_lt(a@, b@),
{
    let av = a.as_bytes_vec();
    let bv = b.as_bytes_vec();
    lex_less(&av, &bv)
}

/// `oget` finds the first entry whose key matches.
pub proof fn lemma_oget_at(es: Seq<(Seq<char>, ValueView)>, k: Seq<char>, i: int)
    requires
        0 <= i < es.len(),
        es[i].0 == k,
        forall|j: int| 0 <= j < i ==> es[j].0 != k,
    ensures
        oget(es, k) == Option::Some(es[i].1),
    decreases i,
{
    if i > 0 {
        lemma_oget_at(es.drop_first(), k, i - 1);
    }
}

pub proof fn lemma_oget_absent(es: Seq<(Seq<char>, ValueView)>, k: Seq<char>)
    requires
        forall|j: int| 0 <= j < es.len() ==> es[j].0 != k,
    ensures
        oget(es, k) is None,
    decreases es.len(),
{
    if es.len() > 0 {
        lemma_oget_absent(es.drop_first(), k);
    }
}

/// Replacing the value at one entry changes `oget` only at that key.
pub proof fn lemma_oget_update(es: Seq<(Seq<char>, ValueView)>, i: int, v: ValueView)
    requires
        0 <= i < es.len(),
        forall|j: int| 0 <= j < i ==> es[j].0 != es[i].0,
    ensures
        oget(es.update(i, (es[i].0, v)), es[i].0) == Option::Some(v),
        forall|k: Seq<char>|
            k != es[i].0 ==> oget(es.update(i, (es[i].0, v)), k) == oget(es, k),
    decreases i,
{
    let es2 = es.update(i, (es[i].0, v));
    if i == 0 {
        assert(es2[0] == (es[0].0, v));
        assert forall|k: Seq<char>| k != es[0].0 implies oget(es2, k) == oget(es, k) by {
            assert(es2.drop_first() =~= es.drop_first());
        }
    } else {
        let d = es.drop_first();
        assert(d[i - 1] == es[i]);
        lemma_oget_update(d, i - 1, v);
        assert(es2[0] == es[0]);
        assert(es2.drop_first() =~= d.update(i - 1, (es[i].0, v)));
        assert(es[0].0 != es[i].0);
        assert(oget(es2, es[i].0) == oget(es2.drop_first(), es[i].0));
        assert forall|k: Seq<char>| k != es[i].0 implies oget(es2, k) == oget(es, k) by {
            if es[0].0 != k {
                assert(oget(es2, k) == oget(es2.drop_first(), k));
                assert(oget(es, k) == oget(d, k));
            }
        }
    }
}

/// Inserting an entry changes `oget` only at the inserted key, provided the
/// key does not occur before the insertion point.
pub proof fn lemma_oget_insert(es: Seq<(Seq<char>, ValueView)>, i: int, k: Seq<char>, v: ValueView)
    requires
        0 <= i <= es.len(),
        forall|j: int| 0 <= j < i ==> es[j].0 != k,
    ensures
        oget(es.insert(i, (k, v)), k) == Option::Some(v),
        forall|k2: Seq<char>| k2 != k ==> oget(es.insert(i, (k, v)), k2) == oget(es, k2),
    decreases i,
{
    let es2 = es.insert(i, (k, v));
    assert(es2.len() == es.len() + 1);
    if i == 0 {
        assert(es2[0] == (k, v));
        assert(es2.drop_first() =~= es);
        assert forall|k2: Seq<char>| k2 != k implies oget(es2, k2) == oget(es, k2) by {
            if es.len() > 0 && es[0].0 == k2 {
                assert(oget(es2, k2) == oget(es2.drop_first(), k2));
            }
        }
    } else {
        let d = es.drop_first();
        lemma_oget_insert(d, i - 1, k, v);
        assert(es2[0] == es[0]);
        assert(es2.drop_first() =~= d.insert(i - 1, (k, v)));
        assert(es[0].0 != k);
        assert(oget(es2, k) == oget(es2.drop_first(), k));
        assert forall|k2: Seq<char>| k2 != k implies oget(es2, k2) == oget(es, k2) by {
            if es[0].0 != k2 {
                assert(oget(es2, k2) == oget(es2.drop_first(), k2));
                assert(oget(es, k2) == oget(d, k2));
            }
        }
    }
}

/// Replacing a value keeps the entries sorted.
pub proof fn lemma_sorted_update(es: Seq<(Seq<char>, ValueView)>, i: int, v: ValueView)
    requires
        0 <= i < es.len(),
        entries_sorted(es),
    ensures
        entries_sorted(es.update(i, (es[i].0, v))),
{
    let es2 = es.update(i, (es[i].0, v));
    assert forall|a: int, b: int| 0 <= a < b < es2.len() implies key_lt(es2[a].0, es2[b].0) by {
        assert(es2[a].0 == es[a].0);
        assert(es2[b].0 == es[b].0);
    }
}

/// Inserting at the position the key order dictates keeps the entries sorted.
pub proof fn lemma_sorted_insert(es: Seq<(Seq<char>, ValueView)>, i: int, k: Seq<char>, v: ValueView)
    requires
        0 <= i <= es.len(),
        entries_sorted(es),
        forall|j: int| 0 <= j < i ==> key_lt(#[trigger] es[j].0, k),
        forall|j: int| i <= j < es.len() ==> key_lt(k, #[trigger] es[j].0),
    ensures
        entries_sorted(es.insert(i, (k, v))),
{
    let es2 = es.insert(i, (k, v));
    assert forall|a: int, b: int| 0 <= a < b < es2.len() implies key_lt(es2[a].0, es2[b].0) by {
        if a < i {
            assert(es2[a] == es[a]);
        } else if a == i {
            assert(es2[a] == (k, v));
        } else {
            assert(es2[a] == es[a - 1]);
        }
        if b < i {
            assert(es2[b] == es[b]);
        } else if b == i {
            assert(es2[b] == (k, v));
        } else {
            assert(es2[b] == es[b - 1]);
        }
    }
}

fn clone_list(a: &Vec<DbValue>) -> (r: Vec<DbValue>)
    ensures
        list_dv(r@) == list_dv(a@),
    decreases a@,
{
    let mut out: Vec<DbValue> = Vec::new();
    let n = a.len();
    let mut i: usize = 0;
    while i < n
        invariant
            n == a@.len(),
            i <= n,
            out@.len() == i,
            forall|j: int| 0 <= j < i ==> #[trigger] out@[j].dv() == a@[j].dv(),
        decreases n - i,
    {
        let e = a[i].clone();
        out.push(e);
        i = i + 1;
    }
    proof {
        lemma_list_dv(out@);
        lemma_list_dv(a@);
        assert(list_dv(out@) =~= list_dv(a@));
    }
    out
}

impl Clone for DbValue {
    /// A clone has the same deep view as the original.
    fn clone(&self) -> (r: Self)
        ensures
            r.dv() == self.dv(),
        decreases self,
    {
        match self {
            DbValue::Text(s) => DbValue::Text(s.clone()),
            DbValue::Number(n) => DbValue::Number(*n),
            DbValue::Boolean(b) => DbValue::Boolean(*b),
            DbValue::Object(m) => DbValue::Object(m.clone()),
            DbValue::Array(a) => DbValue::Array(clone_list(a)),
            DbValue::Absent => DbValue::Absent,
        }
    }
}

impl Clone for ValueMap {
    /// A clone has the same deep view as the original.
    fn clone(&self) -> (r: Self)
        ensures
            r.dv() == self.dv(),
        decreases self,
    {
        let mut out: Vec<(String, DbValue)> = Vec::new();
        let n = self.entries.len();
        let mut i: usize = 0;
        while i < n
            invariant
                n == self.entries@.len(),
                i <= n,
                out@.len() == i,
                forall|j: int|
                    0 <= j < i ==> #[trigger] out@[j].0@ == self.entries@[j].0@ && out@[j].1.dv()
                        == self.entries@[j].1.dv(),
            decreases n - i,
        {
            let k = self.entries[i].0.clone();
            let v = self.entries[i].1.clone();
            out.push((k, v));
            i = i + 1;
        }
        proof {
            lemma_entries_dv(out@);
            lemma_entries_dv(self.entries@);
            assert(entries_dv(out@) =~= entries_dv(self.entries@));
        }
        ValueMap { entries: out }
    }
}

} // verus!
