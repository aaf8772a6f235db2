//! The conflict-resolution merge engine.
//!
//! Two operators work over string-keyed mappings. `dumb_merge` is the
//! structural merge: it recurses where both sides hold a mapping and otherwise
//! resolves by a fixed priority. `merge` is the versioned merge: it compares
//! per-key logical clocks and falls back on the structural merge (or a byte
//! order tie-break) only where the clocks allow it. Keys missing from the
//! target are always inserted.

use crate::codec::vv_gt;
use crate::value::{entries_dv, key_lt, lemma_entries_dv, lemma_key_lt_irreflexive, map_wf, oget,
    DbValue, ValueMap, ValueView, vv_wf};
use vstd::prelude::*;

verus! {

/// Priority for the structural merge: keep the target, take the incoming
/// value, or let the greater value (in canonical byte order) win.
#[derive(Clone, Copy, Debug)]
pub enum DumbMergePriority {
    Target,
    From,
    Content,
}

/// The value the structural merge picks when it cannot recurse.
pub open spec fn dumb_pick(tv: ValueView, fv: ValueView, pr: DumbMergePriority) -> ValueView {
    match pr {
        DumbMergePriority::Target => tv,
        DumbMergePriority::From => fv,
        DumbMergePriority::Content => if vv_gt(fv, tv) {
            fv
        } else {
            tv
        },
    }
}

/// `rv` is the structural merge of `tv` (target) and `fv` (incoming): where
/// both are mappings the merge recurses field by field, otherwise the
/// priority picks one side.
pub open spec fn dumb_merged(
    rv: ValueView,
    tv: ValueView,
    fv: ValueView,
    pr: DumbMergePriority,
) -> bool
    decreases fv,
{
    match (tv, fv) {
        (ValueView::Obj(te), ValueView::Obj(fe)) => {
            &&& rv matches ValueView::Obj(re)
            &&& map_wf(re)
            &&& (forall|k: Seq<char>| oget(fe, k) is None ==> oget(re, k) == oget(te, k))
            &&& (forall|i: int|
                #![trigger fe[i]]
                0 <= i < fe.len() ==> match oget(te, fe[i].0) {
                    Option::Some(tv2) => oget(re, fe[i].0) matches Option::Some(rv2)
                        && dumb_merged(rv2, tv2, fe[i].1, pr),
                    Option::None => oget(re, fe[i].0) == Option::Some(fe[i].1),
                })
        },
        _ => rv == dumb_pick(tv, fv, pr),
    }
}

/// Pointwise form of the structural merge over optional values at one key.
pub open spec fn dumb_merged_at(
    r: Option<ValueView>,
    t: Option<ValueView>,
    f: Option<ValueView>,
    pr: DumbMergePriority,
) -> bool {
    match (t, f) {
        (_, Option::None) => r == t,
        (Option::None, Option::Some(fv)) => r == Option::Some(fv),
        (Option::Some(tv), Option::Some(fv)) => r matches Option::Some(rv) && dumb_merged(
            rv,
            tv,
            fv,
            pr,
        ),
    }
}

/// Pointwise form of the versioned merge at one key, given the two clocks.
pub open spec fn ver_merged_at(
    r: Option<ValueView>,
    t: Option<ValueView>,
    f: Option<ValueView>,
    ts: u64,
    fs: u64,
) -> bool {
    match (t, f) {
        (_, Option::None) => r == t,
        (Option::None, Option::Some(fv)) => r == Option::Some(fv),
        (Option::Some(tv), Option::Some(fv)) => if ts == fs {
            if tv is Obj && fv is Obj {
                r matches Option::Some(rv) && dumb_merged(rv, tv, fv, DumbMergePriority::Content)
            } else {
                r == Option::Some(
                    if vv_gt(fv, tv) {
                        fv
                    } else {
                        tv
                    },
                )
            }
        } else if ts < fs {
            if tv is Obj && fv is Obj {
                r matches Option::Some(rv) && dumb_merged(rv, tv, fv, DumbMergePriority::From)
            } else {
                r == Option::Some(fv)
            }
        } else {
            r == t
        },
    }
}

// ------------------------------------------------------------ oget helpers

/// A `Some` answer of `oget` is the first entry with that key.
pub proof fn lemma_oget_is_entry(es: Seq<(Seq<char>, ValueView)>, k: Seq<char>)
    requires
        oget(es, k) is Some,
    ensures
        exists|i: int| 0 <= i < es.len() && #[trigger] es[i] == (k, oget(es, k)->0),
    decreases es.len(),
{
    if es[0].0 == k {
        assert(es[0] == (k, oget(es, k)->0));
    } else {
        lemma_oget_is_entry(es.drop_first(), k);
        let i = choose|i: int|
            0 <= i < es.drop_first().len() && #[trigger] es.drop_first()[i] == (
            k,
            oget(es.drop_first(), k)->0,
            );
        assert(es[i + 1] == (k, oget(es, k)->0));
    }
}

/// Every key that stands in the entry list is found.
pub proof fn lemma_oget_present(es: Seq<(Seq<char>, ValueView)>, i: int)
    requires
        0 <= i < es.len(),
    ensures
        oget(es, es[i].0) is Some,
    decreases i,
{
    if es[0].0 != es[i].0 {
        lemma_oget_present(es.drop_first(), i - 1);
        assert(es.drop_first()[i - 1] == es[i]);
    }
}

/// Values stored in a well-formed mapping are themselves well formed.
pub proof fn lemma_oget_wf(es: Seq<(Seq<char>, ValueView)>, k: Seq<char>)
    requires
        map_wf(es),
        oget(es, k) is Some,
    ensures
        vv_wf(oget(es, k)->0),
{
    lemma_oget_is_entry(es, k);
    let i = choose|i: int| 0 <= i < es.len() && #[trigger] es[i] == (k, oget(es, k)->0);
    assert(vv_wf(es[i].1));
}

/// In a mapping with strictly sorted keys, keys at distinct positions differ.
pub proof fn lemma_sorted_keys_unique(es: Seq<(Seq<char>, ValueView)>, i: int, j: int)
    requires
        map_wf(es),
        0 <= i < es.len(),
        0 <= j < es.len(),
        i != j,
    ensures
        es[i].0 != es[j].0,
{
    if es[i].0 == es[j].0 {
        if i < j {
            assert(key_lt(es[i].0, es[j].0));
        } else {
            assert(key_lt(es[j].0, es[i].0));
        }
        lemma_key_lt_irreflexive(es[i].0);
    }
}

// ------------------------------------------------------------- exec merge

/// Structural merge of two values; both sides must be well formed.
pub fn merge_value(t: &DbValue, f: &DbValue, pr: DumbMergePriority) -> (r: DbValue)
    requires
        t.wf(),
        f.wf(),
    ensures
        r.wf(),
        dumb_merged(r.dv(), t.dv(), f.dv(), pr),
    decreases f,
{
    match (t, f) {
        (DbValue::Object(tm), DbValue::Object(fm)) => {
            let m = merged_map(tm, fm, pr);
            DbValue::Object(m)
        },
        _ => {
            match pr {
                DumbMergePriority::Target => t.clone(),
                DumbMergePriority::From => f.clone(),
                DumbMergePriority::Content => {
                    if crate::codec::value_gt(f, t) {
                        f.clone()
                    } else {
                        t.clone()
                    }
                },
            }
        },
    }
}

/// Structural merge of two mappings, producing a fresh mapping.
fn merged_map(tm: &ValueMap, fm: &ValueMap, pr: DumbMergePriority) -> (r: ValueMap)
    requires
        tm.wf(),
        fm.wf(),
    ensures
        r.wf(),
        forall|k: Seq<char>| oget(fm.dv(), k) is None ==> oget(r.dv(), k) == oget(tm.dv(), k),
        forall|i: int|
            #![trigger fm.dv()[i]]
            0 <= i < fm.dv().len() ==> match oget(tm.dv(), fm.dv()[i].0) {
                Option::Some(tv2) => oget(r.dv(), fm.dv()[i].0) matches Option::Some(rv2)
                    && dumb_merged(rv2, tv2, fm.dv()[i].1, pr),
                Option::None => oget(r.dv(), fm.dv()[i].0) == Option::Some(fm.dv()[i].1),
            },
    decreases fm,
{
    let mut result = tm.clone();
    let n = fm.entries.len();
    let mut i: usize = 0;
    proof {
        lemma_entries_dv(fm.entries@);
    }
    while i < n
        invariant
            tm.wf(),
            fm.wf(),
            result.wf(),
            n == fm.entries@.len(),
            n == fm.dv().len(),
            i <= n,
            forall|j: int|
                #![trigger fm.dv()[j]]
                0 <= j < i ==> match oget(tm.dv(), fm.dv()[j].0) {
                    Option::Some(tv2) => oget(result.dv(), fm.dv()[j].0) matches Option::Some(rv2)
                        && dumb_merged(rv2, tv2, fm.dv()[j].1, pr),
                    Option::None => oget(result.dv(), fm.dv()[j].0) == Option::Some(fm.dv()[j].1),
                },
            forall|k: Seq<char>|
                (forall|j: int| 0 <= j < i ==> #[trigger] fm.dv()[j].0 != k) ==> oget(
                    result.dv(),
                    k,
                ) == oget(tm.dv(), k),
        decreases n - i,
    {
        proof {
            lemma_entries_dv(fm.entries@);
        }
        let key = &fm.entries[i].0;
        let fv = &fm.entries[i].1;
        let ghost kview = fm.dv()[i as int].0;
        proof {
            assert(kview == key@);
            assert(vv_wf(fm.dv()[i as int].1));
            assert(fv.dv() == fm.dv()[i as int].1);
            // The key has not been processed yet, so `result` still holds the
            // target's value for it.
            assert forall|j: int| 0 <= j < i implies #[trigger] fm.dv()[j].0 != kview by {
                lemma_sorted_keys_unique(fm.dv(), j, i as int);
            }
            assert(oget(result.dv(), kview) == oget(tm.dv(), kview));
        }
        let replacement: DbValue = match result.get(key.as_str()) {
            Option::Some(tv) => {
                proof {
                    lemma_oget_wf(result.dv(), key@);
                }
                merge_value(tv, fv, pr)
            },
            Option::None => fv.clone(),
        };
        let owned_key = key.clone();
        proof {
            assert(vv_wf(replacement.dv()));
        }
        result.insert(owned_key, replacement);
        proof {
            assert forall|j: int| #![trigger fm.dv()[j]] 0 <= j < i + 1 implies match oget(
                tm.dv(),
                fm.dv()[j].0,
            ) {
                Option::Some(tv2) => oget(result.dv(), fm.dv()[j].0) matches Option::Some(rv2)
                    && dumb_merged(rv2, tv2, fm.dv()[j].1, pr),
                Option::None => oget(result.dv(), fm.dv()[j].0) == Option::Some(fm.dv()[j].1),
            } by {
                if j < i {
                    lemma_sorted_keys_unique(fm.dv(), j, i as int);
                }
            }
        }
        i = i + 1;
    }
    proof {
        assert forall|k: Seq<char>| oget(fm.dv(), k) is None implies oget(result.dv(), k) == oget(
            tm.dv(),
            k,
        ) by {
            assert forall|j: int| 0 <= j < n implies #[trigger] fm.dv()[j].0 != k by {
                if fm.dv()[j].0 == k {
                    lemma_oget_present(fm.dv(), j);
                }
            }
        }
    }
    result
}

/// Structural merge: merges `from` into `target` under the given priority.
/// Missing keys are always inserted; where both sides hold a mapping the
/// merge recurses; otherwise the priority picks a side.
pub fn dumb_merge(target: &mut ValueMap, from: &ValueMap, priority: DumbMergePriority)
    requires
        old(target).wf(),
        from.wf(),
    ensures
        final(target).wf(),
        forall|k: Seq<char>|
            dumb_merged_at(
                oget(final(target).dv(), k),
                oget(old(target).dv(), k),
                oget(from.dv(), k),
                priority,
            ),
{
    let r = merged_map(&*target, from, priority);
    *target = r;
    proof {
        assert forall|k: Seq<char>| dumb_merged_at(
            oget(target.dv(), k),
            oget(old(target).dv(), k),
            oget(from.dv(), k),
            priority,
        ) by {
            match oget(from.dv(), k) {
                Option::Some(fv) => {
                    lemma_oget_is_entry(from.dv(), k);
                    let i = choose|i: int|
                        0 <= i < from.dv().len() && #[trigger] from.dv()[i] == (k, fv);
                },
                Option::None => {},
            }
        }
    }
}


// ------------------------------------------------------------ clock state

/// Per-key logical clocks: a mapping from string key to version counter.
/// A key that is not present counts as version 0. Later writes for a key
/// shadow earlier ones.
#[derive(Debug, Clone, PartialEq, Eq)]
pub struct StateMap {
    pub entries: Vec<(String, u64)>,
}

/// View of the clock mapping as a sequence of key/counter pairs.
pub open spec fn state_dv(es: Seq<(String, u64)>) -> Seq<(Seq<char>, u64)> {
    Seq::new(es.len(), |i: int| (es[i].0@, es[i].1))
}

/// The clock for a key: the first entry that holds it, or 0.
pub open spec fn sget(es: Seq<(Seq<char>, u64)>, k: Seq<char>) -> u64
    decreases es.len(),
{
    if es.len() == 0 {
        0
    } else if es[0].0 == k {
        es[0].1
    } else {
        sget(es.drop_first(), k)
    }
}

impl StateMap {
    pub open spec fn dv(self) -> Seq<(Seq<char>, u64)> {
        state_dv(self.entries@)
    }

    pub fn new() -> (r: StateMap)
        ensures
            r.dv() =~= Seq::<(Seq<char>, u64)>::empty(),
    {
        StateMap { entries: Vec::new() }
    }

    /// Sets the clock for `key`; the new entry shadows any earlier one.
    pub fn insert(&mut self, key: String, counter: u64)
        ensures
            sget(final(self).dv(), key@) == counter,
            forall|k: Seq<char>| k != key@ ==> sget(final(self).dv(), k) == sget(old(self).dv(), k),
    {
        self.entries.insert(0, (key, counter));
        proof {
            assert(self.dv().drop_first() =~= old(self).dv());
            assert(self.dv()[0] == (key@, counter));
        }
    }

    /// The clock stored for `key`, or 0 when the key is absent.
    pub fn state_of(&self, key: &str) -> (r: u64)
        ensures
            r == sget(self.dv(), key@),
    {
        let n = self.entries.len();
        let mut i: usize = 0;
        while i < n
            invariant
                n == self.entries@.len(),
                i <= n,
                forall|j: int| 0 <= j < i ==> self.dv()[j].0 != key@,
            decreases n - i,
        {
            if crate::value::keys_equal(self.entries[i].0.as_str(), key) {
                proof {
                    lemma_sget_at(self.dv(), key@, i as int);
                }
                return self.entries[i].1;
            }
            i = i + 1;
        }
        proof {
            lemma_sget_absent(self.dv(), key@);
        }
        0
    }
}

proof fn lemma_sget_at(es: Seq<(Seq<char>, u64)>, k: Seq<char>, i: int)
    requires
        0 <= i < es.len(),
        es[i].0 == k,
        forall|j: int| 0 <= j < i ==> es[j].0 != k,
    ensures
        sget(es, k) == es[i].1,
    decreases i,
{
    if i > 0 {
        lemma_sget_at(es.drop_first(), k, i - 1);
    }
}

proof fn lemma_sget_absent(es: Seq<(Seq<char>, u64)>, k: Seq<char>)
    requires
        forall|j: int| 0 <= j < es.len() ==> es[j].0 != k,
    ensures
        sget(es, k) == 0,
    decreases es.len(),
{
    if es.len() > 0 {
        lemma_sget_absent(es.drop_first(), k);
    }
}

// --------------------------------------------------------- versioned merge

/// Versioned merge: for every key of `from`, the per-key clocks decide.
/// Equal clocks fall back on a field-level greatest-wins merge for nested
/// mappings and on the canonical byte order otherwise; a strictly newer
/// `from` clock replaces (or deep-merges) the value; a strictly newer
/// `target` clock leaves the key unchanged. Keys missing from `target` are
/// inserted unconditionally.
pub fn merge(
    target: &mut ValueMap,
    from: &ValueMap,
    target_state: &StateMap,
    from_state: &StateMap,
)
    requires
        old(target).wf(),
        from.wf(),
    ensures
        final(target).wf(),
        forall|k: Seq<char>|
            ver_merged_at(
                oget(final(target).dv(), k),
                oget(old(target).dv(), k),
                oget(from.dv(), k),
                sget(target_state.dv(), k),
                sget(from_state.dv(), k),
            ),
{
    let ghost t0 = target.dv();
    let n = from.entries.len();
    let mut i: usize = 0;
    proof {
        lemma_entries_dv(from.entries@);
    }
    while i < n
        invariant
            old(target).dv() == t0,
            from.wf(),
            target.wf(),
            n == from.entries@.len(),
            n == from.dv().len(),
            i <= n,
            forall|j: int|
                #![trigger from.dv()[j]]
                0 <= j < i ==> ver_merged_at(
                    oget(target.dv(), from.dv()[j].0),
                    oget(t0, from.dv()[j].0),
                    Option::Some(from.dv()[j].1),
                    sget(target_state.dv(), from.dv()[j].0),
                    sget(from_state.dv(), from.dv()[j].0),
                ),
            forall|k: Seq<char>|
                (forall|j: int| 0 <= j < i ==> #[trigger] from.dv()[j].0 != k) ==> oget(
                    target.dv(),
                    k,
                ) == oget(t0, k),
        decreases n - i,
    {
        proof {
            lemma_entries_dv(from.entries@);
        }
        let key = &from.entries[i].0;
        let fv = &from.entries[i].1;
        let ts = target_state.state_of(key.as_str());
        let fs = from_state.state_of(key.as_str());
        proof {
            assert(vv_wf(from.dv()[i as int].1));
            assert(fv.dv() == from.dv()[i as int].1);
            assert forall|j: int| 0 <= j < i implies #[trigger] from.dv()[j].0 != key@ by {
                lemma_sorted_keys_unique(from.dv(), j, i as int);
            }
            assert(oget(target.dv(), key@) == oget(t0, key@));
        }
        let replacement: Option<DbValue> = match target.get(key.as_str()) {
            Option::Some(tv) => {
                proof {
                    lemma_oget_wf(target.dv(), key@);
                }
                if ts == fs {
                    match (tv, fv) {
                        (DbValue::Object(tm), DbValue::Object(fm)) => Option::Some(
                            DbValue::Object(merged_map(tm, fm, DumbMergePriority::Content)),
                        ),
                        _ => {
                            if crate::codec::value_gt(fv, tv) {
                                Option::Some(fv.clone())
                            } else {
                                Option::None
                            }
                        },
                    }
                } else if ts < fs {
                    match (tv, fv) {
                        (DbValue::Object(tm), DbValue::Object(fm)) => Option::Some(
                            DbValue::Object(merged_map(tm, fm, DumbMergePriority::From)),
                        ),
                        _ => Option::Some(fv.clone()),
                    }
                } else {
                    Option::None
                }
            },
            Option::None => Option::Some(fv.clone()),
        };
        match replacement {
            Option::Some(nv) => {
                let owned_key = key.clone();
                target.insert(owned_key, nv);
            },
            Option::None => {},
        }
        proof {
            assert(ver_merged_at(
                oget(target.dv(), from.dv()[i as int].0),
                oget(t0, from.dv()[i as int].0),
                Option::Some(from.dv()[i as int].1),
                sget(target_state.dv(), from.dv()[i as int].0),
                sget(from_state.dv(), from.dv()[i as int].0),
            ));
            assert forall|j: int| #![trigger from.dv()[j]] 0 <= j < i + 1 implies ver_merged_at(
                oget(target.dv(), from.dv()[j].0),
                oget(t0, from.dv()[j].0),
                Option::Some(from.dv()[j].1),
                sget(target_state.dv(), from.dv()[j].0),
                sget(from_state.dv(), from.dv()[j].0),
            ) by {
                if j < i {
                    lemma_sorted_keys_unique(from.dv(), j, i as int);
                }
            }
        }
        i = i + 1;
    }
    proof {
        assert forall|k: Seq<char>| ver_merged_at(
            oget(target.dv(), k),
            oget(t0, k),
            oget(from.dv(), k),
            sget(target_state.dv(), k),
            sget(from_state.dv(), k),
        ) by {
            match oget(from.dv(), k) {
                Option::Some(fv) => {
                    lemma_oget_is_entry(from.dv(), k);
                    let i = choose|i: int|
                        0 <= i < from.dv().len() && #[trigger] from.dv()[i] == (k, fv);
                },
                Option::None => {
                    assert forall|j: int| 0 <= j < n implies #[trigger] from.dv()[j].0 != k by {
                        if from.dv()[j].0 == k {
                            lemma_oget_present(from.dv(), j);
                        }
                    }
                },
            }
        }
    }
}


// ----------------------------------------------------------------- laws

/// In a well-formed mapping, looking an entry's key up yields that entry.
pub proof fn lemma_oget_sorted_index(es: Seq<(Seq<char>, ValueView)>, i: int)
    requires
        map_wf(es),
        0 <= i < es.len(),
    ensures
        oget(es, es[i].0) == Option::Some(es[i].1),
{
    assert forall|j: int| 0 <= j < i implies es[j].0 != es[i].0 by {
        lemma_sorted_keys_unique(es, j, i);
    }
    crate::value::lemma_oget_at(es, es[i].0, i);
}

/// Keyed form of the structural merge of two mappings: what stands at every
/// key of the result, not just at the incoming entries.
pub proof fn lemma_dumb_merged_fields(rv: ValueView, tv: ValueView, fv: ValueView,
    pr: DumbMergePriority, k: Seq<char>)
    requires
        dumb_merged(rv, tv, fv, pr),
        tv is Obj,
        fv is Obj,
    ensures
        rv is Obj,
        match (oget(tv->Obj_0, k), oget(fv->Obj_0, k)) {
            (_, Option::None) => oget(rv->Obj_0, k) == oget(tv->Obj_0, k),
            (Option::None, Option::Some(x)) => oget(rv->Obj_0, k) == Option::Some(x),
            (Option::Some(a), Option::Some(b)) => oget(rv->Obj_0, k) matches Option::Some(c)
                && dumb_merged(c, a, b, pr),
        },
{
    let te = tv->Obj_0;
    let fe = fv->Obj_0;
    match oget(fe, k) {
        Option::Some(x) => {
            lemma_oget_is_entry(fe, k);
            let i = choose|i: int| 0 <= i < fe.len() && #[trigger] fe[i] == (k, x);
        },
        Option::None => {},
    }
}

/// A key present in only one operand of the versioned merge comes through
/// unchanged: the target's value where `from` does not mention the key, the
/// incoming value where the target does not.
pub proof fn lemma_merge_keeps_sole_keys(
    rm: Seq<(Seq<char>, ValueView)>,
    tm: Seq<(Seq<char>, ValueView)>,
    fm: Seq<(Seq<char>, ValueView)>,
    ts: Seq<(Seq<char>, u64)>,
    fs: Seq<(Seq<char>, u64)>,
    k: Seq<char>,
)
    requires
        forall|k2: Seq<char>|
            ver_merged_at(oget(rm, k2), oget(tm, k2), oget(fm, k2), sget(ts, k2), sget(fs, k2)),
    ensures
        oget(fm, k) is None ==> oget(rm, k) == oget(tm, k),
        oget(tm, k) is None ==> oget(rm, k) == oget(fm, k),
{
    assert(ver_merged_at(oget(rm, k), oget(tm, k), oget(fm, k), sget(ts, k), sget(fs, k)));
}

/// Equal clocks, non-mapping values: the result is whichever operand is
/// greater in canonical byte order.
pub proof fn lemma_merge_equal_clocks_byte_order(
    rm: Seq<(Seq<char>, ValueView)>,
    tm: Seq<(Seq<char>, ValueView)>,
    fm: Seq<(Seq<char>, ValueView)>,
    ts: Seq<(Seq<char>, u64)>,
    fs: Seq<(Seq<char>, u64)>,
    k: Seq<char>,
)
    requires
        forall|k2: Seq<char>|
            ver_merged_at(oget(rm, k2), oget(tm, k2), oget(fm, k2), sget(ts, k2), sget(fs, k2)),
        sget(ts, k) == sget(fs, k),
        oget(tm, k) matches Option::Some(tv) && !(tv is Obj),
        oget(fm, k) is Some,
    ensures
        oget(rm, k) == Option::Some(
            if vv_gt(oget(fm, k)->0, oget(tm, k)->0) {
                oget(fm, k)->0
            } else {
                oget(tm, k)->0
            },
        ),
{
    assert(ver_merged_at(oget(rm, k), oget(tm, k), oget(fm, k), sget(ts, k), sget(fs, k)));
}

/// A strictly newer `from` clock over two nested mappings merges field by
/// field rather than replacing the whole value: fields that only the target
/// holds survive, fields that only `from` holds are added.
pub proof fn lemma_merge_newer_from_deep(
    rm: Seq<(Seq<char>, ValueView)>,
    tm: Seq<(Seq<char>, ValueView)>,
    fm: Seq<(Seq<char>, ValueView)>,
    ts: Seq<(Seq<char>, u64)>,
    fs: Seq<(Seq<char>, u64)>,
    k: Seq<char>,
    k2: Seq<char>,
)
    requires
        forall|q: Seq<char>|
            ver_merged_at(oget(rm, q), oget(tm, q), oget(fm, q), sget(ts, q), sget(fs, q)),
        sget(ts, k) < sget(fs, k),
        oget(tm, k) matches Option::Some(tv) && tv is Obj,
        oget(fm, k) matches Option::Some(fv) && fv is Obj,
    ensures
        oget(rm, k) matches Option::Some(rv) && rv is Obj && {
            let re = rv->Obj_0;
            let te = oget(tm, k)->0->Obj_0;
            let fe = oget(fm, k)->0->Obj_0;
            &&& oget(fe, k2) is None ==> oget(re, k2) == oget(te, k2)
            &&& oget(te, k2) is None ==> oget(re, k2) == oget(fe, k2)
        },
{
    assert(ver_merged_at(oget(rm, k), oget(tm, k), oget(fm, k), sget(ts, k), sget(fs, k)));
    let tv = oget(tm, k)->0;
    let fv = oget(fm, k)->0;
    let rv = oget(rm, k)->0;
    lemma_dumb_merged_fields(rv, tv, fv, DumbMergePriority::From, k2);
}

/// A strictly newer target clock leaves the target's value for that key
/// untouched.
pub proof fn lemma_merge_newer_target_unchanged(
    rm: Seq<(Seq<char>, ValueView)>,
    tm: Seq<(Seq<char>, ValueView)>,
    fm: Seq<(Seq<char>, ValueView)>,
    ts: Seq<(Seq<char>, u64)>,
    fs: Seq<(Seq<char>, u64)>,
    k: Seq<char>,
)
    requires
        forall|k2: Seq<char>|
            ver_merged_at(oget(rm, k2), oget(tm, k2), oget(fm, k2), sget(ts, k2), sget(fs, k2)),
        sget(ts, k) > sget(fs, k),
        oget(tm, k) is Some,
    ensures
        oget(rm, k) == oget(tm, k),
{
    assert(ver_merged_at(oget(rm, k), oget(tm, k), oget(fm, k), sget(ts, k), sget(fs, k)));
}

/// `rv` keeps every value that `tv` holds, at every nesting depth: each key
/// of a mapping is still present, bound either to the identical value or to
/// a mapping that again keeps everything.
pub open spec fn preserves_target(rv: ValueView, tv: ValueView) -> bool
    decreases tv,
{
    match tv {
        ValueView::Obj(te) => {
            &&& rv matches ValueView::Obj(re)
            &&& (forall|i: int|
                #![trigger te[i]]
                0 <= i < te.len() ==> (oget(re, te[i].0) matches Option::Some(rv2)
                    && preserves_target(rv2, te[i].1)))
        },
        _ => rv == tv,
    }
}

pub proof fn lemma_preserves_target_refl(v: ValueView)
    requires
        vv_wf(v),
    ensures
        preserves_target(v, v),
    decreases v,
{
    match v {
        ValueView::Obj(te) => {
            assert forall|i: int| #![trigger te[i]] 0 <= i < te.len() implies oget(
                te,
                te[i].0,
            ) matches Option::Some(rv2) && preserves_target(rv2, te[i].1) by {
                lemma_oget_sorted_index(te, i);
                assert(vv_wf(te[i].1));
                lemma_preserves_target_refl(te[i].1);
            }
        },
        _ => {},
    }
}

/// The structural merge under `Target` priority never overwrites an existing
/// value, at any depth; it can only add keys that the target does not hold.
pub proof fn lemma_target_priority_preserves(rv: ValueView, tv: ValueView, fv: ValueView)
    requires
        dumb_merged(rv, tv, fv, DumbMergePriority::Target),
        vv_wf(tv),
    ensures
        preserves_target(rv, tv),
    decreases fv,
{
    match (tv, fv) {
        (ValueView::Obj(te), ValueView::Obj(fe)) => {
            let re = rv->Obj_0;
            assert forall|i: int| #![trigger te[i]] 0 <= i < te.len() implies oget(
                re,
                te[i].0,
            ) matches Option::Some(rv2) && preserves_target(rv2, te[i].1) by {
                let k = te[i].0;
                lemma_oget_sorted_index(te, i);
                assert(vv_wf(te[i].1));
                match oget(fe, k) {
                    Option::Some(x) => {
                        lemma_oget_is_entry(fe, k);
                        let j = choose|j: int| 0 <= j < fe.len() && #[trigger] fe[j] == (k, x);
                        let rv2 = oget(re, k)->0;
                        lemma_target_priority_preserves(rv2, te[i].1, fe[j].1);
                    },
                    Option::None => {
                        lemma_preserves_target_refl(te[i].1);
                    },
                }
            }
        },
        _ => {
            lemma_preserves_target_refl(tv);
        },
    }
}

/// Map-level statement: merging `from` into `target` with `Target` priority
/// keeps every existing key's value (recursively) and only adds new keys.
pub proof fn lemma_dumb_merge_target_preserves(
    rm: Seq<(Seq<char>, ValueView)>,
    tm: Seq<(Seq<char>, ValueView)>,
    fm: Seq<(Seq<char>, ValueView)>,
    k: Seq<char>,
)
    requires
        forall|q: Seq<char>|
            dumb_merged_at(oget(rm, q), oget(tm, q), oget(fm, q), DumbMergePriority::Target),
        map_wf(tm),
    ensures
        oget(tm, k) matches Option::Some(tv) ==> oget(rm, k) matches Option::Some(rv)
            && preserves_target(rv, tv),
        oget(tm, k) is None && oget(fm, k) is None ==> oget(rm, k) is None,
{
    assert(dumb_merged_at(oget(rm, k), oget(tm, k), oget(fm, k), DumbMergePriority::Target));
    match oget(tm, k) {
        Option::Some(tv) => {
            lemma_oget_wf(tm, k);
            match oget(fm, k) {
                Option::Some(fv) => {
                    let rv = oget(rm, k)->0;
                    lemma_target_priority_preserves(rv, tv, fv);
                },
                Option::None => {
                    lemma_preserves_target_refl(tv);
                },
            }
        },
        Option::None => {},
    }
}

} // verus!


