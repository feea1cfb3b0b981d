//! The untyped value tree of the font-source dialect.
//!
//! A value is a dictionary (ordered entries, unique keys), an array, a string,
//! an integer, or a floating value kept as its decimal lexeme. Dictionary
//! order is meaningful and preserved through parse and serialize.

use vstd::prelude::*;

use crate::num::{in_i64_range, is_float_lexeme};

verus! {

broadcast use {vstd::std_specs::vec::group_vec_axioms, vstd::seq::group_seq_axioms};

/// A value of the untyped tree.
#[derive(Debug, PartialEq)]
pub enum Plist {
    /// Ordered key/value entries; the grammar keeps keys unique.
    Dict(Vec<(String, Plist)>),
    Arr(Vec<Plist>),
    Str(String),
    Int(i64),
    /// A floating value, kept as its decimal lexeme.
    Float(String),
}

/// The mathematical value of a `Plist`.
#[verifier::ext_equal]
pub ghost enum PlistV {
    Dict(Seq<(Seq<char>, PlistV)>),
    Arr(Seq<PlistV>),
    Str(Seq<char>),
    Int(int),
    Float(Seq<char>),
}

pub open spec fn entries_view(es: Seq<(String, Plist)>) -> Seq<(Seq<char>, PlistV)>
    decreases es,
{
    Seq::new(
        es.len(),
        |i: int|
            if 0 <= i < es.len() {
                (es[i].0@, plist_view(es[i].1))
            } else {
                arbitrary()
            },
    )
}

pub open spec fn items_view(vs: Seq<Plist>) -> Seq<PlistV>
    decreases vs,
{
    Seq::new(
        vs.len(),
        |i: int|
            if 0 <= i < vs.len() {
                plist_view(vs[i])
            } else {
                arbitrary()
            },
    )
}

pub open spec fn plist_view(p: Plist) -> PlistV
    decreases p,
{
    match p {
        Plist::Dict(es) => PlistV::Dict(entries_view(es@)),
        Plist::Arr(vs) => PlistV::Arr(items_view(vs@)),
        Plist::Str(s) => PlistV::Str(s@),
        Plist::Int(v) => PlistV::Int(v as int),
        Plist::Float(t) => PlistV::Float(t@),
    }
}

impl View for Plist {
    type V = PlistV;

    open spec fn view(&self) -> PlistV {
        plist_view(*self)
    }
}

// ---------------------------------------------------------------------------
// Dictionary entry sequences
// ---------------------------------------------------------------------------

pub open spec fn dict_has_key(es: Seq<(Seq<char>, PlistV)>, k: Seq<char>) -> bool {
    exists|i: int| 0 <= i < es.len() && (#[trigger] es[i]).0 == k
}

/// The value at the first entry with key `k`.
pub open spec fn dict_get(es: Seq<(Seq<char>, PlistV)>, k: Seq<char>) -> Option<PlistV>
    decreases es.len(),
{
    if es.len() == 0 {
        None
    } else if es[0].0 == k {
        Some(es[0].1)
    } else {
        dict_get(es.drop_first(), k)
    }
}

pub open spec fn keys_unique(es: Seq<(Seq<char>, PlistV)>) -> bool {
    forall|i: int, j: int| 0 <= i < j < es.len() ==> (#[trigger] es[i]).0 != (#[trigger] es[j]).0
}

/// Write `k = v` into the entry list: replace the value at the first entry
/// with key `k`, keeping its position, or append a new entry at the end.
pub open spec fn dict_set(es: Seq<(Seq<char>, PlistV)>, k: Seq<char>, v: PlistV) -> Seq<
    (Seq<char>, PlistV),
>
    decreases es.len(),
{
    if es.len() == 0 {
        seq![(k, v)]
    } else if es[0].0 == k {
        seq![(k, v)] + es.drop_first()
    } else {
        seq![es[0]] + dict_set(es.drop_first(), k, v)
    }
}

pub proof fn lemma_dict_get_some(es: Seq<(Seq<char>, PlistV)>, k: Seq<char>)
    ensures
        dict_get(es, k) is Some <==> dict_has_key(es, k),
    decreases es.len(),
{
    if es.len() > 0 {
        lemma_dict_get_some(es.drop_first(), k);
        if es[0].0 != k {
            assert(dict_has_key(es, k) <==> dict_has_key(es.drop_first(), k)) by {
                if dict_has_key(es, k) {
                    let i = choose|i: int| 0 <= i < es.len() && (#[trigger] es[i]).0 == k;
                    assert(es.drop_first()[i - 1] == es[i]);
                }
                if dict_has_key(es.drop_first(), k) {
                    let i = choose|i: int|
                        0 <= i < es.drop_first().len() && (#[trigger] es.drop_first()[i]).0 == k;
                    assert(es[i + 1] == es.drop_first()[i]);
                }
            }
        }
    }
}

/// `dict_set` with a fresh key appends the entry.
pub proof fn lemma_dict_set_fresh(es: Seq<(Seq<char>, PlistV)>, k: Seq<char>, v: PlistV)
    requires
        !dict_has_key(es, k),
    ensures
        dict_set(es, k, v) == es.push((k, v)),
    decreases es.len(),
{
    if es.len() == 0 {
        assert(dict_set(es, k, v) =~= es.push((k, v)));
    } else {
        assert(es[0].0 != k);
        assert(!dict_has_key(es.drop_first(), k)) by {
            if dict_has_key(es.drop_first(), k) {
                let i = choose|i: int|
                    0 <= i < es.drop_first().len() && (#[trigger] es.drop_first()[i]).0 == k;
                assert(es[i + 1] == es.drop_first()[i]);
            }
        }
        lemma_dict_set_fresh(es.drop_first(), k, v);
        assert(dict_set(es, k, v) =~= es.push((k, v)));
    }
}

/// `dict_set` keeps keys unique, and touches nothing but the written key.
pub proof fn lemma_dict_set_unique(es: Seq<(Seq<char>, PlistV)>, k: Seq<char>, v: PlistV)
    requires
        keys_unique(es),
    ensures
        keys_unique(dict_set(es, k, v)),
        dict_get(dict_set(es, k, v), k) == Some(v),
        forall|k2: Seq<char>| k2 != k ==> dict_get(dict_set(es, k, v), k2) == dict_get(es, k2),
        dict_has_key(dict_set(es, k, v), k),
        forall|k2: Seq<char>| k2 != k ==> (dict_has_key(dict_set(es, k, v), k2) <==> dict_has_key(
            es,
            k2,
        )),
    decreases es.len(),
{
    lemma_dict_get_some(es, k);
    lemma_dict_set_unique_rec(es, k, v);
    let r = dict_set(es, k, v);
    lemma_dict_get_some(r, k);
    assert forall|k2: Seq<char>| k2 != k implies (dict_has_key(r, k2) <==> dict_has_key(
        es,
        k2,
    )) by {
        lemma_dict_get_some(r, k2);
        lemma_dict_get_some(es, k2);
    }
}

proof fn lemma_dict_set_unique_rec(es: Seq<(Seq<char>, PlistV)>, k: Seq<char>, v: PlistV)
    requires
        keys_unique(es),
    ensures
        keys_unique(dict_set(es, k, v)),
        dict_get(dict_set(es, k, v), k) == Some(v),
        forall|k2: Seq<char>| k2 != k ==> dict_get(dict_set(es, k, v), k2) == dict_get(es, k2),
        forall|i: int| 0 <= i < dict_set(es, k, v).len() ==> (#[trigger] dict_set(es, k, v)[i]).0
            == k || dict_has_key(es, dict_set(es, k, v)[i].0),
    decreases es.len(),
{
    let r = dict_set(es, k, v);
    if es.len() == 0 {
        assert(r == seq![(k, v)]);
        assert(r.drop_first() =~= Seq::<(Seq<char>, PlistV)>::empty());
        assert forall|k2: Seq<char>| k2 != k implies dict_get(r, k2) == dict_get(es, k2) by {
            assert(dict_get(r, k2) == dict_get(r.drop_first(), k2));
        }
    } else if es[0].0 == k {
        let rest = es.drop_first();
        assert(r == seq![(k, v)] + rest);
        assert(r[0] == (k, v));
        assert(r.drop_first() =~= rest);
        assert(keys_unique(rest)) by {
            assert(forall|i: int, j: int|
                0 <= i < j < rest.len() ==> rest[i] == es[i + 1] && rest[j] == es[j + 1]);
        }
        assert(keys_unique(r)) by {
            assert(forall|j: int| 0 <= j < rest.len() ==> (#[trigger] rest[j]) == es[j + 1]);
            assert(forall|j: int| 0 <= j < rest.len() ==> rest[j].0 != k);
        }
        assert forall|i: int| 0 <= i < r.len() implies (#[trigger] r[i]).0 == k || dict_has_key(
            es,
            r[i].0,
        ) by {
            if i > 0 {
                assert(r[i] == es[i]);
            }
        }
        assert forall|k2: Seq<char>| k2 != k implies dict_get(r, k2) == dict_get(es, k2) by {
            assert(r[0] == (k, v));
            assert(dict_get(r, k2) == dict_get(rest, k2));
            assert(dict_get(es, k2) == dict_get(rest, k2));
        }
    } else {
        let rest = es.drop_first();
        assert(keys_unique(rest)) by {
            assert(forall|i: int, j: int|
                0 <= i < j < rest.len() ==> rest[i] == es[i + 1] && rest[j] == es[j + 1]);
        }
        lemma_dict_set_unique_rec(rest, k, v);
        let rr = dict_set(rest, k, v);
        assert(r == seq![es[0]] + rr);
        assert(r[0] == es[0]);
        assert(r.drop_first() =~= rr);
        // keys of rr are k or keys of rest; es[0].0 is neither k nor a key of rest
        assert(!dict_has_key(rest, es[0].0)) by {
            if dict_has_key(rest, es[0].0) {
                let i = choose|i: int|
                    0 <= i < rest.len() && (#[trigger] rest[i]).0 == es[0].0;
                assert(es[i + 1] == rest[i]);
            }
        }
        assert(keys_unique(r)) by {
            assert(forall|j: int| 0 <= j < rr.len() ==> (#[trigger] rr[j]).0 == k || dict_has_key(
                rest,
                rr[j].0,
            ));
            assert(forall|j: int| 0 <= j < rr.len() ==> r[j + 1] == rr[j]);
            assert(forall|i: int, j: int|
                1 <= i < j < r.len() ==> r[i] == rr[i - 1] && r[j] == rr[j - 1]);
        }
        assert(dict_get(r, k) == dict_get(rr, k));
        assert forall|k2: Seq<char>| k2 != k implies dict_get(r, k2) == dict_get(es, k2) by {
            assert(r[0] == es[0]);
            if es[0].0 == k2 {
                assert(dict_get(r, k2) == Some(es[0].1));
                assert(dict_get(es, k2) == Some(es[0].1));
            } else {
                assert(dict_get(r, k2) == dict_get(rr, k2));
                assert(dict_get(rr, k2) == dict_get(rest, k2));
                assert(dict_get(es, k2) == dict_get(rest, k2));
            }
        }
        assert forall|i: int| 0 <= i < r.len() implies (#[trigger] r[i]).0 == k || dict_has_key(
            es,
            r[i].0,
        ) by {
            if i == 0 {
                assert(es[0].0 == r[0].0);
            } else {
                assert(r[i] == rr[i - 1]);
                if rr[i - 1].0 != k {
                    assert(dict_has_key(rest, rr[i - 1].0));
                    let j = choose|j: int|
                        0 <= j < rest.len() && (#[trigger] rest[j]).0 == rr[i - 1].0;
                    assert(es[j + 1] == rest[j]);
                }
            }
        }
    }
}

/// Every entry of `dict_set(es, k, v)` is the written pair or an entry of
/// `es`.
pub proof fn lemma_dict_set_entries(es: Seq<(Seq<char>, PlistV)>, k: Seq<char>, v: PlistV)
    ensures
        forall|x: int|
            0 <= x < dict_set(es, k, v).len() ==> (#[trigger] dict_set(es, k, v)[x]) == (k, v)
                || (exists|y: int| 0 <= y < es.len() && dict_set(es, k, v)[x] == es[y]),
    decreases es.len(),
{
    let r = dict_set(es, k, v);
    if es.len() == 0 {
        assert(r == seq![(k, v)]);
    } else if es[0].0 == k {
        let rest = es.drop_first();
        assert forall|x: int| 0 <= x < r.len() implies (#[trigger] r[x]) == (k, v) || (exists|y: int|
            0 <= y < es.len() && r[x] == es[y]) by {
            if x > 0 {
                assert(r[x] == rest[x - 1]);
                assert(rest[x - 1] == es[x]);
            }
        }
    } else {
        let rest = es.drop_first();
        lemma_dict_set_entries(rest, k, v);
        let rr = dict_set(rest, k, v);
        assert forall|x: int| 0 <= x < r.len() implies (#[trigger] r[x]) == (k, v) || (exists|y: int|
            0 <= y < es.len() && r[x] == es[y]) by {
            if x == 0 {
                assert(r[0] == es[0]);
            } else {
                assert(r[x] == rr[x - 1]);
                if rr[x - 1] != (k, v) {
                    let y = choose|y: int| 0 <= y < rest.len() && rr[x - 1] == rest[y];
                    assert(rest[y] == es[y + 1]);
                }
            }
        }
    }
}

/// `dict_set` with key `k` first present at index `idx` replaces the value
/// there, in place.
pub proof fn lemma_dict_set_found(
    es: Seq<(Seq<char>, PlistV)>,
    k: Seq<char>,
    v: PlistV,
    idx: int,
)
    requires
        0 <= idx < es.len(),
        es[idx].0 == k,
        forall|y: int| 0 <= y < idx ==> (#[trigger] es[y]).0 != k,
    ensures
        dict_set(es, k, v) == es.update(idx, (k, v)),
    decreases idx,
{
    if idx == 0 {
        assert(dict_set(es, k, v) =~= es.update(0, (k, v)));
    } else {
        let rest = es.drop_first();
        assert(es[0].0 != k);
        assert(rest[idx - 1] == es[idx]);
        assert(forall|y: int| 0 <= y < idx - 1 ==> (#[trigger] rest[y]) == es[y + 1]);
        lemma_dict_set_found(rest, k, v, idx - 1);
        assert(dict_set(es, k, v) =~= es.update(idx, (k, v)));
    }
}

// ---------------------------------------------------------------------------
// Entry/item view distribution
// ---------------------------------------------------------------------------

pub proof fn lemma_entries_view_push(es: Seq<(String, Plist)>, p: (String, Plist))
    ensures
        entries_view(es.push(p)) == entries_view(es).push((p.0@, plist_view(p.1))),
{
    assert(entries_view(es.push(p)) =~= entries_view(es).push((p.0@, plist_view(p.1))));
}

pub proof fn lemma_entries_view_update(es: Seq<(String, Plist)>, idx: int, p: (String, Plist))
    requires
        0 <= idx < es.len(),
    ensures
        entries_view(es.update(idx, p)) == entries_view(es).update(idx, (p.0@, plist_view(p.1))),
{
    assert(entries_view(es.update(idx, p)) =~= entries_view(es).update(
        idx,
        (p.0@, plist_view(p.1)),
    ));
}

pub proof fn lemma_items_view_push(vs: Seq<Plist>, p: Plist)
    ensures
        items_view(vs.push(p)) == items_view(vs).push(plist_view(p)),
{
    assert(items_view(vs.push(p)) =~= items_view(vs).push(plist_view(p)));
}

pub proof fn lemma_entries_view_concat(a: Seq<(String, Plist)>, b: Seq<(String, Plist)>)
    ensures
        entries_view(a + b) == entries_view(a) + entries_view(b),
{
    assert(entries_view(a + b) =~= entries_view(a) + entries_view(b));
}

pub proof fn lemma_items_view_concat(a: Seq<Plist>, b: Seq<Plist>)
    ensures
        items_view(a + b) == items_view(a) + items_view(b),
{
    assert(items_view(a + b) =~= items_view(a) + items_view(b));
}

// ---------------------------------------------------------------------------
// Executable dictionary building
// ---------------------------------------------------------------------------

/// Write `k = v` into the entry list, as `dict_set` says: replace the value
/// at the first entry with key `k`, or append a new entry.
pub fn dict_set_x(es: &mut Vec<(String, Plist)>, k: String, v: Plist)
    ensures
        entries_view(final(es)@) == dict_set(entries_view(old(es)@), k@, plist_view(v)),
{
    let n = es.len();
    let mut idx: usize = 0;
    while idx < n && !(es[idx].0 == k)
        invariant
            idx <= n,
            n == es.len(),
            *es == *old(es),
            forall|y: int| 0 <= y < idx ==> (#[trigger] es@[y]).0@ != k@,
        decreases n - idx,
    {
        idx = idx + 1;
    }
    let ghost a = entries_view(old(es)@);
    if idx < n {
        let _replaced = es.remove(idx);
        es.insert(idx, (k, v));
        proof {
            assert(es@ =~= old(es)@.update(idx as int, (k, v)));
            assert(forall|y: int| 0 <= y < idx ==> (#[trigger] a[y]).0 != k@);
            assert(a[idx as int].0 == k@);
            lemma_dict_set_found(a, k@, plist_view(v), idx as int);
            lemma_entries_view_update(old(es)@, idx as int, (k, v));
        }
    } else {
        es.push((k, v));
        proof {
            assert(!dict_has_key(a, k@)) by {
                if dict_has_key(a, k@) {
                    let y = choose|y: int| 0 <= y < a.len() && (#[trigger] a[y]).0 == k@;
                    assert(a[y].0 == old(es)@[y].0@);
                }
            }
            lemma_dict_set_fresh(a, k@, plist_view(v));
            lemma_entries_view_push(old(es)@, (k, v));
        }
    }
}

// ---------------------------------------------------------------------------
// Deep copies
// ---------------------------------------------------------------------------

fn dup_entries(es: &Vec<(String, Plist)>, k: usize, out: &mut Vec<(String, Plist)>)
    requires
        k <= es.len(),
    ensures
        entries_view(final(out)@) == entries_view(old(out)@) + entries_view(es@.skip(k as int)),
    decreases *es, es.len() - k,
{
    if k == es.len() {
        proof {
            assert(es@.skip(k as int) =~= Seq::<(String, Plist)>::empty());
            assert(entries_view(final(out)@) =~= entries_view(old(out)@) + entries_view(
                es@.skip(k as int),
            ));
        }
    } else {
        let pair = &es[k];
        let copy = pair.1.duplicate();
        let ghost before = out@;
        out.push((pair.0.clone(), copy));
        proof {
            lemma_entries_view_push(before, (pair.0, copy));
        }
        dup_entries(es, k + 1, out);
        proof {
            let rest = es@.skip(k as int);
            assert(rest.drop_first() =~= es@.skip(k + 1 as int));
            assert(entries_view(rest)[0] == (es@[k as int].0@, plist_view(es@[k as int].1)));
            assert(entries_view(rest).drop_first() =~= entries_view(es@.skip(k + 1 as int)));
            assert(entries_view(final(out)@) =~= entries_view(old(out)@) + entries_view(rest));
        }
    }
}

fn dup_items(vs: &Vec<Plist>, k: usize, out: &mut Vec<Plist>)
    requires
        k <= vs.len(),
    ensures
        items_view(final(out)@) == items_view(old(out)@) + items_view(vs@.skip(k as int)),
    decreases *vs, vs.len() - k,
{
    if k == vs.len() {
        proof {
            assert(vs@.skip(k as int) =~= Seq::<Plist>::empty());
            assert(items_view(final(out)@) =~= items_view(old(out)@) + items_view(
                vs@.skip(k as int),
            ));
        }
    } else {
        let copy = vs[k].duplicate();
        let ghost before = out@;
        out.push(copy);
        proof {
            lemma_items_view_push(before, copy);
        }
        dup_items(vs, k + 1, out);
        proof {
            let rest = vs@.skip(k as int);
            assert(rest.drop_first() =~= vs@.skip(k + 1 as int));
            assert(items_view(rest)[0] == plist_view(vs@[k as int]));
            assert(items_view(rest).drop_first() =~= items_view(vs@.skip(k + 1 as int)));
            assert(items_view(final(out)@) =~= items_view(old(out)@) + items_view(rest));
        }
    }
}

impl Plist {
    /// A deep copy: a fresh tree equal to this one as a value.
    pub fn duplicate(&self) -> (r: Plist)
        ensures
            r@ == self@,
        decreases *self, 0int,
    {
        match self {
            Plist::Dict(es) => {
                let mut out: Vec<(String, Plist)> = Vec::new();
                dup_entries(es, 0, &mut out);
                let r = Plist::Dict(out);
                proof {
                    assert(entries_view(Seq::<(String, Plist)>::empty()) =~= Seq::<
                        (Seq<char>, PlistV),
                    >::empty());
                    assert(es@.skip(0) =~= es@);
                    assert(r@ =~~= plist_view(*self));
                }
                r
            },
            Plist::Arr(vs) => {
                let mut out: Vec<Plist> = Vec::new();
                dup_items(vs, 0, &mut out);
                let r = Plist::Arr(out);
                proof {
                    assert(items_view(Seq::<Plist>::empty()) =~= Seq::<PlistV>::empty());
                    assert(vs@.skip(0) =~= vs@);
                    assert(r@ =~~= plist_view(*self));
                }
                r
            },
            Plist::Str(s) => Plist::Str(s.clone()),
            Plist::Int(v) => Plist::Int(*v),
            Plist::Float(t) => Plist::Float(t.clone()),
        }
    }
}

// ---------------------------------------------------------------------------
// Well-formedness
// ---------------------------------------------------------------------------

/// A well-formed tree: dictionary keys unique, integers in 64-bit range,
/// float lexemes valid. Every tree the parser yields is well formed, and
/// well-formed trees round-trip through serialization.
pub open spec fn plist_wf(v: PlistV) -> bool
    decreases v,
{
    match v {
        PlistV::Dict(es) => keys_unique(es) && (forall|i: int|
            0 <= i < es.len() ==> plist_wf((#[trigger] es[i]).1)),
        PlistV::Arr(vs) => forall|i: int| 0 <= i < vs.len() ==> plist_wf(#[trigger] vs[i]),
        PlistV::Str(_) => true,
        PlistV::Int(v) => in_i64_range(v),
        PlistV::Float(t) => is_float_lexeme(t),
    }
}

} // verus!
