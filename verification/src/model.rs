use vstd::prelude::*;
use crate::num::number_sum;

verus! {

/// Mathematical model of a JSON-like value.
///
/// Numbers carry their canonical decimal text; arrays are sequences of
/// models; objects are sequences of key/model pairs in insertion order.
#[verifier::ext_equal]
pub enum JVal {
    Null,
    Bool(bool),
    Num(Seq<char>),
    Str(Seq<char>),
    Arr(Seq<JVal>),
    Obj(Seq<(Seq<char>, JVal)>),
}

/// Position of the first entry with key `k`, or `es.len()` when absent.
pub open spec fn key_idx(es: Seq<(Seq<char>, JVal)>, k: Seq<char>) -> int
    decreases es.len(),
{
    if es.len() == 0 {
        0
    } else if es[0].0 == k {
        0
    } else {
        1 + key_idx(es.drop_first(), k)
    }
}

/// Whether some entry has key `k`.
pub open spec fn has_key(es: Seq<(Seq<char>, JVal)>, k: Seq<char>) -> bool {
    key_idx(es, k) < es.len()
}

/// The value at key `k`, if any.
pub open spec fn olookup(es: Seq<(Seq<char>, JVal)>, k: Seq<char>) -> Option<JVal> {
    if has_key(es, k) {
        Some(es[key_idx(es, k)].1)
    } else {
        None
    }
}

/// Insertion with overwrite-on-duplicate: an existing key keeps its
/// position and gets the new value; a new key is appended at the end.
pub open spec fn oinsert(es: Seq<(Seq<char>, JVal)>, k: Seq<char>, v: JVal) -> Seq<
    (Seq<char>, JVal),
> {
    if has_key(es, k) {
        es.update(key_idx(es, k), (k, v))
    } else {
        es.push((k, v))
    }
}

/// Removal of the entry with key `k`, if any; the remaining entries keep
/// their relative order.
pub open spec fn oremove(es: Seq<(Seq<char>, JVal)>, k: Seq<char>) -> Seq<(Seq<char>, JVal)> {
    if has_key(es, k) {
        es.remove(key_idx(es, k))
    } else {
        es
    }
}

/// The keys of the entries, in order.
pub open spec fn okeys(es: Seq<(Seq<char>, JVal)>) -> Seq<Seq<char>> {
    es.map_values(|e: (Seq<char>, JVal)| e.0)
}

/// No two entries share a key.
pub open spec fn distinct_keys(es: Seq<(Seq<char>, JVal)>) -> bool {
    forall|i: int, j: int| 0 <= i < j < es.len() ==> es[i].0 != es[j].0
}

/// jq truthiness: false exactly for `null` and `false`.
pub open spec fn truthy_spec(v: JVal) -> bool {
    !(v == JVal::Null || v == JVal::Bool(false))
}

/// Right-biased object merge: the entries of `r` are folded into `l` left
/// to right with `oinsert`, so `r` overwrites `l` key for key, `l`'s order
/// is kept for untouched keys, and `r`'s new keys are appended in `r`'s
/// order.
pub open spec fn omerge(
    l: Seq<(Seq<char>, JVal)>,
    r: Seq<(Seq<char>, JVal)>,
) -> Seq<(Seq<char>, JVal)>
    decreases r.len(),
{
    if r.len() == 0 {
        l
    } else {
        omerge(oinsert(l, r[0].0, r[0].1), r.drop_first())
    }
}

/// The merge operator: null with null; numeric sum; string, array
/// concatenation; right-biased object merge; nothing else combines.
pub open spec fn add_spec(a: JVal, b: JVal) -> Option<JVal> {
    match (a, b) {
        (JVal::Null, JVal::Null) => Some(JVal::Null),
        (JVal::Num(x), JVal::Num(y)) => Some(JVal::Num(number_sum(x, y))),
        (JVal::Str(x), JVal::Str(y)) => Some(JVal::Str(x + y)),
        (JVal::Arr(x), JVal::Arr(y)) => Some(JVal::Arr(x + y)),
        (JVal::Obj(x), JVal::Obj(y)) => Some(JVal::Obj(omerge(x, y))),
        _ => None,
    }
}

/// `key_idx` is a sound first-occurrence index: it is in bounds, it points
/// at `k` when `k` is present, and nothing before it has key `k`.
pub proof fn lemma_key_idx(es: Seq<(Seq<char>, JVal)>, k: Seq<char>)
    ensures
        0 <= key_idx(es, k) <= es.len(),
        key_idx(es, k) < es.len() ==> es[key_idx(es, k)].0 == k,
        forall|j: int| 0 <= j < key_idx(es, k) ==> es[j].0 != k,
    decreases es.len(),
{
    if es.len() == 0 {
    } else if es[0].0 == k {
    } else {
        lemma_key_idx(es.drop_first(), k);
        let i = key_idx(es, k);
        assert forall|j: int| 0 <= j < i implies es[j].0 != k by {
            if j > 0 {
                assert(es.drop_first()[j - 1] == es[j]);
            }
        }
        if i < es.len() {
            assert(es.drop_first()[i - 1] == es[i]);
        }
    }
}

/// `key_idx` is complete: an index that is preceded by no entry with key
/// `k`, and that either points at `k` or is the length, is the
/// first-occurrence index.
pub proof fn lemma_key_idx_is(es: Seq<(Seq<char>, JVal)>, k: Seq<char>, i: int)
    requires
        0 <= i <= es.len(),
        forall|j: int| 0 <= j < i ==> es[j].0 != k,
        i < es.len() ==> es[i].0 == k,
    ensures
        key_idx(es, k) == i,
{
    lemma_key_idx(es, k);
    let ki = key_idx(es, k);
    if ki < i {
        assert(es[ki].0 == k);
    } else if ki > i && i < es.len() {
        assert(es[i].0 != k);
    }
}

/// Inserting never disturbs key distinctness.
pub proof fn lemma_oinsert_distinct(es: Seq<(Seq<char>, JVal)>, k: Seq<char>, v: JVal)
    requires
        distinct_keys(es),
    ensures
        distinct_keys(oinsert(es, k, v)),
{
    lemma_key_idx(es, k);
    let r = oinsert(es, k, v);
    if has_key(es, k) {
        let ki = key_idx(es, k);
        assert forall|i: int, j: int| 0 <= i < j < r.len() implies r[i].0 != r[j].0 by {
            if i != ki && j != ki {
                assert(r[i].0 == es[i].0 && r[j].0 == es[j].0);
            } else if i == ki {
                assert(r[j] == es[j]);
            } else {
                assert(r[i] == es[i]);
            }
        }
    } else {
        assert forall|i: int, j: int| 0 <= i < j < r.len() implies r[i].0 != r[j].0 by {
            if j == es.len() {
                assert(r[i] == es[i] && r[j].0 == k);
            }
        }
    }
}

/// Inserting an existing key keeps the key sequence unchanged; inserting a
/// new key appends it.
pub proof fn lemma_oinsert_keys(es: Seq<(Seq<char>, JVal)>, k: Seq<char>, v: JVal)
    ensures
        has_key(es, k) ==> okeys(oinsert(es, k, v)) =~= okeys(es),
        !has_key(es, k) ==> okeys(oinsert(es, k, v)) =~= okeys(es).push(k),
{
    lemma_key_idx(es, k);
}

/// After an insert, looking the key up yields the inserted value, and every
/// other key is untouched.
pub proof fn lemma_oinsert_lookup(es: Seq<(Seq<char>, JVal)>, k: Seq<char>, v: JVal)
    ensures
        olookup(oinsert(es, k, v), k) == Some(v),
        forall|k2: Seq<char>| k2 != k ==> olookup(oinsert(es, k, v), k2) == olookup(es, k2),
{
    lemma_key_idx(es, k);
    let r = oinsert(es, k, v);
    if has_key(es, k) {
        let ki = key_idx(es, k);
        lemma_key_idx_is(r, k, ki);
    } else {
        lemma_key_idx_is(r, k, es.len() as int);
    }
    assert forall|k2: Seq<char>| k2 != k implies olookup(r, k2) == olookup(es, k2) by {
        lemma_key_idx(es, k2);
        lemma_key_idx(r, k2);
        let i2 = key_idx(es, k2);
        if has_key(es, k2) {
            lemma_key_idx_is(r, k2, i2);
        } else {
            if has_key(es, k) {
                lemma_key_idx_is(r, k2, r.len() as int);
            } else {
                lemma_key_idx_is(r, k2, r.len() as int);
            }
        }
    }
}

/// Removing an existing key shortens the entries by exactly one and keeps
/// the other entries in order: the result is the concatenation of what was
/// before the key and what was after it.
pub proof fn lemma_oremove(es: Seq<(Seq<char>, JVal)>, k: Seq<char>)
    requires
        has_key(es, k),
    ensures
        oremove(es, k).len() == es.len() - 1,
        oremove(es, k) =~= es.subrange(0, key_idx(es, k)) + es.subrange(
            key_idx(es, k) + 1,
            es.len() as int,
        ),
{
    lemma_key_idx(es, k);
}

} // verus!
