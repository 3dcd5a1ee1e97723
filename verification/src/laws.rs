use vstd::prelude::*;
use crate::model::{
    JVal, add_spec, okeys, olookup, oinsert, oremove, omerge, has_key, key_idx, distinct_keys,
    lemma_key_idx, lemma_oinsert_keys, lemma_oinsert_lookup, lemma_oinsert_distinct, lemma_oremove,
};
use crate::slice::{wrap_spec, abs_bound_spec, bound_ok, opt_int};

verus! {

broadcast use vstd::seq::group_seq_axioms;

/// Negative-index wrapping is self-consistent: on a collection of length
/// `len`, the index `-k` with `1 <= k <= len` wraps to `len - k`, and with
/// `k > len` the wrap fails.
pub proof fn law_wrap_negative(len: int, k: int)
    requires
        len >= 0,
        k >= 1,
    ensures
        k <= len ==> wrap_spec(-k, len) == Some(len - k),
        k > len ==> wrap_spec(-k, len) is None,
{
}

/// Slicing yields `max(0, upto - from)` elements after clamping, for any
/// combination of present, absent and negative bounds whose wrap succeeds.
pub proof fn law_range_element_count(items: Seq<JVal>, from: Option<i64>, upto: Option<i64>)
    requires
        bound_ok(opt_int(from), items.len() as int),
        bound_ok(opt_int(upto), items.len() as int),
    ensures
        ({
            let len = items.len() as int;
            let lo = abs_bound_spec(opt_int(from), len, 0);
            let hi = abs_bound_spec(opt_int(upto), len, len);
            items.subrange(lo, if hi > lo {
                hi
            } else {
                lo
            }).len() == if hi - lo > 0 {
                hi - lo
            } else {
                0
            }
        }),
{
}

/// Updating an existing key of an object changes only that key's value:
/// the key sequence — and with it the entry order and the entry count — is
/// unchanged, the key holds the new value, and every other key keeps its
/// value.
pub proof fn law_update_existing_key(es: Seq<(Seq<char>, JVal)>, k: Seq<char>, v: JVal)
    requires
        has_key(es, k),
    ensures
        okeys(oinsert(es, k, v)) =~= okeys(es),
        oinsert(es, k, v).len() == es.len(),
        olookup(oinsert(es, k, v), k) == Some(v),
        forall|k2: Seq<char>| k2 != k ==> olookup(oinsert(es, k, v), k2) == olookup(es, k2),
{
    lemma_oinsert_keys(es, k, v);
    lemma_oinsert_lookup(es, k, v);
    lemma_key_idx(es, k);
}

/// Removing an existing key of an object removes exactly one entry: the
/// count decreases by one, the remaining entries keep their relative
/// order, the key is gone, and every other key keeps its value.
pub proof fn law_remove_existing_key(es: Seq<(Seq<char>, JVal)>, k: Seq<char>)
    requires
        has_key(es, k),
        distinct_keys(es),
    ensures
        oremove(es, k).len() == es.len() - 1,
        oremove(es, k) =~= es.subrange(0, key_idx(es, k)) + es.subrange(
            key_idx(es, k) + 1,
            es.len() as int,
        ),
        olookup(oremove(es, k), k) is None,
        forall|k2: Seq<char>| k2 != k ==> olookup(oremove(es, k), k2) == olookup(es, k2),
{
    lemma_key_idx(es, k);
    lemma_oremove(es, k);
    let r = oremove(es, k);
    let ki = key_idx(es, k);
    assert forall|k2: Seq<char>| k2 != k implies olookup(r, k2) == olookup(es, k2) by {
        lemma_key_idx(es, k2);
        lemma_key_idx(r, k2);
        let i2 = key_idx(es, k2);
        if has_key(es, k2) {
            if i2 < ki {
                crate::model::lemma_key_idx_is(r, k2, i2);
            } else {
                // i2 != ki since the keys differ
                crate::model::lemma_key_idx_is(r, k2, i2 - 1);
            }
        } else {
            crate::model::lemma_key_idx_is(r, k2, r.len() as int);
        }
    }
    assert forall|j: int| 0 <= j < r.len() implies r[j].0 != k by {
        if j < ki {
        } else {
            assert(r[j] == es[j + 1]);
        }
    }
    crate::model::lemma_key_idx_is(r, k, r.len() as int);
}

/// Removing one array element at a valid position shortens the array by
/// exactly one and shifts every later element down by one position.
pub proof fn law_remove_array_element(items: Seq<JVal>, p: int)
    requires
        0 <= p < items.len(),
    ensures
        items.remove(p).len() == items.len() - 1,
        forall|j: int| 0 <= j < p ==> items.remove(p)[j] == items[j],
        forall|j: int| p <= j < items.len() - 1 ==> items.remove(p)[j] == items[j + 1],
{
}

/// The merge of two nulls is null.
pub proof fn law_add_null()
    ensures
        add_spec(JVal::Null, JVal::Null) == Some(JVal::Null),
{
}

/// String merge is associative and has the empty string as identity.
pub proof fn law_add_string(x: Seq<char>, y: Seq<char>, z: Seq<char>)
    ensures
        add_spec(JVal::Str(x), JVal::Str(Seq::empty())) == Some(JVal::Str(x)),
        add_spec(JVal::Str(Seq::empty()), JVal::Str(x)) == Some(JVal::Str(x)),
        ({
            let xy = (x + y) + z;
            let yz = x + (y + z);
            add_spec(JVal::Str(x + y), JVal::Str(z)) == Some(JVal::Str(xy)) && add_spec(
                JVal::Str(x),
                JVal::Str(y + z),
            ) == Some(JVal::Str(yz)) && xy =~= yz
        }),
{
    assert(x + Seq::<char>::empty() =~= x);
    assert(Seq::<char>::empty() + x =~= x);
}

/// Array merge is associative and has the empty array as identity.
pub proof fn law_add_array(x: Seq<JVal>, y: Seq<JVal>, z: Seq<JVal>)
    ensures
        add_spec(JVal::Arr(x), JVal::Arr(Seq::empty())) == Some(JVal::Arr(x)),
        add_spec(JVal::Arr(Seq::empty()), JVal::Arr(x)) == Some(JVal::Arr(x)),
        ({
            let xy = (x + y) + z;
            let yz = x + (y + z);
            add_spec(JVal::Arr(x + y), JVal::Arr(z)) == Some(JVal::Arr(xy)) && add_spec(
                JVal::Arr(x),
                JVal::Arr(y + z),
            ) == Some(JVal::Arr(yz)) && xy =~= yz
        }),
{
    assert(x + Seq::<JVal>::empty() =~= x);
    assert(Seq::<JVal>::empty() + x =~= x);
}

/// Merging an empty object from the right changes nothing.
pub proof fn law_omerge_empty_right(x: Seq<(Seq<char>, JVal)>)
    ensures
        omerge(x, Seq::empty()) == x,
{
}

/// Merging into an empty object from the left reproduces the right operand,
/// as long as its keys are distinct.
pub proof fn law_omerge_empty_left(y: Seq<(Seq<char>, JVal)>)
    requires
        distinct_keys(y),
    ensures
        omerge(Seq::empty(), y) =~= y,
{
    lemma_omerge_prefix(Seq::empty(), y);
}

/// Folding entries with distinct keys, none of which appears in the
/// accumulator, appends them in order.
proof fn lemma_omerge_prefix(acc: Seq<(Seq<char>, JVal)>, y: Seq<(Seq<char>, JVal)>)
    requires
        distinct_keys(y),
        forall|j: int| 0 <= j < y.len() ==> !has_key(acc, y[j].0),
    ensures
        omerge(acc, y) =~= acc + y,
    decreases y.len(),
{
    if y.len() == 0 {
        assert(acc + y =~= acc);
    } else {
        lemma_key_idx(acc, y[0].0);
        assert(!has_key(acc, y[0].0));
        let acc2 = oinsert(acc, y[0].0, y[0].1);
        assert(acc2 == acc.push((y[0].0, y[0].1)));
        assert(acc2 =~= acc.push(y[0]));
        let y2 = y.drop_first();
        assert forall|j: int| 0 <= j < y2.len() implies !has_key(acc2, y2[j].0) by {
            assert(y2[j] == y[j + 1]);
            lemma_key_idx(acc, y2[j].0);
            lemma_key_idx(acc2, y2[j].0);
            assert(y[j + 1].0 != y[0].0);
            crate::model::lemma_key_idx_is(acc2, y2[j].0, acc2.len() as int);
        }
        assert(distinct_keys(y2)) by {
            assert(forall|i: int, j: int|
                0 <= i < j < y2.len() ==> y2[i] == y[i + 1] && y2[j] == y[j + 1]);
        }
        lemma_omerge_prefix(acc.push(y[0]), y2);
        assert(omerge(acc, y) == omerge(acc2, y2));
        assert(acc.push(y[0]) + y2 =~= acc + y);
    }
}


/// Merging a concatenation is merging its parts one after the other.
proof fn lemma_omerge_concat(
    a: Seq<(Seq<char>, JVal)>,
    b: Seq<(Seq<char>, JVal)>,
    c: Seq<(Seq<char>, JVal)>,
)
    ensures
        omerge(a, b + c) == omerge(omerge(a, b), c),
    decreases b.len(),
{
    if b.len() == 0 {
        assert(b + c =~= c);
    } else {
        assert((b + c)[0] == b[0]);
        assert((b + c).drop_first() =~= b.drop_first() + c);
        lemma_omerge_concat(oinsert(a, b[0].0, b[0].1), b.drop_first(), c);
    }
}

/// Overwriting a key twice is overwriting it once with the later value.
proof fn lemma_oinsert_overwrite(a: Seq<(Seq<char>, JVal)>, k: Seq<char>, v1: JVal, v: JVal)
    ensures
        oinsert(oinsert(a, k, v1), k, v) =~= oinsert(a, k, v),
{
    lemma_key_idx(a, k);
    let a1 = oinsert(a, k, v1);
    lemma_key_idx(a1, k);
    if has_key(a, k) {
        let ki = key_idx(a, k);
        crate::model::lemma_key_idx_is(a1, k, ki);
    } else {
        crate::model::lemma_key_idx_is(a1, k, a.len() as int);
    }
}

/// Inserting two different keys commutes, as long as the first is already
/// present, so that its insert is an update in place.
proof fn lemma_oinsert_comm(
    a: Seq<(Seq<char>, JVal)>,
    k: Seq<char>,
    v: JVal,
    k2: Seq<char>,
    v2: JVal,
)
    requires
        has_key(a, k),
        k2 != k,
    ensures
        oinsert(oinsert(a, k, v), k2, v2) =~= oinsert(oinsert(a, k2, v2), k, v),
{
    lemma_key_idx(a, k);
    lemma_key_idx(a, k2);
    let ki = key_idx(a, k);
    let a1 = oinsert(a, k, v);
    let a2 = oinsert(a, k2, v2);
    lemma_key_idx(a1, k2);
    lemma_key_idx(a2, k);
    if has_key(a, k2) {
        let k2i = key_idx(a, k2);
        crate::model::lemma_key_idx_is(a1, k2, k2i);
        crate::model::lemma_key_idx_is(a2, k, ki);
    } else {
        crate::model::lemma_key_idx_is(a1, k2, a1.len() as int);
        crate::model::lemma_key_idx_is(a2, k, ki);
    }
}

/// When a key is already present and absent from the right operand, its
/// in-place overwrite commutes with the merge.
proof fn lemma_omerge_oinsert_present(
    a: Seq<(Seq<char>, JVal)>,
    k: Seq<char>,
    v: JVal,
    b: Seq<(Seq<char>, JVal)>,
)
    requires
        has_key(a, k),
        forall|j: int| 0 <= j < b.len() ==> b[j].0 != k,
    ensures
        omerge(oinsert(a, k, v), b) == oinsert(omerge(a, b), k, v),
    decreases b.len(),
{
    if b.len() == 0 {
    } else {
        lemma_oinsert_comm(a, k, v, b[0].0, b[0].1);
        assert(oinsert(oinsert(a, k, v), b[0].0, b[0].1) == oinsert(
            oinsert(a, b[0].0, b[0].1),
            k,
            v,
        ));
        let an = oinsert(a, b[0].0, b[0].1);
        lemma_oinsert_lookup(a, b[0].0, b[0].1);
        lemma_key_idx(a, k);
        lemma_key_idx(an, k);
        assert(olookup(an, k) == olookup(a, k));
        assert(has_key(an, k));
        assert(forall|j: int| 0 <= j < b.drop_first().len() ==> b.drop_first()[j] == b[j + 1]);
        lemma_omerge_oinsert_present(an, k, v, b.drop_first());
    }
}

/// Merging after an insert on the right is inserting after the merge, as
/// long as the right operand's keys are distinct.
proof fn lemma_omerge_oinsert(
    a: Seq<(Seq<char>, JVal)>,
    b: Seq<(Seq<char>, JVal)>,
    k: Seq<char>,
    v: JVal,
)
    requires
        distinct_keys(b),
    ensures
        omerge(a, oinsert(b, k, v)) == oinsert(omerge(a, b), k, v),
    decreases b.len(),
{
    lemma_key_idx(b, k);
    if b.len() == 0 {
        let single = oinsert(b, k, v);
        assert(single =~= Seq::<(Seq<char>, JVal)>::empty().push((k, v)));
        assert(single[0] == (k, v));
        assert(single.drop_first() =~= Seq::<(Seq<char>, JVal)>::empty());
        assert(omerge(a, single) == omerge(oinsert(a, k, v), single.drop_first()));
    } else if b[0].0 == k {
        assert(key_idx(b, k) == 0);
        let bu = oinsert(b, k, v);
        assert(bu == b.update(0, (k, v)));
        assert(bu[0] == (k, v));
        assert(bu.drop_first() =~= b.drop_first());
        assert(omerge(a, bu) == omerge(oinsert(a, k, v), b.drop_first()));
        // the tail holds no further k, so both sides settle k in place
        let a1 = oinsert(a, k, b[0].1);
        let a2 = oinsert(a, k, v);
        lemma_oinsert_lookup(a, k, b[0].1);
        lemma_key_idx(a1, k);
        assert(has_key(a1, k));
        assert forall|j: int| 0 <= j < b.drop_first().len() implies b.drop_first()[j].0 != k by {
            assert(b.drop_first()[j] == b[j + 1]);
        }
        lemma_omerge_oinsert_present(a1, k, v, b.drop_first());
        lemma_oinsert_overwrite(a, k, b[0].1, v);
        assert(oinsert(a1, k, v) =~= a2);
        assert(omerge(a2, b.drop_first()) == omerge(oinsert(a1, k, v), b.drop_first()));
        assert(omerge(oinsert(a1, k, v), b.drop_first()) == oinsert(
            omerge(a1, b.drop_first()),
            k,
            v,
        ));
        assert(omerge(a, b) == omerge(a1, b.drop_first()));
    } else {
        let bu = oinsert(b, k, v);
        let bt = b.drop_first();
        assert(distinct_keys(bt)) by {
            assert(forall|i: int, j: int|
                0 <= i < j < bt.len() ==> bt[i] == b[i + 1] && bt[j] == b[j + 1]);
        }
        if has_key(b, k) {
            let ki = key_idx(b, k);
            assert(ki >= 1);
            assert(bu == b.update(ki, (k, v)));
            assert(bu[0] == b[0]);
            assert forall|j: int| 0 <= j < ki - 1 implies bt[j].0 != k by {
                assert(bt[j] == b[j + 1]);
            }
            assert(bt[ki - 1] == b[ki]);
            crate::model::lemma_key_idx_is(bt, k, ki - 1);
            assert(bu.drop_first() =~= bt.update(ki - 1, (k, v)));
            assert(bu.drop_first() =~= oinsert(bt, k, v));
        } else {
            assert(bu == b.push((k, v)));
            assert(bu[0] == b[0]);
            assert forall|j: int| 0 <= j < bt.len() implies bt[j].0 != k by {
                assert(bt[j] == b[j + 1]);
            }
            crate::model::lemma_key_idx_is(bt, k, bt.len() as int);
            assert(bu.drop_first() =~= bt.push((k, v)));
            assert(bu.drop_first() =~= oinsert(bt, k, v));
        }
        assert(omerge(a, bu) == omerge(oinsert(a, b[0].0, b[0].1), oinsert(bt, k, v)));
        lemma_omerge_oinsert(oinsert(a, b[0].0, b[0].1), bt, k, v);
        assert(omerge(a, b) == omerge(oinsert(a, b[0].0, b[0].1), bt));
    }
}

/// Merging a merged pair is merging the concatenation, as long as the
/// middle operand's keys are distinct.
proof fn lemma_omerge_nested(
    a: Seq<(Seq<char>, JVal)>,
    b: Seq<(Seq<char>, JVal)>,
    c: Seq<(Seq<char>, JVal)>,
)
    requires
        distinct_keys(b),
    ensures
        omerge(a, omerge(b, c)) == omerge(a, b + c),
    decreases c.len(),
{
    if c.len() == 0 {
        assert(b + c =~= b);
    } else {
        let b2 = oinsert(b, c[0].0, c[0].1);
        lemma_oinsert_distinct(b, c[0].0, c[0].1);
        assert(omerge(b, c) == omerge(b2, c.drop_first()));
        lemma_omerge_nested(a, b2, c.drop_first());
        // both concatenations fold down to the same merge
        lemma_omerge_concat(a, b2, c.drop_first());
        lemma_omerge_concat(a, b, c);
        assert((b + c)[0] == b[0] || b.len() == 0);
        lemma_omerge_oinsert(a, b, c[0].0, c[0].1);
        assert(omerge(a, b2) == oinsert(omerge(a, b), c[0].0, c[0].1));
        let sing = Seq::<(Seq<char>, JVal)>::empty().push(c[0]);
        assert(omerge(omerge(a, b), sing) == omerge(
            oinsert(omerge(a, b), c[0].0, c[0].1),
            sing.drop_first(),
        )) by {
            assert(sing[0] == c[0]);
        }
        assert(sing.drop_first() =~= Seq::<(Seq<char>, JVal)>::empty());
        assert(omerge(omerge(a, b), sing) == oinsert(omerge(a, b), c[0].0, c[0].1));
        lemma_omerge_concat(omerge(a, b), sing, c.drop_first());
        assert(sing + c.drop_first() =~= c);
        assert(omerge(omerge(a, b), c) == omerge(omerge(omerge(a, b), sing), c.drop_first()));
        assert(omerge(a, b + c) == omerge(omerge(a, b), c));
    }
}

/// Object merge is associative: merging in either association gives the
/// same entries in the same order, as long as the middle operand's keys
/// are distinct (objects built by this crate's inserts always are).
pub proof fn law_add_object_associative(
    a: Seq<(Seq<char>, JVal)>,
    b: Seq<(Seq<char>, JVal)>,
    c: Seq<(Seq<char>, JVal)>,
)
    requires
        distinct_keys(b),
    ensures
        add_spec(JVal::Obj(omerge(a, b)), JVal::Obj(c)) == Some(
            JVal::Obj(omerge(a, omerge(b, c))),
        ),
{
    lemma_omerge_nested(a, b, c);
    lemma_omerge_concat(a, b, c);
}


/// Objects built by folding inserts keep their keys unique: key uniqueness
/// is enforced by the insert operation itself.
pub proof fn law_pairs_fold_distinct(
    acc: Seq<(Seq<char>, JVal)>,
    ps: Seq<(Seq<char>, JVal)>,
)
    requires
        distinct_keys(acc),
    ensures
        distinct_keys(crate::value::Value::pairs_fold(acc, ps)),
    decreases ps.len(),
{
    if ps.len() > 0 {
        lemma_oinsert_distinct(acc, ps[0].0, ps[0].1);
        law_pairs_fold_distinct(oinsert(acc, ps[0].0, ps[0].1), ps.drop_first());
    }
}

/// Merging two objects keeps the left operand's key uniqueness.
pub proof fn law_omerge_distinct(l: Seq<(Seq<char>, JVal)>, r: Seq<(Seq<char>, JVal)>)
    requires
        distinct_keys(l),
    ensures
        distinct_keys(omerge(l, r)),
    decreases r.len(),
{
    if r.len() > 0 {
        lemma_oinsert_distinct(l, r[0].0, r[0].1);
        law_omerge_distinct(oinsert(l, r[0].0, r[0].1), r.drop_first());
    }
}


/// Objects built from key/value pairs keep their keys unique, whenever the
/// construction succeeds.
pub proof fn law_from_pairs_distinct(
    acc: Seq<(Seq<char>, JVal)>,
    ps: Seq<(JVal, JVal)>,
)
    requires
        distinct_keys(acc),
        crate::adapter::from_pairs_fold(acc, ps) is Some,
    ensures
        distinct_keys(crate::adapter::from_pairs_fold(acc, ps)->Some_0),
    decreases ps.len(),
{
    if ps.len() > 0 {
        match ps[0].0 {
            JVal::Str(k) => {
                lemma_oinsert_distinct(acc, k, ps[0].1);
                law_from_pairs_distinct(oinsert(acc, k, ps[0].1), ps.drop_first());
            },
            _ => {},
        }
    }
}

} // verus!
