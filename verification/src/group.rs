use vstd::prelude::*;
use vstd::string::StringExecFns;
use crate::model::{JVal, has_key, key_idx, lemma_key_idx};
use crate::value::{Value, path_models, lemma_arr_model, lemma_obj_model};

verus! {

broadcast use vstd::std_specs::vec::group_vec_axioms, vstd::seq::group_seq_axioms;

/// The matches a grouping query gathers: walking the path with every array
/// expanded element by element, each value reached by the whole path is
/// paired with the node that holds it.
pub open spec fn gather_spec(v: JVal, path: Seq<Seq<char>>) -> Seq<(JVal, JVal)>
    decreases v,
    via gather_spec_dec
{
    match v {
        JVal::Arr(items) => gather_arr(items, path),
        JVal::Obj(es) => if path.len() > 0 && has_key(es, path[0]) {
            if path.len() == 1 {
                seq![(es[key_idx(es, path[0])].1, v)]
            } else {
                gather_spec(es[key_idx(es, path[0])].1, path.drop_first())
            }
        } else {
            Seq::empty()
        },
        _ => Seq::empty(),
    }
}

#[via_fn]
proof fn gather_spec_dec(v: JVal, path: Seq<Seq<char>>) {
    match v {
        JVal::Obj(es) => {
            if path.len() > 0 && has_key(es, path[0]) {
                lemma_key_idx(es, path[0]);
                let ki = key_idx(es, path[0]);
                assert(decreases_to!(v => v->Obj_0));
                assert(v->Obj_0 == es);
                assert(decreases_to!(es => es[ki]));
                assert(decreases_to!(es[ki] => es[ki].1));
            }
        },
        JVal::Arr(items) => {
            assert(decreases_to!(v => v->Arr_0));
            assert(v->Arr_0 == items);
        },
        _ => {},
    }
}

/// The matches gathered across the elements of an array, in order.
pub open spec fn gather_arr(items: Seq<JVal>, path: Seq<Seq<char>>) -> Seq<(JVal, JVal)>
    decreases items,
{
    if items.len() == 0 {
        Seq::empty()
    } else {
        gather_arr(items.drop_last(), path) + gather_spec(items.last(), path)
    }
}

/// The text a match is bucketed under: a string's own text or a number's
/// canonical text; other values fall into no bucket.
pub open spec fn bucket_key(v: JVal) -> Option<Seq<char>> {
    match v {
        JVal::Str(s) => Some(s),
        JVal::Num(n) => Some(n),
        _ => None,
    }
}

/// Position of the first bucket with text `k`, or the length when absent.
pub open spec fn bkey_idx(bs: Seq<(Seq<char>, Seq<JVal>)>, k: Seq<char>) -> int
    decreases bs.len(),
{
    if bs.len() == 0 {
        0
    } else if bs[0].0 == k {
        0
    } else {
        1 + bkey_idx(bs.drop_first(), k)
    }
}

/// One match dropped into the buckets: the holder joins the bucket of the
/// match's text, a new bucket opening at the end.
pub open spec fn badd(bs: Seq<(Seq<char>, Seq<JVal>)>, p: (JVal, JVal)) -> Seq<
    (Seq<char>, Seq<JVal>),
> {
    match bucket_key(p.0) {
        Some(ks) => {
            let i = bkey_idx(bs, ks);
            if 0 <= i < bs.len() {
                bs.update(i, (ks, bs[i].1.push(p.1)))
            } else {
                bs.push((ks, seq![p.1]))
            }
        },
        None => bs,
    }
}

/// All matches dropped into the buckets, left to right.
pub open spec fn bucket_fold(
    bs: Seq<(Seq<char>, Seq<JVal>)>,
    ps: Seq<(JVal, JVal)>,
) -> Seq<(Seq<char>, Seq<JVal>)>
    decreases ps.len(),
{
    if ps.len() == 0 {
        bs
    } else {
        bucket_fold(badd(bs, ps[0]), ps.drop_first())
    }
}

/// The grouping of a value by a path: its matches, bucketed by their text.
pub open spec fn group_by_spec(v: JVal, path: Seq<Seq<char>>) -> Seq<(Seq<char>, Seq<JVal>)> {
    bucket_fold(Seq::empty(), gather_spec(v, path))
}

/// The models of gathered match pairs, in order.
pub open spec fn pair_value_models(ps: Seq<(Value, Value)>) -> Seq<(JVal, JVal)> {
    ps.map_values(|p: (Value, Value)| (p.0@, p.1@))
}

/// The models of rendered buckets, in order.
pub open spec fn bucket_models(bs: Seq<(String, Vec<Value>)>) -> Seq<(Seq<char>, Seq<JVal>)> {
    bs.map_values(|b: (String, Vec<Value>)| (b.0@, Value::arr_model(b.1@)))
}

/// Gather this value's matches for the path into `out`.
fn gather_into(v: &Value, path: &[String], from: usize, out: &mut Vec<(Value, Value)>)
    requires
        from <= path@.len(),
    ensures
        pair_value_models(final(out)@) == pair_value_models(old(out)@) + gather_spec(
            v@,
            path_models(path@).subrange(from as int, path@.len() as int),
        ),
    decreases v,
{
    let ghost rest = path_models(path@).subrange(from as int, path@.len() as int);
    match v {
        Value::Arr(items) => {
            proof {
                lemma_arr_model(items@);
            }
            let ghost m = Value::arr_model(items@);
            let mut i: usize = 0;
            proof {
                assert(m.take(0) =~= Seq::<JVal>::empty());
                assert(pair_value_models(out@) + gather_arr(m.take(0), rest)
                    =~= pair_value_models(out@));
            }
            while i < items.len()
                invariant
                    *v == Value::Arr(*items),
                    from <= path@.len(),
                    rest == path_models(path@).subrange(from as int, path@.len() as int),
                    m == Value::arr_model(items@),
                    m.len() == items@.len(),
                    forall|j: int| 0 <= j < m.len() ==> m[j] == items@[j]@,
                    0 <= i <= items@.len(),
                    pair_value_models(out@) == pair_value_models(old(out)@) + gather_arr(
                        m.take(i as int),
                        rest,
                    ),
                decreases items@.len() - i,
            {
                proof {
                    assert(decreases_to!(*v => v->Arr_0));
                    assert(v->Arr_0 == *items);
                    assert(decreases_to!(*items => items@));
                    assert(decreases_to!(items@ => items@[i as int]));
                }
                gather_into(&items[i], path, from, out);
                proof {
                    assert(m.take(i + 1).drop_last() =~= m.take(i as int));
                    assert(m.take(i + 1).last() == m[i as int]);
                    assert(pair_value_models(out@) =~= pair_value_models(old(out)@)
                        + gather_arr(m.take(i + 1), rest));
                }
                i = i + 1;
            }
            proof {
                assert(m.take(m.len() as int) =~= m);
                assert(gather_spec(v@, rest) == gather_arr(m, rest));
            }
        },
        Value::Obj(o) => {
            proof {
                lemma_obj_model(o.entries@);
                assert(v@ == JVal::Obj(Value::obj_model(o.entries@)));
            }
            let ghost es = Value::obj_model(o.entries@);
            if from < path.len() {
                proof {
                    assert(rest[0] == path_models(path@)[from as int]);
                    lemma_key_idx(es, rest[0]);
                }
                match o.index_of_key(path[from].as_str()) {
                    Some(ki_exec) => {
                        let child = &o.entries[ki_exec].1;
                        proof {
                            assert(has_key(es, rest[0]));
                            assert(child@ == es[key_idx(es, rest[0])].1);
                        }
                        if from + 1 == path.len() {
                            out.push((child.duplicate(), v.duplicate()));
                            proof {
                                assert(rest.len() == 1);
                                assert(pair_value_models(out@) =~= pair_value_models(old(out)@)
                                    + gather_spec(v@, rest));
                            }
                        } else {
                            proof {
                                assert(decreases_to!(*v => v->Obj_0));
                                assert(v->Obj_0 == *o);
                                assert(decreases_to!(*o => o.entries));
                                assert(decreases_to!(o.entries => o.entries@));
                                assert(decreases_to!(o.entries@ => o.entries@[ki_exec as int]));
                                assert(decreases_to!(o.entries@[ki_exec as int] => o.entries@[
                                    ki_exec as int
                                ].1));
                            }
                            gather_into(child, path, from + 1, out);
                            proof {
                                assert(rest.drop_first() =~= path_models(path@).subrange(
                                    from + 1,
                                    path@.len() as int,
                                ));
                                assert(gather_spec(v@, rest) == gather_spec(
                                    es[key_idx(es, rest[0])].1,
                                    rest.drop_first(),
                                ));
                            }
                        }
                    },
                    None => {
                        proof {
                            assert(!has_key(es, rest[0]));
                            assert(gather_spec(v@, rest) =~= Seq::<(JVal, JVal)>::empty());
                            assert(pair_value_models(out@) =~= pair_value_models(out@) + gather_spec(
                                v@,
                                rest,
                            ));
                        }
                    },
                }
            } else {
                proof {
                    assert(rest.len() == 0);
                    assert(pair_value_models(out@) =~= pair_value_models(out@) + gather_spec(
                        v@,
                        rest,
                    ));
                }
            }
        },
        _ => {
            proof {
                assert(gather_spec(v@, rest) =~= Seq::<(JVal, JVal)>::empty());
                assert(pair_value_models(out@) =~= pair_value_models(out@) + gather_spec(v@, rest));
            }
        },
    }
}

/// Position of the first rendered bucket with the given text.
fn bucket_index(bs: &Vec<(String, Vec<Value>)>, key: &String) -> (r: Option<usize>)
    ensures
        match r {
            Some(i) => i < bs@.len() && bkey_idx(bucket_models(bs@), key@) == i,
            None => bkey_idx(bucket_models(bs@), key@) == bucket_models(bs@).len(),
        },
{
    let ghost m = bucket_models(bs@);
    let mut i: usize = 0;
    while i < bs.len()
        invariant
            0 <= i <= bs@.len(),
            m == bucket_models(bs@),
            m.len() == bs@.len(),
            forall|j: int| 0 <= j < m.len() ==> m[j].0 == bs@[j].0@,
            forall|j: int| 0 <= j < i ==> m[j].0 != key@,
        decreases bs@.len() - i,
    {
        if bs[i].0 == *key {
            proof {
                lemma_bkey_idx_is(m, key@, i as int);
            }
            return Some(i);
        }
        i = i + 1;
    }
    proof {
        lemma_bkey_idx_is(m, key@, m.len() as int);
    }
    None
}

/// `bkey_idx` is a first-occurrence index, like `key_idx`.
proof fn lemma_bkey_idx(bs: Seq<(Seq<char>, Seq<JVal>)>, k: Seq<char>)
    ensures
        0 <= bkey_idx(bs, k) <= bs.len(),
        bkey_idx(bs, k) < bs.len() ==> bs[bkey_idx(bs, k)].0 == k,
        forall|j: int| 0 <= j < bkey_idx(bs, k) ==> bs[j].0 != k,
    decreases bs.len(),
{
    if bs.len() == 0 {
    } else if bs[0].0 == k {
    } else {
        lemma_bkey_idx(bs.drop_first(), k);
        let i = bkey_idx(bs, k);
        assert forall|j: int| 0 <= j < i implies bs[j].0 != k by {
            if j > 0 {
                assert(bs.drop_first()[j - 1] == bs[j]);
            }
        }
        if i < bs.len() {
            assert(bs.drop_first()[i - 1] == bs[i]);
        }
    }
}

/// An index preceded by no bucket with text `k`, and pointing at `k` or at
/// the length, is the first-occurrence index.
proof fn lemma_bkey_idx_is(bs: Seq<(Seq<char>, Seq<JVal>)>, k: Seq<char>, i: int)
    requires
        0 <= i <= bs.len(),
        forall|j: int| 0 <= j < i ==> bs[j].0 != k,
        i < bs.len() ==> bs[i].0 == k,
    ensures
        bkey_idx(bs, k) == i,
{
    lemma_bkey_idx(bs, k);
    let ki = bkey_idx(bs, k);
    if ki < i {
        assert(bs[ki].0 == k);
    } else if ki > i && i < bs.len() {
        assert(bs[i].0 != k);
    }
}

impl Value {
    /// Group the values reachable by wildcard expansion of the path,
    /// bucketed by their own text: each reached string or number value
    /// files the node that holds it under that text, in first-seen bucket
    /// order.
    pub fn group_by(&self, path: &[String]) -> (r: Vec<(String, Vec<Value>)>)
        ensures
            bucket_models(r@) == group_by_spec(self@, path_models(path@)),
    {
        let mut pairs: Vec<(Value, Value)> = Vec::new();
        gather_into(self, path, 0, &mut pairs);
        let ghost gps = pair_value_models(pairs@);
        proof {
            assert(path_models(path@).subrange(0, path@.len() as int) =~= path_models(path@));
            assert(pair_value_models(Seq::<(Value, Value)>::empty()) =~= Seq::<
                (JVal, JVal),
            >::empty());
            assert(gps == gather_spec(self@, path_models(path@)));
        }
        let mut out: Vec<(String, Vec<Value>)> = Vec::new();
        let n = pairs.len();
        let mut i: usize = 0;
        proof {
            assert(gps.subrange(0, n as int) =~= gps);
            assert(bucket_models(out@) =~= Seq::<(Seq<char>, Seq<JVal>)>::empty());
        }
        while i < n
            invariant
                0 <= i <= n,
                n == pairs@.len() == gps.len(),
                gps == pair_value_models(pairs@),
                forall|j: int| 0 <= j < n ==> gps[j] == (pairs@[j].0@, pairs@[j].1@),
                bucket_fold(Seq::empty(), gps) == bucket_fold(
                    bucket_models(out@),
                    gps.subrange(i as int, n as int),
                ),
            decreases n - i,
        {
            let ghost b0 = bucket_models(out@);
            proof {
                assert(gps.subrange(i as int, n as int)[0] == gps[i as int]);
                assert(gps.subrange(i as int, n as int).drop_first() =~= gps.subrange(
                    i + 1,
                    n as int,
                ));
            }
            let key_opt: Option<String> = match &pairs[i].0 {
                Value::Str(s) => Some(s.clone()),
                Value::Num(t) => Some(t.clone()),
                _ => None,
            };
            match key_opt {
                Some(key) => {
                    proof {
                        assert(bucket_key(gps[i as int].0) == Some(key@));
                    }
                    match bucket_index(&out, &key) {
                        Some(bi) => {
                            let holder = pairs[i].1.duplicate();
                            let ghost gh = holder;
                            let ghost oss = out@;
                            let mut entry = out.remove(bi);
                            entry.1.push(holder);
                            out.insert(bi, entry);
                            proof {
                                assert(out@ =~= oss.update(bi as int, out@[bi as int]));
                                assert(out@[bi as int].0 == oss[bi as int].0);
                                assert(out@[bi as int].1@ =~= oss[bi as int].1@.push(gh));
                                lemma_arr_model(out@[bi as int].1@);
                                lemma_arr_model(oss[bi as int].1@);
                                assert(Value::arr_model(out@[bi as int].1@)
                                    =~= Value::arr_model(oss[bi as int].1@).push(
                                    pairs@[i as int].1@,
                                ));
                                lemma_bkey_idx(b0, key@);
                                let bres = badd(b0, gps[i as int]);
                                assert(bres == b0.update(
                                    bi as int,
                                    (key@, b0[bi as int].1.push(gps[i as int].1)),
                                ));
                                assert(out@.len() == oss.len());
                                assert forall|j: int|
                                    0 <= j < out@.len() implies bucket_models(out@)[j] == bres[j]
                                by {
                                    if j != bi {
                                        assert(out@[j] == oss[j]);
                                        assert(bucket_models(out@)[j] == (
                                            out@[j].0@,
                                            Value::arr_model(out@[j].1@),
                                        ));
                                        assert(b0[j] == (oss[j].0@, Value::arr_model(oss[j].1@)));
                                    } else {
                                        assert(b0[j] == (oss[j].0@, Value::arr_model(oss[j].1@)));
                                    }
                                }
                                assert(bucket_models(out@) =~= bres);
                            }
                        },
                        None => {
                            let holder = pairs[i].1.duplicate();
                            out.push((key, vec![holder]));
                            proof {
                                let last = out@[out@.len() - 1];
                                lemma_arr_model(last.1@);
                                assert(Value::arr_model(last.1@) =~= seq![pairs@[i as int].1@]);
                                assert(bucket_models(out@) =~= badd(b0, gps[i as int]));
                            }
                        },
                    }
                },
                None => {
                    proof {
                        assert(bucket_key(gps[i as int].0) is None);
                        assert(bucket_models(out@) == badd(b0, gps[i as int]));
                    }
                },
            }
            i = i + 1;
        }
        proof {
            assert(gps.subrange(n as int, n as int) =~= Seq::<(JVal, JVal)>::empty());
        }
        out
    }
}

} // verus!
