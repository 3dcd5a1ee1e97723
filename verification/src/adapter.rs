use vstd::prelude::*;
use vstd::string::StringExecFns;
use vstd::string::StrSliceExecFns;
use vstd::pervasive::VecAdditionalExecFns;
use crate::error::Error;
use crate::model::{JVal, olookup, oinsert, oremove, omerge, add_spec, truthy_spec};
use crate::num::{parsed_number, parse_number, add_numbers, text_as_u64, text_as_i64};
use crate::slice::{opt_int, bound_ok, abs_bound_spec, abs_index_spec, clamp_bound, locate_index, skip_take};
use crate::value::{Value, JsonObject, lemma_arr_model, lemma_obj_model};

verus! {

broadcast use vstd::std_specs::vec::group_vec_axioms, vstd::seq::group_seq_axioms;

/// Whether a path-update that finds an unaddressable receiver aborts
/// (`Essential`) or leaves the value unchanged (`Optional`).
#[derive(Clone, Copy, Debug, PartialEq, Eq)]
pub enum Opt {
    Essential,
    Optional,
}

/// The query-value adapter: wraps a [`Value`] and offers the operations a
/// filter evaluation engine drives — conversion, iteration, indexing,
/// slicing, path update and merge.
///
/// The adapter owns its value outright; an updating operation consumes the
/// adapter and hands back a new one, so adapters over the same document
/// never observe each other's writes.
#[derive(Debug, PartialEq)]
pub struct JsonLikeHelper(pub Value);

impl View for JsonLikeHelper {
    type V = JVal;

    open spec fn view(&self) -> JVal {
        self.0@
    }
}

impl From<Value> for JsonLikeHelper {
    /// Wrap a value in the adapter.
    fn from(value: Value) -> Self {
        JsonLikeHelper(value)
    }
}

impl vstd::std_specs::convert::FromSpecImpl<Value> for JsonLikeHelper {
    open spec fn obeys_from_spec() -> bool {
        true
    }

    open spec fn from_spec(t: Value) -> Self {
        JsonLikeHelper(t)
    }
}

impl From<String> for JsonLikeHelper {
    /// Wrap a text in a string value.
    fn from(value: String) -> Self {
        JsonLikeHelper(Value::Str(value))
    }
}

impl vstd::std_specs::convert::FromSpecImpl<String> for JsonLikeHelper {
    open spec fn obeys_from_spec() -> bool {
        true
    }

    open spec fn from_spec(t: String) -> Self {
        JsonLikeHelper(Value::Str(t))
    }
}

impl Clone for JsonLikeHelper {
    /// Cloning preserves the model.
    fn clone(&self) -> (r: Self)
        ensures
            r@ == self@,
    {
        JsonLikeHelper(self.0.duplicate())
    }
}

/// The models of a sequence of adapters, in order.
pub open spec fn helper_models(s: Seq<JsonLikeHelper>) -> Seq<JVal> {
    s.map_values(|h: JsonLikeHelper| h@)
}

/// The models of a sequence of adapter pairs, in order.
pub open spec fn pair_models(s: Seq<(JsonLikeHelper, JsonLikeHelper)>) -> Seq<(JVal, JVal)> {
    s.map_values(|p: (JsonLikeHelper, JsonLikeHelper)| (p.0@, p.1@))
}

/// Whether feeding a value with model `m` to the transform `f` can yield
/// `out`.
pub open spec fn f_yields<F: Fn(JsonLikeHelper) -> Result<Vec<JsonLikeHelper>, Error>>(
    f: F,
    m: JVal,
    out: Result<Vec<JsonLikeHelper>, Error>,
) -> bool {
    exists|arg: JsonLikeHelper| arg@ == m && #[trigger] call_ensures(f, (arg,), out)
}

/// Folding key/value pairs into object entries with `oinsert`, left to
/// right; fails at the first key that is not a string.
pub open spec fn from_pairs_fold(
    acc: Seq<(Seq<char>, JVal)>,
    ps: Seq<(JVal, JVal)>,
) -> Option<Seq<(Seq<char>, JVal)>>
    decreases ps.len(),
{
    if ps.len() == 0 {
        Some(acc)
    } else {
        match ps[0].0 {
            JVal::Str(k) => from_pairs_fold(oinsert(acc, k, ps[0].1), ps.drop_first()),
            _ => None,
        }
    }
}

/// The concatenation of the produced sequences, in order.
pub open spec fn concat_outs(outs: Seq<Vec<JsonLikeHelper>>) -> Seq<JVal>
    decreases outs.len(),
{
    if outs.len() == 0 {
        Seq::empty()
    } else {
        concat_outs(outs.drop_last()) + helper_models(outs.last()@)
    }
}

/// Object entries rebuilt from a per-value production: each key keeps only
/// the first produced value, and a key whose production is empty is
/// dropped.
pub open spec fn first_filter(
    es: Seq<(Seq<char>, JVal)>,
    outs: Seq<Vec<JsonLikeHelper>>,
) -> Seq<(Seq<char>, JVal)>
    decreases es.len(),
{
    if es.len() == 0 {
        Seq::empty()
    } else {
        let front = first_filter(es.drop_last(), outs.drop_last());
        if outs.last()@.len() > 0 {
            front.push((es.last().0, outs.last()@[0]@))
        } else {
            front
        }
    }
}

/// Success of an array `map_values`: some per-element productions of the
/// transform concatenate to the result.
pub open spec fn mv_arr_ok<F: Fn(JsonLikeHelper) -> Result<Vec<JsonLikeHelper>, Error>>(
    f: F,
    items: Seq<JVal>,
    v: JsonLikeHelper,
) -> bool {
    exists|outs: Seq<Vec<JsonLikeHelper>>|
        #![trigger concat_outs(outs)]
        outs.len() == items.len() && (forall|i: int|
            0 <= i < outs.len() ==> f_yields(f, items[i], Ok(outs[i]))) && v@ == JVal::Arr(
            concat_outs(outs),
        )
}

/// Failure of an array `map_values`: the transform failed on some element
/// after producing a sequence for every earlier element.
pub open spec fn mv_arr_err<F: Fn(JsonLikeHelper) -> Result<Vec<JsonLikeHelper>, Error>>(
    f: F,
    items: Seq<JVal>,
    e: Error,
) -> bool {
    exists|i: int, outs: Seq<Vec<JsonLikeHelper>>|
        #![trigger concat_outs(outs), f_yields(f, items[i], Err::<Vec<JsonLikeHelper>, Error>(e))]
        0 <= i < items.len() && outs.len() == i && (forall|j: int|
            0 <= j < i ==> f_yields(f, items[j], Ok(outs[j]))) && f_yields(
            f,
            items[i],
            Err::<Vec<JsonLikeHelper>, Error>(e),
        )
}

/// Success of an object `map_values`: some per-value productions of the
/// transform, filtered to their first values, fold back into the result.
pub open spec fn mv_obj_ok<F: Fn(JsonLikeHelper) -> Result<Vec<JsonLikeHelper>, Error>>(
    f: F,
    es: Seq<(Seq<char>, JVal)>,
    v: JsonLikeHelper,
) -> bool {
    exists|outs: Seq<Vec<JsonLikeHelper>>|
        #![trigger first_filter(es, outs)]
        outs.len() == es.len() && (forall|i: int|
            0 <= i < outs.len() ==> f_yields(f, es[i].1, Ok(outs[i]))) && v@ == JVal::Obj(
            Value::pairs_fold(Seq::empty(), first_filter(es, outs)),
        )
}

/// Failure of an object `map_values`: the transform failed on some value
/// after producing a sequence for every earlier value.
pub open spec fn mv_obj_err<F: Fn(JsonLikeHelper) -> Result<Vec<JsonLikeHelper>, Error>>(
    f: F,
    es: Seq<(Seq<char>, JVal)>,
    e: Error,
) -> bool {
    exists|i: int, outs: Seq<Vec<JsonLikeHelper>>|
        #![trigger first_filter(es, outs), f_yields(f, es[i].1, Err::<Vec<JsonLikeHelper>, Error>(e))]
        0 <= i < es.len() && outs.len() == i && (forall|j: int|
            0 <= j < i ==> f_yields(f, es[j].1, Ok(outs[j]))) && f_yields(
            f,
            es[i].1,
            Err::<Vec<JsonLikeHelper>, Error>(e),
        )
}

/// The full contract of [`JsonLikeHelper::map_values`]: on an array, the
/// result concatenates the transform's productions element by element; on
/// an object, each value is replaced by the first produced value — keys
/// with an empty production disappear — and the entries are folded back
/// into an object; a failure of the transform is the operation's failure;
/// any other receiver reports through the optional channel.
pub open spec fn map_values_post<F: Fn(JsonLikeHelper) -> Result<Vec<JsonLikeHelper>, Error>>(
    f: F,
    s: JVal,
    opt: Opt,
    r: Result<JsonLikeHelper, Error>,
) -> bool {
    match s {
        JVal::Arr(items) => match r {
            Ok(v) => mv_arr_ok(f, items, v),
            Err(e) => mv_arr_err(f, items, e),
        },
        JVal::Obj(es) => match r {
            Ok(v) => mv_obj_ok(f, es, v),
            Err(e) => mv_obj_err(f, es, e),
        },
        _ => match opt {
            Opt::Optional => r matches Ok(v) && v@ == s,
            Opt::Essential => r == Err::<JsonLikeHelper, Error>(Error::NotCollection),
        },
    }
}

/// Exists-introduction for the array success case of `map_values_post`.
proof fn lemma_mv_post_arr_ok<F: Fn(JsonLikeHelper) -> Result<Vec<JsonLikeHelper>, Error>>(
    f: F,
    items: Seq<JVal>,
    outs: Seq<Vec<JsonLikeHelper>>,
    opt: Opt,
    r: Result<JsonLikeHelper, Error>,
)
    requires
        outs.len() == items.len(),
        forall|i: int| 0 <= i < outs.len() ==> f_yields(f, items[i], Ok(outs[i])),
        r matches Ok(v) && v@ == JVal::Arr(concat_outs(outs)),
    ensures
        map_values_post(f, JVal::Arr(items), opt, r),
{
    assert(mv_arr_ok(f, items, r->Ok_0));
}

/// Exists-introduction for the array failure case of `map_values_post`.
proof fn lemma_mv_post_arr_err<F: Fn(JsonLikeHelper) -> Result<Vec<JsonLikeHelper>, Error>>(
    f: F,
    items: Seq<JVal>,
    i: int,
    outs: Seq<Vec<JsonLikeHelper>>,
    e: Error,
    opt: Opt,
)
    requires
        0 <= i < items.len(),
        outs.len() == i,
        forall|j: int| 0 <= j < i ==> f_yields(f, items[j], Ok(outs[j])),
        f_yields(f, items[i], Err::<Vec<JsonLikeHelper>, Error>(e)),
    ensures
        map_values_post(f, JVal::Arr(items), opt, Err::<JsonLikeHelper, Error>(e)),
{
    assert(concat_outs(outs) == concat_outs(outs));
    assert(mv_arr_err(f, items, e));
}

/// Exists-introduction for the object success case of `map_values_post`.
proof fn lemma_mv_post_obj_ok<F: Fn(JsonLikeHelper) -> Result<Vec<JsonLikeHelper>, Error>>(
    f: F,
    es: Seq<(Seq<char>, JVal)>,
    outs: Seq<Vec<JsonLikeHelper>>,
    opt: Opt,
    r: Result<JsonLikeHelper, Error>,
)
    requires
        outs.len() == es.len(),
        forall|i: int| 0 <= i < outs.len() ==> f_yields(f, es[i].1, Ok(outs[i])),
        r matches Ok(v) && v@ == JVal::Obj(Value::pairs_fold(Seq::empty(), first_filter(es, outs))),
    ensures
        map_values_post(f, JVal::Obj(es), opt, r),
{
    assert(mv_obj_ok(f, es, r->Ok_0));
}

/// Exists-introduction for the object failure case of `map_values_post`.
proof fn lemma_mv_post_obj_err<F: Fn(JsonLikeHelper) -> Result<Vec<JsonLikeHelper>, Error>>(
    f: F,
    es: Seq<(Seq<char>, JVal)>,
    i: int,
    outs: Seq<Vec<JsonLikeHelper>>,
    e: Error,
    opt: Opt,
)
    requires
        0 <= i < es.len(),
        outs.len() == i,
        forall|j: int| 0 <= j < i ==> f_yields(f, es[j].1, Ok(outs[j])),
        f_yields(f, es[i].1, Err::<Vec<JsonLikeHelper>, Error>(e)),
    ensures
        map_values_post(f, JVal::Obj(es), opt, Err::<JsonLikeHelper, Error>(e)),
{
    assert(first_filter(es, outs) == first_filter(es, outs));
    assert(mv_obj_err(f, es, e));
}

/// The resolved lower edge of a slice span.
pub open spec fn span_lo(from: Option<i64>, len: int) -> int {
    abs_bound_spec(opt_int(from), len, 0)
}

/// The resolved upper edge of a slice span; never before the lower edge.
pub open spec fn span_hi(from: Option<i64>, upto: Option<i64>, len: int) -> int {
    let lo = span_lo(from, len);
    let hi0 = abs_bound_spec(opt_int(upto), len, len);
    if hi0 > lo {
        hi0
    } else {
        lo
    }
}

/// Success of `map_range`: the transform ran once on the selected span and
/// its whole production replaced that span.
pub open spec fn mr_ok<F: Fn(JsonLikeHelper) -> Result<Vec<JsonLikeHelper>, Error>>(
    f: F,
    items: Seq<JVal>,
    lo: int,
    hi: int,
    v: JsonLikeHelper,
) -> bool {
    exists|arg: JsonLikeHelper, vs: Vec<JsonLikeHelper>|
        arg@ == JVal::Arr(items.subrange(lo, hi)) && #[trigger] call_ensures(f, (arg,), Ok(vs))
            && v@ == JVal::Arr(
            items.subrange(0, lo) + helper_models(vs@) + items.subrange(hi, items.len() as int),
        )
}

/// Failure of `map_range`: the selected span made the transform fail.
pub open spec fn mr_err<F: Fn(JsonLikeHelper) -> Result<Vec<JsonLikeHelper>, Error>>(
    f: F,
    items: Seq<JVal>,
    lo: int,
    hi: int,
    e: Error,
) -> bool {
    f_yields(f, JVal::Arr(items.subrange(lo, hi)), Err::<Vec<JsonLikeHelper>, Error>(e))
}

/// The full contract of [`JsonLikeHelper::map_range`]: only arrays can be
/// spliced; the bounds wrap and clip exactly as in slicing, a failing wrap
/// failing the operation; the span is materialised, fed once to the
/// transform, and the whole production replaces the span; any other
/// receiver reports through the optional channel.
pub open spec fn map_range_post<F: Fn(JsonLikeHelper) -> Result<Vec<JsonLikeHelper>, Error>>(
    f: F,
    s: JVal,
    from: Option<i64>,
    upto: Option<i64>,
    opt: Opt,
    r: Result<JsonLikeHelper, Error>,
) -> bool {
    match s {
        JVal::Arr(items) => {
            let len = items.len() as int;
            if !bound_ok(opt_int(from), len) || !bound_ok(opt_int(upto), len) {
                r == Err::<JsonLikeHelper, Error>(Error::RangeBound)
            } else {
                match r {
                    Ok(v) => mr_ok(f, items, span_lo(from, len), span_hi(from, upto, len), v),
                    Err(e) => mr_err(f, items, span_lo(from, len), span_hi(from, upto, len), e),
                }
            }
        },
        _ => match opt {
            Opt::Optional => r matches Ok(v) && v@ == s,
            Opt::Essential => r == Err::<JsonLikeHelper, Error>(Error::NotCollection),
        },
    }
}

/// Exists-introduction for the success case of `map_range_post`.
proof fn lemma_mr_post_ok<F: Fn(JsonLikeHelper) -> Result<Vec<JsonLikeHelper>, Error>>(
    f: F,
    items: Seq<JVal>,
    from: Option<i64>,
    upto: Option<i64>,
    opt: Opt,
    r: Result<JsonLikeHelper, Error>,
)
    requires
        bound_ok(opt_int(from), items.len() as int),
        bound_ok(opt_int(upto), items.len() as int),
        r is Ok,
        mr_ok(
            f,
            items,
            span_lo(from, items.len() as int),
            span_hi(from, upto, items.len() as int),
            r->Ok_0,
        ),
    ensures
        map_range_post(f, JVal::Arr(items), from, upto, opt, r),
{
}

/// Reduction to the failure case of `map_range_post`.
proof fn lemma_mr_post_err<F: Fn(JsonLikeHelper) -> Result<Vec<JsonLikeHelper>, Error>>(
    f: F,
    items: Seq<JVal>,
    from: Option<i64>,
    upto: Option<i64>,
    opt: Opt,
    e: Error,
)
    requires
        bound_ok(opt_int(from), items.len() as int),
        bound_ok(opt_int(upto), items.len() as int),
        mr_err(
            f,
            items,
            span_lo(from, items.len() as int),
            span_hi(from, upto, items.len() as int),
            e,
        ),
    ensures
        map_range_post(f, JVal::Arr(items), from, upto, opt, Err::<JsonLikeHelper, Error>(e)),
{
}

/// The full contract of [`JsonLikeHelper::map_index`], as one predicate
/// over the receiver's model `s`, the key's model `key`, the mode and the
/// result.
pub open spec fn map_index_post<F: Fn(JsonLikeHelper) -> Result<Vec<JsonLikeHelper>, Error>>(
    f: F,
    s: JVal,
    key: JVal,
    opt: Opt,
    r: Result<JsonLikeHelper, Error>,
) -> bool {
    match s {
        JVal::Obj(es) => match key {
            JVal::Str(k) => {
                let cur = match olookup(es, k) {
                    Some(c) => c,
                    None => JVal::Null,
                };
                match r {
                    Ok(v) => exists|arg: JsonLikeHelper, vs: Vec<JsonLikeHelper>|
                        arg@ == cur && #[trigger] call_ensures(f, (arg,), Ok(vs)) && v@
                            == JVal::Obj(
                            if vs@.len() > 0 {
                                oinsert(es, k, vs@[0]@)
                            } else if olookup(es, k) is Some {
                                oremove(es, k)
                            } else {
                                es
                            },
                        ),
                    Err(e) => f_yields(f, cur, Err(e)),
                }
            },
            _ => r == Err::<JsonLikeHelper, Error>(Error::KeyNotString),
        },
        JVal::Arr(items) => match key {
            JVal::Num(n) => match text_as_i64(n) {
                Some(idx) => match abs_index_spec(idx as int, items.len() as int) {
                    Some(p) => match r {
                        Ok(v) => exists|arg: JsonLikeHelper, vs: Vec<JsonLikeHelper>|
                            arg@ == items[p] && #[trigger] call_ensures(f, (arg,), Ok(vs)) && v@
                                == JVal::Arr(
                                if vs@.len() > 0 {
                                    items.update(p, vs@[0]@)
                                } else {
                                    items.remove(p)
                                },
                            ),
                        Err(e) => f_yields(f, items[p], Err(e)),
                    },
                    None => r == Err::<JsonLikeHelper, Error>(
                        Error::IndexOutOfBounds { index: idx },
                    ),
                },
                None => r == Err::<JsonLikeHelper, Error>(Error::IndexNotInteger),
            },
            _ => r == Err::<JsonLikeHelper, Error>(Error::IndexNotInteger),
        },
        _ => match opt {
            Opt::Optional => r matches Ok(v) && v@ == s,
            Opt::Essential => r == Err::<JsonLikeHelper, Error>(Error::NotCollection),
        },
    }
}

/// Unwrap a sequence of adapters into their values, preserving models.
fn helpers_into_values(hs: Vec<JsonLikeHelper>) -> (r: Vec<Value>)
    ensures
        Value::arr_model(r@) == helper_models(hs@),
{
    let mut r: Vec<Value> = Vec::new();
    let mut i: usize = 0;
    while i < hs.len()
        invariant
            0 <= i <= hs@.len(),
            r@.len() == i,
            forall|j: int| 0 <= j < i ==> r@[j]@ == hs@[j]@,
        decreases hs@.len() - i,
    {
        r.push(hs[i].0.duplicate());
        i = i + 1;
    }
    proof {
        lemma_arr_model(r@);
        assert(Value::arr_model(r@) =~= helper_models(hs@));
    }
    r
}

impl JsonLikeHelper {
    /// Parse a number literal into a number value; malformed text is
    /// reported with the offending literal.
    pub fn from_num(n: &str) -> (r: Result<JsonLikeHelper, Error>)
        ensures
            match parsed_number(n@) {
                Some(t) => r matches Ok(v) && v@ == JVal::Num(t),
                None => r matches Err(e) && e matches Error::NumberFormat { text } && text@
                    == n@,
            },
    {
        match parse_number(n) {
            Some(t) => Ok(JsonLikeHelper(Value::Num(t))),
            None => Err(Error::NumberFormat { text: n.to_owned() }),
        }
    }

    /// jq truthiness: everything is true except `null` and `false`; empty
    /// collections, empty strings and zero are all true.
    pub fn as_bool(&self) -> (r: bool)
        ensures
            r == truthy_spec(self@),
    {
        match &self.0 {
            Value::Bool(b) => *b,
            Value::Null => false,
            _ => true,
        }
    }

    /// The text of a string value; booleans read as their names; no other
    /// value has a text.
    pub fn as_str(&self) -> (r: Option<&str>)
        ensures
            match self@ {
                JVal::Str(s) => r matches Some(t) && t@ == s,
                JVal::Bool(b) => r matches Some(t) && t@ == (if b {
                    "true"@
                } else {
                    "false"@
                }),
                _ => r is None,
            },
    {
        match &self.0 {
            Value::Str(s) => Some(s.as_str()),
            Value::Bool(b) => if *b {
                Some("true")
            } else {
                Some("false")
            },
            _ => None,
        }
    }

    /// The children of the value: an array yields its elements in order, an
    /// object its values in entry order, and nothing else has children.
    pub fn values(self) -> (r: Result<Vec<JsonLikeHelper>, Error>)
        ensures
            match self@ {
                JVal::Arr(items) => r matches Ok(vs) && helper_models(vs@) =~= items,
                JVal::Obj(es) => r matches Ok(vs) && helper_models(vs@) =~= es.map_values(
                    |e: (Seq<char>, JVal)| e.1,
                ),
                _ => r == Err::<Vec<JsonLikeHelper>, Error>(Error::NotCollection),
            },
    {
        match self.0 {
            Value::Arr(items) => {
                proof {
                    lemma_arr_model(items@);
                }
                let mut out: Vec<JsonLikeHelper> = Vec::new();
                let mut i: usize = 0;
                while i < items.len()
                    invariant
                        0 <= i <= items@.len(),
                        out@.len() == i,
                        forall|j: int| 0 <= j < i ==> out@[j]@ == items@[j]@,
                    decreases items@.len() - i,
                {
                    out.push(JsonLikeHelper(items[i].duplicate()));
                    i = i + 1;
                }
                proof {
                    lemma_arr_model(items@);
                }
                Ok(out)
            },
            Value::Obj(o) => {
                proof {
                    lemma_obj_model(o.entries@);
                }
                let mut out: Vec<JsonLikeHelper> = Vec::new();
                let mut i: usize = 0;
                while i < o.entries.len()
                    invariant
                        0 <= i <= o.entries@.len(),
                        out@.len() == i,
                        forall|j: int| 0 <= j < i ==> out@[j]@ == o.entries@[j].1@,
                    decreases o.entries@.len() - i,
                {
                    out.push(JsonLikeHelper(o.entries[i].1.duplicate()));
                    i = i + 1;
                }
                proof {
                    lemma_obj_model(o.entries@);
                }
                Ok(out)
            },
            v => {
                Err(Error::NotCollection)
            },
        }
    }

    /// Read one child: object receivers are keyed by strings and yield null
    /// for an absent key; array receivers are keyed by non-negative integer
    /// numbers and yield null out of range; nothing else can be indexed.
    pub fn index(self, key: &JsonLikeHelper) -> (r: Result<JsonLikeHelper, Error>)
        ensures
            match self@ {
                JVal::Obj(es) => match key@ {
                    JVal::Str(k) => r matches Ok(v) && v@ == (match olookup(es, k) {
                        Some(x) => x,
                        None => JVal::Null,
                    }),
                    _ => r == Err::<JsonLikeHelper, Error>(Error::KeyNotString),
                },
                JVal::Arr(items) => match key@ {
                    JVal::Num(n) => match text_as_u64(n) {
                        Some(i) => r matches Ok(v) && v@ == (if i < items.len() {
                            items[i as int]
                        } else {
                            JVal::Null
                        }),
                        None => r == Err::<JsonLikeHelper, Error>(Error::IndexNotInteger),
                    },
                    _ => r == Err::<JsonLikeHelper, Error>(Error::IndexNotInteger),
                },
                _ => r == Err::<JsonLikeHelper, Error>(Error::NotCollection),
            },
    {
        match &self.0 {
            Value::Obj(o) => {
                match key.0.as_str() {
                    Some(k) => match o.get_key(k) {
                        Some(v) => Ok(JsonLikeHelper(v.duplicate())),
                        None => Ok(JsonLikeHelper(Value::Null)),
                    },
                    None => Err(Error::KeyNotString),
                }
            },
            Value::Arr(items) => {
                proof {
                    lemma_arr_model(items@);
                }
                match key.0.as_u64() {
                    Some(i) => {
                        if i < items.len() as u64 {
                            Ok(JsonLikeHelper(items[i as usize].duplicate()))
                        } else {
                            Ok(JsonLikeHelper(Value::Null))
                        }
                    },
                    None => Err(Error::IndexNotInteger),
                }
            },
            _ => Err(Error::NotCollection),
        }
    }
    /// Build an object value from key/value pairs, folded left to right
    /// into an initially empty object: later pairs with a repeated key
    /// overwrite earlier ones in place; the first key that is not a string
    /// fails the whole construction.
    pub fn from_map(pairs: Vec<(JsonLikeHelper, JsonLikeHelper)>) -> (r: Result<
        JsonLikeHelper,
        Error,
    >)
        ensures
            match from_pairs_fold(Seq::empty(), pair_models(pairs@)) {
                Some(es) => r matches Ok(v) && v@ == JVal::Obj(es),
                None => r == Err::<JsonLikeHelper, Error>(Error::KeyNotString),
            },
    {
        let ghost ps = pair_models(pairs@);
        let mut o = JsonObject::new();
        let mut i: usize = 0;
        let n = pairs.len();
        proof {
            assert(ps.subrange(0, n as int) =~= ps);
        }
        while i < n
            invariant
                0 <= i <= n,
                n == ps.len() == pairs@.len(),
                ps == pair_models(pairs@),
                forall|j: int| 0 <= j < n ==> ps[j] == (pairs@[j].0@, pairs@[j].1@),
                from_pairs_fold(Seq::empty(), ps) == from_pairs_fold(
                    o@,
                    ps.subrange(i as int, n as int),
                ),
            decreases n - i,
        {
            proof {
                assert(ps.subrange(i as int, n as int)[0] == ps[i as int]);
                assert(ps.subrange(i as int, n as int).drop_first() =~= ps.subrange(
                    i + 1,
                    n as int,
                ));
            }
            match pairs[i].0.0.as_str() {
                Some(k) => {
                    let ghost o0 = o@;
                    let v = pairs[i].1.0.duplicate();
                    o.insert_key(k, v);
                },
                None => {
                    return Err(Error::KeyNotString);
                },
            }
            i = i + 1;
        }
        proof {
            assert(ps.subrange(n as int, n as int) =~= Seq::<(JVal, JVal)>::empty());
        }
        Ok(JsonLikeHelper(Value::Obj(o)))
    }

    /// Merge two values: null with null stays null; numbers add; strings
    /// and arrays concatenate; objects merge with the right side winning
    /// key for key; any other pairing has no common interpretation.
    pub fn add(self, rhs: JsonLikeHelper) -> (r: Result<JsonLikeHelper, Error>)
        ensures
            match add_spec(self@, rhs@) {
                Some(m) => r matches Ok(v) && v@ == m,
                None => r == Err::<JsonLikeHelper, Error>(Error::Incompatible),
            },
    {
        match (self.0, rhs.0) {
            (Value::Null, Value::Null) => Ok(JsonLikeHelper(Value::Null)),
            (Value::Num(a), Value::Num(b)) => {
                let t = add_numbers(a.as_str(), b.as_str());
                Ok(JsonLikeHelper(Value::Num(t)))
            },
            (Value::Str(a), Value::Str(b)) => {
                let t = a.concat(b.as_str());
                Ok(JsonLikeHelper(Value::Str(t)))
            },
            (Value::Arr(a), Value::Arr(b)) => {
                let ghost a0 = a@;
                let mut a = a;
                proof {
                    lemma_arr_model(b@);
                }
                let mut i: usize = 0;
                while i < b.len()
                    invariant
                        0 <= i <= b@.len(),
                        a@.len() == a0.len() + i,
                        forall|j: int| 0 <= j < a0.len() ==> a@[j] == a0[j],
                        forall|j: int| 0 <= j < i ==> a@[a0.len() + j]@ == b@[j]@,
                    decreases b@.len() - i,
                {
                    a.push(b[i].duplicate());
                    i = i + 1;
                }
                proof {
                    lemma_arr_model(a@);
                    lemma_arr_model(a0);
                    lemma_arr_model(b@);
                    assert(Value::arr_model(a@) =~= Value::arr_model(a0) + Value::arr_model(
                        b@,
                    ));
                }
                Ok(JsonLikeHelper(Value::Arr(a)))
            },
            (Value::Obj(l), Value::Obj(rr)) => {
                let ghost l0 = l@;
                let ghost rm = rr@;
                let mut l = l;
                proof {
                    lemma_obj_model(rr.entries@);
                    assert(rm.subrange(0, rm.len() as int) =~= rm);
                }
                let n = rr.entries.len();
                let mut i: usize = 0;
                while i < n
                    invariant
                        0 <= i <= n,
                        n == rr.entries@.len(),
                        rm == Value::obj_model(rr.entries@),
                        rm.len() == n,
                        forall|j: int|
                            0 <= j < n ==> rm[j] == (rr.entries@[j].0@, rr.entries@[j].1@),
                        omerge(l0, rm) == omerge(l@, rm.subrange(i as int, n as int)),
                    decreases n - i,
                {
                    let k = rr.entries[i].0.clone();
                    let v = rr.entries[i].1.duplicate();
                    let ghost lcur = l@;
                    l.insert_key(k.as_str(), v);
                    proof {
                        assert(rm.subrange(i as int, n as int)[0] == rm[i as int]);
                        assert(rm.subrange(i as int, n as int).drop_first() =~= rm.subrange(
                            i + 1,
                            n as int,
                        ));
                        assert(omerge(lcur, rm.subrange(i as int, n as int)) == omerge(
                            oinsert(lcur, k@, v@),
                            rm.subrange(i + 1, n as int),
                        ));
                    }
                    i = i + 1;
                }
                proof {
                    assert(rm.subrange(n as int, n as int) =~= Seq::<(Seq<char>, JVal)>::empty());
                }
                Ok(JsonLikeHelper(Value::Obj(l)))
            },
            _ => Err(Error::Incompatible),
        }
    }

    /// Update one child through a caller-supplied transform.
    ///
    /// On an object keyed by a string: a present key's value is fed to the
    /// transform — the first produced value replaces it, an empty
    /// production removes the key; an absent key has null fed instead, and
    /// the first produced value, if any, is inserted. On an array the key
    /// must wrap (negative positions count from the end) to a valid
    /// position, whose element is replaced by the first produced value or
    /// removed, shifting later elements down, when nothing is produced.
    /// Only a receiver of the wrong kind reports through the optional
    /// channel: `Optional` hands the value back unchanged.
    pub fn map_index<F: Fn(JsonLikeHelper) -> Result<Vec<JsonLikeHelper>, Error>>(
        self,
        key: &JsonLikeHelper,
        opt: Opt,
        f: F,
    ) -> (r: Result<JsonLikeHelper, Error>)
        requires
            forall|v: JsonLikeHelper| #[trigger] call_requires(f, (v,)),
        ensures
            map_index_post(f, self@, key@, opt, r),
    {
        let ghost gs = self@;
        match self.0 {
            Value::Obj(o) => {
                let mut o = o;
                let ghost es0 = o@;
                match key.0.as_str() {
                    Some(k) => {
                        let cur_opt = match o.get_key(k) {
                            Some(v) => Some(v.duplicate()),
                            None => None,
                        };
                        let xin = match cur_opt {
                            Some(cur) => JsonLikeHelper(cur),
                            None => JsonLikeHelper(Value::Null),
                        };
                        let ghost gin = xin;
                        match f(xin) {
                            Ok(vs) => {
                                let ghost gvs = vs;
                                let mut vs = vs;
                                if vs.len() > 0 {
                                    let first = vs.remove(0);
                                    o.insert_key(k, first.0);
                                } else {
                                    // removing an absent key leaves the object unchanged
                                    o.remove_key(k);
                                }
                                let out = Ok(JsonLikeHelper(Value::Obj(o)));
                                proof {
                                    assert(gs == JVal::Obj(es0));
                                    assert(gin@ == (match olookup(es0, k@) {
                                        Some(c) => c,
                                        None => JVal::Null,
                                    }));
                                    if gvs@.len() > 0 {
                                        assert(o@ == oinsert(es0, k@, gvs@[0]@));
                                    } else {
                                        assert(o@ == oremove(es0, k@));
                                    }
                                    assert(call_ensures(f, (gin,), Ok(gvs)));
                                    assert(f_yields(f, gin@, Ok(gvs)));
                                    assert(map_index_post(f, gs, key@, opt, out));
                                }
                                out
                            },
                            Err(e) => {
                                let ghost fr = Err::<Vec<JsonLikeHelper>, Error>(e);
                                let out = Err::<JsonLikeHelper, Error>(e);
                                proof {
                                    assert(call_ensures(f, (gin,), fr));
                                    assert(f_yields(f, gin@, fr));
                                    assert(map_index_post(f, gs, key@, opt, out));
                                }
                                out
                            },
                        }
                    },
                    None => {
                        let out = Err::<JsonLikeHelper, Error>(Error::KeyNotString);
                        proof {
                            assert(map_index_post(f, gs, key@, opt, out));
                        }
                        out
                    },
                }
            },
            Value::Arr(items) => {
                let mut items = items;
                proof {
                    lemma_arr_model(items@);
                }
                let ghost m0 = Value::arr_model(items@);
                match key.0.as_i64() {
                    Some(idx) => {
                        match locate_index(idx, items.len()) {
                            Some(p) => {
                                let cur = items[p].duplicate();
                                let xin = JsonLikeHelper(cur);
                                let ghost gin = xin;
                                match f(xin) {
                                    Ok(vs) => {
                                        let ghost gvs = vs;
                                        let mut vs = vs;
                                        if vs.len() > 0 {
                                            let first = vs.remove(0);
                                            items.set(p, first.0);
                                            proof {
                                                lemma_arr_model(items@);
                                                assert(Value::arr_model(items@) =~= m0.update(
                                                    p as int,
                                                    gvs@[0]@,
                                                ));
                                            }
                                        } else {
                                            items.remove(p);
                                            proof {
                                                lemma_arr_model(items@);
                                                assert(Value::arr_model(items@) =~= m0.remove(
                                                    p as int,
                                                ));
                                            }
                                        }
                                        let out = Ok(JsonLikeHelper(Value::Arr(items)));
                                        proof {
                                            assert(call_ensures(f, (gin,), Ok(gvs)));
                                            assert(gin@ == m0[p as int]);
                                            assert(f_yields(f, m0[p as int], Ok(gvs)));
                                            assert(map_index_post(f, gs, key@, opt, out));
                                        }
                                        out
                                    },
                                    Err(e) => {
                                        let ghost fr = Err::<Vec<JsonLikeHelper>, Error>(e);
                                        let out = Err::<JsonLikeHelper, Error>(e);
                                        proof {
                                            assert(call_ensures(f, (gin,), fr));
                                            assert(gin@ == m0[p as int]);
                                            assert(f_yields(f, m0[p as int], fr));
                                            assert(map_index_post(f, gs, key@, opt, out));
                                        }
                                        out
                                    },
                                }
                            },
                            None => {
                                let out = Err::<JsonLikeHelper, Error>(
                                    Error::IndexOutOfBounds { index: idx },
                                );
                                proof {
                                    assert(map_index_post(f, gs, key@, opt, out));
                                }
                                out
                            },
                        }
                    },
                    None => {
                        let out = Err::<JsonLikeHelper, Error>(Error::IndexNotInteger);
                        proof {
                            assert(map_index_post(f, gs, key@, opt, out));
                        }
                        out
                    },
                }
            },
            v => {
                let out = match opt {
                    Opt::Optional => Ok(JsonLikeHelper(v)),
                    Opt::Essential => Err(Error::NotCollection),
                };
                proof {
                    assert(map_index_post(f, gs, key@, opt, out));
                }
                out
            },
        }
    }

    /// Map a transform over every child of the value.
    ///
    /// On an array, the transform runs on each element in order and all
    /// produced sequences are concatenated into one new array; the first
    /// failure aborts. On an object, the transform runs on each value in
    /// entry order and only the first produced value is kept — a key whose
    /// production is empty is silently dropped. Any other receiver reports
    /// through the optional channel.
    pub fn map_values<F: Fn(JsonLikeHelper) -> Result<Vec<JsonLikeHelper>, Error>>(
        self,
        opt: Opt,
        f: F,
    ) -> (r: Result<JsonLikeHelper, Error>)
        requires
            forall|v: JsonLikeHelper| #[trigger] call_requires(f, (v,)),
        ensures
            map_values_post(f, self@, opt, r),
    {
        let ghost gs = self@;
        match self.0 {
            Value::Arr(items) => {
                proof {
                    lemma_arr_model(items@);
                }
                let ghost m = Value::arr_model(items@);
                let mut out: Vec<JsonLikeHelper> = Vec::new();
                let ghost mut gouts: Seq<Vec<JsonLikeHelper>> = Seq::empty();
                let mut i: usize = 0;
                proof {
                    assert(helper_models(out@) =~= concat_outs(gouts));
                }
                while i < items.len()
                    invariant
                        forall|v: JsonLikeHelper| #[trigger] call_requires(f, (v,)),
                        0 <= i <= items@.len(),
                        m == Value::arr_model(items@),
                        gs == JVal::Arr(m),
                        gs == self@,
                        m.len() == items@.len(),
                        forall|j: int| 0 <= j < items@.len() ==> m[j] == items@[j]@,
                        gouts.len() == i,
                        forall|j: int| 0 <= j < i ==> f_yields(f, m[j], Ok(gouts[j])),
                        helper_models(out@) == concat_outs(gouts),
                    decreases items@.len() - i,
                {
                    let xin = JsonLikeHelper(items[i].duplicate());
                    let ghost gin = xin;
                    match f(xin) {
                        Ok(vs) => {
                            let ghost gvs = vs;
                            let ghost obase = out@;
                            let mut t: usize = 0;
                            while t < vs.len()
                                invariant
                                    0 <= t <= vs@.len(),
                                    vs@ == gvs@,
                                    out@.len() == obase.len() + t,
                                    forall|u: int| 0 <= u < obase.len() ==> out@[u] == obase[u],
                                    forall|u: int|
                                        0 <= u < t ==> out@[obase.len() + u]@ == gvs@[u]@,
                                decreases vs@.len() - t,
                            {
                                out.push(vs[t].clone());
                                t = t + 1;
                            }
                            proof {
                                assert(call_ensures(f, (gin,), Ok(gvs)));
                                assert(f_yields(f, m[i as int], Ok(gvs)));
                                let gbase = gouts;
                                gouts = gouts.push(gvs);
                                assert(gouts.drop_last() =~= gbase);
                                assert(gouts.last() == gvs);
                                assert(helper_models(out@) =~= concat_outs(gbase)
                                    + helper_models(gvs@));
                                assert(concat_outs(gouts) == concat_outs(gouts.drop_last())
                                    + helper_models(gouts.last()@));
                                assert(helper_models(out@) == concat_outs(gouts));
                            }
                        },
                        Err(e) => {
                            let ghost fr = Err::<Vec<JsonLikeHelper>, Error>(e);
                            let out2 = Err::<JsonLikeHelper, Error>(e);
                            proof {
                                assert(call_ensures(f, (gin,), fr));
                                assert(gs == JVal::Arr(m));
                                assert(f_yields(f, m[i as int], fr));
                                lemma_mv_post_arr_err(f, m, i as int, gouts, e, opt);
                                assert(map_values_post(f, self@, opt, out2));
                            }
                            return out2;
                        },
                    }
                    i = i + 1;
                }
                let result = Ok(JsonLikeHelper(Value::Arr(helpers_into_values(out))));
                proof {
                    assert(gs == JVal::Arr(m));
                    assert(concat_outs(gouts) == helper_models(out@));
                    lemma_mv_post_arr_ok(f, m, gouts, opt, result);
                }
                result
            },
            Value::Obj(o) => {
                proof {
                    lemma_obj_model(o.entries@);
                }
                let ghost m = Value::obj_model(o.entries@);
                let mut no = JsonObject::new();
                let ghost mut gouts: Seq<Vec<JsonLikeHelper>> = Seq::empty();
                let mut i: usize = 0;
                proof {
                    assert(m.take(0) =~= Seq::<(Seq<char>, JVal)>::empty());
                    assert(first_filter(m.take(0), gouts) =~= Seq::<(Seq<char>, JVal)>::empty());
                }
                while i < o.entries.len()
                    invariant
                        forall|v: JsonLikeHelper| #[trigger] call_requires(f, (v,)),
                        0 <= i <= o.entries@.len(),
                        m == Value::obj_model(o.entries@),
                        gs == JVal::Obj(m),
                        gs == self@,
                        m.len() == o.entries@.len(),
                        forall|j: int|
                            0 <= j < m.len() ==> m[j] == (o.entries@[j].0@, o.entries@[j].1@),
                        gouts.len() == i,
                        forall|j: int| 0 <= j < i ==> f_yields(f, m[j].1, Ok(gouts[j])),
                        no@ == Value::pairs_fold(
                            Seq::empty(),
                            first_filter(m.take(i as int), gouts),
                        ),
                    decreases o.entries@.len() - i,
                {
                    let xin = JsonLikeHelper(o.entries[i].1.duplicate());
                    let ghost gin = xin;
                    match f(xin) {
                        Ok(vs) => {
                            let ghost gvs = vs;
                            let ghost nbase = no@;
                            let mut vs = vs;
                            if vs.len() > 0 {
                                let first = vs.remove(0);
                                let k = o.entries[i].0.clone();
                                no.insert_key(k.as_str(), first.0);
                            }
                            proof {
                                assert(call_ensures(f, (gin,), Ok(gvs)));
                                assert(f_yields(f, m[i as int].1, Ok(gvs)));
                                let gbase = gouts;
                                gouts = gouts.push(gvs);
                                assert(m.take(i + 1).drop_last() =~= m.take(i as int));
                                assert(gouts.drop_last() =~= gbase);
                                assert(gouts.last() == gvs);
                                assert(m.take(i + 1).last() == m[i as int]);
                                assert(first_filter(m.take(i + 1), gouts) == (
                                    if gouts.last()@.len() > 0 {
                                        first_filter(
                                            m.take(i + 1).drop_last(),
                                            gouts.drop_last(),
                                        ).push((m.take(i + 1).last().0, gouts.last()@[0]@))
                                    } else {
                                        first_filter(m.take(i + 1).drop_last(), gouts.drop_last())
                                    }
                                ));
                                if gvs@.len() > 0 {
                                    assert(first_filter(m.take(i + 1), gouts) == first_filter(
                                        m.take(i as int),
                                        gbase,
                                    ).push((m[i as int].0, gvs@[0]@)));
                                    crate::value::lemma_pairs_fold_push(
                                        Seq::empty(),
                                        first_filter(m.take(i as int), gbase),
                                        (m[i as int].0, gvs@[0]@),
                                    );
                                    assert(no@ == oinsert(nbase, m[i as int].0, gvs@[0]@));
                                    assert(no@ == Value::pairs_fold(
                                        Seq::empty(),
                                        first_filter(m.take(i + 1), gouts),
                                    ));
                                } else {
                                    assert(first_filter(m.take(i + 1), gouts) == first_filter(
                                        m.take(i as int),
                                        gbase,
                                    ));
                                    assert(no@ == Value::pairs_fold(
                                        Seq::empty(),
                                        first_filter(m.take(i + 1), gouts),
                                    ));
                                }
                            }
                        },
                        Err(e) => {
                            let ghost fr = Err::<Vec<JsonLikeHelper>, Error>(e);
                            let out2 = Err::<JsonLikeHelper, Error>(e);
                            proof {
                                assert(call_ensures(f, (gin,), fr));
                                assert(gs == JVal::Obj(m));
                                assert(f_yields(f, m[i as int].1, fr));
                                lemma_mv_post_obj_err(f, m, i as int, gouts, e, opt);
                                assert(map_values_post(f, self@, opt, out2));
                            }
                            return out2;
                        },
                    }
                    i = i + 1;
                }
                let result = Ok(JsonLikeHelper(Value::Obj(no)));
                proof {
                    assert(gs == JVal::Obj(m));
                    assert(m.take(m.len() as int) =~= m);
                    assert(first_filter(m, gouts) == first_filter(m.take(m.len() as int), gouts));
                    lemma_mv_post_obj_ok(f, m, gouts, opt, result);
                }
                result
            },
            v => {
                let out = match opt {
                    Opt::Optional => Ok(JsonLikeHelper(v)),
                    Opt::Essential => Err(Error::NotCollection),
                };
                proof {
                    assert(map_values_post(f, gs, opt, out));
                }
                out
            },
        }
    }

    /// Splice a transform's production over a span of an array.
    ///
    /// The bounds wrap and clip exactly as in slicing — a failing wrap
    /// fails the operation. The selected span is materialised as a fresh
    /// array and fed once to the transform; the whole produced sequence
    /// replaces the span, so the array may grow or shrink. Any other
    /// receiver reports through the optional channel.
    pub fn map_range<F: Fn(JsonLikeHelper) -> Result<Vec<JsonLikeHelper>, Error>>(
        self,
        from: Option<i64>,
        upto: Option<i64>,
        opt: Opt,
        f: F,
    ) -> (r: Result<JsonLikeHelper, Error>)
        requires
            forall|v: JsonLikeHelper| #[trigger] call_requires(f, (v,)),
        ensures
            map_range_post(f, self@, from, upto, opt, r),
    {
        let ghost gs = self@;
        match self.0 {
            Value::Arr(items) => {
                proof {
                    lemma_arr_model(items@);
                }
                let ghost m = Value::arr_model(items@);
                let len = items.len();
                let lo = match clamp_bound(from, len, 0) {
                    Some(lo) => lo,
                    None => {
                        let out = Err::<JsonLikeHelper, Error>(Error::RangeBound);
                        proof {
                            assert(gs == JVal::Arr(m));
                            assert(map_range_post(f, gs, from, upto, opt, out));
                        }
                        return out;
                    },
                };
                let hi0 = match clamp_bound(upto, len, len) {
                    Some(hi0) => hi0,
                    None => {
                        let out = Err::<JsonLikeHelper, Error>(Error::RangeBound);
                        proof {
                            assert(gs == JVal::Arr(m));
                            assert(map_range_post(f, gs, from, upto, opt, out));
                        }
                        return out;
                    },
                };
                let (skip, take) = skip_take(lo, hi0);
                let ghost glo = span_lo(from, m.len() as int);
                let ghost ghi = span_hi(from, upto, m.len() as int);
                proof {
                    assert(skip == glo && skip + take == ghi);
                }
                let mut piece: Vec<Value> = Vec::new();
                let mut j: usize = 0;
                while j < take
                    invariant
                        0 <= j <= take,
                        skip + take <= items@.len(),
                        items@.len() <= usize::MAX,
                        piece@.len() == j,
                        forall|t: int| 0 <= t < j ==> piece@[t]@ == items@[skip + t]@,
                    decreases take - j,
                {
                    piece.push(items[skip + j].duplicate());
                    j = j + 1;
                }
                proof {
                    lemma_arr_model(piece@);
                    assert(Value::arr_model(piece@) =~= m.subrange(glo, ghi));
                }
                let xin = JsonLikeHelper(Value::Arr(piece));
                let ghost gin = xin;
                match f(xin) {
                    Ok(vs) => {
                        let ghost gvs = vs;
                        let mut out: Vec<Value> = Vec::new();
                        let mut j: usize = 0;
                        while j < skip
                            invariant
                                0 <= j <= skip,
                                skip + take <= items@.len(),
                                items@.len() <= usize::MAX,
                                out@.len() == j,
                                forall|t: int| 0 <= t < j ==> out@[t]@ == items@[t]@,
                            decreases skip - j,
                        {
                            out.push(items[j].duplicate());
                            j = j + 1;
                        }
                        let ghost obase1 = out@;
                        let mut t: usize = 0;
                        while t < vs.len()
                            invariant
                                0 <= t <= vs@.len(),
                                vs@ == gvs@,
                                out@.len() == obase1.len() + t,
                                forall|u: int| 0 <= u < obase1.len() ==> out@[u] == obase1[u],
                                forall|u: int|
                                    0 <= u < t ==> out@[obase1.len() + u]@ == gvs@[u]@,
                            decreases vs@.len() - t,
                        {
                            out.push(vs[t].0.duplicate());
                            t = t + 1;
                        }
                        let ghost obase2 = out@;
                        let mut j: usize = skip + take;
                        while j < items.len()
                            invariant
                                skip + take <= j <= items@.len(),
                                items@.len() <= usize::MAX,
                                out@.len() == obase2.len() + j - (skip + take),
                                forall|u: int| 0 <= u < obase2.len() ==> out@[u] == obase2[u],
                                forall|u: int|
                                    skip + take <= u < j ==> out@[obase2.len() + u - (skip
                                        + take)]@ == items@[u]@,
                            decreases items@.len() - j,
                        {
                            out.push(items[j].duplicate());
                            j = j + 1;
                        }
                        let result = Ok(JsonLikeHelper(Value::Arr(out)));
                        proof {
                            assert(call_ensures(f, (gin,), Ok(gvs)));
                            assert(gin@ == JVal::Arr(m.subrange(glo, ghi)));
                            lemma_arr_model(result->Ok_0.0->Arr_0@);
                            assert(Value::arr_model(result->Ok_0.0->Arr_0@) =~= m.subrange(0, glo)
                                + helper_models(gvs@) + m.subrange(ghi, m.len() as int));
                            assert(mr_ok(f, m, glo, ghi, result->Ok_0));
                            assert(gs == JVal::Arr(m));
                            lemma_mr_post_ok(f, m, from, upto, opt, result);
                        }
                        result
                    },
                    Err(e) => {
                        let ghost fr = Err::<Vec<JsonLikeHelper>, Error>(e);
                        let out = Err::<JsonLikeHelper, Error>(e);
                        proof {
                            assert(call_ensures(f, (gin,), fr));
                            assert(gin@ == JVal::Arr(m.subrange(glo, ghi)));
                            assert(f_yields(f, JVal::Arr(m.subrange(glo, ghi)), fr));
                            assert(gs == JVal::Arr(m));
                            lemma_mr_post_err(f, m, from, upto, opt, e);
                        }
                        out
                    },
                }
            },
            v => {
                let out = match opt {
                    Opt::Optional => Ok(JsonLikeHelper(v)),
                    Opt::Essential => Err(Error::NotCollection),
                };
                proof {
                    assert(map_range_post(f, gs, from, upto, opt, out));
                }
                out
            },
        }
    }

    /// Slice an array or string: each present bound is wrapped — a failing
    /// wrap fails the whole operation — then clipped to the collection; an
    /// absent lower bound means the start, an absent upper bound the end; a
    /// reversed span is empty. String positions count unicode scalars.
    pub fn range(self, from: Option<i64>, upto: Option<i64>) -> (r: Result<JsonLikeHelper, Error>)
        ensures
            match self@ {
                JVal::Arr(items) => {
                    let len = items.len() as int;
                    if !bound_ok(opt_int(from), len) || !bound_ok(opt_int(upto), len) {
                        r == Err::<JsonLikeHelper, Error>(Error::RangeBound)
                    } else {
                        let lo = abs_bound_spec(opt_int(from), len, 0);
                        let hi = abs_bound_spec(opt_int(upto), len, len);
                        r matches Ok(v) && v@ == JVal::Arr(
                            items.subrange(lo, if hi > lo { hi } else { lo }),
                        )
                    }
                },
                JVal::Str(s) => {
                    let len = s.len() as int;
                    if !bound_ok(opt_int(from), len) || !bound_ok(opt_int(upto), len) {
                        r == Err::<JsonLikeHelper, Error>(Error::RangeBound)
                    } else {
                        let lo = abs_bound_spec(opt_int(from), len, 0);
                        let hi = abs_bound_spec(opt_int(upto), len, len);
                        r matches Ok(v) && v@ == JVal::Str(
                            s.subrange(lo, if hi > lo { hi } else { lo }),
                        )
                    }
                },
                _ => r == Err::<JsonLikeHelper, Error>(Error::NotCollection),
            },
    {
        match self.0 {
            Value::Arr(items) => {
                proof {
                    lemma_arr_model(items@);
                }
                let len = items.len();
                let lo = match clamp_bound(from, len, 0) {
                    Some(lo) => lo,
                    None => {
                        return Err(Error::RangeBound);
                    },
                };
                let hi = match clamp_bound(upto, len, len) {
                    Some(hi) => hi,
                    None => {
                        return Err(Error::RangeBound);
                    },
                };
                let (skip, take) = skip_take(lo, hi);
                let mut out: Vec<Value> = Vec::new();
                let mut j: usize = 0;
                while j < take
                    invariant
                        0 <= j <= take,
                        skip + take <= items@.len(),
                        items@.len() <= usize::MAX,
                        out@.len() == j,
                        forall|t: int| 0 <= t < j ==> out@[t]@ == items@[skip + t]@,
                    decreases take - j,
                {
                    out.push(items[skip + j].duplicate());
                    j = j + 1;
                }
                proof {
                    lemma_arr_model(out@);
                    lemma_arr_model(items@);
                    assert(Value::arr_model(out@) =~= Value::arr_model(items@).subrange(
                        skip as int,
                        skip + take,
                    ));
                }
                Ok(JsonLikeHelper(Value::Arr(out)))
            },
            Value::Str(s) => {
                let len = s.as_str().unicode_len();
                let lo = match clamp_bound(from, len, 0) {
                    Some(lo) => lo,
                    None => {
                        return Err(Error::RangeBound);
                    },
                };
                let hi = match clamp_bound(upto, len, len) {
                    Some(hi) => hi,
                    None => {
                        return Err(Error::RangeBound);
                    },
                };
                let (skip, take) = skip_take(lo, hi);
                let piece = s.as_str().substring_char(skip, skip + take);
                Ok(JsonLikeHelper(Value::Str(piece.to_owned())))
            },
            _ => Err(Error::NotCollection),
        }
    }
}

} // verus!
