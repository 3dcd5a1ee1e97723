use vstd::prelude::*;
use vstd::string::StringExecFns;
use crate::model::{JVal, key_idx, olookup, oinsert, oremove, lemma_key_idx_is};
use crate::num::{text_as_u64, text_as_i64, str_as_u64, str_as_i64};

verus! {

broadcast use vstd::std_specs::vec::group_vec_axioms, vstd::seq::group_seq_axioms;

/// An ordered mapping from string keys to values: insertion order is
/// preserved, and the insert operation keeps keys unique.
#[derive(Debug, PartialEq)]
pub struct JsonObject {
    pub entries: Vec<(String, Value)>,
}

/// A JSON-like value: the tagged union over null, booleans, numbers,
/// strings, arrays and ordered objects.
///
/// A number carries its canonical decimal text; the crate never interprets
/// that text except to coerce it to an integer where an operation needs an
/// index or bound.
#[derive(Debug, PartialEq)]
pub enum Value {
    Null,
    Bool(bool),
    Num(String),
    Str(String),
    Arr(Vec<Value>),
    Obj(JsonObject),
}

impl Value {
    /// The mathematical model of this value.
    pub open spec fn model(self) -> JVal
        decreases self,
    {
        match self {
            Value::Null => JVal::Null,
            Value::Bool(b) => JVal::Bool(b),
            Value::Num(n) => JVal::Num(n@),
            Value::Str(s) => JVal::Str(s@),
            Value::Arr(items) => JVal::Arr(Value::arr_model(items@)),
            Value::Obj(o) => JVal::Obj(Value::obj_model(o.entries@)),
        }
    }

    /// The models of a sequence of values, in order.
    pub open spec fn arr_model(items: Seq<Value>) -> Seq<JVal>
        decreases items,
    {
        if items.len() == 0 {
            Seq::empty()
        } else {
            Value::arr_model(items.subrange(0, items.len() - 1)).push(
                items[items.len() - 1].model(),
            )
        }
    }

    /// The models of a sequence of object entries, in order.
    pub open spec fn obj_model(entries: Seq<(String, Value)>) -> Seq<(Seq<char>, JVal)>
        decreases entries,
    {
        if entries.len() == 0 {
            Seq::empty()
        } else {
            Value::obj_model(entries.subrange(0, entries.len() - 1)).push(
                (entries[entries.len() - 1].0@, entries[entries.len() - 1].1.model()),
            )
        }
    }
}

impl View for Value {
    type V = JVal;

    open spec fn view(&self) -> JVal {
        self.model()
    }
}

impl View for JsonObject {
    type V = Seq<(Seq<char>, JVal)>;

    open spec fn view(&self) -> Seq<(Seq<char>, JVal)> {
        Value::obj_model(self.entries@)
    }
}

/// `arr_model` maps the sequence pointwise.
pub proof fn lemma_arr_model(items: Seq<Value>)
    ensures
        Value::arr_model(items).len() == items.len(),
        forall|i: int| 0 <= i < items.len() ==> Value::arr_model(items)[i] == items[i]@,
    decreases items.len(),
{
    if items.len() > 0 {
        lemma_arr_model(items.subrange(0, items.len() - 1));
    }
}

/// `obj_model` maps the entries pointwise: keys and values keep their
/// positions.
pub proof fn lemma_obj_model(entries: Seq<(String, Value)>)
    ensures
        Value::obj_model(entries).len() == entries.len(),
        forall|i: int|
            0 <= i < entries.len() ==> Value::obj_model(entries)[i] == (
            entries[i].0@,
            entries[i].1@,
            ),
    decreases entries.len(),
{
    if entries.len() > 0 {
        lemma_obj_model(entries.subrange(0, entries.len() - 1));
    }
}

/// The texts of a sequence of string tokens, in order.
pub open spec fn path_models(path: Seq<String>) -> Seq<Seq<char>> {
    path.map_values(|t: String| t@)
}

impl JsonObject {
    /// An empty object.
    pub fn new() -> (r: JsonObject)
        ensures
            r@ =~= Seq::<(Seq<char>, JVal)>::empty(),
    {
        JsonObject { entries: Vec::new() }
    }

    /// An empty object with room reserved for `n` entries; the capacity is
    /// a performance hint only.
    pub fn with_capacity(n: usize) -> (r: JsonObject)
        ensures
            r@ =~= Seq::<(Seq<char>, JVal)>::empty(),
    {
        JsonObject { entries: Vec::with_capacity(n) }
    }

    /// How many entries the object holds.
    pub fn len(&self) -> (r: usize)
        ensures
            r == self@.len(),
    {
        proof {
            lemma_obj_model(self.entries@);
        }
        self.entries.len()
    }

    /// The entries themselves, in insertion order.
    pub fn entries(&self) -> (r: &Vec<(String, Value)>)
        ensures
            r@ == self.entries@,
            Value::obj_model(r@) == self@,
    {
        &self.entries
    }

    /// Position of the first entry with the given key.
    pub(crate) fn index_of_key(&self, key: &str) -> (r: Option<usize>)
        ensures
            match r {
                Some(i) => i < self@.len() && key_idx(self@, key@) == i,
                None => key_idx(self@, key@) == self@.len(),
            },
    {
        proof {
            lemma_obj_model(self.entries@);
        }
        let owned_key: String = key.to_owned();
        let ghost m = self@;
        let mut i: usize = 0;
        while i < self.entries.len()
            invariant
                0 <= i <= self.entries@.len(),
                m == self@,
                m.len() == self.entries@.len(),
                owned_key@ == key@,
                forall|j: int| 0 <= j < m.len() ==> m[j] == (self.entries@[j].0@, self.entries@[j].1@),
                forall|j: int| 0 <= j < i ==> m[j].0 != key@,
            decreases self.entries@.len() - i,
        {
            if self.entries[i].0 == owned_key {
                proof {
                    lemma_key_idx_is(m, key@, i as int);
                }
                return Some(i);
            }
            i = i + 1;
        }
        proof {
            lemma_key_idx_is(m, key@, m.len() as int);
        }
        None
    }

    /// Look a key up: the first (and, for objects built by `insert_key`,
    /// only) entry with that key, if any.
    pub fn get_key(&self, key: &str) -> (r: Option<&Value>)
        ensures
            match r {
                Some(v) => olookup(self@, key@) == Some(v@),
                None => olookup(self@, key@) is None,
            },
    {
        proof {
            lemma_obj_model(self.entries@);
        }
        match self.index_of_key(key) {
            Some(i) => Some(&self.entries[i].1),
            None => None,
        }
    }

    /// Insert a key: an existing key keeps its position and gets the new
    /// value; a new key is appended at the end.
    pub fn insert_key(&mut self, key: &str, value: Value)
        ensures
            final(self)@ =~= oinsert(old(self)@, key@, value@),
    {
        proof {
            lemma_obj_model(self.entries@);
        }
        let ghost m = self@;
        match self.index_of_key(key) {
            Some(i) => {
                self.entries.set(i, (key.to_owned(), value));
                proof {
                    lemma_obj_model(self.entries@);
                    assert(self@ =~= m.update(key_idx(m, key@), (key@, value@)));
                }
            },
            None => {
                self.entries.push((key.to_owned(), value));
                proof {
                    lemma_obj_model(self.entries@);
                    assert(self@ =~= m.push((key@, value@)));
                }
            },
        }
    }

    /// Remove a key, returning its value; the remaining entries keep their
    /// relative order.
    pub fn remove_key(&mut self, key: &str) -> (r: Option<Value>)
        ensures
            final(self)@ =~= oremove(old(self)@, key@),
            match r {
                Some(v) => olookup(old(self)@, key@) == Some(v@),
                None => olookup(old(self)@, key@) is None,
            },
    {
        proof {
            lemma_obj_model(self.entries@);
        }
        let ghost m = self@;
        match self.index_of_key(key) {
            Some(i) => {
                let (_k, v) = self.entries.remove(i);
                proof {
                    lemma_obj_model(self.entries@);
                    assert(self@ =~= m.remove(key_idx(m, key@)));
                }
                Some(v)
            },
            None => None,
        }
    }
}

impl Value {
    /// The null value.
    pub fn null() -> (r: Value)
        ensures
            r@ == JVal::Null,
    {
        Value::Null
    }

    /// A string value.
    pub fn string(s: String) -> (r: Value)
        ensures
            r@ == JVal::Str(s@),
    {
        Value::Str(s)
    }

    /// An array value.
    pub fn array(items: Vec<Value>) -> (r: Value)
        ensures
            r@ == JVal::Arr(Value::arr_model(items@)),
    {
        Value::Arr(items)
    }

    /// An object value.
    pub fn object(o: JsonObject) -> (r: Value)
        ensures
            r@ == JVal::Obj(o@),
    {
        Value::Obj(o)
    }

    /// An object built from key/value pairs, later pairs overwriting
    /// earlier ones with the same key.
    pub fn obj(pairs: Vec<(String, Value)>) -> (r: Value)
        ensures
            r@ == JVal::Obj(Value::pairs_fold(Seq::empty(), Value::obj_model(pairs@))),
    {
        let ghost ps = Value::obj_model(pairs@);
        let mut o = JsonObject::new();
        let mut i: usize = 0;
        let n = pairs.len();
        proof {
            lemma_obj_model(pairs@);
            assert(ps.subrange(0, n as int) =~= ps);
        }
        // fold the pairs left to right into an initially empty object
        while i < n
            invariant
                0 <= i <= n,
                n == ps.len() == pairs@.len(),
                ps == Value::obj_model(pairs@),
                forall|j: int| 0 <= j < n ==> ps[j] == (pairs@[j].0@, pairs@[j].1@),
                Value::pairs_fold(Seq::empty(), ps) == Value::pairs_fold(
                    o@,
                    ps.subrange(i as int, n as int),
                ),
            decreases n - i,
        {
            let k = pairs[i].0.clone();
            let v = pairs[i].1.duplicate();
            let ghost o0 = o@;
            o.insert_key(k.as_str(), v);
            proof {
                assert(ps.subrange(i as int, n as int).drop_first() =~= ps.subrange(
                    i + 1,
                    n as int,
                ));
                assert(ps.subrange(i as int, n as int)[0] == (k@, v@));
                assert(Value::pairs_fold(o0, ps.subrange(i as int, n as int))
                    == Value::pairs_fold(oinsert(o0, k@, v@), ps.subrange(i + 1, n as int)));
            }
            i = i + 1;
        }
        proof {
            assert(ps.subrange(n as int, n as int) =~= Seq::<(Seq<char>, JVal)>::empty());
        }
        Value::Obj(o)
    }

    /// Folding entries into an object with `oinsert`, left to right.
    pub open spec fn pairs_fold(
        acc: Seq<(Seq<char>, JVal)>,
        ps: Seq<(Seq<char>, JVal)>,
    ) -> Seq<(Seq<char>, JVal)>
        decreases ps.len(),
    {
        if ps.len() == 0 {
            acc
        } else {
            Value::pairs_fold(oinsert(acc, ps[0].0, ps[0].1), ps.drop_first())
        }
    }

    /// Whether this value is null.
    pub fn is_null(&self) -> (r: bool)
        ensures
            r == (self@ == JVal::Null),
    {
        matches!(self, Value::Null)
    }

    /// The boolean a boolean value holds.
    pub fn as_bool(&self) -> (r: Option<bool>)
        ensures
            match self@ {
                JVal::Bool(b) => r == Some(b),
                _ => r is None,
            },
    {
        match self {
            Value::Bool(b) => Some(*b),
            _ => None,
        }
    }

    /// The text a string value holds.
    pub fn as_str(&self) -> (r: Option<&str>)
        ensures
            match self@ {
                JVal::Str(s) => r matches Some(t) && t@ == s,
                _ => r is None,
            },
    {
        match self {
            Value::Str(s) => Some(s.as_str()),
            _ => None,
        }
    }

    /// The canonical text a number value holds.
    pub fn as_num_text(&self) -> (r: Option<&str>)
        ensures
            match self@ {
                JVal::Num(n) => r matches Some(t) && t@ == n,
                _ => r is None,
            },
    {
        match self {
            Value::Num(n) => Some(n.as_str()),
            _ => None,
        }
    }

    /// The elements of an array value.
    pub fn as_array(&self) -> (r: Option<&Vec<Value>>)
        ensures
            match self@ {
                JVal::Arr(s) => r matches Some(a) && Value::arr_model(a@) == s,
                _ => r is None,
            },
    {
        match self {
            Value::Arr(items) => Some(items),
            _ => None,
        }
    }

    /// The elements of an array value, by move.
    pub fn into_array(self) -> (r: Option<Vec<Value>>)
        ensures
            match self@ {
                JVal::Arr(s) => r matches Some(a) && Value::arr_model(a@) == s,
                _ => r is None,
            },
    {
        match self {
            Value::Arr(items) => Some(items),
            _ => None,
        }
    }

    /// The object an object value holds.
    pub fn as_object(&self) -> (r: Option<&JsonObject>)
        ensures
            match self@ {
                JVal::Obj(es) => r matches Some(o) && o@ == es,
                _ => r is None,
            },
    {
        match self {
            Value::Obj(o) => Some(o),
            _ => None,
        }
    }

    /// The object an object value holds, by move.
    pub fn into_object(self) -> (r: Option<JsonObject>)
        ensures
            match self@ {
                JVal::Obj(es) => r matches Some(o) && o@ == es,
                _ => r is None,
            },
    {
        match self {
            Value::Obj(o) => Some(o),
            _ => None,
        }
    }

    /// The number a value holds, read as a non-negative 64-bit integer.
    pub fn as_u64(&self) -> (r: Option<u64>)
        ensures
            match self@ {
                JVal::Num(n) => r == text_as_u64(n),
                _ => r is None,
            },
    {
        match self {
            Value::Num(n) => str_as_u64(n.as_str()),
            _ => None,
        }
    }

    /// The number a value holds, read as a signed 64-bit integer.
    pub fn as_i64(&self) -> (r: Option<i64>)
        ensures
            match self@ {
                JVal::Num(n) => r == text_as_i64(n),
                _ => r is None,
            },
    {
        match self {
            Value::Num(n) => str_as_i64(n.as_str()),
            _ => None,
        }
    }

    /// A value looked up by key; yields nothing unless this is an object
    /// that has the key.
    pub fn get_key(&self, key: &str) -> (r: Option<&Value>)
        ensures
            match self@ {
                JVal::Obj(es) => match olookup(es, key@) {
                    Some(v) => r matches Some(rv) && rv@ == v,
                    None => r is None,
                },
                _ => r is None,
            },
    {
        match self {
            Value::Obj(o) => o.get_key(key),
            _ => None,
        }
    }

    /// The value reached by walking the path: each token indexes an array
    /// (when it is a plain base-ten integer in range) or keys an object;
    /// any other situation ends the walk with nothing.
    pub open spec fn get_path_spec(v: JVal, path: Seq<Seq<char>>) -> Option<JVal>
        decreases path.len(),
    {
        if path.len() == 0 {
            Some(v)
        } else {
            match v {
                JVal::Arr(items) => match text_as_u64(path[0]) {
                    Some(i) => if i < items.len() {
                        Value::get_path_spec(items[i as int], path.drop_first())
                    } else {
                        None
                    },
                    None => None,
                },
                JVal::Obj(es) => match olookup(es, path[0]) {
                    Some(child) => Value::get_path_spec(child, path.drop_first()),
                    None => None,
                },
                _ => None,
            }
        }
    }

    /// Walk a path of tokens down the value.
    pub fn get_path(&self, path: &[String]) -> (r: Option<&Value>)
        ensures
            match Value::get_path_spec(self@, path_models(path@)) {
                Some(v) => r matches Some(rv) && rv@ == v,
                None => r is None,
            },
    {
        let ghost pm = path_models(path@);
        let mut cur: &Value = self;
        let mut i: usize = 0;
        let n = path.len();
        proof {
            assert(pm.subrange(0, n as int) =~= pm);
        }
        while i < n
            invariant
                0 <= i <= n,
                n == path@.len() == pm.len(),
                pm == path_models(path@),
                forall|j: int| 0 <= j < n ==> pm[j] == path@[j]@,
                Value::get_path_spec(self@, pm) == Value::get_path_spec(
                    cur@,
                    pm.subrange(i as int, n as int),
                ),
            decreases n - i,
        {
            proof {
                assert(pm.subrange(i as int, n as int)[0] == pm[i as int]);
                assert(pm.subrange(i as int, n as int).drop_first() =~= pm.subrange(
                    i + 1,
                    n as int,
                ));
            }
            match cur {
                Value::Arr(items) => {
                    proof {
                        lemma_arr_model(items@);
                        assert(cur@ == JVal::Arr(Value::arr_model(items@)));
                    }
                    match str_as_u64(path[i].as_str()) {
                        Some(idx) => {
                            if idx < items.len() as u64 {
                                cur = &items[idx as usize];
                            } else {
                                return None;
                            }
                        },
                        None => {
                            return None;
                        },
                    }
                },
                Value::Obj(o) => {
                    proof {
                        assert(cur@ == JVal::Obj(Value::obj_model(o.entries@)));
                    }
                    match o.get_key(path[i].as_str()) {
                        Some(child) => {
                            cur = child;
                        },
                        None => {
                            return None;
                        },
                    }
                },
                _ => {
                    proof {
                        assert(Value::get_path_spec(cur@, pm.subrange(i as int, n as int))
                            is None);
                    }
                    return None;
                },
            }
            i = i + 1;
        }
        proof {
            assert(pm.subrange(n as int, n as int) =~= Seq::<Seq<char>>::empty());
        }
        Some(cur)
    }

    /// A deep copy whose model is the same.
    pub fn duplicate(&self) -> (r: Value)
        ensures
            r@ == self@,
        decreases self,
    {
        match self {
            Value::Null => Value::Null,
            Value::Bool(b) => Value::Bool(*b),
            Value::Num(n) => Value::Num(n.clone()),
            Value::Str(s) => Value::Str(s.clone()),
            Value::Arr(items) => {
                let mut out: Vec<Value> = Vec::new();
                let mut i: usize = 0;
                while i < items.len()
                    invariant
                        *self == Value::Arr(*items),
                        0 <= i <= items@.len(),
                        out@.len() == i,
                        forall|j: int| 0 <= j < i ==> out@[j]@ == items@[j]@,
                    decreases items@.len() - i,
                {
                    proof {
                        assert(decreases_to!(*self => self->Arr_0));
                        assert(self->Arr_0 == *items);
                        assert(decreases_to!(*items => items@));
                        assert(decreases_to!(items@ => items@[i as int]));
                    }
                    out.push(items[i].duplicate());
                    i = i + 1;
                }
                proof {
                    lemma_arr_model(out@);
                    lemma_arr_model(items@);
                    assert(Value::arr_model(out@) =~= Value::arr_model(items@));
                }
                Value::Arr(out)
            },
            Value::Obj(o) => {
                let mut out: Vec<(String, Value)> = Vec::new();
                let mut i: usize = 0;
                while i < o.entries.len()
                    invariant
                        *self == Value::Obj(*o),
                        0 <= i <= o.entries@.len(),
                        out@.len() == i,
                        forall|j: int|
                            0 <= j < i ==> out@[j].0@ == o.entries@[j].0@ && out@[j].1@
                                == o.entries@[j].1@,
                    decreases o.entries@.len() - i,
                {
                    proof {
                        assert(decreases_to!(*self => self->Obj_0));
                        assert(self->Obj_0 == *o);
                        assert(decreases_to!(*o => o.entries));
                        assert(decreases_to!(o.entries => o.entries@));
                        assert(decreases_to!(o.entries@ => o.entries@[i as int]));
                        assert(decreases_to!(o.entries@[i as int] => o.entries@[i as int].1));
                    }
                    let key = o.entries[i].0.clone();
                    let val = o.entries[i].1.duplicate();
                    out.push((key, val));
                    i = i + 1;
                }
                proof {
                    lemma_obj_model(out@);
                    lemma_obj_model(o.entries@);
                    assert(Value::obj_model(out@) =~= Value::obj_model(o.entries@));
                }
                Value::Obj(JsonObject { entries: out })
            },
        }
    }
}


/// Folding entries and then one more pair is folding the entries and
/// inserting the pair.
pub proof fn lemma_pairs_fold_push(
    acc: Seq<(Seq<char>, JVal)>,
    ps: Seq<(Seq<char>, JVal)>,
    p: (Seq<char>, JVal),
)
    ensures
        Value::pairs_fold(acc, ps.push(p)) == oinsert(Value::pairs_fold(acc, ps), p.0, p.1),
    decreases ps.len(),
{
    if ps.len() == 0 {
        assert(Value::pairs_fold(acc, ps) == acc);
        assert(ps.push(p)[0] == p);
        assert(ps.push(p).drop_first() =~= Seq::<(Seq<char>, JVal)>::empty());
        assert(Value::pairs_fold(acc, ps.push(p)) == Value::pairs_fold(
            oinsert(acc, p.0, p.1),
            ps.push(p).drop_first(),
        ));
        assert(Value::pairs_fold(oinsert(acc, p.0, p.1), ps.push(p).drop_first()) == oinsert(
            acc,
            p.0,
            p.1,
        ));
    } else {
        assert(ps.push(p)[0] == ps[0]);
        assert(ps.push(p).drop_first() =~= ps.drop_first().push(p));
        assert(Value::pairs_fold(acc, ps.push(p)) == Value::pairs_fold(
            oinsert(acc, ps[0].0, ps[0].1),
            ps.drop_first().push(p),
        ));
        lemma_pairs_fold_push(oinsert(acc, ps[0].0, ps[0].1), ps.drop_first(), p);
        assert(Value::pairs_fold(acc, ps) == Value::pairs_fold(
            oinsert(acc, ps[0].0, ps[0].1),
            ps.drop_first(),
        ));
    }
}

impl Clone for Value {
    /// Cloning preserves the model.
    fn clone(&self) -> (r: Self)
        ensures
            r@ == self@,
    {
        self.duplicate()
    }
}

impl Clone for JsonObject {
    /// Cloning preserves the model.
    fn clone(&self) -> (r: Self)
        ensures
            r@ == self@,
    {
        let mut out: Vec<(String, Value)> = Vec::new();
        let mut i: usize = 0;
        while i < self.entries.len()
            invariant
                0 <= i <= self.entries@.len(),
                out@.len() == i,
                forall|j: int|
                    0 <= j < i ==> out@[j].0@ == self.entries@[j].0@ && out@[j].1@
                        == self.entries@[j].1@,
            decreases self.entries@.len() - i,
        {
            let key = self.entries[i].0.clone();
            let val = self.entries[i].1.duplicate();
            out.push((key, val));
            i = i + 1;
        }
        proof {
            lemma_obj_model(out@);
            lemma_obj_model(self.entries@);
            assert(Value::obj_model(out@) =~= Value::obj_model(self.entries@));
        }
        JsonObject { entries: out }
    }
}

} // verus!
