use jsonlike::adapter::JsonLikeHelper;
use jsonlike::error::Error;
use jsonlike::value::{JsonObject, Value};

fn num(s: &str) -> Value {
    Value::Num(s.to_string())
}

fn txt(s: &str) -> Value {
    Value::Str(s.to_string())
}

fn arr(items: Vec<Value>) -> Value {
    Value::Arr(items)
}

fn obj(pairs: Vec<(&str, Value)>) -> Value {
    Value::Obj(JsonObject {
        entries: pairs.into_iter().map(|(k, v)| (k.to_string(), v)).collect(),
    })
}

#[test]
fn number_literal_parses_to_canonical_text() {
    assert_eq!(JsonLikeHelper::from_num("3"), Ok(JsonLikeHelper(num("3"))));
    assert_eq!(
        JsonLikeHelper::from_num("1.5"),
        Ok(JsonLikeHelper(num("1.5")))
    );
    // the canonical text is the parsed number's, not the literal itself
    assert_eq!(
        JsonLikeHelper::from_num("1e2"),
        Ok(JsonLikeHelper(num("100.0")))
    );
}

#[test]
fn malformed_number_literal_is_reported() {
    assert_eq!(
        JsonLikeHelper::from_num("abc"),
        Err(Error::NumberFormat { text: "abc".to_string() })
    );
    assert_eq!(
        JsonLikeHelper::from_num(""),
        Err(Error::NumberFormat { text: "".to_string() })
    );
}

#[test]
fn adding_numbers_sums_them() {
    let r = JsonLikeHelper(num("1")).add(JsonLikeHelper(num("2"))).unwrap();
    assert_eq!(r.0, num("3"));
    let r = JsonLikeHelper(num("1.5")).add(JsonLikeHelper(num("1.5"))).unwrap();
    assert_eq!(r.0, num("3.0"));
}

#[test]
fn adding_strings_concatenates() {
    let r = JsonLikeHelper(txt("foo")).add(JsonLikeHelper(txt("bar"))).unwrap();
    assert_eq!(r.0, txt("foobar"));
}

#[test]
fn adding_arrays_concatenates() {
    let r = JsonLikeHelper(arr(vec![num("1")]))
        .add(JsonLikeHelper(arr(vec![num("2"), num("3")])))
        .unwrap();
    assert_eq!(r.0, arr(vec![num("1"), num("2"), num("3")]));
}

#[test]
fn adding_objects_merges_right_over_left() {
    let l = obj(vec![("a", num("1")), ("b", num("2"))]);
    let r = obj(vec![("b", num("9")), ("c", num("3"))]);
    let merged = JsonLikeHelper(l).add(JsonLikeHelper(r)).unwrap();
    assert_eq!(
        merged.0,
        obj(vec![("a", num("1")), ("b", num("9")), ("c", num("3"))])
    );
}

#[test]
fn adding_nulls_stays_null() {
    let r = JsonLikeHelper(Value::Null).add(JsonLikeHelper(Value::Null)).unwrap();
    assert_eq!(r.0, Value::Null);
}

#[test]
fn adding_mismatched_kinds_fails() {
    assert_eq!(
        JsonLikeHelper(num("1")).add(JsonLikeHelper(txt("x"))),
        Err(Error::Incompatible)
    );
    assert_eq!(
        JsonLikeHelper(Value::Null).add(JsonLikeHelper(num("1"))),
        Err(Error::Incompatible)
    );
    assert_eq!(
        JsonLikeHelper(Value::Bool(true)).add(JsonLikeHelper(Value::Bool(true))),
        Err(Error::Incompatible)
    );
}

#[test]
fn string_merge_is_associative_here() {
    let a = || JsonLikeHelper(txt("a"));
    let b = || JsonLikeHelper(txt("b"));
    let c = || JsonLikeHelper(txt("c"));
    let left = a().add(b()).unwrap().add(c()).unwrap();
    let right = a().add(b().add(c()).unwrap()).unwrap();
    assert_eq!(left, right);
}

#[test]
fn object_merge_is_associative_here() {
    let a = || obj(vec![("x", num("1")), ("y", num("2"))]);
    let b = || obj(vec![("y", num("3")), ("z", num("4"))]);
    let c = || obj(vec![("x", num("5"))]);
    let left = JsonLikeHelper(a())
        .add(JsonLikeHelper(b()))
        .unwrap()
        .add(JsonLikeHelper(c()))
        .unwrap();
    let right = JsonLikeHelper(a())
        .add(JsonLikeHelper(b()).add(JsonLikeHelper(c())).unwrap())
        .unwrap();
    assert_eq!(left, right);
    assert_eq!(
        left.0,
        obj(vec![("x", num("5")), ("y", num("3")), ("z", num("4"))])
    );
}

#[test]
fn merge_identities() {
    // "" for strings, [] for arrays, {} for objects
    let s = JsonLikeHelper(txt("abc")).add(JsonLikeHelper(txt(""))).unwrap();
    assert_eq!(s.0, txt("abc"));
    let a = JsonLikeHelper(arr(vec![num("1")]))
        .add(JsonLikeHelper(arr(vec![])))
        .unwrap();
    assert_eq!(a.0, arr(vec![num("1")]));
    let o = JsonLikeHelper(obj(vec![]))
        .add(JsonLikeHelper(obj(vec![("a", num("1"))])))
        .unwrap();
    assert_eq!(o.0, obj(vec![("a", num("1"))]));
}

#[test]
fn elements_of_array_and_object() {
    let vs = JsonLikeHelper(arr(vec![num("1"), num("2")])).values().unwrap();
    assert_eq!(vs, vec![JsonLikeHelper(num("1")), JsonLikeHelper(num("2"))]);
    let vs = JsonLikeHelper(obj(vec![("a", num("1")), ("b", num("2"))]))
        .values()
        .unwrap();
    assert_eq!(vs, vec![JsonLikeHelper(num("1")), JsonLikeHelper(num("2"))]);
    assert_eq!(
        JsonLikeHelper(num("1")).values(),
        Err(Error::NotCollection)
    );
}

#[test]
fn elements_twice_yield_identical_sequences() {
    let h = JsonLikeHelper(arr(vec![num("1"), txt("x"), Value::Null]));
    let first = h.clone().values().unwrap();
    let second = h.values().unwrap();
    assert_eq!(first, second);
}

#[test]
fn index_object_by_string() {
    let doc = obj(vec![("a", num("1"))]);
    let h = JsonLikeHelper(doc);
    assert_eq!(
        h.clone().index(&JsonLikeHelper(txt("a"))).unwrap().0,
        num("1")
    );
    // an absent key yields null, not a failure
    assert_eq!(
        h.clone().index(&JsonLikeHelper(txt("zz"))).unwrap().0,
        Value::Null
    );
    assert_eq!(
        h.index(&JsonLikeHelper(num("0"))),
        Err(Error::KeyNotString)
    );
}

#[test]
fn index_array_by_number() {
    let doc = arr(vec![num("5"), num("6")]);
    let h = JsonLikeHelper(doc);
    assert_eq!(h.clone().index(&JsonLikeHelper(num("1"))).unwrap().0, num("6"));
    // out of range yields null, not a failure
    assert_eq!(
        h.clone().index(&JsonLikeHelper(num("9"))).unwrap().0,
        Value::Null
    );
    assert_eq!(
        h.clone().index(&JsonLikeHelper(txt("x"))),
        Err(Error::IndexNotInteger)
    );
    // a negative or fractional number is not a valid read index
    assert_eq!(
        h.clone().index(&JsonLikeHelper(num("-1"))),
        Err(Error::IndexNotInteger)
    );
    assert_eq!(
        h.index(&JsonLikeHelper(num("1.5"))),
        Err(Error::IndexNotInteger)
    );
}

#[test]
fn index_scalar_fails() {
    assert_eq!(
        JsonLikeHelper(num("1")).index(&JsonLikeHelper(num("0"))),
        Err(Error::NotCollection)
    );
}

#[test]
fn range_counts_elements() {
    let doc = || arr(vec![num("1"), num("2"), num("3"), num("4"), num("5")]);
    let len_of = |r: Result<JsonLikeHelper, Error>| match r.unwrap().0 {
        Value::Arr(items) => items.len(),
        _ => panic!("expected an array"),
    };
    assert_eq!(len_of(JsonLikeHelper(doc()).range(None, None)), 5);
    assert_eq!(len_of(JsonLikeHelper(doc()).range(Some(1), Some(3))), 2);
    assert_eq!(len_of(JsonLikeHelper(doc()).range(Some(3), Some(1))), 0);
    assert_eq!(len_of(JsonLikeHelper(doc()).range(Some(-2), None)), 2);
    assert_eq!(len_of(JsonLikeHelper(doc()).range(None, Some(-1))), 4);
    assert_eq!(len_of(JsonLikeHelper(doc()).range(Some(2), Some(100))), 3);
}

#[test]
fn range_bound_beyond_length_fails() {
    let doc = arr(vec![num("1"), num("2")]);
    assert_eq!(
        JsonLikeHelper(doc).range(Some(-3), None),
        Err(Error::RangeBound)
    );
}

#[test]
fn range_on_string_counts_scalars() {
    let h = JsonLikeHelper(txt("hello"));
    assert_eq!(h.clone().range(Some(1), Some(3)).unwrap().0, txt("el"));
    let h = JsonLikeHelper(txt("héllo"));
    assert_eq!(h.range(Some(1), Some(3)).unwrap().0, txt("él"));
}

#[test]
fn range_on_scalar_fails() {
    assert_eq!(
        JsonLikeHelper(Value::Bool(true)).range(None, None),
        Err(Error::NotCollection)
    );
}

#[test]
fn truthiness_follows_jq() {
    assert!(!JsonLikeHelper(Value::Null).as_bool());
    assert!(!JsonLikeHelper(Value::Bool(false)).as_bool());
    assert!(JsonLikeHelper(Value::Bool(true)).as_bool());
    assert!(JsonLikeHelper(num("0")).as_bool());
    assert!(JsonLikeHelper(txt("")).as_bool());
    assert!(JsonLikeHelper(arr(vec![])).as_bool());
    assert!(JsonLikeHelper(obj(vec![])).as_bool());
}

#[test]
fn text_reading_of_values() {
    assert_eq!(JsonLikeHelper(txt("x")).as_str(), Some("x"));
    assert_eq!(JsonLikeHelper(Value::Bool(true)).as_str(), Some("true"));
    assert_eq!(JsonLikeHelper(Value::Bool(false)).as_str(), Some("false"));
    assert_eq!(JsonLikeHelper(num("1")).as_str(), None);
    assert_eq!(JsonLikeHelper(Value::Null).as_str(), None);
}

#[test]
fn error_messages_are_not_empty() {
    let errors = vec![
        Error::NotCollection,
        Error::KeyNotString,
        Error::IndexNotInteger,
        Error::NumberFormat { text: "x".to_string() },
        Error::IndexOutOfBounds { index: 3 },
        Error::RangeBound,
        Error::Incompatible,
    ];
    for e in errors {
        assert!(!e.message().is_empty());
    }
}
