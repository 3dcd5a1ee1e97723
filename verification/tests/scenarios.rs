use jsonlike::adapter::{JsonLikeHelper, Opt};
use jsonlike::error::Error;
use jsonlike::value::{JsonObject, Value};

fn num(s: &str) -> Value {
    Value::Num(s.to_string())
}

fn txt(s: &str) -> Value {
    Value::Str(s.to_string())
}

fn arr(items: Vec<Value>) -> Value {
    Value::Arr(items)
}

fn obj(pairs: Vec<(&str, Value)>) -> Value {
    Value::Obj(JsonObject {
        entries: pairs.into_iter().map(|(k, v)| (k.to_string(), v)).collect(),
    })
}

#[test]
fn slice_with_negative_lower_bound() {
    // input {"a":[1,2,3,4,5]}: slicing .a from -3 to the end gives [3,4,5]
    let doc = obj(vec![(
        "a",
        arr(vec![num("1"), num("2"), num("3"), num("4"), num("5")]),
    )]);
    let inner = JsonLikeHelper(doc)
        .index(&JsonLikeHelper(txt("a")))
        .unwrap();
    let sliced = inner.range(Some(-3), None).unwrap();
    assert_eq!(sliced.0, arr(vec![num("3"), num("4"), num("5")]));
}

#[test]
fn update_absent_object_key_appends() {
    // input {"a":{"x":1}}: setting key "y" of .a to 2 appends y after x
    let doc = obj(vec![("a", obj(vec![("x", num("1"))]))]);
    let inner = JsonLikeHelper(doc)
        .index(&JsonLikeHelper(txt("a")))
        .unwrap();
    let updated = inner
        .map_index(
            &JsonLikeHelper(txt("y")),
            Opt::Essential,
            |_h: JsonLikeHelper| Ok(vec![JsonLikeHelper(num("2"))]),
        )
        .unwrap();
    assert_eq!(updated.0, obj(vec![("x", num("1")), ("y", num("2"))]));
}

#[test]
fn delete_array_element_shifts_rest() {
    // input [1,2,3]: an empty production at position 1 leaves [1,3]
    let doc = arr(vec![num("1"), num("2"), num("3")]);
    let updated = JsonLikeHelper(doc)
        .map_index(
            &JsonLikeHelper(num("1")),
            Opt::Essential,
            |_h: JsonLikeHelper| Ok(vec![]),
        )
        .unwrap();
    assert_eq!(updated.0, arr(vec![num("1"), num("3")]));
}

#[test]
fn from_pairs_last_write_wins() {
    // pairs [("a",1),("b",2),("a",3)] build {"a":3,"b":2}: the later "a"
    // overwrites the earlier one in place
    let pairs = vec![
        (JsonLikeHelper(txt("a")), JsonLikeHelper(num("1"))),
        (JsonLikeHelper(txt("b")), JsonLikeHelper(num("2"))),
        (JsonLikeHelper(txt("a")), JsonLikeHelper(num("3"))),
    ];
    let built = JsonLikeHelper::from_map(pairs).unwrap();
    assert_eq!(built.0, obj(vec![("a", num("3")), ("b", num("2"))]));
}

#[test]
fn from_pairs_rejects_non_string_key() {
    let pairs = vec![(JsonLikeHelper(num("1")), JsonLikeHelper(num("2")))];
    assert_eq!(JsonLikeHelper::from_map(pairs), Err(Error::KeyNotString));
}

#[test]
fn update_existing_object_key_in_place() {
    // replacing an existing key's value keeps the key order and count
    let doc = obj(vec![("x", num("1")), ("y", num("2")), ("z", num("3"))]);
    let updated = JsonLikeHelper(doc)
        .map_index(
            &JsonLikeHelper(txt("y")),
            Opt::Essential,
            |_h: JsonLikeHelper| Ok(vec![JsonLikeHelper(num("9"))]),
        )
        .unwrap();
    assert_eq!(
        updated.0,
        obj(vec![("x", num("1")), ("y", num("9")), ("z", num("3"))])
    );
}

#[test]
fn delete_object_key_by_empty_production() {
    let doc = obj(vec![("x", num("1")), ("y", num("2")), ("z", num("3"))]);
    let updated = JsonLikeHelper(doc)
        .map_index(
            &JsonLikeHelper(txt("y")),
            Opt::Essential,
            |_h: JsonLikeHelper| Ok(vec![]),
        )
        .unwrap();
    assert_eq!(updated.0, obj(vec![("x", num("1")), ("z", num("3"))]));
}

#[test]
fn negative_array_update_counts_from_end() {
    let doc = arr(vec![num("1"), num("2"), num("3")]);
    let updated = JsonLikeHelper(doc)
        .map_index(
            &JsonLikeHelper(num("-1")),
            Opt::Essential,
            |_h: JsonLikeHelper| Ok(vec![JsonLikeHelper(num("9"))]),
        )
        .unwrap();
    assert_eq!(updated.0, arr(vec![num("1"), num("2"), num("9")]));
}

#[test]
fn array_update_out_of_bounds_fails() {
    let doc = arr(vec![num("1"), num("2")]);
    let r = JsonLikeHelper(doc).map_index(
        &JsonLikeHelper(num("5")),
        Opt::Essential,
        |_h: JsonLikeHelper| Ok(vec![JsonLikeHelper(num("9"))]),
    );
    assert_eq!(r, Err(Error::IndexOutOfBounds { index: 5 }));
}

#[test]
fn wrong_kind_update_skips_when_optional() {
    let doc = num("7");
    let r = JsonLikeHelper(doc).map_index(
        &JsonLikeHelper(txt("y")),
        Opt::Optional,
        |_h: JsonLikeHelper| Ok(vec![JsonLikeHelper(num("9"))]),
    );
    assert_eq!(r, Ok(JsonLikeHelper(num("7"))));
}

#[test]
fn wrong_kind_update_fails_when_essential() {
    let doc = num("7");
    let r = JsonLikeHelper(doc).map_index(
        &JsonLikeHelper(txt("y")),
        Opt::Essential,
        |_h: JsonLikeHelper| Ok(vec![JsonLikeHelper(num("9"))]),
    );
    assert_eq!(r, Err(Error::NotCollection));
}

#[test]
fn splice_replaces_span_with_production() {
    // splicing [2:4] of [1,2,3,4,5] with a longer production grows the array
    let doc = arr(vec![num("1"), num("2"), num("3"), num("4"), num("5")]);
    let spliced = JsonLikeHelper(doc)
        .map_range(Some(2), Some(4), Opt::Essential, |h: JsonLikeHelper| {
            assert_eq!(h.0, arr(vec![num("3"), num("4")]));
            Ok(vec![JsonLikeHelper(num("7")), JsonLikeHelper(num("8")), JsonLikeHelper(num("9"))])
        })
        .unwrap();
    assert_eq!(
        spliced.0,
        arr(vec![num("1"), num("2"), num("7"), num("8"), num("9"), num("5")])
    );
}

#[test]
fn splice_with_empty_production_shrinks() {
    let doc = arr(vec![num("1"), num("2"), num("3")]);
    let spliced = JsonLikeHelper(doc)
        .map_range(Some(0), Some(2), Opt::Essential, |_h: JsonLikeHelper| Ok(vec![]))
        .unwrap();
    assert_eq!(spliced.0, arr(vec![num("3")]));
}

#[test]
fn map_values_concatenates_productions() {
    let doc = arr(vec![num("1"), num("2")]);
    let mapped = JsonLikeHelper(doc)
        .map_values(Opt::Essential, |h: JsonLikeHelper| {
            Ok(vec![h.clone(), h])
        })
        .unwrap();
    assert_eq!(
        mapped.0,
        arr(vec![num("1"), num("1"), num("2"), num("2")])
    );
}

#[test]
fn map_values_object_keeps_first_and_drops_empty() {
    let doc = obj(vec![("a", num("1")), ("b", num("2"))]);
    let mapped = JsonLikeHelper(doc)
        .map_values(Opt::Essential, |h: JsonLikeHelper| {
            if h.0 == num("1") {
                // only the first produced value is kept
                Ok(vec![JsonLikeHelper(num("10")), JsonLikeHelper(num("11"))])
            } else {
                // an empty production drops the key
                Ok(vec![])
            }
        })
        .unwrap();
    assert_eq!(mapped.0, obj(vec![("a", num("10"))]));
}

#[test]
fn map_values_propagates_failure() {
    let doc = arr(vec![num("1")]);
    let r = JsonLikeHelper(doc).map_values(Opt::Essential, |_h: JsonLikeHelper| {
        Err(Error::Incompatible)
    });
    assert_eq!(r, Err(Error::Incompatible));
}

#[test]
fn splice_on_non_array_follows_the_channel() {
    let r = JsonLikeHelper(txt("x")).map_range(None, None, Opt::Optional, |_h: JsonLikeHelper| {
        Ok(vec![])
    });
    assert_eq!(r, Ok(JsonLikeHelper(txt("x"))));
    let r = JsonLikeHelper(txt("x")).map_range(None, None, Opt::Essential, |_h: JsonLikeHelper| {
        Ok(vec![])
    });
    assert_eq!(r, Err(Error::NotCollection));
}

#[test]
fn splice_checks_bounds_before_the_transform() {
    let doc = arr(vec![num("1")]);
    let r = JsonLikeHelper(doc).map_range(Some(-9), None, Opt::Essential, |_h: JsonLikeHelper| {
        panic!("the transform must not run");
    });
    assert_eq!(r, Err(Error::RangeBound));
}

#[test]
fn map_values_on_scalar_follows_the_channel() {
    let r = JsonLikeHelper(num("1")).map_values(Opt::Optional, |h: JsonLikeHelper| Ok(vec![h]));
    assert_eq!(r, Ok(JsonLikeHelper(num("1"))));
    let r = JsonLikeHelper(num("1")).map_values(Opt::Essential, |h: JsonLikeHelper| Ok(vec![h]));
    assert_eq!(r, Err(Error::NotCollection));
}

#[test]
fn string_slice_with_negative_bounds() {
    let h = JsonLikeHelper(txt("hello"));
    assert_eq!(h.clone().range(Some(-3), None).unwrap().0, txt("llo"));
    assert_eq!(h.clone().range(None, Some(-1)).unwrap().0, txt("hell"));
    assert_eq!(h.range(Some(-9), None), Err(Error::RangeBound));
}
