use jsonlike::path::{PathGraphql, PathString};
use jsonlike::value::{JsonObject, Value};

fn num(s: &str) -> Value {
    Value::Num(s.to_string())
}

fn txt(s: &str) -> Value {
    Value::Str(s.to_string())
}

fn arr(items: Vec<Value>) -> Value {
    Value::Arr(items)
}

fn obj(pairs: Vec<(&str, Value)>) -> Value {
    Value::Obj(JsonObject {
        entries: pairs.into_iter().map(|(k, v)| (k.to_string(), v)).collect(),
    })
}

fn path(tokens: &[&str]) -> Vec<String> {
    tokens.iter().map(|t| t.to_string()).collect()
}

#[test]
fn object_insert_overwrites_in_place() {
    let mut o = JsonObject::new();
    o.insert_key("a", num("1"));
    o.insert_key("b", num("2"));
    o.insert_key("a", num("3"));
    assert_eq!(o.entries()[0], ("a".to_string(), num("3")));
    assert_eq!(o.entries()[1], ("b".to_string(), num("2")));
    assert_eq!(o.len(), 2);
}

#[test]
fn object_get_and_remove() {
    let mut o = JsonObject::new();
    o.insert_key("a", num("1"));
    o.insert_key("b", num("2"));
    assert_eq!(o.get_key("a"), Some(&num("1")));
    assert_eq!(o.get_key("zz"), None);
    assert_eq!(o.remove_key("a"), Some(num("1")));
    assert_eq!(o.get_key("a"), None);
    assert_eq!(o.len(), 1);
    assert_eq!(o.remove_key("a"), None);
}

#[test]
fn obj_constructor_folds_pairs() {
    let v = Value::obj(vec![
        ("a".to_string(), num("1")),
        ("b".to_string(), num("2")),
        ("a".to_string(), num("3")),
    ]);
    assert_eq!(v, obj(vec![("a", num("3")), ("b", num("2"))]));
}

#[test]
fn accessors_match_variants() {
    assert!(Value::Null.is_null());
    assert!(!num("0").is_null());
    assert_eq!(Value::Bool(true).as_bool(), Some(true));
    assert_eq!(num("1").as_bool(), None);
    assert_eq!(txt("x").as_str(), Some("x"));
    assert_eq!(Value::Bool(true).as_str(), None);
    assert_eq!(arr(vec![num("1")]).as_array().map(|a| a.len()), Some(1));
    assert_eq!(num("1").as_array(), None);
    assert!(obj(vec![]).as_object().is_some());
    assert!(arr(vec![]).as_object().is_none());
    assert_eq!(arr(vec![num("1")]).into_array(), Some(vec![num("1")]));
    assert!(obj(vec![]).into_object().is_some());
}

#[test]
fn number_coercions_read_the_text() {
    assert_eq!(num("7").as_u64(), Some(7));
    assert_eq!(num("7").as_i64(), Some(7));
    assert_eq!(num("-3").as_i64(), Some(-3));
    assert_eq!(num("-3").as_u64(), None);
    assert_eq!(num("1.5").as_u64(), None);
    assert_eq!(num("1.5").as_i64(), None);
    assert_eq!(num("18446744073709551615").as_u64(), Some(u64::MAX));
    assert_eq!(num("18446744073709551616").as_u64(), None);
    assert_eq!(num("9223372036854775807").as_i64(), Some(i64::MAX));
    assert_eq!(num("-9223372036854775808").as_i64(), Some(i64::MIN));
    assert_eq!(num("-9223372036854775809").as_i64(), None);
    assert_eq!(txt("7").as_u64(), None);
}

#[test]
fn get_path_walks_objects_and_arrays() {
    let doc = obj(vec![(
        "a",
        arr(vec![num("1"), obj(vec![("b", num("2"))])]),
    )]);
    assert_eq!(doc.get_path(&path(&[])), Some(&doc));
    assert_eq!(doc.get_path(&path(&["a", "0"])), Some(&num("1")));
    assert_eq!(doc.get_path(&path(&["a", "1", "b"])), Some(&num("2")));
    assert_eq!(doc.get_path(&path(&["a", "2"])), None);
    assert_eq!(doc.get_path(&path(&["a", "x"])), None);
    assert_eq!(doc.get_path(&path(&["zz"])), None);
    assert_eq!(doc.get_path(&path(&["a", "0", "deeper"])), None);
}

#[test]
fn get_key_reads_objects_only() {
    let doc = obj(vec![("a", num("1"))]);
    assert_eq!(doc.get_key("a"), Some(&num("1")));
    assert_eq!(doc.get_key("b"), None);
    assert_eq!(num("1").get_key("a"), None);
}

#[test]
fn rendered_text_is_compact_json() {
    let doc = obj(vec![
        ("a", arr(vec![num("1"), txt("x\ny"), Value::Bool(true)])),
        ("b", Value::Null),
    ]);
    assert_eq!(doc.to_text(), "{\"a\":[1,\"x\\ny\",true],\"b\":null}");
    assert_eq!(txt("q\"\\\u{0001}").to_text(), "\"q\\\"\\\\\\u0001\"");
    assert_eq!(arr(vec![]).to_text(), "[]");
    assert_eq!(obj(vec![]).to_text(), "{}");
}

#[test]
fn path_string_reads_strings_bare() {
    let doc = obj(vec![("a", txt("hello")), ("b", arr(vec![num("1")]))]);
    assert_eq!(doc.path_string(&path(&["a"])), Some("hello".to_string()));
    assert_eq!(doc.path_string(&path(&["b"])), Some("[1]".to_string()));
    assert_eq!(doc.path_string(&path(&["zz"])), None);
}

#[test]
fn path_graphql_renders_bare_keys() {
    let doc = obj(vec![
        ("a", obj(vec![("x", num("1")), ("y", txt("s"))])),
    ]);
    assert_eq!(
        doc.path_graphql(&path(&["a"])),
        Some("{x: 1, y: \"s\"}".to_string())
    );
    assert_eq!(
        doc.path_graphql(&path(&["a", "x"])),
        Some("1".to_string())
    );
    assert_eq!(doc.path_graphql(&path(&["zz"])), None);
}

#[test]
fn clone_is_deep_and_equal() {
    let doc = obj(vec![("a", arr(vec![num("1"), txt("x")]))]);
    let copy = doc.clone();
    assert_eq!(doc, copy);
}

#[test]
fn constructors_build_the_variants() {
    assert_eq!(Value::null(), Value::Null);
    assert_eq!(Value::string("x".to_string()), txt("x"));
    assert_eq!(Value::array(vec![num("1")]), arr(vec![num("1")]));
    let o = JsonObject::with_capacity(4);
    assert_eq!(Value::object(o), obj(vec![]));
}

#[test]
fn group_by_buckets_holders_by_text() {
    // records are grouped by the value under the path, arrays expanding
    let records = arr(vec![
        obj(vec![("userId", num("1")), ("t", txt("a"))]),
        obj(vec![("userId", num("2")), ("t", txt("b"))]),
        obj(vec![("userId", num("1")), ("t", txt("c"))]),
    ]);
    let grouped = records.group_by(&path(&["userId"]));
    assert_eq!(grouped.len(), 2);
    assert_eq!(grouped[0].0, "1");
    assert_eq!(
        grouped[0].1,
        vec![
            obj(vec![("userId", num("1")), ("t", txt("a"))]),
            obj(vec![("userId", num("1")), ("t", txt("c"))]),
        ]
    );
    assert_eq!(grouped[1].0, "2");
    assert_eq!(
        grouped[1].1,
        vec![obj(vec![("userId", num("2")), ("t", txt("b"))])]
    );
}

#[test]
fn group_by_walks_deep_paths_and_skips_unkeyed() {
    let records = arr(vec![
        obj(vec![("u", obj(vec![("name", txt("x"))]))]),
        obj(vec![("u", obj(vec![("name", Value::Null)]))]),
        num("7"),
    ]);
    let grouped = records.group_by(&path(&["u", "name"]));
    assert_eq!(grouped.len(), 1);
    assert_eq!(grouped[0].0, "x");
    assert_eq!(
        grouped[0].1,
        vec![obj(vec![("name", txt("x"))])]
    );
}
