use lava_test::Json;

fn obj(members: Vec<(&str, Json)>) -> Json {
    Json::Object(members.into_iter().map(|(k, v)| (k.to_string(), v)).collect())
}

fn jstr(t: &str) -> Json {
    Json::String(t.to_string())
}

fn num(t: &str) -> Json {
    Json::Number(t.to_string())
}

fn doc() -> Json {
    obj(vec![
        ("a", obj(vec![("b", num("1"))])),
        ("arr", Json::Array(vec![jstr("x"), jstr("y"), Json::Null])),
        ("k/slash", Json::Bool(true)),
        ("t~tilde", Json::Bool(false)),
        ("", jstr("empty-key")),
    ])
}

fn is_str(j: Option<&Json>, want: &str) -> bool {
    matches!(j, Some(Json::String(s)) if s == want)
}

#[test]
fn empty_pointer_names_the_whole_document() {
    let d = doc();
    let whole = d.pointer("").unwrap();
    assert!(whole.equals(&d));
}

#[test]
fn pointer_walks_nested_objects() {
    let d = doc();
    assert!(matches!(d.pointer("/a/b"), Some(Json::Number(t)) if t == "1"));
    assert!(d.pointer("/a/c").is_none());
    assert!(d.pointer("/a/b/c").is_none());
}

#[test]
fn pointer_indexes_arrays_by_decimal_position() {
    let d = doc();
    assert!(is_str(d.pointer("/arr/0"), "x"));
    assert!(is_str(d.pointer("/arr/1"), "y"));
    assert!(matches!(d.pointer("/arr/2"), Some(Json::Null)));
    assert!(d.pointer("/arr/3").is_none());
}

#[test]
fn pointer_refuses_leading_zero_sign_and_dash_indices() {
    let d = doc();
    assert!(d.pointer("/arr/01").is_none());
    assert!(d.pointer("/arr/+1").is_none());
    assert!(d.pointer("/arr/-").is_none());
    assert!(d.pointer("/arr/").is_none());
    assert!(d.pointer("/arr/99999999999999999999999").is_none());
}

#[test]
fn pointer_unescapes_tilde_sequences() {
    let d = doc();
    assert!(matches!(d.pointer("/k~1slash"), Some(Json::Bool(true))));
    assert!(matches!(d.pointer("/t~0tilde"), Some(Json::Bool(false))));
    assert!(d.pointer("/k/slash").is_none());
}

#[test]
fn pointer_slash_alone_names_the_empty_key() {
    let d = doc();
    assert!(is_str(d.pointer("/"), "empty-key"));
}

#[test]
fn pointer_without_leading_slash_names_nothing() {
    let d = doc();
    assert!(d.pointer("a").is_none());
    assert!(d.pointer("a/b").is_none());
}

#[test]
fn pointer_into_a_scalar_names_nothing() {
    let d = jstr("leaf");
    assert!(d.pointer("/x").is_none());
    assert!(d.pointer("/0").is_none());
}

#[test]
fn rendering_is_compact_json_text_with_sorted_keys() {
    let d = obj(vec![
        ("n", Json::Null),
        ("b", Json::Bool(false)),
        ("i", num("-12")),
        ("l", Json::Array(vec![num("1"), Json::Bool(true)])),
        ("e", Json::Array(vec![])),
        ("o", obj(vec![])),
    ]);
    assert_eq!(d.to_json_string(), r#"{"b":false,"e":[],"i":-12,"l":[1,true],"n":null,"o":{}}"#);
}

#[test]
fn rendering_escapes_strings() {
    let s = jstr("a\"b\\c\nd\te\r\u{1}\u{8}\u{c}é");
    assert_eq!(s.to_json_string(), "\"a\\\"b\\\\c\\nd\\te\\r\\u0001\\b\\fé\"");
    assert_eq!(jstr("\u{1f}").to_json_string(), "\"\\u001f\"");
}

#[test]
fn write_to_appends_to_existing_text() {
    let mut out = String::from("value=");
    Json::Array(vec![jstr("x")]).write_to(&mut out);
    assert_eq!(out, r#"value=["x"]"#);
}

#[test]
fn equality_is_structural_and_ignores_member_order() {
    let a = obj(vec![("x", num("1")), ("y", Json::Array(vec![jstr("p")]))]);
    let b = obj(vec![("y", Json::Array(vec![jstr("p")])), ("x", num("1"))]);
    assert!(a.equals(&b));
    assert!(b.equals(&a));
    let c = obj(vec![("x", num("1")), ("y", Json::Array(vec![jstr("q")]))]);
    assert!(!a.equals(&c));
    let d = obj(vec![("x", num("1"))]);
    assert!(!a.equals(&d));
}

#[test]
fn equality_distinguishes_kinds() {
    assert!(!jstr("1").equals(&num("1")));
    assert!(!Json::Null.equals(&Json::Bool(false)));
    assert!(Json::Null.equals(&Json::Null));
    assert!(!Json::Array(vec![]).equals(&obj(vec![])));
}

#[test]
fn clone_is_a_deep_copy() {
    let d = doc();
    let c = d.clone();
    assert!(c.equals(&d));
    assert_eq!(c.to_json_string(), d.to_json_string());
}

#[test]
fn numbers_compare_by_the_number_they_denote() {
    assert!(num("1e2").equals(&num("100.0")));
    assert!(num("100.0").equals(&num("1E+2")));
    assert!(!num("100").equals(&num("100.0")));
    assert!(num("-0").equals(&num("-0")));
    assert!(num("1").equals(&num("1")));
    assert!(!num("1").equals(&num("2")));
    let a = Json::Array(vec![num("2.50")]);
    let b = Json::Array(vec![num("2.5")]);
    assert!(a.equals(&b));
}
