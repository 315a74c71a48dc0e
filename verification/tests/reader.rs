use lava_test::{parse_all, Atom, ReadError, Sx};

fn sym(x: &Sx) -> Option<&str> {
    x.as_sym().map(|s| s.as_str())
}

#[test]
fn reads_atoms_of_every_kind() {
    let forms = parse_all(r#"foo "bar" :baz 42 -7 #t #f"#).unwrap();
    assert_eq!(forms.len(), 7);
    assert_eq!(sym(&forms[0]), Some("foo"));
    assert_eq!(forms[1].as_str().map(|s| s.as_str()), Some("bar"));
    assert_eq!(forms[2].as_kw().map(|s| s.as_str()), Some("baz"));
    assert_eq!(forms[3].as_int(), Some(42));
    assert_eq!(forms[4].as_int(), Some(-7));
    assert!(matches!(forms[5], Sx::Atom(Atom::Bool(true))));
    assert!(matches!(forms[6], Sx::Atom(Atom::Bool(false))));
}

#[test]
fn reads_nested_lists() {
    let forms = parse_all("(a (b c) ())").unwrap();
    assert_eq!(forms.len(), 1);
    let xs = forms[0].as_list().unwrap();
    assert_eq!(xs.len(), 3);
    assert_eq!(sym(&xs[0]), Some("a"));
    let inner = xs[1].as_list().unwrap();
    assert_eq!(inner.len(), 2);
    assert_eq!(sym(&inner[1]), Some("c"));
    assert_eq!(xs[2].as_list().unwrap().len(), 0);
}

#[test]
fn atoms_end_at_delimiters() {
    let forms = parse_all("(a\"s\"b;c\n)").unwrap();
    let xs = forms[0].as_list().unwrap();
    assert_eq!(xs.len(), 3);
    assert_eq!(sym(&xs[0]), Some("a"));
    assert_eq!(xs[1].as_str().map(|s| s.as_str()), Some("s"));
    assert_eq!(sym(&xs[2]), Some("b"));
}

#[test]
fn comments_run_to_end_of_line() {
    let forms = parse_all("; a comment (not read)\nx ; trailing\ny").unwrap();
    assert_eq!(forms.len(), 2);
    assert_eq!(sym(&forms[0]), Some("x"));
    assert_eq!(sym(&forms[1]), Some("y"));
}

#[test]
fn string_escapes_are_undone() {
    let forms = parse_all(r#""a\nb\tc\rd\"e\\f\qg""#).unwrap();
    assert_eq!(forms[0].as_str().map(|s| s.as_str()), Some("a\nb\tc\rd\"e\\fqg"));
}

#[test]
fn near_numbers_are_symbols() {
    let forms = parse_all("- +5 1a -x #x :").unwrap();
    assert_eq!(sym(&forms[0]), Some("-"));
    assert_eq!(sym(&forms[1]), Some("+5"));
    assert_eq!(sym(&forms[2]), Some("1a"));
    assert_eq!(sym(&forms[3]), Some("-x"));
    assert_eq!(sym(&forms[4]), Some("#x"));
    assert_eq!(forms[5].as_kw().map(|s| s.as_str()), Some(""));
}

#[test]
fn integers_span_the_i64_range() {
    let forms = parse_all("9223372036854775807 -9223372036854775808 007").unwrap();
    assert_eq!(forms[0].as_int(), Some(i64::MAX));
    assert_eq!(forms[1].as_int(), Some(i64::MIN));
    assert_eq!(forms[2].as_int(), Some(7));
}

#[test]
fn integer_out_of_range_is_an_error() {
    assert_eq!(parse_all("9223372036854775808").unwrap_err(), ReadError::IntegerOutOfRange);
    assert_eq!(parse_all("(x -9223372036854775809)").unwrap_err(), ReadError::IntegerOutOfRange);
}

#[test]
fn unbalanced_parentheses_are_errors() {
    assert_eq!(parse_all("(a b").unwrap_err(), ReadError::UnclosedList);
    assert_eq!(parse_all("a)").unwrap_err(), ReadError::UnexpectedClose);
    assert_eq!(parse_all("((a)").unwrap_err(), ReadError::UnclosedList);
}

#[test]
fn unterminated_string_is_an_error() {
    assert_eq!(parse_all("(a \"open)").unwrap_err(), ReadError::UnterminatedString);
    assert_eq!(parse_all("\"x\\").unwrap_err(), ReadError::UnterminatedString);
}

#[test]
fn empty_and_blank_sources_read_no_forms() {
    assert_eq!(parse_all("").unwrap().len(), 0);
    assert_eq!(parse_all(" \t\r\n ; only a comment").unwrap().len(), 0);
}

#[test]
fn accessors_answer_only_for_their_own_kind() {
    let forms = parse_all("sym").unwrap();
    assert!(forms[0].as_str().is_none());
    assert!(forms[0].as_kw().is_none());
    assert!(forms[0].as_int().is_none());
    assert!(forms[0].as_list().is_none());
}
