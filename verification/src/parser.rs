//! Builds typed test cases from `(deflava-test …)` forms.
//!
//! ```lisp
//! (deflava-test aws-vpc-network/default
//!   :architecture aws-vpc-network
//!   :bindings (:name "main" :cidr "10.0.0.0/16")
//!   :assertions ((resource-exists aws-vpc "main-vpc")
//!                (attribute-equals aws-vpc "main-vpc" :cidr-block "10.0.0.0/16")
//!                (resource-count aws-subnet 6)
//!                (output-equals "vpc-id" "main-vpc-id")
//!                (ref-valid)
//!                (no-resource aws-subnet "absent-subnet")))
//! ```
//!
//! Assertion heads: `resource-exists`, `no-resource`, `attribute-equals`,
//! `resource-count`, `output-equals`, `ref-valid`, `tag-equals`,
//! `min-resources-of-kind` (or `min-resources`) and `ref-targets`.

use vstd::prelude::*;
use indexmap::IndexMap;
use crate::assertions::{
    head_name, AssertionView, AttributeEquals, BuiltinAssertion, MinResourcesOfKind, NoResource, OutputEquals,
    RefTargets, RefValid, RegexMatches, ResourceCount, ResourceExists, TagEquals,
};
use crate::bindings::{binding_entries, bindings_insert, bindings_new, insert_entry, entry_index};
use crate::json::{Json, JsonView, json_views, json_wf};
use crate::report::opt_str_view;
use crate::runner::TestCase;
use crate::sexpr::{
    parse_all, read_all, sx_view, sx_views, lemma_sx_views, opt_string_view, ReadError, Sx, SxView,
    Atom, sym_of, str_of, kw_of, int_of, list_of, form_text, form_text_of,
};
use crate::text::{chars_of, int_text, push_int, underscored, underscore_dashes};

verus! {

/// Why a source form could not become a test case.
#[derive(Debug)]
pub enum TestParseError {
    /// The source text could not be read.
    Parse(ReadError),
    /// The form has no name.
    NotTestForm,
    /// A required clause is missing or is not a list.
    MissingClause(&'static str),
    /// An assertion form is malformed.
    BadAssertion(String),
    /// An assertion head is not a known assertion.
    UnknownAssertion(String),
    /// An assertion lacks an argument.
    InsufficientArgs { kind: String, detail: String },
}

/// The value of a parse error.
pub enum ParseErrorView {
    Parse(ReadError),
    NotTestForm,
    MissingClause(Seq<char>),
    BadAssertion(Seq<char>),
    UnknownAssertion(Seq<char>),
    InsufficientArgs(Seq<char>, Seq<char>),
}

impl View for TestParseError {
    type V = ParseErrorView;

    open spec fn view(&self) -> ParseErrorView {
        match self {
            TestParseError::Parse(e) => ParseErrorView::Parse(*e),
            TestParseError::NotTestForm => ParseErrorView::NotTestForm,
            TestParseError::MissingClause(c) => ParseErrorView::MissingClause(c@),
            TestParseError::BadAssertion(m) => ParseErrorView::BadAssertion(m@),
            TestParseError::UnknownAssertion(m) => ParseErrorView::UnknownAssertion(m@),
            TestParseError::InsufficientArgs { kind, detail } => ParseErrorView::InsufficientArgs(kind@, detail@),
        }
    }
}

// ---------------------------------------------------------------------------
// Small pieces
// ---------------------------------------------------------------------------

/// Whether `s` reads exactly `lit`.
pub(crate) fn text_is(s: &String, lit: &str) -> (r: bool)
    ensures
        r == (s@ == lit@),
{
    let a = chars_of(s.as_str());
    let b = chars_of(lit);
    if a.len() != b.len() {
        return false;
    }
    for i in 0..a.len()
        invariant
            a@ == s@,
            b@ == lit@,
            a@.len() == b@.len(),
            forall|j: int| 0 <= j < i ==> a@[j] == b@[j],
    {
        if a[i] != b[i] {
            return false;
        }
    }
    assert(a@ =~= b@);
    true
}

/// A terraform type name from its kebab-case symbol: `-` becomes `_`.
pub fn sym_to_type_id(s: &str) -> (r: String)
    ensures
        r@ == underscored(s@),
{
    underscore_dashes(s)
}

/// The JSON value an argument denotes: strings, symbols and keywords become
/// strings, integers numbers, booleans booleans, lists arrays.
pub open spec fn sx_json(x: SxView) -> JsonView
    decreases x,
{
    match x {
        SxView::Sym(s) => JsonView::String(s),
        SxView::Str(s) => JsonView::String(s),
        SxView::Kw(s) => JsonView::String(s),
        SxView::Int(n) => JsonView::Number(int_text(n)),
        SxView::Bool(b) => JsonView::Bool(b),
        SxView::List(items) => JsonView::Array(sx_json_list(items)),
    }
}

pub open spec fn sx_json_list(s: Seq<SxView>) -> Seq<JsonView>
    decreases s,
{
    if s.len() == 0 {
        Seq::<JsonView>::empty()
    } else {
        sx_json_list(s.drop_last()).push(sx_json(s.last()))
    }
}

/// Source values become JSON as written: a string, a symbol and a keyword
/// become that text as a JSON string, an integer the number with its decimal
/// text, a boolean that boolean, and a list the array of its items.
pub proof fn law_source_values_as_json(s: Seq<char>, n: int, b: bool, x: SxView, y: SxView)
    ensures
        sx_json(SxView::Str(s)) == JsonView::String(s),
        sx_json(SxView::Sym(s)) == JsonView::String(s),
        sx_json(SxView::Kw(s)) == JsonView::String(s),
        sx_json(SxView::Int(n)) == JsonView::Number(int_text(n)),
        sx_json(SxView::Bool(b)) == JsonView::Bool(b),
        sx_json(SxView::List(seq![x, y])) == JsonView::Array(seq![sx_json(x), sx_json(y)]),
{
    let l = seq![x, y];
    let l1 = seq![x];
    assert(l.drop_last() =~= l1);
    assert(l1.drop_last() =~= Seq::<SxView>::empty());
    assert(sx_json_list(Seq::<SxView>::empty()) == Seq::<JsonView>::empty());
    assert(sx_json_list(l1) == Seq::<JsonView>::empty().push(sx_json(x)));
    assert(sx_json_list(l) == sx_json_list(l1).push(sx_json(y)));
    assert(sx_json_list(l) =~= seq![sx_json(x), sx_json(y)]);
}

/// Converts an argument to JSON, as [`sx_json`] states.
#[verifier::loop_isolation(false)]
pub fn sx_to_json(x: &Sx) -> (r: Json)
    ensures
        r@ == sx_json(x@),
        json_wf(r),
    decreases x,
{
    match x {
        Sx::Atom(Atom::Str(s)) => Json::String(s.clone()),
        Sx::Atom(Atom::Sym(s)) => Json::String(s.clone()),
        Sx::Atom(Atom::Kw(s)) => Json::String(s.clone()),
        Sx::Atom(Atom::Int(n)) => {
            let mut t = String::new();
            push_int(&mut t, *n);
            Json::Number(t)
        },
        Sx::Atom(Atom::Bool(b)) => Json::Bool(*b),
        Sx::List(items) => {
            let mut out: Vec<Json> = Vec::new();
            for i in 0..items.len()
                invariant
                    json_views(out@) == sx_json_list(sx_views(items@.take(i as int))),
                    forall|k: int| 0 <= k < out@.len() ==> json_wf(#[trigger] out@[k]),
            {
                assert(items@.take(i + 1).drop_last() =~= items@.take(i as int));
                let j = sx_to_json(&items[i]);
                proof {
                    let o = out@;
                    assert(o.push(j).drop_last() =~= o);
                    assert(sx_views(items@.take(i + 1)).drop_last() =~= sx_views(items@.take(i as int)));
                }
                out.push(j);
            }
            assert(items@.take(items.len() as int) =~= items@);
            Json::Array(out)
        },
    }
}

/// The argument at position `i`, if there is one.
pub open spec fn arg(xs: Seq<SxView>, i: int) -> Option<SxView> {
    if 0 <= i < xs.len() {
        Some(xs[i])
    } else {
        None
    }
}

pub open spec fn sym_arg(xs: Seq<SxView>, i: int) -> Option<Seq<char>> {
    match arg(xs, i) {
        Some(x) => sym_of(x),
        None => None,
    }
}

pub open spec fn str_arg(xs: Seq<SxView>, i: int) -> Option<Seq<char>> {
    match arg(xs, i) {
        Some(x) => str_of(x),
        None => None,
    }
}

pub open spec fn kw_arg(xs: Seq<SxView>, i: int) -> Option<Seq<char>> {
    match arg(xs, i) {
        Some(x) => kw_of(x),
        None => None,
    }
}

pub open spec fn int_arg(xs: Seq<SxView>, i: int) -> Option<int> {
    match arg(xs, i) {
        Some(x) => int_of(x),
        None => None,
    }
}

pub(crate) fn sym_at(xs: &[Sx], i: usize) -> (r: Option<&String>)
    ensures
        opt_string_view(r) == sym_arg(sx_views(xs@), i as int),
{
    proof { lemma_sx_views(xs@); }
    if i < xs.len() {
        xs[i].as_sym()
    } else {
        None
    }
}

pub(crate) fn str_at(xs: &[Sx], i: usize) -> (r: Option<&String>)
    ensures
        opt_string_view(r) == str_arg(sx_views(xs@), i as int),
{
    proof { lemma_sx_views(xs@); }
    if i < xs.len() {
        xs[i].as_str()
    } else {
        None
    }
}

pub(crate) fn kw_at(xs: &[Sx], i: usize) -> (r: Option<&String>)
    ensures
        opt_string_view(r) == kw_arg(sx_views(xs@), i as int),
{
    proof { lemma_sx_views(xs@); }
    if i < xs.len() {
        xs[i].as_kw()
    } else {
        None
    }
}

fn int_at(xs: &[Sx], i: usize) -> (r: Option<i64>)
    ensures
        match r {
            Some(n) => int_arg(sx_views(xs@), i as int) == Some(n as int),
            None => int_arg(sx_views(xs@), i as int) is None,
        },
{
    proof { lemma_sx_views(xs@); }
    if i < xs.len() {
        xs[i].as_int()
    } else {
        None
    }
}

fn insufficient(kind: &str, detail: &str) -> (e: TestParseError)
    ensures
        e@ == ParseErrorView::InsufficientArgs(kind@, detail@),
{
    TestParseError::InsufficientArgs { kind: String::from_str(kind), detail: String::from_str(detail) }
}


// ---------------------------------------------------------------------------
// Assertion forms
// ---------------------------------------------------------------------------

pub open spec fn insufficient_view(kind: Seq<char>, detail: Seq<char>) -> ParseErrorView {
    ParseErrorView::InsufficientArgs(kind, detail)
}

/// `(<head> <type-id> "<name>")`: the type (dashes made underscores) and name.
pub open spec fn id_name(xs: Seq<SxView>, kind: Seq<char>) -> Result<(Seq<char>, Seq<char>), ParseErrorView> {
    match sym_arg(xs, 1) {
        None => Err(insufficient_view(kind, "need type-id at position 1"@)),
        Some(t) => match str_arg(xs, 2) {
            None => Err(insufficient_view(kind, "need \"name\" at position 2"@)),
            Some(n) => Ok((underscored(t), n)),
        },
    }
}

/// `(attribute-equals <type-id> "<name>" :<attr> <value>)`
pub open spec fn attribute_equals_of(xs: Seq<SxView>) -> Result<AssertionView, ParseErrorView> {
    let k = "attribute-equals"@;
    match sym_arg(xs, 1) {
        None => Err(insufficient_view(k, "need type-id at position 1"@)),
        Some(t) => match str_arg(xs, 2) {
            None => Err(insufficient_view(k, "need \"name\" at position 2"@)),
            Some(n) => match kw_arg(xs, 3) {
                None => Err(insufficient_view(k, "need :attr at position 3"@)),
                Some(a) => match arg(xs, 4) {
                    None => Err(insufficient_view(k, "need value at position 4"@)),
                    Some(v) => Ok(AssertionView::AttributeEquals(underscored(t), n, underscored(a), sx_json(v))),
                },
            },
        },
    }
}

/// `(resource-count <type-id> <n>)`
pub open spec fn resource_count_of(xs: Seq<SxView>) -> Result<AssertionView, ParseErrorView> {
    let k = "resource-count"@;
    match sym_arg(xs, 1) {
        None => Err(insufficient_view(k, "need type-id at position 1"@)),
        Some(t) => match int_arg(xs, 2) {
            None => Err(insufficient_view(k, "need integer at position 2"@)),
            Some(c) => if 0 <= c <= usize::MAX {
                Ok(AssertionView::ResourceCount(underscored(t), c as nat))
            } else {
                Err(insufficient_view(k, "count must be non-negative"@))
            },
        },
    }
}

/// `(output-equals "<name>" <value>)`
pub open spec fn output_equals_of(xs: Seq<SxView>) -> Result<AssertionView, ParseErrorView> {
    let k = "output-equals"@;
    match str_arg(xs, 1) {
        None => Err(insufficient_view(k, "need \"name\" at position 1"@)),
        Some(n) => match arg(xs, 2) {
            None => Err(insufficient_view(k, "need value at position 2"@)),
            Some(v) => Ok(AssertionView::OutputEquals(n, sx_json(v))),
        },
    }
}

/// `(tag-equals <type-id> "<name>" :<key> "<value>")`
pub open spec fn tag_equals_of(xs: Seq<SxView>) -> Result<AssertionView, ParseErrorView> {
    let k = "tag-equals"@;
    match sym_arg(xs, 1) {
        None => Err(insufficient_view(k, "need type-id"@)),
        Some(t) => match str_arg(xs, 2) {
            None => Err(insufficient_view(k, "need \"name\""@)),
            Some(n) => match kw_arg(xs, 3) {
                None => Err(insufficient_view(k, "need :key"@)),
                Some(key) => match str_arg(xs, 4) {
                    None => Err(insufficient_view(k, "need \"value\""@)),
                    Some(v) => Ok(AssertionView::TagEquals(underscored(t), n, key, v)),
                },
            },
        },
    }
}

/// `(min-resources-of-kind <type-id> <n>)`
pub open spec fn min_resources_of(xs: Seq<SxView>) -> Result<AssertionView, ParseErrorView> {
    let k = "min-resources-of-kind"@;
    match sym_arg(xs, 1) {
        None => Err(insufficient_view(k, "need type-id"@)),
        Some(t) => match int_arg(xs, 2) {
            None => Err(insufficient_view(k, "need integer"@)),
            Some(c) => if 0 <= c <= usize::MAX {
                Ok(AssertionView::MinResourcesOfKind(underscored(t), c as nat))
            } else {
                Err(insufficient_view(k, "non-negative integer"@))
            },
        },
    }
}

/// `(regex-matches <type-id> "<name>" :<attr> "<pattern>")`
pub open spec fn regex_matches_of(xs: Seq<SxView>) -> Result<AssertionView, ParseErrorView> {
    let k = "regex-matches"@;
    match sym_arg(xs, 1) {
        None => Err(insufficient_view(k, "need type-id at 1"@)),
        Some(t) => match str_arg(xs, 2) {
            None => Err(insufficient_view(k, "need \"name\" at 2"@)),
            Some(n) => match kw_arg(xs, 3) {
                None => Err(insufficient_view(k, "need :attr at 3"@)),
                Some(a) => match str_arg(xs, 4) {
                    None => Err(insufficient_view(k, "need \"pattern\" at 4"@)),
                    Some(pat) => Ok(AssertionView::RegexMatches(underscored(t), n, underscored(a), pat)),
                },
            },
        },
    }
}

/// `(ref-targets <src-type> "<src-name>" :<src-attr> <target-type> "<target-name>")`
pub open spec fn ref_targets_of(xs: Seq<SxView>) -> Result<AssertionView, ParseErrorView> {
    let k = "ref-targets"@;
    match sym_arg(xs, 1) {
        None => Err(insufficient_view(k, "need src-type at 1"@)),
        Some(st) => match str_arg(xs, 2) {
            None => Err(insufficient_view(k, "need \"src-name\" at 2"@)),
            Some(sn) => match kw_arg(xs, 3) {
                None => Err(insufficient_view(k, "need :src-attr at 3"@)),
                Some(sa) => match sym_arg(xs, 4) {
                    None => Err(insufficient_view(k, "need target-type at 4"@)),
                    Some(tt) => match str_arg(xs, 5) {
                        None => Err(insufficient_view(k, "need \"target-name\" at 5"@)),
                        Some(tn) => Ok(AssertionView::RefTargets(underscored(st), sn, sa, underscored(tt), tn)),
                    },
                },
            },
        },
    }
}

/// The assertion an assertion form denotes, dispatched on its head symbol.
pub open spec fn assertion_of(form: SxView) -> Result<AssertionView, ParseErrorView> {
    match list_of(form) {
        None => Err(ParseErrorView::BadAssertion("not a list: "@ + form_text(form))),
        Some(xs) => match sym_arg(xs, 0) {
            None => Err(ParseErrorView::BadAssertion("head not sym"@)),
            Some(head) => if head == "resource-exists"@ {
                match id_name(xs, "resource-exists"@) {
                    Ok(p) => Ok(AssertionView::ResourceExists(p.0, p.1)),
                    Err(e) => Err(e),
                }
            } else if head == "no-resource"@ {
                match id_name(xs, "no-resource"@) {
                    Ok(p) => Ok(AssertionView::NoResource(p.0, p.1)),
                    Err(e) => Err(e),
                }
            } else if head == "attribute-equals"@ {
                attribute_equals_of(xs)
            } else if head == "resource-count"@ {
                resource_count_of(xs)
            } else if head == "output-equals"@ {
                output_equals_of(xs)
            } else if head == "ref-valid"@ {
                Ok(AssertionView::RefValid)
            } else if head == "tag-equals"@ {
                tag_equals_of(xs)
            } else if head == "min-resources-of-kind"@ || head == "min-resources"@ {
                min_resources_of(xs)
            } else if head == "regex-matches"@ {
                regex_matches_of(xs)
            } else if head == "ref-targets"@ {
                ref_targets_of(xs)
            } else {
                Err(ParseErrorView::UnknownAssertion(head))
            },
        },
    }
}

/// The kind a head names: `min-resources` is another name for
/// `min-resources-of-kind`.
pub open spec fn canonical_head(h: Seq<char>) -> Seq<char> {
    if h == "min-resources"@ {
        "min-resources-of-kind"@
    } else {
        h
    }
}

/// An assertion form that parses gives an assertion of the kind its head
/// names.
pub proof fn law_parsed_kind_follows_head(form: SxView)
    ensures
        assertion_of(form) matches Ok(v) ==> (list_of(form) matches Some(xs) && sym_arg(xs, 0) matches Some(
            h,
        ) && head_name(v) == canonical_head(h)),
{
    reveal_strlit("resource-exists");
    reveal_strlit("no-resource");
    reveal_strlit("attribute-equals");
    reveal_strlit("resource-count");
    reveal_strlit("output-equals");
    reveal_strlit("ref-valid");
    reveal_strlit("tag-equals");
    reveal_strlit("min-resources-of-kind");
    reveal_strlit("min-resources");
    reveal_strlit("regex-matches");
    reveal_strlit("ref-targets");
    if let Some(xs) = list_of(form) {
        if let Some(h) = sym_arg(xs, 0) {
            assert(attribute_equals_of(xs) matches Ok(v) ==> v is AttributeEquals);
            assert(resource_count_of(xs) matches Ok(v) ==> v is ResourceCount);
            assert(output_equals_of(xs) matches Ok(v) ==> v is OutputEquals);
            assert(tag_equals_of(xs) matches Ok(v) ==> v is TagEquals);
            assert(min_resources_of(xs) matches Ok(v) ==> v is MinResourcesOfKind);
            assert(ref_targets_of(xs) matches Ok(v) ==> v is RefTargets);
            assert(regex_matches_of(xs) matches Ok(v) ==> v is RegexMatches);
            if h == "resource-exists"@ {
                assert(assertion_of(form) matches Ok(v) ==> head_name(v) == canonical_head(h));
            }
            if h == "no-resource"@ {
                assert(assertion_of(form) matches Ok(v) ==> head_name(v) == canonical_head(h));
            }
            if h == "attribute-equals"@ {
                assert(assertion_of(form) matches Ok(v) ==> head_name(v) == canonical_head(h));
            }
            if h == "resource-count"@ {
                assert(assertion_of(form) matches Ok(v) ==> head_name(v) == canonical_head(h));
            }
            if h == "output-equals"@ {
                assert("output-equals"@[0] != "min-resources"@[0]);
                assert(assertion_of(form) matches Ok(v) ==> head_name(v) == canonical_head(h));
            }
            if h == "ref-valid"@ {
                assert(assertion_of(form) matches Ok(v) ==> head_name(v) == canonical_head(h));
            }
            if h == "tag-equals"@ {
                assert(assertion_of(form) matches Ok(v) ==> head_name(v) == canonical_head(h));
            }
            if h == "min-resources-of-kind"@ {
                assert(assertion_of(form) matches Ok(v) ==> head_name(v) == canonical_head(h));
            }
            if h == "min-resources"@ {
                assert(assertion_of(form) matches Ok(v) ==> head_name(v) == canonical_head(h));
            }
            if h == "regex-matches"@ {
                assert(assertion_of(form) matches Ok(v) ==> head_name(v) == canonical_head(h));
            }
            if h == "ref-targets"@ {
                assert(assertion_of(form) matches Ok(v) ==> head_name(v) == canonical_head(h));
            }
        }
    }
}

/// Each of the six documented assertion forms, with arguments of the kinds
/// its head asks for, reads as the assertion that head names: type ids and
/// attribute names take `_` for `-`, and values become JSON. A count must
/// fit in a `usize`.
pub proof fn law_documented_forms_parse(t: Seq<char>, n: Seq<char>, a: Seq<char>, v: SxView, k: int)
    requires
        0 <= k <= usize::MAX,
    ensures
        assertion_of(SxView::List(seq![SxView::Sym("resource-exists"@), SxView::Sym(t), SxView::Str(n)]))
            == Ok::<AssertionView, ParseErrorView>(AssertionView::ResourceExists(underscored(t), n)),
        assertion_of(SxView::List(seq![SxView::Sym("no-resource"@), SxView::Sym(t), SxView::Str(n)]))
            == Ok::<AssertionView, ParseErrorView>(AssertionView::NoResource(underscored(t), n)),
        assertion_of(
            SxView::List(seq![SxView::Sym("attribute-equals"@), SxView::Sym(t), SxView::Str(n), SxView::Kw(a), v]),
        ) == Ok::<AssertionView, ParseErrorView>(
            AssertionView::AttributeEquals(underscored(t), n, underscored(a), sx_json(v)),
        ),
        assertion_of(SxView::List(seq![SxView::Sym("resource-count"@), SxView::Sym(t), SxView::Int(k)]))
            == Ok::<AssertionView, ParseErrorView>(AssertionView::ResourceCount(underscored(t), k as nat)),
        assertion_of(SxView::List(seq![SxView::Sym("output-equals"@), SxView::Str(n), v]))
            == Ok::<AssertionView, ParseErrorView>(AssertionView::OutputEquals(n, sx_json(v))),
        assertion_of(SxView::List(seq![SxView::Sym("ref-valid"@)])) == Ok::<AssertionView, ParseErrorView>(
            AssertionView::RefValid,
        ),
{
    reveal_strlit("resource-exists");
    reveal_strlit("no-resource");
    reveal_strlit("attribute-equals");
    reveal_strlit("resource-count");
    reveal_strlit("output-equals");
    reveal_strlit("ref-valid");
    reveal_strlit("tag-equals");
    reveal_strlit("min-resources-of-kind");
    reveal_strlit("min-resources");
    reveal_strlit("regex-matches");
    reveal_strlit("ref-targets");
    assert("resource-exists"@.len() == 15 && "no-resource"@.len() == 11 && "attribute-equals"@.len() == 16);
    assert("resource-count"@.len() == 14 && "output-equals"@.len() == 13 && "ref-valid"@.len() == 9);
    assert("no-resource"@ != "resource-exists"@);
    assert("attribute-equals"@ != "resource-exists"@ && "attribute-equals"@ != "no-resource"@);
    assert("resource-count"@ != "resource-exists"@ && "resource-count"@ != "no-resource"@
        && "resource-count"@ != "attribute-equals"@);
    assert("output-equals"@ != "resource-exists"@ && "output-equals"@ != "no-resource"@
        && "output-equals"@ != "attribute-equals"@ && "output-equals"@ != "resource-count"@);
    assert("ref-valid"@ != "resource-exists"@ && "ref-valid"@ != "no-resource"@ && "ref-valid"@ != "attribute-equals"@
        && "ref-valid"@ != "resource-count"@ && "ref-valid"@ != "output-equals"@);
}

/// The four further assertion forms, with arguments of the kinds their
/// heads ask for, read as the assertions they name: type ids take `_` for
/// `-` (and so does the attribute of `regex-matches`), while names, tag keys,
/// tag values, the source attribute of `ref-targets` and patterns are kept
/// as written. A count must fit in a `usize`.
pub proof fn law_extended_forms_parse(
    t: Seq<char>,
    n: Seq<char>,
    key: Seq<char>,
    v: Seq<char>,
    k: int,
    tt: Seq<char>,
    tn: Seq<char>,
)
    requires
        0 <= k <= usize::MAX,
    ensures
        assertion_of(
            SxView::List(seq![SxView::Sym("tag-equals"@), SxView::Sym(t), SxView::Str(n), SxView::Kw(key), SxView::Str(v)]),
        ) == Ok::<AssertionView, ParseErrorView>(AssertionView::TagEquals(underscored(t), n, key, v)),
        assertion_of(SxView::List(seq![SxView::Sym("min-resources-of-kind"@), SxView::Sym(t), SxView::Int(k)]))
            == Ok::<AssertionView, ParseErrorView>(AssertionView::MinResourcesOfKind(underscored(t), k as nat)),
        assertion_of(SxView::List(seq![SxView::Sym("min-resources"@), SxView::Sym(t), SxView::Int(k)]))
            == Ok::<AssertionView, ParseErrorView>(AssertionView::MinResourcesOfKind(underscored(t), k as nat)),
        assertion_of(
            SxView::List(
                seq![SxView::Sym("ref-targets"@), SxView::Sym(t), SxView::Str(n), SxView::Kw(key), SxView::Sym(tt), SxView::Str(tn)],
            ),
        ) == Ok::<AssertionView, ParseErrorView>(
            AssertionView::RefTargets(underscored(t), n, key, underscored(tt), tn),
        ),
        assertion_of(
            SxView::List(seq![SxView::Sym("regex-matches"@), SxView::Sym(t), SxView::Str(n), SxView::Kw(key), SxView::Str(v)]),
        ) == Ok::<AssertionView, ParseErrorView>(AssertionView::RegexMatches(underscored(t), n, underscored(key), v)),
{
    reveal_strlit("resource-exists");
    reveal_strlit("no-resource");
    reveal_strlit("attribute-equals");
    reveal_strlit("resource-count");
    reveal_strlit("output-equals");
    reveal_strlit("ref-valid");
    reveal_strlit("tag-equals");
    reveal_strlit("min-resources-of-kind");
    reveal_strlit("min-resources");
    reveal_strlit("regex-matches");
    reveal_strlit("ref-targets");
    assert("resource-exists"@.len() == 15 && "no-resource"@.len() == 11 && "attribute-equals"@.len() == 16);
    assert("resource-count"@.len() == 14 && "output-equals"@.len() == 13 && "ref-valid"@.len() == 9);
    assert("tag-equals"@.len() == 10 && "min-resources-of-kind"@.len() == 21 && "min-resources"@.len() == 13);
    assert("regex-matches"@.len() == 13 && "ref-targets"@.len() == 11);
    assert("tag-equals"@ != "resource-exists"@ && "tag-equals"@ != "no-resource"@ && "tag-equals"@ != "attribute-equals"@
        && "tag-equals"@ != "resource-count"@ && "tag-equals"@ != "output-equals"@ && "tag-equals"@ != "ref-valid"@);
    assert("min-resources-of-kind"@ != "resource-exists"@ && "min-resources-of-kind"@ != "no-resource"@
        && "min-resources-of-kind"@ != "attribute-equals"@ && "min-resources-of-kind"@ != "resource-count"@
        && "min-resources-of-kind"@ != "output-equals"@ && "min-resources-of-kind"@ != "ref-valid"@
        && "min-resources-of-kind"@ != "tag-equals"@);
    assert("min-resources"@[0] != "output-equals"@[0]);
    assert("min-resources"@ != "resource-exists"@ && "min-resources"@ != "no-resource"@
        && "min-resources"@ != "attribute-equals"@ && "min-resources"@ != "resource-count"@
        && "min-resources"@ != "output-equals"@ && "min-resources"@ != "ref-valid"@ && "min-resources"@ != "tag-equals"@
        && "min-resources"@ != "min-resources-of-kind"@);
    assert("regex-matches"@[0] != "output-equals"@[0] && "regex-matches"@[0] != "min-resources"@[0]);
    assert("regex-matches"@ != "resource-exists"@ && "regex-matches"@ != "no-resource"@
        && "regex-matches"@ != "attribute-equals"@ && "regex-matches"@ != "resource-count"@
        && "regex-matches"@ != "output-equals"@ && "regex-matches"@ != "ref-valid"@ && "regex-matches"@ != "tag-equals"@
        && "regex-matches"@ != "min-resources-of-kind"@ && "regex-matches"@ != "min-resources"@);
    assert("ref-targets"@[4] != "no-resource"@[4]);
    assert("ref-targets"@ != "resource-exists"@ && "ref-targets"@ != "no-resource"@
        && "ref-targets"@ != "attribute-equals"@ && "ref-targets"@ != "resource-count"@
        && "ref-targets"@ != "output-equals"@ && "ref-targets"@ != "ref-valid"@ && "ref-targets"@ != "tag-equals"@
        && "ref-targets"@ != "min-resources-of-kind"@ && "ref-targets"@ != "min-resources"@
        && "ref-targets"@ != "regex-matches"@);
}

/// The type id (dashes made underscores) and name of `(<kind> <type-id> "<name>")`.
pub fn pair_id_name(xs: &[Sx], kind: &str) -> (r: Result<(String, String), TestParseError>)
    ensures
        match r {
            Ok(p) => id_name(sx_views(xs@), kind@) == Ok::<(Seq<char>, Seq<char>), ParseErrorView>((p.0@, p.1@)),
            Err(e) => id_name(sx_views(xs@), kind@) == Err::<(Seq<char>, Seq<char>), ParseErrorView>(e@),
        },
{
    let t = match sym_at(xs, 1) {
        Some(t) => t,
        None => {
            return Err(insufficient(kind, "need type-id at position 1"));
        },
    };
    let n = match str_at(xs, 2) {
        Some(n) => n,
        None => {
            return Err(insufficient(kind, "need \"name\" at position 2"));
        },
    };
    Ok((sym_to_type_id(t.as_str()), n.clone()))
}

fn attribute_equals_exec(xs: &[Sx]) -> (r: Result<BuiltinAssertion, TestParseError>)
    ensures
        match r {
            Ok(a) => attribute_equals_of(sx_views(xs@)) == Ok::<AssertionView, ParseErrorView>(a@),
            Err(e) => attribute_equals_of(sx_views(xs@)) == Err::<AssertionView, ParseErrorView>(e@),
        },
{
    proof { lemma_sx_views(xs@); }
    let k = "attribute-equals";
    let t = match sym_at(xs, 1) {
        Some(t) => t,
        None => {
            return Err(insufficient(k, "need type-id at position 1"));
        },
    };
    let n = match str_at(xs, 2) {
        Some(n) => n,
        None => {
            return Err(insufficient(k, "need \"name\" at position 2"));
        },
    };
    let a = match kw_at(xs, 3) {
        Some(a) => a,
        None => {
            return Err(insufficient(k, "need :attr at position 3"));
        },
    };
    if xs.len() <= 4 {
        return Err(insufficient(k, "need value at position 4"));
    }
    let v = sx_to_json(&xs[4]);
    let tid = sym_to_type_id(t.as_str());
    let attr = underscore_dashes(a.as_str());
    Ok(BuiltinAssertion::AttributeEquals(AttributeEquals::new(tid.as_str(), n.as_str(), attr.as_str(), v)))
}

fn resource_count_exec(xs: &[Sx]) -> (r: Result<BuiltinAssertion, TestParseError>)
    ensures
        match r {
            Ok(a) => resource_count_of(sx_views(xs@)) == Ok::<AssertionView, ParseErrorView>(a@),
            Err(e) => resource_count_of(sx_views(xs@)) == Err::<AssertionView, ParseErrorView>(e@),
        },
{
    let k = "resource-count";
    let t = match sym_at(xs, 1) {
        Some(t) => t,
        None => {
            return Err(insufficient(k, "need type-id at position 1"));
        },
    };
    let c = match int_at(xs, 2) {
        Some(c) => c,
        None => {
            return Err(insufficient(k, "need integer at position 2"));
        },
    };
    if c < 0 || (c as u64) > (usize::MAX as u64) {
        return Err(insufficient(k, "count must be non-negative"));
    }
    let tid = sym_to_type_id(t.as_str());
    Ok(BuiltinAssertion::ResourceCount(ResourceCount::new(tid.as_str(), c as usize)))
}

fn output_equals_exec(xs: &[Sx]) -> (r: Result<BuiltinAssertion, TestParseError>)
    ensures
        match r {
            Ok(a) => output_equals_of(sx_views(xs@)) == Ok::<AssertionView, ParseErrorView>(a@),
            Err(e) => output_equals_of(sx_views(xs@)) == Err::<AssertionView, ParseErrorView>(e@),
        },
{
    proof { lemma_sx_views(xs@); }
    let k = "output-equals";
    let n = match str_at(xs, 1) {
        Some(n) => n,
        None => {
            return Err(insufficient(k, "need \"name\" at position 1"));
        },
    };
    if xs.len() <= 2 {
        return Err(insufficient(k, "need value at position 2"));
    }
    let v = sx_to_json(&xs[2]);
    Ok(BuiltinAssertion::OutputEquals(OutputEquals::new(n.as_str(), v)))
}

fn tag_equals_exec(xs: &[Sx]) -> (r: Result<BuiltinAssertion, TestParseError>)
    ensures
        match r {
            Ok(a) => tag_equals_of(sx_views(xs@)) == Ok::<AssertionView, ParseErrorView>(a@),
            Err(e) => tag_equals_of(sx_views(xs@)) == Err::<AssertionView, ParseErrorView>(e@),
        },
{
    let k = "tag-equals";
    let t = match sym_at(xs, 1) {
        Some(t) => t,
        None => {
            return Err(insufficient(k, "need type-id"));
        },
    };
    let n = match str_at(xs, 2) {
        Some(n) => n,
        None => {
            return Err(insufficient(k, "need \"name\""));
        },
    };
    let key = match kw_at(xs, 3) {
        Some(key) => key,
        None => {
            return Err(insufficient(k, "need :key"));
        },
    };
    let v = match str_at(xs, 4) {
        Some(v) => v,
        None => {
            return Err(insufficient(k, "need \"value\""));
        },
    };
    let tid = sym_to_type_id(t.as_str());
    Ok(BuiltinAssertion::TagEquals(TagEquals::new(tid.as_str(), n.as_str(), key.as_str(), v.as_str())))
}

fn min_resources_exec(xs: &[Sx]) -> (r: Result<BuiltinAssertion, TestParseError>)
    ensures
        match r {
            Ok(a) => min_resources_of(sx_views(xs@)) == Ok::<AssertionView, ParseErrorView>(a@),
            Err(e) => min_resources_of(sx_views(xs@)) == Err::<AssertionView, ParseErrorView>(e@),
        },
{
    let k = "min-resources-of-kind";
    let t = match sym_at(xs, 1) {
        Some(t) => t,
        None => {
            return Err(insufficient(k, "need type-id"));
        },
    };
    let c = match int_at(xs, 2) {
        Some(c) => c,
        None => {
            return Err(insufficient(k, "need integer"));
        },
    };
    if c < 0 || (c as u64) > (usize::MAX as u64) {
        return Err(insufficient(k, "non-negative integer"));
    }
    let tid = sym_to_type_id(t.as_str());
    Ok(BuiltinAssertion::MinResourcesOfKind(MinResourcesOfKind::new(tid.as_str(), c as usize)))
}

fn regex_matches_exec(xs: &[Sx]) -> (r: Result<BuiltinAssertion, TestParseError>)
    ensures
        match r {
            Ok(a) => regex_matches_of(sx_views(xs@)) == Ok::<AssertionView, ParseErrorView>(a@),
            Err(e) => regex_matches_of(sx_views(xs@)) == Err::<AssertionView, ParseErrorView>(e@),
        },
{
    let k = "regex-matches";
    let t = match sym_at(xs, 1) {
        Some(t) => t,
        None => {
            return Err(insufficient(k, "need type-id at 1"));
        },
    };
    let n = match str_at(xs, 2) {
        Some(n) => n,
        None => {
            return Err(insufficient(k, "need \"name\" at 2"));
        },
    };
    let a = match kw_at(xs, 3) {
        Some(a) => a,
        None => {
            return Err(insufficient(k, "need :attr at 3"));
        },
    };
    let pat = match str_at(xs, 4) {
        Some(p) => p,
        None => {
            return Err(insufficient(k, "need \"pattern\" at 4"));
        },
    };
    let tid = sym_to_type_id(t.as_str());
    let attr = underscore_dashes(a.as_str());
    Ok(BuiltinAssertion::RegexMatches(RegexMatches::new(tid.as_str(), n.as_str(), attr.as_str(), pat.as_str())))
}

fn ref_targets_exec(xs: &[Sx]) -> (r: Result<BuiltinAssertion, TestParseError>)
    ensures
        match r {
            Ok(a) => ref_targets_of(sx_views(xs@)) == Ok::<AssertionView, ParseErrorView>(a@),
            Err(e) => ref_targets_of(sx_views(xs@)) == Err::<AssertionView, ParseErrorView>(e@),
        },
{
    let k = "ref-targets";
    let st = match sym_at(xs, 1) {
        Some(x) => x,
        None => {
            return Err(insufficient(k, "need src-type at 1"));
        },
    };
    let sn = match str_at(xs, 2) {
        Some(x) => x,
        None => {
            return Err(insufficient(k, "need \"src-name\" at 2"));
        },
    };
    let sa = match kw_at(xs, 3) {
        Some(x) => x,
        None => {
            return Err(insufficient(k, "need :src-attr at 3"));
        },
    };
    let tt = match sym_at(xs, 4) {
        Some(x) => x,
        None => {
            return Err(insufficient(k, "need target-type at 4"));
        },
    };
    let tn = match str_at(xs, 5) {
        Some(x) => x,
        None => {
            return Err(insufficient(k, "need \"target-name\" at 5"));
        },
    };
    let st2 = sym_to_type_id(st.as_str());
    let tt2 = sym_to_type_id(tt.as_str());
    Ok(BuiltinAssertion::RefTargets(RefTargets::new(st2.as_str(), sn.as_str(), sa.as_str(), tt2.as_str(), tn.as_str())))
}

/// The error for an assertion that is not a list, given the form's text.
pub fn not_a_list(text: &str) -> (e: TestParseError)
    ensures
        e@ == ParseErrorView::BadAssertion("not a list: "@ + text@),
{
    let mut m = String::from_str("not a list: ");
    m.append(text);
    TestParseError::BadAssertion(m)
}

/// Builds the assertion an assertion form denotes, as [`assertion_of`] states.
pub fn parse_assertion(form: &Sx) -> (r: Result<BuiltinAssertion, TestParseError>)
    ensures
        match r {
            Ok(a) => assertion_of(form@) == Ok::<AssertionView, ParseErrorView>(a@),
            Err(e) => assertion_of(form@) == Err::<AssertionView, ParseErrorView>(e@),
        },
{
    let xs = match form.as_list() {
        Some(xs) => xs,
        None => {
            let d = form_text_of(form);
            return Err(not_a_list(d.as_str()));
        },
    };
    let xs = xs.as_slice();
    let head = match sym_at(xs, 0) {
        Some(h) => h,
        None => {
            return Err(TestParseError::BadAssertion(String::from_str("head not sym")));
        },
    };
    if text_is(head, "resource-exists") {
        match pair_id_name(xs, "resource-exists") {
            Ok(p) => Ok(BuiltinAssertion::ResourceExists(ResourceExists::new(p.0.as_str(), p.1.as_str()))),
            Err(e) => Err(e),
        }
    } else if text_is(head, "no-resource") {
        match pair_id_name(xs, "no-resource") {
            Ok(p) => Ok(BuiltinAssertion::NoResource(NoResource::new(p.0.as_str(), p.1.as_str()))),
            Err(e) => Err(e),
        }
    } else if text_is(head, "attribute-equals") {
        attribute_equals_exec(xs)
    } else if text_is(head, "resource-count") {
        resource_count_exec(xs)
    } else if text_is(head, "output-equals") {
        output_equals_exec(xs)
    } else if text_is(head, "ref-valid") {
        Ok(BuiltinAssertion::RefValid(RefValid))
    } else if text_is(head, "tag-equals") {
        tag_equals_exec(xs)
    } else if text_is(head, "min-resources-of-kind") || text_is(head, "min-resources") {
        min_resources_exec(xs)
    } else if text_is(head, "regex-matches") {
        regex_matches_exec(xs)
    } else if text_is(head, "ref-targets") {
        ref_targets_exec(xs)
    } else {
        Err(TestParseError::UnknownAssertion(head.clone()))
    }
}


// ---------------------------------------------------------------------------
// Test forms
// ---------------------------------------------------------------------------

/// What the keyword clauses of a test form have given so far.
#[verifier::ext_equal]
pub struct ClauseAcc {
    pub architecture: Option<Seq<char>>,
    pub bindings: Seq<(Seq<char>, Seq<char>)>,
    pub assertions: Seq<AssertionView>,
}

/// The value of a test case built from source.
#[verifier::ext_equal]
pub struct CaseView {
    pub name: Seq<char>,
    pub architecture: Option<Seq<char>>,
    pub bindings: Seq<(Seq<char>, Seq<char>)>,
    pub assertions: Seq<AssertionView>,
}

pub open spec fn assertion_views(v: Seq<BuiltinAssertion>) -> Seq<AssertionView> {
    v.map_values(|a: BuiltinAssertion| a@)
}

pub open spec fn case_view(c: TestCase<BuiltinAssertion>) -> CaseView {
    CaseView {
        name: c.name@,
        architecture: opt_str_view(c.architecture),
        bindings: binding_entries(c.bindings),
        assertions: assertion_views(c.assertions@),
    }
}

/// A symbol's or a string's text.
pub open spec fn name_like(x: SxView) -> Option<Seq<char>> {
    match sym_of(x) {
        Some(s) => Some(s),
        None => str_of(x),
    }
}

/// Inserts each `:key "value"` pair of `ps`, from position `j` on, two at a
/// time; a pair of another shape is skipped.
pub open spec fn bind_pairs(ps: Seq<SxView>, j: int, e: Seq<(Seq<char>, Seq<char>)>) -> Seq<(Seq<char>, Seq<char>)>
    decreases ps.len() - j,
{
    if 0 <= j && j + 1 < ps.len() {
        let e2 = match (kw_of(ps[j]), str_of(ps[j + 1])) {
            (Some(k), Some(v)) => insert_entry(e, k, v),
            _ => e,
        };
        bind_pairs(ps, j + 2, e2)
    } else {
        e
    }
}

/// The assertions of an `:assertions` list, or the first error among them.
pub open spec fn assertions_of(l: Seq<SxView>) -> Result<Seq<AssertionView>, ParseErrorView>
    decreases l.len(),
{
    if l.len() == 0 {
        Ok(Seq::<AssertionView>::empty())
    } else {
        match assertions_of(l.drop_last()) {
            Err(e) => Err(e),
            Ok(v) => match assertion_of(l.last()) {
                Ok(a) => Ok(v.push(a)),
                Err(e) => Err(e),
            },
        }
    }
}

/// One keyword clause `xs[i] xs[i+1]` applied to what came before.
pub open spec fn apply_clause(xs: Seq<SxView>, i: int, acc: ClauseAcc) -> Result<ClauseAcc, ParseErrorView> {
    let val = xs[i + 1];
    match kw_of(xs[i]) {
        Some(k) => if k == "architecture"@ {
            Ok(ClauseAcc { architecture: name_like(val), ..acc })
        } else if k == "bindings"@ {
            match list_of(val) {
                Some(ps) => Ok(ClauseAcc { bindings: bind_pairs(ps, 0, acc.bindings), ..acc }),
                None => Ok(acc),
            }
        } else if k == "assertions"@ {
            match list_of(val) {
                None => Err(ParseErrorView::MissingClause("assertions"@)),
                Some(l) => match assertions_of(l) {
                    Ok(v) => Ok(ClauseAcc { assertions: acc.assertions + v, ..acc }),
                    Err(e) => Err(e),
                },
            }
        } else {
            Ok(acc)
        },
        None => Ok(acc),
    }
}

/// The keyword clauses from position `i` on, two at a time.
pub open spec fn read_clauses(xs: Seq<SxView>, i: int, acc: ClauseAcc) -> Result<ClauseAcc, ParseErrorView>
    decreases xs.len() - i,
{
    if 0 <= i && i + 1 < xs.len() {
        match apply_clause(xs, i, acc) {
            Ok(a) => read_clauses(xs, i + 2, a),
            Err(e) => Err(e),
        }
    } else {
        Ok(acc)
    }
}

pub open spec fn empty_acc() -> ClauseAcc {
    ClauseAcc {
        architecture: None,
        bindings: Seq::<(Seq<char>, Seq<char>)>::empty(),
        assertions: Seq::<AssertionView>::empty(),
    }
}

/// The test case a `(deflava-test <name> :key value …)` form denotes.
pub open spec fn test_case_of(xs: Seq<SxView>) -> Result<CaseView, ParseErrorView> {
    let name = match sym_arg(xs, 1) {
        Some(s) => Some(s),
        None => str_arg(xs, 1),
    };
    match name {
        None => Err(ParseErrorView::NotTestForm),
        Some(n) => {
            match read_clauses(xs, 2, empty_acc()) {
                Ok(a) => Ok(CaseView {
                    name: n,
                    architecture: a.architecture,
                    bindings: a.bindings,
                    assertions: a.assertions,
                }),
                Err(e) => Err(e),
            }
        },
    }
}

proof fn lemma_assertions_err(l: Seq<SxView>, k: int)
    requires
        0 <= k <= l.len(),
        assertions_of(l.take(k)) is Err,
    ensures
        assertions_of(l) == assertions_of(l.take(k)),
    decreases l.len(),
{
    if k < l.len() {
        assert(l.drop_last().take(k) =~= l.take(k));
        lemma_assertions_err(l.drop_last(), k);
    } else {
        assert(l.take(k) =~= l);
    }
}

pub(crate) fn bind_pairs_exec(ps: &Vec<Sx>, bindings: &mut IndexMap<String, String>)
    ensures
        binding_entries(*final(bindings)) == bind_pairs(sx_views(ps@), 0, binding_entries(*old(bindings))),
{
    let ghost pv = sx_views(ps@);
    proof { lemma_sx_views(ps@); }
    let mut j: usize = 0;
    while j < ps.len() && ps.len() - j > 1
        invariant
            pv == sx_views(ps@),
            pv.len() == ps@.len(),
            forall|q: int| 0 <= q < ps@.len() ==> #[trigger] pv[q] == sx_view(ps@[q]),
            bind_pairs(pv, 0, binding_entries(*old(bindings))) == bind_pairs(pv, j as int, binding_entries(*bindings)),
        decreases ps.len() - j,
    {
        let k = ps[j].as_kw();
        let v = ps[j + 1].as_str();
        assert(pv[j as int] == sx_view(ps@[j as int]));
        assert(pv[j + 1] == sx_view(ps@[j + 1]));
        match (k, v) {
            (Some(k), Some(v)) => {
                bindings_insert(bindings, k.clone(), v.clone());
            },
            _ => {},
        }
        j = j + 2;
    }
}

/// Converts one `(deflava-test …)` form into a typed test case, as
/// [`test_case_of`] states.
pub fn test_from_form(xs: &[Sx]) -> (r: Result<TestCase<BuiltinAssertion>, TestParseError>)
    ensures
        match r {
            Ok(c) => test_case_of(sx_views(xs@)) == Ok::<CaseView, ParseErrorView>(case_view(c)),
            Err(e) => test_case_of(sx_views(xs@)) == Err::<CaseView, ParseErrorView>(e@),
        },
{
    let ghost xv = sx_views(xs@);
    proof { lemma_sx_views(xs@); }
    let name = match sym_at(xs, 1) {
        Some(s) => s.clone(),
        None => match str_at(xs, 1) {
            Some(s) => s.clone(),
            None => {
                return Err(TestParseError::NotTestForm);
            },
        },
    };
    let mut architecture: Option<String> = None;
    let mut bindings = bindings_new();
    let mut assertions: Vec<BuiltinAssertion> = Vec::new();
    assert(assertion_views(assertions@) =~= Seq::<AssertionView>::empty());
    let mut i: usize = 2;
    while i < xs.len() && xs.len() - i > 1
        invariant
            2 <= i,
            xv == sx_views(xs@),
            (match sym_arg(xv, 1) { Some(s) => Some(s), None => str_arg(xv, 1) }) == Some(name@),
            xv.len() == xs@.len(),
            forall|q: int| 0 <= q < xs@.len() ==> #[trigger] xv[q] == sx_view(xs@[q]),
            read_clauses(xv, 2, empty_acc()) == read_clauses(xv, i as int, ClauseAcc {
                architecture: opt_str_view(architecture),
                bindings: binding_entries(bindings),
                assertions: assertion_views(assertions@),
            }),
        decreases xs.len() - i,
    {
        let ghost acc = ClauseAcc {
            architecture: opt_str_view(architecture),
            bindings: binding_entries(bindings),
            assertions: assertion_views(assertions@),
        };
        let val = &xs[i + 1];
        assert(xv[i as int] == sx_view(xs@[i as int]));
        assert(xv[i + 1] == sx_view(xs@[i + 1]));
        let key = xs[i].as_kw();
        match key {
            Some(k) => {
                if text_is(k, "architecture") {
                    architecture = match val.as_sym() {
                        Some(s) => Some(s.clone()),
                        None => match val.as_str() {
                            Some(s) => Some(s.clone()),
                            None => None,
                        },
                    };
                } else if text_is(k, "bindings") {
                    match val.as_list() {
                        Some(ps) => {
                            bind_pairs_exec(ps, &mut bindings);
                        },
                        None => {},
                    }
                } else if text_is(k, "assertions") {
                    let list = match val.as_list() {
                        Some(l) => l,
                        None => {
                            assert(apply_clause(xv, i as int, acc) == Err::<ClauseAcc, ParseErrorView>(
                                ParseErrorView::MissingClause("assertions"@)));
                            assert(read_clauses(xv, i as int, acc) == Err::<ClauseAcc, ParseErrorView>(
                                ParseErrorView::MissingClause("assertions"@)));
                            assert(read_clauses(xv, 2, empty_acc()) == Err::<ClauseAcc, ParseErrorView>(
                                ParseErrorView::MissingClause("assertions"@)));
                            assert(test_case_of(xv) == Err::<CaseView, ParseErrorView>(
                                ParseErrorView::MissingClause("assertions"@)));
                            return Err(TestParseError::MissingClause("assertions"));
                        },
                    };
                    let ghost lv = sx_views(list@);
                    let ghost base = assertion_views(assertions@);
                    proof { lemma_sx_views(list@); }
                    assert(lv.take(0) =~= Seq::<SxView>::empty());
                    assert(base + Seq::<AssertionView>::empty() =~= base);
                    for q in 0..list.len()
                        invariant
                            lv == sx_views(list@),
                            lv.len() == list@.len(),
                            forall|w: int| 0 <= w < list@.len() ==> #[trigger] lv[w] == sx_view(list@[w]),
                            assertions_of(lv.take(q as int)) is Ok,
                            xv == sx_views(xs@),
                            2 <= i && i + 1 < xv.len(),
                            kw_of(xv[i as int]) == Some("assertions"@),
                            kw_of(xv[i as int]) != Some("architecture"@),
                            kw_of(xv[i as int]) != Some("bindings"@),
                            list_of(xv[i + 1]) == Some(lv),
                            acc.assertions == base,
                            (match sym_arg(xv, 1) { Some(s) => Some(s), None => str_arg(xv, 1) }) == Some(name@),
                            read_clauses(xv, 2, empty_acc()) == read_clauses(xv, i as int, acc),
                            assertion_views(assertions@) == base + assertions_of(lv.take(q as int))->Ok_0,
                    {
                        assert(lv.take(q + 1).drop_last() =~= lv.take(q as int));
                        assert(lv.take(q + 1).last() == sx_view(list@[q as int]));
                        match parse_assertion(&list[q]) {
                            Ok(a) => {
                                let ghost before = assertions@;
                                assertions.push(a);
                                assert(assertion_views(assertions@) =~= assertion_views(before).push(a@));
                                assert(assertion_views(assertions@) =~= base + assertions_of(lv.take(q + 1))->Ok_0);
                            },
                            Err(e) => {
                                proof {
                                    lemma_assertions_err(lv, q + 1);
                                }
                                assert(assertions_of(lv) == Err::<Seq<AssertionView>, ParseErrorView>(e@));
                                assert(apply_clause(xv, i as int, acc) == Err::<ClauseAcc, ParseErrorView>(e@));
                                return Err(e);
                            },
                        }
                    }
                    assert(lv.take(list.len() as int) =~= lv);
                } else {
                }
            },
            None => {},
        }
        assert(apply_clause(xv, i as int, acc) == Ok::<ClauseAcc, ParseErrorView>(ClauseAcc {
            architecture: opt_str_view(architecture),
            bindings: binding_entries(bindings),
            assertions: assertion_views(assertions@),
        }));
        i = i + 2;
    }
    Ok(TestCase { name, architecture, bindings, assertions })
}

/// A list form whose head is the symbol `head`: its items.
pub open spec fn headed(x: SxView, head: Seq<char>) -> Option<Seq<SxView>> {
    match list_of(x) {
        Some(xs) => if sym_arg(xs, 0) == Some(head) {
            Some(xs)
        } else {
            None
        },
        None => None,
    }
}

/// The test cases of the `(deflava-test …)` forms among `forms`, in order;
/// other forms are skipped.
pub open spec fn tests_of(forms: Seq<SxView>) -> Result<Seq<CaseView>, ParseErrorView>
    decreases forms.len(),
{
    if forms.len() == 0 {
        Ok(Seq::<CaseView>::empty())
    } else {
        match tests_of(forms.drop_last()) {
            Err(e) => Err(e),
            Ok(cs) => match headed(forms.last(), "deflava-test"@) {
                None => Ok(cs),
                Some(xs) => match test_case_of(xs) {
                    Ok(c) => Ok(cs.push(c)),
                    Err(e) => Err(e),
                },
            },
        }
    }
}

/// The test cases a source text declares, or the first error.
pub open spec fn tests_in(src: Seq<char>) -> Result<Seq<CaseView>, ParseErrorView> {
    match read_all(src) {
        Err(e) => Err(ParseErrorView::Parse(e)),
        Ok(forms) => tests_of(forms),
    }
}

/// How many of `forms` are `(deflava-test …)` forms.
pub open spec fn test_form_count(forms: Seq<SxView>) -> nat
    decreases forms.len(),
{
    if forms.len() == 0 {
        0
    } else {
        test_form_count(forms.drop_last()) + if headed(forms.last(), "deflava-test"@) is Some { 1nat } else { 0nat }
    }
}

/// Reading test forms gives one case per `(deflava-test …)` form, and none
/// for any other form.
pub proof fn law_one_case_per_test_form(forms: Seq<SxView>)
    ensures
        tests_of(forms) is Ok ==> tests_of(forms)->Ok_0.len() == test_form_count(forms),
    decreases forms.len(),
{
    if forms.len() > 0 {
        law_one_case_per_test_form(forms.drop_last());
    }
}

/// A test form with a name, an `:architecture`, one `:bindings` pair and an
/// `:assertions` list reads as the case of that name and architecture, with
/// that one binding and the assertions the list denotes.
pub proof fn law_test_form_reads_its_clauses(name: Seq<char>, a: Seq<char>, k: Seq<char>, v: Seq<char>, l: Seq<SxView>)
    ensures
        test_case_of(
            seq![
                SxView::Sym("deflava-test"@),
                SxView::Sym(name),
                SxView::Kw("architecture"@),
                SxView::Sym(a),
                SxView::Kw("bindings"@),
                SxView::List(seq![SxView::Kw(k), SxView::Str(v)]),
                SxView::Kw("assertions"@),
                SxView::List(l),
            ],
        ) == match assertions_of(l) {
            Ok(xs) => Ok::<CaseView, ParseErrorView>(
                CaseView { name: name, architecture: Some(a), bindings: seq![(k, v)], assertions: xs },
            ),
            Err(e) => Err::<CaseView, ParseErrorView>(e),
        },
{
    reveal_strlit("architecture");
    reveal_strlit("bindings");
    reveal_strlit("assertions");
    assert("bindings"@.len() == 8 && "architecture"@.len() == 12 && "assertions"@.len() == 10);
    assert("bindings"@ != "architecture"@);
    assert("assertions"@ != "architecture"@);
    assert("assertions"@ != "bindings"@);
    let f = seq![
        SxView::Sym("deflava-test"@),
        SxView::Sym(name),
        SxView::Kw("architecture"@),
        SxView::Sym(a),
        SxView::Kw("bindings"@),
        SxView::List(seq![SxView::Kw(k), SxView::Str(v)]),
        SxView::Kw("assertions"@),
        SxView::List(l),
    ];
    let ps = seq![SxView::Kw(k), SxView::Str(v)];
    let e = Seq::<(Seq<char>, Seq<char>)>::empty();
    assert(entry_index(e, k) == -1);
    assert(insert_entry(e, k, v) =~= seq![(k, v)]);
    assert(bind_pairs(ps, 2, seq![(k, v)]) == seq![(k, v)]);
    assert(bind_pairs(ps, 0, e) == seq![(k, v)]);
    let acc1 = ClauseAcc { architecture: Some(a), ..empty_acc() };
    assert(apply_clause(f, 2, empty_acc()) == Ok::<ClauseAcc, ParseErrorView>(acc1));
    let acc2 = ClauseAcc { bindings: seq![(k, v)], ..acc1 };
    assert(apply_clause(f, 4, acc1) == Ok::<ClauseAcc, ParseErrorView>(acc2));
    assert(read_clauses(f, 2, empty_acc()) == read_clauses(f, 4, acc1));
    assert(read_clauses(f, 4, acc1) == read_clauses(f, 6, acc2));
    match assertions_of(l) {
        Ok(xs) => {
            let acc3 = ClauseAcc { assertions: acc2.assertions + xs, ..acc2 };
            assert(acc2.assertions + xs =~= xs);
            assert(apply_clause(f, 6, acc2) == Ok::<ClauseAcc, ParseErrorView>(acc3));
            assert(read_clauses(f, 8, acc3) == Ok::<ClauseAcc, ParseErrorView>(acc3));
            assert(read_clauses(f, 6, acc2) == Ok::<ClauseAcc, ParseErrorView>(acc3));
        },
        Err(err) => {
            assert(apply_clause(f, 6, acc2) == Err::<ClauseAcc, ParseErrorView>(err));
            assert(read_clauses(f, 6, acc2) == Err::<ClauseAcc, ParseErrorView>(err));
        },
    }
}

/// In a bindings list, a later pair for a key already bound replaces its
/// value and keeps its place; pairs of another shape are skipped.
pub proof fn law_later_binding_replaces_in_place(k: Seq<char>, k2: Seq<char>, v1: Seq<char>, w: Seq<char>, v2: Seq<char>)
    requires
        k != k2,
    ensures
        bind_pairs(
            seq![
                SxView::Kw(k),
                SxView::Str(v1),
                SxView::Kw(k2),
                SxView::Str(w),
                SxView::Str(k),
                SxView::Str(v1),
                SxView::Kw(k),
                SxView::Str(v2),
            ],
            0,
            Seq::<(Seq<char>, Seq<char>)>::empty(),
        ) == seq![(k, v2), (k2, w)],
{
    let ps = seq![
        SxView::Kw(k),
        SxView::Str(v1),
        SxView::Kw(k2),
        SxView::Str(w),
        SxView::Str(k),
        SxView::Str(v1),
        SxView::Kw(k),
        SxView::Str(v2),
    ];
    let e0 = Seq::<(Seq<char>, Seq<char>)>::empty();
    let e1 = seq![(k, v1)];
    let e2 = seq![(k, v1), (k2, w)];
    let e3 = seq![(k, v2), (k2, w)];
    assert(entry_index(e0, k) == -1);
    assert(insert_entry(e0, k, v1) =~= e1);
    assert(!(exists|i: int| 0 <= i < e1.len() && (#[trigger] e1[i]).0 == k2)) by {
        assert forall|i: int| 0 <= i < e1.len() implies (#[trigger] e1[i]).0 != k2 by {}
    }
    assert(entry_index(e1, k2) == -1);
    assert(insert_entry(e1, k2, w) =~= e2);
    assert(e2[0].0 == k);
    assert(entry_index(e2, k) == 0);
    assert(insert_entry(e2, k, v2) =~= e3);
    assert(bind_pairs(ps, 8, e3) == e3);
    assert(bind_pairs(ps, 6, e2) == e3);
    assert(bind_pairs(ps, 4, e2) == e3);
    assert(bind_pairs(ps, 2, e1) == e3);
}

/// The items of the `(deflava-test …)` forms among `forms`, in order.
pub open spec fn test_forms(forms: Seq<SxView>) -> Seq<Seq<SxView>>
    decreases forms.len(),
{
    if forms.len() == 0 {
        Seq::<Seq<SxView>>::empty()
    } else {
        match headed(forms.last(), "deflava-test"@) {
            Some(xs) => test_forms(forms.drop_last()).push(xs),
            None => test_forms(forms.drop_last()),
        }
    }
}

/// When every test form converts, reading the forms gives, in order, the
/// case of each test form and nothing for any other form.
pub proof fn law_tests_are_the_test_forms_in_order(forms: Seq<SxView>)
    requires
        forall|i: int| 0 <= i < test_forms(forms).len() ==> (#[trigger] test_case_of(test_forms(forms)[i])) is Ok,
    ensures
        tests_of(forms) == Ok::<Seq<CaseView>, ParseErrorView>(
            Seq::new(test_forms(forms).len(), |i: int| test_case_of(test_forms(forms)[i])->Ok_0),
        ),
    decreases forms.len(),
{
    if forms.len() > 0 {
        let p = forms.drop_last();
        let tp = test_forms(p);
        let t = test_forms(forms);
        assert forall|i: int| 0 <= i < tp.len() implies (#[trigger] test_case_of(tp[i])) is Ok by {
            assert(t[i] == tp[i]);
        }
        law_tests_are_the_test_forms_in_order(p);
        let sp = Seq::new(tp.len(), |i: int| test_case_of(tp[i])->Ok_0);
        let st = Seq::new(t.len(), |i: int| test_case_of(t[i])->Ok_0);
        match headed(forms.last(), "deflava-test"@) {
            Some(xs) => {
                assert(t[tp.len() as int] == xs);
                assert(test_case_of(t[tp.len() as int]) is Ok);
                assert(st =~= sp.push(test_case_of(xs)->Ok_0));
            },
            None => {
                assert(st =~= sp);
            },
        }
    } else {
        assert(Seq::new(0, |i: int| test_case_of(test_forms(forms)[i])->Ok_0) =~= Seq::<CaseView>::empty());
    }
}

/// When a test form fails to convert and those before it convert, reading
/// the forms fails with that form's error.
pub proof fn law_tests_stop_at_the_first_failing_form(forms: Seq<SxView>, i: int)
    requires
        0 <= i < test_forms(forms).len(),
        test_case_of(test_forms(forms)[i]) is Err,
        forall|j: int| 0 <= j < i ==> (#[trigger] test_case_of(test_forms(forms)[j])) is Ok,
    ensures
        tests_of(forms) == Err::<Seq<CaseView>, ParseErrorView>(test_case_of(test_forms(forms)[i])->Err_0),
    decreases forms.len(),
{
    let p = forms.drop_last();
    let tp = test_forms(p);
    let t = test_forms(forms);
    if i < tp.len() {
        assert forall|j: int| 0 <= j <= i implies t[j] == tp[j] by {}
        assert forall|j: int| 0 <= j < i implies (#[trigger] test_case_of(tp[j])) is Ok by {
            assert(t[j] == tp[j]);
        }
        law_tests_stop_at_the_first_failing_form(p, i);
    } else {
        assert(headed(forms.last(), "deflava-test"@) is Some);
        assert(tp.len() == i);
        assert forall|j: int| 0 <= j < tp.len() implies (#[trigger] test_case_of(tp[j])) is Ok by {
            assert(t[j] == tp[j]);
        }
        law_tests_are_the_test_forms_in_order(p);
    }
}

pub open spec fn case_views(cs: Seq<TestCase<BuiltinAssertion>>) -> Seq<CaseView> {
    cs.map_values(|c: TestCase<BuiltinAssertion>| case_view(c))
}

proof fn lemma_tests_err(l: Seq<SxView>, k: int)
    requires
        0 <= k <= l.len(),
        tests_of(l.take(k)) is Err,
    ensures
        tests_of(l) == tests_of(l.take(k)),
    decreases l.len(),
{
    if k < l.len() {
        assert(l.drop_last().take(k) =~= l.take(k));
        lemma_tests_err(l.drop_last(), k);
    } else {
        assert(l.take(k) =~= l);
    }
}

/// Every `(deflava-test …)` form of a source text as a typed test case, in
/// order; other forms (`deflava-architecture`, `deflava-interface`, …) are
/// skipped.
pub fn tests_in_source(src: &str) -> (r: Result<Vec<TestCase<BuiltinAssertion>>, TestParseError>)
    ensures
        match r {
            Ok(cs) => tests_in(src@) == Ok::<Seq<CaseView>, ParseErrorView>(case_views(cs@)),
            Err(e) => tests_in(src@) == Err::<Seq<CaseView>, ParseErrorView>(e@),
        },
{
    let forms = match parse_all(src) {
        Ok(f) => f,
        Err(e) => {
            return Err(TestParseError::Parse(e));
        },
    };
    let ghost fv = sx_views(forms@);
    proof { lemma_sx_views(forms@); }
    let mut out: Vec<TestCase<BuiltinAssertion>> = Vec::new();
    assert(fv.take(0) =~= Seq::<SxView>::empty());
    assert(case_views(out@) =~= Seq::<CaseView>::empty());
    for i in 0..forms.len()
        invariant
            fv == sx_views(forms@),
            read_all(src@) == Ok::<Seq<SxView>, ReadError>(fv),
            fv.len() == forms@.len(),
            forall|w: int| 0 <= w < forms@.len() ==> #[trigger] fv[w] == sx_view(forms@[w]),
            tests_of(fv.take(i as int)) == Ok::<Seq<CaseView>, ParseErrorView>(case_views(out@)),
    {
        assert(fv.take(i + 1).drop_last() =~= fv.take(i as int));
        assert(fv.take(i + 1).last() == sx_view(forms@[i as int]));
        match forms[i].as_list() {
            None => {},
            Some(xs) => {
                let xs = xs.as_slice();
                let is_test = match sym_at(xs, 0) {
                    Some(h) => text_is(h, "deflava-test"),
                    None => false,
                };
                if is_test {
                    match test_from_form(xs) {
                        Ok(c) => {
                            let ghost before = out@;
                            out.push(c);
                            assert(case_views(out@) =~= case_views(before).push(case_view(c)));
                        },
                        Err(e) => {
                            proof { lemma_tests_err(fv, i + 1); }
                            assert(fv.take(forms.len() as int) =~= fv);
                            return Err(e);
                        },
                    }
                }
            },
        }
    }
    assert(fv.take(forms.len() as int) =~= fv);
    Ok(out)
}

} // verus!
