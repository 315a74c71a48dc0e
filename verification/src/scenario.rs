//! BDD-style `(deflava-spec …)` forms: each scenario becomes a test case
//! built through the `(deflava-test …)` path.
//!
//! ```lisp
//! (deflava-spec aws-vpc-network
//!   :scenarios (
//!     (:name "default-cidr gives 6 subnets"
//!      :given (:architecture aws-vpc-network)
//!      :when  (:bindings ())
//!      :then  ((resource-count aws-subnet 6)))
//!     (:name "override propagates"
//!      :given (:architecture aws-vpc-network)
//!      :when  (:bindings (:name "preview"))
//!      :then  ((resource-exists aws-vpc "preview-vpc")))))
//! ```
//!
//! A scenario becomes the case `<spec-name>/<scenario-name-as-kebab>`.

use vstd::prelude::*;
use indexmap::IndexMap;
use crate::assertions::BuiltinAssertion;
use crate::bindings::{binding_entries, bindings_get_index, bindings_len, bindings_new, entry_index, insert_entry};
use crate::parser::{
    apply_clause, empty_acc, read_clauses, ClauseAcc, bind_pairs, case_view, case_views, headed, name_like, sym_arg, str_arg, test_case_of, test_from_form,
    text_is, assertions_of, CaseView, ParseErrorView, TestParseError,
};
use crate::assertions::AssertionView;
use crate::runner::TestCase;
use crate::sexpr::{
    lemma_sx_views, list_of, kw_of, str_of, sx_view, sx_views, parse_all, read_all, Atom, ReadError, Sx,
    SxView,
};
use crate::text::{chars_of, push_char, string_of};

verus! {

// ---------------------------------------------------------------------------
// Slugs
// ---------------------------------------------------------------------------

pub open spec fn is_ascii_alnum(c: char) -> bool {
    ('0' <= c && c <= '9') || ('a' <= c && c <= 'z') || ('A' <= c && c <= 'Z')
}

pub open spec fn ascii_lower(c: char) -> char {
    if 'A' <= c && c <= 'Z' {
        ((c as u32) + 32) as char
    } else {
        c
    }
}

/// The slug built so far and whether it ends in a dash just added.
pub open spec fn slug_state(s: Seq<char>) -> (Seq<char>, bool)
    decreases s.len(),
{
    if s.len() == 0 {
        (Seq::<char>::empty(), false)
    } else {
        let (out, prev_dash) = slug_state(s.drop_last());
        let c = s.last();
        if is_ascii_alnum(c) {
            (out.push(ascii_lower(c)), false)
        } else if !prev_dash && out.len() > 0 {
            (out.push('-'), true)
        } else {
            (out, prev_dash)
        }
    }
}

/// `s` without its trailing dashes.
pub open spec fn trim_dashes(s: Seq<char>) -> Seq<char>
    decreases s.len(),
{
    if s.len() > 0 && s.last() == '-' {
        trim_dashes(s.drop_last())
    } else {
        s
    }
}

/// A scenario name in kebab case: ASCII letters and digits kept (letters
/// lower-cased), each run of other characters after the first kept one
/// made a single `-`, and no trailing `-`.
pub open spec fn slug(s: Seq<char>) -> Seq<char> {
    trim_dashes(slug_state(s).0)
}

pub open spec fn is_kebab_char(c: char) -> bool {
    ('0' <= c && c <= '9') || ('a' <= c && c <= 'z') || c == '-'
}

/// Text in kebab case: lower-case ASCII letters, digits and single dashes,
/// with no dash first or last.
pub open spec fn is_kebab(t: Seq<char>) -> bool {
    &&& forall|i: int| 0 <= i < t.len() ==> is_kebab_char(#[trigger] t[i])
    &&& t.len() > 0 ==> t[0] != '-' && t.last() != '-'
    &&& forall|i: int| 0 <= i < t.len() - 1 ==> !(#[trigger] t[i] == '-' && t[i + 1] == '-')
}

proof fn lemma_slug_state(s: Seq<char>)
    ensures
        ({
            let (out, prev) = slug_state(s);
            &&& forall|i: int| 0 <= i < out.len() ==> is_kebab_char(#[trigger] out[i])
            &&& out.len() > 0 ==> out[0] != '-'
            &&& forall|i: int| 0 <= i < out.len() - 1 ==> !(#[trigger] out[i] == '-' && out[i + 1] == '-')
            &&& prev <==> (out.len() > 0 && out.last() == '-')
        }),
    decreases s.len(),
{
    if s.len() > 0 {
        lemma_slug_state(s.drop_last());
        let (out, prev) = slug_state(s.drop_last());
        let c = s.last();
        if is_ascii_alnum(c) {
            let l = ascii_lower(c);
            if 'A' <= c && c <= 'Z' {
                assert((c as u32) + 32 >= 97 && (c as u32) + 32 <= 122);
                assert(('a' <= l && l <= 'z'));
            }
            assert(is_kebab_char(l));
            let o2 = out.push(l);
            assert forall|i: int| 0 <= i < o2.len() implies is_kebab_char(#[trigger] o2[i]) by {
                if i < out.len() {
                    assert(o2[i] == out[i]);
                }
            }
            assert forall|i: int| 0 <= i < o2.len() - 1 implies !(#[trigger] o2[i] == '-' && o2[i + 1] == '-') by {
                if i < out.len() - 1 {
                    assert(o2[i] == out[i] && o2[i + 1] == out[i + 1]);
                }
            }
        } else if !prev && out.len() > 0 {
            let o2 = out.push('-');
            assert forall|i: int| 0 <= i < o2.len() implies is_kebab_char(#[trigger] o2[i]) by {
                if i < out.len() {
                    assert(o2[i] == out[i]);
                }
            }
            assert forall|i: int| 0 <= i < o2.len() - 1 implies !(#[trigger] o2[i] == '-' && o2[i + 1] == '-') by {
                if i < out.len() - 1 {
                    assert(o2[i] == out[i] && o2[i + 1] == out[i + 1]);
                } else {
                    assert(o2[i] == out.last());
                }
            }
        }
    }
}

proof fn lemma_trim_dashes(t: Seq<char>)
    ensures
        trim_dashes(t).len() <= t.len(),
        trim_dashes(t) == t.take(trim_dashes(t).len() as int),
        trim_dashes(t).len() > 0 ==> trim_dashes(t).last() != '-',
    decreases t.len(),
{
    if t.len() > 0 && t.last() == '-' {
        lemma_trim_dashes(t.drop_last());
        let r = trim_dashes(t.drop_last());
        assert(t.drop_last().take(r.len() as int) =~= t.take(r.len() as int));
    } else {
        assert(t.take(t.len() as int) =~= t);
    }
}

/// A slug is kebab case.
pub proof fn law_slug_is_kebab(s: Seq<char>)
    ensures
        is_kebab(slug(s)),
{
    lemma_slug_state(s);
    let out = slug_state(s).0;
    lemma_trim_dashes(out);
    let t = slug(s);
    assert forall|i: int| 0 <= i < t.len() implies is_kebab_char(#[trigger] t[i]) by {
        assert(t[i] == out[i]);
    }
    assert forall|i: int| 0 <= i < t.len() - 1 implies !(#[trigger] t[i] == '-' && t[i + 1] == '-') by {
        assert(t[i] == out[i] && t[i + 1] == out[i + 1]);
    }
    if t.len() > 0 {
        assert(t[0] == out[0]);
    }
}

proof fn lemma_kebab_slug_state(t: Seq<char>, k: int)
    requires
        is_kebab(t),
        0 <= k <= t.len(),
    ensures
        slug_state(t.take(k)) == (t.take(k), k > 0 && t[k - 1] == '-'),
    decreases k,
{
    if k == 0 {
        assert(t.take(0) =~= Seq::<char>::empty());
    } else {
        let s = t.take(k);
        assert(s.drop_last() =~= t.take(k - 1));
        lemma_kebab_slug_state(t, k - 1);
        let c = t[k - 1];
        assert(s.last() == c);
        assert(is_kebab_char(c));
        assert(t.take(k - 1).push(c) =~= s);
        if c == '-' {
            assert(k - 1 > 0);
            assert(!(t[k - 2] == '-' && t[k - 1] == '-'));
        }
    }
}

/// Slugging a slug changes nothing.
pub proof fn law_slug_is_idempotent(s: Seq<char>)
    ensures
        slug(slug(s)) == slug(s),
{
    law_slug_is_kebab(s);
    let t = slug(s);
    lemma_kebab_slug_state(t, t.len() as int);
    assert(t.take(t.len() as int) =~= t);
}

/// A character of a slug word: an ASCII digit or letter.
pub open spec fn is_word_char(c: char) -> bool {
    ('0' <= c && c <= '9') || ('a' <= c && c <= 'z') || ('A' <= c && c <= 'Z')
}

/// The lower-case form of an ASCII letter; any other character unchanged.
pub open spec fn lower_char(c: char) -> char {
    if 'A' <= c && c <= 'Z' {
        ((c as u32) + 32) as char
    } else {
        c
    }
}

/// The ASCII letters and digits of `s`, in order, letters lower-cased.
pub open spec fn word_chars(s: Seq<char>) -> Seq<char>
    decreases s.len(),
{
    if s.len() == 0 {
        Seq::<char>::empty()
    } else if is_word_char(s.last()) {
        word_chars(s.drop_last()).push(lower_char(s.last()))
    } else {
        word_chars(s.drop_last())
    }
}

/// `t` with its dashes taken out.
pub open spec fn without_dashes(t: Seq<char>) -> Seq<char>
    decreases t.len(),
{
    if t.len() == 0 {
        Seq::<char>::empty()
    } else if t.last() == '-' {
        without_dashes(t.drop_last())
    } else {
        without_dashes(t.drop_last()).push(t.last())
    }
}

proof fn lemma_slug_state_words(s: Seq<char>)
    ensures
        without_dashes(slug_state(s).0) == word_chars(s),
    decreases s.len(),
{
    if s.len() > 0 {
        lemma_slug_state_words(s.drop_last());
        let (out, prev) = slug_state(s.drop_last());
        let c = s.last();
        if is_ascii_alnum(c) {
            let l = ascii_lower(c);
            if 'A' <= c && c <= 'Z' {
                assert((c as u32) + 32 >= 97 && (c as u32) + 32 <= 122);
            }
            assert(l != '-');
            assert(out.push(l).drop_last() =~= out);
        } else if !prev && out.len() > 0 {
            assert(out.push('-').drop_last() =~= out);
        }
    }
}

proof fn lemma_trim_keeps_words(t: Seq<char>)
    ensures
        without_dashes(trim_dashes(t)) == without_dashes(t),
    decreases t.len(),
{
    if t.len() > 0 && t.last() == '-' {
        lemma_trim_keeps_words(t.drop_last());
    }
}

/// A slug keeps every ASCII letter and digit of the name, in order, letters
/// lower-cased, and nothing else but dashes.
pub proof fn law_slug_keeps_the_words(s: Seq<char>)
    ensures
        without_dashes(slug(s)) == word_chars(s),
{
    lemma_slug_state_words(s);
    lemma_trim_keeps_words(slug_state(s).0);
}

/// The lower-case form of a run of ASCII letters and digits.
pub open spec fn lower_word(w: Seq<char>) -> Seq<char> {
    w.map_values(|c: char| lower_char(c))
}

proof fn lemma_slug_state_append_word(p: Seq<char>, w: Seq<char>)
    requires
        forall|i: int| 0 <= i < w.len() ==> is_word_char(#[trigger] w[i]),
    ensures
        slug_state(p + w).0 == slug_state(p).0 + lower_word(w),
        w.len() > 0 ==> !slug_state(p + w).1,
        w.len() == 0 ==> slug_state(p + w).1 == slug_state(p).1,
    decreases w.len(),
{
    if w.len() == 0 {
        assert(p + w =~= p);
        assert(lower_word(w) =~= Seq::<char>::empty());
    } else {
        let w0 = w.drop_last();
        lemma_slug_state_append_word(p, w0);
        assert((p + w).drop_last() =~= p + w0);
        assert((p + w).last() == w.last());
        assert(is_word_char(w.last()));
        assert(lower_word(w) =~= lower_word(w0).push(lower_char(w.last())));
    }
}

/// Two runs of letters and digits with one other character between them
/// slug to the two runs, lower-cased, joined by one dash.
pub proof fn law_slug_joins_words_with_a_dash(w1: Seq<char>, c: char, w2: Seq<char>)
    requires
        w1.len() > 0,
        w2.len() > 0,
        forall|i: int| 0 <= i < w1.len() ==> is_word_char(#[trigger] w1[i]),
        forall|i: int| 0 <= i < w2.len() ==> is_word_char(#[trigger] w2[i]),
        !is_word_char(c),
    ensures
        slug(w1 + seq![c] + w2) == lower_word(w1) + seq!['-'] + lower_word(w2),
{
    let e = Seq::<char>::empty();
    lemma_slug_state_append_word(e, w1);
    assert(e + w1 =~= w1);
    let p = w1 + seq![c];
    assert(p.drop_last() =~= w1);
    assert(slug_state(p).0 == lower_word(w1).push('-'));
    lemma_slug_state_append_word(p, w2);
    let out = slug_state(p + w2).0;
    assert(out == lower_word(w1).push('-') + lower_word(w2));
    assert(out.last() == lower_char(w2.last()));
    if 'A' <= w2.last() && w2.last() <= 'Z' {
        assert((w2.last() as u32) + 32 >= 97 && (w2.last() as u32) + 32 <= 122);
    }
    assert(out.last() != '-');
    assert(lower_word(w1).push('-') + lower_word(w2) =~= lower_word(w1) + seq!['-'] + lower_word(w2));
}

/// The kebab-case slug of a scenario name, as [`slug`] states.
pub fn scenario_name_to_slug(name: &str) -> (r: String)
    ensures
        r@ == slug(name@),
{
    let cs = chars_of(name);
    let mut out: Vec<char> = Vec::new();
    let mut prev_dash = false;
    for i in 0..cs.len()
        invariant
            cs@ == name@,
            slug_state(cs@.take(i as int)) == (out@, prev_dash),
    {
        let c = cs[i];
        assert(cs@.take(i + 1).drop_last() =~= cs@.take(i as int));
        if ('0' <= c && c <= '9') || ('a' <= c && c <= 'z') || ('A' <= c && c <= 'Z') {
            let l: char = if 'A' <= c && c <= 'Z' { (((c as u32) + 32) as u8) as char } else { c };
            out.push(l);
            prev_dash = false;
        } else if !prev_dash && out.len() > 0 {
            out.push('-');
            prev_dash = true;
        }
    }
    assert(cs@.take(cs.len() as int) =~= cs@);
    while out.len() > 0 && out[out.len() - 1] == '-'
        invariant
            trim_dashes(slug_state(cs@).0) == trim_dashes(out@),
        decreases out.len(),
    {
        let ghost before = out@;
        out.pop();
        assert(out@ =~= before.drop_last());
    }
    string_of(&out)
}

// ---------------------------------------------------------------------------
// Keyword clauses of a scenario
// ---------------------------------------------------------------------------

/// The value of the last `:key value` clause from position `i` on, taking
/// clauses two at a time.
pub open spec fn last_clause(xs: Seq<SxView>, i: int, key: Seq<char>) -> Option<SxView>
    decreases xs.len() - i,
{
    if 0 <= i && i + 1 < xs.len() {
        match last_clause(xs, i + 2, key) {
            Some(v) => Some(v),
            None => if kw_of(xs[i]) == Some(key) {
                Some(xs[i + 1])
            } else {
                None
            },
        }
    } else {
        None
    }
}

/// The value of the first `:key value` clause from position `i` on.
pub open spec fn first_clause(xs: Seq<SxView>, i: int, key: Seq<char>) -> Option<SxView>
    decreases xs.len() - i,
{
    if 0 <= i && i + 1 < xs.len() {
        if kw_of(xs[i]) == Some(key) {
            Some(xs[i + 1])
        } else {
            first_clause(xs, i + 2, key)
        }
    } else {
        None
    }
}

/// The architecture a `:given` form names: its first `:architecture`
/// clause, when that is a symbol or a string.
pub open spec fn keyword_target(form: SxView) -> Option<Seq<char>> {
    match list_of(form) {
        None => None,
        Some(xs) => match first_clause(xs, 0, "architecture"@) {
            Some(v) => name_like(v),
            None => None,
        },
    }
}

/// The bindings of every `:bindings` clause of a form, from position `i` on.
pub open spec fn bindings_clauses(xs: Seq<SxView>, i: int, e: Seq<(Seq<char>, Seq<char>)>) -> Seq<(Seq<char>, Seq<char>)>
    decreases xs.len() - i,
{
    if 0 <= i && i + 1 < xs.len() {
        let e2 = if kw_of(xs[i]) == Some("bindings"@) {
            match list_of(xs[i + 1]) {
                Some(ps) => bind_pairs(ps, 0, e),
                None => e,
            }
        } else {
            e
        };
        bindings_clauses(xs, i + 2, e2)
    } else {
        e
    }
}

/// The bindings a `:when` form sets.
pub open spec fn form_bindings(form: SxView) -> Seq<(Seq<char>, Seq<char>)> {
    match list_of(form) {
        None => Seq::<(Seq<char>, Seq<char>)>::empty(),
        Some(xs) => bindings_clauses(xs, 0, Seq::<(Seq<char>, Seq<char>)>::empty()),
    }
}

/// `:k "v"` items for each binding, in order.
pub open spec fn entry_pairs(e: Seq<(Seq<char>, Seq<char>)>) -> Seq<SxView>
    decreases e.len(),
{
    if e.len() == 0 {
        Seq::<SxView>::empty()
    } else {
        entry_pairs(e.drop_last()) + seq![SxView::Kw(e.last().0), SxView::Str(e.last().1)]
    }
}

/// The `(deflava-test …)` form a scenario stands for.
pub open spec fn synth_form(
    case_name: Seq<char>,
    architecture: Seq<char>,
    bindings: Seq<(Seq<char>, Seq<char>)>,
    then_list: Seq<SxView>,
) -> Seq<SxView> {
    seq![
        SxView::Sym("deflava-test"@),
        SxView::Str(case_name),
        SxView::Kw("architecture"@),
        SxView::Sym(architecture),
    ] + (if bindings.len() > 0 {
        seq![SxView::Kw("bindings"@), SxView::List(entry_pairs(bindings))]
    } else {
        Seq::<SxView>::empty()
    }) + seq![SxView::Kw("assertions"@), SxView::List(then_list)]
}

/// A scenario's `:name`, or `scenario-<spec name>` when it has none.
pub open spec fn scenario_name_of(spec_name: Seq<char>, xs: Seq<SxView>) -> Seq<char> {
    match last_clause(xs, 0, "name"@) {
        Some(v) => match str_of(v) {
            Some(n) => n,
            None => "scenario-"@ + spec_name,
        },
        None => "scenario-"@ + spec_name,
    }
}

/// The architecture a scenario's `:given` names, or the spec's name.
pub open spec fn scenario_arch_of(spec_name: Seq<char>, xs: Seq<SxView>) -> Seq<char> {
    match last_clause(xs, 0, "given"@) {
        Some(g) => match keyword_target(g) {
            Some(a) => a,
            None => spec_name,
        },
        None => spec_name,
    }
}

/// The bindings a scenario's `:when` sets.
pub open spec fn scenario_bindings_of(xs: Seq<SxView>) -> Seq<(Seq<char>, Seq<char>)> {
    match last_clause(xs, 0, "when"@) {
        Some(w) => form_bindings(w),
        None => Seq::<(Seq<char>, Seq<char>)>::empty(),
    }
}

/// The test case of one scenario of the spec named `spec_name`.
pub open spec fn scenario_case(spec_name: Seq<char>, sc: SxView) -> Result<CaseView, ParseErrorView> {
    match list_of(sc) {
        None => Err(ParseErrorView::BadAssertion("scenario not a list"@)),
        Some(xs) => {
            let sname = scenario_name_of(spec_name, xs);
            let arch = scenario_arch_of(spec_name, xs);
            let binds = scenario_bindings_of(xs);
            match last_clause(xs, 0, "then"@) {
                Some(t) => match list_of(t) {
                    Some(tl) => test_case_of(synth_form(spec_name + "/"@ + slug(sname), arch, binds, tl)),
                    None => Err(ParseErrorView::MissingClause("then"@)),
                },
                None => Err(ParseErrorView::MissingClause("then"@)),
            }
        },
    }
}


// ---------------------------------------------------------------------------
// Building the case of a scenario
// ---------------------------------------------------------------------------

/// Position of the last `:key value` clause (of the value), scanning pairs
/// from position `start`.
fn find_last_clause(xs: &[Sx], start: usize, key: &str) -> (r: Option<usize>)
    ensures
        match r {
            Some(j) => j + 1 < xs@.len() && last_clause(sx_views(xs@), start as int, key@) == Some(
                sx_views(xs@)[j + 1],
            ),
            None => last_clause(sx_views(xs@), start as int, key@) is None,
        },
{
    let ghost xv = sx_views(xs@);
    proof { lemma_sx_views(xs@); }
    let mut found: Option<usize> = None;
    let mut i: usize = start;
    while i < xs.len() && xs.len() - i > 1
        invariant
            start <= i,
            xv == sx_views(xs@),
            xv.len() == xs@.len(),
            forall|q: int| 0 <= q < xs@.len() ==> #[trigger] xv[q] == sx_view(xs@[q]),
            found matches Some(j) ==> j + 1 < xs@.len(),
            last_clause(xv, start as int, key@) == (match last_clause(xv, i as int, key@) {
                Some(v) => Some(v),
                None => match found {
                    Some(j) => Some(xv[j + 1]),
                    None => None,
                },
            }),
        decreases xs.len() - i,
    {
        assert(xv[i as int] == sx_view(xs@[i as int]));
        let hit = match xs[i].as_kw() {
            Some(k) => text_is(k, key),
            None => false,
        };
        if hit {
            found = Some(i);
        }
        i = i + 2;
    }
    found
}

/// Position of the first `:key value` clause (of the value), scanning pairs
/// from position 0.
fn find_first_clause(xs: &[Sx], key: &str) -> (r: Option<usize>)
    ensures
        match r {
            Some(j) => j + 1 < xs@.len() && first_clause(sx_views(xs@), 0, key@) == Some(sx_views(xs@)[j + 1]),
            None => first_clause(sx_views(xs@), 0, key@) is None,
        },
{
    let ghost xv = sx_views(xs@);
    proof { lemma_sx_views(xs@); }
    let mut i: usize = 0;
    while i < xs.len() && xs.len() - i > 1
        invariant
            xv == sx_views(xs@),
            xv.len() == xs@.len(),
            forall|q: int| 0 <= q < xs@.len() ==> #[trigger] xv[q] == sx_view(xs@[q]),
            first_clause(xv, 0, key@) == first_clause(xv, i as int, key@),
        decreases xs.len() - i,
    {
        assert(xv[i as int] == sx_view(xs@[i as int]));
        let hit = match xs[i].as_kw() {
            Some(k) => text_is(k, key),
            None => false,
        };
        if hit {
            return Some(i);
        }
        i = i + 2;
    }
    None
}

/// The architecture a `:given` form names, as [`keyword_target`] states.
fn extract_keyword_target(form: &Sx) -> (r: Option<String>)
    ensures
        match r {
            Some(a) => keyword_target(form@) == Some(a@),
            None => keyword_target(form@) is None,
        },
{
    let xs = match form.as_list() {
        Some(xs) => xs.as_slice(),
        None => {
            return None;
        },
    };
    proof { lemma_sx_views(xs@); }
    match find_first_clause(xs, "architecture") {
        Some(j) => {
            let v = &xs[j + 1];
            match v.as_sym() {
                Some(s) => Some(s.clone()),
                None => match v.as_str() {
                    Some(s) => Some(s.clone()),
                    None => None,
                },
            }
        },
        None => None,
    }
}

/// The bindings a `:when` form sets, as [`form_bindings`] states.
fn extract_bindings(form: &Sx) -> (r: IndexMap<String, String>)
    ensures
        binding_entries(r) == form_bindings(form@),
{
    let mut out = bindings_new();
    let xs = match form.as_list() {
        Some(xs) => xs.as_slice(),
        None => {
            return out;
        },
    };
    let ghost xv = sx_views(xs@);
    proof { lemma_sx_views(xs@); }
    let mut i: usize = 0;
    while i < xs.len() && xs.len() - i > 1
        invariant
            xv == sx_views(xs@),
            xv.len() == xs@.len(),
            forall|q: int| 0 <= q < xs@.len() ==> #[trigger] xv[q] == sx_view(xs@[q]),
            bindings_clauses(xv, 0, Seq::<(Seq<char>, Seq<char>)>::empty()) == bindings_clauses(
                xv,
                i as int,
                binding_entries(out),
            ),
        decreases xs.len() - i,
    {
        assert(xv[i as int] == sx_view(xs@[i as int]));
        assert(xv[i + 1] == sx_view(xs@[i + 1]));
        let hit = match xs[i].as_kw() {
            Some(k) => text_is(k, "bindings"),
            None => false,
        };
        if hit {
            match xs[i + 1].as_list() {
                Some(ps) => {
                    crate::parser::bind_pairs_exec(ps, &mut out);
                },
                None => {},
            }
        }
        i = i + 2;
    }
    out
}

fn push_sx(v: &mut Vec<Sx>, x: Sx)
    ensures
        sx_views(final(v)@) == sx_views(old(v)@).push(x@),
{
    let ghost before = v@;
    v.push(x);
    assert(v@.drop_last() =~= before);
}

/// Builds the case of a scenario through the `(deflava-test …)` path: the
/// form [`synth_form`] describes, read by [`test_from_form`].
fn synth_test_case(
    case_name: &String,
    architecture: &String,
    bindings: &IndexMap<String, String>,
    then_list: &[Sx],
) -> (r: Result<TestCase<BuiltinAssertion>, TestParseError>)
    ensures
        ({
            let f = synth_form(case_name@, architecture@, binding_entries(*bindings), sx_views(then_list@));
            match r {
                Ok(c) => test_case_of(f) == Ok::<CaseView, ParseErrorView>(case_view(c)),
                Err(e) => test_case_of(f) == Err::<CaseView, ParseErrorView>(e@),
            }
        }),
{
    let ghost entries = binding_entries(*bindings);
    let mut form: Vec<Sx> = Vec::new();
    assert(sx_views(form@) =~= Seq::<SxView>::empty());
    push_sx(&mut form, Sx::Atom(Atom::Sym(String::from_str("deflava-test"))));
    push_sx(&mut form, Sx::Atom(Atom::Str(case_name.clone())));
    push_sx(&mut form, Sx::Atom(Atom::Kw(String::from_str("architecture"))));
    push_sx(&mut form, Sx::Atom(Atom::Sym(architecture.clone())));
    let ghost head = sx_views(form@);
    let n = bindings_len(bindings);
    if n != 0 {
        let mut pairs: Vec<Sx> = Vec::new();
        assert(sx_views(pairs@) =~= entry_pairs(entries.take(0)));
        for k in 0..n
            invariant
                n == entries.len(),
                entries == binding_entries(*bindings),
                sx_views(pairs@) == entry_pairs(entries.take(k as int)),
        {
            assert(entries.take(k + 1).drop_last() =~= entries.take(k as int));
            match bindings_get_index(bindings, k) {
                Some(kv) => {
                    let ghost before = sx_views(pairs@);
                    push_sx(&mut pairs, Sx::Atom(Atom::Kw(kv.0.clone())));
                    push_sx(&mut pairs, Sx::Atom(Atom::Str(kv.1.clone())));
                    assert(sx_views(pairs@) =~= entry_pairs(entries.take(k + 1)));
                },
                None => {},
            }
        }
        assert(entries.take(n as int) =~= entries);
        push_sx(&mut form, Sx::Atom(Atom::Kw(String::from_str("bindings"))));
        push_sx(&mut form, Sx::List(pairs));
    }
    let ghost mid = sx_views(form@);
    push_sx(&mut form, Sx::Atom(Atom::Kw(String::from_str("assertions"))));
    let mut items: Vec<Sx> = Vec::new();
    assert(sx_views(items@) =~= sx_views(then_list@.take(0)));
    for q in 0..then_list.len()
        invariant
            sx_views(items@) == sx_views(then_list@.take(q as int)),
    {
        assert(then_list@.take(q + 1).drop_last() =~= then_list@.take(q as int));
        push_sx(&mut items, then_list[q].clone());
    }
    assert(then_list@.take(then_list.len() as int) =~= then_list@);
    push_sx(&mut form, Sx::List(items));
    assert(sx_views(form@) =~= synth_form(case_name@, architecture@, entries, sx_views(then_list@)));
    test_from_form(form.as_slice())
}

/// The case of one scenario, as [`scenario_case`] states.
fn scenario_to_case(spec_name: &String, scenario: &Sx) -> (r: Result<TestCase<BuiltinAssertion>, TestParseError>)
    ensures
        match r {
            Ok(c) => scenario_case(spec_name@, scenario@) == Ok::<CaseView, ParseErrorView>(case_view(c)),
            Err(e) => scenario_case(spec_name@, scenario@) == Err::<CaseView, ParseErrorView>(e@),
        },
{
    let xs = match scenario.as_list() {
        Some(xs) => xs.as_slice(),
        None => {
            return Err(TestParseError::BadAssertion(String::from_str("scenario not a list")));
        },
    };
    let ghost xv = sx_views(xs@);
    proof { lemma_sx_views(xs@); }
    let mut fallback = String::from_str("scenario-");
    fallback.append(spec_name.as_str());
    let sname: String = match find_last_clause(xs, 0, "name") {
        Some(j) => match xs[j + 1].as_str() {
            Some(n) => n.clone(),
            None => fallback,
        },
        None => fallback,
    };
    let arch: String = match find_last_clause(xs, 0, "given") {
        Some(j) => match extract_keyword_target(&xs[j + 1]) {
            Some(a) => a,
            None => spec_name.clone(),
        },
        None => spec_name.clone(),
    };
    let binds = match find_last_clause(xs, 0, "when") {
        Some(j) => extract_bindings(&xs[j + 1]),
        None => bindings_new(),
    };
    let then_list = match find_last_clause(xs, 0, "then") {
        Some(j) => match xs[j + 1].as_list() {
            Some(tl) => tl,
            None => {
                return Err(TestParseError::MissingClause("then"));
            },
        },
        None => {
            return Err(TestParseError::MissingClause("then"));
        },
    };
    let mut case_name = spec_name.clone();
    case_name.append("/");
    let sl = scenario_name_to_slug(sname.as_str());
    case_name.append(sl.as_str());
    synth_test_case(&case_name, &arch, &binds, then_list.as_slice())
}

/// No two bindings share a key.
pub open spec fn keys_unique(e: Seq<(Seq<char>, Seq<char>)>) -> bool {
    forall|a: int, b: int| 0 <= a < b < e.len() ==> (#[trigger] e[a]).0 != (#[trigger] e[b]).0
}

proof fn lemma_insert_entry_unique(e: Seq<(Seq<char>, Seq<char>)>, key: Seq<char>, value: Seq<char>)
    requires
        keys_unique(e),
    ensures
        keys_unique(insert_entry(e, key, value)),
{
    let i = entry_index(e, key);
    if i >= 0 {
        let e2 = e.update(i, (key, value));
        assert(e[i].0 == key);
        assert forall|a: int, b: int| 0 <= a < b < e2.len() implies (#[trigger] e2[a]).0 != (#[trigger] e2[b]).0 by {
            assert(e2[a].0 == e[a].0);
            assert(e2[b].0 == e[b].0);
        }
    } else {
        let e2 = e.push((key, value));
        assert forall|a: int, b: int| 0 <= a < b < e2.len() implies (#[trigger] e2[a]).0 != (#[trigger] e2[b]).0 by {
            if b == e.len() {
                assert(e2[a] == e[a]);
                assert(!(0 <= a < e.len() && e[a].0 == key));
            } else {
                assert(e2[a] == e[a] && e2[b] == e[b]);
            }
        }
    }
}

proof fn lemma_bind_pairs_unique(ps: Seq<SxView>, j: int, e: Seq<(Seq<char>, Seq<char>)>)
    requires
        keys_unique(e),
    ensures
        keys_unique(bind_pairs(ps, j, e)),
    decreases ps.len() - j,
{
    if 0 <= j && j + 1 < ps.len() {
        if let (Some(k), Some(v)) = (kw_of(ps[j]), str_of(ps[j + 1])) {
            lemma_insert_entry_unique(e, k, v);
            lemma_bind_pairs_unique(ps, j + 2, insert_entry(e, k, v));
        } else {
            lemma_bind_pairs_unique(ps, j + 2, e);
        }
    }
}

proof fn lemma_bindings_clauses_unique(xs: Seq<SxView>, i: int, e: Seq<(Seq<char>, Seq<char>)>)
    requires
        keys_unique(e),
    ensures
        keys_unique(bindings_clauses(xs, i, e)),
    decreases xs.len() - i,
{
    if 0 <= i && i + 1 < xs.len() {
        if kw_of(xs[i]) == Some("bindings"@) {
            if let Some(ps) = list_of(xs[i + 1]) {
                lemma_bind_pairs_unique(ps, 0, e);
                lemma_bindings_clauses_unique(xs, i + 2, bind_pairs(ps, 0, e));
            } else {
                lemma_bindings_clauses_unique(xs, i + 2, e);
            }
        } else {
            lemma_bindings_clauses_unique(xs, i + 2, e);
        }
    }
}

proof fn lemma_entry_pairs(e: Seq<(Seq<char>, Seq<char>)>)
    ensures
        entry_pairs(e).len() == 2 * e.len(),
        forall|k: int| 0 <= k < e.len() ==> entry_pairs(e)[2 * k] == SxView::Kw((#[trigger] e[k]).0)
            && entry_pairs(e)[2 * k + 1] == SxView::Str(e[k].1),
    decreases e.len(),
{
    if e.len() > 0 {
        let p = e.drop_last();
        lemma_entry_pairs(p);
        assert forall|k: int| 0 <= k < e.len() implies entry_pairs(e)[2 * k] == SxView::Kw((#[trigger] e[k]).0)
            && entry_pairs(e)[2 * k + 1] == SxView::Str(e[k].1) by {
            if k < p.len() {
                assert(p[k] == e[k]);
            }
        }
    }
}

proof fn lemma_rebind_entry_pairs(e: Seq<(Seq<char>, Seq<char>)>, k: int)
    requires
        keys_unique(e),
        0 <= k <= e.len(),
    ensures
        bind_pairs(entry_pairs(e), 2 * k, e.take(k)) == e,
    decreases e.len() - k,
{
    lemma_entry_pairs(e);
    let ps = entry_pairs(e);
    if k == e.len() {
        assert(e.take(k) =~= e);
    } else {
        assert(ps[2 * k] == SxView::Kw(e[k].0) && ps[2 * k + 1] == SxView::Str(e[k].1));
        let t = e.take(k);
        assert forall|i: int| 0 <= i < t.len() implies (#[trigger] t[i]).0 != e[k].0 by {
            assert(t[i] == e[i]);
        }
        assert(entry_index(t, e[k].0) == -1);
        assert(insert_entry(t, e[k].0, e[k].1) =~= e.take(k + 1));
        assert(2 * k + 2 == 2 * (k + 1));
        lemma_rebind_entry_pairs(e, k + 1);
    }
}

/// The case of a scenario is named `<spec name>/<slug of the scenario
/// name>`, targets the architecture its `:given` names (or the spec's name
/// when it names none), takes the bindings of its `:when`, and checks the
/// assertions of its `:then`.
pub proof fn law_scenario_case_named_and_targeted(spec_name: Seq<char>, sc: SxView)
    ensures
        scenario_case(spec_name, sc) matches Ok(c) ==> ({
            &&& list_of(sc) matches Some(xs)
            &&& c.name == spec_name + "/"@ + slug(scenario_name_of(spec_name, xs))
            &&& c.architecture == Some(scenario_arch_of(spec_name, xs))
            &&& c.bindings == scenario_bindings_of(xs)
            &&& last_clause(xs, 0, "then"@) matches Some(t)
            &&& list_of(t) matches Some(tl)
            &&& assertions_of(tl) == Ok::<Seq<AssertionView>, ParseErrorView>(c.assertions)
        }),
{
    reveal_strlit("architecture");
    reveal_strlit("bindings");
    reveal_strlit("assertions");
    if let Some(xs) = list_of(sc) {
        if let Some(t) = last_clause(xs, 0, "then"@) {
            if let Some(tl) = list_of(t) {
                let n = spec_name + "/"@ + slug(scenario_name_of(spec_name, xs));
                let a = scenario_arch_of(spec_name, xs);
                let b = scenario_bindings_of(xs);
                let f = synth_form(n, a, b, tl);
                if let Some(w) = last_clause(xs, 0, "when"@) {
                    if let Some(wx) = list_of(w) {
                        lemma_bindings_clauses_unique(wx, 0, Seq::<(Seq<char>, Seq<char>)>::empty());
                    }
                }
                assert(keys_unique(b));
                lemma_rebind_entry_pairs(b, 0);
                assert(b.take(0) =~= Seq::<(Seq<char>, Seq<char>)>::empty());
                assert(f[1] == SxView::Str(n));
                assert(sym_arg(f, 1) is None && str_arg(f, 1) == Some(n));
                assert(f[2] == SxView::Kw("architecture"@));
                assert(f[3] == SxView::Sym(a));
                let acc1 = ClauseAcc { architecture: Some(a), ..empty_acc() };
                assert(apply_clause(f, 2, empty_acc()) == Ok::<ClauseAcc, ParseErrorView>(acc1));
                assert("bindings"@.len() == 8 && "architecture"@.len() == 12 && "assertions"@.len() == 10);
                assert("bindings"@ != "architecture"@);
                assert("assertions"@ != "architecture"@);
                assert("assertions"@ != "bindings"@);
                if b.len() > 0 {
                    assert(f.len() == 8);
                    assert(f[4] == SxView::Kw("bindings"@));
                    assert(f[6] == SxView::Kw("assertions"@));
                    let acc2 = ClauseAcc { bindings: bind_pairs(entry_pairs(b), 0, acc1.bindings), ..acc1 };
                    assert(apply_clause(f, 4, acc1) == Ok::<ClauseAcc, ParseErrorView>(acc2));
                    assert(read_clauses(f, 2, empty_acc()) == read_clauses(f, 4, acc1));
                    assert(read_clauses(f, 4, acc1) == read_clauses(f, 6, acc2));
                    if let Ok(acc3) = apply_clause(f, 6, acc2) {
                        assert(acc3.architecture == Some(a));
                        assert(read_clauses(f, 8, acc3) == Ok::<ClauseAcc, ParseErrorView>(acc3));
                        assert(read_clauses(f, 6, acc2) == Ok::<ClauseAcc, ParseErrorView>(acc3));
                    }
                } else {
                    assert(f.len() == 6);
                    assert(f[4] == SxView::Kw("assertions"@));
                    assert(read_clauses(f, 2, empty_acc()) == read_clauses(f, 4, acc1));
                    if let Ok(acc3) = apply_clause(f, 4, acc1) {
                        assert(acc3.architecture == Some(a));
                        assert(read_clauses(f, 6, acc3) == Ok::<ClauseAcc, ParseErrorView>(acc3));
                        assert(read_clauses(f, 4, acc1) == Ok::<ClauseAcc, ParseErrorView>(acc3));
                    }
                }
            }
        }
    }
}

proof fn lemma_plain_scenario_case(spec_name: Seq<char>, case_name: Seq<char>)
    ensures
        test_case_of(synth_form(case_name, spec_name, Seq::<(Seq<char>, Seq<char>)>::empty(), Seq::<SxView>::empty()))
            == Ok::<CaseView, ParseErrorView>(
            CaseView {
                name: case_name,
                architecture: Some(spec_name),
                bindings: Seq::<(Seq<char>, Seq<char>)>::empty(),
                assertions: Seq::<AssertionView>::empty(),
            },
        ),
{
    reveal_strlit("architecture");
    reveal_strlit("bindings");
    reveal_strlit("assertions");
    assert("bindings"@.len() == 8 && "architecture"@.len() == 12 && "assertions"@.len() == 10);
    assert("assertions"@ != "architecture"@);
    assert("assertions"@ != "bindings"@);
    let f = synth_form(case_name, spec_name, Seq::<(Seq<char>, Seq<char>)>::empty(), Seq::<SxView>::empty());
    assert(f.len() == 6);
    assert(f[1] == SxView::Str(case_name));
    assert(f[2] == SxView::Kw("architecture"@));
    assert(f[3] == SxView::Sym(spec_name));
    assert(f[4] == SxView::Kw("assertions"@));
    assert(f[5] == SxView::List(Seq::<SxView>::empty()));
    let acc1 = ClauseAcc { architecture: Some(spec_name), ..empty_acc() };
    assert(apply_clause(f, 2, empty_acc()) == Ok::<ClauseAcc, ParseErrorView>(acc1));
    assert(assertions_of(Seq::<SxView>::empty()) == Ok::<Seq<AssertionView>, ParseErrorView>(Seq::<AssertionView>::empty()));
    let acc3 = ClauseAcc { assertions: acc1.assertions + Seq::<AssertionView>::empty(), ..acc1 };
    assert(acc1.assertions + Seq::<AssertionView>::empty() =~= Seq::<AssertionView>::empty());
    assert(apply_clause(f, 4, acc1) == Ok::<ClauseAcc, ParseErrorView>(acc3));
    assert(read_clauses(f, 6, acc3) == Ok::<ClauseAcc, ParseErrorView>(acc3));
    assert(read_clauses(f, 4, acc1) == Ok::<ClauseAcc, ParseErrorView>(acc3));
    assert(read_clauses(f, 2, empty_acc()) == Ok::<ClauseAcc, ParseErrorView>(acc3));
}

/// A scenario with a `:name` string and an empty `:then` list becomes the
/// case `<spec>/<slug of that name>`, aimed at the spec's architecture; a
/// scenario without `:name` is named `<spec>/<slug of "scenario-<spec>">`.
pub proof fn law_scenario_names(n: Seq<char>, x: Seq<char>)
    ensures
        scenario_case(
            n,
            SxView::List(seq![SxView::Kw("name"@), SxView::Str(x), SxView::Kw("then"@), SxView::List(Seq::<SxView>::empty())]),
        ) == Ok::<CaseView, ParseErrorView>(
            CaseView {
                name: n + "/"@ + slug(x),
                architecture: Some(n),
                bindings: Seq::<(Seq<char>, Seq<char>)>::empty(),
                assertions: Seq::<AssertionView>::empty(),
            },
        ),
        scenario_case(n, SxView::List(seq![SxView::Kw("then"@), SxView::List(Seq::<SxView>::empty())]))
            == Ok::<CaseView, ParseErrorView>(
            CaseView {
                name: n + "/"@ + slug("scenario-"@ + n),
                architecture: Some(n),
                bindings: Seq::<(Seq<char>, Seq<char>)>::empty(),
                assertions: Seq::<AssertionView>::empty(),
            },
        ),
{
    reveal_strlit("name");
    reveal_strlit("then");
    reveal_strlit("given");
    reveal_strlit("when");
    assert("name"@[0] != "then"@[0] && "when"@[0] != "then"@[0] && "when"@[0] != "name"@[0]);
    assert("given"@.len() != "then"@.len() && "given"@.len() != "name"@.len());
    assert("name"@ != "then"@ && "given"@ != "then"@ && "when"@ != "then"@ && "given"@ != "name"@
        && "when"@ != "name"@);
    let e = Seq::<SxView>::empty();
    let xs1 = seq![SxView::Kw("name"@), SxView::Str(x), SxView::Kw("then"@), SxView::List(e)];
    assert(last_clause(xs1, 4, "name"@) is None);
    assert(last_clause(xs1, 2, "name"@) is None);
    assert(last_clause(xs1, 0, "name"@) == Some(SxView::Str(x)));
    assert(scenario_name_of(n, xs1) == x);
    assert(last_clause(xs1, 4, "given"@) is None);
    assert(last_clause(xs1, 2, "given"@) is None);
    assert(last_clause(xs1, 0, "given"@) is None);
    assert(last_clause(xs1, 4, "when"@) is None);
    assert(last_clause(xs1, 2, "when"@) is None);
    assert(last_clause(xs1, 0, "when"@) is None);
    assert(last_clause(xs1, 4, "then"@) is None);
    assert(last_clause(xs1, 2, "then"@) == Some(SxView::List(e)));
    assert(last_clause(xs1, 0, "then"@) == Some(SxView::List(e)));
    lemma_plain_scenario_case(n, n + "/"@ + slug(x));
    let xs2 = seq![SxView::Kw("then"@), SxView::List(e)];
    assert(last_clause(xs2, 2, "name"@) is None);
    assert(last_clause(xs2, 0, "name"@) is None);
    assert(last_clause(xs2, 2, "given"@) is None);
    assert(last_clause(xs2, 0, "given"@) is None);
    assert(last_clause(xs2, 2, "when"@) is None);
    assert(last_clause(xs2, 0, "when"@) is None);
    assert(last_clause(xs2, 2, "then"@) is None);
    assert(last_clause(xs2, 0, "then"@) == Some(SxView::List(e)));
    lemma_plain_scenario_case(n, n + "/"@ + slug("scenario-"@ + n));
}

// ---------------------------------------------------------------------------
// Spec forms
// ---------------------------------------------------------------------------

/// The cases of the scenarios `l` of the spec named `n`, or the first error.
pub open spec fn scenario_cases(n: Seq<char>, l: Seq<SxView>) -> Result<Seq<CaseView>, ParseErrorView>
    decreases l.len(),
{
    if l.len() == 0 {
        Ok(Seq::<CaseView>::empty())
    } else {
        match scenario_cases(n, l.drop_last()) {
            Err(e) => Err(e),
            Ok(cs) => match scenario_case(n, l.last()) {
                Ok(c) => Ok(cs.push(c)),
                Err(e) => Err(e),
            },
        }
    }
}

/// The cases a `(deflava-spec <name> :scenarios (…))` form denotes.
pub open spec fn spec_cases_of(xs: Seq<SxView>) -> Result<Seq<CaseView>, ParseErrorView> {
    let name = match sym_arg(xs, 1) {
        Some(s) => Some(s),
        None => str_arg(xs, 1),
    };
    match name {
        None => Err(ParseErrorView::NotTestForm),
        Some(n) => match last_clause(xs, 2, "scenarios"@) {
            None => Err(ParseErrorView::MissingClause("scenarios"@)),
            Some(sc) => match list_of(sc) {
                None => Err(ParseErrorView::MissingClause("scenarios"@)),
                Some(l) => scenario_cases(n, l),
            },
        },
    }
}

proof fn lemma_scenarios_err(n: Seq<char>, l: Seq<SxView>, k: int)
    requires
        0 <= k <= l.len(),
        scenario_cases(n, l.take(k)) is Err,
    ensures
        scenario_cases(n, l) == scenario_cases(n, l.take(k)),
    decreases l.len(),
{
    if k < l.len() {
        assert(l.drop_last().take(k) =~= l.take(k));
        lemma_scenarios_err(n, l.drop_last(), k);
    } else {
        assert(l.take(k) =~= l);
    }
}

/// A spec reads into one case per scenario it lists.
pub proof fn law_one_case_per_scenario(n: Seq<char>, l: Seq<SxView>)
    ensures
        scenario_cases(n, l) is Ok ==> scenario_cases(n, l)->Ok_0.len() == l.len(),
    decreases l.len(),
{
    if l.len() > 0 {
        law_one_case_per_scenario(n, l.drop_last());
    }
}

/// The cases of one `(deflava-spec …)` form, one per scenario.
fn spec_to_cases(xs: &[Sx]) -> (r: Result<Vec<TestCase<BuiltinAssertion>>, TestParseError>)
    ensures
        match r {
            Ok(cs) => spec_cases_of(sx_views(xs@)) == Ok::<Seq<CaseView>, ParseErrorView>(case_views(cs@)),
            Err(e) => spec_cases_of(sx_views(xs@)) == Err::<Seq<CaseView>, ParseErrorView>(e@),
        },
{
    let ghost xv = sx_views(xs@);
    proof { lemma_sx_views(xs@); }
    let spec_name = match crate::parser::sym_at(xs, 1) {
        Some(s) => s.clone(),
        None => match crate::parser::str_at(xs, 1) {
            Some(s) => s.clone(),
            None => {
                return Err(TestParseError::NotTestForm);
            },
        },
    };
    let found = find_last_clause(xs, 2, "scenarios");
    let n = xs.len();
    let list = match found {
        Some(j) => match xs[j + 1].as_list() {
            Some(l) => l,
            None => {
                return Err(TestParseError::MissingClause("scenarios"));
            },
        },
        None => {
            return Err(TestParseError::MissingClause("scenarios"));
        },
    };
    let ghost lv = sx_views(list@);
    proof { lemma_sx_views(list@); }
    let mut cases: Vec<TestCase<BuiltinAssertion>> = Vec::new();
    assert(lv.take(0) =~= Seq::<SxView>::empty());
    assert(case_views(cases@) =~= Seq::<CaseView>::empty());
    for q in 0..list.len()
        invariant
            lv == sx_views(list@),
            lv.len() == list@.len(),
            forall|w: int| 0 <= w < list@.len() ==> #[trigger] lv[w] == sx_view(list@[w]),
            xv == sx_views(xs@),
            spec_cases_of(xv) == scenario_cases(spec_name@, lv),
            scenario_cases(spec_name@, lv.take(q as int)) == Ok::<Seq<CaseView>, ParseErrorView>(case_views(cases@)),
    {
        assert(lv.take(q + 1).drop_last() =~= lv.take(q as int));
        assert(lv.take(q + 1).last() == sx_view(list@[q as int]));
        match scenario_to_case(&spec_name, &list[q]) {
            Ok(c) => {
                let ghost before = cases@;
                cases.push(c);
                assert(case_views(cases@) =~= case_views(before).push(case_view(c)));
            },
            Err(e) => {
                proof { lemma_scenarios_err(spec_name@, lv, q + 1); }
                return Err(e);
            },
        }
    }
    assert(lv.take(list.len() as int) =~= lv);
    Ok(cases)
}

/// The cases of the `(deflava-spec …)` forms among `forms`, in order; other
/// forms are skipped.
pub open spec fn specs_of(forms: Seq<SxView>) -> Result<Seq<CaseView>, ParseErrorView>
    decreases forms.len(),
{
    if forms.len() == 0 {
        Ok(Seq::<CaseView>::empty())
    } else {
        match specs_of(forms.drop_last()) {
            Err(e) => Err(e),
            Ok(cs) => match headed(forms.last(), "deflava-spec"@) {
                None => Ok(cs),
                Some(xs) => match spec_cases_of(xs) {
                    Ok(more) => Ok(cs + more),
                    Err(e) => Err(e),
                },
            },
        }
    }
}

/// The scenarios that a spec form lists under its last `:scenarios` clause;
/// none when that clause is missing or not a list.
pub open spec fn listed_scenarios(xs: Seq<SxView>) -> Seq<SxView> {
    match last_clause(xs, 2, "scenarios"@) {
        Some(sc) => match list_of(sc) {
            Some(l) => l,
            None => Seq::<SxView>::empty(),
        },
        None => Seq::<SxView>::empty(),
    }
}

/// How many scenarios the `(deflava-spec …)` forms among `forms` list.
pub open spec fn scenario_count(forms: Seq<SxView>) -> nat
    decreases forms.len(),
{
    if forms.len() == 0 {
        0
    } else {
        scenario_count(forms.drop_last()) + match headed(forms.last(), "deflava-spec"@) {
            Some(xs) => listed_scenarios(xs).len(),
            None => 0,
        }
    }
}

/// Reading spec forms gives one case per scenario of every
/// `(deflava-spec …)` form, and none for any other form.
pub proof fn law_one_case_per_listed_scenario(forms: Seq<SxView>)
    ensures
        specs_of(forms) is Ok ==> specs_of(forms)->Ok_0.len() == scenario_count(forms),
    decreases forms.len(),
{
    if forms.len() > 0 {
        law_one_case_per_listed_scenario(forms.drop_last());
        match headed(forms.last(), "deflava-spec"@) {
            Some(xs) => {
                match last_clause(xs, 2, "scenarios"@) {
                    Some(sc) => match list_of(sc) {
                        Some(l) => {
                            let name = match sym_arg(xs, 1) {
                                Some(s) => Some(s),
                                None => str_arg(xs, 1),
                            };
                            if let Some(n) = name {
                                law_one_case_per_scenario(n, l);
                            }
                        },
                        None => {},
                    },
                    None => {},
                }
            },
            None => {},
        }
    }
}

/// The items of the `(deflava-spec …)` forms among `forms`, in order.
pub open spec fn spec_forms(forms: Seq<SxView>) -> Seq<Seq<SxView>>
    decreases forms.len(),
{
    if forms.len() == 0 {
        Seq::<Seq<SxView>>::empty()
    } else {
        match headed(forms.last(), "deflava-spec"@) {
            Some(xs) => spec_forms(forms.drop_last()).push(xs),
            None => spec_forms(forms.drop_last()),
        }
    }
}

/// The cases of several specs, one after the other.
pub open spec fn concat_cases(s: Seq<Seq<CaseView>>) -> Seq<CaseView>
    decreases s.len(),
{
    if s.len() == 0 {
        Seq::<CaseView>::empty()
    } else {
        concat_cases(s.drop_last()) + s.last()
    }
}

/// When every spec form converts, reading the forms gives the cases of each
/// spec form in order, and nothing for any other form.
pub proof fn law_specs_are_the_spec_forms_in_order(forms: Seq<SxView>)
    requires
        forall|i: int| 0 <= i < spec_forms(forms).len() ==> (#[trigger] spec_cases_of(spec_forms(forms)[i])) is Ok,
    ensures
        specs_of(forms) == Ok::<Seq<CaseView>, ParseErrorView>(
            concat_cases(Seq::new(spec_forms(forms).len(), |i: int| spec_cases_of(spec_forms(forms)[i])->Ok_0)),
        ),
    decreases forms.len(),
{
    if forms.len() > 0 {
        let p = forms.drop_last();
        let tp = spec_forms(p);
        let t = spec_forms(forms);
        assert forall|i: int| 0 <= i < tp.len() implies (#[trigger] spec_cases_of(tp[i])) is Ok by {
            assert(t[i] == tp[i]);
        }
        law_specs_are_the_spec_forms_in_order(p);
        let sp = Seq::new(tp.len(), |i: int| spec_cases_of(tp[i])->Ok_0);
        let st = Seq::new(t.len(), |i: int| spec_cases_of(t[i])->Ok_0);
        match headed(forms.last(), "deflava-spec"@) {
            Some(xs) => {
                assert(t[tp.len() as int] == xs);
                assert(spec_cases_of(t[tp.len() as int]) is Ok);
                assert(st.drop_last() =~= sp);
            },
            None => {
                assert(st =~= sp);
            },
        }
    } else {
        assert(Seq::new(0, |i: int| spec_cases_of(spec_forms(forms)[i])->Ok_0) =~= Seq::<Seq<CaseView>>::empty());
    }
}

/// When a spec form fails to convert and those before it convert, reading
/// the forms fails with that form's error.
pub proof fn law_specs_stop_at_the_first_failing_form(forms: Seq<SxView>, i: int)
    requires
        0 <= i < spec_forms(forms).len(),
        spec_cases_of(spec_forms(forms)[i]) is Err,
        forall|j: int| 0 <= j < i ==> (#[trigger] spec_cases_of(spec_forms(forms)[j])) is Ok,
    ensures
        specs_of(forms) == Err::<Seq<CaseView>, ParseErrorView>(spec_cases_of(spec_forms(forms)[i])->Err_0),
    decreases forms.len(),
{
    let p = forms.drop_last();
    let tp = spec_forms(p);
    let t = spec_forms(forms);
    if i < tp.len() {
        assert forall|j: int| 0 <= j <= i implies t[j] == tp[j] by {}
        assert forall|j: int| 0 <= j < i implies (#[trigger] spec_cases_of(tp[j])) is Ok by {
            assert(t[j] == tp[j]);
        }
        law_specs_stop_at_the_first_failing_form(p, i);
    } else {
        assert(headed(forms.last(), "deflava-spec"@) is Some);
        assert(tp.len() == i);
        assert forall|j: int| 0 <= j < tp.len() implies (#[trigger] spec_cases_of(tp[j])) is Ok by {
            assert(t[j] == tp[j]);
        }
        law_specs_are_the_spec_forms_in_order(p);
    }
}

/// When every scenario of a spec converts, the spec's cases are the cases of
/// its scenarios, in order.
pub proof fn law_scenario_cases_in_order(n: Seq<char>, l: Seq<SxView>)
    requires
        forall|i: int| 0 <= i < l.len() ==> (#[trigger] scenario_case(n, l[i])) is Ok,
    ensures
        scenario_cases(n, l) == Ok::<Seq<CaseView>, ParseErrorView>(
            Seq::new(l.len(), |i: int| scenario_case(n, l[i])->Ok_0),
        ),
    decreases l.len(),
{
    if l.len() > 0 {
        let p = l.drop_last();
        assert forall|i: int| 0 <= i < p.len() implies (#[trigger] scenario_case(n, p[i])) is Ok by {
            assert(p[i] == l[i]);
        }
        law_scenario_cases_in_order(n, p);
        assert(scenario_case(n, l[l.len() - 1]) is Ok);
        assert(Seq::new(l.len(), |i: int| scenario_case(n, l[i])->Ok_0) =~= Seq::new(
            p.len(),
            |i: int| scenario_case(n, p[i])->Ok_0,
        ).push(scenario_case(n, l.last())->Ok_0));
    } else {
        assert(Seq::new(0, |i: int| scenario_case(n, l[i])->Ok_0) =~= Seq::<CaseView>::empty());
    }
}

/// When a scenario fails to convert and those before it convert, the spec
/// fails with that scenario's error.
pub proof fn law_scenarios_stop_at_the_first_failure(n: Seq<char>, l: Seq<SxView>, i: int)
    requires
        0 <= i < l.len(),
        scenario_case(n, l[i]) is Err,
        forall|j: int| 0 <= j < i ==> (#[trigger] scenario_case(n, l[j])) is Ok,
    ensures
        scenario_cases(n, l) == Err::<Seq<CaseView>, ParseErrorView>(scenario_case(n, l[i])->Err_0),
    decreases l.len(),
{
    let p = l.drop_last();
    if i < p.len() {
        assert(p[i] == l[i]);
        assert forall|j: int| 0 <= j < i implies (#[trigger] scenario_case(n, p[j])) is Ok by {
            assert(p[j] == l[j]);
        }
        law_scenarios_stop_at_the_first_failure(n, p, i);
    } else {
        assert forall|j: int| 0 <= j < p.len() implies (#[trigger] scenario_case(n, p[j])) is Ok by {
            assert(p[j] == l[j]);
        }
        law_scenario_cases_in_order(n, p);
    }
}

/// The scenario cases a source text declares, or the first error.
pub open spec fn specs_in(src: Seq<char>) -> Result<Seq<CaseView>, ParseErrorView> {
    match read_all(src) {
        Err(e) => Err(ParseErrorView::Parse(e)),
        Ok(forms) => specs_of(forms),
    }
}

proof fn lemma_specs_err(l: Seq<SxView>, k: int)
    requires
        0 <= k <= l.len(),
        specs_of(l.take(k)) is Err,
    ensures
        specs_of(l) == specs_of(l.take(k)),
    decreases l.len(),
{
    if k < l.len() {
        assert(l.drop_last().take(k) =~= l.take(k));
        lemma_specs_err(l.drop_last(), k);
    } else {
        assert(l.take(k) =~= l);
    }
}

/// One test case per scenario of every `(deflava-spec …)` form of a source
/// text, in order; other forms are skipped.
pub fn scenarios_in_source(src: &str) -> (r: Result<Vec<TestCase<BuiltinAssertion>>, TestParseError>)
    ensures
        match r {
            Ok(cs) => specs_in(src@) == Ok::<Seq<CaseView>, ParseErrorView>(case_views(cs@)),
            Err(e) => specs_in(src@) == Err::<Seq<CaseView>, ParseErrorView>(e@),
        },
{
    let forms = match parse_all(src) {
        Ok(f) => f,
        Err(e) => {
            return Err(TestParseError::Parse(e));
        },
    };
    let ghost fv = sx_views(forms@);
    proof { lemma_sx_views(forms@); }
    let mut out: Vec<TestCase<BuiltinAssertion>> = Vec::new();
    assert(fv.take(0) =~= Seq::<SxView>::empty());
    assert(case_views(out@) =~= Seq::<CaseView>::empty());
    for i in 0..forms.len()
        invariant
            fv == sx_views(forms@),
            read_all(src@) == Ok::<Seq<SxView>, ReadError>(fv),
            fv.len() == forms@.len(),
            forall|w: int| 0 <= w < forms@.len() ==> #[trigger] fv[w] == sx_view(forms@[w]),
            specs_of(fv.take(i as int)) == Ok::<Seq<CaseView>, ParseErrorView>(case_views(out@)),
    {
        assert(fv.take(i + 1).drop_last() =~= fv.take(i as int));
        assert(fv.take(i + 1).last() == sx_view(forms@[i as int]));
        match forms[i].as_list() {
            None => {},
            Some(xs) => {
                let xs = xs.as_slice();
                let is_spec = match crate::parser::sym_at(xs, 0) {
                    Some(h) => text_is(h, "deflava-spec"),
                    None => false,
                };
                if is_spec {
                    match spec_to_cases(xs) {
                        Ok(more) => {
                            let ghost before = out@;
                            let mut more = more;
                            let ghost m = more@;
                            out.append(&mut more);
                            assert(case_views(out@) =~= case_views(before) + case_views(m));
                        },
                        Err(e) => {
                            proof { lemma_specs_err(fv, i + 1); }
                            assert(fv.take(forms.len() as int) =~= fv);
                            return Err(e);
                        },
                    }
                }
            },
        }
    }
    assert(fv.take(forms.len() as int) =~= fv);
    Ok(out)
}

} // verus!
