//! A JSON document model: the shape of a rendered terraform document, with
//! JSON-pointer lookup and structural equality; its compact text is the one
//! `serde_json` writes.

use vstd::prelude::*;
use serde_json::Value as JsonValue;
use crate::text::{decimal, digit_char, chars_of, string_of, all_digits, is_digit, digits_value, lemma_digits_value_prefix};

verus! {

/// A JSON value. A number is held by its JSON text (as `serde_json` prints
/// it); two numbers are equal when `serde_json` reads them as the same
/// number. An object holds its members in document order.
#[derive(Debug)]
pub enum Json {
    Null,
    Bool(bool),
    Number(String),
    String(String),
    Array(Vec<Json>),
    Object(Vec<(String, Json)>),
}

/// The mathematical value of a JSON value.
pub enum JsonView {
    Null,
    Bool(bool),
    Number(Seq<char>),
    String(Seq<char>),
    Array(Seq<JsonView>),
    Object(Seq<(Seq<char>, JsonView)>),
}

pub open spec fn json_view(j: Json) -> JsonView
    decreases j,
{
    match j {
        Json::Null => JsonView::Null,
        Json::Bool(b) => JsonView::Bool(b),
        Json::Number(t) => JsonView::Number(t@),
        Json::String(s) => JsonView::String(s@),
        Json::Array(v) => JsonView::Array(json_views(v@)),
        Json::Object(m) => JsonView::Object(member_views(m@)),
    }
}

pub open spec fn json_views(s: Seq<Json>) -> Seq<JsonView>
    decreases s,
{
    if s.len() == 0 {
        Seq::<JsonView>::empty()
    } else {
        json_views(s.drop_last()).push(json_view(s.last()))
    }
}

pub open spec fn member_views(s: Seq<(String, Json)>) -> Seq<(Seq<char>, JsonView)>
    decreases s,
{
    if s.len() == 0 {
        Seq::<(Seq<char>, JsonView)>::empty()
    } else {
        member_views(s.drop_last()).push((s.last().0@, json_view(s.last().1)))
    }
}

impl View for Json {
    type V = JsonView;

    open spec fn view(&self) -> JsonView {
        json_view(*self)
    }
}

// ---------------------------------------------------------------------------
// Object lookup
// ---------------------------------------------------------------------------

/// The value of the first member of `entries` whose key is `key`.
pub open spec fn member(entries: Seq<(String, Json)>, key: Seq<char>) -> Option<Json>
    decreases entries.len(),
{
    if entries.len() == 0 {
        None
    } else if entries[0].0@ == key {
        Some(entries[0].1)
    } else {
        member(entries.drop_first(), key)
    }
}

/// Index of the first member of `entries` whose key is `key`.
pub open spec fn member_index(entries: Seq<(String, Json)>, key: Seq<char>) -> int
    decreases entries.len(),
{
    if entries.len() == 0 {
        -1
    } else if entries[0].0@ == key {
        0
    } else {
        let r = member_index(entries.drop_first(), key);
        if r < 0 { -1 } else { r + 1 }
    }
}

proof fn lemma_member_index(entries: Seq<(String, Json)>, key: Seq<char>)
    ensures
        ({
            let r = member_index(entries, key);
            &&& -1 <= r < entries.len()
            &&& r >= 0 ==> entries[r].0@ == key && member(entries, key) == Some(entries[r].1)
            &&& r >= 0 ==> forall|j: int| 0 <= j < r ==> entries[j].0@ != key
            &&& r < 0 ==> member(entries, key) is None
            &&& r < 0 ==> forall|j: int| 0 <= j < entries.len() ==> entries[j].0@ != key
        }),
    decreases entries.len(),
{
    if entries.len() > 0 && entries[0].0@ != key {
        lemma_member_index(entries.drop_first(), key);
        let rest = entries.drop_first();
        assert forall|j: int| 1 <= j < entries.len() implies entries[j] == rest[j - 1] by {}
    }
}

/// Looks a key up among object members; the first matching member wins.
fn find_member<'a>(entries: &'a Vec<(String, Json)>, key: &String) -> (r: Option<&'a Json>)
    ensures
        match r {
            Some(v) => member(entries@, key@) == Some(*v),
            None => member(entries@, key@) is None,
        },
{
    proof { lemma_member_index(entries@, key@); }
    let mut i: usize = 0;
    while i < entries.len()
        invariant
            i <= entries.len(),
            forall|j: int| 0 <= j < i ==> entries@[j].0@ != key@,
            -1 <= member_index(entries@, key@) < entries@.len(),
            member_index(entries@, key@) >= 0 ==> member_index(entries@, key@) >= i,
            member_index(entries@, key@) >= 0 ==> entries@[member_index(entries@, key@)].0@ == key@
                && member(entries@, key@) == Some(entries@[member_index(entries@, key@)].1)
                && forall|j: int| 0 <= j < member_index(entries@, key@) ==> entries@[j].0@ != key@,
            member_index(entries@, key@) < 0 ==> member(entries@, key@) is None,
            member_index(entries@, key@) < 0 ==> forall|j: int| 0 <= j < entries@.len() ==> entries@[j].0@ != key@,
        decreases entries.len() - i,
    {
        if entries[i].0 == *key {
            return Some(&entries[i].1);
        }
        i = i + 1;
    }
    None
}

// ---------------------------------------------------------------------------
// JSON pointer
// ---------------------------------------------------------------------------

/// Splits `s` at every `/`; there is always at least one piece.
pub open spec fn split_slash(s: Seq<char>) -> Seq<Seq<char>>
    decreases s.len(),
{
    if s.len() == 0 {
        seq![Seq::<char>::empty()]
    } else {
        let t = split_slash(s.drop_last());
        if s.last() == '/' {
            t.push(Seq::<char>::empty())
        } else {
            t.update(t.len() - 1, t.last().push(s.last()))
        }
    }
}

proof fn lemma_split_slash_nonempty(s: Seq<char>)
    ensures
        split_slash(s).len() >= 1,
    decreases s.len(),
{
    if s.len() > 0 {
        lemma_split_slash_nonempty(s.drop_last());
    }
}

/// Replaces, scanning left to right, each occurrence of the two characters
/// `a b` by the single character `r`.
pub open spec fn replace_pair(s: Seq<char>, a: char, b: char, r: char) -> Seq<char>
    decreases s.len(),
{
    if s.len() < 2 {
        s
    } else if s[0] == a && s[1] == b {
        seq![r] + replace_pair(s.skip(2), a, b, r)
    } else {
        seq![s[0]] + replace_pair(s.drop_first(), a, b, r)
    }
}

/// A reference token with its escapes undone: `~1` becomes `/`, then `~0`
/// becomes `~`.
pub open spec fn unescape_token(t: Seq<char>) -> Seq<char> {
    replace_pair(replace_pair(t, '~', '1', '/'), '~', '0', '~')
}

/// The reference tokens of a pointer that starts with `/`.
pub open spec fn pointer_tokens(p: Seq<char>) -> Seq<Seq<char>> {
    split_slash(p.drop_first()).map_values(|t: Seq<char>| unescape_token(t))
}

/// An array index token: decimal digits, no leading zero unless the token
/// is `0`, no sign, and at most `usize::MAX`.
pub open spec fn parse_index(t: Seq<char>) -> Option<nat> {
    if t.len() == 0 || (t[0] == '0' && t.len() != 1) || !all_digits(t) || digits_value(t)
        > usize::MAX {
        None
    } else {
        Some(digits_value(t))
    }
}

/// Follows reference tokens down from `j`.
pub open spec fn walk(j: Json, toks: Seq<Seq<char>>) -> Option<Json>
    decreases toks.len(),
{
    if toks.len() == 0 {
        Some(j)
    } else {
        match j {
            Json::Object(m) => match member(m@, toks[0]) {
                Some(v) => walk(v, toks.drop_first()),
                None => None,
            },
            Json::Array(v) => match parse_index(toks[0]) {
                Some(i) => if i < v@.len() {
                    walk(v@[i as int], toks.drop_first())
                } else {
                    None
                },
                None => None,
            },
            _ => None,
        }
    }
}

/// JSON-pointer lookup: the empty pointer names the whole document; a
/// pointer that does not start with `/` names nothing.
pub open spec fn lookup(j: Json, p: Seq<char>) -> Option<Json> {
    if p.len() == 0 {
        Some(j)
    } else if p[0] != '/' {
        None
    } else {
        walk(j, pointer_tokens(p))
    }
}

fn replace_pair_exec(s: &Vec<char>, a: char, b: char, r: char) -> (out: Vec<char>)
    ensures
        out@ == replace_pair(s@, a, b, r),
{
    let mut out: Vec<char> = Vec::new();
    let mut i: usize = 0;
    assert(s@.skip(0) =~= s@);
    while i < s.len()
        invariant
            i <= s.len(),
            out@ + replace_pair(s@.skip(i as int), a, b, r) == replace_pair(s@, a, b, r),
        decreases s.len() - i,
    {
        let ghost rest = s@.skip(i as int);
        if i + 1 < s.len() && s[i] == a && s[i + 1] == b {
            out.push(r);
            assert(rest.skip(2) =~= s@.skip(i + 2));
            i = i + 2;
        } else {
            out.push(s[i]);
            assert(rest.drop_first() =~= s@.skip(i + 1));
            if i + 1 >= s.len() {
                assert(s@.skip(i + 1).len() == 0);
            }
            i = i + 1;
        }
    }
    assert(s@.skip(i as int).len() == 0);
    out
}

/// Reads an array index token.
fn parse_index_exec(t: &Vec<char>) -> (r: Option<usize>)
    ensures
        match r {
            Some(i) => parse_index(t@) == Some(i as nat),
            None => parse_index(t@) is None,
        },
{
    if t.len() == 0 {
        return None;
    }
    if t[0] == '0' && t.len() != 1 {
        return None;
    }
    let mut v: usize = 0;
    let mut over = false;
    let mut i: usize = 0;
    while i < t.len()
        invariant
            i <= t.len(),
            all_digits(t@.take(i as int)),
            !over ==> v == digits_value(t@.take(i as int)),
            over ==> digits_value(t@.take(i as int)) > usize::MAX,
        decreases t.len() - i,
    {
        let c = t[i];
        if !('0' <= c && c <= '9') {
            assert(!all_digits(t@)) by { assert(t@[i as int] == c); }
            return None;
        }
        let ghost pre = t@.take(i as int);
        assert(t@.take(i + 1).drop_last() =~= pre);
        assert(all_digits(t@.take(i + 1))) by {
            assert forall|k: int| 0 <= k < i + 1 implies is_digit(#[trigger] t@.take(i + 1)[k]) by {
                if k < i {
                    assert(t@.take(i + 1)[k] == pre[k]);
                }
            }
        }
        let d: usize = ((c as u32) - 48) as usize;
        if !over {
            if v > (usize::MAX - d) / 10 {
                assert(v * 10 + d > usize::MAX) by (nonlinear_arith)
                    requires v > (usize::MAX - d) / 10, d <= 9;
                over = true;
            } else {
                assert(v * 10 + d <= usize::MAX) by (nonlinear_arith)
                    requires v <= (usize::MAX - d) / 10, d <= 9;
                v = v * 10 + d;
            }
        }
        i = i + 1;
    }
    assert(t@.take(t.len() as int) =~= t@);
    if over {
        None
    } else {
        Some(v)
    }
}

impl Json {
    /// Looks up a value by JSON pointer (RFC 6901), as `serde_json` does.
    pub fn pointer(&self, p: &str) -> (r: Option<&Json>)
        ensures
            match r {
                Some(v) => lookup(*self, p@) == Some(*v),
                None => lookup(*self, p@) is None,
            },
    {
        let cs = chars_of(p);
        if cs.len() == 0 {
            return Some(self);
        }
        if cs[0] != '/' {
            return None;
        }
        // Split the part after the leading `/` into raw tokens.
        let mut toks: Vec<String> = Vec::new();
        let mut cur: Vec<char> = Vec::new();
        let ghost body = p@.drop_first();
        let mut i: usize = 1;
        while i < cs.len()
            invariant
                1 <= i <= cs.len(),
                cs@ == p@,
                body == p@.drop_first(),
                toks@.map_values(|t: String| t@).push(cur@) == split_slash(body.take(i - 1)),
            decreases cs.len() - i,
        {
            let ghost pre = body.take(i - 1);
            assert(body.take(i as int).drop_last() =~= pre);
            assert(body.take(i as int).last() == cs@[i as int]);
            proof { lemma_split_slash_nonempty(pre); }
            if cs[i] == '/' {
                let s = string_of(&cur);
                toks.push(s);
                cur = Vec::new();
                assert(toks@.map_values(|t: String| t@).push(cur@) =~= split_slash(body.take(i as int)));
            } else {
                let ghost before = toks@.map_values(|t: String| t@);
                cur.push(cs[i]);
                assert(toks@.map_values(|t: String| t@).push(cur@) =~= split_slash(body.take(i as int)));
            }
            i = i + 1;
        }
        assert(body.take(cs.len() - 1) =~= body);
        let s = string_of(&cur);
        toks.push(s);
        let ghost raw = split_slash(body);
        assert(toks@.map_values(|t: String| t@) =~= raw);
        // Walk the document.
        let mut node: &Json = self;
        let mut k: usize = 0;
        assert(pointer_tokens(p@).skip(0) =~= pointer_tokens(p@));
        while k < toks.len()
            invariant
                k <= toks.len(),
                toks@.map_values(|t: String| t@) == raw,
                raw == split_slash(body),
                body == p@.drop_first(),
                p@.len() > 0 && p@[0] == '/',
                walk(*self, pointer_tokens(p@)) == walk(*node, pointer_tokens(p@).skip(k as int)),
            decreases toks.len() - k,
        {
            let ghost rest = pointer_tokens(p@).skip(k as int);
            let tv = chars_of(toks[k].as_str());
            let u1 = replace_pair_exec(&tv, '~', '1', '/');
            let u2 = replace_pair_exec(&u1, '~', '0', '~');
            assert(toks@[k as int]@ == raw[k as int]);
            assert(rest[0] == u2@);
            assert(rest.drop_first() =~= pointer_tokens(p@).skip(k + 1));
            let tok = string_of(&u2);
            match node {
                Json::Object(m) => {
                    match find_member(m, &tok) {
                        Some(v) => {
                            node = v;
                        },
                        None => {
                            return None;
                        },
                    }
                },
                Json::Array(items) => {
                    match parse_index_exec(&u2) {
                        Some(ix) => {
                            if ix < items.len() {
                                node = &items[ix];
                            } else {
                                return None;
                            }
                        },
                        None => {
                            return None;
                        },
                    }
                },
                _ => {
                    return None;
                },
            }
            k = k + 1;
        }
        assert(pointer_tokens(p@).skip(k as int).len() == 0);
        Some(node)
    }
}


// ---------------------------------------------------------------------------
// What a pointer finds
// ---------------------------------------------------------------------------

/// A key written as a pointer token: `~` as `~0` and `/` as `~1`.
pub open spec fn pointer_escape(k: Seq<char>) -> Seq<char>
    decreases k.len(),
{
    if k.len() == 0 {
        Seq::<char>::empty()
    } else if k[0] == '~' {
        seq!['~', '0'] + pointer_escape(k.drop_first())
    } else if k[0] == '/' {
        seq!['~', '1'] + pointer_escape(k.drop_first())
    } else {
        seq![k[0]] + pointer_escape(k.drop_first())
    }
}

/// A key with `~` written as `~0` and nothing else changed.
spec fn tilde_escape(k: Seq<char>) -> Seq<char>
    decreases k.len(),
{
    if k.len() == 0 {
        Seq::<char>::empty()
    } else if k[0] == '~' {
        seq!['~', '0'] + tilde_escape(k.drop_first())
    } else {
        seq![k[0]] + tilde_escape(k.drop_first())
    }
}

proof fn lemma_undo_slash(k: Seq<char>)
    ensures
        replace_pair(pointer_escape(k), '~', '1', '/') == tilde_escape(k),
    decreases k.len(),
{
    if k.len() > 0 {
        let rest = k.drop_first();
        lemma_undo_slash(rest);
        let e = pointer_escape(rest);
        if k[0] == '~' {
            let s = seq!['~', '0'] + e;
            let z = seq!['0'] + e;
            assert(s.drop_first() =~= z);
            assert(z.drop_first() =~= e);
            if e.len() == 0 {
                assert(replace_pair(e, '~', '1', '/') =~= e);
                assert(replace_pair(z, '~', '1', '/') == z);
                assert(z =~= seq!['0'] + replace_pair(e, '~', '1', '/'));
            } else {
                assert(z[0] == '0');
                assert(replace_pair(z, '~', '1', '/') == seq![z[0]] + replace_pair(z.drop_first(), '~', '1', '/'));
            }
            assert(replace_pair(z, '~', '1', '/') =~= seq!['0'] + replace_pair(e, '~', '1', '/'));
            assert(s[0] == '~' && s[1] == '0');
            assert(replace_pair(s, '~', '1', '/') == seq![s[0]] + replace_pair(s.drop_first(), '~', '1', '/'));
            assert(replace_pair(s, '~', '1', '/') =~= seq!['~', '0'] + replace_pair(e, '~', '1', '/'));
        } else if k[0] == '/' {
            let s = seq!['~', '1'] + e;
            assert(s.skip(2) =~= e);
            assert(replace_pair(s, '~', '1', '/') =~= seq!['/'] + replace_pair(e, '~', '1', '/'));
        } else {
            let s = seq![k[0]] + e;
            assert(s.drop_first() =~= e);
            if e.len() == 0 {
                assert(replace_pair(e, '~', '1', '/') =~= e);
                assert(s =~= seq![k[0]] + e);
            }
            assert(replace_pair(s, '~', '1', '/') =~= seq![k[0]] + replace_pair(e, '~', '1', '/'));
        }
    }
}

proof fn lemma_undo_tilde(k: Seq<char>)
    ensures
        replace_pair(tilde_escape(k), '~', '0', '~') == k,
    decreases k.len(),
{
    if k.len() > 0 {
        let rest = k.drop_first();
        lemma_undo_tilde(rest);
        let e = tilde_escape(rest);
        if k[0] == '~' {
            let s = seq!['~', '0'] + e;
            assert(s.skip(2) =~= e);
            assert(replace_pair(s, '~', '0', '~') =~= seq!['~'] + replace_pair(e, '~', '0', '~'));
        } else {
            let s = seq![k[0]] + e;
            assert(s.drop_first() =~= e);
            if e.len() == 0 {
                assert(replace_pair(e, '~', '0', '~') =~= e);
            }
            assert(replace_pair(s, '~', '0', '~') =~= seq![k[0]] + replace_pair(e, '~', '0', '~'));
        }
        assert(seq![k[0]] + rest =~= k);
    }
}

proof fn lemma_escape_has_no_slash(k: Seq<char>)
    ensures
        forall|i: int| 0 <= i < pointer_escape(k).len() ==> pointer_escape(k)[i] != '/',
    decreases k.len(),
{
    if k.len() > 0 {
        let rest = k.drop_first();
        lemma_escape_has_no_slash(rest);
        let e = pointer_escape(rest);
        let pe = pointer_escape(k);
        let h: Seq<char> = if k[0] == '~' {
            seq!['~', '0']
        } else if k[0] == '/' {
            seq!['~', '1']
        } else {
            seq![k[0]]
        };
        assert(pe == h + e);
        assert forall|i: int| 0 <= i < pe.len() implies pe[i] != '/' by {
            if i < h.len() {
                assert(pe[i] == h[i]);
            } else {
                assert(pe[i] == e[i - h.len()]);
            }
        }
    }
}

proof fn lemma_split_without_slash(s: Seq<char>)
    requires
        forall|i: int| 0 <= i < s.len() ==> s[i] != '/',
    ensures
        split_slash(s) == seq![s],
    decreases s.len(),
{
    if s.len() == 0 {
        assert(s =~= Seq::<char>::empty());
    } else {
        let p = s.drop_last();
        assert forall|i: int| 0 <= i < p.len() implies p[i] != '/' by {
            assert(p[i] == s[i]);
        }
        lemma_split_without_slash(p);
        assert(s.last() == s[s.len() - 1]);
        assert(s.last() != '/');
        let t = split_slash(p);
        assert(t == seq![p]);
        assert(p.push(s.last()) =~= s);
        assert(split_slash(s) == t.update(t.len() - 1, t.last().push(s.last())));
        assert(t.update(t.len() - 1, t.last().push(s.last())) =~= seq![s]);
    }
}

/// The pointer `/<key>`, with the key escaped, finds the member of a
/// well-formed object with that key.
pub proof fn law_pointer_finds_the_member(m: Vec<(String, Json)>, i: int)
    requires
        json_wf(Json::Object(m)),
        0 <= i < m@.len(),
    ensures
        lookup(Json::Object(m), seq!['/'] + pointer_escape(m@[i].0@)) == Some(m@[i].1),
{
    let k = m@[i].0@;
    let p = seq!['/'] + pointer_escape(k);
    assert(p.drop_first() =~= pointer_escape(k));
    lemma_escape_has_no_slash(k);
    lemma_split_without_slash(pointer_escape(k));
    lemma_undo_slash(k);
    lemma_undo_tilde(k);
    let toks = pointer_tokens(p);
    assert(toks =~= seq![k]);
    lemma_member_of_unique(m@, i);
    assert(toks.drop_first() =~= Seq::<Seq<char>>::empty());
    assert(p.len() > 0 && p[0] == '/');
    assert(lookup(Json::Object(m), p) == walk(Json::Object(m), toks));
    assert(member(m@, toks[0]) == Some(m@[i].1));
    assert(walk(m@[i].1, toks.drop_first()) == Some(m@[i].1));
}

proof fn lemma_digit_char(d: nat)
    requires
        d < 10,
    ensures
        digit_char(d) as int == 48 + d,
        is_digit(digit_char(d)),
        digit_char(d) != '/' && digit_char(d) != '~',
{
    assert((48 + d) as char as int == 48 + d);
}

pub proof fn lemma_decimal_index(n: nat)
    ensures
        decimal(n).len() > 0,
        all_digits(decimal(n)),
        digits_value(decimal(n)) == n,
        n >= 10 ==> decimal(n)[0] != '0',
        n < 10 ==> decimal(n).len() == 1,
        forall|i: int| 0 <= i < decimal(n).len() ==> decimal(n)[i] != '/' && decimal(n)[i] != '~',
    decreases n,
{
    lemma_digit_char(n % 10);
    if n < 10 {
        lemma_digit_char(n);
        assert(n % 10 == n);
        let d = decimal(n);
        assert(d.drop_last() =~= Seq::<char>::empty());
        assert(d.last() == digit_char(n));
        assert(digits_value(d) == digits_value(d.drop_last()) * 10 + ((d.last() as int - 48) as nat));
        assert(digits_value(d) == n);
    }
    if n >= 10 {
        lemma_decimal_index(n / 10);
        assert((n / 10) * 10 + n % 10 == n);
        let d = decimal(n);
        let p = decimal(n / 10);
        assert(d.drop_last() =~= p);
        assert(forall|i: int| 0 <= i < p.len() ==> d[i] == p[i]);
        assert((d.last() as int) - 48 == n % 10);
        assert(digits_value(d) == digits_value(d.drop_last()) * 10 + ((d.last() as int - 48) as nat));
        assert(digits_value(d) == n);
        assert forall|i: int| 0 <= i < d.len() implies d[i] != '/' && d[i] != '~' by {
            if i < p.len() {
                assert(d[i] == p[i]);
            }
        }
        assert(all_digits(d)) by {
            assert forall|i: int| 0 <= i < d.len() implies is_digit(#[trigger] d[i]) by {
                if i < p.len() {
                    assert(d[i] == p[i]);
                }
            }
        }
        if n / 10 >= 10 {
            assert(d[0] == p[0]);
        } else {
            assert(p[0] == digit_char(n / 10));
            assert(d[0] == p[0]);
        }
    }
}

proof fn lemma_no_tilde_unescaped(t: Seq<char>, a: char, b: char, r: char)
    requires
        forall|i: int| 0 <= i < t.len() ==> t[i] != a,
    ensures
        replace_pair(t, a, b, r) == t,
    decreases t.len(),
{
    if t.len() >= 2 {
        lemma_no_tilde_unescaped(t.drop_first(), a, b, r);
        assert(seq![t[0]] + t.drop_first() =~= t);
    }
}

/// The pointer `/<n>`, with `n` in decimal, finds the `n`-th item of an
/// array.
pub proof fn law_pointer_finds_the_item(v: Vec<Json>, n: int)
    requires
        0 <= n < v@.len(),
    ensures
        lookup(Json::Array(v), seq!['/'] + decimal(n as nat)) == Some(v@[n]),
{
    let d = decimal(n as nat);
    lemma_decimal_index(n as nat);
    let p = seq!['/'] + d;
    assert(p.drop_first() =~= d);
    lemma_split_without_slash(d);
    lemma_no_tilde_unescaped(d, '~', '1', '/');
    lemma_no_tilde_unescaped(d, '~', '0', '~');
    let toks = pointer_tokens(p);
    assert(toks =~= seq![d]);
    assert(v@.len() == v.len());
    assert(n <= usize::MAX);
    if n >= 10 {
        assert(d[0] != '0');
    }
    assert(parse_index(d) == Some(n as nat));
    assert(toks.drop_first() =~= Seq::<Seq<char>>::empty());
    assert(p.len() > 0 && p[0] == '/');
    assert(lookup(Json::Array(v), p) == walk(Json::Array(v), toks));
    assert(toks[0] == d);
    assert(walk(v@[n], toks.drop_first()) == Some(v@[n]));
}

// ---------------------------------------------------------------------------
// Equality
// ---------------------------------------------------------------------------

/// Whether `serde_json` reads two number texts as the same number: both
/// read and equal as `serde_json::Number`s, or neither read.
pub uninterp spec fn number_eq(a: Seq<char>, b: Seq<char>) -> bool;

/// Compares two number texts as `serde_json` does: each is read with
/// `serde_json::Number`'s `FromStr`, and the readings are compared with
/// `Number`'s `==` (an unread text counts as no number).
#[verifier::external_body]
fn same_number(a: &String, b: &String) -> (r: bool)
    ensures
        r == number_eq(a@, b@),
{
    a.parse::<serde_json::Number>().ok() == b.parse::<serde_json::Number>().ok()
}

/// JSON equality as `serde_json` defines it: same kind and same content;
/// numbers by the number they denote (the same text always denotes the same
/// number, and `serde_json`'s number equality is symmetric), so `1e2` equals
/// `100.0` but not `100`; arrays element by
/// element; objects of the same size, each member of the first found under
/// its key in the second with an equal value.
pub open spec fn json_eq(a: Json, b: Json) -> bool
    decreases a,
{
    match a {
        Json::Null => b is Null,
        Json::Bool(x) => b matches Json::Bool(y) && x == y,
        Json::Number(x) => b matches Json::Number(y) && (x@ == y@ || number_eq(x@, y@) || number_eq(y@, x@)),
        Json::String(x) => b matches Json::String(y) && x@ == y@,
        Json::Array(x) => match b {
            Json::Array(y) => x@.len() == y@.len() && forall|i: int|
                0 <= i < x@.len() ==> json_eq(#[trigger] x@[i], y@[i]),
            _ => false,
        },
        Json::Object(x) => match b {
            Json::Object(y) => x@.len() == y@.len() && forall|i: int|
                0 <= i < x@.len() ==> match member(y@, (#[trigger] x@[i]).0@) {
                    Some(v) => json_eq(x@[i].1, v),
                    None => false,
                },
            _ => false,
        },
    }
}

/// A JSON value as a JSON document can hold it: no object has two members
/// with the same key, at any depth.
pub open spec fn json_wf(j: Json) -> bool
    decreases j,
{
    match j {
        Json::Array(x) => forall|i: int| 0 <= i < x@.len() ==> json_wf(#[trigger] x@[i]),
        Json::Object(x) => (forall|i: int, k: int| 0 <= i < k < x@.len() ==> (#[trigger] x@[i]).0@ != (#[trigger] x@[k]).0@)
            && forall|i: int| 0 <= i < x@.len() ==> json_wf((#[trigger] x@[i]).1),
        _ => true,
    }
}

proof fn lemma_member_of_unique(entries: Seq<(String, Json)>, i: int)
    requires
        0 <= i < entries.len(),
        forall|a: int, b: int| 0 <= a < b < entries.len() ==> (#[trigger] entries[a]).0@ != (#[trigger] entries[b]).0@,
    ensures
        member(entries, entries[i].0@) == Some(entries[i].1),
{
    lemma_member_index(entries, entries[i].0@);
    let r = member_index(entries, entries[i].0@);
    if r >= 0 && r != i {
        if r < i {
            assert(entries[r].0@ != entries[i].0@);
        } else {
            assert(entries[i].0@ != entries[r].0@);
        }
    }
}

/// Every well-formed JSON value equals itself.
pub proof fn law_json_eq_reflexive(j: Json)
    requires
        json_wf(j),
    ensures
        json_eq(j, j),
    decreases j,
{
    match j {
        Json::Array(x) => {
            assert forall|i: int| 0 <= i < x@.len() implies json_eq(#[trigger] x@[i], x@[i]) by {
                law_json_eq_reflexive(x@[i]);
            }
        },
        Json::Object(x) => {
            assert forall|i: int| 0 <= i < x@.len() implies match member(x@, (#[trigger] x@[i]).0@) {
                Some(v) => json_eq(x@[i].1, v),
                None => false,
            } by {
                lemma_member_of_unique(x@, i);
                law_json_eq_reflexive(x@[i].1);
            }
        },
        _ => {},
    }
}

proof fn lemma_walk_respects_eq(a: Json, b: Json, toks: Seq<Seq<char>>)
    requires
        json_eq(a, b),
        walk(a, toks) is Some,
    ensures
        walk(b, toks) is Some,
        json_eq(walk(a, toks)->Some_0, walk(b, toks)->Some_0),
    decreases toks.len(),
{
    if toks.len() > 0 {
        match a {
            Json::Object(x) => {
                let y = b->Object_0;
                lemma_member_index(x@, toks[0]);
                let r = member_index(x@, toks[0]);
                assert(x@[r].0@ == toks[0]);
                let v = member(y@, x@[r].0@)->Some_0;
                lemma_walk_respects_eq(x@[r].1, v, toks.drop_first());
            },
            Json::Array(x) => {
                let y = b->Array_0;
                let i = parse_index(toks[0])->Some_0;
                assert(json_eq(x@[i as int], y@[i as int]));
                lemma_walk_respects_eq(x@[i as int], y@[i as int], toks.drop_first());
            },
            _ => {},
        }
    }
}

/// Equal documents answer every pointer alike: where one holds a value, the
/// other holds an equal one.
pub proof fn law_equal_documents_answer_pointers_alike(a: Json, b: Json, p: Seq<char>)
    requires
        json_eq(a, b),
        lookup(a, p) is Some,
    ensures
        lookup(b, p) is Some,
        json_eq(lookup(a, p)->Some_0, lookup(b, p)->Some_0),
{
    if p.len() > 0 {
        lemma_walk_respects_eq(a, b, pointer_tokens(p));
    }
}

/// The keys of object members, in order.
pub open spec fn member_keys(x: Seq<(String, Json)>) -> Seq<Seq<char>> {
    x.map_values(|p: (String, Json)| p.0@)
}

/// Whether some member has that key.
pub open spec fn has_key(x: Seq<(String, Json)>, key: Seq<char>) -> bool {
    exists|i: int| 0 <= i < x.len() && (#[trigger] x[i]).0@ == key
}

proof fn lemma_keys_no_duplicates(x: Seq<(String, Json)>)
    requires
        forall|a: int, b: int| 0 <= a < b < x.len() ==> (#[trigger] x[a]).0@ != (#[trigger] x[b]).0@,
    ensures
        member_keys(x).no_duplicates(),
        member_keys(x).len() == x.len(),
{
    let k = member_keys(x);
    assert forall|a: int, b: int| 0 <= a < k.len() && 0 <= b < k.len() && a != b implies k[a] != k[b] by {
        if a < b {
            assert(x[a].0@ != x[b].0@);
        } else {
            assert(x[b].0@ != x[a].0@);
        }
    }
}

/// Two member lists with distinct keys, of one length, where every key of
/// the first is a key of the second: every key of the second is a key of
/// the first.
proof fn lemma_keys_cover(x: Seq<(String, Json)>, y: Seq<(String, Json)>)
    requires
        x.len() == y.len(),
        forall|a: int, b: int| 0 <= a < b < x.len() ==> (#[trigger] x[a]).0@ != (#[trigger] x[b]).0@,
        forall|a: int, b: int| 0 <= a < b < y.len() ==> (#[trigger] y[a]).0@ != (#[trigger] y[b]).0@,
        forall|i: int| 0 <= i < x.len() ==> has_key(y, (#[trigger] x[i]).0@),
    ensures
        forall|j: int| 0 <= j < y.len() ==> has_key(x, (#[trigger] y[j]).0@),
{
    broadcast use vstd::seq_lib::seq_to_set_is_finite;
    let kx = member_keys(x);
    let ky = member_keys(y);
    lemma_keys_no_duplicates(x);
    lemma_keys_no_duplicates(y);
    kx.unique_seq_to_set();
    ky.unique_seq_to_set();
    assert forall|s: Seq<char>| kx.to_set().contains(s) implies ky.to_set().contains(s) by {
        let i = choose|i: int| 0 <= i < kx.len() && kx[i] == s;
        assert(x[i].0@ == s);
        assert(has_key(y, x[i].0@));
        let j = choose|j: int| 0 <= j < y.len() && (#[trigger] y[j]).0@ == x[i].0@;
        assert(ky[j] == s);
    }
    vstd::set_lib::lemma_subset_equality(kx.to_set(), ky.to_set());
    assert forall|j: int| 0 <= j < y.len() implies has_key(x, (#[trigger] y[j]).0@) by {
        assert(ky[j] == y[j].0@);
        assert(ky.to_set().contains(ky[j]));
        assert(kx.to_set().contains(ky[j]));
        let i = choose|i: int| 0 <= i < kx.len() && kx[i] == ky[j];
        assert(x[i].0@ == y[j].0@);
    }
}

/// Objects that are equal have the same keys: as many members, and every
/// key of either is a key of the other.
pub proof fn law_equal_objects_have_the_same_keys(x: Vec<(String, Json)>, y: Vec<(String, Json)>)
    requires
        json_wf(Json::Object(x)),
        json_wf(Json::Object(y)),
        json_eq(Json::Object(x), Json::Object(y)),
    ensures
        x@.len() == y@.len(),
        forall|i: int| 0 <= i < x@.len() ==> has_key(y@, (#[trigger] x@[i]).0@),
        forall|j: int| 0 <= j < y@.len() ==> has_key(x@, (#[trigger] y@[j]).0@),
{
    assert forall|i: int| 0 <= i < x@.len() implies has_key(y@, (#[trigger] x@[i]).0@) by {
        lemma_member_index(y@, x@[i].0@);
        let r = member_index(y@, x@[i].0@);
        assert(y@[r].0@ == x@[i].0@);
    }
    lemma_keys_cover(x@, y@);
}

/// JSON equality of well-formed values is symmetric.
pub proof fn law_json_eq_symmetric(a: Json, b: Json)
    requires
        json_wf(a),
        json_wf(b),
    ensures
        json_eq(a, b) == json_eq(b, a),
{
    if json_eq(a, b) {
        lemma_json_eq_flip(a, b);
    }
    if json_eq(b, a) {
        lemma_json_eq_flip(b, a);
    }
}

proof fn lemma_json_eq_flip(a: Json, b: Json)
    requires
        json_wf(a),
        json_wf(b),
        json_eq(a, b),
    ensures
        json_eq(b, a),
    decreases a,
{
    match a {
        Json::Array(x) => {
            let y = b->Array_0;
            assert forall|i: int| 0 <= i < y@.len() implies json_eq(#[trigger] y@[i], x@[i]) by {
                assert(json_eq(x@[i], y@[i]));
                lemma_json_eq_flip(x@[i], y@[i]);
            }
        },
        Json::Object(x) => {
            let y = b->Object_0;
            law_equal_objects_have_the_same_keys(x, y);
            assert forall|j: int| 0 <= j < y@.len() implies match member(x@, (#[trigger] y@[j]).0@) {
                Some(w) => json_eq(y@[j].1, w),
                None => false,
            } by {
                assert(has_key(x@, y@[j].0@));
                let i = choose|i: int| 0 <= i < x@.len() && (#[trigger] x@[i]).0@ == y@[j].0@;
                lemma_flip_member(x, y, i, j);
                lemma_json_eq_flip(x@[i].1, y@[j].1);
            }
        },
        _ => {},
    }
}

proof fn lemma_flip_member(x: Vec<(String, Json)>, y: Vec<(String, Json)>, i: int, j: int)
    requires
        json_wf(Json::Object(x)),
        json_wf(Json::Object(y)),
        json_eq(Json::Object(x), Json::Object(y)),
        0 <= i < x@.len(),
        0 <= j < y@.len(),
        x@[i].0@ == y@[j].0@,
    ensures
        member(x@, y@[j].0@) == Some(x@[i].1),
        json_eq(x@[i].1, y@[j].1),
        json_wf(x@[i].1),
        json_wf(y@[j].1),
{
    lemma_member_of_unique(x@, i);
    lemma_member_of_unique(y@, j);
}

/// What a pointer finds in a well-formed value is well formed.
pub proof fn lemma_walk_wf(j: Json, toks: Seq<Seq<char>>)
    requires
        json_wf(j),
        walk(j, toks) is Some,
    ensures
        json_wf(walk(j, toks)->Some_0),
    decreases toks.len(),
{
    if toks.len() > 0 {
        match j {
            Json::Object(m) => {
                lemma_member_index(m@, toks[0]);
                let r = member_index(m@, toks[0]);
                assert(json_wf(m@[r].1));
                lemma_walk_wf(m@[r].1, toks.drop_first());
            },
            Json::Array(v) => {
                let i = parse_index(toks[0])->Some_0;
                assert(json_wf(v@[i as int]));
                lemma_walk_wf(v@[i as int], toks.drop_first());
            },
            _ => {},
        }
    }
}

/// What a pointer finds in a well-formed document is well formed.
pub proof fn lemma_lookup_wf(j: Json, p: Seq<char>)
    requires
        json_wf(j),
        lookup(j, p) is Some,
    ensures
        json_wf(lookup(j, p)->Some_0),
{
    if p.len() > 0 {
        lemma_walk_wf(j, pointer_tokens(p));
    }
}

// ---------------------------------------------------------------------------
// Compact text, as `serde_json` writes it
// ---------------------------------------------------------------------------

#[verifier::external_type_specification]
#[verifier::external_body]
pub struct ExJsonValue(JsonValue);

/// Converts a document to a `serde_json::Value`, item by item and member by
/// member; a number is read back from its text (text that `serde_json` does
/// not read as a number becomes `null`).
#[verifier::external_body]
fn to_value(j: &Json) -> JsonValue {
    match j {
        Json::Null => JsonValue::Null,
        Json::Bool(b) => JsonValue::Bool(*b),
        Json::Number(t) => t.parse::<serde_json::Number>().map_or(JsonValue::Null, JsonValue::Number),
        Json::String(s) => JsonValue::String(s.clone()),
        Json::Array(v) => JsonValue::Array(v.iter().map(to_value).collect()),
        Json::Object(m) => JsonValue::Object(m.iter().map(|(k, v)| (k.clone(), to_value(v))).collect()),
    }
}

/// The compact JSON text that `serde_json`'s `Display` writes for a
/// document.
pub uninterp spec fn json_text(j: JsonView) -> Seq<char>;

/// `serde_json::Value`'s `Display` (through `to_string`): the compact JSON
/// text of the document, which depends on the document alone.
#[verifier::external_body]
fn json_text_of(j: &Json) -> (s: String)
    ensures
        s@ == json_text(j@),
{
    to_value(j).to_string()
}

impl Json {
    /// Structural equality, as [`json_eq`] states it.
    #[verifier::loop_isolation(false)]
    pub fn equals(&self, other: &Json) -> (r: bool)
        ensures
            r == json_eq(*self, *other),
        decreases self,
    {
        match self {
            Json::Null => matches!(other, Json::Null),
            Json::Bool(x) => match other {
                Json::Bool(y) => *x == *y,
                _ => false,
            },
            Json::Number(x) => match other {
                Json::Number(y) => *x == *y || same_number(x, y) || same_number(y, x),
                _ => false,
            },
            Json::String(x) => match other {
                Json::String(y) => *x == *y,
                _ => false,
            },
            Json::Array(xs) => match other {
                Json::Array(ys) => {
                    if xs.len() != ys.len() {
                        return false;
                    }
                    for i in 0..xs.len()
                        invariant
                            xs@.len() == ys@.len(),
                            forall|j: int| 0 <= j < i ==> json_eq(#[trigger] xs@[j], ys@[j]),
                    {
                        if !xs[i].equals(&ys[i]) {
                            return false;
                        }
                    }
                    true
                },
                _ => false,
            },
            Json::Object(xs) => match other {
                Json::Object(ys) => {
                    if xs.len() != ys.len() {
                        return false;
                    }
                    for i in 0..xs.len()
                        invariant
                            xs@.len() == ys@.len(),
                            forall|j: int|
                                0 <= j < i ==> match member(ys@, (#[trigger] xs@[j]).0@) {
                                    Some(v) => json_eq(xs@[j].1, v),
                                    None => false,
                                },
                    {
                        match find_member(ys, &xs[i].0) {
                            Some(v) => {
                                if !xs[i].1.equals(v) {
                                    return false;
                                }
                            },
                            None => {
                                return false;
                            },
                        }
                    }
                    true
                },
                _ => false,
            },
        }
    }

    /// Appends the compact JSON text of this value.
    pub fn write_to(&self, out: &mut String)
        ensures
            final(out)@ == old(out)@ + json_text(self@),
    {
        let t = json_text_of(self);
        out.append(t.as_str());
    }

    /// The compact JSON text of this value.
    pub fn to_json_string(&self) -> (r: String)
        ensures
            r@ == json_text(self@),
    {
        json_text_of(self)
    }
}

impl Clone for Json {
    /// A deep copy.
    #[verifier::loop_isolation(false)]
    fn clone(&self) -> (r: Json)
        ensures
            r@ == self@,
        decreases self,
    {
        match self {
            Json::Null => Json::Null,
            Json::Bool(b) => Json::Bool(*b),
            Json::Number(t) => Json::Number(t.clone()),
            Json::String(t) => Json::String(t.clone()),
            Json::Array(items) => {
                let mut out: Vec<Json> = Vec::new();
                for i in 0..items.len()
                    invariant
                        *self == Json::Array(*items),
                        json_views(out@) == json_views(items@.take(i as int)),
                {
                    assert(items@.take(i + 1).drop_last() =~= items@.take(i as int));
                    let x = items[i].clone();
                    proof { let o = out@; assert(out@.push(x).drop_last() =~= o); }
                    out.push(x);
                }
                assert(items@.take(items.len() as int) =~= items@);
                Json::Array(out)
            },
            Json::Object(m) => {
                let mut out: Vec<(String, Json)> = Vec::new();
                for i in 0..m.len()
                    invariant
                        *self == Json::Object(*m),
                        member_views(out@) == member_views(m@.take(i as int)),
                {
                    assert(m@.take(i + 1).drop_last() =~= m@.take(i as int));
                    let k = m[i].0.clone();
                    let v = m[i].1.clone();
                    proof { let o = out@; assert(out@.push((k, v)).drop_last() =~= o); }
                    out.push((k, v));
                }
                assert(m@.take(m.len() as int) =~= m@);
                Json::Object(out)
            },
        }
    }
}

} // verus!
