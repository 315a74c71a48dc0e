//! S-expressions of the lava source language and a reader for them.
//!
//! Syntax: `(` and `)` delimit lists; `"…"` is a string, in which `\n`,
//! `\t` and `\r` stand for newline, tab and carriage return and a backslash
//! before any other character stands for that character; `;` starts a
//! comment that runs to the end of the line; spaces, tabs, newlines and
//! carriage returns separate atoms. Any other run of characters is an atom:
//! `#t` and `#f` are booleans, `:name` is a keyword, an optional `-` followed
//! by decimal digits is an integer (it must fit in 64 signed bits), and
//! anything else is a symbol.

use vstd::prelude::*;
use crate::text::{chars_of, string_of, all_digits, is_digit, digits_value, lemma_digits_value_prefix, int_text, push_char, push_int, decimal};

verus! {

/// An atom.
#[derive(Debug)]
pub enum Atom {
    Sym(String),
    Str(String),
    Int(i64),
    Bool(bool),
    Kw(String),
}

/// An s-expression: an atom or a list.
#[derive(Debug)]
pub enum Sx {
    Atom(Atom),
    List(Vec<Sx>),
}

/// Why source text could not be read.
#[derive(Debug, Clone, Copy, PartialEq, Eq)]
pub enum ReadError {
    /// A `)` with no open list.
    UnexpectedClose,
    /// Input ended inside a list.
    UnclosedList,
    /// Input ended inside a string.
    UnterminatedString,
    /// An integer atom outside the 64-bit signed range.
    IntegerOutOfRange,
}

/// The mathematical value of an s-expression.
pub enum SxView {
    Sym(Seq<char>),
    Str(Seq<char>),
    Int(int),
    Bool(bool),
    Kw(Seq<char>),
    List(Seq<SxView>),
}

pub open spec fn atom_view(a: Atom) -> SxView {
    match a {
        Atom::Sym(s) => SxView::Sym(s@),
        Atom::Str(s) => SxView::Str(s@),
        Atom::Int(n) => SxView::Int(n as int),
        Atom::Bool(b) => SxView::Bool(b),
        Atom::Kw(s) => SxView::Kw(s@),
    }
}

pub open spec fn sx_view(x: Sx) -> SxView
    decreases x,
{
    match x {
        Sx::Atom(a) => atom_view(a),
        Sx::List(v) => SxView::List(sx_views(v@)),
    }
}

pub open spec fn sx_views(s: Seq<Sx>) -> Seq<SxView>
    decreases s,
{
    if s.len() == 0 {
        Seq::<SxView>::empty()
    } else {
        sx_views(s.drop_last()).push(sx_view(s.last()))
    }
}

pub proof fn lemma_sx_views(s: Seq<Sx>)
    ensures
        sx_views(s).len() == s.len(),
        forall|i: int| 0 <= i < s.len() ==> #[trigger] sx_views(s)[i] == sx_view(s[i]),
    decreases s.len(),
{
    if s.len() > 0 {
        lemma_sx_views(s.drop_last());
    }
}

fn copy_atom(a: &Atom) -> (r: Atom)
    ensures
        atom_view(r) == atom_view(*a),
{
    match a {
        Atom::Sym(s) => Atom::Sym(s.clone()),
        Atom::Str(s) => Atom::Str(s.clone()),
        Atom::Int(n) => Atom::Int(*n),
        Atom::Bool(b) => Atom::Bool(*b),
        Atom::Kw(s) => Atom::Kw(s.clone()),
    }
}

impl Clone for Atom {
    fn clone(&self) -> (r: Atom)
        ensures
            atom_view(r) == atom_view(*self),
    {
        copy_atom(self)
    }
}

impl Clone for Sx {
    /// A deep copy.
    #[verifier::loop_isolation(false)]
    fn clone(&self) -> (r: Sx)
        ensures
            r@ == self@,
        decreases self,
    {
        match self {
            Sx::Atom(a) => Sx::Atom(copy_atom(a)),
            Sx::List(v) => {
                let mut out: Vec<Sx> = Vec::new();
                for i in 0..v.len()
                    invariant
                        *self == Sx::List(*v),
                        sx_views(out@) == sx_views(v@.take(i as int)),
                {
                    assert(v@.take(i + 1).drop_last() =~= v@.take(i as int));
                    let x = v[i].clone();
                    proof { let o = out@; assert(out@.push(x).drop_last() =~= o); }
                    out.push(x);
                }
                assert(v@.take(v.len() as int) =~= v@);
                Sx::List(out)
            },
        }
    }
}

impl View for Sx {
    type V = SxView;

    open spec fn view(&self) -> SxView {
        sx_view(*self)
    }
}

// ---------------------------------------------------------------------------
// Accessors
// ---------------------------------------------------------------------------

pub open spec fn sym_of(x: SxView) -> Option<Seq<char>> {
    match x {
        SxView::Sym(s) => Some(s),
        _ => None,
    }
}

pub open spec fn str_of(x: SxView) -> Option<Seq<char>> {
    match x {
        SxView::Str(s) => Some(s),
        _ => None,
    }
}

pub open spec fn kw_of(x: SxView) -> Option<Seq<char>> {
    match x {
        SxView::Kw(s) => Some(s),
        _ => None,
    }
}

pub open spec fn int_of(x: SxView) -> Option<int> {
    match x {
        SxView::Int(n) => Some(n),
        _ => None,
    }
}

pub open spec fn list_of(x: SxView) -> Option<Seq<SxView>> {
    match x {
        SxView::List(xs) => Some(xs),
        _ => None,
    }
}

pub open spec fn opt_string_view(o: Option<&String>) -> Option<Seq<char>> {
    match o {
        Some(s) => Some(s@),
        None => None,
    }
}

impl Sx {
    /// The symbol's name, when this is a symbol.
    pub fn as_sym(&self) -> (r: Option<&String>)
        ensures
            opt_string_view(r) == sym_of(self@),
    {
        match self {
            Sx::Atom(Atom::Sym(s)) => Some(s),
            _ => None,
        }
    }

    /// The string's text, when this is a string.
    pub fn as_str(&self) -> (r: Option<&String>)
        ensures
            opt_string_view(r) == str_of(self@),
    {
        match self {
            Sx::Atom(Atom::Str(s)) => Some(s),
            _ => None,
        }
    }

    /// The keyword's name (without `:`), when this is a keyword.
    pub fn as_kw(&self) -> (r: Option<&String>)
        ensures
            opt_string_view(r) == kw_of(self@),
    {
        match self {
            Sx::Atom(Atom::Kw(s)) => Some(s),
            _ => None,
        }
    }

    /// The integer, when this is an integer.
    pub fn as_int(&self) -> (r: Option<i64>)
        ensures
            match r {
                Some(n) => int_of(self@) == Some(n as int),
                None => int_of(self@) is None,
            },
    {
        match self {
            Sx::Atom(Atom::Int(n)) => Some(*n),
            _ => None,
        }
    }

    /// The items, when this is a list.
    pub fn as_list(&self) -> (r: Option<&Vec<Sx>>)
        ensures
            match r {
                Some(v) => list_of(self@) == Some(sx_views(v@)),
                None => list_of(self@) is None,
            },
    {
        match self {
            Sx::List(v) => Some(v),
            _ => None,
        }
    }
}

// ---------------------------------------------------------------------------
// The reader, stated as a left fold over the characters
// ---------------------------------------------------------------------------

/// Where the reader is within the text.
#[derive(Debug, Clone, Copy)]
pub enum ReadMode {
    Between,
    InAtom,
    InStr,
    InStrEscape,
    InComment,
}

/// The reader's state after some prefix of the text: the mode, the text of
/// the atom or string being read, the stack of open lists (the bottom one
/// collects the top-level forms) and the first error met.
pub struct ReadState {
    pub mode: ReadMode,
    pub buf: Seq<char>,
    pub stack: Seq<Seq<SxView>>,
    pub err: Option<ReadError>,
}

pub open spec fn is_space(c: char) -> bool {
    c == ' ' || c == '\t' || c == '\n' || c == '\r'
}

pub open spec fn is_delim(c: char) -> bool {
    is_space(c) || c == '(' || c == ')' || c == '"' || c == ';'
}

pub open spec fn is_int_text(t: Seq<char>) -> bool {
    (t.len() >= 1 && all_digits(t)) || (t.len() >= 2 && t[0] == '-' && all_digits(t.drop_first()))
}

pub open spec fn int_value(t: Seq<char>) -> int {
    if t[0] == '-' {
        -(digits_value(t.drop_first()) as int)
    } else {
        digits_value(t) as int
    }
}

/// What an atom's text denotes.
pub open spec fn classify(t: Seq<char>) -> Result<SxView, ReadError> {
    if t == seq!['#', 't'] {
        Ok(SxView::Bool(true))
    } else if t == seq!['#', 'f'] {
        Ok(SxView::Bool(false))
    } else if t.len() > 0 && t[0] == ':' {
        Ok(SxView::Kw(t.drop_first()))
    } else if is_int_text(t) {
        if i64::MIN <= int_value(t) <= i64::MAX {
            Ok(SxView::Int(int_value(t)))
        } else {
            Err(ReadError::IntegerOutOfRange)
        }
    } else {
        Ok(SxView::Sym(t))
    }
}

pub open spec fn unescape_char(c: char) -> char {
    if c == 'n' {
        '\n'
    } else if c == 't' {
        '\t'
    } else if c == 'r' {
        '\r'
    } else {
        c
    }
}

pub open spec fn push_top(st: Seq<Seq<SxView>>, x: SxView) -> Seq<Seq<SxView>> {
    st.update(st.len() - 1, st.last().push(x))
}

pub open spec fn step_between(s: ReadState, c: char) -> ReadState {
    if is_space(c) {
        s
    } else if c == ';' {
        ReadState { mode: ReadMode::InComment, ..s }
    } else if c == '(' {
        ReadState { stack: s.stack.push(Seq::<SxView>::empty()), ..s }
    } else if c == ')' {
        if s.stack.len() <= 1 {
            ReadState { err: Some(ReadError::UnexpectedClose), ..s }
        } else {
            ReadState { stack: push_top(s.stack.drop_last(), SxView::List(s.stack.last())), ..s }
        }
    } else if c == '"' {
        ReadState { mode: ReadMode::InStr, buf: Seq::<char>::empty(), ..s }
    } else {
        ReadState { mode: ReadMode::InAtom, buf: seq![c], ..s }
    }
}

pub open spec fn finish_atom(s: ReadState) -> ReadState {
    match classify(s.buf) {
        Ok(x) => ReadState {
            mode: ReadMode::Between,
            buf: Seq::<char>::empty(),
            stack: push_top(s.stack, x),
            err: s.err,
        },
        Err(e) => ReadState { err: Some(e), ..s },
    }
}

/// One character of input.
pub open spec fn step(s: ReadState, c: char) -> ReadState {
    if s.err is Some {
        s
    } else {
        match s.mode {
            ReadMode::Between => step_between(s, c),
            ReadMode::InAtom => if is_delim(c) {
                let f = finish_atom(s);
                if f.err is Some {
                    f
                } else {
                    step_between(f, c)
                }
            } else {
                ReadState { buf: s.buf.push(c), ..s }
            },
            ReadMode::InStr => if c == '"' {
                ReadState {
                    mode: ReadMode::Between,
                    buf: Seq::<char>::empty(),
                    stack: push_top(s.stack, SxView::Str(s.buf)),
                    ..s
                }
            } else if c == '\\' {
                ReadState { mode: ReadMode::InStrEscape, ..s }
            } else {
                ReadState { buf: s.buf.push(c), ..s }
            },
            ReadMode::InStrEscape => ReadState {
                mode: ReadMode::InStr,
                buf: s.buf.push(unescape_char(c)),
                ..s
            },
            ReadMode::InComment => if c == '\n' {
                ReadState { mode: ReadMode::Between, ..s }
            } else {
                s
            },
        }
    }
}

pub open spec fn initial_state() -> ReadState {
    ReadState {
        mode: ReadMode::Between,
        buf: Seq::<char>::empty(),
        stack: seq![Seq::<SxView>::empty()],
        err: None,
    }
}

/// The reader's state after all of `s`.
pub open spec fn read_state(s: Seq<char>) -> ReadState
    decreases s.len(),
{
    if s.len() == 0 {
        initial_state()
    } else {
        step(read_state(s.drop_last()), s.last())
    }
}

/// What reading all of `s` gives: the top-level forms, or the first error.
pub open spec fn read_all(s: Seq<char>) -> Result<Seq<SxView>, ReadError> {
    let st = read_state(s);
    let f = match st.mode {
        ReadMode::InAtom => if st.err is Some { st } else { finish_atom(st) },
        ReadMode::InStr => ReadState { err: if st.err is Some { st.err } else { Some(ReadError::UnterminatedString) }, ..st },
        ReadMode::InStrEscape => ReadState { err: if st.err is Some { st.err } else { Some(ReadError::UnterminatedString) }, ..st },
        _ => st,
    };
    match f.err {
        Some(e) => Err(e),
        None => if f.stack.len() != 1 {
            Err(ReadError::UnclosedList)
        } else {
            Ok(f.stack[0])
        },
    }
}

proof fn lemma_err_sticks(s: Seq<char>, i: int)
    requires
        0 <= i <= s.len(),
        read_state(s.take(i)).err is Some,
    ensures
        read_state(s).err == read_state(s.take(i)).err,
        read_state(s).mode == read_state(s.take(i)).mode,
    decreases s.len(),
{
    if i < s.len() {
        assert(s.drop_last().take(i) =~= s.take(i));
        lemma_err_sticks(s.drop_last(), i);
    } else {
        assert(s.take(i) =~= s);
    }
}


// ---------------------------------------------------------------------------
// The reader, executed
// ---------------------------------------------------------------------------

pub open spec fn stack_views(st: Seq<Vec<Sx>>) -> Seq<Seq<SxView>> {
    Seq::new(st.len(), |i: int| sx_views(st[i]@))
}

pub open spec fn state_of(mode: ReadMode, buf: Seq<char>, stack: Seq<Vec<Sx>>) -> ReadState {
    ReadState { mode: mode, buf: buf, stack: stack_views(stack), err: None }
}

fn push_onto_top(stack: &mut Vec<Vec<Sx>>, x: Sx)
    requires
        old(stack).len() >= 1,
    ensures
        final(stack).len() == old(stack).len(),
        stack_views(final(stack)@) == push_top(stack_views(old(stack)@), x@),
{
    let mut top = stack.pop().unwrap();
    let ghost t = top@;
    top.push(x);
    assert(top@.drop_last() =~= t);
    stack.push(top);
    assert(stack_views(stack@) =~= push_top(stack_views(old(stack)@), x@));
}

/// A string of the characters of `t` from `start` on.
fn string_from(t: &Vec<char>, start: usize) -> (s: String)
    requires
        start <= t.len(),
    ensures
        s@ == t@.skip(start as int),
{
    let mut cs: Vec<char> = Vec::new();
    for i in start..t.len()
        invariant
            start <= t.len(),
            cs@ == t@.subrange(start as int, i as int),
    {
        cs.push(t[i]);
        assert(cs@ =~= t@.subrange(start as int, i + 1));
    }
    assert(t@.subrange(start as int, t.len() as int) =~= t@.skip(start as int));
    string_of(&cs)
}

/// Reads the digits of `t` from `start` on: `None` when they are not a
/// non-empty run of decimal digits, `Some(None)` when their value does not
/// fit in 64 unsigned bits.
fn parse_digits(t: &Vec<char>, start: usize) -> (r: Option<Option<u64>>)
    requires
        start <= t.len(),
    ensures
        ({
            let u = t@.skip(start as int);
            match r {
                None => !(u.len() >= 1 && all_digits(u)),
                Some(None) => u.len() >= 1 && all_digits(u) && digits_value(u) > u64::MAX,
                Some(Some(v)) => u.len() >= 1 && all_digits(u) && v == digits_value(u),
            }
        }),
{
    let ghost u = t@.skip(start as int);
    if start >= t.len() {
        return None;
    }
    let mut v: u64 = 0;
    let mut over = false;
    let mut i: usize = start;
    while i < t.len()
        invariant
            start <= i <= t.len(),
            u == t@.skip(start as int),
            all_digits(u.take(i - start)),
            !over ==> v == digits_value(u.take(i - start)),
            over ==> digits_value(u.take(i - start)) > u64::MAX,
        decreases t.len() - i,
    {
        let c = t[i];
        assert(u[i - start] == c);
        if !('0' <= c && c <= '9') {
            assert(!all_digits(u));
            return None;
        }
        let ghost pre = u.take(i - start);
        assert(u.take(i - start + 1).drop_last() =~= pre);
        assert(all_digits(u.take(i - start + 1))) by {
            assert forall|k: int| 0 <= k < i - start + 1 implies is_digit(#[trigger] u.take(i - start + 1)[k]) by {
                if k < i - start {
                    assert(u.take(i - start + 1)[k] == pre[k]);
                }
            }
        }
        let d: u64 = ((c as u32) - 48) as u64;
        if !over {
            if v > (u64::MAX - d) / 10 {
                assert(v * 10 + d > u64::MAX) by (nonlinear_arith)
                    requires v > (u64::MAX - d) / 10, d <= 9;
                over = true;
            } else {
                assert(v * 10 + d <= u64::MAX) by (nonlinear_arith)
                    requires v <= (u64::MAX - d) / 10, d <= 9;
                v = v * 10 + d;
            }
        } else {
            assert(digits_value(u.take(i - start + 1)) >= digits_value(pre)) by (nonlinear_arith)
                requires digits_value(u.take(i - start + 1)) == digits_value(pre) * 10 + ((c as int - 48) as nat);
        }
        i = i + 1;
    }
    assert(u.take(i - start) =~= u);
    if over {
        Some(None)
    } else {
        Some(Some(v))
    }
}

/// What an atom's text denotes, as [`classify`] states it.
fn classify_exec(buf: &Vec<char>) -> (r: Result<Sx, ReadError>)
    ensures
        match r {
            Ok(x) => classify(buf@) == Ok::<SxView, ReadError>(x@),
            Err(e) => classify(buf@) == Err::<SxView, ReadError>(e),
        },
{
    let n = buf.len();
    if n == 2 && buf[0] == '#' && buf[1] == 't' {
        assert(buf@ =~= seq!['#', 't']);
        return Ok(Sx::Atom(Atom::Bool(true)));
    }
    if n == 2 && buf[0] == '#' && buf[1] == 'f' {
        assert(buf@ =~= seq!['#', 'f']);
        return Ok(Sx::Atom(Atom::Bool(false)));
    }
    assert(buf@ != seq!['#', 't'] && buf@ != seq!['#', 'f']) by {
        if buf@ == seq!['#', 't'] || buf@ == seq!['#', 'f'] {
            assert(buf@.len() == 2 && buf@[0] == '#');
        }
    }
    if n > 0 && buf[0] == ':' {
        let k = string_from(buf, 1);
        assert(buf@.skip(1) =~= buf@.drop_first());
        return Ok(Sx::Atom(Atom::Kw(k)));
    }
    let neg = n > 0 && buf[0] == '-';
    let start: usize = if neg { 1 } else { 0 };
    assert(buf@.skip(0) =~= buf@);
    assert(buf@.skip(1) =~= buf@.drop_first());
    match parse_digits(buf, start) {
        None => {
            if neg {
                assert(!all_digits(buf@)) by { assert(!is_digit(buf@[0])); }
            } else if n > 0 {
                assert(buf@[0] != '-');
            }
            Ok(Sx::Atom(Atom::Sym(string_of(buf))))
        },
        Some(None) => {
            if !neg && n > 0 {
                assert(buf@[0] != '-');
            }
            Err(ReadError::IntegerOutOfRange)
        },
        Some(Some(v)) => {
            if neg {
                assert(buf@[0] == '-');
                if v > 9223372036854775808u64 {
                    Err(ReadError::IntegerOutOfRange)
                } else if v == 9223372036854775808u64 {
                    Ok(Sx::Atom(Atom::Int(i64::MIN)))
                } else {
                    let w: i64 = v as i64;
                    Ok(Sx::Atom(Atom::Int(-w)))
                }
            } else {
                if n > 0 {
                    assert(buf@[0] != '-');
                }
                if v > 9223372036854775807u64 {
                    Err(ReadError::IntegerOutOfRange)
                } else {
                    Ok(Sx::Atom(Atom::Int(v as i64)))
                }
            }
        },
    }
}

fn step_between_exec(buf: &mut Vec<char>, stack: &mut Vec<Vec<Sx>>, c: char) -> (r: Result<ReadMode, ReadError>)
    requires
        old(stack).len() >= 1,
    ensures
        ({
            let s = step_between(state_of(ReadMode::Between, old(buf)@, old(stack)@), c);
            match r {
                Ok(m) => s == state_of(m, final(buf)@, final(stack)@) && final(stack).len() >= 1,
                Err(e) => s.err == Some(e),
            }
        }),
{
    if c == ' ' || c == '\t' || c == '\n' || c == '\r' {
        Ok(ReadMode::Between)
    } else if c == ';' {
        Ok(ReadMode::InComment)
    } else if c == '(' {
        stack.push(Vec::new());
        assert(stack_views(stack@) =~= stack_views(old(stack)@).push(Seq::<SxView>::empty())) by {
            assert(sx_views(Seq::<Sx>::empty()) =~= Seq::<SxView>::empty());
        }
        Ok(ReadMode::Between)
    } else if c == ')' {
        if stack.len() <= 1 {
            Err(ReadError::UnexpectedClose)
        } else {
            let top = stack.pop().unwrap();
            assert(stack_views(stack@) =~= stack_views(old(stack)@).drop_last());
            push_onto_top(stack, Sx::List(top));
            Ok(ReadMode::Between)
        }
    } else if c == '"' {
        buf.clear();
        assert(buf@ =~= Seq::<char>::empty());
        Ok(ReadMode::InStr)
    } else {
        buf.clear();
        buf.push(c);
        assert(buf@ =~= seq![c]);
        Ok(ReadMode::InAtom)
    }
}

fn step_exec(mode: ReadMode, buf: &mut Vec<char>, stack: &mut Vec<Vec<Sx>>, c: char) -> (r: Result<ReadMode, ReadError>)
    requires
        old(stack).len() >= 1,
    ensures
        ({
            let s = step(state_of(mode, old(buf)@, old(stack)@), c);
            match r {
                Ok(m) => s == state_of(m, final(buf)@, final(stack)@) && final(stack).len() >= 1,
                Err(e) => s.err == Some(e),
            }
        }),
{
    match mode {
        ReadMode::Between => step_between_exec(buf, stack, c),
        ReadMode::InAtom => {
            if c == ' ' || c == '\t' || c == '\n' || c == '\r' || c == '(' || c == ')' || c == '"'
                || c == ';' {
                match classify_exec(buf) {
                    Ok(x) => {
                        push_onto_top(stack, x);
                        buf.clear();
                        assert(buf@ =~= Seq::<char>::empty());
                        step_between_exec(buf, stack, c)
                    },
                    Err(e) => Err(e),
                }
            } else {
                buf.push(c);
                Ok(ReadMode::InAtom)
            }
        },
        ReadMode::InStr => {
            if c == '"' {
                let s = string_of(buf);
                push_onto_top(stack, Sx::Atom(Atom::Str(s)));
                buf.clear();
                assert(buf@ =~= Seq::<char>::empty());
                Ok(ReadMode::Between)
            } else if c == '\\' {
                Ok(ReadMode::InStrEscape)
            } else {
                buf.push(c);
                Ok(ReadMode::InStr)
            }
        },
        ReadMode::InStrEscape => {
            let u = if c == 'n' {
                '\n'
            } else if c == 't' {
                '\t'
            } else if c == 'r' {
                '\r'
            } else {
                c
            };
            buf.push(u);
            Ok(ReadMode::InStr)
        },
        ReadMode::InComment => {
            if c == '\n' {
                Ok(ReadMode::Between)
            } else {
                Ok(ReadMode::InComment)
            }
        },
    }
}

/// Reads every top-level form of the source text, as [`read_all`] states.
pub fn parse_all(src: &str) -> (r: Result<Vec<Sx>, ReadError>)
    ensures
        match r {
            Ok(forms) => read_all(src@) == Ok::<Seq<SxView>, ReadError>(sx_views(forms@)),
            Err(e) => read_all(src@) == Err::<Seq<SxView>, ReadError>(e),
        },
{
    let cs = chars_of(src);
    let mut mode = ReadMode::Between;
    let mut buf: Vec<char> = Vec::new();
    let mut stack: Vec<Vec<Sx>> = Vec::new();
    stack.push(Vec::new());
    assert(stack_views(stack@) =~= seq![Seq::<SxView>::empty()]) by {
        assert(sx_views(Seq::<Sx>::empty()) =~= Seq::<SxView>::empty());
    }
    assert(cs@.take(0) =~= Seq::<char>::empty());
    let mut i: usize = 0;
    while i < cs.len()
        invariant
            i <= cs.len(),
            cs@ == src@,
            stack.len() >= 1,
            read_state(cs@.take(i as int)) == state_of(mode, buf@, stack@),
        decreases cs.len() - i,
    {
        assert(cs@.take(i + 1).drop_last() =~= cs@.take(i as int));
        match step_exec(mode, &mut buf, &mut stack, cs[i]) {
            Ok(m) => {
                mode = m;
            },
            Err(e) => {
                proof { lemma_err_sticks(cs@, i + 1); }
                assert(cs@.take(cs@.len() as int) =~= cs@);
                return Err(e);
            },
        }
        i = i + 1;
    }
    assert(cs@.take(cs.len() as int) =~= cs@);
    match mode {
        ReadMode::InAtom => {
            match classify_exec(&buf) {
                Ok(x) => {
                    push_onto_top(&mut stack, x);
                },
                Err(e) => {
                    return Err(e);
                },
            }
        },
        ReadMode::InStr => {
            return Err(ReadError::UnterminatedString);
        },
        ReadMode::InStrEscape => {
            return Err(ReadError::UnterminatedString);
        },
        _ => {},
    }
    if stack.len() != 1 {
        return Err(ReadError::UnclosedList);
    }
    let forms = stack.pop().unwrap();
    Ok(forms)
}

// ---------------------------------------------------------------------------
// What the reader reads
// ---------------------------------------------------------------------------

/// A character that can stand inside an atom: not a space, tab, newline,
/// carriage return, parenthesis, double quote or semicolon.
pub open spec fn atom_char(c: char) -> bool {
    !(c == ' ' || c == '\t' || c == '\n' || c == '\r' || c == '(' || c == ')' || c == '"' || c == ';')
}

proof fn lemma_atom_run(p: Seq<char>, w: Seq<char>)
    requires
        read_state(p).err is None,
        read_state(p).mode == ReadMode::InAtom,
        forall|i: int| 0 <= i < w.len() ==> atom_char(#[trigger] w[i]),
    ensures
        read_state(p + w) == (ReadState { buf: read_state(p).buf + w, ..read_state(p) }),
    decreases w.len(),
{
    if w.len() == 0 {
        assert(p + w =~= p);
        assert(read_state(p).buf + w =~= read_state(p).buf);
    } else {
        let w0 = w.drop_last();
        lemma_atom_run(p, w0);
        assert((p + w).drop_last() =~= p + w0);
        assert((p + w).last() == w.last());
        assert(atom_char(w[w.len() - 1]));
        assert(read_state(p).buf + w0.push(w.last()) =~= read_state(p).buf + w);
        assert(w0.push(w.last()) =~= w);
    }
}

proof fn lemma_read_atom(w: Seq<char>)
    requires
        w.len() > 0,
        forall|i: int| 0 <= i < w.len() ==> atom_char(#[trigger] w[i]),
    ensures
        read_state(w) == (ReadState {
            mode: ReadMode::InAtom,
            buf: w,
            stack: seq![Seq::<SxView>::empty()],
            err: None,
        }),
{
    let h = seq![w[0]];
    assert(atom_char(w[0]));
    assert(h.drop_last() =~= Seq::<char>::empty());
    assert(read_state(h) == step(read_state(h.drop_last()), h.last()));
    let rest = w.drop_first();
    assert forall|i: int| 0 <= i < rest.len() implies atom_char(#[trigger] rest[i]) by {
        assert(rest[i] == w[i + 1]);
    }
    lemma_atom_run(h, rest);
    assert(h + rest =~= w);
}

proof fn lemma_read_one_atom(w: Seq<char>, x: SxView)
    requires
        w.len() > 0,
        forall|i: int| 0 <= i < w.len() ==> atom_char(#[trigger] w[i]),
        classify(w) == Ok::<SxView, ReadError>(x),
    ensures
        read_all(w) == Ok::<Seq<SxView>, ReadError>(seq![x]),
{
    lemma_read_atom(w);
    let st = read_state(w);
    let f = finish_atom(st);
    assert(f.stack =~= seq![seq![x]]);
}

/// The decimal text of a number that fits in 64 signed bits reads as that
/// integer, alone.
pub proof fn law_reader_reads_a_number(n: nat)
    requires
        n <= i64::MAX,
    ensures
        read_all(decimal(n)) == Ok::<Seq<SxView>, ReadError>(seq![SxView::Int(n as int)]),
{
    let d = decimal(n);
    crate::json::lemma_decimal_index(n);
    assert forall|i: int| 0 <= i < d.len() implies atom_char(#[trigger] d[i]) by {
        assert(is_digit(d[i]));
    }
    assert(is_digit(d[0]));
    assert(d != seq!['#', 't'] && d != seq!['#', 'f']);
    assert(is_int_text(d));
    assert(int_value(d) == n);
    lemma_read_one_atom(d, SxView::Int(n as int));
}

/// `:` followed by atom characters reads as the keyword they spell, alone.
pub proof fn law_reader_reads_a_keyword(w: Seq<char>)
    requires
        forall|i: int| 0 <= i < w.len() ==> atom_char(#[trigger] w[i]),
    ensures
        read_all(seq![':'] + w) == Ok::<Seq<SxView>, ReadError>(seq![SxView::Kw(w)]),
{
    let t = seq![':'] + w;
    assert forall|i: int| 0 <= i < t.len() implies atom_char(#[trigger] t[i]) by {
        if i > 0 {
            assert(t[i] == w[i - 1]);
        }
    }
    assert(t[0] == ':');
    assert(t != seq!['#', 't'] && t != seq!['#', 'f']);
    assert(t.drop_first() =~= w);
    lemma_read_one_atom(t, SxView::Kw(w));
}

proof fn lemma_string_run(p: Seq<char>, s: Seq<char>)
    requires
        read_state(p).err is None,
        read_state(p).mode == ReadMode::InStr,
        forall|i: int| 0 <= i < s.len() ==> (#[trigger] s[i]) != '"' && s[i] != '\\',
    ensures
        read_state(p + s) == (ReadState { buf: read_state(p).buf + s, ..read_state(p) }),
    decreases s.len(),
{
    if s.len() == 0 {
        assert(p + s =~= p);
        assert(read_state(p).buf + s =~= read_state(p).buf);
    } else {
        let s0 = s.drop_last();
        lemma_string_run(p, s0);
        assert((p + s).drop_last() =~= p + s0);
        assert((p + s).last() == s.last());
        assert(s[s.len() - 1] != '"' && s[s.len() - 1] != '\\');
        assert(s0.push(s.last()) =~= s);
        assert(read_state(p).buf + s0.push(s.last()) =~= read_state(p).buf + s);
    }
}

/// A double-quoted text with no double quote or backslash inside reads as
/// the string it spells, alone.
pub proof fn law_reader_reads_a_string(s: Seq<char>)
    requires
        forall|i: int| 0 <= i < s.len() ==> (#[trigger] s[i]) != '"' && s[i] != '\\',
    ensures
        read_all(seq!['"'] + s + seq!['"']) == Ok::<Seq<SxView>, ReadError>(seq![SxView::Str(s)]),
{
    let q = seq!['"'];
    assert(q.drop_last() =~= Seq::<char>::empty());
    assert(read_state(q) == step(read_state(q.drop_last()), q.last()));
    lemma_string_run(q, s);
    let t = q + s + seq!['"'];
    assert(t.drop_last() =~= q + s);
    assert(t.last() == '"');
    assert(read_state(q).buf + s =~= s);
    let st = read_state(t);
    assert(st.stack =~= seq![seq![SxView::Str(s)]]);
}

/// The reader's state after `t`, starting from `st`.
pub open spec fn read_from(st: ReadState, t: Seq<char>) -> ReadState
    decreases t.len(),
{
    if t.len() == 0 {
        st
    } else {
        step(read_from(st, t.drop_last()), t.last())
    }
}

proof fn lemma_read_from(p: Seq<char>, t: Seq<char>)
    ensures
        read_state(p + t) == read_from(read_state(p), t),
    decreases t.len(),
{
    if t.len() == 0 {
        assert(p + t =~= p);
    } else {
        lemma_read_from(p, t.drop_last());
        assert((p + t).drop_last() =~= p + t.drop_last());
        assert((p + t).last() == t.last());
    }
}

proof fn lemma_read_from_initial(t: Seq<char>)
    ensures
        read_from(initial_state(), t) == read_state(t),
    decreases t.len(),
{
    if t.len() > 0 {
        lemma_read_from_initial(t.drop_last());
    }
}

proof fn lemma_comment_run(p: Seq<char>, c: Seq<char>)
    requires
        read_state(p).err is None,
        read_state(p).mode == ReadMode::InComment,
        forall|i: int| 0 <= i < c.len() ==> (#[trigger] c[i]) != '\n',
    ensures
        read_state(p + c) == read_state(p),
    decreases c.len(),
{
    if c.len() == 0 {
        assert(p + c =~= p);
    } else {
        let c0 = c.drop_last();
        lemma_comment_run(p, c0);
        assert((p + c).drop_last() =~= p + c0);
        assert((p + c).last() == c.last());
        assert(c[c.len() - 1] != '\n');
    }
}

/// A comment line, `;` up to and including a newline, reads as nothing: the
/// text after it reads as it would alone.
pub proof fn law_reader_skips_a_comment_line(c: Seq<char>, t: Seq<char>)
    requires
        forall|i: int| 0 <= i < c.len() ==> (#[trigger] c[i]) != '\n',
    ensures
        read_all(seq![';'] + c + seq!['\n'] + t) == read_all(t),
{
    let h = seq![';'];
    assert(h.drop_last() =~= Seq::<char>::empty());
    assert(read_state(h) == step(read_state(h.drop_last()), h.last()));
    lemma_comment_run(h, c);
    let l = h + c + seq!['\n'];
    assert(l.drop_last() =~= h + c);
    assert(read_state(l) == initial_state());
    lemma_read_from(l, t);
    lemma_read_from_initial(t);
    assert(l + t =~= seq![';'] + c + seq!['\n'] + t);
}

/// A number in parentheses reads as a list holding that integer, alone.
pub proof fn law_reader_reads_a_list(n: nat)
    requires
        n <= i64::MAX,
    ensures
        read_all(seq!['('] + decimal(n) + seq![')']) == Ok::<Seq<SxView>, ReadError>(
            seq![SxView::List(seq![SxView::Int(n as int)])],
        ),
{
    let d = decimal(n);
    crate::json::lemma_decimal_index(n);
    assert forall|i: int| 0 <= i < d.len() implies atom_char(#[trigger] d[i]) by {
        assert(is_digit(d[i]));
    }
    assert(is_digit(d[0]));
    assert(d != seq!['#', 't'] && d != seq!['#', 'f']);
    assert(is_int_text(d));
    assert(int_value(d) == n);
    let h = seq!['('];
    assert(h.drop_last() =~= Seq::<char>::empty());
    assert(read_state(h) == step(read_state(h.drop_last()), h.last()));
    let h2 = h + seq![d[0]];
    assert(h2.drop_last() =~= h);
    assert(atom_char(d[0]));
    assert(read_state(h2) == step(read_state(h), d[0]));
    let rest = d.drop_first();
    assert forall|i: int| 0 <= i < rest.len() implies atom_char(#[trigger] rest[i]) by {
        assert(rest[i] == d[i + 1]);
    }
    lemma_atom_run(h2, rest);
    assert(seq![d[0]] + rest =~= d);
    assert(h2 + rest =~= h + d);
    let t = h + d + seq![')'];
    assert(t.drop_last() =~= h + d);
    let st = read_state(t);
    assert(st.stack =~= seq![seq![SxView::List(seq![SxView::Int(n as int)])]]);
}

// ---------------------------------------------------------------------------
// The text of a form
// ---------------------------------------------------------------------------

/// How one character of a string is written between the double quotes of a
/// form's text: `"`, `\`, newline, tab and carriage return are escaped with a
/// backslash; every other character stands for itself.
pub open spec fn text_escape_char(c: char) -> Seq<char> {
    if c == '"' {
        seq!['\\', '"']
    } else if c == '\\' {
        seq!['\\', '\\']
    } else if c == '\n' {
        seq!['\\', 'n']
    } else if c == '\t' {
        seq!['\\', 't']
    } else if c == '\r' {
        seq!['\\', 'r']
    } else {
        seq![c]
    }
}

pub open spec fn text_escape(s: Seq<char>) -> Seq<char>
    decreases s.len(),
{
    if s.len() == 0 {
        Seq::<char>::empty()
    } else {
        text_escape(s.drop_last()) + text_escape_char(s.last())
    }
}

/// A string between double quotes, escaped.
pub open spec fn text_quoted(s: Seq<char>) -> Seq<char> {
    seq!['"'] + text_escape(s) + seq!['"']
}

/// The text of a form, written as its constructors: `Atom(Sym("a"))`,
/// `Atom(Str("b"))`, `Atom(Kw("c"))`, `Atom(Int(-3))`, `Atom(Bool(true))`,
/// `List([Atom(Int(1)), Atom(Int(2))])`.
pub open spec fn form_text(x: SxView) -> Seq<char>
    decreases x,
{
    match x {
        SxView::Sym(s) => "Atom(Sym("@ + text_quoted(s) + "))"@,
        SxView::Str(s) => "Atom(Str("@ + text_quoted(s) + "))"@,
        SxView::Kw(s) => "Atom(Kw("@ + text_quoted(s) + "))"@,
        SxView::Int(n) => "Atom(Int("@ + int_text(n) + "))"@,
        SxView::Bool(b) => "Atom(Bool("@ + (if b { "true"@ } else { "false"@ }) + "))"@,
        SxView::List(items) => "List(["@ + form_texts(items) + "])"@,
    }
}

/// The texts of forms, separated by `, `.
pub open spec fn form_texts(s: Seq<SxView>) -> Seq<char>
    decreases s,
{
    if s.len() == 0 {
        Seq::<char>::empty()
    } else if s.len() == 1 {
        form_text(s[0])
    } else {
        form_texts(s.drop_last()) + ", "@ + form_text(s.last())
    }
}

fn push_text_quoted(out: &mut String, s: &String)
    ensures
        final(out)@ == old(out)@ + text_quoted(s@),
{
    let cs = chars_of(s.as_str());
    push_char(out, '"');
    let ghost start = out@;
    for i in 0..cs.len()
        invariant
            cs@ == s@,
            out@ == start + text_escape(cs@.take(i as int)),
    {
        let c = cs[i];
        assert(cs@.take(i + 1).drop_last() =~= cs@.take(i as int));
        if c == '"' {
            push_char(out, '\\');
            push_char(out, '"');
        } else if c == '\\' {
            push_char(out, '\\');
            push_char(out, '\\');
        } else if c == '\n' {
            push_char(out, '\\');
            push_char(out, 'n');
        } else if c == '\t' {
            push_char(out, '\\');
            push_char(out, 't');
        } else if c == '\r' {
            push_char(out, '\\');
            push_char(out, 'r');
        } else {
            push_char(out, c);
        }
        assert(out@ =~= start + text_escape(cs@.take(i + 1)));
    }
    assert(cs@.take(cs.len() as int) =~= cs@);
    push_char(out, '"');
    assert(final(out)@ =~= old(out)@ + text_quoted(s@));
}

/// Appends the text of a form.
#[verifier::loop_isolation(false)]
fn push_form_text(out: &mut String, x: &Sx)
    ensures
        final(out)@ == old(out)@ + form_text(x@),
    decreases x,
{
    match x {
        Sx::Atom(a) => {
            match a {
                Atom::Sym(s) => {
                    out.append("Atom(Sym(");
                    push_text_quoted(out, s);
                    out.append("))");
                },
                Atom::Str(s) => {
                    out.append("Atom(Str(");
                    push_text_quoted(out, s);
                    out.append("))");
                },
                Atom::Kw(s) => {
                    out.append("Atom(Kw(");
                    push_text_quoted(out, s);
                    out.append("))");
                },
                Atom::Int(n) => {
                    out.append("Atom(Int(");
                    push_int(out, *n);
                    out.append("))");
                },
                Atom::Bool(b) => {
                    out.append("Atom(Bool(");
                    if *b {
                        out.append("true");
                    } else {
                        out.append("false");
                    }
                    out.append("))");
                },
            }
            assert(final(out)@ =~= old(out)@ + form_text(x@));
        },
        Sx::List(v) => {
            out.append("List([");
            let ghost start = out@;
            assert(sx_views(v@.take(0)) =~= Seq::<SxView>::empty());
            for i in 0..v.len()
                invariant
                    *x == Sx::List(*v),
                    out@ == start + form_texts(sx_views(v@.take(i as int))),
            {
                assert(v@.take(i + 1).drop_last() =~= v@.take(i as int));
                if i > 0 {
                    out.append(", ");
                }
                push_form_text(out, &v[i]);
                proof {
                    let t = sx_views(v@.take(i + 1));
                    lemma_sx_views(v@.take(i + 1));
                    lemma_sx_views(v@.take(i as int));
                    assert(t.drop_last() =~= sx_views(v@.take(i as int)));
                    assert(t.last() == sx_view(v@[i as int]));
                    if i == 0 {
                        assert(t.len() == 1);
                    }
                }
                assert(out@ =~= start + form_texts(sx_views(v@.take(i + 1))));
            }
            assert(v@.take(v.len() as int) =~= v@);
            out.append("])");
            assert(final(out)@ =~= old(out)@ + form_text(x@));
        },
    }
}

/// The text of a form, as [`form_text`] states it.
pub fn form_text_of(x: &Sx) -> (r: String)
    ensures
        r@ == form_text(x@),
{
    let mut out = String::new();
    push_form_text(&mut out, x);
    out
}

} // verus!
