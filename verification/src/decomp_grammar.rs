//! The reference-decomposition body grammar and the structured-op table.
//!
//! A scalar-expression decomposition body parses as a tree over ops and
//! scalar-source leaves, optionally as a sequence of SSA `name = expr;`
//! let-bindings. A structured op (`matmul`, `argmax`/`argmin`, the pools, the
//! gather/scatter family, `im2col`) is not a scalar-expression body: its
//! decomposition references a structural op over an iteration space, and it
//! is rejected by this grammar.

use vstd::prelude::*;
use crate::text::{dec_chars, push_char, push_dec, push_str, str_bytes, str_eq, string_of};

verus! {

/// Each structured op paired with the structural op its decomposition names.
pub const STRUCTURED_OPS: [(&'static str, &'static str); 9] = [
    ("matmul", "matmul"),
    ("argmax", "sort_network"),
    ("argmin", "sort_network"),
    ("avg_pool", "reduce"),
    ("max_pool", "reduce"),
    ("index_select", "gather"),
    ("embedding", "gather"),
    ("scatter_add", "scatter"),
    ("im2col", "gather"),
];

/// The structural ops a structured op's decomposition may reference.
pub const STRUCTURAL_OPS: [&'static str; 6] =
    ["reduce", "prefix_scan", "gather", "scatter", "sort_network", "matmul"];

/// A token of a decomposition body.
#[derive(PartialEq, Debug, Clone)]
pub enum Tok {
    Ident(String),
    Num,
    /// A `const(...)` leaf, its inner content consumed opaquely.
    Const,
    LParen,
    RParen,
    Comma,
    Eq,
    Semi,
}

pub enum TokV {
    Ident(Seq<char>),
    Num,
    Const,
    LParen,
    RParen,
    Comma,
    Eq,
    Semi,
}

impl View for Tok {
    type V = TokV;

    open spec fn view(&self) -> TokV {
        match self {
            Tok::Ident(s) => TokV::Ident(s@),
            Tok::Num => TokV::Num,
            Tok::Const => TokV::Const,
            Tok::LParen => TokV::LParen,
            Tok::RParen => TokV::RParen,
            Tok::Comma => TokV::Comma,
            Tok::Eq => TokV::Eq,
            Tok::Semi => TokV::Semi,
        }
    }
}

pub open spec fn toks_view(v: Seq<Tok>) -> Seq<TokV> {
    v.map_values(|t: Tok| t@)
}

// ---------------------------------------------------------------------------
// The tokenizer, as a specification over the body's bytes (each byte read as
// one character).
// ---------------------------------------------------------------------------

/// A byte that is whitespace when read as a character (ASCII whitespace and
/// vertical tab, NEL, no-break space).
pub open spec fn ws_byte(c: u8) -> bool {
    (9 <= c <= 13) || c == 32 || c == 0x85 || c == 0xA0
}

pub open spec fn digit_b(c: u8) -> bool {
    48 <= c <= 57
}

pub open spec fn alpha_b(c: u8) -> bool {
    (65 <= c <= 90) || (97 <= c <= 122)
}

/// The byte classes a token run continues over.
pub enum Run {
    Number,
    Word,
    Space,
}

pub open spec fn in_class(c: u8, k: Run) -> bool {
    match k {
        Run::Number => digit_b(c) || c == 46,
        Run::Word => alpha_b(c) || digit_b(c) || c == 95,
        Run::Space => ws_byte(c),
    }
}

/// The end of the run of class-`k` bytes starting at `i`.
pub open spec fn run_to(b: Seq<u8>, i: int, k: Run) -> int
    decreases b.len() - i,
{
    if i < 0 || i >= b.len() || !in_class(b[i], k) {
        i
    } else {
        run_to(b, i + 1, k)
    }
}

pub proof fn lemma_run_to(b: Seq<u8>, i: int, k: Run)
    requires
        0 <= i <= b.len(),
    ensures
        i <= run_to(b, i, k) <= b.len(),
        forall|m: int| i <= m < run_to(b, i, k) ==> in_class(#[trigger] b[m], k),
        run_to(b, i, k) < b.len() ==> !in_class(b[run_to(b, i, k)], k),
    decreases b.len() - i,
{
    if i < b.len() && in_class(b[i], k) {
        lemma_run_to(b, i + 1, k);
    }
}

/// The position just past the `)` that closes the parenthesis depth `depth`
/// reached before `i`, if the body holds one.
pub open spec fn close_of(b: Seq<u8>, i: int, depth: int) -> Option<int>
    decreases b.len() - i,
{
    if i < 0 || i >= b.len() {
        None
    } else if b[i] == 40 {
        close_of(b, i + 1, depth + 1)
    } else if b[i] == 41 {
        if depth - 1 == 0 { Some(i + 1) } else { close_of(b, i + 1, depth - 1) }
    } else {
        close_of(b, i + 1, depth)
    }
}

pub proof fn lemma_close_of(b: Seq<u8>, i: int, depth: int)
    requires
        0 <= i,
    ensures
        close_of(b, i, depth) matches Some(m) ==> i < m <= b.len(),
    decreases b.len() - i,
{
    if 0 <= i < b.len() {
        if b[i] == 40 {
            lemma_close_of(b, i + 1, depth + 1);
        } else if b[i] == 41 {
            if depth - 1 != 0 {
                lemma_close_of(b, i + 1, depth - 1);
            }
        } else {
            lemma_close_of(b, i + 1, depth);
        }
    }
}

/// Bytes read one character each.
pub open spec fn byte_chars(s: Seq<u8>) -> Seq<char> {
    s.map_values(|x: u8| x as char)
}

pub open spec fn cons(t: TokV, r: Result<Seq<TokV>, Seq<char>>) -> Result<Seq<TokV>, Seq<char>> {
    match r {
        Ok(ts) => Ok(seq![t] + ts),
        Err(e) => Err(e),
    }
}

/// The tokens of `b` from `i`: whitespace skipped, `( ) , = ;`, numbers
/// (`[0-9][0-9.]*`, or `-` directly before a digit), words
/// (`[A-Za-z_][A-Za-z0-9_]*`), a `const(...)` leaf taken whole; anything else
/// is prose.
pub open spec fn tok_from(b: Seq<u8>, i: int) -> Result<Seq<TokV>, Seq<char>>
    decreases b.len() - i,
{
    if i < 0 || i >= b.len() {
        Ok(seq![])
    } else {
        let c = b[i];
        if ws_byte(c) {
            tok_from(b, i + 1)
        } else if c == 40 {
            cons(TokV::LParen, tok_from(b, i + 1))
        } else if c == 41 {
            cons(TokV::RParen, tok_from(b, i + 1))
        } else if c == 44 {
            cons(TokV::Comma, tok_from(b, i + 1))
        } else if c == 61 {
            cons(TokV::Eq, tok_from(b, i + 1))
        } else if c == 59 {
            cons(TokV::Semi, tok_from(b, i + 1))
        } else if digit_b(c) || (c == 45 && i + 1 < b.len() && digit_b(b[i + 1])) {
            let j = run_to(b, i + 1, Run::Number);
            proof {
                lemma_run_to(b, i + 1, Run::Number);
            }
            cons(TokV::Num, tok_from(b, j))
        } else if alpha_b(c) || c == 95 {
            let j = run_to(b, i + 1, Run::Word);
            proof {
                lemma_run_to(b, i + 1, Run::Word);
            }
            let word = byte_chars(b.subrange(i, j));
            if word == "const"@ {
                let k = run_to(b, j, Run::Space);
                proof {
                    lemma_run_to(b, j, Run::Space);
                }
                if k >= b.len() || b[k] != 40 {
                    Err("`const` not followed by `(`"@)
                } else {
                    match close_of(b, k, 0) {
                        None => Err("unbalanced parentheses in `const(...)`"@),
                        Some(m) => {
                            proof {
                                lemma_close_of(b, k, 0);
                            }
                            cons(TokV::Const, tok_from(b, m))
                        },
                    }
                }
            } else {
                cons(TokV::Ident(word), tok_from(b, j))
            }
        } else {
            Err("unexpected character `"@ + seq![c as char] + "` at "@ + dec_chars(i as nat)
                + " — prose, not a scalar-expression body"@)
        }
    }
}

pub open spec fn after(ts: Seq<TokV>, r: Result<Seq<TokV>, Seq<char>>) -> Result<Seq<TokV>, Seq<char>> {
    match r {
        Ok(t) => Ok(ts + t),
        Err(e) => Err(e),
    }
}

fn class_byte(c: u8, k: u8) -> (r: bool)
    requires
        k < 3,
    ensures
        r == in_class(c, if k == 0 { Run::Number } else if k == 1 { Run::Word } else { Run::Space }),
{
    if k == 0 {
        (48 <= c && c <= 57) || c == 46
    } else if k == 1 {
        (65 <= c && c <= 90) || (97 <= c && c <= 122) || (48 <= c && c <= 57) || c == 95
    } else {
        (9 <= c && c <= 13) || c == 32 || c == 0x85 || c == 0xA0
    }
}

fn scan_run(b: &[u8], i: usize, k: u8) -> (j: usize)
    requires
        i <= b@.len(),
        k < 3,
    ensures
        j as int == run_to(b@, i as int, if k == 0 { Run::Number } else if k == 1 { Run::Word } else { Run::Space }),
{
    let ghost kind = if k == 0 { Run::Number } else if k == 1 { Run::Word } else { Run::Space };
    let mut j = i;
    while j < b.len() && class_byte(b[j], k)
        invariant
            i <= j <= b@.len(),
            k < 3,
            kind == (if k == 0 { Run::Number } else if k == 1 { Run::Word } else { Run::Space }),
            run_to(b@, i as int, kind) == run_to(b@, j as int, kind),
        decreases b.len() - j,
    {
        j += 1;
    }
    j
}

fn scan_close(b: &[u8], k: usize) -> (r: Option<usize>)
    requires
        k <= b@.len(),
    ensures
        match close_of(b@, k as int, 0) {
            Some(m) => r == Some(m as usize),
            None => r is None,
        },
{
    let mut i = k;
    let mut depth: i128 = 0;
    proof {
        lemma_close_of(b@, k as int, 0);
    }
    while i < b.len()
        invariant
            k <= i <= b@.len(),
            depth <= i - k,
            depth >= -((i - k) as int),
            close_of(b@, k as int, 0) == close_of(b@, i as int, depth as int),
        decreases b.len() - i,
    {
        proof {
            lemma_close_of(b@, i as int, depth as int);
        }
        if b[i] == 40 {
            depth += 1;
        } else if b[i] == 41 {
            if depth - 1 == 0 {
                return Some(i + 1);
            }
            depth -= 1;
        }
        i += 1;
    }
    None
}

fn word_string(b: &[u8], start: usize, end: usize) -> (s: String)
    requires
        start <= end <= b@.len(),
        forall|m: int| start <= m < end ==> (b@[m] as u32) < 128,
    ensures
        s@ == byte_chars(b@.subrange(start as int, end as int)),
{
    let mut s = String::new();
    let mut i = start;
    while i < end
        invariant
            start <= i <= end <= b@.len(),
            forall|m: int| start <= m < end ==> (b@[m] as u32) < 128,
            s@ == byte_chars(b@.subrange(start as int, i as int)),
        decreases end - i,
    {
        let c = b[i] as char;
        push_char(&mut s, c);
        assert(byte_chars(b@.subrange(start as int, i + 1)) =~= byte_chars(b@.subrange(start as int, i as int)).push(c));
        i += 1;
    }
    s
}

proof fn lemma_after_cons(ts: Seq<TokV>, t: TokV, r: Result<Seq<TokV>, Seq<char>>)
    ensures
        after(ts, cons(t, r)) == after(ts.push(t), r),
{
    match r {
        Ok(rest) => {
            assert(ts + (seq![t] + rest) =~= ts.push(t) + rest);
        },
        Err(_) => {},
    }
}

/// Tokenize a decomposition body.
fn tokenize(src: &str) -> (r: Result<Vec<Tok>, String>)
    ensures
        match tok_from(vstd::utf8::encode_utf8(src@), 0) {
            Ok(ts) => r matches Ok(v) && toks_view(v@) == ts,
            Err(e) => r matches Err(m) && m@ == e,
        },
{
    let b = str_bytes(src);
    let ghost bv = b@;
    let mut out: Vec<Tok> = Vec::new();
    let mut i: usize = 0;
    assert(toks_view(out@) =~= Seq::<TokV>::empty());
    while i < b.len()
        invariant
            bv == b@,
            bv == vstd::utf8::encode_utf8(src@),
            i <= bv.len(),
            tok_from(bv, 0) == after(toks_view(out@), tok_from(bv, i as int)),
        decreases b.len() - i,
    {
        let c = b[i];
        let ghost tv = toks_view(out@);
        if (9 <= c && c <= 13) || c == 32 || c == 0x85 || c == 0xA0 {
            i += 1;
        } else if c == 40 || c == 41 || c == 44 || c == 61 || c == 59 {
            let t = if c == 40 { Tok::LParen } else if c == 41 { Tok::RParen } else if c == 44 {
                Tok::Comma
            } else if c == 61 { Tok::Eq } else { Tok::Semi };
            assert(tok_from(bv, i as int) == cons(t@, tok_from(bv, i + 1)));
            proof {
                lemma_after_cons(tv, t@, tok_from(bv, i + 1));
            }
            out.push(t);
            assert(toks_view(out@) =~= tv.push(t@));
            i += 1;
        } else if (48 <= c && c <= 57) || (c == 45 && i + 1 < b.len() && 48 <= b[i + 1] && b[i + 1] <= 57) {
            let j = scan_run(b.as_slice(), i + 1, 0);
            assert(tok_from(bv, i as int) == cons(TokV::Num, tok_from(bv, j as int)));
            proof {
                lemma_after_cons(tv, TokV::Num, tok_from(bv, j as int));
                lemma_run_to(bv, i + 1, Run::Number);
            }
            out.push(Tok::Num);
            assert(toks_view(out@) =~= tv.push(TokV::Num));
            i = j;
        } else if (65 <= c && c <= 90) || (97 <= c && c <= 122) || c == 95 {
            let j = scan_run(b.as_slice(), i + 1, 1);
            proof {
                lemma_run_to(bv, i + 1, Run::Word);
                assert forall|m: int| i <= m < j implies (bv[m] as u32) < 128 by {
                    if m > i {
                        assert(in_class(bv[m], Run::Word));
                    }
                }
            }
            let word = word_string(b.as_slice(), i, j);
            if str_eq(word.as_str(), "const") {
                let k = scan_run(b.as_slice(), j, 2);
                proof {
                    lemma_run_to(bv, j as int, Run::Space);
                }
                if k >= b.len() || b[k] != 40 {
                    let m = crate::text::string_from("`const` not followed by `(`");
                    assert(tok_from(bv, i as int) == Err::<Seq<TokV>, Seq<char>>(m@));
                    return Err(m);
                }
                match scan_close(b.as_slice(), k) {
                    None => {
                        let m = crate::text::string_from("unbalanced parentheses in `const(...)`");
                        assert(tok_from(bv, i as int) == Err::<Seq<TokV>, Seq<char>>(m@));
                        return Err(m);
                    },
                    Some(m) => {
                        proof {
                            lemma_close_of(bv, k as int, 0);
                        }
                        assert(tok_from(bv, i as int) == cons(TokV::Const, tok_from(bv, m as int)));
                        proof {
                            lemma_after_cons(tv, TokV::Const, tok_from(bv, m as int));
                        }
                        out.push(Tok::Const);
                        assert(toks_view(out@) =~= tv.push(TokV::Const));
                        i = m;
                    },
                }
            } else {
                let ghost wv = word@;
                assert(tok_from(bv, i as int) == cons(TokV::Ident(wv), tok_from(bv, j as int)));
                proof {
                    lemma_after_cons(tv, TokV::Ident(wv), tok_from(bv, j as int));
                }
                out.push(Tok::Ident(word));
                assert(toks_view(out@) =~= tv.push(TokV::Ident(wv)));
                i = j;
            }
        } else {
            let mut m = String::new();
            push_str(&mut m, "unexpected character `");
            push_char(&mut m, c as char);
            push_str(&mut m, "` at ");
            push_dec(&mut m, i as u64);
            push_str(&mut m, " — prose, not a scalar-expression body");
            assert(m@ =~= "unexpected character `"@ + seq![c as char] + "` at "@ + dec_chars(i as nat)
                + " — prose, not a scalar-expression body"@);
            assert(tok_from(bv, i as int) == Err::<Seq<TokV>, Seq<char>>(m@));
            return Err(m);
        }
    }
    assert(toks_view(out@) + Seq::<TokV>::empty() =~= toks_view(out@));
    Ok(out)
}


// ---------------------------------------------------------------------------
// The SSA binding names.
// ---------------------------------------------------------------------------

/// The token at `p`, if any.
pub open spec fn tok_opt(t: Seq<TokV>, p: int) -> Option<TokV> {
    if 0 <= p < t.len() { Some(t[p]) } else { None }
}

/// The binding names from token `i` on: an identifier that leads a statement
/// at depth 0 and is directly followed by `=`.
pub open spec fn collect_from(t: Seq<TokV>, i: int, depth: int, at_start: bool) -> Seq<Seq<char>>
    decreases t.len() - i,
{
    if i < 0 || i >= t.len() {
        seq![]
    } else {
        match t[i] {
            TokV::LParen => collect_from(t, i + 1, depth + 1, false),
            TokV::RParen => collect_from(t, i + 1, depth - 1, false),
            TokV::Semi => collect_from(t, i + 1, depth, depth == 0),
            TokV::Ident(n) => if depth == 0 && at_start {
                (if tok_opt(t, i + 1) == Some(TokV::Eq) { seq![n] } else { seq![] }) + collect_from(t, i + 1, depth, false)
            } else {
                collect_from(t, i + 1, depth, false)
            },
            _ => collect_from(t, i + 1, depth, false),
        }
    }
}

pub open spec fn strs_view(v: Seq<String>) -> Seq<Seq<char>> {
    v.map_values(|s: String| s@)
}

fn collect_binding_names(toks: &[Tok]) -> (names: Vec<String>)
    ensures
        strs_view(names@) == collect_from(toks_view(toks@), 0, 0, true),
{
    let ghost t = toks_view(toks@);
    let mut names: Vec<String> = Vec::new();
    let mut depth: i128 = 0;
    let mut at_start = true;
    let mut i: usize = 0;
    assert(strs_view(names@) =~= Seq::<Seq<char>>::empty());
    while i < toks.len()
        invariant
            t == toks_view(toks@),
            i <= toks@.len(),
            -(i as int) <= depth <= i,
            collect_from(t, 0, 0, true) == strs_view(names@) + collect_from(t, i as int, depth as int, at_start),
        decreases toks.len() - i,
    {
        assert(t[i as int] == toks@[i as int]@);
        let ghost nv = strs_view(names@);
        match &toks[i] {
            Tok::LParen => {
                depth += 1;
                at_start = false;
            },
            Tok::RParen => {
                depth -= 1;
                at_start = false;
            },
            Tok::Semi => {
                at_start = depth == 0;
            },
            Tok::Ident(n) => {
                if depth == 0 && at_start {
                    let next_eq = i + 1 < toks.len() && matches!(&toks[i + 1], Tok::Eq);
                    if i + 1 < toks.len() {
                        assert(t[i + 1] == toks@[i + 1]@);
                    }
                    if next_eq {
                        names.push(n.clone());
                        assert(strs_view(names@) =~= nv + seq![n@]);
                    } else {
                        assert(nv + (seq![] + collect_from(t, i + 1, depth as int, false)) =~= nv + collect_from(t, i + 1, depth as int, false));
                    }
                }
                at_start = false;
            },
            _ => {
                at_start = false;
            },
        }
        i += 1;
    }
    assert(strs_view(names@) + Seq::<Seq<char>>::empty() =~= strs_view(names@));
    names
}

// ---------------------------------------------------------------------------
// The parser, as a specification.
// ---------------------------------------------------------------------------

/// A token's debug rendering.
pub open spec fn tok_debug(t: TokV) -> Seq<char> {
    match t {
        TokV::Ident(s) => "Ident(\""@ + s + "\")"@,
        TokV::Num => "Num"@,
        TokV::Const => "Const"@,
        TokV::LParen => "LParen"@,
        TokV::RParen => "RParen"@,
        TokV::Comma => "Comma"@,
        TokV::Eq => "Eq"@,
        TokV::Semi => "Semi"@,
    }
}

/// The debug rendering of the token at `p`, if any.
pub open spec fn opt_debug(t: Seq<TokV>, p: int) -> Seq<char> {
    match tok_opt(t, p) {
        Some(x) => "Some("@ + tok_debug(x) + ")"@,
        None => "None"@,
    }
}

/// The SSA violation of referencing `n`, if it is a binding name not yet bound.
pub open spec fn ref_error(names: Seq<Seq<char>>, bound: Seq<Seq<char>>, n: Seq<char>) -> Option<Seq<char>> {
    if names.contains(n) && !bound.contains(n) {
        Some("`"@ + n + "` references itself or a not-yet-bound name — violates §6.13-0006 SSA"@)
    } else {
        None
    }
}

/// A parse step's result: the next position and the names bound so far.
pub type Step = Result<(int, Seq<Seq<char>>), Seq<char>>;

/// `expr := const(...) | Num | Ident ('(' arglist ')')?`
pub open spec fn pd_expr(t: Seq<TokV>, names: Seq<Seq<char>>, p: int, bound: Seq<Seq<char>>) -> Step
    decreases t.len() - p, 1int,
{
    match tok_opt(t, p) {
        Some(TokV::Const) | Some(TokV::Num) => Ok((p + 1, bound)),
        Some(TokV::Ident(n)) => if tok_opt(t, p + 1) == Some(TokV::LParen) {
            match pd_arglist(t, names, p + 2, bound) {
                Err(m) => Err(m),
                Ok((q, b2)) => if tok_opt(t, q) == Some(TokV::RParen) {
                    Ok((q + 1, b2))
                } else {
                    Err("expected `)`, found "@ + opt_debug(t, q))
                },
            }
        } else {
            match ref_error(names, bound, n) {
                Some(m) => Err(m),
                None => Ok((p + 1, bound)),
            }
        },
        _ => Err("expected an expression, found "@ + opt_debug(t, p)),
    }
}

/// `arglist := (arg (',' arg)*)?`
pub open spec fn pd_arglist(t: Seq<TokV>, names: Seq<Seq<char>>, p: int, bound: Seq<Seq<char>>) -> Step
    decreases t.len() - p, 4int,
{
    if tok_opt(t, p) == Some(TokV::RParen) {
        Ok((p, bound))
    } else {
        pd_args(t, names, p, bound)
    }
}

/// `arg (',' arg)*`
pub open spec fn pd_args(t: Seq<TokV>, names: Seq<Seq<char>>, p: int, bound: Seq<Seq<char>>) -> Step
    decreases t.len() - p, 3int,
{
    match pd_arg(t, names, p, bound) {
        Err(m) => Err(m),
        Ok((q, b2)) => if tok_opt(t, q) == Some(TokV::Comma) && p <= q {
            pd_args(t, names, q + 1, b2)
        } else {
            Ok((q, b2))
        },
    }
}

/// `arg := Ident '=' (Ident | Num | const) | expr` — the first form a keyword
/// attribute such as `monoid=sum`.
pub open spec fn pd_arg(t: Seq<TokV>, names: Seq<Seq<char>>, p: int, bound: Seq<Seq<char>>) -> Step
    decreases t.len() - p, 2int,
{
    if tok_opt(t, p) is Some && tok_opt(t, p)->0 is Ident && tok_opt(t, p + 1) == Some(TokV::Eq) {
        match tok_opt(t, p + 2) {
            Some(TokV::Ident(v)) => match ref_error(names, bound, v) {
                Some(m) => Err(m),
                None => Ok((p + 3, bound)),
            },
            Some(TokV::Num) | Some(TokV::Const) => Ok((p + 3, bound)),
            _ => Err("keyword-arg value expected, found "@ + opt_debug(t, p + 2)),
        }
    } else {
        pd_expr(t, names, p, bound)
    }
}

/// `statement := Ident '=' expr | expr`; the `=` form binds the name after its
/// defining expression, once only.
pub open spec fn pd_stmt(t: Seq<TokV>, names: Seq<Seq<char>>, p: int, bound: Seq<Seq<char>>) -> Step
    decreases t.len() - p, 2int,
{
    match tok_opt(t, p) {
        Some(TokV::Ident(n)) => if tok_opt(t, p + 1) == Some(TokV::Eq) {
            match pd_expr(t, names, p + 2, bound) {
                Err(m) => Err(m),
                Ok((q, b2)) => if b2.contains(n) {
                    Err("`"@ + n + "` bound more than once — not SSA"@)
                } else {
                    Ok((q, b2.push(n)))
                },
            }
        } else {
            pd_expr(t, names, p, bound)
        },
        _ => pd_expr(t, names, p, bound),
    }
}

/// `body := statement (';' statement)*`
pub open spec fn pd_body_from(t: Seq<TokV>, names: Seq<Seq<char>>, p: int, bound: Seq<Seq<char>>) -> Step
    decreases t.len() - p, 3int,
{
    match pd_stmt(t, names, p, bound) {
        Err(m) => Err(m),
        Ok((q, b2)) => if tok_opt(t, q) == Some(TokV::Semi) && p <= q {
            pd_body_from(t, names, q + 1, b2)
        } else {
            Ok((q, b2))
        },
    }
}

/// What checking a body comes to: tokenize, then parse statements over the
/// whole token run.
pub open spec fn scalar_body_spec(body: Seq<char>) -> Result<(), Seq<char>> {
    match tok_from(vstd::utf8::encode_utf8(body), 0) {
        Err(m) => Err(m),
        Ok(t) => if t.len() == 0 {
            Err("empty body"@)
        } else {
            match pd_body_from(t, collect_from(t, 0, 0, true), 0, seq![]) {
                Err(m) => Err(m),
                Ok((q, _)) => if q != t.len() {
                    Err("leftover tokens from position "@ + dec_chars(q as nat) + " — not a scalar-expression body"@)
                } else {
                    Ok(())
                },
            }
        },
    }
}


// ---------------------------------------------------------------------------
// The parser, executable.
// ---------------------------------------------------------------------------

fn contains_str(v: &Vec<String>, n: &str) -> (r: bool)
    ensures
        r == strs_view(v@).contains(n@),
{
    let mut i: usize = 0;
    while i < v.len()
        invariant
            i <= v@.len(),
            forall|j: int| 0 <= j < i ==> strs_view(v@)[j] != n@,
        decreases v.len() - i,
    {
        assert(strs_view(v@)[i as int] == v@[i as int]@);
        if str_eq(v[i].as_str(), n) {
            return true;
        }
        i += 1;
    }
    false
}

fn push_opt_debug(s: &mut String, t: &[Tok], p: usize)
    ensures
        final(s)@ == old(s)@ + opt_debug(toks_view(t@), p as int),
{
    if p < t.len() {
        assert(toks_view(t@)[p as int] == t@[p as int]@);
        push_str(s, "Some(");
        match &t[p] {
            Tok::Ident(n) => {
                push_str(s, "Ident(\"");
                push_str(s, n.as_str());
                push_str(s, "\")");
            },
            Tok::Num => push_str(s, "Num"),
            Tok::Const => push_str(s, "Const"),
            Tok::LParen => push_str(s, "LParen"),
            Tok::RParen => push_str(s, "RParen"),
            Tok::Comma => push_str(s, "Comma"),
            Tok::Eq => push_str(s, "Eq"),
            Tok::Semi => push_str(s, "Semi"),
        }
        push_str(s, ")");
    } else {
        push_str(s, "None");
    }
}

fn found_error(prefix: &str, t: &[Tok], p: usize) -> (m: String)
    ensures
        m@ == prefix@ + opt_debug(toks_view(t@), p as int),
{
    let mut m = String::new();
    push_str(&mut m, prefix);
    push_opt_debug(&mut m, t, p);
    m
}

fn check_ref(names: &Vec<String>, bound: &Vec<String>, n: &String) -> (r: Result<(), String>)
    ensures
        match ref_error(strs_view(names@), strs_view(bound@), n@) {
            Some(m) => r matches Err(x) && x@ == m,
            None => r is Ok,
        },
{
    if contains_str(names, n.as_str()) && !contains_str(bound, n.as_str()) {
        let mut m = String::new();
        push_str(&mut m, "`");
        push_str(&mut m, n.as_str());
        push_str(&mut m, "` references itself or a not-yet-bound name — violates §6.13-0006 SSA");
        Err(m)
    } else {
        Ok(())
    }
}

pub open spec fn step_matches(s: Step, p: int, len: int, r: Result<usize, String>, fin: Seq<Seq<char>>, strict: bool) -> bool {
    match s {
        Ok((q, b2)) => r == Ok::<usize, String>(q as usize) && fin == b2 && (if strict { p < q } else { p <= q }) && q <= len,
        Err(m) => r matches Err(x) && x@ == m,
    }
}

fn is_tok(t: &[Tok], p: usize, which: u8) -> (r: bool)
    requires
        which < 4,
    ensures
        r == (tok_opt(toks_view(t@), p as int) == Some(if which == 0 { TokV::LParen } else if which == 1 {
            TokV::RParen
        } else if which == 2 { TokV::Comma } else { TokV::Semi })),
{
    if p >= t.len() {
        return false;
    }
    assert(toks_view(t@)[p as int] == t@[p as int]@);
    match &t[p] {
        Tok::LParen => which == 0,
        Tok::RParen => which == 1,
        Tok::Comma => which == 2,
        Tok::Semi => which == 3,
        _ => false,
    }
}

fn is_eq_at(t: &[Tok], p: usize) -> (r: bool)
    ensures
        r == (tok_opt(toks_view(t@), p as int) == Some(TokV::Eq)),
{
    if p >= t.len() {
        return false;
    }
    assert(toks_view(t@)[p as int] == t@[p as int]@);
    match &t[p] {
        Tok::Eq => true,
        _ => false,
    }
}

fn pe_expr(t: &[Tok], names: &Vec<String>, p: usize, bound: &mut Vec<String>) -> (r: Result<usize, String>)
    requires
        p <= t@.len() <= usize::MAX,
    ensures
        step_matches(pd_expr(toks_view(t@), strs_view(names@), p as int, strs_view(old(bound)@)), p as int, t@.len() as int, r, strs_view(final(bound)@), true),
    decreases t@.len() - p, 1int,
{
    let ghost tv = toks_view(t@);
    if p >= t.len() {
        return Err(found_error("expected an expression, found ", t, p));
    }
    assert(tv[p as int] == t@[p as int]@);
    match &t[p] {
        Tok::Const | Tok::Num => Ok(p + 1),
        Tok::Ident(n) => {
            if is_tok(t, p + 1, 0) {
                let q = match pe_arglist(t, names, p + 2, bound) {
                    Ok(q) => q,
                    Err(m) => return Err(m),
                };
                if is_tok(t, q, 1) {
                    Ok(q + 1)
                } else {
                    Err(found_error("expected `)`, found ", t, q))
                }
            } else {
                match check_ref(names, bound, n) {
                    Ok(()) => Ok(p + 1),
                    Err(m) => Err(m),
                }
            }
        },
        _ => Err(found_error("expected an expression, found ", t, p)),
    }
}

fn pe_arglist(t: &[Tok], names: &Vec<String>, p: usize, bound: &mut Vec<String>) -> (r: Result<usize, String>)
    requires
        p <= t@.len() <= usize::MAX,
    ensures
        step_matches(pd_arglist(toks_view(t@), strs_view(names@), p as int, strs_view(old(bound)@)), p as int, t@.len() as int, r, strs_view(final(bound)@), false),
    decreases t@.len() - p, 4int,
{
    if is_tok(t, p, 1) {
        return Ok(p);
    }
    pe_args(t, names, p, bound)
}

fn pe_args(t: &[Tok], names: &Vec<String>, p: usize, bound: &mut Vec<String>) -> (r: Result<usize, String>)
    requires
        p <= t@.len() <= usize::MAX,
    ensures
        step_matches(pd_args(toks_view(t@), strs_view(names@), p as int, strs_view(old(bound)@)), p as int, t@.len() as int, r, strs_view(final(bound)@), false),
    decreases t@.len() - p, 3int,
{
    let q = match pe_arg(t, names, p, bound) {
        Ok(q) => q,
        Err(m) => return Err(m),
    };
    if is_tok(t, q, 2) {
        pe_args(t, names, q + 1, bound)
    } else {
        Ok(q)
    }
}

fn pe_arg(t: &[Tok], names: &Vec<String>, p: usize, bound: &mut Vec<String>) -> (r: Result<usize, String>)
    requires
        p <= t@.len() <= usize::MAX,
    ensures
        step_matches(pd_arg(toks_view(t@), strs_view(names@), p as int, strs_view(old(bound)@)), p as int, t@.len() as int, r, strs_view(final(bound)@), true),
    decreases t@.len() - p, 2int,
{
    let ghost tv = toks_view(t@);
    let keyword = p < t.len() && matches!(&t[p], Tok::Ident(_)) && is_eq_at(t, p + 1);
    if p < t.len() {
        assert(tv[p as int] == t@[p as int]@);
    }
    if keyword {
        if p + 2 >= t.len() {
            return Err(found_error("keyword-arg value expected, found ", t, p + 2));
        }
        assert(tv[p + 2] == t@[p + 2]@);
        match &t[p + 2] {
            Tok::Ident(v) => match check_ref(names, bound, v) {
                Ok(()) => Ok(p + 3),
                Err(m) => Err(m),
            },
            Tok::Num | Tok::Const => Ok(p + 3),
            _ => Err(found_error("keyword-arg value expected, found ", t, p + 2)),
        }
    } else {
        pe_expr(t, names, p, bound)
    }
}

fn pe_stmt(t: &[Tok], names: &Vec<String>, p: usize, bound: &mut Vec<String>) -> (r: Result<usize, String>)
    requires
        p <= t@.len() <= usize::MAX,
    ensures
        step_matches(pd_stmt(toks_view(t@), strs_view(names@), p as int, strs_view(old(bound)@)), p as int, t@.len() as int, r, strs_view(final(bound)@), true),
    decreases t@.len() - p, 2int,
{
    let ghost tv = toks_view(t@);
    if p < t.len() {
        assert(tv[p as int] == t@[p as int]@);
        if let Tok::Ident(n) = &t[p] {
            if is_eq_at(t, p + 1) {
                let q = match pe_expr(t, names, p + 2, bound) {
                    Ok(q) => q,
                    Err(m) => return Err(m),
                };
                if contains_str(bound, n.as_str()) {
                    let mut m = String::new();
                    push_str(&mut m, "`");
                    push_str(&mut m, n.as_str());
                    push_str(&mut m, "` bound more than once — not SSA");
                    return Err(m);
                }
                let ghost bv = strs_view(bound@);
                bound.push(n.clone());
                assert(strs_view(bound@) =~= bv.push(n@));
                return Ok(q);
            }
        }
    }
    pe_expr(t, names, p, bound)
}

fn pe_body_from(t: &[Tok], names: &Vec<String>, p: usize, bound: &mut Vec<String>) -> (r: Result<usize, String>)
    requires
        p <= t@.len() <= usize::MAX,
    ensures
        step_matches(pd_body_from(toks_view(t@), strs_view(names@), p as int, strs_view(old(bound)@)), p as int, t@.len() as int, r, strs_view(final(bound)@), true),
    decreases t@.len() - p, 3int,
{
    let q = match pe_stmt(t, names, p, bound) {
        Ok(q) => q,
        Err(m) => return Err(m),
    };
    if is_tok(t, q, 3) {
        pe_body_from(t, names, q + 1, bound)
    } else {
        Ok(q)
    }
}

/// Check a scalar-expression decomposition body: `Ok(())` when it is a
/// well-formed expression tree or SSA let-binding sequence, otherwise the
/// reason — including any prose token, which is how a structured op's body is
/// rejected. Each let name is bound once, after its defining expression; a
/// reference to a binding name must come after its binding; a bare identifier
/// that names no binding is a scalar-source leaf.
pub fn parse_scalar_body(body: &str) -> (r: Result<(), String>)
    ensures
        match scalar_body_spec(body@) {
            Ok(()) => r is Ok,
            Err(m) => r matches Err(x) && x@ == m,
        },
{
    let toks = match tokenize(body) {
        Ok(t) => t,
        Err(m) => return Err(m),
    };
    let names = collect_binding_names(toks.as_slice());
    if toks.len() == 0 {
        return Err(crate::text::string_from("empty body"));
    }
    let mut bound: Vec<String> = Vec::new();
    assert(strs_view(bound@) =~= Seq::<Seq<char>>::empty());
    let q = match pe_body_from(toks.as_slice(), &names, 0, &mut bound) {
        Ok(q) => q,
        Err(m) => return Err(m),
    };
    if q != toks.len() {
        let mut m = String::new();
        push_str(&mut m, "leftover tokens from position ");
        push_dec(&mut m, q as u64);
        push_str(&mut m, " — not a scalar-expression body");
        return Err(m);
    }
    Ok(())
}

} // verus!
