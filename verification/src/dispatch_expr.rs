//! The recursive-descent evaluator for the Dispatch expression grammar:
//! arithmetic over launch-scalar symbols, `ceil_div`, and the element
//! subscript `sym[k]`.
//!
//! ```text
//! expr   := term (('+' | '-') term)*
//! term   := factor (('*' | '/') factor)*
//! factor := int | 'ceil_div' '(' expr ',' expr ')' | symbol ('[' int ']')? | '(' expr ')'
//! ```
//! Left-associative; the subscript binds tighter than `* /`, which bind
//! tighter than `+ -`.
//!
//! The launch-scalar vocabulary splits into array symbols (`extents{i}`,
//! `strides{i}`, `idx_extents{i}`, which need a `[k]` subscript) and scalar
//! symbols (`n`, `ws_bytes`, `off{i}`, `param{i}`, which take none). A Domain
//! field must evaluate to a non-negative integer (every sub-expression too); a
//! structural field is exempt. Any malformed or out-of-vocabulary expression
//! is a typed `Decline`.

use vstd::prelude::*;
use vstd::utf8::encode_utf8;
use crate::text::{
    dec_chars, dec_int_chars, digits_value, parse_unsigned, parse_unsigned_chars, push_char,
    push_dec, push_dec_i64, push_str, str_bytes, str_eq,
};

verus! {

/// The concrete launch-scalar values an expression is evaluated against.
#[derive(Debug, Clone)]
pub struct LaunchScalars {
    /// The Interface `rank` — the axis count for every `extents{i}`/`strides{i}`.
    pub rank: u32,
    /// The element count `n`.
    pub n: i64,
    /// `extents[operand][axis]`.
    pub extents: Vec<Vec<i64>>,
    /// `strides[operand][axis]` (may be negative).
    pub strides: Vec<Vec<i64>>,
    /// `idx_extents[index-operand][axis]`; its rank is that row's length.
    pub idx_extents: Vec<Vec<i64>>,
    /// `off[operand]`, a scalar base offset per operand.
    pub off: Vec<i64>,
    /// The shared-memory/workspace byte count.
    pub ws_bytes: i64,
    /// `param[field]`, the declared op params.
    pub param: Vec<i64>,
}

/// Whether the non-negative post-condition applies (Domain fields) or not
/// (structural fields, which may carry signed strides).
#[derive(Debug, Clone, Copy, PartialEq, Eq, Structural)]
pub enum EvalMode {
    Domain,
    Structure,
}

/// A typed decline: a malformed or out-of-vocabulary expression is refused
/// with one of these, never a panic.
#[derive(Debug, Clone, PartialEq, Eq)]
pub enum Decline {
    /// An identifier that names no symbol in the launch-scalar vocabulary.
    UnknownSymbol(String),
    /// A `[k]` subscript applied to a scalar symbol.
    SubscriptOfScalar(String),
    /// An array symbol used with no `[k]` subscript.
    BareArraySymbol(String),
    /// `sym[k]` with `k >= rank` for that symbol's operand.
    SubscriptOutOfBounds { sym: String, k: u32, rank: u32 },
    /// Malformed input: an unexpected character or token, or unparseable
    /// arithmetic (a zero or non-positive divisor).
    ParseError(String),
    /// A Domain-mode expression (or one of its sub-expressions) evaluated
    /// negative.
    NegativeInDomain(i64),
}

pub enum DeclineView {
    UnknownSymbol(Seq<char>),
    SubscriptOfScalar(Seq<char>),
    BareArraySymbol(Seq<char>),
    SubscriptOutOfBounds { sym: Seq<char>, k: u32, rank: u32 },
    ParseError(Seq<char>),
    NegativeInDomain(i64),
}

impl View for Decline {
    type V = DeclineView;

    open spec fn view(&self) -> DeclineView {
        match self {
            Decline::UnknownSymbol(s) => DeclineView::UnknownSymbol(s@),
            Decline::SubscriptOfScalar(s) => DeclineView::SubscriptOfScalar(s@),
            Decline::BareArraySymbol(s) => DeclineView::BareArraySymbol(s@),
            Decline::SubscriptOutOfBounds { sym, k, rank } => DeclineView::SubscriptOutOfBounds {
                sym: sym@,
                k: *k,
                rank: *rank,
            },
            Decline::ParseError(s) => DeclineView::ParseError(s@),
            Decline::NegativeInDomain(v) => DeclineView::NegativeInDomain(*v),
        }
    }
}

// ---------------------------------------------------------------------------
// Tokens.
// ---------------------------------------------------------------------------

/// A lexical token of the expression grammar.
#[derive(Debug, Clone, PartialEq, Eq)]
pub enum Tok {
    Int(i64),
    Ident(String),
    Plus,
    Minus,
    Star,
    Slash,
    LParen,
    RParen,
    LBracket,
    RBracket,
    Comma,
    End,
}

pub enum TokV {
    Int(i64),
    Ident(Seq<char>),
    Plus,
    Minus,
    Star,
    Slash,
    LParen,
    RParen,
    LBracket,
    RBracket,
    Comma,
    End,
}

impl View for Tok {
    type V = TokV;

    open spec fn view(&self) -> TokV {
        match self {
            Tok::Int(v) => TokV::Int(*v),
            Tok::Ident(s) => TokV::Ident(s@),
            Tok::Plus => TokV::Plus,
            Tok::Minus => TokV::Minus,
            Tok::Star => TokV::Star,
            Tok::Slash => TokV::Slash,
            Tok::LParen => TokV::LParen,
            Tok::RParen => TokV::RParen,
            Tok::LBracket => TokV::LBracket,
            Tok::RBracket => TokV::RBracket,
            Tok::Comma => TokV::Comma,
            Tok::End => TokV::End,
        }
    }
}

/// A token's debug rendering (an identifier quoted).
pub open spec fn tok_debug(t: TokV) -> Seq<char> {
    match t {
        TokV::Int(v) => "Int("@ + dec_int_chars(v as int) + ")"@,
        TokV::Ident(s) => "Ident(\""@ + s + "\")"@,
        TokV::Plus => "Plus"@,
        TokV::Minus => "Minus"@,
        TokV::Star => "Star"@,
        TokV::Slash => "Slash"@,
        TokV::LParen => "LParen"@,
        TokV::RParen => "RParen"@,
        TokV::LBracket => "LBracket"@,
        TokV::RBracket => "RBracket"@,
        TokV::Comma => "Comma"@,
        TokV::End => "End"@,
    }
}

fn push_tok_debug(s: &mut String, t: &Tok)
    ensures
        final(s)@ == old(s)@ + tok_debug(t@),
{
    match t {
        Tok::Int(v) => {
            push_str(s, "Int(");
            push_dec_i64(s, *v);
            push_str(s, ")");
        },
        Tok::Ident(n) => {
            push_str(s, "Ident(\"");
            push_str(s, n.as_str());
            push_str(s, "\")");
        },
        Tok::Plus => push_str(s, "Plus"),
        Tok::Minus => push_str(s, "Minus"),
        Tok::Star => push_str(s, "Star"),
        Tok::Slash => push_str(s, "Slash"),
        Tok::LParen => push_str(s, "LParen"),
        Tok::RParen => push_str(s, "RParen"),
        Tok::LBracket => push_str(s, "LBracket"),
        Tok::RBracket => push_str(s, "RBracket"),
        Tok::Comma => push_str(s, "Comma"),
        Tok::End => push_str(s, "End"),
    }
}

// ---------------------------------------------------------------------------
// The lexer, as a specification over the source bytes.
// ---------------------------------------------------------------------------

/// ASCII whitespace: space, TAB, LF, FF, CR.
pub open spec fn ascii_ws(b: u8) -> bool {
    b == 32 || b == 9 || b == 10 || b == 12 || b == 13
}

pub open spec fn digit_byte(b: u8) -> bool {
    48 <= b <= 57
}

/// A byte that continues an identifier: `[a-z0-9_]`.
pub open spec fn ident_byte(b: u8) -> bool {
    (97 <= b <= 122) || digit_byte(b) || b == 95
}

/// The end of the run of digit (or identifier) bytes starting at `i`.
pub open spec fn run_end(b: Seq<u8>, i: int, ident: bool) -> int
    decreases b.len() - i,
{
    if i < 0 || i >= b.len() || !(if ident { ident_byte(b[i]) } else { digit_byte(b[i]) }) {
        i
    } else {
        run_end(b, i + 1, ident)
    }
}

pub proof fn lemma_run_end(b: Seq<u8>, i: int, ident: bool)
    requires
        0 <= i <= b.len(),
    ensures
        i <= run_end(b, i, ident) <= b.len(),
        forall|k: int| i <= k < run_end(b, i, ident) ==> (if ident { ident_byte(#[trigger] b[k]) } else { digit_byte(b[k]) }),
        run_end(b, i, ident) < b.len() ==> !(if ident { ident_byte(b[run_end(b, i, ident)]) } else { digit_byte(b[run_end(b, i, ident)]) }),
    decreases b.len() - i,
{
    if i < b.len() && (if ident { ident_byte(b[i]) } else { digit_byte(b[i]) }) {
        lemma_run_end(b, i + 1, ident);
    }
}

/// Bytes read one character each.
pub open spec fn byte_chars(s: Seq<u8>) -> Seq<char> {
    s.map_values(|x: u8| x as char)
}

/// Prepend a token to a successful token run.
pub open spec fn cons(t: TokV, r: Result<Seq<TokV>, DeclineView>) -> Result<Seq<TokV>, DeclineView> {
    match r {
        Ok(ts) => Ok(seq![t] + ts),
        Err(e) => Err(e),
    }
}

/// The tokens of `b` from position `i`: whitespace skipped, the operators and
/// brackets, decimal integer literals (within `i64`), `[a-z][a-z0-9_]*`
/// identifiers, and a final `End`; any other byte is a decline.
pub open spec fn lex_from(b: Seq<u8>, i: int) -> Result<Seq<TokV>, DeclineView>
    decreases b.len() - i,
{
    if i < 0 || i >= b.len() {
        Ok(seq![TokV::End])
    } else {
        let c = b[i];
        if ascii_ws(c) {
            lex_from(b, i + 1)
        } else if c == 43 {
            cons(TokV::Plus, lex_from(b, i + 1))
        } else if c == 45 {
            cons(TokV::Minus, lex_from(b, i + 1))
        } else if c == 42 {
            cons(TokV::Star, lex_from(b, i + 1))
        } else if c == 47 {
            cons(TokV::Slash, lex_from(b, i + 1))
        } else if c == 40 {
            cons(TokV::LParen, lex_from(b, i + 1))
        } else if c == 41 {
            cons(TokV::RParen, lex_from(b, i + 1))
        } else if c == 91 {
            cons(TokV::LBracket, lex_from(b, i + 1))
        } else if c == 93 {
            cons(TokV::RBracket, lex_from(b, i + 1))
        } else if c == 44 {
            cons(TokV::Comma, lex_from(b, i + 1))
        } else if digit_byte(c) || (97 <= c <= 122) {
            let ident = !digit_byte(c);
            let j = run_end(b, i + 1, ident);
            proof {
                lemma_run_end(b, i + 1, ident);
            }
            let s = byte_chars(b.subrange(i, j));
            if ident {
                cons(TokV::Ident(s), lex_from(b, j))
            } else if digits_value(s) > i64::MAX {
                Err(DeclineView::ParseError("bad integer literal `"@ + s + "`"@))
            } else {
                cons(TokV::Int(digits_value(s) as i64), lex_from(b, j))
            }
        } else {
            Err(DeclineView::ParseError("unexpected character `"@ + seq![c as char] + "`"@))
        }
    }
}

/// The tokens of an expression.
pub open spec fn lex_spec(src: Seq<char>) -> Result<Seq<TokV>, DeclineView> {
    lex_from(encode_utf8(src), 0)
}

/// A known token run followed by the tokens of the rest.
pub open spec fn after(ts: Seq<TokV>, r: Result<Seq<TokV>, DeclineView>) -> Result<Seq<TokV>, DeclineView> {
    match r {
        Ok(t) => Ok(ts + t),
        Err(e) => Err(e),
    }
}

pub open spec fn toks_view(v: Seq<Tok>) -> Seq<TokV> {
    v.map_values(|t: Tok| t@)
}

fn in_run(c: u8, ident: bool) -> (r: bool)
    ensures
        r == if ident { ident_byte(c) } else { digit_byte(c) },
{
    if ident {
        (97 <= c && c <= 122) || (48 <= c && c <= 57) || c == 95
    } else {
        48 <= c && c <= 57
    }
}

fn byte_string(b: &[u8], start: usize, end: usize) -> (s: String)
    requires
        start <= end <= b@.len(),
        forall|k: int| start <= k < end ==> (b@[k] as u32) < 128,
    ensures
        s@ == byte_chars(b@.subrange(start as int, end as int)),
{
    let mut s = String::new();
    let mut i = start;
    while i < end
        invariant
            start <= i <= end <= b@.len(),
            forall|k: int| start <= k < end ==> (b@[k] as u32) < 128,
            s@ == byte_chars(b@.subrange(start as int, i as int)),
        decreases end - i,
    {
        let c = b[i] as char;
        push_char(&mut s, c);
        assert(byte_chars(b@.subrange(start as int, i + 1)) =~= byte_chars(b@.subrange(start as int, i as int)).push(c));
        i += 1;
    }
    s
}

/// Tokenize an expression: integer literals, identifiers, `+ - * /`,
/// `( ) [ ] ,`, and a final `End`. Any other character is a typed decline.
fn lex(src: &str) -> (r: Result<Vec<Tok>, Decline>)
    ensures
        match lex_spec(src@) {
            Ok(ts) => r matches Ok(v) && toks_view(v@) == ts,
            Err(e) => r matches Err(d) && d@ == e,
        },
{
    let b = str_bytes(src);
    let ghost bv = b@;
    let mut toks: Vec<Tok> = Vec::new();
    let mut i: usize = 0;
    while i < b.len()
        invariant
            bv == b@,
            bv == encode_utf8(src@),
            i <= bv.len(),
            lex_from(bv, 0) == after(toks_view(toks@), lex_from(bv, i as int)),
        decreases b.len() - i,
    {
        let c = b[i];
        let ghost tv = toks_view(toks@);
        if c == 32 || c == 9 || c == 10 || c == 12 || c == 13 {
            i += 1;
            continue;
        }
        let simple: Option<Tok> = if c == 43 {
            Some(Tok::Plus)
        } else if c == 45 {
            Some(Tok::Minus)
        } else if c == 42 {
            Some(Tok::Star)
        } else if c == 47 {
            Some(Tok::Slash)
        } else if c == 40 {
            Some(Tok::LParen)
        } else if c == 41 {
            Some(Tok::RParen)
        } else if c == 91 {
            Some(Tok::LBracket)
        } else if c == 93 {
            Some(Tok::RBracket)
        } else if c == 44 {
            Some(Tok::Comma)
        } else {
            None
        };
        match simple {
            Some(t) => {
                assert(lex_from(bv, i as int) == cons(t@, lex_from(bv, i + 1)));
                toks.push(t);
                assert(toks_view(toks@) =~= tv.push(t@));
                assert(after(tv, cons(t@, lex_from(bv, i + 1))) =~= after(tv.push(t@), lex_from(bv, i + 1)))
                    by {
                    match lex_from(bv, i + 1) {
                        Ok(rest) => {
                            assert(tv + (seq![t@] + rest) =~= tv.push(t@) + rest);
                        },
                        Err(_) => {},
                    }
                }
                i += 1;
            },
            None => {
                let is_digit = 48 <= c && c <= 57;
                if !(is_digit || (97 <= c && c <= 122)) {
                    let mut s = String::new();
                    push_str(&mut s, "unexpected character `");
                    push_char(&mut s, c as char);
                    push_str(&mut s, "`");
                    assert(s@ =~= "unexpected character `"@ + seq![c as char] + "`"@);
                    assert(c != 43 && c != 45 && c != 42 && c != 47 && c != 40 && c != 41 && c != 91 && c != 93 && c != 44);
                    assert(lex_from(bv, i as int) == Err::<Seq<TokV>, DeclineView>(DeclineView::ParseError(s@)));
                    return Err(Decline::ParseError(s));
                }
                let start = i;
                i += 1;
                proof {
                    lemma_run_end(bv, i as int, !is_digit);
                }
                while i < b.len() && in_run(b[i], !is_digit)
                    invariant
                        bv == b@,
                        start < i <= bv.len(),
                        run_end(bv, start + 1, !is_digit) == run_end(bv, i as int, !is_digit),
                    decreases b.len() - i,
                {
                    i += 1;
                }
                assert(run_end(bv, i as int, !is_digit) == i);
                proof {
                    lemma_run_end(bv, start + 1, !is_digit);
                    assert forall|k: int| start <= k < i implies (bv[k] as u32) < 128 by {
                        if k > start {
                            assert(if !is_digit { ident_byte(bv[k]) } else { digit_byte(bv[k]) });
                        }
                    }
                }
                let word = byte_string(b.as_slice(), start, i);
                let t = if is_digit {
                    let cs = crate::text::chars_of(word.as_str());
                    match parse_unsigned_chars(cs.as_slice(), 0x7FFF_FFFF_FFFF_FFFF) {
                        Some(v) => Tok::Int(v as i64),
                        None => {
                            let mut s = String::new();
                            push_str(&mut s, "bad integer literal `");
                            push_str(&mut s, word.as_str());
                            push_str(&mut s, "`");
                            proof {
                                assert(crate::text::all_digits(word@)) by {
                                    assert forall|k: int| 0 <= k < word@.len() implies crate::text::is_digit_char(#[trigger] word@[k]) by {
                                        assert(word@[k] == bv[start + k] as char);
                                        if start + k > start {
                                            assert(digit_byte(bv[start + k]));
                                        }
                                    }
                                }
                            }
                            return Err(Decline::ParseError(s));
                        },
                    }
                } else {
                    Tok::Ident(word)
                };
                proof {
                    if is_digit {
                        assert(crate::text::all_digits(word@)) by {
                            assert forall|k: int| 0 <= k < word@.len() implies crate::text::is_digit_char(#[trigger] word@[k]) by {
                                assert(word@[k] == bv[start + k] as char);
                                if start + k > start {
                                    assert(digit_byte(bv[start + k]));
                                }
                            }
                        }
                    }
                }
                assert(lex_from(bv, start as int) == cons(t@, lex_from(bv, i as int)));
                toks.push(t);
                assert(toks_view(toks@) =~= tv.push(t@));
                assert(after(tv, cons(t@, lex_from(bv, i as int))) =~= after(tv.push(t@), lex_from(bv, i as int)))
                    by {
                    match lex_from(bv, i as int) {
                        Ok(rest) => {
                            assert(tv + (seq![t@] + rest) =~= tv.push(t@) + rest);
                        },
                        Err(_) => {},
                    }
                }
            },
        }
    }
    let ghost tv = toks_view(toks@);
    toks.push(Tok::End);
    assert(toks_view(toks@) =~= tv + seq![TokV::End]);
    Ok(toks)
}


// ---------------------------------------------------------------------------
// The parser, as a specification over the tokens.
// ---------------------------------------------------------------------------

/// An expression tree.
pub enum AstV {
    Int(i64),
    Symbol(Seq<char>),
    Subscript(Seq<char>, u32),
    Add(Box<AstV>, Box<AstV>),
    Sub(Box<AstV>, Box<AstV>),
    Mul(Box<AstV>, Box<AstV>),
    Div(Box<AstV>, Box<AstV>),
    CeilDiv(Box<AstV>, Box<AstV>),
}

/// The token at `p` (`End` past the end).
pub open spec fn tok_at(t: Seq<TokV>, p: int) -> TokV {
    if 0 <= p < t.len() { t[p] } else { TokV::End }
}

/// The decline for a missing expected token.
pub open spec fn expect_error(t: Seq<TokV>, p: int, want: TokV) -> DeclineView {
    DeclineView::ParseError("expected "@ + tok_debug(want) + ", found "@ + tok_debug(tok_at(t, p)))
}

/// The result of parsing: a tree and the position after it.
pub type Parsed = Result<(AstV, int), DeclineView>;

/// `expr := term (('+' | '-') term)*`, from position `p`.
pub open spec fn p_expr(t: Seq<TokV>, p: int) -> Parsed
    decreases t.len() - p, 5int,
{
    match p_term(t, p) {
        Err(e) => Err(e),
        Ok((l, q)) => if p <= q <= t.len() {
            p_expr_rest(t, l, q)
        } else {
            Ok((l, q))
        },
    }
}

/// The `(('+' | '-') term)*` tail of an expression after `lhs`, at `q`.
pub open spec fn p_expr_rest(t: Seq<TokV>, lhs: AstV, q: int) -> Parsed
    decreases t.len() - q, 4int,
{
    let op = tok_at(t, q);
    if op is Plus || op is Minus {
        match p_term(t, q + 1) {
            Err(e) => Err(e),
            Ok((r, q2)) => {
                let node = if op is Plus { AstV::Add(Box::new(lhs), Box::new(r)) } else {
                    AstV::Sub(Box::new(lhs), Box::new(r))
                };
                if q < q2 <= t.len() {
                    p_expr_rest(t, node, q2)
                } else {
                    Ok((node, q2))
                }
            },
        }
    } else {
        Ok((lhs, q))
    }
}

/// `term := factor (('*' | '/') factor)*`, from position `p`.
pub open spec fn p_term(t: Seq<TokV>, p: int) -> Parsed
    decreases t.len() - p, 3int,
{
    match p_factor(t, p) {
        Err(e) => Err(e),
        Ok((l, q)) => if p <= q <= t.len() {
            p_term_rest(t, l, q)
        } else {
            Ok((l, q))
        },
    }
}

/// The `(('*' | '/') factor)*` tail of a term after `lhs`, at `q`.
pub open spec fn p_term_rest(t: Seq<TokV>, lhs: AstV, q: int) -> Parsed
    decreases t.len() - q, 1int,
{
    let op = tok_at(t, q);
    if op is Star || op is Slash {
        match p_factor(t, q + 1) {
            Err(e) => Err(e),
            Ok((r, q2)) => {
                let node = if op is Star { AstV::Mul(Box::new(lhs), Box::new(r)) } else {
                    AstV::Div(Box::new(lhs), Box::new(r))
                };
                if q < q2 <= t.len() {
                    p_term_rest(t, node, q2)
                } else {
                    Ok((node, q2))
                }
            },
        }
    } else {
        Ok((lhs, q))
    }
}

/// `ceil_div '(' expr ',' expr ')'`, its name at `p`.
pub open spec fn p_ceil_div(t: Seq<TokV>, p: int) -> Parsed
    decreases t.len() - p, 1int,
{
    if !(tok_at(t, p + 1) is LParen) {
        Err(expect_error(t, p + 1, TokV::LParen))
    } else if p + 2 > t.len() {
        Err(expect_error(t, p + 1, TokV::LParen))
    } else {
        match p_expr(t, p + 2) {
            Err(e) => Err(e),
            Ok((a, q)) => if !(tok_at(t, q) is Comma) {
                Err(expect_error(t, q, TokV::Comma))
            } else if p < q < t.len() {
                match p_expr(t, q + 1) {
                    Err(e) => Err(e),
                    Ok((b, q2)) => if tok_at(t, q2) is RParen {
                        Ok((AstV::CeilDiv(Box::new(a), Box::new(b)), q2 + 1))
                    } else {
                        Err(expect_error(t, q2, TokV::RParen))
                    },
                }
            } else {
                Err(expect_error(t, q, TokV::Comma))
            },
        }
    }
}

/// `factor := int | ceil_div '(' expr ',' expr ')' | symbol ('[' int ']')? | '(' expr ')'`.
pub open spec fn p_factor(t: Seq<TokV>, p: int) -> Parsed
    decreases t.len() - p, 2int,
{
    match tok_at(t, p) {
        TokV::Int(v) => Ok((AstV::Int(v), p + 1)),
        TokV::LParen => match p_expr(t, p + 1) {
            Err(e) => Err(e),
            Ok((e, q)) => if tok_at(t, q) is RParen {
                Ok((e, q + 1))
            } else {
                Err(expect_error(t, q, TokV::RParen))
            },
        },
        TokV::Ident(name) => if name == "ceil_div"@ {
            p_ceil_div(t, p)
        } else if tok_at(t, p + 1) is LBracket {
            match tok_at(t, p + 2) {
                TokV::Int(v) => if v >= 0 {
                    if tok_at(t, p + 3) is RBracket {
                        Ok((AstV::Subscript(name, (v % 0x1_0000_0000) as u32), p + 4))
                    } else {
                        Err(expect_error(t, p + 3, TokV::RBracket))
                    }
                } else {
                    Err(DeclineView::ParseError("expected a non-negative integer subscript after `"@ + name
                        + "[`, found "@ + tok_debug(tok_at(t, p + 2))))
                },
                other => Err(DeclineView::ParseError("expected a non-negative integer subscript after `"@
                    + name + "[`, found "@ + tok_debug(other))),
            }
        } else {
            Ok((AstV::Symbol(name), p + 1))
        },
        other => Err(DeclineView::ParseError("unexpected token "@ + tok_debug(other))),
    }
}

/// An expression tree, built while parsing.
pub enum Ast {
    Int(i64),
    Symbol(String),
    Subscript(String, u32),
    Add(Box<Ast>, Box<Ast>),
    Sub(Box<Ast>, Box<Ast>),
    Mul(Box<Ast>, Box<Ast>),
    Div(Box<Ast>, Box<Ast>),
    CeilDiv(Box<Ast>, Box<Ast>),
}

pub open spec fn ast_view(a: Ast) -> AstV
    decreases a,
{
    match a {
        Ast::Int(v) => AstV::Int(v),
        Ast::Symbol(s) => AstV::Symbol(s@),
        Ast::Subscript(s, k) => AstV::Subscript(s@, k),
        Ast::Add(x, y) => AstV::Add(Box::new(ast_view(*x)), Box::new(ast_view(*y))),
        Ast::Sub(x, y) => AstV::Sub(Box::new(ast_view(*x)), Box::new(ast_view(*y))),
        Ast::Mul(x, y) => AstV::Mul(Box::new(ast_view(*x)), Box::new(ast_view(*y))),
        Ast::Div(x, y) => AstV::Div(Box::new(ast_view(*x)), Box::new(ast_view(*y))),
        Ast::CeilDiv(x, y) => AstV::CeilDiv(Box::new(ast_view(*x)), Box::new(ast_view(*y))),
    }
}

/// A token run as the lexer leaves it: ending in `End`, with no `End` before.
pub open spec fn well_ended(t: Seq<TokV>) -> bool {
    t.len() > 0 && t.last() is End && forall|i: int| 0 <= i < t.len() - 1 ==> !(#[trigger] t[i] is End)
}

/// The view of an exec parse result.
pub open spec fn parsed_view(r: Result<(Ast, usize), Decline>) -> Parsed {
    match r {
        Ok((a, q)) => Ok((ast_view(a), q as int)),
        Err(d) => Err(d@),
    }
}

fn tok_is_end(t: &Tok) -> (r: bool)
    ensures
        r == (t@ is End),
{
    match t {
        Tok::End => true,
        _ => false,
    }
}

fn expect_fail(toks: &[Tok], q: usize, want: &Tok) -> (d: Decline)
    requires
        q < toks@.len(),
    ensures
        d@ == expect_error(toks_view(toks@), q as int, want@),
{
    let mut s = String::new();
    push_str(&mut s, "expected ");
    push_tok_debug(&mut s, want);
    push_str(&mut s, ", found ");
    push_tok_debug(&mut s, &toks[q]);
    assert(toks_view(toks@)[q as int] == toks@[q as int]@);
    Decline::ParseError(s)
}

fn p_expr_exec(toks: &[Tok], p: usize) -> (r: Result<(Ast, usize), Decline>)
    requires
        well_ended(toks_view(toks@)),
        toks_view(toks@).len() == toks@.len(),
        p < toks@.len(),
    ensures
        parsed_view(r) == p_expr(toks_view(toks@), p as int),
        r matches Ok((_, q)) ==> p < q < toks@.len(),
    decreases toks@.len() - p, 5int,
{
    let (l, q) = match p_term_exec(toks, p) {
        Ok(x) => x,
        Err(e) => return Err(e),
    };
    p_expr_rest_exec(toks, l, q)
}

fn p_expr_rest_exec(toks: &[Tok], lhs: Ast, q: usize) -> (r: Result<(Ast, usize), Decline>)
    requires
        well_ended(toks_view(toks@)),
        toks_view(toks@).len() == toks@.len(),
        q < toks@.len(),
    ensures
        parsed_view(r) == p_expr_rest(toks_view(toks@), ast_view(lhs), q as int),
        r matches Ok((_, q2)) ==> q <= q2 < toks@.len(),
    decreases toks@.len() - q, 4int,
{
    let ghost t = toks_view(toks@);
    assert(t[q as int] == toks@[q as int]@);
    let is_plus = match &toks[q] { Tok::Plus => true, _ => false };
    let is_minus = match &toks[q] { Tok::Minus => true, _ => false };
    if !is_plus && !is_minus {
        return Ok((lhs, q));
    }
    assert(q + 1 < toks@.len());
    let (r, q2) = match p_term_exec(toks, q + 1) {
        Ok(x) => x,
        Err(e) => return Err(e),
    };
    let node = if is_plus { Ast::Add(Box::new(lhs), Box::new(r)) } else { Ast::Sub(Box::new(lhs), Box::new(r)) };
    p_expr_rest_exec(toks, node, q2)
}

fn p_term_exec(toks: &[Tok], p: usize) -> (r: Result<(Ast, usize), Decline>)
    requires
        well_ended(toks_view(toks@)),
        toks_view(toks@).len() == toks@.len(),
        p < toks@.len(),
    ensures
        parsed_view(r) == p_term(toks_view(toks@), p as int),
        r matches Ok((_, q)) ==> p < q < toks@.len(),
    decreases toks@.len() - p, 3int,
{
    let (l, q) = match p_factor_exec(toks, p) {
        Ok(x) => x,
        Err(e) => return Err(e),
    };
    p_term_rest_exec(toks, l, q)
}

fn p_term_rest_exec(toks: &[Tok], lhs: Ast, q: usize) -> (r: Result<(Ast, usize), Decline>)
    requires
        well_ended(toks_view(toks@)),
        toks_view(toks@).len() == toks@.len(),
        q < toks@.len(),
    ensures
        parsed_view(r) == p_term_rest(toks_view(toks@), ast_view(lhs), q as int),
        r matches Ok((_, q2)) ==> q <= q2 < toks@.len(),
    decreases toks@.len() - q, 1int,
{
    let ghost t = toks_view(toks@);
    assert(t[q as int] == toks@[q as int]@);
    let is_star = match &toks[q] { Tok::Star => true, _ => false };
    let is_slash = match &toks[q] { Tok::Slash => true, _ => false };
    if !is_star && !is_slash {
        return Ok((lhs, q));
    }
    assert(q + 1 < toks@.len());
    let (r, q2) = match p_factor_exec(toks, q + 1) {
        Ok(x) => x,
        Err(e) => return Err(e),
    };
    let node = if is_star { Ast::Mul(Box::new(lhs), Box::new(r)) } else { Ast::Div(Box::new(lhs), Box::new(r)) };
    p_term_rest_exec(toks, node, q2)
}

fn subscript_fail(name: &String, found: &Tok) -> (d: Decline)
    ensures
        d@ == DeclineView::ParseError("expected a non-negative integer subscript after `"@ + name@
            + "[`, found "@ + tok_debug(found@)),
{
    let mut s = String::new();
    push_str(&mut s, "expected a non-negative integer subscript after `");
    push_str(&mut s, name.as_str());
    push_str(&mut s, "[`, found ");
    push_tok_debug(&mut s, found);
    Decline::ParseError(s)
}

fn p_ceil_div_exec(toks: &[Tok], p: usize) -> (r: Result<(Ast, usize), Decline>)
    requires
        well_ended(toks_view(toks@)),
        toks_view(toks@).len() == toks@.len(),
        p < toks@.len(),
        !(toks_view(toks@)[p as int] is End),
    ensures
        parsed_view(r) == p_ceil_div(toks_view(toks@), p as int),
        r matches Ok((_, q)) ==> p < q < toks@.len(),
    decreases toks@.len() - p, 1int,
{
    let ghost t = toks_view(toks@);
    let n = toks.len();
    assert(forall|i: int| 0 <= i < n ==> #[trigger] t[i] == toks@[i]@);
    assert(p + 1 < n);
    if !matches!(&toks[p + 1], Tok::LParen) {
        return Err(expect_fail(toks, p + 1, &Tok::LParen));
    }
    assert(p + 2 < n);
    let (a, q) = match p_expr_exec(toks, p + 2) {
        Ok(x) => x,
        Err(d) => return Err(d),
    };
    if !matches!(&toks[q], Tok::Comma) {
        return Err(expect_fail(toks, q, &Tok::Comma));
    }
    assert(q + 1 < n);
    let (b, q2) = match p_expr_exec(toks, q + 1) {
        Ok(x) => x,
        Err(d) => return Err(d),
    };
    if !matches!(&toks[q2], Tok::RParen) {
        return Err(expect_fail(toks, q2, &Tok::RParen));
    }
    assert(q2 + 1 < n);
    Ok((Ast::CeilDiv(Box::new(a), Box::new(b)), q2 + 1))
}

fn p_factor_exec(toks: &[Tok], p: usize) -> (r: Result<(Ast, usize), Decline>)
    requires
        well_ended(toks_view(toks@)),
        toks_view(toks@).len() == toks@.len(),
        p < toks@.len(),
    ensures
        parsed_view(r) == p_factor(toks_view(toks@), p as int),
        r matches Ok((_, q)) ==> p < q < toks@.len(),
    decreases toks@.len() - p, 2int,
{
    let ghost t = toks_view(toks@);
    let n = toks.len();
    assert(t[p as int] == toks@[p as int]@);
    assert(forall|i: int| 0 <= i < n ==> #[trigger] t[i] == toks@[i]@);
    match &toks[p] {
        Tok::Int(v) => {
            assert(p + 1 < n);
            Ok((Ast::Int(*v), p + 1))
        },
        Tok::LParen => {
            let (e, q) = match p_expr_exec(toks, p + 1) {
                Ok(x) => x,
                Err(d) => return Err(d),
            };
            if !matches!(&toks[q], Tok::RParen) {
                return Err(expect_fail(toks, q, &Tok::RParen));
            }
            assert(q + 1 < n);
            Ok((e, q + 1))
        },
        Tok::Ident(name) => {
            if str_eq(name.as_str(), "ceil_div") {
                p_ceil_div_exec(toks, p)
            } else if matches!(&toks[p + 1], Tok::LBracket) {
                match &toks[p + 2] {
                    Tok::Int(v) => {
                        if *v >= 0 {
                            if !matches!(&toks[p + 3], Tok::RBracket) {
                                return Err(expect_fail(toks, p + 3, &Tok::RBracket));
                            }
                            assert(p + 4 < n);
                            let k: u32 = (*v % 0x1_0000_0000) as u32;
                            Ok((Ast::Subscript(name.clone(), k), p + 4))
                        } else {
                            Err(subscript_fail(name, &toks[p + 2]))
                        }
                    },
                    other => Err(subscript_fail(name, other)),
                }
            } else {
                Ok((Ast::Symbol(name.clone()), p + 1))
            }
        },
        other => {
            let mut s = String::new();
            push_str(&mut s, "unexpected token ");
            push_tok_debug(&mut s, other);
            Err(Decline::ParseError(s))
        },
    }
}


// ---------------------------------------------------------------------------
// Symbol resolution and evaluation, as specifications.
// ---------------------------------------------------------------------------

/// Where the trailing digit run of a spelling starts (its length if none).
pub open spec fn digit_start(s: Seq<char>) -> int
    decreases s.len(),
{
    if s.len() == 0 {
        0
    } else if crate::text::is_digit_char(s.last()) {
        digit_start(s.drop_last())
    } else {
        s.len() as int
    }
}

/// A spelling's base name and its trailing operand index (when the digit run
/// is non-empty and fits a `u32`).
pub open spec fn split_ident_of(s: Seq<char>) -> (Seq<char>, Option<nat>) {
    let ds = digit_start(s);
    if ds < s.len() {
        (s.take(ds), parse_unsigned(s.skip(ds), 0xFFFF_FFFF))
    } else {
        (s, None)
    }
}

/// What evaluating (part of) an expression comes to: a value or a decline.
pub enum Outcome {
    Val(int),
    Decl(DeclineView),
}

/// The decline for arithmetic that leaves `i64`.
pub open spec fn overflow_decline() -> DeclineView {
    DeclineView::ParseError("arithmetic overflows i64"@)
}

pub open spec fn in_i64(v: int) -> bool {
    i64::MIN <= v <= i64::MAX
}

/// A bare (non-subscripted) symbol resolved.
pub open spec fn resolve_scalar_of(name: Seq<char>, s: LaunchScalars) -> Outcome {
    let (base, idx) = split_ident_of(name);
    if base == "n"@ && idx is None {
        Outcome::Val(s.n as int)
    } else if base == "ws_bytes"@ && idx is None {
        Outcome::Val(s.ws_bytes as int)
    } else if base == "off"@ && idx is Some {
        if idx->0 < s.off@.len() { Outcome::Val(s.off@[idx->0 as int] as int) } else {
            Outcome::Decl(DeclineView::UnknownSymbol(name))
        }
    } else if base == "param"@ && idx is Some {
        if idx->0 < s.param@.len() { Outcome::Val(s.param@[idx->0 as int] as int) } else {
            Outcome::Decl(DeclineView::UnknownSymbol(name))
        }
    } else if (base == "extents"@ || base == "strides"@ || base == "idx_extents"@) && idx is Some {
        Outcome::Decl(DeclineView::BareArraySymbol(name))
    } else {
        Outcome::Decl(DeclineView::UnknownSymbol(name))
    }
}

/// Axis `k` of row `i` of a rank-`rank` array symbol.
pub open spec fn rank_array_of(name: Seq<char>, rows: Seq<Vec<i64>>, i: nat, k: u32, rank: u32) -> Outcome {
    if i >= rows.len() {
        Outcome::Decl(DeclineView::UnknownSymbol(name))
    } else if k >= rank || k >= rows[i as int]@.len() {
        Outcome::Decl(DeclineView::SubscriptOutOfBounds { sym: name, k, rank })
    } else {
        Outcome::Val(rows[i as int]@[k as int] as int)
    }
}

/// A `sym[k]` reference resolved.
pub open spec fn resolve_subscript_of(name: Seq<char>, k: u32, s: LaunchScalars) -> Outcome {
    let (base, idx) = split_ident_of(name);
    if (base == "n"@ && idx is None) || (base == "ws_bytes"@ && idx is None) || (base == "off"@ && idx is Some)
        || (base == "param"@ && idx is Some) {
        Outcome::Decl(DeclineView::SubscriptOfScalar(name))
    } else if base == "extents"@ && idx is Some {
        rank_array_of(name, s.extents@, idx->0, k, s.rank)
    } else if base == "strides"@ && idx is Some {
        rank_array_of(name, s.strides@, idx->0, k, s.rank)
    } else if base == "idx_extents"@ && idx is Some {
        if idx->0 >= s.idx_extents@.len() {
            Outcome::Decl(DeclineView::UnknownSymbol(name))
        } else {
            let row = s.idx_extents@[idx->0 as int]@;
            let rank = (row.len() % 0x1_0000_0000) as u32;
            if k >= rank {
                Outcome::Decl(DeclineView::SubscriptOutOfBounds { sym: name, k, rank })
            } else {
                Outcome::Val(row[k as int] as int)
            }
        }
    } else {
        Outcome::Decl(DeclineView::UnknownSymbol(name))
    }
}

/// Truncating division (toward zero), as Rust's `/` on integers.
pub open spec fn trunc_div(a: int, b: int) -> int {
    let q = (if a < 0 { -a } else { a }) / (if b < 0 { -b } else { b });
    if (a < 0) != (b < 0) { -q } else { q }
}

/// A binary node: its left operand, then its right, then the operation.
pub open spec fn binary(x: Outcome, y: Outcome, op: spec_fn(int, int) -> Outcome) -> Outcome {
    match x {
        Outcome::Val(a) => match y {
            Outcome::Val(b) => op(a, b),
            o => o,
        },
        o => o,
    }
}

pub open spec fn checked(v: int) -> Outcome {
    if in_i64(v) { Outcome::Val(v) } else { Outcome::Decl(overflow_decline()) }
}

/// The value of a tree: symbols resolved, `+ - *` in `i64` (overflow
/// declined), `/` truncating with a zero divisor declined, `ceil_div` over a
/// positive divisor only; in Domain mode every node's value must be
/// non-negative.
pub open spec fn eval_of(a: AstV, s: LaunchScalars, mode: EvalMode) -> Outcome
    decreases a, 1int,
{
    match raw_of(a, s, mode) {
        Outcome::Val(v) => if mode == EvalMode::Domain && v < 0 {
            Outcome::Decl(DeclineView::NegativeInDomain(v as i64))
        } else {
            Outcome::Val(v)
        },
        o => o,
    }
}

/// A node's own value, before the Domain check on it.
pub open spec fn raw_of(a: AstV, s: LaunchScalars, mode: EvalMode) -> Outcome
    decreases a, 0int,
{
    match a {
        AstV::Int(v) => Outcome::Val(v as int),
        AstV::Symbol(n) => resolve_scalar_of(n, s),
        AstV::Subscript(n, k) => resolve_subscript_of(n, k, s),
        AstV::Add(x, y) => binary(eval_of(*x, s, mode), eval_of(*y, s, mode), |a: int, b: int| checked(a + b)),
        AstV::Sub(x, y) => binary(eval_of(*x, s, mode), eval_of(*y, s, mode), |a: int, b: int| checked(a - b)),
        AstV::Mul(x, y) => binary(eval_of(*x, s, mode), eval_of(*y, s, mode), |a: int, b: int| checked(a * b)),
        AstV::Div(x, y) => binary(eval_of(*x, s, mode), eval_of(*y, s, mode), |a: int, b: int|
            if b == 0 {
                Outcome::Decl(DeclineView::ParseError("division by zero"@))
            } else {
                checked(trunc_div(a, b))
            }),
        AstV::CeilDiv(x, y) => binary(eval_of(*x, s, mode), eval_of(*y, s, mode), |a: int, b: int|
            if b <= 0 {
                Outcome::Decl(DeclineView::ParseError("ceil_div divisor must be positive, got "@ + dec_int_chars(b)))
            } else if !in_i64(a + b) || !in_i64(a + b - 1) {
                Outcome::Decl(overflow_decline())
            } else {
                Outcome::Val((a + b - 1) / b)
            }),
    }
}

/// What evaluating an expression comes to: lexing, then parsing a whole
/// expression up to `End`, then evaluating it.
pub open spec fn eval_spec(expr: Seq<char>, s: LaunchScalars, mode: EvalMode) -> Outcome {
    match lex_spec(expr) {
        Err(e) => Outcome::Decl(e),
        Ok(t) => match p_expr(t, 0) {
            Err(e) => Outcome::Decl(e),
            Ok((a, q)) => if !(tok_at(t, q) is End) {
                Outcome::Decl(DeclineView::ParseError("trailing input at token "@ + tok_debug(tok_at(t, q))))
            } else {
                eval_of(a, s, mode)
            },
        },
    }
}


// ---------------------------------------------------------------------------
// Symbol resolution and evaluation, executable.
// ---------------------------------------------------------------------------

pub open spec fn outcome_matches(o: Outcome, r: Result<i64, Decline>) -> bool {
    match o {
        Outcome::Val(v) => in_i64(v) && r == Ok::<i64, Decline>(v as i64),
        Outcome::Decl(d) => r matches Err(e) && e@ == d,
    }
}

fn split_ident(name: &String) -> (r: (String, Option<u32>))
    ensures
        r.0@ == split_ident_of(name@).0,
        match split_ident_of(name@).1 {
            Some(i) => r.1 == Some(i as u32),
            None => r.1 is None,
        },
{
    let cs = crate::text::chars_of(name.as_str());
    let mut j: usize = cs.len();
    assert(cs@.take(j as int) == cs@);
    while j > 0 && '0' <= cs[j - 1] && cs[j - 1] <= '9'
        invariant
            j <= cs@.len(),
            cs@ == name@,
            digit_start(cs@) == digit_start(cs@.take(j as int)),
        decreases j,
    {
        assert(cs@.take(j as int).drop_last() == cs@.take(j - 1));
        j -= 1;
    }
    assert(j == 0 || !crate::text::is_digit_char(cs@.take(j as int).last()));
    assert(digit_start(cs@) == j);
    if j < cs.len() {
        let tail = crate::text::chars_skip(cs.as_slice(), j);
        let mut head: Vec<char> = Vec::new();
        let mut k: usize = 0;
        while k < j
            invariant
                k <= j <= cs@.len(),
                head@ == cs@.take(k as int),
            decreases j - k,
        {
            head.push(cs[k]);
            k += 1;
            assert(cs@.take(k as int) == cs@.take(k - 1).push(cs@[k - 1]));
        }
        let idx = parse_unsigned_chars(tail.as_slice(), 0xFFFF_FFFF);
        let idx32: Option<u32> = match idx {
            Some(v) => Some(v as u32),
            None => None,
        };
        (crate::text::string_of(head.as_slice()), idx32)
    } else {
        (name.clone(), None)
    }
}

fn resolve_scalar(name: &String, s: &LaunchScalars) -> (r: Result<i64, Decline>)
    ensures
        outcome_matches(resolve_scalar_of(name@, *s), r),
{
    let (base, idx) = split_ident(name);
    let b = base.as_str();
    match idx {
        None => {
            if str_eq(b, "n") {
                Ok(s.n)
            } else if str_eq(b, "ws_bytes") {
                Ok(s.ws_bytes)
            } else {
                Err(Decline::UnknownSymbol(name.clone()))
            }
        },
        Some(i) => {
            if str_eq(b, "off") {
                if (i as usize) < s.off.len() { Ok(s.off[i as usize]) } else { Err(Decline::UnknownSymbol(name.clone())) }
            } else if str_eq(b, "param") {
                if (i as usize) < s.param.len() { Ok(s.param[i as usize]) } else { Err(Decline::UnknownSymbol(name.clone())) }
            } else if str_eq(b, "extents") || str_eq(b, "strides") || str_eq(b, "idx_extents") {
                Err(Decline::BareArraySymbol(name.clone()))
            } else {
                Err(Decline::UnknownSymbol(name.clone()))
            }
        },
    }
}

fn resolve_rank_array(name: &String, rows: &Vec<Vec<i64>>, i: u32, k: u32, rank: u32) -> (r: Result<i64, Decline>)
    ensures
        outcome_matches(rank_array_of(name@, rows@, i as nat, k, rank), r),
{
    if (i as usize) >= rows.len() {
        return Err(Decline::UnknownSymbol(name.clone()));
    }
    let row = &rows[i as usize];
    if k >= rank || (k as usize) >= row.len() {
        return Err(Decline::SubscriptOutOfBounds { sym: name.clone(), k, rank });
    }
    Ok(row[k as usize])
}

fn resolve_subscript(name: &String, k: u32, s: &LaunchScalars) -> (r: Result<i64, Decline>)
    ensures
        outcome_matches(resolve_subscript_of(name@, k, *s), r),
{
    let (base, idx) = split_ident(name);
    let b = base.as_str();
    match idx {
        None => {
            if str_eq(b, "n") || str_eq(b, "ws_bytes") {
                Err(Decline::SubscriptOfScalar(name.clone()))
            } else {
                Err(Decline::UnknownSymbol(name.clone()))
            }
        },
        Some(i) => {
            if str_eq(b, "off") || str_eq(b, "param") {
                Err(Decline::SubscriptOfScalar(name.clone()))
            } else if str_eq(b, "extents") {
                resolve_rank_array(name, &s.extents, i, k, s.rank)
            } else if str_eq(b, "strides") {
                resolve_rank_array(name, &s.strides, i, k, s.rank)
            } else if str_eq(b, "idx_extents") {
                if (i as usize) >= s.idx_extents.len() {
                    return Err(Decline::UnknownSymbol(name.clone()));
                }
                let row = &s.idx_extents[i as usize];
                let rank: u32 = ((row.len() as u64) % 0x1_0000_0000) as u32;
                if k >= rank {
                    return Err(Decline::SubscriptOutOfBounds { sym: name.clone(), k, rank });
                }
                Ok(row[k as usize])
            } else {
                Err(Decline::UnknownSymbol(name.clone()))
            }
        },
    }
}

fn trunc_div_exec(a: i64, b: i64) -> (q: i64)
    requires
        b != 0,
        in_i64(trunc_div(a as int, b as int)),
    ensures
        q as int == trunc_div(a as int, b as int),
{
    let ua: u64 = if a < 0 { ((-(a as i128)) as u64) } else { a as u64 };
    let ub: u64 = if b < 0 { ((-(b as i128)) as u64) } else { b as u64 };
    let m: u64 = ua / ub;
    if (a < 0) != (b < 0) {
        (-(m as i128)) as i64
    } else {
        m as i64
    }
}

/// Floor division by a positive divisor (`div_euclid` for `b > 0`).
fn floor_div_pos(t: i64, b: i64) -> (q: i64)
    requires
        b > 0,
    ensures
        q as int == t as int / b as int,
{
    if t >= 0 {
        let q: u64 = (t as u64) / (b as u64);
        assert(q as int == t as int / b as int);
        q as i64
    } else {
        let m: u128 = (-(t as i128)) as u128;
        let c: u128 = (m + (b as u128) - 1) / (b as u128);
        assert(c as int == -(t as int / b as int)) by (nonlinear_arith)
            requires
                m == -t,
                t < 0,
                b > 0,
                c == (m + b - 1) / (b as int),
        ;
        assert(c <= m) by (nonlinear_arith)
            requires c == (m + b - 1) / (b as int), b > 0, m > 0;
        (-(c as i128)) as i64
    }
}

fn overflow_exec() -> (d: Decline)
    ensures
        d@ == overflow_decline(),
{
    Decline::ParseError(crate::text::string_from("arithmetic overflows i64"))
}

fn ceil_div_fail(b: i64) -> (d: Decline)
    ensures
        d@ == DeclineView::ParseError("ceil_div divisor must be positive, got "@ + dec_int_chars(b as int)),
{
    let mut s = String::new();
    push_str(&mut s, "ceil_div divisor must be positive, got ");
    push_dec_i64(&mut s, b);
    Decline::ParseError(s)
}

/// The two operands of a binary node.
pub open spec fn kids(a: AstV) -> (AstV, AstV) {
    match a {
        AstV::Add(x, y) | AstV::Sub(x, y) | AstV::Mul(x, y) | AstV::Div(x, y) | AstV::CeilDiv(x, y) => (*x, *y),
        _ => (a, a),
    }
}

pub open spec fn is_binary(a: AstV) -> bool {
    !(a is Int || a is Symbol || a is Subscript)
}

fn eval_children(node: &Ast, s: &LaunchScalars, mode: EvalMode) -> (r: Result<(i64, i64), Decline>)
    requires
        is_binary(ast_view(*node)),
    ensures
        match eval_of(kids(ast_view(*node)).0, *s, mode) {
            Outcome::Val(a) => match eval_of(kids(ast_view(*node)).1, *s, mode) {
                Outcome::Val(b) => in_i64(a) && in_i64(b) && r == Ok::<(i64, i64), Decline>((a as i64, b as i64)),
                Outcome::Decl(d) => r matches Err(e) && e@ == d,
            },
            Outcome::Decl(d) => r matches Err(e) && e@ == d,
        },
    decreases node, 0int,
{
    match node {
        Ast::Add(x, y) | Ast::Sub(x, y) | Ast::Mul(x, y) | Ast::Div(x, y) | Ast::CeilDiv(x, y) => {
            let a = match eval_ast(x, s, mode) {
                Ok(a) => a,
                Err(d) => return Err(d),
            };
            let b = match eval_ast(y, s, mode) {
                Ok(b) => b,
                Err(d) => return Err(d),
            };
            Ok((a, b))
        },
        _ => Ok((0, 0)),
    }
}

#[verifier::rlimit(40)]
fn eval_ast(node: &Ast, s: &LaunchScalars, mode: EvalMode) -> (r: Result<i64, Decline>)
    ensures
        outcome_matches(eval_of(ast_view(*node), *s, mode), r),
    decreases node, 1int,
{
    let ghost raw = raw_of(ast_view(*node), *s, mode);
    let v: i64 = match node {
        Ast::Int(v) => *v,
        Ast::Symbol(name) => match resolve_scalar(name, s) {
            Ok(v) => v,
            Err(d) => return Err(d),
        },
        Ast::Subscript(name, k) => match resolve_subscript(name, *k, s) {
            Ok(v) => v,
            Err(d) => return Err(d),
        },
        Ast::Add(x, y) => {
            let (a, b) = match eval_children(node, s, mode) {
                Ok(p) => p,
                Err(d) => return Err(d),
            };
            assert(raw_of(ast_view(*node), *s, mode) == checked(a + b));
            let w: i128 = (a as i128) + (b as i128);
            if w < i64::MIN as i128 || w > i64::MAX as i128 {
                return Err(overflow_exec());
            }
            w as i64
        },
        Ast::Sub(x, y) => {
            let (a, b) = match eval_children(node, s, mode) {
                Ok(p) => p,
                Err(d) => return Err(d),
            };
            assert(raw_of(ast_view(*node), *s, mode) == checked(a - b));
            let w: i128 = (a as i128) - (b as i128);
            if w < i64::MIN as i128 || w > i64::MAX as i128 {
                return Err(overflow_exec());
            }
            w as i64
        },
        Ast::Mul(x, y) => {
            let (a, b) = match eval_children(node, s, mode) {
                Ok(p) => p,
                Err(d) => return Err(d),
            };
            assert(raw_of(ast_view(*node), *s, mode) == checked(a * b));
            assert(-0x4000_0000_0000_0000_0000_0000_0000_0000 <= (a as int) * (b as int)
                <= 0x4000_0000_0000_0000_0000_0000_0000_0000) by (nonlinear_arith)
                requires
                    i64::MIN <= a <= i64::MAX,
                    i64::MIN <= b <= i64::MAX,
            ;
            let w: i128 = (a as i128) * (b as i128);
            if w < i64::MIN as i128 || w > i64::MAX as i128 {
                return Err(overflow_exec());
            }
            w as i64
        },
        Ast::Div(x, y) => {
            let (a, b) = match eval_children(node, s, mode) {
                Ok(p) => p,
                Err(d) => return Err(d),
            };
            if b == 0 {
                let m = crate::text::string_from("division by zero");
                return Err(Decline::ParseError(m));
            }
            assert(raw == checked(trunc_div(a as int, b as int)));
            if a == i64::MIN && b == -1 {
                return Err(overflow_exec());
            }
            proof {
                let ua: int = if a < 0 { -a } else { a as int };
                let ub: int = if b < 0 { -b } else { b as int };
                vstd::arithmetic::div_mod::lemma_div_is_ordered_by_denominator(ua, 1, ub);
                vstd::arithmetic::div_mod::lemma_div_pos_is_pos(ua, ub);
                assert(ua / 1 == ua);
                if a == i64::MIN && b < 0 {
                    vstd::arithmetic::div_mod::lemma_div_is_ordered_by_denominator(ua, 2, ub);
                }
                assert(in_i64(trunc_div(a as int, b as int)));
            }
            trunc_div_exec(a, b)
        },
        Ast::CeilDiv(x, y) => {
            let (a, b) = match eval_children(node, s, mode) {
                Ok(p) => p,
                Err(d) => return Err(d),
            };
            if b <= 0 {
                return Err(ceil_div_fail(b));
            }
            if a > i64::MAX - b {
                return Err(overflow_exec());
            }
            assert(raw == Outcome::Val((a + b - 1) / (b as int)));
            let t: i64 = a + b - 1;
            floor_div_pos(t, b)
        },
    };
    assert(raw == Outcome::Val(v as int));
    if mode == EvalMode::Domain && v < 0 {
        return Err(Decline::NegativeInDomain(v));
    }
    Ok(v)
}

/// Evaluate a Dispatch expression against concrete launch-scalar values.
/// `mode` selects whether the non-negative post-condition applies. A
/// malformed expression, an out-of-vocabulary symbol reference, arithmetic
/// that leaves `i64`, or (in Domain mode) a negative result is a typed
/// `Decline`; no input panics.
pub fn eval(expr: &str, s: &LaunchScalars, mode: EvalMode) -> (r: Result<i64, Decline>)
    ensures
        outcome_matches(eval_spec(expr@, *s, mode), r),
        mode == EvalMode::Domain ==> (r matches Ok(v) ==> v >= 0),
{
    let toks = match lex(expr) {
        Ok(t) => t,
        Err(d) => return Err(d),
    };
    let ghost t = toks_view(toks@);
    assert(t.len() == toks@.len());
    assert(well_ended(t)) by {
        lemma_lex_well_ended(encode_utf8(expr@), 0);
    }
    let (ast, q) = match p_expr_exec(toks.as_slice(), 0) {
        Ok(x) => x,
        Err(d) => return Err(d),
    };
    assert(t[q as int] == toks@[q as int]@);
    if !tok_is_end(&toks[q]) {
        let mut m = String::new();
        push_str(&mut m, "trailing input at token ");
        push_tok_debug(&mut m, &toks[q]);
        return Err(Decline::ParseError(m));
    }
    eval_ast(&ast, s, mode)
}

/// The lexer's tokens end in `End`, with no `End` before.
proof fn lemma_lex_well_ended(b: Seq<u8>, i: int)
    requires
        0 <= i,
    ensures
        lex_from(b, i) matches Ok(t) ==> well_ended(t),
    decreases b.len() - i,
{
    if i < b.len() {
        let c = b[i];
        if digit_byte(c) || (97 <= c <= 122) {
            lemma_run_end(b, i + 1, !digit_byte(c));
            lemma_lex_well_ended(b, run_end(b, i + 1, !digit_byte(c)));
        } else {
            lemma_lex_well_ended(b, i + 1);
        }
        if let Ok(t) = lex_from(b, i) {
            assert forall|k: int| 0 <= k < t.len() - 1 implies !(#[trigger] t[k] is End) by {
                if k > 0 {
                    if !ascii_ws(c) {
                        let rest = t.drop_first();
                        assert(t[k] == rest[k - 1]);
                    }
                }
            }
        }
    }
}

} // verus!
