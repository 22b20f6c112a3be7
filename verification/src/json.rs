//! A minimal JSON reader, enough to load the oracle-vector corpus. A number is
//! kept as the text it was written with; `as_u64` reads that text as an
//! unsigned decimal integer.

use vstd::prelude::*;
use crate::text::{
    all_digits, chars_of, dec_chars, digits_value, is_digit_char, push_char, push_chars, push_dec,
    push_str, string_of, str_eq,
};

verus! {

/// A JSON value; a number holds its written text.
#[derive(Debug, PartialEq)]
pub enum Json {
    Null,
    Bool(bool),
    Num(String),
    Str(String),
    Arr(Vec<Json>),
    Obj(Vec<(String, Json)>),
}

/// The content of a [`Json`] value.
pub enum JsonV {
    Null,
    Bool(bool),
    Num(Seq<char>),
    Str(Seq<char>),
    Arr(Seq<JsonV>),
    Obj(Seq<(Seq<char>, JsonV)>),
}

pub open spec fn json_view(j: Json) -> JsonV
    decreases j, 0nat,
{
    match j {
        Json::Null => JsonV::Null,
        Json::Bool(b) => JsonV::Bool(b),
        Json::Num(s) => JsonV::Num(s@),
        Json::Str(s) => JsonV::Str(s@),
        Json::Arr(v) => JsonV::Arr(json_views(v@)),
        Json::Obj(m) => JsonV::Obj(member_views(m@)),
    }
}

pub open spec fn json_views(cs: Seq<Json>) -> Seq<JsonV>
    decreases cs, cs.len(),
{
    if cs.len() == 0 {
        seq![]
    } else {
        json_views(cs.subrange(0, cs.len() - 1)).push(json_view(cs[cs.len() - 1]))
    }
}

pub open spec fn member_views(ms: Seq<(String, Json)>) -> Seq<(Seq<char>, JsonV)>
    decreases ms, ms.len(),
{
    if ms.len() == 0 {
        seq![]
    } else {
        member_views(ms.subrange(0, ms.len() - 1)).push((ms[ms.len() - 1].0@, json_view(ms[ms.len() - 1].1)))
    }
}

impl View for Json {
    type V = JsonV;

    open spec fn view(&self) -> JsonV {
        json_view(*self)
    }
}

proof fn lemma_json_views_push(cs: Seq<Json>, x: Json)
    ensures
        json_views(cs.push(x)) == json_views(cs).push(json_view(x)),
{
    assert(cs.push(x).subrange(0, cs.len() as int) =~= cs);
}

proof fn lemma_member_views_push(ms: Seq<(String, Json)>, x: (String, Json))
    ensures
        member_views(ms.push(x)) == member_views(ms).push((x.0@, json_view(x.1))),
{
    assert(ms.push(x).subrange(0, ms.len() as int) =~= ms);
}

pub proof fn lemma_json_views_len(cs: Seq<Json>)
    ensures
        json_views(cs).len() == cs.len(),
        forall|i: int| 0 <= i < cs.len() ==> json_views(cs)[i] == json_view(cs[i]),
    decreases cs.len(),
{
    if cs.len() > 0 {
        let d = cs.subrange(0, cs.len() - 1);
        lemma_json_views_len(d);
        assert forall|i: int| 0 <= i < cs.len() implies json_views(cs)[i] == json_view(cs[i]) by {
            if i < cs.len() - 1 {
                assert(d[i] == cs[i]);
            }
        }
    }
}

pub proof fn lemma_member_views_len(ms: Seq<(String, Json)>)
    ensures
        member_views(ms).len() == ms.len(),
        forall|i: int| 0 <= i < ms.len() ==> member_views(ms)[i] == (ms[i].0@, json_view(ms[i].1)),
    decreases ms.len(),
{
    if ms.len() > 0 {
        let d = ms.subrange(0, ms.len() - 1);
        lemma_member_views_len(d);
        assert forall|i: int| 0 <= i < ms.len() implies member_views(ms)[i] == (ms[i].0@, json_view(ms[i].1)) by {
            if i < ms.len() - 1 {
                assert(d[i] == ms[i]);
            }
        }
    }
}

// ---------------------------------------------------------------------------
// The grammar.
// ---------------------------------------------------------------------------

/// JSON insignificant whitespace.
pub open spec fn json_ws(c: char) -> bool {
    c == ' ' || c == '\t' || c == '\n' || c == '\r'
}

/// The UTF-8 length of a character.
pub open spec fn utf8_width(c: char) -> nat {
    if (c as u32) < 0x80 {
        1
    } else if (c as u32) < 0x800 {
        2
    } else if (c as u32) < 0x1_0000 {
        3
    } else {
        4
    }
}

/// The byte offset, in UTF-8, of character position `p`.
pub open spec fn byte_offset(t: Seq<char>, p: int) -> nat
    decreases p,
{
    if p <= 0 || p > t.len() {
        0
    } else {
        byte_offset(t, p - 1) + utf8_width(t[p - 1])
    }
}

/// A message that names a byte offset.
pub open spec fn at_byte(msg: Seq<char>, t: Seq<char>, p: int) -> Seq<char> {
    msg + " at byte "@ + dec_chars(byte_offset(t, p))
}

/// The first position at or after `p` that is not whitespace.
pub open spec fn skip_ws(t: Seq<char>, p: int) -> int
    decreases t.len() - p,
{
    if 0 <= p < t.len() && json_ws(t[p]) {
        skip_ws(t, p + 1)
    } else {
        p
    }
}

pub proof fn lemma_skip_ws(t: Seq<char>, p: int)
    requires
        0 <= p <= t.len(),
    ensures
        p <= skip_ws(t, p) <= t.len(),
    decreases t.len() - p,
{
    if p < t.len() && json_ws(t[p]) {
        lemma_skip_ws(t, p + 1);
    }
}

/// A number character: a sign, a point, an exponent mark or a digit.
pub open spec fn num_char(c: char) -> bool {
    c == '-' || c == '+' || c == '.' || c == 'e' || c == 'E' || is_digit_char(c)
}

/// The end of the run of number characters from `p`.
pub open spec fn num_end(t: Seq<char>, p: int) -> int
    decreases t.len() - p,
{
    if 0 <= p < t.len() && num_char(t[p]) {
        num_end(t, p + 1)
    } else {
        p
    }
}

proof fn lemma_num_end(t: Seq<char>, p: int)
    requires
        0 <= p <= t.len(),
    ensures
        p <= num_end(t, p) <= t.len(),
    decreases t.len() - p,
{
    if p < t.len() && num_char(t[p]) {
        lemma_num_end(t, p + 1);
    }
}

/// The index of the first `a` or `b` in `s`, or its length.
pub open spec fn first_of(s: Seq<char>, a: char, b: char) -> nat
    decreases s.len(),
{
    if s.len() == 0 {
        0
    } else if s[0] == a || s[0] == b {
        0
    } else {
        1 + first_of(s.drop_first(), a, b)
    }
}

/// One optional leading sign removed.
pub open spec fn unsigned_part(s: Seq<char>) -> Seq<char> {
    if s.len() > 0 && (s[0] == '+' || s[0] == '-') {
        s.drop_first()
    } else {
        s
    }
}

/// `digits ['.' digits]` or `'.' digits`, at least one digit in all.
pub open spec fn mantissa_ok(m: Seq<char>) -> bool {
    let d = first_of(m, '.', '.');
    if d == m.len() {
        m.len() >= 1 && all_digits(m)
    } else {
        all_digits(m.subrange(0, d as int)) && all_digits(m.subrange(d + 1 as int, m.len() as int)) && m.len() >= 2
    }
}

/// The decimal-float text std's `f64` parser accepts (from number characters
/// only): an optional sign, a mantissa, and an optional `e`/`E` exponent with
/// an optional sign and at least one digit.
pub open spec fn float_text_ok(s: Seq<char>) -> bool {
    let u = unsigned_part(s);
    let k = first_of(u, 'e', 'E');
    mantissa_ok(u.subrange(0, k as int)) && (k == u.len() || {
        let x = unsigned_part(u.subrange(k + 1 as int, u.len() as int));
        x.len() >= 1 && all_digits(x)
    })
}

/// A hex digit's value, for `0-9`, `a-f`, `A-F`.
pub open spec fn hex_digit_value(c: char) -> int {
    if '0' <= c <= '9' {
        c as int - '0' as int
    } else if 'a' <= c <= 'f' {
        c as int - 'a' as int + 10
    } else {
        c as int - 'A' as int + 10
    }
}

pub open spec fn is_hex_digit(c: char) -> bool {
    ('0' <= c <= '9') || ('a' <= c <= 'f') || ('A' <= c <= 'F')
}

/// Every character a hex digit.
pub open spec fn all_hex(s: Seq<char>) -> bool {
    forall|i: int| 0 <= i < s.len() ==> is_hex_digit(#[trigger] s[i])
}

/// The value of a run of hex digits.
pub open spec fn hex_run_value(s: Seq<char>) -> nat
    decreases s.len(),
{
    if s.len() == 0 {
        0
    } else {
        hex_run_value(s.drop_last()) * 16 + hex_digit_value(s.last()) as nat
    }
}

/// The four characters after `\u`, read as std's `u32::from_str_radix(_, 16)`
/// does: an optional `+`, then hex digits only.
pub open spec fn u_escape(t: Seq<char>, p: int) -> Option<nat> {
    if p + 4 > t.len() {
        None
    } else {
        let h = t.subrange(p, p + 4);
        let body = if h[0] == '+' { h.drop_first() } else { h };
        if all_hex(body) {
            Some(hex_run_value(body))
        } else {
            None
        }
    }
}

/// A code point that is a `char` (not a surrogate, not above `0x10FFFF`).
pub open spec fn scalar_value(cp: nat) -> bool {
    cp <= 0x10FFFF && !(0xD800 <= cp <= 0xDFFF)
}

/// The outcome of a parse step: a value and the position after it, or a message.
pub enum Step<T> {
    Done(T, int),
    Fail(Seq<char>),
}

/// The string body from `p` (after the opening quote), with the characters so far.
pub open spec fn p_string(t: Seq<char>, p: int, acc: Seq<char>) -> Step<Seq<char>>
    decreases t.len() - p,
{
    if p < 0 || p >= t.len() {
        Step::Fail("unterminated string"@)
    } else if t[p] == '"' {
        Step::Done(acc, p + 1)
    } else if t[p] == '\\' {
        if p + 1 >= t.len() {
            Step::Fail("bad escape"@)
        } else {
            let e = t[p + 1];
            if e == '"' || e == '\\' || e == '/' {
                p_string(t, p + 2, acc.push(e))
            } else if e == 'n' {
                p_string(t, p + 2, acc.push('\n'))
            } else if e == 't' {
                p_string(t, p + 2, acc.push('\t'))
            } else if e == 'r' {
                p_string(t, p + 2, acc.push('\r'))
            } else if e == 'b' {
                p_string(t, p + 2, acc.push('\x08'))
            } else if e == 'f' {
                p_string(t, p + 2, acc.push('\x0c'))
            } else if e == 'u' {
                match u_escape(t, p + 2) {
                    None => Step::Fail("bad \\u"@),
                    Some(cp) => if scalar_value(cp) {
                        p_string(t, p + 6, acc.push(cp as char))
                    } else {
                        Step::Fail("bad codepoint"@)
                    },
                }
            } else {
                Step::Fail(at_byte("bad escape"@, t, p + 2))
            }
        }
    } else {
        p_string(t, p + 1, acc.push(t[p]))
    }
}

/// A string token at `q` (which must be a quote).
pub open spec fn p_string_at(t: Seq<char>, q: int) -> Step<Seq<char>> {
    if 0 <= q < t.len() && t[q] == '"' {
        p_string(t, q + 1, seq![])
    } else {
        Step::Fail(at_byte("expected string"@, t, q))
    }
}

/// A literal word at `q`.
pub open spec fn p_literal(t: Seq<char>, q: int, word: Seq<char>, v: JsonV) -> Step<JsonV> {
    if 0 <= q && q + word.len() <= t.len() && t.subrange(q, q + word.len()) == word {
        Step::Done(v, q + word.len())
    } else {
        Step::Fail(at_byte("invalid literal"@, t, q))
    }
}

/// A number at `q`: the run of number characters, if std reads it as a float.
pub open spec fn p_number(t: Seq<char>, q: int) -> Step<JsonV> {
    let e = num_end(t, q);
    let lex = t.subrange(q, e);
    if float_text_ok(lex) {
        Step::Done(JsonV::Num(lex), e)
    } else {
        Step::Fail("bad number \""@ + lex + "\""@)
    }
}

/// A value, after optional whitespace, from `p`.
pub open spec fn p_value(t: Seq<char>, p: int) -> Step<JsonV>
    decreases t.len() - p, 0nat,
{
    if p < 0 || p > t.len() {
        Step::Fail("unexpected end of input"@)
    } else {
        let q = skip_ws(t, p);
        if q < p || q >= t.len() {
            Step::Fail("unexpected end of input"@)
        } else if t[q] == '{' {
            p_object(t, q + 1)
        } else if t[q] == '[' {
            p_array(t, q + 1)
        } else if t[q] == '"' {
            match p_string(t, q + 1, seq![]) {
                Step::Done(s, e) => Step::Done(JsonV::Str(s), e),
                Step::Fail(m) => Step::Fail(m),
            }
        } else if t[q] == 't' {
            p_literal(t, q, "true"@, JsonV::Bool(true))
        } else if t[q] == 'f' {
            p_literal(t, q, "false"@, JsonV::Bool(false))
        } else if t[q] == 'n' {
            p_literal(t, q, "null"@, JsonV::Null)
        } else {
            p_number(t, q)
        }
    }
}

/// An object's body, just after its `{`.
pub open spec fn p_object(t: Seq<char>, p: int) -> Step<JsonV>
    decreases t.len() - p, 2nat,
{
    if p < 0 || p > t.len() {
        Step::Fail("unexpected end of input"@)
    } else {
        let q = skip_ws(t, p);
        if q < p {
            Step::Fail("unexpected end of input"@)
        } else if q < t.len() && t[q] == '}' {
            Step::Done(JsonV::Obj(seq![]), q + 1)
        } else {
            proof {
                lemma_skip_ws(t, p);
            }
            p_members(t, q, seq![])
        }
    }
}

/// Object members from `p`, with the members so far.
pub open spec fn p_members(t: Seq<char>, p: int, acc: Seq<(Seq<char>, JsonV)>) -> Step<JsonV>
    decreases t.len() - p, 1nat,
{
    if p < 0 || p > t.len() {
        Step::Fail("unexpected end of input"@)
    } else {
        let q = skip_ws(t, p);
        match p_string_at(t, q) {
            Step::Fail(m) => Step::Fail(m),
            Step::Done(k, e1) => {
                let c = skip_ws(t, e1);
                if !(0 <= c < t.len()) || t[c] != ':' {
                    Step::Fail(at_byte("expected ':'"@, t, c))
                } else if c + 1 <= p {
                    Step::Fail("unexpected end of input"@)
                } else {
                    match p_value(t, c + 1) {
                        Step::Fail(m) => Step::Fail(m),
                        Step::Done(v, e2) => {
                            let acc2 = acc.push((k, v));
                            let s = skip_ws(t, e2);
                            if 0 <= s < t.len() && t[s] == ',' {
                                if s + 1 <= p {
                                    Step::Fail("unexpected end of input"@)
                                } else {
                                    p_members(t, s + 1, acc2)
                                }
                            } else if 0 <= s < t.len() && t[s] == '}' {
                                Step::Done(JsonV::Obj(acc2), s + 1)
                            } else {
                                Step::Fail(at_byte("expected ',' or '}'"@, t, s))
                            }
                        },
                    }
                }
            },
        }
    }
}

/// An array's body, just after its `[`.
pub open spec fn p_array(t: Seq<char>, p: int) -> Step<JsonV>
    decreases t.len() - p, 2nat,
{
    if p < 0 || p > t.len() {
        Step::Fail("unexpected end of input"@)
    } else {
        let q = skip_ws(t, p);
        if q < p {
            Step::Fail("unexpected end of input"@)
        } else if q < t.len() && t[q] == ']' {
            Step::Done(JsonV::Arr(seq![]), q + 1)
        } else {
            proof {
                lemma_skip_ws(t, p);
            }
            p_elements(t, q, seq![])
        }
    }
}

/// Array elements from `p`, with the elements so far.
pub open spec fn p_elements(t: Seq<char>, p: int, acc: Seq<JsonV>) -> Step<JsonV>
    decreases t.len() - p, 1nat,
{
    if p < 0 || p > t.len() {
        Step::Fail("unexpected end of input"@)
    } else {
        match p_value(t, p) {
            Step::Fail(m) => Step::Fail(m),
            Step::Done(v, e) => {
                let acc2 = acc.push(v);
                let s = skip_ws(t, e);
                if 0 <= s < t.len() && t[s] == ',' {
                    if s + 1 <= p {
                        Step::Fail("unexpected end of input"@)
                    } else {
                        p_elements(t, s + 1, acc2)
                    }
                } else if 0 <= s < t.len() && t[s] == ']' {
                    Step::Done(JsonV::Arr(acc2), s + 1)
                } else {
                    Step::Fail(at_byte("expected ',' or ']'"@, t, s))
                }
            },
        }
    }
}

/// A complete document: one value, then only whitespace.
pub open spec fn parse_spec(t: Seq<char>) -> Result<JsonV, Seq<char>> {
    match p_value(t, 0) {
        Step::Fail(m) => Err(m),
        Step::Done(v, e) => {
            let s = skip_ws(t, e);
            if s != t.len() {
                Err(at_byte("trailing data"@, t, s))
            } else {
                Ok(v)
            }
        },
    }
}

// ---------------------------------------------------------------------------
// The reader.
// ---------------------------------------------------------------------------

/// std's `char::from_u32`: the character with code point `cp` when `cp` is a
/// Unicode scalar value (at most `0x10FFFF`, not a surrogate), else `None`.
#[verifier::external_body]
fn char_from_u32(cp: u32) -> (r: Option<char>)
    ensures
        scalar_value(cp as nat) ==> r == Some(cp as char),
        !scalar_value(cp as nat) ==> r is None,
{
    char::from_u32(cp)
}

fn skip_ws_exec(t: &[char], p: usize) -> (q: usize)
    requires
        p <= t@.len(),
    ensures
        q == skip_ws(t@, p as int),
        p <= q <= t@.len(),
{
    let mut q = p;
    while q < t.len() && (t[q] == ' ' || t[q] == '\t' || t[q] == '\n' || t[q] == '\r')
        invariant
            p <= q <= t@.len(),
            skip_ws(t@, q as int) == skip_ws(t@, p as int),
        decreases t@.len() - q,
    {
        q += 1;
    }
    q
}

fn byte_offset_exec(t: &[char], p: usize) -> (n: u64)
    requires
        p <= t@.len(),
        t@.len() <= 0x1000_0000_0000,
    ensures
        n == byte_offset(t@, p as int),
        n <= 4 * p,
{
    let mut n: u64 = 0;
    let mut i: usize = 0;
    while i < p
        invariant
            i <= p <= t@.len(),
            t@.len() <= 0x1000_0000_0000,
            n == byte_offset(t@, i as int),
            n <= 4 * i,
        decreases p - i,
    {
        let c = t[i] as u32;
        let w: u64 = if c < 0x80 {
            1
        } else if c < 0x800 {
            2
        } else if c < 0x1_0000 {
            3
        } else {
            4
        };
        n = n + w;
        i += 1;
    }
    n
}

fn msg_at(msg: &str, t: &[char], p: usize) -> (m: String)
    requires
        p <= t@.len(),
        t@.len() <= 0x1000_0000_0000,
    ensures
        m@ == at_byte(msg@, t@, p as int),
{
    let mut m = String::new();
    push_str(&mut m, msg);
    push_str(&mut m, " at byte ");
    push_dec(&mut m, byte_offset_exec(t, p));
    proof {
        assert(m@ =~= at_byte(msg@, t@, p as int));
    }
    m
}

fn fixed_msg(msg: &str) -> (m: String)
    ensures
        m@ == msg@,
{
    let mut m = String::new();
    push_str(&mut m, msg);
    proof {
        assert(m@ =~= msg@);
    }
    m
}

fn is_hex_digit_exec(c: char) -> (r: bool)
    ensures
        r == is_hex_digit(c),
{
    ('0' <= c && c <= '9') || ('a' <= c && c <= 'f') || ('A' <= c && c <= 'F')
}

/// The four characters at `p` read as a `\u` escape.
fn u_escape_exec(t: &[char], p: usize) -> (r: Option<u32>)
    requires
        p <= t@.len(),
    ensures
        match u_escape(t@, p as int) {
            Some(v) => r == Some(v as u32),
            None => r is None,
        },
        r matches Some(x) ==> x < 0x1_0000 && p + 4 <= t@.len() && u_escape(t@, p as int) == Some(x as nat),
{
    let n = t.len();
    if n - p < 4 {
        return None;
    }
    let end: usize = p + 4;
    let ghost h = t@.subrange(p as int, end as int);
    let start: usize = if t[p] == '+' { p + 1 } else { p };
    let ghost body = if h[0] == '+' { h.drop_first() } else { h };
    assert(body =~= t@.subrange(start as int, end as int));
    let mut v: u32 = 0;
    let mut i: usize = start;
    while i < end
        invariant
            start <= i <= end <= t@.len(),
            end == p + 4,
            p <= start <= p + 1,
            h == t@.subrange(p as int, end as int),
            body == (if h[0] == '+' { h.drop_first() } else { h }),
            body == t@.subrange(start as int, end as int),
            forall|j: int| 0 <= j < i - start ==> is_hex_digit(#[trigger] body[j]),
            v == hex_run_value(body.subrange(0, i - start)),
            hex_run_value(body.subrange(0, i - start)) < pow16(i - start),
        decreases end - i,
    {
        let c = t[i];
        if !is_hex_digit_exec(c) {
            proof {
                assert(body[i - start] == c);
                assert(!all_hex(body));
            }
            return None;
        }
        let d: u32 = if '0' <= c && c <= '9' {
            (c as u32) - ('0' as u32)
        } else if 'a' <= c && c <= 'f' {
            (c as u32) - ('a' as u32) + 10
        } else {
            (c as u32) - ('A' as u32) + 10
        };
        proof {
            let b0 = body.subrange(0, i - start);
            let b1 = body.subrange(0, i + 1 - start);
            assert(b1.drop_last() =~= b0);
            assert(b1.last() == c);
            assert(hex_digit_value(c) == d);
            assert(pow16(i + 1 - start) == pow16(i - start) * 16);
            assert(hex_run_value(b0) * 16 + d < pow16(i - start) * 16) by (nonlinear_arith)
                requires
                    hex_run_value(b0) < pow16(i - start),
                    d < 16,
            ;
            lemma_pow16_bound((i - start) as nat);
            lemma_pow16_bound((i + 1 - start) as nat);
        }
        v = v * 16 + d;
        i += 1;
    }
    proof {
        assert(body.subrange(0, body.len() as int) =~= body);
        lemma_pow16_bound((end - start) as nat);
    }
    Some(v)
}

/// `16^k`.
pub open spec fn pow16(k: int) -> nat
    decreases k,
{
    if k <= 0 {
        1
    } else {
        16 * pow16(k - 1)
    }
}

proof fn lemma_pow16_bound(k: nat)
    requires
        k <= 4,
    ensures
        pow16(k as int) <= 0x1_0000,
        pow16(k as int) >= 1,
{
    assert(pow16(0) == 1);
    assert(pow16(1) == 16);
    assert(pow16(2) == 256);
    assert(pow16(3) == 4096);
    assert(pow16(4) == 65536);
}

/// The rest of a string token from `p`; `acc` holds what was read so far.
fn read_string(t: &[char], p: usize) -> (r: Result<(Vec<char>, usize), String>)
    requires
        p <= t@.len(),
        t@.len() <= 0x1000_0000_0000,
    ensures
        match p_string(t@, p as int, seq![]) {
            Step::Done(s, e) => r matches Ok((v, q)) && v@ == s && q == e,
            Step::Fail(m) => r matches Err(msg) && msg@ == m,
        },
        r matches Ok((_, q)) ==> p < q <= t@.len(),
{
    let mut acc: Vec<char> = Vec::new();
    let mut i: usize = p;
    while i <= t.len()
        invariant
            p <= i <= t@.len() + 2,
            t@.len() <= 0x1000_0000_0000,
            i <= t@.len() ==> p_string(t@, i as int, acc@) == p_string(t@, p as int, seq![]),
            i > t@.len() ==> false,
        decreases t@.len() + 1 - i,
    {
        if i >= t.len() {
            return Err(fixed_msg("unterminated string"));
        }
        let c = t[i];
        if c == '"' {
            return Ok((acc, i + 1));
        }
        if c == '\\' {
            if i + 1 >= t.len() {
                return Err(fixed_msg("bad escape"));
            }
            let e = t[i + 1];
            if e == '"' || e == '\\' || e == '/' {
                acc.push(e);
            } else if e == 'n' {
                acc.push('\n');
            } else if e == 't' {
                acc.push('\t');
            } else if e == 'r' {
                acc.push('\r');
            } else if e == 'b' {
                acc.push('\x08');
            } else if e == 'f' {
                acc.push('\x0c');
            } else if e == 'u' {
                match u_escape_exec(t, i + 2) {
                    None => {
                        return Err(fixed_msg("bad \\u"));
                    },
                    Some(cp) => match char_from_u32(cp) {
                        None => {
                            return Err(fixed_msg("bad codepoint"));
                        },
                        Some(ch) => {
                            let ghost a0 = acc@;
                            acc.push(ch);
                            proof {
                                assert((cp as nat) as u32 == cp);
                                assert(p_string(t@, i as int, a0) == p_string(t@, i + 6, a0.push(ch)));
                            }
                            i = i + 6;
                            continue;
                        },
                    },
                }
            } else {
                return Err(msg_at("bad escape", t, i + 2));
            }
            i = i + 2;
        } else {
            acc.push(c);
            i = i + 1;
        }
    }
    proof {
        assert(false);
    }
    Err(fixed_msg("unterminated string"))
}

/// Whether the text at `q` is `w`.
fn word_at(t: &[char], q: usize, w: &str) -> (r: bool)
    requires
        q <= t@.len(),
    ensures
        r == (q + w@.len() <= t@.len() && t@.subrange(q as int, q + w@.len()) == w@),
{
    let wv = chars_of(w);
    let n = t.len();
    if n - q < wv.len() {
        return false;
    }
    let mut i: usize = 0;
    while i < wv.len()
        invariant
            wv@ == w@,
            n == t@.len(),
            q + wv@.len() <= n,
            i <= wv@.len(),
            forall|j: int| 0 <= j < i ==> t@[q + j] == wv@[j],
        decreases wv@.len() - i,
    {
        if t[q + i] != wv[i] {
            proof {
                assert(t@.subrange(q as int, q + w@.len())[i as int] != w@[i as int]);
            }
            return false;
        }
        i += 1;
    }
    proof {
        assert(t@.subrange(q as int, q + w@.len()) =~= w@);
    }
    true
}

/// The first index of `a` or `b` in `s[from..to]`, or `to`.
fn first_of_exec(s: &[char], from: usize, to: usize, a: char, b: char) -> (k: usize)
    requires
        from <= to <= s@.len(),
    ensures
        from <= k <= to,
        k - from == first_of(s@.subrange(from as int, to as int), a, b),
{
    let mut k = from;
    while k < to && s[k] != a && s[k] != b
        invariant
            from <= k <= to <= s@.len(),
            forall|j: int| from <= j < k ==> s@[j] != a && s@[j] != b,
        decreases to - k,
    {
        k += 1;
    }
    proof {
        lemma_first_of(s@.subrange(from as int, to as int), a, b, (k - from) as nat);
    }
    k
}

proof fn lemma_first_of(s: Seq<char>, a: char, b: char, i: nat)
    requires
        i <= s.len(),
        forall|j: int| 0 <= j < i ==> s[j] != a && s[j] != b,
        i == s.len() || s[i as int] == a || s[i as int] == b,
    ensures
        first_of(s, a, b) == i,
    decreases i,
{
    if i > 0 {
        lemma_first_of(s.drop_first(), a, b, (i - 1) as nat);
    }
}

fn all_digits_exec(s: &[char], from: usize, to: usize) -> (r: bool)
    requires
        from <= to <= s@.len(),
    ensures
        r == all_digits(s@.subrange(from as int, to as int)),
{
    let mut i = from;
    while i < to
        invariant
            from <= i <= to <= s@.len(),
            forall|j: int| from <= j < i ==> is_digit_char(s@[j]),
        decreases to - i,
    {
        if !('0' <= s[i] && s[i] <= '9') {
            proof {
                assert(!is_digit_char(s@.subrange(from as int, to as int)[i - from]));
            }
            return false;
        }
        i += 1;
    }
    proof {
        assert forall|j: int| 0 <= j < to - from implies is_digit_char(#[trigger] s@.subrange(from as int, to as int)[j]) by {
            assert(s@.subrange(from as int, to as int)[j] == s@[from + j]);
        }
    }
    true
}

/// Whether `s[from..to]` is a float text std's parser accepts.
fn float_text_exec(s: &[char], from: usize, to: usize) -> (r: bool)
    requires
        from <= to <= s@.len(),
    ensures
        r == float_text_ok(s@.subrange(from as int, to as int)),
{
    let ghost lex = s@.subrange(from as int, to as int);
    let us: usize = if from < to && (s[from] == '+' || s[from] == '-') { from + 1 } else { from };
    let ghost u = unsigned_part(lex);
    assert(u =~= s@.subrange(us as int, to as int));
    let k = first_of_exec(s, us, to, 'e', 'E');
    let ghost m = u.subrange(0, (k - us) as int);
    assert(m =~= s@.subrange(us as int, k as int));
    let d = first_of_exec(s, us, k, '.', '.');
    let mant = if d == k {
        k > us && all_digits_exec(s, us, k)
    } else {
        proof {
            assert(m.subrange(0, (d - us) as int) =~= s@.subrange(us as int, d as int));
            assert(m.subrange(d - us + 1, m.len() as int) =~= s@.subrange(d + 1, k as int));
        }
        all_digits_exec(s, us, d) && all_digits_exec(s, d + 1, k) && k - us >= 2
    };
    if !mant {
        return false;
    }
    if k == to {
        return true;
    }
    let xs: usize = if k + 1 < to && (s[k + 1] == '+' || s[k + 1] == '-') { k + 2 } else { k + 1 };
    proof {
        assert(unsigned_part(u.subrange((k - us) + 1, u.len() as int)) =~= s@.subrange(xs as int, to as int));
    }
    xs < to && all_digits_exec(s, xs, to)
}

/// A number token at `q`.
fn read_number(t: &[char], q: usize) -> (r: Result<(Json, usize), String>)
    requires
        q <= t@.len(),
    ensures
        match p_number(t@, q as int) {
            Step::Done(v, e) => r matches Ok((j, k)) && j@ == v && k == e,
            Step::Fail(m) => r matches Err(msg) && msg@ == m,
        },
        r matches Ok((_, k)) ==> k <= t@.len(),
{
    let mut e = q;
    while e < t.len() && (t[e] == '-' || t[e] == '+' || t[e] == '.' || t[e] == 'e' || t[e] == 'E' || ('0' <= t[e] && t[e] <= '9'))
        invariant
            q <= e <= t@.len(),
            num_end(t@, e as int) == num_end(t@, q as int),
        decreases t@.len() - e,
    {
        e += 1;
    }
    let lex = string_of(&t[q..e]);
    proof {
        assert(t@.subrange(q as int, e as int) =~= lex@);
    }
    if float_text_exec(t, q, e) {
        Ok((Json::Num(lex), e))
    } else {
        let mut m = String::new();
        push_str(&mut m, "bad number \"");
        push_str(&mut m, lex.as_str());
        push_str(&mut m, "\"");
        proof {
            assert(m@ =~= "bad number \""@ + t@.subrange(q as int, e as int) + "\""@);
        }
        Err(m)
    }
}

fn read_string_at(t: &[char], q: usize) -> (r: Result<(Vec<char>, usize), String>)
    requires
        q <= t@.len(),
        t@.len() <= 0x1000_0000_0000,
    ensures
        match p_string_at(t@, q as int) {
            Step::Done(s, e) => r matches Ok((v, k)) && v@ == s && k == e,
            Step::Fail(m) => r matches Err(msg) && msg@ == m,
        },
        r matches Ok((_, k)) ==> q < k <= t@.len(),
{
    if q < t.len() && t[q] == '"' {
        read_string(t, q + 1)
    } else {
        Err(msg_at("expected string", t, q))
    }
}

fn read_literal(t: &[char], q: usize, w: &str, j: Json) -> (r: Result<(Json, usize), String>)
    requires
        q <= t@.len(),
        t@.len() <= 0x1000_0000_0000,
    ensures
        match p_literal(t@, q as int, w@, j@) {
            Step::Done(v, e) => r matches Ok((x, k)) && x@ == v && k == e,
            Step::Fail(m) => r matches Err(msg) && msg@ == m,
        },
        r matches Ok((_, k)) ==> k <= t@.len(),
{
    let wv = chars_of(w);
    let n = t.len();
    if word_at(t, q, w) {
        proof {
            assert(wv@.len() == w@.len());
        }
        assert(q + wv.len() <= n);
        Ok((j, q + wv.len()))
    } else {
        Err(msg_at("invalid literal", t, q))
    }
}

/// A value, after optional whitespace, from `p`.
fn read_value(t: &[char], p: usize) -> (r: Result<(Json, usize), String>)
    requires
        p <= t@.len(),
        t@.len() <= 0x1000_0000_0000,
    ensures
        match p_value(t@, p as int) {
            Step::Done(v, e) => r matches Ok((j, k)) && j@ == v && k == e,
            Step::Fail(m) => r matches Err(msg) && msg@ == m,
        },
        r matches Ok((_, k)) ==> k <= t@.len(),
    decreases t@.len() - p, 0nat,
{
    let q = skip_ws_exec(t, p);
    if q >= t.len() {
        return Err(fixed_msg("unexpected end of input"));
    }
    let c = t[q];
    if c == '{' {
        read_object(t, q + 1)
    } else if c == '[' {
        read_array(t, q + 1)
    } else if c == '"' {
        match read_string(t, q + 1) {
            Ok((v, e)) => Ok((Json::Str(string_of(v.as_slice())), e)),
            Err(m) => Err(m),
        }
    } else if c == 't' {
        read_literal(t, q, "true", Json::Bool(true))
    } else if c == 'f' {
        read_literal(t, q, "false", Json::Bool(false))
    } else if c == 'n' {
        read_literal(t, q, "null", Json::Null)
    } else {
        read_number(t, q)
    }
}

/// An object's body, just after its `{`.
fn read_object(t: &[char], p: usize) -> (r: Result<(Json, usize), String>)
    requires
        p <= t@.len(),
        t@.len() <= 0x1000_0000_0000,
    ensures
        match p_object(t@, p as int) {
            Step::Done(v, e) => r matches Ok((j, k)) && j@ == v && k == e,
            Step::Fail(m) => r matches Err(msg) && msg@ == m,
        },
        r matches Ok((_, k)) ==> k <= t@.len(),
    decreases t@.len() - p, 2nat,
{
    let q = skip_ws_exec(t, p);
    if q < t.len() && t[q] == '}' {
        let j = Json::Obj(Vec::new());
        proof {
            assert(j@ == JsonV::Obj(seq![]));
        }
        return Ok((j, q + 1));
    }
    let mut acc: Vec<(String, Json)> = Vec::new();
    let mut cur: usize = q;
    proof {
        assert(member_views(acc@) =~= seq![]);
    }
    loop
        invariant
            p <= cur <= t@.len(),
            t@.len() <= 0x1000_0000_0000,
            p_members(t@, cur as int, member_views(acc@)) == p_object(t@, p as int),
        decreases t@.len() - cur,
    {
        let q2 = skip_ws_exec(t, cur);
        let (k, e1) = match read_string_at(t, q2) {
            Ok(x) => x,
            Err(m) => {
                return Err(m);
            },
        };
        let c = skip_ws_exec(t, e1);
        if c >= t.len() || t[c] != ':' {
            return Err(msg_at("expected ':'", t, c));
        }
        if c + 1 <= cur {
            return Err(fixed_msg("unexpected end of input"));
        }
        let (v, e2) = match read_value(t, c + 1) {
            Ok(x) => x,
            Err(m) => {
                return Err(m);
            },
        };
        let key = string_of(k.as_slice());
        let ghost before = acc@;
        let ghost vv = v@;
        acc.push((key, v));
        proof {
            lemma_member_views_push(before, acc@.last());
            assert(acc@ == before.push(acc@.last()));
        }
        let s = skip_ws_exec(t, e2);
        if s < t.len() && t[s] == ',' {
            if s + 1 <= cur {
                return Err(fixed_msg("unexpected end of input"));
            }
            cur = s + 1;
        } else if s < t.len() && t[s] == '}' {
            return Ok((Json::Obj(acc), s + 1));
        } else {
            return Err(msg_at("expected ',' or '}'", t, s));
        }
    }
}

/// An array's body, just after its `[`.
fn read_array(t: &[char], p: usize) -> (r: Result<(Json, usize), String>)
    requires
        p <= t@.len(),
        t@.len() <= 0x1000_0000_0000,
    ensures
        match p_array(t@, p as int) {
            Step::Done(v, e) => r matches Ok((j, k)) && j@ == v && k == e,
            Step::Fail(m) => r matches Err(msg) && msg@ == m,
        },
        r matches Ok((_, k)) ==> k <= t@.len(),
    decreases t@.len() - p, 2nat,
{
    let q = skip_ws_exec(t, p);
    if q < t.len() && t[q] == ']' {
        let j = Json::Arr(Vec::new());
        proof {
            assert(j@ == JsonV::Arr(seq![]));
        }
        return Ok((j, q + 1));
    }
    let mut acc: Vec<Json> = Vec::new();
    let mut cur: usize = q;
    proof {
        assert(json_views(acc@) =~= seq![]);
    }
    loop
        invariant
            p <= cur <= t@.len(),
            t@.len() <= 0x1000_0000_0000,
            p_elements(t@, cur as int, json_views(acc@)) == p_array(t@, p as int),
        decreases t@.len() - cur,
    {
        let (v, e) = match read_value(t, cur) {
            Ok(x) => x,
            Err(m) => {
                return Err(m);
            },
        };
        let ghost before = acc@;
        acc.push(v);
        proof {
            lemma_json_views_push(before, acc@.last());
            assert(acc@ == before.push(acc@.last()));
        }
        let s = skip_ws_exec(t, e);
        if s < t.len() && t[s] == ',' {
            if s + 1 <= cur {
                return Err(fixed_msg("unexpected end of input"));
            }
            cur = s + 1;
        } else if s < t.len() && t[s] == ']' {
            return Ok((Json::Arr(acc), s + 1));
        } else {
            return Err(msg_at("expected ',' or ']'", t, s));
        }
    }
}

/// Parses a complete JSON document; anything but whitespace after the value
/// is an error.
pub fn parse(input: &str) -> (r: Result<Json, String>)
    requires
        input@.len() <= 0x1000_0000_0000,
    ensures
        match parse_spec(input@) {
            Ok(v) => r matches Ok(j) && j@ == v,
            Err(m) => r matches Err(e) && e@ == m,
        },
{
    let tv = chars_of(input);
    let t = tv.as_slice();
    let (v, e) = match read_value(t, 0) {
        Ok(x) => x,
        Err(m) => {
            return Err(m);
        },
    };
    let s = skip_ws_exec(t, e);
    if s != t.len() {
        return Err(msg_at("trailing data", t, s));
    }
    Ok(v)
}

// ---------------------------------------------------------------------------
// Reading values.
// ---------------------------------------------------------------------------

/// The value of the first member named `key`.
pub open spec fn lookup(ms: Seq<(Seq<char>, JsonV)>, key: Seq<char>) -> Option<JsonV>
    decreases ms.len(),
{
    if ms.len() == 0 {
        None
    } else if ms[0].0 == key {
        Some(ms[0].1)
    } else {
        lookup(ms.drop_first(), key)
    }
}

/// The unsigned decimal integer a number's text spells (an optional `+`, then
/// digits), when it fits a `u64`.
pub open spec fn number_u64(text: Seq<char>) -> Option<nat> {
    crate::text::parse_unsigned(text, u64::MAX as nat)
}

impl Json {
    /// The value of the first member named `key` of an object; `None` for a
    /// missing key or a value that is not an object.
    pub fn get(&self, key: &str) -> (r: Option<&Json>)
        ensures
            match self@ {
                JsonV::Obj(ms) => match lookup(ms, key@) {
                    Some(v) => r matches Some(j) && j@ == v,
                    None => r is None,
                },
                _ => r is None,
            },
    {
        match self {
            Json::Obj(m) => {
                let ghost mv = member_views(m@);
                proof {
                    lemma_member_views_len(m@);
                    assert(mv.skip(0) =~= mv);
                    assert(self@ == JsonV::Obj(mv));
                }
                let mut i: usize = 0;
                while i < m.len()
                    invariant
                        i <= m@.len(),
                        mv == member_views(m@),
                        self@ == JsonV::Obj(mv),
                        mv.len() == m@.len(),
                        forall|k: int| 0 <= k < m@.len() ==> mv[k] == (m@[k].0@, json_view(m@[k].1)),
                        lookup(mv.skip(i as int), key@) == lookup(mv, key@),
                    decreases m@.len() - i,
                {
                    proof {
                        assert(mv.skip(i as int).drop_first() =~= mv.skip(i + 1));
                        assert(mv.skip(i as int)[0] == mv[i as int]);
                    }
                    if str_eq(m[i].0.as_str(), key) {
                        proof {
                            assert(mv[i as int].0 == key@);
                            assert(lookup(mv.skip(i as int), key@) == Some(mv[i as int].1));
                            assert(mv[i as int].1 == json_view(m@[i as int].1));
                        }
                        return Some(&m[i].1);
                    }
                    i += 1;
                }
                proof {
                    assert(mv.skip(i as int).len() == 0);
                }
                None
            },
            _ => None,
        }
    }

    /// The text of a string value.
    pub fn as_str(&self) -> (r: Option<&str>)
        ensures
            match self@ {
                JsonV::Str(s) => r matches Some(x) && x@ == s,
                _ => r is None,
            },
    {
        match self {
            Json::Str(s) => Some(s.as_str()),
            _ => None,
        }
    }

    /// The elements of an array value.
    pub fn as_arr(&self) -> (r: Option<&[Json]>)
        ensures
            match self@ {
                JsonV::Arr(a) => r matches Some(x) && json_views(x@) == a,
                _ => r is None,
            },
    {
        match self {
            Json::Arr(a) => Some(a.as_slice()),
            _ => None,
        }
    }

    /// A number value as a `u64`, when its text is an unsigned decimal
    /// integer that fits.
    pub fn as_u64(&self) -> (r: Option<u64>)
        ensures
            match self@ {
                JsonV::Num(text) => match number_u64(text) {
                    Some(v) => r == Some(v as u64),
                    None => r is None,
                },
                _ => r is None,
            },
    {
        match self {
            Json::Num(n) => {
                let cs = chars_of(n.as_str());
                crate::text::parse_unsigned_chars(cs.as_slice(), u64::MAX)
            },
            _ => None,
        }
    }
}

} // verus!
