//! Character-sequence helpers shared by the text codecs: building a `String`
//! one piece at a time, decimal and hexadecimal spellings, and the decimal
//! parser the header readers use.

use vstd::prelude::*;
use vstd::utf8::{decode_utf8, encode_scalar, encode_utf8, valid_utf8};

verus! {

/// The characters of `s`, in order.
pub fn chars_of(s: &str) -> (v: Vec<char>)
    ensures
        v@ == s@,
{
    let mut v: Vec<char> = Vec::new();
    for c in it: s.chars()
        invariant
            v@ == it.seq().take(it.index() as int),
    {
        v.push(c);
    }
    v
}

/// Appends one character to `s` (std's `String::push`).
#[verifier::external_body]
pub fn push_char(s: &mut String, c: char)
    ensures
        final(s)@ == old(s)@.push(c),
{
    s.push(c);
}

/// Appends a string slice to `s`.
pub fn push_str(s: &mut String, t: &str)
    ensures
        final(s)@ == old(s)@ + t@,
{
    s.append(t);
}

/// Appends a sequence of characters to `s`.
pub fn push_chars(s: &mut String, cs: &[char])
    ensures
        final(s)@ == old(s)@ + cs@,
{
    let ghost s0 = s@;
    let mut i: usize = 0;
    while i < cs.len()
        invariant
            i <= cs.len(),
            s@ == s0 + cs@.take(i as int),
        decreases cs.len() - i,
    {
        push_char(s, cs[i]);
        i += 1;
        assert(cs@.take(i as int) == cs@.take(i - 1).push(cs@[i - 1]));
    }
    assert(cs@.take(cs.len() as int) == cs@);
}

/// A `String` holding exactly the characters `cs`.
pub fn string_of(cs: &[char]) -> (s: String)
    ensures
        s@ == cs@,
{
    let mut s = String::new();
    push_chars(&mut s, cs);
    s
}

/// A `String` copy of `t`.
pub fn string_from(t: &str) -> (s: String)
    ensures
        s@ == t@,
{
    String::from_str(t)
}

/// Whether two string slices hold the same characters.
pub fn str_eq(a: &str, b: &str) -> (r: bool)
    ensures
        r == (a@ == b@),
{
    let va = chars_of(a);
    let vb = chars_of(b);
    chars_eq(va.as_slice(), vb.as_slice())
}

/// Whether two character slices are equal.
pub fn chars_eq(a: &[char], b: &[char]) -> (r: bool)
    ensures
        r == (a@ == b@),
{
    if a.len() != b.len() {
        return false;
    }
    let mut i: usize = 0;
    while i < a.len()
        invariant
            a.len() == b.len(),
            i <= a.len(),
            forall|j: int| 0 <= j < i ==> a@[j] == b@[j],
        decreases a.len() - i,
    {
        if a[i] != b[i] {
            return false;
        }
        i += 1;
    }
    assert(a@ =~= b@);
    true
}

/// Whether two byte slices are equal.
pub fn bytes_eq(a: &[u8], b: &[u8]) -> (r: bool)
    ensures
        r == (a@ == b@),
{
    if a.len() != b.len() {
        return false;
    }
    let mut i: usize = 0;
    while i < a.len()
        invariant
            a.len() == b.len(),
            i <= a.len(),
            forall|j: int| 0 <= j < i ==> a@[j] == b@[j],
        decreases a.len() - i,
    {
        if a[i] != b[i] {
            return false;
        }
        i += 1;
    }
    assert(a@ =~= b@);
    true
}

// ---------------------------------------------------------------------------
// Decimal spellings.
// ---------------------------------------------------------------------------

/// The ASCII digit character for `d` (`0..=9`).
pub open spec fn digit_char(d: int) -> char {
    (48 + d) as char
}

/// The canonical decimal spelling of `n` (no sign, no leading zeros).
pub open spec fn dec_chars(n: nat) -> Seq<char>
    decreases n,
{
    if n < 10 {
        seq![digit_char(n as int)]
    } else {
        dec_chars(n / 10).push(digit_char((n % 10) as int))
    }
}

/// The decimal spelling of a signed integer: a leading `-` for a negative value.
pub open spec fn dec_int_chars(i: int) -> Seq<char> {
    if i < 0 {
        seq!['-'] + dec_chars((-i) as nat)
    } else {
        dec_chars(i as nat)
    }
}

fn digit(d: u64) -> (c: char)
    requires
        d < 10,
    ensures
        c == digit_char(d as int),
{
    let b: u8 = (48 + d) as u8;
    b as char
}

/// Appends the decimal spelling of `n`.
pub fn push_dec(s: &mut String, n: u64)
    ensures
        final(s)@ == old(s)@ + dec_chars(n as nat),
    decreases n,
{
    if n >= 10 {
        push_dec(s, n / 10);
    }
    push_char(s, digit(n % 10));
}

/// Appends the decimal spelling of the signed `n`.
pub fn push_dec_i64(s: &mut String, n: i64)
    ensures
        final(s)@ == old(s)@ + dec_int_chars(n as int),
{
    if n < 0 {
        push_char(s, '-');
        let m: i128 = -(n as i128);
        push_dec(s, m as u64);
        assert(old(s)@.push('-') + dec_chars((-n) as nat) == old(s)@ + (seq!['-'] + dec_chars(
            (-n) as nat,
        )));
    } else {
        push_dec(s, n as u64);
    }
}

/// The decimal spelling of `n` as a new `String`.
pub fn dec_string(n: u64) -> (s: String)
    ensures
        s@ == dec_chars(n as nat),
{
    let mut s = String::new();
    push_dec(&mut s, n);
    s
}

// ---------------------------------------------------------------------------
// Hexadecimal spellings.
// ---------------------------------------------------------------------------

/// The lowercase hex digit for `v` (`0..=15`).
pub open spec fn hex_lower_char(v: int) -> char {
    if v < 10 {
        (48 + v) as char
    } else {
        (87 + v) as char
    }
}

/// The uppercase hex digit for `v` (`0..=15`).
pub open spec fn hex_upper_char(v: int) -> char {
    if v < 10 {
        (48 + v) as char
    } else {
        (55 + v) as char
    }
}

/// A byte as two lowercase hex digits.
pub open spec fn byte_hex_lower(b: u8) -> Seq<char> {
    seq![hex_lower_char(b as int / 16), hex_lower_char(b as int % 16)]
}

/// A byte as two uppercase hex digits.
pub open spec fn byte_hex_upper(b: u8) -> Seq<char> {
    seq![hex_upper_char(b as int / 16), hex_upper_char(b as int % 16)]
}

/// The low `w` hex digits of `n`, most significant first, lowercase and
/// zero-padded.
pub open spec fn hex_fixed_lower(n: nat, w: nat) -> Seq<char>
    decreases w,
{
    if w == 0 {
        seq![]
    } else {
        hex_fixed_lower(n / 16, (w - 1) as nat).push(hex_lower_char((n % 16) as int))
    }
}

/// Bytes as contiguous lowercase hex.
pub open spec fn hex_lower_compact(s: Seq<u8>) -> Seq<char>
    decreases s.len(),
{
    if s.len() == 0 {
        seq![]
    } else {
        hex_lower_compact(s.drop_last()) + byte_hex_lower(s.last())
    }
}

/// Bytes as contiguous uppercase hex.
pub open spec fn hex_upper_compact(s: Seq<u8>) -> Seq<char>
    decreases s.len(),
{
    if s.len() == 0 {
        seq![]
    } else {
        hex_upper_compact(s.drop_last()) + byte_hex_upper(s.last())
    }
}

/// Bytes as space-separated uppercase hex pairs (`01 FF 02`).
pub open spec fn hex_upper_spaced(s: Seq<u8>) -> Seq<char>
    decreases s.len(),
{
    if s.len() == 0 {
        seq![]
    } else if s.len() == 1 {
        byte_hex_upper(s[0])
    } else {
        hex_upper_spaced(s.drop_last()) + seq![' '] + byte_hex_upper(s.last())
    }
}

pub fn hex_lower_digit(v: u8) -> (c: char)
    requires
        v < 16,
    ensures
        c == hex_lower_char(v as int),
{
    if v < 10 {
        let b: u8 = 48 + v;
        b as char
    } else {
        let b: u8 = 87 + v;
        b as char
    }
}

pub fn hex_upper_digit(v: u8) -> (c: char)
    requires
        v < 16,
    ensures
        c == hex_upper_char(v as int),
{
    if v < 10 {
        let b: u8 = 48 + v;
        b as char
    } else {
        let b: u8 = 55 + v;
        b as char
    }
}

/// Appends a byte as two lowercase hex digits.
pub fn push_byte_hex_lower(s: &mut String, b: u8)
    ensures
        final(s)@ == old(s)@ + byte_hex_lower(b),
{
    push_char(s, hex_lower_digit(b / 16));
    push_char(s, hex_lower_digit(b % 16));
}

/// Appends a byte as two uppercase hex digits.
pub fn push_byte_hex_upper(s: &mut String, b: u8)
    ensures
        final(s)@ == old(s)@ + byte_hex_upper(b),
{
    push_char(s, hex_upper_digit(b / 16));
    push_char(s, hex_upper_digit(b % 16));
}

/// Appends the low `w` hex digits of `n`, lowercase, zero-padded.
pub fn push_hex_fixed_lower(s: &mut String, n: u64, w: u32)
    ensures
        final(s)@ == old(s)@ + hex_fixed_lower(n as nat, w as nat),
    decreases w,
{
    if w > 0 {
        push_hex_fixed_lower(s, n / 16, w - 1);
        push_char(s, hex_lower_digit((n % 16) as u8));
    }
}

/// Appends bytes as contiguous lowercase hex.
pub fn push_hex_lower_compact(s: &mut String, bytes: &[u8])
    ensures
        final(s)@ == old(s)@ + hex_lower_compact(bytes@),
{
    let ghost s0 = s@;
    let mut i: usize = 0;
    while i < bytes.len()
        invariant
            i <= bytes.len(),
            s@ == s0 + hex_lower_compact(bytes@.take(i as int)),
        decreases bytes.len() - i,
    {
        push_byte_hex_lower(s, bytes[i]);
        i += 1;
        assert(bytes@.take(i as int).drop_last() == bytes@.take(i - 1));
    }
    assert(bytes@.take(bytes.len() as int) == bytes@);
}

/// Appends bytes as contiguous uppercase hex.
pub fn push_hex_upper_compact(s: &mut String, bytes: &[u8])
    ensures
        final(s)@ == old(s)@ + hex_upper_compact(bytes@),
{
    let ghost s0 = s@;
    let mut i: usize = 0;
    while i < bytes.len()
        invariant
            i <= bytes.len(),
            s@ == s0 + hex_upper_compact(bytes@.take(i as int)),
        decreases bytes.len() - i,
    {
        push_byte_hex_upper(s, bytes[i]);
        i += 1;
        assert(bytes@.take(i as int).drop_last() == bytes@.take(i - 1));
    }
    assert(bytes@.take(bytes.len() as int) == bytes@);
}

/// Appends bytes as space-separated uppercase hex pairs.
pub fn push_hex_upper_spaced(s: &mut String, bytes: &[u8])
    ensures
        final(s)@ == old(s)@ + hex_upper_spaced(bytes@),
{
    let ghost s0 = s@;
    let mut i: usize = 0;
    while i < bytes.len()
        invariant
            i <= bytes.len(),
            s@ == s0 + hex_upper_spaced(bytes@.take(i as int)),
        decreases bytes.len() - i,
    {
        if i > 0 {
            push_char(s, ' ');
        }
        push_byte_hex_upper(s, bytes[i]);
        i += 1;
        assert(bytes@.take(i as int).drop_last() == bytes@.take(i - 1));
        if i == 1 {
            assert(bytes@.take(1)[0] == bytes@[0]);
        }
    }
    assert(bytes@.take(bytes.len() as int) == bytes@);
}

// ---------------------------------------------------------------------------
// Character classes.
// ---------------------------------------------------------------------------

pub open spec fn is_digit_char(c: char) -> bool {
    '0' <= c && c <= '9'
}

pub open spec fn is_hex_char(c: char) -> bool {
    ('0' <= c && c <= '9') || ('a' <= c && c <= 'f') || ('A' <= c && c <= 'F')
}

pub open spec fn is_lower_hex_char(c: char) -> bool {
    ('0' <= c && c <= '9') || ('a' <= c && c <= 'f')
}

/// The value of a hex digit character.
pub open spec fn hex_value(c: char) -> nat {
    if '0' <= c && c <= '9' {
        (c as nat - 48) as nat
    } else if 'a' <= c && c <= 'f' {
        (c as nat - 87) as nat
    } else {
        (c as nat - 55) as nat
    }
}

pub fn is_hex(c: char) -> (r: bool)
    ensures
        r == is_hex_char(c),
{
    ('0' <= c && c <= '9') || ('a' <= c && c <= 'f') || ('A' <= c && c <= 'F')
}

pub fn hex_val(c: char) -> (v: u8)
    requires
        is_hex_char(c),
    ensures
        v == hex_value(c),
        v < 16,
{
    if '0' <= c && c <= '9' {
        (c as u32 - 48) as u8
    } else if 'a' <= c && c <= 'f' {
        (c as u32 - 87) as u8
    } else {
        (c as u32 - 55) as u8
    }
}

// ---------------------------------------------------------------------------
// Decimal parsing (the grammar of std's unsigned `FromStr`).
// ---------------------------------------------------------------------------

/// Whether every character of `s` is an ASCII digit.
pub open spec fn all_digits(s: Seq<char>) -> bool {
    forall|i: int| 0 <= i < s.len() ==> is_digit_char(#[trigger] s[i])
}

/// The value of a run of ASCII digits.
pub open spec fn digits_value(s: Seq<char>) -> nat
    decreases s.len(),
{
    if s.len() == 0 {
        0
    } else {
        digits_value(s.drop_last()) * 10 + (s.last() as nat - 48) as nat
    }
}

/// The digit run that std's unsigned parser reads: the text after one optional
/// leading `+`.
pub open spec fn unsigned_body(s: Seq<char>) -> Seq<char> {
    if s.len() > 0 && s[0] == '+' {
        s.drop_first()
    } else {
        s
    }
}

/// The value std's unsigned `FromStr` gives `s` when it accepts it: an optional
/// `+`, then at least one ASCII digit, the value within `max`.
pub open spec fn parse_unsigned(s: Seq<char>, max: nat) -> Option<nat> {
    let body = unsigned_body(s);
    if body.len() > 0 && all_digits(body) && digits_value(body) <= max {
        Some(digits_value(body))
    } else {
        None
    }
}

proof fn lemma_digits_value_grows(s: Seq<char>, c: char)
    requires
        is_digit_char(c),
    ensures
        digits_value(s.push(c)) >= digits_value(s),
        digits_value(s.push(c)) == digits_value(s) * 10 + (c as nat - 48),
{
    assert(s.push(c).drop_last() == s);
}

proof fn lemma_digits_value_monotone(s: Seq<char>, i: int)
    requires
        0 <= i <= s.len(),
        all_digits(s),
    ensures
        digits_value(s.take(i)) <= digits_value(s),
    decreases s.len() - i,
{
    if i < s.len() {
        lemma_digits_value_monotone(s, i + 1);
        assert(s.take(i + 1) == s.take(i).push(s[i]));
        lemma_digits_value_grows(s.take(i), s[i]);
    } else {
        assert(s.take(i) == s);
    }
}

/// Parses `s` as std's unsigned `FromStr` does, for a target of maximum `max`.
pub fn parse_unsigned_chars(s: &[char], max: u64) -> (r: Option<u64>)
    ensures
        match parse_unsigned(s@, max as nat) {
            Some(v) => r == Some(v as u64),
            None => r is None,
        },
{
    let start: usize = if s.len() > 0 && s[0] == '+' { 1 } else { 0 };
    let ghost body = unsigned_body(s@);
    assert(body == s@.skip(start as int));
    if start >= s.len() {
        return None;
    }
    let mut acc: u64 = 0;
    let mut i: usize = start;
    while i < s.len()
        invariant
            start <= i <= s.len(),
            start < s.len(),
            body == unsigned_body(s@),
            body == s@.skip(start as int),
            all_digits(body.take(i - start)),
            acc as nat == digits_value(body.take(i - start)),
            acc <= max,
        decreases s.len() - i,
    {
        let c = s[i];
        if !('0' <= c && c <= '9') {
            proof {
                assert(body[i - start] == c);
                assert(!is_digit_char(body[i - start]));
            }
            return None;
        }
        let d: u64 = (c as u32 - 48) as u64;
        assert(body[i - start] == c);
        assert(body.take(i + 1 - start) == body.take(i - start).push(c));
        assert(d as nat == c as nat - 48);
        proof {
            lemma_digits_value_grows(body.take(i - start), c);
        }
        if d > max || acc > (max - d) / 10 {
            proof {
                assert(acc * 10 + d > max) by (nonlinear_arith)
                    requires
                        d > max || acc > (max - d) / 10,
                ;
                assert(digits_value(body.take(i + 1 - start)) == acc * 10 + d);
                if all_digits(body) {
                    lemma_digits_value_monotone(body, i + 1 - start);
                    assert(digits_value(body) > max);
                }
            }
            return None;
        }
        proof {
            assert(acc * 10 + d <= max) by (nonlinear_arith)
                requires
                    acc <= (max - d) / 10,
                    d <= max,
            ;
        }
        acc = acc * 10 + d;
        i += 1;
    }
    assert(body.take(i - start) == body);
    Some(acc)
}

// ---------------------------------------------------------------------------
// Splitting.
// ---------------------------------------------------------------------------

/// `s` split at every `sep` (the separators dropped), as `str::split` does: a
/// string with `k` separators yields `k + 1` parts, possibly empty.
pub open spec fn split_seq<T>(s: Seq<T>, sep: T) -> Seq<Seq<T>>
    decreases s.len(),
{
    if s.len() == 0 {
        seq![seq![]]
    } else {
        let r = split_seq(s.drop_last(), sep);
        if s.last() == sep {
            r.push(seq![])
        } else {
            r.update(r.len() - 1, r.last().push(s.last()))
        }
    }
}

pub proof fn lemma_split_nonempty<T>(s: Seq<T>, sep: T)
    ensures
        split_seq(s, sep).len() >= 1,
    decreases s.len(),
{
    if s.len() > 0 {
        lemma_split_nonempty(s.drop_last(), sep);
    }
}

/// Deep view of a vector of character vectors.
pub open spec fn chars_vv(v: Seq<Vec<char>>) -> Seq<Seq<char>> {
    Seq::new(v.len(), |i: int| v[i]@)
}

/// Deep view of a vector of byte vectors.
pub open spec fn bytes_vv(v: Seq<Vec<u8>>) -> Seq<Seq<u8>> {
    Seq::new(v.len(), |i: int| v[i]@)
}

/// Splits `s` at every `sep`.
pub fn split_chars(s: &[char], sep: char) -> (v: Vec<Vec<char>>)
    ensures
        chars_vv(v@) == split_seq(s@, sep),
{
    let mut parts: Vec<Vec<char>> = Vec::new();
    let mut cur: Vec<char> = Vec::new();
    let mut i: usize = 0;
    assert(chars_vv(parts@).push(cur@) =~= split_seq(s@.take(0), sep));
    while i < s.len()
        invariant
            i <= s@.len(),
            chars_vv(parts@).push(cur@) == split_seq(s@.take(i as int), sep),
        decreases s.len() - i,
    {
        let c = s[i];
        proof {
            lemma_split_nonempty(s@.take(i as int), sep);
            assert(s@.take(i + 1).drop_last() == s@.take(i as int));
            assert(s@.take(i + 1).last() == c);
        }
        if c == sep {
            let done = cur;
            let ghost pv = chars_vv(parts@);
            parts.push(done);
            cur = Vec::new();
            proof {
                assert(chars_vv(parts@) =~= pv.push(done@));
                assert(chars_vv(parts@).push(cur@) =~= pv.push(done@).push(seq![]));
            }
        } else {
            let ghost pv = chars_vv(parts@);
            let ghost old_cur = cur@;
            cur.push(c);
            proof {
                let r = pv.push(old_cur);
                assert(pv.push(cur@) =~= r.update(r.len() - 1, r.last().push(c)));
            }
        }
        i += 1;
    }
    assert(s@.take(i as int) == s@);
    let ghost pv = chars_vv(parts@);
    parts.push(cur);
    assert(chars_vv(parts@) =~= pv.push(cur@));
    parts
}

/// Splits `s` at every `sep`.
pub fn split_bytes(s: &[u8], sep: u8) -> (v: Vec<Vec<u8>>)
    ensures
        bytes_vv(v@) == split_seq(s@, sep),
{
    let mut parts: Vec<Vec<u8>> = Vec::new();
    let mut cur: Vec<u8> = Vec::new();
    let mut i: usize = 0;
    assert(bytes_vv(parts@).push(cur@) =~= split_seq(s@.take(0), sep));
    while i < s.len()
        invariant
            i <= s@.len(),
            bytes_vv(parts@).push(cur@) == split_seq(s@.take(i as int), sep),
        decreases s.len() - i,
    {
        let c = s[i];
        proof {
            lemma_split_nonempty(s@.take(i as int), sep);
            assert(s@.take(i + 1).drop_last() == s@.take(i as int));
            assert(s@.take(i + 1).last() == c);
        }
        if c == sep {
            let done = cur;
            let ghost pv = bytes_vv(parts@);
            parts.push(done);
            cur = Vec::new();
            proof {
                assert(bytes_vv(parts@) =~= pv.push(done@));
                assert(bytes_vv(parts@).push(cur@) =~= pv.push(done@).push(seq![]));
            }
        } else {
            let ghost pv = bytes_vv(parts@);
            let ghost old_cur = cur@;
            cur.push(c);
            proof {
                let r = pv.push(old_cur);
                assert(pv.push(cur@) =~= r.update(r.len() - 1, r.last().push(c)));
            }
        }
        i += 1;
    }
    assert(s@.take(i as int) == s@);
    let ghost pv = bytes_vv(parts@);
    parts.push(cur);
    assert(bytes_vv(parts@) =~= pv.push(cur@));
    parts
}

/// The lines of a text, as `str::lines` gives them: split at `\n`, a final
/// empty piece (after a trailing `\n`, or of an empty text) dropped, and a `\r`
/// directly before a `\n` removed.
pub open spec fn lines_of(s: Seq<char>) -> Seq<Seq<char>> {
    let parts = split_seq(s, '\n');
    let kept = if parts.last().len() == 0 {
        parts.drop_last()
    } else {
        parts
    };
    Seq::new(
        kept.len(),
        |i: int|
            if i < parts.len() - 1 && kept[i].len() > 0 && kept[i].last() == '\r' {
                kept[i].drop_last()
            } else {
                kept[i]
            },
    )
}

/// The lines of `s`.
pub fn lines(s: &[char]) -> (v: Vec<Vec<char>>)
    ensures
        chars_vv(v@) == lines_of(s@),
{
    let parts = split_chars(s, '\n');
    proof {
        lemma_split_nonempty(s@, '\n');
    }
    let n = parts.len();
    let kept_n = if parts[n - 1].len() == 0 {
        n - 1
    } else {
        n
    };
    let mut out: Vec<Vec<char>> = Vec::new();
    let mut i: usize = 0;
    while i < kept_n
        invariant
            n == parts@.len(),
            n >= 1,
            kept_n <= n,
            kept_n == (if parts@[n - 1]@.len() == 0 {
                n - 1
            } else {
                n as int
            }),
            i <= kept_n,
            chars_vv(parts@) == split_seq(s@, '\n'),
            out@.len() == i,
            forall|j: int| 0 <= j < i ==> #[trigger] out@[j]@ == lines_of(s@)[j],
        decreases kept_n - i,
    {
        let part = &parts[i];
        let l = part.len();
        let mut line: Vec<char> = Vec::new();
        let cut = if i + 1 < n && l > 0 && part[l - 1] == '\r' {
            l - 1
        } else {
            l
        };
        let mut k: usize = 0;
        while k < cut
            invariant
                cut <= l,
                l == part@.len(),
                k <= cut,
                line@ == part@.take(k as int),
            decreases cut - k,
        {
            line.push(part[k]);
            k += 1;
        }
        proof {
            assert(chars_vv(parts@)[i as int] == part@);
            if cut < l {
                assert(line@ =~= part@.drop_last());
            } else {
                assert(line@ =~= part@);
            }
        }
        out.push(line);
        i += 1;
    }
    assert(chars_vv(out@) =~= lines_of(s@));
    out
}

/// Whether `s` begins with `p`.
pub open spec fn starts_with<T>(s: Seq<T>, p: Seq<T>) -> bool {
    p.len() <= s.len() && s.subrange(0, p.len() as int) == p
}

pub fn chars_start_with(s: &[char], p: &[char]) -> (r: bool)
    ensures
        r == starts_with(s@, p@),
{
    if p.len() > s.len() {
        return false;
    }
    let mut i: usize = 0;
    while i < p.len()
        invariant
            p@.len() <= s@.len(),
            i <= p@.len(),
            forall|j: int| 0 <= j < i ==> s@[j] == p@[j],
        decreases p.len() - i,
    {
        if s[i] != p[i] {
            assert(s@.subrange(0, p@.len() as int)[i as int] != p@[i as int]);
            return false;
        }
        i += 1;
    }
    assert(s@.subrange(0, p@.len() as int) =~= p@);
    true
}

/// A copy of `s[from..]`.
pub fn chars_skip(s: &[char], from: usize) -> (v: Vec<char>)
    requires
        from <= s@.len(),
    ensures
        v@ == s@.skip(from as int),
{
    let mut v: Vec<char> = Vec::new();
    let mut i = from;
    while i < s.len()
        invariant
            from <= i <= s@.len(),
            v@ == s@.subrange(from as int, i as int),
        decreases s.len() - i,
    {
        v.push(s[i]);
        i += 1;
    }
    v
}

/// Decodes UTF-8 bytes (std's `String::from_utf8`): `None` exactly for
/// invalid UTF-8.
#[verifier::external_body]
pub fn utf8_decode(b: &[u8]) -> (r: Option<String>)
    ensures
        r is Some <==> valid_utf8(b@),
        r matches Some(s) ==> s@ == decode_utf8(b@),
{
    String::from_utf8(b.to_vec()).ok()
}

// ---------------------------------------------------------------------------
// Joining and whitespace.
// ---------------------------------------------------------------------------

/// `parts` joined with `sep` between consecutive parts.
pub open spec fn join(parts: Seq<Seq<char>>, sep: Seq<char>) -> Seq<char>
    decreases parts.len(),
{
    if parts.len() == 0 {
        seq![]
    } else if parts.len() == 1 {
        parts[0]
    } else {
        join(parts.drop_last(), sep) + sep + parts.last()
    }
}

/// The `String`s' characters, in order.
pub open spec fn strings_view(v: Seq<String>) -> Seq<Seq<char>> {
    Seq::new(v.len(), |i: int| v[i]@)
}

/// Appends `parts` joined with `sep`.
pub fn push_join(s: &mut String, parts: &[String], sep: &str)
    ensures
        final(s)@ == old(s)@ + join(strings_view(parts@), sep@),
{
    let ghost s0 = s@;
    let ghost pv = strings_view(parts@);
    let mut i: usize = 0;
    while i < parts.len()
        invariant
            i <= parts@.len(),
            pv == strings_view(parts@),
            s@ == s0 + join(pv.take(i as int), sep@),
        decreases parts.len() - i,
    {
        if i > 0 {
            push_str(s, sep);
        }
        push_str(s, parts[i].as_str());
        proof {
            assert(pv.take(i + 1).drop_last() =~= pv.take(i as int));
            assert(pv.take(i + 1).last() == parts@[i as int]@);
            if i == 0 {
                assert(pv.take(1) =~= seq![parts@[0]@]);
            }
        }
        i += 1;
    }
    assert(pv.take(i as int) =~= pv);
}

/// Unicode `White_Space`, the set `char::is_whitespace` tests.
pub open spec fn is_unicode_whitespace(c: char) -> bool {
    ||| ('\t' <= c && c <= '\r')
    ||| c == ' '
    ||| c == '\u{85}'
    ||| c == '\u{A0}'
    ||| c == '\u{1680}'
    ||| ('\u{2000}' <= c && c <= '\u{200A}')
    ||| c == '\u{2028}'
    ||| c == '\u{2029}'
    ||| c == '\u{202F}'
    ||| c == '\u{205F}'
    ||| c == '\u{3000}'
}

pub fn is_whitespace(c: char) -> (r: bool)
    ensures
        r == is_unicode_whitespace(c),
{
    ('\t' <= c && c <= '\r') || c == ' ' || c == '\u{85}' || c == '\u{A0}' || c == '\u{1680}'
        || ('\u{2000}' <= c && c <= '\u{200A}') || c == '\u{2028}' || c == '\u{2029}' || c
        == '\u{202F}' || c == '\u{205F}' || c == '\u{3000}'
}

/// Whether `s` is empty once trimmed: every character is whitespace.
pub open spec fn blank(s: Seq<char>) -> bool {
    forall|i: int| 0 <= i < s.len() ==> is_unicode_whitespace(#[trigger] s[i])
}

pub fn is_blank(s: &str) -> (r: bool)
    ensures
        r == blank(s@),
{
    let cs = chars_of(s);
    let mut i: usize = 0;
    while i < cs.len()
        invariant
            cs@ == s@,
            i <= cs@.len(),
            forall|j: int| 0 <= j < i ==> is_unicode_whitespace(#[trigger] cs@[j]),
        decreases cs.len() - i,
    {
        if !is_whitespace(cs[i]) {
            return false;
        }
        i += 1;
    }
    true
}

/// The UTF-8 bytes of a `String`.
pub fn string_bytes(s: &String) -> (b: Vec<u8>)
    ensures
        b@ == encode_utf8(s@),
{
    s.as_str().as_bytes_vec()
}

/// The UTF-8 bytes of a `str`.
pub fn str_bytes(s: &str) -> (b: Vec<u8>)
    ensures
        b@ == encode_utf8(s@),
{
    s.as_bytes_vec()
}

/// The UTF-8 encoding of `cs` takes at most four bytes per character.
pub proof fn lemma_encode_utf8_len(cs: Seq<char>)
    ensures
        cs.len() <= encode_utf8(cs).len() <= 4 * cs.len(),
    decreases cs.len(),
{
    if cs.len() > 0 {
        lemma_encode_utf8_len(cs.drop_first());
    }
}

// ---------------------------------------------------------------------------
// JSON string literals.
// ---------------------------------------------------------------------------

/// One character inside a JSON string literal: `"`, `\`, LF, CR and TAB
/// escaped, every other character verbatim.
pub open spec fn json_char(c: char) -> Seq<char> {
    if c == '"' {
        "\\\""@
    } else if c == '\\' {
        "\\\\"@
    } else if c == '\n' {
        "\\n"@
    } else if c == '\r' {
        "\\r"@
    } else if c == '\t' {
        "\\t"@
    } else {
        seq![c]
    }
}

/// The escaped body of a JSON string literal.
pub open spec fn json_escape(s: Seq<char>) -> Seq<char>
    decreases s.len(),
{
    if s.len() == 0 {
        seq![]
    } else {
        json_escape(s.drop_last()) + json_char(s.last())
    }
}

/// A JSON string literal: the escaped text between double quotes.
pub open spec fn json_str(s: Seq<char>) -> Seq<char> {
    "\""@ + json_escape(s) + "\""@
}

/// Appends `t` as a JSON string literal.
pub fn push_json_str(s: &mut String, t: &str)
    ensures
        final(s)@ == old(s)@ + json_str(t@),
{
    let ghost s0 = s@;
    let cs = chars_of(t);
    push_str(s, "\"");
    let mut i: usize = 0;
    while i < cs.len()
        invariant
            i <= cs@.len(),
            cs@ == t@,
            s@ == s0 + "\""@ + json_escape(cs@.take(i as int)),
        decreases cs.len() - i,
    {
        let c = cs[i];
        if c == '"' {
            push_str(s, "\\\"");
        } else if c == '\\' {
            push_str(s, "\\\\");
        } else if c == '\n' {
            push_str(s, "\\n");
        } else if c == '\r' {
            push_str(s, "\\r");
        } else if c == '\t' {
            push_str(s, "\\t");
        } else {
            push_char(s, c);
            assert(seq![c] == json_char(c));
        }
        assert(cs@.take(i + 1).drop_last() == cs@.take(i as int));
        i += 1;
    }
    assert(cs@.take(cs@.len() as int) == cs@);
    push_str(s, "\"");
}

// ---------------------------------------------------------------------------
// Lemmas the codec round trips rest on.
// ---------------------------------------------------------------------------

/// UTF-8 encoding distributes over concatenation.
pub proof fn lemma_encode_utf8_concat(a: Seq<char>, b: Seq<char>)
    ensures
        encode_utf8(a + b) == encode_utf8(a) + encode_utf8(b),
    decreases a.len(),
{
    if a.len() > 0 {
        lemma_encode_utf8_concat(a.drop_first(), b);
        assert((a + b).drop_first() =~= a.drop_first() + b);
        assert((a + b)[0] == a[0]);
        assert(encode_utf8(a) + encode_utf8(b) =~= encode_scalar(a[0] as u32) + (encode_utf8(
            a.drop_first(),
        ) + encode_utf8(b)));
    } else {
        assert(a + b =~= b);
    }
}

/// Splitting `a`, a separator, then `b` gives the parts of `a` followed by the
/// parts of `b`.
pub proof fn lemma_split_concat<T>(a: Seq<T>, sep: T, b: Seq<T>)
    ensures
        split_seq(a + seq![sep] + b, sep) == split_seq(a, sep) + split_seq(b, sep),
    decreases b.len(),
{
    if b.len() == 0 {
        assert(a + seq![sep] + b =~= a.push(sep));
        assert((a.push(sep)).drop_last() =~= a);
        assert(split_seq(b, sep) =~= seq![seq![]]);
        assert(split_seq(a, sep).push(seq![]) =~= split_seq(a, sep) + seq![seq![]]);
    } else {
        let s = a + seq![sep] + b;
        lemma_split_concat(a, sep, b.drop_last());
        assert(s.drop_last() =~= a + seq![sep] + b.drop_last());
        assert(s.last() == b.last());
        lemma_split_nonempty(b.drop_last(), sep);
        let ra = split_seq(a, sep);
        let rb = split_seq(b.drop_last(), sep);
        if b.last() == sep {
            assert((ra + rb).push(seq![]) =~= ra + rb.push(seq![]));
        } else {
            let r = ra + rb;
            assert(r.update(r.len() - 1, r.last().push(b.last())) =~= ra + rb.update(
                rb.len() - 1,
                rb.last().push(b.last()),
            ));
        }
    }
}

/// A sequence without the separator is one part.
pub proof fn lemma_split_none<T>(a: Seq<T>, sep: T)
    requires
        !a.contains(sep),
    ensures
        split_seq(a, sep) == seq![a],
    decreases a.len(),
{
    if a.len() > 0 {
        assert(!a.drop_last().contains(sep)) by {
            if a.drop_last().contains(sep) {
                let j = choose|j: int| 0 <= j < a.drop_last().len() && a.drop_last()[j] == sep;
                assert(a[j] == sep);
            }
        }
        lemma_split_none(a.drop_last(), sep);
        assert(a[a.len() - 1] != sep);
        assert(a.drop_last().push(a.last()) =~= a);
    } else {
        assert(a =~= seq![]);
    }
}

/// The decimal spelling of `n` is a non-empty run of digits whose value is `n`.
pub proof fn lemma_dec_chars(n: nat)
    ensures
        dec_chars(n).len() >= 1,
        all_digits(dec_chars(n)),
        digits_value(dec_chars(n)) == n,
    decreases n,
{
    assert(digit_char((n % 10) as int) as nat == 48 + n % 10);
    if n >= 10 {
        lemma_dec_chars(n / 10);
        assert(dec_chars(n).drop_last() =~= dec_chars(n / 10));
        assert(dec_chars(n).last() == digit_char((n % 10) as int));
        assert(n == (n / 10) * 10 + n % 10);
        assert(digits_value(dec_chars(n)) == digits_value(dec_chars(n / 10)) * 10 + (n % 10));
        assert(all_digits(dec_chars(n))) by {
            assert forall|i: int| 0 <= i < dec_chars(n).len() implies is_digit_char(
                #[trigger] dec_chars(n)[i],
            ) by {
                if i < dec_chars(n).len() - 1 {
                    assert(dec_chars(n)[i] == dec_chars(n / 10)[i]);
                }
            }
        }
    } else {
        assert(dec_chars(n).drop_last() =~= Seq::<char>::empty());
        assert(digits_value(Seq::<char>::empty()) == 0);
        assert(dec_chars(n).last() == digit_char(n as int));
        assert(n % 10 == n);
    }
}

/// std's unsigned parser reads the decimal spelling of `n` back as `n`.
pub proof fn lemma_parse_dec(n: nat, max: nat)
    requires
        n <= max,
    ensures
        parse_unsigned(dec_chars(n), max) == Some(n),
{
    lemma_dec_chars(n);
    assert(is_digit_char(dec_chars(n)[0]));
    assert(unsigned_body(dec_chars(n)) == dec_chars(n));
}


/// Joining one more part appends the separator (when there was a part before)
/// and the part.
pub proof fn lemma_join_push(parts: Seq<Seq<char>>, p: Seq<char>, sep: Seq<char>)
    ensures
        join(parts.push(p), sep) == (if parts.len() == 0 {
            p
        } else {
            join(parts, sep) + sep + p
        }),
{
    assert(parts.push(p).drop_last() =~= parts);
}

/// Splitting a join at a one-character separator that no part holds gives the
/// parts back.
pub proof fn lemma_split_join(parts: Seq<Seq<char>>, c: char)
    requires
        parts.len() >= 1,
        forall|i: int| 0 <= i < parts.len() ==> !(#[trigger] parts[i]).contains(c),
    ensures
        split_seq(join(parts, seq![c]), c) == parts,
    decreases parts.len(),
{
    if parts.len() == 1 {
        lemma_split_none(parts[0], c);
        assert(parts =~= seq![parts[0]]);
    } else {
        let init = parts.drop_last();
        lemma_split_join(init, c);
        lemma_split_none(parts.last(), c);
        lemma_split_concat(join(init, seq![c]), c, parts.last());
        assert(init.push(parts.last()) =~= parts);
        lemma_join_push(init, parts.last(), seq![c]);
        assert(init + seq![parts.last()] =~= parts);
    }
}

/// A join holds `c` only where a part or the separator does.
pub proof fn lemma_join_no_contains(parts: Seq<Seq<char>>, sep: Seq<char>, c: char)
    requires
        !sep.contains(c),
        forall|i: int| 0 <= i < parts.len() ==> !(#[trigger] parts[i]).contains(c),
    ensures
        !join(parts, sep).contains(c),
    decreases parts.len(),
{
    if parts.len() >= 2 {
        lemma_join_no_contains(parts.drop_last(), sep, c);
        let a = join(parts.drop_last(), sep);
        let b = parts.last();
        assert(!b.contains(c)) by {
            assert(b == parts[parts.len() - 1]);
        }
        assert(!(a + sep + b).contains(c)) by {
            if (a + sep + b).contains(c) {
                let j = choose|j: int| 0 <= j < (a + sep + b).len() && (a + sep + b)[j] == c;
                if j < a.len() {
                    assert(a[j] == c);
                } else if j < a.len() + sep.len() {
                    assert(sep[j - a.len()] == c);
                } else {
                    assert(b[j - a.len() - sep.len()] == c);
                }
            }
        }
    } else if parts.len() == 1 {
        assert(!parts[0].contains(c));
    }
}

/// A join begins with its first part, then (when there are more) the
/// separator and the join of the rest.
pub proof fn lemma_join_first(parts: Seq<Seq<char>>, sep: Seq<char>)
    requires
        parts.len() >= 1,
    ensures
        join(parts, sep) == parts[0] + (if parts.len() == 1 {
            Seq::<char>::empty()
        } else {
            sep + join(parts.drop_first(), sep)
        }),
    decreases parts.len(),
{
    if parts.len() == 1 {
        assert(parts[0] + Seq::<char>::empty() =~= parts[0]);
    } else if parts.len() == 2 {
        assert(parts.drop_first() =~= seq![parts[1]]);
        assert(parts.drop_last() =~= seq![parts[0]]);
        assert(join(parts.drop_last(), sep) == parts[0]);
        assert(join(parts.drop_first(), sep) == parts[1]);
        assert(join(parts, sep) == join(parts.drop_last(), sep) + sep + parts.last());
        assert(join(parts, sep) =~= parts[0] + (sep + parts[1]));
    } else {
        lemma_join_first(parts.drop_last(), sep);
        let dl = parts.drop_last();
        let df = parts.drop_first();
        assert(dl.drop_first() =~= df.drop_last());
        assert(df.last() == parts.last());
        assert(dl[0] == parts[0]);
        assert(join(df, sep) == join(df.drop_last(), sep) + sep + df.last());
        assert(join(parts, sep) =~= parts[0] + (sep + join(df, sep)));
    }
}

/// A canonical decimal spelling: at least one digit, and no leading zero
/// unless the number is zero itself.
pub open spec fn canonical_digits(s: Seq<char>) -> bool {
    s.len() > 0 && all_digits(s) && (s.len() == 1 || s[0] != '0')
}

/// A run of digits led by a nonzero digit is at least 1.
proof fn lemma_digits_value_pos(s: Seq<char>)
    requires
        s.len() > 0,
        all_digits(s),
        s[0] != '0',
    ensures
        digits_value(s) >= 1,
    decreases s.len(),
{
    if s.len() > 1 {
        lemma_digits_value_pos(s.drop_last());
    }
}

/// `dec_chars` writes the canonical spelling.
pub proof fn lemma_dec_canonical(n: nat)
    ensures
        canonical_digits(dec_chars(n)),
    decreases n,
{
    lemma_dec_chars(n);
    if n >= 10 {
        lemma_dec_canonical(n / 10);
        lemma_dec_chars(n / 10);
        assert(dec_chars(n)[0] == dec_chars(n / 10)[0]);
        if dec_chars(n / 10).len() == 1 {
            let q = dec_chars(n / 10);
            assert(q.drop_last() =~= Seq::<char>::empty());
            assert(digits_value(q.drop_last()) == 0);
            assert(digits_value(q) == (q[0] as nat - 48));
        }
    }
}

/// The canonical spelling of a number is the only one: a canonical digit run
/// is `dec_chars` of its value.
pub proof fn lemma_canonical_dec(s: Seq<char>)
    requires
        canonical_digits(s),
    ensures
        dec_chars(digits_value(s)) == s,
    decreases s.len(),
{
    if s.len() == 1 {
        let v = digits_value(s);
        assert(s.drop_last() =~= Seq::<char>::empty());
        assert(digits_value(s.drop_last()) == 0);
        assert(v == s[0] as nat - 48);
        assert(dec_chars(v) == seq![digit_char(v as int)]);
        assert(digit_char(v as int) == s[0]);
        assert(dec_chars(v) =~= s);
    } else {
        let p = s.drop_last();
        assert(p[0] == s[0]);
        lemma_canonical_dec(p);
        lemma_digits_value_pos(p);
        let d = s.last() as nat - 48;
        let v = digits_value(s);
        assert(v == digits_value(p) * 10 + d);
        assert(v / 10 == digits_value(p) && v % 10 == d) by {
            vstd::arithmetic::div_mod::lemma_fundamental_div_mod_converse(v as int, 10, digits_value(p) as int, d as int);
        }
        assert(digit_char(d as int) == s.last());
        assert(dec_chars(v) == dec_chars(v / 10).push(digit_char((v % 10) as int)));
        assert(dec_chars(v) =~= s);
    }
}

/// Splitting at `c` and joining with `c` gives the text back.
pub proof fn lemma_join_split(t: Seq<char>, c: char)
    ensures
        split_seq(t, c).len() >= 1,
        join(split_seq(t, c), seq![c]) == t,
    decreases t.len(),
{
    if t.len() == 0 {
        assert(join(seq![seq![]], seq![c]) == Seq::<char>::empty());
    } else {
        let r = split_seq(t.drop_last(), c);
        lemma_join_split(t.drop_last(), c);
        let x = t.last();
        if x == c {
            lemma_join_push(r, seq![], seq![c]);
            assert(t =~= t.drop_last() + seq![c] + Seq::<char>::empty());
        } else {
            let u = r.update(r.len() - 1, r.last().push(x));
            if r.len() == 1 {
                assert(join(u, seq![c]) == u[0]);
                assert(join(r, seq![c]) == r[0]);
                assert(t =~= r[0].push(x));
            } else {
                assert(u.drop_last() =~= r.drop_last());
                assert(join(u, seq![c]) == join(u.drop_last(), seq![c]) + seq![c] + u.last());
                assert(join(r, seq![c]) == join(r.drop_last(), seq![c]) + seq![c] + r.last());
                assert(join(u, seq![c]) =~= join(r, seq![c]).push(x));
                assert(t =~= t.drop_last().push(x));
            }
        }
    }
}

/// Prefixing the first part prefixes the join.
pub proof fn lemma_join_prefix_first(parts: Seq<Seq<char>>, pre: Seq<char>, sep: Seq<char>)
    requires
        parts.len() >= 1,
    ensures
        join(parts.update(0, pre + parts[0]), sep) == pre + join(parts, sep),
    decreases parts.len(),
{
    let u = parts.update(0, pre + parts[0]);
    if parts.len() == 1 {
        assert(join(u, sep) == u[0]);
    } else {
        lemma_join_prefix_first(parts.drop_last(), pre, sep);
        assert(u.drop_last() =~= parts.drop_last().update(0, pre + parts[0]));
        assert(join(u, sep) == join(u.drop_last(), sep) + sep + u.last());
        assert(join(parts, sep) == join(parts.drop_last(), sep) + sep + parts.last());
        assert(join(u, sep) =~= pre + join(parts, sep));
    }
}

} // verus!
