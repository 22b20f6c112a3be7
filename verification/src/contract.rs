//! Reference codec for the KISS-Contract structured/text **document** framing
//! (Contract §6.11) and the transport hard-reject reader discipline (§6.1).
//!
//! A contract is a UTF-8 text document — a pinned header line followed by
//! section blocks under pinned heading lines — self-delimited by the inner body
//! length its header line declares and integrity-checked by that line's CRC-32
//! (§6.11-0002/-0003). Every framing field is exact-byte (§6.0-0001) except the
//! optional Semantics `human_annotation`, which [`exact_byte_scoped`] removes
//! before a byte comparison.

use vstd::prelude::*;
use vstd::utf8::{decode_utf8, encode_utf8, valid_utf8};
use crate::DeterminismClass;
use crate::text::{
    blank, chars_eq, chars_of, chars_skip, chars_start_with, chars_vv, dec_chars, dec_int_chars,
    hex_fixed_lower, hex_lower_char, hex_lower_compact, hex_upper_spaced, hex_val, hex_value, is_blank,
    is_digit_char,
    is_lower_hex_char, join, json_str, lemma_dec_chars, lemma_encode_utf8_concat, lemma_join_push, lemma_encode_utf8_len, lemma_parse_dec,
    lemma_split_concat, lemma_split_none, lines, lines_of, parse_unsigned,
    parse_unsigned_chars, push_char, push_dec, push_dec_i64, push_hex_fixed_lower,
    push_hex_lower_compact, push_hex_upper_spaced, push_join, push_json_str, push_str, split_chars,
    split_seq, starts_with, str_bytes, string_bytes, string_from, string_of, strings_view,
    utf8_decode,
};
use crate::wire::{copy_range, has_prefix_at, push_all};

verus! {

// ---------------------------------------------------------------------------
// CRC-32 (IEEE 802.3) — §6.11-0003.
// ---------------------------------------------------------------------------

/// One bit step of the reflected CRC-32 (polynomial `0xEDB88320`).
pub open spec fn crc_bit(c: u32) -> u32 {
    if c % 2 == 1 {
        (c / 2) ^ 0xEDB8_8320u32
    } else {
        c / 2
    }
}

/// `k` bit steps.
pub open spec fn crc_bits(c: u32, k: nat) -> u32
    decreases k,
{
    if k == 0 {
        c
    } else {
        crc_bit(crc_bits(c, (k - 1) as nat))
    }
}

/// The register after the bytes of `s`, from the initial `0xFFFFFFFF`.
pub open spec fn crc_register(s: Seq<u8>) -> u32
    decreases s.len(),
{
    if s.len() == 0 {
        0xFFFF_FFFFu32
    } else {
        crc_bits(crc_register(s.drop_last()) ^ (s.last() as u32), 8)
    }
}

/// CRC-32/ISO-HDLC of `s`: the register with the final XOR `0xFFFFFFFF`.
pub open spec fn crc32(s: Seq<u8>) -> u32 {
    crc_register(s) ^ 0xFFFF_FFFFu32
}

/// CRC-32 over `data` per §6.11-0003: IEEE 802.3 polynomial, reflected
/// (`0xEDB88320`), initial value `0xFFFFFFFF`, final XOR `0xFFFFFFFF` — the
/// CRC-32/ISO-HDLC whose check value over ASCII `"123456789"` is `0xCBF43926`.
pub fn crc32_ieee(data: &[u8]) -> (r: u32)
    ensures
        r == crc32(data@),
{
    let mut crc: u32 = 0xFFFF_FFFF;
    let mut i: usize = 0;
    while i < data.len()
        invariant
            i <= data@.len(),
            crc == crc_register(data@.take(i as int)),
        decreases data.len() - i,
    {
        let ghost start = crc ^ (data@[i as int] as u32);
        crc = crc ^ (data[i] as u32);
        let mut k: u32 = 0;
        while k < 8
            invariant
                k <= 8,
                crc == crc_bits(start, k as nat),
            decreases 8 - k,
        {
            if crc % 2 == 1 {
                crc = (crc / 2) ^ 0xEDB8_8320;
            } else {
                crc = crc / 2;
            }
            k += 1;
        }
        assert(data@.take(i + 1).drop_last() == data@.take(i as int));
        i += 1;
    }
    assert(data@.take(i as int) == data@);
    crc ^ 0xFFFF_FFFF
}

// ---------------------------------------------------------------------------
// §6.11-0001 — per-type field-value encoding.
// ---------------------------------------------------------------------------

/// A real value carried by its IEEE 754-2019 bit pattern (§6.11-0010), so ±0,
/// ±∞ and NaN payloads round-trip exactly.
#[derive(Debug, Clone, Copy, PartialEq, Eq, Structural)]
pub enum Real {
    /// `f32` (binary32) bit pattern.
    F32(u32),
    /// `f64` (binary64) bit pattern.
    F64(u64),
}

/// `<dtype>:<hex>` — the dtype token, then the bit pattern as big-endian
/// lowercase hex, zero-padded to the dtype width.
pub open spec fn real_chars(r: Real) -> Seq<char> {
    match r {
        Real::F32(bits) => "f32:"@ + hex_fixed_lower(bits as nat, 8),
        Real::F64(bits) => "f64:"@ + hex_fixed_lower(bits as nat, 16),
    }
}

impl Real {
    /// Render as `<dtype>:<hex>` (§6.11-0010).
    pub fn render(&self) -> (s: String)
        ensures
            s@ == real_chars(*self),
    {
        let mut s = String::new();
        match self {
            Real::F32(bits) => {
                push_str(&mut s, "f32:");
                push_hex_fixed_lower(&mut s, *bits as u64, 8);
            },
            Real::F64(bits) => {
                push_str(&mut s, "f64:");
                push_hex_fixed_lower(&mut s, *bits, 16);
            },
        }
        s
    }
}

/// A typed field value under the §6.11-0001 text encoding.
#[derive(Debug, Clone, PartialEq, Eq)]
pub enum Value {
    /// A string / enumerated token: verbatim to the line's LF (no LF inside).
    Str(String),
    /// A decimal-ASCII integer (a negative value carries a leading `-`).
    Int(i64),
    /// An array: `[` then elements separated by `, ` then `]`.
    Array(Vec<String>),
    /// An opaque byte blob: `<n>:<hex>` with `2·n` lowercase hex digits.
    Blob(Vec<u8>),
    /// A real pinned by its IEEE-754 bit pattern (§6.11-0010).
    Real(Real),
}

/// The content of a [`Value`].
pub enum ValueView {
    Str(Seq<char>),
    Int(i64),
    Array(Seq<Seq<char>>),
    Blob(Seq<u8>),
    Real(Real),
}

impl View for Value {
    type V = ValueView;

    open spec fn view(&self) -> ValueView {
        match self {
            Value::Str(s) => ValueView::Str(s@),
            Value::Int(n) => ValueView::Int(*n),
            Value::Array(v) => ValueView::Array(strings_view(v@)),
            Value::Blob(b) => ValueView::Blob(b@),
            Value::Real(r) => ValueView::Real(*r),
        }
    }
}

/// A string value may not hold an LF (§6.11-0001).
pub open spec fn value_ok(v: ValueView) -> bool {
    match v {
        ValueView::Str(s) => !s.contains('\n'),
        _ => true,
    }
}

/// The rendered value bytes per §6.11-0001 (the text right of `<key> = `).
pub open spec fn value_chars(v: ValueView) -> Seq<char> {
    match v {
        ValueView::Str(s) => s,
        ValueView::Int(n) => dec_int_chars(n as int),
        ValueView::Array(e) => "["@ + join(e, ", "@) + "]"@,
        ValueView::Blob(b) => dec_chars(b.len()) + ":"@ + hex_lower_compact(b),
        ValueView::Real(r) => real_chars(r),
    }
}

impl Value {
    /// Render the value per §6.11-0001. A string value must not contain an LF.
    pub fn render(&self) -> (s: String)
        requires
            value_ok(self@),
        ensures
            s@ == value_chars(self@),
    {
        let mut s = String::new();
        match self {
            Value::Str(v) => {
                push_str(&mut s, v.as_str());
            },
            Value::Int(n) => {
                push_dec_i64(&mut s, *n);
            },
            Value::Array(elems) => {
                push_str(&mut s, "[");
                push_join(&mut s, elems.as_slice(), ", ");
                push_str(&mut s, "]");
            },
            Value::Blob(bytes) => {
                push_dec(&mut s, bytes.len() as u64);
                push_str(&mut s, ":");
                push_hex_lower_compact(&mut s, bytes.as_slice());
            },
            Value::Real(r) => {
                let t = r.render();
                push_str(&mut s, t.as_str());
            },
        }
        s
    }
}

/// One field line: `<key> = <value>` then a single LF (§6.11-0001).
pub open spec fn field_line_chars(key: Seq<char>, v: ValueView) -> Seq<char> {
    key + " = "@ + value_chars(v) + "\n"@
}

/// One field line: `<key> = <value>` — the key, one space, `=`, one space, the
/// value, then a single LF (§6.11-0001).
pub fn field_line(key: &str, value: &Value) -> (s: String)
    requires
        value_ok(value@),
    ensures
        s@ == field_line_chars(key@, value@),
{
    let mut s = String::new();
    push_str(&mut s, key);
    push_str(&mut s, " = ");
    let v = value.render();
    push_str(&mut s, v.as_str());
    push_str(&mut s, "\n");
    s
}

// ---------------------------------------------------------------------------
// Section blocks and the whole document — §6.11-0002/-0004/-0005.
// ---------------------------------------------------------------------------

/// The field lines of `fields`, in order.
pub open spec fn field_lines_chars(fields: Seq<(Seq<char>, ValueView)>) -> Seq<char>
    decreases fields.len(),
{
    if fields.len() == 0 {
        seq![]
    } else {
        field_lines_chars(fields.drop_last()) + field_line_chars(
            fields.last().0,
            fields.last().1,
        )
    }
}

/// The content of a slice of `(key, value)` pairs.
pub open spec fn fields_view(f: Seq<(&str, Value)>) -> Seq<(Seq<char>, ValueView)> {
    Seq::new(f.len(), |i: int| (f[i].0@, f[i].1@))
}

/// A section block: the heading line `[section:<id>:<name>]` then the field
/// lines in the given order (§6.11-0004/-0005).
pub open spec fn block_chars(id: u8, name: Seq<char>, fields: Seq<(Seq<char>, ValueView)>) -> Seq<
    char,
> {
    "[section:"@ + dec_chars(id as nat) + ":"@ + name + "]\n"@ + field_lines_chars(fields)
}

/// Every field value of a block is renderable.
pub open spec fn fields_ok(fields: Seq<(Seq<char>, ValueView)>) -> bool {
    forall|i: int| 0 <= i < fields.len() ==> value_ok(#[trigger] fields[i].1)
}

/// Render a section block: the pinned heading line `[section:<id>:<name>]` and
/// an LF, then one field line per `(key, value)` in the given (schema) order
/// (§6.11-0004/-0005).
pub fn render_block(id: u8, name: &str, fields: &[(&str, Value)]) -> (b: Vec<u8>)
    requires
        fields_ok(fields_view(fields@)),
    ensures
        b@ == encode_utf8(block_chars(id, name@, fields_view(fields@))),
{
    let ghost fv = fields_view(fields@);
    let mut s = String::new();
    push_str(&mut s, "[section:");
    push_dec(&mut s, id as u64);
    push_str(&mut s, ":");
    push_str(&mut s, name);
    push_str(&mut s, "]\n");
    let ghost head = s@;
    let mut i: usize = 0;
    while i < fields.len()
        invariant
            i <= fields@.len(),
            fv == fields_view(fields@),
            fields_ok(fv),
            s@ == head + field_lines_chars(fv.take(i as int)),
        decreases fields.len() - i,
    {
        let (k, v) = &fields[i];
        assert(fv[i as int] == (k@, v@));
        assert(value_ok(fv[i as int].1));
        let line = field_line(k, v);
        push_str(&mut s, line.as_str());
        assert(fv.take(i + 1).drop_last() =~= fv.take(i as int));
        i += 1;
    }
    assert(fv.take(i as int) =~= fv);
    string_bytes(&s)
}

/// A whole contract document = pinned header line + body (the section blocks).
#[derive(Debug, Clone)]
pub struct Document {
    pub contract_kind: String,
    pub contract_version: String,
    pub body: Vec<u8>,
}

/// The §6.11-0002 header line:
/// `KISC <kind> <version> len=<N> crc32=<HHHHHHHH>` then an LF.
pub open spec fn header_chars(kind: Seq<char>, version: Seq<char>, body: Seq<u8>) -> Seq<char> {
    "KISC "@ + kind + " "@ + version + " len="@ + dec_chars(body.len()) + " crc32="@
        + hex_fixed_lower(crc32(body) as nat, 8) + "\n"@
}

/// The document bytes: the header line, then the body.
pub open spec fn document_bytes(kind: Seq<char>, version: Seq<char>, body: Seq<u8>) -> Seq<u8> {
    encode_utf8(header_chars(kind, version, body)) + body
}

impl Document {
    /// Serialize to the §6.11-0002 document bytes: the header line
    /// `KISC <kind> <version> len=<N> crc32=<HHHHHHHH>\n` (`<N>` the decimal body
    /// length, `<HHHHHHHH>` 8 lowercase hex digits of the body's CRC-32) followed
    /// by the body.
    pub fn encode(&self) -> (b: Vec<u8>)
        ensures
            b@ == document_bytes(self.contract_kind@, self.contract_version@, self.body@),
    {
        let n = self.body.len();
        let crc = crc32_ieee(self.body.as_slice());
        let mut h = String::new();
        push_str(&mut h, "KISC ");
        push_str(&mut h, self.contract_kind.as_str());
        push_str(&mut h, " ");
        push_str(&mut h, self.contract_version.as_str());
        push_str(&mut h, " len=");
        push_dec(&mut h, n as u64);
        push_str(&mut h, " crc32=");
        push_hex_fixed_lower(&mut h, crc as u64, 8);
        push_str(&mut h, "\n");
        let mut out = string_bytes(&h);
        push_all(&mut out, self.body.as_slice());
        out
    }
}

// ---------------------------------------------------------------------------
// §6.0-0001 — the exact-byte-scoped projection.
// ---------------------------------------------------------------------------

/// The pinned Semantics section heading line (§6.11-0004; section id 2).
pub open spec fn semantics_heading() -> Seq<u8> {
    encode_utf8("[section:2:semantics]\n"@)
}

/// The pinned field-line prefix of the one field outside the exact-byte scope.
pub open spec fn blurb_prefix() -> Seq<u8> {
    encode_utf8("human_annotation = "@)
}

/// The section-heading prefix.
pub open spec fn section_prefix() -> Seq<u8> {
    encode_utf8("[section:"@)
}

/// The length of the first line of `s`, its LF included (all of `s` when it
/// holds no LF).
pub open spec fn first_line_len(s: Seq<u8>) -> int
    decreases s.len(),
{
    if s.len() == 0 {
        0
    } else if s[0] == 10 {
        1
    } else {
        1 + first_line_len(s.drop_first())
    }
}

/// `body` with every `human_annotation = ` line inside the Semantics block
/// dropped; `in_sem` says whether the text starts inside that block.
pub open spec fn scoped(s: Seq<u8>, in_sem: bool) -> Seq<u8>
    decreases s.len(),
{
    if s.len() == 0 {
        seq![]
    } else {
        proof {
            lemma_first_line_len(s);
        }
        let n = first_line_len(s);
        let line = s.take(n);
        let rest = s.skip(n);
        if starts_with(line, section_prefix()) {
            line + scoped(rest, line == semantics_heading())
        } else if in_sem && starts_with(line, blurb_prefix()) {
            scoped(rest, in_sem)
        } else {
            line + scoped(rest, in_sem)
        }
    }
}

pub proof fn lemma_first_line_len(s: Seq<u8>)
    ensures
        s.len() > 0 ==> 1 <= first_line_len(s) <= s.len(),
        forall|j: int| 0 <= j < first_line_len(s) - 1 ==> s[j] != 10,
        first_line_len(s) < s.len() || (s.len() > 0 && s[s.len() - 1] == 10) || forall|j: int|
            0 <= j < s.len() ==> s[j] != 10,
        0 < first_line_len(s) <= s.len() && s[first_line_len(s) - 1] != 10 ==> first_line_len(s)
            == s.len(),
    decreases s.len(),
{
    if s.len() > 0 {
        lemma_first_line_len(s.drop_first());
        assert forall|j: int| 0 <= j < first_line_len(s) - 1 implies s[j] != 10 by {
            if j > 0 {
                assert(s[j] == s.drop_first()[j - 1]);
            }
        }
        if s[0] != 10 {
            let t = s.drop_first();
            if first_line_len(t) < t.len() {
            } else if t.len() > 0 && t[t.len() - 1] == 10 {
            } else {
                assert forall|j: int| 0 <= j < s.len() implies s[j] != 10 by {
                    if j > 0 {
                        assert(s[j] == t[j - 1]);
                    }
                }
            }
        }
    }
}

/// The end (exclusive) of the line starting at `i`.
fn line_end(b: &[u8], i: usize) -> (e: usize)
    requires
        i < b@.len(),
    ensures
        e as int == i + first_line_len(b@.skip(i as int)),
        i < e <= b@.len(),
{
    let mut j = i;
    while j < b.len() && b[j] != 10
        invariant
            i <= j <= b@.len(),
            forall|t: int| i <= t < j ==> b@[t] != 10,
            first_line_len(b@.skip(i as int)) == (j - i) + first_line_len(b@.skip(j as int)),
        decreases b.len() - j,
    {
        assert(b@.skip(j + 1) == b@.skip(j as int).drop_first());
        j += 1;
    }
    if j < b.len() {
        assert(b@.skip(j as int)[0] == 10);
        j + 1
    } else {
        assert(b@.skip(j as int).len() == 0);
        j
    }
}

/// The end (exclusive) of the first line of a non-empty byte string: just
/// past its first LF, or its end when it holds none.
pub fn line_end_of(b: &[u8]) -> (e: usize)
    requires
        b@.len() > 0,
    ensures
        e as int == first_line_len(b@),
        0 < e <= b@.len(),
{
    let e = line_end(b, 0);
    assert(b@.skip(0) == b@);
    e
}

/// Project a contract **body** onto the bytes KISS-Conform may byte-compare:
/// the body verbatim, minus the Semantics `human_annotation` field line
/// (§6.0-0001, §6.4-0001). Only a line inside the Semantics block that begins
/// with the pinned `human_annotation = ` prefix is dropped; the same key in any
/// other block, and any value merely mentioning it, is kept.
pub fn exact_byte_scoped(body: &[u8]) -> (out: Vec<u8>)
    ensures
        out@ == scoped(body@, false),
{
    let heading = str_bytes("[section:2:semantics]\n");
    let blurb = str_bytes("human_annotation = ");
    let section = str_bytes("[section:");
    let mut out: Vec<u8> = Vec::new();
    let mut in_sem = false;
    let mut i: usize = 0;
    assert(body@.skip(0) == body@);
    while i < body.len()
        invariant
            i <= body@.len(),
            heading@ == semantics_heading(),
            blurb@ == blurb_prefix(),
            section@ == section_prefix(),
            out@ + scoped(body@.skip(i as int), in_sem) == scoped(body@, false),
        decreases body.len() - i,
    {
        let e = line_end(body, i);
        let line = copy_range(body, i, e);
        let ghost rest_s = body@.skip(i as int);
        proof {
            lemma_first_line_len(rest_s);
            assert(line@ == rest_s.take(e - i));
            assert(body@.skip(e as int) == rest_s.skip(e - i));
        }
        if has_prefix_at(line.as_slice(), 0, section.as_slice()) {
            in_sem = bytes_match(line.as_slice(), heading.as_slice());
            push_all(&mut out, line.as_slice());
            proof {
                assert(line@.subrange(0, section@.len() as int) == section@);
            }
        } else if in_sem && has_prefix_at(line.as_slice(), 0, blurb.as_slice()) {
            proof {
                assert(line@.subrange(0, blurb@.len() as int) == blurb@);
            }
        } else {
            push_all(&mut out, line.as_slice());
            proof {
                if line@.len() >= blurb@.len() {
                    assert(line@.subrange(0, blurb@.len() as int) == line@.subrange(0, blurb@.len() as int));
                }
            }
        }
        i = e;
    }
    assert(body@.skip(i as int).len() == 0);
    assert(out@ + Seq::<u8>::empty() == out@);
    out
}

/// Whether two byte slices are equal.
fn bytes_match(a: &[u8], b: &[u8]) -> (r: bool)
    ensures
        r == (a@ == b@),
{
    crate::text::bytes_eq(a, b)
}


// ---------------------------------------------------------------------------
// §6.1 — transport reader, hard-reject discipline (typed decline, never panic).
// ---------------------------------------------------------------------------

/// A typed decline from the contract transport reader (§6.1 hard-reject).
#[derive(Debug, Clone, PartialEq, Eq)]
pub enum ContractDecline {
    /// The document does not begin with the pinned magic `KISC` (§6.11-0002).
    NoMagic,
    /// The header line is absent (no LF) or does not match the pinned form
    /// (§6.11-0002) — includes a CR (CRLF is not the LF-only convention).
    MalformedHeader,
    /// The `contract_kind` is not the recognized token `kiss-contract` (§6.1-0007).
    UnknownKind { got: String },
    /// The `contract_version` is not `1` (§6.1-0008).
    UnknownVersion { got: String },
    /// The declared body length does not equal the actual body byte count
    /// (§6.11-0003).
    BadLength { declared: u64, actual: usize },
    /// The declared CRC-32 does not match the body's computed CRC-32 (§6.11-0003).
    BadChecksum { declared: u32, computed: u32 },
    /// The body does not begin with the first pinned section heading
    /// `[section:1:identity]` (§6.11-0004, §6.1-0002).
    Headingless,
    /// The Guarantees block has no `determinism_class` field (§6.8-0003).
    MissingGuaranteesClass,
    /// The `determinism_class` token is not a member of the canonical enum
    /// (§6.8-0003).
    UnknownDeterminismClass { got: String },
}

/// The content of a [`ContractDecline`].
pub enum DeclineView {
    NoMagic,
    MalformedHeader,
    UnknownKind { got: Seq<char> },
    UnknownVersion { got: Seq<char> },
    BadLength { declared: u64, actual: usize },
    BadChecksum { declared: u32, computed: u32 },
    Headingless,
    MissingGuaranteesClass,
    UnknownDeterminismClass { got: Seq<char> },
}

impl View for ContractDecline {
    type V = DeclineView;

    open spec fn view(&self) -> DeclineView {
        match self {
            ContractDecline::NoMagic => DeclineView::NoMagic,
            ContractDecline::MalformedHeader => DeclineView::MalformedHeader,
            ContractDecline::UnknownKind { got } => DeclineView::UnknownKind { got: got@ },
            ContractDecline::UnknownVersion { got } => DeclineView::UnknownVersion { got: got@ },
            ContractDecline::BadLength { declared, actual } => DeclineView::BadLength {
                declared: *declared,
                actual: *actual,
            },
            ContractDecline::BadChecksum { declared, computed } => DeclineView::BadChecksum {
                declared: *declared,
                computed: *computed,
            },
            ContractDecline::Headingless => DeclineView::Headingless,
            ContractDecline::MissingGuaranteesClass => DeclineView::MissingGuaranteesClass,
            ContractDecline::UnknownDeterminismClass { got } => {
                DeclineView::UnknownDeterminismClass { got: got@ }
            },
        }
    }
}

/// The stable wire spelling of a decline's category.
pub open spec fn wire_tag_of(d: DeclineView) -> Seq<char> {
    match d {
        DeclineView::NoMagic => "no-magic"@,
        DeclineView::MalformedHeader => "malformed-header"@,
        DeclineView::UnknownKind { .. } => "unknown-kind"@,
        DeclineView::UnknownVersion { .. } => "unknown-version"@,
        DeclineView::BadLength { .. } => "bad-length"@,
        DeclineView::BadChecksum { .. } => "bad-checksum"@,
        DeclineView::Headingless => "headingless"@,
        DeclineView::MissingGuaranteesClass => "missing-guarantees-class"@,
        DeclineView::UnknownDeterminismClass { .. } => "unknown-determinism-class"@,
    }
}

/// The category of a decline: its variant, payload aside.
pub open spec fn decline_category(d: DeclineView) -> nat {
    match d {
        DeclineView::NoMagic => 0,
        DeclineView::MalformedHeader => 1,
        DeclineView::UnknownKind { .. } => 2,
        DeclineView::UnknownVersion { .. } => 3,
        DeclineView::BadLength { .. } => 4,
        DeclineView::BadChecksum { .. } => 5,
        DeclineView::Headingless => 6,
        DeclineView::MissingGuaranteesClass => 7,
        DeclineView::UnknownDeterminismClass { .. } => 8,
    }
}

/// Each decline category has a wire tag of its own, whatever the payload:
/// two declines share a tag exactly when they are of one category.
pub proof fn wire_tags_distinct(a: DeclineView, b: DeclineView)
    ensures
        (wire_tag_of(a) == wire_tag_of(b)) <==> (decline_category(a) == decline_category(b)),
{
    reveal_strlit("no-magic");
    reveal_strlit("malformed-header");
    reveal_strlit("unknown-kind");
    reveal_strlit("unknown-version");
    reveal_strlit("bad-length");
    reveal_strlit("bad-checksum");
    reveal_strlit("headingless");
    reveal_strlit("missing-guarantees-class");
    reveal_strlit("unknown-determinism-class");
    if decline_category(a) != decline_category(b) {
        let ta = wire_tag_of(a);
        let tb = wire_tag_of(b);
        if ta == tb {
            assert(ta[0] == tb[0] && ta[8] == tb[8]);
        }
    }
}

impl ContractDecline {
    /// The STABLE wire spelling of this decline's CATEGORY — the token a foreign
    /// reader diffs against in `contract_vectors.json` (§6.5,
    /// KISS-CONTRACT-8-0005). The payload is intentionally omitted: the interop
    /// contract is the category.
    pub fn wire_tag(&self) -> (t: &'static str)
        ensures
            t@ == wire_tag_of(self@),
    {
        match self {
            ContractDecline::NoMagic => "no-magic",
            ContractDecline::MalformedHeader => "malformed-header",
            ContractDecline::UnknownKind { .. } => "unknown-kind",
            ContractDecline::UnknownVersion { .. } => "unknown-version",
            ContractDecline::BadLength { .. } => "bad-length",
            ContractDecline::BadChecksum { .. } => "bad-checksum",
            ContractDecline::Headingless => "headingless",
            ContractDecline::MissingGuaranteesClass => "missing-guarantees-class",
            ContractDecline::UnknownDeterminismClass { .. } => "unknown-determinism-class",
        }
    }
}

/// The header-line essentials a successful read yields (§6.11-0002/-0003).
#[derive(Debug, Clone, PartialEq, Eq)]
pub struct ContractHeader {
    pub contract_kind: String,
    pub contract_version: String,
    pub body_len: usize,
    pub crc32: u32,
}

/// The content of a [`ContractHeader`].
pub struct HeaderView {
    pub contract_kind: Seq<char>,
    pub contract_version: Seq<char>,
    pub body_len: usize,
    pub crc32: u32,
}

impl View for ContractHeader {
    type V = HeaderView;

    open spec fn view(&self) -> HeaderView {
        HeaderView {
            contract_kind: self.contract_kind@,
            contract_version: self.contract_version@,
            body_len: self.body_len,
            crc32: self.crc32,
        }
    }
}

/// The value of a run of hex digits, most significant first.
pub open spec fn hex_digits_value(s: Seq<char>) -> nat
    decreases s.len(),
{
    if s.len() == 0 {
        0
    } else {
        hex_digits_value(s.drop_last()) * 16 + hex_value(s.last())
    }
}

/// The `crc32=` field value: exactly 8 lowercase hex digits.
pub open spec fn crc_hex(s: Seq<char>) -> Option<u32> {
    if s.len() == 8 && forall|i: int| 0 <= i < 8 ==> is_lower_hex_char(#[trigger] s[i]) {
        Some(hex_digits_value(s) as u32)
    } else {
        None
    }
}

proof fn lemma_hex_digits_value_bound(s: Seq<char>)
    requires
        forall|i: int| 0 <= i < s.len() ==> is_lower_hex_char(#[trigger] s[i]),
    ensures
        hex_digits_value(s) < pow16(s.len()),
    decreases s.len(),
{
    if s.len() > 0 {
        lemma_hex_digits_value_bound(s.drop_last());
        assert(is_lower_hex_char(s[s.len() - 1]));
        assert(hex_value(s.last()) < 16);
        let a = hex_digits_value(s.drop_last());
        let p = pow16((s.len() - 1) as nat);
        assert(a * 16 + hex_value(s.last()) < p * 16) by (nonlinear_arith)
            requires
                a < p,
                hex_value(s.last()) < 16,
        ;
    }
}

/// `16^n`.
pub open spec fn pow16(n: nat) -> nat
    decreases n,
{
    if n == 0 {
        1
    } else {
        16 * pow16((n - 1) as nat)
    }
}

/// Parse exactly 8 lowercase-hex digits into a `u32` (the `crc32=` field form).
fn parse_crc_hex(s: &[char]) -> (r: Option<u32>)
    ensures
        r == crc_hex(s@),
{
    if s.len() != 8 {
        return None;
    }
    let mut acc: u32 = 0;
    let mut i: usize = 0;
    while i < 8
        invariant
            s@.len() == 8,
            i <= 8,
            forall|j: int| 0 <= j < i ==> is_lower_hex_char(#[trigger] s@[j]),
            acc as nat == hex_digits_value(s@.take(i as int)),
            hex_digits_value(s@.take(i as int)) < pow16(i as nat),
        decreases 8 - i,
    {
        let c = s[i];
        if !(('0' <= c && c <= '9') || ('a' <= c && c <= 'f')) {
            assert(!is_lower_hex_char(s@[i as int]));
            return None;
        }
        let d = hex_val(c);
        assert(s@.take(i + 1).drop_last() == s@.take(i as int));
        proof {
            lemma_hex_digits_value_bound(s@.take(i + 1));
            assert(pow16(8) == 0x1_0000_0000) by {
                reveal_with_fuel(pow16, 9);
            }
            assert(pow16((i + 1) as nat) <= pow16(8)) by {
                lemma_pow16_mono((i + 1) as nat, 8);
            }
        }
        acc = acc * 16 + d as u32;
        i += 1;
    }
    assert(s@.take(8) == s@);
    Some(acc)
}

proof fn lemma_pow16_mono(a: nat, b: nat)
    requires
        a <= b,
    ensures
        pow16(a) <= pow16(b),
    decreases b - a,
{
    if a < b {
        lemma_pow16_mono(a, (b - 1) as nat);
    }
}

/// The pinned magic `KISC`.
pub open spec fn magic() -> Seq<u8> {
    encode_utf8("KISC"@)
}

/// The first pinned section heading line.
pub open spec fn identity_heading() -> Seq<u8> {
    encode_utf8("[section:1:identity]\n"@)
}

/// The §6.1 hard-reject reading of a document: the first fault, in the order
/// magic, header line, kind, version, `len=`, `crc32=`, declared length,
/// checksum, first heading; otherwise the header essentials.
pub open spec fn read_spec(doc: Seq<u8>) -> Result<HeaderView, DeclineView> {
    if doc.len() < 4 || doc.take(4) != magic() {
        Err(DeclineView::NoMagic)
    } else {
        let n = first_line_len(doc);
        if doc[n - 1] != 10 {
            Err(DeclineView::MalformedHeader)
        } else {
            let header = doc.take(n - 1);
            let body = doc.skip(n);
            if header.contains(13u8) || !valid_utf8(header) {
                Err(DeclineView::MalformedHeader)
            } else {
                let parts = split_seq(decode_utf8(header), ' ');
                if parts.len() != 5 || parts[0] != "KISC"@ {
                    Err(DeclineView::MalformedHeader)
                } else if parts[1] != "kiss-contract"@ {
                    Err(DeclineView::UnknownKind { got: parts[1] })
                } else if parts[2] != "1"@ {
                    Err(DeclineView::UnknownVersion { got: parts[2] })
                } else if !starts_with(parts[3], "len="@) || parse_unsigned(
                    parts[3].skip(4),
                    u64::MAX as nat,
                ) is None {
                    Err(DeclineView::MalformedHeader)
                } else if !starts_with(parts[4], "crc32="@) || crc_hex(parts[4].skip(6)) is None {
                    Err(DeclineView::MalformedHeader)
                } else {
                    let declared = parse_unsigned(parts[3].skip(4), u64::MAX as nat)->0;
                    let crc = crc_hex(parts[4].skip(6))->0;
                    if declared != body.len() {
                        Err(
                            DeclineView::BadLength {
                                declared: declared as u64,
                                actual: body.len() as usize,
                            },
                        )
                    } else if crc32(body) != crc {
                        Err(DeclineView::BadChecksum { declared: crc, computed: crc32(body) })
                    } else if !starts_with(body, identity_heading()) {
                        Err(DeclineView::Headingless)
                    } else {
                        Ok(
                            HeaderView {
                                contract_kind: parts[1],
                                contract_version: parts[2],
                                body_len: body.len() as usize,
                                crc32: crc,
                            },
                        )
                    }
                }
            }
        }
    }
}

/// Whether `b` holds the byte `x`.
fn contains_byte(b: &[u8], x: u8) -> (r: bool)
    ensures
        r == b@.contains(x),
{
    let mut i: usize = 0;
    while i < b.len()
        invariant
            i <= b@.len(),
            forall|j: int| 0 <= j < i ==> b@[j] != x,
        decreases b.len() - i,
    {
        if b[i] == x {
            return true;
        }
        i += 1;
    }
    false
}

/// Read the transport framing of a contract document with the §6.1 hard-reject
/// discipline: validate magic, header line, kind, version, the self-declared
/// inner length, the CRC-32, and the first section heading — returning a typed
/// [`ContractDecline`] on any malformation (§6.1-0002/-0004). No allocation is
/// keyed on the declared length.
pub fn read_document(doc: &[u8]) -> (r: Result<ContractHeader, ContractDecline>)
    ensures
        match (r, read_spec(doc@)) {
            (Ok(h), Ok(v)) => h@ == v,
            (Err(d), Err(v)) => d@ == v,
            _ => false,
        },
{
    let m = str_bytes("KISC");
    proof {
        reveal_strlit("KISC");
    }
    if doc.len() < 4 || !has_prefix_at(doc, 0, m.as_slice()) {
        proof {
            if doc@.len() >= 4 {
                assert(m@.len() == 4) by {
                    vstd::utf8::is_ascii_chars_encode_utf8("KISC"@);
                }
                assert(doc@.subrange(0, 4) == doc@.take(4));
            }
        }
        return Err(ContractDecline::NoMagic);
    }
    proof {
        assert(m@.len() == 4) by {
            vstd::utf8::is_ascii_chars_encode_utf8("KISC"@);
        }
        assert(doc@.subrange(0, 4) == doc@.take(4));
    }
    let e = line_end(doc, 0);
    assert(doc@.skip(0) == doc@);
    if doc[e - 1] != 10 {
        return Err(ContractDecline::MalformedHeader);
    }
    let lf = e - 1;
    let header = copy_range(doc, 0, lf);
    assert(header@ == doc@.take(lf as int));
    if contains_byte(header.as_slice(), 13) {
        return Err(ContractDecline::MalformedHeader);
    }
    let text = match utf8_decode(header.as_slice()) {
        Some(t) => t,
        None => {
            return Err(ContractDecline::MalformedHeader);
        },
    };
    let cs = chars_of(text.as_str());
    let parts = split_chars(cs.as_slice(), ' ');
    let ghost ps = split_seq(decode_utf8(header@), ' ');
    assert(chars_vv(parts@) == ps);
    let kisc = chars_of("KISC");
    if parts.len() != 5 {
        return Err(ContractDecline::MalformedHeader);
    }
    assert(parts@[0]@ == ps[0]);
    assert(parts@[1]@ == ps[1]);
    assert(parts@[2]@ == ps[2]);
    assert(parts@[3]@ == ps[3]);
    assert(parts@[4]@ == ps[4]);
    if !chars_eq(parts[0].as_slice(), kisc.as_slice()) {
        return Err(ContractDecline::MalformedHeader);
    }
    let kind_lit = chars_of("kiss-contract");
    if !chars_eq(parts[1].as_slice(), kind_lit.as_slice()) {
        return Err(ContractDecline::UnknownKind { got: string_of(parts[1].as_slice()) });
    }
    let version_lit = chars_of("1");
    if !chars_eq(parts[2].as_slice(), version_lit.as_slice()) {
        return Err(ContractDecline::UnknownVersion { got: string_of(parts[2].as_slice()) });
    }
    let len_lit = chars_of("len=");
    proof {
        reveal_strlit("len=");
    }
    if !chars_start_with(parts[3].as_slice(), len_lit.as_slice()) {
        return Err(ContractDecline::MalformedHeader);
    }
    let len_digits = chars_skip(parts[3].as_slice(), 4);
    let declared_len = match parse_unsigned_chars(len_digits.as_slice(), u64::MAX) {
        Some(n) => n,
        None => {
            return Err(ContractDecline::MalformedHeader);
        },
    };
    let crc_lit = chars_of("crc32=");
    proof {
        reveal_strlit("crc32=");
    }
    if !chars_start_with(parts[4].as_slice(), crc_lit.as_slice()) {
        return Err(ContractDecline::MalformedHeader);
    }
    let crc_digits = chars_skip(parts[4].as_slice(), 6);
    let declared_crc = match parse_crc_hex(crc_digits.as_slice()) {
        Some(c) => c,
        None => {
            return Err(ContractDecline::MalformedHeader);
        },
    };
    let body = copy_range(doc, e, doc.len());
    assert(body@ == doc@.skip(e as int));
    if declared_len != body.len() as u64 {
        return Err(ContractDecline::BadLength { declared: declared_len, actual: body.len() });
    }
    let computed = crc32_ieee(body.as_slice());
    if computed != declared_crc {
        return Err(ContractDecline::BadChecksum { declared: declared_crc, computed });
    }
    let first = str_bytes("[section:1:identity]\n");
    if !has_prefix_at(body.as_slice(), 0, first.as_slice()) {
        return Err(ContractDecline::Headingless);
    }
    Ok(
        ContractHeader {
            contract_kind: string_of(parts[1].as_slice()),
            contract_version: string_of(parts[2].as_slice()),
            body_len: body.len(),
            crc32: declared_crc,
        },
    )
}


// ---------------------------------------------------------------------------
// §6.8-0003 — Guarantees `determinism_class` advertisement.
// ---------------------------------------------------------------------------

/// The canonical KISS-Ops §6.0-0001 class token, spelled verbatim.
pub open spec fn class_of_token(t: Seq<char>) -> Result<DeterminismClass, DeclineView> {
    if t == "exact-byte"@ {
        Ok(DeterminismClass::ExactByte)
    } else if t == "ULP/tolerance"@ {
        Ok(DeterminismClass::UlpTolerance)
    } else if t == "order-invariant/nondeterministic"@ {
        Ok(DeterminismClass::OrderInvariant)
    } else {
        Err(DeclineView::UnknownDeterminismClass { got: t })
    }
}

/// The Guarantees scan over the remaining lines: a full-line
/// `[section:6:guarantees]` opens the block, the next `[section:` line closes
/// it, and the first `determinism_class = <token>` line inside decides.
pub open spec fn guarantees_scan(ls: Seq<Seq<char>>, in_block: bool) -> Result<
    DeterminismClass,
    DeclineView,
>
    decreases ls.len(),
{
    if ls.len() == 0 {
        Err(DeclineView::MissingGuaranteesClass)
    } else {
        let line = ls[0];
        if line == "[section:6:guarantees]"@ {
            guarantees_scan(ls.drop_first(), true)
        } else if starts_with(line, "[section:"@) {
            if in_block {
                Err(DeclineView::MissingGuaranteesClass)
            } else {
                guarantees_scan(ls.drop_first(), false)
            }
        } else if in_block && starts_with(line, "determinism_class = "@) {
            class_of_token(line.skip(20))
        } else {
            guarantees_scan(ls.drop_first(), in_block)
        }
    }
}

/// The class a contract body advertises in its Guarantees block.
pub open spec fn guarantees_class(body: Seq<u8>) -> Result<DeterminismClass, DeclineView> {
    if !valid_utf8(body) {
        Err(DeclineView::MalformedHeader)
    } else {
        guarantees_scan(lines_of(decode_utf8(body)), false)
    }
}

fn class_token(t: &[char]) -> (r: Result<DeterminismClass, ContractDecline>)
    ensures
        match (r, class_of_token(t@)) {
            (Ok(c), Ok(d)) => c == d,
            (Err(e), Err(d)) => e@ == d,
            _ => false,
        },
{
    let a = chars_of("exact-byte");
    let b = chars_of("ULP/tolerance");
    let c = chars_of("order-invariant/nondeterministic");
    if chars_eq(t, a.as_slice()) {
        Ok(DeterminismClass::ExactByte)
    } else if chars_eq(t, b.as_slice()) {
        Ok(DeterminismClass::UlpTolerance)
    } else if chars_eq(t, c.as_slice()) {
        Ok(DeterminismClass::OrderInvariant)
    } else {
        Err(ContractDecline::UnknownDeterminismClass { got: string_of(t) })
    }
}

/// Read the Guarantees block's `determinism_class` from a contract `body`
/// (§6.8-0003): the `[section:6:guarantees]` heading is matched as a full line,
/// the block runs to the next `[section:` line, and a same-named field in any
/// other block is never seen. A body that is not UTF-8 declines as
/// `MalformedHeader`; an absent block or field, or an off-enum token, is a
/// typed decline.
pub fn parse_guarantees_class(body: &[u8]) -> (r: Result<DeterminismClass, ContractDecline>)
    ensures
        match (r, guarantees_class(body@)) {
            (Ok(c), Ok(d)) => c == d,
            (Err(e), Err(d)) => e@ == d,
            _ => false,
        },
{
    let text = match utf8_decode(body) {
        Some(t) => t,
        None => {
            return Err(ContractDecline::MalformedHeader);
        },
    };
    let cs = chars_of(text.as_str());
    let ls = lines(cs.as_slice());
    let ghost all = lines_of(decode_utf8(body@));
    assert(chars_vv(ls@) == all);
    let heading = chars_of("[section:6:guarantees]");
    let section = chars_of("[section:");
    let field = chars_of("determinism_class = ");
    proof {
        reveal_strlit("determinism_class = ");
    }
    let mut in_block = false;
    let mut i: usize = 0;
    assert(all.skip(0) == all);
    while i < ls.len()
        invariant
            i <= ls@.len(),
            chars_vv(ls@) == all,
            all == lines_of(decode_utf8(body@)),
            valid_utf8(body@),
            heading@ == "[section:6:guarantees]"@,
            section@ == "[section:"@,
            field@ == "determinism_class = "@,
            field@.len() == 20,
            guarantees_scan(all.skip(i as int), in_block) == guarantees_scan(all, false),
        decreases ls.len() - i,
    {
        let line = &ls[i];
        assert(all[i as int] == line@);
        assert(all.skip(i as int).drop_first() == all.skip(i + 1));
        assert(all.skip(i as int)[0] == line@);
        if chars_eq(line.as_slice(), heading.as_slice()) {
            in_block = true;
        } else if chars_start_with(line.as_slice(), section.as_slice()) {
            if in_block {
                assert(line@ != "[section:6:guarantees]"@);
                assert(starts_with(line@, "[section:"@));
                assert(guarantees_scan(all.skip(i as int), in_block) == Err::<DeterminismClass, DeclineView>(DeclineView::MissingGuaranteesClass));
                return Err(ContractDecline::MissingGuaranteesClass);
            }
        } else if in_block && chars_start_with(line.as_slice(), field.as_slice()) {
            let token = chars_skip(line.as_slice(), 20);
            return class_token(token.as_slice());
        }
        i += 1;
    }
    Err(ContractDecline::MissingGuaranteesClass)
}

// ---------------------------------------------------------------------------
// §6.8-0008/-0009/-0010 — the `audited_status` derivation.
// ---------------------------------------------------------------------------

/// A per-backend accuracy tier (§6.8-0002): a tagged quantity carrying at least
/// one of `{max_ulp, max_relative, max_absolute}` against a named reference.
/// The `correctly-rounded` and `bit-reproducible` precision classes are carried
/// as `max_ulp = 0` (§6.7-0007).
#[derive(Debug, Clone, Copy, PartialEq, Eq, Structural, Default)]
pub struct DeclaredAccuracyTier {
    pub max_ulp: Option<u32>,
    /// Bit pattern of the declared relative bound, if any (§6.11-0010 real form).
    pub max_relative: Option<Real>,
    /// Bit pattern of the declared absolute bound, if any.
    pub max_absolute: Option<Real>,
}

/// A tier declares a bound iff it carries at least one of the three quantities.
pub open spec fn tier_bounded(t: DeclaredAccuracyTier) -> bool {
    t.max_ulp is Some || t.max_relative is Some || t.max_absolute is Some
}

impl DeclaredAccuracyTier {
    /// A tier declares a bound iff it carries at least one of the three tagged
    /// quantities (§6.8-0002).
    pub fn is_bounded(&self) -> (r: bool)
        ensures
            r == tier_bounded(*self),
    {
        self.max_ulp.is_some() || self.max_relative.is_some() || self.max_absolute.is_some()
    }
}

/// The `audited_status` value set: the derivation is total over exactly these
/// two (§6.8-0010).
#[derive(Debug, Clone, Copy, PartialEq, Eq, Structural)]
pub enum AuditedStatus {
    Audited,
    Unaudited,
}

/// The Guarantees fields the derivation reads, plus `bit_stability`, which
/// §6.8-0009 forbids it to set.
#[derive(Debug, Clone)]
pub struct Guarantees {
    /// The named KISS-Ops function precision is measured against (§6.8-0002).
    /// `None`, or a name that is empty or whitespace, is "no reference named".
    pub reference_function: Option<String>,
    /// Per target backend, the declared accuracy tier (§6.8-0002).
    pub per_backend_ulp_tiers: Vec<(String, DeclaredAccuracyTier)>,
    pub determinism_class: DeterminismClass,
    /// Owned by §6.8-0005; read, never set, by the derivation.
    pub bit_stability: bool,
}

/// Whether the Guarantees declare a bounded precision against a named
/// reference function — the predicate §6.8-0009 and §6.8-0010 partition on.
pub open spec fn declares_bounded(g: Guarantees) -> bool {
    &&& g.reference_function matches Some(r) && !blank(r@)
    &&& exists|i: int|
        0 <= i < g.per_backend_ulp_tiers@.len() && tier_bounded(
            #[trigger] g.per_backend_ulp_tiers@[i].1,
        )
}

impl Guarantees {
    fn declares_bounded_precision(&self) -> (r: bool)
        ensures
            r == declares_bounded(*self),
    {
        let named = match &self.reference_function {
            Some(r) => !is_blank(r.as_str()),
            None => false,
        };
        if !named {
            return false;
        }
        let tiers = &self.per_backend_ulp_tiers;
        let mut i: usize = 0;
        while i < tiers.len()
            invariant
                i <= tiers@.len(),
                tiers@ == self.per_backend_ulp_tiers@,
                self.reference_function matches Some(r) && !blank(r@),
                forall|j: int| 0 <= j < i ==> !tier_bounded(#[trigger] tiers@[j].1),
            decreases tiers.len() - i,
        {
            if tiers[i].1.is_bounded() {
                assert(tier_bounded(self.per_backend_ulp_tiers@[i as int].1));
                return true;
            }
            i += 1;
        }
        false
    }
}

/// The derived `audited_status`.
pub open spec fn audited_status_of(g: Guarantees) -> AuditedStatus {
    if declares_bounded(g) {
        AuditedStatus::Audited
    } else {
        AuditedStatus::Unaudited
    }
}

/// The audited status reads only the named reference and the declared tiers:
/// it is `audited` exactly when a non-blank reference function is named and
/// some backend's tier carries a bound, so two Guarantees that differ only in
/// their determinism class or bit stability get the same status.
pub proof fn audited_status_reads_only_reference_and_tiers(g1: Guarantees, g2: Guarantees)
    ensures
        (audited_status_of(g1) == AuditedStatus::Audited) <==> (g1.reference_function matches Some(name)
            && !blank(name@) && exists|i: int|
            0 <= i < g1.per_backend_ulp_tiers@.len() && #[trigger] tier_bounded(g1.per_backend_ulp_tiers@[i].1)),
        (audited_status_of(g1) == AuditedStatus::Unaudited) <==> !(audited_status_of(g1) == AuditedStatus::Audited),
        g1.reference_function == g2.reference_function && g1.per_backend_ulp_tiers@ == g2.per_backend_ulp_tiers@
            ==> audited_status_of(g1) == audited_status_of(g2),
{
}

/// Derive `audited_status` from the Guarantees (§6.8-0008): `audited` when they
/// declare a bounded precision against a named `reference_function`
/// (§6.8-0009), `unaudited` when they do not (§6.8-0010). The determinism class
/// does not gate the result.
pub fn derive_audited_status(g: &Guarantees) -> (r: AuditedStatus)
    ensures
        r == audited_status_of(*g),
        (r == AuditedStatus::Audited) <==> (g.reference_function matches Some(name) && !blank(name@) && exists|i: int|
            0 <= i < g.per_backend_ulp_tiers@.len() && #[trigger] tier_bounded(g.per_backend_ulp_tiers@[i].1)),
        (r == AuditedStatus::Unaudited) <==> !(r == AuditedStatus::Audited),
{
    proof {
        audited_status_reads_only_reference_and_tiers(*g, *g);
    }
    if g.declares_bounded_precision() {
        AuditedStatus::Audited
    } else {
        AuditedStatus::Unaudited
    }
}

/// A declared `audited_status` that disagrees with the derived value.
#[derive(Debug, Clone, Copy, PartialEq, Eq, Structural)]
pub struct AuditedStatusMismatch {
    pub declared: AuditedStatus,
    pub derived: AuditedStatus,
}

/// The KISS-Conform check (§6.13-0021): a contract's declared `audited_status`
/// must equal the value derived from its own Guarantees.
pub fn verify_audited_status(declared: AuditedStatus, g: &Guarantees) -> (r: Result<
    (),
    AuditedStatusMismatch,
>)
    ensures
        r is Ok <==> declared == audited_status_of(*g),
        r matches Err(m) ==> m == (AuditedStatusMismatch {
            declared,
            derived: audited_status_of(*g),
        }),
{
    let derived = derive_audited_status(g);
    if declared == derived {
        Ok(())
    } else {
        Err(AuditedStatusMismatch { declared, derived })
    }
}


// ---------------------------------------------------------------------------
// §6.11-0007 — op_dag serialization in KISS-Grammar canonical node order.
// ---------------------------------------------------------------------------

/// A Semantics op node as a tree, for the canonical serializer. `op_attrs` is
/// the per-node `key=value` OpAttrs list (empty when the op carries none).
#[derive(Debug)]
pub struct OpTree {
    pub op_name: String,
    pub op_attrs: Vec<(String, String)>,
    pub children: Vec<OpTree>,
}

impl OpTree {
    /// A leaf op node with no attrs (e.g. the §2.5 `add` primitive).
    pub fn leaf(op_name: &str) -> (t: OpTree)
        ensures
            t.op_name@ == op_name@,
            t.op_attrs@.len() == 0,
            t.children@.len() == 0,
    {
        OpTree { op_name: string_from(op_name), op_attrs: Vec::new(), children: Vec::new() }
    }
}

/// The `key=value` spellings of an attribute list, in order.
pub open spec fn attr_items(a: Seq<(String, String)>) -> Seq<Seq<char>> {
    Seq::new(a.len(), |i: int| a[i].0@ + "="@ + a[i].1@)
}

/// The decimal spellings of child indices, in order.
pub open spec fn edge_items(e: Seq<nat>) -> Seq<Seq<char>> {
    Seq::new(e.len(), |i: int| dec_chars(e[i]))
}

/// One serialized node: `Op{<name>; <k=v, ...>; [<edges>]}`.
pub open spec fn op_entry(name: Seq<char>, attrs: Seq<(String, String)>, edges: Seq<nat>) -> Seq<
    char,
> {
    "Op{"@ + name + "; "@ + join(attr_items(attrs), ", "@) + "; ["@ + join(edge_items(edges), ", "@)
        + "]}"@
}

/// The nodes of `t` in post-order, numbered from `base`: every child before its
/// parent, so each node's edges point at strictly earlier indices and the root
/// comes last.
pub open spec fn flat_tree(t: OpTree, base: nat) -> Seq<Seq<char>>
    decreases t, 0nat,
{
    let f = flat_forest(t.children@, base);
    f.0.push(op_entry(t.op_name@, t.op_attrs@, f.1))
}

/// The post-order nodes of a list of subtrees numbered from `base`, and the
/// index of each subtree's root.
pub open spec fn flat_forest(cs: Seq<OpTree>, base: nat) -> (Seq<Seq<char>>, Seq<nat>)
    decreases cs, cs.len(),
{
    if cs.len() == 0 {
        (seq![], seq![])
    } else {
        let f = flat_forest(cs.subrange(0, cs.len() - 1), base);
        let sub = flat_tree(cs[cs.len() - 1], base + f.0.len());
        (f.0 + sub, f.1.push((base + f.0.len() + sub.len() - 1) as nat))
    }
}


/// The edge indices as naturals.
pub open spec fn edges_nat(e: Seq<usize>) -> Seq<nat> {
    Seq::new(e.len(), |i: int| e[i] as nat)
}

fn push_attrs(s: &mut String, attrs: &[(String, String)])
    ensures
        final(s)@ == old(s)@ + join(attr_items(attrs@), ", "@),
{
    let ghost s0 = s@;
    let ghost items = attr_items(attrs@);
    let mut i: usize = 0;
    while i < attrs.len()
        invariant
            i <= attrs@.len(),
            items == attr_items(attrs@),
            s@ == s0 + join(items.take(i as int), ", "@),
        decreases attrs.len() - i,
    {
        proof {
            lemma_join_push(items.take(i as int), items[i as int], ", "@);
            assert(items.take(i + 1) == items.take(i as int).push(items[i as int]));
        }
        if i > 0 {
            push_str(s, ", ");
        }
        let (k, v) = &attrs[i];
        push_str(s, k.as_str());
        push_str(s, "=");
        push_str(s, v.as_str());
        i += 1;
    }
    assert(items.take(attrs@.len() as int) == items);
}

fn push_edges(s: &mut String, edges: &[usize])
    ensures
        final(s)@ == old(s)@ + join(edge_items(edges_nat(edges@)), ", "@),
{
    let ghost s0 = s@;
    let ghost items = edge_items(edges_nat(edges@));
    let mut i: usize = 0;
    while i < edges.len()
        invariant
            i <= edges@.len(),
            items == edge_items(edges_nat(edges@)),
            s@ == s0 + join(items.take(i as int), ", "@),
        decreases edges.len() - i,
    {
        proof {
            lemma_join_push(items.take(i as int), items[i as int], ", "@);
            assert(items.take(i + 1) == items.take(i as int).push(items[i as int]));
        }
        if i > 0 {
            push_str(s, ", ");
        }
        push_dec(s, edges[i] as u64);
        i += 1;
    }
    assert(items.take(edges@.len() as int) == items);
}


fn visit(node: &OpTree, flat: &mut Vec<String>) -> (idx: usize)
    ensures
        strings_view(final(flat)@) == strings_view(old(flat)@) + flat_tree(*node, old(flat)@.len()),
        idx == old(flat)@.len() + flat_tree(*node, old(flat)@.len()).len() - 1,
    decreases node,
{
    let ghost base = flat@.len();
    let ghost f0 = strings_view(flat@);
    let mut edges: Vec<usize> = Vec::new();
    let mut i: usize = 0;
    while i < node.children.len()
        invariant
            i <= node.children@.len(),
            base == old(flat)@.len(),
            f0 == strings_view(old(flat)@),
            strings_view(flat@) == f0 + flat_forest(node.children@.take(i as int), base as nat).0,
            flat@.len() == base + flat_forest(node.children@.take(i as int), base as nat).0.len(),
            edges_nat(edges@) == flat_forest(node.children@.take(i as int), base as nat).1,
        decreases node.children@.len() - i,
    {
        let ghost pre = flat_forest(node.children@.take(i as int), base as nat);
        let ghost fl = flat@;
        let c = &node.children[i];
        let e = visit(c, flat);
        edges.push(e);
        proof {
            let t = node.children@.take(i + 1);
            assert(t.subrange(0, t.len() - 1) == node.children@.take(i as int));
            assert(t[t.len() - 1] == *c);
            assert(strings_view(flat@) =~= f0 + flat_forest(t, base as nat).0);
            assert(edges_nat(edges@) =~= flat_forest(t, base as nat).1);
        }
        i += 1;
    }
    assert(node.children@.take(i as int) == node.children@);
    let mut s = String::new();
    push_str(&mut s, "Op{");
    push_str(&mut s, node.op_name.as_str());
    push_str(&mut s, "; ");
    push_attrs(&mut s, node.op_attrs.as_slice());
    push_str(&mut s, "; [");
    push_edges(&mut s, edges.as_slice());
    push_str(&mut s, "]}");
    let idx = flat.len();
    let ghost fl = flat@;
    flat.push(s);
    proof {
        assert(strings_view(flat@) =~= strings_view(fl).push(s@));
    }
    idx
}

/// The §6.11-0007 op_dag array of a tree: its post-order nodes, comma-joined in
/// brackets.
pub open spec fn op_dag_chars(root: OpTree) -> Seq<char> {
    "["@ + join(flat_tree(root, 0), ", "@) + "]"@
}

/// Serialize an op DAG as the §6.11-0007 array of nodes in KISS-Grammar
/// canonical node order: a post-order walk that numbers each node only after
/// its children, so every child index is strictly earlier than its parent's and
/// the root appears last.
pub fn serialize_op_dag(root: &OpTree) -> (s: String)
    ensures
        s@ == op_dag_chars(*root),
{
    let mut flat: Vec<String> = Vec::new();
    let _root_idx = visit(root, &mut flat);
    assert(strings_view(flat@) =~= flat_tree(*root, 0));
    let mut s = String::new();
    push_str(&mut s, "[");
    push_join(&mut s, flat.as_slice(), ", ");
    push_str(&mut s, "]");
    s
}


// ---------------------------------------------------------------------------
// The well-formed control and the Appendix C golden document.
// ---------------------------------------------------------------------------

/// The fields of the positive control's Identity block.
pub open spec fn control_fields() -> Seq<(Seq<char>, ValueView)> {
    seq![
        ("contract_kind"@, ValueView::Str("kiss-contract"@)),
        ("contract_version"@, ValueView::Str("1"@)),
    ]
}

/// The body of the positive control: one well-formed Identity block.
pub open spec fn control_body() -> Seq<u8> {
    encode_utf8(block_chars(1, "identity"@, control_fields()))
}

/// The body of the positive control: one well-formed Identity block.
fn well_formed_body() -> (b: Vec<u8>)
    ensures
        b@ == control_body(),
        0 < b@.len() <= 4096,
{
    let fields = vec![
        ("contract_kind", Value::Str(string_from("kiss-contract"))),
        ("contract_version", Value::Str(string_from("1"))),
    ];
    proof {
        reveal_strlit("kiss-contract");
        reveal_strlit("1");
        assert(!"kiss-contract"@.contains('\n'));
        assert(!"1"@.contains('\n'));
        assert(fields_view(fields@) =~= control_fields());
    }
    let b = render_block(1, "identity", fields.as_slice());
    proof {
        let bc = block_chars(1, "identity"@, control_fields());
        lemma_encode_utf8_len(bc);
        reveal_strlit("[section:");
        reveal_strlit(":");
        reveal_strlit("identity");
        reveal_strlit("]\n");
        reveal_strlit("contract_kind");
        reveal_strlit("contract_version");
        reveal_strlit(" = ");
        reveal_strlit("\n");
        reveal_strlit("kiss-contract");
        reveal_strlit("1");
        let f = control_fields();
        assert(f.drop_last().last() == f[0]);
        assert(field_lines_chars(f.drop_last().drop_last()).len() == 0);
        assert(value_chars(f[0].1) == "kiss-contract"@);
        assert(field_line_chars(f[0].0, f[0].1).len() == 30);
        assert(value_chars(f[1].1) == "1"@);
        assert(field_line_chars(f[1].0, f[1].1).len() == 21);
        assert(f.drop_last().drop_last() =~= Seq::<(Seq<char>, ValueView)>::empty());
        assert(field_lines_chars(f.drop_last()).len() < 100);
        assert(field_lines_chars(f).len() < 200);
        assert(bc.len() < 1000);
    }
    b
}

/// A well-formed minimal contract document — the positive control the
/// negative vectors are corruptions of; it must read cleanly.
pub fn well_formed_document() -> (d: Vec<u8>)
    ensures
        d@ == document_bytes("kiss-contract"@, "1"@, control_body()),
{
    let body = well_formed_body();
    Document {
        contract_kind: string_from("kiss-contract"),
        contract_version: string_from("1"),
        body,
    }.encode()
}

/// Appendix C Identity block (heading id 1) as transcribed text
/// (§6.11-0004/-0005; fields in §6.3-0001 order; `revision_hash` as `<n>:<hex>`).
pub const APPENDIX_C_IDENTITY_GOLDEN: &'static str = "[section:1:identity]\ncontract_kind = kiss-contract\ncontract_version = 1\nkernel_name = add_f32_strided_sm89\nrevision_hash = 4:deadbeef\naccept_predicate = bin/f32,f32,f32/strided/cuda:sm89\nop_identity = add\ntarget_capability = cuda:sm89\n";

/// Appendix C Semantics block (heading id 2) as transcribed text: a one-node
/// `machine-checkable-IR` DAG whose `op_dag` is `[Op{add; ; []}]`.
pub const APPENDIX_C_SEMANTICS_GOLDEN: &'static str = "[section:2:semantics]\nsemantics_kind = machine-checkable-IR\nop_dag = [Op{add; ; []}]\n";

/// The Appendix C Identity fields, in §6.3-0001 order.
pub open spec fn appendix_c_identity_fields() -> Seq<(Seq<char>, ValueView)> {
    seq![
        ("contract_kind"@, ValueView::Str("kiss-contract"@)),
        ("contract_version"@, ValueView::Str("1"@)),
        ("kernel_name"@, ValueView::Str("add_f32_strided_sm89"@)),
        ("revision_hash"@, ValueView::Blob(seq![0xdeu8, 0xadu8, 0xbeu8, 0xefu8])),
        ("accept_predicate"@, ValueView::Str("bin/f32,f32,f32/strided/cuda:sm89"@)),
        ("op_identity"@, ValueView::Str("add"@)),
        ("target_capability"@, ValueView::Str("cuda:sm89"@)),
    ]
}

/// The Appendix C Identity block, rendered from field data in §6.3-0001 order.
pub fn appendix_c_identity_block() -> (b: Vec<u8>)
    ensures
        b@ == encode_utf8(block_chars(1, "identity"@, appendix_c_identity_fields())),
{
    let fields = vec![
        ("contract_kind", Value::Str(string_from("kiss-contract"))),
        ("contract_version", Value::Str(string_from("1"))),
        ("kernel_name", Value::Str(string_from("add_f32_strided_sm89"))),
        ("revision_hash", Value::Blob(vec![0xdeu8, 0xadu8, 0xbeu8, 0xefu8])),
        ("accept_predicate", Value::Str(string_from("bin/f32,f32,f32/strided/cuda:sm89"))),
        ("op_identity", Value::Str(string_from("add"))),
        ("target_capability", Value::Str(string_from("cuda:sm89"))),
    ];
    proof {
        reveal_strlit("kiss-contract");
        reveal_strlit("1");
        reveal_strlit("add_f32_strided_sm89");
        reveal_strlit("bin/f32,f32,f32/strided/cuda:sm89");
        reveal_strlit("add");
        reveal_strlit("cuda:sm89");
        assert(!"kiss-contract"@.contains('\n'));
        assert(!"1"@.contains('\n'));
        assert(!"add_f32_strided_sm89"@.contains('\n'));
        assert(!"bin/f32,f32,f32/strided/cuda:sm89"@.contains('\n'));
        assert(!"add"@.contains('\n'));
        assert(!"cuda:sm89"@.contains('\n'));
        assert(fields_view(fields@) =~= appendix_c_identity_fields());
    }
    render_block(1, "identity", fields.as_slice())
}

/// The Appendix C Semantics fields: the one-node `add` DAG.
pub open spec fn appendix_c_semantics_fields() -> Seq<(Seq<char>, ValueView)> {
    seq![
        ("semantics_kind"@, ValueView::Str("machine-checkable-IR"@)),
        ("op_dag"@, ValueView::Str("[Op{add; ; []}]"@)),
    ]
}

/// The Appendix C Semantics block (heading id 2); `op_dag` rendered by the
/// canonical serializer from the leaf `add`.
pub fn appendix_c_semantics_block() -> (b: Vec<u8>)
    ensures
        b@ == encode_utf8(block_chars(2, "semantics"@, appendix_c_semantics_fields())),
{
    let leaf = OpTree::leaf("add");
    let dag = serialize_op_dag(&leaf);
    proof {
        reveal_strlit("machine-checkable-IR");
        assert(!"machine-checkable-IR"@.contains('\n'));
        lemma_leaf_dag(leaf);
        reveal_strlit("Op{");
        reveal_strlit("; ");
        reveal_strlit("; [");
        reveal_strlit("]}");
        reveal_strlit("[");
        reveal_strlit("]");
        reveal_strlit("add");
        reveal_strlit("[Op{add; ; []}]");
        assert(dag@ =~= "[Op{add; ; []}]"@);
        assert(!dag@.contains('\n'));
    }
    let fields = vec![
        ("semantics_kind", Value::Str(string_from("machine-checkable-IR"))),
        ("op_dag", Value::Str(dag)),
    ];
    assert(fields_view(fields@) =~= appendix_c_semantics_fields());
    render_block(2, "semantics", fields.as_slice())
}

/// The op DAG of a lone node with no attrs is `[Op{<name>; ; []}]`.
pub proof fn lemma_leaf_dag(t: OpTree)
    requires
        t.op_attrs@.len() == 0,
        t.children@.len() == 0,
    ensures
        op_dag_chars(t) == "["@ + ("Op{"@ + t.op_name@ + "; "@ + "; ["@ + "]}"@) + "]"@,
{
    assert(attr_items(t.op_attrs@) =~= Seq::<Seq<char>>::empty());
    assert(flat_forest(t.children@, 0).1 =~= Seq::<nat>::empty());
    assert(edge_items(flat_forest(t.children@, 0).1) =~= Seq::<Seq<char>>::empty());
    let e = op_entry(t.op_name@, t.op_attrs@, flat_forest(t.children@, 0).1);
    assert(flat_tree(t, 0) =~= seq![e]);
    assert(e =~= "Op{"@ + t.op_name@ + "; "@ + "; ["@ + "]}"@);
}

/// The Appendix C body bytes: the Identity block, then the Semantics block.
pub open spec fn appendix_c_body_bytes() -> Seq<u8> {
    encode_utf8(block_chars(1, "identity"@, appendix_c_identity_fields())) + encode_utf8(
        block_chars(2, "semantics"@, appendix_c_semantics_fields()),
    )
}

/// The Appendix C document body: the Identity block, then the Semantics block.
pub fn appendix_c_body() -> (b: Vec<u8>)
    ensures
        b@ == appendix_c_body_bytes(),
{
    let mut body = appendix_c_identity_block();
    let sem = appendix_c_semantics_block();
    push_all(&mut body, sem.as_slice());
    body
}

/// The Appendix C golden document: header line + the two shown blocks, `len`
/// and `crc32` made self-consistent by [`Document::encode`].
pub fn appendix_c_golden_document() -> (d: Vec<u8>)
    ensures
        d@ == document_bytes("kiss-contract"@, "1"@, appendix_c_body_bytes()),
{
    let body = appendix_c_body();
    Document {
        contract_kind: string_from("kiss-contract"),
        contract_version: string_from("1"),
        body,
    }.encode()
}


// ---------------------------------------------------------------------------
// §6.2-0005 / §6.1-0004 — the malformed-contract negative vector set.
// ---------------------------------------------------------------------------

/// One negative vector: a document malformed in exactly one way, paired with
/// the exact typed decline a reader must return for it.
pub struct NegativeVector {
    /// What is wrong with this document.
    pub name: &'static str,
    /// The malformed bytes, as they would arrive over the transport.
    pub doc: Vec<u8>,
    /// The one decline a conforming reader must return.
    pub expect: ContractDecline,
}

/// The content of a [`NegativeVector`].
pub struct VectorView {
    pub name: Seq<char>,
    pub doc: Seq<u8>,
    pub expect: DeclineView,
}

impl View for NegativeVector {
    type V = VectorView;

    open spec fn view(&self) -> VectorView {
        VectorView { name: self.name@, doc: self.doc@, expect: self.expect@ }
    }
}

/// The control's `len=<N>` header field.
pub open spec fn len_field() -> Seq<char> {
    "len="@ + dec_chars(control_body().len())
}

/// The control's `crc32=<HHHHHHHH>` header field.
pub open spec fn crc_field() -> Seq<char> {
    "crc32="@ + hex_fixed_lower(crc32(control_body()) as nat, 8)
}

/// A header line (without its LF), its LF, then the control body.
pub open spec fn with_header(h: Seq<char>) -> Seq<u8> {
    encode_utf8(h).push(10u8) + control_body()
}

/// The control body with its first byte's `0x20` bit flipped.
pub open spec fn flipped_body() -> Seq<u8> {
    control_body().update(0, control_body()[0] ^ 0x20u8)
}

/// The thirteen single-fault corruptions of the control, each with its decline.
pub open spec fn negative_vectors() -> Seq<VectorView> {
    let k = "KISC kiss-contract 1 "@;
    seq![
        VectorView {
            name: "magic replaced"@,
            doc: with_header("XXXX kiss-contract 1 "@ + len_field() + " "@ + crc_field()),
            expect: DeclineView::NoMagic,
        },
        VectorView {
            name: "input shorter than the magic"@,
            doc: encode_utf8("KIS"@),
            expect: DeclineView::NoMagic,
        },
        VectorView {
            name: "header line never terminated (no LF anywhere)"@,
            doc: encode_utf8(k + len_field() + " "@ + crc_field()),
            expect: DeclineView::MalformedHeader,
        },
        VectorView {
            name: "CRLF header (LF-only is pinned)"@,
            doc: with_header(k + len_field() + " "@ + crc_field() + "\r"@),
            expect: DeclineView::MalformedHeader,
        },
        VectorView {
            name: "header field dropped"@,
            doc: with_header(k + len_field()),
            expect: DeclineView::MalformedHeader,
        },
        VectorView {
            name: "len= is not decimal"@,
            doc: with_header(k + "len=abc "@ + crc_field()),
            expect: DeclineView::MalformedHeader,
        },
        VectorView {
            name: "crc32= is uppercase hex"@,
            doc: with_header(k + len_field() + " crc32=DEADBEEF"@),
            expect: DeclineView::MalformedHeader,
        },
        VectorView {
            name: "unrecognized contract_kind"@,
            doc: with_header("KISC kiss-kontract 1 "@ + len_field() + " "@ + crc_field()),
            expect: DeclineView::UnknownKind { got: "kiss-kontract"@ },
        },
        VectorView {
            name: "unsupported contract_version"@,
            doc: with_header("KISC kiss-contract 2 "@ + len_field() + " "@ + crc_field()),
            expect: DeclineView::UnknownVersion { got: "2"@ },
        },
        VectorView {
            name: "declared length overstates the body"@,
            doc: with_header(
                k + "len="@ + dec_chars(control_body().len() + 1) + " "@ + crc_field(),
            ),
            expect: DeclineView::BadLength {
                declared: (control_body().len() + 1) as u64,
                actual: control_body().len() as usize,
            },
        },
        VectorView {
            name: "declared length is hostile (u64 near-max)"@,
            doc: with_header(k + "len=18446744073709551615 "@ + crc_field()),
            expect: DeclineView::BadLength {
                declared: u64::MAX,
                actual: control_body().len() as usize,
            },
        },
        VectorView {
            name: "body byte flipped, declared length still correct"@,
            doc: encode_utf8(k + len_field() + " "@ + crc_field()).push(10u8) + flipped_body(),
            expect: DeclineView::BadChecksum {
                declared: crc32(control_body()),
                computed: crc32(flipped_body()),
            },
        },
        VectorView {
            name: "headingless body (framing valid, no first section heading)"@,
            doc: document_bytes(
                "kiss-contract"@,
                "1"@,
                encode_utf8("contract_kind = kiss-contract\n"@),
            ),
            expect: DeclineView::Headingless,
        },
    ]
}

/// The views of a list of vectors.
pub open spec fn vectors_view(v: Seq<NegativeVector>) -> Seq<VectorView> {
    Seq::new(v.len(), |i: int| v[i]@)
}

fn header_doc(h: &String, body: &[u8]) -> (d: Vec<u8>)
    ensures
        d@ == encode_utf8(h@).push(10u8) + body@,
{
    let mut d = string_bytes(h);
    d.push(10u8);
    push_all(&mut d, body);
    d
}

fn cat3(a: &str, b: &str, c: &str) -> (s: String)
    ensures
        s@ == a@ + b@ + c@,
{
    let mut s = String::new();
    push_str(&mut s, a);
    push_str(&mut s, b);
    push_str(&mut s, c);
    s
}

/// The KISS-Conform negative/decline vector set for malformed contracts
/// (§6.13-0023): each entry corrupts [`well_formed_document`] in exactly one
/// way and pins the exact typed decline the §6.1 reader must return. The
/// control's header fields are constructed, not re-parsed out of its header.
pub fn malformed_contract_vectors() -> (out: Vec<NegativeVector>)
    ensures
        vectors_view(out@) == negative_vectors(),
{
    let owned_body = well_formed_body();
    let body = owned_body.as_slice();
    let n = body.len();
    let crc = crc32_ieee(body);
    let mut len_f = String::new();
    push_str(&mut len_f, "len=");
    push_dec(&mut len_f, n as u64);
    let mut crc_f = String::new();
    push_str(&mut crc_f, "crc32=");
    push_hex_fixed_lower(&mut crc_f, crc as u64, 8);
    let ghost k = "KISC kiss-contract 1 "@;
    let header = cat3("KISC kiss-contract 1 ", len_f.as_str(), " ");
    let mut header = header;
    push_str(&mut header, crc_f.as_str());
    assert(header@ == k + len_field() + " "@ + crc_field());
    let mut out: Vec<NegativeVector> = Vec::new();

    let mut h1 = cat3("XXXX kiss-contract 1 ", len_f.as_str(), " ");
    push_str(&mut h1, crc_f.as_str());
    out.push(NegativeVector { name: "magic replaced", doc: header_doc(&h1, body), expect: ContractDecline::NoMagic });

    out.push(NegativeVector { name: "input shorter than the magic", doc: str_bytes("KIS"), expect: ContractDecline::NoMagic });

    out.push(NegativeVector {
        name: "header line never terminated (no LF anywhere)",
        doc: string_bytes(&header),
        expect: ContractDecline::MalformedHeader,
    });

    let h4 = cat3(header.as_str(), "\r", "");
    out.push(NegativeVector { name: "CRLF header (LF-only is pinned)", doc: header_doc(&h4, body), expect: ContractDecline::MalformedHeader });

    let h5 = cat3("KISC kiss-contract 1 ", len_f.as_str(), "");
    out.push(NegativeVector { name: "header field dropped", doc: header_doc(&h5, body), expect: ContractDecline::MalformedHeader });

    let h6 = cat3("KISC kiss-contract 1 ", "len=abc ", crc_f.as_str());
    out.push(NegativeVector { name: "len= is not decimal", doc: header_doc(&h6, body), expect: ContractDecline::MalformedHeader });

    let h7 = cat3("KISC kiss-contract 1 ", len_f.as_str(), " crc32=DEADBEEF");
    out.push(NegativeVector { name: "crc32= is uppercase hex", doc: header_doc(&h7, body), expect: ContractDecline::MalformedHeader });

    let mut h8 = cat3("KISC kiss-kontract 1 ", len_f.as_str(), " ");
    push_str(&mut h8, crc_f.as_str());
    out.push(NegativeVector {
        name: "unrecognized contract_kind",
        doc: header_doc(&h8, body),
        expect: ContractDecline::UnknownKind { got: string_from("kiss-kontract") },
    });

    let mut h9 = cat3("KISC kiss-contract 2 ", len_f.as_str(), " ");
    push_str(&mut h9, crc_f.as_str());
    out.push(NegativeVector {
        name: "unsupported contract_version",
        doc: header_doc(&h9, body),
        expect: ContractDecline::UnknownVersion { got: string_from("2") },
    });

    let over: u64 = n as u64 + 1;
    let mut h10 = cat3("KISC kiss-contract 1 ", "len=", "");
    push_dec(&mut h10, over);
    push_str(&mut h10, " ");
    push_str(&mut h10, crc_f.as_str());
    out.push(NegativeVector {
        name: "declared length overstates the body",
        doc: header_doc(&h10, body),
        expect: ContractDecline::BadLength { declared: over, actual: n },
    });

    let h11 = cat3("KISC kiss-contract 1 ", "len=18446744073709551615 ", crc_f.as_str());
    out.push(NegativeVector {
        name: "declared length is hostile (u64 near-max)",
        doc: header_doc(&h11, body),
        expect: ContractDecline::BadLength { declared: u64::MAX, actual: n },
    });

    let mut flipped_b = copy_range(body, 0, n);
    let b0 = flipped_b[0] ^ 0x20u8;
    flipped_b.set(0, b0);
    let computed = crc32_ieee(flipped_b.as_slice());
    out.push(NegativeVector {
        name: "body byte flipped, declared length still correct",
        doc: header_doc(&header, flipped_b.as_slice()),
        expect: ContractDecline::BadChecksum { declared: crc, computed },
    });

    let headless = str_bytes("contract_kind = kiss-contract\n");
    let hd = Document {
        contract_kind: string_from("kiss-contract"),
        contract_version: string_from("1"),
        body: headless,
    }.encode();
    out.push(NegativeVector {
        name: "headingless body (framing valid, no first section heading)",
        doc: hd,
        expect: ContractDecline::Headingless,
    });
    proof {
        reveal_strlit("");
        assert(flipped_b@ =~= flipped_body());
        assert(h1@ =~= "XXXX kiss-contract 1 "@ + len_field() + " "@ + crc_field());
        assert(h4@ =~= k + len_field() + " "@ + crc_field() + "\r"@);
        assert(h5@ =~= k + len_field());
        assert(h6@ =~= k + "len=abc "@ + crc_field());
        assert(h7@ =~= k + len_field() + " crc32=DEADBEEF"@);
        assert(h8@ =~= "KISC kiss-kontract 1 "@ + len_field() + " "@ + crc_field());
        assert(h9@ =~= "KISC kiss-contract 2 "@ + len_field() + " "@ + crc_field());
        assert(h10@ =~= k + "len="@ + dec_chars(control_body().len() + 1) + " "@ + crc_field());
        assert(h11@ =~= k + "len=18446744073709551615 "@ + crc_field());
        assert(vectors_view(out@) =~= negative_vectors());
    }
    out
}


// ---------------------------------------------------------------------------
// The machine-readable contract vector artifact.
// ---------------------------------------------------------------------------

/// The fixed opening of the contract vector artifact, through the golden
/// document's block counts.
pub const CONTRACT_JSON_HEAD: &'static str = "{\n  \"schema\": \"kiss-contract-vectors-v1.json\",\n  \"generated_from\": \"conformance/src/contract.rs::emit_contract_vectors_json (the reference codec)\",\n  \"spec_reference\": \"spec/contract.md Appendix C (informative) — the \u{00a7}2.5 strided add golden document under the \u{00a7}6.11 structured/text framing\",\n  \"scope_note\": \"DIFFABLE, not COVERED: a foreign reader byte-diffs the golden document and each single-fault decline; this does NOT cover the untested KISS-Contract clauses.\",\n  \"partial_note_16d\": \"Enforcement is PARTIAL and STATED here, not left to be discovered, on two axes. (i) Appendix C shows 3 of 7 blocks (header line + Identity + Semantics); these are rendered here, codec-generated. (ii) Blocks 4-7 have NO builder anywhere and Appendix C does not show them, yet Appendix C's own preamble promises 'the complete document (all seven blocks)' in the machine-readable golden-vector file. This artifact therefore only PARTIALLY fulfils that reference. Which way to close the gap (amend the preamble to match what exists, or author blocks 4-7) is a NORMATIVE decision, filed as its own issue.\",\n  \"expect_encoding\": \"each decline_vectors[].expect is the decline's STABLE category tag (kebab-case), pinned per variant by ContractDecline::wire_tag — NOT a Rust Debug string. A foreign reader matches the category; the impl-derived payload (declared/computed/got) is intentionally omitted.\",\n  \"golden_document\": {\n    \"blocks_shown\": 3,\n    \"blocks_promised_by_appendix\": 7,\n";

/// One decline vector object; `last` omits the trailing comma.
pub open spec fn vector_json(v: VectorView, last: bool) -> Seq<char> {
    "    {\n"@ + "      \"name\": "@ + json_str(v.name) + ",\n"@ + "      \"doc_hex\": "@ + json_str(
        hex_upper_spaced(v.doc),
    ) + ",\n"@ + "      \"expect\": "@ + json_str(wire_tag_of(v.expect)) + "\n"@ + "    }"@ + (if last {
        ""@
    } else {
        ","@
    }) + "\n"@
}

/// The first `i` decline vector objects of `vs`.
pub open spec fn vectors_json(vs: Seq<VectorView>, i: nat) -> Seq<char>
    decreases i,
{
    if i == 0 {
        seq![]
    } else {
        vectors_json(vs, (i - 1) as nat) + vector_json(vs[i - 1], i == vs.len())
    }
}

/// The contract vector artifact: the Appendix C golden document and the
/// single-fault decline set.
pub open spec fn contract_vectors_json() -> Seq<char> {
    let doc = document_bytes("kiss-contract"@, "1"@, appendix_c_body_bytes());
    CONTRACT_JSON_HEAD@ + "    \"byte_length\": "@ + dec_chars(doc.len()) + ",\n"@
        + "    \"bytes_hex\": "@ + json_str(hex_upper_spaced(doc)) + "\n"@ + "  },\n"@
        + "  \"decline_vectors\": [\n"@ + vectors_json(negative_vectors(), 13) + "  ]\n"@ + "}\n"@
}

fn push_hex_json(s: &mut String, bytes: &[u8])
    ensures
        final(s)@ == old(s)@ + json_str(hex_upper_spaced(bytes@)),
{
    let mut h = String::new();
    push_hex_upper_spaced(&mut h, bytes);
    push_json_str(s, h.as_str());
}

fn push_vector_json(s: &mut String, v: &NegativeVector, last: bool)
    ensures
        final(s)@ == old(s)@ + vector_json(v@, last),
{
    push_str(s, "    {\n");
    push_str(s, "      \"name\": ");
    push_json_str(s, v.name);
    push_str(s, ",\n");
    push_str(s, "      \"doc_hex\": ");
    push_hex_json(s, v.doc.as_slice());
    push_str(s, ",\n");
    push_str(s, "      \"expect\": ");
    push_json_str(s, v.expect.wire_tag());
    push_str(s, "\n");
    push_str(s, "    }");
    if last {
        push_str(s, "");
    } else {
        push_str(s, ",");
    }
    push_str(s, "\n");
    assert(final(s)@ =~= old(s)@ + vector_json(v@, last));
}

/// Emit `contract_vectors.json` — the machine-readable golden contract vector
/// set generated from this codec: the Appendix C golden document (the three
/// blocks it shows) and the single-fault decline set, each decline keyed by its
/// stable wire tag.
pub fn emit_contract_vectors_json() -> (s: String)
    ensures
        s@ == contract_vectors_json(),
{
    let doc = appendix_c_golden_document();
    let negatives = malformed_contract_vectors();
    let ghost nv = vectors_view(negatives@);
    assert(nv == negative_vectors());
    let mut s = String::new();
    push_str(&mut s, CONTRACT_JSON_HEAD);
    push_str(&mut s, "    \"byte_length\": ");
    push_dec(&mut s, doc.len() as u64);
    push_str(&mut s, ",\n");
    push_str(&mut s, "    \"bytes_hex\": ");
    push_hex_json(&mut s, doc.as_slice());
    push_str(&mut s, "\n");
    push_str(&mut s, "  },\n");
    push_str(&mut s, "  \"decline_vectors\": [\n");
    let ghost s0 = s@;
    let mut i: usize = 0;
    while i < negatives.len()
        invariant
            i <= negatives@.len(),
            vectors_view(negatives@) == nv,
            s@ == s0 + vectors_json(nv, i as nat),
        decreases negatives.len() - i,
    {
        let v = &negatives[i];
        assert(nv[i as int] == v@);
        let last = i + 1 >= negatives.len();
        push_vector_json(&mut s, v, last);
        i += 1;
    }
    push_str(&mut s, "  ]\n");
    push_str(&mut s, "}\n");
    s
}


// ---------------------------------------------------------------------------
// The write/read round trip of the document framing.
// ---------------------------------------------------------------------------

/// `hex_fixed_lower(n, w)` is `w` lowercase hex digits, and reads back as `n`
/// when `n` fits in them.
pub proof fn lemma_hex_fixed(n: nat, w: nat)
    ensures
        hex_fixed_lower(n, w).len() == w,
        forall|i: int| 0 <= i < w ==> is_lower_hex_char(#[trigger] hex_fixed_lower(n, w)[i]),
        n < pow16(w) ==> hex_digits_value(hex_fixed_lower(n, w)) == n,
    decreases w,
{
    if w > 0 {
        lemma_hex_fixed(n / 16, (w - 1) as nat);
        let t = hex_fixed_lower(n, w);
        let c = hex_lower_char((n % 16) as int);
        assert(t.drop_last() =~= hex_fixed_lower(n / 16, (w - 1) as nat));
        assert(t.last() == c);
        if n % 16 < 10 {
            assert(c as nat == 48 + n % 16);
        } else {
            assert(c as nat == 87 + n % 16);
        }
        assert(is_lower_hex_char(c));
        assert(hex_value(c) == n % 16);
        assert forall|i: int| 0 <= i < w implies is_lower_hex_char(#[trigger] t[i]) by {
            if i < w - 1 {
                assert(t[i] == hex_fixed_lower(n / 16, (w - 1) as nat)[i]);
            }
        }
        if n < pow16(w) {
            assert(n / 16 < pow16((w - 1) as nat));
            assert(n == (n / 16) * 16 + n % 16);
        }
    }
}

/// The first line of `s` ends at its first LF, at index `k`.
pub proof fn lemma_first_line_at(s: Seq<u8>, k: int)
    requires
        0 <= k < s.len(),
        s[k] == 10,
        forall|j: int| 0 <= j < k ==> s[j] != 10,
    ensures
        first_line_len(s) == k + 1,
    decreases k,
{
    if k > 0 {
        lemma_first_line_at(s.drop_first(), k - 1);
    }
}

/// Whether every character of `s` is ASCII and none is an LF or a CR.
pub open spec fn line_safe(s: Seq<char>) -> bool {
    forall|i: int|
        0 <= i < s.len() ==> (#[trigger] s[i] as u32) != 10 && (s[i] as u32) != 13 && (s[i] as u32)
            < 128
}

proof fn lemma_line_safe_concat(a: Seq<char>, b: Seq<char>)
    requires
        line_safe(a),
        line_safe(b),
    ensures
        line_safe(a + b),
{
    assert forall|i: int| 0 <= i < (a + b).len() implies (#[trigger] (a + b)[i] as u32) != 10 && ((a
        + b)[i] as u32) != 13 && ((a + b)[i] as u32) < 128 by {
        if i < a.len() {
            assert((a + b)[i] == a[i]);
        } else {
            assert((a + b)[i] == b[i - a.len()]);
        }
    }
}

/// Whether every character of `s` is ASCII and none is an LF, CR or space.
pub open spec fn plain_token(s: Seq<char>) -> bool {
    forall|i: int|
        0 <= i < s.len() ==> #[trigger] s[i] != '\n' && s[i] != '\r' && s[i] != ' ' && (s[i] as nat)
            < 128
}

/// The UTF-8 encoding of ASCII characters is one byte per character, the
/// character's code.
pub proof fn lemma_encode_ascii(cs: Seq<char>)
    requires
        forall|i: int| 0 <= i < cs.len() ==> (#[trigger] cs[i] as u32) < 128,
    ensures
        encode_utf8(cs).len() == cs.len(),
        forall|i: int| 0 <= i < cs.len() ==> encode_utf8(cs)[i] as u32 == #[trigger] cs[i] as u32,
    decreases cs.len(),
{
    if cs.len() > 0 {
        let c0 = cs[0] as u32;
        assert(c0 < 128);
        assert(c0 as u8 as u32 == c0 && c0 as u8 == vstd::utf8::leading_byte_width_1(c0)) by (bit_vector)
            requires
                c0 < 128,
        ;
        let t = cs.drop_first();
        assert forall|i: int| 0 <= i < t.len() implies (#[trigger] t[i] as u32) < 128 by {
            assert(t[i] == cs[i + 1]);
        }
        lemma_encode_ascii(t);
        assert forall|i: int| 0 <= i < cs.len() implies encode_utf8(cs)[i] as u32 == #[trigger] cs[i] as u32 by {
            if i > 0 {
                assert(cs[i] == t[i - 1]);
            }
        }
    }
}

/// A line-safe header line, its LF, then a body: the first line is the header,
/// its bytes are the header's UTF-8, and what follows the LF is the body.
pub proof fn lemma_header_line(h0: Seq<char>, body: Seq<u8>)
    requires
        line_safe(h0),
    ensures
        ({
            let doc = encode_utf8(h0 + "\n"@) + body;
            &&& doc.len() == h0.len() + 1 + body.len()
            &&& first_line_len(doc) == h0.len() + 1
            &&& doc[h0.len() as int] == 10
            &&& doc.take(h0.len() as int) == encode_utf8(h0)
            &&& !doc.take(h0.len() as int).contains(13u8)
            &&& doc.skip(h0.len() + 1 as int) == body
            &&& forall|i: int| 0 <= i < h0.len() ==> doc[i] as u32 == #[trigger] h0[i] as u32
        }),
{
    reveal_strlit("\n");
    let hc = h0 + "\n"@;
    assert forall|i: int| 0 <= i < hc.len() implies (#[trigger] hc[i] as u32) < 128 by {
        if i < h0.len() {
            assert(hc[i] == h0[i]);
        } else {
            assert(hc[i] == "\n"@[i - h0.len()]);
        }
    }
    lemma_encode_ascii(hc);
    lemma_encode_ascii(h0);
    lemma_encode_utf8_concat(h0, "\n"@);
    let eh = encode_utf8(h0);
    let e = encode_utf8(hc);
    let doc = e + body;
    assert forall|j: int| 0 <= j < h0.len() implies #[trigger] doc[j] as u32 == h0[j] as u32 by {
        assert(doc[j] == e[j]);
        assert(hc[j] == h0[j]);
        assert(e[j] as u32 == hc[j] as u32);
    }
    assert forall|j: int| 0 <= j < h0.len() implies #[trigger] doc[j] != 10 && doc[j] != 13 by {
        assert(doc[j] as u32 == h0[j] as u32);
        assert((h0[j] as u32) != 10 && (h0[j] as u32) != 13);
    }
    assert(doc[h0.len() as int] == e[h0.len() as int]);
    assert(hc[h0.len() as int] == '\n');
    lemma_first_line_at(doc, h0.len() as int);
    assert(doc.take(h0.len() as int) =~= eh) by {
        assert forall|j: int| 0 <= j < h0.len() implies doc.take(h0.len() as int)[j] == eh[j] by {
            assert(eh[j] as u32 == h0[j] as u32);
        }
    }
    assert(!doc.take(h0.len() as int).contains(13u8)) by {
        if doc.take(h0.len() as int).contains(13u8) {
            let j = choose|j: int|
                0 <= j < doc.take(h0.len() as int).len() && doc.take(h0.len() as int)[j] == 13u8;
            assert(doc[j] == 13);
        }
    }
    assert(doc.skip(h0.len() + 1 as int) =~= body);
}

/// The header characters of a document with the recognized kind and version,
/// grouped at their four single spaces.
pub open spec fn grouped_header(n: nat, c: u32) -> Seq<char> {
    "KISC"@ + seq![' '] + ("kiss-contract"@ + seq![' '] + ("1"@ + seq![' '] + (("len="@
        + dec_chars(n)) + seq![' '] + ("crc32="@ + hex_fixed_lower(c as nat, 8)))))
}

proof fn lemma_grouped_header(n: nat, c: u32)
    ensures
        line_safe(grouped_header(n, c)),
        split_seq(grouped_header(n, c), ' ') == seq![
            "KISC"@,
            "kiss-contract"@,
            "1"@,
            "len="@ + dec_chars(n),
            "crc32="@ + hex_fixed_lower(c as nat, 8),
        ],
{
    reveal_strlit("KISC");
    reveal_strlit("kiss-contract");
    reveal_strlit("1");
    reveal_strlit("len=");
    reveal_strlit("crc32=");
    let d = dec_chars(n);
    let x = hex_fixed_lower(c as nat, 8);
    lemma_dec_chars(n);
    lemma_hex_fixed(c as nat, 8);
    let p3 = "len="@ + d;
    let p4 = "crc32="@ + x;
    assert(plain_token("KISC"@));
    assert(plain_token("kiss-contract"@));
    assert(plain_token("1"@));
    assert(plain_token(p3)) by {
        assert forall|i: int| 0 <= i < p3.len() implies #[trigger] p3[i] != '\n' && p3[i] != '\r'
            && p3[i] != ' ' && (p3[i] as u32) < 128 by {
            if i >= 4 {
                assert(p3[i] == d[i - 4]);
                assert(is_digit_char(d[i - 4]));
            }
        }
    }
    assert(plain_token(p4)) by {
        assert forall|i: int| 0 <= i < p4.len() implies #[trigger] p4[i] != '\n' && p4[i] != '\r'
            && p4[i] != ' ' && (p4[i] as u32) < 128 by {
            if i >= 6 {
                assert(p4[i] == x[i - 6]);
                assert(is_lower_hex_char(x[i - 6]));
            }
        }
    }
    let sp = seq![' '];
    let t4 = p3 + sp + p4;
    let t3 = "1"@ + sp + t4;
    let t2 = "kiss-contract"@ + sp + t3;
    assert(line_safe(sp));
    lemma_line_safe_concat(p3, sp);
    lemma_line_safe_concat(p3 + sp, p4);
    lemma_line_safe_concat("1"@, sp);
    lemma_line_safe_concat("1"@ + sp, t4);
    lemma_line_safe_concat("kiss-contract"@, sp);
    lemma_line_safe_concat("kiss-contract"@ + sp, t3);
    lemma_line_safe_concat("KISC"@, sp);
    lemma_line_safe_concat("KISC"@ + sp, t2);
    assert(!"KISC"@.contains(' '));
    assert(!"kiss-contract"@.contains(' '));
    assert(!"1"@.contains(' '));
    assert(!p3.contains(' '));
    assert(!p4.contains(' '));
    lemma_split_none("KISC"@, ' ');
    lemma_split_none("kiss-contract"@, ' ');
    lemma_split_none("1"@, ' ');
    lemma_split_none(p3, ' ');
    lemma_split_none(p4, ' ');
    lemma_split_concat(p3, ' ', p4);
    lemma_split_concat("1"@, ' ', t4);
    lemma_split_concat("kiss-contract"@, ' ', t3);
    lemma_split_concat("KISC"@, ' ', t2);
    assert(split_seq(grouped_header(n, c), ' ') =~= seq!["KISC"@, "kiss-contract"@, "1"@, p3, p4]);
}

/// Read gives back what encode wrote: a document encoded with the recognized
/// kind and version, over any body that begins with the first section heading,
/// reads cleanly and yields the kind, the version, the body length and the
/// body's CRC-32.
pub proof fn contract_document_roundtrip(body: Seq<u8>)
    requires
        starts_with(body, identity_heading()),
        body.len() <= usize::MAX,
    ensures
        read_spec(document_bytes("kiss-contract"@, "1"@, body)) == Ok::<HeaderView, DeclineView>(
            HeaderView {
                contract_kind: "kiss-contract"@,
                contract_version: "1"@,
                body_len: body.len() as usize,
                crc32: crc32(body),
            },
        ),
{
    let n = body.len();
    let c = crc32(body);
    let d = dec_chars(n);
    let x = hex_fixed_lower(c as nat, 8);
    reveal_strlit("KISC ");
    reveal_strlit(" ");
    reveal_strlit(" len=");
    reveal_strlit(" crc32=");
    reveal_strlit("\n");
    reveal_strlit("KISC");
    reveal_strlit("kiss-contract");
    reveal_strlit("1");
    reveal_strlit("len=");
    reveal_strlit("crc32=");
    let h0 = grouped_header(n, c);
    assert(header_chars("kiss-contract"@, "1"@, body) =~= h0 + "\n"@);
    lemma_grouped_header(n, c);
    lemma_header_line(h0, body);
    let doc = document_bytes("kiss-contract"@, "1"@, body);
    assert(doc == encode_utf8(h0 + "\n"@) + body);
    assert forall|i: int| 0 <= i < "KISC"@.len() implies (#[trigger] "KISC"@[i] as u32) < 128 by {}
    lemma_encode_ascii("KISC"@);
    assert(h0.len() >= 4);
    assert(doc.take(4) =~= magic()) by {
        assert forall|i: int| 0 <= i < 4 implies doc[i] == magic()[i] by {
            assert(h0[i] == "KISC"@[i]);
            assert(doc[i] as u32 == h0[i] as u32);
            assert(magic()[i] as u32 == "KISC"@[i] as u32);
        }
    }
    let header = doc.take(h0.len() as int);
    vstd::utf8::encode_utf8_valid_utf8(h0);
    vstd::utf8::encode_utf8_decode_utf8(h0);
    assert(decode_utf8(header) == h0);
    let p3 = "len="@ + d;
    let p4 = "crc32="@ + x;
    assert(starts_with(p3, "len="@)) by {
        assert(p3.subrange(0, 4) =~= "len="@);
    }
    assert(p3.skip(4) =~= d);
    lemma_parse_dec(n, u64::MAX as nat);
    assert(starts_with(p4, "crc32="@)) by {
        assert(p4.subrange(0, 6) =~= "crc32="@);
    }
    assert(p4.skip(6) =~= x);
    lemma_hex_fixed(c as nat, 8);
    assert(pow16(8) == 0x1_0000_0000) by {
        reveal_with_fuel(pow16, 9);
    }
    assert(crc_hex(x) == Some(c));
}

} // verus!
