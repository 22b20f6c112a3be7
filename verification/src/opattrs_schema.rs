//! The OpAttrs schema model: each carrier op's blob fields in canonical (ABI)
//! order, with the byte width each encoding pins.

use vstd::prelude::*;
use crate::grammar::{find_exec, find_from, lemma_find_from_bound};
use crate::namespace_vocabulary::unicode_ws;
use crate::text::{chars_of, chars_skip, chars_vv, split_chars, split_seq, string_of};

verus! {

/// One field of an OpAttrs blob, in canonical order. The name never appears
/// on the wire; the encoding text is kept exactly as written.
#[derive(Debug, Clone, PartialEq, Eq)]
pub struct SchemaField {
    pub name: String,
    pub encoding: String,
    pub width: FieldWidth,
}

/// A field's width: one byte, two bytes little-endian, or not fixed.
#[derive(Debug, Clone, Copy, PartialEq, Eq, Structural)]
pub enum FieldWidth {
    U8,
    U16Le,
    Variable,
}

/// The bytes a width pins, if it pins any.
pub open spec fn width_bytes(w: FieldWidth) -> Option<nat> {
    match w {
        FieldWidth::U8 => Some(1),
        FieldWidth::U16Le => Some(2),
        FieldWidth::Variable => None,
    }
}

impl FieldWidth {
    /// Bytes, when fixed; `None` for `Variable`.
    pub fn bytes(self) -> (r: Option<usize>)
        ensures
            match width_bytes(self) {
                Some(n) => r == Some(n as usize),
                None => r is None,
            },
    {
        match self {
            FieldWidth::U8 => Some(1),
            FieldWidth::U16Le => Some(2),
            FieldWidth::Variable => None,
        }
    }
}

/// One carrier op's schema, in canonical field order.
#[derive(Debug, Clone, PartialEq, Eq)]
pub struct OpSchema {
    pub op: String,
    pub fields: Vec<SchemaField>,
}

/// The total width of the fields, when every one pins a width.
pub open spec fn total_width(fields: Seq<SchemaField>) -> Option<nat>
    decreases fields.len(),
{
    if fields.len() == 0 {
        Some(0)
    } else {
        match (total_width(fields.drop_last()), width_bytes(fields.last().width)) {
            (Some(a), Some(b)) => Some(a + b),
            _ => None,
        }
    }
}

proof fn lemma_total_width_bound(fields: Seq<SchemaField>)
    ensures
        total_width(fields) matches Some(t) ==> t <= 2 * fields.len(),
    decreases fields.len(),
{
    if fields.len() > 0 {
        lemma_total_width_bound(fields.drop_last());
    }
}

impl OpSchema {
    /// The total blob width, when every field pins one; `None` if any is `Variable`.
    pub fn fixed_width(&self) -> (r: Option<usize>)
        requires
            2 * self.fields@.len() <= usize::MAX,
        ensures
            match total_width(self.fields@) {
                Some(n) => r == Some(n as usize),
                None => r is None,
            },
    {
        let mut total: usize = 0;
        let mut i: usize = 0;
        while i < self.fields.len()
            invariant
                i <= self.fields@.len(),
                2 * self.fields@.len() <= usize::MAX,
                total_width(self.fields@.take(i as int)) == Some(total as nat),
                total <= 2 * i,
            decreases self.fields@.len() - i,
        {
            proof {
                assert(self.fields@.take(i + 1).drop_last() =~= self.fields@.take(i as int));
                assert(self.fields@.take(i + 1).last() == self.fields@[i as int]);
            }
            match self.fields[i].width.bytes() {
                Some(b) => {
                    total = total + b;
                },
                None => {
                    proof {
                        lemma_none_sticks(self.fields@, i as int + 1);
                    }
                    return None;
                },
            }
            i += 1;
        }
        proof {
            assert(self.fields@.take(i as int) =~= self.fields@);
        }
        Some(total)
    }
}

/// Once a prefix has no fixed width, no longer prefix has one.
proof fn lemma_none_sticks(fields: Seq<SchemaField>, k: int)
    requires
        0 <= k <= fields.len(),
        total_width(fields.take(k)) is None,
    ensures
        total_width(fields) is None,
    decreases fields.len() - k,
{
    if k < fields.len() {
        assert(fields.take(k + 1).drop_last() =~= fields.take(k));
        lemma_none_sticks(fields, k + 1);
    } else {
        assert(fields.take(k) =~= fields);
    }
}

// ---------------------------------------------------------------------------
// Reading the schema table out of the operations document.
// ---------------------------------------------------------------------------

/// Why the schema table could not be read.
#[derive(Debug, Clone, Copy, PartialEq, Eq, Structural)]
pub enum TableDecline {
    /// The document has no `#### 6.19.3` heading.
    NoSection,
    /// The section holds no table row: a broken reading, never an empty table.
    EmptyTable,
}

/// The content of a [`SchemaField`].
pub struct SchemaFieldV {
    pub name: Seq<char>,
    pub encoding: Seq<char>,
    pub width: FieldWidth,
}

/// The content of an [`OpSchema`].
pub struct OpSchemaV {
    pub op: Seq<char>,
    pub fields: Seq<SchemaFieldV>,
}

pub open spec fn field_view(f: SchemaField) -> SchemaFieldV {
    SchemaFieldV { name: f.name@, encoding: f.encoding@, width: f.width }
}

pub open spec fn schema_view(o: OpSchema) -> OpSchemaV {
    OpSchemaV { op: o.op@, fields: Seq::new(o.fields@.len(), |i: int| field_view(o.fields@[i])) }
}

pub open spec fn schemas_view(v: Seq<OpSchema>) -> Seq<OpSchemaV> {
    Seq::new(v.len(), |i: int| schema_view(v[i]))
}

/// What a strip removes: white space (`None`) or one character.
pub open spec fn strip_hit(c: Option<char>, x: char) -> bool {
    match c {
        None => unicode_ws(x),
        Some(d) => x == d,
    }
}

/// How many leading characters a strip removes.
pub open spec fn lead_while(s: Seq<char>, c: Option<char>) -> nat
    decreases s.len(),
{
    if s.len() > 0 && strip_hit(c, s[0]) {
        1 + lead_while(s.drop_first(), c)
    } else {
        0
    }
}

/// How many trailing characters a strip removes.
pub open spec fn trail_while(s: Seq<char>, c: Option<char>) -> nat
    decreases s.len(),
{
    if s.len() > 0 && strip_hit(c, s.last()) {
        1 + trail_while(s.drop_last(), c)
    } else {
        0
    }
}

/// `s` with the stripped characters removed from both ends (`trim`,
/// `trim_matches`).
pub open spec fn strip_both(s: Seq<char>, c: Option<char>) -> Seq<char> {
    let a = s.skip(lead_while(s, c) as int);
    a.take(a.len() - trail_while(a, c))
}

/// `s` cut at every occurrence of `pat`, left to right.
pub open spec fn split_str(s: Seq<char>, pat: Seq<char>) -> Seq<Seq<char>>
    decreases s.len(),
{
    if pat.len() == 0 {
        seq![s]
    } else {
        match find_from(s, pat, 0) {
            Some(i) => if 0 <= i && i + pat.len() <= s.len() {
                seq![s.take(i)] + split_str(s.skip(i + pat.len()), pat)
            } else {
                seq![s]
            },
            None => seq![s],
        }
    }
}

/// The width an encoding pins: `u16` (little-endian), `u8`, else none.
pub open spec fn width_of_encoding(enc: Seq<char>) -> FieldWidth {
    if find_from(enc, "`u16`"@, 0) is Some {
        FieldWidth::U16Le
    } else if find_from(enc, "`u8`"@, 0) is Some {
        FieldWidth::U8
    } else {
        FieldWidth::Variable
    }
}

/// One `` `name`:encoding `` part of a row.
pub open spec fn field_of(part: Seq<char>) -> Option<SchemaFieldV> {
    let p = strip_both(part, None);
    if p.len() == 0 || p[0] != '`' {
        None
    } else {
        let rest = p.drop_first();
        match find_from(rest, "`"@, 0) {
            None => None,
            Some(j) => {
                let tail = rest.skip(j + 1);
                let enc = strip_both(tail.skip(lead_while(tail, Some(':')) as int), None);
                Some(SchemaFieldV { name: rest.take(j), encoding: enc, width: width_of_encoding(enc) })
            },
        }
    }
}

/// The fields of a row's parts, in order, unreadable parts skipped.
pub open spec fn fields_of(parts: Seq<Seq<char>>) -> Seq<SchemaFieldV>
    decreases parts.len(),
{
    if parts.len() == 0 {
        seq![]
    } else {
        match field_of(parts.last()) {
            Some(f) => fields_of(parts.drop_last()).push(f),
            None => fields_of(parts.drop_last()),
        }
    }
}

/// One table row: `` | `op` | field — field — ... | ``.
pub open spec fn row_of(line: Seq<char>) -> Option<OpSchemaV> {
    let l = strip_both(line, None);
    if !(l.len() >= 3 && l.take(3) == "| `"@ && l.last() == '|') {
        None
    } else {
        let cells = split_str(strip_both(l, Some('|')), " | "@);
        if cells.len() != 2 {
            None
        } else {
            let op = strip_both(strip_both(cells[0], None), Some('`'));
            let fs = fields_of(split_str(cells[1], " — "@));
            if op.len() == 0 || fs.len() == 0 {
                None
            } else {
                Some(OpSchemaV { op, fields: fs })
            }
        }
    }
}

/// A line without its carriage return.
pub open spec fn line_of(l: Seq<char>) -> Seq<char> {
    if l.len() > 0 && l.last() == '\r' {
        l.drop_last()
    } else {
        l
    }
}

/// The rows of the lines, in order.
pub open spec fn rows_of(lines: Seq<Seq<char>>) -> Seq<OpSchemaV>
    decreases lines.len(),
{
    if lines.len() == 0 {
        seq![]
    } else {
        match row_of(line_of(lines.last())) {
            Some(r) => rows_of(lines.drop_last()).push(r),
            None => rows_of(lines.drop_last()),
        }
    }
}

/// The schema section: from its `#### 6.19.3` heading to the next `####`
/// heading (or the end).
pub open spec fn section_of(doc: Seq<char>) -> Option<Seq<char>> {
    match find_from(doc, "#### 6.19.3"@, 0) {
        None => None,
        Some(start) => {
            let rest = doc.skip(start);
            match find_from(rest, "\n#### "@, 1) {
                Some(end) => Some(rest.take(end)),
                None => Some(rest),
            }
        },
    }
}

/// The schema table of the operations document.
pub open spec fn table_of(doc: Seq<char>) -> Result<Seq<OpSchemaV>, TableDecline> {
    match section_of(doc) {
        None => Err(TableDecline::NoSection),
        Some(sec) => if rows_of(split_seq(sec, '\n')).len() == 0 {
            Err(TableDecline::EmptyTable)
        } else {
            Ok(rows_of(split_seq(sec, '\n')))
        },
    }
}

proof fn lemma_lead_while(s: Seq<char>, c: Option<char>, k: int)
    requires
        0 <= k <= s.len(),
        forall|z: int| 0 <= z < k ==> strip_hit(c, #[trigger] s[z]),
    ensures
        lead_while(s, c) == k + lead_while(s.skip(k), c),
    decreases k,
{
    if k > 0 {
        lemma_lead_while(s.drop_first(), c, k - 1);
        assert(s.drop_first().skip(k - 1) =~= s.skip(k));
    } else {
        assert(s.skip(0) =~= s);
    }
}

proof fn lemma_trail_while(s: Seq<char>, c: Option<char>, k: int)
    requires
        0 <= k <= s.len(),
        forall|z: int| s.len() - k <= z < s.len() ==> strip_hit(c, #[trigger] s[z]),
    ensures
        trail_while(s, c) == k + trail_while(s.take(s.len() - k), c),
    decreases k,
{
    if k > 0 {
        lemma_trail_while(s.drop_last(), c, k - 1);
        assert(s.drop_last().take(s.drop_last().len() - (k - 1)) =~= s.take(s.len() - k));
    } else {
        assert(s.take(s.len() as int) =~= s);
    }
}

proof fn lemma_trail_bound(s: Seq<char>, c: Option<char>)
    ensures
        trail_while(s, c) <= s.len(),
    decreases s.len(),
{
    if s.len() > 0 {
        lemma_trail_bound(s.drop_last(), c);
    }
}

proof fn lemma_lead_bound(s: Seq<char>, c: Option<char>)
    ensures
        lead_while(s, c) <= s.len(),
    decreases s.len(),
{
    if s.len() > 0 {
        lemma_lead_bound(s.drop_first(), c);
    }
}

fn hits(c: Option<char>, x: char) -> (r: bool)
    ensures
        r == strip_hit(c, x),
{
    match c {
        None => {
            let u = x as u32;
            (0x09 <= u && u <= 0x0D) || u == 0x20 || u == 0x85 || u == 0xA0 || u == 0x1680 || (0x2000 <= u && u
                <= 0x200A) || u == 0x2028 || u == 0x2029 || u == 0x202F || u == 0x205F || u == 0x3000
        },
        Some(d) => x == d,
    }
}

/// The characters of `s[a..b]`.
fn chars_range(s: &[char], a: usize, b: usize) -> (r: Vec<char>)
    requires
        a <= b <= s@.len(),
    ensures
        r@ == s@.subrange(a as int, b as int),
{
    let mut r: Vec<char> = Vec::new();
    let mut k: usize = a;
    while k < b
        invariant
            a <= k <= b <= s@.len(),
            r@ == s@.subrange(a as int, k as int),
        decreases b - k,
    {
        r.push(s[k]);
        k += 1;
        assert(s@.subrange(a as int, k as int) =~= s@.subrange(a as int, k - 1).push(s@[k - 1]));
    }
    r
}

/// How many leading characters a strip removes from `s[from..]`.
fn lead_exec(s: &[char], c: Option<char>) -> (r: usize)
    ensures
        r == lead_while(s@, c),
{
    let mut k: usize = 0;
    while k < s.len() && hits(c, s[k])
        invariant
            k <= s@.len(),
            forall|z: int| 0 <= z < k ==> strip_hit(c, #[trigger] s@[z]),
        decreases s@.len() - k,
    {
        k += 1;
    }
    proof {
        lemma_lead_while(s@, c, k as int);
        if k < s@.len() {
            assert(s@.skip(k as int)[0] == s@[k as int]);
        }
    }
    k
}

/// How many trailing characters a strip removes.
fn trail_exec(s: &[char], c: Option<char>) -> (r: usize)
    ensures
        r == trail_while(s@, c),
{
    let n = s.len();
    let mut k: usize = 0;
    while k < n && hits(c, s[n - 1 - k])
        invariant
            n == s@.len(),
            k <= n,
            forall|z: int| n - k <= z < n ==> strip_hit(c, #[trigger] s@[z]),
        decreases n - k,
    {
        k += 1;
    }
    proof {
        lemma_trail_while(s@, c, k as int);
        let t = s@.take(n - k);
        if k < n {
            assert(t.last() == s@[n - 1 - k]);
        }
    }
    k
}

/// `strip_both`, executable.
fn strip_exec(s: &[char], c: Option<char>) -> (r: Vec<char>)
    ensures
        r@ == strip_both(s@, c),
{
    let a = lead_exec(s, c);
    proof {
        lemma_lead_bound(s@, c);
    }
    let rest = chars_skip(s, a);
    let t = trail_exec(rest.as_slice(), c);
    proof {
        lemma_trail_bound(rest@, c);
    }
    chars_range(rest.as_slice(), 0, rest.len() - t)
}

/// `split_str`, executable (`pat` non-empty).
fn split_exec(s: &[char], pat: &[char]) -> (r: Vec<Vec<char>>)
    requires
        pat@.len() > 0,
    ensures
        r@.len() == split_str(s@, pat@).len(),
        forall|i: int| 0 <= i < r@.len() ==> (#[trigger] r@[i])@ == split_str(s@, pat@)[i],
{
    let mut out: Vec<Vec<char>> = Vec::new();
    let mut pos: usize = 0;
    let n: usize = s.len();
    proof {
        assert(s@.skip(0) =~= s@);
        assert(crate::grammar::chars_vv_view(out@) =~= Seq::<Seq<char>>::empty());
        assert(split_str(s@, pat@) =~= Seq::<Seq<char>>::empty() + split_str(s@, pat@));
    }
    loop
        invariant_except_break
            split_str(s@, pat@) == crate::grammar::chars_vv_view(out@) + split_str(s@.skip(pos as int), pat@),
        invariant
            pat@.len() > 0,
            n == s@.len(),
            pos <= s@.len(),
        ensures
            crate::grammar::chars_vv_view(out@) == split_str(s@, pat@),
        decreases s@.len() - pos,
    {
        let rem = chars_skip(s, pos);
        match find_exec(rem.as_slice(), pat, 0) {
            None => {
                let ghost before = crate::grammar::chars_vv_view(out@);
                let ghost rv = rem@;
                out.push(rem);
                proof {
                    assert(split_str(s@.skip(pos as int), pat@) == seq![rv]);
                    assert(crate::grammar::chars_vv_view(out@) =~= before + seq![rv]);
                }
                break;
            },
            Some(i) => {
                proof {
                    lemma_find_from_bound(rem@, pat@, 0);
                    assert(pos + i + pat@.len() <= n);
                }
                let piece = chars_range(rem.as_slice(), 0, i);
                let ghost before = crate::grammar::chars_vv_view(out@);
                out.push(piece);
                proof {
                    assert(crate::grammar::chars_vv_view(out@) =~= before.push(rem@.take(i as int)));
                    assert(rem@.skip(i + pat@.len()) =~= s@.skip(pos + i + pat@.len()));
                    assert(split_str(rem@, pat@) == seq![rem@.take(i as int)] + split_str(
                        rem@.skip(i + pat@.len()),
                        pat@,
                    ));
                    assert(before + split_str(rem@, pat@) =~= before.push(rem@.take(i as int)) + split_str(
                        s@.skip(pos + i + pat@.len()),
                        pat@,
                    ));
                }
                pos = pos + i + pat.len();
            },
        }
    }
    proof {
        let v = crate::grammar::chars_vv_view(out@);
        assert forall|i: int| 0 <= i < out@.len() implies (#[trigger] out@[i])@ == split_str(s@, pat@)[i] by {
            assert(v[i] == out@[i]@);
        }
    }
    out
}

fn width_exec(enc: &[char]) -> (w: FieldWidth)
    ensures
        w == width_of_encoding(enc@),
{
    let a = chars_of("`u16`");
    if find_exec(enc, a.as_slice(), 0).is_some() {
        return FieldWidth::U16Le;
    }
    let b = chars_of("`u8`");
    if find_exec(enc, b.as_slice(), 0).is_some() {
        FieldWidth::U8
    } else {
        FieldWidth::Variable
    }
}

fn field_exec(part: &[char]) -> (r: Option<SchemaField>)
    ensures
        match field_of(part@) {
            None => r is None,
            Some(f) => r matches Some(x) && field_view(x) == f,
        },
{
    let p = strip_exec(part, None);
    if p.len() == 0 || p[0] != '`' {
        return None;
    }
    let rest = chars_skip(p.as_slice(), 1);
    assert(rest@ =~= p@.drop_first());
    let tick = chars_of("`");
    let j = match find_exec(rest.as_slice(), tick.as_slice(), 0) {
        None => {
            return None;
        },
        Some(j) => j,
    };
    proof {
        lemma_find_from_bound(rest@, tick@, 0);
        reveal_strlit("`");
    }
    let name = chars_range(rest.as_slice(), 0, j);
    let tail = chars_skip(rest.as_slice(), j + 1);
    let colons = lead_exec(tail.as_slice(), Some(':'));
    proof {
        lemma_lead_bound(tail@, Some(':'));
    }
    let after = chars_skip(tail.as_slice(), colons);
    let enc = strip_exec(after.as_slice(), None);
    let width = width_exec(enc.as_slice());
    proof {
        assert(name@ =~= rest@.take(j as int));
    }
    Some(SchemaField { name: string_of(name.as_slice()), encoding: string_of(enc.as_slice()), width })
}

fn fields_exec(parts: &Vec<Vec<char>>) -> (r: Vec<SchemaField>)
    ensures
        Seq::new(r@.len(), |i: int| field_view(r@[i])) == fields_of(chars_vv(parts@)),
{
    let ghost pv = chars_vv(parts@);
    let mut out: Vec<SchemaField> = Vec::new();
    let mut i: usize = 0;
    proof {
        assert(pv.take(0) =~= Seq::<Seq<char>>::empty());
    }
    while i < parts.len()
        invariant
            i <= parts@.len(),
            pv == chars_vv(parts@),
            Seq::new(out@.len(), |k: int| field_view(out@[k])) == fields_of(pv.take(i as int)),
        decreases parts@.len() - i,
    {
        let ghost prev = Seq::new(out@.len(), |k: int| field_view(out@[k]));
        proof {
            assert(pv.take(i + 1).drop_last() =~= pv.take(i as int));
            assert(pv.take(i + 1).last() == parts@[i as int]@);
        }
        match field_exec(parts[i].as_slice()) {
            Some(f) => {
                out.push(f);
                proof {
                    assert(Seq::new(out@.len(), |k: int| field_view(out@[k])) =~= prev.push(field_view(f)));
                }
            },
            None => {},
        }
        i += 1;
    }
    proof {
        assert(pv.take(parts@.len() as int) =~= pv);
    }
    out
}

fn row_exec(line: &[char]) -> (r: Option<OpSchema>)
    ensures
        match row_of(line@) {
            None => r is None,
            Some(o) => r matches Some(x) && schema_view(x) == o,
        },
{
    let l = strip_exec(line, None);
    proof {
        reveal_strlit("| `");
    }
    if !(l.len() >= 3 && l[0] == '|' && l[1] == ' ' && l[2] == '`' && l[l.len() - 1] == '|') {
        proof {
            if l@.len() >= 3 && l@.take(3) == "| `"@ {
                assert(l@.take(3)[0] == l@[0] && l@.take(3)[1] == l@[1] && l@.take(3)[2] == l@[2]);
            }
        }
        return None;
    }
    assert(l@.take(3) =~= "| `"@);
    let inner = strip_exec(l.as_slice(), Some('|'));
    let sep = chars_of(" | ");
    proof {
        reveal_strlit(" | ");
    }
    let cells = split_exec(inner.as_slice(), sep.as_slice());
    if cells.len() != 2 {
        return None;
    }
    let c0 = strip_exec(cells[0].as_slice(), None);
    let op = strip_exec(c0.as_slice(), Some('`'));
    let dash = chars_of(" — ");
    proof {
        reveal_strlit(" — ");
    }
    let parts = split_exec(cells[1].as_slice(), dash.as_slice());
    proof {
        assert(chars_vv(parts@) =~= split_str(cells@[1]@, dash@));
    }
    let fields = fields_exec(&parts);
    if op.len() == 0 || fields.len() == 0 {
        return None;
    }
    let o = OpSchema { op: string_of(op.as_slice()), fields };
    proof {
        assert(schema_view(o).fields =~= Seq::new(fields@.len(), |i: int| field_view(fields@[i])));
    }
    Some(o)
}

/// Read the schema table (the canonical field order of each carrier op's
/// OpAttrs blob) out of the operations document's text: the rows of its
/// `#### 6.19.3` section, each `` | `op` | `name`:encoding — ... | ``, with
/// the width each encoding pins. A document with no such section, or a
/// section with no row, is declined rather than read as an empty table.
pub fn parse_table(spec_text: &str) -> (r: Result<Vec<OpSchema>, TableDecline>)
    ensures
        match table_of(spec_text@) {
            Ok(rows) => r matches Ok(v) && schemas_view(v@) == rows,
            Err(d) => r == Err::<Vec<OpSchema>, TableDecline>(d),
        },
{
    let doc = chars_of(spec_text);
    let head = chars_of("#### 6.19.3");
    let start = match find_exec(doc.as_slice(), head.as_slice(), 0) {
        Some(i) => i,
        None => {
            return Err(TableDecline::NoSection);
        },
    };
    proof {
        lemma_find_from_bound(doc@, head@, 0);
    }
    let rest = chars_skip(doc.as_slice(), start);
    let next = chars_of("\n#### ");
    let end = match find_exec(rest.as_slice(), next.as_slice(), 1) {
        Some(e) => e,
        None => rest.len(),
    };
    proof {
        lemma_find_from_bound(rest@, next@, 1);
    }
    let sec = chars_range(rest.as_slice(), 0, end);
    proof {
        if end == rest@.len() {
            assert(rest@.subrange(0, end as int) =~= rest@);
        }
        assert(rest@.subrange(0, end as int) =~= rest@.take(end as int));
        assert(section_of(spec_text@) == Some(sec@));
    }
    let lines = split_chars(sec.as_slice(), '\n');
    let ghost lv = chars_vv(lines@);
    let mut out: Vec<OpSchema> = Vec::new();
    let mut i: usize = 0;
    proof {
        assert(lv.take(0) =~= Seq::<Seq<char>>::empty());
        assert(schemas_view(out@) =~= Seq::<OpSchemaV>::empty());
    }
    while i < lines.len()
        invariant
            i <= lines@.len(),
            lv == chars_vv(lines@),
            schemas_view(out@) == rows_of(lv.take(i as int)),
        decreases lines@.len() - i,
    {
        proof {
            assert(lv.take(i + 1).drop_last() =~= lv.take(i as int));
            assert(lv.take(i + 1).last() == lines@[i as int]@);
        }
        let raw = &lines[i];
        let line: Vec<char> = if raw.len() > 0 && raw[raw.len() - 1] == '\r' {
            chars_range(raw.as_slice(), 0, raw.len() - 1)
        } else {
            chars_range(raw.as_slice(), 0, raw.len())
        };
        proof {
            assert(raw@.subrange(0, raw@.len() as int) =~= raw@);
            assert(raw@.subrange(0, raw@.len() - 1) =~= raw@.drop_last());
            assert(line@ == line_of(raw@));
        }
        let ghost before = schemas_view(out@);
        match row_exec(line.as_slice()) {
            Some(o) => {
                out.push(o);
                proof {
                    assert(schemas_view(out@) =~= before.push(schema_view(o)));
                }
            },
            None => {},
        }
        i += 1;
    }
    proof {
        assert(lv.take(lines@.len() as int) =~= lv);
    }
    if out.len() == 0 {
        return Err(TableDecline::EmptyTable);
    }
    Ok(out)
}

} // verus!
