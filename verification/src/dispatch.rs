//! The Dispatch section: the geometry-agnostic (optional-geometry) model and
//! the thread-index-free structural declaration of `thread_mapping` /
//! `addressing_rule`.
//!
//! The Dispatch section is always present. A geometry-agnostic kernel carries
//! the sentinel line `dispatch_model = geometry-agnostic` in place of the five
//! geometry fields; a kernel that declares geometry carries all five, of which
//! `thread_mapping` and `addressing_rule` must not reference a per-thread
//! index symbol (the richer thread-mapping forms are reserved post-v1).

use vstd::prelude::*;
use vstd::utf8::{decode_utf8, encode_utf8, valid_utf8};
use crate::contract::{block_chars, fields_ok, fields_view, render_block, Value, ValueView};
use crate::structure_key::{in_table, table_contains};
use crate::text::{
    blank, chars_of, is_blank, lines, lines_of, chars_vv, push_str, string_from, string_of,
    utf8_decode,
};

verus! {

/// Per-thread index symbols reserved to the post-v1 richer thread-mapping form.
pub const RESERVED_THREAD_INDEX_SYMBOLS: [&'static str; 8] =
    ["gid", "tid", "lane", "gtid", "threadidx", "blockidx", "warp", "subgroup"];

/// Named richer-mapping forms reserved post-v1.
pub const RESERVED_MAPPING_FORMS: [&'static str; 3] = ["tile_mapping", "warp_tile", "lane_tile"];

/// The five Dispatch derivation fields, each a grammar expression.
#[derive(Clone, Debug, PartialEq)]
pub struct DispatchFields {
    pub invocation_domain: String,
    pub workgroup_sizing: String,
    pub count_to_grid: String,
    pub thread_mapping: String,
    pub addressing_rule: String,
}

/// A kernel's Dispatch section: the carried geometry-agnostic sentinel, or a
/// declared launch geometry (all five fields).
#[derive(Clone, Debug, PartialEq)]
pub enum DispatchModel {
    GeometryAgnostic,
    Declared(DispatchFields),
}

/// The Dispatch section id (block 4).
pub const DISPATCH_SECTION_ID: u8 = 4;
/// The Dispatch section name.
pub const DISPATCH_SECTION_NAME: &'static str = "dispatch";
/// The carried geometry-agnostic sentinel value, keyed under `dispatch_model`.
pub const GEOMETRY_AGNOSTIC_SENTINEL: &'static str = "geometry-agnostic";
/// The five geometry field keys, in their pinned order.
pub const GEOMETRY_FIELD_KEYS: [&'static str; 5] =
    ["invocation_domain", "workgroup_sizing", "count_to_grid", "thread_mapping", "addressing_rule"];

/// A typed decline from parsing a Dispatch section block; never a panic.
#[derive(Clone, Debug, PartialEq, Eq)]
pub enum DispatchDecline {
    /// The block does not begin with `[section:4:dispatch]`.
    BadHeading,
    /// The block carried no field lines.
    Empty,
    /// A field key not in the schema.
    UnknownField(String),
    /// The five-field arm is incomplete or out of order.
    PartialGeometry,
    /// `dispatch_model` alongside one or more geometry fields.
    SentinelWithGeometry,
    /// `dispatch_model = <v>` where `<v>` is not `geometry-agnostic`.
    BadSentinelValue(String),
    /// A line that is not a `key = value` field line.
    MalformedLine(String),
    /// The document body carries no `[section:4:dispatch]` block at all.
    MissingSection,
}

/// The five fields as character sequences.
pub type FieldsView = (Seq<char>, Seq<char>, Seq<char>, Seq<char>, Seq<char>);

pub enum ModelView {
    GeometryAgnostic,
    Declared(FieldsView),
}

pub enum DeclineView {
    BadHeading,
    Empty,
    UnknownField(Seq<char>),
    PartialGeometry,
    SentinelWithGeometry,
    BadSentinelValue(Seq<char>),
    MalformedLine(Seq<char>),
    MissingSection,
}

impl View for DispatchFields {
    type V = FieldsView;

    open spec fn view(&self) -> FieldsView {
        (self.invocation_domain@, self.workgroup_sizing@, self.count_to_grid@, self.thread_mapping@,
            self.addressing_rule@)
    }
}

impl View for DispatchModel {
    type V = ModelView;

    open spec fn view(&self) -> ModelView {
        match self {
            DispatchModel::GeometryAgnostic => ModelView::GeometryAgnostic,
            DispatchModel::Declared(f) => ModelView::Declared(f@),
        }
    }
}

impl View for DispatchDecline {
    type V = DeclineView;

    open spec fn view(&self) -> DeclineView {
        match self {
            DispatchDecline::BadHeading => DeclineView::BadHeading,
            DispatchDecline::Empty => DeclineView::Empty,
            DispatchDecline::UnknownField(s) => DeclineView::UnknownField(s@),
            DispatchDecline::PartialGeometry => DeclineView::PartialGeometry,
            DispatchDecline::SentinelWithGeometry => DeclineView::SentinelWithGeometry,
            DispatchDecline::BadSentinelValue(s) => DeclineView::BadSentinelValue(s@),
            DispatchDecline::MalformedLine(s) => DeclineView::MalformedLine(s@),
            DispatchDecline::MissingSection => DeclineView::MissingSection,
        }
    }
}

// ---------------------------------------------------------------------------
// Rendering.
// ---------------------------------------------------------------------------

/// The field list a model renders: the sentinel line, or the five fields in
/// their pinned order.
pub open spec fn model_fields(m: ModelView) -> Seq<(Seq<char>, ValueView)> {
    match m {
        ModelView::GeometryAgnostic => seq![("dispatch_model"@, ValueView::Str("geometry-agnostic"@))],
        ModelView::Declared(f) => seq![
            ("invocation_domain"@, ValueView::Str(f.0)),
            ("workgroup_sizing"@, ValueView::Str(f.1)),
            ("count_to_grid"@, ValueView::Str(f.2)),
            ("thread_mapping"@, ValueView::Str(f.3)),
            ("addressing_rule"@, ValueView::Str(f.4)),
        ],
    }
}

/// No declared field value holds an LF (a field line ends at its LF).
pub open spec fn model_renderable(m: ModelView) -> bool {
    match m {
        ModelView::GeometryAgnostic => true,
        ModelView::Declared(f) => !f.0.contains('\n') && !f.1.contains('\n') && !f.2.contains('\n')
            && !f.3.contains('\n') && !f.4.contains('\n'),
    }
}

impl DispatchModel {
    /// Render the Dispatch section block (block id 4): the heading line, then
    /// either the five geometry fields in their pinned order or the single
    /// sentinel line `dispatch_model = geometry-agnostic`. The section is
    /// always present. No declared value may hold an LF.
    pub fn render_block(&self) -> (b: Vec<u8>)
        requires
            model_renderable(self@),
        ensures
            b@ == encode_utf8(block_chars(4, "dispatch"@, model_fields(self@))),
    {
        let fields: Vec<(&str, Value)> = match self {
            DispatchModel::GeometryAgnostic => {
                vec![("dispatch_model", Value::Str(string_from(GEOMETRY_AGNOSTIC_SENTINEL)))]
            },
            DispatchModel::Declared(f) => vec![
                ("invocation_domain", Value::Str(f.invocation_domain.clone())),
                ("workgroup_sizing", Value::Str(f.workgroup_sizing.clone())),
                ("count_to_grid", Value::Str(f.count_to_grid.clone())),
                ("thread_mapping", Value::Str(f.thread_mapping.clone())),
                ("addressing_rule", Value::Str(f.addressing_rule.clone())),
            ],
        };
        proof {
            reveal_strlit("geometry-agnostic");
        }
        assert(fields_view(fields@) =~= model_fields(self@));
        render_block(DISPATCH_SECTION_ID, DISPATCH_SECTION_NAME, fields.as_slice())
    }
}

// ---------------------------------------------------------------------------
// Parsing, as a specification.
// ---------------------------------------------------------------------------

/// The first index at or after `i` where `p` occurs in `s`.
pub open spec fn find_from(s: Seq<char>, p: Seq<char>, i: int) -> Option<int>
    decreases s.len() - i + 1,
{
    if i < 0 || i + p.len() > s.len() {
        None
    } else if s.subrange(i, i + p.len()) == p {
        Some(i)
    } else {
        find_from(s, p, i + 1)
    }
}

/// What `find_from` finds: the first match at or after `i`, or none at all.
pub proof fn lemma_find_from(s: Seq<char>, p: Seq<char>, i: int)
    requires
        0 <= i,
    ensures
        match find_from(s, p, i) {
            Some(j) => i <= j && j + p.len() <= s.len() && s.subrange(j, j + p.len()) == p
                && forall|k: int| i <= k < j ==> #[trigger] s.subrange(k, k + p.len()) != p,
            None => forall|k: int| i <= k && k + p.len() <= s.len() ==> #[trigger] s.subrange(k, k + p.len()) != p,
        },
    decreases s.len() - i + 1,
{
    if i + p.len() <= s.len() && s.subrange(i, i + p.len()) != p {
        lemma_find_from(s, p, i + 1);
    }
}

/// The first index where `p` occurs in `s`.
pub open spec fn find_sub(s: Seq<char>, p: Seq<char>) -> Option<int> {
    find_from(s, p, 0)
}

/// A `key = value` line split at its first ` = `.
pub open spec fn field_of(line: Seq<char>) -> Option<(Seq<char>, Seq<char>)> {
    match find_sub(line, " = "@) {
        Some(i) => Some((line.take(i), line.skip(i + 3))),
        None => None,
    }
}

/// The field lines of a block body, empty lines skipped; the first line that
/// is not a field line is the error.
pub open spec fn scan_fields(ls: Seq<Seq<char>>) -> Result<Seq<(Seq<char>, Seq<char>)>, Seq<char>>
    decreases ls.len(),
{
    if ls.len() == 0 {
        Ok(seq![])
    } else {
        match scan_fields(ls.drop_last()) {
            Err(l) => Err(l),
            Ok(f) => {
                let l = ls.last();
                if l.len() == 0 {
                    Ok(f)
                } else {
                    match field_of(l) {
                        Some(kv) => Ok(f.push(kv)),
                        None => Err(l),
                    }
                }
            },
        }
    }
}

/// Once a prefix of the lines holds a malformed line, so does every extension.
proof fn lemma_scan_err_extends(ls: Seq<Seq<char>>, n: int)
    requires
        0 <= n <= ls.len(),
        scan_fields(ls.take(n)) is Err,
    ensures
        scan_fields(ls) == scan_fields(ls.take(n)),
    decreases ls.len(),
{
    if n < ls.len() {
        assert(ls.drop_last().take(n) == ls.take(n));
        lemma_scan_err_extends(ls.drop_last(), n);
    } else {
        assert(ls.take(n) == ls);
    }
}

/// Whether `k` is one of the five geometry keys.
pub open spec fn is_geometry_key(k: Seq<char>) -> bool {
    in_table(GEOMETRY_FIELD_KEYS@, k)
}

/// The first key of `f` other than `dispatch_model`, or the empty key.
pub open spec fn first_other_key(f: Seq<(Seq<char>, Seq<char>)>) -> Seq<char>
    decreases f.len(),
{
    if f.len() == 0 {
        seq![]
    } else if f[0].0 != "dispatch_model"@ {
        f[0].0
    } else {
        first_other_key(f.drop_first())
    }
}

/// The first key of `f` that is not a geometry key, if any.
pub open spec fn first_non_geometry(f: Seq<(Seq<char>, Seq<char>)>) -> Option<Seq<char>>
    decreases f.len(),
{
    if f.len() == 0 {
        None
    } else if !is_geometry_key(f[0].0) {
        Some(f[0].0)
    } else {
        first_non_geometry(f.drop_first())
    }
}

/// The sentinel arm: exactly one field, `dispatch_model = geometry-agnostic`.
pub open spec fn sentinel_arm(f: Seq<(Seq<char>, Seq<char>)>) -> Result<ModelView, DeclineView> {
    if exists|k: int| 0 <= k < f.len() && is_geometry_key(#[trigger] f[k].0) {
        Err(DeclineView::SentinelWithGeometry)
    } else if f.len() != 1 || f[0].0 != "dispatch_model"@ {
        Err(DeclineView::UnknownField(first_other_key(f)))
    } else if f[0].1 != "geometry-agnostic"@ {
        Err(DeclineView::BadSentinelValue(f[0].1))
    } else {
        Ok(ModelView::GeometryAgnostic)
    }
}

/// The geometry arm: exactly the five keys, in their pinned order.
pub open spec fn geometry_arm(f: Seq<(Seq<char>, Seq<char>)>) -> Result<ModelView, DeclineView> {
    match first_non_geometry(f) {
        Some(k) => Err(DeclineView::UnknownField(k)),
        None => if f.len() != 5 || f.map_values(|kv: (Seq<char>, Seq<char>)| kv.0) != GEOMETRY_FIELD_KEYS@.map_values(|k: &str| k@) {
            Err(DeclineView::PartialGeometry)
        } else {
            Ok(ModelView::Declared((f[0].1, f[1].1, f[2].1, f[3].1, f[4].1)))
        },
    }
}

/// A Dispatch block's text parsed: the heading line, then the field lines of
/// exactly one arm.
pub open spec fn parse_block_text(text: Seq<char>) -> Result<ModelView, DeclineView> {
    let ls = lines_of(text);
    if ls.len() == 0 || ls[0] != "[section:4:dispatch]"@ {
        Err(DeclineView::BadHeading)
    } else {
        match scan_fields(ls.drop_first()) {
            Err(l) => Err(DeclineView::MalformedLine(l)),
            Ok(f) => if f.len() == 0 {
                Err(DeclineView::Empty)
            } else if exists|k: int| 0 <= k < f.len() && #[trigger] f[k].0 == "dispatch_model"@ {
                sentinel_arm(f)
            } else {
                geometry_arm(f)
            },
        }
    }
}

/// A Dispatch block's bytes parsed (invalid UTF-8 has no heading).
pub open spec fn parse_block_spec(block: Seq<u8>) -> Result<ModelView, DeclineView> {
    if !valid_utf8(block) {
        Err(DeclineView::BadHeading)
    } else {
        parse_block_text(decode_utf8(block))
    }
}

/// The view of a parse result.
pub open spec fn result_view(r: Result<DispatchModel, DispatchDecline>) -> Result<ModelView, DeclineView> {
    match r {
        Ok(m) => Ok(m@),
        Err(d) => Err(d@),
    }
}

// ---------------------------------------------------------------------------
// Parsing, executable.
// ---------------------------------------------------------------------------

/// The first index at or after `from` where `p` occurs in `s`.
fn find_chars(s: &[char], p: &[char], from: usize) -> (r: Option<usize>)
    requires
        from <= s@.len(),
    ensures
        match find_from(s@, p@, from as int) {
            Some(i) => r == Some(i as usize),
            None => r is None,
        },
        r matches Some(j) ==> j + p@.len() <= s@.len(),
    decreases s@.len() - from,
{
    let n = s.len();
    if p.len() > n - from {
        return None;
    }
    let mut k: usize = 0;
    while k < p.len()
        invariant
            n == s@.len(),
            from + p@.len() <= n,
            k <= p@.len(),
            forall|j: int| 0 <= j < k ==> s@[from + j] == p@[j],
        decreases p.len() - k,
    {
        if s[from + k] != p[k] {
            assert(s@.subrange(from as int, from + p@.len())[k as int] != p@[k as int]);
            return find_chars(s, p, from + 1);
        }
        k += 1;
    }
    assert(s@.subrange(from as int, from + p@.len()) =~= p@);
    Some(from)
}

fn take_chars(s: &[char], n: usize) -> (v: Vec<char>)
    requires
        n <= s@.len(),
    ensures
        v@ == s@.take(n as int),
{
    let mut v: Vec<char> = Vec::new();
    let mut i: usize = 0;
    while i < n
        invariant
            n <= s@.len(),
            i <= n,
            v@ == s@.take(i as int),
        decreases n - i,
    {
        v.push(s[i]);
        i += 1;
        assert(s@.take(i as int) == s@.take(i - 1).push(s@[i - 1]));
    }
    v
}

fn skip_chars(s: &[char], n: usize) -> (v: Vec<char>)
    requires
        n <= s@.len(),
    ensures
        v@ == s@.skip(n as int),
{
    crate::text::chars_skip(s, n)
}

/// One `key = value` field line split at its first ` = `.
fn split_field(line: &[char]) -> (r: Option<(String, String)>)
    ensures
        match field_of(line@) {
            Some(kv) => r matches Some(p) && p.0@ == kv.0 && p.1@ == kv.1,
            None => r is None,
        },
{
    let sep = chars_of(" = ");
    proof {
        reveal_strlit(" = ");
        lemma_find_from(line@, sep@, 0);
    }
    assert(sep@.len() == 3);
    let n = line.len();
    match find_chars(line, sep.as_slice(), 0) {
        Some(i) => {
            let k = take_chars(line, i);
            let v = skip_chars(line, i + 3);
            Some((string_of(k.as_slice()), string_of(v.as_slice())))
        },
        None => None,
    }
}

/// The field pairs as character sequences.
pub open spec fn pairs_view(f: Seq<(String, String)>) -> Seq<(Seq<char>, Seq<char>)> {
    f.map_values(|kv: (String, String)| (kv.0@, kv.1@))
}

/// Parse the heading and field lines of a block's text.
fn parse_fields(text: &[char]) -> (r: Result<Vec<(String, String)>, DispatchDecline>)
    ensures
        ({
            let ls = lines_of(text@);
            if ls.len() == 0 || ls[0] != "[section:4:dispatch]"@ {
                r matches Err(d) && d@ == DeclineView::BadHeading
            } else {
                match scan_fields(ls.drop_first()) {
                    Err(l) => r matches Err(d) && d@ == DeclineView::MalformedLine(l),
                    Ok(f) => if f.len() == 0 {
                        r matches Err(d) && d@ == DeclineView::Empty
                    } else {
                        r matches Ok(v) && pairs_view(v@) == f
                    },
                }
            }
        }),
{
    let ls = lines(text);
    let ghost lv = lines_of(text@);
    assert(chars_vv(ls@) == lv);
    let heading = chars_of("[section:4:dispatch]");
    if ls.len() == 0 || !crate::text::chars_eq(ls[0].as_slice(), heading.as_slice()) {
        assert(ls.len() > 0 ==> ls@[0]@ == lv[0]);
        return Err(DispatchDecline::BadHeading);
    }
    assert(ls@[0]@ == lv[0]);
    let ghost rest = lv.drop_first();
    let mut fields: Vec<(String, String)> = Vec::new();
    let mut i: usize = 1;
    assert(rest.take(0) =~= Seq::<Seq<char>>::empty());
    assert(pairs_view(fields@) =~= Seq::<(Seq<char>, Seq<char>)>::empty());
    while i < ls.len()
        invariant
            1 <= i <= ls@.len(),
            chars_vv(ls@) == lv,
            lv == lines_of(text@),
            lv.len() > 0,
            lv[0] == "[section:4:dispatch]"@,
            rest == lv.drop_first(),
            scan_fields(rest.take(i - 1)) == Ok::<Seq<(Seq<char>, Seq<char>)>, Seq<char>>(pairs_view(fields@)),
        decreases ls.len() - i,
    {
        let line = &ls[i];
        assert(line@ == rest[i - 1]);
        assert(rest.take(i as int).drop_last() == rest.take(i - 1));
        assert(rest.take(i as int).last() == rest[i - 1]);
        if line.len() > 0 {
            match split_field(line.as_slice()) {
                Some(kv) => {
                    let ghost before = fields@;
                    fields.push(kv);
                    assert(pairs_view(fields@) =~= pairs_view(before).push((kv.0@, kv.1@)));
                },
                None => {
                    proof {
                        assert(scan_fields(rest.take(i as int)) == Err::<Seq<(Seq<char>, Seq<char>)>, Seq<char>>(line@));
                        lemma_scan_err_extends(rest, i as int);
                    }
                    return Err(DispatchDecline::MalformedLine(string_of(line.as_slice())));
                },
            }
        }
        i += 1;
    }
    assert(rest.take(ls@.len() - 1) == rest);
    if fields.len() == 0 {
        return Err(DispatchDecline::Empty);
    }
    Ok(fields)
}

fn is_geometry_key_exec(k: &String) -> (r: bool)
    ensures
        r == is_geometry_key(k@),
{
    table_contains(&GEOMETRY_FIELD_KEYS, k.as_str())
}

fn sentinel_arm_exec(fields: &[(String, String)]) -> (r: Result<DispatchModel, DispatchDecline>)
    ensures
        result_view(r) == sentinel_arm(pairs_view(fields@)),
{
    let ghost f = pairs_view(fields@);
    let mut i: usize = 0;
    while i < fields.len()
        invariant
            i <= fields@.len(),
            f == pairs_view(fields@),
            forall|k: int| 0 <= k < i ==> !is_geometry_key(#[trigger] f[k].0),
        decreases fields.len() - i,
    {
        assert(f[i as int].0 == fields@[i as int].0@);
        if is_geometry_key_exec(&fields[i].0) {
            return Err(DispatchDecline::SentinelWithGeometry);
        }
        i += 1;
    }
    if fields.len() != 1 || !crate::text::str_eq(fields[0].0.as_str(), "dispatch_model") {
        assert(fields@.len() >= 1 ==> f[0].0 == fields@[0].0@);
        // the first key other than `dispatch_model`, or the empty key
        let mut j: usize = 0;
        assert(f.skip(0) == f);
        while j < fields.len()
            invariant
                j <= fields@.len(),
                f == pairs_view(fields@),
                first_other_key(f) == first_other_key(f.skip(j as int)),
                forall|k: int| 0 <= k < f.len() ==> !is_geometry_key(#[trigger] f[k].0),
                f.len() != 1 || f[0].0 != "dispatch_model"@,
            decreases fields.len() - j,
        {
            assert(f.skip(j as int)[0] == f[j as int]);
            assert(f.skip(j as int).drop_first() == f.skip(j + 1));
            assert(f[j as int].0 == fields@[j as int].0@);
            if !crate::text::str_eq(fields[j].0.as_str(), "dispatch_model") {
                assert(first_other_key(f.skip(j as int)) == f[j as int].0);
                return Err(DispatchDecline::UnknownField(fields[j].0.clone()));
            }
            j += 1;
        }
        assert(f.skip(j as int).len() == 0);
        return Err(DispatchDecline::UnknownField(String::new()));
    }
    assert(f[0].0 == fields@[0].0@ && f[0].1 == fields@[0].1@);
    if !crate::text::str_eq(fields[0].1.as_str(), GEOMETRY_AGNOSTIC_SENTINEL) {
        return Err(DispatchDecline::BadSentinelValue(fields[0].1.clone()));
    }
    Ok(DispatchModel::GeometryAgnostic)
}

fn geometry_arm_exec(fields: &[(String, String)]) -> (r: Result<DispatchModel, DispatchDecline>)
    ensures
        result_view(r) == geometry_arm(pairs_view(fields@)),
{
    let ghost f = pairs_view(fields@);
    let mut i: usize = 0;
    assert(f.skip(0) == f);
    while i < fields.len()
        invariant
            i <= fields@.len(),
            f == pairs_view(fields@),
            first_non_geometry(f) == first_non_geometry(f.skip(i as int)),
        decreases fields.len() - i,
    {
        assert(f.skip(i as int)[0] == f[i as int]);
        assert(f.skip(i as int).drop_first() == f.skip(i + 1));
        assert(f[i as int].0 == fields@[i as int].0@);
        if !is_geometry_key_exec(&fields[i].0) {
            return Err(DispatchDecline::UnknownField(fields[i].0.clone()));
        }
        i += 1;
    }
    assert(f.skip(i as int).len() == 0);
    let ghost keys = f.map_values(|kv: (Seq<char>, Seq<char>)| kv.0);
    let ghost want = GEOMETRY_FIELD_KEYS@.map_values(|k: &str| k@);
    if fields.len() != 5 {
        assert(keys.len() != want.len());
        return Err(DispatchDecline::PartialGeometry);
    }
    let mut k: usize = 0;
    while k < 5
        invariant
            fields@.len() == 5,
            f == pairs_view(fields@),
            keys == f.map_values(|kv: (Seq<char>, Seq<char>)| kv.0),
            want == GEOMETRY_FIELD_KEYS@.map_values(|k: &str| k@),
            first_non_geometry(f) is None,
            k <= 5,
            forall|j: int| 0 <= j < k ==> keys[j] == want[j],
        decreases 5 - k,
    {
        assert(keys[k as int] == fields@[k as int].0@);
        assert(want[k as int] == GEOMETRY_FIELD_KEYS@[k as int]@);
        if !crate::text::str_eq(fields[k].0.as_str(), GEOMETRY_FIELD_KEYS[k]) {
            assert(keys != want);
            return Err(DispatchDecline::PartialGeometry);
        }
        k += 1;
    }
    assert(keys =~= want);
    assert(f[0].1 == fields@[0].1@ && f[1].1 == fields@[1].1@ && f[2].1 == fields@[2].1@
        && f[3].1 == fields@[3].1@ && f[4].1 == fields@[4].1@);
    Ok(DispatchModel::Declared(DispatchFields {
        invocation_domain: fields[0].1.clone(),
        workgroup_sizing: fields[1].1.clone(),
        count_to_grid: fields[2].1.clone(),
        thread_mapping: fields[3].1.clone(),
        addressing_rule: fields[4].1.clone(),
    }))
}

fn parse_block_chars(text: &[char]) -> (r: Result<DispatchModel, DispatchDecline>)
    ensures
        result_view(r) == parse_block_text(text@),
{
    let fields = match parse_fields(text) {
        Ok(f) => f,
        Err(d) => return Err(d),
    };
    let ghost f = pairs_view(fields@);
    let mut i: usize = 0;
    let mut has_dm = false;
    while i < fields.len() && !has_dm
        invariant
            i <= fields@.len(),
            f == pairs_view(fields@),
            has_dm ==> i < fields@.len() && f[i as int].0 == "dispatch_model"@,
            !has_dm ==> forall|k: int| 0 <= k < i ==> #[trigger] f[k].0 != "dispatch_model"@,
        decreases fields.len() - i + (if has_dm { 0int } else { 1int }),
    {
        assert(f[i as int].0 == fields@[i as int].0@);
        if crate::text::str_eq(fields[i].0.as_str(), "dispatch_model") {
            has_dm = true;
        } else {
            i += 1;
        }
    }
    if has_dm {
        sentinel_arm_exec(fields.as_slice())
    } else {
        geometry_arm_exec(fields.as_slice())
    }
}

/// Parse a Dispatch section block, enforcing the either/or schema: exactly
/// the five geometry fields in order, or exactly the one
/// `dispatch_model = geometry-agnostic` line. A proper subset, a wrong order,
/// an unknown field, `dispatch_model` beside a geometry field, or a bad
/// sentinel value each declines — never a panic.
pub fn parse_dispatch_block(block: &[u8]) -> (r: Result<DispatchModel, DispatchDecline>)
    ensures
        result_view(r) == parse_block_spec(block@),
{
    let text = match utf8_decode(block) {
        Some(t) => t,
        None => return Err(DispatchDecline::BadHeading),
    };
    let cs = chars_of(text.as_str());
    parse_block_chars(cs.as_slice())
}


// ---------------------------------------------------------------------------
// The Dispatch block inside a whole document.
// ---------------------------------------------------------------------------

/// The Dispatch heading line, with its LF.
pub open spec fn heading_line() -> Seq<char> {
    "[section:4:dispatch]\n"@
}

/// Where the Dispatch block starts: the heading at the start of the body or
/// right after an LF.
pub open spec fn block_start(text: Seq<char>) -> Option<int> {
    if crate::text::starts_with(text, heading_line()) {
        Some(0)
    } else {
        match find_sub(text, "\n"@ + heading_line()) {
            Some(i) => Some(i + 1),
            None => None,
        }
    }
}

/// The Dispatch block of a document body parsed: from its heading to the next
/// line-anchored section heading or the end of the body.
pub open spec fn parse_document_text(text: Seq<char>) -> Result<ModelView, DeclineView> {
    match block_start(text) {
        None => Err(DeclineView::MissingSection),
        Some(st) => {
            let after = st + heading_line().len();
            let end = match find_sub(text.skip(after), "\n[section:"@) {
                Some(i) => after + i,
                None => text.len() as int,
            };
            parse_block_text(text.subrange(st, end))
        },
    }
}

/// A document body's Dispatch block parsed (invalid UTF-8 has no heading).
pub open spec fn parse_document_spec(body: Seq<u8>) -> Result<ModelView, DeclineView> {
    if !valid_utf8(body) {
        Err(DeclineView::BadHeading)
    } else {
        parse_document_text(decode_utf8(body))
    }
}

/// Extract the `[section:4:dispatch]` block from a whole contract document
/// body and parse it. The block runs from its line-anchored heading to the
/// next line-anchored `[section:` heading or the end of the body. A body with
/// no Dispatch block declines `MissingSection`: the block must be present.
pub fn parse_dispatch_from_document(body: &[u8]) -> (r: Result<DispatchModel, DispatchDecline>)
    ensures
        result_view(r) == parse_document_spec(body@),
{
    let text = match utf8_decode(body) {
        Some(t) => t,
        None => return Err(DispatchDecline::BadHeading),
    };
    let cs = chars_of(text.as_str());
    let h = chars_of("[section:4:dispatch]\n");
    let nh = chars_of("\n[section:4:dispatch]\n");
    let next = chars_of("\n[section:");
    proof {
        reveal_strlit("[section:4:dispatch]\n");
        reveal_strlit("\n[section:4:dispatch]\n");
        reveal_strlit("\n");
        assert(nh@ =~= "\n"@ + heading_line());
        lemma_find_from(cs@, nh@, 0);
    }
    let n = cs.len();
    let start: usize = if crate::text::chars_start_with(cs.as_slice(), h.as_slice()) {
        0
    } else {
        match find_chars(cs.as_slice(), nh.as_slice(), 0) {
            Some(i) => i + 1,
            None => return Err(DispatchDecline::MissingSection),
        }
    };
    assert(start + h@.len() <= n);
    let after = start + h.len();
    let tail = skip_chars(cs.as_slice(), after);
    proof {
        lemma_find_from(tail@, next@, 0);
    }
    let end: usize = match find_chars(tail.as_slice(), next.as_slice(), 0) {
        Some(i) => after + i,
        None => n,
    };
    let upto = take_chars(cs.as_slice(), end);
    let block = skip_chars(upto.as_slice(), start);
    assert(block@ =~= cs@.subrange(start as int, end as int));
    parse_block_chars(block.as_slice())
}

// ---------------------------------------------------------------------------
// Thread-index freedom and validation.
// ---------------------------------------------------------------------------

/// An identifier character: ASCII alphanumeric or `_`.
pub open spec fn word_char(c: char) -> bool {
    ('a' <= c && c <= 'z') || ('A' <= c && c <= 'Z') || ('0' <= c && c <= '9') || c == '_'
}

/// ASCII lowercase of a character.
pub open spec fn lower(c: char) -> char {
    if 'A' <= c && c <= 'Z' { ((c as u32) + 32) as char } else { c }
}

/// The maximal identifier runs of `s` closed so far, and the one still open.
pub open spec fn token_scan(s: Seq<char>) -> (Seq<Seq<char>>, Seq<char>)
    decreases s.len(),
{
    if s.len() == 0 {
        (seq![], seq![])
    } else {
        let (out, cur) = token_scan(s.drop_last());
        let c = s.last();
        if word_char(c) {
            (out, cur.push(lower(c)))
        } else if cur.len() > 0 {
            (out.push(cur), seq![])
        } else {
            (out, cur)
        }
    }
}

/// The lowercased identifier tokens of an expression (maximal runs of
/// `[A-Za-z0-9_]`), pure-numeric tokens dropped.
pub open spec fn ident_tokens_of(s: Seq<char>) -> Seq<Seq<char>> {
    let (out, cur) = token_scan(s);
    let all = if cur.len() > 0 { out.push(cur) } else { out };
    all.filter(|t: Seq<char>| !crate::text::all_digits(t))
}

/// Whether a token is a reserved per-thread index symbol or mapping form.
pub open spec fn reserved_token(t: Seq<char>) -> bool {
    in_table(RESERVED_THREAD_INDEX_SYMBOLS@, t) || in_table(RESERVED_MAPPING_FORMS@, t)
}

/// An expression is thread-index-free when none of its tokens is reserved.
pub open spec fn thread_index_free(expr: Seq<char>) -> bool {
    forall|i: int| 0 <= i < ident_tokens_of(expr).len() ==> !reserved_token(#[trigger] ident_tokens_of(expr)[i])
}

fn is_word(c: char) -> (r: bool)
    ensures
        r == word_char(c),
{
    ('a' <= c && c <= 'z') || ('A' <= c && c <= 'Z') || ('0' <= c && c <= '9') || c == '_'
}

fn to_lower(c: char) -> (r: char)
    ensures
        r == lower(c),
{
    if 'A' <= c && c <= 'Z' {
        let b: u8 = (c as u8) + 32;
        b as char
    } else {
        c
    }
}

fn digits_only(t: &[char]) -> (r: bool)
    ensures
        r == crate::text::all_digits(t@),
{
    let mut i: usize = 0;
    while i < t.len()
        invariant
            i <= t@.len(),
            forall|j: int| 0 <= j < i ==> crate::text::is_digit_char(#[trigger] t@[j]),
        decreases t.len() - i,
    {
        if !('0' <= t[i] && t[i] <= '9') {
            return false;
        }
        i += 1;
    }
    true
}

fn ident_tokens(expr: &str) -> (v: Vec<String>)
    ensures
        v@.map_values(|t: String| t@) == ident_tokens_of(expr@),
{
    let cs = chars_of(expr);
    let mut out: Vec<Vec<char>> = Vec::new();
    let mut cur: Vec<char> = Vec::new();
    let mut i: usize = 0;
    while i < cs.len()
        invariant
            i <= cs@.len(),
            cs@ == expr@,
            token_scan(cs@.take(i as int)) == (chars_vv(out@), cur@),
        decreases cs.len() - i,
    {
        assert(cs@.take(i + 1).drop_last() == cs@.take(i as int));
        let c = cs[i];
        if is_word(c) {
            cur.push(to_lower(c));
        } else if cur.len() > 0 {
            let ghost ov = chars_vv(out@);
            out.push(cur);
            assert(chars_vv(out@) =~= ov.push(cur@));
            cur = Vec::new();
            assert(cur@ =~= Seq::<char>::empty());
        }
        i += 1;
    }
    assert(cs@.take(cs@.len() as int) == cs@);
    if cur.len() > 0 {
        let ghost ov = chars_vv(out@);
        out.push(cur);
        assert(chars_vv(out@) =~= ov.push(cur@));
    }
    let ghost all = chars_vv(out@);
    let mut res: Vec<String> = Vec::new();
    let mut k: usize = 0;
    while k < out.len()
        invariant
            k <= out@.len(),
            all == chars_vv(out@),
            res@.map_values(|t: String| t@) == all.take(k as int).filter(|t: Seq<char>| !crate::text::all_digits(t)),
        decreases out.len() - k,
    {
        proof {
            assert(all.take(k + 1).drop_last() == all.take(k as int));
            reveal_with_fuel(Seq::filter, 1);
        }
        assert(out@[k as int]@ == all[k as int]);
        if !digits_only(out[k].as_slice()) {
            let ghost rv = res@.map_values(|t: String| t@);
            res.push(string_of(out[k].as_slice()));
            assert(res@.map_values(|t: String| t@) =~= rv.push(all[k as int]));
        }
        k += 1;
    }
    assert(all.take(out@.len() as int) == all);
    res
}

/// True iff `expr` references no reserved per-thread index symbol and no
/// reserved mapping form: a v1 thread-index-free declaration. Tokens are
/// word-boundaried, so `idx_extents` is not the `idx` of a thread index.
pub fn is_thread_index_free(expr: &str) -> (r: bool)
    ensures
        r == thread_index_free(expr@),
{
    let toks = ident_tokens(expr);
    let ghost tv = toks@.map_values(|t: String| t@);
    let mut i: usize = 0;
    while i < toks.len()
        invariant
            i <= toks@.len(),
            tv == toks@.map_values(|t: String| t@),
            tv == ident_tokens_of(expr@),
            forall|j: int| 0 <= j < i ==> !reserved_token(#[trigger] tv[j]),
        decreases toks.len() - i,
    {
        assert(tv[i as int] == toks@[i as int]@);
        if table_contains(&RESERVED_THREAD_INDEX_SYMBOLS, toks[i].as_str())
            || table_contains(&RESERVED_MAPPING_FORMS, toks[i].as_str()) {
            return false;
        }
        i += 1;
    }
    true
}

/// The message for a declared field that is empty (all whitespace).
pub open spec fn partial_message(name: Seq<char>) -> Seq<char> {
    "§6.6-0007: partial Dispatch section — `"@ + name
        + "` is empty; declare all five fields or carry the `dispatch_model = geometry-agnostic` sentinel line"@
}

/// The message for a mapping field that references a reserved symbol.
pub open spec fn thread_index_message(name: Seq<char>) -> Seq<char> {
    "§6.6-0004/-0008: `"@ + name
        + "` references a per-thread index / reserved mapping symbol — the v1 grammar is thread-index-free; the per-thread index is the grid-stride semantic, and the richer form is reserved post-v1"@
}

/// What validating a model gives: the geometry-agnostic model always passes;
/// a declared one fails at its first blank field, then at the first mapping
/// field that is not thread-index-free.
pub open spec fn validation_error(m: ModelView) -> Option<Seq<char>> {
    match m {
        ModelView::GeometryAgnostic => None,
        ModelView::Declared(f) => if blank(f.0) {
            Some(partial_message("invocation_domain"@))
        } else if blank(f.1) {
            Some(partial_message("workgroup_sizing"@))
        } else if blank(f.2) {
            Some(partial_message("count_to_grid"@))
        } else if blank(f.3) {
            Some(partial_message("thread_mapping"@))
        } else if blank(f.4) {
            Some(partial_message("addressing_rule"@))
        } else if !thread_index_free(f.3) {
            Some(thread_index_message("thread_mapping"@))
        } else if !thread_index_free(f.4) {
            Some(thread_index_message("addressing_rule"@))
        } else {
            None
        },
    }
}

fn partial_error(name: &str) -> (s: String)
    ensures
        s@ == partial_message(name@),
{
    let mut s = String::new();
    push_str(&mut s, "§6.6-0007: partial Dispatch section — `");
    push_str(&mut s, name);
    push_str(&mut s, "` is empty; declare all five fields or carry the `dispatch_model = geometry-agnostic` sentinel line");
    s
}

fn thread_index_error(name: &str) -> (s: String)
    ensures
        s@ == thread_index_message(name@),
{
    let mut s = String::new();
    push_str(&mut s, "§6.6-0004/-0008: `");
    push_str(&mut s, name);
    push_str(&mut s, "` references a per-thread index / reserved mapping symbol — the v1 grammar is thread-index-free; the per-thread index is the grid-stride semantic, and the richer form is reserved post-v1");
    s
}

impl DispatchModel {
    /// Validate the Dispatch model: the geometry-agnostic model is always
    /// accepted; a declared one needs every field non-blank (no partial
    /// section) and `thread_mapping` / `addressing_rule` thread-index-free.
    pub fn validate(&self) -> (r: Result<(), String>)
        ensures
            match validation_error(self@) {
                None => r is Ok,
                Some(e) => r matches Err(m) && m@ == e,
            },
    {
        let f = match self {
            DispatchModel::GeometryAgnostic => return Ok(()),
            DispatchModel::Declared(f) => f,
        };
        if is_blank(f.invocation_domain.as_str()) {
            return Err(partial_error("invocation_domain"));
        }
        if is_blank(f.workgroup_sizing.as_str()) {
            return Err(partial_error("workgroup_sizing"));
        }
        if is_blank(f.count_to_grid.as_str()) {
            return Err(partial_error("count_to_grid"));
        }
        if is_blank(f.thread_mapping.as_str()) {
            return Err(partial_error("thread_mapping"));
        }
        if is_blank(f.addressing_rule.as_str()) {
            return Err(partial_error("addressing_rule"));
        }
        if !is_thread_index_free(f.thread_mapping.as_str()) {
            return Err(thread_index_error("thread_mapping"));
        }
        if !is_thread_index_free(f.addressing_rule.as_str()) {
            return Err(thread_index_error("addressing_rule"));
        }
        Ok(())
    }
}


// ---------------------------------------------------------------------------
// Rendering then parsing gives the model back.
// ---------------------------------------------------------------------------

/// No declared value ends in a CR (a line reader drops a CR before the LF).
pub open spec fn no_trailing_cr(m: ModelView) -> bool {
    match m {
        ModelView::GeometryAgnostic => true,
        ModelView::Declared(f) => (f.0.len() == 0 || f.0.last() != '\r') && (f.1.len() == 0 || f.1.last() != '\r')
            && (f.2.len() == 0 || f.2.last() != '\r') && (f.3.len() == 0 || f.3.last() != '\r')
            && (f.4.len() == 0 || f.4.last() != '\r'),
    }
}

/// Lines, each followed by an LF.
pub open spec fn lf_join(ls: Seq<Seq<char>>) -> Seq<char>
    decreases ls.len(),
{
    if ls.len() == 0 {
        seq![]
    } else {
        ls[0] + seq!['\n'] + lf_join(ls.drop_first())
    }
}

proof fn lemma_split_lf_join(ls: Seq<Seq<char>>, tail: Seq<char>)
    requires
        forall|i: int| 0 <= i < ls.len() ==> !(#[trigger] ls[i]).contains('\n'),
    ensures
        crate::text::split_seq(lf_join(ls) + tail, '\n') == ls + crate::text::split_seq(tail, '\n'),
    decreases ls.len(),
{
    if ls.len() > 0 {
        let rest = ls.drop_first();
        assert forall|i: int| 0 <= i < rest.len() implies !(#[trigger] rest[i]).contains('\n') by {
            assert(rest[i] == ls[i + 1]);
        }
        lemma_split_lf_join(rest, tail);
        assert(lf_join(ls) + tail =~= ls[0] + seq!['\n'] + (lf_join(rest) + tail));
        crate::text::lemma_split_concat(ls[0], '\n', lf_join(rest) + tail);
        crate::text::lemma_split_none(ls[0], '\n');
        assert(seq![ls[0]] + (rest + crate::text::split_seq(tail, '\n')) =~= ls + crate::text::split_seq(tail, '\n'));
    }
}

proof fn lemma_lines_of_lf_join(ls: Seq<Seq<char>>)
    requires
        forall|i: int| 0 <= i < ls.len() ==> !(#[trigger] ls[i]).contains('\n'),
        forall|i: int| 0 <= i < ls.len() ==> (#[trigger] ls[i]).len() == 0 || ls[i].last() != '\r',
    ensures
        lines_of(lf_join(ls)) == ls,
{
    lemma_split_lf_join(ls, seq![]);
    assert(lf_join(ls) + seq![] =~= lf_join(ls));
    let parts = crate::text::split_seq(lf_join(ls), '\n');
    assert(crate::text::split_seq(Seq::<char>::empty(), '\n') =~= seq![Seq::<char>::empty()]);
    assert(parts == ls + seq![Seq::<char>::empty()]);
    assert(parts.drop_last() =~= ls);
    assert(lines_of(lf_join(ls)) =~= ls);
}

proof fn lemma_find_first(s: Seq<char>, p: Seq<char>, i: int, m: int)
    requires
        0 <= i <= m,
        m + p.len() <= s.len(),
        s.subrange(m, m + p.len()) == p,
        forall|j: int| i <= j < m ==> #[trigger] s.subrange(j, j + p.len()) != p,
    ensures
        find_from(s, p, i) == Some(m),
    decreases m - i,
{
    if i < m {
        lemma_find_first(s, p, i + 1, m);
    }
}

proof fn lemma_field_of(k: Seq<char>, v: Seq<char>)
    requires
        !k.contains(' '),
    ensures
        field_of(k + " = "@ + v) == Some((k, v)),
{
    reveal_strlit(" = ");
    let s = k + " = "@ + v;
    assert forall|j: int| 0 <= j < k.len() implies #[trigger] s.subrange(j, j + 3) != " = "@ by {
        assert(s.subrange(j, j + 3)[0] == k[j]);
        assert(k[j] != ' ');
    }
    assert(s.subrange(k.len() as int, k.len() as int + 3) =~= " = "@);
    lemma_find_first(s, " = "@, 0, k.len() as int);
    assert(s.take(k.len() as int) =~= k);
    assert(s.skip(k.len() as int + 3) =~= v);
}

proof fn lemma_scan_all(ls: Seq<Seq<char>>, pairs: Seq<(Seq<char>, Seq<char>)>)
    requires
        ls.len() == pairs.len(),
        forall|i: int| 0 <= i < ls.len() ==> (#[trigger] ls[i]).len() > 0 && field_of(ls[i]) == Some(pairs[i]),
    ensures
        scan_fields(ls) == Ok::<Seq<(Seq<char>, Seq<char>)>, Seq<char>>(pairs),
    decreases ls.len(),
{
    if ls.len() > 0 {
        let (a, b) = (ls.drop_last(), pairs.drop_last());
        assert forall|i: int| 0 <= i < a.len() implies (#[trigger] a[i]).len() > 0 && field_of(a[i]) == Some(b[i]) by {
            assert(a[i] == ls[i] && b[i] == pairs[i]);
        }
        lemma_scan_all(a, b);
        assert(ls[ls.len() - 1].len() > 0 && field_of(ls[ls.len() - 1]) == Some(pairs[pairs.len() - 1]));
        assert(b.push(pairs.last()) =~= pairs);
    } else {
        assert(pairs =~= Seq::<(Seq<char>, Seq<char>)>::empty());
    }
}

/// The lines of a rendered block: the heading, then one `key = value` line per
/// field.
pub open spec fn rendered_lines(m: ModelView) -> Seq<Seq<char>> {
    let f = model_fields(m);
    Seq::new(f.len() + 1, |i: int| if i == 0 { "[section:4:dispatch]"@ } else {
        f[i - 1].0 + " = "@ + crate::contract::value_chars(f[i - 1].1)
    })
}

proof fn lemma_rendered_lines(m: ModelView)
    requires
        model_renderable(m),
        no_trailing_cr(m),
    ensures
        lines_of(block_chars(4, "dispatch"@, model_fields(m))) == rendered_lines(m),
{
    let text = block_chars(4, "dispatch"@, model_fields(m));
    reveal_strlit("[section:4:dispatch]");
    reveal_strlit("[section:");
    reveal_strlit(":");
    reveal_strlit("dispatch");
    reveal_strlit("]\n");
    reveal_strlit("\n");
    reveal_strlit(" = ");
    reveal_strlit("geometry-agnostic");
    assert(crate::text::dec_chars(4) == seq!['4']);
    let h = "[section:4:dispatch]"@;
    assert("[section:"@ + crate::text::dec_chars(4) + ":"@ + "dispatch"@ + "]\n"@ =~= h + seq!['\n']);
    let f = model_fields(m);
    let ls = rendered_lines(m);
    reveal_strlit("dispatch_model");
    reveal_strlit("invocation_domain");
    reveal_strlit("workgroup_sizing");
    reveal_strlit("count_to_grid");
    reveal_strlit("thread_mapping");
    reveal_strlit("addressing_rule");
    assert(!"dispatch_model"@.contains('\n'));
    assert(!"invocation_domain"@.contains('\n'));
    assert(!"workgroup_sizing"@.contains('\n'));
    assert(!"count_to_grid"@.contains('\n'));
    assert(!"thread_mapping"@.contains('\n'));
    assert(!"addressing_rule"@.contains('\n'));
    assert(!"geometry-agnostic"@.contains('\n'));
    reveal_with_fuel(crate::contract::field_lines_chars, 6);
    reveal_with_fuel(lf_join, 7);
    assert(text =~= lf_join(ls));
    assert forall|i: int| 0 <= i < ls.len() implies !(#[trigger] ls[i]).contains('\n') by {
        if i > 0 {
            let k = f[i - 1].0;
            let v = crate::contract::value_chars(f[i - 1].1);
            assert(!k.contains('\n'));
            assert(!v.contains('\n'));
            if ls[i].contains('\n') {
                let j = choose|j: int| 0 <= j < ls[i].len() && ls[i][j] == '\n';
                if j < k.len() {
                    assert(k[j] == '\n');
                } else if j < k.len() + 3 {
                    assert(" = "@[j - k.len()] == '\n');
                } else {
                    assert(v[j - k.len() - 3] == '\n');
                }
            }
        } else {
            assert(!h.contains('\n'));
        }
    }
    assert forall|i: int| 0 <= i < ls.len() implies (#[trigger] ls[i]).len() == 0 || ls[i].last() != '\r' by {
        if i > 0 {
            let v = crate::contract::value_chars(f[i - 1].1);
            if v.len() > 0 {
                assert(ls[i].last() == v.last());
            } else {
                assert(ls[i].last() == ' ');
            }
        }
    }
    lemma_lines_of_lf_join(ls);
}

/// Rendering a Dispatch block and parsing it back gives the model back, for
/// every model whose declared values hold no LF and do not end in a CR (a
/// line reader drops a CR before the LF).
pub proof fn dispatch_block_roundtrip(m: ModelView)
    requires
        model_renderable(m),
        no_trailing_cr(m),
    ensures
        parse_block_spec(encode_utf8(block_chars(4, "dispatch"@, model_fields(m)))) == Ok::<ModelView, DeclineView>(m),
{
    let text = block_chars(4, "dispatch"@, model_fields(m));
    vstd::utf8::encode_utf8_valid_utf8(text);
    vstd::utf8::encode_utf8_decode_utf8(text);
    lemma_rendered_lines(m);
    reveal_strlit("dispatch_model");
    reveal_strlit("geometry-agnostic");
    reveal_strlit("invocation_domain");
    reveal_strlit("workgroup_sizing");
    reveal_strlit("count_to_grid");
    reveal_strlit("thread_mapping");
    reveal_strlit("addressing_rule");
    let f = model_fields(m);
    let ls = rendered_lines(m);
    let body = ls.drop_first();
    let pairs = Seq::new(f.len(), |i: int| (f[i].0, crate::contract::value_chars(f[i].1)));
    assert(!"dispatch_model"@.contains(' '));
    assert(!"invocation_domain"@.contains(' '));
    assert(!"workgroup_sizing"@.contains(' '));
    assert(!"count_to_grid"@.contains(' '));
    assert(!"thread_mapping"@.contains(' '));
    assert(!"addressing_rule"@.contains(' '));
    assert forall|i: int| 0 <= i < body.len() implies (#[trigger] body[i]).len() > 0 && field_of(body[i]) == Some(pairs[i]) by {
        lemma_field_of(f[i].0, crate::contract::value_chars(f[i].1));
        assert(body[i] == f[i].0 + " = "@ + crate::contract::value_chars(f[i].1));
    }
    lemma_scan_all(body, pairs);
    match m {
        ModelView::GeometryAgnostic => {
            assert(pairs[0].0 == "dispatch_model"@);
            assert(!is_geometry_key(pairs[0].0)) by {
                if is_geometry_key(pairs[0].0) {
                    let i = choose|i: int| 0 <= i < 5 && (#[trigger] GEOMETRY_FIELD_KEYS@[i])@ == pairs[0].0;
                    assert(GEOMETRY_FIELD_KEYS@[i]@.len() != pairs[0].0.len() || GEOMETRY_FIELD_KEYS@[i]@[0] != pairs[0].0[0] || GEOMETRY_FIELD_KEYS@[i]@[1] != pairs[0].0[1]);
                }
            }
        },
        ModelView::Declared(v) => {
            assert forall|k: int| 0 <= k < 5 implies #[trigger] pairs[k].0 != "dispatch_model"@ by {
                assert(pairs[k].0.len() != 14 || pairs[k].0[0] != 'd');
            }
            assert(is_geometry_key(pairs[0].0) && GEOMETRY_FIELD_KEYS@[0]@ == pairs[0].0);
            assert(is_geometry_key(pairs[1].0) && GEOMETRY_FIELD_KEYS@[1]@ == pairs[1].0);
            assert(is_geometry_key(pairs[2].0) && GEOMETRY_FIELD_KEYS@[2]@ == pairs[2].0);
            assert(is_geometry_key(pairs[3].0) && GEOMETRY_FIELD_KEYS@[3]@ == pairs[3].0);
            assert(is_geometry_key(pairs[4].0) && GEOMETRY_FIELD_KEYS@[4]@ == pairs[4].0);
            reveal_with_fuel(first_non_geometry, 6);
            assert(pairs.drop_first().drop_first().drop_first().drop_first().drop_first().len() == 0);
            assert(first_non_geometry(pairs) is None);
            assert(pairs.map_values(|kv: (Seq<char>, Seq<char>)| kv.0) =~= GEOMETRY_FIELD_KEYS@.map_values(|k: &str| k@));
        },
    }
}

} // verus!
