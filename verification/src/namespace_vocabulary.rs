//! The envelope reader for a namespace capability-vocabulary manifest: it
//! checks that a manifest is a well-formed envelope of a recognized `kind`
//! naming a registered namespace, exposes the `vocabulary_version` gate, and,
//! for a producer, checks the generated vector coverage and the derivability
//! witnesses. The vocabulary content itself is never inspected.
//!
//! The registry of namespaces is an argument (its text), as is the manifest.

use vstd::prelude::*;
use crate::corpus::member;
use crate::json::{number_u64, parse, parse_spec, Json, JsonV};
use crate::text::{str_eq, string_from};

verus! {

/// The schema id every manifest carries.
pub const MANIFEST_SCHEMA: &'static str = "kiss-namespace-vocabulary-v1";

/// A typed decline from the envelope reader: never a panic.
#[derive(Debug, Clone, PartialEq, Eq)]
pub enum ManifestDecline {
    BadJson,
    NotAnObject,
    /// `schema` is not [`MANIFEST_SCHEMA`].
    UnknownSchema { got: String },
    /// A required envelope field is absent or the wrong type.
    MissingField(&'static str),
    /// `generated_from` is present but empty.
    EmptyProvenance,
    /// `kind` is a value this build does not recognize: declined, not guessed.
    UnrecognizedKind { got: String },
    /// `kind: enumerated` without a `members` array.
    EnumeratedMissingMembers,
    /// `kind: generated` producer check with no `vectors` array.
    GeneratedMissingVectors,
    /// An entry carries no derivability witness, or an empty one.
    EntryMissingWitness { token: String },
    /// A witness reference does not name its home, so it cannot be resolved.
    WitnessNotResolvable { token: String, reference: String },
    /// The manifest names no gate that evaluates its witnesses.
    NoWitnessGate,
    /// The `generated` vector set does not cover this canonicalization concern.
    GeneratedVectorsMissingPin(&'static str),
    /// `namespace` is not a namespace whose registry status is `registered`.
    UnregisteredNamespace { got: String },
    /// `vocabulary_version` is a number but not an unsigned integer.
    NonIntegerVersion { got: String },
    /// The consumer gate: the version is not the one this consumer was built for.
    VocabularyVersionMismatch { got: u64, built_for: u64 },
}

/// The content of a [`ManifestDecline`].
pub enum ManifestDeclineV {
    BadJson,
    NotAnObject,
    UnknownSchema { got: Seq<char> },
    MissingField(Seq<char>),
    EmptyProvenance,
    UnrecognizedKind { got: Seq<char> },
    EnumeratedMissingMembers,
    GeneratedMissingVectors,
    EntryMissingWitness { token: Seq<char> },
    WitnessNotResolvable { token: Seq<char>, reference: Seq<char> },
    NoWitnessGate,
    GeneratedVectorsMissingPin(Seq<char>),
    UnregisteredNamespace { got: Seq<char> },
    NonIntegerVersion { got: Seq<char> },
    VocabularyVersionMismatch { got: u64, built_for: u64 },
}

impl View for ManifestDecline {
    type V = ManifestDeclineV;

    open spec fn view(&self) -> ManifestDeclineV {
        match self {
            ManifestDecline::BadJson => ManifestDeclineV::BadJson,
            ManifestDecline::NotAnObject => ManifestDeclineV::NotAnObject,
            ManifestDecline::UnknownSchema { got } => ManifestDeclineV::UnknownSchema { got: got@ },
            ManifestDecline::MissingField(k) => ManifestDeclineV::MissingField(k@),
            ManifestDecline::EmptyProvenance => ManifestDeclineV::EmptyProvenance,
            ManifestDecline::UnrecognizedKind { got } => ManifestDeclineV::UnrecognizedKind { got: got@ },
            ManifestDecline::EnumeratedMissingMembers => ManifestDeclineV::EnumeratedMissingMembers,
            ManifestDecline::GeneratedMissingVectors => ManifestDeclineV::GeneratedMissingVectors,
            ManifestDecline::EntryMissingWitness { token } => ManifestDeclineV::EntryMissingWitness {
                token: token@,
            },
            ManifestDecline::WitnessNotResolvable { token, reference } => ManifestDeclineV::WitnessNotResolvable {
                token: token@,
                reference: reference@,
            },
            ManifestDecline::NoWitnessGate => ManifestDeclineV::NoWitnessGate,
            ManifestDecline::GeneratedVectorsMissingPin(p) => ManifestDeclineV::GeneratedVectorsMissingPin(p@),
            ManifestDecline::UnregisteredNamespace { got } => ManifestDeclineV::UnregisteredNamespace {
                got: got@,
            },
            ManifestDecline::NonIntegerVersion { got } => ManifestDeclineV::NonIntegerVersion { got: got@ },
            ManifestDecline::VocabularyVersionMismatch { got, built_for } =>
                ManifestDeclineV::VocabularyVersionMismatch { got: *got, built_for: *built_for },
        }
    }
}

/// The manifest kinds recognized at this schema version; `kind` is an open
/// set, and an unrecognized value is declined.
#[derive(Debug, Clone, Copy, PartialEq, Eq, Structural)]
pub enum Kind {
    Enumerated,
    Generated,
}

/// A validated manifest envelope: the gated and dispatch fields, and the
/// whole document for the production-half checks.
#[derive(Debug, PartialEq)]
pub struct Manifest {
    pub namespace: String,
    pub vocabulary_version: u64,
    pub generated_from: String,
    pub kind: Kind,
    raw: Json,
}

/// The content of a [`Manifest`].
pub struct ManifestV {
    pub namespace: Seq<char>,
    pub vocabulary_version: u64,
    pub generated_from: Seq<char>,
    pub kind: Kind,
    pub raw: JsonV,
}

impl View for Manifest {
    type V = ManifestV;

    /// The fields and the whole document (closed: the document is private,
    /// so only [`validate_envelope`] makes a manifest).
    closed spec fn view(&self) -> ManifestV {
        ManifestV {
            namespace: self.namespace@,
            vocabulary_version: self.vocabulary_version,
            generated_from: self.generated_from@,
            kind: self.kind,
            raw: self.raw@,
        }
    }
}

/// A member that is a string.
pub open spec fn member_str(o: JsonV, k: Seq<char>) -> Option<Seq<char>> {
    match member(o, k) {
        Some(JsonV::Str(s)) => Some(s),
        _ => None,
    }
}

/// A registry row that registers `ns`.
pub open spec fn row_registers(row: JsonV, ns: Seq<char>) -> bool {
    member_str(row, "namespace"@) == Some(ns) && member_str(row, "status"@) == Some("registered"@)
}

/// The rows of the registry text's `namespaces` array, if it has one.
pub open spec fn registry_rows(registry: Seq<char>) -> Option<Seq<JsonV>> {
    match parse_spec(registry) {
        Ok(reg) => match member(reg, "namespaces"@) {
            Some(JsonV::Arr(rows)) => Some(rows),
            _ => None,
        },
        Err(_) => None,
    }
}

/// Whether the registry text lists `ns` with status `registered` (a
/// `reserved` row does not count).
pub open spec fn registered(registry: Seq<char>, ns: Seq<char>) -> bool {
    &&& registry_rows(registry) is Some
    &&& exists|i: int|
        0 <= i < registry_rows(registry)->0.len() && row_registers(#[trigger] registry_rows(registry)->0[i], ns)
}

/// The version gate's value: an unsigned decimal integer that fits `u64`.
pub open spec fn version_of(doc: JsonV) -> Result<u64, ManifestDeclineV> {
    match member(doc, "vocabulary_version"@) {
        Some(JsonV::Num(t)) => match number_u64(t) {
            Some(v) => Ok(v as u64),
            None => Err(ManifestDeclineV::NonIntegerVersion { got: t }),
        },
        _ => Err(ManifestDeclineV::MissingField("vocabulary_version"@)),
    }
}

/// The per-kind declarative shape: an enumerated manifest has a `members`
/// array, a generated one a `field_spec` object.
pub open spec fn kind_shape(doc: JsonV, kind: Kind) -> Option<ManifestDeclineV> {
    match kind {
        Kind::Enumerated => if member(doc, "members"@) matches Some(JsonV::Arr(_)) {
            None
        } else {
            Some(ManifestDeclineV::EnumeratedMissingMembers)
        },
        Kind::Generated => if member(doc, "field_spec"@) matches Some(JsonV::Obj(_)) {
            None
        } else {
            Some(ManifestDeclineV::MissingField("field_spec"@))
        },
    }
}

/// The reading of the kind field.
pub open spec fn kind_from(k: Seq<char>) -> Option<Kind> {
    if k == "enumerated"@ {
        Some(Kind::Enumerated)
    } else if k == "generated"@ {
        Some(Kind::Generated)
    } else {
        None
    }
}

/// The envelope reading of a manifest, in the order the reader checks:
/// JSON, object, schema, namespace and its registration, version,
/// provenance, grammar, coverage note, kind, and the kind's shape.
pub open spec fn manifest_of(text: Seq<char>, registry: Seq<char>) -> Result<ManifestV, ManifestDeclineV> {
    match parse_spec(text) {
        Err(_) => Err(ManifestDeclineV::BadJson),
        Ok(doc) => if !(doc is Obj) {
            Err(ManifestDeclineV::NotAnObject)
        } else if member_str(doc, "schema"@) is None {
            Err(ManifestDeclineV::MissingField("schema"@))
        } else if member_str(doc, "schema"@)->0 != MANIFEST_SCHEMA@ {
            Err(ManifestDeclineV::UnknownSchema { got: member_str(doc, "schema"@)->0 })
        } else if member_str(doc, "namespace"@) is None {
            Err(ManifestDeclineV::MissingField("namespace"@))
        } else if !registered(registry, member_str(doc, "namespace"@)->0) {
            Err(ManifestDeclineV::UnregisteredNamespace { got: member_str(doc, "namespace"@)->0 })
        } else if version_of(doc) is Err {
            Err(version_of(doc)->Err_0)
        } else if member_str(doc, "generated_from"@) is None {
            Err(ManifestDeclineV::MissingField("generated_from"@))
        } else if member_str(doc, "generated_from"@)->0.len() == 0 {
            Err(ManifestDeclineV::EmptyProvenance)
        } else if member_str(doc, "grammar"@) is None {
            Err(ManifestDeclineV::MissingField("grammar"@))
        } else if member_str(doc, "coverage_note"@) is None {
            Err(ManifestDeclineV::MissingField("coverage_note"@))
        } else if member_str(doc, "kind"@) is None {
            Err(ManifestDeclineV::MissingField("kind"@))
        } else if kind_from(member_str(doc, "kind"@)->0) is None {
            Err(ManifestDeclineV::UnrecognizedKind { got: member_str(doc, "kind"@)->0 })
        } else if kind_shape(doc, kind_from(member_str(doc, "kind"@)->0)->0) is Some {
            Err(kind_shape(doc, kind_from(member_str(doc, "kind"@)->0)->0)->0)
        } else {
            Ok(
                ManifestV {
                    namespace: member_str(doc, "namespace"@)->0,
                    vocabulary_version: version_of(doc)->Ok_0,
                    generated_from: member_str(doc, "generated_from"@)->0,
                    kind: kind_from(member_str(doc, "kind"@)->0)->0,
                    raw: doc,
                },
            )
        },
    }
}

/// A member that is a string, or the missing-field decline.
fn str_member<'a>(doc: &'a Json, key: &'static str) -> (r: Result<&'a str, ManifestDecline>)
    ensures
        match member_str(doc@, key@) {
            Some(s) => r matches Ok(x) && x@ == s,
            None => r matches Err(e) && e@ == ManifestDeclineV::MissingField(key@),
        },
{
    match doc.get(key) {
        Some(j) => match j.as_str() {
            Some(s) => Ok(s),
            None => Err(ManifestDecline::MissingField(key)),
        },
        None => {
            proof {
                if doc@ is Obj {
                    assert(member(doc@, key@) is None);
                }
            }
            Err(ManifestDecline::MissingField(key))
        },
    }
}

/// Whether the registry text registers `ns`.
fn is_registered(ns: &str, registry: &str) -> (r: bool)
    requires
        registry@.len() <= 0x1000_0000_0000,
    ensures
        r == registered(registry@, ns@),
{
    let reg = match parse(registry) {
        Ok(j) => j,
        Err(_) => {
            return false;
        },
    };
    let rows = match reg.get("namespaces") {
        Some(j) => match j.as_arr() {
            Some(a) => a,
            None => {
                return false;
            },
        },
        None => {
            return false;
        },
    };
    let ghost rv = crate::json::json_views(rows@);
    proof {
        crate::json::lemma_json_views_len(rows@);
    }
    assert(registry_rows(registry@) == Some(rv));
    let mut i: usize = 0;
    while i < rows.len()
        invariant
            i <= rows@.len(),
            registry_rows(registry@) == Some(rv),
            rv == crate::json::json_views(rows@),
            rv.len() == rows@.len(),
            forall|k: int| 0 <= k < rows@.len() ==> rv[k] == #[trigger] rows@[k]@,
            forall|k: int| 0 <= k < i ==> !row_registers(#[trigger] rv[k], ns@),
        decreases rows@.len() - i,
    {
        let row = &rows[i];
        let a = match row.get("namespace") {
            Some(j) => j.as_str(),
            None => None,
        };
        let b = match row.get("status") {
            Some(j) => j.as_str(),
            None => None,
        };
        let hit = match (a, b) {
            (Some(x), Some(y)) => str_eq(x, ns) && str_eq(y, "registered"),
            _ => false,
        };
        proof {
            assert(rv[i as int] == row@);
        }
        assert(hit == row_registers(row@, ns@));
        if hit {
            assert(row_registers(rv[i as int], ns@));
            assert(registry_rows(registry@) is Some);
            assert(registry_rows(registry@)->0 == rv);
            assert(row_registers(registry_rows(registry@)->0[i as int], ns@));
            assert(registered(registry@, ns@));
            return true;
        }
        i += 1;
    }
    false
}

/// Envelope-validate a manifest against the registry text: the declarative
/// half a parse-only consumer runs. It recognizes the envelope only; no
/// vocabulary content is inspected and `vectors` are not required.
pub fn validate_envelope(text: &str, registry: &str) -> (r: Result<Manifest, ManifestDecline>)
    requires
        text@.len() <= 0x1000_0000_0000,
        registry@.len() <= 0x1000_0000_0000,
    ensures
        match manifest_of(text@, registry@) {
            Ok(m) => r matches Ok(x) && x@ == m,
            Err(d) => r matches Err(e) && e@ == d,
        },
{
    let doc = match parse(text) {
        Ok(j) => j,
        Err(_) => {
            return Err(ManifestDecline::BadJson);
        },
    };
    let is_obj = match &doc {
        Json::Obj(_) => true,
        _ => false,
    };
    if !is_obj {
        return Err(ManifestDecline::NotAnObject);
    }
    let schema = match str_member(&doc, "schema") {
        Ok(s) => s,
        Err(e) => {
            return Err(e);
        },
    };
    if !str_eq(schema, MANIFEST_SCHEMA) {
        return Err(ManifestDecline::UnknownSchema { got: string_from(schema) });
    }
    let namespace = match str_member(&doc, "namespace") {
        Ok(s) => string_from(s),
        Err(e) => {
            return Err(e);
        },
    };
    if !is_registered(namespace.as_str(), registry) {
        return Err(ManifestDecline::UnregisteredNamespace { got: namespace });
    }
    let vocabulary_version: u64 = match doc.get("vocabulary_version") {
        Some(j) => match j {
            Json::Num(t) => match j.as_u64() {
                Some(v) => v,
                None => {
                    return Err(ManifestDecline::NonIntegerVersion { got: string_from(t.as_str()) });
                },
            },
            _ => {
                return Err(ManifestDecline::MissingField("vocabulary_version"));
            },
        },
        None => {
            return Err(ManifestDecline::MissingField("vocabulary_version"));
        },
    };
    let generated_from = match str_member(&doc, "generated_from") {
        Ok(s) => string_from(s),
        Err(e) => {
            return Err(e);
        },
    };
    if crate::text::chars_of(generated_from.as_str()).len() == 0 {
        return Err(ManifestDecline::EmptyProvenance);
    }
    if let Err(e) = str_member(&doc, "grammar") {
        return Err(e);
    }
    if let Err(e) = str_member(&doc, "coverage_note") {
        return Err(e);
    }
    let kind_text = match str_member(&doc, "kind") {
        Ok(s) => s,
        Err(e) => {
            return Err(e);
        },
    };
    let kind = if str_eq(kind_text, "enumerated") {
        Kind::Enumerated
    } else if str_eq(kind_text, "generated") {
        Kind::Generated
    } else {
        return Err(ManifestDecline::UnrecognizedKind { got: string_from(kind_text) });
    };
    match kind {
        Kind::Enumerated => {
            let ok = match doc.get("members") {
                Some(j) => j.as_arr().is_some(),
                None => false,
            };
            if !ok {
                return Err(ManifestDecline::EnumeratedMissingMembers);
            }
        },
        Kind::Generated => {
            let ok = match doc.get("field_spec") {
                Some(j) => match j {
                    Json::Obj(_) => true,
                    _ => false,
                },
                None => false,
            };
            if !ok {
                return Err(ManifestDecline::MissingField("field_spec"));
            }
        },
    }
    Ok(Manifest { namespace, vocabulary_version, generated_from, kind, raw: doc })
}

/// The consumer gate: a manifest whose version is not the one the consumer
/// was built for is declined.
pub fn assert_vocabulary_version(m: &Manifest, built_for: u64) -> (r: Result<(), ManifestDecline>)
    ensures
        r is Ok <==> m@.vocabulary_version == built_for,
        r matches Err(e) ==> e@ == (ManifestDeclineV::VocabularyVersionMismatch {
            got: m@.vocabulary_version,
            built_for,
        }),
{
    if m.vocabulary_version != built_for {
        return Err(ManifestDecline::VocabularyVersionMismatch { got: m.vocabulary_version, built_for });
    }
    Ok(())
}

// ---------------------------------------------------------------------------
// The production half: generated vector coverage.
// ---------------------------------------------------------------------------

/// Some vector names `pin` in its `pins` member.
pub open spec fn pin_present(vs: Seq<JsonV>, pin: Seq<char>) -> bool {
    exists|i: int| 0 <= i < vs.len() && member_str(#[trigger] vs[i], "pins"@) == Some(pin)
}

/// `pins_exempt` lists `pin`.
pub open spec fn pin_exempt(raw: JsonV, pin: Seq<char>) -> bool {
    match member(raw, "pins_exempt"@) {
        Some(JsonV::Arr(es)) => exists|j: int| 0 <= j < es.len() && #[trigger] es[j] == JsonV::Str(pin),
        _ => false,
    }
}

/// A concern the vector set leaves uncovered: `order` and `dedup` always
/// count, `threshold` and `digest_input` unless exempted.
pub open spec fn pin_missing(raw: JsonV, vs: Seq<JsonV>, pin: Seq<char>, exemptible: bool) -> bool {
    !pin_present(vs, pin) && !(exemptible && pin_exempt(raw, pin))
}

/// The coverage check: the first uncovered concern, in the order `order`,
/// `dedup`, `threshold`, `digest_input`; an enumerated manifest is covered.
pub open spec fn coverage_of(m: ManifestV) -> Result<(), ManifestDeclineV> {
    if m.kind != Kind::Generated {
        Ok(())
    } else {
        match member(m.raw, "vectors"@) {
            Some(JsonV::Arr(vs)) => if pin_missing(m.raw, vs, "order"@, false) {
                Err(ManifestDeclineV::GeneratedVectorsMissingPin("order"@))
            } else if pin_missing(m.raw, vs, "dedup"@, false) {
                Err(ManifestDeclineV::GeneratedVectorsMissingPin("dedup"@))
            } else if pin_missing(m.raw, vs, "threshold"@, true) {
                Err(ManifestDeclineV::GeneratedVectorsMissingPin("threshold"@))
            } else if pin_missing(m.raw, vs, "digest_input"@, true) {
                Err(ManifestDeclineV::GeneratedVectorsMissingPin("digest_input"@))
            } else {
                Ok(())
            },
            _ => Err(ManifestDeclineV::GeneratedMissingVectors),
        }
    }
}

fn has_pin(vs: &[Json], pin: &str) -> (r: bool)
    ensures
        r == pin_present(crate::json::json_views(vs@), pin@),
{
    let ghost v = crate::json::json_views(vs@);
    proof {
        crate::json::lemma_json_views_len(vs@);
    }
    let mut i: usize = 0;
    while i < vs.len()
        invariant
            i <= vs@.len(),
            v == crate::json::json_views(vs@),
            v.len() == vs@.len(),
            forall|k: int| 0 <= k < vs@.len() ==> v[k] == #[trigger] vs@[k]@,
            forall|k: int| 0 <= k < i ==> member_str(#[trigger] v[k], "pins"@) != Some(pin@),
        decreases vs@.len() - i,
    {
        let x = match vs[i].get("pins") {
            Some(j) => j.as_str(),
            None => None,
        };
        proof {
            assert(v[i as int] == vs@[i as int]@);
        }
        let hit = match x {
            Some(t) => str_eq(t, pin),
            None => false,
        };
        assert(hit == (member_str(v[i as int], "pins"@) == Some(pin@)));
        if hit {
            return true;
        }
        i += 1;
    }
    false
}

fn is_exempt(raw: &Json, pin: &str) -> (r: bool)
    ensures
        r == pin_exempt(raw@, pin@),
{
    let es = match raw.get("pins_exempt") {
        Some(j) => match j.as_arr() {
            Some(a) => a,
            None => {
                return false;
            },
        },
        None => {
            return false;
        },
    };
    let ghost v = crate::json::json_views(es@);
    proof {
        crate::json::lemma_json_views_len(es@);
    }
    assert(member(raw@, "pins_exempt"@) == Some(JsonV::Arr(v)));
    let mut i: usize = 0;
    while i < es.len()
        invariant
            i <= es@.len(),
            member(raw@, "pins_exempt"@) == Some(JsonV::Arr(v)),
            v == crate::json::json_views(es@),
            v.len() == es@.len(),
            forall|k: int| 0 <= k < es@.len() ==> v[k] == #[trigger] es@[k]@,
            forall|k: int| 0 <= k < i ==> #[trigger] v[k] != JsonV::Str(pin@),
        decreases es@.len() - i,
    {
        let hit = match es[i].as_str() {
            Some(t) => str_eq(t, pin),
            None => false,
        };
        proof {
            assert(v[i as int] == es@[i as int]@);
        }
        if hit {
            assert(v[i as int] == JsonV::Str(pin@));
            return true;
        }
        i += 1;
    }
    false
}

/// The production half: a generated manifest's vector set covers `order`
/// and `dedup`, and `threshold` and `digest_input` unless exempted by
/// `pins_exempt`; the first uncovered concern is declined.
pub fn check_generated_vector_coverage(m: &Manifest) -> (r: Result<(), ManifestDecline>)
    ensures
        match coverage_of(m@) {
            Ok(()) => r is Ok,
            Err(d) => r matches Err(e) && e@ == d,
        },
{
    if m.kind != Kind::Generated {
        return Ok(());
    }
    let vs = match m.raw.get("vectors") {
        Some(j) => match j.as_arr() {
            Some(a) => a,
            None => {
                return Err(ManifestDecline::GeneratedMissingVectors);
            },
        },
        None => {
            return Err(ManifestDecline::GeneratedMissingVectors);
        },
    };
    if !has_pin(vs, "order") {
        return Err(ManifestDecline::GeneratedVectorsMissingPin("order"));
    }
    if !has_pin(vs, "dedup") {
        return Err(ManifestDecline::GeneratedVectorsMissingPin("dedup"));
    }
    if !has_pin(vs, "threshold") && !is_exempt(&m.raw, "threshold") {
        return Err(ManifestDecline::GeneratedVectorsMissingPin("threshold"));
    }
    if !has_pin(vs, "digest_input") && !is_exempt(&m.raw, "digest_input") {
        return Err(ManifestDecline::GeneratedVectorsMissingPin("digest_input"));
    }
    Ok(())
}

// ---------------------------------------------------------------------------
// The production half: derivability witnesses.
// ---------------------------------------------------------------------------

/// White space as Unicode (and `str::trim`) counts it.
pub open spec fn unicode_ws(c: char) -> bool {
    let u = c as u32;
    (0x09 <= u <= 0x0D) || u == 0x20 || u == 0x85 || u == 0xA0 || u == 0x1680 || (0x2000 <= u <= 0x200A)
        || u == 0x2028 || u == 0x2029 || u == 0x202F || u == 0x205F || u == 0x3000
}

/// Text that trims to nothing.
pub open spec fn blank(s: Seq<char>) -> bool {
    forall|i: int| 0 <= i < s.len() ==> unicode_ws(#[trigger] s[i])
}

/// Text that holds the path separator `::`.
pub open spec fn has_path_sep(s: Seq<char>) -> bool {
    exists|i: int| 0 <= i < s.len() - 1 && #[trigger] s[i] == ':' && s[i + 1] == ':'
}

/// A witness reference's text (`""` for a non-string).
pub open spec fn ref_text(r: JsonV) -> Seq<char> {
    match r {
        JsonV::Str(s) => s,
        _ => seq![],
    }
}

/// The first unresolvable reference of an entry's witness, as a decline.
pub open spec fn refs_decline(token: Seq<char>, rs: Seq<JsonV>) -> Option<ManifestDeclineV>
    decreases rs.len(),
{
    if rs.len() == 0 {
        None
    } else if blank(ref_text(rs[0])) || !has_path_sep(ref_text(rs[0])) {
        Some(ManifestDeclineV::WitnessNotResolvable { token, reference: ref_text(rs[0]) })
    } else {
        refs_decline(token, rs.drop_first())
    }
}

/// An entry's name: its `token`, or `<unnamed>`.
pub open spec fn entry_token(e: JsonV) -> Seq<char> {
    match member_str(e, "token"@) {
        Some(t) => t,
        None => "<unnamed>"@,
    }
}

/// The decline an entry's witness earns, if any: absent or empty, or a
/// reference that does not name its home.
pub open spec fn entry_decline(e: JsonV) -> Option<ManifestDeclineV> {
    match member(e, "derivability_witness"@) {
        Some(JsonV::Arr(rs)) => if rs.len() > 0 {
            refs_decline(entry_token(e), rs)
        } else {
            Some(ManifestDeclineV::EntryMissingWitness { token: entry_token(e) })
        },
        _ => Some(ManifestDeclineV::EntryMissingWitness { token: entry_token(e) }),
    }
}

/// The first entry's decline, in order.
pub open spec fn entries_decline(es: Seq<JsonV>) -> Option<ManifestDeclineV>
    decreases es.len(),
{
    if es.len() == 0 {
        None
    } else {
        match entry_decline(es[0]) {
            Some(d) => Some(d),
            None => entries_decline(es.drop_first()),
        }
    }
}

/// The witness check: a non-blank `witness_gate`, then every `members`
/// entry's witness (a manifest without `members` has its entries skipped).
pub open spec fn witnesses_of(m: ManifestV) -> Result<(), ManifestDeclineV> {
    match member_str(m.raw, "witness_gate"@) {
        None => Err(ManifestDeclineV::NoWitnessGate),
        Some(g) => if blank(g) {
            Err(ManifestDeclineV::NoWitnessGate)
        } else {
            match member(m.raw, "members"@) {
                Some(JsonV::Arr(es)) => match entries_decline(es) {
                    Some(d) => Err(d),
                    None => Ok(()),
                },
                _ => Ok(()),
            }
        },
    }
}

fn is_ws(c: char) -> (r: bool)
    ensures
        r == unicode_ws(c),
{
    let u = c as u32;
    (0x09 <= u && u <= 0x0D) || u == 0x20 || u == 0x85 || u == 0xA0 || u == 0x1680 || (0x2000 <= u && u
        <= 0x200A) || u == 0x2028 || u == 0x2029 || u == 0x202F || u == 0x205F || u == 0x3000
}

fn is_blank(s: &str) -> (r: bool)
    ensures
        r == blank(s@),
{
    let cs = crate::text::chars_of(s);
    let mut i: usize = 0;
    while i < cs.len()
        invariant
            i <= cs@.len(),
            cs@ == s@,
            forall|k: int| 0 <= k < i ==> unicode_ws(#[trigger] cs@[k]),
        decreases cs@.len() - i,
    {
        if !is_ws(cs[i]) {
            return false;
        }
        i += 1;
    }
    true
}

fn holds_path_sep(s: &str) -> (r: bool)
    ensures
        r == has_path_sep(s@),
{
    let cs = crate::text::chars_of(s);
    let n = cs.len();
    if n < 2 {
        return false;
    }
    let mut i: usize = 0;
    while i < n - 1
        invariant
            n == cs@.len() >= 2,
            cs@ == s@,
            forall|k: int| 0 <= k < i && k < cs@.len() - 1 ==> !(#[trigger] cs@[k] == ':' && cs@[k + 1] == ':'),
        decreases cs@.len() - i,
    {
        if cs[i] == ':' && cs[i + 1] == ':' {
            return true;
        }
        i += 1;
    }
    false
}

fn check_refs(token: &str, rs: &[Json]) -> (r: Result<(), ManifestDecline>)
    ensures
        match refs_decline(token@, crate::json::json_views(rs@)) {
            None => r is Ok,
            Some(d) => r matches Err(e) && e@ == d,
        },
{
    let ghost v = crate::json::json_views(rs@);
    proof {
        crate::json::lemma_json_views_len(rs@);
        assert(v.skip(0) =~= v);
    }
    let mut i: usize = 0;
    while i < rs.len()
        invariant
            i <= rs@.len(),
            v == crate::json::json_views(rs@),
            v.len() == rs@.len(),
            forall|k: int| 0 <= k < rs@.len() ==> v[k] == #[trigger] rs@[k]@,
            refs_decline(token@, v.skip(i as int)) == refs_decline(token@, v),
        decreases rs@.len() - i,
    {
        proof {
            assert(v.skip(i as int).drop_first() =~= v.skip(i + 1));
            assert(v.skip(i as int)[0] == v[i as int]);
            assert(v[i as int] == rs@[i as int]@);
        }
        proof {
            reveal_strlit("");
        }
        let text: &str = match rs[i].as_str() {
            Some(t) => t,
            None => "",
        };
        assert(text@ == ref_text(v[i as int]));
        if is_blank(text) || !holds_path_sep(text) {
            return Err(
                ManifestDecline::WitnessNotResolvable { token: string_from(token), reference: string_from(text) },
            );
        }
        i += 1;
    }
    proof {
        assert(v.skip(i as int).len() == 0);
    }
    Ok(())
}

/// The derivability-witness envelope: a named, non-blank `witness_gate`,
/// and for every `members` entry a non-empty witness list whose references
/// are non-blank and path-structured (`::`). Whether a witness produces its
/// entry is the maintainer's to discharge; a `generated` manifest's entries
/// (no `members`) are skipped.
pub fn check_derivability_witnesses(m: &Manifest) -> (r: Result<(), ManifestDecline>)
    ensures
        match witnesses_of(m@) {
            Ok(()) => r is Ok,
            Err(d) => r matches Err(e) && e@ == d,
        },
{
    let gate = match m.raw.get("witness_gate") {
        Some(j) => j.as_str(),
        None => None,
    };
    let blank_gate = match gate {
        Some(g) => is_blank(g),
        None => true,
    };
    if blank_gate {
        return Err(ManifestDecline::NoWitnessGate);
    }
    let es = match m.raw.get("members") {
        Some(j) => match j.as_arr() {
            Some(a) => a,
            None => {
                return Ok(());
            },
        },
        None => {
            return Ok(());
        },
    };
    let ghost v = crate::json::json_views(es@);
    proof {
        crate::json::lemma_json_views_len(es@);
        assert(v.skip(0) =~= v);
    }
    assert(member(m@.raw, "members"@) == Some(JsonV::Arr(v)));
    assert(witnesses_of(m@) == (match entries_decline(v) {
        Some(d) => Err(d),
        None => Ok::<(), ManifestDeclineV>(()),
    }));
    let mut i: usize = 0;
    while i < es.len()
        invariant
            i <= es@.len(),
            witnesses_of(m@) == (match entries_decline(v) {
                Some(d) => Err(d),
                None => Ok::<(), ManifestDeclineV>(()),
            }),
            v == crate::json::json_views(es@),
            v.len() == es@.len(),
            forall|k: int| 0 <= k < es@.len() ==> v[k] == #[trigger] es@[k]@,
            entries_decline(v.skip(i as int)) == entries_decline(v),
        decreases es@.len() - i,
    {
        proof {
            assert(v.skip(i as int).drop_first() =~= v.skip(i + 1));
            assert(v.skip(i as int)[0] == v[i as int]);
            assert(v[i as int] == es@[i as int]@);
        }
        let entry = &es[i];
        let token: &str = match entry.get("token") {
            Some(j) => match j.as_str() {
                Some(t) => t,
                None => "<unnamed>",
            },
            None => "<unnamed>",
        };
        assert(token@ == entry_token(v[i as int]));
        let rs = match entry.get("derivability_witness") {
            Some(j) => j.as_arr(),
            None => None,
        };
        match rs {
            Some(list) => {
                proof {
                    crate::json::lemma_json_views_len(list@);
                }
                let ghost lv = crate::json::json_views(list@);
                assert(member(v[i as int], "derivability_witness"@) == Some(JsonV::Arr(lv)));
                if list.len() == 0 {
                    assert(entry_decline(v[i as int]) == Some(ManifestDeclineV::EntryMissingWitness {
                        token: token@,
                    }));
                    return Err(ManifestDecline::EntryMissingWitness { token: string_from(token) });
                }
                assert(entry_decline(v[i as int]) == refs_decline(token@, lv));
                let c = check_refs(token, list);
                if c.is_err() {
                    assert(entries_decline(v) == refs_decline(token@, lv));
                    return c;
                }
            },
            None => {
                assert(entry_decline(v[i as int]) == Some(ManifestDeclineV::EntryMissingWitness {
                    token: token@,
                }));
                return Err(ManifestDecline::EntryMissingWitness { token: string_from(token) });
            },
        }
        i += 1;
    }
    proof {
        assert(v.skip(i as int).len() == 0);
    }
    Ok(())
}

} // verus!
