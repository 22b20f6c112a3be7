//! The loader for the oracle-vector corpus: a JSON bundle of typed cells whose
//! hex bit patterns are decoded on load. A cell's class must be one of the
//! three determinism classes (`split` is not a class), and its provenance may
//! never be the circular `reference-observed`.

use vstd::prelude::*;
use crate::json::{json_views, lookup, number_u64, parse, parse_spec, Json, JsonV};
use crate::text::{chars_of, dec_chars, push_dec, push_str, str_eq, string_from};
use crate::{hex_digits_of, hex_pairs, parse_hex, DeterminismClass};

verus! {

/// A loaded corpus.
#[derive(Debug, Clone)]
pub struct Corpus {
    pub schema: String,
    pub schema_version: u64,
    pub ulp_metric: String,
    pub vectors: Vec<Cell>,
}

/// One oracle cell, its bit patterns decoded.
#[derive(Debug, Clone)]
pub struct Cell {
    pub tc_id: u64,
    pub op: String,
    pub dtype: String,
    pub rounding: String,
    pub inputs: Vec<Vec<u8>>,
    pub expected: Vec<u8>,
    pub class: DeterminismClass,
    pub ulp_bound: u64,
    pub provenance: String,
    pub tags: Vec<String>,
    pub has_certificate: bool,
    pub certificate_precision_bits: Option<u64>,
}

/// The content of a [`Cell`].
pub struct CellV {
    pub tc_id: u64,
    pub op: Seq<char>,
    pub dtype: Seq<char>,
    pub rounding: Seq<char>,
    pub inputs: Seq<Seq<u8>>,
    pub expected: Seq<u8>,
    pub class: DeterminismClass,
    pub ulp_bound: u64,
    pub provenance: Seq<char>,
    pub tags: Seq<Seq<char>>,
    pub has_certificate: bool,
    pub certificate_precision_bits: Option<u64>,
}

/// The content of a [`Corpus`].
pub struct CorpusV {
    pub schema: Seq<char>,
    pub schema_version: u64,
    pub ulp_metric: Seq<char>,
    pub vectors: Seq<CellV>,
}

pub open spec fn bytes_views(v: Seq<Vec<u8>>) -> Seq<Seq<u8>> {
    v.map_values(|b: Vec<u8>| b@)
}

pub open spec fn strings_views(v: Seq<String>) -> Seq<Seq<char>> {
    v.map_values(|s: String| s@)
}

impl View for Cell {
    type V = CellV;

    open spec fn view(&self) -> CellV {
        CellV {
            tc_id: self.tc_id,
            op: self.op@,
            dtype: self.dtype@,
            rounding: self.rounding@,
            inputs: bytes_views(self.inputs@),
            expected: self.expected@,
            class: self.class,
            ulp_bound: self.ulp_bound,
            provenance: self.provenance@,
            tags: strings_views(self.tags@),
            has_certificate: self.has_certificate,
            certificate_precision_bits: self.certificate_precision_bits,
        }
    }
}

pub open spec fn cells_views(v: Seq<Cell>) -> Seq<CellV> {
    v.map_values(|c: Cell| c@)
}

impl View for Corpus {
    type V = CorpusV;

    open spec fn view(&self) -> CorpusV {
        CorpusV {
            schema: self.schema@,
            schema_version: self.schema_version,
            ulp_metric: self.ulp_metric@,
            vectors: cells_views(self.vectors@),
        }
    }
}

/// What loading gives: a value, a typed decline with its message, or the
/// panic the hex decoder raises on an odd digit count.
pub enum Outcome<T> {
    Val(T),
    Decline(Seq<char>),
    Panic,
}

// ---------------------------------------------------------------------------
// What a load reads.
// ---------------------------------------------------------------------------

/// The value of an object's member (`None` for a non-object).
pub open spec fn member(o: JsonV, k: Seq<char>) -> Option<JsonV> {
    match o {
        JsonV::Obj(ms) => lookup(ms, k),
        _ => None,
    }
}

pub open spec fn field(o: JsonV, k: Seq<char>) -> Result<JsonV, Seq<char>> {
    match member(o, k) {
        Some(v) => Ok(v),
        None => Err("missing field `"@ + k + "`"@),
    }
}

pub open spec fn str_field(o: JsonV, k: Seq<char>) -> Result<Seq<char>, Seq<char>> {
    match field(o, k) {
        Err(e) => Err(e),
        Ok(JsonV::Str(s)) => Ok(s),
        Ok(_) => Err("`"@ + k + "` is not a string"@),
    }
}

/// A member read as a `u64` (see [`number_u64`]).
pub open spec fn u64_field(o: JsonV, k: Seq<char>) -> Result<u64, Seq<char>> {
    match field(o, k) {
        Err(e) => Err(e),
        Ok(JsonV::Num(t)) => match number_u64(t) {
            Some(v) => Ok(v as u64),
            None => Err("`"@ + k + "` is not an integer"@),
        },
        Ok(_) => Err("`"@ + k + "` is not an integer"@),
    }
}

/// The determinism class a corpus spelling names.
pub open spec fn class_from_text(s: Seq<char>) -> Result<DeterminismClass, Seq<char>> {
    if s == "exact-byte"@ {
        Ok(DeterminismClass::ExactByte)
    } else if s == "ULP"@ {
        Ok(DeterminismClass::UlpTolerance)
    } else if s == "order-invariant"@ {
        Ok(DeterminismClass::OrderInvariant)
    } else {
        Err("`"@ + s + "` is not a determinism class (split is not a class, §6.8-0005)"@)
    }
}

/// A `bits` member decoded from hex.
pub open spec fn bits_of(o: JsonV) -> Outcome<Seq<u8>> {
    match str_field(o, "bits"@) {
        Err(e) => Outcome::Decline(e),
        Ok(s) => if hex_digits_of(s).len() % 2 == 0 {
            Outcome::Val(hex_pairs(hex_digits_of(s)))
        } else {
            Outcome::Panic
        },
    }
}

/// Every input's bits, left to right.
pub open spec fn inputs_of(xs: Seq<JsonV>) -> Outcome<Seq<Seq<u8>>>
    decreases xs.len(),
{
    if xs.len() == 0 {
        Outcome::Val(seq![])
    } else {
        match inputs_of(xs.drop_last()) {
            Outcome::Val(acc) => match bits_of(xs.last()) {
                Outcome::Val(b) => Outcome::Val(acc.push(b)),
                Outcome::Decline(e) => Outcome::Decline(e),
                Outcome::Panic => Outcome::Panic,
            },
            other => other,
        }
    }
}

/// The string tags, other values skipped.
pub open spec fn string_tags(xs: Seq<JsonV>) -> Seq<Seq<char>>
    decreases xs.len(),
{
    if xs.len() == 0 {
        seq![]
    } else {
        match xs.last() {
            JsonV::Str(s) => string_tags(xs.drop_last()).push(s),
            _ => string_tags(xs.drop_last()),
        }
    }
}

pub const REFERENCE_OBSERVED_MESSAGE: &'static str =
    "provenance `reference-observed` is circular and inadmissible (§6.5-0003)";

/// One cell.
pub open spec fn cell_of(v: JsonV) -> Outcome<CellV> {
    match str_field(v, "provenance"@) {
        Err(e) => Outcome::Decline(e),
        Ok(prov) => if prov == "reference-observed"@ {
            Outcome::Decline(REFERENCE_OBSERVED_MESSAGE@)
        } else {
            match field(v, "inputs"@) {
                Err(e) => Outcome::Decline(e),
                Ok(JsonV::Arr(ins)) => match inputs_of(ins) {
                    Outcome::Decline(e) => Outcome::Decline(e),
                    Outcome::Panic => Outcome::Panic,
                    Outcome::Val(inputs) => match field(v, "expected"@) {
                        Err(e) => Outcome::Decline(e),
                        Ok(ex) => match bits_of(ex) {
                            Outcome::Decline(e) => Outcome::Decline(e),
                            Outcome::Panic => Outcome::Panic,
                            Outcome::Val(expected) => match field(v, "tags"@) {
                                Err(e) => Outcome::Decline(e),
                                Ok(JsonV::Arr(ts)) => cell_rest(v, prov, inputs, expected, string_tags(ts)),
                                Ok(_) => Outcome::Decline("`tags` is not an array"@),
                            },
                        },
                    },
                },
                Ok(_) => Outcome::Decline("`inputs` is not an array"@),
            }
        },
    }
}

/// The certificate's stabilized precision, when it is there and an integer.
pub open spec fn certificate_bits(v: JsonV) -> Option<u64> {
    match member(v, "certificate"@) {
        Some(c) => match member(c, "stabilized_precision_bits"@) {
            Some(JsonV::Num(t)) => match number_u64(t) {
                Some(n) => Some(n as u64),
                None => None,
            },
            _ => None,
        },
        None => None,
    }
}

/// The scalar members of a cell, in the order they are read.
pub open spec fn cell_rest(
    v: JsonV,
    prov: Seq<char>,
    inputs: Seq<Seq<u8>>,
    expected: Seq<u8>,
    tags: Seq<Seq<char>>,
) -> Outcome<CellV> {
    match u64_field(v, "tcId"@) {
        Err(e) => Outcome::Decline(e),
        Ok(tc_id) => match str_field(v, "op"@) {
            Err(e) => Outcome::Decline(e),
            Ok(op) => match str_field(v, "dtype"@) {
                Err(e) => Outcome::Decline(e),
                Ok(dtype) => match str_field(v, "rounding"@) {
                    Err(e) => Outcome::Decline(e),
                    Ok(rounding) => match str_field(v, "class"@) {
                        Err(e) => Outcome::Decline(e),
                        Ok(cs) => match class_from_text(cs) {
                            Err(e) => Outcome::Decline(e),
                            Ok(class) => match u64_field(v, "ulp_bound"@) {
                                Err(e) => Outcome::Decline(e),
                                Ok(ulp_bound) => Outcome::Val(
                                    CellV {
                                        tc_id,
                                        op,
                                        dtype,
                                        rounding,
                                        inputs,
                                        expected,
                                        class,
                                        ulp_bound,
                                        provenance: prov,
                                        tags,
                                        has_certificate: member(v, "certificate"@) is Some,
                                        certificate_precision_bits: certificate_bits(v),
                                    },
                                ),
                            },
                        },
                    },
                },
            },
        },
    }
}

/// Every cell, left to right; a decline names the vector's index.
pub open spec fn cells_of(xs: Seq<JsonV>) -> Outcome<Seq<CellV>>
    decreases xs.len(),
{
    if xs.len() == 0 {
        Outcome::Val(seq![])
    } else {
        match cells_of(xs.drop_last()) {
            Outcome::Val(acc) => match cell_of(xs.last()) {
                Outcome::Val(c) => Outcome::Val(acc.push(c)),
                Outcome::Decline(e) => Outcome::Decline(
                    "vector["@ + dec_chars((xs.len() - 1) as nat) + "]: "@ + e,
                ),
                Outcome::Panic => Outcome::Panic,
            },
            other => other,
        }
    }
}

/// The schema this build recognizes.
pub open spec fn recognized_schema(s: Seq<char>) -> bool {
    s == "kiss-oracle-vectors-v1.json"@
}

/// The schema versions this build recognizes.
pub open spec fn recognized_version(v: u64) -> bool {
    v == 1
}

/// A whole document.
pub open spec fn load_spec(text: Seq<char>) -> Outcome<CorpusV> {
    match parse_spec(text) {
        Err(m) => Outcome::Decline(m),
        Ok(root) => match str_field(root, "schema"@) {
            Err(e) => Outcome::Decline(e),
            Ok(schema) => if !recognized_schema(schema) {
                Outcome::Decline(
                    "unrecognized `schema` `"@ + schema
                        + "` (§6.5-0017); recognized: [\"kiss-oracle-vectors-v1.json\"]"@,
                )
            } else {
                match u64_field(root, "schema_version"@) {
                    Err(e) => Outcome::Decline(e),
                    Ok(sv) => if !recognized_version(sv) {
                        Outcome::Decline(
                            "unrecognized `schema_version` "@ + dec_chars(sv as nat)
                                + " (§6.5-0017); recognized: [1]"@,
                        )
                    } else {
                        match str_field(root, "ulp_metric"@) {
                            Err(e) => Outcome::Decline(e),
                            Ok(ulp_metric) => match field(root, "vectors"@) {
                                Err(e) => Outcome::Decline(e),
                                Ok(JsonV::Arr(raw)) => match cells_of(raw) {
                                    Outcome::Val(vectors) => Outcome::Val(
                                        CorpusV { schema, schema_version: sv, ulp_metric, vectors },
                                    ),
                                    Outcome::Decline(e) => Outcome::Decline(e),
                                    Outcome::Panic => Outcome::Panic,
                                },
                                Ok(_) => Outcome::Decline("`vectors` is not an array"@),
                            },
                        }
                    },
                }
            },
        },
    }
}

// ---------------------------------------------------------------------------
// Loading.
// ---------------------------------------------------------------------------

/// A decline that ends at `Decline` or `Panic` stays there for every longer list.
proof fn lemma_inputs_prefix(xs: Seq<JsonV>, i: int)
    requires
        0 <= i <= xs.len(),
        !(inputs_of(xs.take(i)) is Val),
    ensures
        inputs_of(xs) == inputs_of(xs.take(i)),
    decreases xs.len() - i,
{
    if i < xs.len() {
        assert(xs.take(i + 1).drop_last() =~= xs.take(i));
        lemma_inputs_prefix(xs, i + 1);
    } else {
        assert(xs.take(i) =~= xs);
    }
}

proof fn lemma_cells_prefix(xs: Seq<JsonV>, i: int)
    requires
        0 <= i <= xs.len(),
        !(cells_of(xs.take(i)) is Val),
    ensures
        cells_of(xs) == cells_of(xs.take(i)),
    decreases xs.len() - i,
{
    if i < xs.len() {
        assert(xs.take(i + 1).drop_last() =~= xs.take(i));
        lemma_cells_prefix(xs, i + 1);
    } else {
        assert(xs.take(i) =~= xs);
    }
}

fn quoted_message(pre: &str, k: &str, post: &str) -> (m: String)
    ensures
        m@ == pre@ + k@ + post@,
{
    let mut m = String::new();
    push_str(&mut m, pre);
    push_str(&mut m, k);
    push_str(&mut m, post);
    proof {
        assert(m@ =~= pre@ + k@ + post@);
    }
    m
}

fn field_exec<'a>(o: &'a Json, k: &str) -> (r: Result<&'a Json, String>)
    ensures
        match field(o@, k@) {
            Ok(v) => r matches Ok(j) && j@ == v,
            Err(e) => r matches Err(m) && m@ == e,
        },
{
    match o.get(k) {
        Some(v) => Ok(v),
        None => Err(quoted_message("missing field `", k, "`")),
    }
}

fn str_field_exec(o: &Json, k: &str) -> (r: Result<String, String>)
    ensures
        match str_field(o@, k@) {
            Ok(v) => r matches Ok(s) && s@ == v,
            Err(e) => r matches Err(m) && m@ == e,
        },
{
    let f = match field_exec(o, k) {
        Ok(f) => f,
        Err(e) => {
            return Err(e);
        },
    };
    match f.as_str() {
        Some(s) => Ok(string_from(s)),
        None => Err(quoted_message("`", k, "` is not a string")),
    }
}

fn u64_field_exec(o: &Json, k: &str) -> (r: Result<u64, String>)
    ensures
        match u64_field(o@, k@) {
            Ok(v) => r == Ok::<u64, String>(v),
            Err(e) => r matches Err(m) && m@ == e,
        },
{
    let f = match field_exec(o, k) {
        Ok(f) => f,
        Err(e) => {
            return Err(e);
        },
    };
    match f.as_u64() {
        Some(v) => Ok(v),
        None => Err(quoted_message("`", k, "` is not an integer")),
    }
}

fn class_from_str(s: &str) -> (r: Result<DeterminismClass, String>)
    ensures
        match class_from_text(s@) {
            Ok(c) => r == Ok::<DeterminismClass, String>(c),
            Err(e) => r matches Err(m) && m@ == e,
        },
{
    if str_eq(s, "exact-byte") {
        Ok(DeterminismClass::ExactByte)
    } else if str_eq(s, "ULP") {
        Ok(DeterminismClass::UlpTolerance)
    } else if str_eq(s, "order-invariant") {
        Ok(DeterminismClass::OrderInvariant)
    } else {
        Err(quoted_message("`", s, "` is not a determinism class (split is not a class, §6.8-0005)"))
    }
}

fn bits_exec(o: &Json) -> (r: Result<Vec<u8>, String>)
    requires
        !(bits_of(o@) is Panic),
    ensures
        match bits_of(o@) {
            Outcome::Val(b) => r matches Ok(v) && v@ == b,
            Outcome::Decline(e) => r matches Err(m) && m@ == e,
            Outcome::Panic => false,
        },
{
    match str_field_exec(o, "bits") {
        Ok(s) => Ok(parse_hex(s.as_str())),
        Err(e) => Err(e),
    }
}

fn inputs_exec(ins: &[Json]) -> (r: Result<Vec<Vec<u8>>, String>)
    requires
        !(inputs_of(json_views(ins@)) is Panic),
    ensures
        match inputs_of(json_views(ins@)) {
            Outcome::Val(b) => r matches Ok(v) && bytes_views(v@) == b,
            Outcome::Decline(e) => r matches Err(m) && m@ == e,
            Outcome::Panic => false,
        },
{
    let ghost xs = json_views(ins@);
    proof {
        crate::json::lemma_json_views_len(ins@);
        assert(xs.take(0) =~= seq![]);
    }
    let mut acc: Vec<Vec<u8>> = Vec::new();
    let mut i: usize = 0;
    proof {
        assert(bytes_views(acc@) =~= Seq::<Seq<u8>>::empty());
    }
    while i < ins.len()
        invariant
            i <= ins@.len(),
            xs == json_views(ins@),
            xs.len() == ins@.len(),
            forall|k: int| 0 <= k < ins@.len() ==> xs[k] == #[trigger] ins@[k]@,
            !(inputs_of(xs) is Panic),
            inputs_of(xs.take(i as int)) == Outcome::<Seq<Seq<u8>>>::Val(bytes_views(acc@)),
        decreases ins@.len() - i,
    {
        proof {
            assert(xs.take(i + 1).drop_last() =~= xs.take(i as int));
            assert(xs.take(i + 1).last() == ins@[i as int]@);
            if bits_of(ins@[i as int]@) is Panic {
                lemma_inputs_prefix(xs, i + 1);
            }
        }
        match bits_exec(&ins[i]) {
            Ok(b) => {
                let ghost before = acc@;
                acc.push(b);
                proof {
                    assert(bytes_views(acc@) =~= bytes_views(before).push(acc@.last()@));
                }
            },
            Err(e) => {
                proof {
                    lemma_inputs_prefix(xs, i + 1);
                }
                return Err(e);
            },
        }
        i += 1;
    }
    proof {
        assert(xs.take(i as int) =~= xs);
    }
    Ok(acc)
}

fn tags_exec(ts: &[Json]) -> (r: Vec<String>)
    ensures
        strings_views(r@) == string_tags(json_views(ts@)),
{
    let ghost xs = json_views(ts@);
    proof {
        crate::json::lemma_json_views_len(ts@);
    }
    let mut out: Vec<String> = Vec::new();
    let mut i: usize = 0;
    proof {
        assert(strings_views(out@) =~= string_tags(xs.take(0)));
    }
    while i < ts.len()
        invariant
            i <= ts@.len(),
            xs == json_views(ts@),
            xs.len() == ts@.len(),
            forall|k: int| 0 <= k < ts@.len() ==> xs[k] == #[trigger] ts@[k]@,
            strings_views(out@) == string_tags(xs.take(i as int)),
        decreases ts@.len() - i,
    {
        proof {
            assert(xs.take(i + 1).drop_last() =~= xs.take(i as int));
            assert(xs.take(i + 1).last() == ts@[i as int]@);
        }
        match ts[i].as_str() {
            Some(s) => {
                let ghost before = out@;
                out.push(string_from(s));
                proof {
                    assert(strings_views(out@) =~= strings_views(before).push(s@));
                }
            },
            None => {},
        }
        i += 1;
    }
    proof {
        assert(xs.take(i as int) =~= xs);
    }
    out
}

fn certificate_bits_exec(v: &Json) -> (r: Option<u64>)
    ensures
        r == certificate_bits(v@),
{
    match v.get("certificate") {
        Some(c) => match c.get("stabilized_precision_bits") {
            Some(n) => n.as_u64(),
            None => None,
        },
        None => None,
    }
}

fn cell_exec(v: &Json) -> (r: Result<Cell, String>)
    requires
        !(cell_of(v@) is Panic),
    ensures
        match cell_of(v@) {
            Outcome::Val(c) => r matches Ok(x) && x@ == c,
            Outcome::Decline(e) => r matches Err(m) && m@ == e,
            Outcome::Panic => false,
        },
{
    let provenance = match str_field_exec(v, "provenance") {
        Ok(p) => p,
        Err(e) => {
            return Err(e);
        },
    };
    if str_eq(provenance.as_str(), "reference-observed") {
        return Err(string_from(REFERENCE_OBSERVED_MESSAGE));
    }
    let ins = match field_exec(v, "inputs") {
        Ok(f) => match f.as_arr() {
            Some(a) => a,
            None => {
                return Err(string_from("`inputs` is not an array"));
            },
        },
        Err(e) => {
            return Err(e);
        },
    };
    let inputs = match inputs_exec(ins) {
        Ok(x) => x,
        Err(e) => {
            return Err(e);
        },
    };
    let ex = match field_exec(v, "expected") {
        Ok(f) => f,
        Err(e) => {
            return Err(e);
        },
    };
    let expected = match bits_exec(ex) {
        Ok(b) => b,
        Err(e) => {
            return Err(e);
        },
    };
    let ts = match field_exec(v, "tags") {
        Ok(f) => match f.as_arr() {
            Some(a) => a,
            None => {
                return Err(string_from("`tags` is not an array"));
            },
        },
        Err(e) => {
            return Err(e);
        },
    };
    let tags = tags_exec(ts);
    let tc_id = match u64_field_exec(v, "tcId") {
        Ok(x) => x,
        Err(e) => {
            return Err(e);
        },
    };
    let op = match str_field_exec(v, "op") {
        Ok(x) => x,
        Err(e) => {
            return Err(e);
        },
    };
    let dtype = match str_field_exec(v, "dtype") {
        Ok(x) => x,
        Err(e) => {
            return Err(e);
        },
    };
    let rounding = match str_field_exec(v, "rounding") {
        Ok(x) => x,
        Err(e) => {
            return Err(e);
        },
    };
    let cs = match str_field_exec(v, "class") {
        Ok(x) => x,
        Err(e) => {
            return Err(e);
        },
    };
    let class = match class_from_str(cs.as_str()) {
        Ok(c) => c,
        Err(e) => {
            return Err(e);
        },
    };
    let ulp_bound = match u64_field_exec(v, "ulp_bound") {
        Ok(x) => x,
        Err(e) => {
            return Err(e);
        },
    };
    let has_certificate = v.get("certificate").is_some();
    let certificate_precision_bits = certificate_bits_exec(v);
    Ok(Cell {
        tc_id,
        op,
        dtype,
        rounding,
        inputs,
        expected,
        class,
        ulp_bound,
        provenance,
        tags,
        has_certificate,
        certificate_precision_bits,
    })
}

fn vector_message(idx: usize, e: String) -> (m: String)
    ensures
        m@ == "vector["@ + dec_chars(idx as nat) + "]: "@ + e@,
{
    let mut m = String::new();
    push_str(&mut m, "vector[");
    push_dec(&mut m, idx as u64);
    push_str(&mut m, "]: ");
    push_str(&mut m, e.as_str());
    proof {
        assert(m@ =~= "vector["@ + dec_chars(idx as nat) + "]: "@ + e@);
    }
    m
}

fn cells_exec(raw: &[Json]) -> (r: Result<Vec<Cell>, String>)
    requires
        !(cells_of(json_views(raw@)) is Panic),
    ensures
        match cells_of(json_views(raw@)) {
            Outcome::Val(c) => r matches Ok(v) && cells_views(v@) == c,
            Outcome::Decline(e) => r matches Err(m) && m@ == e,
            Outcome::Panic => false,
        },
{
    let ghost xs = json_views(raw@);
    proof {
        crate::json::lemma_json_views_len(raw@);
        assert(xs.take(0) =~= seq![]);
        assert(cells_views(Seq::<Cell>::empty()) =~= seq![]);
    }
    let mut acc: Vec<Cell> = Vec::new();
    let mut i: usize = 0;
    while i < raw.len()
        invariant
            i <= raw@.len(),
            xs == json_views(raw@),
            xs.len() == raw@.len(),
            forall|k: int| 0 <= k < raw@.len() ==> xs[k] == #[trigger] raw@[k]@,
            !(cells_of(xs) is Panic),
            cells_of(xs.take(i as int)) == Outcome::<Seq<CellV>>::Val(cells_views(acc@)),
        decreases raw@.len() - i,
    {
        proof {
            assert(xs.take(i + 1).drop_last() =~= xs.take(i as int));
            assert(xs.take(i + 1).last() == raw@[i as int]@);
            assert(xs.take(i + 1).len() - 1 == i);
            if cell_of(raw@[i as int]@) is Panic {
                lemma_cells_prefix(xs, i + 1);
            }
        }
        match cell_exec(&raw[i]) {
            Ok(c) => {
                let ghost before = acc@;
                acc.push(c);
                proof {
                    assert(cells_views(acc@) =~= cells_views(before).push(acc@.last()@));
                }
            },
            Err(e) => {
                proof {
                    lemma_cells_prefix(xs, i + 1);
                }
                return Err(vector_message(i, e));
            },
        }
        i += 1;
    }
    proof {
        assert(xs.take(i as int) =~= xs);
    }
    Ok(acc)
}

/// Loads a corpus bundle. An unrecognized `schema` or `schema_version`, a
/// missing or mistyped field, a class outside the three determinism classes,
/// or a `reference-observed` provenance declines with its message.
pub fn load(json_text: &str) -> (r: Result<Corpus, String>)
    requires
        json_text@.len() <= 0x1000_0000_0000,
        !(load_spec(json_text@) is Panic),
    ensures
        match load_spec(json_text@) {
            Outcome::Val(c) => r matches Ok(x) && x@ == c,
            Outcome::Decline(e) => r matches Err(m) && m@ == e,
            Outcome::Panic => false,
        },
{
    let root = match parse(json_text) {
        Ok(j) => j,
        Err(e) => {
            return Err(e);
        },
    };
    let schema = match str_field_exec(&root, "schema") {
        Ok(s) => s,
        Err(e) => {
            return Err(e);
        },
    };
    if !str_eq(schema.as_str(), "kiss-oracle-vectors-v1.json") {
        return Err(quoted_message(
            "unrecognized `schema` `",
            schema.as_str(),
            "` (§6.5-0017); recognized: [\"kiss-oracle-vectors-v1.json\"]",
        ));
    }
    let schema_version = match u64_field_exec(&root, "schema_version") {
        Ok(v) => v,
        Err(e) => {
            return Err(e);
        },
    };
    if schema_version != 1 {
        let mut m = String::new();
        push_str(&mut m, "unrecognized `schema_version` ");
        push_dec(&mut m, schema_version);
        push_str(&mut m, " (§6.5-0017); recognized: [1]");
        proof {
            assert(m@ =~= "unrecognized `schema_version` "@ + dec_chars(schema_version as nat)
                + " (§6.5-0017); recognized: [1]"@);
        }
        return Err(m);
    }
    let ulp_metric = match str_field_exec(&root, "ulp_metric") {
        Ok(s) => s,
        Err(e) => {
            return Err(e);
        },
    };
    let raw = match field_exec(&root, "vectors") {
        Ok(f) => match f.as_arr() {
            Some(a) => a,
            None => {
                return Err(string_from("`vectors` is not an array"));
            },
        },
        Err(e) => {
            return Err(e);
        },
    };
    let vectors = match cells_exec(raw) {
        Ok(v) => v,
        Err(e) => {
            return Err(e);
        },
    };
    Ok(Corpus { schema, schema_version, ulp_metric, vectors })
}

} // verus!
