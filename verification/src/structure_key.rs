//! Reference codec for the KISS-Classify `structure_key` token (Classify §6.7).
//!
//! The token is the sole normative wire form of a specialization-cell identity
//! (§6.7-0011), a `|`-separated string:
//! ```text
//!   sk<ver> | <op_family> | <dtype> | <target> | <index_width> | <work_class>
//!           | r<rank> | <op0>;<op1>;… | <reduce>
//!           [ | c<m><n><k>/<kdiv>[/b<class>]/<wdt>/<acc>/<out>/<mp> ]  (gem only, sk3)
//! ```
//! where each `<opI>` is `<contig>/<bcasthex>/<vec>/<div>/<flip>`. `to_token`
//! and `from_token` round-trip byte-identically (§6.7-0008); every hex mask is
//! lowercase, zero-padded to two digits (§6.7-0010); a producer emits `rall` /
//! `rlast` for the all-axes / trailing cases (§6.7-0005). A malformed token is
//! rejected with a typed decline (§6.7-0009). The module also holds the
//! reference derivations of the per-operand facts the sub-key carries (§6.5).

use vstd::prelude::*;
use vstd::utf8::encode_utf8;
use crate::text::{
    byte_hex_lower, chars_eq, chars_of, chars_vv, dec_chars, digits_value, hex_val, hex_value, is_lower_hex_char,
    join, lemma_join_push, parse_unsigned, parse_unsigned_chars, push_byte_hex_lower, push_chars, push_dec, push_str,
    push_join, split_chars, split_seq, str_eq, lemma_split_none, lemma_split_concat, lemma_split_join,
    lemma_join_no_contains, lemma_join_first, string_of, strings_view,
};

verus! {

/// The `structure_key` schema version this codec reads and writes.
pub const SCHEMA_VERSION: u32 = 3;

/// The closed op-family-tag set at this schema version — the 24 codes of
/// Classify §6.5-0006.
pub const OP_FAMILIES: [&'static str; 24] = [
    "gem", "idx", "une", "emb", "bin", "shp", "ter", "srt", "gat", "qnt", "red", "rnd",
    "scn", "los", "nrm", "seg", "sft", "img", "cnv", "fft", "pol", "lin", "att", "moe",
];

/// The closed dtype-token set — the 22 tokens of Classify §6.1, with the FP8
/// spellings variant-explicit.
pub const DTYPES: [&'static str; 22] = [
    "f16", "bf16", "f32", "f64", "s8", "s16", "u8", "u16", "i32", "i64", "u32", "u64", "bool",
    "e4m3fn", "e4m3fnuz", "e5m2", "e5m2fnuz", "s4", "u4", "b1", "c32", "c64",
];

/// The two reserved members of [`DTYPES`] (§6.1-0001): pinned spellings with no
/// computation semantics at this schema version.
pub const RESERVED_DTYPES: [&'static str; 2] = ["e4m3fnuz", "e5m2fnuz"];

/// The pinned closed-set bounds (§6.4).
pub const MAX_OPERANDS: usize = 8;
pub const MAX_STRUCTURE_KEY_LEN: usize = 4096;
/// The pinned rank bound (§6.4-0001): `rank` is the inclusive range `0..=MAX_RANK`.
pub const MAX_RANK: u32 = 8;

/// Whether `s` is one of the entries of `table`.
pub open spec fn in_table(table: Seq<&'static str>, s: Seq<char>) -> bool {
    exists|i: int| 0 <= i < table.len() && (#[trigger] table[i])@ == s
}

/// Whether `s` is one of the entries of `table`.
pub fn table_contains(table: &[&'static str], s: &str) -> (r: bool)
    ensures
        r == in_table(table@, s@),
{
    let mut i: usize = 0;
    while i < table.len()
        invariant
            i <= table@.len(),
            forall|j: int| 0 <= j < i ==> (#[trigger] table@[j])@ != s@,
        decreases table.len() - i,
    {
        if str_eq(table[i], s) {
            assert(table@[i as int]@ == s@);
            return true;
        }
        i += 1;
    }
    false
}

/// An operand's layout tag (§6.5-0002).
#[derive(Debug, Clone, Copy, PartialEq, Eq, Structural)]
pub enum Contig {
    Contiguous,
    InnerContiguous,
    Strided,
    Broadcast,
}

/// The token spelling of a [`Contig`].
pub open spec fn contig_code(v: Contig) -> Seq<char> {
    match v {
        Contig::Contiguous => "co"@,
        Contig::InnerContiguous => "ic"@,
        Contig::Strided => "st"@,
        Contig::Broadcast => "br"@,
    }
}

impl Contig {
    /// The token spelling.
    pub fn code(self) -> (s: &'static str)
        ensures
            s@ == contig_code(self),
    {
        match self {
            Contig::Contiguous => "co",
            Contig::InnerContiguous => "ic",
            Contig::Strided => "st",
            Contig::Broadcast => "br",
        }
    }

    /// The value a token spells, if any.
    pub fn parse(s: &str) -> (r: Option<Contig>)
        ensures
            r == contig_from(s@),
    {
        if str_eq(s, "co") {
            Some(Contig::Contiguous)
        } else if str_eq(s, "ic") {
            Some(Contig::InnerContiguous)
        } else if str_eq(s, "st") {
            Some(Contig::Strided)
        } else if str_eq(s, "br") {
            Some(Contig::Broadcast)
        } else {
            None
        }
    }
}

/// An operand's vector-access width (§6.5-0009).
#[derive(Debug, Clone, Copy, PartialEq, Eq, Structural)]
pub enum VecWidth {
    V1,
    V2,
    V4,
    V8,
}

/// The token spelling of a [`VecWidth`].
pub open spec fn vec_width_code(v: VecWidth) -> Seq<char> {
    match v {
        VecWidth::V1 => "v1"@,
        VecWidth::V2 => "v2"@,
        VecWidth::V4 => "v4"@,
        VecWidth::V8 => "v8"@,
    }
}

impl VecWidth {
    /// The token spelling.
    pub fn code(self) -> (s: &'static str)
        ensures
            s@ == vec_width_code(self),
    {
        match self {
            VecWidth::V1 => "v1",
            VecWidth::V2 => "v2",
            VecWidth::V4 => "v4",
            VecWidth::V8 => "v8",
        }
    }

    /// The value a token spells, if any.
    pub fn parse(s: &str) -> (r: Option<VecWidth>)
        ensures
            r == vec_width_from(s@),
    {
        if str_eq(s, "v1") {
            Some(VecWidth::V1)
        } else if str_eq(s, "v2") {
            Some(VecWidth::V2)
        } else if str_eq(s, "v4") {
            Some(VecWidth::V4)
        } else if str_eq(s, "v8") {
            Some(VecWidth::V8)
        } else {
            None
        }
    }
}

/// The inner-extent divisibility bucket (§6.5-0012).
#[derive(Debug, Clone, Copy, PartialEq, Eq, Structural)]
pub enum DivBucket {
    D16,
    D8,
    D4,
    D2,
    Da,
}

/// The token spelling of a [`DivBucket`].
pub open spec fn div_bucket_code(v: DivBucket) -> Seq<char> {
    match v {
        DivBucket::D16 => "d16"@,
        DivBucket::D8 => "d8"@,
        DivBucket::D4 => "d4"@,
        DivBucket::D2 => "d2"@,
        DivBucket::Da => "da"@,
    }
}

impl DivBucket {
    /// The token spelling.
    pub fn code(self) -> (s: &'static str)
        ensures
            s@ == div_bucket_code(self),
    {
        match self {
            DivBucket::D16 => "d16",
            DivBucket::D8 => "d8",
            DivBucket::D4 => "d4",
            DivBucket::D2 => "d2",
            DivBucket::Da => "da",
        }
    }

    /// The value a token spells, if any.
    pub fn parse(s: &str) -> (r: Option<DivBucket>)
        ensures
            r == div_bucket_from(s@),
    {
        if str_eq(s, "d16") {
            Some(DivBucket::D16)
        } else if str_eq(s, "d8") {
            Some(DivBucket::D8)
        } else if str_eq(s, "d4") {
            Some(DivBucket::D4)
        } else if str_eq(s, "d2") {
            Some(DivBucket::D2)
        } else if str_eq(s, "da") {
            Some(DivBucket::Da)
        } else {
            None
        }
    }
}

/// The work class (§6.5-0007).
#[derive(Debug, Clone, Copy, PartialEq, Eq, Structural)]
pub enum WorkClass {
    Warp,
    Block,
    Grid,
}

/// The token spelling of a [`WorkClass`].
pub open spec fn work_class_code(v: WorkClass) -> Seq<char> {
    match v {
        WorkClass::Warp => "warp"@,
        WorkClass::Block => "block"@,
        WorkClass::Grid => "grid"@,
    }
}

impl WorkClass {
    /// The token spelling.
    pub fn code(self) -> (s: &'static str)
        ensures
            s@ == work_class_code(self),
    {
        match self {
            WorkClass::Warp => "warp",
            WorkClass::Block => "block",
            WorkClass::Grid => "grid",
        }
    }

    /// The value a token spells, if any.
    pub fn parse(s: &str) -> (r: Option<WorkClass>)
        ensures
            r == work_class_from(s@),
    {
        if str_eq(s, "warp") {
            Some(WorkClass::Warp)
        } else if str_eq(s, "block") {
            Some(WorkClass::Block)
        } else if str_eq(s, "grid") {
            Some(WorkClass::Grid)
        } else {
            None
        }
    }
}

/// A contraction size class (§6.7-0006).
#[derive(Debug, Clone, Copy, PartialEq, Eq, Structural)]
pub enum SizeClass {
    Tiny,
    Small,
    Medium,
    Large,
}

/// The token spelling of a [`SizeClass`].
pub open spec fn size_class_code(v: SizeClass) -> Seq<char> {
    match v {
        SizeClass::Tiny => "t"@,
        SizeClass::Small => "s"@,
        SizeClass::Medium => "m"@,
        SizeClass::Large => "l"@,
    }
}

impl SizeClass {
    /// The token spelling.
    pub fn code(self) -> (s: &'static str)
        ensures
            s@ == size_class_code(self),
    {
        match self {
            SizeClass::Tiny => "t",
            SizeClass::Small => "s",
            SizeClass::Medium => "m",
            SizeClass::Large => "l",
        }
    }

    /// The value a token spells, if any.
    pub fn parse(s: &str) -> (r: Option<SizeClass>)
        ensures
            r == size_class_from(s@),
    {
        if str_eq(s, "t") {
            Some(SizeClass::Tiny)
        } else if str_eq(s, "s") {
            Some(SizeClass::Small)
        } else if str_eq(s, "m") {
            Some(SizeClass::Medium)
        } else if str_eq(s, "l") {
            Some(SizeClass::Large)
        } else {
            None
        }
    }
}

/// The gem math-precision code: codes never begin with `b`, which the batch
/// coordinate reserves.
#[derive(Debug, Clone, Copy, PartialEq, Eq, Structural)]
pub enum MathPrecision {
    Stable,
    ReducedMantissa,
}

/// The token spelling of a [`MathPrecision`].
pub open spec fn math_precision_code(v: MathPrecision) -> Seq<char> {
    match v {
        MathPrecision::Stable => "st"@,
        MathPrecision::ReducedMantissa => "rm"@,
    }
}

impl MathPrecision {
    /// The token spelling.
    pub fn code(self) -> (s: &'static str)
        ensures
            s@ == math_precision_code(self),
    {
        match self {
            MathPrecision::Stable => "st",
            MathPrecision::ReducedMantissa => "rm",
        }
    }

    /// The value a token spells, if any.
    pub fn parse(s: &str) -> (r: Option<MathPrecision>)
        ensures
            r == math_precision_from(s@),
    {
        if str_eq(s, "st") {
            Some(MathPrecision::Stable)
        } else if str_eq(s, "rm") {
            Some(MathPrecision::ReducedMantissa)
        } else {
            None
        }
    }
}

/// The [`Contig`] a token spells, if any.
pub open spec fn contig_from(s: Seq<char>) -> Option<Contig> {
    if s == "co"@ {
        Some(Contig::Contiguous)
    } else if s == "ic"@ {
        Some(Contig::InnerContiguous)
    } else if s == "st"@ {
        Some(Contig::Strided)
    } else if s == "br"@ {
        Some(Contig::Broadcast)
    } else {
        None
    }
}

/// Each [`Contig`] code reads back as itself.
pub proof fn lemma_contig_code(v: Contig)
    ensures
        contig_from(contig_code(v)) == Some(v),
        !contig_code(v).contains('|'),
        !contig_code(v).contains(';'),
        !contig_code(v).contains('/'),
{
    reveal_strlit("co");
    reveal_strlit("ic");
    reveal_strlit("st");
    reveal_strlit("br");
    match v {
        Contig::Contiguous => {
        },
        Contig::InnerContiguous => {
            assert("ic"@[0] != "co"@[0]);
        },
        Contig::Strided => {
            assert("st"@[0] != "co"@[0]);
            assert("st"@[0] != "ic"@[0]);
        },
        Contig::Broadcast => {
            assert("br"@[0] != "co"@[0]);
            assert("br"@[0] != "ic"@[0]);
            assert("br"@[0] != "st"@[0]);
        },
    }
}

/// The [`VecWidth`] a token spells, if any.
pub open spec fn vec_width_from(s: Seq<char>) -> Option<VecWidth> {
    if s == "v1"@ {
        Some(VecWidth::V1)
    } else if s == "v2"@ {
        Some(VecWidth::V2)
    } else if s == "v4"@ {
        Some(VecWidth::V4)
    } else if s == "v8"@ {
        Some(VecWidth::V8)
    } else {
        None
    }
}

/// Each [`VecWidth`] code reads back as itself.
pub proof fn lemma_vec_width_code(v: VecWidth)
    ensures
        vec_width_from(vec_width_code(v)) == Some(v),
        !vec_width_code(v).contains('|'),
        !vec_width_code(v).contains(';'),
        !vec_width_code(v).contains('/'),
{
    reveal_strlit("v1");
    reveal_strlit("v2");
    reveal_strlit("v4");
    reveal_strlit("v8");
    match v {
        VecWidth::V1 => {
        },
        VecWidth::V2 => {
            assert("v2"@[1] != "v1"@[1]);
        },
        VecWidth::V4 => {
            assert("v4"@[1] != "v1"@[1]);
            assert("v4"@[1] != "v2"@[1]);
        },
        VecWidth::V8 => {
            assert("v8"@[1] != "v1"@[1]);
            assert("v8"@[1] != "v2"@[1]);
            assert("v8"@[1] != "v4"@[1]);
        },
    }
}

/// The [`DivBucket`] a token spells, if any.
pub open spec fn div_bucket_from(s: Seq<char>) -> Option<DivBucket> {
    if s == "d16"@ {
        Some(DivBucket::D16)
    } else if s == "d8"@ {
        Some(DivBucket::D8)
    } else if s == "d4"@ {
        Some(DivBucket::D4)
    } else if s == "d2"@ {
        Some(DivBucket::D2)
    } else if s == "da"@ {
        Some(DivBucket::Da)
    } else {
        None
    }
}

/// Each [`DivBucket`] code reads back as itself.
pub proof fn lemma_div_bucket_code(v: DivBucket)
    ensures
        div_bucket_from(div_bucket_code(v)) == Some(v),
        !div_bucket_code(v).contains('|'),
        !div_bucket_code(v).contains(';'),
        !div_bucket_code(v).contains('/'),
{
    reveal_strlit("d16");
    reveal_strlit("d8");
    reveal_strlit("d4");
    reveal_strlit("d2");
    reveal_strlit("da");
    match v {
        DivBucket::D16 => {
        },
        DivBucket::D8 => {
            assert("d8"@.len() != "d16"@.len());
        },
        DivBucket::D4 => {
            assert("d4"@.len() != "d16"@.len());
            assert("d4"@[1] != "d8"@[1]);
        },
        DivBucket::D2 => {
            assert("d2"@.len() != "d16"@.len());
            assert("d2"@[1] != "d8"@[1]);
            assert("d2"@[1] != "d4"@[1]);
        },
        DivBucket::Da => {
            assert("da"@.len() != "d16"@.len());
            assert("da"@[1] != "d8"@[1]);
            assert("da"@[1] != "d4"@[1]);
            assert("da"@[1] != "d2"@[1]);
        },
    }
}

/// The [`WorkClass`] a token spells, if any.
pub open spec fn work_class_from(s: Seq<char>) -> Option<WorkClass> {
    if s == "warp"@ {
        Some(WorkClass::Warp)
    } else if s == "block"@ {
        Some(WorkClass::Block)
    } else if s == "grid"@ {
        Some(WorkClass::Grid)
    } else {
        None
    }
}

/// Each [`WorkClass`] code reads back as itself.
pub proof fn lemma_work_class_code(v: WorkClass)
    ensures
        work_class_from(work_class_code(v)) == Some(v),
        !work_class_code(v).contains('|'),
        !work_class_code(v).contains(';'),
        !work_class_code(v).contains('/'),
{
    reveal_strlit("warp");
    reveal_strlit("block");
    reveal_strlit("grid");
    match v {
        WorkClass::Warp => {
        },
        WorkClass::Block => {
            assert("block"@.len() != "warp"@.len());
        },
        WorkClass::Grid => {
            assert("grid"@[0] != "warp"@[0]);
            assert("grid"@.len() != "block"@.len());
        },
    }
}

/// The [`SizeClass`] a token spells, if any.
pub open spec fn size_class_from(s: Seq<char>) -> Option<SizeClass> {
    if s == "t"@ {
        Some(SizeClass::Tiny)
    } else if s == "s"@ {
        Some(SizeClass::Small)
    } else if s == "m"@ {
        Some(SizeClass::Medium)
    } else if s == "l"@ {
        Some(SizeClass::Large)
    } else {
        None
    }
}

/// Each [`SizeClass`] code reads back as itself.
pub proof fn lemma_size_class_code(v: SizeClass)
    ensures
        size_class_from(size_class_code(v)) == Some(v),
        !size_class_code(v).contains('|'),
        !size_class_code(v).contains(';'),
        !size_class_code(v).contains('/'),
{
    reveal_strlit("t");
    reveal_strlit("s");
    reveal_strlit("m");
    reveal_strlit("l");
    match v {
        SizeClass::Tiny => {
        },
        SizeClass::Small => {
            assert("s"@[0] != "t"@[0]);
        },
        SizeClass::Medium => {
            assert("m"@[0] != "t"@[0]);
            assert("m"@[0] != "s"@[0]);
        },
        SizeClass::Large => {
            assert("l"@[0] != "t"@[0]);
            assert("l"@[0] != "s"@[0]);
            assert("l"@[0] != "m"@[0]);
        },
    }
}

/// The [`MathPrecision`] a token spells, if any.
pub open spec fn math_precision_from(s: Seq<char>) -> Option<MathPrecision> {
    if s == "st"@ {
        Some(MathPrecision::Stable)
    } else if s == "rm"@ {
        Some(MathPrecision::ReducedMantissa)
    } else {
        None
    }
}

/// Each [`MathPrecision`] code reads back as itself.
pub proof fn lemma_math_precision_code(v: MathPrecision)
    ensures
        math_precision_from(math_precision_code(v)) == Some(v),
        !math_precision_code(v).contains('|'),
        !math_precision_code(v).contains(';'),
        !math_precision_code(v).contains('/'),
{
    reveal_strlit("st");
    reveal_strlit("rm");
    match v {
        MathPrecision::Stable => {
        },
        MathPrecision::ReducedMantissa => {
            assert("rm"@[0] != "st"@[0]);
        },
    }
}

// ---------------------------------------------------------------------------
// Reference derivations (§6.5) under the outermost-first axis convention.
// ---------------------------------------------------------------------------

/// Whether an `l`-wide packed load fits: within the 16-byte cap, the alignment
/// an exact multiple of its width, and the extent divisible by `l`.
pub open spec fn packs(l: int, dsz: int, align: int, ext: int) -> bool {
    l * dsz <= 16 && align % (l * dsz) == 0 && ext % l == 0
}

/// The vector width §6.5-0009(c) and §6.5-0013 derive.
pub open spec fn vec_width_of(
    stride: i64,
    extent: i64,
    dsz: Option<u32>,
    align: u32,
    bcast: bool,
) -> VecWidth {
    match dsz {
        None => VecWidth::V1,
        Some(d) => if stride != 1 || bcast || align == 0 || extent <= 0 {
            VecWidth::V1
        } else if packs(8, d as int, align as int, extent as int) {
            VecWidth::V8
        } else if packs(4, d as int, align as int, extent as int) {
            VecWidth::V4
        } else if packs(2, d as int, align as int, extent as int) {
            VecWidth::V2
        } else {
            VecWidth::V1
        },
    }
}

/// Derive an operand's vector-access width from its innermost-active-axis facts
/// (§6.5-0009(c), §6.5-0013): a sub-byte dtype (`None`), a non-forward-unit
/// stride, a broadcast axis, an unspecified (`0`) alignment or a zero extent
/// derive `v1`; otherwise the widest `L` of 8, 4, 2 whose load is within 16
/// bytes, divides the alignment exactly and divides the extent. A zero storage
/// width is outside the derivation's domain where the width test is reached.
pub fn derive_vec_width(
    inner_stride: i64,
    inner_extent: i64,
    dtype_storage_bytes: Option<u32>,
    alignment: u32,
    any_axis_broadcast: bool,
) -> (w: VecWidth)
    requires
        dtype_storage_bytes == Some(0u32) ==> (inner_stride != 1 || any_axis_broadcast || alignment
            == 0 || inner_extent <= 0),
    ensures
        w == vec_width_of(
            inner_stride,
            inner_extent,
            dtype_storage_bytes,
            alignment,
            any_axis_broadcast,
        ),
{
    let dsz = match dtype_storage_bytes {
        Some(d) => d,
        None => {
            return VecWidth::V1;
        },
    };
    if inner_stride != 1 || any_axis_broadcast {
        return VecWidth::V1;
    }
    if alignment == 0 {
        return VecWidth::V1;
    }
    if inner_extent <= 0 {
        return VecWidth::V1;
    }
    let ext = inner_extent as u64;
    let d = dsz as u64;
    let align = alignment as u64;
    let mut i: usize = 0;
    while i < 3
        invariant
            i <= 3,
            d > 0,
            inner_stride == 1,
            !any_axis_broadcast,
            alignment != 0,
            inner_extent > 0,
            dtype_storage_bytes == Some(dsz),
            d == dsz,
            ext == inner_extent,
            align == alignment,
            i >= 1 ==> !packs(8, d as int, align as int, ext as int),
            i >= 2 ==> !packs(4, d as int, align as int, ext as int),
            i >= 3 ==> !packs(2, d as int, align as int, ext as int),
        decreases 3 - i,
    {
        let l: u64 = if i == 0 {
            8
        } else if i == 1 {
            4
        } else {
            2
        };
        let vbytes = l * d;
        if vbytes <= 16 && align % vbytes == 0 && ext % l == 0 {
            assert(packs(l as int, d as int, align as int, ext as int));
            if l == 8 {
                return VecWidth::V8;
            } else if l == 4 {
                assert(!packs(8, d as int, align as int, ext as int));
                return VecWidth::V4;
            } else {
                assert(!packs(8, d as int, align as int, ext as int));
                assert(!packs(4, d as int, align as int, ext as int));
                return VecWidth::V2;
            }
        }
        i += 1;
    }
    assert(!packs(8, d as int, align as int, ext as int));
    assert(!packs(4, d as int, align as int, ext as int));
    assert(!packs(2, d as int, align as int, ext as int));
    VecWidth::V1
}

/// The divisibility bucket of an innermost extent (§6.5-0012).
pub open spec fn div_bucket_of(e: i64) -> DivBucket {
    if e >= 16 && e % 16 == 0 {
        DivBucket::D16
    } else if e >= 8 && e % 8 == 0 {
        DivBucket::D8
    } else if e >= 4 && e % 4 == 0 {
        DivBucket::D4
    } else if e >= 2 && e % 2 == 0 {
        DivBucket::D2
    } else {
        DivBucket::Da
    }
}

/// The divisibility bucket of a positive extent is the largest of 16, 8, 4 and
/// 2 that divides it; a zero, negative or odd extent is `da`.
pub proof fn div_bucket_is_largest_power_of_two_factor(e: i64)
    ensures
        (div_bucket_of(e) == DivBucket::D16) <==> (e > 0 && e % 16 == 0),
        (div_bucket_of(e) == DivBucket::D8) <==> (e > 0 && e % 8 == 0 && e % 16 != 0),
        (div_bucket_of(e) == DivBucket::D4) <==> (e > 0 && e % 4 == 0 && e % 8 != 0),
        (div_bucket_of(e) == DivBucket::D2) <==> (e > 0 && e % 2 == 0 && e % 4 != 0),
        (div_bucket_of(e) == DivBucket::Da) <==> (e <= 0 || e % 2 != 0),
{
    if e > 0 {
        assert(e % 16 == 0 ==> e % 8 == 0 && e % 4 == 0 && e % 2 == 0);
        assert(e % 8 == 0 ==> e % 4 == 0 && e % 2 == 0);
        assert(e % 4 == 0 ==> e % 2 == 0);
    }
}

/// §6.5-0012: `d16` iff `E >= 16 && E % 16 == 0`, else `d8`, `d4`, `d2` in the
/// same way, else `da` (odd `E`, `E == 1`, `E == 0`, negative `E`).
pub fn derive_div_bucket(inner_extent: i64) -> (b: DivBucket)
    ensures
        b == div_bucket_of(inner_extent),
        (b == DivBucket::D16) <==> (inner_extent > 0 && inner_extent % 16 == 0),
        (b == DivBucket::D8) <==> (inner_extent > 0 && inner_extent % 8 == 0 && inner_extent % 16 != 0),
        (b == DivBucket::D4) <==> (inner_extent > 0 && inner_extent % 4 == 0 && inner_extent % 8 != 0),
        (b == DivBucket::D2) <==> (inner_extent > 0 && inner_extent % 2 == 0 && inner_extent % 4 != 0),
        (b == DivBucket::Da) <==> (inner_extent <= 0 || inner_extent % 2 != 0),
{
    proof {
        div_bucket_is_largest_power_of_two_factor(inner_extent);
    }
    let e = inner_extent;
    if e >= 16 && e % 16 == 0 {
        DivBucket::D16
    } else if e >= 8 && e % 8 == 0 {
        DivBucket::D8
    } else if e >= 4 && e % 4 == 0 {
        DivBucket::D4
    } else if e >= 2 && e % 2 == 0 {
        DivBucket::D2
    } else {
        DivBucket::Da
    }
}

/// §6.5-0012 over an operand's extents: the innermost axis is the last extent
/// (§6.3-0011); a rank-0 operand buckets `da`.
pub fn derive_div_bucket_of(extents: &[i64]) -> (b: DivBucket)
    ensures
        b == (if extents@.len() == 0 {
            DivBucket::Da
        } else {
            div_bucket_of(extents@.last())
        }),
{
    if extents.len() == 0 {
        DivBucket::Da
    } else {
        derive_div_bucket(extents[extents.len() - 1])
    }
}

/// §6.3-0011: axes are outermost-first, so the innermost active axis is the
/// highest index; a rank-0 (scalar) operand has none.
pub fn innermost_active_axis(rank: usize) -> (r: Option<usize>)
    ensures
        r == (if rank == 0 {
            None
        } else {
            Some((rank - 1) as usize)
        }),
{
    if rank == 0 {
        None
    } else {
        Some(rank - 1)
    }
}


/// One axis's contribution to the touched offset: `|stride| * (extent - 1)`, or
/// `0` for a broadcast (stride `0`) axis.
pub open spec fn axis_offset(e: i64, s: i64) -> int {
    if s == 0 {
        0
    } else {
        abs(s as int) * (e - 1)
    }
}

/// `|v|`.
pub open spec fn abs(v: int) -> int {
    if v < 0 {
        -v
    } else {
        v
    }
}

/// The touched offset over the first `n` axes.
pub open spec fn touched(e: Seq<i64>, s: Seq<i64>, n: nat) -> int
    decreases n,
{
    if n == 0 {
        0
    } else {
        touched(e, s, (n - 1) as nat) + axis_offset(e[n - 1], s[n - 1])
    }
}

/// The number of axes an `extents`/`strides` pair describes: the shorter length.
pub open spec fn axes(e: Seq<i64>, s: Seq<i64>) -> nat {
    if e.len() < s.len() {
        e.len()
    } else {
        s.len()
    }
}

/// The touched-offset sum stays within `i64` at every step, and every nonzero
/// stride and its extent can be negated and decremented.
pub open spec fn touched_fits(e: Seq<i64>, s: Seq<i64>) -> bool {
    forall|k: int|
        0 <= k < axes(e, s) ==> (s[k] != 0 ==> s[k] != i64::MIN && e[k] != i64::MIN && i64::MIN
            <= #[trigger] axis_offset(e[k], s[k]) <= i64::MAX) && i64::MIN <= touched(
            e,
            s,
            (k + 1) as nat,
        ) <= i64::MAX
}

/// §6.5-0011: the maximum touched element offset of one operand — the sum over
/// its axes of `|stride| * (extent - 1)`, a broadcast axis contributing `0`.
pub fn operand_touched_offset(extents: &[i64], strides: &[i64]) -> (r: i64)
    requires
        touched_fits(extents@, strides@),
    ensures
        r == touched(extents@, strides@, axes(extents@, strides@)),
{
    let n = if extents.len() < strides.len() {
        extents.len()
    } else {
        strides.len()
    };
    let mut sum: i64 = 0;
    let mut i: usize = 0;
    while i < n
        invariant
            n == axes(extents@, strides@),
            i <= n,
            touched_fits(extents@, strides@),
            sum == touched(extents@, strides@, i as nat),
        decreases n - i,
    {
        let e = extents[i];
        let st = strides[i];
        assert(i64::MIN <= axis_offset(extents@[i as int], strides@[i as int]) <= i64::MAX);
        let term: i64 = if st == 0 {
            0
        } else {
            let a = if st < 0 {
                -st
            } else {
                st
            };
            assert(axis_offset(e, st) == a * (e - 1));
            a * (e - 1)
        };
        assert(i64::MIN <= touched(extents@, strides@, (i + 1) as nat) <= i64::MAX);
        sum = sum + term;
        i += 1;
    }
    sum
}

/// Whether every operand's touched offset can be computed within `i64`.
pub open spec fn all_touched_fit(ops: Seq<(&[i64], &[i64])>) -> bool {
    forall|i: int| 0 <= i < ops.len() ==> touched_fits(#[trigger] ops[i].0@, ops[i].1@)
}

/// The touched offset of an operand.
pub open spec fn op_touched(op: (&[i64], &[i64])) -> int {
    touched(op.0@, op.1@, axes(op.0@, op.1@))
}

/// §6.5-0011 + §6.5-0005: the index-width token — `ix32` iff the maximum touched
/// element offset over all operands is below `2^31` (an empty operand list
/// counts as `0`), else `ix64`.
pub fn derive_index_width(operands: &[(&[i64], &[i64])]) -> (t: &'static str)
    requires
        all_touched_fit(operands@),
    ensures
        t@ == (if forall|i: int| 0 <= i < operands@.len() ==> #[trigger] op_touched(operands@[i])
            < 0x8000_0000 {
            "ix32"@
        } else {
            "ix64"@
        }),
{
    let mut i: usize = 0;
    while i < operands.len()
        invariant
            i <= operands@.len(),
            all_touched_fit(operands@),
            forall|j: int| 0 <= j < i ==> #[trigger] op_touched(operands@[j]) < 0x8000_0000,
        decreases operands.len() - i,
    {
        let (e, st) = operands[i];
        assert(touched_fits(operands@[i as int].0@, operands@[i as int].1@));
        let off = operand_touched_offset(e, st);
        if off >= 0x8000_0000 {
            assert(op_touched(operands@[i as int]) >= 0x8000_0000);
            return "ix64";
        }
        i += 1;
    }
    "ix32"
}

/// The extent operand `e` contributes at frame axis `j` of a frame of rank `r`,
/// right-aligned: `1` on an axis it does not cover.
pub open spec fn frame_at(e: Seq<i64>, r: nat, j: nat) -> i64 {
    let offset = r - e.len();
    if j < offset {
        1
    } else {
        e[j - offset]
    }
}

/// The maximum, over the first `k` operands, of their contribution at frame
/// axis `j` (`1` when there is none).
pub open spec fn frame_max(ops: Seq<&[i64]>, r: nat, j: nat, k: nat) -> i64
    decreases k,
{
    if k == 0 {
        1
    } else if k == 1 {
        frame_at(ops[0]@, r, j)
    } else {
        let m = frame_max(ops, r, j, (k - 1) as nat);
        let v = frame_at(ops[k - 1]@, r, j);
        if v > m {
            v
        } else {
            m
        }
    }
}

/// The iteration rank: the largest operand rank (`0` for no operand).
pub open spec fn iteration_rank(ops: Seq<&[i64]>, k: nat) -> nat
    decreases k,
{
    if k == 0 {
        0
    } else {
        let m = iteration_rank(ops, (k - 1) as nat);
        if ops[k - 1]@.len() > m {
            ops[k - 1]@.len()
        } else {
            m
        }
    }
}

/// The product of the frame-max extents of the first `j` frame axes.
pub open spec fn frame_product(ops: Seq<&[i64]>, r: nat, j: nat) -> int
    decreases j,
{
    if j == 0 {
        1
    } else {
        frame_product(ops, r, (j - 1) as nat) * frame_max(ops, r, (j - 1) as nat, ops.len())
    }
}

proof fn lemma_iteration_rank(ops: Seq<&[i64]>, k: nat)
    requires
        k <= ops.len(),
    ensures
        forall|i: int| 0 <= i < k ==> (#[trigger] ops[i]@).len() <= iteration_rank(ops, k),
    decreases k,
{
    if k > 0 {
        lemma_iteration_rank(ops, (k - 1) as nat);
    }
}

/// §6.5-0010 + §6.6-0013: the work-class total element count — the product,
/// over the frame axes, of the maximum extent across operands at that axis
/// (frame-max), operands right-aligned to the iteration rank (the largest
/// operand rank) and broadcast (extent `1`) on the axes they do not cover.
pub fn work_class_element_count(operands: &[&[i64]]) -> (c: i64)
    requires
        forall|j: nat|
            j <= iteration_rank(operands@, operands@.len()) ==> i64::MIN <= #[trigger] frame_product(
                operands@,
                iteration_rank(operands@, operands@.len()),
                j,
            ) <= i64::MAX,
    ensures
        c == frame_product(
            operands@,
            iteration_rank(operands@, operands@.len()),
            iteration_rank(operands@, operands@.len()),
        ),
{
    let ghost ops = operands@;
    let mut r: usize = 0;
    let mut k: usize = 0;
    while k < operands.len()
        invariant
            k <= ops.len(),
            ops == operands@,
            r == iteration_rank(ops, k as nat),
        decreases operands.len() - k,
    {
        if operands[k].len() > r {
            r = operands[k].len();
        }
        k += 1;
    }
    proof {
        lemma_iteration_rank(ops, ops.len());
    }
    let mut prod: i64 = 1;
    let mut j: usize = 0;
    while j < r
        invariant
            j <= r,
            ops == operands@,
            r == iteration_rank(ops, ops.len()),
            forall|i: int| 0 <= i < ops.len() ==> (#[trigger] ops[i]@).len() <= r,
            forall|jj: nat| jj <= r ==> i64::MIN <= #[trigger] frame_product(ops, r as nat, jj) <= i64::MAX,
            prod == frame_product(ops, r as nat, j as nat),
        decreases r - j,
    {
        let mut m: i64 = 1;
        let mut q: usize = 0;
        while q < operands.len()
            invariant
                q <= ops.len(),
                ops == operands@,
                j < r,
                forall|i: int| 0 <= i < ops.len() ==> (#[trigger] ops[i]@).len() <= r,
                m == frame_max(ops, r as nat, j as nat, q as nat),
            decreases operands.len() - q,
        {
            let e = operands[q];
            assert(ops[q as int]@.len() <= r);
            let offset = r - e.len();
            let v = if j < offset {
                1
            } else {
                e[j - offset]
            };
            assert(v == frame_at(ops[q as int]@, r as nat, j as nat));
            if q == 0 || v > m {
                m = v;
            }
            q += 1;
        }
        assert(prod * m == frame_product(ops, r as nat, (j + 1) as nat));
        assert(i64::MIN <= frame_product(ops, r as nat, (j + 1) as nat) <= i64::MAX);
        prod = prod * m;
        j += 1;
    }
    prod
}

/// The work class of a total element count (§6.5-0007).
pub open spec fn work_class_of(c: int) -> WorkClass {
    if c <= 32 {
        WorkClass::Warp
    } else if c <= 1024 {
        WorkClass::Block
    } else {
        WorkClass::Grid
    }
}

/// §6.5-0010 + §6.5-0007: the work class of the frame-max total element count —
/// `warp` iff `count <= 32`, `block` iff `count <= 1024`, else `grid`.
pub fn derive_work_class(operands: &[&[i64]]) -> (w: WorkClass)
    requires
        forall|j: nat|
            j <= iteration_rank(operands@, operands@.len()) ==> i64::MIN <= #[trigger] frame_product(
                operands@,
                iteration_rank(operands@, operands@.len()),
                j,
            ) <= i64::MAX,
    ensures
        w == work_class_of(
            frame_product(
                operands@,
                iteration_rank(operands@, operands@.len()),
                iteration_rank(operands@, operands@.len()),
            ),
        ),
{
    let c = work_class_element_count(operands);
    if c <= 32 {
        WorkClass::Warp
    } else if c <= 1024 {
        WorkClass::Block
    } else {
        WorkClass::Grid
    }
}


/// Whether some axis of extent `> 1` has stride `0`.
pub open spec fn has_broadcast_axis(e: Seq<i64>, s: Seq<i64>) -> bool {
    exists|k: int| 0 <= k < axes(e, s) && #[trigger] e[k] > 1 && s[k] == 0
}

/// The `(extent, stride)` pairs of the active non-unit axes (extent neither `0`
/// nor `1`) among the first `n`, outermost-first.
pub open spec fn nonunit(e: Seq<i64>, s: Seq<i64>, n: nat) -> Seq<(i64, i64)>
    decreases n,
{
    if n == 0 {
        seq![]
    } else {
        let r = nonunit(e, s, (n - 1) as nat);
        if e[n - 1] != 0 && e[n - 1] != 1 {
            r.push((e[n - 1], s[n - 1]))
        } else {
            r
        }
    }
}

/// The contiguity test of §6.5-0002 (2): visiting the axes innermost to
/// outermost with a running product `p`, each `|stride|` equals `p` before
/// `p *= extent`.
pub open spec fn contig_run(nu: Seq<(i64, i64)>, p: int) -> bool
    decreases nu.len(),
{
    if nu.len() == 0 {
        true
    } else if abs(nu.last().1 as int) != p {
        false
    } else {
        contig_run(nu.drop_last(), p * nu.last().0)
    }
}

/// The contiguity test's strides can be negated and its running product stays
/// within `i64`.
pub open spec fn run_fits(nu: Seq<(i64, i64)>, p: int) -> bool
    decreases nu.len(),
{
    if nu.len() == 0 {
        true
    } else {
        nu.last().1 != i64::MIN && (abs(nu.last().1 as int) != p || (i64::MIN <= p * nu.last().0
            <= i64::MAX && run_fits(nu.drop_last(), p * nu.last().0)))
    }
}

/// The layout tag §6.5-0002 derives.
pub open spec fn layout_of(e: Seq<i64>, s: Seq<i64>) -> Contig {
    let nu = nonunit(e, s, axes(e, s));
    if has_broadcast_axis(e, s) {
        Contig::Broadcast
    } else if contig_run(nu, 1) {
        Contig::Contiguous
    } else if nu.len() > 0 && abs(nu.last().1 as int) == 1 {
        Contig::InnerContiguous
    } else {
        Contig::Strided
    }
}

/// §6.5-0002: the `layout_tag` from `extents` and `strides` using `|stride|`
/// (a fully reversed view is `contiguous`; the reversal is the flipped flag).
/// (1) `broadcast` if an axis of extent `> 1` has stride `0`; (2) else
/// `contiguous` if, visiting the active non-unit axes innermost to outermost
/// with a running product `P = 1`, each `|stride| == P` before `P *= extent`;
/// (3) else `inner-contiguous` if the innermost active non-unit axis has
/// `|stride| == 1`; (4) else `strided`.
pub fn derive_layout_tag(extents: &[i64], strides: &[i64]) -> (c: Contig)
    requires
        !has_broadcast_axis(extents@, strides@) ==> run_fits(
            nonunit(extents@, strides@, axes(extents@, strides@)),
            1,
        ),
    ensures
        c == layout_of(extents@, strides@),
{
    let n = if extents.len() < strides.len() {
        extents.len()
    } else {
        strides.len()
    };
    let mut i: usize = 0;
    while i < n
        invariant
            n == axes(extents@, strides@),
            i <= n,
            forall|k: int| 0 <= k < i ==> !(#[trigger] extents@[k] > 1 && strides@[k] == 0),
        decreases n - i,
    {
        if extents[i] > 1 && strides[i] == 0 {
            assert(extents@[i as int] > 1 && strides@[i as int] == 0);
            return Contig::Broadcast;
        }
        i += 1;
    }
    assert(!has_broadcast_axis(extents@, strides@));
    let ghost nu_all = nonunit(extents@, strides@, n as nat);
    let mut nu: Vec<(i64, i64)> = Vec::new();
    let mut i: usize = 0;
    while i < n
        invariant
            n == axes(extents@, strides@),
            i <= n,
            nu@ == nonunit(extents@, strides@, i as nat),
        decreases n - i,
    {
        let e = extents[i];
        if e != 0 && e != 1 {
            nu.push((e, strides[i]));
        }
        i += 1;
    }
    let mut p: i64 = 1;
    let mut k: usize = nu.len();
    let mut contiguous = true;
    assert(nu@.take(k as int) == nu@);
    while k > 0
        invariant_except_break
            contiguous,
        invariant
            k <= nu@.len(),
            contig_run(nu@, 1) == contig_run(nu@.take(k as int), p as int),
            run_fits(nu@.take(k as int), p as int),
        ensures
            contiguous <==> contig_run(nu@, 1),
        decreases k,
    {
        let (e, st) = nu[k - 1];
        let ghost t = nu@.take(k as int);
        assert(t.last() == (e, st));
        assert(t.drop_last() == nu@.take(k - 1));
        let a = if st < 0 {
            -st
        } else {
            st
        };
        if a != p {
            contiguous = false;
            break;
        }
        p = p * e;
        k -= 1;
        if k == 0 {
            assert(nu@.take(0) =~= Seq::<(i64, i64)>::empty());
        }
    }
    if contiguous {
        assert(nu@.take(0) =~= Seq::<(i64, i64)>::empty());
        return Contig::Contiguous;
    }
    if nu.len() > 0 {
        let (_, st) = nu[nu.len() - 1];
        proof {
            lemma_run_fits_last(nu@, 1);
        }
        let a = if st < 0 {
            -st
        } else {
            st
        };
        if a == 1 {
            return Contig::InnerContiguous;
        }
    }
    Contig::Strided
}

proof fn lemma_run_fits_last(nu: Seq<(i64, i64)>, p: int)
    requires
        nu.len() > 0,
        run_fits(nu, p),
    ensures
        nu.last().1 != i64::MIN,
{
}


// ---------------------------------------------------------------------------
// The key and its token.
// ---------------------------------------------------------------------------

/// One operand's sub-key: `<contig>/<bcasthex>/<vec>/<div>/<flip>`.
#[derive(Debug, Clone, Copy, PartialEq, Eq, Structural)]
pub struct OperandSubKey {
    pub contig: Contig,
    pub bcast_mask: u8,
    pub vec: VecWidth,
    pub div: DivBucket,
    pub flipped: bool,
}

/// Field 8, the four distinctly-encoded reduce values (§6.7-0005).
#[derive(Debug, Clone, Copy, PartialEq, Eq, Structural)]
pub enum Reduce {
    /// No reduction (`-`).
    NotReduced,
    All,
    Trailing,
    Subset(u8),
}

/// The optional dense-contraction field (§6.7-0006), present iff
/// `op_family == gem`: a geometry group (`m`/`n`/`k`, `k_div`, the
/// conditionally-present `batch`) then a precision group (weight, accumulator
/// and output dtypes and the math-precision code).
#[derive(Debug, Clone, PartialEq, Eq)]
pub struct Contraction {
    pub m: SizeClass,
    pub n: SizeClass,
    pub k: SizeClass,
    pub k_div: DivBucket,
    /// `Some(class)` iff batched (serialized `b<class>`).
    pub batch: Option<SizeClass>,
    /// Weight (operand-1) dtype token, from the closed §6.1 set.
    pub wdt: String,
    /// Accumulator / compute dtype token, from the closed §6.1 set.
    pub acc: String,
    /// Output dtype token, from the closed §6.1 set.
    pub out: String,
    /// Math-precision code (`st` bit-stable / `rm` reduced-mantissa).
    pub mp: MathPrecision,
}

/// The content of a [`Contraction`].
pub struct ContractionView {
    pub m: SizeClass,
    pub n: SizeClass,
    pub k: SizeClass,
    pub k_div: DivBucket,
    pub batch: Option<SizeClass>,
    pub wdt: Seq<char>,
    pub acc: Seq<char>,
    pub out: Seq<char>,
    pub mp: MathPrecision,
}

impl View for Contraction {
    type V = ContractionView;

    open spec fn view(&self) -> ContractionView {
        ContractionView {
            m: self.m,
            n: self.n,
            k: self.k,
            k_div: self.k_div,
            batch: self.batch,
            wdt: self.wdt@,
            acc: self.acc@,
            out: self.out@,
            mp: self.mp,
        }
    }
}

/// A specialization-cell identity.
#[derive(Debug, Clone, PartialEq, Eq)]
pub struct StructureKey {
    pub op_family: String,
    pub dtype: String,
    pub target: String,
    pub index_width: String,
    pub work_class: WorkClass,
    pub rank: u32,
    pub operands: Vec<OperandSubKey>,
    pub reduce: Reduce,
    pub contraction: Option<Contraction>,
}

/// The content of a [`StructureKey`].
pub struct KeyView {
    pub op_family: Seq<char>,
    pub dtype: Seq<char>,
    pub target: Seq<char>,
    pub index_width: Seq<char>,
    pub work_class: WorkClass,
    pub rank: u32,
    pub operands: Seq<OperandSubKey>,
    pub reduce: Reduce,
    pub contraction: Option<ContractionView>,
}

impl View for StructureKey {
    type V = KeyView;

    open spec fn view(&self) -> KeyView {
        KeyView {
            op_family: self.op_family@,
            dtype: self.dtype@,
            target: self.target@,
            index_width: self.index_width@,
            work_class: self.work_class,
            rank: self.rank,
            operands: self.operands@,
            reduce: self.reduce,
            contraction: match self.contraction {
                Some(c) => Some(c@),
                None => None,
            },
        }
    }
}

/// A typed decline from `from_token` (§6.7-0009): never a panic or OOB read.
#[derive(Debug, Clone, Copy, PartialEq, Eq, Structural)]
pub enum KeyDecline {
    WrongFieldCount { got: usize },
    BadVersionPrefix,
    BadRank,
    BadWorkClass,
    BadOperandSubKey,
    BadReduceField,
    BadContractionField,
    UppercaseOrWidthHex,
    /// Op-family code outside the closed §6.5-0006 set.
    UnknownOpFamily,
    /// Dtype token outside the closed §6.1 set.
    UnknownDtype,
    /// A dtype token inside the closed vocabulary but reserved at this schema
    /// version (`e4m3fnuz` / `e5m2fnuz`, §6.1-0001).
    ReservedDtype,
    /// Token byte length is `0` or exceeds `MAX_STRUCTURE_KEY_LEN` (§6.4-0004).
    TokenLengthOutOfBound { len: usize },
    /// More than `MAX_OPERANDS` per-operand sub-keys (§6.4-0002).
    TooManyOperands { got: usize },
    /// `target_capability` is not `<namespace>:<capability-set>` (§6.8-0001).
    BadTargetGrammar,
    /// `target_capability` holds `;`, `/`, a whitespace or control character
    /// (`0x00`–`0x20`, `0x7f`) or a non-ASCII character (§6.8-0005).
    BadTargetCharset,
    /// The contraction field's presence does not match `op_family == gem`
    /// (§6.6-0010).
    ContractionPresenceMismatch,
    /// The reduce field is non-`-` for an `op_family` other than `red` (§6.6-0017).
    ReduceNotGatedToRed,
}

/// An operand sub-key's field: `<contig>/<bcasthex>/<vec>/<div>/<flip>`.
pub open spec fn operand_chars(o: OperandSubKey) -> Seq<char> {
    contig_code(o.contig) + "/"@ + byte_hex_lower(o.bcast_mask) + "/"@ + vec_width_code(o.vec)
        + "/"@ + div_bucket_code(o.div) + "/"@ + (if o.flipped {
        "r"@
    } else {
        "f"@
    })
}

/// The reduce field: `-`, `rall`, `rlast` or `x<hh>`.
pub open spec fn reduce_chars(r: Reduce) -> Seq<char> {
    match r {
        Reduce::NotReduced => "-"@,
        Reduce::All => "rall"@,
        Reduce::Trailing => "rlast"@,
        Reduce::Subset(m) => "x"@ + byte_hex_lower(m),
    }
}

/// The `/`-separated parts of the contraction field.
pub open spec fn contraction_parts(c: ContractionView) -> Seq<Seq<char>> {
    let geo = seq![
        "c"@ + size_class_code(c.m) + size_class_code(c.n) + size_class_code(c.k),
        div_bucket_code(c.k_div),
    ];
    let batch = match c.batch {
        Some(b) => seq!["b"@ + size_class_code(b)],
        None => seq![],
    };
    geo + batch + seq![c.wdt, c.acc, c.out, math_precision_code(c.mp)]
}

/// The operand sub-key fields, in order.
pub open spec fn operand_fields(ops: Seq<OperandSubKey>) -> Seq<Seq<char>> {
    Seq::new(ops.len(), |i: int| operand_chars(ops[i]))
}

/// The `|`-separated fields of a key's token.
pub open spec fn key_fields(k: KeyView) -> Seq<Seq<char>> {
    let base = seq![
        "sk"@ + dec_chars(SCHEMA_VERSION as nat),
        k.op_family,
        k.dtype,
        k.target,
        k.index_width,
        work_class_code(k.work_class),
        "r"@ + dec_chars(k.rank as nat),
        join(operand_fields(k.operands), ";"@),
        reduce_chars(k.reduce),
    ];
    match k.contraction {
        Some(c) => base.push(join(contraction_parts(c), "/"@)),
        None => base,
    }
}

/// The canonical `structure_key` token of a key (§6.7).
pub open spec fn key_chars(k: KeyView) -> Seq<char> {
    join(key_fields(k), "|"@)
}

impl OperandSubKey {
    fn push_field(self, s: &mut String)
        ensures
            final(s)@ == old(s)@ + operand_chars(self),
    {
        push_str(s, self.contig.code());
        push_str(s, "/");
        push_byte_hex_lower(s, self.bcast_mask);
        push_str(s, "/");
        push_str(s, self.vec.code());
        push_str(s, "/");
        push_str(s, self.div.code());
        push_str(s, "/");
        if self.flipped {
            push_str(s, "r");
        } else {
            push_str(s, "f");
        }
        assert(final(s)@ =~= old(s)@ + operand_chars(self));
    }
}

impl Reduce {
    fn push_field(self, s: &mut String)
        ensures
            final(s)@ == old(s)@ + reduce_chars(self),
    {
        match self {
            Reduce::NotReduced => push_str(s, "-"),
            Reduce::All => push_str(s, "rall"),
            Reduce::Trailing => push_str(s, "rlast"),
            Reduce::Subset(mask) => {
                push_str(s, "x");
                push_byte_hex_lower(s, mask);
                assert(final(s)@ =~= old(s)@ + reduce_chars(self));
            },
        }
    }
}


fn operands_field(ops: &[OperandSubKey]) -> (t: String)
    ensures
        t@ == join(operand_fields(ops@), ";"@),
{
    let mut t = String::new();
    let ghost of = operand_fields(ops@);
    let mut i: usize = 0;
    while i < ops.len()
        invariant
            i <= ops@.len(),
            of == operand_fields(ops@),
            t@ == join(of.take(i as int), ";"@),
        decreases ops.len() - i,
    {
        proof {
            lemma_join_push(of.take(i as int), of[i as int], ";"@);
            assert(of.take(i + 1) =~= of.take(i as int).push(of[i as int]));
        }
        if i > 0 {
            push_str(&mut t, ";");
        }
        ops[i].push_field(&mut t);
        i += 1;
    }
    assert(of.take(i as int) =~= of);
    t
}

fn contraction_field(c: &Contraction) -> (t: String)
    ensures
        t@ == join(contraction_parts(c@), "/"@),
{
    let mut parts: Vec<String> = Vec::new();
    let mut g = String::new();
    push_str(&mut g, "c");
    push_str(&mut g, c.m.code());
    push_str(&mut g, c.n.code());
    push_str(&mut g, c.k.code());
    parts.push(g);
    parts.push(string_of_str(c.k_div.code()));
    match c.batch {
        Some(cls) => {
            let mut b = String::new();
            push_str(&mut b, "b");
            push_str(&mut b, cls.code());
            parts.push(b);
        },
        None => {},
    }
    parts.push(c.wdt.clone());
    parts.push(c.acc.clone());
    parts.push(c.out.clone());
    parts.push(string_of_str(c.mp.code()));
    assert(strings_view(parts@) =~= contraction_parts(c@));
    let mut t = String::new();
    push_join(&mut t, parts.as_slice(), "/");
    t
}

fn string_of_str(s: &str) -> (t: String)
    ensures
        t@ == s@,
{
    String::from_str(s)
}

impl StructureKey {
    /// Serialize to the canonical `structure_key` token (§6.7): the nine fields
    /// joined by `|`, then, for a contraction, `|` and its `/`-joined parts
    /// (geometry, the batch coordinate when batched, then the precision group).
    pub fn to_token(&self) -> (t: String)
        ensures
            t@ == key_chars(self@),
    {
        let mut f: Vec<String> = Vec::new();
        let mut v = String::new();
        push_str(&mut v, "sk");
        push_dec(&mut v, SCHEMA_VERSION as u64);
        f.push(v);
        f.push(self.op_family.clone());
        f.push(self.dtype.clone());
        f.push(self.target.clone());
        f.push(self.index_width.clone());
        f.push(string_of_str(self.work_class.code()));
        let mut r = String::new();
        push_str(&mut r, "r");
        push_dec(&mut r, self.rank as u64);
        f.push(r);
        f.push(operands_field(self.operands.as_slice()));
        let mut red = String::new();
        self.reduce.push_field(&mut red);
        f.push(red);
        match &self.contraction {
            Some(c) => {
                f.push(contraction_field(c));
            },
            None => {},
        }
        assert(strings_view(f@) =~= key_fields(self@));
        let mut t = String::new();
        push_join(&mut t, f.as_slice(), "|");
        t
    }
}


// ---------------------------------------------------------------------------
// Parsing (from_token).
// ---------------------------------------------------------------------------

/// Exactly two lowercase hex digits (§6.7-0010).
pub open spec fn hex2_of(s: Seq<char>) -> Result<u8, KeyDecline> {
    if s.len() == 2 && is_lower_hex_char(s[0]) && is_lower_hex_char(s[1]) {
        Ok((hex_value(s[0]) * 16 + hex_value(s[1])) as u8)
    } else {
        Err(KeyDecline::UppercaseOrWidthHex)
    }
}

/// The `<flip>` code.
pub open spec fn flip_of(s: Seq<char>) -> Option<bool> {
    if s == "f"@ {
        Some(false)
    } else if s == "r"@ {
        Some(true)
    } else {
        None
    }
}

/// The reading of one operand sub-key field.
pub open spec fn operand_of(s: Seq<char>) -> Result<OperandSubKey, KeyDecline> {
    let p = split_seq(s, '/');
    if p.len() != 5 {
        Err(KeyDecline::BadOperandSubKey)
    } else if contig_from(p[0]) is None {
        Err(KeyDecline::BadOperandSubKey)
    } else if hex2_of(p[1]) is Err {
        Err(KeyDecline::UppercaseOrWidthHex)
    } else if vec_width_from(p[2]) is None {
        Err(KeyDecline::BadOperandSubKey)
    } else if div_bucket_from(p[3]) is None {
        Err(KeyDecline::BadOperandSubKey)
    } else if flip_of(p[4]) is None {
        Err(KeyDecline::BadOperandSubKey)
    } else {
        Ok(
            OperandSubKey {
                contig: contig_from(p[0])->0,
                bcast_mask: hex2_of(p[1])->Ok_0,
                vec: vec_width_from(p[2])->0,
                div: div_bucket_from(p[3])->0,
                flipped: flip_of(p[4])->0,
            },
        )
    }
}

/// The reading of the operand fields in order; the first failure wins.
pub open spec fn operands_of(parts: Seq<Seq<char>>) -> Result<Seq<OperandSubKey>, KeyDecline>
    decreases parts.len(),
{
    if parts.len() == 0 {
        Ok(seq![])
    } else {
        match operands_of(parts.drop_last()) {
            Err(e) => Err(e),
            Ok(v) => match operand_of(parts.last()) {
                Err(e) => Err(e),
                Ok(o) => Ok(v.push(o)),
            },
        }
    }
}

/// The reading of the reduce field.
pub open spec fn reduce_of(s: Seq<char>) -> Result<Reduce, KeyDecline> {
    if s == "-"@ {
        Ok(Reduce::NotReduced)
    } else if s == "rall"@ {
        Ok(Reduce::All)
    } else if s == "rlast"@ {
        Ok(Reduce::Trailing)
    } else if s.len() > 0 && s[0] == 'x' && hex2_of(s.drop_first()) is Ok {
        Ok(Reduce::Subset(hex2_of(s.drop_first())->Ok_0))
    } else {
        Err(KeyDecline::BadReduceField)
    }
}

/// The check of one precision-group dtype: reserved before unknown.
pub open spec fn dtype_check(dt: Seq<char>) -> Option<KeyDecline> {
    if in_table(RESERVED_DTYPES@, dt) {
        Some(KeyDecline::ReservedDtype)
    } else if !in_table(DTYPES@, dt) {
        Some(KeyDecline::UnknownDtype)
    } else {
        None
    }
}

/// The reading of the contraction field (sk3): `c<m><n><k>/<kdiv>`, the batch
/// coordinate `b<class>` iff there are seven parts, then `<wdt>/<acc>/<out>/<mp>`.
pub open spec fn contraction_of(s: Seq<char>) -> Result<ContractionView, KeyDecline> {
    if s.len() == 0 || s[0] != 'c' {
        Err(KeyDecline::BadContractionField)
    } else {
        let parts = split_seq(s.drop_first(), '/');
        if parts.len() != 6 && parts.len() != 7 {
            Err(KeyDecline::BadContractionField)
        } else if parts[0].len() != 3 {
            Err(KeyDecline::BadContractionField)
        } else if size_class_from(seq![parts[0][0]]) is None || size_class_from(seq![parts[0][1]])
            is None || size_class_from(seq![parts[0][2]]) is None {
            Err(KeyDecline::BadContractionField)
        } else if div_bucket_from(parts[1]) is None {
            Err(KeyDecline::BadContractionField)
        } else if parts.len() == 7 && (parts[2].len() == 0 || parts[2][0] != 'b' || size_class_from(
            parts[2].drop_first(),
        ) is None) {
            Err(KeyDecline::BadContractionField)
        } else {
            let rest: int = if parts.len() == 7 {
                3
            } else {
                2
            };
            if dtype_check(parts[rest]) is Some {
                Err(dtype_check(parts[rest])->0)
            } else if dtype_check(parts[rest + 1]) is Some {
                Err(dtype_check(parts[rest + 1])->0)
            } else if dtype_check(parts[rest + 2]) is Some {
                Err(dtype_check(parts[rest + 2])->0)
            } else if math_precision_from(parts[rest + 3]) is None {
                Err(KeyDecline::BadContractionField)
            } else {
                Ok(
                    ContractionView {
                        m: size_class_from(seq![parts[0][0]])->0,
                        n: size_class_from(seq![parts[0][1]])->0,
                        k: size_class_from(seq![parts[0][2]])->0,
                        k_div: div_bucket_from(parts[1])->0,
                        batch: if parts.len() == 7 {
                            Some(size_class_from(parts[2].drop_first())->0)
                        } else {
                            None
                        },
                        wdt: parts[rest],
                        acc: parts[rest + 1],
                        out: parts[rest + 2],
                        mp: math_precision_from(parts[rest + 3])->0,
                    },
                )
            }
        }
    }
}

/// Whether a target character is outside the §6.8-0005 charset: a field
/// separator (`;`, `/`), whitespace or control (`0x00`–`0x20`, `0x7f`), or
/// non-ASCII.
pub open spec fn bad_target_char(c: char) -> bool {
    c == ';' || c == '/' || (c as u32) <= 0x20 || (c as u32) == 0x7f || (c as u32) >= 0x80
}

/// `target_capability = <namespace>:<capability-set>`: exactly one `:`, both
/// sides non-empty (§6.8-0001).
pub open spec fn target_grammar_ok(t: Seq<char>) -> bool {
    let p = split_seq(t, ':');
    p.len() == 2 && p[0].len() > 0 && p[1].len() > 0
}

/// The rank field `r<decimal>`: the canonical decimal spelling only (no sign,
/// no leading zero), within `u32`, so that a read key writes back the same
/// token.
pub open spec fn rank_of(s: Seq<char>) -> Option<nat> {
    if s.len() > 0 && s[0] == 'r' && crate::text::canonical_digits(s.drop_first()) && digits_value(
        s.drop_first(),
    ) <= u32::MAX {
        Some(digits_value(s.drop_first()))
    } else {
        None
    }
}

/// The §6.7-0009 reading of a token, in the order the reader checks: byte
/// length, field count, version, op family, dtype (reserved before unknown),
/// target grammar then charset, work class, rank, operands, operand count,
/// reduce, the reduce gate, the contraction, and its presence gate.
pub open spec fn key_of(t: Seq<char>) -> Result<KeyView, KeyDecline> {
    let bl = encode_utf8(t).len();
    let f = split_seq(t, '|');
    if bl == 0 || bl > MAX_STRUCTURE_KEY_LEN {
        Err(KeyDecline::TokenLengthOutOfBound { len: bl as usize })
    } else if f.len() != 9 && f.len() != 10 {
        Err(KeyDecline::WrongFieldCount { got: f.len() as usize })
    } else if f[0] != "sk"@ + dec_chars(SCHEMA_VERSION as nat) {
        Err(KeyDecline::BadVersionPrefix)
    } else if !in_table(OP_FAMILIES@, f[1]) {
        Err(KeyDecline::UnknownOpFamily)
    } else if in_table(RESERVED_DTYPES@, f[2]) {
        Err(KeyDecline::ReservedDtype)
    } else if !in_table(DTYPES@, f[2]) {
        Err(KeyDecline::UnknownDtype)
    } else if !target_grammar_ok(f[3]) {
        Err(KeyDecline::BadTargetGrammar)
    } else if exists|i: int| 0 <= i < f[3].len() && bad_target_char(#[trigger] f[3][i]) {
        Err(KeyDecline::BadTargetCharset)
    } else if work_class_from(f[5]) is None {
        Err(KeyDecline::BadWorkClass)
    } else if rank_of(f[6]) is None || rank_of(f[6])->0 > MAX_RANK {
        Err(KeyDecline::BadRank)
    } else {
        match operands_of(split_seq(f[7], ';')) {
            Err(e) => Err(e),
            Ok(ops) => if ops.len() > MAX_OPERANDS {
                Err(KeyDecline::TooManyOperands { got: ops.len() as usize })
            } else {
                match reduce_of(f[8]) {
                    Err(e) => Err(e),
                    Ok(r) => if f[1] != "red"@ && r != Reduce::NotReduced {
                        Err(KeyDecline::ReduceNotGatedToRed)
                    } else if f.len() == 10 && contraction_of(f[9]) is Err {
                        Err(contraction_of(f[9])->Err_0)
                    } else if (f[1] == "gem"@) != (f.len() == 10) {
                        Err(KeyDecline::ContractionPresenceMismatch)
                    } else {
                        Ok(
                            KeyView {
                                op_family: f[1],
                                dtype: f[2],
                                target: f[3],
                                index_width: f[4],
                                work_class: work_class_from(f[5])->0,
                                rank: (rank_of(f[6])->0) as u32,
                                operands: ops,
                                reduce: r,
                                contraction: if f.len() == 10 {
                                    Some(contraction_of(f[9])->Ok_0)
                                } else {
                                    None
                                },
                            },
                        )
                    },
                }
            },
        }
    }
}


fn parse_hex2(s: &[char]) -> (r: Result<u8, KeyDecline>)
    ensures
        r == hex2_of(s@),
{
    if s.len() != 2 {
        return Err(KeyDecline::UppercaseOrWidthHex);
    }
    let a = s[0];
    let b = s[1];
    let ok_a = ('0' <= a && a <= '9') || ('a' <= a && a <= 'f');
    let ok_b = ('0' <= b && b <= '9') || ('a' <= b && b <= 'f');
    if !ok_a || !ok_b {
        return Err(KeyDecline::UppercaseOrWidthHex);
    }
    let hi = hex_val(a);
    let lo = hex_val(b);
    Ok(hi * 16 + lo)
}

fn enum_text(s: &[char]) -> (t: String)
    ensures
        t@ == s@,
{
    string_of(s)
}

fn parse_operand(s: &[char]) -> (r: Result<OperandSubKey, KeyDecline>)
    ensures
        r == operand_of(s@),
{
    let p = split_chars(s, '/');
    let ghost ps = split_seq(s@, '/');
    if p.len() != 5 {
        return Err(KeyDecline::BadOperandSubKey);
    }
    assert(p@[0]@ == ps[0] && p@[1]@ == ps[1] && p@[2]@ == ps[2] && p@[3]@ == ps[3] && p@[4]@
        == ps[4]);
    let contig = match Contig::parse(enum_text(p[0].as_slice()).as_str()) {
        Some(c) => c,
        None => {
            return Err(KeyDecline::BadOperandSubKey);
        },
    };
    let bcast_mask = match parse_hex2(p[1].as_slice()) {
        Ok(m) => m,
        Err(e) => {
            return Err(e);
        },
    };
    let vec = match VecWidth::parse(enum_text(p[2].as_slice()).as_str()) {
        Some(v) => v,
        None => {
            return Err(KeyDecline::BadOperandSubKey);
        },
    };
    let div = match DivBucket::parse(enum_text(p[3].as_slice()).as_str()) {
        Some(d) => d,
        None => {
            return Err(KeyDecline::BadOperandSubKey);
        },
    };
    let flip_text = enum_text(p[4].as_slice());
    let flipped = if str_eq(flip_text.as_str(), "f") {
        false
    } else if str_eq(flip_text.as_str(), "r") {
        true
    } else {
        return Err(KeyDecline::BadOperandSubKey);
    };
    Ok(OperandSubKey { contig, bcast_mask, vec, div, flipped })
}

fn parse_reduce(s: &[char]) -> (r: Result<Reduce, KeyDecline>)
    ensures
        r == reduce_of(s@),
{
    let t = enum_text(s);
    if str_eq(t.as_str(), "-") {
        return Ok(Reduce::NotReduced);
    }
    if str_eq(t.as_str(), "rall") {
        return Ok(Reduce::All);
    }
    if str_eq(t.as_str(), "rlast") {
        return Ok(Reduce::Trailing);
    }
    if s.len() == 0 || s[0] != 'x' {
        return Err(KeyDecline::BadReduceField);
    }
    let rest = crate::text::chars_skip(s, 1);
    assert(rest@ == s@.drop_first());
    match parse_hex2(rest.as_slice()) {
        Ok(m) => Ok(Reduce::Subset(m)),
        Err(_) => Err(KeyDecline::BadReduceField),
    }
}

fn check_dtype(dt: &[char]) -> (r: Option<KeyDecline>)
    ensures
        r == dtype_check(dt@),
{
    let t = enum_text(dt);
    if table_contains(&RESERVED_DTYPES, t.as_str()) {
        return Some(KeyDecline::ReservedDtype);
    }
    if !table_contains(&DTYPES, t.as_str()) {
        return Some(KeyDecline::UnknownDtype);
    }
    None
}

fn one_char(c: char) -> (s: String)
    ensures
        s@ == seq![c],
{
    let v = vec![c];
    assert(v@ =~= seq![c]);
    string_of(v.as_slice())
}

fn parse_contraction(s: &[char]) -> (r: Result<Contraction, KeyDecline>)
    ensures
        match (r, contraction_of(s@)) {
            (Ok(c), Ok(v)) => c@ == v,
            (Err(e), Err(d)) => e == d,
            _ => false,
        },
{
    if s.len() == 0 || s[0] != 'c' {
        return Err(KeyDecline::BadContractionField);
    }
    let body = crate::text::chars_skip(s, 1);
    assert(body@ == s@.drop_first());
    let parts = split_chars(body.as_slice(), '/');
    let ghost ps = split_seq(s@.drop_first(), '/');
    assert(chars_vv(parts@) == ps);
    if parts.len() != 6 && parts.len() != 7 {
        return Err(KeyDecline::BadContractionField);
    }
    assert(forall|i: int| 0 <= i < parts@.len() ==> #[trigger] parts@[i]@ == ps[i]);
    let sc = &parts[0];
    if sc.len() != 3 {
        return Err(KeyDecline::BadContractionField);
    }
    let m = match SizeClass::parse(one_char(sc[0]).as_str()) {
        Some(v) => v,
        None => {
            return Err(KeyDecline::BadContractionField);
        },
    };
    let n = match SizeClass::parse(one_char(sc[1]).as_str()) {
        Some(v) => v,
        None => {
            return Err(KeyDecline::BadContractionField);
        },
    };
    let k = match SizeClass::parse(one_char(sc[2]).as_str()) {
        Some(v) => v,
        None => {
            return Err(KeyDecline::BadContractionField);
        },
    };
    let k_div = match DivBucket::parse(enum_text(parts[1].as_slice()).as_str()) {
        Some(v) => v,
        None => {
            return Err(KeyDecline::BadContractionField);
        },
    };
    let (batch, rest) = if parts.len() == 7 {
        let b = &parts[2];
        if b.len() == 0 || b[0] != 'b' {
            return Err(KeyDecline::BadContractionField);
        }
        let cls_text = crate::text::chars_skip(b.as_slice(), 1);
        assert(cls_text@ == ps[2].drop_first());
        match SizeClass::parse(enum_text(cls_text.as_slice()).as_str()) {
            Some(cls) => (Some(cls), 3usize),
            None => {
                return Err(KeyDecline::BadContractionField);
            },
        }
    } else {
        (None, 2usize)
    };
    let wdt = &parts[rest];
    let acc = &parts[rest + 1];
    let out = &parts[rest + 2];
    match check_dtype(wdt.as_slice()) {
        Some(e) => {
            return Err(e);
        },
        None => {},
    }
    match check_dtype(acc.as_slice()) {
        Some(e) => {
            return Err(e);
        },
        None => {},
    }
    match check_dtype(out.as_slice()) {
        Some(e) => {
            return Err(e);
        },
        None => {},
    }
    let mp = match MathPrecision::parse(enum_text(parts[rest + 3].as_slice()).as_str()) {
        Some(v) => v,
        None => {
            return Err(KeyDecline::BadContractionField);
        },
    };
    Ok(
        Contraction {
            m,
            n,
            k,
            k_div,
            batch,
            wdt: string_of(wdt.as_slice()),
            acc: string_of(acc.as_slice()),
            out: string_of(out.as_slice()),
            mp,
        },
    )
}

/// Parse a token into a [`StructureKey`], rejecting a malformed one with a
/// typed decline (§6.7-0009). The byte length is checked first, before any
/// split (§6.4-0004). Round-trips with [`StructureKey::to_token`] (§6.7-0008).
pub fn from_token(token: &str) -> (r: Result<StructureKey, KeyDecline>)
    ensures
        match (r, key_of(token@)) {
            (Ok(k), Ok(v)) => k@ == v,
            (Err(e), Err(d)) => e == d,
            _ => false,
        },
{
    let bl = token.as_bytes().len();
    if bl == 0 || bl > MAX_STRUCTURE_KEY_LEN {
        return Err(KeyDecline::TokenLengthOutOfBound { len: bl });
    }
    let cs = chars_of(token);
    let f = split_chars(cs.as_slice(), '|');
    let ghost fs = split_seq(token@, '|');
    assert(chars_vv(f@) == fs);
    if f.len() != 9 && f.len() != 10 {
        return Err(KeyDecline::WrongFieldCount { got: f.len() });
    }
    assert(f@[0]@ == fs[0] && f@[1]@ == fs[1] && f@[2]@ == fs[2] && f@[3]@ == fs[3]);
    assert(f@[4]@ == fs[4] && f@[5]@ == fs[5] && f@[6]@ == fs[6] && f@[7]@ == fs[7]);
    assert(f@[8]@ == fs[8]);
    assert(f@.len() == 10 ==> f@[9]@ == fs[9]);
    let mut ver = String::new();
    push_str(&mut ver, "sk");
    push_dec(&mut ver, SCHEMA_VERSION as u64);
    let f0 = enum_text(f[0].as_slice());
    if !str_eq(f0.as_str(), ver.as_str()) {
        return Err(KeyDecline::BadVersionPrefix);
    }
    let family = enum_text(f[1].as_slice());
    if !table_contains(&OP_FAMILIES, family.as_str()) {
        return Err(KeyDecline::UnknownOpFamily);
    }
    let dtype = enum_text(f[2].as_slice());
    if table_contains(&RESERVED_DTYPES, dtype.as_str()) {
        return Err(KeyDecline::ReservedDtype);
    }
    if !table_contains(&DTYPES, dtype.as_str()) {
        return Err(KeyDecline::UnknownDtype);
    }
    let tparts = split_chars(f[3].as_slice(), ':');
    assert(chars_vv(tparts@) == split_seq(fs[3], ':'));
    if tparts.len() != 2 || tparts[0].len() == 0 || tparts[1].len() == 0 {
        assert(tparts.len() == 2 ==> tparts@[0]@ == split_seq(fs[3], ':')[0] && tparts@[1]@
            == split_seq(fs[3], ':')[1]);
        return Err(KeyDecline::BadTargetGrammar);
    }
    assert(tparts@[0]@ == split_seq(fs[3], ':')[0] && tparts@[1]@ == split_seq(fs[3], ':')[1]);
    let target = &f[3];
    let mut bad = false;
    let mut i: usize = 0;
    while i < target.len()
        invariant_except_break
            !bad,
        invariant
            i <= target@.len(),
            forall|j: int| 0 <= j < i ==> !bad_target_char(#[trigger] target@[j]),
        ensures
            bad ==> exists|j: int| 0 <= j < target@.len() && bad_target_char(#[trigger] target@[j]),
            !bad ==> forall|j: int| 0 <= j < target@.len() ==> !bad_target_char(#[trigger] target@[j]),
        decreases target.len() - i,
    {
        let c = target[i];
        if c == ';' || c == '/' || (c as u32) <= 0x20 || (c as u32) == 0x7f || (c as u32) >= 0x80 {
            assert(bad_target_char(target@[i as int]));
            bad = true;
            break;
        }
        i += 1;
    }
    if bad {
        return Err(KeyDecline::BadTargetCharset);
    }
    let work_class = match WorkClass::parse(enum_text(f[5].as_slice()).as_str()) {
        Some(w) => w,
        None => {
            return Err(KeyDecline::BadWorkClass);
        },
    };
    let rf = &f[6];
    if rf.len() == 0 || rf[0] != 'r' {
        return Err(KeyDecline::BadRank);
    }
    let digits = crate::text::chars_skip(rf.as_slice(), 1);
    assert(digits@ == fs[6].drop_first());
    if digits.len() == 0 || digits[0] == '+' || (digits.len() > 1 && digits[0] == '0') {
        return Err(KeyDecline::BadRank);
    }
    assert(crate::text::unsigned_body(digits@) == digits@);
    let rank = match parse_unsigned_chars(digits.as_slice(), u32::MAX as u64) {
        Some(v) => v as u32,
        None => {
            return Err(KeyDecline::BadRank);
        },
    };
    if rank > MAX_RANK {
        return Err(KeyDecline::BadRank);
    }
    let op_texts = split_chars(f[7].as_slice(), ';');
    let ghost ots = split_seq(fs[7], ';');
    assert(chars_vv(op_texts@) == ots);
    let mut operands: Vec<OperandSubKey> = Vec::new();
    let mut failure: Option<KeyDecline> = None;
    let mut q: usize = 0;
    while q < op_texts.len()
        invariant_except_break
            failure is None,
        invariant
            q <= op_texts@.len(),
            chars_vv(op_texts@) == ots,
            failure is None ==> operands_of(ots.take(q as int)) == Ok::<Seq<OperandSubKey>, KeyDecline>(operands@),
        ensures
            failure matches Some(e) ==> operands_of(ots) == Err::<Seq<OperandSubKey>, KeyDecline>(e),
            failure is None ==> q == op_texts@.len(),
        decreases op_texts.len() - q,
    {
        assert(ots.take(q + 1).drop_last() == ots.take(q as int));
        assert(ots.take(q + 1).last() == op_texts@[q as int]@);
        match parse_operand(op_texts[q].as_slice()) {
            Ok(o) => {
                operands.push(o);
            },
            Err(e) => {
                proof {
                    lemma_operands_prefix_err(ots, (q + 1) as nat);
                }
                failure = Some(e);
                break;
            },
        }
        q += 1;
    }
    match failure {
        Some(e) => {
            return Err(e);
        },
        None => {},
    }
    assert(ots.take(q as int) == ots);
    if operands.len() > MAX_OPERANDS {
        return Err(KeyDecline::TooManyOperands { got: operands.len() });
    }
    let reduce = match parse_reduce(f[8].as_slice()) {
        Ok(r) => r,
        Err(e) => {
            return Err(e);
        },
    };
    let is_red = str_eq(family.as_str(), "red");
    if !is_red && reduce != Reduce::NotReduced {
        return Err(KeyDecline::ReduceNotGatedToRed);
    }
    let contraction = if f.len() == 10 {
        match parse_contraction(f[9].as_slice()) {
            Ok(c) => Some(c),
            Err(e) => {
                return Err(e);
            },
        }
    } else {
        None
    };
    let is_gem = str_eq(family.as_str(), "gem");
    if is_gem != contraction.is_some() {
        return Err(KeyDecline::ContractionPresenceMismatch);
    }
    Ok(
        StructureKey {
            op_family: family,
            dtype,
            target: string_of(f[3].as_slice()),
            index_width: string_of(f[4].as_slice()),
            work_class,
            rank,
            operands,
            reduce,
            contraction,
        },
    )
}

/// A failure among the first `n` operand fields is the failure of the whole
/// list.
proof fn lemma_operands_prefix_err(parts: Seq<Seq<char>>, n: nat)
    requires
        n <= parts.len(),
        operands_of(parts.take(n as int)) is Err,
    ensures
        operands_of(parts) == operands_of(parts.take(n as int)),
    decreases parts.len() - n,
{
    if n < parts.len() {
        assert(parts.take(n + 1 as int).drop_last() == parts.take(n as int));
        lemma_operands_prefix_err(parts, (n + 1) as nat);
    } else {
        assert(parts.take(n as int) == parts);
    }
}


// ---------------------------------------------------------------------------
// The key/token round trip (§6.7-0008).
// ---------------------------------------------------------------------------

/// Every entry of [`OP_FAMILIES`] is free of the token's separators.
pub proof fn lemma_op_family_plain(s: Seq<char>)
    requires
        in_table(OP_FAMILIES@, s),
    ensures
        !s.contains('|'),
        !s.contains('/'),
        !s.contains(';'),
        s.len() > 0,
{
    reveal_strlit("gem");
    reveal_strlit("idx");
    reveal_strlit("une");
    reveal_strlit("emb");
    reveal_strlit("bin");
    reveal_strlit("shp");
    reveal_strlit("ter");
    reveal_strlit("srt");
    reveal_strlit("gat");
    reveal_strlit("qnt");
    reveal_strlit("red");
    reveal_strlit("rnd");
    reveal_strlit("scn");
    reveal_strlit("los");
    reveal_strlit("nrm");
    reveal_strlit("seg");
    reveal_strlit("sft");
    reveal_strlit("img");
    reveal_strlit("cnv");
    reveal_strlit("fft");
    reveal_strlit("pol");
    reveal_strlit("lin");
    reveal_strlit("att");
    reveal_strlit("moe");
    let i = choose|i: int| 0 <= i < OP_FAMILIES@.len() && (OP_FAMILIES@[i])@ == s;
    if i == 0 {
        assert(s == "gem"@);
    } else if i == 1 {
        assert(s == "idx"@);
    } else if i == 2 {
        assert(s == "une"@);
    } else if i == 3 {
        assert(s == "emb"@);
    } else if i == 4 {
        assert(s == "bin"@);
    } else if i == 5 {
        assert(s == "shp"@);
    } else if i == 6 {
        assert(s == "ter"@);
    } else if i == 7 {
        assert(s == "srt"@);
    } else if i == 8 {
        assert(s == "gat"@);
    } else if i == 9 {
        assert(s == "qnt"@);
    } else if i == 10 {
        assert(s == "red"@);
    } else if i == 11 {
        assert(s == "rnd"@);
    } else if i == 12 {
        assert(s == "scn"@);
    } else if i == 13 {
        assert(s == "los"@);
    } else if i == 14 {
        assert(s == "nrm"@);
    } else if i == 15 {
        assert(s == "seg"@);
    } else if i == 16 {
        assert(s == "sft"@);
    } else if i == 17 {
        assert(s == "img"@);
    } else if i == 18 {
        assert(s == "cnv"@);
    } else if i == 19 {
        assert(s == "fft"@);
    } else if i == 20 {
        assert(s == "pol"@);
    } else if i == 21 {
        assert(s == "lin"@);
    } else if i == 22 {
        assert(s == "att"@);
    } else if i == 23 {
        assert(s == "moe"@);
    }
}

/// Every entry of [`DTYPES`] is free of the token's separators.
pub proof fn lemma_dtype_plain(s: Seq<char>)
    requires
        in_table(DTYPES@, s),
    ensures
        !s.contains('|'),
        !s.contains('/'),
        !s.contains(';'),
        s.len() > 0,
{
    reveal_strlit("f16");
    reveal_strlit("bf16");
    reveal_strlit("f32");
    reveal_strlit("f64");
    reveal_strlit("s8");
    reveal_strlit("s16");
    reveal_strlit("u8");
    reveal_strlit("u16");
    reveal_strlit("i32");
    reveal_strlit("i64");
    reveal_strlit("u32");
    reveal_strlit("u64");
    reveal_strlit("bool");
    reveal_strlit("e4m3fn");
    reveal_strlit("e4m3fnuz");
    reveal_strlit("e5m2");
    reveal_strlit("e5m2fnuz");
    reveal_strlit("s4");
    reveal_strlit("u4");
    reveal_strlit("b1");
    reveal_strlit("c32");
    reveal_strlit("c64");
    let i = choose|i: int| 0 <= i < DTYPES@.len() && (DTYPES@[i])@ == s;
    if i == 0 {
        assert(s == "f16"@);
    } else if i == 1 {
        assert(s == "bf16"@);
    } else if i == 2 {
        assert(s == "f32"@);
    } else if i == 3 {
        assert(s == "f64"@);
    } else if i == 4 {
        assert(s == "s8"@);
    } else if i == 5 {
        assert(s == "s16"@);
    } else if i == 6 {
        assert(s == "u8"@);
    } else if i == 7 {
        assert(s == "u16"@);
    } else if i == 8 {
        assert(s == "i32"@);
    } else if i == 9 {
        assert(s == "i64"@);
    } else if i == 10 {
        assert(s == "u32"@);
    } else if i == 11 {
        assert(s == "u64"@);
    } else if i == 12 {
        assert(s == "bool"@);
    } else if i == 13 {
        assert(s == "e4m3fn"@);
    } else if i == 14 {
        assert(s == "e4m3fnuz"@);
    } else if i == 15 {
        assert(s == "e5m2"@);
    } else if i == 16 {
        assert(s == "e5m2fnuz"@);
    } else if i == 17 {
        assert(s == "s4"@);
    } else if i == 18 {
        assert(s == "u4"@);
    } else if i == 19 {
        assert(s == "b1"@);
    } else if i == 20 {
        assert(s == "c32"@);
    } else if i == 21 {
        assert(s == "c64"@);
    }
}

/// A byte as two lowercase hex digits reads back as the byte.
pub proof fn lemma_hex2_byte(b: u8)
    ensures
        hex2_of(byte_hex_lower(b)) == Ok::<u8, KeyDecline>(b),
        !byte_hex_lower(b).contains('|'),
        !byte_hex_lower(b).contains('/'),
        !byte_hex_lower(b).contains(';'),
{
    let h = byte_hex_lower(b);
    let hi = b as int / 16;
    let lo = b as int % 16;
    assert(h[0] == crate::text::hex_lower_char(hi));
    assert(h[1] == crate::text::hex_lower_char(lo));
    if hi < 10 {
        assert(h[0] as nat == 48 + hi);
    } else {
        assert(h[0] as nat == 87 + hi);
    }
    if lo < 10 {
        assert(h[1] as nat == 48 + lo);
    } else {
        assert(h[1] as nat == 87 + lo);
    }
    assert(hex_value(h[0]) == hi);
    assert(hex_value(h[1]) == lo);
    assert(hi * 16 + lo == b);
    assert(!h.contains('|')) by {
        if h.contains('|') {
            let j = choose|j: int| 0 <= j < h.len() && h[j] == '|';
            assert(j == 0 || j == 1);
        }
    }
    assert(!h.contains('/')) by {
        if h.contains('/') {
            let j = choose|j: int| 0 <= j < h.len() && h[j] == '/';
            assert(j == 0 || j == 1);
        }
    }
    assert(!h.contains(';')) by {
        if h.contains(';') {
            let j = choose|j: int| 0 <= j < h.len() && h[j] == ';';
            assert(j == 0 || j == 1);
        }
    }
}

/// No character of `a + b` is `c` when neither part holds it.
pub proof fn lemma_concat_no(a: Seq<char>, b: Seq<char>, c: char)
    requires
        !a.contains(c),
        !b.contains(c),
    ensures
        !(a + b).contains(c),
{
    if (a + b).contains(c) {
        let j = choose|j: int| 0 <= j < (a + b).len() && (a + b)[j] == c;
        if j < a.len() {
            assert(a[j] == c);
        } else {
            assert(b[j - a.len()] == c);
        }
    }
}

/// An operand sub-key field reads back as the sub-key.
pub proof fn lemma_operand_roundtrip(o: OperandSubKey)
    ensures
        operand_of(operand_chars(o)) == Ok::<OperandSubKey, KeyDecline>(o),
        !operand_chars(o).contains('|'),
        !operand_chars(o).contains(';'),
{
    reveal_strlit("/");
    reveal_strlit("r");
    reveal_strlit("f");
    lemma_contig_code(o.contig);
    lemma_hex2_byte(o.bcast_mask);
    lemma_vec_width_code(o.vec);
    lemma_div_bucket_code(o.div);
    let p0 = contig_code(o.contig);
    let p1 = byte_hex_lower(o.bcast_mask);
    let p2 = vec_width_code(o.vec);
    let p3 = div_bucket_code(o.div);
    let p4 = if o.flipped {
        "r"@
    } else {
        "f"@
    };
    assert(!p4.contains('/') && !p4.contains('|') && !p4.contains(';'));
    let sl = seq!['/'];
    let t3 = p3 + sl + p4;
    let t2 = p2 + sl + t3;
    let t1 = p1 + sl + t2;
    let all = p0 + sl + t1;
    assert(operand_chars(o) =~= all);
    lemma_split_none(p0, '/');
    lemma_split_none(p1, '/');
    lemma_split_none(p2, '/');
    lemma_split_none(p3, '/');
    lemma_split_none(p4, '/');
    lemma_split_concat(p3, '/', p4);
    lemma_split_concat(p2, '/', t3);
    lemma_split_concat(p1, '/', t2);
    lemma_split_concat(p0, '/', t1);
    assert(split_seq(all, '/') =~= seq![p0, p1, p2, p3, p4]);
    assert(flip_of(p4) == Some(o.flipped)) by {
        assert("r"@ != "f"@) by {
            assert("r"@[0] != "f"@[0]);
        }
    }
    assert(!sl.contains('|') && !sl.contains(';'));
    lemma_concat_no(p3, sl, '|');
    lemma_concat_no(p3 + sl, p4, '|');
    lemma_concat_no(p2, sl, '|');
    lemma_concat_no(p2 + sl, t3, '|');
    lemma_concat_no(p1, sl, '|');
    lemma_concat_no(p1 + sl, t2, '|');
    lemma_concat_no(p0, sl, '|');
    lemma_concat_no(p0 + sl, t1, '|');
    lemma_concat_no(p3, sl, ';');
    lemma_concat_no(p3 + sl, p4, ';');
    lemma_concat_no(p2, sl, ';');
    lemma_concat_no(p2 + sl, t3, ';');
    lemma_concat_no(p1, sl, ';');
    lemma_concat_no(p1 + sl, t2, ';');
    lemma_concat_no(p0, sl, ';');
    lemma_concat_no(p0 + sl, t1, ';');
}

/// The operand fields read back as the operands.
pub proof fn lemma_operands_roundtrip(ops: Seq<OperandSubKey>)
    ensures
        operands_of(operand_fields(ops)) == Ok::<Seq<OperandSubKey>, KeyDecline>(ops),
    decreases ops.len(),
{
    if ops.len() > 0 {
        lemma_operands_roundtrip(ops.drop_last());
        assert(operand_fields(ops).drop_last() =~= operand_fields(ops.drop_last()));
        lemma_operand_roundtrip(ops.last());
        assert(ops.drop_last().push(ops.last()) =~= ops);
    } else {
        assert(operand_fields(ops) =~= Seq::<Seq<char>>::empty());
        assert(ops =~= Seq::<OperandSubKey>::empty());
    }
}

/// A reduce field reads back as the reduce value.
pub proof fn lemma_reduce_roundtrip(r: Reduce)
    ensures
        reduce_of(reduce_chars(r)) == Ok::<Reduce, KeyDecline>(r),
        !reduce_chars(r).contains('|'),
{
    reveal_strlit("-");
    reveal_strlit("rall");
    reveal_strlit("rlast");
    reveal_strlit("x");
    match r {
        Reduce::Subset(m) => {
            lemma_hex2_byte(m);
            let t = reduce_chars(r);
            assert(t.len() == 3);
            assert(t[0] == 'x');
            assert(t.drop_first() =~= byte_hex_lower(m));
            assert(t != "-"@);
            assert(t != "rall"@);
            assert(t != "rlast"@);
            lemma_concat_no("x"@, byte_hex_lower(m), '|');
        },
        Reduce::All => {
            assert("rall"@ != "-"@);
        },
        Reduce::Trailing => {
            assert("rlast"@ != "-"@);
            assert("rlast"@ != "rall"@);
        },
        _ => {},
    }
}

/// Whether a key satisfies everything the token grammar demands of it, so that
/// its token reads back as the key: closed-set op family and dtypes (none
/// reserved), a well-formed target free of the forbidden characters and of
/// the field delimiter, an index width free of the delimiter, rank and operand
/// count within their bounds (at least one operand), the reduce and
/// contraction gates, and a token within the length bound.
pub open spec fn key_valid(k: KeyView) -> bool {
    &&& in_table(OP_FAMILIES@, k.op_family)
    &&& dtype_check(k.dtype) is None
    &&& target_grammar_ok(k.target)
    &&& forall|i: int| 0 <= i < k.target.len() ==> !bad_target_char(#[trigger] k.target[i])
    &&& !k.target.contains('|')
    &&& !k.index_width.contains('|')
    &&& k.rank <= MAX_RANK
    &&& 1 <= k.operands.len() <= MAX_OPERANDS
    &&& (k.op_family != "red"@ ==> k.reduce == Reduce::NotReduced)
    &&& (k.contraction is Some <==> k.op_family == "gem"@)
    &&& (k.contraction matches Some(c) ==> dtype_check(c.wdt) is None && dtype_check(c.acc) is None
        && dtype_check(c.out) is None)
    &&& encode_utf8(key_chars(k)).len() <= MAX_STRUCTURE_KEY_LEN
}

/// The contraction parts with the leading `c` dropped from the first.
pub open spec fn contraction_inner(c: ContractionView) -> Seq<Seq<char>> {
    contraction_parts(c).update(
        0,
        size_class_code(c.m) + size_class_code(c.n) + size_class_code(c.k),
    )
}

proof fn lemma_contraction_plain(c: ContractionView)
    requires
        dtype_check(c.wdt) is None,
        dtype_check(c.acc) is None,
        dtype_check(c.out) is None,
    ensures
        forall|i: int|
            0 <= i < contraction_inner(c).len() ==> !(#[trigger] contraction_inner(c)[i]).contains(
                '/',
            ),
        forall|i: int|
            0 <= i < contraction_parts(c).len() ==> !(#[trigger] contraction_parts(c)[i]).contains(
                '|',
            ),
        contraction_parts(c)[0] == "c"@ + contraction_inner(c)[0],
        contraction_inner(c)[0].len() == 3,
{
    reveal_strlit("c");
    reveal_strlit("b");
    reveal_strlit("t");
    reveal_strlit("s");
    reveal_strlit("m");
    reveal_strlit("l");
    let parts = contraction_parts(c);
    let inner = contraction_inner(c);
    lemma_size_class_code(c.m);
    lemma_size_class_code(c.n);
    lemma_size_class_code(c.k);
    lemma_div_bucket_code(c.k_div);
    lemma_math_precision_code(c.mp);
    lemma_dtype_plain(c.wdt);
    lemma_dtype_plain(c.acc);
    lemma_dtype_plain(c.out);
    let mc = size_class_code(c.m);
    let nc = size_class_code(c.n);
    let kc = size_class_code(c.k);
    let geo = mc + nc + kc;
    lemma_concat_no(mc, nc, '/');
    lemma_concat_no(mc + nc, kc, '/');
    lemma_concat_no(mc, nc, '|');
    lemma_concat_no(mc + nc, kc, '|');
    lemma_concat_no("c"@, geo, '|');
    assert(parts[0] =~= "c"@ + geo);
    match c.batch {
        Some(b) => {
            lemma_size_class_code(b);
            lemma_concat_no("b"@, size_class_code(b), '/');
            lemma_concat_no("b"@, size_class_code(b), '|');
        },
        None => {},
    }
    assert forall|i: int| 0 <= i < inner.len() implies !(#[trigger] inner[i]).contains('/') by {
        if i > 0 {
            assert(inner[i] == parts[i]);
        }
    }
    assert forall|i: int| 0 <= i < parts.len() implies !(#[trigger] parts[i]).contains('|') by {}
}

/// A contraction field reads back as the contraction.
pub proof fn lemma_contraction_roundtrip(c: ContractionView)
    requires
        dtype_check(c.wdt) is None,
        dtype_check(c.acc) is None,
        dtype_check(c.out) is None,
    ensures
        contraction_of(join(contraction_parts(c), "/"@)) == Ok::<ContractionView, KeyDecline>(c),
        !join(contraction_parts(c), "/"@).contains('|'),
{
    reveal_strlit("/");
    reveal_strlit("c");
    reveal_strlit("b");
    assert("/"@ =~= seq!['/']);
    let parts = contraction_parts(c);
    let inner = contraction_inner(c);
    lemma_contraction_plain(c);
    lemma_join_no_contains(parts, "/"@, '|');
    lemma_join_first(parts, "/"@);
    lemma_join_first(inner, "/"@);
    assert(inner.drop_first() =~= parts.drop_first());
    let s = join(parts, "/"@);
    assert(s[0] == 'c');
    assert(s.drop_first() =~= join(inner, "/"@));
    lemma_split_join(inner, '/');
    let sp = split_seq(s.drop_first(), '/');
    assert(sp == inner);
    lemma_size_class_code(c.m);
    lemma_size_class_code(c.n);
    lemma_size_class_code(c.k);
    lemma_div_bucket_code(c.k_div);
    lemma_math_precision_code(c.mp);
    let geo = inner[0];
    assert(seq![geo[0]] =~= size_class_code(c.m)) by {
        reveal_strlit("t");
        reveal_strlit("s");
        reveal_strlit("m");
        reveal_strlit("l");
    }
    assert(seq![geo[1]] =~= size_class_code(c.n)) by {
        reveal_strlit("t");
        reveal_strlit("s");
        reveal_strlit("m");
        reveal_strlit("l");
    }
    assert(seq![geo[2]] =~= size_class_code(c.k)) by {
        reveal_strlit("t");
        reveal_strlit("s");
        reveal_strlit("m");
        reveal_strlit("l");
    }
    match c.batch {
        Some(b) => {
            lemma_size_class_code(b);
            assert(inner[2] =~= "b"@ + size_class_code(b));
            assert(inner[2].drop_first() =~= size_class_code(b));
            assert(inner[2][0] == 'b');
        },
        None => {},
    }
}

/// The token of a valid key reads back as the key (§6.7-0008): `from_token`
/// inverts `to_token` on every key the grammar admits.
#[verifier::spinoff_prover]
#[verifier::rlimit(40)]
pub proof fn key_token_roundtrip(k: KeyView)
    requires
        key_valid(k),
    ensures
        key_of(key_chars(k)) == Ok::<KeyView, KeyDecline>(k),
{
    reveal_strlit("sk");
    reveal_strlit("r");
    reveal_strlit(";");
    reveal_strlit("|");
    reveal_strlit("red");
    reveal_strlit("gem");
    let f = key_fields(k);
    lemma_op_family_plain(k.op_family);
    lemma_dtype_plain(k.dtype);
    lemma_work_class_code(k.work_class);
    lemma_reduce_roundtrip(k.reduce);
    crate::text::lemma_dec_chars(SCHEMA_VERSION as nat);
    crate::text::lemma_dec_chars(k.rank as nat);
    let v = "sk"@ + dec_chars(SCHEMA_VERSION as nat);
    let rk = "r"@ + dec_chars(k.rank as nat);
    assert(!dec_chars(SCHEMA_VERSION as nat).contains('|')) by {
        let d = dec_chars(SCHEMA_VERSION as nat);
        if d.contains('|') {
            let j = choose|j: int| 0 <= j < d.len() && d[j] == '|';
            assert(crate::text::is_digit_char(d[j]));
        }
    }
    assert(!dec_chars(k.rank as nat).contains('|')) by {
        let d = dec_chars(k.rank as nat);
        if d.contains('|') {
            let j = choose|j: int| 0 <= j < d.len() && d[j] == '|';
            assert(crate::text::is_digit_char(d[j]));
        }
    }
    lemma_concat_no("sk"@, dec_chars(SCHEMA_VERSION as nat), '|');
    lemma_concat_no("r"@, dec_chars(k.rank as nat), '|');
    let of = operand_fields(k.operands);
    assert forall|i: int| 0 <= i < of.len() implies !(#[trigger] of[i]).contains('|') && !of[i].contains(';') by {
        lemma_operand_roundtrip(k.operands[i]);
    }
    lemma_join_no_contains(of, ";"@, '|');
    match k.contraction {
        Some(c) => {
            lemma_contraction_roundtrip(c);
        },
        None => {},
    }
    assert forall|i: int| 0 <= i < f.len() implies !(#[trigger] f[i]).contains('|') by {}
    assert("|"@ =~= seq!['|']);
    assert(";"@ =~= seq![';']);
    lemma_split_join(f, '|');
    assert(split_seq(key_chars(k), '|') == f);
    crate::text::lemma_encode_utf8_len(key_chars(k));
    lemma_join_first(f, "|"@);
    assert(key_chars(k).len() >= f[0].len());
    // Field by field.
    assert(rank_of(rk) == Some(k.rank as nat)) by {
        assert(rk[0] == 'r');
        assert(rk.drop_first() =~= dec_chars(k.rank as nat));
        crate::text::lemma_dec_canonical(k.rank as nat);
    }
    lemma_split_join(of, ';');
    lemma_operands_roundtrip(k.operands);
    assert(key_of(key_chars(k)) =~= Ok::<KeyView, KeyDecline>(k));
}

// ---------------------------------------------------------------------------
// Reading back: a token that reads as a key is that key's token.
// ---------------------------------------------------------------------------

proof fn lemma_hex2_back(s: Seq<char>)
    requires
        hex2_of(s) is Ok,
    ensures
        byte_hex_lower(hex2_of(s)->Ok_0) == s,
{
    let h0 = hex_value(s[0]);
    let h1 = hex_value(s[1]);
    let b = hex2_of(s)->Ok_0;
    assert(h0 < 16 && h1 < 16);
    assert(b as int == h0 * 16 + h1);
    assert(b as int / 16 == h0 && b as int % 16 == h1) by {
        vstd::arithmetic::div_mod::lemma_fundamental_div_mod_converse(b as int, 16, h0 as int, h1 as int);
    }
    assert(crate::text::hex_lower_char(h0 as int) == s[0]);
    assert(crate::text::hex_lower_char(h1 as int) == s[1]);
    assert(byte_hex_lower(b) =~= s);
}

proof fn lemma_operand_back(p: Seq<char>)
    requires
        operand_of(p) is Ok,
    ensures
        operand_chars(operand_of(p)->Ok_0) == p,
{
    reveal_strlit("/");
    reveal_strlit("r");
    reveal_strlit("f");
    let q = split_seq(p, '/');
    lemma_hex2_back(q[1]);
    crate::text::lemma_join_split(p, '/');
    assert("/"@ =~= seq!['/']);
    let sl = seq!['/'];
    assert(q.take(4).drop_last() =~= q.take(3));
    assert(q.take(3).drop_last() =~= q.take(2));
    assert(q.take(2).drop_last() =~= q.take(1));
    assert(q.drop_last() =~= q.take(4));
    assert(join(q.take(1), sl) == q[0]);
    assert(join(q.take(2), sl) == join(q.take(1), sl) + sl + q[1]);
    assert(join(q.take(3), sl) == join(q.take(2), sl) + sl + q[2]);
    assert(join(q.take(4), sl) == join(q.take(3), sl) + sl + q[3]);
    assert(join(q, sl) == join(q.take(4), sl) + sl + q[4]);
    let o = operand_of(p)->Ok_0;
    assert(contig_code(o.contig) == q[0]);
    assert(vec_width_code(o.vec) == q[2]);
    assert(div_bucket_code(o.div) == q[3]);
    assert((if o.flipped { "r"@ } else { "f"@ }) == q[4]);
    assert(operand_chars(o) =~= join(q, sl));
}

proof fn lemma_operands_back(parts: Seq<Seq<char>>)
    requires
        operands_of(parts) is Ok,
    ensures
        operand_fields(operands_of(parts)->Ok_0) == parts,
    decreases parts.len(),
{
    if parts.len() > 0 {
        lemma_operands_back(parts.drop_last());
        lemma_operand_back(parts.last());
        let v = operands_of(parts.drop_last())->Ok_0;
        let o = operand_of(parts.last())->Ok_0;
        assert(operands_of(parts)->Ok_0 == v.push(o));
        let w = operand_fields(v.push(o));
        assert(v.len() == parts.len() - 1);
        assert forall|i: int| 0 <= i < parts.len() implies w[i] == parts[i] by {
            if i < parts.len() - 1 {
                assert(operand_fields(v)[i] == parts.drop_last()[i]);
                assert(v.push(o)[i] == v[i]);
            }
        }
        assert(w =~= parts);
    } else {
        assert(operand_fields(operands_of(parts)->Ok_0) =~= parts);
    }
}

proof fn lemma_reduce_back(s: Seq<char>)
    requires
        reduce_of(s) is Ok,
    ensures
        reduce_chars(reduce_of(s)->Ok_0) == s,
{
    reveal_strlit("x");
    if !(s == "-"@ || s == "rall"@ || s == "rlast"@) {
        lemma_hex2_back(s.drop_first());
        assert(s =~= "x"@ + s.drop_first());
    }
}

proof fn lemma_contraction_back(s: Seq<char>)
    requires
        contraction_of(s) is Ok,
    ensures
        join(contraction_parts(contraction_of(s)->Ok_0), "/"@) == s,
{
    reveal_strlit("c");
    reveal_strlit("b");
    reveal_strlit("/");
    let c = contraction_of(s)->Ok_0;
    let parts = split_seq(s.drop_first(), '/');
    let g = parts[0];
    assert(size_class_code(c.m) == seq![g[0]]);
    assert(size_class_code(c.n) == seq![g[1]]);
    assert(size_class_code(c.k) == seq![g[2]]);
    assert(size_class_code(c.m) + size_class_code(c.n) + size_class_code(c.k) =~= g);
    assert(div_bucket_code(c.k_div) == parts[1]);
    if parts.len() == 7 {
        assert(size_class_code(c.batch->0) == parts[2].drop_first());
        assert("b"@ + size_class_code(c.batch->0) =~= parts[2]);
    }
    let rest: int = if parts.len() == 7 { 3 } else { 2 };
    assert(math_precision_code(c.mp) == parts[rest + 3]);
    assert(c.wdt == parts[rest] && c.acc == parts[rest + 1] && c.out == parts[rest + 2]);
    assert(c.batch is Some <==> parts.len() == 7);
    let cp = contraction_parts(c);
    let u = parts.update(0, "c"@ + parts[0]);
    assert(cp.len() == u.len());
    assert(cp[0] == u[0]);
    assert(cp[1] == u[1]);
    if parts.len() == 7 {
        assert(cp[2] == u[2]);
    }
    assert(cp[rest] == u[rest]);
    assert(cp[rest + 1] == u[rest + 1]);
    assert(cp[rest + 2] == u[rest + 2]);
    assert(cp[rest + 3] == u[rest + 3]);
    assert(cp =~= u);
    crate::text::lemma_join_split(s.drop_first(), '/');
    assert("/"@ =~= seq!['/']);
    crate::text::lemma_join_prefix_first(parts, "c"@, "/"@);
    assert(s =~= "c"@ + s.drop_first());
}

/// A token that reads as a key is exactly that key's token: `from_token`
/// accepts only canonical spellings, so `from_token(t) == Ok(k)` gives
/// `k.to_token() == t` byte for byte.
#[verifier::spinoff_prover]
#[verifier::rlimit(40)]
pub proof fn token_key_roundtrip(t: Seq<char>)
    requires
        key_of(t) is Ok,
    ensures
        key_chars(key_of(t)->Ok_0) == t,
{
    reveal_strlit("r");
    reveal_strlit("|");
    reveal_strlit(";");
    let f = split_seq(t, '|');
    let k = key_of(t)->Ok_0;
    // the work class
    assert(work_class_code(k.work_class) == f[5]);
    // the rank
    let body = f[6].drop_first();
    crate::text::lemma_canonical_dec(body);
    assert("r"@ + dec_chars(k.rank as nat) =~= f[6]);
    // the operands
    let ot = split_seq(f[7], ';');
    lemma_operands_back(ot);
    crate::text::lemma_join_split(f[7], ';');
    assert(";"@ =~= seq![';']);
    assert(join(operand_fields(k.operands), ";"@) == f[7]);
    // the reduce field
    lemma_reduce_back(f[8]);
    // the contraction
    if f.len() == 10 {
        lemma_contraction_back(f[9]);
    }
    assert(key_fields(k) =~= f);
    crate::text::lemma_join_split(t, '|');
    assert("|"@ =~= seq!['|']);
}

} // verus!
