//! The KISS-Contract provider-bundle envelope and its shared provenance
//! vocabulary (Contract §6.9-0009). A provider publishing a catalog of
//! co-published kernels may carry a bundle-level envelope whose
//! `revision_base` and `derivation_lineage` are a projection of the per-cell
//! provenance and must not fork from it: [`RevisionBase`] and
//! [`DerivationLineage`] are the single definitions, carried verbatim by both
//! [`CellProvenance`] and [`BundleEnvelope`].

use vstd::prelude::*;
use crate::text::str_eq;

verus! {

/// The shared `revision_base` field (§6.9-0001/-0003): the versioning triple
/// plus the generator commit.
#[derive(Debug, Clone, PartialEq, Eq)]
pub struct RevisionBase {
    /// The generator commit the kernel was built from.
    pub generator_commit: String,
    /// KISS-Ops spec version — element 1 of the versioning triple.
    pub kiss_ops_spec_version: String,
    /// Recipe-grammar version — element 2 of the versioning triple.
    pub recipe_grammar_version: String,
    /// kiss-ref SemVer — element 3 of the versioning triple.
    pub kiss_ref_semver: String,
}

/// The content of a [`RevisionBase`].
pub struct RevisionBaseView {
    pub generator_commit: Seq<char>,
    pub kiss_ops_spec_version: Seq<char>,
    pub recipe_grammar_version: Seq<char>,
    pub kiss_ref_semver: Seq<char>,
}

impl View for RevisionBase {
    type V = RevisionBaseView;

    open spec fn view(&self) -> RevisionBaseView {
        RevisionBaseView {
            generator_commit: self.generator_commit@,
            kiss_ops_spec_version: self.kiss_ops_spec_version@,
            recipe_grammar_version: self.recipe_grammar_version@,
            kiss_ref_semver: self.kiss_ref_semver@,
        }
    }
}

/// Every one of the four fields is present (non-empty).
pub open spec fn revision_base_ok(r: RevisionBaseView) -> bool {
    r.generator_commit.len() > 0 && r.kiss_ops_spec_version.len() > 0
        && r.recipe_grammar_version.len() > 0 && r.kiss_ref_semver.len() > 0
}

impl RevisionBase {
    /// Well-formed only when every one of the four fields — the generator
    /// commit and the three-element versioning triple — is non-empty.
    pub fn is_well_formed(&self) -> (r: bool)
        ensures
            r == revision_base_ok(self@),
    {
        self.generator_commit.as_str().unicode_len() > 0 && self.kiss_ops_spec_version.as_str().unicode_len() > 0
            && self.recipe_grammar_version.as_str().unicode_len() > 0 && self.kiss_ref_semver.as_str().unicode_len() > 0
    }
}

/// The shared `derivation_lineage` tag (§6.9-0009), from a closed three-token
/// set.
#[derive(Debug, Clone, Copy, PartialEq, Eq, Structural)]
pub enum DerivationLineage {
    /// A generator-produced kernel.
    Generated,
    /// A kernel derived from the KISS-Ops §6.13 reference-decomposition table.
    Spec613Table,
    /// A kernel produced by an external cold reader of the frozen spec.
    ExternalColdReader,
}

/// The pinned ASCII spelling of a lineage tag.
pub open spec fn lineage_token(l: DerivationLineage) -> Seq<char> {
    match l {
        DerivationLineage::Generated => "generated"@,
        DerivationLineage::Spec613Table => "spec-6.13-table"@,
        DerivationLineage::ExternalColdReader => "external-cold-reader"@,
    }
}

/// The lineage a token spells, if any.
pub open spec fn lineage_of(s: Seq<char>) -> Option<DerivationLineage> {
    if s == "generated"@ {
        Some(DerivationLineage::Generated)
    } else if s == "spec-6.13-table"@ {
        Some(DerivationLineage::Spec613Table)
    } else if s == "external-cold-reader"@ {
        Some(DerivationLineage::ExternalColdReader)
    } else {
        None
    }
}

impl DerivationLineage {
    /// The pinned ASCII spelling of the lineage tag.
    pub fn token(self) -> (t: &'static str)
        ensures
            t@ == lineage_token(self),
    {
        match self {
            DerivationLineage::Generated => "generated",
            DerivationLineage::Spec613Table => "spec-6.13-table",
            DerivationLineage::ExternalColdReader => "external-cold-reader",
        }
    }

    /// Parse a lineage tag, rejecting any token outside the closed set.
    pub fn parse(s: &str) -> (r: Option<DerivationLineage>)
        ensures
            r == lineage_of(s@),
    {
        if str_eq(s, "generated") {
            Some(DerivationLineage::Generated)
        } else if str_eq(s, "spec-6.13-table") {
            Some(DerivationLineage::Spec613Table)
        } else if str_eq(s, "external-cold-reader") {
            Some(DerivationLineage::ExternalColdReader)
        } else {
            None
        }
    }

    /// The closed lineage set — exactly the three lineage tags (§6.9-0009).
    pub fn closed_set() -> (s: [DerivationLineage; 3])
        ensures
            s@ == seq![
                DerivationLineage::Generated,
                DerivationLineage::Spec613Table,
                DerivationLineage::ExternalColdReader,
            ],
    {
        let s = [
            DerivationLineage::Generated,
            DerivationLineage::Spec613Table,
            DerivationLineage::ExternalColdReader,
        ];
        assert(s@ =~= seq![
            DerivationLineage::Generated,
            DerivationLineage::Spec613Table,
            DerivationLineage::ExternalColdReader,
        ]);
        s
    }
}

/// Each lineage token parses back to its lineage.
pub proof fn lineage_roundtrip(l: DerivationLineage)
    ensures
        lineage_of(lineage_token(l)) == Some(l),
{
    reveal_strlit("generated");
    reveal_strlit("spec-6.13-table");
    reveal_strlit("external-cold-reader");
    match l {
        DerivationLineage::Spec613Table => {
            assert("spec-6.13-table"@.len() != "generated"@.len());
        },
        DerivationLineage::ExternalColdReader => {
            assert("external-cold-reader"@.len() != "generated"@.len());
            assert("external-cold-reader"@.len() != "spec-6.13-table"@.len());
        },
        _ => {},
    }
}

/// The per-cell provenance that rides one contained contract.
#[derive(Debug, Clone, PartialEq, Eq)]
pub struct CellProvenance {
    pub revision_base: RevisionBase,
    pub derivation_lineage: DerivationLineage,
}

/// One `contained` entry: a contract reference and the cell's opaque
/// `structure_key` token (carried, never parsed here).
#[derive(Debug, Clone, PartialEq, Eq)]
pub struct ContainedCell {
    pub contract_ref: String,
    pub structure_key_token: String,
}

/// The optional provider-bundle envelope (§6.9-0009).
#[derive(Debug, Clone, PartialEq, Eq)]
pub struct BundleEnvelope {
    pub provider_id: String,
    pub revision_base: RevisionBase,
    pub derivation_lineage: DerivationLineage,
    pub contained: Vec<ContainedCell>,
}

/// A typed decline from envelope validation (§6.9-0009).
#[derive(Debug, Clone, PartialEq, Eq, Structural)]
pub enum EnvelopeDecline {
    EmptyProviderId,
    MalformedRevisionBase,
    EmptyContained,
    EmptyContractRef,
    EmptyStructureKeyToken,
    /// A contained cell's per-cell provenance forks from the bundle-level
    /// projection.
    ProvenanceFork { cell: usize },
}

/// The first contained cell (among the first `n`) with an empty field, and
/// which field: the contract reference is checked before the token.
pub open spec fn contained_fault(c: Seq<ContainedCell>, n: nat) -> Option<EnvelopeDecline>
    decreases n,
{
    if n == 0 {
        None
    } else {
        match contained_fault(c, (n - 1) as nat) {
            Some(d) => Some(d),
            None => if c[n - 1].contract_ref@.len() == 0 {
                Some(EnvelopeDecline::EmptyContractRef)
            } else if c[n - 1].structure_key_token@.len() == 0 {
                Some(EnvelopeDecline::EmptyStructureKeyToken)
            } else {
                None
            },
        }
    }
}

/// The validation verdict of an envelope.
pub open spec fn envelope_verdict(e: BundleEnvelope) -> Result<(), EnvelopeDecline> {
    if e.provider_id@.len() == 0 {
        Err(EnvelopeDecline::EmptyProviderId)
    } else if !revision_base_ok(e.revision_base@) {
        Err(EnvelopeDecline::MalformedRevisionBase)
    } else if e.contained@.len() == 0 {
        Err(EnvelopeDecline::EmptyContained)
    } else {
        match contained_fault(e.contained@, e.contained@.len()) {
            Some(d) => Err(d),
            None => Ok(()),
        }
    }
}

/// Whether a cell's provenance equals the bundle-level projection.
pub open spec fn same_provenance(c: CellProvenance, r: RevisionBaseView, l: DerivationLineage) -> bool {
    c.revision_base@ == r && c.derivation_lineage == l
}

fn revision_bases_equal(a: &RevisionBase, b: &RevisionBase) -> (r: bool)
    ensures
        r == (a@ == b@),
{
    str_eq(a.generator_commit.as_str(), b.generator_commit.as_str()) && str_eq(
        a.kiss_ops_spec_version.as_str(),
        b.kiss_ops_spec_version.as_str(),
    ) && str_eq(a.recipe_grammar_version.as_str(), b.recipe_grammar_version.as_str()) && str_eq(
        a.kiss_ref_semver.as_str(),
        b.kiss_ref_semver.as_str(),
    )
}

impl BundleEnvelope {
    /// Validate a bundle envelope: a non-empty `provider_id`, a well-formed
    /// `revision_base`, and at least one `contained` cell, each naming a
    /// `contract_ref` and a `structure_key_token` — the first fault in that
    /// order is the decline.
    pub fn validate(&self) -> (r: Result<(), EnvelopeDecline>)
        ensures
            r == envelope_verdict(*self),
    {
        if self.provider_id.as_str().unicode_len() == 0 {
            return Err(EnvelopeDecline::EmptyProviderId);
        }
        if !self.revision_base.is_well_formed() {
            return Err(EnvelopeDecline::MalformedRevisionBase);
        }
        if self.contained.len() == 0 {
            return Err(EnvelopeDecline::EmptyContained);
        }
        let mut fault: Option<EnvelopeDecline> = None;
        let mut i: usize = 0;
        while i < self.contained.len()
            invariant_except_break
                fault is None,
            invariant
                i <= self.contained@.len(),
                contained_fault(self.contained@, i as nat) is None,
            ensures
                fault == contained_fault(self.contained@, self.contained@.len()),
            decreases self.contained.len() - i,
        {
            let c = &self.contained[i];
            if c.contract_ref.as_str().unicode_len() == 0 {
                proof {
                    lemma_fault_sticks(self.contained@, (i + 1) as nat, self.contained@.len());
                }
                fault = Some(EnvelopeDecline::EmptyContractRef);
                break;
            }
            if c.structure_key_token.as_str().unicode_len() == 0 {
                proof {
                    lemma_fault_sticks(self.contained@, (i + 1) as nat, self.contained@.len());
                }
                fault = Some(EnvelopeDecline::EmptyStructureKeyToken);
                break;
            }
            i += 1;
        }
        match fault {
            Some(d) => {
                return Err(d);
            },
            None => {},
        }
        Ok(())
    }

    /// The no-fork witness (§6.9-0009): every contained cell's per-cell
    /// provenance must equal the envelope's bundle-level `revision_base` and
    /// `derivation_lineage`; the first cell that disagrees is a fork.
    pub fn check_no_fork(&self, per_cell: &[CellProvenance]) -> (r: Result<(), EnvelopeDecline>)
        ensures
            r is Ok <==> forall|i: int| 0 <= i < per_cell@.len() ==> same_provenance(
                #[trigger] per_cell@[i],
                self.revision_base@,
                self.derivation_lineage,
            ),
            r matches Err(d) ==> exists|i: int|
                0 <= i < per_cell@.len() && d == (EnvelopeDecline::ProvenanceFork { cell: i as usize })
                    && !same_provenance(#[trigger] per_cell@[i], self.revision_base@, self.derivation_lineage)
                    && forall|j: int| 0 <= j < i ==> same_provenance(
                    #[trigger] per_cell@[j],
                    self.revision_base@,
                    self.derivation_lineage,
                ),
    {
        let mut i: usize = 0;
        while i < per_cell.len()
            invariant
                i <= per_cell@.len(),
                forall|j: int| 0 <= j < i ==> same_provenance(
                    #[trigger] per_cell@[j],
                    self.revision_base@,
                    self.derivation_lineage,
                ),
            decreases per_cell.len() - i,
        {
            let cell = &per_cell[i];
            if !revision_bases_equal(&cell.revision_base, &self.revision_base)
                || cell.derivation_lineage != self.derivation_lineage {
                assert(!same_provenance(per_cell@[i as int], self.revision_base@, self.derivation_lineage));
                return Err(EnvelopeDecline::ProvenanceFork { cell: i });
            }
            i += 1;
        }
        Ok(())
    }
}

proof fn lemma_fault_sticks(c: Seq<ContainedCell>, k: nat, n: nat)
    requires
        k <= n,
        n <= c.len(),
        contained_fault(c, k) is Some,
    ensures
        contained_fault(c, n) == contained_fault(c, k),
    decreases n - k,
{
    if k < n {
        lemma_fault_sticks(c, k, (n - 1) as nat);
    }
}

} // verus!
