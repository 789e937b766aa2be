//! Stable logical memory records.
//!
//! Physical indexes may be rebuilt, quantized, sharded or compacted without
//! changing a record's logical identity. Product adapters supply policy-bearing
//! scope and provenance values; this layer owns storage and lifecycle only.
use crate::fileguard;
use crate::text;
use crate::text::{is_blank, push_decimal, text_equal};
use vstd::prelude::*;
use vstd::string::*;

verus! {

/// Stable logical memory identifier, independent of physical index position.
#[derive(Debug, PartialEq, Eq, PartialOrd, Ord, Hash)]
pub struct MemoryId(String);

impl View for MemoryId {
    type V = Seq<char>;

    closed spec fn view(&self) -> Seq<char> {
        self.0@
    }
}

impl Clone for MemoryId {
    fn clone(&self) -> (r: MemoryId)
        ensures
            r@ == self@,
    {
        proof {
            use_type_invariant(&*self);
        }
        MemoryId(self.0.clone())
    }
}

impl MemoryId {
    #[verifier::type_invariant]
    spec fn well_formed(self) -> bool {
        !text::blank(self.0@)
    }

    /// Accepts every text that is not blank.
    pub fn new(value: &str) -> (r: Result<MemoryId, RecordError>)
        ensures
            match r {
                Ok(id) => !text::blank(value@) && id@ == value@,
                Err(e) => text::blank(value@) && e == RecordError::EmptyId,
            },
    {
        if is_blank(value) {
            return Err(RecordError::EmptyId);
        }
        Ok(MemoryId(value.to_owned()))
    }

    /// The identifier as a text; it is never blank.
    pub fn as_str(&self) -> (r: &str)
        ensures
            r@ == self@,
            !text::blank(self@),
    {
        proof {
            use_type_invariant(&*self);
        }
        &self.0
    }
}

/// Tenant, workspace and agent: the isolation scope that the product supplies.
///
/// The labels are carried exactly; no authorization is decided here. All three are
/// mandatory, so that an omitted label cannot collapse two namespaces into one.
#[derive(Debug, PartialEq, Eq, PartialOrd, Ord, Hash)]
pub struct MemoryScope {
    tenant: String,
    workspace: String,
    agent: String,
}

/// The value of a [`MemoryScope`] in specifications.
#[verifier::ext_equal]
pub struct ScopeView {
    pub tenant: Seq<char>,
    pub workspace: Seq<char>,
    pub agent: Seq<char>,
}

impl ScopeView {
    /// No label is blank.
    pub open spec fn valid(self) -> bool {
        !text::blank(self.tenant) && !text::blank(self.workspace) && !text::blank(self.agent)
    }
}

impl View for MemoryScope {
    type V = ScopeView;

    closed spec fn view(&self) -> ScopeView {
        ScopeView { tenant: self.tenant@, workspace: self.workspace@, agent: self.agent@ }
    }
}

impl Clone for MemoryScope {
    fn clone(&self) -> (r: MemoryScope)
        ensures
            r@ == self@,
    {
        proof {
            use_type_invariant(&*self);
        }
        MemoryScope {
            tenant: self.tenant.clone(),
            workspace: self.workspace.clone(),
            agent: self.agent.clone(),
        }
    }
}

/// What [`MemoryScope::new`] makes of three labels: the first blank one is named.
pub open spec fn checked_scope(tenant: Seq<char>, workspace: Seq<char>, agent: Seq<char>) -> Result<
    ScopeView,
    RecordError,
> {
    if text::blank(tenant) {
        Err(RecordError::EmptyScopeComponent("tenant"))
    } else if text::blank(workspace) {
        Err(RecordError::EmptyScopeComponent("workspace"))
    } else if text::blank(agent) {
        Err(RecordError::EmptyScopeComponent("agent"))
    } else {
        Ok(ScopeView { tenant, workspace, agent })
    }
}

impl MemoryScope {
    #[verifier::type_invariant]
    spec fn well_formed(self) -> bool {
        !text::blank(self.tenant@) && !text::blank(self.workspace@) && !text::blank(self.agent@)
    }

    /// Accepts three labels of which none is blank.
    pub fn new(tenant: &str, workspace: &str, agent: &str) -> (r: Result<MemoryScope, RecordError>)
        ensures
            match r {
                Ok(s) => checked_scope(tenant@, workspace@, agent@) == Ok::<_, RecordError>(s@),
                Err(e) => checked_scope(tenant@, workspace@, agent@) == Err::<ScopeView, _>(e),
            },
    {
        if is_blank(tenant) {
            return Err(RecordError::EmptyScopeComponent("tenant"));
        }
        if is_blank(workspace) {
            return Err(RecordError::EmptyScopeComponent("workspace"));
        }
        if is_blank(agent) {
            return Err(RecordError::EmptyScopeComponent("agent"));
        }
        Ok(
            MemoryScope {
                tenant: tenant.to_owned(),
                workspace: workspace.to_owned(),
                agent: agent.to_owned(),
            },
        )
    }

    /// The tenant label.
    pub fn tenant(&self) -> (r: &str)
        ensures
            r@ == self@.tenant,
            self@.valid(),
    {
        proof {
            use_type_invariant(&*self);
        }
        &self.tenant
    }

    /// The workspace label.
    pub fn workspace(&self) -> (r: &str)
        ensures
            r@ == self@.workspace,
    {
        &self.workspace
    }

    /// The agent label.
    pub fn agent(&self) -> (r: &str)
        ensures
            r@ == self@.agent,
    {
        &self.agent
    }
}

/// The text of an optional string.
pub open spec fn optional_text(s: Option<String>) -> Option<Seq<char>> {
    match s {
        Some(t) => Some(t@),
        None => None,
    }
}

/// The text of an optional string slice.
pub open spec fn optional_str(s: Option<&str>) -> Option<Seq<char>> {
    match s {
        Some(t) => Some(t@),
        None => None,
    }
}

/// Absent, or not blank.
pub open spec fn absent_or_filled(s: Option<Seq<char>>) -> bool {
    s matches Some(t) ==> !text::blank(t)
}

pub(crate) fn clone_text(s: &Option<String>) -> (r: Option<String>)
    ensures
        optional_text(r) == optional_text(*s),
{
    match s {
        Some(t) => Some(t.clone()),
        None => None,
    }
}

fn borrow_text(s: &Option<String>) -> (r: Option<&str>)
    ensures
        optional_str(r) == optional_text(*s),
{
    match s {
        Some(t) => Some(t.as_str()),
        None => None,
    }
}


/// Provenance carried with a memory observation.
#[derive(Debug, PartialEq, Eq)]
pub struct Provenance {
    source: String,
    source_record: Option<String>,
    /// Supplied from outside: the record layer never reads a wall clock.
    observed_at_unix_ms: Option<u64>,
}

/// The value of a [`Provenance`] in specifications.
#[verifier::ext_equal]
pub struct ProvenanceView {
    pub source: Seq<char>,
    pub source_record: Option<Seq<char>>,
    pub observed_at_unix_ms: Option<u64>,
}

impl ProvenanceView {
    /// The source is not blank, nor is the source record where there is one.
    pub open spec fn valid(self) -> bool {
        !text::blank(self.source) && absent_or_filled(self.source_record)
    }
}

impl View for Provenance {
    type V = ProvenanceView;

    closed spec fn view(&self) -> ProvenanceView {
        ProvenanceView {
            source: self.source@,
            source_record: optional_text(self.source_record),
            observed_at_unix_ms: self.observed_at_unix_ms,
        }
    }
}

impl Clone for Provenance {
    fn clone(&self) -> (r: Provenance)
        ensures
            r@ == self@,
    {
        proof {
            use_type_invariant(&*self);
        }
        Provenance {
            source: self.source.clone(),
            source_record: clone_text(&self.source_record),
            observed_at_unix_ms: self.observed_at_unix_ms,
        }
    }
}

impl Provenance {
    #[verifier::type_invariant]
    spec fn well_formed(self) -> bool {
        !text::blank(self.source@) && absent_or_filled(optional_text(self.source_record))
    }

    /// An observation from `source`, which must not be blank.
    pub fn new(source: &str) -> (r: Result<Provenance, RecordError>)
        ensures
            match r {
                Ok(p) => !text::blank(source@) && p@ == (ProvenanceView {
                    source: source@,
                    source_record: None,
                    observed_at_unix_ms: None,
                }),
                Err(e) => text::blank(source@) && e == RecordError::EmptyProvenanceSource,
            },
    {
        if is_blank(source) {
            return Err(RecordError::EmptyProvenanceSource);
        }
        Ok(
            Provenance { source: source.to_owned(), source_record: None, observed_at_unix_ms: None },
        )
    }

    /// The same observation with the record it came from, which must not be blank.
    pub fn with_source_record(self, source_record: &str) -> (r: Result<Provenance, RecordError>)
        ensures
            match r {
                Ok(p) => !text::blank(source_record@) && p@ == (ProvenanceView {
                    source_record: Some(source_record@),
                    ..self@
                }),
                Err(e) => text::blank(source_record@) && e == RecordError::EmptyProvenanceRecord,
            },
    {
        proof {
            use_type_invariant(&self);
        }
        if is_blank(source_record) {
            return Err(RecordError::EmptyProvenanceRecord);
        }
        Ok(
            Provenance {
                source: self.source,
                source_record: Some(source_record.to_owned()),
                observed_at_unix_ms: self.observed_at_unix_ms,
            },
        )
    }

    /// The same observation with its time.
    pub fn with_observed_at(self, observed_at_unix_ms: u64) -> (p: Provenance)
        ensures
            p@ == (ProvenanceView { observed_at_unix_ms: Some(observed_at_unix_ms), ..self@ }),
    {
        proof {
            use_type_invariant(&self);
        }
        Provenance {
            source: self.source,
            source_record: self.source_record,
            observed_at_unix_ms: Some(observed_at_unix_ms),
        }
    }

    /// Where the observation came from; never blank.
    pub fn source(&self) -> (r: &str)
        ensures
            r@ == self@.source,
            self@.valid(),
    {
        proof {
            use_type_invariant(&*self);
        }
        &self.source
    }

    /// The record that the observation came from.
    pub fn source_record(&self) -> (r: Option<&str>)
        ensures
            optional_str(r) == self@.source_record,
    {
        borrow_text(&self.source_record)
    }

    /// When it was observed.
    pub fn observed_at_unix_ms(&self) -> (r: Option<u64>)
        ensures
            r == self@.observed_at_unix_ms,
    {
        self.observed_at_unix_ms
    }
}

/// Data-sensitivity classification carried through storage and recall.
#[derive(Clone, Copy, Debug, PartialEq, Eq, PartialOrd, Ord, Structural)]
pub enum Sensitivity {
    Public,
    Internal,
    Confidential,
    Restricted,
}

impl Default for Sensitivity {
    fn default() -> (s: Sensitivity)
        ensures
            s == Sensitivity::Internal,
    {
        Sensitivity::Internal
    }
}

impl Sensitivity {
    /// The rank of the classification, from public up.
    pub open spec fn level(self) -> u8 {
        match self {
            Sensitivity::Public => 0,
            Sensitivity::Internal => 1,
            Sensitivity::Confidential => 2,
            Sensitivity::Restricted => 3,
        }
    }
}

/// Fingerprint of the embedding contract that a record was indexed with.
#[derive(Debug, PartialEq, Eq)]
pub struct EmbeddingFingerprint {
    provider: String,
    model: String,
    revision: Option<String>,
    dimension: usize,
    projection: Option<String>,
    quantization: Option<String>,
}

/// The value of an [`EmbeddingFingerprint`] in specifications.
#[verifier::ext_equal]
pub struct FingerprintView {
    pub provider: Seq<char>,
    pub model: Seq<char>,
    pub revision: Option<Seq<char>>,
    pub dimension: usize,
    pub projection: Option<Seq<char>>,
    pub quantization: Option<Seq<char>>,
}

impl FingerprintView {
    /// No text is blank and the dimension is not zero.
    pub open spec fn valid(self) -> bool {
        &&& !text::blank(self.provider)
        &&& !text::blank(self.model)
        &&& absent_or_filled(self.revision)
        &&& self.dimension != 0
        &&& absent_or_filled(self.projection)
        &&& absent_or_filled(self.quantization)
    }
}

impl View for EmbeddingFingerprint {
    type V = FingerprintView;

    closed spec fn view(&self) -> FingerprintView {
        FingerprintView {
            provider: self.provider@,
            model: self.model@,
            revision: optional_text(self.revision),
            dimension: self.dimension,
            projection: optional_text(self.projection),
            quantization: optional_text(self.quantization),
        }
    }
}

impl Clone for EmbeddingFingerprint {
    fn clone(&self) -> (r: EmbeddingFingerprint)
        ensures
            r@ == self@,
    {
        proof {
            use_type_invariant(&*self);
        }
        EmbeddingFingerprint {
            provider: self.provider.clone(),
            model: self.model.clone(),
            revision: clone_text(&self.revision),
            dimension: self.dimension,
            projection: clone_text(&self.projection),
            quantization: clone_text(&self.quantization),
        }
    }
}

/// What [`EmbeddingFingerprint::new`] makes of its arguments.
pub open spec fn checked_fingerprint(
    provider: Seq<char>,
    model: Seq<char>,
    dimension: usize,
) -> Result<FingerprintView, RecordError> {
    if text::blank(provider) {
        Err(RecordError::EmptyEmbeddingProvider)
    } else if text::blank(model) {
        Err(RecordError::EmptyEmbeddingModel)
    } else if dimension == 0 {
        Err(RecordError::ZeroEmbeddingDimension)
    } else {
        Ok(
            FingerprintView {
                provider,
                model,
                revision: None,
                dimension,
                projection: None,
                quantization: None,
            },
        )
    }
}

impl EmbeddingFingerprint {
    #[verifier::type_invariant]
    spec fn well_formed(self) -> bool {
        &&& !text::blank(self.provider@)
        &&& !text::blank(self.model@)
        &&& absent_or_filled(optional_text(self.revision))
        &&& self.dimension != 0
        &&& absent_or_filled(optional_text(self.projection))
        &&& absent_or_filled(optional_text(self.quantization))
    }

    /// A fingerprint of a provider and a model, neither blank, and a dimension that
    /// is not zero.
    pub fn new(provider: &str, model: &str, dimension: usize) -> (r: Result<
        EmbeddingFingerprint,
        RecordError,
    >)
        ensures
            match r {
                Ok(f) => checked_fingerprint(provider@, model@, dimension) == Ok::<_, RecordError>(
                    f@,
                ),
                Err(e) => checked_fingerprint(provider@, model@, dimension) == Err::<
                    FingerprintView,
                    _,
                >(e),
            },
    {
        if is_blank(provider) {
            return Err(RecordError::EmptyEmbeddingProvider);
        }
        if is_blank(model) {
            return Err(RecordError::EmptyEmbeddingModel);
        }
        if dimension == 0 {
            return Err(RecordError::ZeroEmbeddingDimension);
        }
        Ok(
            EmbeddingFingerprint {
                provider: provider.to_owned(),
                model: model.to_owned(),
                revision: None,
                dimension,
                projection: None,
                quantization: None,
            },
        )
    }

    /// The same fingerprint with a model revision, which must not be blank.
    pub fn with_revision(self, revision: &str) -> (r: Result<EmbeddingFingerprint, RecordError>)
        ensures
            match r {
                Ok(f) => !text::blank(revision@) && f@ == (FingerprintView {
                    revision: Some(revision@),
                    ..self@
                }),
                Err(e) => text::blank(revision@) && e == RecordError::EmptyFingerprintComponent(
                    "revision",
                ),
            },
    {
        proof {
            use_type_invariant(&self);
        }
        if is_blank(revision) {
            return Err(RecordError::EmptyFingerprintComponent("revision"));
        }
        Ok(
            EmbeddingFingerprint {
                provider: self.provider,
                model: self.model,
                revision: Some(revision.to_owned()),
                dimension: self.dimension,
                projection: self.projection,
                quantization: self.quantization,
            },
        )
    }

    /// The same fingerprint with a projection, which must not be blank.
    pub fn with_projection(self, projection: &str) -> (r: Result<EmbeddingFingerprint, RecordError>)
        ensures
            match r {
                Ok(f) => !text::blank(projection@) && f@ == (FingerprintView {
                    projection: Some(projection@),
                    ..self@
                }),
                Err(e) => text::blank(projection@) && e == RecordError::EmptyFingerprintComponent(
                    "projection",
                ),
            },
    {
        proof {
            use_type_invariant(&self);
        }
        if is_blank(projection) {
            return Err(RecordError::EmptyFingerprintComponent("projection"));
        }
        Ok(
            EmbeddingFingerprint {
                provider: self.provider,
                model: self.model,
                revision: self.revision,
                dimension: self.dimension,
                projection: Some(projection.to_owned()),
                quantization: self.quantization,
            },
        )
    }

    /// The same fingerprint with a quantization, which must not be blank.
    pub fn with_quantization(self, quantization: &str) -> (r: Result<
        EmbeddingFingerprint,
        RecordError,
    >)
        ensures
            match r {
                Ok(f) => !text::blank(quantization@) && f@ == (FingerprintView {
                    quantization: Some(quantization@),
                    ..self@
                }),
                Err(e) => text::blank(quantization@) && e == RecordError::EmptyFingerprintComponent(
                    "quantization",
                ),
            },
    {
        proof {
            use_type_invariant(&self);
        }
        if is_blank(quantization) {
            return Err(RecordError::EmptyFingerprintComponent("quantization"));
        }
        Ok(
            EmbeddingFingerprint {
                provider: self.provider,
                model: self.model,
                revision: self.revision,
                dimension: self.dimension,
                projection: self.projection,
                quantization: Some(quantization.to_owned()),
            },
        )
    }

    /// Who provides the embedding; never blank.
    pub fn provider(&self) -> (r: &str)
        ensures
            r@ == self@.provider,
            self@.valid(),
    {
        proof {
            use_type_invariant(&*self);
        }
        &self.provider
    }

    /// The embedding model.
    pub fn model(&self) -> (r: &str)
        ensures
            r@ == self@.model,
    {
        &self.model
    }

    /// The revision of the model.
    pub fn revision(&self) -> (r: Option<&str>)
        ensures
            optional_str(r) == self@.revision,
    {
        borrow_text(&self.revision)
    }

    /// The number of components of an embedding.
    pub fn dimension(&self) -> (r: usize)
        ensures
            r == self@.dimension,
    {
        self.dimension
    }

    /// The projection that the index uses.
    pub fn projection(&self) -> (r: Option<&str>)
        ensures
            optional_str(r) == self@.projection,
    {
        borrow_text(&self.projection)
    }

    /// The quantization that the index uses.
    pub fn quantization(&self) -> (r: Option<&str>)
        ensures
            optional_str(r) == self@.quantization,
    {
        borrow_text(&self.quantization)
    }
}

/// Logical lifecycle state. Tombstones and supersession survive index rebuilds.
#[derive(Debug, PartialEq, Eq)]
pub enum MemoryStatus {
    Active,
    Tombstoned { at_generation: u64 },
    Superseded { by: MemoryId, at_generation: u64 },
}

/// The value of a [`MemoryStatus`] in specifications.
#[verifier::ext_equal]
pub enum StatusView {
    Active,
    Tombstoned { at_generation: u64 },
    Superseded { by: Seq<char>, at_generation: u64 },
}

impl StatusView {
    /// A successor's identifier is not blank.
    pub open spec fn valid(self) -> bool {
        self matches StatusView::Superseded { by, .. } ==> !text::blank(by)
    }
}

impl View for MemoryStatus {
    type V = StatusView;

    open spec fn view(&self) -> StatusView {
        match *self {
            MemoryStatus::Active => StatusView::Active,
            MemoryStatus::Tombstoned { at_generation } => StatusView::Tombstoned { at_generation },
            MemoryStatus::Superseded { by, at_generation } => StatusView::Superseded {
                by: by@,
                at_generation,
            },
        }
    }
}

impl Clone for MemoryStatus {
    fn clone(&self) -> (r: MemoryStatus)
        ensures
            r@ == self@,
    {
        match self {
            MemoryStatus::Active => MemoryStatus::Active,
            MemoryStatus::Tombstoned { at_generation } => MemoryStatus::Tombstoned {
                at_generation: *at_generation,
            },
            MemoryStatus::Superseded { by, at_generation } => MemoryStatus::Superseded {
                by: by.clone(),
                at_generation: *at_generation,
            },
        }
    }
}

impl MemoryStatus {
    /// Whether the record is neither deleted nor superseded.
    pub fn is_active(&self) -> (r: bool)
        ensures
            r == (self@ is Active),
    {
        match self {
            MemoryStatus::Active => true,
            _ => false,
        }
    }
}

/// Expiry and minimum retention, supplied by the governing product.
#[derive(Clone, Copy, Debug, PartialEq, Eq)]
pub struct Retention {
    pub expires_at_unix_ms: Option<u64>,
    pub retain_until_unix_ms: Option<u64>,
}

impl Default for Retention {
    fn default() -> (r: Retention)
        ensures
            r.expires_at_unix_ms is None,
            r.retain_until_unix_ms is None,
    {
        Retention { expires_at_unix_ms: None, retain_until_unix_ms: None }
    }
}

impl Retention {
    /// There is an expiry deadline and it has come.
    pub open spec fn expired(self, now_unix_ms: u64) -> bool {
        self.expires_at_unix_ms matches Some(deadline) && now_unix_ms >= deadline
    }

    /// There is no retention floor, or it has passed.
    pub open spec fn purge_permitted(self, now_unix_ms: u64) -> bool {
        self.retain_until_unix_ms matches Some(deadline) ==> now_unix_ms >= deadline
    }

    /// Whether the expiry deadline has come.
    pub fn is_expired_at(&self, now_unix_ms: u64) -> (r: bool)
        ensures
            r == self.expired(now_unix_ms),
    {
        match self.expires_at_unix_ms {
            Some(deadline) => now_unix_ms >= deadline,
            None => false,
        }
    }

    /// Whether the retention floor has passed.
    pub fn permits_purge_at(&self, now_unix_ms: u64) -> (r: bool)
        ensures
            r == self.purge_permitted(now_unix_ms),
    {
        match self.retain_until_unix_ms {
            Some(deadline) => now_unix_ms >= deadline,
            None => true,
        }
    }
}

/// Evidence relation between stable records. Consumers decide its authority.
#[derive(Clone, Copy, Debug, PartialEq, Eq, Structural)]
pub enum RelationKind {
    Confirms,
    Contradicts,
    /// Read from the replacer: this record supersedes the target.
    Supersedes,
    /// Read from the supplanted: this record was superseded by the target.
    SupersededBy,
}

/// One outgoing relation of a record.
#[derive(Debug, PartialEq, Eq)]
pub struct MemoryRelation {
    pub kind: RelationKind,
    pub target: MemoryId,
}

/// The value of a [`MemoryRelation`] in specifications.
#[verifier::ext_equal]
pub struct RelationView {
    pub kind: RelationKind,
    pub target: Seq<char>,
}

impl View for MemoryRelation {
    type V = RelationView;

    open spec fn view(&self) -> RelationView {
        RelationView { kind: self.kind, target: self.target@ }
    }
}

impl Clone for MemoryRelation {
    fn clone(&self) -> (r: MemoryRelation)
        ensures
            r@ == self@,
    {
        MemoryRelation { kind: self.kind, target: self.target.clone() }
    }
}

/// Canonical logical memory record.
#[derive(Debug, PartialEq, Eq)]
pub struct MemoryRecord {
    pub id: MemoryId,
    pub payload: Vec<u8>,
    pub scope: MemoryScope,
    pub provenance: Vec<Provenance>,
    /// Supplied from outside; absent in deterministic, offline data.
    pub created_at_unix_ms: Option<u64>,
    /// Monotonic store generation that last changed this record.
    pub generation: u64,
    /// Routing hint only; never causal truth.
    pub causal_region: Option<String>,
    pub sensitivity: Sensitivity,
    pub status: MemoryStatus,
    pub retention: Retention,
    /// Compatibility identity of the semantic representation.
    pub embedding: EmbeddingFingerprint,
    pub relations: Vec<MemoryRelation>,
}

/// The value of a [`MemoryRecord`] in specifications.
#[verifier::ext_equal]
pub struct RecordView {
    pub id: Seq<char>,
    pub payload: Seq<u8>,
    pub scope: ScopeView,
    pub provenance: Seq<ProvenanceView>,
    pub created_at_unix_ms: Option<u64>,
    pub generation: u64,
    pub causal_region: Option<Seq<char>>,
    pub sensitivity: Sensitivity,
    pub status: StatusView,
    pub retention: Retention,
    pub embedding: FingerprintView,
    pub relations: Seq<RelationView>,
}

impl RecordView {
    /// Every part is as its constructor leaves it.
    pub open spec fn valid(self) -> bool {
        &&& !text::blank(self.id)
        &&& self.scope.valid()
        &&& forall|i: int| 0 <= i < self.provenance.len() ==> (#[trigger] self.provenance[i]).valid()
        &&& self.status.valid()
        &&& self.embedding.valid()
        &&& forall|i: int|
            0 <= i < self.relations.len() ==> !text::blank((#[trigger] self.relations[i]).target)
    }

    /// Ordinary recall shows the record: it is active and has not expired.
    pub open spec fn visible(self, now_unix_ms: u64) -> bool {
        self.status is Active && !self.retention.expired(now_unix_ms)
    }

    /// The record may be removed: it is inactive and past its retention floor.
    pub open spec fn purgeable(self, now_unix_ms: u64) -> bool {
        !(self.status is Active) && self.retention.purge_permitted(now_unix_ms)
    }
}

/// The values of a list of provenances.
pub open spec fn provenance_views(s: Seq<Provenance>) -> Seq<ProvenanceView> {
    s.map_values(|p: Provenance| p@)
}

/// The values of a list of relations.
pub open spec fn relation_views(s: Seq<MemoryRelation>) -> Seq<RelationView> {
    s.map_values(|r: MemoryRelation| r@)
}

impl View for MemoryRecord {
    type V = RecordView;

    open spec fn view(&self) -> RecordView {
        RecordView {
            id: self.id@,
            payload: self.payload@,
            scope: self.scope@,
            provenance: provenance_views(self.provenance@),
            created_at_unix_ms: self.created_at_unix_ms,
            generation: self.generation,
            causal_region: optional_text(self.causal_region),
            sensitivity: self.sensitivity,
            status: self.status@,
            retention: self.retention,
            embedding: self.embedding@,
            relations: relation_views(self.relations@),
        }
    }
}

impl Clone for MemoryRecord {
    fn clone(&self) -> (r: MemoryRecord)
        ensures
            r@ == self@,
    {
        let r = MemoryRecord {
            id: self.id.clone(),
            payload: self.payload.clone(),
            scope: self.scope.clone(),
            provenance: self.provenance.clone(),
            created_at_unix_ms: self.created_at_unix_ms,
            generation: self.generation,
            causal_region: clone_text(&self.causal_region),
            sensitivity: self.sensitivity,
            status: self.status.clone(),
            retention: self.retention,
            embedding: self.embedding.clone(),
            relations: self.relations.clone(),
        };
        assert(r.payload@ =~= self.payload@);
        assert(provenance_views(r.provenance@) =~= provenance_views(self.provenance@));
        assert(relation_views(r.relations@) =~= relation_views(self.relations@));
        r
    }
}

impl MemoryRecord {
    /// An active record with its mandatory isolation, provenance and embedding
    /// identity.
    pub fn new(
        id: MemoryId,
        payload: Vec<u8>,
        scope: MemoryScope,
        provenance: Provenance,
        embedding: EmbeddingFingerprint,
        generation: u64,
    ) -> (r: MemoryRecord)
        ensures
            r@ == (RecordView {
                id: id@,
                payload: payload@,
                scope: scope@,
                provenance: seq![provenance@],
                created_at_unix_ms: None,
                generation,
                causal_region: None,
                sensitivity: Sensitivity::Internal,
                status: StatusView::Active,
                retention: Retention { expires_at_unix_ms: None, retain_until_unix_ms: None },
                embedding: embedding@,
                relations: Seq::empty(),
            }),
    {
        let mut list: Vec<Provenance> = Vec::new();
        let ghost p = provenance@;
        list.push(provenance);
        let r = MemoryRecord {
            id,
            payload,
            scope,
            provenance: list,
            created_at_unix_ms: None,
            generation,
            causal_region: None,
            sensitivity: Sensitivity::default(),
            status: MemoryStatus::Active,
            retention: Retention::default(),
            embedding,
            relations: Vec::new(),
        };
        assert(provenance_views(r.provenance@) =~= seq![p]);
        assert(relation_views(r.relations@) =~= Seq::<RelationView>::empty());
        r
    }

    /// Every part of a record keeps its own invariant; this gathers them into the
    /// validity of the whole.
    pub fn gather_validity(&self)
        ensures
            self@.valid(),
    {
        let _ = self.id.as_str();
        let _ = self.scope.tenant();
        let _ = self.embedding.provider();
        match &self.status {
            MemoryStatus::Superseded { by, .. } => {
                let _ = by.as_str();
            },
            _ => {},
        }
        let mut i: usize = 0;
        while i < self.provenance.len()
            invariant
                i <= self.provenance@.len(),
                forall|j: int| 0 <= j < i ==> (#[trigger] self@.provenance[j]).valid(),
            decreases self.provenance@.len() - i,
        {
            let _ = self.provenance[i].source();
            i += 1;
        }
        let mut j: usize = 0;
        while j < self.relations.len()
            invariant
                j <= self.relations@.len(),
                forall|k: int|
                    0 <= k < j ==> !text::blank((#[trigger] self@.relations[k]).target),
            decreases self.relations@.len() - j,
        {
            let _ = self.relations[j].target.as_str();
            j += 1;
        }
    }

    /// Whether ordinary recall should show this record at `now_unix_ms`.
    pub fn visible_at(&self, now_unix_ms: u64) -> (r: bool)
        ensures
            r == self@.visible(now_unix_ms),
    {
        self.status.is_active() && !self.retention.is_expired_at(now_unix_ms)
    }

    /// Adds another provenance assertion.
    pub fn add_provenance(&mut self, provenance: Provenance)
        ensures
            final(self)@ == (RecordView {
                provenance: old(self)@.provenance.push(provenance@),
                ..old(self)@
            }),
    {
        let ghost p = provenance@;
        self.provenance.push(provenance);
        assert(provenance_views(self.provenance@) =~= provenance_views(old(self).provenance@).push(
            p,
        ));
    }

    /// Replaces the payload at a strictly newer generation; identity and everything
    /// else stay, and the record is active again.
    pub fn upsert_payload(&mut self, payload: Vec<u8>, generation: u64) -> (r: Result<
        (),
        RecordError,
    >)
        ensures
            match r {
                Ok(_) => generation > old(self)@.generation && final(self)@ == (RecordView {
                    payload: payload@,
                    generation,
                    status: StatusView::Active,
                    ..old(self)@
                }),
                Err(e) => generation <= old(self)@.generation && e == stale(
                    old(self)@.generation,
                    generation,
                ) && final(self)@ == old(self)@,
            },
    {
        match self.advance_generation(generation) {
            Ok(_) => {
                self.payload = payload;
                self.status = MemoryStatus::Active;
                Ok(())
            },
            Err(e) => Err(e),
        }
    }

    /// Marks the record deleted at a strictly newer generation. Physical purge is
    /// separate.
    pub fn tombstone(&mut self, generation: u64) -> (r: Result<(), RecordError>)
        ensures
            match r {
                Ok(_) => generation > old(self)@.generation && final(self)@ == tombstoned(
                    old(self)@,
                    generation,
                ),
                Err(e) => generation <= old(self)@.generation && e == stale(
                    old(self)@.generation,
                    generation,
                ) && final(self)@ == old(self)@,
            },
    {
        match self.advance_generation(generation) {
            Ok(_) => {
                self.status = MemoryStatus::Tombstoned { at_generation: generation };
                Ok(())
            },
            Err(e) => Err(e),
        }
    }

    /// Marks this record superseded and records the relation on it, pointing at the
    /// replacement.
    pub fn supersede(&mut self, by: MemoryId, generation: u64) -> (r: Result<(), RecordError>)
        ensures
            match r {
                Ok(_) => {
                    &&& by@ != old(self)@.id
                    &&& generation > old(self)@.generation
                    &&& final(self)@ == (RecordView {
                        generation,
                        relations: old(self)@.relations.push(
                            RelationView { kind: RelationKind::SupersededBy, target: by@ },
                        ),
                        status: StatusView::Superseded { by: by@, at_generation: generation },
                        ..old(self)@
                    })
                },
                Err(e) => {
                    &&& final(self)@ == old(self)@
                    &&& if by@ == old(self)@.id {
                        e == RecordError::SelfRelation
                    } else {
                        generation <= old(self)@.generation && e == stale(
                            old(self)@.generation,
                            generation,
                        )
                    }
                },
            },
    {
        if text_equal(by.as_str(), self.id.as_str()) {
            return Err(RecordError::SelfRelation);
        }
        match self.advance_generation(generation) {
            Ok(_) => {
                let relation = MemoryRelation {
                    kind: RelationKind::SupersededBy,
                    target: by.clone(),
                };
                let ghost view = relation@;
                self.relations.push(relation);
                assert(relation_views(self.relations@) =~= relation_views(
                    old(self).relations@,
                ).push(view));
                self.status = MemoryStatus::Superseded { by, at_generation: generation };
                Ok(())
            },
            Err(e) => Err(e),
        }
    }

    /// Adds a relation to another record.
    pub fn add_relation(&mut self, kind: RelationKind, target: MemoryId) -> (r: Result<
        (),
        RecordError,
    >)
        ensures
            match r {
                Ok(_) => target@ != old(self)@.id && final(self)@ == (RecordView {
                    relations: old(self)@.relations.push(RelationView { kind, target: target@ }),
                    ..old(self)@
                }),
                Err(e) => target@ == old(self)@.id && e == RecordError::SelfRelation
                    && final(self)@ == old(self)@,
            },
    {
        if text_equal(target.as_str(), self.id.as_str()) {
            return Err(RecordError::SelfRelation);
        }
        let relation = MemoryRelation { kind, target };
        let ghost view = relation@;
        self.relations.push(relation);
        assert(relation_views(self.relations@) =~= relation_views(old(self).relations@).push(view));
        Ok(())
    }

    /// Whether the record may be physically removed: it is inactive and past its
    /// retention floor.
    pub fn purgeable_at(&self, now_unix_ms: u64) -> (r: bool)
        ensures
            r == self@.purgeable(now_unix_ms),
    {
        !self.status.is_active() && self.retention.permits_purge_at(now_unix_ms)
    }

    /// Moves to a strictly newer generation.
    pub fn advance_generation(&mut self, generation: u64) -> (r: Result<(), RecordError>)
        ensures
            match r {
                Ok(_) => generation > old(self)@.generation && *final(self) == (MemoryRecord {
                    generation,
                    ..*old(self)
                }),
                Err(e) => generation <= old(self)@.generation && e == stale(
                    old(self)@.generation,
                    generation,
                ) && *final(self) == *old(self),
            },
    {
        if generation <= self.generation {
            return Err(
                RecordError::NonMonotonicGeneration {
                    current: self.generation,
                    proposed: generation,
                },
            );
        }
        self.generation = generation;
        Ok(())
    }
}

/// A record as a tombstone at `generation` leaves it.
pub open spec fn tombstoned(r: RecordView, generation: u64) -> RecordView {
    RecordView { generation, status: StatusView::Tombstoned { at_generation: generation }, ..r }
}

/// The error of a generation that is not newer.
pub open spec fn stale(current: u64, proposed: u64) -> RecordError {
    RecordError::NonMonotonicGeneration { current, proposed }
}

/// Why a record operation was refused.
#[derive(Debug, PartialEq, Eq)]
pub enum RecordError {
    EmptyId,
    EmptyScopeComponent(&'static str),
    EmptyProvenanceSource,
    EmptyProvenanceRecord,
    EmptyEmbeddingProvider,
    EmptyEmbeddingModel,
    EmptyFingerprintComponent(&'static str),
    ZeroEmbeddingDimension,
    SelfRelation,
    NonMonotonicGeneration { current: u64, proposed: u64 },
    UnknownMemoryId(String),
}

impl Clone for RecordError {
    fn clone(&self) -> (r: RecordError)
        ensures
            r == *self,
    {
        match self {
            RecordError::EmptyId => RecordError::EmptyId,
            RecordError::EmptyScopeComponent(c) => RecordError::EmptyScopeComponent(*c),
            RecordError::EmptyProvenanceSource => RecordError::EmptyProvenanceSource,
            RecordError::EmptyProvenanceRecord => RecordError::EmptyProvenanceRecord,
            RecordError::EmptyEmbeddingProvider => RecordError::EmptyEmbeddingProvider,
            RecordError::EmptyEmbeddingModel => RecordError::EmptyEmbeddingModel,
            RecordError::EmptyFingerprintComponent(c) => RecordError::EmptyFingerprintComponent(*c),
            RecordError::ZeroEmbeddingDimension => RecordError::ZeroEmbeddingDimension,
            RecordError::SelfRelation => RecordError::SelfRelation,
            RecordError::NonMonotonicGeneration { current, proposed } =>
                RecordError::NonMonotonicGeneration { current: *current, proposed: *proposed },
            RecordError::UnknownMemoryId(id) => RecordError::UnknownMemoryId(id.clone()),
        }
    }
}

impl RecordError {
    /// The message for people.
    pub open spec fn text(self) -> Seq<char> {
        match self {
            RecordError::EmptyId => "memory id must not be empty"@,
            RecordError::EmptyScopeComponent(component) =>
                "memory scope component must not be empty: "@ + component@,
            RecordError::EmptyProvenanceSource => "provenance source must not be empty"@,
            RecordError::EmptyProvenanceRecord =>
                "provenance source record must not be empty when present"@,
            RecordError::EmptyEmbeddingProvider => "embedding provider must not be empty"@,
            RecordError::EmptyEmbeddingModel => "embedding model must not be empty"@,
            RecordError::EmptyFingerprintComponent(component) =>
                "embedding fingerprint component must not be empty: "@ + component@,
            RecordError::ZeroEmbeddingDimension =>
                "embedding fingerprint dimension must be non-zero"@,
            RecordError::SelfRelation => "a memory record cannot relate to itself"@,
            RecordError::NonMonotonicGeneration { current, proposed } =>
                "record generation must increase monotonically: current="@ + text::decimal(
                    current as nat,
                ) + ", proposed="@ + text::decimal(proposed as nat),
            RecordError::UnknownMemoryId(id) => "no memory record with id "@
                + fileguard::debug_form(id@),
        }
    }

    /// The message for people.
    pub fn message(&self) -> (m: String)
        ensures
            m@ == self.text(),
    {
        match self {
            RecordError::EmptyId => "memory id must not be empty".to_owned(),
            RecordError::EmptyScopeComponent(component) => {
                let mut m = "memory scope component must not be empty: ".to_owned();
                m.append(component);
                m
            },
            RecordError::EmptyProvenanceSource => "provenance source must not be empty".to_owned(),
            RecordError::EmptyProvenanceRecord =>
                "provenance source record must not be empty when present".to_owned(),
            RecordError::EmptyEmbeddingProvider =>
                "embedding provider must not be empty".to_owned(),
            RecordError::EmptyEmbeddingModel => "embedding model must not be empty".to_owned(),
            RecordError::EmptyFingerprintComponent(component) => {
                let mut m = "embedding fingerprint component must not be empty: ".to_owned();
                m.append(component);
                m
            },
            RecordError::ZeroEmbeddingDimension =>
                "embedding fingerprint dimension must be non-zero".to_owned(),
            RecordError::SelfRelation => "a memory record cannot relate to itself".to_owned(),
            RecordError::NonMonotonicGeneration { current, proposed } => {
                let mut m = "record generation must increase monotonically: current=".to_owned();
                push_decimal(&mut m, *current as u128);
                m.append(", proposed=");
                push_decimal(&mut m, *proposed as u128);
                m
            },
            RecordError::UnknownMemoryId(id) => {
                let mut m = "no memory record with id ".to_owned();
                m.append(&fileguard::debug_text(id));
                m
            },
        }
    }
}

/// What recall shows and what a purge may remove, over time. A record is shown while it is active
/// and its expiry has not come; it may be removed once it is inactive and its retention has run
/// out. So nothing that is shown may be removed, what is hidden stays hidden, and what may be
/// removed stays so.
pub proof fn law_shown_then_removable(r: RecordView, now: u64, later: u64)
    requires
        now <= later,
    ensures
        r.visible(now) <==> r.status == StatusView::Active && match r.retention.expires_at_unix_ms {
            Some(t) => now < t,
            None => true,
        },
        r.purgeable(now) <==> r.status != StatusView::Active
            && match r.retention.retain_until_unix_ms {
            Some(t) => t <= now,
            None => true,
        },
        !(r.visible(now) && r.purgeable(now)),
        r.visible(later) ==> r.visible(now),
        r.purgeable(now) ==> r.purgeable(later),
{
}

/// The classes of sensitivity ascend from public to restricted, and no two are of one rank.
pub proof fn law_sensitivity_ascends(a: Sensitivity, b: Sensitivity)
    ensures
        Sensitivity::Public.level() < Sensitivity::Internal.level()
            < Sensitivity::Confidential.level() < Sensitivity::Restricted.level(),
        a.level() == b.level() ==> a == b,
{
}

/// A tombstone hides a record and changes nothing but its status and generation.
pub proof fn law_tombstone_hides(r: RecordView, generation: u64, now: u64)
    ensures
        !tombstoned(r, generation).visible(now),
        tombstoned(r, generation).generation == generation,
        tombstoned(r, generation) == (RecordView {
            generation,
            status: tombstoned(r, generation).status,
            ..r
        }),
{
}

/// A scope is made just of three labels that are not blank, and holds them; else the first blank
/// one is named.
pub proof fn law_scopes_have_labels(tenant: Seq<char>, workspace: Seq<char>, agent: Seq<char>)
    ensures
        checked_scope(tenant, workspace, agent) is Ok <==> !text::blank(tenant) && !text::blank(
            workspace,
        ) && !text::blank(agent),
        checked_scope(tenant, workspace, agent) matches Ok(s) ==> s.tenant == tenant && s.workspace
            == workspace && s.agent == agent,
        checked_scope(tenant, workspace, agent) matches Err(e) ==> e
            == RecordError::EmptyScopeComponent(
            if text::blank(tenant) {
                "tenant"
            } else if text::blank(workspace) {
                "workspace"
            } else {
                "agent"
            },
        ),
{
}

/// A fingerprint is made just of a provider and a model that are not blank and a dimension that is
/// not zero; it holds them and nothing more.
pub proof fn law_fingerprints_name_the_embedding(
    provider: Seq<char>,
    model: Seq<char>,
    dimension: usize,
)
    ensures
        checked_fingerprint(provider, model, dimension) is Ok <==> !text::blank(provider)
            && !text::blank(model) && dimension > 0,
        checked_fingerprint(provider, model, dimension) matches Ok(f) ==> f.provider == provider
            && f.model == model && f.dimension == dimension && f.revision is None && f.projection
            is None && f.quantization is None,
{
}

} // verus!
