//! The tools of the server: what each call asks for, in the order in which its arguments are
//! held to their limits, and what it answers.
use crate::hybrid;
use crate::hybrid::{QueryStrategy, RelatedHit, ShardedHybrid, Traversal};
use crate::lifecycle;
use crate::mcp;
use crate::mcp::{
    bounded_opt_u64, bounded_string, bounded_usize, ensure_ingest_capacity, non_empty,
    parse_sensitivity, parse_strategy, region_of, resolve_generation, strategy_name, Args,
    MAX_EXPANDED, MAX_HOPS, MAX_K, MAX_QUERY_BYTES, MAX_REGION_BYTES, MAX_SCOPE_BYTES,
    MAX_STRATEGY_BYTES, MAX_TEXT_BYTES, MAX_URI_BYTES, MAX_WORD_BYTES, SEP,
};
use crate::record;
use crate::record::{
    EmbeddingFingerprint, MemoryId, MemoryRecord, MemoryScope, Provenance, Sensitivity,
};
use crate::record_store;
use crate::record_store::RecordFilter;
use crate::text;
use crate::text::push_decimal;
use vstd::prelude::*;
use vstd::utf8::*;

verus! {

fn holds_separator(s: &str) -> (r: bool)
    ensures
        r == s@.contains(SEP),
{
    let v = text::chars_of(s);
    let i: usize = text::find_char(&v, 0, SEP);
    proof {
        if i < v@.len() {
            assert(s@[i as int] == SEP);
        }
    }
    i < v.len()
}

/// The region of a write: the one asked for, or that of the uri, or `default`.
pub open spec fn target_region(args: mcp::ArgsView, uri: Seq<char>) -> Result<Seq<char>, Seq<char>> {
    match mcp::text_arg(args, "region"@, MAX_REGION_BYTES as nat) {
        Err(e) => Err(e),
        Ok(r) => {
            let region = if r.len() > 0 {
                r
            } else if uri.len() > 0 {
                mcp::region_part(uri)
            } else {
                "default"@
            };
            if mcp::byte_len(region) > MAX_REGION_BYTES {
                Err(
                    "`region` exceeds the "@ + text::decimal(MAX_REGION_BYTES as nat)
                        + "-byte limit"@,
                )
            } else if region.contains(SEP) {
                Err("`region` contains the reserved unit separator"@)
            } else {
                Ok(region)
            }
        },
    }
}

fn write_region(args: &Args, uri: &str) -> (r: Result<String, String>)
    ensures
        mcp::same_text(r, target_region(args@, uri@)),
{
    let asked = bounded_string(args, "region", MAX_REGION_BYTES)?;
    let region = if !mcp::is_empty(asked.as_str()) {
        asked
    } else if !mcp::is_empty(uri) {
        region_of(uri)
    } else {
        "default".to_owned()
    };
    if region.as_str().as_bytes().len() > MAX_REGION_BYTES {
        let mut m = "`region` exceeds the ".to_owned();
        push_decimal(&mut m, MAX_REGION_BYTES as u128);
        m.append("-byte limit");
        return Err(m);
    }
    if holds_separator(region.as_str()) {
        return Err("`region` contains the reserved unit separator".to_owned());
    }
    Ok(region)
}

/// Why the memory takes no more items in a region.
pub open spec fn room_fault(mem: &ShardedHybrid, region: Seq<char>) -> Option<Seq<char>> {
    mcp::growth_fault(
        mem.held(),
        mem@.dom().len(),
        !mem@.contains_key(region),
    )
}

fn check_room(mem: &ShardedHybrid, region: &str) -> (r: Result<(), String>)
    requires
        mem.held() <= usize::MAX,
    ensures
        match r {
            Ok(_) => room_fault(mem, region@) is None,
            Err(e) => room_fault(mem, region@) == Some(e@),
        },
{
    ensure_ingest_capacity(mem.len(), mem.regions(), !mem.has_region(region))
}

/// A text to be stored.
#[derive(Debug)]
pub struct IngestPlan {
    /// The uri.
    pub uri: String,
    /// The region.
    pub region: String,
    /// The payload.
    pub payload: String,
    /// The text to be embedded.
    pub text: String,
}

/// A text to be stored, as a value.
pub struct IngestView {
    pub uri: Seq<char>,
    pub region: Seq<char>,
    pub payload: Seq<char>,
    pub text: Seq<char>,
}

impl View for IngestPlan {
    type V = IngestView;

    open spec fn view(&self) -> IngestView {
        IngestView {
            uri: self.uri@,
            region: self.region@,
            payload: self.payload@,
            text: self.text@,
        }
    }
}

/// What `ingest` asks for.
pub open spec fn ingest_request(args: mcp::ArgsView, mem: &ShardedHybrid) -> Result<
    IngestView,
    Seq<char>,
> {
    match mcp::text_arg(args, "uri"@, MAX_URI_BYTES as nat) {
        Err(e) => Err(e),
        Ok(uri) => match mcp::text_arg(args, "text"@, MAX_TEXT_BYTES as nat) {
            Err(e) => Err(e),
            Ok(content) => if content.len() == 0 {
                Err("ingest needs `text`"@)
            } else if uri.contains(SEP) {
                Err("`uri` contains the reserved unit separator"@)
            } else {
                match target_region(args, uri) {
                    Err(e) => Err(e),
                    Ok(region) => match room_fault(mem, region) {
                        Some(e) => Err(e),
                        None => Ok(
                            IngestView {
                                uri,
                                region,
                                payload: mcp::packed(uri, content),
                                text: content,
                            },
                        ),
                    },
                }
            },
        },
    }
}

/// What `ingest` asks for.
pub fn plan_ingest(args: &Args, mem: &ShardedHybrid) -> (r: Result<IngestPlan, String>)
    requires
        mem.held() <= usize::MAX,
    ensures
        match (r, ingest_request(args@, mem)) {
            (Ok(a), Ok(b)) => a@ == b,
            (Err(a), Err(b)) => a@ == b,
            _ => false,
        },
{
    let uri = bounded_string(args, "uri", MAX_URI_BYTES)?;
    let content = bounded_string(args, "text", MAX_TEXT_BYTES)?;
    if mcp::is_empty(content.as_str()) {
        return Err("ingest needs `text`".to_owned());
    }
    if holds_separator(uri.as_str()) {
        return Err("`uri` contains the reserved unit separator".to_owned());
    }
    let region = write_region(args, uri.as_str())?;
    check_room(mem, region.as_str())?;
    let payload = mcp::pack(uri.as_str(), content.as_str());
    Ok(IngestPlan { uri, region, payload, text: content })
}

/// A record to be stored.
pub struct RememberPlan {
    /// The region.
    pub region: String,
    /// The payload.
    pub payload: String,
    /// The text to be embedded.
    pub text: String,
    /// The record.
    pub record: MemoryRecord,
}

/// A record to be stored, as a value.
pub struct RememberView {
    pub region: Seq<char>,
    pub payload: Seq<char>,
    pub text: Seq<char>,
    pub record: record::RecordView,
}

impl View for RememberPlan {
    type V = RememberView;

    open spec fn view(&self) -> RememberView {
        RememberView {
            region: self.region@,
            payload: self.payload@,
            text: self.text@,
            record: self.record@,
        }
    }
}

/// The uri and the text of `remember`.
pub open spec fn remember_texts(args: mcp::ArgsView) -> Result<(Seq<char>, Seq<char>), Seq<char>> {
    match mcp::text_arg(args, "uri"@, MAX_URI_BYTES as nat) {
        Err(e) => Err(e),
        Ok(uri) => if uri.len() == 0 {
            Err("remember needs `uri`"@)
        } else if uri.contains(SEP) {
            Err("`uri` contains the reserved unit separator"@)
        } else {
            match mcp::text_arg(args, "text"@, MAX_TEXT_BYTES as nat) {
                Err(e) => Err(e),
                Ok(content) => if content.len() == 0 {
                    Err("remember needs `text`"@)
                } else {
                    Ok((uri, content))
                },
            }
        },
    }
}

/// A scope component, by default `default`.
pub open spec fn scope_part(args: mcp::ArgsView, key: Seq<char>) -> Result<Seq<char>, Seq<char>> {
    match mcp::text_arg(args, key, MAX_SCOPE_BYTES as nat) {
        Err(e) => Err(e),
        Ok(s) => Ok(mcp::or_else(s, "default"@)),
    }
}

fn read_scope_part(args: &Args, key: &str) -> (r: Result<String, String>)
    ensures
        mcp::same_text(r, scope_part(args@, key@)),
{
    let s = bounded_string(args, key, MAX_SCOPE_BYTES)?;
    Ok(mcp::first_of(s, "default"))
}

/// The scope of `remember`.
pub open spec fn remember_scope(args: mcp::ArgsView) -> Result<record::ScopeView, Seq<char>> {
    match scope_part(args, "tenant"@) {
        Err(e) => Err(e),
        Ok(tenant) => match scope_part(args, "workspace"@) {
            Err(e) => Err(e),
            Ok(workspace) => match scope_part(args, "agent"@) {
                Err(e) => Err(e),
                Ok(agent) => match record::checked_scope(tenant, workspace, agent) {
                    Err(e) => Err(e.text()),
                    Ok(s) => Ok(s),
                },
            },
        },
    }
}

fn read_scope(args: &Args) -> (r: Result<MemoryScope, String>)
    ensures
        match (r, remember_scope(args@)) {
            (Ok(a), Ok(b)) => a@ == b,
            (Err(a), Err(b)) => a@ == b,
            _ => false,
        },
{
    let tenant = read_scope_part(args, "tenant")?;
    let workspace = read_scope_part(args, "workspace")?;
    let agent = read_scope_part(args, "agent")?;
    match MemoryScope::new(tenant.as_str(), workspace.as_str(), agent.as_str()) {
        Ok(s) => Ok(s),
        Err(e) => Err(e.message()),
    }
}

/// The provenance of `remember`, and when its record was made.
pub open spec fn remember_provenance(args: mcp::ArgsView) -> Result<
    (record::ProvenanceView, Option<u64>),
    Seq<char>,
> {
    match mcp::text_arg(args, "source"@, MAX_SCOPE_BYTES as nat) {
        Err(e) => Err(e),
        Ok(s) => {
            let source = mcp::or_else(s, "octasoma-mcp"@);
            if text::blank(source) {
                Err(record::RecordError::EmptyProvenanceSource.text())
            } else {
                match mcp::text_arg(args, "source_record"@, MAX_URI_BYTES as nat) {
                    Err(e) => Err(e),
                    Ok(from) => if from.len() > 0 && text::blank(from) {
                        Err(record::RecordError::EmptyProvenanceRecord.text())
                    } else {
                        match mcp::optional_number(args, "created_at_ms"@) {
                            Err(e) => Err(e),
                            Ok(at) => Ok(
                                (
                                    record::ProvenanceView {
                                        source,
                                        source_record: mcp::filled(from),
                                        observed_at_unix_ms: at,
                                    },
                                    at,
                                ),
                            ),
                        }
                    },
                }
            }
        },
    }
}

fn read_provenance(args: &Args) -> (r: Result<(Provenance, Option<u64>), String>)
    ensures
        match (r, remember_provenance(args@)) {
            (Ok(a), Ok(b)) => (a.0@, a.1) == b,
            (Err(a), Err(b)) => a@ == b,
            _ => false,
        },
{
    let asked = bounded_string(args, "source", MAX_SCOPE_BYTES)?;
    let source = mcp::first_of(asked, "octasoma-mcp");
    let mut provenance = match Provenance::new(source.as_str()) {
        Ok(p) => p,
        Err(e) => return Err(e.message()),
    };
    let from = bounded_string(args, "source_record", MAX_URI_BYTES)?;
    if !mcp::is_empty(from.as_str()) {
        provenance = match provenance.with_source_record(from.as_str()) {
            Ok(p) => p,
            Err(e) => return Err(e.message()),
        };
    }
    let at = bounded_opt_u64(args, "created_at_ms")?;
    if let Some(t) = at {
        provenance = provenance.with_observed_at(t);
    }
    Ok((provenance, at))
}

/// The generation of a stored record.
pub open spec fn generation_in(
    layer: Map<Seq<char>, record::RecordView>,
    uri: Seq<char>,
) -> Option<u64> {
    if layer.contains_key(uri) {
        Some(layer[uri].generation)
    } else {
        None
    }
}

pub(crate) fn find_generation(mem: &ShardedHybrid, uri: &str) -> (r: Option<u64>)
    ensures
        r == generation_in(mem.layer(), uri@),
{
    match mem.record(uri) {
        Some(r) => Some(r.generation),
        None => None,
    }
}

/// The classification of `remember`.
pub open spec fn remember_sensitivity(args: mcp::ArgsView) -> Result<Sensitivity, Seq<char>> {
    match mcp::text_arg(args, "sensitivity"@, MAX_WORD_BYTES as nat) {
        Err(e) => Err(e),
        Ok(s) => mcp::sensitivity_of(s),
    }
}

/// The record of `remember`.
#[verifier::opaque]
pub open spec fn remember_record(
    args: mcp::ArgsView,
    uri: Seq<char>,
    stored: Option<u64>,
    label: Seq<char>,
    dim: usize,
) -> Result<record::RecordView, Seq<char>> {
    match remember_scope(args) {
        Err(e) => Err(e),
        Ok(scope) => match remember_sensitivity(args) {
            Err(e) => Err(e),
            Ok(sensitivity) => match remember_provenance(args) {
                Err(e) => Err(e),
                Ok((provenance, at)) => match record::checked_fingerprint(
                    "octasoma-mcp"@,
                    label,
                    dim,
                ) {
                    Err(e) => Err(e.text()),
                    Ok(embedding) => match mcp::next_generation(stored, args) {
                        Err(e) => Err(e),
                        Ok(generation) => if text::blank(uri) {
                            Err(record::RecordError::EmptyId.text())
                        } else {
                            match mcp::optional_number(args, "expires_at_ms"@) {
                                Err(e) => Err(e),
                                Ok(expires) => match mcp::optional_number(
                                    args,
                                    "retain_until_ms"@,
                                ) {
                                    Err(e) => Err(e),
                                    Ok(retain) => Ok(
                                        record::RecordView {
                                            id: uri,
                                            payload: Seq::empty(),
                                            scope,
                                            provenance: seq![provenance],
                                            created_at_unix_ms: at,
                                            generation,
                                            causal_region: None,
                                            sensitivity,
                                            status: record::StatusView::Active,
                                            retention: record::Retention {
                                                expires_at_unix_ms: expires,
                                                retain_until_unix_ms: retain,
                                            },
                                            embedding,
                                            relations: Seq::empty(),
                                        },
                                    ),
                                },
                            }
                        },
                    },
                },
            },
        },
    }
}

fn make_record(args: &Args, uri: &str, stored: Option<u64>, label: &str, dim: usize) -> (r: Result<
    MemoryRecord,
    String,
>)
    ensures
        match (r, remember_record(args@, uri@, stored, label@, dim)) {
            (Ok(a), Ok(b)) => a@ == b,
            (Err(a), Err(b)) => a@ == b,
            _ => false,
        },
{
    proof {
        reveal(remember_record);
    }
    let scope = read_scope(args)?;
    let word = bounded_string(args, "sensitivity", MAX_WORD_BYTES)?;
    let sensitivity = parse_sensitivity(word.as_str())?;
    let (provenance, at) = read_provenance(args)?;
    let embedding = match EmbeddingFingerprint::new("octasoma-mcp", label, dim) {
        Ok(f) => f,
        Err(e) => return Err(e.message()),
    };
    let generation: u64 = resolve_generation(stored, args)?;
    let id = match MemoryId::new(uri) {
        Ok(id) => id,
        Err(e) => return Err(e.message()),
    };
    let nothing: Vec<u8> = Vec::new();
    let mut made = MemoryRecord::new(id, nothing, scope, provenance, embedding, generation);
    made.sensitivity = sensitivity;
    made.retention.expires_at_unix_ms = bounded_opt_u64(args, "expires_at_ms")?;
    made.retention.retain_until_unix_ms = bounded_opt_u64(args, "retain_until_ms")?;
    made.created_at_unix_ms = at;
    proof {
        assert(nothing@ =~= Seq::<u8>::empty());
    }
    Ok(made)
}

/// What `remember` asks for.
pub open spec fn remember_request(
    args: mcp::ArgsView,
    mem: &ShardedHybrid,
    label: Seq<char>,
    dim: usize,
) -> Result<RememberView, Seq<char>> {
    match remember_texts(args) {
        Err(e) => Err(e),
        Ok((uri, content)) => match target_region(args, uri) {
            Err(e) => Err(e),
            Ok(region) => match room_fault(mem, region) {
                Some(e) => Err(e),
                None => match remember_record(
                    args,
                    uri,
                    generation_in(mem.layer(), uri),
                    label,
                    dim,
                ) {
                    Err(e) => Err(e),
                    Ok(made) => Ok(
                        RememberView {
                            region,
                            payload: mcp::packed(uri, content),
                            text: content,
                            record: made,
                        },
                    ),
                },
            },
        },
    }
}

/// What `remember` asks for: the record, and the payload under which it is recalled.
pub fn plan_remember(args: &Args, mem: &ShardedHybrid, label: &str, dim: usize) -> (r: Result<
    RememberPlan,
    String,
>)
    requires
        mem.held() <= usize::MAX,
    ensures
        match (r, remember_request(args@, mem, label@, dim)) {
            (Ok(a), Ok(b)) => a@ == b,
            (Err(a), Err(b)) => a@ == b,
            _ => false,
        },
{
    let uri = bounded_string(args, "uri", MAX_URI_BYTES)?;
    if mcp::is_empty(uri.as_str()) {
        return Err("remember needs `uri`".to_owned());
    }
    if holds_separator(uri.as_str()) {
        return Err("`uri` contains the reserved unit separator".to_owned());
    }
    let content = bounded_string(args, "text", MAX_TEXT_BYTES)?;
    if mcp::is_empty(content.as_str()) {
        return Err("remember needs `text`".to_owned());
    }
    let region = write_region(args, uri.as_str())?;
    check_room(mem, region.as_str())?;
    let stored = find_generation(mem, uri.as_str());
    let made = make_record(args, uri.as_str(), stored, label, dim)?;
    let payload = mcp::pack(uri.as_str(), content.as_str());
    Ok(RememberPlan { region, payload, text: content, record: made })
}

/// A planned record is not refused as stale by the memory it was planned for, and its
/// payload leads back to it.
pub proof fn law_remember_is_accepted(
    args: mcp::ArgsView,
    mem: &ShardedHybrid,
    label: Seq<char>,
    dim: usize,
)
    requires
        remember_request(args, mem, label, dim) is Ok,
    ensures
        ({
            let plan = remember_request(args, mem, label, dim)->Ok_0;
            &&& record_store::put_outcome(mem.layer(), plan.record) is Ok
            &&& mcp::key_of(plan.payload) == plan.record.id
            &&& mcp::parted(plan.payload) == (plan.record.id, plan.text)
        }),
{
    reveal(remember_record);
    let (uri, content) = remember_texts(args)->Ok_0;
    mcp::law_payload_round_trip(uri, content);
    mcp::law_generations_advance(generation_in(mem.layer(), uri), args);
}

/// How a recall is answered.
pub enum RecallRoute {
    /// From all regions.
    Global,
    /// From one region, ranked by a strategy.
    Scoped(QueryStrategy),
    /// From one region, what a filter admits.
    Filtered(RecordFilter),
    /// From one region, what a filter admits, and what relations lead to.
    Related(RecordFilter, Traversal),
}

/// How a recall is answered, as a value.
pub enum RouteView {
    Global,
    Scoped(QueryStrategy),
    Filtered(record_store::FilterView),
    Related(record_store::FilterView, nat, nat),
}

impl View for RecallRoute {
    type V = RouteView;

    open spec fn view(&self) -> RouteView {
        match self {
            RecallRoute::Global => RouteView::Global,
            RecallRoute::Scoped(s) => RouteView::Scoped(*s),
            RecallRoute::Filtered(f) => RouteView::Filtered(f@),
            RecallRoute::Related(f, t) => RouteView::Related(
                f@,
                t.hops as nat,
                t.max_expanded as nat,
            ),
        }
    }
}

/// A recall.
pub struct RecallPlan {
    /// The query.
    pub text: String,
    /// The hits wanted.
    pub k: usize,
    /// The region, empty for all.
    pub region: String,
    /// How it is answered.
    pub route: RecallRoute,
    /// The name of the way.
    pub label: &'static str,
    /// The time for which records are held to be visible.
    pub visible_as_of: Option<u64>,
}

/// A recall as a value.
pub struct RecallView {
    pub text: Seq<char>,
    pub k: nat,
    pub region: Seq<char>,
    pub route: RouteView,
    pub label: Seq<char>,
    pub visible_as_of: Option<u64>,
}

impl View for RecallPlan {
    type V = RecallView;

    open spec fn view(&self) -> RecallView {
        RecallView {
            text: self.text@,
            k: self.k as nat,
            region: self.region@,
            route: self.route@,
            label: self.label@,
            visible_as_of: self.visible_as_of,
        }
    }
}

/// The query of a recall: `text`, or `anchor` where that is empty.
pub open spec fn recall_text(args: mcp::ArgsView) -> Result<Seq<char>, Seq<char>> {
    match mcp::text_arg(args, "text"@, MAX_QUERY_BYTES as nat) {
        Err(e) => Err(e),
        Ok(t) => if t.len() > 0 {
            Ok(t)
        } else {
            match mcp::text_arg(args, "anchor"@, MAX_QUERY_BYTES as nat) {
                Err(e) => Err(e),
                Ok(a) => if a.len() == 0 {
                    Err("recall needs `text`"@)
                } else {
                    Ok(a)
                },
            }
        },
    }
}

fn read_query(args: &Args) -> (r: Result<String, String>)
    ensures
        mcp::same_text(r, recall_text(args@)),
{
    let t = bounded_string(args, "text", MAX_QUERY_BYTES)?;
    if !mcp::is_empty(t.as_str()) {
        return Ok(t);
    }
    let a = bounded_string(args, "anchor", MAX_QUERY_BYTES)?;
    if mcp::is_empty(a.as_str()) {
        return Err("recall needs `text`".to_owned());
    }
    Ok(a)
}

/// The hits wanted: `k`, or `budget` where there is no `k`, by default 5.
pub open spec fn recall_size(args: mcp::ArgsView) -> Result<nat, Seq<char>> {
    if mcp::lookup(args, "k"@) is Some {
        mcp::number_arg(args, "k"@, 5, 1, MAX_K as nat)
    } else {
        mcp::number_arg(args, "budget"@, 5, 1, MAX_K as nat)
    }
}

fn read_size(args: &Args) -> (r: Result<usize, String>)
    ensures
        match (r, recall_size(args@)) {
            (Ok(a), Ok(b)) => a == b,
            (Err(a), Err(b)) => a@ == b,
            _ => false,
        },
{
    if args.has("k") {
        bounded_usize(args, "k", 5, 1, MAX_K)
    } else {
        bounded_usize(args, "budget", 5, 1, MAX_K)
    }
}

/// The wishes of a filtered call: a tenant, a workspace, an agent and a clearance, each of
/// which may be empty.
pub struct Wishes {
    /// The tenant.
    pub tenant: String,
    /// The workspace.
    pub workspace: String,
    /// The agent.
    pub agent: String,
    /// The clearance.
    pub clearance: String,
}

/// The wishes as values.
pub struct WishView {
    pub tenant: Seq<char>,
    pub workspace: Seq<char>,
    pub agent: Seq<char>,
    pub clearance: Seq<char>,
}

impl View for Wishes {
    type V = WishView;

    open spec fn view(&self) -> WishView {
        WishView {
            tenant: self.tenant@,
            workspace: self.workspace@,
            agent: self.agent@,
            clearance: self.clearance@,
        }
    }
}

/// The wishes of a call.
pub open spec fn wishes_of(args: mcp::ArgsView) -> Result<WishView, Seq<char>> {
    match mcp::text_arg(args, "tenant"@, MAX_SCOPE_BYTES as nat) {
        Err(e) => Err(e),
        Ok(tenant) => match mcp::text_arg(args, "workspace"@, MAX_SCOPE_BYTES as nat) {
            Err(e) => Err(e),
            Ok(workspace) => match mcp::text_arg(args, "agent"@, MAX_SCOPE_BYTES as nat) {
                Err(e) => Err(e),
                Ok(agent) => match mcp::text_arg(args, "clearance"@, MAX_WORD_BYTES as nat) {
                    Err(e) => Err(e),
                    Ok(clearance) => Ok(WishView { tenant, workspace, agent, clearance }),
                },
            },
        },
    }
}

pub(crate) fn read_wishes(args: &Args) -> (r: Result<Wishes, String>)
    ensures
        match (r, wishes_of(args@)) {
            (Ok(a), Ok(b)) => a@ == b,
            (Err(a), Err(b)) => a@ == b,
            _ => false,
        },
{
    let tenant = bounded_string(args, "tenant", MAX_SCOPE_BYTES)?;
    let workspace = bounded_string(args, "workspace", MAX_SCOPE_BYTES)?;
    let agent = bounded_string(args, "agent", MAX_SCOPE_BYTES)?;
    let clearance = bounded_string(args, "clearance", MAX_WORD_BYTES)?;
    Ok(Wishes { tenant, workspace, agent, clearance })
}

/// The filter of some wishes: an empty scope component is no wish, an empty clearance sees
/// all, and without a time the lifecycle hides nothing.
pub open spec fn filter_of(now: Option<u64>, w: WishView) -> Result<
    record_store::FilterView,
    Seq<char>,
> {
    let clearance = if w.clearance.len() == 0 {
        Ok(Sensitivity::Restricted)
    } else {
        mcp::sensitivity_of(w.clearance)
    };
    match clearance {
        Err(e) => Err(e),
        Ok(clearance) => Ok(
            record_store::FilterView {
                now_unix_ms: match now {
                    Some(t) => t,
                    None => 0,
                },
                lifecycle: now is Some,
                tenant: mcp::filled(w.tenant),
                workspace: mcp::filled(w.workspace),
                agent: mcp::filled(w.agent),
                clearance,
            },
        ),
    }
}

pub(crate) fn make_filter(now: Option<u64>, w: Wishes) -> (r: Result<RecordFilter, String>)
    ensures
        match (r, filter_of(now, w@)) {
            (Ok(a), Ok(b)) => a@ == b,
            (Err(a), Err(b)) => a@ == b,
            _ => false,
        },
{
    let clearance = if mcp::is_empty(w.clearance.as_str()) {
        Sensitivity::Restricted
    } else {
        parse_sensitivity(w.clearance.as_str())?
    };
    Ok(
        RecordFilter {
            now_unix_ms: match now {
                Some(t) => t,
                None => 0,
            },
            lifecycle: now.is_some(),
            tenant: non_empty(w.tenant),
            workspace: non_empty(w.workspace),
            agent: non_empty(w.agent),
            clearance,
        },
    )
}

/// Some wish is there.
pub open spec fn wishful(w: WishView) -> bool {
    w.tenant.len() > 0 || w.workspace.len() > 0 || w.agent.len() > 0 || w.clearance.len() > 0
}

/// The name of a recall's way.
pub open spec fn recall_label(region: Seq<char>, hops: nat, strategy: QueryStrategy) -> Seq<char> {
    if region.len() == 0 {
        "precise-global"@
    } else if hops > 0 {
        "precise-related"@
    } else {
        mcp::strategy_word(strategy)
    }
}

/// How a recall is answered. A time, a wish or a hop asks for a filter; the lifecycle is part
/// of it where there is a time.
pub open spec fn route_of(
    region: Seq<char>,
    strategy: QueryStrategy,
    now: Option<u64>,
    w: WishView,
    hops: nat,
    max: nat,
) -> Result<RouteView, Seq<char>> {
    if now is Some || wishful(w) || hops > 0 {
        if region.len() == 0 {
            Err("`region` is required when `now_ms`, scoping or `hops` is set"@)
        } else {
            match filter_of(now, w) {
                Err(e) => Err(e),
                Ok(f) => if hops > 0 {
                    Ok(RouteView::Related(f, hops, max))
                } else {
                    Ok(RouteView::Filtered(f))
                },
            }
        }
    } else if region.len() == 0 {
        Ok(RouteView::Global)
    } else {
        Ok(RouteView::Scoped(strategy))
    }
}

fn choose_route(
    region: &str,
    strategy: QueryStrategy,
    now: Option<u64>,
    w: Wishes,
    hops: usize,
    max: usize,
) -> (r: Result<RecallRoute, String>)
    ensures
        match (r, route_of(region@, strategy, now, w@, hops as nat, max as nat)) {
            (Ok(a), Ok(b)) => a@ == b,
            (Err(a), Err(b)) => a@ == b,
            _ => false,
        },
{
    let wishful = !mcp::is_empty(w.tenant.as_str()) || !mcp::is_empty(w.workspace.as_str())
        || !mcp::is_empty(w.agent.as_str()) || !mcp::is_empty(w.clearance.as_str());
    let anywhere = mcp::is_empty(region);
    if now.is_some() || wishful || hops > 0 {
        if anywhere {
            return Err("`region` is required when `now_ms`, scoping or `hops` is set".to_owned());
        }
        let filter = make_filter(now, w)?;
        if hops > 0 {
            Ok(RecallRoute::Related(filter, Traversal { hops, max_expanded: max }))
        } else {
            Ok(RecallRoute::Filtered(filter))
        }
    } else if anywhere {
        Ok(RecallRoute::Global)
    } else {
        Ok(RecallRoute::Scoped(strategy))
    }
}

/// What `recall` asks for.
#[verifier::opaque]
pub open spec fn recall_request(args: mcp::ArgsView) -> Result<RecallView, Seq<char>> {
    match recall_text(args) {
        Err(e) => Err(e),
        Ok(query) => match recall_size(args) {
            Err(e) => Err(e),
            Ok(k) => match mcp::text_arg(args, "region"@, MAX_REGION_BYTES as nat) {
                Err(e) => Err(e),
                Ok(region) => match mcp::text_arg(args, "strategy"@, MAX_STRATEGY_BYTES as nat) {
                    Err(e) => Err(e),
                    Ok(word) => match mcp::optional_number(args, "now_ms"@) {
                        Err(e) => Err(e),
                        Ok(now) => match wishes_of(args) {
                            Err(e) => Err(e),
                            Ok(w) => match mcp::number_arg(args, "hops"@, 0, 0, MAX_HOPS as nat) {
                                Err(e) => Err(e),
                                Ok(hops) => match mcp::number_arg(
                                    args,
                                    "max_expanded"@,
                                    8,
                                    1,
                                    MAX_EXPANDED as nat,
                                ) {
                                    Err(e) => Err(e),
                                    Ok(max) => match route_of(
                                        region,
                                        mcp::strategy_of(word),
                                        now,
                                        w,
                                        hops,
                                        max,
                                    ) {
                                        Err(e) => Err(e),
                                        Ok(route) => Ok(
                                            RecallView {
                                                text: query,
                                                k,
                                                region,
                                                route,
                                                label: recall_label(
                                                    region,
                                                    hops,
                                                    mcp::strategy_of(word),
                                                ),
                                                visible_as_of: now,
                                            },
                                        ),
                                    },
                                },
                            },
                        },
                    },
                },
            },
        },
    }
}

/// What `recall` asks for.
pub fn plan_recall(args: &Args) -> (r: Result<RecallPlan, String>)
    ensures
        match (r, recall_request(args@)) {
            (Ok(a), Ok(b)) => a@ == b,
            (Err(a), Err(b)) => a@ == b,
            _ => false,
        },
{
    proof {
        reveal(recall_request);
    }
    let query = read_query(args)?;
    let k: usize = read_size(args)?;
    let region = bounded_string(args, "region", MAX_REGION_BYTES)?;
    let word = bounded_string(args, "strategy", MAX_STRATEGY_BYTES)?;
    let strategy = parse_strategy(word.as_str());
    let now = bounded_opt_u64(args, "now_ms")?;
    let wishes = read_wishes(args)?;
    let hops: usize = bounded_usize(args, "hops", 0, 0, MAX_HOPS)?;
    let max: usize = bounded_usize(args, "max_expanded", 8, 1, MAX_EXPANDED)?;
    let route = choose_route(region.as_str(), strategy, now, wishes, hops, max)?;
    let label = if mcp::is_empty(region.as_str()) {
        "precise-global"
    } else if hops > 0 {
        "precise-related"
    } else {
        strategy_name(strategy)
    };
    Ok(RecallPlan { text: query, k, region, route, label, visible_as_of: now })
}

/// An item of an answer: a row, taken apart.
#[derive(Debug)]
pub struct WindowItem {
    /// The uri.
    pub uri: String,
    /// The bit pattern of the score.
    pub score: u32,
    /// The kind of the uri.
    pub kind: String,
    /// The content.
    pub content: String,
    /// For a row that a relation led to: the record it led from, the relation and the level.
    pub via: Option<(String, &'static str, usize)>,
}

/// An item of an answer as a value.
pub struct ItemView {
    pub uri: Seq<char>,
    pub score: u32,
    pub kind: Seq<char>,
    pub content: Seq<char>,
    pub via: Option<(Seq<char>, Seq<char>, nat)>,
}

impl View for WindowItem {
    type V = ItemView;

    open spec fn view(&self) -> ItemView {
        ItemView {
            uri: self.uri@,
            score: self.score,
            kind: self.kind@,
            content: self.content@,
            via: match self.via {
                Some(v) => Some((v.0@, v.1@, v.2 as nat)),
                None => None,
            },
        }
    }
}

/// The views of items.
pub open spec fn item_views(s: Seq<WindowItem>) -> Seq<ItemView> {
    s.map_values(|i: WindowItem| i@)
}

/// A row as an item.
pub open spec fn item_of(r: hybrid::RowView) -> ItemView {
    let (uri, content) = mcp::parted(r.payload);
    ItemView {
        uri,
        score: r.score,
        kind: mcp::kind_part(uri),
        content,
        via: match (r.via_from, r.via_kind) {
            (Some(from), Some(kind)) => if r.hop > 0 {
                Some((from, mcp::relation_word(kind), r.hop))
            } else {
                None
            },
            _ => None,
        },
    }
}

/// The estimated tokens of the first `n` rows: a fourth of the content's bytes, and one.
pub open spec fn tokens_of(rows: Seq<hybrid::RowView>, n: int) -> nat
    decreases n,
{
    if n <= 0 {
        0
    } else {
        tokens_of(rows, n - 1) + mcp::byte_len(mcp::parted(rows[n - 1].payload).1) / 4 + 1
    }
}

fn make_item(r: &RelatedHit) -> (i: WindowItem)
    ensures
        i@ == item_of(r@),
{
    let (uri, content) = mcp::split_payload(r.payload.as_str());
    let kind = mcp::kind_of(uri.as_str());
    let via = match (&r.via_from, r.via_kind) {
        (Some(from), Some(k)) => if r.hop > 0 {
            Some((from.as_str().to_owned(), mcp::relation_name(k), r.hop))
        } else {
            None
        },
        _ => None,
    };
    WindowItem { uri, score: r.score, kind, content, via }
}

/// The items and the estimated tokens of an answer. A count of tokens that does not fit is
/// the largest number.
pub fn recall_window(rows: &Vec<RelatedHit>) -> (r: (Vec<WindowItem>, usize))
    ensures
        item_views(r.0@) == hybrid::row_views(rows@).map_values(|x: hybrid::RowView| item_of(x)),
        r.1 == lifecycle::cut(tokens_of(hybrid::row_views(rows@), rows@.len() as int)),
{
    let mut items: Vec<WindowItem> = Vec::new();
    let mut tokens: usize = 0;
    let ghost views = hybrid::row_views(rows@);
    let mut i: usize = 0;
    while i < rows.len()
        invariant
            i <= rows@.len(),
            views == hybrid::row_views(rows@),
            items@.len() == i,
            forall|j: int| 0 <= j < i ==> (#[trigger] items@[j])@ == item_of(views[j]),
            tokens == lifecycle::cut(tokens_of(views, i as int)),
        decreases rows@.len() - i,
    {
        proof {
            assert(views[i as int] == rows@[i as int]@);
        }
        let item = make_item(&rows[i]);
        let more: usize = item.content.as_str().as_bytes().len() / 4 + 1;
        tokens = match tokens.checked_add(more) {
            Some(t) => t,
            None => usize::MAX,
        };
        items.push(item);
        i += 1;
    }
    proof {
        assert(item_views(items@) =~= views.map_values(|x: hybrid::RowView| item_of(x)));
    }
    (items, tokens)
}

/// The filter of a route.
pub open spec fn filter_in(route: RouteView) -> Option<record_store::FilterView> {
    match route {
        RouteView::Global => None,
        RouteView::Scoped(_) => None,
        RouteView::Filtered(f) => Some(f),
        RouteView::Related(f, _, _) => Some(f),
    }
}

/// A wish for a label is the text that asks for it, where there is one.
pub open spec fn wish_given(args: mcp::ArgsView, key: Seq<char>) -> Option<Seq<char>> {
    if mcp::text_given(args, key).len() > 0 {
        Some(mcp::text_given(args, key))
    } else {
        None
    }
}

/// A recall does what its arguments ask: the query, the region and the time are those given; a
/// filter is laid on just where a time, a wish or a hop is given, and it holds each of them; hops
/// are followed as many as asked for; and no recall of all regions is filtered.
#[verifier::rlimit(40)]
pub proof fn law_recall_does_what_is_asked(args: mcp::ArgsView)
    requires
        recall_request(args) is Ok,
    ensures
        ({
            let r = recall_request(args)->Ok_0;
            let now = mcp::number_given(args, "now_ms"@);
            let hops = match mcp::number_given(args, "hops"@) {
                Some(h) => h as nat,
                None => 0,
            };
            let text = mcp::text_given(args, "text"@);
            let region = mcp::text_given(args, "region"@);
            let word = mcp::text_given(args, "clearance"@);
            let size = if mcp::lookup(args, "k"@) is Some {
                mcp::number_given(args, "k"@)
            } else {
                mcp::number_given(args, "budget"@)
            };
            &&& r.text == (if text.len() > 0 {
                text
            } else {
                mcp::text_given(args, "anchor"@)
            })
            &&& r.text.len() > 0
            &&& r.k == (match size {
                Some(k) => k as nat,
                None => 5,
            })
            &&& 1 <= r.k <= 32
            &&& r.region == region
            &&& r.visible_as_of == now
            &&& filter_in(r.route) is Some <==> now is Some || hops > 0 || wish_given(
                args,
                "tenant"@,
            ) is Some || wish_given(args, "workspace"@) is Some || wish_given(args, "agent"@)
                is Some || word.len() > 0
            &&& filter_in(r.route) matches Some(f) ==> {
                &&& region.len() > 0
                &&& f.lifecycle == (now is Some)
                &&& now is Some ==> f.now_unix_ms == now->0
                &&& f.tenant == wish_given(args, "tenant"@)
                &&& f.workspace == wish_given(args, "workspace"@)
                &&& f.agent == wish_given(args, "agent"@)
                &&& word.len() > 0 ==> mcp::sensitivity_of(word) == Ok::<_, Seq<char>>(f.clearance)
                &&& word.len() == 0 ==> f.clearance == Sensitivity::Restricted
            }
            &&& r.route is Related <==> hops > 0
            &&& r.route matches RouteView::Related(_, h, m) ==> h == hops && m == (
            match mcp::number_given(args, "max_expanded"@) {
                Some(m) => m as nat,
                None => 8,
            })
            &&& r.route matches RouteView::Scoped(s) ==> region.len() > 0 && s == mcp::strategy_of(
                mcp::text_given(args, "strategy"@),
            )
            &&& r.route is Global ==> region.len() == 0
        }),
{
    reveal(recall_request);
    mcp::law_number_arguments(args, "k"@, 5, 1, 32);
    mcp::law_number_arguments(args, "budget"@, 5, 1, 32);
    mcp::law_number_arguments(args, "hops"@, 0, 0, 2);
    mcp::law_number_arguments(args, "max_expanded"@, 8, 1, 32);
}

/// What is ingested is what was given: the text, under the uri, in the region that was asked for,
/// or that of the uri, or the default one; and its payload gives the uri and the text back.
pub proof fn law_ingest_takes_what_is_given(args: mcp::ArgsView, mem: &ShardedHybrid)
    requires
        ingest_request(args, mem) is Ok,
    ensures
        ({
            let r = ingest_request(args, mem)->Ok_0;
            let uri = mcp::text_given(args, "uri"@);
            let region = mcp::text_given(args, "region"@);
            &&& r.text == mcp::text_given(args, "text"@)
            &&& r.text.len() > 0
            &&& r.uri == uri
            &&& mcp::parted(r.payload) == (uri, r.text)
            &&& r.region == (if region.len() > 0 {
                region
            } else if uri.len() > 0 {
                mcp::region_part(uri)
            } else {
                "default"@
            })
            &&& !r.region.contains(SEP)
        }),
{
    mcp::law_payload_round_trip(mcp::text_given(args, "uri"@), mcp::text_given(args, "text"@));
}

/// A component of a scope, as it is given or the default one.
pub open spec fn part_given(args: mcp::ArgsView, key: Seq<char>) -> Seq<char> {
    if mcp::text_given(args, key).len() > 0 {
        mcp::text_given(args, key)
    } else {
        "default"@
    }
}

/// What is remembered is what was given: the record is of the uri, active, with the scope, the
/// class, the source, the times and the generation that were asked for, and its fingerprint names
/// the embedder; it begins without relations.
#[verifier::rlimit(40)]
pub proof fn law_remember_takes_what_is_given(
    args: mcp::ArgsView,
    mem: &ShardedHybrid,
    label: Seq<char>,
    dim: usize,
)
    requires
        remember_request(args, mem, label, dim) is Ok,
    ensures
        ({
            let plan = remember_request(args, mem, label, dim)->Ok_0;
            let r = plan.record;
            let uri = mcp::text_given(args, "uri"@);
            let region = mcp::text_given(args, "region"@);
            let source = mcp::text_given(args, "source"@);
            let from = mcp::text_given(args, "source_record"@);
            &&& uri.len() > 0
            &&& plan.text == mcp::text_given(args, "text"@)
            &&& plan.text.len() > 0
            &&& plan.region == (if region.len() > 0 {
                region
            } else {
                mcp::region_part(uri)
            })
            &&& r.id == uri
            &&& r.scope.tenant == part_given(args, "tenant"@)
            &&& r.scope.workspace == part_given(args, "workspace"@)
            &&& r.scope.agent == part_given(args, "agent"@)
            &&& mcp::sensitivity_of(mcp::text_given(args, "sensitivity"@)) == Ok::<_, Seq<char>>(
                r.sensitivity,
            )
            &&& r.provenance.len() == 1
            &&& r.provenance[0].source == (if source.len() > 0 {
                source
            } else {
                "octasoma-mcp"@
            })
            &&& r.provenance[0].source_record == (if from.len() > 0 {
                Some(from)
            } else {
                None
            })
            &&& r.provenance[0].observed_at_unix_ms == mcp::number_given(args, "created_at_ms"@)
            &&& r.created_at_unix_ms == mcp::number_given(args, "created_at_ms"@)
            &&& r.status == record::StatusView::Active
            &&& r.retention.expires_at_unix_ms == mcp::number_given(args, "expires_at_ms"@)
            &&& r.retention.retain_until_unix_ms == mcp::number_given(args, "retain_until_ms"@)
            &&& r.embedding.model == label
            &&& r.embedding.dimension == dim
            &&& r.relations.len() == 0
            &&& mcp::number_given(args, "generation"@) matches Some(g) ==> r.generation == g
            &&& mcp::number_given(args, "generation"@) is None ==> r.generation == 1 + (
            if mem.layer().contains_key(uri) {
                mem.layer()[uri].generation as int
            } else {
                0
            })
        }),
{
    reveal(remember_record);
}

/// The estimate of tokens goes by rows: that of two lists in a row is the sum of theirs, and one
/// row counts a fourth of its content's bytes, and one more.
pub proof fn law_tokens_add_up(a: Seq<hybrid::RowView>, b: Seq<hybrid::RowView>, r: hybrid::RowView)
    ensures
        tokens_of(a + b, (a + b).len() as int) == tokens_of(a, a.len() as int) + tokens_of(
            b,
            b.len() as int,
        ),
        tokens_of(seq![r], 1) == encode_utf8(mcp::parted(r.payload).1).len() / 4 + 1,
        tokens_of(Seq::empty(), 0) == 0,
{
    lemma_tokens_first(a, b, a.len() as int);
    lemma_tokens_second(a, b, b.len() as int);
    assert(tokens_of(seq![r], 0) == 0);
}

proof fn lemma_tokens_first(a: Seq<hybrid::RowView>, b: Seq<hybrid::RowView>, n: int)
    requires
        n <= a.len(),
    ensures
        tokens_of(a + b, n) == tokens_of(a, n),
    decreases n,
{
    if n > 0 {
        lemma_tokens_first(a, b, n - 1);
        assert((a + b)[n - 1] == a[n - 1]);
    }
}

proof fn lemma_tokens_second(a: Seq<hybrid::RowView>, b: Seq<hybrid::RowView>, n: int)
    requires
        0 <= n <= b.len(),
    ensures
        tokens_of(a + b, a.len() + n) == tokens_of(a + b, a.len() as int) + tokens_of(b, n),
    decreases n,
{
    if n > 0 {
        lemma_tokens_second(a, b, n - 1);
        assert((a + b)[a.len() + n - 1] == b[n - 1]);
    }
}

/// An item shows what was packed: the uri, its kind and the content of the row, its score, and,
/// of a row that a relation led to, where from, by which relation and how far.
pub proof fn law_items_show_their_rows(r: hybrid::RowView, uri: Seq<char>, content: Seq<char>)
    requires
        !uri.contains(SEP),
        r.payload == mcp::packed(uri, content),
    ensures
        item_of(r).uri == uri,
        item_of(r).content == content,
        item_of(r).kind == mcp::kind_part(uri),
        item_of(r).score == r.score,
        r.hop == 0 ==> item_of(r).via is None,
        r.hop > 0 && r.via_from is Some && r.via_kind is Some ==> item_of(r).via == Some(
            (r.via_from->0, mcp::relation_word(r.via_kind->0), r.hop),
        ),
{
    mcp::law_payload_round_trip(uri, content);
}

/// A recall is named by the way that it takes: of all regions, along relations, or by the strategy
/// that was asked for.
pub proof fn law_recall_names_its_way(region: Seq<char>, hops: nat, strategy: QueryStrategy)
    ensures
        region.len() == 0 ==> recall_label(region, hops, strategy) == "precise-global"@,
        region.len() > 0 && hops > 0 ==> recall_label(region, hops, strategy)
            == "precise-related"@,
        region.len() > 0 && hops == 0 ==> recall_label(region, hops, strategy) == (
        match strategy {
            QueryStrategy::FastSpatial => "fast-spatial"@,
            QueryStrategy::PrecisionSketch => "precise"@,
            QueryStrategy::HybridCascade => "hybrid-cascade"@,
        }),
{
}

/// A recall is accepted just where every argument is in order, there is a query, and, where a time,
/// a wish or a hop asks for a filter, there is a region and the clearance is known.
#[verifier::rlimit(60)]
pub proof fn law_recall_is_accepted(args: mcp::ArgsView)
    ensures
        recall_request(args) is Ok <==> {
            let word = mcp::text_given(args, "clearance"@);
            let filtered = mcp::number_given(args, "now_ms"@) is Some || (mcp::number_given(
                args,
                "hops"@,
            ) matches Some(h) && h > 0) || mcp::text_given(args, "tenant"@).len() > 0
                || mcp::text_given(args, "workspace"@).len() > 0 || mcp::text_given(
                args,
                "agent"@,
            ).len() > 0 || word.len() > 0;
            &&& mcp::text_ok(args, "text"@, 32_768)
            &&& mcp::text_given(args, "text"@).len() > 0 || (mcp::text_ok(args, "anchor"@, 32_768)
                && mcp::text_given(args, "anchor"@).len() > 0)
            &&& mcp::count_ok(args, "k"@, 1, 32)
            &&& mcp::lookup(args, "k"@) is None ==> mcp::count_ok(args, "budget"@, 1, 32)
            &&& mcp::text_ok(args, "region"@, 1_024)
            &&& mcp::text_ok(args, "strategy"@, 32)
            &&& mcp::moment_ok(args, "now_ms"@)
            &&& mcp::text_ok(args, "tenant"@, 256)
            &&& mcp::text_ok(args, "workspace"@, 256)
            &&& mcp::text_ok(args, "agent"@, 256)
            &&& mcp::text_ok(args, "clearance"@, 32)
            &&& mcp::count_ok(args, "hops"@, 0, 2)
            &&& mcp::count_ok(args, "max_expanded"@, 1, 32)
            &&& filtered ==> mcp::text_given(args, "region"@).len() > 0 && (word.len() == 0
                || mcp::sensitivity_known(word))
        },
{
    reveal(recall_request);
    mcp::law_number_arguments(args, "k"@, 5, 1, 32);
    mcp::law_number_arguments(args, "budget"@, 5, 1, 32);
    mcp::law_number_arguments(args, "hops"@, 0, 0, 2);
    mcp::law_number_arguments(args, "max_expanded"@, 8, 1, 32);
    mcp::law_sensitivity_words(mcp::text_given(args, "clearance"@));
}

/// There is room for one more item in a region.
pub open spec fn has_room(mem: &ShardedHybrid, region: Seq<char>) -> bool {
    &&& mem.held() < 10_000
    &&& mem@.dom().len() <= 1_024
    &&& mem@.contains_key(region) || mem@.dom().len() < 1_024
}

/// A region is taken: it is short enough and holds no separator.
pub open spec fn region_ok(region: Seq<char>) -> bool {
    encode_utf8(region).len() <= 1_024 && !region.contains(SEP)
}

/// The region that a write goes to.
pub open spec fn region_given(args: mcp::ArgsView) -> Seq<char> {
    let region = mcp::text_given(args, "region"@);
    let uri = mcp::text_given(args, "uri"@);
    if region.len() > 0 {
        region
    } else if uri.len() > 0 {
        mcp::region_part(uri)
    } else {
        "default"@
    }
}

/// A text is ingested just where it is there, its arguments are in order, and there is room.
pub proof fn law_ingest_is_accepted(args: mcp::ArgsView, mem: &ShardedHybrid)
    ensures
        ingest_request(args, mem) is Ok <==> {
            &&& mcp::text_ok(args, "uri"@, 4_096)
            &&& mcp::text_ok(args, "text"@, 131_072)
            &&& mcp::text_given(args, "text"@).len() > 0
            &&& !mcp::text_given(args, "uri"@).contains(SEP)
            &&& mcp::text_ok(args, "region"@, 1_024)
            &&& region_ok(region_given(args))
            &&& has_room(mem, region_given(args))
        },
{
}

/// A record is made just where its arguments are in order: the scope, the class and the source are
/// there or left to their defaults, the times are numbers, the generation is newer, and neither the
/// uri nor the name of the embedder is blank.
#[verifier::rlimit(60)]
pub proof fn law_records_are_made(
    args: mcp::ArgsView,
    uri: Seq<char>,
    stored: Option<u64>,
    embedder: Seq<char>,
    dim: usize,
)
    ensures
        remember_record(args, uri, stored, embedder, dim) is Ok <==> {
            let word = mcp::text_given(args, "sensitivity"@);
            let source = mcp::text_given(args, "source"@);
            let from = mcp::text_given(args, "source_record"@);
            &&& mcp::text_ok(args, "tenant"@, 256)
            &&& mcp::text_ok(args, "workspace"@, 256)
            &&& mcp::text_ok(args, "agent"@, 256)
            &&& !text::blank(part_given(args, "tenant"@))
            &&& !text::blank(part_given(args, "workspace"@))
            &&& !text::blank(part_given(args, "agent"@))
            &&& mcp::text_ok(args, "sensitivity"@, 32)
            &&& word.len() == 0 || mcp::sensitivity_known(word)
            &&& mcp::text_ok(args, "source"@, 256)
            &&& source.len() == 0 || !text::blank(source)
            &&& mcp::text_ok(args, "source_record"@, 4_096)
            &&& from.len() == 0 || !text::blank(from)
            &&& mcp::moment_ok(args, "created_at_ms"@)
            &&& !text::blank(embedder)
            &&& dim > 0
            &&& mcp::generation_ok(args, stored)
            &&& !text::blank(uri)
            &&& mcp::moment_ok(args, "expires_at_ms"@)
            &&& mcp::moment_ok(args, "retain_until_ms"@)
        },
{
    reveal(remember_record);
    mcp::law_sensitivity_words(mcp::text_given(args, "sensitivity"@));
    mcp::law_newer_generations_are_accepted(stored, args);
    lemma_own_name_is_filled();
}

proof fn lemma_own_name_is_filled()
    ensures
        !text::blank("octasoma-mcp"@),
{
    reveal_strlit("octasoma-mcp");
    assert(!text::is_whitespace("octasoma-mcp"@[0]));
}

/// A text is remembered just where it and its uri are there, its arguments are in order, there is
/// room, and its record can be made.
pub proof fn law_remember_needs(
    args: mcp::ArgsView,
    mem: &ShardedHybrid,
    embedder: Seq<char>,
    dim: usize,
)
    ensures
        remember_request(args, mem, embedder, dim) is Ok <==> {
            let uri = mcp::text_given(args, "uri"@);
            &&& mcp::text_ok(args, "uri"@, 4_096)
            &&& uri.len() > 0
            &&& !uri.contains(SEP)
            &&& mcp::text_ok(args, "text"@, 131_072)
            &&& mcp::text_given(args, "text"@).len() > 0
            &&& mcp::text_ok(args, "region"@, 1_024)
            &&& region_ok(region_given(args))
            &&& has_room(mem, region_given(args))
            &&& remember_record(
                args,
                uri,
                if mem.layer().contains_key(uri) {
                    Some(mem.layer()[uri].generation)
                } else {
                    None
                },
                embedder,
                dim,
            ) is Ok
        },
{
}

} // verus!
