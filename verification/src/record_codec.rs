//! The binary form of one memory record: writing it, reading it, and the proof that
//! reading gives back what was written.
use crate::error;
use crate::error::{ErrorKind, StoreError};
use crate::fileguard;
use crate::fileguard::{
    guard_count, put_u32, put_u64, read_lp_bytes, read_lp_string, read_u32_le, read_u64_le,
    write_lp_bytes, CountingReader,
};
use crate::record;
use crate::record::{
    EmbeddingFingerprint, MemoryId, MemoryRecord, MemoryRelation, MemoryScope, MemoryStatus,
    Provenance, RecordError, RelationKind, Retention, Sensitivity,
};
use crate::text;
use crate::text::push_decimal;
use vstd::prelude::*;
use vstd::string::*;
use vstd::utf8::*;

verus! {

/// A text with the length of its UTF-8 bytes before it.
pub open spec fn lp_text(t: Seq<char>) -> Seq<u8> {
    fileguard::lp_bytes(encode_utf8(t))
}

/// An optional number: a flag, and the number where there is one.
pub open spec fn flagged_u64(v: Option<u64>) -> Seq<u8> {
    match v {
        Some(n) => seq![1u8] + fileguard::le_bytes(n as nat, 8),
        None => seq![0u8],
    }
}

/// An optional text: a flag, and the text where there is one.
pub open spec fn flagged_text(v: Option<Seq<char>>) -> Seq<u8> {
    match v {
        Some(t) => seq![1u8] + lp_text(t),
        None => seq![0u8],
    }
}

/// Appends a text with its length.
pub fn put_str(out: &mut Vec<u8>, value: &str)
    ensures
        final(out)@ == old(out)@ + lp_text(value@),
{
    write_lp_bytes(out, value.as_bytes());
}

/// Appends an optional number.
fn put_flagged_u64(out: &mut Vec<u8>, value: Option<u64>)
    ensures
        final(out)@ == old(out)@ + flagged_u64(value),
{
    match value {
        Some(n) => {
            out.push(1);
            put_u64(out, n);
        },
        None => {
            out.push(0);
        },
    }
    assert(out@ =~= old(out)@ + flagged_u64(value));
}

/// Appends an optional text.
fn put_flagged_text(out: &mut Vec<u8>, value: Option<&str>)
    ensures
        final(out)@ == old(out)@ + flagged_text(record::optional_str(value)),
{
    match value {
        Some(t) => {
            out.push(1);
            put_str(out, t);
        },
        None => {
            out.push(0);
        },
    }
    assert(out@ =~= old(out)@ + flagged_text(record::optional_str(value)));
}

/// Reads one byte.
pub open spec fn get_u8(what: Seq<char>, s: Seq<u8>) -> fileguard::Parsed<u8> {
    if s.len() < 1 {
        Err(error::invalid_data(fileguard::count_message(what, 1, 1, 0)))
    } else {
        Ok((s[0], s.skip(1)))
    }
}

/// Reads a flag, which is 0 or 1.
pub open spec fn get_flag(what: Seq<char>, s: Seq<u8>) -> fileguard::Parsed<bool> {
    match get_u8(what, s) {
        Ok((b, rest)) => if b == 0 {
            Ok((false, rest))
        } else if b == 1 {
            Ok((true, rest))
        } else {
            Err(error::invalid_data(what + " must be 0 or 1, got "@ + text::decimal(b as nat)))
        },
        Err(e) => Err(e),
    }
}

/// Reads an optional number.
pub open spec fn get_flagged_u64(what: Seq<char>, s: Seq<u8>) -> fileguard::Parsed<Option<u64>> {
    match get_flag(what, s) {
        Ok((present, rest)) => if present {
            match fileguard::get_u64(what, rest) {
                Ok((n, rest)) => Ok((Some(n), rest)),
                Err(e) => Err(e),
            }
        } else {
            Ok((None, rest))
        },
        Err(e) => Err(e),
    }
}

/// Reads an optional text.
pub open spec fn get_flagged_text(
    flag_what: Seq<char>,
    what: Seq<char>,
    s: Seq<u8>,
) -> fileguard::Parsed<Option<Seq<char>>> {
    match get_flag(flag_what, s) {
        Ok((present, rest)) => if present {
            match fileguard::get_lp_string(what, rest) {
                Ok((t, rest)) => Ok((Some(t), rest)),
                Err(e) => Err(e),
            }
        } else {
            Ok((None, rest))
        },
        Err(e) => Err(e),
    }
}

/// Reads one byte.
pub fn read_u8(what: &str, r: &mut CountingReader<'_>) -> (b: Result<u8, StoreError>)
    ensures
        fileguard::agrees(b, |v: u8| v, final(r).rest(), get_u8(what@, old(r).rest())),
{
    match guard_count(what, 1, 1, r.remaining() as u64) {
        Ok(_) => match r.read_exact(1) {
            Ok(b) => Ok(b[0]),
            Err(e) => Err(e),
        },
        Err(e) => Err(e),
    }
}

/// Reads a flag, which is 0 or 1.
pub fn read_flag(what: &str, r: &mut CountingReader<'_>) -> (b: Result<bool, StoreError>)
    ensures
        fileguard::agrees(b, |v: bool| v, final(r).rest(), get_flag(what@, old(r).rest())),
{
    let b = read_u8(what, r)?;
    if b == 0 {
        Ok(false)
    } else if b == 1 {
        Ok(true)
    } else {
        let mut m = what.to_owned();
        m.append(" must be 0 or 1, got ");
        push_decimal(&mut m, b as u128);
        Err(StoreError::new(ErrorKind::InvalidData, m))
    }
}


/// Reads an optional number.
pub fn read_opt_u64(what: &str, r: &mut CountingReader<'_>) -> (v: Result<Option<u64>, StoreError>)
    ensures
        fileguard::agrees(
            v,
            |v: Option<u64>| v,
            final(r).rest(),
            get_flagged_u64(what@, old(r).rest()),
        ),
{
    if read_flag(what, r)? {
        let n: u64 = read_u64_le(what, r)?;
        Ok(Some(n))
    } else {
        Ok(None)
    }
}

/// Reads an optional text.
fn read_opt_text(flag_what: &str, what: &str, r: &mut CountingReader<'_>) -> (v: Result<
    Option<String>,
    StoreError,
>)
    ensures
        fileguard::agrees(
            v,
            |v: Option<String>| record::optional_text(v),
            final(r).rest(),
            get_flagged_text(flag_what@, what@, old(r).rest()),
        ),
{
    if read_flag(flag_what, r)? {
        let t = read_lp_string(what, r)?;
        Ok(Some(t))
    } else {
        Ok(None)
    }
}

/// The error that a refused record gives while reading.
pub open spec fn refused(e: RecordError) -> error::ErrorView {
    error::invalid_data(e.text())
}

pub(crate) fn refuse(e: RecordError) -> (r: StoreError)
    ensures
        r@ == refused(e),
{
    StoreError::new(ErrorKind::InvalidData, e.message())
}

/// Identity, payload and scope: the first part of an encoded record.
#[verifier::ext_equal]
pub struct HeadView {
    pub id: Seq<char>,
    pub payload: Seq<u8>,
    pub scope: record::ScopeView,
}

/// Lifecycle: the third part of an encoded record.
#[verifier::ext_equal]
pub struct LifeView {
    pub created_at_unix_ms: Option<u64>,
    pub generation: u64,
    pub causal_region: Option<Seq<char>>,
    pub sensitivity: Sensitivity,
    pub status: record::StatusView,
    pub retention: Retention,
}

struct Head {
    id: String,
    payload: Vec<u8>,
    scope: MemoryScope,
}

struct Life {
    created_at_unix_ms: Option<u64>,
    generation: u64,
    causal_region: Option<String>,
    sensitivity: Sensitivity,
    status: MemoryStatus,
    retention: Retention,
}

impl View for Head {
    type V = HeadView;

    closed spec fn view(&self) -> HeadView {
        HeadView { id: self.id@, payload: self.payload@, scope: self.scope@ }
    }
}

impl View for Life {
    type V = LifeView;

    closed spec fn view(&self) -> LifeView {
        LifeView {
            created_at_unix_ms: self.created_at_unix_ms,
            generation: self.generation,
            causal_region: record::optional_text(self.causal_region),
            sensitivity: self.sensitivity,
            status: self.status@,
            retention: self.retention,
        }
    }
}

/// The bytes of identity, payload and scope.
pub open spec fn head_bytes(h: HeadView) -> Seq<u8> {
    lp_text(h.id) + fileguard::lp_bytes(h.payload) + lp_text(h.scope.tenant) + lp_text(
        h.scope.workspace,
    ) + lp_text(h.scope.agent)
}

/// Reads identity, payload and scope.
#[verifier::opaque]
pub open spec fn get_head(s: Seq<u8>) -> fileguard::Parsed<HeadView> {
    match fileguard::get_lp_string("RECS id"@, s) {
        Err(e) => Err(e),
        Ok((id, s)) => match fileguard::get_lp_bytes("RECS payload"@, s) {
            Err(e) => Err(e),
            Ok((payload, s)) => match fileguard::get_lp_string("RECS tenant"@, s) {
                Err(e) => Err(e),
                Ok((tenant, s)) => match fileguard::get_lp_string("RECS workspace"@, s) {
                    Err(e) => Err(e),
                    Ok((workspace, s)) => match fileguard::get_lp_string("RECS agent"@, s) {
                        Err(e) => Err(e),
                        Ok((agent, s)) => match record::checked_scope(tenant, workspace, agent) {
                            Err(e) => Err(refused(e)),
                            Ok(scope) => Ok((HeadView { id, payload, scope }, s)),
                        },
                    },
                },
            },
        },
    }
}

fn read_head(r: &mut CountingReader<'_>) -> (h: Result<Head, StoreError>)
    ensures
        fileguard::agrees(h, |h: Head| h@, final(r).rest(), get_head(old(r).rest())),
{
    proof {
        reveal(get_head);
    }
    let id = read_lp_string("RECS id", r)?;
    let payload = read_lp_bytes("RECS payload", r)?;
    let tenant = read_lp_string("RECS tenant", r)?;
    let workspace = read_lp_string("RECS workspace", r)?;
    let agent = read_lp_string("RECS agent", r)?;
    match MemoryScope::new(&tenant, &workspace, &agent) {
        Ok(scope) => Ok(Head { id, payload, scope }),
        Err(e) => Err(refuse(e)),
    }
}

/// The bytes of one provenance.
pub open spec fn provenance_bytes(p: record::ProvenanceView) -> Seq<u8> {
    lp_text(p.source) + flagged_text(p.source_record) + flagged_u64(p.observed_at_unix_ms)
}

/// Reads one provenance.
#[verifier::opaque]
pub open spec fn get_provenance(s: Seq<u8>) -> fileguard::Parsed<record::ProvenanceView> {
    match fileguard::get_lp_string("RECS provenance source"@, s) {
        Err(e) => Err(e),
        Ok((source, s)) => if text::blank(source) {
            Err(refused(RecordError::EmptyProvenanceSource))
        } else {
            match get_flagged_text("RECS provenance record flag"@, "RECS provenance record"@, s) {
                Err(e) => Err(e),
                Ok((source_record, s)) => if !record::absent_or_filled(source_record) {
                    Err(refused(RecordError::EmptyProvenanceRecord))
                } else {
                    match get_flagged_u64("RECS observed flag"@, s) {
                        Err(e) => Err(e),
                        Ok((observed_at_unix_ms, s)) => Ok(
                            (
                                record::ProvenanceView {
                                    source,
                                    source_record,
                                    observed_at_unix_ms,
                                },
                                s,
                            ),
                        ),
                    }
                },
            }
        },
    }
}

fn read_provenance(r: &mut CountingReader<'_>) -> (p: Result<Provenance, StoreError>)
    ensures
        fileguard::agrees(p, |p: Provenance| p@, final(r).rest(), get_provenance(old(r).rest())),
{
    proof {
        reveal(get_provenance);
    }
    let source = read_lp_string("RECS provenance source", r)?;
    let mut p = match Provenance::new(&source) {
        Ok(p) => p,
        Err(e) => return Err(refuse(e)),
    };
    match read_opt_text("RECS provenance record flag", "RECS provenance record", r)? {
        Some(source_record) => {
            p = match p.with_source_record(&source_record) {
                Ok(p) => p,
                Err(e) => return Err(refuse(e)),
            };
        },
        None => {},
    }
    match read_opt_u64("RECS observed flag", r)? {
        Some(at) => {
            p = p.with_observed_at(at);
        },
        None => {},
    }
    Ok(p)
}

/// The bytes of a list of provenances.
pub open spec fn provenances_bytes(list: Seq<record::ProvenanceView>) -> Seq<u8> {
    fileguard::le_bytes((list.len() as u32) as nat, 4) + fileguard::joined(
        list.map_values(|p: record::ProvenanceView| provenance_bytes(p)),
    )
}

/// Reads `n` provenances.
pub open spec fn get_provenance_items(n: nat, s: Seq<u8>) -> fileguard::Parsed<
    Seq<record::ProvenanceView>,
>
    decreases n,
{
    if n == 0 {
        Ok((Seq::empty(), s))
    } else {
        match get_provenance(s) {
            Err(e) => Err(e),
            Ok((p, s)) => fileguard::prepended(seq![p], get_provenance_items((n - 1) as nat, s)),
        }
    }
}

/// Reads a list of provenances.
#[verifier::opaque]
pub open spec fn get_provenances(s: Seq<u8>) -> fileguard::Parsed<Seq<record::ProvenanceView>> {
    match fileguard::get_u32("RECS provenances"@, s) {
        Err(e) => Err(e),
        Ok((n, s)) => if n * 3 > s.len() {
            Err(
                error::invalid_data(
                    fileguard::count_message("RECS provenances"@, n as nat, 3, s.len()),
                ),
            )
        } else {
            get_provenance_items(n as nat, s)
        },
    }
}

fn read_provenances(r: &mut CountingReader<'_>) -> (list: Result<Vec<Provenance>, StoreError>)
    ensures
        fileguard::agrees(
            list,
            |l: Vec<Provenance>| record::provenance_views(l@),
            final(r).rest(),
            get_provenances(old(r).rest()),
        ),
{
    proof {
        reveal(get_provenances);
    }
    let n: u32 = read_u32_le("RECS provenances", r)?;
    guard_count("RECS provenances", n as usize, 3, r.remaining() as u64)?;
    let ghost start = r.rest();
    let mut list: Vec<Provenance> = Vec::new();
    let mut i: u32 = 0;
    proof {
        fileguard::lemma_prepended_nothing(get_provenance_items(n as nat, start));
        assert(record::provenance_views(list@) =~= Seq::<record::ProvenanceView>::empty());
    }
    while i < n
        invariant
            i <= n,
            get_provenance_items(n as nat, start) == fileguard::prepended(
                record::provenance_views(list@),
                get_provenance_items((n - i) as nat, r.rest()),
            ),
            get_provenances(old(r).rest()) == get_provenance_items(n as nat, start),
        decreases n - i,
    {
        let ghost before = r.rest();
        let ghost items = record::provenance_views(list@);
        let p = read_provenance(r)?;
        proof {
            fileguard::lemma_prepended(
                items,
                p@,
                get_provenance_items((n - i - 1) as nat, r.rest()),
            );
            assert(record::provenance_views(list@.push(p)) =~= items.push(p@));
        }
        list.push(p);
        i += 1;
    }
    assert(record::provenance_views(list@) + Seq::<record::ProvenanceView>::empty()
        =~= record::provenance_views(list@));
    Ok(list)
}


/// The code of a sensitivity.
pub fn sensitivity_code(sensitivity: Sensitivity) -> (code: u8)
    ensures
        code == sensitivity.level(),
{
    match sensitivity {
        Sensitivity::Public => 0,
        Sensitivity::Internal => 1,
        Sensitivity::Confidential => 2,
        Sensitivity::Restricted => 3,
    }
}

/// The sensitivity of a code.
pub open spec fn coded_sensitivity(code: u8) -> Result<Sensitivity, error::ErrorView> {
    if code == 0 {
        Ok(Sensitivity::Public)
    } else if code == 1 {
        Ok(Sensitivity::Internal)
    } else if code == 2 {
        Ok(Sensitivity::Confidential)
    } else if code == 3 {
        Ok(Sensitivity::Restricted)
    } else {
        Err(error::invalid_data("unknown RECS sensitivity code "@ + text::decimal(code as nat)))
    }
}

/// The error of an unknown code.
fn unknown_code(what: &str, code: u8) -> (e: StoreError)
    ensures
        e@ == error::invalid_data(what@ + text::decimal(code as nat)),
{
    let mut m = what.to_owned();
    push_decimal(&mut m, code as u128);
    StoreError::new(ErrorKind::InvalidData, m)
}

/// Finds the sensitivity of a code.
pub fn sensitivity_from_code(code: u8) -> (r: Result<Sensitivity, StoreError>)
    ensures
        match r {
            Ok(v) => coded_sensitivity(code) == Ok::<_, error::ErrorView>(v),
            Err(e) => coded_sensitivity(code) == Err::<Sensitivity, _>(e@),
        },
{
    match code {
        0 => Ok(Sensitivity::Public),
        1 => Ok(Sensitivity::Internal),
        2 => Ok(Sensitivity::Confidential),
        3 => Ok(Sensitivity::Restricted),
        other => Err(unknown_code("unknown RECS sensitivity code ", other)),
    }
}

/// The bytes of a lifecycle status.
pub open spec fn status_bytes(status: record::StatusView) -> Seq<u8> {
    match status {
        record::StatusView::Active => seq![0u8],
        record::StatusView::Tombstoned { at_generation } => seq![1u8] + fileguard::le_bytes(
            at_generation as nat,
            8,
        ),
        record::StatusView::Superseded { by, at_generation } => seq![2u8] + lp_text(by)
            + fileguard::le_bytes(at_generation as nat, 8),
    }
}

/// Reads a lifecycle status.
pub open spec fn get_status(s: Seq<u8>) -> fileguard::Parsed<record::StatusView> {
    match get_u8("RECS status"@, s) {
        Err(e) => Err(e),
        Ok((code, s)) => if code == 0 {
            Ok((record::StatusView::Active, s))
        } else if code == 1 {
            match fileguard::get_u64("RECS tombstone generation"@, s) {
                Err(e) => Err(e),
                Ok((at_generation, s)) => Ok((record::StatusView::Tombstoned { at_generation }, s)),
            }
        } else if code == 2 {
            match fileguard::get_lp_string("RECS superseded-by"@, s) {
                Err(e) => Err(e),
                Ok((by, s)) => if text::blank(by) {
                    Err(refused(RecordError::EmptyId))
                } else {
                    match fileguard::get_u64("RECS supersede generation"@, s) {
                        Err(e) => Err(e),
                        Ok((at_generation, s)) => Ok(
                            (record::StatusView::Superseded { by, at_generation }, s),
                        ),
                    }
                },
            }
        } else {
            Err(error::invalid_data("unknown RECS status code "@ + text::decimal(code as nat)))
        },
    }
}

/// Reads a lifecycle status.
pub fn read_status(r: &mut CountingReader<'_>) -> (status: Result<MemoryStatus, StoreError>)
    ensures
        fileguard::agrees(
            status,
            |v: MemoryStatus| v@,
            final(r).rest(),
            get_status(old(r).rest()),
        ),
{
    let code: u8 = read_u8("RECS status", r)?;
    match code {
        0 => Ok(MemoryStatus::Active),
        1 => {
            let at_generation: u64 = read_u64_le("RECS tombstone generation", r)?;
            Ok(MemoryStatus::Tombstoned { at_generation })
        },
        2 => {
            let by = read_lp_string("RECS superseded-by", r)?;
            match MemoryId::new(&by) {
                Ok(by) => {
                    let at_generation: u64 = read_u64_le("RECS supersede generation", r)?;
                    Ok(MemoryStatus::Superseded { by, at_generation })
                },
                Err(e) => Err(refuse(e)),
            }
        },
        other => Err(unknown_code("unknown RECS status code ", other)),
    }
}

/// The bytes of the lifecycle fields.
pub open spec fn life_bytes(l: LifeView) -> Seq<u8> {
    flagged_u64(l.created_at_unix_ms) + fileguard::le_bytes(l.generation as nat, 8) + flagged_text(
        l.causal_region,
    ) + seq![l.sensitivity.level()] + status_bytes(l.status) + flagged_u64(
        l.retention.expires_at_unix_ms,
    ) + flagged_u64(l.retention.retain_until_unix_ms)
}

/// Reads the lifecycle fields.
#[verifier::opaque]
pub open spec fn get_life(s: Seq<u8>) -> fileguard::Parsed<LifeView> {
    match get_flagged_u64("RECS created flag"@, s) {
        Err(e) => Err(e),
        Ok((created_at_unix_ms, s)) => match fileguard::get_u64("RECS generation"@, s) {
            Err(e) => Err(e),
            Ok((generation, s)) => match get_flagged_text(
                "RECS region flag"@,
                "RECS causal region"@,
                s,
            ) {
                Err(e) => Err(e),
                Ok((causal_region, s)) => match get_u8("RECS sensitivity"@, s) {
                    Err(e) => Err(e),
                    Ok((code, s)) => match coded_sensitivity(code) {
                        Err(e) => Err(e),
                        Ok(sensitivity) => match get_status(s) {
                            Err(e) => Err(e),
                            Ok((status, s)) => match get_flagged_u64("RECS expires flag"@, s) {
                                Err(e) => Err(e),
                                Ok((expires_at_unix_ms, s)) => match get_flagged_u64(
                                    "RECS retain flag"@,
                                    s,
                                ) {
                                    Err(e) => Err(e),
                                    Ok((retain_until_unix_ms, s)) => Ok(
                                        (
                                            LifeView {
                                                created_at_unix_ms,
                                                generation,
                                                causal_region,
                                                sensitivity,
                                                status,
                                                retention: Retention {
                                                    expires_at_unix_ms,
                                                    retain_until_unix_ms,
                                                },
                                            },
                                            s,
                                        ),
                                    ),
                                },
                            },
                        },
                    },
                },
            },
        },
    }
}

fn read_life(r: &mut CountingReader<'_>) -> (l: Result<Life, StoreError>)
    ensures
        fileguard::agrees(l, |l: Life| l@, final(r).rest(), get_life(old(r).rest())),
{
    proof {
        reveal(get_life);
    }
    let created_at_unix_ms = read_opt_u64("RECS created flag", r)?;
    let generation: u64 = read_u64_le("RECS generation", r)?;
    let causal_region = read_opt_text("RECS region flag", "RECS causal region", r)?;
    let code: u8 = read_u8("RECS sensitivity", r)?;
    let sensitivity = sensitivity_from_code(code)?;
    let status = read_status(r)?;
    let expires_at_unix_ms = read_opt_u64("RECS expires flag", r)?;
    let retain_until_unix_ms = read_opt_u64("RECS retain flag", r)?;
    Ok(
        Life {
            created_at_unix_ms,
            generation,
            causal_region,
            sensitivity,
            status,
            retention: Retention { expires_at_unix_ms, retain_until_unix_ms },
        },
    )
}

/// The bytes of an embedding fingerprint.
pub open spec fn fingerprint_bytes(f: record::FingerprintView) -> Seq<u8> {
    lp_text(f.provider) + lp_text(f.model) + flagged_text(f.revision) + fileguard::le_bytes(
        f.dimension as nat,
        8,
    ) + flagged_text(f.projection) + flagged_text(f.quantization)
}

/// Reads an optional component of a fingerprint, which is not blank.
pub open spec fn get_component(
    flag_what: Seq<char>,
    what: Seq<char>,
    name: &'static str,
    s: Seq<u8>,
) -> fileguard::Parsed<Option<Seq<char>>> {
    match get_flagged_text(flag_what, what, s) {
        Err(e) => Err(e),
        Ok((v, s)) => if record::absent_or_filled(v) {
            Ok((v, s))
        } else {
            Err(refused(RecordError::EmptyFingerprintComponent(name)))
        },
    }
}

/// Reads an embedding fingerprint.
#[verifier::opaque]
pub open spec fn get_fingerprint(s: Seq<u8>) -> fileguard::Parsed<record::FingerprintView> {
    match fileguard::get_lp_string("RECS embedding provider"@, s) {
        Err(e) => Err(e),
        Ok((provider, s)) => match fileguard::get_lp_string("RECS embedding model"@, s) {
            Err(e) => Err(e),
            Ok((model, s)) => match get_flagged_text(
                "RECS revision flag"@,
                "RECS embedding revision"@,
                s,
            ) {
                Err(e) => Err(e),
                Ok((revision, s)) => match fileguard::get_u64("RECS embedding dimension"@, s) {
                    Err(e) => Err(e),
                    Ok((dim, s)) => if (dim as usize) == 0 {
                        Err(error::invalid_data("RECS embedding dimension must be non-zero"@))
                    } else {
                        match record::checked_fingerprint(provider, model, dim as usize) {
                            Err(e) => Err(refused(e)),
                            Ok(base) => if !record::absent_or_filled(revision) {
                                Err(refused(RecordError::EmptyFingerprintComponent("revision")))
                            } else {
                                get_fingerprint_tail(
                                    record::FingerprintView { revision, ..base },
                                    s,
                                )
                            },
                        }
                    },
                },
            },
        },
    }
}

/// Reads the last two components of a fingerprint.
#[verifier::opaque]
pub open spec fn get_fingerprint_tail(
    base: record::FingerprintView,
    s: Seq<u8>,
) -> fileguard::Parsed<record::FingerprintView> {
    match get_component("RECS projection flag"@, "RECS projection"@, "projection", s) {
        Err(e) => Err(e),
        Ok((projection, s)) => match get_component(
            "RECS quantization flag"@,
            "RECS quantization"@,
            "quantization",
            s,
        ) {
            Err(e) => Err(e),
            Ok((quantization, s)) => Ok(
                (record::FingerprintView { projection, quantization, ..base }, s),
            ),
        },
    }
}

fn read_fingerprint_tail(base: EmbeddingFingerprint, r: &mut CountingReader<'_>) -> (f: Result<
    EmbeddingFingerprint,
    StoreError,
>)
    requires
        base@.projection is None,
        base@.quantization is None,
    ensures
        fileguard::agrees(
            f,
            |f: EmbeddingFingerprint| f@,
            final(r).rest(),
            get_fingerprint_tail(base@, old(r).rest()),
        ),
{
    proof {
        reveal(get_fingerprint_tail);
    }
    let mut f = base;
    match read_opt_text("RECS projection flag", "RECS projection", r)? {
        Some(projection) => {
            f = match f.with_projection(&projection) {
                Ok(f) => f,
                Err(e) => return Err(refuse(e)),
            };
        },
        None => {},
    }
    match read_opt_text("RECS quantization flag", "RECS quantization", r)? {
        Some(quantization) => {
            f = match f.with_quantization(&quantization) {
                Ok(f) => f,
                Err(e) => return Err(refuse(e)),
            };
        },
        None => {},
    }
    Ok(f)
}

fn read_fingerprint(r: &mut CountingReader<'_>) -> (f: Result<EmbeddingFingerprint, StoreError>)
    ensures
        fileguard::agrees(
            f,
            |f: EmbeddingFingerprint| f@,
            final(r).rest(),
            get_fingerprint(old(r).rest()),
        ),
{
    proof {
        reveal(get_fingerprint);
    }
    let provider = read_lp_string("RECS embedding provider", r)?;
    let model = read_lp_string("RECS embedding model", r)?;
    let revision = read_opt_text("RECS revision flag", "RECS embedding revision", r)?;
    let dim: u64 = read_u64_le("RECS embedding dimension", r)?;
    let dimension: usize = dim as usize;
    if dimension == 0 {
        return Err(StoreError::invalid("RECS embedding dimension must be non-zero"));
    }
    let mut f = match EmbeddingFingerprint::new(&provider, &model, dimension) {
        Ok(f) => f,
        Err(e) => return Err(refuse(e)),
    };
    match revision {
        Some(revision) => {
            f = match f.with_revision(&revision) {
                Ok(f) => f,
                Err(e) => return Err(refuse(e)),
            };
        },
        None => {},
    }
    read_fingerprint_tail(f, r)
}

/// The code of a relation kind.
pub open spec fn relation_code(kind: RelationKind) -> u8 {
    match kind {
        RelationKind::Confirms => 0,
        RelationKind::Contradicts => 1,
        RelationKind::Supersedes => 2,
        RelationKind::SupersededBy => 3,
    }
}

/// The bytes of one relation.
pub open spec fn relation_bytes(r: record::RelationView) -> Seq<u8> {
    seq![relation_code(r.kind)] + lp_text(r.target)
}

/// The relation kind of a code.
pub open spec fn coded_relation(code: u8) -> Option<RelationKind> {
    if code == 0 {
        Some(RelationKind::Confirms)
    } else if code == 1 {
        Some(RelationKind::Contradicts)
    } else if code == 2 {
        Some(RelationKind::Supersedes)
    } else if code == 3 {
        Some(RelationKind::SupersededBy)
    } else {
        None
    }
}

/// Reads one relation.
#[verifier::opaque]
pub open spec fn get_relation(s: Seq<u8>) -> fileguard::Parsed<record::RelationView> {
    match get_u8("RECS relation kind"@, s) {
        Err(e) => Err(e),
        Ok((code, s)) => match coded_relation(code) {
            None => Err(
                error::invalid_data("unknown RECS relation kind "@ + text::decimal(code as nat)),
            ),
            Some(kind) => match fileguard::get_lp_string("RECS relation target"@, s) {
                Err(e) => Err(e),
                Ok((target, s)) => if text::blank(target) {
                    Err(refused(RecordError::EmptyId))
                } else {
                    Ok((record::RelationView { kind, target }, s))
                },
            },
        },
    }
}

fn read_relation(r: &mut CountingReader<'_>) -> (v: Result<MemoryRelation, StoreError>)
    ensures
        fileguard::agrees(v, |v: MemoryRelation| v@, final(r).rest(), get_relation(old(r).rest())),
{
    proof {
        reveal(get_relation);
    }
    let code: u8 = read_u8("RECS relation kind", r)?;
    let kind = match code {
        0 => RelationKind::Confirms,
        1 => RelationKind::Contradicts,
        2 => RelationKind::Supersedes,
        3 => RelationKind::SupersededBy,
        other => return Err(unknown_code("unknown RECS relation kind ", other)),
    };
    let target = read_lp_string("RECS relation target", r)?;
    match MemoryId::new(&target) {
        Ok(target) => Ok(MemoryRelation { kind, target }),
        Err(e) => Err(refuse(e)),
    }
}

/// The bytes of a list of relations.
pub open spec fn relations_bytes(list: Seq<record::RelationView>) -> Seq<u8> {
    fileguard::le_bytes((list.len() as u32) as nat, 4) + fileguard::joined(
        list.map_values(|r: record::RelationView| relation_bytes(r)),
    )
}

/// Reads `n` relations.
pub open spec fn get_relation_items(n: nat, s: Seq<u8>) -> fileguard::Parsed<
    Seq<record::RelationView>,
>
    decreases n,
{
    if n == 0 {
        Ok((Seq::empty(), s))
    } else {
        match get_relation(s) {
            Err(e) => Err(e),
            Ok((r, s)) => fileguard::prepended(seq![r], get_relation_items((n - 1) as nat, s)),
        }
    }
}

/// Reads a list of relations.
#[verifier::opaque]
pub open spec fn get_relations(s: Seq<u8>) -> fileguard::Parsed<Seq<record::RelationView>> {
    match fileguard::get_u32("RECS relations"@, s) {
        Err(e) => Err(e),
        Ok((n, s)) => if n * 5 > s.len() {
            Err(
                error::invalid_data(
                    fileguard::count_message("RECS relations"@, n as nat, 5, s.len()),
                ),
            )
        } else {
            get_relation_items(n as nat, s)
        },
    }
}

fn read_relations(r: &mut CountingReader<'_>) -> (list: Result<Vec<MemoryRelation>, StoreError>)
    ensures
        fileguard::agrees(
            list,
            |l: Vec<MemoryRelation>| record::relation_views(l@),
            final(r).rest(),
            get_relations(old(r).rest()),
        ),
{
    proof {
        reveal(get_relations);
    }
    let n: u32 = read_u32_le("RECS relations", r)?;
    guard_count("RECS relations", n as usize, 5, r.remaining() as u64)?;
    let ghost start = r.rest();
    let mut list: Vec<MemoryRelation> = Vec::new();
    let mut i: u32 = 0;
    proof {
        fileguard::lemma_prepended_nothing(get_relation_items(n as nat, start));
        assert(record::relation_views(list@) =~= Seq::<record::RelationView>::empty());
    }
    while i < n
        invariant
            i <= n,
            get_relation_items(n as nat, start) == fileguard::prepended(
                record::relation_views(list@),
                get_relation_items((n - i) as nat, r.rest()),
            ),
            get_relations(old(r).rest()) == get_relation_items(n as nat, start),
        decreases n - i,
    {
        let ghost items = record::relation_views(list@);
        let v = read_relation(r)?;
        proof {
            fileguard::lemma_prepended(
                items,
                v@,
                get_relation_items((n - i - 1) as nat, r.rest()),
            );
            assert(record::relation_views(list@.push(v)) =~= items.push(v@));
        }
        list.push(v);
        i += 1;
    }
    assert(record::relation_views(list@) + Seq::<record::RelationView>::empty()
        =~= record::relation_views(list@));
    Ok(list)
}

/// The first part of a record.
pub open spec fn head_of(r: record::RecordView) -> HeadView {
    HeadView { id: r.id, payload: r.payload, scope: r.scope }
}

/// The lifecycle part of a record.
pub open spec fn life_of(r: record::RecordView) -> LifeView {
    LifeView {
        created_at_unix_ms: r.created_at_unix_ms,
        generation: r.generation,
        causal_region: r.causal_region,
        sensitivity: r.sensitivity,
        status: r.status,
        retention: r.retention,
    }
}

/// The bytes of one record.
pub open spec fn record_bytes(r: record::RecordView) -> Seq<u8> {
    head_bytes(head_of(r)) + provenances_bytes(r.provenance) + life_bytes(life_of(r))
        + fingerprint_bytes(r.embedding) + relations_bytes(r.relations)
}

/// Reads one record.
#[verifier::opaque]
pub open spec fn get_record(s: Seq<u8>) -> fileguard::Parsed<record::RecordView> {
    match get_head(s) {
        Err(e) => Err(e),
        Ok((h, s)) => match get_provenances(s) {
            Err(e) => Err(e),
            Ok((provenance, s)) => match get_life(s) {
                Err(e) => Err(e),
                Ok((l, s)) => match get_fingerprint(s) {
                    Err(e) => Err(e),
                    Ok((embedding, s)) => match get_relations(s) {
                        Err(e) => Err(e),
                        Ok((relations, s)) => if text::blank(h.id) {
                            Err(refused(RecordError::EmptyId))
                        } else {
                            Ok(
                                (
                                    record::RecordView {
                                        id: h.id,
                                        payload: h.payload,
                                        scope: h.scope,
                                        provenance,
                                        created_at_unix_ms: l.created_at_unix_ms,
                                        generation: l.generation,
                                        causal_region: l.causal_region,
                                        sensitivity: l.sensitivity,
                                        status: l.status,
                                        retention: l.retention,
                                        embedding,
                                        relations,
                                    },
                                    s,
                                ),
                            )
                        },
                    },
                },
            },
        },
    }
}

pub(crate) fn read_record(r: &mut CountingReader<'_>) -> (v: Result<MemoryRecord, StoreError>)
    ensures
        fileguard::agrees(v, |v: MemoryRecord| v@, final(r).rest(), get_record(old(r).rest())),
{
    proof {
        reveal(get_record);
    }
    let h = read_head(r)?;
    let provenance = read_provenances(r)?;
    let l = read_life(r)?;
    let embedding = read_fingerprint(r)?;
    let relations = read_relations(r)?;
    match MemoryId::new(&h.id) {
        Ok(id) => Ok(
            MemoryRecord {
                id,
                payload: h.payload,
                scope: h.scope,
                provenance,
                created_at_unix_ms: l.created_at_unix_ms,
                generation: l.generation,
                causal_region: l.causal_region,
                sensitivity: l.sensitivity,
                status: l.status,
                retention: l.retention,
                embedding,
                relations,
            },
        ),
        Err(e) => Err(refuse(e)),
    }
}


fn put_head(out: &mut Vec<u8>, r: &MemoryRecord)
    ensures
        final(out)@ == old(out)@ + head_bytes(head_of(r@)),
{
    put_str(out, r.id.as_str());
    write_lp_bytes(out, &r.payload);
    put_str(out, r.scope.tenant());
    put_str(out, r.scope.workspace());
    put_str(out, r.scope.agent());
    proof {
        fileguard::lemma_appended5(
            old(out)@,
            lp_text(r@.id),
            fileguard::lp_bytes(r@.payload),
            lp_text(r@.scope.tenant),
            lp_text(r@.scope.workspace),
            lp_text(r@.scope.agent),
        );
    }
}

fn put_provenance(out: &mut Vec<u8>, p: &Provenance)
    ensures
        final(out)@ == old(out)@ + provenance_bytes(p@),
{
    put_str(out, p.source());
    put_flagged_text(out, p.source_record());
    put_flagged_u64(out, p.observed_at_unix_ms());
    proof {
        fileguard::lemma_appended3(
            old(out)@,
            lp_text(p@.source),
            flagged_text(p@.source_record),
            flagged_u64(p@.observed_at_unix_ms),
        );
    }
}

fn put_provenances(out: &mut Vec<u8>, list: &Vec<Provenance>)
    ensures
        final(out)@ == old(out)@ + provenances_bytes(record::provenance_views(list@)),
{
    let ghost views = record::provenance_views(list@);
    let ghost parts = views.map_values(|p: record::ProvenanceView| provenance_bytes(p));
    put_u32(out, list.len() as u32);
    let ghost head = out@;
    let mut i: usize = 0;
    assert(parts.take(0) =~= Seq::<Seq<u8>>::empty());
    assert(out@ =~= head + fileguard::joined(parts.take(0)));
    while i < list.len()
        invariant
            i <= list@.len(),
            views == record::provenance_views(list@),
            parts == views.map_values(|p: record::ProvenanceView| provenance_bytes(p)),
            out@ == head + fileguard::joined(parts.take(i as int)),
        decreases list@.len() - i,
    {
        put_provenance(out, &list[i]);
        proof {
            fileguard::lemma_joined_push(parts.take(i as int), parts[i as int]);
            assert(parts.take(i + 1) =~= parts.take(i as int).push(parts[i as int]));
            assert(out@ =~= head + fileguard::joined(parts.take(i + 1)));
        }
        i += 1;
    }
    assert(parts.take(i as int) =~= parts);
    assert(out@ =~= old(out)@ + provenances_bytes(views));
}

fn put_status(out: &mut Vec<u8>, status: &MemoryStatus)
    ensures
        final(out)@ == old(out)@ + status_bytes(status@),
{
    match status {
        MemoryStatus::Active => {
            out.push(0);
        },
        MemoryStatus::Tombstoned { at_generation } => {
            out.push(1);
            put_u64(out, *at_generation);
        },
        MemoryStatus::Superseded { by, at_generation } => {
            out.push(2);
            put_str(out, by.as_str());
            put_u64(out, *at_generation);
        },
    }
    assert(out@ =~= old(out)@ + status_bytes(status@));
}

fn put_life(out: &mut Vec<u8>, r: &MemoryRecord)
    ensures
        final(out)@ == old(out)@ + life_bytes(life_of(r@)),
{
    put_flagged_u64(out, r.created_at_unix_ms);
    put_u64(out, r.generation);
    match &r.causal_region {
        Some(region) => {
            put_flagged_text(out, Some(region.as_str()));
        },
        None => {
            put_flagged_text(out, None);
        },
    }
    let ghost before = out@;
    out.push(sensitivity_code(r.sensitivity));
    assert(out@ =~= before + seq![r.sensitivity.level()]);
    put_status(out, &r.status);
    put_flagged_u64(out, r.retention.expires_at_unix_ms);
    put_flagged_u64(out, r.retention.retain_until_unix_ms);
    proof {
        fileguard::lemma_appended7(
            old(out)@,
            flagged_u64(r.created_at_unix_ms),
            fileguard::le_bytes(r.generation as nat, 8),
            flagged_text(r@.causal_region),
            seq![r.sensitivity.level()],
            status_bytes(r@.status),
            flagged_u64(r.retention.expires_at_unix_ms),
            flagged_u64(r.retention.retain_until_unix_ms),
        );
    }
}

fn put_fingerprint(out: &mut Vec<u8>, f: &EmbeddingFingerprint)
    ensures
        final(out)@ == old(out)@ + fingerprint_bytes(f@),
{
    put_str(out, f.provider());
    put_str(out, f.model());
    put_flagged_text(out, f.revision());
    put_u64(out, f.dimension() as u64);
    put_flagged_text(out, f.projection());
    put_flagged_text(out, f.quantization());
    proof {
        fileguard::lemma_appended6(
            old(out)@,
            lp_text(f@.provider),
            lp_text(f@.model),
            flagged_text(f@.revision),
            fileguard::le_bytes(f@.dimension as nat, 8),
            flagged_text(f@.projection),
            flagged_text(f@.quantization),
        );
    }
}

fn put_relation(out: &mut Vec<u8>, r: &MemoryRelation)
    ensures
        final(out)@ == old(out)@ + relation_bytes(r@),
{
    let code: u8 = match r.kind {
        RelationKind::Confirms => 0,
        RelationKind::Contradicts => 1,
        RelationKind::Supersedes => 2,
        RelationKind::SupersededBy => 3,
    };
    out.push(code);
    put_str(out, r.target.as_str());
    assert(out@ =~= old(out)@ + relation_bytes(r@));
}

fn put_relations(out: &mut Vec<u8>, list: &Vec<MemoryRelation>)
    ensures
        final(out)@ == old(out)@ + relations_bytes(record::relation_views(list@)),
{
    let ghost views = record::relation_views(list@);
    let ghost parts = views.map_values(|r: record::RelationView| relation_bytes(r));
    put_u32(out, list.len() as u32);
    let ghost head = out@;
    let mut i: usize = 0;
    assert(parts.take(0) =~= Seq::<Seq<u8>>::empty());
    assert(out@ =~= head + fileguard::joined(parts.take(0)));
    while i < list.len()
        invariant
            i <= list@.len(),
            views == record::relation_views(list@),
            parts == views.map_values(|r: record::RelationView| relation_bytes(r)),
            out@ == head + fileguard::joined(parts.take(i as int)),
        decreases list@.len() - i,
    {
        put_relation(out, &list[i]);
        proof {
            fileguard::lemma_joined_push(parts.take(i as int), parts[i as int]);
            assert(parts.take(i + 1) =~= parts.take(i as int).push(parts[i as int]));
            assert(out@ =~= head + fileguard::joined(parts.take(i + 1)));
        }
        i += 1;
    }
    assert(parts.take(i as int) =~= parts);
    assert(out@ =~= old(out)@ + relations_bytes(views));
}

pub(crate) fn put_record(out: &mut Vec<u8>, r: &MemoryRecord)
    ensures
        final(out)@ == old(out)@ + record_bytes(r@),
{
    put_head(out, r);
    put_provenances(out, &r.provenance);
    put_life(out, r);
    put_fingerprint(out, &r.embedding);
    put_relations(out, &r.relations);
    proof {
        fileguard::lemma_appended5(
            old(out)@,
            head_bytes(head_of(r@)),
            provenances_bytes(r@.provenance),
            life_bytes(life_of(r@)),
            fingerprint_bytes(r@.embedding),
            relations_bytes(r@.relations),
        );
    }
}

// ---- reading back what was written ----

/// The length of a text fits its prefix.
pub open spec fn text_fits(t: Seq<char>) -> bool {
    encode_utf8(t).len() <= u32::MAX
}

/// The same of an optional text.
pub open spec fn optional_fits(t: Option<Seq<char>>) -> bool {
    t matches Some(t) ==> text_fits(t)
}

/// Every length and count of a record fits the four bytes that the format has for
/// it.
pub open spec fn record_fits(r: record::RecordView) -> bool {
    &&& text_fits(r.id)
    &&& r.payload.len() <= u32::MAX
    &&& text_fits(r.scope.tenant)
    &&& text_fits(r.scope.workspace)
    &&& text_fits(r.scope.agent)
    &&& r.provenance.len() <= u32::MAX
    &&& forall|i: int|
        0 <= i < r.provenance.len() ==> text_fits((#[trigger] r.provenance[i]).source)
            && optional_fits(r.provenance[i].source_record)
    &&& optional_fits(r.causal_region)
    &&& r.status matches record::StatusView::Superseded { by, .. } ==> text_fits(by)
    &&& text_fits(r.embedding.provider)
    &&& text_fits(r.embedding.model)
    &&& optional_fits(r.embedding.revision)
    &&& optional_fits(r.embedding.projection)
    &&& optional_fits(r.embedding.quantization)
    &&& r.relations.len() <= u32::MAX
    &&& forall|i: int| 0 <= i < r.relations.len() ==> text_fits((#[trigger] r.relations[i]).target)
}

proof fn lemma_get_u8(what: Seq<char>, b: u8, rest: Seq<u8>)
    ensures
        get_u8(what, seq![b] + rest) == Ok::<_, error::ErrorView>((b, rest)),
{
    assert((seq![b] + rest).skip(1) =~= rest);
}

proof fn lemma_get_flagged_u64(what: Seq<char>, v: Option<u64>, rest: Seq<u8>)
    ensures
        get_flagged_u64(what, flagged_u64(v) + rest) == Ok::<_, error::ErrorView>((v, rest)),
{
    match v {
        Some(n) => {
            let body = fileguard::le_bytes(n as nat, 8);
            assert(flagged_u64(v) + rest =~= seq![1u8] + (body + rest));
            lemma_get_u8(what, 1, body + rest);
            fileguard::lemma_get_u64(what, n, rest);
        },
        None => {
            lemma_get_u8(what, 0, rest);
        },
    }
}

proof fn lemma_get_flagged_text(
    flag_what: Seq<char>,
    what: Seq<char>,
    v: Option<Seq<char>>,
    rest: Seq<u8>,
)
    requires
        optional_fits(v),
    ensures
        get_flagged_text(flag_what, what, flagged_text(v) + rest) == Ok::<_, error::ErrorView>(
            (v, rest),
        ),
{
    match v {
        Some(t) => {
            assert(flagged_text(v) + rest =~= seq![1u8] + (lp_text(t) + rest));
            lemma_get_u8(flag_what, 1, lp_text(t) + rest);
            fileguard::law_lp_string_round_trip(what, t, rest);
        },
        None => {
            lemma_get_u8(flag_what, 0, rest);
        },
    }
}

proof fn lemma_get_head(h: HeadView, rest: Seq<u8>)
    requires
        h.scope.valid(),
        text_fits(h.id),
        h.payload.len() <= u32::MAX,
        text_fits(h.scope.tenant),
        text_fits(h.scope.workspace),
        text_fits(h.scope.agent),
    ensures
        get_head(head_bytes(h) + rest) == Ok::<_, error::ErrorView>((h, rest)),
{
    reveal(get_head);
    let s4 = lp_text(h.scope.agent) + rest;
    let s3 = lp_text(h.scope.workspace) + s4;
    let s2 = lp_text(h.scope.tenant) + s3;
    let s1 = fileguard::lp_bytes(h.payload) + s2;
    fileguard::lemma_regroup5(
        lp_text(h.id),
        fileguard::lp_bytes(h.payload),
        lp_text(h.scope.tenant),
        lp_text(h.scope.workspace),
        lp_text(h.scope.agent),
        rest,
    );
    fileguard::law_lp_string_round_trip("RECS id"@, h.id, s1);
    fileguard::law_lp_bytes_round_trip("RECS payload"@, h.payload, s2);
    fileguard::law_lp_string_round_trip("RECS tenant"@, h.scope.tenant, s3);
    fileguard::law_lp_string_round_trip("RECS workspace"@, h.scope.workspace, s4);
    fileguard::law_lp_string_round_trip("RECS agent"@, h.scope.agent, rest);
}

proof fn lemma_get_provenance(p: record::ProvenanceView, rest: Seq<u8>)
    requires
        p.valid(),
        text_fits(p.source),
        optional_fits(p.source_record),
    ensures
        get_provenance(provenance_bytes(p) + rest) == Ok::<_, error::ErrorView>((p, rest)),
{
    reveal(get_provenance);
    let s2 = flagged_u64(p.observed_at_unix_ms) + rest;
    let s1 = flagged_text(p.source_record) + s2;
    fileguard::lemma_regroup3(
        lp_text(p.source),
        flagged_text(p.source_record),
        flagged_u64(p.observed_at_unix_ms),
        rest,
    );
    fileguard::law_lp_string_round_trip("RECS provenance source"@, p.source, s1);
    lemma_get_flagged_text(
        "RECS provenance record flag"@,
        "RECS provenance record"@,
        p.source_record,
        s2,
    );
    lemma_get_flagged_u64("RECS observed flag"@, p.observed_at_unix_ms, rest);
}

proof fn lemma_get_provenance_items(list: Seq<record::ProvenanceView>, rest: Seq<u8>)
    requires
        forall|i: int|
            0 <= i < list.len() ==> (#[trigger] list[i]).valid() && text_fits(list[i].source)
                && optional_fits(list[i].source_record),
    ensures
        get_provenance_items(
            list.len(),
            fileguard::joined(
                list.map_values(|p: record::ProvenanceView| provenance_bytes(p)),
            ) + rest,
        ) == Ok::<_, error::ErrorView>((list, rest)),
    decreases list.len(),
{
    let f = |p: record::ProvenanceView| provenance_bytes(p);
    let parts = list.map_values(f);
    if list.len() == 0 {
        assert(fileguard::joined(parts) + rest =~= rest);
        assert(list =~= Seq::empty());
    } else {
        let tail = list.drop_first();
        assert(parts.drop_first() =~= tail.map_values(f));
        let s1 = fileguard::joined(tail.map_values(f)) + rest;
        fileguard::lemma_regroup2(
            provenance_bytes(list[0]),
            fileguard::joined(tail.map_values(f)),
            rest,
        );
        lemma_get_provenance(list[0], s1);
        assert forall|i: int| 0 <= i < tail.len() implies (#[trigger] tail[i]).valid() && text_fits(
            tail[i].source,
        ) && optional_fits(tail[i].source_record) by {
            assert(tail[i] == list[i + 1]);
        }
        lemma_get_provenance_items(tail, rest);
        assert(seq![list[0]] + tail =~= list);
    }
}

pub proof fn lemma_lp_len(b: Seq<u8>)
    ensures
        fileguard::lp_bytes(b).len() == 4 + b.len(),
{
    fileguard::lemma_le_bytes_len((b.len() as u32) as nat, 4);
}

proof fn lemma_get_provenances(list: Seq<record::ProvenanceView>, rest: Seq<u8>)
    requires
        list.len() <= u32::MAX,
        forall|i: int|
            0 <= i < list.len() ==> (#[trigger] list[i]).valid() && text_fits(list[i].source)
                && optional_fits(list[i].source_record),
    ensures
        get_provenances(provenances_bytes(list) + rest) == Ok::<_, error::ErrorView>((list, rest)),
{
    reveal(get_provenances);
    let f = |p: record::ProvenanceView| provenance_bytes(p);
    let parts = list.map_values(f);
    let s1 = fileguard::joined(parts) + rest;
    assert(provenances_bytes(list) + rest =~= fileguard::le_bytes(list.len(), 4) + s1);
    fileguard::lemma_get_u32("RECS provenances"@, list.len() as u32, s1);
    assert forall|i: int| 0 <= i < parts.len() implies (#[trigger] parts[i]).len() >= 3 by {
        lemma_lp_len(encode_utf8(list[i].source));
    }
    fileguard::lemma_joined_len(parts, 3);
    lemma_get_provenance_items(list, rest);
}

proof fn lemma_get_status(v: record::StatusView, rest: Seq<u8>)
    requires
        v.valid(),
        v matches record::StatusView::Superseded { by, .. } ==> text_fits(by),
    ensures
        get_status(status_bytes(v) + rest) == Ok::<_, error::ErrorView>((v, rest)),
{
    match v {
        record::StatusView::Active => {
            lemma_get_u8("RECS status"@, 0, rest);
        },
        record::StatusView::Tombstoned { at_generation } => {
            let s1 = fileguard::le_bytes(at_generation as nat, 8) + rest;
            assert(status_bytes(v) + rest =~= seq![1u8] + s1);
            lemma_get_u8("RECS status"@, 1, s1);
            fileguard::lemma_get_u64("RECS tombstone generation"@, at_generation, rest);
        },
        record::StatusView::Superseded { by, at_generation } => {
            let s2 = fileguard::le_bytes(at_generation as nat, 8) + rest;
            let s1 = lp_text(by) + s2;
            assert(status_bytes(v) + rest =~= seq![2u8] + s1);
            lemma_get_u8("RECS status"@, 2, s1);
            fileguard::law_lp_string_round_trip("RECS superseded-by"@, by, s2);
            fileguard::lemma_get_u64("RECS supersede generation"@, at_generation, rest);
        },
    }
}

proof fn lemma_get_life(l: LifeView, rest: Seq<u8>)
    requires
        l.status.valid(),
        l.status matches record::StatusView::Superseded { by, .. } ==> text_fits(by),
        optional_fits(l.causal_region),
    ensures
        get_life(life_bytes(l) + rest) == Ok::<_, error::ErrorView>((l, rest)),
{
    reveal(get_life);
    let s6 = flagged_u64(l.retention.retain_until_unix_ms) + rest;
    let s5 = flagged_u64(l.retention.expires_at_unix_ms) + s6;
    let s4 = status_bytes(l.status) + s5;
    let s3 = seq![l.sensitivity.level()] + s4;
    let s2 = flagged_text(l.causal_region) + s3;
    let s1 = fileguard::le_bytes(l.generation as nat, 8) + s2;
    fileguard::lemma_regroup7(
        flagged_u64(l.created_at_unix_ms),
        fileguard::le_bytes(l.generation as nat, 8),
        flagged_text(l.causal_region),
        seq![l.sensitivity.level()],
        status_bytes(l.status),
        flagged_u64(l.retention.expires_at_unix_ms),
        flagged_u64(l.retention.retain_until_unix_ms),
        rest,
    );
    lemma_get_flagged_u64("RECS created flag"@, l.created_at_unix_ms, s1);
    fileguard::lemma_get_u64("RECS generation"@, l.generation, s2);
    lemma_get_flagged_text("RECS region flag"@, "RECS causal region"@, l.causal_region, s3);
    lemma_get_u8("RECS sensitivity"@, l.sensitivity.level(), s4);
    lemma_get_status(l.status, s5);
    lemma_get_flagged_u64("RECS expires flag"@, l.retention.expires_at_unix_ms, s6);
    lemma_get_flagged_u64("RECS retain flag"@, l.retention.retain_until_unix_ms, rest);
}

proof fn lemma_get_fingerprint_tail(
    base: record::FingerprintView,
    f: record::FingerprintView,
    rest: Seq<u8>,
)
    requires
        f.valid(),
        optional_fits(f.projection),
        optional_fits(f.quantization),
        f == (record::FingerprintView {
            projection: f.projection,
            quantization: f.quantization,
            ..base
        }),
    ensures
        get_fingerprint_tail(
            base,
            flagged_text(f.projection) + (flagged_text(f.quantization) + rest),
        ) == Ok::<_, error::ErrorView>((f, rest)),
{
    reveal(get_fingerprint_tail);
    let s5 = flagged_text(f.quantization) + rest;
    lemma_get_flagged_text("RECS projection flag"@, "RECS projection"@, f.projection, s5);
    lemma_get_flagged_text("RECS quantization flag"@, "RECS quantization"@, f.quantization, rest);
}

#[verifier::rlimit(40)]
proof fn lemma_get_fingerprint(f: record::FingerprintView, rest: Seq<u8>)
    requires
        f.valid(),
        text_fits(f.provider),
        text_fits(f.model),
        optional_fits(f.revision),
        optional_fits(f.projection),
        optional_fits(f.quantization),
    ensures
        get_fingerprint(fingerprint_bytes(f) + rest) == Ok::<_, error::ErrorView>((f, rest)),
{
    reveal(get_fingerprint);
    let s5 = flagged_text(f.quantization) + rest;
    let s4 = flagged_text(f.projection) + s5;
    let s3 = fileguard::le_bytes(f.dimension as nat, 8) + s4;
    let s2 = flagged_text(f.revision) + s3;
    let s1 = lp_text(f.model) + s2;
    fileguard::lemma_regroup6(
        lp_text(f.provider),
        lp_text(f.model),
        flagged_text(f.revision),
        fileguard::le_bytes(f.dimension as nat, 8),
        flagged_text(f.projection),
        flagged_text(f.quantization),
        rest,
    );
    fileguard::law_lp_string_round_trip("RECS embedding provider"@, f.provider, s1);
    fileguard::law_lp_string_round_trip("RECS embedding model"@, f.model, s2);
    lemma_get_flagged_text("RECS revision flag"@, "RECS embedding revision"@, f.revision, s3);
    fileguard::lemma_get_u64("RECS embedding dimension"@, f.dimension as u64, s4);
    let base = record::FingerprintView { projection: None, quantization: None, ..f };
    lemma_get_fingerprint_tail(base, f, rest);
    assert((f.dimension as u64) as usize == f.dimension);
    assert(fingerprint_bytes(f) + rest == lp_text(f.provider) + s1);
}

proof fn lemma_get_relation(r: record::RelationView, rest: Seq<u8>)
    requires
        !text::blank(r.target),
        text_fits(r.target),
    ensures
        get_relation(relation_bytes(r) + rest) == Ok::<_, error::ErrorView>((r, rest)),
{
    reveal(get_relation);
    let s1 = lp_text(r.target) + rest;
    assert(relation_bytes(r) + rest =~= seq![relation_code(r.kind)] + s1);
    lemma_get_u8("RECS relation kind"@, relation_code(r.kind), s1);
    fileguard::law_lp_string_round_trip("RECS relation target"@, r.target, rest);
}

proof fn lemma_get_relation_items(list: Seq<record::RelationView>, rest: Seq<u8>)
    requires
        forall|i: int|
            0 <= i < list.len() ==> !text::blank((#[trigger] list[i]).target) && text_fits(
                list[i].target,
            ),
    ensures
        get_relation_items(
            list.len(),
            fileguard::joined(list.map_values(|r: record::RelationView| relation_bytes(r))) + rest,
        ) == Ok::<_, error::ErrorView>((list, rest)),
    decreases list.len(),
{
    let f = |r: record::RelationView| relation_bytes(r);
    let parts = list.map_values(f);
    if list.len() == 0 {
        assert(fileguard::joined(parts) + rest =~= rest);
        assert(list =~= Seq::empty());
    } else {
        let tail = list.drop_first();
        assert(parts.drop_first() =~= tail.map_values(f));
        let s1 = fileguard::joined(tail.map_values(f)) + rest;
        fileguard::lemma_regroup2(
            relation_bytes(list[0]),
            fileguard::joined(tail.map_values(f)),
            rest,
        );
        lemma_get_relation(list[0], s1);
        assert forall|i: int| 0 <= i < tail.len() implies !text::blank((#[trigger] tail[i]).target)
            && text_fits(tail[i].target) by {
            assert(tail[i] == list[i + 1]);
        }
        lemma_get_relation_items(tail, rest);
        assert(seq![list[0]] + tail =~= list);
    }
}

proof fn lemma_get_relations(list: Seq<record::RelationView>, rest: Seq<u8>)
    requires
        list.len() <= u32::MAX,
        forall|i: int|
            0 <= i < list.len() ==> !text::blank((#[trigger] list[i]).target) && text_fits(
                list[i].target,
            ),
    ensures
        get_relations(relations_bytes(list) + rest) == Ok::<_, error::ErrorView>((list, rest)),
{
    reveal(get_relations);
    let f = |r: record::RelationView| relation_bytes(r);
    let parts = list.map_values(f);
    let s1 = fileguard::joined(parts) + rest;
    assert(relations_bytes(list) + rest =~= fileguard::le_bytes(list.len(), 4) + s1);
    fileguard::lemma_get_u32("RECS relations"@, list.len() as u32, s1);
    assert forall|i: int| 0 <= i < parts.len() implies (#[trigger] parts[i]).len() >= 5 by {
        lemma_lp_len(encode_utf8(list[i].target));
    }
    fileguard::lemma_joined_len(parts, 5);
    lemma_get_relation_items(list, rest);
}

/// A valid record whose lengths fit reads back from its bytes, and what follows it
/// is left.
pub proof fn law_record_round_trip(r: record::RecordView, rest: Seq<u8>)
    requires
        r.valid(),
        record_fits(r),
    ensures
        get_record(record_bytes(r) + rest) == Ok::<_, error::ErrorView>((r, rest)),
{
    reveal(get_record);
    let s4 = relations_bytes(r.relations) + rest;
    let s3 = fingerprint_bytes(r.embedding) + s4;
    let s2 = life_bytes(life_of(r)) + s3;
    let s1 = provenances_bytes(r.provenance) + s2;
    fileguard::lemma_regroup5(
        head_bytes(head_of(r)),
        provenances_bytes(r.provenance),
        life_bytes(life_of(r)),
        fingerprint_bytes(r.embedding),
        relations_bytes(r.relations),
        rest,
    );
    lemma_get_head(head_of(r), s1);
    lemma_get_provenances(r.provenance, s2);
    lemma_get_life(life_of(r), s3);
    lemma_get_fingerprint(r.embedding, s4);
    lemma_get_relations(r.relations, rest);
}

/// The codes are read back, and ascend from the first class to the last.
pub proof fn law_codes_are_read_back(kind: RelationKind, s: Sensitivity)
    ensures
        coded_relation(relation_code(kind)) == Some(kind),
        coded_sensitivity(s.level()) == Ok::<_, error::ErrorView>(s),
        relation_code(RelationKind::Confirms) == 0,
        relation_code(RelationKind::Contradicts) == 1,
        relation_code(RelationKind::Supersedes) == 2,
        relation_code(RelationKind::SupersededBy) == 3,
{
}

} // verus!
