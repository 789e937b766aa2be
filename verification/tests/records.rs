//! Records, their lifecycle, and the store that holds them.
use octasoma::error::ErrorKind;
use octasoma::record::{
    EmbeddingFingerprint, MemoryId, MemoryRecord, MemoryScope, MemoryStatus, Provenance,
    RecordError, RelationKind, Sensitivity,
};
use octasoma::record_store::{RecordFilter, RecordStore};

fn id(value: &str) -> MemoryId {
    MemoryId::new(value).unwrap()
}

fn scope() -> MemoryScope {
    MemoryScope::new("tenant-a", "workspace-a", "agent-a").unwrap()
}

fn provenance() -> Provenance {
    Provenance::new("ccos:event-log").unwrap().with_source_record("event:42").unwrap()
}

fn embedding() -> EmbeddingFingerprint {
    EmbeddingFingerprint::new("scirust", "sciagent-encoder", 768)
        .unwrap()
        .with_revision("model-rev-1")
        .unwrap()
        .with_projection("projection-head-v3")
        .unwrap()
        .with_quantization("f32")
        .unwrap()
}

fn record(id_value: &str, generation: u64) -> MemoryRecord {
    MemoryRecord::new(
        id(id_value),
        b"payload".to_vec(),
        scope(),
        provenance(),
        embedding(),
        generation,
    )
}

#[test]
fn ids_scope_provenance_and_embedding_contract_are_validated() {
    assert_eq!(MemoryId::new("   "), Err(RecordError::EmptyId));
    assert_eq!(
        MemoryScope::new("", "workspace", "agent"),
        Err(RecordError::EmptyScopeComponent("tenant"))
    );
    assert_eq!(
        MemoryScope::new("tenant", "", "agent"),
        Err(RecordError::EmptyScopeComponent("workspace"))
    );
    assert_eq!(
        MemoryScope::new("tenant", "workspace", ""),
        Err(RecordError::EmptyScopeComponent("agent"))
    );
    assert_eq!(Provenance::new("  "), Err(RecordError::EmptyProvenanceSource));
    assert_eq!(
        EmbeddingFingerprint::new("", "encoder", 768),
        Err(RecordError::EmptyEmbeddingProvider)
    );
    assert_eq!(
        EmbeddingFingerprint::new("scirust", "", 768),
        Err(RecordError::EmptyEmbeddingModel)
    );
    assert_eq!(
        EmbeddingFingerprint::new("scirust", "encoder", 0),
        Err(RecordError::ZeroEmbeddingDimension)
    );
}

#[test]
fn optional_parts_must_be_filled() {
    assert_eq!(
        Provenance::new("s").unwrap().with_source_record(" "),
        Err(RecordError::EmptyProvenanceRecord)
    );
    assert!(matches!(
        EmbeddingFingerprint::new("p", "m", 1).unwrap().with_revision(""),
        Err(RecordError::EmptyFingerprintComponent("revision"))
    ));
    assert!(matches!(
        EmbeddingFingerprint::new("p", "m", 1).unwrap().with_projection(""),
        Err(RecordError::EmptyFingerprintComponent("projection"))
    ));
    assert!(matches!(
        EmbeddingFingerprint::new("p", "m", 1).unwrap().with_quantization(""),
        Err(RecordError::EmptyFingerprintComponent("quantization"))
    ));
}

#[test]
fn constructor_requires_nested_scope_provenance_and_embedding_identity() {
    let record = record("m:1", 7);
    assert_eq!(record.scope.tenant(), "tenant-a");
    assert_eq!(record.scope.workspace(), "workspace-a");
    assert_eq!(record.scope.agent(), "agent-a");
    assert_eq!(record.provenance[0].source(), "ccos:event-log");
    assert_eq!(record.embedding.provider(), "scirust");
    assert_eq!(record.embedding.dimension(), 768);
    assert!(record.visible_at(0));
}

#[test]
fn lifecycle_is_monotonic_and_separates_delete_from_purge() {
    let mut record = record("m:1", 7);
    record.retention.retain_until_unix_ms = Some(1_000);
    assert!(record.visible_at(500));
    assert_eq!(
        record.tombstone(7),
        Err(RecordError::NonMonotonicGeneration { current: 7, proposed: 7 })
    );
    record.tombstone(8).unwrap();
    assert!(!record.visible_at(500));
    assert!(!record.purgeable_at(999));
    assert!(record.purgeable_at(1_000));
}

#[test]
fn ttl_hides_active_record_without_mutating_status() {
    let mut record = record("m:ttl", 1);
    record.retention.expires_at_unix_ms = Some(10);
    assert!(record.visible_at(9));
    assert!(!record.visible_at(10));
    assert!(record.status.is_active());
}

#[test]
fn upsert_preserves_identity_and_requires_newer_generation() {
    let original = id("stable");
    let mut record = MemoryRecord::new(
        original.clone(),
        b"old".to_vec(),
        scope(),
        provenance(),
        embedding(),
        2,
    );
    record.upsert_payload(b"new".to_vec(), 3).unwrap();
    assert_eq!(record.id, original);
    assert_eq!(record.payload, b"new");
    assert_eq!(record.generation, 3);
    assert!(record.upsert_payload(b"stale".to_vec(), 2).is_err());
}

#[test]
fn supersession_is_explicit_evidence_and_rejects_self_links() {
    let mut record = record("old", 1);
    assert_eq!(
        record.add_relation(RelationKind::Confirms, id("old")),
        Err(RecordError::SelfRelation)
    );
    record.supersede(id("new"), 2).unwrap();
    assert!(matches!(record.status, MemoryStatus::Superseded { .. }));
    assert_eq!(record.relations.len(), 1);
    // The edge lives on the supplanted record and points at the replacement.
    assert_eq!(record.relations[0].kind, RelationKind::SupersededBy);
    assert_eq!(record.relations[0].target, id("new"));
}

#[test]
fn messages_name_what_is_wrong() {
    assert_eq!(RecordError::EmptyId.message(), "memory id must not be empty");
    assert_eq!(
        RecordError::NonMonotonicGeneration { current: 5, proposed: 4 }.message(),
        "record generation must increase monotonically: current=5, proposed=4"
    );
    assert_eq!(
        RecordError::UnknownMemoryId("a\"b".to_string()).message(),
        "no memory record with id \"a\\\"b\""
    );
}

fn stored(id: &str, generation: u64) -> MemoryRecord {
    let mut record = MemoryRecord::new(
        MemoryId::new(id).unwrap(),
        format!("payload-of-{id}").into_bytes(),
        MemoryScope::new("tenant-a", "workspace-a", "agent-a").unwrap(),
        provenance().with_observed_at(1234),
        EmbeddingFingerprint::new("scirust", "sciagent-encoder", 768)
            .unwrap()
            .with_revision("rev-1")
            .unwrap()
            .with_quantization("f32")
            .unwrap(),
        generation,
    );
    record.created_at_unix_ms = Some(100);
    record.causal_region = Some("src/db.rs".into());
    record.sensitivity = Sensitivity::Confidential;
    record.retention.expires_at_unix_ms = Some(2_000);
    record.retention.retain_until_unix_ms = Some(1_500);
    record.add_relation(RelationKind::Confirms, MemoryId::new("m:other").unwrap()).unwrap();
    record
}

#[test]
fn put_get_and_monotonic_upsert_enforcement() {
    let mut store = RecordStore::new();
    assert!(store.is_empty());
    assert!(store.put(stored("m:1", 5)).unwrap().is_none());
    assert_eq!(store.len(), 1);
    assert_eq!(store.get("m:1").unwrap().generation, 5);

    // Same-generation replacement is refused; newer replaces and returns old.
    assert_eq!(
        store.put(stored("m:1", 5)).unwrap_err(),
        RecordError::NonMonotonicGeneration { current: 5, proposed: 5 }
    );
    let old = store.put(stored("m:1", 6)).unwrap().unwrap();
    assert_eq!(old.generation, 5);

    assert_eq!(
        store.tombstone("missing", 9).unwrap_err(),
        RecordError::UnknownMemoryId("missing".into())
    );
}

#[test]
fn visibility_ttl_tombstone_and_purge_accounting() {
    let mut store = RecordStore::new();
    store.put(stored("live", 1)).unwrap();
    let mut expired = stored("expired", 1);
    expired.retention.expires_at_unix_ms = Some(1_000);
    store.put(expired).unwrap();
    let mut dead = stored("dead", 1);
    dead.retention.retain_until_unix_ms = Some(1_000);
    store.put(dead).unwrap();
    store.tombstone("dead", 2).unwrap();

    // The shared helper gives every record a 2_000 TTL expiry and a 1_500 retention floor;
    // 'now' sits between them.
    let now = 1_500;
    assert!(store.is_visible_at("live", now));
    assert!(!store.is_visible_at("expired", now)); // TTL hid it (deadline 1_000)
    assert!(!store.is_visible_at("dead", now)); // tombstoned

    // Unknown ids pass through (plain-index back-compat contract).
    assert!(store.is_visible_at("never-stored", now));

    // 'expired' is still Active, so not purgeable even though its TTL passed; 'dead' is
    // inactive and past both floors, so purgeable.
    assert_eq!(store.purgeable_ids_at(now), vec!["dead".to_string()]);
    assert_eq!(store.purge_purgeable_at(now), 1);
    assert_eq!(store.len(), 2);
    assert!(store.get("dead").is_none());
}

#[test]
fn recs_roundtrip_preserves_every_field() {
    let mut store = RecordStore::new();
    store.put(stored("m:é-1", 3)).unwrap();
    let mut plain = MemoryRecord::new(
        MemoryId::new("m:plain").unwrap(),
        b"p".to_vec(),
        MemoryScope::new("tenant-a", "workspace-a", "agent-b").unwrap(),
        Provenance::new("bare").unwrap(),
        EmbeddingFingerprint::new("scirust", "sciagent-encoder", 4).unwrap(),
        1,
    );
    plain.tombstone(4).unwrap();
    store.put(plain).unwrap();

    let decoded = RecordStore::decode(&store.encode()).unwrap();
    assert_eq!(decoded.len(), store.len());
    for id in ["m:é-1", "m:plain"] {
        assert_eq!(decoded.get(id), store.get(id), "roundtrip mismatch for {id}");
        assert!(decoded.get(id).is_some());
    }
}

#[test]
fn recs_rejects_hostile_counts_magic_and_trailing_bytes() {
    let good = RecordStore::new().encode();
    // Bad magic.
    let mut bad = good.clone();
    bad[0] = b'X';
    assert_eq!(RecordStore::decode(&bad).err().unwrap().kind(), ErrorKind::InvalidData);

    // A hostile record count cannot drive an allocation: the declared minimum per-record
    // footprint must exist in the file first.
    let mut hostile = Vec::new();
    hostile.extend_from_slice(&good[..8]);
    hostile.extend_from_slice(&u64::MAX.to_le_bytes());
    let err = RecordStore::decode(&hostile).err().unwrap();
    assert_eq!(err.kind(), ErrorKind::InvalidData);
    assert!(err.message().contains("RECS records"));

    // Trailing garbage after a valid body is rejected.
    let mut trailing = good.clone();
    trailing.push(0);
    assert!(RecordStore::decode(&trailing).is_err());

    // Truncated mid-record is rejected.
    assert!(RecordStore::decode(&good[..good.len() - 3]).is_err());
}

#[test]
fn every_truncation_of_a_store_is_refused() {
    let mut store = RecordStore::new();
    store.put(stored("m:1", 3)).unwrap();
    let bytes = store.encode();
    for n in 0..bytes.len() {
        let e = RecordStore::decode(&bytes[..n]).err().expect("a cut store was taken");
        assert_eq!(e.kind(), ErrorKind::InvalidData, "{n}: {}", e.message());
        assert!(e.message().starts_with("RECS "), "{n}: {}", e.message());
    }
}

#[test]
fn a_store_that_ends_early_names_its_field() {
    let good = RecordStore::new().encode();
    for (n, field) in [(3, "RECS magic"), (7, "RECS version"), (13, "RECS records")] {
        let e = RecordStore::decode(&good[..n]).err().unwrap();
        assert_eq!(e.kind(), ErrorKind::InvalidData);
        assert!(e.message().starts_with(field), "{}", e.message());
    }
}

#[test]
fn a_filter_without_lifecycle_still_narrows() {
    let mut store = RecordStore::new();
    store.put(stored("m:1", 1)).unwrap();
    store.tombstone("m:1", 5).unwrap();
    let mut any = RecordFilter::at(500);
    assert!(!store.admits("m:1", &any));
    any.lifecycle = false;
    assert!(store.admits("m:1", &any));
    any.clearance = Sensitivity::Internal;
    assert!(!store.admits("m:1", &any));
}

#[test]
fn provenances_gather_in_order() {
    let mut r = record("m:1", 1);
    r.add_provenance(Provenance::new("review").unwrap());
    let sources: Vec<&str> = r.provenance.iter().map(|p| p.source()).collect();
    assert_eq!(sources, vec!["ccos:event-log", "review"]);
    assert_eq!(r.generation, 1);
}

#[test]
fn bytes_behind_a_store_are_refused() {
    let mut store = RecordStore::new();
    store.put(stored("m:1", 3)).unwrap();
    let mut bytes = store.encode();
    bytes.push(0);
    assert!(RecordStore::decode(&bytes).is_err());
}

#[test]
fn filters_narrow_by_scope_and_clearance() {
    let mut store = RecordStore::new();
    store.put(stored("m:1", 1)).unwrap();
    let open = RecordFilter::at(500);
    assert!(store.admits("m:1", &open));
    let mut other = RecordFilter::at(500);
    other.tenant = Some("tenant-b".to_string());
    assert!(!store.admits("m:1", &other));
    let mut low = RecordFilter::at(500);
    low.clearance = Sensitivity::Internal;
    assert!(!store.admits("m:1", &low));
    let mut high = RecordFilter::at(500);
    high.clearance = Sensitivity::Confidential;
    high.tenant = Some("tenant-a".to_string());
    high.workspace = Some("workspace-a".to_string());
    high.agent = Some("agent-a".to_string());
    assert!(store.admits("m:1", &high));
    // What no record speaks of is admitted whatever the filter.
    assert!(store.admits("nowhere", &other));
}

#[test]
fn a_supplanted_record_points_at_its_replacement() {
    let mut store = RecordStore::new();
    store.put(stored("old", 1)).unwrap();
    let mut newer = stored("old", 1);
    newer.supersede(MemoryId::new("new").unwrap(), 2).unwrap();
    store.put(newer).unwrap();
    assert!(!store.is_visible_at("old", 0));
    let r = store.get("old").unwrap();
    assert_eq!(r.relations.last().unwrap().kind, RelationKind::SupersededBy);
    assert_eq!(r.relations.last().unwrap().target.as_str(), "new");
}

#[test]
fn relations_are_added_with_a_newer_generation() {
    let mut store = RecordStore::new();
    store.put(stored("a", 1)).unwrap();
    store.relate("a", RelationKind::Contradicts, "b", 2).unwrap();
    assert_eq!(store.get("a").unwrap().generation, 2);
    assert_eq!(
        store.relate("a", RelationKind::Contradicts, "b", 2).unwrap_err(),
        RecordError::NonMonotonicGeneration { current: 2, proposed: 2 }
    );
    assert_eq!(
        store.relate("a", RelationKind::Confirms, "a", 3).unwrap_err(),
        RecordError::SelfRelation
    );
}
