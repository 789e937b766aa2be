//! The sharded hybrid memory with its record layer, ranked by an exact cosine scan over
//! deterministic vectors.
use octasoma::embed::{check_embedding, HashEmbedder};
use octasoma::hybrid::{
    hits_to_fetch, next_fetch, Entry, Hit, RelatedHit, ShardedHybrid, Traversal,
};
use octasoma::manifest::HybridManifest;
use octasoma::mcp::record_key;
use octasoma::record::{
    EmbeddingFingerprint, MemoryId, MemoryRecord, MemoryScope, Provenance, RelationKind, Sensitivity,
};
use octasoma::record_store::{RecordFilter, RecordStore};
use octasoma::rng::DeterministicRng;
use octasoma::sharded::merge_hits;

fn hashed(text: &str, dim: usize) -> Vec<f32> {
    let mut rng = DeterministicRng::new(HashEmbedder::seed_of(text));
    let mut v: Vec<f32> =
        (0..dim).map(|_| (f32::from_bits(rng.next_unit_bits()) - 1.0) * 2.0 - 1.0).collect();
    let norm: f32 = v.iter().map(|x| x * x).sum::<f32>().sqrt();
    for x in &mut v {
        *x /= norm;
    }
    v
}

/// A memory whose vectors stand beside the library's items, region by region.
struct Memory {
    mem: ShardedHybrid,
    vectors: Vec<(String, Vec<f32>)>,
    dim: usize,
}

impl Memory {
    fn new(dim: usize) -> Memory {
        Memory { mem: ShardedHybrid::new(), vectors: Vec::new(), dim }
    }

    fn insert(&mut self, region: &str, uri: &str, text: &str) {
        self.mem.insert(region, uri.as_bytes().to_vec(), true).unwrap();
        self.vectors.push((region.to_string(), hashed(text, self.dim)));
    }

    fn remember(&mut self, region: &str, record: MemoryRecord, text: &str) -> Result<(), String> {
        self.mem.remember(region, record, true).map_err(|e| e.message())?;
        self.vectors.push((region.to_string(), hashed(text, self.dim)));
        Ok(())
    }

    fn remember_packed(&mut self, region: &str, record: MemoryRecord, text: &str) {
        let payload = format!("{}\u{1f}{text}", record.id.as_str());
        self.mem.remember_with_payload(region, record, payload.into_bytes(), true).unwrap();
        self.vectors.push((region.to_string(), hashed(text, self.dim)));
    }

    /// Every item of a region, the best first.
    fn ranked(&self, region: &str, text: &str) -> Vec<Hit> {
        let q = hashed(text, self.dim);
        let mine = self.vectors.iter().filter(|v| v.0 == region);
        let hits: Vec<Hit> = self
            .mem
            .payloads(region)
            .iter()
            .zip(mine)
            .map(|(p, (_, v))| {
                let payload = String::from_utf8_lossy(p).into_owned();
                let score: f32 = q.iter().zip(v).map(|(a, b)| a * b).sum();
                Hit { key: record_key(&payload), payload, score: score.to_bits() }
            })
            .collect();
        let n = hits.len();
        merge_hits(&hits, n, false)
    }

    fn recall(&self, region: &str, text: &str, k: usize) -> Vec<(String, f32)> {
        self.ranked(region, text)
            .into_iter()
            .take(k)
            .map(|h| (h.payload, f32::from_bits(h.score)))
            .collect()
    }

    fn recall_global(&self, text: &str, k: usize) -> Vec<(String, f32)> {
        let mut all = Vec::new();
        for region in self.mem.region_keys() {
            all.extend(self.ranked(&region, text).into_iter().take(k));
        }
        merge_hits(&all, k, false)
            .into_iter()
            .map(|h| (h.payload, f32::from_bits(h.score)))
            .collect()
    }

    fn visible(&self, region: &str, text: &str, k: usize, now: u64) -> Vec<String> {
        let held = self.mem.payloads(region).len();
        let mut fetched = hits_to_fetch(k, held);
        loop {
            let hits: Vec<Hit> = self.ranked(region, text).into_iter().take(fetched).collect();
            let shown = self.mem.recall_visible(region, k, &hits, now);
            match next_fetch(k, held, fetched, shown.len()) {
                Some(more) => fetched = more,
                None => return shown.into_iter().map(|h| h.key).collect(),
            }
        }
    }

    fn related(
        &self,
        region: &str,
        text: &str,
        k: usize,
        filter: &RecordFilter,
        traversal: Traversal,
    ) -> Vec<RelatedHit> {
        let hits = self.ranked(region, text);
        let entries: Vec<Entry> = self
            .mem
            .payloads(region)
            .iter()
            .map(|p| {
                let payload = String::from_utf8_lossy(p).into_owned();
                Entry { key: record_key(&payload), payload }
            })
            .collect();
        self.mem.recall_related(region, k, &hits, &entries, filter, traversal)
    }

    fn compact_filtered(&mut self, region: &str, filter: &RecordFilter) -> usize {
        let keys: Vec<String> = self
            .mem
            .payloads(region)
            .iter()
            .map(|p| record_key(&String::from_utf8_lossy(p)))
            .collect();
        let kept = self.mem.survivors(&keys, filter);
        let removed = self.mem.compact_filtered(region, &keys, filter, true).unwrap();
        self.drop_vectors(region, &kept);
        removed
    }

    fn compact_region(&mut self, region: &str, now: u64) -> usize {
        let keys: Vec<String> = self
            .mem
            .payloads(region)
            .iter()
            .map(|p| String::from_utf8_lossy(p).into_owned())
            .collect();
        let kept = self.mem.survivors(&keys, &RecordFilter::at(now));
        let removed = self.mem.compact_region(region, now, true).unwrap();
        self.drop_vectors(region, &kept);
        removed
    }

    fn drop_vectors(&mut self, region: &str, kept: &[usize]) {
        let mut at = 0;
        self.vectors.retain(|v| {
            if v.0 != region {
                return true;
            }
            at += 1;
            kept.contains(&(at - 1))
        });
    }
}

fn demo_record(id: &str, generation: u64) -> MemoryRecord {
    MemoryRecord::new(
        MemoryId::new(id).unwrap(),
        b"ignored".to_vec(),
        MemoryScope::new("tenant", "workspace", "agent").unwrap(),
        Provenance::new("test-suite").unwrap(),
        EmbeddingFingerprint::new("scirust", "hash-embedder", 128).unwrap(),
        generation,
    )
}

fn scoped(id: &str, generation: u64, tenant: &str) -> MemoryRecord {
    let mut r = demo_record(id, generation);
    r.scope = MemoryScope::new(tenant, "w", "a").unwrap();
    r
}

#[test]
fn sharded_hybrid_rejects_malformed_embeddings_without_reporting_success() {
    // An embedding of the wrong length is refused before anything is stored.
    assert!(check_embedding(4, 3, true).is_err());
    let mut wrong = ShardedHybrid::new();
    let accepted = check_embedding(4, 3, true).is_ok();
    assert!(wrong.insert("r", b"u".to_vec(), accepted).is_err());
    assert!(wrong.is_empty());
    assert_eq!(wrong.regions(), 0);

    // So is one with a component that is no number.
    assert!(check_embedding(3, 3, false).is_err());
    let mut non_finite = ShardedHybrid::new();
    let accepted = check_embedding(3, 3, false).is_ok();
    assert!(non_finite.insert("r", b"u".to_vec(), accepted).is_err());
    assert!(non_finite.is_empty());
    assert_eq!(non_finite.regions(), 0);
    assert!(check_embedding(3, 3, true).is_ok());
}

#[test]
fn global_recall_matches_per_shard_precision_results_with_shared_query_sketch() {
    let mut mem = Memory::new(32);
    mem.insert("a", "a:alpha", "alpha durable memory");
    mem.insert("b", "b:beta", "beta durable memory");
    mem.insert("c", "c:gamma", "gamma durable memory");

    let global = mem.recall_global("beta durable memory", 3);
    assert_eq!(global.len(), 3);
    assert_eq!(global[0].0, "b:beta");

    let mut manual = Vec::new();
    for region in ["a", "b", "c"] {
        manual.extend(mem.recall(region, "beta durable memory", 3));
    }
    manual.sort_by(|a, b| b.1.total_cmp(&a.1));
    manual.truncate(3);
    assert_eq!(global, manual);
}

#[test]
fn sharded_hybrid_precise_per_region() {
    let mut m = Memory::new(128);
    m.insert("src/db.rs", "sym:src/db.rs:query", "build and run SQL queries");
    m.insert("src/db.rs", "sym:src/db.rs:pool", "a pool of db connections");
    m.insert("src/auth.rs", "sym:src/auth.rs:login", "authenticate a user");
    assert_eq!(m.mem.regions(), 2);
    assert_eq!(m.mem.len(), 3);

    let hits = m.recall("src/db.rs", "a pool of db connections", 1);
    assert_eq!(hits[0].0, "sym:src/db.rs:pool");
    assert!(hits[0].1 > 0.99);
    // Scoped: the auth region never surfaces a db node.
    let auth = m.recall("src/auth.rs", "a pool of db connections", 5);
    assert!(auth.iter().all(|(u, _)| !u.starts_with("sym:src/db.rs:")));
    // Unknown region is empty.
    assert!(m.recall("nope", "x", 3).is_empty());
    assert!(!m.mem.has_region("nope"));
}

#[test]
fn remember_and_recall_visible_filter_tombstones_ttl_and_supersession() {
    let mut m = Memory::new(128);
    let now: u64 = 10_000;

    let mut ttl = demo_record("sym:r:ttl", 1);
    ttl.retention.expires_at_unix_ms = Some(5_000); // already past
    let mut fresh = demo_record("sym:r:fresh", 1);
    fresh.retention.expires_at_unix_ms = Some(50_000);

    m.remember("r", demo_record("sym:r:tombstoned", 1), "a doomed fact about octrees").unwrap();
    m.remember("r", ttl, "an expiring fact about octrees").unwrap();
    m.remember("r", fresh, "a durable fact about octrees").unwrap();
    m.insert("r", "sym:r:plain", "a plain payload without a record");
    assert_eq!(m.mem.records_len(), 3);

    // The tombstoned id is hidden; plain payloads and the live record show.
    m.mem.tombstone("sym:r:tombstoned", 2).unwrap();
    let uris = m.visible("r", "a fact about octrees", 10, now);
    assert!(uris.contains(&"sym:r:fresh".to_string()));
    assert!(uris.contains(&"sym:r:plain".to_string()));
    assert!(!uris.contains(&"sym:r:tombstoned".to_string()), "tombstone leaked: {uris:?}");
    assert!(!uris.contains(&"sym:r:ttl".to_string()), "expired record leaked: {uris:?}");

    // Non-monotonic writes are refused before anything changes.
    assert!(m.remember("r", demo_record("sym:r:fresh", 1), "stale rewrite").is_err());
    assert_eq!(m.mem.region_len("r"), 4);

    // Purge removes only inactive records past their retention floor.
    let removed = m.mem.purge_purgeable_at(now);
    assert_eq!(removed, 1); // the tombstoned one (no retention floor)
    assert!(m.mem.record("sym:r:tombstoned").is_none());
    assert!(m.mem.record("sym:r:fresh").is_some());
}

#[test]
fn compact_region_reclaims_hidden_items_and_allows_resurrection() {
    let now: u64 = 10_000;
    let mut m = Memory::new(128);

    let mut doomed = demo_record("sym:r:doomed", 1);
    doomed.retention.retain_until_unix_ms = Some(500); // floor already passed
    let mut kept = demo_record("sym:r:kept", 1);
    kept.retention.expires_at_unix_ms = Some(50_000);

    m.remember("r", doomed, "a doomed fact about octrees").unwrap();
    m.remember("r", kept, "a durable fact about octrees").unwrap();
    m.insert("r", "sym:r:plain", "a plain payload without a record");

    m.mem.tombstone("sym:r:doomed", 2).unwrap();
    assert!(m.visible("r", "fact about octrees", 10, now).iter().all(|u| u != "sym:r:doomed"));

    // Compaction reclaims exactly the hidden index entry.
    assert_eq!(m.compact_region("r", now), 1);
    assert_eq!(m.mem.region_len("r"), 2);
    let uris = m.visible("r", "fact about octrees", 10, now);
    assert!(uris.contains(&"sym:r:kept".to_string()));
    assert!(uris.contains(&"sym:r:plain".to_string()));

    // Resurrection is explicit and re-indexes the record.
    let revived = demo_record("sym:r:doomed", 3);
    m.remember("r", revived, "the same fact, reinstated").unwrap();
    assert_eq!(m.mem.region_len("r"), 3);
    assert!(m.visible("r", "reinstated fact", 5, now).iter().any(|u| u == "sym:r:doomed"));

    // Unknown regions are a no-op; emptying a region removes it.
    assert_eq!(m.compact_region("nope", now), 0);
    for id in ["sym:r:doomed", "sym:r:kept"] {
        m.mem.tombstone(id, 9).unwrap();
    }
    assert_eq!(m.compact_region("r", now), 2);
    assert_eq!(m.mem.region_len("r"), 1);
}

#[test]
fn relation_expansion_traverses_without_leaking_across_scopes() {
    let mut m = Memory::new(128);
    let now: u64 = 10_000;

    m.remember_packed("r", scoped("sym:g:new", 2, "acme"), "the new corrected fact");
    m.remember_packed("r", demo_record("sym:g:stale", 1), "the old wrong fact");
    m.remember_packed("r", scoped("sym:g:foreign", 1, "other-co"), "another company fact");

    m.mem.tombstone("sym:g:stale", 3).unwrap();
    m.mem.relate("sym:g:new", RelationKind::Supersedes, "sym:g:stale", 3).unwrap();
    m.mem.relate("sym:g:new", RelationKind::Confirms, "sym:g:foreign", 4).unwrap();

    // Direct recall under the acme-scoped tombstone filter sees only the live record.
    let mut filter = RecordFilter::at(now);
    filter.tenant = Some("acme".to_string());
    let hits =
        m.related("r", "corrected fact", 5, &filter, Traversal { hops: 0, max_expanded: 8 });
    assert_eq!(hits.len(), 1);
    assert_eq!(hits[0].hop, 0);

    // Expansion from it cannot follow Supersedes to the hidden stale record nor Confirms
    // into the foreign tenant: the filter blocks both.
    let hits =
        m.related("r", "corrected fact", 5, &filter, Traversal { hops: 2, max_expanded: 8 });
    assert!(hits.iter().all(|hit| hit.hop == 0), "hidden or foreign target expanded");

    // From the other direction: relate two live same-tenant records and expand across them.
    m.remember_packed(
        "r",
        scoped("sym:g:evidence", 1, "acme"),
        "supporting evidence for the fact",
    );
    m.mem.relate("sym:g:new", RelationKind::Confirms, "sym:g:evidence", 5).unwrap();

    // Expansion from the anchor alone (k=1): evidence must arrive as a hop-1 row carrying
    // the parent's cosine and the edge metadata.
    let hits = m.related("r", "the new corrected fact", 1, &filter, Traversal::default());
    assert_eq!(hits.len(), 2, "expected direct + one expansion");
    let expanded = &hits[1];
    assert_eq!(expanded.hop, 1);
    assert_eq!(expanded.score, hits[0].score);
    assert_eq!(expanded.via_kind, Some(RelationKind::Confirms));
    assert_eq!(expanded.via_from.as_deref(), Some("sym:g:new"));
    assert!(expanded.payload.starts_with("sym:g:evidence"), "wrong expansion target");

    // The foreign tenant's record must never appear, even though the edge
    // Confirms --> sym:g:foreign exists on the same anchor.
    assert!(!hits.iter().any(|hit| hit.payload.contains("foreign")));

    // Budget cap: with max_expanded=0 nothing is appended.
    let hits =
        m.related("r", "the new corrected fact", 1, &filter, Traversal { hops: 1, max_expanded: 0 });
    assert_eq!(hits.len(), 1);

    // Dangling targets are refused at relate() time.
    assert!(m.mem.relate("sym:g:new", RelationKind::Contradicts, "sym:g:missing", 9).is_err());
}

#[test]
fn scoped_recall_hides_other_tenants_and_clearance_gates_sensitivity() {
    let mut m = Memory::new(128);
    let now: u64 = 10_000;

    let mut acme = demo_record("sym:r:acme", 1);
    acme.scope = MemoryScope::new("acme", "platform", "coder").unwrap();
    acme.sensitivity = Sensitivity::Internal;
    let mut other = demo_record("sym:r:other", 1);
    other.scope = MemoryScope::new("other-co", "platform", "coder").unwrap();
    let mut secret = demo_record("sym:r:secret", 1);
    secret.sensitivity = Sensitivity::Restricted;

    m.remember_packed("r", acme, "acme internal fact");
    m.remember_packed("r", other, "another company fact");
    m.remember_packed("r", secret, "a restricted fact");

    let uris = |m: &Memory, text: &str, filter: &RecordFilter| -> Vec<String> {
        let hits = m.ranked("r", text);
        m.mem.recall_filtered("r", 10, &hits, filter).into_iter().map(|h| h.key).collect()
    };

    // Tenant scoping hides the other company's record entirely.
    let mut acme_filter = RecordFilter::at(now);
    acme_filter.tenant = Some("acme".to_string());
    let got = uris(&m, "company fact", &acme_filter);
    assert!(got.contains(&"sym:r:acme".to_string()), "{got:?}");
    assert!(!got.contains(&"sym:r:other".to_string()), "tenant leak: {got:?}");

    // Clearance gating: an Internal-cleared query must not see the Restricted record.
    let mut internal_only = RecordFilter::at(now);
    internal_only.clearance = Sensitivity::Internal;
    let got = uris(&m, "restricted fact", &internal_only);
    assert!(!got.contains(&"sym:r:secret".to_string()), "clearance leak: {got:?}");

    // The compaction contract: compacting under the Internal-clearance filter reclaims
    // exactly the Restricted entry and nothing else.
    let reclaimed = m.compact_filtered("r", &internal_only);
    assert_eq!(reclaimed, 1);
    assert_eq!(m.mem.region_len("r"), 2);
    // A full-clearance recall afterwards still sees both survivors.
    assert_eq!(m.visible("r", "fact", 10, now).len(), 2);
}

#[test]
fn an_index_that_cannot_be_rebuilt_leaves_the_region_alone() {
    let mut m = Memory::new(16);
    m.remember("r", demo_record("gone", 1), "gone").unwrap();
    m.remember("r", demo_record("here", 1), "here").unwrap();
    m.mem.tombstone("gone", 2).unwrap();
    assert!(m.mem.compact_region("r", 5, false).is_err());
    assert_eq!(m.mem.region_len("r"), 2);
}

#[test]
fn sharded_hybrid_records_survive_an_encoded_roundtrip() {
    let mut m = Memory::new(128);
    m.remember("src/db.rs", demo_record("sym:src/db.rs:pool", 1), "a pool").unwrap();
    m.insert("src/auth.rs", "sym:src/auth.rs:login", "authenticate a user");
    let manifest = m.mem.manifest(128, 42, 256);
    let bytes = manifest.encode();
    let back = HybridManifest::decode(&bytes, 128).unwrap();
    assert_eq!(back.regions, m.mem.region_keys());
    assert!(back.has_records);
    assert!(HybridManifest::decode(&bytes, 64).is_err());

    let records = RecordStore::decode(&m.mem.records().encode()).unwrap();
    let mut again = ShardedHybrid::new();
    for region in &back.regions {
        for payload in m.mem.payloads(region) {
            again.insert(region, payload, true).unwrap();
        }
    }
    again.set_records(records);
    assert_eq!(again.len(), m.mem.len());
    assert_eq!(again.regions(), 2);
    assert_eq!(again.record("sym:src/db.rs:pool").unwrap().generation, 1);
}

#[test]
fn every_expanded_row_is_new_and_comes_from_an_earlier_one() {
    let mut m = Memory::new(64);
    for id in ["a", "b", "c", "d"] {
        m.remember_packed("r", demo_record(id, 1), id);
    }
    // a leads to b and c, b to c and a, c to d.
    let edges = [("a", "b", 2), ("a", "c", 3), ("b", "c", 2), ("b", "a", 3), ("c", "d", 2)];
    for (from, to, generation) in edges {
        m.mem.relate(from, RelationKind::Confirms, to, generation).unwrap();
    }
    let filter = RecordFilter::at(10);
    let rows = m.related("r", "a", 1, &filter, Traversal { hops: 2, max_expanded: 8 });
    let keys: Vec<&str> = rows.iter().map(|r| r.key.as_str()).collect();
    assert_eq!(keys, vec!["a", "b", "c", "d"]);
    assert_eq!(rows.iter().map(|r| r.hop).collect::<Vec<_>>(), vec![0, 1, 1, 2]);
    for (i, row) in rows.iter().enumerate().skip(1) {
        let from = row.via_from.as_deref().unwrap();
        let source = rows[..i].iter().find(|r| r.key == from).unwrap();
        assert_eq!(source.score, row.score);
        assert_eq!(source.hop + 1, row.hop);
        assert!(m.mem.payloads("r").iter().any(|p| p.as_slice() == row.payload.as_bytes()));
    }
}

#[test]
fn hidden_entries_do_not_shrink_a_recall() {
    let mut m = Memory::new(32);
    for i in 0..12 {
        m.remember("r", demo_record(&format!("m:{i}"), 1), &format!("text {i}")).unwrap();
    }
    // The eleven nearest are hidden: the first fetch shows none of the region.
    let ranked = m.ranked("r", "query");
    for h in &ranked[..11] {
        m.mem.tombstone(&h.key, 2).unwrap();
    }
    assert_eq!(hits_to_fetch(1, 12), 11);
    let first: Vec<Hit> = m.ranked("r", "query").into_iter().take(11).collect();
    assert!(m.mem.recall_visible("r", 1, &first, 10).is_empty());
    assert_eq!(next_fetch(1, 12, 11, 0), Some(12));
    assert_eq!(m.visible("r", "query", 1, 10), vec![ranked[11].key.clone()]);
    assert_eq!(m.visible("r", "query", 5, 10).len(), 1);

    assert_eq!(next_fetch(1, 12, 11, 1), None);
    assert_eq!(next_fetch(1, 12, 12, 0), None);
    assert_eq!(next_fetch(4, 1_000, 20, 3), Some(68));
    assert_eq!(next_fetch(4, usize::MAX, usize::MAX - 1, 3), Some(usize::MAX));
}
