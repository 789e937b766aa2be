//! Published generations of a store, with directories and files held in memory.
use octasoma::error::ErrorKind;
use octasoma::generation;
use octasoma::generation::{EntryKind, GenerationStore, PointerEntry};
use octasoma::generation_fingerprint::GenerationFingerprint;
use octasoma::generation_store;
use octasoma::generation_store::{generation_name, OpenSource, Publication};

// -- pointer files -------------------------------------------------------------------------

fn fingerprint() -> generation::GenerationFingerprint {
    generation::GenerationFingerprint::canonical("hash:4", "jl:seed=7", "f32", "simhash:64")
}

struct Generations {
    published: Vec<generation::Publication>,
    tree: Vec<u8>,
    sketch: Vec<u8>,
}

impl Generations {
    fn new() -> Generations {
        Generations { published: Vec::new(), tree: b"tree".to_vec(), sketch: b"sketch".to_vec() }
    }

    fn entries(&self) -> Vec<PointerEntry> {
        self.published
            .iter()
            .map(|p| PointerEntry { name: Some(p.pointer.clone()), kind: EntryKind::File })
            .collect()
    }

    fn save(&mut self, number: u64) -> Result<(), String> {
        let p = GenerationStore::save(
            &self.entries(),
            number,
            4,
            &fingerprint(),
            &self.tree,
            &self.sketch,
        )
        .map_err(|e| e.message().to_string())?;
        self.published.push(p);
        Ok(())
    }

    fn open(
        &self,
        expected: &generation::GenerationFingerprint,
    ) -> Result<generation::GenerationManifest, String> {
        let number =
            GenerationStore::current_generation(&self.entries()).map_err(|e| e.message().to_string())?;
        let p = self.published.iter().find(|p| p.manifest.generation == number).unwrap();
        GenerationStore::open_current(
            &self.entries(),
            &p.pointer_bytes,
            &p.manifest_bytes,
            &self.tree,
            &self.sketch,
            4,
            expected,
        )
        .map_err(|e| e.message().to_string())
    }
}

#[test]
fn round_trip_and_newest_pointer_wins() {
    let mut g = Generations::new();
    g.save(1).unwrap();
    g.save(2).unwrap();
    let opened = g.open(&fingerprint()).unwrap();
    assert_eq!(opened.generation, 2);
    assert_eq!(opened.dim, 4);
    assert!(g.save(2).is_err());
    assert!(g.save(0).is_err());
}

#[test]
fn orphan_generation_without_pointer_is_ignored() {
    let mut g = Generations::new();
    g.save(4).unwrap();
    // A directory for generation 5 exists, but nothing points at it.
    assert_eq!(generation::generation_dir_name(5).len(), generation::generation_dir_name(4).len());
    assert_eq!(g.open(&fingerprint()).unwrap().generation, 4);
}

#[test]
fn component_corruption_is_detected_before_open() {
    let mut g = Generations::new();
    g.save(8).unwrap();
    g.tree.extend_from_slice(b"corruption");
    let error = g.open(&fingerprint()).unwrap_err();
    assert!(error.contains("tree.frac SHA-256 mismatch"), "{error}");
    g.tree = b"tree".to_vec();
    g.sketch.push(0);
    let error = g.open(&fingerprint()).unwrap_err();
    assert!(error.contains("index.skch SHA-256 mismatch"), "{error}");
}

#[test]
fn published_manifest_corruption_never_falls_back() {
    let mut g = Generations::new();
    g.save(10).unwrap();
    g.save(11).unwrap();
    g.published[1].manifest_bytes.push(b'x');
    assert!(g.open(&fingerprint()).is_err());
}

#[test]
fn interpretation_fingerprint_must_match_exactly() {
    let mut g = Generations::new();
    g.save(3).unwrap();
    let mut wrong = fingerprint();
    wrong.embedding = "other-model".into();
    assert!(g.open(&wrong).is_err());
}

#[test]
fn pointer_directories_hold_pointer_files_only() {
    let odd = |name: Option<&str>, kind: EntryKind| {
        vec![PointerEntry { name: name.map(str::to_string), kind }]
    };
    let good = generation::pointer_file_name(7);
    assert_eq!(
        generation::latest_published_generation(&odd(Some(&good), EntryKind::File)).unwrap(),
        Some(7)
    );
    assert!(generation::latest_published_generation(&odd(Some(&good), EntryKind::Symlink)).is_err());
    assert!(GenerationStore::current_generation(&[]).is_err());
    assert_eq!(generation::latest_published_generation(&[]).unwrap(), None);
}

#[test]
fn encoded_manifests_and_pointers_come_back() {
    let mut g = Generations::new();
    g.save(6).unwrap();
    let p = &g.published[0];
    let m = generation::decode_manifest(&p.manifest_bytes).unwrap();
    assert_eq!(m.generation, 6);
    assert_eq!(m.tree_sha256, p.manifest.tree_sha256);
    assert!(m.fingerprint.same_as(&fingerprint()));
    let at = generation::decode_pointer(&p.pointer_bytes).unwrap();
    assert_eq!(at.generation, 6);
    // The pointer holds the digest of the manifest.
    assert_eq!(
        octasoma::digest::to_hex(&at.manifest_sha256),
        octasoma::digest::hash_bytes(&p.manifest_bytes)
    );
    assert!(generation::decode_manifest(&p.manifest_bytes[1..]).is_err());
    // Neither is taken cut, nor with bytes behind it.
    for n in 0..p.manifest_bytes.len() {
        let e = generation::decode_manifest(&p.manifest_bytes[..n]).err().unwrap();
        assert_eq!(e.kind(), ErrorKind::InvalidData, "{n}: {}", e.message());
    }
    for n in 0..p.pointer_bytes.len() {
        let e = generation::decode_pointer(&p.pointer_bytes[..n]).err().unwrap();
        assert_eq!(e.kind(), ErrorKind::InvalidData, "{n}: {}", e.message());
    }
    let longer: Vec<u8> = p.manifest_bytes.iter().copied().chain([0]).collect();
    let e = generation::decode_manifest(&longer).err().unwrap();
    assert_eq!(e.kind(), ErrorKind::InvalidData);
    let longer: Vec<u8> = p.pointer_bytes.iter().copied().chain([0]).collect();
    assert_eq!(generation::decode_pointer(&longer).err().unwrap().kind(), ErrorKind::InvalidData);
    assert!(generation::decode_pointer(&p.manifest_bytes).is_err());
}

#[test]
fn digests_are_those_of_the_standard() {
    assert_eq!(
        octasoma::digest::hash_bytes(b""),
        "e3b0c44298fc1c149afbf4c8996fb92427ae41e4649b934ca495991b7852b855"
    );
    assert_eq!(
        octasoma::digest::hash_bytes(b"abc"),
        "ba7816bf8f01cfea414140de5dae2223b00361a396177a9cb410ff61f20015ad"
    );
}

// -- text manifests ------------------------------------------------------------------------

struct Store {
    published: Vec<Publication>,
    current: Option<String>,
    tree: Vec<u8>,
    sketch: Vec<u8>,
    others: Vec<String>,
}

impl Store {
    fn new() -> Store {
        Store {
            published: Vec::new(),
            current: None,
            tree: b"tree".to_vec(),
            sketch: b"sketch".to_vec(),
            others: Vec::new(),
        }
    }

    fn names(&self) -> Vec<String> {
        let mut names: Vec<String> = self.published.iter().map(|p| p.name.clone()).collect();
        names.extend(self.others.iter().cloned());
        names
    }

    fn save(&mut self, items: usize, shortlist: usize, f: Option<&GenerationFingerprint>) {
        let p = generation_store::save(
            &self.names(),
            4,
            items,
            shortlist,
            "0.1.0",
            f,
            &self.tree,
            &self.sketch,
        )
        .unwrap();
        self.current = Some(p.current.clone());
        self.published.push(p);
    }

    fn open(
        &self,
        f: Option<&GenerationFingerprint>,
    ) -> Result<generation_store::Manifest, (ErrorKind, String)> {
        let fail = |e: octasoma::error::StoreError| (e.kind(), e.message().to_string());
        generation_store::open_source(self.current.is_some(), false, &self.names(), f.is_some())
            .map_err(fail)?;
        let current = self.current.as_ref().unwrap();
        let (name, _) = generation_store::parse_current(current).map_err(fail)?;
        let p = self.published.iter().find(|p| p.name == name).unwrap();
        generation_store::open(current, &p.manifest_text, &self.tree, &self.sketch, 4, f)
            .map_err(fail)
    }

    fn prune(&mut self, keep: usize) -> Result<usize, ErrorKind> {
        let gone = generation_store::prune_generations(&self.names(), self.current.as_deref(), keep)
            .map_err(|e| e.kind())?;
        self.published.retain(|p| !gone.contains(&p.manifest.generation));
        self.others.retain(|n| {
            !gone.contains(&generation_store::parse_generation_name(n).unwrap_or(0))
        });
        Ok(gone.len())
    }
}

#[test]
fn successive_saves_publish_one_complete_latest_generation() {
    let mut s = Store::new();
    s.save(1, 17, None);
    s.save(2, 17, None);
    let reopened = s.open(None).unwrap();
    assert_eq!(reopened.items, 2);
    assert_eq!(reopened.default_shortlist, 17);
    assert!(s.current.as_ref().unwrap().contains("generation-00000000000000000002"));
}

#[test]
fn missing_current_never_promotes_an_unpublished_generation() {
    let mut s = Store::new();
    s.save(1, 23, None);
    s.current = None;
    s.others.push(".generation-99999999999999999999-dead.tmp".to_string());
    let err = s.open(None).err().expect("generation without CURRENT was silently promoted");
    assert_eq!(err.0, ErrorKind::InvalidData);
    assert!(err.1.contains("no published CURRENT"), "{}", err.1);
}

#[test]
fn orphan_generation_does_not_override_the_published_pointer() {
    let mut s = Store::new();
    s.save(1, 29, None);
    s.others.push(generation_name(2));
    let reopened = s.open(None).unwrap();
    assert_eq!(reopened.items, 1);
    assert_eq!(reopened.default_shortlist, 29);
    // The next save passes over the number of the orphan.
    s.save(1, 29, None);
    assert_eq!(s.published[1].name, generation_name(3));
}

#[test]
fn component_corruption_is_rejected_before_deserialisation() {
    let mut s = Store::new();
    s.save(1, 31, None);
    s.tree.extend_from_slice(b"corruption");
    let err = s.open(None).err().expect("corrupt generation unexpectedly opened");
    assert_eq!(err.0, ErrorKind::InvalidData);
    assert!(err.1.contains("SHA-256 mismatch"), "{}", err.1);
}

#[test]
fn a_store_of_two_files_is_read_as_a_legacy_one() {
    assert!(matches!(
        generation_store::open_source(false, false, &[], false),
        Ok(OpenSource::Legacy)
    ));
    assert!(matches!(
        generation_store::open_source(true, true, &[], false),
        Ok(OpenSource::Current)
    ));
    assert!(matches!(
        generation_store::open_source(false, true, &[], false),
        Ok(OpenSource::Previous)
    ));
    // What must match a fingerprint is never taken from a legacy store.
    assert!(generation_store::open_source(false, false, &[], true).is_err());
}

#[test]
fn current_rejects_path_traversal_and_manifest_tampering() {
    let mut s = Store::new();
    s.save(1, 13, None);
    let escape = format!(
        "{}\ngeneration=../escape\nmanifest_sha256={}\n",
        generation_store::CURRENT_MAGIC,
        "0".repeat(64)
    );
    assert!(generation_store::parse_current(&escape).is_err());

    let p = &mut s.published[0];
    p.manifest_text = p.manifest_text.replace("default_shortlist=13", "default_shortlist=14");
    let err = s.open(None).err().expect("tampered manifest unexpectedly opened");
    assert_eq!(err.0, ErrorKind::InvalidData);
    assert!(err.1.contains("manifest hash"), "{}", err.1);
}

#[test]
fn strict_fingerprint_roundtrip_and_mismatch_rejection() {
    let mut s = Store::new();
    let bound = || {
        GenerationFingerprint::canonical("embed:test:v1", "jl:seed=42", "f32", "simhash:64")
            .with_calibration("rcps:sha256:abc123")
    };
    s.save(1, 41, Some(&bound()));
    let reopened = s.open(Some(&bound())).unwrap();
    assert_eq!(reopened.items, 1);
    assert_eq!(reopened.default_shortlist, 41);

    let mut wrong = bound();
    wrong.embedding = "embed:test:v2".into();
    let err = s.open(Some(&wrong)).err().expect("mismatched interpretation unexpectedly opened");
    assert_eq!(err.0, ErrorKind::InvalidData);
    assert!(err.1.contains("interpretation fingerprint mismatch"), "{}", err.1);
    assert_eq!(s.open(None).unwrap().items, 1);
}

#[test]
fn strict_fingerprint_open_refuses_unbound_generation() {
    let mut s = Store::new();
    s.save(1, 43, None);
    let f = GenerationFingerprint::canonical("embed:test:v1", "jl:seed=42", "f32", "simhash:64");
    let err = s.open(Some(&f)).err().expect("unbound generation unexpectedly opened strictly");
    assert_eq!(err.0, ErrorKind::InvalidData);
    assert!(err.1.contains("unbound generation"), "{}", err.1);
}

#[test]
fn prune_keeps_the_newest_window_and_reopens_cleanly() {
    let mut s = Store::new();
    for round in 0..3usize {
        s.save(round + 2, 7, None);
    }
    assert_eq!(s.published.len(), 3);
    assert_eq!(s.prune(2).unwrap(), 1);
    let remaining = s.names();
    assert_eq!(remaining.len(), 2);
    assert!(remaining.contains(&generation_name(3)));
    assert!(remaining.contains(&generation_name(2)));
    assert_eq!(s.open(None).unwrap().items, 4);
}

#[test]
fn prune_refuses_without_a_published_pointer_or_zero_keep() {
    let mut s = Store::new();
    s.save(1, 11, None);
    assert_eq!(s.prune(0).err().unwrap(), ErrorKind::InvalidData);
    s.current = None;
    assert_eq!(s.prune(2).expect_err("pruned without CURRENT"), ErrorKind::InvalidData);
    // Nothing was touched.
    assert_eq!(s.names(), vec![generation_name(1)]);
}

#[test]
fn prune_always_preserves_the_generation_current_points_at() {
    let mut s = Store::new();
    s.save(1, 13, None);
    s.save(2, 13, None);
    // An unpublished newer generation.
    s.others.push(generation_name(3));
    // keep=1: the newest window holds only generation 3, but CURRENT names generation 2:
    // both survive, generation 1 goes.
    assert_eq!(s.prune(1).unwrap(), 1);
    let names = s.names();
    assert!(!names.contains(&generation_name(1)));
    assert!(names.contains(&generation_name(2)));
    assert!(names.contains(&generation_name(3)));
    assert_eq!(s.open(None).unwrap().items, 2);
}

#[test]
fn manifests_of_both_versions_come_back() {
    let mut s = Store::new();
    s.save(3, 5, None);
    let plain = &s.published[0].manifest_text;
    assert!(plain.starts_with(generation_store::MANIFEST_MAGIC_V1));
    let back = generation_store::parse_manifest(plain).unwrap();
    assert_eq!((back.generation, back.dim, back.items, back.default_shortlist), (1, 4, 3, 5));
    assert!(back.fingerprint.is_none());

    let f = GenerationFingerprint::canonical("e", "p", "q", "i");
    s.save(3, 5, Some(&f));
    let bound = &s.published[1].manifest_text;
    assert!(bound.starts_with(generation_store::MANIFEST_MAGIC_V2));
    let back = generation_store::parse_manifest(bound).unwrap();
    assert!(back.fingerprint.unwrap().same_as(&f));

    assert!(generation_store::parse_manifest("").is_err());
    assert!(generation_store::verify_items(&s.published[0].manifest, 3, 3).is_ok());
    assert!(generation_store::verify_items(&s.published[0].manifest, 3, 2).is_err());
    assert!(generation_store::check_small_size(513, 512, "CURRENT").is_err());
    assert!(generation_store::read_small_text(vec![0xff], 512, "CURRENT").is_err());
    assert_eq!(generation_store::read_small_text(b"ok".to_vec(), 512, "CURRENT").unwrap(), "ok");
}
