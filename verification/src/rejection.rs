//! What the readers refuse, they refuse as invalid data: no rejection is any other kind of
//! error, wherever the bytes end or go wrong.
use crate::error::ErrorKind;
use crate::fileguard;
use crate::fileguard::Parsed;
use crate::frac;
use crate::generation;
use crate::generation_fingerprint;
use crate::manifest;
use crate::record;
use crate::record_codec as codec;
use crate::record_store;
use vstd::prelude::*;

verus! {

/// An error, if there is one, is one of invalid data.
pub open spec fn clean<T>(r: Result<T, crate::error::ErrorView>) -> bool {
    r matches Err(e) ==> e.kind == ErrorKind::InvalidData
}

proof fn lemma_provenances(n: nat, s: Seq<u8>)
    ensures
        clean(codec::get_provenance_items(n, s)),
    decreases n,
{
    if n > 0 {
        reveal(codec::get_provenance);
        if codec::get_provenance(s) is Ok {
            lemma_provenances((n - 1) as nat, codec::get_provenance(s)->Ok_0.1);
        }
    }
}

proof fn lemma_relations(n: nat, s: Seq<u8>)
    ensures
        clean(codec::get_relation_items(n, s)),
    decreases n,
{
    if n > 0 {
        reveal(codec::get_relation);
        if codec::get_relation(s) is Ok {
            lemma_relations((n - 1) as nat, codec::get_relation(s)->Ok_0.1);
        }
    }
}

broadcast proof fn lemma_head(s: Seq<u8>)
    ensures
        clean(#[trigger] codec::get_head(s)),
{
    reveal(codec::get_head);
}

broadcast proof fn lemma_provenance_list(s: Seq<u8>)
    ensures
        clean(#[trigger] codec::get_provenances(s)),
{
    reveal(codec::get_provenances);
    if fileguard::get_u32("RECS provenances"@, s) is Ok {
        let (n, rest) = fileguard::get_u32("RECS provenances"@, s)->Ok_0;
        lemma_provenances(n as nat, rest);
    }
}

broadcast proof fn lemma_relation_list(s: Seq<u8>)
    ensures
        clean(#[trigger] codec::get_relations(s)),
{
    reveal(codec::get_relations);
    if fileguard::get_u32("RECS relations"@, s) is Ok {
        let (n, rest) = fileguard::get_u32("RECS relations"@, s)->Ok_0;
        lemma_relations(n as nat, rest);
    }
}

broadcast proof fn lemma_life(s: Seq<u8>)
    ensures
        clean(#[trigger] codec::get_life(s)),
{
    reveal(codec::get_life);
}

broadcast proof fn lemma_fingerprint(s: Seq<u8>)
    ensures
        clean(#[trigger] codec::get_fingerprint(s)),
{
    reveal(codec::get_fingerprint);
    reveal(codec::get_fingerprint_tail);
}

broadcast proof fn lemma_record(s: Seq<u8>)
    ensures
        clean(#[trigger] codec::get_record(s)),
{
    broadcast use {
        lemma_head,
        lemma_provenance_list,
        lemma_relation_list,
        lemma_life,
        lemma_fingerprint,
    };

    reveal(codec::get_record);
}

proof fn lemma_records(n: nat, m: Map<Seq<char>, record::RecordView>, s: Seq<u8>)
    ensures
        clean(record_store::get_records(n, m, s)),
    decreases n,
{
    if n > 0 {
        lemma_record(s);
        if codec::get_record(s) is Ok {
            let (r, rest) = codec::get_record(s)->Ok_0;
            if record_store::put_outcome(m, r) is Ok {
                lemma_records((n - 1) as nat, record_store::put_outcome(m, r)->Ok_0, rest);
            }
        }
    }
}

/// Bytes that are no record store are invalid data.
pub proof fn law_store_rejections_are_clean(bytes: Seq<u8>)
    ensures
        clean(record_store::decoded_store(bytes)),
{
    if fileguard::get_u32("RECS version"@, bytes.skip(4)) is Ok {
        let s = fileguard::get_u32("RECS version"@, bytes.skip(4))->Ok_0.1;
        if fileguard::get_u64("RECS records"@, s) is Ok {
            let (n, rest) = fileguard::get_u64("RECS records"@, s)->Ok_0;
            lemma_records(n as nat, Map::empty(), rest);
        }
    }
}

/// A reader whose errors are of invalid data.
spec fn tidy<T>(item: spec_fn(Seq<u8>) -> Parsed<T>) -> bool {
    forall|s: Seq<u8>| clean(#[trigger] item(s))
}

proof fn lemma_list<T>(item: spec_fn(Seq<u8>) -> Parsed<T>, n: nat, s: Seq<u8>)
    requires
        tidy(item),
    ensures
        clean(frac::get_list(item, n, s)),
    decreases n,
{
    if n > 0 {
        assert(clean(item(s)));
        if item(s) is Ok {
            lemma_list(item, (n - 1) as nat, item(s)->Ok_0.1);
        }
    }
}

proof fn lemma_counted_list<T>(
    what: Seq<char>,
    min: nat,
    item: spec_fn(Seq<u8>) -> Parsed<T>,
    s: Seq<u8>,
)
    requires
        tidy(item),
    ensures
        clean(frac::get_counted_list(what, min, item, s)),
{
    if fileguard::get_u64(what, s) is Ok {
        let (n, rest) = fileguard::get_u64(what, s)->Ok_0;
        lemma_list(item, (n as usize) as nat, rest);
    }
}

proof fn lemma_readers()
    ensures
        tidy(frac::word()),
        tidy(frac::words(13)),
        tidy(frac::bucket()),
        tidy(frac::item()),
{
    assert forall|s: Seq<u8>| clean(#[trigger] frac::words(13)(s)) by {
        lemma_list(frac::word(), 13, s);
    }
    assert forall|s: Seq<u8>| clean(#[trigger] frac::bucket()(s)) by {
        lemma_counted_list("FRAC bucket"@, 4, frac::word(), s);
    }
    assert forall|s: Seq<u8>| clean(#[trigger] frac::item()(s)) by {
        lemma_list(frac::word(), 3, s);
    }
}

proof fn lemma_outside(items: Seq<frac::ItemView>, i: int, arena_len: nat)
    ensures
        frac::first_outside(items, i, arena_len) matches Some(e) ==> e.kind
            == ErrorKind::InvalidData,
    decreases items.len() - i,
{
    if 0 <= i < items.len() {
        lemma_outside(items, i + 1, arena_len);
    }
}

proof fn lemma_body(s: Seq<u8>)
    ensures
        clean(frac::get_body(s)),
{
    reveal(frac::get_body);
    reveal(frac::get_arena);
    lemma_readers();
    let min = frac::NODE_BYTES as nat;
    lemma_counted_list("FRAC nodes"@, min, frac::words(13), s);
    if frac::get_counted_list("FRAC nodes"@, min, frac::words(13), s) is Ok {
        let s1 = frac::get_counted_list("FRAC nodes"@, min, frac::words(13), s)->Ok_0.1;
        lemma_counted_list("FRAC buckets"@, 8, frac::bucket(), s1);
        if frac::get_counted_list("FRAC buckets"@, 8, frac::bucket(), s1) is Ok {
            let s2 = frac::get_counted_list("FRAC buckets"@, 8, frac::bucket(), s1)->Ok_0.1;
            let least = frac::ITEM_BYTES as nat;
            lemma_counted_list("FRAC items"@, least, frac::item(), s2);
            if frac::get_counted_list("FRAC items"@, least, frac::item(), s2) is Ok {
                let (items, s3) = frac::get_counted_list(
                    "FRAC items"@,
                    least,
                    frac::item(),
                    s2,
                )->Ok_0;
                lemma_counted_list("FRAC projection"@, 4, frac::word(), s3);
                if frac::get_counted_list("FRAC projection"@, 4, frac::word(), s3) is Ok {
                    let s4 = frac::get_counted_list(
                        "FRAC projection"@,
                        4,
                        frac::word(),
                        s3,
                    )->Ok_0.1;
                    if frac::get_arena(s4) is Ok {
                        lemma_outside(items, 0, (frac::get_arena(s4)->Ok_0.0).len());
                    }
                }
            }
        }
    }
}

/// Bytes that are no image of a memory are invalid data.
pub proof fn law_image_rejections_are_clean(bytes: Seq<u8>, expected: usize)
    ensures
        clean(frac::decoded_image(bytes, expected)),
{
    reveal(frac::get_image);
    if frac::get_header(bytes, expected) is Ok {
        let s1 = frac::get_header(bytes, expected)->Ok_0.1;
        if fileguard::get_u32("FRAC world half size"@, s1) is Ok {
            let s2 = fileguard::get_u32("FRAC world half size"@, s1)->Ok_0.1;
            if fileguard::get_u64("FRAC bucket capacity"@, s2) is Ok {
                let s3 = fileguard::get_u64("FRAC bucket capacity"@, s2)->Ok_0.1;
                if fileguard::get_u32("FRAC min half size"@, s3) is Ok {
                    lemma_body(fileguard::get_u32("FRAC min half size"@, s3)->Ok_0.1);
                }
            }
        }
    }
}

proof fn lemma_entries(n: nat, i: nat, s: Seq<u8>)
    ensures
        clean(manifest::get_entries(n, s)),
        clean(manifest::get_regions(n, i, s)),
    decreases n,
{
    reveal(manifest::get_entry);
    if n > 0 {
        if manifest::get_entry(s) is Ok {
            lemma_entries((n - 1) as nat, i + 1, manifest::get_entry(s)->Ok_0.1);
        }
    }
}

proof fn lemma_every_entry_list()
    ensures
        forall|n: nat, s: Seq<u8>| clean(#[trigger] manifest::get_entries(n, s)),
        forall|n: nat, i: nat, s: Seq<u8>| clean(#[trigger] manifest::get_regions(n, i, s)),
{
    assert forall|n: nat, s: Seq<u8>| clean(#[trigger] manifest::get_entries(n, s)) by {
        lemma_entries(n, 0, s);
    }
    assert forall|n: nat, i: nat, s: Seq<u8>| clean(#[trigger] manifest::get_regions(n, i, s)) by {
        lemma_entries(n, i, s);
    }
}

/// Bytes that are no manifest of shards are invalid data.
pub proof fn law_shard_manifest_rejections_are_clean(bytes: Seq<u8>, dim: usize)
    ensures
        clean(manifest::decoded_shards(bytes, dim)),
{
    reveal(manifest::decoded_shards);
    lemma_every_entry_list();
}

/// Bytes that are no manifest of a hybrid memory are invalid data.
pub proof fn law_hybrid_manifest_rejections_are_clean(bytes: Seq<u8>, dim: usize)
    ensures
        clean(manifest::decoded_hybrid(bytes, dim)),
{
    reveal(manifest::decoded_hybrid);
    reveal(manifest::get_hybrid_body);
    lemma_every_entry_list();
}

broadcast proof fn lemma_string(s: Seq<u8>)
    ensures
        clean(#[trigger] generation::get_string(s)),
{
}

broadcast proof fn lemma_calibration(s: Seq<u8>)
    ensures
        clean(#[trigger] generation::get_calibration(s)),
{
    broadcast use lemma_string;

}

proof fn lemma_fault(f: generation_fingerprint::IdentityView)
    ensures
        generation::fingerprint_fault(f) matches Some(e) ==> e.kind == ErrorKind::InvalidData,
{
}

broadcast proof fn lemma_identity(s: Seq<u8>)
    ensures
        clean(#[trigger] generation::get_identity(s)),
{
    reveal(generation::get_identity);
    lemma_string(s);
    let s1 = generation::get_string(s)->Ok_0.1;
    lemma_string(s1);
    let s2 = generation::get_string(s1)->Ok_0.1;
    lemma_string(s2);
    let s3 = generation::get_string(s2)->Ok_0.1;
    lemma_string(s3);
    let s4 = generation::get_string(s3)->Ok_0.1;
    lemma_string(s4);
    let s5 = generation::get_string(s4)->Ok_0.1;
    lemma_calibration(s5);
    lemma_fault(
        generation_fingerprint::IdentityView {
            embedding: generation::get_string(s)->Ok_0.0,
            projection: generation::get_string(s1)->Ok_0.0,
            quantization: generation::get_string(s2)->Ok_0.0,
            index: generation::get_string(s3)->Ok_0.0,
            scirust_revision: generation::get_string(s4)->Ok_0.0,
            calibration: generation::get_calibration(s5)->Ok_0.0,
        },
    );
}

/// Bytes that are no manifest of a generation are invalid data.
pub proof fn law_manifest_rejections_are_clean(bytes: Seq<u8>)
    ensures
        clean(generation::decoded_manifest(bytes)),
{
    broadcast use lemma_identity;

}

/// Bytes that are no pointer to a generation are invalid data.
pub proof fn law_pointer_rejections_are_clean(bytes: Seq<u8>)
    ensures
        clean(generation::decoded_pointer(bytes)),
{
}

} // verus!
