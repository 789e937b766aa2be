//! Cut inputs: what a reader makes of a prefix it makes of the whole, so that no proper prefix
//! of an encoded store or image is taken for one.
use crate::fileguard;
use crate::fileguard::Parsed;
use crate::frac;
use crate::generation;
use crate::record;
use crate::record_codec as codec;
use crate::record_store;
use vstd::prelude::*;

verus! {

/// What was read, with more bytes behind what is left.
pub open spec fn followed<T>(r: Parsed<T>, more: Seq<u8>) -> Parsed<T> {
    match r {
        Ok((v, rest)) => Ok((v, rest + more)),
        Err(e) => Err(e),
    }
}

broadcast proof fn lemma_le(what: Seq<char>, s: Seq<u8>, k: nat, more: Seq<u8>)
    requires
        fileguard::get_le(what, s, k) is Ok,
    ensures
        #[trigger] fileguard::get_le(what, s + more, k) == followed(
            fileguard::get_le(what, s, k),
            more,
        ),
{
    assert((s + more).take(k as int) =~= s.take(k as int));
    assert((s + more).skip(k as int) =~= s.skip(k as int) + more);
}

broadcast proof fn lemma_counted(what: Seq<char>, len: nat, s: Seq<u8>, more: Seq<u8>)
    requires
        fileguard::get_counted(what, len, s) is Ok,
    ensures
        #[trigger] fileguard::get_counted(what, len, s + more) == followed(
            fileguard::get_counted(what, len, s),
            more,
        ),
{
    assert((s + more).take(len as int) =~= s.take(len as int));
    assert((s + more).skip(len as int) =~= s.skip(len as int) + more);
}

broadcast proof fn lemma_u8(what: Seq<char>, s: Seq<u8>, more: Seq<u8>)
    requires
        codec::get_u8(what, s) is Ok,
    ensures
        #[trigger] codec::get_u8(what, s + more) == followed(codec::get_u8(what, s), more),
{
    assert((s + more).skip(1) =~= s.skip(1) + more);
}

broadcast proof fn lemma_u32(what: Seq<char>, s: Seq<u8>, more: Seq<u8>)
    requires
        fileguard::get_u32(what, s) is Ok,
    ensures
        #[trigger] fileguard::get_u32(what, s + more) == followed(
            fileguard::get_u32(what, s),
            more,
        ),
{
    lemma_le(what, s, 4, more);
}

broadcast proof fn lemma_u64(what: Seq<char>, s: Seq<u8>, more: Seq<u8>)
    requires
        fileguard::get_u64(what, s) is Ok,
    ensures
        #[trigger] fileguard::get_u64(what, s + more) == followed(
            fileguard::get_u64(what, s),
            more,
        ),
{
    lemma_le(what, s, 8, more);
}

broadcast proof fn lemma_lp_bytes(what: Seq<char>, s: Seq<u8>, more: Seq<u8>)
    requires
        fileguard::get_lp_bytes(what, s) is Ok,
    ensures
        #[trigger] fileguard::get_lp_bytes(what, s + more) == followed(
            fileguard::get_lp_bytes(what, s),
            more,
        ),
{
    broadcast use {lemma_u32, lemma_counted};

}

broadcast proof fn lemma_lp_string(what: Seq<char>, s: Seq<u8>, more: Seq<u8>)
    requires
        fileguard::get_lp_string(what, s) is Ok,
    ensures
        #[trigger] fileguard::get_lp_string(what, s + more) == followed(
            fileguard::get_lp_string(what, s),
            more,
        ),
{
    lemma_lp_bytes(what, s, more);
}

broadcast proof fn lemma_flagged_u64(what: Seq<char>, s: Seq<u8>, more: Seq<u8>)
    requires
        codec::get_flagged_u64(what, s) is Ok,
    ensures
        #[trigger] codec::get_flagged_u64(what, s + more) == followed(
            codec::get_flagged_u64(what, s),
            more,
        ),
{
    broadcast use {lemma_u8, lemma_u64};

}

broadcast proof fn lemma_flagged_text(
    flag_what: Seq<char>,
    what: Seq<char>,
    s: Seq<u8>,
    more: Seq<u8>,
)
    requires
        codec::get_flagged_text(flag_what, what, s) is Ok,
    ensures
        #[trigger] codec::get_flagged_text(flag_what, what, s + more) == followed(
            codec::get_flagged_text(flag_what, what, s),
            more,
        ),
{
    broadcast use {lemma_u8, lemma_lp_string};

}

proof fn lemma_head(s: Seq<u8>, more: Seq<u8>)
    requires
        codec::get_head(s) is Ok,
    ensures
        codec::get_head(s + more) == followed(codec::get_head(s), more),
{
    reveal(codec::get_head);
    broadcast use {lemma_lp_string, lemma_lp_bytes};

}

proof fn lemma_provenance(s: Seq<u8>, more: Seq<u8>)
    requires
        codec::get_provenance(s) is Ok,
    ensures
        codec::get_provenance(s + more) == followed(codec::get_provenance(s), more),
{
    reveal(codec::get_provenance);
    broadcast use {lemma_lp_string, lemma_flagged_text, lemma_flagged_u64};

}

proof fn lemma_provenance_items(n: nat, s: Seq<u8>, more: Seq<u8>)
    requires
        codec::get_provenance_items(n, s) is Ok,
    ensures
        codec::get_provenance_items(n, s + more) == followed(
            codec::get_provenance_items(n, s),
            more,
        ),
    decreases n,
{
    if n > 0 {
        lemma_provenance(s, more);
        let rest = codec::get_provenance(s)->Ok_0.1;
        lemma_provenance_items((n - 1) as nat, rest, more);
    }
}

proof fn lemma_provenances(s: Seq<u8>, more: Seq<u8>)
    requires
        codec::get_provenances(s) is Ok,
    ensures
        codec::get_provenances(s + more) == followed(codec::get_provenances(s), more),
{
    reveal(codec::get_provenances);
    lemma_u32("RECS provenances"@, s, more);
    let (n, rest) = fileguard::get_u32("RECS provenances"@, s)->Ok_0;
    lemma_provenance_items(n as nat, rest, more);
}

broadcast proof fn lemma_status(s: Seq<u8>, more: Seq<u8>)
    requires
        codec::get_status(s) is Ok,
    ensures
        #[trigger] codec::get_status(s + more) == followed(codec::get_status(s), more),
{
    broadcast use {lemma_u8, lemma_u64, lemma_lp_string};

}

proof fn lemma_life(s: Seq<u8>, more: Seq<u8>)
    requires
        codec::get_life(s) is Ok,
    ensures
        codec::get_life(s + more) == followed(codec::get_life(s), more),
{
    reveal(codec::get_life);
    broadcast use {lemma_u8, lemma_u64, lemma_status, lemma_flagged_text, lemma_flagged_u64};

}

proof fn lemma_fingerprint_tail(base: record::FingerprintView, s: Seq<u8>, more: Seq<u8>)
    requires
        codec::get_fingerprint_tail(base, s) is Ok,
    ensures
        codec::get_fingerprint_tail(base, s + more) == followed(
            codec::get_fingerprint_tail(base, s),
            more,
        ),
{
    reveal(codec::get_fingerprint_tail);
    broadcast use lemma_flagged_text;

}

proof fn lemma_fingerprint(s: Seq<u8>, more: Seq<u8>)
    requires
        codec::get_fingerprint(s) is Ok,
    ensures
        codec::get_fingerprint(s + more) == followed(codec::get_fingerprint(s), more),
{
    reveal(codec::get_fingerprint);
    broadcast use {lemma_lp_string, lemma_flagged_text, lemma_u64};

    let (provider, s1) = fileguard::get_lp_string("RECS embedding provider"@, s)->Ok_0;
    let (model, s2) = fileguard::get_lp_string("RECS embedding model"@, s1)->Ok_0;
    let (revision, s3) = codec::get_flagged_text(
        "RECS revision flag"@,
        "RECS embedding revision"@,
        s2,
    )->Ok_0;
    let (dim, s4) = fileguard::get_u64("RECS embedding dimension"@, s3)->Ok_0;
    let base = record::checked_fingerprint(provider, model, dim as usize)->Ok_0;
    lemma_fingerprint_tail(record::FingerprintView { revision, ..base }, s4, more);
}

proof fn lemma_relation(s: Seq<u8>, more: Seq<u8>)
    requires
        codec::get_relation(s) is Ok,
    ensures
        codec::get_relation(s + more) == followed(codec::get_relation(s), more),
{
    reveal(codec::get_relation);
    broadcast use {lemma_u8, lemma_lp_string};

}

proof fn lemma_relation_items(n: nat, s: Seq<u8>, more: Seq<u8>)
    requires
        codec::get_relation_items(n, s) is Ok,
    ensures
        codec::get_relation_items(n, s + more) == followed(codec::get_relation_items(n, s), more),
    decreases n,
{
    if n > 0 {
        lemma_relation(s, more);
        let rest = codec::get_relation(s)->Ok_0.1;
        lemma_relation_items((n - 1) as nat, rest, more);
    }
}

proof fn lemma_relations(s: Seq<u8>, more: Seq<u8>)
    requires
        codec::get_relations(s) is Ok,
    ensures
        codec::get_relations(s + more) == followed(codec::get_relations(s), more),
{
    reveal(codec::get_relations);
    lemma_u32("RECS relations"@, s, more);
    let (n, rest) = fileguard::get_u32("RECS relations"@, s)->Ok_0;
    lemma_relation_items(n as nat, rest, more);
}

proof fn lemma_record(s: Seq<u8>, more: Seq<u8>)
    requires
        codec::get_record(s) is Ok,
    ensures
        codec::get_record(s + more) == followed(codec::get_record(s), more),
{
    reveal(codec::get_record);
    let (h, s1) = codec::get_head(s)->Ok_0;
    let (p, s2) = codec::get_provenances(s1)->Ok_0;
    let (l, s3) = codec::get_life(s2)->Ok_0;
    let (f, s4) = codec::get_fingerprint(s3)->Ok_0;
    lemma_head(s, more);
    lemma_provenances(s1, more);
    lemma_life(s2, more);
    lemma_fingerprint(s3, more);
    lemma_relations(s4, more);
}

proof fn lemma_records(
    n: nat,
    m: Map<Seq<char>, record::RecordView>,
    s: Seq<u8>,
    more: Seq<u8>,
)
    requires
        record_store::get_records(n, m, s) is Ok,
    ensures
        record_store::get_records(n, m, s + more) == followed(
            record_store::get_records(n, m, s),
            more,
        ),
    decreases n,
{
    if n > 0 {
        lemma_record(s, more);
        let (r, rest) = codec::get_record(s)->Ok_0;
        lemma_records((n - 1) as nat, record_store::put_outcome(m, r)->Ok_0, rest, more);
    }
}

/// What is a store is none any more with bytes behind it.
pub proof fn law_no_store_extends_another(bytes: Seq<u8>, more: Seq<u8>)
    requires
        record_store::decoded_store(bytes) is Ok,
        more.len() > 0,
    ensures
        record_store::decoded_store(bytes + more) is Err,
{
    assert((bytes + more).take(4) =~= bytes.take(4));
    assert((bytes + more).skip(4) =~= bytes.skip(4) + more);
    lemma_u32("RECS version"@, bytes.skip(4), more);
    let (version, s1) = fileguard::get_u32("RECS version"@, bytes.skip(4))->Ok_0;
    lemma_u64("RECS records"@, s1, more);
    let (count, s2) = fileguard::get_u64("RECS records"@, s1)->Ok_0;
    lemma_records(count as nat, Map::empty(), s2, more);
}

proof fn lemma_proper_prefix(all: Seq<u8>, n: int)
    requires
        record_store::decoded_store(all) is Ok,
        0 <= n < all.len(),
    ensures
        record_store::decoded_store(all.take(n)) is Err,
{
    assert(all.take(n) + all.skip(n) =~= all);
    if record_store::decoded_store(all.take(n)) is Ok {
        law_no_store_extends_another(all.take(n), all.skip(n));
    }
}

/// A cut store is refused: no proper prefix of what a store encodes to is taken for a store.
pub proof fn law_truncated_store_is_refused(s: Seq<record::RecordView>, n: int)
    requires
        record_store::ordered(s),
        s.len() <= usize::MAX,
        forall|i: int| 0 <= i < s.len() ==> (#[trigger] s[i]).valid() && codec::record_fits(s[i]),
        0 <= n < record_store::store_bytes(s).len(),
    ensures
        record_store::decoded_store(record_store::store_bytes(s).take(n)) is Err,
{
    record_store::law_store_round_trip(s);
    lemma_proper_prefix(record_store::store_bytes(s), n);
}

/// A reader that makes of a prefix what it makes of the whole.
spec fn steady<T>(item: spec_fn(Seq<u8>) -> Parsed<T>) -> bool {
    forall|s: Seq<u8>, more: Seq<u8>|
        item(s) is Ok ==> #[trigger] item(s + more) == followed(item(s), more)
}

proof fn lemma_list<T>(item: spec_fn(Seq<u8>) -> Parsed<T>, n: nat, s: Seq<u8>, more: Seq<u8>)
    requires
        steady(item),
        frac::get_list(item, n, s) is Ok,
    ensures
        frac::get_list(item, n, s + more) == followed(frac::get_list(item, n, s), more),
    decreases n,
{
    if n > 0 {
        assert(item(s + more) == followed(item(s), more));
        lemma_list(item, (n - 1) as nat, item(s)->Ok_0.1, more);
    }
}

proof fn lemma_counted_list<T>(
    what: Seq<char>,
    min: nat,
    item: spec_fn(Seq<u8>) -> Parsed<T>,
    s: Seq<u8>,
    more: Seq<u8>,
)
    requires
        steady(item),
        frac::get_counted_list(what, min, item, s) is Ok,
    ensures
        frac::get_counted_list(what, min, item, s + more) == followed(
            frac::get_counted_list(what, min, item, s),
            more,
        ),
{
    lemma_u64(what, s, more);
    let (n, rest) = fileguard::get_u64(what, s)->Ok_0;
    lemma_list(item, (n as usize) as nat, rest, more);
}

proof fn lemma_readers()
    ensures
        steady(frac::word()),
        steady(frac::words(13)),
        steady(frac::bucket()),
        steady(frac::item()),
{
    assert forall|s: Seq<u8>, more: Seq<u8>| frac::word()(s) is Ok implies #[trigger] frac::word()(
        s + more,
    ) == followed(frac::word()(s), more) by {
        lemma_u32("FRAC word"@, s, more);
    }
    assert forall|s: Seq<u8>, more: Seq<u8>|
        frac::words(13)(s) is Ok implies #[trigger] frac::words(13)(s + more) == followed(
        frac::words(13)(s),
        more,
    ) by {
        lemma_list(frac::word(), 13, s, more);
    }
    assert forall|s: Seq<u8>, more: Seq<u8>|
        frac::bucket()(s) is Ok implies #[trigger] frac::bucket()(s + more) == followed(
        frac::bucket()(s),
        more,
    ) by {
        lemma_counted_list("FRAC bucket"@, 4, frac::word(), s, more);
    }
    assert forall|s: Seq<u8>, more: Seq<u8>| frac::item()(s) is Ok implies #[trigger] frac::item()(
        s + more,
    ) == followed(frac::item()(s), more) by {
        lemma_list(frac::word(), 3, s, more);
        let (point, s1) = frac::get_list(frac::word(), 3, s)->Ok_0;
        lemma_u64("FRAC item offset"@, s1, more);
        let (offset, s2) = fileguard::get_u64("FRAC item offset"@, s1)->Ok_0;
        lemma_u64("FRAC item length"@, s2, more);
    }
}

proof fn lemma_arena(s: Seq<u8>, more: Seq<u8>)
    requires
        frac::get_arena(s) is Ok,
    ensures
        frac::get_arena(s + more) == followed(frac::get_arena(s), more),
{
    reveal(frac::get_arena);
    lemma_u64("FRAC arena length"@, s, more);
    let (size, s1) = fileguard::get_u64("FRAC arena length"@, s)->Ok_0;
    lemma_u64("FRAC arena"@, s1, more);
    let (comp, s2) = fileguard::get_u64("FRAC arena"@, s1)->Ok_0;
    let n = (comp as usize) as int;
    assert((s2 + more).take(n) =~= s2.take(n));
    assert((s2 + more).skip(n) =~= s2.skip(n) + more);
}

proof fn lemma_body(s: Seq<u8>, more: Seq<u8>)
    requires
        frac::get_body(s) is Ok,
    ensures
        frac::get_body(s + more) == followed(frac::get_body(s), more),
{
    reveal(frac::get_body);
    lemma_readers();
    let min = frac::NODE_BYTES as nat;
    lemma_counted_list("FRAC nodes"@, min, frac::words(13), s, more);
    let s1 = frac::get_counted_list("FRAC nodes"@, min, frac::words(13), s)->Ok_0.1;
    lemma_counted_list("FRAC buckets"@, 8, frac::bucket(), s1, more);
    let s2 = frac::get_counted_list("FRAC buckets"@, 8, frac::bucket(), s1)->Ok_0.1;
    let least = frac::ITEM_BYTES as nat;
    lemma_counted_list("FRAC items"@, least, frac::item(), s2, more);
    let s3 = frac::get_counted_list("FRAC items"@, least, frac::item(), s2)->Ok_0.1;
    lemma_counted_list("FRAC projection"@, 4, frac::word(), s3, more);
    let s4 = frac::get_counted_list("FRAC projection"@, 4, frac::word(), s3)->Ok_0.1;
    lemma_arena(s4, more);
}

/// Bytes behind an image change nothing: they are left, and the image is the same.
pub proof fn law_bytes_behind_an_image_are_left(bytes: Seq<u8>, expected: usize, more: Seq<u8>)
    requires
        frac::get_image(bytes, expected) is Ok,
    ensures
        frac::get_image(bytes + more, expected) == followed(
            frac::get_image(bytes, expected),
            more,
        ),
{
    reveal(frac::get_image);
    assert((bytes + more).take(4) =~= bytes.take(4));
    assert((bytes + more).skip(4) =~= bytes.skip(4) + more);
    lemma_u32("FRAC version"@, bytes.skip(4), more);
    let s1 = fileguard::get_u32("FRAC version"@, bytes.skip(4))->Ok_0.1;
    lemma_u32("FRAC high_dim"@, s1, more);
    let s2 = fileguard::get_u32("FRAC high_dim"@, s1)->Ok_0.1;
    lemma_u32("FRAC world half size"@, s2, more);
    let s3 = fileguard::get_u32("FRAC world half size"@, s2)->Ok_0.1;
    lemma_u64("FRAC bucket capacity"@, s3, more);
    let s4 = fileguard::get_u64("FRAC bucket capacity"@, s3)->Ok_0.1;
    lemma_u32("FRAC min half size"@, s4, more);
    let s5 = fileguard::get_u32("FRAC min half size"@, s4)->Ok_0.1;
    lemma_body(s5, more);
}

/// A cut image is refused: no proper prefix of bytes that are read to their end as an image
/// is taken for an image.
pub proof fn law_truncated_image_is_refused(
    bytes: Seq<u8>,
    expected: usize,
    image: frac::ImageView,
    n: int,
)
    requires
        frac::get_image(bytes, expected) == Ok::<_, crate::error::ErrorView>(
            (image, Seq::<u8>::empty()),
        ),
        0 <= n < bytes.len(),
    ensures
        frac::decoded_image(bytes.take(n), expected) is Err,
{
    assert(bytes.take(n) + bytes.skip(n) =~= bytes);
    if frac::get_image(bytes.take(n), expected) is Ok {
        law_bytes_behind_an_image_are_left(bytes.take(n), expected, bytes.skip(n));
        let left = frac::get_image(bytes.take(n), expected)->Ok_0.1;
        assert((left + bytes.skip(n)).len() == 0);
    }
}

/// An image is read at its own dimension only: where it is read at one, it says that one, and
/// it is refused at every other.
pub proof fn law_an_image_has_one_dimension(bytes: Seq<u8>, d: usize, e: usize)
    requires
        frac::decoded_image(bytes, d) is Ok,
    ensures
        (frac::decoded_image(bytes, d)->Ok_0).high_dim as usize == d,
        d != e ==> frac::decoded_image(bytes, e) == Err::<frac::ImageView, _>(
            frac::dimension_error((frac::decoded_image(bytes, d)->Ok_0).high_dim, e),
        ),
{
    reveal(frac::get_image);
}

proof fn lemma_magic(expected: Seq<u8>, what: Seq<char>, s: Seq<u8>, more: Seq<u8>)
    requires
        generation::get_magic(expected, what, s) is Ok,
    ensures
        generation::get_magic(expected, what, s + more) == followed(
            generation::get_magic(expected, what, s),
            more,
        ),
{
    assert((s + more).take(4) =~= s.take(4));
    assert((s + more).skip(4) =~= s.skip(4) + more);
}

broadcast proof fn lemma_string(s: Seq<u8>, more: Seq<u8>)
    requires
        generation::get_string(s) is Ok,
    ensures
        #[trigger] generation::get_string(s + more) == followed(generation::get_string(s), more),
{
    broadcast use {lemma_u32, lemma_counted};

}

proof fn lemma_calibration(s: Seq<u8>, more: Seq<u8>)
    requires
        generation::get_calibration(s) is Ok,
    ensures
        generation::get_calibration(s + more) == followed(generation::get_calibration(s), more),
{
    broadcast use lemma_string;

    assert((s + more).skip(1) =~= s.skip(1) + more);
}

proof fn lemma_identity(s: Seq<u8>, more: Seq<u8>)
    requires
        generation::get_identity(s) is Ok,
    ensures
        generation::get_identity(s + more) == followed(generation::get_identity(s), more),
{
    reveal(generation::get_identity);
    lemma_string(s, more);
    let s1 = generation::get_string(s)->Ok_0.1;
    lemma_string(s1, more);
    let s2 = generation::get_string(s1)->Ok_0.1;
    lemma_string(s2, more);
    let s3 = generation::get_string(s2)->Ok_0.1;
    lemma_string(s3, more);
    let s4 = generation::get_string(s3)->Ok_0.1;
    lemma_string(s4, more);
    let s5 = generation::get_string(s4)->Ok_0.1;
    lemma_calibration(s5, more);
}

/// What is a manifest of a generation is refused with bytes behind it, for these bytes.
pub proof fn law_bytes_behind_a_manifest_are_refused(bytes: Seq<u8>, more: Seq<u8>)
    requires
        generation::decoded_manifest(bytes) is Ok,
        more.len() > 0,
    ensures
        generation::decoded_manifest(bytes + more) == Err::<generation::ManifestView, _>(
            fileguard::trailing_error("generation manifest"@, more.len()),
        ),
{
    let what = "generation manifest"@;
    lemma_magic(generation::manifest_magic(), what, bytes, more);
    let s1 = bytes.skip(4);
    lemma_u32(what + " version"@, s1, more);
    let s2 = fileguard::get_u32(what + " version"@, s1)->Ok_0.1;
    lemma_u64("generation number"@, s2, more);
    let s3 = fileguard::get_u64("generation number"@, s2)->Ok_0.1;
    lemma_u32("generation dim"@, s3, more);
    let s4 = fileguard::get_u32("generation dim"@, s3)->Ok_0.1;
    lemma_identity(s4, more);
    let s5 = generation::get_identity(s4)->Ok_0.1;
    lemma_counted("generation digest"@, 32, s5, more);
    let s6 = generation::get_hash(s5)->Ok_0.1;
    lemma_counted("generation digest"@, 32, s6, more);
    let s7 = generation::get_hash(s6)->Ok_0.1;
    assert(s7 + more =~= more);
}

/// What is a pointer to a generation is refused with bytes behind it, for these bytes.
pub proof fn law_bytes_behind_a_pointer_are_refused(bytes: Seq<u8>, more: Seq<u8>)
    requires
        generation::decoded_pointer(bytes) is Ok,
        more.len() > 0,
    ensures
        generation::decoded_pointer(bytes + more) == Err::<generation::PointerView, _>(
            fileguard::trailing_error("generation pointer"@, more.len()),
        ),
{
    let what = "generation pointer"@;
    lemma_magic(generation::pointer_magic(), what, bytes, more);
    let s1 = bytes.skip(4);
    lemma_u32(what + " version"@, s1, more);
    let s2 = fileguard::get_u32(what + " version"@, s1)->Ok_0.1;
    lemma_u64("generation number"@, s2, more);
    let s3 = fileguard::get_u64("generation number"@, s2)->Ok_0.1;
    lemma_counted("generation digest"@, 32, s3, more);
    let s4 = generation::get_hash(s3)->Ok_0.1;
    assert(s4 + more =~= more);
}

/// A cut manifest is refused: no proper prefix of what a manifest of a generation encodes to
/// is taken for a manifest.
pub proof fn law_truncated_manifest_is_refused(m: generation::ManifestView, n: int)
    requires
        generation::encoded_manifest(m) is Ok,
        m.tree_sha256.len() == 32,
        m.sketch_sha256.len() == 32,
        0 <= n < (generation::encoded_manifest(m)->Ok_0).len(),
    ensures
        generation::decoded_manifest((generation::encoded_manifest(m)->Ok_0).take(n)) is Err,
{
    let bytes = generation::encoded_manifest(m)->Ok_0;
    generation::law_manifest_round_trip(m);
    assert(bytes.take(n) + bytes.skip(n) =~= bytes);
    if generation::decoded_manifest(bytes.take(n)) is Ok {
        law_bytes_behind_a_manifest_are_refused(bytes.take(n), bytes.skip(n));
    }
}

/// A cut pointer is refused: no proper prefix of what a pointer encodes to is taken for one.
pub proof fn law_truncated_pointer_is_refused(p: generation::PointerView, n: int)
    requires
        p.manifest_sha256.len() == 32,
        0 <= n < generation::pointer_bytes(p).len(),
    ensures
        generation::decoded_pointer(generation::pointer_bytes(p).take(n)) is Err,
{
    let bytes = generation::pointer_bytes(p);
    generation::law_pointer_round_trip(p);
    assert(bytes.take(n) + bytes.skip(n) =~= bytes);
    if generation::decoded_pointer(bytes.take(n)) is Ok {
        law_bytes_behind_a_pointer_are_refused(bytes.take(n), bytes.skip(n));
    }
}

} // verus!
