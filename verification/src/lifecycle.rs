//! The tools that retire memories: logical deletion, evidence edges, compaction and purge.
use crate::hybrid;
use crate::hybrid::ShardedHybrid;
use crate::mcp;
use crate::mcp::{
    bounded_req_u64, bounded_string, parse_relation, record_key, resolve_generation, Args,
    MAX_REGION_BYTES, MAX_URI_BYTES, MAX_WORD_BYTES,
};
use crate::record;
use crate::record::RelationKind;
use crate::record_store;
use crate::record_store::RecordFilter;
use crate::text;
use crate::tools;
use vstd::prelude::*;
use vstd::utf8::*;

verus! {

/// The text that `String::from_utf8_lossy` makes of bytes: what is no UTF-8 becomes the
/// replacement character.
pub uninterp spec fn lossy_form(bytes: Seq<u8>) -> Seq<char>;

/// UTF-8 is taken as the text that it encodes.
pub open spec fn keeps_utf8(bytes: Seq<u8>, s: Seq<char>) -> bool {
    valid_utf8(bytes) ==> s == decode_utf8(bytes)
}

/// Calls `String::from_utf8_lossy`; the contract names its result, which for UTF-8 is the
/// text that the bytes encode.
#[verifier::external_body]
pub(crate) fn lossy_text(bytes: &[u8]) -> (r: String)
    ensures
        r@ == lossy_form(bytes@),
        keeps_utf8(bytes@, r@),
{
    String::from_utf8_lossy(bytes).into_owned()
}

/// The text of a payload: what it encodes where it is UTF-8, else its lossy form.
pub open spec fn payload_text(bytes: Seq<u8>) -> Seq<char> {
    if valid_utf8(bytes) {
        decode_utf8(bytes)
    } else {
        lossy_form(bytes)
    }
}

/// The record ids in the payloads of a region.
pub open spec fn record_keys(items: Seq<Seq<u8>>) -> Seq<Seq<char>> {
    items.map_values(|b: Seq<u8>| mcp::key_of(payload_text(b)))
}

/// The record ids in the payloads of a region.
pub fn keys_in(mem: &ShardedHybrid, region: &str) -> (r: Vec<String>)
    ensures
        text::text_views(r@) == record_keys(hybrid::items_of(mem@, region@)),
        r@.len() == hybrid::items_of(mem@, region@).len(),
        forall|i: int|
            0 <= i < r@.len() && valid_utf8(hybrid::items_of(mem@, region@)[i]) ==> (
            #[trigger] r@[i])@ == mcp::key_of(decode_utf8(hybrid::items_of(mem@, region@)[i])),
{
    let items = mem.payloads(region);
    let ghost views = hybrid::items_of(mem@, region@);
    let mut out: Vec<String> = Vec::new();
    let mut i: usize = 0;
    while i < items.len()
        invariant
            i <= items@.len(),
            hybrid::payload_views(items@) == views,
            out@.len() == i,
            forall|j: int|
                0 <= j < i ==> (#[trigger] out@[j])@ == mcp::key_of(payload_text(views[j])),
            forall|j: int|
                0 <= j < i && valid_utf8(views[j]) ==> (#[trigger] out@[j])@ == mcp::key_of(
                    decode_utf8(views[j]),
                ),
        decreases items@.len() - i,
    {
        proof {
            assert(views[i as int] == items@[i as int]@);
        }
        let s = lossy_text(items[i].as_slice());
        out.push(record_key(s.as_str()));
        i += 1;
    }
    proof {
        assert(text::text_views(out@) =~= record_keys(views));
    }
    out
}

/// What `tombstone` asks for: a uri and its new generation.
pub open spec fn tombstone_request(
    args: mcp::ArgsView,
    layer: Map<Seq<char>, record::RecordView>,
) -> Result<(Seq<char>, u64), Seq<char>> {
    match mcp::text_arg(args, "uri"@, MAX_URI_BYTES as nat) {
        Err(e) => Err(e),
        Ok(uri) => if uri.len() == 0 {
            Err("tombstone needs `uri`"@)
        } else {
            match mcp::next_generation(tools::generation_in(layer, uri), args) {
                Err(e) => Err(e),
                Ok(generation) => Ok((uri, generation)),
            }
        },
    }
}

/// Logically deletes the record of a uri. A uri without a record is an error, and so is a
/// generation that is not newer.
pub fn call_tombstone(args: &Args, mem: &mut ShardedHybrid) -> (r: Result<(String, u64), String>)
    ensures
        final(mem)@ == old(mem)@,
        match (r, tombstone_request(args@, old(mem).layer())) {
            (Ok((uri, generation)), Ok((id, g))) => {
                &&& uri@ == id
                &&& generation == g
                &&& old(mem).layer().contains_key(id)
                &&& final(mem).layer() == old(mem).layer().insert(
                    id,
                    record::tombstoned(old(mem).layer()[id], g),
                )
            },
            (Err(m), Ok((id, g))) => {
                &&& !old(mem).layer().contains_key(id)
                &&& final(mem).layer() == old(mem).layer()
                &&& m@ == "no memory record with id "@ + crate::fileguard::debug_form(id)
            },
            (Err(m), Err(e)) => m@ == e && final(mem).layer() == old(mem).layer(),
            (Ok(_), Err(_)) => false,
        },
{
    let uri = bounded_string(args, "uri", MAX_URI_BYTES)?;
    if mcp::is_empty(uri.as_str()) {
        return Err("tombstone needs `uri`".to_owned());
    }
    let generation: u64 = resolve_generation(tools::find_generation(mem, uri.as_str()), args)?;
    match mem.tombstone(uri.as_str(), generation) {
        Ok(_) => Ok((uri, generation)),
        Err(e) => Err(e.message()),
    }
}

/// An evidence edge that was added.
pub struct RelateReport {
    /// Where the edge leads from.
    pub uri: String,
    /// The kind of the edge.
    pub kind: RelationKind,
    /// Where the edge leads to.
    pub target: String,
    /// The new generation of the record.
    pub generation: u64,
}

/// An evidence edge as a value.
pub struct RelateView {
    pub uri: Seq<char>,
    pub kind: RelationKind,
    pub target: Seq<char>,
    pub generation: u64,
}

impl View for RelateReport {
    type V = RelateView;

    open spec fn view(&self) -> RelateView {
        RelateView {
            uri: self.uri@,
            kind: self.kind,
            target: self.target@,
            generation: self.generation,
        }
    }
}

/// What `relate` asks for.
pub open spec fn relate_request(
    args: mcp::ArgsView,
    layer: Map<Seq<char>, record::RecordView>,
) -> Result<RelateView, Seq<char>> {
    match mcp::text_arg(args, "uri"@, MAX_URI_BYTES as nat) {
        Err(e) => Err(e),
        Ok(uri) => if uri.len() == 0 {
            Err("relate needs `uri`"@)
        } else {
            match mcp::text_arg(args, "target"@, MAX_URI_BYTES as nat) {
                Err(e) => Err(e),
                Ok(target) => if target.len() == 0 {
                    Err("relate needs `target`"@)
                } else {
                    match mcp::text_arg(args, "relation"@, MAX_WORD_BYTES as nat) {
                        Err(e) => Err(e),
                        Ok(word) => match mcp::relation_of(word) {
                            Err(e) => Err(e),
                            Ok(kind) => match mcp::next_generation(
                                tools::generation_in(layer, uri),
                                args,
                            ) {
                                Err(e) => Err(e),
                                Ok(generation) => Ok(RelateView { uri, kind, target, generation }),
                            },
                        },
                    }
                },
            }
        },
    }
}

/// Adds an evidence edge to the record of a uri.
pub fn call_relate(args: &Args, mem: &mut ShardedHybrid) -> (r: Result<RelateReport, String>)
    ensures
        final(mem)@ == old(mem)@,
        match (r, relate_request(args@, old(mem).layer())) {
            (Ok(report), Ok(v)) => {
                &&& report@ == v
                &&& hybrid::relate_fault(
                    old(mem).layer(),
                    v.uri,
                    v.kind,
                    v.target,
                    v.generation,
                ) is None
                &&& final(mem).layer() == old(mem).layer().insert(
                    v.uri,
                    record_store::with_relation(
                        old(mem).layer()[v.uri],
                        v.kind,
                        v.target,
                        v.generation,
                    ),
                )
            },
            (Err(m), Ok(v)) => {
                &&& final(mem).layer() == old(mem).layer()
                &&& match hybrid::relate_fault(
                    old(mem).layer(),
                    v.uri,
                    v.kind,
                    v.target,
                    v.generation,
                ) {
                    Some(fault) => m@ == fault.text(),
                    None => false,
                }
            },
            (Err(m), Err(e)) => m@ == e && final(mem).layer() == old(mem).layer(),
            (Ok(_), Err(_)) => false,
        },
{
    let uri = bounded_string(args, "uri", MAX_URI_BYTES)?;
    if mcp::is_empty(uri.as_str()) {
        return Err("relate needs `uri`".to_owned());
    }
    let target = bounded_string(args, "target", MAX_URI_BYTES)?;
    if mcp::is_empty(target.as_str()) {
        return Err("relate needs `target`".to_owned());
    }
    let word = bounded_string(args, "relation", MAX_WORD_BYTES)?;
    let kind = parse_relation(word.as_str())?;
    let generation: u64 = resolve_generation(tools::find_generation(mem, uri.as_str()), args)?;
    match mem.relate(uri.as_str(), kind, target.as_str(), generation) {
        Ok(_) => Ok(RelateReport { uri, kind, target, generation }),
        Err(e) => Err(e.message()),
    }
}

/// What a sequence of compactions leaves.
pub struct Compacted {
    /// The items of the regions.
    pub items: Map<Seq<char>, Seq<Seq<u8>>>,
    /// How many items went, by region.
    pub reclaimed: Seq<nat>,
    /// Whether every region was compacted.
    pub complete: bool,
}

/// The places of the items of a region that a compaction keeps.
pub open spec fn staying(
    items: Map<Seq<char>, Seq<Seq<u8>>>,
    layer: Map<Seq<char>, record::RecordView>,
    filter: record_store::FilterView,
    region: Seq<char>,
) -> Seq<usize> {
    hybrid::surviving(layer, filter, record_keys(hybrid::items_of(items, region)), 0)
}

/// The items after the compaction of one region.
pub open spec fn compact_one(
    items: Map<Seq<char>, Seq<Seq<u8>>>,
    layer: Map<Seq<char>, record::RecordView>,
    filter: record_store::FilterView,
    region: Seq<char>,
) -> Map<Seq<char>, Seq<Seq<u8>>> {
    let at = staying(items, layer, filter, region);
    if at.len() == 0 {
        items.remove(region)
    } else {
        items.insert(region, hybrid::picked(hybrid::items_of(items, region), at))
    }
}

/// What the compaction of the first `n` regions leaves. It ends at the first region whose
/// survivors could not be indexed again; what came before it stays done.
pub open spec fn compact_to(
    items: Map<Seq<char>, Seq<Seq<u8>>>,
    layer: Map<Seq<char>, record::RecordView>,
    filter: record_store::FilterView,
    regions: Seq<Seq<char>>,
    reindexed: Seq<bool>,
    n: int,
) -> Compacted
    decreases n,
{
    if n <= 0 {
        Compacted { items, reclaimed: Seq::empty(), complete: true }
    } else {
        let s = compact_to(items, layer, filter, regions, reindexed, n - 1);
        let region = regions[n - 1];
        let at = staying(s.items, layer, filter, region);
        if !s.complete {
            s
        } else if at.len() > 0 && !reindexed[n - 1] {
            Compacted { complete: false, ..s }
        } else {
            Compacted {
                items: compact_one(s.items, layer, filter, region),
                reclaimed: s.reclaimed.push(
                    (hybrid::items_of(s.items, region).len() - at.len()) as nat,
                ),
                complete: true,
            }
        }
    }
}

proof fn lemma_stopped(
    items: Map<Seq<char>, Seq<Seq<u8>>>,
    layer: Map<Seq<char>, record::RecordView>,
    filter: record_store::FilterView,
    regions: Seq<Seq<char>>,
    reindexed: Seq<bool>,
    i: int,
    n: int,
)
    requires
        0 <= i <= n,
        !compact_to(items, layer, filter, regions, reindexed, i).complete,
    ensures
        compact_to(items, layer, filter, regions, reindexed, n) == compact_to(
            items,
            layer,
            filter,
            regions,
            reindexed,
            i,
        ),
    decreases n - i,
{
    if i < n {
        lemma_stopped(items, layer, filter, regions, reindexed, i, n - 1);
    }
}

/// The numbers as such.
pub open spec fn counts(s: Seq<usize>) -> Seq<nat> {
    s.map_values(|n: usize| n as nat)
}

/// Compacts regions, one after the other; `reindexed` says of each whether the engine could
/// index its survivors again. Returns how many items went from each region that was
/// compacted, and whether all were.
pub fn compact_regions(
    mem: &mut ShardedHybrid,
    regions: &Vec<String>,
    filter: &RecordFilter,
    reindexed: &Vec<bool>,
) -> (r: (Vec<usize>, bool))
    requires
        reindexed@.len() == regions@.len(),
    ensures
        final(mem).layer() == old(mem).layer(),
        ({
            let c = compact_to(
                old(mem)@,
                old(mem).layer(),
                filter@,
                text::text_views(regions@),
                reindexed@,
                regions@.len() as int,
            );
            &&& final(mem)@ == c.items
            &&& counts(r.0@) == c.reclaimed
            &&& r.1 == c.complete
        }),
        is_compaction(
            old(mem)@,
            final(mem)@,
            old(mem).layer(),
            filter@,
            text::text_views(regions@),
            reindexed@,
            counts(r.0@),
            r.1,
        ),
{
    let ghost names = text::text_views(regions@);
    let ghost before = mem@;
    let ghost layer = mem.layer();
    let mut out: Vec<usize> = Vec::new();
    let mut i: usize = 0;
    proof {
        mem.lemma_counted();
        assert(counts(out@) =~= Seq::<nat>::empty());
        law_compaction_keeps_just_the_admitted(before, layer, filter@, names, reindexed@);
    }
    while i < regions.len()
        invariant
            i <= regions@.len(),
            fits(before),
            reindexed@.len() == regions@.len(),
            names == text::text_views(regions@),
            before == old(mem)@,
            layer == old(mem).layer(),
            mem.layer() == layer,
            compact_to(before, layer, filter@, names, reindexed@, i as int) == (Compacted {
                items: mem@,
                reclaimed: counts(out@),
                complete: true,
            }),
        decreases regions@.len() - i,
    {
        proof {
            assert(names[i as int] == regions@[i as int]@);
        }
        let keys = keys_in(mem, regions[i].as_str());
        let ghost was = out@;
        match mem.compact_filtered(regions[i].as_str(), &keys, filter, reindexed[i]) {
            Ok(n) => {
                out.push(n);
                proof {
                    assert(counts(out@) =~= counts(was).push(n as nat));
                }
            },
            Err(_) => {
                proof {
                    lemma_stopped(
                        before,
                        layer,
                        filter@,
                        names,
                        reindexed@,
                        i + 1,
                        regions@.len() as int,
                    );
                    law_compaction_keeps_just_the_admitted(
                        before,
                        layer,
                        filter@,
                        names,
                        reindexed@,
                    );
                }
                return (out, false);
            },
        }
        i += 1;
    }
    (out, true)
}

/// The sum of numbers.
pub open spec fn sum_of(s: Seq<nat>) -> nat
    decreases s.len(),
{
    if s.len() == 0 {
        0
    } else {
        sum_of(s.drop_last()) + s.last()
    }
}

/// A number that is cut at the largest.
pub open spec fn cut(n: nat) -> nat {
    if n > usize::MAX {
        usize::MAX as nat
    } else {
        n
    }
}

/// The sum of numbers, cut at the largest.
pub fn total(v: &Vec<usize>) -> (n: usize)
    ensures
        n == cut(sum_of(counts(v@))),
{
    let mut n: usize = 0;
    let mut i: usize = 0;
    let ghost s = counts(v@);
    while i < v.len()
        invariant
            i <= v@.len(),
            s == counts(v@),
            n == cut(sum_of(s.take(i as int))),
        decreases v@.len() - i,
    {
        proof {
            assert(s.take(i + 1).drop_last() =~= s.take(i as int));
            assert(s.take(i + 1).last() == v@[i as int]);
        }
        n = match n.checked_add(v[i]) {
            Some(t) => t,
            None => usize::MAX,
        };
        i += 1;
    }
    proof {
        assert(s.take(i as int) =~= s);
    }
    n
}

/// What `compact` asks for: the filter, and one region or all.
pub open spec fn compact_request(args: mcp::ArgsView) -> Result<
    (record_store::FilterView, Option<Seq<char>>),
    Seq<char>,
> {
    match mcp::required_number(args, "now_ms"@) {
        Err(e) => Err(e),
        Ok(now) => match mcp::text_arg(args, "region"@, MAX_REGION_BYTES as nat) {
            Err(e) => Err(e),
            Ok(region) => match tools::wishes_of(args) {
                Err(e) => Err(e),
                Ok(w) => match tools::filter_of(Some(now), w) {
                    Err(e) => Err(e),
                    Ok(f) => Ok((f, mcp::filled(region))),
                },
            },
        },
    }
}

/// What `compact` asks for: the filter, and the regions.
pub fn plan_compact(args: &Args, mem: &ShardedHybrid) -> (r: Result<
    (RecordFilter, Vec<String>),
    String,
>)
    ensures
        match (r, compact_request(args@)) {
            (Ok((filter, regions)), Ok((f, one))) => {
                &&& filter@ == f
                &&& match one {
                    Some(region) => text::text_views(regions@) == seq![region],
                    None => lists_regions(mem, text::text_views(regions@)),
                }
            },
            (Err(a), Err(b)) => a@ == b,
            _ => false,
        },
{
    let now: u64 = bounded_req_u64(args, "now_ms")?;
    let region = bounded_string(args, "region", MAX_REGION_BYTES)?;
    let wishes = tools::read_wishes(args)?;
    let filter = tools::make_filter(Some(now), wishes)?;
    if mcp::is_empty(region.as_str()) {
        let names = mem.region_keys();
        proof {
            lemma_lists(mem, names@);
        }
        return Ok((filter, names));
    }
    let mut names: Vec<String> = Vec::new();
    names.push(region);
    proof {
        assert(text::text_views(names@) =~= seq![region@]);
    }
    Ok((filter, names))
}

/// The names are the regions of the memory, in the order of their bytes.
pub open spec fn lists_regions(mem: &ShardedHybrid, names: Seq<Seq<char>>) -> bool {
    &&& names.len() == mem@.dom().len()
    &&& forall|k: Seq<char>| #[trigger] mem@.contains_key(k) <==> names.contains(k)
    &&& forall|i: int, j: int|
        0 <= i < j < names.len() ==> text::text_below(#[trigger] names[i], #[trigger] names[j])
}

pub proof fn lemma_lists(mem: &ShardedHybrid, keys: Seq<String>)
    requires
        keys.len() == mem@.dom().len(),
        forall|i: int| 0 <= i < keys.len() ==> mem@.contains_key((#[trigger] keys[i])@),
        forall|k: Seq<char>| #[trigger]
            mem@.contains_key(k) ==> text::text_views(keys).contains(k),
        forall|i: int, j: int|
            0 <= i < j < keys.len() ==> text::text_below(
                (#[trigger] keys[i])@,
                (#[trigger] keys[j])@,
            ),
    ensures
        lists_regions(mem, text::text_views(keys)),
{
    let names = text::text_views(keys);
    assert forall|k: Seq<char>| #[trigger] mem@.contains_key(k) <==> names.contains(k) by {
        if names.contains(k) {
            let i = choose|i: int| 0 <= i < names.len() && names[i] == k;
            assert(keys[i]@ == k);
        }
    }
    assert forall|i: int, j: int| 0 <= i < j < names.len() implies text::text_below(
        #[trigger] names[i],
        #[trigger] names[j],
    ) by {
        assert(names[i] == keys[i]@ && names[j] == keys[j]@);
    }
}

/// What a purge did.
#[derive(Debug, Clone, Copy, PartialEq, Eq)]
pub struct PurgeReport {
    /// How many records went.
    pub removed: usize,
    /// How many items went.
    pub index_reclaimed: usize,
}

/// The item is of a record that a purge removes.
pub open spec fn is_purged(
    payload: Seq<u8>,
    layer: Map<Seq<char>, record::RecordView>,
    now_unix_ms: u64,
) -> bool {
    let id = mcp::key_of(payload_text(payload));
    layer.contains_key(id) && layer[id].purgeable(now_unix_ms)
}

/// Removes what is dead for good: every region is compacted to what is visible at that
/// time, and then the records go that are inactive and past their retention. Compaction
/// comes first, while the records still say which items are dead, so that no item of a
/// removed record is left. Where a region could not be compacted, no record goes.
pub fn purge(
    mem: &mut ShardedHybrid,
    now_unix_ms: u64,
    regions: &Vec<String>,
    reindexed: &Vec<bool>,
) -> (r: Result<PurgeReport, String>)
    requires
        reindexed@.len() == regions@.len(),
        forall|k: Seq<char>| #[trigger]
            old(mem)@.contains_key(k) ==> text::text_views(regions@).contains(k),
    ensures
        ({
            let c = compact_to(
                old(mem)@,
                old(mem).layer(),
                record_store::lifecycle_filter(now_unix_ms),
                text::text_views(regions@),
                reindexed@,
                regions@.len() as int,
            );
            &&& final(mem)@ == c.items
            &&& match r {
                Ok(report) => {
                    &&& c.complete
                    &&& report.removed == old(mem).layer().len() - final(mem).layer().len()
                    &&& report.index_reclaimed == cut(sum_of(c.reclaimed))
                    &&& forall|k: Seq<char>| #[trigger]
                        final(mem).layer().contains_key(k) <==> old(mem).layer().contains_key(k)
                            && !old(mem).layer()[k].purgeable(now_unix_ms)
                    &&& forall|k: Seq<char>| #[trigger]
                        final(mem).layer().contains_key(k) ==> final(mem).layer()[k] == old(
                            mem,
                        ).layer()[k]
                    &&& forall|k: Seq<char>, i: int|
                        0 <= i < hybrid::items_of(final(mem)@, k).len() ==> !is_purged(
                            #[trigger] hybrid::items_of(final(mem)@, k)[i],
                            old(mem).layer(),
                            now_unix_ms,
                        )
                    &&& forall|k: Seq<char>| #[trigger]
                        hybrid::items_of(final(mem)@, k) == hybrid::items_of(old(mem)@, k).filter(
                            stays(
                                old(mem).layer(),
                                record_store::lifecycle_filter(now_unix_ms),
                            ),
                        )
                },
                Err(m) => {
                    &&& !c.complete
                    &&& m@ == hybrid::reindex_error().message
                    &&& final(mem).layer() == old(mem).layer()
                },
            }
        }),
{
    let filter = RecordFilter::at(now_unix_ms);
    proof {
        mem.lemma_counted();
    }
    let ghost items = mem@;
    let ghost layer = mem.layer();
    let (gone, complete) = compact_regions(mem, regions, &filter, reindexed);
    if !complete {
        return Err("compact_region: a surviving item could not be re-indexed".to_owned());
    }
    proof {
        law_purge_is_irreversible(
            items,
            mem.layer(),
            now_unix_ms,
            text::text_views(regions@),
            reindexed@,
        );
    }
    let ghost after = mem@;
    proof {
        let names = text::text_views(regions@);
        let keep = stays(layer, record_store::lifecycle_filter(now_unix_ms));
        assert(names.take(names.len() as int) =~= names);
        assert forall|k: Seq<char>| #[trigger] hybrid::items_of(after, k) == hybrid::items_of(
            items,
            k,
        ).filter(keep) by {
            if !items.contains_key(k) {
                reveal(Seq::filter);
                assert(hybrid::items_of(items, k).filter(keep) =~= Seq::empty());
            }
        }
        assert forall|k: Seq<char>, i: int|
            0 <= i < hybrid::items_of(after, k).len() implies !is_purged(
            #[trigger] hybrid::items_of(after, k)[i],
            layer,
            now_unix_ms,
        ) by {}
    }
    let index_reclaimed: usize = total(&gone);
    let removed: usize = mem.purge_purgeable_at(now_unix_ms);
    proof {
        assert(mem@ == after);
    }
    Ok(PurgeReport { removed, index_reclaimed })
}

/// Every item of a region is visible.
pub open spec fn all_admitted(
    items: Map<Seq<char>, Seq<Seq<u8>>>,
    layer: Map<Seq<char>, record::RecordView>,
    filter: record_store::FilterView,
    region: Seq<char>,
) -> bool {
    forall|i: int|
        0 <= i < hybrid::items_of(items, region).len() ==> record_store::admitted(
            layer,
            mcp::key_of(payload_text(#[trigger] hybrid::items_of(items, region)[i])),
            filter,
        )
}

proof fn lemma_one_admitted(
    items: Map<Seq<char>, Seq<Seq<u8>>>,
    layer: Map<Seq<char>, record::RecordView>,
    filter: record_store::FilterView,
    region: Seq<char>,
)
    requires
        hybrid::items_of(items, region).len() <= usize::MAX,
    ensures
        all_admitted(compact_one(items, layer, filter, region), layer, filter, region),
{
    let here = hybrid::items_of(items, region);
    let keys = record_keys(here);
    let at = staying(items, layer, filter, region);
    let after = hybrid::items_of(compact_one(items, layer, filter, region), region);
    hybrid::law_compaction_keeps_what_recall_shows(layer, filter, keys, 0);
    assert forall|i: int| 0 <= i < after.len() implies record_store::admitted(
        layer,
        mcp::key_of(payload_text(#[trigger] after[i])),
        filter,
    ) by {
        let a = at[i];
        assert(at.contains(a));
        assert(record_store::admitted(layer, keys[a as int], filter));
    }
}

/// The regions of the memory fit the machine.
pub open spec fn fits(items: Map<Seq<char>, Seq<Seq<u8>>>) -> bool {
    forall|k: Seq<char>| #[trigger] hybrid::items_of(items, k).len() <= usize::MAX
}

proof fn lemma_compacted(
    items: Map<Seq<char>, Seq<Seq<u8>>>,
    layer: Map<Seq<char>, record::RecordView>,
    filter: record_store::FilterView,
    regions: Seq<Seq<char>>,
    reindexed: Seq<bool>,
    n: int,
)
    requires
        fits(items),
        0 <= n <= regions.len(),
        compact_to(items, layer, filter, regions, reindexed, n).complete,
    ensures
        ({
            let c = compact_to(items, layer, filter, regions, reindexed, n);
            &&& fits(c.items)
            &&& forall|k: Seq<char>| #[trigger] c.items.contains_key(k) ==> items.contains_key(k)
            &&& forall|j: int|
                0 <= j < n ==> all_admitted(c.items, layer, filter, #[trigger] regions[j])
        }),
    decreases n,
{
    if n > 0 {
        let s = compact_to(items, layer, filter, regions, reindexed, n - 1);
        let c = compact_to(items, layer, filter, regions, reindexed, n);
        let region = regions[n - 1];
        lemma_compacted(items, layer, filter, regions, reindexed, n - 1);
        lemma_one_admitted(s.items, layer, filter, region);
        let keys = record_keys(hybrid::items_of(s.items, region));
        hybrid::law_compaction_keeps_what_recall_shows(layer, filter, keys, 0);
        lemma_staying_fits(layer, filter, keys, 0);
        assert forall|k: Seq<char>| #[trigger]
            hybrid::items_of(c.items, k).len() <= usize::MAX by {
            assert(hybrid::items_of(s.items, k).len() <= usize::MAX);
        }
        assert forall|k: Seq<char>| #[trigger] c.items.contains_key(k) implies items.contains_key(
            k,
        ) by {
            if k == region {
                let at = staying(s.items, layer, filter, region);
                assert(at.len() > 0);
                assert(s.items.contains_key(k));
            }
        }
        assert forall|j: int| 0 <= j < n implies all_admitted(
            c.items,
            layer,
            filter,
            #[trigger] regions[j],
        ) by {
            if regions[j] != region {
                assert(all_admitted(s.items, layer, filter, regions[j]));
                assert(hybrid::items_of(c.items, regions[j]) == hybrid::items_of(
                    s.items,
                    regions[j],
                ));
            }
        }
    }
}

proof fn lemma_staying_fits(
    layer: Map<Seq<char>, record::RecordView>,
    filter: record_store::FilterView,
    keys: Seq<Seq<char>>,
    from: int,
)
    requires
        0 <= from <= keys.len(),
    ensures
        hybrid::surviving(layer, filter, keys, from).len() <= keys.len() - from,
    decreases keys.len() - from,
{
    if from < keys.len() {
        lemma_staying_fits(layer, filter, keys, from + 1);
    }
}

/// A purge is irreversible: once every region is compacted, no item carries the id of a
/// record that may be purged, so no recall can return such an item again.
pub proof fn law_purge_is_irreversible(
    items: Map<Seq<char>, Seq<Seq<u8>>>,
    layer: Map<Seq<char>, record::RecordView>,
    now_unix_ms: u64,
    regions: Seq<Seq<char>>,
    reindexed: Seq<bool>,
)
    requires
        fits(items),
        forall|k: Seq<char>| #[trigger] items.contains_key(k) ==> regions.contains(k),
        compact_to(
            items,
            layer,
            record_store::lifecycle_filter(now_unix_ms),
            regions,
            reindexed,
            regions.len() as int,
        ).complete,
    ensures
        ({
            let after = compact_to(
                items,
                layer,
                record_store::lifecycle_filter(now_unix_ms),
                regions,
                reindexed,
                regions.len() as int,
            ).items;
            forall|k: Seq<char>, i: int|
                0 <= i < hybrid::items_of(after, k).len() ==> !is_purged(
                    #[trigger] hybrid::items_of(after, k)[i],
                    layer,
                    now_unix_ms,
                )
        }),
{
    let f = record_store::lifecycle_filter(now_unix_ms);
    let after = compact_to(items, layer, f, regions, reindexed, regions.len() as int).items;
    lemma_compacted(items, layer, f, regions, reindexed, regions.len() as int);
    assert forall|k: Seq<char>, i: int| 0 <= i < hybrid::items_of(after, k).len() implies !is_purged(
        #[trigger] hybrid::items_of(after, k)[i],
        layer,
        now_unix_ms,
    ) by {
        assert(after.contains_key(k));
        assert(items.contains_key(k));
        let j = choose|j: int| 0 <= j < regions.len() && regions[j] == k;
        assert(all_admitted(after, layer, f, regions[j]));
    }
}

/// The payloads of a region as record ids.
pub open spec fn whole_keys(items: Seq<Seq<u8>>) -> Seq<Seq<char>> {
    items.map_values(|b: Seq<u8>| payload_text(b))
}

fn whole_keys_in(mem: &ShardedHybrid, region: &str) -> (r: Vec<String>)
    ensures
        text::text_views(r@) == whole_keys(hybrid::items_of(mem@, region@)),
        r@.len() == hybrid::items_of(mem@, region@).len(),
{
    let items = mem.payloads(region);
    let ghost views = hybrid::items_of(mem@, region@);
    let mut out: Vec<String> = Vec::new();
    let mut i: usize = 0;
    while i < items.len()
        invariant
            i <= items@.len(),
            hybrid::payload_views(items@) == views,
            out@.len() == i,
            forall|j: int| 0 <= j < i ==> (#[trigger] out@[j])@ == payload_text(views[j]),
        decreases items@.len() - i,
    {
        proof {
            assert(views[i as int] == items@[i as int]@);
        }
        out.push(lossy_text(items[i].as_slice()));
        i += 1;
    }
    proof {
        assert(text::text_views(out@) =~= whole_keys(views));
    }
    out
}

/// What the compaction of a region by its lifecycle leaves: the items whose ids, given as
/// `keys`, are visible at a time.
pub open spec fn compacted_at(
    items: Map<Seq<char>, Seq<Seq<u8>>>,
    layer: Map<Seq<char>, record::RecordView>,
    region: Seq<char>,
    keys: Seq<Seq<char>>,
    now_unix_ms: u64,
) -> Map<Seq<char>, Seq<Seq<u8>>> {
    let at = hybrid::surviving(layer, record_store::lifecycle_filter(now_unix_ms), keys, 0);
    if at.len() == 0 {
        items.remove(region)
    } else {
        items.insert(region, hybrid::picked(hybrid::items_of(items, region), at))
    }
}

impl ShardedHybrid {
    /// Compacts a region to what is visible at a time. A payload is itself the id of its
    /// record.
    pub fn compact_region(&mut self, region: &str, now_unix_ms: u64, reindexed: bool) -> (r: Result<
        usize,
        String,
    >)
        ensures
            final(self).layer() == old(self).layer(),
            ({
                let keys = whole_keys(hybrid::items_of(old(self)@, region@));
                let at = hybrid::surviving(
                    old(self).layer(),
                    record_store::lifecycle_filter(now_unix_ms),
                    keys,
                    0,
                );
                match r {
                    Ok(n) => {
                        &&& at.len() > 0 ==> reindexed
                        &&& n == keys.len() - at.len()
                        &&& final(self)@ == compacted_at(
                            old(self)@,
                            old(self).layer(),
                            region@,
                            keys,
                            now_unix_ms,
                        )
                    },
                    Err(m) => {
                        &&& at.len() > 0 && !reindexed
                        &&& m@ == hybrid::reindex_error().message
                        &&& final(self)@ == old(self)@
                    },
                }
            }),
    {
        let keys = whole_keys_in(self, region);
        match self.compact_filtered(region, &keys, &RecordFilter::at(now_unix_ms), reindexed) {
            Ok(n) => Ok(n),
            Err(e) => Err(e.message().to_owned()),
        }
    }
}

/// The items that a compaction keeps.
pub open spec fn stays(
    layer: Map<Seq<char>, record::RecordView>,
    filter: record_store::FilterView,
) -> spec_fn(Seq<u8>) -> bool {
    |b: Seq<u8>| record_store::admitted(layer, mcp::key_of(payload_text(b)), filter)
}

/// What a compaction of regions does. It keeps just the admitted items of the regions that it has
/// done, in their order, and leaves every other region as it was. It counts what each region lost.
/// It has done all regions, or ended before one whose survivors could not be indexed again.
pub open spec fn is_compaction(
    before: Map<Seq<char>, Seq<Seq<u8>>>,
    after: Map<Seq<char>, Seq<Seq<u8>>>,
    layer: Map<Seq<char>, record::RecordView>,
    filter: record_store::FilterView,
    regions: Seq<Seq<char>>,
    reindexed: Seq<bool>,
    reclaimed: Seq<nat>,
    complete: bool,
) -> bool {
    let done = reclaimed.len() as int;
    &&& done <= regions.len()
    &&& complete <==> done == regions.len()
    &&& !complete ==> !reindexed[done] && exists|b: Seq<u8>|
        hybrid::items_of(after, regions[done]).contains(b) && #[trigger] stays(layer, filter)(b)
    &&& forall|k: Seq<char>|
        #![trigger hybrid::items_of(before, k)]
        #![trigger hybrid::items_of(after, k)]
        hybrid::items_of(after, k) == (if regions.take(done).contains(k) {
            hybrid::items_of(before, k).filter(stays(layer, filter))
        } else {
            hybrid::items_of(before, k)
        })
    &&& regions.no_duplicates() ==> forall|i: int|
        0 <= i < done ==> #[trigger] reclaimed[i] == hybrid::items_of(before, regions[i]).len()
            - hybrid::items_of(before, regions[i]).filter(stays(layer, filter)).len()
}

/// Compaction keeps just what the filter admits.
pub proof fn law_compaction_keeps_just_the_admitted(
    items: Map<Seq<char>, Seq<Seq<u8>>>,
    layer: Map<Seq<char>, record::RecordView>,
    filter: record_store::FilterView,
    regions: Seq<Seq<char>>,
    reindexed: Seq<bool>,
)
    requires
        fits(items),
    ensures
        ({
            let c = compact_to(items, layer, filter, regions, reindexed, regions.len() as int);
            is_compaction(
                items,
                c.items,
                layer,
                filter,
                regions,
                reindexed,
                c.reclaimed,
                c.complete,
            )
        }),
{
    lemma_compaction(items, layer, filter, regions, reindexed, regions.len() as int);
}

proof fn lemma_compaction(
    items: Map<Seq<char>, Seq<Seq<u8>>>,
    layer: Map<Seq<char>, record::RecordView>,
    filter: record_store::FilterView,
    regions: Seq<Seq<char>>,
    reindexed: Seq<bool>,
    n: int,
)
    requires
        fits(items),
        0 <= n <= regions.len(),
    ensures
        ({
            let c = compact_to(items, layer, filter, regions, reindexed, n);
            let done = c.reclaimed.len() as int;
            &&& done <= n
            &&& c.complete <==> done == n
            &&& !c.complete ==> !reindexed[done] && exists|b: Seq<u8>|
                hybrid::items_of(c.items, regions[done]).contains(b) && #[trigger] stays(
                    layer,
                    filter,
                )(b)
            &&& forall|k: Seq<char>|
                #![trigger hybrid::items_of(items, k)]
                #![trigger hybrid::items_of(c.items, k)]
                hybrid::items_of(c.items, k) == (if regions.take(done).contains(k) {
                    hybrid::items_of(items, k).filter(stays(layer, filter))
                } else {
                    hybrid::items_of(items, k)
                })
            &&& regions.no_duplicates() ==> forall|i: int|
                0 <= i < done ==> #[trigger] c.reclaimed[i] == hybrid::items_of(
                    items,
                    regions[i],
                ).len() - hybrid::items_of(items, regions[i]).filter(stays(layer, filter)).len()
        }),
    decreases n,
{
    let keep = stays(layer, filter);
    let c = compact_to(items, layer, filter, regions, reindexed, n);
    if n <= 0 {
        assert forall|k: Seq<char>|
            #![trigger hybrid::items_of(items, k)]
            #![trigger hybrid::items_of(c.items, k)]
            hybrid::items_of(c.items, k) == (if regions.take(0).contains(k) {
                hybrid::items_of(items, k).filter(keep)
            } else {
                hybrid::items_of(items, k)
            }) by {
            assert(!regions.take(0).contains(k));
        }
    } else {
        lemma_compaction(items, layer, filter, regions, reindexed, n - 1);
        let s = compact_to(items, layer, filter, regions, reindexed, n - 1);
        let region = regions[n - 1];
        if s.complete {
            let had = hybrid::items_of(s.items, region);
            let at = staying(s.items, layer, filter, region);
            let first = hybrid::items_of(items, region);
            broadcast use vstd::seq_lib::group_filter_ensures;

            assert(first.len() <= usize::MAX);
            assert(had.len() <= usize::MAX);
            lemma_staying_is_a_filter(had, layer, filter, 0);
            assert(had.skip(0) =~= had);
            assert(hybrid::picked(had, at) == had.filter(keep));
            lemma_filter_again(first, keep);
            assert(had.filter(keep) == first.filter(keep));
            if at.len() > 0 && !reindexed[n - 1] {
                let b = had.filter(keep)[0];
                lemma_filter_has(had, keep, 0);
                assert(keep(b) && had.contains(b));
            } else {
                assert(regions.take(n) =~= regions.take(n - 1).push(region));
                assert forall|k: Seq<char>|
                    #![trigger hybrid::items_of(items, k)]
                    #![trigger hybrid::items_of(c.items, k)]
                    hybrid::items_of(c.items, k) == (if regions.take(n).contains(k) {
                        hybrid::items_of(items, k).filter(keep)
                    } else {
                        hybrid::items_of(items, k)
                    }) by {
                    let past = regions.take(n - 1);
                    if k == region {
                        assert(regions.take(n)[n - 1] == k);
                        assert(regions.take(n).contains(k));
                        if at.len() == 0 {
                            assert(hybrid::picked(had, at) =~= Seq::empty());
                        }
                        assert(hybrid::items_of(c.items, k) == had.filter(keep));
                    } else {
                        assert(hybrid::items_of(c.items, k) == hybrid::items_of(s.items, k));
                        if past.contains(k) {
                            let j = choose|j: int| 0 <= j < past.len() && past[j] == k;
                            assert(regions.take(n)[j] == k);
                        }
                        if regions.take(n).contains(k) {
                            let done = regions.take(n);
                            let j = choose|j: int| 0 <= j < done.len() && done[j] == k;
                            assert(past[j] == k);
                        }
                    }
                }
                if regions.no_duplicates() {
                    let past = regions.take(n - 1);
                    assert(!past.contains(region)) by {
                        if past.contains(region) {
                            let j = choose|j: int| 0 <= j < past.len() && past[j] == region;
                            assert(regions[j] == regions[n - 1]);
                        }
                    }
                    assert(had == first);
                    assert forall|i: int| 0 <= i < n implies #[trigger] c.reclaimed[i]
                        == hybrid::items_of(items, regions[i]).len() - hybrid::items_of(
                        items,
                        regions[i],
                    ).filter(keep).len() by {
                        if i < n - 1 {
                            assert(c.reclaimed[i] == s.reclaimed[i]);
                        } else {
                            assert(at.len() == hybrid::picked(had, at).len());
                        }
                    }
                }
            }
        }
    }
}

proof fn lemma_staying_is_a_filter(
    had: Seq<Seq<u8>>,
    layer: Map<Seq<char>, record::RecordView>,
    filter: record_store::FilterView,
    from: int,
)
    requires
        0 <= from <= had.len() <= usize::MAX,
    ensures
        hybrid::picked(had, hybrid::surviving(layer, filter, record_keys(had), from)) == had.skip(
            from,
        ).filter(stays(layer, filter)),
    decreases had.len() - from,
{
    let keep = stays(layer, filter);
    let keys = record_keys(had);
    reveal(Seq::filter);
    if from < had.len() {
        lemma_staying_is_a_filter(had, layer, filter, from + 1);
        let rest = hybrid::surviving(layer, filter, keys, from + 1);
        let one = seq![had[from]];
        assert(had.skip(from) =~= one + had.skip(from + 1));
        Seq::filter_distributes_over_add(one, had.skip(from + 1), keep);
        assert(one.drop_last() =~= Seq::empty());
        assert(one.drop_last().filter(keep) =~= Seq::empty());
        assert(keys[from] == mcp::key_of(payload_text(had[from])));
        if keep(had[from]) {
            assert(one.filter(keep) =~= one);
            assert(hybrid::picked(had, seq![from as usize] + rest) =~= one + hybrid::picked(
                had,
                rest,
            ));
        } else {
            assert(one.filter(keep) =~= Seq::empty());
            assert(Seq::empty() + had.skip(from + 1).filter(keep) =~= had.skip(from + 1).filter(
                keep,
            ));
        }
    } else {
        assert(had.skip(from) =~= Seq::empty());
        assert(had.skip(from).filter(keep) =~= Seq::empty());
        assert(hybrid::picked(had, hybrid::surviving(layer, filter, keys, from)) =~= Seq::empty());
    }
}

proof fn lemma_filter_again(s: Seq<Seq<u8>>, keep: spec_fn(Seq<u8>) -> bool)
    ensures
        s.filter(keep).filter(keep) == s.filter(keep),
    decreases s.len(),
{
    reveal(Seq::filter);
    if s.len() > 0 {
        let p = s.drop_last();
        lemma_filter_again(p, keep);
        if keep(s.last()) {
            let t = p.filter(keep).push(s.last());
            assert(t.drop_last() =~= p.filter(keep));
            assert(t.filter(keep) =~= t);
        }
    }
}

proof fn lemma_filter_has(s: Seq<Seq<u8>>, keep: spec_fn(Seq<u8>) -> bool, i: int)
    requires
        0 <= i < s.filter(keep).len(),
    ensures
        keep(s.filter(keep)[i]),
        s.contains(s.filter(keep)[i]),
    decreases s.len(),
{
    reveal(Seq::filter);
    if s.len() > 0 {
        let p = s.drop_last();
        if i < p.filter(keep).len() {
            lemma_filter_has(p, keep, i);
            let j = choose|j: int| 0 <= j < p.len() && p[j] == p.filter(keep)[i];
            assert(s[j] == p.filter(keep)[i]);
        } else {
            assert(s[s.len() - 1] == s.last());
        }
    }
}

/// Sums add up, and one number is its own sum.
pub proof fn law_sums_add_up(a: Seq<nat>, b: Seq<nat>, n: nat)
    ensures
        sum_of(a + b) == sum_of(a) + sum_of(b),
        sum_of(seq![n]) == n,
    decreases b.len(),
{
    assert(seq![n].drop_last() =~= Seq::empty());
    assert(sum_of(seq![n].drop_last()) == 0);
    if b.len() == 0 {
        assert(a + b =~= a);
    } else {
        law_sums_add_up(a, b.drop_last(), n);
        assert((a + b).drop_last() =~= a + b.drop_last());
        assert((a + b).last() == b.last());
    }
}

/// A deletion, a new relation and a compaction take what their arguments give: the uri, the target
/// and the relation; the generation that is given, or the next one; and the time, the wishes and
/// the region.
pub proof fn law_requests_take_what_is_given(
    args: mcp::ArgsView,
    layer: Map<Seq<char>, record::RecordView>,
)
    ensures
        tombstone_request(args, layer) matches Ok((uri, g)) ==> {
            &&& uri == mcp::text_given(args, "uri"@)
            &&& uri.len() > 0
            &&& layer.contains_key(uri) ==> g > layer[uri].generation
            &&& mcp::number_given(args, "generation"@) matches Some(n) ==> g == n
            &&& mcp::number_given(args, "generation"@) is None ==> g == 1 + (if layer.contains_key(
                uri,
            ) {
                layer[uri].generation as int
            } else {
                0
            })
        },
        relate_request(args, layer) matches Ok(r) ==> {
            &&& r.uri == mcp::text_given(args, "uri"@)
            &&& r.uri.len() > 0
            &&& r.target == mcp::text_given(args, "target"@)
            &&& r.target.len() > 0
            &&& mcp::relation_of(mcp::text_given(args, "relation"@)) == Ok::<_, Seq<char>>(r.kind)
            &&& layer.contains_key(r.uri) ==> r.generation > layer[r.uri].generation
            &&& mcp::number_given(args, "generation"@) matches Some(n) ==> r.generation == n
        },
        compact_request(args) matches Ok((f, region)) ==> {
            &&& f.lifecycle
            &&& mcp::number_given(args, "now_ms"@) == Some(f.now_unix_ms)
            &&& region == tools::wish_given(args, "region"@)
            &&& f.tenant == tools::wish_given(args, "tenant"@)
            &&& f.workspace == tools::wish_given(args, "workspace"@)
            &&& f.agent == tools::wish_given(args, "agent"@)
            &&& mcp::text_given(args, "clearance"@).len() == 0 ==> f.clearance
                == record::Sensitivity::Restricted
            &&& mcp::text_given(args, "clearance"@).len() > 0 ==> mcp::sensitivity_of(
                mcp::text_given(args, "clearance"@),
            ) == Ok::<_, Seq<char>>(f.clearance)
        },
{
}

/// The text that a payload was made of comes back, and so does the uri as its record id.
pub proof fn law_payload_text_comes_back(s: Seq<char>, uri: Seq<char>, content: Seq<char>)
    ensures
        payload_text(encode_utf8(s)) == s,
        !uri.contains(mcp::SEP) ==> mcp::key_of(
            payload_text(encode_utf8(mcp::packed(uri, content))),
        ) == uri,
{
    encode_utf8_valid_utf8(s);
    encode_utf8_decode_utf8(s);
    let p = mcp::packed(uri, content);
    encode_utf8_valid_utf8(p);
    encode_utf8_decode_utf8(p);
    if !uri.contains(mcp::SEP) {
        mcp::law_payload_round_trip(uri, content);
    }
}

/// A deletion, a new relation and a compaction are accepted just where their arguments are in
/// order.
pub proof fn law_requests_are_accepted(
    args: mcp::ArgsView,
    layer: Map<Seq<char>, record::RecordView>,
)
    ensures
        ({
            let uri = mcp::text_given(args, "uri"@);
            let word = mcp::text_given(args, "relation"@);
            let clearance = mcp::text_given(args, "clearance"@);
            let stored = if layer.contains_key(uri) {
                Some(layer[uri].generation)
            } else {
                None
            };
            &&& tombstone_request(args, layer) is Ok <==> {
                &&& mcp::text_ok(args, "uri"@, 4_096)
                &&& uri.len() > 0
                &&& mcp::generation_ok(args, stored)
            }
            &&& relate_request(args, layer) is Ok <==> {
                &&& mcp::text_ok(args, "uri"@, 4_096)
                &&& uri.len() > 0
                &&& mcp::text_ok(args, "target"@, 4_096)
                &&& mcp::text_given(args, "target"@).len() > 0
                &&& mcp::text_ok(args, "relation"@, 32)
                &&& word == "confirms"@ || word == "contradicts"@ || word == "supersedes"@ || word
                    == "superseded_by"@ || word == "superseded-by"@
                &&& mcp::generation_ok(args, stored)
            }
            &&& compact_request(args) is Ok <==> {
                &&& mcp::number_given(args, "now_ms"@) is Some
                &&& mcp::text_ok(args, "region"@, 1_024)
                &&& mcp::text_ok(args, "tenant"@, 256)
                &&& mcp::text_ok(args, "workspace"@, 256)
                &&& mcp::text_ok(args, "agent"@, 256)
                &&& mcp::text_ok(args, "clearance"@, 32)
                &&& clearance.len() == 0 || mcp::sensitivity_known(clearance)
            }
        }),
{
    mcp::law_newer_generations_are_accepted(
        tools::generation_in(layer, mcp::text_given(args, "uri"@)),
        args,
    );
    mcp::law_sensitivity_words(mcp::text_given(args, "clearance"@));
}

/// A number is cut just where it does not fit the machine.
pub proof fn law_only_what_does_not_fit_is_cut(n: nat)
    ensures
        n <= usize::MAX ==> cut(n) == n,
        n > usize::MAX ==> cut(n) == usize::MAX,
{
}

} // verus!
