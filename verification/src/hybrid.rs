//! The sharded hybrid memory: which items each causal region holds, the record layer over
//! them, and the decisions of recall, expansion and compaction.
//!
//! The engines that embed, index and rank stand outside; they hand in ranked hits and are
//! told what to keep.
use crate::embed::{EmbedError, EmbedFault};
use crate::error::StoreError;
use crate::error;
use crate::fileguard;
use crate::manifest::HybridManifest;
use crate::record::{MemoryRecord, RecordError, RelationKind};
use crate::record;
use crate::record_store::{RecordFilter, RecordStore};
use crate::record_store;
use crate::sharded;
use crate::text;
use crate::totals;
use crate::text::push_decimal;
use vstd::prelude::*;

verus! {

/// Bounds of the relation expansion of a recall.
#[derive(Clone, Copy, Debug)]
pub struct Traversal {
    /// Levels of relations to follow, capped at 2.
    pub hops: usize,
    /// Rows that the expansion appends at most.
    pub max_expanded: usize,
}

impl Default for Traversal {
    fn default() -> (t: Traversal)
        ensures
            t.hops == 1,
            t.max_expanded == 8,
    {
        Traversal { hops: 1, max_expanded: 8 }
    }
}

/// How candidates are found before the exact ranking.
#[derive(Clone, Copy, Debug, PartialEq, Eq, Structural)]
pub enum QueryStrategy {
    /// Spatial candidates.
    FastSpatial,
    /// A shortlist of sketches over all items.
    PrecisionSketch,
    /// A wide spatial neighbourhood, pruned by sketches.
    HybridCascade,
}

/// How many candidates each stage of a query takes.
#[derive(Clone, Copy, Debug, PartialEq, Eq, Structural)]
pub enum QueryPlan {
    /// So many spatial candidates.
    Spatial(usize),
    /// So many sketches.
    Sketch(usize),
    /// So many spatial candidates, pruned to so many.
    Cascade(usize, usize),
}

/// The larger of a default and what is wanted.
pub open spec fn at_least(default: usize, k: usize) -> usize {
    if default >= k {
        default
    } else {
        k
    }
}

impl QueryStrategy {
    /// The plan of a query for `k` items with a default shortlist.
    pub fn plan(self, default_shortlist: usize, k: usize) -> (p: QueryPlan)
        ensures
            p == (match self {
                QueryStrategy::FastSpatial => QueryPlan::Spatial(at_least(default_shortlist, k)),
                QueryStrategy::PrecisionSketch => QueryPlan::Sketch(at_least(default_shortlist, k)),
                QueryStrategy::HybridCascade => QueryPlan::Cascade(
                    if 4 * at_least(default_shortlist, k) > usize::MAX {
                        usize::MAX
                    } else {
                        (4 * at_least(default_shortlist, k)) as usize
                    },
                    at_least(default_shortlist, k),
                ),
            }),
    {
        let shortlist: usize = if default_shortlist >= k {
            default_shortlist
        } else {
            k
        };
        match self {
            QueryStrategy::FastSpatial => QueryPlan::Spatial(shortlist),
            QueryStrategy::PrecisionSketch => QueryPlan::Sketch(shortlist),
            QueryStrategy::HybridCascade => {
                let broad: usize = match shortlist.checked_mul(4) {
                    Some(n) => n,
                    None => usize::MAX,
                };
                QueryPlan::Cascade(broad, shortlist)
            },
        }
    }
}

/// The hits that a filtered recall fetches first: three times as many as wanted and eight
/// more, but no more than the region holds, or than wanted where it holds fewer.
pub open spec fn fetch_size(k: nat, held: nat) -> nat {
    let more = if 3 * k + 8 > usize::MAX {
        usize::MAX as nat
    } else {
        3 * k + 8
    };
    let room = if held >= k {
        held
    } else {
        k
    };
    if more <= room {
        more
    } else {
        room
    }
}

/// The hits to fetch first for `k` shown ones from a region of `held` items.
pub fn hits_to_fetch(k: usize, held: usize) -> (n: usize)
    ensures
        n == fetch_size(k as nat, held as nat),
{
    let more: usize = match k.checked_mul(3) {
        Some(n) => match n.checked_add(8) {
            Some(m) => m,
            None => usize::MAX,
        },
        None => usize::MAX,
    };
    let room: usize = if held >= k {
        held
    } else {
        k
    };
    if more <= room {
        more
    } else {
        room
    }
}

/// The hits that a filtered recall fetches next where the first `fetched` of a region's `held`
/// show too few: three times as many and eight more, but no more than the region holds.
pub open spec fn deeper_size(held: nat, fetched: nat) -> nat {
    if 3 * fetched + 8 <= held {
        3 * fetched + 8
    } else {
        held
    }
}

/// How many hits to fetch next, where of the first `fetched` of a region's `held` hits so few
/// as `shown` are shown, and `k` are wanted; nothing where enough are shown or no more hits
/// are there.
pub fn next_fetch(k: usize, held: usize, fetched: usize, shown: usize) -> (n: Option<usize>)
    ensures
        n is None <==> (shown >= k || fetched >= held),
        n matches Some(m) ==> fetched < m <= held && m == deeper_size(
            held as nat,
            fetched as nat,
        ),
{
    if shown >= k || fetched >= held {
        return None;
    }
    match fetched.checked_mul(3) {
        Some(n) => match n.checked_add(8) {
            Some(m) => if m <= held {
                Some(m)
            } else {
                Some(held)
            },
            None => Some(held),
        },
        None => Some(held),
    }
}

/// A ranked hit: its payload, the record id in it, and the bit pattern of its score.
#[derive(Debug)]
pub struct Hit {
    /// The payload.
    pub payload: String,
    /// The record id.
    pub key: String,
    /// The bit pattern of the score.
    pub score: u32,
}

/// A hit as a value.
pub struct HitView {
    pub payload: Seq<char>,
    pub key: Seq<char>,
    pub score: u32,
}

impl View for Hit {
    type V = HitView;

    open spec fn view(&self) -> HitView {
        HitView { payload: self.payload@, key: self.key@, score: self.score }
    }
}

/// The views of hits.
pub open spec fn hit_views(s: Seq<Hit>) -> Seq<HitView> {
    s.map_values(|h: Hit| h@)
}

pub(crate) fn clone_hit(h: &Hit) -> (r: Hit)
    ensures
        r@ == h@,
{
    Hit {
        payload: h.payload.as_str().to_owned(),
        key: h.key.as_str().to_owned(),
        score: h.score,
    }
}

/// The first `k` hits whose record ids a filter admits.
pub open spec fn shown(
    m: Map<Seq<char>, record::RecordView>,
    f: record_store::FilterView,
    hits: Seq<HitView>,
    k: nat,
) -> Seq<HitView>
    decreases hits.len(),
{
    if hits.len() == 0 {
        Seq::empty()
    } else {
        let before = shown(m, f, hits.drop_last(), k);
        if before.len() < k && record_store::admitted(m, hits.last().key, f) {
            before.push(hits.last())
        } else {
            before
        }
    }
}

/// The first `k` admitted hits, in their order.
fn show(records: &RecordStore, filter: &RecordFilter, hits: &Vec<Hit>, k: usize) -> (out: Vec<Hit>)
    ensures
        hit_views(out@) == shown(records@, filter@, hit_views(hits@), k as nat),
{
    let mut out: Vec<Hit> = Vec::new();
    let mut i: usize = 0;
    proof {
        assert(hit_views(out@) =~= shown(records@, filter@, hit_views(hits@).take(0), k as nat));
    }
    while i < hits.len()
        invariant
            i <= hits@.len(),
            hit_views(out@) == shown(
                records@,
                filter@,
                hit_views(hits@).take(i as int),
                k as nat,
            ),
        decreases hits@.len() - i,
    {
        proof {
            let all = hit_views(hits@);
            assert(all.take(i + 1).drop_last() =~= all.take(i as int));
            assert(all.take(i + 1).last() == hits@[i as int]@);
            assert(hit_views(out@).len() == out@.len());
        }
        if out.len() < k && records.admits(hits[i].key.as_str(), filter) {
            let h = clone_hit(&hits[i]);
            proof {
                assert(hit_views(out@.push(h)) =~= hit_views(out@).push(h@));
            }
            out.push(h);
        }
        i += 1;
    }
    proof {
        assert(hit_views(hits@).take(i as int) =~= hit_views(hits@));
    }
    out
}

/// What a recall shows is admitted, is no more than wanted, and, where fewer than wanted
/// are shown, leaves out no admitted hit.
pub proof fn law_recall_shows_what_is_admitted(
    m: Map<Seq<char>, record::RecordView>,
    f: record_store::FilterView,
    hits: Seq<HitView>,
    k: nat,
)
    ensures
        shown(m, f, hits, k).len() <= k,
        forall|i: int|
            0 <= i < shown(m, f, hits, k).len() ==> record_store::admitted(
                m,
                (#[trigger] shown(m, f, hits, k)[i]).key,
                f,
            ) && hits.contains(shown(m, f, hits, k)[i]),
        shown(m, f, hits, k).len() < k ==> forall|j: int|
            0 <= j < hits.len() && record_store::admitted(m, (#[trigger] hits[j]).key, f)
                ==> shown(m, f, hits, k).contains(hits[j]),
    decreases hits.len(),
{
    if hits.len() > 0 {
        let p = hits.drop_last();
        law_recall_shows_what_is_admitted(m, f, p, k);
        let s = shown(m, f, hits, k);
        let b = shown(m, f, p, k);
        assert forall|i: int| 0 <= i < s.len() implies record_store::admitted(
            m,
            (#[trigger] s[i]).key,
            f,
        ) && hits.contains(s[i]) by {
            if i < b.len() {
                assert(b[i] == s[i]);
                let j = choose|j: int| 0 <= j < p.len() && p[j] == b[i];
                assert(hits[j] == s[i]);
            } else {
                assert(hits[hits.len() - 1] == s[i]);
            }
        }
        if s.len() < k {
            assert forall|j: int|
                0 <= j < hits.len() && record_store::admitted(m, (#[trigger] hits[j]).key, f)
                implies s.contains(hits[j]) by {
                if j < p.len() {
                    assert(p[j] == hits[j]);
                    assert(b.contains(hits[j]));
                    let i = choose|i: int| 0 <= i < b.len() && b[i] == hits[j];
                    assert(s[i] == hits[j]);
                } else {
                    assert(s[s.len() - 1] == hits[j]);
                }
            }
        }
    }
}

/// The hits whose record ids a filter admits.
pub open spec fn admitted_hits(
    m: Map<Seq<char>, record::RecordView>,
    f: record_store::FilterView,
    hits: Seq<HitView>,
) -> Seq<HitView> {
    hits.filter(|h: HitView| record_store::admitted(m, h.key, f))
}

/// Hits are the first `k` of those that a filter admits, in their order, or all of them where
/// there are fewer.
pub open spec fn is_shown(
    m: Map<Seq<char>, record::RecordView>,
    f: record_store::FilterView,
    hits: Seq<HitView>,
    k: nat,
    out: Seq<HitView>,
) -> bool {
    let all = hits.filter(|h: HitView| record_store::admitted(m, h.key, f));
    &&& out.len() <= k
    &&& out.len() <= all.len()
    &&& out.len() == k || out.len() == all.len()
    &&& forall|i: int| 0 <= i < out.len() ==> #[trigger] out[i] == all[i]
}

proof fn lemma_is_shown(
    m: Map<Seq<char>, record::RecordView>,
    f: record_store::FilterView,
    hits: Seq<HitView>,
    k: nat,
)
    ensures
        is_shown(m, f, hits, k, shown(m, f, hits, k)),
{
    law_hidden_hits_shrink_nothing(m, f, hits, k);
    let s = shown(m, f, hits, k);
    let all = hits.filter(|h: HitView| record_store::admitted(m, h.key, f));
    assert(all == admitted_hits(m, f, hits));
    assert forall|i: int| 0 <= i < s.len() implies #[trigger] s[i] == all[i] by {
        assert(admitted_hits(m, f, hits).take(s.len() as int)[i] == all[i]);
    }
}

/// A recall shows the first `k` of the admitted hits: hidden hits, however many and however
/// near, leave it as long as it is without them.
pub proof fn law_hidden_hits_shrink_nothing(
    m: Map<Seq<char>, record::RecordView>,
    f: record_store::FilterView,
    hits: Seq<HitView>,
    k: nat,
)
    ensures
        shown(m, f, hits, k).len() == (if admitted_hits(m, f, hits).len() < k {
            admitted_hits(m, f, hits).len()
        } else {
            k
        }),
        shown(m, f, hits, k) == admitted_hits(m, f, hits).take(
            shown(m, f, hits, k).len() as int,
        ),
    decreases hits.len(),
{
    reveal(Seq::filter);
    if hits.len() > 0 {
        law_hidden_hits_shrink_nothing(m, f, hits.drop_last(), k);
        let a = admitted_hits(m, f, hits);
        let b = admitted_hits(m, f, hits.drop_last());
        let s = shown(m, f, hits, k);
        let t = shown(m, f, hits.drop_last(), k);
        assert(s =~= a.take(s.len() as int)) by {
            assert forall|i: int| 0 <= i < s.len() implies s[i] == a[i] by {
                if i < t.len() {
                    assert(t[i] == b[i]);
                }
            }
        }
    } else {
        assert(shown(m, f, hits, k) =~= admitted_hits(m, f, hits).take(0));
    }
}

/// Fetching deeper until [`next_fetch`] asks for no more shows what the whole ranking of the
/// region shows.
pub proof fn law_fetching_until_enough_shows_all(
    m: Map<Seq<char>, record::RecordView>,
    f: record_store::FilterView,
    ranking: Seq<HitView>,
    fetched: nat,
    k: nat,
)
    requires
        fetched <= ranking.len(),
        shown(m, f, ranking.take(fetched as int), k).len() >= k || fetched >= ranking.len(),
    ensures
        shown(m, f, ranking.take(fetched as int), k) == shown(m, f, ranking, k),
    decreases ranking.len() - fetched,
{
    if fetched == ranking.len() {
        assert(ranking.take(fetched as int) =~= ranking);
    } else {
        let one_more = ranking.take((fetched + 1) as int);
        assert(one_more.drop_last() =~= ranking.take(fetched as int));
        law_fetching_until_enough_shows_all(m, f, ranking, fetched + 1, k);
    }
}

/// A row of a relation-aware recall: a hit, or an item that relations lead to from one. A
/// row that was led to carries its parent's score.
#[derive(Debug)]
pub struct RelatedHit {
    /// The payload.
    pub payload: String,
    /// The record id.
    pub key: String,
    /// The bit pattern of the score: its own for a hit, else its parent's.
    pub score: u32,
    /// 0 for a hit, else the level.
    pub hop: usize,
    /// The relation that led to the row.
    pub via_kind: Option<RelationKind>,
    /// The record that the relation led from.
    pub via_from: Option<String>,
}

/// A row as a value.
pub struct RowView {
    pub payload: Seq<char>,
    pub key: Seq<char>,
    pub score: u32,
    pub hop: nat,
    pub via_kind: Option<RelationKind>,
    pub via_from: Option<Seq<char>>,
}

impl View for RelatedHit {
    type V = RowView;

    open spec fn view(&self) -> RowView {
        RowView {
            payload: self.payload@,
            key: self.key@,
            score: self.score,
            hop: self.hop as nat,
            via_kind: self.via_kind,
            via_from: record::optional_text(self.via_from),
        }
    }
}

/// The views of rows.
pub open spec fn row_views(s: Seq<RelatedHit>) -> Seq<RowView> {
    s.map_values(|r: RelatedHit| r@)
}

/// A hit as a row.
pub open spec fn direct_row(h: HitView) -> RowView {
    RowView {
        payload: h.payload,
        key: h.key,
        score: h.score,
        hop: 0,
        via_kind: None,
        via_from: None,
    }
}

/// An item of a region: the record id in its payload, and the payload.
#[derive(Debug)]
pub struct Entry {
    /// The record id.
    pub key: String,
    /// The payload.
    pub payload: String,
}

/// The views of entries.
pub open spec fn entry_views(s: Seq<Entry>) -> Seq<(Seq<char>, Seq<char>)> {
    s.map_values(|e: Entry| (e.key@, e.payload@))
}

/// The payload of the last entry with a record id.
pub open spec fn payload_of(entries: Seq<(Seq<char>, Seq<char>)>, key: Seq<char>) -> Option<
    Seq<char>,
>
    decreases entries.len(),
{
    if entries.len() == 0 {
        None
    } else if entries.last().0 == key {
        Some(entries.last().1)
    } else {
        payload_of(entries.drop_last(), key)
    }
}

fn find_payload(entries: &Vec<Entry>, key: &str) -> (r: Option<String>)
    ensures
        record::optional_text(r) == payload_of(entry_views(entries@), key@),
{
    let mut i: usize = entries.len();
    proof {
        assert(entry_views(entries@).take(entries@.len() as int) =~= entry_views(entries@));
    }
    while i > 0
        invariant
            i <= entries@.len(),
            payload_of(entry_views(entries@), key@) == payload_of(
                entry_views(entries@).take(i as int),
                key@,
            ),
        decreases i,
    {
        proof {
            let all = entry_views(entries@);
            assert(all.take(i as int).drop_last() =~= all.take(i - 1));
            assert(all.take(i as int).last() == (
                entries@[i - 1].key@,
                entries@[i - 1].payload@,
            ));
        }
        i -= 1;
        if text::text_equal(entries[i].key.as_str(), key) {
            return Some(entries[i].payload.as_str().to_owned());
        }
    }
    None
}

/// The score of the first row with a record id, or that of zero.
pub open spec fn score_of(rows: Seq<RowView>, key: Seq<char>) -> u32
    decreases rows.len(),
{
    if rows.len() == 0 {
        0
    } else if rows[0].key == key {
        rows[0].score
    } else {
        score_of(rows.drop_first(), key)
    }
}

fn find_score(rows: &Vec<RelatedHit>, key: &str) -> (s: u32)
    ensures
        s == score_of(row_views(rows@), key@),
{
    let mut i: usize = 0;
    proof {
        assert(row_views(rows@).skip(0) =~= row_views(rows@));
    }
    while i < rows.len()
        invariant
            i <= rows@.len(),
            score_of(row_views(rows@), key@) == score_of(row_views(rows@).skip(i as int), key@),
        decreases rows@.len() - i,
    {
        proof {
            let all = row_views(rows@);
            assert(all.skip(i as int).drop_first() =~= all.skip(i + 1));
            assert(all.skip(i as int)[0] == rows@[i as int]@);
        }
        if text::text_equal(rows[i].key.as_str(), key) {
            return rows[i].score;
        }
        i += 1;
    }
    0
}

/// The state of an expansion: the rows, the record ids met so far, those to go on from at
/// the next level, and the number of rows appended.
pub struct Walk {
    pub rows: Seq<RowView>,
    pub seen: Seq<Seq<char>>,
    pub next: Seq<Seq<char>>,
    pub expanded: nat,
}

/// Following one relation: a target that was met before is passed over; else it is met, and
/// where the budget lasts and the region holds it, it is appended with its parent's score.
pub open spec fn follow_edge(
    w: Walk,
    entries: Seq<(Seq<char>, Seq<char>)>,
    parent: Seq<char>,
    edge: record::RelationView,
    hop: nat,
    max: nat,
) -> Walk {
    if w.seen.contains(edge.target) {
        w
    } else {
        let met = Walk { seen: w.seen.push(edge.target), ..w };
        if w.expanded >= max {
            met
        } else {
            match payload_of(entries, edge.target) {
                None => met,
                Some(payload) => Walk {
                    rows: w.rows.push(
                        RowView {
                            payload,
                            key: edge.target,
                            score: score_of(w.rows, parent),
                            hop,
                            via_kind: Some(edge.kind),
                            via_from: Some(parent),
                        },
                    ),
                    seen: w.seen.push(edge.target),
                    next: w.next.push(edge.target),
                    expanded: w.expanded + 1,
                },
            }
        }
    }
}

/// Following the relations of one record, in their order.
pub open spec fn follow_edges(
    w: Walk,
    entries: Seq<(Seq<char>, Seq<char>)>,
    parent: Seq<char>,
    edges: Seq<record::RelationView>,
    hop: nat,
    max: nat,
) -> Walk
    decreases edges.len(),
{
    if edges.len() == 0 {
        w
    } else {
        follow_edge(
            follow_edges(w, entries, parent, edges.drop_last(), hop, max),
            entries,
            parent,
            edges.last(),
            hop,
            max,
        )
    }
}

/// Following the admitted relations of one level's records, in their order.
pub open spec fn follow_level(
    w: Walk,
    m: Map<Seq<char>, record::RecordView>,
    f: record_store::FilterView,
    entries: Seq<(Seq<char>, Seq<char>)>,
    parents: Seq<Seq<char>>,
    hop: nat,
    max: nat,
) -> Walk
    decreases parents.len(),
{
    if parents.len() == 0 {
        w
    } else {
        follow_edges(
            follow_level(w, m, f, entries, parents.drop_last(), hop, max),
            entries,
            parents.last(),
            record_store::related(m, parents.last(), f),
            hop,
            max,
        )
    }
}

/// Following level after level, from `hop` to `hops`, while there is something to go on
/// from and the budget lasts.
pub open spec fn walk(
    w: Walk,
    m: Map<Seq<char>, record::RecordView>,
    f: record_store::FilterView,
    entries: Seq<(Seq<char>, Seq<char>)>,
    parents: Seq<Seq<char>>,
    hop: nat,
    hops: nat,
    max: nat,
) -> Walk
    decreases hops + 1 - hop,
{
    if hop > hops || parents.len() == 0 || w.expanded >= max {
        w
    } else {
        let after = follow_level(
            Walk { next: Seq::empty(), ..w },
            m,
            f,
            entries,
            parents,
            hop,
            max,
        );
        walk(after, m, f, entries, after.next, hop + 1, hops, max)
    }
}

/// The record ids of hits, each once, in the order of the hits.
pub open spec fn distinct_keys(hits: Seq<HitView>) -> Seq<Seq<char>>
    decreases hits.len(),
{
    if hits.len() == 0 {
        Seq::empty()
    } else {
        let before = distinct_keys(hits.drop_last());
        if before.contains(hits.last().key) {
            before
        } else {
            before.push(hits.last().key)
        }
    }
}

/// The levels that an expansion follows.
pub open spec fn capped(hops: nat) -> nat {
    if hops < 2 {
        hops
    } else {
        2
    }
}

/// The rows of a relation-aware recall whose direct hits are given: the hits, and behind
/// them what the relations lead to.
pub open spec fn related_rows(
    m: Map<Seq<char>, record::RecordView>,
    f: record_store::FilterView,
    direct: Seq<HitView>,
    entries: Seq<(Seq<char>, Seq<char>)>,
    hops: nat,
    max: nat,
) -> Seq<RowView> {
    walk(
        Walk {
            rows: direct.map_values(|h: HitView| direct_row(h)),
            seen: distinct_keys(direct),
            next: Seq::empty(),
            expanded: 0,
        },
        m,
        f,
        entries,
        distinct_keys(direct),
        1,
        capped(hops),
        max,
    ).rows
}

/// Whether a text is in a list.
fn lists_text(s: &Vec<String>, t: &str) -> (r: bool)
    ensures
        r == text::text_views(s@).contains(t@),
{
    let mut i: usize = 0;
    while i < s.len()
        invariant
            i <= s@.len(),
            forall|j: int| 0 <= j < i ==> (#[trigger] s@[j])@ != t@,
        decreases s@.len() - i,
    {
        if text::text_equal(s[i].as_str(), t) {
            proof {
                assert(text::text_views(s@)[i as int] == t@);
            }
            return true;
        }
        i += 1;
    }
    proof {
        if text::text_views(s@).contains(t@) {
            let j = choose|j: int|
                0 <= j < text::text_views(s@).len() && text::text_views(s@)[j] == t@;
            assert(s@[j]@ == t@);
        }
    }
    false
}

/// An expansion on the way.
struct Expansion {
    rows: Vec<RelatedHit>,
    seen: Vec<String>,
    next: Vec<String>,
    expanded: usize,
}

impl View for Expansion {
    type V = Walk;

    closed spec fn view(&self) -> Walk {
        Walk {
            rows: row_views(self.rows@),
            seen: text::text_views(self.seen@),
            next: text::text_views(self.next@),
            expanded: self.expanded as nat,
        }
    }
}

impl Expansion {
    /// Follows one relation.
    fn follow(
        &mut self,
        entries: &Vec<Entry>,
        parent: &str,
        kind: RelationKind,
        target: &str,
        hop: usize,
        max: usize,
    )
        ensures
            final(self)@ == follow_edge(
                old(self)@,
                entry_views(entries@),
                parent@,
                record::RelationView { kind, target: target@ },
                hop as nat,
                max as nat,
            ),
    {
        if lists_text(&self.seen, target) {
            return;
        }
        let ghost before = self@;
        self.seen.push(target.to_owned());
        proof {
            assert(text::text_views(self.seen@) =~= before.seen.push(target@));
        }
        if self.expanded >= max {
            return;
        }
        if let Some(payload) = find_payload(entries, target) {
            let score: u32 = find_score(&self.rows, parent);
            let row = RelatedHit {
                payload,
                key: target.to_owned(),
                score,
                hop,
                via_kind: Some(kind),
                via_from: Some(parent.to_owned()),
            };
            proof {
                assert(row_views(self.rows@.push(row)) =~= before.rows.push(row@));
            }
            self.rows.push(row);
            self.next.push(target.to_owned());
            self.expanded += 1;
            proof {
                assert(text::text_views(self.next@) =~= before.next.push(target@));
            }
        }
    }

    /// Follows the admitted relations of one level's records.
    fn follow_all(
        &mut self,
        records: &RecordStore,
        filter: &RecordFilter,
        entries: &Vec<Entry>,
        parents: &Vec<String>,
        hop: usize,
        max: usize,
    )
        ensures
            final(self)@ == follow_level(
                old(self)@,
                records@,
                filter@,
                entry_views(entries@),
                text::text_views(parents@),
                hop as nat,
                max as nat,
            ),
    {
        let ghost start = self@;
        let mut i: usize = 0;
        let ghost names = text::text_views(parents@);
        while i < parents.len()
            invariant
                i <= parents@.len(),
                names == text::text_views(parents@),
                self@ == follow_level(
                    start,
                    records@,
                    filter@,
                    entry_views(entries@),
                    names.take(i as int),
                    hop as nat,
                    max as nat,
                ),
            decreases parents@.len() - i,
        {
            let parent = parents[i].as_str();
            let edges = records.related_ids(parent, filter);
            let ghost level = self@;
            let ghost views = record_store::edge_views(edges@);
            let mut j: usize = 0;
            while j < edges.len()
                invariant
                    j <= edges@.len(),
                    views == record_store::edge_views(edges@),
                    self@ == follow_edges(
                        level,
                        entry_views(entries@),
                        parent@,
                        views.take(j as int),
                        hop as nat,
                        max as nat,
                    ),
                decreases edges@.len() - j,
            {
                proof {
                    assert(views.take(j + 1).drop_last() =~= views.take(j as int));
                    assert(views.take(j + 1).last() == record::RelationView {
                        kind: edges@[j as int].0,
                        target: edges@[j as int].1@,
                    });
                }
                self.follow(entries, parent, edges[j].0, edges[j].1.as_str(), hop, max);
                j += 1;
            }
            proof {
                assert(views.take(j as int) =~= views);
                assert(names.take(i + 1).drop_last() =~= names.take(i as int));
                assert(names.take(i + 1).last() == parent@);
            }
            i += 1;
        }
        proof {
            assert(names.take(i as int) =~= names);
        }
    }
}

/// The record ids of hits, each once.
fn keys_of_hits(hits: &Vec<Hit>) -> (keys: Vec<String>)
    ensures
        text::text_views(keys@) == distinct_keys(hit_views(hits@)),
{
    let mut keys: Vec<String> = Vec::new();
    let mut i: usize = 0;
    proof {
        assert(text::text_views(keys@) =~= distinct_keys(hit_views(hits@).take(0)));
    }
    while i < hits.len()
        invariant
            i <= hits@.len(),
            text::text_views(keys@) == distinct_keys(hit_views(hits@).take(i as int)),
        decreases hits@.len() - i,
    {
        proof {
            let all = hit_views(hits@);
            assert(all.take(i + 1).drop_last() =~= all.take(i as int));
            assert(all.take(i + 1).last() == hits@[i as int]@);
        }
        if !lists_text(&keys, hits[i].key.as_str()) {
            let k = hits[i].key.as_str().to_owned();
            proof {
                assert(text::text_views(keys@.push(k)) =~= text::text_views(keys@).push(k@));
            }
            keys.push(k);
        }
        i += 1;
    }
    proof {
        assert(hit_views(hits@).take(i as int) =~= hit_views(hits@));
    }
    keys
}

/// Hits as rows.
fn direct_rows(hits: &Vec<Hit>) -> (rows: Vec<RelatedHit>)
    ensures
        row_views(rows@) == hit_views(hits@).map_values(|h: HitView| direct_row(h)),
{
    let mut rows: Vec<RelatedHit> = Vec::new();
    let mut i: usize = 0;
    while i < hits.len()
        invariant
            i <= hits@.len(),
            rows@.len() == i,
            forall|j: int| 0 <= j < i ==> (#[trigger] rows@[j])@ == direct_row(hits@[j]@),
        decreases hits@.len() - i,
    {
        rows.push(
            RelatedHit {
                payload: hits[i].payload.as_str().to_owned(),
                key: hits[i].key.as_str().to_owned(),
                score: hits[i].score,
                hop: 0,
                via_kind: None,
                via_from: None,
            },
        );
        i += 1;
    }
    proof {
        assert(row_views(rows@) =~= hit_views(hits@).map_values(|h: HitView| direct_row(h)));
    }
    rows
}

/// Follows the relations of direct hits, at most two levels far.
pub fn expand(
    records: &RecordStore,
    filter: &RecordFilter,
    direct: &Vec<Hit>,
    entries: &Vec<Entry>,
    traversal: Traversal,
) -> (rows: Vec<RelatedHit>)
    ensures
        row_views(rows@) == related_rows(
            records@,
            filter@,
            hit_views(direct@),
            entry_views(entries@),
            traversal.hops as nat,
            traversal.max_expanded as nat,
        ),
        is_expansion(
            records@,
            filter@,
            hit_views(direct@),
            entry_views(entries@),
            traversal.hops as nat,
            traversal.max_expanded as nat,
            row_views(rows@),
        ),
{
    proof {
        law_expansion_is_complete(
            records@,
            filter@,
            hit_views(direct@),
            entry_views(entries@),
            traversal.hops as nat,
            traversal.max_expanded as nat,
        );
    }
    let hops: usize = if traversal.hops < 2 {
        traversal.hops
    } else {
        2
    };
    let max: usize = traversal.max_expanded;
    let seen = keys_of_hits(direct);
    let mut parents = keys_of_hits(direct);
    let mut e = Expansion { rows: direct_rows(direct), seen, next: Vec::new(), expanded: 0 };
    proof {
        assert(text::text_views(e.next@) =~= Seq::<Seq<char>>::empty());
    }
    let ghost start = e@;
    let ghost first = text::text_views(parents@);
    let mut hop: usize = 1;
    while hop <= hops && parents.len() > 0 && e.expanded < max
        invariant
            1 <= hop <= hops + 1,
            hops <= 2,
            walk(
                start,
                records@,
                filter@,
                entry_views(entries@),
                first,
                1,
                hops as nat,
                max as nat,
            ) == walk(
                e@,
                records@,
                filter@,
                entry_views(entries@),
                text::text_views(parents@),
                hop as nat,
                hops as nat,
                max as nat,
            ),
        decreases hops + 1 - hop,
    {
        let ghost before = e@;
        e.next = Vec::new();
        proof {
            assert(e@.next =~= Seq::<Seq<char>>::empty());
            assert(e@ == (Walk { next: Seq::empty(), ..before }));
        }
        e.follow_all(records, filter, entries, &parents, hop, max);
        let mut next: Vec<String> = Vec::new();
        let mut i: usize = 0;
        while i < e.next.len()
            invariant
                i <= e.next@.len(),
                next@.len() == i,
                forall|j: int| 0 <= j < i ==> (#[trigger] next@[j])@ == e.next@[j]@,
            decreases e.next@.len() - i,
        {
            next.push(e.next[i].as_str().to_owned());
            i += 1;
        }
        proof {
            assert(text::text_views(next@) =~= e@.next);
        }
        parents = next;
        hop += 1;
    }
    e.rows
}

/// What every state of an expansion keeps: the direct hits stand first, behind them as many
/// rows as were appended, each reached over an admitted relation of an admitted record within
/// the levels and led to from an earlier row, and no more than the budget allows; the record
/// id of every row was met.
pub open spec fn kept(
    w: Walk,
    direct: Seq<RowView>,
    m: Map<Seq<char>, record::RecordView>,
    f: record_store::FilterView,
    entries: Seq<(Seq<char>, Seq<char>)>,
    hops: nat,
    max: nat,
) -> bool {
    &&& w.rows.len() == direct.len() + w.expanded
    &&& w.expanded <= max
    &&& forall|i: int| 0 <= i < direct.len() ==> #[trigger] w.rows[i] == direct[i]
    &&& forall|i: int|
        direct.len() <= i < w.rows.len() ==> reached(#[trigger] w.rows[i], m, f, hops)
    &&& forall|i: int| direct.len() <= i < w.rows.len() ==> #[trigger] led(w.rows, i, entries)
    &&& forall|i: int| 0 <= i < w.rows.len() ==> w.seen.contains((#[trigger] w.rows[i]).key)
}

/// The row was reached over an admitted relation.
pub open spec fn reached(
    r: RowView,
    m: Map<Seq<char>, record::RecordView>,
    f: record_store::FilterView,
    hops: nat,
) -> bool {
    &&& 1 <= r.hop <= hops
    &&& record_store::admitted(m, r.key, f)
    &&& r.via_from matches Some(from) && r.via_kind matches Some(kind) && m.contains_key(from)
        && record_store::admitted(m, from, f) && m[from].relations.contains(
        record::RelationView { kind, target: r.key },
    )
}

/// The payload is that of the last entry with the record id.
pub open spec fn is_last_entry(
    entries: Seq<(Seq<char>, Seq<char>)>,
    key: Seq<char>,
    payload: Seq<char>,
) -> bool {
    exists|e: int|
        0 <= e < entries.len() && #[trigger] entries[e] == (key, payload) && forall|l: int|
            e < l < entries.len() ==> (#[trigger] entries[l]).0 != key
}

/// The row at `i` is new and was led to: no earlier row has its record id, it is the last entry
/// of the region with this id, and the record it came from stands on an earlier row, one level
/// before, whose score it has.
pub open spec fn led(rows: Seq<RowView>, i: int, entries: Seq<(Seq<char>, Seq<char>)>) -> bool {
    &&& is_last_entry(entries, rows[i].key, rows[i].payload)
    &&& forall|j: int| 0 <= j < i ==> (#[trigger] rows[j]).key != rows[i].key
    &&& exists|p: int| 0 <= p < i && #[trigger] leads(rows[p], rows[i])
}

/// The row `r` came from the row `p`.
pub open spec fn leads(p: RowView, r: RowView) -> bool {
    r.via_from == Some(p.key) && r.score == p.score && r.hop == p.hop + 1
}

/// The record id stands on rows of a level, and on no other rows.
spec fn carried(rows: Seq<RowView>, key: Seq<char>, level: int) -> bool {
    &&& exists|p: int| 0 <= p < rows.len() && (#[trigger] rows[p]).key == key
    &&& forall|p: int| 0 <= p < rows.len() && (#[trigger] rows[p]).key == key ==> rows[p].hop == level
}

/// What goes on to the next level stands on rows of this one.
spec fn onward(w: Walk, level: int) -> bool {
    forall|i: int| 0 <= i < w.next.len() ==> carried(w.rows, #[trigger] w.next[i], level)
}

/// What stood on rows of a level still does.
spec fn carries_on(before: Seq<RowView>, after: Seq<RowView>) -> bool {
    forall|key: Seq<char>, level: int| #[trigger]
        carried(before, key, level) ==> carried(after, key, level)
}

proof fn lemma_score_of(rows: Seq<RowView>, key: Seq<char>) -> (p: int)
    requires
        exists|p: int| 0 <= p < rows.len() && (#[trigger] rows[p]).key == key,
    ensures
        0 <= p < rows.len(),
        rows[p].key == key,
        rows[p].score == score_of(rows, key),
    decreases rows.len(),
{
    if rows[0].key == key {
        0
    } else {
        let q = choose|q: int| 0 <= q < rows.len() && (#[trigger] rows[q]).key == key;
        assert(rows.drop_first()[q - 1] == rows[q]);
        1 + lemma_score_of(rows.drop_first(), key)
    }
}

proof fn lemma_payload_is_an_entry(entries: Seq<(Seq<char>, Seq<char>)>, key: Seq<char>)
    requires
        payload_of(entries, key) is Some,
    ensures
        is_last_entry(entries, key, payload_of(entries, key)->0),
    decreases entries.len(),
{
    if entries.last().0 == key {
        assert(entries[entries.len() - 1] == (key, payload_of(entries, key)->0));
    } else {
        let less = entries.drop_last();
        let payload = payload_of(less, key)->0;
        lemma_payload_is_an_entry(less, key);
        let i = choose|i: int|
            0 <= i < less.len() && #[trigger] less[i] == (key, payload) && forall|l: int|
                i < l < less.len() ==> (#[trigger] less[l]).0 != key;
        assert(entries[i] == less[i]);
        assert forall|l: int| i < l < entries.len() implies (#[trigger] entries[l]).0 != key by {
            if l < less.len() {
                assert(less[l] == entries[l]);
            }
        }
    }
}

proof fn lemma_edge_kept(
    w: Walk,
    direct: Seq<RowView>,
    m: Map<Seq<char>, record::RecordView>,
    f: record_store::FilterView,
    entries: Seq<(Seq<char>, Seq<char>)>,
    parent: Seq<char>,
    edge: record::RelationView,
    hop: nat,
    hops: nat,
    max: nat,
)
    requires
        kept(w, direct, m, f, entries, hops, max),
        onward(w, hop as int),
        carried(w.rows, parent, hop - 1),
        1 <= hop <= hops,
        record_store::admitted(m, edge.target, f),
        m.contains_key(parent),
        record_store::admitted(m, parent, f),
        m[parent].relations.contains(edge),
    ensures
        kept(follow_edge(w, entries, parent, edge, hop, max), direct, m, f, entries, hops, max),
        onward(follow_edge(w, entries, parent, edge, hop, max), hop as int),
        carries_on(w.rows, follow_edge(w, entries, parent, edge, hop, max).rows),
{
    let after = follow_edge(w, entries, parent, edge, hop, max);
    let n = w.rows.len() as int;
    assert forall|i: int| 0 <= i < n implies after.seen.contains((#[trigger] after.rows[i]).key) by {
        assert(after.rows[i] == w.rows[i]);
        assert(w.seen.contains(w.rows[i].key));
        let j = choose|j: int| 0 <= j < w.seen.len() && w.seen[j] == w.rows[i].key;
        assert(after.seen[j] == w.rows[i].key);
    }
    assert forall|i: int| direct.len() <= i < n implies #[trigger] led(after.rows, i, entries) by {
        assert(led(w.rows, i, entries));
        let p = choose|p: int| 0 <= p < i && #[trigger] leads(w.rows[p], w.rows[i]);
        assert(leads(after.rows[p], after.rows[i]));
        assert forall|j: int| 0 <= j < i implies (#[trigger] after.rows[j]).key
            != after.rows[i].key by {
            assert(after.rows[j] == w.rows[j]);
        }
    }
    if after.rows.len() > n {
        let row = after.rows[n];
        let p = lemma_score_of(w.rows, parent);
        lemma_payload_is_an_entry(entries, edge.target);
        assert(record::RelationView { kind: edge.kind, target: edge.target } == edge);
        assert(after.rows[p] == w.rows[p]);
        assert(leads(after.rows[p], row));
        assert forall|j: int| 0 <= j < n implies (#[trigger] after.rows[j]).key != row.key by {
            assert(after.rows[j] == w.rows[j]);
            assert(w.seen.contains(w.rows[j].key));
        }
        assert(led(after.rows, n, entries));
        assert(after.seen[w.seen.len() as int] == row.key);
    }
    assert forall|key: Seq<char>, level: int| #[trigger] carried(w.rows, key, level) implies carried(
        after.rows,
        key,
        level,
    ) by {
        let p = choose|p: int| 0 <= p < n && (#[trigger] w.rows[p]).key == key;
        assert(after.rows[p] == w.rows[p]);
        assert(w.seen.contains(key));
        assert forall|q: int|
            0 <= q < after.rows.len() && (#[trigger] after.rows[q]).key == key implies after.rows[q].hop
            == level by {
            if q < n {
                assert(after.rows[q] == w.rows[q]);
            }
        }
    }
    assert forall|i: int| 0 <= i < after.next.len() implies carried(
        after.rows,
        #[trigger] after.next[i],
        hop as int,
    ) by {
        if i < w.next.len() {
            assert(after.next[i] == w.next[i]);
            assert(carried(w.rows, w.next[i], hop as int));
        } else {
            assert(after.rows[n].key == after.next[i]);
        }
    }
}

proof fn lemma_edges_kept(
    w: Walk,
    direct: Seq<RowView>,
    m: Map<Seq<char>, record::RecordView>,
    f: record_store::FilterView,
    entries: Seq<(Seq<char>, Seq<char>)>,
    parent: Seq<char>,
    edges: Seq<record::RelationView>,
    hop: nat,
    hops: nat,
    max: nat,
)
    requires
        kept(w, direct, m, f, entries, hops, max),
        onward(w, hop as int),
        carried(w.rows, parent, hop - 1),
        1 <= hop <= hops,
        forall|i: int|
            0 <= i < edges.len() ==> record_store::admitted(m, (#[trigger] edges[i]).target, f)
                && m.contains_key(parent) && record_store::admitted(m, parent, f)
                && m[parent].relations.contains(edges[i]),
    ensures
        kept(follow_edges(w, entries, parent, edges, hop, max), direct, m, f, entries, hops, max),
        onward(follow_edges(w, entries, parent, edges, hop, max), hop as int),
        carries_on(w.rows, follow_edges(w, entries, parent, edges, hop, max).rows),
    decreases edges.len(),
{
    if edges.len() > 0 {
        let less = edges.drop_last();
        assert forall|i: int| 0 <= i < less.len() implies record_store::admitted(
            m,
            (#[trigger] less[i]).target,
            f,
        ) && m.contains_key(parent) && record_store::admitted(m, parent, f)
            && m[parent].relations.contains(less[i]) by {
            assert(less[i] == edges[i]);
        }
        lemma_edges_kept(w, direct, m, f, entries, parent, less, hop, hops, max);
        let before = follow_edges(w, entries, parent, less, hop, max);
        assert(edges[edges.len() - 1] == edges.last());
        assert(carried(before.rows, parent, hop - 1));
        lemma_edge_kept(before, direct, m, f, entries, parent, edges.last(), hop, hops, max);
    }
}

proof fn lemma_level_kept(
    w: Walk,
    direct: Seq<RowView>,
    m: Map<Seq<char>, record::RecordView>,
    f: record_store::FilterView,
    entries: Seq<(Seq<char>, Seq<char>)>,
    parents: Seq<Seq<char>>,
    hop: nat,
    hops: nat,
    max: nat,
)
    requires
        kept(w, direct, m, f, entries, hops, max),
        onward(w, hop as int),
        forall|i: int| 0 <= i < parents.len() ==> carried(w.rows, #[trigger] parents[i], hop - 1),
        1 <= hop <= hops,
    ensures
        kept(follow_level(w, m, f, entries, parents, hop, max), direct, m, f, entries, hops, max),
        onward(follow_level(w, m, f, entries, parents, hop, max), hop as int),
        carries_on(w.rows, follow_level(w, m, f, entries, parents, hop, max).rows),
    decreases parents.len(),
{
    if parents.len() > 0 {
        let less = parents.drop_last();
        assert forall|i: int| 0 <= i < less.len() implies carried(
            w.rows,
            #[trigger] less[i],
            hop - 1,
        ) by {
            assert(less[i] == parents[i]);
        }
        lemma_level_kept(w, direct, m, f, entries, less, hop, hops, max);
        let parent = parents.last();
        assert(parents[parents.len() - 1] == parent);
        assert(carried(w.rows, parent, hop - 1));
        let edges = record_store::related(m, parent, f);
        record_store::law_related_are_admitted(m, parent, f);
        lemma_edges_kept(
            follow_level(w, m, f, entries, less, hop, max),
            direct,
            m,
            f,
            entries,
            parent,
            edges,
            hop,
            hops,
            max,
        );
    }
}

proof fn lemma_walk_kept(
    w: Walk,
    direct: Seq<RowView>,
    m: Map<Seq<char>, record::RecordView>,
    f: record_store::FilterView,
    entries: Seq<(Seq<char>, Seq<char>)>,
    parents: Seq<Seq<char>>,
    hop: nat,
    hops: nat,
    max: nat,
)
    requires
        kept(w, direct, m, f, entries, hops, max),
        forall|i: int| 0 <= i < parents.len() ==> carried(w.rows, #[trigger] parents[i], hop - 1),
        1 <= hop,
    ensures
        kept(walk(w, m, f, entries, parents, hop, hops, max), direct, m, f, entries, hops, max),
    decreases hops + 1 - hop,
{
    if !(hop > hops || parents.len() == 0 || w.expanded >= max) {
        let cleared = Walk { next: Seq::empty(), ..w };
        lemma_level_kept(cleared, direct, m, f, entries, parents, hop, hops, max);
        let after = follow_level(cleared, m, f, entries, parents, hop, max);
        lemma_walk_kept(after, direct, m, f, entries, after.next, hop + 1, hops, max);
    }
}

proof fn lemma_distinct_keys(hits: Seq<HitView>)
    ensures
        forall|i: int|
            0 <= i < hits.len() ==> distinct_keys(hits).contains((#[trigger] hits[i]).key),
        forall|j: int|
            0 <= j < distinct_keys(hits).len() ==> exists|i: int|
                0 <= i < hits.len() && (#[trigger] hits[i]).key == #[trigger] distinct_keys(hits)[j],
    decreases hits.len(),
{
    if hits.len() > 0 {
        let less = hits.drop_last();
        let before = distinct_keys(less);
        let keys = distinct_keys(hits);
        lemma_distinct_keys(less);
        assert forall|i: int| 0 <= i < hits.len() implies keys.contains(
            (#[trigger] hits[i]).key,
        ) by {
            if i < less.len() {
                assert(before.contains(less[i].key));
                let j = choose|j: int| 0 <= j < before.len() && before[j] == less[i].key;
                assert(keys[j] == hits[i].key);
            } else if !before.contains(hits.last().key) {
                assert(keys[keys.len() - 1] == hits[i].key);
            }
        }
        assert forall|j: int| 0 <= j < keys.len() implies exists|i: int|
            0 <= i < hits.len() && (#[trigger] hits[i]).key == #[trigger] keys[j] by {
            if j < before.len() {
                assert(keys[j] == before[j]);
                let i = choose|i: int|
                    0 <= i < less.len() && (#[trigger] less[i]).key == before[j];
                assert(hits[i].key == keys[j]);
            } else {
                assert(hits[hits.len() - 1].key == keys[j]);
            }
        }
    }
}

/// Relations are no way around a filter: the direct hits stand first and unchanged; every
/// row behind them was reached within two levels over a relation whose source and target
/// the filter admits. It is the last entry of the region with its record id, which is on no
/// earlier row, and its source stands on an earlier row, one level before, whose score it has. There are no
/// more of these rows than the budget allows.
pub proof fn law_expansion_never_leaks(
    m: Map<Seq<char>, record::RecordView>,
    f: record_store::FilterView,
    direct: Seq<HitView>,
    entries: Seq<(Seq<char>, Seq<char>)>,
    hops: nat,
    max: nat,
)
    ensures
        ({
            let rows = related_rows(m, f, direct, entries, hops, max);
            &&& direct.len() <= rows.len() <= direct.len() + max
            &&& forall|i: int|
                0 <= i < direct.len() ==> #[trigger] rows[i] == direct_row(direct[i])
            &&& forall|i: int|
                direct.len() <= i < rows.len() ==> reached(#[trigger] rows[i], m, f, capped(hops))
            &&& forall|i: int|
                direct.len() <= i < rows.len() ==> #[trigger] led(rows, i, entries)
            &&& hops == 0 || max == 0 ==> rows.len() == direct.len()
        }),
{
    let first = direct.map_values(|h: HitView| direct_row(h));
    let keys = distinct_keys(direct);
    let w = Walk { rows: first, seen: keys, next: Seq::empty(), expanded: 0 };
    lemma_distinct_keys(direct);
    assert forall|i: int| 0 <= i < w.rows.len() implies w.seen.contains(
        (#[trigger] w.rows[i]).key,
    ) by {
        assert(w.rows[i].key == direct[i].key);
    }
    assert forall|j: int| 0 <= j < keys.len() implies carried(w.rows, #[trigger] keys[j], 0) by {
        let i = choose|i: int| 0 <= i < direct.len() && (#[trigger] direct[i]).key == keys[j];
        assert(w.rows[i].key == keys[j]);
    }
    lemma_walk_kept(w, first, m, f, entries, keys, 1, capped(hops), max);
}

/// The region has an entry with a record id.
pub open spec fn has_entry(entries: Seq<(Seq<char>, Seq<char>)>, key: Seq<char>) -> bool {
    exists|i: int| 0 <= i < entries.len() && (#[trigger] entries[i]).0 == key
}

/// Some row has a record id.
pub open spec fn on_a_row(rows: Seq<RowView>, key: Seq<char>) -> bool {
    exists|i: int| 0 <= i < rows.len() && (#[trigger] rows[i]).key == key
}

/// Every relation was followed that leads, within the levels and at most two, from the record
/// of a row to one that the region holds, where the filter admits both: whatever its kind, its
/// target is on a row.
pub open spec fn followed_all(
    m: Map<Seq<char>, record::RecordView>,
    f: record_store::FilterView,
    entries: Seq<(Seq<char>, Seq<char>)>,
    rows: Seq<RowView>,
    hops: nat,
) -> bool {
    forall|p: int, e: record::RelationView|
        #![trigger rows[p], m[rows[p].key].relations.contains(e)]
        0 <= p < rows.len() && rows[p].hop < hops && rows[p].hop < 2 && m.contains_key(
            rows[p].key,
        ) && record_store::admitted(m, rows[p].key, f) && m[rows[p].key].relations.contains(e)
            && record_store::admitted(m, e.target, f) && has_entry(entries, e.target) ==> on_a_row(
            rows,
            e.target,
        )
}

/// The rows are those of a relation-aware recall with the given direct hits: these stand first
/// and unchanged; behind them stand no more rows than the budget allows, each reached over an
/// admitted relation within the levels and led to from an earlier row, and all of them in turn;
/// and unless the budget ran out, every relation was followed.
pub open spec fn is_expansion(
    m: Map<Seq<char>, record::RecordView>,
    f: record_store::FilterView,
    direct: Seq<HitView>,
    entries: Seq<(Seq<char>, Seq<char>)>,
    hops: nat,
    max: nat,
    rows: Seq<RowView>,
) -> bool {
    &&& direct.len() <= rows.len() <= direct.len() + max
    &&& forall|i: int| 0 <= i < direct.len() ==> #[trigger] rows[i] == direct_row(direct[i])
    &&& forall|i: int|
        direct.len() <= i < rows.len() ==> reached(#[trigger] rows[i], m, f, hops) && rows[i].hop
            <= 2
    &&& forall|i: int| direct.len() <= i < rows.len() ==> #[trigger] led(rows, i, entries)
    &&& forall|i: int, j: int|
        direct.len() <= i < j < rows.len() ==> #[trigger] in_turn(m, rows, i, j)
    &&& rows.len() < direct.len() + max ==> followed_all(m, f, entries, rows, hops)
}

/// The relations of a record lead to ids that were met.
spec fn all_met(
    seen: Seq<Seq<char>>,
    m: Map<Seq<char>, record::RecordView>,
    f: record_store::FilterView,
    key: Seq<char>,
) -> bool {
    forall|i: int|
        0 <= i < record_store::related(m, key, f).len() ==> seen.contains(
            (#[trigger] record_store::related(m, key, f)[i]).target,
        )
}

/// While the budget lasts, an id that was met is on a row, if the region holds it.
spec fn met_are_held(w: Walk, entries: Seq<(Seq<char>, Seq<char>)>, max: nat) -> bool {
    w.expanded < max ==> forall|i: int|
        0 <= i < w.seen.len() && payload_of(entries, #[trigger] w.seen[i]) is Some ==> on_a_row(
            w.rows,
            w.seen[i],
        )
}

/// The one state came of the other: rows and ids were added at the end, and each new row is of
/// the level and goes on to the next.
spec fn comes_of(before: Walk, after: Walk, hop: nat) -> bool {
    &&& before.expanded <= after.expanded
    &&& before.rows.len() <= after.rows.len()
    &&& before.seen.len() <= after.seen.len()
    &&& before.next.len() <= after.next.len()
    &&& forall|i: int| 0 <= i < before.rows.len() ==> #[trigger] after.rows[i] == before.rows[i]
    &&& forall|i: int| 0 <= i < before.seen.len() ==> #[trigger] after.seen[i] == before.seen[i]
    &&& forall|i: int| 0 <= i < before.next.len() ==> #[trigger] after.next[i] == before.next[i]
    &&& forall|i: int|
        before.rows.len() <= i < after.rows.len() ==> (#[trigger] after.rows[i]).hop == hop
            && after.next.contains(after.rows[i].key)
}

proof fn lemma_still_met(before: Walk, after: Walk, hop: nat, key: Seq<char>)
    requires
        comes_of(before, after, hop),
    ensures
        before.seen.contains(key) ==> after.seen.contains(key),
        on_a_row(before.rows, key) ==> on_a_row(after.rows, key),
        before.next.contains(key) ==> after.next.contains(key),
{
    if before.seen.contains(key) {
        let i = choose|i: int| 0 <= i < before.seen.len() && before.seen[i] == key;
        assert(after.seen[i] == key);
    }
    if on_a_row(before.rows, key) {
        let i = choose|i: int| 0 <= i < before.rows.len() && (#[trigger] before.rows[i]).key == key;
        assert(after.rows[i].key == key);
    }
    if before.next.contains(key) {
        let i = choose|i: int| 0 <= i < before.next.len() && before.next[i] == key;
        assert(after.next[i] == key);
    }
}

proof fn lemma_comes_of_twice(a: Walk, b: Walk, c: Walk, hop: nat)
    requires
        comes_of(a, b, hop),
        comes_of(b, c, hop),
    ensures
        comes_of(a, c, hop),
{
    assert forall|i: int| 0 <= i < a.rows.len() implies #[trigger] c.rows[i] == a.rows[i] by {
        assert(b.rows[i] == a.rows[i]);
    }
    assert forall|i: int| 0 <= i < a.seen.len() implies #[trigger] c.seen[i] == a.seen[i] by {
        assert(b.seen[i] == a.seen[i]);
    }
    assert forall|i: int| 0 <= i < a.next.len() implies #[trigger] c.next[i] == a.next[i] by {
        assert(b.next[i] == a.next[i]);
    }
    assert forall|i: int| a.rows.len() <= i < c.rows.len() implies (#[trigger] c.rows[i]).hop == hop
        && c.next.contains(c.rows[i].key) by {
        if i < b.rows.len() {
            assert(b.rows[i] == c.rows[i]);
            lemma_still_met(b, c, hop, b.rows[i].key);
        }
    }
}

proof fn lemma_edge_met(
    w: Walk,
    entries: Seq<(Seq<char>, Seq<char>)>,
    parent: Seq<char>,
    edge: record::RelationView,
    hop: nat,
    max: nat,
)
    requires
        met_are_held(w, entries, max),
    ensures
        ({
            let after = follow_edge(w, entries, parent, edge, hop, max);
            &&& comes_of(w, after, hop)
            &&& met_are_held(after, entries, max)
            &&& after.seen.contains(edge.target)
        }),
{
    let after = follow_edge(w, entries, parent, edge, hop, max);
    if !w.seen.contains(edge.target) {
        assert(after.seen[w.seen.len() as int] == edge.target);
        if after.rows.len() > w.rows.len() {
            assert(after.next[w.next.len() as int] == edge.target);
            assert(after.rows[w.rows.len() as int].key == edge.target);
        }
    }
    assert(comes_of(w, after, hop));
    if after.expanded < max {
        assert forall|i: int|
            0 <= i < after.seen.len() && payload_of(entries, #[trigger] after.seen[i])
                is Some implies on_a_row(after.rows, after.seen[i]) by {
            if i < w.seen.len() {
                assert(after.seen[i] == w.seen[i]);
                lemma_still_met(w, after, hop, w.seen[i]);
            } else {
                assert(after.rows[w.rows.len() as int].key == edge.target);
            }
        }
    }
}

proof fn lemma_edges_met(
    w: Walk,
    entries: Seq<(Seq<char>, Seq<char>)>,
    parent: Seq<char>,
    edges: Seq<record::RelationView>,
    hop: nat,
    max: nat,
)
    requires
        met_are_held(w, entries, max),
    ensures
        ({
            let after = follow_edges(w, entries, parent, edges, hop, max);
            &&& comes_of(w, after, hop)
            &&& met_are_held(after, entries, max)
            &&& forall|i: int|
                0 <= i < edges.len() ==> after.seen.contains((#[trigger] edges[i]).target)
        }),
    decreases edges.len(),
{
    if edges.len() > 0 {
        let less = edges.drop_last();
        lemma_edges_met(w, entries, parent, less, hop, max);
        let before = follow_edges(w, entries, parent, less, hop, max);
        lemma_edge_met(before, entries, parent, edges.last(), hop, max);
        let after = follow_edges(w, entries, parent, edges, hop, max);
        lemma_comes_of_twice(w, before, after, hop);
        assert forall|i: int| 0 <= i < edges.len() implies after.seen.contains(
            (#[trigger] edges[i]).target,
        ) by {
            if i < less.len() {
                assert(less[i] == edges[i]);
                lemma_still_met(before, after, hop, edges[i].target);
            }
        }
    }
}

proof fn lemma_level_met(
    w: Walk,
    m: Map<Seq<char>, record::RecordView>,
    f: record_store::FilterView,
    entries: Seq<(Seq<char>, Seq<char>)>,
    parents: Seq<Seq<char>>,
    hop: nat,
    max: nat,
)
    requires
        met_are_held(w, entries, max),
    ensures
        ({
            let after = follow_level(w, m, f, entries, parents, hop, max);
            &&& comes_of(w, after, hop)
            &&& met_are_held(after, entries, max)
            &&& forall|i: int|
                0 <= i < parents.len() ==> all_met(after.seen, m, f, #[trigger] parents[i])
        }),
    decreases parents.len(),
{
    if parents.len() > 0 {
        let less = parents.drop_last();
        lemma_level_met(w, m, f, entries, less, hop, max);
        let before = follow_level(w, m, f, entries, less, hop, max);
        let edges = record_store::related(m, parents.last(), f);
        lemma_edges_met(before, entries, parents.last(), edges, hop, max);
        let after = follow_level(w, m, f, entries, parents, hop, max);
        lemma_comes_of_twice(w, before, after, hop);
        assert forall|i: int| 0 <= i < parents.len() implies all_met(
            after.seen,
            m,
            f,
            #[trigger] parents[i],
        ) by {
            if i < less.len() {
                assert(less[i] == parents[i]);
                lemma_all_still_met(before, after, hop, m, f, parents[i]);
            }
        }
    }
}

proof fn lemma_all_still_met(
    before: Walk,
    after: Walk,
    hop: nat,
    m: Map<Seq<char>, record::RecordView>,
    f: record_store::FilterView,
    key: Seq<char>,
)
    requires
        comes_of(before, after, hop),
        all_met(before.seen, m, f, key),
    ensures
        all_met(after.seen, m, f, key),
{
    let edges = record_store::related(m, key, f);
    assert forall|i: int| 0 <= i < edges.len() implies after.seen.contains(
        (#[trigger] edges[i]).target,
    ) by {
        lemma_still_met(before, after, hop, edges[i].target);
    }
}

/// Where the walk stands before a level: the rows are of earlier levels, those of the last are
/// to be followed, and the relations of the others were.
spec fn stands_at(
    w: Walk,
    m: Map<Seq<char>, record::RecordView>,
    f: record_store::FilterView,
    parents: Seq<Seq<char>>,
    hop: nat,
) -> bool {
    forall|i: int|
        0 <= i < w.rows.len() ==> (#[trigger] w.rows[i]).hop < hop && (if w.rows[i].hop + 1 == hop {
            parents.contains(w.rows[i].key)
        } else {
            all_met(w.seen, m, f, w.rows[i].key)
        })
}

proof fn lemma_walk_met(
    w: Walk,
    m: Map<Seq<char>, record::RecordView>,
    f: record_store::FilterView,
    entries: Seq<(Seq<char>, Seq<char>)>,
    parents: Seq<Seq<char>>,
    hop: nat,
    hops: nat,
    max: nat,
)
    requires
        met_are_held(w, entries, max),
        stands_at(w, m, f, parents, hop),
        1 <= hop,
        hop <= hops + 1,
    ensures
        ({
            let end = walk(w, m, f, entries, parents, hop, hops, max);
            &&& met_are_held(end, entries, max)
            &&& end.expanded < max ==> forall|i: int|
                0 <= i < end.rows.len() && (#[trigger] end.rows[i]).hop < hops ==> all_met(
                    end.seen,
                    m,
                    f,
                    end.rows[i].key,
                )
        }),
    decreases hops + 1 - hop,
{
    if !(hop > hops || parents.len() == 0 || w.expanded >= max) {
        let cleared = Walk { next: Seq::empty(), ..w };
        let after = follow_level(cleared, m, f, entries, parents, hop, max);
        lemma_level_met(cleared, m, f, entries, parents, hop, max);
        assert forall|i: int| 0 <= i < after.rows.len() implies (#[trigger] after.rows[i]).hop < hop
            + 1 && (if after.rows[i].hop + 1 == hop + 1 {
            after.next.contains(after.rows[i].key)
        } else {
            all_met(after.seen, m, f, after.rows[i].key)
        }) by {
            if i < cleared.rows.len() {
                assert(after.rows[i] == w.rows[i]);
                if w.rows[i].hop + 1 == hop {
                    let j = choose|j: int| 0 <= j < parents.len() && parents[j] == w.rows[i].key;
                    assert(all_met(after.seen, m, f, parents[j]));
                } else {
                    lemma_all_still_met(cleared, after, hop, m, f, w.rows[i].key);
                }
            }
        }
        lemma_walk_met(after, m, f, entries, after.next, hop + 1, hops, max);
    }
}

proof fn lemma_entry_has_payload(entries: Seq<(Seq<char>, Seq<char>)>, key: Seq<char>)
    requires
        has_entry(entries, key),
    ensures
        payload_of(entries, key) is Some,
    decreases entries.len(),
{
    let i = choose|i: int| 0 <= i < entries.len() && (#[trigger] entries[i]).0 == key;
    if entries.last().0 != key {
        assert(entries.drop_last()[i] == entries[i]);
        lemma_entry_has_payload(entries.drop_last(), key);
    }
}

/// An expansion leaves out nothing that it may return: unless the budget ran out, every
/// relation of every row below the last level was followed, whatever its kind, so that its
/// target is on a row if the filter admits it and the region holds it.
pub proof fn law_expansion_is_complete(
    m: Map<Seq<char>, record::RecordView>,
    f: record_store::FilterView,
    direct: Seq<HitView>,
    entries: Seq<(Seq<char>, Seq<char>)>,
    hops: nat,
    max: nat,
)
    ensures
        ({
            let rows = related_rows(m, f, direct, entries, hops, max);
            rows.len() < direct.len() + max ==> followed_all(m, f, entries, rows, hops)
        }),
        is_expansion(
            m,
            f,
            direct,
            entries,
            hops,
            max,
            related_rows(m, f, direct, entries, hops, max),
        ),
{
    law_expansion_never_leaks(m, f, direct, entries, hops, max);
    law_expansion_goes_in_turn(m, f, direct, entries, hops, max);
    let first = direct.map_values(|h: HitView| direct_row(h));
    let keys = distinct_keys(direct);
    let w = Walk { rows: first, seen: keys, next: Seq::empty(), expanded: 0 };
    lemma_distinct_keys(direct);
    assert forall|i: int| 0 <= i < keys.len() && payload_of(entries, #[trigger] keys[i])
        is Some implies on_a_row(first, keys[i]) by {
        let j = choose|j: int| 0 <= j < direct.len() && (#[trigger] direct[j]).key == keys[i];
        assert(first[j].key == keys[i]);
    }
    assert forall|i: int| 0 <= i < first.len() implies (#[trigger] first[i]).hop == 0
        && keys.contains(first[i].key) by {
        assert(first[i].key == direct[i].key);
    }
    assert forall|j: int| 0 <= j < keys.len() implies carried(w.rows, #[trigger] keys[j], 0) by {
        let i = choose|i: int| 0 <= i < direct.len() && (#[trigger] direct[i]).key == keys[j];
        assert(w.rows[i].key == keys[j]);
    }
    lemma_walk_kept(w, first, m, f, entries, keys, 1, capped(hops), max);
    lemma_walk_met(w, m, f, entries, keys, 1, capped(hops), max);
    let end = walk(w, m, f, entries, keys, 1, capped(hops), max);
    let rows = related_rows(m, f, direct, entries, hops, max);
    if rows.len() < direct.len() + max {
        assert(end.expanded < max);
        assert forall|p: int, e: record::RelationView|
            #![trigger rows[p], m[rows[p].key].relations.contains(e)]
            0 <= p < rows.len() && rows[p].hop < hops && rows[p].hop < 2 && m.contains_key(
                rows[p].key,
            ) && record_store::admitted(m, rows[p].key, f) && m[rows[p].key].relations.contains(e)
                && record_store::admitted(m, e.target, f) && has_entry(
                entries,
                e.target,
            ) implies on_a_row(rows, e.target) by {
            let edges = record_store::related(m, rows[p].key, f);
            record_store::law_related_leave_out_none(m, rows[p].key, f, e);
            let i = choose|i: int| 0 <= i < edges.len() && edges[i] == e;
            assert(all_met(end.seen, m, f, rows[p].key));
            assert(end.seen.contains(edges[i].target));
            lemma_entry_has_payload(entries, e.target);
            let j = choose|j: int| 0 <= j < end.seen.len() && end.seen[j] == e.target;
            assert(on_a_row(end.rows, end.seen[j]));
        }
    }
}

/// One state has a smaller budget than the other: while it lasts they are the same, and then its
/// rows stay the beginning of the other's.
spec fn cut_from(a: Walk, b: Walk, max: nat) -> bool {
    &&& a.expanded < max ==> a == b
    &&& a.rows.len() <= b.rows.len()
    &&& a.rows == b.rows.take(a.rows.len() as int)
}

proof fn lemma_edges_cut(
    a: Walk,
    b: Walk,
    entries: Seq<(Seq<char>, Seq<char>)>,
    parent: Seq<char>,
    edges: Seq<record::RelationView>,
    hop: nat,
    max: nat,
    more: nat,
)
    requires
        max <= more,
        cut_from(a, b, max),
    ensures
        cut_from(
            follow_edges(a, entries, parent, edges, hop, max),
            follow_edges(b, entries, parent, edges, hop, more),
            max,
        ),
    decreases edges.len(),
{
    if edges.len() > 0 {
        let less = edges.drop_last();
        lemma_edges_cut(a, b, entries, parent, less, hop, max, more);
        let c = follow_edges(a, entries, parent, less, hop, max);
        let d = follow_edges(b, entries, parent, less, hop, more);
        let x = follow_edge(c, entries, parent, edges.last(), hop, max);
        let y = follow_edge(d, entries, parent, edges.last(), hop, more);
        assert(x.rows =~= y.rows.take(x.rows.len() as int));
    }
}

proof fn lemma_level_cut(
    a: Walk,
    b: Walk,
    m: Map<Seq<char>, record::RecordView>,
    f: record_store::FilterView,
    entries: Seq<(Seq<char>, Seq<char>)>,
    parents: Seq<Seq<char>>,
    hop: nat,
    max: nat,
    more: nat,
)
    requires
        max <= more,
        cut_from(a, b, max),
    ensures
        cut_from(
            follow_level(a, m, f, entries, parents, hop, max),
            follow_level(b, m, f, entries, parents, hop, more),
            max,
        ),
    decreases parents.len(),
{
    if parents.len() > 0 {
        let less = parents.drop_last();
        lemma_level_cut(a, b, m, f, entries, less, hop, max, more);
        lemma_edges_cut(
            follow_level(a, m, f, entries, less, hop, max),
            follow_level(b, m, f, entries, less, hop, more),
            entries,
            parents.last(),
            record_store::related(m, parents.last(), f),
            hop,
            max,
            more,
        );
    }
}

proof fn lemma_walk_grows(
    w: Walk,
    m: Map<Seq<char>, record::RecordView>,
    f: record_store::FilterView,
    entries: Seq<(Seq<char>, Seq<char>)>,
    parents: Seq<Seq<char>>,
    hop: nat,
    hops: nat,
    max: nat,
)
    requires
        met_are_held(w, entries, max),
    ensures
        ({
            let end = walk(w, m, f, entries, parents, hop, hops, max);
            w.rows.len() <= end.rows.len() && w.rows == end.rows.take(w.rows.len() as int)
        }),
    decreases hops + 1 - hop,
{
    let end = walk(w, m, f, entries, parents, hop, hops, max);
    if !(hop > hops || parents.len() == 0 || w.expanded >= max) {
        let cleared = Walk { next: Seq::empty(), ..w };
        lemma_level_met(cleared, m, f, entries, parents, hop, max);
        let after = follow_level(cleared, m, f, entries, parents, hop, max);
        lemma_walk_grows(after, m, f, entries, after.next, hop + 1, hops, max);
        assert forall|i: int| 0 <= i < w.rows.len() implies w.rows[i] == end.rows[i] by {
            assert(after.rows[i] == w.rows[i]);
            assert(after.rows[i] == end.rows.take(after.rows.len() as int)[i]);
        }
    }
    assert(w.rows =~= end.rows.take(w.rows.len() as int));
}

proof fn lemma_walk_cut(
    a: Walk,
    b: Walk,
    m: Map<Seq<char>, record::RecordView>,
    f: record_store::FilterView,
    entries: Seq<(Seq<char>, Seq<char>)>,
    parents: Seq<Seq<char>>,
    hop: nat,
    hops: nat,
    max: nat,
    more: nat,
)
    requires
        max <= more,
        cut_from(a, b, max),
        a.expanded < max,
        met_are_held(b, entries, more),
        hop <= hops + 1,
    ensures
        cut_from(
            walk(a, m, f, entries, parents, hop, hops, max),
            walk(b, m, f, entries, parents, hop, hops, more),
            max,
        ),
    decreases hops + 1 - hop,
{
    if !(hop > hops || parents.len() == 0) {
        let c = Walk { next: Seq::empty(), ..a };
        let d = Walk { next: Seq::empty(), ..b };
        lemma_level_cut(c, d, m, f, entries, parents, hop, max, more);
        lemma_level_met(d, m, f, entries, parents, hop, more);
        let x = follow_level(c, m, f, entries, parents, hop, max);
        let y = follow_level(d, m, f, entries, parents, hop, more);
        if x.expanded < max {
            lemma_walk_cut(x, y, m, f, entries, x.next, hop + 1, hops, max, more);
        } else {
            assert(walk(x, m, f, entries, x.next, hop + 1, hops, max) == x);
            lemma_walk_grows(y, m, f, entries, y.next, hop + 1, hops, more);
            let end = walk(y, m, f, entries, y.next, hop + 1, hops, more);
            assert(x.rows =~= end.rows.take(x.rows.len() as int)) by {
                assert forall|i: int| 0 <= i < x.rows.len() implies x.rows[i] == end.rows[i] by {
                    assert(y.rows.take(x.rows.len() as int)[i] == y.rows[i]);
                    assert(end.rows.take(y.rows.len() as int)[i] == end.rows[i]);
                }
            }
        }
    } else {
        assert(a.rows =~= b.rows.take(a.rows.len() as int));
    }
}

/// A budget only cuts an expansion off: with a smaller one it gives the beginning of what it
/// gives with a larger one, as many rows as the smaller allows.
pub proof fn law_budget_only_cuts_the_expansion_off(
    m: Map<Seq<char>, record::RecordView>,
    f: record_store::FilterView,
    direct: Seq<HitView>,
    entries: Seq<(Seq<char>, Seq<char>)>,
    hops: nat,
    max: nat,
    more: nat,
)
    requires
        max <= more,
    ensures
        ({
            let short = related_rows(m, f, direct, entries, hops, max);
            let long = related_rows(m, f, direct, entries, hops, more);
            &&& short.len() == (if long.len() < direct.len() + max {
                long.len()
            } else {
                direct.len() + max
            })
            &&& short == long.take(short.len() as int)
        }),
{
    let first = direct.map_values(|h: HitView| direct_row(h));
    let keys = distinct_keys(direct);
    let w = Walk { rows: first, seen: keys, next: Seq::empty(), expanded: 0 };
    lemma_start(direct, entries, more);
    lemma_walk_kept(w, first, m, f, entries, keys, 1, capped(hops), max);
    lemma_walk_kept(w, first, m, f, entries, keys, 1, capped(hops), more);
    assert(first =~= first.take(first.len() as int));
    if max == 0 {
        lemma_walk_grows(w, m, f, entries, keys, 1, capped(hops), more);
    } else {
        lemma_walk_cut(w, w, m, f, entries, keys, 1, capped(hops), max, more);
    }
}

proof fn lemma_start(direct: Seq<HitView>, entries: Seq<(Seq<char>, Seq<char>)>, max: nat)
    ensures
        ({
            let first = direct.map_values(|h: HitView| direct_row(h));
            let keys = distinct_keys(direct);
            let w = Walk { rows: first, seen: keys, next: Seq::empty(), expanded: 0 };
            &&& met_are_held(w, entries, max)
            &&& forall|i: int|
                0 <= i < first.len() ==> (#[trigger] first[i]).hop == 0 && keys.contains(
                    first[i].key,
                )
            &&& forall|j: int| 0 <= j < keys.len() ==> carried(first, #[trigger] keys[j], 0)
        }),
{
    let first = direct.map_values(|h: HitView| direct_row(h));
    let keys = distinct_keys(direct);
    lemma_distinct_keys(direct);
    assert forall|i: int| 0 <= i < keys.len() && payload_of(entries, #[trigger] keys[i])
        is Some implies on_a_row(first, keys[i]) by {
        let j = choose|j: int| 0 <= j < direct.len() && (#[trigger] direct[j]).key == keys[i];
        assert(first[j].key == keys[i]);
    }
    assert forall|i: int| 0 <= i < first.len() implies (#[trigger] first[i]).hop == 0
        && keys.contains(first[i].key) by {
        assert(first[i].key == direct[i].key);
    }
    assert forall|j: int| 0 <= j < keys.len() implies carried(first, #[trigger] keys[j], 0) by {
        let i = choose|i: int| 0 <= i < direct.len() && (#[trigger] direct[i]).key == keys[j];
        assert(first[i].key == keys[j]);
    }
}

/// Every row with the second record id has one with the first before it.
pub open spec fn ahead(rows: Seq<RowView>, a: Seq<char>, b: Seq<char>) -> bool {
    forall|q: int|
        0 <= q < rows.len() && (#[trigger] rows[q]).key == b ==> exists|p: int|
            0 <= p < q && (#[trigger] rows[p]).key == a
}

/// The relation over which a row was reached.
pub open spec fn edge_of(r: RowView) -> record::RelationView {
    record::RelationView { kind: r.via_kind->0, target: r.key }
}

/// One item stands before the other in a list.
pub open spec fn stands_before(
    s: Seq<record::RelationView>,
    a: record::RelationView,
    b: record::RelationView,
) -> bool {
    exists|x: int, y: int| 0 <= x < y < s.len() && #[trigger] s[x] == a && #[trigger] s[y] == b
}

/// Two rows that were led to stand in turn: level by level; of one level in the order of the
/// rows that they came from; and of one record in the order of its relations.
pub open spec fn in_turn(
    m: Map<Seq<char>, record::RecordView>,
    rows: Seq<RowView>,
    i: int,
    j: int,
) -> bool {
    &&& rows[i].hop <= rows[j].hop
    &&& if rows[i].via_from == rows[j].via_from {
        stands_before(
            m[rows[i].via_from->0].relations,
            edge_of(rows[i]),
            edge_of(rows[j]),
        )
    } else {
        ahead(rows, rows[i].via_from->0, rows[j].via_from->0)
    }
}

proof fn lemma_filter_order(
    s: Seq<record::RelationView>,
    keep: spec_fn(record::RelationView) -> bool,
    x: int,
    y: int,
)
    requires
        0 <= x < y < s.filter(keep).len(),
    ensures
        stands_before(s, s.filter(keep)[x], s.filter(keep)[y]),
    decreases s.len(),
{
    reveal(Seq::filter);
    if s.len() > 0 {
        let less = s.drop_last();
        let kept = less.filter(keep);
        if y < kept.len() {
            lemma_filter_order(less, keep, x, y);
            let (a, b) = choose|a: int, b: int|
                0 <= a < b < less.len() && #[trigger] less[a] == kept[x] && #[trigger] less[b]
                    == kept[y];
            assert(s[a] == less[a] && s[b] == less[b]);
        } else {
            record_store::lemma_filter_element(less, keep, x);
            let a = choose|a: int| 0 <= a < less.len() && less[a] == kept[x];
            assert(s[a] == less[a]);
            assert(s[s.len() - 1] == s.filter(keep)[y]);
        }
    }
}

/// How the rows of a level stand while its records are followed: those from `base` on came, over
/// relations in their order, from the first `t` of the records, of which they follow the last up
/// to its relation `e`.
spec fn turns(
    w: Walk,
    m: Map<Seq<char>, record::RecordView>,
    f: record_store::FilterView,
    parents: Seq<Seq<char>>,
    d: int,
    base: int,
    t: int,
    e: int,
    hop: nat,
) -> bool {
    &&& d <= base <= w.rows.len()
    &&& w.next.len() == w.rows.len() - base
    &&& forall|i: int| 0 <= i < w.next.len() ==> #[trigger] w.next[i] == w.rows[base + i].key
    &&& forall|i: int| 0 <= i < base ==> (#[trigger] w.rows[i]).hop < hop
    &&& forall|i: int| base <= i < w.rows.len() ==> (#[trigger] w.rows[i]).hop == hop
    &&& forall|i: int| base <= i < w.rows.len() ==> #[trigger] came(w.rows[i], m, f, parents, t, e)
    &&& forall|i: int, j: int| d <= i < j < w.rows.len() ==> #[trigger] in_turn(m, w.rows, i, j)
    &&& forall|x: int, y: int|
        0 <= x < y < parents.len() ==> #[trigger] parents[x] != #[trigger] parents[y] && ahead(
            w.rows,
            parents[x],
            parents[y],
        )
}

/// The row came from one of the first `t` records, or from the next over one of its first `e`
/// relations.
spec fn came(
    r: RowView,
    m: Map<Seq<char>, record::RecordView>,
    f: record_store::FilterView,
    parents: Seq<Seq<char>>,
    t: int,
    e: int,
) -> bool {
    exists|x: int| 0 <= x <= t && x < parents.len() && #[trigger] came_of(r, m, f, parents[x], x, t, e)
}

spec fn came_of(
    r: RowView,
    m: Map<Seq<char>, record::RecordView>,
    f: record_store::FilterView,
    parent: Seq<char>,
    x: int,
    t: int,
    e: int,
) -> bool {
    &&& r.via_from == Some(parent)
    &&& x == t ==> exists|y: int|
        0 <= y < e && y < record_store::related(m, parent, f).len() && #[trigger]
            record_store::related(m, parent, f)[y] == edge_of(r)
}

/// The direct hits have no level, and stand first.
spec fn flat(direct: Seq<RowView>) -> bool {
    forall|i: int| 0 <= i < direct.len() ==> (#[trigger] direct[i]).hop == 0
}

proof fn lemma_turns_edge(
    w: Walk,
    direct: Seq<RowView>,
    m: Map<Seq<char>, record::RecordView>,
    f: record_store::FilterView,
    entries: Seq<(Seq<char>, Seq<char>)>,
    parents: Seq<Seq<char>>,
    base: int,
    t: int,
    e: int,
    hop: nat,
    hops: nat,
    max: nat,
)
    requires
        kept(w, direct, m, f, entries, hops, max),
        flat(direct),
        0 <= t < parents.len(),
        0 <= e < record_store::related(m, parents[t], f).len(),
        turns(w, m, f, parents, direct.len() as int, base, t, e, hop),
        forall|x: int| 0 <= x < parents.len() ==> carried(w.rows, #[trigger] parents[x], hop - 1),
    ensures
        turns(
            follow_edge(
                w,
                entries,
                parents[t],
                record_store::related(m, parents[t], f)[e],
                hop,
                max,
            ),
            m,
            f,
            parents,
            direct.len() as int,
            base,
            t,
            e + 1,
            hop,
        ),
{
    let d = direct.len() as int;
    let parent = parents[t];
    let edges = record_store::related(m, parent, f);
    let edge = edges[e];
    let after = follow_edge(w, entries, parent, edge, hop, max);
    let n = w.rows.len() as int;
    assert forall|i: int| base <= i < n implies #[trigger] came(
        after.rows[i],
        m,
        f,
        parents,
        t,
        e + 1,
    ) by {
        assert(after.rows[i] == w.rows[i]);
        assert(came(w.rows[i], m, f, parents, t, e));
        let x = choose|x: int|
            0 <= x <= t && x < parents.len() && #[trigger] came_of(
                w.rows[i],
                m,
                f,
                parents[x],
                x,
                t,
                e,
            );
        assert(came_of(w.rows[i], m, f, parents[x], x, t, e + 1));
    }
    if after.rows.len() > n {
        let row = after.rows[n];
        assert(edge_of(row) == edge);
        assert(edges[e] == edge_of(row));
        assert(came_of(row, m, f, parents[t], t, t, e + 1));
        assert(came(row, m, f, parents, t, e + 1));
        assert forall|a: Seq<char>, b: Seq<char>|
            on_a_row(w.rows, b) && #[trigger] ahead(w.rows, a, b) implies ahead(
            after.rows,
            a,
            b,
        ) by {
            assert forall|q: int| 0 <= q < after.rows.len() && (#[trigger] after.rows[q]).key
                == b implies exists|p: int| 0 <= p < q && (#[trigger] after.rows[p]).key == a by {
                if q == n {
                    let z = choose|z: int| 0 <= z < n && (#[trigger] w.rows[z]).key == b;
                    assert(w.seen.contains(w.rows[z].key));
                } else {
                    assert(w.rows[q].key == b);
                    let p = choose|p: int| 0 <= p < q && (#[trigger] w.rows[p]).key == a;
                    assert(after.rows[p] == w.rows[p]);
                }
            }
        }
        assert forall|x: int, y: int|
            0 <= x < y < parents.len() implies #[trigger] parents[x] != #[trigger] parents[y]
            && ahead(after.rows, parents[x], parents[y]) by {
            assert(carried(w.rows, parents[y], hop - 1));
            let p = choose|p: int| 0 <= p < w.rows.len() && (#[trigger] w.rows[p]).key == parents[y];
            assert(on_a_row(w.rows, parents[y]));
        }
        assert forall|i: int, j: int| d <= i < j < after.rows.len() implies #[trigger] in_turn(
            m,
            after.rows,
            i,
            j,
        ) by {
            assert(after.rows[i] == w.rows[i]);
            assert(led(w.rows, i, entries));
            assert(reached(w.rows[i], m, f, hops));
            let p = choose|p: int| 0 <= p < i && #[trigger] leads(w.rows[p], w.rows[i]);
            if j < n {
                assert(after.rows[j] == w.rows[j]);
                assert(in_turn(m, w.rows, i, j));
                assert(led(w.rows, j, entries));
                let q = choose|q: int| 0 <= q < j && #[trigger] leads(w.rows[q], w.rows[j]);
                assert(reached(w.rows[j], m, f, hops));
                assert(w.rows[q].key == w.rows[j].via_from->0);
                assert(on_a_row(w.rows, w.rows[j].via_from->0));
            } else {
                let via = w.rows[i].via_from->0;
                assert(w.rows[p].key == via);
                assert(carried(w.rows, parent, hop - 1));
                if i < base {
                    if via == parent {
                        assert(w.rows[p].hop == hop - 1);
                    }
                    assert forall|q: int| 0 <= q < after.rows.len() && (
                    #[trigger] after.rows[q]).key == parent implies exists|z: int|
                        0 <= z < q && (#[trigger] after.rows[z]).key == via by {
                        if q == n {
                            let z = choose|z: int| 0 <= z < n && (#[trigger] w.rows[z]).key
                                == parent;
                            assert(w.seen.contains(w.rows[z].key));
                        } else {
                            assert(w.rows[q].hop == hop - 1);
                            assert(w.rows[p].hop < hop - 1);
                            if q <= p {
                                if q < d {
                                    assert(w.rows[q] == direct[q]);
                                    assert(w.rows[q].hop <= w.rows[p].hop) by {
                                        if p < d {
                                            assert(w.rows[p] == direct[p]);
                                        }
                                    }
                                } else if q < p {
                                    assert(in_turn(m, w.rows, q, p));
                                }
                            }
                            assert(after.rows[p].key == via);
                        }
                    }
                    assert(ahead(after.rows, via, parent));
                } else {
                    assert(came(w.rows[i], m, f, parents, t, e));
                    let x = choose|x: int|
                        0 <= x <= t && x < parents.len() && #[trigger] came_of(
                            w.rows[i],
                            m,
                            f,
                            parents[x],
                            x,
                            t,
                            e,
                        );
                    if x == t {
                        let y = choose|y: int|
                            0 <= y < e && y < edges.len() && #[trigger] edges[y] == edge_of(
                                w.rows[i],
                            );
                        lemma_filter_order(
                            m[parent].relations,
                            |r: record::RelationView| record_store::admitted(m, r.target, f),
                            y,
                            e,
                        );
                    } else {
                        assert(parents[x] != parents[t]);
                        assert(ahead(after.rows, parents[x], parents[t]));
                    }
                }
            }
        }
    }
}

proof fn lemma_turns_edges(
    w: Walk,
    direct: Seq<RowView>,
    m: Map<Seq<char>, record::RecordView>,
    f: record_store::FilterView,
    entries: Seq<(Seq<char>, Seq<char>)>,
    parents: Seq<Seq<char>>,
    base: int,
    t: int,
    e: int,
    hop: nat,
    hops: nat,
    max: nat,
)
    requires
        kept(w, direct, m, f, entries, hops, max),
        onward(w, hop as int),
        flat(direct),
        1 <= hop <= hops,
        0 <= t < parents.len(),
        0 <= e <= record_store::related(m, parents[t], f).len(),
        turns(w, m, f, parents, direct.len() as int, base, t, 0, hop),
        forall|x: int| 0 <= x < parents.len() ==> carried(w.rows, #[trigger] parents[x], hop - 1),
    ensures
        ({
            let after = follow_edges(
                w,
                entries,
                parents[t],
                record_store::related(m, parents[t], f).take(e),
                hop,
                max,
            );
            &&& turns(after, m, f, parents, direct.len() as int, base, t, e, hop)
            &&& kept(after, direct, m, f, entries, hops, max)
            &&& onward(after, hop as int)
            &&& carries_on(w.rows, after.rows)
        }),
    decreases e,
{
    let edges = record_store::related(m, parents[t], f);
    if e > 0 {
        lemma_turns_edges(w, direct, m, f, entries, parents, base, t, e - 1, hop, hops, max);
        let before = follow_edges(w, entries, parents[t], edges.take(e - 1), hop, max);
        assert(edges.take(e).drop_last() =~= edges.take(e - 1));
        assert(edges.take(e).last() == edges[e - 1]);
        record_store::law_related_are_admitted(m, parents[t], f);
        assert forall|x: int| 0 <= x < parents.len() implies carried(
            before.rows,
            #[trigger] parents[x],
            hop - 1,
        ) by {
            assert(carried(w.rows, parents[x], hop - 1));
        }
        assert(record_store::admitted(m, edges[e - 1].target, f));
        lemma_turns_edge(before, direct, m, f, entries, parents, base, t, e - 1, hop, hops, max);
        lemma_edge_kept(
            before,
            direct,
            m,
            f,
            entries,
            parents[t],
            edges[e - 1],
            hop,
            hops,
            max,
        );
    } else {
        assert(edges.take(0).len() == 0);
    }
}

proof fn lemma_turns_level(
    w: Walk,
    direct: Seq<RowView>,
    m: Map<Seq<char>, record::RecordView>,
    f: record_store::FilterView,
    entries: Seq<(Seq<char>, Seq<char>)>,
    parents: Seq<Seq<char>>,
    base: int,
    t: int,
    hop: nat,
    hops: nat,
    max: nat,
)
    requires
        kept(w, direct, m, f, entries, hops, max),
        onward(w, hop as int),
        flat(direct),
        1 <= hop <= hops,
        0 <= t <= parents.len(),
        turns(w, m, f, parents, direct.len() as int, base, 0, 0, hop),
        forall|x: int| 0 <= x < parents.len() ==> carried(w.rows, #[trigger] parents[x], hop - 1),
    ensures
        ({
            let after = follow_level(w, m, f, entries, parents.take(t), hop, max);
            &&& turns(after, m, f, parents, direct.len() as int, base, t, 0, hop)
            &&& kept(after, direct, m, f, entries, hops, max)
            &&& onward(after, hop as int)
            &&& carries_on(w.rows, after.rows)
        }),
    decreases t,
{
    if t > 0 {
        lemma_turns_level(w, direct, m, f, entries, parents, base, t - 1, hop, hops, max);
        let before = follow_level(w, m, f, entries, parents.take(t - 1), hop, max);
        let edges = record_store::related(m, parents[t - 1], f);
        assert(parents.take(t).drop_last() =~= parents.take(t - 1));
        assert(parents.take(t).last() == parents[t - 1]);
        assert forall|x: int| 0 <= x < parents.len() implies carried(
            before.rows,
            #[trigger] parents[x],
            hop - 1,
        ) by {
            assert(carried(w.rows, parents[x], hop - 1));
        }
        let n = edges.len() as int;
        lemma_turns_edges(
            before,
            direct,
            m,
            f,
            entries,
            parents,
            base,
            t - 1,
            n,
            hop,
            hops,
            max,
        );
        assert(edges.take(n) =~= edges);
        let after = follow_level(w, m, f, entries, parents.take(t), hop, max);
        assert forall|i: int| base <= i < after.rows.len() implies #[trigger] came(
            after.rows[i],
            m,
            f,
            parents,
            t,
            0,
        ) by {
            assert(came(after.rows[i], m, f, parents, t - 1, n));
            let x = choose|x: int|
                0 <= x <= t - 1 && x < parents.len() && #[trigger] came_of(
                    after.rows[i],
                    m,
                    f,
                    parents[x],
                    x,
                    t - 1,
                    n,
                );
            assert(came_of(after.rows[i], m, f, parents[x], x, t, 0));
        }
    } else {
        assert(parents.take(0).len() == 0);
    }
}

proof fn lemma_turns_walk(
    w: Walk,
    direct: Seq<RowView>,
    m: Map<Seq<char>, record::RecordView>,
    f: record_store::FilterView,
    entries: Seq<(Seq<char>, Seq<char>)>,
    parents: Seq<Seq<char>>,
    hop: nat,
    hops: nat,
    max: nat,
)
    requires
        kept(w, direct, m, f, entries, hops, max),
        flat(direct),
        1 <= hop,
        forall|x: int| 0 <= x < parents.len() ==> carried(w.rows, #[trigger] parents[x], hop - 1),
        forall|x: int, y: int|
            0 <= x < y < parents.len() ==> #[trigger] parents[x] != #[trigger] parents[y] && ahead(
                w.rows,
                parents[x],
                parents[y],
            ),
        forall|i: int| 0 <= i < w.rows.len() ==> (#[trigger] w.rows[i]).hop < hop,
        forall|i: int, j: int|
            direct.len() <= i < j < w.rows.len() ==> #[trigger] in_turn(m, w.rows, i, j),
    ensures
        ({
            let rows = walk(w, m, f, entries, parents, hop, hops, max).rows;
            forall|i: int, j: int|
                direct.len() <= i < j < rows.len() ==> #[trigger] in_turn(m, rows, i, j)
        }),
    decreases hops + 1 - hop,
{
    if !(hop > hops || parents.len() == 0 || w.expanded >= max) {
        let cleared = Walk { next: Seq::empty(), ..w };
        let base = w.rows.len() as int;
        let n = parents.len() as int;
        assert(turns(cleared, m, f, parents, direct.len() as int, base, 0, 0, hop));
        lemma_turns_level(cleared, direct, m, f, entries, parents, base, n, hop, hops, max);
        assert(parents.take(n) =~= parents);
        let after = follow_level(cleared, m, f, entries, parents, hop, max);
        assert forall|x: int, y: int|
            0 <= x < y < after.next.len() implies #[trigger] after.next[x]
            != #[trigger] after.next[y] && ahead(after.rows, after.next[x], after.next[y]) by {
            assert(led(after.rows, base + x, entries));
            assert(led(after.rows, base + y, entries));
            assert(after.next[x] == after.rows[base + x].key);
            assert(after.next[y] == after.rows[base + y].key);
            assert forall|q: int| 0 <= q < after.rows.len() && (#[trigger] after.rows[q]).key
                == after.next[y] implies exists|p: int|
                0 <= p < q && (#[trigger] after.rows[p]).key == after.next[x] by {
                if q > base + y {
                    assert(led(after.rows, q, entries));
                }
                assert(after.rows[base + x].key == after.next[x]);
            }
        }
        lemma_turns_walk(after, direct, m, f, entries, after.next, hop + 1, hops, max);
        assert(walk(w, m, f, entries, parents, hop, hops, max) == walk(
            after,
            m,
            f,
            entries,
            after.next,
            hop + 1,
            hops,
            max,
        ));
    }
}

proof fn lemma_distinct_in_turn(hits: Seq<HitView>, x: int, y: int, q: int) -> (p: int)
    requires
        0 <= x < y < distinct_keys(hits).len(),
        0 <= q < hits.len(),
        hits[q].key == distinct_keys(hits)[y],
    ensures
        0 <= p < q,
        hits[p].key == distinct_keys(hits)[x],
        distinct_keys(hits)[x] != distinct_keys(hits)[y],
    decreases hits.len(),
{
    let less = hits.drop_last();
    let before = distinct_keys(less);
    let keys = distinct_keys(hits);
    lemma_distinct_keys(less);
    if y < before.len() && q < less.len() {
        assert(less[q] == hits[q]);
        let p = lemma_distinct_in_turn(less, x, y, q);
        assert(less[p] == hits[p]);
        p
    } else {
        assert(before[x] == keys[x]);
        let p = choose|p: int| 0 <= p < less.len() && (#[trigger] less[p]).key == before[x];
        assert(less[p] == hits[p]);
        if q < less.len() {
            assert(before.contains(less[q].key));
        } else if y < before.len() {
            assert(before[y] == keys[y]);
            let z = choose|z: int| 0 <= z < less.len() && (#[trigger] less[z]).key == before[y];
            let _ = lemma_distinct_in_turn(less, x, y, z);
        }
        p
    }
}

/// Relations are followed in turn: what they lead to stands level by level, in each in the order
/// of the rows that it came from, and of one record in the order of its relations.
pub proof fn law_expansion_goes_in_turn(
    m: Map<Seq<char>, record::RecordView>,
    f: record_store::FilterView,
    direct: Seq<HitView>,
    entries: Seq<(Seq<char>, Seq<char>)>,
    hops: nat,
    max: nat,
)
    ensures
        ({
            let rows = related_rows(m, f, direct, entries, hops, max);
            forall|i: int, j: int|
                direct.len() <= i < j < rows.len() ==> #[trigger] in_turn(m, rows, i, j)
        }),
{
    let first = direct.map_values(|h: HitView| direct_row(h));
    let keys = distinct_keys(direct);
    let w = Walk { rows: first, seen: keys, next: Seq::empty(), expanded: 0 };
    lemma_start(direct, entries, max);
    assert forall|x: int, y: int| 0 <= x < y < keys.len() implies #[trigger] keys[x]
        != #[trigger] keys[y] && ahead(first, keys[x], keys[y]) by {
        lemma_distinct_keys(direct);
        let z = choose|z: int| 0 <= z < direct.len() && (#[trigger] direct[z]).key == keys[y];
        let _ = lemma_distinct_in_turn(direct, x, y, z);
        assert forall|q: int| 0 <= q < first.len() && (#[trigger] first[q]).key
            == keys[y] implies exists|p: int| 0 <= p < q && (#[trigger] first[p]).key == keys[x] by {
            assert(direct[q].key == keys[y]);
            let p = lemma_distinct_in_turn(direct, x, y, q);
            assert(first[p].key == keys[x]);
        }
    }
    lemma_turns_walk(w, first, m, f, entries, keys, 1, capped(hops), max);
}

/// A region and the payloads of its items, in the order of their insertion.
#[derive(Debug)]
struct Shard {
    region: String,
    items: Vec<Vec<u8>>,
}

/// The payloads of a region.
pub open spec fn payload_views(s: Seq<Vec<u8>>) -> Seq<Seq<u8>> {
    s.map_values(|p: Vec<u8>| p@)
}

spec fn stands(shards: Seq<Shard>, region: Seq<char>, i: int) -> bool {
    0 <= i < shards.len() && shards[i].region@ == region
}

spec fn shard_map(shards: Seq<Shard>) -> Map<Seq<char>, Seq<Seq<u8>>> {
    Map::new(
        |region: Seq<char>| exists|i: int| stands(shards, region, i),
        |region: Seq<char>| payload_views(shards[choose|i: int| stands(shards, region, i)].items@),
    )
}

/// The items of each causal region, and the record layer over them.
pub struct ShardedHybrid {
    shards: Vec<Shard>,
    records: RecordStore,
}

/// The number of items of each region.
pub open spec fn counts(m: Map<Seq<char>, Seq<Seq<u8>>>) -> Map<Seq<char>, nat> {
    m.map_values(|items: Seq<Seq<u8>>| items.len())
}

/// Putting a list of items in a region's place changes the number of all items by as many as
/// the list has more.
pub proof fn lemma_counts_insert(
    m: Map<Seq<char>, Seq<Seq<u8>>>,
    region: Seq<char>,
    items: Seq<Seq<u8>>,
)
    requires
        m.dom().finite(),
    ensures
        totals::total(counts(m.insert(region, items))) + items_of(m, region).len()
            == totals::total(counts(m)) + items.len(),
{
    assert(counts(m).dom() =~= m.dom());
    assert(counts(m.insert(region, items)) =~= counts(m).insert(region, items.len()));
    totals::lemma_total_insert(counts(m), region, items.len());
}

/// Taking a region away takes its items from the number of all items.
pub proof fn lemma_counts_remove(m: Map<Seq<char>, Seq<Seq<u8>>>, region: Seq<char>)
    requires
        m.dom().finite(),
    ensures
        totals::total(counts(m.remove(region))) + items_of(m, region).len() == totals::total(
            counts(m),
        ),
{
    assert(counts(m).dom() =~= m.dom());
    assert(counts(m.remove(region)) =~= counts(m).remove(region));
    if m.contains_key(region) {
        totals::lemma_total_remove(counts(m), region);
    } else {
        assert(m.remove(region) =~= m);
    }
}

/// The fault of a write that the engine did not take.
pub open spec fn refused() -> EmbedFault {
    EmbedFault::Protocol(
        "validated embedding could not be inserted into the sharded hybrid index"@,
    )
}

/// The fault of a record that is no newer than the stored one.
pub open spec fn stale_fault(id: Seq<char>, current: u64, proposed: u64) -> EmbedFault {
    EmbedFault::Protocol(
        "record "@ + id + " generation must increase monotonically: current="@ + text::decimal(
            current as nat,
        ) + ", proposed="@ + text::decimal(proposed as nat),
    )
}

/// The items of a region, none where there is no such region.
pub open spec fn items_of(m: Map<Seq<char>, Seq<Seq<u8>>>, region: Seq<char>) -> Seq<Seq<u8>> {
    if m.contains_key(region) {
        m[region]
    } else {
        Seq::empty()
    }
}

impl ShardedHybrid {
    #[verifier::type_invariant]
    spec fn well_formed(self) -> bool {
        &&& forall|i: int, j: int|
            0 <= i < j < self.shards@.len() ==> (#[trigger] self.shards@[i]).region@ != (
            #[trigger] self.shards@[j]).region@
        &&& forall|i: int| 0 <= i < self.shards@.len() ==> (#[trigger] self.shards@[i]).items@.len() > 0
    }

    /// The payloads of each region.
    pub closed spec fn view(&self) -> Map<Seq<char>, Seq<Seq<u8>>> {
        shard_map(self.shards@)
    }

    /// The record layer.
    pub closed spec fn layer(&self) -> Map<Seq<char>, record::RecordView> {
        self.records@
    }

    /// The region names, in the order of their first insertion.
    spec fn names(&self) -> Seq<Seq<char>> {
        Seq::new(self.shards@.len(), |i: int| self.shards@[i].region@)
    }

    /// The number of items in all regions.
    pub open spec fn held(&self) -> nat {
        totals::total(counts(self.view()))
    }

    /// There are as many regions as names.
    proof fn lemma_regions(self)
        requires
            self.well_formed(),
        ensures
            self@.dom().finite(),
            self@.dom().len() == self.shards@.len(),
    {
        let names = self.names();
        assert(names.no_duplicates()) by {
            assert forall|i: int, j: int|
                0 <= i < names.len() && 0 <= j < names.len() && i != j implies names[i]
                != names[j] by {
                if i < j {
                    assert(self.shards@[i].region@ != self.shards@[j].region@);
                } else {
                    assert(self.shards@[j].region@ != self.shards@[i].region@);
                }
            }
        }
        names.unique_seq_to_set();
        vstd::seq_lib::seq_to_set_is_finite(names);
        assert forall|k: Seq<char>| #[trigger] self@.dom().contains(k)
            == names.to_set().contains(k) by {
            if self@.dom().contains(k) {
                let i = choose|i: int| stands(self.shards@, k, i);
                assert(names[i] == k);
            }
            if names.contains(k) {
                let i = choose|i: int| 0 <= i < names.len() && names[i] == k;
                self.lemma_at(i);
            }
        }
        assert(self@.dom() =~= names.to_set());
    }

    proof fn lemma_at(self, i: int)
        requires
            self.well_formed(),
            0 <= i < self.shards@.len(),
        ensures
            self@.contains_key(self.shards@[i].region@),
            self@[self.shards@[i].region@] == payload_views(self.shards@[i].items@),
    {
        let region = self.shards@[i].region@;
        assert(stands(self.shards@, region, i));
        let j = choose|j: int| stands(self.shards@, region, j);
        if j < i {
            assert(self.shards@[j].region@ != self.shards@[i].region@);
        } else if i < j {
            assert(self.shards@[i].region@ != self.shards@[j].region@);
        }
    }

    /// An empty memory.
    pub fn new() -> (s: ShardedHybrid)
        ensures
            s@ == Map::<Seq<char>, Seq<Seq<u8>>>::empty(),
            s.layer() == Map::<Seq<char>, record::RecordView>::empty(),
            s.held() == 0,
    {
        let s = ShardedHybrid { shards: Vec::new(), records: RecordStore::new() };
        proof {
            assert(s@ =~= Map::<Seq<char>, Seq<Seq<u8>>>::empty());
            totals::lemma_total_empty(counts(s@));
        }
        s
    }

    /// The place of a region.
    fn position(&self, region: &str) -> (r: Option<usize>)
        ensures
            match r {
                Some(i) => stands(self.shards@, region@, i as int) && self@.contains_key(region@)
                    && self@[region@] == payload_views(self.shards@[i as int].items@),
                None => !self@.contains_key(region@),
            },
    {
        proof {
            use_type_invariant(self);
        }
        let mut i: usize = 0;
        while i < self.shards.len()
            invariant
                i <= self.shards@.len(),
                self.well_formed(),
                forall|j: int| 0 <= j < i ==> (#[trigger] self.shards@[j]).region@ != region@,
            decreases self.shards@.len() - i,
        {
            if text::text_equal(self.shards[i].region.as_str(), region) {
                proof {
                    self.lemma_at(i as int);
                }
                return Some(i);
            }
            i += 1;
        }
        proof {
            if self@.contains_key(region@) {
                let j = choose|j: int| stands(self.shards@, region@, j);
                assert(self.shards@[j].region@ == region@);
            }
        }
        None
    }

    /// The record layer.
    pub fn records(&self) -> (r: &RecordStore)
        ensures
            r@ == self.layer(),
    {
        &self.records
    }

    /// The number of records, hidden ones too.
    pub fn records_len(&self) -> (n: usize)
        ensures
            n == self.layer().len(),
    {
        self.records.len()
    }

    /// The record of an id.
    pub fn record(&self, id: &str) -> (r: Option<&MemoryRecord>)
        ensures
            match r {
                Some(x) => self.layer().contains_key(id@) && x@ == self.layer()[id@],
                None => !self.layer().contains_key(id@),
            },
    {
        self.records.get(id)
    }

    /// The number of regions.
    pub fn regions(&self) -> (n: usize)
        ensures
            self@.dom().finite(),
            n == self@.dom().len(),
    {
        proof {
            use_type_invariant(self);
            self.lemma_regions();
        }
        self.shards.len()
    }

    /// No region holds more items than the machine can count.
    pub proof fn lemma_counted(&self)
        ensures
            forall|k: Seq<char>| #[trigger] items_of(self@, k).len() <= usize::MAX,
    {
        assert forall|k: Seq<char>| #[trigger] items_of(self@, k).len() <= usize::MAX by {
            if self@.contains_key(k) {
                let i = choose|i: int| stands(self.shards@, k, i);
                let n: usize = self.shards@[i].items.len();
                assert(self@[k].len() == n);
            }
        }
    }

    /// The region names, in the order of their bytes.
    pub fn region_keys(&self) -> (r: Vec<String>)
        ensures
            self@.dom().finite(),
            r@.len() == self@.dom().len(),
            forall|i: int| 0 <= i < r@.len() ==> self@.contains_key((#[trigger] r@[i])@),
            forall|k: Seq<char>| #[trigger]
                self@.contains_key(k) ==> text::text_views(r@).contains(k),
            forall|i: int, j: int|
                0 <= i < j < r@.len() ==> text::text_below(
                    (#[trigger] r@[i])@,
                    (#[trigger] r@[j])@,
                ),
    {
        proof {
            use_type_invariant(self);
            self.lemma_regions();
        }
        let mut names: Vec<String> = Vec::new();
        let mut i: usize = 0;
        while i < self.shards.len()
            invariant
                i <= self.shards@.len(),
                names@.len() == i,
                forall|j: int| 0 <= j < i ==> (#[trigger] names@[j])@ == self.shards@[j].region@,
            decreases self.shards@.len() - i,
        {
            names.push(self.shards[i].region.as_str().to_owned());
            i += 1;
        }
        let ghost before = names@;
        proof {
            assert forall|i: int, j: int| 0 <= i < j < before.len() implies (
            #[trigger] before[i])@ != (#[trigger] before[j])@ by {
                assert(self.shards@[i].region@ != self.shards@[j].region@);
            }
        }
        let r = sharded::sorted_distinct(names);
        proof {
            assert forall|a: int| 0 <= a < r@.len() implies self@.contains_key(
                (#[trigger] r@[a])@,
            ) by {
                assert(text::text_views(r@)[a] == r@[a]@);
                assert(text::text_views(r@).contains(r@[a]@));
                let b = choose|b: int|
                    0 <= b < before.len() && text::text_views(before)[b] == r@[a]@;
                self.lemma_at(b);
            }
            assert forall|k: Seq<char>| #[trigger] self@.contains_key(k) implies text::text_views(
                r@,
            ).contains(k) by {
                let b = choose|b: int| stands(self.shards@, k, b);
                assert(text::text_views(before)[b] == k);
                assert(text::text_views(before).contains(k));
            }
        }
        r
    }

    /// Whether there is a region of that name.
    pub fn has_region(&self, region: &str) -> (r: bool)
        ensures
            r == self@.contains_key(region@),
    {
        self.position(region).is_some()
    }

    /// The number of items in a region, zero for an unknown one.
    pub fn region_len(&self, region: &str) -> (n: usize)
        ensures
            n == items_of(self@, region@).len(),
    {
        match self.position(region) {
            Some(i) => self.shards[i].items.len(),
            None => 0,
        }
    }

    /// The number of items in all regions.
    pub fn len(&self) -> (n: usize)
        requires
            self.held() <= usize::MAX,
        ensures
            n == self.held(),
    {
        match self.checked_len() {
            Some(n) => n,
            None => 0,
        }
    }

    /// The number of items in all regions, where it is one.
    pub fn checked_len(&self) -> (r: Option<usize>)
        ensures
            match r {
                Some(n) => n == self.held(),
                None => self.held() > usize::MAX,
            },
    {
        proof {
            use_type_invariant(self);
            self.lemma_regions();
        }
        let mut n: usize = 0;
        let mut i: usize = 0;
        let ghost mut rest = counts(self@);
        proof {
            assert(rest.dom() =~= self@.dom());
            assert forall|k: Seq<char>| #[trigger] rest.contains_key(k) <==> exists|j: int|
                0 <= j && stands(self.shards@, k, j) by {
                if self@.contains_key(k) {
                    let j = choose|j: int| stands(self.shards@, k, j);
                    assert(0 <= j && stands(self.shards@, k, j));
                }
            }
        }
        while i < self.shards.len()
            invariant
                i <= self.shards@.len(),
                self.well_formed(),
                rest.dom().finite(),
                n + totals::total(rest) == self.held(),
                forall|k: Seq<char>| #[trigger] rest.contains_key(k) <==> exists|j: int|
                    i <= j && stands(self.shards@, k, j),
                forall|k: Seq<char>| #[trigger] rest.contains_key(k) ==> rest[k]
                    == self@[k].len(),
            decreases self.shards@.len() - i,
        {
            let here: usize = self.shards[i].items.len();
            let ghost region = self.shards@[i as int].region@;
            proof {
                self.lemma_at(i as int);
                assert(i <= i && stands(self.shards@, region, i as int));
                assert(rest.contains_key(region));
                totals::lemma_total_remove(rest, region);
                let less = rest.remove(region);
                assert(less.dom() =~= rest.dom().remove(region));
                assert forall|k: Seq<char>| #[trigger] less.contains_key(k) <==> exists|j: int|
                    i + 1 <= j && stands(self.shards@, k, j) by {
                    if less.contains_key(k) {
                        assert(rest.contains_key(k));
                        let j = choose|j: int| i <= j && stands(self.shards@, k, j);
                        assert(i + 1 <= j && stands(self.shards@, k, j));
                    }
                    if exists|j: int| i + 1 <= j && stands(self.shards@, k, j) {
                        let j = choose|j: int| i + 1 <= j && stands(self.shards@, k, j);
                        assert(i <= j && stands(self.shards@, k, j));
                        assert(rest.contains_key(k));
                        assert(self.shards@[i as int].region@ != self.shards@[j].region@);
                    }
                }
                rest = less;
            }
            match n.checked_add(here) {
                Some(more) => {
                    n = more;
                },
                None => {
                    return None;
                },
            }
            i += 1;
        }
        proof {
            assert forall|k: Seq<char>| !#[trigger] rest.contains_key(k) by {
                if rest.contains_key(k) {
                    let j = choose|j: int| i <= j && stands(self.shards@, k, j);
                }
            }
            totals::lemma_total_empty(rest);
        }
        Some(n)
    }

    /// Whether nothing is stored.
    pub fn is_empty(&self) -> (r: bool)
        ensures
            r == (self@ == Map::<Seq<char>, Seq<Seq<u8>>>::empty()),
    {
        proof {
            use_type_invariant(self);
            if self.shards@.len() > 0 {
                self.lemma_at(0);
            } else {
                assert(self@ =~= Map::<Seq<char>, Seq<Seq<u8>>>::empty());
            }
        }
        self.shards.len() == 0
    }

    /// The payloads of a region.
    pub fn payloads(&self, region: &str) -> (r: Vec<Vec<u8>>)
        ensures
            payload_views(r@) == items_of(self@, region@),
    {
        let mut out: Vec<Vec<u8>> = Vec::new();
        if let Some(i) = self.position(region) {
            let mut j: usize = 0;
            while j < self.shards[i].items.len()
                invariant
                    i < self.shards@.len(),
                    j <= self.shards@[i as int].items@.len(),
                    out@.len() == j,
                    forall|a: int|
                        0 <= a < j ==> (#[trigger] out@[a])@ == self.shards@[i as int].items@[a]@,
                decreases self.shards@[i as int].items@.len() - j,
            {
                let p = self.shards[i].items[j].clone();
                proof {
                    assert(p@ =~= self.shards@[i as int].items@[j as int]@);
                }
                out.push(p);
                j += 1;
            }
        }
        proof {
            assert(payload_views(out@) =~= items_of(self@, region@));
        }
        out
    }

    /// Puts the payload of an item into a region, which begins with its first item. Where the
    /// engine did not take the item, nothing changes.
    pub fn insert(&mut self, region: &str, payload: Vec<u8>, accepted: bool) -> (r: Result<
        (),
        EmbedError,
    >)
        ensures
            final(self).layer() == old(self).layer(),
            match r {
                Ok(_) => accepted && final(self)@ == old(self)@.insert(
                    region@,
                    items_of(old(self)@, region@).push(payload@),
                ) && final(self).held() == old(self).held() + 1,
                Err(e) => !accepted && e@ == refused() && final(self)@ == old(self)@,
            },
    {
        if !accepted {
            return Err(
                EmbedError::protocol(
                    "validated embedding could not be inserted into the sharded hybrid index",
                ),
            );
        }
        let at = self.position(region);
        proof {
            use_type_invariant(&*self);
        }
        let ghost was = *self;
        let mut shards: Vec<Shard> = Vec::new();
        std::mem::swap(&mut shards, &mut self.shards);
        match at {
            Some(i) => {
                shards[i].items.push(payload);
                proof {
                    assert(shards@[i as int].region@ == region@);
                    assert forall|j: int| 0 <= j < shards@.len() && j != i implies
                        #[trigger] shards@[j] == was.shards@[j] by {}
                }
            },
            None => {
                let mut items: Vec<Vec<u8>> = Vec::new();
                items.push(payload);
                proof {
                    assert forall|j: int| 0 <= j < shards@.len() implies (
                    #[trigger] shards@[j]).region@ != region@ by {
                        was.lemma_at(j);
                    }
                }
                shards.push(Shard { region: region.to_owned(), items });
            },
        }
        self.shards = shards;
        proof {
            let i = match at {
                Some(i) => i as int,
                None => self.shards@.len() - 1,
            };
            let want = was@.insert(region@, items_of(was@, region@).push(payload@));
            assert(payload_views(self.shards@[i].items@) =~= items_of(was@, region@).push(
                payload@,
            ));
            assert forall|k: Seq<char>| #[trigger] self@.dom().contains(k) == want.dom().contains(
                k,
            ) by {
                self.lemma_same(was, k, region@, i);
            }
            assert forall|k: Seq<char>| #[trigger] self@.dom().contains(k) implies self@[k]
                == want[k] by {
                self.lemma_same(was, k, region@, i);
            }
            assert(self@.dom() =~= want.dom());
            assert(self@ =~= want);
            was.lemma_regions();
            lemma_counts_insert(was@, region@, items_of(was@, region@).push(payload@));
        }
        Ok(())
    }

    /// A region other than the changed one is as it was.
    proof fn lemma_same(self, was: ShardedHybrid, k: Seq<char>, region: Seq<char>, i: int)
        requires
            self.well_formed(),
            was.well_formed(),
            stands(self.shards@, region, i),
            was.shards@.len() <= self.shards@.len() <= was.shards@.len() + 1,
            self.shards@.len() > was.shards@.len() ==> i == was.shards@.len() && !was@.contains_key(
                region,
            ),
            self.shards@.len() == was.shards@.len() ==> stands(was.shards@, region, i),
            forall|j: int| 0 <= j < was.shards@.len() && j != i ==> #[trigger] self.shards@[j]
                == was.shards@[j],
        ensures
            k == region ==> self@.contains_key(k) && self@[k] == payload_views(
                self.shards@[i].items@,
            ),
            k != region ==> self@.contains_key(k) == was@.contains_key(k) && (was@.contains_key(k)
                ==> self@[k] == was@[k]),
    {
        self.lemma_at(i);
        if k != region {
            if was@.contains_key(k) {
                let j = choose|j: int| stands(was.shards@, k, j);
                assert(self.shards@[j] == was.shards@[j]);
                self.lemma_at(j);
                was.lemma_at(j);
            }
            if self@.contains_key(k) {
                let j = choose|j: int| stands(self.shards@, k, j);
                assert(self.shards@[j] == was.shards@[j]);
                was.lemma_at(j);
            }
        }
    }
}

/// The fault of a relation that cannot be added.
pub open spec fn relate_fault(
    m: Map<Seq<char>, record::RecordView>,
    id: Seq<char>,
    kind: RelationKind,
    target: Seq<char>,
    generation: u64,
) -> Option<EmbedFault> {
    if !m.contains_key(target) {
        Some(
            EmbedFault::Protocol(
                "relation target "@ + fileguard::debug_form(target) + " has no stored record"@,
            ),
        )
    } else if !m.contains_key(id) {
        Some(EmbedFault::Protocol("no memory record with id "@ + fileguard::debug_form(id)))
    } else {
        match record_store::relate_outcome(m[id], kind, target, generation) {
            Ok(_) => None,
            Err(e) => Some(EmbedFault::Protocol(e.text())),
        }
    }
}

/// The error of a compaction whose survivors could not be indexed again.
pub open spec fn reindex_error() -> error::ErrorView {
    error::invalid_data("compact_region: a surviving item could not be re-indexed"@)
}

/// The items of a region whose record ids a filter admits.
pub open spec fn surviving(
    m: Map<Seq<char>, record::RecordView>,
    f: record_store::FilterView,
    keys: Seq<Seq<char>>,
    from: int,
) -> Seq<usize>
    decreases keys.len() - from,
{
    if !(0 <= from < keys.len()) {
        Seq::empty()
    } else if record_store::admitted(m, keys[from], f) {
        seq![from as usize] + surviving(m, f, keys, from + 1)
    } else {
        surviving(m, f, keys, from + 1)
    }
}

/// The survivors are the admitted items, in their order.
pub proof fn law_compaction_keeps_what_recall_shows(
    m: Map<Seq<char>, record::RecordView>,
    f: record_store::FilterView,
    keys: Seq<Seq<char>>,
    from: int,
)
    requires
        0 <= from <= keys.len() <= usize::MAX,
    ensures
        forall|i: int|
            from <= i < keys.len() ==> (record_store::admitted(m, #[trigger] keys[i], f)
                <==> surviving(m, f, keys, from).contains(i as usize)),
        forall|a: int|
            0 <= a < surviving(m, f, keys, from).len() ==> from <= (#[trigger] surviving(
                m,
                f,
                keys,
                from,
            )[a]) < keys.len(),
        forall|a: int, b: int|
            0 <= a < b < surviving(m, f, keys, from).len() ==> (#[trigger] surviving(
                m,
                f,
                keys,
                from,
            )[a]) < (#[trigger] surviving(m, f, keys, from)[b]),
    decreases keys.len() - from,
{
    let s = surviving(m, f, keys, from);
    if from < keys.len() {
        let t = surviving(m, f, keys, from + 1);
        law_compaction_keeps_what_recall_shows(m, f, keys, from + 1);
        if record_store::admitted(m, keys[from], f) {
            assert(s[0] == from);
            assert forall|a: int| 0 <= a < s.len() implies from <= (#[trigger] s[a])
                < keys.len() by {
                if a > 0 {
                    assert(s[a] == t[a - 1]);
                }
            }
            assert forall|a: int, b: int| 0 <= a < b < s.len() implies (#[trigger] s[a]) < (
            #[trigger] s[b]) by {
                assert(s[b] == t[b - 1]);
                if a > 0 {
                    assert(s[a] == t[a - 1]);
                }
            }
            assert forall|i: int| from <= i < keys.len() implies (record_store::admitted(
                m,
                #[trigger] keys[i],
                f,
            ) <==> s.contains(i as usize)) by {
                if i > from {
                    if t.contains(i as usize) {
                        let a = choose|a: int| 0 <= a < t.len() && t[a] == i as usize;
                        assert(s[a + 1] == i as usize);
                    }
                    if s.contains(i as usize) {
                        let a = choose|a: int| 0 <= a < s.len() && s[a] == i as usize;
                        assert(a > 0);
                        assert(t[a - 1] == i as usize);
                    }
                }
            }
        } else {
            assert forall|i: int| from <= i < keys.len() implies (record_store::admitted(
                m,
                #[trigger] keys[i],
                f,
            ) <==> s.contains(i as usize)) by {
                if i == from && s.contains(i as usize) {
                    let a = choose|a: int| 0 <= a < t.len() && t[a] == i as usize;
                    assert(t[a] >= from + 1);
                }
            }
        }
    }
}

/// The payloads at some places.
pub open spec fn picked(items: Seq<Seq<u8>>, at: Seq<usize>) -> Seq<Seq<u8>> {
    Seq::new(at.len(), |i: int| items[at[i] as int])
}

impl ShardedHybrid {
    /// Whether a record may be written: nothing newer or equal is stored under its id.
    pub fn check_generation(&self, record: &MemoryRecord) -> (r: Result<(), EmbedError>)
        ensures
            match r {
                Ok(_) => record_store::put_outcome(self.layer(), record@) is Ok,
                Err(e) => self.layer().contains_key(record@.id) && record@.generation
                    <= self.layer()[record@.id].generation && e@ == stale_fault(
                    record@.id,
                    self.layer()[record@.id].generation,
                    record@.generation,
                ),
            },
    {
        if let Some(existing) = self.records.get(record.id.as_str()) {
            if record.generation <= existing.generation {
                let mut m = "record ".to_owned();
                m.append(record.id.as_str());
                m.append(" generation must increase monotonically: current=");
                push_decimal(&mut m, existing.generation as u128);
                m.append(", proposed=");
                push_decimal(&mut m, record.generation as u128);
                return Err(EmbedError::Protocol(m));
            }
        }
        Ok(())
    }

    /// Stores an item with its record. A record that is no newer than the stored one is
    /// refused first; where the engine did not take the item, nothing changes either.
    pub fn remember_with_payload(
        &mut self,
        region: &str,
        record: MemoryRecord,
        payload: Vec<u8>,
        accepted: bool,
    ) -> (r: Result<(), EmbedError>)
        ensures
            match r {
                Ok(_) => {
                    &&& accepted
                    &&& record_store::put_outcome(old(self).layer(), record@) == Ok::<
                        _,
                        RecordError,
                    >(final(self).layer())
                    &&& final(self)@ == old(self)@.insert(
                        region@,
                        items_of(old(self)@, region@).push(payload@),
                    )
                    &&& final(self).held() == old(self).held() + 1
                },
                Err(e) => {
                    &&& final(self)@ == old(self)@
                    &&& final(self).layer() == old(self).layer()
                    &&& if old(self).layer().contains_key(record@.id) && record@.generation
                        <= old(self).layer()[record@.id].generation {
                        e@ == stale_fault(
                            record@.id,
                            old(self).layer()[record@.id].generation,
                            record@.generation,
                        )
                    } else {
                        !accepted && e@ == refused()
                    }
                },
            },
    {
        self.check_generation(&record)?;
        self.insert(region, payload, accepted)?;
        let ghost before = self@;
        let ghost shards = self.shards;
        let mut records = RecordStore::new();
        proof {
            use_type_invariant(&*self);
        }
        std::mem::swap(&mut records, &mut self.records);
        let outcome = records.put(record);
        self.records = records;
        proof {
            assert(self.shards == shards);
            assert(self@ =~= before);
            assert(outcome is Ok);
        }
        Ok(())
    }

    /// Stores an item whose payload is its record's id.
    pub fn remember(&mut self, region: &str, record: MemoryRecord, accepted: bool) -> (r: Result<
        (),
        EmbedError,
    >)
        ensures
            match r {
                Ok(_) => {
                    &&& accepted
                    &&& record_store::put_outcome(old(self).layer(), record@) == Ok::<
                        _,
                        RecordError,
                    >(final(self).layer())
                    &&& final(self)@ == old(self)@.insert(
                        region@,
                        items_of(old(self)@, region@).push(vstd::utf8::encode_utf8(record@.id)),
                    )
                },
                Err(e) => {
                    &&& final(self)@ == old(self)@
                    &&& final(self).layer() == old(self).layer()
                    &&& if old(self).layer().contains_key(record@.id) && record@.generation
                        <= old(self).layer()[record@.id].generation {
                        e@ == stale_fault(
                            record@.id,
                            old(self).layer()[record@.id].generation,
                            record@.generation,
                        )
                    } else {
                        !accepted && e@ == refused()
                    }
                },
            },
    {
        let mut payload: Vec<u8> = Vec::new();
        payload.extend_from_slice(record.id.as_str().as_bytes());
        proof {
            assert(payload@ =~= vstd::utf8::encode_utf8(record@.id));
        }
        self.remember_with_payload(region, record, payload, accepted)
    }

    /// Hides a record, at a newer generation.
    pub fn tombstone(&mut self, id: &str, generation: u64) -> (r: Result<(), RecordError>)
        ensures
            final(self)@ == old(self)@,
            match r {
                Ok(_) => {
                    &&& old(self).layer().contains_key(id@)
                    &&& generation > old(self).layer()[id@].generation
                    &&& final(self).layer() == old(self).layer().insert(
                        id@,
                        record::tombstoned(old(self).layer()[id@], generation),
                    )
                },
                Err(e) => {
                    &&& final(self).layer() == old(self).layer()
                    &&& if old(self).layer().contains_key(id@) {
                        generation <= old(self).layer()[id@].generation && e == record::stale(
                            old(self).layer()[id@].generation,
                            generation,
                        )
                    } else {
                        e matches RecordError::UnknownMemoryId(name) && name@ == id@
                    }
                },
            },
    {
        let ghost before = self@;
        let mut records = RecordStore::new();
        proof {
            use_type_invariant(&*self);
        }
        std::mem::swap(&mut records, &mut self.records);
        let r = records.tombstone(id, generation);
        self.records = records;
        proof {
            assert(self@ =~= before);
        }
        r
    }

    /// Adds a relation to a stored record, at a newer generation. The target must have a
    /// record too.
    pub fn relate(&mut self, id: &str, kind: RelationKind, target: &str, generation: u64) -> (r: Result<
        (),
        EmbedError,
    >)
        ensures
            final(self)@ == old(self)@,
            match r {
                Ok(_) => {
                    &&& relate_fault(old(self).layer(), id@, kind, target@, generation) is None
                    &&& final(self).layer() == old(self).layer().insert(
                        id@,
                        record_store::with_relation(
                            old(self).layer()[id@],
                            kind,
                            target@,
                            generation,
                        ),
                    )
                },
                Err(e) => {
                    &&& relate_fault(old(self).layer(), id@, kind, target@, generation) == Some(e@)
                    &&& final(self).layer() == old(self).layer()
                },
            },
    {
        if self.records.get(target).is_none() {
            let mut m = "relation target ".to_owned();
            m.append(fileguard::debug_text(target).as_str());
            m.append(" has no stored record");
            return Err(EmbedError::Protocol(m));
        }
        if self.records.get(id).is_none() {
            let mut m = "no memory record with id ".to_owned();
            m.append(fileguard::debug_text(id).as_str());
            return Err(EmbedError::Protocol(m));
        }
        let ghost before = self@;
        let mut records = RecordStore::new();
        proof {
            use_type_invariant(&*self);
        }
        std::mem::swap(&mut records, &mut self.records);
        let r = records.relate(id, kind, target, generation);
        self.records = records;
        proof {
            assert(self@ =~= before);
        }
        match r {
            Ok(_) => Ok(()),
            Err(e) => Err(EmbedError::Protocol(e.message())),
        }
    }

    /// Removes the records that are purgeable, and returns how many there were. The index
    /// keeps its items.
    pub fn purge_purgeable_at(&mut self, now_unix_ms: u64) -> (removed: usize)
        ensures
            final(self)@ == old(self)@,
            forall|k: Seq<char>| #[trigger]
                final(self).layer().contains_key(k) <==> old(self).layer().contains_key(k)
                    && !old(self).layer()[k].purgeable(now_unix_ms),
            forall|k: Seq<char>| #[trigger]
                final(self).layer().contains_key(k) ==> final(self).layer()[k] == old(
                    self,
                ).layer()[k],
            removed == old(self).layer().len() - final(self).layer().len(),
    {
        let ghost before = self@;
        let mut records = RecordStore::new();
        proof {
            use_type_invariant(&*self);
        }
        std::mem::swap(&mut records, &mut self.records);
        let removed: usize = records.purge_purgeable_at(now_unix_ms);
        self.records = records;
        proof {
            assert(self@ =~= before);
        }
        removed
    }

    /// The first `k` ranked hits of a region that a filter admits; none for an unknown
    /// region. Where fewer are shown, [`next_fetch`] says whether deeper hits are to be
    /// ranked.
    pub fn recall_filtered(&self, region: &str, k: usize, hits: &Vec<Hit>, filter: &RecordFilter) -> (r: Vec<
        Hit,
    >)
        ensures
            hit_views(r@) == (if self@.contains_key(region@) {
                shown(self.layer(), filter@, hit_views(hits@), k as nat)
            } else {
                Seq::empty()
            }),
            self@.contains_key(region@) ==> is_shown(
                self.layer(),
                filter@,
                hit_views(hits@),
                k as nat,
                hit_views(r@),
            ),
    {
        proof {
            lemma_is_shown(self.layer(), filter@, hit_views(hits@), k as nat);
        }
        match self.position(region) {
            Some(_) => show(&self.records, filter, hits, k),
            None => {
                let none: Vec<Hit> = Vec::new();
                proof {
                    assert(hit_views(none@) =~= Seq::<HitView>::empty());
                }
                none
            },
        }
    }

    /// The first `k` ranked hits of a region whose records are visible at a time. Where fewer
    /// are shown, [`next_fetch`] says whether deeper hits are to be ranked.
    pub fn recall_visible(&self, region: &str, k: usize, hits: &Vec<Hit>, now_unix_ms: u64) -> (r: Vec<
        Hit,
    >)
        ensures
            hit_views(r@) == (if self@.contains_key(region@) {
                shown(
                    self.layer(),
                    record_store::lifecycle_filter(now_unix_ms),
                    hit_views(hits@),
                    k as nat,
                )
            } else {
                Seq::empty()
            }),
    {
        self.recall_filtered(region, k, hits, &RecordFilter::at(now_unix_ms))
    }

    /// A filtered recall, and what relations lead to from its hits within the region, whose
    /// entries the caller gives with their record ids.
    pub fn recall_related(
        &self,
        region: &str,
        k: usize,
        hits: &Vec<Hit>,
        entries: &Vec<Entry>,
        filter: &RecordFilter,
        traversal: Traversal,
    ) -> (r: Vec<RelatedHit>)
        ensures
            row_views(r@) == (if self@.contains_key(region@) {
                related_rows(
                    self.layer(),
                    filter@,
                    shown(self.layer(), filter@, hit_views(hits@), k as nat),
                    entry_views(entries@),
                    traversal.hops as nat,
                    traversal.max_expanded as nat,
                )
            } else {
                Seq::empty()
            }),
            self@.contains_key(region@) ==> is_expansion(
                self.layer(),
                filter@,
                shown(self.layer(), filter@, hit_views(hits@), k as nat),
                entry_views(entries@),
                traversal.hops as nat,
                traversal.max_expanded as nat,
                row_views(r@),
            ),
    {
        match self.position(region) {
            Some(_) => {
                let direct = show(&self.records, filter, hits, k);
                expand(&self.records, filter, &direct, entries, traversal)
            },
            None => {
                let none: Vec<RelatedHit> = Vec::new();
                proof {
                    assert(row_views(none@) =~= Seq::<RowView>::empty());
                }
                none
            },
        }
    }

    /// The places of the items that a compaction keeps: those whose record ids, which the
    /// caller gives, the filter admits.
    pub fn survivors(&self, keys: &Vec<String>, filter: &RecordFilter) -> (r: Vec<usize>)
        ensures
            r@ == surviving(self.layer(), filter@, text::text_views(keys@), 0),
            forall|a: int| 0 <= a < r@.len() ==> (#[trigger] r@[a]) < keys@.len(),
            r@.len() <= keys@.len(),
    {
        let mut out: Vec<usize> = Vec::new();
        let mut i: usize = 0;
        let ghost names = text::text_views(keys@);
        proof {
            assert(out@ + surviving(self.layer(), filter@, names, 0) =~= surviving(
                self.layer(),
                filter@,
                names,
                0,
            ));
        }
        while i < keys.len()
            invariant
                i <= keys@.len(),
                names == text::text_views(keys@),
                out@ + surviving(self.layer(), filter@, names, i as int) == surviving(
                    self.layer(),
                    filter@,
                    names,
                    0,
                ),
                forall|a: int| 0 <= a < out@.len() ==> (#[trigger] out@[a]) < keys@.len(),
                out@.len() <= i,
            decreases keys@.len() - i,
        {
            proof {
                assert(names[i as int] == keys@[i as int]@);
            }
            if self.records.admits(keys[i].as_str(), filter) {
                let ghost before = out@;
                out.push(i);
                proof {
                    let rest = surviving(self.layer(), filter@, names, i + 1);
                    assert(before + (seq![i] + rest) =~= out@ + rest);
                }
            }
            i += 1;
        }
        proof {
            assert(out@ + Seq::<usize>::empty() =~= out@);
        }
        out
    }

    /// Compacts a region: its items are those whose record ids the filter admits, and a
    /// region without any is gone. Returns how many items went. Where the engine could not
    /// index the survivors again, nothing changes. The record layer stays as it is.
    pub fn compact_filtered(
        &mut self,
        region: &str,
        keys: &Vec<String>,
        filter: &RecordFilter,
        reindexed: bool,
    ) -> (r: Result<usize, StoreError>)
        requires
            keys@.len() == items_of(old(self)@, region@).len(),
        ensures
            final(self).layer() == old(self).layer(),
            ({
                let at = surviving(old(self).layer(), filter@, text::text_views(keys@), 0);
                match r {
                    Ok(removed) => {
                        &&& removed == keys@.len() - at.len()
                        &&& final(self).held() + removed == old(self).held()
                        &&& at.len() > 0 ==> reindexed
                        &&& final(self)@ == (if at.len() == 0 {
                            old(self)@.remove(region@)
                        } else {
                            old(self)@.insert(
                                region@,
                                picked(items_of(old(self)@, region@), at),
                            )
                        })
                    },
                    Err(e) => {
                        &&& at.len() > 0
                        &&& !reindexed
                        &&& e@ == reindex_error()
                        &&& final(self)@ == old(self)@
                    },
                }
            }),
    {
        let at = self.survivors(keys, filter);
        let place = self.position(region);
        proof {
            use_type_invariant(&*self);
        }
        let ghost was = *self;
        let removed: usize = keys.len() - at.len();
        let i: usize = match place {
            None => {
                proof {
                    assert(self@.remove(region@) =~= self@);
                }
                return Ok(removed);
            },
            Some(i) => i,
        };
        if at.len() == 0 {
            let mut shards: Vec<Shard> = Vec::new();
            std::mem::swap(&mut shards, &mut self.shards);
            let _ = shards.remove(i);
            proof {
                let now = ShardedHybrid { shards, records: self.records };
                assert forall|a: int, b: int| 0 <= a < b < shards@.len() implies (
                #[trigger] shards@[a]).region@ != (#[trigger] shards@[b]).region@ by {
                    let c = if a < i {
                        a
                    } else {
                        a + 1
                    };
                    let d = if b < i {
                        b
                    } else {
                        b + 1
                    };
                    assert(shards@[a] == was.shards@[c]);
                    assert(shards@[b] == was.shards@[d]);
                }
                assert forall|a: int| 0 <= a < shards@.len() implies (
                #[trigger] shards@[a]).items@.len() > 0 by {
                    let c = if a < i {
                        a
                    } else {
                        a + 1
                    };
                    assert(shards@[a] == was.shards@[c]);
                }
            }
            self.shards = shards;
            proof {
                let want = was@.remove(region@);
                assert forall|k: Seq<char>| #[trigger] self@.dom().contains(k) == want.dom().contains(
                    k,
                ) by {
                    self.lemma_removed(was, i as int, k);
                }
                assert forall|k: Seq<char>| #[trigger] self@.dom().contains(k) implies self@[k]
                    == want[k] by {
                    self.lemma_removed(was, i as int, k);
                }
                assert(self@.dom() =~= want.dom());
                assert(self@ =~= want);
                was.lemma_regions();
                lemma_counts_remove(was@, region@);
            }
            return Ok(removed);
        }
        if !reindexed {
            return Err(
                StoreError::invalid("compact_region: a surviving item could not be re-indexed"),
            );
        }
        let mut items: Vec<Vec<u8>> = Vec::new();
        let mut a: usize = 0;
        while a < at.len()
            invariant
                a <= at@.len(),
                i < self.shards@.len(),
                *self == was,
                keys@.len() == self.shards@[i as int].items@.len(),
                forall|b: int| 0 <= b < at@.len() ==> (#[trigger] at@[b]) < keys@.len(),
                items@.len() == a,
                forall|b: int|
                    0 <= b < a ==> (#[trigger] items@[b])@
                        == self.shards@[i as int].items@[at@[b] as int]@,
            decreases at@.len() - a,
        {
            let p = self.shards[i].items[at[a]].clone();
            proof {
                assert(p@ =~= self.shards@[i as int].items@[at@[a as int] as int]@);
            }
            items.push(p);
            a += 1;
        }
        let mut shards: Vec<Shard> = Vec::new();
        std::mem::swap(&mut shards, &mut self.shards);
        shards[i].items = items;
        proof {
            assert(shards@[i as int].region@ == region@);
            assert forall|j: int| 0 <= j < shards@.len() && j != i implies #[trigger] shards@[j]
                == was.shards@[j] by {}
        }
        self.shards = shards;
        proof {
            let want = was@.insert(region@, picked(items_of(was@, region@), at@));
            assert(payload_views(self.shards@[i as int].items@) =~= picked(
                items_of(was@, region@),
                at@,
            ));
            assert forall|k: Seq<char>| #[trigger] self@.dom().contains(k) == want.dom().contains(
                k,
            ) by {
                self.lemma_same(was, k, region@, i as int);
            }
            assert forall|k: Seq<char>| #[trigger] self@.dom().contains(k) implies self@[k]
                == want[k] by {
                self.lemma_same(was, k, region@, i as int);
            }
            assert(self@.dom() =~= want.dom());
            assert(self@ =~= want);
            was.lemma_regions();
            lemma_counts_insert(was@, region@, picked(items_of(was@, region@), at@));
        }
        Ok(removed)
    }

    /// A region other than the removed one is as it was.
    proof fn lemma_removed(self, was: ShardedHybrid, i: int, k: Seq<char>)
        requires
            self.well_formed(),
            was.well_formed(),
            0 <= i < was.shards@.len(),
            self.shards@ == was.shards@.remove(i),
        ensures
            self@.contains_key(k) == (was@.contains_key(k) && k != was.shards@[i].region@),
            self@.contains_key(k) ==> self@[k] == was@[k],
    {
        if self@.contains_key(k) {
            let j = choose|j: int| stands(self.shards@, k, j);
            let c = if j < i {
                j
            } else {
                j + 1
            };
            assert(self.shards@[j] == was.shards@[c]);
            self.lemma_at(j);
            was.lemma_at(c);
            if c < i {
                assert(was.shards@[c].region@ != was.shards@[i].region@);
            } else {
                assert(was.shards@[i].region@ != was.shards@[c].region@);
            }
        }
        if was@.contains_key(k) && k != was.shards@[i].region@ {
            let c = choose|c: int| stands(was.shards@, k, c);
            let j = if c < i {
                c
            } else {
                c - 1
            };
            assert(self.shards@[j] == was.shards@[c]);
            self.lemma_at(j);
        }
    }
}

impl ShardedHybrid {
    /// Gives the memory a record layer, in place of the one that it has.
    pub fn set_records(&mut self, records: RecordStore)
        ensures
            final(self)@ == old(self)@,
            final(self).layer() == records@,
    {
        let ghost before = self@;
        proof {
            use_type_invariant(&*self);
        }
        self.records = records;
        proof {
            assert(self@ =~= before);
        }
    }

    /// The manifest: the regions in the order of their bytes, and whether there is a record
    /// layer beside them.
    pub fn manifest(&self, dim: u32, seed: u64, bits: u64) -> (m: HybridManifest)
        ensures
            m.dim == dim,
            m.seed == seed,
            m.bits == bits,
            self@.dom().finite(),
            m.regions@.len() == self@.dom().len(),
            forall|i: int| 0 <= i < m.regions@.len() ==> self@.contains_key((#[trigger] m.regions@[i])@),
            forall|k: Seq<char>| #[trigger]
                self@.contains_key(k) ==> text::text_views(m.regions@).contains(k),
            forall|i: int, j: int|
                0 <= i < j < m.regions@.len() ==> text::text_below(
                    (#[trigger] m.regions@[i])@,
                    (#[trigger] m.regions@[j])@,
                ),
            m.has_records == (self.layer().len() > 0),
    {
        let regions = self.region_keys();
        HybridManifest { dim, seed, bits, regions, has_records: !self.records.is_empty() }
    }
}

/// A fetch is wide enough and no wider than of use: the first brings at least the hits wanted, and
/// no more than the region holds where that is enough; each further one brings more, until the
/// region has no more; and of what is to be ranked exactly neither the default nor the number
/// wanted is cut.
pub proof fn law_fetches_are_wide_enough(k: usize, held: usize, fetched: usize)
    ensures
        fetch_size(k as nat, held as nat) >= k,
        fetch_size(k as nat, held as nat) <= held || fetch_size(k as nat, held as nat) == k,
        held <= 3 * k + 8 && k <= held ==> fetch_size(k as nat, held as nat) == held,
        fetched < held ==> fetched < deeper_size(held as nat, fetched as nat) <= held,
        at_least(held, k) >= held && at_least(held, k) >= k,
        at_least(held, k) == held || at_least(held, k) == k,
{
}

/// The ids of hits are each listed once, in the order in which they first come.
pub proof fn law_distinct_keys_are_each_once(hits: Seq<HitView>)
    ensures
        distinct_keys(hits).no_duplicates(),
        forall|i: int| 0 <= i < hits.len() ==> distinct_keys(hits).contains((#[trigger] hits[i]).key),
        forall|j: int|
            0 <= j < distinct_keys(hits).len() ==> exists|i: int|
                0 <= i < hits.len() && (#[trigger] hits[i]).key == #[trigger] distinct_keys(hits)[j],
    decreases hits.len(),
{
    if hits.len() > 0 {
        let less = hits.drop_last();
        law_distinct_keys_are_each_once(less);
        let before = distinct_keys(less);
        let all = distinct_keys(hits);
        assert forall|i: int| 0 <= i < hits.len() implies all.contains((#[trigger] hits[i]).key) by {
            if i < less.len() {
                assert(less[i] == hits[i]);
                let j = choose|j: int| 0 <= j < before.len() && before[j] == hits[i].key;
                assert(all[j] == hits[i].key);
            } else if !before.contains(hits.last().key) {
                assert(all[before.len() as int] == hits[i].key);
            }
        }
        assert forall|j: int| 0 <= j < all.len() implies exists|i: int|
            0 <= i < hits.len() && (#[trigger] hits[i]).key == #[trigger] all[j] by {
            if j < before.len() {
                assert(all[j] == before[j]);
                let i = choose|i: int|
                    0 <= i < less.len() && (#[trigger] less[i]).key == before[j];
                assert(hits[i].key == all[j]);
            } else {
                assert(hits[hits.len() - 1].key == all[j]);
            }
        }
    }
}

/// A relation is refused just where the target or the source has no record, the generation is not
/// newer, the target is blank, or it is the source itself.
pub proof fn law_refused_relations(
    m: Map<Seq<char>, record::RecordView>,
    id: Seq<char>,
    kind: RelationKind,
    target: Seq<char>,
    generation: u64,
)
    ensures
        relate_fault(m, id, kind, target, generation) is None <==> m.contains_key(target)
            && m.contains_key(id) && generation > m[id].generation && !text::blank(target)
            && target != m[id].id,
{
}

} // verus!
