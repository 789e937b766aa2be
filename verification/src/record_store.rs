//! The record layer: a map from stable logical ids to records, with tombstones,
//! expiry, purge accounting and a versioned binary form.
//!
//! No lifecycle decision reads a wall clock: the time is always supplied.
use crate::error;
use crate::error::{ErrorKind, StoreError};
use crate::fileguard;
use crate::fileguard::{
    guard_count, guard_no_trailing_bytes, put_u32, put_u64, read_counted, read_u32_le,
    read_u64_le, CountingReader,
};
use crate::record;
use crate::record::{MemoryRecord, RecordError, RelationKind, Sensitivity};
use crate::record_codec as codec;
use crate::record_codec::{put_record, read_record, refuse, sensitivity_code};
use crate::text;
use crate::text::push_decimal;
use vstd::prelude::*;
use vstd::string::*;
use vstd::utf8::*;

verus! {

/// The least number of bytes that the format is held to take for a record.
pub const MIN_ENCODED_RECORD_BYTES: usize = 54;

/// The version of the format.
pub const VERSION: u32 = 1;

/// The four bytes that open an encoded store: `RECS`.
pub open spec fn magic() -> Seq<u8> {
    seq![82u8, 69, 67, 83]
}

/// The records stand in the order of their ids, and no id occurs twice.
pub open spec fn ordered(s: Seq<record::RecordView>) -> bool {
    forall|i: int, j: int| 0 <= i < j < s.len() ==> text::text_below(s[i].id, s[j].id)
}

/// The map from ids to records that a list of records makes.
pub open spec fn map_of(s: Seq<record::RecordView>) -> Map<Seq<char>, record::RecordView>
    decreases s.len(),
{
    if s.len() == 0 {
        Map::empty()
    } else {
        map_of(s.drop_last()).insert(s.last().id, s.last())
    }
}

proof fn lemma_below_irreflexive(a: Seq<char>, b: Seq<char>)
    ensures
        text::text_below(a, b) ==> a != b,
{
    text::law_text_order(a, b, b);
}

/// What the map of an ordered list holds.
pub proof fn lemma_map_of(s: Seq<record::RecordView>)
    requires
        ordered(s),
    ensures
        map_of(s).dom().finite(),
        map_of(s).len() == s.len(),
        forall|i: int|
            0 <= i < s.len() ==> map_of(s).contains_key((#[trigger] s[i]).id)
                && map_of(s)[s[i].id] == s[i],
        forall|k: Seq<char>| #[trigger]
            map_of(s).contains_key(k) ==> exists|i: int| 0 <= i < s.len() && s[i].id == k,
    decreases s.len(),
{
    if s.len() > 0 {
        let init = s.drop_last();
        let last = s.last();
        assert(ordered(init));
        lemma_map_of(init);
        if map_of(init).contains_key(last.id) {
            let i = choose|i: int| 0 <= i < init.len() && init[i].id == last.id;
            assert(text::text_below(s[i].id, s[s.len() - 1].id));
            lemma_below_irreflexive(s[i].id, last.id);
        }
        assert forall|i: int| 0 <= i < s.len() implies map_of(s).contains_key((#[trigger] s[i]).id)
            && map_of(s)[s[i].id] == s[i] by {
            if i < init.len() {
                assert(init[i] == s[i]);
                assert(text::text_below(s[i].id, s[s.len() - 1].id));
                lemma_below_irreflexive(s[i].id, last.id);
            }
        }
        assert forall|k: Seq<char>| #[trigger] map_of(s).contains_key(k) implies exists|i: int|
            0 <= i < s.len() && s[i].id == k by {
            if k == last.id {
                assert(s[s.len() - 1].id == k);
            } else {
                let i = choose|i: int| 0 <= i < init.len() && init[i].id == k;
                assert(s[i].id == k);
            }
        }
    }
}

/// An ordered list is determined by its map: a store has one encoding, whatever the
/// order in which its records came.
pub proof fn law_order_is_unique(a: Seq<record::RecordView>, b: Seq<record::RecordView>)
    requires
        ordered(a),
        ordered(b),
        map_of(a) == map_of(b),
    ensures
        a == b,
    decreases a.len(),
{
    lemma_map_of(a);
    lemma_map_of(b);
    if a.len() == 0 {
        assert(a =~= b);
    } else {
        let m = a.len() - 1;
        assert(map_of(a).contains_key(a[m].id));
        assert(map_of(b).contains_key(b[m].id));
        let j = choose|j: int| 0 <= j < b.len() && b[j].id == a[m].id;
        let i = choose|i: int| 0 <= i < a.len() && a[i].id == b[m].id;
        text::law_text_order(a[m].id, b[m].id, a[m].id);
        if a[m].id != b[m].id {
            assert(text::text_below(b[j].id, b[m].id));
            assert(text::text_below(a[i].id, a[m].id));
        }
        assert(a[m] == b[m]);
        let x = a.drop_last();
        let y = b.drop_last();
        lemma_map_of(x);
        lemma_map_of(y);
        lemma_drop_last_map(a);
        lemma_drop_last_map(b);
        law_order_is_unique(x, y);
        assert(a =~= x.push(a[m]));
        assert(b =~= y.push(b[m]));
    }
}

proof fn lemma_drop_last_map(s: Seq<record::RecordView>)
    requires
        ordered(s),
        s.len() > 0,
    ensures
        map_of(s.drop_last()) == map_of(s).remove(s.last().id),
{
    let init = s.drop_last();
    lemma_map_of(init);
    if map_of(init).contains_key(s.last().id) {
        let i = choose|i: int| 0 <= i < init.len() && init[i].id == s.last().id;
        assert(text::text_below(s[i].id, s[s.len() - 1].id));
        lemma_below_irreflexive(s[i].id, s.last().id);
    }
    assert(map_of(init) =~= map_of(s).remove(s.last().id));
}

/// Two ordered lists with the same members have maps that differ as their members
/// do.
proof fn lemma_map_insert(s: Seq<record::RecordView>, i: int, r: record::RecordView)
    requires
        ordered(s),
        0 <= i <= s.len(),
        ordered(s.insert(i, r)),
    ensures
        map_of(s.insert(i, r)) == map_of(s).insert(r.id, r),
{
    let t = s.insert(i, r);
    lemma_map_of(s);
    lemma_map_of(t);
    assert(t[i] == r);
    assert forall|k: Seq<char>| map_of(t).contains_key(k) == map_of(s).insert(
        r.id,
        r,
    ).contains_key(k) by {
        if map_of(t).contains_key(k) {
            let j = choose|j: int| 0 <= j < t.len() && t[j].id == k;
            if j < i {
                assert(s[j] == t[j]);
            } else if j > i {
                assert(s[j - 1] == t[j]);
            }
        }
        if map_of(s).contains_key(k) {
            let j = choose|j: int| 0 <= j < s.len() && s[j].id == k;
            if j < i {
                assert(s[j] == t[j]);
            } else {
                assert(s[j] == t[j + 1]);
            }
        }
    }
    assert forall|k: Seq<char>| map_of(t).contains_key(k) implies map_of(t)[k] == map_of(s).insert(
        r.id,
        r,
    )[k] by {
        let j = choose|j: int| 0 <= j < t.len() && t[j].id == k;
        if j < i {
            assert(s[j] == t[j]);
        } else if j > i {
            assert(s[j - 1] == t[j]);
        }
        if j != i {
            if j < i {
                assert(text::text_below(t[j].id, t[i].id));
            } else {
                assert(text::text_below(t[i].id, t[j].id));
            }
            text::law_text_order(k, r.id, k);
        }
    }
    assert(map_of(t) =~= map_of(s).insert(r.id, r));
}

proof fn lemma_map_update(s: Seq<record::RecordView>, i: int, r: record::RecordView)
    requires
        ordered(s),
        0 <= i < s.len(),
        s[i].id == r.id,
    ensures
        ordered(s.update(i, r)),
        map_of(s.update(i, r)) == map_of(s).insert(r.id, r),
{
    let t = s.update(i, r);
    assert forall|a: int, b: int| 0 <= a < b < t.len() implies text::text_below(t[a].id, t[b].id) by {
        assert(t[a].id == s[a].id && t[b].id == s[b].id);
    }
    lemma_map_of(s);
    lemma_map_of(t);
    assert forall|k: Seq<char>| map_of(t).contains_key(k) == map_of(s).insert(
        r.id,
        r,
    ).contains_key(k) by {
        if map_of(t).contains_key(k) {
            let j = choose|j: int| 0 <= j < t.len() && t[j].id == k;
            assert(s[j].id == k);
        }
        if map_of(s).contains_key(k) {
            let j = choose|j: int| 0 <= j < s.len() && s[j].id == k;
            assert(t[j].id == k);
        }
        assert(t[i].id == r.id);
    }
    assert forall|k: Seq<char>| map_of(t).contains_key(k) implies map_of(t)[k] == map_of(s).insert(
        r.id,
        r,
    )[k] by {
        let j = choose|j: int| 0 <= j < t.len() && t[j].id == k;
        assert(s[j].id == k);
        assert(map_of(t)[t[j].id] == t[j]);
        if k == r.id {
            if j < i {
                assert(text::text_below(s[j].id, s[i].id));
            } else if j > i {
                assert(text::text_below(s[i].id, s[j].id));
            }
            text::law_text_order(k, k, k);
        } else {
            assert(j != i);
            assert(map_of(s)[s[j].id] == s[j]);
        }
    }
    assert(map_of(t) =~= map_of(s).insert(r.id, r));
}

/// What putting a record makes of a map: a newer generation is wanted where the id
/// is known.
pub open spec fn put_outcome(
    m: Map<Seq<char>, record::RecordView>,
    r: record::RecordView,
) -> Result<Map<Seq<char>, record::RecordView>, RecordError> {
    if m.contains_key(r.id) && r.generation <= m[r.id].generation {
        Err(record::stale(m[r.id].generation, r.generation))
    } else {
        Ok(m.insert(r.id, r))
    }
}

/// The recall predicate of the record layer: lifecycle, optional tenant, workspace
/// and agent, and a clearance.
#[derive(Debug)]
pub struct RecordFilter {
    pub now_unix_ms: u64,
    /// Whether what the lifecycle hides at that time is hidden.
    pub lifecycle: bool,
    pub tenant: Option<String>,
    pub workspace: Option<String>,
    pub agent: Option<String>,
    /// Records classified above this are hidden.
    pub clearance: Sensitivity,
}

/// The value of a [`RecordFilter`] in specifications.
#[verifier::ext_equal]
pub struct FilterView {
    pub now_unix_ms: u64,
    pub lifecycle: bool,
    pub tenant: Option<Seq<char>>,
    pub workspace: Option<Seq<char>>,
    pub agent: Option<Seq<char>>,
    pub clearance: Sensitivity,
}

impl View for RecordFilter {
    type V = FilterView;

    open spec fn view(&self) -> FilterView {
        FilterView {
            now_unix_ms: self.now_unix_ms,
            lifecycle: self.lifecycle,
            tenant: record::optional_text(self.tenant),
            workspace: record::optional_text(self.workspace),
            agent: record::optional_text(self.agent),
            clearance: self.clearance,
        }
    }
}

impl Clone for RecordFilter {
    fn clone(&self) -> (r: RecordFilter)
        ensures
            r@ == self@,
    {
        RecordFilter {
            now_unix_ms: self.now_unix_ms,
            lifecycle: self.lifecycle,
            tenant: record::clone_text(&self.tenant),
            workspace: record::clone_text(&self.workspace),
            agent: record::clone_text(&self.agent),
            clearance: self.clearance,
        }
    }
}

impl Default for RecordFilter {
    fn default() -> (f: RecordFilter)
        ensures
            f@ == lifecycle_filter(0),
    {
        RecordFilter {
            now_unix_ms: 0,
            lifecycle: true,
            tenant: None,
            workspace: None,
            agent: None,
            clearance: Sensitivity::Restricted,
        }
    }
}

/// The filter with a time, no scope and full clearance.
pub open spec fn lifecycle_filter(now_unix_ms: u64) -> FilterView {
    FilterView {
        now_unix_ms,
        lifecycle: true,
        tenant: None,
        workspace: None,
        agent: None,
        clearance: Sensitivity::Restricted,
    }
}

/// A label satisfies a wish: there is none, or it is that label.
pub open spec fn wanted(wish: Option<Seq<char>>, label: Seq<char>) -> bool {
    wish matches Some(w) ==> w == label
}

impl FilterView {
    /// The scope satisfies every wish.
    pub open spec fn scope_admitted(
        self,
        tenant: Seq<char>,
        workspace: Seq<char>,
        agent: Seq<char>,
    ) -> bool {
        wanted(self.tenant, tenant) && wanted(self.workspace, workspace) && wanted(
            self.agent,
            agent,
        )
    }

    /// The record may be shown: visible where the lifecycle counts, in scope and within the
    /// clearance.
    pub open spec fn record_admitted(self, r: record::RecordView) -> bool {
        &&& self.lifecycle ==> r.visible(self.now_unix_ms)
        &&& self.scope_admitted(r.scope.tenant, r.scope.workspace, r.scope.agent)
        &&& r.sensitivity.level() <= self.clearance.level()
    }
}

/// The id may be shown: it has no record, or its record is admitted.
pub open spec fn admitted(
    m: Map<Seq<char>, record::RecordView>,
    id: Seq<char>,
    f: FilterView,
) -> bool {
    m.contains_key(id) ==> f.record_admitted(m[id])
}

fn satisfies(wish: &Option<String>, label: &str) -> (r: bool)
    ensures
        r == wanted(record::optional_text(*wish), label@),
{
    match wish {
        Some(w) => text::text_equal(w, label),
        None => true,
    }
}

impl RecordFilter {
    /// A filter with a time, no scope and full clearance.
    pub fn at(now_unix_ms: u64) -> (f: RecordFilter)
        ensures
            f@ == lifecycle_filter(now_unix_ms),
    {
        RecordFilter {
            now_unix_ms,
            lifecycle: true,
            tenant: None,
            workspace: None,
            agent: None,
            clearance: Sensitivity::Restricted,
        }
    }

    /// Whether the scope satisfies every wish.
    pub fn admits_scope(&self, tenant: &str, workspace: &str, agent: &str) -> (r: bool)
        ensures
            r == self@.scope_admitted(tenant@, workspace@, agent@),
    {
        satisfies(&self.tenant, tenant) && satisfies(&self.workspace, workspace) && satisfies(
            &self.agent,
            agent,
        )
    }

    /// Whether the record may be shown.
    pub fn admits_record(&self, r: &MemoryRecord) -> (b: bool)
        ensures
            b == self@.record_admitted(r@),
    {
        (!self.lifecycle || r.visible_at(self.now_unix_ms)) && self.admits_scope(
            r.scope.tenant(),
            r.scope.workspace(),
            r.scope.agent(),
        ) && sensitivity_code(r.sensitivity) <= sensitivity_code(self.clearance)
    }
}

/// The relations of `id` whose source and target a filter admits, in the order of
/// the record.
pub open spec fn related(
    m: Map<Seq<char>, record::RecordView>,
    id: Seq<char>,
    f: FilterView,
) -> Seq<record::RelationView> {
    if m.contains_key(id) && admitted(m, id, f) {
        m[id].relations.filter(|r: record::RelationView| admitted(m, r.target, f))
    } else {
        Seq::empty()
    }
}

/// The values of a list of kinds and targets.
pub open spec fn edge_views(s: Seq<(RelationKind, String)>) -> Seq<record::RelationView> {
    s.map_values(|e: (RelationKind, String)| record::RelationView { kind: e.0, target: e.1@ })
}

/// The values of a list of records.
pub open spec fn record_views(s: Seq<MemoryRecord>) -> Seq<record::RecordView> {
    s.map_values(|r: MemoryRecord| r@)
}

/// The texts of a list of strings.
pub open spec fn texts(s: Seq<String>) -> Seq<Seq<char>> {
    s.map_values(|t: String| t@)
}

/// Records by id.
#[derive(Debug)]
pub struct RecordStore {
    records: Vec<MemoryRecord>,
}

impl View for RecordStore {
    type V = Map<Seq<char>, record::RecordView>;

    open spec fn view(&self) -> Map<Seq<char>, record::RecordView> {
        map_of(self.sequence())
    }
}

impl Clone for RecordStore {
    fn clone(&self) -> (r: RecordStore)
        ensures
            r.sequence() == self.sequence(),
    {
        proof {
            use_type_invariant(&*self);
        }
        let records = self.records.clone();
        assert(record_views(records@) =~= record_views(self.records@));
        RecordStore { records }
    }
}

impl Default for RecordStore {
    fn default() -> (s: RecordStore)
        ensures
            s@ == Map::<Seq<char>, record::RecordView>::empty(),
    {
        RecordStore::new()
    }
}

impl RecordStore {
    /// The records in the order of their ids.
    pub closed spec fn sequence(&self) -> Seq<record::RecordView> {
        record_views(self.records@)
    }

    #[verifier::type_invariant]
    spec fn well_formed(self) -> bool {
        &&& ordered(record_views(self.records@))
        &&& forall|i: int|
            0 <= i < self.records@.len() ==> (#[trigger] record_views(self.records@)[i]).valid()
    }

    /// An empty store.
    pub fn new() -> (s: RecordStore)
        ensures
            s@ == Map::<Seq<char>, record::RecordView>::empty(),
            s.sequence().len() == 0,
    {
        let s = RecordStore { records: Vec::new() };
        assert(s.sequence() =~= Seq::empty());
        s
    }

    /// The number of records, those that are hidden included.
    pub fn len(&self) -> (n: usize)
        ensures
            n == self@.len(),
            self@.dom().finite(),
    {
        proof {
            use_type_invariant(&*self);
            lemma_map_of(self.sequence());
        }
        self.records.len()
    }

    /// Whether there is no record.
    pub fn is_empty(&self) -> (r: bool)
        ensures
            r == (self@.len() == 0),
            r == (self@ == Map::<Seq<char>, record::RecordView>::empty()),
    {
        proof {
            use_type_invariant(&*self);
            lemma_map_of(self.sequence());
            if self.records@.len() > 0 {
                assert(self@.contains_key(self.sequence()[0].id));
            }
        }
        self.records.is_empty()
    }

    /// The place of `id`, or the place where it belongs.
    fn locate(&self, id: &str) -> (r: (bool, usize))
        ensures
            r.0 ==> {
                &&& r.1 < self.sequence().len()
                &&& self.sequence()[r.1 as int].id == id@
                &&& self@.contains_key(id@)
                &&& self@[id@] == self.sequence()[r.1 as int]
            },
            !r.0 ==> {
                &&& r.1 <= self.sequence().len()
                &&& !self@.contains_key(id@)
                &&& forall|j: int| 0 <= j < r.1 ==> text::text_below(self.sequence()[j].id, id@)
                &&& forall|j: int|
                    r.1 <= j < self.sequence().len() ==> text::text_below(
                        id@,
                        self.sequence()[j].id,
                    )
            },
    {
        proof {
            use_type_invariant(&*self);
            lemma_map_of(self.sequence());
        }
        let ghost s = self.sequence();
        let mut low: usize = 0;
        let mut high: usize = self.records.len();
        while low < high
            invariant
                low <= high <= self.records@.len(),
                s == self.sequence(),
                ordered(s),
                self@ == map_of(s),
                forall|i: int|
                    0 <= i < s.len() ==> map_of(s).contains_key((#[trigger] s[i]).id) && map_of(
                        s,
                    )[s[i].id] == s[i],
                forall|j: int| 0 <= j < low ==> text::text_below(s[j].id, id@),
                forall|j: int| high <= j < s.len() ==> text::text_below(id@, s[j].id),
            decreases high - low,
        {
            let mid: usize = low + (high - low) / 2;
            let here = self.records[mid].id.as_str();
            assert(here@ == s[mid as int].id);
            if text::text_before(here, id) {
                proof {
                    assert forall|j: int| 0 <= j <= mid implies text::text_below(s[j].id, id@) by {
                        if j < mid {
                            text::law_text_order(s[j].id, s[mid as int].id, id@);
                        }
                    }
                }
                low = mid + 1;
            } else if text::text_before(id, here) {
                proof {
                    assert forall|j: int| mid <= j < s.len() implies text::text_below(
                        id@,
                        s[j].id,
                    ) by {
                        if j > mid {
                            text::law_text_order(id@, s[mid as int].id, s[j].id);
                        }
                    }
                }
                high = mid;
            } else {
                proof {
                    text::law_text_order(s[mid as int].id, id@, id@);
                }
                return (true, mid);
            }
        }
        proof {
            if self@.contains_key(id@) {
                let j = choose|j: int| 0 <= j < s.len() && s[j].id == id@;
                text::law_text_order(id@, id@, id@);
                assert(text::text_below(s[j].id, id@) || text::text_below(id@, s[j].id));
            }
        }
        (false, low)
    }

    /// The record of `id`.
    pub fn get(&self, id: &str) -> (r: Option<&MemoryRecord>)
        ensures
            match r {
                Some(x) => self@.contains_key(id@) && x@ == self@[id@],
                None => !self@.contains_key(id@),
            },
    {
        let (found, i) = self.locate(id);
        if found {
            Some(&self.records[i])
        } else {
            None
        }
    }

    /// Whether recall may show `id` at `now_unix_ms`. An id without a record is
    /// visible.
    pub fn is_visible_at(&self, id: &str, now_unix_ms: u64) -> (r: bool)
        ensures
            r == (self@.contains_key(id@) ==> self@[id@].visible(now_unix_ms)),
    {
        match self.get(id) {
            Some(x) => x.visible_at(now_unix_ms),
            None => true,
        }
    }

    /// Whether recall under `filter` may show `id`. An id without a record passes.
    pub fn admits(&self, id: &str, filter: &RecordFilter) -> (r: bool)
        ensures
            r == admitted(self@, id@, filter@),
    {
        match self.get(id) {
            Some(x) => filter.admits_record(x),
            None => true,
        }
    }

    /// Inserts a record, or replaces the one with its id at a strictly newer
    /// generation. Gives back the record that was replaced.
    pub fn put(&mut self, record: MemoryRecord) -> (r: Result<Option<MemoryRecord>, RecordError>)
        ensures
            match r {
                Ok(previous) => {
                    &&& put_outcome(old(self)@, record@) == Ok::<_, RecordError>(final(self)@)
                    &&& match previous {
                        Some(p) => old(self)@.contains_key(record@.id) && p@
                            == old(self)@[record@.id],
                        None => !old(self)@.contains_key(record@.id),
                    }
                },
                Err(e) => {
                    &&& put_outcome(old(self)@, record@) == Err::<
                        Map<Seq<char>, record::RecordView>,
                        _,
                    >(e)
                    &&& final(self)@ == old(self)@
                },
            },
    {
        proof {
            use_type_invariant(&*self);
        }
        record.gather_validity();
        let (found, i) = self.locate(record.id.as_str());
        let ghost s = self.sequence();
        let ghost v = record@;
        if found {
            let current: u64 = self.records[i].generation;
            if record.generation <= current {
                return Err(
                    RecordError::NonMonotonicGeneration { current, proposed: record.generation },
                );
            }
            let mut records: Vec<MemoryRecord> = Vec::new();
            std::mem::swap(&mut records, &mut self.records);
            records.push(record);
            let previous = records.swap_remove(i);
            proof {
                lemma_map_update(s, i as int, v);
                assert(record_views(records@) =~= s.update(i as int, v));
            }
            self.records = records;
            Ok(Some(previous))
        } else {
            let mut records: Vec<MemoryRecord> = Vec::new();
            std::mem::swap(&mut records, &mut self.records);
            records.insert(i, record);
            proof {
                assert(record_views(records@) =~= s.insert(i as int, v));
                let t = s.insert(i as int, v);
                assert forall|a: int, b: int| 0 <= a < b < t.len() implies text::text_below(
                    t[a].id,
                    t[b].id,
                ) by {
                    if a < i && b > i {
                        assert(text::text_below(s[a].id, s[b - 1].id));
                    } else if b < i {
                        assert(text::text_below(s[a].id, s[b].id));
                    } else if a > i {
                        assert(text::text_below(s[a - 1].id, s[b - 1].id));
                    }
                }
                lemma_map_insert(s, i as int, v);
                assert forall|j: int| 0 <= j < t.len() implies (#[trigger] t[j]).valid() by {
                    if j < i {
                        assert(t[j] == s[j]);
                    } else if j > i {
                        assert(t[j] == s[j - 1]);
                    }
                }
            }
            self.records = records;
            Ok(None)
        }
    }

    /// Marks `id` deleted at a strictly newer generation. An unknown id is refused.
    pub fn tombstone(&mut self, id: &str, generation: u64) -> (r: Result<(), RecordError>)
        ensures
            match r {
                Ok(_) => {
                    &&& old(self)@.contains_key(id@)
                    &&& generation > old(self)@[id@].generation
                    &&& final(self)@ == old(self)@.insert(
                        id@,
                        record::tombstoned(old(self)@[id@], generation),
                    )
                },
                Err(e) => {
                    &&& final(self)@ == old(self)@
                    &&& if old(self)@.contains_key(id@) {
                        generation <= old(self)@[id@].generation && e == record::stale(
                            old(self)@[id@].generation,
                            generation,
                        )
                    } else {
                        e matches RecordError::UnknownMemoryId(name) && name@ == id@
                    }
                },
            },
    {
        proof {
            use_type_invariant(&*self);
        }
        let (found, i) = self.locate(id);
        if !found {
            return Err(RecordError::UnknownMemoryId(id.to_owned()));
        }
        let ghost s = self.sequence();
        let mut records: Vec<MemoryRecord> = Vec::new();
        std::mem::swap(&mut records, &mut self.records);
        let r = records[i].tombstone(generation);
        proof {
            let v = records@[i as int]@;
            lemma_map_update(s, i as int, v);
            assert(record_views(records@) =~= s.update(i as int, v));
            if r is Err {
                assert(s.update(i as int, v) =~= s);
            }
        }
        self.records = records;
        r
    }

    /// The ids whose records may be purged at `now_unix_ms`, in order.
    pub fn purgeable_ids_at(&self, now_unix_ms: u64) -> (ids: Vec<String>)
        ensures
            forall|k: Seq<char>| #[trigger]
                texts(ids@).contains(k) <==> self@.contains_key(k) && self@[k].purgeable(
                    now_unix_ms,
                ),
            forall|i: int, j: int|
                0 <= i < j < ids@.len() ==> text::text_below(#[trigger] ids@[i]@, #[trigger] ids@[j]@),
            texts(ids@) == purgeable_records(self.sequence(), now_unix_ms).map_values(
                |r: record::RecordView| r.id,
            ),
    {
        proof {
            use_type_invariant(&*self);
        }
        let ghost s = self.sequence();
        let mut ids: Vec<String> = Vec::new();
        let mut i: usize = 0;
        let ghost name = |r: record::RecordView| r.id;
        assert(s.take(0) =~= Seq::empty());
        assert(texts(ids@) =~= purgeable_records(s.take(0), now_unix_ms).map_values(name)) by {
            reveal(Seq::filter);
        }
        while i < self.records.len()
            invariant
                i <= self.records@.len(),
                s == self.sequence(),
                name == (|r: record::RecordView| r.id),
                texts(ids@) == purgeable_records(s.take(i as int), now_unix_ms).map_values(name),
            decreases self.records@.len() - i,
        {
            proof {
                reveal(Seq::filter);
                assert(s.take(i + 1).drop_last() =~= s.take(i as int));
                assert(s.take(i + 1).last() == s[i as int]);
            }
            let ghost before = purgeable_records(s.take(i as int), now_unix_ms);
            if self.records[i].purgeable_at(now_unix_ms) {
                let id = self.records[i].id.as_str().to_owned();
                proof {
                    assert(texts(ids@.push(id)) =~= texts(ids@).push(id@));
                    assert(before.push(s[i as int]).map_values(name) =~= before.map_values(
                        name,
                    ).push(s[i as int].id));
                }
                ids.push(id);
            }
            i += 1;
        }
        proof {
            assert(s.take(i as int) =~= s);
            lemma_purgeable_ids(s, now_unix_ms);
            let found = purgeable_records(s, now_unix_ms);
            assert forall|k: Seq<char>| #[trigger] texts(ids@).contains(k) <==> self@.contains_key(k)
                && self@[k].purgeable(now_unix_ms) by {
                if texts(ids@).contains(k) {
                    let j = choose|j: int| 0 <= j < texts(ids@).len() && texts(ids@)[j] == k;
                    assert(found[j].id == k);
                }
                if self@.contains_key(k) && self@[k].purgeable(now_unix_ms) {
                    let j = choose|j: int| 0 <= j < found.len() && found[j].id == k;
                    assert(texts(ids@)[j] == k);
                }
            }
            assert forall|a: int, b: int| 0 <= a < b < ids@.len() implies text::text_below(
                #[trigger] ids@[a]@,
                #[trigger] ids@[b]@,
            ) by {
                assert(texts(ids@)[a] == found[a].id && texts(ids@)[b] == found[b].id);
            }
        }
        ids
    }

    /// Removes every record that may be purged at `now_unix_ms` and says how many.
    pub fn purge_purgeable_at(&mut self, now_unix_ms: u64) -> (removed: usize)
        ensures
            forall|k: Seq<char>| #[trigger]
                final(self)@.contains_key(k) <==> old(self)@.contains_key(k)
                    && !old(self)@[k].purgeable(now_unix_ms),
            forall|k: Seq<char>| #[trigger]
                final(self)@.contains_key(k) ==> final(self)@[k] == old(self)@[k],
            removed == old(self)@.len() - final(self)@.len(),
            removed == purgeable_records(old(self).sequence(), now_unix_ms).len(),
    {
        proof {
            use_type_invariant(&*self);
        }
        let ghost s = self.sequence();
        let mut left: Vec<MemoryRecord> = Vec::new();
        std::mem::swap(&mut left, &mut self.records);
        let mut kept: Vec<MemoryRecord> = Vec::new();
        let mut removed: usize = 0;
        proof {
            reveal(Seq::filter);
            assert(s.skip(0) =~= s);
            assert(s.take(0) =~= Seq::empty());
            assert(record_views(kept@) =~= Seq::empty());
            assert(record_views(left@) =~= s);
        }
        let n: usize = left.len();
        for r in it: left
            invariant
                record_views(it.seq()) == s,
                record_views(kept@) == kept_records(s.take(it.index()), now_unix_ms),
                removed == purgeable_records(s.take(it.index()), now_unix_ms).len(),
                kept@.len() + removed == it.index(),
                it.seq().len() == n,
        {
            let ghost i = it.index();
            proof {
                reveal(Seq::filter);
                assert(s.take(i + 1).drop_last() =~= s.take(i));
                assert(s.take(i + 1).last() == s[i]);
                assert(r@ == s[i]);
            }
            if r.purgeable_at(now_unix_ms) {
                removed += 1;
            } else {
                proof {
                    assert(record_views(kept@.push(r)) =~= record_views(kept@).push(r@));
                }
                kept.push(r);
            }
        }
        proof {
            assert(s.take(s.len() as int) =~= s);
            lemma_kept_records(s, now_unix_ms);
        }
        self.records = kept;
        removed
    }

    /// The relations of `id` that recall under `filter` may follow, in the order of
    /// the record.
    pub fn related_ids(&self, id: &str, filter: &RecordFilter) -> (edges: Vec<
        (RelationKind, String),
    >)
        ensures
            edge_views(edges@) == related(self@, id@, filter@),
    {
        let mut edges: Vec<(RelationKind, String)> = Vec::new();
        assert(edge_views(edges@) =~= Seq::empty());
        let source = match self.get(id) {
            Some(x) => x,
            None => return edges,
        };
        if !filter.admits_record(source) {
            return edges;
        }
        let ghost all = source@.relations;
        let ghost keep = |r: record::RelationView| admitted(self@, r.target, filter@);
        let mut i: usize = 0;
        proof {
            reveal(Seq::filter);
            assert(all.take(0) =~= Seq::empty());
        }
        while i < source.relations.len()
            invariant
                i <= source.relations@.len(),
                all == record::relation_views(source.relations@),
                keep == (|r: record::RelationView| admitted(self@, r.target, filter@)),
                edge_views(edges@) == all.take(i as int).filter(keep),
            decreases source.relations@.len() - i,
        {
            proof {
                reveal(Seq::filter);
                assert(all.take(i + 1).drop_last() =~= all.take(i as int));
                assert(all.take(i + 1).last() == all[i as int]);
            }
            let relation = &source.relations[i];
            if self.admits(relation.target.as_str(), filter) {
                let edge = (relation.kind, relation.target.as_str().to_owned());
                proof {
                    assert(edge_views(edges@.push(edge)) =~= edge_views(edges@).push(relation@));
                }
                edges.push(edge);
            }
            i += 1;
        }
        assert(all.take(i as int) =~= all);
        edges
    }
}

/// The records of a list that may be purged.
pub open spec fn purgeable_records(s: Seq<record::RecordView>, now_unix_ms: u64) -> Seq<
    record::RecordView,
> {
    s.filter(|r: record::RecordView| r.purgeable(now_unix_ms))
}

/// The records of a list that may not be purged.
pub open spec fn kept_records(s: Seq<record::RecordView>, now_unix_ms: u64) -> Seq<
    record::RecordView,
> {
    s.filter(|r: record::RecordView| !r.purgeable(now_unix_ms))
}

proof fn lemma_filter_ordered(s: Seq<record::RecordView>, p: spec_fn(record::RecordView) -> bool)
    requires
        ordered(s),
    ensures
        ordered(s.filter(p)),
        forall|i: int|
            0 <= i < s.filter(p).len() ==> p(#[trigger] s.filter(p)[i]) && s.contains(
                s.filter(p)[i],
            ),
        forall|i: int| 0 <= i < s.len() && p(#[trigger] s[i]) ==> s.filter(p).contains(s[i]),
    decreases s.len(),
{
    reveal(Seq::filter);
    if s.len() > 0 {
        let init = s.drop_last();
        lemma_filter_ordered(init, p);
        let f = init.filter(p);
        let t = s.filter(p);
        assert forall|i: int| 0 <= i < t.len() implies p(#[trigger] t[i]) && s.contains(t[i]) by {
            if i < f.len() {
                assert(t[i] == f[i]);
                let j = choose|j: int| 0 <= j < init.len() && init[j] == f[i];
                assert(s[j] == t[i]);
            } else {
                assert(s[s.len() - 1] == t[i]);
            }
        }
        assert forall|i: int, j: int| 0 <= i < j < t.len() implies text::text_below(
            t[i].id,
            t[j].id,
        ) by {
            assert(t[i] == f[i]);
            if j < f.len() {
                assert(t[j] == f[j]);
            } else {
                let k = choose|k: int| 0 <= k < init.len() && init[k] == f[i];
                assert(text::text_below(s[k].id, s[s.len() - 1].id));
            }
        }
        assert forall|i: int| 0 <= i < s.len() && p(#[trigger] s[i]) implies t.contains(s[i]) by {
            if i < init.len() {
                assert(init[i] == s[i]);
                let j = choose|j: int| 0 <= j < f.len() && f[j] == s[i];
                assert(t[j] == s[i]);
            } else {
                assert(t[t.len() - 1] == s[i]);
            }
        }
    }
}

proof fn lemma_purgeable_ids(s: Seq<record::RecordView>, now_unix_ms: u64)
    requires
        ordered(s),
    ensures
        ordered(purgeable_records(s, now_unix_ms)),
        forall|i: int|
            0 <= i < purgeable_records(s, now_unix_ms).len() ==> {
                let r = #[trigger] purgeable_records(s, now_unix_ms)[i];
                map_of(s).contains_key(r.id) && map_of(s)[r.id] == r && r.purgeable(now_unix_ms)
            },
        forall|k: Seq<char>| #[trigger]
            map_of(s).contains_key(k) && map_of(s)[k].purgeable(now_unix_ms) ==> exists|j: int|
                0 <= j < purgeable_records(s, now_unix_ms).len() && purgeable_records(
                    s,
                    now_unix_ms,
                )[j].id == k,
{
    let p = |r: record::RecordView| r.purgeable(now_unix_ms);
    lemma_filter_ordered(s, p);
    lemma_map_of(s);
    let f = purgeable_records(s, now_unix_ms);
    assert forall|i: int| 0 <= i < f.len() implies {
        let r = #[trigger] f[i];
        map_of(s).contains_key(r.id) && map_of(s)[r.id] == r && r.purgeable(now_unix_ms)
    } by {
        let j = choose|j: int| 0 <= j < s.len() && s[j] == f[i];
        assert(p(f[i]));
        assert(map_of(s)[s[j].id] == s[j]);
    }
    assert forall|k: Seq<char>| #[trigger]
        map_of(s).contains_key(k) && map_of(s)[k].purgeable(now_unix_ms) implies exists|j: int|
        0 <= j < f.len() && f[j].id == k by {
        let i = choose|i: int| 0 <= i < s.len() && s[i].id == k;
        assert(map_of(s)[s[i].id] == s[i]);
        assert(p(s[i]));
        let j = choose|j: int| 0 <= j < f.len() && f[j] == s[i];
        assert(f[j].id == k);
    }
}

proof fn lemma_kept_records(s: Seq<record::RecordView>, now_unix_ms: u64)
    requires
        ordered(s),
        forall|i: int| 0 <= i < s.len() ==> (#[trigger] s[i]).valid(),
    ensures
        ordered(kept_records(s, now_unix_ms)),
        forall|i: int|
            0 <= i < kept_records(s, now_unix_ms).len() ==> (#[trigger] kept_records(
                s,
                now_unix_ms,
            )[i]).valid(),
        map_of(s).len() == s.len(),
        map_of(kept_records(s, now_unix_ms)).len() == kept_records(s, now_unix_ms).len(),
        forall|k: Seq<char>| #[trigger]
            map_of(kept_records(s, now_unix_ms)).contains_key(k) <==> map_of(s).contains_key(k)
                && !map_of(s)[k].purgeable(now_unix_ms),
        forall|k: Seq<char>| #[trigger]
            map_of(kept_records(s, now_unix_ms)).contains_key(k) ==> map_of(
                kept_records(s, now_unix_ms),
            )[k] == map_of(s)[k],
{
    let p = |r: record::RecordView| !r.purgeable(now_unix_ms);
    lemma_filter_ordered(s, p);
    lemma_map_of(s);
    let f = kept_records(s, now_unix_ms);
    lemma_map_of(f);
    assert forall|i: int| 0 <= i < f.len() implies (#[trigger] f[i]).valid() by {
        let j = choose|j: int| 0 <= j < s.len() && s[j] == f[i];
        assert(s[j].valid());
    }
    assert forall|k: Seq<char>| #[trigger] map_of(f).contains_key(k) implies map_of(s).contains_key(
        k,
    ) && !map_of(s)[k].purgeable(now_unix_ms) && map_of(f)[k] == map_of(s)[k] by {
        let i = choose|i: int| 0 <= i < f.len() && f[i].id == k;
        let j = choose|j: int| 0 <= j < s.len() && s[j] == f[i];
        assert(p(f[i]));
        assert(map_of(s)[s[j].id] == s[j]);
        assert(map_of(f)[f[i].id] == f[i]);
    }
    assert forall|k: Seq<char>|
        map_of(s).contains_key(k) && !map_of(s)[k].purgeable(
            now_unix_ms,
        ) implies #[trigger] map_of(f).contains_key(k) by {
        let i = choose|i: int| 0 <= i < s.len() && s[i].id == k;
        assert(map_of(s)[s[i].id] == s[i]);
        assert(p(s[i]));
        let j = choose|j: int| 0 <= j < f.len() && f[j] == s[i];
        assert(map_of(f).contains_key(f[j].id));
    }
}


/// The bytes of a store.
pub open spec fn store_bytes(s: Seq<record::RecordView>) -> Seq<u8> {
    magic() + fileguard::le_bytes(VERSION as nat, 4) + fileguard::le_bytes(
        (s.len() as u64) as nat,
        8,
    ) + fileguard::joined(s.map_values(|r: record::RecordView| codec::record_bytes(r)))
}

/// Reads `n` records into a map.
pub open spec fn get_records(
    n: nat,
    m: Map<Seq<char>, record::RecordView>,
    s: Seq<u8>,
) -> fileguard::Parsed<Map<Seq<char>, record::RecordView>>
    decreases n,
{
    if n == 0 {
        Ok((m, s))
    } else {
        match codec::get_record(s) {
            Err(e) => Err(e),
            Ok((r, s)) => match put_outcome(m, r) {
                Err(e) => Err(codec::refused(e)),
                Ok(m) => get_records((n - 1) as nat, m, s),
            },
        }
    }
}

/// What decoding bytes gives: the map of the store, or the first error on the way.
pub open spec fn decoded_store(bytes: Seq<u8>) -> Result<
    Map<Seq<char>, record::RecordView>,
    error::ErrorView,
> {
    if bytes.len() < 4 {
        Err(error::invalid_data(fileguard::count_message("RECS magic"@, 4, 1, bytes.len())))
    } else if bytes.take(4) != magic() {
        Err(error::invalid_data("not a RECS record store (bad magic)"@))
    } else {
        match fileguard::get_u32("RECS version"@, bytes.skip(4)) {
            Err(e) => Err(e),
            Ok((version, s)) => if version != VERSION {
                Err(
                    error::invalid_data(
                        "unsupported RECS version "@ + text::decimal(version as nat),
                    ),
                )
            } else {
                match fileguard::get_u64("RECS records"@, s) {
                    Err(e) => Err(e),
                    Ok((count, s)) => if (count as usize) * MIN_ENCODED_RECORD_BYTES > s.len() {
                        Err(
                            error::invalid_data(
                                fileguard::count_message(
                                    "RECS records"@,
                                    (count as usize) as nat,
                                    MIN_ENCODED_RECORD_BYTES as nat,
                                    s.len(),
                                ),
                            ),
                        )
                    } else {
                        match get_records(count as nat, Map::empty(), s) {
                            Err(e) => Err(e),
                            Ok((m, s)) => if s.len() > 0 {
                                Err(fileguard::trailing_error("RECS record store"@, s.len()))
                            } else {
                                Ok(m)
                            },
                        }
                    },
                }
            },
        }
    }
}

impl RecordStore {
    /// The store as bytes, in the order of the ids.
    pub fn encode(&self) -> (out: Vec<u8>)
        ensures
            ordered(self.sequence()),
            forall|i: int|
                0 <= i < self.sequence().len() ==> (#[trigger] self.sequence()[i]).valid(),
            out@ == store_bytes(self.sequence()),
    {
        proof {
            use_type_invariant(&*self);
        }
        let ghost s = self.sequence();
        let ghost parts = s.map_values(|r: record::RecordView| codec::record_bytes(r));
        let mut out: Vec<u8> = vec![82, 69, 67, 83];
        assert(out@ =~= magic());
        put_u32(&mut out, VERSION);
        put_u64(&mut out, self.records.len() as u64);
        let ghost head = out@;
        let mut i: usize = 0;
        assert(parts.take(0) =~= Seq::<Seq<u8>>::empty());
        assert(out@ =~= head + fileguard::joined(parts.take(0)));
        while i < self.records.len()
            invariant
                i <= self.records@.len(),
                s == self.sequence(),
                parts == s.map_values(|r: record::RecordView| codec::record_bytes(r)),
                out@ == head + fileguard::joined(parts.take(i as int)),
            decreases self.records@.len() - i,
        {
            put_record(&mut out, &self.records[i]);
            proof {
                fileguard::lemma_joined_push(parts.take(i as int), parts[i as int]);
                assert(parts.take(i + 1) =~= parts.take(i as int).push(parts[i as int]));
                fileguard::lemma_regroup2(
                    head,
                    fileguard::joined(parts.take(i as int)),
                    parts[i as int],
                );
            }
            i += 1;
        }
        assert(parts.take(i as int) =~= parts);
        out
    }

    /// Reads a store from bytes. Every count is held against the bytes that are left
    /// before it is followed.
    pub fn decode(bytes: &[u8]) -> (r: Result<RecordStore, StoreError>)
        ensures
            match r {
                Ok(store) => decoded_store(bytes@) == Ok::<_, error::ErrorView>(store@),
                Err(e) => decoded_store(bytes@) == Err::<Map<Seq<char>, record::RecordView>, _>(
                    e@,
                ),
            },
    {
        let mut r = CountingReader::new(bytes);
        let head = read_counted("RECS magic", 4, &mut r)?;
        assert(magic() =~= seq![82u8, 69, 67, 83]);
        if head[0] != 82 || head[1] != 69 || head[2] != 67 || head[3] != 83 {
            return Err(StoreError::invalid("not a RECS record store (bad magic)"));
        }
        assert(head@ =~= magic());
        let version: u32 = read_u32_le("RECS version", &mut r)?;
        if version != VERSION {
            let mut m = "unsupported RECS version ".to_owned();
            push_decimal(&mut m, version as u128);
            return Err(StoreError::new(ErrorKind::InvalidData, m));
        }
        let count: u64 = read_u64_le("RECS records", &mut r)?;
        guard_count(
            "RECS records",
            count as usize,
            MIN_ENCODED_RECORD_BYTES,
            r.remaining() as u64,
        )?;
        let ghost start = r.rest();
        let mut store = RecordStore::new();
        let mut i: u64 = 0;
        while i < count
            invariant
                i <= count,
                get_records(count as nat, Map::empty(), start) == get_records(
                    (count - i) as nat,
                    store@,
                    r.rest(),
                ),
                decoded_store(bytes@) == (match get_records(count as nat, Map::empty(), start) {
                    Err(e) => Err(e),
                    Ok((m, s)) => if s.len() > 0 {
                        Err(fileguard::trailing_error("RECS record store"@, s.len()))
                    } else {
                        Ok(m)
                    },
                }),
            decreases count - i,
        {
            let item = read_record(&mut r)?;
            match store.put(item) {
                Ok(_) => {},
                Err(e) => return Err(refuse(e)),
            }
            i += 1;
        }
        guard_no_trailing_bytes("RECS record store", r.remaining())?;
        Ok(store)
    }
}

proof fn lemma_flagged_len(v: Option<u64>, t: Option<Seq<char>>)
    ensures
        codec::flagged_u64(v).len() >= 1,
        codec::flagged_text(t).len() >= 1,
{
}

proof fn lemma_record_len(r: record::RecordView)
    ensures
        codec::record_bytes(r).len() >= MIN_ENCODED_RECORD_BYTES,
{
    codec::lemma_lp_len(encode_utf8(r.id));
    codec::lemma_lp_len(r.payload);
    codec::lemma_lp_len(encode_utf8(r.scope.tenant));
    codec::lemma_lp_len(encode_utf8(r.scope.workspace));
    codec::lemma_lp_len(encode_utf8(r.scope.agent));
    assert(codec::head_bytes(codec::head_of(r)).len() >= 20);
    fileguard::lemma_le_bytes_len((r.provenance.len() as u32) as nat, 4);
    fileguard::lemma_le_bytes_len(r.generation as nat, 8);
    assert(codec::life_bytes(codec::life_of(r)).len() >= 14) by {
        lemma_flagged_len(r.created_at_unix_ms, r.causal_region);
        lemma_flagged_len(r.retention.expires_at_unix_ms, r.causal_region);
        lemma_flagged_len(r.retention.retain_until_unix_ms, r.causal_region);
        assert(codec::status_bytes(r.status).len() >= 1);
    }
    codec::lemma_lp_len(encode_utf8(r.embedding.provider));
    codec::lemma_lp_len(encode_utf8(r.embedding.model));
    fileguard::lemma_le_bytes_len(r.embedding.dimension as nat, 8);
    assert(codec::fingerprint_bytes(r.embedding).len() >= 19) by {
        lemma_flagged_len(None, r.embedding.revision);
        lemma_flagged_len(None, r.embedding.projection);
        lemma_flagged_len(None, r.embedding.quantization);
    }
}

#[verifier::spinoff_prover]
#[verifier::rlimit(60)]
proof fn lemma_get_records(s: Seq<record::RecordView>, i: nat, rest: Seq<u8>)
    requires
        ordered(s),
        i <= s.len(),
        forall|j: int| 0 <= j < s.len() ==> (#[trigger] s[j]).valid() && codec::record_fits(s[j]),
    ensures
        get_records(
            (s.len() - i) as nat,
            map_of(s.take(i as int)),
            fileguard::joined(
                s.map_values(|r: record::RecordView| codec::record_bytes(r)).skip(i as int),
            ) + rest,
        ) == Ok::<_, error::ErrorView>((map_of(s), rest)),
    decreases s.len() - i,
{
    let parts = s.map_values(|r: record::RecordView| codec::record_bytes(r));
    if i == s.len() {
        assert(s.take(i as int) =~= s);
        assert(parts.skip(i as int) =~= Seq::<Seq<u8>>::empty());
        assert(fileguard::joined(parts.skip(i as int)) + rest =~= rest);
    } else {
        let r = s[i as int];
        let tail = fileguard::joined(parts.skip((i + 1) as int)) + rest;
        assert(fileguard::joined(parts.skip(i as int)) + rest =~= codec::record_bytes(r) + tail) by {
            assert(parts.skip(i as int).drop_first() =~= parts.skip((i + 1) as int));
            assert(parts.skip(i as int)[0] == codec::record_bytes(r));
        }
        assert(parts.skip(i as int).drop_first() =~= parts.skip((i + 1) as int));
        assert(parts.skip(i as int)[0] == codec::record_bytes(r));
        codec::law_record_round_trip(r, tail);
        let done = s.take(i as int);
        assert(ordered(done));
        lemma_map_of(done);
        if map_of(done).contains_key(r.id) {
            let j = choose|j: int| 0 <= j < done.len() && done[j].id == r.id;
            assert(text::text_below(s[j].id, s[i as int].id));
            lemma_below_irreflexive(s[j].id, r.id);
        }
        assert(s.take((i + 1) as int).drop_last() =~= done);
        assert(s.take((i + 1) as int).last() == r);
        lemma_get_records(s, i + 1, rest);
    }
}

/// Decoding an encoded store with something behind it.
#[verifier::spinoff_prover]
#[verifier::rlimit(60)]
proof fn lemma_store_then(s: Seq<record::RecordView>, rest: Seq<u8>)
    requires
        ordered(s),
        s.len() <= usize::MAX,
        forall|i: int| 0 <= i < s.len() ==> (#[trigger] s[i]).valid() && codec::record_fits(s[i]),
    ensures
        decoded_store(store_bytes(s) + rest) == (if rest.len() == 0 {
            Ok::<_, error::ErrorView>(map_of(s))
        } else {
            Err(fileguard::trailing_error("RECS record store"@, rest.len()))
        }),
{
    let parts = s.map_values(|r: record::RecordView| codec::record_bytes(r));
    let s3 = fileguard::joined(parts) + rest;
    let s2 = fileguard::le_bytes(s.len(), 8) + s3;
    let s1 = fileguard::le_bytes(VERSION as nat, 4) + s2;
    let bytes = store_bytes(s) + rest;
    fileguard::lemma_regroup3(
        magic(),
        fileguard::le_bytes(VERSION as nat, 4),
        fileguard::le_bytes(s.len(), 8),
        s3,
    );
    assert(bytes =~= magic() + fileguard::le_bytes(VERSION as nat, 4) + fileguard::le_bytes(
        s.len(),
        8,
    ) + s3);
    assert(bytes == magic() + s1);
    assert(bytes.take(4) =~= magic());
    assert(bytes.skip(4) =~= s1);
    fileguard::lemma_get_u32("RECS version"@, VERSION, s2);
    fileguard::lemma_get_u64("RECS records"@, s.len() as u64, s3);
    assert forall|i: int| 0 <= i < parts.len() implies (#[trigger] parts[i]).len()
        >= MIN_ENCODED_RECORD_BYTES by {
        lemma_record_len(s[i]);
    }
    fileguard::lemma_joined_len(parts, MIN_ENCODED_RECORD_BYTES as nat);
    lemma_get_records(s, 0, rest);
    assert(s.take(0) =~= Seq::empty());
    assert(parts.skip(0) =~= parts);
}

/// Decoding an encoded store gives the store back, where its lengths fit the format:
/// `s` is what [`RecordStore::encode`] writes, every field of every record included.
pub proof fn law_store_round_trip(s: Seq<record::RecordView>)
    requires
        ordered(s),
        s.len() <= usize::MAX,
        forall|i: int| 0 <= i < s.len() ==> (#[trigger] s[i]).valid() && codec::record_fits(s[i]),
    ensures
        decoded_store(store_bytes(s)) == Ok::<_, error::ErrorView>(map_of(s)),
{
    lemma_store_then(s, Seq::empty());
    assert(store_bytes(s) + Seq::<u8>::empty() =~= store_bytes(s));
}

/// Nothing may stand behind an encoded store: with any bytes after it, it is refused.
pub proof fn law_trailing_bytes_are_refused(s: Seq<record::RecordView>, rest: Seq<u8>)
    requires
        ordered(s),
        s.len() <= usize::MAX,
        forall|i: int| 0 <= i < s.len() ==> (#[trigger] s[i]).valid() && codec::record_fits(s[i]),
        rest.len() > 0,
    ensures
        decoded_store(store_bytes(s) + rest) is Err,
{
    lemma_store_then(s, rest);
}

/// Every relation that is followed leads from an admitted record to an admitted target, and
/// is one of the record's own.
pub proof fn law_related_are_admitted(
    m: Map<Seq<char>, record::RecordView>,
    id: Seq<char>,
    f: FilterView,
)
    ensures
        forall|i: int|
            0 <= i < related(m, id, f).len() ==> admitted(
                m,
                (#[trigger] related(m, id, f)[i]).target,
                f,
            ) && m.contains_key(id) && admitted(m, id, f) && m[id].relations.contains(
                related(m, id, f)[i],
            ),
{
    if m.contains_key(id) && admitted(m, id, f) {
        let keep = |r: record::RelationView| admitted(m, r.target, f);
        assert forall|i: int| 0 <= i < related(m, id, f).len() implies admitted(
            m,
            (#[trigger] related(m, id, f)[i]).target,
            f,
        ) && m[id].relations.contains(related(m, id, f)[i]) by {
            lemma_filter_element(m[id].relations, keep, i);
        }
    }
}

/// The relations that may be followed leave out none: whatever its kind, a relation of an
/// admitted record to an admitted one is among them.
pub proof fn law_related_leave_out_none(
    m: Map<Seq<char>, record::RecordView>,
    id: Seq<char>,
    f: FilterView,
    e: record::RelationView,
)
    requires
        m.contains_key(id),
        admitted(m, id, f),
        m[id].relations.contains(e),
        admitted(m, e.target, f),
    ensures
        related(m, id, f).contains(e),
{
    lemma_filter_has(m[id].relations, |r: record::RelationView| admitted(m, r.target, f), e);
}

proof fn lemma_filter_has(
    s: Seq<record::RelationView>,
    keep: spec_fn(record::RelationView) -> bool,
    e: record::RelationView,
)
    requires
        s.contains(e),
        keep(e),
    ensures
        s.filter(keep).contains(e),
    decreases s.len(),
{
    reveal(Seq::filter);
    let i = choose|i: int| 0 <= i < s.len() && s[i] == e;
    let kept = s.filter(keep);
    if i < s.len() - 1 {
        let less = s.drop_last();
        assert(less[i] == e);
        lemma_filter_has(less, keep, e);
        let j = choose|j: int| 0 <= j < less.filter(keep).len() && less.filter(keep)[j] == e;
        assert(kept[j] == e);
    } else {
        assert(kept[kept.len() - 1] == e);
    }
}

pub(crate) proof fn lemma_filter_element(
    s: Seq<record::RelationView>,
    keep: spec_fn(record::RelationView) -> bool,
    i: int,
)
    requires
        0 <= i < s.filter(keep).len(),
    ensures
        keep(s.filter(keep)[i]),
        s.contains(s.filter(keep)[i]),
    decreases s.len(),
{
    reveal(Seq::filter);
    if s.len() > 0 {
        let p = s.drop_last();
        if i < p.filter(keep).len() {
            lemma_filter_element(p, keep, i);
            let j = choose|j: int| 0 <= j < p.len() && p[j] == p.filter(keep)[i];
            assert(s[j] == p.filter(keep)[i]);
        } else {
            assert(s[s.len() - 1] == s.last());
        }
    }
}

/// A purgeable record is shown at no time where the lifecycle counts, and stays purgeable; a
/// hidden record stays hidden
/// as time passes; and an id without a record is always shown.
pub proof fn law_lifecycle(
    m: Map<Seq<char>, record::RecordView>,
    id: Seq<char>,
    f: FilterView,
    earlier: u64,
    later: u64,
)
    requires
        earlier <= later,
    ensures
        m.contains_key(id) && m[id].purgeable(earlier) ==> m[id].purgeable(later) && (f.lifecycle
            ==> !admitted(m, id, f)),
        m.contains_key(id) && !m[id].visible(earlier) ==> !m[id].visible(later),
        !m.contains_key(id) ==> admitted(m, id, f),
{
}

/// Deletion hides: a tombstoned id is shown to no filter that heeds the lifecycle, at no time,
/// and what is shown of every other id stays as it was.
pub proof fn law_deletion_hides(
    m: Map<Seq<char>, record::RecordView>,
    id: Seq<char>,
    generation: u64,
    other: Seq<char>,
    f: FilterView,
)
    requires
        m.contains_key(id),
        other != id,
    ensures
        f.lifecycle ==> !admitted(m.insert(id, record::tombstoned(m[id], generation)), id, f),
        admitted(m.insert(id, record::tombstoned(m[id], generation)), other, f) == admitted(
            m,
            other,
            f,
        ),
{
}

/// What is stored is shown: an active record that has not expired is admitted by every filter
/// that asks for its scope, or for none, with a clearance that reaches it; storing it again
/// at the same or an older generation is refused.
pub proof fn law_stored_is_shown(
    m: Map<Seq<char>, record::RecordView>,
    r: record::RecordView,
    f: FilterView,
)
    requires
        put_outcome(m, r) is Ok,
        f.lifecycle ==> r.visible(f.now_unix_ms),
        f.scope_admitted(r.scope.tenant, r.scope.workspace, r.scope.agent),
        r.sensitivity.level() <= f.clearance.level(),
    ensures
        admitted((put_outcome(m, r)->Ok_0), r.id, f),
        (put_outcome(m, r)->Ok_0)[r.id] == r,
        put_outcome(put_outcome(m, r)->Ok_0, r) is Err,
{
}

/// Scopes are apart: a filter of one tenant never shows a record of another, whatever else it
/// asks for, and no filter shows a record above its clearance.
pub proof fn law_scopes_are_apart(
    m: Map<Seq<char>, record::RecordView>,
    id: Seq<char>,
    f: FilterView,
)
    requires
        m.contains_key(id),
        admitted(m, id, f),
    ensures
        f.tenant matches Some(t) ==> m[id].scope.tenant == t,
        f.workspace matches Some(w) ==> m[id].scope.workspace == w,
        f.agent matches Some(a) ==> m[id].scope.agent == a,
        m[id].sensitivity.level() <= f.clearance.level(),
{
}

/// A narrower filter shows nothing more: neither a scope nor a lower clearance lets an id
/// through that full clearance without a scope would hide.
pub proof fn law_filters_only_narrow(
    m: Map<Seq<char>, record::RecordView>,
    id: Seq<char>,
    f: FilterView,
)
    ensures
        admitted(m, id, f) ==> admitted(
            m,
            id,
            FilterView {
                lifecycle: f.lifecycle,
                ..lifecycle_filter(f.now_unix_ms)
            },
        ),
{
}

/// Purging takes nothing away that a filter with a lifecycle would show at any time: the
/// records left are
/// those that were not purgeable, unchanged, and none of them is purgeable at that time.
pub proof fn law_purge_keeps_what_is_shown(
    before: Map<Seq<char>, record::RecordView>,
    after: Map<Seq<char>, record::RecordView>,
    id: Seq<char>,
    f: FilterView,
    now: u64,
)
    requires
        forall|k: Seq<char>| #[trigger]
            after.contains_key(k) <==> before.contains_key(k) && !before[k].purgeable(now),
        forall|k: Seq<char>| #[trigger] after.contains_key(k) ==> after[k] == before[k],
    ensures
        f.lifecycle && before.contains_key(id) && admitted(before, id, f) ==> after.contains_key(
            id,
        ) && admitted(after, id, f),
        after.contains_key(id) ==> !after[id].purgeable(now),
{
    assert(after.contains_key(id) <==> before.contains_key(id) && !before[id].purgeable(now));
}

/// A record with one more relation, at a newer generation.
pub open spec fn with_relation(
    r: record::RecordView,
    kind: RelationKind,
    target: Seq<char>,
    generation: u64,
) -> record::RecordView {
    record::RecordView {
        generation,
        relations: r.relations.push(record::RelationView { kind, target }),
        ..r
    }
}

/// What adding a relation to a stored record gives: the record must be older than the
/// generation, the target an id, and another one than the record's.
pub open spec fn relate_outcome(
    r: record::RecordView,
    kind: RelationKind,
    target: Seq<char>,
    generation: u64,
) -> Result<record::RecordView, RecordError> {
    if generation <= r.generation {
        Err(record::stale(r.generation, generation))
    } else if text::blank(target) {
        Err(RecordError::EmptyId)
    } else if target == r.id {
        Err(RecordError::SelfRelation)
    } else {
        Ok(with_relation(r, kind, target, generation))
    }
}

impl RecordStore {
    /// Adds a relation to a stored record, at a newer generation.
    pub fn relate(&mut self, id: &str, kind: RelationKind, target: &str, generation: u64) -> (r: Result<
        (),
        RecordError,
    >)
        ensures
            match r {
                Ok(_) => {
                    &&& old(self)@.contains_key(id@)
                    &&& relate_outcome(old(self)@[id@], kind, target@, generation) == Ok::<
                        _,
                        RecordError,
                    >(final(self)@[id@])
                    &&& final(self)@ == old(self)@.insert(
                        id@,
                        with_relation(old(self)@[id@], kind, target@, generation),
                    )
                },
                Err(e) => {
                    &&& final(self)@ == old(self)@
                    &&& if old(self)@.contains_key(id@) {
                        relate_outcome(old(self)@[id@], kind, target@, generation) == Err::<
                            record::RecordView,
                            _,
                        >(e)
                    } else {
                        e matches RecordError::UnknownMemoryId(name) && name@ == id@
                    }
                },
            },
    {
        proof {
            use_type_invariant(&*self);
        }
        let (found, i) = self.locate(id);
        if !found {
            return Err(RecordError::UnknownMemoryId(id.to_owned()));
        }
        let current: u64 = self.records[i].generation;
        if generation <= current {
            return Err(
                RecordError::NonMonotonicGeneration { current, proposed: generation },
            );
        }
        let other = match record::MemoryId::new(target) {
            Ok(t) => t,
            Err(e) => return Err(e),
        };
        if text::text_equal(target, self.records[i].id.as_str()) {
            return Err(RecordError::SelfRelation);
        }
        let ghost s = self.sequence();
        let mut records: Vec<MemoryRecord> = Vec::new();
        std::mem::swap(&mut records, &mut self.records);
        let _ = records[i].advance_generation(generation);
        let _ = records[i].add_relation(kind, other);
        proof {
            let v = records@[i as int]@;
            assert(v == with_relation(s[i as int], kind, target@, generation));
            lemma_map_update(s, i as int, v);
            assert(record_views(records@) =~= s.update(i as int, v));
        }
        self.records = records;
        Ok(())
    }
}

/// What a filter admits, in the fields of the record: an id without a record, and one whose record
/// is active and unexpired where the lifecycle counts, bears every label that is wished for, and
/// is not above the clearance.
pub proof fn law_admitted_records(
    m: Map<Seq<char>, record::RecordView>,
    id: Seq<char>,
    f: FilterView,
)
    ensures
        !m.contains_key(id) ==> admitted(m, id, f),
        m.contains_key(id) ==> (admitted(m, id, f) <==> {
            let r = m[id];
            &&& f.lifecycle ==> r.status == record::StatusView::Active
                && match r.retention.expires_at_unix_ms {
                Some(t) => f.now_unix_ms < t,
                None => true,
            }
            &&& f.tenant is Some ==> r.scope.tenant == f.tenant->0
            &&& f.workspace is Some ==> r.scope.workspace == f.workspace->0
            &&& f.agent is Some ==> r.scope.agent == f.agent->0
            &&& r.sensitivity.level() <= f.clearance.level()
        }),
{
}

/// Putting a record fails just where its id is known in a generation that is not older, and then
/// names both generations; else the record is stored under its id and no other id is touched.
pub proof fn law_put_wants_a_newer_generation(
    m: Map<Seq<char>, record::RecordView>,
    r: record::RecordView,
    other: Seq<char>,
)
    ensures
        put_outcome(m, r) is Err <==> m.contains_key(r.id) && m[r.id].generation >= r.generation,
        put_outcome(m, r) matches Err(e) ==> e == (RecordError::NonMonotonicGeneration {
            current: m[r.id].generation,
            proposed: r.generation,
        }),
        put_outcome(m, r) matches Ok(n) ==> n.contains_key(r.id) && n[r.id] == r && (other != r.id
            ==> n.contains_key(other) == m.contains_key(other) && (m.contains_key(other)
            ==> n[other] == m[other])),
{
}

/// A purge parts the records: those that may be removed go, all others stay, in their order.
pub proof fn law_purge_parts_the_records(s: Seq<record::RecordView>, now: u64, i: int)
    requires
        0 <= i < s.len(),
    ensures
        purgeable_records(s, now).contains(s[i]) <==> s[i].purgeable(now),
        kept_records(s, now).contains(s[i]) <==> !s[i].purgeable(now),
        purgeable_records(s, now).len() + kept_records(s, now).len() == s.len(),
{
    broadcast use vstd::seq_lib::group_filter_ensures;

    let goes = |r: record::RecordView| r.purgeable(now);
    let stays = |r: record::RecordView| !r.purgeable(now);
    if s[i].purgeable(now) {
        assert(s.filter(goes).contains(s[i]));
    } else {
        assert(s.filter(stays).contains(s[i]));
    }
    if s.filter(goes).contains(s[i]) {
        let k = choose|k: int| 0 <= k < s.filter(goes).len() && s.filter(goes)[k] == s[i];
        assert(goes(s.filter(goes)[k]));
    }
    if s.filter(stays).contains(s[i]) {
        let k = choose|k: int| 0 <= k < s.filter(stays).len() && s.filter(stays)[k] == s[i];
        assert(stays(s.filter(stays)[k]));
    }
    lemma_parted(s, goes, stays);
}

proof fn lemma_parted(
    s: Seq<record::RecordView>,
    a: spec_fn(record::RecordView) -> bool,
    b: spec_fn(record::RecordView) -> bool,
)
    requires
        forall|r: record::RecordView| #[trigger] a(r) != b(r),
    ensures
        s.filter(a).len() + s.filter(b).len() == s.len(),
    decreases s.len(),
{
    reveal(Seq::filter);
    if s.len() > 0 {
        lemma_parted(s.drop_last(), a, b);
        assert(a(s.last()) != b(s.last()));
    }
}

/// A relation is added just where the generation is newer and the target is another id: the record
/// then has it behind all that it had, at that generation, and nothing else of it changes.
pub proof fn law_relating_adds_one_relation(
    r: record::RecordView,
    kind: RelationKind,
    target: Seq<char>,
    generation: u64,
)
    ensures
        relate_outcome(r, kind, target, generation) is Ok <==> generation > r.generation
            && !text::blank(target) && target != r.id,
        relate_outcome(r, kind, target, generation) matches Ok(n) ==> {
            &&& n.generation == generation
            &&& n.relations.len() == r.relations.len() + 1
            &&& n.relations.drop_last() == r.relations
            &&& n.relations.last().kind == kind
            &&& n.relations.last().target == target
            &&& n == (record::RecordView { generation, relations: n.relations, ..r })
        },
{
    if relate_outcome(r, kind, target, generation) is Ok {
        let n = relate_outcome(r, kind, target, generation)->Ok_0;
        assert(n.relations.drop_last() =~= r.relations);
    }
}

} // verus!
