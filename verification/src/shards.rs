//! A spatial memory for each causal region.
use crate::explain;
use crate::explain::{Explanation, PointText};
use crate::lifecycle;
use crate::lifecycle::lossy_text;
use crate::manifest;
use crate::manifest::{shard_file_name, ShardEntry, ShardManifest};
use crate::memory;
use crate::memory::FractalMemory3D;
use crate::octree;
use crate::sharded::sorted_distinct;
use crate::text;
use crate::totals;
use vstd::prelude::*;

verus! {

struct RegionShard {
    region: String,
    memory: FractalMemory3D,
}

spec fn stands(shards: Seq<RegionShard>, region: Seq<char>, i: int) -> bool {
    0 <= i < shards.len() && shards[i].region@ == region
}

spec fn shard_map(shards: Seq<RegionShard>) -> Map<Seq<char>, FractalMemory3D> {
    Map::new(
        |region: Seq<char>| exists|i: int| stands(shards, region, i),
        |region: Seq<char>| shards[choose|i: int| stands(shards, region, i)].memory,
    )
}

/// The memories of the causal regions.
pub struct ShardedMemory {
    shards: Vec<RegionShard>,
}

/// What an insertion makes of a region's memory: one item more, with its point, its path and
/// its payload, and every other as it was.
pub open spec fn grown(
    before: Option<FractalMemory3D>,
    after: FractalMemory3D,
    depth_limit: nat,
    point: [u32; 3],
    path: Seq<u8>,
    payload: Seq<u8>,
) -> bool {
    let x = held(before) as int;
    &&& after.wf()
    &&& (before matches Some(m) ==> m.octree().filed()) ==> after.octree().filed()
    &&& after.entries().len() == x + 1
    &&& after.entries()[x].point == point
    &&& after.payload(x) == payload
    &&& after.octree().path(x) == path
    &&& after.octree().limit() == (match before {
        Some(m) => m.octree().limit(),
        None => depth_limit,
    })
    &&& after.octree().room() == (match before {
        Some(m) => m.octree().room(),
        None => octree::DEFAULT_BUCKET_CAPACITY as nat,
    })
    &&& after.payloads() == (match before {
        Some(m) => m.payloads() + payload,
        None => payload,
    })
    &&& forall|y: int|
        0 <= y < x ==> #[trigger] after.entries()[y] == before->0.entries()[y] && after.payload(y)
            == before->0.payload(y) && after.octree().path(y) == before->0.octree().path(y)
}

/// How many items a region holds.
pub open spec fn held(memory: Option<FractalMemory3D>) -> nat {
    match memory {
        Some(m) => m.entries().len(),
        None => 0,
    }
}

/// The memory of a region.
pub open spec fn region_of(
    m: Map<Seq<char>, FractalMemory3D>,
    region: Seq<char>,
) -> Option<FractalMemory3D> {
    if m.contains_key(region) {
        Some(m[region])
    } else {
        None
    }
}

/// The number of items of each region.
pub open spec fn counts(m: Map<Seq<char>, FractalMemory3D>) -> Map<Seq<char>, nat> {
    m.map_values(|memory: FractalMemory3D| memory.entries().len())
}

/// Giving a region a memory changes the number of all items by as many as it has more.
pub proof fn lemma_counts_insert(
    m: Map<Seq<char>, FractalMemory3D>,
    region: Seq<char>,
    memory: FractalMemory3D,
)
    requires
        m.dom().finite(),
    ensures
        totals::total(counts(m.insert(region, memory))) + held(region_of(m, region))
            == totals::total(counts(m)) + memory.entries().len(),
{
    assert(counts(m).dom() =~= m.dom());
    assert(counts(m.insert(region, memory)) =~= counts(m).insert(
        region,
        memory.entries().len(),
    ));
    totals::lemma_total_insert(counts(m), region, memory.entries().len());
}

impl ShardedMemory {
    /// The memories, by region.
    pub closed spec fn view(&self) -> Map<Seq<char>, FractalMemory3D> {
        shard_map(self.shards@)
    }

    /// The number of items in all regions.
    pub open spec fn items(&self) -> nat {
        totals::total(counts(self.view()))
    }

    /// The regions, in the order in which they began.
    spec fn names(&self) -> Seq<Seq<char>> {
        Seq::new(self.shards@.len(), |i: int| self.shards@[i].region@)
    }

    /// Every region has one memory, which is in order.
    pub closed spec fn wf(&self) -> bool {
        &&& forall|i: int, j: int|
            0 <= i < j < self.shards@.len() ==> (#[trigger] self.shards@[i]).region@ != (
            #[trigger] self.shards@[j]).region@
        &&& forall|i: int| 0 <= i < self.shards@.len() ==> (#[trigger] self.shards@[i]).memory.wf()
    }

    proof fn lemma_at(self, i: int)
        requires
            self.wf(),
            0 <= i < self.shards@.len(),
        ensures
            self@.contains_key(self.shards@[i].region@),
            self@[self.shards@[i].region@] == self.shards@[i].memory,
    {
        let region = self.shards@[i].region@;
        assert(stands(self.shards@, region, i));
        let j = choose|j: int| stands(self.shards@, region, j);
        if j < i {
            assert(self.shards@[j].region@ != self.shards@[i].region@);
        } else if i < j {
            assert(self.shards@[i].region@ != self.shards@[j].region@);
        }
    }

    /// The memory of every region is in order.
    pub proof fn lemma_regions(&self)
        requires
            self.wf(),
        ensures
            forall|k: Seq<char>| #[trigger] self@.contains_key(k) ==> self@[k].wf(),
            self@.dom().finite(),
    {
        self.lemma_names();
        assert forall|k: Seq<char>| #[trigger] self@.contains_key(k) implies self@[k].wf() by {
            let i = choose|i: int| stands(self.shards@, k, i);
            self.lemma_at(i);
        }
    }

    /// The names are the regions, each once.
    proof fn lemma_names(&self)
        requires
            self.wf(),
        ensures
            self@.dom().finite(),
            self@.dom().len() == self.shards@.len(),
            forall|k: Seq<char>| #[trigger] self@.contains_key(k) <==> self.names().contains(k),
    {
        let names = self.names();
        assert(names.no_duplicates()) by {
            assert forall|i: int, j: int|
                0 <= i < names.len() && 0 <= j < names.len() && i != j implies names[i]
                != names[j] by {
                if i < j {
                    assert(self.shards@[i].region@ != self.shards@[j].region@);
                } else {
                    assert(self.shards@[j].region@ != self.shards@[i].region@);
                }
            }
        }
        names.unique_seq_to_set();
        vstd::seq_lib::seq_to_set_is_finite(names);
        assert forall|k: Seq<char>| #[trigger] self@.contains_key(k) <==> names.contains(k) by {
            if self@.contains_key(k) {
                let i = choose|i: int| stands(self.shards@, k, i);
                assert(names[i] == k);
            }
            if names.contains(k) {
                let i = choose|i: int| 0 <= i < names.len() && names[i] == k;
                self.lemma_at(i);
            }
        }
        assert(self@.dom() =~= names.to_set());
    }

    /// A memory without regions.
    pub fn new() -> (m: ShardedMemory)
        ensures
            m.wf(),
            m@ == Map::<Seq<char>, FractalMemory3D>::empty(),
            m.items() == 0,
    {
        let m = ShardedMemory { shards: Vec::new() };
        proof {
            assert(m@ =~= Map::<Seq<char>, FractalMemory3D>::empty());
            totals::lemma_total_empty(counts(m@));
        }
        m
    }

    fn position(&self, region: &str) -> (r: Option<usize>)
        requires
            self.wf(),
        ensures
            match r {
                Some(i) => stands(self.shards@, region@, i as int) && self@.contains_key(region@)
                    && self@[region@] == self.shards@[i as int].memory,
                None => !self@.contains_key(region@) && forall|j: int|
                    0 <= j < self.shards@.len() ==> (#[trigger] self.shards@[j]).region@ != region@,
            },
    {
        let mut i: usize = 0;
        while i < self.shards.len()
            invariant
                i <= self.shards@.len(),
                self.wf(),
                forall|j: int| 0 <= j < i ==> (#[trigger] self.shards@[j]).region@ != region@,
            decreases self.shards@.len() - i,
        {
            if text::text_equal(self.shards[i].region.as_str(), region) {
                proof {
                    self.lemma_at(i as int);
                }
                return Some(i);
            }
            i += 1;
        }
        proof {
            if self@.contains_key(region@) {
                let j = choose|j: int| stands(self.shards@, region@, j);
                assert(self.shards@[j].region@ == region@);
            }
        }
        None
    }

    proof fn lemma_changed(self, was: ShardedMemory, region: Seq<char>, i: int)
        requires
            self.wf(),
            was.wf(),
            stands(self.shards@, region, i),
            was.shards@.len() <= self.shards@.len() <= was.shards@.len() + 1,
            self.shards@.len() > was.shards@.len() ==> i == was.shards@.len() && !was@.contains_key(
                region,
            ),
            self.shards@.len() == was.shards@.len() ==> stands(was.shards@, region, i),
            forall|j: int|
                0 <= j < was.shards@.len() && j != i ==> #[trigger] self.shards@[j]
                    == was.shards@[j],
        ensures
            self@ == was@.insert(region, self.shards@[i].memory),
    {
        let want = was@.insert(region, self.shards@[i].memory);
        self.lemma_at(i);
        assert forall|k: Seq<char>| #[trigger] self@.dom().contains(k) == want.dom().contains(k) by {
            self.lemma_other(was, k, region, i);
        }
        assert forall|k: Seq<char>| #[trigger] self@.dom().contains(k) implies self@[k]
            == want[k] by {
            self.lemma_other(was, k, region, i);
        }
        assert(self@.dom() =~= want.dom());
        assert(self@ =~= want);
    }

    proof fn lemma_other(self, was: ShardedMemory, k: Seq<char>, region: Seq<char>, i: int)
        requires
            self.wf(),
            was.wf(),
            stands(self.shards@, region, i),
            was.shards@.len() <= self.shards@.len() <= was.shards@.len() + 1,
            self.shards@.len() > was.shards@.len() ==> i == was.shards@.len(),
            self.shards@.len() == was.shards@.len() ==> stands(was.shards@, region, i),
            forall|j: int|
                0 <= j < was.shards@.len() && j != i ==> #[trigger] self.shards@[j]
                    == was.shards@[j],
        ensures
            k == region ==> self@.contains_key(k) && self@[k] == self.shards@[i].memory,
            k != region ==> self@.contains_key(k) == was@.contains_key(k) && (was@.contains_key(k)
                ==> self@[k] == was@[k]),
    {
        self.lemma_at(i);
        if k != region {
            if was@.contains_key(k) {
                let j = choose|j: int| stands(was.shards@, k, j);
                assert(self.shards@[j] == was.shards@[j]);
                self.lemma_at(j);
                was.lemma_at(j);
            }
            if self@.contains_key(k) {
                let j = choose|j: int| stands(self.shards@, k, j);
                assert(self.shards@[j] == was.shards@[j]);
                was.lemma_at(j);
            }
        }
    }

    /// Gives a region a memory, in place of the one that it has.
    pub fn put(&mut self, region: &str, memory: FractalMemory3D)
        requires
            old(self).wf(),
            memory.wf(),
        ensures
            final(self).wf(),
            final(self)@ == old(self)@.insert(region@, memory),
    {
        let ghost was = *self;
        match self.position(region) {
            Some(i) => {
                self.shards[i].memory = memory;
                proof {
                    self.lemma_changed(was, region@, i as int);
                }
            },
            None => {
                self.shards.push(RegionShard { region: region.to_owned(), memory });
                proof {
                    self.lemma_changed(was, region@, was.shards@.len() as int);
                }
            },
        }
    }

    /// Files an item in a region, which begins with its first item and divides its cells
    /// down to `depth_limit`.
    pub fn insert(
        &mut self,
        region: &str,
        depth_limit: usize,
        point: [u32; 3],
        path: Vec<u8>,
        payload: &[u8],
    )
        requires
            old(self).wf(),
            match region_of(old(self)@, region@) {
                Some(m) => octree::is_path(path@, m.octree().limit()) && m.payloads().len()
                    + payload@.len() <= usize::MAX,
                None => octree::is_path(path@, depth_limit as nat),
            },
        ensures
            final(self).wf(),
            final(self)@.contains_key(region@),
            grown(
                region_of(old(self)@, region@),
                final(self)@[region@],
                depth_limit as nat,
                point,
                path@,
                payload@,
            ),
            final(self)@ == old(self)@.insert(region@, final(self)@[region@]),
            final(self).items() == old(self).items() + 1,
    {
        let ghost was = *self;
        let size: usize = payload.len();
        let i: usize = match self.position(region) {
            Some(i) => i,
            None => {
                let i: usize = self.shards.len();
                self.shards.push(
                    RegionShard {
                        region: region.to_owned(),
                        memory: FractalMemory3D::new(depth_limit),
                    },
                );
                i
            },
        };
        proof {
            assert(payload@.len() == size);
        }
        let _ = self.shards[i].memory.insert(point, path, Some(payload));
        proof {
            self.lemma_changed(was, region@, i as int);
            was.lemma_names();
            lemma_counts_insert(was@, region@, self@[region@]);
        }
    }

    /// Files every item of a region anew under new paths, as a larger world asks for.
    pub fn refile(&mut self, region: &str, depth_limit: usize, paths: Vec<Vec<u8>>)
        requires
            old(self).wf(),
            old(self)@.contains_key(region@),
            paths@.len() == old(self)@[region@].entries().len(),
            forall|i: int|
                0 <= i < paths@.len() ==> octree::is_path(
                    (#[trigger] paths@[i])@,
                    depth_limit as nat,
                ),
        ensures
            final(self).wf(),
            final(self)@ == old(self)@.insert(region@, final(self)@[region@]),
            memory::refiled(
                old(self)@[region@],
                final(self)@[region@],
                depth_limit as nat,
                octree::place_views(paths@),
            ),
            final(self).items() == old(self).items(),
    {
        let ghost was = *self;
        if let Some(i) = self.position(region) {
            self.shards[i].memory.refile(depth_limit, paths);
            proof {
                self.lemma_changed(was, region@, i as int);
                was.lemma_names();
                lemma_counts_insert(was@, region@, self@[region@]);
            }
        }
    }

    /// The memory of a region.
    pub fn shard(&self, region: &str) -> (r: Option<&FractalMemory3D>)
        requires
            self.wf(),
        ensures
            match r {
                Some(m) => region_of(self@, region@) == Some(*m) && m.wf(),
                None => region_of(self@, region@) is None,
            },
    {
        match self.position(region) {
            Some(i) => Some(&self.shards[i].memory),
            None => None,
        }
    }

    /// The number of regions.
    pub fn regions(&self) -> (n: usize)
        requires
            self.wf(),
        ensures
            self@.dom().finite(),
            n == self@.dom().len(),
    {
        proof {
            self.lemma_names();
        }
        self.shards.len()
    }

    /// The regions, in the order of their bytes.
    pub fn region_keys(&self) -> (r: Vec<String>)
        requires
            self.wf(),
        ensures
            self@.dom().finite(),
            r@.len() == self@.dom().len(),
            forall|k: Seq<char>| #[trigger]
                self@.contains_key(k) <==> text::text_views(r@).contains(k),
            forall|i: int, j: int|
                0 <= i < j < r@.len() ==> text::text_below(
                    (#[trigger] r@[i])@,
                    (#[trigger] r@[j])@,
                ),
    {
        let mut names: Vec<String> = Vec::new();
        let mut i: usize = 0;
        while i < self.shards.len()
            invariant
                i <= self.shards@.len(),
                names@.len() == i,
                forall|j: int| 0 <= j < i ==> (#[trigger] names@[j])@ == self.shards@[j].region@,
            decreases self.shards@.len() - i,
        {
            names.push(self.shards[i].region.as_str().to_owned());
            i += 1;
        }
        proof {
            assert forall|i: int, j: int| 0 <= i < j < names@.len() implies (
            #[trigger] names@[i])@ != (#[trigger] names@[j])@ by {
                assert(self.shards@[i].region@ != self.shards@[j].region@);
            }
            assert(text::text_views(names@) =~= self.names());
            self.lemma_names();
        }
        sorted_distinct(names)
    }

    /// The number of items in a region, zero for an unknown one.
    pub fn region_len(&self, region: &str) -> (n: usize)
        requires
            self.wf(),
        ensures
            n == held(region_of(self@, region@)),
    {
        match self.position(region) {
            Some(i) => self.shards[i].memory.item_count(),
            None => 0,
        }
    }

    /// The number of items in all regions.
    pub fn len(&self) -> (n: usize)
        requires
            self.wf(),
            self.items() <= usize::MAX,
        ensures
            n == self.items(),
    {
        match self.checked_len() {
            Some(n) => n,
            None => 0,
        }
    }

    /// The number of items in all regions, where it is one.
    pub fn checked_len(&self) -> (r: Option<usize>)
        requires
            self.wf(),
        ensures
            match r {
                Some(n) => n == self.items(),
                None => self.items() > usize::MAX,
            },
    {
        let mut n: usize = 0;
        let mut i: usize = 0;
        let ghost mut rest = counts(self@);
        proof {
            self.lemma_names();
            assert(rest.dom() =~= self@.dom());
            assert forall|k: Seq<char>| #[trigger] rest.contains_key(k) <==> exists|j: int|
                0 <= j && stands(self.shards@, k, j) by {
                if self@.contains_key(k) {
                    let j = choose|j: int| stands(self.shards@, k, j);
                    assert(0 <= j && stands(self.shards@, k, j));
                }
            }
        }
        while i < self.shards.len()
            invariant
                i <= self.shards@.len(),
                self.wf(),
                rest.dom().finite(),
                n + totals::total(rest) == self.items(),
                forall|k: Seq<char>| #[trigger] rest.contains_key(k) <==> exists|j: int|
                    i <= j && stands(self.shards@, k, j),
                forall|k: Seq<char>| #[trigger] rest.contains_key(k) ==> rest[k]
                    == self@[k].entries().len(),
            decreases self.shards@.len() - i,
        {
            let here: usize = self.shards[i].memory.item_count();
            let ghost region = self.shards@[i as int].region@;
            proof {
                self.lemma_at(i as int);
                assert(i <= i && stands(self.shards@, region, i as int));
                assert(rest.contains_key(region));
                totals::lemma_total_remove(rest, region);
                let less = rest.remove(region);
                assert(less.dom() =~= rest.dom().remove(region));
                assert forall|k: Seq<char>| #[trigger] less.contains_key(k) <==> exists|j: int|
                    i + 1 <= j && stands(self.shards@, k, j) by {
                    if less.contains_key(k) {
                        assert(rest.contains_key(k));
                        let j = choose|j: int| i <= j && stands(self.shards@, k, j);
                        assert(i + 1 <= j && stands(self.shards@, k, j));
                    }
                    if exists|j: int| i + 1 <= j && stands(self.shards@, k, j) {
                        let j = choose|j: int| i + 1 <= j && stands(self.shards@, k, j);
                        assert(i <= j && stands(self.shards@, k, j));
                        assert(rest.contains_key(k));
                        assert(self.shards@[i as int].region@ != self.shards@[j].region@);
                    }
                }
                rest = less;
            }
            match n.checked_add(here) {
                Some(more) => {
                    n = more;
                },
                None => {
                    return None;
                },
            }
            i += 1;
        }
        proof {
            assert forall|k: Seq<char>| !#[trigger] rest.contains_key(k) by {
                if rest.contains_key(k) {
                    let j = choose|j: int| i <= j && stands(self.shards@, k, j);
                }
            }
            totals::lemma_total_empty(rest);
        }
        Some(n)
    }

    /// Whether no item is stored.
    pub fn is_empty(&self) -> (r: bool)
        requires
            self.wf(),
        ensures
            r == forall|k: Seq<char>|
                self@.contains_key(k) ==> (#[trigger] self@[k]).entries().len() == 0,
    {
        let mut i: usize = 0;
        while i < self.shards.len()
            invariant
                i <= self.shards@.len(),
                self.wf(),
                forall|j: int|
                    0 <= j < i ==> (#[trigger] self.shards@[j]).memory.entries().len() == 0,
            decreases self.shards@.len() - i,
        {
            if self.shards[i].memory.item_count() > 0 {
                proof {
                    self.lemma_at(i as int);
                    assert(self@[self.shards@[i as int].region@].entries().len() > 0);
                }
                return false;
            }
            i += 1;
        }
        proof {
            assert forall|k: Seq<char>| self@.contains_key(k) implies (
            #[trigger] self@[k]).entries().len() == 0 by {
                let j = choose|j: int| stands(self.shards@, k, j);
                self.lemma_at(j);
            }
        }
        true
    }

    /// The texts and distances of what was found in a region, in its order; an unknown
    /// region has none.
    pub fn recall_scored(&self, region: &str, found: &[(usize, u32)]) -> (r: Vec<(String, u32)>)
        requires
            self.wf(),
            region_of(self@, region@) matches Some(m) ==> forall|i: int|
                0 <= i < found@.len() ==> (#[trigger] found@[i]).0 < m.entries().len(),
        ensures
            match region_of(self@, region@) {
                Some(m) => r@.len() == found@.len() && forall|i: int|
                    0 <= i < r@.len() ==> (#[trigger] r@[i]).0@ == lifecycle::payload_text(
                        m.payload(found@[i].0 as int),
                    ) && r@[i].1 == found@[i].1,
                None => r@.len() == 0,
            },
    {
        let mut out: Vec<(String, u32)> = Vec::new();
        if let Some(m) = self.shard(region) {
            let mut i: usize = 0;
            while i < found.len()
                invariant
                    i <= found@.len(),
                    m.wf(),
                    forall|i: int|
                        0 <= i < found@.len() ==> (#[trigger] found@[i]).0 < m.entries().len(),
                    out@.len() == i,
                    forall|j: int|
                        0 <= j < i ==> (#[trigger] out@[j]).0@ == lifecycle::payload_text(
                            m.payload(found@[j].0 as int),
                        ) && out@[j].1 == found@[j].1,
                decreases found@.len() - i,
            {
                proof {
                    assert(found@[i as int].0 < m.entries().len());
                }
                if let Some(p) = m.get_payload(found[i].0) {
                    out.push((lossy_text(p), found[i].1));
                }
                i += 1;
            }
        }
        out
    }

    /// Explains a recall within a region; nothing for an unknown one.
    pub fn explain(&self, region: &str, path: &[u8], found: &[(usize, u32)]) -> (r: Option<
        Explanation,
    >)
        requires
            self.wf(),
            region_of(self@, region@) matches Some(m) ==> octree::is_path(
                path@,
                m.octree().limit(),
            ) && forall|i: int|
                0 <= i < found@.len() ==> (#[trigger] found@[i]).0 < m.entries().len(),
        ensures
            match (r, region_of(self@, region@)) {
                (Some(e), Some(m)) => {
                    &&& explain::shows_descent(
                        &m,
                        path@,
                        explain::EXPLAIN_LEVELS as nat,
                        1,
                        e.zoom_path@,
                    )
                    &&& e.neighbors@.len() == found@.len()
                    &&& forall|i: int|
                        0 <= i < found@.len() ==> {
                            &&& (#[trigger] e.neighbors@[i]).payload@ == m.payload(
                                found@[i].0 as int,
                            )
                            &&& e.neighbors@[i].distance == found@[i].1
                            &&& e.neighbors@[i].point == m.entries()[found@[i].0 as int].point
                        }
                },
                (None, None) => true,
                _ => false,
            },
    {
        match self.shard(region) {
            Some(m) => Some(m.explain(path, found)),
            None => None,
        }
    }

    /// The points of a region as JSON for a viewer; nothing for an unknown one.
    pub fn export_points_json(&self, region: &str, half_size: &str, points: &Vec<PointText>) -> (r:
        Option<String>)
        requires
            self.wf(),
            region_of(self@, region@) matches Some(m) ==> points@.len() <= m.entries().len(),
        ensures
            match (r, region_of(self@, region@)) {
                (Some(s), Some(m)) => s@ == explain::export_json(&m, half_size@, points@, false),
                (None, None) => true,
                _ => false,
            },
    {
        match self.shard(region) {
            Some(m) => Some(m.export_points_json(half_size, points, false)),
            None => None,
        }
    }

    /// The manifest: the regions in the order of their bytes, each with the file that its
    /// place gives it.
    pub fn manifest(&self, dim: u32, seed: u64) -> (m: ShardManifest)
        requires
            self.wf(),
        ensures
            m.dim == dim,
            m.seed == seed,
            self@.dom().finite(),
            m.shards@.len() == self@.dom().len(),
            forall|k: Seq<char>| #[trigger]
                self@.contains_key(k) ==> exists|i: int|
                    0 <= i < m.shards@.len() && (#[trigger] m.shards@[i]).region@ == k,
            forall|i: int|
                0 <= i < m.shards@.len() ==> self@.contains_key((#[trigger] m.shards@[i]).region@)
                    && m.shards@[i].name@ == manifest::shard_file(i as nat),
            forall|i: int, j: int|
                0 <= i < j < m.shards@.len() ==> text::text_below(
                    (#[trigger] m.shards@[i]).region@,
                    (#[trigger] m.shards@[j]).region@,
                ),
    {
        let keys = self.region_keys();
        let mut shards: Vec<ShardEntry> = Vec::new();
        let mut i: usize = 0;
        while i < keys.len()
            invariant
                i <= keys@.len(),
                shards@.len() == i,
                forall|j: int|
                    0 <= j < i ==> (#[trigger] shards@[j]).region@ == keys@[j]@ && shards@[j].name@
                        == manifest::shard_file(j as nat),
            decreases keys@.len() - i,
        {
            shards.push(
                ShardEntry {
                    region: keys[i].as_str().to_owned(),
                    name: shard_file_name(i as u64),
                },
            );
            i += 1;
        }
        proof {
            assert forall|a: int| 0 <= a < shards@.len() implies self@.contains_key(
                (#[trigger] shards@[a]).region@,
            ) by {
                assert(text::text_views(keys@)[a] == keys@[a]@);
                assert(text::text_views(keys@).contains(keys@[a]@));
            }
            assert forall|k: Seq<char>| #[trigger] self@.contains_key(k) implies exists|i: int|
                0 <= i < shards@.len() && (#[trigger] shards@[i]).region@ == k by {
                assert(text::text_views(keys@).contains(k));
                let a = choose|a: int| 0 <= a < keys@.len() && text::text_views(keys@)[a] == k;
                assert(shards@[a].region@ == k);
            }
            assert forall|a: int, b: int| 0 <= a < b < shards@.len() implies text::text_below(
                (#[trigger] shards@[a]).region@,
                (#[trigger] shards@[b]).region@,
            ) by {
                assert(text::text_below(keys@[a]@, keys@[b]@));
            }
        }
        ShardManifest { dim, seed, shards }
    }
}

} // verus!
