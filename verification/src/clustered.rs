//! A memory in clusters: which items begin them, which cluster an item goes to, which
//! clusters a query is sent to, and how their answers are merged.
//!
//! Vectors, centroids and projections are the caller's; distances come as order keys or bit
//! patterns.
use crate::order;
use vstd::prelude::*;

verus! {

/// How many clusters there are: as many as asked for, but one at least and no more than
/// there are items.
pub fn cluster_count(asked: usize, items: usize) -> (k: usize)
    requires
        items > 0,
    ensures
        k == (if asked < 1 {
            1
        } else if asked > items {
            items
        } else {
            asked
        }),
{
    if asked < 1 {
        1
    } else if asked > items {
        items
    } else {
        asked
    }
}

/// The item that begins a cluster: the clusters take items at even strides.
pub open spec fn stride(c: int, items: int, k: int) -> int {
    c * items / k
}

/// The strides lie within the items and no two are the same.
pub proof fn law_strides_differ(items: int, k: int, a: int, b: int)
    requires
        0 < k <= items,
        0 <= a < b < k,
    ensures
        0 <= stride(a, items, k) < stride(b, items, k) < items,
{
    assert(0 <= a * items) by (nonlinear_arith)
        requires
            0 <= a,
            0 < items,
    ;
    assert(a * items + k <= b * items) by (nonlinear_arith)
        requires
            a + 1 <= b,
            0 < k <= items,
    ;
    assert(b * items < k * items) by (nonlinear_arith)
        requires
            b < k,
            0 < items,
    ;
    vstd::arithmetic::div_mod::lemma_div_plus_one(a * items, k);
    vstd::arithmetic::div_mod::lemma_div_is_ordered(a * items + k, b * items, k);
    vstd::arithmetic::div_mod::lemma_multiply_divide_lt(b * items, k, items);
    assert(k * items == items * k) by (nonlinear_arith);
    vstd::arithmetic::div_mod::lemma_div_pos_is_pos(a * items, k);
}

/// The items that begin the clusters.
pub fn stride_picks(items: usize, k: usize) -> (r: Vec<usize>)
    requires
        0 < k <= items,
    ensures
        r@.len() == k,
        forall|c: int|
            0 <= c < k ==> #[trigger] r@[c] == stride(c, items as int, k as int) && r@[c] < items,
{
    let mut out: Vec<usize> = Vec::new();
    let mut c: usize = 0;
    while c < k
        invariant
            c <= k,
            0 < k <= items,
            out@.len() == c,
            forall|j: int|
                0 <= j < c ==> #[trigger] out@[j] == stride(j, items as int, k as int) && out@[j]
                    < items,
        decreases k - c,
    {
        proof {
            assert(c * items <= 0xffff_ffff_ffff_ffff * 0xffff_ffff_ffff_ffff) by (nonlinear_arith)
                requires
                    0 <= c <= 0xffff_ffff_ffff_ffff,
                    0 <= items <= 0xffff_ffff_ffff_ffff,
            ;
            assert(c * items < items * k) by (nonlinear_arith)
                requires
                    c < k,
                    0 < items,
            ;
            vstd::arithmetic::div_mod::lemma_multiply_divide_lt(
                c * items,
                k as int,
                items as int,
            );
            assert(0 <= c * items) by (nonlinear_arith)
                requires
                    0 <= c,
                    0 < items,
            ;
            vstd::arithmetic::div_mod::lemma_div_pos_is_pos(c * items, k as int);
        }
        let pick: u128 = (c as u128) * (items as u128) / (k as u128);
        out.push(pick as usize);
        c += 1;
    }
    out
}

/// `i` is the first of the smallest keys.
pub open spec fn is_nearest(keys: Seq<u32>, i: int) -> bool {
    &&& 0 <= i < keys.len()
    &&& forall|j: int| 0 <= j < keys.len() ==> keys[i] <= #[trigger] keys[j]
    &&& forall|j: int| 0 <= j < i ==> keys[i] < #[trigger] keys[j]
}

/// The cluster of an item: the nearest by the order keys of its distances, the first of
/// equals.
pub fn nearest_centroid(keys: &[u32]) -> (i: usize)
    requires
        keys@.len() > 0,
    ensures
        is_nearest(keys@, i as int),
{
    let mut best: usize = 0;
    let mut c: usize = 1;
    while c < keys.len()
        invariant
            1 <= c <= keys@.len(),
            best < c,
            forall|j: int| 0 <= j < c ==> keys@[best as int] <= #[trigger] keys@[j],
            forall|j: int| 0 <= j < best ==> keys@[best as int] < #[trigger] keys@[j],
        decreases keys@.len() - c,
    {
        if keys[c] < keys[best] {
            best = c;
        }
        c += 1;
    }
    best
}

/// The items among the first `n` that go to a cluster, in their order.
pub open spec fn members_of(assignments: Seq<usize>, c: int, n: int) -> Seq<usize>
    decreases n,
{
    if n <= 0 {
        Seq::empty()
    } else if assignments[n - 1] == c {
        members_of(assignments, c, n - 1).push((n - 1) as usize)
    } else {
        members_of(assignments, c, n - 1)
    }
}

/// The payloads of items.
pub open spec fn payloads_at(payloads: Seq<Seq<u8>>, at: Seq<usize>) -> Seq<Seq<u8>> {
    Seq::new(at.len(), |i: int| payloads[at[i] as int])
}

/// The bytes of payloads.
pub open spec fn byte_views(s: Seq<Vec<u8>>) -> Seq<Seq<u8>> {
    s.map_values(|v: Vec<u8>| v@)
}

/// The items of each cluster.
pub fn assign_members(assignments: &[usize], k: usize) -> (r: Vec<Vec<usize>>)
    requires
        forall|i: int| 0 <= i < assignments@.len() ==> (#[trigger] assignments@[i]) < k,
    ensures
        r@.len() == k,
        forall|c: int|
            0 <= c < k ==> (#[trigger] r@[c])@ == members_of(
                assignments@,
                c,
                assignments@.len() as int,
            ),
{
    let mut out: Vec<Vec<usize>> = Vec::new();
    let mut c: usize = 0;
    while c < k
        invariant
            c <= k,
            out@.len() == c,
            forall|j: int| 0 <= j < c ==> (#[trigger] out@[j])@ == Seq::<usize>::empty(),
        decreases k - c,
    {
        out.push(Vec::new());
        c += 1;
    }
    let mut s: usize = 0;
    while s < assignments.len()
        invariant
            s <= assignments@.len(),
            forall|i: int| 0 <= i < assignments@.len() ==> (#[trigger] assignments@[i]) < k,
            out@.len() == k,
            forall|j: int|
                0 <= j < k ==> (#[trigger] out@[j])@ == members_of(assignments@, j, s as int),
        decreases assignments@.len() - s,
    {
        let a: usize = assignments[s];
        let ghost before = out@;
        out[a].push(s);
        proof {
            assert forall|j: int| 0 <= j < k implies (#[trigger] out@[j])@ == members_of(
                assignments@,
                j,
                s + 1,
            ) by {
                if j != a {
                    assert(out@[j] == before[j]);
                }
            }
        }
        s += 1;
    }
    out
}

/// The sum of the sizes of clusters.
pub open spec fn total_members(assignments: Seq<usize>, k: int, n: int) -> nat
    decreases k,
{
    if k <= 0 {
        0
    } else {
        total_members(assignments, k - 1, n) + members_of(assignments, k - 1, n).len()
    }
}

/// Every item goes to exactly one cluster.
pub proof fn law_clusters_partition_the_items(assignments: Seq<usize>, k: int, n: int)
    requires
        0 <= n <= assignments.len(),
        0 <= k,
        forall|i: int| 0 <= i < n ==> (#[trigger] assignments[i]) < k,
    ensures
        total_members(assignments, k, n) == n,
    decreases n,
{
    if n == 0 {
        lemma_no_members(assignments, k);
    } else {
        law_clusters_partition_the_items(assignments, k, n - 1);
        lemma_one_more(assignments, k, n);
    }
}

proof fn lemma_no_members(assignments: Seq<usize>, k: int)
    ensures
        total_members(assignments, k, 0) == 0,
    decreases k,
{
    if k > 0 {
        lemma_no_members(assignments, k - 1);
    }
}

proof fn lemma_one_more(assignments: Seq<usize>, k: int, n: int)
    requires
        0 < n <= assignments.len(),
    ensures
        total_members(assignments, k, n) == total_members(assignments, k, n - 1) + (if assignments[n
            - 1] < k {
            1nat
        } else {
            0
        }),
    decreases k,
{
    if k > 0 {
        lemma_one_more(assignments, k - 1, n);
    }
}

/// A hit of a cluster: the cluster, the item in it, and the bit pattern of its squared
/// distance.
pub type ClusterHit = (usize, usize, u32);

/// The order keys of hits.
pub open spec fn hit_keys(hits: Seq<ClusterHit>) -> Seq<u32> {
    Seq::new(hits.len(), |i: int| order::total_key(hits[i].2))
}

/// A memory in clusters.
#[derive(Debug)]
pub struct ClusteredMemory {
    payloads: Vec<Vec<Vec<u8>>>,
    count: usize,
}

impl ClusteredMemory {
    /// The payloads of a cluster.
    pub closed spec fn cluster(&self, c: int) -> Seq<Seq<u8>> {
        byte_views(self.payloads@[c]@)
    }

    /// The number of clusters.
    pub closed spec fn clusters(&self) -> nat {
        self.payloads@.len()
    }

    /// The number of items.
    pub closed spec fn count(&self) -> nat {
        self.count as nat
    }

    /// A memory of payloads, each in the cluster that it was assigned to. A cluster without
    /// items stays, so that clusters keep their places.
    pub fn build(payloads: &Vec<Vec<u8>>, assignments: &[usize], num_clusters: usize) -> (m:
        ClusteredMemory)
        requires
            num_clusters > 0,
            payloads@.len() > 0,
            assignments@.len() == payloads@.len(),
            forall|i: int|
                0 <= i < assignments@.len() ==> (#[trigger] assignments@[i]) < num_clusters,
        ensures
            m.clusters() == num_clusters,
            m.count() == payloads@.len(),
            forall|c: int|
                0 <= c < num_clusters ==> #[trigger] m.cluster(c) == payloads_at(
                    byte_views(payloads@),
                    members_of(assignments@, c, assignments@.len() as int),
                ),
    {
        let members = assign_members(assignments, num_clusters);
        let total: usize = payloads.len();
        let ghost all = byte_views(payloads@);
        let mut out: Vec<Vec<Vec<u8>>> = Vec::new();
        let mut c: usize = 0;
        while c < num_clusters
            invariant
                c <= num_clusters,
                members@.len() == num_clusters,
                all == byte_views(payloads@),
                assignments@.len() == total,
                payloads@.len() == total,
                forall|j: int|
                    0 <= j < num_clusters ==> (#[trigger] members@[j])@ == members_of(
                        assignments@,
                        j,
                        assignments@.len() as int,
                    ),
                out@.len() == c,
                forall|j: int|
                    0 <= j < c ==> byte_views((#[trigger] out@[j])@) == payloads_at(
                        all,
                        members_of(assignments@, j, assignments@.len() as int),
                    ),
            decreases num_clusters - c,
        {
            proof {
                lemma_members_in_range(assignments@, c as int, assignments@.len() as int);
            }
            let part = pick_payloads(payloads, &members[c]);
            out.push(part);
            c += 1;
        }
        let m = ClusteredMemory { payloads: out, count: total };
        proof {
            assert forall|j: int| 0 <= j < num_clusters implies #[trigger] m.cluster(j)
                == payloads_at(
                all,
                members_of(assignments@, j, assignments@.len() as int),
            ) by {
                assert(byte_views(out@[j]@) == m.cluster(j));
            }
        }
        m
    }

    /// The number of clusters.
    pub fn num_clusters(&self) -> (n: usize)
        ensures
            n == self.clusters(),
    {
        self.payloads.len()
    }

    /// The number of items.
    pub fn len(&self) -> (n: usize)
        ensures
            n == self.count(),
    {
        self.count
    }

    /// Whether there is no item.
    pub fn is_empty(&self) -> (r: bool)
        ensures
            r == (self.count() == 0),
    {
        self.count == 0
    }

    /// The hits of several clusters in the order of their distances, the first `k` of them;
    /// equal distances keep their order. Distances of different clusters come from different
    /// projections, so their order across clusters is a heuristic.
    pub fn merge(&self, hits: &Vec<ClusterHit>, k: usize) -> (r: Vec<(Vec<u8>, u32)>)
        requires
            forall|i: int|
                0 <= i < hits@.len() ==> (#[trigger] hits@[i]).0 < self.clusters() && hits@[i].1
                    < self.cluster(hits@[i].0 as int).len(),
        ensures
            exists|ranks: Seq<usize>| #[trigger]
                order::stable_ranking(hit_keys(hits@), ranks) && {
                    &&& r@.len() == (if hits@.len() < k {
                        hits@.len()
                    } else {
                        k as nat
                    })
                    &&& forall|i: int|
                        0 <= i < r@.len() ==> {
                            let h = hits@[ranks[i] as int];
                            (#[trigger] r@[i]).0@ == self.cluster(h.0 as int)[h.1 as int]
                                && r@[i].1 == h.2
                        }
                },
    {
        let mut keys: Vec<u32> = Vec::new();
        let mut i: usize = 0;
        while i < hits.len()
            invariant
                i <= hits@.len(),
                keys@.len() == i,
                forall|j: int| 0 <= j < i ==> #[trigger] keys@[j] == order::total_key(hits@[j].2),
            decreases hits@.len() - i,
        {
            keys.push(order::total_order_key(hits[i].2));
            i += 1;
        }
        proof {
            assert(keys@ =~= hit_keys(hits@));
        }
        let ranks = order::stable_order(keys.as_slice());
        let mut out: Vec<(Vec<u8>, u32)> = Vec::new();
        let mut n: usize = 0;
        while n < ranks.len() && n < k
            invariant
                n <= ranks@.len(),
                n <= k,
                ranks@.len() == hits@.len(),
                order::stable_ranking(hit_keys(hits@), ranks@),
                out@.len() == n,
                forall|i: int|
                    0 <= i < hits@.len() ==> (#[trigger] hits@[i]).0 < self.clusters()
                        && hits@[i].1 < self.cluster(hits@[i].0 as int).len(),
                forall|j: int|
                    0 <= j < n ==> {
                        let h = hits@[ranks@[j] as int];
                        (#[trigger] out@[j]).0@ == self.cluster(h.0 as int)[h.1 as int]
                            && out@[j].1 == h.2
                    },
            decreases ranks@.len() - n,
        {
            let at: usize = ranks[n];
            let h = hits[at];
            proof {
                assert(hits@[at as int].0 < self.clusters());
                assert(self.cluster(h.0 as int)[h.1 as int]
                    == self.payloads@[h.0 as int]@[h.1 as int]@);
            }
            out.push((copy_bytes(&self.payloads[h.0][h.1]), h.2));
            n += 1;
        }
        out
    }
}

fn copy_bytes(b: &Vec<u8>) -> (r: Vec<u8>)
    ensures
        r@ == b@,
{
    let mut out: Vec<u8> = Vec::new();
    out.extend_from_slice(b.as_slice());
    out
}

proof fn lemma_members_in_range(assignments: Seq<usize>, c: int, n: int)
    requires
        0 <= n <= assignments.len(),
        n <= usize::MAX,
    ensures
        forall|i: int|
            0 <= i < members_of(assignments, c, n).len() ==> (#[trigger] members_of(
                assignments,
                c,
                n,
            )[i]) < n,
    decreases n,
{
    if n > 0 {
        lemma_members_in_range(assignments, c, n - 1);
        let before = members_of(assignments, c, n - 1);
        let now = members_of(assignments, c, n);
        assert forall|i: int| 0 <= i < now.len() implies (#[trigger] now[i]) < n by {
            if i < before.len() {
                assert(now[i] == before[i]);
            }
        }
    }
}

fn pick_payloads(payloads: &Vec<Vec<u8>>, at: &Vec<usize>) -> (r: Vec<Vec<u8>>)
    requires
        forall|i: int| 0 <= i < at@.len() ==> (#[trigger] at@[i]) < payloads@.len(),
    ensures
        byte_views(r@) == payloads_at(byte_views(payloads@), at@),
{
    let mut out: Vec<Vec<u8>> = Vec::new();
    let mut i: usize = 0;
    while i < at.len()
        invariant
            i <= at@.len(),
            forall|j: int| 0 <= j < at@.len() ==> (#[trigger] at@[j]) < payloads@.len(),
            out@.len() == i,
            forall|j: int| 0 <= j < i ==> (#[trigger] out@[j])@ == payloads@[at@[j] as int]@,
        decreases at@.len() - i,
    {
        out.push(copy_bytes(&payloads[at[i]]));
        i += 1;
    }
    proof {
        assert(byte_views(out@) =~= payloads_at(byte_views(payloads@), at@));
    }
    out
}

/// The clusters that a query is sent to: the nearest by the order keys of its distances,
/// `top_t` of them and one at least.
pub fn route(keys: &[u32], top_t: usize) -> (r: Vec<usize>)
    ensures
        exists|ranks: Seq<usize>| #[trigger]
            order::stable_ranking(keys@, ranks) && r@ == ranks.take(
                if top_t < 1 {
                    if keys@.len() < 1 {
                        0int
                    } else {
                        1
                    }
                } else if keys@.len() < top_t {
                    keys@.len() as int
                } else {
                    top_t as int
                },
            ),
{
    let ranks = order::stable_order(keys);
    let wanted: usize = if top_t < 1 {
        1
    } else {
        top_t
    };
    let mut out: Vec<usize> = Vec::new();
    let mut i: usize = 0;
    while i < ranks.len() && i < wanted
        invariant
            i <= ranks@.len(),
            i <= wanted,
            out@ == ranks@.take(i as int),
        decreases ranks@.len() - i,
    {
        out.push(ranks[i]);
        proof {
            assert(ranks@.take(i + 1) =~= ranks@.take(i as int).push(ranks@[i as int]));
        }
        i += 1;
    }
    out
}

/// The members of a cluster are the items that are assigned to it, each once and in their order.
pub proof fn law_members_are_the_assigned(assignments: Seq<usize>, c: int, n: int)
    requires
        0 <= n <= assignments.len() <= usize::MAX,
    ensures
        forall|j: int|
            0 <= j < members_of(assignments, c, n).len() ==> (#[trigger] members_of(
                assignments,
                c,
                n,
            )[j]) < n && assignments[members_of(assignments, c, n)[j] as int] == c,
        forall|i: int|
            0 <= i < n && #[trigger] assignments[i] == c ==> members_of(
                assignments,
                c,
                n,
            ).contains(i as usize),
        forall|a: int, b: int|
            0 <= a < b < members_of(assignments, c, n).len() ==> (#[trigger] members_of(
                assignments,
                c,
                n,
            )[a]) < (#[trigger] members_of(assignments, c, n)[b]),
    decreases n,
{
    if n > 0 {
        law_members_are_the_assigned(assignments, c, n - 1);
        let less = members_of(assignments, c, n - 1);
        let all = members_of(assignments, c, n);
        assert forall|i: int| 0 <= i < n && #[trigger] assignments[i] == c implies all.contains(
            i as usize,
        ) by {
            if i < n - 1 {
                let j = choose|j: int| 0 <= j < less.len() && less[j] == i as usize;
                assert(all[j] == i as usize);
            } else {
                assert(all[less.len() as int] == i as usize);
            }
        }
    }
}

/// The hits of clusters are ranked by their distances, the nearest first; equal ones keep their
/// order.
pub proof fn law_hits_rank_by_distance(hits: Seq<ClusterHit>, ranks: Seq<usize>)
    requires
        order::stable_ranking(hit_keys(hits), ranks),
    ensures
        ranks.len() == hits.len(),
        ranks.no_duplicates(),
        forall|i: int, j: int|
            0 <= i < j < ranks.len() ==> {
                let a = order::total_key(hits[#[trigger] ranks[i] as int].2);
                let b = order::total_key(hits[#[trigger] ranks[j] as int].2);
                a < b || (a == b && ranks[i] < ranks[j])
            },
{
    let keys = hit_keys(hits);
    order::law_ranking_ascends(keys, ranks);
    assert forall|i: int, j: int| 0 <= i < j < ranks.len() implies {
        let a = order::total_key(hits[#[trigger] ranks[i] as int].2);
        let b = order::total_key(hits[#[trigger] ranks[j] as int].2);
        a < b || (a == b && ranks[i] < ranks[j])
    } by {
        assert(keys[ranks[i] as int] == order::total_key(hits[ranks[i] as int].2));
        assert(keys[ranks[j] as int] == order::total_key(hits[ranks[j] as int].2));
    }
}

} // verus!
