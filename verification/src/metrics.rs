//! Ranking metrics, as counts: each metric is a quotient of the numbers given here, and no
//! quotient exceeds one.
use std::collections::HashSet;
use vstd::prelude::*;
use vstd::std_specs::iter::IteratorSpec;

verus! {

broadcast use vstd::std_specs::hash::group_hash_axioms;

/// A hash set holds finitely many items.
proof fn lemma_finite(m: &HashSet<u64>)
    ensures
        m@.finite(),
{
    let keys = vstd::std_specs::hash::spec_hash_keys_iter(m).remaining().unref();
    vstd::seq_lib::seq_to_set_is_finite(keys);
    assert(keys.to_set() == m@);
}

/// The first `k` ranked items, or all where there are fewer.
pub open spec fn top(ranked: Seq<u64>, k: int) -> Seq<u64> {
    if k < ranked.len() {
        ranked.take(k)
    } else {
        ranked
    }
}

/// The relevant items that occur among the first `k` ranked ones.
pub open spec fn found(ranked: Seq<u64>, relevant: Set<u64>, k: int) -> Set<u64> {
    relevant.filter(|id: u64| top(ranked, k).contains(id))
}

/// The number of ranks among the first `k` that hold a relevant item.
pub open spec fn hits(ranked: Seq<u64>, relevant: Set<u64>, k: int) -> nat {
    top(ranked, k).filter(|id: u64| relevant.contains(id)).len()
}

proof fn lemma_found_step(ranked: Seq<u64>, relevant: Set<u64>, i: int)
    requires
        0 <= i < ranked.len(),
    ensures
        relevant.contains(ranked[i]) ==> found(ranked, relevant, i + 1) == found(
            ranked,
            relevant,
            i,
        ).insert(ranked[i]),
        !relevant.contains(ranked[i]) ==> found(ranked, relevant, i + 1) == found(
            ranked,
            relevant,
            i,
        ),
{
    let before = top(ranked, i);
    let after = top(ranked, i + 1);
    assert(after =~= before.push(ranked[i]));
    assert forall|id: u64| after.contains(id) <==> before.contains(id) || id == ranked[i] by {
        if before.contains(id) {
            let j = choose|j: int| 0 <= j < before.len() && before[j] == id;
            assert(after[j] == id);
        }
        assert(after[i] == ranked[i]);
    }
    if relevant.contains(ranked[i]) {
        assert(found(ranked, relevant, i + 1) =~= found(ranked, relevant, i).insert(ranked[i]));
    } else {
        assert(found(ranked, relevant, i + 1) =~= found(ranked, relevant, i));
    }
}

proof fn lemma_found_is_bounded(ranked: Seq<u64>, relevant: Set<u64>, k: int)
    requires
        relevant.finite(),
    ensures
        found(ranked, relevant, k).finite(),
        found(ranked, relevant, k).len() <= relevant.len(),
{
    relevant.lemma_len_filter(|id: u64| top(ranked, k).contains(id));
}

/// The relevant items among the first `k`, each once.
fn collect_found(ranked: &[u64], relevant: &HashSet<u64>, k: usize) -> (r: HashSet<u64>)
    ensures
        r@ == found(ranked@, relevant@, k as int),
{
    let mut seen: HashSet<u64> = HashSet::new();
    let mut i: usize = 0;
    proof {
        assert(seen@ =~= found(ranked@, relevant@, 0));
    }
    while i < ranked.len() && i < k
        invariant
            i <= ranked@.len(),
            i <= k,
            seen@ == found(ranked@, relevant@, i as int),
        decreases ranked@.len() - i,
    {
        proof {
            lemma_found_step(ranked@, relevant@, i as int);
        }
        if relevant.contains(&ranked[i]) {
            seen.insert(ranked[i]);
        }
        i += 1;
    }
    proof {
        assert(top(ranked@, i as int) =~= top(ranked@, k as int));
    }
    seen
}

/// Recall at `k`: the relevant items that occur among the first `k`, of all relevant ones. The
/// numbers are zero of one where nothing is relevant.
pub fn recall_at_k(ranked: &[u64], relevant: &HashSet<u64>, k: usize) -> (r: (usize, usize))
    ensures
        r.1 > 0,
        r.0 <= r.1,
        relevant@.len() == 0 ==> r == (0usize, 1usize),
        relevant@.len() > 0 ==> {
            &&& r.0 == found(ranked@, relevant@, k as int).len()
            &&& r.1 == relevant@.len()
        },
{
    if relevant.len() == 0 {
        return (0, 1);
    }
    proof {
        lemma_finite(relevant);
        lemma_found_is_bounded(ranked@, relevant@, k as int);
    }
    (collect_found(ranked, relevant, k).len(), relevant.len())
}

proof fn lemma_hits_step(ranked: Seq<u64>, relevant: Set<u64>, i: int)
    requires
        0 <= i < ranked.len(),
    ensures
        hits(ranked, relevant, i + 1) == hits(ranked, relevant, i) + (if relevant.contains(
            ranked[i],
        ) {
            1nat
        } else {
            0
        }),
{
    let before = top(ranked, i);
    assert(top(ranked, i + 1) =~= before.push(ranked[i]));
    let p = |id: u64| relevant.contains(id);
    assert(before.push(ranked[i]).drop_last() =~= before);
    reveal(Seq::filter);
}

/// Precision at `k`: the ranks among the first `k` that hold a relevant item, of the first `k`
/// that there are. The numbers are zero of one where there are none.
pub fn precision_at_k(ranked: &[u64], relevant: &HashSet<u64>, k: usize) -> (r: (usize, usize))
    ensures
        r.1 > 0,
        r.0 <= r.1,
        top(ranked@, k as int).len() == 0 ==> r == (0usize, 1usize),
        top(ranked@, k as int).len() > 0 ==> {
            &&& r.0 == hits(ranked@, relevant@, k as int)
            &&& r.1 == top(ranked@, k as int).len()
        },
{
    let depth: usize = if ranked.len() < k {
        ranked.len()
    } else {
        k
    };
    if depth == 0 {
        return (0, 1);
    }
    let mut n: usize = 0;
    let mut i: usize = 0;
    proof {
        reveal(Seq::filter);
    }
    while i < depth
        invariant
            i <= depth <= ranked@.len(),
            n <= i,
            n == hits(ranked@, relevant@, i as int),
        decreases depth - i,
    {
        proof {
            lemma_hits_step(ranked@, relevant@, i as int);
        }
        if relevant.contains(&ranked[i]) {
            n += 1;
        }
        i += 1;
    }
    proof {
        assert(top(ranked@, depth as int) =~= top(ranked@, k as int));
    }
    (n, depth)
}

/// The rank of the first relevant item, from one on; zero where none is relevant. The
/// reciprocal rank is one of it.
pub fn first_relevant_rank(ranked: &[u64], relevant: &HashSet<u64>) -> (r: usize)
    ensures
        r <= ranked@.len(),
        r == 0 ==> forall|i: int| 0 <= i < ranked@.len() ==> !relevant@.contains(#[trigger] ranked@[i]),
        r > 0 ==> relevant@.contains(ranked@[r - 1]) && forall|i: int|
            0 <= i < r - 1 ==> !relevant@.contains(#[trigger] ranked@[i]),
{
    let mut i: usize = 0;
    while i < ranked.len()
        invariant
            i <= ranked@.len(),
            forall|j: int| 0 <= j < i ==> !relevant@.contains(#[trigger] ranked@[j]),
        decreases ranked@.len() - i,
    {
        if relevant.contains(&ranked[i]) {
            return i + 1;
        }
        i += 1;
    }
    0
}

/// The precisions at the ranks where a relevant item first occurs, each as the number of
/// relevant items found by then and the rank; average precision is their sum, of the number of
/// relevant items.
pub open spec fn precisions(ranked: Seq<u64>, relevant: Set<u64>, n: int) -> Seq<(usize, usize)>
    decreases n,
{
    if n <= 0 {
        Seq::empty()
    } else if found(ranked, relevant, n) != found(ranked, relevant, n - 1) {
        precisions(ranked, relevant, n - 1).push(
            (found(ranked, relevant, n).len() as usize, n as usize),
        )
    } else {
        precisions(ranked, relevant, n - 1)
    }
}

/// The precisions at the ranks where a relevant item first occurs: no more than there are
/// relevant items, and none above one.
pub fn precision_steps(ranked: &[u64], relevant: &HashSet<u64>) -> (r: Vec<(usize, usize)>)
    ensures
        r@ == precisions(ranked@, relevant@, ranked@.len() as int),
        r@.len() == found(ranked@, relevant@, ranked@.len() as int).len(),
        r@.len() <= relevant@.len(),
        forall|i: int| 0 <= i < r@.len() ==> 0 < (#[trigger] r@[i]).0 <= r@[i].1,
{
    let mut out: Vec<(usize, usize)> = Vec::new();
    let mut seen: HashSet<u64> = HashSet::new();
    let mut i: usize = 0;
    proof {
        assert(seen@ =~= found(ranked@, relevant@, 0));
    }
    while i < ranked.len()
        invariant
            i <= ranked@.len(),
            seen@ == found(ranked@, relevant@, i as int),
            seen@.len() <= i,
            out@.len() == seen@.len(),
            out@ == precisions(ranked@, relevant@, i as int),
            forall|j: int| 0 <= j < out@.len() ==> 0 < (#[trigger] out@[j]).0 <= out@[j].1,
        decreases ranked@.len() - i,
    {
        proof {
            lemma_found_step(ranked@, relevant@, i as int);
        }
        if relevant.contains(&ranked[i]) {
            let ghost before = seen@;
            proof {
                lemma_finite(&seen);
            }
            if seen.insert(ranked[i]) {
                assert(seen@.contains(ranked@[i as int]) && !before.contains(ranked@[i as int]));
                out.push((seen.len(), i + 1));
            } else {
                assert(seen@ =~= before);
            }
        }
        i += 1;
    }
    proof {
        lemma_finite(relevant);
        lemma_found_is_bounded(ranked@, relevant@, ranked@.len() as int);
    }
    out
}

/// Which ranks hold an item that no earlier rank holds; a gain counts at these.
pub fn first_places(ranked: &[u64]) -> (r: Vec<bool>)
    ensures
        r@.len() == ranked@.len(),
        forall|i: int|
            0 <= i < r@.len() ==> #[trigger] r@[i] == !ranked@.take(i).contains(ranked@[i]),
{
    let mut out: Vec<bool> = Vec::new();
    let mut seen: HashSet<u64> = HashSet::new();
    let mut i: usize = 0;
    proof {
        assert(seen@ =~= ranked@.take(0).to_set());
    }
    while i < ranked.len()
        invariant
            i <= ranked@.len(),
            seen@ == ranked@.take(i as int).to_set(),
            out@.len() == i,
            forall|j: int|
                0 <= j < i ==> #[trigger] out@[j] == !ranked@.take(j).contains(ranked@[j]),
        decreases ranked@.len() - i,
    {
        let ghost before = ranked@.take(i as int);
        out.push(seen.insert(ranked[i]));
        proof {
            assert(ranked@.take(i + 1) =~= before.push(ranked@[i as int]));
            before.lemma_push_to_set_commute(ranked@[i as int]);
            assert(before.to_set().contains(ranked@[i as int]) == before.contains(
                ranked@[i as int],
            ));
        }
        i += 1;
    }
    out
}

/// Looking deeper loses no relevant item.
pub proof fn law_recall_grows(ranked: Seq<u64>, relevant: Set<u64>, j: int, k: int)
    requires
        relevant.finite(),
        0 <= j <= k,
    ensures
        found(ranked, relevant, j).subset_of(found(ranked, relevant, k)),
        found(ranked, relevant, j).len() <= found(ranked, relevant, k).len(),
{
    lemma_found_is_bounded(ranked, relevant, k);
    assert forall|id: u64| found(ranked, relevant, j).contains(id) implies found(
        ranked,
        relevant,
        k,
    ).contains(id) by {
        let t = top(ranked, j);
        let i = choose|i: int| 0 <= i < t.len() && t[i] == id;
        assert(top(ranked, k)[i] == id);
    }
    vstd::set_lib::lemma_len_subset(found(ranked, relevant, j), found(ranked, relevant, k));
}

/// The relevant items that were found by a rank are those that occur up to it; a rank counts as a
/// hit where its item is relevant.
pub proof fn law_found_are_ranked(ranked: Seq<u64>, relevant: Set<u64>, k: int, id: u64)
    requires
        0 <= k,
    ensures
        found(ranked, relevant, k).contains(id) <==> relevant.contains(id) && exists|r: int|
            0 <= r < k && r < ranked.len() && #[trigger] ranked[r] == id,
        hits(ranked, relevant, 0) == 0,
        k < ranked.len() ==> hits(ranked, relevant, k + 1) == hits(ranked, relevant, k) + (
        if relevant.contains(ranked[k]) {
            1nat
        } else {
            0nat
        }),
        k >= ranked.len() ==> hits(ranked, relevant, k) == hits(
            ranked,
            relevant,
            ranked.len() as int,
        ),
{
    let t = top(ranked, k);
    if t.contains(id) {
        let r = choose|r: int| 0 <= r < t.len() && t[r] == id;
        assert(ranked[r] == id);
    }
    if exists|r: int| 0 <= r < k && r < ranked.len() && #[trigger] ranked[r] == id {
        let r = choose|r: int| 0 <= r < k && r < ranked.len() && #[trigger] ranked[r] == id;
        assert(t[r] == id);
    }
    reveal(Seq::filter);
    if k < ranked.len() {
        let u = top(ranked, k + 1);
        assert(u =~= ranked.take(k + 1));
        assert(u.drop_last() =~= ranked.take(k));
        assert(u.last() == ranked[k]);
        assert(t =~= ranked.take(k));
    }
    if ranked.len() > 0 {
        assert(top(ranked, 0).len() == 0);
    }
    assert(top(ranked, ranked.len() as int) =~= ranked);
}

/// A relevant item stands at a rank, counted from one, for the first time.
pub open spec fn first_found_at(ranked: Seq<u64>, relevant: Set<u64>, rank: int) -> bool {
    &&& 1 <= rank <= ranked.len()
    &&& relevant.contains(ranked[rank - 1])
    &&& forall|r: int| 0 <= r < rank - 1 ==> #[trigger] ranked[r] != ranked[rank - 1]
}

/// The precisions are taken at every rank where a relevant item stands for the first time and
/// nowhere else, in the order of the ranks, and count those items.
pub proof fn law_precisions_at_first_occurrences(ranked: Seq<u64>, relevant: Set<u64>, n: int)
    requires
        relevant.finite(),
        0 <= n <= ranked.len() <= usize::MAX,
    ensures
        precisions(ranked, relevant, n).len() == found(ranked, relevant, n).len(),
        forall|i: int|
            0 <= i < precisions(ranked, relevant, n).len() ==> {
                let p = #[trigger] precisions(ranked, relevant, n)[i];
                p.0 == i + 1 && 1 <= p.1 <= n && first_found_at(ranked, relevant, p.1 as int)
            },
        forall|i: int, j: int|
            0 <= i < j < precisions(ranked, relevant, n).len() ==> (#[trigger] precisions(
                ranked,
                relevant,
                n,
            )[i]).1 < (#[trigger] precisions(ranked, relevant, n)[j]).1,
        forall|rank: int|
            1 <= rank <= n && #[trigger] first_found_at(ranked, relevant, rank) ==> exists|i: int|
                0 <= i < precisions(ranked, relevant, n).len() && (#[trigger] precisions(
                    ranked,
                    relevant,
                    n,
                )[i]).1 == rank,
    decreases n,
{
    let p = precisions(ranked, relevant, n);
    let f = found(ranked, relevant, n);
    if n > 0 {
        let q = precisions(ranked, relevant, n - 1);
        let g = found(ranked, relevant, n - 1);
        law_precisions_at_first_occurrences(ranked, relevant, n - 1);
        let id = ranked[n - 1];
        assert forall|x: u64| f.contains(x) <==> g.contains(x) || (x == id && relevant.contains(id)) by {
            law_found_are_ranked(ranked, relevant, n, x);
            law_found_are_ranked(ranked, relevant, n - 1, x);
            if x == id && relevant.contains(id) {
                assert(ranked[n - 1] == x);
            }
        }
        law_found_are_ranked(ranked, relevant, n - 1, id);
        vstd::set_lib::lemma_len_subset(f, relevant);
        vstd::set_lib::lemma_len_subset(g, relevant);
        if first_found_at(ranked, relevant, n) {
            assert(!g.contains(id));
            assert(f.contains(id));
            assert(f =~= g.insert(id));
            assert(p == q.push((f.len() as usize, n as usize)));
            lemma_found_len(ranked, relevant, n);
            assert(p[q.len() as int].1 == n);
            assert forall|rank: int|
                1 <= rank <= n && #[trigger] first_found_at(
                    ranked,
                    relevant,
                    rank,
                ) implies exists|i: int| 0 <= i < p.len() && (#[trigger] p[i]).1 == rank by {
                if rank < n {
                    let i = choose|i: int| 0 <= i < q.len() && (#[trigger] q[i]).1 == rank;
                    assert(p[i] == q[i]);
                }
            }
        } else {
            assert(f =~= g) by {
                if relevant.contains(id) && !g.contains(id) {
                    assert(first_found_at(ranked, relevant, n));
                }
            }
            assert(p == q);
        }
    } else {
        assert(f =~= Set::empty()) by {
            assert forall|x: u64| !f.contains(x) by {
                law_found_are_ranked(ranked, relevant, 0, x);
            }
        }
    }
}

proof fn lemma_found_len(ranked: Seq<u64>, relevant: Set<u64>, n: int)
    requires
        relevant.finite(),
        0 <= n <= ranked.len(),
    ensures
        found(ranked, relevant, n).len() <= n,
        found(ranked, relevant, n).finite(),
    decreases n,
{
    let f = found(ranked, relevant, n);
    if n > 0 {
        lemma_found_len(ranked, relevant, n - 1);
        let g = found(ranked, relevant, n - 1);
        let id = ranked[n - 1];
        assert forall|x: u64| f.contains(x) implies g.insert(id).contains(x) by {
            law_found_are_ranked(ranked, relevant, n, x);
            law_found_are_ranked(ranked, relevant, n - 1, x);
        }
        vstd::set_lib::lemma_len_subset(f, g.insert(id));
    } else {
        assert forall|x: u64| !f.contains(x) by {
            law_found_are_ranked(ranked, relevant, 0, x);
        }
        assert(f =~= Set::empty());
    }
}

} // verus!
