//! The nearest neighbours of a point: a bounded set of the best candidates, and the list that
//! looking at every item gives.
//!
//! Distances are given as integer keys that order as the distances do.
use crate::order;
use vstd::prelude::*;

verus! {

/// A candidate: an item and the key of its distance.
pub type Candidate = (usize, u32);

/// The index of the first candidate with the largest key.
pub open spec fn first_worst(best: Seq<Candidate>) -> int
    decreases best.len(),
{
    if best.len() <= 1 {
        0
    } else {
        let p = first_worst(best.drop_last());
        if best.last().1 > best[p].1 {
            best.len() - 1
        } else {
            p
        }
    }
}

/// The candidates kept after one more is offered: while there is room it joins; then it
/// takes the place of the first worst one, if it is strictly closer.
pub open spec fn offered(best: Seq<Candidate>, k: nat, c: Candidate) -> Seq<Candidate> {
    if best.len() < k {
        best.push(c)
    } else if c.1 < best[first_worst(best)].1 {
        best.update(first_worst(best), c)
    } else {
        best
    }
}

proof fn lemma_first_worst(best: Seq<Candidate>)
    requires
        best.len() > 0,
    ensures
        0 <= first_worst(best) < best.len(),
        forall|i: int| 0 <= i < best.len() ==> (#[trigger] best[i]).1 <= best[first_worst(best)].1,
    decreases best.len(),
{
    if best.len() > 1 {
        lemma_first_worst(best.drop_last());
        assert forall|i: int| 0 <= i < best.len() implies (#[trigger] best[i]).1
            <= best[first_worst(best)].1 by {
            if i < best.len() - 1 {
                assert(best.drop_last()[i] == best[i]);
            }
        }
    }
}

/// A set of at most `k` candidates, the best of those offered.
#[derive(Debug)]
pub struct KnnSet {
    k: usize,
    best: Vec<(usize, u32)>,
}

impl KnnSet {
    /// The number of candidates kept at most.
    pub closed spec fn bound(&self) -> nat {
        self.k as nat
    }

    /// The candidates kept.
    pub closed spec fn entries(&self) -> Seq<Candidate> {
        self.best@
    }

    /// The set keeps at least one candidate and no more than its bound.
    pub open spec fn wf(&self) -> bool {
        self.bound() >= 1 && self.entries().len() <= self.bound()
    }

    /// An empty set for `k` candidates, at least one.
    pub fn new(k: usize) -> (s: KnnSet)
        ensures
            s.wf(),
            s.bound() == (if k == 0 {
                1
            } else {
                k as nat
            }),
            s.entries() == Seq::<Candidate>::empty(),
    {
        let k: usize = if k == 0 {
            1
        } else {
            k
        };
        KnnSet { k, best: Vec::new() }
    }

    /// Whether the set holds as many candidates as it keeps.
    pub fn is_full(&self) -> (r: bool)
        ensures
            r == (self.entries().len() >= self.bound()),
    {
        self.best.len() >= self.k
    }

    /// The index of the first worst candidate.
    fn worst_index(&self) -> (at: usize)
        requires
            self.entries().len() > 0,
        ensures
            at == first_worst(self.entries()),
            at < self.entries().len(),
    {
        let mut at: usize = 0;
        let mut i: usize = 1;
        while i < self.best.len()
            invariant
                1 <= i <= self.best@.len(),
                at < i,
                at == first_worst(self.best@.take(i as int)),
            decreases self.best@.len() - i,
        {
            proof {
                assert(self.best@.take(i + 1).drop_last() =~= self.best@.take(i as int));
            }
            if self.best[i].1 > self.best[at].1 {
                at = i;
            }
            i += 1;
        }
        proof {
            assert(self.best@.take(i as int) =~= self.best@);
        }
        at
    }

    /// The largest key held, once the set is full.
    pub fn worst(&self) -> (r: Option<u32>)
        requires
            self.wf(),
        ensures
            match r {
                Some(w) => self.entries().len() == self.bound() && w == self.entries()[first_worst(
                    self.entries(),
                )].1,
                None => self.entries().len() < self.bound(),
            },
    {
        if !self.is_full() {
            None
        } else {
            let at: usize = self.worst_index();
            Some(self.best[at].1)
        }
    }

    /// Offers a candidate.
    pub fn offer(&mut self, item: usize, key: u32)
        requires
            old(self).wf(),
        ensures
            final(self).wf(),
            final(self).bound() == old(self).bound(),
            final(self).entries() == offered(old(self).entries(), old(self).bound(), (item, key)),
    {
        if self.best.len() < self.k {
            self.best.push((item, key));
            return;
        }
        let at: usize = self.worst_index();
        if key < self.best[at].1 {
            self.best[at] = (item, key);
        }
    }

    /// The candidates kept, nearest first; those with equal keys in the order in which
    /// they are held.
    pub fn into_sorted(self) -> (r: Vec<(usize, u32)>)
        ensures
            sorted_form(self.entries(), r@),
    {
        let mut keys: Vec<u32> = Vec::new();
        let mut i: usize = 0;
        while i < self.best.len()
            invariant
                i <= self.best@.len(),
                keys@ =~= keys_of(self.best@).take(i as int),
            decreases self.best@.len() - i,
        {
            keys.push(self.best[i].1);
            i += 1;
        }
        proof {
            assert(keys@ =~= keys_of(self.best@));
        }
        let ranks = order::stable_order(keys.as_slice());
        let mut out: Vec<(usize, u32)> = Vec::new();
        let mut j: usize = 0;
        while j < ranks.len()
            invariant
                j <= ranks@.len(),
                order::stable_ranking(keys_of(self.best@), ranks@),
                out@.len() == j,
                forall|a: int| 0 <= a < j ==> #[trigger] out@[a] == self.best@[ranks@[a] as int],
            decreases ranks@.len() - j,
        {
            out.push(self.best[ranks[j]]);
            j += 1;
        }
        proof {
            assert(ranked(self.best@, ranks@, out@));
        }
        out
    }
}

/// The keys of candidates.
pub open spec fn keys_of(best: Seq<Candidate>) -> Seq<u32> {
    Seq::new(best.len(), |i: int| best[i].1)
}

/// `out` is `best`, ranked by `r`.
pub open spec fn ranked(best: Seq<Candidate>, r: Seq<usize>, out: Seq<Candidate>) -> bool {
    &&& order::stable_ranking(keys_of(best), r)
    &&& out.len() == best.len()
    &&& forall|i: int| 0 <= i < out.len() ==> #[trigger] out[i] == best[r[i] as int]
}

/// `out` is `best` in the stable order of the keys.
pub open spec fn sorted_form(best: Seq<Candidate>, out: Seq<Candidate>) -> bool {
    exists|r: Seq<usize>| #[trigger] ranked(best, r, out)
}

/// The number of candidates with a key below `t`.
pub open spec fn below(best: Seq<Candidate>, t: int) -> nat
    decreases best.len(),
{
    if best.len() == 0 {
        0
    } else {
        below(best.drop_last(), t) + (if best.last().1 < t {
            1nat
        } else {
            0
        })
    }
}

/// The number of items under `n` that are counted by `who` and nearer than `t`.
pub open spec fn nearer(
    n: nat,
    who: spec_fn(int) -> bool,
    dist: spec_fn(int) -> u32,
    t: int,
) -> nat
    decreases n,
{
    if n == 0 {
        0
    } else {
        nearer((n - 1) as nat, who, dist, t) + (if who(n - 1) && dist(n - 1) < t {
            1nat
        } else {
            0
        })
    }
}

/// The candidates are the `k` best of the items that `who` counts: each is such an item
/// with its own distance, none stands twice, and for every threshold as many of them are
/// nearer as there are such items nearer, up to `k`.
pub open spec fn best_of(
    best: Seq<Candidate>,
    k: nat,
    n: nat,
    who: spec_fn(int) -> bool,
    dist: spec_fn(int) -> u32,
) -> bool {
    &&& forall|i: int|
        0 <= i < best.len() ==> {
            &&& (#[trigger] best[i]).0 < n
            &&& who(best[i].0 as int)
            &&& best[i].1 == dist(best[i].0 as int)
        }
    &&& forall|i: int, j: int|
        0 <= i < j < best.len() ==> (#[trigger] best[i]).0 != (#[trigger] best[j]).0
    &&& forall|t: int|
        #[trigger] below(best, t) == (if nearer(n, who, dist, t) < k {
            nearer(n, who, dist, t)
        } else {
            k
        })
}

proof fn lemma_below_bounds(best: Seq<Candidate>, t: int)
    ensures
        below(best, t) <= best.len(),
        (forall|i: int| 0 <= i < best.len() ==> (#[trigger] best[i]).1 < t) ==> below(best, t)
            == best.len(),
        (exists|i: int| 0 <= i < best.len() && (#[trigger] best[i]).1 >= t) ==> below(best, t)
            < best.len(),
        (forall|i: int| 0 <= i < best.len() ==> (#[trigger] best[i]).1 >= t) ==> below(best, t)
            == 0,
    decreases best.len(),
{
    if best.len() > 0 {
        let p = best.drop_last();
        lemma_below_bounds(p, t);
        assert forall|i: int| 0 <= i < p.len() implies p[i] == best[i] by {}
        if exists|i: int| 0 <= i < best.len() && (#[trigger] best[i]).1 >= t {
            let i = choose|i: int| 0 <= i < best.len() && (#[trigger] best[i]).1 >= t;
            if i < p.len() {
                assert(p[i].1 >= t);
            }
        }
    }
}

proof fn lemma_below_update(best: Seq<Candidate>, i: int, c: Candidate, t: int)
    requires
        0 <= i < best.len(),
    ensures
        below(best.update(i, c), t) + (if best[i].1 < t {
            1nat
        } else {
            0
        }) == below(best, t) + (if c.1 < t {
            1nat
        } else {
            0
        }),
    decreases best.len(),
{
    let u = best.update(i, c);
    if i == best.len() - 1 {
        assert(u.drop_last() =~= best.drop_last());
    } else {
        lemma_below_update(best.drop_last(), i, c, t);
        assert(u.drop_last() =~= best.drop_last().update(i, c));
    }
}

proof fn lemma_nearer_same(
    n: nat,
    a: spec_fn(int) -> bool,
    b: spec_fn(int) -> bool,
    dist: spec_fn(int) -> u32,
    t: int,
)
    requires
        forall|x: int| 0 <= x < n && dist(x) < t ==> #[trigger] a(x) == b(x),
    ensures
        nearer(n, a, dist, t) == nearer(n, b, dist, t),
    decreases n,
{
    if n > 0 {
        lemma_nearer_same((n - 1) as nat, a, b, dist, t);
        assert(dist(n - 1) < t ==> a(n - 1) == b(n - 1));
    }
}

proof fn lemma_nearer_grows(
    n: nat,
    a: spec_fn(int) -> bool,
    b: spec_fn(int) -> bool,
    dist: spec_fn(int) -> u32,
    t: int,
)
    requires
        forall|x: int| 0 <= x < n && #[trigger] a(x) ==> b(x),
    ensures
        nearer(n, a, dist, t) <= nearer(n, b, dist, t),
    decreases n,
{
    if n > 0 {
        lemma_nearer_grows((n - 1) as nat, a, b, dist, t);
        assert(a(n - 1) ==> b(n - 1));
    }
}

proof fn lemma_nearer_one_more(
    n: nat,
    a: spec_fn(int) -> bool,
    b: spec_fn(int) -> bool,
    dist: spec_fn(int) -> u32,
    x: int,
    t: int,
)
    requires
        0 <= x < n,
        !a(x),
        b(x),
        forall|y: int| 0 <= y < n && y != x ==> #[trigger] a(y) == b(y),
    ensures
        nearer(n, b, dist, t) == nearer(n, a, dist, t) + (if dist(x) < t {
            1nat
        } else {
            0
        }),
    decreases n,
{
    if x == n - 1 {
        lemma_nearer_same((n - 1) as nat, a, b, dist, t);
    } else {
        lemma_nearer_one_more((n - 1) as nat, a, b, dist, x, t);
        assert(a(n - 1) == b(n - 1));
    }
}

/// Offering the next item keeps the best of all items counted so far.
pub proof fn law_offer_keeps_the_best(
    best: Seq<Candidate>,
    k: nat,
    n: nat,
    a: spec_fn(int) -> bool,
    b: spec_fn(int) -> bool,
    dist: spec_fn(int) -> u32,
    x: usize,
)
    requires
        k >= 1,
        best.len() <= k,
        best_of(best, k, n, a, dist),
        x < n,
        !a(x as int),
        b(x as int),
        forall|y: int| 0 <= y < n && y != x ==> #[trigger] a(y) == b(y),
    ensures
        best_of(offered(best, k, (x, dist(x as int))), k, n, b, dist),
        offered(best, k, (x, dist(x as int))).len() <= k,
{
    let c: Candidate = (x, dist(x as int));
    let after = offered(best, k, c);
    assert forall|i: int| 0 <= i < best.len() implies (#[trigger] best[i]).0 != x && b(
        best[i].0 as int,
    ) by {
        assert(a(best[i].0 as int) == b(best[i].0 as int) || best[i].0 == x);
    }
    if best.len() > 0 {
        lemma_first_worst(best);
    }
    assert forall|t: int| #[trigger] below(after, t) == (if nearer(n, b, dist, t) < k {
        nearer(n, b, dist, t)
    } else {
        k
    }) by {
        lemma_nearer_one_more(n, a, b, dist, x as int, t);
        assert(below(best, t) == (if nearer(n, a, dist, t) < k {
            nearer(n, a, dist, t)
        } else {
            k
        }));
        lemma_below_bounds(best, t);
        if best.len() < k {
            assert(after.drop_last() =~= best);
        } else {
            let w = first_worst(best);
            assert(best[w].1 >= t ==> below(best, t) < best.len());
            if c.1 < best[w].1 {
                lemma_below_update(best, w, c, t);
            }
        }
    }
}

/// Items that are no nearer than the worst candidate of a full set change nothing.
pub proof fn law_far_items_change_nothing(
    best: Seq<Candidate>,
    k: nat,
    n: nat,
    a: spec_fn(int) -> bool,
    b: spec_fn(int) -> bool,
    dist: spec_fn(int) -> u32,
)
    requires
        k >= 1,
        best.len() == k,
        best_of(best, k, n, a, dist),
        forall|y: int| 0 <= y < n && #[trigger] a(y) ==> b(y),
        forall|y: int|
            0 <= y < n && !#[trigger] a(y) && b(y) ==> dist(y) >= best[first_worst(best)].1,
    ensures
        best_of(best, k, n, b, dist),
{
    lemma_first_worst(best);
    let w = best[first_worst(best)].1;
    assert forall|t: int| #[trigger] below(best, t) == (if nearer(n, b, dist, t) < k {
        nearer(n, b, dist, t)
    } else {
        k
    }) by {
        assert(below(best, t) == (if nearer(n, a, dist, t) < k {
            nearer(n, a, dist, t)
        } else {
            k
        }));
        if t <= w {
            assert forall|x: int| 0 <= x < n && dist(x) < t implies #[trigger] a(x) == b(x) by {}
            lemma_nearer_same(n, a, b, dist, t);
        } else {
            lemma_below_bounds(best, t);
            assert(forall|i: int| 0 <= i < best.len() ==> (#[trigger] best[i]).1 < t);
            lemma_nearer_grows(n, a, b, dist, t);
        }
    }
    assert forall|i: int| 0 <= i < best.len() implies b((#[trigger] best[i]).0 as int) by {
        assert(a(best[i].0 as int));
    }
}

/// What is best of some items is best of the same items, however they are told.
pub proof fn lemma_best_of_same(
    best: Seq<Candidate>,
    k: nat,
    n: nat,
    a: spec_fn(int) -> bool,
    b: spec_fn(int) -> bool,
    dist: spec_fn(int) -> u32,
)
    requires
        best_of(best, k, n, a, dist),
        forall|x: int| 0 <= x < n ==> #[trigger] a(x) == b(x),
    ensures
        best_of(best, k, n, b, dist),
{
    assert forall|t: int| #[trigger] below(best, t) == (if nearer(n, b, dist, t) < k {
        nearer(n, b, dist, t)
    } else {
        k
    }) by {
        lemma_nearer_same(n, a, b, dist, t);
    }
    assert forall|i: int| 0 <= i < best.len() implies b((#[trigger] best[i]).0 as int) by {
        assert(a(best[i].0 as int) == b(best[i].0 as int));
    }
}

/// The first `m` ranks hold the index.
spec fn among(r: Seq<usize>, m: int) -> spec_fn(int) -> bool {
    |x: int| exists|i: int| 0 <= i < m && #[trigger] r[i] == x
}

/// The key of the candidate at an index.
spec fn key_at(best: Seq<Candidate>) -> spec_fn(int) -> u32 {
    |x: int| best[x].1
}

proof fn lemma_below_is_nearer(best: Seq<Candidate>, n: int, who: spec_fn(int) -> bool, t: int)
    requires
        0 <= n <= best.len(),
        forall|x: int| 0 <= x < n ==> #[trigger] who(x),
    ensures
        below(best.take(n), t) == nearer(n as nat, who, key_at(best), t),
    decreases n,
{
    if n > 0 {
        lemma_below_is_nearer(best, n - 1, who, t);
        assert(best.take(n).drop_last() =~= best.take(n - 1));
        assert(who(n - 1));
    }
}

proof fn lemma_ranked_prefix(best: Seq<Candidate>, r: Seq<usize>, out: Seq<Candidate>, m: int, t: int)
    requires
        ranked(best, r, out),
        0 <= m <= out.len(),
    ensures
        below(out.take(m), t) == nearer(best.len(), among(r, m), key_at(best), t),
    decreases m,
{
    let n = best.len();
    if m == 0 {
        assert forall|x: int| 0 <= x < n && key_at(best)(x) < t implies #[trigger] among(r, 0)(x)
            == (|y: int| false)(x) by {}
        lemma_nearer_same(n, among(r, 0), |y: int| false, key_at(best), t);
        lemma_nearer_none(n, |y: int| false, key_at(best), t);
    } else {
        lemma_ranked_prefix(best, r, out, m - 1, t);
        assert(out.take(m).drop_last() =~= out.take(m - 1));
        let x = r[m - 1] as int;
        assert(among(r, m)(x));
        assert(!among(r, m - 1)(x)) by {
            if among(r, m - 1)(x) {
                let i = choose|i: int| 0 <= i < m - 1 && #[trigger] r[i] == x;
                assert(order::before(keys_of(best), r[i] as int, r[m - 1] as int));
            }
        }
        assert forall|y: int| 0 <= y < n && y != x implies #[trigger] among(r, m - 1)(y) == among(
            r,
            m,
        )(y) by {
            if among(r, m)(y) {
                let i = choose|i: int| 0 <= i < m && #[trigger] r[i] == y;
                assert(i < m - 1);
            }
        }
        lemma_nearer_one_more(n, among(r, m - 1), among(r, m), key_at(best), x, t);
    }
}

pub proof fn lemma_nearer_none(n: nat, a: spec_fn(int) -> bool, dist: spec_fn(int) -> u32, t: int)
    requires
        forall|x: int| 0 <= x < n ==> !#[trigger] a(x),
    ensures
        nearer(n, a, dist, t) == 0,
    decreases n,
{
    if n > 0 {
        lemma_nearer_none((n - 1) as nat, a, dist, t);
        assert(!a(n - 1));
    }
}

/// Ranking candidates keeps how many are below each threshold.
proof fn lemma_ranking_keeps_below(best: Seq<Candidate>, r: Seq<usize>, out: Seq<Candidate>, t: int)
    requires
        ranked(best, r, out),
    ensures
        below(out, t) == below(best, t),
{
    let n = best.len() as int;
    lemma_ranked_prefix(best, r, out, n, t);
    order::law_stable_ranking(keys_of(best), r, r);
    assert forall|x: int| 0 <= x < n implies #[trigger] among(r, n)(x) by {
        assert(order::holds_index(r, x));
        let i = choose|i: int| 0 <= i < r.len() && r[i] == x;
        assert(r[i] == x);
    }
    lemma_below_is_nearer(best, n, among(r, n), t);
    assert(best.take(n) =~= best);
    assert(out.take(n) =~= out);
}

proof fn lemma_sorted_below(s: Seq<Candidate>, i: int, t: int)
    requires
        0 <= i < s.len(),
        forall|a: int, b: int| 0 <= a < b < s.len() ==> (#[trigger] s[a]).1 <= (#[trigger] s[b]).1,
    ensures
        below(s, t) > i <==> s[i].1 < t,
    decreases s.len(),
{
    lemma_below_bounds(s, t);
    let p = s.drop_last();
    lemma_below_bounds(p, t);
    assert forall|a: int, b: int| 0 <= a < b < p.len() implies (#[trigger] p[a]).1 <= (
    #[trigger] p[b]).1 by {
        assert(p[a] == s[a] && p[b] == s[b]);
    }
    if i < p.len() {
        lemma_sorted_below(p, i, t);
        if s.last().1 < t {
            assert(s[i].1 <= s[s.len() - 1].1);
        }
    } else {
        if s.last().1 < t {
            assert forall|a: int| 0 <= a < s.len() implies (#[trigger] s[a]).1 < t by {
                if a < s.len() - 1 {
                    assert(s[a].1 <= s[s.len() - 1].1);
                }
            }
        } else {
            assert(s[i].1 >= t);
        }
    }
}

/// Two sorted lists of the `k` best of the same items show the same distances, whatever
/// way the candidates were found.
pub proof fn law_best_distances_are_unique(
    a: Seq<Candidate>,
    b: Seq<Candidate>,
    p: Seq<Candidate>,
    q: Seq<Candidate>,
    k: nat,
    n: nat,
    who: spec_fn(int) -> bool,
    dist: spec_fn(int) -> u32,
)
    requires
        best_of(a, k, n, who, dist),
        best_of(b, k, n, who, dist),
        sorted_form(a, p),
        sorted_form(b, q),
    ensures
        keys_of(p) == keys_of(q),
{
    let r = choose|r: Seq<usize>| #[trigger] ranked(a, r, p);
    let s = choose|s: Seq<usize>| #[trigger] ranked(b, s, q);
    assert forall|t: int| #[trigger] below(p, t) == below(q, t) by {
        lemma_ranking_keeps_below(a, r, p, t);
        lemma_ranking_keeps_below(b, s, q, t);
        assert(below(a, t) == below(b, t));
    }
    lemma_ranked_is_sorted(a, r, p);
    lemma_ranked_is_sorted(b, s, q);
    let top = 0x1_0000_0000int;
    lemma_below_bounds(p, top);
    lemma_below_bounds(q, top);
    assert(below(p, top) == below(q, top));
    assert(p.len() == q.len());
    assert forall|i: int| 0 <= i < p.len() implies p[i].1 == q[i].1 by {
        let x = p[i].1 as int;
        let y = q[i].1 as int;
        lemma_sorted_below(p, i, x);
        lemma_sorted_below(q, i, x);
        lemma_sorted_below(p, i, y);
        lemma_sorted_below(q, i, y);
        assert(below(p, x) == below(q, x));
        assert(below(p, y) == below(q, y));
    }
    assert(keys_of(p) =~= keys_of(q));
}

proof fn lemma_ranked_is_sorted(best: Seq<Candidate>, r: Seq<usize>, out: Seq<Candidate>)
    requires
        ranked(best, r, out),
    ensures
        forall|a: int, b: int|
            0 <= a < b < out.len() ==> (#[trigger] out[a]).1 <= (#[trigger] out[b]).1,
{
    assert forall|a: int, b: int| 0 <= a < b < out.len() implies (#[trigger] out[a]).1 <= (
    #[trigger] out[b]).1 by {
        assert(order::before(keys_of(best), r[a] as int, r[b] as int));
    }
}

/// The candidates kept after the first `m` of the listed items were offered in turn.
pub open spec fn offers(
    best: Seq<Candidate>,
    k: nat,
    items: Seq<usize>,
    keys: Seq<u32>,
    m: int,
) -> Seq<Candidate>
    decreases m,
{
    if m <= 0 {
        best
    } else {
        offered(offers(best, k, items, keys, m - 1), k, (items[m - 1], keys[m - 1]))
    }
}

/// Every index in turn.
pub open spec fn indices(n: nat) -> Seq<usize> {
    Seq::new(n, |i: int| i as usize)
}

/// The items below `m`.
pub open spec fn first_items(m: int) -> spec_fn(int) -> bool {
    |x: int| 0 <= x < m
}

/// The key listed for an item.
pub open spec fn listed(keys: Seq<u32>) -> spec_fn(int) -> u32 {
    |x: int| keys[x]
}

proof fn lemma_all_offered(keys: Seq<u32>, k: nat, m: int)
    requires
        k >= 1,
        0 <= m <= keys.len(),
        keys.len() <= usize::MAX,
    ensures
        best_of(
            offers(Seq::empty(), k, indices(keys.len()), keys, m),
            k,
            keys.len(),
            first_items(m),
            listed(keys),
        ),
        offers(Seq::empty(), k, indices(keys.len()), keys, m).len() <= k,
    decreases m,
{
    let n = keys.len();
    if m == 0 {
        assert forall|t: int| #[trigger] below(Seq::<Candidate>::empty(), t) == (if nearer(
            n,
            first_items(0),
            listed(keys),
            t,
        ) < k {
            nearer(n, first_items(0), listed(keys), t)
        } else {
            k
        }) by {
            lemma_nearer_none(n, first_items(0), listed(keys), t);
        }
    } else {
        lemma_all_offered(keys, k, m - 1);
        law_offer_keeps_the_best(
            offers(Seq::empty(), k, indices(n), keys, m - 1),
            k,
            n,
            first_items(m - 1),
            first_items(m),
            listed(keys),
            (m - 1) as usize,
        );
    }
}

/// The list holds the `k` nearest of all items, nearest first.
pub open spec fn nearest_of(found: Seq<Candidate>, k: nat, distances: Seq<u32>) -> bool {
    exists|best: Seq<Candidate>| #[trigger]
        sorted_form(best, found) && best_of(
            best,
            k,
            distances.len(),
            first_items(distances.len() as int),
            listed(distances),
        )
}

/// The items of candidates.
spec fn in_best(best: Seq<Candidate>) -> spec_fn(int) -> bool {
    |x: int| exists|i: int| 0 <= i < best.len() && (#[trigger] best[i]).0 == x
}

proof fn lemma_below_counts(best: Seq<Candidate>, n: nat, dist: spec_fn(int) -> u32, t: int)
    requires
        forall|i: int|
            0 <= i < best.len() ==> (#[trigger] best[i]).0 < n && best[i].1 == dist(
                best[i].0 as int,
            ),
        forall|i: int, j: int|
            0 <= i < j < best.len() ==> (#[trigger] best[i]).0 != (#[trigger] best[j]).0,
    ensures
        below(best, t) == nearer(n, in_best(best), dist, t),
    decreases best.len(),
{
    let b = in_best(best);
    if best.len() == 0 {
        lemma_nearer_none(n, b, dist, t);
    } else {
        let front = best.drop_last();
        let last = best[best.len() - 1];
        assert forall|i: int| 0 <= i < front.len() implies (#[trigger] front[i]) == best[i] by {}
        lemma_below_counts(front, n, dist, t);
        let a = in_best(front);
        assert(!a(last.0 as int));
        assert(b(last.0 as int));
        assert forall|y: int| 0 <= y < n && y != last.0 implies #[trigger] a(y) == b(y) by {
            if b(y) {
                let i = choose|i: int| 0 <= i < best.len() && (#[trigger] best[i]).0 == y;
                assert(front[i].0 == y);
            }
            if a(y) {
                let i = choose|i: int| 0 <= i < front.len() && (#[trigger] front[i]).0 == y;
                assert(best[i].0 == y);
            }
        }
        lemma_nearer_one_more(n, a, b, dist, last.0 as int, t);
    }
}

proof fn lemma_all_nearer(m: nat, n: nat, dist: spec_fn(int) -> u32, t: int)
    requires
        m <= n,
        t > u32::MAX,
    ensures
        nearer(m, first_items(n as int), dist, t) == m,
    decreases m,
{
    if m > 0 {
        lemma_all_nearer((m - 1) as nat, n, dist, t);
        assert(first_items(n as int)(m - 1));
    }
}

/// A list of items as long as wanted, or of all where there are fewer: each once, with its
/// distance, in the order of the distances.
pub open spec fn true_list(found: Seq<Candidate>, k: nat, distances: Seq<u32>) -> bool {
    &&& found.len() == (if distances.len() < k {
        distances.len()
    } else {
        k
    })
    &&& forall|i: int|
        0 <= i < found.len() ==> (#[trigger] found[i]).0 < distances.len() && found[i].1
            == distances[found[i].0 as int]
    &&& forall|i: int, j: int|
        0 <= i < j < found.len() ==> (#[trigger] found[i]).0 != (#[trigger] found[j]).0
            && found[i].1 <= found[j].1
}

/// The list of the nearest items: as many as wanted, or all where there are fewer; each once,
/// with its distance, nearest first; and no item that is left out is nearer than one listed.
pub proof fn law_nearest_list(found: Seq<Candidate>, k: nat, distances: Seq<u32>)
    requires
        nearest_of(found, k, distances),
    ensures
        true_list(found, k, distances),
        forall|x: int, i: int|
            0 <= x < distances.len() && 0 <= i < found.len() && (forall|j: int|
                0 <= j < found.len() ==> (#[trigger] found[j]).0 != x) ==> (#[trigger] found[i]).1
                <= #[trigger] distances[x],
{
    let n = distances.len();
    let who = first_items(n as int);
    let dist = listed(distances);
    let best = choose|best: Seq<Candidate>| #[trigger]
        sorted_form(best, found) && best_of(best, k, n, who, dist);
    let r = choose|r: Seq<usize>| #[trigger] ranked(best, r, found);
    let t: int = u32::MAX + 1;
    lemma_below_bounds(best, t);
    lemma_all_nearer(n, n, dist, t);
    assert(below(best, t) == best.len());
    lemma_ranked_is_sorted(best, r, found);
    order::law_stable_ranking(keys_of(best), r, r);
    assert forall|i: int, j: int| 0 <= i < j < found.len() implies (#[trigger] found[i]).0 != (
    #[trigger] found[j]).0 by {
        assert(order::before(keys_of(best), r[i] as int, r[j] as int));
        assert(r[i] != r[j]);
        if r[i] < r[j] {
            assert(best[r[i] as int].0 != best[r[j] as int].0);
        } else {
            assert(best[r[j] as int].0 != best[r[i] as int].0);
        }
    }
    assert forall|x: int, i: int|
        0 <= x < distances.len() && 0 <= i < found.len() && (forall|j: int|
            0 <= j < found.len() ==> (#[trigger] found[j]).0 != x) implies (#[trigger] found[i]).1
        <= #[trigger] distances[x] by {
        let d: int = found[i].1 as int;
        if distances[x] < d {
            let a = in_best(best);
            let b = |y: int| a(y) || y == x;
            assert(!a(x)) by {
                if a(x) {
                    let p = choose|p: int| 0 <= p < best.len() && (#[trigger] best[p]).0 == x;
                    assert(order::holds_index(r, p));
                    let q = choose|q: int| 0 <= q < r.len() && r[q] == p;
                    assert(found[q].0 == x);
                }
            }
            lemma_below_counts(best, n, dist, d);
            lemma_nearer_one_more(n, a, b, dist, x, d);
            assert forall|y: int| 0 <= y < n && #[trigger] b(y) implies who(y) by {}
            lemma_nearer_grows(n, b, who, dist, d);
            assert(best[r[i] as int] == found[i]);
            lemma_below_bounds(best, d);
            assert(below(best, d) < k);
        }
    }
}

/// The `k` nearest of all items by looking at each: `distances` holds every item's key.
pub fn nearest_bruteforce(distances: &[u32], k: usize) -> (r: Vec<(usize, u32)>)
    ensures
        k == 0 ==> r@.len() == 0,
        k > 0 ==> exists|best: Seq<Candidate>| #[trigger]
            sorted_form(best, r@) && best == offers(
                Seq::empty(),
                k as nat,
                indices(distances@.len()),
                distances@,
                distances@.len() as int,
            ),
        k > 0 ==> nearest_of(r@, k as nat, distances@),
{
    if k == 0 {
        return Vec::new();
    }
    let mut set = KnnSet::new(k);
    let mut i: usize = 0;
    while i < distances.len()
        invariant
            i <= distances@.len(),
            set.wf(),
            set.bound() == k,
            set.entries() == offers(
                Seq::empty(),
                k as nat,
                indices(distances@.len()),
                distances@,
                i as int,
            ),
        decreases distances@.len() - i,
    {
        set.offer(i, distances[i]);
        i += 1;
    }
    let ghost n: usize = distances.len();
    proof {
        assert(n == distances@.len());
        lemma_all_offered(distances@, k as nat, distances@.len() as int);
    }
    set.into_sorted()
}

/// The candidates are different items out of `n`, each one of `who` and with its distance.
pub open spec fn chosen(
    best: Seq<Candidate>,
    n: nat,
    who: spec_fn(int) -> bool,
    dist: spec_fn(int) -> u32,
) -> bool {
    &&& forall|i: int|
        0 <= i < best.len() ==> {
            &&& (#[trigger] best[i]).0 < n
            &&& who(best[i].0 as int)
            &&& best[i].1 == dist(best[i].0 as int)
        }
    &&& forall|i: int, j: int|
        0 <= i < j < best.len() ==> (#[trigger] best[i]).0 != (#[trigger] best[j]).0
}

/// Some candidate is the item.
pub open spec fn keeps(best: Seq<Candidate>, x: int) -> bool {
    exists|i: int| 0 <= i < best.len() && (#[trigger] best[i]).0 == x
}

/// An item that is offered for the first time leaves the candidates different items with
/// their distances; it is kept while there is room.
pub proof fn lemma_offer_keeps_chosen(
    best: Seq<Candidate>,
    k: nat,
    n: nat,
    a: spec_fn(int) -> bool,
    b: spec_fn(int) -> bool,
    dist: spec_fn(int) -> u32,
    x: usize,
)
    requires
        k >= 1,
        best.len() <= k,
        chosen(best, n, a, dist),
        x < n,
        !a(x as int),
        b(x as int),
        forall|y: int| 0 <= y < n && #[trigger] a(y) ==> b(y),
    ensures
        chosen(offered(best, k, (x, dist(x as int))), n, b, dist),
        offered(best, k, (x, dist(x as int))).len() <= k,
        offered(best, k, (x, dist(x as int))).len() < k ==> offered(best, k, (x, dist(x as int)))
            == best.push((x, dist(x as int))),
{
    let c = (x, dist(x as int));
    let after = offered(best, k, c);
    if best.len() > 0 {
        lemma_first_worst(best);
    }
    assert forall|i: int| 0 <= i < after.len() implies {
        &&& (#[trigger] after[i]).0 < n
        &&& b(after[i].0 as int)
        &&& after[i].1 == dist(after[i].0 as int)
    } by {
        if after[i] != c {
            assert(after[i] == best[i]);
            assert(a(best[i].0 as int));
        }
    }
    assert forall|i: int, j: int| 0 <= i < j < after.len() implies (#[trigger] after[i]).0 != (
    #[trigger] after[j]).0 by {
        if i < best.len() && after[i] == best[i] {
            assert(a(best[i].0 as int));
        }
        if j < best.len() && after[j] == best[j] {
            assert(a(best[j].0 as int));
        }
    }
}

/// Different items that are as many as wanted, or all there are, give a true list when they
/// are sorted.
pub proof fn lemma_chosen_is_a_true_list(
    best: Seq<Candidate>,
    k: nat,
    who: spec_fn(int) -> bool,
    distances: Seq<u32>,
    found: Seq<Candidate>,
)
    requires
        best.len() <= k,
        chosen(best, distances.len(), who, listed(distances)),
        best.len() < k ==> forall|x: int| 0 <= x < distances.len() ==> #[trigger] keeps(best, x),
        sorted_form(best, found),
    ensures
        true_list(found, k, distances),
{
    let n = distances.len();
    let items = best.map_values(|c: Candidate| c.0 as int);
    assert(items.no_duplicates()) by {
        assert forall|i: int, j: int|
            0 <= i < items.len() && 0 <= j < items.len() && i != j implies items[i] != items[j] by {
            if i < j {
                assert(best[i].0 != best[j].0);
            } else {
                assert(best[j].0 != best[i].0);
            }
        }
    }
    items.unique_seq_to_set();
    let all = vstd::set_lib::set_int_range(0, n as int);
    vstd::set_lib::lemma_int_range(0, n as int);
    assert(items.to_set().subset_of(all)) by {
        assert forall|x: int| items.to_set().contains(x) implies all.contains(x) by {
            let i = choose|i: int| 0 <= i < items.len() && items[i] == x;
            assert(best[i].0 < n);
        }
    }
    vstd::set_lib::lemma_len_subset(items.to_set(), all);
    if best.len() < k {
        assert forall|x: int| all.contains(x) implies items.to_set().contains(x) by {
            assert(keeps(best, x));
            let i = choose|i: int| 0 <= i < best.len() && (#[trigger] best[i]).0 == x;
            assert(items[i] == x);
        }
        assert(items.to_set() =~= all);
    }
    let r = choose|r: Seq<usize>| #[trigger] ranked(best, r, found);
    lemma_ranked_is_sorted(best, r, found);
    order::law_stable_ranking(keys_of(best), r, r);
    assert forall|i: int, j: int| 0 <= i < j < found.len() implies (#[trigger] found[i]).0 != (
    #[trigger] found[j]).0 by {
        assert(order::before(keys_of(best), r[i] as int, r[j] as int));
        assert(r[i] != r[j]);
        if r[i] < r[j] {
            assert(best[r[i] as int].0 != best[r[j] as int].0);
        } else {
            assert(best[r[j] as int].0 != best[r[i] as int].0);
        }
    }
}

} // verus!
