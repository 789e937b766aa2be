//! The choices of risk control: which candidate is certified, and which rank is the
//! conformal quantile. The bounds themselves are computed by the caller.
use vstd::prelude::*;

verus! {

/// Every candidate from `i` on is controlled.
pub open spec fn controlled_from(controlled: Seq<bool>, i: int) -> bool {
    forall|j: int| i <= j < controlled.len() ==> #[trigger] controlled[j]
}

/// The smallest candidate such that it and every larger one is controlled, given whether the
/// bound of each candidate is controlled; nothing where the largest is not.
pub fn rcps_select(controlled: &[bool]) -> (r: Option<usize>)
    ensures
        match r {
            Some(i) => i < controlled@.len() && controlled_from(controlled@, i as int) && (i > 0
                ==> !controlled@[i - 1]),
            None => controlled@.len() == 0 || !controlled@[controlled@.len() - 1],
        },
{
    let mut i: usize = controlled.len();
    while i > 0 && controlled[i - 1]
        invariant
            i <= controlled@.len(),
            controlled_from(controlled@, i as int),
        decreases i,
    {
        i -= 1;
    }
    if i < controlled.len() {
        Some(i)
    } else {
        None
    }
}

/// The chosen candidate is the only one that is controlled with every larger one, and whose
/// next smaller one is not.
pub proof fn law_selection_is_the_smallest(controlled: Seq<bool>, i: int, j: int)
    requires
        0 <= i < controlled.len(),
        controlled_from(controlled, i),
        i > 0 ==> !controlled[i - 1],
        0 <= j < controlled.len(),
        controlled_from(controlled, j),
    ensures
        i <= j,
{
    if j < i {
        assert(controlled[i - 1]);
    }
}

/// The number of scores that are no larger than `t`.
pub open spec fn at_most(scores: Seq<u64>, t: u64) -> nat
    decreases scores.len(),
{
    if scores.len() == 0 {
        0
    } else {
        at_most(scores.drop_last(), t) + (if scores.last() <= t {
            1nat
        } else {
            0
        })
    }
}

/// The score is the one of a rank: at least so many scores are no larger, and of no smaller
/// score this is true.
pub open spec fn is_quantile(scores: Seq<u64>, rank: nat, q: u64) -> bool {
    &&& scores.contains(q)
    &&& at_most(scores, q) >= rank
    &&& forall|i: int|
        0 <= i < scores.len() && #[trigger] scores[i] < q ==> at_most(scores, scores[i]) < rank
}

/// The number of scores that are no larger than `t` is that of those which pass the test.
pub proof fn law_at_most_counts(scores: Seq<u64>, t: u64)
    ensures
        at_most(scores, t) == scores.filter(|x: u64| x <= t).len(),
    decreases scores.len(),
{
    reveal(Seq::filter);
    if scores.len() > 0 {
        law_at_most_counts(scores.drop_last(), t);
    }
}

fn count_at_most(scores: &[u64], t: u64) -> (n: usize)
    ensures
        n == at_most(scores@, t),
{
    let mut n: usize = 0;
    let mut i: usize = 0;
    while i < scores.len()
        invariant
            i <= scores@.len(),
            n <= i,
            n == at_most(scores@.take(i as int), t),
        decreases scores@.len() - i,
    {
        proof {
            assert(scores@.take(i + 1).drop_last() =~= scores@.take(i as int));
        }
        if scores[i] <= t {
            n += 1;
        }
        i += 1;
    }
    proof {
        assert(scores@.take(i as int) =~= scores@);
    }
    n
}

proof fn lemma_all_at_most(scores: Seq<u64>, t: u64)
    requires
        forall|i: int| 0 <= i < scores.len() ==> #[trigger] scores[i] <= t,
    ensures
        at_most(scores, t) == scores.len(),
    decreases scores.len(),
{
    if scores.len() > 0 {
        assert(scores[scores.len() - 1] <= t);
        assert forall|i: int| 0 <= i < scores.drop_last().len() implies #[trigger] scores.drop_last()[i]
            <= t by {
            assert(scores[i] <= t);
        }
        lemma_all_at_most(scores.drop_last(), t);
    }
}

/// The calibration score of a rank, from the keys by which the scores are ordered: the place
/// of the score, or nothing where there is no such rank.
pub fn quantile_at(scores: &[u64], rank: usize) -> (r: Option<usize>)
    ensures
        match r {
            Some(i) => i < scores@.len() && 1 <= rank <= scores@.len() && is_quantile(
                scores@,
                rank as nat,
                scores@[i as int],
            ),
            None => rank == 0 || rank > scores@.len(),
        },
{
    if rank == 0 || rank > scores.len() {
        return None;
    }
    let mut best: usize = 0;
    let mut found = false;
    let mut top: usize = 0;
    let mut i: usize = 0;
    while i < scores.len()
        invariant
            i <= scores@.len(),
            1 <= rank <= scores@.len(),
            best < scores@.len(),
            top < scores@.len(),
            forall|j: int| 0 <= j < i ==> #[trigger] scores@[j] <= scores@[top as int],
            found ==> at_most(scores@, scores@[best as int]) >= rank && forall|j: int|
                0 <= j < i && #[trigger] scores@[j] < scores@[best as int] ==> at_most(
                    scores@,
                    scores@[j],
                ) < rank,
            !found ==> forall|j: int|
                0 <= j < i ==> at_most(scores@, #[trigger] scores@[j]) < rank,
        decreases scores@.len() - i,
    {
        if scores[i] > scores[top] {
            top = i;
        }
        if count_at_most(scores, scores[i]) >= rank {
            if !found || scores[i] < scores[best] {
                best = i;
                found = true;
            }
        }
        i += 1;
    }
    proof {
        lemma_all_at_most(scores@, scores@[top as int]);
        assert(at_most(scores@, scores@[top as int]) >= rank);
        assert(scores@.contains(scores@[best as int]));
    }
    Some(best)
}

/// There is no more than one score of a rank.
pub proof fn law_quantile_is_unique(scores: Seq<u64>, rank: nat, a: u64, b: u64)
    requires
        is_quantile(scores, rank, a),
        is_quantile(scores, rank, b),
    ensures
        a == b,
{
    let i = choose|i: int| 0 <= i < scores.len() && scores[i] == a;
    let j = choose|j: int| 0 <= j < scores.len() && scores[j] == b;
    if a < b {
        assert(scores[i] < b);
    } else if b < a {
        assert(scores[j] < a);
    }
}

} // verus!
