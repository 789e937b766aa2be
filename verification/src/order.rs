//! Ordering by integer keys: the total order of floating-point bit patterns, stable
//! index orders, and maxima.
use vstd::prelude::*;

verus! {

/// The key of a 32-bit floating-point bit pattern in the IEEE total order: patterns
/// with the sign bit are complemented, the others get the top bit.
pub open spec fn total_key(bits: u32) -> u32 {
    if bits >= 0x8000_0000 {
        (0xffff_ffff - bits) as u32
    } else {
        (bits + 0x8000_0000) as u32
    }
}

/// Computes the total-order key of a floating-point bit pattern.
pub fn total_order_key(bits: u32) -> (key: u32)
    ensures
        key == total_key(bits),
{
    if bits >= 0x8000_0000 {
        0xffff_ffff - bits
    } else {
        bits + 0x8000_0000
    }
}

/// Distinct bit patterns have distinct keys; among patterns without the sign bit the
/// larger pattern has the larger key, among those with it the smaller key, and every
/// pattern with the sign bit comes before every pattern without it.
pub proof fn law_total_key(a: u32, b: u32)
    ensures
        total_key(a) == total_key(b) <==> a == b,
        a < 0x8000_0000 && b < 0x8000_0000 ==> (total_key(a) < total_key(b) <==> a < b),
        a >= 0x8000_0000 && b >= 0x8000_0000 ==> (total_key(a) < total_key(b) <==> a > b),
        a >= 0x8000_0000 && b < 0x8000_0000 ==> total_key(a) < total_key(b),
{
}

/// The key that reverses an order.
pub fn reversed_key(key: u32) -> (r: u32)
    ensures
        r == 0xffff_ffff - key,
{
    0xffff_ffff - key
}

/// `i` comes before `j`: its key is smaller, or the keys are equal and it is the
/// earlier index.
pub open spec fn before(keys: Seq<u32>, i: int, j: int) -> bool {
    keys[i] < keys[j] || (keys[i] == keys[j] && i < j)
}

/// `r` holds every index of `keys` once, ordered by key, equal keys in their first
/// order.
pub open spec fn stable_ranking(keys: Seq<u32>, r: Seq<usize>) -> bool {
    &&& r.len() == keys.len()
    &&& forall|i: int| 0 <= i < r.len() ==> (#[trigger] r[i]) < keys.len()
    &&& forall|i: int, j: int|
        0 <= i < j < r.len() ==> before(keys, #[trigger] r[i] as int, #[trigger] r[j] as int)
}

/// The indices of `keys`, ordered by key; equal keys keep their order.
pub fn stable_order(keys: &[u32]) -> (r: Vec<usize>)
    ensures
        stable_ranking(keys@, r@),
{
    let mut r: Vec<usize> = Vec::new();
    let mut i: usize = 0;
    while i < keys.len()
        invariant
            i <= keys@.len(),
            r@.len() == i,
            forall|a: int| 0 <= a < r@.len() ==> (#[trigger] r@[a]) < i,
            forall|a: int, b: int|
                0 <= a < b < r@.len() ==> before(
                    keys@,
                    #[trigger] r@[a] as int,
                    #[trigger] r@[b] as int,
                ),
        decreases keys@.len() - i,
    {
        let mut at: usize = r.len();
        while at > 0 && keys[r[at - 1]] > keys[i]
            invariant
                at <= r@.len(),
                i < keys@.len(),
                r@.len() == i,
                forall|a: int| 0 <= a < r@.len() ==> (#[trigger] r@[a]) < i,
                forall|a: int| at <= a < r@.len() ==> keys@[(#[trigger] r@[a]) as int] > keys@[i as int],
            decreases at,
        {
            at -= 1;
        }
        let ghost old_r = r@;
        r.insert(at, i);
        proof {
            assert forall|a: int, b: int| 0 <= a < b < r@.len() implies before(
                keys@,
                #[trigger] r@[a] as int,
                #[trigger] r@[b] as int,
            ) by {
                if a < at && b < at {
                    assert(r@[a] == old_r[a] && r@[b] == old_r[b]);
                } else if a < at && b == at {
                    assert(r@[a] == old_r[a]);
                    if a < at - 1 {
                        assert(before(keys@, old_r[a] as int, old_r[at - 1] as int));
                    }
                } else if a < at {
                    assert(r@[a] == old_r[a] && r@[b] == old_r[b - 1]);
                } else if a == at {
                    assert(r@[b] == old_r[b - 1]);
                } else {
                    assert(r@[a] == old_r[a - 1] && r@[b] == old_r[b - 1]);
                }
            }
        }
        i += 1;
    }
    r
}

/// The index `x` stands somewhere in `r`.
pub open spec fn holds_index(r: Seq<usize>, x: int) -> bool {
    exists|i: int| 0 <= i < r.len() && r[i] == x
}

/// A list of `n` distinct indices below `n` holds each of them.
proof fn lemma_pigeonhole(r: Seq<usize>, n: nat, x: nat)
    requires
        r.len() == n,
        x < n,
        forall|i: int| 0 <= i < n ==> (#[trigger] r[i]) < n,
        forall|i: int, j: int| 0 <= i < j < n ==> #[trigger] r[i] != #[trigger] r[j],
    ensures
        exists|i: int| 0 <= i < n && r[i] == x,
    decreases n,
{
    let last = r[n - 1];
    if last != x {
        let m = (n - 1) as nat;
        // Rename the largest index to the last entry, which leaves the list.
        let s = Seq::new(m, |i: int| if r[i] == m { last } else { r[i] });
        let y: nat = if x == m { last as nat } else { x };
        if last == m {
            assert(forall|i: int| 0 <= i < m ==> s[i] == r[i]);
        }
        assert forall|i: int| 0 <= i < m implies (#[trigger] s[i]) < m by {
            assert(r[i] < n);
            assert(r[i] != r[n - 1]);
        }
        assert forall|i: int, j: int| 0 <= i < j < m implies #[trigger] s[i] != #[trigger] s[j] by {
            assert(r[i] != r[j]);
            assert(r[i] != r[n - 1] && r[j] != r[n - 1]);
        }
        lemma_pigeonhole(s, m, y);
        let i = choose|i: int| 0 <= i < m && s[i] == y;
        assert(r[i] == x) by {
            assert(r[i] != r[n - 1]);
        }
    } else {
        assert(r[n - 1] == x);
    }
}

/// A stable ranking holds every index, and there is only one.
pub proof fn law_stable_ranking(keys: Seq<u32>, r: Seq<usize>, s: Seq<usize>)
    requires
        stable_ranking(keys, r),
        stable_ranking(keys, s),
    ensures
        forall|x: int| 0 <= x < keys.len() ==> #[trigger] holds_index(r, x),
        r == s,
{
    assert forall|x: int| 0 <= x < keys.len() implies #[trigger] holds_index(r, x) by {
        lemma_pigeonhole(r, keys.len(), x as nat);
    }
    assert forall|x: int| 0 <= x < keys.len() implies #[trigger] holds_index(s, x) by {
        lemma_pigeonhole(s, keys.len(), x as nat);
    }
    lemma_rankings_agree(keys, r, s, r.len());
    assert(r =~= s);
}

proof fn lemma_rankings_agree(keys: Seq<u32>, r: Seq<usize>, s: Seq<usize>, n: nat)
    requires
        stable_ranking(keys, r),
        stable_ranking(keys, s),
        n <= keys.len(),
        forall|x: int| 0 <= x < keys.len() ==> #[trigger] holds_index(r, x),
        forall|x: int| 0 <= x < keys.len() ==> #[trigger] holds_index(s, x),
    ensures
        forall|i: int| 0 <= i < n ==> r[i] == s[i],
    decreases n,
{
    if n > 0 {
        lemma_rankings_agree(keys, r, s, (n - 1) as nat);
        let k = n - 1;
        let a = r[k];
        let b = s[k];
        if a != b {
            assert(holds_index(s, a as int) && holds_index(r, b as int));
            let i = choose|i: int| 0 <= i < s.len() && s[i] == a;
            let j = choose|j: int| 0 <= j < r.len() && r[j] == b;
            if i < k {
                assert(r[i] == s[i]);
                assert(before(keys, r[i] as int, r[k] as int));
            }
            if j < k {
                assert(r[j] == s[j]);
                assert(before(keys, s[j] as int, s[k] as int));
            }
            assert(before(keys, s[k] as int, s[i] as int));
            assert(before(keys, r[k] as int, r[j] as int));
        }
    }
}

/// A ranking ascends: no key stands behind a larger one, equal keys stand in their first order, and
/// every index stands in it once.
pub proof fn law_ranking_ascends(keys: Seq<u32>, r: Seq<usize>)
    requires
        stable_ranking(keys, r),
    ensures
        forall|i: int, j: int|
            0 <= i < j < r.len() ==> {
                let a = keys[#[trigger] r[i] as int];
                let b = keys[#[trigger] r[j] as int];
                a < b || (a == b && r[i] < r[j])
            },
        r.no_duplicates(),
        forall|x: int| 0 <= x < keys.len() ==> #[trigger] holds_index(r, x),
{
    law_stable_ranking(keys, r, r);
    assert forall|i: int, j: int| 0 <= i < j < r.len() implies {
        let a = keys[#[trigger] r[i] as int];
        let b = keys[#[trigger] r[j] as int];
        a < b || (a == b && r[i] < r[j])
    } by {
        assert(before(keys, r[i] as int, r[j] as int));
    }
}

} // verus!
