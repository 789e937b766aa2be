//! The total of numbers that are listed by name.
use vstd::prelude::*;

verus! {

/// The total of the numbers.
pub open spec fn total(sizes: Map<Seq<char>, nat>) -> nat
    decreases sizes.dom().len(),
{
    if sizes.dom().finite() && sizes.dom().len() > 0 {
        let k = sizes.dom().choose();
        proof {
            assert(sizes.dom().contains(k));
            assert(sizes.remove(k).dom() =~= sizes.dom().remove(k));
        }
        sizes[k] + total(sizes.remove(k))
    } else {
        0
    }
}

/// The total is what one of the numbers adds to the total of the others.
pub proof fn lemma_total_remove(sizes: Map<Seq<char>, nat>, k: Seq<char>)
    requires
        sizes.dom().finite(),
        sizes.contains_key(k),
    ensures
        total(sizes) == sizes[k] + total(sizes.remove(k)),
    decreases sizes.dom().len(),
{
    let c = sizes.dom().choose();
    assert(sizes.dom().contains(c));
    assert(sizes.remove(c).dom() =~= sizes.dom().remove(c));
    assert(sizes.remove(k).dom() =~= sizes.dom().remove(k));
    if c != k {
        assert(sizes.remove(c).remove(k) =~= sizes.remove(k).remove(c));
        lemma_total_remove(sizes.remove(c), k);
        lemma_total_remove(sizes.remove(k), c);
    }
}

/// What the total becomes when one of the numbers is set.
pub proof fn lemma_total_insert(sizes: Map<Seq<char>, nat>, k: Seq<char>, n: nat)
    requires
        sizes.dom().finite(),
    ensures
        total(sizes.insert(k, n)) + (if sizes.contains_key(k) {
            sizes[k]
        } else {
            0
        }) == total(sizes) + n,
{
    let after = sizes.insert(k, n);
    assert(after.dom() =~= sizes.dom().insert(k));
    lemma_total_remove(after, k);
    if sizes.contains_key(k) {
        lemma_total_remove(sizes, k);
        assert(after.remove(k) =~= sizes.remove(k));
    } else {
        assert(after.remove(k) =~= sizes);
    }
}

/// Nothing has no total.
pub proof fn lemma_total_empty(sizes: Map<Seq<char>, nat>)
    requires
        forall|k: Seq<char>| !#[trigger] sizes.contains_key(k),
    ensures
        total(sizes) == 0,
{
    assert(sizes.dom() =~= Set::<Seq<char>>::empty());
}

} // verus!
