//! What the sharded memories share: grouping items by region, listing regions in order, and
//! merging the hits of several regions.
use crate::hybrid::{Hit, HitView};
use crate::hybrid;
use crate::order;
use crate::text;
use vstd::prelude::*;

verus! {

/// The items of one region.
#[derive(Debug)]
pub struct Group {
    /// The region.
    pub region: String,
    /// The places of its items, in their order.
    pub items: Vec<usize>,
}

/// The places of a region among the first `n` names.
pub open spec fn places_of(names: Seq<Seq<char>>, region: Seq<char>, n: int) -> Seq<usize>
    decreases n,
{
    if n <= 0 {
        Seq::empty()
    } else if names[n - 1] == region {
        places_of(names, region, n - 1).push((n - 1) as usize)
    } else {
        places_of(names, region, n - 1)
    }
}

/// The regions among the first `n` names, each once, in the order in which they come.
pub open spec fn regions_of(names: Seq<Seq<char>>, n: int) -> Seq<Seq<char>>
    decreases n,
{
    if n <= 0 {
        Seq::empty()
    } else if regions_of(names, n - 1).contains(names[n - 1]) {
        regions_of(names, n - 1)
    } else {
        regions_of(names, n - 1).push(names[n - 1])
    }
}

/// A list of places holds every place of a region, and no other, in their order.
pub open spec fn lists_region(names: Seq<Seq<char>>, region: Seq<char>, items: Seq<usize>) -> bool {
    &&& forall|i: int|
        0 <= i < names.len() && #[trigger] names[i] == region ==> items.contains(i as usize)
    &&& forall|k: int|
        0 <= k < items.len() ==> (#[trigger] items[k]) < names.len() && names[items[k] as int]
            == region
    &&& forall|j: int, k: int| 0 <= j < k < items.len() ==> #[trigger] items[j] < #[trigger] items[k]
}

/// Groups share out the items: every item is in the group of its region, every group has an
/// item and holds those of its region alone, no two groups have one region, and they stand in
/// the order of their first items.
pub open spec fn shares_out(
    names: Seq<Seq<char>>,
    regions: Seq<Seq<char>>,
    items: Seq<Seq<usize>>,
) -> bool {
    &&& items.len() == regions.len()
    &&& forall|i: int| 0 <= i < names.len() ==> regions.contains(#[trigger] names[i])
    &&& forall|g: int| 0 <= g < regions.len() ==> lists_region(names, #[trigger] regions[g], items[g])
    &&& forall|g: int| 0 <= g < items.len() ==> (#[trigger] items[g]).len() > 0
    &&& forall|g: int, h: int|
        0 <= g < h < regions.len() ==> #[trigger] regions[g] != #[trigger] regions[h]
    &&& forall|g: int, h: int|
        0 <= g < h < items.len() ==> (#[trigger] items[g])[0] < (#[trigger] items[h])[0]
}

/// The regions and the items of groups.
pub open spec fn group_regions(groups: Seq<Group>) -> Seq<Seq<char>> {
    groups.map_values(|g: Group| g.region@)
}

/// The items of groups.
pub open spec fn group_items(groups: Seq<Group>) -> Seq<Seq<usize>> {
    groups.map_values(|g: Group| g.items@)
}

proof fn lemma_places(names: Seq<Seq<char>>, region: Seq<char>, n: int)
    requires
        0 <= n <= names.len() <= usize::MAX,
    ensures
        forall|i: int|
            0 <= i < n && #[trigger] names[i] == region ==> places_of(names, region, n).contains(
                i as usize,
            ),
        forall|k: int|
            0 <= k < places_of(names, region, n).len() ==> (#[trigger] places_of(names, region, n)[k])
                < n && names[places_of(names, region, n)[k] as int] == region,
        forall|j: int, k: int|
            0 <= j < k < places_of(names, region, n).len() ==> #[trigger] places_of(
                names,
                region,
                n,
            )[j] < #[trigger] places_of(names, region, n)[k],
    decreases n,
{
    if n > 0 {
        lemma_places(names, region, n - 1);
        let p = places_of(names, region, n - 1);
        let s = places_of(names, region, n);
        assert forall|i: int| 0 <= i < n && #[trigger] names[i] == region implies s.contains(
            i as usize,
        ) by {
            if i < n - 1 {
                assert(p.contains(i as usize));
                let k = choose|k: int| 0 <= k < p.len() && p[k] == i as usize;
                assert(s[k] == i as usize);
            } else {
                assert(s[p.len() as int] == i as usize);
            }
        }
        assert forall|k: int| 0 <= k < s.len() implies (#[trigger] s[k]) < n && names[s[k] as int]
            == region by {
            if k < p.len() {
                assert(s[k] == p[k]);
            }
        }
        assert forall|j: int, k: int| 0 <= j < k < s.len() implies #[trigger] s[j]
            < #[trigger] s[k] by {
            assert(s[j] == p[j]);
            if k < p.len() {
                assert(s[k] == p[k]);
            }
        }
    }
}

/// Each region stands where its first place comes among the first places of the others.
proof fn lemma_first_places(names: Seq<Seq<char>>, n: int)
    requires
        0 <= n <= names.len() <= usize::MAX,
    ensures
        forall|g: int|
            0 <= g < regions_of(names, n).len() ==> places_of(
                names,
                #[trigger] regions_of(names, n)[g],
                n,
            ).len() > 0,
        forall|g: int, h: int|
            0 <= g < h < regions_of(names, n).len() ==> places_of(
                names,
                #[trigger] regions_of(names, n)[g],
                n,
            )[0] < places_of(names, #[trigger] regions_of(names, n)[h], n)[0],
    decreases n,
{
    if n > 0 {
        lemma_first_places(names, n - 1);
        let p = regions_of(names, n - 1);
        let s = regions_of(names, n);
        let last = names[n - 1];
        assert forall|g: int| 0 <= g < p.len() implies #[trigger] s[g] == p[g] && places_of(
            names,
            s[g],
            n,
        ).len() > 0 && places_of(names, s[g], n)[0] == places_of(names, s[g], n - 1)[0] by {}
        if !p.contains(last) {
            lemma_no_places(names, last, n - 1);
            assert(places_of(names, last, n)[0] == n - 1);
        }
        assert forall|g: int, h: int| 0 <= g < h < s.len() implies places_of(
            names,
            #[trigger] s[g],
            n,
        )[0] < places_of(names, #[trigger] s[h], n)[0] by {
            assert(s[g] == p[g]);
            if h < p.len() {
                assert(s[h] == p[h]);
            } else {
                lemma_places(names, p[g], n - 1);
                assert(places_of(names, p[g], n - 1)[0] < n - 1);
            }
        }
    }
}

/// Grouping loses no item and invents none: every item is in the group of its region, and in
/// no other, in the order of the items.
pub proof fn law_groups_share_out_the_items(names: Seq<Seq<char>>)
    requires
        names.len() <= usize::MAX,
    ensures
        ({
            let regions = regions_of(names, names.len() as int);
            shares_out(
                names,
                regions,
                regions.map_values(|r: Seq<char>| places_of(names, r, names.len() as int)),
            )
        }),
{
    let n = names.len() as int;
    let regions = regions_of(names, n);
    let items = regions.map_values(|r: Seq<char>| places_of(names, r, n));
    lemma_regions_of(names, n);
    lemma_first_places(names, n);
    assert forall|g: int| 0 <= g < regions.len() implies lists_region(
        names,
        #[trigger] regions[g],
        items[g],
    ) by {
        lemma_places(names, regions[g], n);
    }
    assert forall|g: int| 0 <= g < items.len() implies (#[trigger] items[g]).len() > 0 by {
        assert(items[g] == places_of(names, regions[g], n));
    }
    assert forall|g: int, h: int| 0 <= g < h < items.len() implies (#[trigger] items[g])[0] < (
    #[trigger] items[h])[0] by {
        assert(items[g] == places_of(names, regions[g], n));
        assert(items[h] == places_of(names, regions[h], n));
    }
}

proof fn lemma_regions_of(names: Seq<Seq<char>>, n: int)
    requires
        0 <= n <= names.len(),
    ensures
        regions_of(names, n).no_duplicates(),
        forall|i: int| 0 <= i < n ==> regions_of(names, n).contains(#[trigger] names[i]),
    decreases n,
{
    if n > 0 {
        lemma_regions_of(names, n - 1);
        let p = regions_of(names, n - 1);
        let s = regions_of(names, n);
        assert forall|i: int| 0 <= i < n implies s.contains(#[trigger] names[i]) by {
            if i < n - 1 {
                let j = choose|j: int| 0 <= j < p.len() && p[j] == names[i];
                assert(s[j] == names[i]);
            } else if !p.contains(names[n - 1]) {
                assert(s[p.len() as int] == names[n - 1]);
            }
        }
    }
}

/// Groups items by the regions that are named for them; items keep their order.
pub fn group_by_region(names: &Vec<String>) -> (groups: Vec<Group>)
    ensures
        groups@.len() == regions_of(text::text_views(names@), names@.len() as int).len(),
        forall|g: int|
            0 <= g < groups@.len() ==> {
                &&& (#[trigger] groups@[g]).region@ == regions_of(
                    text::text_views(names@),
                    names@.len() as int,
                )[g]
                &&& groups@[g].items@ == places_of(
                    text::text_views(names@),
                    groups@[g].region@,
                    names@.len() as int,
                )
            },
        shares_out(text::text_views(names@), group_regions(groups@), group_items(groups@)),
{
    let mut groups: Vec<Group> = Vec::new();
    let ghost all = text::text_views(names@);
    let mut i: usize = 0;
    while i < names.len()
        invariant
            i <= names@.len(),
            all == text::text_views(names@),
            groups@.len() == regions_of(all, i as int).len(),
            forall|g: int|
                0 <= g < groups@.len() ==> {
                    &&& (#[trigger] groups@[g]).region@ == regions_of(all, i as int)[g]
                    &&& groups@[g].items@ == places_of(all, groups@[g].region@, i as int)
                },
        decreases names@.len() - i,
    {
        let ghost before = groups@;
        let ghost seen = regions_of(all, i as int);
        proof {
            assert(all[i as int] == names@[i as int]@);
            lemma_regions_of(all, i as int);
        }
        let mut g: usize = 0;
        let n: usize = groups.len();
        while g < n && !text::text_equal(groups[g].region.as_str(), names[i].as_str())
            invariant
                g <= n,
                n == groups@.len(),
                i < names@.len(),
                forall|h: int| 0 <= h < g ==> (#[trigger] groups@[h]).region@ != names@[i as int]@,
            decreases n - g,
        {
            g += 1;
        }
        if g < n {
            groups[g].items.push(i);
            proof {
                assert(before[g as int].region@ == seen[g as int]);
                assert(seen.contains(all[i as int]));
                assert forall|h: int| 0 <= h < groups@.len() implies {
                    &&& (#[trigger] groups@[h]).region@ == regions_of(all, i + 1)[h]
                    &&& groups@[h].items@ == places_of(all, groups@[h].region@, i + 1)
                } by {
                    assert(before[h].region@ == seen[h]);
                    assert(groups@[h].region@ == before[h].region@);
                    if h != g {
                        assert(groups@[h] == before[h]);
                        assert(seen[h] != seen[g as int]);
                    }
                }
            }
        } else {
            let mut items: Vec<usize> = Vec::new();
            items.push(i);
            proof {
                assert(!seen.contains(all[i as int])) by {
                    if seen.contains(all[i as int]) {
                        let h = choose|h: int| 0 <= h < seen.len() && seen[h] == all[i as int];
                        assert(before[h].region@ == seen[h]);
                    }
                }
                lemma_no_places(all, all[i as int], i as int);
                assert(items@ =~= places_of(all, all[i as int], i + 1));
            }
            groups.push(Group { region: names[i].as_str().to_owned(), items });
            proof {
                assert forall|h: int| 0 <= h < groups@.len() implies {
                    &&& (#[trigger] groups@[h]).region@ == regions_of(all, i + 1)[h]
                    &&& groups@[h].items@ == places_of(all, groups@[h].region@, i + 1)
                } by {
                    if h < before.len() {
                        assert(groups@[h] == before[h]);
                        assert(before[h].region@ == seen[h]);
                    }
                }
            }
        }
        i += 1;
    }
    proof {
        law_groups_share_out_the_items(all);
        let regions = regions_of(all, all.len() as int);
        assert(group_regions(groups@) =~= regions);
        assert(group_items(groups@) =~= regions.map_values(
            |r: Seq<char>| places_of(all, r, all.len() as int),
        ));
    }
    groups
}

/// A region that is not among the first names has no places there.
proof fn lemma_no_places(names: Seq<Seq<char>>, region: Seq<char>, n: int)
    requires
        0 <= n <= names.len(),
        !regions_of(names, n).contains(region),
    ensures
        places_of(names, region, n) == Seq::<usize>::empty(),
    decreases n,
{
    if n > 0 {
        let p = regions_of(names, n - 1);
        if p.contains(region) {
            let j = choose|j: int| 0 <= j < p.len() && p[j] == region;
            assert(regions_of(names, n)[j] == region);
        }
        if names[n - 1] == region {
            lemma_regions_of(names, n);
            assert(regions_of(names, n).contains(names[n - 1]));
        }
        lemma_no_places(names, region, n - 1);
    }
}

/// The text stands no later than the other in the order of their bytes.
pub open spec fn not_after(a: Seq<char>, b: Seq<char>) -> bool {
    !text::text_below(b, a)
}

/// The regions in the order of their bytes.
pub fn sorted_regions(names: Vec<String>) -> (r: Vec<String>)
    ensures
        r@.to_multiset() == names@.to_multiset(),
        forall|i: int, j: int|
            0 <= i < j < r@.len() ==> not_after((#[trigger] r@[i])@, (#[trigger] r@[j])@),
{
    let ghost all = names@;
    let mut left = names;
    let mut out: Vec<String> = Vec::new();
    proof {
        vstd::seq_lib::lemma_multiset_commutative(left@, out@);
        assert(left@ + out@ =~= all);
    }
    while left.len() > 0
        invariant
            (left@ + out@).to_multiset() == all.to_multiset(),
            forall|i: int, j: int|
                0 <= i < j < out@.len() ==> not_after((#[trigger] out@[i])@, (#[trigger] out@[j])@),
        decreases left@.len(),
    {
        let ghost before = left@;
        let ghost sorted = out@;
        if let Some(x) = left.pop() {
            let mut at: usize = out.len();
            while at > 0 && text::text_before(x.as_str(), out[at - 1].as_str())
                invariant
                    at <= out@.len(),
                    forall|a: int|
                        at <= a < out@.len() ==> text::text_below(x@, (#[trigger] out@[a])@),
                decreases at,
            {
                at -= 1;
            }
            out.insert(at, x);
            proof {
                assert forall|i: int, j: int| 0 <= i < j < out@.len() implies not_after(
                    (#[trigger] out@[i])@,
                    (#[trigger] out@[j])@,
                ) by {
                    if i < at && j < at {
                        assert(out@[i] == sorted[i] && out@[j] == sorted[j]);
                    } else if i < at && j == at {
                        assert(out@[i] == sorted[i]);
                        if i < at - 1 {
                            assert(not_after(sorted[i]@, sorted[at - 1]@));
                            text::law_text_order(x@, sorted[i]@, sorted[at - 1]@);
                            text::law_text_order(sorted[i]@, sorted[at - 1]@, x@);
                        }
                    } else if i < at {
                        assert(out@[i] == sorted[i] && out@[j] == sorted[j - 1]);
                    } else if i == at {
                        assert(out@[j] == sorted[j - 1]);
                        text::law_text_order(x@, sorted[j - 1]@, x@);
                    } else {
                        assert(out@[i] == sorted[i - 1] && out@[j] == sorted[j - 1]);
                    }
                }
                lemma_moved(before, sorted, at as int);
                assert(left@ =~= before.drop_last());
                assert(out@ =~= sorted.insert(at as int, x));
            }
        }
    }
    proof {
        assert(left@ + out@ =~= out@);
    }
    out
}

/// Different names in the order of their bytes.
pub fn sorted_distinct(names: Vec<String>) -> (r: Vec<String>)
    requires
        forall|i: int, j: int|
            0 <= i < j < names@.len() ==> (#[trigger] names@[i])@ != (#[trigger] names@[j])@,
    ensures
        r@.len() == names@.len(),
        forall|k: Seq<char>| #[trigger]
            text::text_views(r@).contains(k) <==> text::text_views(names@).contains(k),
        forall|i: int, j: int|
            0 <= i < j < r@.len() ==> text::text_below((#[trigger] r@[i])@, (#[trigger] r@[j])@),
{
    let ghost before = names@;
    let r = sorted_regions(names);
    proof {
        broadcast use vstd::seq_lib::group_to_multiset_ensures;

        assert(before.no_duplicates());
        before.lemma_multiset_has_no_duplicates();
        r@.lemma_multiset_has_no_duplicates_conv();
        assert(r@.to_multiset().len() == before.to_multiset().len());
        assert forall|k: Seq<char>| #[trigger] text::text_views(r@).contains(k)
            <==> text::text_views(before).contains(k) by {
            if text::text_views(r@).contains(k) {
                let a = choose|a: int| 0 <= a < r@.len() && text::text_views(r@)[a] == k;
                assert(r@.to_multiset().count(r@[a]) > 0);
                let b = choose|b: int| 0 <= b < before.len() && before[b] == r@[a];
                assert(text::text_views(before)[b] == k);
            }
            if text::text_views(before).contains(k) {
                let b = choose|b: int| 0 <= b < before.len() && text::text_views(before)[b] == k;
                assert(before.to_multiset().count(before[b]) > 0);
                let a = choose|a: int| 0 <= a < r@.len() && r@[a] == before[b];
                assert(text::text_views(r@)[a] == k);
            }
        }
        assert forall|a: int, b: int| 0 <= a < b < r@.len() implies text::text_below(
            (#[trigger] r@[a])@,
            (#[trigger] r@[b])@,
        ) by {
            assert(r@.to_multiset().count(r@[a]) > 0);
            assert(r@.to_multiset().count(r@[b]) > 0);
            assert(before.contains(r@[a]) && before.contains(r@[b]));
            let c = choose|c: int| 0 <= c < before.len() && before[c] == r@[a];
            let d = choose|d: int| 0 <= d < before.len() && before[d] == r@[b];
            assert(c != d) by {
                assert(r@[a] != r@[b]);
            }
            if c < d {
                assert(before[c]@ != before[d]@);
            } else {
                assert(before[d]@ != before[c]@);
            }
            text::law_text_order(r@[a]@, r@[b]@, r@[a]@);
        }
    }
    r
}

/// Moving the last element of one list into another keeps what both hold.
proof fn lemma_moved(a: Seq<String>, b: Seq<String>, at: int)
    requires
        a.len() > 0,
        0 <= at <= b.len(),
    ensures
        (a.drop_last() + b.insert(at, a.last())).to_multiset() == (a + b).to_multiset(),
{
    let x = a.last();
    vstd::seq_lib::lemma_multiset_commutative(a.drop_last(), b.insert(at, x));
    vstd::seq_lib::lemma_multiset_commutative(a, b);
    assert(a =~= a.drop_last().push(x));
    broadcast use vstd::seq_lib::group_to_multiset_ensures;
    assert(a.to_multiset() =~= a.drop_last().to_multiset().insert(x));
    assert(b.insert(at, x).to_multiset() =~= b.to_multiset().insert(x)) by {
        let c = b.insert(at, x);
        assert(c.remove(at) =~= b);
        assert(c[at] == x);
        assert(c.contains(x));
    }
    assert((a.drop_last().to_multiset()).add(b.to_multiset().insert(x)) =~= (
    a.drop_last().to_multiset().insert(x)).add(b.to_multiset()));
}

/// The key by which hits are merged: distances ascend, similarities descend.
pub open spec fn merge_key(score: u32, ascending: bool) -> u32 {
    if ascending {
        order::total_key(score)
    } else {
        (0xffff_ffff - order::total_key(score)) as u32
    }
}

/// The keys of hits.
pub open spec fn merge_keys(hits: Seq<HitView>, ascending: bool) -> Seq<u32> {
    Seq::new(hits.len(), |i: int| merge_key(hits[i].score, ascending))
}

/// `out` is the first `k` of the hits as `r` ranks them.
pub open spec fn merged(
    hits: Seq<HitView>,
    ascending: bool,
    k: nat,
    r: Seq<usize>,
    out: Seq<HitView>,
) -> bool {
    &&& order::stable_ranking(merge_keys(hits, ascending), r)
    &&& out.len() == (if hits.len() < k {
        hits.len()
    } else {
        k
    })
    &&& forall|i: int| 0 <= i < out.len() ==> #[trigger] out[i] == hits[r[i] as int]
}

/// The first `k` hits of several regions in the order of their scores: nearest first by
/// distance, or most similar first. Equal scores keep the order in which they come.
pub fn merge_hits(hits: &Vec<Hit>, k: usize, ascending: bool) -> (out: Vec<Hit>)
    ensures
        exists|r: Seq<usize>| #[trigger]
            merged(
                hybrid::hit_views(hits@),
                ascending,
                k as nat,
                r,
                hybrid::hit_views(out@),
            ),
        is_best(hybrid::hit_views(hits@), ascending, k as nat, hybrid::hit_views(out@)),
{
    let mut keys: Vec<u32> = Vec::new();
    let ghost views = hybrid::hit_views(hits@);
    let mut i: usize = 0;
    while i < hits.len()
        invariant
            i <= hits@.len(),
            views == hybrid::hit_views(hits@),
            keys@.len() == i,
            forall|j: int| 0 <= j < i ==> #[trigger] keys@[j] == merge_key(views[j].score, ascending),
        decreases hits@.len() - i,
    {
        let key: u32 = order::total_order_key(hits[i].score);
        proof {
            assert(views[i as int] == hits@[i as int]@);
        }
        keys.push(
            if ascending {
                key
            } else {
                order::reversed_key(key)
            },
        );
        i += 1;
    }
    proof {
        assert(keys@ =~= merge_keys(views, ascending));
    }
    let ranks = order::stable_order(keys.as_slice());
    let mut out: Vec<Hit> = Vec::new();
    let mut j: usize = 0;
    while j < ranks.len() && j < k
        invariant
            j <= ranks@.len(),
            j <= k,
            views == hybrid::hit_views(hits@),
            order::stable_ranking(merge_keys(views, ascending), ranks@),
            out@.len() == j,
            forall|a: int| 0 <= a < j ==> (#[trigger] out@[a])@ == views[ranks@[a] as int],
        decreases ranks@.len() - j,
    {
        let at: usize = ranks[j];
        proof {
            assert(views[at as int] == hits@[at as int]@);
        }
        out.push(hybrid::clone_hit(&hits[at]));
        j += 1;
    }
    proof {
        assert(merged(views, ascending, k as nat, ranks@, hybrid::hit_views(out@)));
        law_merge_takes_the_best(views, ascending, k as nat, ranks@, hybrid::hit_views(out@));
    }
    out
}

/// One hit goes ahead of another: its score is better, or the scores are equal and it came first.
pub open spec fn goes_ahead(hits: Seq<HitView>, ascending: bool, i: int, j: int) -> bool {
    let a = order::total_key(hits[i].score);
    let b = order::total_key(hits[j].score);
    if ascending {
        a < b || (a == b && i < j)
    } else {
        a > b || (a == b && i < j)
    }
}

/// `out` are the best hits, which stood at the places `at`: each goes ahead of the next, and of
/// every hit that was left.
pub open spec fn takes_the_best(
    hits: Seq<HitView>,
    ascending: bool,
    at: Seq<usize>,
    out: Seq<HitView>,
) -> bool {
    &&& at.len() == out.len()
    &&& forall|i: int|
        0 <= i < at.len() ==> (#[trigger] at[i]) < hits.len() && out[i] == hits[at[i] as int]
    &&& forall|i: int, j: int|
        0 <= i < j < at.len() ==> goes_ahead(
            hits,
            ascending,
            #[trigger] at[i] as int,
            #[trigger] at[j] as int,
        )
    &&& forall|i: int, h: usize|
        0 <= i < at.len() && h < hits.len() && !(#[trigger] at.contains(h)) ==> goes_ahead(
            hits,
            ascending,
            (#[trigger] at[i]) as int,
            h as int,
        )
}

/// `out` are the best `k` hits, best first, or all where there are fewer.
pub open spec fn is_best(hits: Seq<HitView>, ascending: bool, k: nat, out: Seq<HitView>) -> bool {
    &&& out.len() == (if hits.len() < k {
        hits.len()
    } else {
        k
    })
    &&& exists|at: Seq<usize>| #[trigger] takes_the_best(hits, ascending, at, out)
}

/// Merging takes the best hits of all regions.
pub proof fn law_merge_takes_the_best(
    hits: Seq<HitView>,
    ascending: bool,
    k: nat,
    r: Seq<usize>,
    out: Seq<HitView>,
)
    requires
        hits.len() <= usize::MAX,
        merged(hits, ascending, k, r, out),
    ensures
        is_best(hits, ascending, k, out),
{
    let keys = merge_keys(hits, ascending);
    let at = r.take(out.len() as int);
    order::law_stable_ranking(keys, r, r);
    assert forall|i: int, h: usize|
        0 <= i < at.len() && h < hits.len() && !(#[trigger] at.contains(h)) implies goes_ahead(
        hits,
        ascending,
        (#[trigger] at[i]) as int,
        h as int,
    ) by {
        assert(order::holds_index(r, h as int));
        let p = choose|p: int| 0 <= p < r.len() && r[p] == h;
        if p < at.len() {
            assert(at[p] == h);
        }
        assert(order::before(keys, r[i] as int, r[p] as int));
    }
    assert forall|i: int, j: int| 0 <= i < j < at.len() implies goes_ahead(
        hits,
        ascending,
        #[trigger] at[i] as int,
        #[trigger] at[j] as int,
    ) by {
        assert(order::before(keys, r[i] as int, r[j] as int));
    }
    assert(takes_the_best(hits, ascending, at, out));
}

} // verus!
