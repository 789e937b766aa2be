//! The branch-and-bound search of the octree for the nearest items, one step at a time.
//!
//! The search says which distances or cell bounds it needs next; the caller measures
//! them and hands their keys back. Cells that cannot hold a closer item than the worst
//! one kept are left out, and the result shows the distances that looking at every item
//! would show.
use crate::knn::{Candidate, KnnSet};
use crate::knn;
use crate::octree::Octree;
use crate::order;
use vstd::prelude::*;

verus! {

/// What a search needs next.
#[derive(Debug)]
pub enum SearchStep {
    /// The distance of each of these items.
    Distances(Vec<usize>),
    /// A lower bound of the distances in the cell of each of these nodes.
    Bounds(Vec<usize>),
    /// Nothing: the search is over.
    Done,
}

/// The nodes of the children of `n` from octant `o` on.
pub open spec fn children_from(tree: &Octree, n: int, o: int) -> Seq<usize>
    decreases 8 - o,
{
    if !(0 <= o < 8) {
        Seq::empty()
    } else {
        (match tree.child(n, o) {
            Some(c) => seq![c],
            None => Seq::empty(),
        }) + children_from(tree, n, o + 1)
    }
}

/// A search for the nearest items.
#[derive(Debug)]
pub struct NearestSearch {
    set: KnnSet,
    stack: Vec<(u32, usize)>,
    asked: Option<usize>,
}

/// The cells still to be looked at: their bounds and nodes, the next one last.
pub type Cells = Seq<(u32, usize)>;

/// The cells left when those at the end that a full set rules out are dropped.
pub open spec fn pruned(best: Seq<Candidate>, k: nat, cells: Cells) -> Cells
    decreases cells.len(),
{
    if cells.len() > 0 && best.len() >= k && cells.last().0 >= best[knn::first_worst(best)].1 {
        pruned(best, k, cells.drop_last())
    } else {
        cells
    }
}

/// `cells` are the children with their bounds, the one with the smallest bound last, and
/// of those with equal bounds the first last.
pub open spec fn queued(children: Seq<usize>, bounds: Seq<u32>, r: Seq<usize>, cells: Cells) -> bool {
    &&& order::stable_ranking(bounds, r)
    &&& cells.len() == children.len()
    &&& forall|i: int|
        0 <= i < cells.len() ==> #[trigger] cells[i] == (
            bounds[r[cells.len() - 1 - i] as int],
            children[r[cells.len() - 1 - i] as int],
        )
}

/// The step asks for the measures of the open node: the distances of a leaf's items, or
/// the bounds of the children of another node.
pub open spec fn asks(tree: &Octree, open: Option<usize>, step: SearchStep) -> bool {
    match open {
        None => step is Done,
        Some(n) => if tree.leaf(n as int) {
            step matches SearchStep::Distances(items) && items@ == tree.held(n as int)
        } else {
            step matches SearchStep::Bounds(nodes) && nodes@ == children_from(tree, n as int, 0)
        },
    }
}

/// The search has dropped the cells that a full set rules out, and opened the next one,
/// where there is one.
pub open spec fn advanced(tree: &Octree, before: &NearestSearch, after: &NearestSearch) -> bool {
    let left = pruned(before.best(), before.wanted(), before.cells());
    &&& after.best() == before.best()
    &&& after.wanted() == before.wanted()
    &&& if left.len() == 0 {
        &&& after.cells() == left
        &&& after.open_node() is None
    } else {
        &&& after.cells() == left.drop_last()
        &&& after.open_node() == Some(left.last().1)
    }
}

/// The search has taken the keys for its open node: the items of a leaf are offered in
/// turn; the children of another node join the cells, nearest last.
pub open spec fn answered(
    tree: &Octree,
    before: &NearestSearch,
    after: &NearestSearch,
    keys: Seq<u32>,
) -> bool {
    let n = before.open_node()->0 as int;
    &&& after.wanted() == before.wanted()
    &&& after.open_node() is None
    &&& if tree.leaf(n) {
        &&& after.cells() == before.cells()
        &&& after.best() == knn::offers(
            before.best(),
            before.wanted(),
            tree.held(n),
            keys,
            keys.len() as int,
        )
    } else {
        &&& after.best() == before.best()
        &&& exists|r: Seq<usize>, added: Cells|
            after.cells() == before.cells() + added && #[trigger] queued(
                children_from(tree, n, 0),
                keys,
                r,
                added,
            )
    }
}

impl NearestSearch {
    /// The candidates kept so far.
    pub closed spec fn best(&self) -> Seq<Candidate> {
        self.set.entries()
    }

    /// The number of candidates wanted.
    pub closed spec fn wanted(&self) -> nat {
        self.set.bound()
    }

    /// The cells still to be looked at.
    pub closed spec fn cells(&self) -> Cells {
        self.stack@
    }

    /// The node whose measures were asked for.
    pub closed spec fn open_node(&self) -> Option<usize> {
        self.asked
    }

    /// The search names nodes of the tree.
    pub open spec fn wf(&self, tree: &Octree) -> bool {
        &&& tree.wf()
        &&& self.wanted() >= 1
        &&& self.best().len() <= self.wanted()
        &&& forall|i: int| 0 <= i < self.cells().len() ==> (#[trigger] self.cells()[i]).1 < tree.size()
        &&& self.open_node() matches Some(n) ==> n < tree.size()
    }

    /// A search for `k` items, at least one, from the root of a tree.
    pub fn new(tree: &Octree, k: usize) -> (s: NearestSearch)
        requires
            tree.wf(),
        ensures
            s.wf(tree),
            s.wanted() == (if k == 0 {
                1
            } else {
                k as nat
            }),
            s.best() == Seq::<Candidate>::empty(),
            s.cells() == seq![(0u32, 0usize)],
            s.open_node() is None,
    {
        proof {
            tree.lemma_root(0);
        }
        let mut stack: Vec<(u32, usize)> = Vec::new();
        stack.push((0, 0));
        let s = NearestSearch { set: KnnSet::new(k), stack, asked: None };
        proof {
            assert(s.cells() =~= seq![(0u32, 0usize)]);
        }
        s
    }

    /// What the search needs next. Cells that cannot improve a full set are dropped first.
    pub fn next(&mut self, tree: &Octree) -> (step: SearchStep)
        requires
            old(self).wf(tree),
            old(self).open_node() is None,
        ensures
            final(self).wf(tree),
            advanced(tree, old(self), final(self)),
            asks(tree, final(self).open_node(), step),
    {
        let ghost k = self.wanted();
        let ghost best = self.best();
        loop
            invariant
                self.wf(tree),
                self.open_node() is None,
                self.best() == best,
                self.wanted() == k,
                best == old(self).best(),
                k == old(self).wanted(),
                pruned(best, k, self.cells()) == pruned(best, k, old(self).cells()),
            decreases self.cells().len(),
        {
            let ghost before = self.cells();
            match self.stack.pop() {
                None => {
                    return SearchStep::Done;
                },
                Some((bound, n)) => {
                    proof {
                        assert(before.last() == (bound, n));
                        assert(self.cells() =~= before.drop_last());
                        assert forall|i: int| 0 <= i < self.cells().len() implies (
                        #[trigger] self.cells()[i]).1 < tree.size() by {
                            assert(before[i] == self.cells()[i]);
                        }
                    }
                    if let Some(worst) = self.set.worst() {
                        if bound >= worst {
                            continue;
                        }
                    }
                    self.asked = Some(n);
                    if tree.node(n).is_leaf() {
                        return SearchStep::Distances(tree.bucket_items(n));
                    } else {
                        return SearchStep::Bounds(children_of(tree, n));
                    }
                },
            }
        }
    }

    /// Takes the keys of what [`next`](Self::next) asked for, in its order.
    pub fn answer(&mut self, tree: &Octree, keys: &[u32])
        requires
            old(self).wf(tree),
            old(self).open_node() matches Some(n) && keys@.len() == (if tree.leaf(n as int) {
                tree.held(n as int).len()
            } else {
                children_from(tree, n as int, 0).len()
            }),
        ensures
            final(self).wf(tree),
            answered(tree, old(self), final(self), keys@),
    {
        if let Some(n) = self.asked {
            self.asked = None;
            if tree.node(n).is_leaf() {
                let items = tree.bucket_items(n);
                let ghost best = self.best();
                let ghost cells = self.cells();
                let mut i: usize = 0;
                while i < items.len()
                    invariant
                        i <= items@.len(),
                        items@.len() == keys@.len(),
                        self.set.wf(),
                        self.wanted() == old(self).wanted(),
                        self.cells() == cells,
                        self.asked is None,
                        self.best() == knn::offers(
                            best,
                            self.wanted(),
                            items@,
                            keys@,
                            i as int,
                        ),
                    decreases items@.len() - i,
                {
                    self.set.offer(items[i], keys[i]);
                    i += 1;
                }
                proof {
                    assert(self.cells() == old(self).cells());
                    assert(self.wf(tree));
                }
            } else {
                let children = children_of(tree, n);
                let ranks = order::stable_order(keys);
                let ghost before = self.cells();
                let ghost m = children@.len() as int;
                let mut i: usize = ranks.len();
                while i > 0
                    invariant
                        i <= ranks@.len(),
                        ranks@.len() == m,
                        m == children@.len(),
                        m == keys@.len(),
                        tree.wf(),
                        self.set.wf(),
                        self.wanted() == old(self).wanted(),
                        self.best() == old(self).best(),
                        self.asked is None,
                        order::stable_ranking(keys@, ranks@),
                        self.cells().len() == before.len() + m - i,
                        forall|j: int| 0 <= j < before.len() ==> #[trigger] self.cells()[j] == before[j],
                        forall|j: int|
                            before.len() <= j < self.cells().len() ==> #[trigger] self.cells()[j]
                                == (
                                keys@[ranks@[m - 1 - (j - before.len())] as int],
                                children@[ranks@[m - 1 - (j - before.len())] as int],
                            ),
                    decreases i,
                {
                    i -= 1;
                    let at: usize = ranks[i];
                    self.stack.push((keys[at], children[at]));
                }
                proof {
                    let added = self.cells().skip(before.len() as int);
                    assert(self.cells() =~= before + added);
                    assert(queued(children@, keys@, ranks@, added)) by {
                        assert forall|j: int| 0 <= j < added.len() implies #[trigger] added[j] == (
                            keys@[ranks@[added.len() - 1 - j] as int],
                            children@[ranks@[added.len() - 1 - j] as int],
                        ) by {
                            assert(added[j] == self.cells()[before.len() + j]);
                        }
                    }
                    assert forall|j: int| 0 <= j < self.cells().len() implies (
                    #[trigger] self.cells()[j]).1 < tree.size() by {
                        if j < before.len() {
                            assert(self.cells()[j] == before[j]);
                            assert(old(self).cells()[j] == before[j]);
                        } else {
                            lemma_child_in_tree(
                                tree,
                                n as int,
                                ranks@[m - 1 - (j - before.len())] as int,
                            );
                        }
                    }
                    assert(self.wf(tree));
                }
            }
        }
    }

    /// The items found, nearest first.
    pub fn into_sorted(self) -> (r: Vec<(usize, u32)>)
        ensures
            knn::sorted_form(self.best(), r@),
    {
        self.set.into_sorted()
    }
}

/// The children of a node, by octant.
fn children_of(tree: &Octree, n: usize) -> (r: Vec<usize>)
    requires
        n < tree.size(),
    ensures
        r@ == children_from(tree, n as int, 0),
{
    let node = tree.node(n);
    let mut out: Vec<usize> = Vec::new();
    let mut o: usize = 0;
    proof {
        assert(Seq::<usize>::empty() + children_from(tree, n as int, 0) =~= children_from(
            tree,
            n as int,
            0,
        ));
    }
    while o < 8
        invariant
            o <= 8,
            n < tree.size(),
            forall|q: int| 0 <= q < 8 ==> (#[trigger] node.children@[q]) == tree.child(n as int, q),
            out@ + children_from(tree, n as int, o as int) == children_from(tree, n as int, 0),
        decreases 8 - o,
    {
        let ghost before = out@;
        let ghost rest = children_from(tree, n as int, o + 1);
        if let Some(c) = node.children[o] {
            out.push(c);
            proof {
                assert(before + (seq![c] + rest) =~= out@ + rest);
            }
        } else {
            proof {
                assert(Seq::<usize>::empty() + rest =~= rest);
            }
        }
        o += 1;
    }
    proof {
        assert(out@ + children_from(tree, n as int, 8) =~= out@);
    }
    out
}

/// The octant of the `i`th child from octant `o` on.
spec fn octant_at(tree: &Octree, n: int, o: int, i: int) -> int
    decreases 8 - o,
{
    if !(0 <= o < 8) {
        8
    } else if tree.child(n, o) is None {
        octant_at(tree, n, o + 1, i)
    } else if i == 0 {
        o
    } else {
        octant_at(tree, n, o + 1, i - 1)
    }
}

/// Each listed child is that of its octant.
proof fn lemma_octant(tree: &Octree, n: int, o: int, i: int)
    requires
        0 <= o <= 8,
        0 <= i < children_from(tree, n, o).len(),
    ensures
        o <= octant_at(tree, n, o, i) < 8,
        tree.child(n, octant_at(tree, n, o, i)) == Some(children_from(tree, n, o)[i]),
    decreases 8 - o,
{
    if o < 8 {
        if tree.child(n, o) is None {
            assert(children_from(tree, n, o) =~= children_from(tree, n, o + 1));
            lemma_octant(tree, n, o + 1, i);
        } else if i > 0 {
            lemma_octant(tree, n, o + 1, i - 1);
        }
    }
}

/// Later listed children have later octants.
proof fn lemma_octants_ascend(tree: &Octree, n: int, o: int, i: int, j: int)
    requires
        0 <= o <= 8,
        0 <= i < j < children_from(tree, n, o).len(),
    ensures
        octant_at(tree, n, o, i) < octant_at(tree, n, o, j),
    decreases 8 - o,
{
    if o < 8 {
        if tree.child(n, o) is None {
            assert(children_from(tree, n, o) =~= children_from(tree, n, o + 1));
            lemma_octants_ascend(tree, n, o + 1, i, j);
        } else if i > 0 {
            lemma_octants_ascend(tree, n, o + 1, i - 1, j - 1);
        } else {
            lemma_octant(tree, n, o + 1, j - 1);
        }
    }
}

/// Every child from octant `o` on is listed.
proof fn lemma_listed(tree: &Octree, n: int, o: int, q: int) -> (i: int)
    requires
        0 <= o <= q < 8,
        tree.child(n, q) is Some,
    ensures
        0 <= i < children_from(tree, n, o).len(),
        children_from(tree, n, o)[i] == tree.child(n, q)->0,
    decreases q - o,
{
    if o == q {
        0
    } else {
        let i = lemma_listed(tree, n, o + 1, q);
        if tree.child(n, o) is None {
            assert(children_from(tree, n, o) =~= children_from(tree, n, o + 1));
            i
        } else {
            i + 1
        }
    }
}

/// A listed child is a node of the tree.
proof fn lemma_child_in_tree(tree: &Octree, n: int, i: int)
    requires
        tree.wf(),
        0 <= n < tree.size(),
        0 <= i < children_from(tree, n, 0).len(),
    ensures
        children_from(tree, n, 0)[i] < tree.size(),
{
    lemma_octant(tree, n, 0, i);
    tree.lemma_child(n, octant_at(tree, n, 0, i));
}

/// No item is below two listed children.
proof fn lemma_children_apart(tree: &Octree, n: int, i: int, j: int, x: int)
    requires
        tree.wf(),
        0 <= n < tree.size(),
        !tree.leaf(n),
        0 <= i < children_from(tree, n, 0).len(),
        0 <= j < children_from(tree, n, 0).len(),
        tree.under(children_from(tree, n, 0)[i] as int).contains(x),
        tree.under(children_from(tree, n, 0)[j] as int).contains(x),
    ensures
        i == j,
{
    tree.law_children_share_the_region(n, x);
    lemma_octant(tree, n, 0, i);
    lemma_octant(tree, n, 0, j);
    if i < j {
        lemma_octants_ascend(tree, n, 0, i, j);
    } else if j < i {
        lemma_octants_ascend(tree, n, 0, j, i);
    }
}

/// The item is below the open node or a cell still to be looked at.
pub open spec fn waits(tree: &Octree, cells: Cells, open: Option<usize>, x: int) -> bool {
    ||| open matches Some(n) && tree.under(n as int).contains(x)
    ||| exists|i: int| 0 <= i < cells.len() && #[trigger] tree.under(cells[i].1 as int).contains(x)
}

/// The items that the search is done with.
pub open spec fn settled(tree: &Octree, cells: Cells, open: Option<usize>) -> spec_fn(int) -> bool {
    |x: int| 0 <= x < tree.count() && !waits(tree, cells, open, x)
}

/// The search is on the way to the nearest items by `dist`: the bound of a waiting cell is
/// no larger than any distance in it, no item waits in two places, and the candidates are
/// the best of the items that the search is done with.
pub open spec fn exact(tree: &Octree, s: &NearestSearch, dist: spec_fn(int) -> u32) -> bool {
    &&& s.wf(tree)
    &&& bounds_hold(tree, s.cells(), dist)
    &&& apart(tree, s.cells(), s.open_node())
    &&& knn::best_of(
        s.best(),
        s.wanted(),
        tree.count(),
        settled(tree, s.cells(), s.open_node()),
        dist,
    )
}

/// No bound is larger than a distance in its cell.
pub open spec fn bounds_hold(tree: &Octree, cells: Cells, dist: spec_fn(int) -> u32) -> bool {
    forall|i: int, x: int|
        0 <= i < cells.len() && #[trigger] tree.under(cells[i].1 as int).contains(x)
            ==> cells[i].0 <= dist(x)
}

/// No item waits in two places.
pub open spec fn apart(tree: &Octree, cells: Cells, open: Option<usize>) -> bool {
    &&& forall|i: int, j: int, x: int|
        0 <= i < j < cells.len() && #[trigger] tree.under(cells[i].1 as int).contains(x)
            ==> !#[trigger] tree.under(cells[j].1 as int).contains(x)
    &&& open matches Some(n) ==> forall|i: int, x: int|
        0 <= i < cells.len() && #[trigger] tree.under(cells[i].1 as int).contains(x)
            ==> !tree.under(n as int).contains(x)
}

/// A new search is exact for every distance.
pub proof fn law_new_search_is_exact(tree: &Octree, s: &NearestSearch, dist: spec_fn(int) -> u32)
    requires
        s.wf(tree),
        s.best() == Seq::<Candidate>::empty(),
        s.cells() == seq![(0u32, 0usize)],
        s.open_node() is None,
    ensures
        exact(tree, s, dist),
{
    let who = settled(tree, s.cells(), s.open_node());
    tree.lemma_root(0);
    tree.law_zooming_narrows(0, 0);
    assert forall|x: int| 0 <= x < tree.count() implies !#[trigger] who(x) by {
        assert(tree.under(0).contains(x));
        assert(tree.under(s.cells()[0].1 as int).contains(x));
    }
    assert forall|t: int| #[trigger] knn::below(s.best(), t) == (if knn::nearer(
        tree.count(),
        who,
        dist,
        t,
    ) < s.wanted() {
        knn::nearer(tree.count(), who, dist, t)
    } else {
        s.wanted()
    }) by {
        knn::lemma_nearer_none(tree.count(), who, dist, t);
    }
}

/// The cells left after pruning are the first ones; only a full set drops any.
proof fn lemma_pruned(best: Seq<Candidate>, k: nat, cells: Cells)
    ensures
        pruned(best, k, cells).len() <= cells.len(),
        pruned(best, k, cells) == cells.take(pruned(best, k, cells).len() as int),
        pruned(best, k, cells).len() < cells.len() ==> best.len() >= k,
    decreases cells.len(),
{
    if cells.len() > 0 && best.len() >= k && cells.last().0 >= best[knn::first_worst(best)].1 {
        let rest = cells.drop_last();
        lemma_pruned(best, k, rest);
        let p = pruned(best, k, rest);
        assert(rest.take(p.len() as int) =~= cells.take(p.len() as int));
    } else {
        assert(cells.take(cells.len() as int) =~= cells);
    }
}

/// Every item that waited in a dropped cell is no nearer than the worst candidate.
proof fn lemma_dropped_are_far(
    tree: &Octree,
    best: Seq<Candidate>,
    k: nat,
    cells: Cells,
    dist: spec_fn(int) -> u32,
)
    requires
        bounds_hold(tree, cells, dist),
    ensures
        forall|i: int, x: int|
            pruned(best, k, cells).len() <= i < cells.len() && #[trigger] tree.under(
                cells[i].1 as int,
            ).contains(x) ==> dist(x) >= best[knn::first_worst(best)].1,
    decreases cells.len(),
{
    if cells.len() > 0 && best.len() >= k && cells.last().0 >= best[knn::first_worst(best)].1 {
        let rest = cells.drop_last();
        assert(bounds_hold(tree, rest, dist)) by {
            assert forall|i: int, x: int|
                0 <= i < rest.len() && #[trigger] tree.under(rest[i].1 as int).contains(
                    x,
                ) implies rest[i].0 <= dist(x) by {
                assert(tree.under(cells[i].1 as int).contains(x));
            }
        }
        lemma_dropped_are_far(tree, best, k, rest, dist);
        let p = pruned(best, k, rest);
        assert forall|i: int, x: int|
            p.len() <= i < cells.len() && #[trigger] tree.under(cells[i].1 as int).contains(
                x,
            ) implies dist(x) >= best[knn::first_worst(best)].1 by {
            if i < rest.len() {
                assert(tree.under(rest[i].1 as int).contains(x));
            }
        }
    }
}

/// Looking for the next cell leaves the first cells and keeps items apart; what was settled
/// stays so, and while the set has room nothing more is.
proof fn lemma_next(tree: &Octree, before: &NearestSearch, after: &NearestSearch)
    requires
        apart(tree, before.cells(), None),
        before.open_node() is None,
        advanced(tree, before, after),
    ensures
        apart(tree, after.cells(), after.open_node()),
        after.cells().len() <= before.cells().len(),
        forall|i: int|
            0 <= i < after.cells().len() ==> #[trigger] after.cells()[i] == before.cells()[i],
        forall|x: int| #[trigger]
            settled(tree, before.cells(), None)(x) ==> settled(
                tree,
                after.cells(),
                after.open_node(),
            )(x),
        pruned(before.best(), before.wanted(), before.cells()).len() == before.cells().len()
            ==> forall|x: int| #[trigger]
            settled(tree, after.cells(), after.open_node())(x) ==> settled(
                tree,
                before.cells(),
                None,
            )(x),
        before.best().len() < before.wanted() ==> pruned(
            before.best(),
            before.wanted(),
            before.cells(),
        ).len() == before.cells().len(),
{
    let cells = before.cells();
    lemma_pruned(before.best(), before.wanted(), cells);
    let left = pruned(before.best(), before.wanted(), cells);
    let a = settled(tree, cells, None);
    let b = settled(tree, after.cells(), after.open_node());
    let m = left.len() as int;
    assert forall|i: int| 0 <= i < after.cells().len() implies #[trigger] after.cells()[i]
        == cells[i] by {
        assert(left[i] == cells[i]);
    }
    if m > 0 {
        assert(left.last() == cells[m - 1]);
    }
    assert(apart(tree, after.cells(), after.open_node())) by {
        assert forall|i: int, j: int, x: int|
            0 <= i < j < after.cells().len() && #[trigger] tree.under(
                after.cells()[i].1 as int,
            ).contains(x) implies !#[trigger] tree.under(after.cells()[j].1 as int).contains(x) by {
            assert(tree.under(cells[i].1 as int).contains(x));
            assert(!tree.under(cells[j].1 as int).contains(x));
        }
        if m > 0 {
            assert forall|i: int, x: int|
                0 <= i < after.cells().len() && #[trigger] tree.under(
                    after.cells()[i].1 as int,
                ).contains(x) implies !tree.under(left.last().1 as int).contains(x) by {
                assert(tree.under(cells[i].1 as int).contains(x));
                assert(!tree.under(cells[m - 1].1 as int).contains(x));
            }
        }
    }
    assert forall|x: int| #[trigger] a(x) implies b(x) by {
        if waits(tree, after.cells(), after.open_node(), x) {
            if m > 0 && tree.under(left.last().1 as int).contains(x) {
                assert(tree.under(cells[m - 1].1 as int).contains(x));
            } else {
                let i = choose|i: int|
                    0 <= i < after.cells().len() && #[trigger] tree.under(
                        after.cells()[i].1 as int,
                    ).contains(x);
                assert(tree.under(cells[i].1 as int).contains(x));
            }
        }
    }
    if m == cells.len() {
        assert forall|x: int| #[trigger] b(x) implies a(x) by {
            if waits(tree, cells, None, x) {
                let i = choose|i: int|
                    0 <= i < cells.len() && #[trigger] tree.under(cells[i].1 as int).contains(x);
                if i < m - 1 {
                    assert(tree.under(after.cells()[i].1 as int).contains(x));
                }
            }
        }
    }
}

/// Looking for the next cell keeps a search exact: a dropped cell holds nothing nearer
/// than what is kept.
pub proof fn law_next_keeps_exact(
    tree: &Octree,
    before: &NearestSearch,
    after: &NearestSearch,
    dist: spec_fn(int) -> u32,
)
    requires
        exact(tree, before, dist),
        before.open_node() is None,
        after.wf(tree),
        advanced(tree, before, after),
    ensures
        exact(tree, after, dist),
{
    let cells = before.cells();
    let best = before.best();
    let k = before.wanted();
    let n = tree.count();
    lemma_next(tree, before, after);
    lemma_pruned(best, k, cells);
    lemma_dropped_are_far(tree, best, k, cells, dist);
    let left = pruned(best, k, cells);
    let a = settled(tree, cells, before.open_node());
    let b = settled(tree, after.cells(), after.open_node());
    let m = left.len() as int;
    if m > 0 {
        assert(left.last() == cells[m - 1]);
    }
    assert(bounds_hold(tree, after.cells(), dist)) by {
        assert forall|i: int, x: int|
            0 <= i < after.cells().len() && #[trigger] tree.under(after.cells()[i].1 as int).contains(
                x,
            ) implies after.cells()[i].0 <= dist(x) by {
            assert(tree.under(cells[i].1 as int).contains(x));
        }
    }
    if m == cells.len() {
        knn::lemma_best_of_same(best, k, n, a, b, dist);
    } else {
        assert forall|x: int| 0 <= x < n && !#[trigger] a(x) && b(x) implies dist(x)
            >= best[knn::first_worst(best)].1 by {
            let i = choose|i: int|
                0 <= i < cells.len() && #[trigger] tree.under(cells[i].1 as int).contains(x);
            if i < m - 1 {
                assert(tree.under(after.cells()[i].1 as int).contains(x));
            } else if i == m - 1 {
                assert(tree.under(left.last().1 as int).contains(x));
            }
        }
        knn::law_far_items_change_nothing(best, k, n, a, b, dist);
    }
}

/// The search is done with the items it was done with before and with the first `m` of
/// the open leaf.
spec fn settled_with(
    tree: &Octree,
    cells: Cells,
    open: Option<usize>,
    items: Seq<usize>,
    m: int,
) -> spec_fn(int) -> bool {
    |x: int|
        settled(tree, cells, open)(x) || exists|i: int| 0 <= i < m && #[trigger] items[i] == x
}

proof fn lemma_leaf_offers(
    tree: &Octree,
    s: &NearestSearch,
    items: Seq<usize>,
    keys: Seq<u32>,
    dist: spec_fn(int) -> u32,
    m: int,
)
    requires
        exact(tree, s, dist),
        s.open_node() is Some,
        tree.leaf(s.open_node()->0 as int),
        items == tree.held(s.open_node()->0 as int),
        keys.len() == items.len(),
        forall|i: int| 0 <= i < items.len() ==> #[trigger] keys[i] == dist(items[i] as int),
        0 <= m <= items.len(),
    ensures
        knn::best_of(
            knn::offers(s.best(), s.wanted(), items, keys, m),
            s.wanted(),
            tree.count(),
            settled_with(tree, s.cells(), s.open_node(), items, m),
            dist,
        ),
        knn::offers(s.best(), s.wanted(), items, keys, m).len() <= s.wanted(),
    decreases m,
{
    let node = s.open_node()->0 as int;
    let base = settled(tree, s.cells(), s.open_node());
    let b = settled_with(tree, s.cells(), s.open_node(), items, m);
    let n = tree.count();
    if m == 0 {
        assert forall|x: int| 0 <= x < n implies #[trigger] base(x) == b(x) by {}
        knn::lemma_best_of_same(s.best(), s.wanted(), n, base, b, dist);
    } else {
        lemma_leaf_offers(tree, s, items, keys, dist, m - 1);
        tree.law_leaf_holds_its_region(node);
        let a = settled_with(tree, s.cells(), s.open_node(), items, m - 1);
        let x = items[m - 1];
        assert(tree.under(node).contains(x as int)) by {
            assert(crate::octree::lists(items, x as int));
        }
        assert(!a(x as int)) by {
            if exists|i: int| 0 <= i < m - 1 && #[trigger] items[i] == x as int {
                let i = choose|i: int| 0 <= i < m - 1 && #[trigger] items[i] == x as int;
                assert(items[i] == items[m - 1]);
            }
        }
        assert(b(x as int));
        assert forall|y: int| 0 <= y < n && y != x implies #[trigger] a(y) == b(y) by {
            if b(y) && !base(y) {
                let i = choose|i: int| 0 <= i < m && #[trigger] items[i] == y;
                assert(i < m - 1);
            }
        }
        assert(keys[m - 1] == dist(x as int));
        knn::law_offer_keeps_the_best(
            knn::offers(s.best(), s.wanted(), items, keys, m - 1),
            s.wanted(),
            n,
            a,
            b,
            dist,
            x,
        );
    }
}

/// The keys measure the open node truly: the distance of each item of a leaf, and for each
/// child of another node no more than any distance below it.
pub open spec fn measures(
    tree: &Octree,
    open: Option<usize>,
    keys: Seq<u32>,
    dist: spec_fn(int) -> u32,
) -> bool {
    match open {
        None => false,
        Some(n) => if tree.leaf(n as int) {
            &&& keys.len() == tree.held(n as int).len()
            &&& forall|i: int|
                0 <= i < keys.len() ==> #[trigger] keys[i] == dist(tree.held(n as int)[i] as int)
        } else {
            &&& keys.len() == children_from(tree, n as int, 0).len()
            &&& forall|i: int, x: int|
                0 <= i < keys.len() && #[trigger] tree.under(
                    children_from(tree, n as int, 0)[i] as int,
                ).contains(x) ==> keys[i] <= dist(x)
        },
    }
}

/// The queued children share out the items of a node.
proof fn lemma_queued(tree: &Octree, node: int, r: Seq<usize>, added: Cells, keys: Seq<u32>)
    requires
        tree.wf(),
        0 <= node < tree.size(),
        !tree.leaf(node),
        keys.len() == children_from(tree, node, 0).len(),
        queued(children_from(tree, node, 0), keys, r, added),
    ensures
        forall|i: int, x: int|
            0 <= i < added.len() && #[trigger] tree.under(added[i].1 as int).contains(x)
                ==> tree.under(node).contains(x),
        forall|i: int, j: int, x: int|
            0 <= i < j < added.len() && #[trigger] tree.under(added[i].1 as int).contains(x)
                ==> !#[trigger] tree.under(added[j].1 as int).contains(x),
        forall|x: int|
            #[trigger] tree.under(node).contains(x) ==> exists|i: int|
                0 <= i < added.len() && #[trigger] tree.under(added[i].1 as int).contains(x),
{
    let children = children_from(tree, node, 0);
    let m = added.len() as int;
    assert forall|i: int, x: int|
        0 <= i < m && #[trigger] tree.under(added[i].1 as int).contains(x) implies tree.under(
        node,
    ).contains(x) by {
        let q = r[m - 1 - i] as int;
        assert(tree.under(children[q] as int).contains(x));
        lemma_octant(tree, node, 0, q);
        tree.law_children_share_the_region(node, x);
    }
    assert forall|i: int, j: int, x: int|
        0 <= i < j < m && #[trigger] tree.under(added[i].1 as int).contains(x) implies
        !#[trigger] tree.under(added[j].1 as int).contains(x) by {
        if tree.under(added[j].1 as int).contains(x) {
            let p = r[m - 1 - i] as int;
            let q = r[m - 1 - j] as int;
            lemma_children_apart(tree, node, p, q, x);
            assert(order::before(keys, r[m - 1 - j] as int, r[m - 1 - i] as int));
        }
    }
    assert forall|x: int| #[trigger] tree.under(node).contains(x) implies exists|i: int|
        0 <= i < m && #[trigger] tree.under(added[i].1 as int).contains(x) by {
        tree.law_children_share_the_region(node, x);
        let o = tree.path(x)[tree.place(node).len() as int] as int;
        let q = lemma_listed(tree, node, 0, o);
        order::law_stable_ranking(keys, r, r);
        assert(order::holds_index(r, q));
        let g = choose|g: int| 0 <= g < r.len() && r[g] == q;
        assert(added[m - 1 - g] == (keys[r[g] as int], children[r[g] as int]));
        assert(tree.under(added[m - 1 - g].1 as int).contains(x));
    }
}

/// The answer for a node keeps items apart. Of a leaf, its items are settled; of another node,
/// its items wait on below its children.
proof fn lemma_answer(
    tree: &Octree,
    before: &NearestSearch,
    after: &NearestSearch,
    keys: Seq<u32>,
)
    requires
        before.wf(tree),
        apart(tree, before.cells(), before.open_node()),
        before.open_node() is Some,
        !tree.leaf(before.open_node()->0 as int) ==> keys.len() == children_from(
            tree,
            before.open_node()->0 as int,
            0,
        ).len(),
        answered(tree, before, after, keys),
    ensures
        apart(tree, after.cells(), None),
        ({
            let node = before.open_node()->0 as int;
            let items = tree.held(node);
            forall|x: int|
                0 <= x < tree.count() ==> #[trigger] settled(tree, after.cells(), None)(x) == (
                if tree.leaf(node) {
                    settled_with(
                        tree,
                        before.cells(),
                        before.open_node(),
                        items,
                        items.len() as int,
                    )(x)
                } else {
                    settled(tree, before.cells(), before.open_node())(x)
                })
        }),
{
    let node = before.open_node()->0 as int;
    let n = tree.count();
    let a = settled(tree, before.cells(), before.open_node());
    let b = settled(tree, after.cells(), None);
    let old_cells = before.cells();
    let cells = after.cells();
    if tree.leaf(node) {
        let items = tree.held(node);
        let m = items.len() as int;
        tree.law_leaf_holds_its_region(node);
        let c = settled_with(tree, old_cells, before.open_node(), items, m);
        assert forall|x: int| 0 <= x < n implies c(x) == #[trigger] b(x) by {
            assert(tree.under(node).contains(x) <==> crate::octree::lists(items, x));
            if tree.under(node).contains(x) {
                if exists|i: int|
                    0 <= i < cells.len() && #[trigger] tree.under(cells[i].1 as int).contains(x) {
                    let i = choose|i: int|
                        0 <= i < cells.len() && #[trigger] tree.under(cells[i].1 as int).contains(
                            x,
                        );
                    assert(tree.under(old_cells[i].1 as int).contains(x));
                }
                assert(!waits(tree, cells, None, x));
            } else {
                assert(waits(tree, old_cells, before.open_node(), x) == waits(
                    tree,
                    cells,
                    None,
                    x,
                ));
            }
        }
    } else {
        let (r, added) = choose|r: Seq<usize>, added: Cells|
            cells == old_cells + added && #[trigger] queued(
                children_from(tree, node, 0),
                keys,
                r,
                added,
            );
        lemma_queued(tree, node, r, added, keys);
        let h = old_cells.len() as int;
        assert forall|i: int| 0 <= i < cells.len() implies #[trigger] cells[i] == (if i < h {
            old_cells[i]
        } else {
            added[i - h]
        }) by {}
        assert(apart(tree, cells, None)) by {
            assert forall|i: int, j: int, x: int|
                0 <= i < j < cells.len() && #[trigger] tree.under(cells[i].1 as int).contains(
                    x,
                ) implies !#[trigger] tree.under(cells[j].1 as int).contains(x) by {
                if i < h {
                    assert(tree.under(old_cells[i].1 as int).contains(x));
                    if j < h {
                        assert(!tree.under(old_cells[j].1 as int).contains(x));
                    } else if tree.under(added[j - h].1 as int).contains(x) {
                        assert(tree.under(node).contains(x));
                    }
                } else {
                    assert(tree.under(added[i - h].1 as int).contains(x));
                    assert(!tree.under(added[j - h].1 as int).contains(x));
                }
            }
        }
        assert forall|x: int| 0 <= x < n implies a(x) == #[trigger] b(x) by {
            if waits(tree, old_cells, before.open_node(), x) {
                if tree.under(node).contains(x) {
                    let i = choose|i: int|
                        0 <= i < added.len() && #[trigger] tree.under(added[i].1 as int).contains(x);
                    assert(tree.under(cells[h + i].1 as int).contains(x));
                } else {
                    let i = choose|i: int|
                        0 <= i < h && #[trigger] tree.under(old_cells[i].1 as int).contains(x);
                    assert(tree.under(cells[i].1 as int).contains(x));
                }
            } else if waits(tree, cells, None, x) {
                let i = choose|i: int|
                    0 <= i < cells.len() && #[trigger] tree.under(cells[i].1 as int).contains(x);
                if i < h {
                    assert(tree.under(old_cells[i].1 as int).contains(x));
                } else {
                    assert(tree.under(added[i - h].1 as int).contains(x));
                }
            }
        }
    }
}

/// True measures keep a search exact.
pub proof fn law_answer_keeps_exact(
    tree: &Octree,
    before: &NearestSearch,
    after: &NearestSearch,
    keys: Seq<u32>,
    dist: spec_fn(int) -> u32,
)
    requires
        exact(tree, before, dist),
        measures(tree, before.open_node(), keys, dist),
        after.wf(tree),
        answered(tree, before, after, keys),
    ensures
        exact(tree, after, dist),
{
    let node = before.open_node()->0 as int;
    let n = tree.count();
    let k = before.wanted();
    let a = settled(tree, before.cells(), before.open_node());
    let b = settled(tree, after.cells(), after.open_node());
    lemma_answer(tree, before, after, keys);
    if tree.leaf(node) {
        let items = tree.held(node);
        let m = items.len() as int;
        lemma_leaf_offers(tree, before, items, keys, dist, m);
        let c = settled_with(tree, before.cells(), before.open_node(), items, m);
        assert forall|x: int| 0 <= x < n implies #[trigger] c(x) == b(x) by {}
        knn::lemma_best_of_same(after.best(), k, n, c, b, dist);
    } else {
        let (r, added) = choose|r: Seq<usize>, added: Cells|
            after.cells() == before.cells() + added && #[trigger] queued(
                children_from(tree, node, 0),
                keys,
                r,
                added,
            );
        let old_cells = before.cells();
        let cells = after.cells();
        let h = old_cells.len() as int;
        assert(bounds_hold(tree, cells, dist)) by {
            assert forall|i: int, x: int|
                0 <= i < cells.len() && #[trigger] tree.under(cells[i].1 as int).contains(
                    x,
                ) implies cells[i].0 <= dist(x) by {
                if i < h {
                    assert(cells[i] == old_cells[i]);
                    assert(tree.under(old_cells[i].1 as int).contains(x));
                } else {
                    let q = r[added.len() - 1 - (i - h)] as int;
                    assert(cells[i] == added[i - h]);
                    assert(tree.under(children_from(tree, node, 0)[q] as int).contains(x));
                }
            }
        }
        assert forall|x: int| 0 <= x < n implies #[trigger] a(x) == b(x) by {}
        knn::lemma_best_of_same(before.best(), k, n, a, b, dist);
    }
}

/// The search is on a fair way, whatever the bounds say: no item waits in two places, the
/// candidates are different items that the search is done with, each with its distance, and
/// while there is room they are all of those items.
pub open spec fn fair(tree: &Octree, s: &NearestSearch, dist: spec_fn(int) -> u32) -> bool {
    &&& s.wf(tree)
    &&& apart(tree, s.cells(), s.open_node())
    &&& knn::chosen(
        s.best(),
        tree.count(),
        settled(tree, s.cells(), s.open_node()),
        dist,
    )
    &&& s.best().len() < s.wanted() ==> forall|x: int| #[trigger]
        settled(tree, s.cells(), s.open_node())(x) ==> knn::keeps(s.best(), x)
}

/// A new search is fair.
pub proof fn law_new_search_is_fair(tree: &Octree, s: &NearestSearch, dist: spec_fn(int) -> u32)
    requires
        s.wf(tree),
        s.best() == Seq::<Candidate>::empty(),
        s.cells() == seq![(0u32, 0usize)],
        s.open_node() is None,
    ensures
        fair(tree, s, dist),
{
    tree.lemma_root(0);
    tree.law_zooming_narrows(0, 0);
    assert forall|x: int| !#[trigger] settled(tree, s.cells(), s.open_node())(x) by {
        if 0 <= x < tree.count() {
            assert(tree.under(0).contains(x));
            assert(tree.under(s.cells()[0].1 as int).contains(x));
        }
    }
}

/// Looking for the next cell keeps a search fair.
pub proof fn law_next_keeps_fair(
    tree: &Octree,
    before: &NearestSearch,
    after: &NearestSearch,
    dist: spec_fn(int) -> u32,
)
    requires
        fair(tree, before, dist),
        before.open_node() is None,
        after.wf(tree),
        advanced(tree, before, after),
    ensures
        fair(tree, after, dist),
{
    lemma_next(tree, before, after);
    let a = settled(tree, before.cells(), None);
    let b = settled(tree, after.cells(), after.open_node());
    assert forall|i: int| 0 <= i < after.best().len() implies b(
        (#[trigger] after.best()[i]).0 as int,
    ) by {
        assert(a(before.best()[i].0 as int));
    }
    if after.best().len() < after.wanted() {
        assert forall|x: int| #[trigger] b(x) implies knn::keeps(after.best(), x) by {
            assert(a(x));
        }
    }
}

proof fn lemma_fair_offers(
    tree: &Octree,
    s: &NearestSearch,
    items: Seq<usize>,
    keys: Seq<u32>,
    dist: spec_fn(int) -> u32,
    m: int,
)
    requires
        fair(tree, s, dist),
        s.open_node() is Some,
        tree.leaf(s.open_node()->0 as int),
        items == tree.held(s.open_node()->0 as int),
        keys.len() == items.len(),
        forall|i: int| 0 <= i < items.len() ==> #[trigger] keys[i] == dist(items[i] as int),
        0 <= m <= items.len(),
    ensures
        ({
            let best = knn::offers(s.best(), s.wanted(), items, keys, m);
            let who = settled_with(tree, s.cells(), s.open_node(), items, m);
            &&& best.len() <= s.wanted()
            &&& knn::chosen(best, tree.count(), who, dist)
            &&& best.len() < s.wanted() ==> forall|x: int| #[trigger] who(x) ==> knn::keeps(
                best,
                x,
            )
        }),
    decreases m,
{
    let node = s.open_node()->0 as int;
    let base = settled(tree, s.cells(), s.open_node());
    let b = settled_with(tree, s.cells(), s.open_node(), items, m);
    let n = tree.count();
    if m == 0 {
        assert forall|i: int| 0 <= i < s.best().len() implies b(
            (#[trigger] s.best()[i]).0 as int,
        ) by {
            assert(base(s.best()[i].0 as int));
        }
        assert forall|x: int| #[trigger] b(x) implies base(x) by {}
    } else {
        lemma_fair_offers(tree, s, items, keys, dist, m - 1);
        tree.law_leaf_holds_its_region(node);
        let a = settled_with(tree, s.cells(), s.open_node(), items, m - 1);
        let x = items[m - 1];
        assert(tree.under(node).contains(x as int)) by {
            assert(crate::octree::lists(items, x as int));
        }
        assert(!a(x as int)) by {
            if exists|i: int| 0 <= i < m - 1 && #[trigger] items[i] == x as int {
                let i = choose|i: int| 0 <= i < m - 1 && #[trigger] items[i] == x as int;
                assert(items[i] == items[m - 1]);
            }
        }
        assert(b(x as int));
        assert forall|y: int| 0 <= y < n && #[trigger] a(y) implies b(y) by {}
        assert(keys[m - 1] == dist(x as int));
        let before = knn::offers(s.best(), s.wanted(), items, keys, m - 1);
        let best = knn::offers(s.best(), s.wanted(), items, keys, m);
        knn::lemma_offer_keeps_chosen(before, s.wanted(), n, a, b, dist, x);
        if best.len() < s.wanted() {
            assert forall|y: int| #[trigger] b(y) implies knn::keeps(best, y) by {
                if y == x {
                    assert(best[best.len() - 1].0 == y);
                } else {
                    if !base(y) {
                        let i = choose|i: int| 0 <= i < m && #[trigger] items[i] == y;
                        assert(i < m - 1);
                    }
                    assert(a(y));
                    let i = choose|i: int| 0 <= i < before.len() && (#[trigger] before[i]).0 == y;
                    assert(best[i] == before[i]);
                }
            }
        }
    }
}

/// Distances keep a search fair, whatever bounds come with them.
pub proof fn law_answer_keeps_fair(
    tree: &Octree,
    before: &NearestSearch,
    after: &NearestSearch,
    keys: Seq<u32>,
    dist: spec_fn(int) -> u32,
)
    requires
        fair(tree, before, dist),
        before.open_node() matches Some(n) && keys.len() == (if tree.leaf(n as int) {
            tree.held(n as int).len()
        } else {
            children_from(tree, n as int, 0).len()
        }),
        tree.leaf(before.open_node()->0 as int) ==> forall|i: int|
            0 <= i < keys.len() ==> #[trigger] keys[i] == dist(
                tree.held(before.open_node()->0 as int)[i] as int,
            ),
        after.wf(tree),
        answered(tree, before, after, keys),
    ensures
        fair(tree, after, dist),
{
    let node = before.open_node()->0 as int;
    let n = tree.count();
    let a = settled(tree, before.cells(), before.open_node());
    let b = settled(tree, after.cells(), None);
    lemma_answer(tree, before, after, keys);
    let items = tree.held(node);
    let m = items.len() as int;
    let c = if tree.leaf(node) {
        settled_with(tree, before.cells(), before.open_node(), items, m)
    } else {
        a
    };
    if tree.leaf(node) {
        lemma_fair_offers(tree, before, items, keys, dist, m);
    }
    assert forall|i: int| 0 <= i < after.best().len() implies b(
        (#[trigger] after.best()[i]).0 as int,
    ) by {
        assert(c(after.best()[i].0 as int));
    }
    if after.best().len() < after.wanted() {
        assert forall|x: int| #[trigger] b(x) implies knn::keeps(after.best(), x) by {
            assert(c(x));
        }
    }
}

/// When nothing waits any more, an exact search holds the nearest of all items: its sorted
/// result shows the very distances that looking at every item shows.
pub proof fn law_search_matches_brute_force(
    tree: &Octree,
    s: &NearestSearch,
    distances: Seq<u32>,
    found: Seq<Candidate>,
    best: Seq<Candidate>,
    all: Seq<Candidate>,
)
    requires
        exact(tree, s, knn::listed(distances)),
        s.cells().len() == 0,
        s.open_node() is None,
        distances.len() == tree.count(),
        knn::sorted_form(s.best(), found),
        knn::best_of(
            best,
            s.wanted(),
            distances.len(),
            knn::first_items(distances.len() as int),
            knn::listed(distances),
        ),
        knn::sorted_form(best, all),
    ensures
        knn::keys_of(found) == knn::keys_of(all),
{
    let n = tree.count();
    let a = settled(tree, s.cells(), s.open_node());
    let b = knn::first_items(n as int);
    assert forall|x: int| 0 <= x < n implies #[trigger] a(x) == b(x) by {}
    knn::lemma_best_of_same(s.best(), s.wanted(), n, a, b, knn::listed(distances));
    knn::law_best_distances_are_unique(
        s.best(),
        best,
        found,
        all,
        s.wanted(),
        n,
        b,
        knn::listed(distances),
    );
}

/// Nine to the power of `d`.
spec fn nines(d: nat) -> nat
    decreases d,
{
    if d == 0 {
        1
    } else {
        9 * nines((d - 1) as nat)
    }
}

/// More than the number of nodes below a node: nine to the power of the levels below it.
spec fn weight(tree: &Octree, n: int) -> nat {
    nines((tree.limit() - tree.place(n).len()) as nat)
}

/// The weights of the cells together.
spec fn load(tree: &Octree, cells: Cells) -> nat
    decreases cells.len(),
{
    if cells.len() == 0 {
        0
    } else {
        load(tree, cells.drop_last()) + weight(tree, cells.last().1 as int)
    }
}

proof fn lemma_load_appended(tree: &Octree, a: Cells, b: Cells)
    ensures
        load(tree, a + b) == load(tree, a) + load(tree, b),
    decreases b.len(),
{
    if b.len() == 0 {
        assert(a + b =~= a);
    } else {
        assert((a + b).drop_last() =~= a + b.drop_last());
        lemma_load_appended(tree, a, b.drop_last());
    }
}

proof fn lemma_load_pruned(tree: &Octree, best: Seq<Candidate>, k: nat, cells: Cells)
    ensures
        load(tree, pruned(best, k, cells)) <= load(tree, cells),
    decreases cells.len(),
{
    if cells.len() > 0 && best.len() >= k && cells.last().0 >= best[knn::first_worst(best)].1 {
        lemma_load_pruned(tree, best, k, cells.drop_last());
    }
}

proof fn lemma_load_bound(tree: &Octree, cells: Cells, w: nat)
    requires
        forall|i: int| 0 <= i < cells.len() ==> weight(tree, (#[trigger] cells[i]).1 as int) <= w,
    ensures
        load(tree, cells) <= cells.len() * w,
    decreases cells.len(),
{
    if cells.len() > 0 {
        let front = cells.drop_last();
        assert forall|i: int| 0 <= i < front.len() implies weight(
            tree,
            (#[trigger] front[i]).1 as int,
        ) <= w by {
            assert(front[i] == cells[i]);
        }
        lemma_load_bound(tree, front, w);
        let last = cells.last();
        assert(last == cells[cells.len() - 1]);
        let m = cells.len();
        assert((m - 1) * w + w == m * w) by (nonlinear_arith);
    }
}

proof fn lemma_nines_positive(d: nat)
    ensures
        nines(d) > 0,
    decreases d,
{
    if d > 0 {
        lemma_nines_positive((d - 1) as nat);
    }
}

proof fn lemma_few_children(tree: &Octree, n: int, o: int)
    requires
        0 <= o <= 8,
    ensures
        children_from(tree, n, o).len() <= 8 - o,
    decreases 8 - o,
{
    if o < 8 {
        lemma_few_children(tree, n, o + 1);
    }
}

/// The children that join the cells weigh less than the node that was opened.
proof fn lemma_children_are_lighter(
    tree: &Octree,
    n: int,
    keys: Seq<u32>,
    r: Seq<usize>,
    added: Cells,
)
    requires
        tree.wf(),
        0 <= n < tree.size(),
        !tree.leaf(n),
        keys.len() == children_from(tree, n, 0).len(),
        queued(children_from(tree, n, 0), keys, r, added),
    ensures
        load(tree, added) < weight(tree, n),
{
    let children = children_from(tree, n, 0);
    tree.law_children_share_the_region(n, 0);
    let d = (tree.limit() - tree.place(n).len()) as nat;
    let w = nines((d - 1) as nat);
    assert forall|i: int| 0 <= i < added.len() implies weight(tree, (#[trigger] added[i]).1 as int)
        <= w by {
        let j = r[added.len() - 1 - i] as int;
        assert(added[i].1 == children[j]);
        lemma_octant(tree, n, 0, j);
        tree.law_zooming_narrows(n, octant_at(tree, n, 0, j));
    }
    lemma_load_bound(tree, added, w);
    lemma_few_children(tree, n, 0);
    lemma_nines_positive((d - 1) as nat);
    let m = added.len();
    assert(m * w <= 8 * w) by (nonlinear_arith)
        requires
            m <= 8,
    ;
}

/// The bounds hold: that of a node is no larger than the distance of any item below it.
pub open spec fn admissible(tree: &Octree, bounds: Seq<u32>, distances: Seq<u32>) -> bool {
    forall|n: int, x: int|
        0 <= n < tree.size() && #[trigger] tree.under(n).contains(x) ==> bounds[n] <= distances[x]
}

/// The measures that a step asks for, from tables of all bounds and all distances.
fn looked_up(table: &[u32], at: &Vec<usize>) -> (keys: Vec<u32>)
    requires
        forall|i: int| 0 <= i < at@.len() ==> (#[trigger] at@[i]) < table@.len(),
    ensures
        keys@.len() == at@.len(),
        forall|i: int| 0 <= i < keys@.len() ==> #[trigger] keys@[i] == table@[at@[i] as int],
{
    let mut keys: Vec<u32> = Vec::new();
    let mut i: usize = 0;
    while i < at.len()
        invariant
            i <= at@.len(),
            keys@.len() == i,
            forall|j: int| 0 <= j < at@.len() ==> (#[trigger] at@[j]) < table@.len(),
            forall|j: int| 0 <= j < i ==> #[trigger] keys@[j] == table@[at@[j] as int],
        decreases at@.len() - i,
    {
        keys.push(table[at[i]]);
        i += 1;
    }
    keys
}

/// The `k` nearest items, nearest first, by branch and bound: `bounds` holds the key of the
/// bound of every node, and `distances` that of the distance of every item. They are as many as
/// wanted, or all where there are fewer, each once with its distance; where the bounds hold,
/// they are the nearest of all items.
pub fn nearest(tree: &Octree, bounds: &[u32], distances: &[u32], k: usize) -> (r: Vec<
    (usize, u32),
>)
    requires
        tree.wf(),
        bounds@.len() == tree.size(),
        distances@.len() == tree.count(),
    ensures
        knn::true_list(r@, k as nat, distances@),
        k > 0 && admissible(tree, bounds@, distances@) ==> knn::nearest_of(
            r@,
            k as nat,
            distances@,
        ),
{
    if k == 0 {
        return Vec::new();
    }
    let ghost dist = knn::listed(distances@);
    let ghost holds = admissible(tree, bounds@, distances@);
    let mut s = NearestSearch::new(tree, k);
    proof {
        law_new_search_is_exact(tree, &s, dist);
        law_new_search_is_fair(tree, &s, dist);
    }
    loop
        invariant
            s.wf(tree),
            s.open_node() is None,
            s.wanted() == k,
            bounds@.len() == tree.size(),
            distances@.len() == tree.count(),
            dist == knn::listed(distances@),
            holds == admissible(tree, bounds@, distances@),
            fair(tree, &s, dist),
            holds ==> exact(tree, &s, dist),
        ensures
            s.cells().len() == 0,
        decreases load(tree, s.cells()),
    {
        let ghost before = s;
        let step = s.next(tree);
        let ghost opened = s;
        proof {
            let left = pruned(before.best(), before.wanted(), before.cells());
            lemma_load_pruned(tree, before.best(), before.wanted(), before.cells());
            law_next_keeps_fair(tree, &before, &s, dist);
            if holds {
                law_next_keeps_exact(tree, &before, &s, dist);
            }
            if s.open_node() is Some {
                let n = s.open_node()->0 as int;
                lemma_nines_positive((tree.limit() - tree.place(n).len()) as nat);
                if tree.leaf(n) {
                    tree.law_leaf_holds_its_region(n);
                    assert forall|i: int| 0 <= i < tree.held(n).len() implies (
                    #[trigger] tree.held(n)[i]) < distances@.len() by {
                        assert(crate::octree::lists(tree.held(n), tree.held(n)[i] as int));
                        assert(tree.under(n).contains(tree.held(n)[i] as int));
                    }
                } else {
                    assert forall|i: int| 0 <= i < children_from(tree, n, 0).len() implies (
                    #[trigger] children_from(tree, n, 0)[i]) < bounds@.len() by {
                        lemma_child_in_tree(tree, n, i);
                    }
                }
            }
        }
        let keys = match step {
            SearchStep::Distances(items) => looked_up(distances, &items),
            SearchStep::Bounds(nodes) => looked_up(bounds, &nodes),
            SearchStep::Done => {
                break ;
            },
        };
        s.answer(tree, keys.as_slice());
        proof {
            let n = opened.open_node()->0 as int;
            law_answer_keeps_fair(tree, &opened, &s, keys@, dist);
            if holds {
                assert(measures(tree, opened.open_node(), keys@, dist));
                law_answer_keeps_exact(tree, &opened, &s, keys@, dist);
            }
            if !tree.leaf(n) {
                let (r, added) = choose|r: Seq<usize>, added: Cells|
                    s.cells() == opened.cells() + added && #[trigger] queued(
                        children_from(tree, n, 0),
                        keys@,
                        r,
                        added,
                    );
                lemma_load_appended(tree, opened.cells(), added);
                lemma_children_are_lighter(tree, n, keys@, r, added);
            }
        }
    }
    let r = s.into_sorted();
    proof {
        let who = settled(tree, s.cells(), s.open_node());
        if s.best().len() < k {
            assert forall|x: int| 0 <= x < distances@.len() implies #[trigger] knn::keeps(
                s.best(),
                x,
            ) by {
                assert(who(x));
            }
        }
        knn::lemma_chosen_is_a_true_list(s.best(), k as nat, who, distances@, r@);
        if holds {
            let a = settled(tree, s.cells(), s.open_node());
            let b = knn::first_items(tree.count() as int);
            assert forall|x: int| 0 <= x < tree.count() implies #[trigger] a(x) == b(x) by {}
            knn::lemma_best_of_same(s.best(), s.wanted(), tree.count(), a, b, dist);
        }
    }
    r
}

/// Branch and bound finds what looking at every item finds: two lists of the nearest items
/// show the same distances.
pub proof fn law_nearest_distances_are_unique(
    found: Seq<Candidate>,
    all: Seq<Candidate>,
    k: nat,
    distances: Seq<u32>,
)
    requires
        knn::nearest_of(found, k, distances),
        knn::nearest_of(all, k, distances),
    ensures
        knn::keys_of(found) == knn::keys_of(all),
{
    let n = distances.len();
    let who = knn::first_items(n as int);
    let dist = knn::listed(distances);
    let a = choose|a: Seq<Candidate>| #[trigger]
        knn::sorted_form(a, found) && knn::best_of(a, k, n, who, dist);
    let b = choose|b: Seq<Candidate>| #[trigger]
        knn::sorted_form(b, all) && knn::best_of(b, k, n, who, dist);
    knn::law_best_distances_are_unique(a, b, found, all, k, n, who, dist);
}

} // verus!
