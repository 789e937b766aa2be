//! The octree of the spatial memory, over octant paths.
//!
//! A point falls into one of eight octants at every level of the world cube, so its
//! place in the tree is the sequence of those octants. This module keeps the tree over
//! such paths: routing, subdivision, zooming and collecting. Turning coordinates into
//! paths is the caller's work.
use vstd::prelude::*;

verus! {

/// Items that a leaf holds before it subdivides.
pub const DEFAULT_BUCKET_CAPACITY: usize = 16;

/// A node: internal, with up to eight children, or a leaf with a bucket.
#[derive(Clone, Copy, Debug)]
pub struct OctreeNode {
    /// The child of each octant, where there is one.
    pub children: [Option<usize>; 8],
    /// The bucket of a leaf.
    pub bucket: Option<usize>,
}

impl OctreeNode {
    /// Whether this node is a leaf.
    pub fn is_leaf(&self) -> (r: bool)
        ensures
            r == (self.bucket is Some),
    {
        self.bucket.is_some()
    }
}

/// `p` is the beginning of `s`.
pub open spec fn begins(p: Seq<u8>, s: Seq<u8>) -> bool {
    p.len() <= s.len() && s.take(p.len() as int) == p
}

/// A path of the given length whose every step is an octant.
pub open spec fn is_path(p: Seq<u8>, len: nat) -> bool {
    p.len() == len && forall|i: int| 0 <= i < p.len() ==> (#[trigger] p[i]) < 8
}

/// A node as a value.
#[verifier::ext_equal]
pub struct NodeView {
    /// The child of each octant.
    pub children: Seq<Option<usize>>,
    /// The bucket of a leaf.
    pub bucket: Option<usize>,
}

/// The nodes of a tree and its table of buckets, as values.
#[verifier::ext_equal]
pub struct TreeView {
    pub nodes: Seq<NodeView>,
    pub buckets: Seq<Seq<usize>>,
}

/// A new leaf.
pub open spec fn new_leaf(bucket: nat) -> NodeView {
    NodeView { children: Seq::new(8, |o: int| None), bucket: Some(bucket as usize) }
}

/// The tree of no items: one leaf.
pub open spec fn one_leaf() -> TreeView {
    TreeView { nodes: seq![new_leaf(0)], buckets: seq![Seq::empty()] }
}

/// The tree once node `n` has a child in octant `o`: where there is none, a new leaf joins
/// the nodes, and its bucket the buckets.
pub open spec fn attached(t: TreeView, n: int, o: int) -> TreeView {
    if t.nodes[n].children[o] is Some {
        t
    } else {
        TreeView {
            nodes: t.nodes.push(new_leaf(t.buckets.len())).update(
                n,
                NodeView {
                    children: t.nodes[n].children.update(o, Some(t.nodes.len() as usize)),
                    bucket: t.nodes[n].bucket,
                },
            ),
            buckets: t.buckets.push(Seq::empty()),
        }
    }
}

/// The tree once the leaf `n` holds one more item.
pub open spec fn put_in(t: TreeView, n: int, x: usize) -> TreeView {
    let b = t.nodes[n].bucket->0 as int;
    TreeView { nodes: t.nodes, buckets: t.buckets.update(b, t.buckets[b].push(x)) }
}

/// The tree once items were handed on, in turn, to the children of node `n`, which stands at
/// `depth`.
pub open spec fn handed_on(
    t: TreeView,
    n: int,
    depth: int,
    paths: Seq<Seq<u8>>,
    moved: Seq<usize>,
) -> TreeView
    decreases moved.len(),
{
    if moved.len() == 0 {
        t
    } else {
        let o = paths[moved.last() as int][depth] as int;
        let next = attached(handed_on(t, n, depth, paths, moved.drop_last()), n, o);
        put_in(next, next.nodes[n].children[o]->0 as int, moved.last())
    }
}

/// The tree once the leaf `n` has lost its bucket, which stays in the table, empty.
pub open spec fn emptied(t: TreeView, n: int) -> TreeView {
    TreeView {
        nodes: t.nodes.update(n, NodeView { children: t.nodes[n].children, bucket: None }),
        buckets: t.buckets.update(t.nodes[n].bucket->0 as int, Seq::empty()),
    }
}

/// The tree once the leaf `n` was divided.
pub open spec fn divided(t: TreeView, n: int, depth: int, paths: Seq<Seq<u8>>) -> TreeView {
    handed_on(emptied(t, n), n, depth, paths, t.buckets[t.nodes[n].bucket->0 as int])
}

/// The tree once an item was led from node `n` down to a leaf: a full leaf above the depth
/// limit is divided on the way.
pub open spec fn routed(
    t: TreeView,
    n: int,
    depth: int,
    paths: Seq<Seq<u8>>,
    x: usize,
    capacity: nat,
    limit: nat,
) -> TreeView
    decreases limit - depth,
{
    let full = t.nodes[n].bucket is Some && t.buckets[t.nodes[n].bucket->0 as int].len()
        >= capacity;
    if depth >= limit || (t.nodes[n].bucket is Some && !full) {
        put_in(t, n, x)
    } else {
        let o = paths[x as int][depth] as int;
        let open = if full {
            divided(t, n, depth, paths)
        } else {
            t
        };
        let next = attached(open, n, o);
        routed(next, next.nodes[n].children[o]->0 as int, depth + 1, paths, x, capacity, limit)
    }
}

/// The tree of the items with the given paths, filed in their order.
pub open spec fn built(paths: Seq<Seq<u8>>, capacity: nat, limit: nat) -> TreeView
    decreases paths.len(),
{
    if paths.len() == 0 {
        one_leaf()
    } else {
        routed(
            built(paths.drop_last(), capacity, limit),
            0,
            0,
            paths,
            (paths.len() - 1) as usize,
            capacity,
            limit,
        )
    }
}

/// The items in the bucket of a leaf.
pub open spec fn leaf_items(t: TreeView, n: int) -> Seq<usize> {
    t.buckets[t.nodes[n].bucket->0 as int]
}

/// A node is the child of one before it.
pub open spec fn is_child(nodes: Seq<NodeView>, c: int) -> bool {
    exists|p: int, o: int| 0 <= p < c && 0 <= o < 8 && #[trigger] nodes[p].children[o] == Some(
        c as usize,
    )
}

/// An item is in the bucket of some leaf.
pub open spec fn in_a_leaf(t: TreeView, x: int) -> bool {
    exists|n: int|
        0 <= n < t.nodes.len() && t.nodes[n].bucket is Some && lists(#[trigger] leaf_items(t, n), x)
}

/// Nodes are linked as cells are divided, with the given places: the root has the empty place;
/// a child stands one octant further, and later in the table; every node but the root is a
/// child; no place is longer than the depth limit, and only leaves stand at it; a leaf has no
/// child.
pub open spec fn well_placed(nodes: Seq<NodeView>, places: Seq<Seq<u8>>, limit: nat) -> bool {
    let n = nodes.len() as int;
    &&& n >= 1
    &&& places.len() == n
    &&& places[0] == Seq::<u8>::empty()
    &&& forall|i: int, o: int|
        0 <= i < n && 0 <= o < 8 ==> match #[trigger] nodes[i].children[o] {
            Some(c) => {
                &&& i < c < n
                &&& nodes[i].bucket is None
                &&& places[c as int] == places[i].push(o as u8)
            },
            None => true,
        }
    &&& forall|c: int| 1 <= c < n ==> #[trigger] is_child(nodes, c)
    &&& forall|i: int|
        0 <= i < n ==> (#[trigger] places[i]).len() <= limit && (nodes[i].bucket is None
            ==> places[i].len() < limit)
}

/// Every leaf has a bucket of its own.
pub open spec fn well_owned(t: TreeView) -> bool {
    let n = t.nodes.len() as int;
    &&& forall|i: int|
        0 <= i < n ==> ((#[trigger] t.nodes[i]).bucket matches Some(b) ==> b < t.buckets.len())
    &&& forall|i: int, j: int|
        0 <= i < n && 0 <= j < n && i != j && (#[trigger] t.nodes[i]).bucket is Some ==> (
        #[trigger] t.nodes[j]).bucket != t.nodes[i].bucket
}

/// Every item stands in a leaf whose place begins its path, and no leaf holds one twice.
pub open spec fn well_filled(t: TreeView, places: Seq<Seq<u8>>, paths: Seq<Seq<u8>>) -> bool {
    &&& forall|n: int, j: int|
        #![trigger leaf_items(t, n)[j]]
        0 <= n < t.nodes.len() && t.nodes[n].bucket is Some && 0 <= j < leaf_items(t, n).len()
            ==> leaf_items(t, n)[j] < paths.len() && begins(
            places[n],
            paths[leaf_items(t, n)[j] as int],
        )
    &&& forall|n: int|
        0 <= n < t.nodes.len() && t.nodes[n].bucket is Some ==> (#[trigger] leaf_items(
            t,
            n,
        )).no_duplicates()
    &&& forall|x: int| 0 <= x < paths.len() ==> #[trigger] in_a_leaf(t, x)
}

/// A tree holds the items with the given paths: its nodes can be given places so that its
/// links are those of divided cells, and every item stands in the leaf of its path.
pub open spec fn is_sound(t: TreeView, paths: Seq<Seq<u8>>, limit: nat) -> bool {
    well_owned(t) && exists|places: Seq<Seq<u8>>| #[trigger]
        well_placed(t.nodes, places, limit) && well_filled(t, places, paths)
}

/// Nodes as values.
pub open spec fn node_views(nodes: Seq<OctreeNode>) -> Seq<NodeView> {
    nodes.map_values(|n: OctreeNode| NodeView { children: n.children@, bucket: n.bucket })
}

/// Paths as values.
pub open spec fn place_views(paths: Seq<Vec<u8>>) -> Seq<Seq<u8>> {
    paths.map_values(|p: Vec<u8>| p@)
}

/// Nodes and buckets as values.
pub open spec fn parts_form(nodes: Seq<OctreeNode>, buckets: Seq<Vec<usize>>) -> TreeView {
    TreeView {
        nodes: node_views(nodes),
        buckets: buckets.map_values(|b: Vec<usize>| b@),
    }
}

/// An octree of items, each with the path of its point.
pub struct Octree {
    nodes: Vec<OctreeNode>,
    buckets: Vec<Vec<usize>>,
    paths: Vec<Vec<u8>>,
    capacity: usize,
    depth_limit: usize,
    places: Ghost<Seq<Seq<u8>>>,
}

/// The item is in the list.
pub open spec fn lists(s: Seq<usize>, x: int) -> bool {
    exists|k: int| 0 <= k < s.len() && #[trigger] s[k] == x
}

/// The numbers of `s` are smaller than those of `t` from the `i`th on.
spec fn all_below(s: Seq<usize>, t: Seq<usize>, i: int) -> bool {
    forall|k: int, j: int|
        0 <= k < s.len() && i <= j < t.len() ==> #[trigger] s[k] < #[trigger] t[j]
}

/// Each number is larger than those before it.
pub open spec fn ascending(s: Seq<usize>) -> bool {
    forall|i: int, j: int| 0 <= i < j < s.len() ==> #[trigger] s[i] < #[trigger] s[j]
}

proof fn lemma_lists_both(a: Seq<usize>, b: Seq<usize>)
    ensures
        forall|x: int| #[trigger] lists(a + b, x) <==> lists(a, x) || lists(b, x),
{
    let s = a + b;
    assert forall|x: int| lists(a, x) || lists(b, x) implies #[trigger] lists(a + b, x) by {
        if lists(a, x) {
            let k = choose|k: int| 0 <= k < a.len() && #[trigger] a[k] == x;
            assert(s[k] == x);
        } else {
            let k = choose|k: int| 0 <= k < b.len() && #[trigger] b[k] == x;
            assert(s[a.len() + k] == x);
        }
    }
    assert forall|x: int| #[trigger] lists(a + b, x) implies lists(a, x) || lists(b, x) by {
        let k = choose|k: int| 0 <= k < s.len() && #[trigger] s[k] == x;
        if k < a.len() {
            assert(a[k] == x);
        } else {
            assert(b[k - a.len()] == x);
        }
    }
}

proof fn lemma_no_duplicates_both(a: Seq<usize>, b: Seq<usize>)
    requires
        a.no_duplicates(),
        b.no_duplicates(),
        forall|x: int| !(#[trigger] lists(a, x) && lists(b, x)),
    ensures
        (a + b).no_duplicates(),
{
    let s = a + b;
    assert forall|i: int, j: int| 0 <= i < j < s.len() implies s[i] != s[j] by {
        if i < a.len() && j >= a.len() {
            if s[i] == s[j] {
                assert(a[i] == s[i]);
                assert(b[j - a.len()] == s[i]);
                assert(lists(a, s[i] as int) && lists(b, s[i] as int));
            }
        } else if i >= a.len() {
            assert(s[i] == b[i - a.len()] && s[j] == b[j - a.len()]);
        }
    }
}

impl Octree {
    /// The number of nodes.
    pub closed spec fn size(&self) -> nat {
        self.nodes@.len()
    }

    /// The path that leads to a node.
    pub closed spec fn place(&self, n: int) -> Seq<u8> {
        self.places@[n]
    }

    /// Whether a node is a leaf.
    pub closed spec fn leaf(&self, n: int) -> bool {
        self.nodes@[n].bucket is Some
    }

    /// The child of a node in an octant.
    pub closed spec fn child(&self, n: int, o: int) -> Option<usize> {
        self.nodes@[n].children@[o]
    }

    /// The items in the bucket of a leaf, in the order of their arrival.
    pub closed spec fn held(&self, n: int) -> Seq<usize> {
        self.buckets@[self.nodes@[n].bucket->0 as int]@
    }

    /// The bucket of a leaf.
    pub closed spec fn bucket_id(&self, n: int) -> Option<usize> {
        self.nodes@[n].bucket
    }

    /// The table of buckets; a divided leaf's bucket stays in it, empty.
    pub closed spec fn table(&self) -> Seq<Seq<usize>> {
        self.buckets@.map_values(|b: Vec<usize>| b@)
    }

    /// The number of items.
    pub closed spec fn count(&self) -> nat {
        self.paths@.len()
    }

    /// The path of an item.
    pub closed spec fn path(&self, x: int) -> Seq<u8> {
        self.paths@[x]@
    }

    /// The depth at which cells are no longer divided.
    pub closed spec fn limit(&self) -> nat {
        self.depth_limit as nat
    }

    /// The number of items that a leaf above the depth limit holds at most.
    pub closed spec fn room(&self) -> nat {
        self.capacity as nat
    }

    /// The shape of the tree: the root has the empty place; a child stands one octant
    /// further and later in the table; every node but the root is some node's child; a
    /// leaf has no child and a bucket of its own.
    spec fn shaped(&self) -> bool {
        let n = self.nodes@.len() as int;
        &&& n >= 1
        &&& self.places@.len() == n
        &&& self.places@[0] == Seq::<u8>::empty()
        &&& forall|i: int, o: int|
            0 <= i < n && 0 <= o < 8 ==> match #[trigger] self.nodes@[i].children@[o] {
                Some(c) => {
                    &&& i < c < n
                    &&& self.nodes@[i].bucket is None
                    &&& self.places@[c as int] == self.places@[i].push(o as u8)
                },
                None => true,
            }
        &&& forall|c: int| 1 <= c < n ==> #[trigger] self.has_parent(c)
        &&& forall|i: int|
            0 <= i < n ==> ((#[trigger] self.nodes@[i]).bucket matches Some(b)
                ==> b < self.buckets@.len())
        &&& forall|i: int, j: int|
            0 <= i < n && 0 <= j < n && i != j && (#[trigger] self.nodes@[i]).bucket is Some ==> (
            #[trigger] self.nodes@[j]).bucket != self.nodes@[i].bucket
        &&& forall|i: int|
            0 <= i < n ==> {
                &&& (#[trigger] self.places@[i]).len() <= self.depth_limit
                &&& self.nodes@[i].bucket is None ==> self.places@[i].len() < self.depth_limit
                &&& is_path(self.places@[i], self.places@[i].len())
            }
    }

    spec fn has_parent(&self, c: int) -> bool {
        exists|p: int, o: int|
            0 <= p < c && 0 <= o < 8 && self.parent_of(p, o, c)
    }

    spec fn parent_of(&self, p: int, o: int, c: int) -> bool {
        self.nodes@[p].children@[o] is Some && self.nodes@[p].children@[o]->0 == c
    }

    /// The item stands in the bucket of node `n`.
    spec fn stands(&self, n: int, x: int) -> bool {
        self.nodes@[n].bucket is Some && exists|k: int|
            0 <= k < self.held(n).len() && #[trigger] self.held(n)[k] == x
    }

    spec fn placed(&self, x: int) -> bool {
        exists|n: int| 0 <= n < self.nodes@.len() && #[trigger] self.stands(n, x)
    }

    /// The items of `loose` stand nowhere; every other item stands in a leaf whose place
    /// begins its path, and no bucket holds an item twice.
    spec fn filled(&self, loose: Set<int>) -> bool {
        &&& forall|x: int|
            0 <= x < self.paths@.len() ==> is_path(
                (#[trigger] self.paths@[x])@,
                self.depth_limit as nat,
            )
        &&& forall|n: int, j: int|
            #![trigger self.held(n)[j]]
            0 <= n < self.nodes@.len() && self.nodes@[n].bucket is Some && 0 <= j < self.held(
                n,
            ).len() ==> {
                let x = self.held(n)[j] as int;
                &&& x < self.paths@.len()
                &&& !loose.contains(x)
                &&& begins(self.places@[n], self.paths@[x]@)
            }
        &&& forall|n: int|
            0 <= n < self.nodes@.len() && self.nodes@[n].bucket is Some ==> (#[trigger] self.held(
                n,
            )).no_duplicates()
        &&& forall|x: int|
            0 <= x < self.paths@.len() && !loose.contains(x) ==> #[trigger] self.placed(x)
    }

    /// The items in the node's cell outnumber what a leaf holds.
    spec fn crowded(&self, n: int) -> bool {
        exists|s: Seq<int>| #[trigger] self.crowd(n, s)
    }

    spec fn crowd(&self, n: int, s: Seq<int>) -> bool {
        &&& s.no_duplicates()
        &&& s.len() > self.capacity
        &&& forall|i: int|
            0 <= i < s.len() ==> 0 <= #[trigger] s[i] < self.paths@.len() && begins(
                self.places@[n],
                self.paths@[s[i]]@,
            )
    }

    /// Some item is in the node's cell.
    spec fn peopled(&self, n: int) -> bool {
        exists|x: int| #[trigger] self.has_path(x) && begins(self.places@[n], self.paths@[x]@)
    }

    spec fn has_path(&self, x: int) -> bool {
        0 <= x < self.paths@.len()
    }

    /// No node is there without need: a node but the root has an item in its cell, and an
    /// internal node more of them than a leaf holds. The items of a leaf stand in the order
    /// of their arrival, and above the depth limit there are no more of them than it holds.
    spec fn lean(&self) -> bool {
        &&& forall|c: int| 1 <= c < self.nodes@.len() ==> #[trigger] self.peopled(c)
        &&& forall|n: int|
            0 <= n < self.nodes@.len() && (#[trigger] self.nodes@[n]).bucket is None
                ==> self.crowded(n)
        &&& forall|n: int|
            0 <= n < self.nodes@.len() && self.nodes@[n].bucket is Some ==> ascending(
                #[trigger] self.held(n),
            )
        &&& forall|n: int|
            0 <= n < self.nodes@.len() && self.nodes@[n].bucket is Some ==> (#[trigger] self.held(
                n,
            )).len() <= self.capacity || self.places@[n].len() == self.depth_limit
    }

    /// What is no less of the same tree stays lean.
    proof fn lemma_still_lean(self, was: Octree, n: int)
        requires
            was.lean(),
            0 <= n < was.nodes@.len(),
            self.capacity == was.capacity,
            self.paths@.len() >= was.paths@.len(),
            forall|x: int|
                0 <= x < was.paths@.len() ==> (#[trigger] self.paths@[x])@ == was.paths@[x]@,
            was.nodes@.len() <= self.nodes@.len(),
            self.places@[n] == was.places@[n],
        ensures
            n >= 1 ==> self.peopled(n),
            was.nodes@[n].bucket is None ==> self.crowded(n),
    {
        if n >= 1 {
            assert(was.peopled(n));
            let x = choose|x: int|
                #[trigger] was.has_path(x) && begins(was.places@[n], was.paths@[x]@);
            assert(self.paths@[x]@ == was.paths@[x]@);
            assert(self.has_path(x) && begins(self.places@[n], self.paths@[x]@));
        }
        if was.nodes@[n].bucket is None {
            self.lemma_still_crowded(was, n);
        }
    }

    proof fn lemma_still_crowded(self, was: Octree, n: int)
        requires
            was.crowded(n),
            self.capacity == was.capacity,
            self.paths@.len() >= was.paths@.len(),
            forall|x: int|
                0 <= x < was.paths@.len() ==> (#[trigger] self.paths@[x])@ == was.paths@[x]@,
            self.places@[n] == was.places@[n],
        ensures
            self.crowded(n),
    {
        let s = choose|s: Seq<int>| #[trigger] was.crowd(n, s);
        assert forall|i: int| 0 <= i < s.len() implies 0 <= #[trigger] s[i] < self.paths@.len()
            && begins(self.places@[n], self.paths@[s[i]]@) by {
            assert(self.paths@[s[i]]@ == was.paths@[s[i]]@);
        }
        assert(self.crowd(n, s));
    }

    /// The nodes and the buckets.
    pub open spec fn form(&self) -> TreeView {
        TreeView {
            nodes: Seq::new(
                self.size(),
                |n: int|
                    NodeView {
                        children: Seq::new(8, |o: int| self.child(n, o)),
                        bucket: self.bucket_id(n),
                    },
            ),
            buckets: self.table(),
        }
    }

    /// The paths of the items.
    pub open spec fn routes(&self) -> Seq<Seq<u8>> {
        Seq::new(self.count(), |x: int| self.path(x))
    }

    /// The tree is in order: its nodes are linked as the cells are divided, and every item
    /// stands in the leaf of its path.
    pub closed spec fn wf(&self) -> bool {
        self.shaped() && self.filled(Set::empty())
    }

    /// The tree is the one that filing its items in their order gives; no node is there
    /// without need.
    pub closed spec fn filed(&self) -> bool {
        self.wf() && self.lean() && self.form() == built(self.routes(), self.room(), self.limit())
    }

    /// The items whose path begins with the place of `n`.
    pub open spec fn under(&self, n: int) -> Set<int> {
        Set::new(|x: int| 0 <= x < self.count() && begins(self.place(n), self.path(x)))
    }

    /// An empty tree: one leaf.
    pub fn new(capacity: usize, depth_limit: usize) -> (t: Octree)
        ensures
            t.wf(),
            t.filed(),
            t.size() == 1,
            t.count() == 0,
            t.leaf(0),
            t.limit() == depth_limit,
            t.room() == capacity,
    {
        let mut nodes: Vec<OctreeNode> = Vec::new();
        nodes.push(OctreeNode { children: [None;8], bucket: Some(0) });
        let mut buckets: Vec<Vec<usize>> = Vec::new();
        buckets.push(Vec::new());
        let t = Octree {
            nodes,
            buckets,
            paths: Vec::new(),
            capacity,
            depth_limit,
            places: Ghost(Seq::<Seq<u8>>::empty().push(Seq::<u8>::empty())),
        };
        assert(t.shaped());
        assert(t.filled(Set::empty()));
        assert(t.held(0) =~= Seq::<usize>::empty());
        assert(t.lean());
        assert(t.form() =~~= one_leaf());
        assert(t.routes() =~= Seq::<Seq<u8>>::empty());
        t
    }

    /// The number of nodes.
    pub fn node_count(&self) -> (n: usize)
        ensures
            n == self.size(),
    {
        self.nodes.len()
    }

    /// The number of items.
    pub fn item_count(&self) -> (n: usize)
        ensures
            n == self.count(),
    {
        self.paths.len()
    }

    /// The depth limit.
    pub fn depth_limit(&self) -> (n: usize)
        ensures
            n == self.limit(),
    {
        self.depth_limit
    }

    /// The number of items that a leaf above the depth limit holds at most.
    pub fn bucket_capacity(&self) -> (n: usize)
        ensures
            n == self.room(),
    {
        self.capacity
    }

    /// A node of the table.
    pub fn node(&self, n: usize) -> (r: OctreeNode)
        requires
            n < self.size(),
        ensures
            r.bucket is Some <==> self.leaf(n as int),
            r.bucket == self.bucket_id(n as int),
            forall|o: int| 0 <= o < 8 ==> (#[trigger] r.children@[o]) == self.child(n as int, o),
    {
        self.nodes[n]
    }

    /// The number of buckets in the table.
    pub fn bucket_count(&self) -> (n: usize)
        ensures
            n == self.table().len(),
    {
        self.buckets.len()
    }

    /// A bucket of the table.
    pub fn bucket_at(&self, b: usize) -> (r: Vec<usize>)
        requires
            b < self.table().len(),
        ensures
            r@ == self.table()[b as int],
    {
        let r = self.buckets[b].clone();
        proof {
            assert(r@ =~= self.buckets@[b as int]@);
        }
        r
    }

    /// The items of a leaf, in the order of their arrival.
    pub fn bucket_items(&self, n: usize) -> (r: Vec<usize>)
        requires
            self.wf(),
            n < self.size(),
            self.leaf(n as int),
        ensures
            r@ == self.held(n as int),
    {
        match self.nodes[n].bucket {
            Some(b) => {
                let r = self.buckets[b].clone();
                assert(r@ =~= self.held(n as int));
                r
            },
            None => Vec::new(),
        }
    }

    /// The parent of a node and the octant of the node in it.
    proof fn lemma_parent(&self, c: int) -> (r: (int, int))
        requires
            self.shaped(),
            1 <= c < self.nodes@.len(),
        ensures
            0 <= r.0 < c,
            0 <= r.1 < 8,
            self.parent_of(r.0, r.1, c),
            self.nodes@[r.0].bucket is None,
            self.places@[c] == self.places@[r.0].push(r.1 as u8),
    {
        assert(self.has_parent(c));
        let (p, o) = choose|p: int, o: int|
            0 <= p < c && 0 <= o < 8 && self.parent_of(p, o, c);
        (p, o)
    }

    /// No two nodes have the same place.
    proof fn lemma_places_differ(&self, a: int, b: int)
        requires
            self.shaped(),
            0 <= a < self.nodes@.len(),
            0 <= b < self.nodes@.len(),
            self.places@[a] == self.places@[b],
        ensures
            a == b,
        decreases self.places@[a].len(),
    {
        if a == 0 {
            if b != 0 {
                let _ = self.lemma_parent(b);
            }
        } else if b == 0 {
            let _ = self.lemma_parent(a);
        } else {
            let (pa, oa) = self.lemma_parent(a);
            let (pb, ob) = self.lemma_parent(b);
            assert(self.places@[a].drop_last() =~= self.places@[pa]);
            assert(self.places@[b].drop_last() =~= self.places@[pb]);
            assert(self.places@[a].last() == oa as u8);
            assert(self.places@[b].last() == ob as u8);
            self.lemma_places_differ(pa, pb);
        }
    }

    /// Nothing stands below a leaf: a node whose place begins with that of a leaf is the
    /// leaf.
    proof fn lemma_leaf_is_last(&self, n: int, m: int)
        requires
            self.shaped(),
            0 <= n < self.nodes@.len(),
            0 <= m < self.nodes@.len(),
            self.nodes@[n].bucket is Some,
            begins(self.places@[n], self.places@[m]),
        ensures
            n == m,
        decreases self.places@[m].len(),
    {
        if self.places@[n].len() == self.places@[m].len() {
            assert(self.places@[m].take(self.places@[n].len() as int) =~= self.places@[m]);
            self.lemma_places_differ(n, m);
        } else {
            let (p, o) = self.lemma_parent(m);
            assert(self.places@[p].take(self.places@[n].len() as int) =~= self.places@[m].take(
                self.places@[n].len() as int,
            ));
            self.lemma_leaf_is_last(n, p);
        }
    }

    /// Every beginning of a node's place is the place of a node.
    proof fn lemma_ancestor(&self, m: int, k: int) -> (r: int)
        requires
            self.shaped(),
            0 <= m < self.nodes@.len(),
            0 <= k <= self.places@[m].len(),
        ensures
            0 <= r <= m,
            self.places@[r] == self.places@[m].take(k),
        decreases self.places@[m].len(),
    {
        if k == self.places@[m].len() {
            assert(self.places@[m].take(k) =~= self.places@[m]);
            m
        } else {
            let (p, o) = self.lemma_parent(m);
            assert(self.places@[p].take(k) =~= self.places@[m].take(k));
            self.lemma_ancestor(p, k)
        }
    }

    /// Gives node `n` an empty leaf in octant `o`, where there is none yet.
    fn attach(&mut self, n: usize, o: usize, Ghost(loose): Ghost<Set<int>>) -> (c: usize)
        requires
            old(self).shaped(),
            old(self).filled(loose),
            exists|x: int| #[trigger] old(self).has_path(x) && begins(
                old(self).places@[n as int].push(o as u8),
                old(self).paths@[x]@,
            ),
            n < old(self).size(),
            o < 8,
            old(self).nodes@[n as int].bucket is None,
        ensures
            final(self).shaped(),
            final(self).filled(loose),
            old(self).lean() ==> final(self).lean(),
            final(self).paths == old(self).paths,
            final(self).capacity == old(self).capacity,
            final(self).depth_limit == old(self).depth_limit,
            final(self).nodes@.len() >= old(self).nodes@.len(),
            n < c < final(self).nodes@.len(),
            final(self).nodes@[n as int].children@[o as int] == Some(c),
            final(self).nodes@[n as int].bucket is None,
            final(self).places@[c as int] == final(self).places@[n as int].push(o as u8),
            final(self).form() == attached(old(self).form(), n as int, o as int),
            forall|i: int|
                0 <= i < old(self).nodes@.len() ==> #[trigger] final(self).places@[i]
                    == old(self).places@[i],
            forall|i: int|
                0 <= i < old(self).nodes@.len() && i != n ==> #[trigger] final(self).nodes@[i]
                    == old(self).nodes@[i],
            forall|i: int|
                0 <= i < 8 && i != o ==> #[trigger] final(self).nodes@[n as int].children@[i]
                    == old(self).nodes@[n as int].children@[i],
            forall|i: int|
                0 <= i < old(self).buckets@.len() ==> #[trigger] final(self).buckets@[i]
                    == old(self).buckets@[i],
            match old(self).nodes@[n as int].children@[o as int] {
                Some(x) => c == x && *final(self) == *old(self),
                None => c == old(self).nodes@.len() && final(self).nodes@[c as int].bucket is Some
                    && final(self).held(c as int).len() == 0,
            },
    {
        match self.nodes[n].children[o] {
            Some(c) => c,
            None => {
                let c: usize = self.nodes.len();
                let b: usize = self.buckets.len();
                self.buckets.push(Vec::new());
                self.nodes.push(OctreeNode { children: [None;8], bucket: Some(b) });
                let mut parent = self.nodes[n];
                parent.children[o] = Some(c);
                self.nodes[n] = parent;
                proof {
                    self.places@ = self.places@.push(self.places@[n as int].push(o as u8));
                    let was = *old(self);
                    assert(self.form() =~~= attached(was.form(), n as int, o as int));
                    assert forall|i: int|
                        0 <= i < was.nodes@.len() && i != n implies #[trigger] self.nodes@[i]
                        == was.nodes@[i] by {}
                    assert forall|i: int| 1 <= i < self.nodes@.len() implies #[trigger] self.has_parent(
                        i,
                    ) by {
                        if i < was.nodes@.len() {
                            let (p, q) = was.lemma_parent(i);
                            assert(self.parent_of(p, q, i));
                        } else {
                            assert(self.parent_of(n as int, o as int, i));
                        }
                    }
                    assert(self.shaped());
                    assert(self.held(c as int) =~= Seq::<usize>::empty());
                    assert forall|i: int|
                        0 <= i < was.nodes@.len() && was.nodes@[i].bucket is Some implies
                        #[trigger] self.held(i) == was.held(i) && self.nodes@[i] == was.nodes@[i] by {}
                    assert forall|x: int|
                        0 <= x < self.paths@.len() && !loose.contains(x) implies #[trigger] self.placed(
                        x,
                    ) by {
                        assert(was.placed(x));
                        let m = choose|m: int|
                            0 <= m < was.nodes@.len() && #[trigger] was.stands(m, x);
                        let k = choose|k: int| 0 <= k < was.held(m).len() && was.held(m)[k] == x;
                        assert(self.held(m)[k] == x);
                        assert(self.stands(m, x));
                    }
                    assert forall|m: int, j: int|
                        #![trigger self.held(m)[j]]
                        0 <= m < self.nodes@.len() && self.nodes@[m].bucket is Some && 0 <= j
                            < self.held(m).len() implies {
                        let x = self.held(m)[j] as int;
                        &&& x < self.paths@.len()
                        &&& !loose.contains(x)
                        &&& begins(self.places@[m], self.paths@[x]@)
                    } by {
                        if m < was.nodes@.len() {
                            assert(was.held(m)[j] == self.held(m)[j]);
                        }
                    }
                    assert(self.filled(loose));
                    if was.lean() {
                        assert forall|m: int| 1 <= m < self.nodes@.len() implies #[trigger] self.peopled(
                            m,
                        ) by {
                            if m < was.nodes@.len() {
                                self.lemma_still_lean(was, m);
                            } else {
                                let x = choose|x: int| #[trigger] was.has_path(x) && begins(
                                    was.places@[n as int].push(o as u8),
                                    was.paths@[x]@,
                                );
                                assert(self.has_path(x) && begins(self.places@[m], self.paths@[x]@));
                            }
                        }
                        assert forall|m: int|
                            0 <= m < self.nodes@.len() && (#[trigger] self.nodes@[m]).bucket
                                is None implies self.crowded(m) by {
                            assert(was.nodes@[m].bucket is None);
                            self.lemma_still_lean(was, m);
                        }
                        assert forall|m: int|
                            0 <= m < self.nodes@.len() && self.nodes@[m].bucket is Some implies ascending(
                            #[trigger] self.held(m),
                        ) by {
                            if m < was.nodes@.len() {
                                assert(was.nodes@[m].bucket is Some);
                                assert(self.held(m) == was.held(m));
                            }
                        }
                        assert forall|m: int|
                            0 <= m < self.nodes@.len() && self.nodes@[m].bucket is Some implies (
                        #[trigger] self.held(m)).len() <= self.capacity || self.places@[m].len()
                            == self.depth_limit by {
                            if m < was.nodes@.len() {
                                assert(was.nodes@[m].bucket is Some);
                                assert(self.held(m) == was.held(m));
                            }
                        }
                        assert(self.lean());
                    }
                }
                c
            },
        }
    }

    /// The leaf takes one more item, which is later than those that it holds.
    spec fn takes_next(&self, n: int, x: int) -> bool {
        &&& forall|k: int|
            0 <= k < self.held(n).len() ==> #[trigger] self.held(n)[k] < x
        &&& self.held(n).len() < self.capacity || self.places@[n].len() == self.depth_limit
    }

    /// Puts a loose item into the leaf `n`.
    fn place_item(&mut self, n: usize, x: usize, Ghost(loose): Ghost<Set<int>>)
        requires
            old(self).shaped(),
            old(self).filled(loose),
            n < old(self).nodes@.len(),
            old(self).nodes@[n as int].bucket is Some,
            x < old(self).paths@.len(),
            loose.contains(x as int),
            begins(old(self).places@[n as int], old(self).paths@[x as int]@),
        ensures
            final(self).shaped(),
            final(self).filled(loose.remove(x as int)),
            old(self).lean() && old(self).takes_next(n as int, x as int) ==> final(self).lean(),
            final(self).paths == old(self).paths,
            final(self).nodes == old(self).nodes,
            final(self).places == old(self).places,
            final(self).capacity == old(self).capacity,
            final(self).depth_limit == old(self).depth_limit,
            final(self).held(n as int) == old(self).held(n as int).push(x),
            final(self).form() == put_in(old(self).form(), n as int, x),
            forall|m: int|
                0 <= m < old(self).nodes@.len() && m != n && old(self).nodes@[m].bucket is Some
                    ==> #[trigger] final(self).held(m) == old(self).held(m),
    {
        if let Some(b) = self.nodes[n].bucket {
            self.buckets[b].push(x);
            proof {
                let was = *old(self);
                assert(self.form() =~~= put_in(was.form(), n as int, x));
                let rest = loose.remove(x as int);
                assert forall|c: int| 1 <= c < self.nodes@.len() implies #[trigger] self.has_parent(
                    c,
                ) by {
                    let (p, o) = was.lemma_parent(c);
                    assert(self.parent_of(p, o, c));
                }
                assert(self.held(n as int) == was.held(n as int).push(x));
                assert forall|m: int|
                    0 <= m < was.nodes@.len() && m != n && was.nodes@[m].bucket is Some implies
                    #[trigger] self.held(m) == was.held(m) by {
                    assert(was.nodes@[m].bucket != was.nodes@[n as int].bucket);
                }
                assert forall|m: int, j: int|
                    #![trigger self.held(m)[j]]
                    0 <= m < self.nodes@.len() && self.nodes@[m].bucket is Some && 0 <= j < self.held(
                        m,
                    ).len() implies {
                    let y = self.held(m)[j] as int;
                    &&& y < self.paths@.len()
                    &&& !rest.contains(y)
                    &&& begins(self.places@[m], self.paths@[y]@)
                } by {
                    if m != n || j < was.held(n as int).len() {
                        assert(self.held(m)[j] == was.held(m)[j]);
                    }
                }
                assert forall|m: int|
                    0 <= m < self.nodes@.len() && self.nodes@[m].bucket is Some implies (
                #[trigger] self.held(m)).no_duplicates() by {
                    assert(was.held(m).no_duplicates());
                    if m == n {
                        assert forall|i: int, j: int|
                            0 <= i < self.held(m).len() && 0 <= j < self.held(m).len() && i
                                != j implies self.held(m)[i] != self.held(m)[j] by {
                            if i < was.held(m).len() {
                                assert(was.held(m)[i] == self.held(m)[i]);
                            }
                            if j < was.held(m).len() {
                                assert(was.held(m)[j] == self.held(m)[j]);
                            }
                        }
                    }
                }
                assert forall|y: int|
                    0 <= y < self.paths@.len() && !rest.contains(y) implies #[trigger] self.placed(
                    y,
                ) by {
                    if y == x {
                        assert(self.held(n as int)[was.held(n as int).len() as int] == x);
                        assert(self.stands(n as int, y));
                    } else {
                        assert(was.placed(y));
                        let m = choose|m: int|
                            0 <= m < was.nodes@.len() && #[trigger] was.stands(m, y);
                        let k = choose|k: int|
                            0 <= k < was.held(m).len() && was.held(m)[k] == y;
                        assert(self.held(m)[k] == y);
                        assert(self.stands(m, y));
                    }
                }
                if was.lean() && was.takes_next(n as int, x as int) {
                    assert forall|m: int|
                        0 <= m < self.nodes@.len() && self.nodes@[m].bucket is Some implies (
                    #[trigger] self.held(m)).len() <= self.capacity || self.places@[m].len()
                        == self.depth_limit by {
                        assert(was.held(m).len() <= was.capacity || was.places@[m].len()
                            == was.depth_limit);
                    }
                    assert forall|m: int| 1 <= m < self.nodes@.len() implies #[trigger] self.peopled(
                        m,
                    ) by {
                        self.lemma_still_lean(was, m);
                    }
                    assert forall|m: int|
                        0 <= m < self.nodes@.len() && (#[trigger] self.nodes@[m]).bucket
                            is None implies self.crowded(m) by {
                        assert(was.nodes@[m].bucket is None);
                        self.lemma_still_lean(was, m);
                    }
                    assert forall|m: int|
                        0 <= m < self.nodes@.len() && self.nodes@[m].bucket is Some implies ascending(
                        #[trigger] self.held(m),
                    ) by {
                        assert(ascending(was.held(m)));
                        if m == n {
                            assert forall|i: int, j: int|
                                0 <= i < j < self.held(m).len() implies #[trigger] self.held(m)[i]
                                < #[trigger] self.held(m)[j] by {
                                assert(was.held(m)[i] == self.held(m)[i]);
                                if j < was.held(m).len() {
                                    assert(was.held(m)[j] == self.held(m)[j]);
                                }
                            }
                        }
                    }
                }
            }
        }
    }

    /// The items of `loose` and those of `moved` from `from` on.
    spec fn with_rest(loose: Set<int>, moved: Seq<usize>, from: int) -> Set<int> {
        Set::new(
            |x: int|
                loose.contains(x) || exists|j: int|
                    from <= j < moved.len() && #[trigger] moved[j] == x,
        )
    }

    /// Takes the bucket off a leaf: its items become loose.
    fn detach(&mut self, n: usize, Ghost(loose): Ghost<Set<int>>) -> (moved: Vec<usize>)
        requires
            old(self).shaped(),
            old(self).filled(loose),
            old(self).crowded(n as int),
            n < old(self).nodes@.len(),
            old(self).nodes@[n as int].bucket is Some,
            old(self).places@[n as int].len() < old(self).depth_limit,
        ensures
            moved@ == old(self).held(n as int),
            final(self).form() == emptied(old(self).form(), n as int),
            old(self).lean() ==> final(self).lean(),
            final(self).shaped(),
            final(self).filled(Self::with_rest(loose, moved@, 0)),
            final(self).paths == old(self).paths,
            final(self).places == old(self).places,
            final(self).capacity == old(self).capacity,
            final(self).depth_limit == old(self).depth_limit,
            final(self).nodes@.len() == old(self).nodes@.len(),
            final(self).nodes@[n as int].bucket is None,
            forall|o: int|
                0 <= o < 8 ==> #[trigger] final(self).nodes@[n as int].children@[o] is None,
    {
        let mut moved: Vec<usize> = Vec::new();
        if let Some(b) = self.nodes[n].bucket {
            std::mem::swap(&mut moved, &mut self.buckets[b]);
            let mut node = self.nodes[n];
            node.bucket = None;
            self.nodes[n] = node;
            proof {
                let was = *old(self);
                assert(self.form() =~~= emptied(was.form(), n as int));
                let now = Self::with_rest(loose, moved@, 0);
                assert forall|i: int|
                    0 <= i < was.nodes@.len() && i != n implies #[trigger] self.nodes@[i]
                    == was.nodes@[i] by {}
                assert forall|i: int, o: int| 0 <= i < was.nodes@.len() && 0 <= o < 8 implies
                    #[trigger] self.nodes@[i].children@[o] == was.nodes@[i].children@[o] by {}
                assert forall|c: int| 1 <= c < self.nodes@.len() implies #[trigger] self.has_parent(
                    c,
                ) by {
                    let (p, o) = was.lemma_parent(c);
                    assert(self.nodes@[p].children@[o] == was.nodes@[p].children@[o]);
                    assert(self.parent_of(p, o, c));
                }
                assert forall|i: int, o: int| 0 <= i < self.nodes@.len() && 0 <= o < 8 implies (
                match #[trigger] self.nodes@[i].children@[o] {
                    Some(c) => {
                        &&& i < c < self.nodes@.len()
                        &&& self.nodes@[i].bucket is None
                        &&& self.places@[c as int] == self.places@[i].push(o as u8)
                    },
                    None => true,
                }) by {
                    assert(self.nodes@[i].children@[o] == was.nodes@[i].children@[o]);
                }
                assert(self.shaped());
                assert forall|m: int|
                    0 <= m < self.nodes@.len() && self.nodes@[m].bucket is Some implies
                    #[trigger] self.held(m) == was.held(m) && self.nodes@[m] == was.nodes@[m] by {
                    assert(was.nodes@[m].bucket != was.nodes@[n as int].bucket);
                }
                assert forall|m: int, j: int|
                    #![trigger self.held(m)[j]]
                    0 <= m < self.nodes@.len() && self.nodes@[m].bucket is Some && 0 <= j < self.held(
                        m,
                    ).len() implies {
                    let x = self.held(m)[j] as int;
                    &&& x < self.paths@.len()
                    &&& !now.contains(x)
                    &&& begins(self.places@[m], self.paths@[x]@)
                } by {
                    let x = was.held(m)[j] as int;
                    if exists|k: int| 0 <= k < moved@.len() && #[trigger] moved@[k] == x {
                        let k = choose|k: int| 0 <= k < moved@.len() && #[trigger] moved@[k] == x;
                        assert(was.held(n as int)[k] == x);
                        was.lemma_one_leaf(n as int, m, x);
                    }
                }
                assert forall|x: int|
                    0 <= x < self.paths@.len() && !now.contains(x) implies #[trigger] self.placed(
                    x,
                ) by {
                    assert(was.placed(x));
                    let m = choose|m: int| 0 <= m < was.nodes@.len() && #[trigger] was.stands(m, x);
                    let k = choose|k: int| 0 <= k < was.held(m).len() && was.held(m)[k] == x;
                    if m == n {
                        assert(moved@[k] == x);
                    }
                    assert(self.held(m)[k] == x);
                    assert(self.stands(m, x));
                }
                if was.lean() {
                    assert forall|m: int| 1 <= m < self.nodes@.len() implies #[trigger] self.peopled(
                        m,
                    ) by {
                        self.lemma_still_lean(was, m);
                    }
                    assert forall|m: int|
                        0 <= m < self.nodes@.len() && (#[trigger] self.nodes@[m]).bucket
                            is None implies self.crowded(m) by {
                        if m == n {
                            self.lemma_still_crowded(was, m);
                        } else {
                            assert(was.nodes@[m].bucket is None);
                            self.lemma_still_lean(was, m);
                        }
                    }
                    assert forall|m: int|
                        0 <= m < self.nodes@.len() && self.nodes@[m].bucket is Some implies ascending(
                        #[trigger] self.held(m),
                    ) by {
                        assert(self.held(m) == was.held(m));
                    }
                    assert forall|m: int|
                        0 <= m < self.nodes@.len() && self.nodes@[m].bucket is Some implies (
                    #[trigger] self.held(m)).len() <= self.capacity || self.places@[m].len()
                        == self.depth_limit by {
                        assert(self.held(m) == was.held(m));
                    }
                }
            }
        }
        moved
    }

    /// Two leaves whose places begin one path are the same leaf.
    proof fn lemma_one_leaf(&self, n: int, m: int, x: int)
        requires
            self.shaped(),
            0 <= n < self.nodes@.len(),
            0 <= m < self.nodes@.len(),
            self.nodes@[n].bucket is Some,
            self.nodes@[m].bucket is Some,
            begins(self.places@[n], self.paths@[x]@),
            begins(self.places@[m], self.paths@[x]@),
        ensures
            n == m,
    {
        let p = self.places@[n];
        let q = self.places@[m];
        if p.len() <= q.len() {
            assert(q.take(p.len() as int) =~= self.paths@[x]@.take(p.len() as int));
            self.lemma_leaf_is_last(n, m);
        } else {
            assert(p.take(q.len() as int) =~= self.paths@[x]@.take(q.len() as int));
            self.lemma_leaf_is_last(m, n);
        }
    }

    /// Turns a full leaf into an internal node and hands its items on to new leaves.
    fn subdivide(&mut self, n: usize, depth: usize, Ghost(loose): Ghost<Set<int>>)
        requires
            old(self).shaped(),
            old(self).filled(loose),
            old(self).crowded(n as int),
            n < old(self).nodes@.len(),
            old(self).nodes@[n as int].bucket is Some,
            depth == old(self).places@[n as int].len(),
            depth < old(self).depth_limit,
        ensures
            final(self).shaped(),
            final(self).filled(loose),
            old(self).lean() ==> final(self).lean(),
            final(self).paths == old(self).paths,
            final(self).capacity == old(self).capacity,
            final(self).depth_limit == old(self).depth_limit,
            final(self).nodes@.len() >= old(self).nodes@.len(),
            final(self).nodes@[n as int].bucket is None,
            final(self).form() == divided(
                old(self).form(),
                n as int,
                depth as int,
                old(self).routes(),
            ),
            forall|i: int|
                0 <= i < old(self).nodes@.len() ==> #[trigger] final(self).places@[i]
                    == old(self).places@[i],
    {
        let moved: Vec<usize> = self.detach(n, Ghost(loose));
        let ghost bare = self.form();
        let ghost start = *old(self);
        proof {
            assert forall|j: int| 0 <= j < moved@.len() implies begins(
                self.places@[n as int],
                self.paths@[#[trigger] moved@[j] as int]@,
            ) && moved@[j] < self.paths@.len() by {
                assert(start.held(n as int)[j] == moved@[j]);
            }
            assert(start.held(n as int).no_duplicates());
            assert(moved@.take(0) =~= Seq::<usize>::empty());
        }
        let mut i: usize = 0;
        while i < moved.len()
            invariant
                i <= moved@.len(),
                self.form() == handed_on(
                    bare,
                    n as int,
                    depth as int,
                    start.routes(),
                    moved@.take(i as int),
                ),
                moved@.no_duplicates(),
                start.lean() ==> {
                    &&& moved@.len() <= self.capacity
                    &&& ascending(moved@)
                    &&& self.lean()
                },
                start.shaped(),
                start.filled(loose),
                self.shaped(),
                self.filled(Self::with_rest(loose, moved@, i as int)),
                self.paths == start.paths,
                self.capacity == start.capacity,
                self.depth_limit == start.depth_limit,
                n < start.nodes@.len() <= self.nodes@.len(),
                self.nodes@[n as int].bucket is None,
                depth == self.places@[n as int].len(),
                depth < self.depth_limit,
                start.nodes@[n as int].bucket is Some,
                moved@ == start.held(n as int),
                forall|k: int|
                    0 <= k < start.nodes@.len() ==> #[trigger] self.places@[k] == start.places@[k],
                forall|j: int|
                    0 <= j < moved@.len() ==> begins(
                        self.places@[n as int],
                        self.paths@[#[trigger] moved@[j] as int]@,
                    ) && moved@[j] < self.paths@.len(),
                forall|o: int|
                    0 <= o < 8 ==> match #[trigger] self.nodes@[n as int].children@[o] {
                        Some(c) => self.nodes@[c as int].bucket is Some && (start.lean()
                            ==> self.held(c as int).len() <= i && all_below(
                            self.held(c as int),
                            moved@,
                            i as int,
                        )),
                        None => true,
                    },
            decreases moved@.len() - i,
        {
            let x: usize = moved[i];
            let ghost rest = Self::with_rest(loose, moved@, i as int);
            let ghost before = *self;
            proof {
                assert(is_path(self.paths@[x as int]@, self.depth_limit as nat));
            }
            let o: usize = self.paths[x][depth] as usize;
            proof {
                assert(self.paths@[x as int]@.take(depth + 1) =~= self.places@[n as int].push(
                    o as u8,
                ));
                assert(self.has_path(x as int) && begins(
                    self.places@[n as int].push(o as u8),
                    self.paths@[x as int]@,
                ));
            }
            let c: usize = self.attach(n, o, Ghost(rest));
            proof {
                assert(before.places@[n as int] == self.places@[n as int]);
                assert(self.paths@[x as int]@.take(depth + 1) =~= self.places@[c as int]);
                assert(rest.contains(x as int)) by {
                    assert(moved@[i as int] == x);
                }
                assert(self.nodes@[c as int].bucket is Some);
                if start.lean() {
                    if before.nodes@[n as int].children@[o as int] is None {
                        assert(self.held(c as int).len() == 0);
                    } else {
                        assert(self.held(c as int).len() <= i);
                        assert(all_below(self.held(c as int), moved@, i as int));
                    }
                    assert forall|k: int|
                        0 <= k < self.held(c as int).len() implies #[trigger] self.held(c as int)[k]
                        < x by {
                        assert(self.held(c as int)[k] < moved@[i as int]);
                    }
                    assert(self.takes_next(c as int, x as int));
                }
            }
            let ghost middle = *self;
            self.place_item(c, x, Ghost(rest));
            proof {
                assert(moved@.take(i + 1).drop_last() =~= moved@.take(i as int));
                assert(start.routes()[x as int] == self.paths@[x as int]@);
                assert(middle.form().nodes[n as int].children[o as int] == Some(c));
                assert(rest.remove(x as int) =~= Self::with_rest(loose, moved@, i + 1)) by {
                    assert forall|y: int| rest.remove(x as int).contains(y) implies Self::with_rest(
                        loose,
                        moved@,
                        i + 1,
                    ).contains(y) by {
                        if !loose.contains(y) {
                            let j = choose|j: int|
                                i <= j < moved@.len() && #[trigger] moved@[j] == y;
                            assert(j != i);
                        }
                    }
                    assert(!loose.contains(x as int)) by {
                        assert(start.held(n as int)[i as int] == x);
                    }
                }
                assert forall|q: int| 0 <= q < 8 implies (match #[trigger] self.nodes@[n as int].children@[q] {
                    Some(d) => self.nodes@[d as int].bucket is Some && (start.lean() ==> self.held(
                        d as int,
                    ).len() <= i + 1 && all_below(self.held(d as int), moved@, i + 1)),
                    None => true,
                }) by {
                    if q == o && start.lean() {
                        assert forall|k: int, j: int|
                            0 <= k < self.held(c as int).len() && i + 1 <= j
                                < moved@.len() implies #[trigger] self.held(c as int)[k]
                            < #[trigger] moved@[j] by {
                            if k < middle.held(c as int).len() {
                                assert(middle.held(c as int)[k] == self.held(c as int)[k]);
                            } else {
                                assert(moved@[i as int] < moved@[j]);
                            }
                        }
                    }
                    if q != o {
                        assert(middle.nodes@[n as int].children@[q]
                            == before.nodes@[n as int].children@[q]);
                        if let Some(d) = self.nodes@[n as int].children@[q] {
                            assert(before.places@[d as int] == before.places@[n as int].push(q as u8));
                            assert(middle.places@[d as int] == middle.places@[n as int].push(q as u8));
                            assert(d != c) by {
                                assert(middle.places@[c as int].last() == o as u8);
                                assert(middle.places@[d as int].last() == q as u8);
                            }
                            assert(middle.nodes@[d as int] == before.nodes@[d as int]);
                            assert(middle.held(d as int) == before.held(d as int));
                        }
                    }
                }
            }
            i += 1;
        }
        proof {
            assert(Self::with_rest(loose, moved@, moved@.len() as int) =~= loose);
            assert(moved@.take(moved@.len() as int) =~= moved@);
        }
    }

    /// A full leaf and one more item make a crowd.
    proof fn lemma_full(&self, n: int, x: int)
        requires
            self.filled(Set::empty().insert(x)),
            0 <= n < self.nodes@.len(),
            self.nodes@[n].bucket is Some,
            self.held(n).len() >= self.capacity,
            0 <= x < self.paths@.len(),
            begins(self.places@[n], self.paths@[x]@),
        ensures
            self.crowded(n),
    {
        let held = self.held(n);
        let s = Seq::new(held.len(), |i: int| held[i] as int).push(x);
        assert(held.no_duplicates());
        assert forall|i: int, j: int| 0 <= i < s.len() && 0 <= j < s.len() && i != j implies s[i]
            != s[j] by {
            if i < held.len() {
                assert(self.held(n)[i] == s[i]);
            }
            if j < held.len() {
                assert(self.held(n)[j] == s[j]);
            }
        }
        assert forall|i: int| 0 <= i < s.len() implies 0 <= #[trigger] s[i] < self.paths@.len()
            && begins(self.places@[n], self.paths@[s[i]]@) by {
            if i < held.len() {
                assert(self.held(n)[i] == s[i]);
            }
        }
        assert(self.crowd(n, s));
    }

    /// Leads a loose item down from the root to a leaf.
    fn route(&mut self, x: usize)
        requires
            old(self).shaped(),
            x + 1 == old(self).paths@.len(),
            old(self).filled(Set::empty().insert(x as int)),
        ensures
            final(self).wf(),
            old(self).lean() ==> final(self).lean(),
            final(self).form() == routed(
                old(self).form(),
                0,
                0,
                old(self).routes(),
                x,
                old(self).room(),
                old(self).limit(),
            ),
            final(self).paths == old(self).paths,
            final(self).capacity == old(self).capacity,
            final(self).depth_limit == old(self).depth_limit,
            final(self).nodes@.len() >= old(self).nodes@.len(),
    {
        let ghost loose = Set::<int>::empty().insert(x as int);
        let ghost paths = self.routes();
        let ghost goal = routed(self.form(), 0, 0, paths, x, self.room(), self.limit());
        let mut current: usize = 0;
        let mut depth: usize = 0;
        proof {
            assert(self.paths@[x as int]@.take(0) =~= self.places@[0]);
        }
        loop
            invariant_except_break
                self.shaped(),
                self.filled(loose),
                old(self).lean() ==> self.lean(),
                loose == Set::<int>::empty().insert(x as int),
                x + 1 == self.paths@.len(),
                self.paths == old(self).paths,
                self.capacity == old(self).capacity,
                self.depth_limit == old(self).depth_limit,
                self.nodes@.len() >= old(self).nodes@.len(),
                current < self.nodes@.len(),
                depth == self.places@[current as int].len(),
                begins(self.places@[current as int], self.paths@[x as int]@),
                paths == self.routes(),
                goal == routed(
                    self.form(),
                    current as int,
                    depth as int,
                    paths,
                    x,
                    self.room(),
                    self.limit(),
                ),
            ensures
                self.wf(),
                old(self).lean() ==> self.lean(),
                self.form() == goal,
                self.paths == old(self).paths,
                self.capacity == old(self).capacity,
                self.depth_limit == old(self).depth_limit,
                self.nodes@.len() >= old(self).nodes@.len(),
            decreases
                    2 * (self.depth_limit - depth) + (if self.nodes@[current as int].bucket is Some {
                        1int
                    } else {
                        0
                    }),
        {
            proof {
                assert(is_path(self.paths@[x as int]@, self.depth_limit as nat));
                assert(self.places@[current as int].len() <= self.depth_limit);
            }
            match self.nodes[current].bucket {
                Some(b) => {
                    if self.buckets[b].len() < self.capacity || depth >= self.depth_limit {
                        proof {
                            let held = self.held(current as int);
                            assert forall|k: int| 0 <= k < held.len() implies #[trigger] held[k]
                                < x by {
                                assert(self.held(current as int)[k] == held[k]);
                            }
                        }
                        proof {
                            assert(self.form().buckets[b as int] == self.buckets@[b as int]@);
                        }
                        self.place_item(current, x, Ghost(loose));
                        proof {
                            assert(loose.remove(x as int) =~= Set::<int>::empty());
                        }
                        break;
                    }
                    proof {
                        self.lemma_full(current as int, x as int);
                        assert(self.form().buckets[b as int] == self.buckets@[b as int]@);
                    }
                    self.subdivide(current, depth, Ghost(loose));
                    proof {
                        assert(paths =~= self.routes());
                    }
                },
                None => {
                    let o: usize = self.paths[x][depth] as usize;
                    proof {
                        assert(self.paths@[x as int]@.take(depth + 1)
                            =~= self.places@[current as int].push(o as u8));
                        assert(self.has_path(x as int) && begins(
                            self.places@[current as int].push(o as u8),
                            self.paths@[x as int]@,
                        ));
                    }
                    proof {
                        assert(paths[x as int] == self.paths@[x as int]@);
                    }
                    let c: usize = self.attach(current, o, Ghost(loose));
                    proof {
                        assert(self.form().nodes[current as int].children[o as int] == Some(c));
                        assert(paths =~= self.routes());
                    }
                    current = c;
                    depth += 1;
                },
            }
        }
    }

    /// Adds an item with the path of its point and returns its number.
    pub fn insert(&mut self, path: Vec<u8>) -> (x: usize)
        requires
            old(self).wf(),
            is_path(path@, old(self).limit()),
        ensures
            final(self).wf(),
            old(self).filed() ==> final(self).filed(),
            x == old(self).count(),
            final(self).count() == old(self).count() + 1,
            final(self).path(x as int) == path@,
            forall|y: int|
                0 <= y < old(self).count() ==> #[trigger] final(self).path(y) == old(self).path(y),
            final(self).limit() == old(self).limit(),
            final(self).room() == old(self).room(),
            final(self).size() >= old(self).size(),
            final(self).form() == routed(
                old(self).form(),
                0,
                0,
                old(self).routes().push(path@),
                x,
                old(self).room(),
                old(self).limit(),
            ),
    {
        let x: usize = self.paths.len();
        self.paths.push(path);
        proof {
            let was = *old(self);
            assert(self.form() =~~= was.form());
            assert(self.routes() =~= was.routes().push(path@));
            assert(self.routes().drop_last() =~= was.routes());
            let loose = Set::<int>::empty().insert(x as int);
            assert forall|c: int| 1 <= c < self.nodes@.len() implies #[trigger] self.has_parent(
                c,
            ) by {
                let (p, o) = was.lemma_parent(c);
                assert(self.parent_of(p, o, c));
            }
            assert(self.shaped());
            assert forall|n: int| #[trigger] self.held(n) == was.held(n) by {}
            assert forall|n: int, j: int|
                #![trigger self.held(n)[j]]
                0 <= n < self.nodes@.len() && self.nodes@[n].bucket is Some && 0 <= j < self.held(
                    n,
                ).len() implies {
                let y = self.held(n)[j] as int;
                &&& y < self.paths@.len()
                &&& !loose.contains(y)
                &&& begins(self.places@[n], self.paths@[y]@)
            } by {
                assert(was.held(n)[j] == self.held(n)[j]);
            }
            assert forall|y: int|
                0 <= y < self.paths@.len() && !loose.contains(y) implies #[trigger] self.placed(
                y,
            ) by {
                assert(was.placed(y));
                let m = choose|m: int| 0 <= m < was.nodes@.len() && #[trigger] was.stands(m, y);
                let k = choose|k: int| 0 <= k < was.held(m).len() && was.held(m)[k] == y;
                assert(self.held(m)[k] == y);
                assert(self.stands(m, y));
            }
            assert(self.filled(loose));
            if was.lean() {
                assert forall|n: int| 1 <= n < self.nodes@.len() implies #[trigger] self.peopled(n) by {
                    self.lemma_still_lean(was, n);
                }
                assert forall|n: int|
                    0 <= n < self.nodes@.len() && (#[trigger] self.nodes@[n]).bucket
                        is None implies self.crowded(n) by {
                    assert(was.nodes@[n].bucket is None);
                    self.lemma_still_lean(was, n);
                }
                assert forall|n: int|
                    0 <= n < self.nodes@.len() && self.nodes@[n].bucket is Some implies ascending(
                    #[trigger] self.held(n),
                ) by {
                    assert(self.held(n) == was.held(n));
                }
                assert(self.lean());
            }
        }
        let ghost routes = self.routes();
        self.route(x);
        proof {
            assert(self.routes() =~= routes);
        }
        x
    }

    /// A tree in order is sound.
    pub proof fn lemma_sound(&self)
        requires
            self.wf(),
        ensures
            is_sound(self.form(), self.routes(), self.limit()),
    {
        let t = self.form();
        let places = self.places@;
        assert forall|i: int, o: int| 0 <= i < t.nodes.len() && 0 <= o < 8 implies (
        match #[trigger] t.nodes[i].children[o] {
            Some(c) => {
                &&& i < c < t.nodes.len()
                &&& t.nodes[i].bucket is None
                &&& places[c as int] == places[i].push(o as u8)
            },
            None => true,
        }) by {
            assert(t.nodes[i].children[o] == self.nodes@[i].children@[o]);
        }
        assert forall|c: int| 1 <= c < t.nodes.len() implies #[trigger] is_child(t.nodes, c) by {
            let (p, o) = self.lemma_parent(c);
            assert(t.nodes[p].children[o] == self.nodes@[p].children@[o]);
            assert(c as usize == c);
        }
        assert forall|i: int| 0 <= i < t.nodes.len() implies (#[trigger] t.nodes[i]).bucket
            == self.nodes@[i].bucket by {}
        assert forall|i: int, j: int|
            0 <= i < t.nodes.len() && 0 <= j < t.nodes.len() && i != j && (
            #[trigger] t.nodes[i]).bucket is Some implies (#[trigger] t.nodes[j]).bucket
            != t.nodes[i].bucket by {
            assert(self.nodes@[i].bucket is Some);
            assert(self.nodes@[j].bucket != self.nodes@[i].bucket);
        }
        assert(well_placed(t.nodes, places, self.limit()));
        assert(well_owned(t));
        assert forall|n: int|
            0 <= n < t.nodes.len() && t.nodes[n].bucket is Some implies #[trigger] leaf_items(t, n)
            == self.held(n) by {}
        assert forall|n: int, j: int|
            #![trigger leaf_items(t, n)[j]]
            0 <= n < t.nodes.len() && t.nodes[n].bucket is Some && 0 <= j < leaf_items(
                t,
                n,
            ).len() implies leaf_items(t, n)[j] < self.routes().len() && begins(
            places[n],
            self.routes()[leaf_items(t, n)[j] as int],
        ) by {
            assert(self.held(n)[j] == leaf_items(t, n)[j]);
        }
        assert forall|x: int| 0 <= x < self.routes().len() implies #[trigger] in_a_leaf(t, x) by {
            assert(self.placed(x));
            let m = choose|m: int| 0 <= m < self.nodes@.len() && #[trigger] self.stands(m, x);
            let k = choose|k: int| 0 <= k < self.held(m).len() && self.held(m)[k] == x;
            assert(leaf_items(t, m)[k] == x);
            assert(lists(leaf_items(t, m), x));
        }
        assert(well_filled(t, places, self.routes()));
    }

    /// The tree with the given nodes and buckets, of the items with the given paths; nothing
    /// where there is none.
    pub fn from_parts(
        nodes: Vec<OctreeNode>,
        buckets: Vec<Vec<usize>>,
        paths: Vec<Vec<u8>>,
        capacity: usize,
        depth_limit: usize,
    ) -> (r: Option<Octree>)
        requires
            forall|i: int|
                0 <= i < paths@.len() ==> is_path((#[trigger] paths@[i])@, depth_limit as nat),
        ensures
            ({
                let t = parts_form(nodes@, buckets@);
                let routes = place_views(paths@);
                match r {
                    Some(tree) => {
                        &&& is_sound(t, routes, depth_limit as nat)
                        &&& tree.wf()
                        &&& tree.form() == t
                        &&& tree.routes() == routes
                        &&& tree.room() == capacity
                        &&& tree.limit() == depth_limit
                    },
                    None => !is_sound(t, routes, depth_limit as nat),
                }
            }),
    {
        let ghost t = parts_form(nodes@, buckets@);
        let ghost routes = place_views(paths@);
        let places = match find_places(&nodes, depth_limit) {
            Some(p) => p,
            None => {
                proof {
                    assert(node_views(nodes@) =~= t.nodes);
                }
                return None;
            },
        };
        let ghost views = place_views(places@);
        proof {
            assert(node_views(nodes@) =~= t.nodes);
        }
        if !own_buckets(&nodes, &buckets) {
            return None;
        }
        if !hold_items(&nodes, &buckets, &paths, &places) {
            return None;
        }
        let tree = Octree { nodes, buckets, paths, capacity, depth_limit, places: Ghost(views) };
        proof {
            tree.lemma_from_parts();
            assert(tree.form() =~~= t);
            assert(tree.routes() =~= routes);
            tree.lemma_sound();
        }
        Some(tree)
    }

    /// A tree with sound links and items is in order.
    proof fn lemma_from_parts(&self)
        requires
            well_owned(parts_form(self.nodes@, self.buckets@)),
            well_placed(
                parts_form(self.nodes@, self.buckets@).nodes,
                self.places@,
                self.depth_limit as nat,
            ),
            well_filled(
                parts_form(self.nodes@, self.buckets@),
                self.places@,
                place_views(self.paths@),
            ),
            forall|i: int|
                0 <= i < self.places@.len() ==> is_path(
                    #[trigger] self.places@[i],
                    self.places@[i].len(),
                ),
            forall|i: int|
                0 <= i < self.paths@.len() ==> is_path(
                    (#[trigger] self.paths@[i])@,
                    self.depth_limit as nat,
                ),
        ensures
            self.wf(),
    {
        let t = parts_form(self.nodes@, self.buckets@);
        assert forall|i: int| 0 <= i < self.nodes@.len() implies t.nodes[i].bucket == (
        #[trigger] self.nodes@[i]).bucket && t.nodes[i].children == self.nodes@[i].children@ by {}
        assert forall|i: int, o: int| 0 <= i < self.nodes@.len() && 0 <= o < 8 implies (
        match #[trigger] self.nodes@[i].children@[o] {
            Some(c) => {
                &&& i < c < self.nodes@.len()
                &&& self.nodes@[i].bucket is None
                &&& self.places@[c as int] == self.places@[i].push(o as u8)
            },
            None => true,
        }) by {
            assert(t.nodes[i].children[o] == self.nodes@[i].children@[o]);
        }
        assert forall|c: int| 1 <= c < self.nodes@.len() implies #[trigger] self.has_parent(c) by {
            assert(is_child(t.nodes, c));
            let (p, o) = choose|p: int, o: int|
                0 <= p < c && 0 <= o < 8 && #[trigger] t.nodes[p].children[o] == Some(c as usize);
            let n: usize = self.nodes.len();
            assert(self.nodes@[p].children@[o] == t.nodes[p].children[o]);
            assert(self.parent_of(p, o, c));
        }
        assert forall|i: int, j: int|
            0 <= i < self.nodes@.len() && 0 <= j < self.nodes@.len() && i != j && (
            #[trigger] self.nodes@[i]).bucket is Some implies (#[trigger] self.nodes@[j]).bucket
            != self.nodes@[i].bucket by {
            assert(t.nodes[i].bucket is Some);
            assert(t.nodes[j].bucket != t.nodes[i].bucket);
        }
        assert forall|i: int| 0 <= i < self.nodes@.len() implies ((
        #[trigger] self.nodes@[i]).bucket matches Some(b) ==> b < self.buckets@.len()) by {
            assert(t.nodes[i].bucket == self.nodes@[i].bucket);
        }
        assert forall|i: int| 0 <= i < self.nodes@.len() implies {
            &&& (#[trigger] self.places@[i]).len() <= self.depth_limit
            &&& self.nodes@[i].bucket is None ==> self.places@[i].len() < self.depth_limit
            &&& is_path(self.places@[i], self.places@[i].len())
        } by {
            assert(t.nodes[i].bucket == self.nodes@[i].bucket);
        }
        assert(self.shaped());
        assert forall|n: int|
            0 <= n < self.nodes@.len() && self.nodes@[n].bucket is Some implies
            #[trigger] self.held(n) == leaf_items(t, n) && t.nodes[n].bucket is Some by {
            assert(t.nodes[n].bucket == self.nodes@[n].bucket);
        }
        assert forall|n: int, j: int|
            #![trigger self.held(n)[j]]
            0 <= n < self.nodes@.len() && self.nodes@[n].bucket is Some && 0 <= j < self.held(
                n,
            ).len() implies {
            let x = self.held(n)[j] as int;
            &&& x < self.paths@.len()
            &&& !Set::<int>::empty().contains(x)
            &&& begins(self.places@[n], self.paths@[x]@)
        } by {
            assert(leaf_items(t, n)[j] == self.held(n)[j]);
        }
        assert forall|x: int| 0 <= x < self.paths@.len() implies #[trigger] self.placed(x) by {
            assert(in_a_leaf(t, x));
            let m = choose|m: int|
                0 <= m < t.nodes.len() && t.nodes[m].bucket is Some && lists(
                    #[trigger] leaf_items(t, m),
                    x,
                );
            let k = choose|k: int|
                0 <= k < leaf_items(t, m).len() && #[trigger] leaf_items(t, m)[k] == x;
            assert(self.held(m) == leaf_items(t, m)) by {
                assert(t.nodes[m].bucket == self.nodes@[m].bucket);
            }
            assert(self.held(m)[k] == x);
            assert(self.stands(m, x));
        }
        assert(self.filled(Set::empty()));
    }

    /// A leaf holds the items whose path begins with its place, each once; where the items were
    /// filed in their order, they stand in the order of their arrival, and are no more than a
    /// leaf holds.
    pub proof fn law_leaf_holds_its_region(&self, n: int)
        requires
            self.wf(),
            0 <= n < self.size(),
            self.leaf(n),
        ensures
            self.held(n).no_duplicates(),
            forall|x: int| #[trigger] self.under(n).contains(x) <==> lists(self.held(n), x),
            self.filed() ==> ascending(self.held(n)) && (self.held(n).len() <= self.room()
                || self.place(n).len() == self.limit()),
    {
        assert forall|x: int| #[trigger] self.under(n).contains(x) implies lists(self.held(n), x) by {
            assert(self.placed(x));
            let m = choose|m: int| 0 <= m < self.nodes@.len() && #[trigger] self.stands(m, x);
            let k = choose|k: int| 0 <= k < self.held(m).len() && self.held(m)[k] == x;
            assert(self.held(m)[k] == x);
            self.lemma_one_leaf(n, m, x);
        }
    }

    /// The octants of an internal node share out its items: an item below the node is
    /// below the child of the octant that its path takes there, and below no other.
    pub proof fn law_children_share_the_region(&self, n: int, x: int)
        requires
            self.wf(),
            0 <= n < self.size(),
            !self.leaf(n),
        ensures
            self.place(n).len() < self.limit(),
            self.under(n).contains(x) ==> {
                &&& self.path(x)[self.place(n).len() as int] < 8
                &&& match self.child(n, self.path(x)[self.place(n).len() as int] as int) {
                    Some(c) => n < c < self.size() && self.under(c as int).contains(x),
                    None => false,
                }
            },
            forall|o: int|
                0 <= o < 8 ==> match #[trigger] self.child(n, o) {
                    Some(c) => n < c < self.size() && (self.under(c as int).contains(x)
                        ==> self.under(n).contains(x)
                        && self.path(x)[self.place(n).len() as int] == o),
                    None => true,
                },
    {
        let p = self.places@[n];
        let d = p.len() as int;
        if self.under(n).contains(x) {
            let s = self.paths@[x]@;
            assert(is_path(s, self.depth_limit as nat));
            assert(self.placed(x));
            let m = choose|m: int| 0 <= m < self.nodes@.len() && #[trigger] self.stands(m, x);
            let k = choose|k: int| 0 <= k < self.held(m).len() && self.held(m)[k] == x;
            assert(self.held(m)[k] == x);
            let q = self.places@[m];
            if q.len() <= d {
                assert(p.take(q.len() as int) =~= s.take(q.len() as int));
                self.lemma_leaf_is_last(m, n);
            }
            let c = self.lemma_ancestor(m, d + 1);
            assert(self.places@[c] =~= s.take(d + 1));
            let (a, o) = self.lemma_parent(c);
            assert(self.places@[c].drop_last() =~= self.places@[a]);
            assert(self.places@[c].drop_last() =~= p);
            self.lemma_places_differ(a, n);
            assert(self.places@[c].last() == o as u8);
            assert(s[d] == o);
        }
        assert forall|o: int| 0 <= o < 8 implies (match #[trigger] self.child(n, o) {
            Some(c) => n < c < self.size() && (self.under(c as int).contains(x) ==> self.under(
                n,
            ).contains(x) && self.path(x)[self.place(n).len() as int] == o),
            None => true,
        }) by {
            if let Some(c) = self.child(n, o) {
                assert(self.places@[c as int] == p.push(o as u8));
                if self.under(c as int).contains(x) {
                    let s = self.paths@[x]@;
                    assert(s.take(d) =~= s.take(d + 1).take(d));
                    assert(p.push(o as u8).take(d) =~= p);
                    assert(s.take(d + 1)[d] == s[d]);
                }
            }
        }
    }

    /// The items below a node, octant by octant and bucket by bucket.
    pub open spec fn region(&self, n: int) -> Seq<usize>
        decreases self.size() - n, 9int,
    {
        if !(0 <= n < self.size()) {
            Seq::empty()
        } else if self.leaf(n) {
            self.held(n)
        } else {
            self.region_from(n, 0)
        }
    }

    /// The items below the children of a node, from octant `o` on.
    pub open spec fn region_from(&self, n: int, o: int) -> Seq<usize>
        decreases self.size() - n, 8 - o,
    {
        if !(0 <= n < self.size()) || !(0 <= o < 8) {
            Seq::empty()
        } else {
            (match self.child(n, o) {
                Some(c) => if n < c < self.size() {
                    self.region(c as int)
                } else {
                    Seq::empty()
                },
                None => Seq::empty(),
            }) + self.region_from(n, o + 1)
        }
    }

    /// The region of a node lists the items below it, each once.
    pub proof fn law_region_lists_the_items(&self, n: int)
        requires
            self.wf(),
            0 <= n < self.size(),
        ensures
            self.region(n).no_duplicates(),
            forall|x: int| #[trigger] self.under(n).contains(x) <==> lists(self.region(n), x),
        decreases self.size() - n, 9int,
    {
        if self.leaf(n) {
            self.law_leaf_holds_its_region(n);
        } else {
            self.lemma_region_from(n, 0);
            assert forall|x: int| #[trigger] self.under(n).contains(x) <==> lists(
                self.region(n),
                x,
            ) by {
                assert(self.beyond(n, 0, x) <==> lists(self.region_from(n, 0), x));
            }
        }
    }

    /// The item stands below the node, in octant `o` or a later one.
    spec fn beyond(&self, n: int, o: int, x: int) -> bool {
        self.under(n).contains(x) && self.path(x)[self.place(n).len() as int] >= o
    }

    /// The part of an internal node's region from octant `o` on lists the items below the
    /// node whose path takes such an octant there.
    proof fn lemma_region_from(&self, n: int, o: int)
        requires
            self.wf(),
            0 <= n < self.size(),
            !self.leaf(n),
            0 <= o <= 8,
        ensures
            self.region_from(n, o).no_duplicates(),
            forall|x: int|
                #[trigger] self.beyond(n, o, x) <==> lists(self.region_from(n, o), x),
        decreases self.size() - n, 8 - o,
    {
        let s = self.region_from(n, o);
        if o == 8 {
            assert forall|x: int| #[trigger] self.beyond(n, o, x) <==> lists(s, x) by {
                self.law_children_share_the_region(n, x);
            }
        } else {
            self.lemma_region_from(n, o + 1);
            self.lemma_child(n, o);
            let rest = self.region_from(n, o + 1);
            let front = match self.child(n, o) {
                Some(c) => self.region(c as int),
                None => Seq::<usize>::empty(),
            };
            if let Some(c) = self.child(n, o) {
                self.law_region_lists_the_items(c as int);
            }
            assert(s =~= front + rest);
            assert forall|x: int| lists(front, x) <==> self.beyond(n, o, x) && !self.beyond(
                n,
                o + 1,
                x,
            ) by {
                self.law_children_share_the_region(n, x);
                if let Some(c) = self.child(n, o) {
                    assert(self.under(c as int).contains(x) <==> lists(front, x));
                }
            }
            lemma_lists_both(front, rest);
            assert forall|x: int| #[trigger] self.beyond(n, o, x) <==> lists(s, x) by {
                assert(lists(s, x) <==> lists(front, x) || lists(rest, x));
                assert(self.beyond(n, o + 1, x) <==> lists(rest, x));
            }
            assert forall|x: int| !(lists(front, x) && lists(rest, x)) by {
                assert(self.beyond(n, o + 1, x) <==> lists(rest, x));
            }
            lemma_no_duplicates_both(front, rest);
        }
    }

    /// Zooming in narrows the region: the root covers every item, and a child covers
    /// items of its parent only and no more of them.
    pub proof fn law_zooming_narrows(&self, n: int, o: int)
        requires
            self.wf(),
            0 <= n < self.size(),
            0 <= o < 8,
        ensures
            forall|x: int| #[trigger] self.under(0).contains(x) <==> 0 <= x < self.count(),
            match self.child(n, o) {
                Some(c) => c < self.size() && self.under(c as int).subset_of(self.under(n))
                    && self.region(c as int).len() <= self.region(n).len() && self.place(
                    c as int,
                ).len() == self.place(n).len() + 1,
                None => true,
            },
    {
        assert forall|x: int| 0 <= x < self.count() implies #[trigger] self.under(0).contains(x) by {
            assert(self.paths@[x]@.take(0) =~= self.places@[0]);
        }
        if let Some(c) = self.child(n, o) {
            assert(!self.leaf(n));
            assert forall|x: int| self.under(c as int).contains(x) implies self.under(n).contains(
                x,
            ) by {
                self.law_children_share_the_region(n, x);
            }
            self.law_children_share_the_region(n, 0);
            self.lemma_part_of_region(n, 0, o);
        }
    }

    proof fn lemma_part_of_region(&self, n: int, from: int, o: int)
        requires
            self.wf(),
            0 <= n < self.size(),
            0 <= from <= o < 8,
            self.child(n, o) is Some,
            n < self.child(n, o)->0 < self.size(),
        ensures
            self.region(self.child(n, o)->0 as int).len() <= self.region_from(n, from).len(),
        decreases o - from,
    {
        if from < o {
            self.lemma_part_of_region(n, from + 1, o);
        }
    }

    fn collect_into(&self, n: usize, out: &mut Vec<usize>)
        requires
            self.wf(),
            n < self.size(),
        ensures
            final(out)@ == old(out)@ + self.region(n as int),
        decreases self.size() - n,
    {
        match self.nodes[n].bucket {
            Some(b) => {
                let ghost start = out@;
                let mut i: usize = 0;
                let m: usize = self.buckets[b].len();
                while i < m
                    invariant
                        i <= m,
                        b < self.buckets@.len(),
                        m == self.buckets@[b as int]@.len(),
                        out@ == start + self.buckets@[b as int]@.take(i as int),
                    decreases m - i,
                {
                    out.push(self.buckets[b][i]);
                    i += 1;
                    proof {
                        assert(self.buckets@[b as int]@.take(i as int) =~= self.buckets@[b as int]@.take(
                            i - 1,
                        ).push(self.buckets@[b as int]@[i - 1]));
                    }
                }
                proof {
                    assert(self.buckets@[b as int]@.take(m as int) =~= self.held(n as int));
                }
            },
            None => {
                let ghost start = out@;
                let mut o: usize = 0;
                proof {
                    assert(out@ + self.region_from(n as int, 0) =~= start + self.region_from(
                        n as int,
                        0,
                    ));
                }
                while o < 8
                    invariant
                        o <= 8,
                        self.wf(),
                        n < self.size(),
                        out@ + self.region_from(n as int, o as int) == start + self.region_from(
                            n as int,
                            0,
                        ),
                    decreases 8 - o,
                {
                    let ghost before = out@;
                    let ghost rest = self.region_from(n as int, o + 1);
                    match self.nodes[n].children[o] {
                        Some(c) => {
                            proof {
                                assert(self.nodes@[n as int].children@[o as int] == Some(c));
                            }
                            self.collect_into(c, out);
                            proof {
                                assert(before + (self.region(c as int) + rest) =~= out@ + rest);
                            }
                        },
                        None => {
                            proof {
                                assert(Seq::<usize>::empty() + rest =~= rest);
                            }
                        },
                    }
                    o += 1;
                }
                proof {
                    assert(out@ + self.region_from(n as int, 8) =~= out@);
                }
            },
        }
    }

    /// The items below a node, octant by octant and bucket by bucket.
    pub fn collect_region(&self, n: usize) -> (r: Vec<usize>)
        requires
            self.wf(),
            n < self.size(),
        ensures
            r@ == self.region(n as int),
    {
        let mut out: Vec<usize> = Vec::new();
        self.collect_into(n, &mut out);
        proof {
            assert(Seq::<usize>::empty() + self.region(n as int) =~= self.region(n as int));
        }
        out
    }

    /// The root has the empty place, and no place is longer than the depth limit.
    pub proof fn lemma_root(&self, n: int)
        requires
            self.wf(),
        ensures
            self.size() >= 1,
            self.place(0) == Seq::<u8>::empty(),
            0 <= n < self.size() ==> self.place(n).len() <= self.limit() && (self.leaf(n)
                || self.place(n).len() < self.limit()),
    {
    }

    /// A child stands one octant further than its parent, which is no leaf.
    pub proof fn lemma_child(&self, n: int, o: int)
        requires
            self.wf(),
            0 <= n < self.size(),
            0 <= o < 8,
        ensures
            match self.child(n, o) {
                Some(c) => n < c < self.size() && !self.leaf(n) && self.place(c as int)
                    == self.place(n).push(o as u8),
                None => true,
            },
    {
        assert(self.nodes@[n].children@[o] == self.child(n, o));
    }

    /// The trees hold the same items, and divide by the same rule.
    pub open spec fn like(&self, other: &Octree) -> bool {
        &&& self.count() == other.count()
        &&& self.limit() == other.limit()
        &&& self.room() == other.room()
        &&& forall|x: int| 0 <= x < self.count() ==> #[trigger] self.path(x) == other.path(x)
    }

    /// A tree whose items were filed in their order is in order, and the one that this gives.
    pub proof fn law_filing_builds_the_tree(&self)
        requires
            self.filed(),
        ensures
            self.wf(),
            self.form() == built(self.routes(), self.room(), self.limit()),
    {
    }

    /// The capacity of a leaf fits the machine.
    pub proof fn lemma_room(&self)
        ensures
            self.room() <= usize::MAX,
    {
    }

    /// Trees in which like items were filed have like numbers: their nodes and buckets are the same, one by one.
    pub proof fn law_numbering_is_determined(&self, other: &Octree)
        requires
            self.filed(),
            other.filed(),
            self.like(other),
        ensures
            self.form() == other.form(),
    {
        assert(self.routes() =~= other.routes());
    }

    /// A cell that is divided in one of two like trees is divided in the other.
    proof fn lemma_divided_alike(&self, other: &Octree, n: int, m: int)
        requires
            self.filed(),
            other.filed(),
            self.like(other),
            0 <= n < self.size(),
            0 <= m < other.size(),
            self.place(n) == other.place(m),
            !self.leaf(n),
        ensures
            !other.leaf(m),
    {
        if other.leaf(m) {
            assert(self.nodes@[n].bucket is None);
            assert(self.crowded(n));
            let s = choose|s: Seq<int>| #[trigger] self.crowd(n, s);
            let held = other.held(m);
            other.law_leaf_holds_its_region(m);
            assert forall|i: int| 0 <= i < s.len() implies lists(held, #[trigger] s[i]) by {
                assert(self.path(s[i]) == other.path(s[i]));
                assert(other.under(m).contains(s[i]));
            }
            lemma_no_more(s, held);
            assert(self.places@[n].len() < self.depth_limit);
        }
    }

    /// A cell of one of two like trees has a node in the other, where its parent's has one.
    proof fn lemma_child_alike(&self, other: &Octree, n: int, m: int, o: int)
        requires
            self.filed(),
            other.filed(),
            self.like(other),
            0 <= n < self.size(),
            0 <= m < other.size(),
            self.place(n) == other.place(m),
            0 <= o < 8,
            self.child(n, o) is Some,
        ensures
            other.child(m, o) is Some,
            other.place(other.child(m, o)->0 as int) == self.place(self.child(n, o)->0 as int),
    {
        let c = self.child(n, o)->0 as int;
        self.lemma_child(n, o);
        self.lemma_divided_alike(other, n, m);
        assert(self.peopled(c));
        let x = choose|x: int|
            #[trigger] self.has_path(x) && begins(self.places@[c], self.paths@[x]@);
        let p = self.path(x);
        let d = self.place(n).len() as int;
        assert(self.place(c) == self.place(n).push(o as u8));
        assert(p.take(d) =~= self.place(n)) by {
            assert(p.take(d) =~= self.place(c).take(d));
            assert(self.place(c).take(d) =~= self.place(n));
        }
        assert(p[d] == o as u8) by {
            assert(p.take(d + 1)[d] == self.place(c)[d]);
        }
        assert(self.path(x) == other.path(x));
        assert(other.under(m).contains(x));
        other.law_children_share_the_region(m, x);
        other.lemma_child(m, o);
    }

    /// The tree depends on its items alone: of two trees that hold the same items and divide
    /// by the same rule, each cell of one is a cell of the other, divided or not, and holds
    /// the same items in the same order.
    pub proof fn law_tree_is_determined(&self, other: &Octree, n: int) -> (m: int)
        requires
            self.filed(),
            other.filed(),
            self.like(other),
            0 <= n < self.size(),
        ensures
            0 <= m < other.size(),
            other.place(m) == self.place(n),
            other.leaf(m) == self.leaf(n),
            self.leaf(n) ==> other.held(m) == self.held(n),
        decreases self.place(n).len(),
    {
        let m = if n == 0 {
            other.lemma_root(0);
            0
        } else {
            let (q, o) = self.lemma_parent(n);
            assert(self.child(q, o) == Some(n as usize));
            let r = self.law_tree_is_determined(other, q);
            self.lemma_child_alike(other, q, r, o);
            other.lemma_child(r, o);
            other.child(r, o)->0 as int
        };
        assert(other.place(m) == self.place(n));
        if !self.leaf(n) {
            self.lemma_divided_alike(other, n, m);
        } else {
            if !other.leaf(m) {
                other.lemma_divided_alike(self, m, n);
            }
            self.law_leaf_holds_its_region(n);
            other.law_leaf_holds_its_region(m);
            assert forall|x: int| #[trigger] lists(self.held(n), x) <==> lists(
                other.held(m),
                x,
            ) by {
                if 0 <= x < self.count() {
                    assert(self.path(x) == other.path(x));
                }
                assert(self.under(n).contains(x) == other.under(m).contains(x));
            }
            lemma_ascending_unique(self.held(n), other.held(m));
        }
        m
    }

    /// What is below a cell depends on the items alone, and so does its order.
    pub proof fn law_regions_are_determined(&self, other: &Octree, n: int, m: int)
        requires
            self.filed(),
            other.filed(),
            self.like(other),
            0 <= n < self.size(),
            0 <= m < other.size(),
            self.place(n) == other.place(m),
        ensures
            self.region(n) == other.region(m),
        decreases self.limit() - self.place(n).len(), 9int,
    {
        let r = self.law_tree_is_determined(other, n);
        other.lemma_places_differ(r, m);
        if !self.leaf(n) {
            self.lemma_root(n);
            self.lemma_region_from_alike(other, n, m, 0);
        }
    }

    proof fn lemma_region_from_alike(&self, other: &Octree, n: int, m: int, o: int)
        requires
            self.filed(),
            other.filed(),
            self.like(other),
            0 <= n < self.size(),
            0 <= m < other.size(),
            self.place(n) == other.place(m),
            self.place(n).len() < self.limit(),
            0 <= o <= 8,
        ensures
            self.region_from(n, o) == other.region_from(m, o),
        decreases self.limit() - self.place(n).len(), 8 - o,
    {
        if o < 8 {
            self.lemma_region_from_alike(other, n, m, o + 1);
            self.lemma_child(n, o);
            other.lemma_child(m, o);
            if self.child(n, o) is Some {
                self.lemma_child_alike(other, n, m, o);
                let c = self.child(n, o)->0 as int;
                let d = other.child(m, o)->0 as int;
                self.lemma_root(c);
                self.law_regions_are_determined(other, c, d);
            } else if other.child(m, o) is Some {
                other.lemma_child_alike(self, m, n, o);
            }
        }
    }

    /// Few items make one leaf: as many as it holds do not divide the whole.
    pub proof fn law_few_items_make_one_leaf(&self)
        requires
            self.filed(),
            self.count() <= self.room(),
        ensures
            self.size() == 1,
            self.leaf(0),
    {
        self.lemma_root(0);
        if !self.leaf(0) {
            assert(self.nodes@[0].bucket is None);
            assert(self.crowded(0));
            let s = choose|s: Seq<int>| #[trigger] self.crowd(0, s);
            let all = Seq::new(self.count(), |i: int| i as usize);
            assert forall|i: int| 0 <= i < s.len() implies lists(all, #[trigger] s[i]) by {
                let n: usize = self.paths.len();
                assert(all[s[i]] == s[i]);
            }
            lemma_no_more(s, all);
        }
        if self.size() > 1 {
            assert(self.places@[1].take(0) =~= self.places@[0]);
            self.lemma_leaf_is_last(0, 1);
        }
    }

    /// No node is there without need: a cell is divided where more items are in it than a leaf
    /// holds, and only there, down to the depth limit; and a cell other than the whole has a
    /// node only where an item is in it.
    pub proof fn law_cells_divide_when_full(&self, n: int)
        requires
            self.filed(),
            0 <= n < self.size(),
        ensures
            self.leaf(n) == (self.region(n).len() <= self.room() || self.place(n).len()
                == self.limit()),
            n > 0 ==> self.region(n).len() > 0,
    {
        self.law_region_lists_the_items(n);
        self.lemma_root(n);
        if n > 0 {
            assert(self.peopled(n));
            let x = choose|x: int|
                #[trigger] self.has_path(x) && begins(self.places@[n], self.paths@[x]@);
            assert(self.under(n).contains(x));
            assert(lists(self.region(n), x));
        }
        if self.leaf(n) {
            self.law_leaf_holds_its_region(n);
        } else {
            assert(self.nodes@[n].bucket is None);
            let s = choose|s: Seq<int>| #[trigger] self.crowd(n, s);
            assert forall|i: int| 0 <= i < s.len() implies lists(
                self.region(n),
                #[trigger] s[i],
            ) by {
                assert(self.under(n).contains(s[i]));
            }
            lemma_no_more(s, self.region(n));
        }
    }
}

/// Whether one path is another with one more octant.
fn is_next(q: &Vec<u8>, p: &Vec<u8>, o: u8) -> (r: bool)
    ensures
        r == (q@ == p@.push(o)),
{
    if q.len() == 0 || q.len() - 1 != p.len() {
        return false;
    }
    let mut i: usize = 0;
    while i < p.len()
        invariant
            i <= p@.len(),
            q@.len() == p@.len() + 1,
            forall|j: int| 0 <= j < i ==> #[trigger] q@[j] == p@[j],
        decreases p@.len() - i,
    {
        if q[i] != p[i] {
            proof {
                assert(p@.push(o)[i as int] == p@[i as int]);
            }
            return false;
        }
        i += 1;
    }
    if q[i] != o {
        proof {
            assert(p@.push(o)[i as int] == o);
        }
        return false;
    }
    proof {
        assert(q@ =~= p@.push(o));
    }
    true
}

/// A path with one more octant.
fn next_place(p: &Vec<u8>, o: u8) -> (q: Vec<u8>)
    ensures
        q@ == p@.push(o),
{
    let mut q = p.clone();
    proof {
        assert(q@ =~= p@);
    }
    q.push(o);
    q
}

/// Whether a path begins another.
fn begins_with(p: &Vec<u8>, s: &Vec<u8>) -> (r: bool)
    ensures
        r == begins(p@, s@),
{
    if p.len() > s.len() {
        return false;
    }
    let mut i: usize = 0;
    while i < p.len()
        invariant
            i <= p@.len() <= s@.len(),
            forall|j: int| 0 <= j < i ==> #[trigger] p@[j] == s@[j],
        decreases p@.len() - i,
    {
        if p[i] != s[i] {
            proof {
                assert(s@.take(p@.len() as int)[i as int] == s@[i as int]);
            }
            return false;
        }
        i += 1;
    }
    proof {
        assert(s@.take(p@.len() as int) =~= p@);
    }
    true
}

/// What is known of places agrees with them.
spec fn agrees(known: Seq<Option<Vec<u8>>>, places: Seq<Seq<u8>>) -> bool {
    forall|j: int|
        0 <= j < known.len() && (#[trigger] known[j]) is Some ==> known[j]->0@ == places[j]
}

/// The links from a node, as far as they were followed, lead to places that are known.
spec fn followed(nodes: Seq<NodeView>, known: Seq<Option<Vec<u8>>>, i: int, o: int) -> bool {
    match nodes[i].children[o] {
        Some(c) => {
            &&& i < c < nodes.len()
            &&& nodes[i].bucket is None
            &&& known[c as int] is Some
            &&& known[c as int]->0@ == known[i]->0@.push(o as u8)
        },
        None => true,
    }
}

/// The places of nodes that are linked as cells are divided, or nothing where they are not.
fn find_places(nodes: &Vec<OctreeNode>, limit: usize) -> (r: Option<Vec<Vec<u8>>>)
    ensures
        match r {
            Some(p) => {
                &&& well_placed(node_views(nodes@), place_views(p@), limit as nat)
                &&& forall|i: int|
                    0 <= i < p@.len() ==> is_path((#[trigger] p@[i])@, p@[i]@.len())
                &&& forall|w: Seq<Seq<u8>>| #[trigger]
                    well_placed(node_views(nodes@), w, limit as nat) ==> w == place_views(p@)
            },
            None => forall|w: Seq<Seq<u8>>| !(#[trigger] well_placed(
                node_views(nodes@),
                w,
                limit as nat,
            )),
        },
{
    let ghost ns = node_views(nodes@);
    let ghost most = limit as nat;
    let n: usize = nodes.len();
    if n == 0 {
        return None;
    }
    let mut known: Vec<Option<Vec<u8>>> = Vec::new();
    let root: Vec<u8> = Vec::new();
    proof {
        assert(root@ =~= Seq::<u8>::empty());
    }
    known.push(Some(root));
    while known.len() < n
        invariant
            1 <= known@.len() <= n,
            known@[0] == Some(root),
            forall|j: int| 1 <= j < known@.len() ==> (#[trigger] known@[j]) is None,
        decreases n - known@.len(),
    {
        known.push(None);
    }
    let mut out: Vec<Vec<u8>> = Vec::new();
    let mut i: usize = 0;
    while i < n
        invariant
            i <= n,
            n == nodes@.len(),
            n == known@.len(),
            n >= 1,
            ns == node_views(nodes@),
            most == limit,
            known@[0] is Some,
            known@[0]->0@ == Seq::<u8>::empty(),
            out@.len() == i,
            forall|j: int|
                0 <= j < i ==> (#[trigger] known@[j]) is Some && known@[j]->0@ == out@[j]@,
            forall|j: int|
                0 <= j < i ==> (#[trigger] out@[j])@.len() <= most && (ns[j].bucket is None
                    ==> out@[j]@.len() < most),
            forall|p: int, q: int|
                0 <= p < i && 0 <= q < 8 ==> #[trigger] followed(ns, known@, p, q),
            forall|j: int|
                1 <= j < n && (#[trigger] known@[j]) is Some ==> is_child(ns, j),
            forall|j: int|
                0 <= j < n && (#[trigger] known@[j]) is Some ==> is_path(
                    known@[j]->0@,
                    known@[j]->0@.len(),
                ),
            forall|w: Seq<Seq<u8>>| #[trigger] well_placed(ns, w, most) ==> agrees(known@, w),
        decreases n - i,
    {
        let place: Vec<u8> = match &known[i] {
            Some(p) => {
                let q = p.clone();
                proof {
                    assert(q@ =~= p@);
                }
                q
            },
            None => {
                proof {
                    assert forall|w: Seq<Seq<u8>>| !(#[trigger] well_placed(ns, w, most)) by {
                        if well_placed(ns, w, most) {
                            assert(is_child(ns, i as int));
                            let (p, o) = choose|p: int, o: int|
                                0 <= p < i && 0 <= o < 8 && #[trigger] ns[p].children[o] == Some(
                                    i as usize,
                                );
                            assert(followed(ns, known@, p, o));
                        }
                    }
                }
                return None;
            },
        };
        let node = nodes[i];
        let ghost k0 = known@;
        proof {
            assert(ns[i as int] == (NodeView { children: node.children@, bucket: node.bucket }));
        }
        if place.len() > limit || (node.bucket.is_none() && place.len() == limit) {
            proof {
                assert forall|w: Seq<Seq<u8>>| !(#[trigger] well_placed(ns, w, most)) by {
                    if well_placed(ns, w, most) {
                        assert(agrees(known@, w));
                        assert(w[i as int] == known@[i as int]->0@);
                    }
                }
            }
            return None;
        }
        let mut o: usize = 0;
        while o < 8
            invariant
                o <= 8,
                i < n,
                n == nodes@.len(),
                n == known@.len(),
                k0.len() == n,
                ns == node_views(nodes@),
                most == limit,
                ns[i as int].children == node.children@,
                ns[i as int].bucket == node.bucket,
                known@[i as int] is Some,
                known@[i as int]->0@ == place@,
                is_path(place@, place@.len()),
                forall|j: int| 0 <= j <= i ==> #[trigger] known@[j] == k0[j],
                forall|j: int| 0 <= j < n && (#[trigger] k0[j]) is Some ==> known@[j] == k0[j],
                forall|p: int, q: int|
                    0 <= p < i && 0 <= q < 8 ==> #[trigger] followed(ns, known@, p, q),
                forall|q: int| 0 <= q < o ==> #[trigger] followed(ns, known@, i as int, q),
                forall|j: int|
                    1 <= j < n && (#[trigger] known@[j]) is Some ==> is_child(ns, j),
                forall|j: int|
                    0 <= j < n && (#[trigger] known@[j]) is Some ==> is_path(
                        known@[j]->0@,
                        known@[j]->0@.len(),
                    ),
                forall|w: Seq<Seq<u8>>| #[trigger] well_placed(ns, w, most) ==> agrees(known@, w),
            decreases 8 - o,
        {
            let ghost before = known@;
            if let Some(c) = node.children[o] {
                proof {
                    assert(ns[i as int].children[o as int] == Some(c));
                }
                if c <= i || c >= n || node.bucket.is_some() {
                    return None;
                }
                let held = match &known[c] {
                    Some(q) => Some(is_next(q, &place, o as u8)),
                    None => None,
                };
                match held {
                    Some(true) => {},
                    Some(false) => {
                        proof {
                            assert forall|w: Seq<Seq<u8>>|
                                !(#[trigger] well_placed(ns, w, most)) by {
                                if well_placed(ns, w, most) {
                                    assert(agrees(known@, w));
                                    assert(w[c as int] == known@[c as int]->0@);
                                    assert(w[i as int] == known@[i as int]->0@);
                                }
                            }
                        }
                        return None;
                    },
                    None => {
                        let next = next_place(&place, o as u8);
                        known.set(c, Some(next));
                        proof {
                            assert(is_child(ns, c as int));
                            assert forall|w: Seq<Seq<u8>>| #[trigger]
                                well_placed(ns, w, most) implies agrees(known@, w) by {
                                assert(agrees(before, w));
                                assert(w[i as int] == before[i as int]->0@);
                                assert forall|j: int|
                                    0 <= j < known@.len() && (#[trigger] known@[j])
                                        is Some implies known@[j]->0@ == w[j] by {
                                    if j != c {
                                        assert(known@[j] == before[j]);
                                    }
                                }
                            }
                        }
                    },
                }
                proof {
                    assert(followed(ns, known@, i as int, o as int));
                    assert forall|p: int, q: int| 0 <= p < i && 0 <= q < 8 implies
                        #[trigger] followed(ns, known@, p, q) by {
                        assert(followed(ns, before, p, q));
                        assert(known@[p] == before[p]);
                    }
                    assert forall|q: int| 0 <= q < o implies #[trigger] followed(
                        ns,
                        known@,
                        i as int,
                        q,
                    ) by {
                        assert(followed(ns, before, i as int, q));
                    }
                }
            }
            o += 1;
        }
        out.push(place);
        proof {
            assert forall|p: int, q: int| 0 <= p < i + 1 && 0 <= q < 8 implies #[trigger] followed(
                ns,
                known@,
                p,
                q,
            ) by {}
        }
        i += 1;
    }
    proof {
        let views = place_views(out@);
        assert forall|j: int, o: int| 0 <= j < n && 0 <= o < 8 implies (
        match #[trigger] ns[j].children[o] {
            Some(c) => {
                &&& j < c < n
                &&& ns[j].bucket is None
                &&& views[c as int] == views[j].push(o as u8)
            },
            None => true,
        }) by {
            assert(followed(ns, known@, j, o));
            if let Some(c) = ns[j].children[o] {
                assert(known@[c as int]->0@ == out@[c as int]@);
                assert(known@[j]->0@ == out@[j]@);
            }
        }
        assert forall|c: int| 1 <= c < n implies #[trigger] is_child(ns, c) by {
            assert(known@[c] is Some);
        }
        assert(views[0] == known@[0]->0@);
        assert forall|j: int| 0 <= j < n implies (#[trigger] views[j]).len() <= most && (
        ns[j].bucket is None ==> views[j].len() < most) by {
            assert(out@[j]@ == views[j]);
        }
        assert(well_placed(ns, views, most));
        assert forall|w: Seq<Seq<u8>>| #[trigger] well_placed(ns, w, most) implies w == views by {
            assert(agrees(known@, w));
            assert forall|j: int| 0 <= j < n implies w[j] == #[trigger] views[j] by {
                assert(known@[j]->0@ == out@[j]@);
            }
            assert(w =~= views);
        }
        assert forall|j: int| 0 <= j < out@.len() implies is_path(
            (#[trigger] out@[j])@,
            out@[j]@.len(),
        ) by {
            assert(known@[j]->0@ == out@[j]@);
        }
    }
    Some(out)
}

/// Whether every leaf has a bucket of its own.
fn own_buckets(nodes: &Vec<OctreeNode>, buckets: &Vec<Vec<usize>>) -> (r: bool)
    ensures
        r == well_owned(parts_form(nodes@, buckets@)),
{
    let ghost t = parts_form(nodes@, buckets@);
    let mut owner: Vec<usize> = Vec::new();
    while owner.len() < buckets.len()
        invariant
            owner@.len() <= buckets@.len(),
            forall|b: int| 0 <= b < owner@.len() ==> #[trigger] owner@[b] == 0,
        decreases buckets@.len() - owner@.len(),
    {
        owner.push(0);
    }
    let mut i: usize = 0;
    while i < nodes.len()
        invariant
            i <= nodes@.len(),
            owner@.len() == buckets@.len(),
            t == parts_form(nodes@, buckets@),
            forall|b: int|
                0 <= b < owner@.len() && (#[trigger] owner@[b]) > 0 ==> owner@[b] <= i
                    && t.nodes[owner@[b] - 1].bucket == Some(b as usize),
            forall|j: int|
                0 <= j < i ==> ((#[trigger] t.nodes[j]).bucket matches Some(b) ==> b
                    < buckets@.len() && owner@[b as int] == j + 1),
        decreases nodes@.len() - i,
    {
        let node = nodes[i];
        proof {
            assert(t.nodes[i as int].bucket == node.bucket);
        }
        if let Some(b) = node.bucket {
            if b >= buckets.len() {
                return false;
            }
            if owner[b] > 0 {
                proof {
                    let j = owner@[b as int] - 1;
                    assert(t.nodes[j].bucket is Some);
                    assert(t.nodes[i as int].bucket == t.nodes[j].bucket);
                }
                return false;
            }
            let ghost before = owner@;
            owner.set(b, i + 1);
            proof {
                assert forall|j: int| 0 <= j < i + 1 implies ((
                #[trigger] t.nodes[j]).bucket matches Some(d) ==> d < buckets@.len()
                    && owner@[d as int] == j + 1) by {
                    if j < i {
                        if let Some(d) = t.nodes[j].bucket {
                            assert(before[d as int] == j + 1);
                            assert(d != b);
                        }
                    }
                }
                assert forall|d: int| 0 <= d < owner@.len() && (
                #[trigger] owner@[d]) > 0 implies owner@[d] <= i + 1 && t.nodes[owner@[d]
                    - 1].bucket == Some(d as usize) by {
                    if d != b {
                        assert(before[d] == owner@[d]);
                    }
                }
            }
        }
        i += 1;
    }
    proof {
        assert forall|p: int, q: int|
            0 <= p < t.nodes.len() && 0 <= q < t.nodes.len() && p != q && (
            #[trigger] t.nodes[p]).bucket is Some implies (#[trigger] t.nodes[q]).bucket
            != t.nodes[p].bucket by {
            if t.nodes[q].bucket == t.nodes[p].bucket {
                let b = t.nodes[p].bucket->0;
                assert(owner@[b as int] == p + 1);
                assert(owner@[b as int] == q + 1);
            }
        }
        assert(well_owned(t));
    }
    true
}

/// The items of a leaf are there, and their paths begin with its place.
spec fn held_well(t: TreeView, places: Seq<Seq<u8>>, paths: Seq<Seq<u8>>, n: int, j: int) -> bool {
    leaf_items(t, n)[j] < paths.len() && begins(places[n], paths[leaf_items(t, n)[j] as int])
}

/// Whether every item stands in a leaf whose place begins its path, and none twice in one.
fn hold_items(
    nodes: &Vec<OctreeNode>,
    buckets: &Vec<Vec<usize>>,
    paths: &Vec<Vec<u8>>,
    places: &Vec<Vec<u8>>,
) -> (r: bool)
    requires
        places@.len() == nodes@.len(),
        well_owned(parts_form(nodes@, buckets@)),
    ensures
        r == well_filled(
            parts_form(nodes@, buckets@),
            place_views(places@),
            place_views(paths@),
        ),
{
    let ghost t = parts_form(nodes@, buckets@);
    let ghost pl = place_views(places@);
    let ghost ps = place_views(paths@);
    let mut seen: Vec<usize> = Vec::new();
    while seen.len() < paths.len()
        invariant
            seen@.len() <= paths@.len(),
            forall|x: int| 0 <= x < seen@.len() ==> #[trigger] seen@[x] == 0,
        decreases paths@.len() - seen@.len(),
    {
        seen.push(0);
    }
    let mut n: usize = 0;
    while n < nodes.len()
        invariant
            n <= nodes@.len(),
            places@.len() == nodes@.len(),
            seen@.len() == paths@.len(),
            t == parts_form(nodes@, buckets@),
            pl == place_views(places@),
            ps == place_views(paths@),
            well_owned(t),
            forall|m: int, j: int|
                0 <= m < n && t.nodes[m].bucket is Some && 0 <= j < leaf_items(t, m).len()
                    ==> #[trigger] held_well(t, pl, ps, m, j),
            forall|m: int|
                0 <= m < n && t.nodes[m].bucket is Some ==> (#[trigger] leaf_items(
                    t,
                    m,
                )).no_duplicates(),
            forall|x: int|
                0 <= x < seen@.len() && (#[trigger] seen@[x]) > 0 ==> seen@[x] <= n && in_a_leaf(
                    t,
                    x,
                ),
            forall|m: int, j: int|
                #![trigger leaf_items(t, m)[j]]
                0 <= m < n && t.nodes[m].bucket is Some && 0 <= j < leaf_items(t, m).len()
                    ==> leaf_items(t, m)[j] < seen@.len() && seen@[leaf_items(t, m)[j] as int] > 0,
        decreases nodes@.len() - n,
    {
        let node = nodes[n];
        proof {
            assert(t.nodes[n as int].bucket == node.bucket);
        }
        if let Some(b) = node.bucket {
            let ghost items = leaf_items(t, n as int);
            proof {
                assert(t.nodes[n as int].bucket is Some);
                assert(items == buckets@[b as int]@);
            }
            let mark: usize = n + 1;
            let mut j: usize = 0;
            while j < buckets[b].len()
                invariant
                    j <= items.len(),
                    mark == n + 1,
                    n < nodes@.len(),
                    b < buckets@.len(),
                    items == buckets@[b as int]@,
                    items == leaf_items(t, n as int),
                    t == parts_form(nodes@, buckets@),
                    t.nodes.len() == nodes@.len(),
                    t.nodes[n as int].bucket is Some,
                    places@.len() == nodes@.len(),
                    seen@.len() == paths@.len(),
                    pl == place_views(places@),
                    ps == place_views(paths@),
                    forall|k: int|
                        0 <= k < j ==> #[trigger] held_well(t, pl, ps, n as int, k),
                    forall|k: int|
                        0 <= k < j ==> (#[trigger] items[k]) < seen@.len() && seen@[items[k] as int]
                            == n + 1,
                    forall|k: int, l: int|
                        0 <= k < l < j ==> #[trigger] items[k] != #[trigger] items[l],
                    forall|x: int|
                        0 <= x < seen@.len() && (#[trigger] seen@[x]) == n + 1 ==> exists|k: int|
                            0 <= k < j && #[trigger] items[k] == x,
                    forall|x: int|
                        0 <= x < seen@.len() && (#[trigger] seen@[x]) > 0 ==> seen@[x] <= n + 1
                            && in_a_leaf(t, x),
                    forall|m: int, k: int|
                        #![trigger leaf_items(t, m)[k]]
                        0 <= m < n && t.nodes[m].bucket is Some && 0 <= k < leaf_items(t, m).len()
                            ==> leaf_items(t, m)[k] < seen@.len() && seen@[leaf_items(
                            t,
                            m,
                        )[k] as int] > 0,
                decreases items.len() - j,
            {
                let x: usize = buckets[b][j];
                proof {
                    assert(leaf_items(t, n as int)[j as int] == x);
                }
                if x >= paths.len() {
                    return false;
                }
                proof {
                    assert(ps[x as int] == paths@[x as int]@);
                    assert(pl[n as int] == places@[n as int]@);
                }
                if !begins_with(&places[n], &paths[x]) {
                    return false;
                }
                if seen[x] == mark {
                    proof {
                        let k = choose|k: int| 0 <= k < j && #[trigger] items[k] == x;
                        assert(items[k] == items[j as int]);
                        assert(!leaf_items(t, n as int).no_duplicates());
                    }
                    return false;
                }
                let ghost before = seen@;
                seen.set(x, mark);
                proof {
                    assert(held_well(t, pl, ps, n as int, j as int));
                    assert(items[j as int] == x);
                    assert(lists(leaf_items(t, n as int), x as int));
                    assert(in_a_leaf(t, x as int));
                    assert forall|y: int|
                        0 <= y < seen@.len() && (#[trigger] seen@[y]) == n + 1 implies exists|k: int|
                        0 <= k < j + 1 && #[trigger] items[k] == y by {
                        if y != x {
                            assert(before[y] == n + 1);
                            let k = choose|k: int| 0 <= k < j && #[trigger] items[k] == y;
                            assert(items[k] == y);
                        }
                    }
                    assert forall|y: int| 0 <= y < seen@.len() && (#[trigger] seen@[y]) > 0 implies
                        seen@[y] <= n + 1 && in_a_leaf(t, y) by {
                        if y != x {
                            assert(before[y] > 0);
                        }
                    }
                    assert forall|k: int, l: int| 0 <= k < l < j + 1 implies #[trigger] items[k]
                        != #[trigger] items[l] by {
                        if l == j {
                            assert(before[items[k] as int] == n + 1);
                        }
                    }
                }
                j += 1;
            }
        }
        proof {
            if t.nodes[n as int].bucket is Some {
                let items = leaf_items(t, n as int);
                assert(items.no_duplicates());
                assert forall|m: int, j: int|
                    #![trigger leaf_items(t, m)[j]]
                    0 <= m < n + 1 && t.nodes[m].bucket is Some && 0 <= j < leaf_items(
                        t,
                        m,
                    ).len() implies leaf_items(t, m)[j] < seen@.len() && seen@[leaf_items(
                    t,
                    m,
                )[j] as int] > 0 by {
                    if m == n {
                        assert(items[j] < seen@.len());
                    }
                }
            }
        }
        n += 1;
    }
    proof {
        assert forall|m: int, j: int|
            #![trigger leaf_items(t, m)[j]]
            0 <= m < t.nodes.len() && t.nodes[m].bucket is Some && 0 <= j < leaf_items(
                t,
                m,
            ).len() implies leaf_items(t, m)[j] < ps.len() && begins(
            pl[m],
            ps[leaf_items(t, m)[j] as int],
        ) by {
            assert(held_well(t, pl, ps, m, j));
        }
    }
    let mut x: usize = 0;
    while x < seen.len()
        invariant
            x <= seen@.len(),
            seen@.len() == ps.len(),
            forall|y: int| 0 <= y < x ==> #[trigger] in_a_leaf(t, y),
            forall|y: int| 0 <= y < seen@.len() && (#[trigger] seen@[y]) > 0 ==> in_a_leaf(t, y),
            forall|m: int, j: int|
                #![trigger leaf_items(t, m)[j]]
                0 <= m < t.nodes.len() && t.nodes[m].bucket is Some && 0 <= j < leaf_items(
                    t,
                    m,
                ).len() ==> leaf_items(t, m)[j] < seen@.len() && seen@[leaf_items(
                    t,
                    m,
                )[j] as int] > 0,
            t == parts_form(nodes@, buckets@),
            pl == place_views(places@),
            ps == place_views(paths@),
        decreases seen@.len() - x,
    {
        if seen[x] == 0 {
            proof {
                if in_a_leaf(t, x as int) {
                    let m = choose|m: int|
                        0 <= m < t.nodes.len() && t.nodes[m].bucket is Some && lists(
                            #[trigger] leaf_items(t, m),
                            x as int,
                        );
                    let k = choose|k: int|
                        0 <= k < leaf_items(t, m).len() && #[trigger] leaf_items(t, m)[k] == x;
                    assert(seen@[leaf_items(t, m)[k] as int] > 0);
                }
                assert(!in_a_leaf(t, x as int));
            }
            return false;
        }
        x += 1;
    }
    true
}

proof fn lemma_no_more(s: Seq<int>, t: Seq<usize>)
    requires
        s.no_duplicates(),
        forall|i: int| 0 <= i < s.len() ==> lists(t, #[trigger] s[i]),
    ensures
        s.len() <= t.len(),
{
    let u = t.map_values(|x: usize| x as int);
    assert(s.to_set().subset_of(u.to_set())) by {
        assert forall|x: int| s.to_set().contains(x) implies u.to_set().contains(x) by {
            let i = choose|i: int| 0 <= i < s.len() && s[i] == x;
            assert(lists(t, s[i]));
            let k = choose|k: int| 0 <= k < t.len() && #[trigger] t[k] == s[i];
            assert(u[k] == x);
        }
    }
    s.unique_seq_to_set();
    u.lemma_cardinality_of_set();
    vstd::seq_lib::seq_to_set_is_finite(u);
    vstd::set_lib::lemma_len_subset(s.to_set(), u.to_set());
}

proof fn lemma_ascending_unique(a: Seq<usize>, b: Seq<usize>)
    requires
        ascending(a),
        ascending(b),
        forall|x: int| #[trigger] lists(a, x) <==> lists(b, x),
    ensures
        a == b,
    decreases a.len(),
{
    if a.len() == 0 {
        if b.len() > 0 {
            assert(lists(b, b[0] as int));
            assert(lists(a, b[0] as int));
        }
        assert(a =~= b);
    } else {
        assert(lists(a, a.last() as int)) by {
            assert(a[a.len() - 1] == a.last());
        }
        let j = choose|j: int| 0 <= j < b.len() && #[trigger] b[j] == a.last();
        assert(lists(b, b.last() as int)) by {
            assert(b[b.len() - 1] == b.last());
        }
        assert(lists(a, b.last() as int));
        let i = choose|i: int| 0 <= i < a.len() && #[trigger] a[i] == b.last();
        assert(a.last() == b.last()) by {
            if i < a.len() - 1 {
                assert(a[i] < a[a.len() - 1]);
            }
            if j < b.len() - 1 {
                assert(b[j] < b[b.len() - 1]);
            }
        }
        let c = a.drop_last();
        let d = b.drop_last();
        assert forall|x: int| #[trigger] lists(c, x) <==> lists(d, x) by {
            lemma_but_last(a, x);
            lemma_but_last(b, x);
        }
        lemma_ascending_unique(c, d);
        assert(a =~= c.push(a.last()));
        assert(b =~= d.push(b.last()));
    }
}

proof fn lemma_but_last(a: Seq<usize>, x: int)
    requires
        ascending(a),
        a.len() > 0,
    ensures
        lists(a.drop_last(), x) <==> lists(a, x) && x != a.last(),
{
    let c = a.drop_last();
    if lists(c, x) {
        let k = choose|k: int| 0 <= k < c.len() && #[trigger] c[k] == x;
        assert(a[k] == x);
        assert(a[k] < a[a.len() - 1]);
    }
    if lists(a, x) && x != a.last() {
        let k = choose|k: int| 0 <= k < a.len() && #[trigger] a[k] == x;
        assert(c[k] == x);
    }
}

} // verus!
