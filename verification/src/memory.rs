//! The spatial memory: items with payloads, filed in an octree.
//!
//! Coordinates are given as integer keys that order as the coordinates do, and paths of
//! octants; see [`crate::octree`].
use crate::error;
use crate::error::StoreError;
use crate::frac::{FracImage, ItemRecord, NodeRecord, NONE};
use crate::frac;
use crate::octree::{is_path, Octree, OctreeNode, DEFAULT_BUCKET_CAPACITY};
use crate::octree;
use vstd::prelude::*;
use vstd::slice::slice_subrange;

verus! {

/// Where the payload of an item lies in the arena.
#[derive(Clone, Copy, Debug)]
pub struct Item {
    /// The bit patterns of the projected point.
    pub point: [u32; 3],
    /// Where the payload begins.
    pub payload_offset: usize,
    /// The bytes of the payload.
    pub payload_len: usize,
}

/// A memory of items in projected space, each with a payload.
pub struct FractalMemory3D {
    tree: Octree,
    items: Vec<Item>,
    arena: Vec<u8>,
}

/// The bit of an octant that one coordinate contributes.
pub open spec fn side(point: u32, center: u32, bit: nat) -> nat {
    if point >= center {
        bit
    } else {
        0
    }
}

/// One more item is filed under the path of its point, with its payload; the others are as
/// they were.
pub open spec fn inserted(
    before: FractalMemory3D,
    after: FractalMemory3D,
    point: [u32; 3],
    path: Seq<u8>,
    payload: Seq<u8>,
) -> bool {
    let x = before.entries().len() as int;
    &&& after.wf()
    &&& after.octree().size() >= 1
    &&& before.octree().filed() ==> after.octree().filed()
    &&& after.entries().len() == x + 1
    &&& after.entries()[x].point == point
    &&& after.entries()[x].payload_offset == before.payloads().len()
    &&& after.payload(x) == payload
    &&& after.payloads() == before.payloads() + payload
    &&& after.octree().path(x) == path
    &&& after.octree().limit() == before.octree().limit()
    &&& after.octree().room() == before.octree().room()
    &&& forall|y: int|
        0 <= y < x ==> #[trigger] after.entries()[y] == before.entries()[y] && after.payload(y)
            == before.payload(y) && after.octree().path(y) == before.octree().path(y)
}

/// Every item is filed anew, in their order, under new paths; items and payloads are as they
/// were.
pub open spec fn refiled(
    before: FractalMemory3D,
    after: FractalMemory3D,
    depth_limit: nat,
    paths: Seq<Seq<u8>>,
) -> bool {
    &&& after.wf()
    &&& after.octree().filed()
    &&& after.entries() == before.entries()
    &&& after.payloads() == before.payloads()
    &&& after.octree().limit() == depth_limit
    &&& after.octree().room() == before.octree().room()
    &&& after.octree().routes() == paths
}

impl FractalMemory3D {
    /// The octree.
    pub closed spec fn octree(&self) -> Octree {
        self.tree
    }

    /// The items.
    pub closed spec fn entries(&self) -> Seq<Item> {
        self.items@
    }

    /// The payloads, one after another.
    pub closed spec fn payloads(&self) -> Seq<u8> {
        self.arena@
    }

    /// The payload of an item.
    pub open spec fn payload(&self, x: int) -> Seq<u8> {
        self.payloads().subrange(
            self.entries()[x].payload_offset as int,
            self.entries()[x].payload_offset + self.entries()[x].payload_len,
        )
    }

    /// Every item is filed, and its payload lies in the arena.
    pub open spec fn wf(&self) -> bool {
        &&& self.octree().wf()
        &&& self.octree().count() == self.entries().len()
        &&& forall|x: int|
            0 <= x < self.entries().len() ==> (#[trigger] self.entries()[x]).payload_offset
                + self.entries()[x].payload_len <= self.payloads().len()
    }

    /// An empty memory whose cells are divided down to `depth_limit`.
    pub fn new(depth_limit: usize) -> (m: FractalMemory3D)
        ensures
            m.wf(),
            m.octree().filed(),
            m.octree().size() == 1,
            m.octree().limit() == depth_limit,
            m.octree().room() == DEFAULT_BUCKET_CAPACITY,
            m.entries().len() == 0,
            m.payloads().len() == 0,
    {
        FractalMemory3D {
            tree: Octree::new(DEFAULT_BUCKET_CAPACITY, depth_limit),
            items: Vec::new(),
            arena: Vec::new(),
        }
    }

    /// The octree.
    pub fn tree(&self) -> (t: &Octree)
        ensures
            *t == self.octree(),
    {
        &self.tree
    }

    /// The number of octree nodes.
    pub fn node_count(&self) -> (n: usize)
        ensures
            n == self.octree().size(),
    {
        self.tree.node_count()
    }

    /// The number of items.
    pub fn item_count(&self) -> (n: usize)
        ensures
            n == self.entries().len(),
    {
        self.items.len()
    }

    /// The bytes of all payloads.
    pub fn arena_size(&self) -> (n: usize)
        ensures
            n == self.payloads().len(),
    {
        self.arena.len()
    }

    /// The payloads, one after another.
    pub fn arena(&self) -> (a: &[u8])
        ensures
            a@ == self.payloads(),
    {
        self.arena.as_slice()
    }

    /// An item.
    pub fn item(&self, x: usize) -> (r: Option<Item>)
        ensures
            match r {
                Some(i) => x < self.entries().len() && i == self.entries()[x as int],
                None => x >= self.entries().len(),
            },
    {
        if x < self.items.len() {
            Some(self.items[x])
        } else {
            None
        }
    }

    /// The octant of a point about a centre, from the keys of their coordinates.
    pub fn octant_index(center: [u32; 3], point: [u32; 3]) -> (o: usize)
        ensures
            o == side(point@[0], center@[0], 1) + side(point@[1], center@[1], 2) + side(
                point@[2],
                center@[2],
                4,
            ),
            o < 8,
            o % 2 == 1 <==> point@[0] >= center@[0],
            o / 2 % 2 == 1 <==> point@[1] >= center@[1],
            o / 4 == 1 <==> point@[2] >= center@[2],
    {
        let mut o: usize = 0;
        if point[0] >= center[0] {
            o += 1;
        }
        if point[1] >= center[1] {
            o += 2;
        }
        if point[2] >= center[2] {
            o += 4;
        }
        o
    }

    /// Files an item under the path of its point, with its payload, and returns its number.
    pub fn insert(&mut self, point: [u32; 3], path: Vec<u8>, payload: Option<&[u8]>) -> (x: usize)
        requires
            old(self).wf(),
            is_path(path@, old(self).octree().limit()),
            payload matches Some(p) ==> old(self).payloads().len() + p@.len() <= usize::MAX,
        ensures
            x == old(self).entries().len(),
            inserted(
                *old(self),
                *final(self),
                point,
                path@,
                match payload {
                    Some(p) => p@,
                    None => Seq::<u8>::empty(),
                },
            ),
    {
        let offset: usize = self.arena.len();
        let mut len: usize = 0;
        if let Some(p) = payload {
            self.arena.extend_from_slice(p);
            len = p.len();
        }
        let ghost added = (match payload {
            Some(p) => p@,
            None => Seq::<u8>::empty(),
        });
        proof {
            assert(self.arena@ =~= old(self).arena@ + added);
        }
        self.items.push(Item { point, payload_offset: offset, payload_len: len });
        let x: usize = self.tree.insert(path);
        proof {
            self.tree.lemma_root(0);
            assert(self.payload(x as int) =~= added);
            assert forall|y: int| 0 <= y < self.entries().len() implies (
            #[trigger] self.entries()[y]).payload_offset + self.entries()[y].payload_len
                <= self.payloads().len() by {
                if y < x {
                    assert(self.entries()[y] == old(self).entries()[y]);
                }
            }
            assert forall|y: int| 0 <= y < x implies #[trigger] self.entries()[y] == old(
                self,
            ).entries()[y] && self.payload(y) == old(self).payload(y) by {
                assert(self.entries()[y] == old(self).entries()[y]);
                assert(self.payload(y) =~= old(self).payload(y));
            }
        }
        x
    }

    /// Files every item anew under new paths, as a larger world asks for. Items and payloads
    /// stay as they are.
    pub fn refile(&mut self, depth_limit: usize, paths: Vec<Vec<u8>>)
        requires
            old(self).wf(),
            paths@.len() == old(self).entries().len(),
            forall|i: int|
                0 <= i < paths@.len() ==> is_path((#[trigger] paths@[i])@, depth_limit as nat),
        ensures
            refiled(*old(self), *final(self), depth_limit as nat, octree::place_views(paths@)),
    {
        let mut tree = Octree::new(self.tree.bucket_capacity(), depth_limit);
        let mut i: usize = 0;
        while i < paths.len()
            invariant
                i <= paths@.len(),
                tree.wf(),
                tree.filed(),
                tree.count() == i,
                tree.limit() == depth_limit,
                tree.room() == old(self).octree().room(),
                forall|j: int|
                    0 <= j < paths@.len() ==> is_path((#[trigger] paths@[j])@, depth_limit as nat),
                forall|j: int| 0 <= j < i ==> #[trigger] tree.path(j) == paths@[j]@,
            decreases paths@.len() - i,
        {
            let path = paths[i].clone();
            proof {
                assert(path@ =~= paths@[i as int]@);
            }
            let _ = tree.insert(path);
            i += 1;
        }
        self.tree = tree;
        proof {
            assert(self.octree().routes() =~= octree::place_views(paths@));
        }
    }

    /// The payload of an item, or nothing for a number that no item has.
    pub fn get_payload(&self, x: usize) -> (r: Option<&[u8]>)
        requires
            self.wf(),
        ensures
            match r {
                Some(p) => x < self.entries().len() && p@ == self.payload(x as int),
                None => x >= self.entries().len(),
            },
    {
        if x >= self.items.len() {
            return None;
        }
        let item = self.items[x];
        let total: usize = self.arena.len();
        proof {
            assert(self.entries()[x as int] == item);
            assert(item.payload_offset + item.payload_len <= total);
        }
        let end: usize = item.payload_offset + item.payload_len;
        Some(slice_subrange(self.arena.as_slice(), item.payload_offset, end))
    }

    /// The payloads of found items, in their order.
    pub fn query_k(&self, found: &[(usize, u32)]) -> (r: Vec<&[u8]>)
        requires
            self.wf(),
            forall|i: int| 0 <= i < found@.len() ==> (#[trigger] found@[i]).0 < self.entries().len(),
        ensures
            r@.len() == found@.len(),
            forall|i: int|
                0 <= i < r@.len() ==> (#[trigger] r@[i])@ == self.payload(found@[i].0 as int),
    {
        let mut out: Vec<&[u8]> = Vec::new();
        let mut i: usize = 0;
        while i < found.len()
            invariant
                i <= found@.len(),
                self.wf(),
                forall|j: int|
                    0 <= j < found@.len() ==> (#[trigger] found@[j]).0 < self.entries().len(),
                out@.len() == i,
                forall|j: int|
                    0 <= j < out@.len() ==> (#[trigger] out@[j])@ == self.payload(
                        found@[j].0 as int,
                    ),
            decreases found@.len() - i,
        {
            proof {
                assert(found@[i as int].0 < self.entries().len());
            }
            if let Some(p) = self.get_payload(found[i].0) {
                out.push(p);
            }
            i += 1;
        }
        out
    }

    /// Samples of a region: the payloads of its first items, at most `max`.
    pub fn samples(&self, n: usize, max: usize) -> (r: Vec<Vec<u8>>)
        requires
            self.wf(),
            n < self.octree().size(),
        ensures
            r@.len() == (if self.octree().region(n as int).len() < max {
                self.octree().region(n as int).len()
            } else {
                max as nat
            }),
            forall|i: int|
                0 <= i < r@.len() ==> (#[trigger] r@[i])@ == self.payload(
                    self.octree().region(n as int)[i] as int,
                ),
    {
        let items = self.tree.collect_region(n);
        let mut out: Vec<Vec<u8>> = Vec::new();
        let mut i: usize = 0;
        proof {
            self.octree().law_region_lists_the_items(n as int);
        }
        while i < items.len() && i < max
            invariant
                i <= items@.len(),
                i <= max,
                self.wf(),
                n < self.octree().size(),
                items@ == self.octree().region(n as int),
                forall|x: int|
                    #[trigger] self.octree().under(n as int).contains(x) <==> crate::octree::lists(
                        items@,
                        x,
                    ),
                out@.len() == i,
                forall|j: int|
                    0 <= j < out@.len() ==> (#[trigger] out@[j])@ == self.payload(items@[j] as int),
            decreases items@.len() - i,
        {
            proof {
                assert(crate::octree::lists(items@, items@[i as int] as int));
                assert(self.octree().under(n as int).contains(items@[i as int] as int));
            }
            if let Some(p) = self.get_payload(items[i]) {
                let mut v: Vec<u8> = Vec::new();
                v.extend_from_slice(p);
                proof {
                    assert(v@ =~= p@);
                }
                out.push(v);
            }
            i += 1;
        }
        out
    }

    /// The image record of a node, whose cell the caller gives as bit patterns; nothing
    /// where a number does not fit the record.
    pub fn node_record(&self, n: usize, center: [u32; 3], half_size: u32) -> (r: Option<NodeRecord>)
        requires
            n < self.octree().size(),
        ensures
            match r {
                Some(v) => {
                    &&& v.center == center
                    &&& v.half_size == half_size
                    &&& linked(self.octree().bucket_id(n as int), v.bucket_id)
                    &&& forall|o: int|
                        0 <= o < 8 ==> linked(
                            self.octree().child(n as int, o),
                            #[trigger] v.children@[o],
                        )
                },
                None => !fits(self.octree().bucket_id(n as int)) || exists|o: int|
                    0 <= o < 8 && !fits(#[trigger] self.octree().child(n as int, o)),
            },
    {
        let node = self.tree.node(n);
        let bucket_id: u32 = match link(node.bucket) {
            Some(b) => b,
            None => return None,
        };
        let mut children: [u32; 8] = [NONE;8];
        let mut o: usize = 0;
        while o < 8
            invariant
                o <= 8,
                n < self.octree().size(),
                forall|q: int|
                    0 <= q < 8 ==> (#[trigger] node.children@[q]) == self.octree().child(n as int, q),
                forall|q: int|
                    0 <= q < o ==> linked(
                        self.octree().child(n as int, q),
                        #[trigger] children@[q],
                    ),
            decreases 8 - o,
        {
            match link(node.children[o]) {
                Some(c) => {
                    children[o] = c;
                },
                None => {
                    proof {
                        assert(!fits(self.octree().child(n as int, o as int)));
                    }
                    return None;
                },
            }
            o += 1;
        }
        Some(NodeRecord { center, half_size, children, bucket_id })
    }

    /// The image records of the items.
    pub fn item_records(&self) -> (r: Vec<ItemRecord>)
        ensures
            r@.len() == self.entries().len(),
            forall|i: int|
                0 <= i < r@.len() ==> {
                    &&& (#[trigger] r@[i]).point == self.entries()[i].point
                    &&& r@[i].payload_offset == self.entries()[i].payload_offset
                    &&& r@[i].payload_len == self.entries()[i].payload_len
                },
            self.wf() ==> frac::first_outside(
                frac::item_views(r@),
                0,
                self.payloads().len(),
            ) is None,
    {
        let mut out: Vec<ItemRecord> = Vec::new();
        let mut i: usize = 0;
        while i < self.items.len()
            invariant
                i <= self.items@.len(),
                out@.len() == i,
                forall|j: int|
                    0 <= j < out@.len() ==> {
                        &&& (#[trigger] out@[j]).point == self.items@[j].point
                        &&& out@[j].payload_offset == self.items@[j].payload_offset
                        &&& out@[j].payload_len == self.items@[j].payload_len
                    },
            decreases self.items@.len() - i,
        {
            let x = self.items[i];
            out.push(
                ItemRecord {
                    point: x.point,
                    payload_offset: x.payload_offset,
                    payload_len: x.payload_len,
                },
            );
            i += 1;
        }
        proof {
            if self.wf() {
                assert forall|j: int| 0 <= j < out@.len() implies frac::item_views(
                    out@,
                )[j].offset + (#[trigger] frac::item_views(out@)[j]).len <= self.payloads().len() by {
                    assert(self.entries()[j].payload_offset + self.entries()[j].payload_len
                        <= self.payloads().len());
                    assert(frac::item_views(out@)[j] == out@[j]@);
                }
                lemma_none_outside(frac::item_views(out@), 0, self.payloads().len());
            }
        }
        out
    }

    /// The image records of the buckets, or nothing where an item's number does not fit.
    pub fn bucket_records(&self) -> (r: Option<Vec<Vec<u32>>>)
        ensures
            match r {
                Some(v) => {
                    &&& v@.len() == self.octree().table().len()
                    &&& forall|b: int|
                        0 <= b < v@.len() ==> same_numbers(
                            self.octree().table()[b],
                            (#[trigger] v@[b])@,
                        )
                },
                None => exists|b: int, i: int|
                    0 <= b < self.octree().table().len() && 0 <= i
                        < self.octree().table()[b].len() && (
                    #[trigger] self.octree().table()[b][i]) >= NONE,
            },
    {
        let mut out: Vec<Vec<u32>> = Vec::new();
        let count: usize = self.tree.bucket_count();
        let mut b: usize = 0;
        while b < count
            invariant
                b <= count,
                count == self.octree().table().len(),
                out@.len() == b,
                forall|j: int|
                    0 <= j < out@.len() ==> same_numbers(
                        self.octree().table()[j],
                        (#[trigger] out@[j])@,
                    ),
            decreases count - b,
        {
            let items = self.tree.bucket_at(b);
            let mut row: Vec<u32> = Vec::new();
            let mut i: usize = 0;
            while i < items.len()
                invariant
                    i <= items@.len(),
                    b < self.octree().table().len(),
                    items@ == self.octree().table()[b as int],
                    row@.len() == i,
                    forall|j: int| 0 <= j < row@.len() ==> #[trigger] row@[j] == items@[j],
                decreases items@.len() - i,
            {
                if items[i] >= NONE as usize {
                    proof {
                        assert(self.octree().table()[b as int][i as int] >= NONE);
                    }
                    return None;
                }
                row.push(items[i] as u32);
                i += 1;
            }
            out.push(row);
            b += 1;
        }
        Some(out)
    }

    /// The image of the memory, with the bit patterns of its geometry: half the world's side,
    /// half the side of the smallest cell, the cell of each node and the projection. Nothing
    /// where a number does not fit the image.
    pub fn to_image(
        &self,
        high_dim: u32,
        world_half_size: u32,
        min_half_size: u32,
        cells: &Vec<([u32; 3], u32)>,
        projection: Vec<u32>,
    ) -> (r: Option<FracImage>)
        requires
            self.wf(),
            cells@.len() == self.octree().size(),
        ensures
            match r {
                Some(i) => {
                    &&& i.high_dim == high_dim
                    &&& i.world_half_size == world_half_size
                    &&& i.min_half_size == min_half_size
                    &&& i.projection@ == projection@
                    &&& pictures(i@, self)
                    &&& i.nodes@.len() == self.octree().size()
                    &&& forall|n: int|
                        0 <= n < i.nodes@.len() ==> node_pictures(
                            #[trigger] i.nodes@[n],
                            &self.octree(),
                            n,
                            cells@[n],
                        )
                    &&& i.buckets@.len() == self.octree().table().len()
                    &&& forall|b: int|
                        0 <= b < i.buckets@.len() ==> same_numbers(
                            self.octree().table()[b],
                            (#[trigger] i.buckets@[b])@,
                        )
                },
                None => !all_fit(&self.octree()),
            },
    {
        let mut nodes: Vec<NodeRecord> = Vec::new();
        let mut n: usize = 0;
        while n < cells.len()
            invariant
                n <= cells@.len(),
                cells@.len() == self.octree().size(),
                nodes@.len() == n,
                forall|j: int|
                    0 <= j < n ==> node_pictures(
                        #[trigger] nodes@[j],
                        &self.octree(),
                        j,
                        cells@[j],
                    ),
            decreases cells@.len() - n,
        {
            let (center, half_size) = cells[n];
            match self.node_record(n, center, half_size) {
                Some(v) => nodes.push(v),
                None => return None,
            }
            n += 1;
        }
        let buckets = match self.bucket_records() {
            Some(v) => v,
            None => return None,
        };
        let items = self.item_records();
        let mut arena: Vec<u8> = Vec::new();
        arena.extend_from_slice(self.arena.as_slice());
        proof {
            assert(arena@ =~= self.payloads());
            assert forall|x: int| 0 <= x < items@.len() implies #[trigger] frac::item_views(
                items@,
            )[x] == item_view(self.entries()[x]) by {
                assert(frac::item_views(items@)[x] == items@[x]@);
            }
            let t = self.octree().form();
            assert forall|n: int| 0 <= n < nodes@.len() implies node_held(
                #[trigger] frac::node_views(nodes@)[n],
                t.nodes[n],
            ) by {
                assert(node_pictures(nodes@[n], &self.octree(), n, cells@[n]));
                let w = frac::node_views(nodes@)[n];
                assert(w == nodes@[n]@);
                assert forall|o: int| 0 <= o < 8 implies linked(
                    #[trigger] t.nodes[n].children[o],
                    w[4 + o],
                ) by {
                    assert(w[4 + o] == nodes@[n].children@[o]);
                }
            }
            assert forall|b: int| 0 <= b < buckets@.len() implies same_numbers(
                t.buckets[b],
                #[trigger] frac::bucket_views(buckets@)[b],
            ) by {
                assert(frac::bucket_views(buckets@)[b] == buckets@[b]@);
            }
        }
        Some(
            FracImage {
                high_dim,
                world_half_size,
                bucket_capacity: self.tree.bucket_capacity() as u64,
                min_half_size,
                nodes,
                buckets,
                items,
                projection,
                arena,
            },
        )
    }

    /// The memory of an image whose payloads lie in its arena, with the nodes and buckets of
    /// the image. One whose nodes and buckets do not hold its items under the paths of their
    /// points is refused.
    pub fn from_image(image: &FracImage, depth_limit: usize, paths: Vec<Vec<u8>>) -> (r: Result<
        FractalMemory3D,
        StoreError,
    >)
        requires
            frac::first_outside(image@.items, 0, image@.arena.len()) is None,
            paths@.len() == image.items@.len(),
            forall|i: int|
                0 <= i < paths@.len() ==> is_path((#[trigger] paths@[i])@, depth_limit as nat),
        ensures
            ({
                let routes = octree::place_views(paths@);
                match r {
                    Ok(m) => {
                        &&& octree::is_sound(image_form(image@), routes, depth_limit as nat)
                        &&& m.wf()
                        &&& m.octree().form() == image_form(image@)
                        &&& m.octree().limit() == depth_limit
                        &&& m.octree().room() == image.bucket_capacity as usize
                        &&& m.octree().routes() == routes
                        &&& m.payloads() == image@.arena
                        &&& m.entries().len() == image@.items.len()
                        &&& forall|x: int|
                            0 <= x < m.entries().len() ==> item_view(#[trigger] m.entries()[x])
                                == image@.items[x]
                    },
                    Err(e) => !octree::is_sound(image_form(image@), routes, depth_limit as nat)
                        && e@ == form_error(),
                }
            }),
    {
        let mut nodes: Vec<OctreeNode> = Vec::new();
        let mut i: usize = 0;
        while i < image.nodes.len()
            invariant
                i <= image.nodes@.len(),
                nodes@.len() == i,
                forall|j: int|
                    0 <= j < i ==> (#[trigger] octree::node_views(nodes@)[j]) == node_form(
                        image.nodes@[j]@,
                    ),
            decreases image.nodes@.len() - i,
        {
            let ghost before = nodes@;
            nodes.push(node_of(&image.nodes[i]));
            proof {
                assert forall|j: int| 0 <= j < i + 1 implies (#[trigger] octree::node_views(
                    nodes@,
                )[j]) == node_form(image.nodes@[j]@) by {
                    if j < i {
                        assert(octree::node_views(before)[j] == octree::node_views(nodes@)[j]);
                    }
                }
            }
            i += 1;
        }
        let mut buckets: Vec<Vec<usize>> = Vec::new();
        let mut b: usize = 0;
        while b < image.buckets.len()
            invariant
                b <= image.buckets@.len(),
                buckets@.len() == b,
                forall|j: int|
                    0 <= j < b ==> (#[trigger] buckets@[j])@ == numbers_form(image.buckets@[j]@),
            decreases image.buckets@.len() - b,
        {
            buckets.push(numbers_of(&image.buckets[b]));
            b += 1;
        }
        let mut items: Vec<Item> = Vec::new();
        let mut x: usize = 0;
        while x < image.items.len()
            invariant
                x <= image.items@.len(),
                items@.len() == x,
                forall|j: int| 0 <= j < x ==> item_view(#[trigger] items@[j]) == image.items@[j]@,
            decreases image.items@.len() - x,
        {
            let record = image.items[x];
            items.push(
                Item {
                    point: record.point,
                    payload_offset: record.payload_offset,
                    payload_len: record.payload_len,
                },
            );
            x += 1;
        }
        proof {
            let t = octree::parts_form(nodes@, buckets@);
            let f = image_form(image@);
            assert forall|j: int| 0 <= j < t.nodes.len() implies t.nodes[j] == #[trigger] f.nodes[j] by {
                assert(octree::node_views(nodes@)[j] == node_form(image.nodes@[j]@));
                assert(image@.nodes[j] == image.nodes@[j]@);
            }
            assert forall|j: int| 0 <= j < t.buckets.len() implies t.buckets[j]
                == #[trigger] f.buckets[j] by {
                assert(buckets@[j]@ == numbers_form(image.buckets@[j]@));
                assert(image@.buckets[j] == image.buckets@[j]@);
            }
            assert(t.nodes =~= f.nodes);
            assert(t.buckets =~= f.buckets);
        }
        let capacity: usize = image.bucket_capacity as usize;
        let tree = match Octree::from_parts(nodes, buckets, paths, capacity, depth_limit) {
            Some(t) => t,
            None => return Err(StoreError::invalid("FRAC nodes: not those of the items")),
        };
        let mut arena: Vec<u8> = Vec::new();
        arena.extend_from_slice(image.arena.as_slice());
        proof {
            assert(tree.routes().len() == tree.count());
            assert(arena@ =~= image@.arena);
            assert forall|x: int| 0 <= x < items@.len() implies item_view(#[trigger] items@[x])
                == image@.items[x] && items@[x].payload_offset + items@[x].payload_len
                <= arena@.len() by {
                assert(image@.items[x] == image.items@[x]@);
                lemma_all_inside(image@.items, 0, image@.arena.len(), x);
            }
        }
        Ok(FractalMemory3D { tree, items, arena })
    }
}

/// The reference that a record's field stands for.
pub open spec fn reference(field: u32) -> Option<usize> {
    if field == NONE {
        None
    } else {
        Some(field as usize)
    }
}

/// The node that the words of a record stand for.
pub open spec fn node_form(w: Seq<u32>) -> octree::NodeView {
    octree::NodeView {
        children: Seq::new(8, |o: int| reference(w[4 + o])),
        bucket: reference(w[12]),
    }
}

/// The numbers of a bucket record.
pub open spec fn numbers_form(b: Seq<u32>) -> Seq<usize> {
    b.map_values(|x: u32| x as usize)
}

/// The nodes and the buckets of an image.
pub open spec fn image_form(i: frac::ImageView) -> octree::TreeView {
    octree::TreeView {
        nodes: i.nodes.map_values(|w: Seq<u32>| node_form(w)),
        buckets: i.buckets.map_values(|b: Seq<u32>| numbers_form(b)),
    }
}

/// The reference that a record's field stands for.
fn reference_of(field: u32) -> (r: Option<usize>)
    ensures
        r == reference(field),
{
    if field == NONE {
        None
    } else {
        Some(field as usize)
    }
}

/// The node that a record stands for.
fn node_of(record: &NodeRecord) -> (n: OctreeNode)
    ensures
        (octree::NodeView { children: n.children@, bucket: n.bucket }) == node_form(record@),
{
    let mut children: [Option<usize>; 8] = [None;8];
    let mut o: usize = 0;
    while o < 8
        invariant
            o <= 8,
            forall|q: int|
                0 <= q < o ==> #[trigger] children@[q] == reference(record.children@[q]),
        decreases 8 - o,
    {
        children[o] = reference_of(record.children[o]);
        o += 1;
    }
    let bucket = reference_of(record.bucket_id);
    proof {
        assert(record@[12] == record.bucket_id);
        assert forall|q: int| 0 <= q < 8 implies #[trigger] children@[q] == reference(
            record@[4 + q],
        ) by {
            assert(record@[4 + q] == record.children@[q]);
        }
        assert(children@ =~= node_form(record@).children);
    }
    OctreeNode { children, bucket }
}

/// The numbers of a bucket record.
fn numbers_of(b: &Vec<u32>) -> (r: Vec<usize>)
    ensures
        r@ == numbers_form(b@),
{
    let mut out: Vec<usize> = Vec::new();
    let mut i: usize = 0;
    while i < b.len()
        invariant
            i <= b@.len(),
            out@.len() == i,
            forall|j: int| 0 <= j < i ==> #[trigger] out@[j] == b@[j] as usize,
        decreases b@.len() - i,
    {
        out.push(b[i] as usize);
        i += 1;
    }
    proof {
        assert(out@ =~= numbers_form(b@));
    }
    out
}

/// The words of a node record hold a node's links.
pub open spec fn node_held(w: Seq<u32>, n: octree::NodeView) -> bool {
    &&& linked(n.bucket, w[12])
    &&& forall|o: int| 0 <= o < 8 ==> linked(#[trigger] n.children[o], w[4 + o])
}

/// An image holds the nodes and the buckets of a tree.
pub open spec fn form_held(i: frac::ImageView, t: octree::TreeView) -> bool {
    nodes_held(i.nodes, t) && buckets_held(i.buckets, t)
}

/// Node records hold the nodes of a tree.
pub open spec fn nodes_held(nodes: Seq<Seq<u32>>, t: octree::TreeView) -> bool {
    &&& nodes.len() == t.nodes.len()
    &&& forall|n: int| 0 <= n < nodes.len() ==> node_held(#[trigger] nodes[n], t.nodes[n])
}

/// Bucket records hold the buckets of a tree.
pub open spec fn buckets_held(buckets: Seq<Seq<u32>>, t: octree::TreeView) -> bool {
    &&& buckets.len() == t.buckets.len()
    &&& forall|b: int|
        0 <= b < buckets.len() ==> same_numbers(t.buckets[b], #[trigger] buckets[b])
}

/// The error of an image whose nodes and buckets do not hold its items.
pub open spec fn form_error() -> error::ErrorView {
    error::invalid_data("FRAC nodes: not those of the items"@)
}

/// The cells of an image's nodes are the given ones.
pub open spec fn cells_held(nodes: Seq<Seq<u32>>, cells: Seq<([u32; 3], u32)>) -> bool {
    &&& nodes.len() == cells.len()
    &&& forall|n: int|
        0 <= n < nodes.len() ==> (#[trigger] nodes[n]).take(4) == cells[n].0@.push(cells[n].1)
}

/// Whether the cells of an image's nodes, as bit patterns, are the given ones: each has to be
/// the octant of its parent's that its place in the tree names.
pub fn cells_agree(image: &FracImage, cells: &Vec<([u32; 3], u32)>) -> (r: bool)
    ensures
        r == cells_held(image@.nodes, cells@),
{
    let ghost v = image@.nodes;
    if image.nodes.len() != cells.len() {
        return false;
    }
    let mut n: usize = 0;
    while n < cells.len()
        invariant
            n <= cells@.len(),
            image.nodes@.len() == cells@.len(),
            v == frac::node_views(image.nodes@),
            forall|j: int| 0 <= j < n ==> (#[trigger] v[j]).take(4) == cells@[j].0@.push(cells@[j].1),
        decreases cells@.len() - n,
    {
        let record = image.nodes[n];
        let (center, half_size) = cells[n];
        let ghost w = center@.push(half_size);
        proof {
            assert(v[n as int] == record@);
            assert(record@.take(4) =~= record.center@.push(record.half_size));
        }
        if record.half_size != half_size || record.center[0] != center[0] || record.center[1]
            != center[1] || record.center[2] != center[2] {
            proof {
                let u = v[n as int].take(4);
                assert(u[3] == record.half_size && u[0] == record.center@[0] && u[1]
                    == record.center@[1] && u[2] == record.center@[2]);
                assert(w[3] == half_size && w[0] == center@[0] && w[1] == center@[1] && w[2]
                    == center@[2]);
            }
            return false;
        }
        proof {
            assert(v[n as int].take(4) =~= w);
        }
        n += 1;
    }
    true
}

/// The record of an item, as a value.
pub open spec fn item_view(i: Item) -> frac::ItemView {
    frac::ItemView { point: i.point@, offset: i.payload_offset, len: i.payload_len }
}

/// An image holds a memory's items, payloads and leaf size, and the nodes and buckets of its
/// tree.
pub open spec fn pictures(i: frac::ImageView, m: &FractalMemory3D) -> bool {
    &&& i.arena == m.payloads()
    &&& i.items.len() == m.entries().len()
    &&& forall|x: int| 0 <= x < i.items.len() ==> #[trigger] i.items[x] == item_view(m.entries()[x])
    &&& i.bucket_capacity == m.octree().room() as u64
    &&& form_held(i, m.octree().form())
    &&& frac::first_outside(i.items, 0, i.arena.len()) is None
}

/// A record holds a node's links and its cell.
pub open spec fn node_pictures(r: NodeRecord, tree: &Octree, n: int, cell: ([u32; 3], u32)) -> bool {
    &&& r.center == cell.0
    &&& r.half_size == cell.1
    &&& linked(tree.bucket_id(n), r.bucket_id)
    &&& forall|o: int| 0 <= o < 8 ==> linked(tree.child(n, o), #[trigger] r.children@[o])
}

/// The numbers of a tree's nodes, buckets and items fit an image.
pub open spec fn all_fit(tree: &Octree) -> bool {
    &&& forall|n: int| 0 <= n < tree.size() ==> fits(#[trigger] tree.bucket_id(n))
    &&& forall|n: int, o: int|
        0 <= n < tree.size() && 0 <= o < 8 ==> fits(#[trigger] tree.child(n, o))
    &&& forall|b: int, i: int|
        0 <= b < tree.table().len() && 0 <= i < tree.table()[b].len() ==> (
        #[trigger] tree.table()[b][i]) < NONE
}

proof fn lemma_all_inside(items: Seq<frac::ItemView>, i: int, arena_len: nat, x: int)
    requires
        frac::first_outside(items, i, arena_len) is None,
        0 <= i <= x < items.len(),
    ensures
        items[x].offset + items[x].len <= arena_len,
    decreases x - i,
{
    if i < x {
        lemma_all_inside(items, i + 1, arena_len, x);
    }
}

/// An image that holds the nodes and the buckets of a tree stands for them.
proof fn lemma_image_form(i: frac::ImageView, t: octree::TreeView)
    requires
        form_held(i, t),
        forall|n: int| 0 <= n < t.nodes.len() ==> (#[trigger] t.nodes[n]).children.len() == 8,
    ensures
        image_form(i) == t,
{
    let f = image_form(i);
    assert forall|n: int| 0 <= n < f.nodes.len() implies #[trigger] f.nodes[n] == t.nodes[n] by {
        assert(node_held(i.nodes[n], t.nodes[n]));
        assert(f.nodes[n] == node_form(i.nodes[n]));
        assert forall|o: int| 0 <= o < 8 implies #[trigger] f.nodes[n].children[o]
            == t.nodes[n].children[o] by {
            assert(linked(t.nodes[n].children[o], i.nodes[n][4 + o]));
        }
        assert(f.nodes[n].children =~= t.nodes[n].children);
    }
    assert forall|b: int| 0 <= b < f.buckets.len() implies #[trigger] f.buckets[b]
        == t.buckets[b] by {
        assert(same_numbers(t.buckets[b], i.buckets[b]));
        assert(f.buckets[b] =~= t.buckets[b]);
    }
    assert(f.nodes =~= t.nodes);
    assert(f.buckets =~= t.buckets);
}

/// What was saved is taken back: the nodes and buckets in the image of a memory hold its items
/// under their paths, so that restoring it does not fail.
pub proof fn law_saved_memory_is_accepted(
    saved: &FractalMemory3D,
    image: frac::ImageView,
    paths: Seq<Seq<u8>>,
)
    requires
        saved.wf(),
        pictures(image, saved),
        paths == saved.octree().routes(),
    ensures
        octree::is_sound(image_form(image), paths, saved.octree().limit()),
{
    saved.octree().lemma_sound();
    lemma_image_form(image, saved.octree().form());
}

/// What was saved comes back: a memory that is restored from an image of another, with the
/// paths of its points, has its items, points and payloads, and its nodes and buckets, one by
/// one.
pub proof fn law_saved_memory_comes_back(
    saved: &FractalMemory3D,
    image: frac::ImageView,
    restored: &FractalMemory3D,
)
    requires
        saved.wf(),
        pictures(image, saved),
        restored.wf(),
        restored.payloads() == image.arena,
        restored.entries().len() == image.items.len(),
        forall|x: int|
            0 <= x < restored.entries().len() ==> item_view(#[trigger] restored.entries()[x])
                == image.items[x],
        restored.octree().form() == image_form(image),
        restored.octree().room() == image.bucket_capacity as usize,
        restored.octree().limit() == saved.octree().limit(),
        restored.octree().routes() == saved.octree().routes(),
    ensures
        restored.payloads() == saved.payloads(),
        restored.entries().len() == saved.entries().len(),
        forall|x: int|
            0 <= x < saved.entries().len() ==> {
                &&& (#[trigger] restored.entries()[x]).point@ == saved.entries()[x].point@
                &&& restored.payload(x) == saved.payload(x)
            },
        restored.octree().like(&saved.octree()),
        restored.octree().form() == saved.octree().form(),
{
    assert forall|x: int| 0 <= x < saved.entries().len() implies {
        &&& (#[trigger] restored.entries()[x]).point@ == saved.entries()[x].point@
        &&& restored.payload(x) == saved.payload(x)
    } by {
        assert(item_view(restored.entries()[x]) == image.items[x]);
        assert(image.items[x] == item_view(saved.entries()[x]));
    }
    saved.octree().lemma_room();
    lemma_image_form(image, saved.octree().form());
    assert(restored.octree().routes().len() == restored.octree().count());
    assert(saved.octree().routes().len() == saved.octree().count());
    assert forall|x: int|
        0 <= x < restored.octree().count() implies #[trigger] restored.octree().path(x)
        == saved.octree().path(x) by {
        assert(restored.octree().routes()[x] == restored.octree().path(x));
        assert(saved.octree().routes()[x] == saved.octree().path(x));
    }
}

/// The numbers are the same.
pub open spec fn same_numbers(a: Seq<usize>, b: Seq<u32>) -> bool {
    a.len() == b.len() && forall|i: int| 0 <= i < b.len() ==> #[trigger] b[i] == a[i]
}

proof fn lemma_none_outside(items: Seq<frac::ItemView>, i: int, arena_len: nat)
    requires
        0 <= i <= items.len(),
        forall|j: int|
            0 <= j < items.len() ==> items[j].offset + (#[trigger] items[j]).len <= arena_len,
    ensures
        frac::first_outside(items, i, arena_len) is None,
    decreases items.len() - i,
{
    if i < items.len() {
        assert(items[i].offset + items[i].len <= arena_len);
        lemma_none_outside(items, i + 1, arena_len);
    }
}

/// A reference fits a record.
pub open spec fn fits(x: Option<usize>) -> bool {
    x matches Some(v) ==> v < NONE
}

/// The record's field stands for the reference.
pub open spec fn linked(x: Option<usize>, field: u32) -> bool {
    match x {
        Some(v) => v < NONE && field == v,
        None => field == NONE,
    }
}

/// The record's field for a reference.
fn link(x: Option<usize>) -> (r: Option<u32>)
    ensures
        match r {
            Some(f) => linked(x, f),
            None => !fits(x),
        },
{
    match x {
        None => Some(NONE),
        Some(v) => if v < NONE as usize {
            Some(v as u32)
        } else {
            None
        },
    }
}

} // verus!
