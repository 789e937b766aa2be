//! A memory in two layers over the same items: the spatial one, which explains, and the
//! precise one, which ranks.
//!
//! The precise layer stands outside; it says whether it took an item.
use crate::explain;
use crate::explain::{Explanation, PointText};
use crate::hybrid;
use crate::hybrid::{QueryPlan, QueryStrategy};
use crate::memory;
use crate::memory::FractalMemory3D;
use crate::octree;
use vstd::prelude::*;

verus! {

/// The candidates that are ranked exactly, where nothing else is said.
pub const DEFAULT_SHORTLIST: usize = 256;

/// A memory in two layers.
pub struct HybridMemory {
    tree: FractalMemory3D,
    sketched: usize,
    dim: usize,
    default_shortlist: usize,
}

/// A number, but one at least.
pub open spec fn positive(n: usize) -> usize {
    if n < 1 {
        1
    } else {
        n
    }
}

impl HybridMemory {
    /// The spatial layer.
    pub closed spec fn spatial(&self) -> FractalMemory3D {
        self.tree
    }

    /// How many items the precise layer holds.
    pub closed spec fn precise(&self) -> nat {
        self.sketched as nat
    }

    /// The length of an embedding.
    pub closed spec fn length(&self) -> nat {
        self.dim as nat
    }

    /// The candidates that are ranked exactly.
    pub closed spec fn shortlist(&self) -> usize {
        self.default_shortlist
    }

    /// The spatial layer is in order, and there is a shortlist.
    pub open spec fn wf(&self) -> bool {
        self.spatial().wf() && self.shortlist() >= 1
    }

    /// Both layers hold the same number of items.
    pub open spec fn in_sync(&self) -> bool {
        self.precise() == self.spatial().entries().len()
    }

    /// An empty memory of embeddings of length `dim`, whose cells are divided down to
    /// `depth_limit`.
    pub fn new(dim: usize, depth_limit: usize) -> (m: HybridMemory)
        ensures
            m.wf(),
            m.in_sync(),
            m.spatial().octree().filed(),
            m.spatial().entries().len() == 0,
            m.spatial().payloads().len() == 0,
            m.spatial().octree().limit() == depth_limit,
            m.spatial().octree().room() == octree::DEFAULT_BUCKET_CAPACITY,
            m.length() == dim,
            m.shortlist() == DEFAULT_SHORTLIST,
    {
        HybridMemory {
            tree: FractalMemory3D::new(depth_limit),
            sketched: 0,
            dim,
            default_shortlist: DEFAULT_SHORTLIST,
        }
    }

    /// The memory of a spatial layer and of so many items in the precise one, with embeddings
    /// of length `dim`.
    pub fn from_layers(tree: FractalMemory3D, sketched: usize, dim: usize) -> (m: HybridMemory)
        requires
            tree.wf(),
        ensures
            m.wf(),
            m.spatial() == tree,
            m.precise() == sketched,
            m.length() == dim,
            m.shortlist() == DEFAULT_SHORTLIST,
    {
        HybridMemory { tree, sketched, dim, default_shortlist: DEFAULT_SHORTLIST }
    }

    /// Files every item of the spatial layer anew under new paths, as a larger world asks for.
    pub fn refile(&mut self, depth_limit: usize, paths: Vec<Vec<u8>>)
        requires
            old(self).wf(),
            paths@.len() == old(self).spatial().entries().len(),
            forall|i: int|
                0 <= i < paths@.len() ==> octree::is_path(
                    (#[trigger] paths@[i])@,
                    depth_limit as nat,
                ),
        ensures
            final(self).wf(),
            memory::refiled(
                old(self).spatial(),
                final(self).spatial(),
                depth_limit as nat,
                octree::place_views(paths@),
            ),
            final(self).precise() == old(self).precise(),
            final(self).length() == old(self).length(),
            final(self).shortlist() == old(self).shortlist(),
    {
        self.tree.refile(depth_limit, paths);
    }

    /// Sets the shortlist; one at least.
    pub fn with_shortlist(self, shortlist: usize) -> (m: HybridMemory)
        ensures
            m.spatial() == self.spatial(),
            m.precise() == self.precise(),
            m.length() == self.length(),
            m.shortlist() == positive(shortlist),
    {
        HybridMemory {
            default_shortlist: if shortlist < 1 {
                1
            } else {
                shortlist
            },
            ..self
        }
    }

    /// Takes a certified shortlist for the default; without a certificate the default stays.
    pub fn calibrate_shortlist(&mut self, certified: Option<usize>)
        ensures
            final(self).spatial() == old(self).spatial(),
            final(self).precise() == old(self).precise(),
            final(self).length() == old(self).length(),
            final(self).shortlist() == (match certified {
                Some(n) => positive(n),
                None => old(self).shortlist(),
            }),
    {
        if let Some(n) = certified {
            self.default_shortlist = if n < 1 {
                1
            } else {
                n
            };
        }
    }

    /// Stores an item in both layers. `length` is that of its embedding, and `placed` its
    /// point and path, if the projection of the embedding is finite; `sketched` says whether
    /// the precise layer takes it. An embedding of another length or without a place is
    /// stored in neither.
    pub fn insert(
        &mut self,
        length: usize,
        placed: Option<([u32; 3], Vec<u8>)>,
        payload: &[u8],
        sketched: bool,
    ) -> (r: bool)
        requires
            old(self).wf(),
            old(self).precise() < usize::MAX,
            old(self).spatial().payloads().len() + payload@.len() <= usize::MAX,
            placed matches Some(p) ==> octree::is_path(p.1@, old(self).spatial().octree().limit()),
        ensures
            final(self).wf(),
            final(self).length() == old(self).length(),
            final(self).shortlist() == old(self).shortlist(),
            r == (length == old(self).length() && placed is Some && sketched),
            !(length == old(self).length() && placed is Some) ==> final(self).spatial() == old(
                self,
            ).spatial() && final(self).precise() == old(self).precise(),
            length == old(self).length() && placed is Some ==> {
                &&& memory::inserted(
                    old(self).spatial(),
                    final(self).spatial(),
                    (placed->0).0,
                    (placed->0).1@,
                    payload@,
                )
                &&& final(self).precise() == old(self).precise() + (if sketched {
                    1int
                } else {
                    0
                })
            },
            old(self).in_sync() && (r || !(length == old(self).length() && placed is Some))
                ==> final(self).in_sync(),
    {
        if length != self.dim {
            return false;
        }
        match placed {
            None => false,
            Some((point, path)) => {
                let _ = self.tree.insert(point, path, Some(payload));
                if sketched {
                    self.sketched += 1;
                }
                sketched
            },
        }
    }

    /// The plan of a query for `k` items.
    pub fn query(&self, strategy: QueryStrategy, k: usize) -> (p: QueryPlan)
        ensures
            p == (match strategy {
                QueryStrategy::FastSpatial => QueryPlan::Spatial(
                    hybrid::at_least(self.shortlist(), k),
                ),
                QueryStrategy::PrecisionSketch => QueryPlan::Sketch(
                    hybrid::at_least(self.shortlist(), k),
                ),
                QueryStrategy::HybridCascade => QueryPlan::Cascade(
                    if 4 * hybrid::at_least(self.shortlist(), k) > usize::MAX {
                        usize::MAX
                    } else {
                        (4 * hybrid::at_least(self.shortlist(), k)) as usize
                    },
                    hybrid::at_least(self.shortlist(), k),
                ),
            }),
    {
        strategy.plan(self.default_shortlist, k)
    }

    /// Explains a recall by the spatial layer.
    pub fn explain(&self, path: &[u8], found: &[(usize, u32)]) -> (e: Explanation)
        requires
            self.wf(),
            octree::is_path(path@, self.spatial().octree().limit()),
            forall|i: int|
                0 <= i < found@.len() ==> (#[trigger] found@[i]).0 < self.spatial().entries().len(),
        ensures
            explain::shows_descent(
                &self.spatial(),
                path@,
                explain::EXPLAIN_LEVELS as nat,
                1,
                e.zoom_path@,
            ),
            e.neighbors@.len() == found@.len(),
            forall|i: int|
                0 <= i < found@.len() ==> {
                    &&& (#[trigger] e.neighbors@[i]).payload@ == self.spatial().payload(
                        found@[i].0 as int,
                    )
                    &&& e.neighbors@[i].distance == found@[i].1
                    &&& e.neighbors@[i].point == self.spatial().entries()[found@[i].0 as int].point
                },
    {
        self.tree.explain(path, found)
    }

    /// The points of the spatial layer as JSON for a viewer.
    pub fn export_points_json(&self, half_size: &str, points: &Vec<PointText>, scored: bool) -> (s:
        String)
        requires
            self.wf(),
            points@.len() <= self.spatial().entries().len(),
        ensures
            s@ == explain::export_json(&self.spatial(), half_size@, points@, scored),
    {
        self.tree.export_points_json(half_size, points, scored)
    }

    /// The spatial layer.
    pub fn tree(&self) -> (t: &FractalMemory3D)
        ensures
            *t == self.spatial(),
    {
        &self.tree
    }

    /// How many items there are.
    pub fn len(&self) -> (n: usize)
        ensures
            n == self.precise(),
    {
        self.sketched
    }

    /// Whether there is no item.
    pub fn is_empty(&self) -> (r: bool)
        ensures
            r == (self.precise() == 0),
    {
        self.sketched == 0
    }
}

} // verus!
