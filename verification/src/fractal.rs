//! Zooming: walking the octree from the whole memory towards one point.
use crate::octree::Octree;
use vstd::prelude::*;

verus! {

impl Octree {
    /// `steps` are the nodes met on the way from the root along a path, down to at most
    /// `max_level`: each is the child of the one before in the path's octant, and the last
    /// is at that level, a leaf, or without a child in the path's octant.
    pub open spec fn is_descent(&self, path: Seq<u8>, max_level: nat, steps: Seq<usize>) -> bool {
        &&& steps.len() >= 1
        &&& steps[0] == 0
        &&& steps.len() <= max_level + 1
        &&& forall|i: int|
            0 <= i < steps.len() ==> #[trigger] steps[i] < self.size() && self.place(
                steps[i] as int,
            ) == path.take(i)
        &&& forall|i: int|
            0 <= i < steps.len() - 1 ==> {
                &&& !self.leaf(#[trigger] steps[i] as int)
                &&& self.child(steps[i] as int, path[i] as int) == Some(steps[i + 1])
            }
        &&& {
            let d = steps.len() - 1;
            ||| d == max_level
            ||| self.leaf(steps[d] as int)
            ||| self.child(steps[d] as int, path[d] as int) is None
        }
    }

    /// The nodes from the root down along a path, coarse to fine.
    pub fn zoom_path(&self, path: &[u8], max_level: u32) -> (steps: Vec<usize>)
        requires
            self.wf(),
            crate::octree::is_path(path@, self.limit()),
        ensures
            self.is_descent(path@, max_level as nat, steps@),
    {
        let mut steps: Vec<usize> = Vec::new();
        let mut node: usize = 0;
        let mut depth: u32 = 0;
        steps.push(node);
        proof {
            self.lemma_root(0);
            assert(path@.take(0) =~= self.place(0));
        }
        while depth < max_level
            invariant_except_break
                depth <= max_level,
            invariant
                self.wf(),
                crate::octree::is_path(path@, self.limit()),
                steps@.len() == depth + 1,
                depth <= max_level,
                steps@[depth as int] == node,
                self.place(node as int).len() == depth,
                steps@[0] == 0,
                forall|i: int|
                    0 <= i < steps@.len() ==> #[trigger] steps@[i] < self.size() && self.place(
                        steps@[i] as int,
                    ) == path@.take(i),
                forall|i: int|
                    0 <= i < steps@.len() - 1 ==> {
                        &&& !self.leaf(#[trigger] steps@[i] as int)
                        &&& self.child(steps@[i] as int, path@[i] as int) == Some(steps@[i + 1])
                    },
            ensures
                depth == max_level || self.leaf(node as int) || self.child(
                    node as int,
                    path@[depth as int] as int,
                ) is None,
            decreases max_level - depth,
        {
            proof {
                assert(self.place(steps@[depth as int] as int) == path@.take(depth as int));
                self.lemma_root(node as int);
            }
            let here = self.node(node);
            if here.is_leaf() {
                break;
            }
            let o: usize = path[depth as usize] as usize;
            match here.children[o] {
                Some(c) => {
                    proof {
                        self.lemma_child(node as int, o as int);
                        assert(path@.take(depth + 1) =~= path@.take(depth as int).push(o as u8));
                    }
                    steps.push(c);
                    node = c;
                    depth += 1;
                },
                None => {
                    break;
                },
            }
        }
        steps
    }

    /// The deepest node along a path, at most `level` steps down, and its depth.
    pub fn descend_along(&self, path: &[u8], level: u32) -> (r: (usize, u32))
        requires
            self.wf(),
            crate::octree::is_path(path@, self.limit()),
        ensures
            exists|steps: Seq<usize>|
                self.is_descent(path@, level as nat, steps) && steps.len() == r.1 + 1
                    && #[trigger] steps.last() == r.0,
    {
        let steps: Vec<usize> = self.zoom_path(path, level);
        let last: usize = steps.len() - 1;
        proof {
            assert(steps@.last() == steps@[last as int]);
        }
        (steps[last], last as u32)
    }
}

} // verus!
