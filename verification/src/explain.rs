//! Explaining a recall: the regions that a query falls through, the nearest memories, and
//! the points for a viewer.
//!
//! Numbers that people read are written by the caller; they come as texts here.
use crate::embed;
use crate::embed::json_string;
use crate::lifecycle;
use crate::lifecycle::lossy_text;
use crate::memory::FractalMemory3D;
use crate::octree;
use crate::text;
use crate::text::push_decimal;
use vstd::prelude::*;

verus! {

/// A region at one level of zoom.
#[derive(Debug)]
pub struct RegionView {
    /// How deep it lies; the whole memory at zero.
    pub level: u32,
    /// Its node.
    pub node: usize,
    /// How many memories it holds.
    pub count: usize,
    /// A few of their payloads.
    pub samples: Vec<Vec<u8>>,
}

/// A memory near a query.
#[derive(Debug)]
pub struct Neighbor {
    /// The payload.
    pub payload: Vec<u8>,
    /// The bit pattern of its distance.
    pub distance: u32,
    /// The bit patterns of its point.
    pub point: [u32; 3],
}

/// An account of a recall.
#[derive(Debug)]
pub struct Explanation {
    /// The nearest memories, nearest first.
    pub neighbors: Vec<Neighbor>,
    /// The regions that the query falls through, coarse to fine.
    pub zoom_path: Vec<RegionView>,
}

/// The levels of zoom that an explanation shows at most.
pub const EXPLAIN_LEVELS: u32 = 24;

/// The characters of a payload that a viewer shows.
pub const SHOWN_CHARS: usize = 120;

/// The view is of a node: it counts the memories below it, and its samples are the payloads
/// of the first of them, at most `max`.
pub open spec fn shows(mem: &FractalMemory3D, v: RegionView, node: int, level: nat, max: nat) -> bool {
    let region = mem.octree().region(node);
    &&& v.node == node
    &&& v.level == level
    &&& v.count == region.len()
    &&& v.samples@.len() == (if region.len() < max {
        region.len()
    } else {
        max
    })
    &&& forall|i: int|
        0 <= i < v.samples@.len() ==> (#[trigger] v.samples@[i])@ == mem.payload(region[i] as int)
}

/// The views are of the nodes from the whole memory down along a path.
pub open spec fn shows_descent(
    mem: &FractalMemory3D,
    path: Seq<u8>,
    max_level: nat,
    max: nat,
    views: Seq<RegionView>,
) -> bool {
    exists|steps: Seq<usize>| #[trigger]
        mem.octree().is_descent(path, max_level, steps) && views.len() == steps.len() && forall|
            i: int,
        |
            0 <= i < views.len() ==> shows(mem, #[trigger] views[i], steps[i] as int, i as nat, max)
}

impl FractalMemory3D {
    /// A region at one level of zoom.
    pub fn summarize(&self, node: usize, level: u32, max_samples: usize) -> (v: RegionView)
        requires
            self.wf(),
            node < self.octree().size(),
        ensures
            shows(self, v, node as int, level as nat, max_samples as nat),
    {
        let count: usize = self.tree().collect_region(node).len();
        let samples = self.samples(node, max_samples);
        RegionView { level, node, count, samples }
    }

    /// The region that a query falls into, at most `level` levels down. `path` holds the
    /// octants in which the query lies, level by level.
    pub fn zoom(&self, path: &[u8], level: u32, max_samples: usize) -> (v: RegionView)
        requires
            self.wf(),
            octree::is_path(path@, self.octree().limit()),
        ensures
            exists|steps: Seq<usize>| #[trigger]
                self.octree().is_descent(path@, level as nat, steps) && shows(
                    self,
                    v,
                    steps.last() as int,
                    (steps.len() - 1) as nat,
                    max_samples as nat,
                ),
            level == 0 ==> v.count == self.entries().len(),
    {
        let (node, depth) = self.tree().descend_along(path, level);
        let ghost steps = choose|steps: Seq<usize>|
            self.octree().is_descent(path@, level as nat, steps) && steps.len() == depth + 1
                && #[trigger] steps.last() == node;
        let v = self.summarize(node, depth, max_samples);
        proof {
            assert(self.octree().is_descent(path@, level as nat, steps));
            if level == 0 {
                lemma_whole(self);
            }
        }
        v
    }

    /// The regions that a query falls through, coarse to fine.
    pub fn zoom_path(&self, path: &[u8], max_level: u32, max_samples: usize) -> (views: Vec<
        RegionView,
    >)
        requires
            self.wf(),
            octree::is_path(path@, self.octree().limit()),
        ensures
            shows_descent(self, path@, max_level as nat, max_samples as nat, views@),
    {
        let steps = self.tree().zoom_path(path, max_level);
        let mut out: Vec<RegionView> = Vec::new();
        let mut i: usize = 0;
        while i < steps.len()
            invariant
                i <= steps@.len(),
                steps@.len() <= max_level + 1,
                self.wf(),
                self.octree().is_descent(path@, max_level as nat, steps@),
                out@.len() == i,
                forall|j: int|
                    0 <= j < i ==> shows(
                        self,
                        #[trigger] out@[j],
                        steps@[j] as int,
                        j as nat,
                        max_samples as nat,
                    ),
            decreases steps@.len() - i,
        {
            out.push(self.summarize(steps[i], i as u32, max_samples));
            i += 1;
        }
        out
    }

    /// Explains a recall: the regions that the query falls through, and the memories that
    /// were found with the bit patterns of their distances.
    pub fn explain(&self, path: &[u8], found: &[(usize, u32)]) -> (e: Explanation)
        requires
            self.wf(),
            octree::is_path(path@, self.octree().limit()),
            forall|i: int| 0 <= i < found@.len() ==> (#[trigger] found@[i]).0 < self.entries().len(),
        ensures
            shows_descent(self, path@, EXPLAIN_LEVELS as nat, 1, e.zoom_path@),
            e.neighbors@.len() == found@.len(),
            forall|i: int|
                0 <= i < found@.len() ==> {
                    &&& (#[trigger] e.neighbors@[i]).payload@ == self.payload(found@[i].0 as int)
                    &&& e.neighbors@[i].distance == found@[i].1
                    &&& e.neighbors@[i].point == self.entries()[found@[i].0 as int].point
                },
    {
        let mut neighbors: Vec<Neighbor> = Vec::new();
        let mut i: usize = 0;
        while i < found.len()
            invariant
                i <= found@.len(),
                self.wf(),
                forall|j: int|
                    0 <= j < found@.len() ==> (#[trigger] found@[j]).0 < self.entries().len(),
                neighbors@.len() == i,
                forall|j: int|
                    0 <= j < i ==> {
                        &&& (#[trigger] neighbors@[j]).payload@ == self.payload(found@[j].0 as int)
                        &&& neighbors@[j].distance == found@[j].1
                        &&& neighbors@[j].point == self.entries()[found@[j].0 as int].point
                    },
            decreases found@.len() - i,
        {
            let (x, distance) = found[i];
            proof {
                assert(found@[i as int].0 < self.entries().len());
            }
            let mut payload: Vec<u8> = Vec::new();
            let mut point: [u32; 3] = [0, 0, 0];
            if let Some(item) = self.item(x) {
                point = item.point;
            }
            if let Some(p) = self.get_payload(x) {
                payload.extend_from_slice(p);
                proof {
                    assert(payload@ =~= p@);
                }
            }
            neighbors.push(Neighbor { payload, distance, point });
            i += 1;
        }
        Explanation { neighbors, zoom_path: self.zoom_path(path, EXPLAIN_LEVELS, 1) }
    }
}

proof fn lemma_whole(mem: &FractalMemory3D)
    requires
        mem.wf(),
        mem.octree().size() > 0,
    ensures
        mem.octree().region(0).len() == mem.entries().len(),
{
    let t = mem.octree();
    t.law_region_lists_the_items(0);
    t.law_zooming_narrows(0, 0);
    let r = t.region(0).map_values(|x: usize| x as int);
    let n = t.count() as int;
    assert(r.no_duplicates());
    r.unique_seq_to_set();
    let ids = vstd::set_lib::set_int_range(0, n);
    vstd::set_lib::lemma_int_range(0, n);
    assert forall|x: int| r.to_set().contains(x) <==> #[trigger] ids.contains(x) by {
        assert(t.under(0).contains(x) <==> octree::lists(t.region(0), x));
        if r.to_set().contains(x) {
            let i = choose|i: int| 0 <= i < r.len() && r[i] == x;
            assert(t.region(0)[i] == x);
            assert(octree::lists(t.region(0), x));
        }
        if ids.contains(x) {
            assert(t.under(0).contains(x));
            let i = choose|i: int| 0 <= i < t.region(0).len() && t.region(0)[i] == x;
            assert(r[i] == x);
        }
    }
    assert(r.to_set() =~= ids);
}

proof fn lemma_within_path(
    mem: &FractalMemory3D,
    path: Seq<u8>,
    max_level: nat,
    steps: Seq<usize>,
    i: int,
)
    requires
        mem.wf(),
        octree::is_path(path, mem.octree().limit()),
        mem.octree().is_descent(path, max_level, steps),
        0 <= i < steps.len() - 1,
    ensures
        i < path.len(),
    decreases i,
{
    if i > 0 {
        lemma_within_path(mem, path, max_level, steps, i - 1);
    }
    assert(!mem.octree().leaf(steps[i] as int));
    assert(mem.octree().place(steps[i] as int) == path.take(i));
    mem.octree().law_children_share_the_region(steps[i] as int, 0);
}

/// Zooming in narrows the region: along a descent no region holds more memories than the one
/// before, and the first holds them all.
pub proof fn law_descent_narrows(
    mem: &FractalMemory3D,
    path: Seq<u8>,
    max_level: nat,
    max: nat,
    views: Seq<RegionView>,
    i: int,
)
    requires
        mem.wf(),
        octree::is_path(path, mem.octree().limit()),
        shows_descent(mem, path, max_level, max, views),
        0 <= i < views.len() - 1,
    ensures
        views[i + 1].count <= views[i].count,
        views[i].level == i,
        views[0].count == mem.entries().len(),
{
    let steps = choose|steps: Seq<usize>| #[trigger]
        mem.octree().is_descent(path, max_level, steps) && views.len() == steps.len() && forall|
            i: int,
        |
            0 <= i < views.len() ==> shows(mem, #[trigger] views[i], steps[i] as int, i as nat, max);
    assert(shows(mem, views[i], steps[i] as int, i as nat, max));
    assert(shows(mem, views[i + 1], steps[i + 1] as int, (i + 1) as nat, max));
    assert(shows(mem, views[0], steps[0] as int, 0, max));
    assert(mem.octree().child(steps[i] as int, path[i] as int) == Some(steps[i + 1]));
    lemma_within_path(mem, path, max_level, steps, i);
    assert(path[i] < 8);
    mem.octree().law_zooming_narrows(steps[i] as int, path[i] as int);
    lemma_whole(mem);
}

/// The coordinates of a point, and its score where it has one, as texts.
#[derive(Debug)]
pub struct PointText {
    /// The first coordinate.
    pub x: String,
    /// The second coordinate.
    pub y: String,
    /// The third coordinate.
    pub z: String,
    /// The score.
    pub score: Option<String>,
}

/// The beginning of a payload that a viewer shows.
pub open spec fn label(payload: Seq<u8>) -> Seq<char> {
    let s = lifecycle::payload_text(payload);
    if s.len() < SHOWN_CHARS {
        s
    } else {
        s.take(SHOWN_CHARS as int)
    }
}

/// A point as JSON.
pub open spec fn point_json(p: PointText, payload: Seq<u8>) -> Seq<char> {
    "{\"x\":"@ + p.x@ + ",\"y\":"@ + p.y@ + ",\"z\":"@ + p.z@ + (match p.score {
        Some(s) => ",\"score\":"@ + s@,
        None => ""@,
    }) + ",\"payload\":"@ + embed::json_text(label(payload)) + "}"@
}

/// The first `n` points as JSON, parted by commas.
pub open spec fn points_json(points: Seq<PointText>, mem: &FractalMemory3D, n: int) -> Seq<char>
    decreases n,
{
    if n <= 0 {
        Seq::empty()
    } else if n == 1 {
        point_json(points[0], mem.payload(0))
    } else {
        points_json(points, mem, n - 1) + ","@ + point_json(points[n - 1], mem.payload(n - 1))
    }
}

/// The points of a memory as JSON: how many items there are, the size of the world, and the
/// points.
pub open spec fn export_json(
    mem: &FractalMemory3D,
    half_size: Seq<char>,
    points: Seq<PointText>,
    scored: bool,
) -> Seq<char> {
    "{\"count\":"@ + text::decimal(mem.entries().len()) + ",\"half_size\":"@ + half_size + (
    if scored {
        ",\"scored\":true"@
    } else {
        ""@
    }) + ",\"points\":["@ + points_json(points, mem, points.len() as int) + "]}"@
}

fn cut_label(payload: &[u8]) -> (s: String)
    ensures
        s@ == label(payload@),
{
    let full = lossy_text(payload);
    let v = text::chars_of(full.as_str());
    if v.len() < SHOWN_CHARS {
        return full;
    }
    let s = text::text_of(&v, 0, SHOWN_CHARS);
    proof {
        assert(s@ =~= full@.take(SHOWN_CHARS as int));
    }
    s
}

fn push_point(out: &mut String, p: &PointText, payload: &[u8])
    ensures
        final(out)@ == old(out)@ + point_json(*p, payload@),
{
    let ghost before = out@;
    proof {
        reveal_strlit("");
    }
    out.append("{\"x\":");
    out.append(p.x.as_str());
    out.append(",\"y\":");
    out.append(p.y.as_str());
    out.append(",\"z\":");
    out.append(p.z.as_str());
    if let Some(s) = &p.score {
        out.append(",\"score\":");
        out.append(s.as_str());
    }
    out.append(",\"payload\":");
    out.append(json_string(cut_label(payload).as_str()).as_str());
    out.append("}");
    proof {
        assert(out@ =~= before + point_json(*p, payload@));
    }
}

impl FractalMemory3D {
    /// The points of the first items as JSON for a viewer. The caller gives their
    /// coordinates as texts; `scored` says that the points carry scores.
    pub fn export_points_json(&self, half_size: &str, points: &Vec<PointText>, scored: bool) -> (s:
        String)
        requires
            self.wf(),
            points@.len() <= self.entries().len(),
        ensures
            s@ == export_json(self, half_size@, points@, scored),
    {
        let mut out = "{\"count\":".to_owned();
        push_decimal(&mut out, self.item_count() as u128);
        out.append(",\"half_size\":");
        out.append(half_size);
        if scored {
            out.append(",\"scored\":true");
        }
        out.append(",\"points\":[");
        let ghost head = out@;
        proof {
            reveal_strlit("");
            assert(head =~= "{\"count\":"@ + text::decimal(self.entries().len())
                + ",\"half_size\":"@ + half_size@ + (if scored {
                ",\"scored\":true"@
            } else {
                ""@
            }) + ",\"points\":["@);
            assert(head + points_json(points@, self, 0) =~= head);
        }
        let mut i: usize = 0;
        while i < points.len()
            invariant
                i <= points@.len(),
                self.wf(),
                points@.len() <= self.entries().len(),
                out@ == head + points_json(points@, self, i as int),
            decreases points@.len() - i,
        {
            let ghost before = out@;
            if i > 0 {
                out.append(",");
            }
            if let Some(p) = self.get_payload(i) {
                push_point(&mut out, &points[i], p);
            }
            proof {
                assert(out@ =~= head + points_json(points@, self, i + 1));
            }
            i += 1;
        }
        out.append("]}");
        proof {
            assert(out@ =~= export_json(self, half_size@, points@, scored));
        }
        out
    }
}

/// How many items an export shows: all, up to a limit.
pub fn exported_count(items: usize, max_points: usize) -> (n: usize)
    ensures
        n == (if items < max_points {
            items
        } else {
            max_points
        }),
{
    if items < max_points {
        items
    } else {
        max_points
    }
}

/// The exported points are all there, one for each in their order, with commas between them.
pub proof fn law_points_are_all_exported(points: Seq<PointText>, mem: &FractalMemory3D, n: int)
    requires
        0 <= n <= points.len(),
    ensures
        points_json(points, mem, n) == text::joined(
            Seq::new(n as nat, |i: int| point_json(points[i], mem.payload(i))),
            ","@,
        ),
    decreases n,
{
    let parts = Seq::new(n as nat, |i: int| point_json(points[i], mem.payload(i)));
    if n > 1 {
        law_points_are_all_exported(points, mem, n - 1);
        assert(parts.drop_last() =~= Seq::new(
            (n - 1) as nat,
            |i: int| point_json(points[i], mem.payload(i)),
        ));
    }
}

/// A viewer shows a payload from its beginning, and all of one that is short enough.
pub proof fn law_label_is_the_beginning(payload: Seq<u8>)
    ensures
        label(payload).len() <= SHOWN_CHARS,
        label(payload).is_prefix_of(lifecycle::payload_text(payload)),
        lifecycle::payload_text(payload).len() <= SHOWN_CHARS ==> label(payload)
            == lifecycle::payload_text(payload),
        lifecycle::payload_text(payload).len() > SHOWN_CHARS ==> label(payload).len()
            == SHOWN_CHARS,
{
    let s = lifecycle::payload_text(payload);
    if s.len() == SHOWN_CHARS {
        assert(s.take(SHOWN_CHARS as int) =~= s);
    }
}

/// An export tells how many items there are and holds every point.
pub proof fn law_export_holds_every_point(
    mem: &FractalMemory3D,
    half_size: Seq<char>,
    points: Seq<PointText>,
    scored: bool,
    i: int,
)
    requires
        0 <= i < points.len(),
    ensures
        text::occurs(
            export_json(mem, half_size, points, scored),
            point_json(points[i], mem.payload(i)),
        ),
        text::occurs(
            export_json(mem, half_size, points, scored),
            "{\"count\":"@ + text::decimal(mem.entries().len()),
        ),
{
    let n = points.len() as int;
    let parts = Seq::new(n as nat, |i: int| point_json(points[i], mem.payload(i)));
    law_points_are_all_exported(points, mem, n);
    text::law_joined_texts_occur(parts, ","@, i);
    let inner = points_json(points, mem, n);
    let count = "{\"count\":"@ + text::decimal(mem.entries().len());
    let tail = ",\"half_size\":"@ + half_size + (if scored {
        ",\"scored\":true"@
    } else {
        ""@
    }) + ",\"points\":["@;
    let s = export_json(mem, half_size, points, scored);
    text::law_parts_occur(count + tail, inner, "]}"@, parts[i]);
    assert(count + tail + inner + "]}"@ =~= s);
    let e = Seq::<char>::empty();
    text::law_parts_occur(e, count, tail + inner + "]}"@, count);
    assert(e + count + (tail + inner + "]}"@) =~= s);
}

} // verus!
