//! The spatial memory, driven by a small engine that does the floating-point work: it
//! projects embeddings, turns points into octant paths, and measures distances.
use octasoma::embed::HashEmbedder;
use octasoma::explain::{exported_count, PointText};
use octasoma::frac::{FracImage, ItemRecord, NodeRecord, NONE};
use octasoma::hybrid::{Hit, QueryPlan, QueryStrategy};
use octasoma::knn::nearest_bruteforce;
use octasoma::layers::HybridMemory;
use octasoma::error::ErrorKind;
use octasoma::memory::{cells_agree, FractalMemory3D};
use octasoma::order::total_order_key;
use octasoma::rng::DeterministicRng;
use octasoma::search::{NearestSearch, SearchStep};
use octasoma::sharded::{group_by_region, merge_hits};
use octasoma::shards::ShardedMemory;

type Point = [f32; 3];

const MIN_HALF: f32 = 1e-6;

fn next_f32(rng: &mut DeterministicRng) -> f32 {
    (f32::from_bits(rng.next_unit_bits()) - 1.0) * 2.0 - 1.0
}

fn key(x: f32) -> u32 {
    total_order_key((x + 0.0).to_bits())
}

fn keys(p: Point) -> [u32; 3] {
    [key(p[0]), key(p[1]), key(p[2])]
}

fn bits(p: Point) -> [u32; 3] {
    [p[0].to_bits(), p[1].to_bits(), p[2].to_bits()]
}

fn matrix(dim: usize, seed: u64) -> Vec<f32> {
    let mut rng = DeterministicRng::new(seed);
    let mut m: Vec<f32> = (0..3 * dim).map(|_| next_f32(&mut rng)).collect();
    for row in m.chunks_exact_mut(dim) {
        let norm: f64 = row.iter().map(|&x| (x as f64) * (x as f64)).sum();
        let inv = (1.0 / norm.sqrt()) as f32;
        for x in row.iter_mut() {
            *x *= inv;
        }
    }
    m
}

fn project(v: &[f32], m: &[f32], dim: usize) -> Option<Point> {
    if v.len() != dim {
        return None;
    }
    let mut p = [0.0f32; 3];
    for (d, out) in p.iter_mut().enumerate() {
        let row = &m[d * dim..(d + 1) * dim];
        *out = v.iter().zip(row).map(|(&a, &b)| a as f64 * b as f64).sum::<f64>() as f32;
    }
    if p.iter().all(|c| c.is_finite()) {
        Some(p)
    } else {
        None
    }
}

fn depth_limit(half: f32) -> usize {
    let mut h = half;
    let mut d = 0;
    while h > MIN_HALF {
        h *= 0.5;
        d += 1;
    }
    d
}

fn child_center(c: Point, half: f32, o: usize) -> Point {
    let q = half * 0.5;
    [
        c[0] + if o & 1 != 0 { q } else { -q },
        c[1] + if o & 2 != 0 { q } else { -q },
        c[2] + if o & 4 != 0 { q } else { -q },
    ]
}

fn path(p: Point, half: f32, limit: usize) -> Vec<u8> {
    let mut out = Vec::new();
    let mut c = [0.0f32; 3];
    let mut h = half;
    for _ in 0..limit {
        let o = FractalMemory3D::octant_index(keys(c), keys(p));
        out.push(o as u8);
        c = child_center(c, h, o);
        h *= 0.5;
    }
    out
}

fn dist2(a: Point, b: Point) -> f32 {
    let (x, y, z) = (a[0] - b[0], a[1] - b[1], a[2] - b[2]);
    x * x + y * y + z * z
}

fn cube_min_dist2(p: Point, c: Point, half: f32) -> f32 {
    let mut d2 = 0.0f32;
    for a in 0..3 {
        let excess = (p[a] - c[a]).abs() - half;
        if excess > 0.0 {
            d2 += excess * excess;
        }
    }
    d2
}

fn cells(mem: &FractalMemory3D, half: f32) -> Vec<(Point, f32)> {
    let n = mem.node_count();
    let mut out = vec![([0.0f32; 3], half); n];
    for i in 0..n {
        let (c, h) = out[i];
        for (o, child) in mem.tree().node(i).children.iter().enumerate() {
            if let Some(x) = child {
                out[*x] = (child_center(c, h, o), h * 0.5);
            }
        }
    }
    out
}

fn item_point(mem: &FractalMemory3D, x: usize) -> Point {
    let b = mem.item(x).unwrap().point;
    [f32::from_bits(b[0]), f32::from_bits(b[1]), f32::from_bits(b[2])]
}

fn nearest(mem: &FractalMemory3D, cells: &[(Point, f32)], p: Point, k: usize) -> Vec<(usize, f32)> {
    if k == 0 || mem.item_count() == 0 {
        return Vec::new();
    }
    let mut s = NearestSearch::new(mem.tree(), k);
    loop {
        let answer: Vec<u32> = match s.next(mem.tree()) {
            SearchStep::Distances(items) => {
                items.iter().map(|&x| key(dist2(p, item_point(mem, x)))).collect()
            }
            SearchStep::Bounds(nodes) => {
                nodes.iter().map(|&n| key(cube_min_dist2(p, cells[n].0, cells[n].1))).collect()
            }
            SearchStep::Done => break,
        };
        s.answer(mem.tree(), &answer);
    }
    s.into_sorted().into_iter().map(|(x, _)| (x, dist2(p, item_point(mem, x)))).collect()
}

struct Engine {
    mem: FractalMemory3D,
    m: Vec<f32>,
    dim: usize,
    half: f32,
}

impl Engine {
    fn new(dim: usize, seed: u64) -> Engine {
        Engine { mem: FractalMemory3D::new(depth_limit(1.0)), m: matrix(dim, seed), dim, half: 1.0 }
    }

    fn insert(&mut self, v: &[f32], payload: Option<&[u8]>) -> Option<usize> {
        let p = project(v, &self.m, self.dim)?;
        let max = p[0].abs().max(p[1].abs()).max(p[2].abs());
        if max > self.half {
            while self.half < max {
                self.half *= 2.0;
            }
            let limit = depth_limit(self.half);
            let paths = (0..self.mem.item_count())
                .map(|x| path(item_point(&self.mem, x), self.half, limit))
                .collect();
            self.mem.refile(limit, paths);
        }
        let at = path(p, self.half, self.mem.tree().depth_limit());
        Some(self.mem.insert(bits(p), at, payload))
    }

    fn nearest_embedding(&self, v: &[f32], k: usize) -> Vec<(usize, f32)> {
        match project(v, &self.m, self.dim) {
            Some(p) => nearest(&self.mem, &cells(&self.mem, self.half), p, k),
            None => Vec::new(),
        }
    }

    fn query(&self, v: &[f32]) -> Option<Vec<u8>> {
        let found: Vec<(usize, u32)> =
            self.nearest_embedding(v, 1).iter().map(|&(x, d)| (x, d.to_bits())).collect();
        self.mem.query_k(&found).first().map(|p| p.to_vec())
    }

    fn path_of(&self, v: &[f32]) -> Option<Vec<u8>> {
        let p = project(v, &self.m, self.dim)?;
        Some(path(p, self.half, self.mem.tree().depth_limit()))
    }

    fn points(&self, max: usize, scores: Option<&[f32]>) -> Vec<PointText> {
        (0..exported_count(self.mem.item_count(), max))
            .map(|x| {
                let p = item_point(&self.mem, x);
                PointText {
                    x: format!("{:.6}", p[0]),
                    y: format!("{:.6}", p[1]),
                    z: format!("{:.6}", p[2]),
                    score: scores.map(|s| format!("{:.4}", s.get(x).copied().unwrap_or(0.0))),
                }
            })
            .collect()
    }
}

fn populated(dim: usize, seed: u64, rng_seed: u64, n: usize, name: &str) -> Engine {
    let mut e = Engine::new(dim, seed);
    let mut rng = DeterministicRng::new(rng_seed);
    for i in 0..n {
        let v: Vec<f32> = (0..dim).map(|_| next_f32(&mut rng)).collect();
        e.insert(&v, Some(format!("{name}{i}").as_bytes())).unwrap();
    }
    e
}

#[test]
fn rng_determinism() {
    let mut a = DeterministicRng::new(42);
    let mut b = DeterministicRng::new(42);
    for _ in 0..100 {
        assert_eq!(next_f32(&mut a), next_f32(&mut b));
    }
}

#[test]
fn rng_range() {
    let mut rng = DeterministicRng::new(12345);
    for _ in 0..10_000 {
        let v = next_f32(&mut rng);
        assert!((-1.0..1.0).contains(&v), "out of range: {v}");
        let w = f64::from_bits(rng.next_wide_unit_bits());
        assert!((1.0..2.0).contains(&w), "out of range: {w}");
    }
}

#[test]
fn a_zero_seed_is_replaced() {
    assert_eq!(
        DeterministicRng::new(0).next_u64(),
        DeterministicRng::new(0xDEAD_BEEF_CAFE_BABE).next_u64()
    );
    // One step of the generator from the seed 1.
    assert_eq!(DeterministicRng::new(1).next_u64(), 0x4082_2041);
}

#[test]
fn octant_bits() {
    let o = |p: Point| FractalMemory3D::octant_index(keys([0.0; 3]), keys(p));
    assert_eq!(o([1.0, 1.0, 1.0]), 7);
    assert_eq!(o([-1.0, -1.0, -1.0]), 0);
    assert_eq!(o([1.0, -1.0, -1.0]), 1);
    assert_eq!(o([-1.0, 1.0, -1.0]), 2);
    assert_eq!(o([-1.0, -1.0, 1.0]), 4);
    // The centre itself, and a negative zero, are on the upper side.
    assert_eq!(o([0.0, -0.0, 0.0]), 7);
}

#[test]
fn empty_engine_has_root_only() {
    let e = Engine::new(8, 0);
    assert_eq!(e.mem.node_count(), 1);
    assert_eq!(e.mem.item_count(), 0);
    assert!(e.query(&[0.0; 8]).is_none());
}

#[test]
fn octree_knn_matches_bruteforce() {
    let mut e = Engine::new(12, 2024);
    let mut rng = DeterministicRng::new(1);
    for i in 0..2000 {
        let v: Vec<f32> = (0..12).map(|_| next_f32(&mut rng)).collect();
        e.insert(&v, Some(format!("item-{i}").as_bytes())).unwrap();
    }
    let cells = cells(&e.mem, e.half);
    // For many random queries, exact octree k-NN must equal brute force.
    for _ in 0..200 {
        let q: Vec<f32> = (0..12).map(|_| next_f32(&mut rng)).collect();
        let p = project(&q, &e.m, 12).unwrap();
        let a = nearest(&e.mem, &cells, p, 5);
        let all: Vec<u32> =
            (0..e.mem.item_count()).map(|x| key(dist2(p, item_point(&e.mem, x)))).collect();
        let b = nearest_bruteforce(&all, 5);
        let da: Vec<f32> = a.iter().map(|x| x.1).collect();
        let db: Vec<f32> = b.iter().map(|x| dist2(p, item_point(&e.mem, x.0))).collect();
        assert_eq!(da, db, "octree k-NN distances diverged from brute force");
        let bounds: Vec<u32> =
            cells.iter().map(|&(c, h)| key(cube_min_dist2(p, c, h))).collect();
        let c = octasoma::search::nearest(e.mem.tree(), &bounds, &all, 5);
        assert_eq!(c.len(), 5);
        assert!(c.iter().zip(&b).all(|(x, y)| x.1 == y.1), "searched {c:?}, of {b:?}");
    }
}

#[test]
fn searching_few_items_finds_all_of_them() {
    let mut e = Engine::new(4, 3);
    let none = octasoma::search::nearest(e.mem.tree(), &[0], &[], 3);
    assert!(none.is_empty());
    for i in 0..2 {
        e.insert(&[i as f32 * 0.1, 0.0, 0.0, 0.0], None).unwrap();
    }
    assert_eq!(octasoma::search::nearest(e.mem.tree(), &[0], &[7, 4], 3), vec![(1, 4), (0, 7)]);
    assert_eq!(octasoma::search::nearest(e.mem.tree(), &[0], &[7, 4], 1), vec![(1, 4)]);
    assert!(octasoma::search::nearest(e.mem.tree(), &[0], &[7, 4], 0).is_empty());
    // Bounds that are too large may lose a nearer item, but never an answer.
    let many = populated(6, 11, 5, 300, "m");
    let distances: Vec<u32> = (0..300u32).map(|x| (x * 7919) % 1009).collect();
    let bounds = vec![u32::MAX; many.mem.node_count()];
    let found = octasoma::search::nearest(many.mem.tree(), &bounds, &distances, 20);
    assert_eq!(found.len(), 20);
    assert!(found.iter().all(|&(x, d)| distances[x] == d));
    assert!(found.windows(2).all(|w| w[0].1 <= w[1].1));
    let mut items: Vec<usize> = found.iter().map(|f| f.0).collect();
    items.sort();
    items.dedup();
    assert_eq!(items.len(), 20);
}

#[test]
fn bruteforce_takes_the_nearest_first() {
    assert_eq!(nearest_bruteforce(&[5, 1, 4, 1], 3), vec![(3, 1), (1, 1), (2, 4)]);
    assert!(nearest_bruteforce(&[5, 1], 0).is_empty());
}

#[test]
fn self_query_returns_own_payload() {
    let mut e = Engine::new(16, 99);
    let mut rng = DeterministicRng::new(7);
    let mut embeddings = Vec::new();
    for i in 0..500 {
        let v: Vec<f32> = (0..16).map(|_| next_f32(&mut rng)).collect();
        e.insert(&v, Some(format!("p{i}").as_bytes())).unwrap();
        embeddings.push((i, v));
    }
    // Querying an inserted embedding returns its own payload (nearest = self).
    for (i, v) in embeddings.iter().take(100) {
        assert_eq!(e.query(v).unwrap(), format!("p{i}").as_bytes());
    }
}

#[test]
fn duplicate_points_all_retained() {
    let mut e = Engine::new(4, 5);
    let v = [0.3f32, -0.1, 0.7, 0.2];
    for i in 0..100 {
        e.insert(&v, Some(format!("dup{i}").as_bytes())).unwrap();
    }
    assert_eq!(e.mem.item_count(), 100);
    // All 100 identical points must be returned for a k=100 query.
    let res = e.nearest_embedding(&v, 100);
    assert_eq!(res.len(), 100);
    assert!(res.iter().all(|&(_, d)| d == 0.0));
}

#[test]
fn world_grows_for_large_embeddings() {
    let mut e = Engine::new(3, 0);
    e.insert(&[0.1, 0.2, 0.3], Some(b"near")).unwrap();
    let big: Vec<f32> = vec![1000.0, -500.0, 250.0];
    e.insert(&big, Some(b"far")).unwrap();
    let p = project(&big, &e.m, 3).unwrap();
    assert!(e.half >= p[0].abs().max(p[1].abs()).max(p[2].abs()));
    assert_eq!(e.query(&big).unwrap(), b"far");
    // What was filed before the growth is still found.
    assert_eq!(e.query(&[0.1, 0.2, 0.3]).unwrap(), b"near");
}

#[test]
fn payload_roundtrip_and_guards() {
    let mut e = Engine::new(8, 99);
    let id = e.insert(&[0.0; 8], Some(b"hello fractal")).unwrap();
    assert_eq!(e.mem.get_payload(id).unwrap(), b"hello fractal");
    assert!(e.mem.get_payload(NONE as usize).is_none());
    assert!(e.mem.get_payload(12345).is_none());
}

#[test]
fn a_full_leaf_divides() {
    let e = populated(6, 3, 4, 17, "x");
    assert!(e.mem.node_count() > 1);
    assert!(!e.mem.tree().node(0).is_leaf());
    let few = populated(6, 3, 4, 16, "x");
    assert_eq!(few.mem.node_count(), 1);
}

fn cell_bits(e: &Engine) -> Vec<([u32; 3], u32)> {
    cells(&e.mem, e.half).iter().map(|(c, h)| (bits(*c), h.to_bits())).collect()
}

fn image(e: &Engine) -> FracImage {
    let cells = cell_bits(e);
    let projection = e.m.iter().map(|x| x.to_bits()).collect();
    e.mem
        .to_image(e.dim as u32, e.half.to_bits(), MIN_HALF.to_bits(), &cells, projection)
        .unwrap()
}

#[test]
fn the_same_items_make_the_same_tree() {
    let e = populated(6, 11, 5, 300, "m");
    let mut again = populated(6, 11, 5, 300, "m");
    let limit = depth_limit(e.half);
    let paths: Vec<Vec<u8>> = (0..again.mem.item_count())
        .map(|x| path(item_point(&again.mem, x), e.half, limit))
        .collect();
    again.mem.refile(limit, paths);
    assert_eq!(again.mem.node_count(), e.mem.node_count());
    assert_eq!(again.mem.tree().collect_region(0), e.mem.tree().collect_region(0));
    // A cell is divided where more than sixteen items are in it.
    for n in 0..e.mem.node_count() {
        let items = e.mem.tree().collect_region(n);
        assert_eq!(e.mem.tree().node(n).is_leaf(), items.len() <= 16);
        assert!(n == 0 || !items.is_empty());
        if e.mem.tree().node(n).is_leaf() {
            assert!(items.windows(2).all(|w| w[0] < w[1]));
        }
    }
}

#[test]
fn cut_images_are_refused_and_longer_ones_are_read() {
    let e = populated(4, 7, 3, 40, "m");
    let bytes = image(&e).encode();
    for n in 0..bytes.len() {
        let e = FracImage::decode(&bytes[..n], 4).err().expect("a cut image was taken");
        assert_eq!(e.kind(), ErrorKind::InvalidData, "{n}: {}", e.message());
    }
    let mut longer = bytes.clone();
    longer.extend_from_slice(b"more");
    assert_eq!(FracImage::decode(&longer, 4).unwrap().arena, e.mem.arena());
}

#[test]
fn save_and_load_roundtrip() {
    let e = populated(10, 123, 3, 1000, "m");
    let saved = image(&e);
    let bytes = saved.encode();
    let loaded = FracImage::decode(&bytes, 10).unwrap();
    assert_eq!(loaded.nodes.len(), e.mem.node_count());
    assert_eq!(loaded.items.len(), e.mem.item_count());
    assert_eq!(loaded.arena, e.mem.arena());
    assert_eq!(loaded.projection, saved.projection);

    // The nodes are those of the tree, and retrieval is identical after a round-trip.
    assert_eq!(loaded.nodes[0].half_size, e.half.to_bits());
    assert_eq!(loaded.bucket_capacity, 16);
    let mut again = Engine::new(10, 123);
    again.m = loaded.projection.iter().map(|&b| f32::from_bits(b)).collect();
    again.half = f32::from_bits(loaded.world_half_size);
    let limit = depth_limit(again.half);
    let paths: Vec<Vec<u8>> = loaded
        .items
        .iter()
        .map(|i| {
            let p = [
                f32::from_bits(i.point[0]),
                f32::from_bits(i.point[1]),
                f32::from_bits(i.point[2]),
            ];
            path(p, again.half, limit)
        })
        .collect();
    again.mem = FractalMemory3D::from_image(&loaded, limit, paths.clone()).ok().unwrap();
    assert_eq!(again.mem.arena(), e.mem.arena());
    assert_eq!(again.mem.node_count(), e.mem.node_count());
    // Saving again gives the same image, node by node and bucket by bucket.
    let resaved = image(&again);
    assert_eq!(resaved.buckets, saved.buckets);
    for (a, b) in resaved.nodes.iter().zip(&saved.nodes) {
        assert_eq!((a.center, a.half_size), (b.center, b.half_size));
        assert_eq!((a.children, a.bucket_id), (b.children, b.bucket_id));
    }
    assert!(cells_agree(&loaded, &cell_bits(&again)));
    let mut moved = cell_bits(&again);
    moved[1].1 ^= 1;
    assert!(!cells_agree(&loaded, &moved));

    // Nodes that do not hold the items are refused; the order within a bucket is free.
    let mut torn = FracImage::decode(&bytes, 10).unwrap();
    torn.nodes[0].children[0] = NONE;
    let err = FractalMemory3D::from_image(&torn, limit, paths.clone()).err().unwrap();
    assert_eq!(err.kind(), ErrorKind::InvalidData);
    let mut swapped = FracImage::decode(&bytes, 10).unwrap();
    let at = swapped.buckets.iter().position(|b| b.len() > 1).unwrap();
    swapped.buckets[at].swap(0, 1);
    let other = FractalMemory3D::from_image(&swapped, limit, paths).ok().unwrap();
    assert_eq!(other.tree().bucket_at(at)[0], saved.buckets[at][1] as usize);
    let mut rng = DeterministicRng::new(55);
    for _ in 0..100 {
        let q: Vec<f32> = (0..10).map(|_| next_f32(&mut rng)).collect();
        assert_eq!(e.query(&q), again.query(&q));
    }
}

/// An image of three items whose root is divided, though they would fit one leaf.
fn divided_image() -> FracImage {
    let leaf = |bucket_id: u32| NodeRecord {
        center: [0; 3],
        half_size: 0,
        children: [NONE; 8],
        bucket_id,
    };
    let mut root = leaf(NONE);
    root.children[7] = 1;
    root.children[0] = 2;
    let item = |at: usize| ItemRecord { point: [0; 3], payload_offset: at, payload_len: 1 };
    FracImage {
        high_dim: 1,
        world_half_size: 1.0f32.to_bits(),
        bucket_capacity: 2,
        min_half_size: 0.25f32.to_bits(),
        nodes: vec![root, leaf(1), leaf(0)],
        buckets: vec![vec![1, 0], vec![2], vec![]],
        items: vec![item(0), item(1), item(2)],
        projection: Vec::new(),
        arena: b"abc".to_vec(),
    }
}

fn divided_paths() -> Vec<Vec<u8>> {
    vec![vec![0, 1], vec![0, 2], vec![7, 0]]
}

#[test]
fn every_sound_image_is_taken_with_its_nodes() {
    let image = divided_image();
    let mut m = FractalMemory3D::from_image(&image, 2, divided_paths()).ok().unwrap();
    assert_eq!((m.node_count(), m.item_count()), (3, 3));
    assert_eq!(m.tree().collect_region(0), vec![1, 0, 2]);
    assert_eq!(m.tree().bucket_count(), 3);
    assert_eq!(m.get_payload(1), Some(&b"b"[..]));
    let cells = vec![([0; 3], 0); 3];
    let again = m.to_image(1, image.world_half_size, image.min_half_size, &cells, Vec::new()).unwrap();
    assert_eq!(again.buckets, image.buckets);
    assert_eq!(again.nodes[0].children, image.nodes[0].children);

    // A leaf may hold more than its capacity; the next item divides it.
    let mut full = divided_image();
    full.nodes.truncate(1);
    full.nodes[0].children = [NONE; 8];
    full.nodes[0].bucket_id = 2;
    full.buckets = vec![vec![], vec![], vec![2, 0, 1]];
    let mut n = FractalMemory3D::from_image(&full, 2, divided_paths()).ok().unwrap();
    assert_eq!((n.node_count(), n.tree().collect_region(0)), (1, vec![2, 0, 1]));
    assert_eq!(n.insert([0; 3], vec![7, 1], None), 3);
    assert_eq!((n.node_count(), n.tree().collect_region(0)), (3, vec![0, 1, 2, 3]));

    // Filing anew gives the tree of the items.
    m.refile(2, divided_paths());
    assert_eq!((m.node_count(), m.tree().bucket_capacity()), (3, 2));
    assert_eq!(m.tree().collect_region(0), vec![0, 1, 2]);
}

#[test]
fn an_unsound_image_is_refused() {
    let refused = |change: &dyn Fn(&mut FracImage)| {
        let mut image = divided_image();
        change(&mut image);
        let e = FractalMemory3D::from_image(&image, 2, divided_paths()).err().unwrap();
        assert_eq!(e.kind(), ErrorKind::InvalidData);
        assert_eq!(e.message(), "FRAC nodes: not those of the items");
    };
    refused(&|i| i.nodes.clear());
    // A child that is not there, that is the node itself, or that nothing leads to.
    refused(&|i| i.nodes[0].children[3] = 9);
    refused(&|i| i.nodes[0].children[3] = 0);
    refused(&|i| i.nodes[0].children[0] = NONE);
    // A child in two octants, or of a leaf.
    refused(&|i| i.nodes[0].children[3] = 2);
    refused(&|i| i.nodes[0].bucket_id = 2);
    // A bucket that is not there, or that two leaves share.
    refused(&|i| i.nodes[1].bucket_id = 3);
    refused(&|i| i.nodes[1].bucket_id = 0);
    // An item in another's leaf, twice in one, missing, or not there.
    refused(&|i| i.buckets = vec![vec![1, 2], vec![0], vec![]]);
    refused(&|i| i.buckets[0] = vec![1, 0, 1]);
    refused(&|i| i.buckets[0] = vec![1]);
    refused(&|i| i.buckets[1] = vec![2, 3]);
    // A leaf without a bucket, and a divided node at the depth limit.
    refused(&|i| i.nodes[2].bucket_id = NONE);
    let e = FractalMemory3D::from_image(&divided_image(), 0, vec![vec![]; 3]);
    assert!(e.is_err());
}

/// The bytes of an image whose arena is the given LZ4 block of a declared size.
fn with_block(size: usize, block: &[u8]) -> Vec<u8> {
    let mut bytes = image(&Engine::new(4, 1)).encode();
    // An empty arena is a length, the length of its block, and the block of one byte.
    bytes.truncate(bytes.len() - 17);
    bytes.extend_from_slice(&(size as u64).to_le_bytes());
    bytes.extend_from_slice(&(block.len() as u64).to_le_bytes());
    bytes.extend_from_slice(block);
    bytes
}

#[test]
fn a_length_field_that_overflows_is_refused() {
    let mut block = vec![0xF0];
    block.resize(1 + 16_843_010, 0xFF);
    block.push(0);
    let e = FracImage::decode(&with_block(1_000, &block), 4).err().unwrap();
    assert_eq!(e.kind(), ErrorKind::InvalidData);
    assert!(e.message().contains("a length field overflows"), "{}", e.message());
}

#[test]
fn many_literals_of_one_value_are_no_length_field() {
    let count = 16_900_000usize;
    let mut block = vec![0xF0];
    let extra = count - 15;
    block.resize(1 + extra / 255, 0xFF);
    block.push((extra % 255) as u8);
    block.resize(block.len() + count, 0xFF);
    let loaded = FracImage::decode(&with_block(count, &block), 4).unwrap();
    assert_eq!(loaded.arena.len(), count);
    assert!(loaded.arena.iter().all(|&b| b == 0xFF));
}

#[test]
fn load_rejects_wrong_dimension_and_bad_magic() {
    let mut e = Engine::new(8, 0);
    e.insert(&[0.0; 8], None).unwrap();
    let bytes = image(&e).encode();
    assert!(FracImage::decode(&bytes, 8).is_ok());
    assert!(FracImage::decode(&bytes, 16).is_err());
    assert!(FracImage::decode(b"NOPE....", 8).is_err());
    for n in 0..bytes.len() {
        assert!(FracImage::decode(&bytes[..n], 8).is_err(), "{n} bytes were taken");
    }
}

#[test]
fn arena_compresses_redundant_payloads() {
    let mut e = Engine::new(4, 1);
    e.insert(&[0.0; 4], Some(&vec![0xABu8; 8192])).unwrap();
    let bytes = image(&e).encode();
    assert!(
        bytes.len() < 2048,
        "8 KiB of redundant data should compress well; got {}",
        bytes.len()
    );
    assert_eq!(FracImage::decode(&bytes, 4).unwrap().arena.len(), 8192);
}

#[test]
fn root_zoom_covers_everything() {
    let e = populated(16, 1, 7, 4000, "item-");
    let probe: Vec<f32> = (0..16).map(|i| (i as f32) * 0.01).collect();
    let root = e.mem.zoom(&e.path_of(&probe).unwrap(), 0, 3);
    assert_eq!(root.level, 0);
    assert_eq!(root.count, e.mem.item_count());
    assert_eq!(root.samples.len(), 3);
}

#[test]
fn zooming_in_narrows_the_region() {
    let e = populated(16, 1, 7, 4000, "item-");
    let probe: Vec<f32> = (0..16).map(|i| (i as f32).sin()).collect();
    let views = e.mem.zoom_path(&e.path_of(&probe).unwrap(), 12, 2);
    assert!(views.len() >= 2, "expected to descend at least one level");
    let cells = cells(&e.mem, e.half);
    for w in views.windows(2) {
        assert!(w[1].count <= w[0].count, "count must not grow when zooming in");
        assert!(cells[w[1].node].1 < cells[w[0].node].1, "cube must shrink when zooming in");
    }
    assert!(views.last().unwrap().count <= views[0].count);
    assert_eq!(views[0].count, e.mem.item_count());
}

#[test]
fn zoom_handles_empty_and_bad_input() {
    let empty = Engine::new(8, 0);
    let v = [0.1f32; 8];
    let at = empty.path_of(&v).unwrap();
    assert_eq!(empty.mem.zoom(&at, 0, 1).count, 0);
    assert!(empty.mem.zoom_path(&at, 5, 1).len() == 1); // just the (empty) root
    // wrong dimension / non-finite
    assert!(empty.path_of(&[0.0; 3]).is_none());
    assert!(empty.path_of(&[f32::NAN; 8]).is_none());
}

#[test]
fn explain_gives_neighbors_and_zoom_path() {
    let e = populated(16, 3, 11, 2000, "memory ");
    let q: Vec<f32> = (0..16).map(|i| (i as f32).cos()).collect();
    let found: Vec<(usize, u32)> = e
        .nearest_embedding(&q, 5)
        .iter()
        .map(|&(x, d2)| (x, d2.max(0.0).sqrt().to_bits()))
        .collect();
    let x = e.mem.explain(&e.path_of(&q).unwrap(), &found);
    assert_eq!(x.neighbors.len(), 5);
    // Distances are non-negative and sorted nearest-first.
    for w in x.neighbors.windows(2) {
        let (a, b) = (f32::from_bits(w[0].distance), f32::from_bits(w[1].distance));
        assert!(a <= b + 1e-6);
        assert!(a >= 0.0);
    }
    assert!(x.neighbors.iter().all(|n| n.payload.starts_with(b"memory ")));
    // The zoom path starts at the whole memory and narrows.
    assert_eq!(x.zoom_path[0].count, e.mem.item_count());
    assert!(x.zoom_path.last().unwrap().count <= x.zoom_path[0].count);
}

#[test]
fn explain_rejects_bad_input() {
    let e = populated(16, 3, 11, 20, "memory ");
    assert!(e.path_of(&[0.0; 4]).is_none()); // wrong dim
    assert!(e.path_of(&[f32::NAN; 16]).is_none()); // non-finite
}

#[test]
fn export_json_is_well_formed_ish() {
    let e = populated(16, 3, 11, 2000, "memory ");
    let json = e.mem.export_points_json(&format!("{:.6}", e.half), &e.points(50, None), false);
    assert!(json.starts_with("{\"count\":2000"));
    assert!(json.contains("\"points\":["));
    assert!(json.contains("\"x\":"));
    assert!(json.contains("\"payload\":\"memory "));
    assert!(json.ends_with("]}"));
    // 50 points, 49 separating commas inside the array region.
    let commas = json.matches("},{").count();
    assert_eq!(commas, 49);
}

#[test]
fn exported_payloads_are_cut_and_replaced_where_they_are_no_text() {
    let mut e = Engine::new(4, 1);
    let long = "é".repeat(200);
    e.insert(&[0.1; 4], Some(long.as_bytes())).unwrap();
    e.insert(&[0.2; 4], Some(&[0xff, b'a'])).unwrap();
    let points = vec![
        PointText { x: "1".into(), y: "2".into(), z: "3".into(), score: None },
        PointText { x: "4".into(), y: "5".into(), z: "6".into(), score: Some("0.5".into()) },
    ];
    let json = e.mem.export_points_json("1.0", &points, false);
    let cut = "é".repeat(120);
    assert_eq!(
        json,
        format!(
            "{{\"count\":2,\"half_size\":1.0,\"points\":[{{\"x\":1,\"y\":2,\"z\":3,\"payload\":\"{cut}\"}},{{\"x\":4,\"y\":5,\"z\":6,\"score\":0.5,\"payload\":\"\u{fffd}a\"}}]}}"
        )
    );
}

#[test]
fn scored_export_is_heat_colourable() {
    let mut e = Engine::new(16, 5);
    let mut vectors = Vec::new();
    for i in 0..10 {
        let mut v = vec![0.0f32; 16];
        v[i % 16] = 1.0;
        e.insert(&v, Some(format!("p{i}").as_bytes())).unwrap();
        vectors.push(v);
    }
    let mut q = vec![0.0f32; 16];
    q[0] = 1.0; // identical to p0, score 1.0
    let scores: Vec<f32> =
        vectors.iter().map(|v| v.iter().zip(&q).map(|(a, b)| a * b).sum()).collect();
    let json = e.mem.export_points_json("1.000000", &e.points(100, Some(&scores)), true);
    assert!(json.contains("\"scored\":true"));
    assert!(json.contains("\"score\":"));
    assert!(json.contains("\"payload\":\"p0\""));
    assert!(json.contains("\"score\":1.0000"));
}

#[test]
fn layers_stay_in_sync_on_bad_input() {
    let limit = depth_limit(1.0);
    let m = matrix(4, 1);
    let mut h = HybridMemory::new(4, limit);
    let mut put = |v: &[f32], payload: &[u8]| {
        let placed = project(v, &m, 4).map(|p| (bits(p), path(p, 1.0, limit)));
        let r = h.insert(v.len(), placed, payload, true);
        assert_eq!(h.len(), h.tree().item_count());
        r
    };
    assert!(put(&[0.1, 0.2, 0.3, 0.4], b"ok"));
    assert!(!put(&[0.0; 3], b"wrong-dim")); // rejected by both
    assert!(!put(&[f32::NAN, 0.0, 0.0, 0.0], b"nan")); // tree rejects, sketch skipped
    assert_eq!(h.len(), 1);
    assert!(!h.is_empty());
}

#[test]
fn a_certified_shortlist_becomes_the_default() {
    let mut h = HybridMemory::new(24, depth_limit(1.0));
    assert_eq!(h.query(QueryStrategy::PrecisionSketch, 5), QueryPlan::Sketch(256));
    h.calibrate_shortlist(Some(40));
    // The certified size is now the default every strategy uses.
    assert_eq!(h.query(QueryStrategy::PrecisionSketch, 5), QueryPlan::Sketch(40));
    assert_eq!(h.query(QueryStrategy::FastSpatial, 5), QueryPlan::Spatial(40));
    assert_eq!(h.query(QueryStrategy::HybridCascade, 5), QueryPlan::Cascade(160, 40));
    // An impossible target leaves the default untouched.
    h.calibrate_shortlist(None);
    assert_eq!(h.query(QueryStrategy::PrecisionSketch, 5), QueryPlan::Sketch(40));
    // A shortlist is never empty, and never shorter than what is wanted.
    let h = h.with_shortlist(0);
    assert_eq!(h.query(QueryStrategy::PrecisionSketch, 0), QueryPlan::Sketch(1));
    assert_eq!(h.query(QueryStrategy::PrecisionSketch, 9), QueryPlan::Sketch(9));
}

fn unit(v: Vec<f32>) -> Vec<f32> {
    let n = v.iter().map(|x| x * x).sum::<f32>().sqrt();
    v.iter().map(|x| x / n).collect()
}

fn cosine(a: &[f32], b: &[f32]) -> f32 {
    let dot: f32 = a.iter().zip(b).map(|(x, y)| x * y).sum();
    let (na, nb): (f32, f32) = (a.iter().map(|x| x * x).sum(), b.iter().map(|x| x * x).sum());
    dot / (na * nb).sqrt()
}

/// The two layers over six clusters of vectors, which an exact scan stands in for the sketches of.
struct Layered {
    h: HybridMemory,
    m: Vec<f32>,
    vectors: Vec<Vec<f32>>,
    centers: Vec<Vec<f32>>,
}

fn layered(dim: usize) -> Layered {
    let mut rng = DeterministicRng::new(11);
    let centers: Vec<Vec<f32>> =
        (0..6).map(|_| unit((0..dim).map(|_| next_f32(&mut rng)).collect())).collect();
    let limit = depth_limit(2.0);
    let m = matrix(dim, 7);
    let mut h = HybridMemory::new(dim, limit);
    let mut vectors = Vec::new();
    for (c, center) in centers.iter().enumerate() {
        for i in 0..25 {
            let v: Vec<f32> = center.iter().map(|&x| x + 0.02 * next_f32(&mut rng)).collect();
            let placed = project(&v, &m, dim).map(|p| (bits(p), path(p, 2.0, limit)));
            assert!(h.insert(v.len(), placed, format!("c{c}_{i}").as_bytes(), true));
            vectors.push(v);
        }
    }
    Layered { h, m, vectors, centers }
}

impl Layered {
    fn near(&self, q: &[f32], k: usize) -> Vec<usize> {
        let p = project(q, &self.m, q.len()).unwrap();
        let tree = self.h.tree();
        nearest(tree, &cells(tree, 2.0), p, k).iter().map(|x| x.0).collect()
    }

    fn ranked(&self, q: &[f32], among: &[usize], k: usize) -> Vec<(String, f32)> {
        let mut hits: Vec<Hit> = Vec::new();
        for &x in among {
            let payload = self.h.tree().get_payload(x).unwrap();
            hits.push(Hit {
                payload: String::from_utf8_lossy(payload).into_owned(),
                key: String::new(),
                score: cosine(q, &self.vectors[x]).to_bits(),
            });
        }
        merge_hits(&hits, k, false)
            .into_iter()
            .map(|h| (h.payload, f32::from_bits(h.score)))
            .collect()
    }

    fn query(&self, q: &[f32], strategy: QueryStrategy, k: usize) -> Vec<(String, f32)> {
        let all: Vec<usize> = (0..self.vectors.len()).collect();
        match self.h.query(strategy, k) {
            QueryPlan::Spatial(n) => self.ranked(q, &self.near(q, n), k),
            QueryPlan::Sketch(_) => self.ranked(q, &all, k),
            QueryPlan::Cascade(broad, _) => self.ranked(q, &self.near(q, broad), k),
        }
    }
}

#[test]
fn precise_recall_plus_explain_over_the_same_items() {
    let l = layered(48);
    assert_eq!(l.h.len(), 150);
    let mut rng = DeterministicRng::new(99);
    let q: Vec<f32> = l.centers[4].iter().map(|&x| x + 0.01 * next_f32(&mut rng)).collect();

    // Precise tier: top hit is from cluster 4, cosine high.
    let hits = l.query(&q, QueryStrategy::PrecisionSketch, 3);
    assert!(hits[0].0.starts_with("c4_"));
    assert!(hits[0].1 > 0.9);

    // Same memory explains/zooms via the 3-D layer.
    let p = project(&q, &l.m, 48).unwrap();
    let at = path(p, 2.0, depth_limit(2.0));
    let found: Vec<(usize, u32)> = l.near(&q, 5).iter().map(|&x| (x, 0)).collect();
    let e = l.h.explain(&at, &found);
    assert_eq!(e.neighbors.len(), 5);
    assert!(!l.h.tree().zoom_path(&at, 12, 1).is_empty());
    let json = l.h.export_points_json("2.000000", &Vec::new(), false);
    assert!(json.starts_with("{\"count\":150"));
}

#[test]
fn query_strategies_all_find_the_cluster() {
    let l = layered(48);
    let mut rng = DeterministicRng::new(77);
    let q: Vec<f32> = l.centers[1].iter().map(|&x| x + 0.01 * next_f32(&mut rng)).collect();
    for strategy in [
        QueryStrategy::FastSpatial,
        QueryStrategy::PrecisionSketch,
        QueryStrategy::HybridCascade,
    ] {
        let hits = l.query(&q, strategy, 3);
        assert!(!hits.is_empty(), "{strategy:?} returned nothing");
        assert!(hits[0].0.starts_with("c1_"), "{strategy:?}: {}", hits[0].0);
    }
}

fn hashed(text: &str, dim: usize) -> Vec<f32> {
    let mut rng = DeterministicRng::new(HashEmbedder::seed_of(text));
    let mut v: Vec<f32> = (0..dim).map(|_| next_f32(&mut rng)).collect();
    let norm: f32 = v.iter().map(|x| x * x).sum::<f32>().sqrt();
    for x in &mut v {
        *x /= norm;
    }
    v
}

/// A sharded memory whose regions share one projection.
struct Sharded {
    mem: ShardedMemory,
    m: Vec<f32>,
    dim: usize,
}

impl Sharded {
    fn new(dim: usize) -> Sharded {
        Sharded { mem: ShardedMemory::new(), m: matrix(dim, 42), dim }
    }

    fn insert(&mut self, region: &str, uri: &str, text: &str) {
        let v = hashed(text, self.dim);
        self.insert_vec(region, uri.as_bytes(), &v);
    }

    fn insert_vec(&mut self, region: &str, payload: &[u8], v: &[f32]) {
        let p = project(v, &self.m, self.dim).unwrap();
        let limit = depth_limit(1.0);
        self.mem.insert(region, limit, bits(p), path(p, 1.0, limit), payload);
    }

    fn found(&self, region: &str, v: &[f32], k: usize) -> Vec<(usize, u32)> {
        match self.mem.shard(region) {
            Some(m) => {
                let p = project(v, &self.m, self.dim).unwrap();
                nearest(m, &cells(m, 1.0), p, k).iter().map(|&(x, d)| (x, d.to_bits())).collect()
            }
            None => Vec::new(),
        }
    }

    fn recall_scored(&self, region: &str, text: &str, k: usize) -> Vec<(String, f32)> {
        let found = self.found(region, &hashed(text, self.dim), k);
        self.mem
            .recall_scored(region, &found)
            .into_iter()
            .map(|(s, b)| (s, f32::from_bits(b)))
            .collect()
    }

    fn recall(&self, region: &str, text: &str, k: usize) -> Vec<String> {
        self.recall_scored(region, text, k).into_iter().map(|(s, _)| s).collect()
    }

    fn recall_global(&self, text: &str, k: usize) -> Vec<String> {
        let mut hits = Vec::new();
        for region in self.mem.region_keys() {
            for (payload, d) in self.recall_scored(&region, text, k) {
                hits.push(Hit { payload, key: String::new(), score: d.to_bits() });
            }
        }
        merge_hits(&hits, k, true).into_iter().map(|h| h.payload).collect()
    }
}

fn sharded_populated() -> Sharded {
    let mut m = Sharded::new(128);
    m.insert("src/db.rs", "sym:src/db.rs:query", "build and run SQL queries");
    m.insert("src/db.rs", "sym:src/db.rs:pool", "a pool of db connections");
    m.insert("src/auth.rs", "sym:src/auth.rs:login", "authenticate a user");
    m
}

#[test]
fn recall_is_scoped_to_region() {
    let m = sharded_populated();
    assert_eq!(m.mem.regions(), 2);
    assert_eq!(m.mem.len(), 3);
    // Within a region, the exact text recalls its own uri (deterministic embedder).
    assert_eq!(
        m.recall("src/db.rs", "build and run SQL queries", 1),
        vec!["sym:src/db.rs:query".to_string()]
    );
    // The db query is NOT reachable from the auth region.
    let auth = m.recall("src/auth.rs", "build and run SQL queries", 5);
    assert!(!auth.contains(&"sym:src/db.rs:query".to_string()));
}

#[test]
fn explain_and_export_are_region_scoped() {
    let m = sharded_populated();
    let v = hashed("build and run SQL queries", 128);
    let p = project(&v, &m.m, 128).unwrap();
    let at = path(p, 1.0, depth_limit(1.0));
    // explain within a region: neighbors + a zoom path rooted at the region.
    let e = m.mem.explain("src/db.rs", &at, &m.found("src/db.rs", &v, 2)).unwrap();
    assert!(!e.neighbors.is_empty());
    assert_eq!(e.zoom_path[0].count, 2); // the db region holds 2 memories
    assert!(e
        .neighbors
        .iter()
        .all(|nb| String::from_utf8_lossy(&nb.payload).starts_with("sym:src/db.rs:")));
    // Unknown region is nothing, not an error.
    assert!(m.mem.explain("nope", &at, &[]).is_none());
    // Viewer export is scoped to the region (db has 2 points).
    let json = m.mem.export_points_json("src/db.rs", "1.000000", &Vec::new()).unwrap();
    assert!(json.starts_with("{\"count\":2"));
    assert!(m.mem.export_points_json("nope", "1.000000", &Vec::new()).is_none());
}

#[test]
fn unknown_region_is_empty() {
    let m = sharded_populated();
    assert!(m.recall("src/missing.rs", "anything", 3).is_empty());
    assert_eq!(m.mem.region_len("src/missing.rs"), 0);
    assert_eq!(m.mem.region_len("src/db.rs"), 2);
}

#[test]
fn recall_scored_is_ascending_and_scoped() {
    let m = sharded_populated();
    let scored = m.recall_scored("src/db.rs", "build and run SQL queries", 2);
    assert_eq!(scored.len(), 2);
    // Exact-text hit is the query's own uri at distance 0; scores ascend.
    assert_eq!(scored[0].0, "sym:src/db.rs:query");
    assert!(scored[0].1 <= scored[1].1, "distances must be ascending");
    // All hits stay inside the region.
    assert!(scored.iter().all(|(uri, _)| uri.starts_with("sym:src/db.rs:")));
    // Unknown region yields no scores.
    assert!(m.recall_scored("nope", "x", 3).is_empty());
}

#[test]
fn global_recall_spans_regions() {
    let m = sharded_populated();
    let hits = m.recall_global("authenticate a user", 1);
    assert_eq!(hits, vec!["sym:src/auth.rs:login".to_string()]);
}

#[test]
fn build_pca_indexes_per_region_and_replaces() {
    let items = [
        ("src/db.rs", "sym:src/db.rs:query", "build and run SQL queries"),
        ("src/db.rs", "sym:src/db.rs:pool", "a pool of db connections"),
        ("src/db.rs", "sym:src/db.rs:tx", "run a database transaction"),
        ("src/auth.rs", "sym:src/auth.rs:login", "authenticate a user"),
        ("src/auth.rs", "sym:src/auth.rs:token", "verify a JWT token"),
    ];
    let mut m = Sharded::new(64);
    build(&mut m, &items);
    assert_eq!(m.mem.regions(), 2);
    assert_eq!(m.mem.len(), 5);
    assert_eq!(
        m.recall("src/db.rs", "a pool of db connections", 1),
        vec!["sym:src/db.rs:pool".to_string()]
    );
    // Rebuilding a region replaces it; other regions are untouched.
    build(&mut m, &[("src/db.rs", "sym:src/db.rs:only", "single survivor")]);
    assert_eq!(
        m.recall("src/db.rs", "single survivor", 1),
        vec!["sym:src/db.rs:only".to_string()]
    );
    assert_eq!(m.mem.len(), 3); // db rebuilt to 1 + auth's 2
}

fn build(m: &mut Sharded, items: &[(&str, &str, &str)]) {
    let names: Vec<String> = items.iter().map(|i| i.0.to_string()).collect();
    let limit = depth_limit(1.0);
    for group in group_by_region(&names) {
        let mut fresh = FractalMemory3D::new(limit);
        for i in group.items {
            let p = project(&hashed(items[i].2, m.dim), &m.m, m.dim).unwrap();
            fresh.insert(bits(p), path(p, 1.0, limit), Some(items[i].1.as_bytes()));
        }
        m.mem.put(&group.region, fresh);
    }
}

#[test]
fn vector_api_inserts_builds_and_recalls() {
    let mut m = Sharded::new(4);
    m.insert_vec("a", b"a0", &[1.0, 0.0, 0.0, 0.0]);
    m.insert_vec("a", b"a1", &[0.0, 1.0, 0.0, 0.0]);
    let b0 = [0.0f32, 0.0, 1.0, 0.0];
    let b1 = [0.0f32, 0.0, 0.0, 1.0];
    let limit = depth_limit(1.0);
    let mut fresh = FractalMemory3D::new(limit);
    for (payload, v) in [(b"b0", &b0), (b"b1", &b1)] {
        let p = project(v, &m.m, 4).unwrap();
        fresh.insert(bits(p), path(p, 1.0, limit), Some(payload));
    }
    m.mem.put("b", fresh);
    assert_eq!(m.mem.regions(), 2);
    assert_eq!(m.mem.len(), 4);
    // The exact vector's payload comes back at distance ~0.
    let found = m.found("a", &[1.0, 0.0, 0.0, 0.0], 1);
    let hits = m.mem.recall_scored("a", &found);
    assert_eq!(hits.len(), 1);
    assert_eq!(hits[0].0, "a0");
    assert!(f32::from_bits(hits[0].1).abs() < 1e-6);
    // Scoping: region b's payload is unreachable from region a.
    let from_a = m.mem.recall_scored("a", &m.found("a", &b0, 5));
    assert!(from_a.iter().all(|(p, _)| p != "b0"));
    // Unknown region is empty.
    assert!(m.mem.recall_scored("nope", &[]).is_empty());
}

#[test]
fn manifests_list_the_regions_in_order() {
    let m = sharded_populated();
    let manifest = m.mem.manifest(128, 42);
    let names: Vec<(&str, &str)> =
        manifest.shards.iter().map(|s| (s.region.as_str(), s.name.as_str())).collect();
    assert_eq!(
        names,
        vec![("src/auth.rs", "shard_00000000.frac"), ("src/db.rs", "shard_00000001.frac")]
    );
    assert!(!m.mem.is_empty());
    assert!(ShardedMemory::new().is_empty());
}

fn agent() -> Engine {
    Engine::new(128, 42)
}

#[test]
fn perceive_then_recall_roundtrip() {
    let mut a = agent();
    assert_eq!(a.mem.item_count(), 0);
    for text in ["the cat sat", "rust is fast", "octrees subdivide space"] {
        a.insert(&hashed(text, 128), Some(text.as_bytes())).unwrap();
    }
    assert_eq!(a.mem.item_count(), 3);
    // With a deterministic embedder, querying a stored text recalls itself.
    assert_eq!(a.query(&hashed("rust is fast", 128)).unwrap(), b"rust is fast");
}

#[test]
fn reflect_joins_memories() {
    let mut a = Engine::new(64, 7);
    a.insert(&hashed("alpha", 64), Some(b"alpha")).unwrap();
    let found: Vec<(usize, u32)> = a
        .nearest_embedding(&hashed("alpha", 64), 3)
        .iter()
        .map(|&(x, d)| (x, d.to_bits()))
        .collect();
    let hits: Vec<String> = a
        .mem
        .query_k(&found)
        .iter()
        .map(|p| String::from_utf8_lossy(p).into_owned())
        .collect();
    assert!(octasoma::text::join(&hits, "\n").contains("alpha"));
}
