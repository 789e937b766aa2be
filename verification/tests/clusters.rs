//! The clustered memory, whose partition is found by a k-means that the test runs in floats.
use octasoma::clustered::{
    assign_members, cluster_count, nearest_centroid, route, stride_picks, ClusteredMemory,
};
use octasoma::order::total_order_key;

fn vector(dim: usize, theme: usize, jitter: usize) -> Vec<f32> {
    assert!(dim / 8 > theme);
    (0..dim)
        .map(|d| {
            if d / 8 == theme {
                1.0 + 0.01 * ((jitter * dim + d) as f32 * 0.7).sin()
            } else {
                0.02 * (d as f32 * 0.7).sin()
            }
        })
        .collect()
}

fn unit(v: &[f32]) -> Vec<f32> {
    let n = v.iter().map(|x| x * x).sum::<f32>().sqrt();
    v.iter().map(|x| x / n).collect()
}

fn key(x: f32) -> u32 {
    total_order_key((x + 0.0).to_bits())
}

fn dot(a: &[f32], b: &[f32]) -> f32 {
    a.iter().zip(b).map(|(x, y)| x * y).sum()
}

struct Clusters {
    mem: ClusteredMemory,
    centroids: Vec<Vec<f32>>,
    members: Vec<Vec<usize>>,
    vectors: Vec<Vec<f32>>,
}

fn build(themes: usize, per_theme: usize, asked: usize) -> Clusters {
    let dim = themes * 8;
    let mut payloads = Vec::new();
    let mut vectors = Vec::new();
    for t in 0..themes {
        for i in 0..per_theme {
            payloads.push(format!("t{t}_{i}").into_bytes());
            vectors.push(unit(&vector(dim, t, i)));
        }
    }
    let k = cluster_count(asked, vectors.len());
    let mut centroids: Vec<Vec<f32>> =
        stride_picks(vectors.len(), k).iter().map(|&i| vectors[i].clone()).collect();
    let mut assignments: Vec<usize> = Vec::new();
    for _ in 0..15 {
        assignments = vectors
            .iter()
            .map(|v| {
                let keys: Vec<u32> = centroids.iter().map(|c| key(1.0 - dot(v, c))).collect();
                nearest_centroid(&keys)
            })
            .collect();
        for (c, members) in assign_members(&assignments, k).iter().enumerate() {
            if members.is_empty() {
                continue;
            }
            for j in 0..dim {
                let sum: f64 = members.iter().map(|&s| vectors[s][j] as f64).sum();
                centroids[c][j] = (sum / members.len() as f64) as f32;
            }
        }
    }
    let members = assign_members(&assignments, k);
    let mem = ClusteredMemory::build(&payloads, &assignments, k);
    Clusters { mem, centroids, members, vectors }
}

impl Clusters {
    fn recall(&self, query: &[f32], k: usize, top_t: usize) -> Vec<(Vec<u8>, u32)> {
        if k == 0 || query.len() != self.centroids[0].len() {
            return Vec::new();
        }
        let q = unit(query);
        let keys: Vec<u32> = self.centroids.iter().map(|c| key(-dot(&q, c))).collect();
        let mut hits = Vec::new();
        for c in route(&keys, top_t) {
            for (i, &s) in self.members[c].iter().enumerate() {
                hits.push((c, i, (1.0 - dot(&q, &self.vectors[s])).max(0.0).to_bits()));
            }
        }
        self.mem.merge(&hits, k)
    }
}

#[test]
fn clustered_recall_survives_many_themes_where_global_collapses() {
    let c = build(16, 20, 8);
    assert_eq!(c.mem.num_clusters(), 8);
    assert_eq!(c.mem.len(), 320);
    // Every query lands back on its own theme's items at the top.
    let mut top1_correct = 0usize;
    for (t, i) in [(3, 4usize), (11, 9), (14, 0), (7, 19)] {
        let query = vector(128, t, i + 100); // unseen jitter
        let hits = c.recall(&query, 5, 2);
        assert_eq!(hits.len(), 5);
        let want = format!("t{t}_");
        if String::from_utf8_lossy(&hits[0].0).starts_with(&want) {
            top1_correct += 1;
        }
    }
    assert_eq!(top1_correct, 4, "routed top-1 missed its own theme");
}

#[test]
fn routing_window_and_guards_behave() {
    let c = build(8, 15, 4);
    // top_t=1 still finds the right theme (routing, not luck).
    let query = vector(64, 6, 3 + 50);
    let hits = c.recall(&query, 3, 1);
    assert!(String::from_utf8_lossy(&hits[0].0).starts_with("t6_"));

    // Guards: bad dim, k=0, unknown-empty are all empty results.
    assert!(c.recall(&[0.0; 8], 3, 2).is_empty());
    assert!(c.recall(&query, 0, 2).is_empty());

    // Deterministic rebuild: byte-identical structure.
    let again = build(8, 15, 4);
    assert_eq!(again.recall(&query, 3, 1), c.recall(&query, 3, 1));
}

#[test]
fn strides_spread_the_first_centroids() {
    assert_eq!(stride_picks(10, 3), vec![0, 3, 6]);
    assert_eq!(cluster_count(8, 3), 3);
    assert_eq!(nearest_centroid(&[5, 2, 2]), 1);
    assert_eq!(route(&[5, 2, 2], 0), vec![1]);
    assert_eq!(route(&[5, 2, 2], 9), vec![1, 2, 0]);
    assert_eq!(assign_members(&[1, 0, 1], 3), vec![vec![1], vec![0, 2], vec![]]);
}
