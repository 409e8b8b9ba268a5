use kd_tree::kd_tree::{Closest, KdError, KdTree};

fn dists(v: &Vec<Closest<Vec<i32>>>) -> Vec<u128> {
    v.iter().map(|c| c.distance).collect()
}

fn points(v: &Vec<Closest<Vec<i32>>>) -> Vec<Vec<i32>> {
    v.iter().map(|c| c.point.clone()).collect()
}

/// A small deterministic pseudo-random generator for reproducible point sets.
struct Lcg {
    state: u64,
}

impl Lcg {
    fn new(seed: u64) -> Lcg {
        Lcg { state: seed }
    }

    fn next_coord(&mut self, bound: u64) -> i32 {
        self.state = self
            .state
            .wrapping_mul(6364136223846793005)
            .wrapping_add(1442695040888963407);
        ((self.state >> 33) % bound) as i32
    }

    fn next_point(&mut self, dims: usize, bound: u64) -> Vec<i32> {
        (0..dims).map(|_| self.next_coord(bound)).collect()
    }
}

/// Squared Euclidean distance computed independently of the library.
fn sq_dist(a: &[i32], b: &[i32]) -> u128 {
    a.iter()
        .zip(b.iter())
        .map(|(&x, &y)| {
            let d = (x as i64 - y as i64).unsigned_abs();
            (d as u128) * (d as u128)
        })
        .sum()
}

/// Compare a k-nearest answer against the brute-force oracle and a
/// hand-rolled reference: the sorted distances must be identical and equal
/// to the `n` smallest true distances, the single closest distance must be
/// the true minimum, and wherever a distance is not tied over the whole
/// point set the points must agree coordinate for coordinate.
fn assert_matches_oracle(tree: &KdTree<Vec<i32>>, pts: &[Vec<i32>], query: &Vec<i32>, n: usize) {
    let kd = tree.find_n_closest(query, n).unwrap();
    let brute = tree.brute_force(query, n).unwrap();
    let kd_d = dists(&kd);
    let brute_d = dists(&brute);
    assert_eq!(kd_d, brute_d);
    // reference: the n smallest true distances, worst first
    let mut all_d: Vec<u128> = pts.iter().map(|p| sq_dist(p, query)).collect();
    all_d.sort();
    let mut expect: Vec<u128> = all_d.iter().take(n).copied().collect();
    expect.reverse();
    assert_eq!(kd_d, expect);
    // the single nearest neighbor carries the true minimum distance
    let (_, closest_d) = tree.find_closest(query).unwrap();
    assert_eq!(closest_d, all_d[0]);
    // which of several equidistant points survives is unspecified, so the
    // point is pinned down only where its distance is unique
    let kd_p = points(&kd);
    let brute_p = points(&brute);
    for i in 0..kd_d.len() {
        let tied = all_d.iter().filter(|&&d| d == kd_d[i]).count() > 1;
        if !tied {
            assert_eq!(kd_p[i], brute_p[i]);
            assert_eq!(sq_dist(&kd_p[i], query), kd_d[i]);
        }
    }
}

#[test]
fn closest_exact_match() {
    // Insert seven 3-dimensional points; querying one of them must return
    // that exact point with distance zero.
    let mut tree = KdTree::<Vec<i32>>::new(3);
    let pts: Vec<Vec<i32>> = vec![
        vec![5, 2, 1],
        vec![10, 10, 10],
        vec![20, 20, 20],
        vec![-10, -10, -10],
        vec![-20, -20, -20],
        vec![30, 30, 30],
        vec![-30, -30, -30],
    ];
    for p in &pts {
        tree.add_point(p.clone()).unwrap();
    }
    let (point, distance) = tree.find_closest(&vec![5, 2, 1]).unwrap();
    assert_eq!(point, vec![5, 2, 1]);
    assert_eq!(distance, 0);
}

#[test]
fn find_matches_brute_small() {
    let mut tree = KdTree::<Vec<i32>>::new(2);
    let pts: Vec<Vec<i32>> = vec![
        vec![0, 0],
        vec![3, 4],
        vec![-3, 4],
        vec![10, -2],
        vec![7, 7],
        vec![-8, -8],
        vec![1, 1],
        vec![2, -9],
    ];
    for p in &pts {
        tree.add_point(p.clone()).unwrap();
    }
    for q in [vec![1, 2], vec![-5, -5], vec![100, 100], vec![0, 0]] {
        for n in 1..=8 {
            assert_matches_oracle(&tree, &pts, &q, n);
        }
    }
}

#[test]
fn find_matches_brute_random() {
    // A larger pseudo-random point cloud; the ten nearest by tree search
    // must exactly match the ten nearest by linear scan.
    let mut lcg = Lcg::new(0x5eed);
    let mut tree = KdTree::<Vec<i32>>::with_capacity(3, 60_000);
    let mut pts: Vec<Vec<i32>> = Vec::new();
    for _ in 0..50_000 {
        let p = lcg.next_point(3, 1000);
        tree.add_point(p.clone()).unwrap();
        pts.push(p);
    }
    for _ in 0..3 {
        let q = lcg.next_point(3, 1000);
        assert_matches_oracle(&tree, &pts, &q, 10);
    }
}

#[test]
fn one_dimensional_underfull_search() {
    // With as many neighbors requested as points stored, the search must
    // return every point even when a subtree looks unpromising.
    let mut tree = KdTree::<Vec<i32>>::new(1);
    let pts: Vec<Vec<i32>> = vec![vec![10], vec![5], vec![20]];
    for p in &pts {
        tree.add_point(p.clone()).unwrap();
    }
    let res = tree.find_n_closest(&vec![5], 3).unwrap();
    let mut d = dists(&res);
    d.sort();
    assert_eq!(d, vec![0, 25, 225]);
    assert_matches_oracle(&tree, &pts, &vec![5], 3);
}

#[test]
fn dimension_guard() {
    let mut tree = KdTree::<Vec<i32>>::new(3);
    tree.add_point(vec![1, 2, 3]).unwrap();
    // Inserting a point of the wrong dimensionality fails and leaves the
    // tree unmodified.
    assert_eq!(tree.add_point(vec![1, 2]), Err(KdError::DimensionError));
    assert_eq!(
        tree.add_point(vec![1, 2, 3, 4]),
        Err(KdError::DimensionError)
    );
    let (point, distance) = tree.find_closest(&vec![1, 2, 3]).unwrap();
    assert_eq!(point, vec![1, 2, 3]);
    assert_eq!(distance, 0);
    let all = tree.brute_force(&vec![0, 0, 0], 10).unwrap();
    assert_eq!(all.len(), 1);
    // Querying with the wrong dimensionality fails too.
    assert_eq!(
        tree.find_closest(&vec![1, 2]).unwrap_err(),
        KdError::DimensionError
    );
    assert_eq!(
        tree.find_n_closest(&vec![1, 2, 3, 4], 2).unwrap_err(),
        KdError::DimensionError
    );
    assert_eq!(
        tree.brute_force(&vec![1], 2).unwrap_err(),
        KdError::DimensionError
    );
}

#[test]
fn empty_tree_guard() {
    let tree = KdTree::<Vec<i32>>::new(2);
    assert_eq!(tree.find_closest(&vec![1, 2]).unwrap_err(), KdError::EmptyTree);
    assert_eq!(
        tree.find_n_closest(&vec![1, 2], 5).unwrap_err(),
        KdError::EmptyTree
    );
    // The dimensionality check comes first, even on an empty tree.
    assert_eq!(
        tree.find_closest(&vec![1]).unwrap_err(),
        KdError::DimensionError
    );
    // The diagnostic linear scan over an empty arena finds nothing.
    assert_eq!(tree.brute_force(&vec![1, 2], 5).unwrap().len(), 0);
}

#[test]
fn idempotent_reads() {
    let mut lcg = Lcg::new(42);
    let mut tree = KdTree::<Vec<i32>>::new(3);
    for _ in 0..200 {
        tree.add_point(lcg.next_point(3, 50)).unwrap();
    }
    let q = vec![25, 25, 25];
    let first = tree.find_n_closest(&q, 7).unwrap();
    let second = tree.find_n_closest(&q, 7).unwrap();
    assert_eq!(dists(&first), dists(&second));
    assert_eq!(points(&first), points(&second));
    let (p1, d1) = tree.find_closest(&q).unwrap();
    let (p2, d2) = tree.find_closest(&q).unwrap();
    assert_eq!(p1, p2);
    assert_eq!(d1, d2);
}

#[test]
fn n_exceeds_population() {
    // Asking for more neighbors than points returns one entry per stored
    // point, never an error.
    let mut tree = KdTree::<Vec<i32>>::new(2);
    tree.add_point(vec![0, 0]).unwrap();
    tree.add_point(vec![1, 1]).unwrap();
    tree.add_point(vec![5, 5]).unwrap();
    let res = tree.find_n_closest(&vec![0, 0], 10).unwrap();
    assert_eq!(res.len(), 3);
    let mut d = dists(&res);
    d.sort();
    assert_eq!(d, vec![0, 2, 50]);
}

#[test]
fn zero_neighbors_requested() {
    let mut tree = KdTree::<Vec<i32>>::new(2);
    tree.add_point(vec![0, 0]).unwrap();
    assert_eq!(
        tree.find_n_closest(&vec![0, 0], 0).unwrap_err(),
        KdError::BinaryHeapError
    );
    assert_eq!(
        tree.brute_force(&vec![0, 0], 0).unwrap_err(),
        KdError::BinaryHeapError
    );
    // Emptiness is reported before the zero-capacity complaint.
    let empty = KdTree::<Vec<i32>>::new(2);
    assert_eq!(
        empty.find_n_closest(&vec![0, 0], 0).unwrap_err(),
        KdError::EmptyTree
    );
    assert_eq!(empty.brute_force(&vec![0, 0], 0).unwrap().len(), 0);
}

#[test]
fn insertion_order_invariance() {
    let pts: Vec<Vec<i32>> = vec![
        vec![4, 1],
        vec![-3, 7],
        vec![9, 9],
        vec![0, -2],
        vec![6, -6],
        vec![2, 2],
    ];
    let orders: Vec<Vec<usize>> = vec![
        vec![0, 1, 2, 3, 4, 5],
        vec![5, 4, 3, 2, 1, 0],
        vec![2, 0, 4, 1, 5, 3],
    ];
    let q = vec![1, 1];
    let mut results: Vec<(Vec<i32>, u128, Vec<u128>)> = Vec::new();
    for order in &orders {
        let mut tree = KdTree::<Vec<i32>>::new(2);
        for &i in order {
            tree.add_point(pts[i].clone()).unwrap();
        }
        let (p, d) = tree.find_closest(&q).unwrap();
        let top = tree.find_n_closest(&q, 4).unwrap();
        results.push((p, d, dists(&top)));
    }
    for r in &results[1..] {
        assert_eq!(r.0, results[0].0);
        assert_eq!(r.1, results[0].1);
        assert_eq!(r.2, results[0].2);
    }
}

#[test]
fn tied_distances() {
    let mut tree = KdTree::<Vec<i32>>::new(2);
    tree.add_point(vec![1, 0]).unwrap();
    tree.add_point(vec![-1, 0]).unwrap();
    tree.add_point(vec![0, 5]).unwrap();
    // Two points are equidistant from the origin; the winner of the tie is
    // unspecified, but the distance must be exact.
    let (point, distance) = tree.find_closest(&vec![0, 0]).unwrap();
    assert_eq!(distance, 1);
    assert!(point == vec![1, 0] || point == vec![-1, 0]);
    let two = tree.find_n_closest(&vec![0, 0], 2).unwrap();
    assert_eq!(dists(&two), vec![1, 1]);
}

#[test]
fn capacity_growth() {
    // A tree whose initial arena is tiny must grow transparently.
    let mut tree = KdTree::<Vec<i32>>::with_capacity(2, 0);
    let mut pts: Vec<Vec<i32>> = Vec::new();
    for i in 0..40 {
        tree.add_point(vec![i, -i]).unwrap();
        pts.push(vec![i, -i]);
    }
    let (point, distance) = tree.find_closest(&vec![39, -39]).unwrap();
    assert_eq!(point, vec![39, -39]);
    assert_eq!(distance, 0);
    assert_matches_oracle(&tree, &pts, &vec![17, -20], 5);
}

#[test]
fn dimension_getter() {
    let tree = KdTree::<Vec<i32>>::new(7);
    assert_eq!(tree.get_num_dimensions(), 7);
}

#[test]
fn error_descriptions() {
    assert_eq!(
        KdError::DimensionError.description(),
        "KdTree error: dimension error"
    );
    assert_eq!(
        KdError::EmptyTree.description(),
        "KdTree error: no nodes in tree"
    );
    assert_eq!(
        KdError::NodeMissing.description(),
        "KdTree error: Cant access current node"
    );
    assert_eq!(
        KdError::BinaryHeapError.description(),
        "KdTree error: Error accessing binary heap"
    );
}

#[test]
fn negative_coordinates_and_deep_skew() {
    // Monotone insertion order produces a maximally skewed tree; the search
    // must still agree with the oracle.
    let mut tree = KdTree::<Vec<i32>>::new(2);
    let mut pts: Vec<Vec<i32>> = Vec::new();
    for i in 0..120 {
        tree.add_point(vec![i - 60, 2 * i - 120]).unwrap();
        pts.push(vec![i - 60, 2 * i - 120]);
    }
    for q in [vec![-60, -120], vec![0, 0], vec![59, 58], vec![-200, 300]] {
        for n in [1, 3, 120, 121] {
            assert_matches_oracle(&tree, &pts, &q, n);
        }
    }
}
