use iridium::quadtree::QuadTreeNode;

/// A node's rectangle (x, y, width, height) and the total mass of its subset.
#[derive(Clone, Debug, PartialEq)]
struct Cell {
    x: f64,
    y: f64,
    w: f64,
    h: f64,
    mass: f64,
}

fn cell(x: f64, y: f64, w: f64, h: f64) -> Cell {
    Cell { x, y, w, h, mass: 0.0 }
}

fn build(points: &[(f64, f64)], masses: &[f64], max: usize, depth: usize, size: f64) -> QuadTreeNode<Cell> {
    let mut root = QuadTreeNode::new(cell(0.0, 0.0, size, size));
    let summarize = |d: &Cell, idx: &Vec<usize>, _leaf: bool| Cell {
        mass: idx.iter().map(|&i| masses[i]).sum(),
        ..d.clone()
    };
    let split = |d: &Cell| {
        let (w, h) = (d.w / 2.0, d.h / 2.0);
        (
            cell(d.x, d.y, w, h),
            cell(d.x + w, d.y, w, h),
            cell(d.x, d.y + h, w, h),
            cell(d.x + w, d.y + h, w, h),
        )
    };
    let contains = |d: &Cell, i: usize| {
        let (px, py) = points[i];
        px >= d.x && px <= d.x + d.w && py >= d.y && py <= d.y + d.h
    };
    root.insert_particles((0..points.len()).collect(), max, depth, &summarize, &split, &contains);
    root
}

fn leaves(n: &QuadTreeNode<Cell>, out: &mut Vec<Vec<usize>>) {
    if n.childs.is_empty() {
        out.push(n.indexes.clone());
    } else {
        assert_eq!(n.childs.len(), 4);
        assert!(n.indexes.is_empty());
        let sum: f64 = n.childs.iter().map(|c| c.data.mass).sum();
        assert!((sum - n.data.mass).abs() < 1e-9);
        for c in &n.childs {
            leaves(c, out);
        }
    }
}

/// Uniform values in [0, 1) from a fixed linear congruential sequence.
fn lcg(seed: &mut u64) -> f64 {
    *seed = seed.wrapping_mul(6364136223846793005).wrapping_add(1442695040888963407);
    (*seed >> 11) as f64 / (1u64 << 53) as f64
}

#[test]
fn thousand_random_particles_partition() {
    let mut seed = 7u64;
    let points: Vec<(f64, f64)> = (0..1000).map(|_| (lcg(&mut seed) * 1000.0, lcg(&mut seed) * 1000.0)).collect();
    let masses: Vec<f64> = (0..1000).map(|i| 1.0 + (i % 7) as f64).collect();
    let root = build(&points, &masses, 10, 32, 1000.0);
    let mut ls = Vec::new();
    leaves(&root, &mut ls);
    let total: usize = ls.iter().map(|l| l.len()).sum();
    assert_eq!(total, 1000);
    assert!(ls.iter().all(|l| l.len() <= 10));
    let mut all: Vec<usize> = ls.concat();
    all.sort();
    assert_eq!(all, (0..1000).collect::<Vec<_>>());
    let expected: f64 = masses.iter().sum();
    assert!((root.data.mass - expected).abs() < 1e-6);
}

#[test]
fn small_subset_stays_a_leaf() {
    let points = vec![(1.0, 1.0), (3.0, 3.0)];
    let root = build(&points, &[1.0, 2.0], 2, 8, 4.0);
    assert!(root.childs.is_empty());
    assert_eq!(root.indexes, vec![0, 1]);
    assert_eq!(root.data.mass, 3.0);
}

#[test]
fn split_sends_edge_points_to_first_child() {
    // (2, 2) lies on the corner shared by all four quadrants: it goes to child 0.
    let points = vec![(1.0, 1.0), (3.0, 1.0), (1.0, 3.0), (3.0, 3.0), (2.0, 2.0)];
    let root = build(&points, &[1.0; 5], 1, 8, 4.0);
    assert_eq!(root.childs.len(), 4);
    let child0 = &root.childs[0];
    assert_eq!(child0.childs.len(), 4);
    let mut ls = Vec::new();
    leaves(child0, &mut ls);
    let mut under0: Vec<usize> = ls.concat();
    under0.sort();
    assert_eq!(under0, vec![0, 4]);
    assert_eq!(root.childs[1].indexes, vec![1]);
    assert_eq!(root.childs[2].indexes, vec![2]);
    assert_eq!(root.childs[3].indexes, vec![3]);
}

#[test]
fn colocated_particles_stop_at_depth_limit() {
    let points = vec![(1.0, 1.0); 5];
    let root = build(&points, &[1.0; 5], 1, 3, 4.0);
    let mut ls = Vec::new();
    leaves(&root, &mut ls);
    assert_eq!(ls.iter().map(|l| l.len()).sum::<usize>(), 5);
    assert!(ls.iter().any(|l| l.len() == 5));
}

#[test]
fn rebuild_with_fewer_particles_prunes() {
    let points = vec![(1.0, 1.0), (3.0, 1.0), (1.0, 3.0), (3.0, 3.0)];
    let mut root = build(&points, &[1.0; 4], 1, 8, 4.0);
    assert_eq!(root.childs.len(), 4);
    let summarize = |d: &Cell, idx: &Vec<usize>, _leaf: bool| Cell { mass: idx.len() as f64, ..d.clone() };
    let split = |d: &Cell| (d.clone(), d.clone(), d.clone(), d.clone());
    let contains = |_d: &Cell, _i: usize| true;
    root.insert_particles(vec![2], 1, 8, &summarize, &split, &contains);
    assert!(root.childs.is_empty());
    assert_eq!(root.indexes, vec![2]);
}

#[test]
fn node_steps_keep_structure() {
    let mut n = QuadTreeNode::new(0u8);
    assert!(n.childs.is_empty() && n.indexes.is_empty());
    n.create_childs(1, 2, 3, 4);
    assert_eq!(n.childs.iter().map(|c| c.data).collect::<Vec<_>>(), vec![1, 2, 3, 4]);
    let b = n.make_internal(&vec![5, 6, 7], &vec![3, 3, 1]);
    assert_eq!(b, vec![vec![], vec![7], vec![], vec![5, 6]]);
    assert!(n.indexes.is_empty());
    n.make_leaf(vec![9]);
    assert!(n.childs.is_empty());
    assert_eq!(n.indexes, vec![9]);
    assert!(iridium::quadtree::stays_leaf(3, 3));
    assert!(!iridium::quadtree::stays_leaf(4, 3));
}

fn cut_indexes(cut: &[&QuadTreeNode<Cell>]) -> Vec<usize> {
    let mut out = Vec::new();
    for n in cut {
        let mut ls = Vec::new();
        leaves(n, &mut ls);
        out.extend(ls.concat());
    }
    out.sort();
    out
}

#[test]
fn cut_without_approximation_is_all_leaves() {
    let mut seed = 3u64;
    let points: Vec<(f64, f64)> = (0..200).map(|_| (lcg(&mut seed) * 100.0, lcg(&mut seed) * 100.0)).collect();
    let root = build(&points, &[1.0; 200], 4, 32, 100.0);
    let cut = root.barnes_hut_cut(32, &|_d: &Cell| false);
    assert!(cut.iter().all(|n| n.childs.is_empty()));
    let mut all = Vec::new();
    leaves(&root, &mut all);
    assert_eq!(cut.len(), all.len());
    assert_eq!(cut_indexes(&cut), (0..200).collect::<Vec<_>>());
}

#[test]
fn cut_stops_at_far_nodes() {
    let mut seed = 5u64;
    let points: Vec<(f64, f64)> = (0..200).map(|_| (lcg(&mut seed) * 100.0, lcg(&mut seed) * 100.0)).collect();
    let root = build(&points, &[1.0; 200], 4, 32, 100.0);
    // Everything at or below half the root's width counts as far.
    let cut = root.barnes_hut_cut(32, &|d: &Cell| d.w <= 50.0);
    assert_eq!(cut.len(), 4);
    assert!(cut.iter().all(|n| n.data.w == 50.0));
    assert_eq!(cut_indexes(&cut), (0..200).collect::<Vec<_>>());
    let whole = root.barnes_hut_cut(32, &|_d: &Cell| true);
    assert_eq!(whole.len(), 1);
}

#[test]
fn two_body_cut_sees_the_other_particle() {
    let points = vec![(0.0, 0.0), (10.0, 0.0)];
    let root = build(&points, &[1.0, 1.0], 1, 32, 16.0);
    let cut = root.barnes_hut_cut(32, &|_d: &Cell| false);
    let held: Vec<usize> = cut_indexes(&cut);
    assert_eq!(held, vec![0, 1]);
}

#[test]
fn looser_opening_test_keeps_a_subset_of_leaves() {
    let mut seed = 11u64;
    let points: Vec<(f64, f64)> = (0..300).map(|_| (lcg(&mut seed) * 100.0, lcg(&mut seed) * 100.0)).collect();
    let root = build(&points, &[1.0; 300], 4, 32, 100.0);
    let strict = root.barnes_hut_cut(32, &|d: &Cell| d.w <= 12.5);
    let loose = root.barnes_hut_cut(32, &|d: &Cell| d.w <= 50.0);
    let strict_leaves: Vec<Vec<usize>> =
        strict.iter().filter(|n| n.childs.is_empty()).map(|n| n.indexes.clone()).collect();
    let loose_leaves: Vec<Vec<usize>> =
        loose.iter().filter(|n| n.childs.is_empty()).map(|n| n.indexes.clone()).collect();
    assert!(loose_leaves.iter().all(|l| strict_leaves.contains(l)));
    assert!(loose_leaves.len() <= strict_leaves.len());
    assert_eq!(cut_indexes(&strict), (0..300).collect::<Vec<_>>());
    assert_eq!(cut_indexes(&loose), (0..300).collect::<Vec<_>>());
}
