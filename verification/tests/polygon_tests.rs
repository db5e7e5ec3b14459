use proseg::geom::{Voxel, VoxelSet};
use rand::{RngExt, SeedableRng};
use proseg::polygons::{
    antialias_polygon, edges_equal, mark_visited, reverse_edge, simplify_polygon, PolygonBuilder,
};

fn voxel_set(vs: &[(i32, i32, i32)]) -> VoxelSet {
    let mut s = VoxelSet::new();
    for &(i, j, k) in vs {
        s.insert(Voxel::new(i, j, k));
    }
    s
}

#[test]
fn single_voxel_yields_one_ring_with_four_corners() {
    let vs = voxel_set(&[(0, 0, 0)]);
    let mut b = PolygonBuilder::new();
    let out = b.extract_rings(&vs).expect("valid boundary graph");
    assert_eq!(out.len(), 1);
    let (k, rings) = &out[0];
    assert_eq!(*k, 0);
    assert_eq!(rings.len(), 1);
    let ring = &rings[0];
    assert_eq!(ring.first(), ring.last());
    assert_eq!(ring.len(), 5);
    let mut distinct = ring.clone();
    distinct.pop();
    distinct.sort();
    distinct.dedup();
    assert_eq!(distinct.len(), 4);
    assert_eq!(ring, &vec![(1, 0), (1, 1), (0, 1), (0, 0), (1, 0)]);
}

#[test]
fn two_adjacent_voxels_share_no_internal_edge() {
    let vs = voxel_set(&[(0, 0, 0), (1, 0, 0)]);
    let mut b = PolygonBuilder::new();
    let out = b.cell_voxels_to_polygons(&vs).expect("valid boundary graph");
    assert_eq!(out.len(), 1);
    let (k, rings) = &out[0];
    assert_eq!(*k, 0);
    assert_eq!(rings.len(), 1);
    // One rectangle ring; the shared internal edge is gone and the collinear
    // midpoints are simplified away.
    assert_eq!(rings[0], vec![(0, 0), (0, 1), (2, 1), (2, 0), (0, 0)]);
}

#[test]
fn two_layers_yield_one_ring_each() {
    let vs = voxel_set(&[(0, 0, 0), (0, 0, 1)]);
    let mut b = PolygonBuilder::new();
    let out = b.extract_rings(&vs).expect("valid boundary graph");
    assert_eq!(out.len(), 2);
    assert_eq!(out[0].0, 0);
    assert_eq!(out[1].0, 1);
    assert_eq!(out[0].1.len(), 1);
    assert_eq!(out[1].1.len(), 1);
}

#[test]
fn empty_voxel_set_yields_no_layers() {
    let vs = VoxelSet::new();
    let mut b = PolygonBuilder::new();
    let out = b.extract_rings(&vs).expect("empty set is trivially valid");
    assert!(out.is_empty());
}

#[test]
fn antialias_leaves_stairless_polygon_unchanged() {
    let p = vec![(0, 0), (1, 0), (2, 0), (3, 0), (2, 0), (1, 0), (0, 0)];
    assert_eq!(antialias_polygon(p.clone()), p);
}

#[test]
fn antialias_removes_notch_vertices() {
    let p = vec![(0, 0), (1, 0), (1, 1), (2, 1), (3, 1), (3, 0), (0, 0)];
    assert_eq!(
        antialias_polygon(p),
        vec![(0, 0), (1, 0), (2, 1), (3, 0), (0, 0)]
    );
}

#[test]
fn antialias_keeps_short_polygons() {
    let p = vec![(0, 0), (1, 0), (1, 1), (0, 1), (0, 0)];
    assert_eq!(antialias_polygon(p.clone()), p);
}

#[test]
fn simplify_drops_collinear_vertices() {
    let p = vec![
        (0, 0),
        (1, 0),
        (2, 0),
        (2, 1),
        (2, 2),
        (1, 2),
        (0, 2),
        (0, 1),
        (0, 0),
    ];
    assert_eq!(
        simplify_polygon(p),
        vec![(0, 0), (2, 0), (2, 2), (0, 2), (0, 0)]
    );
}

#[test]
fn simplify_twice_equals_once_on_unit_rings() {
    let cases = vec![
        vec![
            (0, 0),
            (1, 0),
            (2, 0),
            (2, 1),
            (2, 2),
            (1, 2),
            (0, 2),
            (0, 1),
            (0, 0),
        ],
        vec![(0, 0), (0, 1), (1, 1), (2, 1), (2, 0), (1, 0), (0, 0)],
        vec![(0, 0), (1, 0), (1, 1), (0, 1), (0, 0)],
    ];
    for p in cases {
        let once = simplify_polygon(p);
        let twice = simplify_polygon(once.clone());
        assert_eq!(once, twice);
    }
}

#[test]
fn reverse_edge_swaps_corners() {
    let e = (3, (0, 1), (0, 2));
    let r = reverse_edge(&e);
    assert_eq!(r, (3, (0, 2), (0, 1)));
    assert!(edges_equal(&reverse_edge(&r), &e));
}

#[test]
fn mark_visited_marks_edge_and_reverse() {
    let edges = vec![
        (0, (0, 0), (0, 1)),
        (0, (0, 1), (0, 0)),
        (0, (0, 1), (1, 1)),
        (0, (1, 1), (0, 1)),
    ];
    let mut visited = vec![false, false, false, false];
    mark_visited(&edges, &mut visited, &(0, (0, 0), (0, 1)));
    assert_eq!(visited, vec![true, true, false, false]);
    mark_visited(&edges, &mut visited, &(0, (1, 1), (0, 1)));
    assert_eq!(visited, vec![true, true, true, true]);
}

#[test]
fn extraction_succeeds_on_random_voxel_sets() {
    // Extraction is total: every voxel set, checkerboard corners included,
    // yields closed unit-step rings.
    let mut rng = rand::rngs::StdRng::seed_from_u64(11);
    for case in 0..30 {
        let mut s = VoxelSet::new();
        for i in 0..5 {
            for j in 0..5 {
                if rng.random_range(0..2u32) == 1 {
                    s.insert(Voxel::new(i, j, case % 3));
                }
            }
        }
        let mut b = PolygonBuilder::new();
        let out = b.extract_rings(&s).expect("extraction always succeeds");
        for (_, rings) in &out {
            for ring in rings {
                assert_eq!(ring.first(), ring.last());
                for w in ring.windows(2) {
                    let d = (w[1].0 - w[0].0).abs() + (w[1].1 - w[0].1).abs();
                    assert_eq!(d, 1);
                }
            }
        }
    }
}

#[test]
fn notched_block_boundary_is_traced_and_closed() {
    // A 3x2 block with its top-middle voxel missing: one layer, one ring
    // around the notch.
    let vs = voxel_set(&[(0, 0, 0), (1, 0, 0), (2, 0, 0), (0, 1, 0), (2, 1, 0)]);
    let mut b = PolygonBuilder::new();
    let out = b.extract_rings(&vs).expect("valid boundary graph");
    assert_eq!(out.len(), 1);
    let rings = &out[0].1;
    assert_eq!(rings.len(), 1);
    let ring = &rings[0];
    assert_eq!(ring.first(), ring.last());
    // Every step is a unit step.
    for w in ring.windows(2) {
        let d = (w[1].0 - w[0].0).abs() + (w[1].1 - w[0].1).abs();
        assert_eq!(d, 1);
    }
}
