use hypersurface::{AdjacencyCache, Extent, HyperSurfaceMeta, extent_neighbor, count_var_dims};
use hypersurface::Extent::{InBound, Negative, Positive};

fn collect_neighbors(meta: HyperSurfaceMeta, c: &Vec<Extent>) -> Vec<Vec<Extent>> {
    let mut cur = meta.neighbors(c.clone());
    let mut out = Vec::new();
    while let Some(n) = cur.next() {
        out.push(n);
    }
    out
}

#[test]
fn extent_neighbor_transition_table() {
    let s = 3;
    assert_eq!(extent_neighbor(Positive, true, s), None);
    assert_eq!(extent_neighbor(Positive, false, s), Some(InBound(2)));
    assert_eq!(extent_neighbor(Negative, false, s), None);
    assert_eq!(extent_neighbor(Negative, true, s), Some(InBound(0)));
    assert_eq!(extent_neighbor(InBound(2), true, s), Some(Positive));
    assert_eq!(extent_neighbor(InBound(1), true, s), Some(InBound(2)));
    assert_eq!(extent_neighbor(InBound(0), false, s), Some(Negative));
    assert_eq!(extent_neighbor(InBound(1), false, s), Some(InBound(0)));
}

#[test]
fn extent_neighbor_zero_width_wraps_to_opposite_pin() {
    assert_eq!(extent_neighbor(Extent::Positive, false, 0), Some(Extent::Negative));
    assert_eq!(extent_neighbor(Extent::Negative, true, 0), Some(Extent::Positive));
}

#[test]
fn neighbors_interleave_low_then_high_per_axis() {
    // An interior point of a 1-skeleton: its axis steps come in
    // low/high order, axis by axis.
    let meta = HyperSurfaceMeta::new(2, 3, 1);
    let c = vec![Extent::InBound(1), Extent::Negative];
    let ns = collect_neighbors(meta, &c);
    assert_eq!(
        ns,
        vec![
            vec![Extent::InBound(0), Extent::Negative],
            vec![Extent::InBound(2), Extent::Negative],
        ]
    );
}

#[test]
fn neighbors_never_exceed_cap() {
    let meta = HyperSurfaceMeta::new(3, 2, 1);
    for c in meta.dense_coords() {
        for n in collect_neighbors(meta, &c) {
            assert!(count_var_dims(&n) <= 1);
        }
    }
}

#[test]
fn neighbors_are_symmetric() {
    let meta = HyperSurfaceMeta::new(2, 2, 1);
    for c in meta.dense_coords() {
        for n in collect_neighbors(meta, &c) {
            let back = collect_neighbors(meta, &n);
            assert!(back.contains(&c), "missing back edge");
        }
    }
}

#[test]
fn corners_of_zero_skeleton_have_no_neighbors() {
    // N=3, side_len=2, max_dim=0: any step would free an axis.
    let meta = HyperSurfaceMeta::new(3, 2, 0);
    for c in meta.dense_coords() {
        assert_eq!(collect_neighbors(meta, &c).len(), 0);
    }
}

#[test]
fn zero_width_axis_connects_opposite_corners() {
    let meta = HyperSurfaceMeta::new(2, 0, 1);
    let c = vec![Extent::Negative, Extent::Negative];
    let ns = collect_neighbors(meta, &c);
    assert_eq!(
        ns,
        vec![
            vec![Extent::Positive, Extent::Negative],
            vec![Extent::Negative, Extent::Positive],
        ]
    );
}

#[test]
fn cache_len_counts_all_coordinates() {
    let meta = HyperSurfaceMeta::new(2, 1, 1);
    let cache = AdjacencyCache::new(meta);
    assert_eq!(cache.len(), 8);
    let meta3 = HyperSurfaceMeta::new(3, 2, 0);
    assert_eq!(AdjacencyCache::new(meta3).len(), 8);
}

#[test]
fn cache_indices_match_cursor_output() {
    let meta = HyperSurfaceMeta::new(2, 2, 1);
    let cache = AdjacencyCache::new(meta);
    for i in 0..cache.len() {
        let c = cache.coord_at(i).clone();
        let expected = collect_neighbors(meta, &c);
        let got = cache.neighbors_of(i);
        assert_eq!(got.len(), expected.len());
        for (j, &ni) in got.iter().enumerate() {
            assert!(ni < cache.len());
            assert_eq!(cache.coord_at(ni), &expected[j]);
        }
    }
}

#[test]
fn cache_coordinates_are_distinct_and_valid() {
    let meta = HyperSurfaceMeta::new(2, 2, 1);
    let cache = AdjacencyCache::new(meta);
    for i in 0..cache.len() {
        assert!(count_var_dims(cache.coord_at(i)) <= 1);
        for j in (i + 1)..cache.len() {
            assert_ne!(cache.coord_at(i), cache.coord_at(j));
        }
    }
}
