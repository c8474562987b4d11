use hypersurface::{Extent, HyperSurfaceMeta, n_choose_m, set_hypercoord_inbound_vals};

#[test]
fn choose_counts_and_shape() {
    // C(4, 2) = 6 subsets, each of size 2, strictly increasing, below 4.
    let subs = n_choose_m(4, 2);
    assert_eq!(subs.len(), 6);
    for s in &subs {
        assert_eq!(s.len(), 2);
        assert!(s[0] < s[1]);
        assert!(s[1] < 4);
    }
    for i in 0..subs.len() {
        for j in (i + 1)..subs.len() {
            assert_ne!(subs[i], subs[j]);
        }
    }
}

#[test]
fn choose_zero_is_one_empty_subset() {
    let subs = n_choose_m(5, 0);
    assert_eq!(subs, vec![Vec::<usize>::new()]);
}

#[test]
fn choose_full_and_single() {
    assert_eq!(n_choose_m(2, 2), vec![vec![0usize, 1]]);
    assert_eq!(n_choose_m(3, 1), vec![vec![0usize], vec![1], vec![2]]);
}

#[test]
fn canonicalization_keeps_pins_and_collapses_interior() {
    let c = vec![Extent::InBound(5), Extent::Positive, Extent::Negative];
    let key = set_hypercoord_inbound_vals(&c, 0);
    assert_eq!(key, vec![Extent::InBound(0), Extent::Positive, Extent::Negative]);
}

#[test]
fn euclid_embedding_offsets() {
    // Negative -> 0, InBound(v) -> v + 1, Positive -> side_len + 1.
    let meta = HyperSurfaceMeta::new(3, 4, 2);
    let c = vec![Extent::Negative, Extent::InBound(2), Extent::Positive];
    let e = meta.coord_euclid(&c);
    assert_eq!(e, vec![0, 3, 5]);
}

#[test]
fn dense_index_some_iff_within_cap() {
    let meta = HyperSurfaceMeta::new(3, 2, 1);
    let zero_free = vec![Extent::Negative, Extent::Positive, Extent::Negative];
    let one_free = vec![Extent::InBound(1), Extent::Negative, Extent::Positive];
    let two_free = vec![Extent::InBound(0), Extent::InBound(1), Extent::Negative];
    assert_eq!(meta.index_dense(&zero_free), Some(0));
    assert_eq!(meta.index_dense(&one_free), Some(1));
    assert_eq!(meta.index_dense(&two_free), None);
}

#[test]
fn dense_index_mixed_radix_value() {
    // Stride grows by side_len per free axis, in axis order:
    // index = 2 + 3 * 1 = 5.
    let meta = HyperSurfaceMeta::new(2, 3, 2);
    let c = vec![Extent::InBound(2), Extent::InBound(1)];
    assert_eq!(meta.index_dense(&c), Some(5));
}

#[test]
fn face_count_two_axes_capped_at_one() {
    // 1 corner face choice with 2^2 signs plus 2 axis choices with 2^1
    // signs: 4 + 4 = 8 faces.
    let meta = HyperSurfaceMeta::new(2, 1, 1);
    let planes = meta.all_planes();
    assert_eq!(planes.len(), 8);
    for i in 0..planes.len() {
        for j in (i + 1)..planes.len() {
            assert_ne!(planes[i], planes[j]);
        }
    }
}

#[test]
fn face_count_full_cap_two_axes() {
    // k=0: 4, k=1: 2 * 2 = 4, k=2: 1, total 9 faces.
    let meta = HyperSurfaceMeta::new(2, 1, 2);
    assert_eq!(meta.all_planes().len(), 9);
}

#[test]
fn corner_only_skeleton_has_eight_faces() {
    // N=3, side_len=2, max_dim=0: only the 2^3 pure corners.
    let meta = HyperSurfaceMeta::new(3, 2, 0);
    let planes = meta.all_planes();
    assert_eq!(planes.len(), 8);
    for p in &planes {
        assert!(p.iter().all(|e| !matches!(e, Extent::InBound(_))));
    }
}

#[test]
fn coordinate_count_two_axes_capped_at_one() {
    // 4 corners plus 4 one-free-axis coordinates of length 1 each.
    let meta = HyperSurfaceMeta::new(2, 1, 1);
    let coords = meta.dense_coords();
    assert_eq!(coords.len(), 8);
    for i in 0..coords.len() {
        for j in (i + 1)..coords.len() {
            assert_ne!(coords[i], coords[j]);
        }
    }
}

#[test]
fn corner_only_skeleton_has_eight_coordinates() {
    let meta = HyperSurfaceMeta::new(3, 2, 0);
    assert_eq!(meta.dense_coords().len(), 8);
}

#[test]
fn dense_coords_rec_expands_one_face() {
    let meta = HyperSurfaceMeta::new(2, 2, 1);
    let plane = vec![Extent::InBound(0), Extent::Negative];
    let mut out = Vec::new();
    meta.dense_coords_rec(&mut out, 1, plane);
    assert_eq!(
        out,
        vec![
            vec![Extent::InBound(0), Extent::Negative],
            vec![Extent::InBound(1), Extent::Negative],
        ]
    );
}

#[test]
fn dense_index_bijective_within_face() {
    // On the all-free face of a 2-axis skeleton with side 3, the dense
    // indices of its coordinates are exactly 0..9, each hit once.
    let meta = HyperSurfaceMeta::new(2, 3, 2);
    let face = vec![Extent::InBound(0), Extent::InBound(0)];
    let mut seen = vec![false; 9];
    for c in meta.dense_coords() {
        if set_hypercoord_inbound_vals(&c, 0) == face {
            let idx = meta.index_dense(&c).unwrap();
            assert!(idx < 9);
            assert!(!seen[idx]);
            seen[idx] = true;
        }
    }
    assert!(seen.iter().all(|&b| b));
}
