use hypersurface::{Extent, HyperSurface, HyperSurfaceMeta};

#[test]
fn storage_round_trip_and_isolation() {
    let meta = HyperSurfaceMeta::new(2, 2, 1);
    let mut surf: HyperSurface<u32> = HyperSurface::new(meta);
    assert_eq!(surf.meta(), meta);
    let coords = meta.dense_coords();
    let c1 = vec![Extent::InBound(1), Extent::Negative];
    surf.set(&c1, 7);
    assert_eq!(*surf.get(&c1), 7);
    // every other coordinate still holds its default
    for c in &coords {
        if *c != c1 {
            assert_eq!(*surf.get(c), 0);
        }
    }
    // a second write elsewhere leaves the first in place
    let c2 = vec![Extent::Positive, Extent::InBound(0)];
    surf.set(&c2, 9);
    assert_eq!(*surf.get(&c1), 7);
    assert_eq!(*surf.get(&c2), 9);
}

#[test]
fn storage_writes_every_coordinate() {
    let meta = HyperSurfaceMeta::new(2, 3, 2);
    let mut surf: HyperSurface<usize> = HyperSurface::new(meta);
    let coords = meta.dense_coords();
    for (i, c) in coords.iter().enumerate() {
        surf.set(c, i + 1);
    }
    for (i, c) in coords.iter().enumerate() {
        assert_eq!(*surf.get(c), i + 1);
    }
}

#[test]
fn corner_storage_holds_one_value_per_face() {
    // N=3, side_len=2, max_dim=0: eight one-point faces.
    let meta = HyperSurfaceMeta::new(3, 2, 0);
    let mut surf: HyperSurface<i64> = HyperSurface::new(meta);
    let coords = meta.dense_coords();
    assert_eq!(coords.len(), 8);
    for (i, c) in coords.iter().enumerate() {
        surf.set(c, -(i as i64));
    }
    for (i, c) in coords.iter().enumerate() {
        assert_eq!(*surf.get(c), -(i as i64));
    }
}
