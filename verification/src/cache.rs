//! Precomputed adjacency: a fixed enumeration of every coordinate of
//! the skeleton and, for each, the flat indices of its neighbors in
//! that same enumeration.  Built once per metadata instance and then
//! read-only, so a simulation step pays no per-step neighbor search.

use vstd::prelude::*;
use crate::extent::{Extent, HyperCoord, coords_equal, copy_coord};
use crate::meta::HyperSurfaceMeta;
use crate::neighbors::neighbor_list;

verus! {

/// Finds the position of a coordinate in a list known to contain it.
fn find_coord(coords: &Vec<HyperCoord>, c: &HyperCoord) -> (r: usize)
    requires
        exists|i: int| 0 <= i < coords@.len() && (#[trigger] coords@[i])@ == c@,
    ensures
        r < coords@.len(),
        coords@[r as int]@ == c@,
{
    let mut i: usize = 0;
    while i < coords.len()
        invariant
            i <= coords@.len(),
            exists|j: int| 0 <= j < coords@.len() && (#[trigger] coords@[j])@ == c@,
            forall|j: int| 0 <= j < i ==> (#[trigger] coords@[j])@ != c@,
        decreases coords@.len() - i,
    {
        if coords_equal(&coords[i], c) {
            return i;
        }
        i = i + 1;
    }
    proof {
        let j = choose|j: int| 0 <= j < coords@.len() && (#[trigger] coords@[j])@ == c@;
        assert(coords@[j]@ != c@);
        assert(false);
    }
    0
}

/// A read-only table mapping every coordinate of the skeleton to a
/// flat index and to the flat indices of its neighbors.
pub struct AdjacencyCache {
    meta: HyperSurfaceMeta,
    coords: Vec<HyperCoord>,
    neighbor_idx: Vec<Vec<usize>>,
}

impl AdjacencyCache {
    /// The metadata this cache was built from.
    pub closed spec fn spec_meta(self) -> HyperSurfaceMeta {
        self.meta
    }

    /// The number of coordinates in the enumeration.
    pub closed spec fn spec_len(self) -> int {
        self.coords@.len() as int
    }

    /// The coordinate at flat index `i`.
    pub closed spec fn spec_coord(self, i: int) -> Seq<Extent> {
        self.coords@[i]@
    }

    /// The neighbor flat indices of the coordinate at flat index `i`.
    pub closed spec fn spec_neighbors(self, i: int) -> Seq<usize> {
        self.neighbor_idx@[i]@
    }

    /// The enumeration lists every coordinate of the skeleton exactly
    /// once, and each entry's neighbor indices point at exactly its
    /// neighbor sequence.
    pub closed spec fn wf(self) -> bool {
        &&& self.meta.wf()
        &&& self.neighbor_idx@.len() == self.coords@.len()
        &&& self.coords@.len() == self.meta.valid_coord_set().len()
        &&& forall|i: int|
            0 <= i < self.coords@.len() ==> self.meta.coord_valid((#[trigger] self.coords@[i])@)
        &&& forall|i1: int, i2: int|
            0 <= i1 < i2 < self.coords@.len() ==> self.coords@[i1]@ != self.coords@[i2]@
        &&& forall|c: Seq<Extent>|
            #[trigger] self.meta.coord_valid(c) ==> exists|i: int|
                0 <= i < self.coords@.len() && (#[trigger] self.coords@[i])@ == c
        &&& forall|i: int|
            0 <= i < self.coords@.len() ==> (#[trigger] self.neighbor_idx@[i])@.len()
                == neighbor_list(self.meta, self.coords@[i]@).len()
        &&& forall|i: int, j: int|
            0 <= i < self.coords@.len() && 0 <= j < self.neighbor_idx@[i]@.len() ==> (
            #[trigger] self.neighbor_idx@[i]@[j]) < self.coords@.len()
                && self.coords@[self.neighbor_idx@[i]@[j] as int]@ == neighbor_list(
                self.meta,
                self.coords@[i]@,
            )[j]
    }

    /// What the cache holds, for callers: a duplicate-free, complete
    /// enumeration of the skeleton's coordinates, each neighbor index
    /// in range and pointing at the matching entry of the coordinate's
    /// neighbor sequence.
    pub proof fn lemma_cache_adjacency(self)
        requires
            self.wf(),
        ensures
            self.spec_len() == self.spec_meta().valid_coord_set().len(),
            forall|i: int|
                0 <= i < self.spec_len() ==> self.spec_meta().coord_valid(
                    #[trigger] self.spec_coord(i),
                ),
            forall|i1: int, i2: int|
                0 <= i1 < i2 < self.spec_len() ==> self.spec_coord(i1) != self.spec_coord(i2),
            forall|c: Seq<Extent>|
                #[trigger] self.spec_meta().coord_valid(c) ==> exists|i: int|
                    0 <= i < self.spec_len() && self.spec_coord(i) == c,
            forall|i: int|
                0 <= i < self.spec_len() ==> (#[trigger] self.spec_neighbors(i)).len()
                    == neighbor_list(self.spec_meta(), self.spec_coord(i)).len(),
            forall|i: int, j: int|
                0 <= i < self.spec_len() && 0 <= j < self.spec_neighbors(i).len() ==> (
                #[trigger] self.spec_neighbors(i)[j]) < self.spec_len() && self.spec_coord(
                    self.spec_neighbors(i)[j] as int,
                ) == neighbor_list(self.spec_meta(), self.spec_coord(i))[j],
    {
        assert forall|c: Seq<Extent>| #[trigger] self.spec_meta().coord_valid(c) implies exists|
            i: int,
        | 0 <= i < self.spec_len() && self.spec_coord(i) == c by {
            let i = choose|i: int|
                0 <= i < self.coords@.len() && (#[trigger] self.coords@[i])@ == c;
            assert(self.spec_coord(i) == c);
        }
    }

    /// Precomputes the coordinate enumeration and every coordinate's
    /// neighbor indices for one metadata instance.
    pub fn new(meta: HyperSurfaceMeta) -> (r: Self)
        requires
            meta.wf(),
        ensures
            r.wf(),
            r.spec_meta() == meta,
    {
        let coords = meta.dense_coords();
        let mut neighbor_idx: Vec<Vec<usize>> = Vec::new();
        let mut i: usize = 0;
        while i < coords.len()
            invariant
                meta.wf(),
                i <= coords@.len(),
                neighbor_idx@.len() == i,
                forall|t: int|
                    0 <= t < coords@.len() ==> meta.coord_valid((#[trigger] coords@[t])@),
                forall|t1: int, t2: int|
                    0 <= t1 < t2 < coords@.len() ==> coords@[t1]@ != coords@[t2]@,
                forall|c: Seq<Extent>|
                    #[trigger] meta.coord_valid(c) ==> exists|t: int|
                        0 <= t < coords@.len() && (#[trigger] coords@[t])@ == c,
                forall|t: int|
                    0 <= t < i ==> (#[trigger] neighbor_idx@[t])@.len() == neighbor_list(
                        meta,
                        coords@[t]@,
                    ).len(),
                forall|t: int, j: int|
                    0 <= t < i && 0 <= j < neighbor_idx@[t]@.len() ==> (
                    #[trigger] neighbor_idx@[t]@[j]) < coords@.len()
                        && coords@[neighbor_idx@[t]@[j] as int]@ == neighbor_list(
                        meta,
                        coords@[t]@,
                    )[j],
            decreases coords@.len() - i,
        {
            let ci = copy_coord(&coords[i]);
            let mut cur = meta.neighbors(ci);
            let mut nlist: Vec<usize> = Vec::new();
            let ghost target = neighbor_list(meta, coords@[i as int]@);
            let mut done = false;
            while !done
                invariant
                    meta.wf(),
                    i < coords@.len(),
                    forall|t: int|
                        0 <= t < coords@.len() ==> meta.coord_valid((#[trigger] coords@[t])@),
                    forall|c: Seq<Extent>|
                        #[trigger] meta.coord_valid(c) ==> exists|t: int|
                            0 <= t < coords@.len() && (#[trigger] coords@[t])@ == c,
                    cur.wf(),
                    cur.meta == meta,
                    cur.coord@ == coords@[i as int]@,
                    target == neighbor_list(meta, coords@[i as int]@),
                    nlist@.len() <= target.len(),
                    !done ==> cur.remaining() == target.skip(nlist@.len() as int),
                    done ==> nlist@.len() == target.len(),
                    forall|j: int|
                        0 <= j < nlist@.len() ==> (#[trigger] nlist@[j]) < coords@.len()
                            && coords@[nlist@[j] as int]@ == target[j],
                decreases (if done {
                    0int
                } else {
                    cur.remaining().len() + 1int
                }),
            {
                let ghost k = nlist@.len() as int;
                match cur.next() {
                    Some(nc) => {
                        proof {
                            assert(target.skip(k) == seq![nc@] + cur.remaining());
                            assert(target.skip(k).len() > 0);
                            assert(target.skip(k)[0] == target[k]);
                            assert(target[k] == nc@);
                            assert forall|j: int|
                                0 <= j < cur.remaining().len() implies #[trigger] cur.remaining()[j]
                                == target.skip(k + 1)[j] by {
                                assert((seq![nc@] + cur.remaining())[j + 1] == cur.remaining()[j]);
                                assert(target.skip(k)[j + 1] == target[k + j + 1]);
                                assert(target.skip(k + 1)[j] == target[k + 1 + j]);
                            }
                            assert(cur.remaining() =~= target.skip(k + 1));
                            assert(meta.coord_valid(nc@));
                        }
                        let idx = find_coord(&coords, &nc);
                        nlist.push(idx);
                    },
                    None => {
                        proof {
                            assert(target.skip(k).len() == 0);
                        }
                        done = true;
                    },
                }
            }
            neighbor_idx.push(nlist);
            i = i + 1;
        }
        let ghost gcoords = coords@;
        let ghost gidx = neighbor_idx@;
        let r = AdjacencyCache { meta, coords, neighbor_idx };
        proof {
            assert(r.coords@ == gcoords && r.neighbor_idx@ == gidx && r.meta == meta);
            assert forall|c: Seq<Extent>| #[trigger] r.meta.coord_valid(c) implies exists|t: int|
                0 <= t < r.coords@.len() && (#[trigger] r.coords@[t])@ == c by {
                assert(meta.coord_valid(c));
                let t = choose|t: int| 0 <= t < gcoords.len() && (#[trigger] gcoords[t])@ == c;
                assert(r.coords@[t]@ == c);
            }
        }
        r
    }

    /// The number of coordinates of the skeleton.
    pub fn len(&self) -> (r: usize)
        requires
            self.wf(),
        ensures
            r == self.spec_len(),
            r == self.spec_meta().valid_coord_set().len(),
    {
        self.coords.len()
    }

    /// The coordinate at flat index `i`.
    pub fn coord_at(&self, i: usize) -> (r: &HyperCoord)
        requires
            self.wf(),
            i < self.spec_len(),
        ensures
            r@ == self.spec_coord(i as int),
    {
        &self.coords[i]
    }

    /// The neighbor flat indices of the coordinate at flat index `i`,
    /// in the order the neighbor cursor produces them.
    pub fn neighbors_of(&self, i: usize) -> (r: &Vec<usize>)
        requires
            self.wf(),
            i < self.spec_len(),
        ensures
            r@ == self.spec_neighbors(i as int),
    {
        &self.neighbor_idx[i]
    }
}

} // verus!
