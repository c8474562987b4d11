//! Sparse storage for the skeleton: one dense array per face, keyed
//! by the face's canonical pattern, addressed by face identity plus
//! dense index.

use vstd::prelude::*;
use vstd::arithmetic::power::{pow, lemma_pow_increases};
use crate::extent::{
    Extent, HyperCoord, coords_equal, count_inbound, count_var_dims, lemma_count_inbound_map_canon,
    plane_of, set_hypercoord_inbound_vals,
};
use crate::meta::{
    HyperSurfaceMeta, lemma_dense_index_bound, lemma_dense_index_injective, lemma_plane_of_wf,
    pow_usize,
};

verus! {

/// Storage for one value of type `T` per lattice point of the
/// skeleton: a dense array per face, keyed by the face's canonical
/// pattern.
pub struct HyperSurface<T> {
    keys: Vec<HyperCoord>,
    data: Vec<Vec<T>>,
    meta: HyperSurfaceMeta,
}

impl<T> HyperSurface<T> {
    /// The metadata this storage was built from.
    pub closed spec fn spec_meta(self) -> HyperSurfaceMeta {
        self.meta
    }

    /// The face table lists every face exactly once, and each face's
    /// array has one slot per dense index.
    pub closed spec fn wf(self) -> bool {
        &&& self.meta.wf()
        &&& self.keys@.len() == self.data@.len()
        &&& forall|i: int|
            0 <= i < self.keys@.len() ==> self.meta.plane_wf((#[trigger] self.keys@[i])@)
        &&& forall|i1: int, i2: int|
            0 <= i1 < i2 < self.keys@.len() ==> self.keys@[i1]@ != self.keys@[i2]@
        &&& forall|p: Seq<Extent>|
            #[trigger] self.meta.plane_wf(p) ==> exists|i: int|
                0 <= i < self.keys@.len() && (#[trigger] self.keys@[i])@ == p
        &&& forall|i: int|
            0 <= i < self.data@.len() ==> (#[trigger] self.data@[i])@.len() == pow(
                self.meta.inner_size as int,
                count_inbound(self.keys@[i]@),
            )
    }

    /// The position of a face's array in the table.
    pub closed spec fn plane_slot(self, p: Seq<Extent>) -> int {
        choose|i: int| 0 <= i < self.keys@.len() && (#[trigger] self.keys@[i])@ == p
    }

    /// The value stored at a coordinate: the slot of its face's array
    /// selected by its dense index.
    pub closed spec fn spec_at(self, c: Seq<Extent>) -> T {
        self.data@[self.plane_slot(plane_of(c))]@[HyperSurfaceMeta::dense_index_of(
            c,
            self.meta.inner_size,
        )]
    }

    /// Allocates storage for every face of the skeleton, each face's
    /// array sized `inner_size ^ free_axes` and default-initialized.
    #[verifier::rlimit(50)]
    pub fn new(meta: HyperSurfaceMeta) -> (r: Self) where T: Default + Clone
        requires
            meta.wf(),
        ensures
            r.wf(),
            r.spec_meta() == meta,
    {
        let keys = meta.all_planes();
        let mut data: Vec<Vec<T>> = Vec::new();
        let mut i: usize = 0;
        while i < keys.len()
            invariant
                meta.wf(),
                i <= keys@.len(),
                data@.len() == i,
                forall|j: int| 0 <= j < keys@.len() ==> meta.plane_wf((#[trigger] keys@[j])@),
                forall|j: int|
                    0 <= j < i ==> (#[trigger] data@[j])@.len() == pow(
                        meta.inner_size as int,
                        count_inbound(keys@[j]@),
                    ),
            decreases keys@.len() - i,
        {
            let var_dims = count_var_dims(&keys[i]);
            proof {
                assert(var_dims <= meta.max_dim);
                if meta.inner_size == 0 {
                    assert(pow(0, var_dims as nat) <= 1) by {
                        reveal(pow);
                        if var_dims > 0 {
                            vstd::arithmetic::power::lemma0_pow(var_dims as nat);
                        }
                    }
                } else {
                    lemma_pow_increases(
                        meta.inner_size as nat,
                        var_dims as nat,
                        meta.max_dim as nat,
                    );
                }
            }
            let flat_size = pow_usize(meta.inner_size, var_dims);
            let arr = vec![T::default(); flat_size];
            data.push(arr);
            i = i + 1;
        }
        let ghost gkeys = keys@;
        let ghost gdata = data@;
        let r = HyperSurface { keys, data, meta };
        proof {
            assert(r.keys@ == gkeys && r.data@ == gdata && r.meta == meta);
            assert(r.meta.wf());
            assert(r.keys@.len() == r.data@.len());
            assert(forall|i2: int|
                0 <= i2 < r.keys@.len() ==> r.meta.plane_wf((#[trigger] r.keys@[i2])@));
            assert(forall|i1: int, i2: int|
                0 <= i1 < i2 < r.keys@.len() ==> r.keys@[i1]@ != r.keys@[i2]@);
            assert forall|p: Seq<Extent>| #[trigger] r.meta.plane_wf(p) implies exists|i2: int|
                0 <= i2 < r.keys@.len() && (#[trigger] r.keys@[i2])@ == p by {
                assert(meta.plane_wf(p));
                let w = choose|w: int| 0 <= w < gkeys.len() && (#[trigger] gkeys[w])@ == p;
                assert(r.keys@[w]@ == p);
            }
            assert(forall|i2: int|
                0 <= i2 < r.data@.len() ==> (#[trigger] r.data@[i2])@.len() == pow(
                    r.meta.inner_size as int,
                    count_inbound(r.keys@[i2]@),
                ));
        }
        r
    }

    /// The metadata this storage was built from.
    pub fn meta(&self) -> (r: HyperSurfaceMeta)
        ensures
            r == self.spec_meta(),
    {
        self.meta
    }

    /// Finds the table position of the face with the given canonical
    /// pattern.
    fn find_plane(&self, key: &HyperCoord) -> (pi: usize)
        requires
            self.wf(),
            exists|i: int| 0 <= i < self.keys@.len() && (#[trigger] self.keys@[i])@ == key@,
        ensures
            pi < self.keys@.len(),
            self.keys@[pi as int]@ == key@,
            pi == self.plane_slot(key@),
    {
        let mut i: usize = 0;
        while i < self.keys.len()
            invariant
                self.wf(),
                i <= self.keys@.len(),
                exists|j: int| 0 <= j < self.keys@.len() && (#[trigger] self.keys@[j])@ == key@,
                forall|j: int| 0 <= j < i ==> (#[trigger] self.keys@[j])@ != key@,
            decreases self.keys@.len() - i,
        {
            if coords_equal(&self.keys[i], key) {
                proof {
                    let ci = self.plane_slot(key@);
                    assert(0 <= ci < self.keys@.len() && self.keys@[ci]@ == key@);
                    if ci != i {
                        assert(self.keys@[ci]@ != self.keys@[i as int]@);
                    }
                }
                return i;
            }
            i = i + 1;
        }
        proof {
            let j = choose|j: int| 0 <= j < self.keys@.len() && (#[trigger] self.keys@[j])@ == key@;
            assert(self.keys@[j]@ != key@);
            assert(false);
        }
        0
    }

    /// Reads the value stored at `c`.
    pub fn get(&self, c: &HyperCoord) -> (r: &T)
        requires
            self.wf(),
            self.spec_meta().coord_valid(c@),
        ensures
            *r == self.spec_at(c@),
    {
        let key = set_hypercoord_inbound_vals(c, 0);
        proof {
            assert(key@ =~= plane_of(c@));
            lemma_plane_of_wf(self.meta, c@);
        }
        let pi = self.find_plane(&key);
        let di_opt = self.meta.index_dense(c);
        let di = di_opt.unwrap();
        proof {
            lemma_dense_index_bound(c@, self.meta.inner_size);
            lemma_count_inbound_map_canon(c@, 0);
            assert(count_inbound(self.keys@[pi as int]@) == count_inbound(c@));
        }
        &self.data[pi][di]
    }

    /// Writes `value` at `c`; every other coordinate keeps its value.
    pub fn set(&mut self, c: &HyperCoord, value: T)
        requires
            old(self).wf(),
            old(self).spec_meta().coord_valid(c@),
        ensures
            final(self).wf(),
            final(self).spec_meta() == old(self).spec_meta(),
            final(self).spec_at(c@) == value,
            forall|c2: Seq<Extent>|
                old(self).spec_meta().coord_valid(c2) && c2 != c@ ==> final(self).spec_at(c2)
                    == old(self).spec_at(c2),
    {
        let ghost s = self.meta.inner_size;
        let key = set_hypercoord_inbound_vals(c, 0);
        proof {
            assert(key@ =~= plane_of(c@));
            lemma_plane_of_wf(self.meta, c@);
        }
        let pi = self.find_plane(&key);
        let di_opt = self.meta.index_dense(c);
        let di = di_opt.unwrap();
        proof {
            lemma_dense_index_bound(c@, s);
            lemma_count_inbound_map_canon(c@, 0);
            assert(count_inbound(self.keys@[pi as int]@) == count_inbound(c@));
        }
        let ghost old_data = self.data@;
        self.data[pi][di] = value;
        proof {
            let row = old_data[pi as int];
            assert(self.data@ =~= old_data.update(pi as int, self.data@[pi as int]));
            assert(self.data@[pi as int]@ =~= row@.update(di as int, value));
            assert forall|c2: Seq<Extent>|
                old(self).spec_meta().coord_valid(c2) && c2 != c@ implies final(self).spec_at(c2)
                    == old(self).spec_at(c2) by {
                lemma_plane_of_wf(self.meta, c2);
                let p2 = plane_of(c2);
                let slot2 = self.plane_slot(p2);
                assert(0 <= slot2 < self.keys@.len() && self.keys@[slot2]@ == p2) by {
                    let w = choose|i: int|
                        0 <= i < self.keys@.len() && (#[trigger] self.keys@[i])@ == p2;
                    assert(self.keys@[w]@ == p2);
                }
                let d2 = HyperSurfaceMeta::dense_index_of(c2, s);
                lemma_dense_index_bound(c2, s);
                lemma_count_inbound_map_canon(c2, 0);
                if slot2 == pi {
                    assert(p2 == plane_of(c@));
                    if d2 == di {
                        lemma_dense_index_injective(c2, c@, s);
                        assert(false);
                    }
                    assert(self.data@[slot2]@[d2] == row@[d2]);
                } else {
                    assert(self.data@[slot2] == old_data[slot2]);
                }
            }
        }
    }
}

} // verus!
