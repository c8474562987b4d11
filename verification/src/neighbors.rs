//! Neighbor generation: for each axis, in axis order, step one unit
//! down then up, keeping only steps that stay on the skeleton.

use vstd::prelude::*;
use crate::extent::{
    Extent, HyperCoord, copy_coord, count_inbound, count_var_dims, extent_neighbor, extent_valid,
    lemma_extent_neighbor_symmetric, spec_extent_neighbor,
};
use crate::meta::HyperSurfaceMeta;

verus! {

/// One step of the coordinate along `axis`: `sign` true steps toward
/// the upper boundary, false toward the lower.
pub open spec fn step_coord(c: Seq<Extent>, axis: int, sign: bool, s: usize) -> Option<
    Seq<Extent>,
> {
    match spec_extent_neighbor(c[axis], sign, s) {
        Option::Some(e) => Option::Some(c.update(axis, e)),
        Option::None => Option::None,
    }
}

/// The candidate neighbor at cursor position `p`: axis `p / 2`,
/// stepping down for even `p` and up for odd `p`.
pub open spec fn candidate_at(m: HyperSurfaceMeta, c: Seq<Extent>, p: int) -> Option<Seq<Extent>> {
    step_coord(c, p / 2, p % 2 == 1, m.inner_size)
}

/// The candidate at position `p` exists and respects the
/// dimensionality cap.
pub open spec fn candidate_ok(m: HyperSurfaceMeta, c: Seq<Extent>, p: int) -> bool {
    candidate_at(m, c, p) matches Option::Some(nc) && count_inbound(nc) <= m.max_dim
}

/// The neighbors still to come from cursor position `p` on.
pub open spec fn emitted_from(m: HyperSurfaceMeta, c: Seq<Extent>, p: int) -> Seq<Seq<Extent>>
    decreases 2 * c.len() - p,
{
    if p >= 2 * c.len() {
        Seq::empty()
    } else if candidate_ok(m, c, p) {
        seq![candidate_at(m, c, p)->0] + emitted_from(m, c, p + 1)
    } else {
        emitted_from(m, c, p + 1)
    }
}

/// The full neighbor sequence of a coordinate, in cursor order.
pub open spec fn neighbor_list(m: HyperSurfaceMeta, c: Seq<Extent>) -> Seq<Seq<Extent>> {
    emitted_from(m, c, 0)
}

/// Restartable cursor over the neighbors of one coordinate: an axis
/// index and a direction flag, nothing else.
pub struct Neighbors {
    pub meta: HyperSurfaceMeta,
    pub coord: HyperCoord,
    pub idx: usize,
    pub sign: bool,
}

impl Neighbors {
    /// The cursor position: two candidates per axis, down then up.
    pub open spec fn pos(self) -> int {
        2 * self.idx + if self.sign {
            1int
        } else {
            0int
        }
    }

    pub open spec fn wf(self) -> bool {
        &&& self.meta.wf()
        &&& self.meta.coord_wf(self.coord@)
        &&& self.pos() <= 2 * self.coord@.len()
    }

    /// The neighbors this cursor will still produce.
    pub open spec fn remaining(self) -> Seq<Seq<Extent>> {
        emitted_from(self.meta, self.coord@, self.pos())
    }

    /// Starts a neighbor cursor for `coord` at the first axis.
    pub fn new(meta: HyperSurfaceMeta, coord: HyperCoord) -> (r: Neighbors)
        requires
            meta.wf(),
            meta.coord_wf(coord@),
        ensures
            r.meta == meta,
            r.coord@ == coord@,
            r.wf(),
            r.remaining() == neighbor_list(meta, coord@),
    {
        Neighbors { meta, coord, idx: 0, sign: false }
    }

    /// Moves the cursor to the next candidate position.
    fn advance(&mut self)
        requires
            old(self).idx < old(self).coord@.len(),
            old(self).coord@.len() <= usize::MAX,
        ensures
            final(self).meta == old(self).meta,
            final(self).coord == old(self).coord,
            final(self).pos() == old(self).pos() + 1,
            final(self).idx <= final(self).coord@.len(),
    {
        if self.sign {
            self.idx = self.idx + 1;
        }
        self.sign = !self.sign;
    }

    /// Produces the next neighbor, or `None` when the axes are
    /// exhausted: for each axis in order, the step down and then the
    /// step up, skipping steps that leave the skeleton or exceed the
    /// dimensionality cap.
    pub fn next(&mut self) -> (r: Option<HyperCoord>)
        requires
            old(self).wf(),
        ensures
            final(self).wf(),
            final(self).meta == old(self).meta,
            final(self).coord == old(self).coord,
            r matches Some(nc) ==> old(self).remaining() == seq![nc@] + final(self).remaining(),
            r matches Some(nc) ==> old(self).meta.coord_valid(nc@),
            r is None ==> old(self).remaining().len() == 0 && final(self).remaining().len() == 0,
    {
        let ghost m = self.meta;
        let ghost c = self.coord@;
        while self.idx < self.coord.len()
            invariant
                self.meta == old(self).meta,
                self.coord == old(self).coord,
                m == self.meta,
                c == self.coord@,
                self.wf(),
                self.pos() <= 2 * self.coord@.len(),
                old(self).remaining() == self.remaining(),
            decreases 2 * self.coord@.len() - self.pos(),
        {
            let ghost p = self.pos();
            match extent_neighbor(self.coord[self.idx], self.sign, self.meta.inner_size) {
                Some(neigh) => {
                    let mut output = copy_coord(&self.coord);
                    output[self.idx] = neigh;
                    proof {
                        assert(output@ =~= c.update(self.idx as int, neigh));
                        assert(p / 2 == self.idx && (p % 2 == 1) == self.sign);
                        assert(candidate_at(m, c, p) == Option::Some(output@));
                    }
                    self.advance();
                    if count_var_dims(&output) > self.meta.max_dim {
                        proof {
                            assert(!candidate_ok(m, c, p));
                            assert(emitted_from(m, c, p) == emitted_from(m, c, p + 1));
                        }
                        continue ;
                    }
                    proof {
                        assert(candidate_ok(m, c, p));
                        assert(emitted_from(m, c, p) == seq![output@] + emitted_from(m, c, p + 1));
                        assert(extent_valid(c[p / 2], m.inner_size));
                        lemma_extent_neighbor_symmetric(c[p / 2], p % 2 == 1, m.inner_size);
                        assert forall|j: int| 0 <= j < output@.len() implies extent_valid(
                            #[trigger] output@[j],
                            m.inner_size,
                        ) by {
                            if j != p / 2 {
                                assert(output@[j] == c[j]);
                            }
                        }
                        assert(m.coord_valid(output@));
                    }
                    return Some(output);
                },
                None => {
                    proof {
                        assert(candidate_at(m, c, p) is None);
                        assert(!candidate_ok(m, c, p));
                        assert(emitted_from(m, c, p) == emitted_from(m, c, p + 1));
                    }
                    self.advance();
                },
            }
        }
        proof {
            assert(self.pos() >= 2 * c.len());
            assert(self.remaining().len() == 0);
        }
        None
    }
}

impl HyperSurfaceMeta {
    /// The lazy neighbor sequence of `coord`: at most two per axis,
    /// restartable, derived from the metadata and the coordinate
    /// alone.
    pub fn neighbors(self, coord: HyperCoord) -> (r: Neighbors)
        requires
            self.wf(),
            self.coord_wf(coord@),
        ensures
            r.meta == self,
            r.coord@ == coord@,
            r.wf(),
            r.remaining() == neighbor_list(self, coord@),
    {
        Neighbors::new(self, coord)
    }
}

/// Every neighbor is a coordinate of the skeleton: in range on every
/// axis and never exceeding the dimensionality cap.
pub proof fn lemma_emitted_from_valid(m: HyperSurfaceMeta, c: Seq<Extent>, p: int)
    requires
        m.coord_wf(c),
        0 <= p <= 2 * c.len(),
    ensures
        forall|t: int|
            0 <= t < emitted_from(m, c, p).len() ==> m.coord_valid(
                #[trigger] emitted_from(m, c, p)[t],
            ),
    decreases 2 * c.len() - p,
{
    if p >= 2 * c.len() {
    } else {
        lemma_emitted_from_valid(m, c, p + 1);
        let whole = emitted_from(m, c, p);
        let rest = emitted_from(m, c, p + 1);
        if candidate_ok(m, c, p) {
            let nc = candidate_at(m, c, p)->0;
            assert(whole == seq![nc] + rest);
            assert forall|t: int| 0 <= t < whole.len() implies m.coord_valid(
                #[trigger] whole[t],
            ) by {
                if t == 0 {
                    assert(whole[0] == nc);
                    let axis = p / 2;
                    assert(0 <= axis < c.len());
                    assert(extent_valid(c[axis], m.inner_size));
                    lemma_extent_neighbor_symmetric(c[axis], p % 2 == 1, m.inner_size);
                    assert forall|j: int| 0 <= j < nc.len() implies extent_valid(
                        #[trigger] nc[j],
                        m.inner_size,
                    ) by {
                        if j != axis {
                            assert(nc[j] == c[j]);
                        }
                    }
                } else {
                    assert(whole[t] == rest[t - 1]);
                    assert(m.coord_valid(rest[t - 1]));
                }
            }
        } else {
            assert(whole == rest);
            assert forall|t: int| 0 <= t < whole.len() implies m.coord_valid(
                #[trigger] whole[t],
            ) by {
                assert(whole[t] == rest[t]);
                assert(m.coord_valid(rest[t]));
            }
        }
    }
}

/// The dimensionality cap holds of every produced neighbor.
pub proof fn lemma_neighbors_capped(m: HyperSurfaceMeta, c: Seq<Extent>)
    requires
        m.coord_wf(c),
    ensures
        forall|t: int|
            0 <= t < neighbor_list(m, c).len() ==> m.coord_valid(#[trigger] neighbor_list(m, c)[t]),
{
    lemma_emitted_from_valid(m, c, 0);
}

/// Every member of the neighbor sequence is some accepted candidate.
proof fn lemma_emitted_member_candidate(m: HyperSurfaceMeta, c: Seq<Extent>, p: int, t: int)
    requires
        0 <= p <= 2 * c.len(),
        0 <= t < emitted_from(m, c, p).len(),
    ensures
        exists|q: int|
            p <= q < 2 * c.len() && #[trigger] candidate_ok(m, c, q) && candidate_at(m, c, q)->0
                == emitted_from(m, c, p)[t],
    decreases 2 * c.len() - p,
{
    let whole = emitted_from(m, c, p);
    let rest = emitted_from(m, c, p + 1);
    if candidate_ok(m, c, p) {
        if t == 0 {
            assert(candidate_ok(m, c, p) && candidate_at(m, c, p)->0 == whole[0]);
        } else {
            lemma_emitted_member_candidate(m, c, p + 1, t - 1);
            assert(whole[t] == rest[t - 1]);
        }
    } else {
        lemma_emitted_member_candidate(m, c, p + 1, t);
        assert(whole[t] == rest[t]);
    }
}

/// Every accepted candidate is a member of the neighbor sequence.
proof fn lemma_candidate_in_emitted(m: HyperSurfaceMeta, c: Seq<Extent>, p0: int, q: int)
    requires
        0 <= p0 <= q < 2 * c.len(),
        candidate_ok(m, c, q),
    ensures
        emitted_from(m, c, p0).contains(candidate_at(m, c, q)->0),
    decreases q - p0,
{
    let whole = emitted_from(m, c, p0);
    let rest = emitted_from(m, c, p0 + 1);
    if p0 == q {
        assert(whole[0] == candidate_at(m, c, q)->0);
    } else {
        lemma_candidate_in_emitted(m, c, p0 + 1, q);
        let nc = candidate_at(m, c, q)->0;
        let t = choose|t: int| 0 <= t < rest.len() && rest[t] == nc;
        if candidate_ok(m, c, p0) {
            assert(whole[t + 1] == nc);
        } else {
            assert(whole[t] == nc);
        }
    }
}

/// Adjacency is locally consistent: stepping back along the same axis
/// in the opposite direction returns to the starting coordinate, so a
/// coordinate appears among the neighbors of each of its neighbors.
pub proof fn lemma_neighbors_symmetric(m: HyperSurfaceMeta, c: Seq<Extent>)
    requires
        m.coord_valid(c),
    ensures
        forall|t: int|
            0 <= t < neighbor_list(m, c).len() ==> #[trigger] neighbor_list(
                m,
                neighbor_list(m, c)[t],
            ).contains(c),
{
    assert forall|t: int| 0 <= t < neighbor_list(m, c).len() implies #[trigger] neighbor_list(
        m,
        neighbor_list(m, c)[t],
    ).contains(c) by {
        let nc = neighbor_list(m, c)[t];
        lemma_emitted_member_candidate(m, c, 0, t);
        let q = choose|q: int|
            0 <= q < 2 * c.len() && #[trigger] candidate_ok(m, c, q) && candidate_at(m, c, q)->0
                == nc;
        let axis = q / 2;
        let sign = q % 2 == 1;
        let e = spec_extent_neighbor(c[axis], sign, m.inner_size)->0;
        assert(nc == c.update(axis, e));
        assert(0 <= axis < c.len());
        assert(extent_valid(c[axis], m.inner_size));
        lemma_extent_neighbor_symmetric(c[axis], sign, m.inner_size);
        assert(spec_extent_neighbor(e, !sign, m.inner_size) == Some(c[axis]));
        let qb = 2 * axis + if !sign {
            1int
        } else {
            0int
        };
        assert(qb / 2 == axis && (qb % 2 == 1) == !sign);
        assert(nc[axis] == e);
        assert(nc.update(axis, c[axis]) =~= c);
        assert(candidate_at(m, nc, qb) == Option::Some(c));
        assert(candidate_ok(m, nc, qb));
        assert(nc.len() == c.len());
        lemma_candidate_in_emitted(m, nc, 0, qb);
    }
}

} // verus!
