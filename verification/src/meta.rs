//! Skeleton metadata: face enumeration, dense indexing within a face,
//! the Euclidean embedding, and neighbor generation.

use vstd::prelude::*;
use vstd::arithmetic::power::{pow, lemma_pow_increases, lemma_pow_positive};
use vstd::arithmetic::div_mod::{lemma_basic_div, lemma_div_denominator};
use crate::extent::{
    Extent, HyperCoord, canon_extent, coord_extents_valid, count_inbound, count_var_dims,
    extent_valid, lemma_count_inbound_le_len, lemma_count_inbound_take_le,
};
use crate::combinatorics::{
    binom, choose_seq, lemma_choose_properties, lemma_choose_seq_complete, n_choose_m, subset_ok,
    subset_views,
};
use crate::expand::{
    coord_matches, expand_coords, expand_from, lemma_expand_complete, lemma_expand_props,
};
use crate::extent::{copy_coord, lemma_count_inbound_map_canon, lemma_count_inbound_pointwise,
    plane_of};

verus! {

/// Immutable description of a skeleton: per-axis interior width
/// (`inner_size`), the dimensionality cap (`max_dim`), and the number
/// of axes (`n_axes`).  Cheap to copy, never mutated.
#[derive(Copy, Clone, Debug, PartialEq, Eq, Structural)]
pub struct HyperSurfaceMeta {
    pub n_axes: usize,
    pub inner_size: usize,
    pub max_dim: usize,
}

impl HyperSurfaceMeta {
    /// Machine-limit bounds under which every operation is free of
    /// overflow: the cap fits the axis count, one face's storage
    /// length fits a `usize`, and so does the sign-pattern count.
    pub open spec fn wf(self) -> bool {
        &&& 1 <= self.n_axes < 64
        &&& self.max_dim <= self.n_axes
        &&& self.inner_size < usize::MAX
        &&& pow(2, self.n_axes as nat) <= usize::MAX
        &&& pow(self.inner_size as int, self.max_dim as nat) <= usize::MAX
    }

    /// The coordinate has one entry per axis, each in range.
    pub open spec fn coord_wf(self, c: Seq<Extent>) -> bool {
        &&& c.len() == self.n_axes
        &&& coord_extents_valid(c, self.inner_size)
    }

    /// A coordinate of the skeleton: in range per axis, and with at
    /// most `max_dim` free axes.
    pub open spec fn coord_valid(self, c: Seq<Extent>) -> bool {
        &&& self.coord_wf(c)
        &&& count_inbound(c) <= self.max_dim
    }

    /// A face pattern: one entry per axis, free axes canonicalized to
    /// the sentinel `InBound(0)`, at most `max_dim` of them.
    pub open spec fn plane_wf(self, p: Seq<Extent>) -> bool {
        &&& p.len() == self.n_axes
        &&& forall|i: int| 0 <= i < p.len() ==> (#[trigger] p[i]) is InBound ==> p[i]
            == Extent::InBound(0usize)
        &&& count_inbound(p) <= self.max_dim
    }

    /// Builds the metadata for `n_axes` axes of interior width
    /// `inner_size`, capped at `max_dim` simultaneous free axes.
    pub fn new(n_axes: usize, inner_size: usize, max_dim: usize) -> (r: Self)
        requires
            1 <= n_axes < 64,
            max_dim <= n_axes,
            inner_size < usize::MAX,
            pow(2, n_axes as nat) <= usize::MAX,
            pow(inner_size as int, max_dim as nat) <= usize::MAX,
        ensures
            r == (HyperSurfaceMeta { n_axes, inner_size, max_dim }),
            r.wf(),
    {
        HyperSurfaceMeta { n_axes, inner_size, max_dim }
    }

    /// Mixed-radix positional index of the coordinate's interior
    /// values within its face, local to that face's storage: stride
    /// grows by `inner_size` per free axis, in axis order.
    pub open spec fn dense_index_of(c: Seq<Extent>, inner_size: usize) -> int
        decreases c.len(),
    {
        if c.len() == 0 {
            0
        } else {
            Self::dense_index_of(c.drop_last(), inner_size) + match c.last() {
                Extent::InBound(v) => pow(inner_size as int, count_inbound(c.drop_last())) * (
                v as int),
                _ => 0,
            }
        }
    }

    /// Computes the coordinate's dense index within its face, or
    /// `None` when its free-axis count exceeds the cap.
    pub fn index_dense(&self, c: &HyperCoord) -> (r: Option<usize>)
        requires
            self.wf(),
            self.coord_wf(c@),
        ensures
            r is Some <==> count_inbound(c@) <= self.max_dim,
            r matches Some(idx) ==> idx == Self::dense_index_of(c@, self.inner_size),
    {
        let count = count_var_dims(c);
        if count > self.max_dim {
            return None;
        }
        let ghost s = self.inner_size;
        let mut index: usize = 0;
        let mut stride: usize = 1;
        let mut cnt: usize = 0;
        let mut i: usize = 0;
        proof {
            assert(pow(s as int, 0) == 1) by {
                vstd::arithmetic::power::lemma_pow0(s as int);
            }
        }
        while i < c.len()
            invariant
                self.wf(),
                self.coord_wf(c@),
                s == self.inner_size,
                count == count_inbound(c@),
                count <= self.max_dim,
                i <= c@.len(),
                cnt == count_inbound(c@.take(i as int)),
                cnt <= count,
                stride == pow(s as int, cnt as nat),
                index == Self::dense_index_of(c@.take(i as int), s),
                index < stride,
            decreases c@.len() - i,
        {
            let ghost pre = c@.take(i as int);
            proof {
                assert(c@.take(i + 1).drop_last() =~= pre);
                assert(c@.take(i + 1).last() == c@[i as int]);
                lemma_count_inbound_take_le(c@, i + 1);
            }
            match c[i] {
                Extent::InBound(v) => {
                    proof {
                        assert(extent_valid(c@[i as int], s));
                        assert(pow(s as int, (cnt + 1) as nat) == (s as int) * pow(
                            s as int,
                            cnt as nat,
                        )) by {
                            reveal(pow);
                        }
                        lemma_pow_increases(s as nat, (cnt + 1) as nat, self.max_dim as nat);
                        assert(index + stride * v < pow(s as int, (cnt + 1) as nat))
                            by (nonlinear_arith)
                            requires
                                index < stride,
                                stride == pow(s as int, cnt as nat),
                                0 <= v < s,
                                pow(s as int, (cnt + 1) as nat) == (s as int) * pow(
                                    s as int,
                                    cnt as nat,
                                ),
                        ;
                    }
                    index = index + stride * v;
                    stride = stride * self.inner_size;
                    cnt = cnt + 1;
                },
                _ => {},
            }
            i = i + 1;
        }
        proof {
            assert(c@.take(c@.len() as int) =~= c@);
        }
        Some(index)
    }

    /// Euclidean embedding of a single-axis extent: width
    /// `inner_size + 2`, the two extremes reserved for the pinned
    /// boundary planes, the interior occupying `[1, inner_size]`.
    pub open spec fn euclid_extent(e: Extent, inner_size: usize) -> int {
        match e {
            Extent::Negative => 0,
            Extent::Positive => inner_size + 1,
            Extent::InBound(v) => v + 1,
        }
    }

    /// Maps a coordinate to its Euclidean lattice point, one offset in
    /// `[0, inner_size + 1]` per axis.
    pub fn coord_euclid(&self, coord: &HyperCoord) -> (r: Vec<usize>)
        requires
            self.wf(),
            self.coord_wf(coord@),
        ensures
            r@.len() == coord@.len(),
            forall|i: int|
                0 <= i < coord@.len() ==> r@[i] == Self::euclid_extent(
                    #[trigger] coord@[i],
                    self.inner_size,
                ),
    {
        let mut r: Vec<usize> = Vec::new();
        let mut i: usize = 0;
        while i < coord.len()
            invariant
                self.wf(),
                self.coord_wf(coord@),
                i <= coord@.len(),
                r@.len() == i,
                forall|j: int|
                    0 <= j < i ==> r@[j] == Self::euclid_extent(
                        #[trigger] coord@[j],
                        self.inner_size,
                    ),
            decreases coord@.len() - i,
        {
            let x = match coord[i] {
                Extent::Negative => 0,
                Extent::Positive => self.inner_size + 1,
                Extent::InBound(v) => v + 1,
            };
            r.push(x);
            i = i + 1;
        }
        r
    }
}

/// The dense index of an in-range coordinate is below the face's
/// storage length `inner_size ^ count_inbound`.
pub proof fn lemma_dense_index_bound(c: Seq<Extent>, s: usize)
    requires
        coord_extents_valid(c, s),
    ensures
        0 <= HyperSurfaceMeta::dense_index_of(c, s),
        HyperSurfaceMeta::dense_index_of(c, s) < pow(s as int, count_inbound(c)),
    decreases c.len(),
{
    if c.len() == 0 {
        assert(pow(s as int, 0) == 1) by {
            vstd::arithmetic::power::lemma_pow0(s as int);
        }
    } else {
        let but = c.drop_last();
        assert(coord_extents_valid(but, s)) by {
            assert(forall|i: int| 0 <= i < but.len() ==> but[i] == c[i]);
        }
        lemma_dense_index_bound(but, s);
        let k = count_inbound(but);
        match c.last() {
            Extent::InBound(v) => {
                assert(v < s);
                assert(pow(s as int, (k + 1) as nat) == (s as int) * pow(s as int, k)) by {
                    reveal(pow);
                }
                lemma_pow_positive(s as int, k);
                assert(HyperSurfaceMeta::dense_index_of(but, s) + pow(s as int, k) * (v as int)
                    < pow(s as int, (k + 1) as nat)) by (nonlinear_arith)
                    requires
                        HyperSurfaceMeta::dense_index_of(but, s) < pow(s as int, k),
                        0 <= HyperSurfaceMeta::dense_index_of(but, s),
                        0 <= v < s,
                        pow(s as int, (k + 1) as nat) == (s as int) * pow(s as int, k),
                        pow(s as int, k) > 0,
                ;
                assert(count_inbound(c) == k + 1);
            },
            _ => {
                assert(count_inbound(c) == k);
            },
        }
    }
}

/// The free-axis positions of a pattern, in increasing order.
pub open spec fn inbound_positions(p: Seq<Extent>) -> Seq<usize>
    decreases p.len(),
{
    if p.len() == 0 {
        Seq::empty()
    } else if p.last() is InBound {
        inbound_positions(p.drop_last()).push((p.len() - 1) as usize)
    } else {
        inbound_positions(p.drop_last())
    }
}

/// The sign bits of a pattern's pinned axes read as an integer: the
/// j-th pinned axis (in axis order) contributes 2^j when `Positive`.
pub open spec fn sign_value(p: Seq<Extent>) -> int
    decreases p.len(),
{
    if p.len() == 0 {
        0
    } else {
        sign_value(p.drop_last()) + if p.last() is Positive {
            pow(2, (p.len() - 1 - count_inbound(p.drop_last())) as nat)
        } else {
            0
        }
    }
}

pub proof fn lemma_inbound_positions_props(p: Seq<Extent>)
    requires
        p.len() <= usize::MAX,
    ensures
        inbound_positions(p).len() == count_inbound(p),
        forall|j: int|
            0 <= j < inbound_positions(p).len() ==> (#[trigger] inbound_positions(p)[j]) < p.len(),
        forall|j1: int, j2: int|
            0 <= j1 < j2 < inbound_positions(p).len() ==> inbound_positions(p)[j1]
                < inbound_positions(p)[j2],
        forall|j: int|
            0 <= j < inbound_positions(p).len() ==> (#[trigger] p[inbound_positions(p)[j] as int])
                is InBound,
    decreases p.len(),
{
    if p.len() > 0 {
        let but = p.drop_last();
        lemma_inbound_positions_props(but);
        assert(forall|i: int| 0 <= i < but.len() ==> but[i] == p[i]);
        let rb = inbound_positions(but);
        let r = inbound_positions(p);
        if p.last() is InBound {
            assert(r == rb.push((p.len() - 1) as usize));
            assert(forall|j: int| 0 <= j < rb.len() ==> r[j] == #[trigger] rb[j]);
            assert(r[r.len() - 1] == (p.len() - 1) as usize);
            assert forall|j: int| 0 <= j < r.len() implies (#[trigger] p[r[j] as int])
                is InBound by {
                if j < rb.len() {
                    assert(but[rb[j] as int] is InBound);
                } else {
                    assert(p[p.len() - 1] is InBound);
                }
            }
        } else {
            assert(r == rb);
        }
    }
}

pub proof fn lemma_sign_value_bound(p: Seq<Extent>)
    ensures
        0 <= sign_value(p),
        sign_value(p) < pow(2, (p.len() - count_inbound(p)) as nat),
    decreases p.len(),
{
    lemma_count_inbound_le_len(p);
    if p.len() == 0 {
        assert(pow(2, 0) == 1) by {
            vstd::arithmetic::power::lemma_pow0(2);
        }
    } else {
        let but = p.drop_last();
        lemma_sign_value_bound(but);
        lemma_count_inbound_le_len(but);
        let nb = (but.len() - count_inbound(but)) as nat;
        if p.last() is InBound {
            assert(count_inbound(p) == count_inbound(but) + 1);
            assert((p.len() - count_inbound(p)) as nat == nb);
        } else {
            assert(count_inbound(p) == count_inbound(but));
            assert((p.len() - count_inbound(p)) as nat == nb + 1);
            assert(pow(2, nb + 1) == 2 * pow(2, nb)) by {
                reveal(pow);
            }
        }
    }
}

/// Two canonical patterns of the same length with the same free-axis
/// positions and the same sign bits are the same pattern.
pub proof fn lemma_plane_decode_injective(p1: Seq<Extent>, p2: Seq<Extent>)
    requires
        p1.len() <= usize::MAX,
        p1.len() == p2.len(),
        forall|i: int|
            0 <= i < p1.len() ==> (#[trigger] p1[i]) is InBound ==> p1[i] == Extent::InBound(
                0usize,
            ),
        forall|i: int|
            0 <= i < p2.len() ==> (#[trigger] p2[i]) is InBound ==> p2[i] == Extent::InBound(
                0usize,
            ),
        inbound_positions(p1) == inbound_positions(p2),
        sign_value(p1) == sign_value(p2),
    ensures
        p1 == p2,
    decreases p1.len(),
{
    if p1.len() == 0 {
        assert(p1 =~= p2);
    } else {
        let len = p1.len();
        let b1 = p1.drop_last();
        let b2 = p2.drop_last();
        lemma_inbound_positions_props(b1);
        lemma_inbound_positions_props(b2);
        // The two last entries are of the same kind: a free last axis
        // shows up as the position len - 1, which no shorter prefix
        // can contribute.
        if p1.last() is InBound {
            assert(inbound_positions(p1) == inbound_positions(b1).push((len - 1) as usize));
            assert(inbound_positions(p2).last() == (len - 1) as usize);
            if !(p2.last() is InBound) {
                assert(inbound_positions(p2) == inbound_positions(b2));
                let r = inbound_positions(b2);
                assert(r[r.len() - 1] < b2.len());
                assert(false);
            }
        }
        if p2.last() is InBound {
            assert(inbound_positions(p2) == inbound_positions(b2).push((len - 1) as usize));
            assert(inbound_positions(p1).last() == (len - 1) as usize);
            if !(p1.last() is InBound) {
                let r = inbound_positions(b1);
                assert(r[r.len() - 1] < b1.len());
                assert(false);
            }
        }
        if p1.last() is InBound {
            assert(p1[len - 1] == Extent::InBound(0usize));
            assert(p2[len - 1] == Extent::InBound(0usize));
            assert(inbound_positions(b1) =~= inbound_positions(p1).drop_last());
            assert(inbound_positions(b2) =~= inbound_positions(p2).drop_last());
            assert(sign_value(p1) == sign_value(b1));
            assert(sign_value(p2) == sign_value(b2));
            assert(forall|i: int| 0 <= i < b1.len() ==> b1[i] == p1[i]);
            assert(forall|i: int| 0 <= i < b2.len() ==> b2[i] == p2[i]);
            lemma_plane_decode_injective(b1, b2);
            assert(p1 =~= p2);
        } else {
            assert(inbound_positions(p1) == inbound_positions(b1));
            assert(inbound_positions(p2) == inbound_positions(b2));
            assert(count_inbound(b1) == inbound_positions(b1).len());
            assert(count_inbound(b2) == inbound_positions(b2).len());
            let k = count_inbound(b1);
            assert(count_inbound(b2) == k);
            let nb = (len - 1 - k) as nat;
            lemma_sign_value_bound(b1);
            lemma_sign_value_bound(b2);
            let v1: int = if p1.last() is Positive {
                1
            } else {
                0
            };
            let v2: int = if p2.last() is Positive {
                1
            } else {
                0
            };
            assert(sign_value(p1) == sign_value(b1) + v1 * pow(2, nb));
            assert(sign_value(p2) == sign_value(b2) + v2 * pow(2, nb));
            assert(v1 == v2 && sign_value(b1) == sign_value(b2)) by {
                assert(0 <= sign_value(b1) < pow(2, nb));
                assert(0 <= sign_value(b2) < pow(2, nb));
            }
            assert(p1.last() == p2.last());
            assert(forall|i: int| 0 <= i < b1.len() ==> b1[i] == p1[i]);
            assert(forall|i: int| 0 <= i < b2.len() ==> b2[i] == p2[i]);
            lemma_plane_decode_injective(b1, b2);
            assert(p1 =~= p2);
        }
    }
}

/// Number of faces of fewer than `k` free axes:
/// the partial sums of C(n, j) * 2^(n-j).
pub open spec fn face_count_upto(n: nat, k: nat) -> int
    decreases k,
{
    if k == 0 {
        0
    } else {
        face_count_upto(n, (k - 1) as nat) + binom(n, (k - 1) as nat) * pow(
            2,
            (n - (k - 1)) as nat,
        )
    }
}

/// Computes base^exp.
pub fn pow_usize(base: usize, exp: usize) -> (r: usize)
    requires
        pow(base as int, exp as nat) <= usize::MAX,
    ensures
        r == pow(base as int, exp as nat),
{
    proof {
        vstd::arithmetic::power::lemma_pow0(base as int);
    }
    let mut r: usize = 1;
    let mut i: usize = 0;
    while i < exp
        invariant
            i <= exp,
            pow(base as int, exp as nat) <= usize::MAX,
            r == pow(base as int, i as nat),
        decreases exp - i,
    {
        proof {
            assert(pow(base as int, (i + 1) as nat) == (base as int) * pow(base as int, i as nat))
                by {
                reveal(pow);
            }
            if base == 0 {
                assert(pow(base as int, (i + 1) as nat) == 0) by {
                    vstd::arithmetic::power::lemma0_pow((i + 1) as nat);
                }
            } else {
                lemma_pow_increases(base as nat, (i + 1) as nat, exp as nat);
            }
        }
        r = r * base;
        i = i + 1;
    }
    r
}

/// Computes 2^e.
fn pow2_usize(e: usize) -> (r: usize)
    requires
        pow(2, e as nat) <= usize::MAX,
    ensures
        r == pow(2, e as nat),
{
    proof {
        vstd::arithmetic::power::lemma_pow0(2);
    }
    let mut r: usize = 1;
    let mut i: usize = 0;
    while i < e
        invariant
            i <= e,
            pow(2, e as nat) <= usize::MAX,
            r == pow(2, i as nat),
        decreases e - i,
    {
        proof {
            assert(pow(2, (i + 1) as nat) == 2 * pow(2, i as nat)) by {
                reveal(pow);
            }
            lemma_pow_increases(2, (i + 1) as nat, e as nat);
        }
        r = r * 2;
        i = i + 1;
    }
    r
}

impl HyperSurfaceMeta {
    /// Total number of faces of the skeleton:
    /// the sum over k of C(n_axes, k) * 2^(n_axes - k) for k up to
    /// `max_dim`.
    pub open spec fn face_count(self) -> int {
        face_count_upto(self.n_axes as nat, (self.max_dim + 1) as nat)
    }

    /// The pattern's decode triple (free-axis count, position of its
    /// free-axis set in `choose_seq`, sign bits) falls before the
    /// enumeration position `(k, si, sv)`.
    spec fn emitted_before(self, p: Seq<Extent>, k: int, si: int, sv: int) -> bool {
        &&& self.plane_wf(p)
        &&& {
            ||| count_inbound(p) < k
            ||| (count_inbound(p) == k && {
                ||| (exists|t: int|
                    0 <= t < si && #[trigger] choose_seq(self.n_axes, k as usize)[t]
                        == inbound_positions(p))
                ||| (0 <= si < choose_seq(self.n_axes, k as usize).len() && choose_seq(
                    self.n_axes,
                    k as usize,
                )[si] == inbound_positions(p) && sign_value(p) < sv)
            })
        }
    }

    /// Lays out one face pattern: the axes listed in `sub` are free
    /// (sentinel `InBound(0)`), the remaining axes are pinned
    /// `Positive` or `Negative` according to the bits of `signs`.
    fn build_plane(&self, sub: &Vec<usize>, signs: usize) -> (q: HyperCoord)
        requires
            self.wf(),
            subset_ok(sub@, self.n_axes, sub.len()),
            signs < pow(2, (self.n_axes - sub@.len()) as nat),
        ensures
            q@.len() == self.n_axes,
            forall|i: int|
                0 <= i < q@.len() ==> (#[trigger] q@[i]) is InBound ==> q@[i] == Extent::InBound(
                    0usize,
                ),
            inbound_positions(q@) == sub@,
            count_inbound(q@) == sub@.len(),
            sign_value(q@) == signs,
    {
        let n = self.n_axes;
        let mut q: Vec<Extent> = Vec::new();
        let mut sel_dim: usize = 0;
        let mut rem: usize = signs;
        let mut i: usize = 0;
        proof {
            vstd::arithmetic::power::lemma_pow0(2);
        }
        while i < n
            invariant
                self.wf(),
                n == self.n_axes,
                subset_ok(sub@, n, sub.len()),
                signs < pow(2, (n - sub@.len()) as nat),
                i <= n,
                sel_dim <= sub@.len(),
                sel_dim <= i,
                q@.len() == i,
                forall|j: int|
                    0 <= j < i ==> (#[trigger] q@[j]) is InBound ==> q@[j] == Extent::InBound(
                        0usize,
                    ),
                inbound_positions(q@) == sub@.take(sel_dim as int),
                count_inbound(q@) == sel_dim,
                forall|t: int| 0 <= t < sel_dim ==> (#[trigger] sub@[t]) < i,
                sel_dim < sub@.len() ==> sub@[sel_dim as int] >= i,
                rem == signs as int / pow(2, (i - sel_dim) as nat),
                sign_value(q@) + rem * pow(2, (i - sel_dim) as nat) == signs,
            decreases n - i,
        {
            let ghost pre = q@;
            let ghost b = (i - sel_dim) as nat;
            let is_free = sel_dim < sub.len() && sub[sel_dim] == i;
            if is_free {
                q.push(Extent::InBound(0));
                proof {
                    assert(q@.drop_last() =~= pre);
                    assert(q@.last() == Extent::InBound(0usize));
                    assert(inbound_positions(q@) == inbound_positions(pre).push(i as usize));
                    assert(sub@.take(sel_dim + 1) =~= sub@.take(sel_dim as int).push(
                        sub@[sel_dim as int],
                    ));
                    assert(sign_value(q@) == sign_value(pre));
                }
                sel_dim = sel_dim + 1;
            } else {
                let bit = rem % 2 == 1;
                let e = if bit {
                    Extent::Positive
                } else {
                    Extent::Negative
                };
                let ghost old_rem = rem as int;
                q.push(e);
                rem = rem / 2;
                proof {
                    let pb = pow(2, b);
                    lemma_pow_positive(2, b);
                    assert(q@.drop_last() =~= pre);
                    assert(q@.last() == e);
                    assert(inbound_positions(q@) == inbound_positions(pre));
                    assert(count_inbound(q@) == sel_dim);
                    let bitv: int = if bit {
                        1
                    } else {
                        0
                    };
                    assert(old_rem == 2 * (rem as int) + bitv);
                    assert(sign_value(q@) == sign_value(pre) + bitv * pb);
                    assert(pow(2, b + 1) == 2 * pb) by {
                        reveal(pow);
                    }
                    lemma_div_denominator(signs as int, pb, 2);
                    assert(rem == signs as int / pow(2, ((i + 1) - sel_dim) as nat));
                    assert(sign_value(q@) + (rem as int) * pow(2, b + 1) == signs)
                        by (nonlinear_arith)
                        requires
                            sign_value(q@) == sign_value(pre) + bitv * pb,
                            sign_value(pre) + old_rem * pb == signs,
                            old_rem == 2 * (rem as int) + bitv,
                            pow(2, b + 1) == 2 * pb,
                    ;
                    if sel_dim < sub@.len() {
                        assert(sub@[sel_dim as int] != i);
                    }
                }
            }
            i = i + 1;
        }
        proof {
            if sel_dim < sub@.len() {
                assert(sub@[sel_dim as int] < n);
                assert(false);
            }
            assert(sub@.take(sel_dim as int) =~= sub@);
            lemma_basic_div(signs as int, pow(2, (n - sub@.len()) as nat));
            assert(rem == 0);
            assert((rem as int) * pow(2, (n - sel_dim) as nat) == 0) by {
                vstd::arithmetic::mul::lemma_mul_basics(pow(2, (n - sel_dim) as nat));
            }
        }
        q
    }

    /// Enumerates every face of the skeleton, each exactly once: for
    /// each count of free axes up to `max_dim`, for each choice of
    /// that many free axes, one pattern per sign assignment of the
    /// pinned axes.
    pub fn all_planes(&self) -> (r: Vec<HyperCoord>)
        requires
            self.wf(),
        ensures
            r@.len() == self.face_count(),
            forall|i: int| 0 <= i < r@.len() ==> self.plane_wf((#[trigger] r@[i])@),
            forall|i1: int, i2: int| 0 <= i1 < i2 < r@.len() ==> r@[i1]@ != r@[i2]@,
            forall|p: Seq<Extent>|
                #[trigger] self.plane_wf(p) ==> exists|i: int|
                    0 <= i < r@.len() && (#[trigger] r@[i])@ == p,
    {
        let n = self.n_axes;
        let mut planes: Vec<HyperCoord> = Vec::new();
        let mut n_var_dims: usize = 0;
        proof {
            // Nothing decodes before position (0, 0, 0): counts and
            // sign values are nonnegative.
            assert forall|p: Seq<Extent>|
                #[trigger] self.emitted_before(p, 0, 0, 0) implies exists|i: int|
                0 <= i < planes@.len() && (#[trigger] planes@[i])@ == p by {
                lemma_sign_value_bound(p);
            }
        }
        while n_var_dims <= self.max_dim
            invariant
                self.wf(),
                n == self.n_axes,
                n_var_dims <= self.max_dim + 1,
                planes@.len() == face_count_upto(n as nat, n_var_dims as nat),
                forall|i: int|
                    0 <= i < planes@.len() ==> self.emitted_before(
                        (#[trigger] planes@[i])@,
                        n_var_dims as int,
                        0,
                        0,
                    ),
                forall|p: Seq<Extent>|
                    #[trigger] self.emitted_before(p, n_var_dims as int, 0, 0) ==> exists|i: int|
                        0 <= i < planes@.len() && (#[trigger] planes@[i])@ == p,
                forall|i1: int, i2: int|
                    0 <= i1 < i2 < planes@.len() ==> planes@[i1]@ != planes@[i2]@,
            decreases self.max_dim + 1 - n_var_dims,
        {
            let k = n_var_dims;
            let subs = n_choose_m(n, k);
            let n_stable = n - k;
            proof {
                lemma_choose_properties(n, k);
                lemma_pow_increases(2, n_stable as nat, n as nat);
                assert(forall|t: int|
                    0 <= t < subs@.len() ==> (#[trigger] subs@[t])@ == subset_views(subs@)[t]);
            }
            let n_signs = pow2_usize(n_stable);
            let mut si: usize = 0;
            while si < subs.len()
                invariant
                    self.wf(),
                    n == self.n_axes,
                    k == n_var_dims,
                    k <= self.max_dim,
                    n_stable == n - k,
                    subset_views(subs@) == choose_seq(n, k),
                    forall|t: int|
                        0 <= t < subs@.len() ==> (#[trigger] subs@[t])@ == choose_seq(n, k)[t],
                    forall|t: int|
                        0 <= t < choose_seq(n, k).len() ==> subset_ok(
                            #[trigger] choose_seq(n, k)[t],
                            n,
                            k,
                        ),
                    forall|t1: int, t2: int|
                        0 <= t1 < t2 < choose_seq(n, k).len() ==> choose_seq(n, k)[t1]
                            != choose_seq(n, k)[t2],
                    n_signs == pow(2, n_stable as nat),
                    si <= subs@.len(),
                    planes@.len() == face_count_upto(n as nat, k as nat) + si * pow(
                        2,
                        n_stable as nat,
                    ),
                    forall|i: int|
                        0 <= i < planes@.len() ==> self.emitted_before(
                            (#[trigger] planes@[i])@,
                            k as int,
                            si as int,
                            0,
                        ),
                    forall|p: Seq<Extent>|
                        #[trigger] self.emitted_before(p, k as int, si as int, 0)
                            ==> exists|i: int|
                            0 <= i < planes@.len() && (#[trigger] planes@[i])@ == p,
                    forall|i1: int, i2: int|
                        0 <= i1 < i2 < planes@.len() ==> planes@[i1]@ != planes@[i2]@,
                decreases subs@.len() - si,
            {
                let sub = &subs[si];
                proof {
                    assert(sub@ == choose_seq(n, k)[si as int]);
                    assert(subset_ok(sub@, n, k));
                }
                let mut signs: usize = 0;
                while signs < n_signs
                    invariant
                        self.wf(),
                        n == self.n_axes,
                        k <= self.max_dim,
                        n_stable == n - k,
                        sub@ == choose_seq(n, k)[si as int],
                        subset_ok(sub@, n, k),
                        si < choose_seq(n, k).len(),
                        forall|t1: int, t2: int|
                            0 <= t1 < t2 < choose_seq(n, k).len() ==> choose_seq(n, k)[t1]
                                != choose_seq(n, k)[t2],
                        n_signs == pow(2, n_stable as nat),
                        signs <= n_signs,
                        planes@.len() == face_count_upto(n as nat, k as nat) + si * pow(
                            2,
                            n_stable as nat,
                        ) + signs,
                        forall|i: int|
                            0 <= i < planes@.len() ==> self.emitted_before(
                                (#[trigger] planes@[i])@,
                                k as int,
                                si as int,
                                signs as int,
                            ),
                        forall|p: Seq<Extent>|
                            #[trigger] self.emitted_before(p, k as int, si as int, signs as int)
                                ==> exists|i: int|
                                0 <= i < planes@.len() && (#[trigger] planes@[i])@ == p,
                        forall|i1: int, i2: int|
                            0 <= i1 < i2 < planes@.len() ==> planes@[i1]@ != planes@[i2]@,
                    decreases n_signs - signs,
                {
                    let q = self.build_plane(sub, signs);
                    proof {
                        assert(self.plane_wf(q@));
                        // q is new: every pattern already present decodes
                        // strictly before (k, si, signs), and the decode is a
                        // function of the pattern.
                        assert forall|i: int| 0 <= i < planes@.len() implies (
                        #[trigger] planes@[i])@ != q@ by {
                            let pi = planes@[i]@;
                            assert(self.emitted_before(pi, k as int, si as int, signs as int));
                            if pi == q@ {
                                assert(count_inbound(pi) == k);
                                assert(inbound_positions(pi) == sub@);
                                assert(sign_value(pi) == signs);
                                if exists|t: int|
                                    0 <= t < si && #[trigger] choose_seq(n, k)[t]
                                        == inbound_positions(pi) {
                                    let t = choose|t: int|
                                        0 <= t < si && #[trigger] choose_seq(n, k)[t]
                                            == inbound_positions(pi);
                                    assert(choose_seq(n, k)[t] != choose_seq(n, k)[si as int]);
                                }
                            }
                        }
                    }
                    let ghost prev = planes@;
                    planes.push(q);
                    proof {
                        assert forall|p: Seq<Extent>|
                            #[trigger] self.emitted_before(
                                p,
                                k as int,
                                si as int,
                                signs + 1,
                            ) implies exists|i: int|
                            0 <= i < planes@.len() && (#[trigger] planes@[i])@ == p by {
                            if self.emitted_before(p, k as int, si as int, signs as int) {
                                let i = choose|i: int| 0 <= i < prev.len() && (#[trigger] prev[i])@
                                    == p;
                                assert(planes@[i]@ == p);
                            } else {
                                // p decodes exactly to (k, si, signs): it is q.
                                lemma_plane_decode_injective(p, q@);
                                assert(planes@[prev.len() as int]@ == p);
                            }
                        }
                        assert forall|i: int| 0 <= i < planes@.len() implies self.emitted_before(
                            (#[trigger] planes@[i])@,
                            k as int,
                            si as int,
                            signs + 1,
                        ) by {
                            if i < prev.len() {
                                assert(self.emitted_before(prev[i]@, k as int, si as int,
                                    signs as int));
                            } else {
                                assert(planes@[i]@ == q@);
                            }
                        }
                    }
                    signs = signs + 1;
                }
                proof {
                    // Sign patterns for this subset are exhausted: position
                    // (k, si, 2^(n-k)) is the same as (k, si + 1, 0).
                    assert forall|p: Seq<Extent>|
                        #[trigger] self.emitted_before(
                            p,
                            k as int,
                            si + 1,
                            0,
                        ) implies self.emitted_before(p, k as int, si as int, n_signs as int) by {
                        lemma_sign_value_bound(p);
                        lemma_inbound_positions_props(p);
                        if count_inbound(p) == k {
                            let t = choose|t: int|
                                0 <= t < si + 1 && #[trigger] choose_seq(n, k)[t]
                                    == inbound_positions(p);
                            assert(choose_seq(n, k)[t] == inbound_positions(p));
                        }
                    }
                    assert forall|p: Seq<Extent>|
                        #[trigger] self.emitted_before(
                            p,
                            k as int,
                            si as int,
                            n_signs as int,
                        ) implies self.emitted_before(p, k as int, si + 1, 0) by {
                        if count_inbound(p) == k {
                            if !(exists|t: int|
                                0 <= t < si && #[trigger] choose_seq(n, k)[t] == inbound_positions(
                                    p,
                                )) {
                                assert(choose_seq(n, k)[si as int] == inbound_positions(p));
                            }
                        }
                    }
                    assert((si + 1) * pow(2, n_stable as nat) == si * pow(2, n_stable as nat) + pow(
                        2,
                        n_stable as nat,
                    )) by (nonlinear_arith);
                }
                si = si + 1;
            }
            proof {
                // All subsets of size k are exhausted: position
                // (k, |choose|, 0) is the same as (k + 1, 0, 0).
                assert forall|p: Seq<Extent>|
                    #[trigger] self.emitted_before(
                        p,
                        n_var_dims + 1,
                        0,
                        0,
                    ) implies self.emitted_before(p, k as int, subs@.len() as int, 0) by {
                    lemma_sign_value_bound(p);
                    if count_inbound(p) == k {
                        lemma_inbound_positions_props(p);
                        assert(subset_ok(inbound_positions(p), n, k));
                        lemma_choose_seq_complete(n, k, inbound_positions(p));
                        let t = choose|t: int|
                            0 <= t < choose_seq(n, k).len() && choose_seq(n, k)[t]
                                == inbound_positions(p);
                        assert(choose_seq(self.n_axes, (k as int) as usize) == choose_seq(n, k));
                        assert(0 <= t < subs@.len() && choose_seq(
                            self.n_axes,
                            (k as int) as usize,
                        )[t] == inbound_positions(p));
                    }
                }
                assert forall|p: Seq<Extent>|
                    #[trigger] self.emitted_before(
                        p,
                        k as int,
                        subs@.len() as int,
                        0,
                    ) implies self.emitted_before(p, n_var_dims + 1, 0, 0) by {}
                assert(planes@.len() == face_count_upto(n as nat, (n_var_dims + 1) as nat));
            }
            n_var_dims = n_var_dims + 1;
        }
        proof {
            assert forall|p: Seq<Extent>| #[trigger] self.plane_wf(p) implies exists|i: int|
                0 <= i < planes@.len() && (#[trigger] planes@[i])@ == p by {
                assert(self.emitted_before(p, n_var_dims as int, 0, 0));
            }
        }
        planes
    }
}

/// Within a single face, the dense index separates coordinates: two
/// in-range coordinates of the same face with the same index are the
/// same coordinate.
pub proof fn lemma_dense_index_injective(c1: Seq<Extent>, c2: Seq<Extent>, s: usize)
    requires
        c1.len() == c2.len(),
        coord_extents_valid(c1, s),
        coord_extents_valid(c2, s),
        plane_of(c1) == plane_of(c2),
        HyperSurfaceMeta::dense_index_of(c1, s) == HyperSurfaceMeta::dense_index_of(c2, s),
    ensures
        c1 == c2,
    decreases c1.len(),
{
    if c1.len() == 0 {
        assert(c1 =~= c2);
    } else {
        let b1 = c1.drop_last();
        let b2 = c2.drop_last();
        assert(forall|i: int| 0 <= i < b1.len() ==> b1[i] == #[trigger] c1[i]);
        assert(forall|i: int| 0 <= i < b2.len() ==> b2[i] == #[trigger] c2[i]);
        assert(plane_of(b1) =~= plane_of(c1).drop_last());
        assert(plane_of(b2) =~= plane_of(c2).drop_last());
        assert(plane_of(c1)[c1.len() - 1] == canon_extent(c1.last(), 0));
        assert(plane_of(c2)[c2.len() - 1] == canon_extent(c2.last(), 0));
        lemma_count_inbound_map_canon(b1, 0);
        lemma_count_inbound_map_canon(b2, 0);
        let k = count_inbound(b1);
        assert(count_inbound(b2) == k);
        lemma_dense_index_bound(b1, s);
        lemma_dense_index_bound(b2, s);
        let a1 = HyperSurfaceMeta::dense_index_of(b1, s);
        let a2 = HyperSurfaceMeta::dense_index_of(b2, s);
        let q = pow(s as int, k);
        if c1.last() is InBound {
            assert(c2.last() is InBound);
            let v1 = c1.last()->InBound_0;
            let v2 = c2.last()->InBound_0;
            assert(extent_valid(c1.last(), s) && extent_valid(c2.last(), s));
            assert(a1 + q * v1 == a2 + q * v2);
            assert(v1 == v2 && a1 == a2) by (nonlinear_arith)
                requires
                    0 <= a1 < q,
                    0 <= a2 < q,
                    0 <= v1,
                    0 <= v2,
                    a1 + q * v1 == a2 + q * v2,
            ;
            lemma_dense_index_injective(b1, b2, s);
            assert(c1.last() == c2.last());
            assert(c1 =~= c2);
        } else {
            assert(!(c2.last() is InBound));
            assert(c1.last() == c2.last());
            assert(a1 == a2);
            lemma_dense_index_injective(b1, b2, s);
            assert(c1 =~= c2);
        }
    }
}

/// The in-range coordinate of a face that carries the given dense
/// index: the mixed-radix decoding of `idx` along the face's free
/// axes.
pub open spec fn coord_of_dense_index(p: Seq<Extent>, idx: int, s: usize) -> Seq<Extent>
    decreases p.len(),
{
    if p.len() == 0 {
        p
    } else {
        let but = p.drop_last();
        match p.last() {
            Extent::InBound(_) => {
                let q = pow(s as int, count_inbound(but));
                coord_of_dense_index(but, idx % q, s).push(
                    Extent::InBound((idx / q) as usize),
                )
            },
            e => coord_of_dense_index(but, idx, s).push(e),
        }
    }
}

/// Within a single face, every index in `[0, s ^ free_axes)` is
/// reached: decoding it yields an in-range coordinate of that face
/// whose dense index is the given one.
pub proof fn lemma_dense_index_surjective(p: Seq<Extent>, idx: int, s: usize)
    requires
        coord_extents_valid(p, s),
        0 <= idx < pow(s as int, count_inbound(p)),
    ensures
        coord_of_dense_index(p, idx, s).len() == p.len(),
        coord_extents_valid(coord_of_dense_index(p, idx, s), s),
        plane_of(coord_of_dense_index(p, idx, s)) == plane_of(p),
        HyperSurfaceMeta::dense_index_of(coord_of_dense_index(p, idx, s), s) == idx,
    decreases p.len(),
{
    let c = coord_of_dense_index(p, idx, s);
    if p.len() == 0 {
        assert(pow(s as int, 0) == 1) by {
            vstd::arithmetic::power::lemma_pow0(s as int);
        }
        assert(plane_of(c) =~= plane_of(p));
    } else {
        let but = p.drop_last();
        assert(forall|i: int| 0 <= i < but.len() ==> but[i] == #[trigger] p[i]);
        let k = count_inbound(but);
        let q = pow(s as int, k);
        if p.last() is InBound {
            // s > 0 here, since the last entry is in range
            assert(extent_valid(p.last(), s));
            assert(s >= 1);
            assert(q > 0) by {
                lemma_pow_positive(s as int, k);
            }
            assert(pow(s as int, (k + 1) as nat) == (s as int) * q) by {
                reveal(pow);
            }
            assert(count_inbound(p) == k + 1);
            let hi = idx / q;
            let lo = idx % q;
            vstd::arithmetic::div_mod::lemma_fundamental_div_mod(idx, q);
            assert(0 <= lo < q) by {
                vstd::arithmetic::div_mod::lemma_mod_bound(idx, q);
            }
            assert(0 <= hi < s) by (nonlinear_arith)
                requires
                    q > 0,
                    0 <= idx < (s as int) * q,
                    idx == q * (idx / q) + (idx % q),
                    0 <= idx % q < q,
                    hi == idx / q,
            ;
            let cb = coord_of_dense_index(but, lo, s);
            lemma_dense_index_surjective(but, lo, s);
            assert(c == cb.push(Extent::InBound(hi as usize)));
            assert(c.drop_last() =~= cb);
            assert(c.last() == Extent::InBound(hi as usize));
            assert forall|i: int| 0 <= i < c.len() implies extent_valid(
                #[trigger] c[i],
                s,
            ) by {
                if i < cb.len() {
                    assert(c[i] == cb[i]);
                }
            }
            assert(plane_of(c) =~= plane_of(p)) by {
                assert(forall|i: int|
                    0 <= i < cb.len() ==> plane_of(c)[i] == #[trigger] plane_of(cb)[i]);
                assert(plane_of(c)[c.len() - 1] == Extent::InBound(0usize));
                assert(plane_of(p)[p.len() - 1] == Extent::InBound(0usize));
                assert(forall|i: int|
                    0 <= i < but.len() ==> plane_of(but)[i] == #[trigger] plane_of(p)[i]);
            }
            assert(count_inbound(cb) == k) by {
                lemma_count_inbound_map_canon(cb, 0);
                lemma_count_inbound_map_canon(but, 0);
                assert(plane_of(cb) == plane_of(but));
            }
            assert(HyperSurfaceMeta::dense_index_of(c, s) == HyperSurfaceMeta::dense_index_of(
                cb,
                s,
            ) + q * hi);
            assert(lo + q * hi == idx) by {
                vstd::arithmetic::div_mod::lemma_fundamental_div_mod(idx, q);
            }
        } else {
            assert(count_inbound(p) == k);
            let cb = coord_of_dense_index(but, idx, s);
            lemma_dense_index_surjective(but, idx, s);
            assert(c == cb.push(p.last()));
            assert(c.drop_last() =~= cb);
            assert forall|i: int| 0 <= i < c.len() implies extent_valid(
                #[trigger] c[i],
                s,
            ) by {
                if i < cb.len() {
                    assert(c[i] == cb[i]);
                } else {
                    assert(c[i] == p.last());
                    assert(p[p.len() - 1] == p.last());
                }
            }
            assert(plane_of(c) =~= plane_of(p)) by {
                assert(forall|i: int|
                    0 <= i < cb.len() ==> plane_of(c)[i] == #[trigger] plane_of(cb)[i]);
                assert(forall|i: int|
                    0 <= i < but.len() ==> plane_of(but)[i] == #[trigger] plane_of(p)[i]);
                assert(plane_of(c)[c.len() - 1] == canon_extent(p.last(), 0));
                assert(plane_of(p)[p.len() - 1] == canon_extent(p.last(), 0));
            }
            assert(HyperSurfaceMeta::dense_index_of(c, s) == HyperSurfaceMeta::dense_index_of(
                cb,
                s,
            ));
        }
    }
}

/// A coordinate's face pattern is a well-formed plane of the same
/// skeleton.
pub proof fn lemma_plane_of_wf(m: HyperSurfaceMeta, c: Seq<Extent>)
    requires
        m.coord_valid(c),
    ensures
        m.plane_wf(plane_of(c)),
{
    lemma_count_inbound_map_canon(c, 0);
    assert forall|i: int|
        0 <= i < plane_of(c).len() && (#[trigger] plane_of(c)[i]) is InBound implies plane_of(
        c,
    )[i] == Extent::InBound(0usize) by {
        assert(plane_of(c)[i] == canon_extent(c[i], 0));
    }
}

/// The views of a vector of coordinates.
pub open spec fn coord_views(vs: Seq<HyperCoord>) -> Seq<Seq<Extent>> {
    vs.map_values(|v: HyperCoord| v@)
}

/// A coordinate matching a canonical pattern on every axis belongs to
/// that pattern's face, is in range per axis, and has the pattern's
/// free-axis count.
pub proof fn lemma_matches_plane(c: Seq<Extent>, p: Seq<Extent>, s: usize)
    requires
        p.len() >= 1,
        coord_matches(c, p, p.len() - 1, s),
        forall|i: int|
            0 <= i < p.len() ==> (#[trigger] p[i]) is InBound ==> p[i] == Extent::InBound(0usize),
    ensures
        plane_of(c) == p,
        coord_extents_valid(c, s),
        count_inbound(c) == count_inbound(p),
{
    assert forall|j: int| 0 <= j < c.len() implies extent_valid(#[trigger] c[j], s) by {
        if p[j] is InBound {
        } else {
            assert(c[j] == p[j]);
        }
    }
    assert forall|j: int| 0 <= j < c.len() implies plane_of(c)[j] == p[j] by {
        if p[j] is InBound {
            assert(c[j] is InBound);
        } else {
            assert(c[j] == p[j]);
        }
    }
    assert(plane_of(c) =~= p);
    assert forall|j: int| 0 <= j < c.len() implies ((#[trigger] c[j]) is InBound <==> p[j]
        is InBound) by {
        if !(p[j] is InBound) {
            assert(c[j] == p[j]);
        }
    }
    lemma_count_inbound_pointwise(c, p);
}

/// An in-range coordinate matches its own face pattern on every axis.
pub proof fn lemma_valid_matches_own_plane(c: Seq<Extent>, s: usize)
    requires
        c.len() >= 1,
        coord_extents_valid(c, s),
    ensures
        coord_matches(c, plane_of(c), c.len() - 1, s),
        plane_of(c).len() == c.len(),
        forall|i: int|
            0 <= i < c.len() ==> (#[trigger] plane_of(c)[i]) is InBound ==> plane_of(c)[i]
                == Extent::InBound(0usize),
{
    assert forall|j: int| 0 <= j < c.len() implies {
        if plane_of(c)[j] is InBound {
            (#[trigger] c[j]) is InBound && extent_valid(c[j], s)
        } else {
            c[j] == plane_of(c)[j]
        }
    } by {
        assert(plane_of(c)[j] == canon_extent(c[j], 0));
    }
}

impl HyperSurfaceMeta {
    /// The set of all coordinates of the skeleton.
    pub open spec fn valid_coord_set(self) -> Set<Seq<Extent>> {
        Set::new(|c: Seq<Extent>| self.coord_valid(c))
    }

    /// Appends to `out` every coordinate obtained from `plane` by
    /// assigning each free axis at or below `idx` a value in
    /// `[0, inner_size)`; axes above `idx` are kept as they are.
    pub fn dense_coords_rec(&self, out: &mut Vec<HyperCoord>, idx: usize, plane: HyperCoord)
        requires
            self.wf(),
            idx < plane@.len(),
        ensures
            coord_views(final(out)@) == coord_views(old(out)@) + expand_coords(
                plane@,
                idx as int,
                self.inner_size,
            ),
        decreases idx,
    {
        let ghost s = self.inner_size;
        let e = plane[idx];
        match e {
            Extent::InBound(_) => {
                let mut pos: usize = 0;
                while pos < self.inner_size
                    invariant
                        self.wf(),
                        s == self.inner_size,
                        idx < plane@.len(),
                        plane@[idx as int] is InBound,
                        pos <= s,
                        coord_views(out@) + expand_from(plane@, idx as int, pos as int, s)
                            =~~= coord_views(old(out)@) + expand_from(plane@, idx as int, 0, s),
                    decreases s - pos,
                {
                    let mut p2 = copy_coord(&plane);
                    p2[idx] = Extent::InBound(pos);
                    proof {
                        assert(p2@ =~= plane@.update(idx as int, Extent::InBound(pos)));
                    }
                    let ghost mid = out@;
                    if idx > 0 {
                        self.dense_coords_rec(out, idx - 1, p2);
                    } else {
                        out.push(p2);
                        proof {
                            assert(coord_views(out@) =~~= coord_views(mid) + seq![
                                plane@.update(idx as int, Extent::InBound(pos)),
                            ]);
                        }
                    }
                    proof {
                        let batch: Seq<Seq<Extent>> = if idx == 0 {
                            seq![plane@.update(idx as int, Extent::InBound(pos))]
                        } else {
                            expand_coords(
                                plane@.update(idx as int, Extent::InBound(pos)),
                                idx - 1,
                                s,
                            )
                        };
                        assert(coord_views(out@) =~~= coord_views(mid) + batch);
                        assert(expand_from(plane@, idx as int, pos as int, s) == batch
                            + expand_from(plane@, idx as int, pos + 1, s));
                        assert(coord_views(out@) + expand_from(plane@, idx as int, pos + 1, s)
                            =~~= (coord_views(mid) + expand_from(plane@, idx as int, pos as int, s)));
                    }
                    pos = pos + 1;
                }
                proof {
                    assert(expand_from(plane@, idx as int, s as int, s)
                        =~~= Seq::<Seq<Extent>>::empty());
                    assert(coord_views(out@) =~~= coord_views(out@) + expand_from(
                        plane@,
                        idx as int,
                        s as int,
                        s,
                    ));
                    assert(expand_coords(plane@, idx as int, s) == expand_from(
                        plane@,
                        idx as int,
                        0,
                        s,
                    ));
                }
            },
            _ => {
                if idx > 0 {
                    let ghost pv = plane@;
                    self.dense_coords_rec(out, idx - 1, plane);
                    proof {
                        assert(expand_coords(pv, idx as int, s) == expand_coords(
                            pv,
                            idx - 1,
                            s,
                        ));
                    }
                } else {
                    let ghost pv = plane@;
                    let ghost mid = out@;
                    out.push(plane);
                    proof {
                        assert(expand_coords(pv, 0, s) == seq![pv]);
                        assert(coord_views(out@) =~~= coord_views(mid) + seq![pv]);
                    }
                }
            },
        }
    }

    /// Enumerates every coordinate of the skeleton, each exactly once,
    /// grouped face by face.
    pub fn dense_coords(&self) -> (r: Vec<HyperCoord>)
        requires
            self.wf(),
        ensures
            forall|i: int| 0 <= i < r@.len() ==> self.coord_valid((#[trigger] r@[i])@),
            forall|i1: int, i2: int| 0 <= i1 < i2 < r@.len() ==> r@[i1]@ != r@[i2]@,
            forall|c: Seq<Extent>|
                #[trigger] self.coord_valid(c) ==> exists|i: int|
                    0 <= i < r@.len() && (#[trigger] r@[i])@ == c,
            r@.len() == self.valid_coord_set().len(),
            self.valid_coord_set().finite(),
    {
        let ghost s = self.inner_size;
        let n = self.n_axes;
        let planes = self.all_planes();
        let mut out: Vec<HyperCoord> = Vec::new();
        let mut pi: usize = 0;
        while pi < planes.len()
            invariant
                self.wf(),
                s == self.inner_size,
                n == self.n_axes,
                pi <= planes@.len(),
                forall|j: int| 0 <= j < planes@.len() ==> self.plane_wf((#[trigger] planes@[j])@),
                forall|j1: int, j2: int|
                    0 <= j1 < j2 < planes@.len() ==> planes@[j1]@ != planes@[j2]@,
                forall|p: Seq<Extent>|
                    #[trigger] self.plane_wf(p) ==> exists|j: int|
                        0 <= j < planes@.len() && (#[trigger] planes@[j])@ == p,
                forall|t: int| 0 <= t < out@.len() ==> self.coord_valid((#[trigger] out@[t])@),
                forall|t: int|
                    0 <= t < out@.len() ==> exists|j: int|
                        0 <= j < pi && plane_of((#[trigger] out@[t])@) == (#[trigger] planes@[j])@,
                forall|t1: int, t2: int| 0 <= t1 < t2 < out@.len() ==> out@[t1]@ != out@[t2]@,
                forall|c: Seq<Extent>, j: int|
                    #[trigger] self.coord_valid(c) && 0 <= j < pi && (#[trigger] planes@[j])@
                        == plane_of(c) ==> exists|t: int|
                        0 <= t < out@.len() && (#[trigger] out@[t])@ == c,
            decreases planes@.len() - pi,
        {
            let plane = copy_coord(&planes[pi]);
            let ghost prev = out@;
            let ghost pp = planes@[pi as int]@;
            let ghost batch = expand_coords(pp, n - 1, s);
            self.dense_coords_rec(&mut out, n - 1, plane);
            proof {
                lemma_expand_props(pp, n - 1, s);
                assert(coord_views(out@) == coord_views(prev) + batch);
                assert(coord_views(out@).len() == out@.len());
                assert(coord_views(prev).len() == prev.len());
                assert(out@.len() == prev.len() + batch.len());
                assert forall|t: int| 0 <= t < prev.len() implies (#[trigger] out@[t])@
                    == prev[t]@ by {
                    assert(coord_views(out@)[t] == coord_views(prev)[t]);
                }
                assert forall|t: int| prev.len() <= t < out@.len() implies (#[trigger] out@[t])@
                    == batch[t - prev.len()] by {
                    assert(coord_views(out@)[t] == (coord_views(prev) + batch)[t]);
                }
                // Every new entry is a coordinate of this face.
                assert forall|t: int| prev.len() <= t < out@.len() implies self.coord_valid(
                    (#[trigger] out@[t])@,
                ) && plane_of(out@[t]@) == pp by {
                    let c = out@[t]@;
                    assert(c == batch[t - prev.len()]);
                    assert(coord_matches(c, pp, n - 1, s));
                    lemma_matches_plane(c, pp, s);
                }
                assert forall|t: int| 0 <= t < out@.len() implies self.coord_valid(
                    (#[trigger] out@[t])@,
                ) by {
                    if t < prev.len() {
                        assert(out@[t]@ == prev[t]@);
                        assert(self.coord_valid(prev[t]@));
                    }
                }
                assert forall|t: int| 0 <= t < out@.len() implies exists|j: int|
                    0 <= j < pi + 1 && plane_of((#[trigger] out@[t])@) == (
                    #[trigger] planes@[j])@ by {
                    if t < prev.len() {
                        let j = choose|j: int|
                            0 <= j < pi && plane_of((prev[t])@) == (#[trigger] planes@[j])@;
                        assert(plane_of(out@[t]@) == planes@[j]@);
                    } else {
                        assert(plane_of(out@[t]@) == planes@[pi as int]@);
                    }
                }
                // Entries remain pairwise distinct: new ones differ among
                // themselves and belong to a face no earlier entry has.
                assert forall|t1: int, t2: int| 0 <= t1 < t2 < out@.len() implies out@[t1]@
                    != out@[t2]@ by {
                    if t1 < prev.len() && t2 >= prev.len() {
                        let j = choose|j: int|
                            0 <= j < pi && plane_of((prev[t1])@) == (#[trigger] planes@[j])@;
                        assert(planes@[j]@ != planes@[pi as int]@);
                        assert(plane_of(out@[t1]@) == planes@[j]@);
                        assert(plane_of(out@[t2]@) == pp);
                    } else if t1 >= prev.len() {
                        assert(out@[t1]@ == batch[t1 - prev.len()]);
                        assert(out@[t2]@ == batch[t2 - prev.len()]);
                        assert(batch[t1 - prev.len()] != batch[t2 - prev.len()]);
                    } else {
                        assert(out@[t1]@ == prev[t1]@ && out@[t2]@ == prev[t2]@);
                        assert(prev[t1]@ != prev[t2]@);
                    }
                }
                // Every coordinate of this face is now present.
                assert forall|c: Seq<Extent>, j: int|
                    #[trigger] self.coord_valid(c) && 0 <= j < pi + 1 && (#[trigger] planes@[j])@
                        == plane_of(c) implies exists|t: int|
                    0 <= t < out@.len() && (#[trigger] out@[t])@ == c by {
                    if j < pi {
                        let t = choose|t: int| 0 <= t < prev.len() && (#[trigger] prev[t])@ == c;
                        assert(out@[t]@ == c);
                    } else {
                        lemma_valid_matches_own_plane(c, s);
                        assert(coord_matches(c, pp, n - 1, s));
                        lemma_expand_complete(pp, n - 1, s, c);
                        let u = choose|u: int| 0 <= u < batch.len() && batch[u] == c;
                        assert(out@[prev.len() + u]@ == c);
                    }
                }
            }
            pi = pi + 1;
        }
        proof {
            // Completeness: a coordinate's face pattern is well formed,
            // hence enumerated, hence its coordinates were expanded.
            assert forall|c: Seq<Extent>| #[trigger] self.coord_valid(c) implies exists|i: int|
                0 <= i < out@.len() && (#[trigger] out@[i])@ == c by {
                lemma_valid_matches_own_plane(c, s);
                lemma_count_inbound_map_canon(c, 0);
                assert(self.plane_wf(plane_of(c)));
                let j = choose|j: int|
                    0 <= j < planes@.len() && (#[trigger] planes@[j])@ == plane_of(c);
                assert(self.coord_valid(c) && 0 <= j < pi && planes@[j]@ == plane_of(c));
            }
            // The enumeration is a duplicate-free listing of exactly the
            // valid coordinates, so its length is that set's size.
            let views = coord_views(out@);
            assert(views.len() == out@.len());
            assert forall|t: int| 0 <= t < views.len() implies views[t] == (#[trigger] out@[t])@
                by {}
            assert(views.no_duplicates());
            assert(views.to_set() =~= self.valid_coord_set()) by {
                assert forall|c: Seq<Extent>| #[trigger] views.to_set().contains(c) implies
                    self.valid_coord_set().contains(c) by {
                    let t = choose|t: int| 0 <= t < views.len() && views[t] == c;
                    assert(self.coord_valid(out@[t]@));
                }
                assert forall|c: Seq<Extent>| #[trigger] self.valid_coord_set().contains(
                    c,
                ) implies views.to_set().contains(c) by {
                    let i = choose|i: int| 0 <= i < out@.len() && (#[trigger] out@[i])@ == c;
                    assert(views[i] == c);
                }
            }
            views.unique_seq_to_set();
        }
        out
    }
}

} // verus!
