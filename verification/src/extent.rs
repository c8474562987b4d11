//! Per-axis coordinate state and the single-axis stepping rule.
//!
//! A coordinate of the skeleton is a vector of `Extent` values, one per
//! axis: pinned to the lower boundary (`Negative`), pinned to the upper
//! boundary (`Positive`), or free-varying in `[0, inner_size)`
//! (`InBound`).

use vstd::prelude::*;

verus! {

/// Per-axis coordinate state: pinned to a boundary or free-varying.
#[derive(Copy, Clone, Debug, PartialEq, Eq, Hash, Structural)]
pub enum Extent {
    Positive,
    Negative,
    InBound(usize),
}

/// A coordinate: one `Extent` per axis.
pub type HyperCoord = Vec<Extent>;

/// A free-varying entry must lie strictly below the axis width.
pub open spec fn extent_valid(e: Extent, inner_size: usize) -> bool {
    e matches Extent::InBound(v) ==> v < inner_size
}

/// Every entry of the coordinate is in range for its axis.
pub open spec fn coord_extents_valid(c: Seq<Extent>, inner_size: usize) -> bool {
    forall|i: int| 0 <= i < c.len() ==> extent_valid(#[trigger] c[i], inner_size)
}

/// Number of free (`InBound`) axes of a coordinate.
pub open spec fn count_inbound(c: Seq<Extent>) -> nat
    decreases c.len(),
{
    if c.len() == 0 {
        0
    } else {
        count_inbound(c.drop_last()) + if c.last() is InBound {
            1nat
        } else {
            0nat
        }
    }
}

pub proof fn lemma_count_inbound_le_len(c: Seq<Extent>)
    ensures
        count_inbound(c) <= c.len(),
    decreases c.len(),
{
    if c.len() > 0 {
        lemma_count_inbound_le_len(c.drop_last());
    }
}

pub proof fn lemma_count_inbound_take_le(c: Seq<Extent>, i: int)
    requires
        0 <= i <= c.len(),
    ensures
        count_inbound(c.take(i)) <= count_inbound(c),
    decreases c.len() - i,
{
    if i == c.len() {
        assert(c.take(i) =~= c);
    } else {
        assert(c.take(i + 1).drop_last() =~= c.take(i));
        lemma_count_inbound_take_le(c, i + 1);
    }
}

/// Counts the coordinate's free (`InBound`) axes.
pub fn count_var_dims(c: &HyperCoord) -> (n: usize)
    ensures
        n == count_inbound(c@),
{
    let mut n: usize = 0;
    let mut i: usize = 0;
    while i < c.len()
        invariant
            i <= c@.len(),
            n == count_inbound(c@.take(i as int)),
            n <= i,
        decreases c@.len() - i,
    {
        proof {
            assert(c@.take(i + 1).drop_last() =~= c@.take(i as int));
            assert(c@.take(i + 1).last() == c@[i as int]);
        }
        match c[i] {
            Extent::InBound(_) => {
                n = n + 1;
            },
            _ => {},
        }
        i = i + 1;
    }
    proof {
        assert(c@.take(c@.len() as int) =~= c@);
    }
    n
}

/// Two coordinates whose entries are free on exactly the same axes
/// have the same free-axis count.
pub proof fn lemma_count_inbound_pointwise(c1: Seq<Extent>, c2: Seq<Extent>)
    requires
        c1.len() == c2.len(),
        forall|j: int| 0 <= j < c1.len() ==> ((#[trigger] c1[j]) is InBound <==> c2[j] is InBound),
    ensures
        count_inbound(c1) == count_inbound(c2),
    decreases c1.len(),
{
    if c1.len() > 0 {
        assert(forall|j: int| 0 <= j < c1.len() - 1 ==> c1.drop_last()[j] == #[trigger] c1[j]);
        assert(forall|j: int| 0 <= j < c2.len() - 1 ==> c2.drop_last()[j] == #[trigger] c2[j]);
        lemma_count_inbound_pointwise(c1.drop_last(), c2.drop_last());
        assert(c1.last() == c1[c1.len() - 1]);
        assert(c2.last() == c2[c2.len() - 1]);
    }
}

/// Compares two coordinates entry by entry.
pub fn coords_equal(a: &HyperCoord, b: &HyperCoord) -> (r: bool)
    ensures
        r <==> a@ == b@,
{
    if a.len() != b.len() {
        return false;
    }
    let mut i: usize = 0;
    while i < a.len()
        invariant
            a@.len() == b@.len(),
            i <= a@.len(),
            forall|j: int| 0 <= j < i ==> a@[j] == b@[j],
        decreases a@.len() - i,
    {
        if a[i] != b[i] {
            return false;
        }
        i = i + 1;
    }
    proof {
        assert(a@ =~= b@);
    }
    true
}

/// Copies a coordinate entry by entry.
pub fn copy_coord(c: &HyperCoord) -> (r: HyperCoord)
    ensures
        r@ == c@,
{
    let mut r: Vec<Extent> = Vec::new();
    let mut i: usize = 0;
    while i < c.len()
        invariant
            i <= c@.len(),
            r@ =~= c@.take(i as int),
        decreases c@.len() - i,
    {
        let e = c[i];
        r.push(e);
        i = i + 1;
    }
    proof {
        assert(c@.take(c@.len() as int) =~= c@);
    }
    r
}

/// Canonical form of an entry: free axes collapse to the sentinel
/// `InBound(0)`, pinned axes stay as they are.
pub open spec fn canon_extent(e: Extent, value: usize) -> Extent {
    if e is InBound {
        Extent::InBound(value)
    } else {
        e
    }
}

/// The face (plane) pattern a coordinate belongs to: every free axis
/// collapsed to the sentinel `InBound(0)`.
pub open spec fn plane_of(c: Seq<Extent>) -> Seq<Extent> {
    c.map_values(|e: Extent| canon_extent(e, 0))
}

pub proof fn lemma_count_inbound_map_canon(c: Seq<Extent>, value: usize)
    ensures
        count_inbound(c.map_values(|e: Extent| canon_extent(e, value))) == count_inbound(c),
    decreases c.len(),
{
    let f = |e: Extent| canon_extent(e, value);
    if c.len() > 0 {
        lemma_count_inbound_map_canon(c.drop_last(), value);
        assert(c.map_values(f).drop_last() =~= c.drop_last().map_values(f));
        assert(c.map_values(f).last() == f(c.last()));
    }
}

/// Replaces the value of every free axis, keeping pinned axes as they
/// are; with value 0 this canonicalizes a coordinate to its face
/// pattern.
pub fn set_hypercoord_inbound_vals(c: &HyperCoord, value: usize) -> (r: HyperCoord)
    ensures
        r@ == c@.map_values(|e: Extent| canon_extent(e, value)),
{
    let mut r: Vec<Extent> = Vec::new();
    let mut i: usize = 0;
    while i < c.len()
        invariant
            i <= c@.len(),
            r@.len() == i,
            forall|j: int| 0 <= j < i ==> r@[j] == canon_extent(#[trigger] c@[j], value),
        decreases c@.len() - i,
    {
        let e = match c[i] {
            Extent::InBound(_) => Extent::InBound(value),
            other => other,
        };
        r.push(e);
        i = i + 1;
    }
    proof {
        assert(r@ =~= c@.map_values(|e: Extent| canon_extent(e, value)));
    }
    r
}

/// One step along a single axis, as a total mathematical function.
///
/// `sign` true steps toward the upper boundary, false toward the lower.
/// `None` means the skeleton has no entry past that boundary.
pub open spec fn spec_extent_neighbor(e: Extent, sign: bool, inner_size: usize) -> Option<Extent> {
    match e {
        Extent::Positive => if sign {
            None
        } else {
            if inner_size > 0 {
                Some(Extent::InBound((inner_size - 1) as usize))
            } else {
                Some(Extent::Negative)
            }
        },
        Extent::Negative => if sign {
            if inner_size > 0 {
                Some(Extent::InBound(0usize))
            } else {
                Some(Extent::Positive)
            }
        } else {
            None
        },
        Extent::InBound(v) => if sign {
            if v + 1 > inner_size {
                None
            } else if v + 1 == inner_size {
                Some(Extent::Positive)
            } else {
                Some(Extent::InBound((v + 1) as usize))
            }
        } else {
            if v == 0 {
                Some(Extent::Negative)
            } else {
                Some(Extent::InBound((v - 1) as usize))
            }
        },
    }
}

/// Returns the neighbor extent of `e` in the direction of `sign` on an
/// axis of width `inner_size`, if any.  `sign` true means increase,
/// false means decrease.
pub fn extent_neighbor(e: Extent, sign: bool, inner_size: usize) -> (r: Option<Extent>)
    ensures
        r == spec_extent_neighbor(e, sign, inner_size),
{
    match e {
        Extent::Positive => match sign {
            true => None,
            false => {
                if inner_size > 0 {
                    Some(Extent::InBound(inner_size - 1))
                } else {
                    Some(Extent::Negative)
                }
            },
        },
        Extent::Negative => match sign {
            true => {
                if inner_size > 0 {
                    Some(Extent::InBound(0))
                } else {
                    Some(Extent::Positive)
                }
            },
            false => None,
        },
        Extent::InBound(v) => match sign {
            true => {
                if v >= inner_size {
                    None
                } else if v + 1 == inner_size {
                    Some(Extent::Positive)
                } else {
                    Some(Extent::InBound(v + 1))
                }
            },
            false => {
                if v == 0 {
                    Some(Extent::Negative)
                } else {
                    Some(Extent::InBound(v - 1))
                }
            },
        },
    }
}

/// A step from an in-range extent lands on an in-range extent, and
/// stepping back in the opposite direction returns to the start: the
/// boundary-transition table is symmetric.
pub proof fn lemma_extent_neighbor_symmetric(e: Extent, sign: bool, inner_size: usize)
    requires
        extent_valid(e, inner_size),
        spec_extent_neighbor(e, sign, inner_size) is Some,
    ensures
        extent_valid(spec_extent_neighbor(e, sign, inner_size)->0, inner_size),
        spec_extent_neighbor(spec_extent_neighbor(e, sign, inner_size)->0, !sign, inner_size)
            == Some(e),
{
}

} // verus!
