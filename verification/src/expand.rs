//! The mathematical expansion of a face pattern into its coordinates:
//! every assignment of `[0, inner_size)` values to the pattern's free
//! axes up to a given axis, keeping the axes above it as they are.

use vstd::prelude::*;
use crate::extent::{Extent, extent_valid};

verus! {

/// Coordinates obtained from `plane` by assigning each free axis at or
/// below `idx` a value in `[0, s)`; axis `idx` varies slowest.
pub open spec fn expand_coords(plane: Seq<Extent>, idx: int, s: usize) -> Seq<Seq<Extent>>
    decreases idx + 1, 1int, 0int,
    when 0 <= idx < plane.len()
{
    if plane[idx] is InBound {
        expand_from(plane, idx, 0, s)
    } else if idx == 0 {
        seq![plane]
    } else {
        expand_coords(plane, idx - 1, s)
    }
}

/// The tail of the expansion at axis `idx` whose value there is at
/// least `pos`.
pub open spec fn expand_from(plane: Seq<Extent>, idx: int, pos: int, s: usize) -> Seq<Seq<Extent>>
    decreases idx + 1, 0int, s - pos,
    when 0 <= idx < plane.len() && 0 <= pos
{
    if pos >= s {
        Seq::empty()
    } else {
        let p2 = plane.update(idx, Extent::InBound(pos as usize));
        (if idx == 0 {
            seq![p2]
        } else {
            expand_coords(p2, idx - 1, s)
        }) + expand_from(plane, idx, pos + 1, s)
    }
}

/// `c` agrees with `plane` above `idx` and realizes its pattern at or
/// below `idx`: free axes carry a value in `[0, s)`, pinned axes are
/// kept exactly.
pub open spec fn coord_matches(c: Seq<Extent>, plane: Seq<Extent>, idx: int, s: usize) -> bool {
    &&& c.len() == plane.len()
    &&& forall|j: int| idx < j < c.len() ==> #[trigger] c[j] == plane[j]
    &&& forall|j: int|
        0 <= j <= idx && j < c.len() ==> {
            if plane[j] is InBound {
                (#[trigger] c[j]) is InBound && extent_valid(c[j], s)
            } else {
                c[j] == plane[j]
            }
        }
}

/// Every expanded coordinate matches the pattern, carries the value
/// `pos` or more at axis `idx`, and no coordinate repeats.
pub proof fn lemma_expand_from_props(plane: Seq<Extent>, idx: int, pos: int, s: usize)
    requires
        0 <= idx < plane.len(),
        0 <= pos,
        plane[idx] is InBound,
    ensures
        forall|t: int|
            0 <= t < expand_from(plane, idx, pos, s).len() ==> coord_matches(
                #[trigger] expand_from(plane, idx, pos, s)[t],
                plane,
                idx,
                s,
            ),
        forall|t: int|
            0 <= t < expand_from(plane, idx, pos, s).len() ==> ((
            #[trigger] expand_from(plane, idx, pos, s)[t])[idx] matches Extent::InBound(v) && pos
                <= v < s),
        forall|t1: int, t2: int|
            0 <= t1 < t2 < expand_from(plane, idx, pos, s).len() ==> expand_from(
                plane,
                idx,
                pos,
                s,
            )[t1] != expand_from(plane, idx, pos, s)[t2],
    decreases idx + 1, 0int, s - pos,
{
    if pos >= s {
    } else {
        let p2 = plane.update(idx, Extent::InBound(pos as usize));
        let batch: Seq<Seq<Extent>> = if idx == 0 {
            seq![p2]
        } else {
            expand_coords(p2, idx - 1, s)
        };
        let rest = expand_from(plane, idx, pos + 1, s);
        lemma_expand_from_props(plane, idx, pos + 1, s);
        if idx > 0 {
            lemma_expand_props(p2, idx - 1, s);
        }
        let whole = expand_from(plane, idx, pos, s);
        assert(whole == batch + rest);
        assert forall|t: int| 0 <= t < whole.len() implies coord_matches(
            #[trigger] whole[t],
            plane,
            idx,
            s,
        ) && (whole[t][idx] matches Extent::InBound(v) && pos <= v < s) by {
            if t < batch.len() {
                let c = batch[t];
                if idx == 0 {
                    assert(c == p2);
                } else {
                    assert(coord_matches(c, p2, idx - 1, s));
                    assert(c[idx] == p2[idx]);
                }
                assert(c[idx] == Extent::InBound(pos as usize));
                assert(coord_matches(c, plane, idx, s));
            } else {
                assert(whole[t] == rest[t - batch.len()]);
            }
        }
        assert forall|t1: int, t2: int| 0 <= t1 < t2 < whole.len() implies whole[t1]
            != whole[t2] by {
            if t1 < batch.len() && t2 < batch.len() {
                if idx > 0 {
                    assert(batch[t1] != batch[t2]);
                }
            } else if t1 < batch.len() && t2 >= batch.len() {
                // value at axis idx differs: pos against pos + 1 or more
                let c1 = whole[t1];
                let u = t2 - batch.len();
                assert(whole.len() == batch.len() + rest.len());
                assert(0 <= u < expand_from(plane, idx, pos + 1, s).len());
                assert(whole[t2] == expand_from(plane, idx, pos + 1, s)[u]);
                assert((expand_from(plane, idx, pos + 1, s)[u])[idx] matches Extent::InBound(v)
                    && pos + 1 <= v < s);
                assert(c1[idx] == Extent::InBound(pos as usize));
                assert(c1 != whole[t2]);
            } else {
                assert(whole[t1] == rest[t1 - batch.len()]);
                assert(whole[t2] == rest[t2 - batch.len()]);
            }
        }
    }
}

/// Every coordinate of the expansion matches the pattern, and no
/// coordinate repeats.
pub proof fn lemma_expand_props(plane: Seq<Extent>, idx: int, s: usize)
    requires
        0 <= idx < plane.len(),
    ensures
        forall|t: int|
            0 <= t < expand_coords(plane, idx, s).len() ==> coord_matches(
                #[trigger] expand_coords(plane, idx, s)[t],
                plane,
                idx,
                s,
            ),
        forall|t1: int, t2: int|
            0 <= t1 < t2 < expand_coords(plane, idx, s).len() ==> expand_coords(plane, idx, s)[t1]
                != expand_coords(plane, idx, s)[t2],
    decreases idx + 1, 1int, 0int,
{
    let whole = expand_coords(plane, idx, s);
    if plane[idx] is InBound {
        lemma_expand_from_props(plane, idx, 0, s);
        let ef = expand_from(plane, idx, 0, s);
        assert(whole == ef);
        assert forall|t: int| 0 <= t < whole.len() implies coord_matches(
            #[trigger] whole[t],
            plane,
            idx,
            s,
        ) by {
            assert(whole[t] == ef[t]);
            assert(coord_matches(ef[t], plane, idx, s));
        }
        assert forall|t1: int, t2: int| 0 <= t1 < t2 < whole.len() implies whole[t1]
            != whole[t2] by {
            assert(whole[t1] == ef[t1] && whole[t2] == ef[t2]);
            assert(ef[t1] != ef[t2]);
        }
    } else if idx == 0 {
        assert(whole == seq![plane]);
        assert(coord_matches(whole[0], plane, 0, s));
    } else {
        lemma_expand_props(plane, idx - 1, s);
        let ec = expand_coords(plane, idx - 1, s);
        assert(whole == ec);
        assert forall|t: int| 0 <= t < whole.len() implies coord_matches(
            #[trigger] whole[t],
            plane,
            idx,
            s,
        ) by {
            assert(whole[t] == ec[t]);
            assert(coord_matches(ec[t], plane, idx - 1, s));
            assert(whole[t][idx] == plane[idx]);
        }
        assert forall|t1: int, t2: int| 0 <= t1 < t2 < whole.len() implies whole[t1]
            != whole[t2] by {
            assert(whole[t1] == ec[t1] && whole[t2] == ec[t2]);
            assert(ec[t1] != ec[t2]);
        }
    }
}

/// Every coordinate matching the pattern at axis `idx` with value at
/// least `pos` there appears in the tail expansion.
pub proof fn lemma_expand_from_complete(
    plane: Seq<Extent>,
    idx: int,
    pos: int,
    s: usize,
    c: Seq<Extent>,
)
    requires
        0 <= idx < plane.len(),
        0 <= pos,
        coord_matches(c, plane, idx, s),
        plane[idx] is InBound,
        c[idx] matches Extent::InBound(v) && pos <= v < s,
    ensures
        expand_from(plane, idx, pos, s).contains(c),
    decreases idx + 1, 0int, s - pos,
{
    let p2 = plane.update(idx, Extent::InBound(pos as usize));
    let batch: Seq<Seq<Extent>> = if idx == 0 {
        seq![p2]
    } else {
        expand_coords(p2, idx - 1, s)
    };
    let rest = expand_from(plane, idx, pos + 1, s);
    let whole = expand_from(plane, idx, pos, s);
    assert(whole == batch + rest);
    let v = c[idx]->InBound_0;
    if v == pos {
        if idx == 0 {
            assert(c =~= p2);
            assert(whole[0] == c);
        } else {
            assert(coord_matches(c, p2, idx - 1, s)) by {
                assert(c[idx] == p2[idx]);
                assert(forall|j: int| idx < j < c.len() ==> #[trigger] c[j] == p2[j]);
            }
            lemma_expand_complete(p2, idx - 1, s, c);
            let t = choose|t: int| 0 <= t < batch.len() && batch[t] == c;
            assert(whole[t] == c);
        }
    } else {
        lemma_expand_from_complete(plane, idx, pos + 1, s, c);
        let t = choose|t: int| 0 <= t < rest.len() && rest[t] == c;
        assert(whole[batch.len() + t] == c);
    }
}

/// Every coordinate matching the pattern appears in the expansion.
pub proof fn lemma_expand_complete(plane: Seq<Extent>, idx: int, s: usize, c: Seq<Extent>)
    requires
        0 <= idx < plane.len(),
        coord_matches(c, plane, idx, s),
    ensures
        expand_coords(plane, idx, s).contains(c),
    decreases idx + 1, 1int, 0int,
{
    let whole = expand_coords(plane, idx, s);
    if plane[idx] is InBound {
        assert(c[idx] is InBound && extent_valid(c[idx], s));
        lemma_expand_from_complete(plane, idx, 0, s, c);
    } else if idx == 0 {
        assert(c =~= plane);
        assert(whole[0] == c);
    } else {
        assert(coord_matches(c, plane, idx - 1, s)) by {
            assert(c[idx] == plane[idx]);
        }
        lemma_expand_complete(plane, idx - 1, s, c);
    }
}

} // verus!
