//! Enumeration of the size-m increasing subsets of `{0, ..., n-1}`,
//! used to pick which axes of a face are free.

use vstd::prelude::*;

verus! {

/// The binomial coefficient C(n, m), by Pascal's rule.
pub open spec fn binom(n: nat, m: nat) -> nat
    decreases n,
{
    if m == 0 {
        1
    } else if n == 0 {
        0
    } else {
        binom((n - 1) as nat, m) + binom((n - 1) as nat, (m - 1) as nat)
    }
}

/// A strictly increasing sequence of m axis indices below n.
pub open spec fn subset_ok(s: Seq<usize>, n: usize, m: usize) -> bool {
    &&& s.len() == m
    &&& forall|j: int| 0 <= j < s.len() ==> s[j] < n
    &&& forall|j1: int, j2: int| 0 <= j1 < j2 < s.len() ==> s[j1] < s[j2]
}

/// The sequence of all size-m increasing subsets of `{0, ..., n-1}`,
/// in the order `n_choose_m` produces them: subsets not containing
/// n-1 first, then those ending in n-1.
pub open spec fn choose_seq(n: usize, m: usize) -> Seq<Seq<usize>>
    decreases n,
{
    if m == 0 {
        seq![Seq::<usize>::empty()]
    } else if n == 0 {
        Seq::<Seq<usize>>::empty()
    } else {
        choose_seq((n - 1) as usize, m) + choose_seq((n - 1) as usize, (m - 1) as usize)
            .map_values(|s: Seq<usize>| s.push((n - 1) as usize))
    }
}

pub proof fn lemma_choose_seq_small(n: usize, m: usize)
    requires
        n < m,
    ensures
        choose_seq(n, m) == Seq::<Seq<usize>>::empty(),
        binom(n as nat, m as nat) == 0,
    decreases n,
{
    if n > 0 {
        lemma_choose_seq_small((n - 1) as usize, m);
        lemma_choose_seq_small((n - 1) as usize, (m - 1) as usize);
        assert(choose_seq((n - 1) as usize, (m - 1) as usize).map_values(
            |s: Seq<usize>| s.push((n - 1) as usize),
        ) =~= Seq::<Seq<usize>>::empty());
        assert(choose_seq(n, m) =~= Seq::<Seq<usize>>::empty());
    }
}

pub proof fn lemma_choose_seq_len(n: usize, m: usize)
    ensures
        choose_seq(n, m).len() == binom(n as nat, m as nat),
    decreases n,
{
    if m != 0 && n != 0 {
        lemma_choose_seq_len((n - 1) as usize, m);
        lemma_choose_seq_len((n - 1) as usize, (m - 1) as usize);
    }
}

pub proof fn lemma_choose_seq_elements(n: usize, m: usize)
    ensures
        forall|i: int|
            0 <= i < choose_seq(n, m).len() ==> subset_ok(#[trigger] choose_seq(n, m)[i], n, m),
    decreases n,
{
    if m == 0 {
    } else if n == 0 {
    } else {
        let n1 = (n - 1) as usize;
        let m1 = (m - 1) as usize;
        let a = choose_seq(n1, m);
        let b = choose_seq(n1, m1);
        let f = |s: Seq<usize>| s.push(n1);
        lemma_choose_seq_elements(n1, m);
        lemma_choose_seq_elements(n1, m1);
        assert forall|i: int| 0 <= i < choose_seq(n, m).len() implies subset_ok(
            #[trigger] choose_seq(n, m)[i],
            n,
            m,
        ) by {
            if i < a.len() {
                assert(choose_seq(n, m)[i] == a[i]);
                assert(subset_ok(a[i], n1, m));
            } else {
                let s = b[i - a.len()];
                assert(choose_seq(n, m)[i] == f(s));
                assert(subset_ok(s, n1, m1));
                let t = s.push(n1);
                assert(t.len() == m);
                assert(forall|j: int| 0 <= j < s.len() ==> t[j] == s[j]);
                assert(t[m - 1] == n1);
            }
        }
    }
}

pub proof fn lemma_choose_seq_distinct(n: usize, m: usize)
    ensures
        forall|i1: int, i2: int|
            0 <= i1 < i2 < choose_seq(n, m).len() ==> choose_seq(n, m)[i1] != choose_seq(n, m)[i2],
    decreases n,
{
    if m == 0 {
    } else if n == 0 {
    } else {
        let n1 = (n - 1) as usize;
        let m1 = (m - 1) as usize;
        let a = choose_seq(n1, m);
        let b = choose_seq(n1, m1);
        let f = |s: Seq<usize>| s.push(n1);
        lemma_choose_seq_distinct(n1, m);
        lemma_choose_seq_distinct(n1, m1);
        lemma_choose_seq_elements(n1, m);
        lemma_choose_seq_elements(n1, m1);
        assert forall|i1: int, i2: int|
            0 <= i1 < i2 < choose_seq(n, m).len() implies choose_seq(n, m)[i1] != choose_seq(
            n,
            m,
        )[i2] by {
            let x = choose_seq(n, m)[i1];
            let y = choose_seq(n, m)[i2];
            if i1 < a.len() && i2 < a.len() {
                assert(x == a[i1] && y == a[i2]);
            } else if i1 < a.len() && i2 >= a.len() {
                // x never contains n-1; y ends in n-1.
                assert(x == a[i1]);
                assert(subset_ok(x, n1, m));
                let s2 = b[i2 - a.len()];
                assert(y == s2.push(n1));
                assert(x.len() == m && y.len() == m);
                assert(x[m - 1] < n1);
                assert(y[m - 1] == n1);
            } else {
                let s1 = b[i1 - a.len()];
                let s2 = b[i2 - a.len()];
                assert(x == s1.push(n1) && y == s2.push(n1));
                if x == y {
                    assert(s1 =~= s2) by {
                        assert(subset_ok(s1, n1, m1));
                        assert(subset_ok(s2, n1, m1));
                        assert(forall|j: int| 0 <= j < s1.len() ==> s1[j] == x[j] && s2[j] == y[j]);
                    }
                    assert(false);
                }
            }
        }
    }
}

pub proof fn lemma_choose_seq_complete(n: usize, m: usize, s: Seq<usize>)
    requires
        subset_ok(s, n, m),
    ensures
        choose_seq(n, m).contains(s),
    decreases n,
{
    if m == 0 {
        assert(s =~= Seq::<usize>::empty());
        assert(choose_seq(n, m)[0] == s);
    } else if n == 0 {
        assert(s[0] < 0);  // impossible: requires cannot hold
    } else {
        let n1 = (n - 1) as usize;
        let m1 = (m - 1) as usize;
        let a = choose_seq(n1, m);
        let b = choose_seq(n1, m1);
        let f = |s: Seq<usize>| s.push(n1);
        if s[m - 1] == n1 {
            let s0 = s.drop_last();
            assert(subset_ok(s0, n1, m1)) by {
                assert(forall|j: int| 0 <= j < s0.len() ==> #[trigger] s0[j] == s[j]);
                assert(forall|j: int| 0 <= j < s0.len() ==> #[trigger] s[j] < s[m - 1]);
            }
            lemma_choose_seq_complete(n1, m1, s0);
            let i = choose|i: int| 0 <= i < b.len() && b[i] == s0;
            assert(b.map_values(f)[i] == s0.push(n1));
            assert(s =~= s0.push(n1));
            assert(choose_seq(n, m)[a.len() + i] == s);
        } else {
            assert(subset_ok(s, n1, m)) by {
                assert(forall|j: int| 0 <= j < m - 1 ==> #[trigger] s[j] < s[m - 1]);
                assert(s[m - 1] < n1);
            }
            lemma_choose_seq_complete(n1, m, s);
            let i = choose|i: int| 0 <= i < a.len() && a[i] == s;
            assert(choose_seq(n, m)[i] == s);
        }
    }
}

/// All the properties `choose_seq` promises at once: exactly C(n, m)
/// subsets, each strictly increasing, of size m and bounded by n, all
/// pairwise distinct; choosing zero elements yields exactly one empty
/// subset.
pub proof fn lemma_choose_properties(n: usize, m: usize)
    ensures
        choose_seq(n, m).len() == binom(n as nat, m as nat),
        forall|i: int|
            0 <= i < choose_seq(n, m).len() ==> subset_ok(#[trigger] choose_seq(n, m)[i], n, m),
        forall|i1: int, i2: int|
            0 <= i1 < i2 < choose_seq(n, m).len() ==> choose_seq(n, m)[i1] != choose_seq(n, m)[i2],
        m == 0 ==> choose_seq(n, m) == seq![Seq::<usize>::empty()],
{
    lemma_choose_seq_len(n, m);
    lemma_choose_seq_elements(n, m);
    lemma_choose_seq_distinct(n, m);
}

/// The views of a vector of subsets.
pub open spec fn subset_views(vs: Seq<Vec<usize>>) -> Seq<Seq<usize>> {
    vs.map_values(|v: Vec<usize>| v@)
}

/// Produces every increasing m-element subset of `{0, ..., n-1}`.
pub fn n_choose_m(n: usize, m: usize) -> (r: Vec<Vec<usize>>)
    ensures
        subset_views(r@) == choose_seq(n, m),
    decreases m,
{
    if m == 0 {
        let mut out: Vec<Vec<usize>> = Vec::new();
        out.push(Vec::new());
        proof {
            assert(subset_views(out@) =~~= choose_seq(n, 0));
        }
        return out;
    }
    let m_minus_one = m - 1;
    let mut out: Vec<Vec<usize>> = Vec::new();
    if n < m {
        proof {
            lemma_choose_seq_small(n, m);
            assert(subset_views(out@) =~~= choose_seq(n, m));
        }
        return out;
    }
    proof {
        lemma_choose_seq_small(m_minus_one, m);
        assert(subset_views(out@) =~~= choose_seq(m_minus_one, m));
    }
    let mut i = m_minus_one;
    while i < n
        invariant
            1 <= m <= i + 1,
            m_minus_one == m - 1,
            i <= n,
            subset_views(out@) == choose_seq(i, m),
        decreases n - i,
    {
        let subs = n_choose_m(i, m_minus_one);
        let ghost b = choose_seq(i, m_minus_one);
        let ghost a = choose_seq(i, m);
        proof {
            assert(out@.len() == a.len());
            assert forall|t: int| 0 <= t < a.len() implies #[trigger] out@[t]@ == a[t] by {
                assert(subset_views(out@)[t] == a[t]);
            }
        }
        let mut k: usize = 0;
        while k < subs.len()
            invariant
                subset_views(subs@) == b,
                a == choose_seq(i, m),
                k <= subs@.len(),
                out@.len() == a.len() + k,
                forall|t: int| 0 <= t < a.len() ==> #[trigger] out@[t]@ == a[t],
                forall|t: int| 0 <= t < k ==> #[trigger] out@[a.len() + t]@ == b[t].push(i),
            decreases subs@.len() - k,
        {
            // Copy the subset and append the new largest element i.
            let mut sub: Vec<usize> = Vec::new();
            let mut j: usize = 0;
            while j < subs[k].len()
                invariant
                    k < subs@.len(),
                    j <= subs@[k as int]@.len(),
                    sub@ =~= subs@[k as int]@.take(j as int),
                decreases subs@[k as int]@.len() - j,
            {
                let x = subs[k][j];
                sub.push(x);
                j = j + 1;
            }
            proof {
                assert(sub@ =~= subs@[k as int]@);
            }
            sub.push(i);
            proof {
                assert(sub@ == b[k as int].push(i));
            }
            out.push(sub);
            k = k + 1;
        }
        proof {
            let next = choose_seq((i + 1) as usize, m);
            assert(next == a + b.map_values(|s: Seq<usize>| s.push(i)));
            assert forall|t: int| 0 <= t < out@.len() implies #[trigger] subset_views(out@)[t]
                == next[t] by {
                if t >= a.len() {
                    assert(out@[a.len() + (t - a.len())]@ == b[t - a.len()].push(i));
                    assert(next[t] == b.map_values(|s: Seq<usize>| s.push(i))[t - a.len()]);
                }
            }
            assert(subset_views(out@) =~~= next);
        }
        i = i + 1;
    }
    out
}

} // verus!
