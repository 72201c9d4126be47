use vstd::prelude::*;

use crate::bacteria::Residual;
use crate::composition::{entries, is_kept, residual_of, residual_vector, residuals_upto, Counts};
use crate::window::M;

verus! {

/// Window indices strictly increase along the vector.
pub open spec fn ascending(cs: Seq<Residual>) -> bool {
    forall|p: int, q: int| 0 <= p < q < cs.len() ==> #[trigger] cs[p].index < #[trigger] cs[q].index
}

/// `r` lists, in increasing order of both positions, exactly the pairs of
/// positions `(p, q)` at which `a` and `b` hold the same window index.
pub open spec fn is_alignment(a: Seq<Residual>, b: Seq<Residual>, r: Seq<(usize, usize)>) -> bool {
    &&& forall|k: int| 0 <= k < r.len() ==> {
        &&& (#[trigger] r[k]).0 < a.len()
        &&& r[k].1 < b.len()
        &&& a[r[k].0 as int].index == b[r[k].1 as int].index
    }
    &&& forall|k: int, l: int| 0 <= k < l < r.len() ==> {
        &&& (#[trigger] r[k]).0 < (#[trigger] r[l]).0
        &&& r[k].1 < r[l].1
    }
    &&& forall|p: int, q: int|
        0 <= p < a.len() && 0 <= q < b.len() && #[trigger] a[p].index == #[trigger] b[q].index
            ==> r.contains((p as usize, q as usize))
}

/// Each pair with its positions exchanged.
pub open spec fn swapped(r: Seq<(usize, usize)>) -> Seq<(usize, usize)> {
    r.map_values(|x: (usize, usize)| (x.1, x.0))
}

/// The pairs `(0, 0), (1, 1), ..., (n - 1, n - 1)`.
pub open spec fn diagonal(n: nat) -> Seq<(usize, usize)> {
    Seq::new(n, |k: int| (k as usize, k as usize))
}

/// Whether the window indices of `cs` strictly increase.
pub fn is_ascending(cs: &[Residual]) -> (r: bool)
    ensures
        r == ascending(cs@),
{
    let mut k: usize = 1;
    if cs.len() == 0 {
        return true;
    }
    while k < cs.len()
        invariant
            1 <= k <= cs@.len(),
            forall|p: int, q: int| 0 <= p < q < k ==> #[trigger] cs@[p].index < #[trigger] cs@[q].index,
        decreases cs@.len() - k,
    {
        if cs[k - 1].index >= cs[k].index {
            return false;
        }
        proof {
            assert forall|p: int, q: int| 0 <= p < q < k + 1 implies #[trigger] cs@[p].index
                < #[trigger] cs@[q].index by {
                if q == k && p < k - 1 {
                    assert(cs@[p].index < cs@[k - 1].index);
                }
            }
        }
        k = k + 1;
    }
    true
}

/// Merges two ascending sparse vectors: the positions of the windows that
/// both hold. Together with the squared norms of the two vectors these are
/// all that the correlation of the vectors reads.
pub fn common_windows(a: &[Residual], b: &[Residual]) -> (r: Vec<(usize, usize)>)
    requires
        ascending(a@),
        ascending(b@),
    ensures
        is_alignment(a@, b@, r@),
{
    let mut r: Vec<(usize, usize)> = Vec::new();
    let mut p1: usize = 0;
    let mut p2: usize = 0;
    while p1 < a.len() && p2 < b.len()
        invariant
            p1 <= a@.len(),
            p2 <= b@.len(),
            ascending(a@),
            ascending(b@),
            forall|k: int| 0 <= k < r@.len() ==> {
                &&& (#[trigger] r@[k]).0 < p1
                &&& r@[k].1 < p2
                &&& a@[r@[k].0 as int].index == b@[r@[k].1 as int].index
            },
            forall|k: int, l: int| 0 <= k < l < r@.len() ==> {
                &&& (#[trigger] r@[k]).0 < (#[trigger] r@[l]).0
                &&& r@[k].1 < r@[l].1
            },
            forall|p: int, q: int|
                0 <= p < a@.len() && 0 <= q < b@.len() && (p < p1 || q < p2)
                    && #[trigger] a@[p].index == #[trigger] b@[q].index
                    ==> r@.contains((p as usize, q as usize)),
        decreases a@.len() + b@.len() - p1 - p2,
    {
        let n1 = a[p1].index;
        let n2 = b[p2].index;
        let ghost old_r = r@;
        if n1 < n2 {
            p1 = p1 + 1;
        } else if n2 < n1 {
            p2 = p2 + 1;
        } else {
            r.push((p1, p2));
            proof {
                assert(r@.last() == (p1, p2));
                assert forall|p: int, q: int|
                    0 <= p < a@.len() && 0 <= q < b@.len() && (p < p1 + 1 || q < p2 + 1)
                        && #[trigger] a@[p].index == #[trigger] b@[q].index
                        implies r@.contains((p as usize, q as usize)) by {
                    if p < p1 || q < p2 {
                        let k = choose|k: int| 0 <= k < old_r.len() && old_r[k] == (p as usize, q as usize);
                        assert(r@[k] == old_r[k]);
                    } else {
                        assert(p == p1 && q == p2);
                        assert(r@[r@.len() - 1] == (p1, p2));
                    }
                }
            }
            p1 = p1 + 1;
            p2 = p2 + 1;
        }
    }
    r
}

proof fn lemma_alignment_prefix(a: Seq<Residual>, b: Seq<Residual>, r1: Seq<(usize, usize)>, r2: Seq<(usize, usize)>, n: int)
    requires
        is_alignment(a, b, r1),
        is_alignment(a, b, r2),
        0 <= n <= r1.len(),
        n <= r2.len(),
    ensures
        forall|j: int| 0 <= j < n ==> r1[j] == r2[j],
    decreases n,
{
    if n > 0 {
        lemma_alignment_prefix(a, b, r1, r2, n - 1);
        let k = n - 1;
        let x = r1[k];
        let y = r2[k];
        assert(a[x.0 as int].index == b[x.1 as int].index);
        assert(a[y.0 as int].index == b[y.1 as int].index);
        assert(r2.contains((x.0 as usize, x.1 as usize)));
        assert(r1.contains((y.0 as usize, y.1 as usize)));
        let j = choose|j: int| 0 <= j < r2.len() && r2[j] == x;
        let i = choose|i: int| 0 <= i < r1.len() && r1[i] == y;
        if j < k {
            assert(r1[j] == r2[j]);
            assert(r1[j].0 < r1[k].0);
        } else if i < k {
            assert(r1[i] == r2[i]);
            assert(r2[i].0 < r2[k].0);
        } else if j > k && i > k {
            assert(r2[k].0 < r2[j].0);
            assert(r1[k].0 < r1[i].0);
        }
    }
}

/// Two alignments of the same vectors are equal: the merge result is
/// determined by the two vectors.
pub proof fn lemma_alignment_unique(a: Seq<Residual>, b: Seq<Residual>, r1: Seq<(usize, usize)>, r2: Seq<(usize, usize)>)
    requires
        is_alignment(a, b, r1),
        is_alignment(a, b, r2),
    ensures
        r1 == r2,
{
    if r1.len() > r2.len() {
        lemma_alignment_prefix(a, b, r1, r2, r2.len() as int);
        let x = r1[r2.len() as int];
        assert(a[x.0 as int].index == b[x.1 as int].index);
        assert(r2.contains((x.0 as usize, x.1 as usize)));
        let j = choose|j: int| 0 <= j < r2.len() && r2[j] == x;
        assert(r1[j] == r2[j]);
        assert(r1[j].0 < r1[r2.len() as int].0);
    } else if r2.len() > r1.len() {
        lemma_alignment_prefix(a, b, r1, r2, r1.len() as int);
        let y = r2[r1.len() as int];
        assert(a[y.0 as int].index == b[y.1 as int].index);
        assert(r1.contains((y.0 as usize, y.1 as usize)));
        let i = choose|i: int| 0 <= i < r1.len() && r1[i] == y;
        assert(r1[i] == r2[i]);
        assert(r2[i].0 < r2[r1.len() as int].0);
    } else {
        lemma_alignment_prefix(a, b, r1, r2, r1.len() as int);
        assert(r1 =~= r2);
    }
}

/// Merging `b` with `a` pairs the same windows as merging `a` with `b`, each
/// pair exchanged: the pairs that the score's cross product runs over do not
/// depend on the order of the two vectors.
pub proof fn lemma_alignment_symmetric(a: Seq<Residual>, b: Seq<Residual>, r: Seq<(usize, usize)>, s: Seq<(usize, usize)>)
    requires
        is_alignment(a, b, r),
        is_alignment(b, a, s),
    ensures
        s == swapped(r),
{
    let t = swapped(r);
    assert forall|p: int, q: int|
        0 <= p < b.len() && 0 <= q < a.len() && #[trigger] b[p].index == #[trigger] a[q].index
            implies t.contains((p as usize, q as usize)) by {
        assert(r.contains((q as usize, p as usize)));
        let k = choose|k: int| 0 <= k < r.len() && r[k] == (q as usize, p as usize);
        assert(t[k] == (p as usize, q as usize));
    }
    assert forall|k: int, l: int| 0 <= k < l < t.len() implies {
        &&& (#[trigger] t[k]).0 < (#[trigger] t[l]).0
        &&& t[k].1 < t[l].1
    } by {
        assert(r[k].0 < r[l].0 && r[k].1 < r[l].1);
    }
    assert forall|k: int| 0 <= k < t.len() implies {
        &&& (#[trigger] t[k]).0 < b.len()
        &&& t[k].1 < a.len()
        &&& b[t[k].0 as int].index == a[t[k].1 as int].index
    } by {
        assert(r[k].0 < a.len());
    }
    lemma_alignment_unique(b, a, s, t);
}

/// An ascending vector merged with itself pairs every entry with itself and
/// nothing else: the cross product of a vector with itself runs over the same
/// entries as its squared norm.
pub proof fn lemma_alignment_self(a: Seq<Residual>, r: Seq<(usize, usize)>)
    requires
        ascending(a),
        a.len() <= usize::MAX,
        is_alignment(a, a, r),
    ensures
        r == diagonal(a.len()),
{
    let d = diagonal(a.len());
    assert forall|k: int| 0 <= k < d.len() implies {
        &&& (#[trigger] d[k]).0 < a.len()
        &&& d[k].1 < a.len()
        &&& a[d[k].0 as int].index == a[d[k].1 as int].index
    } by {
    }
    assert forall|k: int, l: int| 0 <= k < l < d.len() implies {
        &&& (#[trigger] d[k]).0 < (#[trigger] d[l]).0
        &&& d[k].1 < d[l].1
    } by {
    }
    assert forall|p: int, q: int|
        0 <= p < a.len() && 0 <= q < a.len() && #[trigger] a[p].index == #[trigger] a[q].index
            implies d.contains((p as usize, q as usize)) by {
        if p < q {
            assert(a[p].index < a[q].index);
        } else if q < p {
            assert(a[q].index < a[p].index);
        }
        assert(d[p] == (p as usize, q as usize));
    }
    lemma_alignment_unique(a, a, r, d);
}

/// The composition vector of any counts holds strictly increasing window
/// indices, all below `M`.
pub proof fn lemma_residual_vector_ascending(c: Counts)
    ensures
        forall|k: int, l: int| 0 <= k < l < residual_vector(c).len()
            ==> #[trigger] residual_vector(c)[k].0 < #[trigger] residual_vector(c)[l].0,
        forall|k: int| 0 <= k < residual_vector(c).len()
            ==> 0 <= #[trigger] residual_vector(c)[k].0 < M,
{
    lemma_residuals_upto_ascending(c, M as nat);
}

proof fn lemma_residuals_upto_ascending(c: Counts, n: nat)
    ensures
        forall|k: int, l: int| 0 <= k < l < residuals_upto(c, n).len()
            ==> #[trigger] residuals_upto(c, n)[k].0 < #[trigger] residuals_upto(c, n)[l].0,
        forall|k: int| 0 <= k < residuals_upto(c, n).len()
            ==> 0 <= #[trigger] residuals_upto(c, n)[k].0 < n,
    decreases n,
{
    if n > 0 {
        lemma_residuals_upto_ascending(c, (n - 1) as nat);
        let prev = residuals_upto(c, (n - 1) as nat);
        if is_kept(c, n - 1) {
            let cur = prev.push(residual_of(c, n - 1));
            assert(residuals_upto(c, n) == cur);
            assert forall|k: int| 0 <= k < cur.len() implies 0 <= #[trigger] cur[k].0 < n by {
                if k < prev.len() {
                    assert(cur[k] == prev[k]);
                }
            }
            assert forall|k: int, l: int| 0 <= k < l < cur.len() implies #[trigger] cur[k].0
                < #[trigger] cur[l].0 by {
                assert(cur[k] == prev[k]);
                if l < prev.len() {
                    assert(cur[l] == prev[l]);
                }
            }
        }
    }
}

/// A vector whose entries are a composition vector is ascending.
pub proof fn lemma_entries_ascending(cs: Seq<Residual>, c: Counts)
    requires
        entries(cs) == residual_vector(c),
    ensures
        ascending(cs),
{
    lemma_residual_vector_ascending(c);
    assert forall|p: int, q: int| 0 <= p < q < cs.len() implies #[trigger] cs[p].index
        < #[trigger] cs[q].index by {
        assert(entries(cs).len() == cs.len());
        assert(entries(cs)[p] == cs[p]@);
        assert(entries(cs)[q] == cs[q]@);
        assert(residual_vector(c)[p].0 < residual_vector(c)[q].0);
    }
}

} // verus!
