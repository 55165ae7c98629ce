//! Cluster centroids and the exact similarity between two clusters.
//!
//! A centroid is the mean of its leaves' rows. Means are never formed: the
//! dot product of two means is the dot product of the two row sums divided
//! by the product of the two leaf counts, and is kept as that fraction.
use vstd::prelude::*;
use crate::embedding::{EmbeddingMatrix, MAX_ROWS, MAX_DIM};
use crate::tree::{BTree, flatten_b_tree};
use crate::similarity::{PairSim, Similarity, ratio_gt};

verus! {

/// Bound on a component of a row sum over at most `MAX_ROWS` leaves.
pub const SUM_BOUND: i64 = 34359738368;

/// Bound on a dot product of two row sums of at most `MAX_DIM` components.
pub const DOT_BOUND: i128 = 77371252455336267181195264;

/// Component `k` of the sum of the rows listed in `s`.
pub open spec fn col_sum(e: EmbeddingMatrix, s: Seq<usize>, k: int) -> int
    decreases s.len(),
{
    if s.len() == 0 {
        0
    } else {
        col_sum(e, s.drop_last(), k) + e.at(s.last() as int, k)
    }
}

/// The sum of the rows listed in `s`, one entry per column.
pub open spec fn row_sum(e: EmbeddingMatrix, s: Seq<usize>) -> Seq<int> {
    Seq::new(e.num_cols(), |k: int| col_sum(e, s, k))
}

/// The dot product of the first `n` components of `a` and `b`.
pub open spec fn dot(a: Seq<int>, b: Seq<int>, n: nat) -> int
    decreases n,
{
    if n == 0 {
        0
    } else {
        dot(a, b, (n - 1) as nat) + a[n - 1] * b[n - 1]
    }
}

/// The similarity of the centroids of trees `s` and `t`: the dot product of
/// the two means, as the fraction (dot of the row sums, product of the leaf
/// counts).
pub open spec fn tree_similarity(e: EmbeddingMatrix, s: BTree, t: BTree) -> (int, int) {
    (dot(row_sum(e, s.leaves()), row_sum(e, t.leaves()), e.num_cols()), (s.size() * t.size()) as int)
}

/// Every index in `s` names a row of `e`.
pub open spec fn rows_in(e: EmbeddingMatrix, s: Seq<usize>) -> bool {
    forall|i: int| 0 <= i < s.len() ==> s[i] < e.num_rows()
}

/// The integers a sequence of `i64` holds.
pub open spec fn as_ints(a: Seq<i64>) -> Seq<int> {
    a.map_values(|x: i64| x as int)
}

/// A tree has at least one leaf.
pub proof fn lemma_tree_nonempty(t: BTree)
    ensures
        t.size() >= 1,
    decreases t,
{
    match t {
        BTree::Leaf(_) => {},
        BTree::Node(pair) => {
            lemma_tree_nonempty(pair.0);
        },
    }
}

/// A column sum over `n` rows is at most `n * 32768` in absolute value.
pub proof fn lemma_col_sum_bound(e: EmbeddingMatrix, s: Seq<usize>, k: int)
    requires
        e.wf(),
        rows_in(e, s),
        0 <= k < e.num_cols(),
    ensures
        -(s.len() * 32768) <= col_sum(e, s, k) <= s.len() * 32768,
    decreases s.len(),
{
    e.lemma_wf();
    if s.len() > 0 {
        assert(rows_in(e, s.drop_last()));
        lemma_col_sum_bound(e, s.drop_last(), k);
        assert(s.last() < e.num_rows());
    }
}

/// The dot product is symmetric.
pub proof fn lemma_dot_symmetric(a: Seq<int>, b: Seq<int>, n: nat)
    ensures
        dot(a, b, n) == dot(b, a, n),
    decreases n,
{
    if n > 0 {
        lemma_dot_symmetric(a, b, (n - 1) as nat);
        assert(a[n - 1] * b[n - 1] == b[n - 1] * a[n - 1]) by (nonlinear_arith);
    }
}

/// A dot product of `n` terms, each a product of two components bounded by
/// `SUM_BOUND`, is bounded by `n * SUM_BOUND^2`.
pub proof fn lemma_dot_bound(a: Seq<int>, b: Seq<int>, n: nat)
    requires
        n <= a.len(),
        n <= b.len(),
        forall|k: int| 0 <= k < n ==> -SUM_BOUND <= #[trigger] a[k] <= SUM_BOUND,
        forall|k: int| 0 <= k < n ==> -SUM_BOUND <= #[trigger] b[k] <= SUM_BOUND,
    ensures
        -(n * (SUM_BOUND * SUM_BOUND)) <= dot(a, b, n) <= n * (SUM_BOUND * SUM_BOUND),
    decreases n,
{
    if n > 0 {
        lemma_dot_bound(a, b, (n - 1) as nat);
        let x = a[n - 1];
        let y = b[n - 1];
        assert(-(SUM_BOUND * SUM_BOUND) <= x * y <= SUM_BOUND * SUM_BOUND) by (nonlinear_arith)
            requires -SUM_BOUND <= x <= SUM_BOUND, -SUM_BOUND <= y <= SUM_BOUND;
        assert(n * (SUM_BOUND * SUM_BOUND) == (n - 1) * (SUM_BOUND * SUM_BOUND) + SUM_BOUND * SUM_BOUND) by (nonlinear_arith);
    }
}

/// The sum of the rows under `tree`, one `i64` per column.
pub fn centroid_sum(tree: &BTree, e: &EmbeddingMatrix) -> (r: Vec<i64>)
    requires
        e.wf(),
        rows_in(*e, tree.leaves()),
        tree.size() <= MAX_ROWS,
    ensures
        as_ints(r@) == row_sum(*e, tree.leaves()),
{
    let leaves = flatten_b_tree(tree);
    let dim = e.dim();
    proof { e.lemma_wf(); }
    let mut sums: Vec<i64> = Vec::new();
    let mut k: usize = 0;
    while k < dim
        invariant
            k <= dim,
            dim == e.num_cols(),
            sums@.len() == k,
            forall|m: int| 0 <= m < k ==> sums@[m] == 0,
        decreases dim - k,
    {
        sums.push(0);
        k = k + 1;
    }
    let mut t: usize = 0;
    while t < leaves.len()
        invariant
            e.wf(),
            leaves@ == tree.leaves(),
            rows_in(*e, leaves@),
            leaves@.len() <= MAX_ROWS,
            t <= leaves@.len(),
            dim == e.num_cols(),
            sums@.len() == dim,
            forall|m: int| 0 <= m < dim ==> sums@[m] as int == #[trigger] col_sum(*e, leaves@.take(t as int), m),
        decreases leaves@.len() - t,
    {
        let row = leaves[t];
        let ghost before = sums@;
        let ghost next = leaves@.take(t + 1);
        proof {
            assert(next.drop_last() =~= leaves@.take(t as int));
            assert(rows_in(*e, next));
        }
        let mut k: usize = 0;
        while k < dim
            invariant
                e.wf(),
                k <= dim,
                dim == e.num_cols(),
                row < e.num_rows(),
                rows_in(*e, next),
                next.len() == t + 1,
                t + 1 <= MAX_ROWS,
                next.drop_last() == leaves@.take(t as int),
                next.last() == row,
                sums@.len() == dim,
                before.len() == dim,
                forall|m: int| 0 <= m < dim ==> before[m] as int == #[trigger] col_sum(*e, leaves@.take(t as int), m),
                forall|m: int| 0 <= m < k ==> sums@[m] as int == #[trigger] col_sum(*e, next, m),
                forall|m: int| k <= m < dim ==> sums@[m] == before[m],
            decreases dim - k,
        {
            proof {
                lemma_col_sum_bound(*e, next, k as int);
                assert(next.len() * 32768 <= SUM_BOUND) by (nonlinear_arith)
                    requires next.len() <= MAX_ROWS;
                assert(col_sum(*e, next, k as int) == col_sum(*e, leaves@.take(t as int), k as int) + e.at(row as int, k as int));
            }
            let v = e.value(row, k);
            let s = sums[k] + v as i64;
            sums.set(k, s);
            k = k + 1;
        }
        proof {
            assert forall|m: int| 0 <= m < dim implies sums@[m] as int == #[trigger] col_sum(*e, leaves@.take(t + 1), m) by {
                assert(next == leaves@.take(t + 1));
            }
        }
        t = t + 1;
    }
    proof {
        assert(leaves@.take(t as int) =~= leaves@);
        assert(as_ints(sums@) =~= row_sum(*e, tree.leaves()));
    }
    sums
}

/// The dot product of two row sums.
pub fn dot_sums(a: &Vec<i64>, b: &Vec<i64>) -> (r: i128)
    requires
        a@.len() == b@.len(),
        a@.len() <= MAX_DIM,
        forall|k: int| 0 <= k < a@.len() ==> -SUM_BOUND <= #[trigger] a@[k] <= SUM_BOUND,
        forall|k: int| 0 <= k < b@.len() ==> -SUM_BOUND <= #[trigger] b@[k] <= SUM_BOUND,
    ensures
        r as int == dot(as_ints(a@), as_ints(b@), a@.len()),
        -DOT_BOUND <= r <= DOT_BOUND,
{
    let mut acc: i128 = 0;
    let mut k: usize = 0;
    while k < a.len()
        invariant
            a@.len() == b@.len(),
            a@.len() <= MAX_DIM,
            forall|m: int| 0 <= m < a@.len() ==> -SUM_BOUND <= #[trigger] a@[m] <= SUM_BOUND,
            forall|m: int| 0 <= m < b@.len() ==> -SUM_BOUND <= #[trigger] b@[m] <= SUM_BOUND,
            k <= a@.len(),
            acc as int == dot(as_ints(a@), as_ints(b@), k as nat),
        decreases a@.len() - k,
    {
        proof {
            lemma_dot_bound(as_ints(a@), as_ints(b@), (k + 1) as nat);
            assert((k + 1) * (SUM_BOUND * SUM_BOUND) <= DOT_BOUND) by (nonlinear_arith)
                requires k + 1 <= MAX_DIM;
        }
        let x = a[k] as i128;
        let y = b[k] as i128;
        proof {
            assert(-(SUM_BOUND * SUM_BOUND) <= x * y <= SUM_BOUND * SUM_BOUND) by (nonlinear_arith)
                requires -SUM_BOUND <= x <= SUM_BOUND, -SUM_BOUND <= y <= SUM_BOUND;
        }
        acc = acc + x * y;
        k = k + 1;
    }
    proof {
        lemma_dot_bound(as_ints(a@), as_ints(b@), a@.len());
        assert(a@.len() * (SUM_BOUND * SUM_BOUND) <= DOT_BOUND) by (nonlinear_arith)
            requires a@.len() <= MAX_DIM;
    }
    acc
}

/// Bound on the product of two leaf counts.
pub const DEN_BOUND: i128 = 1099511627776;

/// A similarity whose fraction lies within the bounds that row sums of a
/// well-formed matrix give.
pub open spec fn sim_bounded(s: Similarity) -> bool {
    &&& 0 < s.den <= DEN_BOUND
    &&& -DOT_BOUND <= s.num <= DOT_BOUND
}

/// Compares two bounded similarities exactly.
pub fn sim_greater(a: &Similarity, b: &Similarity) -> (r: bool)
    requires
        sim_bounded(*a),
        sim_bounded(*b),
    ensures
        r == crate::similarity::ratio_gt(a.ratio(), b.ratio()),
{
    proof {
        let (an, ad, bn, bd) = (a.num as int, a.den as int, b.num as int, b.den as int);
        assert(-0x4000_0000_0000_0000_0000_0000_0000_0000 <= an * bd <= 0x4000_0000_0000_0000_0000_0000_0000_0000) by (nonlinear_arith)
            requires -DOT_BOUND <= an <= DOT_BOUND, 0 < bd <= DEN_BOUND;
        assert(-0x4000_0000_0000_0000_0000_0000_0000_0000 <= bn * ad <= 0x4000_0000_0000_0000_0000_0000_0000_0000) by (nonlinear_arith)
            requires -DOT_BOUND <= bn <= DOT_BOUND, 0 < ad <= DEN_BOUND;
    }
    a.greater_than(b)
}

impl PairSim {
    /// Plan order on records: greater similarity first, then the smaller
    /// index pair.
    pub fn comes_before(&self, other: &PairSim) -> (r: bool)
        requires
            sim_bounded(self.sim),
            sim_bounded(other.sim),
        ensures
            r == (ratio_gt(self.sim.ratio(), other.sim.ratio()) || (!ratio_gt(other.sim.ratio(), self.sim.ratio())
                && (self.left < other.left || (self.left == other.left && self.right < other.right)))),
    {
        if sim_greater(&self.sim, &other.sim) {
            true
        } else if sim_greater(&other.sim, &self.sim) {
            false
        } else {
            self.left < other.left || (self.left == other.left && self.right < other.right)
        }
    }
}

} // verus!
