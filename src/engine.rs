//! A forest of clusters over an embedding matrix: leaf counts, row sums,
//! and the best partner of each cluster.
use vstd::prelude::*;
use crate::embedding::{EmbeddingMatrix, MAX_ROWS, MAX_DIM};
use crate::tree::{BTree, flatten_b_tree};
use crate::similarity::{Similarity, PairSim, ratio_gt, lemma_ratio_ge_trans};
use crate::centroid::{
    as_ints, centroid_sum, dot_sums, lemma_col_sum_bound, lemma_tree_nonempty, lemma_dot_symmetric,
    row_sum, rows_in, sim_bounded, sim_greater, tree_similarity, SUM_BOUND,
};

verus! {

/// The leaves of all trees of a forest, tree after tree.
pub open spec fn leaves_of(f: Seq<BTree>) -> Seq<usize>
    decreases f.len(),
{
    if f.len() == 0 {
        seq![]
    } else {
        leaves_of(f.drop_last()) + f.last().leaves()
    }
}

/// Every leaf of the forest names a row of `e`, and the forest has no more
/// leaves than `e` has rows.
pub open spec fn forest_fits(e: EmbeddingMatrix, f: Seq<BTree>) -> bool {
    &&& leaves_of(f).len() <= e.num_rows()
    &&& rows_in(e, leaves_of(f))
}

/// The similarity of clusters `i` and `j` of forest `f`.
pub open spec fn sim_of(e: EmbeddingMatrix, f: Seq<BTree>, i: int, j: int) -> (int, int) {
    tree_similarity(e, f[i], f[j])
}

/// `j` is the best partner of cluster `i`: another cluster of greatest
/// similarity to `i`, the largest index among equals.
pub open spec fn is_best(e: EmbeddingMatrix, f: Seq<BTree>, i: int, j: int) -> bool {
    &&& 0 <= j < f.len()
    &&& j != i
    &&& forall|k: int|
        0 <= k < f.len() && k != i ==> {
            &&& !ratio_gt(#[trigger] sim_of(e, f, i, k), sim_of(e, f, i, j))
            &&& k > j ==> ratio_gt(sim_of(e, f, i, j), sim_of(e, f, i, k))
        }
}

/// A cluster has at most one best partner.
pub proof fn lemma_best_unique(e: EmbeddingMatrix, f: Seq<BTree>, i: int, j1: int, j2: int)
    requires
        is_best(e, f, i, j1),
        is_best(e, f, i, j2),
    ensures
        j1 == j2,
{
    if j1 < j2 {
        assert(ratio_gt(sim_of(e, f, i, j1), sim_of(e, f, i, j2)));
    } else if j2 < j1 {
        assert(ratio_gt(sim_of(e, f, i, j2), sim_of(e, f, i, j1)));
    }
}

/// The best partner of `i` among clusters `0..n`, or -1 when there is no
/// other cluster among them.
pub open spec fn scan_best(e: EmbeddingMatrix, f: Seq<BTree>, i: int, n: int) -> int
    decreases n,
{
    if n <= 0 {
        -1
    } else {
        let b = scan_best(e, f, i, n - 1);
        let j = n - 1;
        if j == i {
            b
        } else if b < 0 || !ratio_gt(sim_of(e, f, i, b), sim_of(e, f, i, j)) {
            j
        } else {
            b
        }
    }
}

/// What a scan of the first `n` clusters finds.
pub proof fn lemma_scan_best(e: EmbeddingMatrix, f: Seq<BTree>, i: int, n: int)
    requires
        0 <= i < f.len(),
        0 <= n <= f.len(),
    ensures
        scan_best(e, f, i, n) < 0 ==> n == 0 || (n == 1 && i == 0),
        scan_best(e, f, i, n) >= 0 ==> {
            let b = scan_best(e, f, i, n);
            &&& b < n
            &&& b != i
            &&& forall|k: int| 0 <= k < n && k != i ==> {
                &&& !ratio_gt(#[trigger] sim_of(e, f, i, k), sim_of(e, f, i, b))
                &&& k > b ==> ratio_gt(sim_of(e, f, i, b), sim_of(e, f, i, k))
            }
        },
    decreases n,
{
    if n > 0 {
        lemma_scan_best(e, f, i, n - 1);
        let b = scan_best(e, f, i, n - 1);
        let j = n - 1;
        if j != i && b >= 0 && !ratio_gt(sim_of(e, f, i, b), sim_of(e, f, i, j)) {
            assert forall|k: int| 0 <= k < n && k != i implies
                !ratio_gt(#[trigger] sim_of(e, f, i, k), sim_of(e, f, i, j)) by {
                if k < j {
                    lemma_sim_den_positive(e, f, i, k);
                    lemma_sim_den_positive(e, f, i, j);
                    lemma_sim_den_positive(e, f, i, b);
                    lemma_ratio_ge_trans(sim_of(e, f, i, j), sim_of(e, f, i, b), sim_of(e, f, i, k));
                }
            }
        }
    }
}

/// Every cluster of a forest of two or more has a best partner.
pub proof fn lemma_best_exists(e: EmbeddingMatrix, f: Seq<BTree>, i: int)
    requires
        0 <= i < f.len(),
        f.len() >= 2,
    ensures
        is_best(e, f, i, scan_best(e, f, i, f.len() as int)),
{
    lemma_scan_best(e, f, i, f.len() as int);
}

/// Each tree of a fitting forest has its leaves among the rows, and no
/// more leaves than the whole forest.
pub proof fn lemma_member_fits(e: EmbeddingMatrix, f: Seq<BTree>, i: int)
    requires
        forest_fits(e, f),
        0 <= i < f.len(),
    ensures
        f[i].size() <= leaves_of(f).len(),
        rows_in(e, f[i].leaves()),
    decreases f.len(),
{
    let rest = f.drop_last();
    let all = leaves_of(f);
    assert(all == leaves_of(rest) + f.last().leaves());
    if i == f.len() - 1 {
        assert forall|m: int| 0 <= m < f[i].leaves().len() implies f[i].leaves()[m] < e.num_rows() by {
            assert(all[leaves_of(rest).len() + m] == f[i].leaves()[m]);
        }
    } else {
        assert forall|m: int| 0 <= m < leaves_of(rest).len() implies leaves_of(rest)[m] < e.num_rows() by {
            assert(all[m] == leaves_of(rest)[m]);
        }
        lemma_member_fits(e, rest, i);
        assert(rest[i] == f[i]);
    }
}

/// Row sums and leaf counts of every cluster of a forest.
pub struct ForestSums {
    pub sums: Vec<Vec<i64>>,
    pub sizes: Vec<usize>,
}

impl ForestSums {
    /// The sums and counts are those of forest `f` over `e`, within bounds.
    pub open spec fn describes(&self, e: EmbeddingMatrix, f: Seq<BTree>) -> bool {
        &&& self.sums@.len() == f.len()
        &&& self.sizes@.len() == f.len()
        &&& forall|i: int| 0 <= i < f.len() ==> {
            &&& as_ints(#[trigger] self.sums@[i]@) == row_sum(e, f[i].leaves())
            &&& self.sums@[i]@.len() == e.num_cols()
            &&& self.sizes@[i] == f[i].size()
            &&& 1 <= self.sizes@[i] <= MAX_ROWS
            &&& forall|k: int| 0 <= k < e.num_cols() ==> -SUM_BOUND <= #[trigger] self.sums@[i]@[k] <= SUM_BOUND
        }
    }

    /// Computes the row sum and leaf count of each cluster.
    pub fn new(forest: &Vec<BTree>, e: &EmbeddingMatrix) -> (r: ForestSums)
        requires
            e.wf(),
            forest_fits(*e, forest@),
        ensures
            r.describes(*e, forest@),
    {
        let mut sums: Vec<Vec<i64>> = Vec::new();
        let mut sizes: Vec<usize> = Vec::new();
        let mut i: usize = 0;
        proof { e.lemma_wf(); }
        while i < forest.len()
            invariant
                e.wf(),
                e.num_rows() <= MAX_ROWS,
                e.num_cols() <= MAX_DIM,
                forest_fits(*e, forest@),
                i <= forest@.len(),
                sums@.len() == i,
                sizes@.len() == i,
                forall|m: int| 0 <= m < i ==> {
                    &&& as_ints(#[trigger] sums@[m]@) == row_sum(*e, forest@[m].leaves())
                    &&& sums@[m]@.len() == e.num_cols()
                    &&& sizes@[m] == forest@[m].size()
                    &&& 1 <= sizes@[m] <= MAX_ROWS
                    &&& forall|k: int| 0 <= k < e.num_cols() ==> -SUM_BOUND <= #[trigger] sums@[m]@[k] <= SUM_BOUND
                },
            decreases forest@.len() - i,
        {
            let tree = &forest[i];
            proof {
                lemma_member_fits(*e, forest@, i as int);
                lemma_tree_nonempty(*tree);
            }
            let s = centroid_sum(tree, e);
            let n = flatten_b_tree(tree).len();
            proof {
                assert forall|k: int| 0 <= k < e.num_cols() implies -SUM_BOUND <= #[trigger] s@[k] <= SUM_BOUND by {
                    lemma_col_sum_bound(*e, tree.leaves(), k);
                    assert(as_ints(s@).len() == e.num_cols());
                    assert(as_ints(s@)[k] == s@[k] as int);
                    assert(tree.leaves().len() * 32768 <= SUM_BOUND) by (nonlinear_arith)
                        requires tree.leaves().len() <= MAX_ROWS;
                }
            }
            sums.push(s);
            sizes.push(n);
            proof {
                assert(sums@[i as int] == s);
                assert(s@.len() == e.num_cols());
                assert(sizes@[i as int] == forest@[i as int].size());
                assert(1 <= sizes@[i as int] <= MAX_ROWS);
                assert forall|k: int| 0 <= k < e.num_cols() implies -SUM_BOUND <= #[trigger] sums@[i as int]@[k] <= SUM_BOUND by {
                    assert(sums@[i as int]@[k] == s@[k]);
                }
            }
            i = i + 1;
        }
        ForestSums { sums, sizes }
    }

    /// The similarity of clusters `i` and `j`.
    pub(crate) fn similarity(&self, i: usize, j: usize, Ghost(e): Ghost<EmbeddingMatrix>, Ghost(f): Ghost<Seq<BTree>>) -> (r: Similarity)
        requires
            self.describes(e, f),
            e.num_cols() <= MAX_DIM,
            i < f.len(),
            j < f.len(),
        ensures
            r.ratio() == sim_of(e, f, i as int, j as int),
            sim_bounded(r),
    {
        let a = &self.sums[i];
        let b = &self.sums[j];
        let num = dot_sums(a, b);
        let x = self.sizes[i];
        let y = self.sizes[j];
        proof {
            assert(x * y <= MAX_ROWS * MAX_ROWS) by (nonlinear_arith)
                requires x <= MAX_ROWS, y <= MAX_ROWS;
            assert(x * y >= 1) by (nonlinear_arith)
                requires x >= 1, y >= 1;
            assert(as_ints(a@) == row_sum(e, f[i as int].leaves()));
            assert(as_ints(b@) == row_sum(e, f[j as int].leaves()));
        }
        Similarity { num, den: x as i128 * y as i128 }
    }
}

/// Similarities between clusters have positive denominators.
pub proof fn lemma_sim_den_positive(e: EmbeddingMatrix, f: Seq<BTree>, i: int, j: int)
    requires
        0 <= i < f.len(),
        0 <= j < f.len(),
    ensures
        sim_of(e, f, i, j).1 > 0,
{
    lemma_tree_nonempty(f[i]);
    lemma_tree_nonempty(f[j]);
    let (x, y) = (f[i].size() as int, f[j].size() as int);
    assert(x * y > 0) by (nonlinear_arith)
        requires x >= 1, y >= 1;
}

/// The similarity of `i` to `j` is that of `j` to `i`.
pub proof fn lemma_sim_symmetric(e: EmbeddingMatrix, f: Seq<BTree>, i: int, j: int)
    ensures
        sim_of(e, f, i, j) == sim_of(e, f, j, i),
{
    lemma_dot_symmetric(row_sum(e, f[i].leaves()), row_sum(e, f[j].leaves()), e.num_cols());
    let (x, y) = (f[i].size() as int, f[j].size() as int);
    assert(x * y == y * x) by (nonlinear_arith);
}

/// A cluster index with its similarity to some other cluster.
pub struct Partner {
    pub index: usize,
    pub sim: Similarity,
}

/// The best partner of cluster `i` with its similarity, or `None` when the
/// forest has no other cluster. Among equally similar clusters the one with
/// the largest index is chosen.
pub(crate) fn best_partner(sums: &ForestSums, i: usize, Ghost(e): Ghost<EmbeddingMatrix>, Ghost(f): Ghost<Seq<BTree>>) -> (r: Option<Partner>)
    requires
        sums.describes(e, f),
        e.num_cols() <= MAX_DIM,
        i < f.len(),
    ensures
        r is Some <==> f.len() >= 2,
        r is Some ==> {
            &&& is_best(e, f, i as int, r->0.index as int)
            &&& r->0.sim.ratio() == sim_of(e, f, i as int, r->0.index as int)
            &&& sim_bounded(r->0.sim)
        },
{
    let n = sums.sums.len();
    let mut best: Option<Partner> = None;
    let mut j: usize = 0;
    while j < n
        invariant
            sums.describes(e, f),
            e.num_cols() <= MAX_DIM,
            i < f.len(),
            n == f.len(),
            j <= n,
            best is None ==> j == 0 || (j == 1 && i == 0),
            best is Some ==> {
                &&& best->0.index < j
                &&& best->0.index != i
                &&& best->0.sim.ratio() == sim_of(e, f, i as int, best->0.index as int)
                &&& sim_bounded(best->0.sim)
                &&& forall|k: int| 0 <= k < j && k != i ==> {
                    &&& !ratio_gt(#[trigger] sim_of(e, f, i as int, k), sim_of(e, f, i as int, best->0.index as int))
                    &&& k > best->0.index ==> ratio_gt(sim_of(e, f, i as int, best->0.index as int), sim_of(e, f, i as int, k))
                }
            },
        decreases n - j,
    {
        if j != i {
            let s = sums.similarity(i, j, Ghost(e), Ghost(f));
            match best {
                None => {
                    best = Some(Partner { index: j, sim: s });
                },
                Some(Partner { index: b, sim: bs }) => {
                    if !sim_greater(&bs, &s) {
                        proof {
                            assert forall|k: int| 0 <= k < j && k != i implies
                                !ratio_gt(#[trigger] sim_of(e, f, i as int, k), sim_of(e, f, i as int, j as int)) by {
                                lemma_sim_den_positive(e, f, i as int, k);
                                lemma_sim_den_positive(e, f, i as int, j as int);
                                lemma_sim_den_positive(e, f, i as int, b as int);
                                lemma_ratio_ge_trans(s.ratio(), bs.ratio(), sim_of(e, f, i as int, k));
                            }
                        }
                        best = Some(Partner { index: j, sim: s });
                    }
                },
            }
        }
        j = j + 1;
    }
    proof {
        if best is Some {
            let b = best->0.index as int;
            assert forall|k: int| 0 <= k < f.len() && k != i implies {
                &&& !ratio_gt(#[trigger] sim_of(e, f, i as int, k), sim_of(e, f, i as int, b))
                &&& k > b ==> ratio_gt(sim_of(e, f, i as int, b), sim_of(e, f, i as int, k))
            } by {}
        } else {
            assert(n <= 1);
        }
    }
    best
}

/// The proposal of each cluster: the pair of it and its best partner,
/// smaller index first, with their similarity. Empty when the forest has a
/// single cluster.
pub(crate) fn proposals(sums: &ForestSums, Ghost(e): Ghost<EmbeddingMatrix>, Ghost(f): Ghost<Seq<BTree>>) -> (r: Vec<PairSim>)
    requires
        sums.describes(e, f),
        e.num_cols() <= MAX_DIM,
    ensures
        r@.len() == (if f.len() >= 2 { f.len() } else { 0 }),
        forall|i: int| 0 <= i < r@.len() ==> {
            &&& (#[trigger] r@[i]).left < r@[i].right
            &&& r@[i].sim.ratio() == sim_of(e, f, r@[i].left as int, r@[i].right as int)
            &&& sim_bounded(r@[i].sim)
            &&& (r@[i].left == i && is_best(e, f, i, r@[i].right as int))
                || (r@[i].right == i && is_best(e, f, i, r@[i].left as int))
        },
{
    let n = sums.sums.len();
    let mut out: Vec<PairSim> = Vec::new();
    let mut i: usize = 0;
    while i < n
        invariant
            sums.describes(e, f),
            e.num_cols() <= MAX_DIM,
            n == f.len(),
            i <= n,
            out@.len() == (if f.len() >= 2 { i as int } else { 0 }),
            forall|m: int| 0 <= m < out@.len() ==> {
                &&& (#[trigger] out@[m]).left < out@[m].right
                &&& out@[m].sim.ratio() == sim_of(e, f, out@[m].left as int, out@[m].right as int)
                &&& sim_bounded(out@[m].sim)
                &&& (out@[m].left == m && is_best(e, f, m, out@[m].right as int))
                    || (out@[m].right == m && is_best(e, f, m, out@[m].left as int))
            },
        decreases n - i,
    {
        match best_partner(sums, i, Ghost(e), Ghost(f)) {
            Some(Partner { index: j, sim: s }) => {
                proof { lemma_sim_symmetric(e, f, i as int, j as int); }
                out.push(PairSim::new(i, j, s));
            },
            None => {},
        }
        i = i + 1;
    }
    out
}

} // verus!
