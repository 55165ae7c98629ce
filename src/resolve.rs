//! Greedy conflict resolution and the round step.
//!
//! The plan is walked in order. A pair whose two clusters are both still
//! free is merged; a pair with a cluster already taken is skipped, and the
//! other cluster stays free for a later pair of the same round. Clusters
//! that no pair took are carried into the next forest unchanged, after the
//! new nodes.
use vstd::prelude::*;
use crate::embedding::EmbeddingMatrix;
use crate::error::ClusterError;
use crate::tree::{BTree, copy_tree};
use crate::similarity::PairSim;
use crate::engine::{forest_fits, leaves_of};
use crate::invariants::lemma_resolve;
use crate::driver::is_partition;
use crate::plan::{is_pair_of, is_plan, lemma_plan_unique, merge_plan, pairs, plan_of};

verus! {

/// The node that merges `a` and `b`, the tree with the smaller least leaf
/// first.
pub open spec fn join(a: BTree, b: BTree) -> BTree {
    if a.least_leaf() <= b.least_leaf() {
        BTree::Node(Box::new((a, b)))
    } else {
        BTree::Node(Box::new((b, a)))
    }
}

/// Walking plan `p` over forest `f`: the merged nodes so far, and which
/// clusters are taken.
pub open spec fn walk(f: Seq<BTree>, p: Seq<(int, int)>) -> (Seq<BTree>, Seq<bool>)
    decreases p.len(),
{
    if p.len() == 0 {
        (seq![], Seq::new(f.len(), |i: int| false))
    } else {
        let prev = walk(f, p.drop_last());
        let (l, r) = p.last();
        if !prev.1[l] && !prev.1[r] {
            (prev.0.push(join(f[l], f[r])), prev.1.update(l, true).update(r, true))
        } else {
            prev
        }
    }
}

/// The clusters among the first `n` of `f` that are not taken, in order.
pub open spec fn carried(f: Seq<BTree>, taken: Seq<bool>, n: int) -> Seq<BTree>
    decreases n,
{
    if n <= 0 {
        seq![]
    } else {
        carried(f, taken, n - 1) + (if taken[n - 1] { seq![] } else { seq![f[n - 1]] })
    }
}

/// The forest that plan `p` makes of `f`: the merged nodes in plan order,
/// then the clusters no pair took.
pub open spec fn resolve(f: Seq<BTree>, p: Seq<(int, int)>) -> Seq<BTree> {
    walk(f, p).0 + carried(f, walk(f, p).1, f.len() as int)
}

/// The forest after one round on `f`.
pub open spec fn next_forest(e: EmbeddingMatrix, f: Seq<BTree>) -> Seq<BTree> {
    resolve(f, plan_of(e, f))
}

/// Applies the plan `plan` to `forest`: merges each pair whose clusters are
/// both free, skips the others, then carries the untaken clusters over.
pub fn resolve_merges(forest: &Vec<BTree>, plan: &Vec<PairSim>) -> (r: Vec<BTree>)
    requires
        forall|m: int| 0 <= m < plan@.len() ==> is_pair_of(forest@, #[trigger] plan@[m].pair()),
    ensures
        r@ == resolve(forest@, pairs(plan@)),
{
    let ghost f = forest@;
    let ghost pp = pairs(plan@);
    let mut taken: Vec<bool> = Vec::new();
    let mut i: usize = 0;
    while i < forest.len()
        invariant
            i <= f.len(),
            f == forest@,
            taken@ == Seq::new(i as nat, |m: int| false),
        decreases f.len() - i,
    {
        taken.push(false);
        i = i + 1;
        assert(taken@ =~= Seq::new(i as nat, |m: int| false));
    }
    let mut merged: Vec<BTree> = Vec::new();
    let mut t: usize = 0;
    proof {
        assert(pp.take(0) =~= Seq::<(int, int)>::empty());
        assert(walk(f, pp.take(0)).1 =~= taken@);
    }
    while t < plan.len()
        invariant
            f == forest@,
            pp == pairs(plan@),
            forall|m: int| 0 <= m < plan@.len() ==> is_pair_of(f, #[trigger] plan@[m].pair()),
            t <= plan@.len(),
            (merged@, taken@) == walk(f, pp.take(t as int)),
            taken@.len() == f.len(),
        decreases plan@.len() - t,
    {
        let c = plan[t];
        let ghost next = pp.take(t + 1);
        proof {
            assert(is_pair_of(f, plan@[t as int].pair()));
            assert(next.drop_last() =~= pp.take(t as int));
            assert(next.last() == c.pair());
        }
        if !taken[c.left] && !taken[c.right] {
            let a = copy_tree(&forest[c.left]);
            let b = copy_tree(&forest[c.right]);
            let node = if forest[c.left].min_leaf() <= forest[c.right].min_leaf() {
                BTree::Node(Box::new((a, b)))
            } else {
                BTree::Node(Box::new((b, a)))
            };
            merged.push(node);
            taken.set(c.left, true);
            taken.set(c.right, true);
        }
        t = t + 1;
    }
    proof {
        assert(pp.take(t as int) =~= pp);
    }
    let mut out = merged;
    let ghost base = out@;
    let mut i: usize = 0;
    while i < forest.len()
        invariant
            f == forest@,
            i <= f.len(),
            taken@.len() == f.len(),
            out@ == base + carried(f, taken@, i as int),
        decreases f.len() - i,
    {
        if !taken[i] {
            out.push(copy_tree(&forest[i]));
        }
        i = i + 1;
        assert(out@ =~= base + carried(f, taken@, i as int));
    }
    out
}

/// One round of clustering: the forest that the merge plan of `old_clusters`
/// makes of it. Fails with `EmptyForest` on a forest without clusters.
pub fn cluster_step(old_clusters: &Vec<BTree>, embeddings: &EmbeddingMatrix) -> (r: Result<Vec<BTree>, ClusterError>)
    requires
        embeddings.wf(),
        forest_fits(*embeddings, old_clusters@),
    ensures
        old_clusters@.len() == 0 <==> r == Err::<Vec<BTree>, ClusterError>(ClusterError::EmptyForest),
        old_clusters@.len() > 0 <==> r is Ok,
        r is Ok ==> {
            &&& r->Ok_0@ == next_forest(*embeddings, old_clusters@)
            &&& leaves_of(r->Ok_0@).to_multiset() == leaves_of(old_clusters@).to_multiset()
            &&& forall|n: nat| is_partition(old_clusters@, n) ==> #[trigger] is_partition(r->Ok_0@, n)
            &&& forest_fits(*embeddings, r->Ok_0@)
            &&& r->Ok_0@.len() <= old_clusters@.len()
            &&& old_clusters@.len() >= 2 ==> r->Ok_0@.len() < old_clusters@.len()
            &&& old_clusters@.len() == 1 ==> r->Ok_0@ == old_clusters@
            &&& r->Ok_0@.len() >= 1
            &&& 2 * r->Ok_0@.len() >= old_clusters@.len()
        },
{
    if old_clusters.len() == 0 {
        return Err(ClusterError::EmptyForest);
    }
    let plan = merge_plan(old_clusters, embeddings);
    proof {
        let p = pairs(plan@);
        assert forall|m: int| 0 <= m < plan@.len() implies is_pair_of(old_clusters@, #[trigger] plan@[m].pair()) by {
            assert(p[m] == plan@[m].pair());
        }
        let q = plan_of(*embeddings, old_clusters@);
        assert(is_plan(*embeddings, old_clusters@, q));
        lemma_plan_unique(*embeddings, old_clusters@, p, q);
        lemma_resolve(old_clusters@, p);
        let f = old_clusters@;
        let g = resolve(f, p);
        lemma_forest_fits_kept(*embeddings, f, g);
        lemma_leaf_count(f);
        if g.len() == 0 {
            assert(leaves_of(g) =~= Seq::<usize>::empty());
            assert(leaves_of(f).to_multiset().len() == leaves_of(f).len()) by {
                broadcast use vstd::seq_lib::group_to_multiset_ensures;
            }
            assert(leaves_of(g).to_multiset().len() == 0) by {
                broadcast use vstd::seq_lib::group_to_multiset_ensures;
            }
        }
        if f.len() == 1 && p.len() > 0 {
            assert(p.contains(p[0]));
        }
    }
    Ok(resolve_merges(old_clusters, &plan))
}

/// A forest with the same leaves as a fitting forest fits too.
pub proof fn lemma_forest_fits_kept(e: EmbeddingMatrix, f: Seq<BTree>, g: Seq<BTree>)
    requires
        forest_fits(e, f),
        leaves_of(g).to_multiset() == leaves_of(f).to_multiset(),
    ensures
        forest_fits(e, g),
{
    broadcast use vstd::seq_lib::group_to_multiset_ensures;

    assert forall|i: int| 0 <= i < leaves_of(g).len() implies leaves_of(g)[i] < e.num_rows() by {
        let x = leaves_of(g)[i];
        assert(leaves_of(g).contains(x));
        assert(leaves_of(f).to_multiset().count(x) > 0);
        assert(leaves_of(f).contains(x));
    }
    assert(leaves_of(g).to_multiset().len() == leaves_of(g).len());
    assert(leaves_of(f).to_multiset().len() == leaves_of(f).len());
}

/// A forest has at least as many leaves as trees.
pub proof fn lemma_leaf_count(f: Seq<BTree>)
    ensures
        leaves_of(f).len() >= f.len(),
    decreases f.len(),
{
    if f.len() > 0 {
        lemma_leaf_count(f.drop_last());
        crate::centroid::lemma_tree_nonempty(f.last());
    }
}

} // verus!
