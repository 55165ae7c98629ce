//! What every round guarantees, stated over the round's definition alone.
use vstd::prelude::*;
use crate::embedding::EmbeddingMatrix;
use crate::tree::BTree;
use crate::engine::{leaves_of, lemma_best_exists, scan_best};
use crate::plan::{is_pair_of, is_plan, lemma_plan_exists, lemma_plan_unique, ordered_pair, plan_of};
use crate::invariants::lemma_resolve;
use crate::resolve::{lemma_leaf_count, next_forest, resolve};
use crate::driver::{is_partition, rounds};

verus! {

/// The pairs of a forest's plan are pairs of two different clusters, the
/// smaller index first.
pub proof fn law_plan_pairs_ordered(e: EmbeddingMatrix, f: Seq<BTree>)
    ensures
        forall|m: int| 0 <= m < plan_of(e, f).len() ==> is_pair_of(f, #[trigger] plan_of(e, f)[m]),
{
    lemma_plan_exists(e, f);
    let p = plan_of(e, f);
    assert forall|m: int| 0 <= m < p.len() implies is_pair_of(f, #[trigger] p[m]) by {
        assert(p.contains(p[m]));
    }
}

/// A round keeps every leaf, each as often as before, so a forest that
/// holds each index of `0..n` once still does after the round.
pub proof fn law_round_keeps_leaves(e: EmbeddingMatrix, f: Seq<BTree>, n: nat)
    ensures
        leaves_of(next_forest(e, f)).to_multiset() == leaves_of(f).to_multiset(),
        is_partition(f, n) ==> is_partition(next_forest(e, f), n),
{
    law_plan_pairs_ordered(e, f);
    lemma_resolve(f, plan_of(e, f));
}

/// A round never adds clusters, removes at least one from a forest of two
/// or more, removes at most half, and leaves a non-empty forest non-empty.
pub proof fn law_round_shrinks(e: EmbeddingMatrix, f: Seq<BTree>)
    ensures
        next_forest(e, f).len() <= f.len(),
        f.len() >= 2 ==> next_forest(e, f).len() < f.len(),
        2 * next_forest(e, f).len() >= f.len(),
        f.len() >= 1 ==> next_forest(e, f).len() >= 1,
{
    law_plan_pairs_ordered(e, f);
    lemma_plan_exists(e, f);
    let p = plan_of(e, f);
    lemma_resolve(f, p);
    if f.len() >= 2 {
        lemma_best_exists(e, f, 0);
        assert(p.contains(ordered_pair(0, scan_best(e, f, 0, f.len() as int))));
    }
    let g = next_forest(e, f);
    if f.len() >= 1 && g.len() == 0 {
        lemma_leaf_count(f);
        assert(leaves_of(g) =~= Seq::<usize>::empty());
        assert(leaves_of(f).to_multiset().len() == leaves_of(f).len()) by {
            broadcast use vstd::seq_lib::group_to_multiset_ensures;
        }
        assert(leaves_of(g).to_multiset().len() == 0) by {
            broadcast use vstd::seq_lib::group_to_multiset_ensures;
        }
    }
}

/// A round on a single cluster returns it unchanged.
pub proof fn law_single_cluster_stable(e: EmbeddingMatrix, f: Seq<BTree>)
    requires
        f.len() == 1,
    ensures
        next_forest(e, f) == f,
{
    law_plan_pairs_ordered(e, f);
    let p = plan_of(e, f);
    if p.len() > 0 {
        assert(is_pair_of(f, p[0]));
    }
    lemma_resolve(f, p);
}

/// After `k` rounds from `n >= 1` clusters at least one cluster is left,
/// and at most `n - k` when that is more than one.
pub proof fn lemma_rounds_count(e: EmbeddingMatrix, f: Seq<BTree>, k: nat)
    requires
        f.len() >= 1,
    ensures
        rounds(e, f, k).len() >= 1,
        rounds(e, f, k).len() <= f.len(),
        rounds(e, f, k).len() == 1 || rounds(e, f, k).len() + k <= f.len(),
    decreases k,
{
    if k > 0 && f.len() > 1 {
        law_round_shrinks(e, f);
        lemma_rounds_count(e, next_forest(e, f), (k - 1) as nat);
    }
}

/// From `n >= 1` clusters, `n - 1` rounds leave exactly one.
pub proof fn law_rounds_reach_one(e: EmbeddingMatrix, f: Seq<BTree>)
    requires
        f.len() >= 1,
    ensures
        rounds(e, f, (f.len() - 1) as nat).len() == 1,
{
    lemma_rounds_count(e, f, (f.len() - 1) as nat);
}

/// The ordering rules leave no choice: a sequence that lists each proposed
/// pair once in plan order is the forest's plan, so any run of a round on
/// the same input makes the same next forest.
pub proof fn law_round_determined(e: EmbeddingMatrix, f: Seq<BTree>, p: Seq<(int, int)>)
    requires
        is_plan(e, f, p),
    ensures
        p == plan_of(e, f),
        resolve(f, p) == next_forest(e, f),
{
    lemma_plan_exists(e, f);
    lemma_plan_unique(e, f, p, plan_of(e, f));
}

} // verus!
