//! The round loop: repeated steps from a forest of single leaves.
use vstd::prelude::*;
use crate::embedding::EmbeddingMatrix;
use crate::error::ClusterError;
use crate::tree::BTree;
use crate::engine::{forest_fits, leaves_of};
use crate::resolve::{cluster_step, next_forest};

verus! {

/// The forest after up to `k` rounds from `f`, stopping early at a single
/// cluster.
pub open spec fn rounds(e: EmbeddingMatrix, f: Seq<BTree>, k: nat) -> Seq<BTree>
    decreases k,
{
    if k == 0 || f.len() <= 1 {
        f
    } else {
        rounds(e, next_forest(e, f), (k - 1) as nat)
    }
}

/// The indices `0..n`, in order.
pub open spec fn index_seq(n: nat) -> Seq<usize> {
    Seq::new(n, |i: int| i as usize)
}

/// `f` holds each index of `0..n` exactly once.
pub open spec fn is_partition(f: Seq<BTree>, n: nat) -> bool {
    leaves_of(f).to_multiset() == index_seq(n).to_multiset()
}

/// The forest of one leaf for each index `0..n`, in order.
pub fn singletons(n: usize) -> (r: Vec<BTree>)
    ensures
        r@.len() == n,
        forall|i: int| 0 <= i < n ==> #[trigger] r@[i] == BTree::Leaf(i as usize),
        leaves_of(r@) == index_seq(n as nat),
        is_partition(r@, n as nat),
{
    let mut out: Vec<BTree> = Vec::new();
    let mut i: usize = 0;
    while i < n
        invariant
            i <= n,
            out@.len() == i,
            forall|m: int| 0 <= m < i ==> #[trigger] out@[m] == BTree::Leaf(m as usize),
            leaves_of(out@) == index_seq(i as nat),
        decreases n - i,
    {
        let ghost before = out@;
        out.push(BTree::Leaf(i));
        proof {
            assert(out@.drop_last() =~= before);
            assert(leaves_of(out@) =~= index_seq((i + 1) as nat));
        }
        i = i + 1;
    }
    out
}

/// Runs rounds from `forest` until one cluster is left or `max_rounds`
/// rounds have run. Each round merges at least once while two clusters
/// remain, so `n - 1` rounds bring a forest of `n` clusters to one.
/// Fails with `EmptyForest` on a forest without clusters.
pub fn cluster(forest: Vec<BTree>, embeddings: &EmbeddingMatrix, max_rounds: usize) -> (r: Result<Vec<BTree>, ClusterError>)
    requires
        embeddings.wf(),
        forest_fits(*embeddings, forest@),
    ensures
        forest@.len() == 0 <==> r == Err::<Vec<BTree>, ClusterError>(ClusterError::EmptyForest),
        forest@.len() > 0 <==> r is Ok,
        r is Ok ==> {
            &&& r->Ok_0@ == rounds(*embeddings, forest@, max_rounds as nat)
            &&& leaves_of(r->Ok_0@).to_multiset() == leaves_of(forest@).to_multiset()
            &&& forall|n: nat| is_partition(forest@, n) ==> #[trigger] is_partition(r->Ok_0@, n)
            &&& 1 <= r->Ok_0@.len() <= forest@.len()
            &&& max_rounds + 1 >= forest@.len() ==> r->Ok_0@.len() == 1
        },
{
    if forest.len() == 0 {
        return Err(ClusterError::EmptyForest);
    }
    let ghost f = forest@;
    let mut cur = forest;
    let mut i: usize = 0;
    while i < max_rounds && cur.len() > 1
        invariant
            embeddings.wf(),
            forest_fits(*embeddings, cur@),
            i <= max_rounds,
            1 <= cur@.len(),
            cur@.len() + i <= f.len(),
            rounds(*embeddings, f, max_rounds as nat) == rounds(*embeddings, cur@, (max_rounds - i) as nat),
            leaves_of(cur@).to_multiset() == leaves_of(f).to_multiset(),
        decreases max_rounds - i,
    {
        let ghost prev = cur@;
        match cluster_step(&cur, embeddings) {
            Ok(next) => {
                cur = next;
            },
            Err(_) => {
                return Err(ClusterError::EmptyForest);
            },
        }
        proof {
            assert(rounds(*embeddings, prev, (max_rounds - i) as nat) == rounds(*embeddings, cur@, (max_rounds - i - 1) as nat));
        }
        i = i + 1;
    }
    Ok(cur)
}

} // verus!
