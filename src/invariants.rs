//! What a round keeps: every leaf, each as often as before, and the
//! count of clusters.
use vstd::prelude::*;
use vstd::multiset::Multiset;
use vstd::seq_lib::lemma_multiset_commutative;
use crate::tree::BTree;
use crate::engine::leaves_of;
use crate::plan::is_pair_of;
use crate::resolve::{carried, join, resolve, walk};

verus! {

broadcast use {vstd::seq_lib::group_to_multiset_ensures, vstd::multiset::group_multiset_axioms};

/// The leaves of a forest, counted with multiplicity.
pub open spec fn forest_ms(f: Seq<BTree>) -> Multiset<usize>
    decreases f.len(),
{
    if f.len() == 0 {
        Multiset::empty()
    } else {
        forest_ms(f.drop_last()).add(f.last().leaves().to_multiset())
    }
}

/// `forest_ms` counts the leaves of `leaves_of`.
pub proof fn lemma_leaves_of_ms(f: Seq<BTree>)
    ensures
        leaves_of(f).to_multiset() == forest_ms(f),
    decreases f.len(),
{
    if f.len() == 0 {
        assert(leaves_of(f).to_multiset() =~= Multiset::empty());
    } else {
        lemma_leaves_of_ms(f.drop_last());
        lemma_multiset_commutative(leaves_of(f.drop_last()), f.last().leaves());
    }
}

/// `forest_ms` of a concatenation is the sum of the parts.
pub proof fn lemma_forest_ms_concat(a: Seq<BTree>, b: Seq<BTree>)
    ensures
        forest_ms(a + b) == forest_ms(a).add(forest_ms(b)),
    decreases b.len(),
{
    if b.len() == 0 {
        assert(a + b =~= a);
        assert(forest_ms(a).add(forest_ms(b)) =~= forest_ms(a));
    } else {
        lemma_forest_ms_concat(a, b.drop_last());
        assert((a + b).drop_last() =~= a + b.drop_last());
        assert(forest_ms(a + b) =~= forest_ms(a).add(forest_ms(b)));
    }
}

/// A merged node holds the leaves of both trees.
pub proof fn lemma_join_ms(a: BTree, b: BTree)
    ensures
        join(a, b).leaves().to_multiset() == a.leaves().to_multiset().add(b.leaves().to_multiset()),
{
    lemma_multiset_commutative(a.leaves(), b.leaves());
    lemma_multiset_commutative(b.leaves(), a.leaves());
    assert(a.leaves().to_multiset().add(b.leaves().to_multiset()) =~= b.leaves().to_multiset().add(a.leaves().to_multiset()));
}

/// With nothing taken, the first `n` clusters are all carried.
pub proof fn lemma_carried_none_taken(f: Seq<BTree>, n: int)
    requires
        0 <= n <= f.len(),
    ensures
        carried(f, Seq::new(f.len(), |i: int| false), n) == f.take(n),
    decreases n,
{
    if n > 0 {
        lemma_carried_none_taken(f, n - 1);
        assert(f.take(n) =~= f.take(n - 1).push(f[n - 1]));
    }
}

/// Taking free cluster `l` removes exactly it from the carried clusters.
pub proof fn lemma_carried_take(f: Seq<BTree>, taken: Seq<bool>, l: int, n: int)
    requires
        taken.len() == f.len(),
        0 <= l < n <= f.len(),
        !taken[l],
    ensures
        forest_ms(carried(f, taken.update(l, true), n)).add(f[l].leaves().to_multiset())
            == forest_ms(carried(f, taken, n)),
        carried(f, taken.update(l, true), n).len() + 1 == carried(f, taken, n).len(),
    decreases n,
{
    let t2 = taken.update(l, true);
    let last = if taken[n - 1] { seq![] } else { seq![f[n - 1]] };
    lemma_forest_ms_concat(carried(f, taken, n - 1), last);
    if l == n - 1 {
        assert forall|m: int| 0 <= m <= n - 1 implies carried(f, t2, m) == carried(f, taken, m) by {
            lemma_carried_same_prefix(f, taken, t2, m);
        }
        assert(carried(f, t2, n) =~= carried(f, taken, n - 1));
        assert(forest_ms(last) =~= f[l].leaves().to_multiset()) by {
            assert(last == seq![f[l]]);
            assert(last.drop_last() =~= Seq::<BTree>::empty());
            assert(forest_ms(last.drop_last()) == Multiset::<usize>::empty());
            assert(last.last() == f[l]);
        }
    } else {
        lemma_carried_take(f, taken, l, n - 1);
        let last2 = if t2[n - 1] { seq![] } else { seq![f[n - 1]] };
        assert(last2 == last);
        lemma_forest_ms_concat(carried(f, t2, n - 1), last);
        assert(forest_ms(carried(f, t2, n)).add(f[l].leaves().to_multiset()) =~= forest_ms(carried(f, taken, n)));
    }
}

/// Carried clusters depend only on the flags of the clusters considered.
pub proof fn lemma_carried_same_prefix(f: Seq<BTree>, a: Seq<bool>, b: Seq<bool>, n: int)
    requires
        0 <= n <= a.len(),
        n <= b.len(),
        forall|m: int| 0 <= m < n ==> a[m] == b[m],
    ensures
        carried(f, a, n) == carried(f, b, n),
    decreases n,
{
    if n > 0 {
        lemma_carried_same_prefix(f, a, b, n - 1);
    }
}

/// Walking a plan of valid pairs keeps every leaf, each once per
/// occurrence, between the merged nodes and the free clusters; each merge
/// takes two clusters; and the first pair of a plan always merges.
pub proof fn lemma_walk(f: Seq<BTree>, p: Seq<(int, int)>)
    requires
        forall|m: int| 0 <= m < p.len() ==> is_pair_of(f, #[trigger] p[m]),
    ensures
        walk(f, p).1.len() == f.len(),
        forest_ms(walk(f, p).0).add(forest_ms(carried(f, walk(f, p).1, f.len() as int))) == forest_ms(f),
        2 * walk(f, p).0.len() + carried(f, walk(f, p).1, f.len() as int).len() == f.len(),
        p.len() >= 1 ==> walk(f, p).0.len() >= 1,
    decreases p.len(),
{
    let n = f.len() as int;
    if p.len() == 0 {
        lemma_carried_none_taken(f, n);
        assert(f.take(n) =~= f);
        assert(forest_ms(walk(f, p).0).add(forest_ms(f)) =~= forest_ms(f));
    } else {
        let q = p.drop_last();
        assert forall|m: int| 0 <= m < q.len() implies is_pair_of(f, #[trigger] q[m]) by {
            assert(q[m] == p[m]);
        }
        lemma_walk(f, q);
        assert(is_pair_of(f, p[p.len() - 1]));
        let (l, r) = p.last();
        let prev = walk(f, q);
        if !prev.1[l] && !prev.1[r] {
            let t1 = prev.1.update(l, true);
            let t2 = t1.update(r, true);
            lemma_carried_take(f, prev.1, l, n);
            lemma_carried_take(f, t1, r, n);
            lemma_join_ms(f[l], f[r]);
            let ml = f[l].leaves().to_multiset();
            let mr = f[r].leaves().to_multiset();
            assert(forest_ms(prev.0.push(join(f[l], f[r]))) == forest_ms(prev.0).add(join(f[l], f[r]).leaves().to_multiset())) by {
                assert(prev.0.push(join(f[l], f[r])).drop_last() =~= prev.0);
            }
            assert(forest_ms(walk(f, p).0).add(forest_ms(carried(f, walk(f, p).1, n))) =~= forest_ms(f));
        }
    }
}

/// One round over a plan of valid pairs keeps every leaf, each as often as
/// before, and leaves one cluster fewer per merge; a non-empty plan makes at
/// least one merge.
pub proof fn lemma_resolve(f: Seq<BTree>, p: Seq<(int, int)>)
    requires
        forall|m: int| 0 <= m < p.len() ==> is_pair_of(f, #[trigger] p[m]),
    ensures
        leaves_of(resolve(f, p)).to_multiset() == leaves_of(f).to_multiset(),
        resolve(f, p).len() + walk(f, p).0.len() == f.len(),
        2 * resolve(f, p).len() >= f.len(),
        p.len() >= 1 ==> resolve(f, p).len() < f.len(),
        p.len() == 0 ==> resolve(f, p) == f,
{
    lemma_walk(f, p);
    let w = walk(f, p);
    lemma_forest_ms_concat(w.0, carried(f, w.1, f.len() as int));
    lemma_leaves_of_ms(resolve(f, p));
    lemma_leaves_of_ms(f);
    if p.len() == 0 {
        lemma_carried_none_taken(f, f.len() as int);
        assert(f.take(f.len() as int) =~= f);
        assert(resolve(f, p) =~= f);
    }
}

} // verus!
