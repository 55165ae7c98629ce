//! The merge plan: every cluster's proposal, without repeats, ordered by
//! similarity (greatest first) and then by the pair of indices.
use vstd::prelude::*;
use crate::embedding::EmbeddingMatrix;
use crate::tree::BTree;
use crate::similarity::{PairSim, ratio_gt, lemma_ratio_gt_trans};
use crate::centroid::sim_bounded;
use crate::engine::{
    forest_fits, is_best, lemma_best_exists, lemma_best_unique, lemma_sim_den_positive, proposals,
    scan_best, sim_of, ForestSums,
};

verus! {

/// `x` comes before `y` in a merge plan: its similarity is greater, or the
/// similarities are equal and its index pair is lexicographically smaller.
pub open spec fn precedes(e: EmbeddingMatrix, f: Seq<BTree>, x: (int, int), y: (int, int)) -> bool {
    let sx = sim_of(e, f, x.0, x.1);
    let sy = sim_of(e, f, y.0, y.1);
    ratio_gt(sx, sy) || (!ratio_gt(sy, sx) && (x.0 < y.0 || (x.0 == y.0 && x.1 < y.1)))
}

/// Indices `x.0 < x.1` of two clusters of `f`.
pub open spec fn is_pair_of(f: Seq<BTree>, x: (int, int)) -> bool {
    0 <= x.0 < x.1 < f.len()
}

/// Some cluster of `x` has the other as its best partner.
pub open spec fn proposed(e: EmbeddingMatrix, f: Seq<BTree>, x: (int, int)) -> bool {
    &&& is_pair_of(f, x)
    &&& is_best(e, f, x.0, x.1) || is_best(e, f, x.1, x.0)
}

/// The index pairs of a list of records.
pub open spec fn pairs(p: Seq<PairSim>) -> Seq<(int, int)> {
    p.map_values(|c: PairSim| c.pair())
}

/// `p` lists each proposed pair of `f` once, in plan order.
pub open spec fn is_plan(e: EmbeddingMatrix, f: Seq<BTree>, p: Seq<(int, int)>) -> bool {
    &&& forall|a: int, b: int| 0 <= a < b < p.len() ==> precedes(e, f, #[trigger] p[a], #[trigger] p[b])
    &&& forall|x: (int, int)| p.contains(x) <==> proposed(e, f, x)
}

/// The merge plan of forest `f`.
pub open spec fn plan_of(e: EmbeddingMatrix, f: Seq<BTree>) -> Seq<(int, int)> {
    choose|p: Seq<(int, int)>| is_plan(e, f, p)
}

/// Plan order is a strict order on the pairs of a forest: irreflexive,
/// asymmetric, transitive, and total on distinct pairs.
pub proof fn lemma_precedes_order(e: EmbeddingMatrix, f: Seq<BTree>, x: (int, int), y: (int, int), z: (int, int))
    requires
        is_pair_of(f, x),
        is_pair_of(f, y),
        is_pair_of(f, z),
    ensures
        !precedes(e, f, x, x),
        precedes(e, f, x, y) ==> !precedes(e, f, y, x),
        precedes(e, f, x, y) && precedes(e, f, y, z) ==> precedes(e, f, x, z),
        x != y ==> precedes(e, f, x, y) || precedes(e, f, y, x),
{
    let sx = sim_of(e, f, x.0, x.1);
    let sy = sim_of(e, f, y.0, y.1);
    let sz = sim_of(e, f, z.0, z.1);
    lemma_sim_den_positive(e, f, x.0, x.1);
    lemma_sim_den_positive(e, f, y.0, y.1);
    lemma_sim_den_positive(e, f, z.0, z.1);
    if precedes(e, f, x, y) && precedes(e, f, y, z) {
        if ratio_gt(sx, sy) || ratio_gt(sy, sz) {
            lemma_ratio_gt_trans(sx, sy, sz);
        } else {
            assert(sx.0 * sy.1 == sy.0 * sx.1);
            assert(sy.0 * sz.1 == sz.0 * sy.1);
            if ratio_gt(sx, sz) {
                lemma_ratio_gt_trans(sx, sz, sy);
            } else if ratio_gt(sz, sx) {
                lemma_ratio_gt_trans(sz, sx, sy);
            }
        }
    }
}

/// Two sequences in plan order with the same elements are equal.
pub proof fn lemma_sorted_unique(e: EmbeddingMatrix, f: Seq<BTree>, p: Seq<(int, int)>, q: Seq<(int, int)>)
    requires
        forall|a: int, b: int| 0 <= a < b < p.len() ==> precedes(e, f, #[trigger] p[a], #[trigger] p[b]),
        forall|a: int, b: int| 0 <= a < b < q.len() ==> precedes(e, f, #[trigger] q[a], #[trigger] q[b]),
        forall|x: (int, int)| p.contains(x) ==> is_pair_of(f, x),
        forall|x: (int, int)| p.contains(x) <==> q.contains(x),
    ensures
        p == q,
    decreases p.len(),
{
    if p.len() == 0 {
        if q.len() > 0 {
            assert(q.contains(q[0]));
        }
        assert(p =~= q);
    } else {
        assert(p.contains(p[0]));
        assert(q.len() > 0);
        assert(q.contains(q[0]));
        let i = choose|i: int| 0 <= i < q.len() && q[i] == p[0];
        let j = choose|j: int| 0 <= j < p.len() && p[j] == q[0];
        if p[0] != q[0] {
            assert(p.contains(q[0]));
            lemma_precedes_order(e, f, p[0], q[0], p[0]);
            assert(i > 0);
            assert(j > 0);
            assert(precedes(e, f, q[0], q[i]));
            assert(precedes(e, f, p[0], p[j]));
            assert(false);
        }
        let pt = p.drop_first();
        let qt = q.drop_first();
        assert forall|x: (int, int)| pt.contains(x) <==> qt.contains(x) by {
            if pt.contains(x) {
                let a = choose|a: int| 0 <= a < pt.len() && pt[a] == x;
                assert(p[a + 1] == x);
                assert(p.contains(x));
                assert(precedes(e, f, p[0], p[a + 1]));
                lemma_precedes_order(e, f, p[0], x, x);
                assert(x != q[0]);
                let b = choose|b: int| 0 <= b < q.len() && q[b] == x;
                assert(b != 0);
                assert(qt[b - 1] == x);
            }
            if qt.contains(x) {
                let a = choose|a: int| 0 <= a < qt.len() && qt[a] == x;
                assert(q[a + 1] == x);
                assert(q.contains(x));
                assert(p.contains(x));
                assert(precedes(e, f, q[0], q[a + 1]));
                lemma_precedes_order(e, f, q[0], x, x);
                assert(x != p[0]);
                let b = choose|b: int| 0 <= b < p.len() && p[b] == x;
                assert(b != 0);
                assert(pt[b - 1] == x);
            }
        }
        assert forall|x: (int, int)| pt.contains(x) implies is_pair_of(f, x) by {
            let a = choose|a: int| 0 <= a < pt.len() && pt[a] == x;
            assert(p[a + 1] == x);
        }
        assert forall|a: int, b: int| 0 <= a < b < pt.len() implies precedes(e, f, #[trigger] pt[a], #[trigger] pt[b]) by {
            assert(precedes(e, f, p[a + 1], p[b + 1]));
        }
        assert forall|a: int, b: int| 0 <= a < b < qt.len() implies precedes(e, f, #[trigger] qt[a], #[trigger] qt[b]) by {
            assert(precedes(e, f, q[a + 1], q[b + 1]));
        }
        lemma_sorted_unique(e, f, pt, qt);
        assert(p =~= seq![p[0]] + pt);
        assert(q =~= seq![q[0]] + qt);
    }
}

/// `p` is in plan order.
pub open spec fn in_plan_order(e: EmbeddingMatrix, f: Seq<BTree>, p: Seq<(int, int)>) -> bool {
    forall|a: int, b: int| 0 <= a < b < p.len() ==> precedes(e, f, #[trigger] p[a], #[trigger] p[b])
}

/// Every element of `p` is a pair of clusters of `f`.
pub open spec fn all_pairs_of(f: Seq<BTree>, p: Seq<(int, int)>) -> bool {
    forall|x: (int, int)| p.contains(x) ==> is_pair_of(f, x)
}

/// `x` placed into the ordered sequence `s`, unless it is there already.
pub open spec fn insert_ordered(e: EmbeddingMatrix, f: Seq<BTree>, s: Seq<(int, int)>, x: (int, int)) -> Seq<(int, int)>
    decreases s.len(),
{
    if s.len() == 0 {
        seq![x]
    } else if s[0] == x {
        s
    } else if precedes(e, f, x, s[0]) {
        seq![x] + s
    } else {
        seq![s[0]] + insert_ordered(e, f, s.drop_first(), x)
    }
}

/// Inserting keeps the order and adds exactly `x`.
pub proof fn lemma_insert_ordered(e: EmbeddingMatrix, f: Seq<BTree>, s: Seq<(int, int)>, x: (int, int))
    requires
        in_plan_order(e, f, s),
        all_pairs_of(f, s),
        is_pair_of(f, x),
    ensures
        in_plan_order(e, f, insert_ordered(e, f, s, x)),
        forall|y: (int, int)| #[trigger] insert_ordered(e, f, s, x).contains(y) <==> (s.contains(y) || y == x),
        all_pairs_of(f, insert_ordered(e, f, s, x)),
    decreases s.len(),
{
    let r = insert_ordered(e, f, s, x);
    if s.len() == 0 {
        assert(r =~= seq![x]);
        assert forall|y: (int, int)| r.contains(y) <==> (s.contains(y) || y == x) by {
            if r.contains(y) {
                let a = choose|a: int| 0 <= a < r.len() && r[a] == y;
            }
            if y == x {
                assert(r[0] == x);
            }
        }
    } else if s[0] == x {
        assert(s.contains(s[0]));
    } else if precedes(e, f, x, s[0]) {
        assert(s.contains(s[0]));
        assert forall|a: int, b: int| 0 <= a < b < r.len() implies precedes(e, f, #[trigger] r[a], #[trigger] r[b]) by {
            if a == 0 {
                if b > 1 {
                    assert(s.contains(s[b - 1]));
                    lemma_precedes_order(e, f, x, s[0], s[b - 1]);
                }
            } else {
                assert(r[a] == s[a - 1] && r[b] == s[b - 1]);
            }
        }
        assert forall|y: (int, int)| r.contains(y) <==> (s.contains(y) || y == x) by {
            if r.contains(y) {
                let a = choose|a: int| 0 <= a < r.len() && r[a] == y;
                if a > 0 {
                    assert(s[a - 1] == y);
                }
            }
            if s.contains(y) {
                let a = choose|a: int| 0 <= a < s.len() && s[a] == y;
                assert(r[a + 1] == y);
            }
            if y == x {
                assert(r[0] == y);
            }
        }
    } else {
        let t = s.drop_first();
        assert(s.contains(s[0]));
        assert forall|a: int, b: int| 0 <= a < b < t.len() implies precedes(e, f, #[trigger] t[a], #[trigger] t[b]) by {
            assert(t[a] == s[a + 1] && t[b] == s[b + 1]);
        }
        assert forall|y: (int, int)| t.contains(y) implies is_pair_of(f, y) by {
            let a = choose|a: int| 0 <= a < t.len() && t[a] == y;
            assert(s[a + 1] == y);
        }
        lemma_insert_ordered(e, f, t, x);
        let rest = insert_ordered(e, f, t, x);
        lemma_precedes_order(e, f, x, s[0], x);
        assert(precedes(e, f, s[0], x));
        assert forall|y: (int, int)| r.contains(y) <==> (s.contains(y) || y == x) by {
            if r.contains(y) {
                let a = choose|a: int| 0 <= a < r.len() && r[a] == y;
                if a > 0 {
                    assert(rest[a - 1] == y);
                    assert(rest.contains(y));
                    if t.contains(y) {
                        let c = choose|c: int| 0 <= c < t.len() && t[c] == y;
                        assert(s[c + 1] == y);
                    }
                }
            }
            if s.contains(y) {
                let a = choose|a: int| 0 <= a < s.len() && s[a] == y;
                if a > 0 {
                    assert(t[a - 1] == y);
                    assert(t.contains(y));
                    assert(rest.contains(y));
                    let c = choose|c: int| 0 <= c < rest.len() && rest[c] == y;
                    assert(r[c + 1] == y);
                } else {
                    assert(r[0] == y);
                }
            }
            if y == x {
                assert(rest.contains(y));
                let c = choose|c: int| 0 <= c < rest.len() && rest[c] == y;
                assert(r[c + 1] == y);
            }
        }
        assert forall|a: int, b: int| 0 <= a < b < r.len() implies precedes(e, f, #[trigger] r[a], #[trigger] r[b]) by {
            if a == 0 {
                let y = rest[b - 1];
                assert(rest.contains(y));
                if y != x {
                    assert(t.contains(y));
                    let c = choose|c: int| 0 <= c < t.len() && t[c] == y;
                    assert(s[c + 1] == y);
                }
            } else {
                assert(r[a] == rest[a - 1] && r[b] == rest[b - 1]);
            }
        }
    }
}

/// The pair of clusters `i` and `j`, smaller index first.
pub open spec fn ordered_pair(i: int, j: int) -> (int, int) {
    if i < j {
        (i, j)
    } else {
        (j, i)
    }
}

/// The proposals of clusters `0..n`, placed in plan order one by one.
pub open spec fn collected(e: EmbeddingMatrix, f: Seq<BTree>, n: int) -> Seq<(int, int)>
    decreases n,
{
    if n <= 0 {
        seq![]
    } else {
        insert_ordered(e, f, collected(e, f, n - 1), ordered_pair(n - 1, scan_best(e, f, n - 1, f.len() as int)))
    }
}

/// The collected proposals are in plan order and hold exactly the
/// proposals of clusters `0..n`.
pub proof fn lemma_collected(e: EmbeddingMatrix, f: Seq<BTree>, n: int)
    requires
        f.len() >= 2,
        0 <= n <= f.len(),
    ensures
        in_plan_order(e, f, collected(e, f, n)),
        all_pairs_of(f, collected(e, f, n)),
        forall|y: (int, int)| collected(e, f, n).contains(y) <==>
            exists|i: int| 0 <= i < n && y == ordered_pair(i, #[trigger] scan_best(e, f, i, f.len() as int)),
    decreases n,
{
    if n > 0 {
        lemma_collected(e, f, n - 1);
        let i = n - 1;
        let j = scan_best(e, f, i, f.len() as int);
        lemma_best_exists(e, f, i);
        lemma_insert_ordered(e, f, collected(e, f, n - 1), ordered_pair(i, j));
        assert forall|y: (int, int)| collected(e, f, n).contains(y) <==>
            exists|m: int| 0 <= m < n && y == ordered_pair(m, #[trigger] scan_best(e, f, m, f.len() as int)) by {
            if collected(e, f, n - 1).contains(y) {
                let m = choose|m: int| 0 <= m < n - 1 && y == ordered_pair(m, #[trigger] scan_best(e, f, m, f.len() as int));
            }
            if exists|m: int| 0 <= m < n && y == ordered_pair(m, #[trigger] scan_best(e, f, m, f.len() as int)) {
                let m = choose|m: int| 0 <= m < n && y == ordered_pair(m, #[trigger] scan_best(e, f, m, f.len() as int));
                if m < n - 1 {
                    assert(collected(e, f, n - 1).contains(y));
                }
            }
        }
    } else {
        assert(collected(e, f, n) =~= Seq::<(int, int)>::empty());
    }
}

/// Every forest has a merge plan.
pub proof fn lemma_plan_exists(e: EmbeddingMatrix, f: Seq<BTree>)
    ensures
        is_plan(e, f, plan_of(e, f)),
{
    if f.len() < 2 {
        let p = Seq::<(int, int)>::empty();
        assert(is_plan(e, f, p));
    } else {
        let n = f.len() as int;
        lemma_collected(e, f, n);
        let p = collected(e, f, n);
        assert forall|x: (int, int)| p.contains(x) <==> proposed(e, f, x) by {
            if p.contains(x) {
                let i = choose|i: int| 0 <= i < n && x == ordered_pair(i, #[trigger] scan_best(e, f, i, n));
                lemma_best_exists(e, f, i);
            }
            if proposed(e, f, x) {
                let (l, r) = x;
                if is_best(e, f, l, r) {
                    lemma_best_exists(e, f, l);
                    lemma_best_unique(e, f, l, r, scan_best(e, f, l, n));
                    assert(x == ordered_pair(l, scan_best(e, f, l, n)));
                } else {
                    lemma_best_exists(e, f, r);
                    lemma_best_unique(e, f, r, l, scan_best(e, f, r, n));
                    assert(x == ordered_pair(r, scan_best(e, f, r, n)));
                }
            }
        }
        assert(is_plan(e, f, p));
    }
}

/// A forest has at most one merge plan.
pub proof fn lemma_plan_unique(e: EmbeddingMatrix, f: Seq<BTree>, p: Seq<(int, int)>, q: Seq<(int, int)>)
    requires
        is_plan(e, f, p),
        is_plan(e, f, q),
    ensures
        p == q,
{
    lemma_sorted_unique(e, f, p, q);
}

/// `c` is a record of forest `f`: an index pair with its exact similarity.
pub open spec fn record_of(e: EmbeddingMatrix, f: Seq<BTree>, c: PairSim) -> bool {
    &&& is_pair_of(f, c.pair())
    &&& c.sim.ratio() == sim_of(e, f, c.left as int, c.right as int)
    &&& sim_bounded(c.sim)
}

/// Plan order on two records with bounded similarities.
fn record_precedes(a: &PairSim, b: &PairSim, Ghost(e): Ghost<EmbeddingMatrix>, Ghost(f): Ghost<Seq<BTree>>) -> (r: bool)
    requires
        record_of(e, f, *a),
        record_of(e, f, *b),
    ensures
        r == precedes(e, f, a.pair(), b.pair()),
{
    a.comes_before(b)
}

/// The merge plan of `forest`: the proposal of every cluster (the pair of
/// it and its best partner), each pair once, ordered by similarity, greatest
/// first, then by index pair.
pub fn merge_plan(forest: &Vec<BTree>, e: &EmbeddingMatrix) -> (r: Vec<PairSim>)
    requires
        e.wf(),
        forest_fits(*e, forest@),
    ensures
        is_plan(*e, forest@, pairs(r@)),
        forall|m: int| 0 <= m < r@.len() ==> record_of(*e, forest@, #[trigger] r@[m]),
        forall|m: int| 0 <= m < r@.len() ==> (#[trigger] r@[m]).left < r@[m].right,
        forest@.len() >= 2 ==> r@.len() >= 1,
{
    let ghost f = forest@;
    proof { e.lemma_wf(); }
    let sums = ForestSums::new(forest, e);
    let props = proposals(&sums, Ghost(*e), Ghost(f));
    let ghost pp = pairs(props@);
    let mut plan: Vec<PairSim> = Vec::new();
    let mut t: usize = 0;
    while t < props.len()
        invariant
            pp == pairs(props@),
            t <= props@.len(),
            props@.len() == (if f.len() >= 2 { f.len() } else { 0 }),
            forall|i: int| 0 <= i < props@.len() ==> {
                &&& (#[trigger] props@[i]).left < props@[i].right
                &&& props@[i].sim.ratio() == sim_of(*e, f, props@[i].left as int, props@[i].right as int)
                &&& sim_bounded(props@[i].sim)
                &&& (props@[i].left == i && is_best(*e, f, i, props@[i].right as int))
                    || (props@[i].right == i && is_best(*e, f, i, props@[i].left as int))
            },
            forall|m: int| 0 <= m < plan@.len() ==> record_of(*e, f, #[trigger] plan@[m]),
            forall|a: int, b: int| 0 <= a < b < plan@.len() ==> precedes(*e, f, #[trigger] pairs(plan@)[a], #[trigger] pairs(plan@)[b]),
            forall|x: (int, int)| pairs(plan@).contains(x) <==> pp.take(t as int).contains(x),
        decreases props@.len() - t,
    {
        let c = props[t];
        proof {
            assert(props@[t as int] == c);
            assert(record_of(*e, f, c));
        }
        let mut q: usize = 0;
        while q < plan.len() && record_precedes(&plan[q], &c, Ghost(*e), Ghost(f))
            invariant
                q <= plan@.len(),
                record_of(*e, f, c),
                forall|m: int| 0 <= m < plan@.len() ==> record_of(*e, f, #[trigger] plan@[m]),
                forall|m: int| 0 <= m < q ==> precedes(*e, f, #[trigger] plan@[m].pair(), c.pair()),
            decreases plan@.len() - q,
        {
            q = q + 1;
        }
        let ghost old_plan = plan@;
        let ghost next = pp.take(t + 1);
        let ghost prev = pp.take(t as int);
        proof {
            assert(next =~= prev.push(c.pair()));
        }
        if q < plan.len() && plan[q].left == c.left && plan[q].right == c.right {
            proof {
                assert(pairs(plan@)[q as int] == c.pair());
                assert forall|x: (int, int)| pairs(plan@).contains(x) <==> next.contains(x) by {
                    if x == c.pair() {
                        assert(next[t as int] == x);
                    } else if next.contains(x) {
                        let i = choose|i: int| 0 <= i < t + 1 && next[i] == x;
                        assert(prev[i] == x);
                    }
                }
            }
        } else {
            plan.insert(q, c);
            proof {
                assert(pairs(plan@) =~= pairs(old_plan).insert(q as int, c.pair()));
                if q < old_plan.len() {
                    lemma_precedes_order(*e, f, old_plan[q as int].pair(), c.pair(), c.pair());
                }
                assert forall|a: int, b: int| 0 <= a < b < plan@.len() implies precedes(*e, f, #[trigger] pairs(plan@)[a], #[trigger] pairs(plan@)[b]) by {
                    if b < q {
                        assert(precedes(*e, f, pairs(old_plan)[a], pairs(old_plan)[b]));
                    } else if b == q {
                        assert(precedes(*e, f, old_plan[a].pair(), c.pair()));
                    } else if a == q {
                        if b > q + 1 {
                            assert(precedes(*e, f, pairs(old_plan)[q as int], pairs(old_plan)[b - 1]));
                            lemma_precedes_order(*e, f, c.pair(), old_plan[q as int].pair(), old_plan[b - 1].pair());
                        }
                    } else if a < q {
                        assert(precedes(*e, f, pairs(old_plan)[a], pairs(old_plan)[b - 1]));
                    } else {
                        assert(precedes(*e, f, pairs(old_plan)[a - 1], pairs(old_plan)[b - 1]));
                    }
                }
                assert forall|x: (int, int)| pairs(plan@).contains(x) <==> next.contains(x) by {
                    if x == c.pair() {
                        assert(next[t as int] == x);
                        assert(pairs(plan@)[q as int] == x);
                    } else {
                        if next.contains(x) {
                            let i = choose|i: int| 0 <= i < t + 1 && next[i] == x;
                            assert(prev[i] == x);
                            assert(prev.contains(x));
                            assert(pairs(old_plan).contains(x));
                            let j = choose|j: int| 0 <= j < old_plan.len() && pairs(old_plan)[j] == x;
                            if j < q {
                                assert(pairs(plan@)[j] == x);
                            } else {
                                assert(pairs(plan@)[j + 1] == x);
                            }
                        }
                        if pairs(plan@).contains(x) {
                            let j = choose|j: int| 0 <= j < plan@.len() && pairs(plan@)[j] == x;
                            if j < q {
                                assert(pairs(old_plan)[j] == x);
                            } else {
                                assert(pairs(old_plan)[j - 1] == x);
                            }
                            assert(pairs(old_plan).contains(x));
                            assert(prev.contains(x));
                            let i = choose|i: int| 0 <= i < prev.len() && prev[i] == x;
                            assert(next[i] == x);
                        }
                    }
                }
                assert forall|m: int| 0 <= m < plan@.len() implies record_of(*e, f, #[trigger] plan@[m]) by {
                    if m < q {
                        assert(plan@[m] == old_plan[m]);
                    } else if m > q {
                        assert(plan@[m] == old_plan[m - 1]);
                    }
                }
            }
        }
        t = t + 1;
    }
    proof {
        assert(pp.take(t as int) =~= pp);
        if f.len() >= 2 {
            assert(pp.contains(pp[0]));
            assert(pairs(plan@).contains(pp[0]));
        }
        assert forall|x: (int, int)| pairs(plan@).contains(x) <==> proposed(*e, f, x) by {
            if pp.contains(x) {
                let i = choose|i: int| 0 <= i < pp.len() && pp[i] == x;
                assert(props@[i].pair() == x);
            }
            if proposed(*e, f, x) {
                assert(f.len() >= 2);
                let (l, r) = x;
                if is_best(*e, f, l, r) {
                    let c = props@[l];
                    if c.left == l {
                        lemma_best_unique(*e, f, l, r, c.right as int);
                    } else {
                        lemma_best_unique(*e, f, l, r, c.left as int);
                    }
                    assert(pp[l] == x);
                } else {
                    let c = props@[r];
                    if c.right == r {
                        lemma_best_unique(*e, f, r, l, c.left as int);
                    } else {
                        lemma_best_unique(*e, f, r, l, c.right as int);
                    }
                    assert(pp[r] == x);
                }
            }
        }
    }
    plan
}

} // verus!
