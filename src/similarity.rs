//! Exact similarities between clusters and the merge candidates built on them.
use vstd::prelude::*;

verus! {

/// `a` is strictly greater than `b`, where each is a fraction
/// `(numerator, denominator)` with a positive denominator.
pub open spec fn ratio_gt(a: (int, int), b: (int, int)) -> bool {
    a.0 * b.1 > b.0 * a.1
}

/// Greater-or-equal on fractions with positive denominators is transitive.
pub proof fn lemma_ratio_ge_trans(a: (int, int), b: (int, int), c: (int, int))
    requires
        a.1 > 0,
        b.1 > 0,
        c.1 > 0,
        !ratio_gt(b, a),
        !ratio_gt(c, b),
    ensures
        !ratio_gt(c, a),
{
    let (an, ad) = a;
    let (bn, bd) = b;
    let (cn, cd) = c;
    assert(cn * ad <= an * cd) by (nonlinear_arith)
        requires
            ad > 0, bd > 0, cd > 0,
            bn * ad <= an * bd,
            cn * bd <= bn * cd,
    {
        assert(bn * ad * cd <= an * bd * cd) by (nonlinear_arith)
            requires bn * ad <= an * bd, cd > 0;
        assert(cn * bd * ad <= bn * cd * ad) by (nonlinear_arith)
            requires cn * bd <= bn * cd, ad > 0;
        assert(cn * ad * bd <= an * cd * bd) by (nonlinear_arith)
            requires
                bn * ad * cd <= an * bd * cd,
                cn * bd * ad <= bn * cd * ad;
        assert(cn * ad <= an * cd) by (nonlinear_arith)
            requires cn * ad * bd <= an * cd * bd, bd > 0;
    }
}

/// Strictly-greater on fractions with positive denominators is transitive,
/// also through an equal middle term.
pub proof fn lemma_ratio_gt_trans(a: (int, int), b: (int, int), c: (int, int))
    requires
        a.1 > 0,
        b.1 > 0,
        c.1 > 0,
        !ratio_gt(b, a),
        !ratio_gt(c, b),
        ratio_gt(a, b) || ratio_gt(b, c),
    ensures
        ratio_gt(a, c),
{
    let (an, ad) = a;
    let (bn, bd) = b;
    let (cn, cd) = c;
    if ratio_gt(a, b) {
        assert(an * bd * cd > bn * ad * cd) by (nonlinear_arith)
            requires an * bd > bn * ad, cd > 0;
        assert(cn * bd * ad <= bn * cd * ad) by (nonlinear_arith)
            requires cn * bd <= bn * cd, ad > 0;
        assert(bn * ad * cd == bn * cd * ad) by (nonlinear_arith);
        assert(an * bd * cd == an * cd * bd) by (nonlinear_arith);
        assert(cn * bd * ad == cn * ad * bd) by (nonlinear_arith);
    } else {
        assert(bn * ad * cd >= an * bd * cd) by (nonlinear_arith)
            requires bn * ad >= an * bd, cd > 0;
        assert(bn * cd * ad > cn * bd * ad) by (nonlinear_arith)
            requires bn * cd > cn * bd, ad > 0;
        assert(bn * ad * cd == bn * cd * ad) by (nonlinear_arith);
        assert(an * bd * cd == an * cd * bd) by (nonlinear_arith);
        assert(cn * bd * ad == cn * ad * bd) by (nonlinear_arith);
    }
    assert(an * cd > cn * ad) by (nonlinear_arith)
        requires an * cd * bd > cn * ad * bd, bd > 0;
}

/// A similarity held as an exact fraction `num / den` with `den > 0`.
#[derive(Debug, Clone, Copy, PartialEq, Eq, Structural)]
pub struct Similarity {
    pub num: i128,
    pub den: i128,
}

impl Similarity {
    /// The fraction as a pair of integers.
    pub open spec fn ratio(self) -> (int, int) {
        (self.num as int, self.den as int)
    }

    /// `self` is strictly greater than `other`; both denominators are
    /// positive and the cross products fit.
    pub fn greater_than(&self, other: &Similarity) -> (r: bool)
        requires
            self.den > 0,
            other.den > 0,
            i128::MIN <= self.num * other.den <= i128::MAX,
            i128::MIN <= other.num * self.den <= i128::MAX,
        ensures
            r == ratio_gt(self.ratio(), other.ratio()),
    {
        self.num * other.den > other.num * self.den
    }
}

/// A proposed merge of clusters `left` and `right` of the current forest,
/// with the similarity of their centroids.
#[derive(Debug, Clone, Copy, PartialEq, Eq, Structural)]
pub struct PairSim {
    pub left: usize,
    pub right: usize,
    pub sim: Similarity,
}

impl PairSim {
    /// The record for clusters `left` and `right`, smaller index first.
    pub fn new(left: usize, right: usize, sim: Similarity) -> (r: PairSim)
        ensures
            r.left == (if left <= right { left } else { right }),
            r.right == (if left <= right { right } else { left }),
            r.sim == sim,
    {
        if left <= right {
            PairSim { left, right, sim }
        } else {
            PairSim { left: right, right: left, sim }
        }
    }

    /// The two cluster indices.
    pub open spec fn pair(self) -> (int, int) {
        (self.left as int, self.right as int)
    }
}

} // verus!
