//! Cluster trees: binary trees over vocabulary indices.
use vstd::prelude::*;

verus! {

/// A cluster: either a single vocabulary index, or the union of two
/// owned sub-clusters.
#[derive(Debug)]
pub enum BTree {
    Leaf(usize),
    Node(Box<(BTree, BTree)>),
}

impl BTree {
    /// The vocabulary indices under this tree, left to right.
    pub open spec fn leaves(self) -> Seq<usize>
        decreases self,
    {
        match self {
            BTree::Leaf(v) => seq![v],
            BTree::Node(pair) => pair.0.leaves() + pair.1.leaves(),
        }
    }

    /// The smallest vocabulary index under this tree.
    pub open spec fn least_leaf(self) -> usize
        decreases self,
    {
        match self {
            BTree::Leaf(v) => v,
            BTree::Node(pair) => {
                let a = pair.0.least_leaf();
                let b = pair.1.least_leaf();
                if a <= b {
                    a
                } else {
                    b
                }
            },
        }
    }

    /// The number of leaves of this tree.
    pub open spec fn size(self) -> nat {
        self.leaves().len()
    }

    /// The smallest vocabulary index under this tree.
    pub fn min_leaf(&self) -> (r: usize)
        ensures
            r == self.least_leaf(),
            self.leaves().contains(r),
            forall|i: int| 0 <= i < self.leaves().len() ==> r <= self.leaves()[i],
        decreases self,
    {
        match self {
            BTree::Leaf(v) => {
                assert(self.leaves()[0] == *v);
                *v
            },
            BTree::Node(children) => {
                let (left, right) = &**children;
                let a = left.min_leaf();
                let b = right.min_leaf();
                let ghost ls = left.leaves();
                let ghost rs = right.leaves();
                assert(self.leaves() == ls + rs);
                assert forall|i: int| 0 <= i < self.leaves().len() implies (if a <= b { a } else { b }) <= self.leaves()[i] by {
                    if i >= ls.len() {
                        assert(self.leaves()[i] == rs[i - ls.len()]);
                    }
                }
                if a <= b {
                    let ghost k = choose|k: int| 0 <= k < ls.len() && ls[k] == a;
                    assert(self.leaves()[k] == a);
                    a
                } else {
                    let ghost k = choose|k: int| 0 <= k < rs.len() && rs[k] == b;
                    assert(self.leaves()[ls.len() + k] == b);
                    b
                }
            },
        }
    }
}

/// Appends the leaves of `tree`, left to right, to `result`.
pub fn flatten_recursive(tree: &BTree, result: &mut Vec<usize>)
    ensures
        final(result)@ == old(result)@ + tree.leaves(),
    decreases tree,
{
    match tree {
        BTree::Leaf(n) => result.push(*n),
        BTree::Node(node) => {
            flatten_recursive(&node.0, result);
            flatten_recursive(&node.1, result);
            assert(final(result)@ =~= old(result)@ + tree.leaves());
        },
    }
}

/// The leaves of `tree`, left to right.
pub fn flatten_b_tree(tree: &BTree) -> (r: Vec<usize>)
    ensures
        r@ == tree.leaves(),
{
    let mut result = Vec::new();
    flatten_recursive(tree, &mut result);
    assert(result@ =~= tree.leaves());
    result
}

/// A copy of `tree`, node for node.
pub fn copy_tree(tree: &BTree) -> (r: BTree)
    ensures
        r == *tree,
    decreases tree,
{
    match tree {
        BTree::Leaf(n) => BTree::Leaf(*n),
        BTree::Node(node) => {
            let left = copy_tree(&node.0);
            let right = copy_tree(&node.1);
            BTree::Node(Box::new((left, right)))
        },
    }
}

/// The decimal digit for `d`.
pub open spec fn digit_char(d: nat) -> char {
    if d == 0 { '0' }
    else if d == 1 { '1' }
    else if d == 2 { '2' }
    else if d == 3 { '3' }
    else if d == 4 { '4' }
    else if d == 5 { '5' }
    else if d == 6 { '6' }
    else if d == 7 { '7' }
    else if d == 8 { '8' }
    else { '9' }
}

/// `n` written in decimal, without leading zeros.
pub open spec fn decimal(n: nat) -> Seq<char>
    decreases n,
{
    if n < 10 {
        seq![digit_char(n)]
    } else {
        decimal(n / 10) + seq![digit_char(n % 10)]
    }
}

/// A tree written with parentheses: a leaf as its index in decimal, a node
/// as `(left, right)`.
pub open spec fn rendered(t: BTree) -> Seq<char>
    decreases t,
{
    match t {
        BTree::Leaf(v) => decimal(v as nat),
        BTree::Node(pair) => seq!['('] + rendered(pair.0) + seq![',', ' '] + rendered(pair.1) + seq![')'],
    }
}

/// A tree written with parentheses: a leaf as its word in `vocab`, a node
/// as `(left, right)`.
pub open spec fn rendered_words(t: BTree, vocab: Seq<String>) -> Seq<char>
    decreases t,
{
    match t {
        BTree::Leaf(v) => vocab[v as int]@,
        BTree::Node(pair) => seq!['('] + rendered_words(pair.0, vocab) + seq![',', ' ']
            + rendered_words(pair.1, vocab) + seq![')'],
    }
}

/// Every leaf of `t` is below `n`.
pub open spec fn leaves_below(t: BTree, n: nat) -> bool {
    forall|i: int| 0 <= i < t.leaves().len() ==> t.leaves()[i] < n
}

/// The children of a node whose leaves are below `n` have their leaves below `n`.
pub proof fn lemma_children_below(l: BTree, r: BTree, n: nat)
    requires
        leaves_below(BTree::Node(Box::new((l, r))), n),
    ensures
        leaves_below(l, n),
        leaves_below(r, n),
{
    let t = BTree::Node(Box::new((l, r)));
    assert(t.leaves() == l.leaves() + r.leaves());
    assert forall|i: int| 0 <= i < l.leaves().len() implies l.leaves()[i] < n by {
        assert(t.leaves()[i] == l.leaves()[i]);
    }
    assert forall|i: int| 0 <= i < r.leaves().len() implies r.leaves()[i] < n by {
        assert(t.leaves()[l.leaves().len() + i] == r.leaves()[i]);
    }
}

fn digit_str(d: usize) -> (r: &'static str)
    requires
        d < 10,
    ensures
        r@ == seq![digit_char(d as nat)],
{
    proof {
        reveal_strlit("0");
        reveal_strlit("1");
        reveal_strlit("2");
        reveal_strlit("3");
        reveal_strlit("4");
        reveal_strlit("5");
        reveal_strlit("6");
        reveal_strlit("7");
        reveal_strlit("8");
        reveal_strlit("9");
    }
    if d == 0 { "0" }
    else if d == 1 { "1" }
    else if d == 2 { "2" }
    else if d == 3 { "3" }
    else if d == 4 { "4" }
    else if d == 5 { "5" }
    else if d == 6 { "6" }
    else if d == 7 { "7" }
    else if d == 8 { "8" }
    else { "9" }
}

fn push_decimal(out: &mut String, n: usize)
    ensures
        final(out)@ == old(out)@ + decimal(n as nat),
    decreases n,
{
    if n < 10 {
        out.append(digit_str(n));
    } else {
        push_decimal(out, n / 10);
        out.append(digit_str(n % 10));
        assert(final(out)@ =~= old(out)@ + decimal(n as nat));
    }
}

fn push_rendered(out: &mut String, tree: &BTree)
    ensures
        final(out)@ == old(out)@ + rendered(*tree),
    decreases tree,
{
    match tree {
        BTree::Leaf(x) => push_decimal(out, *x),
        BTree::Node(pair) => {
            proof {
                reveal_strlit("(");
                reveal_strlit(", ");
                reveal_strlit(")");
            }
            out.append("(");
            push_rendered(out, &pair.0);
            out.append(", ");
            push_rendered(out, &pair.1);
            out.append(")");
            assert(final(out)@ =~= old(out)@ + rendered(*tree));
        },
    }
}

fn push_words(out: &mut String, tree: &BTree, vocab: &Vec<String>)
    requires
        leaves_below(*tree, vocab@.len()),
    ensures
        final(out)@ == old(out)@ + rendered_words(*tree, vocab@),
    decreases tree,
{
    match tree {
        BTree::Leaf(x) => {
            assert(tree.leaves()[0] == *x);
            out.append(vocab[*x].as_str());
        },
        BTree::Node(pair) => {
            proof {
                reveal_strlit("(");
                reveal_strlit(", ");
                reveal_strlit(")");
                lemma_children_below(pair.0, pair.1, vocab@.len());
            }
            out.append("(");
            push_words(out, &pair.0, vocab);
            out.append(", ");
            push_words(out, &pair.1, vocab);
            out.append(")");
            assert(final(out)@ =~= old(out)@ + rendered_words(*tree, vocab@));
        },
    }
}

/// The tree written with parentheses, each leaf as its word in `vocab`.
pub fn format_b_tree(tree: &BTree, vocab: &Vec<String>) -> (r: String)
    requires
        leaves_below(*tree, vocab@.len()),
    ensures
        r@ == rendered_words(*tree, vocab@),
{
    let mut out = String::new();
    push_words(&mut out, tree, vocab);
    assert(out@ =~= rendered_words(*tree, vocab@));
    out
}

/// The tree written with parentheses, each leaf as its vocabulary index.
pub fn format_b_tree_indices(tree: &BTree) -> (r: String)
    ensures
        r@ == rendered(*tree),
{
    let mut out = String::new();
    push_rendered(&mut out, tree);
    assert(out@ =~= rendered(*tree));
    out
}

} // verus!
