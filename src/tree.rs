use vstd::prelude::*;

use vstd::layout::size_of;

use crate::pooledmm::{lemma_pow2_positive, pow2, TNonFreePooledMemManager};
use crate::zeroed::Zeroed;

verus! {

/// A binary tree node stored in an arena; its children are named by their
/// slot addresses in the same arena. The zero node has no children.
pub struct TNode {
    pub left: Option<usize>,
    pub right: Option<usize>,
}

impl Zeroed for TNode {
    open spec fn zero() -> TNode {
        TNode { left: None, right: None }
    }

    fn zeroed() -> (r: TNode) {
        TNode { left: None, right: None }
    }
}

/// The arena that the trees are built in.
pub type TNodePool = TNonFreePooledMemManager<TNode, 64>;

/// The node at address `a` of `s` roots a perfect binary tree of depth `d`
/// whose nodes all lie in `lo .. hi`, each child at a higher address than its
/// parent.
pub open spec fn perfect(s: Seq<TNode>, a: int, d: nat, lo: int, hi: int) -> bool
    decreases d,
{
    &&& lo <= a < hi
    &&& a < s.len()
    &&& if d == 0 {
        s[a].left is None && s[a].right is None
    } else {
        &&& s[a].left is Some
        &&& s[a].right is Some
        &&& a < s[a].left.unwrap()
        &&& a < s[a].right.unwrap()
        &&& perfect(s, s[a].left.unwrap() as int, (d - 1) as nat, lo, hi)
        &&& perfect(s, s[a].right.unwrap() as int, (d - 1) as nat, lo, hi)
    }
}

/// Number of nodes of a perfect binary tree of depth `d`.
pub open spec fn perfect_size(d: nat) -> nat {
    (pow2(d + 1) - 1) as nat
}

/// A tree stays perfect when the slots it occupies are left alone.
pub proof fn lemma_perfect_frame(s: Seq<TNode>, t: Seq<TNode>, a: int, d: nat, lo: int, hi: int)
    requires
        perfect(s, a, d, lo, hi),
        hi <= t.len(),
        forall|i: int| lo <= i < hi ==> #[trigger] t[i] == s[i],
    ensures
        perfect(t, a, d, lo, hi),
    decreases d,
{
    if d > 0 {
        lemma_perfect_frame(s, t, s[a].left.unwrap() as int, (d - 1) as nat, lo, hi);
        lemma_perfect_frame(s, t, s[a].right.unwrap() as int, (d - 1) as nat, lo, hi);
    }
}

/// A tree whose nodes lie in a range also lies in any wider range.
pub proof fn lemma_perfect_widen(s: Seq<TNode>, a: int, d: nat, lo: int, hi: int, lo2: int, hi2: int)
    requires
        perfect(s, a, d, lo, hi),
        lo2 <= lo,
        hi <= hi2,
    ensures
        perfect(s, a, d, lo2, hi2),
    decreases d,
{
    if d > 0 {
        lemma_perfect_widen(s, s[a].left.unwrap() as int, (d - 1) as nat, lo, hi, lo2, hi2);
        lemma_perfect_widen(s, s[a].right.unwrap() as int, (d - 1) as nat, lo, hi, lo2, hi2);
    }
}

/// A node roots a perfect tree of one depth only.
pub proof fn lemma_perfect_depth_unique(s: Seq<TNode>, a: int, d1: nat, d2: nat, lo: int, hi: int)
    requires
        perfect(s, a, d1, lo, hi),
        perfect(s, a, d2, lo, hi),
    ensures
        d1 == d2,
    decreases d1,
{
    if d1 > 0 && d2 > 0 {
        lemma_perfect_depth_unique(
            s,
            s[a].left.unwrap() as int,
            (d1 - 1) as nat,
            (d2 - 1) as nat,
            lo,
            hi,
        );
    }
}

/// Depth of the tree that `make_tree` builds for `depth`: below one, a leaf.
pub open spec fn tree_depth(depth: i32) -> nat {
    if depth > 0 {
        depth as nat
    } else {
        0
    }
}

/// A tree of depth `d + 1` has one root and two subtrees of depth `d`.
pub proof fn lemma_perfect_size_step(d: nat)
    ensures
        perfect_size(d + 1) == 1 + 2 * perfect_size(d),
        perfect_size(d) >= 1,
{
    lemma_pow2_positive(d + 1);
    assert(pow2(d + 2) == 2 * pow2(d + 1));
}

impl TNode {
    /// Builds a perfect binary tree of depth `depth` (a single node when
    /// `depth` is below one) out of fresh slots of `node_pool`, and returns
    /// the address of its root. The root takes the first slot handed out; the
    /// right subtree is built before the left one.
    pub fn make_tree(depth: i32, node_pool: &mut TNodePool) -> (r: usize)
        requires
            old(node_pool).wf(),
            old(node_pool).can_hand_out(perfect_size(tree_depth(depth))),
        ensures
            final(node_pool).wf(),
            r == old(node_pool).vended(),
            final(node_pool).vended() == old(node_pool).vended() + perfect_size(tree_depth(depth)),
            perfect(
                final(node_pool).slots(),
                r as int,
                tree_depth(depth),
                r as int,
                final(node_pool).vended() as int,
            ),
            forall|i: int|
                0 <= i < old(node_pool).vended() ==> #[trigger] final(node_pool).slots()[i]
                    == old(node_pool).slots()[i],
        decreases depth,
    {
        let ghost d = tree_depth(depth);
        proof {
            lemma_pow2_positive(d + 1);
            node_pool.lemma_can_hand_out_next((perfect_size(d) - 1) as nat);
        }
        let res = node_pool.new_item();
        if depth > 0 {
            proof {
                lemma_perfect_size_step((d - 1) as nat);
                let m1 = 2 * (old(node_pool).vended() + perfect_size(d)) + 2 * 64nat;
                let m2 = 2 * (node_pool.vended() + perfect_size((d - 1) as nat)) + 2 * 64nat;
                assert(m2 * size_of::<TNode>() <= m1 * size_of::<TNode>()) by (nonlinear_arith)
                    requires
                        m2 <= m1,
                ;
            }
            let right = TNode::make_tree(depth - 1, node_pool);
            let ghost s2 = node_pool.slots();
            proof {
                let m1 = 2 * (old(node_pool).vended() + perfect_size(d)) + 2 * 64nat;
                let m2 = 2 * (node_pool.vended() + perfect_size((d - 1) as nat)) + 2 * 64nat;
                assert(m2 * size_of::<TNode>() <= m1 * size_of::<TNode>()) by (nonlinear_arith)
                    requires
                        m2 <= m1,
                ;
            }
            let left = TNode::make_tree(depth - 1, node_pool);
            let ghost s3 = node_pool.slots();
            node_pool.set(res, TNode { left: Some(left), right: Some(right) });
            proof {
                node_pool.lemma_unvended_zero();
                let s4 = node_pool.slots();
                let end = node_pool.vended() as int;
                lemma_perfect_frame(s2, s3, right as int, (d - 1) as nat, right as int, left as int);
                lemma_perfect_frame(s3, s4, right as int, (d - 1) as nat, right as int, left as int);
                lemma_perfect_frame(s3, s4, left as int, (d - 1) as nat, left as int, end);
                lemma_perfect_widen(s4, right as int, (d - 1) as nat, right as int, left as int, res as int, end);
                lemma_perfect_widen(s4, left as int, (d - 1) as nat, left as int, end, res as int, end);
                assert(s4[res as int].left == Some(left));
                assert(s4[res as int].right == Some(right));
                assert(((d - 1) as nat) + 1 == d);
                assert(perfect(s4, res as int, d, res as int, end));
            }
        } else {
            proof {
                assert(pow2(0) == 1);
                assert(pow2(1) == 2);
                node_pool.lemma_unvended_zero();
            }
        }
        res
    }

    /// Counts the nodes of the perfect tree rooted at `node`.
    pub fn check_node(node_pool: &TNodePool, node: usize) -> (r: i32)
        requires
            node_pool.wf(),
            exists|d: nat|
                perfect_size(d) <= i32::MAX && #[trigger] perfect(
                    node_pool.slots(),
                    node as int,
                    d,
                    0,
                    node_pool.slots().len() as int,
                ),
        ensures
            forall|d: nat|
                #[trigger] perfect(node_pool.slots(), node as int, d, 0, node_pool.slots().len() as int)
                    ==> r == perfect_size(d),
        decreases node_pool.slots().len() - node,
    {
        let ghost s = node_pool.slots();
        let ghost d = choose|d: nat|
            perfect_size(d) <= i32::MAX && #[trigger] perfect(s, node as int, d, 0, s.len() as int);
        proof {
            assert forall|d2: nat| #[trigger] perfect(s, node as int, d2, 0, s.len() as int) implies d2
                == d by {
                lemma_perfect_depth_unique(s, node as int, d, d2, 0, s.len() as int);
            }
        }
        let n = node_pool.get(node);
        match (n.left, n.right) {
            (Some(left), Some(right)) => {
                proof {
                    assert(d > 0);
                    assert(right > node && left > node);
                    lemma_perfect_size_step((d - 1) as nat);
                    assert(perfect(s, right as int, (d - 1) as nat, 0, s.len() as int));
                    assert(perfect(s, left as int, (d - 1) as nat, 0, s.len() as int));
                }
                let r_right = TNode::check_node(node_pool, right);
                let r_left = TNode::check_node(node_pool, left);
                1 + r_right + r_left
            },
            _ => {
                proof {
                    assert(d == 0);
                    assert(pow2(0) == 1);
                    assert(pow2(1) == 2);
                }
                1
            },
        }
    }
}

} // verus!
