use vstd::prelude::*;

use vstd::layout::size_of;

use crate::pooledmm::{lemma_pow2_positive, pow2};
use crate::tree::{lemma_perfect_widen, perfect, perfect_size, TNode, TNodePool};

verus! {

/// Depth of the smallest trees built in a run.
pub const MIN_DEPTH: u8 = 4;

/// Deepest tree a run accepts: every count of a run then fits in `i32`.
pub const MAX_DEPTH_LIMIT: u8 = 25;

/// Result of one round of a run.
#[derive(Clone, Copy, Debug)]
pub struct TDataRec {
    /// Depth of the trees built in the round.
    pub depth: u8,
    /// Number of trees built in the round.
    pub iterations: i32,
    /// Total number of nodes counted over all those trees.
    pub check: i32,
}

pub proof fn lemma_pow2_add(a: nat, b: nat)
    ensures
        pow2(a + b) == pow2(a) * pow2(b),
    decreases a,
{
    if a > 0 {
        lemma_pow2_add((a - 1) as nat, b);
        assert(pow2(a + b) == 2 * pow2(((a - 1) as nat + b) as nat));
        assert(pow2(a) * pow2(b) == 2 * (pow2((a - 1) as nat) * pow2(b))) by (nonlinear_arith)
            requires
                pow2(a) == 2 * pow2((a - 1) as nat),
        ;
    } else {
        assert(pow2(0) == 1);
    }
}

pub proof fn lemma_pow2_monotone(a: nat, b: nat)
    requires
        a <= b,
    ensures
        pow2(a) <= pow2(b),
    decreases b,
{
    if a < b {
        lemma_pow2_monotone(a, (b - 1) as nat);
        lemma_pow2_positive((b - 1) as nat);
    }
}

pub proof fn lemma_pow2_30()
    ensures
        pow2(30) == 0x4000_0000,
{
    reveal_with_fuel(pow2, 31);
}

/// A fresh tree arena has room for a tree of depth `d`.
pub open spec fn tree_fits(d: nat) -> bool {
    let m = 2 * perfect_size(d) + 2 * 64;
    &&& m <= usize::MAX
    &&& m * size_of::<TNode>() <= isize::MAX
}

/// Depth of the trees of a run when `n` was asked for: at least
/// `MIN_DEPTH + 2`.
pub fn max_depth_for(n: u8) -> (r: u8)
    ensures
        r == if MIN_DEPTH + 2 > n {
            (MIN_DEPTH + 2) as u8
        } else {
            n
        },
{
    if MIN_DEPTH + 2 > n {
        MIN_DEPTH + 2
    } else {
        n
    }
}

/// Number of rounds of a run whose deepest trees have depth `max_depth`.
pub fn high_index(max_depth: u8) -> (r: u8)
    requires
        max_depth >= MIN_DEPTH,
    ensures
        r == (max_depth - MIN_DEPTH) / 2 + 1,
{
    (max_depth - MIN_DEPTH) / 2 + 1
}

/// `2^k` as an `i32`.
fn pow2_i32(k: u8) -> (r: i32)
    requires
        k <= 30,
    ensures
        r == pow2(k as nat),
{
    let mut r: i32 = 1;
    let mut j: u8 = 0;
    while j < k
        invariant
            j <= k <= 30,
            r == pow2(j as nat),
        decreases k - j,
    {
        proof {
            lemma_pow2_monotone((j + 1) as nat, 30);
            lemma_pow2_30();
        }
        r = r * 2;
        j = j + 1;
    }
    r
}

/// Round `i` of a run whose deepest trees have depth `max_depth`: builds
/// `2^(max_depth - 2 i)` trees of depth `MIN_DEPTH + 2 i`, one after another
/// in one arena that is cleared after each, and adds up their node counts.
/// Returns `None`, before building anything, when such a tree would not fit
/// in memory.
pub fn run_round(i: u8, max_depth: u8) -> (r: Option<TDataRec>)
    requires
        max_depth <= MAX_DEPTH_LIMIT,
        MIN_DEPTH + 2 * i <= max_depth,
    ensures
        r is None <==> !tree_fits((MIN_DEPTH + 2 * i) as nat),
        r matches Some(rec) ==> {
            &&& rec.depth == MIN_DEPTH + 2 * i
            &&& rec.iterations == pow2((max_depth - 2 * i) as nat)
            &&& rec.check == rec.iterations * perfect_size(rec.depth as nat)
        },
{
    let depth: u8 = MIN_DEPTH + i * 2;
    let iterations = pow2_i32(max_depth - i * 2);
    let ghost d = depth as nat;
    let ghost it = iterations as nat;
    proof {
        lemma_pow2_positive(d + 1);
        lemma_pow2_add((max_depth - 2 * i) as nat, d + 1);
        lemma_pow2_monotone((max_depth - 2 * i) as nat + d + 1, 30);
        lemma_pow2_30();
        assert(it * perfect_size(d) <= it * pow2(d + 1)) by (nonlinear_arith)
            requires
                perfect_size(d) <= pow2(d + 1),
        ;
    }
    let size = pow2_i32(depth + 1) - 1;
    let mut node_pool = TNodePool::new();
    if !node_pool.can_hand_out_count(size as usize) {
        return None;
    }
    let mut check: i32 = 0;
    let mut k: i32 = 0;
    while k < iterations
        invariant
            node_pool.wf(),
            node_pool.is_fresh(),
            node_pool.can_hand_out(perfect_size(d)),
            0 <= k <= iterations,
            iterations == it,
            depth == d,
            d <= 30,
            it * perfect_size(d) <= i32::MAX,
            check == k * perfect_size(d),
        decreases iterations - k,
    {
        let root = TNode::make_tree(depth as i32, &mut node_pool);
        proof {
            node_pool.lemma_unvended_zero();
            let s = node_pool.slots();
            lemma_perfect_widen(s, root as int, d, root as int, node_pool.vended() as int, 0, s.len() as int);
            assert(perfect(s, root as int, d, 0, s.len() as int));
            assert(perfect_size(d) <= i32::MAX) by (nonlinear_arith)
                requires
                    it * perfect_size(d) <= i32::MAX,
                    it >= 1,
            ;
            assert((k + 1) * perfect_size(d) <= it * perfect_size(d)) by (nonlinear_arith)
                requires
                    k + 1 <= it,
            ;
            assert((k + 1) * perfect_size(d) == k * perfect_size(d) + perfect_size(d))
                by (nonlinear_arith);
        }
        let c = TNode::check_node(&node_pool, root);
        check = check + c;
        k = k + 1;
        node_pool.clear();
    }
    Some(TDataRec { depth, iterations, check })
}

} // verus!
