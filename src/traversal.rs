//! The mathematical model of a depth-first traversal: what the
//! traversal of a node is, how deep a sequence of operations nests, and
//! when its pushes and pops match.

use vstd::prelude::*;

use crate::hierarchy::NodeEnumOp;

verus! {

/// The node index that an operation refers to
pub open spec fn op_index(op: NodeEnumOp<usize>) -> usize {
    match op {
        NodeEnumOp::Push(i, _) => i,
        NodeEnumOp::Pop(i, _) => i,
    }
}

/// The change in nesting depth that an operation makes
pub open spec fn op_delta(op: NodeEnumOp<usize>) -> int {
    match op {
        NodeEnumOp::Push(_, _) => 1,
        NodeEnumOp::Pop(_, _) => -1,
    }
}

/// The larger of two integers
pub open spec fn larger(a: int, b: int) -> int {
    if a >= b {
        a
    } else {
        b
    }
}

/// The traversal of node `x` given the children lists `ch`: the node is
/// pushed, then each child's traversal follows in order, then the node is
/// popped. `fuel` bounds the depth; a finite tree never exhausts it.
pub open spec fn walk(ch: Seq<Seq<usize>>, x: int, fuel: nat) -> Seq<NodeEnumOp<usize>>
    decreases fuel, 0int,
{
    if fuel == 0 || x < 0 || x >= ch.len() {
        Seq::empty()
    } else {
        let hc = ch[x].len() > 0;
        seq![NodeEnumOp::Push(x as usize, hc)] + walk_from(ch, ch[x], 0, (fuel - 1) as nat)
            + seq![NodeEnumOp::Pop(x as usize, hc)]
    }
}

/// The traversals of the nodes `cs[n..]`, one after another
pub open spec fn walk_from(ch: Seq<Seq<usize>>, cs: Seq<usize>, n: int, fuel: nat) -> Seq<
    NodeEnumOp<usize>,
>
    decreases fuel, cs.len() - n,
{
    if n < 0 || n >= cs.len() {
        Seq::empty()
    } else {
        walk(ch, cs[n] as int, fuel) + walk_from(ch, cs, n + 1, fuel)
    }
}

/// True if the tree below `x` is finite within `fuel` levels, every node
/// on the way being a valid index
pub open spec fn fits(ch: Seq<Seq<usize>>, x: int, fuel: nat) -> bool
    decreases fuel, 0int,
{
    if fuel == 0 {
        false
    } else {
        0 <= x < ch.len() && fits_from(ch, ch[x], 0, (fuel - 1) as nat)
    }
}

/// True if every tree below `cs[n..]` fits within `fuel` levels
pub open spec fn fits_from(ch: Seq<Seq<usize>>, cs: Seq<usize>, n: int, fuel: nat) -> bool
    decreases fuel, cs.len() - n,
{
    if n < 0 || n >= cs.len() {
        true
    } else {
        fits(ch, cs[n] as int, fuel) && fits_from(ch, cs, n + 1, fuel)
    }
}

/// The number of nodes on the longest downward path from `x`
pub open spec fn height(ch: Seq<Seq<usize>>, x: int, fuel: nat) -> nat
    decreases fuel, 0int,
{
    if fuel == 0 || x < 0 || x >= ch.len() {
        0
    } else {
        1 + height_from(ch, ch[x], 0, (fuel - 1) as nat)
    }
}

/// The largest height among the nodes `cs[n..]`
pub open spec fn height_from(ch: Seq<Seq<usize>>, cs: Seq<usize>, n: int, fuel: nat) -> nat
    decreases fuel, cs.len() - n,
{
    if n < 0 || n >= cs.len() {
        0
    } else {
        let a = height(ch, cs[n] as int, fuel);
        let b = height_from(ch, cs, n + 1, fuel);
        if a >= b {
            a
        } else {
            b
        }
    }
}

/// Pushes minus pops
pub open spec fn ops_depth(ops: Seq<NodeEnumOp<usize>>) -> int
    decreases ops.len(),
{
    if ops.len() == 0 {
        0
    } else {
        ops_depth(ops.drop_last()) + op_delta(ops.last())
    }
}

/// The greatest depth reached by any prefix of `ops`
pub open spec fn ops_peak(ops: Seq<NodeEnumOp<usize>>) -> int
    decreases ops.len(),
{
    if ops.len() == 0 {
        0
    } else {
        larger(ops_peak(ops.drop_last()), ops_depth(ops))
    }
}

/// Replays `ops` against a stack of open `(index, has_children)` pairs:
/// a push opens a pair, a pop must close the pair on top. `None` if a pop
/// does not match.
pub open spec fn scan(open: Seq<(usize, bool)>, ops: Seq<NodeEnumOp<usize>>) -> Option<
    Seq<(usize, bool)>,
>
    decreases ops.len(),
{
    if ops.len() == 0 {
        Some(open)
    } else {
        match ops[0] {
            NodeEnumOp::Push(i, c) => scan(open.push((i, c)), ops.drop_first()),
            NodeEnumOp::Pop(i, c) => {
                if open.len() > 0 && open.last() == (i, c) {
                    scan(open.drop_last(), ops.drop_first())
                } else {
                    None
                }
            },
        }
    }
}

/// Every push has exactly one matching pop, properly nested
pub open spec fn balanced(ops: Seq<NodeEnumOp<usize>>) -> bool {
    scan(Seq::empty(), ops) == Some(Seq::<(usize, bool)>::empty())
}

/// Every operation names an index below `n`
pub open spec fn ops_below(ops: Seq<NodeEnumOp<usize>>, n: int) -> bool {
    forall|k: int| 0 <= k < ops.len() ==> (op_index(#[trigger] ops[k]) as int) < n
}

/// The peak of a sequence is at least its final depth, and never negative
pub proof fn lemma_peak_at_least_depth(a: Seq<NodeEnumOp<usize>>)
    ensures
        ops_peak(a) >= ops_depth(a),
        ops_peak(a) >= 0,
    decreases a.len(),
{
    if a.len() > 0 {
        lemma_peak_at_least_depth(a.drop_last());
    }
}

/// Depths add up over concatenation
pub proof fn lemma_depth_concat(a: Seq<NodeEnumOp<usize>>, b: Seq<NodeEnumOp<usize>>)
    ensures
        ops_depth(a + b) == ops_depth(a) + ops_depth(b),
    decreases b.len(),
{
    if b.len() == 0 {
        assert(a + b =~= a);
    } else {
        lemma_depth_concat(a, b.drop_last());
        assert((a + b).drop_last() =~= a + b.drop_last());
        assert((a + b).last() == b.last());
    }
}

/// The peak of `a + b` is the peak of `a` or the peak of `b` raised by
/// the depth of `a`, whichever is larger
pub proof fn lemma_peak_concat(a: Seq<NodeEnumOp<usize>>, b: Seq<NodeEnumOp<usize>>)
    ensures
        ops_peak(a + b) == larger(ops_peak(a), ops_depth(a) + ops_peak(b)),
    decreases b.len(),
{
    lemma_peak_at_least_depth(a);
    if b.len() == 0 {
        assert(a + b =~= a);
    } else {
        lemma_peak_concat(a, b.drop_last());
        lemma_depth_concat(a, b);
        assert((a + b).drop_last() =~= a + b.drop_last());
    }
}

/// Replaying `a + b` is replaying `a`, then `b` from where `a` left off
pub proof fn lemma_scan_concat(
    open: Seq<(usize, bool)>,
    a: Seq<NodeEnumOp<usize>>,
    b: Seq<NodeEnumOp<usize>>,
)
    ensures
        scan(open, a + b) == (match scan(open, a) {
            Some(o) => scan(o, b),
            None => None,
        }),
    decreases a.len(),
{
    if a.len() == 0 {
        assert(a + b =~= b);
    } else {
        assert((a + b)[0] == a[0]);
        assert((a + b).drop_first() =~= a.drop_first() + b);
        match a[0] {
            NodeEnumOp::Push(i, c) => {
                lemma_scan_concat(open.push((i, c)), a.drop_first(), b);
            },
            NodeEnumOp::Pop(i, c) => {
                if open.len() > 0 && open.last() == (i, c) {
                    lemma_scan_concat(open.drop_last(), a.drop_first(), b);
                }
            },
        }
    }
}

/// A successful replay leaves the open stack longer by the depth of `a`
pub proof fn lemma_scan_depth(open: Seq<(usize, bool)>, a: Seq<NodeEnumOp<usize>>)
    ensures
        scan(open, a) is Some ==> scan(open, a)->0.len() == open.len() + ops_depth(a),
    decreases a.len(),
{
    if a.len() > 0 {
        let first = seq![a[0]];
        assert(a =~= first + a.drop_first());
        lemma_depth_concat(first, a.drop_first());
        assert(first.drop_last() =~= Seq::<NodeEnumOp<usize>>::empty());
        assert(ops_depth(first.drop_last()) == 0);
        assert(ops_depth(first) == op_delta(a[0]));
        match a[0] {
            NodeEnumOp::Push(i, c) => {
                lemma_scan_depth(open.push((i, c)), a.drop_first());
            },
            NodeEnumOp::Pop(i, c) => {
                if open.len() > 0 && open.last() == (i, c) {
                    lemma_scan_depth(open.drop_last(), a.drop_first());
                }
            },
        }
    }
}

proof fn lemma_pair_scan(open: Seq<(usize, bool)>, x: usize, hc: bool, w: Seq<NodeEnumOp<usize>>)
    requires
        scan(open.push((x, hc)), w) == Some(open.push((x, hc))),
    ensures
        scan(
            open,
            seq![NodeEnumOp::Push(x, hc)] + w + seq![NodeEnumOp::Pop(x, hc)],
        ) == Some(open),
{
    let p = seq![NodeEnumOp::Push(x, hc)];
    let q = seq![NodeEnumOp::Pop(x, hc)];
    let o1 = open.push((x, hc));
    assert(p.drop_first() =~= Seq::<NodeEnumOp<usize>>::empty());
    assert(q.drop_first() =~= Seq::<NodeEnumOp<usize>>::empty());
    assert(scan(o1, p.drop_first()) == Some(o1));
    assert(scan(open, p) == Some(o1));
    lemma_scan_concat(open, p, w);
    lemma_scan_concat(open, p + w, q);
    assert(o1.drop_last() =~= open);
    assert(scan(open, q.drop_first()) == Some(open));
    assert(scan(o1, q) == Some(open));
}

/// A traversal leaves any open stack as it found it
pub proof fn lemma_walk_scan(ch: Seq<Seq<usize>>, x: int, fuel: nat, open: Seq<(usize, bool)>)
    ensures
        scan(open, walk(ch, x, fuel)) == Some(open),
    decreases fuel, 0int,
{
    if fuel == 0 || x < 0 || x >= ch.len() {
    } else {
        let hc = ch[x].len() > 0;
        lemma_walk_from_scan(ch, ch[x], 0, (fuel - 1) as nat, open.push((x as usize, hc)));
        lemma_pair_scan(open, x as usize, hc, walk_from(ch, ch[x], 0, (fuel - 1) as nat));
    }
}

/// A run of sibling traversals leaves any open stack as it found it
pub proof fn lemma_walk_from_scan(
    ch: Seq<Seq<usize>>,
    cs: Seq<usize>,
    n: int,
    fuel: nat,
    open: Seq<(usize, bool)>,
)
    ensures
        scan(open, walk_from(ch, cs, n, fuel)) == Some(open),
    decreases fuel, cs.len() - n,
{
    if n < 0 || n >= cs.len() {
    } else {
        lemma_walk_scan(ch, cs[n] as int, fuel, open);
        lemma_walk_from_scan(ch, cs, n + 1, fuel, open);
        lemma_scan_concat(open, walk(ch, cs[n] as int, fuel), walk_from(ch, cs, n + 1, fuel));
    }
}

proof fn lemma_pair_peak(x: usize, hc: bool, w: Seq<NodeEnumOp<usize>>)
    requires
        ops_depth(w) == 0,
        ops_peak(w) >= 0,
    ensures
        ops_depth(seq![NodeEnumOp::Push(x, hc)] + w + seq![NodeEnumOp::Pop(x, hc)]) == 0,
        ops_peak(seq![NodeEnumOp::Push(x, hc)] + w + seq![NodeEnumOp::Pop(x, hc)]) == 1
            + ops_peak(w),
{
    let p = seq![NodeEnumOp::Push(x, hc)];
    let q = seq![NodeEnumOp::Pop(x, hc)];
    assert(p.drop_last() =~= Seq::<NodeEnumOp<usize>>::empty());
    assert(q.drop_last() =~= Seq::<NodeEnumOp<usize>>::empty());
    assert(ops_depth(p.drop_last()) == 0);
    assert(ops_depth(q.drop_last()) == 0);
    assert(p.last() == NodeEnumOp::Push(x, hc));
    assert(q.last() == NodeEnumOp::Pop(x, hc));
    assert(ops_depth(p) == 1);
    assert(ops_depth(q) == -1);
    assert(ops_peak(p.drop_last()) == 0);
    assert(ops_peak(q.drop_last()) == 0);
    assert(ops_peak(p) == 1);
    assert(ops_peak(q) == 0);
    lemma_depth_concat(p, w);
    lemma_depth_concat(p + w, q);
    lemma_peak_concat(p, w);
    lemma_peak_concat(p + w, q);
}

/// A traversal ends at the depth where it began and reaches exactly the
/// height of its node
pub proof fn lemma_walk_peak(ch: Seq<Seq<usize>>, x: int, fuel: nat)
    ensures
        ops_depth(walk(ch, x, fuel)) == 0,
        ops_peak(walk(ch, x, fuel)) == height(ch, x, fuel) as int,
    decreases fuel, 0int,
{
    if fuel == 0 || x < 0 || x >= ch.len() {
    } else {
        let hc = ch[x].len() > 0;
        lemma_walk_from_peak(ch, ch[x], 0, (fuel - 1) as nat);
        lemma_pair_peak(x as usize, hc, walk_from(ch, ch[x], 0, (fuel - 1) as nat));
    }
}

/// A run of sibling traversals ends at depth zero and peaks at the largest
/// sibling height
pub proof fn lemma_walk_from_peak(ch: Seq<Seq<usize>>, cs: Seq<usize>, n: int, fuel: nat)
    ensures
        ops_depth(walk_from(ch, cs, n, fuel)) == 0,
        ops_peak(walk_from(ch, cs, n, fuel)) == height_from(ch, cs, n, fuel) as int,
    decreases fuel, cs.len() - n,
{
    if n < 0 || n >= cs.len() {
    } else {
        let a = walk(ch, cs[n] as int, fuel);
        let b = walk_from(ch, cs, n + 1, fuel);
        lemma_walk_peak(ch, cs[n] as int, fuel);
        lemma_walk_from_peak(ch, cs, n + 1, fuel);
        lemma_depth_concat(a, b);
        lemma_peak_concat(a, b);
    }
}

/// A tree is never taller than the fuel that bounds it
pub proof fn lemma_height_bound(ch: Seq<Seq<usize>>, x: int, fuel: nat)
    ensures
        height(ch, x, fuel) <= fuel,
    decreases fuel, 0int,
{
    if fuel == 0 || x < 0 || x >= ch.len() {
    } else {
        lemma_height_from_bound(ch, ch[x], 0, (fuel - 1) as nat);
    }
}

/// The largest sibling height never exceeds the fuel
pub proof fn lemma_height_from_bound(ch: Seq<Seq<usize>>, cs: Seq<usize>, n: int, fuel: nat)
    ensures
        height_from(ch, cs, n, fuel) <= fuel,
    decreases fuel, cs.len() - n,
{
    if n < 0 || n >= cs.len() {
    } else {
        lemma_height_bound(ch, cs[n] as int, fuel);
        lemma_height_from_bound(ch, cs, n + 1, fuel);
    }
}

/// Index bounds hold over concatenation
pub proof fn lemma_below_concat(a: Seq<NodeEnumOp<usize>>, b: Seq<NodeEnumOp<usize>>, n: int)
    requires
        ops_below(a, n),
        ops_below(b, n),
    ensures
        ops_below(a + b, n),
{
    assert forall|k: int| 0 <= k < (a + b).len() implies (op_index(#[trigger] (a + b)[k]) as int)
        < n by {
        if k < a.len() {
            assert((a + b)[k] == a[k]);
        } else {
            assert((a + b)[k] == b[k - a.len()]);
        }
    }
}

/// A traversal only names nodes of the hierarchy
pub proof fn lemma_walk_below(ch: Seq<Seq<usize>>, x: int, fuel: nat)
    ensures
        ops_below(walk(ch, x, fuel), ch.len() as int),
    decreases fuel, 0int,
{
    if fuel == 0 || x < 0 || x >= ch.len() {
    } else {
        let hc = ch[x].len() > 0;
        let p = seq![NodeEnumOp::Push(x as usize, hc)];
        let q = seq![NodeEnumOp::Pop(x as usize, hc)];
        let w = walk_from(ch, ch[x], 0, (fuel - 1) as nat);
        lemma_walk_from_below(ch, ch[x], 0, (fuel - 1) as nat);
        assert(ops_below(p, ch.len() as int));
        assert(ops_below(q, ch.len() as int));
        lemma_below_concat(p, w, ch.len() as int);
        lemma_below_concat(p + w, q, ch.len() as int);
    }
}

/// A run of sibling traversals only names nodes of the hierarchy
pub proof fn lemma_walk_from_below(ch: Seq<Seq<usize>>, cs: Seq<usize>, n: int, fuel: nat)
    ensures
        ops_below(walk_from(ch, cs, n, fuel), ch.len() as int),
    decreases fuel, cs.len() - n,
{
    if n < 0 || n >= cs.len() {
    } else {
        lemma_walk_below(ch, cs[n] as int, fuel);
        lemma_walk_from_below(ch, cs, n + 1, fuel);
        lemma_below_concat(
            walk(ch, cs[n] as int, fuel),
            walk_from(ch, cs, n + 1, fuel),
            ch.len() as int,
        );
    }
}


/// In every traversal each push has exactly one matching pop for the same
/// node, properly nested: the nesting depth never drops below zero and is
/// zero again at the end.
pub proof fn lemma_walk_balanced(ch: Seq<Seq<usize>>, x: int, fuel: nat)
    ensures
        balanced(walk(ch, x, fuel)),
        ops_depth(walk(ch, x, fuel)) == 0,
        forall|k: int|
            0 <= k <= walk(ch, x, fuel).len() ==> ops_depth(#[trigger] walk(ch, x, fuel).take(k))
                >= 0,
{
    let t = walk(ch, x, fuel);
    lemma_walk_scan(ch, x, fuel, Seq::empty());
    lemma_walk_peak(ch, x, fuel);
    assert forall|k: int| 0 <= k <= t.len() implies ops_depth(#[trigger] t.take(k)) >= 0 by {
        assert(t.take(k) + t.skip(k) =~= t);
        lemma_scan_concat(Seq::empty(), t.take(k), t.skip(k));
        lemma_scan_depth(Seq::empty(), t.take(k));
    }
}

/// The deepest nesting that a traversal reaches is the number of nodes on
/// the longest path down its tree, which never exceeds the fuel
pub proof fn lemma_walk_peak_is_height(ch: Seq<Seq<usize>>, x: int, fuel: nat)
    ensures
        ops_peak(walk(ch, x, fuel)) == height(ch, x, fuel) as int,
        height(ch, x, fuel) <= fuel,
{
    lemma_walk_peak(ch, x, fuel);
    lemma_height_bound(ch, x, fuel);
}

} // verus!
