//! Bones and sets of bones: a hierarchy of bones, each carrying a rest
//! transformation of the caller's choosing and the slot in the output
//! matrix array that its final matrix goes to, with the traversal recipes
//! that drive the derivation of the matrices.

use vstd::prelude::*;

use crate::hierarchy::{
    lemma_parentless, lemma_traversal_balanced, parentless, Hierarchy, NodeEnumOp, Recipe,
};
use crate::traversal::{
    balanced, lemma_peak_at_least_depth, lemma_peak_concat, lemma_scan_concat, lemma_scan_depth,
    lemma_walk_below, lemma_walk_from_scan, lemma_walk_peak_is_height, lemma_walk_scan, op_index,
    ops_below, ops_depth, ops_peak, scan, walk, walk_from,
};

verus! {

/// A bone: a rest transformation and the index in the output matrix array
/// where the bone's animated matrix is placed
pub struct Bone<T> {
    /// rest transform - translation, scale, rotation
    pub transformation: T,
    ///  Index into matrix array to put this bones animated mtm
    pub matrix_index: usize,
}

impl<T> Bone<T> {
    /// Create a new bone with a given rest
    pub fn new(transformation: T, matrix_index: usize) -> (r: Self)
        ensures
            r.transformation == transformation,
            r.matrix_index == matrix_index,
    {
        Self { transformation, matrix_index }
    }

    /// Borrow the transformation
    pub fn borrow_transformation<'a>(&'a self) -> (r: &'a T)
        ensures
            *r == self.transformation,
    {
        &self.transformation
    }

    /// Set the transformation of the bone
    pub fn set_transformation(self, transformation: T) -> (r: Self)
        ensures
            r.transformation == transformation,
            r.matrix_index == self.matrix_index,
    {
        let mut s = self;
        s.transformation = transformation;
        s
    }
}

/// One past the highest index, or 0 where there is none
pub open spec fn index_bound(idx: Seq<usize>) -> nat
    decreases idx.len(),
{
    if idx.len() == 0 {
        0
    } else {
        let b = index_bound(idx.drop_last());
        if idx.last() + 1 > b {
            (idx.last() + 1) as nat
        } else {
            b
        }
    }
}

/// The largest maximum depth among the recipes
pub open spec fn deepest(rs: Seq<(usize, Recipe)>) -> nat
    decreases rs.len(),
{
    if rs.len() == 0 {
        0
    } else {
        let b = deepest(rs.drop_last());
        if rs.last().1.max_depth_of() > b {
            rs.last().1.max_depth_of() as nat
        } else {
            b
        }
    }
}

/// The nodes that `ops` pushes, in order
pub open spec fn pushed(ops: Seq<NodeEnumOp<usize>>) -> Seq<usize>
    decreases ops.len(),
{
    if ops.len() == 0 {
        Seq::empty()
    } else {
        let p = pushed(ops.drop_last());
        match ops.last() {
            NodeEnumOp::Push(n, _) => p.push(n),
            NodeEnumOp::Pop(_, _) => p,
        }
    }
}

/// The nodes pushed by all the recipes, one recipe after another
pub open spec fn all_pushed(rs: Seq<(usize, Recipe)>) -> Seq<usize>
    decreases rs.len(),
{
    if rs.len() == 0 {
        Seq::empty()
    } else {
        all_pushed(rs.drop_last()) + pushed(rs.last().1.ops_of())
    }
}

/// `order` with each element kept at its first occurrence only
pub open spec fn first_occurrences(order: Seq<usize>) -> Seq<usize>
    decreases order.len(),
{
    if order.len() == 0 {
        Seq::empty()
    } else {
        let d = first_occurrences(order.drop_last());
        if d.contains(order.last()) {
            d
        } else {
            d.push(order.last())
        }
    }
}

/// `idx` with the entry of `d[j]` set to `j`, for each `j`
pub open spec fn number_in_order(idx: Seq<usize>, d: Seq<usize>) -> Seq<usize>
    decreases d.len(),
{
    if d.len() == 0 {
        idx
    } else {
        number_in_order(idx, d.drop_last()).update(d.last() as int, (d.len() - 1) as usize)
    }
}

/// The node on top of an open stack, if there is one
pub open spec fn open_top(o: Option<Seq<(usize, bool)>>) -> Option<usize> {
    match o {
        Some(s) => if s.len() > 0 {
            Some(s.last().0)
        } else {
            None
        },
        None => None,
    }
}

/// For each push of `ops`, replayed from the open stack `open`, the
/// pushed node and the node that encloses it (`None` at the outermost
/// level)
pub open spec fn steps_from(open: Seq<(usize, bool)>, ops: Seq<NodeEnumOp<usize>>) -> Seq<
    (usize, Option<usize>),
>
    decreases ops.len(),
{
    if ops.len() == 0 {
        Seq::empty()
    } else {
        let p = steps_from(open, ops.drop_last());
        match ops.last() {
            NodeEnumOp::Push(n, _) => p.push((n, open_top(scan(open, ops.drop_last())))),
            NodeEnumOp::Pop(_, _) => p,
        }
    }
}

/// For each push of `ops`, the pushed node and the node that encloses it
pub open spec fn steps(ops: Seq<NodeEnumOp<usize>>) -> Seq<(usize, Option<usize>)> {
    steps_from(Seq::empty(), ops)
}

/// The steps of all the recipes, one recipe after another
pub open spec fn all_steps(rs: Seq<(usize, Recipe)>) -> Seq<(usize, Option<usize>)>
    decreases rs.len(),
{
    if rs.len() == 0 {
        Seq::empty()
    } else {
        all_steps(rs.drop_last()) + steps(rs.last().1.ops_of())
    }
}

/// The number of `true` entries
pub open spec fn count_true(s: Seq<bool>) -> nat
    decreases s.len(),
{
    if s.len() == 0 {
        0
    } else {
        count_true(s.drop_last()) + if s.last() {
            1nat
        } else {
            0nat
        }
    }
}

proof fn lemma_count_true_update(s: Seq<bool>, b: int)
    requires
        0 <= b < s.len(),
        !s[b],
    ensures
        count_true(s.update(b, true)) == count_true(s) + 1,
    decreases s.len(),
{
    if b == s.len() - 1 {
        assert(s.update(b, true).drop_last() =~= s.drop_last());
    } else {
        assert(s.update(b, true).drop_last() =~= s.drop_last().update(b, true));
        lemma_count_true_update(s.drop_last(), b);
    }
}

proof fn lemma_count_true_bound(s: Seq<bool>, b: int)
    requires
        0 <= b < s.len(),
        !s[b],
    ensures
        count_true(s) < s.len(),
    decreases s.len(),
{
    lemma_count_true_at_most(s.drop_last());
    if b < s.len() - 1 {
        lemma_count_true_bound(s.drop_last(), b);
    }
}

proof fn lemma_count_true_none(s: Seq<bool>)
    requires
        forall|i: int| 0 <= i < s.len() ==> !s[i],
    ensures
        count_true(s) == 0,
    decreases s.len(),
{
    if s.len() > 0 {
        lemma_count_true_none(s.drop_last());
    }
}

proof fn lemma_count_true_at_most(s: Seq<bool>)
    ensures
        count_true(s) <= s.len(),
    decreases s.len(),
{
    if s.len() > 0 {
        lemma_count_true_at_most(s.drop_last());
    }
}

/// Facts about the prefix `ops[..j]` of a balanced sequence
proof fn lemma_prefix(ops: Seq<NodeEnumOp<usize>>, j: int)
    requires
        balanced(ops),
        0 <= j <= ops.len(),
    ensures
        scan(Seq::empty(), ops.take(j)) is Some,
        scan(Seq::empty(), ops.take(j))->0.len() == ops_depth(ops.take(j)),
        ops_depth(ops.take(j)) <= ops_peak(ops),
{
    assert(ops.take(j) + ops.skip(j) =~= ops);
    lemma_scan_concat(Seq::empty(), ops.take(j), ops.skip(j));
    lemma_scan_depth(Seq::empty(), ops.take(j));
    lemma_peak_concat(ops.take(j), ops.skip(j));
    lemma_peak_at_least_depth(ops.take(j));
}

/// A set of bones in a hierarchy, with the recipes for traversing it
pub struct BoneSet<T> {
    /// The bones that make up the set, with the hierarchical relationships
    pub bones: Hierarchy<Bone<T>>,
    /// The roots of the bones and hierarchical recipes for traversal
    pub roots: Vec<(usize, Recipe)>,
    /// The depth of the deepest recipe: the number of scratch entries that
    /// a traversal needs
    pub max_depth: usize,
    /// Max bone index
    pub max_index: usize,
}

impl<T> BoneSet<T> {
    /// The matrix index of each bone
    pub open spec fn matrix_indices(&self) -> Seq<usize> {
        Seq::new(self.bones.nodes().len(), |i: int| self.bones.values()[i].matrix_index)
    }

    /// The transformation of each bone
    pub open spec fn transformations(&self) -> Seq<T> {
        Seq::new(self.bones.nodes().len(), |i: int| self.bones.values()[i].transformation)
    }

    /// The recorded recipes can be replayed: each is balanced, names bones
    /// of the set only, and fits in the scratch depth
    pub open spec fn wf(&self) -> bool {
        forall|k: int|
            0 <= k < self.roots@.len() ==> {
                let rc = (#[trigger] self.roots@[k]).1;
                &&& rc.wf()
                &&& balanced(rc.ops_of())
                &&& ops_below(rc.ops_of(), self.bones.nodes().len() as int)
                &&& rc.max_depth_of() <= self.max_depth
            }
    }

    /// Every bone without a parent is the root of a finite tree
    pub open spec fn is_forest(&self) -> bool {
        forall|i: int|
            0 <= i < self.bones.nodes().len() && #[trigger] self.bones.parents()[i] is None
                ==> self.bones.spans_tree(i)
    }

    /// The roots and recipes are those of the hierarchy as it stands
    pub open spec fn roots_fresh(&self) -> bool {
        &&& self.bones.nodes().len() <= usize::MAX
        &&& self.bones.root_list() == parentless(
            self.bones.parents(),
            self.bones.nodes().len() as int,
        )
        &&& self.roots@.len() == self.bones.root_list().len()
        &&& forall|k: int|
            0 <= k < self.roots@.len() ==> {
                &&& (#[trigger] self.roots@[k]).0 == self.bones.root_list()[k]
                &&& self.roots@[k].1.ops_of() == self.bones.traversal(self.roots@[k].0 as int)
            }
        &&& self.max_depth == deepest(self.roots@)
    }

    /// Every matrix index is below the output array's length
    pub open spec fn indices_fit(&self) -> bool {
        forall|i: int|
            0 <= i < self.bones.nodes().len() ==> #[trigger] self.matrix_indices()[i]
                < self.max_index
    }

    /// Create a new set of bones
    pub fn new() -> (r: Self)
        ensures
            r.wf(),
            r.bones.nodes().len() == 0,
            r.roots@.len() == 0,
            r.max_depth == 0,
            r.max_index == 0,
    {
        let bones = Hierarchy::new();
        let roots = Vec::new();
        Self { bones, roots, max_depth: 0, max_index: 0 }
    }

    /// Add a bone with a given base transformation relative to its parent
    /// (if it has one), and an index to the matrix array that the bone pose
    /// will utilize
    ///
    /// It returns the bone reference index; the recipes are dropped, as
    /// they no longer describe the set
    pub fn add_bone(&mut self, transformation: T, matrix_index: usize) -> (r: usize)
        ensures
            r == old(self).bones.nodes().len(),
            final(self).wf(),
            final(self).roots@.len() == 0,
            final(self).bones.shape() == old(self).bones.shape().push(Seq::empty()),
            final(self).bones.parents() == old(self).bones.parents().push(None),
            final(self).bones.values() == old(self).bones.values().push(
                (Bone { transformation, matrix_index }),
            ),
            final(self).max_depth == old(self).max_depth,
            final(self).max_index == old(self).max_index,
    {
        self.roots = Vec::new();
        let bone = Bone::new(transformation, matrix_index);
        self.bones.add_node(bone)
    }

    /// Relate a parent bone to a child bone (by bone reference indices)
    pub fn relate(&mut self, parent: usize, child: usize)
        requires
            old(self).wf(),
            parent < old(self).bones.nodes().len(),
            child < old(self).bones.nodes().len(),
        ensures
            final(self).wf(),
            final(self).bones.shape() == old(self).bones.shape().update(
                parent as int,
                old(self).bones.shape()[parent as int].push(child),
            ),
            final(self).bones.parents() == old(self).bones.parents().update(
                child as int,
                Some(parent),
            ),
            final(self).bones.values() == old(self).bones.values(),
            final(self).bones.root_list() == old(self).bones.root_list(),
            final(self).roots@ == old(self).roots@,
            final(self).max_depth == old(self).max_depth,
            final(self).max_index == old(self).max_index,
    {
        self.bones.relate(parent, child);
    }

    /// Find the maximum matrix index of all the bones (plus 1)
    fn find_max_matrix_index(&mut self)
        requires
            forall|i: int|
                0 <= i < old(self).bones.nodes().len() ==> #[trigger] old(
                    self,
                ).matrix_indices()[i] < usize::MAX,
        ensures
            final(self).max_index == index_bound(old(self).matrix_indices()),
            final(self).bones == old(self).bones,
            final(self).roots@ == old(self).roots@,
            final(self).max_depth == old(self).max_depth,
    {
        let ghost idx = self.matrix_indices();
        let mut max_index: usize = 0;
        let n = self.bones.len();
        let mut i: usize = 0;
        while i < n
            invariant
                n == idx.len(),
                idx == self.matrix_indices(),
                i <= n,
                max_index == index_bound(idx.take(i as int)),
                forall|j: int| 0 <= j < n ==> #[trigger] idx[j] < usize::MAX,
            decreases n - i,
        {
            let b = self.bones.borrow_node(i);
            proof {
                assert(idx.take(i + 1).drop_last() =~= idx.take(i as int));
                assert(b.matrix_index == idx[i as int]);
            }
            if b.matrix_index >= max_index {
                max_index = b.matrix_index + 1;
            }
            i = i + 1;
        }
        proof {
            assert(idx.take(n as int) =~= idx);
        }
        self.max_index = max_index;
    }

    /// Resolve the set by finding the roots, recording a traversal recipe
    /// for each root, finding the scratch depth that the deepest recipe
    /// needs, and finding the number of bone matrices to be exported
    ///
    /// Nothing is done if the recipes are already there
    pub fn resolve(&mut self)
        requires
            old(self).wf(),
            old(self).is_forest(),
            forall|i: int|
                0 <= i < old(self).bones.nodes().len() ==> #[trigger] old(
                    self,
                ).matrix_indices()[i] < usize::MAX,
        ensures
            final(self).wf(),
            old(self).roots@.len() > 0 ==> *final(self) == *old(self),
            old(self).roots@.len() == 0 ==> {
                &&& final(self).roots_fresh()
                &&& final(self).max_index == index_bound(final(self).matrix_indices())
            },
            final(self).bones.nodes() == old(self).bones.nodes(),
    {
        if self.roots.len() == 0 {
            self.resolve_roots();
            proof {
                assert(self.matrix_indices() =~= old(self).matrix_indices());
            }
            self.find_max_matrix_index();
        }
    }

    /// Record the roots and their recipes, and the scratch depth
    fn resolve_roots(&mut self)
        requires
            old(self).roots@.len() == 0,
            old(self).is_forest(),
        ensures
            final(self).wf(),
            final(self).roots_fresh(),
            final(self).bones.nodes() == old(self).bones.nodes(),
            final(self).max_index == old(self).max_index,
    {
        self.bones.find_roots();
        let n = self.bones.borrow_roots().len();
        let count = self.bones.len();
        let ghost nodes = self.bones.nodes();
        let ghost parents = self.bones.parents();
        let ghost len = nodes.len();
        proof {
            lemma_parentless(parents, len as int);
        }
        let mut k: usize = 0;
        while k < n
            invariant
                self.bones.nodes() == nodes,
                self.max_index == old(self).max_index,
                len == nodes.len(),
                len <= usize::MAX,
                old(self).is_forest(),
                old(self).bones.nodes() == nodes,
                self.bones.parents() == parents,
                self.bones.root_list() == parentless(parents, len as int),
                n == self.bones.root_list().len(),
                k <= n,
                self.roots@.len() == k,
                forall|j: int|
                    0 <= j < parentless(parents, len as int).len() ==> {
                        &&& (#[trigger] parentless(parents, len as int)[j] as int) < len
                        &&& parents[parentless(parents, len as int)[j] as int] is None
                    },
                forall|j: int|
                    0 <= j < k ==> {
                        let rc = (#[trigger] self.roots@[j]).1;
                        &&& self.roots@[j].0 == self.bones.root_list()[j]
                        &&& rc.wf()
                        &&& rc.ops_of() == self.bones.traversal(self.roots@[j].0 as int)
                        &&& balanced(rc.ops_of())
                        &&& ops_below(rc.ops_of(), len as int)
                    },
            decreases n - k,
        {
            let r = self.bones.borrow_roots()[k];
            proof {
                assert(self.bones.parents()[r as int] is None);
                assert(old(self).bones.parents()[r as int] is None);
                lemma_traversal_balanced(&self.bones, r);
                lemma_walk_peak_is_height(self.bones.shape(), r as int, len);
                lemma_walk_below(self.bones.shape(), r as int, len);
            }
            let recipe = Recipe::of_ops(self.bones.enum_from(r));
            self.roots.push((r, recipe));
            k = k + 1;
        }
        let mut max_depth: usize = 0;
        let mut j: usize = 0;
        while j < n
            invariant
                n == self.roots@.len(),
                j <= n,
                self.max_index == old(self).max_index,
                self.bones.nodes() == old(self).bones.nodes(),
                max_depth == deepest(self.roots@.take(j as int)),
                forall|i: int|
                    0 <= i < j ==> (#[trigger] self.roots@[i]).1.max_depth_of() <= max_depth,
            decreases n - j,
        {
            let d = self.roots[j].1.depth();
            proof {
                assert(self.roots@.take(j + 1).drop_last() =~= self.roots@.take(j as int));
            }
            max_depth = if d > max_depth {
                d
            } else {
                max_depth
            };
            j = j + 1;
        }
        proof {
            assert(self.roots@.take(n as int) =~= self.roots@);
        }
        self.max_depth = max_depth;
    }

    /// Rewrite the bone matrix indices from 0 if required
    ///
    /// Once resolved, if the number of matrices is below the number of
    /// bones, each bone is given the matrix index of the order in which it
    /// is first reached through traversal from the roots of the set.
    pub fn rewrite_indices(&mut self)
        requires
            old(self).wf(),
            old(self).is_forest(),
            forall|i: int|
                0 <= i < old(self).bones.nodes().len() ==> #[trigger] old(
                    self,
                ).matrix_indices()[i] < usize::MAX,
        ensures
            final(self).wf(),
            final(self).bones.shape() == old(self).bones.shape(),
            final(self).bones.parents() == old(self).bones.parents(),
            final(self).transformations() == old(self).transformations(),
            old(self).roots@.len() > 0 ==> final(self).roots@ == old(self).roots@
                && final(self).max_depth == old(self).max_depth,
            old(self).roots@.len() == 0 ==> final(self).roots_fresh(),
            ({
                let before = if old(self).roots@.len() > 0 {
                    old(self).max_index as nat
                } else {
                    index_bound(old(self).matrix_indices())
                };
                let order = first_occurrences(all_pushed(final(self).roots@));
                if before < old(self).bones.nodes().len() {
                    &&& final(self).matrix_indices() == number_in_order(
                        old(self).matrix_indices(),
                        order,
                    )
                    &&& final(self).max_index == order.len()
                } else {
                    &&& final(self).matrix_indices() == old(self).matrix_indices()
                    &&& final(self).max_index == before
                }
            }),
    {
        self.resolve();
        proof {
            assert(self.matrix_indices() =~= old(self).matrix_indices());
            assert(self.transformations() =~= old(self).transformations());
        }
        if self.max_index < self.bones.len() {
            self.number_bones();
        }
    }

    /// Give each bone the position at which it is first pushed by the
    /// recipes as its matrix index, whatever indices it had; the number of
    /// matrices becomes the number of bones reached
    pub fn number_bones(&mut self)
        requires
            old(self).wf(),
        ensures
            final(self).wf(),
            final(self).bones.shape() == old(self).bones.shape(),
            final(self).bones.parents() == old(self).bones.parents(),
            final(self).bones.root_list() == old(self).bones.root_list(),
            final(self).transformations() == old(self).transformations(),
            final(self).roots@ == old(self).roots@,
            final(self).max_depth == old(self).max_depth,
            final(self).matrix_indices() == number_in_order(
                old(self).matrix_indices(),
                first_occurrences(all_pushed(old(self).roots@)),
            ),
            final(self).max_index == first_occurrences(all_pushed(old(self).roots@)).len(),
    {
        let n = self.bones.len();
        let ghost idx0 = self.matrix_indices();
        let ghost rs = self.roots@;
        let mut seen: Vec<bool> = Vec::new();
        let mut i: usize = 0;
        while i < n
            invariant
                i <= n,
                seen@ == Seq::new(i as nat, |x: int| false),
            decreases n - i,
        {
            seen.push(false);
            i = i + 1;
            proof {
                assert(seen@ =~= Seq::new(i as nat, |x: int| false));
            }
        }
        proof {
            lemma_count_true_none(seen@);
        }
        let mut bone_count: usize = 0;
        let nr = self.roots.len();
        let mut k: usize = 0;
        while k < nr
            invariant
                n == self.bones.nodes().len(),
                nr == rs.len(),
                k <= nr,
                self.roots@ == rs,
                self.wf(),
                self.max_depth == old(self).max_depth,
                self.bones.shape() == old(self).bones.shape(),
                self.bones.parents() == old(self).bones.parents(),
                self.bones.root_list() == old(self).bones.root_list(),
                self.transformations() == old(self).transformations(),
                idx0 == old(self).matrix_indices(),
                seen@.len() == n,
                bone_count == count_true(seen@),
                bone_count == first_occurrences(all_pushed(rs.take(k as int))).len(),
                forall|b: int|
                    0 <= b < n ==> #[trigger] seen@[b] == first_occurrences(
                        all_pushed(rs.take(k as int)),
                    ).contains(b as usize),
                self.matrix_indices() == number_in_order(
                    idx0,
                    first_occurrences(all_pushed(rs.take(k as int))),
                ),
            decreases nr - k,
        {
            let nops = self.roots[k].1.borrow_ops().len();
            let ghost ops = rs[k as int].1.ops_of();
            let ghost before = all_pushed(rs.take(k as int));
            let mut j: usize = 0;
            while j < nops
                invariant
                    n == self.bones.nodes().len(),
                    nr == rs.len(),
                    k < nr,
                    self.roots@ == rs,
                    self.wf(),
                    ops == rs[k as int].1.ops_of(),
                    nops == ops.len(),
                    j <= nops,
                    before == all_pushed(rs.take(k as int)),
                    self.max_depth == old(self).max_depth,
                    self.bones.shape() == old(self).bones.shape(),
                    self.bones.parents() == old(self).bones.parents(),
                    self.bones.root_list() == old(self).bones.root_list(),
                    self.transformations() == old(self).transformations(),
                    seen@.len() == n,
                    bone_count == count_true(seen@),
                    bone_count == first_occurrences(before + pushed(ops.take(j as int))).len(),
                    forall|b: int|
                        0 <= b < n ==> #[trigger] seen@[b] == first_occurrences(
                            before + pushed(ops.take(j as int)),
                        ).contains(b as usize),
                    self.matrix_indices() == number_in_order(
                        idx0,
                        first_occurrences(before + pushed(ops.take(j as int))),
                    ),
                decreases nops - j,
            {
                let op = self.roots[k].1.borrow_ops()[j];
                let ghost order = before + pushed(ops.take(j as int));
                let ghost d = first_occurrences(order);
                proof {
                    assert(ops.take(j + 1).drop_last() =~= ops.take(j as int));
                    assert(ops.take(j + 1).last() == op);
                    assert(ops_below(ops, n as int));
                    assert(op_index(ops[j as int]) < n);
                }
                match op {
                    NodeEnumOp::Push(b, _) => {
                        proof {
                            assert(before + pushed(ops.take(j + 1)) =~= order.push(b));
                            assert((order.push(b)).drop_last() =~= order);
                        }
                        if !seen[b] {
                            proof {
                                lemma_count_true_bound(seen@, b as int);
                                lemma_count_true_update(seen@, b as int);
                            }
                            seen.set(b, true);
                            let ghost mi = self.matrix_indices();
                            let ghost tr = self.transformations();
                            let ghost vals = self.bones.values();
                            let bone = self.bones.borrow_node_mut(b);
                            bone.matrix_index = bone_count;
                            proof {
                                assert(self.bones.values() == vals.update(
                                    b as int,
                                    (Bone { transformation: vals[b as int].transformation, matrix_index: bone_count }),
                                ));
                                assert(self.bones.values()[b as int].matrix_index == bone_count);
                                assert(self.bones.nodes().len() == n);
                            }
                            bone_count = bone_count + 1;
                            proof {
                                let d2 = d.push(b);
                                assert(d2.drop_last() =~= d);
                                assert forall|x: int| 0 <= x < n implies #[trigger] seen@[x]
                                    == d2.contains(x as usize) by {
                                    if x != b {
                                        if d2.contains(x as usize) {
                                            let w = choose|w: int|
                                                0 <= w < d2.len() && d2[w] == x as usize;
                                            assert(d[w] == x as usize);
                                        }
                                    } else {
                                        assert(d2[d.len() as int] == b);
                                    }
                                }
                                assert(self.matrix_indices() =~= mi.update(
                                    b as int,
                                    d.len() as usize,
                                ));
                                assert(d2.last() == b);
                                assert(number_in_order(idx0, d2) == number_in_order(
                                    idx0,
                                    d,
                                ).update(b as int, d.len() as usize));
                                assert(self.transformations() =~= tr);
                                assert(self.transformations() =~= old(self).transformations());
                            }
                        } else {
                            proof {
                                assert(d.contains(b));
                            }
                        }
                    },
                    NodeEnumOp::Pop(_, _) => {
                        proof {
                            assert(pushed(ops.take(j + 1)) =~= pushed(ops.take(j as int)));
                        }
                    },
                }
                j = j + 1;
            }
            proof {
                assert(ops.take(nops as int) =~= ops);
                assert(rs.take(k + 1).drop_last() =~= rs.take(k as int));
                assert(rs.take(k + 1).last() == rs[k as int]);
            }
            k = k + 1;
        }
        proof {
            assert(rs.take(nr as int) =~= rs);
        }
        self.max_index = bone_count;
    }

    /// The order in which the bones' matrices are derived: for each bone
    /// as the recipes push it, the bone and the bone whose matrix it is
    /// composed with (`None` for a root)
    ///
    /// The parent is read from a scratch array indexed by depth, as deep
    /// as the deepest recipe, so the pass is one linear scan of the
    /// recipes
    pub fn derivation_steps(&self) -> (r: Vec<(usize, Option<usize>)>)
        requires
            self.wf(),
        ensures
            r@ == all_steps(self.roots@),
    {
        let mut out: Vec<(usize, Option<usize>)> = Vec::new();
        let mut scratch: Vec<usize> = Vec::new();
        let mut i: usize = 0;
        while i < self.max_depth
            invariant
                i <= self.max_depth,
                scratch@.len() == i,
            decreases self.max_depth - i,
        {
            scratch.push(0);
            i = i + 1;
        }
        let nr = self.roots.len();
        let mut k: usize = 0;
        while k < nr
            invariant
                nr == self.roots@.len(),
                k <= nr,
                self.wf(),
                scratch@.len() == self.max_depth,
                out@ == all_steps(self.roots@.take(k as int)),
            decreases nr - k,
        {
            let ops = self.roots[k].1.borrow_ops();
            let nops = ops.len();
            let ghost rc = self.roots@[k as int].1;
            let mut mat_depth: usize = 0;
            let mut j: usize = 0;
            while j < nops
                invariant
                    nr == self.roots@.len(),
                    k < nr,
                    self.wf(),
                    rc == self.roots@[k as int].1,
                    ops@ == rc.ops_of(),
                    nops == ops@.len(),
                    j <= nops,
                    scratch@.len() == self.max_depth,
                    scan(Seq::empty(), ops@.take(j as int)) is Some,
                    scan(Seq::empty(), ops@.take(j as int))->0.len() == mat_depth,
                    forall|d: int|
                        0 <= d < mat_depth ==> scratch@[d] == (#[trigger] scan(
                            Seq::empty(),
                            ops@.take(j as int),
                        )->0[d]).0,
                    out@ == all_steps(self.roots@.take(k as int)) + steps(ops@.take(j as int)),
                decreases nops - j,
            {
                let ghost pre = ops@.take(j as int);
                let ghost open = scan(Seq::empty(), pre)->0;
                let op = ops[j];
                proof {
                    assert(rc.wf());
                    assert(balanced(rc.ops_of()));
                    lemma_prefix(ops@, j + 1);
                    assert(ops@.take(j + 1) =~= pre + seq![op]);
                    assert(ops@.take(j + 1).drop_last() =~= pre);
                    lemma_scan_concat(Seq::empty(), pre, seq![op]);
                    assert(seq![op].drop_first() =~= Seq::<NodeEnumOp<usize>>::empty());
                    assert(seq![op][0] == op);
                    lemma_scan_depth(Seq::empty(), pre);
                }
                match op {
                    NodeEnumOp::Push(n, c) => {
                        let parent = if mat_depth == 0 {
                            None
                        } else {
                            Some(scratch[mat_depth - 1])
                        };
                        out.push((n, parent));
                        proof {
                            assert(open_top(scan(Seq::empty(), pre)) == parent);
                            assert(steps(ops@.take(j + 1)) == steps(pre).push((n, parent)));
                            assert(out@ =~= all_steps(self.roots@.take(k as int)) + steps(
                                ops@.take(j + 1),
                            ));
                            assert(open.push((n, c)).len() == mat_depth + 1);
                        }
                        scratch.set(mat_depth, n);
                        mat_depth = mat_depth + 1;
                        proof {
                            let open2 = open.push((n, c));
                            assert(scan(open2, seq![op].drop_first()) == Some(open2));
                            assert(scan(open, seq![op]) == Some(open2));
                            assert(scan(Seq::empty(), ops@.take(j + 1)) == Some(open2));
                            assert forall|d: int| 0 <= d < mat_depth implies scratch@[d] == (
                            #[trigger] scan(Seq::empty(), ops@.take(j + 1))->0[d]).0 by {
                                if d < mat_depth - 1 {
                                    assert(open2[d] == open[d]);
                                }
                            }
                        }
                    },
                    NodeEnumOp::Pop(_, _) => {
                        mat_depth = mat_depth - 1;
                        proof {
                            let open2 = open.drop_last();
                            assert(scan(open2, seq![op].drop_first()) == Some(open2));
                            assert(scan(open, seq![op]) == Some(open2));
                            assert(scan(Seq::empty(), ops@.take(j + 1)) == Some(open2));
                            assert(steps(ops@.take(j + 1)) == steps(pre));
                            assert forall|d: int| 0 <= d < mat_depth implies scratch@[d] == (
                            #[trigger] scan(Seq::empty(), ops@.take(j + 1))->0[d]).0 by {
                                assert(open2[d] == open[d]);
                            }
                        }
                    },
                }
                j = j + 1;
            }
            proof {
                assert(ops@.take(nops as int) =~= ops@);
                assert(self.roots@.take(k + 1).drop_last() =~= self.roots@.take(k as int));
                assert(self.roots@.take(k + 1).last() == self.roots@[k as int]);
            }
            k = k + 1;
        }
        proof {
            assert(self.roots@.take(nr as int) =~= self.roots@);
        }
        out
    }

    /// The root bone indices in the set
    pub fn iter_roots(&self) -> (r: Vec<usize>)
        ensures
            r@ == self.roots@.map_values(|p: (usize, Recipe)| p.0),
    {
        let mut r: Vec<usize> = Vec::new();
        let n = self.roots.len();
        let mut k: usize = 0;
        while k < n
            invariant
                n == self.roots@.len(),
                k <= n,
                r@ == self.roots@.take(k as int).map_values(|p: (usize, Recipe)| p.0),
            decreases n - k,
        {
            r.push(self.roots[k].0);
            k = k + 1;
            proof {
                assert(r@ =~= self.roots@.take(k as int).map_values(|p: (usize, Recipe)| p.0));
            }
        }
        proof {
            assert(self.roots@.take(n as int) =~= self.roots@);
        }
        r
    }

    /// True if every bone without a parent is the root of a finite tree,
    /// as [BoneSet::resolve] needs
    pub fn forms_forest(&self) -> (r: bool)
        ensures
            r == self.is_forest(),
    {
        let n = self.bones.len();
        let mut i: usize = 0;
        while i < n
            invariant
                n == self.bones.nodes().len(),
                i <= n,
                forall|j: int|
                    0 <= j < i && #[trigger] self.bones.parents()[j] is None
                        ==> self.bones.spans_tree(j),
            decreases n - i,
        {
            let node = &self.bones.borrow_elements()[i];
            proof {
                assert(self.bones.parents()[i as int] == node.parent_of());
            }
            if !node.has_parent() && !self.bones.spans_tree_from(i) {
                return false;
            }
            i = i + 1;
        }
        true
    }

    /// True if every bone's matrix index is below the number of matrices
    pub fn matrix_indices_fit(&self) -> (r: bool)
        ensures
            r == self.indices_fit(),
    {
        let n = self.bones.len();
        let mut i: usize = 0;
        while i < n
            invariant
                n == self.bones.nodes().len(),
                i <= n,
                forall|j: int| 0 <= j < i ==> #[trigger] self.matrix_indices()[j] < self.max_index,
            decreases n - i,
        {
            if self.bones.borrow_node(i).matrix_index >= self.max_index {
                proof {
                    assert(self.matrix_indices()[i as int] >= self.max_index);
                }
                return false;
            }
            i = i + 1;
        }
        true
    }
}


/// Step `i` of `s` names a parent whose step comes earlier and has the
/// bone of step `i` among its children
pub open spec fn linked(ch: Seq<Seq<usize>>, s: Seq<(usize, Option<usize>)>, i: int) -> bool {
    &&& s[i].1 is Some
    &&& exists|j: int|
        0 <= j < i && (#[trigger] s[j]).0 == s[i].1->0 && ch[s[j].0 as int].contains(s[i].0)
}

proof fn lemma_linked_shift(
    ch: Seq<Seq<usize>>,
    a: Seq<(usize, Option<usize>)>,
    b: Seq<(usize, Option<usize>)>,
    i: int,
)
    requires
        0 <= i < b.len(),
        linked(ch, b, i),
    ensures
        linked(ch, a + b, i + a.len()),
{
    let j = choose|j: int|
        0 <= j < i && (#[trigger] b[j]).0 == b[i].1->0 && ch[b[j].0 as int].contains(b[i].0);
    assert((a + b)[j + a.len()] == b[j]);
    assert((a + b)[i + a.len()] == b[i]);
}

proof fn lemma_linked_keep(
    ch: Seq<Seq<usize>>,
    a: Seq<(usize, Option<usize>)>,
    b: Seq<(usize, Option<usize>)>,
    i: int,
)
    requires
        0 <= i < a.len(),
        linked(ch, a, i),
    ensures
        linked(ch, a + b, i),
{
    let j = choose|j: int|
        0 <= j < i && (#[trigger] a[j]).0 == a[i].1->0 && ch[a[j].0 as int].contains(a[i].0);
    assert((a + b)[j] == a[j]);
    assert((a + b)[i] == a[i]);
}

proof fn lemma_steps_concat(
    open: Seq<(usize, bool)>,
    a: Seq<NodeEnumOp<usize>>,
    b: Seq<NodeEnumOp<usize>>,
)
    requires
        scan(open, a) is Some,
    ensures
        steps_from(open, a + b) == steps_from(open, a) + steps_from(scan(open, a)->0, b),
    decreases b.len(),
{
    if b.len() == 0 {
        assert(a + b =~= a);
        assert(steps_from(open, a) + steps_from(scan(open, a)->0, b) =~= steps_from(open, a));
    } else {
        lemma_steps_concat(open, a, b.drop_last());
        assert((a + b).drop_last() =~= a + b.drop_last());
        assert((a + b).last() == b.last());
        lemma_scan_concat(open, a, b.drop_last());
        let s1 = steps_from(open, a);
        let s2 = steps_from(scan(open, a)->0, b.drop_last());
        match b.last() {
            NodeEnumOp::Push(n, _) => {
                assert((s1 + s2).push((n, open_top(scan(scan(open, a)->0, b.drop_last()))))
                    =~= s1 + s2.push((n, open_top(scan(scan(open, a)->0, b.drop_last())))));
            },
            NodeEnumOp::Pop(_, _) => {},
        }
    }
}

/// The steps of one node's traversal: the node itself first, enclosed by
/// the top of `open`; every later step is linked to an earlier one
proof fn lemma_walk_steps(ch: Seq<Seq<usize>>, x: int, fuel: nat, open: Seq<(usize, bool)>)
    requires
        ch.len() <= usize::MAX,
    ensures
        ({
            let s = steps_from(open, walk(ch, x, fuel));
            forall|i: int|
                0 <= i < s.len() ==> (i == 0 && #[trigger] s[i] == (
                    x as usize,
                    open_top(Some(open)),
                )) || linked(ch, s, i)
        }),
    decreases fuel, 0int,
{
    if fuel == 0 || x < 0 || x >= ch.len() {
    } else {
        let hc = ch[x].len() > 0;
        let p = seq![NodeEnumOp::Push(x as usize, hc)];
        let q = seq![NodeEnumOp::Pop(x as usize, hc)];
        let w = walk_from(ch, ch[x], 0, (fuel - 1) as nat);
        let o1 = open.push((x as usize, hc));
        lemma_walk_from_steps(ch, ch[x], 0, (fuel - 1) as nat, o1);
        lemma_walk_from_scan(ch, ch[x], 0, (fuel - 1) as nat, o1);
        assert(p.drop_first() =~= Seq::<NodeEnumOp<usize>>::empty());
        assert(p.drop_last() =~= Seq::<NodeEnumOp<usize>>::empty());
        assert(q.drop_last() =~= Seq::<NodeEnumOp<usize>>::empty());
        assert(scan(o1, p.drop_first()) == Some(o1));
        assert(scan(open, p) == Some(o1));
        lemma_scan_concat(open, p, w);
        lemma_steps_concat(open, p, w);
        lemma_steps_concat(open, p + w, q);
        let sp = steps_from(open, p);
        let sw = steps_from(o1, w);
        assert(steps_from(open, Seq::<NodeEnumOp<usize>>::empty()) =~= Seq::<
            (usize, Option<usize>),
        >::empty());
        assert(sp =~= seq![(x as usize, open_top(Some(open)))]);
        assert(steps_from(o1, q.drop_last()) =~= Seq::<(usize, Option<usize>)>::empty());
        assert(steps_from(o1, q) =~= Seq::<(usize, Option<usize>)>::empty());
        let s = steps_from(open, walk(ch, x, fuel));
        assert(s =~= sp + sw);
        assert(open_top(Some(o1)) == Some(x as usize));
        assert forall|i: int|
            0 <= i < s.len() implies (i == 0 && #[trigger] s[i] == (
                x as usize,
                open_top(Some(open)),
            )) || linked(ch, s, i) by {
            if i > 0 {
                let k = i - 1;
                assert(s[i] == sw[k]);
                if linked(ch, sw, k) {
                    lemma_linked_shift(ch, sp, sw, k);
                } else {
                    assert(s[0].0 == x as usize);
                    let m = choose|m: int| 0 <= m < ch[x].len() && ch[x][m] == sw[k].0;
                    assert(s[0].0 as int == x);
                    assert(ch[x][m] == s[i].0);
                    assert(ch[s[0].0 as int].contains(s[i].0));
                    assert(linked(ch, s, i));
                }
            }
        }
    }
}

/// The steps of the traversals of `cs[m..]`: each is either one of those
/// nodes, enclosed by the top of `open`, or linked to an earlier step
proof fn lemma_walk_from_steps(
    ch: Seq<Seq<usize>>,
    cs: Seq<usize>,
    m: int,
    fuel: nat,
    open: Seq<(usize, bool)>,
)
    requires
        ch.len() <= usize::MAX,
    ensures
        ({
            let s = steps_from(open, walk_from(ch, cs, m, fuel));
            forall|i: int|
                0 <= i < s.len() ==> ((#[trigger] s[i]).1 == open_top(Some(open)) && exists|k: int|
                    0 <= k < cs.len() && cs[k] == s[i].0) || linked(ch, s, i)
        }),
    decreases fuel, cs.len() - m,
{
    if m < 0 || m >= cs.len() {
        assert(steps_from(open, Seq::<NodeEnumOp<usize>>::empty()) =~= Seq::<
            (usize, Option<usize>),
        >::empty());
    } else {
        let a = walk(ch, cs[m] as int, fuel);
        let b = walk_from(ch, cs, m + 1, fuel);
        lemma_walk_steps(ch, cs[m] as int, fuel, open);
        lemma_walk_from_steps(ch, cs, m + 1, fuel, open);
        lemma_walk_scan(ch, cs[m] as int, fuel, open);
        lemma_steps_concat(open, a, b);
        let sa = steps_from(open, a);
        let sb = steps_from(open, b);
        let s = steps_from(open, walk_from(ch, cs, m, fuel));
        assert(s =~= sa + sb);
        assert forall|i: int|
            0 <= i < s.len() implies ((#[trigger] s[i]).1 == open_top(Some(open)) && exists|
                k: int,
            | 0 <= k < cs.len() && cs[k] == s[i].0) || linked(ch, s, i) by {
            if i < sa.len() {
                assert(s[i] == sa[i]);
                if linked(ch, sa, i) {
                    lemma_linked_keep(ch, sa, sb, i);
                } else {
                    assert(cs[m] == s[i].0);
                }
            } else {
                let k = i - sa.len();
                assert(s[i] == sb[k]);
                if linked(ch, sb, k) {
                    lemma_linked_shift(ch, sa, sb, k);
                }
            }
        }
    }
}

/// In a bone set whose recipes describe the hierarchy as it stands, the
/// derivation order composes every bone with its parent: a step that
/// names an enclosing bone is linked to that bone's earlier step, which
/// lists the bone among its children, and a step that names none is a
/// root of the hierarchy
pub proof fn lemma_derivation_follows_hierarchy<T>(set: &BoneSet<T>)
    requires
        set.roots_fresh(),
    ensures
        forall|i: int|
            0 <= i < all_steps(set.roots@).len() ==> {
                ||| (#[trigger] all_steps(set.roots@)[i]).1 is None && set.bones.parents()[all_steps(
                    set.roots@,
                )[i].0 as int] is None
                ||| linked(set.bones.shape(), all_steps(set.roots@), i)
            },
{
    let rs = set.roots@;
    lemma_all_steps(set, rs.len() as int);
    assert(rs.take(rs.len() as int) =~= rs);
}

proof fn lemma_all_steps<T>(set: &BoneSet<T>, k: int)
    requires
        set.roots_fresh(),
        0 <= k <= set.roots@.len(),
    ensures
        forall|i: int|
            0 <= i < all_steps(set.roots@.take(k)).len() ==> {
                ||| (#[trigger] all_steps(set.roots@.take(k))[i]).1 is None
                    && set.bones.parents()[all_steps(set.roots@.take(k))[i].0 as int] is None
                ||| linked(set.bones.shape(), all_steps(set.roots@.take(k)), i)
            },
    decreases k,
{
    let rs = set.roots@;
    let ch = set.bones.shape();
    let len = set.bones.nodes().len();
    if k == 0 {
        assert(rs.take(0).len() == 0);
    } else {
        lemma_all_steps(set, k - 1);
        assert(rs.take(k).drop_last() =~= rs.take(k - 1));
        assert(rs.take(k).last() == rs[k - 1]);
        let prev = all_steps(rs.take(k - 1));
        let r = rs[k - 1].0;
        let ops = rs[k - 1].1.ops_of();
        assert(ops == walk(ch, r as int, len));
        lemma_walk_steps(ch, r as int, len, Seq::empty());
        lemma_parentless(set.bones.parents(), len as int);
        assert(set.bones.root_list()[k - 1] == r);
        assert(set.bones.parents()[r as int] is None);
        let cur = steps(ops);
        let s = all_steps(rs.take(k));
        assert(s =~= prev + cur);
        assert forall|i: int| 0 <= i < s.len() implies {
            ||| (#[trigger] s[i]).1 is None && set.bones.parents()[s[i].0 as int] is None
            ||| linked(ch, s, i)
        } by {
            if i < prev.len() {
                assert(s[i] == prev[i]);
                if linked(ch, prev, i) {
                    lemma_linked_keep(ch, prev, cur, i);
                }
            } else {
                let j = i - prev.len();
                assert(s[i] == cur[j]);
                if linked(ch, cur, j) {
                    lemma_linked_shift(ch, prev, cur, j);
                }
            }
        }
    }
}

} // verus!
