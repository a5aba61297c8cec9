//! A hierarchy of nodes addressed by `usize` indices into one array,
//! with a depth-first traversal that is produced by an explicit stack
//! machine and can be recorded once as a [`Recipe`].

use vstd::prelude::*;

use crate::traversal::{
    balanced, fits, fits_from, height, lemma_peak_at_least_depth, lemma_peak_concat,
    lemma_scan_concat, lemma_scan_depth, op_index, ops_depth, ops_peak, scan, walk, walk_from,
};

verus! {

/// A node in the hierarchy
pub struct Node<T> {
    /// An optional parent index - if None, this is a root
    parent: Option<usize>,
    /// Array of child indices
    children: Vec<usize>,
    /// Data associated with the node
    pub data: T,
}

impl<T> Node<T> {
    /// The recorded parent of the node
    pub closed spec fn parent_of(&self) -> Option<usize> {
        self.parent
    }

    /// The children of the node, in the order they were added
    pub closed spec fn kids(&self) -> Seq<usize> {
        self.children@
    }

    /// The data held by the node
    pub closed spec fn value(&self) -> T {
        self.data
    }

    /// Create a new node in the hierarchy, with no children
    pub fn new(data: T, parent: Option<usize>) -> (r: Self)
        ensures
            r.parent_of() == parent,
            r.kids() == Seq::<usize>::empty(),
            r.value() == data,
    {
        let children = Vec::new();
        Self { parent, children, data }
    }

    /// Returns true if the node has a parent - i.e. it is not the
    /// root of the hierarchy
    pub fn has_parent(&self) -> (r: bool)
        ensures
            r == self.parent_of().is_some(),
    {
        self.parent.is_some()
    }

    /// Set the parent of a node
    pub fn set_parent(&mut self, parent: Option<usize>)
        ensures
            final(self).parent_of() == parent,
            final(self).kids() == old(self).kids(),
            final(self).value() == old(self).value(),
    {
        self.parent = parent;
    }

    /// Add a child of this node
    pub fn add_child(&mut self, child: usize)
        ensures
            final(self).parent_of() == old(self).parent_of(),
            final(self).kids() == old(self).kids().push(child),
            final(self).value() == old(self).value(),
    {
        self.children.push(child);
    }

    /// Return true if the node has children
    pub fn has_children(&self) -> (r: bool)
        ensures
            r == (self.kids().len() > 0),
    {
        self.children.len() > 0
    }
}


/// One step of a depth-first traversal: a node is pushed into, then its
/// children are pushed and popped, then the node is popped.
#[derive(Debug, Clone, Copy, PartialEq)]
pub enum NodeEnumOp<T> {
    /// Pushing in to the hierachy to new node index, and true if node has children
    Push(T, bool),
    /// Popping out to the hierachy to node index
    Pop(T, bool),
}

impl<T> NodeEnumOp<T> {
    /// Return true if this is a Pop, false if it is a Push
    pub fn is_pop(&self) -> (r: bool)
        ensures
            r == (self is Pop),
    {
        match self {
            NodeEnumOp::Pop(_, _) => true,
            _ => false,
        }
    }
}


/// The children lists of a slice of nodes
pub open spec fn shape_of<T>(nodes: Seq<Node<T>>) -> Seq<Seq<usize>> {
    Seq::new(nodes.len(), |i: int| nodes[i].kids())
}

/// The indices `i < k` that have no parent, in order
pub open spec fn parentless(parents: Seq<Option<usize>>, k: int) -> Seq<usize>
    decreases k,
{
    if k <= 0 {
        Seq::empty()
    } else if parents[k - 1] is None {
        parentless(parents, k - 1).push((k - 1) as usize)
    } else {
        parentless(parents, k - 1)
    }
}

/// A hierarchy of nodes, each of which has a data of the type of the
/// tree
pub struct Hierarchy<T> {
    /// The elements in the hierarchy
    elements: Vec<Node<T>>,
    /// The roots in the hierarchy - more than one tree can be stored
    /// in the hierarchy
    roots: Vec<usize>,
}

impl<T> Hierarchy<T> {
    /// The nodes of the hierarchy, by index
    pub closed spec fn nodes(&self) -> Seq<Node<T>> {
        self.elements@
    }

    /// The roots recorded by the last [Hierarchy::find_roots]
    pub closed spec fn root_list(&self) -> Seq<usize> {
        self.roots@
    }

    /// The children lists of the nodes
    pub open spec fn shape(&self) -> Seq<Seq<usize>> {
        shape_of(self.nodes())
    }

    /// The recorded parents of the nodes
    pub open spec fn parents(&self) -> Seq<Option<usize>> {
        Seq::new(self.nodes().len(), |i: int| self.nodes()[i].parent_of())
    }

    /// The data of the nodes
    pub open spec fn values(&self) -> Seq<T> {
        Seq::new(self.nodes().len(), |i: int| self.nodes()[i].value())
    }

    /// The tree below `x` is finite: following children never leads back
    /// to a node on the way
    pub open spec fn spans_tree(&self, x: int) -> bool {
        fits(self.shape(), x, self.nodes().len())
    }

    /// The depth-first traversal from `x`
    pub open spec fn traversal(&self, x: int) -> Seq<NodeEnumOp<usize>> {
        walk(self.shape(), x, self.nodes().len())
    }

    /// The number of nodes on the longest path down from `x`
    pub open spec fn tree_height(&self, x: int) -> nat {
        height(self.shape(), x, self.nodes().len())
    }

    /// Create a new hierarchy
    pub fn new() -> (r: Self)
        ensures
            r.nodes().len() == 0,
            r.root_list().len() == 0,
    {
        Self { elements: Vec::new(), roots: Vec::new() }
    }

    /// Return the number of elements in the hierarchy
    pub fn len(&self) -> (r: usize)
        ensures
            r == self.nodes().len(),
    {
        self.elements.len()
    }

    /// Add a node to the hierarchy
    pub fn add_node(&mut self, data: T) -> (r: usize)
        ensures
            r == old(self).nodes().len(),
            final(self).shape() == old(self).shape().push(Seq::empty()),
            final(self).parents() == old(self).parents().push(None),
            final(self).values() == old(self).values().push(data),
            final(self).root_list() == old(self).root_list(),
    {
        let n = self.elements.len();
        self.elements.push(Node::new(data, None));
        proof {
            assert(self.shape() =~= old(self).shape().push(Seq::empty()));
            assert(self.parents() =~= old(self).parents().push(None));
            assert(self.values() =~= old(self).values().push(data));
        }
        n
    }

    /// Add a relation from a parent to a child in the hierarchy
    pub fn relate(&mut self, parent: usize, child: usize)
        requires
            parent < old(self).nodes().len(),
            child < old(self).nodes().len(),
        ensures
            final(self).nodes().len() == old(self).nodes().len(),
            final(self).shape() == old(self).shape().update(
                parent as int,
                old(self).shape()[parent as int].push(child),
            ),
            final(self).parents() == old(self).parents().update(child as int, Some(parent)),
            final(self).values() == old(self).values(),
            final(self).root_list() == old(self).root_list(),
    {
        self.elements[parent].add_child(child);
        self.elements[child].set_parent(Some(parent));
        proof {
            assert(self.shape() =~= old(self).shape().update(
                parent as int,
                old(self).shape()[parent as int].push(child),
            ));
            assert(self.parents() =~= old(self).parents().update(child as int, Some(parent)));
            assert(self.values() =~= old(self).values());
        }
    }

    /// Find all the roots of the hierarchy and record it
    pub fn find_roots(&mut self)
        ensures
            final(self).nodes() == old(self).nodes(),
            final(self).root_list() == parentless(
                old(self).parents(),
                old(self).nodes().len() as int,
            ),
    {
        self.roots = Vec::new();
        let n = self.elements.len();
        let mut i: usize = 0;
        while i < n
            invariant
                n == self.elements@.len(),
                i <= n,
                self.elements@ == old(self).elements@,
                self.roots@ == parentless(self.parents(), i as int),
            decreases n - i,
        {
            if !self.elements[i].has_parent() {
                self.roots.push(i);
            }
            i = i + 1;
        }
    }

    /// Borrow a node in the hierarchy
    pub fn borrow_node(&self, index: usize) -> (r: &T)
        requires
            index < self.nodes().len(),
        ensures
            *r == self.values()[index as int],
    {
        &self.elements[index].data
    }

    /// Mutuably borrow a node in the hierarchy
    pub fn borrow_mut(&mut self) -> (r: (&Vec<usize>, &mut Vec<Node<T>>))
        ensures
            r.0@ == old(self).root_list(),
            r.1@ == old(self).nodes(),
            final(self).root_list() == old(self).root_list(),
            final(self).nodes() == final(r.1)@,
    {
        (&self.roots, &mut self.elements)
    }

    /// Mutably borrow the data of one node
    pub fn borrow_node_mut(&mut self, index: usize) -> (r: &mut T)
        requires
            index < old(self).nodes().len(),
        ensures
            *r == old(self).values()[index as int],
            final(self).values() == old(self).values().update(index as int, *final(r)),
            final(self).shape() == old(self).shape(),
            final(self).parents() == old(self).parents(),
            final(self).root_list() == old(self).root_list(),
    {
        let r = &mut self.elements[index].data;
        r
    }

    /// Borrow the roots of the hierarchy
    pub fn borrow_roots(&self) -> (r: &Vec<usize>)
        ensures
            r@ == self.root_list(),
    {
        &self.roots
    }

    /// Enumerate the nodes from a particular node
    pub fn enum_from<'z>(&'z self, node: usize) -> (r: NodeEnum<'z, T>)
        requires
            self.spans_tree(node as int),
        ensures
            r.wf(),
            r.nodes() == self.nodes(),
            r.rest() == self.traversal(node as int),
    {
        NodeEnum::new(self.elements.as_slice(), node)
    }

    /// Iterate the nodes from a particular node
    pub fn iter_from<'z>(&'z self, node: usize) -> (r: NodeIter<'z, T>)
        requires
            self.spans_tree(node as int),
        ensures
            r.wf(),
            r.nodes() == self.nodes(),
            r.rest() == self.traversal(node as int),
    {
        NodeIter::new(self.elements.as_slice(), node)
    }

    /// True if the tree below `node` is finite, so that it can be
    /// enumerated
    pub fn spans_tree_from(&self, node: usize) -> (r: bool)
        ensures
            r == self.spans_tree(node as int),
    {
        self.fits_within(node, self.elements.len())
    }

    /// True if the tree below `x` is finite within `fuel` levels
    fn fits_within(&self, x: usize, fuel: usize) -> (r: bool)
        ensures
            r == fits(self.shape(), x as int, fuel as nat),
        decreases fuel,
    {
        if fuel == 0 {
            return false;
        }
        if x >= self.elements.len() {
            return false;
        }
        let ghost ch = self.shape();
        let ghost cs = ch[x as int];
        let n = self.elements[x].children.len();
        let mut j: usize = 0;
        while j < n
            invariant
                ch == self.shape(),
                x < ch.len(),
                cs == ch[x as int],
                cs == self.elements@[x as int].children@,
                n == cs.len(),
                j <= n,
                fuel > 0,
                fits_from(ch, cs, 0, (fuel - 1) as nat) == fits_from(
                    ch,
                    cs,
                    j as int,
                    (fuel - 1) as nat,
                ),
            decreases n - j,
        {
            let c = self.elements[x].children[j];
            if !self.fits_within(c, fuel - 1) {
                return false;
            }
            j = j + 1;
        }
        true
    }

    /// Borrow all the elements
    pub fn borrow_elements<'z>(&'z self) -> (r: &'z Vec<Node<T>>)
        ensures
            r@ == self.nodes(),
    {
        &self.elements
    }
}

/// The position of the enumeration at one node of the path from the
/// starting node
enum NodeEnumState {
    /// The node has not been pushed yet
    PreNode(usize),
    /// The node has been pushed; its children are next
    PreChildren(usize),
    /// The node's children before the given position have been handled
    Child(usize, usize),
    /// The node's children have all been handled; the pop is next
    PostChildren(usize),
}

/// The operations still to come from one state, where `fuel` bounds the
/// depth left below its node
spec fn state_rest(ch: Seq<Seq<usize>>, s: NodeEnumState, fuel: nat) -> Seq<NodeEnumOp<usize>> {
    match s {
        NodeEnumState::PreNode(x) => walk(ch, x as int, fuel),
        NodeEnumState::PreChildren(x) => walk_from(ch, ch[x as int], 0, (fuel - 1) as nat)
            + seq![NodeEnumOp::Pop(x, ch[x as int].len() > 0)],
        NodeEnumState::Child(x, n) => walk_from(ch, ch[x as int], n as int, (fuel - 1) as nat)
            + seq![NodeEnumOp::Pop(x, ch[x as int].len() > 0)],
        NodeEnumState::PostChildren(x) => seq![NodeEnumOp::Pop(x, ch[x as int].len() > 0)],
    }
}

/// A state can be resumed: its node is in range and its tree is finite
spec fn state_ok(ch: Seq<Seq<usize>>, s: NodeEnumState, fuel: int) -> bool {
    &&& fuel > 0
    &&& match s {
        NodeEnumState::PreNode(x) => fits(ch, x as int, fuel as nat),
        NodeEnumState::PreChildren(x) => fits(ch, x as int, fuel as nat),
        NodeEnumState::Child(x, n) => {
            &&& x < ch.len()
            &&& n <= ch[x as int].len()
            &&& fits_from(ch, ch[x as int], n as int, (fuel - 1) as nat)
        },
        NodeEnumState::PostChildren(x) => x < ch.len(),
    }
}

/// The operations still to come from a whole stack, the top first; the
/// state at position `i` has `top - i` levels of fuel
spec fn stack_rest(ch: Seq<Seq<usize>>, st: Seq<NodeEnumState>, top: nat) -> Seq<
    NodeEnumOp<usize>,
>
    decreases st.len(),
{
    if st.len() == 0 {
        Seq::empty()
    } else {
        state_rest(ch, st.last(), (top - (st.len() - 1)) as nat) + stack_rest(
            ch,
            st.drop_last(),
            top,
        )
    }
}

/// How many internal steps the state on top needs before an operation
/// comes out
spec fn state_rank(s: NodeEnumState) -> nat {
    match s {
        NodeEnumState::PreNode(_) => 0,
        NodeEnumState::PreChildren(_) => 2,
        NodeEnumState::Child(_, _) => 1,
        NodeEnumState::PostChildren(_) => 0,
    }
}

/// An enumeration over a hierarchy of nodes, yielding the
/// [NodeEnumOp]s of a depth-first traversal from a node
///
/// For a hierarchy of nodes:
///   A -> B -> C0
///             C1
///        D
///        E  -> F
/// the enumeration provides
///
///    Push(A,true)
///    Push(B,true)
///    Push(C0,false)
///    Pop(C0)
///    Push(C1,false)
///    Pop(C1)
///    Pop(B)
///    Push(D,false)
///    Pop(D)
///    Push(E,true)
///    Push(F,false)
///    Pop(F)
///    Pop(E)
///    Pop(A)
pub struct NodeEnum<'a, T> {
    /// Hierarchy of nodes that is being iterated over
    pub hierarchy: &'a [Node<T>],
    /// Stack of states, one per node on the path from the start
    stack: Vec<NodeEnumState>,
}

impl<'a, T> NodeEnum<'a, T> {
    /// The enumeration can be resumed
    pub closed spec fn wf(&self) -> bool {
        let ch = shape_of(self.hierarchy@);
        let top = self.hierarchy@.len() as int;
        forall|i: int|
            0 <= i < self.stack@.len() ==> state_ok(ch, #[trigger] self.stack@[i], top - i)
    }

    /// The operations that the enumeration will still yield, in order
    pub closed spec fn rest(&self) -> Seq<NodeEnumOp<usize>> {
        stack_rest(shape_of(self.hierarchy@), self.stack@, self.hierarchy@.len())
    }

    /// The nodes being enumerated
    pub closed spec fn nodes(&self) -> Seq<Node<T>> {
        self.hierarchy@
    }

    closed spec fn pending(&self) -> nat {
        if self.stack@.len() == 0 {
            0
        } else {
            state_rank(self.stack@.last())
        }
    }

    /// Create a new hierarchy node enumeration starting at `root`
    pub fn new(hierarchy: &'a [Node<T>], root: usize) -> (r: Self)
        requires
            fits(shape_of(hierarchy@), root as int, hierarchy@.len()),
        ensures
            r.wf(),
            r.nodes() == hierarchy@,
            r.rest() == walk(shape_of(hierarchy@), root as int, hierarchy@.len()),
    {
        let mut stack = Vec::new();
        stack.push(NodeEnumState::PreNode(root));
        let r = Self { hierarchy, stack };
        proof {
            let ch = shape_of(hierarchy@);
            let w = walk(ch, root as int, hierarchy@.len());
            assert(r.stack@.drop_last() =~= Seq::<NodeEnumState>::empty());
            assert(stack_rest(ch, r.stack@.drop_last(), hierarchy@.len()) == Seq::<
                NodeEnumOp<usize>,
            >::empty());
            assert(r.stack@.last() == NodeEnumState::PreNode(root));
            assert(r.rest() == w + Seq::<NodeEnumOp<usize>>::empty());
            assert(r.rest() =~= w);
            assert(state_ok(ch, r.stack@[0], hierarchy@.len() as int));
        }
        r
    }

    /// Yield the next operation of the traversal, or `None` once it is
    /// complete
    pub fn next(&mut self) -> (r: Option<NodeEnumOp<usize>>)
        requires
            old(self).wf(),
        ensures
            final(self).wf(),
            final(self).nodes() == old(self).nodes(),
            r is Some ==> op_index(r->0) < old(self).nodes().len(),
            match r {
                Some(op) => old(self).rest() == seq![op] + final(self).rest(),
                None => old(self).rest().len() == 0 && final(self).rest().len() == 0,
            },
    {
        let ghost ch = shape_of(self.hierarchy@);
        let ghost top = self.hierarchy@.len();
        loop
            invariant
                self.wf(),
                self.hierarchy@ == old(self).hierarchy@,
                ch == shape_of(self.hierarchy@),
                top == self.hierarchy@.len(),
                self.rest() == old(self).rest(),
            decreases self.pending(),
        {
            if self.stack.len() == 0 {
                return None;
            }
            let ghost st0 = self.stack@;
            let se = self.stack.pop().unwrap();
            let ghost base = self.stack@;
            let ghost p = base.len() as int;
            proof {
                assert(base =~= st0.drop_last());
                assert(se == st0[p]);
                assert(state_ok(ch, se, top - p));
                assert(forall|i: int| 0 <= i < p ==> base[i] == st0[i]);
                assert(stack_rest(ch, st0, top) == state_rest(ch, se, (top - p) as nat)
                    + stack_rest(ch, base, top));
            }
            match se {
                NodeEnumState::PreNode(x) => {
                    self.stack.push(NodeEnumState::PreChildren(x));
                    let has_children = self.hierarchy[x].has_children();
                    let op = NodeEnumOp::Push(x, has_children);
                    proof {
                        assert(self.stack@[p] == NodeEnumState::PreChildren(x));
                        assert(forall|i: int| 0 <= i < p ==> self.stack@[i] == base[i]);
                        let f = (top - p) as nat;
                        assert(self.stack@.drop_last() =~= base);
                        assert(ch[x as int] == self.hierarchy@[x as int].kids());
                        assert(self.rest() == state_rest(ch, NodeEnumState::PreChildren(x), f)
                            + stack_rest(ch, base, top));
                        assert(old(self).rest() =~= seq![op] + self.rest());
                    }
                    return Some(op);
                },
                NodeEnumState::PreChildren(x) => {
                    self.stack.push(NodeEnumState::Child(x, 0));
                    proof {
                        assert(self.stack@.drop_last() =~= base);
                        assert(self.stack@[p] == NodeEnumState::Child(x, 0));
                        assert(forall|i: int| 0 <= i < p ==> self.stack@[i] == base[i]);
                    }
                },
                NodeEnumState::Child(x, n) => {
                    let node = &self.hierarchy[x];
                    if n < node.children.len() {
                        let c = node.children[n];
                        self.stack.push(NodeEnumState::Child(x, n + 1));
                        self.stack.push(NodeEnumState::PreNode(c));
                        proof {
                            let f = (top - p) as nat;
                            let cs = ch[x as int];
                            assert(cs == node.children@);
                            assert(c == cs[n as int]);
                            assert(fits_from(ch, cs, n as int, (f - 1) as nat));
                            assert(fits(ch, c as int, (f - 1) as nat));
                            assert(fits_from(ch, cs, n + 1, (f - 1) as nat));
                            assert(self.stack@[p] == NodeEnumState::Child(x, (n + 1) as usize));
                            assert(self.stack@[p + 1] == NodeEnumState::PreNode(c));
                            assert(forall|i: int| 0 <= i < p ==> self.stack@[i] == base[i]);
                            let st1 = base.push(NodeEnumState::Child(x, (n + 1) as usize));
                            assert(ch[x as int] == self.hierarchy@[x as int].kids());
                            assert(self.stack@.drop_last() =~= st1);
                            assert(st1.drop_last() =~= base);
                            assert(walk_from(ch, ch[x as int], n as int, (f - 1) as nat) == walk(
                                ch,
                                c as int,
                                (f - 1) as nat,
                            ) + walk_from(ch, ch[x as int], n + 1, (f - 1) as nat));
                            let pop = seq![NodeEnumOp::Pop(x, cs.len() > 0)];
                            let base_rest = stack_rest(ch, base, top);
                            assert(stack_rest(ch, st1, top) == walk_from(
                                ch,
                                cs,
                                n + 1,
                                (f - 1) as nat,
                            ) + pop + base_rest);
                            assert(self.rest() == walk(ch, c as int, (f - 1) as nat) + stack_rest(
                                ch,
                                st1,
                                top,
                            ));
                            assert(old(self).rest() == walk_from(ch, cs, n as int, (f - 1) as nat)
                                + pop + base_rest);
                            assert(self.rest() =~= old(self).rest());
                        }
                    } else {
                        self.stack.push(NodeEnumState::PostChildren(x));
                        proof {
                            assert(self.stack@[p] == NodeEnumState::PostChildren(x));
                            assert(forall|i: int| 0 <= i < p ==> self.stack@[i] == base[i]);
                            assert(self.stack@.drop_last() =~= base);
                            assert(ch[x as int] == self.hierarchy@[x as int].kids());
                            assert(self.rest() =~= old(self).rest());
                        }
                    }
                },
                NodeEnumState::PostChildren(x) => {
                    let has_children = self.hierarchy[x].has_children();
                    let op = NodeEnumOp::Pop(x, has_children);
                    proof {
                        assert(self.stack@ =~= base);
                        assert(ch[x as int] == self.hierarchy@[x as int].kids());
                        assert(old(self).rest() =~= seq![op] + self.rest());
                    }
                    return Some(op);
                },
            }
        }
    }
}


/// The operation with the node's data left out
pub open spec fn strip_data<D>(op: NodeEnumOp<(usize, D)>) -> NodeEnumOp<usize> {
    match op {
        NodeEnumOp::Push((i, _), c) => NodeEnumOp::Push(i, c),
        NodeEnumOp::Pop((i, _), c) => NodeEnumOp::Pop(i, c),
    }
}

/// The node's data carried by an operation
pub open spec fn op_data<D>(op: NodeEnumOp<(usize, D)>) -> D {
    match op {
        NodeEnumOp::Push((_, d), _) => d,
        NodeEnumOp::Pop((_, d), _) => d,
    }
}

/// An iterator over part of a [Hierarchy] that returns a reference to
/// the node's data as it traverses
pub struct NodeIter<'a, T> {
    node_enum: NodeEnum<'a, T>,
}

impl<'a, T> NodeIter<'a, T> {
    /// The iteration can be resumed
    pub closed spec fn wf(&self) -> bool {
        self.node_enum.wf()
    }

    /// The operations that the iteration will still yield, without data
    pub closed spec fn rest(&self) -> Seq<NodeEnumOp<usize>> {
        self.node_enum.rest()
    }

    /// The nodes being iterated over
    pub closed spec fn nodes(&self) -> Seq<Node<T>> {
        self.node_enum.nodes()
    }

    /// Create a new hierarchy node iterator
    pub fn new(hierarchy: &'a [Node<T>], root: usize) -> (r: Self)
        requires
            fits(shape_of(hierarchy@), root as int, hierarchy@.len()),
        ensures
            r.wf(),
            r.nodes() == hierarchy@,
            r.rest() == walk(shape_of(hierarchy@), root as int, hierarchy@.len()),
    {
        Self { node_enum: NodeEnum::new(hierarchy, root) }
    }

    /// Yield the next operation of the traversal with a reference to the
    /// node's data, or `None` once it is complete
    pub fn next(&mut self) -> (r: Option<NodeEnumOp<(usize, &'a T)>>)
        requires
            old(self).wf(),
        ensures
            final(self).wf(),
            final(self).nodes() == old(self).nodes(),
            match r {
                Some(op) => {
                    &&& old(self).rest() == seq![strip_data(op)] + final(self).rest()
                    &&& *op_data(op) == old(self).nodes()[op_index(strip_data(op)) as int].value()
                },
                None => old(self).rest().len() == 0 && final(self).rest().len() == 0,
            },
    {
        let h: &'a [Node<T>] = self.node_enum.hierarchy;
        match self.node_enum.next() {
            Some(NodeEnumOp::Push(x, c)) => Some(NodeEnumOp::Push((x, &h[x].data), c)),
            Some(NodeEnumOp::Pop(x, c)) => Some(NodeEnumOp::Pop((x, &h[x].data), c)),
            None => None,
        }
    }
}

/// A recording of a traversal of a hierarchy from a node
///
/// The recipe is a [Vec] of [NodeEnumOp]s which describe entirely how
/// to traverse the hierarchy; essentially it is a record of an
/// enumeration of a hierarchy or part of a hierarchy
pub struct Recipe {
    /// The [NodeEnumOp]s that make up the traversal
    ops: Vec<NodeEnumOp<usize>>,
    /// The maximum depth required (maximum 'tree' depth from the initial node)
    max_depth: usize,
    /// The current depth (used in generating the recipe)
    depth: usize,
}

impl Recipe {
    /// The recorded operations
    pub closed spec fn ops_of(&self) -> Seq<NodeEnumOp<usize>> {
        self.ops@
    }

    /// The deepest nesting reached by the recorded operations
    pub closed spec fn max_depth_of(&self) -> usize {
        self.max_depth
    }

    /// The nesting depth after the recorded operations
    pub closed spec fn depth_of(&self) -> usize {
        self.depth
    }

    /// The depths kept agree with the recorded operations
    pub open spec fn wf(&self) -> bool {
        &&& self.depth_of() as int == ops_depth(self.ops_of())
        &&& self.max_depth_of() as int == ops_peak(self.ops_of())
    }

    /// Create a new recipe
    pub fn new() -> (r: Self)
        ensures
            r.wf(),
            r.ops_of().len() == 0,
    {
        Self { ops: Vec::new(), max_depth: 0, depth: 0 }
    }

    /// Add a new operation to the recipe
    pub fn add_op(&mut self, op: NodeEnumOp<usize>)
        requires
            old(self).wf(),
            op is Pop ==> old(self).depth_of() > 0,
            op is Push ==> old(self).depth_of() < usize::MAX,
        ensures
            final(self).wf(),
            final(self).ops_of() == old(self).ops_of().push(op),
    {
        proof {
            lemma_peak_at_least_depth(self.ops@);
        }
        if op.is_pop() {
            self.depth -= 1;
        } else {
            self.depth += 1;
            if self.depth > self.max_depth {
                self.max_depth = self.depth;
            }
        }
        self.ops.push(op);
        proof {
            assert(self.ops@.drop_last() =~= old(self).ops@);
        }
    }

    /// Deconstruct the recipe into its maximum depth and operations
    pub fn take(self) -> (r: (usize, Vec<NodeEnumOp<usize>>))
        ensures
            r.0 == self.max_depth_of(),
            r.1@ == self.ops_of(),
    {
        (self.max_depth, self.ops)
    }

    /// Find the maximum depth of the recipe
    pub fn depth(&self) -> (r: usize)
        ensures
            r == self.max_depth_of(),
    {
        self.max_depth
    }

    /// Borrow the operations that make the recipe
    pub fn borrow_ops<'z>(&'z self) -> (r: &'z Vec<NodeEnumOp<usize>>)
        ensures
            r@ == self.ops_of(),
    {
        &self.ops
    }

    /// Create a recipe by recording everything that an enumeration has
    /// still to yield
    pub fn of_ops<T>(iter: NodeEnum<T>) -> (r: Self)
        requires
            iter.wf(),
            balanced(iter.rest()),
            ops_peak(iter.rest()) <= usize::MAX,
        ensures
            r.wf(),
            r.ops_of() == iter.rest(),
            r.max_depth_of() as int == ops_peak(iter.rest()),
    {
        let ghost all = iter.rest();
        let mut iter = iter;
        let mut r = Self::new();
        loop
            invariant
                iter.wf(),
                r.wf(),
                r.ops_of() + iter.rest() == all,
                scan(Seq::empty(), r.ops_of()) is Some,
                scan(scan(Seq::empty(), r.ops_of())->0, iter.rest()) == Some(
                    Seq::<(usize, bool)>::empty(),
                ),
                ops_peak(all) <= usize::MAX,
            ensures
                r.wf(),
                r.ops_of() == all,
            decreases iter.rest().len(),
        {
            let ghost before = r.ops_of();
            let ghost open = scan(Seq::empty(), before)->0;
            match iter.next() {
                Some(op) => {
                    proof {
                        let rest = iter.rest();
                        lemma_scan_depth(Seq::empty(), before);
                        lemma_scan_concat(open, seq![op], rest);
                        lemma_scan_concat(Seq::empty(), before, seq![op]);
                        assert(seq![op].drop_first() =~= Seq::<NodeEnumOp<usize>>::empty());
                        assert((before.push(op)) + rest =~= all);
                        assert(before + seq![op] =~= before.push(op));
                        if op is Push {
                            lemma_peak_concat(before.push(op), rest);
                            assert(before.push(op).drop_last() =~= before);
                            lemma_peak_at_least_depth(before.push(op));
                        }
                    }
                    r.add_op(op);
                },
                None => {
                    proof {
                        assert(r.ops_of() =~= all);
                    }
                    break ;
                },
            }
        }
        r
    }
}

impl Default for Recipe {
    fn default() -> (r: Self)
        ensures
            r.wf(),
            r.ops_of().len() == 0,
    {
        Self::new()
    }
}


/// The roots listed by [Hierarchy::find_roots] are nodes without a parent
pub proof fn lemma_parentless(parents: Seq<Option<usize>>, k: int)
    requires
        k <= parents.len() <= usize::MAX,
    ensures
        forall|j: int|
            0 <= j < parentless(parents, k).len() ==> {
                &&& (#[trigger] parentless(parents, k)[j] as int) < k
                &&& parents[parentless(parents, k)[j] as int] is None
            },
    decreases k,
{
    if k > 0 {
        lemma_parentless(parents, k - 1);
        let prev = parentless(parents, k - 1);
        if parents[k - 1] is None {
            assert forall|j: int| 0 <= j < prev.len() + 1 implies #[trigger] prev.push(
                (k - 1) as usize,
            )[j] == (if j < prev.len() {
                prev[j]
            } else {
                (k - 1) as usize
            }) by {}
        }
    }
}

/// Every push of a hierarchy's traversal has exactly one matching pop for
/// the same node, properly nested: the depth never drops below zero and
/// ends at zero
pub proof fn lemma_traversal_balanced<T>(h: &Hierarchy<T>, root: usize)
    ensures
        balanced(h.traversal(root as int)),
        ops_depth(h.traversal(root as int)) == 0,
        forall|k: int|
            0 <= k <= h.traversal(root as int).len() ==> ops_depth(
                #[trigger] h.traversal(root as int).take(k),
            ) >= 0,
{
    crate::traversal::lemma_walk_balanced(h.shape(), root as int, h.nodes().len());
}

/// A recipe recorded from the traversal of a tree has, as its maximum
/// depth, the number of nodes on the longest root-to-leaf path
pub proof fn lemma_recipe_depth_is_height<T>(h: &Hierarchy<T>, root: usize, recipe: &Recipe)
    requires
        recipe.wf(),
        recipe.ops_of() == h.traversal(root as int),
    ensures
        recipe.max_depth_of() == h.tree_height(root as int),
{
    crate::traversal::lemma_walk_peak_is_height(h.shape(), root as int, h.nodes().len());
}

} // verus!
