use gl_model::hierarchy::{Hierarchy, Node, NodeEnumOp, Recipe};

fn basic_hierarchy() -> Hierarchy<&'static str> {
    let mut h = Hierarchy::new();
    let a = h.add_node("A");
    let b = h.add_node("B");
    let c0 = h.add_node("C0");
    let c1 = h.add_node("C1");
    let d = h.add_node("D");
    let e = h.add_node("E");
    let f = h.add_node("F");
    h.relate(a, b);
    h.relate(a, d);
    h.relate(a, e);
    h.relate(b, c0);
    h.relate(b, c1);
    h.relate(e, f);
    h.find_roots();
    h
}

fn all_ops<T>(h: &Hierarchy<T>, root: usize) -> Vec<NodeEnumOp<usize>> {
    let mut e = h.enum_from(root);
    let mut ops = Vec::new();
    while let Some(op) = e.next() {
        ops.push(op);
    }
    ops
}

#[test]
fn hierarchy_test_0() {
    let h = basic_hierarchy();
    assert_eq!(h.borrow_roots(), &[0], "Expect roots to just be A");
}

#[test]
fn test_recipe() {
    let h = basic_hierarchy();
    let mut r = Recipe::new();
    let mut e = h.enum_from(0);
    while let Some(op) = e.next() {
        r.add_op(op);
    }
    let (max_depth, ops) = r.take();
    assert_eq!(max_depth, 3, "Max depth of tree is 3");
    assert_eq!(
        ops,
        vec![
            NodeEnumOp::Push(0, true),
            NodeEnumOp::Push(1, true),
            NodeEnumOp::Push(2, false),
            NodeEnumOp::Pop(2, false),
            NodeEnumOp::Push(3, false),
            NodeEnumOp::Pop(3, false),
            NodeEnumOp::Pop(1, true),
            NodeEnumOp::Push(4, false),
            NodeEnumOp::Pop(4, false),
            NodeEnumOp::Push(5, true),
            NodeEnumOp::Push(6, false),
            NodeEnumOp::Pop(6, false),
            NodeEnumOp::Pop(5, true),
            NodeEnumOp::Pop(0, true),
        ],
        "Recipe mismatch"
    );
}

#[test]
fn traversal_is_balanced() {
    let h = basic_hierarchy();
    let ops = all_ops(&h, 0);
    let mut open: Vec<(usize, bool)> = Vec::new();
    for op in ops.iter() {
        match op {
            NodeEnumOp::Push(i, c) => open.push((*i, *c)),
            NodeEnumOp::Pop(i, c) => {
                assert_eq!(open.pop(), Some((*i, *c)));
            }
        }
    }
    assert!(open.is_empty());
    let pushes = ops.iter().filter(|o| !o.is_pop()).count();
    assert_eq!(pushes, 7);
    assert_eq!(ops.len(), 14);
}

#[test]
fn leaf_traversal_pushes_and_pops() {
    let mut h = Hierarchy::new();
    let a = h.add_node(1u32);
    h.find_roots();
    assert_eq!(all_ops(&h, a), vec![NodeEnumOp::Push(0, false), NodeEnumOp::Pop(0, false)]);
}

#[test]
fn recipe_depth_of_single_node_is_one() {
    let mut h = Hierarchy::new();
    h.add_node(());
    let r = Recipe::of_ops(h.enum_from(0));
    assert_eq!(r.depth(), 1);
    assert_eq!(r.borrow_ops().len(), 2);
}

#[test]
fn recipe_depth_of_chain_is_its_length() {
    let mut h = Hierarchy::new();
    for i in 0..6u32 {
        h.add_node(i);
    }
    for i in 0..5 {
        h.relate(i, i + 1);
    }
    let r = Recipe::of_ops(h.enum_from(0));
    assert_eq!(r.depth(), 6);
    let r = Recipe::of_ops(h.enum_from(3));
    assert_eq!(r.depth(), 3);
}

#[test]
fn recipe_depth_of_unbalanced_tree() {
    let h = basic_hierarchy();
    let r = Recipe::of_ops(h.enum_from(0));
    assert_eq!(r.depth(), 3);
    let r = Recipe::of_ops(h.enum_from(5));
    assert_eq!(r.depth(), 2);
    assert_eq!(
        r.borrow_ops(),
        &vec![
            NodeEnumOp::Push(5, true),
            NodeEnumOp::Push(6, false),
            NodeEnumOp::Pop(6, false),
            NodeEnumOp::Pop(5, true),
        ]
    );
}

#[test]
fn recipe_add_op_tracks_depth() {
    let mut r = Recipe::default();
    r.add_op(NodeEnumOp::Push(0, true));
    r.add_op(NodeEnumOp::Push(1, false));
    r.add_op(NodeEnumOp::Pop(1, false));
    r.add_op(NodeEnumOp::Push(2, false));
    r.add_op(NodeEnumOp::Pop(2, false));
    r.add_op(NodeEnumOp::Pop(0, true));
    assert_eq!(r.depth(), 2);
    let (d, ops) = r.take();
    assert_eq!(d, 2);
    assert_eq!(ops.len(), 6);
}

#[test]
fn find_roots_lists_every_parentless_node() {
    let mut h = Hierarchy::new();
    for i in 0..5u32 {
        h.add_node(i);
    }
    h.relate(1, 2);
    h.relate(3, 4);
    h.find_roots();
    assert_eq!(h.borrow_roots(), &vec![0, 1, 3]);
    assert_eq!(h.len(), 5);
    assert!(h.borrow_elements()[2].has_parent());
    assert!(!h.borrow_elements()[1].has_parent());
    assert!(h.borrow_elements()[1].has_children());
    assert!(!h.borrow_elements()[2].has_children());
}

#[test]
fn roots_are_stale_until_found_again() {
    let mut h = Hierarchy::new();
    h.add_node('a');
    h.add_node('b');
    h.find_roots();
    assert_eq!(h.borrow_roots(), &vec![0, 1]);
    h.relate(0, 1);
    assert_eq!(h.borrow_roots(), &vec![0, 1]);
    h.find_roots();
    assert_eq!(h.borrow_roots(), &vec![0]);
}

#[test]
fn node_iter_yields_data() {
    let h = basic_hierarchy();
    let mut it = h.iter_from(1);
    let mut names = Vec::new();
    while let Some(op) = it.next() {
        if let NodeEnumOp::Push((i, d), _) = op {
            names.push((i, *d));
        }
    }
    assert_eq!(names, vec![(1, "B"), (2, "C0"), (3, "C1")]);
}

#[test]
fn node_data_can_be_changed_in_place() {
    let mut h = basic_hierarchy();
    *h.borrow_node_mut(3) = "X";
    assert_eq!(*h.borrow_node(3), "X");
    assert_eq!(*h.borrow_node(2), "C0");
    let (roots, elements) = h.borrow_mut();
    assert_eq!(roots, &vec![0]);
    elements[4].data = "Y";
    assert_eq!(*h.borrow_node(4), "Y");
}

#[test]
fn node_parent_and_children() {
    let mut n = Node::new(5u8, None);
    assert!(!n.has_parent());
    assert!(!n.has_children());
    n.set_parent(Some(2));
    n.add_child(7);
    assert!(n.has_parent());
    assert!(n.has_children());
    assert_eq!(n.data, 5);
}

#[test]
fn finite_trees_are_recognised() {
    let h = basic_hierarchy();
    assert!(h.spans_tree_from(0));
    assert!(h.spans_tree_from(5));
    let mut g = Hierarchy::new();
    g.add_node(0u8);
    g.relate(0, 0);
    assert!(!g.spans_tree_from(0));
}
