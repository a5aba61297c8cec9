use gl_model::bone_pose_set::BonePoseSet;
use gl_model::bone_set::{Bone, BoneSet};

type Mat4 = [f32; 16];

fn translation(t: [f32; 3]) -> Mat4 {
    let mut m = [0.; 16];
    m[0] = 1.;
    m[5] = 1.;
    m[10] = 1.;
    m[15] = 1.;
    m[12] = t[0];
    m[13] = t[1];
    m[14] = t[2];
    m
}

/// Column-major product `a * b`
fn multiply4(a: &Mat4, b: &Mat4) -> Mat4 {
    let mut m = [0.; 16];
    for c in 0..4 {
        for r in 0..4 {
            let mut s = 0.;
            for k in 0..4 {
                s += a[k * 4 + r] * b[c * 4 + k];
            }
            m[c * 4 + r] = s;
        }
    }
    m
}

/// Mesh-to-bone matrices in bone order, composed in the set's derivation
/// order; each bone's transformation is a translation only
fn derive_mtbs(bones: &BoneSet<[f32; 3]>) -> Vec<Mat4> {
    let mut mtb = vec![[0.; 16]; bones.bones.len()];
    for (n, parent) in bones.derivation_steps() {
        let t = bones.bones.borrow_node(n).transformation;
        let ptb = translation([-t[0], -t[1], -t[2]]);
        mtb[n] = match parent {
            None => ptb,
            Some(p) => multiply4(&ptb, &mtb[p]),
        };
    }
    mtb
}

fn build_bone_set() -> BoneSet<[f32; 3]> {
    let mut bones = BoneSet::new();
    let b0 = bones.add_bone([0., 0., 0.], 0);
    let b1 = bones.add_bone([1., 0., 0.], 0);
    let b2 = bones.add_bone([0., 1., 0.], 0);
    let b3 = bones.add_bone([0., 0., 1.], 0);
    let b21 = bones.add_bone([0.5, 0., 0.], 0);
    let b22 = bones.add_bone([0.0, 0., 0.5], 0);
    bones.relate(b0, b1);
    bones.relate(b0, b2);
    bones.relate(b0, b3);
    bones.relate(b2, b21);
    bones.relate(b2, b22);
    bones.resolve();
    bones.rewrite_indices();
    bones
}

#[test]
fn test_bones_test_0() {
    let bones = build_bone_set();
    assert_eq!(1, bones.iter_roots().len());
}

#[test]
fn test_1() {
    let bones = build_bone_set();
    let mtb = derive_mtbs(&bones);
    assert_eq!(mtb[4], [1., 0., 0., 0., 0., 1., 0., 0., 0., 0., 1., 0., -0.5, -1., 0., 1.]);
    assert_eq!(mtb[5], [1., 0., 0., 0., 0., 1., 0., 0., 0., 0., 1., 0., 0., -1., -0.5, 1.]);
}

#[test]
fn derivation_order_gives_each_bone_its_parent() {
    let bones = build_bone_set();
    assert_eq!(
        bones.derivation_steps(),
        vec![(0, None), (1, Some(0)), (2, Some(0)), (4, Some(2)), (5, Some(2)), (3, Some(0))]
    );
}

#[test]
fn rewrite_numbers_bones_in_traversal_order() {
    let bones = build_bone_set();
    let idx: Vec<usize> = (0..6).map(|i| bones.bones.borrow_node(i).matrix_index).collect();
    assert_eq!(idx, vec![0, 1, 2, 5, 3, 4]);
    assert_eq!(bones.max_index, 6);
    assert!(bones.matrix_indices_fit());
}

#[test]
fn rewrite_keeps_assigned_indices() {
    let mut bones = BoneSet::new();
    let a = bones.add_bone((), 1);
    let b = bones.add_bone((), 0);
    bones.relate(a, b);
    bones.rewrite_indices();
    assert_eq!(bones.max_index, 2);
    assert_eq!(bones.bones.borrow_node(0).matrix_index, 1);
    assert_eq!(bones.bones.borrow_node(1).matrix_index, 0);
}

#[test]
fn resolve_sizes_scratch_and_output() {
    let mut bones = BoneSet::new();
    let a = bones.add_bone((), 4);
    let b = bones.add_bone((), 2);
    let c = bones.add_bone((), 7);
    bones.relate(a, b);
    bones.relate(b, c);
    bones.resolve();
    assert_eq!(bones.max_depth, 3);
    assert_eq!(bones.max_index, 8);
    assert_eq!(bones.iter_roots(), vec![0]);
    // a second resolve keeps what is there
    bones.resolve();
    assert_eq!(bones.roots.len(), 1);
}

#[test]
fn several_roots_each_get_a_recipe() {
    let mut bones = BoneSet::new();
    let a = bones.add_bone((), 0);
    let b = bones.add_bone((), 0);
    let c = bones.add_bone((), 0);
    bones.relate(b, c);
    bones.resolve();
    assert_eq!(bones.iter_roots(), vec![a, b]);
    assert_eq!(bones.max_depth, 2);
    assert_eq!(bones.derivation_steps(), vec![(0, None), (1, None), (2, Some(1))]);
}

#[test]
fn adding_a_bone_drops_the_recipes() {
    let mut bones = build_bone_set();
    assert_eq!(bones.roots.len(), 1);
    bones.add_bone([0., 0., 0.], 9);
    assert_eq!(bones.roots.len(), 0);
}

#[test]
fn single_identity_root_has_identity_matrices() {
    let mut bones = BoneSet::new();
    bones.add_bone([0., 0., 0.], 0);
    bones.resolve();
    assert_eq!(bones.derivation_steps(), vec![(0, None)]);
    let mtb = derive_mtbs(&bones);
    assert_eq!(mtb[0], translation([0., 0., 0.]));
}

#[test]
fn child_mtb_composes_with_root() {
    let mut bones = BoneSet::new();
    let root = bones.add_bone([0., 0., 0.], 0);
    let child = bones.add_bone([1., 0., 0.], 1);
    bones.relate(root, child);
    bones.resolve();
    assert_eq!(bones.derivation_steps(), vec![(0, None), (1, Some(0))]);
    let mtb = derive_mtbs(&bones);
    assert_eq!(mtb[1], translation([-1., 0., 0.]));
    assert_eq!(mtb[1], multiply4(&translation([-1., 0., 0.]), &mtb[0]));
}

#[test]
fn bone_accessors() {
    let b = Bone::new(3u8, 4);
    assert_eq!(*b.borrow_transformation(), 3);
    let b = b.set_transformation(9);
    assert_eq!(b.transformation, 9);
    assert_eq!(b.matrix_index, 4);
}

#[test]
fn pose_set_updates_once_per_tick() {
    let bones = build_bone_set();
    let mut poses: BonePoseSet<[f32; 3], u32> = BonePoseSet::new(&bones, 0);
    assert_eq!(poses.borrow_data(), &vec![0; 6]);
    assert!(poses.update(1));
    poses.store(&vec![10, 11, 12, 13, 14, 15]);
    let first = poses.borrow_data().clone();
    assert_eq!(first, vec![10, 11, 12, 14, 15, 13]);
    assert!(!poses.update(1));
    assert_eq!(poses.borrow_data(), &first);
    assert_eq!(poses.last_updated(), 1);
    assert!(poses.update(2));
}

#[test]
fn tick_zero_is_already_current() {
    let bones = build_bone_set();
    let mut poses: BonePoseSet<[f32; 3], u8> = BonePoseSet::new(&bones, 0);
    assert!(!poses.update(0));
}

#[test]
fn store_with_shared_slot_keeps_last_bone() {
    let mut bones = BoneSet::new();
    let a = bones.add_bone((), 0);
    let b = bones.add_bone((), 0);
    bones.relate(a, b);
    bones.resolve();
    assert_eq!(bones.max_index, 1);
    let mut poses: BonePoseSet<(), i32> = BonePoseSet::new(&bones, -1);
    poses.store(&vec![5, 6]);
    assert_eq!(poses.borrow_data(), &vec![6]);
}

#[test]
fn pose_animation_replays_the_recipes() {
    let bones = build_bone_set();
    let poses: BonePoseSet<[f32; 3], u8> = BonePoseSet::new(&bones, 0);
    assert_eq!(poses.derive_animation(), bones.derivation_steps());
}

#[test]
fn indices_that_do_not_fit_are_reported() {
    let mut bones = BoneSet::new();
    bones.add_bone((), 3);
    assert!(!bones.matrix_indices_fit());
}

#[test]
fn empty_set_resolves_to_nothing() {
    let mut bones: BoneSet<()> = BoneSet::new();
    bones.resolve();
    bones.rewrite_indices();
    assert_eq!(bones.roots.len(), 0);
    assert_eq!(bones.max_index, 0);
    assert_eq!(bones.max_depth, 0);
    assert!(bones.derivation_steps().is_empty());
}

#[test]
fn shared_child_is_numbered_where_first_pushed() {
    let mut bones = BoneSet::new();
    let a = bones.add_bone((), 0);
    let b = bones.add_bone((), 0);
    let c = bones.add_bone((), 0);
    bones.relate(a, c);
    bones.relate(b, c);
    assert!(bones.forms_forest());
    bones.rewrite_indices();
    assert_eq!(bones.iter_roots(), vec![a, b]);
    assert_eq!(
        bones.derivation_steps(),
        vec![(0, None), (2, Some(0)), (1, None), (2, Some(1))]
    );
    assert_eq!(bones.max_index, 3);
    assert_eq!(bones.bones.borrow_node(a).matrix_index, 0);
    assert_eq!(bones.bones.borrow_node(c).matrix_index, 1);
    assert_eq!(bones.bones.borrow_node(b).matrix_index, 2);
}

#[test]
fn cycle_is_not_a_forest() {
    let mut bones = BoneSet::new();
    let a = bones.add_bone((), 0);
    let b = bones.add_bone((), 0);
    let c = bones.add_bone((), 0);
    bones.relate(a, b);
    bones.relate(b, c);
    bones.relate(c, b);
    assert!(!bones.forms_forest());
    assert!(!bones.bones.spans_tree_from(a));
}

#[test]
fn relate_after_resolve_keeps_old_recipes() {
    let mut bones = BoneSet::new();
    let a = bones.add_bone((), 0);
    let b = bones.add_bone((), 1);
    bones.resolve();
    assert_eq!(bones.iter_roots(), vec![a, b]);
    bones.relate(a, b);
    bones.resolve();
    assert_eq!(bones.iter_roots(), vec![a, b]);
}

#[test]
fn number_bones_renumbers_whatever_was_assigned() {
    let mut bones = BoneSet::new();
    let a = bones.add_bone((), 5);
    let b = bones.add_bone((), 6);
    bones.relate(a, b);
    bones.rewrite_indices();
    assert_eq!(bones.max_index, 7);
    assert_eq!(bones.bones.borrow_node(b).matrix_index, 6);
    bones.number_bones();
    assert_eq!(bones.max_index, 2);
    assert_eq!(bones.bones.borrow_node(a).matrix_index, 0);
    assert_eq!(bones.bones.borrow_node(b).matrix_index, 1);
}
