use midpoint_editor::joints::{AddJointError, Joint, JointHierarchy, ReparentError, Rotation, Vec3};

fn joint(id: &str, parent: Option<&str>, x: i64, y: i64, z: i64) -> Joint {
    Joint {
        id: id.to_string(),
        name: format!("joint {}", id),
        parent_id: parent.map(|p| p.to_string()),
        local_position: Vec3 { x, y, z },
        rotation: Rotation { x: 0, y: 0, z: 0, w: 1 },
        scale: Vec3 { x: 1, y: 1, z: 1 },
    }
}

fn snapshot(h: &JointHierarchy) -> Vec<(String, Option<String>, Vec3)> {
    h.joints()
        .iter()
        .map(|j| (j.id.clone(), j.parent_id.clone(), j.local_position))
        .collect()
}

#[test]
fn reparent_unrelated_succeeds_and_sets_parent() {
    let mut h = JointHierarchy::new();
    h.add_joint(joint("a", None, 1, 2, 3)).unwrap();
    h.add_joint(joint("b", None, 10, 20, 30)).unwrap();
    assert!(h.reparent(&"a".to_string(), &"b".to_string()).is_ok());
    let a = h
        .joints()
        .iter()
        .find(|j| j.id == "a")
        .expect("joint a must survive the reparent");
    assert_eq!(a.parent_id, Some("b".to_string()));
}

#[test]
fn reparent_onto_descendant_is_cycle_and_no_op() {
    let mut h = JointHierarchy::new();
    h.add_joint(joint("a", None, 0, 0, 0)).unwrap();
    h.add_joint(joint("b", Some("a"), 1, 0, 0)).unwrap();
    h.add_joint(joint("c", Some("b"), 0, 1, 0)).unwrap();
    let before = snapshot(&h);
    // c is a transitive descendant of a
    assert_eq!(
        h.reparent(&"a".to_string(), &"c".to_string()),
        Err(ReparentError::CycleDetected)
    );
    assert_eq!(snapshot(&h), before);
}

#[test]
fn reparent_onto_self_is_rejected_without_mutation() {
    let mut h = JointHierarchy::new();
    h.add_joint(joint("a", None, 5, 5, 5)).unwrap();
    h.add_joint(joint("b", Some("a"), 1, 1, 1)).unwrap();
    let before = snapshot(&h);
    assert_eq!(
        h.reparent(&"a".to_string(), &"a".to_string()),
        Err(ReparentError::CycleDetected)
    );
    assert_eq!(snapshot(&h), before);
}

#[test]
fn reparent_missing_ids_not_found() {
    let mut h = JointHierarchy::new();
    h.add_joint(joint("a", None, 0, 0, 0)).unwrap();
    let before = snapshot(&h);
    assert_eq!(
        h.reparent(&"ghost".to_string(), &"a".to_string()),
        Err(ReparentError::NotFound)
    );
    assert_eq!(
        h.reparent(&"a".to_string(), &"ghost".to_string()),
        Err(ReparentError::NotFound)
    );
    assert_eq!(snapshot(&h), before);
}

#[test]
fn depth_after_reparent_is_parent_depth_plus_one() {
    let mut h = JointHierarchy::new();
    h.add_joint(joint("root", None, 0, 0, 0)).unwrap();
    h.add_joint(joint("mid", Some("root"), 0, 0, 0)).unwrap();
    h.add_joint(joint("leaf", Some("mid"), 0, 0, 0)).unwrap();
    h.add_joint(joint("lone", None, 0, 0, 0)).unwrap();
    assert!(h.reparent(&"lone".to_string(), &"leaf".to_string()).is_ok());
    let leaf_depth = h.depth(&"leaf".to_string()).unwrap();
    let lone_depth = h.depth(&"lone".to_string()).unwrap();
    assert_eq!(leaf_depth, 2);
    assert_eq!(lone_depth, leaf_depth + 1);
}

#[test]
fn depth_walks_ancestor_chain() {
    let mut h = JointHierarchy::new();
    h.add_joint(joint("root", None, 0, 0, 0)).unwrap();
    h.add_joint(joint("mid", Some("root"), 0, 0, 0)).unwrap();
    h.add_joint(joint("leaf", Some("mid"), 0, 0, 0)).unwrap();
    assert_eq!(h.depth(&"root".to_string()), Some(0));
    assert_eq!(h.depth(&"mid".to_string()), Some(1));
    assert_eq!(h.depth(&"leaf".to_string()), Some(2));
    assert_eq!(h.depth(&"ghost".to_string()), None);
}

#[test]
fn descendants_of_chain() {
    let mut h = JointHierarchy::new();
    h.add_joint(joint("root", None, 0, 0, 0)).unwrap();
    h.add_joint(joint("mid", Some("root"), 0, 0, 0)).unwrap();
    h.add_joint(joint("leaf", Some("mid"), 0, 0, 0)).unwrap();
    let from_root = h.descendants_of(&"root".to_string());
    assert_eq!(from_root.len(), 2);
    assert!(from_root.iter().any(|s| s == "mid"));
    assert!(from_root.iter().any(|s| s == "leaf"));
    let from_mid = h.descendants_of(&"mid".to_string());
    assert_eq!(from_mid, vec!["leaf".to_string()]);
    let from_leaf = h.descendants_of(&"leaf".to_string());
    assert!(from_leaf.is_empty());
}

#[test]
fn descendants_of_branching_tree() {
    let mut h = JointHierarchy::new();
    h.add_joint(joint("hip", None, 0, 0, 0)).unwrap();
    h.add_joint(joint("left_leg", Some("hip"), -1, 0, 0)).unwrap();
    h.add_joint(joint("right_leg", Some("hip"), 1, 0, 0)).unwrap();
    h.add_joint(joint("left_foot", Some("left_leg"), 0, -1, 0)).unwrap();
    let below_hip = h.descendants_of(&"hip".to_string());
    assert_eq!(below_hip.len(), 3);
    let below_left = h.descendants_of(&"left_leg".to_string());
    assert_eq!(below_left, vec!["left_foot".to_string()]);
}

#[test]
fn world_position_accumulates_locals_only() {
    let mut h = JointHierarchy::new();
    h.add_joint(joint("root", None, 100, 0, -5)).unwrap();
    h.add_joint(joint("mid", Some("root"), 10, 20, 30)).unwrap();
    h.add_joint(joint("leaf", Some("mid"), 1, 2, 3)).unwrap();
    assert_eq!(
        h.get_world_position(&"leaf".to_string()),
        Some(Vec3 { x: 111, y: 22, z: 28 })
    );
    assert_eq!(
        h.get_world_position(&"root".to_string()),
        Some(Vec3 { x: 100, y: 0, z: -5 })
    );
    assert_eq!(h.get_world_position(&"ghost".to_string()), None);
}

#[test]
fn reparent_recomputes_local_position_from_world_difference() {
    let mut h = JointHierarchy::new();
    h.add_joint(joint("root", None, 100, 100, 100)).unwrap();
    h.add_joint(joint("a", Some("root"), 7, 8, 9)).unwrap();
    h.add_joint(joint("other", None, 1000, 0, 0)).unwrap();
    // world(a) = (107, 108, 109); world(other) = (1000, 0, 0)
    assert!(h.reparent(&"a".to_string(), &"other".to_string()).is_ok());
    let a = h.joints().iter().find(|j| j.id == "a").unwrap();
    assert_eq!(a.parent_id, Some("other".to_string()));
    assert_eq!(a.local_position, Vec3 { x: -893, y: 108, z: 109 });
    // the world position itself did not move
    assert_eq!(
        h.get_world_position(&"a".to_string()),
        Some(Vec3 { x: 107, y: 108, z: 109 })
    );
}

#[test]
fn reparent_round_trip_restores_parent_link() {
    let mut h = JointHierarchy::new();
    h.add_joint(joint("p0", None, 10, 0, 0)).unwrap();
    h.add_joint(joint("a", Some("p0"), 5, 5, 5)).unwrap();
    h.add_joint(joint("b", None, -3, 0, 4)).unwrap();
    assert!(h.reparent(&"a".to_string(), &"b".to_string()).is_ok());
    assert!(h.reparent(&"a".to_string(), &"p0".to_string()).is_ok());
    let a = h.joints().iter().find(|j| j.id == "a").unwrap();
    assert_eq!(a.parent_id, Some("p0".to_string()));
    // the local position follows the world-difference rule:
    // world(a) stayed (15, 5, 5), world(p0) is (10, 0, 0)
    assert_eq!(a.local_position, Vec3 { x: 5, y: 5, z: 5 });
}

#[test]
fn reparent_moves_joint_to_target_slot() {
    let mut h = JointHierarchy::new();
    h.add_joint(joint("t", None, 0, 0, 0)).unwrap();
    h.add_joint(joint("x", None, 0, 0, 0)).unwrap();
    h.add_joint(joint("d", None, 0, 0, 0)).unwrap();
    // d sits at index 2, the target t at index 0
    assert!(h.reparent(&"d".to_string(), &"t".to_string()).is_ok());
    let order: Vec<String> = h.joints().iter().map(|j| j.id.clone()).collect();
    assert_eq!(
        order,
        vec!["d".to_string(), "t".to_string(), "x".to_string()]
    );
}

#[test]
fn would_create_cycle_cases() {
    let mut h = JointHierarchy::new();
    h.add_joint(joint("a", None, 0, 0, 0)).unwrap();
    h.add_joint(joint("b", Some("a"), 0, 0, 0)).unwrap();
    h.add_joint(joint("c", None, 0, 0, 0)).unwrap();
    assert!(h.would_create_cycle(&"a".to_string(), &"a".to_string()));
    assert!(h.would_create_cycle(&"a".to_string(), &"b".to_string()));
    assert!(!h.would_create_cycle(&"b".to_string(), &"c".to_string()));
    assert!(!h.would_create_cycle(&"c".to_string(), &"b".to_string()));
}

#[test]
fn add_joint_duplicate_id_rejected() {
    let mut h = JointHierarchy::new();
    h.add_joint(joint("a", None, 0, 0, 0)).unwrap();
    assert_eq!(
        h.add_joint(joint("a", None, 1, 1, 1)),
        Err(AddJointError::DuplicateId)
    );
    assert_eq!(h.len(), 1);
}

#[test]
fn add_joint_missing_parent_rejected() {
    let mut h = JointHierarchy::new();
    assert_eq!(
        h.add_joint(joint("a", Some("ghost"), 0, 0, 0)),
        Err(AddJointError::ParentNotFound)
    );
    assert_eq!(h.len(), 0);
}

#[test]
fn add_joint_out_of_range_position_rejected() {
    let mut h = JointHierarchy::new();
    assert_eq!(
        h.add_joint(joint("far", None, i64::MAX, 0, 0)),
        Err(AddJointError::PositionOutOfRange)
    );
    assert_eq!(h.len(), 0);
}

#[test]
fn tree_view_indent_is_twenty_pixels_per_level() {
    assert_eq!(JointHierarchy::indent_for_depth(0), 0);
    assert_eq!(JointHierarchy::indent_for_depth(1), 20);
    assert_eq!(JointHierarchy::indent_for_depth(5), 100);
}

#[test]
fn contains_and_len() {
    let mut h = JointHierarchy::new();
    assert_eq!(h.len(), 0);
    assert!(!h.contains_id(&"a".to_string()));
    h.add_joint(joint("a", None, 0, 0, 0)).unwrap();
    assert!(h.contains_id(&"a".to_string()));
    assert_eq!(h.len(), 1);
}
