use scene_core::scene::{SceneError, SceneManager, Transform};

fn rows_of(manager: &SceneManager, entity: u32) -> Transform {
    manager.transform_for(entity).unwrap()
}

#[test]
fn creating_transform() {
    let mut manager = SceneManager::new();
    let entity = 3u32;

    let component = manager.create_transform(entity);
    assert_eq!(component, Ok(0));
}

#[test]
fn destroying_transform() {
    let mut manager = SceneManager::new();
    let entity = 3u32;

    let component = manager.create_transform(entity).unwrap();
    manager.destroy_transform(component).unwrap();

    assert!(!manager.has_transform(entity));
}

#[test]
fn checking_transform() {
    let manager = SceneManager::new();
    let entity = 3u32;

    assert!(!manager.has_transform(entity));
}

#[test]
fn dirtying_transforms() {
    let mut manager = SceneManager::new();
    let entity = 3u32;

    let component = manager.create_transform(entity).unwrap();
    manager.apply(component).unwrap();

    let mut entities = Vec::new();
    let mut transforms = Vec::new();

    manager.dirty(&mut entities, &mut transforms);

    assert_eq!(entities.len(), 1);
    assert_eq!(transforms.len(), 1);
    assert_eq!(entities[0], entity);
}

#[test]
fn created_transform_is_found_then_forgotten() {
    let mut manager = SceneManager::new();
    let t = manager.create_transform(9).unwrap();
    assert!(manager.has_transform(9));
    assert_eq!(manager.transform_for(9), Ok(t));
    manager.destroy_transform(t).unwrap();
    assert!(!manager.has_transform(9));
    assert_eq!(manager.transform_for(9), Err(SceneError::NotFound));
    assert_eq!(manager.count(), 0);
}

#[test]
fn second_transform_for_an_entity_is_refused() {
    let mut manager = SceneManager::new();
    assert_eq!(manager.create_transform(4), Ok(0));
    assert_eq!(manager.create_transform(4), Err(SceneError::AlreadyExists));
    assert_eq!(manager.count(), 1);
    assert_eq!(manager.create_transform(5), Ok(1));
}

#[test]
fn destroying_a_missing_row_is_out_of_range() {
    let mut manager = SceneManager::new();
    manager.create_transform(1).unwrap();
    assert_eq!(manager.destroy_transform(1), Err(SceneError::OutOfRange));
    assert_eq!(manager.apply(7), Err(SceneError::OutOfRange));
    assert_eq!(manager.subtree(1), Err(SceneError::OutOfRange));
    assert_eq!(manager.entity_of(1), Err(SceneError::OutOfRange));
    assert!(manager.has_transform(1));
}

#[test]
fn link_and_unlink_need_transforms() {
    let mut manager = SceneManager::new();
    manager.create_transform(1).unwrap();
    assert_eq!(manager.link(1, 2), Err(SceneError::NotFound));
    assert_eq!(manager.link(2, 1), Err(SceneError::NotFound));
    assert_eq!(manager.unlink(2), Err(SceneError::NotFound));
}

#[test]
fn linked_child_moves_with_parent() {
    let mut manager = SceneManager::new();
    let parent = 3u32;
    let child = 5u32;
    let p = manager.create_transform(parent).unwrap();
    let c = manager.create_transform(child).unwrap();

    assert_eq!(manager.link(child, parent), Ok(()));
    assert_eq!(manager.parent_of(c), Some(p));
    assert_eq!(manager.parent_of(p), None);
    assert_eq!(manager.subtree(p), Ok(vec![p, c]));
    assert_eq!(manager.subtree(c), Ok(vec![c]));
}

#[test]
fn unlinked_child_no_longer_moves_with_parent() {
    let mut manager = SceneManager::new();
    let parent = 3u32;
    let child = 5u32;
    let p = manager.create_transform(parent).unwrap();
    let c = manager.create_transform(child).unwrap();

    manager.link(child, parent).unwrap();
    assert_eq!(manager.unlink(child), Ok(()));
    assert_eq!(manager.parent_of(c), None);
    assert_eq!(manager.subtree(p), Ok(vec![p]));
    // Unlinking a root changes nothing.
    assert_eq!(manager.unlink(child), Ok(()));
    assert_eq!(manager.subtree(p), Ok(vec![p]));
}

#[test]
fn link_refuses_cycles() {
    let mut manager = SceneManager::new();
    for e in 0..3u32 {
        manager.create_transform(e).unwrap();
    }
    manager.link(1, 0).unwrap();
    manager.link(2, 1).unwrap();
    assert_eq!(manager.link(0, 0), Err(SceneError::CyclicLink));
    assert_eq!(manager.link(0, 2), Err(SceneError::CyclicLink));
    assert_eq!(manager.link(1, 2), Err(SceneError::CyclicLink));
    assert_eq!(manager.subtree(0), Ok(vec![0, 1, 2]));
    // Moving a subtree elsewhere is fine.
    assert_eq!(manager.link(2, 0), Ok(()));
    assert_eq!(manager.subtree(0), Ok(vec![0, 1, 2]));
    assert_eq!(manager.parent_of(2), Some(0));
}

#[test]
fn children_are_appended_in_order_and_listed_breadth_first() {
    let mut manager = SceneManager::new();
    for e in 10..16u32 {
        manager.create_transform(e).unwrap();
    }
    // Rows 0..6 belong to entities 10..16.
    manager.link(13, 10).unwrap();
    manager.link(11, 10).unwrap();
    manager.link(12, 13).unwrap();
    manager.link(15, 10).unwrap();
    manager.link(14, 11).unwrap();
    assert_eq!(manager.subtree(0), Ok(vec![0, 3, 1, 5, 2, 4]));
    assert_eq!(manager.subtree(1), Ok(vec![1, 4]));
    // Relinking under the same parent moves the child to the end.
    manager.link(13, 10).unwrap();
    assert_eq!(manager.subtree(0), Ok(vec![0, 1, 5, 3, 4, 2]));
    // Removing a middle child keeps the other siblings linked.
    manager.unlink(15).unwrap();
    assert_eq!(manager.subtree(0), Ok(vec![0, 1, 3, 4, 2]));
}

#[test]
fn destroy_moves_last_row_and_repairs_links() {
    let mut manager = SceneManager::new();
    let a = 100u32;
    let b = 101u32;
    let c = 102u32;
    let d = 103u32;
    for e in [a, b, c, d] {
        manager.create_transform(e).unwrap();
    }
    // a(0) -> b(1) -> d(3); a(0) -> c(2)
    manager.link(b, a).unwrap();
    manager.link(c, a).unwrap();
    manager.link(d, b).unwrap();

    // Destroy b: d becomes a root and moves into row 1.
    manager.destroy_transform(rows_of(&manager, b)).unwrap();
    assert_eq!(manager.count(), 3);
    assert!(!manager.has_transform(b));
    assert_eq!(rows_of(&manager, d), 1);
    assert_eq!(manager.entity_of(1), Ok(d));
    assert_eq!(manager.parent_of(1), None);
    assert_eq!(manager.subtree(0), Ok(vec![0, 2]));
    assert_eq!(manager.subtree(1), Ok(vec![1]));

    // Destroy a: c (the last row, a child of a) moves into row 0 as a root.
    manager.destroy_transform(rows_of(&manager, a)).unwrap();
    assert_eq!(manager.count(), 2);
    assert_eq!(rows_of(&manager, c), 0);
    assert_eq!(rows_of(&manager, d), 1);
    assert_eq!(manager.parent_of(0), None);
    assert_eq!(manager.subtree(0), Ok(vec![0]));
}

#[test]
fn destroy_relinks_moved_row_inside_its_family() {
    let mut manager = SceneManager::new();
    for e in 0..5u32 {
        manager.create_transform(e).unwrap();
    }
    // 0 has children 1, 4, 2 in that order; 4 has child 3.
    manager.link(1, 0).unwrap();
    manager.link(4, 0).unwrap();
    manager.link(2, 0).unwrap();
    manager.link(3, 4).unwrap();
    // Row 3 goes: row 4 (entity 4, a middle child with a child) moves there.
    manager.destroy_transform(3).unwrap();
    assert_eq!(rows_of(&manager, 4), 3);
    assert_eq!(manager.subtree(0), Ok(vec![0, 1, 3, 2]));
    assert_eq!(manager.parent_of(3), Some(0));
    // Entity 4's own child was destroyed, so it is a leaf now.
    assert_eq!(manager.subtree(3), Ok(vec![3]));
    manager.link(1, 4).unwrap();
    assert_eq!(manager.subtree(0), Ok(vec![0, 3, 2, 1]));
}

#[test]
fn dirty_set_holds_exactly_the_marked_row_until_reset() {
    let mut manager = SceneManager::new();
    for e in [7u32, 8, 9] {
        manager.create_transform(e).unwrap();
    }
    manager.link(9, 7).unwrap();
    manager.reset();

    let mut entities = Vec::new();
    let mut rows = Vec::new();
    manager.dirty(&mut entities, &mut rows);
    assert!(entities.is_empty() && rows.is_empty());

    // Marking the parent lists the whole subtree for recomputation but
    // flags only the parent.
    assert_eq!(manager.apply(0), Ok(vec![0, 2]));
    manager.dirty(&mut entities, &mut rows);
    assert_eq!(entities, vec![7]);
    assert_eq!(rows, vec![0]);

    manager.reset();
    let mut entities = Vec::new();
    let mut rows = Vec::new();
    manager.dirty(&mut entities, &mut rows);
    assert!(entities.is_empty() && rows.is_empty());
}

#[test]
fn link_marks_child_dirty() {
    let mut manager = SceneManager::new();
    manager.create_transform(1).unwrap();
    manager.create_transform(2).unwrap();
    manager.link(2, 1).unwrap();
    let mut entities = vec![42];
    let mut rows = vec![42];
    manager.dirty(&mut entities, &mut rows);
    assert_eq!(entities, vec![42, 2]);
    assert_eq!(rows, vec![42, 1]);
}

#[test]
fn reset_twice_is_reset_once() {
    let mut manager = SceneManager::new();
    for e in 0..4u32 {
        manager.create_transform(e).unwrap();
    }
    manager.link(1, 0).unwrap();
    manager.apply(2).unwrap();
    manager.reset();
    let once = (manager.subtree(0), manager.count());
    manager.reset();
    let twice = (manager.subtree(0), manager.count());
    assert_eq!(once, twice);
    let mut entities = Vec::new();
    let mut rows = Vec::new();
    manager.dirty(&mut entities, &mut rows);
    assert!(entities.is_empty() && rows.is_empty());
}
