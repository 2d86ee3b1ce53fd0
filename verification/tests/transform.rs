use scene_transform::app_core::math::vector2::Vector2;
use scene_transform::entities::entity::Entity;
use scene_transform::entities::transform::{NotFound, Role, Transform, TransformManager};
use std::collections::HashSet;

fn v(x: i64, y: i64) -> Vector2 {
    Vector2::new(x, y)
}

#[test]
fn should_create_initial_transform() {
    let transform = Transform::new(Entity::new(), Vector2::zero());

    assert_eq!(transform.parent(), None);
    assert_eq!(*transform.children(), HashSet::new());
    assert_eq!(transform.local_position().x, 0);
    assert_eq!(transform.local_position().y, 0);
    assert_eq!(transform.world_position().x, 0);
    assert_eq!(transform.world_position().y, 0);
}

#[test]
fn should_attach_correct_parent() {
    let mut manager = TransformManager::new();
    let parent_transform = Transform::new(Entity::new(), Vector2::new(20, 30));
    let child_transform = Transform::new(Entity::new(), Vector2::new(10, 15));

    let parent = manager.add_node(parent_transform);
    let child = manager.add_node(child_transform);

    manager.attach_parent(child, parent).unwrap();

    assert_eq!(manager.get_local_position(child).unwrap().x, -10);
    assert_eq!(manager.get_local_position(child).unwrap().y, -15);
    assert_eq!(manager.get_world_position(child).unwrap().x, 10);
    assert_eq!(manager.get_world_position(child).unwrap().y, 15);
    assert_eq!(manager.get_local_position(parent).unwrap().x, 20);
    assert_eq!(manager.get_local_position(parent).unwrap().y, 30);
    assert_eq!(manager.get_world_position(parent).unwrap().x, 20);
    assert_eq!(manager.get_world_position(parent).unwrap().y, 30);
}

#[test]
fn should_attach_correct_child() {
    let mut manager = TransformManager::new();
    let parent_transform = Transform::new(Entity::new(), Vector2::new(10, 15));
    let child_transform_1 = Transform::new(Entity::new(), Vector2::new(20, 30));
    let child_transform_2 = Transform::new(Entity::new(), Vector2::new(40, 50));

    let parent = manager.add_node(parent_transform);
    let child_1 = manager.add_node(child_transform_1);
    let child_2 = manager.add_node(child_transform_2);

    manager.attach_child(parent, child_1).unwrap();
    manager.attach_child(parent, child_2).unwrap();

    assert_eq!(manager.get_local_position(parent).unwrap().x, 10);
    assert_eq!(manager.get_local_position(parent).unwrap().y, 15);
    assert_eq!(manager.get_world_position(parent).unwrap().x, 10);
    assert_eq!(manager.get_world_position(parent).unwrap().y, 15);
    assert_eq!(manager.get_local_position(child_1).unwrap().x, 10);
    assert_eq!(manager.get_local_position(child_1).unwrap().y, 15);
    assert_eq!(manager.get_world_position(child_1).unwrap().x, 20);
    assert_eq!(manager.get_world_position(child_1).unwrap().y, 30);
    assert_eq!(manager.get_local_position(child_2).unwrap().x, 30);
    assert_eq!(manager.get_local_position(child_2).unwrap().y, 35);
    assert_eq!(manager.get_world_position(child_2).unwrap().x, 40);
    assert_eq!(manager.get_world_position(child_2).unwrap().y, 50);
}

#[test]
fn should_correct_transform_child_on_parent_move() {
    let mut manager = TransformManager::new();
    let parent_transform = Transform::new(Entity::new(), Vector2::new(10, 15));
    let child_transform_1 = Transform::new(Entity::new(), Vector2::new(20, 30));
    let child_transform_2 = Transform::new(Entity::new(), Vector2::new(40, 50));

    let parent = manager.add_node(parent_transform);
    let child_1 = manager.add_node(child_transform_1);
    let child_2 = manager.add_node(child_transform_2);

    manager.attach_child(parent, child_1).unwrap();
    manager.attach_child(parent, child_2).unwrap();

    manager
        .set_local_position(parent, Vector2::new(25, -5))
        .unwrap();

    assert_eq!(manager.get_local_position(child_1).unwrap().x, 10);
    assert_eq!(manager.get_local_position(child_1).unwrap().y, 15);
    assert_eq!(manager.get_world_position(child_1).unwrap().x, 35);
    assert_eq!(manager.get_world_position(child_1).unwrap().y, 10);
    assert_eq!(manager.get_local_position(child_2).unwrap().x, 30);
    assert_eq!(manager.get_local_position(child_2).unwrap().y, 35);
    assert_eq!(manager.get_world_position(child_2).unwrap().x, 55);
    assert_eq!(manager.get_world_position(child_2).unwrap().y, 30);

    manager
        .set_world_position(parent, Vector2::new(50, 50))
        .unwrap();

    assert_eq!(manager.get_local_position(child_1).unwrap().x, 10);
    assert_eq!(manager.get_local_position(child_1).unwrap().y, 15);
    assert_eq!(manager.get_world_position(child_1).unwrap().x, 60);
    assert_eq!(manager.get_world_position(child_1).unwrap().y, 65);
    assert_eq!(manager.get_local_position(child_2).unwrap().x, 30);
    assert_eq!(manager.get_local_position(child_2).unwrap().y, 35);
    assert_eq!(manager.get_world_position(child_2).unwrap().x, 80);
    assert_eq!(manager.get_world_position(child_2).unwrap().y, 85);
}

fn registry(positions: &[(u128, i64, i64)]) -> TransformManager {
    let mut manager = TransformManager::new();
    for (id, x, y) in positions {
        manager.add_node(Transform::new(Entity::from_id(*id), v(*x, *y)));
    }
    manager
}

fn e(id: u128) -> Entity {
    Entity::from_id(id)
}

#[test]
fn parent_move_reaches_grandchildren() {
    let mut manager = registry(&[(1, 1, 1), (2, 5, 5), (3, 9, 2), (4, 100, 100)]);
    manager.attach_child(e(1), e(2)).unwrap();
    manager.attach_child(e(2), e(3)).unwrap();

    manager.set_local_position(e(1), v(11, -9)).unwrap();

    assert_eq!(manager.get_local_position(e(1)).unwrap(), v(11, -9));
    assert_eq!(manager.get_world_position(e(1)).unwrap(), v(11, -9));
    assert_eq!(manager.get_world_position(e(2)).unwrap(), v(15, -5));
    assert_eq!(manager.get_world_position(e(3)).unwrap(), v(19, -8));
    assert_eq!(manager.get_local_position(e(2)).unwrap(), v(4, 4));
    assert_eq!(manager.get_local_position(e(3)).unwrap(), v(4, -3));
    assert_eq!(manager.get_world_position(e(4)).unwrap(), v(100, 100));
    assert_eq!(manager.get_local_position(e(4)).unwrap(), v(100, 100));
}

#[test]
fn world_equals_parent_world_plus_local_after_moves() {
    let mut manager = registry(&[(1, 3, 4), (2, 7, 7), (3, -2, 6)]);
    manager.attach_child(e(1), e(2)).unwrap();
    manager.attach_child(e(2), e(3)).unwrap();
    manager.set_local_position(e(1), v(-30, 12)).unwrap();
    manager.set_local_position(e(2), v(8, 8)).unwrap();

    let root = manager.get_world_position(e(1)).unwrap();
    assert_eq!(manager.get_local_position(e(1)).unwrap(), root);
    let mid = manager.get_world_position(e(2)).unwrap();
    assert_eq!(mid, root.plus(manager.get_local_position(e(2)).unwrap()));
    let leaf = manager.get_world_position(e(3)).unwrap();
    assert_eq!(leaf, mid.plus(manager.get_local_position(e(3)).unwrap()));
    assert_eq!(mid, v(-22, 20));
    assert_eq!(leaf, v(-31, 19));
}

#[test]
fn attach_parent_rebases_on_parent_world_position() {
    let mut manager = registry(&[(1, 10, 10), (2, 30, 30), (3, 35, 31)]);
    manager.attach_child(e(1), e(2)).unwrap();
    manager.attach_parent(e(3), e(2)).unwrap();

    assert_eq!(manager.get_local_position(e(2)).unwrap(), v(20, 20));
    assert_eq!(manager.get_local_position(e(3)).unwrap(), v(5, 1));
    assert_eq!(manager.get_world_position(e(3)).unwrap(), v(35, 31));
    assert_eq!(manager.get_parent(e(3)).unwrap(), Some(e(2)));
    assert!(manager.get_children(e(2)).unwrap().is_empty());
}

#[test]
fn set_local_position_round_trips() {
    let mut manager = registry(&[(1, 0, 0)]);
    manager.set_local_position(e(1), v(-7, 9)).unwrap();
    assert_eq!(manager.get_local_position(e(1)).unwrap(), v(-7, 9));
    assert_eq!(manager.get_world_position(e(1)).unwrap(), v(-7, 9));
}

#[test]
fn set_world_position_round_trips_and_keeps_local() {
    let mut manager = registry(&[(1, 4, 4), (2, 6, 9)]);
    manager.attach_child(e(1), e(2)).unwrap();
    manager.set_world_position(e(2), v(100, -100)).unwrap();
    assert_eq!(manager.get_world_position(e(2)).unwrap(), v(100, -100));
    assert_eq!(manager.get_local_position(e(2)).unwrap(), v(2, 5));
    assert_eq!(manager.get_world_position(e(1)).unwrap(), v(4, 4));
}

#[test]
fn unregistered_entities_are_reported_and_nothing_changes() {
    let mut manager = registry(&[(1, 1, 2), (2, 3, 4)]);
    manager.attach_child(e(1), e(2)).unwrap();
    let gone = e(9);
    let target = NotFound { role: Role::Target, entity: gone };

    assert_eq!(manager.remove_node(gone), Err(target));
    assert_eq!(manager.detach_parent(gone), Err(target));
    assert_eq!(manager.get_parent(gone), Err(target));
    assert_eq!(manager.attach_child(gone, e(1)), Err(target));
    assert_eq!(manager.detach_child(gone, e(1)), Err(target));
    assert_eq!(manager.get_children(gone), Err(target));
    assert_eq!(manager.set_local_position(gone, v(0, 0)), Err(target));
    assert_eq!(manager.get_local_position(gone), Err(target));
    assert_eq!(manager.set_world_position(gone, v(0, 0)), Err(target));
    assert_eq!(manager.get_world_position(gone), Err(target));
    assert_eq!(
        manager.attach_parent(e(1), gone),
        Err(NotFound { role: Role::Parent, entity: gone })
    );
    assert_eq!(
        manager.attach_parent(gone, e(1)),
        Err(NotFound { role: Role::Child, entity: gone })
    );
    assert_eq!(
        manager.attach_child(e(1), gone),
        Err(NotFound { role: Role::Child, entity: gone })
    );

    assert_eq!(manager.get_local_position(e(1)).unwrap(), v(1, 2));
    assert_eq!(manager.get_world_position(e(1)).unwrap(), v(1, 2));
    assert_eq!(manager.get_parent(e(1)).unwrap(), None);
    assert_eq!(manager.get_children(e(1)).unwrap(), HashSet::from([2u128]));
    assert_eq!(manager.get_local_position(e(2)).unwrap(), v(2, 2));
    assert_eq!(manager.get_world_position(e(2)).unwrap(), v(3, 4));
    assert_eq!(manager.get_parent(e(2)).unwrap(), Some(e(1)));
}

#[test]
fn move_over_a_missing_descendant_changes_nothing() {
    let mut manager = registry(&[(1, 1, 1), (2, 2, 2), (3, 3, 3)]);
    manager.attach_child(e(1), e(2)).unwrap();
    manager.attach_child(e(2), e(3)).unwrap();
    manager.remove_node(e(3)).unwrap();

    let missing = Err(NotFound { role: Role::Child, entity: e(3) });
    assert_eq!(manager.set_local_position(e(1), v(50, 50)), missing);
    assert_eq!(manager.set_world_position(e(1), v(50, 50)), missing);
    assert_eq!(manager.get_local_position(e(1)).unwrap(), v(1, 1));
    assert_eq!(manager.get_world_position(e(1)).unwrap(), v(1, 1));
    assert_eq!(manager.get_world_position(e(2)).unwrap(), v(2, 2));
}

#[test]
fn move_ends_on_a_cycle_and_shifts_each_entity_once() {
    let mut manager = registry(&[(1, 1, 1), (2, 2, 2)]);
    manager.attach_child(e(1), e(2)).unwrap();
    manager.attach_child(e(2), e(1)).unwrap();

    manager.set_world_position(e(1), v(11, 21)).unwrap();

    assert_eq!(manager.get_world_position(e(1)).unwrap(), v(11, 21));
    assert_eq!(manager.get_world_position(e(2)).unwrap(), v(12, 22));
}

#[test]
fn shared_child_is_shifted_once() {
    let mut manager = registry(&[(1, 0, 0), (2, 5, 5), (3, 6, 6), (4, 9, 9)]);
    manager.attach_child(e(1), e(2)).unwrap();
    manager.attach_child(e(1), e(3)).unwrap();
    manager.attach_child(e(2), e(4)).unwrap();
    manager.attach_child(e(3), e(4)).unwrap();

    manager.set_local_position(e(1), v(1, 2)).unwrap();

    assert_eq!(manager.get_world_position(e(4)).unwrap(), v(10, 11));
}

#[test]
fn add_node_overwrites_silently() {
    let mut manager = registry(&[(1, 1, 1), (2, 2, 2)]);
    manager.attach_child(e(1), e(2)).unwrap();
    let again = manager.add_node(Transform::new(e(1), v(8, 8)));
    assert_eq!(again, e(1));
    assert_eq!(manager.get_world_position(e(1)).unwrap(), v(8, 8));
    assert!(manager.get_children(e(1)).unwrap().is_empty());
}

#[test]
fn detach_is_one_sided() {
    let mut manager = registry(&[(1, 10, 0), (2, 12, 3)]);
    manager.attach_child(e(1), e(2)).unwrap();

    manager.detach_child(e(1), e(2)).unwrap();
    assert!(manager.get_children(e(1)).unwrap().is_empty());
    assert_eq!(manager.get_parent(e(2)).unwrap(), Some(e(1)));

    manager.detach_parent(e(2)).unwrap();
    assert_eq!(manager.get_parent(e(2)).unwrap(), None);
    assert_eq!(manager.get_local_position(e(2)).unwrap(), v(2, 3));
    assert_eq!(manager.get_world_position(e(2)).unwrap(), v(12, 3));
}

#[test]
fn remove_node_leaves_links_of_others() {
    let mut manager = registry(&[(1, 0, 0), (2, 1, 1)]);
    manager.attach_child(e(1), e(2)).unwrap();
    manager.remove_node(e(1)).unwrap();
    assert_eq!(manager.get_parent(e(2)).unwrap(), Some(e(1)));
    assert_eq!(manager.remove_node(e(1)), Err(NotFound { role: Role::Target, entity: e(1) }));
}

#[test]
fn vector_arithmetic_wraps() {
    assert_eq!(v(1, 2).plus(v(3, -5)), v(4, -3));
    assert_eq!(v(1, 2).minus(v(3, -5)), v(-2, 7));
    assert_eq!(v(i64::MAX, i64::MIN).plus(v(1, -1)), v(i64::MIN, i64::MAX));
    assert_eq!(v(i64::MIN, 0).minus(v(1, i64::MIN)), v(i64::MAX, i64::MIN));
    assert_eq!(Vector2::zero(), v(0, 0));
}

#[test]
fn fresh_entities_are_random_identifiers() {
    let a = Entity::new();
    let b = Entity::new();
    let marks = 0x0000_0000_0000_f000_c000_0000_0000_0000u128;
    assert_eq!(a.id() & marks, 0x0000_0000_0000_4000_8000_0000_0000_0000u128);
    assert_eq!(b.id() & marks, 0x0000_0000_0000_4000_8000_0000_0000_0000u128);
    assert_ne!(a, b);
    assert_eq!(Entity::from_id(a.id()), a);
}
