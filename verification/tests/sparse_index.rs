use ecs::{Entity, SparseSet};

#[derive(Debug)]
struct Component;

#[test]
fn sparse_set_test_new() {
    let mut sparse_set = SparseSet::<Component>::new();

    sparse_set.insert(Entity::from_raw(20), Component);
    sparse_set.insert(Entity::from_raw(100), Component);
    sparse_set.insert(Entity::from_raw(40), Component);

    assert_eq!(sparse_set.dense.len(), 3);
    assert_eq!(sparse_set.sparse.len(), 101);
}

#[test]
fn test_insert() {
    let mut sparse_set = SparseSet::<Component>::new();

    assert_eq!(sparse_set.len(), 0);

    sparse_set.insert(Entity::from_raw(0), Component);

    assert_eq!(sparse_set.len(), 1);

    sparse_set.insert(Entity::from_raw(10), Component);

    assert_eq!(sparse_set.len(), 2);
    assert_eq!(sparse_set.sparse.len(), 11);

    sparse_set.insert(Entity::from_raw(9), Component);

    assert_eq!(sparse_set.len(), 3);
    assert_eq!(sparse_set.sparse.len(), 11);
}

#[test]
fn test_remove() {
    let mut sparse_set = SparseSet::<Component>::new();

    sparse_set.insert(Entity::from_raw(5), Component);
    sparse_set.insert(Entity::from_raw(1), Component);

    assert!(sparse_set.remove(Entity::from_raw(1)).is_some());

    assert!(sparse_set.get(Entity::from_raw(1)).is_none());
    assert!(sparse_set.get(Entity::from_raw(5)).is_some());
}

#[test]
fn test_remove_none() {
    let mut sparse_set = SparseSet::<Component>::new();

    assert!(sparse_set.remove(Entity::from_raw(0xDEADBEEF)).is_none());
}

#[test]
fn test_get() {
    let mut sparse_set = SparseSet::<u32>::new();

    sparse_set.insert(Entity::from_raw(0), 6);

    assert_eq!(sparse_set.get(Entity::from_raw(0)), Some(&6));
}

#[test]
fn test_get_mut() {
    let mut sparse_set = SparseSet::<u32>::new();

    sparse_set.insert(Entity::from_raw(0), 6);

    *sparse_set.get_mut(Entity::from_raw(0)).unwrap() = 12;

    assert_eq!(sparse_set.get(Entity::from_raw(0)), Some(&12));
}

#[test]
fn test_contains() {
    let mut sparse_set = SparseSet::<u32>::new();

    sparse_set.insert(Entity::from_raw(0), 1);
    sparse_set.insert(Entity::from_raw(1), 12);
    sparse_set.insert(Entity::from_raw(2), 42);

    assert!(sparse_set.contains(Entity::from_raw(0)));
    assert!(sparse_set.contains(Entity::from_raw(1)));
    assert!(sparse_set.contains(Entity::from_raw(2)));

    assert!(sparse_set.contains(Entity::from_raw(3)) == false);
}

#[test]
fn test_capacity() {
    let sparse_set = SparseSet::<Component>::with_capacity(100);

    assert_eq!(sparse_set.capacity(), 100);
}

#[test]
fn remove_retargets_swapped_entry() {
    let mut sparse_set = SparseSet::<u32>::new();

    sparse_set.insert(Entity::from_raw(3), 30);
    sparse_set.insert(Entity::from_raw(7), 70);
    sparse_set.insert(Entity::from_raw(9), 90);

    assert_eq!(sparse_set.remove(Entity::from_raw(3)), Some(30));

    assert_eq!(sparse_set.len(), 2);
    assert_eq!(sparse_set.get(Entity::from_raw(9)), Some(&90));
    assert_eq!(sparse_set.get(Entity::from_raw(7)), Some(&70));
    assert!(!sparse_set.contains(Entity::from_raw(3)));
}

#[test]
fn contains_is_false_after_removal() {
    let mut sparse_set = SparseSet::<u32>::new();

    sparse_set.insert(Entity::from_raw(0), 5);
    sparse_set.insert(Entity::from_raw(1), 6);

    sparse_set.remove(Entity::from_raw(0));

    assert!(!sparse_set.contains(Entity::from_raw(0)));
    assert!(sparse_set.contains(Entity::from_raw(1)));
}

#[test]
fn components_follow_dense_order() {
    let mut sparse_set = SparseSet::<u32>::new();

    sparse_set.insert(Entity::from_raw(4), 1);
    sparse_set.insert(Entity::from_raw(2), 2);
    sparse_set.insert(Entity::from_raw(6), 3);

    assert_eq!(sparse_set.components(), &[1, 2, 3]);

    sparse_set.remove(Entity::from_raw(4));

    assert_eq!(sparse_set.components(), &[3, 2]);
}
