use linear_state::{RootMap, SlotNode};
use std::rc::Rc;

fn base_of(entries: &[(u64, i64)]) -> SlotNode<i64> {
    let mut root = RootMap::new();
    for (kind, value) in entries {
        *root.get_mut_or_default(*kind) = *value;
    }
    root.into_node()
}

#[test]
fn root_map_starts_from_the_default() {
    let mut root: RootMap<i64> = RootMap::new();
    assert_eq!(*root.get_mut_or_default(3), 0);
    *root.get_mut_or_default(3) += 5;
    *root.get_mut_or_default(3) += 2;
    assert_eq!(*root.get_mut_or_default(3), 7);
    assert_eq!(*root.get_mut_or_default(4), 0);
}

#[test]
fn root_map_grows_a_vector_in_place() {
    let mut root: RootMap<Vec<&str>> = RootMap::new();
    root.get_mut_or_default(1).push("a");
    root.get_mut_or_default(2).push("x");
    root.get_mut_or_default(1).push("b");
    let node = root.into_node();
    assert_eq!(node.get(1), Some(&vec!["a", "b"]));
    assert_eq!(node.get(2), Some(&vec!["x"]));
    assert_eq!(node.get(3), None);
}

#[test]
fn into_node_keeps_every_entry() {
    let entries: Vec<(u64, i64)> = (0..200u64).map(|k| (k * 7919, k as i64 - 100)).collect();
    let node = base_of(&entries);
    for (kind, value) in &entries {
        assert_eq!(node.get(*kind), Some(value));
    }
    assert_eq!(node.get(1), None);
}

#[test]
fn empty_base_answers_nothing() {
    let node: SlotNode<i64> = RootMap::new().into_node();
    assert_eq!(node.get(0), None);
    assert!(matches!(node, SlotNode::Base(_)));
}

#[test]
fn child_override_shadows_the_parent() {
    let base = Rc::new(base_of(&[(1, 10), (2, 20)]));
    let child = Rc::new(base.child_with_override(1, 11));
    let grandchild = child.child_with_override(3, 30);
    assert_eq!(base.get(1), Some(&10));
    assert_eq!(child.get(1), Some(&11));
    assert_eq!(child.get(2), Some(&20));
    assert_eq!(child.get(3), None);
    assert_eq!(grandchild.get(1), Some(&11));
    assert_eq!(grandchild.get(2), Some(&20));
    assert_eq!(grandchild.get(3), Some(&30));
}

#[test]
fn nearest_override_wins() {
    let base = Rc::new(base_of(&[(1, 10)]));
    let first = Rc::new(base.child_with_override(1, 11));
    let second = Rc::new(first.child_with_override(1, 12));
    let sibling = first.child_with_override(1, 13);
    assert_eq!(second.get(1), Some(&12));
    assert_eq!(sibling.get(1), Some(&13));
    assert_eq!(first.get(1), Some(&11));
    assert_eq!(base.get(1), Some(&10));
}

#[test]
fn flatten_collapses_to_the_nearest_definitions() {
    let base = Rc::new(base_of(&[(1, 10), (2, 20), (3, 30)]));
    let a = Rc::new(base.child_with_override(1, 11));
    let b = Rc::new(a.child_with_override(4, 40));
    let c = Rc::new(b.child_with_override(1, 12));
    let flat = c.flatten();
    assert!(matches!(flat, SlotNode::Base(_)));
    for kind in 0..6 {
        assert_eq!(flat.get(kind), c.get(kind));
    }
    assert_eq!(flat.get(1), Some(&12));
    assert_eq!(flat.get(2), Some(&20));
    assert_eq!(flat.get(3), Some(&30));
    assert_eq!(flat.get(4), Some(&40));
    assert_eq!(flat.get(5), None);
}

#[test]
fn flatten_twice_changes_nothing() {
    let base = Rc::new(base_of(&[(1, 10), (2, 20)]));
    let child = base.child_with_override(2, 21);
    let once = child.flatten();
    let twice = once.flatten();
    for kind in 0..4 {
        assert_eq!(once.get(kind), child.get(kind));
        assert_eq!(twice.get(kind), once.get(kind));
    }
}

#[test]
fn flatten_of_a_wide_base_keeps_every_entry() {
    let entries: Vec<(u64, i64)> = (0..300u64).map(|k| (k * 104729 + 1, k as i64)).collect();
    let base = Rc::new(base_of(&entries));
    let child = base.child_with_override(entries[17].0, -1);
    let flat = child.flatten();
    for (kind, value) in &entries {
        let expected = if *kind == entries[17].0 { -1 } else { *value };
        assert_eq!(flat.get(*kind), Some(&expected));
    }
    assert_eq!(flat.get(0), None);
}
