use linear_state::{RootState, State};

const WORDS: u64 = 7;
const NUMBERS: u64 = 8;
const EMPTY: u64 = 9;

fn words(items: &[&'static str]) -> State<&'static str> {
    RootState::new().with_many(WORDS, items.to_vec()).finalize()
}

fn collect_trace(state: &State<u32>, kind: u64) -> Vec<u32> {
    let mut walk = state.trace(kind);
    let mut seen = Vec::new();
    while let Some(value) = walk.next() {
        seen.push(*value);
    }
    seen
}

#[test]
fn add_keeps_insertion_order() {
    let mut root = RootState::new();
    root.add(WORDS, "a");
    root.add(WORDS, "b");
    let state = root.finalize();
    assert_eq!(state.get(WORDS), &["a", "b"]);
}

#[test]
fn add_many_appends_in_order() {
    let mut root = RootState::new();
    root.add(NUMBERS, 1u32);
    root.add_many(NUMBERS, vec![2, 3, 4]);
    root.add_many(NUMBERS, Vec::new());
    root.add(NUMBERS, 5);
    let state = root.finalize();
    assert_eq!(state.get(NUMBERS), &[1, 2, 3, 4, 5]);
}

#[test]
fn with_and_with_many_chain() {
    let state = RootState::new()
        .with(NUMBERS, 10u32)
        .with_many(WORDS, vec![1, 2])
        .with(NUMBERS, 20)
        .with_many(NUMBERS, vec![30, 40])
        .finalize();
    assert_eq!(state.get(NUMBERS), &[10, 20, 30, 40]);
    assert_eq!(state.get(WORDS), &[1, 2]);
}

#[test]
fn kinds_do_not_mix() {
    let mut root = RootState::new();
    root.add(WORDS, 1u32);
    root.add(NUMBERS, 2);
    root.add(WORDS, 3);
    let state = root.finalize();
    assert_eq!(state.get(WORDS), &[1, 3]);
    assert_eq!(state.get(NUMBERS), &[2]);
}

#[test]
fn absent_kind_is_empty() {
    let state = words(&["a"]);
    assert!(state.get(EMPTY).is_empty());
    assert_eq!(state.first(EMPTY), None);
    assert!(!state.has(EMPTY, &"a"));
    let fresh: State<u32> = RootState::new().finalize();
    assert!(fresh.get(WORDS).is_empty());
}

#[test]
fn first_is_head_of_slot() {
    let state = words(&["x", "y", "z"]);
    assert_eq!(state.first(WORDS), Some(&"x"));
}

#[test]
fn has_tests_membership() {
    let state = words(&["x", "y", "z"]);
    assert!(state.has(WORDS, &"x"));
    assert!(state.has(WORDS, &"z"));
    assert!(!state.has(WORDS, &"w"));
    assert!(!state.has(NUMBERS, &"x"));
}

#[test]
fn with_produced_appends_after_existing() {
    let state = words(&["a", "b"]);
    let child = state.with_produced(WORDS, vec!["c", "d"]);
    assert_eq!(child.get(WORDS), &["a", "b", "c", "d"]);
    let grandchild = child.with_produced(WORDS, Vec::new());
    assert_eq!(grandchild.get(WORDS), &["a", "b", "c", "d"]);
    let other = child.with_produced(EMPTY, vec!["e"]);
    assert_eq!(other.get(EMPTY), &["e"]);
    assert_eq!(other.get(WORDS), &["a", "b", "c", "d"]);
}

#[test]
fn branches_leave_parent_and_siblings_alone() {
    let parent = RootState::new()
        .with_many(WORDS, vec!["x", "y", "z"])
        .with(NUMBERS, "n")
        .finalize();
    let mut children = Vec::new();
    for extra in ["p", "q", "r", "s"] {
        children.push(parent.with_produced(WORDS, vec![extra]));
    }
    parent.descend_consumed(WORDS, |child, _| children.push(child.clone()));
    parent.descend_mapped(NUMBERS, |_| "m", |child, _| children.push(child.clone()));
    assert_eq!(children.len(), 8);
    assert_eq!(parent.get(WORDS), &["x", "y", "z"]);
    assert_eq!(parent.get(NUMBERS), &["n"]);
    assert_eq!(children[0].get(WORDS), &["x", "y", "z", "p"]);
    assert_eq!(children[1].get(WORDS), &["x", "y", "z", "q"]);
    assert_eq!(children[2].get(WORDS), &["x", "y", "z", "r"]);
    assert_eq!(children[3].get(WORDS), &["x", "y", "z", "s"]);
    assert_eq!(children[4].get(WORDS), &["y", "z"]);
    assert_eq!(children[5].get(WORDS), &["x", "z"]);
    assert_eq!(children[6].get(WORDS), &["x", "y"]);
    assert_eq!(children[7].get(WORDS), &["x", "y", "z"]);
    assert_eq!(children[7].get(NUMBERS), &["m"]);
    for child in &children[..7] {
        assert_eq!(child.get(NUMBERS), &["n"]);
    }
}

#[test]
fn descend_mapped_filtered_moves_the_mapped_value_last() {
    let state = words(&["x", "y", "z"]);
    let mut seen = Vec::new();
    state.descend_mapped_filtered(
        WORDS,
        |value| *value == "y",
        |value| if value == "y" { "mapped-y" } else { "other" },
        |child, last| seen.push((child.get(WORDS).to_vec(), *last)),
    );
    assert_eq!(seen, vec![(vec!["x", "z", "mapped-y"], "mapped-y")]);
    assert_eq!(state.get(WORDS), &["x", "y", "z"]);
}

#[test]
fn descend_mapped_filtered_keeps_the_order_of_the_rest() {
    let state = words(&["x", "y", "z", "w"]);
    let mut seen = Vec::new();
    state.descend_mapped_filtered(
        WORDS,
        |value| *value == "x" || *value == "w",
        |_| "m",
        |child, _| seen.push(child.get(WORDS).to_vec()),
    );
    assert_eq!(seen, vec![vec!["y", "z", "w", "m"], vec!["x", "y", "z", "m"]]);
}

#[test]
fn descend_mapped_visits_every_value_in_order() {
    let state = RootState::new().with_many(NUMBERS, vec![1u32, 2, 3]).finalize();
    let mut seen = Vec::new();
    state.descend_mapped(
        NUMBERS,
        |value| value * 10,
        |child, last| seen.push((child.get(NUMBERS).to_vec(), *last)),
    );
    assert_eq!(
        seen,
        vec![(vec![2, 3, 10], 10), (vec![1, 3, 20], 20), (vec![1, 2, 30], 30)]
    );
}

#[test]
fn descend_consumed_filtered_hands_out_the_match() {
    let state = words(&["x", "y", "z"]);
    let mut seen = Vec::new();
    state.descend_consumed_filtered(
        WORDS,
        |value| *value == "y",
        |child, taken| seen.push((child.get(WORDS).to_vec(), taken)),
    );
    assert_eq!(seen, vec![(vec!["x", "z"], "y")]);
    assert_eq!(state.get(WORDS), &["x", "y", "z"]);
}

#[test]
fn descend_consumed_visits_every_value_in_order() {
    let state = words(&["x", "y", "z"]);
    let mut seen = Vec::new();
    state.descend_consumed(WORDS, |child, taken| seen.push((child.get(WORDS).to_vec(), taken)));
    assert_eq!(
        seen,
        vec![(vec!["y", "z"], "x"), (vec!["x", "z"], "y"), (vec!["x", "y"], "z")]
    );
}

#[test]
fn descend_without_a_match_calls_nothing() {
    let state = words(&["x", "y", "z"]);
    let mut calls = 0;
    state.descend_mapped_filtered(WORDS, |_| false, |value| value, |_, _| calls += 1);
    state.descend_consumed_filtered(WORDS, |_| false, |_, _| calls += 1);
    state.descend_mapped(EMPTY, |value| value, |_, _| calls += 1);
    state.descend_consumed(EMPTY, |_, _| calls += 1);
    assert_eq!(calls, 0);
}

#[test]
fn descend_overrides_one_kind_only() {
    let state = RootState::new()
        .with_many(WORDS, vec![1u32, 2])
        .with_many(NUMBERS, vec![7, 8])
        .finalize();
    let mut seen = Vec::new();
    state.descend_consumed_filtered(
        WORDS,
        |value| *value == 1,
        |child, _| seen.push((child.get(WORDS).to_vec(), child.get(NUMBERS).to_vec())),
    );
    assert_eq!(seen, vec![(vec![2], vec![7, 8])]);
}

#[test]
fn flatten_shows_the_same_slots() {
    let base = RootState::new()
        .with_many(WORDS, vec![1u32, 2])
        .with(NUMBERS, 3)
        .finalize();
    let deep = base
        .with_produced(WORDS, vec![4])
        .with_produced(EMPTY, vec![5])
        .with_produced(WORDS, vec![6]);
    let once = deep.flatten();
    let twice = once.flatten();
    for kind in [WORDS, NUMBERS, EMPTY, 1000] {
        assert_eq!(once.get(kind), deep.get(kind));
        assert_eq!(twice.get(kind), once.get(kind));
    }
    assert_eq!(once.get(WORDS), &[1, 2, 4, 6]);
    assert_eq!(once.get(NUMBERS), &[3]);
    assert_eq!(once.get(EMPTY), &[5]);
    let after = once.with_produced(NUMBERS, vec![9]);
    assert_eq!(after.get(NUMBERS), &[3, 9]);
    assert_eq!(once.get(NUMBERS), &[3]);
}

#[test]
fn trace_gives_the_latest_first() {
    let start: State<u32> = RootState::new().with(NUMBERS, 0).finalize();
    let first = start.with_trace(WORDS, 1);
    let descendant = first.with_produced(NUMBERS, vec![5]).with_trace(WORDS, 2);
    assert_eq!(collect_trace(&descendant, WORDS), vec![2, 1]);
    assert_eq!(collect_trace(&first, WORDS), vec![1]);
    assert_eq!(collect_trace(&start, WORDS), Vec::<u32>::new());
}

#[test]
fn trace_can_be_walked_again() {
    let state: State<u32> = RootState::new().finalize().with_trace(WORDS, 1).with_trace(WORDS, 2);
    assert_eq!(collect_trace(&state, WORDS), vec![2, 1]);
    assert_eq!(collect_trace(&state, WORDS), vec![2, 1]);
    let mut walk = state.trace(WORDS);
    assert_eq!(walk.next(), Some(&2));
    assert_eq!(walk.next(), Some(&1));
    assert_eq!(walk.next(), None);
    assert_eq!(walk.next(), None);
}

#[test]
fn trace_is_kept_by_kind_and_apart_from_slots() {
    let start: State<u32> = RootState::new().with_many(WORDS, vec![7, 8]).finalize();
    let traced = start.with_trace(WORDS, 1).with_trace(NUMBERS, 2).with_trace(WORDS, 3);
    assert_eq!(collect_trace(&traced, WORDS), vec![3, 1]);
    assert_eq!(collect_trace(&traced, NUMBERS), vec![2]);
    assert_eq!(collect_trace(&traced, EMPTY), Vec::<u32>::new());
    assert_eq!(traced.get(WORDS), &[7, 8]);
    assert!(traced.get(NUMBERS).is_empty());
}

#[test]
fn trace_branches_share_their_past() {
    let start: State<u32> = RootState::new().finalize().with_trace(WORDS, 1);
    let left = start.with_trace(WORDS, 2);
    let right = start.with_trace(WORDS, 3);
    assert_eq!(collect_trace(&left, WORDS), vec![2, 1]);
    assert_eq!(collect_trace(&right, WORDS), vec![3, 1]);
    assert_eq!(collect_trace(&start, WORDS), vec![1]);
}

#[test]
fn flatten_keeps_the_trace() {
    let state: State<u32> = RootState::new()
        .with(NUMBERS, 4)
        .finalize()
        .with_trace(WORDS, 1)
        .with_produced(NUMBERS, vec![5])
        .with_trace(WORDS, 2);
    let flat = state.flatten();
    assert_eq!(collect_trace(&flat, WORDS), vec![2, 1]);
    assert_eq!(flat.get(NUMBERS), &[4, 5]);
}

#[test]
fn clone_shows_the_same_state() {
    let state = words(&["a"]).with_produced(WORDS, vec!["b"]);
    let copy = state.clone();
    assert_eq!(copy.get(WORDS), state.get(WORDS));
    assert_eq!(copy.get(WORDS), &["a", "b"]);
}
