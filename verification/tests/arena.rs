use dirtree::arenatree::{ArenaTree, TreeError};
use dirtree::listing::Entry;

fn entry(dir: &str, name: &str, is_dir: bool) -> Entry {
    Entry { name: name.to_string(), fullpath: format!("{}/{}", dir, name), is_dir }
}

fn names(tree: &ArenaTree, idx: usize) -> Vec<String> {
    tree.get(idx).children.iter().map(|&c| tree.get(c).name.clone()).collect()
}

fn sample() -> ArenaTree {
    let mut tree = ArenaTree::new("/tmp/x");
    let listing = vec![entry("/tmp/x", "a.txt", false), entry("/tmp/x", "b", true)];
    assert!(tree.read_children(0, Ok(listing)).is_ok());
    tree
}

#[test]
fn new_tree_is_a_single_unread_root() {
    let tree = ArenaTree::new("/tmp/x");
    assert_eq!(tree.arena.len(), 1);
    assert_eq!(tree.current, 0);
    let root = tree.get_current();
    assert_eq!(root.idx, 0);
    assert_eq!(root.parent, None);
    assert!(root.is_dir);
    assert!(!root.loaded);
    assert!(root.children.is_empty());
    assert_eq!(root.fullpath, "/tmp/x");
    assert_eq!(root.name, "/tmp/x");
}

#[test]
fn load_lists_directories_before_files() {
    let tree = sample();
    assert_eq!(names(&tree, 0), vec!["b".to_string(), "a.txt".to_string()]);
    assert_eq!(tree.get(0).children, vec![1, 2]);
    assert!(tree.get(0).loaded);
    let b = tree.get(1);
    assert_eq!(b.idx, 1);
    assert_eq!(b.parent, Some(0));
    assert!(b.is_dir);
    assert!(!b.loaded);
    assert_eq!(b.fullpath, "/tmp/x/b");
    let a = tree.get(2);
    assert_eq!(a.idx, 2);
    assert_eq!(a.parent, Some(0));
    assert!(!a.is_dir);
    assert_eq!(a.fullpath, "/tmp/x/a.txt");
}

#[test]
fn load_orders_names_by_their_bytes() {
    let mut tree = ArenaTree::new("/r");
    let listing = vec![
        entry("/r", "b", false),
        entry("/r", "B", false),
        entry("/r", "a", false),
        entry("/r", "ab", false),
        entry("/r", "z", true),
        entry("/r", "Z", true),
        entry("/r", "\u{e9}", false),
        entry("/r", "", false),
    ];
    assert!(tree.read_children(0, Ok(listing)).is_ok());
    let got = names(&tree, 0);
    let want: Vec<String> =
        ["Z", "z", "", "B", "a", "ab", "b", "\u{e9}"].iter().map(|s| s.to_string()).collect();
    assert_eq!(got, want);
}

#[test]
fn load_does_not_depend_on_the_order_of_the_listing() {
    let mut one = ArenaTree::new("/r");
    let mut two = ArenaTree::new("/r");
    let first = vec![entry("/r", "c", false), entry("/r", "a", true), entry("/r", "b", false)];
    let second = vec![entry("/r", "b", false), entry("/r", "c", false), entry("/r", "a", true)];
    assert!(one.read_children(0, Ok(first)).is_ok());
    assert!(two.read_children(0, Ok(second)).is_ok());
    assert_eq!(names(&one, 0), names(&two, 0));
    assert_eq!(names(&one, 0), vec!["a".to_string(), "b".to_string(), "c".to_string()]);
}

#[test]
fn load_of_a_loaded_directory_changes_nothing() {
    let mut tree = sample();
    let again = vec![entry("/tmp/x", "zzz", false)];
    assert!(tree.read_children(0, Ok(again)).is_ok());
    assert_eq!(tree.arena.len(), 3);
    assert_eq!(names(&tree, 0), vec!["b".to_string(), "a.txt".to_string()]);
}

#[test]
fn load_of_a_file_is_refused() {
    let mut tree = sample();
    let r = tree.read_children(2, Ok(vec![entry("/tmp/x/a.txt", "q", false)]));
    assert!(matches!(r, Err(TreeError::NotADirectory)));
    assert_eq!(tree.arena.len(), 3);
    assert!(tree.get(2).children.is_empty());
}

#[test]
fn load_of_a_missing_node_is_refused() {
    let mut tree = sample();
    let r = tree.read_children(3, Ok(vec![]));
    assert!(matches!(r, Err(TreeError::InvariantViolation)));
    assert_eq!(tree.arena.len(), 3);
}

#[test]
fn load_hands_on_the_failure_of_the_read() {
    let mut tree = sample();
    let r = tree.read_children(1, Err("permission denied".to_string()));
    match r {
        Err(TreeError::Io(msg)) => assert_eq!(msg, "permission denied"),
        _ => panic!("expected an i/o error"),
    }
    assert_eq!(tree.arena.len(), 3);
    assert!(!tree.get(1).loaded);
}

#[test]
fn load_of_an_empty_directory_marks_it_loaded() {
    let mut tree = sample();
    assert!(tree.read_children(1, Ok(vec![])).is_ok());
    assert!(tree.get(1).loaded);
    assert!(tree.get(1).children.is_empty());
    assert!(tree.read_children(1, Ok(vec![entry("/tmp/x/b", "n", false)])).is_ok());
    assert_eq!(names(&tree, 1), vec!["n".to_string()]);
}

#[test]
fn siblings_stop_at_both_ends() {
    let mut tree = ArenaTree::new("/r");
    let listing = vec![entry("/r", "a", false), entry("/r", "b", false), entry("/r", "c", false)];
    assert!(tree.read_children(0, Ok(listing)).is_ok());
    assert_eq!(tree.previous_sibling(1), None);
    assert_eq!(tree.next_sibling(1), Some(2));
    assert_eq!(tree.previous_sibling(2), Some(1));
    assert_eq!(tree.next_sibling(2), Some(3));
    assert_eq!(tree.previous_sibling(3), Some(2));
    assert_eq!(tree.next_sibling(3), None);
    assert_eq!(tree.previous_sibling(0), None);
    assert_eq!(tree.next_sibling(0), None);
    let root = tree.get(0);
    assert_eq!(root.previous_child(1), None);
    assert_eq!(root.next_child(3), None);
    assert_eq!(root.previous_child(3), Some(2));
    assert_eq!(root.next_child(1), Some(2));
    assert_eq!(root.previous_child(9), None);
    assert_eq!(root.next_child(9), None);
    assert_eq!(root.position_of(2), Some(1));
    assert_eq!(root.position_of(9), None);
}

#[test]
fn collapse_forgets_the_children_and_keeps_the_arena() {
    let mut tree = sample();
    assert!(tree.read_children(1, Ok(vec![entry("/tmp/x/b", "n", false)])).is_ok());
    assert_eq!(tree.arena.len(), 4);
    tree.remove_children(1);
    assert!(tree.get(1).children.is_empty());
    assert!(!tree.get(1).loaded);
    assert_eq!(tree.arena.len(), 4);
    assert_eq!(tree.get(3).name, "n");
    assert!(tree.is_attached(1));
    assert!(!tree.is_attached(3));
}

#[test]
fn collapse_moves_a_selection_from_below_to_the_collapsed_node() {
    let mut tree = sample();
    assert!(tree.read_children(1, Ok(vec![entry("/tmp/x/b", "n", false)])).is_ok());
    tree.current = 3;
    tree.remove_children(0);
    assert_eq!(tree.current, 0);
    let mut other = sample();
    other.current = 2;
    other.remove_children(1);
    assert_eq!(other.current, 2);
}

#[test]
fn collapse_of_a_file_changes_nothing() {
    let mut tree = sample();
    tree.remove_children(2);
    assert_eq!(names(&tree, 0), vec!["b".to_string(), "a.txt".to_string()]);
    assert!(!tree.get(2).loaded);
}

#[test]
fn collapse_then_expand_gives_the_same_children() {
    let listing = || vec![entry("/tmp/x", "a.txt", false), entry("/tmp/x", "b", true)];
    let mut tree = ArenaTree::new("/tmp/x");
    assert!(tree.read_children(0, Ok(listing())).is_ok());
    let before = names(&tree, 0);
    tree.remove_children(0);
    assert!(tree.read_children(0, Ok(listing())).is_ok());
    assert_eq!(names(&tree, 0), before);
    assert_eq!(tree.get(0).children, vec![3, 4]);
}

#[test]
fn subtree_size_counts_what_hangs_below() {
    let mut tree = sample();
    assert_eq!(tree.subtree_size(0), 3);
    assert_eq!(tree.subtree_size(1), 1);
    let inner = vec![entry("/tmp/x/b", "n", false), entry("/tmp/x/b", "m", true)];
    assert!(tree.read_children(1, Ok(inner)).is_ok());
    assert_eq!(tree.subtree_size(0), 5);
    assert_eq!(tree.subtree_size(1), 3);
    assert_eq!(tree.subtree_size(2), 1);
    tree.remove_children(1);
    assert_eq!(tree.subtree_size(0), 3);
    assert_eq!(tree.subtree_size(3), 1);
}

#[test]
fn refresh_keeps_what_is_still_listed() {
    let mut tree = sample();
    let inner = vec![entry("/tmp/x/b", "n", false)];
    assert!(tree.read_children(1, Ok(inner)).is_ok());
    tree.current = 3;
    let again = vec![
        entry("/tmp/x", "new", true),
        entry("/tmp/x", "b", true),
        entry("/tmp/x", "0.txt", false),
    ];
    assert!(tree.refresh(0, Ok(again)).is_ok());
    assert_eq!(names(&tree, 0), vec!["b".to_string(), "new".to_string(), "0.txt".to_string()]);
    assert_eq!(tree.get(0).children, vec![1, 4, 5]);
    assert!(tree.get(1).loaded);
    assert_eq!(tree.get(1).children, vec![3]);
    assert_eq!(tree.current, 3);
    assert!(!tree.is_attached(2));
    assert!(!tree.get(4).loaded);
    assert_eq!(tree.get(4).parent, Some(0));
}

#[test]
fn refresh_moves_a_lost_selection_to_the_directory() {
    let mut tree = sample();
    tree.current = 2;
    assert!(tree.refresh(0, Ok(vec![entry("/tmp/x", "b", true)])).is_ok());
    assert_eq!(tree.current, 0);
    assert_eq!(tree.get(0).children, vec![1]);
}

#[test]
fn refresh_takes_each_child_once() {
    let mut tree = sample();
    let twice = vec![entry("/tmp/x", "b", true), entry("/tmp/x", "b", true)];
    assert!(tree.refresh(0, Ok(twice)).is_ok());
    assert_eq!(tree.get(0).children, vec![1, 3]);
}

#[test]
fn refresh_refuses_what_load_refuses() {
    let mut tree = sample();
    assert!(matches!(tree.refresh(2, Ok(vec![])), Err(TreeError::NotADirectory)));
    assert!(matches!(tree.refresh(7, Ok(vec![])), Err(TreeError::InvariantViolation)));
    match tree.refresh(0, Err("gone".to_string())) {
        Err(TreeError::Io(msg)) => assert_eq!(msg, "gone"),
        _ => panic!("expected an i/o error"),
    }
    assert_eq!(names(&tree, 0), vec!["b".to_string(), "a.txt".to_string()]);
}

#[test]
fn create_loads_the_root() {
    let listing = vec![entry("/tmp/x", "a.txt", false), entry("/tmp/x", "b", true)];
    let tree = match ArenaTree::create("/tmp/x", Ok(listing)) {
        Ok(tree) => tree,
        Err(_) => panic!("the root was listed"),
    };
    assert_eq!(tree.current, 0);
    assert!(tree.get(0).loaded);
    assert_eq!(names(&tree, 0), vec!["b".to_string(), "a.txt".to_string()]);
    assert!(tree.is_well_formed());
}

#[test]
fn create_fails_where_the_root_cannot_be_listed() {
    match ArenaTree::create("/nowhere", Err("not found".to_string())) {
        Err(TreeError::Io(msg)) => assert_eq!(msg, "not found"),
        _ => panic!("expected an i/o error"),
    }
}

#[test]
fn trees_stay_well_formed() {
    let mut tree = sample();
    assert!(tree.is_well_formed());
    assert!(tree.read_children(1, Ok(vec![entry("/tmp/x/b", "n", false)])).is_ok());
    tree.current = 3;
    assert!(tree.is_well_formed());
    assert!(tree.refresh(0, Ok(vec![entry("/tmp/x", "c", true)])).is_ok());
    assert!(tree.is_well_formed());
    assert_eq!(tree.current, 0);
    tree.remove_children(0);
    assert!(tree.is_well_formed());
}

#[test]
fn broken_trees_are_told_apart() {
    let mut lost = sample();
    lost.current = 9;
    assert!(!lost.is_well_formed());
    let mut detached = sample();
    assert!(detached.read_children(1, Ok(vec![entry("/tmp/x/b", "n", false)])).is_ok());
    detached.arena[1].children.clear();
    assert!(detached.is_well_formed());
    detached.current = 3;
    assert!(!detached.is_well_formed());
    let mut twice = sample();
    twice.arena[0].children.push(1);
    assert!(!twice.is_well_formed());
    let mut wrong_idx = sample();
    wrong_idx.arena[2].idx = 5;
    assert!(!wrong_idx.is_well_formed());
    let mut wrong_parent = sample();
    wrong_parent.arena[2].parent = Some(1);
    assert!(!wrong_parent.is_well_formed());
    let mut rootless = sample();
    rootless.arena[0].parent = Some(0);
    assert!(!rootless.is_well_formed());
    let mut file_with_children = sample();
    file_with_children.arena[0].is_dir = false;
    assert!(!file_with_children.is_well_formed());
    let mut unread_with_children = sample();
    unread_with_children.arena[0].loaded = false;
    assert!(!unread_with_children.is_well_formed());
    let mut out_of_range = sample();
    out_of_range.arena[0].children.push(7);
    assert!(!out_of_range.is_well_formed());
    let empty = ArenaTree { arena: Vec::new(), current: 0 };
    assert!(!empty.is_well_formed());
}
