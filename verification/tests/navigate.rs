use dirtree::arenatree::{ArenaTree, TreeError};
use dirtree::listing::Entry;

fn entry(dir: &str, name: &str, is_dir: bool) -> Entry {
    Entry { name: name.to_string(), fullpath: format!("{}/{}", dir, name), is_dir }
}

fn sample() -> ArenaTree {
    let mut tree = ArenaTree::new("/tmp/x");
    let listing = vec![
        entry("/tmp/x", "a.txt", false),
        entry("/tmp/x", "b", true),
        entry("/tmp/x", "c.txt", false),
    ];
    assert!(tree.read_children(0, Ok(listing)).is_ok());
    tree
}

#[test]
fn ascend_stops_at_the_root() {
    let mut tree = sample();
    assert!(!tree.ascend());
    assert_eq!(tree.current, 0);
    tree.current = 2;
    assert!(tree.ascend());
    assert_eq!(tree.current, 0);
}

#[test]
fn steps_go_from_sibling_to_sibling_and_stop_at_the_ends() {
    let mut tree = sample();
    tree.current = 1;
    assert!(!tree.select_previous());
    assert_eq!(tree.current, 1);
    assert!(tree.select_next());
    assert_eq!(tree.current, 2);
    assert!(tree.select_next());
    assert_eq!(tree.current, 3);
    assert!(!tree.select_next());
    assert_eq!(tree.current, 3);
    assert!(tree.select_previous());
    assert_eq!(tree.current, 2);
}

#[test]
fn step_past_the_last_sibling_does_not_go_up() {
    let mut tree = sample();
    let inner = vec![entry("/tmp/x/b", "n", false)];
    assert!(tree.read_children(1, Ok(inner)).is_ok());
    tree.current = 4;
    assert!(!tree.select_next());
    assert_eq!(tree.current, 4);
    assert!(!tree.select_previous());
    assert_eq!(tree.current, 4);
}

#[test]
fn root_has_no_sibling_to_step_to() {
    let mut tree = sample();
    assert!(!tree.select_next());
    assert!(!tree.select_previous());
    assert_eq!(tree.current, 0);
}

#[test]
fn descend_from_the_root_selects_its_first_child() {
    let mut tree = sample();
    assert!(tree.descend(None).is_ok());
    assert_eq!(tree.current, 1);
    assert_eq!(tree.get_current().name, "b");
}

#[test]
fn descend_into_an_unread_directory_loads_it() {
    let mut tree = sample();
    tree.current = 1;
    let inner = vec![entry("/tmp/x/b", "z", false), entry("/tmp/x/b", "y", false)];
    assert!(tree.descend(Some(Ok(inner))).is_ok());
    assert!(tree.get(1).loaded);
    assert_eq!(tree.get(1).children, vec![4, 5]);
    assert_eq!(tree.current, 4);
    assert_eq!(tree.get_current().name, "y");
}

#[test]
fn descend_into_an_empty_directory_stays() {
    let mut tree = sample();
    tree.current = 1;
    assert!(tree.descend(Some(Ok(vec![]))).is_ok());
    assert_eq!(tree.current, 1);
    assert!(tree.get(1).loaded);
    assert!(tree.descend(None).is_ok());
    assert_eq!(tree.current, 1);
}

#[test]
fn descend_on_a_file_is_refused_and_changes_nothing() {
    let mut tree = sample();
    tree.current = 2;
    let r = tree.descend(Some(Ok(vec![entry("/tmp/x/a.txt", "q", false)])));
    assert!(matches!(r, Err(TreeError::NotADirectory)));
    assert_eq!(tree.current, 2);
    assert_eq!(tree.arena.len(), 4);
}

#[test]
fn descend_without_the_read_it_needs_is_refused() {
    let mut tree = sample();
    tree.current = 1;
    assert!(matches!(tree.descend(None), Err(TreeError::InvariantViolation)));
    assert_eq!(tree.current, 1);
    assert!(!tree.get(1).loaded);
}

#[test]
fn descend_hands_on_a_failed_read() {
    let mut tree = sample();
    tree.current = 1;
    match tree.descend(Some(Err("denied".to_string()))) {
        Err(TreeError::Io(msg)) => assert_eq!(msg, "denied"),
        _ => panic!("expected an i/o error"),
    }
    assert_eq!(tree.current, 1);
    assert!(!tree.get(1).loaded);
}

#[test]
fn descend_into_a_loaded_directory_does_not_look_at_the_listing() {
    let mut tree = sample();
    let r = tree.descend(Some(Err("not read".to_string())));
    assert!(r.is_ok());
    assert_eq!(tree.current, 1);
}

#[test]
fn toggle_loads_and_then_collapses() {
    let mut tree = sample();
    tree.current = 1;
    let inner = vec![entry("/tmp/x/b", "n", false)];
    assert!(tree.toggle(Some(Ok(inner))).is_ok());
    assert!(tree.get(1).loaded);
    assert_eq!(tree.get(1).children, vec![4]);
    assert_eq!(tree.current, 1);
    assert!(tree.toggle(None).is_ok());
    assert!(!tree.get(1).loaded);
    assert!(tree.get(1).children.is_empty());
    assert_eq!(tree.current, 1);
    assert_eq!(tree.arena.len(), 5);
}

#[test]
fn toggle_on_a_file_is_refused_and_changes_nothing() {
    let mut tree = sample();
    tree.current = 2;
    assert!(matches!(tree.toggle(None), Err(TreeError::NotADirectory)));
    assert!(matches!(tree.toggle(Some(Ok(vec![]))), Err(TreeError::NotADirectory)));
    assert_eq!(tree.arena.len(), 4);
}

#[test]
fn toggle_of_an_empty_directory_reads_it_again() {
    let mut tree = sample();
    tree.current = 1;
    assert!(tree.toggle(Some(Ok(vec![]))).is_ok());
    assert!(tree.get(1).loaded);
    let later = vec![entry("/tmp/x/b", "n", false)];
    assert!(tree.toggle(Some(Ok(later))).is_ok());
    assert_eq!(tree.get(1).children, vec![4]);
}

#[test]
fn toggle_without_the_read_it_needs_is_refused() {
    let mut tree = sample();
    tree.current = 1;
    assert!(matches!(tree.toggle(None), Err(TreeError::InvariantViolation)));
    match tree.toggle(Some(Err("gone".to_string()))) {
        Err(TreeError::Io(msg)) => assert_eq!(msg, "gone"),
        _ => panic!("expected an i/o error"),
    }
    assert!(!tree.get(1).loaded);
}

#[test]
fn walk_through_a_directory_and_a_file() {
    let mut tree = ArenaTree::new("/tmp/x");
    let listing = vec![entry("/tmp/x", "a.txt", false), entry("/tmp/x", "b", true)];
    assert!(tree.read_children(0, Ok(listing)).is_ok());
    let names: Vec<String> =
        tree.get(0).children.iter().map(|&c| tree.get(c).name.clone()).collect();
    assert_eq!(names, vec!["b".to_string(), "a.txt".to_string()]);

    // Right from the root comes to `b`; Right again goes into `b`.
    assert!(tree.descend(None).is_ok());
    assert_eq!(tree.get_current().name, "b");
    let mut empty = ArenaTree::new("/tmp/x");
    let listing = vec![entry("/tmp/x", "a.txt", false), entry("/tmp/x", "b", true)];
    assert!(empty.read_children(0, Ok(listing)).is_ok());
    assert!(empty.descend(None).is_ok());
    assert!(empty.descend(Some(Ok(vec![]))).is_ok());
    assert_eq!(empty.get_current().name, "b");
    assert!(tree.descend(Some(Ok(vec![entry("/tmp/x/b", "in", false)]))).is_ok());
    assert_eq!(tree.get_current().name, "in");

    // Enter on `b` while it is not read loads it; Enter again collapses it.
    let mut fresh = ArenaTree::new("/tmp/x");
    let listing = vec![entry("/tmp/x", "a.txt", false), entry("/tmp/x", "b", true)];
    assert!(fresh.read_children(0, Ok(listing)).is_ok());
    fresh.current = 1;
    assert!(fresh.toggle(Some(Ok(vec![entry("/tmp/x/b", "in", false)]))).is_ok());
    assert!(fresh.get(1).loaded);
    assert_eq!(fresh.get(1).children.len(), 1);
    assert!(fresh.toggle(None).is_ok());
    assert!(!fresh.get(1).loaded);
    assert!(fresh.get(1).children.is_empty());
}
