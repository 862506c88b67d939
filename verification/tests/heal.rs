use dirtree::arenatree::{ArenaTree, TreeError};
use dirtree::listing::Entry;

fn entry(dir: &str, name: &str, is_dir: bool) -> Entry {
    Entry { name: name.to_string(), fullpath: format!("{}/{}", dir, name), is_dir }
}

/// The root holds the directory `b`, which holds the directory `c`, which
/// holds the file `n`.
fn deep() -> ArenaTree {
    let mut tree = ArenaTree::new("/r");
    assert!(tree.read_children(0, Ok(vec![entry("/r", "b", true)])).is_ok());
    assert!(tree.read_children(1, Ok(vec![entry("/r/b", "c", true)])).is_ok());
    assert!(tree.read_children(2, Ok(vec![entry("/r/b/c", "n", false)])).is_ok());
    tree
}

#[test]
fn healing_leaves_a_sound_selection_alone() {
    let mut tree = deep();
    tree.current = 3;
    tree.heal_selection();
    assert_eq!(tree.current, 3);
    assert!(tree.is_well_formed());
}

#[test]
fn healing_goes_up_to_the_nearest_node_that_hangs_in_the_tree() {
    let mut tree = deep();
    tree.arena[2].children.clear();
    tree.arena[2].loaded = false;
    tree.current = 3;
    assert!(!tree.is_well_formed());
    tree.heal_selection();
    assert_eq!(tree.current, 2);
    assert!(tree.is_well_formed());

    let mut cut = deep();
    cut.arena[0].children.clear();
    cut.arena[0].loaded = false;
    cut.current = 3;
    cut.heal_selection();
    assert_eq!(cut.current, 0);
    assert!(cut.is_well_formed());
}

#[test]
fn healing_brings_a_selection_outside_the_arena_to_the_root() {
    let mut tree = deep();
    tree.current = 40;
    tree.heal_selection();
    assert_eq!(tree.current, 0);
    assert!(tree.is_well_formed());
}

#[test]
fn errors_say_what_went_wrong() {
    assert_eq!(TreeError::Io("disk on fire".to_string()).message(), "disk on fire");
    assert_eq!(TreeError::NotADirectory.message(), "Selected node is a file");
    assert_eq!(TreeError::InvariantViolation.message(), "Node not found in arena");
}

#[test]
fn budget_of_the_tree_size_shows_the_selection() {
    let mut wide = ArenaTree::new("/w");
    let mut listing: Vec<Entry> = (0..30).map(|i| entry("/w", &format!("f{:02}", i), false)).collect();
    listing.push(entry("/w", "d", true));
    assert!(wide.read_children(0, Ok(listing)).is_ok());
    let inner: Vec<Entry> = (0..5).map(|i| entry("/w/d", &format!("g{}", i), false)).collect();
    assert!(wide.read_children(1, Ok(inner)).is_ok());
    let size = wide.subtree_size(0);
    assert_eq!(size, 37);
    for selected in 0..wide.arena.len() {
        wide.current = selected;
        for width in 1..9 {
            let lines = wide.render(size, width);
            let marked: Vec<usize> =
                lines.iter().filter(|l| l.highlight).map(|l| l.node).collect();
            assert_eq!(marked, vec![selected]);
        }
    }
}
