use dirtree::arenatree::ArenaTree;
use dirtree::listing::Entry;
use dirtree::viewport::{
    indent, sibling_window, window_marker, Line, Marker, PADDING, PADDING_MORE_DOWN,
    PADDING_MORE_UP,
};

fn file(dir: &str, name: &str) -> Entry {
    Entry { name: name.to_string(), fullpath: format!("{}/{}", dir, name), is_dir: false }
}

fn folder(dir: &str, name: &str) -> Entry {
    Entry { name: name.to_string(), fullpath: format!("{}/{}", dir, name), is_dir: true }
}

fn flat(count: usize) -> ArenaTree {
    let mut tree = ArenaTree::new("/r");
    let listing: Vec<Entry> = (0..count).map(|i| file("/r", &format!("f{:02}", i))).collect();
    assert!(tree.read_children(0, Ok(listing)).is_ok());
    tree
}

/// The root holds the directory `A`, which holds `inner` files, and the
/// files named in `files`.
fn nested(inner: usize, files: &[&str]) -> ArenaTree {
    let mut tree = ArenaTree::new("/r");
    let mut listing = vec![folder("/r", "A")];
    for name in files {
        listing.push(file("/r", name));
    }
    assert!(tree.read_children(0, Ok(listing)).is_ok());
    let below: Vec<Entry> = (0..inner).map(|i| file("/r/A", &format!("a{}", i))).collect();
    assert!(tree.read_children(1, Ok(below)).is_ok());
    tree
}

fn labels(lines: &[Line]) -> Vec<String> {
    lines.iter().map(|l| l.label.clone()).collect()
}

fn nodes(lines: &[Line]) -> Vec<usize> {
    lines.iter().map(|l| l.node).collect()
}

fn highlighted(lines: &[Line]) -> Vec<usize> {
    lines.iter().filter(|l| l.highlight).map(|l| l.node).collect()
}

#[test]
fn window_of_six_ends_at_the_selected_sibling() {
    assert_eq!(sibling_window(20, 15, 6), (10, 16));
    assert_eq!(window_marker(10, 10, 16, 20), Marker::MoreAbove);
    assert_eq!(window_marker(11, 10, 16, 20), Marker::Plain);
    assert_eq!(window_marker(15, 10, 16, 20), Marker::MoreBelow);
}

#[test]
fn window_starts_at_the_first_sibling_while_that_shows_the_focus() {
    assert_eq!(sibling_window(20, 0, 6), (0, 6));
    assert_eq!(sibling_window(20, 5, 6), (0, 6));
    assert_eq!(sibling_window(20, 6, 6), (1, 7));
    assert_eq!(sibling_window(20, 19, 6), (14, 20));
    assert_eq!(sibling_window(4, 3, 6), (0, 4));
    assert_eq!(sibling_window(6, 5, 6), (0, 6));
    assert_eq!(sibling_window(0, 0, 6), (0, 0));
    assert_eq!(sibling_window(5, 3, 0), (0, 0));
    assert_eq!(sibling_window(5, 3, 1), (3, 4));
}

#[test]
fn markers_tell_what_was_left_out() {
    assert_eq!(window_marker(0, 0, 6, 20), Marker::Plain);
    assert_eq!(window_marker(5, 0, 6, 20), Marker::MoreBelow);
    assert_eq!(window_marker(14, 14, 20, 20), Marker::MoreAbove);
    assert_eq!(window_marker(19, 14, 20, 20), Marker::Plain);
    assert_eq!(window_marker(3, 3, 4, 5), Marker::MoreAbove);
    assert_eq!(window_marker(0, 0, 4, 4), Marker::Plain);
    assert_eq!(window_marker(0, 0, 0, 0), Marker::Plain);
}

#[test]
fn twenty_children_and_a_window_of_six() {
    let mut tree = flat(20);
    tree.current = 16;
    let lines = tree.render(100, 6);
    assert_eq!(nodes(&lines), vec![0, 11, 12, 13, 14, 15, 16]);
    assert_eq!(
        labels(&lines),
        vec!["/r/", "f10", "f11", "f12", "f13", "f14", "f15"]
            .into_iter()
            .map(String::from)
            .collect::<Vec<_>>()
    );
    assert_eq!(lines[1].marker, Marker::MoreAbove);
    assert_eq!(lines[6].marker, Marker::MoreBelow);
    for l in &lines[2..6] {
        assert_eq!(l.marker, Marker::Plain);
    }
    assert_eq!(highlighted(&lines), vec![16]);
    assert_eq!(lines[1].text(), format!("{}f10", PADDING_MORE_UP));
    assert_eq!(lines[2].text(), format!("{}f11", PADDING));
    assert_eq!(lines[6].text(), format!("{}f15", PADDING_MORE_DOWN));
}

#[test]
fn whole_tree_is_drawn_when_it_fits() {
    let mut tree = nested(2, &["b", "c"]);
    tree.current = 3;
    let lines = tree.render(50, 7);
    assert_eq!(nodes(&lines), vec![0, 1, 4, 5, 2, 3]);
    assert_eq!(
        labels(&lines),
        vec!["/r/", "A/", "a0", "a1", "b", "c"].into_iter().map(String::from).collect::<Vec<_>>()
    );
    let depths: Vec<usize> = lines.iter().map(|l| l.depth).collect();
    assert_eq!(depths, vec![0, 1, 2, 2, 1, 1]);
    let dirs: Vec<bool> = lines.iter().map(|l| l.is_dir).collect();
    assert_eq!(dirs, vec![true, true, false, false, false, false]);
    assert!(lines.iter().all(|l| l.marker == Marker::Plain));
    assert_eq!(highlighted(&lines), vec![3]);
}

#[test]
fn lines_never_exceed_the_budget() {
    let mut tree = nested(5, &["b", "c", "d"]);
    tree.current = 2;
    for budget in 0..12 {
        for width in 0..9 {
            let lines = tree.render(budget, width);
            assert!(lines.len() <= budget);
            let marked = highlighted(&lines);
            assert!(marked.is_empty() || marked == vec![2]);
        }
    }
    assert!(tree.render(0, 7).is_empty());
    assert_eq!(nodes(&tree.render(1, 7)), vec![0]);
}

#[test]
fn window_shrinks_to_the_budget() {
    let mut tree = flat(10);
    tree.current = 6;
    let lines = tree.render(4, 7);
    assert_eq!(nodes(&lines), vec![0, 4, 5, 6]);
    assert_eq!(lines[1].marker, Marker::MoreAbove);
    assert_eq!(lines[2].marker, Marker::Plain);
    assert_eq!(lines[3].marker, Marker::MoreBelow);
    assert_eq!(highlighted(&lines), vec![6]);
}

#[test]
fn window_of_one_shows_the_upper_marker() {
    let mut tree = flat(5);
    tree.current = 3;
    let lines = tree.render(2, 7);
    assert_eq!(nodes(&lines), vec![0, 3]);
    assert_eq!(lines[1].marker, Marker::MoreAbove);
    assert_eq!(highlighted(&lines), vec![3]);
}

#[test]
fn big_subtree_beside_the_selection_is_pruned() {
    let mut tree = nested(3, &["b"]);
    tree.current = 2;
    let lines = tree.render(4, 7);
    assert_eq!(nodes(&lines), vec![0, 1, 2]);
    assert_eq!(highlighted(&lines), vec![2]);
    let roomy = tree.render(10, 7);
    assert_eq!(nodes(&roomy), vec![0, 1, 3, 4, 5, 2]);
    assert_eq!(highlighted(&roomy), vec![2]);
}

#[test]
fn subtree_is_pruned_when_it_would_use_up_the_budget() {
    let mut tree = nested(3, &["b"]);
    tree.current = 2;
    // Behind the lines of the root and of `A`, 4 lines are left for the 4
    // nodes of the subtree of `A`: that uses them up, so it is pruned.
    assert_eq!(nodes(&tree.render(6, 7)), vec![0, 1, 2]);
    assert_eq!(nodes(&tree.render(7, 7)), vec![0, 1, 3, 4, 5, 2]);
}

#[test]
fn subtree_that_holds_the_selection_is_never_pruned() {
    let mut tree = nested(3, &["b"]);
    tree.current = 4;
    let lines = tree.render(4, 7);
    assert_eq!(nodes(&lines), vec![0, 1, 3, 4]);
    assert_eq!(highlighted(&lines), vec![4]);
    assert_eq!(lines[2].depth, 2);
    assert_eq!(lines[3].marker, Marker::MoreBelow);
}

#[test]
fn children_of_the_selected_directory_are_drawn() {
    let mut tree = nested(3, &["b"]);
    tree.current = 1;
    let lines = tree.render(3, 7);
    assert_eq!(nodes(&lines), vec![0, 1, 3]);
    assert_eq!(highlighted(&lines), vec![1]);
}

#[test]
fn selection_is_lost_where_the_lines_before_it_use_up_the_budget() {
    let mut tree = nested(1, &["b", "c", "d"]);
    tree.current = 4;
    let lines = tree.render(5, 7);
    assert_eq!(nodes(&lines), vec![0, 1, 5, 2, 3]);
    assert!(highlighted(&lines).is_empty());
    let one_more = tree.render(6, 7);
    assert_eq!(nodes(&one_more), vec![0, 1, 5, 2, 3, 4]);
    assert_eq!(highlighted(&one_more), vec![4]);
}

#[test]
fn selection_below_the_root_needs_a_second_line() {
    let mut tree = flat(1);
    tree.current = 1;
    let lines = tree.render(1, 7);
    assert_eq!(nodes(&lines), vec![0]);
    assert!(highlighted(&lines).is_empty());
    assert_eq!(highlighted(&tree.render(2, 7)), vec![1]);
}

#[test]
fn selected_root_is_highlighted() {
    let tree = flat(3);
    let lines = tree.render(10, 7);
    assert_eq!(highlighted(&lines), vec![0]);
    assert_eq!(lines[0].depth, 0);
    assert_eq!(lines[0].text(), "/r/");
}

#[test]
fn no_children_are_drawn_for_a_width_of_zero() {
    let mut tree = flat(3);
    tree.current = 2;
    let lines = tree.render(10, 0);
    assert_eq!(nodes(&lines), vec![0]);
}

#[test]
fn collapsed_children_are_not_drawn() {
    let mut tree = nested(3, &["b"]);
    tree.remove_children(1);
    let lines = tree.render(10, 7);
    assert_eq!(nodes(&lines), vec![0, 1, 2]);
}

#[test]
fn indentation_has_one_connector_for_each_level() {
    assert_eq!(indent(0, Marker::Plain), "");
    assert_eq!(indent(1, Marker::Plain), "│  ");
    assert_eq!(indent(3, Marker::Plain), "│  │  │  ");
    assert_eq!(indent(1, Marker::MoreAbove), "▲  ");
    assert_eq!(indent(3, Marker::MoreAbove), "│  │  ▲  ");
    assert_eq!(indent(2, Marker::MoreBelow), "│  ▼  ");
    assert_eq!(indent(0, Marker::MoreBelow), "▼  ");
    assert_eq!(PADDING, "│  ");
}

#[test]
fn line_text_is_indentation_and_label() {
    let tree = nested(1, &[]);
    let line = tree.render_node(1, 2, Marker::MoreBelow);
    assert_eq!(line.node, 1);
    assert_eq!(line.depth, 2);
    assert_eq!(line.label, "A/");
    assert!(line.is_dir);
    assert!(!line.highlight);
    assert_eq!(line.marker, Marker::MoreBelow);
    assert_eq!(line.text(), "│  ▼  A/");
    let leaf = tree.render_node(2, 1, Marker::Plain);
    assert_eq!(leaf.label, "a0");
    assert!(!leaf.is_dir);
    assert_eq!(leaf.text(), "│  a0");
}

#[test]
fn towards_the_selection() {
    let mut tree = nested(2, &["b"]);
    tree.current = 4;
    assert_eq!(tree.toward_current(0), Some(1));
    assert_eq!(tree.toward_current(1), Some(4));
    assert_eq!(tree.toward_current(4), None);
    assert_eq!(tree.toward_current(2), None);
    assert_eq!(tree.toward_current(3), None);
}

#[test]
fn render_children_hands_back_what_is_left() {
    let tree = nested(2, &["b"]);
    let mut out = Vec::new();
    let left = tree.render_children(0, 1, 10, 7, &mut out);
    assert_eq!(left, 6);
    assert_eq!(nodes(&out), vec![1, 3, 4, 2]);
    let mut few = Vec::new();
    assert_eq!(tree.render_children(0, 1, 1, 7, &mut few), 0);
    assert_eq!(nodes(&few), vec![1]);
}

#[test]
fn render_children_takes_any_depth() {
    let tree = nested(2, &["b"]);
    let mut out = Vec::new();
    let left = tree.render_children(0, usize::MAX - 1, 10, 7, &mut out);
    assert_eq!(left, 6);
    assert_eq!(nodes(&out), vec![1, 3, 4, 2]);
    let depths: Vec<usize> = out.iter().map(|l| l.depth).collect();
    assert_eq!(depths, vec![usize::MAX - 1, usize::MAX, usize::MAX, usize::MAX - 1]);
    let mut top = Vec::new();
    assert_eq!(tree.render_children(0, usize::MAX, 3, 7, &mut top), 1);
    assert!(top.iter().all(|l| l.depth == usize::MAX));
    assert_eq!(nodes(&top), vec![1, 2]);
}
