use dirtree::arenatree::TreeError;
use dirtree::listing::Entry;
use dirtree::ui::{
    command_for, process_key, render, render_bottom_bar, render_top_bar, AppState, Command, Key,
    OpType, Request, CHROME_LINES, MAX_CHILD_RENDERED,
};
use dirtree::viewport::Marker;

fn entry(dir: &str, name: &str, is_dir: bool) -> Entry {
    Entry { name: name.to_string(), fullpath: format!("{}/{}", dir, name), is_dir }
}

fn root_listing() -> Vec<Entry> {
    vec![entry("/tmp/x", "a.txt", false), entry("/tmp/x", "b", true)]
}

fn app() -> AppState {
    match AppState::new_from_fs("/tmp/x", Ok(root_listing())) {
        Ok(app) => app,
        Err(_) => panic!("the root was listed"),
    }
}

/// An app whose flag was cleared, as the control loop does after drawing.
fn drawn() -> AppState {
    let mut a = app();
    a.dirty = false;
    a
}

#[test]
fn keys_stand_for_their_commands() {
    assert_eq!(command_for(Key::Char('q')), Command::Quit);
    assert_eq!(command_for(Key::Esc), Command::Quit);
    assert_eq!(command_for(Key::Char('h')), Command::Ascend);
    assert_eq!(command_for(Key::Left), Command::Ascend);
    assert_eq!(command_for(Key::Char('l')), Command::Descend);
    assert_eq!(command_for(Key::Right), Command::Descend);
    assert_eq!(command_for(Key::Char('j')), Command::Next);
    assert_eq!(command_for(Key::Down), Command::Next);
    assert_eq!(command_for(Key::Char('k')), Command::Previous);
    assert_eq!(command_for(Key::Up), Command::Previous);
    assert_eq!(command_for(Key::Enter), Command::Toggle);
    assert_eq!(command_for(Key::Char('d')), Command::Cut);
    assert_eq!(command_for(Key::Char('y')), Command::Copy);
    assert_eq!(command_for(Key::Char('p')), Command::Paste);
    assert_eq!(command_for(Key::Char('x')), Command::Ignore);
    assert_eq!(command_for(Key::Char('Q')), Command::Ignore);
    assert_eq!(command_for(Key::Other), Command::Ignore);
}

#[test]
fn startup_loads_the_root() {
    let a = app();
    assert_eq!(a.tree.arena.len(), 3);
    assert_eq!(a.tree.current, 0);
    assert!(a.tree.get(0).loaded);
    assert_eq!(a.tree.get(1).name, "b");
    assert_eq!(a.tree.get(2).name, "a.txt");
    assert!(a.op_buff.is_none());
    assert_eq!(a.status, "--");
    assert!(a.dirty);
}

#[test]
fn startup_fails_where_the_root_cannot_be_listed() {
    match AppState::new_from_fs("/nowhere", Err("no such directory".to_string())) {
        Err(TreeError::Io(msg)) => assert_eq!(msg, "no such directory"),
        _ => panic!("expected an i/o error"),
    }
}

#[test]
fn quit_keys_end_the_loop_and_change_nothing() {
    let mut a = drawn();
    assert!(process_key(&mut a, Key::Char('q'), None).is_err());
    assert!(process_key(&mut a, Key::Esc, None).is_err());
    assert_eq!(a.tree.current, 0);
    assert!(!a.dirty);
}

#[test]
fn other_keys_change_nothing() {
    let mut a = drawn();
    assert!(process_key(&mut a, Key::Other, None).is_ok());
    assert!(process_key(&mut a, Key::Char('z'), None).is_ok());
    assert_eq!(a.tree.current, 0);
    assert!(!a.dirty);
}

#[test]
fn arrows_and_letters_move_the_selection() {
    let mut a = drawn();
    assert!(process_key(&mut a, Key::Right, None).is_ok());
    assert_eq!(a.tree.current, 1);
    assert!(a.dirty);
    a.dirty = false;
    assert!(process_key(&mut a, Key::Char('j'), None).is_ok());
    assert_eq!(a.tree.current, 2);
    assert!(a.dirty);
    a.dirty = false;
    assert!(process_key(&mut a, Key::Down, None).is_ok());
    assert_eq!(a.tree.current, 2);
    assert!(!a.dirty);
    assert!(process_key(&mut a, Key::Char('k'), None).is_ok());
    assert_eq!(a.tree.current, 1);
    assert!(process_key(&mut a, Key::Up, None).is_ok());
    assert_eq!(a.tree.current, 1);
    assert!(process_key(&mut a, Key::Char('h'), None).is_ok());
    assert_eq!(a.tree.current, 0);
    a.dirty = false;
    assert!(process_key(&mut a, Key::Left, None).is_ok());
    assert_eq!(a.tree.current, 0);
    assert!(!a.dirty);
}

#[test]
fn right_asks_for_a_read_of_an_unread_directory() {
    let mut a = drawn();
    assert!(matches!(a.request_for(Command::Descend), Request::Nothing));
    assert!(process_key(&mut a, Key::Right, None).is_ok());
    match a.request_for(Command::Descend) {
        Request::Listing { path } => assert_eq!(path, "/tmp/x/b"),
        _ => panic!("expected a request for a listing"),
    }
    let inner = vec![entry("/tmp/x/b", "n", false)];
    assert!(process_key(&mut a, Key::Char('l'), Some(Ok(inner))).is_ok());
    assert_eq!(a.tree.current, 3);
    assert_eq!(a.tree.get_current().name, "n");
    assert!(matches!(a.request_for(Command::Descend), Request::Nothing));
    a.dirty = false;
    assert!(process_key(&mut a, Key::Right, None).is_ok());
    assert_eq!(a.tree.current, 3);
    assert!(!a.dirty);
}

#[test]
fn right_into_an_empty_directory_stays() {
    let mut a = drawn();
    assert!(process_key(&mut a, Key::Right, None).is_ok());
    a.dirty = false;
    assert!(process_key(&mut a, Key::Right, Some(Ok(vec![]))).is_ok());
    assert_eq!(a.tree.current, 1);
    assert!(a.tree.get(1).loaded);
    assert!(a.dirty);
    a.dirty = false;
    assert!(process_key(&mut a, Key::Right, None).is_ok());
    assert_eq!(a.tree.current, 1);
    assert!(!a.dirty);
}

#[test]
fn failed_read_shows_on_the_status_line() {
    let mut a = drawn();
    assert!(process_key(&mut a, Key::Right, None).is_ok());
    a.dirty = false;
    assert!(process_key(&mut a, Key::Right, Some(Err("permission denied".to_string()))).is_ok());
    assert_eq!(a.status, "permission denied");
    assert_eq!(a.tree.current, 1);
    assert!(!a.tree.get(1).loaded);
    assert_eq!(a.tree.arena.len(), 3);
    assert!(a.dirty);
    assert_eq!(render_bottom_bar(&a), "permission denied");
}

#[test]
fn read_that_was_not_made_changes_nothing() {
    let mut a = drawn();
    assert!(process_key(&mut a, Key::Right, None).is_ok());
    a.dirty = false;
    assert!(process_key(&mut a, Key::Right, None).is_ok());
    assert!(process_key(&mut a, Key::Enter, None).is_ok());
    assert_eq!(a.tree.current, 1);
    assert!(!a.tree.get(1).loaded);
    assert_eq!(a.status, "--");
    assert!(!a.dirty);
}

#[test]
fn keys_on_a_file_are_ignored() {
    let mut a = drawn();
    a.tree.current = 2;
    assert!(matches!(a.request_for(Command::Descend), Request::Nothing));
    assert!(matches!(a.request_for(Command::Toggle), Request::Nothing));
    assert!(process_key(&mut a, Key::Right, None).is_ok());
    assert!(process_key(&mut a, Key::Enter, None).is_ok());
    assert!(process_key(&mut a, Key::Enter, Some(Ok(vec![]))).is_ok());
    assert_eq!(a.tree.current, 2);
    assert_eq!(a.tree.arena.len(), 3);
    assert_eq!(a.status, "--");
    assert!(!a.dirty);
}

#[test]
fn enter_loads_and_enter_again_collapses() {
    let mut a = drawn();
    a.tree.current = 1;
    match a.request_for(Command::Toggle) {
        Request::Listing { path } => assert_eq!(path, "/tmp/x/b"),
        _ => panic!("expected a request for a listing"),
    }
    let inner = vec![entry("/tmp/x/b", "n", false)];
    assert!(process_key(&mut a, Key::Enter, Some(Ok(inner))).is_ok());
    assert!(a.tree.get(1).loaded);
    assert_eq!(a.tree.get(1).children, vec![3]);
    assert_eq!(a.tree.current, 1);
    assert!(a.dirty);
    assert!(matches!(a.request_for(Command::Toggle), Request::Nothing));
    assert!(process_key(&mut a, Key::Enter, None).is_ok());
    assert!(!a.tree.get(1).loaded);
    assert!(a.tree.get(1).children.is_empty());
}

#[test]
fn enter_on_the_root_collapses_the_whole_tree() {
    let mut a = drawn();
    assert!(process_key(&mut a, Key::Enter, None).is_ok());
    assert!(a.tree.get(0).children.is_empty());
    match a.request_for(Command::Toggle) {
        Request::Listing { path } => assert_eq!(path, "/tmp/x"),
        _ => panic!("expected a request for a listing"),
    }
    assert!(process_key(&mut a, Key::Enter, Some(Ok(root_listing()))).is_ok());
    assert_eq!(a.tree.get(0).children, vec![3, 4]);
    assert_eq!(a.tree.get(3).name, "b");
    assert_eq!(a.tree.get(4).name, "a.txt");
}

#[test]
fn cut_and_copy_remember_the_selected_path() {
    let mut a = drawn();
    a.tree.current = 2;
    assert!(process_key(&mut a, Key::Char('y'), None).is_ok());
    match &a.op_buff {
        Some(OpType::Copy(path)) => assert_eq!(path, "/tmp/x/a.txt"),
        _ => panic!("expected a pending copy"),
    }
    assert!(a.dirty);
    assert_eq!(render_bottom_bar(&a), "Copying: /tmp/x/a.txt");
    assert!(process_key(&mut a, Key::Char('d'), None).is_ok());
    match &a.op_buff {
        Some(OpType::Cut(path)) => assert_eq!(path, "/tmp/x/a.txt"),
        _ => panic!("expected a pending move"),
    }
    assert_eq!(render_bottom_bar(&a), "Moving: /tmp/x/a.txt");
}

#[test]
fn paste_without_anything_pending_does_nothing() {
    let mut a = drawn();
    assert!(matches!(a.request_for(Command::Paste), Request::Nothing));
    assert!(process_key(&mut a, Key::Char('p'), Some(Ok(vec![]))).is_ok());
    assert_eq!(a.tree.get(0).children, vec![1, 2]);
    assert_eq!(a.status, "--");
    assert!(!a.dirty);
}

#[test]
fn paste_goes_into_the_directory_of_the_selected_node() {
    let mut a = drawn();
    a.tree.current = 1;
    assert!(process_key(&mut a, Key::Enter, Some(Ok(vec![entry("/tmp/x/b", "n", false)]))).is_ok());
    a.tree.current = 2;
    assert!(process_key(&mut a, Key::Char('y'), None).is_ok());
    a.tree.current = 3;
    assert_eq!(a.paste_target(), 1);
    match a.request_for(Command::Paste) {
        Request::Transfer { cut, from, to } => {
            assert!(!cut);
            assert_eq!(from, "/tmp/x/a.txt");
            assert_eq!(to, "/tmp/x/b");
        },
        _ => panic!("expected a request for a transfer"),
    }
    let after = vec![entry("/tmp/x/b", "n", false), entry("/tmp/x/b", "a.txt", false)];
    assert!(process_key(&mut a, Key::Char('p'), Some(Ok(after))).is_ok());
    assert!(a.op_buff.is_none());
    assert_eq!(a.status, "Copied: /tmp/x/a.txt -> /tmp/x/b");
    assert_eq!(a.tree.get(1).children, vec![4, 3]);
    assert_eq!(a.tree.get(4).name, "a.txt");
    assert_eq!(a.tree.current, 3);
    assert_eq!(render_bottom_bar(&a), "Copied: /tmp/x/a.txt -> /tmp/x/b");
}

#[test]
fn paste_of_a_move_reports_the_move() {
    let mut a = drawn();
    a.tree.current = 2;
    assert!(process_key(&mut a, Key::Char('d'), None).is_ok());
    a.tree.current = 0;
    assert_eq!(a.paste_target(), 0);
    match a.request_for(Command::Paste) {
        Request::Transfer { cut, from, to } => {
            assert!(cut);
            assert_eq!(from, "/tmp/x/a.txt");
            assert_eq!(to, "/tmp/x");
        },
        _ => panic!("expected a request for a transfer"),
    }
    assert!(process_key(&mut a, Key::Char('p'), Some(Ok(root_listing()))).is_ok());
    assert_eq!(a.status, "Moved: /tmp/x/a.txt -> /tmp/x");
    assert!(a.op_buff.is_none());
    assert_eq!(a.tree.get(0).children, vec![1, 2]);
}

#[test]
fn paste_with_a_failed_read_keeps_what_is_pending() {
    let mut a = drawn();
    a.tree.current = 2;
    assert!(process_key(&mut a, Key::Char('y'), None).is_ok());
    assert!(process_key(&mut a, Key::Char('p'), Some(Err("vanished".to_string()))).is_ok());
    assert!(a.op_buff.is_some());
    assert_eq!(a.status, "vanished");
    assert_eq!(a.tree.get(0).children, vec![1, 2]);
    assert!(process_key(&mut a, Key::Char('p'), None).is_ok());
    assert!(a.op_buff.is_some());
}

#[test]
fn top_bar_shows_the_selected_path() {
    let mut a = app();
    assert_eq!(render_top_bar(&a), "/tmp/x");
    a.tree.current = 2;
    assert_eq!(render_top_bar(&a), "/tmp/x/a.txt");
}

#[test]
fn frame_fills_the_terminal() {
    let mut a = app();
    a.tree.current = 2;
    let f = render(&a, 10);
    assert_eq!(f.top, "/tmp/x/a.txt");
    assert_eq!(f.lines.len(), 3);
    assert_eq!(f.lines[0].label, "/tmp/x/");
    assert_eq!(f.lines[1].label, "b/");
    assert_eq!(f.lines[2].label, "a.txt");
    assert!(f.lines[2].highlight);
    assert!(!f.lines[0].highlight);
    assert_eq!(f.lines[2].marker, Marker::Plain);
    assert_eq!(f.filler, 10 - CHROME_LINES - 3 + 1);
    assert_eq!(f.bottom, "--");
}

#[test]
fn frame_of_a_low_terminal_has_no_tree() {
    let a = app();
    for height in 0..=CHROME_LINES {
        let f = render(&a, height);
        assert!(f.lines.is_empty());
        assert_eq!(f.filler, 1);
        assert_eq!(f.top, "/tmp/x");
    }
    let f = render(&a, CHROME_LINES + 1);
    assert_eq!(f.lines.len(), 1);
    assert_eq!(f.filler, 1);
}

#[test]
fn frame_draws_at_most_seven_siblings() {
    assert_eq!(MAX_CHILD_RENDERED, 7);
    let listing: Vec<Entry> = (0..12).map(|i| entry("/r", &format!("f{:02}", i), false)).collect();
    let mut a = match AppState::new_from_fs("/r", Ok(listing)) {
        Ok(a) => a,
        Err(_) => panic!("the root was listed"),
    };
    a.tree.current = 10;
    let f = render(&a, 40);
    let nodes: Vec<usize> = f.lines.iter().map(|l| l.node).collect();
    assert_eq!(nodes, vec![0, 4, 5, 6, 7, 8, 9, 10]);
    assert_eq!(f.lines[1].marker, Marker::MoreAbove);
    assert_eq!(f.lines[7].marker, Marker::MoreBelow);
    assert!(f.lines[7].highlight);
    assert_eq!(f.filler, 40 - 3 - 8 + 1);
}
