//! The browser's state between two key presses, what a key press does to
//! it, and what is drawn of it.
//!
//! Nothing here reads a directory or runs a command. Before a key is
//! handed to `process_key`, the control loop asks `request_for` what has
//! to be read or run first, does that, and hands the outcome along.

use vstd::prelude::*;
use vstd::string::StringExecFns;
use crate::arenatree::ArenaTree;
use crate::arenatree::TreeError;
use crate::arenatree::TreeView;
use crate::listing::Entry;
use crate::navigate::ListingView;
use crate::navigate::offered_view;
use crate::navigate::listing_view;
use crate::viewport::Line;
use crate::viewport::line_views;

verus! {

/// At most so many siblings are drawn of one directory.
pub const MAX_CHILD_RENDERED: usize = 7;

/// So many lines of the terminal are not for the tree: two for the top bar
/// and one for the bottom bar.
pub const CHROME_LINES: usize = 3;

/// A key press, as far as the browser tells keys apart.
#[derive(Clone, Copy, PartialEq, Eq, Structural, Debug)]
pub enum Key {
    Char(char),
    Left,
    Right,
    Up,
    Down,
    Enter,
    Esc,
    Other,
}

/// What a key press asks for.
#[derive(Clone, Copy, PartialEq, Eq, Structural, Debug)]
pub enum Command {
    Quit,
    Ascend,
    Descend,
    Next,
    Previous,
    Toggle,
    Cut,
    Copy,
    Paste,
    Ignore,
}

/// A pending copy or move, with the path that it starts from.
#[derive(Debug)]
pub enum OpType {
    Copy(String),
    Cut(String),
}

/// The mathematical content of an [`OpType`].
pub enum OpView {
    Copy(Seq<char>),
    Cut(Seq<char>),
}

impl View for OpType {
    type V = OpView;

    open spec fn view(&self) -> OpView {
        match self {
            OpType::Copy(s) => OpView::Copy(s@),
            OpType::Cut(s) => OpView::Cut(s@),
        }
    }
}

/// The browser's state.
#[derive(Debug)]
pub struct AppState {
    pub tree: ArenaTree,
    /// The copy or move that waits for its target.
    pub op_buff: Option<OpType>,
    /// What the bottom bar says while nothing waits.
    pub status: String,
    /// Whether anything changed since the flag was last cleared.
    pub dirty: bool,
}

/// The mathematical content of an [`AppState`].
pub struct AppView {
    pub tree: TreeView,
    pub op_buff: Option<OpView>,
    pub status: Seq<char>,
    pub dirty: bool,
}

impl View for AppState {
    type V = AppView;

    open spec fn view(&self) -> AppView {
        AppView {
            tree: self.tree@,
            op_buff: match self.op_buff {
                Some(op) => Some(op@),
                None => None,
            },
            status: self.status@,
            dirty: self.dirty,
        }
    }
}

/// What the control loop has to do before a command can be carried out.
#[derive(Debug)]
pub enum Request {
    /// Nothing.
    Nothing,
    /// Read the directory at `path`, and hand on what the read came to.
    Listing { path: String },
    /// Move (`cut`) or copy what is at `from` into the directory `to`, then
    /// read `to`, and hand on what the read came to.
    Transfer { cut: bool, from: String, to: String },
}

/// The mathematical content of a [`Request`].
pub enum RequestView {
    Nothing,
    Listing { path: Seq<char> },
    Transfer { cut: bool, from: Seq<char>, to: Seq<char> },
}

impl View for Request {
    type V = RequestView;

    open spec fn view(&self) -> RequestView {
        match self {
            Request::Nothing => RequestView::Nothing,
            Request::Listing { path } => RequestView::Listing { path: path@ },
            Request::Transfer { cut, from, to } => RequestView::Transfer {
                cut: *cut,
                from: from@,
                to: to@,
            },
        }
    }
}

/// The command that a key stands for.
pub open spec fn command_of(key: Key) -> Command {
    match key {
        Key::Char(c) => if c == 'q' {
            Command::Quit
        } else if c == 'h' {
            Command::Ascend
        } else if c == 'l' {
            Command::Descend
        } else if c == 'j' {
            Command::Next
        } else if c == 'k' {
            Command::Previous
        } else if c == 'd' {
            Command::Cut
        } else if c == 'y' {
            Command::Copy
        } else if c == 'p' {
            Command::Paste
        } else {
            Command::Ignore
        },
        Key::Esc => Command::Quit,
        Key::Left => Command::Ascend,
        Key::Right => Command::Descend,
        Key::Down => Command::Next,
        Key::Up => Command::Previous,
        Key::Enter => Command::Toggle,
        Key::Other => Command::Ignore,
    }
}

/// The path that a pending copy or move starts from.
pub open spec fn op_source(op: OpView) -> Seq<char> {
    match op {
        OpView::Copy(s) => s,
        OpView::Cut(s) => s,
    }
}

/// What the status line says after a copy or move from `from` into `to`.
pub open spec fn transfer_report(op: OpView, to: Seq<char>) -> Seq<char> {
    match op {
        OpView::Copy(from) => "Copied: "@ + from + " -> "@ + to,
        OpView::Cut(from) => "Moved: "@ + from + " -> "@ + to,
    }
}

/// How many lines of a terminal of `height` lines are for the tree.
pub open spec fn line_budget(height: usize) -> nat {
    if height >= CHROME_LINES {
        (height - CHROME_LINES) as nat
    } else {
        0
    }
}

impl AppView {
    /// The state is well formed: its tree is.
    pub open spec fn wf(self) -> bool {
        self.tree.wf()
    }

    /// The selected node.
    pub open spec fn selected_path(self) -> Seq<char> {
        self.tree.nodes[self.tree.selected as int].fullpath
    }

    /// The directory that a paste goes into: the one that holds the
    /// selected node, or the root if the root is selected.
    pub open spec fn paste_target(self) -> usize {
        match self.tree.nodes[self.tree.selected as int].parent {
            Some(p) => p,
            None => self.tree.selected,
        }
    }

    /// What has to be read or run before `cmd` can be carried out.
    pub open spec fn request(self, cmd: Command) -> RequestView {
        let at = self.tree.nodes[self.tree.selected as int];
        match cmd {
            Command::Descend => if self.tree.descend_reads() {
                RequestView::Listing { path: at.fullpath }
            } else {
                RequestView::Nothing
            },
            Command::Toggle => if self.tree.toggle_reads() {
                RequestView::Listing { path: at.fullpath }
            } else {
                RequestView::Nothing
            },
            Command::Paste => match self.op_buff {
                Some(op) => RequestView::Transfer {
                    cut: op is Cut,
                    from: op_source(op),
                    to: self.tree.nodes[self.paste_target() as int].fullpath,
                },
                None => RequestView::Nothing,
            },
            _ => RequestView::Nothing,
        }
    }

    /// The state with a changed tree, marked as changed if `moved`.
    pub open spec fn with_tree(self, tree: TreeView, moved: bool) -> AppView {
        AppView { tree, dirty: self.dirty || moved, ..self }
    }

    /// The state with `msg` on the status line, marked as changed.
    pub open spec fn with_status(self, msg: Seq<char>) -> AppView {
        AppView { status: msg, dirty: true, ..self }
    }

    /// The state after a command that may read the selected directory:
    /// `tree` if the read was not needed or came off, the reader's message
    /// on the status line if it failed, and no change for a file and for a
    /// read that was not made.
    pub open spec fn after_read(
        self,
        reads: bool,
        listing: Option<ListingView>,
        tree: TreeView,
    ) -> AppView {
        match self.tree.read_answer(reads, listing) {
            Ok(()) => self.with_tree(tree, reads || tree != self.tree),
            Err(Some(msg)) => self.with_status(msg),
            Err(None) => self,
        }
    }

    /// The state after a paste: with a pending copy or move and a listing
    /// of the target, the target is refreshed from it, the status line
    /// reports the transfer and nothing is pending any more; a failed
    /// listing puts the reader's message on the status line.
    pub open spec fn pasted(self, listing: Option<ListingView>) -> AppView {
        match (self.op_buff, listing) {
            (Some(op), Some(Ok(entries))) => {
                let to = self.paste_target();
                AppView {
                    tree: self.tree.refreshed(to as int, entries),
                    op_buff: None,
                    status: transfer_report(op, self.tree.nodes[to as int].fullpath),
                    dirty: true,
                }
            },
            (Some(op), Some(Err(msg))) => self.with_status(msg),
            _ => self,
        }
    }

    /// The state after `cmd`, where `listing` is what the read that
    /// `request` asked for came to, or none if nothing was read.
    pub open spec fn step(self, cmd: Command, listing: Option<ListingView>) -> AppView {
        match cmd {
            Command::Quit => self,
            Command::Ignore => self,
            Command::Ascend => self.with_tree(self.tree.ascended(), self.tree.selected != 0),
            Command::Next => self.with_tree(
                self.tree.stepped_down(),
                self.tree.stepped_down() != self.tree,
            ),
            Command::Previous => self.with_tree(
                self.tree.stepped_up(),
                self.tree.stepped_up() != self.tree,
            ),
            Command::Descend => self.after_read(
                self.tree.descend_reads(),
                listing,
                self.tree.descended(listing),
            ),
            Command::Toggle => self.after_read(
                self.tree.toggle_reads(),
                listing,
                self.tree.toggled(listing),
            ),
            Command::Cut => AppView {
                op_buff: Some(OpView::Cut(self.selected_path())),
                dirty: true,
                ..self
            },
            Command::Copy => AppView {
                op_buff: Some(OpView::Copy(self.selected_path())),
                dirty: true,
                ..self
            },
            Command::Paste => self.pasted(listing),
        }
    }

    /// What the bottom bar says: the pending copy or move, or else the
    /// status line.
    pub open spec fn bottom_bar(self) -> Seq<char> {
        match self.op_buff {
            Some(OpView::Copy(s)) => "Copying: "@ + s,
            Some(OpView::Cut(s)) => "Moving: "@ + s,
            None => self.status,
        }
    }
}

/// As long as the flag stays clear, no command has changed anything.
pub proof fn lemma_clean_means_unchanged(a: AppView, cmd: Command, listing: Option<ListingView>)
    requires
        a.wf(),
    ensures
        !a.step(cmd, listing).dirty ==> a.step(cmd, listing) == a,
{
    assert(a.tree.node_wf(a.tree.selected as int));
}

/// The command that a key stands for.
pub fn command_for(key: Key) -> (cmd: Command)
    ensures
        cmd == command_of(key),
{
    match key {
        Key::Char(c) => if c == 'q' {
            Command::Quit
        } else if c == 'h' {
            Command::Ascend
        } else if c == 'l' {
            Command::Descend
        } else if c == 'j' {
            Command::Next
        } else if c == 'k' {
            Command::Previous
        } else if c == 'd' {
            Command::Cut
        } else if c == 'y' {
            Command::Copy
        } else if c == 'p' {
            Command::Paste
        } else {
            Command::Ignore
        },
        Key::Esc => Command::Quit,
        Key::Left => Command::Ascend,
        Key::Right => Command::Descend,
        Key::Down => Command::Next,
        Key::Up => Command::Previous,
        Key::Enter => Command::Toggle,
        Key::Other => Command::Ignore,
    }
}

/// One frame of the screen.
#[derive(Debug)]
pub struct Frame {
    /// The top bar: the path of the selected node.
    pub top: String,
    /// The lines of the tree.
    pub lines: Vec<Line>,
    /// How many filler lines follow the tree.
    pub filler: usize,
    /// The bottom bar.
    pub bottom: String,
}

impl AppState {
    /// The state at startup: the tree of the root directory at `path`,
    /// loaded from `listing`, which is what reading that directory came to.
    /// Without a listing there is no state.
    pub fn new_from_fs(path: &str, listing: Result<Vec<Entry>, String>) -> (r: Result<
        AppState,
        TreeError,
    >)
        ensures
            match r {
                Ok(app) => listing is Ok && app@.wf() && app@ == (AppView {
                    tree: ArenaTree::spec_new(path@).loaded(0, listing_view(listing)->Ok_0),
                    op_buff: None,
                    status: "--"@,
                    dirty: true,
                }),
                Err(e) => listing is Err && e is Io && e->Io_0@ == listing->Err_0@,
            },
    {
        match ArenaTree::create(path, listing) {
            Ok(tree) => Ok(AppState { tree, op_buff: None, status: "--".to_owned(), dirty: true }),
            Err(e) => Err(e),
        }
    }

    /// The directory that a paste goes into.
    pub fn paste_target(&self) -> (to: usize)
        requires
            self@.wf(),
        ensures
            to == self@.paste_target(),
            to < self@.tree.nodes.len(),
            self@.tree.nodes[to as int].is_dir,
    {
        proof {
            assert(self@.tree.node_wf(self@.tree.selected as int));
        }
        match self.tree.arena[self.tree.current].parent {
            Some(p) => p,
            None => self.tree.current,
        }
    }

    /// What the control loop has to read or run before `cmd` can be
    /// carried out.
    pub fn request_for(&self, cmd: Command) -> (r: Request)
        requires
            self@.wf(),
        ensures
            r@ == self@.request(cmd),
    {
        let at = &self.tree.arena[self.tree.current];
        match cmd {
            Command::Descend => if at.is_dir && !at.loaded {
                Request::Listing { path: at.fullpath.clone() }
            } else {
                Request::Nothing
            },
            Command::Toggle => if at.is_dir && at.children.len() == 0 {
                Request::Listing { path: at.fullpath.clone() }
            } else {
                Request::Nothing
            },
            Command::Paste => match &self.op_buff {
                Some(OpType::Copy(from)) => {
                    let to = self.paste_target();
                    Request::Transfer {
                        cut: false,
                        from: from.clone(),
                        to: self.tree.arena[to].fullpath.clone(),
                    }
                },
                Some(OpType::Cut(from)) => {
                    let to = self.paste_target();
                    Request::Transfer {
                        cut: true,
                        from: from.clone(),
                        to: self.tree.arena[to].fullpath.clone(),
                    }
                },
                None => Request::Nothing,
            },
            _ => Request::Nothing,
        }
    }

    /// What the status line says after the pending copy or move `op` went
    /// into the directory at `to`.
    fn report(op: &OpType, to: &String) -> (s: String)
        ensures
            s@ == transfer_report(op@, to@),
    {
        match op {
            OpType::Copy(from) => {
                let mut s = "Copied: ".to_owned();
                s.append(from.as_str());
                s.append(" -> ");
                s.append(to.as_str());
                s
            },
            OpType::Cut(from) => {
                let mut s = "Moved: ".to_owned();
                s.append(from.as_str());
                s.append(" -> ");
                s.append(to.as_str());
                s
            },
        }
    }

    /// Takes the answer of a command that may have read the selected
    /// directory into the state.
    fn settle(&mut self, r: Result<(), TreeError>, changed: bool)
        ensures
            final(self).tree == old(self).tree,
            final(self).op_buff == old(self).op_buff,
            match r {
                Ok(()) => final(self).status == old(self).status && final(self).dirty == (old(
                    self,
                ).dirty || changed),
                Err(TreeError::Io(msg)) => final(self).status@ == msg@ && final(self).dirty,
                Err(_) => final(self).status == old(self).status && final(self).dirty == old(
                    self,
                ).dirty,
            },
    {
        match r {
            Ok(()) => {
                if changed {
                    self.dirty = true;
                }
            },
            Err(TreeError::Io(msg)) => {
                self.status = msg;
                self.dirty = true;
            },
            Err(_) => {},
        }
    }
}

/// Carries out what `key` asks for. `listing` is what the read that
/// `request_for` asked for came to, or none if nothing was read.
///
/// The answer is an error exactly for a key that quits; the state is then
/// as it was.
pub fn process_key(app: &mut AppState, key: Key, listing: Option<Result<Vec<Entry>, String>>) -> (r:
    Result<(), ()>)
    requires
        old(app)@.wf(),
    ensures
        final(app)@.wf(),
        final(app)@ == old(app)@.step(command_of(key), offered_view(listing)),
        r is Err <==> command_of(key) is Quit,
{
    let ghost a = app@;
    proof {
        assert(a.tree.node_wf(a.tree.selected as int));
    }
    match command_for(key) {
        Command::Quit => {
            return Err(());
        },
        Command::Ignore => {},
        Command::Ascend => {
            if app.tree.ascend() {
                app.dirty = true;
            }
        },
        Command::Next => {
            if app.tree.select_next() {
                app.dirty = true;
            }
        },
        Command::Previous => {
            if app.tree.select_previous() {
                app.dirty = true;
            }
        },
        Command::Descend => {
            let reads = !app.tree.arena[app.tree.current].loaded;
            let had = app.tree.arena[app.tree.current].children.len();
            let r = app.tree.descend(listing);
            app.settle(r, reads || had > 0);
        },
        Command::Toggle => {
            let r = app.tree.toggle(listing);
            app.settle(r, true);
        },
        Command::Cut => {
            let path = app.tree.arena[app.tree.current].fullpath.clone();
            app.op_buff = Some(OpType::Cut(path));
            app.dirty = true;
        },
        Command::Copy => {
            let path = app.tree.arena[app.tree.current].fullpath.clone();
            app.op_buff = Some(OpType::Copy(path));
            app.dirty = true;
        },
        Command::Paste => {
            if app.op_buff.is_some() {
                match listing {
                    Some(Ok(entries)) => {
                        let to = app.paste_target();
                        let op = app.op_buff.take().unwrap();
                        let status = AppState::report(&op, &app.tree.arena[to].fullpath);
                        let r = app.tree.refresh(to, Ok(entries));
                        app.status = status;
                        app.dirty = true;
                    },
                    Some(Err(msg)) => {
                        app.status = msg;
                        app.dirty = true;
                    },
                    None => {},
                }
            }
        },
    }
    Ok(())
}

/// The top bar: the path of the selected node.
pub fn render_top_bar(app: &AppState) -> (s: String)
    requires
        app@.wf(),
    ensures
        s@ == app@.selected_path(),
{
    app.tree.arena[app.tree.current].fullpath.clone()
}

/// The bottom bar: the pending copy or move, or else the status line.
pub fn render_bottom_bar(app: &AppState) -> (s: String)
    ensures
        s@ == app@.bottom_bar(),
{
    match &app.op_buff {
        Some(OpType::Copy(from)) => {
            let mut s = "Copying: ".to_owned();
            s.append(from.as_str());
            s
        },
        Some(OpType::Cut(from)) => {
            let mut s = "Moving: ".to_owned();
            s.append(from.as_str());
            s
        },
        None => app.status.clone(),
    }
}

/// The frame to draw on a terminal of `height` lines: the top bar, the
/// tree within the lines that the bars leave, filler lines for the rest
/// and one more, and the bottom bar.
pub fn render(app: &AppState, height: usize) -> (f: Frame)
    requires
        app@.wf(),
    ensures
        f.top@ == app@.selected_path(),
        line_views(f.lines@) == app@.tree.lines(line_budget(height), MAX_CHILD_RENDERED as nat),
        f.lines@.len() <= line_budget(height),
        f.filler == line_budget(height) - f.lines@.len() + 1,
        f.bottom@ == app@.bottom_bar(),
{
    let budget: usize = if height >= CHROME_LINES {
        height - CHROME_LINES
    } else {
        0
    };
    let lines = app.tree.render(budget, MAX_CHILD_RENDERED);
    let filler = budget - lines.len() + 1;
    Frame { top: render_top_bar(app), lines, filler, bottom: render_bottom_bar(app) }
}

} // verus!
