//! The tree store: every known filesystem entry lives in one append-only
//! arena, and parent and child links are indices into it.

use vstd::prelude::*;
use crate::listing::Entry;
use crate::listing::EntryView;
use crate::listing::canonical_order;
use crate::listing::entry_views;
use crate::listing::sort_entries;

verus! {

/// One filesystem entry known to the tree.
#[derive(Debug)]
pub struct Node {
    pub idx: usize,
    pub parent: Option<usize>,
    pub children: Vec<usize>,
    pub fullpath: String,
    pub name: String,
    pub is_dir: bool,
    /// Whether `children` stands for a read of the directory.
    pub loaded: bool,
}

/// The mathematical content of a [`Node`].
pub struct NodeView {
    pub idx: usize,
    pub parent: Option<usize>,
    pub children: Seq<usize>,
    pub fullpath: Seq<char>,
    pub name: Seq<char>,
    pub is_dir: bool,
    pub loaded: bool,
}

impl View for Node {
    type V = NodeView;

    open spec fn view(&self) -> NodeView {
        NodeView {
            idx: self.idx,
            parent: self.parent,
            children: self.children@,
            fullpath: self.fullpath@,
            name: self.name@,
            is_dir: self.is_dir,
            loaded: self.loaded,
        }
    }
}

/// The whole tree: the arena, whose index 0 is the root, and the index of
/// the node that has the navigation focus.
#[derive(Debug)]
pub struct ArenaTree {
    pub arena: Vec<Node>,
    pub current: usize,
}

/// The mathematical content of an [`ArenaTree`].
pub struct TreeView {
    pub nodes: Seq<NodeView>,
    pub selected: usize,
}

impl View for ArenaTree {
    type V = TreeView;

    open spec fn view(&self) -> TreeView {
        TreeView { nodes: self.arena@.map_values(|n: Node| n@), selected: self.current }
    }
}

/// Why a tree operation was refused.
#[derive(Debug)]
pub enum TreeError {
    /// The directory could not be listed; the message is the reader's.
    Io(String),
    /// The node is a file.
    NotADirectory,
    /// The caller broke the contract of the operation: the index names no
    /// node of the arena, or a read that the operation needs was not made.
    InvariantViolation,
}

impl TreeError {
    /// What the error says, as a sequence of characters.
    pub open spec fn spec_message(self) -> Seq<char> {
        match self {
            TreeError::Io(msg) => msg@,
            TreeError::NotADirectory => "Selected node is a file"@,
            TreeError::InvariantViolation => "Node not found in arena"@,
        }
    }

    /// What the error says.
    pub fn message(&self) -> (s: String)
        ensures
            s@ == self.spec_message(),
    {
        match self {
            TreeError::Io(msg) => msg.clone(),
            TreeError::NotADirectory => "Selected node is a file".to_owned(),
            TreeError::InvariantViolation => "Node not found in arena".to_owned(),
        }
    }
}

/// The first position of `x` in `s`, if it occurs at all.
pub open spec fn first_position(s: Seq<usize>, x: usize) -> Option<int>
    decreases s.len(),
{
    if s.len() == 0 {
        None
    } else if s[0] == x {
        Some(0)
    } else {
        match first_position(s.drop_first(), x) {
            Some(k) => Some(k + 1),
            None => None,
        }
    }
}

/// The element right before the first occurrence of `x` in `s`.
pub open spec fn previous_in(s: Seq<usize>, x: usize) -> Option<usize> {
    match first_position(s, x) {
        Some(k) => if k > 0 {
            Some(s[k - 1])
        } else {
            None
        },
        None => None,
    }
}

/// The element right after the first occurrence of `x` in `s`.
pub open spec fn next_in(s: Seq<usize>, x: usize) -> Option<usize> {
    match first_position(s, x) {
        Some(k) => if k + 1 < s.len() {
            Some(s[k + 1])
        } else {
            None
        },
        None => None,
    }
}

/// What `first_position` finds is the first occurrence, and it finds none
/// only where there is none.
pub proof fn lemma_first_position(s: Seq<usize>, x: usize)
    ensures
        match first_position(s, x) {
            Some(k) => 0 <= k < s.len() && s[k] == x && forall|j: int| 0 <= j < k ==> s[j] != x,
            None => forall|j: int| 0 <= j < s.len() ==> s[j] != x,
        },
    decreases s.len(),
{
    if s.len() > 0 && s[0] != x {
        let t = s.drop_first();
        lemma_first_position(t, x);
        match first_position(t, x) {
            Some(k) => {
                assert forall|j: int| 0 <= j < k + 1 implies s[j] != x by {
                    if j > 0 {
                        assert(s[j] == t[j - 1]);
                    }
                }
            },
            None => {
                assert forall|j: int| 0 <= j < s.len() implies s[j] != x by {
                    if j > 0 {
                        assert(s[j] == t[j - 1]);
                    }
                }
            },
        }
    }
}

/// A position that holds `x` with no `x` in front of it is the first.
pub proof fn lemma_first_position_found(s: Seq<usize>, x: usize, k: int)
    requires
        0 <= k < s.len(),
        s[k] == x,
        forall|j: int| 0 <= j < k ==> s[j] != x,
    ensures
        first_position(s, x) == Some(k),
{
    lemma_first_position(s, x);
}

/// The node that a fresh read creates for the entry `e`.
pub open spec fn fresh_node(e: EntryView, idx: int, parent: int) -> NodeView {
    NodeView {
        idx: idx as usize,
        parent: Some(parent as usize),
        children: Seq::empty(),
        fullpath: e.fullpath,
        name: e.name,
        is_dir: e.is_dir,
        loaded: false,
    }
}

/// What the canonical order reads of a node.
pub open spec fn entry_of(n: NodeView) -> EntryView {
    EntryView { name: n.name, fullpath: n.fullpath, is_dir: n.is_dir }
}

impl TreeView {
    /// The links that leave node `i` are sound: it knows its own index, its
    /// parent lies before it and is a directory, only a loaded directory has
    /// children, and each child lies behind it, names it as its parent and
    /// occurs once.
    pub open spec fn node_wf(self, i: int) -> bool {
        let n = self.nodes[i];
        &&& n.idx == i
        &&& (i == 0 ==> n.parent is None && n.is_dir)
        &&& (i > 0 ==> n.parent is Some && n.parent->0 < i && self.nodes[n.parent->0 as int].is_dir)
        &&& (n.children.len() > 0 ==> n.is_dir && n.loaded)
        &&& (n.loaded ==> n.is_dir)
        &&& n.children.no_duplicates()
        &&& forall|k: int|
            0 <= k < n.children.len() ==> i < #[trigger] n.children[k] < self.nodes.len()
                && self.nodes[n.children[k] as int].parent == Some(i as usize)
    }

    /// Node `i` hangs in the tree: it is the root, or its parent lists it
    /// among its children and hangs in the tree itself.
    pub open spec fn attached(self, i: int) -> bool
        decreases i,
    {
        if i <= 0 {
            i == 0
        } else if i >= self.nodes.len() {
            false
        } else {
            match self.nodes[i].parent {
                Some(p) => p < i && self.nodes[p as int].children.contains(i as usize)
                    && self.attached(p as int),
                None => false,
            }
        }
    }

    /// There is a root, and every node's links are sound.
    pub open spec fn links_wf(self) -> bool {
        &&& self.nodes.len() >= 1
        &&& forall|i: int| 0 <= i < self.nodes.len() ==> #[trigger] self.node_wf(i)
    }

    /// The tree is well formed: its links are sound and the selected node
    /// hangs in the tree.
    pub open spec fn wf(self) -> bool {
        &&& self.links_wf()
        &&& self.selected < self.nodes.len()
        &&& self.attached(self.selected as int)
    }

    /// The tree with the children of node `idx` forgotten: the node counts
    /// as not read, and what hung below it stays in the arena, out of reach.
    pub open spec fn cleared(self, idx: int) -> TreeView {
        let dir = NodeView { children: Seq::empty(), loaded: false, ..self.nodes[idx] };
        TreeView { nodes: self.nodes.update(idx, dir), selected: self.selected }
    }

    /// The tree with the selection moved to `fallback` if the selected node
    /// no longer hangs in the tree.
    pub open spec fn healed(self, fallback: int) -> TreeView {
        if self.attached(self.selected as int) {
            self
        } else {
            TreeView { selected: fallback as usize, ..self }
        }
    }

    /// The nearest node at or above node `i` that hangs in the tree; the
    /// root where `i` names no node.
    pub open spec fn nearest_attached(self, i: int) -> int
        decreases i,
    {
        if self.attached(i) {
            i
        } else if 0 < i < self.nodes.len() {
            match self.nodes[i].parent {
                Some(p) => if p < i {
                    self.nearest_attached(p as int)
                } else {
                    0
                },
                None => 0,
            }
        } else {
            0
        }
    }

    /// The tree after node `idx` was collapsed: its children are forgotten,
    /// and a selection that was below it rests on `idx`.
    pub open spec fn collapsed(self, idx: int) -> TreeView {
        self.cleared(idx).healed(idx)
    }

    /// `other` differs from this tree at most in the children and the load
    /// state of node `idx` and in nodes appended to the arena.
    pub open spec fn same_but(self, other: TreeView, idx: int) -> bool {
        &&& 0 <= idx < self.nodes.len() <= other.nodes.len()
        &&& other.nodes[idx].parent == self.nodes[idx].parent
        &&& forall|i: int| 0 <= i < self.nodes.len() && i != idx ==> other.nodes[i] == self.nodes[i]
    }

    /// Whether a load of node `idx` would read the directory: it is a
    /// directory that was not read yet, or was read and found empty.
    pub open spec fn wants_read(self, idx: int) -> bool {
        &&& 0 <= idx < self.nodes.len()
        &&& self.nodes[idx].is_dir
        &&& (!self.nodes[idx].loaded || self.nodes[idx].children.len() == 0)
    }

    /// The entries that the children of node `idx` stand for, in order.
    pub open spec fn child_entries(self, idx: int) -> Seq<EntryView> {
        Seq::new(
            self.nodes[idx].children.len(),
            |k: int| entry_of(self.nodes[self.nodes[idx].children[k] as int]),
        )
    }

    /// The tree after directory `idx` took `entries` as its children: one
    /// fresh node for each entry, appended to the arena in the order given.
    pub open spec fn with_children(self, idx: int, entries: Seq<EntryView>) -> TreeView {
        let base = self.nodes.len() as int;
        let kids = Seq::new(entries.len(), |k: int| (base + k) as usize);
        let fresh = Seq::new(entries.len(), |k: int| fresh_node(entries[k], base + k, idx));
        let dir = NodeView { children: kids, loaded: true, ..self.nodes[idx] };
        TreeView { nodes: self.nodes.update(idx, dir) + fresh, selected: self.selected }
    }

    /// The tree after a successful load of directory `idx` from a listing:
    /// its children are the listing in canonical order.
    pub open spec fn loaded(self, idx: int, listing: Seq<EntryView>) -> TreeView {
        self.with_children(idx, canonical_order(listing))
    }
}

impl Node {
    /// The first position of `idx` among the children of this node.
    pub fn position_of(&self, idx: usize) -> (r: Option<usize>)
        ensures
            match r {
                Some(k) => k < self.children@.len() && first_position(self.children@, idx) == Some(
                    k as int,
                ),
                None => first_position(self.children@, idx) is None,
            },
    {
        let mut k: usize = 0;
        while k < self.children.len()
            invariant
                k <= self.children@.len(),
                forall|j: int| 0 <= j < k ==> self.children@[j] != idx,
            decreases self.children@.len() - k,
        {
            if self.children[k] == idx {
                proof {
                    lemma_first_position_found(self.children@, idx, k as int);
                }
                return Some(k);
            }
            k += 1;
        }
        proof {
            lemma_first_position(self.children@, idx);
        }
        None
    }

    /// The child listed right before the child `idx`, or none if `idx` is the
    /// first child or no child of this node.
    pub fn previous_child(&self, idx: usize) -> (r: Option<usize>)
        ensures
            r == previous_in(self.children@, idx),
    {
        proof {
            lemma_first_position(self.children@, idx);
        }
        match self.position_of(idx) {
            Some(k) => if k > 0 {
                Some(self.children[k - 1])
            } else {
                None
            },
            None => None,
        }
    }

    /// The child listed right after the child `idx`, or none if `idx` is the
    /// last child or no child of this node.
    pub fn next_child(&self, idx: usize) -> (r: Option<usize>)
        ensures
            r == next_in(self.children@, idx),
    {
        proof {
            lemma_first_position(self.children@, idx);
        }
        let n = self.children.len();
        match self.position_of(idx) {
            Some(k) => if k + 1 < n {
                Some(self.children[k + 1])
            } else {
                None
            },
            None => None,
        }
    }
}

/// A load into a directory without children keeps the tree well formed.
pub proof fn lemma_with_children_wf(t: TreeView, idx: int, entries: Seq<EntryView>)
    requires
        t.wf(),
        0 <= idx < t.nodes.len(),
        t.nodes[idx].is_dir,
        t.nodes[idx].children.len() == 0,
        t.nodes.len() + entries.len() <= usize::MAX,
    ensures
        t.with_children(idx, entries).wf(),
        forall|i: int| 0 <= i < t.nodes.len() && t.attached(i) ==> t.with_children(idx, entries).attached(i),
{
    let u = t.with_children(idx, entries);
    let base = t.nodes.len() as int;
    assert forall|i: int| 0 <= i < u.nodes.len() implies #[trigger] u.node_wf(i) by {
        if i < base {
            assert(t.node_wf(i));
            if i != idx {
                assert(u.nodes[i] == t.nodes[i]);
            }
            if i > 0 {
                let p = t.nodes[i].parent->0 as int;
                assert(u.nodes[p].is_dir == t.nodes[p].is_dir);
            }
        } else {
            assert(u.nodes[i] == fresh_node(entries[i - base], i, idx));
        }
    }
    lemma_with_children_attached(t, idx, entries, t.selected as int);
    assert forall|i: int| 0 <= i < t.nodes.len() && t.attached(i) implies u.attached(i) by {
        lemma_with_children_attached(t, idx, entries, i);
    }
}

/// A node that hung in the tree before a load into a childless directory
/// still does.
pub proof fn lemma_with_children_attached(t: TreeView, idx: int, entries: Seq<EntryView>, i: int)
    requires
        0 <= idx < t.nodes.len(),
        t.nodes[idx].children.len() == 0,
        0 <= i < t.nodes.len(),
        t.attached(i),
    ensures
        t.with_children(idx, entries).attached(i),
    decreases i,
{
    let u = t.with_children(idx, entries);
    if i > 0 {
        let p = t.nodes[i].parent->0 as int;
        assert(p != idx) by {
            if p == idx {
                assert(t.nodes[idx].children.contains(i as usize));
            }
        }
        assert(u.nodes[i].parent == t.nodes[i].parent);
        assert(u.nodes[p] == t.nodes[p]);
        lemma_with_children_attached(t, idx, entries, p);
    }
}

/// A change to the children of node `idx` leaves `idx` and every node before
/// it hanging where it hung.
pub proof fn lemma_attached_up_to(t: TreeView, u: TreeView, idx: int, j: int)
    requires
        t.same_but(u, idx),
        0 <= j <= idx,
        t.attached(j),
    ensures
        u.attached(j),
    decreases j,
{
    if j > 0 {
        let p = t.nodes[j].parent->0 as int;
        lemma_attached_up_to(t, u, idx, p);
    }
}

/// A node that a change to the children of node `idx` cuts off lay below
/// `idx`, which itself still hangs in the tree.
pub proof fn lemma_cut_off_below(t: TreeView, u: TreeView, idx: int, i: int)
    requires
        t.same_but(u, idx),
        0 <= i < t.nodes.len(),
        t.attached(i),
        !u.attached(i),
    ensures
        t.attached(idx),
        u.attached(idx),
    decreases i,
{
    if i > 0 {
        let p = t.nodes[i].parent->0 as int;
        if p == idx {
            lemma_attached_up_to(t, u, idx, idx);
        } else {
            lemma_cut_off_below(t, u, idx, p);
        }
    }
}

/// Whether the links are sound depends on the nodes alone.
pub proof fn lemma_links_wf_of_nodes(t: TreeView, u: TreeView)
    requires
        t.links_wf(),
        u.nodes == t.nodes,
    ensures
        u.links_wf(),
{
    assert forall|i: int| 0 <= i < u.nodes.len() implies #[trigger] u.node_wf(i) by {
        assert(t.node_wf(i));
    }
}

/// Whether a node hangs in the tree depends on the nodes alone.
pub proof fn lemma_attached_of_nodes(t: TreeView, u: TreeView, i: int)
    requires
        u.nodes == t.nodes,
    ensures
        u.attached(i) == t.attached(i),
    decreases i,
{
    if 0 < i < t.nodes.len() {
        match t.nodes[i].parent {
            Some(p) => {
                if p < i {
                    lemma_attached_of_nodes(t, u, p as int);
                }
            },
            None => {},
        }
    }
}

/// Forgetting the children of a node keeps the links sound.
pub proof fn lemma_cleared_links_wf(t: TreeView, idx: int)
    requires
        t.links_wf(),
        0 <= idx < t.nodes.len(),
    ensures
        t.cleared(idx).links_wf(),
        t.same_but(t.cleared(idx), idx),
{
    let c = t.cleared(idx);
    assert forall|i: int| 0 <= i < c.nodes.len() implies #[trigger] c.node_wf(i) by {
        assert(t.node_wf(i));
        if i > 0 {
            let p = t.nodes[i].parent->0 as int;
            assert(c.nodes[p].is_dir == t.nodes[p].is_dir);
        }
    }
}

/// Moving a lost selection to a node that still hangs in the tree makes a
/// tree with sound links well formed.
pub proof fn lemma_healed_wf(t: TreeView, u: TreeView, idx: int)
    requires
        t.wf(),
        u.links_wf(),
        t.same_but(u, idx),
        u.selected == t.selected,
    ensures
        u.healed(idx).wf(),
{
    let h = u.healed(idx);
    lemma_links_wf_of_nodes(u, h);
    assert(u.node_wf(idx));
    if !u.attached(u.selected as int) {
        lemma_cut_off_below(t, u, idx, t.selected as int);
        lemma_attached_of_nodes(u, h, idx);
    }
}

/// Collapsing a node keeps the tree well formed.
pub proof fn lemma_collapsed_wf(t: TreeView, idx: int)
    requires
        t.wf(),
        0 <= idx < t.nodes.len(),
    ensures
        t.collapsed(idx).wf(),
{
    lemma_cleared_links_wf(t, idx);
    lemma_healed_wf(t, t.cleared(idx), idx);
}

impl ArenaTree {
    /// The view of the tree that `new` makes for `path`.
    pub open spec fn spec_new(path: Seq<char>) -> TreeView {
        TreeView { nodes: seq![fresh_root(path)], selected: 0 }
    }

    /// A tree of one node: the root directory at `path`, not read yet and
    /// selected.
    pub fn new(path: &str) -> (t: Self)
        ensures
            t@.wf(),
            t@ == Self::spec_new(path@),
    {
        let root = Node {
            idx: 0,
            parent: None,
            children: Vec::new(),
            fullpath: path.to_owned(),
            name: path.to_owned(),
            is_dir: true,
            loaded: false,
        };
        let mut arena: Vec<Node> = Vec::new();
        arena.push(root);
        let t = ArenaTree { arena, current: 0 };
        proof {
            assert(t@.node_wf(0));
            assert(t@.nodes =~= Self::spec_new(path@).nodes);
        }
        t
    }

    /// The selected node.
    pub fn get_current(&self) -> (n: &Node)
        requires
            self@.selected < self@.nodes.len(),
        ensures
            *n == self.arena@[self.current as int],
            n@ == self@.nodes[self@.selected as int],
    {
        &self.arena[self.current]
    }

    /// The node at `idx`.
    pub fn get(&self, idx: usize) -> (n: &Node)
        requires
            idx < self@.nodes.len(),
        ensures
            *n == self.arena@[idx as int],
            n@ == self@.nodes[idx as int],
    {
        &self.arena[idx]
    }

    /// Whether the links that leave node `i` are sound.
    fn node_is_sound(&self, i: usize) -> (r: bool)
        requires
            i < self@.nodes.len(),
        ensures
            r == self@.node_wf(i as int),
    {
        let n = &self.arena[i];
        let total = self.arena.len();
        if n.idx != i {
            return false;
        }
        match n.parent {
            None => {
                if i != 0 || !n.is_dir {
                    return false;
                }
            },
            Some(p) => {
                if i == 0 || p >= i || !self.arena[p].is_dir {
                    return false;
                }
            },
        }
        if n.loaded && !n.is_dir {
            return false;
        }
        if n.children.len() > 0 && !n.loaded {
            return false;
        }
        let count = n.children.len();
        let mut k: usize = 0;
        while k < count
            invariant
                i < total,
                total == self@.nodes.len(),
                *n == self.arena@[i as int],
                count == n.children@.len(),
                k <= count,
                forall|j: int|
                    0 <= j < k ==> i < #[trigger] n.children@[j] < total
                        && self@.nodes[n.children@[j] as int].parent == Some(i),
                forall|a: int, b: int| 0 <= a < b < k ==> n.children@[a] != n.children@[b],
            decreases count - k,
        {
            let c = n.children[k];
            if c <= i || c >= total {
                return false;
            }
            match self.arena[c].parent {
                Some(p) => {
                    if p != i {
                        return false;
                    }
                },
                None => {
                    return false;
                },
            }
            let mut j: usize = 0;
            while j < k
                invariant
                    j <= k < count,
                    i < self@.nodes.len(),
                    *n == self.arena@[i as int],
                    count == n.children@.len(),
                    c == n.children@[k as int],
                    forall|m: int| 0 <= m < j ==> n.children@[m] != c,
                decreases k - j,
            {
                if n.children[j] == c {
                    proof {
                        let kids = self@.nodes[i as int].children;
                        assert(kids[j as int] == kids[k as int]);
                    }
                    return false;
                }
                j += 1;
            }
            k += 1;
        }
        true
    }

    /// Whether the tree is well formed.
    pub fn is_well_formed(&self) -> (r: bool)
        ensures
            r == self@.wf(),
    {
        let total = self.arena.len();
        if total == 0 {
            return false;
        }
        let mut i: usize = 0;
        while i < total
            invariant
                i <= total,
                total == self@.nodes.len(),
                forall|j: int| 0 <= j < i ==> #[trigger] self@.node_wf(j),
            decreases total - i,
        {
            if !self.node_is_sound(i) {
                return false;
            }
            i += 1;
        }
        if self.current >= total {
            return false;
        }
        self.is_attached(self.current)
    }

    /// The tree of the root directory at `path`, loaded from `listing`,
    /// which is what reading that directory came to. Without a listing
    /// there is no tree.
    pub fn create(path: &str, listing: Result<Vec<Entry>, String>) -> (r: Result<Self, TreeError>)
        ensures
            match r {
                Ok(t) => listing is Ok && t@.wf() && t@ == Self::spec_new(path@).loaded(
                    0,
                    entry_views(listing->Ok_0@),
                ),
                Err(e) => listing is Err && e is Io && e->Io_0@ == listing->Err_0@,
            },
    {
        let mut tree = ArenaTree::new(path);
        match tree.read_children(0, listing) {
            Ok(()) => Ok(tree),
            Err(e) => Err(e),
        }
    }

    /// Gives directory `idx`, which has no children, one fresh node for each
    /// entry of `sorted`, in that order.
    fn append_children(&mut self, idx: usize, sorted: Vec<Entry>)
        requires
            old(self)@.wf(),
            idx < old(self)@.nodes.len(),
            old(self)@.nodes[idx as int].is_dir,
            old(self)@.nodes[idx as int].children.len() == 0,
        ensures
            final(self)@ == old(self)@.with_children(idx as int, entry_views(sorted@)),
            final(self)@.wf(),
    {
        let ghost before = self@;
        let ghost entries = entry_views(sorted@);
        let base = self.arena.len();
        let mut kids: Vec<usize> = Vec::new();
        let mut k: usize = 0;
        while k < sorted.len()
            invariant
                k <= sorted@.len(),
                entries == entry_views(sorted@),
                base == before.nodes.len(),
                self.arena@.len() == base + k,
                self.current == before.selected,
                kids@.len() == k,
                forall|j: int| 0 <= j < base ==> (#[trigger] self.arena@[j])@ == before.nodes[j],
                forall|j: int|
                    0 <= j < k ==> (#[trigger] self.arena@[base + j])@ == fresh_node(
                        entries[j],
                        base + j,
                        idx as int,
                    ),
                forall|j: int| 0 <= j < k ==> #[trigger] kids@[j] == base + j,
            decreases sorted@.len() - k,
        {
            let e = &sorted[k];
            let new_idx = self.arena.len();
            let node = Node {
                idx: new_idx,
                parent: Some(idx),
                children: Vec::new(),
                fullpath: e.fullpath.clone(),
                name: e.name.clone(),
                is_dir: e.is_dir,
                loaded: false,
            };
            self.arena.push(node);
            kids.push(new_idx);
            k += 1;
        }
        let total = self.arena.len();
        self.arena[idx].children = kids;
        self.arena[idx].loaded = true;
        proof {
            assert(total == base + entries.len());
            let want = before.with_children(idx as int, entries);
            assert(self@.nodes.len() == want.nodes.len());
            assert forall|j: int| 0 <= j < self@.nodes.len() implies self@.nodes[j]
                == want.nodes[j] by {
                if j == idx {
                    assert(self@.nodes[j].children =~= want.nodes[j].children);
                } else if j < base {
                } else {
                    assert(self.arena@[base + (j - base)]@ == fresh_node(
                        entries[j - base],
                        base + (j - base),
                        idx as int,
                    ));
                }
            }
            assert(self@.nodes =~= want.nodes);
            lemma_with_children_wf(before, idx as int, entries);
        }
    }

    /// Loads the children of directory `idx` from a listing of it, unless it
    /// has children already. The listing is the outcome of reading the
    /// directory: its entries in any order, or the reader's failure.
    ///
    /// An index outside the arena and a file are refused, and so is a failed
    /// listing where one was needed; the tree is then left as it was. On
    /// success the children are the listing in canonical order, each a fresh
    /// node at the end of the arena.
    pub fn read_children(&mut self, idx: usize, listing: Result<Vec<Entry>, String>) -> (r: Result<
        (),
        TreeError,
    >)
        requires
            old(self)@.wf(),
        ensures
            final(self)@.wf(),
            idx >= old(self)@.nodes.len() ==> r == Err::<(), TreeError>(
                TreeError::InvariantViolation,
            ) && final(self)@ == old(self)@,
            idx < old(self)@.nodes.len() && !old(self)@.nodes[idx as int].is_dir ==> r == Err::<
                (),
                TreeError,
            >(TreeError::NotADirectory) && final(self)@ == old(self)@,
            idx < old(self)@.nodes.len() && old(self)@.nodes[idx as int].is_dir && !old(
                self,
            )@.wants_read(idx as int) ==> r is Ok && final(self)@ == old(self)@,
            old(self)@.wants_read(idx as int) && listing is Err ==> r is Err && r->Err_0 is Io
                && r->Err_0->Io_0@ == listing->Err_0@ && final(self)@ == old(self)@,
            old(self)@.wants_read(idx as int) && listing is Ok ==> r is Ok && final(self)@ == old(
                self,
            )@.loaded(idx as int, entry_views(listing->Ok_0@)),
    {
        if idx >= self.arena.len() {
            return Err(TreeError::InvariantViolation);
        }
        if !self.arena[idx].is_dir {
            return Err(TreeError::NotADirectory);
        }
        if self.arena[idx].loaded && self.arena[idx].children.len() > 0 {
            return Ok(());
        }
        match listing {
            Err(msg) => Err(TreeError::Io(msg)),
            Ok(entries) => {
                let sorted = sort_entries(entries);
                proof {
                    assert(self@.node_wf(idx as int));
                }
                self.append_children(idx, sorted);
                Ok(())
            },
        }
    }
    /// Whether node `i` hangs in the tree.
    pub fn is_attached(&self, i: usize) -> (r: bool)
        requires
            self@.links_wf(),
        ensures
            r == self@.attached(i as int),
    {
        if i >= self.arena.len() {
            return false;
        }
        let mut c: usize = i;
        while c > 0
            invariant
                self@.links_wf(),
                c < self@.nodes.len(),
                self@.attached(i as int) == self@.attached(c as int),
            decreases c,
        {
            proof {
                assert(self@.node_wf(c as int));
            }
            match self.arena[c].parent {
                None => {
                    return false;
                },
                Some(p) => {
                    proof {
                        lemma_first_position(self@.nodes[p as int].children, c);
                    }
                    if self.arena[p].position_of(c).is_none() {
                        return false;
                    }
                    c = p;
                },
            }
        }
        true
    }

    /// Collapses node `idx`: its children are forgotten and it counts as not
    /// read, so that a later load reads the directory anew. Nothing leaves
    /// the arena, and every index stays valid. A selection below `idx` moves
    /// to `idx`. On a file this changes nothing.
    pub fn remove_children(&mut self, idx: usize)
        requires
            old(self)@.wf(),
            idx < old(self)@.nodes.len(),
        ensures
            final(self)@ == old(self)@.collapsed(idx as int),
            final(self)@.wf(),
    {
        let ghost before = self@;
        self.arena[idx].children = Vec::new();
        self.arena[idx].loaded = false;
        proof {
            assert(self@.nodes =~= before.cleared(idx as int).nodes);
            lemma_cleared_links_wf(before, idx as int);
            lemma_collapsed_wf(before, idx as int);
        }
        if !self.is_attached(self.current) {
            self.current = idx;
        }
    }

    /// Brings a selection that names no node, or a node that does not hang
    /// in the tree, back to the nearest node above it that does. A tree
    /// whose links are sound is well formed after that; no node changes.
    pub fn heal_selection(&mut self)
        requires
            old(self)@.links_wf(),
        ensures
            final(self)@.wf(),
            final(self)@.nodes == old(self)@.nodes,
            final(self)@.selected == old(self)@.nearest_attached(old(self)@.selected as int),
    {
        let ghost t = self@;
        let mut c: usize = if self.current < self.arena.len() {
            self.current
        } else {
            0
        };
        while !self.is_attached(c)
            invariant
                self@ == t,
                t.links_wf(),
                c < t.nodes.len(),
                t.nearest_attached(t.selected as int) == t.nearest_attached(c as int),
            decreases c,
        {
            proof {
                assert(t.node_wf(c as int));
            }
            match self.arena[c].parent {
                Some(p) => {
                    c = p;
                },
                None => {
                    c = 0;
                },
            }
        }
        self.current = c;
        proof {
            lemma_links_wf_of_nodes(t, self@);
            lemma_attached_of_nodes(t, self@, c as int);
        }
    }
}

/// The root that a new tree starts with.
pub open spec fn fresh_root(path: Seq<char>) -> NodeView {
    NodeView {
        idx: 0,
        parent: None,
        children: Seq::empty(),
        fullpath: path,
        name: path,
        is_dir: true,
        loaded: false,
    }
}

} // verus!
