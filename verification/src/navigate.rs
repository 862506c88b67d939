//! The navigation controller: each command moves the selection through the
//! tree, or opens or closes the selected directory.

use vstd::prelude::*;
use crate::arenatree::ArenaTree;
use crate::arenatree::TreeError;
use crate::arenatree::TreeView;
use crate::arenatree::first_position;
use crate::arenatree::lemma_collapsed_wf;
use crate::arenatree::lemma_first_position;
use crate::arenatree::lemma_with_children_wf;
use crate::arenatree::next_in;
use crate::arenatree::previous_in;
use crate::listing::Entry;
use crate::listing::EntryView;
use crate::listing::canonical_order;
use crate::listing::entry_views;

verus! {

/// What a read of a directory came to, as far as the tree looks at it: the
/// entries, or the reader's message.
pub type ListingView = Result<Seq<EntryView>, Seq<char>>;

/// The view of the outcome of a read.
pub open spec fn listing_view(listing: Result<Vec<Entry>, String>) -> ListingView {
    match listing {
        Ok(v) => Ok(entry_views(v@)),
        Err(e) => Err(e@),
    }
}

/// The view of the outcome of a read that may not have been made.
pub open spec fn offered_view(listing: Option<Result<Vec<Entry>, String>>) -> Option<ListingView> {
    match listing {
        Some(l) => Some(listing_view(l)),
        None => None,
    }
}

impl TreeView {
    /// The sibling listed right before node `i`, if there is one.
    pub open spec fn previous_sibling(self, i: int) -> Option<usize> {
        match self.nodes[i].parent {
            Some(p) => previous_in(self.nodes[p as int].children, i as usize),
            None => None,
        }
    }

    /// The sibling listed right after node `i`, if there is one.
    pub open spec fn next_sibling(self, i: int) -> Option<usize> {
        match self.nodes[i].parent {
            Some(p) => next_in(self.nodes[p as int].children, i as usize),
            None => None,
        }
    }

    /// The tree with node `i` selected.
    pub open spec fn select(self, i: usize) -> TreeView {
        TreeView { selected: i, ..self }
    }

    /// The tree after the selection moved to the parent; at the root
    /// nothing moves.
    pub open spec fn ascended(self) -> TreeView {
        match self.nodes[self.selected as int].parent {
            Some(p) => self.select(p),
            None => self,
        }
    }

    /// The tree after the selection moved to the next sibling; at the last
    /// sibling nothing moves.
    pub open spec fn stepped_down(self) -> TreeView {
        match self.next_sibling(self.selected as int) {
            Some(s) => self.select(s),
            None => self,
        }
    }

    /// The tree after the selection moved to the previous sibling; at the
    /// first sibling nothing moves.
    pub open spec fn stepped_up(self) -> TreeView {
        match self.previous_sibling(self.selected as int) {
            Some(s) => self.select(s),
            None => self,
        }
    }

    /// The tree after the selection moved to the first child of the
    /// selected node; where there is no child nothing moves.
    pub open spec fn entered(self) -> TreeView {
        let kids = self.nodes[self.selected as int].children;
        if kids.len() > 0 {
            self.select(kids[0])
        } else {
            self
        }
    }

    /// Whether a descent from the selected node first has to read it: it is
    /// a directory that was not read yet.
    pub open spec fn descend_reads(self) -> bool {
        let n = self.nodes[self.selected as int];
        n.is_dir && !n.loaded
    }

    /// Whether a toggle of the selected node has to read it: it is a
    /// directory without children.
    pub open spec fn toggle_reads(self) -> bool {
        let n = self.nodes[self.selected as int];
        n.is_dir && n.children.len() == 0
    }

    /// The tree after a descent from the selected node. A file stays
    /// selected. A directory that was not read yet takes the listing first;
    /// without one, or with a failed one, nothing changes. Then the
    /// selection moves to the first child, if there is one.
    pub open spec fn descended(self, listing: Option<ListingView>) -> TreeView {
        if !self.nodes[self.selected as int].is_dir {
            self
        } else if !self.descend_reads() {
            self.entered()
        } else {
            match listing {
                Some(Ok(entries)) => self.loaded(self.selected as int, entries).entered(),
                _ => self,
            }
        }
    }

    /// The tree after a toggle of the selected node. A file stays as it is.
    /// A directory with children is collapsed. One without takes the
    /// listing as its children; without a listing, or with a failed one,
    /// nothing changes.
    pub open spec fn toggled(self, listing: Option<ListingView>) -> TreeView {
        if !self.nodes[self.selected as int].is_dir {
            self
        } else if !self.toggle_reads() {
            self.collapsed(self.selected as int)
        } else {
            match listing {
                Some(Ok(entries)) => self.loaded(self.selected as int, entries),
                _ => self,
            }
        }
    }

    /// What a command that may read the selected directory answers: a file
    /// is refused, and so is a read that was needed and failed or was not
    /// made.
    pub open spec fn read_answer(self, reads: bool, listing: Option<ListingView>) -> Result<
        (),
        Option<Seq<char>>,
    > {
        if !self.nodes[self.selected as int].is_dir {
            Err(None)
        } else if !reads {
            Ok(())
        } else {
            match listing {
                Some(Ok(_)) => Ok(()),
                Some(Err(msg)) => Err(Some(msg)),
                None => Err(None),
            }
        }
    }
}

/// Whether an answer of the tree says what `read_answer` lays down: success
/// for success, the reader's message for a failed read, "not a directory"
/// for a file, and a broken contract for a read that was not made.
pub open spec fn answers(t: TreeView, reads: bool, listing: Option<ListingView>, r: Result<
    (),
    TreeError,
>) -> bool {
    match t.read_answer(reads, listing) {
        Ok(()) => r is Ok,
        Err(Some(msg)) => r is Err && r->Err_0 is Io && r->Err_0->Io_0@ == msg,
        Err(None) => r is Err && if t.nodes[t.selected as int].is_dir {
            r->Err_0 is InvariantViolation
        } else {
            r->Err_0 is NotADirectory
        },
    }
}

/// Selecting a node that hangs in the tree keeps the tree well formed.
pub proof fn lemma_select_wf(t: TreeView, i: usize)
    requires
        t.wf(),
        t.attached(i as int),
    ensures
        t.select(i).wf(),
{
    crate::arenatree::lemma_links_wf_of_nodes(t, t.select(i));
    crate::arenatree::lemma_attached_of_nodes(t, t.select(i), i as int);
    if i >= t.nodes.len() {
        assert(!t.attached(i as int));
    }
}

/// The children of a node that hangs in the tree hang in the tree.
pub proof fn lemma_child_attached(t: TreeView, i: int, k: int)
    requires
        t.links_wf(),
        0 <= i < t.nodes.len(),
        t.attached(i),
        0 <= k < t.nodes[i].children.len(),
    ensures
        t.attached(t.nodes[i].children[k] as int),
{
    assert(t.node_wf(i));
    let c = t.nodes[i].children[k];
    assert(t.nodes[i].children.contains(c));
}

/// The first child of a node has no previous sibling, and the last child
/// has no next sibling: the steps from sibling to sibling do not wrap
/// around.
pub proof fn lemma_sibling_bounds(t: TreeView, p: int)
    requires
        t.links_wf(),
        0 <= p < t.nodes.len(),
        t.nodes[p].children.len() > 0,
    ensures
        t.previous_sibling(t.nodes[p].children.first() as int) is None,
        t.next_sibling(t.nodes[p].children.last() as int) is None,
{
    let kids = t.nodes[p].children;
    assert(t.node_wf(p));
    assert(t.nodes[kids[0] as int].parent == Some(p as usize));
    assert(t.nodes[kids[kids.len() - 1] as int].parent == Some(p as usize));
    lemma_first_position(kids, kids.first());
    lemma_first_position(kids, kids.last());
}

/// Two reads of a directory that report the same entries, in whatever
/// order, load into the same tree, as long as no two entries have the same
/// kind and name; and the children that a load gives stand for the entries
/// in canonical order: directories before files, each group ascending by
/// name.
pub proof fn lemma_load_order(t: TreeView, idx: int, a: Seq<EntryView>, b: Seq<EntryView>)
    requires
        t.wf(),
        t.wants_read(idx),
        crate::listing::keys_distinct(a),
        a.to_multiset() == b.to_multiset(),
        t.nodes.len() + a.len() <= usize::MAX,
    ensures
        t.loaded(idx, a) == t.loaded(idx, b),
        t.loaded(idx, a).child_entries(idx) == canonical_order(a),
        crate::listing::ordered(t.loaded(idx, a).child_entries(idx)),
{
    crate::listing::lemma_canonical_order_of_rearranged(a, b);
    crate::listing::lemma_canonical_order_ordered(a);
    crate::listing::lemma_canonical_order_permutes(a);
    assert(t.node_wf(idx));
    assert(t.loaded(idx, a).child_entries(idx) =~= canonical_order(a));
}

/// Collapsing a directory and loading it again from the same listing
/// gives it children that stand for the same entries, in the same order,
/// as the first load did: the listing in canonical order.
pub proof fn lemma_collapse_then_load(t: TreeView, idx: int, listing: Seq<EntryView>)
    requires
        t.wf(),
        t.wants_read(idx),
        t.nodes.len() + listing.len() + listing.len() <= usize::MAX,
    ensures
        t.loaded(idx, listing).child_entries(idx) == canonical_order(listing),
        t.loaded(idx, listing).collapsed(idx).loaded(idx, listing).child_entries(idx)
            == t.loaded(idx, listing).child_entries(idx),
{
    let sorted = canonical_order(listing);
    crate::listing::lemma_canonical_order_permutes(listing);
    let first = t.loaded(idx, listing);
    assert(t.node_wf(idx));
    lemma_with_children_wf(t, idx, sorted);
    assert(first.child_entries(idx) =~= sorted);
    let closed = first.collapsed(idx);
    lemma_collapsed_wf(first, idx);
    let again = closed.loaded(idx, listing);
    assert(again.child_entries(idx) =~= sorted);
}

impl ArenaTree {
    /// The sibling listed right before node `idx`; none for the first child
    /// of its parent and for the root.
    pub fn previous_sibling(&self, idx: usize) -> (r: Option<usize>)
        requires
            self@.links_wf(),
            idx < self@.nodes.len(),
        ensures
            r == self@.previous_sibling(idx as int),
    {
        proof {
            assert(self@.node_wf(idx as int));
        }
        match self.arena[idx].parent {
            Some(p) => self.arena[p].previous_child(idx),
            None => None,
        }
    }

    /// The sibling listed right after node `idx`; none for the last child of
    /// its parent and for the root.
    pub fn next_sibling(&self, idx: usize) -> (r: Option<usize>)
        requires
            self@.links_wf(),
            idx < self@.nodes.len(),
        ensures
            r == self@.next_sibling(idx as int),
    {
        proof {
            assert(self@.node_wf(idx as int));
        }
        match self.arena[idx].parent {
            Some(p) => self.arena[p].next_child(idx),
            None => None,
        }
    }

    /// Moves the selection to the parent of the selected node; at the root
    /// nothing moves. Returns whether the selection moved.
    pub fn ascend(&mut self) -> (moved: bool)
        requires
            old(self)@.wf(),
        ensures
            final(self)@ == old(self)@.ascended(),
            final(self)@.wf(),
            moved == (old(self)@.selected != 0),
            moved == (final(self)@ != old(self)@),
    {
        proof {
            assert(self@.node_wf(self@.selected as int));
        }
        match self.arena[self.current].parent {
            Some(p) => {
                proof {
                    lemma_select_wf(self@, p);
                }
                self.current = p;
                true
            },
            None => false,
        }
    }

    /// Moves the selection to the next sibling; at the last sibling nothing
    /// moves. Returns whether the selection moved.
    pub fn select_next(&mut self) -> (moved: bool)
        requires
            old(self)@.wf(),
        ensures
            final(self)@ == old(self)@.stepped_down(),
            final(self)@.wf(),
            moved == old(self)@.next_sibling(old(self)@.selected as int) is Some,
            moved == (final(self)@ != old(self)@),
    {
        let ghost t = self@;
        proof {
            assert(t.node_wf(t.selected as int));
        }
        match self.next_sibling(self.current) {
            Some(s) => {
                proof {
                    let p = t.nodes[t.selected as int].parent->0 as int;
                    let kids = t.nodes[p].children;
                    assert(t.node_wf(p));
                    lemma_first_position(kids, t.selected);
                    let k = first_position(kids, t.selected)->0;
                    lemma_child_attached(t, p, k + 1);
                    lemma_select_wf(t, s);
                }
                self.current = s;
                true
            },
            None => false,
        }
    }

    /// Moves the selection to the previous sibling; at the first sibling
    /// nothing moves. Returns whether the selection moved.
    pub fn select_previous(&mut self) -> (moved: bool)
        requires
            old(self)@.wf(),
        ensures
            final(self)@ == old(self)@.stepped_up(),
            final(self)@.wf(),
            moved == old(self)@.previous_sibling(old(self)@.selected as int) is Some,
            moved == (final(self)@ != old(self)@),
    {
        let ghost t = self@;
        proof {
            assert(t.node_wf(t.selected as int));
        }
        match self.previous_sibling(self.current) {
            Some(s) => {
                proof {
                    let p = t.nodes[t.selected as int].parent->0 as int;
                    let kids = t.nodes[p].children;
                    assert(t.node_wf(p));
                    lemma_first_position(kids, t.selected);
                    let k = first_position(kids, t.selected)->0;
                    lemma_child_attached(t, p, k - 1);
                    lemma_select_wf(t, s);
                }
                self.current = s;
                true
            },
            None => false,
        }
    }

    /// Moves the selection to the first child of the selected node, if it
    /// has one. Returns whether the selection moved.
    fn enter(&mut self) -> (moved: bool)
        requires
            old(self)@.wf(),
        ensures
            final(self)@ == old(self)@.entered(),
            final(self)@.wf(),
            moved == (old(self)@.nodes[old(self)@.selected as int].children.len() > 0),
            moved == (final(self)@ != old(self)@),
    {
        let ghost t = self@;
        proof {
            assert(t.node_wf(t.selected as int));
        }
        if self.arena[self.current].children.len() > 0 {
            let c = self.arena[self.current].children[0];
            proof {
                lemma_child_attached(t, t.selected as int, 0);
                lemma_select_wf(t, c);
            }
            self.current = c;
            true
        } else {
            false
        }
    }

    /// Descends from the selected node: a directory that was not read yet
    /// is loaded from `listing`, and the selection moves to the first child
    /// of the directory, if it has one.
    ///
    /// `listing` is the outcome of reading the selected directory, or none
    /// if it was not read. It is looked at only where `descend_reads` says
    /// that the descent has to read. A file is refused as no directory, a
    /// failed read with the reader's message, and a read that was needed
    /// and not made as a broken contract; the tree is then left as it was.
    pub fn descend(&mut self, listing: Option<Result<Vec<Entry>, String>>) -> (r: Result<
        (),
        TreeError,
    >)
        requires
            old(self)@.wf(),
        ensures
            final(self)@ == old(self)@.descended(offered_view(listing)),
            final(self)@.wf(),
            answers(old(self)@, old(self)@.descend_reads(), offered_view(listing), r),
    {
        let ghost t = self@;
        let at = self.current;
        proof {
            assert(t.node_wf(at as int));
        }
        if !self.arena[at].is_dir {
            return Err(TreeError::NotADirectory);
        }
        if self.arena[at].loaded {
            self.enter();
            return Ok(());
        }
        match listing {
            None => Err(TreeError::InvariantViolation),
            Some(found) => {
                match self.read_children(at, found) {
                    Ok(()) => {
                        self.enter();
                        Ok(())
                    },
                    Err(e) => Err(e),
                }
            },
        }
    }

    /// Toggles the selected node: a directory with children is collapsed,
    /// one without is loaded from `listing`.
    ///
    /// `listing` is the outcome of reading the selected directory, or none
    /// if it was not read. It is looked at only where `toggle_reads` says
    /// that the toggle has to read. A file is refused as no directory, a
    /// failed read with the reader's message, and a read that was needed
    /// and not made as a broken contract; the tree is then left as it was.
    pub fn toggle(&mut self, listing: Option<Result<Vec<Entry>, String>>) -> (r: Result<
        (),
        TreeError,
    >)
        requires
            old(self)@.wf(),
        ensures
            final(self)@ == old(self)@.toggled(offered_view(listing)),
            final(self)@.wf(),
            answers(old(self)@, old(self)@.toggle_reads(), offered_view(listing), r),
    {
        let ghost t = self@;
        let at = self.current;
        proof {
            assert(t.node_wf(at as int));
        }
        if !self.arena[at].is_dir {
            return Err(TreeError::NotADirectory);
        }
        if self.arena[at].children.len() > 0 {
            self.remove_children(at);
            return Ok(());
        }
        match listing {
            None => Err(TreeError::InvariantViolation),
            Some(found) => self.read_children(at, found),
        }
    }
}

} // verus!
