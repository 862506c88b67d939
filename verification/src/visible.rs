//! When the viewport shows the selected node.
//!
//! The walk draws a node before its children and stops when the budget is
//! used up, so the selected node is drawn exactly if the lines that come
//! before it leave one for it. `shows_selected` says when that is, in terms
//! of the budget that is left at each directory on the way down to the
//! selected node.

use vstd::prelude::*;
use crate::arenatree::TreeView;
use crate::arenatree::lemma_first_position;
use crate::subtree::lemma_children_apart;
use crate::subtree::lemma_reaches_from_child;
use crate::subtree::lemma_subtree_count;
use crate::viewport::LineView;
use crate::viewport::deeper;
use crate::viewport::lemma_children_lines_len;
use crate::viewport::lemma_step_toward;
use crate::viewport::window_end;
use crate::viewport::window_start;

verus! {

impl TreeView {
    /// How many lines are left when the walk through the children of node
    /// `i` comes to position `k`, if `budget` lines were left at position
    /// `from`: each child in between has taken its own line and the lines
    /// below it.
    pub open spec fn left_at(self, i: int, from: int, k: int, depth: int, budget: nat, width: nat) -> nat
        decreases k - from,
    {
        if from >= k || budget == 0 {
            budget
        } else {
            let c = self.nodes[i].children[from] as int;
            let below = self.children_lines(c, deeper(depth), (budget - 1) as nat, width);
            self.left_at(i, from + 1, k, depth, (budget - 1 - below.len()) as nat, width)
        }
    }

    /// Whether the walk comes to the selected node with a line left for
    /// it, once it has drawn node `i`, at or above the selected node, and
    /// has `budget` lines left: the selected node is `i`; or the window of
    /// `i` holds the child towards the selected node, a line is left when
    /// the walk comes to that child, and the same holds from that child on.
    pub open spec fn comes_to_selected(self, i: int, depth: int, budget: nat, width: nat) -> bool
        decreases self.nodes.len() - i,
    {
        if i < 0 || i >= self.nodes.len() {
            false
        } else if i == self.selected {
            true
        } else {
            match self.toward_selected(i) {
                None => false,
                Some(c) => {
                    let count = self.nodes[i].children.len() as int;
                    let w = Self::window_width(budget, width);
                    let k = self.focus(i);
                    let start = window_start(k, w);
                    let end = window_end(start, w, count);
                    let left = self.left_at(i, start, k, depth, budget, width);
                    &&& i < c < self.nodes.len()
                    &&& start <= k < end
                    &&& left >= 1
                    &&& self.comes_to_selected(c, deeper(depth), (left - 1) as nat, width)
                },
            }
        }
    }

    /// Whether a budget of `budget` lines, with windows of at most `width`
    /// siblings, leaves a line for the selected node.
    pub open spec fn shows_selected(self, budget: nat, width: nat) -> bool {
        budget >= 1 && self.comes_to_selected(0, 1, (budget - 1) as nat, width)
    }
}

/// Whether one of `lines` stands for node `j`.
pub open spec fn draws(lines: Seq<LineView>, j: usize) -> bool {
    exists|n: int| 0 <= n < lines.len() && (#[trigger] lines[n]).node == j
}

/// Every line below node `i` stands for a node that hangs strictly below
/// `i`, and is highlighted exactly if that node is the selected one.
pub proof fn lemma_children_lines_nodes(t: TreeView, i: int, depth: int, budget: nat, width: nat)
    requires
        t.links_wf(),
        0 <= i < t.nodes.len(),
    ensures
        forall|n: int|
            0 <= n < t.children_lines(i, depth, budget, width).len() ==> {
                let l = #[trigger] t.children_lines(i, depth, budget, width)[n];
                &&& i < l.node
                &&& t.reaches(i, l.node as int)
                &&& l.highlight == (l.node == t.selected)
            },
    decreases t.nodes.len() - i, t.nodes[i].children.len() + 1,
{
    if !t.pruned(i, budget) {
        let count = t.nodes[i].children.len() as int;
        let w = TreeView::window_width(budget, width);
        let start = window_start(t.focus(i), w);
        let end = window_end(start, w, count);
        if 0 <= start <= end <= count {
            lemma_lines_in_nodes(t, i, start, start, end, depth, budget, width);
        }
    }
}

/// Every line of the children of node `i` stands for a node that hangs
/// strictly below `i`, and is highlighted exactly if that node is the
/// selected one.
pub proof fn lemma_lines_in_nodes(
    t: TreeView,
    i: int,
    k: int,
    start: int,
    end: int,
    depth: int,
    budget: nat,
    width: nat,
)
    requires
        t.links_wf(),
        0 <= i < t.nodes.len(),
        0 <= start,
    ensures
        forall|n: int|
            0 <= n < t.lines_in(i, k, start, end, depth, budget, width).len() ==> {
                let l = #[trigger] t.lines_in(i, k, start, end, depth, budget, width)[n];
                &&& i < l.node
                &&& t.reaches(i, l.node as int)
                &&& l.highlight == (l.node == t.selected)
            },
    decreases t.nodes.len() - i, end - k,
{
    let whole = t.lines_in(i, k, start, end, depth, budget, width);
    if !(k < start || k >= end || end > t.nodes[i].children.len() || budget == 0 || i < 0) {
        let c = t.nodes[i].children[k] as int;
        if i < c < t.nodes.len() {
            let count = t.nodes[i].children.len() as int;
            let own = t.line_of(c, depth, crate::viewport::marker_at(k, start, end, count));
            let below = t.children_lines(c, deeper(depth), (budget - 1) as nat, width);
            let left = (budget - 1 - below.len()) as nat;
            let rest = t.lines_in(i, k + 1, start, end, depth, left, width);
            lemma_children_lines_nodes(t, c, deeper(depth), (budget - 1) as nat, width);
            lemma_lines_in_nodes(t, i, k + 1, start, end, depth, left, width);
            assert(t.node_wf(c));
            assert(t.reaches(c, c));
            lemma_reaches_from_child(t, i, k, c);
            assert forall|n: int| 0 <= n < whole.len() implies {
                let l = #[trigger] whole[n];
                &&& i < l.node
                &&& t.reaches(i, l.node as int)
                &&& l.highlight == (l.node == t.selected)
            } by {
                if n == 0 {
                    assert(whole[n] == own);
                } else if n < 1 + below.len() {
                    assert(whole[n] == below[n - 1]);
                    lemma_reaches_from_child(t, i, k, below[n - 1].node as int);
                } else {
                    assert(whole[n] == rest[n - 1 - below.len()]);
                }
            }
        }
    }
}

/// The lines from position `k` on, drawn with what is left at `k`, are the
/// end of the lines from position `from` on.
pub proof fn lemma_lines_in_tail(
    t: TreeView,
    i: int,
    from: int,
    k: int,
    start: int,
    end: int,
    depth: int,
    budget: nat,
    width: nat,
)
    requires
        t.links_wf(),
        0 <= i < t.nodes.len(),
        0 <= start <= from <= k <= end <= t.nodes[i].children.len(),
    ensures
        ({
            let whole = t.lines_in(i, from, start, end, depth, budget, width);
            let tail = t.lines_in(
                i,
                k,
                start,
                end,
                depth,
                t.left_at(i, from, k, depth, budget, width),
                width,
            );
            &&& tail.len() <= whole.len()
            &&& whole.subrange(whole.len() - tail.len(), whole.len() as int) == tail
        }),
    decreases k - from,
{
    let whole = t.lines_in(i, from, start, end, depth, budget, width);
    let tail = t.lines_in(i, k, start, end, depth, t.left_at(i, from, k, depth, budget, width), width);
    if from >= k {
        assert(whole.subrange(0, whole.len() as int) =~= whole);
    } else if budget == 0 {
        assert(whole.subrange(0, whole.len() as int) =~= whole);
    } else {
        assert(t.node_wf(i));
        let c = t.nodes[i].children[from] as int;
        let below = t.children_lines(c, deeper(depth), (budget - 1) as nat, width);
        lemma_children_lines_len(t, c, deeper(depth), (budget - 1) as nat, width);
        let left = (budget - 1 - below.len()) as nat;
        let rest = t.lines_in(i, from + 1, start, end, depth, left, width);
        lemma_lines_in_tail(t, i, from + 1, k, start, end, depth, left, width);
        assert(whole.subrange(whole.len() - tail.len(), whole.len() as int) =~= rest.subrange(
            rest.len() - tail.len(),
            rest.len() as int,
        ));
    }
}

/// If the walk comes to the selected node with a line left, one of the
/// lines below node `i` stands for it.
pub proof fn lemma_comes_then_drawn(t: TreeView, i: int, depth: int, budget: nat, width: nat)
    requires
        t.wf(),
        0 <= i < t.nodes.len(),
        i != t.selected,
        t.comes_to_selected(i, depth, budget, width),
    ensures
        draws(t.children_lines(i, depth, budget, width), t.selected),
    decreases t.nodes.len() - i,
{
    let c = t.toward_selected(i)->0;
    let count = t.nodes[i].children.len() as int;
    let w = TreeView::window_width(budget, width);
    let k = t.focus(i);
    let start = window_start(k, w);
    let end = window_end(start, w, count);
    let left = t.left_at(i, start, k, depth, budget, width);
    lemma_step_toward(t, i, t.selected as int);
    lemma_first_position(t.nodes[i].children, c as usize);
    assert(t.node_wf(i));
    assert(t.node_wf(c));
    let whole = t.children_lines(i, depth, budget, width);
    assert(whole == t.lines_in(i, start, start, end, depth, budget, width));
    lemma_lines_in_tail(t, i, start, k, start, end, depth, budget, width);
    let tail = t.lines_in(i, k, start, end, depth, left, width);
    let own = t.line_of(c, depth, crate::viewport::marker_at(k, start, end, count));
    let below = t.children_lines(c, deeper(depth), (left - 1) as nat, width);
    let off = whole.len() - tail.len();
    if c == t.selected {
        assert(tail[0] == own);
        assert(whole.subrange(off, whole.len() as int)[0] == whole[off]);
        assert(whole[off].node == t.selected);
    } else {
        lemma_comes_then_drawn(t, c, deeper(depth), (left - 1) as nat, width);
        let m = choose|m: int| 0 <= m < below.len() && (#[trigger] below[m]).node == t.selected;
        assert(tail[1 + m] == below[m]);
        assert(whole.subrange(off, whole.len() as int)[1 + m] == whole[off + 1 + m]);
        assert(whole[off + 1 + m].node == t.selected);
    }
}

/// If one of the lines of the children of node `i` from position `from` on
/// stands for the selected node, the child towards the selected node is in
/// the window, a line is left when the walk comes to it, and it is the
/// selected node or one of the lines below it stands for the selected
/// node.
pub proof fn lemma_drawn_in_window(
    t: TreeView,
    i: int,
    from: int,
    start: int,
    end: int,
    depth: int,
    budget: nat,
    width: nat,
    k: int,
)
    requires
        t.wf(),
        0 <= i < t.nodes.len(),
        0 <= start <= from <= end <= t.nodes[i].children.len(),
        0 <= k < t.nodes[i].children.len(),
        t.reaches(t.nodes[i].children[k] as int, t.selected as int),
        draws(t.lines_in(i, from, start, end, depth, budget, width), t.selected),
    ensures
        from <= k < end,
        t.left_at(i, from, k, depth, budget, width) >= 1,
        t.nodes[i].children[k] == t.selected || draws(
            t.children_lines(
                t.nodes[i].children[k] as int,
                deeper(depth),
                (t.left_at(i, from, k, depth, budget, width) - 1) as nat,
                width,
            ),
            t.selected,
        ),
    decreases end - from,
{
    let whole = t.lines_in(i, from, start, end, depth, budget, width);
    let n = choose|n: int| 0 <= n < whole.len() && (#[trigger] whole[n]).node == t.selected;
    assert(t.node_wf(i));
    let x = t.nodes[i].children[from] as int;
    let count = t.nodes[i].children.len() as int;
    let own = t.line_of(x, depth, crate::viewport::marker_at(from, start, end, count));
    let below = t.children_lines(x, deeper(depth), (budget - 1) as nat, width);
    lemma_children_lines_len(t, x, deeper(depth), (budget - 1) as nat, width);
    let left = (budget - 1 - below.len()) as nat;
    let rest = t.lines_in(i, from + 1, start, end, depth, left, width);
    assert(t.node_wf(x));
    if n < 1 + below.len() {
        assert(t.reaches(x, t.selected as int)) by {
            if n == 0 {
                assert(whole[n] == own);
                assert(t.reaches(x, x));
            } else {
                assert(whole[n] == below[n - 1]);
                lemma_children_lines_nodes(t, x, deeper(depth), (budget - 1) as nat, width);
            }
        }
        if from != k {
            lemma_children_apart(t, i, k, from, t.selected as int);
        }
        if n > 0 {
            assert(whole[n] == below[n - 1]);
            assert(below[n - 1].node == t.selected);
        } else {
            assert(whole[n] == own);
        }
    } else {
        assert(whole[n] == rest[n - 1 - below.len()]);
        assert(rest[n - 1 - below.len()].node == t.selected);
        lemma_drawn_in_window(t, i, from + 1, start, end, depth, left, width, k);
    }
}

/// If one of the lines below node `i` stands for the selected node, the
/// walk comes to the selected node with a line left.
pub proof fn lemma_drawn_then_comes(t: TreeView, i: int, depth: int, budget: nat, width: nat)
    requires
        t.wf(),
        0 <= i < t.nodes.len(),
        i != t.selected,
        draws(t.children_lines(i, depth, budget, width), t.selected),
    ensures
        t.comes_to_selected(i, depth, budget, width),
    decreases t.nodes.len() - i,
{
    let whole = t.children_lines(i, depth, budget, width);
    let n = choose|n: int| 0 <= n < whole.len() && (#[trigger] whole[n]).node == t.selected;
    lemma_children_lines_nodes(t, i, depth, budget, width);
    assert(t.reaches(i, whole[n].node as int));
    lemma_step_toward(t, i, t.selected as int);
    let c = t.toward_selected(i)->0;
    lemma_first_position(t.nodes[i].children, c as usize);
    assert(t.node_wf(i));
    let count = t.nodes[i].children.len() as int;
    let w = TreeView::window_width(budget, width);
    let k = t.focus(i);
    let start = window_start(k, w);
    let end = window_end(start, w, count);
    assert(t.nodes[i].children[k] == c);
    lemma_drawn_in_window(t, i, start, start, end, depth, budget, width, k);
    let left = t.left_at(i, start, k, depth, budget, width);
    if c != t.selected {
        lemma_drawn_then_comes(t, c, deeper(depth), (left - 1) as nat, width);
    }
    assert(t.comes_to_selected(c, deeper(depth), (left - 1) as nat, width));
}

/// The sizes of the subtrees of the first children add up to no more than
/// those of more children.
pub proof fn lemma_sum_below_grows(t: TreeView, i: int, a: int, b: int)
    requires
        t.links_wf(),
        0 <= i < t.nodes.len(),
        0 <= a <= b <= t.nodes[i].children.len(),
    ensures
        t.sum_below(i, a) <= t.sum_below(i, b),
        a < b ==> t.sum_below(i, a) + t.subtree_size(t.nodes[i].children[a] as int) <= t.sum_below(
            i,
            b,
        ),
    decreases b - a,
{
    if a < b {
        assert(t.node_wf(i));
        lemma_subtree_count(t, t.nodes[i].children[b - 1] as int);
        lemma_sum_below_grows(t, i, a, b - 1);
    }
}

/// The lines below a node are fewer than the nodes of its subtree.
pub proof fn lemma_children_lines_fit(t: TreeView, i: int, depth: int, budget: nat, width: nat)
    requires
        t.links_wf(),
        0 <= i < t.nodes.len(),
    ensures
        t.children_lines(i, depth, budget, width).len() + 1 <= t.subtree_size(i),
    decreases t.nodes.len() - i, t.nodes[i].children.len() + 1,
{
    let count = t.nodes[i].children.len() as int;
    lemma_subtree_count(t, i);
    if !t.pruned(i, budget) {
        let w = TreeView::window_width(budget, width);
        let start = window_start(t.focus(i), w);
        let end = window_end(start, w, count);
        if 0 <= start <= end <= count {
            lemma_lines_in_fit(t, i, start, start, end, depth, budget, width);
            lemma_sum_below_grows(t, i, end, count);
        }
    }
}

/// The lines of the children of a node from position `k` on are no more
/// than the nodes in the subtrees of these children.
pub proof fn lemma_lines_in_fit(
    t: TreeView,
    i: int,
    k: int,
    start: int,
    end: int,
    depth: int,
    budget: nat,
    width: nat,
)
    requires
        t.links_wf(),
        0 <= i < t.nodes.len(),
        0 <= start <= k <= end <= t.nodes[i].children.len(),
    ensures
        t.lines_in(i, k, start, end, depth, budget, width).len() + t.sum_below(i, k) <= t.sum_below(
            i,
            end,
        ),
    decreases t.nodes.len() - i, end - k,
{
    if k < end && budget > 0 {
        assert(t.node_wf(i));
        let c = t.nodes[i].children[k] as int;
        let below = t.children_lines(c, deeper(depth), (budget - 1) as nat, width);
        lemma_children_lines_len(t, c, deeper(depth), (budget - 1) as nat, width);
        lemma_children_lines_fit(t, c, deeper(depth), (budget - 1) as nat, width);
        let left = (budget - 1 - below.len()) as nat;
        lemma_lines_in_fit(t, i, k + 1, start, end, depth, left, width);
        lemma_sum_below_grows(t, i, k, k + 1);
    } else {
        lemma_sum_below_grows(t, i, k, end);
    }
}

/// The children before position `k` take no more lines than there are
/// nodes in their subtrees.
pub proof fn lemma_left_at_fit(t: TreeView, i: int, from: int, k: int, depth: int, budget: nat, width: nat)
    requires
        t.links_wf(),
        0 <= i < t.nodes.len(),
        0 <= from <= k <= t.nodes[i].children.len(),
    ensures
        budget + t.sum_below(i, from) <= t.left_at(i, from, k, depth, budget, width) + t.sum_below(
            i,
            k,
        ),
    decreases k - from,
{
    if from < k && budget > 0 {
        assert(t.node_wf(i));
        let c = t.nodes[i].children[from] as int;
        let below = t.children_lines(c, deeper(depth), (budget - 1) as nat, width);
        lemma_children_lines_len(t, c, deeper(depth), (budget - 1) as nat, width);
        lemma_children_lines_fit(t, c, deeper(depth), (budget - 1) as nat, width);
        let left = (budget - 1 - below.len()) as nat;
        lemma_left_at_fit(t, i, from + 1, k, depth, left, width);
        lemma_sum_below_grows(t, i, from, from + 1);
    } else {
        lemma_sum_below_grows(t, i, from, k);
    }
}

/// With a line for every node that hangs below node `i`, the walk comes to
/// a selected node at or below `i`.
pub proof fn lemma_roomy_comes(t: TreeView, i: int, depth: int, budget: nat, width: nat)
    requires
        t.wf(),
        0 <= i < t.nodes.len(),
        t.reaches(i, t.selected as int),
        width >= 1,
        budget + 1 >= t.subtree_size(i),
    ensures
        t.comes_to_selected(i, depth, budget, width),
    decreases t.nodes.len() - i,
{
    if i != t.selected {
        lemma_step_toward(t, i, t.selected as int);
        let c = t.toward_selected(i)->0;
        lemma_first_position(t.nodes[i].children, c as usize);
        assert(t.node_wf(i));
        let count = t.nodes[i].children.len() as int;
        let w = TreeView::window_width(budget, width);
        let k = t.focus(i);
        let start = window_start(k, w);
        let end = window_end(start, w, count);
        let left = t.left_at(i, start, k, depth, budget, width);
        assert(t.nodes[i].children[k] == c);
        lemma_subtree_count(t, i);
        lemma_subtree_count(t, c);
        lemma_sum_below_grows(t, i, k, count);
        lemma_sum_below_grows(t, i, 0, start);
        lemma_left_at_fit(t, i, start, k, depth, budget, width);
        lemma_roomy_comes(t, c, deeper(depth), (left - 1) as nat, width);
    }
}

/// A budget of as many lines as the tree has nodes always shows the
/// selected node, whatever the windows leave out, as long as a window
/// holds a sibling at all.
pub proof fn lemma_roomy_budget_shows_selected(t: TreeView, budget: nat, width: nat)
    requires
        t.wf(),
        width >= 1,
        budget >= t.subtree_size(0),
    ensures
        t.shows_selected(budget, width),
        draws(t.lines(budget, width), t.selected),
{
    lemma_subtree_count(t, 0);
    crate::subtree::lemma_attached_below_root(t, t.selected as int);
    lemma_roomy_comes(t, 0, 1, (budget - 1) as nat, width);
    lemma_selected_drawn(t, budget, width);
}

/// The selected node is drawn exactly if the budget leaves a line for it:
/// one of the lines stands for the selected node if and only if
/// `shows_selected` holds. The line that stands for the selected node, and
/// no other, is highlighted.
pub proof fn lemma_selected_drawn(t: TreeView, budget: nat, width: nat)
    requires
        t.wf(),
    ensures
        t.shows_selected(budget, width) <==> draws(t.lines(budget, width), t.selected),
        forall|n: int|
            0 <= n < t.lines(budget, width).len() ==> ((#[trigger] t.lines(
                budget,
                width,
            )[n]).highlight <==> t.lines(budget, width)[n].node == t.selected),
{
    let lines = t.lines(budget, width);
    assert(t.node_wf(0));
    if budget > 0 {
        let left = (budget - 1) as nat;
        let below = t.children_lines(0, 1, left, width);
        lemma_children_lines_nodes(t, 0, 1, left, width);
        assert forall|n: int| 0 <= n < lines.len() implies ((#[trigger] lines[n]).highlight
            <==> lines[n].node == t.selected) by {
            if n > 0 {
                assert(lines[n] == below[n - 1]);
            }
        }
        if t.selected == 0 {
            assert(lines[0].node == t.selected);
        } else {
            if t.shows_selected(budget, width) {
                lemma_comes_then_drawn(t, 0, 1, left, width);
                let m = choose|m: int| 0 <= m < below.len() && (#[trigger] below[m]).node == t.selected;
                assert(lines[m + 1] == below[m]);
            }
            if draws(lines, t.selected) {
                let n = choose|n: int| 0 <= n < lines.len() && (#[trigger] lines[n]).node == t.selected;
                assert(n > 0);
                assert(lines[n] == below[n - 1]);
                assert(below[n - 1].node == t.selected);
                lemma_drawn_then_comes(t, 0, 1, left, width);
            }
        }
    }
}

} // verus!
