//! The viewport: which nodes of the tree are drawn, line by line, when the
//! terminal has room for only so many lines.
//!
//! The tree is walked depth first, a node before its children, and every
//! line that is drawn takes one from the budget. A directory that does not
//! hold the selection and whose subtree would use up the budget is drawn
//! without what is below it. Of the children of a directory only a window
//! is drawn, placed so that the child towards the selection is in it.

use vstd::prelude::*;
use vstd::string::StringExecFns;
use crate::arenatree::ArenaTree;
use crate::arenatree::NodeView;
use crate::arenatree::TreeView;
use crate::arenatree::first_position;
use crate::arenatree::lemma_first_position;
use crate::subtree::lemma_reaches_order;

verus! {

/// What a line shows in place of its last connector.
#[derive(Clone, Copy, PartialEq, Eq, Structural, Debug)]
pub enum Marker {
    /// The plain connector.
    Plain,
    /// Siblings above this line were left out.
    MoreAbove,
    /// Siblings below this line were left out.
    MoreBelow,
}

/// One line to draw.
#[derive(Debug)]
pub struct Line {
    /// The node that the line stands for.
    pub node: usize,
    /// How deep the node hangs below the root.
    pub depth: usize,
    /// The name of the node, with a trailing separator for a directory.
    pub label: String,
    pub is_dir: bool,
    /// Whether the line stands for the selected node.
    pub highlight: bool,
    pub marker: Marker,
}

/// The mathematical content of a [`Line`].
pub struct LineView {
    pub node: usize,
    pub depth: usize,
    pub label: Seq<char>,
    pub is_dir: bool,
    pub highlight: bool,
    pub marker: Marker,
}

impl View for Line {
    type V = LineView;

    open spec fn view(&self) -> LineView {
        LineView {
            node: self.node,
            depth: self.depth,
            label: self.label@,
            is_dir: self.is_dir,
            highlight: self.highlight,
            marker: self.marker,
        }
    }
}

/// The views of a sequence of lines, position by position.
pub open spec fn line_views(s: Seq<Line>) -> Seq<LineView> {
    s.map_values(|l: Line| l@)
}

/// The label of a node: its name, and a separator behind it for a
/// directory.
pub open spec fn label_of(n: NodeView) -> Seq<char> {
    if n.is_dir {
        n.name + seq!['/']
    } else {
        n.name
    }
}

/// The depth of what hangs right below `depth`: one more, as far as the
/// machine can count.
pub open spec fn deeper(depth: int) -> int {
    if depth < usize::MAX {
        depth + 1
    } else {
        depth
    }
}

/// What each level of depth puts in front of a label.
pub const PADDING: &'static str = "│  ";

/// What the last level puts there on a line above which siblings were left
/// out.
pub const PADDING_MORE_UP: &'static str = "▲  ";

/// What the last level puts there on a line below which siblings were left
/// out.
pub const PADDING_MORE_DOWN: &'static str = "▼  ";

/// `token` written `n` times in a row.
pub open spec fn repeated(token: Seq<char>, n: nat) -> Seq<char>
    decreases n,
{
    if n == 0 {
        Seq::empty()
    } else {
        repeated(token, (n - 1) as nat) + token
    }
}

/// What stands in front of the label of a line at `depth`: one connector
/// for each level, the last of them replaced by the marker of the line.
pub open spec fn indent_of(depth: nat, marker: Marker) -> Seq<char> {
    let above: nat = if depth > 0 {
        (depth - 1) as nat
    } else {
        0
    };
    match marker {
        Marker::Plain => repeated(PADDING@, depth),
        Marker::MoreAbove => repeated(PADDING@, above) + PADDING_MORE_UP@,
        Marker::MoreBelow => repeated(PADDING@, above) + PADDING_MORE_DOWN@,
    }
}

/// What stands in front of the label of a line at `depth` with `marker`.
pub fn indent(depth: usize, marker: Marker) -> (s: String)
    ensures
        s@ == indent_of(depth as nat, marker),
{
    let plain: usize = match marker {
        Marker::Plain => depth,
        _ => if depth > 0 {
            depth - 1
        } else {
            0
        },
    };
    let mut s = String::new();
    let mut n: usize = 0;
    while n < plain
        invariant
            n <= plain,
            s@ == repeated(PADDING@, n as nat),
        decreases plain - n,
    {
        s.append(PADDING);
        n += 1;
    }
    match marker {
        Marker::Plain => {},
        Marker::MoreAbove => {
            s.append(PADDING_MORE_UP);
        },
        Marker::MoreBelow => {
            s.append(PADDING_MORE_DOWN);
        },
    }
    s
}

impl Line {
    /// The text of the line: what stands in front of the label, and the
    /// label.
    pub open spec fn spec_text(self) -> Seq<char> {
        indent_of(self.depth as nat, self.marker) + self.label@
    }

    /// The text of the line.
    pub fn text(&self) -> (s: String)
        ensures
            s@ == self.spec_text(),
    {
        let mut s = indent(self.depth, self.marker);
        s.append(self.label.as_str());
        s
    }
}

/// Where a window of `width` siblings starts so that the sibling at `focus`
/// is in it: at the first sibling as long as that shows the focus, else so
/// that the focus is the last in the window.
pub open spec fn window_start(focus: int, width: int) -> int {
    if 0 < width <= focus {
        focus - width + 1
    } else {
        0
    }
}

/// Where a window of `width` siblings that starts at `start` ends, among
/// `count` siblings: one behind its last sibling.
pub open spec fn window_end(start: int, width: int, count: int) -> int {
    if start + width < count {
        start + width
    } else {
        count
    }
}

/// The marker of the sibling at `k` in the window from `start` to `end` of
/// `count` siblings: the first line tells of siblings left out above, the
/// last of siblings left out below, and the first wins where both are one.
pub open spec fn marker_at(k: int, start: int, end: int, count: int) -> Marker {
    if k == start && start > 0 {
        Marker::MoreAbove
    } else if k == end - 1 && end < count {
        Marker::MoreBelow
    } else {
        Marker::Plain
    }
}

impl TreeView {
    /// Going up from node `j`, the node whose parent is `i`.
    pub open spec fn step_toward(self, i: int, j: int) -> Option<int>
        decreases j,
    {
        if j <= i || j <= 0 || j >= self.nodes.len() {
            None
        } else {
            match self.nodes[j].parent {
                Some(p) => if p == i {
                    Some(j)
                } else if p < j {
                    self.step_toward(i, p as int)
                } else {
                    None
                },
                None => None,
            }
        }
    }

    /// The child of node `i` at or below which the selected node hangs.
    pub open spec fn toward_selected(self, i: int) -> Option<int> {
        self.step_toward(i, self.selected as int)
    }

    /// The position among the children of node `i` that its window has to
    /// show: that of the child towards the selection, or the first.
    pub open spec fn focus(self, i: int) -> int {
        match self.toward_selected(i) {
            Some(c) => match first_position(self.nodes[i].children, c as usize) {
                Some(k) => k,
                None => 0,
            },
            None => 0,
        }
    }

    /// Whether directory `i` is drawn without what is below it when `budget`
    /// lines are left behind its own: its subtree would use them up, and
    /// the selected node is not in it.
    pub open spec fn pruned(self, i: int, budget: nat) -> bool {
        self.subtree_size(i) >= budget && !self.reaches(i, self.selected as int)
    }

    /// How many children of node `i` its window shows at most, with `budget`
    /// lines left and at most `width` siblings to a window.
    pub open spec fn window_width(budget: nat, width: nat) -> int {
        if width < budget {
            width as int
        } else {
            budget as int
        }
    }

    /// The line that stands for node `i`.
    pub open spec fn line_of(self, i: int, depth: int, marker: Marker) -> LineView {
        LineView {
            node: i as usize,
            depth: depth as usize,
            label: label_of(self.nodes[i]),
            is_dir: self.nodes[i].is_dir,
            highlight: i == self.selected,
            marker,
        }
    }

    /// The lines below node `i`, whose children hang at `depth`, with
    /// `budget` lines left: none if the node is pruned, else those of the
    /// children in its window.
    pub open spec fn children_lines(self, i: int, depth: int, budget: nat, width: nat) -> Seq<
        LineView,
    >
        decreases self.nodes.len() - i, self.nodes[i].children.len() + 1,
    {
        if i < 0 || i >= self.nodes.len() || self.pruned(i, budget) {
            Seq::empty()
        } else {
            let count = self.nodes[i].children.len() as int;
            let w = Self::window_width(budget, width);
            let start = window_start(self.focus(i), w);
            let end = window_end(start, w, count);
            if 0 <= start <= end <= count {
                self.lines_in(i, start, start, end, depth, budget, width)
            } else {
                Seq::empty()
            }
        }
    }

    /// The lines of the children of node `i` from position `k` to the end of
    /// the window: each child's own line, then what is below that child,
    /// as long as lines are left.
    pub open spec fn lines_in(
        self,
        i: int,
        k: int,
        start: int,
        end: int,
        depth: int,
        budget: nat,
        width: nat,
    ) -> Seq<LineView>
        decreases self.nodes.len() - i, end - k,
    {
        if k < start || k >= end || end > self.nodes[i].children.len() || budget == 0 || i < 0 {
            Seq::empty()
        } else {
            let c = self.nodes[i].children[k] as int;
            if i < c < self.nodes.len() {
                let count = self.nodes[i].children.len() as int;
                let own = self.line_of(c, depth, marker_at(k, start, end, count));
                let below = self.children_lines(c, deeper(depth), (budget - 1) as nat, width);
                let left = (budget - 1 - below.len()) as nat;
                seq![own] + below + self.lines_in(i, k + 1, start, end, depth, left, width)
            } else {
                Seq::empty()
            }
        }
    }

    /// The lines of the whole tree for a budget of `budget` lines and
    /// windows of at most `width` siblings: the root, then what is below it.
    pub open spec fn lines(self, budget: nat, width: nat) -> Seq<LineView> {
        if budget == 0 {
            Seq::empty()
        } else {
            seq![self.line_of(0, 0, Marker::Plain)] + self.children_lines(
                0,
                1,
                (budget - 1) as nat,
                width,
            )
        }
    }
}

/// The lines below a node are no more than the budget allows.
pub proof fn lemma_children_lines_len(t: TreeView, i: int, depth: int, budget: nat, width: nat)
    ensures
        t.children_lines(i, depth, budget, width).len() <= budget,
    decreases t.nodes.len() - i, t.nodes[i].children.len() + 1,
{
    if !(i < 0 || i >= t.nodes.len() || t.pruned(i, budget)) {
        let count = t.nodes[i].children.len() as int;
        let w = TreeView::window_width(budget, width);
        let start = window_start(t.focus(i), w);
        let end = window_end(start, w, count);
        if 0 <= start <= end <= count {
            lemma_lines_in_len(t, i, start, start, end, depth, budget, width);
        }
    }
}

/// The lines of the children in a window are no more than the budget
/// allows.
pub proof fn lemma_lines_in_len(
    t: TreeView,
    i: int,
    k: int,
    start: int,
    end: int,
    depth: int,
    budget: nat,
    width: nat,
)
    ensures
        t.lines_in(i, k, start, end, depth, budget, width).len() <= budget,
    decreases t.nodes.len() - i, end - k,
{
    if !(k < start || k >= end || end > t.nodes[i].children.len() || budget == 0 || i < 0) {
        let c = t.nodes[i].children[k] as int;
        if i < c < t.nodes.len() {
            let below = t.children_lines(c, deeper(depth), (budget - 1) as nat, width);
            lemma_children_lines_len(t, c, deeper(depth), (budget - 1) as nat, width);
            let left = (budget - 1 - below.len()) as nat;
            lemma_lines_in_len(t, i, k + 1, start, end, depth, left, width);
        }
    }
}

/// The lines of a tree are never more than the budget.
pub proof fn lemma_lines_within_budget(t: TreeView, budget: nat, width: nat)
    ensures
        t.lines(budget, width).len() <= budget,
{
    if budget > 0 {
        lemma_children_lines_len(t, 0, 1, (budget - 1) as nat, width);
    }
}

/// On the way up from a node that hangs in the tree, the node whose parent
/// is `i` is a child of `i` above that node; and there is one exactly if
/// the node hangs strictly below `i`.
pub proof fn lemma_step_toward(t: TreeView, i: int, j: int)
    requires
        t.links_wf(),
        0 <= i < t.nodes.len(),
        t.attached(j),
    ensures
        t.reaches(i, j) <==> (i == j || t.step_toward(i, j) is Some),
        t.step_toward(i, j) matches Some(c) ==> i < c <= j && t.nodes[i].children.contains(
            c as usize,
        ) && t.reaches(c, j),
    decreases j,
{
    if j > i {
        assert(t.node_wf(j));
        let p = t.nodes[j].parent->0 as int;
        if p != i {
            lemma_step_toward(t, i, p);
        } else {
            assert(t.reaches(i, i));
            assert(t.reaches(j, j));
        }
    } else if j < i {
        if t.reaches(i, j) {
            lemma_reaches_order(t, i, j);
        }
    }
}

impl ArenaTree {
    /// The child of node `i` at or below which the selected node hangs, if
    /// the selected node hangs strictly below `i`.
    pub fn toward_current(&self, i: usize) -> (r: Option<usize>)
        requires
            self@.wf(),
        ensures
            match r {
                Some(c) => self@.toward_selected(i as int) == Some(c as int),
                None => self@.toward_selected(i as int) is None,
            },
    {
        let mut j: usize = self.current;
        while j > i
            invariant
                self@.wf(),
                j < self@.nodes.len(),
                self@.toward_selected(i as int) == self@.step_toward(i as int, j as int),
            decreases j,
        {
            proof {
                assert(self@.node_wf(j as int));
            }
            match self.arena[j].parent {
                Some(p) => {
                    if p == i {
                        return Some(j);
                    }
                    j = p;
                },
                None => {
                    return None;
                },
            }
        }
        None
    }

    /// The line that stands for node `idx`, drawn at `depth` with `marker`.
    pub fn render_node(&self, idx: usize, depth: usize, marker: Marker) -> (line: Line)
        requires
            idx < self@.nodes.len(),
        ensures
            line@ == self@.line_of(idx as int, depth as int, marker),
    {
        let node = &self.arena[idx];
        let mut label = node.name.clone();
        if node.is_dir {
            proof {
                reveal_strlit("/");
                assert("/"@ =~= seq!['/']);
            }
            label.append("/");
        }
        Line {
            node: idx,
            depth,
            label,
            is_dir: node.is_dir,
            highlight: idx == self.current,
            marker,
        }
    }

    /// Appends to `out` the lines below node `idx`, whose children hang at
    /// `depth`, and returns how many lines of `budget` are left: it appends
    /// no more than `budget` lines.
    pub fn render_children(
        &self,
        idx: usize,
        depth: usize,
        budget: usize,
        width: usize,
        out: &mut Vec<Line>,
    ) -> (left: usize)
        requires
            self@.wf(),
            idx < self@.nodes.len(),
        ensures
            line_views(final(out)@) == line_views(old(out)@) + self@.children_lines(
                idx as int,
                depth as int,
                budget as nat,
                width as nat,
            ),
            left + self@.children_lines(idx as int, depth as int, budget as nat, width as nat).len()
                == budget,
            final(out)@.len() <= old(out)@.len() + budget,
        decreases self@.nodes.len() - idx,
    {
        let ghost t = self@;
        let ghost before = line_views(out@);
        let total = self.arena.len();
        let count = self.arena[idx].children.len();
        proof {
            assert(t.node_wf(idx as int));
            lemma_step_toward(t, idx as int, t.selected as int);
            assert(before + Seq::<LineView>::empty() =~= before);
        }
        let toward = self.toward_current(idx);
        if toward.is_none() && idx != self.current {
            let size = self.subtree_size(idx);
            if size >= budget {
                return budget;
            }
        }
        let focus: usize = match toward {
            Some(c) => {
                proof {
                    lemma_first_position(t.nodes[idx as int].children, c);
                }
                match self.arena[idx].position_of(c) {
                    Some(k) => k,
                    None => 0,
                }
            },
            None => 0,
        };
        let w: usize = if width < budget {
            width
        } else {
            budget
        };
        let (start, end) = sibling_window(count, focus, w);
        let mut k: usize = start;
        let mut left: usize = budget;
        proof {
            assert(line_views(out@) =~= before + Seq::<LineView>::empty());
        }
        while k < end && left > 0
            invariant
                t == self@,
                t.wf(),
                idx < t.nodes.len(),
                total == t.nodes.len(),
                count == t.nodes[idx as int].children.len(),
                start <= k <= end <= count,
                left <= budget,
                !t.pruned(idx as int, budget as nat),
                w == TreeView::window_width(budget as nat, width as nat),
                start == window_start(t.focus(idx as int), w as int),
                end == window_end(start as int, w as int, count as int),
                line_views(out@) + t.lines_in(
                    idx as int,
                    k as int,
                    start as int,
                    end as int,
                    depth as int,
                    left as nat,
                    width as nat,
                ) == before + t.children_lines(
                    idx as int,
                    depth as int,
                    budget as nat,
                    width as nat,
                ),
                left - t.lines_in(
                    idx as int,
                    k as int,
                    start as int,
                    end as int,
                    depth as int,
                    left as nat,
                    width as nat,
                ).len() == budget - t.children_lines(
                    idx as int,
                    depth as int,
                    budget as nat,
                    width as nat,
                ).len(),
            decreases end - k,
        {
            proof {
                assert(t.node_wf(idx as int));
                assert(self.arena@[idx as int]@ == t.nodes[idx as int]);
            }
            let ghost shown = line_views(out@);
            let c = self.arena[idx].children[k];
            proof {
                assert(c == t.nodes[idx as int].children[k as int]);
            }
            let marker = window_marker(k, start, end, count);
            let line = self.render_node(c, depth, marker);
            out.push(line);
            let ghost own = t.line_of(c as int, depth as int, marker);
            let ghost below = t.children_lines(
                c as int,
                deeper(depth as int),
                (left - 1) as nat,
                width as nat,
            );
            proof {
                assert(line_views(out@) =~= shown.push(own));
                lemma_children_lines_len(
                    t,
                    c as int,
                    deeper(depth as int),
                    (left - 1) as nat,
                    width as nat,
                );
            }
            let below_depth: usize = if depth < usize::MAX {
                depth + 1
            } else {
                depth
            };
            let rest = self.render_children(c, below_depth, left - 1, width, out);
            proof {
                let tail = t.lines_in(
                    idx as int,
                    k + 1,
                    start as int,
                    end as int,
                    depth as int,
                    rest as nat,
                    width as nat,
                );
                assert(shown.push(own) + below + tail =~= shown + (seq![own] + below + tail));
            }
            left = rest;
            k += 1;
        }
        proof {
            assert(t.lines_in(
                idx as int,
                k as int,
                start as int,
                end as int,
                depth as int,
                left as nat,
                width as nat,
            ) =~= Seq::<LineView>::empty());
            assert(line_views(out@) =~= line_views(out@) + Seq::<LineView>::empty());
        }
        left
    }

    /// The lines to draw for a budget of `budget` lines and windows of at
    /// most `width` siblings. They are never more than `budget`.
    pub fn render(&self, budget: usize, width: usize) -> (lines: Vec<Line>)
        requires
            self@.wf(),
        ensures
            line_views(lines@) == self@.lines(budget as nat, width as nat),
            lines@.len() <= budget,
    {
        let mut out: Vec<Line> = Vec::new();
        proof {
            lemma_lines_within_budget(self@, budget as nat, width as nat);
        }
        if budget == 0 {
            proof {
                assert(line_views(out@) =~= Seq::<LineView>::empty());
            }
            return out;
        }
        let root = self.render_node(0, 0, Marker::Plain);
        out.push(root);
        proof {
            assert(line_views(out@) =~= seq![self@.line_of(0, 0, Marker::Plain)]);
        }
        self.render_children(0, 1, budget - 1, width, &mut out);
        out
    }
}

/// A window that may hold a sibling at all holds the focus: it has as many
/// siblings as its width allows and there are, and where it cannot start at
/// the first sibling the focus is its last.
pub proof fn lemma_window_holds_focus(count: int, focus: int, width: int)
    requires
        0 <= focus < count,
        1 <= width,
    ensures
        ({
            let start = window_start(focus, width);
            let end = window_end(start, width, count);
            &&& 0 <= start <= focus < end <= count
            &&& end - start == if width < count {
                width
            } else {
                count
            }
            &&& (start > 0 ==> focus == end - 1)
        }),
{
}

/// The window of siblings to draw: `(start, end)` for `count` siblings,
/// the focus at position `focus`, and at most `width` siblings in the
/// window.
pub fn sibling_window(count: usize, focus: usize, width: usize) -> (w: (usize, usize))
    ensures
        w.0 == window_start(focus as int, width as int),
        w.1 == window_end(w.0 as int, width as int, count as int),
{
    let start: usize = if 0 < width && width <= focus {
        focus - width + 1
    } else {
        0
    };
    let end: usize = if width < count && start < count - width {
        start + width
    } else {
        count
    };
    (start, end)
}

/// The marker of the sibling at `k` in the window from `start` to `end` of
/// `count` siblings.
pub fn window_marker(k: usize, start: usize, end: usize, count: usize) -> (m: Marker)
    ensures
        m == marker_at(k as int, start as int, end as int, count as int),
{
    if k == start && start > 0 {
        Marker::MoreAbove
    } else if end > 0 && k == end - 1 && end < count {
        Marker::MoreBelow
    } else {
        Marker::Plain
    }
}

} // verus!
