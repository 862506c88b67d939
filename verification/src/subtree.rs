//! What hangs below a node, and how many nodes that is.

use vstd::prelude::*;
use vstd::set_lib::lemma_int_range;
use vstd::set_lib::lemma_len_subset;
use vstd::set_lib::lemma_set_disjoint_lens;
use vstd::set_lib::set_int_range;
use crate::arenatree::ArenaTree;
use crate::arenatree::TreeView;

verus! {

impl TreeView {
    /// Node `j` is node `a` or hangs below it: going from `j` to the parent,
    /// as long as the parent lists the node among its children, comes to `a`.
    pub open spec fn reaches(self, a: int, j: int) -> bool
        decreases j,
    {
        if j == a {
            0 <= a < self.nodes.len()
        } else if j <= 0 || j >= self.nodes.len() {
            false
        } else {
            match self.nodes[j].parent {
                Some(p) => p < j && self.nodes[p as int].children.contains(j as usize)
                    && self.reaches(a, p as int),
                None => false,
            }
        }
    }

    /// The nodes of the subtree of `a`: `a` and all that hangs below it.
    pub open spec fn subtree(self, a: int) -> Set<int> {
        Set::new(|j: int| 0 <= j < self.nodes.len() && self.reaches(a, j))
    }

    /// The number of nodes in the subtree of `a`, `a` included.
    pub open spec fn subtree_size(self, a: int) -> nat {
        self.subtree(a).len()
    }

    /// The nodes that hang at or below one of the first `k` children of `a`.
    pub open spec fn below_first(self, a: int, k: int) -> Set<int> {
        Set::new(
            |j: int|
                0 <= j < self.nodes.len() && exists|m: int|
                    0 <= m < k && m < self.nodes[a].children.len() && #[trigger] self.reaches(
                        self.nodes[a].children[m] as int,
                        j,
                    ),
        )
    }

    /// The sizes of the subtrees of the first `k` children of `a`, added
    /// up child by child.
    pub open spec fn sum_below(self, a: int, k: int) -> nat
        decreases self.nodes.len() - a, k,
    {
        if k <= 0 || a < 0 || a >= self.nodes.len() || k > self.nodes[a].children.len() {
            0
        } else {
            let c = self.nodes[a].children[k - 1] as int;
            let rest = self.sum_below(a, k - 1);
            if a < c < self.nodes.len() {
                rest + 1 + self.sum_below(c, self.nodes[c].children.len() as int)
            } else {
                rest
            }
        }
    }
}

/// What hangs below a node lies behind it in the arena.
pub proof fn lemma_reaches_order(t: TreeView, a: int, j: int)
    requires
        t.reaches(a, j),
    ensures
        0 <= a <= j < t.nodes.len(),
    decreases j,
{
    if j != a {
        lemma_reaches_order(t, a, t.nodes[j].parent->0 as int);
    }
}

/// What hangs in the tree hangs at or below the root.
pub proof fn lemma_attached_below_root(t: TreeView, j: int)
    requires
        t.nodes.len() >= 1,
        t.attached(j),
    ensures
        t.reaches(0, j),
    decreases j,
{
    if j > 0 {
        lemma_attached_below_root(t, t.nodes[j].parent->0 as int);
    }
}

/// A node above one that hangs in the tree hangs in the tree.
pub proof fn lemma_attached_above(t: TreeView, a: int, j: int)
    requires
        t.reaches(a, j),
        t.attached(j),
    ensures
        t.attached(a),
    decreases j,
{
    if j != a {
        lemma_attached_above(t, a, t.nodes[j].parent->0 as int);
    }
}

/// What hangs below a child hangs below its parent.
pub proof fn lemma_reaches_from_child(t: TreeView, a: int, m: int, j: int)
    requires
        t.links_wf(),
        0 <= a < t.nodes.len(),
        0 <= m < t.nodes[a].children.len(),
        t.reaches(t.nodes[a].children[m] as int, j),
    ensures
        t.reaches(a, j),
    decreases j,
{
    let c = t.nodes[a].children[m] as int;
    assert(t.node_wf(a));
    lemma_reaches_order(t, c, j);
    if j != c {
        let p = t.nodes[j].parent->0 as int;
        lemma_reaches_from_child(t, a, m, p);
        assert(t.reaches(a, p));
        assert(j != a);
        assert(t.reaches(a, j));
    } else {
        assert(t.nodes[a].children[m] == c as usize);
        assert(t.nodes[a].children.contains(c as usize));
        assert(t.nodes[c].parent == Some(a as usize));
        assert(a < c);
        assert(t.reaches(a, a));
        assert(t.reaches(a, c));
    }
}

/// What hangs strictly below a node hangs at or below one of its children.
pub proof fn lemma_reaches_via_child(t: TreeView, a: int, j: int) -> (m: int)
    requires
        t.links_wf(),
        t.reaches(a, j),
        j != a,
    ensures
        0 <= m < t.nodes[a].children.len(),
        t.reaches(t.nodes[a].children[m] as int, j),
    decreases j,
{
    lemma_reaches_order(t, a, j);
    assert(t.node_wf(j));
    let p = t.nodes[j].parent->0 as int;
    if p == a {
        let m = choose|m: int|
            0 <= m < t.nodes[a].children.len() && t.nodes[a].children[m] == t.nodes[j].idx;
        m
    } else {
        lemma_reaches_via_child(t, a, p)
    }
}

/// The subtrees of two children of one node have no node in common.
pub proof fn lemma_children_apart(t: TreeView, a: int, m1: int, m2: int, j: int)
    requires
        t.links_wf(),
        0 <= a < t.nodes.len(),
        0 <= m1 < t.nodes[a].children.len(),
        0 <= m2 < t.nodes[a].children.len(),
        m1 != m2,
        t.reaches(t.nodes[a].children[m1] as int, j),
    ensures
        !t.reaches(t.nodes[a].children[m2] as int, j),
    decreases j,
{
    let c1 = t.nodes[a].children[m1] as int;
    let c2 = t.nodes[a].children[m2] as int;
    assert(t.node_wf(a));
    assert(c1 != c2);
    if t.reaches(c2, j) {
        if j == c1 {
            lemma_reaches_order(t, c2, a);
        } else if j == c2 {
            lemma_reaches_order(t, c1, a);
        } else {
            lemma_children_apart(t, a, m1, m2, t.nodes[j].parent->0 as int);
        }
    }
}

/// The subtree of a node is the node and what hangs at or below its
/// children.
pub proof fn lemma_subtree_split(t: TreeView, a: int)
    requires
        t.links_wf(),
        0 <= a < t.nodes.len(),
    ensures
        t.subtree(a) == t.below_first(a, t.nodes[a].children.len() as int).insert(a),
        !t.below_first(a, t.nodes[a].children.len() as int).contains(a),
{
    let n = t.nodes[a].children.len() as int;
    let b = t.below_first(a, n);
    assert(t.node_wf(a));
    assert forall|j: int| t.subtree(a).contains(j) implies #[trigger] b.insert(a).contains(j) by {
        if j != a {
            let m = lemma_reaches_via_child(t, a, j);
            assert(t.reaches(t.nodes[a].children[m] as int, j));
        }
    }
    assert forall|j: int| #[trigger] b.insert(a).contains(j) implies t.subtree(a).contains(j) by {
        if j != a {
            let m = choose|m: int|
                0 <= m < n && m < t.nodes[a].children.len() && #[trigger] t.reaches(
                    t.nodes[a].children[m] as int,
                    j,
                );
            lemma_reaches_from_child(t, a, m, j);
        }
    }
    assert(t.subtree(a) =~= b.insert(a));
    if b.contains(a) {
        let m = choose|m: int|
            0 <= m < n && m < t.nodes[a].children.len() && #[trigger] t.reaches(
                t.nodes[a].children[m] as int,
                a,
            );
        lemma_reaches_order(t, t.nodes[a].children[m] as int, a);
    }
}

/// What hangs at or below the first `k` children of a node is finite, lies
/// behind the node, and is as many nodes as `sum_below` adds up.
pub proof fn lemma_below_first_count(t: TreeView, a: int, k: int)
    requires
        t.links_wf(),
        0 <= a < t.nodes.len(),
        0 <= k <= t.nodes[a].children.len(),
    ensures
        t.below_first(a, k).finite(),
        t.below_first(a, k).len() == t.sum_below(a, k),
        t.below_first(a, k).subset_of(set_int_range(a + 1, t.nodes.len() as int)),
        1 + t.sum_below(a, k) <= t.nodes.len() - a,
    decreases t.nodes.len() - a, k,
{
    let len = t.nodes.len() as int;
    let b = t.below_first(a, k);
    assert(t.node_wf(a));
    lemma_int_range(a + 1, len);
    assert forall|j: int| b.contains(j) implies set_int_range(a + 1, len).contains(j) by {
        let m = choose|m: int|
            0 <= m < k && m < t.nodes[a].children.len() && #[trigger] t.reaches(
                t.nodes[a].children[m] as int,
                j,
            );
        lemma_reaches_order(t, t.nodes[a].children[m] as int, j);
    }
    lemma_len_subset(b, set_int_range(a + 1, len));
    if k == 0 {
        assert(b =~= Set::<int>::empty());
    } else {
        let c = t.nodes[a].children[k - 1] as int;
        let prev = t.below_first(a, k - 1);
        lemma_below_first_count(t, a, k - 1);
        lemma_subtree_count(t, c);
        assert forall|j: int| prev.contains(j) implies !t.subtree(c).contains(j) by {
            let m = choose|m: int|
                0 <= m < k - 1 && m < t.nodes[a].children.len() && #[trigger] t.reaches(
                    t.nodes[a].children[m] as int,
                    j,
                );
            lemma_children_apart(t, a, m, k - 1, j);
        }
        assert(prev.disjoint(t.subtree(c)));
        assert forall|j: int| b.contains(j) implies #[trigger] (prev + t.subtree(c)).contains(j) by {
            let m = choose|m: int|
                0 <= m < k && m < t.nodes[a].children.len() && #[trigger] t.reaches(
                    t.nodes[a].children[m] as int,
                    j,
                );
            if m < k - 1 {
                assert(prev.contains(j));
            }
        }
        assert forall|j: int| #[trigger] (prev + t.subtree(c)).contains(j) implies b.contains(j) by {
            if prev.contains(j) {
                let m = choose|m: int|
                    0 <= m < k - 1 && m < t.nodes[a].children.len() && #[trigger] t.reaches(
                        t.nodes[a].children[m] as int,
                        j,
                    );
                assert(t.reaches(t.nodes[a].children[m] as int, j));
            } else {
                assert(t.reaches(t.nodes[a].children[k - 1] as int, j));
            }
        }
        assert(b =~= prev + t.subtree(c));
        lemma_set_disjoint_lens(prev, t.subtree(c));
    }
}

/// The subtree of a node is finite, lies in the arena from the node on, and
/// has one node more than `sum_below` adds up over all its children.
pub proof fn lemma_subtree_count(t: TreeView, a: int)
    requires
        t.links_wf(),
        0 <= a < t.nodes.len(),
    ensures
        t.subtree(a).finite(),
        t.subtree_size(a) == 1 + t.sum_below(a, t.nodes[a].children.len() as int),
        1 <= t.subtree_size(a) <= t.nodes.len() - a,
    decreases t.nodes.len() - a, t.nodes[a].children.len() + 1,
{
    let n = t.nodes[a].children.len() as int;
    lemma_below_first_count(t, a, n);
    lemma_subtree_split(t, a);
}

impl ArenaTree {
    /// The number of nodes in the subtree of `idx`, `idx` included.
    pub fn subtree_size(&self, idx: usize) -> (n: usize)
        requires
            self@.links_wf(),
            idx < self@.nodes.len(),
        ensures
            n == self@.subtree_size(idx as int),
            1 <= n <= self@.nodes.len() - idx,
        decreases self@.nodes.len() - idx,
    {
        let count = self.arena[idx].children.len();
        let total = self.arena.len();
        let mut n: usize = 1;
        let mut k: usize = 0;
        proof {
            assert(self@.node_wf(idx as int));
        }
        while k < count
            invariant
                self@.links_wf(),
                total == self@.nodes.len(),
                idx < self@.nodes.len(),
                count == self@.nodes[idx as int].children.len(),
                k <= count,
                n == 1 + self@.sum_below(idx as int, k as int),
            decreases count - k,
        {
            proof {
                assert(self@.node_wf(idx as int));
                assert(self.arena@[idx as int]@ == self@.nodes[idx as int]);
            }
            let c = self.arena[idx].children[k];
            proof {
                assert(c == self@.nodes[idx as int].children[k as int]);
                lemma_subtree_count(self@, c as int);
                lemma_below_first_count(self@, idx as int, k + 1);
            }
            let below = self.subtree_size(c);
            proof {
                assert(self@.sum_below(idx as int, k + 1) == self@.sum_below(idx as int, k as int)
                    + 1 + self@.sum_below(c as int, self@.nodes[c as int].children.len() as int));
            }
            n = n + below;
            k += 1;
        }
        proof {
            lemma_subtree_count(self@, idx as int);
        }
        n
    }
}

} // verus!
