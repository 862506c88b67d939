//! Refreshing a directory: a new listing is merged into the children that the
//! directory has, so that what was expanded below a child survives.

use vstd::prelude::*;
use crate::arenatree::ArenaTree;
use crate::arenatree::Node;
use crate::arenatree::NodeView;
use crate::arenatree::TreeError;
use crate::arenatree::TreeView;
use crate::arenatree::fresh_node;
use crate::arenatree::lemma_healed_wf;
use crate::listing::Entry;
use crate::listing::EntryView;
use crate::listing::canonical_order;
use crate::listing::entry_views;
use crate::listing::sort_entries;

verus! {

/// What a merge comes to: the new list of children, and the nodes that it
/// appends to the arena.
pub struct Merge {
    pub children: Seq<usize>,
    pub fresh: Seq<NodeView>,
}

/// The first position at or behind `from` that is not in `used` and whose
/// path is `path`.
pub open spec fn reusable_from(
    paths: Seq<Seq<char>>,
    used: Set<int>,
    path: Seq<char>,
    from: int,
) -> Option<int>
    decreases paths.len() - from,
{
    if from < 0 || from >= paths.len() {
        None
    } else if !used.contains(from) && paths[from] == path {
        Some(from)
    } else {
        reusable_from(paths, used, path, from + 1)
    }
}

/// Merges `entries`, one after the other, into the children `kids`, whose
/// paths are `paths`. An entry takes the first child of its path that no
/// earlier entry took; where there is none it gets a fresh node, and the
/// fresh nodes are numbered from `next` on.
pub open spec fn merge(
    kids: Seq<usize>,
    paths: Seq<Seq<char>>,
    entries: Seq<EntryView>,
    used: Set<int>,
    next: int,
    parent: int,
) -> Merge
    decreases entries.len(),
{
    if entries.len() == 0 {
        Merge { children: Seq::empty(), fresh: Seq::empty() }
    } else {
        match reusable_from(paths, used, entries[0].fullpath, 0) {
            Some(j) => {
                let m = merge(kids, paths, entries.drop_first(), used.insert(j), next, parent);
                Merge { children: seq![kids[j]] + m.children, fresh: m.fresh }
            },
            None => {
                let m = merge(kids, paths, entries.drop_first(), used, next + 1, parent);
                Merge {
                    children: seq![next as usize] + m.children,
                    fresh: seq![fresh_node(entries[0], next, parent)] + m.fresh,
                }
            },
        }
    }
}

impl TreeView {
    /// The paths of the children of node `idx`, in order.
    pub open spec fn child_paths(self, idx: int) -> Seq<Seq<char>> {
        Seq::new(
            self.nodes[idx].children.len(),
            |j: int| self.nodes[self.nodes[idx].children[j] as int].fullpath,
        )
    }

    /// What merging `entries` into the children of node `idx` comes to.
    pub open spec fn merge_at(self, idx: int, entries: Seq<EntryView>) -> Merge {
        merge(
            self.nodes[idx].children,
            self.child_paths(idx),
            entries,
            Set::empty(),
            self.nodes.len() as int,
            idx,
        )
    }

    /// The tree after `entries` were merged into the children of directory
    /// `idx`; the selection is not looked at.
    pub open spec fn merged(self, idx: int, entries: Seq<EntryView>) -> TreeView {
        let m = self.merge_at(idx, entries);
        let dir = NodeView { children: m.children, loaded: true, ..self.nodes[idx] };
        TreeView { nodes: self.nodes.update(idx, dir) + m.fresh, selected: self.selected }
    }

    /// The tree after a successful refresh of directory `idx` from a
    /// listing: the listing in canonical order is merged into its children,
    /// and a selection that this cut off rests on `idx`.
    pub open spec fn refreshed(self, idx: int, listing: Seq<EntryView>) -> TreeView {
        self.merged(idx, canonical_order(listing)).healed(idx)
    }
}

/// What `reusable_from` finds is free, has the path, and is the first such
/// position from `from` on.
pub proof fn lemma_reusable_from(paths: Seq<Seq<char>>, used: Set<int>, path: Seq<char>, from: int)
    requires
        0 <= from,
    ensures
        match reusable_from(paths, used, path, from) {
            Some(j) => from <= j < paths.len() && !used.contains(j) && paths[j] == path
                && forall|i: int| from <= i < j ==> used.contains(i) || paths[i] != path,
            None => forall|i: int| from <= i < paths.len() ==> used.contains(i) || paths[i] != path,
        },
    decreases paths.len() - from,
{
    if from < paths.len() && !(!used.contains(from) && paths[from] == path) {
        lemma_reusable_from(paths, used, path, from + 1);
    }
}

/// `c` is a child that a merge may hand out: a child at a free position, or
/// one of the `count` fresh nodes from `next` on.
pub open spec fn handed_out(kids: Seq<usize>, used: Set<int>, next: int, count: int, c: usize) -> bool {
    ||| exists|j: int| 0 <= j < kids.len() && !used.contains(j) && #[trigger] kids[j] == c
    ||| next <= c < next + count
}

/// The shape of a merge: one child for each entry, each of them handed out
/// once; the fresh nodes are childless, not read, and know their index and
/// their parent.
pub proof fn lemma_merge_shape(
    kids: Seq<usize>,
    paths: Seq<Seq<char>>,
    entries: Seq<EntryView>,
    used: Set<int>,
    next: int,
    parent: int,
)
    requires
        kids.len() == paths.len(),
        kids.no_duplicates(),
        forall|j: int| 0 <= j < kids.len() ==> #[trigger] kids[j] < next,
        0 <= next,
        next + merge(kids, paths, entries, used, next, parent).fresh.len() <= usize::MAX,
    ensures
        ({
            let m = merge(kids, paths, entries, used, next, parent);
            &&& m.children.len() == entries.len()
            &&& m.fresh.len() <= entries.len()
            &&& m.children.no_duplicates()
            &&& forall|k: int|
                0 <= k < m.children.len() ==> handed_out(
                    kids,
                    used,
                    next,
                    m.fresh.len() as int,
                    #[trigger] m.children[k],
                )
            &&& forall|f: int|
                0 <= f < m.fresh.len() ==> {
                    &&& (#[trigger] m.fresh[f]).idx == next + f
                    &&& m.fresh[f].parent == Some(parent as usize)
                    &&& m.fresh[f].children.len() == 0
                    &&& !m.fresh[f].loaded
                }
        }),
    decreases entries.len(),
{
    if entries.len() > 0 {
        let rest = entries.drop_first();
        let m = merge(kids, paths, entries, used, next, parent);
        lemma_reusable_from(paths, used, entries[0].fullpath, 0);
        match reusable_from(paths, used, entries[0].fullpath, 0) {
            Some(j) => {
                let used1 = used.insert(j);
                let m1 = merge(kids, paths, rest, used1, next, parent);
                lemma_merge_shape(kids, paths, rest, used1, next, parent);
                assert forall|k: int| 0 <= k < m.children.len() implies handed_out(
                    kids,
                    used,
                    next,
                    m.fresh.len() as int,
                    #[trigger] m.children[k],
                ) by {
                    if k > 0 {
                        assert(m.children[k] == m1.children[k - 1]);
                        assert(handed_out(kids, used1, next, m1.fresh.len() as int, m1.children[k - 1]));
                    }
                }
                assert forall|a: int, b: int|
                    0 <= a < m.children.len() && 0 <= b < m.children.len() && a != b implies m.children[a]
                    != m.children[b] by {
                    let lo = if a < b { a } else { b };
                    let hi = if a < b { b } else { a };
                    assert(m.children[hi] == m1.children[hi - 1]);
                    if lo == 0 {
                        assert(handed_out(kids, used1, next, m1.fresh.len() as int, m1.children[hi - 1]));
                    } else {
                        assert(m.children[lo] == m1.children[lo - 1]);
                    }
                }
            },
            None => {
                let m1 = merge(kids, paths, rest, used, next + 1, parent);
                lemma_merge_shape(kids, paths, rest, used, next + 1, parent);
                assert forall|k: int| 0 <= k < m.children.len() implies handed_out(
                    kids,
                    used,
                    next,
                    m.fresh.len() as int,
                    #[trigger] m.children[k],
                ) by {
                    if k > 0 {
                        assert(m.children[k] == m1.children[k - 1]);
                        assert(handed_out(kids, used, next + 1, m1.fresh.len() as int, m1.children[k - 1]));
                    }
                }
                assert forall|a: int, b: int|
                    0 <= a < m.children.len() && 0 <= b < m.children.len() && a != b implies m.children[a]
                    != m.children[b] by {
                    let lo = if a < b { a } else { b };
                    let hi = if a < b { b } else { a };
                    assert(m.children[hi] == m1.children[hi - 1]);
                    if lo == 0 {
                        assert(handed_out(kids, used, next + 1, m1.fresh.len() as int, m1.children[hi - 1]));
                    } else {
                        assert(m.children[lo] == m1.children[lo - 1]);
                    }
                }
                assert forall|f: int| 0 <= f < m.fresh.len() implies {
                    &&& (#[trigger] m.fresh[f]).idx == next + f
                    &&& m.fresh[f].parent == Some(parent as usize)
                    &&& m.fresh[f].children.len() == 0
                    &&& !m.fresh[f].loaded
                } by {
                    if f > 0 {
                        assert(m.fresh[f] == m1.fresh[f - 1]);
                    }
                }
            },
        }
    }
}

/// Merging a listing into a directory keeps the links sound, and changes no
/// node of the arena but the directory itself.
pub proof fn lemma_merged_links_wf(t: TreeView, idx: int, entries: Seq<EntryView>)
    requires
        t.links_wf(),
        0 <= idx < t.nodes.len(),
        t.nodes[idx].is_dir,
        t.nodes.len() + t.merge_at(idx, entries).fresh.len() <= usize::MAX,
    ensures
        t.merged(idx, entries).links_wf(),
        t.same_but(t.merged(idx, entries), idx),
{
    let u = t.merged(idx, entries);
    let m = t.merge_at(idx, entries);
    let base = t.nodes.len() as int;
    let kids = t.nodes[idx].children;
    assert(t.node_wf(idx));
    lemma_merge_shape(kids, t.child_paths(idx), entries, Set::empty(), base, idx);
    assert forall|i: int| 0 <= i < u.nodes.len() implies #[trigger] u.node_wf(i) by {
        if i < base {
            assert(t.node_wf(i));
            if i > 0 {
                let p = t.nodes[i].parent->0 as int;
                assert(u.nodes[p].is_dir == t.nodes[p].is_dir);
            }
            if i == idx {
                assert forall|k: int| 0 <= k < m.children.len() implies idx < #[trigger] m.children[k]
                    < u.nodes.len() && u.nodes[m.children[k] as int].parent == Some(
                    idx as usize,
                ) by {
                    let c = m.children[k];
                    assert(handed_out(kids, Set::empty(), base, m.fresh.len() as int, c));
                    if c >= base {
                        assert(u.nodes[c as int] == m.fresh[c - base]);
                    } else {
                        let j = choose|j: int| 0 <= j < kids.len() && #[trigger] kids[j] == c;
                        assert(idx < kids[j] < t.nodes.len());
                    }
                }
            } else {
                assert(u.nodes[i] == t.nodes[i]);
            }
        } else {
            assert(u.nodes[i] == m.fresh[i - base]);
        }
    }
}

/// A merge makes at most one fresh node for each entry.
pub proof fn lemma_merge_fresh_len(
    kids: Seq<usize>,
    paths: Seq<Seq<char>>,
    entries: Seq<EntryView>,
    used: Set<int>,
    next: int,
    parent: int,
)
    ensures
        merge(kids, paths, entries, used, next, parent).fresh.len() <= entries.len(),
    decreases entries.len(),
{
    if entries.len() > 0 {
        match reusable_from(paths, used, entries[0].fullpath, 0) {
            Some(j) => {
                lemma_merge_fresh_len(kids, paths, entries.drop_first(), used.insert(j), next, parent);
            },
            None => {
                lemma_merge_fresh_len(kids, paths, entries.drop_first(), used, next + 1, parent);
            },
        }
    }
}

/// A merge keeps the child at position `k` if some entry has its path and
/// `k` is the first free position with that path.
pub proof fn lemma_merge_keeps(
    kids: Seq<usize>,
    paths: Seq<Seq<char>>,
    entries: Seq<EntryView>,
    used: Set<int>,
    next: int,
    parent: int,
    k: int,
)
    requires
        kids.len() == paths.len(),
        0 <= k < kids.len(),
        !used.contains(k),
        forall|j: int| 0 <= j < k && paths[j] == paths[k] ==> used.contains(j),
        exists|i: int| 0 <= i < entries.len() && (#[trigger] entries[i]).fullpath == paths[k],
    ensures
        merge(kids, paths, entries, used, next, parent).children.contains(kids[k]),
    decreases entries.len(),
{
    let m = merge(kids, paths, entries, used, next, parent);
    let rest = entries.drop_first();
    let i = choose|i: int| 0 <= i < entries.len() && (#[trigger] entries[i]).fullpath == paths[k];
    lemma_reusable_from(paths, used, entries[0].fullpath, 0);
    match reusable_from(paths, used, entries[0].fullpath, 0) {
        Some(j) => {
            if j == k {
                assert(m.children[0] == kids[k]);
            } else {
                assert(entries[0].fullpath != paths[k]);
                assert(rest[i - 1] == entries[i]);
                lemma_merge_keeps(kids, paths, rest, used.insert(j), next, parent, k);
                let m1 = merge(kids, paths, rest, used.insert(j), next, parent);
                let at = choose|at: int| 0 <= at < m1.children.len() && m1.children[at] == kids[k];
                assert(m.children[at + 1] == kids[k]);
            }
        },
        None => {
            assert(entries[0].fullpath != paths[k]);
            assert(rest[i - 1] == entries[i]);
            lemma_merge_keeps(kids, paths, rest, used, next + 1, parent, k);
            let m1 = merge(kids, paths, rest, used, next + 1, parent);
            let at = choose|at: int| 0 <= at < m1.children.len() && m1.children[at] == kids[k];
            assert(m.children[at + 1] == kids[k]);
        },
    }
}

/// What hangs below a child that a change to the children of node `idx`
/// keeps, hangs in the tree after the change as it did before.
pub proof fn lemma_kept_below(t: TreeView, u: TreeView, idx: int, c: int, j: int)
    requires
        t.links_wf(),
        t.same_but(u, idx),
        t.attached(idx),
        idx < c < t.nodes.len(),
        t.nodes[c].parent == Some(idx as usize),
        u.nodes[idx].children.contains(c as usize),
        t.reaches(c, j),
    ensures
        u.attached(j),
    decreases j,
{
    crate::subtree::lemma_reaches_order(t, c, j);
    assert(t.node_wf(c));
    assert(t.node_wf(idx));
    assert(t.node_wf(j));
    if j == c {
        crate::arenatree::lemma_attached_up_to(t, u, idx, idx);
    } else {
        let p = t.nodes[j].parent->0 as int;
        crate::subtree::lemma_reaches_order(t, c, p);
        lemma_kept_below(t, u, idx, c, p);
    }
}

/// A refresh keeps the child at position `k` of the directory, and all
/// that is known below it, if the new listing still holds the path of that
/// child and no earlier child has the same path: the child is still a
/// child, no node of the arena but the directory itself has changed, and
/// a selection at or below the child is where it was.
pub proof fn lemma_refresh_keeps(t: TreeView, idx: int, listing: Seq<EntryView>, k: int)
    requires
        t.wf(),
        0 <= idx < t.nodes.len(),
        t.nodes[idx].is_dir,
        0 <= k < t.nodes[idx].children.len(),
        forall|j: int| 0 <= j < k ==> t.child_paths(idx)[j] != t.child_paths(idx)[k],
        exists|i: int|
            0 <= i < listing.len() && (#[trigger] listing[i]).fullpath == t.child_paths(idx)[k],
        t.nodes.len() + listing.len() <= usize::MAX,
    ensures
        t.refreshed(idx, listing).nodes[idx].children.contains(t.nodes[idx].children[k]),
        forall|i: int|
            0 <= i < t.nodes.len() && i != idx ==> t.refreshed(idx, listing).nodes[i] == t.nodes[i],
        t.reaches(t.nodes[idx].children[k] as int, t.selected as int) ==> t.refreshed(
            idx,
            listing,
        ).selected == t.selected,
{
    let sorted = canonical_order(listing);
    let kids = t.nodes[idx].children;
    let paths = t.child_paths(idx);
    let c = kids[k];
    let u = t.merged(idx, sorted);
    crate::listing::lemma_canonical_order_permutes(listing);
    assert(t.node_wf(idx));
    assert(t.node_wf(c as int));
    lemma_merge_fresh_len(kids, paths, sorted, Set::empty(), t.nodes.len() as int, idx);
    lemma_merge_shape(kids, paths, sorted, Set::empty(), t.nodes.len() as int, idx);
    lemma_merged_links_wf(t, idx, sorted);
    assert(exists|i: int| 0 <= i < sorted.len() && (#[trigger] sorted[i]).fullpath == paths[k]) by {
        let i = choose|i: int| 0 <= i < listing.len() && (#[trigger] listing[i]).fullpath == paths[k];
        listing.to_multiset_ensures();
        sorted.to_multiset_ensures();
        assert(listing.contains(listing[i]));
        assert(sorted.to_multiset().count(listing[i]) > 0);
        assert(sorted.contains(listing[i]));
        let at = choose|at: int| 0 <= at < sorted.len() && sorted[at] == listing[i];
        assert(sorted[at].fullpath == paths[k]);
    }
    lemma_merge_keeps(kids, paths, sorted, Set::empty(), t.nodes.len() as int, idx, k);
    if t.reaches(c as int, t.selected as int) {
        crate::subtree::lemma_attached_above(t, c as int, t.selected as int);
        assert(t.attached(idx));
        lemma_kept_below(t, u, idx, c as int, t.selected as int);
    }
}

/// The positions that are marked in `used`.
pub open spec fn marked(used: Seq<bool>) -> Set<int> {
    Set::new(|j: int| 0 <= j < used.len() && used[j])
}

impl ArenaTree {
    /// The first child of node `idx` that is not marked in `used` and whose
    /// path is `path`, as a position among the children.
    fn find_reusable(&self, idx: usize, used: &Vec<bool>, path: &String, Ghost(t): Ghost<
        TreeView,
    >) -> (r: Option<usize>)
        requires
            t.links_wf(),
            idx < t.nodes.len() <= self.arena@.len(),
            forall|j: int| 0 <= j < t.nodes.len() ==> (#[trigger] self.arena@[j])@ == t.nodes[j],
            used@.len() == t.nodes[idx as int].children.len(),
        ensures
            match r {
                Some(j) => reusable_from(t.child_paths(idx as int), marked(used@), path@, 0) == Some(
                    j as int,
                ) && j < used@.len(),
                None => reusable_from(t.child_paths(idx as int), marked(used@), path@, 0) is None,
            },
    {
        let ghost paths = t.child_paths(idx as int);
        proof {
            lemma_reusable_from(paths, marked(used@), path@, 0);
            assert(t.node_wf(idx as int));
        }
        let n = used.len();
        let mut j: usize = 0;
        while j < n
            invariant
                j <= n,
                n == used@.len(),
                n == paths.len(),
                paths == t.child_paths(idx as int),
                t.links_wf(),
                idx < t.nodes.len() <= self.arena@.len(),
                forall|i: int| 0 <= i < t.nodes.len() ==> (#[trigger] self.arena@[i])@ == t.nodes[i],
                forall|i: int| 0 <= i < j ==> marked(used@).contains(i) || paths[i] != path@,
            decreases n - j,
        {
            proof {
                assert(t.node_wf(idx as int));
                assert(self.arena@[idx as int]@ == t.nodes[idx as int]);
            }
            let c = self.arena[idx].children[j];
            proof {
                assert(c == t.nodes[idx as int].children[j as int]);
                assert(self.arena@[c as int]@ == t.nodes[c as int]);
            }
            if !used[j] && self.arena[c].fullpath == *path {
                proof {
                    assert(paths[j as int] == path@);
                    lemma_reusable_from(paths, marked(used@), path@, 0);
                }
                return Some(j);
            }
            proof {
                assert(paths[j as int] == t.nodes[c as int].fullpath);
            }
            j += 1;
        }
        proof {
            lemma_reusable_from(paths, marked(used@), path@, 0);
        }
        None
    }

    /// Refreshes directory `idx` from a new listing of it, keeping what is
    /// known below the children that are still there. The listing is the
    /// outcome of reading the directory: its entries in any order, or the
    /// reader's failure.
    ///
    /// An index outside the arena, a file and a failed listing are refused,
    /// and the tree is then left as it was. On success the children are the
    /// listing in canonical order: an entry whose path a child has keeps
    /// that child, with all that hangs below it; any other entry gets a
    /// fresh node at the end of the arena. A child whose path is not listed
    /// any more stays in the arena, out of reach; a selection at or below it
    /// moves to `idx`.
    pub fn refresh(&mut self, idx: usize, listing: Result<Vec<Entry>, String>) -> (r: Result<
        (),
        TreeError,
    >)
        requires
            old(self)@.wf(),
        ensures
            final(self)@.wf(),
            idx >= old(self)@.nodes.len() ==> r == Err::<(), TreeError>(
                TreeError::InvariantViolation,
            ) && final(self)@ == old(self)@,
            idx < old(self)@.nodes.len() && !old(self)@.nodes[idx as int].is_dir ==> r == Err::<
                (),
                TreeError,
            >(TreeError::NotADirectory) && final(self)@ == old(self)@,
            idx < old(self)@.nodes.len() && old(self)@.nodes[idx as int].is_dir && listing is Err
                ==> r is Err && r->Err_0 is Io && r->Err_0->Io_0@ == listing->Err_0@
                && final(self)@ == old(self)@,
            idx < old(self)@.nodes.len() && old(self)@.nodes[idx as int].is_dir && listing is Ok
                ==> r is Ok && final(self)@ == old(self)@.refreshed(
                idx as int,
                entry_views(listing->Ok_0@),
            ),
    {
        if idx >= self.arena.len() {
            return Err(TreeError::InvariantViolation);
        }
        if !self.arena[idx].is_dir {
            return Err(TreeError::NotADirectory);
        }
        match listing {
            Err(msg) => Err(TreeError::Io(msg)),
            Ok(entries) => {
                let sorted = sort_entries(entries);
                self.merge_children(idx, sorted);
                Ok(())
            },
        }
    }

    /// Merges `sorted` into the children of directory `idx`.
    fn merge_children(&mut self, idx: usize, sorted: Vec<Entry>)
        requires
            old(self)@.wf(),
            idx < old(self)@.nodes.len(),
            old(self)@.nodes[idx as int].is_dir,
        ensures
            final(self)@ == old(self)@.merged(idx as int, entry_views(sorted@)).healed(idx as int),
            final(self)@.wf(),
    {
        let ghost t = self@;
        let ghost entries = entry_views(sorted@);
        let ghost kids0 = t.nodes[idx as int].children;
        let ghost paths = t.child_paths(idx as int);
        let ghost base = t.nodes.len() as int;
        let count = self.arena[idx].children.len();
        let mut used: Vec<bool> = Vec::new();
        while used.len() < count
            invariant
                used@.len() <= count,
                forall|j: int| 0 <= j < used@.len() ==> !used@[j],
            decreases count - used@.len(),
        {
            used.push(false);
        }
        let mut kids: Vec<usize> = Vec::new();
        let mut k: usize = 0;
        proof {
            assert(marked(used@) =~= Set::<int>::empty());
            assert(entries.skip(0) =~= entries);
            assert(t.node_wf(idx as int));
        }
        while k < sorted.len()
            invariant
                k <= sorted@.len(),
                entries == entry_views(sorted@),
                t.wf(),
                idx < base,
                base == t.nodes.len(),
                kids0 == t.nodes[idx as int].children,
                paths == t.child_paths(idx as int),
                used@.len() == kids0.len(),
                base <= self.arena@.len(),
                self.current == t.selected,
                forall|j: int| 0 <= j < base ==> (#[trigger] self.arena@[j])@ == t.nodes[j],
                t.merge_at(idx as int, entries) == (Merge {
                    children: kids@ + merge(
                        kids0,
                        paths,
                        entries.skip(k as int),
                        marked(used@),
                        self.arena@.len() as int,
                        idx as int,
                    ).children,
                    fresh: Seq::new(
                        (self.arena@.len() - base) as nat,
                        |f: int| self.arena@[base + f]@,
                    ) + merge(
                        kids0,
                        paths,
                        entries.skip(k as int),
                        marked(used@),
                        self.arena@.len() as int,
                        idx as int,
                    ).fresh,
                }),
            decreases sorted@.len() - k,
        {
            let ghost rest = entries.skip(k as int);
            let ghost used0 = marked(used@);
            let ghost next = self.arena@.len() as int;
            let ghost fresh0 = Seq::new((next - base) as nat, |f: int| self.arena@[base + f]@);
            let ghost kids_before = kids@;
            proof {
                assert(rest[0] == entries[k as int]);
                assert(rest.drop_first() =~= entries.skip(k + 1));
            }
            let e = &sorted[k];
            match self.find_reusable(idx, &used, &e.fullpath, Ghost(t)) {
                Some(j) => {
                    let c = self.arena[idx].children[j];
                    used[j] = true;
                    kids.push(c);
                    proof {
                        assert(marked(used@) =~= used0.insert(j as int));
                        let m1 = merge(kids0, paths, entries.skip(k + 1), marked(used@), next, idx as int);
                        assert(kids@ + m1.children =~= kids_before + (seq![kids0[j as int]]
                            + m1.children));
                    }
                },
                None => {
                    let new_idx = self.arena.len();
                    let node = Node {
                        idx: new_idx,
                        parent: Some(idx),
                        children: Vec::new(),
                        fullpath: e.fullpath.clone(),
                        name: e.name.clone(),
                        is_dir: e.is_dir,
                        loaded: false,
                    };
                    self.arena.push(node);
                    kids.push(new_idx);
                    proof {
                        let m1 = merge(
                            kids0,
                            paths,
                            entries.skip(k + 1),
                            marked(used@),
                            next + 1,
                            idx as int,
                        );
                        let fresh1 = Seq::new(
                            (next + 1 - base) as nat,
                            |f: int| self.arena@[base + f]@,
                        );
                        assert(kids@ + m1.children =~= kids_before + (seq![next as usize]
                            + m1.children));
                        assert(fresh1 + m1.fresh =~= fresh0 + (seq![
                            fresh_node(entries[k as int], next, idx as int),
                        ] + m1.fresh));
                    }
                },
            }
            k += 1;
        }
        let ghost fresh = Seq::new(
            (self.arena@.len() - base) as nat,
            |f: int| self.arena@[base + f]@,
        );
        proof {
            assert(entries.skip(k as int) =~= Seq::<EntryView>::empty());
            assert(t.merge_at(idx as int, entries).children =~= kids@);
            assert(t.merge_at(idx as int, entries).fresh =~= fresh);
        }
        let total = self.arena.len();
        self.arena[idx].children = kids;
        self.arena[idx].loaded = true;
        proof {
            assert(total == base + fresh.len());
            let want = t.merged(idx as int, entries);
            assert(self@.nodes =~= want.nodes);
            lemma_merged_links_wf(t, idx as int, entries);
            lemma_healed_wf(t, want, idx as int);
        }
        if !self.is_attached(self.current) {
            self.current = idx;
        }
    }
}


} // verus!
