//! The tree as nested, owned nodes: a directory owns its children, and a
//! node is reached by a location, the positions to take from the root down.
//! Every directory that was read remembers which of its children is
//! selected.

use std::collections::VecDeque;
use vstd::prelude::*;
use crate::listing::Entry;
use crate::listing::EntryView;
use crate::listing::canonical_order;
use crate::listing::entry_views;
use crate::arenatree::TreeError;
use crate::listing::keys_distinct;
use crate::listing::lemma_canonical_order_of_rearranged;
use crate::listing::lemma_canonical_order_ordered;
use crate::listing::lemma_canonical_order_permutes;
use crate::listing::ordered;
use crate::listing::sort_entries;
use crate::navigate::ListingView;
use crate::navigate::listing_view;
use crate::navigate::offered_view;
use crate::refresh::lemma_reusable_from;
use crate::refresh::reusable_from;

verus! {

/// The positions to take, directory by directory, from the root down.
pub type Location = VecDeque<usize>;

/// A node: a directory or a file.
#[derive(Debug)]
pub enum ONode {
    Dir(DirInfo),
    File(FileInfo),
}

/// The children of a directory that was read and is not empty.
#[derive(Debug)]
pub struct ChildrenState {
    pub list: Vec<Box<ONode>>,
    pub selected: usize,
}

/// What is known of the children of a directory.
#[derive(Debug)]
pub enum OChildren {
    /// It was read, and these are its children.
    Loaded(ChildrenState),
    /// It was read and is empty.
    Empty,
    /// It was not read, or it was collapsed.
    Unread,
}

/// A directory, with what is known of its children.
#[derive(Debug)]
pub struct DirInfo {
    pub children: OChildren,
    pub fullpath: String,
    pub name: String,
}

/// A file.
#[derive(Debug)]
pub struct FileInfo {
    pub fullpath: String,
    pub name: String,
}

/// The mathematical content of an [`ONode`].
pub enum NodeModel {
    Dir(DirModel),
    File(FileModel),
}

/// The mathematical content of an [`OChildren`].
pub enum ChildrenModel {
    Listed { list: Seq<NodeModel>, selected: usize },
    Empty,
    Unread,
}

/// The mathematical content of a [`DirInfo`].
pub struct DirModel {
    pub children: ChildrenModel,
    pub fullpath: Seq<char>,
    pub name: Seq<char>,
}

/// The mathematical content of a [`FileInfo`].
pub struct FileModel {
    pub fullpath: Seq<char>,
    pub name: Seq<char>,
}

impl View for FileInfo {
    type V = FileModel;

    open spec fn view(&self) -> FileModel {
        FileModel { fullpath: self.fullpath@, name: self.name@ }
    }
}

/// The model of a node.
pub open spec fn node_model(n: ONode) -> NodeModel
    decreases n,
{
    match n {
        ONode::Dir(d) => NodeModel::Dir(dir_model(d)),
        ONode::File(f) => NodeModel::File(f@),
    }
}

/// The models of the nodes of a list, position by position.
pub open spec fn list_model(list: Seq<Box<ONode>>) -> Seq<NodeModel>
    decreases list,
{
    Seq::new(
        list.len(),
        |i: int|
            if 0 <= i < list.len() {
                node_model(*list[i])
            } else {
                arbitrary()
            },
    )
}

/// The model of a directory.
pub open spec fn dir_model(d: DirInfo) -> DirModel
    decreases d,
{
    DirModel {
        children: match d.children {
            OChildren::Loaded(chs) => ChildrenModel::Listed {
                list: list_model(chs.list@),
                selected: chs.selected,
            },
            OChildren::Empty => ChildrenModel::Empty,
            OChildren::Unread => ChildrenModel::Unread,
        },
        fullpath: d.fullpath@,
        name: d.name@,
    }
}

impl View for ONode {
    type V = NodeModel;

    open spec fn view(&self) -> NodeModel {
        node_model(*self)
    }
}

impl View for DirInfo {
    type V = DirModel;

    open spec fn view(&self) -> DirModel {
        dir_model(*self)
    }
}

impl NodeModel {
    /// The full path of the node.
    pub open spec fn full_path(self) -> Seq<char> {
        match self {
            NodeModel::Dir(d) => d.fullpath,
            NodeModel::File(f) => f.fullpath,
        }
    }
}

impl DirModel {
    /// The directory at position `l` among the children, if a directory is
    /// there.
    pub open spec fn child_dir(self, l: usize) -> Option<DirModel> {
        match self.children {
            ChildrenModel::Listed { list, selected } => if l < list.len() {
                match list[l as int] {
                    NodeModel::Dir(d) => Some(d),
                    NodeModel::File(_) => None,
                }
            } else {
                None
            },
            _ => None,
        }
    }

    /// The directory with the directory `d` at position `l` among its
    /// children.
    pub open spec fn with_child(self, l: usize, d: DirModel) -> DirModel {
        match self.children {
            ChildrenModel::Listed { list, selected } => DirModel {
                children: ChildrenModel::Listed {
                    list: list.update(l as int, NodeModel::Dir(d)),
                    selected,
                },
                ..self
            },
            _ => self,
        }
    }

    /// The position that the directory at `loc` has selected among its
    /// children; none where the way ends before `loc` does, or leads to a
    /// directory without children.
    pub open spec fn selected_at(self, loc: Seq<usize>) -> Option<usize>
        decreases loc.len(),
    {
        match self.children {
            ChildrenModel::Listed { list, selected } => if loc.len() == 0 {
                Some(selected)
            } else {
                match self.child_dir(loc[0]) {
                    Some(d) => d.selected_at(loc.drop_first()),
                    None => None,
                }
            },
            _ => None,
        }
    }

    /// The directory with `to` selected in the directory at `loc`; nothing
    /// changes where the way ends before `loc` does.
    pub open spec fn with_selected(self, loc: Seq<usize>, to: usize) -> DirModel
        decreases loc.len(),
    {
        match self.children {
            ChildrenModel::Listed { list, selected } => if loc.len() == 0 {
                DirModel { children: ChildrenModel::Listed { list, selected: to }, ..self }
            } else {
                match self.child_dir(loc[0]) {
                    Some(d) => self.with_child(loc[0], d.with_selected(loc.drop_first(), to)),
                    None => self,
                }
            },
            _ => self,
        }
    }

    /// The node that the directory at `loc` has selected; none where the
    /// way runs into a directory without children, and where the selected
    /// position holds no child.
    pub open spec fn selected_node_at(self, loc: Seq<usize>) -> Option<NodeModel>
        decreases loc.len(),
    {
        match self.children {
            ChildrenModel::Listed { list, selected } => if loc.len() == 0 {
                if selected < list.len() {
                    Some(list[selected as int])
                } else {
                    None
                }
            } else {
                match self.child_dir(loc[0]) {
                    Some(d) => d.selected_node_at(loc.drop_first()),
                    None => None,
                }
            },
            _ => None,
        }
    }

    /// The directory with `n` in place of the node that the directory at
    /// `loc` has selected.
    pub open spec fn with_selected_node(self, loc: Seq<usize>, n: NodeModel) -> DirModel
        decreases loc.len(),
    {
        match self.children {
            ChildrenModel::Listed { list, selected } => if loc.len() == 0 {
                if selected < list.len() {
                    DirModel {
                        children: ChildrenModel::Listed {
                            list: list.update(selected as int, n),
                            selected,
                        },
                        ..self
                    }
                } else {
                    self
                }
            } else {
                match self.child_dir(loc[0]) {
                    Some(d) => self.with_child(loc[0], d.with_selected_node(loc.drop_first(), n)),
                    None => self,
                }
            },
            _ => self,
        }
    }

    /// The directory that `loc` leads to.
    pub open spec fn dir_at(self, loc: Seq<usize>) -> Option<DirModel>
        decreases loc.len(),
    {
        if loc.len() == 0 {
            Some(self)
        } else {
            match self.child_dir(loc[0]) {
                Some(d) => d.dir_at(loc.drop_first()),
                None => None,
            }
        }
    }

    /// The directory with `m` in place of the directory that `loc` leads
    /// to.
    pub open spec fn with_dir_at(self, loc: Seq<usize>, m: DirModel) -> DirModel
        decreases loc.len(),
    {
        if loc.len() == 0 {
            m
        } else {
            match self.child_dir(loc[0]) {
                Some(d) => self.with_child(loc[0], d.with_dir_at(loc.drop_first(), m)),
                None => self,
            }
        }
    }

    /// How many children the directory at `loc` has; 0 where the way does
    /// not lead to a directory with children.
    pub open spec fn children_len_at(self, loc: Seq<usize>) -> nat
        decreases loc.len(),
    {
        match self.children {
            ChildrenModel::Listed { list, selected } => if loc.len() == 0 {
                list.len()
            } else {
                match self.child_dir(loc[0]) {
                    Some(d) => d.children_len_at(loc.drop_first()),
                    None => 0,
                }
            },
            _ => 0,
        }
    }
}

impl DirInfo {
    /// The position that the directory at `loc` has selected among its
    /// children; none where the way ends before `loc` does, in a file or at
    /// a position that holds no child, or leads to a directory without
    /// children.
    pub fn get_selected_by_locatoin(&self, mut loc: Location) -> (r: Option<usize>)
        ensures
            r == self@.selected_at(loc@),
        decreases loc@.len(),
    {
        match &self.children {
            OChildren::Loaded(chs) => {
                let ghost whole = loc@;
                if let Some(l) = loc.pop_front() {
                    proof {
                        assert(loc@ =~= whole.drop_first());
                    }
                    if l < chs.list.len() {
                        match &*chs.list[l] {
                            ONode::Dir(dir) => dir.get_selected_by_locatoin(loc),
                            ONode::File(_) => None,
                        }
                    } else {
                        None
                    }
                } else {
                    Some(chs.selected)
                }
            },
            OChildren::Empty => None,
            OChildren::Unread => None,
        }
    }

    /// Selects position `to` in the directory at `loc`. Nothing changes
    /// where the way ends before `loc` does, or leads to a directory
    /// without children.
    pub fn set_selected_by_location(&mut self, to: usize, mut loc: Location)
        ensures
            final(self)@ == old(self)@.with_selected(loc@, to),
        decreases loc@.len(),
    {
        match &mut self.children {
            OChildren::Loaded(chs) => {
                let ghost whole = loc@;
                if let Some(l) = loc.pop_front() {
                    proof {
                        assert(loc@ =~= whole.drop_first());
                    }
                    let ghost list0 = chs.list@;
                    if l < chs.list.len() && chs.list[l].is_dir() {
                        match &mut *chs.list[l] {
                            ONode::Dir(dir) => {
                                dir.set_selected_by_location(to, loc);
                            },
                            ONode::File(_) => {},
                        }
                        proof {
                            assert(list_model(list0)[l as int] == node_model(*list0[l as int]));
                            assert(list_model(chs.list@) =~= list_model(list0).update(
                                l as int,
                                node_model(*chs.list@[l as int]),
                            ));
                        }
                    } else if l < chs.list.len() {
                        proof {
                            assert(list_model(list0)[l as int] == node_model(*list0[l as int]));
                        }
                    }
                } else {
                    chs.selected = to;
                }
            },
            OChildren::Empty => {},
            OChildren::Unread => {},
        }
    }

    /// The node that the directory at `loc` has selected; none where the
    /// way ends before `loc` does, or leads to a directory without
    /// children, or the selected position holds no child.
    pub fn get_selected_node_by_location(&self, mut loc: Location) -> (r: Option<&Box<ONode>>)
        ensures
            match r {
                Some(n) => self@.selected_node_at(loc@) == Some((**n)@),
                None => self@.selected_node_at(loc@) is None,
            },
        decreases loc@.len(),
    {
        match &self.children {
            OChildren::Loaded(chs) => {
                let ghost whole = loc@;
                if let Some(l) = loc.pop_front() {
                    proof {
                        assert(loc@ =~= whole.drop_first());
                    }
                    if l < chs.list.len() {
                        match &*chs.list[l] {
                            ONode::Dir(d) => d.get_selected_node_by_location(loc),
                            ONode::File(_) => None,
                        }
                    } else {
                        None
                    }
                } else {
                    if chs.selected < chs.list.len() {
                        Some(&chs.list[chs.selected])
                    } else {
                        None
                    }
                }
            },
            OChildren::Empty => None,
            OChildren::Unread => None,
        }
    }

    /// The node that the directory at `loc` has selected, to work on; none
    /// where `get_selected_node_by_location` finds none.
    pub fn get_selected_node_by_location_mut(&mut self, mut loc: Location) -> (r: Option<
        &mut Box<ONode>,
    >)
        ensures
            match r {
                Some(n) => old(self)@.selected_node_at(loc@) == Some((**n)@) && final(self)@ == old(
                    self,
                )@.with_selected_node(loc@, (**final(n))@),
                None => old(self)@.selected_node_at(loc@) is None && final(self)@ == old(self)@,
            },
        decreases loc@.len(),
    {
        match &mut self.children {
            OChildren::Loaded(chs) => {
                let ghost whole = loc@;
                let ghost list0 = chs.list@;
                if let Some(l) = loc.pop_front() {
                    proof {
                        assert(loc@ =~= whole.drop_first());
                    }
                    if l < chs.list.len() && chs.list[l].is_dir() {
                        let b = &mut chs.list[l];
                        proof {
                            assert(list_model(list0.update(l as int, *final(b))) =~= list_model(
                                list0,
                            ).update(l as int, node_model(**final(b))));
                            assert(list_model(list0).update(l as int, list_model(list0)[l as int])
                                =~= list_model(list0));
                            assert(list_model(list0)[l as int] == node_model(*list0[l as int]));
                        }
                        match &mut **b {
                            ONode::Dir(d) => d.get_selected_node_by_location_mut(loc),
                            ONode::File(_) => None,
                        }
                    } else {
                        proof {
                            if l < list0.len() {
                                assert(list_model(list0)[l as int] == node_model(*list0[l as int]));
                            }
                        }
                        None
                    }
                } else {
                    if chs.selected < chs.list.len() {
                        let ghost at = chs.selected as int;
                        let b = &mut chs.list[chs.selected];
                        proof {
                            assert(list_model(list0.update(at, *final(b))) =~= list_model(
                                list0,
                            ).update(at, node_model(**final(b))));
                        }
                        Some(b)
                    } else {
                        None
                    }
                }
            },
            OChildren::Empty => None,
            OChildren::Unread => None,
        }
    }

    /// The directory at `loc`, to work on. The way has to lead to a
    /// directory: there is nothing else to hand out.
    pub fn get_dir_by_location_mut(&mut self, mut loc: Location) -> (r: &mut DirInfo)
        requires
            old(self)@.dir_at(loc@) is Some,
        ensures
            old(self)@.dir_at(loc@) == Some((*r)@),
            final(self)@ == old(self)@.with_dir_at(loc@, (*final(r))@),
        decreases loc@.len(),
    {
        let ghost whole = loc@;
        if let Some(l) = loc.pop_front() {
            proof {
                assert(loc@ =~= whole.drop_first());
            }
            match &mut self.children {
                OChildren::Loaded(chs) => {
                    let ghost list0 = chs.list@;
                    let b = &mut chs.list[l];
                    proof {
                        assert(list_model(list0.update(l as int, *final(b))) =~= list_model(
                            list0,
                        ).update(l as int, node_model(**final(b))));
                    }
                    match &mut **b {
                        ONode::Dir(d) => d.get_dir_by_location_mut(loc),
                        ONode::File(_) => vstd::pervasive::unreached(),
                    }
                },
                _ => vstd::pervasive::unreached(),
            }
        } else {
            self
        }
    }

    /// How many children the directory at `loc` has.
    pub fn get_children_len_by_location(&self, mut loc: Location) -> (n: usize)
        ensures
            n == self@.children_len_at(loc@),
        decreases loc@.len(),
    {
        match &self.children {
            OChildren::Loaded(chs) => {
                let ghost whole = loc@;
                if let Some(l) = loc.pop_front() {
                    proof {
                        assert(loc@ =~= whole.drop_first());
                    }
                    if l < chs.list.len() {
                        match &*chs.list[l] {
                            ONode::Dir(d) => d.get_children_len_by_location(loc),
                            ONode::File(_) => 0,
                        }
                    } else {
                        0
                    }
                } else {
                    chs.list.len()
                }
            },
            OChildren::Empty => 0,
            OChildren::Unread => 0,
        }
    }
}

impl Clone for FileInfo {
    fn clone(&self) -> (r: Self)
        ensures
            r@ == self@,
    {
        FileInfo { fullpath: self.fullpath.clone(), name: self.name.clone() }
    }
}

impl Clone for ONode {
    fn clone(&self) -> (r: Self)
        ensures
            r@ == self@,
        decreases self,
    {
        match self {
            ONode::Dir(d) => ONode::Dir(d.clone()),
            ONode::File(f) => ONode::File(f.clone()),
        }
    }
}

impl View for ChildrenState {
    type V = ChildrenModel;

    open spec fn view(&self) -> ChildrenModel {
        ChildrenModel::Listed { list: list_model(self.list@), selected: self.selected }
    }
}

impl View for OChildren {
    type V = ChildrenModel;

    open spec fn view(&self) -> ChildrenModel {
        match self {
            OChildren::Loaded(chs) => chs@,
            OChildren::Empty => ChildrenModel::Empty,
            OChildren::Unread => ChildrenModel::Unread,
        }
    }
}

impl Clone for ChildrenState {
    fn clone(&self) -> (r: Self)
        ensures
            r@ == self@,
        decreases self,
    {
        let mut list: Vec<Box<ONode>> = Vec::new();
        let mut i: usize = 0;
        while i < self.list.len()
            invariant
                i <= self.list@.len(),
                list@.len() == i,
                forall|j: int| 0 <= j < i ==> node_model(*list@[j]) == node_model(*self.list@[j]),
            decreases self.list@.len() - i,
        {
            let node: &ONode = &*self.list[i];
            proof {
                assert(decreases_to!(self.list => self.list[i as int]));
                assert(decreases_to!(*self => *node));
            }
            let copy = node.clone();
            list.push(Box::new(copy));
            i += 1;
        }
        proof {
            assert(list_model(list@) =~= list_model(self.list@));
        }
        ChildrenState { list, selected: self.selected }
    }
}

impl Clone for OChildren {
    fn clone(&self) -> (r: Self)
        ensures
            r@ == self@,
        decreases self,
    {
        match self {
            OChildren::Loaded(chs) => OChildren::Loaded(chs.clone()),
            OChildren::Empty => OChildren::Empty,
            OChildren::Unread => OChildren::Unread,
        }
    }
}

impl Clone for DirInfo {
    fn clone(&self) -> (r: Self)
        ensures
            r@ == self@,
        decreases self,
    {
        DirInfo {
            children: self.children.clone(),
            fullpath: self.fullpath.clone(),
            name: self.name.clone(),
        }
    }
}

impl From<Vec<Box<ONode>>> for ChildrenState {
    fn from(v: Vec<Box<ONode>>) -> (r: Self) {
        Self { list: v, selected: 0 }
    }
}

impl vstd::std_specs::convert::FromSpecImpl<Vec<Box<ONode>>> for ChildrenState {
    open spec fn obeys_from_spec() -> bool {
        true
    }

    open spec fn from_spec(v: Vec<Box<ONode>>) -> Self {
        ChildrenState { list: v, selected: 0 }
    }
}

/// The full paths of the nodes of a list, position by position.
pub open spec fn paths_of(list: Seq<NodeModel>) -> Seq<Seq<char>> {
    Seq::new(list.len(), |i: int| list[i].full_path())
}

/// The first position in `list` whose node has the path `path`.
pub open spec fn first_with_path(list: Seq<NodeModel>, path: Seq<char>) -> Option<int> {
    reusable_from(paths_of(list), Set::empty(), path, 0)
}

/// The node that a fresh read creates for the entry `e`: a file, or a
/// directory that was not read.
pub open spec fn fresh_model(e: EntryView) -> NodeModel {
    if e.is_dir {
        NodeModel::Dir(
            DirModel { children: ChildrenModel::Unread, fullpath: e.fullpath, name: e.name },
        )
    } else {
        NodeModel::File(FileModel { fullpath: e.fullpath, name: e.name })
    }
}

/// The children after `entries` were merged into the children `cur`: for
/// each entry the first node of `cur` with its path, as it is, or else a
/// fresh node.
pub open spec fn merged_list(cur: Seq<NodeModel>, entries: Seq<EntryView>) -> Seq<NodeModel> {
    Seq::new(
        entries.len(),
        |i: int|
            match first_with_path(cur, entries[i].fullpath) {
                Some(j) => cur[j],
                None => fresh_model(entries[i]),
            },
    )
}

/// The position that stays selected among `count` children: `selected`
/// where it names one of them, else the last of them.
pub open spec fn kept_selection(selected: usize, count: nat) -> usize {
    if selected < count {
        selected
    } else if count > 0 {
        (count - 1) as usize
    } else {
        0
    }
}

/// What the canonical order reads of a node.
pub open spec fn node_entry(n: NodeModel) -> EntryView {
    match n {
        NodeModel::Dir(d) => EntryView { name: d.name, fullpath: d.fullpath, is_dir: true },
        NodeModel::File(f) => EntryView { name: f.name, fullpath: f.fullpath, is_dir: false },
    }
}

/// No two entries of `s` have the same path.
pub open spec fn paths_distinct(s: Seq<EntryView>) -> bool {
    forall|i: int, j: int| 0 <= i < j < s.len() ==> s[i].fullpath != s[j].fullpath
}

/// Wherever a node of `list` has the path of an entry of `entries`, it has
/// the kind and the name of that entry too.
pub open spec fn agree(list: Seq<NodeModel>, entries: Seq<EntryView>) -> bool {
    forall|j: int, i: int|
        0 <= j < list.len() && 0 <= i < entries.len() && (#[trigger] list[j]).full_path()
            == (#[trigger] entries[i]).fullpath ==> node_entry(list[j]) == entries[i]
}

impl DirModel {
    /// A directory at `path` that was not read.
    pub open spec fn unread(path: Seq<char>) -> DirModel {
        DirModel { children: ChildrenModel::Unread, fullpath: path, name: path }
    }

    /// The children of the directory, as far as it has any.
    pub open spec fn child_list(self) -> Seq<NodeModel> {
        match self.children {
            ChildrenModel::Listed { list, selected } => list,
            _ => Seq::empty(),
        }
    }

    /// The entries that the children of the directory stand for, in order.
    pub open spec fn child_entries(self) -> Seq<EntryView> {
        Seq::new(self.child_list().len(), |i: int| node_entry(self.child_list()[i]))
    }

    /// Where the directory has children, the selected position names one
    /// of them.
    pub open spec fn selection_sound(self) -> bool {
        match self.children {
            ChildrenModel::Listed { list, selected } => selected < list.len(),
            _ => true,
        }
    }

    /// Whether a toggle of the directory has to read it: it has no
    /// children.
    pub open spec fn toggle_reads(self) -> bool {
        !(self.children is Listed)
    }

    /// The directory after `entries` were merged into its children. Each
    /// entry keeps the first child with its path, as it is, or else gets a
    /// fresh node. Without an entry the directory counts as read and empty.
    /// The selected position stays where it still names a child, and else
    /// moves to the last child; a directory that had no children has its
    /// first child selected.
    pub open spec fn merged(self, entries: Seq<EntryView>) -> DirModel {
        let list = merged_list(self.child_list(), entries);
        let selected: usize = match self.children {
            ChildrenModel::Listed { list, selected } => selected,
            _ => 0,
        };
        if list.len() == 0 {
            DirModel { children: ChildrenModel::Empty, ..self }
        } else {
            DirModel {
                children: ChildrenModel::Listed {
                    list,
                    selected: kept_selection(selected, list.len()),
                },
                ..self
            }
        }
    }

    /// The directory after a refresh from a listing: the listing in
    /// canonical order is merged into its children.
    pub open spec fn refreshed(self, listing: Seq<EntryView>) -> DirModel {
        self.merged(canonical_order(listing))
    }

    /// The directory after a read that may have failed: refreshed from the
    /// listing, or as it was.
    pub open spec fn after_read(self, listing: ListingView) -> DirModel {
        match listing {
            Ok(l) => self.refreshed(l),
            Err(_) => self,
        }
    }

    /// The directory after a toggle: one with children counts as not read;
    /// one without, read or not, is refreshed from the listing, and stays
    /// as it is without a listing or with a failed one.
    pub open spec fn toggled(self, listing: Option<ListingView>) -> DirModel {
        if self.toggle_reads() {
            match listing {
                Some(Ok(l)) => self.refreshed(l),
                _ => self,
            }
        } else {
            DirModel { children: ChildrenModel::Unread, ..self }
        }
    }
}

/// Whether `r` is the answer that a read owes: success for a listing, and
/// the reader's message for a failed read.
pub open spec fn read_answered(listing: ListingView, r: Result<(), TreeError>) -> bool {
    match listing {
        Ok(_) => r is Ok,
        Err(msg) => r is Err && r->Err_0 is Io && r->Err_0->Io_0@ == msg,
    }
}

/// The node that a merge puts at position `i` has the path of entry `i`.
pub proof fn lemma_merged_paths(cur: Seq<NodeModel>, entries: Seq<EntryView>, i: int)
    requires
        0 <= i < entries.len(),
    ensures
        merged_list(cur, entries)[i].full_path() == entries[i].fullpath,
{
    lemma_reusable_from(paths_of(cur), Set::empty(), entries[i].fullpath, 0);
}

/// A refresh leaves the selected position naming a child.
pub proof fn lemma_refreshed_selection_sound(d: DirModel, listing: Seq<EntryView>)
    ensures
        d.refreshed(listing).selection_sound(),
{
}

/// Where the children that a directory has agree with the entries in kind
/// and name, the children after a merge stand for the entries, one by one.
pub proof fn lemma_merged_entries(d: DirModel, entries: Seq<EntryView>)
    requires
        agree(d.child_list(), entries),
    ensures
        d.merged(entries).child_entries() == entries,
{
    let cur = d.child_list();
    let list = merged_list(cur, entries);
    assert forall|i: int| 0 <= i < entries.len() implies node_entry(list[i]) == entries[i] by {
        lemma_reusable_from(paths_of(cur), Set::empty(), entries[i].fullpath, 0);
        match first_with_path(cur, entries[i].fullpath) {
            Some(j) => {
                assert(cur[j].full_path() == entries[i].fullpath);
            },
            None => {},
        }
    }
    assert(d.merged(entries).child_entries() =~= entries);
}

/// A refresh keeps the child at position `j`, with all that is known below
/// it, if the new listing still holds the path of that child and no
/// earlier child has the same path.
pub proof fn lemma_refresh_keeps_child(d: DirModel, listing: Seq<EntryView>, j: int)
    requires
        0 <= j < d.child_list().len(),
        forall|k: int| 0 <= k < j ==> d.child_list()[k].full_path() != d.child_list()[j].full_path(),
        exists|i: int|
            0 <= i < listing.len() && (#[trigger] listing[i]).fullpath == d.child_list()[j].full_path(),
    ensures
        d.refreshed(listing).child_list().contains(d.child_list()[j]),
{
    let cur = d.child_list();
    let sorted = canonical_order(listing);
    let path = cur[j].full_path();
    lemma_canonical_order_permutes(listing);
    listing.to_multiset_ensures();
    sorted.to_multiset_ensures();
    let i = choose|i: int| 0 <= i < listing.len() && (#[trigger] listing[i]).fullpath == path;
    assert(listing.contains(listing[i]));
    assert(listing.to_multiset().count(listing[i]) > 0);
    assert(sorted.to_multiset().count(listing[i]) > 0);
    assert(sorted.contains(listing[i]));
    let at = choose|at: int| 0 <= at < sorted.len() && sorted[at] == listing[i];
    lemma_reusable_from(paths_of(cur), Set::empty(), path, 0);
    assert(paths_of(cur)[j] == path);
    let list = merged_list(cur, sorted);
    assert(list[at] == cur[j]);
}

/// A rearrangement of entries with distinct paths has distinct paths.
pub proof fn lemma_paths_distinct_permuted(a: Seq<EntryView>, c: Seq<EntryView>)
    requires
        paths_distinct(a),
        a.to_multiset() == c.to_multiset(),
    ensures
        paths_distinct(c),
{
    assert(a.no_duplicates());
    a.lemma_multiset_has_no_duplicates();
    c.lemma_multiset_has_no_duplicates_conv();
    a.to_multiset_ensures();
    c.to_multiset_ensures();
    assert forall|i: int, j: int| 0 <= i < j < c.len() implies c[i].fullpath != c[j].fullpath by {
        assert(c.contains(c[i]));
        assert(c.contains(c[j]));
        assert(c.to_multiset().count(c[i]) > 0);
        assert(c.to_multiset().count(c[j]) > 0);
        assert(a.to_multiset().count(c[i]) > 0);
        assert(a.to_multiset().count(c[j]) > 0);
        assert(a.contains(c[i]));
        assert(a.contains(c[j]));
        let x = choose|x: int| 0 <= x < a.len() && a[x] == c[i];
        let y = choose|y: int| 0 <= y < a.len() && a[y] == c[j];
        if x < y {
            assert(a[x].fullpath != a[y].fullpath);
        } else if y < x {
            assert(a[y].fullpath != a[x].fullpath);
        }
    }
}

/// Children that agree with a listing agree with its canonical order.
pub proof fn lemma_agree_canonical(list: Seq<NodeModel>, listing: Seq<EntryView>)
    requires
        agree(list, listing),
    ensures
        agree(list, canonical_order(listing)),
{
    let sorted = canonical_order(listing);
    lemma_canonical_order_permutes(listing);
    listing.to_multiset_ensures();
    sorted.to_multiset_ensures();
    assert forall|j: int, i: int|
        0 <= j < list.len() && 0 <= i < sorted.len() && (#[trigger] list[j]).full_path()
            == (#[trigger] sorted[i]).fullpath implies node_entry(list[j]) == sorted[i] by {
        assert(sorted.contains(sorted[i]));
        assert(sorted.to_multiset().count(sorted[i]) > 0);
        assert(listing.to_multiset().count(sorted[i]) > 0);
        assert(listing.contains(sorted[i]));
        let x = choose|x: int| 0 <= x < listing.len() && listing[x] == sorted[i];
        assert(listing[x].fullpath == list[j].full_path());
    }
}

/// The children that a refresh gives stand for the listing in canonical
/// order, directories before files and each group ascending by name, where
/// the children that the directory had agree in kind and name with the
/// entries of their paths; a directory without children always does. And
/// two reads that report the same entries in whatever order, none with
/// the kind and name of another, refresh a directory to the same.
pub proof fn lemma_refresh_order(d: DirModel, a: Seq<EntryView>, b: Seq<EntryView>)
    requires
        agree(d.child_list(), a),
        keys_distinct(a),
        a.to_multiset() == b.to_multiset(),
    ensures
        d.refreshed(a).child_entries() == canonical_order(a),
        ordered(d.refreshed(a).child_entries()),
        d.refreshed(a) == d.refreshed(b),
{
    lemma_canonical_order_of_rearranged(a, b);
    lemma_canonical_order_ordered(a);
    lemma_agree_canonical(d.child_list(), a);
    lemma_merged_entries(d, canonical_order(a));
}

/// A second refresh from the same listing changes nothing, as long as no
/// two entries of the listing have the same path.
pub proof fn lemma_refresh_twice(d: DirModel, listing: Seq<EntryView>)
    requires
        paths_distinct(listing),
    ensures
        d.refreshed(listing).refreshed(listing) == d.refreshed(listing),
{
    let s = canonical_order(listing);
    lemma_canonical_order_permutes(listing);
    lemma_paths_distinct_permuted(listing, s);
    let once = d.merged(s);
    let list1 = merged_list(d.child_list(), s);
    if s.len() > 0 {
        let list2 = merged_list(list1, s);
        assert forall|i: int| 0 <= i < s.len() implies list2[i] == list1[i] by {
            lemma_reusable_from(paths_of(list1), Set::empty(), s[i].fullpath, 0);
            lemma_merged_paths(d.child_list(), s, i);
            assert(paths_of(list1)[i] == s[i].fullpath);
            match first_with_path(list1, s[i].fullpath) {
                Some(j) => {
                    if j < i {
                        lemma_merged_paths(d.child_list(), s, j);
                        assert(paths_of(list1)[j] == s[j].fullpath);
                    }
                },
                None => {},
            }
        }
        assert(list2 =~= list1);
    } else {
        assert(once.child_list() =~= Seq::<NodeModel>::empty());
        assert(merged_list(once.child_list(), s) =~= Seq::<NodeModel>::empty());
    }
}

impl ChildrenState {
    /// The first node of the list whose path is `fullpath`.
    pub fn get_node_by_fullpath(&self, fullpath: &str) -> (r: Option<&Box<ONode>>)
        ensures
            match r {
                Some(n) => first_with_path(list_model(self.list@), fullpath@) is Some
                    && list_model(self.list@)[first_with_path(
                    list_model(self.list@),
                    fullpath@,
                )->0] == (**n)@,
                None => first_with_path(list_model(self.list@), fullpath@) is None,
            },
    {
        let ghost models = list_model(self.list@);
        let wanted = fullpath.to_owned();
        let mut j: usize = 0;
        while j < self.list.len()
            invariant
                j <= self.list@.len(),
                models == list_model(self.list@),
                wanted@ == fullpath@,
                forall|i: int| 0 <= i < j ==> paths_of(models)[i] != fullpath@,
            decreases self.list@.len() - j,
        {
            let path = self.list[j].get_full_path();
            if path == wanted {
                proof {
                    assert(models[j as int] == node_model(*self.list@[j as int]));
                    assert(paths_of(models)[j as int] == fullpath@);
                    lemma_reusable_from(paths_of(models), Set::empty(), fullpath@, 0);
                }
                return Some(&self.list[j]);
            }
            proof {
                assert(models[j as int] == node_model(*self.list@[j as int]));
                assert(paths_of(models)[j as int] == path@);
            }
            j += 1;
        }
        proof {
            lemma_reusable_from(paths_of(models), Set::empty(), fullpath@, 0);
        }
        None
    }
}

/// The node that a fresh read creates for the entry `e`.
pub fn fresh_node(e: &Entry) -> (n: ONode)
    ensures
        n@ == fresh_model(e@),
{
    if e.is_dir {
        ONode::Dir(
            DirInfo {
                children: OChildren::Unread,
                fullpath: e.fullpath.clone(),
                name: e.name.clone(),
            },
        )
    } else {
        ONode::File(FileInfo { fullpath: e.fullpath.clone(), name: e.name.clone() })
    }
}

/// The children after `sorted` was merged into the children `cur`.
fn merge_nodes(cur: &ChildrenState, sorted: &Vec<Entry>) -> (list: Vec<Box<ONode>>)
    ensures
        list_model(list@) == merged_list(list_model(cur.list@), entry_views(sorted@)),
{
    let ghost entries = entry_views(sorted@);
    let ghost models = list_model(cur.list@);
    let mut list: Vec<Box<ONode>> = Vec::new();
    let mut i: usize = 0;
    while i < sorted.len()
        invariant
            i <= sorted@.len(),
            entries == entry_views(sorted@),
            models == list_model(cur.list@),
            list@.len() == i,
            forall|k: int| 0 <= k < i ==> node_model(*list@[k]) == merged_list(models, entries)[k],
        decreases sorted@.len() - i,
    {
        let e = &sorted[i];
        let node = match cur.get_node_by_fullpath(e.fullpath.as_str()) {
            Some(n) => {
                let kept: &ONode = &**n;
                kept.clone()
            },
            None => fresh_node(e),
        };
        list.push(Box::new(node));
        i += 1;
    }
    proof {
        assert(list_model(list@) =~= merged_list(models, entries));
    }
    list
}

impl DirInfo {
    /// The directory at `path`, with the children that `listing` reports.
    /// `listing` is what reading the directory came to: its entries in any
    /// order, or the reader's failure. Without a listing there is no
    /// directory.
    pub fn new_from_fs(path: &str, listing: Result<Vec<Entry>, String>) -> (r: Result<
        Self,
        TreeError,
    >)
        ensures
            match r {
                Ok(d) => listing is Ok && d@ == DirModel::unread(path@).refreshed(
                    entry_views(listing->Ok_0@),
                ) && d@.selection_sound(),
                Err(e) => listing is Err && e is Io && e->Io_0@ == listing->Err_0@,
            },
    {
        let mut s = Self {
            fullpath: path.to_owned(),
            name: path.to_owned(),
            children: OChildren::Unread,
        };
        match s.refresh(listing) {
            Ok(()) => Ok(s),
            Err(e) => Err(e),
        }
    }

    /// Takes a new read of the directory into its children. `listing` is
    /// what the read came to: the entries in any order, or the reader's
    /// failure.
    ///
    /// A failed read is handed on, and the directory is then left as it
    /// was. Else the children are the listing in canonical order. What is
    /// known below a child whose path is still listed stays known, and the
    /// selected position names a child afterwards.
    pub fn refresh(&mut self, listing: Result<Vec<Entry>, String>) -> (r: Result<(), TreeError>)
        ensures
            final(self)@ == old(self)@.after_read(listing_view(listing)),
            read_answered(listing_view(listing), r),
            r is Ok ==> final(self)@.selection_sound(),
            listing is Ok ==> final(self)@.child_list().len() == listing->Ok_0@.len(),
    {
        let entries = match listing {
            Ok(entries) => entries,
            Err(msg) => {
                return Err(TreeError::Io(msg));
            },
        };
        let sorted = sort_entries(entries);
        let (list, selected) = match &self.children {
            OChildren::Loaded(cur_chs) => (merge_nodes(cur_chs, &sorted), cur_chs.selected),
            _ => {
                let none = ChildrenState { list: Vec::new(), selected: 0 };
                proof {
                    assert(list_model(none.list@) =~= Seq::<NodeModel>::empty());
                }
                (merge_nodes(&none, &sorted), 0)
            },
        };
        proof {
            assert(list_model(list@).len() == list@.len());
        }
        let count = list.len();
        if count == 0 {
            self.children = OChildren::Empty;
        } else {
            let kept = if selected < count {
                selected
            } else {
                count - 1
            };
            self.children = OChildren::Loaded(ChildrenState { list, selected: kept });
        }
        Ok(())
    }

    /// Collapses the directory: it counts as not read, whatever was known
    /// of its children.
    pub fn collapse(&mut self)
        ensures
            final(self)@ == (DirModel { children: ChildrenModel::Unread, ..old(self)@ }),
    {
        self.children = OChildren::Unread;
    }

    /// Takes `listing`, what a read of the directory came to, into the
    /// children of a directory that was not read. One that was read stays
    /// as it is, and the listing is then not looked at.
    pub fn read_children(&mut self, listing: Result<Vec<Entry>, String>) -> (r: Result<
        (),
        TreeError,
    >)
        ensures
            final(self)@ == if old(self)@.children is Unread {
                old(self)@.after_read(listing_view(listing))
            } else {
                old(self)@
            },
            if old(self)@.children is Unread {
                read_answered(listing_view(listing), r)
            } else {
                r is Ok
            },
    {
        match self.children {
            OChildren::Unread => self.refresh(listing),
            _ => Ok(()),
        }
    }

    /// Toggles the directory: one with children is collapsed and counts as
    /// not read; one without children, read or not, is loaded from
    /// `listing`.
    ///
    /// `listing` is what reading the directory came to, or none if it was
    /// not read. It is looked at only where the directory has no children.
    /// A failed read is handed on, and a read that was needed and not made
    /// is refused as a broken contract; the directory is then left as it
    /// was.
    pub fn collapse_or_expand(&mut self, listing: Option<Result<Vec<Entry>, String>>) -> (r:
        Result<(), TreeError>)
        ensures
            final(self)@ == old(self)@.toggled(offered_view(listing)),
            !old(self)@.toggle_reads() ==> r is Ok,
            old(self)@.toggle_reads() ==> match listing {
                Some(l) => read_answered(listing_view(l), r),
                None => r is Err && r->Err_0 is InvariantViolation,
            },
            r is Ok ==> final(self)@.selection_sound(),
    {
        match self.children {
            OChildren::Loaded(_) => {
                self.children = OChildren::Unread;
                Ok(())
            },
            _ => {
                match listing {
                    Some(l) => self.refresh(l),
                    None => Err(TreeError::InvariantViolation),
                }
            },
        }
    }
}

impl ONode {
    /// Whether the node is a directory.
    pub fn is_dir(&self) -> (r: bool)
        ensures
            r == (self is Dir),
    {
        match self {
            ONode::Dir(_) => true,
            ONode::File(_) => false,
        }
    }

    /// The full path of the node.
    pub fn get_full_path(&self) -> (path: String)
        ensures
            path@ == self@.full_path(),
    {
        match self {
            ONode::Dir(dirinfo) => dirinfo.fullpath.clone(),
            ONode::File(finfo) => finfo.fullpath.clone(),
        }
    }
}

} // verus!
