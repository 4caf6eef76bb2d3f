//! The file-tree sidebar: a lazily-loaded directory tree with a movable
//! selection.
//!
//! Each directory's children are read only when it is first expanded, so
//! opening the editor in a large repository stays instant. The tree is shown by
//! flattening the expanded nodes into a list of visible rows.
use crate::order::{lemma_lex_total, lemma_lex_transitive, lex_less, lexically_less};
use crate::paths::path_bytes;
use crate::style::Style;
use crate::text::chars_of;
use crate::theme::Theme;
use std::path::PathBuf;
use vstd::prelude::*;

verus! {

/// A file or directory of the tree.
#[derive(Debug)]
pub struct Node {
    pub name: String,
    pub path: PathBuf,
    pub is_dir: bool,
    /// Depth below the (hidden) root; the root's children are depth 1.
    pub depth: usize,
    pub expanded: bool,
    /// `None` until the directory is first expanded.
    pub children: Option<Vec<Node>>,
}

/// A file or directory of the tree, as a value of the specifications.
pub struct NodeView {
    pub name: Seq<char>,
    pub path: Seq<u8>,
    pub is_dir: bool,
    pub depth: int,
    pub expanded: bool,
    pub children: Option<Seq<NodeView>>,
}

/// The nodes of a list, as values of the specifications.
pub open spec fn node_views(nodes: Seq<Node>) -> Seq<NodeView>
    decreases nodes,
{
    if nodes.len() == 0 {
        Seq::empty()
    } else {
        node_views(nodes.drop_last()).push(node_view(nodes.last()))
    }
}

/// A node, as a value of the specifications.
pub open spec fn node_view(n: Node) -> NodeView
    decreases n,
{
    NodeView {
        name: n.name@,
        path: path_bytes(n.path),
        is_dir: n.is_dir,
        depth: n.depth as int,
        expanded: n.expanded,
        children: match n.children {
            Some(c) => Some(node_views(c@)),
            None => None,
        },
    }
}

impl NodeView {
    /// Whether the node's children are shown.
    pub open spec fn is_open(self) -> bool {
        self.is_dir && self.expanded && self.children is Some
    }
}

/// The visible rows of some nodes, in display order.
pub open spec fn rows_of(nodes: Seq<NodeView>) -> Seq<NodeView>
    decreases nodes,
{
    if nodes.len() == 0 {
        Seq::empty()
    } else {
        rows_of(nodes.drop_last()) + rows(nodes.last())
    }
}

/// The visible rows of one node: its own, then those of its children if they
/// are shown.
pub open spec fn rows(n: NodeView) -> Seq<NodeView>
    decreases n,
{
    seq![n] + if n.is_open() {
        rows_of(n.children->0)
    } else {
        Seq::empty()
    }
}

/// What is done to the selected row.
pub enum RowChange {
    Expand,
    Collapse,
    Toggle,
    Load(Vec<Node>),
}

/// What is done to the selected row, as a value of the specifications.
pub enum Change {
    Expand,
    Collapse,
    Toggle,
    Load(Seq<NodeView>),
}

impl RowChange {
    pub open spec fn change(self) -> Change {
        match self {
            RowChange::Expand => Change::Expand,
            RowChange::Collapse => Change::Collapse,
            RowChange::Toggle => Change::Toggle,
            RowChange::Load(nodes) => Change::Load(node_views(nodes@)),
        }
    }
}

impl Change {
    /// The node after the change. Only directories are expanded and collapsed,
    /// and only a node without children takes some.
    pub open spec fn on(self, n: NodeView) -> NodeView {
        match self {
            Change::Expand => NodeView { expanded: n.expanded || n.is_dir, ..n },
            Change::Collapse => NodeView { expanded: n.expanded && !n.is_dir, ..n },
            Change::Toggle => NodeView { expanded: n.expanded != n.is_dir, ..n },
            Change::Load(nodes) => NodeView {
                children: if n.children is None {
                    Some(nodes)
                } else {
                    n.children
                },
                ..n
            },
        }
    }
}

/// Some nodes with the change made to visible row `t`.
pub open spec fn changed_in(nodes: Seq<NodeView>, t: int, change: Change) -> Seq<NodeView>
    decreases nodes,
{
    if nodes.len() == 0 {
        nodes
    } else {
        let front = nodes.drop_last();
        let k = rows_of(front).len();
        if t < k {
            changed_in(front, t, change).push(nodes.last())
        } else {
            front.push(changed_node(nodes.last(), t - k, change))
        }
    }
}

/// A node with the change made to its visible row `t`.
pub open spec fn changed_node(n: NodeView, t: int, change: Change) -> NodeView
    decreases n,
{
    if t == 0 {
        change.on(n)
    } else if n.is_open() {
        NodeView { children: Some(changed_in(n.children->0, t - 1, change)), ..n }
    } else {
        n
    }
}

proof fn lemma_node_views_len(nodes: Seq<Node>)
    ensures
        node_views(nodes).len() == nodes.len(),
        forall|i: int|
            0 <= i < nodes.len() ==> #[trigger] node_views(nodes)[i] == node_view(nodes[i]),
    decreases nodes.len(),
{
    if nodes.len() > 0 {
        lemma_node_views_len(nodes.drop_last());
    }
}

proof fn lemma_node_views_update(nodes: Seq<Node>, k: int, n: Node)
    requires
        0 <= k < nodes.len(),
    ensures
        node_views(nodes.update(k, n)) == node_views(nodes).update(k, node_view(n)),
{
    lemma_node_views_len(nodes);
    lemma_node_views_len(nodes.update(k, n));
    assert(node_views(nodes.update(k, n)) =~= node_views(nodes).update(k, node_view(n)));
}

proof fn lemma_rows_nonempty(n: NodeView)
    ensures
        rows(n).len() > 0,
        rows(n)[0] == n,
{
}

/// The rows of a list are those of its front and those of its rest.
proof fn lemma_rows_split(nodes: Seq<NodeView>, k: int)
    requires
        0 <= k <= nodes.len(),
    ensures
        rows_of(nodes) == rows_of(nodes.take(k)) + rows_of(nodes.skip(k)),
    decreases nodes.len(),
{
    if k == nodes.len() {
        assert(nodes.take(k) =~= nodes);
        assert(nodes.skip(k) =~= Seq::empty());
        assert(rows_of(nodes) + Seq::<NodeView>::empty() =~= rows_of(nodes));
    } else {
        let front = nodes.drop_last();
        let tail = nodes.skip(k);
        assert(tail.last() == nodes.last());
        assert(rows_of(tail) == rows_of(tail.drop_last()) + rows(tail.last()));
        if k == front.len() {
            assert(nodes.take(k) =~= front);
            assert(tail.drop_last() =~= Seq::empty());
            assert(rows_of(tail.drop_last()) == Seq::<NodeView>::empty());
            assert(Seq::<NodeView>::empty() + rows(nodes.last()) =~= rows(nodes.last()));
        } else {
            lemma_rows_split(front, k);
            assert(front.take(k) =~= nodes.take(k));
            assert(tail.drop_last() =~= front.skip(k));
            assert(rows_of(nodes.take(k)) + (rows_of(front.skip(k)) + rows(nodes.last()))
                =~= rows_of(nodes.take(k)) + rows_of(front.skip(k)) + rows(nodes.last()));
        }
    }
}

/// The change is made to the one node in the list that shows row `t`.
proof fn lemma_changed_in(nodes: Seq<NodeView>, t: int, change: Change, i: int)
    requires
        0 <= i < nodes.len(),
        rows_of(nodes.take(i)).len() <= t < rows_of(nodes.take(i + 1)).len(),
    ensures
        changed_in(nodes, t, change) == nodes.update(
            i,
            changed_node(nodes[i], t - rows_of(nodes.take(i)).len(), change),
        ),
    decreases nodes.len(),
{
    let front = nodes.drop_last();
    if i == nodes.len() - 1 {
        assert(nodes.take(i) =~= front);
        let n = changed_node(nodes[i], t - rows_of(front).len(), change);
        assert(nodes.update(i, n) =~= front.push(n));
    } else {
        assert(front.take(i) =~= nodes.take(i));
        assert(front.take(i + 1) =~= nodes.take(i + 1));
        lemma_rows_split(front, i + 1);
        lemma_changed_in(front, t, change, i);
        let n = changed_node(nodes[i], t - rows_of(nodes.take(i)).len(), change);
        assert(nodes.update(i, n) =~= front.update(i, n).push(nodes.last()));
    }
}

proof fn lemma_rows_step(nodes: Seq<NodeView>, i: int)
    requires
        0 <= i < nodes.len(),
    ensures
        rows_of(nodes.take(i + 1)) == rows_of(nodes.take(i)) + rows(nodes[i]),
{
    assert(nodes.take(i + 1).drop_last() =~= nodes.take(i));
}

/// Makes a change to the visible row that lies `skip` rows on, or counts the
/// rows off. Returns whether the row was found.
fn change_in(nodes: &mut Vec<Node>, skip: &mut usize, change: RowChange) -> (r: Option<RowChange>)
    ensures
        if *old(skip) < rows_of(node_views(old(nodes)@)).len() {
            &&& r is None
            &&& node_views(final(nodes)@) == changed_in(
                node_views(old(nodes)@),
                *old(skip) as int,
                change.change(),
            )
        } else {
            &&& r == Some(change)
            &&& node_views(final(nodes)@) == node_views(old(nodes)@)
            &&& *final(skip) == *old(skip) - rows_of(node_views(old(nodes)@)).len()
        },
    decreases old(nodes)@,
{
    let ghost all = nodes@;
    let ghost views = node_views(all);
    let ghost start = *skip as int;
    let ghost asked = change;
    let mut pending = change;
    let mut i: usize = 0;
    proof {
        lemma_node_views_len(all);
        assert(views.take(0) =~= Seq::empty());
    }
    while i < nodes.len()
        invariant
            i <= nodes@.len(),
            nodes@.len() == all.len(),
            all == old(nodes)@,
            forall|k: int| i <= k < all.len() ==> #[trigger] nodes@[k] == all[k],
            node_views(nodes@) == views,
            views == node_views(all),
            views.len() == all.len(),
            pending == asked,
            change == asked,
            start == *old(skip),
            *skip == start - rows_of(views.take(i as int)).len(),
            forall|k: int| 0 <= k < all.len() ==> #[trigger] views[k] == node_view(all[k]),
        decreases nodes@.len() - i,
    {
        proof {
            lemma_rows_step(views, i as int);
            lemma_rows_split(views, i + 1);
            lemma_rows_nonempty(views[i as int]);
            assert(decreases_to!(old(nodes)@ => all[i as int]));
        }
        let ghost before = nodes@;
        assert(nodes@[i as int] == all[i as int]);
        let found = change_node(&mut nodes[i], skip, pending);
        proof {
            let n = nodes@[i as int];
            assert(nodes@ =~= before.update(i as int, n));
            lemma_node_views_update(before, i as int, n);
        }
        match found {
            None => {
                proof {
                    lemma_changed_in(views, start, asked.change(), i as int);
                }
                return None;
            },
            Some(c) => {
                pending = c;
                assert(node_views(nodes@) =~= views);
            },
        }
        i += 1;
    }
    proof {
        assert(views.take(views.len() as int) =~= views);
    }
    Some(pending)
}

/// Makes a change to the visible row of a node that lies `skip` rows on, or
/// counts the rows off.
fn change_node(node: &mut Node, skip: &mut usize, change: RowChange) -> (r: Option<RowChange>)
    ensures
        if *old(skip) < rows(node_view(*old(node))).len() {
            &&& r is None
            &&& node_view(*final(node)) == changed_node(
                node_view(*old(node)),
                *old(skip) as int,
                change.change(),
            )
        } else {
            &&& r == Some(change)
            &&& node_view(*final(node)) == node_view(*old(node))
            &&& *final(skip) == *old(skip) - rows(node_view(*old(node))).len()
        },
    decreases *old(node),
{
    if *skip == 0 {
        match change {
            RowChange::Expand => {
                if node.is_dir {
                    node.expanded = true;
                }
            },
            RowChange::Collapse => {
                if node.is_dir {
                    node.expanded = false;
                }
            },
            RowChange::Toggle => {
                if node.is_dir {
                    node.expanded = !node.expanded;
                }
            },
            RowChange::Load(nodes) => {
                if node.children.is_none() {
                    node.children = Some(nodes);
                }
            },
        }
        return None;
    }
    *skip -= 1;
    if node.is_dir && node.expanded {
        match &mut node.children {
            Some(children) => change_in(children, skip, change),
            None => Some(change),
        }
    } else {
        Some(change)
    }
}

// ---------------------------------------------------------------------------
// The children of a directory.

/// One entry of a directory, as it was read: its path, the last part of the
/// path as text if it has one, and the whole path as text.
#[derive(Debug)]
pub struct Entry {
    pub path: PathBuf,
    pub file_name: Option<String>,
    pub shown: String,
    pub is_dir: bool,
}

/// The node of an entry: named by the last part of its path, or by the whole
/// path where it has none; collapsed, and with nothing read of it.
pub open spec fn node_of(e: Entry, depth: int) -> NodeView {
    NodeView {
        name: match e.file_name {
            Some(n) => n@,
            None => e.shown@,
        },
        path: path_bytes(e.path),
        is_dir: e.is_dir,
        depth,
        expanded: false,
        children: None,
    }
}

/// Whether `a` is listed after `b`: directories come first, and within each
/// group the names are in lexical order.
pub open spec fn listed_after(a: NodeView, b: NodeView) -> bool {
    (b.is_dir && !a.is_dir) || (a.is_dir == b.is_dir && lex_less(b.name, a.name))
}

/// Where a node goes in a list: after all that are not listed after it.
pub open spec fn place_in(list: Seq<NodeView>, n: NodeView) -> int
    decreases list.len(),
{
    if list.len() == 0 || !listed_after(list.last(), n) {
        list.len() as int
    } else {
        place_in(list.drop_last(), n)
    }
}

/// The nodes in the order in which they are listed; nodes that belong at one
/// place stay in their order.
pub open spec fn listed(nodes: Seq<NodeView>) -> Seq<NodeView>
    decreases nodes.len(),
{
    if nodes.len() == 0 {
        Seq::empty()
    } else {
        let rest = listed(nodes.drop_last());
        rest.insert(place_in(rest, nodes.last()), nodes.last())
    }
}

/// The nodes of a directory's entries, in the order in which they are listed.
pub open spec fn children_of(entries: Seq<Entry>, depth: int) -> Seq<NodeView> {
    listed(entries.map_values(|e: Entry| node_of(e, depth)))
}

impl Node {
    fn new(entry: Entry, depth: usize) -> (r: Self)
        ensures
            node_view(r) == node_of(entry, depth as int),
    {
        let name = match entry.file_name {
            Some(n) => n,
            None => entry.shown,
        };
        Self {
            name,
            path: entry.path,
            is_dir: entry.is_dir,
            depth,
            expanded: false,
            children: None,
        }
    }

    fn after(&self, other: &Node) -> (r: bool)
        ensures
            r == listed_after(node_view(*self), node_view(*other)),
    {
        if self.is_dir != other.is_dir {
            return other.is_dir;
        }
        let a = chars_of(other.name.as_str());
        let b = chars_of(self.name.as_str());
        lexically_less(&a, &b)
    }
}

proof fn lemma_place_in(list: Seq<NodeView>, n: NodeView)
    ensures
        0 <= place_in(list, n) <= list.len(),
    decreases list.len(),
{
    if list.len() > 0 && listed_after(list.last(), n) {
        lemma_place_in(list.drop_last(), n);
    }
}

/// A directory's immediate children, directories first then files, each group
/// sorted by name.
fn read_children(entries: Vec<Entry>, depth: usize) -> (r: Vec<Node>)
    ensures
        node_views(r@) == children_of(entries@, depth as int),
{
    let ghost all = entries@.map_values(|e: Entry| node_of(e, depth as int));
    let ghost given = entries@;
    let mut rest = entries;
    let mut turned: Vec<Entry> = Vec::new();
    let mut nodes: Vec<Node> = Vec::new();
    // Taken from the back, then from the front again.
    while rest.len() > 0
        invariant
            rest@.len() + turned@.len() == given.len(),
            rest@ == given.take(rest@.len() as int),
            forall|k: int|
                0 <= k < turned@.len() ==> #[trigger] turned@[k] == given[given.len() - 1 - k],
        decreases rest@.len(),
    {
        let e = rest.pop().unwrap();
        assert(e == given[rest@.len() as int]);
        turned.push(e);
        assert(rest@ =~= given.take(rest@.len() as int));
    }
    let ghost mut done: int = 0;
    assert(all.take(0) =~= Seq::empty());
    assert(node_views(nodes@) =~= listed(all.take(0)));
    while turned.len() > 0
        invariant
            0 <= done <= given.len(),
            turned@.len() == given.len() - done,
            all == given.map_values(|e: Entry| node_of(e, depth as int)),
            forall|k: int|
                0 <= k < turned@.len() ==> #[trigger] turned@[k] == given[given.len() - 1 - k],
            node_views(nodes@) == listed(all.take(done)),
        decreases turned@.len(),
    {
        let e = turned.pop().unwrap();
        assert(e == given[done]);
        let node = Node::new(e, depth);
        let ghost n = node_view(node);
        assert(n == all[done]);
        let ghost before = nodes@;
        let ghost list = node_views(before);
        proof {
            lemma_node_views_len(before);
            lemma_place_in(list, n);
            assert(list.take(list.len() as int) =~= list);
        }
        let mut k: usize = nodes.len();
        while k > 0 && nodes[k - 1].after(&node)
            invariant
                k <= nodes@.len(),
                nodes@ == before,
                list == node_views(before),
                list.len() == before.len(),
                n == node_view(node),
                forall|m: int| 0 <= m < before.len() ==> #[trigger] list[m] == node_view(before[m]),
                place_in(list, n) == place_in(list.take(k as int), n),
            decreases k,
        {
            assert(list.take(k as int).drop_last() =~= list.take(k - 1));
            assert(list.take(k as int).last() == list[k - 1]);
            k -= 1;
        }
        proof {
            if k > 0 {
                assert(list.take(k as int).last() == list[k - 1]);
            }
            assert(place_in(list, n) == k);
        }
        nodes.insert(k, node);
        proof {
            lemma_node_views_len(nodes@);
            assert(node_views(nodes@) =~= list.insert(k as int, n));
            assert(all.take(done + 1).drop_last() =~= all.take(done));
            done = done + 1;
        }
    }
    assert(all.take(done) =~= all);
    nodes
}

// ---------------------------------------------------------------------------
// The tree.

/// What came of activating a row.
#[derive(Debug)]
pub enum Activation {
    /// Nothing more is to be done.
    Done,
    /// The file is to be opened.
    Open(PathBuf),
    /// The directory was expanded for the first time: its entries are to be
    /// read and handed to [`FileTree::load_selected`].
    Read(PathBuf),
}

#[derive(Debug)]
pub struct FileTree {
    /// The top-level rows: the children of the working directory, which is not
    /// itself shown.
    pub nodes: Vec<Node>,
    pub selected: usize,
}

/// A selection that lies within `count` rows.
pub open spec fn clamped(selected: int, count: nat) -> int {
    if count == 0 {
        0
    } else if selected >= count {
        count - 1
    } else {
        selected
    }
}

/// The rows that a list of nodes stands for.
pub open spec fn row_views(v: Seq<&Node>) -> Seq<NodeView> {
    v.map_values(|n: &Node| node_view(*n))
}

fn collect_nodes<'a>(nodes: &'a Vec<Node>, out: &mut Vec<&'a Node>)
    ensures
        row_views(final(out)@) == row_views(old(out)@) + rows_of(node_views(nodes@)),
    decreases nodes@,
{
    let ghost views = node_views(nodes@);
    let ghost before = row_views(out@);
    let mut i: usize = 0;
    proof {
        lemma_node_views_len(nodes@);
        assert(views.take(0) =~= Seq::empty());
        assert(before + rows_of(views.take(0)) =~= before);
    }
    while i < nodes.len()
        invariant
            i <= nodes@.len(),
            views == node_views(nodes@),
            views.len() == nodes@.len(),
            forall|k: int| 0 <= k < nodes@.len() ==> #[trigger] views[k] == node_view(nodes@[k]),
            row_views(out@) == before + rows_of(views.take(i as int)),
        decreases nodes@.len() - i,
    {
        proof {
            lemma_rows_step(views, i as int);
            assert(decreases_to!(nodes@ => nodes@[i as int]));
            assert(views[i as int] == node_view(nodes@[i as int]));
        }
        collect_visible(&nodes[i], out);
        assert(row_views(out@) =~= before + rows_of(views.take(i + 1)));
        i += 1;
    }
    assert(views.take(i as int) =~= views);
}

fn collect_visible<'a>(node: &'a Node, out: &mut Vec<&'a Node>)
    ensures
        row_views(final(out)@) == row_views(old(out)@) + rows(node_view(*node)),
    decreases *node,
{
    let ghost before = row_views(out@);
    let ghost n = node_view(*node);
    out.push(node);
    assert(row_views(out@) =~= before + seq![n]);
    if node.is_dir && node.expanded {
        match &node.children {
            Some(children) => {
                collect_nodes(children, out);
                assert(row_views(out@) =~= before + rows(n));
            },
            None => {
                assert(before + seq![n] =~= before + rows(n));
            },
        }
    } else {
        assert(before + seq![n] =~= before + rows(n));
    }
}

impl FileTree {
    /// The visible rows.
    pub open spec fn rows(self) -> Seq<NodeView> {
        rows_of(node_views(self.nodes@))
    }

    /// The selected row, if the selection is within the rows.
    pub open spec fn selected_row(self) -> Option<NodeView> {
        if self.selected < self.rows().len() {
            Some(self.rows()[self.selected as int])
        } else {
            None
        }
    }

    /// The nodes with a change made to the selected row.
    pub open spec fn changed(self, change: Change) -> Seq<NodeView> {
        if self.selected < self.rows().len() {
            changed_in(node_views(self.nodes@), self.selected as int, change)
        } else {
            node_views(self.nodes@)
        }
    }

    /// A tree over the entries of the working directory.
    pub fn new(entries: Vec<Entry>) -> (r: Self)
        ensures
            node_views(r.nodes@) == children_of(entries@, 1),
            r.selected == 0,
    {
        Self { nodes: read_children(entries, 1), selected: 0 }
    }

    /// The currently visible rows, in display order.
    pub fn visible(&self) -> (r: Vec<&Node>)
        ensures
            row_views(r@) == self.rows(),
    {
        let mut out: Vec<&Node> = Vec::new();
        collect_nodes(&self.nodes, &mut out);
        assert(row_views(out@) =~= self.rows());
        out
    }

    pub fn selected_path(&self) -> (r: Option<PathBuf>)
        ensures
            match (r, self.selected_row()) {
                (Some(p), Some(row)) => path_bytes(p) == row.path,
                (None, None) => true,
                _ => false,
            },
    {
        let rows = self.visible();
        assert(row_views(rows@).len() == rows@.len());
        if self.selected < rows.len() {
            let path = rows[self.selected].path.clone();
            assert(row_views(rows@)[self.selected as int] == node_view(
                *rows@[self.selected as int],
            ));
            Some(path)
        } else {
            None
        }
    }

    pub fn select_next(&mut self)
        ensures
            final(self).nodes == old(self).nodes,
            final(self).selected == if old(self).selected + 1 < old(self).rows().len() {
                old(self).selected + 1
            } else {
                old(self).selected as int
            },
    {
        let rows = self.visible();
        assert(row_views(rows@).len() == rows@.len());
        let count: usize = rows.len();
        if count > 0 && self.selected < count - 1 {
            self.selected += 1;
        }
    }

    pub fn select_prev(&mut self)
        ensures
            final(self).nodes == old(self).nodes,
            final(self).selected == if old(self).selected > 0 {
                old(self).selected - 1
            } else {
                0
            },
    {
        if self.selected > 0 {
            self.selected -= 1;
        }
    }

    /// The selected row's facts: whether it is a directory, whether it is
    /// expanded, whether its children were read, and its path and depth.
    fn selected_facts(&self) -> (r: Option<(bool, bool, bool, PathBuf, usize)>)
        ensures
            match (r, self.selected_row()) {
                (Some(f), Some(row)) => {
                    &&& f.0 == row.is_dir
                    &&& f.1 == row.expanded
                    &&& f.2 == (row.children is Some)
                    &&& path_bytes(f.3) == row.path
                    &&& f.4 == row.depth
                },
                (None, None) => true,
                _ => false,
            },
    {
        let rows = self.visible();
        assert(row_views(rows@).len() == rows@.len());
        if self.selected < rows.len() {
            let n = rows[self.selected];
            assert(row_views(rows@)[self.selected as int] == node_view(
                *rows@[self.selected as int],
            ));
            Some((n.is_dir, n.expanded, n.children.is_some(), n.path.clone(), n.depth))
        } else {
            None
        }
    }

    fn change_selected(&mut self, change: RowChange)
        ensures
            node_views(final(self).nodes@) == old(self).changed(change.change()),
            final(self).selected == old(self).selected,
    {
        let mut skip: usize = self.selected;
        let _ = change_in(&mut self.nodes, &mut skip, change);
    }

    /// Expands the selected directory. Returns the directory if its entries are
    /// to be read and handed to [`load_selected`](Self::load_selected), which is
    /// so when it is expanded for the first time.
    pub fn expand_selected(&mut self) -> (r: Option<PathBuf>)
        ensures
            node_views(final(self).nodes@) == old(self).changed(Change::Expand),
            final(self).selected == old(self).selected,
            match old(self).selected_row() {
                Some(row) => match r {
                    Some(p) => row.is_dir && !row.expanded && row.children is None && path_bytes(p)
                        == row.path,
                    None => !(row.is_dir && !row.expanded && row.children is None),
                },
                None => r is None,
            },
    {
        let facts = self.selected_facts();
        self.change_selected(RowChange::Expand);
        match facts {
            Some((is_dir, expanded, read, path, _)) => {
                if is_dir && !expanded && !read {
                    Some(path)
                } else {
                    None
                }
            },
            None => None,
        }
    }

    /// Whether the selected row can be given children, one level deeper.
    pub fn takes_entries(&self) -> (r: bool)
        ensures
            r == (self.selected_row() matches Some(row) ==> row.depth < usize::MAX),
    {
        match self.selected_facts() {
            Some((_, _, _, _, depth)) => depth < usize::MAX,
            None => true,
        }
    }

    /// Gives the selected directory its children, if it has none yet.
    pub fn load_selected(&mut self, entries: Vec<Entry>)
        requires
            old(self).selected_row() matches Some(row) ==> row.depth < usize::MAX,
        ensures
            final(self).selected == old(self).selected,
            match old(self).selected_row() {
                Some(row) => node_views(final(self).nodes@) == old(self).changed(
                    Change::Load(children_of(entries@, row.depth + 1)),
                ),
                None => node_views(final(self).nodes@) == node_views(old(self).nodes@),
            },
    {
        match self.selected_facts() {
            Some((_, _, _, _, depth)) => {
                let nodes = read_children(entries, depth + 1);
                self.change_selected(RowChange::Load(nodes));
            },
            None => {},
        }
    }

    pub fn collapse_selected(&mut self)
        ensures
            node_views(final(self).nodes@) == old(self).changed(Change::Collapse),
            final(self).selected == clamped(old(self).selected as int, final(self).rows().len()),
    {
        self.change_selected(RowChange::Collapse);
        self.clamp_selection();
    }

    /// Act on the selected row: toggle a directory, or say which file to open.
    pub fn activate(&mut self) -> (r: Activation)
        ensures
            match old(self).selected_row() {
                Some(row) => {
                    if row.is_dir {
                        &&& node_views(final(self).nodes@) == old(self).changed(Change::Toggle)
                        &&& final(self).selected == clamped(
                            old(self).selected as int,
                            final(self).rows().len(),
                        )
                        &&& match r {
                            Activation::Read(p) => !row.expanded && row.children is None
                                && path_bytes(p) == row.path,
                            Activation::Done => row.expanded || row.children is Some,
                            Activation::Open(_) => false,
                        }
                    } else {
                        &&& *final(self) == *old(self)
                        &&& r matches Activation::Open(p) && path_bytes(p) == row.path
                    }
                },
                None => *final(self) == *old(self) && r is Done,
            },
    {
        match self.selected_facts() {
            None => Activation::Done,
            Some((is_dir, expanded, read, path, _)) => {
                if is_dir {
                    self.change_selected(RowChange::Toggle);
                    self.clamp_selection();
                    if !expanded && !read {
                        Activation::Read(path)
                    } else {
                        Activation::Done
                    }
                } else {
                    Activation::Open(path)
                }
            },
        }
    }

    fn clamp_selection(&mut self)
        ensures
            final(self).nodes == old(self).nodes,
            final(self).selected == clamped(old(self).selected as int, old(self).rows().len()),
    {
        let rows = self.visible();
        assert(row_views(rows@).len() == rows@.len());
        let count: usize = rows.len();
        if count == 0 {
            self.selected = 0;
        } else if self.selected >= count {
            self.selected = count - 1;
        }
    }

    /// The rows as they are drawn: an indent by depth, a marker that says
    /// whether a directory is open, and the name; the selected row stands out.
    pub fn render(&self, focused: bool, theme: &Theme) -> (r: Vec<(String, Style)>)
        requires
            forall|i: int|
                0 <= i < self.rows().len() ==> 2 * (#[trigger] self.rows()[i]).depth <= usize::MAX,
        ensures
            r@.len() == self.rows().len(),
            forall|i: int|
                0 <= i < r@.len() ==> {
                    &&& (#[trigger] r@[i]).0@ == row_text(self.rows()[i])
                    &&& r@[i].1 == row_style(i == self.selected, focused, *theme)
                },
    {
        let rows = self.visible();
        let mut out: Vec<(String, Style)> = Vec::new();
        let mut i: usize = 0;
        assert(row_views(rows@).len() == rows@.len());
        while i < rows.len()
            invariant
                i <= rows@.len(),
                row_views(rows@) == self.rows(),
                out@.len() == i,
                forall|k: int|
                    0 <= k < self.rows().len() ==> 2 * (#[trigger] self.rows()[k]).depth
                        <= usize::MAX,
                forall|k: int|
                    0 <= k < i ==> {
                        &&& (#[trigger] out@[k]).0@ == row_text(self.rows()[k])
                        &&& out@[k].1 == row_style(k == self.selected, focused, *theme)
                    },
            decreases rows@.len() - i,
        {
            let n = rows[i];
            assert(self.rows()[i as int] == node_view(*n)) by {
                assert(row_views(rows@)[i as int] == node_view(*rows@[i as int]));
            }
            let mut text = String::new();
            let indent: usize = if n.depth > 0 {
                2 * (n.depth - 1)
            } else {
                0
            };
            let mut k: usize = 0;
            while k < indent
                invariant
                    k <= indent,
                    text@ == spaces(k as int),
                decreases indent - k,
            {
                text.push(' ');
                k += 1;
                assert(text@ =~= spaces(k as int));
            }
            let marker: char = if n.is_dir {
                if n.expanded {
                    '\u{25be}'
                } else {
                    '\u{25b8}'
                }
            } else {
                ' '
            };
            text.push(marker);
            text.push(' ');
            text.append(n.name.as_str());
            if n.is_dir {
                text.push('/');
            }
            assert(text@ =~= row_text(self.rows()[i as int]));
            let style = if i == self.selected {
                if focused {
                    Style::new().bg(theme.focus_bg).fg(theme.focus_fg)
                } else {
                    Style::new().bg(theme.inactive_bg)
                }
            } else {
                Style::new()
            };
            out.push((text, style));
            i += 1;
        }
        out
    }
}

/// `n` spaces.
pub open spec fn spaces(n: int) -> Seq<char> {
    Seq::new(n as nat, |i: int| ' ')
}

/// The text of a row.
pub open spec fn row_text(n: NodeView) -> Seq<char> {
    let indent = if n.depth > 0 {
        2 * (n.depth - 1)
    } else {
        0
    };
    let marker = if n.is_dir {
        if n.expanded {
            '\u{25be}'
        } else {
            '\u{25b8}'
        }
    } else {
        ' '
    };
    let slash = if n.is_dir {
        seq!['/']
    } else {
        Seq::empty()
    };
    spaces(indent) + seq![marker, ' '] + n.name + slash
}

/// The style of a row: the focus colors for the selected row of a focused tree,
/// a tinted background for that of another, nothing for the rest.
pub open spec fn row_style(selected: bool, focused: bool, theme: Theme) -> Style {
    if selected && focused {
        theme.row_style(true)
    } else if selected {
        Style { bg: Some(theme.inactive_bg), ..Style::plain() }
    } else {
        Style::plain()
    }
}

// ---------------------------------------------------------------------------
// Laws.

/// What a row shows of its node: everything but the children.
pub open spec fn face(n: NodeView) -> NodeView {
    NodeView { children: None, ..n }
}

/// What the rows show.
pub open spec fn faces(rows: Seq<NodeView>) -> Seq<NodeView> {
    rows.map_values(|n: NodeView| face(n))
}

proof fn lemma_faces_sum(a: Seq<NodeView>, b: Seq<NodeView>)
    ensures
        faces(a + b) == faces(a) + faces(b),
{
    assert(faces(a + b) =~= faces(a) + faces(b));
}

/// A change to a row touches no row outside the rows that it shows: those
/// before it stay, its own and those below it become the rows of the changed
/// node, and those after them stay.
pub proof fn change_touches_own_rows(nodes: Seq<NodeView>, t: int, change: Change)
    requires
        0 <= t < rows_of(nodes).len(),
    ensures
        ({
            let all = rows_of(nodes);
            let own = rows(all[t]).len() as int;
            &&& t + own <= all.len()
            &&& all.subrange(t, t + own) == rows(all[t])
            &&& faces(rows_of(changed_in(nodes, t, change))) == faces(all).take(t) + faces(
                rows(change.on(all[t])),
            ) + faces(all).skip(t + own)
        }),
    decreases nodes, 1nat,
{
    let front = nodes.drop_last();
    let last = nodes.last();
    let a = rows_of(front);
    let all = rows_of(nodes);
    let k = a.len() as int;
    if t < k {
        change_touches_own_rows(front, t, change);
        let own = rows(a[t]).len() as int;
        let new = changed_in(front, t, change);
        assert(all[t] == a[t]);
        assert(all.subrange(t, t + own) =~= a.subrange(t, t + own));
        assert(new.push(last).drop_last() =~= new);
        assert(rows_of(changed_in(nodes, t, change)) == rows_of(new) + rows(last));
        lemma_faces_sum(rows_of(new), rows(last));
        lemma_faces_sum(a, rows(last));
        let mid = faces(rows(change.on(a[t])));
        assert(faces(a).take(t) + mid + faces(a).skip(t + own) + faces(rows(last)) =~= faces(
            all,
        ).take(t) + mid + faces(all).skip(t + own));
    } else {
        node_change_touches_own_rows(last, t - k, change);
        let b = rows(last);
        let own = rows(b[t - k]).len() as int;
        let new = changed_node(last, t - k, change);
        assert(all[t] == b[t - k]);
        assert(all.subrange(t, t + own) =~= b.subrange(t - k, t - k + own));
        assert(front.push(new).drop_last() =~= front);
        assert(rows_of(changed_in(nodes, t, change)) == a + rows(new));
        lemma_faces_sum(a, rows(new));
        lemma_faces_sum(a, b);
        let mid = faces(rows(change.on(all[t])));
        assert(faces(a) + (faces(b).take(t - k) + mid + faces(b).skip(t - k + own)) =~= faces(
            all,
        ).take(t) + mid + faces(all).skip(t + own));
    }
}

proof fn node_change_touches_own_rows(n: NodeView, t: int, change: Change)
    requires
        0 <= t < rows(n).len(),
    ensures
        ({
            let all = rows(n);
            let own = rows(all[t]).len() as int;
            &&& t + own <= all.len()
            &&& all.subrange(t, t + own) == rows(all[t])
            &&& faces(rows(changed_node(n, t, change))) == faces(all).take(t) + faces(
                rows(change.on(all[t])),
            ) + faces(all).skip(t + own)
        }),
    decreases n, 0nat,
{
    let all = rows(n);
    if t == 0 {
        assert(all[0] == n);
        assert(all.subrange(0, all.len() as int) =~= all);
        let mid = faces(rows(change.on(n)));
        assert(faces(all).take(0) + mid + faces(all).skip(all.len() as int) =~= mid);
    } else {
        let c = n.children->0;
        let below = rows_of(c);
        change_touches_own_rows(c, t - 1, change);
        let own = rows(below[t - 1]).len() as int;
        let new = changed_node(n, t, change);
        assert(all[t] == below[t - 1]);
        assert(all.subrange(t, t + own) =~= below.subrange(t - 1, t - 1 + own));
        assert(new.is_open());
        assert(rows(new) == seq![new] + rows_of(changed_in(c, t - 1, change)));
        lemma_faces_sum(seq![new], rows_of(changed_in(c, t - 1, change)));
        lemma_faces_sum(seq![n], below);
        assert(faces(seq![new]) =~= faces(seq![n]));
        let mid = faces(rows(change.on(all[t])));
        assert(faces(seq![n]) + (faces(below).take(t - 1) + mid + faces(below).skip(t - 1 + own))
            =~= faces(all).take(t) + mid + faces(all).skip(t + own));
    }
}

/// Whether `after` shows the same as `before`, but for row `t`, which has become
/// `n`, and the rows below it that are its own.
spec fn row_becomes(before: Seq<NodeView>, after: Seq<NodeView>, t: int, n: NodeView) -> bool {
    let all = rows_of(before);
    let own = rows(all[t]).len() as int;
    &&& t + own <= all.len()
    &&& t < rows_of(after).len()
    &&& rows_of(after)[t] == n
    &&& faces(rows_of(after)) == faces(all).take(t) + faces(rows(n)) + faces(all).skip(t + own)
}

proof fn lemma_row_becomes(
    before: Seq<NodeView>,
    now: Seq<NodeView>,
    t: int,
    n: NodeView,
    change: Change,
)
    requires
        0 <= t < rows_of(before).len(),
        now == before && n == rows_of(before)[t] || row_becomes(before, now, t, n),
    ensures
        row_becomes(before, changed_in(now, t, change), t, change.on(n)),
{
    change_touches_own_rows(before, t, change);
    change_touches_own_rows(now, t, change);
    lemma_changed_row(now, t, change);
    let all = faces(rows_of(before));
    let shown = faces(rows_of(now));
    let own = rows(rows_of(before)[t]).len() as int;
    assert(faces(rows(n)).len() == rows(n).len());
    assert(shown.take(t) =~= all.take(t));
    assert(shown.skip(t + rows(n).len()) =~= all.skip(t + own));
}

/// Expanding a collapsed directory, reading its entries if it has none yet, and
/// collapsing it again shows the same rows as before and keeps it selected.
/// Expanded once more it shows the rows that it showed then, and is not read
/// again.
pub proof fn expand_then_collapse(nodes: Seq<NodeView>, t: int, entries: Seq<NodeView>)
    requires
        0 <= t < rows_of(nodes).len(),
        rows_of(nodes)[t].is_dir,
        !rows_of(nodes)[t].expanded,
    ensures
        ({
            let opened = changed_in(nodes, t, Change::Expand);
            let filled = changed_in(opened, t, Change::Load(entries));
            let shut = changed_in(filled, t, Change::Collapse);
            let again = changed_in(shut, t, Change::Expand);
            &&& t < rows_of(opened).len()
            &&& faces(rows_of(changed_in(opened, t, Change::Collapse))) == faces(rows_of(nodes))
            &&& t < rows_of(filled).len()
            &&& faces(rows_of(shut)) == faces(rows_of(nodes))
            &&& clamped(t, rows_of(shut).len()) == t
            &&& rows_of(shut)[t].children is Some
            &&& faces(rows_of(again)) == faces(rows_of(filled))
        }),
{
    let all = rows_of(nodes);
    let n = all[t];
    let opened = changed_in(nodes, t, Change::Expand);
    let filled = changed_in(opened, t, Change::Load(entries));
    let shut = changed_in(filled, t, Change::Collapse);
    let e = Change::Expand.on(n);
    let f = Change::Load(entries).on(e);
    let s = Change::Collapse.on(f);
    lemma_row_becomes(nodes, nodes, t, n, Change::Expand);
    lemma_row_becomes(nodes, opened, t, e, Change::Collapse);
    lemma_row_becomes(nodes, opened, t, e, Change::Load(entries));
    lemma_row_becomes(nodes, filled, t, f, Change::Collapse);
    lemma_row_becomes(nodes, shut, t, s, Change::Expand);
    assert(Change::Expand.on(s) == f);
    let c = Change::Collapse.on(e);
    lemma_one_row(nodes, t, c);
    lemma_one_row(nodes, t, s);
    assert(faces(rows_of(shut)).len() == rows_of(shut).len());
    assert(faces(all).len() == all.len());
}

/// A row in place of one that shows the same, where neither shows children.
proof fn lemma_one_row(nodes: Seq<NodeView>, t: int, n: NodeView)
    requires
        0 <= t < rows_of(nodes).len(),
        !rows_of(nodes)[t].is_open(),
        !n.is_open(),
        face(n) == face(rows_of(nodes)[t]),
    ensures
        ({
            let all = rows_of(nodes);
            faces(all).take(t) + faces(rows(n)) + faces(all).skip(t + rows(all[t]).len())
                == faces(all)
        }),
{
    let all = rows_of(nodes);
    assert(rows(n) =~= seq![n]);
    assert(rows(all[t]) =~= seq![all[t]]);
    assert(faces(rows(n)) =~= seq![face(n)]);
    assert(faces(all)[t] == face(n));
    assert(faces(all).take(t) + seq![face(n)] + faces(all).skip(t + 1) =~= faces(all));
}

/// Activating a directory, reading its entries if that is asked for, and
/// activating it again shows the same rows as before and keeps it selected.
pub proof fn activating_twice(nodes: Seq<NodeView>, t: int, entries: Seq<NodeView>)
    requires
        0 <= t < rows_of(nodes).len(),
        rows_of(nodes)[t].is_dir,
    ensures
        ({
            let once = changed_in(nodes, t, Change::Toggle);
            let read = changed_in(once, t, Change::Load(entries));
            let twice = changed_in(once, t, Change::Toggle);
            &&& t < rows_of(once).len()
            &&& clamped(t, rows_of(once).len()) == t
            &&& faces(rows_of(twice)) == faces(rows_of(nodes))
            &&& clamped(t, rows_of(twice).len()) == t
            &&& !rows_of(nodes)[t].expanded && rows_of(nodes)[t].children is None ==> faces(
                rows_of(changed_in(read, t, Change::Toggle)),
            ) == faces(rows_of(nodes))
        }),
{
    let all = rows_of(nodes);
    let n = all[t];
    let once = changed_in(nodes, t, Change::Toggle);
    let read = changed_in(once, t, Change::Load(entries));
    let o = Change::Toggle.on(n);
    let r = Change::Load(entries).on(o);
    lemma_row_becomes(nodes, nodes, t, n, Change::Toggle);
    lemma_row_becomes(nodes, once, t, o, Change::Toggle);
    lemma_row_becomes(nodes, once, t, o, Change::Load(entries));
    lemma_row_becomes(nodes, read, t, r, Change::Toggle);
    assert(Change::Toggle.on(o) == n);
    change_touches_own_rows(nodes, t, Change::Toggle);
    lemma_own_rows(nodes, t);
    if !n.expanded {
        lemma_one_row(nodes, t, Change::Toggle.on(r));
    }
    let twice = changed_in(once, t, Change::Toggle);
    assert(faces(rows_of(twice)).len() == rows_of(twice).len());
    assert(faces(all).len() == all.len());
}

/// The rows are those before a row, its own, and those after them.
proof fn lemma_own_rows(nodes: Seq<NodeView>, t: int)
    requires
        0 <= t < rows_of(nodes).len(),
    ensures
        ({
            let all = rows_of(nodes);
            let own = rows(all[t]).len() as int;
            faces(all).take(t) + faces(rows(all[t])) + faces(all).skip(t + own) == faces(all)
        }),
{
    let all = rows_of(nodes);
    let own = rows(all[t]).len() as int;
    change_touches_own_rows(nodes, t, Change::Expand);
    assert forall|i: int| 0 <= i < own implies faces(rows(all[t]))[i] == faces(all)[t + i] by {
        assert(all.subrange(t, t + own)[i] == all[t + i]);
    }
    assert(faces(all).take(t) + faces(rows(all[t])) + faces(all).skip(t + own) =~= faces(all));
}

/// Collapsing a file, or a directory that is collapsed, changes no row.
pub proof fn collapsing_what_is_closed(nodes: Seq<NodeView>, t: int)
    requires
        0 <= t < rows_of(nodes).len(),
        !rows_of(nodes)[t].is_dir || !rows_of(nodes)[t].expanded,
    ensures
        faces(rows_of(changed_in(nodes, t, Change::Collapse))) == faces(rows_of(nodes)),
{
    let n = rows_of(nodes)[t];
    lemma_row_becomes(nodes, nodes, t, n, Change::Collapse);
    lemma_one_row(nodes, t, Change::Collapse.on(n));
}

/// The changed row is the row with the change made to it.
pub proof fn lemma_changed_row(nodes: Seq<NodeView>, t: int, change: Change)
    requires
        0 <= t < rows_of(nodes).len(),
    ensures
        t < rows_of(changed_in(nodes, t, change)).len(),
        rows_of(changed_in(nodes, t, change))[t] == change.on(rows_of(nodes)[t]),
    decreases nodes, 1nat,
{
    let front = nodes.drop_last();
    let last = nodes.last();
    let k = rows_of(front).len() as int;
    if t < k {
        lemma_changed_row(front, t, change);
        let new = changed_in(front, t, change);
        assert(new.push(last).drop_last() =~= new);
    } else {
        lemma_changed_own_row(last, t - k, change);
        assert(front.push(changed_node(last, t - k, change)).drop_last() =~= front);
    }
}

proof fn lemma_changed_own_row(n: NodeView, t: int, change: Change)
    requires
        0 <= t < rows(n).len(),
    ensures
        t < rows(changed_node(n, t, change)).len(),
        rows(changed_node(n, t, change))[t] == change.on(rows(n)[t]),
    decreases n, 0nat,
{
    if t > 0 {
        let c = n.children->0;
        lemma_changed_row(c, t - 1, change);
        let new = changed_node(n, t, change);
        assert(new.is_open());
        assert(rows(new) == seq![new] + rows_of(changed_in(c, t - 1, change)));
    } else {
        lemma_rows_nonempty(change.on(n));
        assert(rows(n)[0] == n);
    }
}

/// Directories are listed before files, and names within each group in lexical
/// order.
pub proof fn directories_come_first(nodes: Seq<NodeView>)
    ensures
        listed(nodes).len() == nodes.len(),
        forall|i: int, j: int|
            0 <= i < j < nodes.len() ==> !listed_after(
                #[trigger] listed(nodes)[i],
                #[trigger] listed(nodes)[j],
            ),
        listed(nodes).to_multiset() == nodes.to_multiset(),
    decreases nodes.len(),
{
    broadcast use vstd::seq_lib::group_to_multiset_ensures;

    if nodes.len() == 0 {
        assert(listed(nodes) =~= nodes);
    } else {
        let front = nodes.drop_last();
        let n = nodes.last();
        let rest = listed(front);
        directories_come_first(front);
        lemma_place_in(rest, n);
        lemma_place_bounds(rest, n);
        let k = place_in(rest, n);
        let all = listed(nodes);
        assert(all == rest.insert(k, n));
        assert forall|i: int, j: int| 0 <= i < j < all.len() implies !listed_after(
            #[trigger] all[i],
            #[trigger] all[j],
        ) by {
            if i < k {
                assert(all[i] == rest[i]);
            } else if i > k {
                assert(all[i] == rest[i - 1]);
            }
            if j < k {
                assert(all[j] == rest[j]);
            } else if j > k {
                assert(all[j] == rest[j - 1]);
            }
            if i == k {
                lemma_listed_after_one_way(all[j], n);
            }
        }
        assert(front.push(n) =~= nodes);
        assert(rest.insert(k, n).to_multiset() =~= rest.to_multiset().insert(n));
    }
}

proof fn lemma_listed_after_one_way(a: NodeView, b: NodeView)
    requires
        listed_after(a, b),
    ensures
        !listed_after(b, a),
{
    lemma_lex_total(a.name, b.name);
    lemma_lex_total(b.name, a.name);
}

proof fn lemma_place_bounds(list: Seq<NodeView>, n: NodeView)
    requires
        forall|i: int, j: int|
            0 <= i < j < list.len() ==> !listed_after(#[trigger] list[i], #[trigger] list[j]),
    ensures
        forall|i: int| 0 <= i < place_in(list, n) ==> !listed_after(#[trigger] list[i], n),
        forall|i: int| place_in(list, n) <= i < list.len() ==> listed_after(#[trigger] list[i], n),
    decreases list.len(),
{
    if list.len() > 0 {
        let rest = list.drop_last();
        assert forall|i: int, j: int| 0 <= i < j < rest.len() implies !listed_after(
            #[trigger] rest[i],
            #[trigger] rest[j],
        ) by {
            assert(rest[i] == list[i] && rest[j] == list[j]);
        }
        if listed_after(list.last(), n) {
            lemma_place_bounds(rest, n);
            lemma_place_in(rest, n);
            assert forall|i: int| 0 <= i < place_in(list, n) implies !listed_after(
                #[trigger] list[i],
                n,
            ) by {
                assert(rest[i] == list[i]);
            }
            assert forall|i: int| place_in(list, n) <= i < list.len() implies listed_after(
                #[trigger] list[i],
                n,
            ) by {
                if i < rest.len() {
                    assert(rest[i] == list[i]);
                }
            }
        } else {
            let last = list[list.len() - 1];
            assert forall|i: int| 0 <= i < list.len() implies !listed_after(
                #[trigger] list[i],
                n,
            ) by {
                if i < list.len() - 1 {
                    assert(!listed_after(list[i], last));
                    if listed_after(list[i], n) {
                        lemma_listed_after_between(list[i], last, n);
                    }
                }
            }
        }
    }
}

/// What is listed after `c` is listed after anything that is not listed after
/// `c`.
proof fn lemma_listed_after_between(a: NodeView, b: NodeView, c: NodeView)
    requires
        listed_after(a, c),
        !listed_after(b, c),
    ensures
        listed_after(a, b),
{
    lemma_lex_total(c.name, b.name);
    lemma_lex_total(b.name, a.name);
    lemma_lex_total(c.name, a.name);
    if lex_less(b.name, c.name) && lex_less(c.name, a.name) {
        lemma_lex_transitive(b.name, c.name, a.name);
    }
}

/// In a listing every directory stands before every file, and of two directories,
/// or of two files, none stands before one whose name is first in the alphabet.
pub proof fn listings_are_ordered(nodes: Seq<NodeView>, i: int, j: int)
    requires
        0 <= i < j < nodes.len(),
    ensures
        listed(nodes).len() == nodes.len(),
        listed(nodes)[j].is_dir ==> listed(nodes)[i].is_dir,
        listed(nodes)[i].is_dir == listed(nodes)[j].is_dir ==> !lex_less(
            listed(nodes)[j].name,
            listed(nodes)[i].name,
        ),
{
    directories_come_first(nodes);
    assert(!listed_after(listed(nodes)[i], listed(nodes)[j]));
}

/// Every entry of a directory becomes one row, and every row comes from an entry:
/// with its path, its kind and the last part of its path as its name, or the
/// whole path if that has no last part; closed, and with nothing read of it.
pub proof fn entries_become_closed_rows(entries: Seq<Entry>, depth: int, i: int)
    requires
        0 <= i < entries.len(),
    ensures
        children_of(entries, depth).len() == entries.len(),
        exists|k: int|
            #![trigger children_of(entries, depth)[k]]
            0 <= k < entries.len() && is_row_of(children_of(entries, depth)[k], entries[i], depth),
        exists|k: int|
            #![trigger entries[k]]
            0 <= k < entries.len() && is_row_of(children_of(entries, depth)[i], entries[k], depth),
{
    broadcast use vstd::seq_lib::group_to_multiset_ensures;

    let nodes = entries.map_values(|e: Entry| node_of(e, depth));
    let list = children_of(entries, depth);
    directories_come_first(nodes);
    assert(nodes.contains(nodes[i]));
    assert(list.to_multiset().count(nodes[i]) > 0);
    assert(list.contains(nodes[i]));
    let k = choose|k: int| 0 <= k < list.len() && list[k] == nodes[i];
    assert(is_row_of(list[k], entries[i], depth));
    assert(list.contains(list[i]));
    assert(nodes.to_multiset().count(list[i]) > 0);
    assert(nodes.contains(list[i]));
    let m = choose|m: int| 0 <= m < nodes.len() && nodes[m] == list[i];
    assert(is_row_of(list[i], entries[m], depth));
}

/// Whether a node is what an entry that was just read is shown as.
pub open spec fn is_row_of(n: NodeView, e: Entry, depth: int) -> bool {
    &&& n.path == path_bytes(e.path)
    &&& n.is_dir == e.is_dir
    &&& e.file_name matches Some(name) ==> n.name == name@
    &&& e.file_name is None ==> n.name == e.shown@
    &&& n.depth == depth
    &&& !n.expanded
    &&& n.children is None
}

/// Expanding a directory puts the rows of its children behind its own, and
/// collapsing it takes all the rows below it away; the other rows stay. A file
/// is neither expanded nor collapsed.
pub proof fn expanding_shows_the_children(nodes: Seq<NodeView>, t: int)
    requires
        0 <= t < rows_of(nodes).len(),
    ensures
        ({
            let all = rows_of(nodes);
            let n = all[t];
            let opened = rows_of(changed_in(nodes, t, Change::Expand));
            let closed = rows_of(changed_in(nodes, t, Change::Collapse));
            let below = if n.is_dir && n.expanded && n.children is Some {
                rows_of(n.children->0).len() as int
            } else {
                0
            };
            &&& n.is_dir && !n.expanded && n.children is Some ==> faces(opened) == faces(all).take(t)
                + seq![NodeView { expanded: true, children: None, ..n }] + faces(
                rows_of(n.children->0),
            ) + faces(all).skip(t + 1)
            &&& n.is_dir && !n.expanded && n.children is None ==> faces(opened) == faces(all).take(t)
                + seq![NodeView { expanded: true, children: None, ..n }] + faces(all).skip(t + 1)
            &&& n.is_dir ==> t + 1 + below <= all.len() && faces(closed) == faces(all).take(t)
                + seq![NodeView { expanded: false, children: None, ..n }] + faces(all).skip(
                t + 1 + below,
            )
            &&& !n.is_dir ==> faces(opened) == faces(all) && faces(closed) == faces(all)
        }),
{
    let all = rows_of(nodes);
    let n = all[t];
    change_touches_own_rows(nodes, t, Change::Expand);
    change_touches_own_rows(nodes, t, Change::Collapse);
    lemma_own_rows(nodes, t);
    let e = Change::Expand.on(n);
    let c = Change::Collapse.on(n);
    if n.is_dir {
        assert(!c.is_open());
        assert(rows(c) =~= seq![c]);
        assert(faces(rows(c)) =~= seq![NodeView { expanded: false, children: None, ..n }]);
        if n.is_open() {
            assert(rows(n).len() == 1 + rows_of(n.children->0).len());
        } else {
            assert(rows(n) =~= seq![n]);
        }
        if !n.expanded {
            if n.children is Some {
                let below = rows_of(n.children->0);
                assert(e.is_open());
                assert(rows(e) == seq![e] + below);
                lemma_faces_sum(seq![e], below);
                assert(faces(seq![e]) =~= seq![NodeView { expanded: true, children: None, ..n }]);
                assert(faces(all).take(t) + (faces(seq![e]) + faces(below)) =~= faces(all).take(t)
                    + faces(seq![e]) + faces(below));
            } else {
                assert(rows(e) =~= seq![e]);
                assert(faces(rows(e)) =~= seq![NodeView { expanded: true, children: None, ..n }]);
            }
        }
    } else {
        assert(e == n && c == n);
    }
}

/// Reading gives a directory its entries once: those that it has stay.
pub proof fn reading_fills_once(nodes: Seq<NodeView>, t: int, entries: Seq<NodeView>)
    requires
        0 <= t < rows_of(nodes).len(),
    ensures
        ({
            let n = rows_of(nodes)[t];
            let filled = rows_of(changed_in(nodes, t, Change::Load(entries)));
            &&& t < filled.len()
            &&& filled[t].children == if n.children is Some {
                n.children
            } else {
                Some(entries)
            }
            &&& filled[t].expanded == n.expanded && filled[t].path == n.path
        }),
{
    lemma_changed_row(nodes, t, Change::Load(entries));
}

/// A row is its name behind two spaces for each level below the first, a marker
/// and a space: an arrow down for a directory that is open, an arrow to the right
/// for one that is not, and a space for a file. A slash behind the name says that
/// it is a directory.
pub proof fn rows_name_their_nodes(n: NodeView)
    requires
        n.depth >= 1,
    ensures
        ({
            let text = row_text(n);
            let indent = 2 * (n.depth - 1);
            &&& text.len() == indent + 2 + n.name.len() + if n.is_dir {
                1int
            } else {
                0
            }
            &&& forall|i: int| 0 <= i < indent ==> #[trigger] text[i] == ' '
            &&& text[indent] == '\u{25be}' <==> n.is_dir && n.expanded
            &&& text[indent] == '\u{25b8}' <==> n.is_dir && !n.expanded
            &&& text[indent] == ' ' <==> !n.is_dir
            &&& text[indent + 1] == ' '
            &&& text.subrange(indent + 2, indent + 2 + n.name.len()) == n.name
            &&& n.is_dir ==> text[text.len() - 1] == '/'
        }),
{
    let indent = 2 * (n.depth - 1);
    let text = row_text(n);
    assert(text.subrange(indent + 2, indent + 2 + n.name.len()) =~= n.name);
}

/// The selection stays where it is as long as there is a row there; else it goes
/// to the last row.
pub proof fn selection_stays_on_a_row(selected: int, count: nat)
    requires
        0 <= selected,
    ensures
        count > 0 ==> 0 <= clamped(selected, count) < count,
        selected < count ==> clamped(selected, count) == selected,
        count > 0 && selected >= count ==> clamped(selected, count) == count - 1,
        count == 0 ==> clamped(selected, count) == 0,
{
}

/// The rows come in the order of the nodes, and those of a node begin with its
/// own.
pub proof fn rows_come_in_order(a: Seq<NodeView>, b: Seq<NodeView>, n: NodeView)
    ensures
        rows_of(a + b) == rows_of(a) + rows_of(b),
        rows_of(seq![n]) == rows(n),
        rows(n).len() > 0,
        rows(n)[0] == n,
        n.is_dir && n.expanded && n.children is Some ==> rows(n).skip(1) == rows_of(n.children->0),
        !n.is_dir || !n.expanded ==> rows(n).len() == 1,
{
    lemma_rows_split(a + b, a.len() as int);
    assert((a + b).take(a.len() as int) =~= a);
    assert((a + b).skip(a.len() as int) =~= b);
    lemma_rows_nonempty(n);
    assert(seq![n].drop_last() =~= Seq::empty());
    assert(rows_of(seq![n].drop_last()) == Seq::<NodeView>::empty());
    assert(Seq::<NodeView>::empty() + rows(n) =~= rows(n));
    if n.is_open() {
        assert(rows(n).skip(1) =~= rows_of(n.children->0));
    }
}

/// Only the selected row stands out: in the colors of the focus where the tree
/// has it, and over the inactive background elsewhere.
pub proof fn the_selected_row_stands_out(focused: bool, theme: Theme)
    ensures
        row_style(false, focused, theme) == Style::plain(),
        row_style(true, true, theme).bg == Some(theme.focus_bg),
        row_style(true, true, theme).fg == Some(theme.focus_fg),
        row_style(true, false, theme).bg == Some(theme.inactive_bg),
        row_style(true, false, theme).fg is None,
{
}

} // verus!
