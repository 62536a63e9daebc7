//! Deleting files and directories, and what it changes in the tree.

use crate::app::{App, AppView};
use crate::assembly;
use crate::node;
use crate::node::{FileNode, NodeView};
use crate::tree;
use crate::tree::TreeView;
use vstd::prelude::*;

verus! {

broadcast use node::lemma_view;

/// `a` without `b`, or nothing where `b` is more.
pub open spec fn less(a: nat, b: nat) -> nat {
    if a > b {
        (a - b) as nat
    } else {
        0
    }
}

/// A directory after the child at `index` of the directory at `way` below it
/// was deleted, which had `size` bytes.
pub open spec fn without(node: NodeView, way: Seq<usize>, index: int, size: nat) -> NodeView
    decreases way.len(),
{
    if way.len() == 0 {
        NodeView {
            children: node.children.remove(index),
            child_count: less(node.child_count, 1),
            size: less(node.size, size),
            ..node
        }
    } else {
        let i = way[0] as int;
        NodeView {
            children: node.children.update(
                i,
                without(node.children[i], way.drop_first(), index, size),
            ),
            size: less(node.size, size),
            ..node
        }
    }
}

impl AppView {
    /// With the selection on a child, or on the first place where there are
    /// none.
    pub open spec fn reselected(self) -> AppView {
        if self.count() == 0 {
            AppView { selected_index: 0, ..self }
        } else {
            self.clamped()
        }
    }

    /// After the selected file was deleted.
    pub open spec fn without_selected(self) -> AppView {
        match self.tree {
            Some(t) => match tree::descendant(t.root, self.breadcrumbs) {
                Some(n) => if self.selected_index < n.children.len() {
                    (AppView {
                        tree: Some(
                            TreeView {
                                root: without(
                                    t.root,
                                    self.breadcrumbs,
                                    self.selected_index,
                                    n.children[self.selected_index].size,
                                ),
                                total_files: less(t.total_files as nat, 1) as u64,
                                ..t
                            },
                        ),
                        ..self
                    }).reselected()
                } else {
                    self
                },
                None => self,
            },
            None => self,
        }
    }
}

/// Deletes the child at `index` of the directory at `way[from..]` below
/// `node`.
fn remove_below(node: &mut FileNode, way: &[usize], from: usize, index: usize, size: u64)
    requires
        from <= way@.len(),
        tree::descendant(old(node)@, way@.skip(from as int)) matches Some(n) && index
            < n.children.len(),
    ensures
        final(node)@ == without(old(node)@, way@.skip(from as int), index as int, size as nat),
    decreases way@.len() - from,
{
    let ghost before = node@;
    let ghost rest = way@.skip(from as int);
    node.size = node.size.saturating_sub(size);
    if from == way.len() {
        let _ = node.children.remove(index);
        node.child_count = node.child_count.saturating_sub(1);
        assert(node@.children =~= before.children.remove(index as int));
    } else {
        let i = way[from];
        assert(rest.drop_first() =~= way@.skip(from + 1));
        assert(before.children[i as int] == node.children@[i as int]@);
        remove_below(&mut node.children[i], way, from + 1, index, size);
        assert(node@.children =~= without(before, rest, index as int, size as nat).children);
    }
}

/// Takes the selected file out of the tree once it is `removed` from the
/// disk.
pub fn delete_selected(app: &mut App, removed: bool)
    ensures
        final(app)@ == if removed {
            old(app)@.without_selected()
        } else {
            old(app)@
        },
{
    if !removed {
        return;
    }
    let selected = app.selected_index;
    match &mut app.tree {
        Some(t) => {
            let size: u64 = match t.node_at(app.breadcrumbs.as_slice()) {
                Some(n) => {
                    if selected >= n.children.len() {
                        return;
                    }
                    n.children[selected].size
                },
                None => {
                    return;
                },
            };
            assert(app.breadcrumbs@.skip(0) =~= app.breadcrumbs@);
            remove_below(&mut t.root, app.breadcrumbs.as_slice(), 0, selected, size);
            t.total_files = t.total_files.saturating_sub(1);
        },
        None => {
            return;
        },
    }
    let count = app.child_count();
    if count == 0 {
        app.selected_index = 0;
    } else if app.selected_index >= count {
        app.selected_index = count - 1;
    }
}

proof fn lemma_without_at(node: NodeView, way: Seq<usize>, index: int, size: nat)
    requires
        tree::descendant(node, way) is Some,
    ensures
        tree::descendant(without(node, way, index, size), way) == Some(
            without(tree::descendant(node, way)->0, Seq::empty(), index, size),
        ),
    decreases way.len(),
{
    if way.len() > 0 {
        lemma_without_at(node.children[way[0] as int], way.drop_first(), index, size);
    } else {
        assert(way =~= Seq::<usize>::empty());
    }
}

/// Where children of the directory shown are hidden they are still hidden
/// after the selected one was deleted, and where none are hidden none are
/// afterwards. One child less is listed, and one less is counted.
pub proof fn hidden_children_stay_hidden(app: AppView)
    requires
        app.tree matches Some(t) && tree::descendant(t.root, app.breadcrumbs) is Some,
        0 <= app.selected_index,
        app.selected() is Some,
    ensures
        app.without_selected().aggregated() == app.aggregated(),
        app.without_selected().count() == app.count() - 1,
        app.without_selected().current() matches Some(n) && n.child_count == less(
            (app.current()->0).child_count,
            1,
        ),
{
    let t = app.tree->0;
    let node = tree::descendant(t.root, app.breadcrumbs)->0;
    lemma_without_at(
        t.root,
        app.breadcrumbs,
        app.selected_index,
        node.children[app.selected_index].size,
    );
}

/// Whether the size of each directory on the way is that of its children
/// together.
pub open spec fn adds_up(node: NodeView, way: Seq<usize>) -> bool
    decreases way.len(),
{
    &&& node.size == assembly::total_size(node.children)
    &&& way.len() > 0 && way[0] < node.children.len() ==> adds_up(
        node.children[way[0] as int],
        way.drop_first(),
    )
}

proof fn lemma_total_updated(nodes: Seq<NodeView>, i: int, new: NodeView)
    requires
        0 <= i < nodes.len(),
    ensures
        assembly::total_size(nodes.update(i, new)) + nodes[i].size == assembly::total_size(nodes)
            + new.size,
        nodes[i].size <= assembly::total_size(nodes),
    decreases nodes.len(),
{
    let changed = nodes.update(i, new);
    if i < nodes.len() - 1 {
        lemma_total_updated(nodes.drop_last(), i, new);
        assert(changed.drop_last() =~= nodes.drop_last().update(i, new));
    } else {
        assert(changed.drop_last() =~= nodes.drop_last());
    }
}

/// Where the sizes of the directories on the way add up before a file is
/// deleted they add up afterwards, and each is smaller by that of the file.
pub proof fn deletion_adds_up(node: NodeView, way: Seq<usize>, index: int)
    requires
        adds_up(node, way),
        tree::descendant(node, way) matches Some(n) && 0 <= index < n.children.len(),
    ensures
        ({
            let size = (tree::descendant(node, way)->0).children[index].size;
            &&& adds_up(without(node, way, index, size), way)
            &&& without(node, way, index, size).size + size == node.size
            &&& tree::descendant(without(node, way, index, size), way) matches Some(n)
                && n.children == (tree::descendant(node, way)->0).children.remove(index)
        }),
    decreases way.len(),
{
    let size = (tree::descendant(node, way)->0).children[index].size;
    let after = without(node, way, index, size);
    if way.len() == 0 {
        assembly::lemma_total_removed(assembly::Quantity::Size, node.children, index);
    } else {
        let i = way[0] as int;
        deletion_adds_up(node.children[i], way.drop_first(), index);
        let child = without(node.children[i], way.drop_first(), index, size);
        lemma_total_updated(node.children, i, child);
        assert(after.children == node.children.update(i, child));
    }
}

proof fn lemma_without_beside(
    node: NodeView,
    way: Seq<usize>,
    index: int,
    size: nat,
    other: Seq<usize>,
)
    requires
        tree::descendant(node, way) is Some,
        !other.is_prefix_of(way),
        !way.is_prefix_of(other),
    ensures
        tree::descendant(without(node, way, index, size), other) == tree::descendant(node, other),
    decreases way.len(),
{
    if way.len() == 0 {
        assert(way =~= other.take(0));
    } else if other.len() == 0 {
        assert(other =~= way.take(0));
    } else if other[0] == way[0] {
        let a = other.drop_first();
        let b = way.drop_first();
        if a.is_prefix_of(b) {
            assert forall|k: int| 0 <= k < other.len() implies other[k] == way[k] by {
                if k > 0 {
                    assert(a[k - 1] == b.take(a.len() as int)[k - 1]);
                }
            }
            assert(other =~= way.take(other.len() as int));
        }
        if b.is_prefix_of(a) {
            assert forall|k: int| 0 <= k < way.len() implies other[k] == way[k] by {
                if k > 0 {
                    assert(b[k - 1] == a.take(b.len() as int)[k - 1]);
                }
            }
            assert(way =~= other.take(way.len() as int));
        }
        lemma_without_beside(node.children[way[0] as int], b, index, size, a);
    }
}

proof fn lemma_without_above(node: NodeView, way: Seq<usize>, index: int, size: nat, n: int)
    requires
        tree::descendant(node, way) is Some,
        0 <= n < way.len(),
    ensures
        tree::descendant(node, way.take(n)) matches Some(before) && tree::descendant(
            without(node, way, index, size),
            way.take(n),
        ) matches Some(after) && {
            &&& after.size == if before.size > size {
                before.size - size
            } else {
                0
            }
            &&& after == (NodeView { size: after.size, children: after.children, ..before })
            &&& after.children.len() == before.children.len()
        },
    decreases way.len(),
{
    if n > 0 {
        assert(way.take(n).drop_first() =~= way.drop_first().take(n - 1));
        lemma_without_above(
            node.children[way[0] as int],
            way.drop_first(),
            index,
            size,
            n - 1,
        );
    } else {
        assert(way.take(n) =~= Seq::<usize>::empty());
    }
}

/// When the selected child is deleted it and no other is taken out of the directory
/// shown, which counts one child less. That directory and every one on the way to it
/// are smaller by the size of what was deleted, and the tree has one file less. What
/// is not on the way is as it was, and a child is selected where one is left: the
/// one that took the place of the deleted one, or the last.
pub proof fn deletion_takes_one_child(app: AppView)
    requires
        app.tree matches Some(t) && tree::descendant(t.root, app.breadcrumbs) is Some,
        0 <= app.selected_index,
        app.selected() is Some,
    ensures
        ({
            let next = app.without_selected();
            let t = app.tree->0;
            let way = app.breadcrumbs;
            let shown = app.current()->0;
            let gone = app.selected()->0;
            &&& next.tree matches Some(u) && {
                &&& tree::descendant(u.root, way) matches Some(n) && {
                    &&& n.children.len() == shown.children.len() - 1
                    &&& forall|i: int|
                        0 <= i < n.children.len() ==> #[trigger] n.children[i] == if (i
                            < app.selected_index) {
                            shown.children[i]
                        } else {
                            shown.children[i + 1]
                        }
                    &&& shown.child_count > 0 ==> n.child_count == shown.child_count - 1
                    &&& shown.size >= gone.size ==> n.size == shown.size - gone.size
                    &&& shown.size < gone.size ==> n.size == 0
                    &&& n == (NodeView {
                        children: n.children,
                        child_count: n.child_count,
                        size: n.size,
                        ..shown
                    })
                }
                &&& forall|k: int|
                    #![trigger way.take(k)]
                    0 <= k < way.len() ==> {
                        let before = tree::descendant(t.root, way.take(k))->0;
                        let after = tree::descendant(u.root, way.take(k))->0;
                        &&& before.size >= gone.size ==> after.size == before.size - gone.size
                        &&& before.size < gone.size ==> after.size == 0
                        &&& after == (NodeView {
                            size: after.size,
                            children: after.children,
                            ..before
                        })
                    }
                &&& forall|other: Seq<usize>|
                    !other.is_prefix_of(way) && !way.is_prefix_of(other)
                        ==> #[trigger] tree::descendant(u.root, other) == tree::descendant(
                        t.root,
                        other,
                    )
                &&& t.total_files > 0 ==> u.total_files == t.total_files - 1
                &&& u == (TreeView { root: u.root, total_files: u.total_files, ..t })
            }
            &&& next.selected_index == if app.selected_index < shown.children.len() - 1 {
                app.selected_index
            } else if shown.children.len() > 1 {
                shown.children.len() - 2
            } else {
                0
            }
            &&& next == (AppView { tree: next.tree, selected_index: next.selected_index, ..app })
        }),
{
    let t = app.tree->0;
    let way = app.breadcrumbs;
    let index = app.selected_index;
    let size = (app.selected()->0).size;
    lemma_without_at(t.root, way, index, size);
    let after = without(t.root, way, index, size);
    assert forall|k: int| #![trigger way.take(k)] 0 <= k < way.len() implies {
        let a = tree::descendant(t.root, way.take(k))->0;
        let b = tree::descendant(after, way.take(k))->0;
        &&& b.size == less(a.size, size)
        &&& b == (NodeView { size: b.size, children: b.children, ..a })
    } by {
        lemma_without_above(t.root, way, index, size, k);
    }
    assert forall|other: Seq<usize>|
        !other.is_prefix_of(way) && !way.is_prefix_of(other) implies #[trigger] tree::descendant(
        after,
        other,
    ) == tree::descendant(t.root, other) by {
        lemma_without_beside(t.root, way, index, size, other);
    }
}

/// Where no child is selected in the directory that the breadcrumbs lead to, nothing
/// is taken out.
pub proof fn nothing_selected_nothing_taken(app: AppView)
    requires
        app.tree is None || tree::descendant((app.tree->0).root, app.breadcrumbs) is None
            || app.selected() is None,
    ensures
        app.without_selected() == app,
{
}

} // verus!
