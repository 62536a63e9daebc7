//! The final tree, put together from what is known of the directories.

use crate::directories::{Directories, DirectoriesView};
use crate::node::{FileNode, NodeView};
use crate::{directories, node, paths, tree};
use vstd::prelude::*;

verus! {

broadcast use {node::lemma_view, node::lemma_views_push};

/// What of nodes is added up.
#[derive(Clone, Copy, Debug, PartialEq, Eq, Structural)]
pub enum Quantity {
    Size,
    Errors,
}

/// What one node adds.
pub open spec fn amount(quantity: Quantity, node: NodeView) -> nat {
    match quantity {
        Quantity::Size => node.size,
        Quantity::Errors => node.error_count,
    }
}

/// What the nodes add up to.
pub open spec fn total(quantity: Quantity, nodes: Seq<NodeView>) -> nat
    decreases nodes.len(),
{
    if nodes.len() == 0 {
        0
    } else {
        total(quantity, nodes.drop_last()) + amount(quantity, nodes.last())
    }
}

/// The sizes of the nodes together.
pub open spec fn total_size(nodes: Seq<NodeView>) -> nat {
    total(Quantity::Size, nodes)
}

/// The errors of the nodes together.
pub open spec fn total_errors(nodes: Seq<NodeView>) -> nat {
    total(Quantity::Errors, nodes)
}

/// Whether the numbers of a node, and of all below it, fit the machine.
pub open spec fn fits(node: NodeView) -> bool
    decreases node,
{
    &&& node.size <= u64::MAX
    &&& node.child_count <= usize::MAX
    &&& node.error_count <= u64::MAX
    &&& forall|i: int|
        #![trigger node.children[i]]
        0 <= i < node.children.len() ==> fits(node.children[i])
}

/// A directory put together, and the entries of the directories that were
/// not used for it.
pub struct Gathered {
    pub node: NodeView,
    pub unused: Map<Seq<char>, Seq<NodeView>>,
}

impl DirectoriesView {
    /// The directory at `path` if its children are `children`.
    pub open spec fn directory_of(self, path: Seq<char>, children: Seq<NodeView>) -> NodeView {
        let key = paths::tidied(path);
        NodeView {
            name: paths::file_name_of(path),
            size: if self.aggregated.contains_key(key) {
                self.size(path)
            } else {
                total_size(children)
            },
            is_dir: true,
            child_count: if self.aggregated.contains_key(key) {
                directories::dirs_among(children) + self.aggregated[key].total_file_count
            } else {
                children.len()
            },
            mtime: self.mtime(path),
            children,
            error_count: total_errors(children),
        }
    }

    /// The directory at `path` with all that is below it, its children in the
    /// order in which they were found. The entries of the directories are
    /// taken out of `unused`, each once; `depth` is at least their number.
    pub open spec fn gathered(
        self,
        path: Seq<char>,
        unused: Map<Seq<char>, Seq<NodeView>>,
        depth: nat,
    ) -> Gathered
        decreases depth, 1nat, 0nat,
    {
        let key = paths::tidied(path);
        let entries = if unused.contains_key(key) {
            unused[key]
        } else {
            Seq::empty()
        };
        let below = self.gathered_entries(path, entries, unused.remove(key), depth);
        Gathered {
            node: self.directory_of(path, below.0 + self.top_files(path)),
            unused: below.1,
        }
    }

    /// The entries of a directory with all that is below them, one after the
    /// other, and what is left unused by them.
    pub open spec fn gathered_entries(
        self,
        path: Seq<char>,
        entries: Seq<NodeView>,
        unused: Map<Seq<char>, Seq<NodeView>>,
        depth: nat,
    ) -> (Seq<NodeView>, Map<Seq<char>, Seq<NodeView>>)
        decreases depth, 0nat, entries.len(),
    {
        if entries.len() == 0 {
            (Seq::empty(), unused)
        } else {
            let before = self.gathered_entries(path, entries.drop_last(), unused, depth);
            let entry = entries.last();
            if entry.is_dir && depth > 0 {
                let dir = self.gathered(
                    paths::joined(path, entry.name),
                    before.1,
                    (depth - 1) as nat,
                );
                (before.0.push(dir.node), dir.unused)
            } else {
                (before.0.push(entry), before.1)
            }
        }
    }

    /// The directory at `path` with all that is below it, `depth` levels deep,
    /// its children in the order in which they were found.
    pub open spec fn nested(self, path: Seq<char>, depth: nat) -> NodeView
        decreases depth,
    {
        self.directory_of(
            path,
            self.entries(path).map_values(
                |entry: NodeView|
                    if entry.is_dir && depth > 0 {
                        self.nested(paths::joined(path, entry.name), (depth - 1) as nat)
                    } else {
                        entry
                    },
            ) + self.top_files(path),
        )
    }

    /// The tree below `path`, its children in the order they were found.
    pub open spec fn whole(self, path: Seq<char>) -> Gathered {
        self.gathered(path, self.children, self.children.dom().len())
    }
}

/// What an entry of a directory becomes when all that is below it is in place.
pub open spec fn filled(
    v: DirectoriesView,
    dir: Seq<char>,
    depth: nat,
) -> spec_fn(NodeView) -> NodeView {
    |entry: NodeView|
        if entry.is_dir && depth > 0 {
            v.nested(paths::joined(dir, entry.name), (depth - 1) as nat)
        } else {
            entry
        }
}

/// A nested directory has its entries, each with all that is below it.
pub proof fn lemma_nested(v: DirectoriesView, dir: Seq<char>, depth: nat)
    ensures
        v.nested(dir, depth) == v.directory_of(
            dir,
            v.entries(dir).map_values(filled(v, dir, depth)) + v.top_files(dir),
        ),
{
    let node = v.nested(dir, depth);
    assert(node.children =~= v.entries(dir).map_values(filled(v, dir, depth)) + v.top_files(
        dir,
    ));
    assert(node == v.directory_of(dir, node.children));
}

proof fn lemma_entries_prefix(
    v: DirectoriesView,
    path: Seq<char>,
    entries: Seq<NodeView>,
    unused: Map<Seq<char>, Seq<NodeView>>,
    depth: nat,
    n: int,
)
    requires
        0 <= n <= entries.len(),
    ensures
        v.gathered_entries(path, entries, unused, depth).0.len() == entries.len(),
        v.gathered_entries(path, entries.take(n), unused, depth).0 == v.gathered_entries(
            path,
            entries,
            unused,
            depth,
        ).0.take(n),
    decreases entries.len(),
{
    let all = v.gathered_entries(path, entries, unused, depth).0;
    if entries.len() == 0 {
        assert(entries.take(n) =~= entries);
        assert(all.take(n) =~= all);
    } else if n == entries.len() {
        assert(entries.take(n) =~= entries);
        lemma_entries_prefix(v, path, entries.drop_last(), unused, depth, n - 1);
        assert(all.take(n) =~= all);
    } else {
        lemma_entries_prefix(v, path, entries.drop_last(), unused, depth, n);
        assert(entries.drop_last().take(n) =~= entries.take(n));
        assert(all.take(n) =~= all.drop_last().take(n));
        assert(all.drop_last() =~= v.gathered_entries(path, entries.drop_last(), unused, depth).0);
    }
}

/// Sorting the nodes below keeps what the nodes sum up to.
proof fn lemma_sums_sorted(a: Seq<NodeView>, b: Seq<NodeView>)
    requires
        a.len() == b.len(),
        forall|i: int|
            0 <= i < a.len() ==> (#[trigger] a[i]).size == b[i].size && a[i].error_count
                == b[i].error_count && a[i].is_dir == b[i].is_dir,
    ensures
        total_size(a) == total_size(b),
        total_errors(a) == total_errors(b),
        directories::dirs_among(a) == directories::dirs_among(b),
    decreases a.len(),
{
    if a.len() > 0 {
        assert(a[a.len() - 1].size == b[a.len() - 1].size);
        lemma_sums_sorted(a.drop_last(), b.drop_last());
    }
}

proof fn lemma_sum_prefix(quantity: Quantity, nodes: Seq<NodeView>, n: int)
    requires
        0 <= n <= nodes.len(),
    ensures
        total(quantity, nodes.take(n)) <= total(quantity, nodes),
    decreases nodes.len(),
{
    if n < nodes.len() {
        lemma_sum_prefix(quantity, nodes.drop_last(), n);
        assert(nodes.drop_last().take(n) =~= nodes.take(n));
    } else {
        assert(nodes.take(n) =~= nodes);
    }
}

/// Without one of the nodes the total is smaller by what that one adds.
pub proof fn lemma_total_removed(quantity: Quantity, nodes: Seq<NodeView>, i: int)
    requires
        0 <= i < nodes.len(),
    ensures
        total(quantity, nodes.remove(i)) + amount(quantity, nodes[i]) == total(quantity, nodes),
    decreases nodes.len(),
{
    let rest = nodes.remove(i);
    if i < nodes.len() - 1 {
        lemma_total_removed(quantity, nodes.drop_last(), i);
        assert(rest.drop_last() =~= nodes.drop_last().remove(i));
    } else {
        assert(rest =~= nodes.drop_last());
    }
}

/// What the nodes add up to; nothing where that does not fit the machine.
fn checked_total(quantity: Quantity, nodes: &Vec<FileNode>) -> (r: Option<u64>)
    ensures
        match r {
            Some(n) => n == total(quantity, node::views(nodes@)),
            None => total(quantity, node::views(nodes@)) > u64::MAX,
        },
{
    let ghost all = node::views(nodes@);
    let mut sum: u64 = 0;
    let mut i: usize = 0;
    assert(all.take(0) =~= Seq::<NodeView>::empty());
    while i < nodes.len()
        invariant
            i <= nodes@.len(),
            all == node::views(nodes@),
            sum == total(quantity, all.take(i as int)),
        decreases nodes@.len() - i,
    {
        proof {
            assert(all.take(i + 1).drop_last() =~= all.take(i as int));
            lemma_sum_prefix(quantity, all, i + 1);
        }
        let more = match quantity {
            Quantity::Size => nodes[i].size,
            Quantity::Errors => nodes[i].error_count,
        };
        sum = match sum.checked_add(more) {
            Some(n) => n,
            None => {
                return None;
            },
        };
        i += 1;
    }
    assert(all.take(i as int) =~= all);
    Some(sum)
}

/// Sorting the children deeply first makes no difference to sorting the
/// directory deeply.
proof fn lemma_children_sorted_first(a: Seq<NodeView>, b: Seq<NodeView>)
    requires
        a.len() == b.len(),
        forall|i: int|
            0 <= i < a.len() ==> #[trigger] a[i] == tree::sorted_child(b[i]) || a[i] == b[i],
    ensures
        tree::all_sorted_deeply(a) == tree::all_sorted_deeply(b),
{
    assert forall|i: int| 0 <= i < a.len() implies tree::all_sorted_deeply(a)[i]
        == tree::all_sorted_deeply(b)[i] by {
        if a[i] != b[i] {
            tree::sorting_deeply_twice(b[i]);
        }
    }
    assert(tree::all_sorted_deeply(a) =~= tree::all_sorted_deeply(b));
}

/// Takes the entries of the directories out as they are used. Where a number
/// does not fit there is no result, and only some of them may have been taken.
fn assemble_below(path: &str, directories: &mut Directories, Ghost(depth): Ghost<nat>) -> (r:
    Option<FileNode>)
    requires
        old(directories).wf(),
        old(directories)@.children.dom().len() <= depth,
    ensures
        match r {
            Some(n) => {
                let whole = old(directories)@.gathered(path@, old(directories)@.children, depth);
                &&& fits(whole.node)
                &&& n@ == tree::sorted_deeply(whole.node)
                &&& final(directories).wf()
                &&& final(directories)@ == (DirectoriesView {
                    children: whole.unused,
                    ..old(directories)@
                })
                &&& final(directories)@.children.dom().len() <= old(
                    directories,
                )@.children.dom().len()
            },
            None => !fits(
                old(directories)@.gathered(path@, old(directories)@.children, depth).node,
            ),
        },
    decreases depth,
{
    let ghost v = directories@;
    let ghost target = v.gathered(path@, v.children, depth).node;
    let ghost key = paths::tidied(path@);
    let ghost entries = if v.children.contains_key(key) {
        v.children[key]
    } else {
        Seq::empty()
    };
    let ghost rest = v.children.remove(key);
    let ghost below = v.gathered_entries(path@, entries, rest, depth).0;
    proof {
        directories.children.lemma_finite();
        assert(v.children.dom() =~= directories.children@.dom());
        if v.children.contains_key(key) {
            assert(rest.dom() =~= v.children.dom().remove(key));
        } else {
            assert(rest =~= v.children);
        }
        lemma_entries_prefix(v, path@, entries, rest, depth, 0);
    }
    let children = match directories.children.take(path) {
        Some(c) => c,
        None => Vec::new(),
    };
    let ghost taken = children@;
    proof {
        assert(node::views(taken) =~= entries);
        assert(directories@.children =~= rest);
        assert(directories@ =~= (DirectoriesView { children: rest, ..v }));
        assert(entries.take(0) =~= Seq::<NodeView>::empty());
        assert(v.gathered_entries(path@, entries.take(0), rest, depth) == (
            Seq::<NodeView>::empty(),
            rest,
        ));
    }
    let mut assembled: Vec<FileNode> = Vec::with_capacity(children.len());
    proof {
        assert(taken.len() == children.len());
        assert(target == v.directory_of(path@, below + v.top_files(path@)));
        assert forall|j: int| 0 <= j < below.len() && fits(target) implies fits(
            #[trigger] below[j],
        ) by {
            assert(target.children[j] == below[j]);
        }
    }
    let mut i: usize = 0;
    for child in it: children
        invariant
            directories.wf(),
            i == it.index(),
            it.seq() == taken,
            taken.len() <= usize::MAX,
            entries == node::views(taken),
            v.gathered_entries(path@, entries, rest, depth).0 == below,
            below.len() == entries.len(),
            target == old(directories)@.gathered(path@, old(directories)@.children, depth).node,
            forall|j: int| 0 <= j < below.len() && fits(target) ==> fits(#[trigger] below[j]),
            forall|j: int| 0 <= j < i ==> fits(#[trigger] below[j]),
            directories@ == (DirectoriesView {
                children: v.gathered_entries(path@, entries.take(i as int), rest, depth).1,
                ..v
            }),
            rest.dom().len() < depth || entries.len() == 0,
            directories@.children.dom().len() <= rest.dom().len(),
            assembled@.len() == i,
            forall|j: int|
                0 <= j < i ==> (#[trigger] assembled@[j])@ == tree::sorted_child(below[j]),
    {
        proof {
            assert(taken[i as int] == child);
            assert(entries.take(i + 1).drop_last() =~= entries.take(i as int));
            lemma_entries_prefix(v, path@, entries, rest, depth, i + 1);
            let here = v.gathered_entries(path@, entries.take(i + 1), rest, depth).0;
            lemma_entries_prefix(v, path@, entries.take(i + 1), rest, depth, i as int);
            assert(here[i as int] == below[i as int]);
            assert(here.last() == below[i as int]);
        }
        if child.is_dir {
            let child_path = paths::join(path, child.name.as_str());
            let ghost now = directories@;
            proof {
                assert(now.gathered(child_path@, now.children, (depth - 1) as nat) == v.gathered(
                    child_path@,
                    now.children,
                    (depth - 1) as nat,
                )) by {
                    lemma_gathered_alike(
                        now,
                        v,
                        child_path@,
                        now.children,
                        (depth - 1) as nat,
                    );
                }
            }
            match assemble_below(child_path.as_str(), directories, Ghost((depth - 1) as nat)) {
                Some(dir) => {
                    assembled.push(dir);
                },
                None => {
                    return None;
                },
            }
        } else {
            proof {
                lemma_node_fits(child);
            }
            assembled.push(child);
        }
        i += 1;
    }
    assert(entries.take(i as int) =~= entries);
    directory_node(path, directories, assembled, Ghost(below))
}

/// Putting a directory together does not depend on the entries other than
/// through what is unused of them.
proof fn lemma_gathered_alike(
    a: DirectoriesView,
    b: DirectoriesView,
    path: Seq<char>,
    unused: Map<Seq<char>, Seq<NodeView>>,
    depth: nat,
)
    requires
        a == (DirectoriesView { children: a.children, ..b }),
    ensures
        a.gathered(path, unused, depth) == b.gathered(path, unused, depth),
    decreases depth, 1nat, 0nat,
{
    let key = paths::tidied(path);
    let entries = if unused.contains_key(key) {
        unused[key]
    } else {
        Seq::empty()
    };
    lemma_entries_alike(a, b, path, entries, unused.remove(key), depth);
}

proof fn lemma_entries_alike(
    a: DirectoriesView,
    b: DirectoriesView,
    path: Seq<char>,
    entries: Seq<NodeView>,
    unused: Map<Seq<char>, Seq<NodeView>>,
    depth: nat,
)
    requires
        a == (DirectoriesView { children: a.children, ..b }),
    ensures
        a.gathered_entries(path, entries, unused, depth) == b.gathered_entries(
            path,
            entries,
            unused,
            depth,
        ),
    decreases depth, 0nat, entries.len(),
{
    if entries.len() > 0 {
        lemma_entries_alike(a, b, path, entries.drop_last(), unused, depth);
        let before = a.gathered_entries(path, entries.drop_last(), unused, depth);
        if entries.last().is_dir && depth > 0 {
            lemma_gathered_alike(
                a,
                b,
                paths::joined(path, entries.last().name),
                before.1,
                (depth - 1) as nat,
            );
        }
    }
}

/// The directory at `path` of the nodes below it, which are `raw`, sorted.
fn directory_node(
    path: &str,
    directories: &Directories,
    below: Vec<FileNode>,
    Ghost(raw): Ghost<Seq<NodeView>>,
) -> (r: Option<FileNode>)
    requires
        directories.wf(),
        below@.len() == raw.len(),
        forall|j: int|
            0 <= j < raw.len() ==> (#[trigger] below@[j])@ == tree::sorted_child(raw[j]),
        forall|j: int| 0 <= j < raw.len() ==> fits(#[trigger] raw[j]),
    ensures
        match r {
            Some(n) => {
                let target = directories@.directory_of(
                    path@,
                    raw + directories@.top_files(path@),
                );
                &&& fits(target)
                &&& n@ == tree::sorted_deeply(target)
            },
            None => !fits(
                directories@.directory_of(path@, raw + directories@.top_files(path@)),
            ),
        },
{
    let ghost top = directories@.top_files(path@);
    let ghost target = directories@.directory_of(path@, raw + top);
    let mut children = below;
    let ghost first = node::views(children@);
    let aggregation = directories.aggregated.get(path);
    if let Some(agg) = aggregation {
        let mut i: usize = 0;
        assert(first + top.take(0) =~= first);
        while i < agg.top_files.len()
            invariant
                i <= agg.top_files@.len(),
                top == node::views(agg.top_files@),
                node::views(children@) == first + top.take(i as int),
            decreases agg.top_files@.len() - i,
        {
            children.push(agg.top_files[i].clone());
            assert(first + top.take(i + 1) =~= (first + top.take(i as int)).push(top[i as int]));
            i += 1;
        }
        assert(top.take(i as int) =~= top);
    } else {
        assert(first + top =~= first);
    }
    let ghost all = node::views(children@);
    proof {
        assert(all == first + top);
        let plain = raw + top;
        assert forall|i: int| 0 <= i < all.len() implies #[trigger] all[i] == tree::sorted_child(
            plain[i],
        ) || all[i] == plain[i] by {
            if i < raw.len() {
                assert(first[i] == below@[i]@);
            }
        }
        lemma_sums_sorted(all, plain);
        lemma_children_sorted_first(all, plain);
    }
    let size = if aggregation.is_some() {
        directories.size_of(path)
    } else {
        match checked_total(Quantity::Size, &children) {
            Some(n) => n,
            None => {
                return None;
            },
        }
    };
    let error_count = match checked_total(Quantity::Errors, &children) {
        Some(n) => n,
        None => {
            return None;
        },
    };
    let child_count = match aggregation {
        Some(agg) => match directories::count_dirs(&children).checked_add(agg.total_file_count) {
            Some(n) => n,
            None => {
                return None;
            },
        },
        None => children.len(),
    };
    let mut node = FileNode {
        name: paths::file_name(path),
        size,
        is_dir: true,
        child_count,
        mtime: directories.mtime_of(path),
        children,
        error_count,
    };
    assert(node@ == (NodeView { children: all, ..target }));
    proof {
        assert forall|j: int| 0 <= j < target.children.len() implies fits(
            #[trigger] target.children[j],
        ) by {
            if j >= raw.len() {
                assert(target.children[j] == top[j - raw.len()]);
                lemma_node_fits(
                    directories.aggregated@[paths::tidied(path@)].top_files@[j - raw.len()],
                );
            }
        }
    }
    node.sort_recursive_by_size();
    Some(node)
}

/// What a node in memory holds fits.
proof fn lemma_node_fits(node: FileNode)
    ensures
        fits(node@),
    decreases node,
{
    assert forall|i: int| 0 <= i < node@.children.len() implies fits(
        #[trigger] node@.children[i],
    ) by {
        lemma_node_fits(node.children@[i]);
    }
}

/// Puts the tree below `path` together, the children of every directory in
/// descending order of size. There is no tree where a number in it would not
/// fit the machine.
pub fn assemble_tree(path: &str, directories: Directories) -> (r: Option<FileNode>)
    requires
        directories.wf(),
    ensures
        match r {
            Some(n) => {
                &&& fits(directories@.whole(path@).node)
                &&& n@ == tree::sorted_deeply(directories@.whole(path@).node)
            },
            None => !fits(directories@.whole(path@).node),
        },
{
    let mut known = directories;
    let ghost depth = known@.children.dom().len();
    assemble_below(path, &mut known, Ghost(depth))
}

} // verus!
