//! The file tree: how children are ordered and how nodes are reached.

use crate::node::{FileNode, NodeView, Timestamp};
use crate::sorting::{stable_sort, Precedence};
use crate::strings::{at_most, to_lowercase};
use crate::{node, sorting, strings};
use vstd::prelude::*;

verus! {

broadcast use node::lemma_view;

/// The ways in which the children of a directory can be ordered.
#[derive(Clone, Copy, Debug, PartialEq, Eq, Structural)]
pub enum ChildOrder {
    SizeDesc,
    SizeAsc,
    NameAsc,
    NameDesc,
    /// Directories before files, and the larger before the smaller.
    DirsThenSizeDesc,
}

impl ChildOrder {
    /// Whether `a` may stand before `b`. Names are compared in lower case.
    pub open spec fn allows(self, a: NodeView, b: NodeView) -> bool {
        match self {
            ChildOrder::SizeDesc => a.size >= b.size,
            ChildOrder::SizeAsc => a.size <= b.size,
            ChildOrder::NameAsc => strings::text_le(
                strings::lowercase_of(a.name),
                strings::lowercase_of(b.name),
            ),
            ChildOrder::NameDesc => strings::text_le(
                strings::lowercase_of(b.name),
                strings::lowercase_of(a.name),
            ),
            ChildOrder::DirsThenSizeDesc => if a.is_dir == b.is_dir {
                a.size >= b.size
            } else {
                a.is_dir
            },
        }
    }

    /// The order as a relation.
    pub open spec fn relation(self) -> spec_fn(NodeView, NodeView) -> bool {
        |a: NodeView, b: NodeView| self.allows(a, b)
    }

    /// The children brought into this order; equal ones keep their places.
    pub open spec fn arranged(self, children: Seq<NodeView>) -> Seq<NodeView> {
        sorting::stably_sorted(children, self.relation())
    }

    /// Each order compares any two nodes and is transitive.
    pub proof fn lemma_preorder(self)
        ensures
            sorting::is_preorder(self.relation()),
    {
        let le = self.relation();
        assert forall|a: NodeView, b: NodeView| #[trigger] le(a, b) || le(b, a) by {
            strings::bytes_le_total(
                vstd::utf8::encode_utf8(strings::lowercase_of(a.name)),
                vstd::utf8::encode_utf8(strings::lowercase_of(b.name)),
            );
        }
        assert forall|a: NodeView, b: NodeView, c: NodeView| #[trigger]
            le(a, b) && #[trigger] le(b, c) implies le(a, c) by {
            let x = vstd::utf8::encode_utf8(strings::lowercase_of(a.name));
            let y = vstd::utf8::encode_utf8(strings::lowercase_of(b.name));
            let z = vstd::utf8::encode_utf8(strings::lowercase_of(c.name));
            if self == ChildOrder::NameAsc {
                strings::bytes_le_transitive(x, y, z);
            }
            if self == ChildOrder::NameDesc {
                strings::bytes_le_transitive(z, y, x);
            }
        }
    }
}

/// The orders that go by size.
#[derive(Clone, Copy, Debug, PartialEq, Eq, Structural)]
enum SizeOrder {
    Desc,
    Asc,
    DirsThenDesc,
}

impl SizeOrder {
    spec fn as_order(self) -> ChildOrder {
        match self {
            SizeOrder::Desc => ChildOrder::SizeDesc,
            SizeOrder::Asc => ChildOrder::SizeAsc,
            SizeOrder::DirsThenDesc => ChildOrder::DirsThenSizeDesc,
        }
    }
}

impl Precedence<FileNode> for SizeOrder {
    closed spec fn le(&self) -> spec_fn(FileNode, FileNode) -> bool {
        |a: FileNode, b: FileNode| self.as_order().allows(a@, b@)
    }

    proof fn preorder(&self) {
    }

    fn in_order(&self, a: &FileNode, b: &FileNode) -> (r: bool) {
        match self {
            SizeOrder::Desc => a.size >= b.size,
            SizeOrder::Asc => a.size <= b.size,
            SizeOrder::DirsThenDesc => if a.is_dir == b.is_dir {
                a.size >= b.size
            } else {
                a.is_dir
            },
        }
    }
}

fn arrange_by_size(nodes: Vec<FileNode>, order: SizeOrder) -> (r: Vec<FileNode>)
    ensures
        r@ == sorting::stably_sorted(nodes@, order.le()),
        node::views(r@) == order.as_order().arranged(node::views(nodes@)),
{
    proof {
        sorting::lemma_sorted_mapped(
            nodes@,
            |n: FileNode| n@,
            order.le(),
            order.as_order().relation(),
        );
    }
    stable_sort(nodes, &order)
}

/// Whether a text may stand before another, in ascending or descending order.
pub open spec fn text_order(descending: bool) -> spec_fn(
    (NodeView, Seq<char>),
    (NodeView, Seq<char>),
) -> bool {
    |a: (NodeView, Seq<char>), b: (NodeView, Seq<char>)|
        if descending {
            strings::text_le(b.1, a.1)
        } else {
            strings::text_le(a.1, b.1)
        }
}

/// Nodes in the order of the texts that belong to them; those with equal
/// texts keep their places.
pub open spec fn arranged_by_text(
    nodes: Seq<NodeView>,
    keys: Seq<Seq<char>>,
    descending: bool,
) -> Seq<NodeView> {
    sorting::stably_sorted(
        Seq::new(nodes.len(), |i: int| (nodes[i], keys[i])),
        text_order(descending),
    ).map_values(|pair: (NodeView, Seq<char>)| pair.0)
}

/// A node and the text by which it is ordered.
struct Keyed {
    node: FileNode,
    key: String,
}

impl Keyed {
    spec fn pair(self) -> (NodeView, Seq<char>) {
        (self.node@, self.key@)
    }
}

struct TextOrder {
    descending: bool,
}

impl Precedence<Keyed> for TextOrder {
    closed spec fn le(&self) -> spec_fn(Keyed, Keyed) -> bool {
        |a: Keyed, b: Keyed| (text_order(self.descending))(a.pair(), b.pair())
    }

    proof fn preorder(&self) {
        let le = self.le();
        assert forall|a: Keyed, b: Keyed| #[trigger] le(a, b) || le(b, a) by {
            strings::bytes_le_total(
                vstd::utf8::encode_utf8(a.key@),
                vstd::utf8::encode_utf8(b.key@),
            );
        }
        assert forall|a: Keyed, b: Keyed, c: Keyed| #[trigger] le(a, b) && #[trigger] le(
            b,
            c,
        ) implies le(a, c) by {
            let x = vstd::utf8::encode_utf8(a.key@);
            let y = vstd::utf8::encode_utf8(b.key@);
            let z = vstd::utf8::encode_utf8(c.key@);
            if self.descending {
                strings::bytes_le_transitive(z, y, x);
            } else {
                strings::bytes_le_transitive(x, y, z);
            }
        }
    }

    fn in_order(&self, a: &Keyed, b: &Keyed) -> (r: bool) {
        if self.descending {
            at_most(b.key.as_str(), a.key.as_str())
        } else {
            at_most(a.key.as_str(), b.key.as_str())
        }
    }
}

/// Sorts nodes by the texts that belong to them.
pub fn arrange_by_text(nodes: Vec<FileNode>, keys: Vec<String>, descending: bool) -> (r: Vec<
    FileNode,
>)
    requires
        nodes@.len() == keys@.len(),
    ensures
        node::views(r@) == arranged_by_text(
            node::views(nodes@),
            keys@.map_values(|k: String| k@),
            descending,
        ),
{
    let ghost given = node::views(nodes@);
    let ghost texts = keys@.map_values(|k: String| k@);
    let ghost pairs = Seq::new(given.len(), |i: int| (given[i], texts[i]));
    let mut keyed: Vec<Keyed> = Vec::new();
    let len = nodes.len();
    let mut i: usize = 0;
    for node in it: nodes
        invariant
            i == it.index(),
            it.seq() == nodes@,
            len == nodes@.len(),
            len == keys@.len(),
            keyed@.len() == i,
            given == node::views(nodes@),
            texts == keys@.map_values(|k: String| k@),
            forall|k: int|
                0 <= k < i ==> (#[trigger] keyed@[k]).pair() == (given[k], texts[k]),
    {
        assert(given[i as int] == node@);
        keyed.push(Keyed { node, key: keys[i].clone() });
        i += 1;
    }
    let order = TextOrder { descending };
    let ghost to_pair = |k: Keyed| k.pair();
    proof {
        assert(keyed@.map_values(to_pair) =~= pairs);
        sorting::lemma_sorted_mapped(keyed@, to_pair, order.le(), text_order(descending));
    }
    let sorted = stable_sort(keyed, &order);
    let ghost placed = sorted@;
    let ghost target = arranged_by_text(given, texts, descending);
    let mut r: Vec<FileNode> = Vec::new();
    let count = sorted.len();
    let mut j: usize = 0;
    assert(placed.map_values(to_pair) == sorting::stably_sorted(pairs, text_order(descending)));
    assert(target.len() == placed.len());
    for entry in it: sorted
        invariant
            j == it.index(),
            it.seq() == placed,
            count == placed.len(),
            r@.len() == j,
            target.len() == placed.len(),
            forall|k: int| 0 <= k < placed.len() ==> (#[trigger] placed[k]).node@ == target[k],
            forall|k: int| 0 <= k < j ==> (#[trigger] r@[k])@ == target[k],
    {
        assert(placed[j as int] == entry);
        r.push(entry.node);
        j += 1;
    }
    assert(node::views(r@) =~= target);
    r
}

/// By name is by the lower case forms of the names.
proof fn lemma_by_lowercase(nodes: Seq<NodeView>, descending: bool)
    ensures
        arranged_by_text(
            nodes,
            nodes.map_values(|n: NodeView| strings::lowercase_of(n.name)),
            descending,
        ) == (if descending {
            ChildOrder::NameDesc
        } else {
            ChildOrder::NameAsc
        }).arranged(nodes),
{
    let order = if descending {
        ChildOrder::NameDesc
    } else {
        ChildOrder::NameAsc
    };
    let keys = nodes.map_values(|n: NodeView| strings::lowercase_of(n.name));
    let with_key = |n: NodeView| (n, strings::lowercase_of(n.name));
    let without = |pair: (NodeView, Seq<char>)| pair.0;
    let pairs = Seq::new(nodes.len(), |i: int| (nodes[i], keys[i]));
    assert(pairs =~= nodes.map_values(with_key));
    sorting::lemma_sorted_mapped(nodes, with_key, order.relation(), text_order(descending));
    let sorted = order.arranged(nodes);
    assert(sorted.map_values(with_key).map_values(without) =~= sorted);
}

fn lowercase_names(nodes: &Vec<FileNode>) -> (r: Vec<String>)
    ensures
        r@.len() == nodes@.len(),
        r@.map_values(|k: String| k@) == node::views(nodes@).map_values(
            |n: NodeView| strings::lowercase_of(n.name),
        ),
{
    let ghost given = node::views(nodes@);
    let mut r: Vec<String> = Vec::new();
    let mut i: usize = 0;
    while i < nodes.len()
        invariant
            i <= nodes@.len(),
            given == node::views(nodes@),
            r@.len() == i,
            forall|k: int|
                0 <= k < i ==> (#[trigger] r@[k])@ == strings::lowercase_of(given[k].name),
        decreases nodes@.len() - i,
    {
        r.push(to_lowercase(nodes[i].name.as_str()));
        i += 1;
    }
    assert(r@.map_values(|k: String| k@) =~= given.map_values(
        |n: NodeView| strings::lowercase_of(n.name),
    ));
    r
}

/// Sorts nodes into an order.
pub fn arrange(nodes: Vec<FileNode>, order: ChildOrder) -> (r: Vec<FileNode>)
    ensures
        node::views(r@) == order.arranged(node::views(nodes@)),
{
    match order {
        ChildOrder::SizeDesc => arrange_by_size(nodes, SizeOrder::Desc),
        ChildOrder::SizeAsc => arrange_by_size(nodes, SizeOrder::Asc),
        ChildOrder::DirsThenSizeDesc => arrange_by_size(nodes, SizeOrder::DirsThenDesc),
        ChildOrder::NameAsc => {
            proof {
                lemma_by_lowercase(node::views(nodes@), false);
            }
            let keys = lowercase_names(&nodes);
            arrange_by_text(nodes, keys, false)
        },
        ChildOrder::NameDesc => {
            proof {
                lemma_by_lowercase(node::views(nodes@), true);
            }
            let keys = lowercase_names(&nodes);
            arrange_by_text(nodes, keys, true)
        },
    }
}

/// A node with its children, and those of every directory below it, in
/// descending order of size.
pub open spec fn sorted_deeply(node: NodeView) -> NodeView
    decreases node,
{
    NodeView { children: ChildOrder::SizeDesc.arranged(all_sorted_deeply(node.children)), ..node }
}

/// Each node sorted deeply where it is a directory; files stay as they are.
pub open spec fn all_sorted_deeply(nodes: Seq<NodeView>) -> Seq<NodeView>
    decreases nodes,
{
    Seq::new(
        nodes.len(),
        |i: int|
            if 0 <= i < nodes.len() && nodes[i].is_dir {
                sorted_deeply(nodes[i])
            } else {
                nodes[i]
            },
    )
}

/// What sorting deeply makes of one child: files stay as they are.
pub open spec fn sorted_child(child: NodeView) -> NodeView {
    if child.is_dir {
        sorted_deeply(child)
    } else {
        child
    }
}

/// Sorting deeply leaves a child's size as it is.
proof fn lemma_sorted_child(child: NodeView)
    ensures
        sorted_child(child).size == child.size,
{
}

/// Sorting deeply is sorting the children and then each of them.
pub proof fn lemma_sorted_deeply(node: NodeView)
    ensures
        sorted_deeply(node) == (NodeView {
            children: ChildOrder::SizeDesc.arranged(node.children).map_values(
                |c: NodeView| sorted_child(c),
            ),
            ..node
        }),
{
    let f = |c: NodeView| sorted_child(c);
    assert(node.children.map_values(f) =~= all_sorted_deeply(node.children));
    lemma_mapped_deeply(node.children);
}

proof fn lemma_mapped_deeply(children: Seq<NodeView>)
    ensures
        ChildOrder::SizeDesc.arranged(children).map_values(|c: NodeView| sorted_child(c))
            == ChildOrder::SizeDesc.arranged(children.map_values(|c: NodeView| sorted_child(c))),
{
    let f = |c: NodeView| sorted_child(c);
    let le = ChildOrder::SizeDesc.relation();
    assert forall|a: NodeView, b: NodeView| #[trigger] le(a, b) == le(f(a), f(b)) by {
        lemma_sorted_child(a);
        lemma_sorted_child(b);
    }
    sorting::lemma_sorted_mapped(children, f, le, le);
}

/// What is sorted deeply stays as it is when it is sorted deeply again.
pub proof fn sorting_deeply_twice(node: NodeView)
    ensures
        sorted_deeply(sorted_deeply(node)) == sorted_deeply(node),
    decreases node,
{
    let kids = all_sorted_deeply(node.children);
    let le = ChildOrder::SizeDesc.relation();
    let once = ChildOrder::SizeDesc.arranged(kids);
    sorting::lemma_sorted_len(kids, le);
    assert forall|i: int| 0 <= i < once.len() implies sorted_child(#[trigger] once[i])
        == once[i] by {
        sorting::lemma_sorted_contains(kids, le, i);
        let k = choose|k: int| 0 <= k < kids.len() && kids[k] == once[i];
        assert(kids[k] == sorted_child(node.children[k]));
        if node.children[k].is_dir {
            sorting_deeply_twice(node.children[k]);
        }
    }
    assert(all_sorted_deeply(once) =~= once);
    ChildOrder::SizeDesc.lemma_preorder();
    sorting::lemma_sorted_in_order(kids, le);
    sorting::lemma_sorted_fixed(once, le);
}

impl FileNode {
    pub fn new_dir(name: String, mtime: Option<Timestamp>) -> (r: FileNode)
        ensures
            r@ == dir_view(name@, mtime),
    {
        let r = FileNode {
            name,
            size: 0,
            is_dir: true,
            child_count: 0,
            mtime,
            children: Vec::new(),
            error_count: 0,
        };
        assert(r@.children =~= Seq::<NodeView>::empty());
        r
    }

    pub fn new_file(name: String, size: u64, mtime: Option<Timestamp>) -> (r: FileNode)
        ensures
            r@ == file_view(name@, size as nat, mtime),
    {
        let r = FileNode {
            name,
            size,
            is_dir: false,
            child_count: 0,
            mtime,
            children: Vec::new(),
            error_count: 0,
        };
        assert(r@.children =~= Seq::<NodeView>::empty());
        r
    }

    fn sort_children(&mut self, order: ChildOrder)
        ensures
            final(self)@ == (NodeView {
                children: order.arranged(old(self)@.children),
                ..old(self)@
            }),
    {
        let mut taken: Vec<FileNode> = Vec::new();
        std::mem::swap(&mut taken, &mut self.children);
        self.children = arrange(taken, order);
    }

    /// Orders the children by size, the largest first.
    pub fn sort_by_size_desc(&mut self)
        ensures
            final(self)@ == (NodeView {
                children: ChildOrder::SizeDesc.arranged(old(self)@.children),
                ..old(self)@
            }),
    {
        self.sort_children(ChildOrder::SizeDesc);
    }

    /// Orders the children by size, the smallest first.
    pub fn sort_by_size_asc(&mut self)
        ensures
            final(self)@ == (NodeView {
                children: ChildOrder::SizeAsc.arranged(old(self)@.children),
                ..old(self)@
            }),
    {
        self.sort_children(ChildOrder::SizeAsc);
    }

    /// Orders the children by name, without regard to case.
    pub fn sort_by_name_asc(&mut self)
        ensures
            final(self)@ == (NodeView {
                children: ChildOrder::NameAsc.arranged(old(self)@.children),
                ..old(self)@
            }),
    {
        self.sort_children(ChildOrder::NameAsc);
    }

    /// Orders the children by name, backwards, without regard to case.
    pub fn sort_by_name_desc(&mut self)
        ensures
            final(self)@ == (NodeView {
                children: ChildOrder::NameDesc.arranged(old(self)@.children),
                ..old(self)@
            }),
    {
        self.sort_children(ChildOrder::NameDesc);
    }

    /// Orders the children, and those of every directory below, by size, the
    /// largest first.
    pub fn sort_recursive_by_size(&mut self)
        ensures
            final(self)@ == sorted_deeply(old(self)@),
        decreases *old(self),
    {
        let ghost before = *self;
        let mut taken: Vec<FileNode> = Vec::new();
        std::mem::swap(&mut taken, &mut self.children);
        self.children = arrange_by_size(taken, SizeOrder::Desc);
        let ghost sorted = self.children@;
        let ghost top = *self;
        proof {
            sorting::lemma_sorted_len(before.children@, SizeOrder::Desc.le());
        }
        let mut i: usize = 0;
        while i < self.children.len()
            invariant
                i <= self.children@.len(),
                self.children@.len() == sorted.len(),
                sorted == sorting::stably_sorted(before.children@, SizeOrder::Desc.le()),
                sorted.len() == before.children@.len(),
                before == *old(self),
                self.name == top.name,
                self.size == top.size,
                self.is_dir == top.is_dir,
                self.child_count == top.child_count,
                self.mtime == top.mtime,
                self.error_count == top.error_count,
                forall|j: int|
                    0 <= j < i ==> #[trigger] self.children@[j]@ == sorted_child(sorted[j]@),
                forall|j: int| i <= j < sorted.len() ==> self.children@[j] == sorted[j],
            decreases sorted.len() - i,
        {
            proof {
                sorting::lemma_sorted_contains(
                    before.children@,
                    SizeOrder::Desc.le(),
                    i as int,
                );
                let k = choose|k: int|
                    0 <= k < before.children@.len() && before.children@[k] == sorted[i as int];
                assert(decreases_to!(before => before.children));
                assert(decreases_to!(before.children => before.children[k]));
            }
            if self.children[i].is_dir {
                self.children[i].sort_recursive_by_size();
            }
            i += 1;
        }
        proof {
            lemma_sorted_deeply(before@);
            assert(node::views(sorted) == ChildOrder::SizeDesc.arranged(before@.children));
            assert(self@.children =~= sorted_deeply(before@).children);
            assert(self@ =~= sorted_deeply(before@));
        }
    }
}

/// A directory of which nothing but its name and time is known yet.
pub open spec fn dir_view(name: Seq<char>, mtime: Option<Timestamp>) -> NodeView {
    NodeView {
        name,
        size: 0,
        is_dir: true,
        child_count: 0,
        mtime,
        children: Seq::empty(),
        error_count: 0,
    }
}

/// A file.
pub open spec fn file_view(name: Seq<char>, size: nat, mtime: Option<Timestamp>) -> NodeView {
    NodeView {
        name,
        size,
        is_dir: false,
        child_count: 0,
        mtime,
        children: Seq::empty(),
        error_count: 0,
    }
}

/// The tree that a scan found below its root.
#[derive(Debug)]
pub struct FileTree {
    pub root_path: String,
    pub root: FileNode,
    pub total_files: u64,
    pub total_dirs: u64,
    pub total_errors: u64,
    pub scan_time: Timestamp,
    pub complete: bool,
}

/// What a [`FileTree`] holds, as mathematical values.
#[verifier::ext_equal]
pub struct TreeView {
    pub root_path: Seq<char>,
    pub root: NodeView,
    pub total_files: u64,
    pub total_dirs: u64,
    pub total_errors: u64,
    pub scan_time: Timestamp,
    pub complete: bool,
}

impl View for FileTree {
    type V = TreeView;

    open spec fn view(&self) -> TreeView {
        TreeView {
            root_path: self.root_path@,
            root: self.root@,
            total_files: self.total_files,
            total_dirs: self.total_dirs,
            total_errors: self.total_errors,
            scan_time: self.scan_time,
            complete: self.complete,
        }
    }
}

impl Clone for FileTree {
    fn clone(&self) -> (r: Self)
        ensures
            r@ == self@,
    {
        FileTree {
            root_path: self.root_path.clone(),
            root: self.root.clone(),
            total_files: self.total_files,
            total_dirs: self.total_dirs,
            total_errors: self.total_errors,
            scan_time: self.scan_time,
            complete: self.complete,
        }
    }
}

/// The node that is reached from `node` by taking, at each step, the child
/// with the next index; `None` where there is no such child.
pub open spec fn descendant(node: NodeView, path: Seq<usize>) -> Option<NodeView>
    decreases path.len(),
{
    if path.len() == 0 {
        Some(node)
    } else if path[0] < node.children.len() {
        descendant(node.children[path[0] as int], path.drop_first())
    } else {
        None
    }
}

/// `node` with its descendant at `path` replaced.
pub open spec fn with_descendant(node: NodeView, path: Seq<usize>, new: NodeView) -> NodeView
    decreases path.len(),
{
    if path.len() == 0 {
        new
    } else if path[0] < node.children.len() {
        NodeView {
            children: node.children.update(
                path[0] as int,
                with_descendant(node.children[path[0] as int], path.drop_first(), new),
            ),
            ..node
        }
    } else {
        node
    }
}

/// A descendant that was put in the place of another is found there, and
/// what is not on the way to it is as it was.
pub proof fn replaced_descendant(
    node: NodeView,
    path: Seq<usize>,
    new: NodeView,
    other: Seq<usize>,
)
    requires
        descendant(node, path) is Some,
    ensures
        descendant(with_descendant(node, path, new), path) == Some(new),
        !other.is_prefix_of(path) && !path.is_prefix_of(other) ==> descendant(
            with_descendant(node, path, new),
            other,
        ) == descendant(node, other),
    decreases path.len(),
{
    if path.len() > 0 {
        let i = path[0] as int;
        replaced_descendant(node.children[i], path.drop_first(), new, other.drop_first());
        if other.len() > 0 && other[0] == path[0] {
            let a = other.drop_first();
            let b = path.drop_first();
            if a.is_prefix_of(b) {
                assert(other =~= path.take(other.len() as int)) by {
                    assert forall|k: int| 0 <= k < other.len() implies other[k] == path[k] by {
                        if k > 0 {
                            assert(a[k - 1] == b.take(a.len() as int)[k - 1]);
                        }
                    }
                }
            }
            if b.is_prefix_of(a) {
                assert(path =~= other.take(path.len() as int)) by {
                    assert forall|k: int| 0 <= k < path.len() implies other[k] == path[k] by {
                        if k > 0 {
                            assert(b[k - 1] == a.take(b.len() as int)[k - 1]);
                        }
                    }
                }
            }
        }
    }
}

/// Replacing a descendant of a child, said of the child.
proof fn lemma_with_child(before: FileNode, i: int, path: Seq<usize>)
    requires
        path.len() > 0,
        i == path[0],
        0 <= i < before.children@.len(),
    ensures
        descendant(before@, path) == descendant(before.children@[i]@, path.drop_first()),
        forall|after: FileNode, new: NodeView|
            ({
                &&& after.name == before.name
                &&& after.size == before.size
                &&& after.is_dir == before.is_dir
                &&& after.child_count == before.child_count
                &&& after.mtime == before.mtime
                &&& after.error_count == before.error_count
                &&& after.children@ == before.children@.update(i, after.children@[i])
                &&& after.children@[i]@ == #[trigger] with_descendant(
                    before.children@[i]@,
                    path.drop_first(),
                    new,
                )
            }) ==> #[trigger] after@ == with_descendant(before@, path, new),
{
    assert forall|after: FileNode, new: NodeView|
        ({
            &&& after.name == before.name
            &&& after.size == before.size
            &&& after.is_dir == before.is_dir
            &&& after.child_count == before.child_count
            &&& after.mtime == before.mtime
            &&& after.error_count == before.error_count
            &&& after.children@ == before.children@.update(i, after.children@[i])
            &&& after.children@[i]@ == #[trigger] with_descendant(
                before.children@[i]@,
                path.drop_first(),
                new,
            )
        }) implies #[trigger] after@ == with_descendant(before@, path, new) by {
        assert(after.children@.len() == before.children@.len());
        assert(before@.children[i] == before.children@[i]@);
        assert(after@.children =~= before@.children.update(
            i,
            with_descendant(before@.children[i], path.drop_first(), new),
        ));
        assert(after@ =~= with_descendant(before@, path, new));
    }
}

/// The descendant at `path[from..]`, to be changed in place.
fn descendant_mut<'a>(node: &'a mut FileNode, path: &[usize], from: usize) -> (r: Option<
    &'a mut FileNode,
>)
    requires
        from <= path@.len(),
    ensures
        match r {
            Some(n) => {
                &&& descendant(old(node)@, path@.skip(from as int)) == Some(n@)
                &&& final(node)@ == with_descendant(
                    old(node)@,
                    path@.skip(from as int),
                    final(n)@,
                )
            },
            None => descendant(old(node)@, path@.skip(from as int)) is None && final(node)@ == old(
                node,
            )@,
        },
    decreases path@.len() - from,
{
    if from == path.len() {
        return Some(node);
    }
    let i = path[from];
    if i >= node.children.len() {
        return None;
    }
    proof {
        assert(path@.skip(from as int).drop_first() =~= path@.skip(from + 1));
        lemma_with_child(*node, i as int, path@.skip(from as int));
        assert(forall|after: FileNode|
            #![trigger after@]
            ({
                &&& after.name == node.name
                &&& after.size == node.size
                &&& after.is_dir == node.is_dir
                &&& after.child_count == node.child_count
                &&& after.mtime == node.mtime
                &&& after.error_count == node.error_count
                &&& after.children@ == node.children@.update(i as int, after.children@[i as int])
                &&& after.children@[i as int]@ == node.children@[i as int]@
            }) ==> after@ =~= node@) by {
            assert forall|after: FileNode|
                #![trigger after@]
                ({
                    &&& after.name == node.name
                    &&& after.size == node.size
                    &&& after.is_dir == node.is_dir
                    &&& after.child_count == node.child_count
                    &&& after.mtime == node.mtime
                    &&& after.error_count == node.error_count
                    &&& after.children@ == node.children@.update(
                        i as int,
                        after.children@[i as int],
                    )
                    &&& after.children@[i as int]@ == node.children@[i as int]@
                }) implies after@ =~= node@ by {
                assert(after@.children =~= node@.children);
            }
        }
    }
    descendant_mut(&mut node.children[i], path, from + 1)
}

impl FileTree {
    /// The node reached from the root by the child indices of `path`.
    pub fn node_at(&self, path: &[usize]) -> (r: Option<&FileNode>)
        ensures
            match r {
                Some(n) => descendant(self.root@, path@) == Some(n@),
                None => descendant(self.root@, path@) is None,
            },
    {
        let mut current = &self.root;
        let mut i: usize = 0;
        assert(path@.skip(0) =~= path@);
        while i < path.len()
            invariant
                i <= path@.len(),
                descendant(self.root@, path@) == descendant(current@, path@.skip(i as int)),
            decreases path@.len() - i,
        {
            let k = path[i];
            if k >= current.children.len() {
                return None;
            }
            assert(path@.skip(i as int).drop_first() =~= path@.skip(i + 1));
            current = &current.children[k];
            i += 1;
        }
        Some(current)
    }

    /// The node reached from the root by the child indices of `path`, to be
    /// changed in place.
    pub fn node_at_mut(&mut self, path: &[usize]) -> (r: Option<&mut FileNode>)
        ensures
            match r {
                Some(n) => {
                    &&& descendant(old(self).root@, path@) == Some(n@)
                    &&& final(self)@ == (TreeView {
                        root: with_descendant(old(self).root@, path@, final(n)@),
                        ..old(self)@
                    })
                },
                None => descendant(old(self).root@, path@) is None && final(self)@ == old(self)@,
            },
    {
        assert(path@.skip(0) =~= path@);
        descendant_mut(&mut self.root, path, 0)
    }
}

/// Whatever the order, the children are the same ones; and of any two the one that
/// stands first is the larger, the smaller, the one whose name in lower case comes
/// first, or the one whose name comes last, as the order says. Where directories
/// come first, no file stands before one, and the larger stand first among each.
pub proof fn arranged_children_are_in_order(order: ChildOrder, children: Seq<NodeView>)
    ensures
        ({
            let arranged = order.arranged(children);
            &&& arranged.len() == children.len()
            &&& arranged.to_multiset() == children.to_multiset()
            &&& forall|i: int, j: int|
                0 <= i < j < arranged.len() ==> {
                    let a = #[trigger] arranged[i];
                    let b = #[trigger] arranged[j];
                    let x = strings::lowercase_of(a.name);
                    let y = strings::lowercase_of(b.name);
                    &&& order == ChildOrder::SizeDesc ==> a.size >= b.size
                    &&& order == ChildOrder::SizeAsc ==> a.size <= b.size
                    &&& order == ChildOrder::NameAsc ==> strings::text_le(x, y)
                    &&& order == ChildOrder::NameDesc ==> strings::text_le(y, x)
                    &&& order == ChildOrder::DirsThenSizeDesc ==> (a.is_dir || !b.is_dir) && (
                    a.is_dir == b.is_dir ==> a.size >= b.size)
                }
        }),
{
    let le = order.relation();
    let arranged = order.arranged(children);
    sorting::lemma_sorted_len(children, le);
    sorting::lemma_sorted_multiset(children, le);
    order.lemma_preorder();
    sorting::lemma_sorted_in_order(children, le);
    assert forall|i: int, j: int| 0 <= i < j < arranged.len() implies order.allows(
        #[trigger] arranged[i],
        #[trigger] arranged[j],
    ) by {
        assert(le(arranged[i], arranged[j]));
    }
}

/// Whether the children of a node, and those of every directory below it, are in
/// descending order of size.
pub open spec fn descends(node: NodeView) -> bool
    decreases node,
{
    &&& forall|i: int, j: int|
        0 <= i < j < node.children.len() ==> (#[trigger] node.children[i]).size >= (
        #[trigger] node.children[j]).size
    &&& forall|i: int|
        #![trigger node.children[i]]
        0 <= i < node.children.len() && node.children[i].is_dir ==> descends(node.children[i])
}

/// After sorting deeply the larger stand first in every directory of the tree, and
/// of the node nothing else has changed.
pub proof fn sorting_deeply_descends(node: NodeView)
    ensures
        descends(sorted_deeply(node)),
        sorted_deeply(node) == (NodeView { children: sorted_deeply(node).children, ..node }),
        sorted_deeply(node).children.len() == node.children.len(),
    decreases node,
{
    let kids = all_sorted_deeply(node.children);
    let sorted = sorted_deeply(node);
    let le = ChildOrder::SizeDesc.relation();
    arranged_children_are_in_order(ChildOrder::SizeDesc, kids);
    assert forall|i: int|
        0 <= i < sorted.children.len() && (#[trigger] sorted.children[i]).is_dir implies descends(
        sorted.children[i],
    ) by {
        sorting::lemma_sorted_contains(kids, le, i);
        let k = choose|k: int| 0 <= k < kids.len() && kids[k] == sorted.children[i];
        assert(kids[k] == sorted_child(node.children[k]));
        if node.children[k].is_dir {
            sorting_deeply_descends(node.children[k]);
        }
    }
}

/// What is on the way to a descendant that is replaced keeps all it has, but for the
/// child that leads on.
pub proof fn replacing_keeps_the_way(node: NodeView, path: Seq<usize>, new: NodeView, n: int)
    requires
        descendant(node, path) is Some,
        0 <= n < path.len(),
    ensures
        descendant(node, path.take(n)) matches Some(before) && descendant(
            with_descendant(node, path, new),
            path.take(n),
        ) matches Some(after) && {
            &&& after == (NodeView { children: after.children, ..before })
            &&& after.children.len() == before.children.len()
            &&& forall|i: int|
                0 <= i < before.children.len() && i != path[n] ==> #[trigger] after.children[i]
                    == before.children[i]
        },
    decreases path.len(),
{
    if n > 0 {
        assert(path.take(n).drop_first() =~= path.drop_first().take(n - 1));
        replacing_keeps_the_way(node.children[path[0] as int], path.drop_first(), new, n - 1);
    } else {
        assert(path.take(n) =~= Seq::<usize>::empty());
    }
}

/// Nodes that are arranged by texts stand in the order of those texts, where the text
/// of a node goes by its name.
pub proof fn texts_decide_the_order(
    nodes: Seq<NodeView>,
    keys: Seq<Seq<char>>,
    descending: bool,
    key_of: spec_fn(Seq<char>) -> Seq<char>,
)
    requires
        nodes.len() == keys.len(),
        forall|i: int| 0 <= i < keys.len() ==> #[trigger] keys[i] == key_of(nodes[i].name),
    ensures
        ({
            let arranged = arranged_by_text(nodes, keys, descending);
            &&& arranged.len() == nodes.len()
            &&& forall|i: int, j: int|
                0 <= i < j < arranged.len() ==> {
                    let x = key_of((#[trigger] arranged[i]).name);
                    let y = key_of((#[trigger] arranged[j]).name);
                    if descending {
                        strings::text_le(y, x)
                    } else {
                        strings::text_le(x, y)
                    }
                }
        }),
{
    let pairs = Seq::new(nodes.len(), |i: int| (nodes[i], keys[i]));
    let le = text_order(descending);
    let sorted = sorting::stably_sorted(pairs, le);
    let arranged = arranged_by_text(nodes, keys, descending);
    sorting::lemma_sorted_len(pairs, le);
    assert(sorting::is_preorder(le)) by {
        assert forall|a: (NodeView, Seq<char>), b: (NodeView, Seq<char>)| #[trigger]
            le(a, b) || le(b, a) by {
            strings::bytes_le_total(vstd::utf8::encode_utf8(a.1), vstd::utf8::encode_utf8(b.1));
        }
        assert forall|
            a: (NodeView, Seq<char>),
            b: (NodeView, Seq<char>),
            c: (NodeView, Seq<char>),
        | #[trigger] le(a, b) && #[trigger] le(b, c) implies le(a, c) by {
            let x = vstd::utf8::encode_utf8(a.1);
            let y = vstd::utf8::encode_utf8(b.1);
            let z = vstd::utf8::encode_utf8(c.1);
            if descending {
                strings::bytes_le_transitive(z, y, x);
            } else {
                strings::bytes_le_transitive(x, y, z);
            }
        }
    }
    sorting::lemma_sorted_in_order(pairs, le);
    assert forall|i: int| 0 <= i < sorted.len() implies (#[trigger] sorted[i]).1 == key_of(
        sorted[i].0.name,
    ) by {
        sorting::lemma_sorted_contains(pairs, le, i);
        let k = choose|k: int| 0 <= k < pairs.len() && pairs[k] == sorted[i];
        assert(keys[k] == key_of(nodes[k].name));
    }
    assert forall|i: int, j: int| 0 <= i < j < arranged.len() implies {
        let x = key_of((#[trigger] arranged[i]).name);
        let y = key_of((#[trigger] arranged[j]).name);
        if descending {
            strings::text_le(y, x)
        } else {
            strings::text_le(x, y)
        }
    } by {
        assert(le(sorted[i], sorted[j]));
        assert(arranged[i] == sorted[i].0 && arranged[j] == sorted[j].0);
    }
}

} // verus!
