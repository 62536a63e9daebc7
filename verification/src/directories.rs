//! What a scan has found so far, directory by directory, and the trees that
//! are made of it.

use crate::aggregation::{AggregationView, DirAggregation, TOP_FILES_TO_KEEP};
use crate::node::{FileNode, NodeView, Timestamp};
use crate::path_map::PathMap;
use crate::tree::{arrange, ChildOrder, FileTree, TreeView};
use crate::{node, paths, sorting, tree};
use vstd::prelude::*;

verus! {

broadcast use {node::lemma_view, node::lemma_views_push};

/// The most files shown of one directory while the scan runs, those kept of
/// very many among them.
pub const MAX_SNAPSHOT_FILES_PER_DIR: usize = 500;

/// How deep a tree is shown while the scan runs.
pub const SNAPSHOT_DEPTH: usize = 2;

/// What is known of the directories, each by its path. Paths with the same
/// parts are one.
pub struct Directories {
    /// The entries, in the order they came in; of many files only the first.
    pub children: PathMap<Vec<FileNode>>,
    pub mtimes: PathMap<Option<Timestamp>>,
    /// The size of all files below.
    pub sizes: PathMap<u64>,
    /// How many files are listed among the entries.
    pub file_counts: PathMap<usize>,
    /// The files beyond those that are listed.
    pub aggregated: PathMap<DirAggregation>,
}

/// What [`Directories`] holds, as mathematical values.
#[verifier::ext_equal]
pub struct DirectoriesView {
    pub children: Map<Seq<char>, Seq<NodeView>>,
    pub mtimes: Map<Seq<char>, Option<Timestamp>>,
    pub sizes: Map<Seq<char>, nat>,
    pub file_counts: Map<Seq<char>, nat>,
    pub aggregated: Map<Seq<char>, AggregationView>,
}

impl View for Directories {
    type V = DirectoriesView;

    open spec fn view(&self) -> DirectoriesView {
        DirectoriesView {
            children: self.children@.map_values(|c: Vec<FileNode>| node::views(c@)),
            mtimes: self.mtimes@,
            sizes: self.sizes@.map_values(|n: u64| n as nat),
            file_counts: self.file_counts@.map_values(|n: usize| n as nat),
            aggregated: self.aggregated@.map_values(|a: DirAggregation| a@),
        }
    }
}

/// How many of the nodes are directories.
pub open spec fn dirs_among(nodes: Seq<NodeView>) -> nat
    decreases nodes.len(),
{
    if nodes.len() == 0 {
        0
    } else if nodes.last().is_dir {
        dirs_among(nodes.drop_last()) + 1
    } else {
        dirs_among(nodes.drop_last())
    }
}

/// Whether none of the nodes is a directory.
pub open spec fn all_files(nodes: Seq<NodeView>) -> bool {
    forall|i: int| 0 <= i < nodes.len() ==> !(#[trigger] nodes[i]).is_dir
}

/// Among files there are no directories.
proof fn lemma_no_dirs_among(nodes: Seq<NodeView>)
    requires
        all_files(nodes),
    ensures
        dirs_among(nodes) == 0,
    decreases nodes.len(),
{
    if nodes.len() > 0 {
        assert(!nodes[nodes.len() - 1].is_dir);
        lemma_no_dirs_among(nodes.drop_last());
    }
}

/// There are no more directories among nodes than nodes.
pub proof fn lemma_dirs_among(nodes: Seq<NodeView>)
    ensures
        dirs_among(nodes) <= nodes.len(),
    decreases nodes.len(),
{
    if nodes.len() > 0 {
        lemma_dirs_among(nodes.drop_last());
    }
}

/// Counts the directories among the nodes.
pub fn count_dirs(nodes: &Vec<FileNode>) -> (r: usize)
    ensures
        r == dirs_among(node::views(nodes@)),
        r <= nodes@.len(),
{
    let mut n: usize = 0;
    let mut i: usize = 0;
    let ghost all = node::views(nodes@);
    assert(all.take(0) =~= Seq::<NodeView>::empty());
    while i < nodes.len()
        invariant
            i <= nodes@.len(),
            n <= i,
            all == node::views(nodes@),
            n == dirs_among(all.take(i as int)),
        decreases nodes@.len() - i,
    {
        assert(all.take(i + 1).drop_last() =~= all.take(i as int));
        if nodes[i].is_dir {
            n += 1;
        }
        i += 1;
    }
    assert(all.take(i as int) =~= all);
    n
}

impl DirectoriesView {
    /// The entries listed of a directory.
    pub open spec fn entries(self, path: Seq<char>) -> Seq<NodeView> {
        let key = paths::tidied(path);
        if self.children.contains_key(key) {
            self.children[key]
        } else {
            Seq::empty()
        }
    }

    pub open spec fn size(self, path: Seq<char>) -> nat {
        let key = paths::tidied(path);
        if self.sizes.contains_key(key) {
            self.sizes[key]
        } else {
            0
        }
    }

    pub open spec fn mtime(self, path: Seq<char>) -> Option<Timestamp> {
        let key = paths::tidied(path);
        if self.mtimes.contains_key(key) {
            self.mtimes[key]
        } else {
            None
        }
    }

    /// The largest of the files that are not listed.
    pub open spec fn top_files(self, path: Seq<char>) -> Seq<NodeView> {
        let key = paths::tidied(path);
        if self.aggregated.contains_key(key) {
            self.aggregated[key].top_files
        } else {
            Seq::empty()
        }
    }

    /// How many entries a directory has, listed or not, if those listed are
    /// `entries`.
    pub open spec fn count_with(self, entries: Seq<NodeView>, path: Seq<char>) -> nat {
        let key = paths::tidied(path);
        if self.aggregated.contains_key(key) {
            dirs_among(entries) + self.aggregated[key].total_file_count
        } else if self.file_counts.contains_key(key) {
            dirs_among(entries) + self.file_counts[key]
        } else {
            entries.len()
        }
    }

    /// How many entries a directory has, listed or not.
    pub open spec fn child_count(self, path: Seq<char>) -> nat {
        self.count_with(self.entries(path), path)
    }

    /// Whether the number of entries of every directory fits the machine.
    pub open spec fn child_counts_fit(self) -> bool {
        forall|path: Seq<char>| #[trigger] self.child_count(path) <= usize::MAX
    }
}

impl Directories {
    pub open spec fn wf(self) -> bool {
        &&& self.children.wf()
        &&& self.mtimes.wf()
        &&& self.sizes.wf()
        &&& self.file_counts.wf()
        &&& self.aggregated.wf()
        &&& forall|path: Seq<char>| #[trigger]
            self.aggregated@.contains_key(path) ==> self.aggregated@[path].wf() && all_files(
                self.aggregated@[path]@.top_files,
            )
    }

    pub fn new() -> (r: Directories)
        ensures
            r.wf(),
            r@ == (DirectoriesView {
                children: Map::empty(),
                mtimes: Map::empty(),
                sizes: Map::empty(),
                file_counts: Map::empty(),
                aggregated: Map::empty(),
            }),
    {
        let r = Directories {
            children: PathMap::new(),
            mtimes: PathMap::new(),
            sizes: PathMap::new(),
            file_counts: PathMap::new(),
            aggregated: PathMap::new(),
        };
        assert(r@.children =~= Map::empty());
        assert(r@.sizes =~= Map::empty());
        assert(r@.file_counts =~= Map::empty());
        assert(r@.aggregated =~= Map::empty());
        r
    }

    pub fn mtime_of(&self, path: &str) -> (r: Option<Timestamp>)
        requires
            self.wf(),
        ensures
            r == self@.mtime(path@),
    {
        match self.mtimes.get(path) {
            Some(t) => *t,
            None => None,
        }
    }

    pub fn size_of(&self, path: &str) -> (r: u64)
        requires
            self.wf(),
        ensures
            r == self@.size(path@),
    {
        match self.sizes.get(path) {
            Some(n) => *n,
            None => 0,
        }
    }
}

/// The entries listed of a directory, if any are.
pub open spec fn listed(entries: Option<&Vec<FileNode>>) -> Seq<NodeView> {
    match entries {
        Some(e) => node::views(e@),
        None => Seq::empty(),
    }
}

/// How many entries a directory has, listed or not. `entries` are those
/// listed of it.
pub fn compute_child_count(
    entries: Option<&Vec<FileNode>>,
    path: &str,
    directories: &Directories,
) -> (r: usize)
    requires
        directories.wf(),
        directories@.count_with(listed(entries), path@) <= usize::MAX,
    ensures
        r == directories@.count_with(listed(entries), path@),
{
    let dir_count: usize = match entries {
        Some(e) => count_dirs(e),
        None => 0,
    };
    match directories.aggregated.get(path) {
        Some(agg) => dir_count + agg.total_file_count,
        None => match directories.file_counts.get(path) {
            Some(n) => dir_count + *n,
            None => match entries {
                Some(e) => e.len(),
                None => 0,
            },
        },
    }
}

/// How many of the nodes are files.
pub open spec fn files_among(nodes: Seq<NodeView>) -> nat {
    (nodes.len() - dirs_among(nodes)) as nat
}

impl DirectoriesView {
    /// A directory with what is below it, `depth` levels deep. Below that,
    /// directories are shown without their children.
    pub open spec fn shallow(self, path: Seq<char>, depth: nat) -> NodeView
        decreases depth, 1nat, 0nat,
    {
        NodeView {
            name: paths::file_name_of(path),
            size: self.size(path),
            is_dir: true,
            child_count: self.child_count(path),
            mtime: self.mtime(path),
            children: if depth == 0 {
                Seq::empty()
            } else {
                ChildOrder::DirsThenSizeDesc.arranged(
                    self.shown(path, self.entries(path), depth) + self.top_files(path),
                )
            },
            error_count: 0,
        }
    }

    /// What is shown of the entries of a directory: all directories, and the
    /// first files, as many as the limit leaves beside those kept of the files
    /// that are not listed.
    pub open spec fn shown(
        self,
        path: Seq<char>,
        entries: Seq<NodeView>,
        depth: nat,
    ) -> Seq<NodeView>
        decreases depth, 0nat, entries.len(),
    {
        if entries.len() == 0 || depth == 0 {
            Seq::empty()
        } else {
            let before = self.shown(path, entries.drop_last(), depth);
            let entry = entries.last();
            if entry.is_dir {
                before.push(self.shallow(paths::joined(path, entry.name), (depth - 1) as nat))
            } else if files_among(entries.drop_last()) + self.top_files(path).len()
                < MAX_SNAPSHOT_FILES_PER_DIR {
                before.push(entry)
            } else {
                before
            }
        }
    }
}

/// A directory with what is below it, for display while the scan runs.
pub fn build_shallow_node(path: &str, directories: &Directories, depth_remaining: usize) -> (r:
    FileNode)
    requires
        directories.wf(),
        directories@.child_counts_fit(),
    ensures
        r@ == directories@.shallow(path@, depth_remaining as nat),
        shows_few_files(r@),
    decreases depth_remaining, 1nat,
{
    proof {
        lemma_keeps_few_files(*directories);
        shown_nodes_have_few_files(directories@, path@, depth_remaining as nat);
    }
    let entries = directories.children.get(path);
    let mtime = directories.mtime_of(path);
    let name = paths::file_name(path);
    let size = directories.size_of(path);
    assert(directories@.child_count(path@) <= usize::MAX);
    let child_count = compute_child_count(entries, path, directories);
    let mut children: Vec<FileNode> = Vec::new();
    if depth_remaining > 0 {
        if let Some(entries) = entries {
            children = shown_entries(path, entries, directories, depth_remaining);
        }
        let ghost shown = node::views(children@);
        assert(shown =~= directories@.shown(
            path@,
            directories@.entries(path@),
            depth_remaining as nat,
        ));
        if let Some(agg) = directories.aggregated.get(path) {
            let ghost top = node::views(agg.top_files@);
            let mut i: usize = 0;
            assert(shown + top.take(0) =~= shown);
            while i < agg.top_files.len()
                invariant
                    i <= agg.top_files@.len(),
                    top == node::views(agg.top_files@),
                    node::views(children@) == shown + top.take(i as int),
                decreases agg.top_files@.len() - i,
            {
                children.push(agg.top_files[i].clone());
                assert(shown + top.take(i + 1) =~= (shown + top.take(i as int)).push(
                    top[i as int],
                ));
                i += 1;
            }
            assert(top.take(i as int) =~= top);
        } else {
            assert(shown + directories@.top_files(path@) =~= shown);
        }
    } else {
        assert(node::views(children@) =~= Seq::<NodeView>::empty());
        proof {
            lemma_arranged_nothing();
        }
    }
    let children = arrange(children, ChildOrder::DirsThenSizeDesc);
    FileNode { name, size, is_dir: true, child_count, mtime, children, error_count: 0 }
}

proof fn lemma_arranged_nothing()
    ensures
        ChildOrder::DirsThenSizeDesc.arranged(Seq::empty()) == Seq::<NodeView>::empty(),
{
}

fn shown_entries(
    path: &str,
    entries: &Vec<FileNode>,
    directories: &Directories,
    depth: usize,
) -> (r: Vec<FileNode>)
    requires
        directories.wf(),
        directories@.child_counts_fit(),
        depth > 0,
    ensures
        node::views(r@) == directories@.shown(path@, node::views(entries@), depth as nat),
    decreases depth, 0nat,
{
    let mut shown: Vec<FileNode> = Vec::new();
    let kept = match directories.aggregated.get(path) {
        Some(agg) => agg.top_files.len(),
        None => 0,
    };
    assert(kept == directories@.top_files(path@).len());
    let limit = MAX_SNAPSHOT_FILES_PER_DIR.saturating_sub(kept);
    let mut file_count: usize = 0;
    let mut i: usize = 0;
    let ghost all = node::views(entries@);
    assert(all.take(0) =~= Seq::<NodeView>::empty());
    assert(node::views(shown@) =~= Seq::<NodeView>::empty());
    while i < entries.len()
        invariant
            directories.wf(),
            directories@.child_counts_fit(),
            depth > 0,
            i <= entries@.len(),
            all == node::views(entries@),
            node::views(shown@) == directories@.shown(path@, all.take(i as int), depth as nat),
            kept == directories@.top_files(path@).len(),
            limit == if kept < MAX_SNAPSHOT_FILES_PER_DIR {
                MAX_SNAPSHOT_FILES_PER_DIR - kept
            } else {
                0
            },
            file_count == if files_among(all.take(i as int)) < limit {
                files_among(all.take(i as int))
            } else {
                limit as nat
            },
        decreases entries@.len() - i,
    {
        proof {
            assert(all.take(i + 1).drop_last() =~= all.take(i as int));
            lemma_dirs_among(all.take(i as int));
        }
        let entry = &entries[i];
        if entry.is_dir {
            let child_path = paths::join(path, entry.name.as_str());
            shown.push(build_shallow_node(child_path.as_str(), directories, depth - 1));
        } else if file_count < limit {
            shown.push(entry.clone());
            file_count += 1;
        }
        i += 1;
    }
    assert(all.take(i as int) =~= all);
    shown
}

impl DirectoriesView {
    /// Whether what is kept of the files that are not listed is files, and no
    /// more of them than the limit.
    pub open spec fn keeps_few_files(self) -> bool {
        forall|path: Seq<char>|
            (#[trigger] self.top_files(path)).len() <= TOP_FILES_TO_KEEP && all_files(
                self.top_files(path),
            )
    }
}

/// What is known of directories keeps few files.
proof fn lemma_keeps_few_files(directories: Directories)
    requires
        directories.wf(),
    ensures
        directories@.keeps_few_files(),
{
    assert forall|path: Seq<char>|
        (#[trigger] directories@.top_files(path)).len() <= TOP_FILES_TO_KEEP && all_files(
            directories@.top_files(path),
        ) by {
        if directories@.aggregated.contains_key(paths::tidied(path)) {
            assert(directories.aggregated@.contains_key(paths::tidied(path)));
        }
    }
}

/// Whether a directory has no more files among its children than are shown
/// while the scan runs, and neither has any directory below it.
pub open spec fn shows_few_files(node: NodeView) -> bool
    decreases node,
{
    &&& files_among(node.children) <= MAX_SNAPSHOT_FILES_PER_DIR
    &&& forall|i: int|
        #![trigger node.children[i]]
        0 <= i < node.children.len() && node.children[i].is_dir ==> shows_few_files(
            node.children[i],
        )
}

proof fn lemma_dirs_joined(a: Seq<NodeView>, b: Seq<NodeView>)
    ensures
        dirs_among(a + b) == dirs_among(a) + dirs_among(b),
    decreases b.len(),
{
    if b.len() > 0 {
        lemma_dirs_joined(a, b.drop_last());
        assert((a + b).drop_last() =~= a + b.drop_last());
    } else {
        assert(a + b =~= a);
    }
}

/// What counts the directories.
spec fn as_dir() -> spec_fn(NodeView) -> nat {
    |n: NodeView|
        if n.is_dir {
            1
        } else {
            0
        }
}

proof fn lemma_dirs_weighed(nodes: Seq<NodeView>)
    ensures
        dirs_among(nodes) == sorting::weigh(nodes, as_dir()),
    decreases nodes.len(),
{
    if nodes.len() > 0 {
        lemma_dirs_weighed(nodes.drop_last());
    }
}

/// Sorting keeps the number of directories.
proof fn lemma_dirs_sorted(nodes: Seq<NodeView>, le: spec_fn(NodeView, NodeView) -> bool)
    ensures
        dirs_among(sorting::stably_sorted(nodes, le)) == dirs_among(nodes),
{
    lemma_dirs_weighed(nodes);
    lemma_dirs_weighed(sorting::stably_sorted(nodes, le));
    sorting::lemma_sorted_weight(nodes, le, as_dir());
}

proof fn lemma_few_shown(
    v: DirectoriesView,
    path: Seq<char>,
    entries: Seq<NodeView>,
    depth: nat,
)
    requires
        v.keeps_few_files(),
    ensures
        ({
            let shown = v.shown(path, entries, depth);
            &&& files_among(shown) <= files_among(entries)
            &&& files_among(shown) + v.top_files(path).len() <= MAX_SNAPSHOT_FILES_PER_DIR
            &&& forall|i: int|
                0 <= i < shown.len() && (#[trigger] shown[i]).is_dir ==> shows_few_files(shown[i])
        }),
    decreases depth, 0nat, entries.len(),
{
    assert(v.top_files(path).len() <= TOP_FILES_TO_KEEP);
    if entries.len() > 0 && depth > 0 {
        lemma_few_shown(v, path, entries.drop_last(), depth);
        let before = v.shown(path, entries.drop_last(), depth);
        let entry = entries.last();
        lemma_dirs_among(before);
        lemma_dirs_among(entries.drop_last());
        let shown = v.shown(path, entries, depth);
        if shown != before {
            assert(shown.drop_last() =~= before);
        }
        if entry.is_dir {
            shown_nodes_have_few_files(v, paths::joined(path, entry.name), (depth - 1) as nat);
        }
    }
}

/// While the scan runs no directory is shown with more files than the limit,
/// those kept of very many among them.
pub proof fn shown_nodes_have_few_files(v: DirectoriesView, path: Seq<char>, depth: nat)
    requires
        v.keeps_few_files(),
    ensures
        shows_few_files(v.shallow(path, depth)),
    decreases depth, 1nat, 0nat,
{
    let node = v.shallow(path, depth);
    if depth > 0 {
        let shown = v.shown(path, v.entries(path), depth);
        let top = v.top_files(path);
        let all = shown + top;
        let le = ChildOrder::DirsThenSizeDesc.relation();
        lemma_few_shown(v, path, v.entries(path), depth);
        assert(all_files(top));
        lemma_no_dirs_among(top);
        lemma_dirs_joined(shown, top);
        lemma_dirs_sorted(all, le);
        lemma_dirs_among(shown);
        sorting::lemma_sorted_len(all, le);
        assert forall|i: int|
            0 <= i < node.children.len() && (
            #[trigger] node.children[i]).is_dir implies shows_few_files(node.children[i]) by {
            sorting::lemma_sorted_contains(all, le, i);
            let k = choose|k: int| 0 <= k < all.len() && all[k] == node.children[i];
            if k >= shown.len() {
                assert(!top[k - shown.len()].is_dir);
            } else {
                assert(shown[k].is_dir);
            }
        }
    }
}

/// The tree as far as it is shown while the scan runs.
pub fn build_shallow_snapshot(
    root_path: &str,
    directories: &Directories,
    total_files: u64,
    total_dirs: u64,
    total_errors: u64,
    now: Timestamp,
) -> (r: FileTree)
    requires
        directories.wf(),
        directories@.child_counts_fit(),
    ensures
        r@ == (TreeView {
            root_path: root_path@,
            root: directories@.shallow(root_path@, SNAPSHOT_DEPTH as nat),
            total_files,
            total_dirs,
            total_errors,
            scan_time: now,
            complete: false,
        }),
        shows_few_files(r@.root),
{
    let root = build_shallow_node(root_path, directories, SNAPSHOT_DEPTH);
    FileTree {
        root_path: root_path.to_string(),
        root,
        total_files,
        total_dirs,
        total_errors,
        scan_time: now,
        complete: false,
    }
}

} // verus!
