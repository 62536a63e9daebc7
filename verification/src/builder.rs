//! Building the tree from the entries that the scan reports.

use crate::aggregation::{AggregationView, DirAggregation};
use crate::directories::{Directories, DirectoriesView};
use crate::history::{EntryView, LARGE_DIR_FILE_THRESHOLD};
use crate::node::{FileNode, NodeView, Timestamp};
use crate::tree::{FileTree, TreeView};
use crate::{
    accounting, aggregation, arrival, assembly, contents, directories, history, node, paths,
    sorting, tree,
};
use vstd::prelude::*;

verus! {

broadcast use {node::lemma_view, node::lemma_views_push};

/// The counters are reported once for so many entries.
pub const COUNTING_INTERVAL: u64 = 200;

/// Milliseconds between two trees shown while the scan runs.
pub const SNAPSHOT_INTERVAL_MS: u128 = 500;

/// One entry of a directory, as a scan worker found it.
#[derive(Debug)]
pub struct StatEntry {
    pub parent: String,
    pub name: String,
    pub is_dir: bool,
    pub size: u64,
    pub mtime: Option<Timestamp>,
}

impl View for StatEntry {
    type V = EntryView;

    open spec fn view(&self) -> EntryView {
        EntryView {
            parent: self.parent@,
            name: self.name@,
            is_dir: self.is_dir,
            size: self.size as nat,
            mtime: self.mtime,
        }
    }
}

/// What the status bar is told between two trees.
#[derive(Debug)]
pub struct Count {
    pub files_count: u64,
    pub dirs_count: u64,
    pub current_path: String,
}

/// Whether it is time for the next tree to be shown.
pub fn snapshot_due(since_last_ms: u128) -> (r: bool)
    ensures
        r == (since_last_ms >= 500),
{
    since_last_ms >= SNAPSHOT_INTERVAL_MS
}

/// The sizes after a file of `size` bytes was found in `dir`: those of `dir`
/// and of every directory on the way up to `root` grow by it.
pub open spec fn grown(
    sizes: Map<Seq<char>, nat>,
    dir: Seq<char>,
    root: Seq<char>,
    size: nat,
) -> Map<Seq<char>, nat>
    decreases dir.len(),
{
    let here = sizes.insert(
        dir,
        (if sizes.contains_key(dir) {
            sizes[dir]
        } else {
            0
        }) + size,
    );
    if dir == paths::tidied(root) {
        here
    } else {
        match paths::parent_of(dir) {
            Some(parent) => {
                proof {
                    paths::lemma_parent_shorter(dir);
                }
                grown(here, parent, root, size)
            },
            None => here,
        }
    }
}

/// Whether `size` more bytes can be added to the size of `from` and of every
/// directory on the way up from there.
pub open spec fn way_fits(
    log: Seq<EntryView>,
    root: Seq<char>,
    from: Seq<char>,
    size: nat,
) -> bool {
    forall|dir: Seq<char>| #[trigger]
        history::on_way_up(from, root, dir) ==> history::size_below(log, root, dir) + size
            <= u64::MAX
}

proof fn lemma_way_fits_above(
    log: Seq<EntryView>,
    root: Seq<char>,
    from: Seq<char>,
    size: nat,
)
    requires
        from != paths::tidied(root),
        paths::parent_of(from) is Some,
        history::size_below(log, root, from) + size <= u64::MAX,
    ensures
        way_fits(log, root, from, size) == way_fits(log, root, paths::parent_of(from)->0, size),
{
    let above = paths::parent_of(from)->0;
    if way_fits(log, root, from, size) {
        assert forall|dir: Seq<char>| #[trigger] history::on_way_up(above, root, dir) implies
            history::size_below(log, root, dir) + size <= u64::MAX by {
            assert(history::on_way_up(from, root, dir));
        }
    }
    if way_fits(log, root, above, size) {
        assert forall|dir: Seq<char>| #[trigger] history::on_way_up(from, root, dir) implies
            history::size_below(log, root, dir) + size <= u64::MAX by {
            if dir != from {
                assert(history::on_way_up(above, root, dir));
            }
        }
    }
}

proof fn lemma_grown(
    sizes: Map<Seq<char>, nat>,
    dir: Seq<char>,
    root: Seq<char>,
    size: nat,
    p: Seq<char>,
)
    ensures
        grown(sizes, dir, root, size).contains_key(p) <==> sizes.contains_key(p)
            || history::on_way_up(dir, root, p),
        grown(sizes, dir, root, size).contains_key(p) ==> grown(sizes, dir, root, size)[p] == (
        if sizes.contains_key(p) {
            sizes[p]
        } else {
            0
        }) + (if history::on_way_up(dir, root, p) {
            size
        } else {
            0
        }),
    decreases dir.len(),
{
    if dir != paths::tidied(root) {
        if let Some(parent) = paths::parent_of(dir) {
            paths::lemma_parent_shorter(dir);
            let here = sizes.insert(
                dir,
                (if sizes.contains_key(dir) {
                    sizes[dir]
                } else {
                    0
                }) + size,
            );
            lemma_grown(here, parent, root, size, p);
            if p == dir && history::on_way_up(parent, root, p) {
                history::lemma_way_up_shorter(parent, root, p);
            }
        }
    }
}

/// The tree as far as the entries reported so far tell.
pub struct TreeBuilder {
    root_path: String,
    root_mtime: Option<Timestamp>,
    found: Directories,
    files_count: u64,
    dirs_count: u64,
    entry_count: u64,
    current_path: String,
    log: Ghost<Seq<EntryView>>,
}

/// The path that is shown as the current one: that of the last entry whose
/// number is a multiple of the interval.
pub open spec fn shown_path(log: Seq<EntryView>) -> Seq<char>
    decreases log.len(),
{
    if log.len() == 0 {
        Seq::empty()
    } else if log.len() % COUNTING_INTERVAL as nat == 0 {
        log.last().parent.push('/') + log.last().name
    } else {
        shown_path(log.drop_last())
    }
}

impl TreeBuilder {
    /// The entries reported so far.
    pub closed spec fn log(self) -> Seq<EntryView> {
        self.log@
    }

    /// Where the scan started.
    pub closed spec fn root(self) -> Seq<char> {
        self.root_path@
    }

    /// When the directory where the scan started was last changed.
    pub closed spec fn root_time(self) -> Option<Timestamp> {
        self.root_mtime
    }

    /// What is known of the directories.
    pub open spec fn directories(self) -> DirectoriesView {
        history::directories_after(self.log(), self.root(), self.root_time())
    }

    pub closed spec fn wf(self) -> bool {
        let log = self.log@;
        &&& self.found.wf()
        &&& self.found@ == history::directories_after(log, self.root_path@, self.root_mtime)
        &&& self.files_count == history::file_total(log)
        &&& self.dirs_count == log.len() - history::file_total(log)
        &&& self.entry_count == log.len()
        &&& self.current_path@ == shown_path(log)
        &&& log.len() <= usize::MAX
    }

    /// A builder that has seen no entry yet.
    pub fn new(root_path: String, root_mtime: Option<Timestamp>) -> (r: TreeBuilder)
        ensures
            r.wf(),
            r.log() == Seq::<EntryView>::empty(),
            r.root() == root_path@,
            r.root_time() == root_mtime,
    {
        let mut found = Directories::new();
        assert forall|dir: Seq<char>| !(#[trigger] found.children@.contains_key(dir)) by {
            assert(!found@.children.contains_key(dir));
        }
        let nothing: Vec<FileNode> = Vec::new();
        found.children.insert(root_path.as_str(), nothing);
        found.mtimes.insert(root_path.as_str(), root_mtime);
        let r = TreeBuilder {
            root_path,
            root_mtime,
            found,
            files_count: 0,
            dirs_count: 0,
            entry_count: 0,
            current_path: String::new(),
            log: Ghost(Seq::empty()),
        };
        proof {
            let v = history::directories_after(Seq::empty(), root_path@, root_mtime);
            assert(node::views(nothing@) =~= Seq::<NodeView>::empty());
            assert(r.found@.children =~= v.children);
            assert(r.found@.mtimes =~= v.mtimes);
            assert(r.found@.sizes =~= v.sizes);
            assert(r.found@.file_counts =~= v.file_counts);
            assert(r.found@.aggregated =~= v.aggregated);
        }
        r
    }

    /// Whether one more entry can be counted, and its size added to that of
    /// every directory it stands in.
    pub open spec fn has_room_for(self, entry: EntryView) -> bool {
        &&& self.log().len() < usize::MAX
        &&& entry.is_dir || way_fits(self.log(), self.root(), history::home(entry), entry.size)
    }

    /// Whether [`TreeBuilder::add`] can take the entry.
    pub fn can_add(&self, entry: &StatEntry) -> (r: bool)
        requires
            self.wf(),
        ensures
            r == self.has_room_for(entry@),
    {
        if self.entry_count >= usize::MAX as u64 {
            return false;
        }
        if entry.is_dir {
            return true;
        }
        let ghost log = self.log@;
        let ghost root = self.root_path@;
        let ghost size = entry.size as nat;
        let root_key = paths::tidy(self.root_path.as_str());
        let mut dir = paths::tidy(entry.parent.as_str());
        proof {
            paths::lemma_tidied(entry.parent@);
        }
        loop
            invariant
                self.wf(),
                log == self.log@,
                root == self.root_path@,
                size == entry.size,
                log.len() < usize::MAX,
                !entry.is_dir,
                root_key@ == paths::tidied(root),
                paths::tidied(dir@) == dir@,
                way_fits(log, root, history::home(entry@), size) == way_fits(
                    log,
                    root,
                    dir@,
                    size,
                ),
            decreases dir@.len(),
        {
            proof {
                if !history::has_size(log, root, dir@) {
                    history::lemma_no_size(log, root, dir@);
                }
                assert(self.found@.size(dir@) == history::size_below(log, root, dir@));
                assert(history::on_way_up(dir@, root, dir@));
            }
            if self.found.size_of(dir.as_str()).checked_add(entry.size).is_none() {
                return false;
            }
            if dir == root_key {
                return true;
            }
            proof {
                paths::lemma_parent_shorter(dir@);
                paths::lemma_tidy_parent(dir@);
            }
            match paths::parent(dir.as_str()) {
                Some(above) => {
                    proof {
                        lemma_way_fits_above(log, root, dir@, size);
                    }
                    dir = above;
                },
                None => {
                    return true;
                },
            }
        }
    }

    fn add_dir(&mut self, entry: &StatEntry)
        requires
            old(self).wf(),
            entry.is_dir,
        ensures
            *final(self) == (TreeBuilder { found: final(self).found, ..*old(self) }),
            final(self).found.wf(),
            final(self).found@ == history::directories_after(
                old(self).log@.push(entry@),
                old(self).root_path@,
                old(self).root_mtime,
            ),
    {
        let ghost before = self.found@;
        let ghost e = entry@;
        let ghost log = self.log@;
        let ghost root = self.root_path@;
        let path = paths::join(entry.parent.as_str(), entry.name.as_str());
        if !self.found.children.contains_key(path.as_str()) {
            let nothing: Vec<FileNode> = Vec::new();
            self.found.children.insert(path.as_str(), nothing);
            proof {
                assert(!before.children.contains_key(history::path_of(e)));
                history::lemma_unknown(log, root, history::path_of(e));
                assert(node::views(nothing@) =~= Seq::<NodeView>::empty());
            }
        }
        assert(self.found@.children =~= before.children.insert(
            history::path_of(e),
            history::listed_in(log, history::path_of(e)),
        ));
        self.found.mtimes.insert(path.as_str(), entry.mtime);
        let dir = FileNode::new_dir(entry.name.clone(), entry.mtime);
        proof {
            assert(dir@ == history::node_of(e));
            if !history::is_known(log, root, history::home(e)) {
                history::lemma_unknown(log, root, history::home(e));
            }
            assert(self.found@.entries(e.parent) == history::listed_in(log, history::home(e)));
        }
        self.list(entry.parent.as_str(), dir);
        proof {
            let after = log.push(e);
            assert(after.drop_last() =~= log);
            let v = history::directories_after(after, root, self.root_mtime);
            assert forall|p: Seq<char>| #[trigger] v.children.contains_key(p) implies v.children[p]
                == self.found@.children[p] by {
                if !history::is_known(log, root, p) {
                    history::lemma_unknown(log, root, p);
                }
            }
            assert(self.found@.children =~= v.children);
            assert(self.found@.mtimes =~= v.mtimes);
            assert(self.found@.sizes =~= v.sizes);
            assert(self.found@.file_counts =~= v.file_counts);
            assert(self.found@.aggregated =~= v.aggregated);
        }
    }

    /// Adds a node to the entries listed of a directory.
    fn list(&mut self, parent: &str, node: FileNode)
        requires
            old(self).found.wf(),
        ensures
            *final(self) == (TreeBuilder { found: final(self).found, ..*old(self) }),
            final(self).found.wf(),
            final(self).found@ == (DirectoriesView {
                children: old(self).found@.children.insert(
                    paths::tidied(parent@),
                    old(self).found@.entries(parent@).push(node@),
                ),
                ..old(self).found@
            }),
    {
        let ghost before = self.found@;
        if self.found.children.contains_key(parent) {
            if let Some(listed) = self.found.children.get_mut(parent) {
                listed.push(node);
            }
        } else {
            let mut listed: Vec<FileNode> = Vec::new();
            listed.push(node);
            self.found.children.insert(parent, listed);
            assert(node::views(listed@) =~= seq![node@]);
            assert(before.entries(parent@).push(node@) =~= seq![node@]);
        }
        assert(self.found@.children =~= before.children.insert(
            paths::tidied(parent@),
            before.entries(parent@).push(node@),
        ));
    }

    /// Counts a file that is not listed for its directory.
    fn aggregate(&mut self, parent: &str, node: FileNode, listed: usize)
        requires
            old(self).found.wf(),
            old(self).found@.aggregated.contains_key(paths::tidied(parent@)) ==> old(
                self,
            ).found@.aggregated[paths::tidied(parent@)].total_file_count < usize::MAX,
            listed < usize::MAX,
            !node.is_dir,
        ensures
            *final(self) == (TreeBuilder { found: final(self).found, ..*old(self) }),
            final(self).found.wf(),
            final(self).found@ == (DirectoriesView {
                aggregated: old(self).found@.aggregated.insert(
                    paths::tidied(parent@),
                    if old(self).found@.aggregated.contains_key(paths::tidied(parent@)) {
                        AggregationView {
                            total_file_count: old(
                                self,
                            ).found@.aggregated[paths::tidied(parent@)].total_file_count + 1,
                            top_files: aggregation::with_offer(
                                old(self).found@.aggregated[paths::tidied(parent@)].top_files,
                                node@,
                            ),
                        }
                    } else {
                        AggregationView {
                            total_file_count: listed as nat + 1,
                            top_files: aggregation::with_offer(Seq::empty(), node@),
                        }
                    },
                ),
                ..old(self).found@
            }),
    {
        let ghost before = self.found;
        let ghost key = paths::tidied(parent@);
        if self.found.aggregated.contains_key(parent) {
            assert(before@.aggregated.contains_key(key));
            assert(before.aggregated@.contains_key(key));
            if let Some(aggregation) = self.found.aggregated.get_mut(parent) {
                aggregation.offer(node);
            }
        } else {
            let mut aggregation = DirAggregation::new(listed);
            aggregation.offer(node);
            self.found.aggregated.insert(parent, aggregation);
        }
        assert forall|path: Seq<char>| #[trigger]
            self.found.aggregated@.contains_key(path) implies self.found.aggregated@[path].wf()
            && directories::all_files(self.found.aggregated@[path]@.top_files) by {
            if path != key {
                assert(before.aggregated@.contains_key(path));
            } else {
                let top = before@.top_files(parent@);
                let kept = aggregation::with_offer(top, node@);
                assert(directories::all_files(top)) by {
                    if before@.aggregated.contains_key(key) {
                        assert(before.aggregated@.contains_key(key));
                    }
                }
                assert forall|i: int| 0 <= i < kept.len() implies !(
                #[trigger] kept[i]).is_dir by {
                    aggregation::lemma_offer_from(top, node@, i);
                }
                assert(self.found.aggregated@[path]@.top_files == kept);
            }
        }
    }

    /// Adds the size of a file to its directory and those it stands in.
    fn grow(&mut self, parent: &str, size: u64)
        requires
            old(self).found.wf(),
            forall|p: Seq<char>| #[trigger]
                history::on_way_up(paths::tidied(parent@), old(self).root_path@, p) && old(
                    self,
                ).found@.sizes.contains_key(p) ==> old(self).found@.sizes[p] + size <= u64::MAX,
        ensures
            *final(self) == (TreeBuilder { found: final(self).found, ..*old(self) }),
            final(self).found.wf(),
            final(self).found@ == (DirectoriesView {
                sizes: grown(
                    old(self).found@.sizes,
                    paths::tidied(parent@),
                    old(self).root_path@,
                    size as nat,
                ),
                ..old(self).found@
            }),
    {
        let ghost before = *self;
        let ghost start = self.found@.sizes;
        let ghost target = grown(start, paths::tidied(parent@), self.root_path@, size as nat);
        let root_key = paths::tidy(self.root_path.as_str());
        let mut ancestor = paths::tidy(parent);
        proof {
            paths::lemma_tidied(parent@);
        }
        loop
            invariant_except_break
                root_key@ == paths::tidied(self.root_path@),
                paths::tidied(ancestor@) == ancestor@,
                self.found.wf(),
                *self == (TreeBuilder { found: self.found, ..before }),
                self.found@ == (DirectoriesView { sizes: self.found@.sizes, ..before.found@ }),
                grown(self.found@.sizes, ancestor@, self.root_path@, size as nat) == target,
                forall|p: Seq<char>| #[trigger]
                    history::on_way_up(ancestor@, self.root_path@, p)
                        && self.found@.sizes.contains_key(p) ==> self.found@.sizes[p] + size
                        <= u64::MAX,
            ensures
                self.found.wf(),
                *self == (TreeBuilder { found: self.found, ..before }),
                self.found@ == (DirectoriesView { sizes: target, ..before.found@ }),
            decreases ancestor@.len(),
        {
            let ghost sizes = self.found@.sizes;
            let known = match self.found.sizes.get(ancestor.as_str()) {
                Some(n) => *n,
                None => 0,
            };
            assert(sizes.contains_key(ancestor@) ==> sizes[ancestor@] == known);
            assert(history::on_way_up(ancestor@, self.root_path@, ancestor@));
            self.found.sizes.insert(ancestor.as_str(), known + size);
            let ghost here = self.found@.sizes;
            assert(here =~= sizes.insert(ancestor@, (known + size) as nat));
            if ancestor == root_key {
                break;
            }
            proof {
                paths::lemma_parent_shorter(ancestor@);
                paths::lemma_tidy_parent(ancestor@);
            }
            match paths::parent(ancestor.as_str()) {
                Some(p) => {
                    assert forall|q: Seq<char>| #[trigger]
                        history::on_way_up(p@, self.root_path@, q) && here.contains_key(
                            q,
                        ) implies here[q] + size <= u64::MAX by {
                        history::lemma_way_up_shorter(p@, self.root_path@, q);
                        assert(history::on_way_up(ancestor@, self.root_path@, q));
                        assert(sizes.contains_key(q));
                    }
                    ancestor = p;
                },
                None => {
                    break;
                },
            }
        }
    }

    fn add_file(&mut self, entry: &StatEntry)
        requires
            old(self).wf(),
            !entry.is_dir,
            old(self).has_room_for(entry@),
        ensures
            *final(self) == (TreeBuilder { found: final(self).found, ..*old(self) }),
            final(self).found.wf(),
            final(self).found@ == history::directories_after(
                old(self).log@.push(entry@),
                old(self).root_path@,
                old(self).root_mtime,
            ),
    {
        let ghost before = self.found@;
        let ghost e = entry@;
        let ghost home = history::home(e);
        let ghost log = self.log@;
        let ghost root = self.root_path@;
        let ghost files = history::files_in(log, home);
        proof {
            history::lemma_counts_bounded(log, home);
            assert(log.push(e).drop_last() =~= log);
        }
        let parent = entry.parent.as_str();
        let listed: usize = match self.found.file_counts.get(parent) {
            Some(n) => *n,
            None => 0,
        };
        proof {
            assert(before.file_counts.contains_key(home) == (files.len() > 0));
            assert(self.found.file_counts@.contains_key(home)
                == before.file_counts.contains_key(home));
            if files.len() > 0 {
                assert(before.file_counts[home] == listed);
            }
        }
        let node = FileNode::new_file(entry.name.clone(), entry.size, entry.mtime);
        assert(node@ == history::node_of(e));
        if listed < LARGE_DIR_FILE_THRESHOLD {
            assert(files.len() == listed);
            self.list(parent, node);
            self.found.file_counts.insert(parent, listed + 1);
            assert(self.found@.file_counts =~= before.file_counts.insert(
                home,
                (listed + 1) as nat,
            ));
        } else {
            assert(before.aggregated.contains_key(home) ==> before.aggregated[home]
                == history::unlisted_in(log, home));
            self.aggregate(parent, node, listed);
        }
        proof {
            assert(self.found@.sizes == before.sizes);
            assert forall|p: Seq<char>| #[trigger]
                history::on_way_up(home, root, p) && self.found@.sizes.contains_key(
                    p,
                ) implies self.found@.sizes[p] + entry.size <= u64::MAX by {
                assert(before.sizes[p] == history::size_below(log, root, p));
            }
        }
        self.grow(parent, entry.size);
        proof {
            let after = log.push(e);
            let v = history::directories_after(after, root, self.root_mtime);
            let limit = LARGE_DIR_FILE_THRESHOLD as int;
            assert forall|p: Seq<char>| #[trigger]
                history::files_in(after, p) == if p == home {
                    files.push(history::node_of(e))
                } else {
                    history::files_in(log, p)
                } by {}
            if !history::is_known(log, root, home) {
                history::lemma_unknown(log, root, home);
            }
            assert(before.entries(e.parent) == history::listed_in(log, home));
            assert(self.found@.children =~= v.children);
            assert(self.found@.mtimes =~= v.mtimes);
            assert forall|p: Seq<char>|
                #![trigger v.sizes.contains_key(p)]
                #![trigger self.found@.sizes.contains_key(p)]
                self.found@.sizes.contains_key(p) == v.sizes.contains_key(p) && (
                v.sizes.contains_key(p) ==> self.found@.sizes[p] == v.sizes[p]) by {
                lemma_grown(before.sizes, home, root, e.size, p);
                if !history::has_size(log, root, p) {
                    history::lemma_no_size(log, root, p);
                }
            }
            assert(self.found@.sizes =~= v.sizes);
            assert forall|p: Seq<char>|
                #![trigger v.file_counts.contains_key(p)]
                #![trigger self.found@.file_counts.contains_key(p)]
                self.found@.file_counts.contains_key(p) == v.file_counts.contains_key(p) && (
                v.file_counts.contains_key(p) ==> self.found@.file_counts[p]
                    == v.file_counts[p]) by {
                assert(before.file_counts.contains_key(p) == (history::files_in(log, p).len()
                    > 0));
            }
            assert(self.found@.file_counts =~= v.file_counts);
            if listed >= LARGE_DIR_FILE_THRESHOLD {
                assert(files.push(node@).skip(limit) =~= files.skip(limit).push(node@));
                assert(files.skip(limit).push(node@).drop_last() =~= files.skip(limit));
                if files.len() == limit {
                    assert(files.skip(limit) =~= Seq::<NodeView>::empty());
                }
            }
            assert forall|p: Seq<char>|
                #![trigger v.aggregated.contains_key(p)]
                #![trigger self.found@.aggregated.contains_key(p)]
                self.found@.aggregated.contains_key(p) == v.aggregated.contains_key(p) && (
                v.aggregated.contains_key(p) ==> self.found@.aggregated[p] == v.aggregated[p]) by {
                assert(before.aggregated.contains_key(p) == (history::files_in(log, p).len()
                    > limit));
                if p == home && listed >= LARGE_DIR_FILE_THRESHOLD {
                    let more = files.skip(limit).push(node@);
                    assert(history::unlisted_in(after, p).top_files == aggregation::kept_of(more));
                    assert(aggregation::kept_of(more) == aggregation::with_offer(
                        aggregation::kept_of(files.skip(limit)),
                        node@,
                    ));
                    assert(self.found@.aggregated[p] =~= history::unlisted_in(after, p));
                }
            }
            assert(self.found@.aggregated =~= v.aggregated);
        }
    }

    /// Takes one more entry in. The counters are returned when it is their
    /// turn to be reported.
    pub fn add(&mut self, entry: StatEntry) -> (r: Option<Count>)
        requires
            old(self).wf(),
            old(self).has_room_for(entry@),
        ensures
            final(self).wf(),
            final(self).log() == old(self).log().push(entry@),
            final(self).root() == old(self).root(),
            final(self).root_time() == old(self).root_time(),
            match r {
                Some(count) => {
                    &&& final(self).log().len() % COUNTING_INTERVAL as nat == 0
                    &&& count.files_count == history::file_total(final(self).log())
                    &&& count.dirs_count == final(self).log().len() - history::file_total(
                        final(self).log(),
                    )
                    &&& count.current_path@ == shown_path(final(self).log())
                },
                None => final(self).log().len() % COUNTING_INTERVAL as nat != 0,
            },
    {
        let ghost e = entry@;
        let ghost before = self.log@;
        proof {
            assert(before.push(e).drop_last() =~= before);
            lemma_file_total(before);
        }
        if entry.is_dir {
            self.add_dir(&entry);
            self.dirs_count = self.dirs_count + 1;
        } else {
            self.add_file(&entry);
            self.files_count = self.files_count + 1;
        }
        self.entry_count = self.entry_count + 1;
        self.log = Ghost(before.push(e));
        if self.entry_count % COUNTING_INTERVAL == 0 {
            let mut path = entry.parent;
            path.push('/');
            path.append(entry.name.as_str());
            self.current_path = path.clone();
            Some(
                Count {
                    files_count: self.files_count,
                    dirs_count: self.dirs_count,
                    current_path: path,
                },
            )
        } else {
            None
        }
    }

    /// The path that is shown as the current one.
    pub fn current_path(&self) -> (r: String)
        requires
            self.wf(),
        ensures
            r@ == shown_path(self.log()),
    {
        self.current_path.clone()
    }

    /// How many files and directories were reported.
    pub fn total_entries(&self) -> (r: u64)
        requires
            self.wf(),
        ensures
            r == self.log().len(),
    {
        self.entry_count
    }

    /// The tree as far as it is shown while the scan runs.
    pub fn snapshot(&self, now: Timestamp) -> (r: FileTree)
        requires
            self.wf(),
        ensures
            r@ == (TreeView {
                root_path: self.root(),
                root: self.directories().shallow(
                    self.root(),
                    directories::SNAPSHOT_DEPTH as nat,
                ),
                total_files: history::file_total(self.log()) as u64,
                total_dirs: (self.log().len() - history::file_total(self.log())) as u64,
                total_errors: 0,
                scan_time: now,
                complete: false,
            }),
            directories::shows_few_files(r@.root),
    {
        proof {
            history::lemma_child_counts_fit(self.log@, self.root_path@, self.root_mtime);
        }
        directories::build_shallow_snapshot(
            self.root_path.as_str(),
            &self.found,
            self.files_count,
            self.dirs_count,
            0,
            now,
        )
    }

    /// The whole tree, when the scan is done. There is none where a number in
    /// it would not fit the machine.
    pub fn finish(self, now: Timestamp) -> (r: Option<FileTree>)
        requires
            self.wf(),
        ensures
            match r {
                Some(t) => {
                    &&& assembly::fits(self.directories().whole(self.root()).node)
                    &&& t@ == (TreeView {
                        root_path: self.root(),
                        root: tree::sorted_deeply(self.directories().whole(self.root()).node),
                        total_files: history::file_total(self.log()) as u64,
                        total_dirs: (self.log().len() - history::file_total(self.log())) as u64,
                        total_errors: 0,
                        scan_time: now,
                        complete: true,
                    })
                },
                None => !assembly::fits(self.directories().whole(self.root()).node),
            },
    {
        match assembly::assemble_tree(self.root_path.as_str(), self.found) {
            Some(root) => Some(
                FileTree {
                    root_path: self.root_path,
                    root,
                    total_files: self.files_count,
                    total_dirs: self.dirs_count,
                    total_errors: 0,
                    scan_time: now,
                    complete: true,
                },
            ),
            None => None,
        }
    }
}

/// A scan that reports each directory once has a tree in the end.
pub proof fn orderly_scans_finish(builder: TreeBuilder)
    requires
        builder.wf(),
        accounting::orderly(builder.log(), builder.root()),
    ensures
        assembly::fits(builder.directories().whole(builder.root()).node),
{
    assert forall|dir: Seq<char>| #[trigger] history::size_below(
        builder.log(),
        builder.root(),
        dir,
    ) <= u64::MAX by {
        if !history::has_size(builder.log(), builder.root(), dir) {
            history::lemma_no_size(builder.log(), builder.root(), dir);
        } else {
            assert(builder.found@.sizes.contains_key(dir));
            assert(builder.found@.sizes[dir] == builder.found.sizes@[dir] as nat);
        }
    }
    accounting::orderly_trees_fit(builder.log(), builder.root(), builder.root_time());
}

/// Two scans of a directory that report the same entries, in whatever order,
/// end with the same counts and the same tree, but for the order of children of
/// equal size.
pub proof fn scans_agree_in_any_order(a: TreeBuilder, b: TreeBuilder)
    requires
        a.root() == b.root(),
        a.root_time() == b.root_time(),
        arrival::rearranged(a.log(), b.log()),
        arrival::names_once(a.log()),
        arrival::plain_dirs(a.log()),
        accounting::all_listed(a.log()),
    ensures
        a.log().len() == b.log().len(),
        history::file_total(a.log()) == history::file_total(b.log()),
        arrival::same_but_for_ties(
            tree::sorted_deeply(a.directories().whole(a.root()).node),
            tree::sorted_deeply(b.directories().whole(b.root()).node),
        ),
{
    arrival::arrival_order_does_not_matter(a.log(), b.log(), a.root(), a.root_time());
}

proof fn lemma_file_total(log: Seq<EntryView>)
    ensures
        history::file_total(log) <= log.len(),
    decreases log.len(),
{
    if log.len() > 0 {
        lemma_file_total(log.drop_last());
    }
}

/// The path shown as the current one is that of the last entry that completes two
/// hundred; before there is one nothing is shown.
pub proof fn shown_paths_are_of_full_hundreds(log: Seq<EntryView>)
    ensures
        log.len() < 200 ==> shown_path(log) == Seq::<char>::empty(),
        log.len() >= 200 ==> {
            let entry = log[log.len() / 200 * 200 - 1];
            shown_path(log) == entry.parent + seq!['/'] + entry.name
        },
    decreases log.len(),
{
    if log.len() > 0 {
        let rest = log.drop_last();
        shown_paths_are_of_full_hundreds(rest);
        if log.len() % 200 == 0 {
            assert(log.len() / 200 * 200 == log.len());
            assert(log.last().parent.push('/') =~= log.last().parent + seq!['/']);
        } else {
            assert(log.len() / 200 == rest.len() / 200);
        }
    }
}

/// The files and the directories that are counted are those that were reported.
pub proof fn totals_count_every_entry(log: Seq<EntryView>)
    ensures
        history::file_total(log) == log.filter(|entry: EntryView| !entry.is_dir).len(),
        log.len() - history::file_total(log) == log.filter(|entry: EntryView| entry.is_dir).len(),
    decreases log.len(),
{
    reveal(Seq::filter);
    if log.len() > 0 {
        totals_count_every_entry(log.drop_last());
    }
}

/// There is room for one more entry as long as all sizes together, and the number of
/// entries, fit the machine. A file that would be too much for its own directory, or
/// for one above it, has none.
pub proof fn entries_have_room(builder: TreeBuilder, entry: EntryView, above: Seq<char>)
    ensures
        builder.log().len() < usize::MAX && history::total_bytes(builder.log()) + entry.size
            <= u64::MAX ==> builder.has_room_for(entry),
        entry.is_dir ==> (builder.has_room_for(entry) <==> builder.log().len() < usize::MAX),
        !entry.is_dir && history::size_below(builder.log(), builder.root(), history::home(entry))
            + entry.size > u64::MAX ==> !builder.has_room_for(entry),
        !entry.is_dir && history::on_way_up(history::home(entry), builder.root(), above)
            && history::size_below(builder.log(), builder.root(), above) + entry.size > u64::MAX
            ==> !builder.has_room_for(entry),
{
    let log = builder.log();
    let root = builder.root();
    let home = history::home(entry);
    if history::total_bytes(log) + entry.size <= u64::MAX {
        assert forall|dir: Seq<char>| #[trigger] history::on_way_up(home, root, dir) implies
            history::size_below(log, root, dir) + entry.size <= u64::MAX by {
            history::lemma_size_bounded(log, root, dir);
        }
    }
    assert(history::on_way_up(home, root, home));
}

/// All sizes together are those of the files that were reported.
pub proof fn bytes_are_those_of_the_files(log: Seq<EntryView>)
    ensures
        history::total_bytes(log) == sorting::weigh(
            log,
            |entry: EntryView|
                if entry.is_dir {
                    0
                } else {
                    entry.size
                },
        ),
    decreases log.len(),
{
    if log.len() > 0 {
        bytes_are_those_of_the_files(log.drop_last());
    }
}

/// The trees shown while the scan runs are two levels deep, with all that is shown of
/// each directory there.
pub proof fn snapshots_are_two_levels_deep(builder: TreeBuilder)
    requires
        accounting::reported_once(builder.log()),
    ensures
        contents::is_shown(
            builder.directories().shallow(builder.root(), directories::SNAPSHOT_DEPTH as nat),
            builder.log(),
            builder.root(),
            2,
        ),
{
    contents::snapshots_show_what_was_reported(
        builder.log(),
        builder.root(),
        builder.root_time(),
        builder.root(),
        2,
    );
}

} // verus!
