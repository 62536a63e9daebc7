//! What the entries that a scan has reported so far say of each directory.
//! Directories are told apart by their paths when tidied.

use crate::aggregation::AggregationView;
use crate::directories::DirectoriesView;
use crate::node::{NodeView, Timestamp};
use crate::{aggregation, directories, paths, tree};
use vstd::prelude::*;

verus! {

/// Directories with more files than this do not list them all.
pub const LARGE_DIR_FILE_THRESHOLD: usize = 10_000;

/// One entry of a directory as the scan reports it.
#[verifier::ext_equal]
pub struct EntryView {
    pub parent: Seq<char>,
    pub name: Seq<char>,
    pub is_dir: bool,
    pub size: nat,
    pub mtime: Option<Timestamp>,
}

/// The node that an entry becomes.
pub open spec fn node_of(entry: EntryView) -> NodeView {
    if entry.is_dir {
        tree::dir_view(entry.name, entry.mtime)
    } else {
        tree::file_view(entry.name, entry.size, entry.mtime)
    }
}

/// The directory that an entry stands in, as it is told apart from others: by
/// its path when tidied.
pub open spec fn home(entry: EntryView) -> Seq<char> {
    paths::tidied(entry.parent)
}

/// The directory that an entry is, as it is told apart from others.
pub open spec fn path_of(entry: EntryView) -> Seq<char> {
    paths::tidied(paths::joined(entry.parent, entry.name))
}

/// All files of the directory `dir`, in the order they were reported.
pub open spec fn files_in(log: Seq<EntryView>, dir: Seq<char>) -> Seq<NodeView>
    decreases log.len(),
{
    if log.len() == 0 {
        Seq::empty()
    } else {
        let entry = log.last();
        let before = files_in(log.drop_last(), dir);
        if !entry.is_dir && home(entry) == dir {
            before.push(node_of(entry))
        } else {
            before
        }
    }
}

/// The entries of `dir` that are listed: all directories, and the first files
/// up to the limit.
pub open spec fn listed_in(log: Seq<EntryView>, dir: Seq<char>) -> Seq<NodeView>
    decreases log.len(),
{
    if log.len() == 0 {
        Seq::empty()
    } else {
        let entry = log.last();
        let before = listed_in(log.drop_last(), dir);
        if home(entry) == dir && (entry.is_dir || files_in(log.drop_last(), dir).len()
            < LARGE_DIR_FILE_THRESHOLD) {
            before.push(node_of(entry))
        } else {
            before
        }
    }
}

/// Whether a directory has been heard of: as the root, as an entry or as the
/// parent of one.
pub open spec fn is_known(log: Seq<EntryView>, root: Seq<char>, dir: Seq<char>) -> bool
    decreases log.len(),
{
    if log.len() == 0 {
        dir == paths::tidied(root)
    } else {
        let entry = log.last();
        is_known(log.drop_last(), root, dir) || home(entry) == dir || (entry.is_dir && path_of(
            entry,
        ) == dir)
    }
}

/// Whether the time of a directory has been reported.
pub open spec fn has_mtime(log: Seq<EntryView>, root: Seq<char>, dir: Seq<char>) -> bool
    decreases log.len(),
{
    if log.len() == 0 {
        dir == paths::tidied(root)
    } else {
        has_mtime(log.drop_last(), root, dir) || (log.last().is_dir && path_of(log.last()) == dir)
    }
}

/// The time that was last reported of a directory.
pub open spec fn mtime_in(
    log: Seq<EntryView>,
    root_mtime: Option<Timestamp>,
    dir: Seq<char>,
) -> Option<Timestamp>
    decreases log.len(),
{
    if log.len() == 0 {
        root_mtime
    } else if log.last().is_dir && path_of(log.last()) == dir {
        log.last().mtime
    } else {
        mtime_in(log.drop_last(), root_mtime, dir)
    }
}

/// Whether `dir` is met on the way up from `from`, which ends at `root`, or
/// where there is no parent.
pub open spec fn on_way_up(from: Seq<char>, root: Seq<char>, dir: Seq<char>) -> bool
    decreases from.len(),
{
    if from == dir {
        true
    } else if from == paths::tidied(root) {
        false
    } else {
        match paths::parent_of(from) {
            Some(parent) => {
                proof {
                    paths::lemma_parent_shorter(from);
                }
                on_way_up(parent, root, dir)
            },
            None => false,
        }
    }
}

/// Whether a file that counts for the size of `dir` has been reported.
pub open spec fn has_size(log: Seq<EntryView>, root: Seq<char>, dir: Seq<char>) -> bool
    decreases log.len(),
{
    if log.len() == 0 {
        false
    } else {
        has_size(log.drop_last(), root, dir) || (!log.last().is_dir && on_way_up(
            home(log.last()),
            root,
            dir,
        ))
    }
}

/// The size of all files reported at `dir` or below it.
pub open spec fn size_below(log: Seq<EntryView>, root: Seq<char>, dir: Seq<char>) -> nat
    decreases log.len(),
{
    if log.len() == 0 {
        0
    } else {
        let entry = log.last();
        size_below(log.drop_last(), root, dir) + if !entry.is_dir && on_way_up(
            home(entry),
            root,
            dir,
        ) {
            entry.size
        } else {
            0
        }
    }
}

/// The size of all files reported.
pub open spec fn total_bytes(log: Seq<EntryView>) -> nat
    decreases log.len(),
{
    if log.len() == 0 {
        0
    } else if log.last().is_dir {
        total_bytes(log.drop_last())
    } else {
        total_bytes(log.drop_last()) + log.last().size
    }
}

/// How many files were reported.
pub open spec fn file_total(log: Seq<EntryView>) -> nat
    decreases log.len(),
{
    if log.len() == 0 {
        0
    } else if log.last().is_dir {
        file_total(log.drop_last())
    } else {
        file_total(log.drop_last()) + 1
    }
}

/// The files of `dir` beyond those that are listed.
pub open spec fn unlisted_in(log: Seq<EntryView>, dir: Seq<char>) -> AggregationView {
    AggregationView {
        total_file_count: files_in(log, dir).len(),
        top_files: aggregation::kept_of(
            files_in(log, dir).skip(LARGE_DIR_FILE_THRESHOLD as int),
        ),
    }
}

/// What is known of the directories after the entries of `log`.
pub open spec fn directories_after(
    log: Seq<EntryView>,
    root: Seq<char>,
    root_mtime: Option<Timestamp>,
) -> DirectoriesView {
    DirectoriesView {
        children: Map::new(
            |dir: Seq<char>| is_known(log, root, dir),
            |dir: Seq<char>| listed_in(log, dir),
        ),
        mtimes: Map::new(
            |dir: Seq<char>| has_mtime(log, root, dir),
            |dir: Seq<char>| mtime_in(log, root_mtime, dir),
        ),
        sizes: Map::new(
            |dir: Seq<char>| has_size(log, root, dir),
            |dir: Seq<char>| size_below(log, root, dir),
        ),
        file_counts: Map::new(
            |dir: Seq<char>| files_in(log, dir).len() > 0,
            |dir: Seq<char>|
                if files_in(log, dir).len() < LARGE_DIR_FILE_THRESHOLD {
                    files_in(log, dir).len()
                } else {
                    LARGE_DIR_FILE_THRESHOLD as nat
                },
        ),
        aggregated: Map::new(
            |dir: Seq<char>| files_in(log, dir).len() > LARGE_DIR_FILE_THRESHOLD,
            |dir: Seq<char>| unlisted_in(log, dir),
        ),
    }
}

/// On the way up no directory is longer than where the way starts.
pub proof fn lemma_way_up_shorter(from: Seq<char>, root: Seq<char>, dir: Seq<char>)
    requires
        on_way_up(from, root, dir),
    ensures
        dir.len() <= from.len(),
    decreases from.len(),
{
    if from != dir {
        paths::lemma_parent_shorter(from);
        lemma_way_up_shorter(paths::parent_of(from)->0, root, dir);
    }
}

/// Of a directory that has not been heard of nothing is listed.
pub proof fn lemma_unknown(log: Seq<EntryView>, root: Seq<char>, dir: Seq<char>)
    requires
        !is_known(log, root, dir),
    ensures
        listed_in(log, dir) == Seq::<NodeView>::empty(),
        files_in(log, dir) == Seq::<NodeView>::empty(),
    decreases log.len(),
{
    if log.len() > 0 {
        lemma_unknown(log.drop_last(), root, dir);
    }
}

/// Where no file counts for a directory its size is nothing.
pub proof fn lemma_no_size(log: Seq<EntryView>, root: Seq<char>, dir: Seq<char>)
    requires
        !has_size(log, root, dir),
    ensures
        size_below(log, root, dir) == 0,
    decreases log.len(),
{
    if log.len() > 0 {
        lemma_no_size(log.drop_last(), root, dir);
    }
}

/// No directory is larger than all files together.
pub proof fn lemma_size_bounded(log: Seq<EntryView>, root: Seq<char>, dir: Seq<char>)
    ensures
        size_below(log, root, dir) <= total_bytes(log),
    decreases log.len(),
{
    if log.len() > 0 {
        lemma_size_bounded(log.drop_last(), root, dir);
    }
}

/// The directories and files of one directory are no more than the entries.
pub proof fn lemma_counts_bounded(log: Seq<EntryView>, dir: Seq<char>)
    ensures
        directories::dirs_among(listed_in(log, dir)) + files_in(log, dir).len() <= log.len(),
        listed_in(log, dir).len() <= log.len(),
    decreases log.len(),
{
    if log.len() > 0 {
        lemma_counts_bounded(log.drop_last(), dir);
        let before = listed_in(log.drop_last(), dir);
        assert(before.push(node_of(log.last())).drop_last() =~= before);
    }
}

/// The number of entries of every directory fits the machine where the
/// number of all entries does.
pub proof fn lemma_child_counts_fit(
    log: Seq<EntryView>,
    root: Seq<char>,
    root_mtime: Option<Timestamp>,
)
    requires
        log.len() <= usize::MAX,
    ensures
        directories_after(log, root, root_mtime).child_counts_fit(),
{
    let v = directories_after(log, root, root_mtime);
    assert forall|path: Seq<char>| #[trigger] v.child_count(path) <= usize::MAX by {
        let dir = paths::tidied(path);
        lemma_counts_bounded(log, dir);
        if !is_known(log, root, dir) {
            lemma_unknown(log, root, dir);
        }
        assert(v.entries(path) == listed_in(log, dir));
    }
}

} // verus!
