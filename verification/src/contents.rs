//! That trees hold what was reported: which children a directory has, and what
//! they say.

use crate::directories::DirectoriesView;
use crate::history::EntryView;
use crate::node::{NodeView, Timestamp};
use crate::tree::ChildOrder;
use crate::{accounting, aggregation, arrival, directories, history, paths, sorting, tree};
use vstd::prelude::*;

verus! {

/// The files, or the directories, that were reported of the directory at `path`.
pub open spec fn reported_in(log: Seq<EntryView>, path: Seq<char>, is_dir: bool) -> Seq<EntryView> {
    log.filter(
        |entry: EntryView|
            entry.is_dir == is_dir && paths::tidied(entry.parent) == paths::tidied(path),
    )
}

/// Whether a node says what was reported: the name, whether it is a directory, the
/// time, and of a file the size. A file has nothing below it.
pub open spec fn stands_for(child: NodeView, entry: EntryView) -> bool {
    &&& child.name == entry.name
    &&& child.is_dir == entry.is_dir
    &&& child.mtime == entry.mtime
    &&& child.error_count == 0
    &&& !entry.is_dir ==> child.size == entry.size && child.children.len() == 0
        && child.child_count == 0
}

/// Whether a child stands for the entry.
pub open spec fn has_child(children: Seq<NodeView>, entry: EntryView) -> bool {
    exists|k: int| 0 <= k < children.len() && #[trigger] stands_for(children[k], entry)
}

/// Whether the child stands for an entry that was reported of the directory at
/// `path`.
pub open spec fn was_reported(log: Seq<EntryView>, path: Seq<char>, child: NodeView) -> bool {
    exists|j: int|
        0 <= j < log.len() && paths::tidied(log[j].parent) == paths::tidied(path)
            && #[trigger] stands_for(child, log[j])
}

/// Whether the children are what was reported of the directory at `path`: all
/// directories, all of the first `first` files, and `most` files together if there
/// are so many.
#[verifier::opaque]
pub open spec fn lists(
    children: Seq<NodeView>,
    log: Seq<EntryView>,
    path: Seq<char>,
    first: int,
    most: int,
) -> bool {
    let files = reported_in(log, path, false).len();
    &&& children.len() == reported_in(log, path, true).len() + if files < most {
        files as int
    } else {
        most
    }
    &&& forall|k: int|
        0 <= k < children.len() ==> was_reported(log, path, #[trigger] children[k])
    &&& forall|j: int|
        0 <= j < log.len() && paths::tidied(log[j].parent) == paths::tidied(path) && (log[j].is_dir
            || reported_in(log.take(j), path, false).len() < first) ==> has_child(
            children,
            #[trigger] log[j],
        )
}

/// How many of the files that are not listed are kept, if there are `files`
/// altogether.
pub open spec fn kept_beside(files: nat) -> int {
    if files <= 10_000 {
        0
    } else if files < 10_100 {
        files - 10_000
    } else {
        100
    }
}

/// Whether a node is the directory at `path` as it is shown while the scan runs:
/// `depth` levels deep it has, of what was reported, all directories and up to 500
/// files, the directories before the files and the larger before the smaller. How
/// many entries were reported it tells in any case.
pub open spec fn is_shown(node: NodeView, log: Seq<EntryView>, path: Seq<char>, depth: nat) -> bool
    decreases depth,
{
    let children = node.children;
    let files = reported_in(log, path, false).len();
    &&& node.is_dir
    &&& node.name == paths::file_name_of(path)
    &&& node.error_count == 0
    &&& node.child_count == files + reported_in(log, path, true).len()
    &&& depth == 0 ==> children.len() == 0
    &&& depth > 0 ==> {
        &&& lists(children, log, path, 500 - kept_beside(files), 500)
        &&& forall|i: int, j: int|
            0 <= i < j < children.len() ==> {
                let a = #[trigger] children[i];
                let b = #[trigger] children[j];
                (a.is_dir || !b.is_dir) && (a.is_dir == b.is_dir ==> a.size >= b.size)
            }
        &&& forall|i: int|
            #![trigger children[i]]
            0 <= i < children.len() && children[i].is_dir ==> is_shown(
                children[i],
                log,
                paths::joined(path, children[i].name),
                (depth - 1) as nat,
            )
    }
}

/// Whether a node is the directory at `path` with all that was reported of it and
/// below it: all directories, and all files or, of very many, the first 10000 and
/// the 100 largest of the others. It tells how many entries were reported, and,
/// where all are listed, has the size that they have together.
pub open spec fn is_complete(node: NodeView, log: Seq<EntryView>, path: Seq<char>) -> bool
    decreases node,
{
    let files = reported_in(log, path, false).len();
    &&& node.is_dir
    &&& node.name == paths::file_name_of(path)
    &&& node.error_count == 0
    &&& node.child_count == files + reported_in(log, path, true).len()
    &&& lists(node.children, log, path, 10_000, 10_100)
    &&& files <= 10_000 ==> node.size == sorting::weigh(node.children, |n: NodeView| n.size)
    &&& forall|i: int|
        #![trigger node.children[i]]
        0 <= i < node.children.len() && node.children[i].is_dir ==> is_complete(
            node.children[i],
            log,
            paths::joined(path, node.children[i].name),
        )
}

proof fn lemma_reported_step(log: Seq<EntryView>, path: Seq<char>, is_dir: bool)
    requires
        log.len() > 0,
    ensures
        reported_in(log, path, is_dir) == if log.last().is_dir == is_dir && paths::tidied(
            log.last().parent,
        ) == paths::tidied(path) {
            reported_in(log.drop_last(), path, is_dir).push(log.last())
        } else {
            reported_in(log.drop_last(), path, is_dir)
        },
{
    reveal(Seq::filter);
}

/// What is listed of a directory and what is not, in numbers.
pub(crate) proof fn lemma_counts(log: Seq<EntryView>, path: Seq<char>)
    ensures
        ({
            let dir = paths::tidied(path);
            let files = reported_in(log, path, false).len();
            let listed = history::listed_in(log, dir);
            &&& history::files_in(log, dir).len() == files
            &&& directories::dirs_among(listed) == reported_in(log, path, true).len()
            &&& listed.len() == reported_in(log, path, true).len() + if files < 10_000 {
                files as int
            } else {
                10_000
            }
        }),
    decreases log.len(),
{
    reveal(Seq::filter);
    let dir = paths::tidied(path);
    if log.len() > 0 {
        lemma_counts(log.drop_last(), path);
        lemma_reported_step(log, path, false);
        lemma_reported_step(log, path, true);
        let before = history::listed_in(log.drop_last(), dir);
        let longer = before.push(history::node_of(log.last()));
        assert(longer.drop_last() =~= before);
    }
}

proof fn lemma_file_from(log: Seq<EntryView>, dir: Seq<char>, i: int) -> (j: int)
    requires
        0 <= i < history::files_in(log, dir).len(),
    ensures
        0 <= j < log.len(),
        !log[j].is_dir,
        paths::tidied(log[j].parent) == dir,
        history::files_in(log, dir)[i] == history::node_of(log[j]),
    decreases log.len(),
{
    let before = history::files_in(log.drop_last(), dir);
    if i < before.len() {
        lemma_file_from(log.drop_last(), dir, i)
    } else {
        log.len() - 1
    }
}

/// What was reported of a directory is listed: every directory, and a file if few
/// were reported before it. As many files are listed before it.
proof fn lemma_listed_at(log: Seq<EntryView>, path: Seq<char>, j: int) -> (i: int)
    requires
        0 <= j < log.len(),
        paths::tidied(log[j].parent) == paths::tidied(path),
        log[j].is_dir || reported_in(log.take(j), path, false).len() < 10_000,
    ensures
        0 <= i < history::listed_in(log, paths::tidied(path)).len(),
        history::listed_in(log, paths::tidied(path))[i] == history::node_of(log[j]),
        !log[j].is_dir ==> directories::files_among(
            history::listed_in(log, paths::tidied(path)).take(i),
        ) == reported_in(log.take(j), path, false).len(),
    decreases log.len(),
{
    let dir = paths::tidied(path);
    let before = history::listed_in(log.drop_last(), dir);
    let listed = history::listed_in(log, dir);
    if j < log.len() - 1 {
        assert(log.drop_last().take(j) =~= log.take(j));
        let i = lemma_listed_at(log.drop_last(), path, j);
        assert(listed.take(i) =~= before.take(i));
        i
    } else {
        assert(log.take(j) =~= log.drop_last());
        lemma_counts(log.drop_last(), path);
        assert(listed.take(before.len() as int) =~= before);
        before.len() as int
    }
}

/// The time of a directory that is reported once is the one reported.
proof fn lemma_time(
    log: Seq<EntryView>,
    root: Seq<char>,
    root_mtime: Option<Timestamp>,
    j: int,
)
    requires
        accounting::reported_once(log),
        0 <= j < log.len(),
        log[j].is_dir,
    ensures
        history::has_mtime(log, root, history::path_of(log[j])),
        history::mtime_in(log, root_mtime, history::path_of(log[j])) == log[j].mtime,
    decreases log.len(),
{
    if j < log.len() - 1 {
        let rest = log.drop_last();
        assert(log[j] == rest[j]);
        assert(accounting::reported_once(rest)) by {
            assert forall|a: int| 0 <= a < rest.len() && (#[trigger] rest[a]).is_dir implies
                paths::is_plain(rest[a].name) by {
                assert(log[a] == rest[a]);
            }
            assert forall|a: int, b: int|
                0 <= a < b < rest.len() && (#[trigger] rest[a]).is_dir && (
                #[trigger] rest[b]).is_dir implies history::path_of(rest[a])
                != history::path_of(rest[b]) by {
                assert(log[a] == rest[a] && log[b] == rest[b]);
            }
        }
        lemma_time(rest, root, root_mtime, j);
        if log[log.len() - 1].is_dir {
            assert(history::path_of(log[j]) != history::path_of(log[log.len() - 1]));
        }
    }
}

/// Whether a node is what an entry of the directory at `path` becomes: a file
/// stays as it is, a directory has the name and time of its path.
pub(crate) open spec fn is_filled(
    v: DirectoriesView,
    path: Seq<char>,
    entry: NodeView,
    node: NodeView,
) -> bool {
    if entry.is_dir {
        let below = paths::joined(path, entry.name);
        node.is_dir && node.error_count == 0 && node.name == paths::file_name_of(below)
            && node.mtime == v.mtime(below)
    } else {
        node == entry
    }
}

/// What a listed entry becomes stands for what was reported.
proof fn lemma_filled_stands(
    log: Seq<EntryView>,
    root: Seq<char>,
    root_mtime: Option<Timestamp>,
    path: Seq<char>,
    j: int,
    node: NodeView,
)
    requires
        accounting::reported_once(log),
        0 <= j < log.len(),
        paths::tidied(log[j].parent) == paths::tidied(path),
        is_filled(
            history::directories_after(log, root, root_mtime),
            path,
            history::node_of(log[j]),
            node,
        ),
    ensures
        stands_for(node, log[j]),
{
    if log[j].is_dir {
        accounting::lemma_plain_entry(log[j], path);
        lemma_time(log, root, root_mtime, j);
    }
}

/// The files kept of those not listed: how many, and that they were reported.
proof fn lemma_kept(
    log: Seq<EntryView>,
    root: Seq<char>,
    root_mtime: Option<Timestamp>,
    path: Seq<char>,
)
    ensures
        ({
            let top = history::directories_after(log, root, root_mtime).top_files(path);
            &&& top.len() == kept_beside(reported_in(log, path, false).len())
            &&& directories::all_files(top)
            &&& forall|i: int| 0 <= i < top.len() ==> was_reported(log, path, #[trigger] top[i])
        }),
{
    broadcast use vstd::seq_lib::group_to_multiset_ensures;

    let top = history::directories_after(log, root, root_mtime).top_files(path);
    let dir = paths::tidied(path);
    let files = history::files_in(log, dir);
    let beyond = files.skip(history::LARGE_DIR_FILE_THRESHOLD as int);
    lemma_counts(log, path);
    if files.len() > 10_000 {
        let dropped = aggregation::largest_files_are_kept(beyond);
        assert forall|i: int| 0 <= i < top.len() implies was_reported(log, path, #[trigger] top[i])
            && !top[i].is_dir by {
            assert(top.contains(top[i]));
            assert(top.to_multiset().count(top[i]) > 0);
            assert(beyond.to_multiset().count(top[i]) > 0);
            assert(beyond.contains(top[i]));
            let k = choose|k: int| 0 <= k < beyond.len() && beyond[k] == top[i];
            let j = lemma_file_from(log, dir, k + history::LARGE_DIR_FILE_THRESHOLD);
            assert(stands_for(top[i], log[j]));
        }
    }
}

/// A directory made of what is listed of it, each entry filled, and of the files
/// kept beside that has what was reported.
pub(crate) proof fn lemma_whole_lists(
    log: Seq<EntryView>,
    root: Seq<char>,
    root_mtime: Option<Timestamp>,
    path: Seq<char>,
    below: Seq<NodeView>,
)
    requires
        accounting::reported_once(log),
        below.len() == history::listed_in(log, paths::tidied(path)).len(),
        forall|i: int|
            0 <= i < below.len() ==> is_filled(
                history::directories_after(log, root, root_mtime),
                path,
                history::listed_in(log, paths::tidied(path))[i],
                #[trigger] below[i],
            ),
    ensures
        ({
            let v = history::directories_after(log, root, root_mtime);
            lists(below + v.top_files(path), log, path, 10_000, 10_100)
        }),
        forall|i: int|
            0 <= i < below.len() && (#[trigger] below[i]).is_dir ==> below[i].name
                == history::listed_in(log, paths::tidied(path))[i].name,
{
    reveal(lists);
    let v = history::directories_after(log, root, root_mtime);
    let dir = paths::tidied(path);
    let listed = history::listed_in(log, dir);
    let top = v.top_files(path);
    let all = below + top;
    lemma_counts(log, path);
    lemma_kept(log, root, root_mtime, path);
    assert forall|k: int| 0 <= k < all.len() implies was_reported(log, path, #[trigger] all[k]) by {
        if k < below.len() {
            let j = arrival::lemma_listed_from(log, dir, k);
            assert(all[k] == below[k]);
            lemma_filled_stands(log, root, root_mtime, path, j, below[k]);
        } else {
            assert(all[k] == top[k - below.len()]);
        }
    }
    assert forall|i: int| 0 <= i < below.len() && (#[trigger] below[i]).is_dir implies below[i].name
        == listed[i].name by {
        let j = arrival::lemma_listed_from(log, dir, i);
        lemma_filled_stands(log, root, root_mtime, path, j, below[i]);
    }
    assert forall|j: int|
        0 <= j < log.len() && paths::tidied(log[j].parent) == dir && (log[j].is_dir || reported_in(
            log.take(j),
            path,
            false,
        ).len() < 10_000) implies has_child(all, #[trigger] log[j]) by {
        let i = lemma_listed_at(log, path, j);
        assert(all[i] == below[i]);
        lemma_filled_stands(log, root, root_mtime, path, j, below[i]);
        assert(stands_for(all[i], log[j]));
    }
}

/// What a directory has, it has in any order.
proof fn lemma_lists_sorted(
    children: Seq<NodeView>,
    le: spec_fn(NodeView, NodeView) -> bool,
    log: Seq<EntryView>,
    path: Seq<char>,
    first: int,
    most: int,
)
    requires
        lists(children, log, path, first, most),
    ensures
        lists(sorting::stably_sorted(children, le), log, path, first, most),
{
    reveal(lists);
    let sorted = sorting::stably_sorted(children, le);
    sorting::lemma_sorted_len(children, le);
    assert forall|k: int| 0 <= k < sorted.len() implies was_reported(
        log,
        path,
        #[trigger] sorted[k],
    ) by {
        sorting::lemma_sorted_contains(children, le, k);
        let i = choose|i: int| 0 <= i < children.len() && children[i] == sorted[k];
        assert(was_reported(log, path, children[i]));
    }
    assert forall|j: int|
        0 <= j < log.len() && paths::tidied(log[j].parent) == paths::tidied(path) && (log[j].is_dir
            || reported_in(log.take(j), path, false).len() < first) implies has_child(
        sorted,
        #[trigger] log[j],
    ) by {
        assert(has_child(children, log[j]));
        let k = choose|k: int|
            0 <= k < children.len() && #[trigger] stands_for(children[k], log[j]);
        sorting::lemma_sorted_holds(children, le, k);
        let i = choose|i: int| 0 <= i < sorted.len() && sorted[i] == children[k];
        assert(stands_for(sorted[i], log[j]));
    }
}

/// A node sorted deeply stands for what it stood for.
proof fn lemma_child_stands(child: NodeView, entry: EntryView)
    requires
        stands_for(child, entry),
    ensures
        stands_for(tree::sorted_child(child), entry),
{
}

/// Sorting what is below the children keeps what they stand for.
proof fn lemma_lists_below(
    children: Seq<NodeView>,
    kids: Seq<NodeView>,
    log: Seq<EntryView>,
    path: Seq<char>,
    first: int,
    most: int,
)
    requires
        lists(children, log, path, first, most),
        kids.len() == children.len(),
        forall|k: int|
            0 <= k < kids.len() ==> #[trigger] kids[k] == tree::sorted_child(children[k]),
    ensures
        lists(kids, log, path, first, most),
{
    reveal(lists);
    assert forall|k: int| 0 <= k < kids.len() implies was_reported(
        log,
        path,
        #[trigger] kids[k],
    ) by {
        assert(was_reported(log, path, children[k]));
        let j = choose|j: int|
            0 <= j < log.len() && paths::tidied(log[j].parent) == paths::tidied(path)
                && #[trigger] stands_for(children[k], log[j]);
        lemma_child_stands(children[k], log[j]);
    }
    assert forall|j: int|
        0 <= j < log.len() && paths::tidied(log[j].parent) == paths::tidied(path) && (log[j].is_dir
            || reported_in(log.take(j), path, false).len() < first) implies has_child(
        kids,
        #[trigger] log[j],
    ) by {
        assert(has_child(children, log[j]));
        let k = choose|k: int|
            0 <= k < children.len() && #[trigger] stands_for(children[k], log[j]);
        lemma_child_stands(children[k], log[j]);
        assert(stands_for(kids[k], log[j]));
    }
}

/// Sorting a tree deeply keeps what it has.
pub(crate) proof fn lemma_sorted_complete(node: NodeView, log: Seq<EntryView>, path: Seq<char>)
    requires
        is_complete(node, log, path),
    ensures
        is_complete(tree::sorted_deeply(node), log, path),
    decreases node,
{
    let sorted = tree::sorted_deeply(node);
    let kids = tree::all_sorted_deeply(node.children);
    let le = ChildOrder::SizeDesc.relation();
    lemma_lists_below(node.children, kids, log, path, 10_000, 10_100);
    lemma_lists_sorted(kids, le, log, path, 10_000, 10_100);
    lemma_same_weight(node.children, kids);
    sorting::lemma_sorted_weight(kids, le, |n: NodeView| n.size);
    sorting::lemma_sorted_len(kids, le);
    assert forall|i: int|
        0 <= i < sorted.children.len() && (
        #[trigger] sorted.children[i]).is_dir implies is_complete(
        sorted.children[i],
        log,
        paths::joined(path, sorted.children[i].name),
    ) by {
        sorting::lemma_sorted_contains(kids, le, i);
        let k = choose|k: int| 0 <= k < kids.len() && kids[k] == sorted.children[i];
        assert(kids[k] == tree::sorted_child(node.children[k]));
        assert(node.children[k].is_dir);
        lemma_sorted_complete(
            node.children[k],
            log,
            paths::joined(path, node.children[k].name),
        );
    }
}

proof fn lemma_same_weight(a: Seq<NodeView>, b: Seq<NodeView>)
    requires
        a.len() == b.len(),
        forall|i: int| 0 <= i < a.len() ==> (#[trigger] a[i]).size == b[i].size,
    ensures
        sorting::weigh(a, |n: NodeView| n.size) == sorting::weigh(b, |n: NodeView| n.size),
    decreases a.len(),
{
    if a.len() > 0 {
        assert(a[a.len() - 1].size == b[a.len() - 1].size);
        lemma_same_weight(a.drop_last(), b.drop_last());
    }
}

/// Where in what is shown an entry is found.
proof fn lemma_shown_at(
    v: DirectoriesView,
    path: Seq<char>,
    entries: Seq<NodeView>,
    depth: nat,
    i: int,
) -> (k: int)
    requires
        depth > 0,
        0 <= i < entries.len(),
        entries[i].is_dir || directories::files_among(entries.take(i)) + v.top_files(path).len()
            < 500,
    ensures
        0 <= k < v.shown(path, entries, depth).len(),
        v.shown(path, entries, depth)[k] == if entries[i].is_dir {
            v.shallow(paths::joined(path, entries[i].name), (depth - 1) as nat)
        } else {
            entries[i]
        },
    decreases entries.len(),
{
    let rest = entries.drop_last();
    if i < rest.len() {
        assert(rest.take(i) =~= entries.take(i));
        lemma_shown_at(v, path, rest, depth, i)
    } else {
        assert(entries.take(i) =~= rest);
        v.shown(path, rest, depth).len() as int
    }
}

/// Which entry something shown is.
proof fn lemma_shown_from(
    v: DirectoriesView,
    path: Seq<char>,
    entries: Seq<NodeView>,
    depth: nat,
    k: int,
) -> (i: int)
    requires
        0 <= k < v.shown(path, entries, depth).len(),
    ensures
        depth > 0,
        0 <= i < entries.len(),
        v.shown(path, entries, depth)[k] == if entries[i].is_dir {
            v.shallow(paths::joined(path, entries[i].name), (depth - 1) as nat)
        } else {
            entries[i]
        },
    decreases entries.len(),
{
    let before = v.shown(path, entries.drop_last(), depth);
    if k < before.len() {
        lemma_shown_from(v, path, entries.drop_last(), depth, k)
    } else {
        entries.len() - 1
    }
}

/// How much is shown.
proof fn lemma_shown_len(v: DirectoriesView, path: Seq<char>, entries: Seq<NodeView>, depth: nat)
    requires
        depth > 0,
        v.top_files(path).len() <= 500,
    ensures
        ({
            let files = directories::files_among(entries);
            let room = 500 - v.top_files(path).len();
            v.shown(path, entries, depth).len() == directories::dirs_among(entries) + if files
                < room {
                files as int
            } else {
                room
            }
        }),
    decreases entries.len(),
{
    if entries.len() > 0 {
        lemma_shown_len(v, path, entries.drop_last(), depth);
        directories::lemma_dirs_among(entries.drop_last());
    }
}

/// What is shown of a directory, before it is sorted, is what was reported of it.
proof fn lemma_shown_lists(
    log: Seq<EntryView>,
    root: Seq<char>,
    root_mtime: Option<Timestamp>,
    path: Seq<char>,
    depth: nat,
)
    requires
        accounting::reported_once(log),
        depth > 0,
    ensures
        ({
            let v = history::directories_after(log, root, root_mtime);
            let files = reported_in(log, path, false).len();
            lists(
                v.shown(path, history::listed_in(log, paths::tidied(path)), depth) + v.top_files(
                    path,
                ),
                log,
                path,
                500 - kept_beside(files),
                500,
            )
        }),
{
    reveal(lists);
    let v = history::directories_after(log, root, root_mtime);
    let dir = paths::tidied(path);
    let listed = history::listed_in(log, dir);
    let shown = v.shown(path, listed, depth);
    let top = v.top_files(path);
    let all = shown + top;
    let first = 500 - kept_beside(reported_in(log, path, false).len());
    lemma_counts(log, path);
    lemma_kept(log, root, root_mtime, path);
    lemma_shown_len(v, path, listed, depth);
    directories::lemma_dirs_among(listed);
    assert forall|k: int| 0 <= k < all.len() implies was_reported(log, path, #[trigger] all[k]) by {
        if k < shown.len() {
            let i = lemma_shown_from(v, path, listed, depth, k);
            let j = arrival::lemma_listed_from(log, dir, i);
            assert(all[k] == shown[k]);
            lemma_filled_stands(log, root, root_mtime, path, j, shown[k]);
        } else {
            assert(all[k] == top[k - shown.len()]);
        }
    }
    assert forall|j: int|
        0 <= j < log.len() && paths::tidied(log[j].parent) == dir && (log[j].is_dir || reported_in(
            log.take(j),
            path,
            false,
        ).len() < first) implies has_child(all, #[trigger] log[j]) by {
        let i = lemma_listed_at(log, path, j);
        let k = lemma_shown_at(v, path, listed, depth, i);
        assert(all[k] == shown[k]);
        lemma_filled_stands(log, root, root_mtime, path, j, shown[k]);
        assert(stands_for(all[k], log[j]));
    }
}

/// While the scan runs, a directory shows what was reported of it so far: all
/// directories, and all files where there are at most 500; of more files it shows
/// 500. So does every directory below it, as deep as it is shown. Each child says
/// what was reported of it, and each directory how many entries it has.
pub proof fn snapshots_show_what_was_reported(
    log: Seq<EntryView>,
    root: Seq<char>,
    root_mtime: Option<Timestamp>,
    path: Seq<char>,
    depth: nat,
)
    requires
        accounting::reported_once(log),
    ensures
        is_shown(
            history::directories_after(log, root, root_mtime).shallow(path, depth),
            log,
            path,
            depth,
        ),
    decreases depth,
{
    let v = history::directories_after(log, root, root_mtime);
    let node = v.shallow(path, depth);
    let dir = paths::tidied(path);
    let listed = history::listed_in(log, dir);
    if !history::is_known(log, root, dir) {
        history::lemma_unknown(log, root, dir);
    }
    assert(v.entries(path) =~= listed);
    lemma_counts(log, path);
    lemma_kept(log, root, root_mtime, path);
    if depth > 0 {
        let shown = v.shown(path, listed, depth);
        let top = v.top_files(path);
        let all = shown + top;
        let order = ChildOrder::DirsThenSizeDesc;
        let le = order.relation();
        let first = 500 - kept_beside(reported_in(log, path, false).len());
        lemma_shown_lists(log, root, root_mtime, path, depth);
        lemma_lists_sorted(all, le, log, path, first, 500);
        sorting::lemma_sorted_len(all, le);
        order.lemma_preorder();
        sorting::lemma_sorted_in_order(all, le);
        assert forall|i: int, j: int| 0 <= i < j < node.children.len() implies order.allows(
            #[trigger] node.children[i],
            #[trigger] node.children[j],
        ) by {
            assert(le(node.children[i], node.children[j]));
        }
        assert forall|i: int|
            0 <= i < node.children.len() && (#[trigger] node.children[i]).is_dir implies is_shown(
            node.children[i],
            log,
            paths::joined(path, node.children[i].name),
            (depth - 1) as nat,
        ) by {
            sorting::lemma_sorted_contains(all, le, i);
            let k = choose|k: int| 0 <= k < all.len() && all[k] == node.children[i];
            if k < shown.len() {
                let e = lemma_shown_from(v, path, listed, depth, k);
                let j = arrival::lemma_listed_from(log, dir, e);
                assert(all[k] == shown[k]);
                lemma_filled_stands(log, root, root_mtime, path, j, shown[k]);
                snapshots_show_what_was_reported(
                    log,
                    root,
                    root_mtime,
                    paths::joined(path, log[j].name),
                    (depth - 1) as nat,
                );
            } else {
                assert(all[k] == top[k - shown.len()]);
            }
        }
    }
}

/// The time of the directory where a scan started is the one it started with, unless
/// it is reported itself.
pub proof fn the_root_keeps_its_time(
    log: Seq<EntryView>,
    root: Seq<char>,
    root_mtime: Option<Timestamp>,
)
    requires
        accounting::orderly(log, root),
    ensures
        history::directories_after(log, root, root_mtime).mtime(root) == root_mtime,
{
    lemma_root_time(log, root, root_mtime, log.len() as int);
    assert(log.take(log.len() as int) =~= log);
}

proof fn lemma_root_time(
    log: Seq<EntryView>,
    root: Seq<char>,
    root_mtime: Option<Timestamp>,
    n: int,
)
    requires
        accounting::orderly(log, root),
        0 <= n <= log.len(),
    ensures
        history::has_mtime(log.take(n), root, paths::tidied(root)),
        history::mtime_in(log.take(n), root_mtime, paths::tidied(root)) == root_mtime,
    decreases n,
{
    if n > 0 {
        lemma_root_time(log, root, root_mtime, n - 1);
        assert(log.take(n).drop_last() =~= log.take(n - 1));
        assert(log.take(n).last() == log[n - 1]);
    }
}

/// An entry becomes a node that says what was reported, with nothing below it yet; a
/// directory has no size of its own.
pub proof fn entries_become_nodes(entry: EntryView)
    ensures
        stands_for(history::node_of(entry), entry),
        history::node_of(entry).children.len() == 0,
        history::node_of(entry).child_count == 0,
        entry.is_dir ==> history::node_of(entry).size == 0,
{
}

} // verus!
