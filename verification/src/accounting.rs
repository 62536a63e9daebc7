//! That the sizes in the final tree account for every file that was reported.

use crate::directories::DirectoriesView;
use crate::history::EntryView;
use crate::node::{NodeView, Timestamp};
use crate::tree::ChildOrder;
use crate::{aggregation, assembly, contents, directories, history, paths, profile, sorting, tree};
use vstd::prelude::*;

verus! {

/// Whether each directory is reported once, by a name that leads down to it.
pub open spec fn reported_once(log: Seq<EntryView>) -> bool {
    &&& forall|i: int|
        0 <= i < log.len() && (#[trigger] log[i]).is_dir ==> paths::is_plain(log[i].name)
    &&& forall|i: int, j: int|
        0 <= i < j < log.len() && (#[trigger] log[i]).is_dir && (#[trigger] log[j]).is_dir
            ==> history::path_of(log[i]) != history::path_of(log[j])
}

/// Whether each directory is reported once, by a name that leads down to it,
/// and the one where the scan started not at all.
pub open spec fn orderly(log: Seq<EntryView>, root: Seq<char>) -> bool {
    &&& reported_once(log)
    &&& forall|i: int|
        0 <= i < log.len() && (#[trigger] log[i]).is_dir ==> history::path_of(log[i])
            != paths::tidied(root)
}

/// Whether every entry stands in the directory where the scan started or in
/// one that is itself reported.
pub open spec fn connected(log: Seq<EntryView>, root: Seq<char>) -> bool {
    forall|i: int|
        0 <= i < log.len() ==> history::home(#[trigger] log[i]) == paths::tidied(root)
            || is_reported(log, history::home(log[i]))
}

/// Whether a directory is reported.
pub open spec fn is_reported(log: Seq<EntryView>, dir: Seq<char>) -> bool {
    exists|j: int|
        0 <= j < log.len() && (#[trigger] log[j]).is_dir && history::path_of(log[j]) == dir
}

/// Whether the sizes of all directories fit the machine.
pub open spec fn sizes_fit(log: Seq<EntryView>, root: Seq<char>) -> bool {
    forall|dir: Seq<char>| #[trigger] history::size_below(log, root, dir) <= u64::MAX
}

/// Whether the size of a directory is that of all files reported below it,
/// and the same holds of every directory in its tree.
pub open spec fn sizes_agree(
    node: NodeView,
    log: Seq<EntryView>,
    root: Seq<char>,
    path: Seq<char>,
) -> bool
    decreases node,
{
    &&& node.size == history::size_below(log, root, paths::tidied(path))
    &&& forall|i: int|
        #![trigger node.children[i]]
        0 <= i < node.children.len() && node.children[i].is_dir ==> sizes_agree(
            node.children[i],
            log,
            root,
            paths::joined(path, node.children[i].name),
        )
}

/// Where the way up meets a directory it also meets that one's parent.
proof fn lemma_way_through(from: Seq<char>, root: Seq<char>, child: Seq<char>, dir: Seq<char>)
    requires
        history::on_way_up(from, root, child),
        child != paths::tidied(root),
        paths::parent_of(child) == Some(dir),
    ensures
        history::on_way_up(from, root, dir),
    decreases from.len(),
{
    assert(history::on_way_up(dir, root, dir));
    if from != child && from != dir {
        paths::lemma_parent_shorter(from);
        lemma_way_through(paths::parent_of(from)->0, root, child, dir);
    }
}

/// The way up passes through only one child of a directory.
proof fn lemma_one_child(
    from: Seq<char>,
    root: Seq<char>,
    a: Seq<char>,
    b: Seq<char>,
    dir: Seq<char>,
)
    requires
        history::on_way_up(from, root, a),
        history::on_way_up(from, root, b),
        a != paths::tidied(root),
        b != paths::tidied(root),
        paths::parent_of(a) == Some(dir),
        paths::parent_of(b) == Some(dir),
    ensures
        a == b,
    decreases from.len(),
{
    paths::lemma_parent_shorter(a);
    paths::lemma_parent_shorter(b);
    if a != b {
        if from == a {
            history::lemma_way_up_shorter(dir, root, b);
        } else if from == b {
            history::lemma_way_up_shorter(dir, root, a);
        } else {
            paths::lemma_parent_shorter(from);
            lemma_one_child(paths::parent_of(from)->0, root, a, b, dir);
        }
    }
}

/// Whether one of the directories reported of `dir` is met on the way up.
spec fn passes(log: Seq<EntryView>, root: Seq<char>, from: Seq<char>, dir: Seq<char>) -> bool
    decreases log.len(),
{
    log.len() > 0 && (passes(log.drop_last(), root, from, dir) || (log.last().is_dir
        && history::home(log.last()) == dir && history::on_way_up(
        from,
        root,
        history::path_of(log.last()),
    )))
}

proof fn lemma_passes(
    log: Seq<EntryView>,
    root: Seq<char>,
    from: Seq<char>,
    dir: Seq<char>,
) -> (j: int)
    requires
        passes(log, root, from, dir),
    ensures
        0 <= j < log.len(),
        log[j].is_dir,
        history::home(log[j]) == dir,
        history::on_way_up(from, root, history::path_of(log[j])),
    decreases log.len(),
{
    if passes(log.drop_last(), root, from, dir) {
        lemma_passes(log.drop_last(), root, from, dir)
    } else {
        log.len() - 1
    }
}

proof fn lemma_passed(
    log: Seq<EntryView>,
    root: Seq<char>,
    from: Seq<char>,
    dir: Seq<char>,
    j: int,
)
    requires
        0 <= j < log.len(),
        log[j].is_dir,
        history::home(log[j]) == dir,
        history::on_way_up(from, root, history::path_of(log[j])),
    ensures
        passes(log, root, from, dir),
    decreases log.len(),
{
    if j < log.len() - 1 {
        assert(log.drop_last()[j] == log[j]);
        lemma_passed(log.drop_last(), root, from, dir, j);
    }
}

/// The first entries are orderly where all are.
proof fn lemma_orderly_prefix(log: Seq<EntryView>, root: Seq<char>, n: int)
    requires
        orderly(log, root),
        0 <= n <= log.len(),
    ensures
        orderly(log.take(n), root),
{
    let part = log.take(n);
    assert forall|i: int| 0 <= i < part.len() && (#[trigger] part[i]).is_dir implies {
        &&& paths::is_plain(part[i].name)
        &&& history::path_of(part[i]) != paths::tidied(root)
    } by {
        assert(log[i] == part[i]);
    }
    assert forall|i: int, j: int|
        0 <= i < j < part.len() && (#[trigger] part[i]).is_dir && (
        #[trigger] part[j]).is_dir implies history::path_of(part[i]) != history::path_of(
        part[j],
    ) by {
        assert(log[i] == part[i] && log[j] == part[j]);
    }
}

/// Of what passes the last directory reported nothing passes an earlier one.
proof fn lemma_not_twice(log: Seq<EntryView>, root: Seq<char>, from: Seq<char>)
    requires
        orderly(log, root),
        log.len() > 0,
        log.last().is_dir,
        history::on_way_up(from, root, history::path_of(log.last())),
    ensures
        !passes(log.drop_last(), root, from, history::home(log.last())),
{
    let dir = history::home(log.last());
    if passes(log.drop_last(), root, from, dir) {
        let j = lemma_passes(log.drop_last(), root, from, dir);
        assert(log[j] == log.drop_last()[j]);
        assert(log[log.len() - 1].is_dir);
        lemma_plain_entry(log[j], log[j].parent);
        lemma_plain_entry(log.last(), log.last().parent);
        lemma_one_child(
            from,
            root,
            history::path_of(log[j]),
            history::path_of(log.last()),
            dir,
        );
    }
}

/// From a parent of an entry every way up to a directory above passes one of
/// the directories reported of it.
proof fn lemma_way_reported(log: Seq<EntryView>, root: Seq<char>, i: int, dir: Seq<char>)
    requires
        orderly(log, root),
        connected(log, root),
        0 <= i < log.len(),
        history::home(log[i]) != dir,
        history::on_way_up(history::home(log[i]), root, dir),
    ensures
        passes(log, root, history::home(log[i]), dir),
    decreases history::home(log[i]).len(),
{
    let from = history::home(log[i]);
    assert(is_reported(log, from));
    let j = choose|j: int|
        0 <= j < log.len() && (#[trigger] log[j]).is_dir && history::path_of(log[j]) == from;
    lemma_plain_entry(log[j], log[j].parent);
    if history::home(log[j]) == dir {
        lemma_passed(log, root, from, dir, j);
    } else {
        paths::lemma_parent_shorter(from);
        lemma_way_reported(log, root, j, dir);
        let k = lemma_passes(log, root, history::home(log[j]), dir);
        lemma_passed(log, root, from, dir, k);
    }
}

/// Every way up from a parent of an entry ends where the scan started.
proof fn lemma_way_to_root(log: Seq<EntryView>, root: Seq<char>, i: int)
    requires
        orderly(log, root),
        connected(log, root),
        0 <= i < log.len(),
    ensures
        history::on_way_up(history::home(log[i]), root, paths::tidied(root)),
    decreases history::home(log[i]).len(),
{
    let from = history::home(log[i]);
    if from != paths::tidied(root) {
        assert(is_reported(log, from));
        let j = choose|j: int|
            0 <= j < log.len() && (#[trigger] log[j]).is_dir && history::path_of(log[j]) == from;
        lemma_plain_entry(log[j], log[j].parent);
        paths::lemma_parent_shorter(from);
        lemma_way_to_root(log, root, j);
    }
}

/// What of the entries is added up.
enum Measure {
    Bytes,
    Entries,
}

/// What one entry counts.
spec fn weight(measure: Measure, entry: EntryView) -> nat {
    match measure {
        Measure::Bytes => if entry.is_dir {
            0
        } else {
            entry.size
        },
        Measure::Entries => 1,
    }
}

/// What all entries below `dir` count.
spec fn weight_below(
    measure: Measure,
    log: Seq<EntryView>,
    root: Seq<char>,
    dir: Seq<char>,
) -> nat
    decreases log.len(),
{
    if log.len() == 0 {
        0
    } else {
        weight_below(measure, log.drop_last(), root, dir) + if history::on_way_up(
            history::home(log.last()),
            root,
            dir,
        ) {
            weight(measure, log.last())
        } else {
            0
        }
    }
}

proof fn lemma_bytes_below(log: Seq<EntryView>, root: Seq<char>, dir: Seq<char>)
    ensures
        weight_below(Measure::Bytes, log, root, dir) == history::size_below(log, root, dir),
    decreases log.len(),
{
    if log.len() > 0 {
        lemma_bytes_below(log.drop_last(), root, dir);
    }
}

/// What the entries of `dir` itself count.
spec fn own_weight(measure: Measure, log: Seq<EntryView>, dir: Seq<char>) -> nat
    decreases log.len(),
{
    if log.len() == 0 {
        0
    } else {
        own_weight(measure, log.drop_last(), dir) + if history::home(log.last()) == dir {
            weight(measure, log.last())
        } else {
            0
        }
    }
}

/// What is below the directories that `dirs` reports of `dir`, as far as the
/// entries of `log` make it up.
spec fn child_weight(
    measure: Measure,
    dirs: Seq<EntryView>,
    log: Seq<EntryView>,
    root: Seq<char>,
    dir: Seq<char>,
) -> nat
    decreases dirs.len(),
{
    if dirs.len() == 0 {
        0
    } else {
        child_weight(measure, dirs.drop_last(), log, root, dir) + if dirs.last().is_dir
            && history::home(dirs.last()) == dir {
            weight_below(measure, log, root, history::path_of(dirs.last()))
        } else {
            0
        }
    }
}

/// One more entry counts once for the directories of `dir`, if it is in one.
proof fn lemma_child_weight_step(
    measure: Measure,
    dirs: Seq<EntryView>,
    log: Seq<EntryView>,
    root: Seq<char>,
    dir: Seq<char>,
)
    requires
        orderly(dirs, root),
        log.len() > 0,
    ensures
        child_weight(measure, dirs, log, root, dir) == child_weight(
            measure,
            dirs,
            log.drop_last(),
            root,
            dir,
        ) + (if passes(dirs, root, history::home(log.last()), dir) {
            weight(measure, log.last())
        } else {
            0
        }),
    decreases dirs.len(),
{
    if dirs.len() > 0 {
        lemma_orderly_prefix(dirs, root, dirs.len() - 1);
        assert(dirs.take(dirs.len() - 1) =~= dirs.drop_last());
        lemma_child_weight_step(measure, dirs.drop_last(), log, root, dir);
        let from = history::home(log.last());
        if dirs.last().is_dir && history::home(dirs.last()) == dir && history::on_way_up(
            from,
            root,
            history::path_of(dirs.last()),
        ) {
            lemma_not_twice(dirs, root, from);
        }
    }
}

/// What is below a directory is made up of its own entries and of what is
/// below its directories.
proof fn lemma_weight_split(
    measure: Measure,
    dirs: Seq<EntryView>,
    n: int,
    root: Seq<char>,
    dir: Seq<char>,
)
    requires
        orderly(dirs, root),
        0 <= n <= dirs.len(),
    ensures
        ({
            let log = dirs.take(n);
            let parts = own_weight(measure, log, dir) + child_weight(measure, dirs, log, root, dir);
            &&& parts <= weight_below(measure, log, root, dir)
            &&& connected(dirs, root) ==> parts == weight_below(measure, log, root, dir)
        }),
    decreases n,
{
    let log = dirs.take(n);
    if n == 0 {
        lemma_no_child_weight(measure, dirs, log, root, dir);
    } else {
        assert(log.drop_last() =~= dirs.take(n - 1));
        lemma_weight_split(measure, dirs, n - 1, root, dir);
        lemma_child_weight_step(measure, dirs, log, root, dir);
        let from = history::home(log.last());
        assert(log.last() == dirs[n - 1]);
        if passes(dirs, root, from, dir) {
            let j = lemma_passes(dirs, root, from, dir);
            let child = history::path_of(dirs[j]);
            lemma_plain_entry(dirs[j], dirs[j].parent);
            lemma_way_through(from, root, child, dir);
            paths::lemma_parent_shorter(child);
            if from == dir {
                history::lemma_way_up_shorter(from, root, child);
            }
        } else if connected(dirs, root) && from != dir && history::on_way_up(from, root, dir) {
            lemma_way_reported(dirs, root, n - 1, dir);
        }
    }
}

proof fn lemma_no_child_weight(
    measure: Measure,
    dirs: Seq<EntryView>,
    log: Seq<EntryView>,
    root: Seq<char>,
    dir: Seq<char>,
)
    requires
        log.len() == 0,
    ensures
        child_weight(measure, dirs, log, root, dir) == 0,
    decreases dirs.len(),
{
    if dirs.len() > 0 {
        lemma_no_child_weight(measure, dirs.drop_last(), log, root, dir);
    }
}

/// Whether all files of every directory are listed.
pub open spec fn all_listed(log: Seq<EntryView>) -> bool {
    forall|dir: Seq<char>| (#[trigger] history::files_in(log, dir)).len()
        <= history::LARGE_DIR_FILE_THRESHOLD
}

proof fn lemma_files_prefix(log: Seq<EntryView>, n: int, dir: Seq<char>)
    requires
        0 <= n <= log.len(),
    ensures
        history::files_in(log.take(n), dir).len() <= history::files_in(log, dir).len(),
    decreases log.len() - n,
{
    if n < log.len() {
        assert(log.take(n + 1).drop_last() =~= log.take(n));
        lemma_files_prefix(log, n + 1, dir);
    } else {
        assert(log.take(n) =~= log);
    }
}

/// What is put together of the directories: none is larger than what was
/// reported below it, and all numbers fit.
spec fn bounded(node: NodeView, log: Seq<EntryView>, root: Seq<char>, path: Seq<char>) -> bool {
    &&& node.size <= history::size_below(log, root, paths::tidied(path))
    &&& node.error_count == 0
    &&& contents::is_complete(node, log, path)
    &&& sizes_fit(log, root) && log.len() <= usize::MAX ==> assembly::fits(node)
    &&& connected(log, root) ==> sizes_agree(node, log, root, path)
    &&& connected(log, root) && all_listed(log) ==> profile::nodes_in(node) == 1 + weight_below(
        Measure::Entries,
        log,
        root,
        paths::tidied(path),
    )
}

/// Whether all that is known below `dir`, on ways up that end at `stop`, is
/// still unused.
spec fn holds_below(
    unused: Map<Seq<char>, Seq<NodeView>>,
    log: Seq<EntryView>,
    root: Seq<char>,
    stop: Seq<char>,
    dir: Seq<char>,
) -> bool {
    forall|q: Seq<char>|
        history::is_known(log, root, q) && #[trigger] history::on_way_up(q, stop, dir)
            ==> unused.contains_key(q) && unused[q] == history::listed_in(log, q)
}

/// What of two maps is the same at `q`.
spec fn same_at(
    a: Map<Seq<char>, Seq<NodeView>>,
    b: Map<Seq<char>, Seq<NodeView>>,
    q: Seq<char>,
) -> bool {
    a.contains_key(q) == b.contains_key(q) && a[q] == b[q]
}

proof fn lemma_known_prefix(log: Seq<EntryView>, n: int, root: Seq<char>, dir: Seq<char>)
    requires
        0 <= n <= log.len(),
        history::is_known(log.take(n), root, dir),
    ensures
        history::is_known(log, root, dir),
    decreases log.len() - n,
{
    if n < log.len() {
        assert(log.take(n + 1).drop_last() =~= log.take(n));
        lemma_known_prefix(log, n + 1, root, dir);
    } else {
        assert(log.take(n) =~= log);
    }
}

/// The path of a plain entry leads down from the directory that it stands in,
/// however that is written, and the name is its last part.
pub proof fn lemma_plain_entry(entry: EntryView, path: Seq<char>)
    requires
        paths::is_plain(entry.name),
        paths::tidied(path) == history::home(entry),
    ensures
        paths::tidied(paths::joined(path, entry.name)) == history::path_of(entry),
        paths::parent_of(history::path_of(entry)) == Some(history::home(entry)),
        paths::file_name_of(paths::joined(path, entry.name)) == entry.name,
        paths::file_name_of(history::path_of(entry)) == entry.name,
{
    paths::lemma_tidy_entry(entry.parent, entry.name);
    paths::lemma_tidy_entry(path, entry.name);
}

/// The sum of what is listed is what was reported, if everything is listed.
proof fn lemma_entries_bounded(
    v: DirectoriesView,
    log: Seq<EntryView>,
    n: int,
    root: Seq<char>,
    root_mtime: Option<Timestamp>,
    path: Seq<char>,
    rest: Map<Seq<char>, Seq<NodeView>>,
    depth: nat,
)
    requires
        orderly(log, root),
        v == history::directories_after(log, root, root_mtime),
        0 <= n <= log.len(),
        rest.dom().finite(),
        rest.dom().len() < depth,
        forall|q: Seq<char>|
            history::is_known(log, root, q) && #[trigger] history::on_way_up(
                q,
                root,
                paths::tidied(path),
            ) && q != paths::tidied(path) ==> rest.contains_key(q) && rest[q] == history::listed_in(log, q),
    ensures
        ({
            let dir = paths::tidied(path);
            let part = log.take(n);
            let listed = history::listed_in(part, dir);
            let below = v.gathered_entries(path, listed, rest, depth);
            &&& below.0.len() == listed.len()
            &&& directories::dirs_among(below.0) == directories::dirs_among(listed)
            &&& assembly::total_errors(below.0) == 0
            &&& forall|i: int|
                0 <= i < below.0.len() ==> contents::is_filled(
                    v,
                    path,
                    listed[i],
                    #[trigger] below.0[i],
                ) && (listed[i].is_dir ==> contents::is_complete(
                    below.0[i],
                    log,
                    paths::joined(path, listed[i].name),
                ))
            &&& sizes_fit(log, root) && log.len() <= usize::MAX ==> (forall|i: int|
                0 <= i < below.0.len() ==> assembly::fits(#[trigger] below.0[i]))
            &&& connected(log, root) ==> (forall|i: int|
                0 <= i < below.0.len() && (#[trigger] below.0[i]).is_dir ==> sizes_agree(
                    below.0[i],
                    log,
                    root,
                    paths::joined(path, below.0[i].name),
                ))
            &&& history::files_in(part, dir).len() <= history::LARGE_DIR_FILE_THRESHOLD ==> {
                let parts = own_weight(Measure::Bytes, part, dir) + child_weight(
                    Measure::Bytes,
                    part,
                    log,
                    root,
                    dir,
                );
                &&& assembly::total_size(below.0) <= parts
                &&& connected(log, root) ==> assembly::total_size(below.0) == parts
            }
            &&& connected(log, root) && all_listed(log) ==> profile::nodes_among(below.0)
                == own_weight(Measure::Entries, part, dir) + child_weight(
                Measure::Entries,
                part,
                log,
                root,
                dir,
            )
            &&& forall|q: Seq<char>|
                !(#[trigger] passes(part, root, q, dir)) ==> same_at(below.1, rest, q)
            &&& below.1.dom().subset_of(rest.dom())
        }),
    decreases depth, 0nat, n,
{
    let dir = paths::tidied(path);
    let part = log.take(n);
    let listed = history::listed_in(part, dir);
    let below = v.gathered_entries(path, listed, rest, depth);
    if n > 0 {
        let before = log.take(n - 1);
        assert(part.drop_last() =~= before);
        lemma_entries_bounded(v, log, n - 1, root, root_mtime, path, rest, depth);
        let entry = log[n - 1];
        assert(part.last() == entry);
        lemma_files_prefix(log, n, dir);
        let first = v.gathered_entries(path, history::listed_in(before, dir), rest, depth);
        if history::home(entry) == dir && (entry.is_dir || history::files_in(before, dir).len()
            < history::LARGE_DIR_FILE_THRESHOLD) {
            assert(listed.drop_last() =~= history::listed_in(before, dir));
            assert(below.0.drop_last() =~= first.0);
            if entry.is_dir {
                let child = history::path_of(entry);
                let child_path = paths::joined(path, entry.name);
                lemma_plain_entry(entry, path);
                lemma_child_untouched(log, n, root, root, dir, rest, first.1);
                vstd::set_lib::lemma_len_subset(first.1.dom(), rest.dom());
                assert(history::is_known(part, root, child));
                lemma_known_prefix(log, n, root, child);
                lemma_gathered_bounded(
                    v,
                    log,
                    root,
                    root_mtime,
                    child_path,
                    first.1,
                    (depth - 1) as nat,
                );
                lemma_bytes_below(log, root, child);
                let made = v.gathered(child_path, first.1, (depth - 1) as nat);
                assert(below.0 == first.0.push(made.node));
                assert forall|q: Seq<char>| !(#[trigger] passes(part, root, q, dir)) implies same_at(
                    below.1,
                    rest,
                    q,
                ) by {
                    assert(!passes(before, root, q, dir));
                    assert(!history::on_way_up(q, root, child));
                    assert(same_at(made.unused, first.1, q));
                }
            } else {
                lemma_entry_fits(log, root, n - 1);
                assert(below.0 == first.0.push(history::node_of(entry)));
                assert(assembly::fits(history::node_of(entry)) || !sizes_fit(log, root));
                assert(profile::nodes_in(history::node_of(entry)) == 1) by {
                    assert(profile::nodes_among(history::node_of(entry).children) == 0);
                }
            }
        }
        assert forall|q: Seq<char>| !(#[trigger] passes(part, root, q, dir)) implies same_at(
            below.1,
            rest,
            q,
        ) by {
            assert(!passes(before, root, q, dir));
        }
    } else {
        assert(below.0 =~= Seq::<NodeView>::empty());
    }
}

/// No file is larger than the directory that it stands in.
proof fn lemma_entry_fits(log: Seq<EntryView>, root: Seq<char>, i: int)
    requires
        0 <= i < log.len(),
        !log[i].is_dir,
    ensures
        log[i].size <= history::size_below(log, root, history::home(log[i])),
    decreases log.len(),
{
    if i < log.len() - 1 {
        assert(log.drop_last()[i] == log[i]);
        lemma_entry_fits(log.drop_last(), root, i);
    }
}

/// What is below a directory is untouched by the entries reported before it.
proof fn lemma_child_untouched(
    log: Seq<EntryView>,
    n: int,
    root: Seq<char>,
    stop: Seq<char>,
    dir: Seq<char>,
    rest: Map<Seq<char>, Seq<NodeView>>,
    now: Map<Seq<char>, Seq<NodeView>>,
)
    requires
        orderly(log, stop),
        0 < n <= log.len(),
        log[n - 1].is_dir,
        history::home(log[n - 1]) == dir,
        forall|q: Seq<char>|
            history::is_known(log, root, q) && #[trigger] history::on_way_up(q, stop, dir) && q
                != dir ==> rest.contains_key(q) && rest[q] == history::listed_in(log, q),
        forall|q: Seq<char>|
            !(#[trigger] passes(log.take(n - 1), stop, q, dir)) ==> same_at(now, rest, q),
    ensures
        holds_below(now, log, root, stop, history::path_of(log[n - 1])),
{
    let child = history::path_of(log[n - 1]);
    let part = log.take(n);
    assert(part.drop_last() =~= log.take(n - 1));
    lemma_orderly_prefix(log, stop, n);
    lemma_plain_entry(log[n - 1], log[n - 1].parent);
    assert forall|q: Seq<char>|
        history::is_known(log, root, q) && #[trigger] history::on_way_up(q, stop, child) implies
        now.contains_key(q) && now[q] == history::listed_in(log, q) by {
        lemma_way_through(q, stop, child, dir);
        history::lemma_way_up_shorter(q, stop, child);
        paths::lemma_parent_shorter(child);
        lemma_not_twice(part, stop, q);
        assert(same_at(now, rest, q));
    }
}

proof fn lemma_gathered_bounded(
    v: DirectoriesView,
    log: Seq<EntryView>,
    root: Seq<char>,
    root_mtime: Option<Timestamp>,
    path: Seq<char>,
    unused: Map<Seq<char>, Seq<NodeView>>,
    depth: nat,
)
    requires
        orderly(log, root),
        v == history::directories_after(log, root, root_mtime),
        history::is_known(log, root, paths::tidied(path)),
        unused.dom().finite(),
        unused.dom().len() <= depth,
        holds_below(unused, log, root, root, paths::tidied(path)),
    ensures
        ({
            let made = v.gathered(path, unused, depth);
            &&& bounded(made.node, log, root, path)
            &&& made.node.is_dir
            &&& made.node.name == paths::file_name_of(path)
            &&& made.node.mtime == v.mtime(path)
            &&& made.unused.dom().subset_of(unused.dom())
            &&& forall|q: Seq<char>|
                !(#[trigger] history::on_way_up(q, root, paths::tidied(path))) ==> same_at(
                    made.unused,
                    unused,
                    q,
                )
        }),
    decreases depth, 1nat, 0int,
{
    let dir = paths::tidied(path);
    let made = v.gathered(path, unused, depth);
    let listed = history::listed_in(log, dir);
    let rest = unused.remove(dir);
    assert(history::on_way_up(dir, root, dir));
    assert(unused.contains_key(dir) && unused[dir] == listed);
    assert(rest.dom() =~= unused.dom().remove(dir));
    assert(log.take(log.len() as int) =~= log);
    lemma_entries_bounded(v, log, log.len() as int, root, root_mtime, path, rest, depth);
    let below = v.gathered_entries(path, listed, rest, depth);
    let top = v.top_files(path);
    let all = below.0 + top;
    assert(made.node == v.directory_of(path, all));
    lemma_top_files(log, root, root_mtime, path);
    lemma_sums_joined(below.0, top);
    lemma_weight_split(Measure::Bytes, log, log.len() as int, root, dir);
    lemma_weight_split(Measure::Entries, log, log.len() as int, root, dir);
    lemma_bytes_below(log, root, dir);
    history::lemma_counts_bounded(log, dir);
    if !history::has_size(log, root, dir) {
        history::lemma_no_size(log, root, dir);
    }
    assert(v.size(path) == history::size_below(log, root, dir));
    if history::files_in(log, dir).len() <= history::LARGE_DIR_FILE_THRESHOLD {
        assert(!v.aggregated.contains_key(dir));
        assert(all =~= below.0);
    } else {
        assert(v.aggregated.contains_key(dir));
    }
    assert(made.node.size <= history::size_below(log, root, dir));
    contents::lemma_counts(log, path);
    contents::lemma_whole_lists(log, root, root_mtime, path, below.0);
    lemma_total_weighed(all);
    assert forall|i: int|
        0 <= i < all.len() && (#[trigger] all[i]).is_dir implies contents::is_complete(
        all[i],
        log,
        paths::joined(path, all[i].name),
    ) by {
        if i < below.0.len() {
            assert(all[i] == below.0[i]);
        } else {
            assert(all[i] == top[i - below.0.len()]);
        }
    }
    if sizes_fit(log, root) && log.len() <= usize::MAX {
        assert forall|i: int| 0 <= i < made.node.children.len() implies assembly::fits(
            #[trigger] made.node.children[i],
        ) by {
            if i < below.0.len() {
                assert(made.node.children[i] == below.0[i]);
            } else {
                assert(made.node.children[i] == top[i - below.0.len()]);
            }
        }
    }
    if connected(log, root) {
        assert forall|i: int|
            0 <= i < made.node.children.len() && (
            #[trigger] made.node.children[i]).is_dir implies sizes_agree(
            made.node.children[i],
            log,
            root,
            paths::joined(path, made.node.children[i].name),
        ) by {
            if i < below.0.len() {
                assert(made.node.children[i] == below.0[i]);
            } else {
                assert(made.node.children[i] == top[i - below.0.len()]);
            }
        }
    }
    assert forall|q: Seq<char>| !(#[trigger] history::on_way_up(q, root, dir)) implies same_at(
        made.unused,
        unused,
        q,
    ) by {
        if passes(log, root, q, dir) {
            let j = lemma_passes(log, root, q, dir);
            lemma_plain_entry(log[j], log[j].parent);
            lemma_way_through(q, root, history::path_of(log[j]), dir);
        }
        assert(same_at(below.1, rest, q));
    }
}

proof fn lemma_total_weighed(nodes: Seq<NodeView>)
    ensures
        assembly::total_size(nodes) == sorting::weigh(nodes, |n: NodeView| n.size),
    decreases nodes.len(),
{
    if nodes.len() > 0 {
        lemma_total_weighed(nodes.drop_last());
    }
}

/// The files kept of those not listed are files as they were reported.
proof fn lemma_top_files(
    log: Seq<EntryView>,
    root: Seq<char>,
    root_mtime: Option<Timestamp>,
    path: Seq<char>,
)
    ensures
        ({
            let top = history::directories_after(log, root, root_mtime).top_files(path);
            forall|i: int|
                0 <= i < top.len() ==> {
                    &&& !(#[trigger] top[i]).is_dir
                    &&& top[i].error_count == 0
                    &&& sizes_fit(log, root) ==> assembly::fits(top[i])
                }
        }),
{
    broadcast use vstd::seq_lib::group_to_multiset_ensures;

    let top = history::directories_after(log, root, root_mtime).top_files(path);
    let dir = paths::tidied(path);
    let files = history::files_in(log, dir);
    let beyond = files.skip(history::LARGE_DIR_FILE_THRESHOLD as int);
    let dropped = aggregation::largest_files_are_kept(beyond);
    assert forall|i: int| 0 <= i < top.len() implies {
        &&& !(#[trigger] top[i]).is_dir
        &&& top[i].error_count == 0
        &&& sizes_fit(log, root) ==> assembly::fits(top[i])
    } by {
        assert(top.contains(top[i]));
        assert(top.to_multiset().count(top[i]) > 0);
        assert(beyond.to_multiset().count(top[i]) > 0);
        assert(beyond.contains(top[i]));
        let k = choose|k: int| 0 <= k < beyond.len() && beyond[k] == top[i];
        lemma_file_reported(log, root, dir, k + history::LARGE_DIR_FILE_THRESHOLD);
    }
}

proof fn lemma_file_reported(log: Seq<EntryView>, root: Seq<char>, dir: Seq<char>, i: int)
    requires
        0 <= i < history::files_in(log, dir).len(),
    ensures
        !history::files_in(log, dir)[i].is_dir,
        history::files_in(log, dir)[i].error_count == 0,
        history::size_below(log, root, dir) <= u64::MAX ==> assembly::fits(
            history::files_in(log, dir)[i],
        ),
    decreases log.len(),
{
    if log.len() > 0 {
        let before = history::files_in(log.drop_last(), dir);
        if i < before.len() {
            lemma_file_reported(log.drop_last(), root, dir, i);
        } else {
            assert(history::files_in(log, dir)[i] == history::node_of(log.last()));
        }
    }
}

proof fn lemma_sums_joined(nodes: Seq<NodeView>, files: Seq<NodeView>)
    requires
        forall|i: int|
            0 <= i < files.len() ==> !(#[trigger] files[i]).is_dir && files[i].error_count == 0,
    ensures
        assembly::total_errors(nodes + files) == assembly::total_errors(nodes),
        directories::dirs_among(nodes + files) == directories::dirs_among(nodes),
    decreases files.len(),
{
    if files.len() > 0 {
        lemma_sums_joined(nodes, files.drop_last());
        assert((nodes + files).drop_last() =~= nodes + files.drop_last());
        assert(!files[files.len() - 1].is_dir);
    } else {
        assert(nodes + files =~= nodes);
    }
}

proof fn lemma_known_finite(log: Seq<EntryView>, root: Seq<char>)
    ensures
        Set::new(|dir: Seq<char>| history::is_known(log, root, dir)).finite(),
    decreases log.len(),
{
    let all = Set::new(|dir: Seq<char>| history::is_known(log, root, dir));
    if log.len() == 0 {
        assert(all =~= Set::empty().insert(paths::tidied(root)));
    } else {
        lemma_known_finite(log.drop_last(), root);
        let before = Set::new(|dir: Seq<char>| history::is_known(log.drop_last(), root, dir));
        let more = before.insert(history::home(log.last())).insert(history::path_of(log.last()));
        assert(all.subset_of(more));
        vstd::set_lib::lemma_set_subset_finite(more, all);
    }
}

proof fn lemma_whole_bounded(
    log: Seq<EntryView>,
    root: Seq<char>,
    root_mtime: Option<Timestamp>,
)
    requires
        orderly(log, root),
    ensures
        bounded(
            history::directories_after(log, root, root_mtime).whole(root).node,
            log,
            root,
            root,
        ),
{
    let v = history::directories_after(log, root, root_mtime);
    lemma_known_finite(log, root);
    assert(v.children.dom() =~= Set::new(|dir: Seq<char>| history::is_known(log, root, dir)));
    assert(log.take(0) =~= Seq::<EntryView>::empty());
    lemma_known_prefix(log, 0, root, paths::tidied(root));
    lemma_gathered_bounded(v, log, root, root_mtime, root, v.children, v.children.dom().len());
}

/// A path that no directory with a plain name has, so that no way up ends at
/// it.
spec fn nowhere() -> Seq<char> {
    seq!['.', '.']
}

proof fn lemma_nowhere(log: Seq<EntryView>)
    requires
        reported_once(log),
    ensures
        orderly(log, nowhere()),
{
    let stop = nowhere();
    assert(paths::last_place_of(stop, '/') == -1) by {
        paths::lemma_last_place(stop, '/');
    }
    assert(paths::tidied(stop) == stop);
    assert(paths::last_part(stop) =~= stop);
    assert(paths::file_name_of(stop) == stop);
    assert forall|i: int| 0 <= i < log.len() && (#[trigger] log[i]).is_dir implies {
        &&& paths::is_plain(log[i].name)
        &&& history::path_of(log[i]) != paths::tidied(stop)
    } by {
        lemma_plain_entry(log[i], log[i].parent);
    }
}

proof fn lemma_entries_nested(
    v: DirectoriesView,
    log: Seq<EntryView>,
    n: int,
    root: Seq<char>,
    root_mtime: Option<Timestamp>,
    path: Seq<char>,
    rest: Map<Seq<char>, Seq<NodeView>>,
    depth: nat,
)
    requires
        orderly(log, nowhere()),
        v == history::directories_after(log, root, root_mtime),
        0 <= n <= log.len(),
        rest.dom().finite(),
        rest.dom().len() < depth,
        forall|q: Seq<char>|
            history::is_known(log, root, q) && #[trigger] history::on_way_up(
                q,
                nowhere(),
                paths::tidied(path),
            ) && q != paths::tidied(path) ==> rest.contains_key(q) && rest[q]
                == history::listed_in(log, q),
    ensures
        ({
            let dir = paths::tidied(path);
            let part = log.take(n);
            let listed = history::listed_in(part, dir);
            let below = v.gathered_entries(path, listed, rest, depth);
            &&& below.0 == listed.map_values(assembly::filled(v, path, depth))
            &&& forall|q: Seq<char>|
                !(#[trigger] passes(part, nowhere(), q, dir)) ==> same_at(below.1, rest, q)
            &&& below.1.dom().subset_of(rest.dom())
        }),
    decreases depth, 0nat, n,
{
    let stop = nowhere();
    let dir = paths::tidied(path);
    let part = log.take(n);
    let listed = history::listed_in(part, dir);
    let below = v.gathered_entries(path, listed, rest, depth);
    let f = assembly::filled(v, path, depth);
    if n > 0 {
        let before = log.take(n - 1);
        assert(part.drop_last() =~= before);
        lemma_entries_nested(v, log, n - 1, root, root_mtime, path, rest, depth);
        let entry = log[n - 1];
        assert(part.last() == entry);
        let fewer = history::listed_in(before, dir);
        let first = v.gathered_entries(path, fewer, rest, depth);
        if history::home(entry) == dir && (entry.is_dir || history::files_in(before, dir).len()
            < history::LARGE_DIR_FILE_THRESHOLD) {
            let node = history::node_of(entry);
            assert(listed.drop_last() =~= fewer);
            if entry.is_dir {
                let child = history::path_of(entry);
                let child_path = paths::joined(path, entry.name);
                lemma_plain_entry(entry, path);
                lemma_child_untouched(log, n, root, stop, dir, rest, first.1);
                vstd::set_lib::lemma_len_subset(first.1.dom(), rest.dom());
                assert(history::is_known(part, root, child));
                lemma_known_prefix(log, n, root, child);
                lemma_gathered_nested(
                    v,
                    log,
                    root,
                    root_mtime,
                    child_path,
                    first.1,
                    (depth - 1) as nat,
                );
                let made = v.gathered(child_path, first.1, (depth - 1) as nat);
                assert(below.1 == made.unused);
                assert forall|q: Seq<char>| !(#[trigger] passes(part, stop, q, dir)) implies same_at(
                    below.1,
                    rest,
                    q,
                ) by {
                    assert(!passes(before, stop, q, dir));
                    assert(!history::on_way_up(q, stop, child));
                    assert(same_at(made.unused, first.1, q));
                }
            }
            assert(below.0 == first.0.push(f(node)));
            assert(listed.map_values(f) =~= fewer.map_values(f).push(f(node)));
        }
        assert forall|q: Seq<char>| !(#[trigger] passes(part, stop, q, dir)) implies same_at(
            below.1,
            rest,
            q,
        ) by {
            assert(!passes(before, stop, q, dir));
        }
    } else {
        assert(below.0 =~= listed.map_values(f));
    }
}

proof fn lemma_gathered_nested(
    v: DirectoriesView,
    log: Seq<EntryView>,
    root: Seq<char>,
    root_mtime: Option<Timestamp>,
    path: Seq<char>,
    unused: Map<Seq<char>, Seq<NodeView>>,
    depth: nat,
)
    requires
        orderly(log, nowhere()),
        v == history::directories_after(log, root, root_mtime),
        history::is_known(log, root, paths::tidied(path)),
        unused.dom().finite(),
        unused.dom().len() <= depth,
        holds_below(unused, log, root, nowhere(), paths::tidied(path)),
    ensures
        ({
            let made = v.gathered(path, unused, depth);
            &&& made.node == v.nested(path, depth)
            &&& made.unused.dom().subset_of(unused.dom())
            &&& forall|q: Seq<char>|
                !(#[trigger] history::on_way_up(q, nowhere(), paths::tidied(path))) ==> same_at(
                    made.unused,
                    unused,
                    q,
                )
        }),
    decreases depth, 1nat, 0int,
{
    let stop = nowhere();
    let dir = paths::tidied(path);
    let made = v.gathered(path, unused, depth);
    let listed = history::listed_in(log, dir);
    let rest = unused.remove(dir);
    assert(history::on_way_up(dir, stop, dir));
    assert(unused.contains_key(dir) && unused[dir] == listed);
    assert(rest.dom() =~= unused.dom().remove(dir));
    assert(log.take(log.len() as int) =~= log);
    lemma_entries_nested(v, log, log.len() as int, root, root_mtime, path, rest, depth);
    assert(v.entries(path) == listed);
    assembly::lemma_nested(v, path, depth);
    let below = v.gathered_entries(path, listed, rest, depth);
    assert forall|q: Seq<char>| !(#[trigger] history::on_way_up(q, stop, dir)) implies same_at(
        made.unused,
        unused,
        q,
    ) by {
        if passes(log, stop, q, dir) {
            let j = lemma_passes(log, stop, q, dir);
            lemma_plain_entry(log[j], log[j].parent);
            lemma_way_through(q, stop, history::path_of(log[j]), dir);
        }
        assert(same_at(below.1, rest, q));
    }
}

/// Where each directory is reported once, the final tree is every directory
/// with the entries that are listed of it, put one into the other.
pub proof fn orderly_trees_nest(
    log: Seq<EntryView>,
    root: Seq<char>,
    root_mtime: Option<Timestamp>,
)
    requires
        reported_once(log),
    ensures
        ({
            let v = history::directories_after(log, root, root_mtime);
            v.whole(root).node == v.nested(root, v.children.dom().len())
        }),
{
    let v = history::directories_after(log, root, root_mtime);
    lemma_nowhere(log);
    lemma_known_finite(log, root);
    assert(v.children.dom() =~= Set::new(|dir: Seq<char>| history::is_known(log, root, dir)));
    assert(log.take(0) =~= Seq::<EntryView>::empty());
    lemma_known_prefix(log, 0, root, paths::tidied(root));
    lemma_gathered_nested(v, log, root, root_mtime, root, v.children, v.children.dom().len());
}

/// Where each directory is reported once, every number in the final tree fits
/// the machine, so that there is one.
pub proof fn orderly_trees_fit(
    log: Seq<EntryView>,
    root: Seq<char>,
    root_mtime: Option<Timestamp>,
)
    requires
        orderly(log, root),
        sizes_fit(log, root),
        log.len() <= usize::MAX,
    ensures
        assembly::fits(history::directories_after(log, root, root_mtime).whole(root).node),
{
    lemma_whole_bounded(log, root, root_mtime);
}

/// In the final tree the size of every directory is that of all files
/// reported below it, and the size of the whole tree that of all files, where
/// every entry stands in a directory that was itself reported.
pub proof fn sizes_account_for_every_file(
    log: Seq<EntryView>,
    root: Seq<char>,
    root_mtime: Option<Timestamp>,
)
    requires
        orderly(log, root),
        connected(log, root),
    ensures
        ({
            let node = tree::sorted_deeply(
                history::directories_after(log, root, root_mtime).whole(root).node,
            );
            &&& sizes_agree(node, log, root, root)
            &&& node.size == history::total_bytes(log)
            &&& node.error_count == 0
        }),
{
    let node = history::directories_after(log, root, root_mtime).whole(root).node;
    lemma_whole_bounded(log, root, root_mtime);
    lemma_sorted_agrees(node, log, root, root);
    assert(log.take(log.len() as int) =~= log);
    lemma_all_below_root(log, log.len() as int, root);
}

pub(crate) proof fn lemma_nodes_weighed(nodes: Seq<NodeView>)
    ensures
        profile::nodes_among(nodes) == sorting::weigh(nodes, profile::node_counter()),
    decreases nodes.len(),
{
    if nodes.len() > 0 {
        lemma_nodes_weighed(nodes.drop_last());
    }
}

proof fn lemma_nodes_sorted(nodes: Seq<NodeView>, le: spec_fn(NodeView, NodeView) -> bool)
    ensures
        profile::nodes_among(sorting::stably_sorted(nodes, le)) == profile::nodes_among(nodes),
{
    lemma_nodes_weighed(nodes);
    lemma_nodes_weighed(sorting::stably_sorted(nodes, le));
    sorting::lemma_sorted_weight(nodes, le, profile::node_counter());
}

/// Sorting a tree deeply keeps its nodes.
proof fn lemma_nodes_sorted_deeply(node: NodeView)
    ensures
        profile::nodes_in(tree::sorted_deeply(node)) == profile::nodes_in(node),
    decreases node, 1nat, 0nat,
{
    let kids = tree::all_sorted_deeply(node.children);
    lemma_nodes_sorted(kids, ChildOrder::SizeDesc.relation());
    lemma_nodes_sorted_each(node, node.children.len());
    assert(node.children.take(node.children.len() as int) =~= node.children);
    assert(kids.take(kids.len() as int) =~= kids);
}

proof fn lemma_nodes_sorted_each(node: NodeView, n: nat)
    requires
        n <= node.children.len(),
    ensures
        profile::nodes_among(tree::all_sorted_deeply(node.children).take(n as int))
            == profile::nodes_among(node.children.take(n as int)),
    decreases node, 0nat, n,
{
    let kids = tree::all_sorted_deeply(node.children);
    if n > 0 {
        lemma_nodes_sorted_each(node, (n - 1) as nat);
        assert(kids.take(n as int).drop_last() =~= kids.take(n - 1));
        assert(node.children.take(n as int).drop_last() =~= node.children.take(n - 1));
        let child = node.children[n - 1];
        assert(kids[n - 1] == tree::sorted_child(child));
        if child.is_dir {
            lemma_nodes_sorted_deeply(child);
        }
    } else {
        assert(kids.take(0) =~= node.children.take(0));
    }
}

proof fn lemma_all_entries_below(log: Seq<EntryView>, n: int, root: Seq<char>)
    requires
        orderly(log, root),
        connected(log, root),
        0 <= n <= log.len(),
    ensures
        weight_below(Measure::Entries, log.take(n), root, paths::tidied(root)) == n,
    decreases n,
{
    if n > 0 {
        assert(log.take(n).drop_last() =~= log.take(n - 1));
        assert(log.take(n).last() == log[n - 1]);
        lemma_all_entries_below(log, n - 1, root);
        lemma_way_to_root(log, root, n - 1);
    }
}

/// The final tree has a node for each entry that was reported, besides that
/// of the directory where the scan started, where no directory has more files
/// than are listed and every entry stands in a directory that was itself
/// reported.
pub proof fn every_entry_has_a_node(
    log: Seq<EntryView>,
    root: Seq<char>,
    root_mtime: Option<Timestamp>,
)
    requires
        orderly(log, root),
        connected(log, root),
        all_listed(log),
    ensures
        profile::nodes_in(
            tree::sorted_deeply(
                history::directories_after(log, root, root_mtime).whole(root).node,
            ),
        ) == 1 + log.len(),
{
    lemma_whole_bounded(log, root, root_mtime);
    lemma_nodes_sorted_deeply(history::directories_after(log, root, root_mtime).whole(root).node);
    assert(log.take(log.len() as int) =~= log);
    lemma_all_entries_below(log, log.len() as int, root);
}

/// The final tree has what was reported: every directory all directories in it,
/// and all its files or, of very many, the first and the largest of the others.
/// Each child says what was reported of it, each directory how many entries it
/// has and, where they are all listed, their sizes together.
pub proof fn final_trees_hold_what_was_reported(
    log: Seq<EntryView>,
    root: Seq<char>,
    root_mtime: Option<Timestamp>,
)
    requires
        orderly(log, root),
    ensures
        contents::is_complete(
            tree::sorted_deeply(
                history::directories_after(log, root, root_mtime).whole(root).node,
            ),
            log,
            root,
        ),
        tree::sorted_deeply(
            history::directories_after(log, root, root_mtime).whole(root).node,
        ).mtime == root_mtime,
{
    lemma_whole_bounded(log, root, root_mtime);
    contents::the_root_keeps_its_time(log, root, root_mtime);
    contents::lemma_sorted_complete(
        history::directories_after(log, root, root_mtime).whole(root).node,
        log,
        root,
    );
}

/// Even where an entry stands in a directory that was not reported, no size
/// in the final tree counts a file twice.
pub proof fn sizes_count_nothing_twice(
    log: Seq<EntryView>,
    root: Seq<char>,
    root_mtime: Option<Timestamp>,
)
    requires
        orderly(log, root),
    ensures
        tree::sorted_deeply(
            history::directories_after(log, root, root_mtime).whole(root).node,
        ).size <= history::total_bytes(log),
{
    lemma_whole_bounded(log, root, root_mtime);
    history::lemma_size_bounded(log, root, paths::tidied(root));
}

proof fn lemma_all_below_root(log: Seq<EntryView>, n: int, root: Seq<char>)
    requires
        orderly(log, root),
        connected(log, root),
        0 <= n <= log.len(),
    ensures
        history::size_below(log.take(n), root, paths::tidied(root)) == history::total_bytes(
            log.take(n),
        ),
    decreases n,
{
    if n > 0 {
        assert(log.take(n).drop_last() =~= log.take(n - 1));
        assert(log.take(n).last() == log[n - 1]);
        lemma_all_below_root(log, n - 1, root);
        lemma_way_to_root(log, root, n - 1);
    }
}

/// Sorting a tree deeply keeps its sizes.
proof fn lemma_sorted_agrees(
    node: NodeView,
    log: Seq<EntryView>,
    root: Seq<char>,
    path: Seq<char>,
)
    requires
        sizes_agree(node, log, root, path),
    ensures
        sizes_agree(tree::sorted_deeply(node), log, root, path),
    decreases node,
{
    let sorted = tree::sorted_deeply(node);
    let kids = tree::all_sorted_deeply(node.children);
    let le = ChildOrder::SizeDesc.relation();
    sorting::lemma_sorted_len(kids, le);
    assert forall|i: int|
        0 <= i < sorted.children.len() && (
        #[trigger] sorted.children[i]).is_dir implies sizes_agree(
        sorted.children[i],
        log,
        root,
        paths::joined(path, sorted.children[i].name),
    ) by {
        sorting::lemma_sorted_contains(kids, le, i);
        let k = choose|k: int| 0 <= k < kids.len() && kids[k] == sorted.children[i];
        assert(kids[k] == tree::sorted_child(node.children[k]));
        assert(node.children[k].is_dir);
        lemma_sorted_agrees(
            node.children[k],
            log,
            root,
            paths::joined(path, node.children[k].name),
        );
    }
}

/// A directory that is listed was reported.
proof fn lemma_listed_reported(log: Seq<EntryView>, dir: Seq<char>, i: int) -> (j: int)
    requires
        0 <= i < history::listed_in(log, dir).len(),
        history::listed_in(log, dir)[i].is_dir,
    ensures
        0 <= j < log.len(),
        log[j].is_dir,
        history::home(log[j]) == dir,
        log[j].name == history::listed_in(log, dir)[i].name,
    decreases log.len(),
{
    let before = history::listed_in(log.drop_last(), dir);
    if i < before.len() {
        lemma_listed_reported(log.drop_last(), dir, i)
    } else {
        log.len() - 1
    }
}

/// What is shown of the first `n` entries of a directory has exact sizes.
proof fn lemma_shown_agrees(
    v: DirectoriesView,
    log: Seq<EntryView>,
    root: Seq<char>,
    root_mtime: Option<Timestamp>,
    path: Seq<char>,
    n: int,
    depth: nat,
)
    requires
        orderly(log, root),
        v == history::directories_after(log, root, root_mtime),
        0 <= n <= history::listed_in(log, paths::tidied(path)).len(),
    ensures
        ({
            let shown = v.shown(path, history::listed_in(log, paths::tidied(path)).take(n), depth);
            forall|i: int|
                0 <= i < shown.len() && (#[trigger] shown[i]).is_dir ==> sizes_agree(
                    shown[i],
                    log,
                    root,
                    paths::joined(path, shown[i].name),
                )
        }),
    decreases depth, 0nat, n,
{
    let listed = history::listed_in(log, paths::tidied(path));
    let part = listed.take(n);
    if n > 0 && depth > 0 {
        assert(part.drop_last() =~= listed.take(n - 1));
        lemma_shown_agrees(v, log, root, root_mtime, path, n - 1, depth);
        let entry = listed[n - 1];
        assert(part.last() == entry);
        if entry.is_dir {
            let j = lemma_listed_reported(log, paths::tidied(path), n - 1);
            lemma_plain_entry(log[j], path);
            lemma_shallow_agrees(
                v,
                log,
                root,
                root_mtime,
                paths::joined(path, entry.name),
                (depth - 1) as nat,
            );
        }
    }
}

proof fn lemma_shallow_agrees(
    v: DirectoriesView,
    log: Seq<EntryView>,
    root: Seq<char>,
    root_mtime: Option<Timestamp>,
    path: Seq<char>,
    depth: nat,
)
    requires
        orderly(log, root),
        v == history::directories_after(log, root, root_mtime),
    ensures
        sizes_agree(v.shallow(path, depth), log, root, path),
    decreases depth, 1nat, 0int,
{
    let dir = paths::tidied(path);
    let node = v.shallow(path, depth);
    if !history::has_size(log, root, dir) {
        history::lemma_no_size(log, root, dir);
    }
    if depth > 0 {
        let listed = history::listed_in(log, paths::tidied(path));
        if !history::is_known(log, root, dir) {
            history::lemma_unknown(log, root, dir);
        }
        assert(v.entries(path) =~= listed);
        assert(listed.take(listed.len() as int) =~= listed);
        lemma_shown_agrees(v, log, root, root_mtime, path, listed.len() as int, depth);
        lemma_top_files(log, root, root_mtime, path);
        let shown = v.shown(path, listed, depth);
        let top = v.top_files(path);
        let all = shown + top;
        let le = ChildOrder::DirsThenSizeDesc.relation();
        sorting::lemma_sorted_len(all, le);
        assert forall|i: int|
            0 <= i < node.children.len() && (#[trigger] node.children[i]).is_dir implies sizes_agree(
            node.children[i],
            log,
            root,
            paths::joined(path, node.children[i].name),
        ) by {
            sorting::lemma_sorted_contains(all, le, i);
            let k = choose|k: int| 0 <= k < all.len() && all[k] == node.children[i];
            if k >= shown.len() {
                assert(all[k] == top[k - shown.len()]);
            } else {
                assert(all[k] == shown[k]);
            }
        }
    }
}

/// Whatever was reported so far, no directory is shown with more files than
/// the limit while the scan runs.
pub proof fn snapshots_show_few_files(
    log: Seq<EntryView>,
    root: Seq<char>,
    root_mtime: Option<Timestamp>,
    dir: Seq<char>,
    depth: nat,
)
    ensures
        directories::shows_few_files(
            history::directories_after(log, root, root_mtime).shallow(dir, depth),
        ),
{
    let v = history::directories_after(log, root, root_mtime);
    assert forall|path: Seq<char>|
        (#[trigger] v.top_files(path)).len() <= aggregation::TOP_FILES_TO_KEEP
            && directories::all_files(v.top_files(path)) by {
        lemma_top_files(log, root, root_mtime, path);
        let beyond = history::files_in(log, paths::tidied(path)).skip(
            history::LARGE_DIR_FILE_THRESHOLD as int,
        );
        let dropped = aggregation::largest_files_are_kept(beyond);
    }
    directories::shown_nodes_have_few_files(v, dir, depth);
}

/// Also while the scan runs, the size of every directory shown is that of all
/// files reported below it so far.
pub proof fn snapshot_sizes_are_exact(
    log: Seq<EntryView>,
    root: Seq<char>,
    root_mtime: Option<Timestamp>,
    depth: nat,
)
    requires
        orderly(log, root),
    ensures
        sizes_agree(
            history::directories_after(log, root, root_mtime).shallow(root, depth),
            log,
            root,
            root,
        ),
{
    lemma_shallow_agrees(
        history::directories_after(log, root, root_mtime),
        log,
        root,
        root_mtime,
        root,
        depth,
    );
}

} // verus!
