//! That the order in which the entries arrive does not matter: they come from
//! many workers at once.

use crate::assembly::Quantity;
use crate::history::EntryView;
use crate::node::{NodeView, Timestamp};
use crate::tree::ChildOrder;
use crate::{accounting, aggregation, assembly, history, paths, sorting, tree};
use vstd::prelude::*;

verus! {

/// Whether no two entries of a directory have the same name.
pub open spec fn names_once(log: Seq<EntryView>) -> bool {
    forall|i: int, j: int|
        0 <= i < j < log.len() ==> history::home(#[trigger] log[i]) != history::home(
            #[trigger] log[j],
        ) || log[i].name != log[j].name
}

/// Whether the names of directories lead down to them.
pub open spec fn plain_dirs(log: Seq<EntryView>) -> bool {
    forall|i: int|
        0 <= i < log.len() && (#[trigger] log[i]).is_dir ==> paths::is_plain(log[i].name)
}

/// Where no two entries of a directory have the same name, each directory is
/// reported once.
proof fn lemma_reported_once(log: Seq<EntryView>)
    requires
        names_once(log),
        plain_dirs(log),
    ensures
        accounting::reported_once(log),
{
    assert forall|i: int, j: int|
        0 <= i < j < log.len() && (#[trigger] log[i]).is_dir && (#[trigger] log[j]).is_dir implies
        history::path_of(log[i]) != history::path_of(log[j]) by {
        accounting::lemma_plain_entry(log[i], log[i].parent);
        accounting::lemma_plain_entry(log[j], log[j].parent);
    }
}

/// Whether no two nodes have the same name.
pub open spec fn distinct_names(nodes: Seq<NodeView>) -> bool {
    forall|i: int, j: int|
        0 <= i < j < nodes.len() ==> (#[trigger] nodes[i]).name != (#[trigger] nodes[j]).name
}

/// The place of the node with a name, if there is one.
pub open spec fn place_of(nodes: Seq<NodeView>, name: Seq<char>) -> int {
    choose|j: int| 0 <= j < nodes.len() && (#[trigger] nodes[j]).name == name
}

proof fn lemma_place_of(nodes: Seq<NodeView>, j: int)
    requires
        distinct_names(nodes),
        0 <= j < nodes.len(),
    ensures
        place_of(nodes, nodes[j].name) == j,
{
    let k = place_of(nodes, nodes[j].name);
    assert(0 <= k < nodes.len() && nodes[k].name == nodes[j].name);
    if k < j {
        assert(nodes[k].name != nodes[j].name);
    } else if j < k {
        assert(nodes[j].name != nodes[k].name);
    }
}

/// Whether two trees are the same but for the order of the children of each
/// directory.
pub open spec fn same_but_for_order(a: NodeView, b: NodeView) -> bool
    decreases a,
{
    if a.is_dir {
        &&& a == (NodeView { children: a.children, ..b })
        &&& a.children.len() == b.children.len()
        &&& distinct_names(a.children)
        &&& distinct_names(b.children)
        &&& forall|i: int|
            #![trigger a.children[i]]
            0 <= i < a.children.len() ==> {
                let j = place_of(b.children, a.children[i].name);
                0 <= j < b.children.len() && same_but_for_order(a.children[i], b.children[j])
            }
    } else {
        a == b
    }
}

/// Whether two trees are the same but for the order of children of equal size:
/// each child of a directory has one of the same name in the other, and where
/// one of two children is larger it comes first in both.
pub open spec fn same_but_for_ties(a: NodeView, b: NodeView) -> bool
    decreases a,
{
    if a.is_dir {
        &&& a == (NodeView { children: a.children, ..b })
        &&& a.children.len() == b.children.len()
        &&& distinct_names(a.children)
        &&& distinct_names(b.children)
        &&& forall|i: int|
            #![trigger a.children[i]]
            0 <= i < a.children.len() ==> {
                let j = place_of(b.children, a.children[i].name);
                0 <= j < b.children.len() && same_but_for_ties(a.children[i], b.children[j])
            }
        &&& aggregation::sizes_descend(a.children)
        &&& aggregation::sizes_descend(b.children)
    } else {
        a == b
    }
}

/// Whether two logs hold the same entries.
pub open spec fn rearranged(a: Seq<EntryView>, b: Seq<EntryView>) -> bool {
    a.to_multiset() == b.to_multiset()
}

/// An entry of one log is in the other.
proof fn lemma_found(a: Seq<EntryView>, b: Seq<EntryView>, i: int) -> (j: int)
    requires
        rearranged(a, b),
        0 <= i < a.len(),
    ensures
        0 <= j < b.len(),
        b[j] == a[i],
{
    broadcast use vstd::seq_lib::group_to_multiset_ensures;

    assert(a.contains(a[i]));
    assert(a.to_multiset().count(a[i]) > 0);
    assert(b.contains(a[i]));
    choose|j: int| 0 <= j < b.len() && b[j] == a[i]
}

/// What counts the files of `dir`.
spec fn file_of(dir: Seq<char>) -> spec_fn(EntryView) -> nat {
    |e: EntryView|
        if !e.is_dir && history::home(e) == dir {
            1
        } else {
            0
        }
}

/// What counts the entries of `dir`.
spec fn entry_of(dir: Seq<char>) -> spec_fn(EntryView) -> nat {
    |e: EntryView|
        if history::home(e) == dir {
            1
        } else {
            0
        }
}

/// What counts all files.
spec fn any_file() -> spec_fn(EntryView) -> nat {
    |e: EntryView|
        if e.is_dir {
            0
        } else {
            1
        }
}

proof fn lemma_counted(log: Seq<EntryView>, dir: Seq<char>)
    ensures
        history::files_in(log, dir).len() == sorting::weigh(log, file_of(dir)),
        history::file_total(log) == sorting::weigh(log, any_file()),
        history::files_in(log, dir).len() <= history::LARGE_DIR_FILE_THRESHOLD
            ==> history::listed_in(log, dir).len() == sorting::weigh(log, entry_of(dir)),
    decreases log.len(),
{
    if log.len() > 0 {
        lemma_counted(log.drop_last(), dir);
    }
}

/// What is listed of a directory was reported of it.
pub(crate) proof fn lemma_listed_from(log: Seq<EntryView>, dir: Seq<char>, k: int) -> (i: int)
    requires
        0 <= k < history::listed_in(log, dir).len(),
    ensures
        0 <= i < log.len(),
        history::home(log[i]) == dir,
        history::listed_in(log, dir)[k] == history::node_of(log[i]),
    decreases log.len(),
{
    if k < history::listed_in(log.drop_last(), dir).len() {
        lemma_listed_from(log.drop_last(), dir, k)
    } else {
        log.len() - 1
    }
}

/// What was reported of a directory is listed where it does not have too many
/// files.
proof fn lemma_is_listed(log: Seq<EntryView>, dir: Seq<char>, i: int) -> (k: int)
    requires
        0 <= i < log.len(),
        history::home(log[i]) == dir,
        history::files_in(log, dir).len() <= history::LARGE_DIR_FILE_THRESHOLD,
    ensures
        0 <= k < history::listed_in(log, dir).len(),
        history::listed_in(log, dir)[k] == history::node_of(log[i]),
    decreases log.len(),
{
    if i < log.len() - 1 {
        assert(log.drop_last()[i] == log[i]);
        lemma_is_listed(log.drop_last(), dir, i)
    } else {
        history::listed_in(log.drop_last(), dir).len() as int
    }
}

proof fn lemma_listed_distinct(log: Seq<EntryView>, dir: Seq<char>)
    requires
        names_once(log),
    ensures
        distinct_names(history::listed_in(log, dir)),
    decreases log.len(),
{
    if log.len() > 0 {
        let short = log.drop_last();
        assert(names_once(short)) by {
            assert forall|i: int, j: int| 0 <= i < j < short.len() implies history::home(
                #[trigger] short[i],
            ) != history::home(#[trigger] short[j]) || short[i].name != short[j].name by {
                assert(short[i] == log[i] && short[j] == log[j]);
            }
        }
        lemma_listed_distinct(short, dir);
        let before = history::listed_in(short, dir);
        let listed = history::listed_in(log, dir);
        if listed.len() > before.len() {
            assert forall|i: int, j: int| 0 <= i < j < listed.len() implies (
            #[trigger] listed[i]).name != (#[trigger] listed[j]).name by {
                if j == before.len() {
                    let k = lemma_listed_from(short, dir, i);
                    assert(log[k] == short[k]);
                    assert(log[log.len() - 1] == log.last());
                }
            }
        }
    }
}

proof fn lemma_known(log: Seq<EntryView>, root: Seq<char>, dir: Seq<char>)
    ensures
        history::is_known(log, root, dir) <==> dir == paths::tidied(root) || exists|i: int|
            0 <= i < log.len() && (history::home(#[trigger] log[i]) == dir || (log[i].is_dir
                && history::path_of(log[i]) == dir)),
    decreases log.len(),
{
    if log.len() > 0 {
        let short = log.drop_last();
        lemma_known(short, root, dir);
        if history::is_known(short, root, dir) && dir != paths::tidied(root) {
            let i = choose|i: int|
                0 <= i < short.len() && (history::home(#[trigger] short[i]) == dir || (short[i].is_dir
                    && history::path_of(short[i]) == dir));
            assert(log[i] == short[i]);
        }
        if history::is_known(log, root, dir) && !history::is_known(short, root, dir) {
            assert(log[log.len() - 1] == log.last());
        }
        if exists|i: int|
            0 <= i < log.len() && (history::home(#[trigger] log[i]) == dir || (log[i].is_dir
                && history::path_of(log[i]) == dir)) {
            let i = choose|i: int|
                0 <= i < log.len() && (history::home(#[trigger] log[i]) == dir || (log[i].is_dir
                    && history::path_of(log[i]) == dir));
            if i < short.len() {
                assert(short[i] == log[i]);
            }
        }
    }
}

proof fn lemma_known_rearranged(
    a: Seq<EntryView>,
    b: Seq<EntryView>,
    root: Seq<char>,
    dir: Seq<char>,
)
    requires
        rearranged(a, b),
        history::is_known(a, root, dir),
    ensures
        history::is_known(b, root, dir),
{
    lemma_known(a, root, dir);
    lemma_known(b, root, dir);
    if dir != paths::tidied(root) {
        let i = choose|i: int|
            0 <= i < a.len() && (history::home(#[trigger] a[i]) == dir || (a[i].is_dir
                && history::path_of(a[i]) == dir));
        let j = lemma_found(a, b, i);
        assert(history::home(b[j]) == dir || (b[j].is_dir && history::path_of(b[j]) == dir));
    }
}

proof fn lemma_time(
    log: Seq<EntryView>,
    root: Seq<char>,
    root_mtime: Option<Timestamp>,
    dir: Seq<char>,
    i: int,
)
    requires
        0 <= i < log.len(),
        log[i].is_dir,
        history::path_of(log[i]) == dir,
        forall|j: int|
            0 <= j < log.len() && j != i && (#[trigger] log[j]).is_dir ==> history::path_of(log[j])
                != dir,
    ensures
        history::has_mtime(log, root, dir),
        history::mtime_in(log, root_mtime, dir) == log[i].mtime,
    decreases log.len(),
{
    if i < log.len() - 1 {
        let short = log.drop_last();
        assert forall|j: int| 0 <= j < short.len() && j != i && (#[trigger] short[j]).is_dir implies
            history::path_of(short[j]) != dir by {
            assert(short[j] == log[j]);
        }
        lemma_time(short, root, root_mtime, dir, i);
        assert(log[log.len() - 1] == log.last());
    }
}

/// A directory that is reported once has no other entry.
proof fn lemma_no_other(log: Seq<EntryView>, i: int)
    requires
        accounting::reported_once(log),
        0 <= i < log.len(),
        log[i].is_dir,
    ensures
        forall|j: int|
            0 <= j < log.len() && j != i && (#[trigger] log[j]).is_dir ==> history::path_of(log[j])
                != history::path_of(log[i]),
{
    assert forall|j: int| 0 <= j < log.len() && j != i && (#[trigger] log[j]).is_dir implies
        history::path_of(log[j]) != history::path_of(log[i]) by {
        if j < i {
            assert(history::path_of(log[j]) != history::path_of(log[i]));
        } else {
            assert(history::path_of(log[i]) != history::path_of(log[j]));
        }
    }
}

proof fn lemma_no_time(
    log: Seq<EntryView>,
    root: Seq<char>,
    root_mtime: Option<Timestamp>,
    dir: Seq<char>,
)
    requires
        !accounting::is_reported(log, dir),
    ensures
        history::has_mtime(log, root, dir) == (dir == paths::tidied(root)),
        history::mtime_in(log, root_mtime, dir) == root_mtime,
    decreases log.len(),
{
    if log.len() > 0 {
        let short = log.drop_last();
        assert(!accounting::is_reported(short, dir)) by {
            if accounting::is_reported(short, dir) {
                let j = choose|j: int|
                    0 <= j < short.len() && (#[trigger] short[j]).is_dir && history::path_of(
                        short[j],
                    ) == dir;
                assert(log[j] == short[j]);
            }
        }
        lemma_no_time(short, root, root_mtime, dir);
        assert(log[log.len() - 1] == log.last());
    }
}

/// The time of a directory does not depend on the order of the entries.
proof fn lemma_time_rearranged(
    a: Seq<EntryView>,
    b: Seq<EntryView>,
    root: Seq<char>,
    root_mtime: Option<Timestamp>,
    path: Seq<char>,
)
    requires
        rearranged(a, b),
        accounting::reported_once(a),
        accounting::reported_once(b),
    ensures
        history::directories_after(a, root, root_mtime).mtime(path) == history::directories_after(
            b,
            root,
            root_mtime,
        ).mtime(path),
{
    let dir = paths::tidied(path);
    if accounting::is_reported(a, dir) {
        let i = choose|i: int|
            0 <= i < a.len() && (#[trigger] a[i]).is_dir && history::path_of(a[i]) == dir;
        let j = lemma_found(a, b, i);
        lemma_no_other(a, i);
        lemma_no_other(b, j);
        lemma_time(a, root, root_mtime, dir, i);
        lemma_time(b, root, root_mtime, dir, j);
    } else {
        if accounting::is_reported(b, dir) {
            let j = choose|j: int|
                0 <= j < b.len() && (#[trigger] b[j]).is_dir && history::path_of(b[j]) == dir;
            let i = lemma_found(b, a, j);
            assert(a[i].is_dir);
        }
        lemma_no_time(a, root, root_mtime, dir);
        lemma_no_time(b, root, root_mtime, dir);
    }
}

/// No two entries of a directory have the same name in any order, and the names
/// of directories lead down to them.
proof fn lemma_names_rearranged(a: Seq<EntryView>, b: Seq<EntryView>)
    requires
        rearranged(a, b),
        names_once(a),
        plain_dirs(a),
    ensures
        names_once(b),
        plain_dirs(b),
{
    assert(a.no_duplicates()) by {
        assert forall|i: int, j: int| 0 <= i < a.len() && 0 <= j < a.len() && i != j implies a[i]
            != a[j] by {
            let (low, high) = if i < j {
                (i, j)
            } else {
                (j, i)
            };
            assert(history::home(a[low]) != history::home(a[high]) || a[low].name
                != a[high].name);
        }
    }
    a.lemma_multiset_has_no_duplicates();
    b.lemma_multiset_has_no_duplicates_conv();
    assert forall|i: int, j: int| 0 <= i < j < b.len() implies history::home(#[trigger] b[i])
        != history::home(#[trigger] b[j]) || b[i].name != b[j].name by {
        let k = lemma_found(b, a, i);
        let l = lemma_found(b, a, j);
        assert(b[i] != b[j]);
        if k < l {
            assert(history::home(a[k]) != history::home(a[l]) || a[k].name != a[l].name);
        } else {
            assert(history::home(a[l]) != history::home(a[k]) || a[l].name != a[k].name);
        }
    }
    assert forall|i: int| 0 <= i < b.len() && (#[trigger] b[i]).is_dir implies paths::is_plain(
        b[i].name,
    ) by {
        let k = lemma_found(b, a, i);
        assert(a[k].is_dir);
    }
}

/// Whether each node has one of the same name, and with the same numbers,
/// among others.
spec fn matched(a: Seq<NodeView>, b: Seq<NodeView>) -> bool {
    forall|i: int|
        #![trigger a[i]]
        0 <= i < a.len() ==> exists|j: int|
            0 <= j < b.len() && a[i] == (NodeView {
                children: a[i].children,
                ..#[trigger] b[j]
            })
}

/// Nodes that are matched add up to the same.
proof fn lemma_total_matched(quantity: Quantity, a: Seq<NodeView>, b: Seq<NodeView>)
    requires
        a.len() == b.len(),
        distinct_names(a),
        matched(a, b),
    ensures
        assembly::total(quantity, a) == assembly::total(quantity, b),
    decreases a.len(),
{
    if a.len() > 0 {
        let last = a[a.len() - 1];
        let j = choose|j: int|
            0 <= j < b.len() && last == (NodeView { children: last.children, ..#[trigger] b[j] });
        let fewer = a.drop_last();
        let others = b.remove(j);
        assert forall|i: int| 0 <= i < fewer.len() implies exists|k: int|
            0 <= k < others.len() && #[trigger] fewer[i] == (NodeView {
                children: fewer[i].children,
                ..#[trigger] others[k]
            }) by {
            assert(fewer[i] == a[i]);
            let k = choose|k: int|
                0 <= k < b.len() && a[i] == (NodeView {
                    children: a[i].children,
                    ..#[trigger] b[k]
                });
            assert(a[i].name != last.name);
            if k < j {
                assert(others[k] == b[k]);
            } else {
                assert(others[k - 1] == b[k]);
            }
        }
        assert forall|i: int, k: int| 0 <= i < k < fewer.len() implies (
        #[trigger] fewer[i]).name != (#[trigger] fewer[k]).name by {
            assert(fewer[i] == a[i] && fewer[k] == a[k]);
        }
        lemma_total_matched(quantity, fewer, others);
        assembly::lemma_total_removed(quantity, b, j);
    }
}

/// Where all files are listed, a directory is what is listed of it.
proof fn lemma_plain_directory(
    log: Seq<EntryView>,
    root: Seq<char>,
    root_mtime: Option<Timestamp>,
    path: Seq<char>,
    depth: nat,
)
    requires
        history::files_in(log, paths::tidied(path)).len() <= history::LARGE_DIR_FILE_THRESHOLD,
    ensures
        ({
            let v = history::directories_after(log, root, root_mtime);
            let node = v.nested(path, depth);
            &&& node.children == history::listed_in(log, paths::tidied(path)).map_values(
                assembly::filled(v, path, depth),
            )
            &&& node == (NodeView {
                name: paths::file_name_of(path),
                size: assembly::total_size(node.children),
                is_dir: true,
                child_count: node.children.len(),
                mtime: v.mtime(path),
                children: node.children,
                error_count: assembly::total_errors(node.children),
            })
        }),
{
    let v = history::directories_after(log, root, root_mtime);
    assembly::lemma_nested(v, path, depth);
    let dir = paths::tidied(path);
    if !history::is_known(log, root, dir) {
        history::lemma_unknown(log, root, dir);
    }
    assert(v.entries(path) =~= history::listed_in(log, paths::tidied(path)));
    let f = assembly::filled(v, path, depth);
    assert(v.top_files(path) =~= Seq::<NodeView>::empty());
    assert(v.entries(path).map_values(f) + v.top_files(path) =~= v.entries(path).map_values(f));
}

/// An entry with all that is below it has the name of the entry.
proof fn lemma_filled_name(
    log: Seq<EntryView>,
    root: Seq<char>,
    root_mtime: Option<Timestamp>,
    path: Seq<char>,
    depth: nat,
    k: int,
)
    requires
        plain_dirs(log),
        0 <= k < history::listed_in(log, paths::tidied(path)).len(),
    ensures
        ({
            let entry = history::listed_in(log, paths::tidied(path))[k];
            let v = history::directories_after(log, root, root_mtime);
            assembly::filled(v, path, depth)(entry).name == entry.name
        }),
{
    let i = lemma_listed_from(log, paths::tidied(path), k);
    if log[i].is_dir {
        accounting::lemma_plain_entry(log[i], path);
        if depth > 0 {
            assembly::lemma_nested(
                history::directories_after(log, root, root_mtime),
                paths::joined(path, log[i].name),
                (depth - 1) as nat,
            );
        }
    }
}

proof fn lemma_filled_distinct(
    log: Seq<EntryView>,
    root: Seq<char>,
    root_mtime: Option<Timestamp>,
    path: Seq<char>,
    depth: nat,
)
    requires
        plain_dirs(log),
        names_once(log),
    ensures
        distinct_names(
            history::listed_in(log, paths::tidied(path)).map_values(
                assembly::filled(
                    history::directories_after(log, root, root_mtime),
                    path,
                    depth,
                ),
            ),
        ),
{
    let v = history::directories_after(log, root, root_mtime);
    let listed = history::listed_in(log, paths::tidied(path));
    let nodes = listed.map_values(assembly::filled(v, path, depth));
    lemma_listed_distinct(log, paths::tidied(path));
    assert forall|i: int, j: int| 0 <= i < j < nodes.len() implies (#[trigger] nodes[i]).name != (
    #[trigger] nodes[j]).name by {
        lemma_filled_name(log, root, root_mtime, path, depth, i);
        lemma_filled_name(log, root, root_mtime, path, depth, j);
        assert(listed[i].name != listed[j].name);
    }
}

/// The tree below a directory is the same, but for the order of children, for
/// the same entries in another order.
proof fn lemma_nested_rearranged(
    a: Seq<EntryView>,
    b: Seq<EntryView>,
    root: Seq<char>,
    root_mtime: Option<Timestamp>,
    path: Seq<char>,
    depth: nat,
)
    requires
        rearranged(a, b),
        names_once(a),
        names_once(b),
        plain_dirs(a),
        plain_dirs(b),
        accounting::all_listed(a),
    ensures
        same_but_for_order(
            history::directories_after(a, root, root_mtime).nested(path, depth),
            history::directories_after(b, root, root_mtime).nested(path, depth),
        ),
    decreases depth,
{
    let dir = paths::tidied(path);
    let va = history::directories_after(a, root, root_mtime);
    let vb = history::directories_after(b, root, root_mtime);
    let na = va.nested(path, depth);
    let nb = vb.nested(path, depth);
    let la = history::listed_in(a, dir);
    let lb = history::listed_in(b, dir);
    lemma_counted(a, dir);
    lemma_counted(b, dir);
    sorting::lemma_weigh_rearranged(a, b, file_of(dir));
    sorting::lemma_weigh_rearranged(a, b, entry_of(dir));
    assert(history::files_in(a, dir).len() <= history::LARGE_DIR_FILE_THRESHOLD);
    lemma_plain_directory(a, root, root_mtime, path, depth);
    lemma_plain_directory(b, root, root_mtime, path, depth);
    lemma_filled_distinct(a, root, root_mtime, path, depth);
    lemma_filled_distinct(b, root, root_mtime, path, depth);
    lemma_reported_once(a);
    lemma_reported_once(b);
    lemma_time_rearranged(a, b, root, root_mtime, path);
    assert forall|k: int|
        #![trigger na.children[k]]
        0 <= k < na.children.len() implies {
        let l = place_of(nb.children, na.children[k].name);
        0 <= l < nb.children.len() && same_but_for_order(na.children[k], nb.children[l])
    } by {
        let i = lemma_listed_from(a, dir, k);
        let j = lemma_found(a, b, i);
        let l = lemma_is_listed(b, dir, j);
        assert(la[k] == lb[l]);
        if la[k].is_dir && depth > 0 {
            lemma_nested_rearranged(
                a,
                b,
                root,
                root_mtime,
                paths::joined(path, la[k].name),
                (depth - 1) as nat,
            );
        } else if la[k].is_dir {
            assert(same_but_for_order(la[k], lb[l]));
        }
        assert(same_but_for_order(na.children[k], nb.children[l]));
        lemma_place_of(nb.children, l);
    }
    assert(matched(na.children, nb.children)) by {
        assert forall|k: int| 0 <= k < na.children.len() implies exists|l: int|
            0 <= l < nb.children.len() && #[trigger] na.children[k] == (NodeView {
                children: na.children[k].children,
                ..#[trigger] nb.children[l]
            }) by {
            let l = place_of(nb.children, na.children[k].name);
            assert(same_but_for_order(na.children[k], nb.children[l]));
            assert(na.children[k] == (NodeView {
                children: na.children[k].children,
                ..nb.children[l]
            }));
        }
    }
    lemma_total_matched(Quantity::Size, na.children, nb.children);
    lemma_total_matched(Quantity::Errors, na.children, nb.children);
}

/// Nodes with distinct names still have them when sorted, and none is larger
/// than one before it.
proof fn lemma_sorted_names(nodes: Seq<NodeView>)
    requires
        distinct_names(nodes),
    ensures
        ({
            let sorted = ChildOrder::SizeDesc.arranged(tree::all_sorted_deeply(nodes));
            &&& distinct_names(sorted)
            &&& aggregation::sizes_descend(sorted)
            &&& sorted.len() == nodes.len()
        }),
{
    let kids = tree::all_sorted_deeply(nodes);
    let le = ChildOrder::SizeDesc.relation();
    let sorted = ChildOrder::SizeDesc.arranged(kids);
    sorting::lemma_sorted_len(kids, le);
    assert forall|i: int| 0 <= i < kids.len() implies (#[trigger] kids[i]).name == nodes[i].name by {
        assert(kids[i] == tree::sorted_child(nodes[i]));
    }
    assert(kids.no_duplicates()) by {
        assert forall|i: int, j: int|
            0 <= i < kids.len() && 0 <= j < kids.len() && i != j implies kids[i] != kids[j] by {
            let (low, high) = if i < j {
                (i, j)
            } else {
                (j, i)
            };
            assert(nodes[low].name != nodes[high].name);
            assert(kids[low].name != kids[high].name);
        }
    }
    sorting::lemma_sorted_distinct(kids, le);
    assert forall|i: int, j: int| 0 <= i < j < sorted.len() implies (#[trigger] sorted[i]).name
        != (#[trigger] sorted[j]).name by {
        sorting::lemma_sorted_contains(kids, le, i);
        sorting::lemma_sorted_contains(kids, le, j);
        let k = choose|k: int| 0 <= k < kids.len() && kids[k] == sorted[i];
        let l = choose|l: int| 0 <= l < kids.len() && kids[l] == sorted[j];
        assert(sorted[i] != sorted[j]);
        assert(k != l);
        if k < l {
            assert(nodes[k].name != nodes[l].name);
        } else {
            assert(nodes[l].name != nodes[k].name);
        }
    }
    ChildOrder::SizeDesc.lemma_preorder();
    sorting::lemma_sorted_in_order(kids, le);
    assert forall|i: int, j: int| 0 <= i < j < sorted.len() implies (#[trigger] sorted[i]).size
        >= (#[trigger] sorted[j]).size by {
        assert(le(sorted[i], sorted[j]));
    }
}

/// Trees that are the same but for the order of children are, when sorted, the
/// same but for the order of children of equal size.
pub proof fn sorting_leaves_only_ties(a: NodeView, b: NodeView)
    requires
        a.is_dir,
        same_but_for_order(a, b),
    ensures
        same_but_for_ties(tree::sorted_deeply(a), tree::sorted_deeply(b)),
    decreases a,
{
    let ka = tree::all_sorted_deeply(a.children);
    let kb = tree::all_sorted_deeply(b.children);
    let sa = tree::sorted_deeply(a);
    let sb = tree::sorted_deeply(b);
    let le = ChildOrder::SizeDesc.relation();
    lemma_sorted_names(a.children);
    lemma_sorted_names(b.children);
    assert forall|i: int|
        #![trigger sa.children[i]]
        0 <= i < sa.children.len() implies {
        let j = place_of(sb.children, sa.children[i].name);
        0 <= j < sb.children.len() && same_but_for_ties(sa.children[i], sb.children[j])
    } by {
        sorting::lemma_sorted_contains(ka, le, i);
        let k = choose|k: int| 0 <= k < ka.len() && ka[k] == sa.children[i];
        let x = a.children[k];
        let l = place_of(b.children, x.name);
        assert(same_but_for_order(x, b.children[l]));
        assert(ka[k] == tree::sorted_child(x));
        assert(kb[l] == tree::sorted_child(b.children[l]));
        if x.is_dir {
            sorting_leaves_only_ties(x, b.children[l]);
        }
        sorting::lemma_sorted_holds(kb, le, l);
        let j = choose|j: int| 0 <= j < sb.children.len() && sb.children[j] == kb[l];
        assert(same_but_for_ties(sa.children[i], sb.children[j]));
        lemma_place_of(sb.children, j);
    }
    assert(sa == (NodeView { children: sa.children, ..sb }));
}

/// The order in which the entries arrive does not matter: the same entries in
/// another order give the same counts and the same final tree, but for the
/// order of children of equal size. No two entries of a directory may have the
/// same name, the names of directories lead down to them, and no directory has
/// more files than are listed.
pub proof fn arrival_order_does_not_matter(
    a: Seq<EntryView>,
    b: Seq<EntryView>,
    root: Seq<char>,
    root_mtime: Option<Timestamp>,
)
    requires
        rearranged(a, b),
        names_once(a),
        plain_dirs(a),
        accounting::all_listed(a),
    ensures
        a.len() == b.len(),
        history::file_total(a) == history::file_total(b),
        same_but_for_ties(
            tree::sorted_deeply(history::directories_after(a, root, root_mtime).whole(root).node),
            tree::sorted_deeply(history::directories_after(b, root, root_mtime).whole(root).node),
        ),
{
    let va = history::directories_after(a, root, root_mtime);
    let vb = history::directories_after(b, root, root_mtime);
    lemma_counted(a, paths::tidied(root));
    lemma_counted(b, paths::tidied(root));
    sorting::lemma_weigh_rearranged(a, b, any_file());
    lemma_names_rearranged(a, b);
    lemma_reported_once(a);
    lemma_reported_once(b);
    accounting::orderly_trees_nest(a, root, root_mtime);
    accounting::orderly_trees_nest(b, root, root_mtime);
    assert(va.children.dom() =~= vb.children.dom()) by {
        assert forall|dir: Seq<char>| va.children.contains_key(dir)
            == #[trigger] vb.children.contains_key(dir) by {
            if history::is_known(a, root, dir) {
                lemma_known_rearranged(a, b, root, dir);
            }
            if history::is_known(b, root, dir) {
                lemma_known_rearranged(b, a, root, dir);
            }
        }
    }
    let depth = va.children.dom().len();
    lemma_nested_rearranged(a, b, root, root_mtime, root, depth);
    assembly::lemma_nested(va, root, depth);
    sorting_leaves_only_ties(va.nested(root, depth), vb.nested(root, depth));
}

} // verus!
