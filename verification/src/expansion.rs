//! All children of one directory, read anew.

use crate::node::{FileNode, NodeView};
use crate::tree::{arrange, ChildOrder};
use crate::worker::{EntryKind, FileMeta};
use crate::{node, sorting, tree};
use vstd::prelude::*;

verus! {

broadcast use {node::lemma_view, node::lemma_views_push};

/// An entry of the directory, as far as the disk could be read.
#[derive(Debug)]
pub struct RawEntry {
    pub name: String,
    pub kind: EntryKind,
    pub meta: Option<FileMeta>,
}

/// What a [`RawEntry`] holds, as mathematical values.
#[verifier::ext_equal]
pub struct RawView {
    pub name: Seq<char>,
    pub kind: EntryKind,
    pub meta: Option<FileMeta>,
}

impl View for RawEntry {
    type V = RawView;

    open spec fn view(&self) -> RawView {
        RawView { name: self.name@, kind: self.kind, meta: self.meta }
    }
}

/// The entries as mathematical values.
pub open spec fn raw_views(entries: Seq<RawEntry>) -> Seq<RawView> {
    entries.map_values(|e: RawEntry| e@)
}

/// The node of an entry, if it is a file or directory that could be looked
/// at.
pub open spec fn child_of(entry: RawView) -> Option<NodeView> {
    match entry.meta {
        Some(meta) if entry.kind == EntryKind::Directory => Some(
            tree::dir_view(entry.name, meta.mtime),
        ),
        Some(meta) if entry.kind == EntryKind::File => Some(
            tree::file_view(entry.name, meta.len as nat, meta.mtime),
        ),
        _ => None,
    }
}

/// The nodes of the entries, in the order they came in.
pub open spec fn children_of(entries: Seq<RawView>) -> Seq<NodeView>
    decreases entries.len(),
{
    if entries.len() == 0 {
        Seq::empty()
    } else {
        let before = children_of(entries.drop_last());
        match child_of(entries.last()) {
            Some(child) => before.push(child),
            None => before,
        }
    }
}

fn child_node(entry: RawEntry) -> (r: Option<FileNode>)
    ensures
        match r {
            Some(n) => child_of(entry@) == Some(n@),
            None => child_of(entry@) is None,
        },
{
    match entry.meta {
        Some(meta) => match entry.kind {
            EntryKind::Directory => Some(FileNode::new_dir(entry.name, meta.mtime)),
            EntryKind::File => Some(FileNode::new_file(entry.name, meta.len, meta.mtime)),
            EntryKind::Unknown | EntryKind::Symlink => None,
        },
        None => None,
    }
}

/// The children of a directory whose entries are these: directories first,
/// then the larger before the smaller.
pub fn expand_directory(entries: Vec<RawEntry>) -> (r: Vec<FileNode>)
    ensures
        node::views(r@) == ChildOrder::DirsThenSizeDesc.arranged(
            children_of(raw_views(entries@)),
        ),
{
    let ghost all = raw_views(entries@);
    let mut children: Vec<FileNode> = Vec::new();
    let mut i: usize = 0;
    let len = entries.len();
    assert(all.take(0) =~= Seq::<RawView>::empty());
    assert(node::views(children@) =~= Seq::<NodeView>::empty());
    for entry in it: entries
        invariant
            i == it.index(),
            it.seq() == entries@,
            len == entries@.len(),
            all == raw_views(entries@),
            node::views(children@) == children_of(all.take(i as int)),
    {
        assert(all[i as int] == entry@);
        assert(all.take(i + 1).drop_last() =~= all.take(i as int));
        if let Some(child) = child_node(entry) {
            children.push(child);
        }
        i += 1;
    }
    assert(all.take(i as int) =~= all);
    arrange(children, ChildOrder::DirsThenSizeDesc)
}

/// Whether an entry is a file or directory that could be looked at.
pub open spec fn is_readable(entry: RawView) -> bool {
    (entry.kind == EntryKind::File || entry.kind == EntryKind::Directory) && entry.meta is Some
}

/// Whether a child says of an entry what the disk does.
pub open spec fn tells_of(child: NodeView, entry: RawView) -> bool {
    &&& is_readable(entry)
    &&& child.name == entry.name
    &&& child.is_dir <==> entry.kind == EntryKind::Directory
    &&& child.mtime == (entry.meta->0).mtime
    &&& child.size == if entry.kind == EntryKind::File {
        (entry.meta->0).len as nat
    } else {
        0
    }
    &&& child.children.len() == 0
    &&& child.child_count == 0
    &&& child.error_count == 0
}

/// Whether a child tells of the entry.
pub open spec fn is_told(children: Seq<NodeView>, entry: RawView) -> bool {
    exists|k: int| 0 <= k < children.len() && #[trigger] tells_of(children[k], entry)
}

/// Whether the child tells of an entry.
pub open spec fn was_found(entries: Seq<RawView>, child: NodeView) -> bool {
    exists|i: int| 0 <= i < entries.len() && #[trigger] tells_of(child, entries[i])
}

proof fn lemma_child_for(entries: Seq<RawView>, i: int) -> (k: int)
    requires
        0 <= i < entries.len(),
        is_readable(entries[i]),
    ensures
        0 <= k < children_of(entries).len(),
        tells_of(children_of(entries)[k], entries[i]),
    decreases entries.len(),
{
    let before = children_of(entries.drop_last());
    if i < entries.len() - 1 {
        lemma_child_for(entries.drop_last(), i)
    } else {
        before.len() as int
    }
}

proof fn lemma_child_from(entries: Seq<RawView>, k: int) -> (i: int)
    requires
        0 <= k < children_of(entries).len(),
    ensures
        0 <= i < entries.len(),
        tells_of(children_of(entries)[k], entries[i]),
    decreases entries.len(),
{
    let before = children_of(entries.drop_last());
    if k < before.len() {
        lemma_child_from(entries.drop_last(), k)
    } else {
        entries.len() - 1
    }
}

proof fn lemma_children_counted(entries: Seq<RawView>)
    ensures
        children_of(entries).len() == entries.filter(|e: RawView| is_readable(e)).len(),
    decreases entries.len(),
{
    reveal(Seq::filter);
    if entries.len() > 0 {
        lemma_children_counted(entries.drop_last());
    }
}

/// A directory that is read anew has a child for each file and directory that could
/// be looked at and no other; each tells what the disk says of it, the directories
/// stand before the files, and the larger before the smaller.
pub proof fn everything_readable_is_listed(entries: Seq<RawView>)
    ensures
        ({
            let children = ChildOrder::DirsThenSizeDesc.arranged(children_of(entries));
            &&& children.len() == entries.filter(|e: RawView| is_readable(e)).len()
            &&& forall|i: int|
                0 <= i < entries.len() && is_readable(#[trigger] entries[i]) ==> is_told(
                    children,
                    entries[i],
                )
            &&& forall|k: int|
                0 <= k < children.len() ==> was_found(entries, #[trigger] children[k])
            &&& forall|i: int, j: int|
                0 <= i < j < children.len() ==> {
                    let a = #[trigger] children[i];
                    let b = #[trigger] children[j];
                    (a.is_dir || !b.is_dir) && (a.is_dir == b.is_dir ==> a.size >= b.size)
                }
        }),
{
    let found = children_of(entries);
    let order = ChildOrder::DirsThenSizeDesc;
    let le = order.relation();
    let children = order.arranged(found);
    lemma_children_counted(entries);
    tree::arranged_children_are_in_order(order, found);
    assert forall|i: int|
        0 <= i < entries.len() && is_readable(#[trigger] entries[i]) implies is_told(
        children,
        entries[i],
    ) by {
        let k = lemma_child_for(entries, i);
        sorting::lemma_sorted_holds(found, le, k);
        let m = choose|m: int| 0 <= m < children.len() && children[m] == found[k];
        assert(tells_of(children[m], entries[i]));
    }
    assert forall|k: int| 0 <= k < children.len() implies was_found(
        entries,
        #[trigger] children[k],
    ) by {
        sorting::lemma_sorted_contains(found, le, k);
        let m = choose|m: int| 0 <= m < found.len() && found[m] == children[k];
        let i = lemma_child_from(entries, m);
        assert(tells_of(children[k], entries[i]));
    }
}

} // verus!
