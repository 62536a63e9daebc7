//! Files and directories as the scan found them.

use vstd::prelude::*;

verus! {

/// A point in time: whole seconds since the start of 1970, negative before
/// it, and the nanoseconds past them.
#[derive(Clone, Copy, Debug, PartialEq, Eq, Structural)]
pub struct Timestamp {
    pub secs: i64,
    pub nanos: u32,
}

impl Timestamp {
    /// Whether this point lies behind the other.
    pub open spec fn later_than(self, other: Timestamp) -> bool {
        self.secs > other.secs || self.secs == other.secs && self.nanos > other.nanos
    }

    pub fn is_after(&self, other: &Timestamp) -> (r: bool)
        ensures
            r == self.later_than(*other),
    {
        self.secs > other.secs || self.secs == other.secs && self.nanos > other.nanos
    }
}

/// A file or a directory. A directory's size is that of everything below it.
#[derive(Debug)]
pub struct FileNode {
    pub name: String,
    pub size: u64,
    pub is_dir: bool,
    /// How many children there are; more than `children` holds where only
    /// the largest files of a directory were kept.
    pub child_count: usize,
    pub mtime: Option<Timestamp>,
    pub children: Vec<FileNode>,
    pub error_count: u64,
}

/// What a [`FileNode`] holds, as mathematical values.
#[verifier::ext_equal]
pub struct NodeView {
    pub name: Seq<char>,
    pub size: nat,
    pub is_dir: bool,
    pub child_count: nat,
    pub mtime: Option<Timestamp>,
    pub children: Seq<NodeView>,
    pub error_count: nat,
}

impl FileNode {
    /// The node with all that is below it.
    pub open spec fn model(self) -> NodeView
        decreases self,
    {
        NodeView {
            name: self.name@,
            size: self.size as nat,
            is_dir: self.is_dir,
            child_count: self.child_count as nat,
            mtime: self.mtime,
            children: Seq::new(
                self.children@.len(),
                |i: int|
                    if 0 <= i < self.children@.len() {
                        self.children@[i].model()
                    } else {
                        arbitrary()
                    },
            ),
            error_count: self.error_count as nat,
        }
    }
}

/// What a node that may be missing holds.
pub open spec fn seen(node: Option<&FileNode>) -> Option<NodeView> {
    match node {
        Some(n) => Some(n@),
        None => None,
    }
}

impl View for FileNode {
    type V = NodeView;

    open spec fn view(&self) -> NodeView {
        self.model()
    }
}

/// What a sequence of nodes holds.
pub open spec fn views(nodes: Seq<FileNode>) -> Seq<NodeView> {
    nodes.map_values(|n: FileNode| n@)
}

/// The view of a node is made of its fields and the views of its children.
pub broadcast proof fn lemma_view(node: FileNode)
    ensures
        #[trigger] node@ == (NodeView {
            name: node.name@,
            size: node.size as nat,
            is_dir: node.is_dir,
            child_count: node.child_count as nat,
            mtime: node.mtime,
            children: views(node.children@),
            error_count: node.error_count as nat,
        }),
{
    assert(node@.children =~= views(node.children@));
}

/// One more node is one more view.
pub broadcast proof fn lemma_views_push(nodes: Seq<FileNode>, node: FileNode)
    ensures
        #[trigger] views(nodes.push(node)) == views(nodes).push(node@),
{
    assert(views(nodes.push(node)) =~= views(nodes).push(node@));
}

impl Clone for FileNode {
    fn clone(&self) -> (r: Self)
        ensures
            r@ == self@,
        decreases self,
    {
        broadcast use lemma_view;

        let mut children: Vec<FileNode> = Vec::with_capacity(self.children.len());
        let mut i: usize = 0;
        while i < self.children.len()
            invariant
                i <= self.children.len(),
                children@.len() == i,
                forall|j: int| 0 <= j < i ==> children@[j]@ == #[trigger] self.children@[j]@,
            decreases self.children.len() - i,
        {
            let child = self.children[i].clone();
            children.push(child);
            i += 1;
        }
        assert(views(children@) =~= views(self.children@));
        FileNode {
            name: self.name.clone(),
            size: self.size,
            is_dir: self.is_dir,
            child_count: self.child_count,
            mtime: self.mtime,
            children,
            error_count: self.error_count,
        }
    }
}

/// Nodes that are the same as these.
pub fn clone_nodes(nodes: &Vec<FileNode>) -> (r: Vec<FileNode>)
    ensures
        views(r@) == views(nodes@),
{
    let mut r: Vec<FileNode> = Vec::with_capacity(nodes.len());
    let mut i: usize = 0;
    while i < nodes.len()
        invariant
            i <= nodes@.len(),
            r@.len() == i,
            forall|j: int| 0 <= j < i ==> r@[j]@ == #[trigger] nodes@[j]@,
        decreases nodes@.len() - i,
    {
        r.push(nodes[i].clone());
        i += 1;
    }
    assert(views(r@) =~= views(nodes@));
    r
}

} // verus!
