//! Directories with very many files: the largest files are kept, the others
//! only counted.

use crate::node;
use crate::node::{FileNode, NodeView};
use vstd::multiset::Multiset;
use vstd::prelude::*;

verus! {

broadcast use node::lemma_view;

/// How many of the largest files are kept.
pub const TOP_FILES_TO_KEEP: usize = 100;

/// The files of a directory beyond those that are listed.
#[derive(Debug)]
pub struct DirAggregation {
    /// All files of the directory, listed or not.
    pub total_file_count: usize,
    /// The largest of the files offered, in descending order of size.
    pub top_files: Vec<FileNode>,
}

/// What a [`DirAggregation`] holds, as mathematical values.
#[verifier::ext_equal]
pub struct AggregationView {
    pub total_file_count: nat,
    pub top_files: Seq<NodeView>,
}

impl View for DirAggregation {
    type V = AggregationView;

    open spec fn view(&self) -> AggregationView {
        AggregationView {
            total_file_count: self.total_file_count as nat,
            top_files: node::views(self.top_files@),
        }
    }
}

/// Whether the sizes never rise from one node to a later one.
pub open spec fn sizes_descend(nodes: Seq<NodeView>) -> bool {
    forall|i: int, j: int|
        0 <= i < j < nodes.len() ==> (#[trigger] nodes[i]).size >= (#[trigger] nodes[j]).size
}

/// How many nodes at the front are larger than `size`.
pub open spec fn larger_in_front(nodes: Seq<NodeView>, size: nat) -> nat
    decreases nodes.len(),
{
    if nodes.len() > 0 && nodes[0].size > size {
        1 + larger_in_front(nodes.drop_first(), size)
    } else {
        0
    }
}

/// The kept files after one more was offered: it comes behind all larger
/// ones, and what no longer fits falls off the end.
pub open spec fn with_offer(top: Seq<NodeView>, file: NodeView) -> Seq<NodeView> {
    let place = larger_in_front(top, file.size) as int;
    if place < TOP_FILES_TO_KEEP {
        let longer = top.insert(place, file);
        if longer.len() > TOP_FILES_TO_KEEP {
            longer.take(TOP_FILES_TO_KEEP as int)
        } else {
            longer
        }
    } else {
        top
    }
}

/// The kept files after all of `files` were offered, one after the other.
pub open spec fn kept_of(files: Seq<NodeView>) -> Seq<NodeView>
    decreases files.len(),
{
    if files.len() == 0 {
        Seq::empty()
    } else {
        with_offer(kept_of(files.drop_last()), files.last())
    }
}

proof fn lemma_larger_in_front(nodes: Seq<NodeView>, size: nat)
    ensures
        larger_in_front(nodes, size) <= nodes.len(),
        forall|i: int|
            0 <= i < larger_in_front(nodes, size) ==> (#[trigger] nodes[i]).size > size,
        larger_in_front(nodes, size) < nodes.len() ==> nodes[larger_in_front(
            nodes,
            size,
        ) as int].size <= size,
    decreases nodes.len(),
{
    if nodes.len() > 0 && nodes[0].size > size {
        lemma_larger_in_front(nodes.drop_first(), size);
        assert forall|i: int| 0 <= i < larger_in_front(nodes, size) implies (
        #[trigger] nodes[i]).size > size by {
            if i > 0 {
                assert(nodes.drop_first()[i - 1] == nodes[i]);
            }
        }
    }
}

/// In a descending sequence the place behind all larger nodes is the one
/// that separates them from the others.
proof fn lemma_place(nodes: Seq<NodeView>, size: nat, place: int)
    requires
        0 <= place <= nodes.len(),
        forall|i: int| 0 <= i < place ==> (#[trigger] nodes[i]).size > size,
        place < nodes.len() ==> nodes[place].size <= size,
    ensures
        larger_in_front(nodes, size) == place,
{
    lemma_larger_in_front(nodes, size);
    let n = larger_in_front(nodes, size) as int;
    if n < place {
        assert(nodes[n].size > size);
    }
}

proof fn lemma_insert_descends(top: Seq<NodeView>, file: NodeView)
    requires
        sizes_descend(top),
    ensures
        larger_in_front(top, file.size) <= top.len(),
        sizes_descend(top.insert(larger_in_front(top, file.size) as int, file)),
{
    lemma_larger_in_front(top, file.size);
    let place = larger_in_front(top, file.size) as int;
    let longer = top.insert(place, file);
    assert forall|i: int, j: int| 0 <= i < j < longer.len() implies (#[trigger] longer[i]).size >= (
    #[trigger] longer[j]).size by {
        let a = if i < place {
            top[i]
        } else if i == place {
            file
        } else {
            top[i - 1]
        };
        let b = if j < place {
            top[j]
        } else if j == place {
            file
        } else {
            top[j - 1]
        };
        assert(longer[i] == a && longer[j] == b);
        if i == place {
            assert(top[place].size <= file.size);
            if j - 1 > place {
                assert(top[place].size >= top[j - 1].size);
            }
        }
    }
}

proof fn lemma_offer_descends(top: Seq<NodeView>, file: NodeView)
    requires
        sizes_descend(top),
        top.len() <= TOP_FILES_TO_KEEP,
    ensures
        sizes_descend(with_offer(top, file)),
        with_offer(top, file).len() == if top.len() < TOP_FILES_TO_KEEP {
            top.len() + 1
        } else {
            top.len()
        },
{
    lemma_insert_descends(top, file);
}

/// What is kept after an offer was kept before or is what was offered.
pub proof fn lemma_offer_from(top: Seq<NodeView>, file: NodeView, i: int)
    requires
        0 <= i < with_offer(top, file).len(),
    ensures
        with_offer(top, file)[i] == file || top.contains(with_offer(top, file)[i]),
{
    lemma_larger_in_front(top, file.size);
    let place = larger_in_front(top, file.size) as int;
    let kept = with_offer(top, file);
    if place >= TOP_FILES_TO_KEEP || i < place {
        assert(kept[i] == top[i]);
    } else if i > place {
        assert(kept[i] == top[i - 1]);
    }
}

impl DirAggregation {
    /// No more than the limit is kept, in descending order of size.
    pub open spec fn wf(self) -> bool {
        self.top_files@.len() <= TOP_FILES_TO_KEEP && sizes_descend(self@.top_files)
    }

    pub fn new(initial_count: usize) -> (r: DirAggregation)
        ensures
            r.wf(),
            r@ == (AggregationView {
                total_file_count: initial_count as nat,
                top_files: Seq::empty(),
            }),
    {
        let r = DirAggregation {
            total_file_count: initial_count,
            top_files: Vec::with_capacity(TOP_FILES_TO_KEEP),
        };
        assert(r@.top_files =~= Seq::<NodeView>::empty());
        r
    }

    /// The first place whose file is not larger than `size`.
    fn place_for(&self, size: u64) -> (r: usize)
        requires
            self.wf(),
        ensures
            r == larger_in_front(self@.top_files, size as nat),
    {
        let mut low: usize = 0;
        let mut high: usize = self.top_files.len();
        while low < high
            invariant
                self.wf(),
                low <= high <= self.top_files@.len(),
                forall|i: int| 0 <= i < low ==> (#[trigger] self.top_files@[i]).size > size,
                forall|i: int|
                    high <= i < self.top_files@.len() ==> (#[trigger] self.top_files@[i]).size
                        <= size,
            decreases high - low,
        {
            let mid = low + (high - low) / 2;
            if self.top_files[mid].size > size {
                assert forall|i: int| 0 <= i < mid + 1 implies (
                #[trigger] self.top_files@[i]).size > size by {
                    if i < mid {
                        assert(self@.top_files[i].size >= self@.top_files[mid as int].size);
                    }
                }
                low = mid + 1;
            } else {
                assert forall|i: int| mid <= i < self.top_files@.len() implies (
                #[trigger] self.top_files@[i]).size <= size by {
                    if i > mid {
                        assert(self@.top_files[mid as int].size >= self@.top_files[i].size);
                    }
                }
                high = mid;
            }
        }
        proof {
            assert forall|i: int| 0 <= i < low implies (#[trigger] self@.top_files[i]).size
                > size by {
                assert(self.top_files@[i].size > size);
            }
            if low < self@.top_files.len() {
                assert(self.top_files@[low as int].size <= size);
            }
            lemma_place(self@.top_files, size as nat, low as int);
        }
        low
    }

    /// Counts one more file and keeps it if it is large enough.
    pub fn offer(&mut self, node: FileNode)
        requires
            old(self).wf(),
            old(self).total_file_count < usize::MAX,
        ensures
            final(self).wf(),
            final(self)@ == (AggregationView {
                total_file_count: old(self)@.total_file_count + 1,
                top_files: with_offer(old(self)@.top_files, node@),
            }),
    {
        let ghost before = self@.top_files;
        let ghost file = node@;
        proof {
            lemma_larger_in_front(before, file.size);
            lemma_offer_descends(before, file);
        }
        self.total_file_count += 1;
        let place = self.place_for(node.size);
        if place < TOP_FILES_TO_KEEP {
            self.top_files.insert(place, node);
            assert(self@.top_files =~= before.insert(place as int, file));
            self.top_files.truncate(TOP_FILES_TO_KEEP);
        }
        assert(self@.top_files =~= with_offer(before, file));
    }
}

/// Whether `kept` and `dropped` together are `files`, and nothing dropped is
/// larger than anything kept.
pub open spec fn keeps_the_largest(
    files: Seq<NodeView>,
    kept: Seq<NodeView>,
    dropped: Multiset<NodeView>,
) -> bool {
    &&& files.to_multiset() == kept.to_multiset().add(dropped)
    &&& forall|d: NodeView, i: int|
        #![trigger dropped.count(d), kept[i]]
        dropped.count(d) > 0 && 0 <= i < kept.len() ==> d.size <= kept[i].size
}

/// However many files are offered, those kept are the largest, in descending
/// order of size, and as many as there are up to the limit.
pub proof fn largest_files_are_kept(files: Seq<NodeView>) -> (dropped: Multiset<NodeView>)
    ensures
        keeps_the_largest(files, kept_of(files), dropped),
        sizes_descend(kept_of(files)),
        kept_of(files).len() == if files.len() < TOP_FILES_TO_KEEP {
            files.len() as int
        } else {
            TOP_FILES_TO_KEEP as int
        },
        files.len() <= TOP_FILES_TO_KEEP ==> dropped == Multiset::<NodeView>::empty(),
    decreases files.len(),
{
    broadcast use vstd::seq_lib::group_to_multiset_ensures;

    if files.len() == 0 {
        let none = Multiset::<NodeView>::empty();
        assert(files.to_multiset() =~= kept_of(files).to_multiset().add(none));
        none
    } else {
        let rest = files.drop_last();
        let file = files.last();
        let gone = largest_files_are_kept(rest);
        let top = kept_of(rest);
        let kept = kept_of(files);
        assert(files =~= rest.push(file));
        assert(files.to_multiset() =~= rest.to_multiset().insert(file));
        lemma_larger_in_front(top, file.size);
        lemma_offer_descends(top, file);
        let place = larger_in_front(top, file.size) as int;
        let longer = top.insert(place, file);
        if place >= TOP_FILES_TO_KEEP {
            let dropped = gone.insert(file);
            assert(files.to_multiset() =~= kept.to_multiset().add(dropped));
            assert forall|d: NodeView, i: int|
                #![trigger dropped.count(d), kept[i]]
                dropped.count(d) > 0 && 0 <= i < kept.len() implies d.size <= kept[i].size by {
                if d != file {
                    assert(gone.count(d) > 0);
                    assert(top[i] == kept[i]);
                }
            }
            dropped
        } else {
            vstd::seq_lib::to_multiset_insert(top, place, file);
            if longer.len() > TOP_FILES_TO_KEEP {
                let last = longer.last();
                assert(longer =~= kept.push(last));
                assert(longer.to_multiset() =~= kept.to_multiset().insert(last));
                let dropped = gone.insert(last);
                assert(longer.to_multiset() == top.to_multiset().insert(file));
                assert forall|v: NodeView|
                    #![trigger files.to_multiset().count(v)]
                    files.to_multiset().count(v) == kept.to_multiset().add(dropped).count(v) by {
                    assert(longer.to_multiset().count(v) == kept.to_multiset().insert(last).count(
                        v,
                    ));
                    assert(rest.to_multiset().count(v) == top.to_multiset().count(v) + gone.count(
                        v,
                    ));
                }
                assert(files.to_multiset() =~= kept.to_multiset().add(dropped));
                assert(last == top.last());
                assert forall|d: NodeView, i: int|
                    #![trigger dropped.count(d), kept[i]]
                    dropped.count(d) > 0 && 0 <= i < kept.len() implies d.size
                    <= kept[i].size by {
                    lemma_insert_descends(top, file);
                    assert(kept[i] == longer[i]);
                    if d == last {
                        assert(longer[i].size >= longer[longer.len() - 1].size);
                    } else {
                        assert(gone.count(d) > 0);
                        assert(d.size <= top[place].size);
                        if i != place {
                            let k = if i < place {
                                i
                            } else {
                                i - 1
                            };
                            assert(longer[i] == top[k]);
                        }
                    }
                }
                dropped
            } else {
                assert(files.to_multiset() =~= kept.to_multiset().add(gone));
                gone
            }
        }
    }
}

/// A file that is offered is kept behind those that are larger and before those that
/// are not, if there are few enough of the larger ones; the others keep their order,
/// and the last yields where there are too many. Otherwise nothing changes.
pub proof fn offers_stand_before_their_equals(top: Seq<NodeView>, file: NodeView, place: int)
    requires
        sizes_descend(top),
        top.len() <= 100,
        0 <= place <= top.len(),
        forall|i: int| 0 <= i < place ==> (#[trigger] top[i]).size > file.size,
        place < top.len() ==> top[place].size <= file.size,
    ensures
        ({
            let kept = with_offer(top, file);
            &&& place >= 100 ==> kept == top
            &&& place < 100 ==> {
                &&& kept.len() == if top.len() < 100 {
                    top.len() + 1
                } else {
                    100
                }
                &&& kept[place] == file
                &&& forall|i: int| 0 <= i < place ==> #[trigger] kept[i] == top[i]
                &&& forall|i: int| place < i < kept.len() ==> #[trigger] kept[i] == top[i - 1]
            }
        }),
{
    lemma_place(top, file.size, place);
}

} // verus!
