//! What kinds of files a directory holds, by the endings of their names.

use crate::node;
use crate::node::{FileNode, NodeView};
use crate::text_map::TextMap;
use crate::sorting::{stable_sort, Precedence};
use crate::strings::to_lowercase;
use crate::{paths, sorting, strings};
use vstd::prelude::*;

verus! {

broadcast use node::lemma_view;

/// Endings of more bytes do not count as such.
pub const MAX_EXTENSION_BYTES: usize = 10;

/// What follows the last dot of a name, where there is a dot and not too much
/// behind it.
pub open spec fn ending_of(name: Seq<char>) -> Option<Seq<char>> {
    let dot = paths::last_place_of(name, '.');
    let ending = name.skip(dot + 1);
    if dot >= 0 && vstd::utf8::encode_utf8(ending).len() < MAX_EXTENSION_BYTES {
        Some(ending)
    } else {
        None
    }
}

/// The kind of file that a name ending stands for, if its lower case form is
/// `lower`.
pub open spec fn kind_with(lower: Option<Seq<char>>) -> Seq<char> {
    match lower {
        Some(ending) => "."@ + ending,
        None => "(no ext)"@,
    }
}

/// The kind of file that a name stands for.
pub open spec fn kind_of(name: Seq<char>) -> Seq<char> {
    kind_with(
        match ending_of(name) {
            Some(ending) => Some(strings::lowercase_of(ending)),
            None => None,
        },
    )
}

/// The ending of a name.
pub fn ending(name: &str) -> (r: Option<String>)
    ensures
        match r {
            Some(e) => ending_of(name@) == Some(e@),
            None => ending_of(name@) is None,
        },
{
    proof {
        paths::lemma_last_place(name@, '.');
    }
    let len = name.unicode_len();
    match paths::last_place(name, '.') {
        Some(dot) => {
            let rest = name.substring_char(dot + 1, len).to_string();
            assert(rest@ =~= name@.skip(dot + 1));
            if rest.as_str().as_bytes().len() < MAX_EXTENSION_BYTES {
                Some(rest)
            } else {
                None
            }
        },
        None => None,
    }
}

/// The kind of file of an ending in lower case.
pub fn kind(lower: Option<String>) -> (r: String)
    ensures
        r@ == kind_with(
            match lower {
                Some(e) => Some(e@),
                None => None,
            },
        ),
{
    match lower {
        Some(e) => ".".to_string().concat(e.as_str()),
        None => "(no ext)".to_string(),
    }
}

/// The kind of file that a name stands for.
pub fn extension(name: &str) -> (r: String)
    ensures
        r@ == kind_of(name@),
{
    match ending(name) {
        Some(e) => kind(Some(to_lowercase(e.as_str()))),
        None => kind(None),
    }
}

/// The files of one kind in a directory.
#[derive(Debug)]
pub struct ExtStat {
    pub ext: String,
    pub count: usize,
    pub size: u64,
}

/// What an [`ExtStat`] holds, as mathematical values.
#[verifier::ext_equal]
pub struct ExtView {
    pub ext: Seq<char>,
    pub count: nat,
    pub size: nat,
}

impl View for ExtStat {
    type V = ExtView;

    open spec fn view(&self) -> ExtView {
        ExtView { ext: self.ext@, count: self.count as nat, size: self.size as nat }
    }
}

/// Several kinds as mathematical values.
pub open spec fn ext_views(stats: Seq<ExtStat>) -> Seq<ExtView> {
    stats.map_values(|s: ExtStat| s@)
}

/// The place of a kind among several, or -1 where it is not among them.
pub open spec fn place_of(stats: Seq<ExtView>, ext: Seq<char>) -> int
    decreases stats.len(),
{
    if stats.len() == 0 {
        -1
    } else if stats.last().ext == ext {
        stats.len() - 1
    } else {
        place_of(stats.drop_last(), ext)
    }
}

/// The kinds with one more file counted; a new kind comes last.
pub open spec fn with_file(stats: Seq<ExtView>, ext: Seq<char>, size: nat) -> Seq<ExtView> {
    let i = place_of(stats, ext);
    if i < 0 {
        stats.push(ExtView { ext, count: 1, size })
    } else {
        stats.update(
            i,
            ExtView { ext, count: stats[i].count + 1, size: stats[i].size + size },
        )
    }
}

/// How many files of each kind there are, and how large they are together, in
/// the order in which the kinds are first met. What has no kind, as a
/// directory, is left out.
pub open spec fn tallied(kinds: Seq<Option<Seq<char>>>, sizes: Seq<nat>) -> Seq<ExtView>
    decreases kinds.len(),
{
    if kinds.len() == 0 {
        Seq::empty()
    } else {
        let before = tallied(kinds.drop_last(), sizes.drop_last());
        match kinds.last() {
            Some(ext) => with_file(before, ext, sizes.last()),
            None => before,
        }
    }
}

/// The kind of each node; directories have none.
pub open spec fn kinds_of(nodes: Seq<NodeView>) -> Seq<Option<Seq<char>>> {
    nodes.map_values(
        |n: NodeView|
            if n.is_dir {
                None
            } else {
                Some(kind_of(n.name))
            },
    )
}

pub open spec fn sizes_of(nodes: Seq<NodeView>) -> Seq<nat> {
    nodes.map_values(|n: NodeView| n.size)
}

/// Whether the sizes of all kinds fit the machine.
pub open spec fn sums_fit(stats: Seq<ExtView>) -> bool {
    forall|i: int| 0 <= i < stats.len() ==> (#[trigger] stats[i]).size <= u64::MAX
}

/// The order of kinds: the larger first.
pub struct LargerFirst {}

impl LargerFirst {
    pub open spec fn relation() -> spec_fn(ExtView, ExtView) -> bool {
        |a: ExtView, b: ExtView| a.size >= b.size
    }
}

impl Precedence<ExtStat> for LargerFirst {
    open spec fn le(&self) -> spec_fn(ExtStat, ExtStat) -> bool {
        |a: ExtStat, b: ExtStat| a.size >= b.size
    }

    proof fn preorder(&self) {
    }

    fn in_order(&self, a: &ExtStat, b: &ExtStat) -> (r: bool) {
        a.size >= b.size
    }
}

/// The kinds in the order they are shown.
pub open spec fn ranked(stats: Seq<ExtView>) -> Seq<ExtView> {
    sorting::stably_sorted(stats, LargerFirst::relation())
}

/// What is shown of the kinds of files in a directory; nothing of what is
/// none.
pub open spec fn stats_of(node: Option<NodeView>) -> Seq<ExtView> {
    match node {
        Some(n) if n.is_dir => tallied(kinds_of(n.children), sizes_of(n.children)),
        _ => Seq::empty(),
    }
}

proof fn lemma_place(stats: Seq<ExtView>, ext: Seq<char>)
    ensures
        -1 <= place_of(stats, ext) < stats.len(),
        place_of(stats, ext) >= 0 ==> stats[place_of(stats, ext)].ext == ext,
        place_of(stats, ext) < 0 ==> forall|i: int|
            0 <= i < stats.len() ==> (#[trigger] stats[i]).ext != ext,
    decreases stats.len(),
{
    if stats.len() > 0 && stats.last().ext != ext {
        lemma_place(stats.drop_last(), ext);
        if place_of(stats, ext) < 0 {
            assert forall|i: int| 0 <= i < stats.len() implies (#[trigger] stats[i]).ext != ext by {
                if i < stats.len() - 1 {
                    assert(stats.drop_last()[i] == stats[i]);
                }
            }
        }
    }
}

/// Whether no kind is listed twice.
spec fn distinct(stats: Seq<ExtView>) -> bool {
    forall|i: int, j: int|
        0 <= i < j < stats.len() ==> (#[trigger] stats[i]).ext != (#[trigger] stats[j]).ext
}

proof fn lemma_tallied_distinct(kinds: Seq<Option<Seq<char>>>, sizes: Seq<nat>)
    ensures
        distinct(tallied(kinds, sizes)),
        tallied(kinds, sizes).len() <= kinds.len(),
        forall|i: int|
            0 <= i < tallied(kinds, sizes).len() ==> (#[trigger] tallied(kinds, sizes)[i]).count
                <= kinds.len(),
    decreases kinds.len(),
{
    if kinds.len() > 0 {
        lemma_tallied_distinct(kinds.drop_last(), sizes.drop_last());
        let before = tallied(kinds.drop_last(), sizes.drop_last());
        if let Some(ext) = kinds.last() {
            lemma_place(before, ext);
        }
    }
}

/// Counting more files makes no kind smaller.
proof fn lemma_tallied_grows(kinds: Seq<Option<Seq<char>>>, sizes: Seq<nat>, n: int)
    requires
        0 <= n <= kinds.len(),
        kinds.len() == sizes.len(),
        sums_fit(tallied(kinds, sizes)),
    ensures
        sums_fit(tallied(kinds.take(n), sizes.take(n))),
    decreases kinds.len() - n,
{
    if n < kinds.len() {
        lemma_tallied_grows(kinds, sizes, n + 1);
        assert(kinds.take(n + 1).drop_last() =~= kinds.take(n));
        assert(sizes.take(n + 1).drop_last() =~= sizes.take(n));
        let before = tallied(kinds.take(n), sizes.take(n));
        let after = tallied(kinds.take(n + 1), sizes.take(n + 1));
        if let Some(ext) = kinds[n] {
            lemma_place(before, ext);
            assert(kinds.take(n + 1).last() == kinds[n]);
            assert forall|i: int| 0 <= i < before.len() implies (#[trigger] before[i]).size
                <= u64::MAX by {
                assert(after[i].size >= before[i].size);
            }
        }
    } else {
        assert(kinds.take(n) =~= kinds);
        assert(sizes.take(n) =~= sizes);
    }
}

/// The kinds of several strings, where there are any.
pub open spec fn kind_texts(kinds: Seq<Option<String>>) -> Seq<Option<Seq<char>>> {
    kinds.map_values(
        |k: Option<String>|
            match k {
                Some(text) => Some(text@),
                None => None,
            },
    )
}

pub open spec fn as_nats(sizes: Seq<u64>) -> Seq<nat> {
    sizes.map_values(|n: u64| n as nat)
}

/// Counts the files of each kind. There is no count where the sizes of one
/// kind together would not fit the machine.
pub fn tally(kinds: Vec<Option<String>>, sizes: &Vec<u64>) -> (r: Option<Vec<ExtStat>>)
    requires
        kinds@.len() == sizes@.len(),
    ensures
        match r {
            Some(stats) => {
                &&& sums_fit(tallied(kind_texts(kinds@), as_nats(sizes@)))
                &&& ext_views(stats@) == tallied(kind_texts(kinds@), as_nats(sizes@))
            },
            None => !sums_fit(tallied(kind_texts(kinds@), as_nats(sizes@))),
        },
{
    let ghost texts = kind_texts(kinds@);
    let ghost nats = as_nats(sizes@);
    let mut stats: Vec<ExtStat> = Vec::new();
    let mut places: TextMap<usize> = TextMap::new();
    let mut i: usize = 0;
    let len = kinds.len();
    assert(texts.take(0) =~= Seq::<Option<Seq<char>>>::empty());
    assert(ext_views(stats@) =~= Seq::<ExtView>::empty());
    for kind in it: kinds
        invariant
            i == it.index(),
            it.seq() == kinds@,
            len == kinds@.len(),
            len == sizes@.len(),
            texts == kind_texts(kinds@),
            nats == as_nats(sizes@),
            places.wf(),
            ext_views(stats@) == tallied(texts.take(i as int), nats.take(i as int)),
            forall|e: Seq<char>|
                #![trigger places@.contains_key(e)]
                places@.contains_key(e) ==> places@[e] < stats@.len()
                    && stats@[places@[e] as int].ext@ == e,
            forall|k: int|
                #![trigger stats@[k]]
                0 <= k < stats@.len() ==> places@.contains_key(stats@[k].ext@)
                    && places@[stats@[k].ext@] == k,
    {
        let ghost before = ext_views(stats@);
        let ghost held = stats@;
        proof {
            assert(texts.take(i + 1).drop_last() =~= texts.take(i as int));
            assert(nats.take(i + 1).drop_last() =~= nats.take(i as int));
            lemma_tallied_distinct(texts.take(i as int), nats.take(i as int));
            assert(texts[i as int] == match kind {
                Some(text) => Some(text@),
                None => None,
            });
            assert(nats[i as int] == sizes@[i as int] as nat);
        }
        if let Some(ext) = kind {
            let size = sizes[i];
            proof {
                lemma_place(before, ext@);
            }
            match places.get(ext.as_str()) {
                Some(place) => {
                    let k = *place;
                    proof {
                        assert(before[k as int].ext == ext@);
                        let found = place_of(before, ext@);
                        assert(before[found].ext == before[k as int].ext);
                        assert(found == k) by {
                            if found < k {
                                assert(before[found].ext != before[k as int].ext);
                            } else if k < found {
                                assert(before[k as int].ext != before[found].ext);
                            }
                        }
                        assert(before[k as int].count <= i);
                        if held[k as int].size + size > u64::MAX {
                            let after = tallied(texts.take(i + 1), nats.take(i + 1));
                            assert(after[k as int].size > u64::MAX);
                            if sums_fit(tallied(texts, nats)) {
                                lemma_tallied_grows(texts, nats, i + 1);
                            }
                        }
                    }
                    let sum = match stats[k].size.checked_add(size) {
                        Some(n) => n,
                        None => {
                            return None;
                        },
                    };
                    assert(held[k as int]@ == before[k as int]);
                    stats[k].count += 1;
                    stats[k].size = sum;
                    proof {
                        assert(ext_views(stats@) =~= with_file(before, ext@, size as nat));
                        assert forall|j: int| #![trigger stats@[j]] 0 <= j < stats@.len() implies
                            places@.contains_key(stats@[j].ext@) && places@[stats@[j].ext@]
                            == j by {
                            assert(stats@[j].ext@ == held[j].ext@);
                        }
                    }
                },
                None => {
                    proof {
                        if place_of(before, ext@) >= 0 {
                            let k = place_of(before, ext@);
                            assert(held[k].ext@ == ext@);
                            assert(places@.contains_key(held[k].ext@));
                        }
                    }
                    let ghost name = ext@;
                    let ghost known = places@;
                    places.insert(ext.clone(), stats.len());
                    stats.push(ExtStat { ext, count: 1, size });
                    proof {
                        assert(ext_views(stats@) =~= with_file(before, name, size as nat));
                        assert forall|j: int| #![trigger stats@[j]] 0 <= j < stats@.len() implies
                            places@.contains_key(stats@[j].ext@) && places@[stats@[j].ext@]
                            == j by {
                            if j < held.len() {
                                assert(stats@[j] == held[j]);
                                assert(known.contains_key(held[j].ext@));
                                assert(held[j].ext@ != name);
                            }
                        }
                    }
                },
            }
        }
        i += 1;
    }
    proof {
        assert(texts.take(i as int) =~= texts);
        assert(nats.take(i as int) =~= nats);
        assert forall|k: int| 0 <= k < stats@.len() implies (#[trigger] ext_views(
            stats@,
        )[k]).size <= u64::MAX by {}
    }
    Some(stats)
}

/// The kinds and sizes of the children of a directory.
fn kinds_and_sizes(children: &Vec<FileNode>) -> (r: (Vec<Option<String>>, Vec<u64>))
    ensures
        kind_texts(r.0@) == kinds_of(node::views(children@)),
        as_nats(r.1@) == sizes_of(node::views(children@)),
        r.0@.len() == r.1@.len(),
{
    let ghost all = node::views(children@);
    let mut kinds: Vec<Option<String>> = Vec::new();
    let mut sizes: Vec<u64> = Vec::new();
    let mut i: usize = 0;
    while i < children.len()
        invariant
            i <= children@.len(),
            all == node::views(children@),
            kinds@.len() == i,
            sizes@.len() == i,
            forall|k: int|
                0 <= k < i ==> #[trigger] kind_texts(kinds@)[k] == kinds_of(all)[k],
            forall|k: int| 0 <= k < i ==> #[trigger] as_nats(sizes@)[k] == sizes_of(all)[k],
        decreases children@.len() - i,
    {
        let child = &children[i];
        let ghost kinds_before = kinds@;
        let ghost sizes_before = sizes@;
        if child.is_dir {
            kinds.push(None);
        } else {
            kinds.push(Some(extension(child.name.as_str())));
        }
        sizes.push(child.size);
        i += 1;
        proof {
            assert(all[i - 1] == child@);
            assert forall|k: int| 0 <= k < i implies #[trigger] kind_texts(kinds@)[k] == kinds_of(
                all,
            )[k] by {
                if k < i - 1 {
                    assert(kind_texts(kinds_before)[k] == kinds_of(all)[k]);
                }
            }
            assert forall|k: int| 0 <= k < i implies #[trigger] as_nats(sizes@)[k] == sizes_of(
                all,
            )[k] by {
                if k < i - 1 {
                    assert(as_nats(sizes_before)[k] == sizes_of(all)[k]);
                }
            }
        }
    }
    assert(kind_texts(kinds@) =~= kinds_of(all));
    assert(as_nats(sizes@) =~= sizes_of(all));
    (kinds, sizes)
}

fn tally_node(node: Option<&FileNode>) -> (r: Option<Vec<ExtStat>>)
    ensures
        ({
            let stats = stats_of(node::seen(node));
            match r {
                Some(s) => sums_fit(stats) && ext_views(s@) == stats,
                None => !sums_fit(stats),
            }
        }),
{
    match node {
        Some(n) => if n.is_dir {
            let (kinds, sizes) = kinds_and_sizes(&n.children);
            tally(kinds, &sizes)
        } else {
            let none: Vec<ExtStat> = Vec::new();
            assert(ext_views(none@) =~= Seq::<ExtView>::empty());
            Some(none)
        },
        None => {
            let none: Vec<ExtStat> = Vec::new();
            assert(ext_views(none@) =~= Seq::<ExtView>::empty());
            Some(none)
        },
    }
}

/// Whether the kinds of files in a directory can be counted.
pub fn can_tally(node: Option<&FileNode>) -> (r: bool)
    ensures
        r == sums_fit(stats_of(node::seen(node))),
{
    tally_node(node).is_some()
}

/// Brings kinds of files in the order they are shown.
pub fn rank(stats: Vec<ExtStat>) -> (r: Vec<ExtStat>)
    ensures
        ext_views(r@) == ranked(ext_views(stats@)),
{
    proof {
        sorting::lemma_sorted_mapped(
            stats@,
            |s: ExtStat| s@,
            LargerFirst {}.le(),
            LargerFirst::relation(),
        );
    }
    stable_sort(stats, &LargerFirst {})
}

/// The kinds of files in a directory, the larger first.
pub fn build_extension_stats(node: Option<&FileNode>) -> (r: Vec<ExtStat>)
    requires
        sums_fit(stats_of(node::seen(node))),
    ensures
        ext_views(r@) == ranked(stats_of(node::seen(node))),
{
    match tally_node(node) {
        Some(stats) => rank(stats),
        None => Vec::new(),
    }
}

/// The sizes of all kinds together.
pub open spec fn total_of(stats: Seq<ExtView>) -> nat
    decreases stats.len(),
{
    if stats.len() == 0 {
        0
    } else {
        total_of(stats.drop_last()) + stats.last().size
    }
}

/// The files of all kinds together.
pub open spec fn count_of(stats: Seq<ExtView>) -> nat
    decreases stats.len(),
{
    if stats.len() == 0 {
        0
    } else {
        count_of(stats.drop_last()) + stats.last().count
    }
}

/// The sizes of the files together.
pub open spec fn bytes_of(kinds: Seq<Option<Seq<char>>>, sizes: Seq<nat>) -> nat
    decreases kinds.len(),
{
    if kinds.len() == 0 {
        0
    } else {
        bytes_of(kinds.drop_last(), sizes.drop_last()) + if kinds.last() is Some {
            sizes.last()
        } else {
            0
        }
    }
}

/// How many files there are.
pub open spec fn files_of(kinds: Seq<Option<Seq<char>>>) -> nat
    decreases kinds.len(),
{
    if kinds.len() == 0 {
        0
    } else {
        files_of(kinds.drop_last()) + if kinds.last() is Some {
            1nat
        } else {
            0
        }
    }
}

proof fn lemma_totals_updated(stats: Seq<ExtView>, i: int, new: ExtView)
    requires
        0 <= i < stats.len(),
    ensures
        total_of(stats.update(i, new)) + stats[i].size == total_of(stats) + new.size,
        count_of(stats.update(i, new)) + stats[i].count == count_of(stats) + new.count,
    decreases stats.len(),
{
    let changed = stats.update(i, new);
    if i < stats.len() - 1 {
        lemma_totals_updated(stats.drop_last(), i, new);
        assert(changed.drop_last() =~= stats.drop_last().update(i, new));
    } else {
        assert(changed.drop_last() =~= stats.drop_last());
    }
}

/// Every file is counted for one kind, and no kind is listed twice.
pub proof fn kinds_account_for_every_file(kinds: Seq<Option<Seq<char>>>, sizes: Seq<nat>)
    requires
        kinds.len() == sizes.len(),
    ensures
        total_of(tallied(kinds, sizes)) == bytes_of(kinds, sizes),
        count_of(tallied(kinds, sizes)) == files_of(kinds),
        forall|i: int, j: int|
            0 <= i < j < tallied(kinds, sizes).len() ==> (#[trigger] tallied(kinds, sizes)[i]).ext
                != (#[trigger] tallied(kinds, sizes)[j]).ext,
    decreases kinds.len(),
{
    lemma_tallied_distinct(kinds, sizes);
    if kinds.len() > 0 {
        kinds_account_for_every_file(kinds.drop_last(), sizes.drop_last());
        let before = tallied(kinds.drop_last(), sizes.drop_last());
        if let Some(ext) = kinds.last() {
            lemma_place(before, ext);
            let i = place_of(before, ext);
            if i < 0 {
                let new = ExtView { ext, count: 1, size: sizes.last() };
                assert(before.push(new).drop_last() =~= before);
            } else {
                lemma_totals_updated(
                    before,
                    i,
                    ExtView {
                        ext,
                        count: before[i].count + 1,
                        size: before[i].size + sizes.last(),
                    },
                );
            }
        }
    }
}

/// Behind the last dot of a name, no more than nine bytes are an ending: it is
/// written in lower case, with the dot. Any other name has no ending.
pub proof fn endings_follow_the_last_dot(front: Seq<char>, ending: Seq<char>)
    requires
        !ending.contains('.'),
    ensures
        vstd::utf8::encode_utf8(ending).len() < 10 ==> kind_of(front + seq!['.'] + ending) == "."@
            + strings::lowercase_of(ending),
        vstd::utf8::encode_utf8(ending).len() >= 10 ==> kind_of(front + seq!['.'] + ending)
            == "(no ext)"@,
        kind_of(ending) == "(no ext)"@,
{
    let name = front + seq!['.'] + ending;
    let dot = paths::last_place_of(name, '.');
    paths::lemma_last_place(name, '.');
    paths::lemma_last_place(ending, '.');
    assert(name[front.len() as int] == '.');
    if dot > front.len() {
        assert(ending[dot - front.len() - 1] == '.');
        assert(ending.contains('.'));
    }
    assert(name.skip(dot + 1) =~= ending);
    let place = paths::last_place_of(ending, '.');
    if place >= 0 {
        assert(ending.contains(ending[place]));
    }
}

/// The files of a kind among the children of a directory.
pub open spec fn is_of_kind(ext: Seq<char>) -> spec_fn(NodeView) -> bool {
    |child: NodeView| !child.is_dir && kind_of(child.name) == ext
}

/// What a child adds to the size of a kind.
pub open spec fn size_for_kind(ext: Seq<char>) -> spec_fn(NodeView) -> nat {
    |child: NodeView|
        if !child.is_dir && kind_of(child.name) == ext {
            child.size
        } else {
            0
        }
}

/// Whether a kind is among several, with just the files of the children that are of
/// it.
pub open spec fn is_counted(stats: Seq<ExtView>, children: Seq<NodeView>, ext: Seq<char>) -> bool {
    exists|i: int|
        0 <= i < stats.len() && (#[trigger] stats[i]).ext == ext && stats[i].count
            == children.filter(is_of_kind(ext)).len() && stats[i].size == sorting::weigh(
            children,
            size_for_kind(ext),
        )
}

/// A kind has the files and the size of the children that are of it, or is not
/// among the kinds where there are none.
proof fn lemma_tallied(children: Seq<NodeView>, ext: Seq<char>)
    ensures
        ({
            let stats = tallied(kinds_of(children), sizes_of(children));
            let i = place_of(stats, ext);
            let count = children.filter(is_of_kind(ext)).len();
            let size = sorting::weigh(children, size_for_kind(ext));
            &&& i < 0 ==> count == 0 && size == 0
            &&& i >= 0 ==> stats[i].ext == ext && stats[i].count == count && stats[i].size == size
                && count > 0
        }),
    decreases children.len(),
{
    reveal(Seq::filter);
    let kinds = kinds_of(children);
    let sizes = sizes_of(children);
    let stats = tallied(kinds, sizes);
    lemma_place(stats, ext);
    if children.len() > 0 {
        let rest = children.drop_last();
        lemma_tallied(rest, ext);
        assert(kinds_of(rest) =~= kinds.drop_last());
        assert(sizes_of(rest) =~= sizes.drop_last());
        let before = tallied(kinds.drop_last(), sizes.drop_last());
        let last = children.last();
        lemma_place(before, ext);
        lemma_tallied_distinct(kinds, sizes);
        lemma_tallied_distinct(kinds.drop_last(), sizes.drop_last());
        assert(kinds.last() == if last.is_dir {
            None
        } else {
            Some(kind_of(last.name))
        });
        assert(sizes.last() == last.size);
        if !last.is_dir {
            let own = kind_of(last.name);
            let k = place_of(before, own);
            lemma_place(before, own);
            let i = place_of(stats, ext);
            let j = place_of(before, ext);
            if own == ext {
                assert(stats[if k < 0 { before.len() as int } else { k }].ext == ext);
                assert(i == if k < 0 { before.len() as int } else { k }) by {
                    let m = if k < 0 { before.len() as int } else { k };
                    if i < m {
                        assert(stats[i].ext != stats[m].ext);
                    } else if m < i {
                        assert(stats[m].ext != stats[i].ext);
                    }
                }
            } else if j >= 0 {
                assert(stats[j].ext == ext);
                assert(stats[j] == before[j]);
                if i < j {
                    assert(stats[i].ext != stats[j].ext);
                } else if j < i {
                    assert(stats[j].ext != stats[i].ext);
                }
            } else if i >= 0 {
                if i < before.len() {
                    assert(before[i].ext != ext);
                }
            }
        }
    } else {
        assert(kinds =~= Seq::<Option<Seq<char>>>::empty());
    }
}

/// The kinds shown of a directory are those of its files: each file is counted for
/// the kind that its name stands for, each kind is shown once, with the number of
/// its files and their sizes together, and the larger kinds stand first.
pub proof fn kinds_are_those_of_the_files(node: NodeView)
    requires
        node.is_dir,
    ensures
        ({
            let stats = ranked(stats_of(Some(node)));
            &&& forall|i: int|
                0 <= i < stats.len() ==> {
                    let stat = #[trigger] stats[i];
                    &&& stat.count == node.children.filter(is_of_kind(stat.ext)).len()
                    &&& stat.count > 0
                    &&& stat.size == sorting::weigh(node.children, size_for_kind(stat.ext))
                }
            &&& forall|k: int|
                0 <= k < node.children.len() && !(#[trigger] node.children[k]).is_dir
                    ==> is_counted(stats, node.children, kind_of(node.children[k].name))
            &&& forall|i: int, j: int|
                0 <= i < j < stats.len() ==> (#[trigger] stats[i]).size >= (
                #[trigger] stats[j]).size && stats[i].ext != stats[j].ext
        }),
{
    let children = node.children;
    let found = stats_of(Some(node));
    let le = LargerFirst::relation();
    let stats = ranked(found);
    lemma_tallied_distinct(kinds_of(children), sizes_of(children));
    sorting::lemma_sorted_len(found, le);
    assert(sorting::is_preorder(le));
    sorting::lemma_sorted_in_order(found, le);
    assert forall|i: int| 0 <= i < stats.len() implies {
        let stat = #[trigger] stats[i];
        &&& stat.count == children.filter(is_of_kind(stat.ext)).len()
        &&& stat.count > 0
        &&& stat.size == sorting::weigh(children, size_for_kind(stat.ext))
    } by {
        sorting::lemma_sorted_contains(found, le, i);
        let k = choose|k: int| 0 <= k < found.len() && found[k] == stats[i];
        lemma_tallied(children, found[k].ext);
        lemma_place(found, found[k].ext);
        let m = place_of(found, found[k].ext);
        if m < k {
            assert(found[m].ext != found[k].ext);
        } else if k < m {
            assert(found[k].ext != found[m].ext);
        }
    }
    assert forall|k: int|
        0 <= k < children.len() && !(#[trigger] children[k]).is_dir implies is_counted(
        stats,
        children,
        kind_of(children[k].name),
    ) by {
        let ext = kind_of(children[k].name);
        lemma_tallied(children, ext);
        lemma_kind_has_files(children, k);
        let m = place_of(found, ext);
        lemma_place(found, ext);
        sorting::lemma_sorted_holds(found, le, m);
        let i = choose|i: int| 0 <= i < stats.len() && stats[i] == found[m];
        assert(stats[i].ext == ext);
    }
    assert forall|i: int, j: int| 0 <= i < j < stats.len() implies (#[trigger] stats[i]).size >= (
    #[trigger] stats[j]).size && stats[i].ext != stats[j].ext by {
        assert(le(stats[i], stats[j]));
        lemma_ranked_distinct(found, i, j);
    }
}

proof fn lemma_kind_has_files(children: Seq<NodeView>, k: int)
    requires
        0 <= k < children.len(),
        !children[k].is_dir,
    ensures
        children.filter(is_of_kind(kind_of(children[k].name))).len() > 0,
    decreases children.len(),
{
    reveal(Seq::filter);
    if k < children.len() - 1 {
        assert(children.drop_last()[k] == children[k]);
        lemma_kind_has_files(children.drop_last(), k);
    }
}

/// Sorting lists no kind twice.
proof fn lemma_ranked_distinct(found: Seq<ExtView>, i: int, j: int)
    requires
        distinct(found),
        0 <= i < j < found.len(),
    ensures
        ranked(found)[i].ext != ranked(found)[j].ext,
{
    let le = LargerFirst::relation();
    let stats = ranked(found);
    sorting::lemma_sorted_len(found, le);
    sorting::lemma_sorted_contains(found, le, i);
    sorting::lemma_sorted_contains(found, le, j);
    let a = choose|a: int| 0 <= a < found.len() && found[a] == stats[i];
    let b = choose|b: int| 0 <= b < found.len() && found[b] == stats[j];
    assert(found.no_duplicates()) by {
        assert forall|x: int, y: int| 0 <= x < found.len() && 0 <= y < found.len() && x
            != y implies found[x] != found[y] by {
            if x < y {
                assert(found[x].ext != found[y].ext);
            } else {
                assert(found[y].ext != found[x].ext);
            }
        }
    }
    sorting::lemma_sorted_distinct(found, le);
    assert(stats[i] != stats[j]);
    if a < b {
        assert(found[a].ext != found[b].ext);
    } else {
        assert(found[b].ext != found[a].ext);
    }
}

/// What is no directory has no kinds of files.
pub proof fn only_directories_have_kinds(node: Option<NodeView>)
    requires
        node is None || !(node->0).is_dir,
    ensures
        stats_of(node).len() == 0,
        ranked(stats_of(node)).len() == 0,
{
    sorting::lemma_sorted_len(stats_of(node), LargerFirst::relation());
}

} // verus!
