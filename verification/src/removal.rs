//! How a directory is deleted with all that is in it. What is in it is read
//! and removed elsewhere, one thing after the other, as asked for here.

use crate::node::NodeView;
use crate::paths;
use crate::scanner::{MessageView, ScanMessage};
use vstd::prelude::*;

verus! {

/// Progress is reported once for so many things removed.
pub const REPORT_INTERVAL: u64 = 100;

/// An entry of a directory that is to be removed.
#[derive(Debug)]
pub struct Listed {
    pub name: String,
    pub is_dir: bool,
}

#[verifier::ext_equal]
pub struct ListedView {
    pub name: Seq<char>,
    pub is_dir: bool,
}

impl View for Listed {
    type V = ListedView;

    open spec fn view(&self) -> ListedView {
        ListedView { name: self.name@, is_dir: self.is_dir }
    }
}

/// The entries of a listing.
pub open spec fn entries_of(entries: Seq<Listed>) -> Seq<ListedView> {
    entries.map_values(|e: Listed| e@)
}

/// A directory that is being emptied.
#[derive(Debug)]
pub struct Emptying {
    dir: String,
    entries: Vec<Listed>,
    next: usize,
}

/// A directory that is being emptied, and the entries that are left in it.
#[verifier::ext_equal]
pub struct EmptyingView {
    pub dir: Seq<char>,
    pub left: Seq<ListedView>,
}

impl View for Emptying {
    type V = EmptyingView;

    closed spec fn view(&self) -> EmptyingView {
        EmptyingView {
            dir: self.dir@,
            left: entries_of(self.entries@).skip(self.next as int),
        }
    }
}

/// What is to be done next.
#[derive(Debug)]
pub enum Request {
    List(String),
    RemoveFile(String),
    RemoveDirectory(String),
    /// Nothing is left to do.
    Finished,
}

#[verifier::ext_equal]
pub enum RequestView {
    List(Seq<char>),
    RemoveFile(Seq<char>),
    RemoveDirectory(Seq<char>),
    Finished,
}

impl View for Request {
    type V = RequestView;

    open spec fn view(&self) -> RequestView {
        match *self {
            Request::List(path) => RequestView::List(path@),
            Request::RemoveFile(path) => RequestView::RemoveFile(path@),
            Request::RemoveDirectory(path) => RequestView::RemoveDirectory(path@),
            Request::Finished => RequestView::Finished,
        }
    }
}

/// What has been removed so far.
#[derive(Clone, Copy, Debug, PartialEq, Eq, Structural)]
pub struct Tally {
    pub bytes: u64,
    pub files: u64,
    pub dirs: u64,
}

/// Whether progress is reported when one tally follows the other: at each
/// full interval of things removed.
pub open spec fn reports(before: Tally, after: Tally) -> bool {
    before != after && (after.files + after.dirs) % REPORT_INTERVAL as int == 0
}

/// A directory that is being deleted.
#[derive(Debug)]
pub struct Removal {
    root: String,
    /// The directories on the way from the root to where things are removed.
    open: Vec<Emptying>,
    started: bool,
    tally: Tally,
    counter: u64,
    error: Option<String>,
}

#[verifier::ext_equal]
pub struct RemovalView {
    pub root: Seq<char>,
    pub open: Seq<EmptyingView>,
    pub started: bool,
    pub tally: Tally,
    pub error: Option<Seq<char>>,
}

impl View for Removal {
    type V = RemovalView;

    closed spec fn view(&self) -> RemovalView {
        RemovalView {
            root: self.root@,
            open: self.open@.map_values(|e: Emptying| e@),
            started: self.started,
            tally: self.tally,
            error: match self.error {
                Some(text) => Some(text@),
                None => None,
            },
        }
    }
}

/// Whether a directory is the first entry left of another.
pub open spec fn lies_in(inner: EmptyingView, outer: EmptyingView) -> bool {
    &&& outer.left.len() > 0
    &&& outer.left[0].is_dir
    &&& inner.dir == paths::joined(outer.dir, outer.left[0].name)
}

impl RemovalView {
    /// What is to be done next.
    pub open spec fn request(self) -> RequestView {
        if self.error is Some {
            RequestView::Finished
        } else if !self.started {
            RequestView::List(self.root)
        } else if self.open.len() == 0 {
            RequestView::Finished
        } else {
            let here = self.open.last();
            if here.left.len() == 0 {
                RequestView::RemoveDirectory(here.dir)
            } else {
                let path = paths::joined(here.dir, here.left[0].name);
                if here.left[0].is_dir {
                    RequestView::List(path)
                } else {
                    RequestView::RemoveFile(path)
                }
            }
        }
    }

    /// After the directory asked for was listed.
    pub open spec fn listed(self, entries: Seq<ListedView>) -> RemovalView {
        match self.request() {
            RequestView::List(dir) => RemovalView {
                started: true,
                open: self.open.push(EmptyingView { dir, left: entries }),
                ..self
            },
            _ => self,
        }
    }

    /// With the first entry left in the last of the open directories gone.
    pub open spec fn advanced(self) -> RemovalView {
        let here = self.open.last();
        RemovalView {
            open: self.open.drop_last().push(
                EmptyingView { left: here.left.drop_first(), ..here },
            ),
            ..self
        }
    }

    /// After what was asked for was removed; a file had `size` bytes. The
    /// directory where it started is not counted.
    pub open spec fn removed(self, size: u64) -> RemovalView {
        match self.request() {
            RequestView::RemoveFile(_) => RemovalView {
                tally: Tally {
                    bytes: (self.tally.bytes + size) as u64,
                    files: (self.tally.files + 1) as u64,
                    ..self.tally
                },
                ..self.advanced()
            },
            RequestView::RemoveDirectory(_) => {
                let above = RemovalView { open: self.open.drop_last(), ..self };
                if above.open.len() == 0 {
                    above
                } else {
                    RemovalView {
                        tally: Tally { dirs: (self.tally.dirs + 1) as u64, ..self.tally },
                        ..above.advanced()
                    }
                }
            },
            _ => self,
        }
    }

    /// After what was asked for failed for some reason. Where the directory
    /// itself could not be removed the reason stands alone.
    pub open spec fn failed(self, reason: Seq<char>) -> RemovalView {
        let text = match self.request() {
            RequestView::List(path) => path + ": "@ + reason,
            RequestView::RemoveFile(path) => path + ": "@ + reason,
            RequestView::RemoveDirectory(path) => if self.open.len() == 1 {
                reason
            } else {
                path + ": "@ + reason
            },
            RequestView::Finished => reason,
        };
        RemovalView { error: Some(text), ..self }
    }

    /// Whether the open directories lie within each other: each is the first
    /// entry left of the one before.
    pub open spec fn nested(self) -> bool {
        &&& self.open.len() > 0 ==> self.started && self.open[0].dir == self.root
        &&& forall|i: int, j: int|
            #![trigger self.open[i], self.open[j]]
            0 <= i && j == i + 1 && j < self.open.len() ==> lies_in(self.open[j], self.open[i])
    }

    /// Whether the names of all entries left are plain.
    pub open spec fn plain(self) -> bool {
        forall|i: int, k: int|
            #![trigger self.open[i].left[k]]
            0 <= i < self.open.len() && 0 <= k < self.open[i].left.len() ==> paths::is_plain(
                self.open[i].left[k].name,
            )
    }
}

impl Emptying {
    spec fn wf(self) -> bool {
        self.next <= self.entries@.len()
    }
}

impl Removal {
    pub closed spec fn wf(self) -> bool {
        &&& self@.nested()
        &&& forall|i: int| #![trigger self.open@[i]] 0 <= i < self.open@.len() ==> self.open@[i].wf()
        &&& self.counter == self.tally.files + self.tally.dirs
    }

    pub fn new(root: String) -> (r: Removal)
        ensures
            r.wf(),
            r@ == (RemovalView {
                root: root@,
                open: Seq::empty(),
                started: false,
                tally: Tally { bytes: 0, files: 0, dirs: 0 },
                error: None,
            }),
    {
        let r = Removal {
            root,
            open: Vec::new(),
            started: false,
            tally: Tally { bytes: 0, files: 0, dirs: 0 },
            counter: 0,
            error: None,
        };
        assert(r@.open =~= Seq::<EmptyingView>::empty());
        r
    }

    /// What is to be done next.
    pub fn request(&self) -> (r: Request)
        requires
            self.wf(),
        ensures
            r@ == self@.request(),
    {
        if self.error.is_some() {
            return Request::Finished;
        }
        if !self.started {
            return Request::List(self.root.clone());
        }
        let n = self.open.len();
        if n == 0 {
            return Request::Finished;
        }
        let here = &self.open[n - 1];
        assert(self@.open.last() == here@);
        assert(here@.left.len() == here.entries@.len() - here.next);
        if here.next == here.entries.len() {
            Request::RemoveDirectory(here.dir.clone())
        } else {
            let first = &here.entries[here.next];
            assert(here@.left[0] == first@);
            let path = paths::join(here.dir.as_str(), first.name.as_str());
            if first.is_dir {
                Request::List(path)
            } else {
                Request::RemoveFile(path)
            }
        }
    }

    /// Takes in the entries of the directory asked for.
    pub fn listed(&mut self, entries: Vec<Listed>)
        requires
            old(self).wf(),
            old(self)@.request() is List,
        ensures
            final(self).wf(),
            final(self)@ == old(self)@.listed(entries_of(entries@)),
    {
        let ghost before = self@;
        let ghost names = entries_of(entries@);
        if let Request::List(dir) = self.request() {
            let inner = Emptying { dir, entries, next: 0 };
            self.started = true;
            self.open.push(inner);
            proof {
                assert(inner@.left =~= names);
                assert(self@.open =~= before.open.push(inner@));
                assert(self@ =~= before.listed(names));
                assert forall|i: int, j: int|
                #![trigger self@.open[i], self@.open[j]]
                0 <= i && j == i + 1 && j < self@.open.len() implies lies_in(
                self@.open[j],
                self@.open[i],
            ) by {
                    assert(self@.open[i] == before.open[i]);
                    if j < before.open.len() {
                        assert(self@.open[j] == before.open[j]);
                    }
                }
                if before.open.len() > 0 {
                    assert(self@.open[0] == before.open[0]);
                }
            }
        }
    }

    /// Whether one more thing of `size` bytes can be counted.
    pub open spec fn has_room(self, size: u64) -> bool {
        &&& self@.tally.bytes + size <= u64::MAX
        &&& self@.tally.files + self@.tally.dirs < u64::MAX
    }

    pub fn can_count(&self, size: u64) -> (r: bool)
        requires
            self.wf(),
        ensures
            r == self.has_room(size),
    {
        self.tally.bytes.checked_add(size).is_some() && self.counter < u64::MAX
    }

    fn advance(&mut self)
        requires
            old(self)@.open.len() > 0,
            old(self)@.open.last().left.len() > 0,
            old(self)@.nested(),
            forall|i: int|
                #![trigger old(self).open@[i]]
                0 <= i < old(self).open@.len() ==> old(self).open@[i].wf(),
        ensures
            final(self)@ == old(self)@.advanced(),
            final(self)@.nested(),
            final(self).counter == old(self).counter,
            forall|i: int|
                #![trigger final(self).open@[i]]
                0 <= i < final(self).open@.len() ==> final(self).open@[i].wf(),
    {
        let ghost before = self@;
        let n = self.open.len();
        let ghost here = self.open@[n - 1];
        assert(before.open.last() == here@);
        assert(here@.left.len() == here.entries@.len() - here.next);
        let len = self.open[n - 1].entries.len();
        assert(self.open@[n - 1].next < len);
        self.open[n - 1].next += 1;
        proof {
            let after = self.open@[n - 1];
            assert(after@.left =~= here@.left.drop_first());
            assert(self@.open =~= before.advanced().open);
            assert forall|i: int, j: int|
                #![trigger self@.open[i], self@.open[j]]
                0 <= i && j == i + 1 && j < self@.open.len() implies lies_in(
                self@.open[j],
                self@.open[i],
            ) by {
                assert(self@.open[i] == before.open[i]);
                assert(self@.open[j].dir == before.open[j].dir);
                assert(lies_in(before.open[j], before.open[i]));
            }
            assert(self@.open[0].dir == before.open[0].dir);
        }
    }

    fn file_removed(&mut self, size: u64)
        requires
            old(self).wf(),
            old(self)@.request() is RemoveFile,
            old(self).has_room(size),
        ensures
            final(self).wf(),
            final(self)@ == old(self)@.removed(size),
    {
        let ghost before = self@;
        self.advance();
        self.tally.bytes += size;
        self.tally.files += 1;
        self.counter += 1;
        assert(self@ =~= before.removed(size));
    }

    fn directory_removed(&mut self)
        requires
            old(self).wf(),
            old(self)@.request() is RemoveDirectory,
            old(self).has_room(0),
        ensures
            final(self).wf(),
            forall|size: u64| final(self)@ == #[trigger] old(self)@.removed(size),
    {
        let ghost before = self@;
        let n = self.open.len();
        let _ = self.open.pop();
        let ghost above = RemovalView { open: before.open.drop_last(), ..before };
        assert(self@ =~= above);
        proof {
            assert forall|i: int, j: int|
                #![trigger self@.open[i], self@.open[j]]
                0 <= i && j == i + 1 && j < self@.open.len() implies lies_in(
                self@.open[j],
                self@.open[i],
            ) by {
                assert(self@.open[i] == before.open[i]);
                assert(self@.open[j] == before.open[j]);
            }
            if n > 1 {
                assert(self@.open[0] == before.open[0]);
                assert(self@.open[n - 2] == before.open[n - 2]);
                assert(lies_in(before.open[n - 1], before.open[n - 2]));
            }
        }
        if n > 1 {
            self.advance();
            self.tally.dirs += 1;
            self.counter += 1;
        }
    }

    /// Takes in that what was asked for is removed; of a file `size` is how
    /// large it was. Whether progress is to be reported is returned.
    pub fn removed(&mut self, size: u64) -> (report: bool)
        requires
            old(self).wf(),
            old(self)@.request() is RemoveFile || old(self)@.request() is RemoveDirectory,
            old(self).has_room(size),
        ensures
            final(self).wf(),
            final(self)@ == old(self)@.removed(size),
            report == reports(old(self)@.tally, final(self)@.tally),
    {
        let counted = self.counter;
        let n = self.open.len();
        assert(self@.open.last() == self.open@[n - 1]@);
        if self.open[n - 1].next < self.open[n - 1].entries.len() {
            self.file_removed(size);
        } else {
            self.directory_removed();
        }
        self.counter != counted && self.counter % REPORT_INTERVAL == 0
    }

    /// Takes in that what was asked for failed, which ends the deletion.
    pub fn failed(&mut self, reason: &str)
        requires
            old(self).wf(),
            !(old(self)@.request() is Finished),
        ensures
            final(self).wf(),
            final(self)@ == old(self)@.failed(reason@),
    {
        let ghost before = self@;
        let text = match self.request() {
            Request::List(path) => path.concat(": ").concat(reason),
            Request::RemoveFile(path) => path.concat(": ").concat(reason),
            Request::RemoveDirectory(path) => if self.open.len() == 1 {
                reason.to_string()
            } else {
                path.concat(": ").concat(reason)
            },
            Request::Finished => reason.to_string(),
        };
        self.error = Some(text);
        assert(self@ =~= before.failed(reason@));
    }

    /// The message on how far the deletion has come.
    pub fn progress(&self) -> (r: ScanMessage)
        ensures
            r@ == (MessageView::DeleteProgress {
                bytes_deleted: self@.tally.bytes,
                files_deleted: self@.tally.files,
                dirs_deleted: self@.tally.dirs,
            }),
    {
        ScanMessage::DeleteProgress {
            bytes_deleted: self.tally.bytes,
            files_deleted: self.tally.files,
            dirs_deleted: self.tally.dirs,
        }
    }

    /// The message that the deletion is over.
    pub fn complete(&self) -> (r: ScanMessage)
        requires
            self@.request() is Finished,
        ensures
            r@ == (MessageView::DeleteComplete {
                bytes_deleted: self@.tally.bytes,
                files_deleted: self@.tally.files,
                dirs_deleted: self@.tally.dirs,
                error: self@.error,
            }),
    {
        ScanMessage::DeleteComplete {
            bytes_deleted: self.tally.bytes,
            files_deleted: self.tally.files,
            dirs_deleted: self.tally.dirs,
            error: match &self.error {
                Some(text) => Some(text.clone()),
                None => None,
            },
        }
    }
}

/// Where the paths below a directory begin: with its own, and a slash.
pub open spec fn threshold(root: Seq<char>) -> Seq<char> {
    if root.len() == 0 || root.last() == '/' {
        root
    } else {
        root.push('/')
    }
}

/// Whether a path lies below a directory.
pub open spec fn is_below(path: Seq<char>, root: Seq<char>) -> bool {
    threshold(root).is_prefix_of(path) && path.len() > threshold(root).len()
}

proof fn lemma_joined_below(base: Seq<char>, name: Seq<char>, root: Seq<char>)
    requires
        paths::is_plain(name),
        base == root || is_below(base, root),
    ensures
        is_below(paths::joined(base, name), root),
{
    assert(name[0] != '/') by {
        assert(name.contains(name[0]));
    }
    let path = paths::joined(base, name);
    let start = threshold(root);
    if base == root {
        assert(path =~= start + name);
        assert(start =~= path.take(start.len() as int));
    } else {
        assert(base =~= path.take(base.len() as int));
        assert(start =~= path.take(start.len() as int)) by {
            assert(start == base.take(start.len() as int));
        }
    }
}

proof fn lemma_open_below(r: RemovalView, i: int)
    requires
        r.nested(),
        r.plain(),
        0 <= i < r.open.len(),
    ensures
        r.open[i].dir == r.root || is_below(r.open[i].dir, r.root),
    decreases i,
{
    if i > 0 {
        lemma_open_below(r, i - 1);
        let outer = r.open[i - 1];
        assert(lies_in(r.open[i], r.open[i - 1]));
        assert(paths::is_plain(r.open[i - 1].left[0].name));
        lemma_joined_below(outer.dir, outer.left[0].name, r.root);
    }
}

/// Nothing is listed or removed but the directory to be deleted and what is
/// below it, so nothing that stands beside it; and a directory is removed only
/// when nothing is left in it.
pub proof fn removal_stays_below(r: RemovalView)
    requires
        r.nested(),
        r.plain(),
    ensures
        match r.request() {
            RequestView::List(path) => path == r.root || is_below(path, r.root),
            RequestView::RemoveFile(path) => is_below(path, r.root),
            RequestView::RemoveDirectory(path) => {
                &&& path == r.root || is_below(path, r.root)
                &&& r.open.last().dir == path
                &&& r.open.last().left.len() == 0
            },
            RequestView::Finished => true,
        },
{
    if r.error is None && r.started && r.open.len() > 0 {
        let n = r.open.len() - 1;
        lemma_open_below(r, n);
        let here = r.open[n];
        if here.left.len() > 0 {
            assert(paths::is_plain(r.open[n].left[0].name));
            lemma_joined_below(here.dir, here.left[0].name, r.root);
        }
    }
}

/// As long as the names that are listed are plain, so are those of all entries
/// left, whatever is removed or fails.
pub proof fn names_stay_plain(
    r: RemovalView,
    entries: Seq<ListedView>,
    size: u64,
    reason: Seq<char>,
)
    requires
        r.nested(),
        r.plain(),
        forall|k: int| 0 <= k < entries.len() ==> paths::is_plain((#[trigger] entries[k]).name),
    ensures
        r.listed(entries).plain(),
        r.removed(size).plain(),
        r.failed(reason).plain(),
{
    lemma_advanced_plain(r);
    if r.open.len() > 0 {
        let above = RemovalView { open: r.open.drop_last(), ..r };
        assert forall|i: int, k: int|
            #![trigger above.open[i].left[k]]
            0 <= i < above.open.len() && 0 <= k < above.open[i].left.len() implies paths::is_plain(
            above.open[i].left[k].name,
        ) by {
            assert(paths::is_plain(r.open[i].left[k].name));
        }
        lemma_advanced_plain(above);
        if r.open.len() > 1 {
            let n = r.open.len();
            assert(lies_in(r.open[n - 1], r.open[n - 2]));
        }
    }
    let listed = r.listed(entries);
    assert forall|i: int, k: int|
        #![trigger listed.open[i].left[k]]
        0 <= i < listed.open.len() && 0 <= k < listed.open[i].left.len() implies paths::is_plain(
        listed.open[i].left[k].name,
    ) by {
        if i < r.open.len() {
            assert(paths::is_plain(r.open[i].left[k].name));
        } else {
            assert(paths::is_plain(entries[k].name));
        }
    }
}

proof fn lemma_advanced_plain(r: RemovalView)
    requires
        r.plain(),
    ensures
        r.open.len() > 0 && r.open.last().left.len() > 0 ==> r.advanced().plain(),
{
    if r.open.len() > 0 && r.open.last().left.len() > 0 {
        let after = r.advanced();
        assert forall|i: int, k: int|
            #![trigger after.open[i].left[k]]
            0 <= i < after.open.len() && 0 <= k < after.open[i].left.len() implies paths::is_plain(
            after.open[i].left[k].name,
        ) by {
            if i < r.open.len() - 1 {
                assert(paths::is_plain(r.open[i].left[k].name));
            } else {
                assert(paths::is_plain(r.open[i].left[k + 1].name));
            }
        }
    }
}

/// How much is held by some files and directories and all below them.
#[verifier::ext_equal]
pub struct Held {
    pub bytes: nat,
    pub files: nat,
    pub dirs: nat,
}

pub open spec fn held_in(nodes: Seq<NodeView>) -> Held
    decreases nodes,
{
    if nodes.len() == 0 {
        Held { bytes: 0, files: 0, dirs: 0 }
    } else {
        let first = nodes[0];
        let others = held_in(nodes.drop_first());
        if first.is_dir {
            let inner = held_in(first.children);
            Held {
                bytes: inner.bytes + others.bytes,
                files: inner.files + others.files,
                dirs: inner.dirs + others.dirs + 1,
            }
        } else {
            Held { bytes: first.size + others.bytes, files: 1 + others.files, ..others }
        }
    }
}

/// What is listed of a directory that holds these nodes.
pub open spec fn listing(nodes: Seq<NodeView>) -> Seq<ListedView> {
    nodes.map_values(|n: NodeView| ListedView { name: n.name, is_dir: n.is_dir })
}

/// After all of these nodes, which are what is left of the last of the open
/// directories, were listed and removed as asked for.
pub open spec fn emptied(r: RemovalView, nodes: Seq<NodeView>) -> RemovalView
    decreases nodes,
{
    if nodes.len() == 0 {
        r
    } else {
        let first = nodes[0];
        let next = if first.is_dir {
            emptied(r.listed(listing(first.children)), first.children).removed(0)
        } else {
            r.removed(first.size as u64)
        };
        emptied(next, nodes.drop_first())
    }
}

/// The tally with what is held counted.
pub open spec fn counted(tally: Tally, held: Held) -> Tally {
    Tally {
        bytes: (tally.bytes + held.bytes) as u64,
        files: (tally.files + held.files) as u64,
        dirs: (tally.dirs + held.dirs) as u64,
    }
}

/// Whether the tally with what is held counted fits the machine.
pub open spec fn countable(tally: Tally, held: Held) -> bool {
    &&& tally.bytes + held.bytes <= u64::MAX
    &&& tally.files + held.files <= u64::MAX
    &&& tally.dirs + held.dirs <= u64::MAX
}

proof fn lemma_emptied(r: RemovalView, nodes: Seq<NodeView>)
    requires
        r.error is None,
        r.started,
        r.open.len() > 0,
        r.open.last().left == listing(nodes),
        countable(r.tally, held_in(nodes)),
    ensures
        emptied(r, nodes) == (RemovalView {
            open: r.open.drop_last().push(
                EmptyingView { dir: r.open.last().dir, left: Seq::empty() },
            ),
            tally: counted(r.tally, held_in(nodes)),
            ..r
        }),
    decreases nodes,
{
    let here = r.open.last();
    if nodes.len() == 0 {
        assert(here.left =~= Seq::<ListedView>::empty());
        assert(r.open.drop_last().push(here) =~= r.open);
    } else {
        let first = nodes[0];
        let rest = nodes.drop_first();
        assert(here.left[0] == (ListedView { name: first.name, is_dir: first.is_dir }));
        assert(here.left.drop_first() =~= listing(rest));
        let next = if first.is_dir {
            let inner = r.listed(listing(first.children));
            lemma_emptied(inner, first.children);
            let done = emptied(inner, first.children);
            assert(inner.open.drop_last() =~= r.open);
            assert(done.open.drop_last() =~= r.open);
            done.removed(0)
        } else {
            r.removed(first.size as u64)
        };
        assert(next.open.last() == (EmptyingView { dir: here.dir, left: listing(rest) }));
        assert(next.open.drop_last() =~= r.open.drop_last());
        lemma_emptied(next, rest);
    }
}

/// A directory whose contents are listed and removed as asked for is removed
/// in the end, and every file and directory in it was counted once.
pub proof fn removal_takes_everything(root: Seq<char>, nodes: Seq<NodeView>)
    requires
        countable(Tally { bytes: 0, files: 0, dirs: 0 }, held_in(nodes)),
    ensures
        ({
            let start = RemovalView {
                root,
                open: Seq::empty(),
                started: false,
                tally: Tally { bytes: 0, files: 0, dirs: 0 },
                error: None,
            };
            let end = emptied(start.listed(listing(nodes)), nodes).removed(0);
            &&& emptied(start.listed(listing(nodes)), nodes).request()
                == RequestView::RemoveDirectory(root)
            &&& end.request() is Finished
            &&& end.error is None
            &&& end.tally.bytes == held_in(nodes).bytes
            &&& end.tally.files == held_in(nodes).files
            &&& end.tally.dirs == held_in(nodes).dirs
        }),
{
    let start = RemovalView {
        root,
        open: Seq::empty(),
        started: false,
        tally: Tally { bytes: 0, files: 0, dirs: 0 },
        error: None,
    };
    let open = start.listed(listing(nodes));
    assert(open.open.drop_last() =~= Seq::<EmptyingView>::empty());
    lemma_emptied(open, nodes);
}

/// What is asked for comes in this order: first the directory itself is listed; then,
/// as long as something is left in the directory entered last, its next entry is
/// removed, or listed where it is a directory; and a directory with nothing left is
/// removed.
pub proof fn requests_go_down_first(r: RemovalView)
    requires
        r.error is None,
    ensures
        !r.started ==> r.request() == RequestView::List(r.root),
        r.started && r.open.len() == 0 ==> r.request() is Finished,
        r.started && r.open.len() > 0 ==> {
            let here = r.open.last();
            let first = here.left[0];
            match r.request() {
                RequestView::RemoveDirectory(path) => here.left.len() == 0 && path == here.dir,
                RequestView::RemoveFile(path) => here.left.len() > 0 && !first.is_dir && path
                    == paths::joined(here.dir, first.name),
                RequestView::List(path) => here.left.len() > 0 && first.is_dir && path
                    == paths::joined(here.dir, first.name),
                RequestView::Finished => false,
            }
        },
{
}

/// A directory that was listed is entered with all its entries left.
pub proof fn listed_directories_are_entered(r: RemovalView, entries: Seq<ListedView>)
    requires
        r.request() is List,
    ensures
        r.request() matches RequestView::List(dir) && {
            let next = r.listed(entries);
            &&& next.started
            &&& next.open.len() == r.open.len() + 1
            &&& next.open.last().dir == dir
            &&& next.open.last().left == entries
            &&& next.open.drop_last() == r.open
            &&& next.tally == r.tally
            &&& next.error == r.error
            &&& next.root == r.root
        },
{
    assert(r.open.push(r.listed(entries).open.last()).drop_last() =~= r.open);
}

/// A file that was removed is counted with its size and no longer left. A directory
/// is counted as one, and no longer left where it stood; the one where the deletion
/// started is not counted, and ends it.
pub proof fn removals_are_counted(r: RemovalView, size: u64)
    requires
        r.nested(),
        r.request() is RemoveFile || r.request() is RemoveDirectory,
        r.tally.bytes + size <= u64::MAX,
        r.tally.files + r.tally.dirs < u64::MAX,
    ensures
        ({
            let next = r.removed(size);
            let depth = r.open.len();
            &&& next.root == r.root
            &&& next.error == r.error
            &&& next.started == r.started
            &&& r.request() is RemoveFile ==> {
                &&& next.tally.bytes == r.tally.bytes + size
                &&& next.tally.files == r.tally.files + 1
                &&& next.tally.dirs == r.tally.dirs
                &&& next.open.len() == depth
                &&& next.open.drop_last() == r.open.drop_last()
                &&& next.open.last().dir == r.open.last().dir
                &&& next.open.last().left == r.open.last().left.drop_first()
            }
            &&& r.request() is RemoveDirectory ==> {
                &&& next.tally.bytes == r.tally.bytes
                &&& next.tally.files == r.tally.files
                &&& next.open.len() == depth - 1
                &&& depth == 1 ==> next.tally.dirs == r.tally.dirs && next.request() is Finished
                &&& depth > 1 ==> {
                    &&& next.tally.dirs == r.tally.dirs + 1
                    &&& next.open.last().dir == r.open[depth - 2].dir
                    &&& next.open.last().left == r.open[depth - 2].left.drop_first()
                    &&& next.open.drop_last() == r.open.drop_last().drop_last()
                }
            }
        }),
{
    let next = r.removed(size);
    let above = r.open.drop_last();
    if r.request() is RemoveFile {
        assert(next.open.drop_last() =~= above);
    } else if above.len() > 0 {
        assert(next.open.drop_last() =~= above.drop_last());
    }
}

/// A failure ends the deletion at once. It is told with the path that it befell, but
/// for the directory that was to be deleted when nothing was left in it; what was
/// counted stays so.
pub proof fn failures_end_the_deletion(r: RemovalView, reason: Seq<char>)
    requires
        !(r.request() is Finished),
    ensures
        r.failed(reason).request() is Finished,
        r.failed(reason).tally == r.tally,
        r.failed(reason).error matches Some(text) && match r.request() {
            RequestView::List(path) => text == path + ": "@ + reason,
            RequestView::RemoveFile(path) => text == path + ": "@ + reason,
            RequestView::RemoveDirectory(path) => if r.open.len() == 1 {
                text == reason
            } else {
                text == path + ": "@ + reason
            },
            RequestView::Finished => true,
        },
{
}

/// Progress is reported with every hundredth file or directory that is counted, and
/// with no other.
pub proof fn every_hundredth_is_reported(r: RemovalView, size: u64)
    requires
        r.nested(),
        r.request() is RemoveFile || r.request() is RemoveDirectory,
        r.tally.bytes + size <= u64::MAX,
        r.tally.files + r.tally.dirs < u64::MAX,
    ensures
        ({
            let next = r.removed(size);
            let before = r.tally.files + r.tally.dirs;
            let after = next.tally.files + next.tally.dirs;
            &&& after == before || after == before + 1
            &&& reports(r.tally, next.tally) <==> after == before + 1 && after % 100 == 0
        }),
{
    removals_are_counted(r, size);
}

} // verus!
