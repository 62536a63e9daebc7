//! All workers of a scan together, on any disk and in any order of their steps.

use crate::history::EntryView;
use crate::worker::{
    left_after, reaction, ActionView, EntryKind, EventView, FileMeta, QueueEvent,
    StateView,
};
use crate::{paths, sorting};
use vstd::prelude::*;

verus! {

/// A file or directory on the disk, as a scan can find it.
#[verifier::ext_equal]
pub struct DiskNode {
    pub name: Seq<char>,
    pub kind: EntryKind,
    /// What can be found out about it.
    pub meta: Option<FileMeta>,
    /// The device that a directory is on, where that can be found out.
    pub device: Option<u64>,
    /// What is in a directory, where it can be opened.
    pub listing: Option<Seq<DiskNode>>,
}

/// A directory to be scanned, and what the disk says of it.
#[verifier::ext_equal]
pub struct Dir {
    pub path: Seq<char>,
    pub device: Option<u64>,
    pub listing: Option<Seq<DiskNode>>,
}

/// Whether a directory on `device` is gone into by a scan of `root_device`
/// only, or of all devices where there is none.
pub open spec fn is_entered(root_device: Option<u64>, device: Option<u64>) -> bool {
    root_device is Some ==> device == root_device
}

/// Whether a node of the directory `path` is to be reported as `entry`: it is a
/// file or a directory, can be looked at and is on the device, and the entry says
/// of it what the disk does.
pub open spec fn is_due(
    root_device: Option<u64>,
    path: Seq<char>,
    node: DiskNode,
    entry: EntryView,
) -> bool {
    &&& node.kind == EntryKind::File || node.kind == EntryKind::Directory
    &&& entry.parent == path
    &&& entry.name == node.name
    &&& entry.is_dir <==> node.kind == EntryKind::Directory
    &&& node.meta matches Some(meta) && {
        &&& is_entered(root_device, Some(meta.device))
        &&& entry.mtime == meta.mtime
        &&& node.kind == EntryKind::File ==> entry.size == meta.len
        &&& node.kind == EntryKind::Directory ==> entry.size == 0
    }
}

/// How often `entry` is to be reported of the nodes in the directory `path` and
/// all that is below them: once for each file and directory that can be looked
/// at, is on the device, and is reported as this entry.
pub open spec fn due_among(
    root_device: Option<u64>,
    path: Seq<char>,
    nodes: Seq<DiskNode>,
    entry: EntryView,
) -> nat
    decreases nodes,
{
    if nodes.len() == 0 {
        0
    } else {
        let first = nodes[0];
        let own: nat = if is_due(root_device, path, first, entry) {
            1
        } else {
            0
        };
        let below = match first.listing {
            Some(inner) if first.kind == EntryKind::Directory && is_entered(
                root_device,
                first.device,
            ) => due_among(root_device, paths::joined(path, first.name), inner, entry),
            _ => 0,
        };
        own + below + due_among(root_device, path, nodes.drop_first(), entry)
    }
}

/// How often `entry` is to be reported of what is below a directory.
pub open spec fn due_in(root_device: Option<u64>, dir: Dir, entry: EntryView) -> nat {
    match dir.listing {
        Some(nodes) if is_entered(root_device, dir.device) => due_among(
            root_device,
            dir.path,
            nodes,
            entry,
        ),
        _ => 0,
    }
}

/// The most steps that it takes to go through nodes and all below them.
pub open spec fn steps_among(nodes: Seq<DiskNode>) -> nat
    decreases nodes,
{
    if nodes.len() == 0 {
        0
    } else {
        let below = match nodes[0].listing {
            Some(inner) => steps_among(inner),
            None => 0,
        };
        8 + below + steps_among(nodes.drop_first())
    }
}

/// The most steps that it takes to scan a directory.
pub open spec fn steps_in(dir: Dir) -> nat {
    4 + match dir.listing {
        Some(nodes) => steps_among(nodes),
        None => 0,
    }
}

/// A worker, the directory that it is at, and how many entries it was told of.
#[verifier::ext_equal]
pub struct Post {
    pub state: StateView,
    pub at: Dir,
    pub next: int,
}

impl Post {
    /// What the disk tells the worker next.
    pub open spec fn told(self) -> EventView {
        match self.state {
            StateView::Checking { .. } => EventView::Device(self.at.device),
            StateView::Opening { .. } => EventView::Opened(self.at.listing is Some),
            StateView::Reading { .. } => if self.next < self.at.listing->0.len() {
                let node = self.at.listing->0[self.next];
                EventView::Entry { name: node.name, kind: node.kind }
            } else {
                EventView::EndOfDirectory
            },
            StateView::Inspecting { .. } => EventView::Metadata(
                self.at.listing->0[self.next - 1].meta,
            ),
            StateView::Reporting { .. } => EventView::Reported(true),
            _ => EventView::NoDirectory,
        }
    }

    /// Whether the worker is at a directory.
    pub open spec fn is_busy(self) -> bool {
        !(self.state is Idle || self.state is Stopped)
    }
}

/// A scan: the directories that wait, the workers, what was reported, and what
/// happened to the queue.
#[verifier::ext_equal]
pub struct ScanView {
    pub waiting: Seq<Dir>,
    pub workers: Seq<Post>,
    pub reports: Seq<EntryView>,
    pub events: Seq<QueueEvent>,
}

/// One step of one worker.
pub enum Move {
    /// An idle worker takes one of the directories that wait.
    Take { worker: int, place: int },
    /// A worker at a directory is told what the disk says.
    Go { worker: int },
}

impl ScanView {
    /// Whether a step can be made.
    pub open spec fn allows(self, step: Move) -> bool {
        match step {
            Move::Take { worker, place } => {
                &&& 0 <= worker < self.workers.len()
                &&& self.workers[worker].state is Idle
                &&& 0 <= place < self.waiting.len()
            },
            Move::Go { worker } => 0 <= worker < self.workers.len()
                && self.workers[worker].is_busy(),
        }
    }

    /// The scan after a step. What the worker queues waits, what it reports is
    /// taken, and the queue is told of directories queued and finished.
    pub open spec fn after(self, root_device: Option<u64>, step: Move) -> ScanView {
        match step {
            Move::Take { worker, place } => {
                let dir = self.waiting[place];
                let (state, _) = reaction(
                    root_device,
                    self.workers[worker].state,
                    EventView::Directory(dir.path),
                );
                ScanView {
                    waiting: self.waiting.remove(place),
                    workers: self.workers.update(worker, Post { state, at: dir, next: 0 }),
                    ..self
                }
            },
            Move::Go { worker } => {
                let post = self.workers[worker];
                let (state, action) = reaction(root_device, post.state, post.told());
                let next = if post.told() is Entry {
                    post.next + 1
                } else {
                    post.next
                };
                let moved = ScanView {
                    workers: self.workers.update(worker, Post { state, next, ..post }),
                    ..self
                };
                match action {
                    ActionView::Inspect { path, queue } if queue => {
                        let node = post.at.listing->0[post.next];
                        ScanView {
                            waiting: self.waiting.push(
                                Dir { path, device: node.device, listing: node.listing },
                            ),
                            events: self.events.push(QueueEvent::Queued),
                            ..moved
                        }
                    },
                    ActionView::Report(entry) => ScanView {
                        reports: self.reports.push(entry),
                        ..moved
                    },
                    ActionView::FinishDirectory => ScanView {
                        events: self.events.push(QueueEvent::Finished),
                        ..moved
                    },
                    _ => moved,
                }
            },
        }
    }

    /// The scan after some steps.
    pub open spec fn after_all(self, root_device: Option<u64>, steps: Seq<Move>) -> ScanView
        decreases steps.len(),
    {
        if steps.len() == 0 {
            self
        } else {
            self.after_all(root_device, steps.drop_last()).after(root_device, steps.last())
        }
    }

    /// Whether some steps can be made one after the other.
    pub open spec fn allows_all(self, root_device: Option<u64>, steps: Seq<Move>) -> bool
        decreases steps.len(),
    {
        steps.len() == 0 || (self.allows_all(root_device, steps.drop_last()) && self.after_all(
            root_device,
            steps.drop_last(),
        ).allows(steps.last()))
    }

    /// Whether no directory waits and no worker is at one.
    pub open spec fn is_over(self) -> bool {
        &&& self.waiting.len() == 0
        &&& forall|i: int|
            0 <= i < self.workers.len() ==> !(#[trigger] self.workers[i]).is_busy()
    }
}

/// A scan of a directory that has not begun, with so many workers.
pub open spec fn scan_of(root: Dir, workers: nat) -> ScanView {
    ScanView {
        waiting: seq![root],
        workers: Seq::new(workers, |i: int| Post { state: StateView::Idle, at: root, next: 0 }),
        reports: Seq::empty(),
        events: Seq::empty(),
    }
}

/// Whether a worker's state goes with the directory that it is at.
spec fn is_sound(root_device: Option<u64>, post: Post) -> bool {
    let nodes = post.at.listing->0;
    match post.state {
        StateView::Idle => true,
        StateView::Checking { dir } => dir == post.at.path && post.next == 0 && root_device is Some,
        StateView::Opening { dir } => dir == post.at.path && post.next == 0 && is_entered(
            root_device,
            post.at.device,
        ),
        StateView::Reading { dir } => dir == post.at.path && post.at.listing is Some && 0
            <= post.next <= nodes.len(),
        StateView::Inspecting { dir, name, is_dir } => {
            &&& dir == post.at.path
            &&& post.at.listing is Some
            &&& 1 <= post.next <= nodes.len()
            &&& nodes[post.next - 1].kind.counts()
            &&& name == nodes[post.next - 1].name
            &&& is_dir == (nodes[post.next - 1].kind == EntryKind::Directory)
        },
        StateView::Reporting { dir } => dir == post.at.path && post.at.listing is Some && 0
            <= post.next <= nodes.len(),
        StateView::Stopped => false,
    }
}

/// How often a worker will still report `entry` of the directory that it is at,
/// directories below that are not queued yet included.
spec fn due_by(root_device: Option<u64>, post: Post, entry: EntryView) -> nat {
    let nodes = post.at.listing->0;
    match post.state {
        StateView::Checking { .. } | StateView::Opening { .. } => due_in(
            root_device,
            post.at,
            entry,
        ),
        StateView::Reading { .. } | StateView::Reporting { .. } => due_among(
            root_device,
            post.at.path,
            nodes.skip(post.next),
            entry,
        ),
        StateView::Inspecting { .. } => {
            let node = nodes[post.next - 1];
            due_among(root_device, post.at.path, nodes.skip(post.next), entry) + if is_due(
                root_device,
                post.at.path,
                node,
                entry,
            ) {
                1nat
            } else {
                0
            }
        },
        _ => 0,
    }
}

/// The most steps that a worker needs until it is idle, those for directories
/// that are not queued yet included.
spec fn steps_by(post: Post) -> nat {
    let nodes = post.at.listing->0;
    match post.state {
        StateView::Checking { .. } => (steps_in(post.at) - 1) as nat,
        StateView::Opening { .. } => (steps_in(post.at) - 2) as nat,
        StateView::Reading { .. } => 1 + steps_among(nodes.skip(post.next)),
        StateView::Inspecting { .. } => 3 + steps_among(nodes.skip(post.next)),
        StateView::Reporting { .. } => 2 + steps_among(nodes.skip(post.next)),
        _ => 0,
    }
}

/// What counts workers at directories.
spec fn busy() -> spec_fn(Post) -> nat {
    |post: Post|
        if post.is_busy() {
            1
        } else {
            0
        }
}

/// What all that is in progress amounts to: how often `entry` was or will be
/// reported.
spec fn promised(root_device: Option<u64>, scan: ScanView, entry: EntryView) -> nat {
    scan.reports.to_multiset().count(entry) + sorting::weigh(
        scan.waiting,
        |dir: Dir| due_in(root_device, dir, entry),
    ) + sorting::weigh(scan.workers, |post: Post| due_by(root_device, post, entry))
}

/// The most steps that are left.
spec fn steps_left(scan: ScanView) -> nat {
    sorting::weigh(scan.waiting, |dir: Dir| steps_in(dir)) + sorting::weigh(
        scan.workers,
        |post: Post| steps_by(post),
    )
}

/// Whether every worker's state is sound, and the queue knows how many
/// directories wait or are being scanned.
spec fn holds(root_device: Option<u64>, scan: ScanView) -> bool {
    &&& forall|i: int|
        0 <= i < scan.workers.len() ==> is_sound(root_device, #[trigger] scan.workers[i])
    &&& left_after(scan.events) == scan.waiting.len() + sorting::weigh(scan.workers, busy())
}

/// The directory that a worker queues when it asks for `action`.
spec fn queued_by(post: Post, action: ActionView) -> Option<Dir> {
    match action {
        ActionView::Inspect { path, queue } if queue => {
            let node = post.at.listing->0[post.next];
            Some(Dir { path, device: node.device, listing: node.listing })
        },
        _ => None,
    }
}

/// A worker that goes on stays sound, and what it no longer has to report it
/// has reported or queued.
proof fn lemma_go(root_device: Option<u64>, post: Post, entry: EntryView)
    requires
        is_sound(root_device, post),
        post.is_busy(),
    ensures
        ({
            let (state, action) = reaction(root_device, post.state, post.told());
            let next = if post.told() is Entry {
                post.next + 1
            } else {
                post.next
            };
            let gone = Post { state, next, ..post };
            let queued = queued_by(post, action);
            &&& is_sound(root_device, gone)
            &&& gone.is_busy() == !(action is FinishDirectory)
            &&& action is FinishDirectory || action is NextEntry || action is Inspect
                || action is Report || action is OpenDirectory
            &&& due_by(root_device, post, entry) == due_by(root_device, gone, entry) + (
            if action == ActionView::Report(entry) {
                1nat
            } else {
                0
            }) + (match queued {
                Some(dir) => due_in(root_device, dir, entry),
                None => 0,
            })
            &&& steps_by(post) > steps_by(gone) + (match queued {
                Some(dir) => steps_in(dir),
                None => 0,
            })
        }),
{
    let nodes = post.at.listing->0;
    match post.state {
        StateView::Opening { .. } => {
            if post.at.listing is Some {
                assert(nodes.skip(0) =~= nodes);
            }
        },
        StateView::Reading { .. } => {
            if post.next < nodes.len() {
                let rest = nodes.skip(post.next);
                assert(rest[0] == nodes[post.next]);
                assert(rest.drop_first() =~= nodes.skip(post.next + 1));
            }
        },
        _ => {},
    }
}

/// A step keeps what is promised, and leaves fewer steps.
proof fn lemma_step(root_device: Option<u64>, scan: ScanView, step: Move, entry: EntryView)
    requires
        holds(root_device, scan),
        scan.allows(step),
    ensures
        holds(root_device, scan.after(root_device, step)),
        promised(root_device, scan.after(root_device, step), entry) == promised(
            root_device,
            scan,
            entry,
        ),
        steps_left(scan.after(root_device, step)) < steps_left(scan),
{
    broadcast use vstd::seq_lib::group_to_multiset_ensures;

    let next = scan.after(root_device, step);
    let due_waiting = |dir: Dir| due_in(root_device, dir, entry);
    let due_busy = |post: Post| due_by(root_device, post, entry);
    let steps_waiting = |dir: Dir| steps_in(dir);
    let steps_busy = |post: Post| steps_by(post);
    match step {
        Move::Take { worker, place } => {
            let dir = scan.waiting[place];
            let post = next.workers[worker];
            sorting::lemma_weigh_removed(scan.waiting, place, due_waiting);
            sorting::lemma_weigh_removed(scan.waiting, place, steps_waiting);
            sorting::lemma_weigh_updated(scan.workers, worker, post, due_busy);
            sorting::lemma_weigh_updated(scan.workers, worker, post, steps_busy);
            sorting::lemma_weigh_updated(scan.workers, worker, post, busy());
            assert(is_sound(root_device, post));
            assert(is_sound(root_device, scan.workers[worker]));
        },
        Move::Go { worker } => {
            let post = scan.workers[worker];
            let gone = next.workers[worker];
            let (state, action) = reaction(root_device, post.state, post.told());
            assert(is_sound(root_device, scan.workers[worker]));
            lemma_go(root_device, post, entry);
            sorting::lemma_weigh_updated(scan.workers, worker, gone, due_busy);
            sorting::lemma_weigh_updated(scan.workers, worker, gone, steps_busy);
            sorting::lemma_weigh_updated(scan.workers, worker, gone, busy());
            match queued_by(post, action) {
                Some(dir) => {
                    sorting::lemma_weigh_pushed(scan.waiting, dir, due_waiting);
                    sorting::lemma_weigh_pushed(scan.waiting, dir, steps_waiting);
                    assert(next.events.drop_last() =~= scan.events);
                },
                None => {},
            }
            if let ActionView::Report(found) = action {
                assert(next.reports.to_multiset() == scan.reports.to_multiset().insert(found));
            }
            if action is FinishDirectory {
                assert(next.events.drop_last() =~= scan.events);
            }
        },
    }
    assert forall|i: int| 0 <= i < next.workers.len() implies is_sound(
        root_device,
        #[trigger] next.workers[i],
    ) by {
        assert(is_sound(root_device, scan.workers[i]));
    }
}

proof fn lemma_nothing_weighs<T>(items: Seq<T>, weight: spec_fn(T) -> nat)
    requires
        forall|i: int| 0 <= i < items.len() ==> weight(#[trigger] items[i]) == 0,
    ensures
        sorting::weigh(items, weight) == 0,
    decreases items.len(),
{
    if items.len() > 0 {
        assert(weight(items[items.len() - 1]) == 0);
        lemma_nothing_weighs(items.drop_last(), weight);
    }
}

proof fn lemma_one_weighs<T>(items: Seq<T>, weight: spec_fn(T) -> nat, i: int)
    requires
        0 <= i < items.len(),
    ensures
        weight(items[i]) <= sorting::weigh(items, weight),
    decreases items.len(),
{
    if i < items.len() - 1 {
        lemma_one_weighs(items.drop_last(), weight, i);
    }
}

proof fn lemma_steps(
    root_device: Option<u64>,
    root: Dir,
    workers: nat,
    steps: Seq<Move>,
    entry: EntryView,
)
    requires
        scan_of(root, workers).allows_all(root_device, steps),
    ensures
        ({
            let scan = scan_of(root, workers).after_all(root_device, steps);
            &&& holds(root_device, scan)
            &&& promised(root_device, scan, entry) == due_in(root_device, root, entry)
            &&& steps.len() + steps_left(scan) <= steps_in(root)
            &&& scan.workers.len() == workers
        }),
    decreases steps.len(),
{
    broadcast use vstd::seq_lib::group_to_multiset_ensures;

    let start = scan_of(root, workers);
    if steps.len() == 0 {
        let due_waiting = |dir: Dir| due_in(root_device, dir, entry);
        let steps_waiting = |dir: Dir| steps_in(dir);
        let none = Seq::<Dir>::empty();
        sorting::lemma_weigh_pushed(none, root, due_waiting);
        sorting::lemma_weigh_pushed(none, root, steps_waiting);
        assert(none.push(root) =~= start.waiting);
        lemma_nothing_weighs(start.workers, |post: Post| due_by(root_device, post, entry));
        lemma_nothing_weighs(start.workers, |post: Post| steps_by(post));
        lemma_nothing_weighs(start.workers, busy());
    } else {
        let before = steps.drop_last();
        lemma_steps(root_device, root, workers, before, entry);
        lemma_step(root_device, start.after_all(root_device, before), steps.last(), entry);
    }
}

/// However many workers there are and in whatever order they make their steps,
/// a scan comes to its end after so many steps at most. As long as directories
/// are left some worker can go on, and when none is left no worker can: the
/// queue is closed then and not before. In the end every file and directory
/// below the root that is no symlink and can be looked at was reported once,
/// under the path of its directory, and nothing else was.
pub proof fn a_scan_reports_everything_once(
    root_device: Option<u64>,
    root: Dir,
    workers: nat,
    steps: Seq<Move>,
)
    requires
        workers > 0,
        scan_of(root, workers).allows_all(root_device, steps),
    ensures
        ({
            let scan = scan_of(root, workers).after_all(root_device, steps);
            &&& steps.len() <= steps_in(root)
            &&& 0 <= left_after(scan.events)
            &&& left_after(scan.events) == 0 <==> scan.is_over()
            &&& left_after(scan.events) == 0 <==> !exists|step: Move| scan.allows(step)
            &&& left_after(scan.events) == 0 ==> forall|entry: EntryView|
                #[trigger] scan.reports.to_multiset().count(entry) == due_in(
                    root_device,
                    root,
                    entry,
                )
            &&& forall|entry: EntryView|
                #[trigger] scan.reports.to_multiset().count(entry) <= due_in(
                    root_device,
                    root,
                    entry,
                )
        }),
{
    let scan = scan_of(root, workers).after_all(root_device, steps);
    assert forall|entry: EntryView|
        #[trigger] scan.reports.to_multiset().count(entry) <= due_in(root_device, root, entry) && (
        left_after(scan.events) == 0 ==> scan.reports.to_multiset().count(entry) == due_in(
            root_device,
            root,
            entry,
        )) by {
        lemma_steps(root_device, root, workers, steps, entry);
        if left_after(scan.events) == 0 {
            let due_busy = |post: Post| due_by(root_device, post, entry);
            assert forall|i: int| 0 <= i < scan.workers.len() implies due_busy(
                #[trigger] scan.workers[i],
            ) == 0 by {
                lemma_one_weighs(scan.workers, busy(), i);
            }
            lemma_nothing_weighs(scan.workers, due_busy);
        }
    }
    lemma_steps(root_device, root, workers, steps, arbitrary());
    if left_after(scan.events) == 0 {
        assert forall|i: int| 0 <= i < scan.workers.len() implies !(
        #[trigger] scan.workers[i]).is_busy() by {
            lemma_one_weighs(scan.workers, busy(), i);
        }
    } else if scan.waiting.len() == 0 {
        if forall|i: int| 0 <= i < scan.workers.len() ==> !(#[trigger] scan.workers[i]).is_busy() {
            lemma_nothing_weighs(scan.workers, busy());
        }
        let i = choose|i: int|
            0 <= i < scan.workers.len() && (#[trigger] scan.workers[i]).is_busy();
        assert(scan.allows(Move::Go { worker: i }));
    } else {
        assert(is_sound(root_device, scan.workers[0]));
        if scan.workers[0].is_busy() {
            assert(scan.allows(Move::Go { worker: 0 }));
        } else {
            assert(scan.allows(Move::Take { worker: 0, place: 0 }));
        }
    }
}

} // verus!
