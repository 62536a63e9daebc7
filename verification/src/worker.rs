//! How a scan worker goes through directories. The worker itself does not
//! touch the disk: it is told what was found and says what to do next.

use crate::builder::StatEntry;
use crate::history::EntryView;
use crate::node::Timestamp;
use crate::paths;
use crate::scanner::ScanOptions;
use vstd::prelude::*;

verus! {

/// What the disk says an entry of a directory is.
#[derive(Clone, Copy, Debug, PartialEq, Eq, Structural)]
pub enum EntryKind {
    /// The entry or its kind could not be read.
    Unknown,
    Symlink,
    Directory,
    File,
}

impl EntryKind {
    /// Whether entries of this kind are looked at.
    pub open spec fn counts(self) -> bool {
        self == EntryKind::Directory || self == EntryKind::File
    }

    pub fn is_followed(self) -> (r: bool)
        ensures
            r == self.counts(),
    {
        match self {
            EntryKind::Directory | EntryKind::File => true,
            EntryKind::Unknown | EntryKind::Symlink => false,
        }
    }
}

/// What the disk says of a file or directory.
#[derive(Clone, Copy, Debug, PartialEq, Eq, Structural)]
pub struct FileMeta {
    pub device: u64,
    pub len: u64,
    pub mtime: Option<Timestamp>,
}

/// What a worker is in the middle of.
#[derive(Debug)]
pub enum WorkerState {
    /// Waiting for a directory.
    Idle,
    /// Finding out on which device `dir` is.
    Checking { dir: String },
    /// Opening `dir`.
    Opening { dir: String },
    /// Going through the entries of `dir`.
    Reading { dir: String },
    /// Finding out about the entry `name` of `dir`.
    Inspecting { dir: String, name: String, is_dir: bool },
    /// Reporting an entry of `dir`.
    Reporting { dir: String },
    /// Done for good.
    Stopped,
}

/// What a worker is told.
#[derive(Debug)]
pub enum WorkerEvent {
    /// There is a directory to scan.
    Directory(String),
    /// There will be no further directory.
    NoDirectory,
    /// The device of the directory, where it could be found out.
    Device(Option<u64>),
    /// Whether the directory could be opened.
    Opened(bool),
    Entry { name: String, kind: EntryKind },
    /// There is no further entry.
    EndOfDirectory,
    /// What is known of the entry, where it could be found out.
    Metadata(Option<FileMeta>),
    /// Whether somebody took the report.
    Reported(bool),
}

/// What a worker asks for.
#[derive(Debug)]
pub enum WorkerAction {
    AwaitDirectory,
    CheckDevice(String),
    OpenDirectory(String),
    NextEntry,
    /// Find out about the entry at `path`; a directory is first queued to be
    /// scanned.
    Inspect { path: String, queue: bool },
    Report(StatEntry),
    /// The directory is done; the next one is awaited.
    FinishDirectory,
    /// End, and no longer show what the worker is busy with.
    Stop,
    /// End at once: nobody takes the reports.
    Abandon,
}

#[verifier::ext_equal]
pub enum StateView {
    Idle,
    Checking { dir: Seq<char> },
    Opening { dir: Seq<char> },
    Reading { dir: Seq<char> },
    Inspecting { dir: Seq<char>, name: Seq<char>, is_dir: bool },
    Reporting { dir: Seq<char> },
    Stopped,
}

#[verifier::ext_equal]
pub enum EventView {
    Directory(Seq<char>),
    NoDirectory,
    Device(Option<u64>),
    Opened(bool),
    Entry { name: Seq<char>, kind: EntryKind },
    EndOfDirectory,
    Metadata(Option<FileMeta>),
    Reported(bool),
}

#[verifier::ext_equal]
pub enum ActionView {
    AwaitDirectory,
    CheckDevice(Seq<char>),
    OpenDirectory(Seq<char>),
    NextEntry,
    Inspect { path: Seq<char>, queue: bool },
    Report(EntryView),
    FinishDirectory,
    Stop,
    Abandon,
}

impl View for WorkerState {
    type V = StateView;

    open spec fn view(&self) -> StateView {
        match *self {
            WorkerState::Idle => StateView::Idle,
            WorkerState::Checking { dir } => StateView::Checking { dir: dir@ },
            WorkerState::Opening { dir } => StateView::Opening { dir: dir@ },
            WorkerState::Reading { dir } => StateView::Reading { dir: dir@ },
            WorkerState::Inspecting { dir, name, is_dir } => StateView::Inspecting {
                dir: dir@,
                name: name@,
                is_dir,
            },
            WorkerState::Reporting { dir } => StateView::Reporting { dir: dir@ },
            WorkerState::Stopped => StateView::Stopped,
        }
    }
}

impl View for WorkerEvent {
    type V = EventView;

    open spec fn view(&self) -> EventView {
        match *self {
            WorkerEvent::Directory(dir) => EventView::Directory(dir@),
            WorkerEvent::NoDirectory => EventView::NoDirectory,
            WorkerEvent::Device(device) => EventView::Device(device),
            WorkerEvent::Opened(ok) => EventView::Opened(ok),
            WorkerEvent::Entry { name, kind } => EventView::Entry { name: name@, kind },
            WorkerEvent::EndOfDirectory => EventView::EndOfDirectory,
            WorkerEvent::Metadata(meta) => EventView::Metadata(meta),
            WorkerEvent::Reported(ok) => EventView::Reported(ok),
        }
    }
}

impl View for WorkerAction {
    type V = ActionView;

    open spec fn view(&self) -> ActionView {
        match *self {
            WorkerAction::AwaitDirectory => ActionView::AwaitDirectory,
            WorkerAction::CheckDevice(dir) => ActionView::CheckDevice(dir@),
            WorkerAction::OpenDirectory(dir) => ActionView::OpenDirectory(dir@),
            WorkerAction::NextEntry => ActionView::NextEntry,
            WorkerAction::Inspect { path, queue } => ActionView::Inspect { path: path@, queue },
            WorkerAction::Report(entry) => ActionView::Report(entry@),
            WorkerAction::FinishDirectory => ActionView::FinishDirectory,
            WorkerAction::Stop => ActionView::Stop,
            WorkerAction::Abandon => ActionView::Abandon,
        }
    }
}

/// Whether a worker in this state can be told this.
pub open spec fn expects(state: StateView, event: EventView) -> bool {
    match state {
        StateView::Idle => event is Directory || event is NoDirectory,
        StateView::Checking { .. } => event is Device,
        StateView::Opening { .. } => event is Opened,
        StateView::Reading { .. } => event is Entry || event is EndOfDirectory,
        StateView::Inspecting { .. } => event is Metadata,
        StateView::Reporting { .. } => event is Reported,
        StateView::Stopped => false,
    }
}

/// Whether something on `device` belongs to a scan of `root_device` only, or
/// of all devices where there is none.
pub open spec fn on_device(root_device: Option<u64>, device: u64) -> bool {
    root_device matches Some(root) ==> device == root
}

/// What an entry is reported as, if it is.
pub open spec fn report_of(
    root_device: Option<u64>,
    dir: Seq<char>,
    name: Seq<char>,
    is_dir: bool,
    meta: Option<FileMeta>,
) -> Option<EntryView> {
    match meta {
        Some(m) if on_device(root_device, m.device) => Some(
            EntryView {
                parent: dir,
                name,
                is_dir,
                size: if is_dir {
                    0
                } else {
                    m.len as nat
                },
                mtime: m.mtime,
            },
        ),
        _ => None,
    }
}

/// What a worker does when it is told something.
pub open spec fn reaction(
    root_device: Option<u64>,
    state: StateView,
    event: EventView,
) -> (StateView, ActionView) {
    match (state, event) {
        (StateView::Idle, EventView::Directory(dir)) => if root_device is Some {
            (StateView::Checking { dir }, ActionView::CheckDevice(dir))
        } else {
            (StateView::Opening { dir }, ActionView::OpenDirectory(dir))
        },
        (StateView::Checking { dir }, EventView::Device(Some(device))) if on_device(
            root_device,
            device,
        ) => (StateView::Opening { dir }, ActionView::OpenDirectory(dir)),
        (StateView::Checking { .. }, _) => (StateView::Idle, ActionView::FinishDirectory),
        (StateView::Opening { dir }, EventView::Opened(true)) => (
            StateView::Reading { dir },
            ActionView::NextEntry,
        ),
        (StateView::Opening { .. }, _) => (StateView::Idle, ActionView::FinishDirectory),
        (StateView::Reading { dir }, EventView::Entry { name, kind }) => if kind.counts() {
            (
                StateView::Inspecting { dir, name, is_dir: kind == EntryKind::Directory },
                ActionView::Inspect {
                    path: paths::joined(dir, name),
                    queue: kind == EntryKind::Directory,
                },
            )
        } else {
            (StateView::Reading { dir }, ActionView::NextEntry)
        },
        (StateView::Reading { .. }, _) => (StateView::Idle, ActionView::FinishDirectory),
        (StateView::Inspecting { dir, name, is_dir }, EventView::Metadata(meta)) => {
            match report_of(root_device, dir, name, is_dir, meta) {
                Some(entry) => (StateView::Reporting { dir }, ActionView::Report(entry)),
                None => (StateView::Reading { dir }, ActionView::NextEntry),
            }
        },
        (StateView::Reporting { dir }, EventView::Reported(true)) => (
            StateView::Reading { dir },
            ActionView::NextEntry,
        ),
        (StateView::Reporting { .. }, _) => (StateView::Stopped, ActionView::Abandon),
        _ => (StateView::Stopped, ActionView::Stop),
    }
}

/// A scan worker.
#[derive(Debug)]
pub struct Worker {
    /// The only device to scan, if there is one.
    pub root_device: Option<u64>,
    pub state: WorkerState,
}

impl Worker {
    pub fn new(root_device: Option<u64>) -> (r: Worker)
        ensures
            r.root_device == root_device,
            r.state@ == StateView::Idle,
    {
        Worker { root_device, state: WorkerState::Idle }
    }

    fn is_on_device(&self, device: u64) -> (r: bool)
        ensures
            r == on_device(self.root_device, device),
    {
        match self.root_device {
            Some(root) => device == root,
            None => true,
        }
    }

    /// Tells the worker what has happened; what it asks for next is returned.
    pub fn scan_worker(&mut self, event: WorkerEvent) -> (r: WorkerAction)
        requires
            expects(old(self).state@, event@),
        ensures
            final(self).root_device == old(self).root_device,
            (final(self).state@, r@) == reaction(old(self).root_device, old(self).state@, event@),
    {
        let mut state = WorkerState::Stopped;
        std::mem::swap(&mut state, &mut self.state);
        match (state, event) {
            (WorkerState::Idle, WorkerEvent::Directory(dir)) => if self.root_device.is_some() {
                self.state = WorkerState::Checking { dir: dir.clone() };
                WorkerAction::CheckDevice(dir)
            } else {
                self.state = WorkerState::Opening { dir: dir.clone() };
                WorkerAction::OpenDirectory(dir)
            },
            (WorkerState::Checking { dir }, WorkerEvent::Device(device)) => {
                let scan = match device {
                    Some(d) => self.is_on_device(d),
                    None => false,
                };
                if scan {
                    self.state = WorkerState::Opening { dir: dir.clone() };
                    WorkerAction::OpenDirectory(dir)
                } else {
                    self.state = WorkerState::Idle;
                    WorkerAction::FinishDirectory
                }
            },
            (WorkerState::Opening { dir }, WorkerEvent::Opened(ok)) => if ok {
                self.state = WorkerState::Reading { dir };
                WorkerAction::NextEntry
            } else {
                self.state = WorkerState::Idle;
                WorkerAction::FinishDirectory
            },
            (WorkerState::Reading { dir }, WorkerEvent::Entry { name, kind }) => {
                if kind.is_followed() {
                    let is_dir = kind == EntryKind::Directory;
                    let path = paths::join(dir.as_str(), name.as_str());
                    self.state = WorkerState::Inspecting { dir, name, is_dir };
                    WorkerAction::Inspect { path, queue: is_dir }
                } else {
                    self.state = WorkerState::Reading { dir };
                    WorkerAction::NextEntry
                }
            },
            (WorkerState::Reading { .. }, WorkerEvent::EndOfDirectory) => {
                self.state = WorkerState::Idle;
                WorkerAction::FinishDirectory
            },
            (WorkerState::Inspecting { dir, name, is_dir }, WorkerEvent::Metadata(meta)) => {
                if let Some(m) = meta {
                    if self.is_on_device(m.device) {
                        let entry = StatEntry {
                            parent: dir.clone(),
                            name,
                            is_dir,
                            size: if is_dir {
                                0
                            } else {
                                m.len
                            },
                            mtime: m.mtime,
                        };
                        self.state = WorkerState::Reporting { dir };
                        return WorkerAction::Report(entry);
                    }
                }
                self.state = WorkerState::Reading { dir };
                WorkerAction::NextEntry
            },
            (WorkerState::Reporting { dir }, WorkerEvent::Reported(ok)) => if ok {
                self.state = WorkerState::Reading { dir };
                WorkerAction::NextEntry
            } else {
                WorkerAction::Abandon
            },
            _ => WorkerAction::Stop,
        }
    }
}

/// The directory that a worker is at.
pub open spec fn dir_of(state: StateView) -> Option<Seq<char>> {
    match state {
        StateView::Checking { dir } => Some(dir),
        StateView::Opening { dir } => Some(dir),
        StateView::Reading { dir } => Some(dir),
        StateView::Inspecting { dir, .. } => Some(dir),
        StateView::Reporting { dir } => Some(dir),
        _ => None,
    }
}

/// A worker stays at a directory until it says that it is done with it, and
/// says so only then; the one way out is that nobody takes its reports.
pub proof fn directories_are_finished(
    root_device: Option<u64>,
    state: StateView,
    event: EventView,
)
    requires
        expects(state, event),
    ensures
        ({
            let (next, action) = reaction(root_device, state, event);
            &&& action is FinishDirectory <==> dir_of(state) is Some && next is Idle
            &&& dir_of(state) is Some ==> dir_of(next) == dir_of(state) || action is FinishDirectory
                || event == EventView::Reported(false)
            &&& state is Idle ==> match event {
                EventView::Directory(dir) => dir_of(next) == Some(dir),
                _ => next is Stopped,
            }
        }),
{
}

/// What a worker reports stands in the directory that it is at and on the
/// device that is scanned; directories have no size of their own.
pub proof fn reports_are_of_the_directory(
    root_device: Option<u64>,
    state: StateView,
    event: EventView,
)
    requires
        expects(state, event),
    ensures
        reaction(root_device, state, event).1 matches ActionView::Report(entry) ==> {
            &&& Some(entry.parent) == dir_of(state)
            &&& entry.is_dir ==> entry.size == 0
            &&& event matches EventView::Metadata(Some(meta)) && on_device(
                root_device,
                meta.device,
            ) && entry.mtime == meta.mtime
        },
        reaction(root_device, state, event).1 matches ActionView::Inspect { path, queue } ==> {
            event matches EventView::Entry { name, kind } && dir_of(state) is Some && path
                == paths::joined(dir_of(state)->0, name) && queue == (kind == EntryKind::Directory)
        },
{
}

/// What the disk says of an entry is what is reported of it: under its name, as
/// the file or directory it is, with the time it was changed, and a file with
/// the length it has. Only what could be looked at and is on the scanned device
/// is reported.
pub proof fn reports_tell_what_the_disk_says(
    root_device: Option<u64>,
    dir: Seq<char>,
    name: Seq<char>,
    is_dir: bool,
    meta: Option<FileMeta>,
)
    ensures
        ({
            let (next, action) = reaction(
                root_device,
                StateView::Inspecting { dir, name, is_dir },
                EventView::Metadata(meta),
            );
            match meta {
                Some(found) if root_device is None || root_device == Some(found.device) => {
                    &&& next == (StateView::Reporting { dir })
                    &&& action matches ActionView::Report(entry) && {
                        &&& entry.parent == dir
                        &&& entry.name == name
                        &&& entry.is_dir == is_dir
                        &&& entry.mtime == found.mtime
                        &&& !is_dir ==> entry.size == found.len
                        &&& is_dir ==> entry.size == 0
                    }
                },
                _ => next == (StateView::Reading { dir }) && action is NextEntry,
            }
        }),
{
}

/// A worker looks at every file and every directory that it reads of, queues
/// the directories and only them, and passes over links and what cannot be
/// read.
pub proof fn files_and_directories_are_inspected(
    root_device: Option<u64>,
    dir: Seq<char>,
    name: Seq<char>,
    kind: EntryKind,
)
    ensures
        ({
            let (next, action) = reaction(
                root_device,
                StateView::Reading { dir },
                EventView::Entry { name, kind },
            );
            match kind {
                EntryKind::File => {
                    &&& next == (StateView::Inspecting { dir, name, is_dir: false })
                    &&& action matches ActionView::Inspect { path, queue } && path
                        == paths::joined(dir, name) && !queue
                },
                EntryKind::Directory => {
                    &&& next == (StateView::Inspecting { dir, name, is_dir: true })
                    &&& action matches ActionView::Inspect { path, queue } && path
                        == paths::joined(dir, name) && queue
                },
                EntryKind::Symlink | EntryKind::Unknown => {
                    next == (StateView::Reading { dir }) && action is NextEntry
                },
            }
        }),
{
}

/// A directory is read where it can be opened and, if only one device is
/// scanned, is found to be on that one; otherwise it is finished at once.
pub proof fn directories_are_read_where_they_can_be(
    root_device: Option<u64>,
    dir: Seq<char>,
    device: Option<u64>,
    opened: bool,
)
    ensures
        ({
            let taken = reaction(root_device, StateView::Idle, EventView::Directory(dir));
            let checked = reaction(
                root_device,
                StateView::Checking { dir },
                EventView::Device(device),
            );
            let tried = reaction(
                root_device,
                StateView::Opening { dir },
                EventView::Opened(opened),
            );
            let opening = (StateView::Opening { dir }, ActionView::OpenDirectory(dir));
            let finished = (StateView::Idle, ActionView::FinishDirectory);
            &&& root_device is None ==> taken == opening
            &&& root_device is Some ==> taken == (
                StateView::Checking { dir },
                ActionView::CheckDevice(dir),
            )
            &&& root_device is Some && device == root_device ==> checked == opening
            &&& root_device is Some && device != root_device ==> checked == finished
            &&& opened ==> tried == (StateView::Reading { dir }, ActionView::NextEntry)
            &&& !opened ==> tried == finished
        }),
{
}

/// What a worker that reads `dir` makes of one entry, if its reports are
/// taken: the state it is in afterwards, what it reports and what it queues.
pub open spec fn handled(
    root_device: Option<u64>,
    dir: Seq<char>,
    name: Seq<char>,
    kind: EntryKind,
    meta: Option<FileMeta>,
) -> (StateView, Option<EntryView>, Option<Seq<char>>) {
    let (state, action) = reaction(
        root_device,
        StateView::Reading { dir },
        EventView::Entry { name, kind },
    );
    match action {
        ActionView::Inspect { path, queue } => {
            let queued = if queue {
                Some(path)
            } else {
                None
            };
            let (state, action) = reaction(root_device, state, EventView::Metadata(meta));
            match action {
                ActionView::Report(entry) => (
                    reaction(root_device, state, EventView::Reported(true)).0,
                    Some(entry),
                    queued,
                ),
                _ => (state, None, queued),
            }
        },
        _ => (state, None, None),
    }
}

/// Of every entry a worker goes on to the next one. It reports the files and
/// directories that could be looked at and are on the device, each once, and
/// queues every directory, whether or not it could be looked at.
pub proof fn every_entry_is_handled(
    root_device: Option<u64>,
    dir: Seq<char>,
    name: Seq<char>,
    kind: EntryKind,
    meta: Option<FileMeta>,
)
    ensures
        handled(root_device, dir, name, kind, meta) == (
            StateView::Reading { dir },
            match meta {
                Some(found) if (kind == EntryKind::File || kind == EntryKind::Directory) && (
                root_device is None || root_device == Some(found.device)) => Some(
                    EntryView {
                        parent: dir,
                        name,
                        is_dir: kind == EntryKind::Directory,
                        size: if kind == EntryKind::File {
                            found.len as nat
                        } else {
                            0
                        },
                        mtime: found.mtime,
                    },
                ),
                _ => None,
            },
            if kind == EntryKind::Directory {
                Some(paths::joined(dir, name))
            } else {
                None
            },
        ),
{
}

/// What happens to the queue of directories.
#[verifier::ext_equal]
pub enum QueueEvent {
    Queued,
    Finished,
}

/// How many directories are left after so much has happened, starting with
/// the one where the scan starts.
pub open spec fn left_after(events: Seq<QueueEvent>) -> int
    decreases events.len(),
{
    if events.len() == 0 {
        1
    } else {
        left_after(events.drop_last()) + match events.last() {
            QueueEvent::Queued => 1int,
            QueueEvent::Finished => -1int,
        }
    }
}

/// The directories that wait to be scanned or are being scanned.
pub struct Frontier {
    in_flight: usize,
    log: Ghost<Seq<QueueEvent>>,
}

impl Frontier {
    /// What has happened so far.
    pub closed spec fn log(self) -> Seq<QueueEvent> {
        self.log@
    }

    pub closed spec fn wf(self) -> bool {
        self.in_flight == left_after(self.log@)
    }

    /// How many directories are left.
    pub open spec fn left(self) -> int {
        left_after(self.log())
    }

    /// Only the directory where the scan starts is left.
    pub fn new() -> (r: Frontier)
        ensures
            r.wf(),
            r.log() == Seq::<QueueEvent>::empty(),
    {
        Frontier { in_flight: 1, log: Ghost(Seq::empty()) }
    }

    /// Whether one more directory can be counted.
    pub fn has_room(&self) -> (r: bool)
        requires
            self.wf(),
        ensures
            r == (self.left() < usize::MAX),
    {
        self.in_flight < usize::MAX
    }

    /// Whether nothing is left.
    pub fn is_done(&self) -> (r: bool)
        requires
            self.wf(),
        ensures
            r == (self.left() == 0),
    {
        self.in_flight == 0
    }

    /// One more directory was queued.
    pub fn queued(&mut self)
        requires
            old(self).wf(),
            old(self).left() < usize::MAX,
        ensures
            final(self).wf(),
            final(self).log() == old(self).log().push(QueueEvent::Queued),
    {
        self.in_flight += 1;
        let ghost longer = self.log@.push(QueueEvent::Queued);
        assert(longer.drop_last() =~= self.log@);
        self.log = Ghost(longer);
    }

    /// A directory is done. Whether it was the last one is returned; the queue
    /// is closed then.
    pub fn finished(&mut self) -> (last: bool)
        requires
            old(self).wf(),
            old(self).left() > 0,
        ensures
            final(self).wf(),
            final(self).log() == old(self).log().push(QueueEvent::Finished),
            last == (final(self).left() == 0),
    {
        self.in_flight -= 1;
        let ghost longer = self.log@.push(QueueEvent::Finished);
        assert(longer.drop_last() =~= self.log@);
        self.log = Ghost(longer);
        self.in_flight == 0
    }
}

/// How often directories were queued.
pub open spec fn times_queued(events: Seq<QueueEvent>) -> nat
    decreases events.len(),
{
    if events.len() == 0 {
        0
    } else {
        times_queued(events.drop_last()) + if events.last() is Queued {
            1nat
        } else {
            0
        }
    }
}

/// Nothing is left exactly when every directory that was queued, and the one
/// where the scan started, is finished.
pub proof fn queue_closes_when_all_is_done(events: Seq<QueueEvent>)
    ensures
        left_after(events) == 1 + times_queued(events) - (events.len() - times_queued(events)),
        left_after(events) == 0 <==> events.len() - times_queued(events) == times_queued(events)
            + 1,
        times_queued(events) <= events.len(),
    decreases events.len(),
{
    if events.len() > 0 {
        queue_closes_when_all_is_done(events.drop_last());
    }
}

/// Whether the options allow for a scan: there is room in the queue of
/// results, and its size fits the machine.
pub open spec fn can_be_planned(options: ScanOptions) -> bool {
    0 < options.stat_threads * options.queue_multiplier <= usize::MAX
}

/// Whether the options allow for a scan.
pub fn is_plannable(options: &ScanOptions) -> (r: bool)
    ensures
        r == can_be_planned(*options),
{
    match options.stat_threads.checked_mul(options.queue_multiplier) {
        Some(n) => n > 0,
        None => false,
    }
}

/// The only device to scan, if there is one: that of the directory where the
/// scan starts, where the options ask for it and it could be found out.
pub fn device_to_scan(options: &ScanOptions, device: Option<u64>) -> (r: Option<u64>)
    ensures
        r == if options.same_filesystem {
            device
        } else {
            None
        },
{
    if options.same_filesystem {
        device
    } else {
        None
    }
}

/// How many results wait at most to be put into the tree.
pub fn queue_capacity(options: &ScanOptions) -> (r: usize)
    requires
        can_be_planned(*options),
    ensures
        r == options.stat_threads * options.queue_multiplier,
{
    options.stat_threads * options.queue_multiplier
}

/// What is said where the scan cannot start.
pub fn access_error(path: &str, reason: &str) -> (r: String)
    ensures
        r@ == "Cannot access "@ + path@ + ": "@ + reason@,
{
    "Cannot access ".to_string().concat(path).concat(": ").concat(reason)
}

/// A scan can be planned where it has workers and results that wait for each, and
/// their number fits the machine.
pub proof fn plans_need_workers(options: ScanOptions)
    ensures
        can_be_planned(options) ==> options.stat_threads > 0 && options.queue_multiplier > 0,
        options.stat_threads > 0 && options.queue_multiplier > 0 && options.stat_threads
            * options.queue_multiplier <= usize::MAX ==> can_be_planned(options),
{
    assert(0 < options.stat_threads * options.queue_multiplier ==> options.stat_threads > 0
        && options.queue_multiplier > 0) by (nonlinear_arith)
        requires
            options.stat_threads >= 0,
            options.queue_multiplier >= 0,
    ;
    assert(options.stat_threads > 0 && options.queue_multiplier > 0 ==> 0 < options.stat_threads
        * options.queue_multiplier) by (nonlinear_arith);
}

/// At the end of a directory it is finished. A report that was taken leads on to the
/// next entry, one that nobody took ends the worker, and so does the end of all
/// directories.
pub proof fn workers_go_on_until_the_end(root_device: Option<u64>, dir: Seq<char>)
    ensures
        reaction(root_device, StateView::Reading { dir }, EventView::EndOfDirectory) == (
            StateView::Idle,
            ActionView::FinishDirectory,
        ),
        reaction(root_device, StateView::Reporting { dir }, EventView::Reported(true)) == (
            StateView::Reading { dir },
            ActionView::NextEntry,
        ),
        reaction(root_device, StateView::Reporting { dir }, EventView::Reported(false)) == (
            StateView::Stopped,
            ActionView::Abandon,
        ),
        reaction(root_device, StateView::Idle, EventView::NoDirectory) == (
            StateView::Stopped,
            ActionView::Stop,
        ),
{
}

} // verus!
