//! What a scan is asked to do and what it reports.

use crate::node;
use crate::node::{FileNode, NodeView};
use crate::text;
use crate::tree::{FileTree, TreeView};
use vstd::prelude::*;

verus! {

/// What each worker is busy with: the path it looks at, or nothing.
pub type ThreadActivities = Vec<String>;

/// The texts of a sequence of strings.
pub open spec fn texts(strings: Seq<String>) -> Seq<Seq<char>> {
    strings.map_values(|s: String| s@)
}

/// The texts of activities that may be missing.
pub open spec fn slot_texts(activities: Option<ThreadActivities>) -> Option<Seq<Seq<char>>> {
    match activities {
        Some(slots) => Some(texts(slots@)),
        None => None,
    }
}

/// Activities of `num_threads` workers that are all idle.
pub fn new_thread_activities(num_threads: usize) -> (r: ThreadActivities)
    ensures
        texts(r@) == Seq::new(num_threads as nat, |i: int| Seq::<char>::empty()),
{
    let mut r: Vec<String> = Vec::new();
    let mut i: usize = 0;
    while i < num_threads
        invariant
            i <= num_threads,
            texts(r@) == Seq::new(i as nat, |k: int| Seq::<char>::empty()),
        decreases num_threads - i,
    {
        let ghost before = r@;
        r.push(String::new());
        i += 1;
        proof {
            assert(texts(before).len() == before.len());
            assert(r@.last()@ =~= Seq::<char>::empty());
            assert(texts(r@) =~= texts(before).push(Seq::empty()));
            assert(texts(r@) =~= Seq::new(i as nat, |k: int| Seq::<char>::empty()));
        }
    }
    r
}

/// The time since the scan began.
#[derive(Debug)]
pub struct Elapsed {
    pub whole_secs: u64,
    /// Tenths of a second, whole ones only.
    pub ticks: usize,
    /// The seconds in decimal, rounded to one place.
    pub decimal: String,
}

#[verifier::ext_equal]
pub struct ElapsedView {
    pub whole_secs: u64,
    pub ticks: usize,
    pub decimal: Seq<char>,
}

impl View for Elapsed {
    type V = ElapsedView;

    open spec fn view(&self) -> ElapsedView {
        ElapsedView { whole_secs: self.whole_secs, ticks: self.ticks, decimal: self.decimal@ }
    }
}

impl Clone for Elapsed {
    fn clone(&self) -> (r: Self)
        ensures
            r@ == self@,
    {
        Elapsed {
            whole_secs: self.whole_secs,
            ticks: self.ticks,
            decimal: self.decimal.clone(),
        }
    }
}

/// A number of seconds or minutes below one hundred, in two digits.
pub open spec fn two_digits(n: nat) -> Seq<char> {
    if n < 10 {
        seq!['0'] + text::decimal(n)
    } else {
        text::decimal(n)
    }
}

/// A time as it is shown: with a decimal place below a minute, in minutes and
/// seconds from there on.
pub open spec fn elapsed_text(elapsed: ElapsedView) -> Seq<char> {
    if elapsed.whole_secs < 60 {
        elapsed.decimal + "s"@
    } else {
        text::decimal((elapsed.whole_secs / 60) as nat) + "m"@ + two_digits(
            (elapsed.whole_secs % 60) as nat,
        ) + "s"@
    }
}

pub fn format_elapsed(elapsed: &Elapsed) -> (r: String)
    ensures
        r@ == elapsed_text(elapsed@),
{
    if elapsed.whole_secs < 60 {
        elapsed.decimal.clone().concat("s")
    } else {
        let minutes: u64 = elapsed.whole_secs / 60;
        let seconds: u64 = elapsed.whole_secs % 60;
        let mut r = text::decimal_string(minutes).concat("m");
        if seconds < 10 {
            r.push('0');
        }
        r.append(text::decimal_string(seconds).as_str());
        r.append("s");
        proof {
            let m = text::decimal(minutes as nat) + "m"@;
            let d = text::decimal(seconds as nat);
            assert(m.push('0') + d =~= m + (seq!['0'] + d));
        }
        r
    }
}

/// What the scan and other work in the background report.
#[derive(Debug)]
pub enum ScanMessage {
    /// The tree as far as it is known.
    Progress {
        tree: FileTree,
        current_path: String,
        elapsed: Elapsed,
        entries_per_sec: u64,
        stat_threads: usize,
        dirs_queued: usize,
    },
    /// Only the counters.
    Counting {
        files_count: u64,
        dirs_count: u64,
        current_path: String,
        elapsed: Elapsed,
        entries_per_sec: u64,
    },
    Complete(FileTree),
    Error(String),
    /// All children of one directory.
    ExpandResult { breadcrumbs: Vec<usize>, children: Vec<FileNode> },
    DeleteProgress { bytes_deleted: u64, files_deleted: u64, dirs_deleted: u64 },
    DeleteComplete {
        bytes_deleted: u64,
        files_deleted: u64,
        dirs_deleted: u64,
        error: Option<String>,
    },
}

/// What a [`ScanMessage`] holds, as mathematical values.
#[verifier::ext_equal]
pub enum MessageView {
    Progress {
        tree: TreeView,
        current_path: Seq<char>,
        elapsed: ElapsedView,
        entries_per_sec: u64,
        stat_threads: usize,
        dirs_queued: usize,
    },
    Counting {
        files_count: u64,
        dirs_count: u64,
        current_path: Seq<char>,
        elapsed: ElapsedView,
        entries_per_sec: u64,
    },
    Complete(TreeView),
    Error(Seq<char>),
    ExpandResult { breadcrumbs: Seq<usize>, children: Seq<NodeView> },
    DeleteProgress { bytes_deleted: u64, files_deleted: u64, dirs_deleted: u64 },
    DeleteComplete {
        bytes_deleted: u64,
        files_deleted: u64,
        dirs_deleted: u64,
        error: Option<Seq<char>>,
    },
}

impl View for ScanMessage {
    type V = MessageView;

    open spec fn view(&self) -> MessageView {
        match *self {
            ScanMessage::Progress {
                tree,
                current_path,
                elapsed,
                entries_per_sec,
                stat_threads,
                dirs_queued,
            } => MessageView::Progress {
                tree: tree@,
                current_path: current_path@,
                elapsed: elapsed@,
                entries_per_sec,
                stat_threads,
                dirs_queued,
            },
            ScanMessage::Counting {
                files_count,
                dirs_count,
                current_path,
                elapsed,
                entries_per_sec,
            } => MessageView::Counting {
                files_count,
                dirs_count,
                current_path: current_path@,
                elapsed: elapsed@,
                entries_per_sec,
            },
            ScanMessage::Complete(tree) => MessageView::Complete(tree@),
            ScanMessage::Error(text) => MessageView::Error(text@),
            ScanMessage::ExpandResult { breadcrumbs, children } => MessageView::ExpandResult {
                breadcrumbs: breadcrumbs@,
                children: node::views(children@),
            },
            ScanMessage::DeleteProgress { bytes_deleted, files_deleted, dirs_deleted } => {
                MessageView::DeleteProgress { bytes_deleted, files_deleted, dirs_deleted }
            },
            ScanMessage::DeleteComplete { bytes_deleted, files_deleted, dirs_deleted, error } => {
                MessageView::DeleteComplete {
                    bytes_deleted,
                    files_deleted,
                    dirs_deleted,
                    error: match error {
                        Some(text) => Some(text@),
                        None => None,
                    },
                }
            },
        }
    }
}

impl Clone for ScanMessage {
    fn clone(&self) -> (r: Self)
        ensures
            r@ == self@,
    {
        match self {
            ScanMessage::Progress {
                tree,
                current_path,
                elapsed,
                entries_per_sec,
                stat_threads,
                dirs_queued,
            } => ScanMessage::Progress {
                tree: tree.clone(),
                current_path: current_path.clone(),
                elapsed: elapsed.clone(),
                entries_per_sec: *entries_per_sec,
                stat_threads: *stat_threads,
                dirs_queued: *dirs_queued,
            },
            ScanMessage::Counting {
                files_count,
                dirs_count,
                current_path,
                elapsed,
                entries_per_sec,
            } => ScanMessage::Counting {
                files_count: *files_count,
                dirs_count: *dirs_count,
                current_path: current_path.clone(),
                elapsed: elapsed.clone(),
                entries_per_sec: *entries_per_sec,
            },
            ScanMessage::Complete(tree) => ScanMessage::Complete(tree.clone()),
            ScanMessage::Error(text) => ScanMessage::Error(text.clone()),
            ScanMessage::ExpandResult { breadcrumbs, children } => {
                let way = breadcrumbs.clone();
                assert(way@ =~= breadcrumbs@);
                ScanMessage::ExpandResult {
                    breadcrumbs: way,
                    children: node::clone_nodes(children),
                }
            },
            ScanMessage::DeleteProgress { bytes_deleted, files_deleted, dirs_deleted } => {
                ScanMessage::DeleteProgress {
                    bytes_deleted: *bytes_deleted,
                    files_deleted: *files_deleted,
                    dirs_deleted: *dirs_deleted,
                }
            },
            ScanMessage::DeleteComplete { bytes_deleted, files_deleted, dirs_deleted, error } => {
                ScanMessage::DeleteComplete {
                    bytes_deleted: *bytes_deleted,
                    files_deleted: *files_deleted,
                    dirs_deleted: *dirs_deleted,
                    error: match error {
                        Some(text) => Some(text.clone()),
                        None => None,
                    },
                }
            },
        }
    }
}

/// What a scan is asked to do.
#[derive(Debug)]
pub struct ScanOptions {
    pub path: String,
    pub same_filesystem: bool,
    pub stat_threads: usize,
    pub queue_multiplier: usize,
    pub thread_activities: ThreadActivities,
}

/// From a minute on a time is shown in minutes and seconds that together are the
/// seconds that have passed, with two digits for the seconds; below it is shown as
/// it came.
pub proof fn times_add_up(elapsed: ElapsedView)
    ensures
        elapsed.whole_secs < 60 ==> elapsed_text(elapsed) == elapsed.decimal + "s"@,
        elapsed.whole_secs >= 60 ==> exists|minutes: nat, seconds: nat| #[trigger]
            text::decimal(minutes).len() > 0 && #[trigger] two_digits(seconds).len() == 2 && minutes
                * 60 + seconds == elapsed.whole_secs && seconds < 60 && text::value_of(
                two_digits(seconds),
                10,
            ) == seconds && elapsed_text(elapsed) == text::decimal(minutes) + "m"@ + two_digits(
                seconds,
            ) + "s"@,
{
    if elapsed.whole_secs >= 60 {
        let minutes = (elapsed.whole_secs / 60) as nat;
        let seconds = (elapsed.whole_secs % 60) as nat;
        text::decimals_read_as_their_number(minutes);
        lemma_two_digits(seconds);
    }
}

proof fn lemma_two_digits(n: nat)
    requires
        n < 60,
    ensures
        two_digits(n).len() == 2,
        text::value_of(two_digits(n), 10) == n,
{
    text::decimals_read_as_their_number(n);
    if n < 10 {
        let text = two_digits(n);
        assert(text.drop_last() =~= seq!['0']);
        assert(seq!['0'].drop_last() =~= Seq::<char>::empty());
        reveal_with_fuel(text::value_of, 3);
    } else {
        text::decimals_read_as_their_number(n / 10);
    }
}

} // verus!
