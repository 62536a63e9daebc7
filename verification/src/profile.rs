//! Running the browser without a screen, to see how long it takes.

use crate::app::{App, AppView};
use crate::node;
use crate::node::{FileNode, NodeView};
use crate::scanner::{MessageView, ScanMessage};
use crate::{accounting, sorting};
use vstd::prelude::*;

verus! {

broadcast use node::lemma_view;

/// A frame that takes longer, in microseconds, is slow.
pub const SLOW_FRAME_US: u128 = 16_000;

/// Seconds without a message after which the scan counts as frozen.
pub const FREEZE_SECS: u64 = 1;

/// Seconds between two summaries.
pub const SUMMARY_SECS: u64 = 5;

/// Milliseconds that pass between two lines of progress.
pub const PROGRESS_LINE_MS: u128 = 200;

/// How many nodes there are in all.
pub open spec fn nodes_among(nodes: Seq<NodeView>) -> nat
    decreases nodes,
{
    if nodes.len() == 0 {
        0
    } else {
        nodes_among(nodes.drop_last()) + nodes_in(nodes.last())
    }
}

/// How many nodes a tree has.
pub open spec fn nodes_in(node: NodeView) -> nat
    decreases node,
{
    1 + nodes_among(node.children)
}

proof fn lemma_nodes_prefix(nodes: Seq<NodeView>, n: int)
    requires
        0 <= n <= nodes.len(),
    ensures
        nodes_among(nodes.take(n)) <= nodes_among(nodes),
    decreases nodes.len() - n,
{
    if n < nodes.len() {
        assert(nodes.take(n + 1).drop_last() =~= nodes.take(n));
        lemma_nodes_prefix(nodes, n + 1);
    } else {
        assert(nodes.take(n) =~= nodes);
    }
}

/// Counts the nodes of a tree. There is no number where it would not fit the
/// machine.
pub fn count_tree_nodes(node: &FileNode) -> (r: Option<usize>)
    ensures
        match r {
            Some(n) => n == nodes_in(node@),
            None => nodes_in(node@) > usize::MAX,
        },
    decreases node,
{
    let mut n: usize = 1;
    let mut i: usize = 0;
    let ghost all = node@.children;
    assert(all.take(0) =~= Seq::<NodeView>::empty());
    while i < node.children.len()
        invariant
            i <= node.children@.len(),
            all == node@.children,
            n == 1 + nodes_among(all.take(i as int)),
        decreases node.children@.len() - i,
    {
        proof {
            assert(all.take(i + 1).drop_last() =~= all.take(i as int));
            lemma_nodes_prefix(all, i + 1);
            assert(decreases_to!(node => node.children));
            assert(decreases_to!(node.children => node.children[i as int]));
            assert(all[i as int] == node.children@[i as int]@);
        }
        n = match count_tree_nodes(&node.children[i]) {
            Some(below) => match n.checked_add(below) {
                Some(sum) => sum,
                None => {
                    return None;
                },
            },
            None => {
                return None;
            },
        };
        i += 1;
    }
    assert(all.take(i as int) =~= all);
    Some(n)
}

/// What happens to two messages that wait for the browser.
#[derive(Clone, Copy, Debug, PartialEq, Eq, Structural)]
pub enum Merge {
    /// The later one takes the place of the earlier one.
    Replace,
    /// The earlier one stays, the later one is dropped.
    Keep,
    /// The earlier one is taken in first.
    Handle,
}

/// Counters give way to counters and trees, trees to trees, and all else is
/// taken in.
pub open spec fn merge_of(latest: MessageView, next: MessageView) -> Merge {
    if latest is Counting && (next is Counting || next is Progress) {
        Merge::Replace
    } else if latest is Progress && next is Progress {
        Merge::Replace
    } else if latest is Progress && next is Counting {
        Merge::Keep
    } else {
        Merge::Handle
    }
}

pub fn merge(latest: &ScanMessage, next: &ScanMessage) -> (r: Merge)
    ensures
        r == merge_of(latest@, next@),
{
    match (latest, next) {
        (ScanMessage::Progress { .. }, ScanMessage::Progress { .. }) => Merge::Replace,
        (ScanMessage::Counting { .. }, ScanMessage::Counting { .. }) => Merge::Replace,
        (ScanMessage::Counting { .. }, ScanMessage::Progress { .. }) => Merge::Replace,
        (ScanMessage::Progress { .. }, ScanMessage::Counting { .. }) => Merge::Keep,
        _ => Merge::Handle,
    }
}

/// Which messages are taken in while those of `queue` wait behind `first`,
/// and which one is left.
pub open spec fn settled(first: MessageView, queue: Seq<MessageView>) -> (
    Seq<MessageView>,
    MessageView,
)
    decreases queue.len(),
{
    if queue.len() == 0 {
        (Seq::empty(), first)
    } else {
        let (handled, latest) = settled(first, queue.drop_last());
        match merge_of(latest, queue.last()) {
            Merge::Replace => (handled, queue.last()),
            Merge::Keep => (handled, latest),
            Merge::Handle => (handled.push(latest), queue.last()),
        }
    }
}

/// The state after several messages.
pub open spec fn after_all(app: AppView, msgs: Seq<MessageView>) -> AppView
    decreases msgs.len(),
{
    if msgs.len() == 0 {
        app
    } else {
        after_all(app, msgs.drop_last()).after(msgs.last())
    }
}

/// The messages as mathematical values.
pub open spec fn messages(msgs: Seq<ScanMessage>) -> Seq<MessageView> {
    msgs.map_values(|m: ScanMessage| m@)
}

/// Goes through the messages that wait behind `first`; the one that is left
/// to be taken in is returned.
pub fn drain(app: &mut App, first: ScanMessage, queue: Vec<ScanMessage>) -> (latest: ScanMessage)
    ensures
        latest@ == settled(first@, messages(queue@)).1,
        final(app)@ == after_all(old(app)@, settled(first@, messages(queue@)).0),
{
    let ghost all = messages(queue@);
    let ghost start = app@;
    let ghost begin = first@;
    let len = queue.len();
    let mut latest = first;
    let mut i: usize = 0;
    assert(all.take(0) =~= Seq::<MessageView>::empty());
    for next in it: queue
        invariant
            i == it.index(),
            it.seq() == queue@,
            len == queue@.len(),
            all == messages(queue@),
            latest@ == settled(begin, all.take(i as int)).1,
            app@ == after_all(start, settled(begin, all.take(i as int)).0),
    {
        proof {
            assert(all[i as int] == next@);
            assert(all.take(i + 1).drop_last() =~= all.take(i as int));
            let handled = settled(begin, all.take(i as int)).0;
            assert(handled.push(latest@).drop_last() =~= handled);
        }
        match merge(&latest, &next) {
            Merge::Replace => {
                latest = next;
            },
            Merge::Keep => {},
            Merge::Handle => {
                app.handle_scan_message(latest);
                latest = next;
            },
        }
        i += 1;
    }
    assert(all.take(i as int) =~= all);
    latest
}

/// Whether a message is more than a report on how far the scan has come.
pub open spec fn matters() -> spec_fn(MessageView) -> bool {
    |m: MessageView| !(m is Progress || m is Counting)
}

/// However many messages wait, none but reports on how far the scan has come
/// is dropped, and the others are taken in the order in which they came.
pub proof fn only_reports_are_dropped(first: MessageView, queue: Seq<MessageView>)
    ensures
        ({
            let (handled, latest) = settled(first, queue);
            handled.push(latest).filter(matters()) == (seq![first] + queue).filter(matters())
        }),
    decreases queue.len(),
{
    let (handled, latest) = settled(first, queue);
    if queue.len() == 0 {
        assert(handled.push(latest) =~= seq![first] + queue);
    } else {
        let rest = queue.drop_last();
        let (before, kept) = settled(first, rest);
        only_reports_are_dropped(first, rest);
        assert(seq![first] + queue =~= (seq![first] + rest).push(queue.last()));
        lemma_filter_push(seq![first] + rest, queue.last());
        lemma_filter_push(before, kept);
        lemma_filter_push(before, queue.last());
        lemma_filter_push(before.push(kept), queue.last());
    }
}

proof fn lemma_filter_push(msgs: Seq<MessageView>, m: MessageView)
    ensures
        msgs.push(m).filter(matters()) == if matters()(m) {
            msgs.filter(matters()).push(m)
        } else {
            msgs.filter(matters())
        },
{
    reveal(Seq::filter);
    assert(msgs.push(m).drop_last() =~= msgs);
}

/// The short name of a kind of message.
pub open spec fn name_of(msg: MessageView) -> Seq<char> {
    match msg {
        MessageView::Progress { .. } => "progress"@,
        MessageView::Counting { .. } => "counting"@,
        MessageView::Complete(_) => "complete"@,
        MessageView::ExpandResult { .. } => "expand"@,
        MessageView::DeleteProgress { .. } => "del_prog"@,
        MessageView::DeleteComplete { .. } => "del_done"@,
        MessageView::Error(_) => "error"@,
    }
}

pub fn event_name(msg: &ScanMessage) -> (r: &'static str)
    ensures
        r@ == name_of(msg@),
{
    match msg {
        ScanMessage::Progress { .. } => "progress",
        ScanMessage::Counting { .. } => "counting",
        ScanMessage::Complete(_) => "complete",
        ScanMessage::ExpandResult { .. } => "expand",
        ScanMessage::DeleteProgress { .. } => "del_prog",
        ScanMessage::DeleteComplete { .. } => "del_done",
        ScanMessage::Error(_) => "error",
    }
}

/// What a frame was spent on.
#[derive(Clone, Copy, Debug, PartialEq, Eq, Structural)]
pub enum FrameKind {
    Progress,
    Counting,
    Other,
}

impl FrameKind {
    pub open spec fn of(msg: MessageView) -> FrameKind {
        match msg {
            MessageView::Progress { .. } => FrameKind::Progress,
            MessageView::Counting { .. } => FrameKind::Counting,
            _ => FrameKind::Other,
        }
    }

    pub fn of_message(msg: &ScanMessage) -> (r: FrameKind)
        ensures
            r == FrameKind::of(msg@),
    {
        match msg {
            ScanMessage::Progress { .. } => FrameKind::Progress,
            ScanMessage::Counting { .. } => FrameKind::Counting,
            _ => FrameKind::Other,
        }
    }
}

/// One frame: how long it took, in microseconds, and what for.
#[derive(Clone, Copy, Debug, PartialEq, Eq, Structural)]
pub struct FrameTime {
    pub us: u128,
    pub kind: FrameKind,
}

/// How many frames of a kind there are.
pub open spec fn frames_of(times: Seq<FrameTime>, kind: FrameKind) -> nat
    decreases times.len(),
{
    if times.len() == 0 {
        0
    } else {
        frames_of(times.drop_last(), kind) + if times.last().kind == kind {
            1nat
        } else {
            0
        }
    }
}

/// How long the frames of a kind took together.
pub open spec fn time_of(times: Seq<FrameTime>, kind: FrameKind) -> nat
    decreases times.len(),
{
    if times.len() == 0 {
        0
    } else {
        time_of(times.drop_last(), kind) + if times.last().kind == kind {
            times.last().us as nat
        } else {
            0
        }
    }
}

/// How long the longest frame of a kind took.
pub open spec fn longest_of(times: Seq<FrameTime>, kind: FrameKind) -> nat
    decreases times.len(),
{
    if times.len() == 0 {
        0
    } else {
        let before = longest_of(times.drop_last(), kind);
        if times.last().kind == kind && times.last().us > before {
            times.last().us as nat
        } else {
            before
        }
    }
}

/// The frames of one kind, summed up.
#[derive(Clone, Copy, Debug, PartialEq, Eq, Structural)]
pub struct FrameSummary {
    pub count: usize,
    pub average_us: u128,
    pub longest_us: u128,
}

/// Sums the frames of a kind up. There is no sum where it would not fit the
/// machine.
pub fn summarize(times: &Vec<FrameTime>, kind: FrameKind) -> (r: Option<FrameSummary>)
    ensures
        match r {
            Some(s) => {
                &&& s.count == frames_of(times@, kind)
                &&& s.average_us == if frames_of(times@, kind) == 0 {
                    0
                } else {
                    time_of(times@, kind) as int / frames_of(times@, kind) as int
                }
                &&& s.longest_us == longest_of(times@, kind)
            },
            None => time_of(times@, kind) > u128::MAX,
        },
{
    let mut count: usize = 0;
    let mut sum: u128 = 0;
    let mut longest: u128 = 0;
    let mut i: usize = 0;
    assert(times@.take(0) =~= Seq::<FrameTime>::empty());
    while i < times.len()
        invariant
            i <= times@.len(),
            count <= i,
            count == frames_of(times@.take(i as int), kind),
            sum == time_of(times@.take(i as int), kind),
            longest == longest_of(times@.take(i as int), kind),
        decreases times@.len() - i,
    {
        proof {
            assert(times@.take(i + 1).drop_last() =~= times@.take(i as int));
            lemma_time_prefix(times@, i + 1, kind);
        }
        let t = times[i];
        if t.kind == kind {
            count += 1;
            sum = match sum.checked_add(t.us) {
                Some(n) => n,
                None => {
                    return None;
                },
            };
            if t.us > longest {
                longest = t.us;
            }
        }
        i += 1;
    }
    assert(times@.take(i as int) =~= times@);
    let average_us: u128 = if count == 0 {
        0
    } else {
        sum / (count as u128)
    };
    Some(FrameSummary { count, average_us, longest_us: longest })
}

proof fn lemma_time_prefix(times: Seq<FrameTime>, n: int, kind: FrameKind)
    requires
        0 <= n <= times.len(),
    ensures
        time_of(times.take(n), kind) <= time_of(times, kind),
    decreases times.len() - n,
{
    if n < times.len() {
        assert(times.take(n + 1).drop_last() =~= times.take(n));
        lemma_time_prefix(times, n + 1, kind);
    } else {
        assert(times.take(n) =~= times);
    }
}

/// The frames since the last summary.
#[derive(Debug)]
pub struct Frames {
    /// All frames, also those before the last summary.
    pub frame_count: u64,
    pub slow_frames: u64,
    pub max_frame_us: u128,
    pub times: Vec<FrameTime>,
}

impl Frames {
    pub fn new() -> (r: Frames)
        ensures
            r.frame_count == 0,
            r.slow_frames == 0,
            r.max_frame_us == 0,
            r.times@ == Seq::<FrameTime>::empty(),
    {
        Frames { frame_count: 0, slow_frames: 0, max_frame_us: 0, times: Vec::new() }
    }

    /// Notes one more frame; whether it was slow is returned.
    pub fn record(&mut self, us: u128, kind: FrameKind) -> (slow: bool)
        requires
            old(self).frame_count < u64::MAX,
            old(self).slow_frames < u64::MAX,
        ensures
            slow == (us > 16_000),
            final(self).frame_count == old(self).frame_count + 1,
            final(self).slow_frames == old(self).slow_frames + if us > SLOW_FRAME_US {
                1int
            } else {
                0
            },
            final(self).max_frame_us == if us > old(self).max_frame_us {
                us
            } else {
                old(self).max_frame_us
            },
            final(self).times@ == old(self).times@.push(FrameTime { us, kind }),
    {
        self.frame_count += 1;
        if us > self.max_frame_us {
            self.max_frame_us = us;
        }
        self.times.push(FrameTime { us, kind });
        if us > SLOW_FRAME_US {
            self.slow_frames += 1;
            true
        } else {
            false
        }
    }

    /// Begins anew after a summary.
    pub fn reset(&mut self)
        ensures
            final(self).frame_count == old(self).frame_count,
            final(self).slow_frames == 0,
            final(self).max_frame_us == 0,
            final(self).times@ == Seq::<FrameTime>::empty(),
    {
        self.slow_frames = 0;
        self.max_frame_us = 0;
        self.times = Vec::new();
    }
}

/// Whether the scan is found frozen now, and was not before.
pub fn is_freeze(silent_secs: u64, reported: bool) -> (r: bool)
    ensures
        r == (silent_secs >= 1 && !reported),
{
    silent_secs >= FREEZE_SECS && !reported
}

/// Whether it is time for a summary.
pub fn summary_due(since_last_secs: u64) -> (r: bool)
    ensures
        r == (since_last_secs >= 5),
{
    since_last_secs >= SUMMARY_SECS
}

/// Whether it is time for a line of progress.
pub fn progress_line_due(since_last_ms: u128) -> (r: bool)
    ensures
        r == (since_last_ms > 200),
{
    since_last_ms > PROGRESS_LINE_MS
}

/// Whether a message carries a tree that still grows.
pub open spec fn carries_tree() -> spec_fn(MessageView) -> bool {
    |m: MessageView| m is Progress
}

proof fn lemma_trees_push(msgs: Seq<MessageView>, m: MessageView)
    ensures
        msgs.push(m).filter(carries_tree()) == if m is Progress {
            msgs.filter(carries_tree()).push(m)
        } else {
            msgs.filter(carries_tree())
        },
{
    reveal(Seq::filter);
    assert(msgs.push(m).drop_last() =~= msgs);
}

/// Of the trees that wait the last one is taken in, whatever waits around it.
pub proof fn the_last_tree_is_taken_in(first: MessageView, queue: Seq<MessageView>)
    ensures
        ({
            let (handled, latest) = settled(first, queue);
            let all = (seq![first] + queue).filter(carries_tree());
            let taken = handled.push(latest).filter(carries_tree());
            &&& all.len() > 0 <==> taken.len() > 0
            &&& all.len() > 0 ==> taken.last() == all.last()
        }),
    decreases queue.len(),
{
    let (handled, latest) = settled(first, queue);
    if queue.len() == 0 {
        assert(handled.push(latest) =~= seq![first] + queue);
    } else {
        let rest = queue.drop_last();
        let (before, kept) = settled(first, rest);
        the_last_tree_is_taken_in(first, rest);
        assert(seq![first] + queue =~= (seq![first] + rest).push(queue.last()));
        lemma_trees_push(seq![first] + rest, queue.last());
        lemma_trees_push(before, kept);
        lemma_trees_push(before, queue.last());
        lemma_trees_push(before.push(kept), queue.last());
    }
}

/// Where only reports on how far the scan has come wait, one of them is left and
/// none is taken in before it: the last tree, or the last counters where there is no
/// tree.
pub proof fn reports_are_merged(first: MessageView, queue: Seq<MessageView>)
    requires
        first is Progress || first is Counting,
        forall|i: int|
            0 <= i < queue.len() ==> #[trigger] queue[i] is Progress || queue[i] is Counting,
    ensures
        settled(first, queue).0.len() == 0,
        settled(first, queue).1 is Progress || settled(first, queue).1 is Counting,
        settled(first, queue).1 is Counting ==> {
            &&& first is Counting
            &&& forall|i: int| 0 <= i < queue.len() ==> #[trigger] queue[i] is Counting
            &&& settled(first, queue).1 == if queue.len() > 0 {
                queue.last()
            } else {
                first
            }
        },
    decreases queue.len(),
{
    if queue.len() > 0 {
        let rest = queue.drop_last();
        assert forall|i: int| 0 <= i < rest.len() implies #[trigger] rest[i] is Progress
            || rest[i] is Counting by {
            assert(rest[i] == queue[i]);
        }
        reports_are_merged(first, rest);
        assert(queue.last() == queue[queue.len() - 1]);
        if settled(first, queue).1 is Counting {
            assert forall|i: int| 0 <= i < queue.len() implies #[trigger] queue[i] is Counting by {
                if i < rest.len() {
                    assert(rest[i] == queue[i]);
                }
            }
        }
    }
}

/// Messages are taken in from the first to the last.
pub proof fn messages_are_taken_in_turn(app: AppView, msg: MessageView, msgs: Seq<MessageView>)
    ensures
        after_all(app, Seq::empty()) == app,
        after_all(app, seq![msg] + msgs) == after_all(app.after(msg), msgs),
    decreases msgs.len(),
{
    let all = seq![msg] + msgs;
    if msgs.len() == 0 {
        reveal_with_fuel(after_all, 2);
        assert(all.drop_last() =~= Seq::<MessageView>::empty());
    } else {
        assert(all.drop_last() =~= seq![msg] + msgs.drop_last());
        messages_are_taken_in_turn(app, msg, msgs.drop_last());
    }
}

/// What counts the nodes of a tree.
pub open spec fn node_counter() -> spec_fn(NodeView) -> nat {
    |child: NodeView| nodes_in(child)
}

/// A tree has its root and the nodes of each of its children.
pub proof fn nodes_are_counted_once(node: NodeView)
    ensures
        nodes_in(node) == 1 + sorting::weigh(node.children, node_counter()),
{
    accounting::lemma_nodes_weighed(node.children);
}

/// The frames of a kind are counted and timed, each once and no other, and the
/// longest is one of them that no other exceeds.
pub proof fn frames_are_summed_by_kind(times: Seq<FrameTime>, kind: FrameKind)
    ensures
        frames_of(times, kind) == times.filter(|t: FrameTime| t.kind == kind).len(),
        time_of(times, kind) == sorting::weigh(
            times,
            |t: FrameTime|
                if t.kind == kind {
                    t.us as nat
                } else {
                    0
                },
        ),
        forall|i: int|
            0 <= i < times.len() && (#[trigger] times[i]).kind == kind ==> times[i].us
                <= longest_of(times, kind),
        longest_of(times, kind) > 0 ==> exists|i: int|
            0 <= i < times.len() && (#[trigger] times[i]).kind == kind && times[i].us
                == longest_of(times, kind),
    decreases times.len(),
{
    reveal(Seq::filter);
    if times.len() > 0 {
        let rest = times.drop_last();
        frames_are_summed_by_kind(rest, kind);
        assert forall|i: int|
            0 <= i < times.len() && (#[trigger] times[i]).kind == kind implies times[i].us
            <= longest_of(times, kind) by {
            if i < rest.len() {
                assert(rest[i] == times[i]);
            }
        }
        if longest_of(times, kind) > 0 {
            if times.last().kind == kind && times.last().us > longest_of(rest, kind) {
                assert(times[times.len() - 1].us == longest_of(times, kind));
            } else {
                let i = choose|i: int|
                    0 <= i < rest.len() && (#[trigger] rest[i]).kind == kind && rest[i].us
                        == longest_of(rest, kind);
                assert(times[i] == rest[i]);
            }
        }
    }
}

/// Messages have the same name where they are of the same kind, and only there.
pub proof fn names_tell_kinds_apart(a: MessageView, b: MessageView)
    requires
        name_of(a) == name_of(b),
    ensures
        a is Progress <==> b is Progress,
        a is Counting <==> b is Counting,
        a is Complete <==> b is Complete,
        a is ExpandResult <==> b is ExpandResult,
        a is DeleteProgress <==> b is DeleteProgress,
        a is DeleteComplete <==> b is DeleteComplete,
        a is Error <==> b is Error,
{
    reveal_strlit("progress");
    reveal_strlit("counting");
    reveal_strlit("complete");
    reveal_strlit("expand");
    reveal_strlit("del_prog");
    reveal_strlit("del_done");
    reveal_strlit("error");
    assert("progress"@.len() == 8 && "progress"@[4] == 'r');
    assert("counting"@.len() == 8 && "counting"@[4] == 't');
    assert("complete"@.len() == 8 && "complete"@[4] == 'l');
    assert("expand"@.len() == 6 && "expand"@[4] == 'n');
    assert("del_prog"@.len() == 8 && "del_prog"@[4] == 'p');
    assert("del_done"@.len() == 8 && "del_done"@[4] == 'd');
    assert("error"@.len() == 5 && "error"@[4] == 'r');
    assert(name_of(a).len() == name_of(b).len() && name_of(a)[4] == name_of(b)[4]);
}

/// A frame is spent on what the message was that it took in.
pub proof fn frames_are_of_the_kind_of_their_message(msg: MessageView)
    ensures
        FrameKind::of(msg) == FrameKind::Progress <==> msg is Progress,
        FrameKind::of(msg) == FrameKind::Counting <==> msg is Counting,
        FrameKind::of(msg) == FrameKind::Other <==> !(msg is Progress || msg is Counting),
{
}

} // verus!
