//! The panel that shows what the workers are busy with.

use crate::layout::Rect;
use crate::painting;
use crate::painting::room;
use crate::paths;
use crate::paths::{is_cuttable, truncate_path};
use crate::scanner;
use crate::scanner::ThreadActivities;
use crate::strings;
use crate::strings::{pad_left, repeat_char};
use crate::style::{colored, plain, span, Canvas, Color, Line, Page, SpanView, Widget, WidgetView};
use crate::text;
use crate::text::decimal_string;
use vstd::prelude::*;

verus! {

/// A worker that is busy, and with what.
#[derive(Debug)]
pub struct Activity {
    pub index: usize,
    pub path: String,
}

/// What an [`Activity`] holds, as mathematical values.
#[verifier::ext_equal]
pub struct ActivityView {
    pub index: nat,
    pub path: Seq<char>,
}

impl View for Activity {
    type V = ActivityView;

    open spec fn view(&self) -> ActivityView {
        ActivityView { index: self.index as nat, path: self.path@ }
    }
}

/// Several workers as mathematical values.
pub open spec fn activity_views(activities: Seq<Activity>) -> Seq<ActivityView> {
    activities.map_values(|a: Activity| a@)
}

/// The workers that are busy, in the order of their numbers.
pub open spec fn busy_of(slots: Seq<Seq<char>>) -> Seq<ActivityView>
    decreases slots.len(),
{
    if slots.len() == 0 {
        seq![]
    } else {
        let before = busy_of(slots.drop_last());
        if slots.last().len() > 0 {
            before.push(ActivityView { index: (slots.len() - 1) as nat, path: slots.last() })
        } else {
            before
        }
    }
}

/// The workers that are busy.
pub fn busy_threads(slots: &ThreadActivities) -> (r: Vec<Activity>)
    ensures
        activity_views(r@) == busy_of(scanner::texts(slots@)),
{
    let ghost all = scanner::texts(slots@);
    let mut busy: Vec<Activity> = Vec::new();
    let mut i: usize = 0;
    assert(all.take(0) =~= Seq::<Seq<char>>::empty());
    assert(activity_views(busy@) =~= Seq::<ActivityView>::empty());
    while i < slots.len()
        invariant
            i <= slots@.len(),
            all == scanner::texts(slots@),
            activity_views(busy@) == busy_of(all.take(i as int)),
        decreases slots@.len() - i,
    {
        let slot = &slots[i];
        proof {
            assert(all[i as int] == slot@);
            assert(all.take(i + 1).drop_last() =~= all.take(i as int));
        }
        if slot.as_str().unicode_len() > 0 {
            let ghost before = activity_views(busy@);
            busy.push(Activity { index: i, path: slot.clone() });
            assert(activity_views(busy@) =~= before.push(
                ActivityView { index: i as nat, path: slot@ },
            ));
        }
        i += 1;
    }
    assert(all.take(i as int) =~= all);
    busy
}

/// The row of a worker, with so many columns for its path.
pub open spec fn activity_line(activity: ActivityView, path_max: nat) -> Seq<SpanView> {
    seq![
        span(
            " "@ + strings::padded_left(text::decimal(activity.index), 3) + " "@,
            colored(Color::DarkGray),
        ),
        span("▮ "@, colored(Color::Green)),
        span(paths::cut_path(activity.path, path_max), colored(Color::White)),
    ]
}

/// The bar of the workers, `filled` of its columns filled, and a blank line;
/// nothing where there is no room.
pub open spec fn usage_lines(width: u16, filled: nat) -> Seq<Seq<SpanView>> {
    let bar_width = room(width as nat, 2);
    if bar_width > 0 {
        seq![
            seq![
                span(" "@, plain()),
                span(strings::repeated('█', filled), colored(Color::Green)),
                span(strings::repeated('░', room(bar_width, filled)), colored(Color::DarkGray)),
            ],
            seq![],
        ]
    } else {
        seq![]
    }
}

/// How many workers have a row in an area.
pub open spec fn rows_for(inner: Rect) -> nat {
    room(inner.height as nat, usage_lines(inner.width, 0).len())
}

/// The busy workers that have a row in an area.
pub open spec fn listed_in(slots: Seq<Seq<char>>, inner: Rect) -> Seq<ActivityView> {
    let busy = busy_of(slots);
    if busy.len() <= rows_for(inner) {
        busy
    } else {
        busy.take(rows_for(inner) as int)
    }
}

/// The columns for the path of a worker.
pub open spec fn path_columns(inner: Rect) -> nat {
    room(inner.width as nat, 12)
}

/// The rows of the workers.
pub open spec fn activity_lines(
    listed: Seq<ActivityView>,
    path_max: nat,
) -> Seq<Seq<SpanView>> {
    listed.map_values(|a: ActivityView| activity_line(a, path_max))
}

/// What the panel says.
pub open spec fn panel_page(slots: Seq<Seq<char>>, inner: Rect, filled: nat) -> Seq<Seq<SpanView>> {
    let busy = busy_of(slots);
    let rows = usage_lines(inner.width, filled) + activity_lines(
        listed_in(slots, inner),
        path_columns(inner),
    );
    let hidden = room(busy.len(), rows_for(inner));
    let told = if hidden > 0 && rows.len() > 0 {
        rows.drop_last().push(
            seq![
                span(
                    "      ... and "@ + text::decimal(hidden) + " more active threads"@,
                    colored(Color::DarkGray),
                ),
            ],
        )
    } else {
        rows
    };
    if busy.len() == 0 {
        told.push(
            seq![
                span("  All threads idle (between stat batches)"@, colored(Color::DarkGray)),
            ],
        )
    } else {
        told
    }
}

/// The title of the panel.
pub open spec fn panel_title(slots: Seq<Seq<char>>) -> Seq<char> {
    " Thread Activity — "@ + text::decimal(busy_of(slots).len()) + "/"@ + text::decimal(
        slots.len(),
    ) + " active (space to hide) "@
}

/// The panel; nothing where there are no workers.
pub open spec fn panel_widgets(
    slots: Option<Seq<Seq<char>>>,
    area: Rect,
    filled: nat,
) -> Seq<WidgetView> {
    match slots {
        Some(slots) => {
            let frame = WidgetView::Frame {
                area,
                title: panel_title(slots),
                color: Color::Green,
            };
            if area.framed().height == 0 {
                seq![frame]
            } else {
                seq![
                    frame,
                    WidgetView::Text {
                        area: area.framed(),
                        page: panel_page(slots, area.framed(), filled),
                    },
                ]
            }
        },
        None => seq![],
    }
}

/// Whether the paths in the panel can be cut to fit.
pub open spec fn panel_fits(slots: Option<Seq<Seq<char>>>, area: Rect) -> bool {
    let inner = area.framed();
    slots matches Some(slots) ==> inner.height > 0 ==> forall|i: int|
        0 <= i < listed_in(slots, inner).len() ==> paths::can_be_cut(
            (#[trigger] listed_in(slots, inner)[i]).path,
            path_columns(inner),
        )
}

fn row_count(inner: Rect) -> (r: usize)
    ensures
        r == rows_for(inner),
{
    let used: u16 = if inner.width > 2 {
        2
    } else {
        0
    };
    inner.height.saturating_sub(used) as usize
}

/// Whether the paths in the panel can be cut to fit.
pub fn is_panel_fitting(slots: &Option<ThreadActivities>, area: Rect) -> (r: bool)
    ensures
        r == panel_fits(scanner::slot_texts(*slots), area),
{
    let all = match slots {
        Some(s) => s,
        None => {
            return true;
        },
    };
    let inner = area.inner();
    if inner.height == 0 {
        return true;
    }
    let ghost texts = scanner::texts(all@);
    let busy = busy_threads(all);
    let rows = row_count(inner);
    let path_max = inner.width.saturating_sub(12) as usize;
    let shown = if busy.len() < rows {
        busy.len()
    } else {
        rows
    };
    let ghost listed = listed_in(texts, inner);
    assert(listed =~= busy_of(texts).take(shown as int));
    let mut i: usize = 0;
    while i < shown
        invariant
            i <= shown,
            shown <= busy@.len(),
            path_max == path_columns(inner),
            activity_views(busy@) == busy_of(texts),
            listed == busy_of(texts).take(shown as int),
            listed == listed_in(texts, inner),
            slots is Some,
            texts == scanner::slot_texts(*slots)->0,
            inner == area.framed(),
            inner.height > 0,
            forall|k: int|
                0 <= k < i ==> paths::can_be_cut((#[trigger] listed[k]).path, path_max as nat),
        decreases shown - i,
    {
        assert(activity_views(busy@)[i as int] == busy@[i as int]@);
        assert(listed[i as int] == busy@[i as int]@);
        if !is_cuttable(busy[i].path.as_str(), path_max) {
            assert(!paths::can_be_cut(listed_in(texts, inner)[i as int].path, path_max as nat));
            return false;
        }
        i += 1;
    }
    true
}

fn draw_usage(width: u16, filled: usize) -> (r: Page)
    ensures
        r@ == usage_lines(width, filled as nat),
{
    let bar_width = width.saturating_sub(2) as usize;
    let mut page = Page::new();
    if bar_width > 0 {
        let mut line = Line::new();
        line.push(" ", plain());
        line.push(repeat_char('█', filled).as_str(), colored(Color::Green));
        let empty = repeat_char('░', bar_width.saturating_sub(filled));
        line.push(empty.as_str(), colored(Color::DarkGray));
        assert(line@ =~= usage_lines(width, filled as nat)[0]);
        page.push(line);
        page.push(Line::new());
    }
    assert(page@ =~= usage_lines(width, filled as nat));
    page
}

fn draw_activity(activity: &Activity, path_max: usize) -> (r: Line)
    requires
        paths::can_be_cut(activity.path@, path_max as nat),
    ensures
        r@ == activity_line(activity@, path_max as nat),
{
    let number = pad_left(decimal_string(activity.index as u64).as_str(), 3);
    let mut line = Line::new();
    line.push(
        " ".to_string().concat(number.as_str()).concat(" ").as_str(),
        colored(Color::DarkGray),
    );
    line.push("▮ ", colored(Color::Green));
    line.push(truncate_path(activity.path.as_str(), path_max).as_str(), colored(Color::White));
    line
}

fn draw_page(slots: &ThreadActivities, busy: &Vec<Activity>, inner: Rect, filled: usize) -> (r:
    Page)
    requires
        activity_views(busy@) == busy_of(scanner::texts(slots@)),
        forall|i: int|
            0 <= i < listed_in(scanner::texts(slots@), inner).len() ==> paths::can_be_cut(
                (#[trigger] listed_in(scanner::texts(slots@), inner)[i]).path,
                path_columns(inner),
            ),
    ensures
        r@ == panel_page(scanner::texts(slots@), inner, filled as nat),
{
    let ghost texts = scanner::texts(slots@);
    let ghost all = busy_of(texts);
    let ghost listed = listed_in(texts, inner);
    let mut page = draw_usage(inner.width, filled);
    let ghost top = page@;
    let rows = row_count(inner);
    let path_max = inner.width.saturating_sub(12) as usize;
    let shown = if busy.len() < rows {
        busy.len()
    } else {
        rows
    };
    assert(listed =~= all.take(shown as int));
    let ghost lines = activity_lines(listed, path_max as nat);
    let mut i: usize = 0;
    assert(page@ =~= top + lines.take(0));
    while i < shown
        invariant
            i <= shown,
            shown <= busy@.len(),
            path_max == path_columns(inner),
            activity_views(busy@) == all,
            listed == all.take(shown as int),
            listed == listed_in(texts, inner),
            texts == scanner::texts(slots@),
            forall|k: int|
                0 <= k < listed_in(scanner::texts(slots@), inner).len() ==> paths::can_be_cut(
                    (#[trigger] listed_in(scanner::texts(slots@), inner)[k]).path,
                    path_columns(inner),
                ),
            lines == activity_lines(listed, path_max as nat),
            page@ == top + lines.take(i as int),
        decreases shown - i,
    {
        proof {
            assert(activity_views(busy@)[i as int] == busy@[i as int]@);
            assert(listed_in(scanner::texts(slots@), inner)[i as int] == busy@[i as int]@);
            assert(lines[i as int] == activity_line(busy@[i as int]@, path_max as nat));
            assert(top + lines.take(i + 1) =~= (top + lines.take(i as int)).push(
                lines[i as int],
            ));
        }
        page.push(draw_activity(&busy[i], path_max));
        i += 1;
    }
    assert(lines.take(i as int) =~= lines);
    let hidden = busy.len().saturating_sub(rows);
    if hidden > 0 {
        let mut line = Line::new();
        let text = "      ... and ".to_string().concat(decimal_string(hidden as u64).as_str());
        line.push(
            text.concat(" more active threads").as_str(),
            colored(Color::DarkGray),
        );
        page.replace_last(line);
    }
    if busy.len() == 0 {
        let mut line = Line::new();
        line.push("  All threads idle (between stat batches)", colored(Color::DarkGray));
        page.push(line);
    }
    page
}

/// Paints the panel; `filled` columns of its bar stand for the busy workers.
pub fn render_thread_panel(
    canvas: &mut Canvas,
    slots: &Option<ThreadActivities>,
    area: Rect,
    filled: usize,
)
    requires
        panel_fits(scanner::slot_texts(*slots), area),
    ensures
        final(canvas)@ == old(canvas)@ + panel_widgets(
            scanner::slot_texts(*slots),
            area,
            filled as nat,
        ),
{
    let slots = match slots {
        Some(s) => s,
        None => {
            assert(canvas@ =~= old(canvas)@ + seq![]);
            return;
        },
    };
    let ghost texts = scanner::texts(slots@);
    let busy = busy_threads(slots);
    assert(busy@.len() == activity_views(busy@).len());
    assert(slots@.len() == texts.len());
    let active = decimal_string(busy.len() as u64);
    let number = decimal_string(slots.len() as u64);
    let title = " Thread Activity — ".to_string().concat(active.as_str()).concat("/").concat(
        number.as_str(),
    ).concat(" active (space to hide) ");
    assert(title@ =~= panel_title(texts));
    canvas.frame(area, title.as_str(), Color::Green);
    let inner = area.inner();
    if inner.height == 0 {
        assert(canvas@ =~= old(canvas)@ + panel_widgets(Some(texts), area, filled as nat));
        return;
    }
    let page = draw_page(slots, &busy, inner, filled);
    canvas.push(Widget::Text { area: inner, page });
    assert(canvas@ =~= old(canvas)@ + panel_widgets(Some(texts), area, filled as nat));
}

/// Where an area has a row for a worker, the panel takes no more rows than
/// the area has.
pub proof fn panel_fits_its_area(slots: Seq<Seq<char>>, inner: Rect, filled: nat)
    requires
        rows_for(inner) > 0,
    ensures
        panel_page(slots, inner, filled).len() <= inner.height,
{
}

/// The busy workers are those with something to look at: each is listed once, under
/// its own number and with its own path, in ascending order of the numbers.
pub proof fn busy_workers_are_listed_once(slots: Seq<Seq<char>>)
    ensures
        ({
            let busy = busy_of(slots);
            &&& busy.len() == slots.filter(|slot: Seq<char>| slot.len() > 0).len()
            &&& forall|k: int|
                0 <= k < busy.len() ==> {
                    let worker = #[trigger] busy[k];
                    worker.index < slots.len() && worker.path.len() > 0 && worker.path
                        == slots[worker.index as int]
                }
            &&& forall|i: int, j: int|
                0 <= i < j < busy.len() ==> (#[trigger] busy[i]).index < (#[trigger] busy[j]).index
            &&& forall|i: int|
                0 <= i < slots.len() && (#[trigger] slots[i]).len() > 0 ==> busy.contains(
                    ActivityView { index: i as nat, path: slots[i] },
                )
        }),
    decreases slots.len(),
{
    reveal(Seq::filter);
    if slots.len() > 0 {
        let rest = slots.drop_last();
        let before = busy_of(rest);
        let busy = busy_of(slots);
        busy_workers_are_listed_once(rest);
        assert forall|k: int| 0 <= k < busy.len() implies {
            let worker = #[trigger] busy[k];
            worker.index < slots.len() && worker.path.len() > 0 && worker.path
                == slots[worker.index as int]
        } by {
            if k < before.len() {
                assert(busy[k] == before[k]);
            }
        }
        assert forall|i: int, j: int| 0 <= i < j < busy.len() implies (#[trigger] busy[i]).index < (
        #[trigger] busy[j]).index by {
            assert(busy[i] == before[i]);
            if j < before.len() {
                assert(busy[j] == before[j]);
            }
        }
        assert forall|i: int| 0 <= i < slots.len() && (
        #[trigger] slots[i]).len() > 0 implies busy.contains(
            ActivityView { index: i as nat, path: slots[i] },
        ) by {
            let worker = ActivityView { index: i as nat, path: slots[i] };
            if i < slots.len() - 1 {
                assert(rest[i] == slots[i]);
                assert(before.contains(worker));
                let k = choose|k: int| 0 <= k < before.len() && before[k] == worker;
                assert(busy[k] == worker);
            } else {
                assert(busy[before.len() as int] == worker);
            }
        }
    }
}

/// Under its bar the panel has a row for each busy worker, with its number and its
/// path. Where there are more than rows, the last row tells how many have none, the
/// one whose row it takes not among them; where none is busy there is a row that
/// says so.
pub proof fn panel_rows_tell_of_the_workers(slots: Seq<Seq<char>>, inner: Rect, filled: nat, k: int)
    requires
        inner.width > 2,
        inner.height > 2,
        0 <= k < busy_of(slots).len(),
        k < inner.height - 2,
    ensures
        ({
            let page = panel_page(slots, inner, filled);
            let busy = busy_of(slots);
            let rows = inner.height - 2;
            &&& busy.len() <= rows ==> page.len() == 2 + busy.len()
            &&& busy.len() > rows ==> page.len() == inner.height
            &&& busy.len() <= rows || k < rows - 1 ==> {
                let row = page[2 + k];
                &&& row.len() == 3
                &&& row[0].text == " "@ + strings::padded_left(
                    text::decimal(busy[k].index),
                    3,
                ) + " "@
                &&& row[2].text == paths::cut_path(
                    busy[k].path,
                    if inner.width > 12 {
                        (inner.width - 12) as nat
                    } else {
                        0
                    },
                )
            }
            &&& busy.len() > rows ==> page.last().len() == 1 && page.last()[0].text
                == "      ... and "@ + text::decimal((busy.len() - rows) as nat)
                + " more active threads"@
        }),
        panel_title(slots) == " Thread Activity — "@ + text::decimal(
            slots.filter(|slot: Seq<char>| slot.len() > 0).len(),
        ) + "/"@ + text::decimal(slots.len()) + " active (space to hide) "@,
{
    busy_workers_are_listed_once(slots);
}

/// The panel has a frame, and inside it a bar as wide as there is room, of which as
/// many columns are filled as asked for. Where no worker is busy it says so, and
/// without workers there is no panel.
pub proof fn panels_have_a_bar(slots: Seq<Seq<char>>, area: Rect, filled: nat)
    requires
        area.on_screen(),
        area.width > 4,
        area.height > 4,
        filled <= area.width - 4,
    ensures
        panel_widgets(None, area, filled).len() == 0,
        panel_widgets(Some(slots), area, filled).len() == 2,
        panel_widgets(Some(slots), area, filled)[0] matches WidgetView::Frame {
            area: place,
            title,
            ..
        } && place == area && title == panel_title(slots),
        panel_widgets(Some(slots), area, filled)[1] matches WidgetView::Text {
            area: place,
            page,
        } && {
            &&& place == area.framed()
            &&& page == panel_page(slots, area.framed(), filled)
            &&& page.len() <= place.height
            &&& busy_of(slots).len() <= place.height - 2 ==> page[0].len() == 3 && page[0][1].text
                == strings::repeated('█', filled) && page[0][2].text == strings::repeated(
                '░',
                (area.width - 4 - filled) as nat,
            )
            &&& busy_of(slots).len() == 0 ==> page.len() == 3 && page[2].len() == 1
                && page[2][0].text == "  All threads idle (between stat batches)"@
        },
{
}

/// The panel can be drawn where the path of each worker is empty or can be cut to the
/// columns that it has.
pub proof fn panels_can_be_drawn(slots: Seq<Seq<char>>, area: Rect)
    requires
        forall|i: int|
            0 <= i < slots.len() && (#[trigger] slots[i]).len() > 0 ==> paths::can_be_cut(
                slots[i],
                if area.framed().width > 12 {
                    (area.framed().width - 12) as nat
                } else {
                    0
                },
            ),
    ensures
        panel_fits(Some(slots), area),
        panel_fits(None, area),
{
    let inner = area.framed();
    busy_workers_are_listed_once(slots);
    assert forall|i: int| 0 <= i < listed_in(slots, inner).len() implies paths::can_be_cut(
        (#[trigger] listed_in(slots, inner)[i]).path,
        path_columns(inner),
    ) by {
        let worker = busy_of(slots)[i];
        assert(listed_in(slots, inner)[i] == worker);
        assert(slots[worker.index as int].len() > 0);
    }
}

} // verus!
