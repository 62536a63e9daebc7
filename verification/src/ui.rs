//! The screen as a whole.

use crate::app::{App, AppView};
use crate::extensions::{build_extension_stats, can_tally, ExtView};
use crate::layout::{centered_rect, divides, split, Axis, Rect, Share};
use crate::overlays::{draw_delete_confirm, render_footer, render_help_overlay};
use crate::painting::{
    draw_header, draw_list, draw_scanning, visible_rows, KindText, KindView,
    KINDS_SHOWN,
};
use crate::node::NodeView;
use crate::panel::{is_panel_fitting, render_thread_panel};
use crate::paths::is_cuttable;
use crate::sizes::human_size;
use crate::style::{Canvas, Color, WidgetView};
use crate::screen::SortOrder;
use crate::{
    extensions, layout, node, overlays, painting, panel, paths, scanner, screen, sizes, sorting,
    strings, text,
};
use vstd::prelude::*;

verus! {

broadcast use node::lemma_view;

/// The areas of the screen.
#[derive(Debug)]
pub struct Screen {
    pub area: Rect,
    /// The parts of the browser from top to bottom.
    pub parts: Vec<Rect>,
    /// What the browser is partly covered by.
    pub popup: Option<Rect>,
}

/// What a [`Screen`] holds, as mathematical values.
#[verifier::ext_equal]
pub struct ScreenView {
    pub area: Rect,
    pub parts: Seq<Rect>,
    pub popup: Option<Rect>,
}

impl View for Screen {
    type V = ScreenView;

    open spec fn view(&self) -> ScreenView {
        ScreenView { area: self.area, parts: self.parts@, popup: self.popup }
    }
}

/// What floating-point arithmetic gave for the bars: how many columns are
/// filled for each row on the screen, and for the busy workers.
#[derive(Debug)]
pub struct Fills {
    pub rows: Vec<usize>,
    pub threads: usize,
}

impl AppView {
    /// Whether the panel of the workers is shown.
    pub open spec fn shows_panel(self) -> bool {
        self.show_threads && self.scanning
    }

    /// How many parts the browser has.
    pub open spec fn part_count(self) -> nat {
        if self.view == screen::View::Scanning {
            0
        } else if self.shows_panel() {
            4
        } else {
            3
        }
    }

    /// The place of the list among the parts.
    pub open spec fn list_part(self) -> int {
        if self.shows_panel() {
            2
        } else {
            1
        }
    }

    /// Whether something covers the browser.
    pub open spec fn has_popup(self) -> bool {
        self.view == screen::View::Help || self.view == screen::View::DeleteConfirm
    }
}

/// Whether the areas are those that the browser needs as it is.
pub open spec fn suits(app: AppView, screen: ScreenView) -> bool {
    &&& screen.parts.len() == app.part_count()
    &&& screen.popup is Some == app.has_popup()
}

/// The shares of the parts of the browser: header, workers if they are shown,
/// list and footer.
pub open spec fn shares_of(with_panel: bool) -> Seq<Share> {
    if with_panel {
        seq![Share::Length(3), Share::Percentage(50), Share::Min(1), Share::Length(1)]
    } else {
        seq![Share::Length(4), Share::Min(1), Share::Length(1)]
    }
}

/// The shares of the parts of the browser.
pub fn browser_shares(with_panel: bool) -> (r: Vec<Share>)
    ensures
        r@ == shares_of(with_panel),
{
    if with_panel {
        vec![Share::Length(3), Share::Percentage(50), Share::Min(1), Share::Length(1)]
    } else {
        vec![Share::Length(4), Share::Min(1), Share::Length(1)]
    }
}

/// Some rows of an area, counted from its first.
pub open spec fn strip(area: Rect, from: int, height: int) -> Rect {
    Rect { y: (area.y + from) as u16, height: height as u16, ..area }
}

/// The rows that the browser needs at least for header, list and footer.
pub open spec fn needed_rows(with_panel: bool) -> int {
    if with_panel {
        5
    } else {
        6
    }
}

/// The rows for the workers: half of them, the half row that may be left too,
/// or as many as the other parts leave.
pub open spec fn panel_rows(rows: int) -> int {
    if rows >= 10 {
        (rows + 1) / 2
    } else {
        rows - 5
    }
}

/// The parts of the browser where it has the rows that it needs: each right
/// below the one before, and the list with all rows that the others leave.
pub open spec fn browser_parts(area: Rect, with_panel: bool) -> Seq<Rect> {
    let rows = area.extent(Axis::Rows);
    if with_panel {
        let workers = panel_rows(rows);
        seq![
            strip(area, 0, 3),
            strip(area, 3, workers),
            strip(area, 3 + workers, rows - 4 - workers),
            strip(area, rows - 1, 1),
        ]
    } else {
        seq![strip(area, 0, 4), strip(area, 4, rows - 5), strip(area, rows - 1, 1)]
    }
}

/// How many hundredths of the screen the popup is high.
pub open spec fn popup_height(app: AppView) -> u16 {
    if app.view == screen::View::Help {
        70
    } else {
        20
    }
}

/// What the browser is partly covered by.
pub open spec fn popup_over(app: AppView, area: Rect) -> Option<Rect> {
    if app.has_popup() {
        Some(layout::centered(50, popup_height(app), area))
    } else {
        None
    }
}

proof fn lemma_browser_parts(parts: Seq<Rect>, area: Rect, with_panel: bool)
    requires
        divides(parts, area, Axis::Rows, shares_of(with_panel)),
        area.extent(Axis::Rows) >= needed_rows(with_panel),
    ensures
        parts == browser_parts(area, with_panel),
{
    let shares = shares_of(with_panel);
    let rows = area.extent(Axis::Rows);
    let firm = |s: Share| s.firm();
    let soft = |s: Share| s.soft(rows);
    let growing = |s: Share| if s is Min { 1int } else { 0 };
    let yielding = |s: Share| if s is Percentage { 1int } else { 0 };
    let granted = |s: Share| s.granted(shares, rows);
    if with_panel {
        let (a, b, c, d) = (
            Share::Length(3),
            Share::Percentage(50),
            Share::Min(1),
            Share::Length(1),
        );
        layout::lemma_sum_four(a, b, c, d, firm);
        layout::lemma_sum_four(a, b, c, d, soft);
        layout::lemma_sum_four(a, b, c, d, growing);
        layout::lemma_sum_four(a, b, c, d, yielding);
        layout::lemma_sum_four(a, b, c, d, granted);
    } else {
        let (a, b, c) = (Share::Length(4), Share::Min(1), Share::Length(1));
        layout::lemma_sum_three(a, b, c, firm);
        layout::lemma_sum_three(a, b, c, soft);
        layout::lemma_sum_three(a, b, c, growing);
        layout::lemma_sum_three(a, b, c, granted);
    }
    assert(layout::can_be_met(shares, rows));
    assert(parts =~= browser_parts(area, with_panel));
}

/// The parts of the browser follow one another and cover the area.
proof fn lemma_browser_in_a_row(parts: Seq<Rect>, area: Rect, with_panel: bool)
    requires
        divides(parts, area, Axis::Rows, shares_of(with_panel)),
    ensures
        layout::in_a_row(parts, area, Axis::Rows),
        layout::reaches_the_end(parts, area, Axis::Rows),
{
    let growing = |s: Share| if s is Min { 1int } else { 0 };
    let yielding = |s: Share| if s is Percentage { 1int } else { 0 };
    if with_panel {
        let (a, b, c, d) = (
            Share::Length(3),
            Share::Percentage(50),
            Share::Min(1),
            Share::Length(1),
        );
        layout::lemma_sum_four(a, b, c, d, growing);
        layout::lemma_sum_four(a, b, c, d, yielding);
    } else {
        let (a, b, c) = (Share::Length(4), Share::Min(1), Share::Length(1));
        layout::lemma_sum_three(a, b, c, growing);
        layout::lemma_sum_three(a, b, c, yielding);
    }
}

/// Where there is a row at all there is one for the list.
proof fn lemma_list_has_a_row(parts: Seq<Rect>, area: Rect, with_panel: bool)
    requires
        divides(parts, area, Axis::Rows, shares_of(with_panel)),
        area.extent(Axis::Rows) >= 1,
    ensures
        with_panel ==> parts[2].height >= 1,
        !with_panel ==> parts[1].height >= 1,
{
    let minimum = |s: Share| s.minimum();
    if with_panel {
        layout::lemma_sum_four(
            Share::Length(3),
            Share::Percentage(50),
            Share::Min(1),
            Share::Length(1),
            minimum,
        );
        assert(parts[2].size(Axis::Rows) >= 1);
    } else {
        layout::lemma_sum_three(Share::Length(4), Share::Min(1), Share::Length(1), minimum);
        assert(parts[1].size(Axis::Rows) >= 1);
    }
}

/// Divides the screen, and scrolls the list so that the selection is on it.
/// Where there are fewer rows than the browser needs, its parts still follow
/// one another and cover the area, but how high those other than the list come out is left unsaid,
/// as for any area whose shares cannot be met.
pub fn lay_out(app: &mut App, area: Rect) -> (r: Screen)
    requires
        old(app).scroll_offset <= old(app).selected_index ==> old(app).scroll_offset + area.height
            <= usize::MAX,
    ensures
        r.area == area,
        suits(final(app)@, r@),
        old(app)@.view != screen::View::Scanning ==> {
            let with_panel = old(app)@.shows_panel();
            &&& divides(r.parts@, area, Axis::Rows, shares_of(with_panel))
            &&& layout::in_a_row(r.parts@, area, Axis::Rows)
            &&& layout::reaches_the_end(r.parts@, area, Axis::Rows)
            &&& area.extent(Axis::Rows) >= needed_rows(with_panel) ==> r.parts@ == browser_parts(
                area,
                with_panel,
            )
            &&& area.extent(Axis::Rows) >= 1 ==> r.parts@[old(app)@.list_part()].height >= 1
        },
        r.popup == popup_over(old(app)@, area),
        r.popup matches Some(popup) ==> popup.within(area) && (area.on_screen()
            ==> layout::is_centered(popup, 50, popup_height(old(app)@), area)),
        final(app)@ == if old(app)@.view == screen::View::Scanning {
            old(app)@
        } else {
            old(app)@.scrolled(r.parts@[old(app)@.list_part()].height as int)
        },
{
    if app.view == screen::View::Scanning {
        return Screen { area, parts: Vec::new(), popup: None };
    }
    let with_panel = app.show_threads && app.scanning;
    let parts = split(area, Axis::Rows, browser_shares(with_panel).as_slice());
    proof {
        lemma_browser_in_a_row(parts@, area, with_panel);
        if area.extent(Axis::Rows) >= needed_rows(with_panel) {
            lemma_browser_parts(parts@, area, with_panel);
        }
        if area.extent(Axis::Rows) >= 1 {
            lemma_list_has_a_row(parts@, area, with_panel);
        }
    }
    let list = if with_panel {
        parts[2]
    } else {
        parts[1]
    };
    assert(list.height <= area.height);
    app.ensure_visible_with_height(list.height as usize);
    let popup = match app.view {
        screen::View::Help => Some(centered_rect(50, 70, area)),
        screen::View::DeleteConfirm => Some(centered_rect(50, 20, area)),
        _ => None,
    };
    Screen { area, parts, popup }
}

/// The kinds of files as the header shows them: the first ones, with their
/// sizes in units that people read.
pub open spec fn named_kinds(stats: Seq<ExtView>) -> Seq<KindView> {
    Seq::new(
        if stats.len() < KINDS_SHOWN {
            stats.len()
        } else {
            KINDS_SHOWN as nat
        },
        |i: int|
            KindView {
                ext: stats[i].ext,
                count: stats[i].count as usize,
                size: sizes::size_text(stats[i].size as u64),
            },
    )
}

/// The header.
pub open spec fn header(app: AppView, area: Rect) -> Seq<WidgetView> {
    let stats = extensions::ranked(extensions::stats_of(app.current()));
    painting::header_widgets(
        app,
        area,
        match app.current() {
            Some(n) => sizes::size_text(n.size as u64),
            None => "0 B"@,
        },
        named_kinds(stats),
        painting::room(stats.len(), KINDS_SHOWN as nat),
    )
}

fn render_header(canvas: &mut Canvas, app: &App, area: Rect)
    requires
        extensions::sums_fit(extensions::stats_of(app@.current())),
    ensures
        final(canvas)@ == old(canvas)@ + header(app@, area),
{
    let node = app.current_node();
    let size = match node {
        Some(n) => human_size(n.size),
        None => "0 B".to_string(),
    };
    let stats = build_extension_stats(node);
    let ghost all = extensions::ext_views(stats@);
    let shown = if stats.len() < KINDS_SHOWN {
        stats.len()
    } else {
        KINDS_SHOWN
    };
    let mut kinds: Vec<KindText> = Vec::new();
    let mut i: usize = 0;
    while i < shown
        invariant
            i <= shown,
            shown <= stats@.len(),
            all == extensions::ext_views(stats@),
            shown == named_kinds(all).len(),
            kinds@.len() == i,
            forall|k: int|
                0 <= k < i ==> #[trigger] painting::kind_views(kinds@)[k] == named_kinds(all)[k],
        decreases shown - i,
    {
        let stat = &stats[i];
        let ghost before = kinds@;
        kinds.push(
            KindText { ext: stat.ext.clone(), count: stat.count, size: human_size(stat.size) },
        );
        i += 1;
        proof {
            assert(all[i - 1] == stat@);
            assert forall|k: int| 0 <= k < i implies #[trigger] painting::kind_views(kinds@)[k]
                == named_kinds(all)[k] by {
                if k < i - 1 {
                    assert(painting::kind_views(before)[k] == named_kinds(all)[k]);
                }
            }
        }
    }
    assert(painting::kind_views(kinds@) =~= named_kinds(all));
    assert(stats@.len() == all.len());
    draw_header(canvas, app, area, size.as_str(), &kinds, stats.len() - shown);
}

/// The sizes of the rows on the screen.
pub open spec fn row_sizes(app: AppView, height: u16) -> Seq<Seq<char>> {
    Seq::new(
        painting::rows_shown(app, height),
        |i: int|
            sizes::size_text((app.current()->0).children[app.scroll_offset + i].size as u64),
    )
}

/// The list.
pub open spec fn list(app: AppView, area: Rect, fills: Seq<usize>) -> Seq<WidgetView> {
    painting::list_widgets(app, area, row_sizes(app, area.height), fills)
}

fn render_list(canvas: &mut Canvas, app: &App, area: Rect, fills: &Vec<usize>)
    requires
        app@.show_bars ==> painting::bars_fit(
            fills@,
            painting::rows_shown(app@, area.height),
        ),
    ensures
        final(canvas)@ == old(canvas)@ + list(app@, area, fills@),
{
    let rows = visible_rows(app, area.height);
    let mut texts: Vec<String> = Vec::new();
    if let Some(node) = app.current_node() {
        let count = node.children.len();
        let mut i: usize = 0;
        while i < rows
            invariant
                i <= rows,
                rows == painting::rows_shown(app@, area.height),
                app@.current() == Some(node@),
                count == node.children@.len(),
                texts@.len() == i,
                forall|k: int|
                    0 <= k < i ==> #[trigger] scanner::texts(texts@)[k] == row_sizes(
                        app@,
                        area.height,
                    )[k],
            decreases rows - i,
        {
            let child = &node.children[app.scroll_offset + i];
            let ghost before = texts@;
            texts.push(human_size(child.size));
            i += 1;
            proof {
                assert(node@.children[app.scroll_offset + i - 1] == child@);
                assert forall|k: int| 0 <= k < i implies #[trigger] scanner::texts(texts@)[k]
                    == row_sizes(app@, area.height)[k] by {
                    if k < i - 1 {
                        assert(scanner::texts(before)[k] == row_sizes(app@, area.height)[k]);
                    }
                }
            }
        }
    }
    assert(scanner::texts(texts@) =~= row_sizes(app@, area.height));
    draw_list(canvas, app, area, &texts, fills);
}

/// The question before something is deleted.
pub open spec fn confirmation(app: AppView, area: Rect) -> Seq<WidgetView> {
    overlays::confirm_widgets(
        app,
        area,
        match app.selected() {
            Some(child) => sizes::size_text(child.size as u64),
            None => seq![],
        },
    )
}

fn render_delete_confirm(canvas: &mut Canvas, app: &App, area: Rect)
    ensures
        final(canvas)@ == old(canvas)@ + confirmation(app@, area),
{
    let size = match app.current_node() {
        Some(n) => if app.selected_index < n.children.len() {
            human_size(n.children[app.selected_index].size)
        } else {
            String::new()
        },
        None => String::new(),
    };
    assert(app@.selected() is None ==> size@ =~= seq![]);
    draw_delete_confirm(canvas, app, area, size.as_str());
}

/// The screen while there is no tree yet.
pub open spec fn scanning_picture(app: AppView, area: Rect) -> Seq<WidgetView> {
    seq![
        WidgetView::Frame {
            area,
            title: " fdu - Scanning... "@,
            color: Color::Cyan,
        },
        WidgetView::Text {
            area: area.framed(),
            page: painting::scanning_page(
                app.scan_progress,
                area.framed().width,
                sizes::size_text(app.scan_progress.total_size),
            ),
        },
    ]
}

fn render_scanning(canvas: &mut Canvas, app: &App, area: Rect)
    requires
        painting::scanning_fits(app@.scan_progress, area),
    ensures
        final(canvas)@ == old(canvas)@ + scanning_picture(app@, area),
{
    let total = human_size(app.scan_progress.total_size);
    draw_scanning(canvas, &app.scan_progress, area, total.as_str());
}

/// The browser, where these columns of the bars are filled.
pub open spec fn browser_picture(
    app: AppView,
    parts: Seq<Rect>,
    rows: Seq<usize>,
    threads: nat,
) -> Seq<WidgetView> {
    let top = if app.shows_panel() {
        header(app, parts[0]) + panel::panel_widgets(app.thread_activities, parts[1], threads)
    } else {
        header(app, parts[0])
    };
    (top + list(app, parts[app.list_part()], rows)).push(
        WidgetView::Text {
            area: parts[app.list_part() + 1],
            page: seq![overlays::footer_line(app)],
        },
    )
}

/// Whether the texts and numbers of the browser fit.
pub open spec fn browser_fits(app: AppView, parts: Seq<Rect>) -> bool {
    &&& extensions::sums_fit(extensions::stats_of(app.current()))
    &&& overlays::footer_fits(app)
    &&& app.shows_panel() ==> panel::panel_fits(app.thread_activities, parts[1])
}

/// Whether there is a bar for each row, if bars are shown.
pub open spec fn has_bars(app: AppView, screen: ScreenView, rows: Seq<usize>) -> bool {
    app.view != screen::View::Scanning && app.show_bars ==> painting::bars_fit(
        rows,
        painting::rows_shown(app, screen.parts[app.list_part()].height),
    )
}

fn render_browser(canvas: &mut Canvas, app: &App, parts: &Vec<Rect>, fills: &Fills)
    requires
        app@.view != screen::View::Scanning,
        parts@.len() == app@.part_count(),
        browser_fits(app@, parts@),
        app@.show_bars ==> painting::bars_fit(
            fills.rows@,
            painting::rows_shown(app@, parts@[app@.list_part()].height),
        ),
    ensures
        final(canvas)@ == old(canvas)@ + browser_picture(
            app@,
            parts@,
            fills.rows@,
            fills.threads as nat,
        ),
{
    render_header(canvas, app, parts[0]);
    let mut next: usize = 1;
    if app.show_threads && app.scanning {
        render_thread_panel(canvas, &app.thread_activities, parts[1], fills.threads);
        next = 2;
    }
    render_list(canvas, app, parts[next], &fills.rows);
    render_footer(canvas, app, parts[next + 1]);
    assert(canvas@ =~= old(canvas)@ + browser_picture(
        app@,
        parts@,
        fills.rows@,
        fills.threads as nat,
    ));
}

/// Everything that is on the screen.
pub open spec fn picture(
    app: AppView,
    screen: ScreenView,
    rows: Seq<usize>,
    threads: nat,
) -> Seq<WidgetView> {
    match app.view {
        screen::View::Scanning => scanning_picture(app, screen.area),
        screen::View::Browser => browser_picture(app, screen.parts, rows, threads),
        screen::View::Help => browser_picture(app, screen.parts, rows, threads)
            + overlays::help_widgets(screen.popup->0),
        screen::View::DeleteConfirm => browser_picture(app, screen.parts, rows, threads)
            + confirmation(app, screen.popup->0),
    }
}

/// Whether everything on the screen fits.
pub open spec fn can_be_drawn(app: AppView, screen: ScreenView) -> bool {
    if app.view == screen::View::Scanning {
        painting::scanning_fits(app.scan_progress, screen.area)
    } else {
        browser_fits(app, screen.parts)
    }
}

/// Paints the screen.
pub fn render(app: &App, screen: &Screen, fills: &Fills) -> (r: Canvas)
    requires
        suits(app@, screen@),
        can_be_drawn(app@, screen@),
        has_bars(app@, screen@, fills.rows@),
    ensures
        r@ == picture(app@, screen@, fills.rows@, fills.threads as nat),
{
    let mut canvas = Canvas::new();
    match app.view {
        screen::View::Scanning => render_scanning(&mut canvas, app, screen.area),
        screen::View::Browser => render_browser(&mut canvas, app, &screen.parts, fills),
        screen::View::Help => {
            render_browser(&mut canvas, app, &screen.parts, fills);
            if let Some(popup) = screen.popup {
                render_help_overlay(&mut canvas, popup);
            }
        },
        screen::View::DeleteConfirm => {
            render_browser(&mut canvas, app, &screen.parts, fills);
            if let Some(popup) = screen.popup {
                render_delete_confirm(&mut canvas, app, popup);
            }
        },
    }
    assert(canvas@ =~= picture(app@, screen@, fills.rows@, fills.threads as nat));
    canvas
}

/// Whether everything on the screen fits.
pub fn is_drawable(app: &App, screen: &Screen) -> (r: bool)
    requires
        suits(app@, screen@),
    ensures
        r == can_be_drawn(app@, screen@),
{
    if app.view == screen::View::Scanning {
        let width = screen.area.inner().width.saturating_sub(16) as usize;
        is_cuttable(app.scan_progress.current_path.as_str(), width)
    } else {
        let tallied = can_tally(app.current_node());
        let numbered = app.expanding || app.child_count() == 0 || app.selected_index < usize::MAX;
        let cut = !(app.show_threads && app.scanning) || is_panel_fitting(
            &app.thread_activities,
            screen.parts[1],
        );
        tallied && numbered && cut
    }
}

/// Paints the screen if everything on it fits.
pub fn draw(app: &App, screen: &Screen, fills: &Fills) -> (r: Option<Canvas>)
    requires
        suits(app@, screen@),
        has_bars(app@, screen@, fills.rows@),
    ensures
        match r {
            Some(canvas) => {
                &&& can_be_drawn(app@, screen@)
                &&& canvas@ == picture(app@, screen@, fills.rows@, fills.threads as nat)
            },
            None => !can_be_drawn(app@, screen@),
        },
{
    if is_drawable(app, screen) {
        Some(render(app, screen, fills))
    } else {
        None
    }
}

/// Where the browser has the rows that it needs, its header has four of them, or
/// three above the workers, its footer the last one, and the list at least one. The
/// workers have half of the rows, or what the other parts leave. Each part is as
/// wide as the area and begins where the one before it ends.
pub proof fn browser_parts_have_their_rows(area: Rect, with_panel: bool)
    requires
        area.on_screen(),
        area.height >= needed_rows(with_panel),
    ensures
        ({
            let parts = browser_parts(area, with_panel);
            let last = parts.last();
            &&& parts.len() == if with_panel {
                4nat
            } else {
                3
            }
            &&& parts[0].y == area.y
            &&& parts[0].height == if with_panel {
                3int
            } else {
                4
            }
            &&& last.height == 1
            &&& last.y + 1 == area.y + area.height
            &&& forall|i: int|
                0 <= i < parts.len() ==> (#[trigger] parts[i]).x == area.x && parts[i].width
                    == area.width
            &&& forall|i: int, j: int|
                #![trigger parts[i], parts[j]]
                0 <= i && j == i + 1 && j < parts.len() ==> parts[j].y == parts[i].y
                    + parts[i].height
            &&& with_panel ==> {
                &&& parts[2].height >= 1
                &&& area.height >= 10 ==> area.height <= 2 * parts[1].height <= area.height + 1
                &&& area.height < 10 ==> parts[2].height == 1
            }
        }),
        needed_rows(true) == 5,
        needed_rows(false) == 6,
{
}

/// The help and the question before a deletion lie in the middle of the screen, half
/// as wide as it; the help takes seven tenths of its height, the question two.
/// Nothing else lies over the browser.
pub proof fn popups_lie_in_the_middle(app: AppView, area: Rect)
    requires
        area.on_screen(),
    ensures
        app.view == screen::View::Help ==> (popup_over(app, area) matches Some(popup)
            && layout::is_centered(popup, 50, 70, area)),
        app.view == screen::View::DeleteConfirm ==> (popup_over(app, area) matches Some(popup)
            && layout::is_centered(popup, 50, 20, area)),
        app.view == screen::View::Browser || app.view == screen::View::Scanning ==> popup_over(
            app,
            area,
        ) is None,
{
    layout::lemma_centered(50, 70, area);
    layout::lemma_centered(50, 20, area);
}

/// Row by row, the list shows the children of the directory shown from the first one
/// on the screen on, as many as there are and as there are rows for: with the size of
/// each in units that people read, and with a ground of its own where it is the
/// selected one.
pub proof fn rows_are_those_of_the_children(app: AppView, area: Rect, fills: Seq<usize>, i: int)
    requires
        app.tree is Some,
        0 <= app.scroll_offset,
        0 <= i,
        app.scroll_offset + i < (app.current()->0).children.len(),
        i < area.height,
        fills.len() > i && fills[i] <= 16 || !app.show_bars,
    ensures
        list(app, area, fills).len() == 1,
        list(app, area, fills)[0] matches WidgetView::List { area: place, page } && {
            let children = (app.current()->0).children;
            let child = children[app.scroll_offset + i];
            let left = children.len() - app.scroll_offset;
            let row = page[i];
            let waits = app.scanning && child.is_dir && child.size == 0 && child.child_count == 0;
            &&& place == area
            &&& page.len() == if left < area.height {
                left
            } else {
                area.height as int
            }
            &&& row.len() == if app.show_bars {
                3nat
            } else {
                2
            }
            &&& row.last().text == if child.is_dir {
                child.name + "/"@
            } else {
                child.name
            }
            &&& !waits && child.size <= u64::MAX ==> row[0].text == "  "@ + strings::padded_left(
                sizes::size_text(child.size as u64),
                10,
            ) + " "@
            &&& waits ==> row[0].text == "  "@ + strings::padded_left("pending"@, 10) + " "@
            &&& app.show_bars ==> row[1].text == "["@ + strings::repeated('#', fills[i] as nat)
                + strings::repeated(' ', (16 - fills[i]) as nat) + "]"@ + " "@
            &&& row.last().style.bg is Some <==> app.scroll_offset + i == app.selected_index
        },
{
    let child = (app.current()->0).children[app.scroll_offset + i];
    painting::rows_tell_of_their_entry(
        child,
        sizes::size_text(child.size as u64),
        if app.show_bars {
            fills[i] as nat
        } else {
            0
        },
        app.show_bars,
        app.scroll_offset + i == app.selected_index,
        app.scanning,
    );
}

/// The header names the directory shown by its way from the root, and tells its size,
/// the files and directories of the whole tree, and the order of the list; while the
/// scan runs also how fast it is and how many workers it has.
pub proof fn headers_tell_the_totals(app: AppView, area: Rect)
    requires
        app.tree is Some,
    ensures
        header(app, area).len() == 2,
        header(app, area)[0] matches WidgetView::Frame { area: place, title, .. } && place == area
            && title == " "@ + painting::header_path(
            (app.tree->0).root_path,
            (app.tree->0).root,
            app.breadcrumbs,
        ) + " "@,
        header(app, area)[1] matches WidgetView::Text { area: place, page } && {
            let t = app.tree->0;
            let totals = page[0];
            &&& place == area.framed()
            &&& page.len() == 2
            &&& (app.current()->0).size <= u64::MAX ==> totals[1].text == sizes::size_text(
                (app.current()->0).size as u64,
            )
            &&& totals[3].text == text::grouped(text::decimal(t.total_files as nat))
            &&& totals[5].text == text::grouped(text::decimal(t.total_dirs as nat))
            &&& totals[7].text == match app.sort_order {
                SortOrder::SizeDesc => "size↓"@,
                SortOrder::SizeAsc => "size↑"@,
                SortOrder::NameAsc => "name↑"@,
                SortOrder::NameDesc => "name↓"@,
            }
            &&& !app.scanning ==> totals.len() == 8
            &&& app.scanning ==> {
                &&& totals.len() == 11
                &&& totals[8].text == "  "@.push(
                    painting::spinner_of(app.scan_progress.elapsed.ticks),
                ) + " scanning "@
                &&& totals[9].text == text::grouped(
                    text::decimal(app.scan_progress.entries_per_sec as nat),
                ) + "/s "@
                &&& totals[10].text == text::decimal(app.scan_progress.stat_threads as nat) + "t "@
            }
        },
{
}

/// The header names the six largest kinds of files in the directory shown, each with
/// the number of its files and their size, and tells how many more kinds there are.
pub proof fn headers_name_the_largest_kinds(app: AppView, area: Rect, i: int)
    requires
        0 <= i < 6,
        i < extensions::stats_of(app.current()).len(),
    ensures
        header(app, area)[1] matches WidgetView::Text { page, .. } && {
            let stats = extensions::ranked(extensions::stats_of(app.current()));
            let line = page[1];
            &&& line[1 + 3 * i].text == stats[i].ext
            &&& stats[i].count <= u64::MAX && stats[i].count <= usize::MAX && stats[i].size
                <= u64::MAX ==> line[2 + 3 * i].text == ": "@ + text::grouped(
                text::decimal(stats[i].count),
            ) + "×"@ + sizes::size_text(stats[i].size as u64)
            &&& stats.len() > 6 ==> line.last().text == "  +"@ + text::decimal(
                (stats.len() - 6) as nat,
            ) + " more"@
            &&& stats.len() <= 6 ==> line.len() == 3 * stats.len()
            &&& stats.len() > 6 ==> line.len() == 19
        },
{
    let found = extensions::stats_of(app.current());
    sorting::lemma_sorted_len(found, extensions::LargerFirst::relation());
    let stats = extensions::ranked(found);
    painting::kinds_are_named_in_turn(named_kinds(stats), i);
}

/// The browser has its header on its first part and its footer on its last, the list
/// above that, and the workers below the header where they are shown. Help and
/// question are painted over it, on a part of the screen that is wiped first.
pub proof fn pictures_have_their_parts(
    app: AppView,
    screen: ScreenView,
    rows: Seq<usize>,
    threads: nat,
)
    requires
        suits(app, screen),
        app.tree is Some,
    ensures
        ({
            let shown = picture(app, screen, rows, threads);
            let workers = if app.show_threads && app.scanning {
                panel::panel_widgets(app.thread_activities, screen.parts[1], threads)
            } else {
                seq![]
            };
            let above = 2 + workers.len() as int;
            app.view != screen::View::Scanning ==> {
                &&& shown.take(2) == header(app, screen.parts[0])
                &&& shown.subrange(2, above) == workers
                &&& shown[above] == list(app, screen.parts[screen.parts.len() - 2], rows)[0]
                &&& shown[above + 1] == (WidgetView::Text {
                    area: screen.parts.last(),
                    page: seq![overlays::footer_line(app)],
                })
                &&& app.view == screen::View::Browser ==> shown.len() == above + 2
                &&& app.view != screen::View::Browser ==> shown.len() == above + 5 && shown[above
                    + 2] == (WidgetView::Clear { area: screen.popup->0 })
                &&& app.view == screen::View::DeleteConfirm ==> shown.skip(above + 2)
                    == confirmation(app, screen.popup->0)
                &&& app.view == screen::View::Help ==> shown.skip(above + 2)
                    == overlays::help_widgets(screen.popup->0)
            }
        }),
{
    let shown = picture(app, screen, rows, threads);
    let head = header(app, screen.parts[0]);
    let workers = if app.show_threads && app.scanning {
        panel::panel_widgets(app.thread_activities, screen.parts[1], threads)
    } else {
        seq![]
    };
    let above = 2 + workers.len() as int;
    if app.view != screen::View::Scanning {
        assert(shown.take(2) =~= head);
        assert(shown.subrange(2, above) =~= workers);
        if app.view == screen::View::DeleteConfirm {
            assert(shown.skip(above + 2) =~= confirmation(app, screen.popup->0));
        }
        if app.view == screen::View::Help {
            assert(shown.skip(above + 2) =~= overlays::help_widgets(screen.popup->0));
        }
    }
}

/// The question before a deletion names the selected child, with its size in units
/// that people read.
pub proof fn questions_name_the_selected_child(app: AppView, area: Rect)
    requires
        app.selected() is Some,
        (app.selected()->0).size <= u64::MAX,
    ensures
        confirmation(app, area).len() == 3,
        confirmation(app, area)[2] matches WidgetView::Text { area: place, page } && {
            let child = app.selected()->0;
            let name = if child.is_dir {
                child.name + "/"@
            } else {
                child.name
            };
            &&& place == area.framed()
            &&& page[1].len() == 3
            &&& page[1][1].text == name + " ("@ + sizes::size_text(child.size as u64) + ")"@
        },
{
    reveal_strlit("");
    let child = app.selected()->0;
    assert(child.name + ""@ =~= child.name);
}

/// Before the first tree is there, the screen tells the numbers of files, directories
/// and errors so far, their size, the time, the rate, the directories that wait, the
/// workers, and the path that was reported last, cut to fit.
pub proof fn scans_tell_their_numbers(app: AppView, area: Rect)
    ensures
        scanning_picture(app, area).len() == 2,
        scanning_picture(app, area)[1] matches WidgetView::Text { area: place, page } && {
            let p = app.scan_progress;
            let width = area.framed().width;
            &&& place == area.framed()
            &&& page.len() == 8
            &&& page[1][2].text == text::grouped(text::decimal(p.files_count as nat))
            &&& page[1][4].text == text::grouped(text::decimal(p.dirs_count as nat))
            &&& page[1][6].text == text::grouped(text::decimal(p.errors_count as nat))
            &&& page[2][1].text == sizes::size_text(p.total_size)
            &&& page[2][3].text == scanner::elapsed_text(p.elapsed)
            &&& page[2][5].text == text::grouped(text::decimal(p.entries_per_sec as nat)) + "/s"@
            &&& page[3][1].text == text::grouped(text::decimal(p.dirs_queued as nat))
            &&& page[1][0].text == "  "@.push(painting::spinner_of(p.elapsed.ticks)) + " "@
            &&& page[5][1].text == strings::repeated(
                '▮',
                if width < 22 {
                    0
                } else if p.stat_threads < width - 22 {
                    p.stat_threads as nat
                } else {
                    (width - 22) as nat
                },
            )
            &&& page[5][2].text == " "@ + text::decimal(p.stat_threads as nat)
            &&& page[7][1].text == paths::cut_path(
                p.current_path,
                if width > 16 {
                    (width - 16) as nat
                } else {
                    0
                },
            )
        },
{
}

proof fn lemma_kind_within(children: Seq<NodeView>, ext: Seq<char>)
    ensures
        sorting::weigh(children, extensions::size_for_kind(ext)) <= sorting::weigh(
            children,
            |child: NodeView| child.size,
        ),
    decreases children.len(),
{
    if children.len() > 0 {
        lemma_kind_within(children.drop_last(), ext);
    }
}

/// The browser can be drawn without its workers wherever the sizes of the children of
/// the directory shown fit the machine together.
pub proof fn browsers_can_be_drawn(app: AppView, screen: ScreenView)
    requires
        app.view != screen::View::Scanning,
        !(app.show_threads && app.scanning),
        app.selected_index < usize::MAX,
        app.current() matches Some(n) ==> sorting::weigh(
            n.children,
            |child: NodeView| child.size,
        ) <= u64::MAX,
    ensures
        can_be_drawn(app, screen),
{
    let stats = extensions::stats_of(app.current());
    if let Some(n) = app.current() {
        if n.is_dir {
            let le = extensions::LargerFirst::relation();
            let shown = extensions::ranked(stats);
            extensions::kinds_are_those_of_the_files(n);
            sorting::lemma_sorted_len(stats, le);
            assert forall|i: int| 0 <= i < stats.len() implies (#[trigger] stats[i]).size
                <= u64::MAX by {
                sorting::lemma_sorted_holds(stats, le, i);
                let k = choose|k: int| 0 <= k < shown.len() && shown[k] == stats[i];
                lemma_kind_within(n.children, shown[k].ext);
            }
        }
    }
}

/// The list has as many rows as there are children from the first one on the screen
/// on, or as there is room for; without a tree there is no list, and the header tells
/// of an empty root.
pub proof fn lists_fill_their_rows(app: AppView, area: Rect, fills: Seq<usize>)
    requires
        0 <= app.scroll_offset,
    ensures
        app.tree is Some ==> (list(app, area, fills)[0] matches WidgetView::List { page, .. } && {
            let left = (app.current()->0).children.len() - app.scroll_offset;
            page.len() == if left < 0 {
                0
            } else if left < area.height {
                left
            } else {
                area.height as int
            }
        }),
        app.tree is None ==> {
            &&& list(app, area, fills).len() == 0
            &&& header(app, area)[0] matches WidgetView::Frame { title, .. } && title == " "@
                + "/"@ + " "@
            &&& header(app, area)[1] matches WidgetView::Text { page, .. } && page[0][1].text
                == "0 B"@ && page[0][3].text == text::grouped(text::decimal(0)) && page[0][5].text
                == text::grouped(text::decimal(0))
        },
{
}

/// The screen of a scan can be drawn where the path that was reported last fits on it.
pub proof fn scans_can_be_drawn(app: AppView, screen: ScreenView)
    requires
        app.view == screen::View::Scanning,
        vstd::utf8::encode_utf8(app.scan_progress.current_path).len() + 16
            <= screen.area.framed().width,
    ensures
        can_be_drawn(app, screen),
{
}

} // verus!
