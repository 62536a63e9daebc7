//! What is painted for each part of the screen, with the texts of all sizes
//! given.

use crate::app::{App, AppView, ProgressView, ScanProgress};
use crate::layout::Rect;
use crate::node::{FileNode, NodeView};
use crate::paths::truncate_path;
use crate::scanner::format_elapsed;
use crate::screen::SortOrder;
use crate::strings::{pad_left, repeat_char};
use crate::style::{
    colored, plain, span, strong, Canvas, Color, Line, Page, SpanView, Style, Widget, WidgetView,
};
use crate::text::{decimal_string, format_num};
use crate::{node, paths, scanner, strings, text, tree};
use vstd::prelude::*;

verus! {

broadcast use node::lemma_view;

/// How wide the bar of an entry is.
pub const BAR_WIDTH: usize = 16;

/// How many kinds of files the header names.
pub const KINDS_SHOWN: usize = 6;

/// A number with commas between groups of three digits.
pub open spec fn num(n: u64) -> Seq<char> {
    text::grouped(text::decimal(n as nat))
}

/// What is left of `width` behind `used` columns.
pub open spec fn room(width: nat, used: nat) -> nat {
    if width > used {
        (width - used) as nat
    } else {
        0
    }
}

/// The signs that follow each other while the scan runs, one for each tenth
/// of a second.
pub open spec fn spinner_of(ticks: usize) -> char {
    seq!['⠋', '⠙', '⠹', '⠸', '⠼', '⠴', '⠦', '⠧', '⠇', '⠏'][ticks as int % 10]
}

pub fn spinner(ticks: usize) -> (r: char)
    ensures
        r == spinner_of(ticks),
{
    match ticks % 10 {
        0 => '⠋',
        1 => '⠙',
        2 => '⠹',
        3 => '⠸',
        4 => '⠼',
        5 => '⠴',
        6 => '⠦',
        7 => '⠧',
        8 => '⠇',
        _ => '⠏',
    }
}

/// A sign for each worker, as far as there is room.
pub open spec fn thread_bar(threads: nat, max_width: nat) -> Seq<char> {
    strings::repeated(
        '▮',
        if threads < max_width {
            threads
        } else {
            max_width
        },
    )
}

pub fn render_thread_bar(threads: usize, max_width: usize) -> (r: String)
    ensures
        r@ == thread_bar(threads as nat, max_width as nat),
{
    let width = if threads < max_width {
        threads
    } else {
        max_width
    };
    repeat_char('▮', width)
}

/// What has been found so far.
pub open spec fn counts_line(progress: ProgressView) -> Seq<SpanView> {
    seq![
        span("  "@.push(spinner_of(progress.elapsed.ticks)) + " "@, colored(Color::Cyan)),
        span("Files: "@, colored(Color::Yellow)),
        span(num(progress.files_count), strong(Color::White)),
        span("  Dirs: "@, colored(Color::Yellow)),
        span(num(progress.dirs_count), strong(Color::White)),
        span("  Errors: "@, colored(Color::Yellow)),
        span(num(progress.errors_count), plain()),
    ]
}

/// How much it is, `total` in all, and how long it took.
pub open spec fn size_line(progress: ProgressView, total: Seq<char>) -> Seq<SpanView> {
    seq![
        span("    Size: "@, colored(Color::Yellow)),
        span(total, strong(Color::White)),
        span("  Time: "@, colored(Color::Yellow)),
        span(scanner::elapsed_text(progress.elapsed), plain()),
        span("  Rate: "@, colored(Color::Yellow)),
        span(num(progress.entries_per_sec) + "/s"@, plain()),
    ]
}

pub open spec fn queued_line(progress: ProgressView) -> Seq<SpanView> {
    seq![
        span("    Dirs queued: "@, colored(Color::Yellow)),
        span(num(progress.dirs_queued as u64), plain()),
    ]
}

/// The workers, in so many columns.
pub open spec fn threads_line(progress: ProgressView, width: u16) -> Seq<SpanView> {
    seq![
        span("    Stat threads: "@, colored(Color::DarkGray)),
        span(
            thread_bar(progress.stat_threads as nat, room(width as nat, 22)),
            colored(Color::Green),
        ),
        span(" "@ + text::decimal(progress.stat_threads as nat), colored(Color::DarkGray)),
    ]
}

/// What is being scanned, in so many columns.
pub open spec fn current_line(progress: ProgressView, width: u16) -> Seq<SpanView> {
    seq![
        span("    Scanning: "@, colored(Color::DarkGray)),
        span(
            paths::cut_path(progress.current_path, room(width as nat, 16)),
            colored(Color::DarkGray),
        ),
    ]
}

/// What is said of a scan that has found no tree yet, in so many columns.
pub open spec fn scanning_page(
    progress: ProgressView,
    width: u16,
    total: Seq<char>,
) -> Seq<Seq<SpanView>> {
    seq![
        seq![],
        counts_line(progress),
        size_line(progress, total),
        queued_line(progress),
        seq![],
        threads_line(progress, width),
        seq![],
        current_line(progress, width),
    ]
}

/// Whether the path that is being scanned can be cut to fit.
pub open spec fn scanning_fits(progress: ProgressView, area: Rect) -> bool {
    paths::can_be_cut(progress.current_path, room(area.framed().width as nat, 16))
}

fn scanning_counts(progress: &ScanProgress) -> (r: Line)
    ensures
        r@ == counts_line(progress@),
{
    let mut sign = "  ".to_string();
    sign.push(spinner(progress.elapsed.ticks));
    let mut line = Line::new();
    line.push(sign.concat(" ").as_str(), colored(Color::Cyan));
    line.push("Files: ", colored(Color::Yellow));
    line.push(format_num(progress.files_count).as_str(), strong(Color::White));
    line.push("  Dirs: ", colored(Color::Yellow));
    line.push(format_num(progress.dirs_count).as_str(), strong(Color::White));
    line.push("  Errors: ", colored(Color::Yellow));
    line.push(format_num(progress.errors_count).as_str(), plain());
    line
}

fn scanning_size(progress: &ScanProgress, total: &str) -> (r: Line)
    ensures
        r@ == size_line(progress@, total@),
{
    let mut line = Line::new();
    line.push("    Size: ", colored(Color::Yellow));
    line.push(total, strong(Color::White));
    line.push("  Time: ", colored(Color::Yellow));
    line.push(format_elapsed(&progress.elapsed).as_str(), plain());
    line.push("  Rate: ", colored(Color::Yellow));
    line.push(format_num(progress.entries_per_sec).concat("/s").as_str(), plain());
    line
}

/// Paints how far a scan has come that has found no tree yet.
pub fn draw_scanning(canvas: &mut Canvas, progress: &ScanProgress, area: Rect, total: &str)
    requires
        scanning_fits(progress@, area),
    ensures
        final(canvas)@ == old(canvas)@ + seq![
            WidgetView::Frame { area, title: " fdu - Scanning... "@, color: Color::Cyan },
            WidgetView::Text {
                area: area.framed(),
                page: scanning_page(progress@, area.framed().width, total@),
            },
        ],
{
    let inner = area.inner();
    let mut page = Page::new();
    page.push(Line::new());
    page.push(scanning_counts(progress));
    page.push(scanning_size(progress, total));
    let mut queued = Line::new();
    queued.push("    Dirs queued: ", colored(Color::Yellow));
    queued.push(format_num(progress.dirs_queued as u64).as_str(), plain());
    page.push(queued);
    page.push(Line::new());
    let mut threads = Line::new();
    threads.push("    Stat threads: ", colored(Color::DarkGray));
    let bar = render_thread_bar(progress.stat_threads, inner.width.saturating_sub(22) as usize);
    threads.push(bar.as_str(), colored(Color::Green));
    let count = " ".to_string().concat(decimal_string(progress.stat_threads as u64).as_str());
    threads.push(count.as_str(), colored(Color::DarkGray));
    page.push(threads);
    page.push(Line::new());
    let mut current = Line::new();
    current.push("    Scanning: ", colored(Color::DarkGray));
    let path = truncate_path(
        progress.current_path.as_str(),
        inner.width.saturating_sub(16) as usize,
    );
    current.push(path.as_str(), colored(Color::DarkGray));
    page.push(current);
    canvas.frame(area, " fdu - Scanning... ", Color::Cyan);
    canvas.push(Widget::Text { area: inner, page });
    assert(queued@ =~= queued_line(progress@));
    assert(threads@ =~= threads_line(progress@, inner.width));
    assert(current@ =~= current_line(progress@, inner.width));
    assert(page@ =~= scanning_page(progress@, area.framed().width, total@));
    assert(canvas@ =~= old(canvas)@ + seq![
        WidgetView::Frame { area, title: " fdu - Scanning... "@, color: Color::Cyan },
        WidgetView::Text {
            area: area.framed(),
            page: scanning_page(progress@, area.framed().width, total@),
        },
    ]);
}

/// The path in the header: that of the root and the names on the way from
/// there, as far as the tree has them.
pub open spec fn header_path(path: Seq<char>, node: NodeView, way: Seq<usize>) -> Seq<char>
    decreases way.len(),
{
    if way.len() == 0 {
        path
    } else if way[0] < node.children.len() {
        let child = node.children[way[0] as int];
        header_path(path + "/"@ + child.name, child, way.drop_first())
    } else {
        header_path(path, node, way.drop_first())
    }
}

/// One kind of files as the header shows it.
#[derive(Debug)]
pub struct KindText {
    pub ext: String,
    pub count: usize,
    /// The size in units that people read.
    pub size: String,
}

/// What a [`KindText`] holds, as mathematical values.
#[verifier::ext_equal]
pub struct KindView {
    pub ext: Seq<char>,
    pub count: usize,
    pub size: Seq<char>,
}

impl View for KindText {
    type V = KindView;

    open spec fn view(&self) -> KindView {
        KindView { ext: self.ext@, count: self.count, size: self.size@ }
    }
}

/// Several kinds as mathematical values.
pub open spec fn kind_views(kinds: Seq<KindText>) -> Seq<KindView> {
    kinds.map_values(|k: KindText| k@)
}

/// The kinds of files, one behind the other.
pub open spec fn kind_spans(kinds: Seq<KindView>) -> Seq<SpanView>
    decreases kinds.len(),
{
    if kinds.len() == 0 {
        seq![]
    } else {
        let before = kind_spans(kinds.drop_last());
        let apart = if kinds.len() > 1 {
            before.push(span("  "@, plain()))
        } else {
            before
        };
        let kind = kinds.last();
        apart.push(span(kind.ext, colored(Color::Cyan))).push(
            span(
                ": "@ + num(kind.count as u64) + "×"@ + kind.size,
                colored(Color::DarkGray),
            ),
        )
    }
}

/// The kinds of files in the directory shown, and how many more there are.
pub open spec fn kinds_line(kinds: Seq<KindView>, more: nat) -> Seq<SpanView> {
    let named = seq![span("  "@, plain())] + kind_spans(kinds);
    if more > 0 {
        named.push(
            span("  +"@ + text::decimal(more) + " more"@, colored(Color::DarkGray)),
        )
    } else {
        named
    }
}

/// The sign of an order.
pub open spec fn order_sign(order: SortOrder) -> Seq<char> {
    match order {
        SortOrder::SizeDesc => "size↓"@,
        SortOrder::SizeAsc => "size↑"@,
        SortOrder::NameAsc => "name↑"@,
        SortOrder::NameDesc => "name↓"@,
    }
}

fn order_text(order: SortOrder) -> (r: &'static str)
    ensures
        r@ == order_sign(order),
{
    match order {
        SortOrder::SizeDesc => "size↓",
        SortOrder::SizeAsc => "size↑",
        SortOrder::NameAsc => "name↑",
        SortOrder::NameDesc => "name↓",
    }
}

/// What the header says of the scan while it runs.
pub open spec fn scan_spans(progress: ProgressView) -> Seq<SpanView> {
    seq![
        span(
            "  "@.push(spinner_of(progress.elapsed.ticks)) + " scanning "@,
            strong(Color::Cyan),
        ),
        span(num(progress.entries_per_sec) + "/s "@, colored(Color::Green)),
        span(text::decimal(progress.stat_threads as nat) + "t "@, colored(Color::DarkGray)),
    ]
}

/// The totals: the directory shown has `size`.
pub open spec fn totals_line(app: AppView, size: Seq<char>) -> Seq<SpanView> {
    let (files, dirs) = match app.tree {
        Some(t) => (t.total_files, t.total_dirs),
        None => (0u64, 0u64),
    };
    let totals = seq![
        span("  Total: "@, colored(Color::Yellow)),
        span(size, strong(Color::White)),
        span("  Files: "@, colored(Color::Yellow)),
        span(num(files), plain()),
        span("  Dirs: "@, colored(Color::Yellow)),
        span(num(dirs), plain()),
        span("  Sort: "@, colored(Color::Yellow)),
        span(order_sign(app.sort_order), plain()),
    ];
    if app.scanning {
        totals + scan_spans(app.scan_progress)
    } else {
        totals
    }
}

/// The title of the header.
pub open spec fn header_title(app: AppView) -> Seq<char> {
    " "@ + (match app.tree {
        Some(t) => header_path(t.root_path, t.root, app.breadcrumbs),
        None => "/"@,
    }) + " "@
}

/// The header: the directory shown has `size`, and these kinds of files and
/// so many more.
pub open spec fn header_widgets(
    app: AppView,
    area: Rect,
    size: Seq<char>,
    kinds: Seq<KindView>,
    more: nat,
) -> Seq<WidgetView> {
    seq![
        WidgetView::Frame { area, title: header_title(app), color: Color::Cyan },
        WidgetView::Text {
            area: area.framed(),
            page: seq![totals_line(app, size), kinds_line(kinds, more)],
        },
    ]
}

fn title_path(app: &App) -> (r: String)
    ensures
        r@ == (match app@.tree {
            Some(t) => header_path(t.root_path, t.root, app@.breadcrumbs),
            None => "/"@,
        }),
{
    match &app.tree {
        Some(t) => {
            let mut path = t.root_path.clone();
            let mut current = &t.root;
            let mut i: usize = 0;
            let ghost way = app.breadcrumbs@;
            assert(way.skip(0) =~= way);
            while i < app.breadcrumbs.len()
                invariant
                    i <= way.len(),
                    way == app.breadcrumbs@,
                    header_path(path@, current@, way.skip(i as int)) == header_path(
                        t@.root_path,
                        t@.root,
                        way,
                    ),
                decreases way.len() - i,
            {
                let k = app.breadcrumbs[i];
                assert(way.skip(i as int).drop_first() =~= way.skip(i + 1));
                if k < current.children.len() {
                    let child = &current.children[k];
                    path = path.concat("/").concat(child.name.as_str());
                    current = child;
                }
                i += 1;
            }
            path
        },
        None => "/".to_string(),
    }
}

fn totals(app: &App, size: &str) -> (r: Line)
    ensures
        r@ == totals_line(app@, size@),
{
    let (files, dirs): (u64, u64) = match &app.tree {
        Some(t) => (t.total_files, t.total_dirs),
        None => (0, 0),
    };
    let mut line = Line::new();
    line.push("  Total: ", colored(Color::Yellow));
    line.push(size, strong(Color::White));
    line.push("  Files: ", colored(Color::Yellow));
    line.push(format_num(files).as_str(), plain());
    line.push("  Dirs: ", colored(Color::Yellow));
    line.push(format_num(dirs).as_str(), plain());
    line.push("  Sort: ", colored(Color::Yellow));
    line.push(order_text(app.sort_order), plain());
    if app.scanning {
        let ghost before = line@;
        let progress = &app.scan_progress;
        let mut sign = "  ".to_string();
        sign.push(spinner(progress.elapsed.ticks));
        line.push(sign.concat(" scanning ").as_str(), strong(Color::Cyan));
        let rate = format_num(progress.entries_per_sec).concat("/s ");
        line.push(rate.as_str(), colored(Color::Green));
        let threads = decimal_string(progress.stat_threads as u64).concat("t ");
        line.push(threads.as_str(), colored(Color::DarkGray));
        assert(line@ =~= before + scan_spans(progress@));
    }
    line
}

fn kinds_text(kinds: &Vec<KindText>, more: usize) -> (r: Line)
    ensures
        r@ == kinds_line(kind_views(kinds@), more as nat),
{
    let ghost all = kind_views(kinds@);
    let mut line = blank();
    let mut i: usize = 0;
    assert(all.take(0) =~= Seq::<KindView>::empty());
    assert(line@ =~= seq![span("  "@, plain())] + kind_spans(all.take(0)));
    while i < kinds.len()
        invariant
            i <= kinds@.len(),
            all == kind_views(kinds@),
            line@ == seq![span("  "@, plain())] + kind_spans(all.take(i as int)),
        decreases kinds@.len() - i,
    {
        let kind = &kinds[i];
        proof {
            assert(all[i as int] == kind@);
            assert(all.take(i + 1).drop_last() =~= all.take(i as int));
        }
        if i > 0 {
            line.push("  ", plain());
        }
        line.push(kind.ext.as_str(), colored(Color::Cyan));
        let count = ": ".to_string().concat(format_num(kind.count as u64).as_str());
        let text = count.concat("×").concat(kind.size.as_str());
        line.push(text.as_str(), colored(Color::DarkGray));
        i += 1;
        assert(line@ =~= seq![span("  "@, plain())] + kind_spans(all.take(i as int)));
    }
    assert(all.take(i as int) =~= all);
    if more > 0 {
        let text = "  +".to_string().concat(decimal_string(more as u64).as_str()).concat(" more");
        line.push(text.as_str(), colored(Color::DarkGray));
    }
    line
}

fn blank() -> (r: Line)
    ensures
        r@ == seq![span("  "@, plain())],
{
    let mut line = Line::new();
    line.push("  ", plain());
    line
}

/// Paints the header.
pub fn draw_header(
    canvas: &mut Canvas,
    app: &App,
    area: Rect,
    size: &str,
    kinds: &Vec<KindText>,
    more: usize,
)
    ensures
        final(canvas)@ == old(canvas)@ + header_widgets(
            app@,
            area,
            size@,
            kind_views(kinds@),
            more as nat,
        ),
{
    let title = " ".to_string().concat(title_path(app).as_str()).concat(" ");
    canvas.frame(area, title.as_str(), Color::Cyan);
    let mut page = Page::new();
    page.push(totals(app, size));
    page.push(kinds_text(kinds, more));
    assert(page@ =~= seq![
        totals_line(app@, size@),
        kinds_line(kind_views(kinds@), more as nat),
    ]);
    assert(title@ =~= header_title(app@));
    canvas.push(Widget::Text { area: area.inner(), page });
    assert(canvas@ =~= old(canvas)@ + header_widgets(
        app@,
        area,
        size@,
        kind_views(kinds@),
        more as nat,
    ));
}

/// Whether a directory is still to be scanned.
pub open spec fn is_pending(node: NodeView, scanning: bool) -> bool {
    scanning && node.is_dir && node.size == 0 && node.child_count == 0
}

/// The style of an entry.
pub open spec fn entry_style(selected: bool) -> Style {
    if selected {
        Style { fg: Some(Color::White), bg: Some(Color::DarkGray), bold: true }
    } else {
        plain()
    }
}

/// A bar with `filled` of its columns filled.
pub open spec fn bar_text(filled: nat) -> Seq<char> {
    "["@ + strings::repeated('#', filled) + strings::repeated(
        ' ',
        room(BAR_WIDTH as nat, filled),
    ) + "]"@
}

/// One row of the list: an entry of `size`, whose bar is filled in `filled`
/// columns.
pub open spec fn entry_line(
    node: NodeView,
    size: Seq<char>,
    filled: nat,
    show_bars: bool,
    selected: bool,
    scanning: bool,
) -> Seq<SpanView> {
    let style = entry_style(selected);
    let size_span = span(
        "  "@ + strings::padded_left(
            if is_pending(node, scanning) {
                "pending"@
            } else {
                size
            },
            10,
        ) + " "@,
        if is_pending(node, scanning) {
            Style { fg: Some(Color::DarkGray), ..style }
        } else {
            style
        },
    );
    let name_span = if node.is_dir {
        span(node.name + "/"@, Style { fg: Some(Color::Blue), bold: true, ..style })
    } else {
        span(node.name, style)
    };
    if show_bars {
        seq![
            size_span,
            span(bar_text(filled) + " "@, Style { fg: Some(Color::Green), ..style }),
            name_span,
        ]
    } else {
        seq![size_span, name_span]
    }
}

/// One row of the list.
pub fn render_entry(
    node: &FileNode,
    size: &str,
    filled: usize,
    show_bars: bool,
    selected: bool,
    scanning: bool,
) -> (r: Line)
    requires
        show_bars ==> filled <= BAR_WIDTH,
    ensures
        r@ == entry_line(node@, size@, filled as nat, show_bars, selected, scanning),
{
    let pending = scanning && node.is_dir && node.size == 0 && node.child_count == 0;
    let style = if selected {
        Style { fg: Some(Color::White), bg: Some(Color::DarkGray), bold: true }
    } else {
        plain()
    };
    let mut line = Line::new();
    let padded = if pending {
        pad_left("pending", 10)
    } else {
        pad_left(size, 10)
    };
    let size_style = if pending {
        Style { fg: Some(Color::DarkGray), bg: style.bg, bold: style.bold }
    } else {
        style
    };
    let text = "  ".to_string().concat(padded.as_str()).concat(" ");
    line.push(text.as_str(), size_style);
    if show_bars {
        let full = repeat_char('#', filled);
        let empty = repeat_char(' ', BAR_WIDTH - filled);
        let bar = "[".to_string().concat(full.as_str()).concat(empty.as_str()).concat("]");
        line.push(
            bar.concat(" ").as_str(),
            Style { fg: Some(Color::Green), bg: style.bg, bold: style.bold },
        );
    }
    if node.is_dir {
        line.push(
            node.name.clone().concat("/").as_str(),
            Style { fg: Some(Color::Blue), bg: style.bg, bold: true },
        );
    } else {
        line.push(node.name.as_str(), style);
    }
    line
}

/// How many children are on a screen of so many rows.
pub open spec fn rows_shown(app: AppView, height: u16) -> nat {
    let left = room(app.count(), app.scroll_offset as nat);
    if left < height {
        left
    } else {
        height as nat
    }
}

/// How many children are on a screen of so many rows.
pub fn visible_rows(app: &App, height: u16) -> (r: usize)
    ensures
        r == rows_shown(app@, height),
{
    let left = app.child_count().saturating_sub(app.scroll_offset);
    if left < height as usize {
        left
    } else {
        height as usize
    }
}

/// The rows of the list, whose sizes and bars are these.
pub open spec fn list_page(
    app: AppView,
    height: u16,
    sizes: Seq<Seq<char>>,
    fills: Seq<usize>,
) -> Seq<Seq<SpanView>> {
    Seq::new(
        rows_shown(app, height),
        |i: int|
            entry_line(
                app.current()->0.children[app.scroll_offset + i],
                sizes[i],
                fills[i] as nat,
                app.show_bars,
                app.scroll_offset + i == app.selected_index,
                app.scanning,
            ),
    )
}

/// Whether these are bars for so many rows.
pub open spec fn bars_fit(fills: Seq<usize>, rows: nat) -> bool {
    &&& fills.len() == rows
    &&& forall|i: int| 0 <= i < fills.len() ==> #[trigger] fills[i] <= BAR_WIDTH
}

/// The list of the directory shown; nothing where there is no tree.
pub open spec fn list_widgets(
    app: AppView,
    area: Rect,
    sizes: Seq<Seq<char>>,
    fills: Seq<usize>,
) -> Seq<WidgetView> {
    if app.tree is Some {
        seq![WidgetView::List { area, page: list_page(app, area.height, sizes, fills) }]
    } else {
        seq![]
    }
}

/// Paints the list.
pub fn draw_list(
    canvas: &mut Canvas,
    app: &App,
    area: Rect,
    sizes: &Vec<String>,
    fills: &Vec<usize>,
)
    requires
        sizes@.len() == rows_shown(app@, area.height),
        app@.show_bars ==> bars_fit(fills@, rows_shown(app@, area.height)),
    ensures
        final(canvas)@ == old(canvas)@ + list_widgets(
            app@,
            area,
            scanner::texts(sizes@),
            fills@,
        ),
{
    let ghost texts = scanner::texts(sizes@);
    let node = match app.current_node() {
        Some(n) => n,
        None => {
            assert(canvas@ =~= old(canvas)@ + list_widgets(app@, area, texts, fills@));
            return;
        },
    };
    let rows = visible_rows(app, area.height);
    let count = node.children.len();
    let mut page = Page::new();
    let mut i: usize = 0;
    assert(page@ =~= list_page(app@, area.height, texts, fills@).take(0));
    while i < rows
        invariant
            i <= rows,
            rows == rows_shown(app@, area.height),
            app@.current() == Some(node@),
            count == node.children@.len(),
            texts == scanner::texts(sizes@),
            sizes@.len() == rows,
            app@.show_bars ==> bars_fit(fills@, rows as nat),
            page@ == list_page(app@, area.height, texts, fills@).take(i as int),
        decreases rows - i,
    {
        let k = app.scroll_offset + i;
        let filled: usize = if app.show_bars {
            fills[i]
        } else {
            0
        };
        let line = render_entry(
            &node.children[k],
            sizes[i].as_str(),
            filled,
            app.show_bars,
            k == app.selected_index,
            app.scanning,
        );
        proof {
            let all = list_page(app@, area.height, texts, fills@);
            assert(texts[i as int] == sizes@[i as int]@);
            assert(node@.children[k as int] == node.children@[k as int]@);
            assert(line@ =~= all[i as int]);
            assert(all.take(i + 1) =~= all.take(i as int).push(all[i as int]));
        }
        page.push(line);
        i += 1;
    }
    assert(page@ =~= list_page(app@, area.height, texts, fills@));
    canvas.push(Widget::List { area, page });
    assert(canvas@ =~= old(canvas)@ + list_widgets(app@, area, texts, fills@));
}

/// The sign of a running scan comes back after ten ticks, and not before.
pub proof fn signs_go_round(ticks: usize, later: usize)
    ensures
        spinner_of(ticks) == spinner_of(later) <==> ticks % 10 == later % 10,
{
}

/// There is a sign for each worker, or as many as there is room for.
pub proof fn workers_have_a_sign_each(threads: nat, max_width: nat)
    ensures
        threads <= max_width ==> thread_bar(threads, max_width).len() == threads,
        threads > max_width ==> thread_bar(threads, max_width).len() == max_width,
        forall|i: int|
            0 <= i < thread_bar(threads, max_width).len() ==> #[trigger] thread_bar(
                threads,
                max_width,
            )[i] == '▮',
{
}

/// The title of the root is its path, and that of a child the title of its directory
/// with a slash and its name behind it. A step that the tree does not have adds
/// nothing.
pub proof fn titles_follow_the_way(path: Seq<char>, node: NodeView, way: Seq<usize>, i: usize)
    ensures
        header_path(path, node, Seq::empty()) == path,
        tree::descendant(node, way) matches Some(n) ==> header_path(path, node, way.push(i))
            == if i < n.children.len() {
            header_path(path, node, way) + "/"@ + n.children[i as int].name
        } else {
            header_path(path, node, way)
        },
    decreases way.len(),
{
    let longer = way.push(i);
    if way.len() == 0 {
        assert(longer.drop_first() =~= way);
        assert(longer[0] == i);
        if i < node.children.len() {
            let child = node.children[i as int];
            let below = path + "/"@ + child.name;
            assert(header_path(below, child, way) == below);
        } else {
            assert(header_path(path, node, way) == path);
        }
    } else {
        assert(longer.drop_first() =~= way.drop_first().push(i));
        assert(longer[0] == way[0]);
        if way[0] < node.children.len() {
            let child = node.children[way[0] as int];
            titles_follow_the_way(path + "/"@ + child.name, child, way.drop_first(), i);
        }
    }
}

/// Each kind named has two spans of its own: its ending, and how many files of it
/// there are with their size.
pub proof fn kinds_are_named_in_turn(kinds: Seq<KindView>, i: int)
    requires
        0 <= i < kinds.len(),
    ensures
        kind_spans(kinds).len() == 3 * kinds.len() - 1,
        kind_spans(kinds)[3 * i].text == kinds[i].ext,
        kind_spans(kinds)[3 * i + 1].text == ": "@ + num(kinds[i].count as u64) + "×"@
            + kinds[i].size,
    decreases kinds.len(),
{
    let rest = kinds.drop_last();
    if rest.len() > 0 {
        kinds_are_named_in_turn(
            rest,
            if i < rest.len() {
                i
            } else {
                0
            },
        );
        if i < rest.len() {
            assert(kind_spans(kinds)[3 * i] == kind_spans(rest)[3 * i]);
            assert(kind_spans(kinds)[3 * i + 1] == kind_spans(rest)[3 * i + 1]);
        }
    } else {
        assert(kind_spans(rest) =~= Seq::<SpanView>::empty());
    }
}

/// The row of an entry ends with its name, that of a directory with a slash behind
/// it, and begins with its size, aligned to the right, or says that a directory is
/// still to be scanned. Between them is its bar, where bars are shown. Only the
/// selected row has a ground of its own.
pub proof fn rows_tell_of_their_entry(
    node: NodeView,
    size: Seq<char>,
    filled: nat,
    show_bars: bool,
    selected: bool,
    scanning: bool,
)
    requires
        filled <= 16,
    ensures
        ({
            let row = entry_line(node, size, filled, show_bars, selected, scanning);
            let waits = scanning && node.is_dir && node.size == 0 && node.child_count == 0;
            &&& row.len() == if show_bars {
                3nat
            } else {
                2
            }
            &&& node.is_dir ==> row.last().text == node.name + "/"@ && row.last().style.fg == Some(
                Color::Blue,
            ) && row.last().style.bold
            &&& !node.is_dir ==> row.last().text == node.name && row.last().style.bold == selected
            &&& !node.is_dir ==> row.last().style.fg == if selected {
                Some(Color::White)
            } else {
                None
            }
            &&& row[0].style.bold == selected
            &&& row[0].style.fg == if waits {
                Some(Color::DarkGray)
            } else if selected {
                Some(Color::White)
            } else {
                None
            }
            &&& !waits ==> row[0].text == "  "@ + strings::padded_left(size, 10) + " "@
            &&& waits ==> row[0].text == "  "@ + strings::padded_left("pending"@, 10) + " "@
            &&& show_bars ==> {
                let bar = row[1].text;
                &&& bar == "["@ + strings::repeated('#', filled) + strings::repeated(
                    ' ',
                    (16 - filled) as nat,
                ) + "]"@ + " "@
                &&& row[1].style.fg == Some(Color::Green)
            }
            &&& forall|k: int|
                0 <= k < row.len() ==> (#[trigger] row[k]).style.bg == if selected {
                    Some(Color::DarkGray)
                } else {
                    None
                }
        }),
{
}

} // verus!
