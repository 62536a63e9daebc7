//! The footer, the help and the question before something is deleted.

use crate::app::{App, AppView};
use crate::layout::Rect;
use crate::node;
use crate::node::NodeView;
use crate::painting::num;
use crate::style::{
    colored, plain, span, strong, Canvas, Color, Line, Page, SpanView, Widget, WidgetView,
};
use crate::text;
use crate::text::{decimal_string, format_num};
use vstd::prelude::*;

verus! {

broadcast use node::lemma_view;

/// Where the selection is.
pub open spec fn position_text(app: AppView) -> Seq<char> {
    let place = text::decimal((app.selected_index + 1) as nat) + "/"@ + text::decimal(app.count());
    if app.expanding {
        "expanding..."@
    } else if app.count() == 0 {
        "empty"@
    } else if app.aggregated() {
        place + " (of "@ + num((app.current()->0).child_count as u64) + " total)"@
    } else {
        place
    }
}

/// The keys, and where the selection is.
pub open spec fn footer_line(app: AppView) -> Seq<SpanView> {
    let keys = seq![
        span(
            " ↑↓/jk:nav  →/enter:open  ←/bs:back  s:sort  g:bars  d:del  ?:help  q:quit "@,
            colored(Color::DarkGray),
        ),
    ];
    let expand = if app.aggregated() && !app.expanding {
        seq![span(" e:expand "@, colored(Color::Yellow))]
    } else {
        seq![]
    };
    let threads = if app.scanning {
        seq![span(" space:threads "@, colored(Color::Green))]
    } else {
        seq![]
    };
    (keys + expand + threads).push(
        span(" "@ + position_text(app) + " "@, colored(Color::Yellow)),
    )
}

/// Whether the number of the selected child fits the machine.
pub open spec fn footer_fits(app: AppView) -> bool {
    app.expanding || app.count() == 0 || app.selected_index < usize::MAX
}

fn position(app: &App) -> (r: String)
    requires
        footer_fits(app@),
    ensures
        r@ == position_text(app@),
{
    let count = app.child_count();
    if app.expanding {
        return "expanding...".to_string();
    }
    if count == 0 {
        return "empty".to_string();
    }
    let place = decimal_string(app.selected_index as u64 + 1).concat("/").concat(
        decimal_string(count as u64).as_str(),
    );
    match app.current_node() {
        Some(n) => if n.child_count > n.children.len() {
            let total = format_num(n.child_count as u64);
            place.concat(" (of ").concat(total.as_str()).concat(" total)")
        } else {
            place
        },
        None => place,
    }
}

/// Paints the footer.
pub fn render_footer(canvas: &mut Canvas, app: &App, area: Rect)
    requires
        footer_fits(app@),
    ensures
        final(canvas)@ == old(canvas)@.push(
            WidgetView::Text { area, page: seq![footer_line(app@)] },
        ),
{
    let mut line = Line::new();
    line.push(
        " ↑↓/jk:nav  →/enter:open  ←/bs:back  s:sort  g:bars  d:del  ?:help  q:quit ",
        colored(Color::DarkGray),
    );
    if app.is_aggregated() && !app.expanding {
        line.push(" e:expand ", colored(Color::Yellow));
    }
    if app.scanning {
        line.push(" space:threads ", colored(Color::Green));
    }
    let place = " ".to_string().concat(position(app).as_str()).concat(" ");
    line.push(place.as_str(), colored(Color::Yellow));
    assert(line@ =~= footer_line(app@));
    let mut page = Page::new();
    page.push(line);
    assert(page@ =~= seq![footer_line(app@)]);
    canvas.push(Widget::Text { area, page });
}

/// One line of the help: a key and what it does.
pub open spec fn help_line(key: Seq<char>, meaning: Seq<char>) -> Seq<SpanView> {
    seq![span(key, colored(Color::Cyan)), span(meaning, plain())]
}

/// The help.
pub open spec fn help_page() -> Seq<Seq<SpanView>> {
    seq![
        seq![],
        help_line("  ↑/k         "@, "Move up"@),
        help_line("  ↓/j         "@, "Move down"@),
        help_line("  →/Enter/l   "@, "Open directory"@),
        help_line("  ←/Backspace/h"@, " Go back"@),
        help_line("  s           "@, "Cycle sort (size↓ → size↑ → name↑ → name↓)"@),
        help_line("  n           "@, "Sort by name"@),
        help_line("  g           "@, "Toggle size bars"@),
        help_line("  d           "@, "Delete selected"@),
        help_line("  PgUp/PgDn   "@, "Scroll page"@),
        help_line("  Home/End    "@, "Jump to first/last"@),
        help_line("  ?/Esc       "@, "Close help"@),
        help_line("  q           "@, "Quit"@),
    ]
}

fn explain(page: &mut Page, key: &str, meaning: &str)
    ensures
        final(page)@ == old(page)@.push(help_line(key@, meaning@)),
{
    let mut line = Line::new();
    line.push(key, colored(Color::Cyan));
    line.push(meaning, plain());
    assert(line@ =~= help_line(key@, meaning@));
    page.push(line);
}

/// The help over whatever is in its area.
pub open spec fn help_widgets(area: Rect) -> Seq<WidgetView> {
    seq![
        WidgetView::Clear { area },
        WidgetView::Frame { area, title: " Help "@, color: Color::Yellow },
        WidgetView::Text { area: area.framed(), page: help_page() },
    ]
}

/// Paints the help.
pub fn render_help_overlay(canvas: &mut Canvas, area: Rect)
    ensures
        final(canvas)@ == old(canvas)@ + help_widgets(area),
{
    let mut page = Page::new();
    page.push(Line::new());
    explain(&mut page, "  ↑/k         ", "Move up");
    explain(&mut page, "  ↓/j         ", "Move down");
    explain(&mut page, "  →/Enter/l   ", "Open directory");
    explain(&mut page, "  ←/Backspace/h", " Go back");
    explain(&mut page, "  s           ", "Cycle sort (size↓ → size↑ → name↑ → name↓)");
    explain(&mut page, "  n           ", "Sort by name");
    explain(&mut page, "  g           ", "Toggle size bars");
    explain(&mut page, "  d           ", "Delete selected");
    explain(&mut page, "  PgUp/PgDn   ", "Scroll page");
    explain(&mut page, "  Home/End    ", "Jump to first/last");
    explain(&mut page, "  ?/Esc       ", "Close help");
    explain(&mut page, "  q           ", "Quit");
    assert(page@ =~= help_page());
    canvas.push(Widget::Clear { area });
    canvas.frame(area, " Help ", Color::Yellow);
    canvas.push(Widget::Text { area: area.inner(), page });
    assert(canvas@ =~= old(canvas)@ + help_widgets(area));
}

/// What is to be deleted: its name and, in brackets, its size.
pub open spec fn target_text(target: Option<NodeView>, size: Seq<char>) -> Seq<char> {
    match target {
        Some(n) => n.name + (if n.is_dir {
            "/"@
        } else {
            ""@
        }) + " ("@ + size + ")"@,
        None => seq![],
    }
}

/// The question before something is deleted.
pub open spec fn confirm_page(target: Option<NodeView>, size: Seq<char>) -> Seq<Seq<SpanView>> {
    seq![
        seq![],
        seq![
            span("  Delete "@, colored(Color::Red)),
            span(target_text(target, size), strong(Color::White)),
            span("?"@, colored(Color::Red)),
        ],
        seq![],
        seq![
            span("  Press "@, colored(Color::DarkGray)),
            span("y"@, strong(Color::Red)),
            span(" to confirm, "@, colored(Color::DarkGray)),
            span("n/Esc"@, strong(Color::Green)),
            span(" to cancel"@, colored(Color::DarkGray)),
        ],
    ]
}

/// The question over whatever is in its area.
pub open spec fn confirm_widgets(app: AppView, area: Rect, size: Seq<char>) -> Seq<WidgetView> {
    seq![
        WidgetView::Clear { area },
        WidgetView::Frame { area, title: " Confirm Delete "@, color: Color::Red },
        WidgetView::Text { area: area.framed(), page: confirm_page(app.selected(), size) },
    ]
}

fn target(app: &App, size: &str) -> (r: String)
    ensures
        r@ == target_text(app@.selected(), size@),
{
    match app.current_node() {
        Some(n) => if app.selected_index < n.children.len() {
            let child = &n.children[app.selected_index];
            let suffix = if child.is_dir {
                "/"
            } else {
                ""
            };
            child.name.clone().concat(suffix).concat(" (").concat(size).concat(")")
        } else {
            let none = String::new();
            assert(none@ =~= seq![]);
            none
        },
        None => {
            let none = String::new();
            assert(none@ =~= seq![]);
            none
        },
    }
}

/// Paints the question whether the selected child, of `size`, is to be
/// deleted.
pub fn draw_delete_confirm(canvas: &mut Canvas, app: &App, area: Rect, size: &str)
    ensures
        final(canvas)@ == old(canvas)@ + confirm_widgets(app@, area, size@),
{
    let mut question = Line::new();
    question.push("  Delete ", colored(Color::Red));
    question.push(target(app, size).as_str(), strong(Color::White));
    question.push("?", colored(Color::Red));
    let mut keys = Line::new();
    keys.push("  Press ", colored(Color::DarkGray));
    keys.push("y", strong(Color::Red));
    keys.push(" to confirm, ", colored(Color::DarkGray));
    keys.push("n/Esc", strong(Color::Green));
    keys.push(" to cancel", colored(Color::DarkGray));
    assert(question@ =~= confirm_page(app@.selected(), size@)[1]);
    assert(keys@ =~= confirm_page(app@.selected(), size@)[3]);
    let mut page = Page::new();
    page.push(Line::new());
    page.push(question);
    page.push(Line::new());
    page.push(keys);
    assert(page@ =~= confirm_page(app@.selected(), size@));
    canvas.push(Widget::Clear { area });
    canvas.frame(area, " Confirm Delete ", Color::Red);
    canvas.push(Widget::Text { area: area.inner(), page });
    assert(canvas@ =~= old(canvas)@ + confirm_widgets(app@, area, size@));
}

/// The footer ends with where the selection is: its number, counted from one, of how
/// many children are listed, and of how many there are where that is more. It says so
/// where children are being read, or there are none. How to list all children is
/// told where some are hidden, and how to see the workers while the scan runs.
pub proof fn footers_tell_the_place(app: AppView)
    requires
        app.tree is Some,
        0 <= app.selected_index,
    ensures
        ({
            let line = footer_line(app);
            let shown = app.current()->0;
            let listed = shown.children.len();
            let hidden = shown.child_count > listed;
            let place = text::decimal((app.selected_index + 1) as nat) + "/"@ + text::decimal(
                listed,
            );
            let told = line.last().text;
            &&& app.expanding ==> told == " "@ + "expanding..."@ + " "@
            &&& !app.expanding && listed == 0 ==> told == " "@ + "empty"@ + " "@
            &&& !app.expanding && listed > 0 && !hidden ==> told == " "@ + place + " "@
            &&& !app.expanding && listed > 0 && hidden && shown.child_count <= u64::MAX ==> told
                == " "@ + (place + " (of "@ + text::grouped(text::decimal(shown.child_count))
                + " total)"@) + " "@
            &&& line.len() == 2 + (if hidden && !app.expanding {
                1int
            } else {
                0
            }) + (if app.scanning {
                1int
            } else {
                0
            })
            &&& hidden && !app.expanding ==> line[1].text == " e:expand "@
            &&& app.scanning ==> line[line.len() - 2].text == " space:threads "@
        }),
{
}

} // verus!
