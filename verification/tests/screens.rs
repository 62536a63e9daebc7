use fdu::app::App;
use fdu::extensions::{build_extension_stats, can_tally, ending, extension, kind, rank, ExtStat};
use fdu::layout::{centered_rect, centering, Rect, Share};
use fdu::node::{FileNode, Timestamp};
use fdu::overlays::draw_delete_confirm;
use fdu::painting::{draw_header, render_entry, render_thread_bar, spinner, visible_rows, KindText};
use fdu::panel::{busy_threads, is_panel_fitting, render_thread_panel};
use fdu::screen::View;
use fdu::style::{Canvas, Color, Line, Page, Style, Widget};
use fdu::tree::FileTree;
use fdu::ui::{browser_shares, draw, is_drawable, lay_out, render, Fills, Screen};

fn file(name: &str, size: u64) -> FileNode {
    FileNode::new_file(name.to_string(), size, None)
}

fn dir(name: &str, children: Vec<FileNode>) -> FileNode {
    let mut d = FileNode::new_dir(name.to_string(), None);
    d.size = children.iter().map(|c| c.size).sum();
    d.child_count = children.len();
    d.children = children;
    d
}

fn browsing(children: Vec<FileNode>) -> App {
    let mut app = App::new();
    app.tree = Some(FileTree {
        root_path: "/r".to_string(),
        root: dir("r", children),
        total_files: 1234,
        total_dirs: 56,
        total_errors: 0,
        scan_time: Timestamp { secs: 0, nanos: 0 },
        complete: true,
    });
    app.view = View::Browser;
    app.scanning = false;
    app
}

fn area(width: u16, height: u16) -> Rect {
    Rect { x: 0, y: 0, width, height }
}

fn text(line: &Line) -> String {
    line.spans.iter().map(|s| s.text.as_str()).collect()
}

fn texts(page: &Page) -> Vec<String> {
    page.lines.iter().map(text).collect()
}

fn fills(rows: usize) -> Fills {
    Fills { rows: vec![4; rows], threads: 3 }
}

fn picture(app: &mut App, width: u16, height: u16) -> (Screen, Canvas) {
    let screen = lay_out(app, area(width, height));
    let rows = match screen.parts.len() {
        4 => visible_rows(app, screen.parts[2].height),
        3 => visible_rows(app, screen.parts[1].height),
        _ => 0,
    };
    let canvas = draw(app, &screen, &fills(rows)).unwrap();
    (screen, canvas)
}

#[test]
fn the_inside_of_a_frame() {
    assert_eq!(area(10, 5).inner(), Rect { x: 1, y: 1, width: 8, height: 3 });
    assert_eq!(area(1, 0).inner(), Rect { x: 1, y: 0, width: 0, height: 0 });
    let edge = Rect { x: u16::MAX, y: 2, width: 3, height: 3 };
    assert_eq!(edge.inner(), Rect { x: u16::MAX, y: 3, width: 1, height: 1 });
}

#[test]
fn the_browser_has_header_list_and_footer() {
    let mut app = browsing(vec![]);
    let screen = lay_out(&mut app, area(80, 24));
    assert_eq!(
        screen.parts,
        [
            Rect { x: 0, y: 0, width: 80, height: 4 },
            Rect { x: 0, y: 4, width: 80, height: 19 },
            Rect { x: 0, y: 23, width: 80, height: 1 },
        ]
    );
    assert!(screen.popup.is_none());
    app.scanning = true;
    app.show_threads = true;
    let screen = lay_out(&mut app, area(80, 24));
    assert_eq!(screen.parts.len(), 4);
    assert_eq!((screen.parts[0].height, screen.parts[3].height), (3, 1));
    assert_eq!(screen.parts[1].height, 12);
    assert_eq!(browser_shares(false), [Share::Length(4), Share::Min(1), Share::Length(1)]);
    assert_eq!(browser_shares(true)[1], Share::Percentage(50));
}

#[test]
fn popups_are_centered() {
    assert_eq!(
        centered_rect(50, 20, area(80, 20)),
        Rect { x: 20, y: 8, width: 40, height: 4 }
    );
    assert_eq!(
        centering(70),
        [Share::Percentage(15), Share::Percentage(70), Share::Percentage(15)]
    );
    let mut app = browsing(vec![file("f", 1)]);
    app.view = View::Help;
    let popup = lay_out(&mut app, area(80, 20)).popup.unwrap();
    assert_eq!((popup.x, popup.width, popup.height), (20, 40, 14));
}

#[test]
fn laying_out_scrolls_to_the_selection() {
    let mut app = browsing((0..100).map(|i| file(&format!("f{}", i), i)).collect());
    app.selected_index = 50;
    let screen = lay_out(&mut app, area(80, 15));
    assert_eq!(screen.parts[1].height, 10);
    assert_eq!(app.scroll_offset, 41);
    assert_eq!(visible_rows(&app, 10), 10);
    app.scroll_offset = 95;
    assert_eq!(visible_rows(&app, 10), 5);
    app.scroll_offset = 200;
    assert_eq!(visible_rows(&app, 10), 0);
}

#[test]
fn the_scanning_screen() {
    let mut app = App::new();
    app.scan_progress.files_count = 1234;
    app.scan_progress.total_size = 1536;
    app.scan_progress.stat_threads = 4;
    app.scan_progress.entries_per_sec = 1000;
    app.scan_progress.current_path = "/some/where/that/is/far/too/long".to_string();
    app.scan_progress.elapsed.ticks = 13;
    let (_, canvas) = picture(&mut app, 40, 12);
    match &canvas.widgets[0] {
        Widget::Frame { title, color, .. } => {
            assert_eq!(title, " fdu - Scanning... ");
            assert_eq!(*color, Color::Cyan);
        }
        _ => panic!(),
    }
    match &canvas.widgets[1] {
        Widget::Text { area, page } => {
            assert_eq!(*area, Rect { x: 1, y: 1, width: 38, height: 10 });
            assert_eq!(
                texts(page),
                [
                    "",
                    "  ⠸ Files: 1,234  Dirs: 0  Errors: 0",
                    "    Size: 1.50 KiB  Time: 0.0s  Rate: 1,000/s",
                    "    Dirs queued: 0",
                    "",
                    "    Stat threads: ▮▮▮▮ 4",
                    "",
                    "    Scanning: ...hat/is/far/too/long",
                ]
            );
        }
        _ => panic!(),
    }
}

#[test]
fn paths_that_cannot_be_cut_are_not_drawn() {
    let mut app = App::new();
    app.scan_progress.current_path = "é".repeat(30);
    let screen = lay_out(&mut app, area(41, 12));
    assert!(is_drawable(&app, &screen));
    let odd = lay_out(&mut app, area(40, 12));
    assert!(!is_drawable(&app, &odd));
    assert!(draw(&app, &odd, &fills(0)).is_none());
}

#[test]
fn the_browser_screen() {
    let mut app = browsing(vec![
        dir("sub", vec![file("x", 2048)]),
        file("a.TXT", 1024),
        file("b.txt", 512),
        file("noext", 10),
    ]);
    let (screen, canvas) = picture(&mut app, 80, 24);
    assert_eq!(canvas.widgets.len(), 4);
    match (&canvas.widgets[0], &canvas.widgets[1]) {
        (Widget::Frame { title, area, .. }, Widget::Text { page, .. }) => {
            assert_eq!(title, " /r ");
            assert_eq!(*area, screen.parts[0]);
            assert_eq!(
                texts(page),
                [
                    "  Total: 3.51 KiB  Files: 1,234  Dirs: 56  Sort: size↓",
                    "  .txt: 2×1.50 KiB  (no ext): 1×10 B",
                ]
            );
        }
        _ => panic!(),
    }
    match &canvas.widgets[2] {
        Widget::List { page, area } => {
            assert_eq!(*area, screen.parts[1]);
            assert_eq!(
                texts(page),
                [
                    "       2 KiB [####            ] sub/",
                    "       1 KiB [####            ] a.TXT",
                    "       512 B [####            ] b.txt",
                    "        10 B [####            ] noext",
                ]
            );
        }
        _ => panic!(),
    }
    match &canvas.widgets[3] {
        Widget::Text { page, area } => {
            assert_eq!(*area, screen.parts[2]);
            assert_eq!(
                texts(page),
                [" ↑↓/jk:nav  →/enter:open  ←/bs:back  s:sort  g:bars  d:del  ?:help  q:quit  1/4 "]
            );
        }
        _ => panic!(),
    }
}

#[test]
fn render_paints_what_draw_paints() {
    let mut app = browsing(vec![file("f", 7)]);
    let screen = lay_out(&mut app, area(60, 20));
    assert!(is_drawable(&app, &screen));
    let a = format!("{:?}", render(&app, &screen, &fills(1)));
    let b = format!("{:?}", draw(&app, &screen, &fills(1)).unwrap());
    assert_eq!(a, b);
}

#[test]
fn the_header_follows_the_way() {
    let mut app = browsing(vec![dir("sub", vec![dir("deep", vec![])])]);
    app.breadcrumbs = vec![0, 0];
    app.scanning = true;
    app.scan_progress.entries_per_sec = 2500;
    app.scan_progress.stat_threads = 16;
    let (_, canvas) = picture(&mut app, 80, 24);
    match (&canvas.widgets[0], &canvas.widgets[1]) {
        (Widget::Frame { title, .. }, Widget::Text { page, .. }) => {
            assert_eq!(title, " /r/sub/deep ");
            assert_eq!(
                texts(page)[0],
                "  Total: 0 B  Files: 1,234  Dirs: 56  Sort: size↓  ⠋ scanning 2,500/s 16t "
            );
        }
        _ => panic!(),
    }
    app.breadcrumbs = vec![7, 0];
    let (_, canvas) = picture(&mut app, 80, 24);
    match &canvas.widgets[0] {
        Widget::Frame { title, .. } => assert_eq!(title, " /r/sub "),
        _ => panic!(),
    }
}

#[test]
fn without_a_tree_the_header_is_empty() {
    let mut app = App::new();
    app.view = View::Browser;
    app.scanning = false;
    let (_, canvas) = picture(&mut app, 80, 24);
    assert_eq!(canvas.widgets.len(), 3);
    match (&canvas.widgets[0], &canvas.widgets[1]) {
        (Widget::Frame { title, .. }, Widget::Text { page, .. }) => {
            assert_eq!(title, " / ");
            assert_eq!(texts(page), ["  Total: 0 B  Files: 0  Dirs: 0  Sort: size↓", "  "]);
        }
        _ => panic!(),
    }
}

#[test]
fn a_header_with_given_texts() {
    let app = browsing(vec![]);
    let mut canvas = Canvas::new();
    let kinds = vec![
        KindText { ext: ".rs".to_string(), count: 1500, size: "A".to_string() },
        KindText { ext: ".md".to_string(), count: 2, size: "B".to_string() },
    ];
    draw_header(&mut canvas, &app, area(80, 4), "S", &kinds, 3);
    match &canvas.widgets[1] {
        Widget::Text { page, .. } => {
            assert_eq!(texts(page)[0], "  Total: S  Files: 1,234  Dirs: 56  Sort: size↓");
            assert_eq!(texts(page)[1], "  .rs: 1,500×A  .md: 2×B  +3 more");
        }
        _ => panic!(),
    }
}

#[test]
fn the_header_names_six_kinds() {
    let children = (0..9).map(|i| file(&format!("f.e{}", i), 100 - i)).collect();
    let mut app = browsing(children);
    let (_, canvas) = picture(&mut app, 200, 24);
    match &canvas.widgets[1] {
        Widget::Text { page, .. } => assert_eq!(
            texts(page)[1],
            "  .e0: 1×100 B  .e1: 1×99 B  .e2: 1×98 B  .e3: 1×97 B  .e4: 1×96 B  .e5: 1×95 B  +3 more"
        ),
        _ => panic!(),
    }
}

#[test]
fn entries_have_their_styles() {
    let d = dir("d", vec![]);
    let pending = render_entry(&d, "0 B", 0, true, false, true);
    assert_eq!(text(&pending), "     pending [                ] d/");
    assert_eq!(pending.spans[0].style.fg, Some(Color::DarkGray));
    assert_eq!(
        pending.spans[2].style,
        Style { fg: Some(Color::Blue), bg: None, bold: true }
    );
    let scanned = render_entry(&d, "0 B", 16, true, true, false);
    assert_eq!(text(&scanned), "         0 B [################] d/");
    assert_eq!(
        scanned.spans[0].style,
        Style { fg: Some(Color::White), bg: Some(Color::DarkGray), bold: true }
    );
    assert_eq!(
        scanned.spans[1].style,
        Style { fg: Some(Color::Green), bg: Some(Color::DarkGray), bold: true }
    );
    let plain = render_entry(&file("f", 1 << 20), "1 MiB", 3, false, false, true);
    assert_eq!(text(&plain), "       1 MiB f");
    assert_eq!(plain.spans.len(), 2);
    assert_eq!(plain.spans[1].style, Style { fg: None, bg: None, bold: false });
}

#[test]
fn long_sizes_are_not_cut() {
    let line = render_entry(&file("f", 1), "12345678901", 0, false, false, false);
    assert_eq!(text(&line), "  12345678901 f");
}

#[test]
fn the_panel_of_the_workers() {
    let slots = vec![String::new(), "/a/b".to_string(), String::new(), "/c".to_string()];
    let busy = busy_threads(&slots);
    assert_eq!(busy.len(), 2);
    assert_eq!((busy[0].index, busy[0].path.as_str()), (1, "/a/b"));
    let mut canvas = Canvas::new();
    render_thread_panel(&mut canvas, &Some(slots), area(20, 8), 5);
    match (&canvas.widgets[0], &canvas.widgets[1]) {
        (Widget::Frame { title, color, .. }, Widget::Text { page, .. }) => {
            assert_eq!(title, " Thread Activity — 2/4 active (space to hide) ");
            assert_eq!(*color, Color::Green);
            assert_eq!(
                texts(page),
                [" █████░░░░░░░░░░░", "", "   1 ▮ /a/b", "   3 ▮ /c"]
            );
        }
        _ => panic!(),
    }
}

#[test]
fn the_panel_tells_of_hidden_workers() {
    let slots: Vec<String> = (0..9).map(|i| format!("/p{}", i)).collect();
    let mut canvas = Canvas::new();
    render_thread_panel(&mut canvas, &Some(slots), area(30, 6), 28);
    match &canvas.widgets[1] {
        Widget::Text { page, .. } => {
            assert_eq!(page.lines.len(), 4);
            assert_eq!(texts(page)[2], "   0 ▮ /p0");
            assert_eq!(texts(page)[3], "      ... and 7 more active threads");
        }
        _ => panic!(),
    }
}

#[test]
fn the_panel_of_idle_workers() {
    let mut canvas = Canvas::new();
    render_thread_panel(&mut canvas, &Some(vec![String::new()]), area(3, 4), 0);
    match &canvas.widgets[1] {
        Widget::Text { page, .. } => {
            assert_eq!(texts(page), ["  All threads idle (between stat batches)"])
        }
        _ => panic!(),
    }
    let mut canvas = Canvas::new();
    render_thread_panel(&mut canvas, &Some(vec![]), area(20, 2), 0);
    assert_eq!(canvas.widgets.len(), 1);
    let mut canvas = Canvas::new();
    render_thread_panel(&mut canvas, &None, area(20, 9), 0);
    assert!(canvas.widgets.is_empty());
    assert!(is_panel_fitting(&None, area(20, 9)));
    assert!(is_panel_fitting(&Some(vec!["é".repeat(20)]), area(21, 9)));
    assert!(!is_panel_fitting(&Some(vec!["é".repeat(20)]), area(22, 9)));
}

#[test]
fn the_panel_is_part_of_the_browser() {
    let mut app = browsing(vec![file("f", 1)]);
    app.scanning = true;
    app.show_threads = true;
    app.thread_activities = Some(vec!["/x".to_string()]);
    let (screen, canvas) = picture(&mut app, 80, 24);
    assert_eq!(canvas.widgets.len(), 6);
    match &canvas.widgets[2] {
        Widget::Frame { area, .. } => assert_eq!(*area, screen.parts[1]),
        _ => panic!(),
    }
}

#[test]
fn the_footer_tells_the_place() {
    let foot = |app: &mut App| {
        let (_, canvas) = picture(app, 100, 24);
        match canvas.widgets.last().unwrap() {
            Widget::Text { page, .. } => texts(page)[0].clone(),
            _ => panic!(),
        }
    };
    let mut app = browsing(vec![file("f", 1), file("g", 1)]);
    app.selected_index = 1;
    assert!(foot(&mut app).ends_with("q:quit  2/2 "));
    app.tree.as_mut().unwrap().root.child_count = 12_345;
    assert!(foot(&mut app).ends_with("q:quit  e:expand  2/2 (of 12,345 total) "));
    app.expanding = true;
    app.scanning = true;
    assert!(foot(&mut app).ends_with("q:quit  space:threads  expanding... "));
    let mut empty = browsing(vec![]);
    assert!(foot(&mut empty).ends_with("q:quit  empty "));
}

#[test]
fn the_help_covers_the_browser() {
    let mut app = browsing(vec![]);
    app.view = View::Help;
    let (screen, canvas) = picture(&mut app, 80, 24);
    let n = canvas.widgets.len();
    assert!(matches!(&canvas.widgets[n - 3], Widget::Clear { area } if Some(*area) == screen.popup));
    match &canvas.widgets[n - 1] {
        Widget::Text { page, .. } => {
            assert_eq!(page.lines.len(), 13);
            assert_eq!(texts(page)[1], "  ↑/k         Move up");
            assert_eq!(texts(page)[4], "  ←/Backspace/h Go back");
            assert_eq!(texts(page)[12], "  q           Quit");
        }
        _ => panic!(),
    }
}

#[test]
fn the_question_names_what_is_deleted() {
    let mut app = browsing(vec![dir("d", vec![file("x", 2048)])]);
    app.view = View::DeleteConfirm;
    let (_, canvas) = picture(&mut app, 80, 24);
    match canvas.widgets.last().unwrap() {
        Widget::Text { page, .. } => assert_eq!(
            texts(page),
            ["", "  Delete d/ (2 KiB)?", "", "  Press y to confirm, n/Esc to cancel"]
        ),
        _ => panic!(),
    }
    app.selected_index = 5;
    let mut canvas = Canvas::new();
    draw_delete_confirm(&mut canvas, &app, area(40, 6), "S");
    match &canvas.widgets[2] {
        Widget::Text { page, .. } => assert_eq!(texts(page)[1], "  Delete ?"),
        _ => panic!(),
    }
}

#[test]
fn spinners_and_bars() {
    let signs: String = (0..11).map(spinner).collect();
    assert_eq!(signs, "⠋⠙⠹⠸⠼⠴⠦⠧⠇⠏⠋");
    assert_eq!(render_thread_bar(3, 5), "▮▮▮");
    assert_eq!(render_thread_bar(9, 5), "▮▮▮▮▮");
}

#[test]
fn kinds_of_files() {
    assert_eq!(extension("a.TXT"), ".txt");
    assert_eq!(extension("archive.tar.GZ"), ".gz");
    assert_eq!(extension("Makefile"), "(no ext)");
    assert_eq!(extension(".bashrc"), ".bashrc");
    assert_eq!(extension("x."), ".");
    assert_eq!(extension("x.123456789"), ".123456789");
    assert_eq!(extension("x.1234567890"), "(no ext)");
    assert_eq!(extension("x.ÀÉ"), ".àé");
    assert_eq!(ending("a.TXT").as_deref(), Some("TXT"));
    assert_eq!(ending("x.ééééé"), None);
    assert_eq!(kind(Some("q".to_string())), ".q");
    assert_eq!(kind(None), "(no ext)");
}

#[test]
fn kinds_are_counted_and_ranked() {
    let node = dir(
        "d",
        vec![
            file("a.x", 5),
            dir("sub.y", vec![file("z", 1000)]),
            file("b.y", 20),
            file("c.X", 6),
            file("d", 11),
        ],
    );
    assert!(can_tally(Some(&node)));
    let stats = build_extension_stats(Some(&node));
    let rows: Vec<(&str, usize, u64)> =
        stats.iter().map(|s| (s.ext.as_str(), s.count, s.size)).collect();
    assert_eq!(rows, [(".y", 1, 20), (".x", 2, 11), ("(no ext)", 1, 11)]);
    let total: u64 = stats.iter().map(|s| s.size).sum();
    assert_eq!(total, 42);
    assert!(build_extension_stats(Some(&file("f.x", 1))).is_empty());
    assert!(build_extension_stats(None).is_empty());
}

#[test]
fn kinds_that_do_not_fit_cannot_be_counted() {
    let mut node = dir("d", vec![file("a.x", u64::MAX)]);
    node.children.push(file("b.y", 1));
    assert!(can_tally(Some(&node)));
    node.children.push(file("c.x", 1));
    assert!(!can_tally(Some(&node)));
}

#[test]
fn ranks_the_larger_first() {
    let stat = |ext: &str, size| ExtStat { ext: ext.to_string(), count: 1, size };
    let ranked = rank(vec![stat("a", 1), stat("b", 3), stat("c", 3), stat("d", 2)]);
    let order: Vec<&str> = ranked.iter().map(|s| s.ext.as_str()).collect();
    assert_eq!(order, ["b", "c", "d", "a"]);
}

/// The column or row nearest to some hundredths of an extent behind a start.
fn edge(start: u16, extent: u16, part: u32) -> u32 {
    (100 * start as u32 + part * extent as u32 + 50) / 100
}

#[test]
fn popups_are_centered_in_areas_of_any_size() {
    let mut extents: Vec<u16> = (0..40).collect();
    extents.extend([79, 80, 81, 133, 200, 255, 999, 12_345, 40_000, 65_000]);
    for (n, &extent) in extents.iter().enumerate() {
        for percent in [0, 1, 20, 33, 50, 69, 70, 99, 100] {
            let (x, y) = ((n as u16 * 7) % 31, (n as u16 * 3) % 17);
            let area = Rect { x, y, width: extent, height: extents[extents.len() - 1 - n] };
            let popup = centered_rect(percent, 100 - percent, area);
            let left = (100 - percent as u32) / 2;
            let above = percent as u32 / 2;
            let right = edge(x, area.width, left + percent as u32);
            let below = edge(y, area.height, above + 100 - percent as u32);
            assert_eq!(popup.x as u32, edge(x, area.width, left));
            assert_eq!(popup.x as u32 + popup.width as u32, right);
            assert_eq!(popup.y as u32, edge(y, area.height, above));
            assert_eq!(popup.y as u32 + popup.height as u32, below);
        }
    }
}

#[test]
fn popups_end_on_the_screen() {
    let area = Rect { x: 65_435, y: 65_515, width: 400, height: 900 };
    let expected = Rect { x: 65_460, y: 65_523, width: 50, height: 4 };
    assert_eq!(centered_rect(50, 20, area), expected);
}

#[test]
fn the_browser_has_its_rows_on_screens_of_any_height() {
    let mut heights: Vec<u16> = (5..60).collect();
    heights.extend([99, 100, 101, 1000, 4321, 30_001, 65_000]);
    for (n, &rows) in heights.iter().enumerate() {
        for turn in 0..4u16 {
            let y = turn * 11;
            let area = Rect { x: turn, y, width: 80 + n as u16, height: rows };
            let mut app = browsing(vec![file("f", 1)]);
            if rows >= 6 {
                let parts = lay_out(&mut app, area).parts;
                let places: Vec<(u16, u16)> = parts.iter().map(|p| (p.y, p.height)).collect();
                assert_eq!(places, [(y, 4), (y + 4, rows - 5), (y + rows - 1, 1)]);
            }
            app.scanning = true;
            app.show_threads = true;
            let parts = lay_out(&mut app, area).parts;
            let places: Vec<(u16, u16)> = parts.iter().map(|p| (p.y, p.height)).collect();
            let panel = if rows >= 10 { (rows + 1) / 2 } else { rows - 5 };
            assert_eq!(
                places,
                [
                    (y, 3),
                    (y + 3, panel),
                    (y + 3 + panel, rows - 4 - panel),
                    (y + rows - 1, 1),
                ]
            );
            assert!(parts.iter().all(|p| p.x == area.x && p.width == area.width));
        }
    }
}

/// Whether the parts follow one another and cover an area.
fn cover(parts: &[Rect], area: Rect) -> bool {
    let mut next = area.y;
    for p in parts {
        if p.y != next {
            return false;
        }
        next += p.height;
    }
    next == area.y + area.height
}

#[test]
fn parts_cover_screens_of_any_height() {
    for rows in 0..80 {
        for turn in 0..5u16 {
            let area = Rect { x: turn, y: 13 * turn, width: 90, height: rows };
            let mut app = browsing(vec![file("f", 1)]);
            assert!(cover(&lay_out(&mut app, area).parts, area));
            app.scanning = true;
            app.show_threads = true;
            assert!(cover(&lay_out(&mut app, area).parts, area));
        }
    }
}

#[test]
fn low_screens_are_divided_too() {
    for rows in 0..6 {
        let mut app = browsing(vec![file("f", 1)]);
        app.view = View::Help;
        let screen = lay_out(&mut app, area(80, rows));
        assert_eq!(screen.parts.len(), 3);
        assert!(screen.parts.iter().all(|p| p.y + p.height <= rows && p.width == 80));
        assert!(rows == 0 || screen.parts[1].height == 1);
        assert_eq!(screen.popup.unwrap().width, 40);
        app.scanning = true;
        app.show_threads = true;
        let parts = lay_out(&mut app, area(80, rows)).parts;
        assert!(rows == 0 || parts[2].height == 1);
    }
}
