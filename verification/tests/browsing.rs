use fdu::app::{App, ScanProgress};
use fdu::node::{FileNode, Timestamp};
use fdu::scanner::{format_elapsed, new_thread_activities, Elapsed, ScanMessage};
use fdu::screen::{SortOrder, View};
use fdu::tree::FileTree;

fn file(name: &str, size: u64) -> FileNode {
    FileNode::new_file(name.to_string(), size, None)
}

fn dir(name: &str, children: Vec<FileNode>) -> FileNode {
    let mut d = FileNode::new_dir(name.to_string(), None);
    d.size = children.iter().map(|c| c.size).sum();
    d.child_count = children.len();
    d.children = children;
    d
}

fn tree(children: Vec<FileNode>) -> FileTree {
    FileTree {
        root_path: "/r".to_string(),
        root: dir("r", children),
        total_files: 9,
        total_dirs: 4,
        total_errors: 1,
        scan_time: Timestamp { secs: 0, nanos: 0 },
        complete: false,
    }
}

fn elapsed(secs: u64) -> Elapsed {
    Elapsed { whole_secs: secs, ticks: 0, decimal: format!("{}.0", secs) }
}

fn progress(t: FileTree) -> ScanMessage {
    ScanMessage::Progress {
        tree: t,
        current_path: "/r/x".to_string(),
        elapsed: elapsed(3),
        entries_per_sec: 12,
        stat_threads: 8,
        dirs_queued: 2,
    }
}

fn browsing(children: Vec<FileNode>) -> App {
    let mut app = App::new();
    app.handle_scan_message(progress(tree(children)));
    app
}

fn several() -> Vec<FileNode> {
    vec![
        dir("a", vec![file("x", 1), dir("b", vec![file("y", 2)])]),
        file("f", 5),
        file("g", 4),
    ]
}

#[test]
fn starts_scanning() {
    let app = App::new();
    assert_eq!(app.view, View::Scanning);
    assert_eq!(app.sort_order, SortOrder::SizeDesc);
    assert!(app.scanning && app.show_bars && !app.should_quit && !app.show_threads);
    assert!(app.tree.is_none() && app.breadcrumbs.is_empty());
    assert_eq!(app.child_count(), 0);
    assert!(app.current_node().is_none());
    assert!(app.current_dir_path().is_none());
    let p = ScanProgress::default();
    assert_eq!((p.files_count, p.total_size, p.dirs_queued), (0, 0, 0));
    assert_eq!(p.elapsed.decimal, "0.0");
}

#[test]
fn the_first_tree_opens_the_browser() {
    let app = browsing(several());
    assert_eq!(app.view, View::Browser);
    let p = &app.scan_progress;
    assert_eq!((p.files_count, p.dirs_count, p.total_size, p.errors_count), (9, 4, 12, 1));
    assert_eq!(p.current_path, "/r/x");
    assert_eq!((p.entries_per_sec, p.stat_threads, p.dirs_queued), (12, 8, 2));
    assert_eq!(app.child_count(), 3);
}

#[test]
fn counters_open_the_browser_only_with_a_tree() {
    let counting = || ScanMessage::Counting {
        files_count: 7,
        dirs_count: 6,
        current_path: "/p".to_string(),
        elapsed: elapsed(1),
        entries_per_sec: 5,
    };
    let mut app = App::new();
    app.handle_scan_message(counting());
    assert_eq!(app.view, View::Scanning);
    assert_eq!((app.scan_progress.files_count, app.scan_progress.dirs_count), (7, 6));
    app.tree = Some(tree(several()));
    app.handle_scan_message(counting());
    assert_eq!(app.view, View::Browser);
}

#[test]
fn going_up_undoes_opening() {
    let mut app = browsing(several());
    app.enter_directory();
    assert_eq!(app.breadcrumbs, [0]);
    assert_eq!(app.current_node().unwrap().name, "a");
    assert_eq!(app.current_dir_path().unwrap(), "/r/a");
    app.select_next();
    app.enter_directory();
    assert_eq!(app.current_dir_path().unwrap(), "/r/a/b");
    assert_eq!(app.selected_index, 0);
    app.go_up();
    assert_eq!((app.selected_index, app.breadcrumbs.len()), (1, 1));
    app.go_up();
    assert_eq!((app.selected_index, app.breadcrumbs.len()), (0, 0));
    app.go_up();
    assert_eq!((app.selected_index, app.breadcrumbs.len()), (0, 0));
}

#[test]
fn files_are_not_opened() {
    let mut app = browsing(several());
    app.select_next();
    app.enter_directory();
    assert!(app.breadcrumbs.is_empty());
    app.selected_index = 10;
    app.enter_directory();
    assert!(app.breadcrumbs.is_empty());
}

#[test]
fn the_selection_stops_at_the_ends() {
    let mut app = browsing(several());
    app.select_previous();
    assert_eq!(app.selected_index, 0);
    for _ in 0..5 {
        app.select_next();
    }
    assert_eq!(app.selected_index, 2);
    app.page_up(20);
    assert_eq!(app.selected_index, 0);
    app.page_down(1);
    assert_eq!(app.selected_index, 1);
    app.page_down(20);
    assert_eq!(app.selected_index, 2);
    app.select_first();
    assert_eq!((app.selected_index, app.scroll_offset), (0, 0));
    app.select_last();
    assert_eq!(app.selected_index, 2);
}

#[test]
fn nothing_moves_in_an_empty_directory() {
    let mut app = browsing(vec![]);
    app.select_next();
    app.select_last();
    app.page_down(20);
    assert_eq!(app.selected_index, 0);
}

#[test]
fn steps_up_undo_steps_down() {
    let mut app = browsing(several());
    app.select_next();
    app.select_previous();
    assert_eq!((app.selected_index, app.scroll_offset), (0, 0));
}

#[test]
fn the_selection_is_scrolled_into_view() {
    let mut app = browsing((0..50).map(|i| file(&format!("f{}", i), i)).collect());
    app.selected_index = 30;
    app.ensure_visible_with_height(10);
    assert_eq!(app.scroll_offset, 21);
    app.ensure_visible_with_height(10);
    assert_eq!(app.scroll_offset, 21);
    app.selected_index = 5;
    app.ensure_visible_with_height(10);
    assert_eq!(app.scroll_offset, 5);
    app.selected_index = 40;
    app.ensure_visible_with_height(0);
    assert_eq!(app.scroll_offset, 5);
}

#[test]
fn orders_follow_each_other() {
    let mut app = browsing(several());
    app.select_next();
    let mut seen = Vec::new();
    for _ in 0..4 {
        app.cycle_sort();
        seen.push(app.sort_order);
    }
    assert_eq!(
        seen,
        [SortOrder::SizeAsc, SortOrder::NameAsc, SortOrder::NameDesc, SortOrder::SizeDesc]
    );
    assert_eq!((app.selected_index, app.scroll_offset), (0, 0));
    app.sort_by_name();
    assert_eq!(app.sort_order, SortOrder::NameAsc);
    app.sort_by_name();
    assert_eq!(app.sort_order, SortOrder::NameDesc);
    assert_eq!(app.current_node().unwrap().children[0].name, "g");
}

#[test]
fn only_the_directory_shown_is_ordered() {
    let mut app = browsing(several());
    app.enter_directory();
    app.sort_by_name();
    let inner: Vec<&str> =
        app.current_node().unwrap().children.iter().map(|c| c.name.as_str()).collect();
    assert_eq!(inner, ["b", "x"]);
    let outer: Vec<&str> =
        app.tree.as_ref().unwrap().root.children.iter().map(|c| c.name.as_str()).collect();
    assert_eq!(outer, ["a", "f", "g"]);
}

#[test]
fn a_new_tree_cuts_the_way_back() {
    let mut app = browsing(several());
    app.breadcrumbs = vec![0, 1, 0];
    app.selected_index = 7;
    app.handle_scan_message(progress(tree(vec![dir("a", vec![file("x", 1)])])));
    assert_eq!(app.breadcrumbs, [0]);
    assert_eq!(app.selected_index, 0);
}

#[test]
fn a_new_tree_keeps_a_way_that_it_has() {
    let mut app = browsing(several());
    app.breadcrumbs = vec![0];
    app.selected_index = 5;
    app.handle_scan_message(progress(tree(several())));
    assert_eq!(app.breadcrumbs, [0]);
    assert_eq!(app.selected_index, 1);
}

#[test]
fn the_complete_tree_ends_the_scan() {
    let mut app = browsing(several());
    app.view = View::Help;
    app.selected_index = 2;
    app.handle_scan_message(ScanMessage::Complete(tree(vec![file("only", 1)])));
    assert!(!app.scanning);
    assert_eq!(app.view, View::Browser);
    assert_eq!(app.selected_index, 0);
}

#[test]
fn a_way_that_leads_nowhere_shows_the_root() {
    let mut app = browsing(several());
    app.breadcrumbs = vec![2, 2];
    assert_eq!(app.current_node().unwrap().name, "r");
    assert!(app.current_node_mut().is_none());
    assert!(app.current_dir_path().is_none());
}

#[test]
fn expanded_children_take_their_place() {
    let mut app = browsing(several());
    app.breadcrumbs = vec![0];
    app.expanding = true;
    app.selected_index = 1;
    app.tree.as_mut().unwrap().root.children[0].child_count = 50;
    assert!(app.is_aggregated());
    app.handle_scan_message(ScanMessage::ExpandResult {
        breadcrumbs: vec![0],
        children: vec![file("all", 9)],
    });
    assert!(!app.expanding && !app.is_aggregated());
    assert_eq!(app.current_node().unwrap().children[0].name, "all");
    assert_eq!(app.selected_index, 0);
    app.handle_scan_message(ScanMessage::ExpandResult {
        breadcrumbs: vec![9],
        children: vec![],
    });
    assert_eq!(app.child_count(), 1);
}

#[test]
fn an_error_ends_the_browser() {
    let mut app = App::new();
    app.handle_scan_message(ScanMessage::Error("gone".to_string()));
    assert!(app.should_quit);
    assert_eq!(app.error_message.as_deref(), Some("gone"));
}

#[test]
fn current_node_can_be_changed() {
    let mut app = browsing(several());
    app.breadcrumbs = vec![0, 1];
    app.current_node_mut().unwrap().size = 77;
    assert_eq!(app.current_node().unwrap().size, 77);
    assert_eq!(app.tree.as_ref().unwrap().root.size, 12);
}

#[test]
fn new_workers_are_idle() {
    assert_eq!(new_thread_activities(3), vec![String::new(); 3]);
    assert!(new_thread_activities(0).is_empty());
}

#[test]
fn shows_times() {
    let t = |secs, decimal: &str| {
        format_elapsed(&Elapsed { whole_secs: secs, ticks: 0, decimal: decimal.to_string() })
    };
    assert_eq!(t(0, "0.3"), "0.3s");
    assert_eq!(t(59, "60.0"), "60.0s");
    assert_eq!(t(60, "60.0"), "1m00s");
    assert_eq!(t(125, "125.4"), "2m05s");
    assert_eq!(t(3599, "3599.9"), "59m59s");
}
