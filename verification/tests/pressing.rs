use fdu::app::App;
use fdu::deletion::delete_selected;
use fdu::keys::{build_selected_path, handle_key, start_async_delete, Action, Key, KeyCode};
use fdu::node::{FileNode, Timestamp};
use fdu::scanner::ScanMessage;
use fdu::screen::{SortOrder, View};
use fdu::tree::FileTree;

fn file(name: &str, size: u64) -> FileNode {
    FileNode::new_file(name.to_string(), size, None)
}

fn dir(name: &str, children: Vec<FileNode>) -> FileNode {
    let mut d = FileNode::new_dir(name.to_string(), None);
    d.size = children.iter().map(|c| c.size).sum();
    d.child_count = children.len();
    d.children = children;
    d
}

fn browsing() -> App {
    let mut app = App::new();
    let root = dir(
        "r",
        vec![
            dir("a", vec![file("x", 1), dir("b", vec![file("y", 2), file("z", 6)])]),
            file("f", 5),
        ],
    );
    app.tree = Some(FileTree {
        root_path: "/r".to_string(),
        root,
        total_files: 4,
        total_dirs: 2,
        total_errors: 0,
        scan_time: Timestamp { secs: 0, nanos: 0 },
        complete: true,
    });
    app.view = View::Browser;
    app.scanning = false;
    app
}

fn press(app: &mut App, code: KeyCode) -> Action {
    handle_key(app, Key { code, control: false })
}

fn typed(app: &mut App, text: &str) {
    for c in text.chars() {
        assert!(matches!(press(app, KeyCode::Char(c)), Action::Nothing));
    }
}

#[test]
fn control_c_always_quits() {
    for view in [View::Scanning, View::Browser, View::Help, View::DeleteConfirm] {
        let mut app = browsing();
        app.view = view;
        handle_key(&mut app, Key { code: KeyCode::Char('c'), control: true });
        assert!(app.should_quit);
    }
}

#[test]
fn q_quits_but_closes_the_help_first() {
    let mut app = App::new();
    press(&mut app, KeyCode::Char('x'));
    assert!(!app.should_quit);
    press(&mut app, KeyCode::Char('q'));
    assert!(app.should_quit);
    let mut app = browsing();
    press(&mut app, KeyCode::Char('?'));
    assert_eq!(app.view, View::Help);
    press(&mut app, KeyCode::Char('j'));
    assert_eq!((app.view, app.selected_index), (View::Help, 0));
    press(&mut app, KeyCode::Char('q'));
    assert_eq!(app.view, View::Browser);
    assert!(!app.should_quit);
    press(&mut app, KeyCode::Char('q'));
    assert!(app.should_quit);
}

#[test]
fn arrows_and_letters_move() {
    let mut app = browsing();
    press(&mut app, KeyCode::Down);
    assert_eq!(app.selected_index, 1);
    press(&mut app, KeyCode::Char('k'));
    assert_eq!(app.selected_index, 0);
    press(&mut app, KeyCode::Char('j'));
    press(&mut app, KeyCode::Up);
    assert_eq!(app.selected_index, 0);
    for code in [KeyCode::Right, KeyCode::Enter, KeyCode::Char('l')] {
        press(&mut app, code);
        assert_eq!(app.breadcrumbs, [0]);
        press(&mut app, KeyCode::Backspace);
        assert!(app.breadcrumbs.is_empty());
    }
    press(&mut app, KeyCode::Right);
    press(&mut app, KeyCode::Char('h'));
    assert!(app.breadcrumbs.is_empty());
    press(&mut app, KeyCode::Right);
    press(&mut app, KeyCode::Left);
    assert!(app.breadcrumbs.is_empty());
    press(&mut app, KeyCode::End);
    assert_eq!(app.selected_index, 1);
    press(&mut app, KeyCode::Home);
    assert_eq!(app.selected_index, 0);
    press(&mut app, KeyCode::PageDown);
    assert_eq!(app.selected_index, 1);
    press(&mut app, KeyCode::PageUp);
    assert_eq!(app.selected_index, 0);
    press(&mut app, KeyCode::Other);
    assert_eq!(app.selected_index, 0);
}

#[test]
fn letters_change_what_is_shown() {
    let mut app = browsing();
    press(&mut app, KeyCode::Char('s'));
    assert_eq!(app.sort_order, SortOrder::SizeAsc);
    press(&mut app, KeyCode::Char('n'));
    assert_eq!(app.sort_order, SortOrder::NameAsc);
    press(&mut app, KeyCode::Char('g'));
    assert!(!app.show_bars);
    press(&mut app, KeyCode::Char(' '));
    assert!(!app.show_threads);
    app.scanning = true;
    press(&mut app, KeyCode::Char(' '));
    assert!(app.show_threads);
}

#[test]
fn a_file_is_deleted_with_one_key() {
    let mut app = browsing();
    app.breadcrumbs = vec![0, 1];
    app.selected_index = 1;
    press(&mut app, KeyCode::Char('d'));
    assert_eq!(app.view, View::DeleteConfirm);
    assert_eq!(app.delete_target_name, "z");
    assert!(!app.delete_is_dir);
    press(&mut app, KeyCode::Char('x'));
    assert_eq!(app.view, View::DeleteConfirm);
    match press(&mut app, KeyCode::Char('y')) {
        Action::DeleteFile(path) => assert_eq!(path, "/r/a/b/z"),
        _ => panic!(),
    }
    assert_eq!(app.view, View::Browser);
    delete_selected(&mut app, false);
    assert_eq!(app.child_count(), 2);
    delete_selected(&mut app, true);
    let tree = app.tree.as_ref().unwrap();
    assert_eq!(tree.total_files, 3);
    assert_eq!(tree.root.size, 8);
    assert_eq!(tree.root.children[0].size, 3);
    let b = &tree.root.children[0].children[1];
    assert_eq!((b.size, b.child_count, b.children.len()), (2, 1, 1));
    assert_eq!(tree.root.children[1].size, 5);
    assert_eq!(app.selected_index, 0);
}

#[test]
fn sizes_add_up_after_a_deletion() {
    fn adds_up(n: &FileNode) -> bool {
        !n.is_dir
            || (n.size == n.children.iter().map(|c| c.size).sum::<u64>()
                && n.children.iter().all(adds_up))
    }
    let mut app = browsing();
    app.breadcrumbs = vec![0];
    app.selected_index = 0;
    assert!(adds_up(&app.tree.as_ref().unwrap().root));
    delete_selected(&mut app, true);
    assert!(adds_up(&app.tree.as_ref().unwrap().root));
    assert_eq!(app.tree.as_ref().unwrap().root.size, 13);
}

#[test]
fn deleting_the_last_child_selects_the_first_place() {
    let mut app = browsing();
    app.breadcrumbs = vec![0, 1];
    delete_selected(&mut app, true);
    delete_selected(&mut app, true);
    assert_eq!((app.child_count(), app.selected_index), (0, 0));
    delete_selected(&mut app, true);
    assert_eq!(app.tree.as_ref().unwrap().total_files, 2);
}

#[test]
fn no_keeps_the_file() {
    for code in [KeyCode::Char('n'), KeyCode::Esc] {
        let mut app = browsing();
        app.selected_index = 1;
        press(&mut app, KeyCode::Char('d'));
        assert!(matches!(press(&mut app, code), Action::Nothing));
        assert_eq!(app.view, View::Browser);
    }
}

#[test]
fn a_directory_is_deleted_by_typing_its_name() {
    let mut app = browsing();
    press(&mut app, KeyCode::Char('d'));
    assert!(app.delete_is_dir);
    typed(&mut app, "ax");
    assert!(matches!(press(&mut app, KeyCode::Enter), Action::Nothing));
    assert_eq!(app.view, View::DeleteConfirm);
    press(&mut app, KeyCode::Backspace);
    assert_eq!(app.delete_input, "a");
    match press(&mut app, KeyCode::Enter) {
        Action::DeleteDirectory(path) => assert_eq!(path, "/r/a"),
        _ => panic!(),
    }
    assert_eq!(app.view, View::Browser);
    let d = app.active_deletion.as_ref().unwrap();
    assert_eq!((d.name.as_str(), d.original_size, d.bytes_deleted), ("a", 9, 0));
    assert!(app.show_threads);
    assert_eq!(app.thread_activities, Some(vec![String::new()]));
    assert_eq!((app.delete_breadcrumbs.len(), app.delete_child_index), (0, 0));
    press(&mut app, KeyCode::Char('d'));
    assert_eq!(app.view, View::Browser);
}

#[test]
fn escape_forgets_what_was_typed() {
    let mut app = browsing();
    press(&mut app, KeyCode::Char('d'));
    press(&mut app, KeyCode::Backspace);
    typed(&mut app, "a");
    press(&mut app, KeyCode::Esc);
    assert_eq!((app.view, app.delete_input.as_str()), (View::Browser, ""));
}

#[test]
fn deletion_progress_is_taken_in() {
    let mut app = browsing();
    app.handle_scan_message(ScanMessage::DeleteProgress {
        bytes_deleted: 1,
        files_deleted: 2,
        dirs_deleted: 3,
    });
    assert!(app.active_deletion.is_none());
    assert_eq!(start_async_delete(&mut app).unwrap(), "/r/a");
    app.handle_scan_message(ScanMessage::DeleteProgress {
        bytes_deleted: 1,
        files_deleted: 2,
        dirs_deleted: 3,
    });
    let d = app.active_deletion.as_ref().unwrap();
    assert_eq!((d.bytes_deleted, d.files_deleted, d.dirs_deleted), (1, 2, 3));
    app.handle_scan_message(ScanMessage::DeleteComplete {
        bytes_deleted: 1,
        files_deleted: 2,
        dirs_deleted: 3,
        error: None,
    });
    assert!(app.active_deletion.is_none());
}

#[test]
fn large_directories_are_expanded() {
    let mut app = browsing();
    assert!(matches!(press(&mut app, KeyCode::Char('e')), Action::Nothing));
    app.breadcrumbs = vec![0];
    app.current_node_mut().unwrap().child_count = 99;
    match press(&mut app, KeyCode::Char('e')) {
        Action::Expand { path, breadcrumbs } => {
            assert_eq!(path, "/r/a");
            assert_eq!(breadcrumbs, [0]);
        }
        _ => panic!(),
    }
    assert!(app.expanding);
    assert!(matches!(press(&mut app, KeyCode::Char('e')), Action::Nothing));
}

#[test]
fn the_selected_path_needs_a_selected_child() {
    let mut app = browsing();
    assert_eq!(build_selected_path(&app).unwrap(), "/r/a");
    app.selected_index = 2;
    assert!(build_selected_path(&app).is_none());
    app.selected_index = 0;
    app.breadcrumbs = vec![5];
    assert!(build_selected_path(&app).is_none());
    assert!(start_async_delete(&mut app).is_none());
    assert!(app.active_deletion.is_none());
    app.tree = None;
    assert!(build_selected_path(&app).is_none());
}

#[test]
fn a_child_stays_selected_whatever_is_pressed() {
    let mut app = browsing();
    let keys = [
        KeyCode::Down, KeyCode::End, KeyCode::Char('s'), KeyCode::Right, KeyCode::End,
        KeyCode::Enter, KeyCode::PageDown, KeyCode::Char('n'), KeyCode::Left, KeyCode::Left,
        KeyCode::Left, KeyCode::PageUp, KeyCode::Char('l'), KeyCode::Char('d'), KeyCode::Esc,
    ];
    for code in keys {
        press(&mut app, code);
        let count = app.child_count();
        assert!(count == 0 || app.selected_index < count);
        assert!(app.tree.as_ref().unwrap().node_at(&app.breadcrumbs).is_some());
        assert!(!app.should_quit);
    }
}

#[test]
fn only_sorting_changes_the_tree() {
    let mut app = browsing();
    let before = format!("{:?}", app.tree);
    for code in [KeyCode::Down, KeyCode::Char('g'), KeyCode::Char('?'), KeyCode::Char('?'), KeyCode::Char('d')] {
        press(&mut app, code);
        assert_eq!(format!("{:?}", app.tree), before);
    }
}

#[test]
fn hidden_files_stay_hidden_after_a_deletion() {
    let mut app = browsing();
    app.breadcrumbs = vec![0, 1];
    app.current_node_mut().unwrap().child_count = 7;
    assert!(app.is_aggregated());
    delete_selected(&mut app, true);
    assert!(app.is_aggregated());
    let node = app.current_node().unwrap();
    assert_eq!((node.child_count, node.children.len()), (6, 1));
    delete_selected(&mut app, true);
    assert!(app.is_aggregated());
    let node = app.current_node().unwrap();
    assert_eq!((node.child_count, node.children.len()), (5, 0));
}

#[test]
fn nothing_is_hidden_by_a_deletion() {
    let mut app = browsing();
    assert!(!app.is_aggregated());
    app.selected_index = 1;
    delete_selected(&mut app, true);
    assert!(!app.is_aggregated());
    let node = app.current_node().unwrap();
    assert_eq!((node.child_count, node.children.len()), (1, 1));
}
