use fdu::app::App;
use fdu::cache::{cache_dir, cache_path_for, load_cache, CacheError, Kept, Verdict};
use fdu::node::{FileNode, Timestamp};
use fdu::profile::{
    count_tree_nodes, drain, event_name, is_freeze, merge, progress_line_due, summarize,
    summary_due, FrameKind, FrameTime, Frames, Merge,
};
use fdu::scanner::{Elapsed, ScanMessage};
use fdu::tree::FileTree;

fn tree(files: u64) -> FileTree {
    let mut root = FileNode::new_dir("r".to_string(), None);
    let mut inner = FileNode::new_dir("d".to_string(), None);
    inner.children.push(FileNode::new_file("f".to_string(), 1, None));
    root.children.push(inner);
    FileTree {
        root_path: "/r".to_string(),
        root,
        total_files: files,
        total_dirs: 1,
        total_errors: 0,
        scan_time: Timestamp { secs: 50, nanos: 5 },
        complete: true,
    }
}

fn elapsed() -> Elapsed {
    Elapsed { whole_secs: 0, ticks: 0, decimal: "0.0".to_string() }
}

fn progress(files: u64) -> ScanMessage {
    ScanMessage::Progress {
        tree: tree(files),
        current_path: String::new(),
        elapsed: elapsed(),
        entries_per_sec: 0,
        stat_threads: 0,
        dirs_queued: 0,
    }
}

fn counting(files: u64) -> ScanMessage {
    ScanMessage::Counting {
        files_count: files,
        dirs_count: 0,
        current_path: String::new(),
        elapsed: elapsed(),
        entries_per_sec: 0,
    }
}

#[test]
fn kept_trees_have_their_file() {
    let base = || Some("/home/u/.cache".to_string());
    assert_eq!(cache_dir(base()).unwrap(), "/home/u/.cache/fdu");
    assert_eq!(
        cache_path_for(base(), 0xabc).unwrap(),
        "/home/u/.cache/fdu/0000000000000abc.bin"
    );
    assert_ne!(cache_path_for(base(), 1).unwrap(), cache_path_for(base(), 2).unwrap());
    assert_eq!(cache_path_for(None, 1), Err(CacheError::NoCacheDirectory));
    assert_eq!(
        cache_dir(None).unwrap_err().message(),
        "Could not determine cache directory"
    );
}

#[test]
fn kept_trees_are_used_until_the_directory_changes() {
    assert!(matches!(load_cache(Kept::Nothing, None), Verdict::Missing));
    assert!(matches!(load_cache(Kept::Corrupt, None), Verdict::Discard));
    match load_cache(Kept::Tree(tree(3)), None) {
        Verdict::Use(t) => assert_eq!(t.total_files, 3),
        _ => panic!(),
    }
    let at = |secs, nanos| Some(Timestamp { secs, nanos });
    assert!(matches!(load_cache(Kept::Tree(tree(3)), at(50, 5)), Verdict::Use(_)));
    assert!(matches!(load_cache(Kept::Tree(tree(3)), at(50, 6)), Verdict::Missing));
    assert!(matches!(load_cache(Kept::Tree(tree(3)), at(49, 9)), Verdict::Use(_)));
    assert!(matches!(load_cache(Kept::Tree(tree(3)), at(51, 0)), Verdict::Missing));
}

#[test]
fn counts_nodes() {
    assert_eq!(count_tree_nodes(&tree(0).root), Some(3));
    assert_eq!(count_tree_nodes(&FileNode::new_dir("d".to_string(), None)), Some(1));
}

#[test]
fn merges_reports() {
    let (p, c, e) = (progress(1), counting(1), ScanMessage::Error(String::new()));
    assert_eq!(merge(&p, &p), Merge::Replace);
    assert_eq!(merge(&c, &c), Merge::Replace);
    assert_eq!(merge(&c, &p), Merge::Replace);
    assert_eq!(merge(&p, &c), Merge::Keep);
    assert_eq!(merge(&p, &e), Merge::Handle);
    assert_eq!(merge(&e, &c), Merge::Handle);
}

#[test]
fn drops_only_reports() {
    let mut app = App::new();
    let latest = drain(
        &mut app,
        counting(1),
        vec![
            progress(2),
            counting(3),
            ScanMessage::ExpandResult { breadcrumbs: vec![], children: vec![] },
            ScanMessage::Complete(tree(4)),
            counting(5),
            counting(6),
        ],
    );
    assert_eq!(event_name(&latest), "counting");
    assert!(matches!(latest, ScanMessage::Counting { files_count: 6, .. }));
    assert!(!app.scanning);
    assert_eq!(app.tree.as_ref().unwrap().total_files, 4);
    assert_eq!(app.scan_progress.files_count, 2);
    let latest = drain(&mut app, counting(9), vec![]);
    assert!(matches!(latest, ScanMessage::Counting { files_count: 9, .. }));
}

#[test]
fn names_the_messages() {
    assert_eq!(event_name(&progress(0)), "progress");
    assert_eq!(event_name(&ScanMessage::Complete(tree(0))), "complete");
    assert_eq!(event_name(&ScanMessage::Error(String::new())), "error");
    let expand = ScanMessage::ExpandResult { breadcrumbs: vec![], children: vec![] };
    assert_eq!(event_name(&expand), "expand");
    let going = ScanMessage::DeleteProgress { bytes_deleted: 0, files_deleted: 0, dirs_deleted: 0 };
    assert_eq!(event_name(&going), "del_prog");
    let done = ScanMessage::DeleteComplete {
        bytes_deleted: 0,
        files_deleted: 0,
        dirs_deleted: 0,
        error: None,
    };
    assert_eq!(event_name(&done), "del_done");
    assert_eq!(FrameKind::of_message(&done), FrameKind::Other);
    assert_eq!(FrameKind::of_message(&progress(0)), FrameKind::Progress);
    assert_eq!(FrameKind::of_message(&counting(0)), FrameKind::Counting);
}

#[test]
fn sums_frames_up() {
    let mut frames = Frames::new();
    assert!(!frames.record(16_000, FrameKind::Progress));
    assert!(frames.record(16_001, FrameKind::Progress));
    assert!(!frames.record(7, FrameKind::Counting));
    assert_eq!((frames.frame_count, frames.slow_frames, frames.max_frame_us), (3, 1, 16_001));
    let p = summarize(&frames.times, FrameKind::Progress).unwrap();
    assert_eq!((p.count, p.average_us, p.longest_us), (2, 16_000, 16_001));
    let o = summarize(&frames.times, FrameKind::Other).unwrap();
    assert_eq!((o.count, o.average_us, o.longest_us), (0, 0, 0));
    frames.reset();
    assert_eq!((frames.frame_count, frames.slow_frames, frames.max_frame_us), (3, 0, 0));
    assert!(frames.times.is_empty());
    let much = FrameTime { us: u128::MAX, kind: FrameKind::Other };
    assert!(summarize(&vec![much, much], FrameKind::Other).is_none());
}

#[test]
fn knows_when_to_speak() {
    assert!(is_freeze(1, false) && !is_freeze(1, true) && !is_freeze(0, false));
    assert!(summary_due(5) && !summary_due(4));
    assert!(progress_line_due(201) && !progress_line_due(200));
}

#[test]
fn messages_can_be_copied() {
    let messages = [
        progress(3),
        counting(4),
        ScanMessage::Complete(tree(5)),
        ScanMessage::Error("e".to_string()),
        ScanMessage::ExpandResult { breadcrumbs: vec![1, 2], children: tree(0).root.children },
        ScanMessage::DeleteProgress { bytes_deleted: 1, files_deleted: 2, dirs_deleted: 3 },
        ScanMessage::DeleteComplete {
            bytes_deleted: 1,
            files_deleted: 2,
            dirs_deleted: 3,
            error: Some("x".to_string()),
        },
    ];
    for m in messages {
        assert_eq!(format!("{:?}", m.clone()), format!("{:?}", m));
    }
    let p = App::new().scan_progress;
    assert_eq!(format!("{:?}", p.clone()), format!("{:?}", p));
}
