use fdu::cli::Cli;
use fdu::expansion::{expand_directory, RawEntry};
use fdu::node::Timestamp;
use fdu::removal::{Listed, Removal, Request};
use fdu::scanner::{ScanMessage, ScanOptions};
use fdu::worker::{
    access_error, device_to_scan, is_plannable, queue_capacity, EntryKind, FileMeta, Frontier, Worker,
    WorkerAction, WorkerEvent,
};

fn meta(device: u64, len: u64) -> Option<FileMeta> {
    Some(FileMeta { device, len, mtime: Some(Timestamp { secs: 1, nanos: 2 }) })
}

fn entry(name: &str, kind: EntryKind) -> WorkerEvent {
    WorkerEvent::Entry { name: name.to_string(), kind }
}

#[test]
fn a_worker_goes_through_a_directory() {
    let mut w = Worker::new(None);
    match w.scan_worker(WorkerEvent::Directory("/d".to_string())) {
        WorkerAction::OpenDirectory(dir) => assert_eq!(dir, "/d"),
        _ => panic!(),
    }
    assert!(matches!(w.scan_worker(WorkerEvent::Opened(true)), WorkerAction::NextEntry));
    assert!(matches!(w.scan_worker(entry("l", EntryKind::Symlink)), WorkerAction::NextEntry));
    assert!(matches!(w.scan_worker(entry("u", EntryKind::Unknown)), WorkerAction::NextEntry));
    match w.scan_worker(entry("f", EntryKind::File)) {
        WorkerAction::Inspect { path, queue } => {
            assert_eq!(path, "/d/f");
            assert!(!queue);
        }
        _ => panic!(),
    }
    match w.scan_worker(WorkerEvent::Metadata(meta(9, 77))) {
        WorkerAction::Report(e) => {
            assert_eq!((e.parent.as_str(), e.name.as_str(), e.is_dir, e.size), ("/d", "f", false, 77));
            assert_eq!(e.mtime, Some(Timestamp { secs: 1, nanos: 2 }));
        }
        _ => panic!(),
    }
    assert!(matches!(w.scan_worker(WorkerEvent::Reported(true)), WorkerAction::NextEntry));
    match w.scan_worker(entry("s", EntryKind::Directory)) {
        WorkerAction::Inspect { path, queue } => {
            assert_eq!(path, "/d/s");
            assert!(queue);
        }
        _ => panic!(),
    }
    match w.scan_worker(WorkerEvent::Metadata(meta(9, 4096))) {
        WorkerAction::Report(e) => assert!(e.is_dir && e.size == 0),
        _ => panic!(),
    }
    assert!(matches!(w.scan_worker(WorkerEvent::Reported(true)), WorkerAction::NextEntry));
    assert!(matches!(w.scan_worker(entry("g", EntryKind::File)), WorkerAction::Inspect { .. }));
    assert!(matches!(w.scan_worker(WorkerEvent::Metadata(None)), WorkerAction::NextEntry));
    assert!(matches!(w.scan_worker(WorkerEvent::EndOfDirectory), WorkerAction::FinishDirectory));
    assert!(matches!(w.scan_worker(WorkerEvent::NoDirectory), WorkerAction::Stop));
}

#[test]
fn a_worker_stays_on_its_device() {
    let mut w = Worker::new(Some(5));
    match w.scan_worker(WorkerEvent::Directory("/d".to_string())) {
        WorkerAction::CheckDevice(dir) => assert_eq!(dir, "/d"),
        _ => panic!(),
    }
    assert!(matches!(w.scan_worker(WorkerEvent::Device(Some(6))), WorkerAction::FinishDirectory));
    w.scan_worker(WorkerEvent::Directory("/e".to_string()));
    assert!(matches!(w.scan_worker(WorkerEvent::Device(None)), WorkerAction::FinishDirectory));
    w.scan_worker(WorkerEvent::Directory("/f".to_string()));
    assert!(matches!(w.scan_worker(WorkerEvent::Device(Some(5))), WorkerAction::OpenDirectory(_)));
    w.scan_worker(WorkerEvent::Opened(true));
    w.scan_worker(entry("x", EntryKind::File));
    assert!(matches!(w.scan_worker(WorkerEvent::Metadata(meta(6, 1))), WorkerAction::NextEntry));
    w.scan_worker(entry("y", EntryKind::File));
    assert!(matches!(w.scan_worker(WorkerEvent::Metadata(meta(5, 1))), WorkerAction::Report(_)));
    assert!(matches!(w.scan_worker(WorkerEvent::Reported(false)), WorkerAction::Abandon));
}

#[test]
fn a_directory_that_cannot_be_opened_is_finished() {
    let mut w = Worker::new(None);
    w.scan_worker(WorkerEvent::Directory("/d".to_string()));
    assert!(matches!(w.scan_worker(WorkerEvent::Opened(false)), WorkerAction::FinishDirectory));
}

#[test]
fn the_queue_closes_with_the_last_directory() {
    let mut f = Frontier::new();
    assert!(f.has_room() && !f.is_done());
    f.queued();
    f.queued();
    assert!(!f.finished());
    f.queued();
    assert!(!f.finished());
    assert!(!f.finished());
    assert!(f.finished());
    assert!(f.is_done());
}

fn options(threads: usize, multiplier: usize) -> ScanOptions {
    ScanOptions {
        path: ".".to_string(),
        same_filesystem: false,
        stat_threads: threads,
        queue_multiplier: multiplier,
        thread_activities: vec![],
    }
}

#[test]
fn plans_the_queue() {
    assert!(is_plannable(&options(128, 32)));
    assert_eq!(queue_capacity(&options(128, 32)), 4096);
    assert!(!is_plannable(&options(0, 32)));
    assert!(!is_plannable(&options(usize::MAX, 2)));
}

#[test]
fn one_device_is_scanned_if_asked_for() {
    let mut asked = options(1, 1);
    assert_eq!(device_to_scan(&asked, Some(7)), None);
    asked.same_filesystem = true;
    assert_eq!(device_to_scan(&asked, Some(7)), Some(7));
    assert_eq!(device_to_scan(&asked, None), None);
}

/// What a disk holds: names with the size of a file or what is in a directory.
enum Held {
    File(u64),
    Dir(Vec<(&'static str, Held)>),
    Link,
}

fn found<'a>(disk: &'a Held, path: &str) -> &'a Held {
    path.split('/').filter(|p| !p.is_empty()).skip(1).fold(disk, |here, part| match here {
        Held::Dir(inner) => &inner.iter().find(|(n, _)| *n == part).unwrap().1,
        _ => panic!(),
    })
}

#[test]
fn a_whole_scan_reports_everything_once() {
    let disk = Held::Dir(vec![
        ("a", Held::Dir(vec![("x", Held::File(1)), ("b", Held::Dir(vec![("y", Held::File(2))]))])),
        ("l", Held::Link),
        ("f", Held::File(4)),
        ("e", Held::Dir(vec![])),
    ]);
    for last_first in [false, true] {
        let mut waiting = vec!["/r".to_string()];
        let mut frontier = Frontier::new();
        let mut worker = Worker::new(None);
        let mut reports = Vec::new();
        let mut at = String::new();
        let mut next = 0;
        let mut action = WorkerAction::AwaitDirectory;
        loop {
            let event = match action {
                WorkerAction::AwaitDirectory | WorkerAction::FinishDirectory => {
                    if matches!(action, WorkerAction::FinishDirectory) {
                        assert_eq!(frontier.finished(), waiting.is_empty());
                    }
                    if waiting.is_empty() {
                        break;
                    }
                    at = waiting.remove(if last_first { waiting.len() - 1 } else { 0 });
                    next = 0;
                    WorkerEvent::Directory(at.clone())
                }
                WorkerAction::OpenDirectory(_) => WorkerEvent::Opened(true),
                WorkerAction::NextEntry => match found(&disk, &at) {
                    Held::Dir(inner) if next < inner.len() => {
                        next += 1;
                        let kind = match inner[next - 1].1 {
                            Held::File(_) => EntryKind::File,
                            Held::Dir(_) => EntryKind::Directory,
                            Held::Link => EntryKind::Symlink,
                        };
                        entry(inner[next - 1].0, kind)
                    }
                    _ => WorkerEvent::EndOfDirectory,
                },
                WorkerAction::Inspect { path, queue } => {
                    let size = match found(&disk, &path) {
                        Held::File(n) => *n,
                        _ => 4096,
                    };
                    if queue {
                        frontier.queued();
                        waiting.push(path);
                    }
                    WorkerEvent::Metadata(meta(1, size))
                }
                WorkerAction::Report(e) => {
                    reports.push((e.parent, e.name, e.is_dir, e.size));
                    WorkerEvent::Reported(true)
                }
                _ => panic!(),
            };
            action = worker.scan_worker(event);
        }
        assert!(frontier.is_done());
        reports.sort();
        let expected = [
            ("/r", "a", true, 0),
            ("/r", "e", true, 0),
            ("/r", "f", false, 4),
            ("/r/a", "b", true, 0),
            ("/r/a", "x", false, 1),
            ("/r/a/b", "y", false, 2),
        ];
        let expected: Vec<(String, String, bool, u64)> = expected
            .iter()
            .map(|(p, n, d, s)| (p.to_string(), n.to_string(), *d, *s))
            .collect();
        assert_eq!(reports, expected);
    }
}

#[test]
fn says_what_cannot_be_accessed() {
    assert_eq!(access_error("/x", "No such file"), "Cannot access /x: No such file");
}

fn raw(name: &str, kind: EntryKind, meta: Option<FileMeta>) -> RawEntry {
    RawEntry { name: name.to_string(), kind, meta }
}

#[test]
fn expands_a_directory() {
    let children = expand_directory(vec![
        raw("small", EntryKind::File, meta(1, 5)),
        raw("link", EntryKind::Symlink, meta(1, 5)),
        raw("dir", EntryKind::Directory, meta(1, 4096)),
        raw("gone", EntryKind::File, None),
        raw("big", EntryKind::File, meta(1, 50)),
        raw("odd", EntryKind::Unknown, meta(1, 1)),
    ]);
    let names: Vec<&str> = children.iter().map(|c| c.name.as_str()).collect();
    assert_eq!(names, ["dir", "big", "small"]);
    assert_eq!(children[0].size, 0);
    assert_eq!(children[1].size, 50);
    assert_eq!(children[1].mtime, Some(Timestamp { secs: 1, nanos: 2 }));
}

fn listed(names: &[(&str, bool)]) -> Vec<Listed> {
    names.iter().map(|(n, d)| Listed { name: n.to_string(), is_dir: *d }).collect()
}

fn asked(r: &Removal) -> (&'static str, String) {
    match r.request() {
        Request::List(p) => ("list", p),
        Request::RemoveFile(p) => ("file", p),
        Request::RemoveDirectory(p) => ("dir", p),
        Request::Finished => ("end", String::new()),
    }
}

#[test]
fn removes_what_is_inside_first() {
    let mut r = Removal::new("/d".to_string());
    assert_eq!(asked(&r), ("list", "/d".to_string()));
    r.listed(listed(&[("f", false), ("s", true), ("g", false)]));
    assert_eq!(asked(&r), ("file", "/d/f".to_string()));
    assert!(!r.removed(10));
    assert_eq!(asked(&r), ("list", "/d/s".to_string()));
    r.listed(listed(&[("h", false)]));
    assert_eq!(asked(&r), ("file", "/d/s/h".to_string()));
    r.removed(5);
    assert_eq!(asked(&r), ("dir", "/d/s".to_string()));
    r.removed(0);
    assert_eq!(asked(&r), ("file", "/d/g".to_string()));
    r.removed(1);
    assert_eq!(asked(&r), ("dir", "/d".to_string()));
    r.removed(0);
    assert_eq!(asked(&r).0, "end");
    match r.complete() {
        ScanMessage::DeleteComplete { bytes_deleted, files_deleted, dirs_deleted, error } => {
            assert_eq!((bytes_deleted, files_deleted, dirs_deleted), (16, 3, 1));
            assert!(error.is_none());
        }
        _ => panic!(),
    }
}

#[test]
fn a_failure_ends_the_removal() {
    let mut r = Removal::new("/d".to_string());
    r.failed("denied");
    assert_eq!(asked(&r).0, "end");
    match r.complete() {
        ScanMessage::DeleteComplete { error, .. } => assert_eq!(error.unwrap(), "/d: denied"),
        _ => panic!(),
    }
    let mut r = Removal::new("/d".to_string());
    r.listed(listed(&[("f", false)]));
    r.failed("busy");
    match r.complete() {
        ScanMessage::DeleteComplete { error, .. } => assert_eq!(error.unwrap(), "/d/f: busy"),
        _ => panic!(),
    }
    let mut r = Removal::new("/d".to_string());
    r.listed(listed(&[("s", true)]));
    r.listed(listed(&[]));
    r.failed("not empty");
    match r.complete() {
        ScanMessage::DeleteComplete { error, .. } => assert_eq!(error.unwrap(), "/d/s: not empty"),
        _ => panic!(),
    }
    let mut r = Removal::new("/d".to_string());
    r.listed(listed(&[]));
    r.failed("not empty");
    match r.complete() {
        ScanMessage::DeleteComplete { error, .. } => assert_eq!(error.unwrap(), "not empty"),
        _ => panic!(),
    }
}

#[test]
fn removal_reports_every_hundred() {
    let names: Vec<String> = (0..250).map(|i| format!("f{}", i)).collect();
    let mut r = Removal::new("/d".to_string());
    r.listed(names.iter().map(|n| Listed { name: n.clone(), is_dir: false }).collect());
    let mut reports = Vec::new();
    for i in 1..=250 {
        assert!(r.can_count(2));
        if r.removed(2) {
            reports.push(i);
            match r.progress() {
                ScanMessage::DeleteProgress { bytes_deleted, files_deleted, dirs_deleted } => {
                    assert_eq!((bytes_deleted, files_deleted, dirs_deleted), (2 * i, i, 0))
                }
                _ => panic!(),
            }
        }
    }
    assert_eq!(reports, [100, 200]);
    assert!(!r.can_count(u64::MAX));
}

#[test]
fn the_command_line_has_defaults() {
    let mut cli = Cli {
        path: "/x".to_string(),
        no_cache: false,
        export: None,
        same_filesystem: true,
        threads: None,
        queue_multiplier: None,
    };
    assert_eq!(cli.stat_threads(), 128);
    let options = cli.scan_options();
    assert_eq!(options.path, "/x");
    assert!(options.same_filesystem);
    assert_eq!((options.stat_threads, options.queue_multiplier), (128, 32));
    assert_eq!(options.thread_activities.len(), 128);
    cli.threads = Some(3);
    cli.queue_multiplier = Some(4);
    let options = cli.scan_options();
    assert_eq!((options.stat_threads, options.queue_multiplier), (3, 4));
}
