use fdu::aggregation::DirAggregation;
use fdu::builder::{snapshot_due, StatEntry, TreeBuilder};
use fdu::node::{FileNode, Timestamp};
use fdu::profile::count_tree_nodes;

const NOW: Timestamp = Timestamp { secs: 100, nanos: 0 };

fn entry(parent: &str, name: &str, is_dir: bool, size: u64) -> StatEntry {
    StatEntry {
        parent: parent.to_string(),
        name: name.to_string(),
        is_dir,
        size,
        mtime: None,
    }
}

fn child<'a>(node: &'a FileNode, name: &str) -> &'a FileNode {
    node.children.iter().find(|c| c.name == name).unwrap()
}

#[test]
fn builds_the_final_tree() {
    let mut b = TreeBuilder::new("/r".to_string(), Some(NOW));
    let entries = vec![
        entry("/r", "a", true, 0),
        entry("/r", "f", false, 10),
        entry("/r/a", "b", true, 0),
        entry("/r/a", "g", false, 5),
        entry("/r/a/b", "h", false, 7),
        entry("/r/a/b", "i", false, 8),
    ];
    for e in entries {
        assert!(b.can_add(&e));
        assert!(b.add(e).is_none());
    }
    assert_eq!(b.total_entries(), 6);
    let tree = b.finish(NOW).unwrap();
    assert_eq!(count_tree_nodes(&tree.root), Some(7));
    assert_eq!(tree.root_path, "/r");
    assert!(tree.complete);
    assert_eq!((tree.total_files, tree.total_dirs, tree.total_errors), (4, 2, 0));
    assert_eq!(tree.root.name, "r");
    assert_eq!(tree.root.mtime, Some(NOW));
    assert_eq!(tree.root.size, 30);
    assert_eq!(tree.root.child_count, 2);
    assert_eq!(tree.root.children[0].name, "a");
    let a = child(&tree.root, "a");
    assert_eq!(a.size, 20);
    let b = child(a, "b");
    assert_eq!((b.size, b.child_count), (15, 2));
    assert_eq!(b.children[0].name, "i");
}

#[test]
fn sizes_do_not_depend_on_the_order_of_reports() {
    let mut b = TreeBuilder::new("/".to_string(), None);
    for e in vec![
        entry("/x/y", "f", false, 3),
        entry("/x", "y", true, 0),
        entry("/", "x", true, 0),
        entry("/", "g", false, 4),
    ] {
        b.add(e);
    }
    let tree = b.finish(NOW).unwrap();
    assert_eq!(tree.root.name, "/");
    assert_eq!(tree.root.size, 7);
    assert_eq!(child(&tree.root, "x").size, 3);
}

#[test]
fn files_of_directories_that_were_not_reported_are_left_out() {
    let mut b = TreeBuilder::new("/r".to_string(), None);
    b.add(entry("/r", "f", false, 1));
    b.add(entry("/r/lost", "g", false, 2));
    let snapshot = b.snapshot(NOW);
    assert_eq!(snapshot.root.size, 3);
    let tree = b.finish(NOW).unwrap();
    assert_eq!(tree.root.size, 1);
    assert_eq!(tree.total_files, 2);
}

#[test]
fn counters_come_with_every_two_hundredth_entry() {
    let mut b = TreeBuilder::new("/r".to_string(), None);
    assert_eq!(b.current_path(), "");
    for i in 0..199 {
        assert!(b.add(entry("/r", &format!("f{}", i), i % 2 == 0, 1)).is_none());
    }
    let count = b.add(entry("/r/deep", "last", false, 1)).unwrap();
    assert_eq!(count.files_count, 100);
    assert_eq!(count.dirs_count, 100);
    assert_eq!(count.current_path, "/r/deep/last");
    assert!(b.add(entry("/r", "more", false, 1)).is_none());
    assert_eq!(b.current_path(), "/r/deep/last");
}

#[test]
fn snapshots_are_two_levels_deep() {
    let mut b = TreeBuilder::new("/r".to_string(), None);
    for e in vec![
        entry("/r", "f", false, 50),
        entry("/r", "a", true, 0),
        entry("/r/a", "b", true, 0),
        entry("/r/a/b", "c", true, 0),
        entry("/r/a/b/c", "g", false, 5),
    ] {
        b.add(e);
    }
    let tree = b.snapshot(NOW);
    assert!(!tree.complete);
    assert_eq!(tree.root.size, 55);
    assert_eq!(tree.root.children[0].name, "a");
    assert_eq!(tree.root.children[1].name, "f");
    let b_node = &tree.root.children[0].children[0];
    assert_eq!((b_node.name.as_str(), b_node.size, b_node.child_count), ("b", 5, 1));
    assert!(b_node.children.is_empty());
}

#[test]
fn snapshots_show_five_hundred_files_of_a_directory() {
    let mut b = TreeBuilder::new("/r".to_string(), None);
    for i in 0..600 {
        b.add(entry("/r", &format!("f{}", i), false, i));
    }
    b.add(entry("/r", "d", true, 0));
    let tree = b.snapshot(NOW);
    assert_eq!(tree.root.child_count, 601);
    assert_eq!(tree.root.children.len(), 501);
    assert_eq!(tree.root.children[0].name, "d");
    assert_eq!(tree.root.children[1].name, "f499");
    assert_eq!(tree.root.size, 599 * 600 / 2);
}

#[test]
fn large_directories_keep_their_largest_files() {
    let mut b = TreeBuilder::new("/r".to_string(), None);
    for i in 0..10_300u64 {
        b.add(entry("/r", &format!("f{}", i), false, i));
    }
    b.add(entry("/r", "d", true, 0));
    let tree = b.finish(NOW).unwrap();
    assert_eq!(tree.root.child_count, 10_301);
    assert_eq!(tree.root.children.len(), 10_000 + 100 + 1);
    assert_eq!(tree.root.size, 10_299 * 10_300 / 2);
    assert_eq!(tree.root.children[0].size, 10_299);
    assert_eq!(tree.root.children[99].size, 10_200);
    assert_eq!(tree.root.children[100].size, 9_999);
}

#[test]
fn aggregation_keeps_a_hundred_in_descending_order() {
    let mut agg = DirAggregation::new(7);
    for i in 0..150u64 {
        agg.offer(FileNode::new_file(format!("f{}", i), (i * 37) % 150, None));
    }
    assert_eq!(agg.total_file_count, 157);
    assert_eq!(agg.top_files.len(), 100);
    let sizes: Vec<u64> = agg.top_files.iter().map(|f| f.size).collect();
    let expected: Vec<u64> = (50..150).rev().collect();
    assert_eq!(sizes, expected);
}

#[test]
fn of_equal_files_the_later_comes_first() {
    let mut agg = DirAggregation::new(0);
    agg.offer(FileNode::new_file("first".to_string(), 5, None));
    agg.offer(FileNode::new_file("second".to_string(), 5, None));
    assert_eq!(agg.top_files[0].name, "second");
    assert_eq!(agg.top_files[1].name, "first");
}

#[test]
fn directories_reported_twice_are_filled_once() {
    let mut b = TreeBuilder::new("/r".to_string(), None);
    b.add(entry("/r", "d", true, 0));
    b.add(entry("/r", "d", true, 0));
    b.add(entry("/r/d", "f", false, u64::MAX));
    assert!(!b.can_add(&entry("/r", "g", false, 1)));
    assert!(b.can_add(&entry("/r", "g", false, 0)));
    assert!(b.can_add(&entry("/elsewhere", "g", false, 1)));
    assert!(b.can_add(&entry("/r", "e", true, 0)));
    let tree = b.finish(NOW).unwrap();
    assert_eq!(tree.root.size, u64::MAX);
    assert_eq!(tree.root.children.len(), 2);
}

#[test]
fn snapshots_are_due_every_half_second() {
    assert!(!snapshot_due(499));
    assert!(snapshot_due(500));
}

#[test]
fn snapshots_count_the_kept_files_too() {
    let mut b = TreeBuilder::new("/r".to_string(), None);
    for i in 0..10_001u64 {
        b.add(entry("/r", &format!("f{}", i), false, i));
    }
    b.add(entry("/r", "d", true, 0));
    let tree = b.snapshot(NOW);
    assert_eq!(tree.root.child_count, 10_002);
    assert_eq!(tree.root.children.len(), 501);
    assert_eq!(tree.root.children[1].name, "f10000");
    assert_eq!(tree.root.children[2].name, "f498");
    for i in 10_001..10_300u64 {
        b.add(entry("/r", &format!("f{}", i), false, i));
    }
    let tree = b.snapshot(NOW);
    let files = tree.root.children.iter().filter(|c| !c.is_dir).count();
    assert_eq!(files, 500);
    assert_eq!(tree.root.children[100].name, "f10200");
    assert_eq!(tree.root.children[101].name, "f399");
}

#[test]
fn the_order_of_arrival_does_not_matter() {
    fn entries() -> Vec<StatEntry> {
        vec![
            entry("/r", "a", true, 0),
            entry("/r", "f", false, 10),
            entry("/r/a", "b", true, 0),
            entry("/r/a", "g", false, 5),
            entry("/r/a", "same", false, 5),
            entry("/r/a/b", "h", false, 7),
            entry("/r", "z", false, 17),
        ]
    }
    fn same(x: &FileNode, y: &FileNode) -> bool {
        x.name == y.name
            && x.size == y.size
            && x.is_dir == y.is_dir
            && x.child_count == y.child_count
            && x.mtime == y.mtime
            && x.error_count == y.error_count
            && x.children.len() == y.children.len()
            && x.children.iter().all(|c| same(c, child(y, &c.name)))
            && x.children.iter().zip(&y.children).all(|(c, d)| c.size == d.size)
    }
    let build = |turn: usize, backwards: bool| {
        let mut b = TreeBuilder::new("/r".to_string(), Some(NOW));
        let mut list = entries();
        list.rotate_left(turn);
        if backwards {
            list.reverse();
        }
        for e in list {
            b.add(e);
        }
        b.finish(NOW).unwrap()
    };
    let first = build(0, false);
    for turn in 0..7 {
        for backwards in [false, true] {
            let tree = build(turn, backwards);
            assert!(same(&first.root, &tree.root));
            assert_eq!((tree.total_files, tree.total_dirs), (5, 2));
        }
    }
    let ties: Vec<String> =
        build(0, true).root.children.iter().map(|c| c.name.clone()).collect();
    assert_eq!(ties, ["z", "a", "f"]);
}

#[test]
fn directories_are_told_apart_by_the_parts_of_their_paths() {
    let mut b = TreeBuilder::new("/r/".to_string(), Some(NOW));
    b.add(entry("/r", "f", false, 3));
    b.add(entry("//r/.", "d", true, 0));
    b.add(entry("/r/d//", "g", false, 4));
    b.add(entry("/r/./d", "h", false, 5));
    let snapshot = b.snapshot(NOW);
    assert_eq!(snapshot.root.size, 12);
    assert_eq!(snapshot.root.child_count, 2);
    let tree = b.finish(NOW).unwrap();
    assert_eq!((tree.root_path.as_str(), tree.root.name.as_str()), ("/r/", "r"));
    assert_eq!((tree.root.size, tree.root.mtime), (12, Some(NOW)));
    assert_eq!(tree.root.children.len(), 2);
    assert_eq!((child(&tree.root, "d").size, child(&tree.root, "d").child_count), (9, 2));
}
