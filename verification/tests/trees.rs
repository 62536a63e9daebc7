use fdu::node::{FileNode, Timestamp};
use fdu::tree::{arrange, arrange_by_text, ChildOrder, FileTree};

fn names(node: &FileNode) -> Vec<&str> {
    node.children.iter().map(|c| c.name.as_str()).collect()
}

fn file(name: &str, size: u64) -> FileNode {
    FileNode::new_file(name.to_string(), size, None)
}

fn dir(name: &str, children: Vec<FileNode>) -> FileNode {
    let mut d = FileNode::new_dir(name.to_string(), None);
    d.size = children.iter().map(|c| c.size).sum();
    d.child_count = children.len();
    d.children = children;
    d
}

fn sample() -> FileTree {
    FileTree {
        root_path: "/data".to_string(),
        root: dir(
            "data",
            vec![
                file("b", 5),
                dir("A", vec![file("x", 1), file("y", 3)]),
                file("c", 5),
            ],
        ),
        total_files: 4,
        total_dirs: 1,
        total_errors: 0,
        scan_time: Timestamp { secs: 10, nanos: 0 },
        complete: true,
    }
}

#[test]
fn makes_new_nodes() {
    let t = Timestamp { secs: 3, nanos: 4 };
    let d = FileNode::new_dir("d".to_string(), Some(t));
    assert!(d.is_dir && d.size == 0 && d.child_count == 0 && d.error_count == 0);
    assert_eq!(d.mtime, Some(t));
    assert!(d.children.is_empty());
    let f = FileNode::new_file("f".to_string(), 42, None);
    assert!(!f.is_dir && f.size == 42);
    assert_eq!(f.name, "f");
}

#[test]
fn sorts_by_size() {
    let mut root = sample().root;
    root.sort_by_size_desc();
    assert_eq!(names(&root), ["b", "c", "A"]);
    root.sort_by_size_asc();
    assert_eq!(names(&root), ["A", "b", "c"]);
}

#[test]
fn equal_sizes_keep_their_places() {
    let mut d = dir("d", vec![file("3", 1), file("1", 1), file("2", 1), file("big", 2)]);
    d.sort_by_size_desc();
    assert_eq!(names(&d), ["big", "3", "1", "2"]);
    d.sort_by_size_asc();
    assert_eq!(names(&d), ["3", "1", "2", "big"]);
}

#[test]
fn sorts_by_name_without_case() {
    let mut d = dir("d", vec![file("b", 1), file("A", 2), file("C", 3), file("a", 4)]);
    d.sort_by_name_asc();
    assert_eq!(names(&d), ["A", "a", "b", "C"]);
    d.sort_by_name_desc();
    assert_eq!(names(&d), ["C", "b", "A", "a"]);
}

#[test]
fn lower_case_goes_beyond_ascii() {
    let mut d = dir("d", vec![file("é", 1), file("É", 2), file("z", 3), file("È", 4)]);
    d.sort_by_name_asc();
    assert_eq!(names(&d), ["z", "È", "é", "É"]);
}

#[test]
fn sorts_by_given_texts() {
    let nodes = vec![file("one", 1), file("two", 2), file("three", 3)];
    let keys = vec!["b".to_string(), "a".to_string(), "b".to_string()];
    let sorted = arrange_by_text(nodes, keys, false);
    let order: Vec<&str> = sorted.iter().map(|n| n.name.as_str()).collect();
    assert_eq!(order, ["two", "one", "three"]);
    let nodes = vec![file("one", 1), file("two", 2), file("three", 3)];
    let keys = vec!["b".to_string(), "a".to_string(), "b".to_string()];
    let sorted = arrange_by_text(nodes, keys, true);
    let order: Vec<&str> = sorted.iter().map(|n| n.name.as_str()).collect();
    assert_eq!(order, ["one", "three", "two"]);
}

#[test]
fn directories_come_first() {
    let nodes = vec![file("big", 100), dir("d", vec![file("x", 1)]), file("small", 2), dir("e", vec![])];
    let sorted = arrange(nodes, ChildOrder::DirsThenSizeDesc);
    let order: Vec<&str> = sorted.iter().map(|n| n.name.as_str()).collect();
    assert_eq!(order, ["d", "e", "big", "small"]);
}

#[test]
fn sorts_deeply_and_twice_is_as_once() {
    let mut root = sample().root;
    root.sort_recursive_by_size();
    assert_eq!(names(&root), ["b", "c", "A"]);
    assert_eq!(names(&root.children[2]), ["y", "x"]);
    let again = {
        let mut r = root.clone();
        r.sort_recursive_by_size();
        r
    };
    assert_eq!(names(&again), names(&root));
    assert_eq!(names(&again.children[2]), names(&root.children[2]));
}

#[test]
fn finds_nodes_by_their_way() {
    let tree = sample();
    assert_eq!(tree.node_at(&[]).unwrap().name, "data");
    assert_eq!(tree.node_at(&[1, 0]).unwrap().name, "x");
    assert!(tree.node_at(&[1, 2]).is_none());
    assert!(tree.node_at(&[7]).is_none());
}

#[test]
fn changed_nodes_are_found_again() {
    let mut tree = sample();
    tree.node_at_mut(&[1, 1]).unwrap().size = 99;
    assert_eq!(tree.node_at(&[1, 1]).unwrap().size, 99);
    assert_eq!(tree.node_at(&[1, 0]).unwrap().size, 1);
    assert_eq!(tree.node_at(&[0]).unwrap().size, 5);
    assert!(tree.node_at_mut(&[0, 0]).is_none());
}

#[test]
fn times_are_compared_to_the_nanosecond() {
    let a = Timestamp { secs: 1, nanos: 5 };
    let b = Timestamp { secs: 1, nanos: 6 };
    let c = Timestamp { secs: 2, nanos: 0 };
    assert!(b.is_after(&a) && c.is_after(&b));
    assert!(!a.is_after(&a) && !a.is_after(&c));
}
