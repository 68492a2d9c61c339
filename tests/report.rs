use disk_inventory::node::FileNode;
use disk_inventory::order::sort_tree_by_size;
use disk_inventory::prune::filter_tree;
use disk_inventory::walk::{build_tree, WalkEntry, DEFAULT_MIN_SIZE};

fn entry(name: &str, size: u64, location: &str, depth: usize) -> Option<WalkEntry> {
    Some(WalkEntry {
        name: name.to_string(),
        size,
        location: location.to_string(),
        depth,
    })
}

fn leaf(name: &str, size: u64) -> FileNode {
    FileNode {
        name: name.to_string(),
        size,
        location: Some(name.to_string()),
        children: Vec::new(),
    }
}

fn names(n: &FileNode) -> Vec<String> {
    n.children.iter().map(|c| c.name.clone()).collect()
}

fn sizes(n: &FileNode) -> Vec<u64> {
    n.children.iter().map(|c| c.size).collect()
}

#[test]
fn default_threshold_keeps_large_file_only() {
    let steps = vec![
        entry("d", 0, "d", 0),
        entry("a", 500, "d/a", 1),
        entry("b", 2000, "d/b", 1),
    ];
    let mut root = build_tree("d", None, &steps).unwrap();
    sort_tree_by_size(&mut root);
    filter_tree(&mut root, DEFAULT_MIN_SIZE);
    assert_eq!(DEFAULT_MIN_SIZE, 1024);
    assert_eq!(root.size, 2500);
    assert_eq!(names(&root), vec!["b".to_string()]);
    assert_eq!(root.children[0].location, Some("d/b".to_string()));
}

#[test]
fn build_keeps_walk_order_and_fields() {
    let steps = vec![
        entry("top", 4096, "top", 0),
        entry("x", 10, "top/x", 1),
        entry("y", 20, "top/y", 1),
    ];
    let root = build_tree("top", None, &steps).unwrap();
    assert_eq!(root.name, "top");
    assert_eq!(root.location, None);
    assert_eq!(root.size, 4126);
    assert_eq!(names(&root), vec!["top".to_string(), "x".to_string(), "y".to_string()]);
    assert_eq!(sizes(&root), vec![4096, 10, 20]);
    assert_eq!(root.children[1].location, Some("top/x".to_string()));
}

#[test]
fn depth_bound_gives_flat_children() {
    let steps = vec![
        entry("r", 100, "r", 0),
        entry("sub", 200, "r/sub", 1),
        entry("deep", 300, "r/sub/deep", 2),
        entry("f", 400, "r/f", 1),
    ];
    let root = build_tree("r", Some(1), &steps).unwrap();
    assert_eq!(names(&root), vec!["r".to_string(), "sub".to_string(), "f".to_string()]);
    assert_eq!(root.size, 700);
    assert!(root.children.iter().all(|c| c.children.is_empty()));

    let unbounded = build_tree("r", None, &steps).unwrap();
    assert_eq!(unbounded.children.len(), 4);
    assert!(unbounded.children.iter().all(|c| c.children.is_empty()));
    assert_eq!(unbounded.children[2].name, "deep");
    assert_eq!(unbounded.size, 1000);
}

#[test]
fn depth_zero_takes_only_the_root_entry() {
    let steps = vec![
        entry("r", 64, "r", 0),
        entry("a", 2000, "r/a", 1),
        entry("b", 3000, "r/a/b", 2),
    ];
    let root = build_tree("r", Some(0), &steps).unwrap();
    assert_eq!(names(&root), vec!["r".to_string()]);
    assert_eq!(root.size, 64);
}

#[test]
fn failed_step_is_skipped() {
    let steps = vec![
        entry("r", 0, "r", 0),
        None,
        entry("ok", 5000, "r/ok", 1),
        None,
    ];
    let root = build_tree("r", None, &steps).unwrap();
    assert_eq!(root.size, 5000);
    assert_eq!(names(&root), vec!["r".to_string(), "ok".to_string()]);
}

#[test]
fn empty_walk_gives_empty_root() {
    let root = build_tree("gone", None, &Vec::new()).unwrap();
    assert_eq!(root.size, 0);
    assert!(root.children.is_empty());
}

#[test]
fn size_overflow_gives_none() {
    let steps = vec![entry("r", u64::MAX, "r", 0), entry("a", 1, "r/a", 1)];
    assert!(build_tree("r", None, &steps).is_none());
    let fits = vec![entry("r", u64::MAX - 1, "r", 0), entry("a", 1, "r/a", 1)];
    assert_eq!(build_tree("r", None, &fits).unwrap().size, u64::MAX);
    let deep = vec![entry("r", u64::MAX, "r", 0), entry("a", 1, "r/a", 1)];
    assert_eq!(build_tree("r", Some(0), &deep).unwrap().size, u64::MAX);
}

#[test]
fn sort_orders_largest_first() {
    let mut root = leaf("root", 0);
    root.children = vec![leaf("a", 5), leaf("b", 50), leaf("c", 1), leaf("d", 20)];
    sort_tree_by_size(&mut root);
    assert_eq!(sizes(&root), vec![50, 20, 5, 1]);
    assert_eq!(names(&root), vec!["b", "d", "a", "c"]);
}

#[test]
fn sort_keeps_order_of_equal_sizes() {
    let mut root = leaf("root", 0);
    root.children = vec![leaf("p", 7), leaf("q", 9), leaf("r", 7), leaf("s", 9), leaf("t", 7)];
    sort_tree_by_size(&mut root);
    assert_eq!(names(&root), vec!["q", "s", "p", "r", "t"]);
}

#[test]
fn sort_reaches_nested_children() {
    let mut inner = leaf("inner", 100);
    inner.children = vec![leaf("i1", 1), leaf("i2", 3), leaf("i3", 2)];
    let mut root = leaf("root", 0);
    root.children = vec![leaf("small", 1), inner];
    sort_tree_by_size(&mut root);
    assert_eq!(names(&root), vec!["inner", "small"]);
    assert_eq!(sizes(&root.children[0]), vec![3, 2, 1]);
    assert_eq!(root.size, 0);
}

#[test]
fn filter_removes_below_threshold_at_every_level() {
    let mut inner = leaf("inner", 5000);
    inner.children = vec![leaf("tiny", 10), leaf("big", 3000), leaf("edge", 1024)];
    let mut root = leaf("root", 7);
    root.children = vec![leaf("small", 1023), inner, leaf("large", 4096)];
    filter_tree(&mut root, 1024);
    assert_eq!(root.size, 7);
    assert_eq!(names(&root), vec!["inner", "large"]);
    assert_eq!(names(&root.children[0]), vec!["big", "edge"]);
}

#[test]
fn filter_twice_removes_nothing_more() {
    let mut inner = leaf("inner", 2000);
    inner.children = vec![leaf("x", 1), leaf("y", 2000)];
    let mut root = leaf("root", 0);
    root.children = vec![inner, leaf("z", 5)];
    filter_tree(&mut root, 100);
    let first = (names(&root), names(&root.children[0]));
    filter_tree(&mut root, 100);
    assert_eq!((names(&root), names(&root.children[0])), first);
    assert_eq!(first.0, vec!["inner"]);
    assert_eq!(first.1, vec!["y"]);
}

#[test]
fn zero_threshold_keeps_everything() {
    let steps = vec![entry("r", 0, "r", 0), entry("e", 0, "r/e", 1)];
    let mut root = build_tree("r", None, &steps).unwrap();
    filter_tree(&mut root, 0);
    assert_eq!(root.children.len(), 2);
}

#[test]
fn root_size_unchanged_by_sort_and_filter() {
    let steps = vec![
        entry("r", 4096, "r", 0),
        entry("a", 10, "r/a", 1),
        entry("b", 90000, "r/b", 1),
        entry("c", 2048, "r/c/x", 2),
    ];
    let mut root = build_tree("r", None, &steps).unwrap();
    assert_eq!(root.size, 96154);
    sort_tree_by_size(&mut root);
    assert_eq!(root.size, 96154);
    assert_eq!(sizes(&root), vec![90000, 4096, 2048, 10]);
    filter_tree(&mut root, 3000);
    assert_eq!(root.size, 96154);
    assert_eq!(names(&root), vec!["b", "r"]);
}
