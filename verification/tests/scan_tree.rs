use spaze_finder::scan::{scan, Entry, Listing, Progress};
use spaze_finder::tree::{find_node, insert_node, remove_node, rename_node, Node};

fn file(name: &str, size: u64) -> Entry {
    Entry::File { name: name.to_string(), size: Some(size) }
}

/// The folder these tests scan: `big.bin` of 1000 bytes, `small.txt`
/// of 2 bytes, and `sub/mid.dat` of 500 bytes.
fn fixture() -> Listing {
    let sub = Listing { name: "sub".to_string(), entries: Some(vec![file("mid.dat", 500)]) };
    Listing {
        name: "fixture".to_string(),
        entries: Some(vec![file("big.bin", 1000), file("small.txt", 2), Entry::Dir(sub)]),
    }
}

fn scanned() -> Node {
    let mut prog = Progress::default();
    scan(&fixture(), &mut prog)
}

fn rel(parts: &[&str]) -> Vec<String> {
    parts.iter().map(|s| s.to_string()).collect()
}

#[test]
fn scan_sums_sizes_recursively() {
    let mut prog = Progress::default();
    let root = scan(&fixture(), &mut prog);
    assert_eq!(root.size, 1502);
    assert!(root.is_dir);
    let sub = root.children.iter().find(|c| c.name == "sub").unwrap();
    assert_eq!(sub.size, 500);
    assert!(sub.is_dir);
}

#[test]
fn scan_sorts_children_size_desc() {
    let mut prog = Progress::default();
    let root = scan(&fixture(), &mut prog);
    let names: Vec<&str> = root.children.iter().map(|c| c.name.as_str()).collect();
    assert_eq!(names, vec!["big.bin", "sub", "small.txt"]);
}

#[test]
fn scan_counts_progress() {
    let mut prog = Progress::default();
    scan(&fixture(), &mut prog);
    assert_eq!(prog.files, 3);
    assert_eq!(prog.bytes, 1502);
}

#[test]
fn find_node_walks_path() {
    let root = scanned();
    assert_eq!(find_node(&root, &[]).unwrap().size, 1502);
    assert_eq!(find_node(&root, &rel(&["sub", "mid.dat"])).unwrap().size, 500);
    assert!(find_node(&root, &rel(&["nope"])).is_none());
}

#[test]
fn remove_node_updates_ancestor_sizes() {
    let mut root = scanned();
    let removed = remove_node(&mut root, &rel(&["sub", "mid.dat"])).unwrap();
    assert_eq!(removed.size, 500);
    assert_eq!(root.size, 1002);
    assert_eq!(find_node(&root, &rel(&["sub"])).unwrap().size, 0);
}

#[test]
fn rename_node_keeps_size() {
    let mut root = scanned();
    assert!(rename_node(&mut root, &rel(&["big.bin"]), "huge.bin"));
    assert!(find_node(&root, &rel(&["huge.bin"])).is_some());
    assert_eq!(root.size, 1502);
}

#[test]
fn move_via_remove_then_insert() {
    let mut root = scanned();
    let node = remove_node(&mut root, &rel(&["big.bin"])).unwrap();
    assert!(insert_node(&mut root, &rel(&["sub"]), node));
    assert_eq!(root.size, 1502);
    let sub = find_node(&root, &rel(&["sub"])).unwrap();
    assert_eq!(sub.size, 1500);
    assert_eq!(sub.children[0].name, "big.bin"); // re-sorted, biggest first
}
