use spaze_finder::commands::{
    children_of, finish_delete, finish_move, finish_rename, get_children, prepare_move,
    prepare_rename, rel_components, scanned_relative, ScanResult,
};
use spaze_finder::drives::{drive_letters, drive_root, fixed_drive, DRIVE_FIXED};
use spaze_finder::order::sort_by_size;
use spaze_finder::scan::{scan, total_bytes, Entry, Listing, Progress};
use spaze_finder::text::{is_valid_file_name, wide};
use spaze_finder::tree::{find_node, insert_node, remove_node, rename_node, Node};

fn file(name: &str, size: u64) -> Entry {
    Entry::File { name: name.to_string(), size: Some(size) }
}

fn dir(name: &str, entries: Vec<Entry>) -> Entry {
    Entry::Dir(Listing { name: name.to_string(), entries: Some(entries) })
}

fn leaf(name: &str, size: u64) -> Node {
    Node { name: name.to_string(), size, is_dir: false, children: vec![] }
}

fn rel(parts: &[&str]) -> Vec<String> {
    parts.iter().map(|s| s.to_string()).collect()
}

fn names_of(node: &Node) -> Vec<&str> {
    node.children.iter().map(|c| c.name.as_str()).collect()
}

/// docs/ (a.txt 10, b.txt 30, old/ (c.txt 5, d.txt 5)), e.bin 100, a link, an unreadable
/// entry, a file without metadata, and a folder that could not be read.
fn drive() -> Listing {
    Listing {
        name: "D:\\".to_string(),
        entries: Some(vec![
            dir("docs", vec![
                file("a.txt", 10),
                file("b.txt", 30),
                dir("old", vec![file("c.txt", 5), file("d.txt", 5)]),
            ]),
            file("e.bin", 100),
            Entry::Symlink,
            Entry::Unreadable,
            Entry::File { name: "locked.sys".to_string(), size: None },
            Entry::Dir(Listing { name: "System Volume Information".to_string(), entries: None }),
        ]),
    }
}

fn drive_result() -> ScanResult {
    let mut prog = Progress::new();
    ScanResult::from_listing("/mnt/d".to_string(), &drive(), &mut prog)
}

#[test]
fn scan_skips_links_and_unreadable_entries() {
    let mut prog = Progress::new();
    let root = scan(&drive(), &mut prog);
    assert_eq!(names_of(&root), vec!["e.bin", "docs", "locked.sys", "System Volume Information"]);
    assert_eq!(root.size, 150);
    assert_eq!(prog.files, 6);
    assert_eq!(prog.bytes, 150);
    assert_eq!(prog.denied, 1);
    let locked = find_node(&root, &rel(&["locked.sys"])).unwrap();
    assert_eq!(locked.size, 0);
    assert!(!locked.is_dir);
}

#[test]
fn scan_of_unreadable_root_is_empty_folder() {
    let mut prog = Progress { files: 4, bytes: 7, denied: 2 };
    let root = scan(&Listing { name: "X".to_string(), entries: None }, &mut prog);
    assert_eq!(root.size, 0);
    assert!(root.is_dir);
    assert!(root.children.is_empty());
    assert_eq!((prog.files, prog.bytes, prog.denied), (4, 7, 3));
}

#[test]
fn scan_counters_wrap_around() {
    let mut prog = Progress { files: u64::MAX, bytes: u64::MAX - 1, denied: 0 };
    scan(&Listing { name: "w".to_string(), entries: Some(vec![file("f", 5)]) }, &mut prog);
    assert_eq!(prog.files, 0);
    assert_eq!(prog.bytes, 3);
}

#[test]
fn every_folder_sums_its_children_and_is_sorted() {
    let mut prog = Progress::new();
    let root = scan(&drive(), &mut prog);
    fn check(n: &Node) {
        if n.is_dir {
            assert_eq!(n.size, n.children.iter().map(|c| c.size).sum::<u64>());
        } else {
            assert!(n.children.is_empty());
        }
        for w in n.children.windows(2) {
            assert!(w[0].size >= w[1].size);
        }
        n.children.iter().for_each(check);
    }
    check(&root);
    assert_eq!(root.size, prog.bytes);
}

#[test]
fn equal_sizes_keep_their_order() {
    let sorted = sort_by_size(vec![leaf("x", 5), leaf("y", 9), leaf("z", 5), leaf("w", 9), leaf("v", 1)]);
    let order: Vec<&str> = sorted.iter().map(|n| n.name.as_str()).collect();
    assert_eq!(order, vec!["y", "w", "x", "z", "v"]);
}

#[test]
fn total_bytes_reports_overflow() {
    assert_eq!(total_bytes(&drive()), Some(150));
    let huge = Listing {
        name: "h".to_string(),
        entries: Some(vec![file("a", u64::MAX), dir("d", vec![file("b", 1)])]),
    };
    assert_eq!(total_bytes(&huge), None);
}

#[test]
fn find_takes_the_first_child_of_a_name() {
    let mut root = Node { name: "r".to_string(), size: 7, is_dir: true, children: vec![leaf("same", 4), leaf("same", 3)] };
    assert_eq!(find_node(&root, &rel(&["same"])).unwrap().size, 4);
    let removed = remove_node(&mut root, &rel(&["same"])).unwrap();
    assert_eq!(removed.size, 4);
    assert_eq!(find_node(&root, &rel(&["same"])).unwrap().size, 3);
    assert_eq!(root.size, 3);
}

#[test]
fn remove_with_empty_or_missing_path_changes_nothing() {
    let mut prog = Progress::new();
    let mut root = scan(&drive(), &mut prog);
    assert!(remove_node(&mut root, &[]).is_none());
    assert!(remove_node(&mut root, &rel(&["docs", "nope"])).is_none());
    assert!(remove_node(&mut root, &rel(&["e.bin", "inside"])).is_none());
    assert_eq!(root.size, 150);
    assert_eq!(find_node(&root, &rel(&["docs"])).unwrap().size, 50);
}

#[test]
fn remove_deep_takes_size_off_every_ancestor() {
    let mut prog = Progress::new();
    let mut root = scan(&drive(), &mut prog);
    let removed = remove_node(&mut root, &rel(&["docs", "old", "c.txt"])).unwrap();
    assert_eq!(removed.name, "c.txt");
    assert_eq!(root.size, 145);
    assert_eq!(find_node(&root, &rel(&["docs"])).unwrap().size, 45);
    assert_eq!(find_node(&root, &rel(&["docs", "old"])).unwrap().size, 5);
    assert!(find_node(&root, &rel(&["docs", "old", "c.txt"])).is_none());
}

#[test]
fn rename_with_empty_or_missing_path_is_refused() {
    let mut prog = Progress::new();
    let mut root = scan(&drive(), &mut prog);
    assert!(!rename_node(&mut root, &[], "x"));
    assert!(!rename_node(&mut root, &rel(&["docs", "zz"]), "x"));
    assert!(rename_node(&mut root, &rel(&["docs", "old"]), "older"));
    assert_eq!(find_node(&root, &rel(&["docs", "older", "d.txt"])).unwrap().size, 5);
    assert!(find_node(&root, &rel(&["docs", "old"])).is_none());
}

#[test]
fn insert_into_missing_folder_still_grows_the_walked_nodes() {
    let mut prog = Progress::new();
    let mut root = scan(&drive(), &mut prog);
    assert!(!insert_node(&mut root, &rel(&["docs", "nowhere", "deeper"]), leaf("n", 7)));
    assert_eq!(root.size, 157);
    assert_eq!(find_node(&root, &rel(&["docs"])).unwrap().size, 57);
    assert!(find_node(&root, &rel(&["docs", "n"])).is_none());
}

#[test]
fn insert_resorts_the_destination() {
    let mut prog = Progress::new();
    let mut root = scan(&drive(), &mut prog);
    assert!(insert_node(&mut root, &rel(&["docs"]), leaf("mid.txt", 20)));
    let docs = find_node(&root, &rel(&["docs"])).unwrap();
    assert_eq!(names_of(docs), vec!["b.txt", "mid.txt", "a.txt", "old"]);
    assert_eq!(docs.size, 70);
    assert_eq!(root.size, 170);
}

#[test]
fn rel_components_strips_the_drive_root() {
    assert_eq!(rel_components("/mnt/d", "/mnt/d/docs/a.txt"), Ok(rel(&["docs", "a.txt"])));
    assert_eq!(rel_components("/mnt/d", "/mnt/d"), Ok(vec![]));
    assert_eq!(rel_components("/mnt/d", "/mnt/e/x"), Err("path outside scanned drive".to_string()));
}

#[test]
fn get_children_lists_one_level() {
    assert_eq!(get_children(&None, "/mnt/d").err(), Some("no scan loaded".to_string()));
    let tree = Some(drive_result());
    let kids = get_children(&tree, "/mnt/d/docs").unwrap();
    let shown: Vec<(&str, u64, bool)> = kids.iter().map(|c| (c.name.as_str(), c.size, c.is_dir)).collect();
    assert_eq!(shown, vec![("b.txt", 30, false), ("a.txt", 10, false), ("old", 10, true)]);
    assert_eq!(get_children(&tree, "/mnt/d/nope").err(), Some("path not found".to_string()));
    assert_eq!(get_children(&tree, "/elsewhere").err(), Some("path outside scanned drive".to_string()));
}

#[test]
fn children_of_reports_missing_path() {
    let root = leaf("f", 1);
    assert_eq!(children_of(&root, &rel(&["x"])).err(), Some("path not found".to_string()));
    assert!(children_of(&root, &[]).unwrap().is_empty());
}

#[test]
fn delete_updates_the_scan() {
    assert_eq!(scanned_relative(&None, "/mnt/d/e.bin"), Err("no scan loaded".to_string()));
    let mut tree = Some(drive_result());
    let rel = scanned_relative(&tree, "/mnt/d/docs/b.txt").unwrap();
    assert_eq!(rel, vec!["docs".to_string(), "b.txt".to_string()]);
    let sr = tree.as_mut().unwrap();
    assert_eq!(finish_delete(sr, &rel), Ok(()));
    assert_eq!(sr.root().size, 120);
    assert_eq!(
        finish_delete(sr, &rel),
        Err("deleted from disk but not found in scan tree — rescan recommended".to_string())
    );
    assert_eq!(sr.root().size, 120);
    assert_eq!(sr.root_path(), "/mnt/d");
}

#[test]
fn rename_checks_the_new_name_first() {
    assert_eq!(prepare_rename(&None, "/mnt/d/e.bin", "a:b"), Err("invalid file name".to_string()));
    assert_eq!(prepare_rename(&None, "/mnt/d/e.bin", ""), Err("invalid file name".to_string()));
    assert_eq!(prepare_rename(&None, "/mnt/d/e.bin", "ok.bin"), Err("no scan loaded".to_string()));
    let mut tree = Some(drive_result());
    assert_eq!(prepare_rename(&tree, "/else/e.bin", "f.bin"), Err("path outside scanned drive".to_string()));
    let rel = prepare_rename(&tree, "/mnt/d/e.bin", "f.bin").unwrap();
    let sr = tree.as_mut().unwrap();
    assert!(finish_rename(sr, &rel, "f.bin"));
    assert!(!finish_rename(sr, &rel, "g.bin"));
    assert_eq!(find_node(sr.root(), &["f.bin".to_string()]).unwrap().size, 100);
    assert_eq!(sr.root().size, 150);
}

#[test]
fn move_checks_then_moves() {
    assert_eq!(prepare_move(&None, "/", "/mnt/d/docs").err(), Some("bad path".to_string()));
    assert_eq!(prepare_move(&None, "/mnt/d/e.bin", "/mnt/d/docs").err(), Some("no scan loaded".to_string()));
    let mut tree = Some(drive_result());
    assert_eq!(prepare_move(&tree, "/x/e.bin", "/mnt/d/docs").err(), Some("path outside scanned drive".to_string()));
    assert_eq!(prepare_move(&tree, "/mnt/d/e.bin", "/x").err(), Some("path outside scanned drive".to_string()));
    assert_eq!(
        prepare_move(&tree, "/mnt/d/e.bin", "/mnt/d/gone").err(),
        Some("destination not in scanned tree".to_string())
    );
    let plan = prepare_move(&tree, "/mnt/d/e.bin", "/mnt/d/docs/old").unwrap();
    assert_eq!(plan.name, "e.bin");
    let sr = tree.as_mut().unwrap();
    finish_move(sr, &plan.rel, &plan.dest_rel);
    assert_eq!(sr.root().size, 150);
    let old = find_node(sr.root(), &rel(&["docs", "old"])).unwrap();
    assert_eq!(old.size, 110);
    assert_eq!(names_of(old), vec!["e.bin", "c.txt", "d.txt"]);
    assert_eq!(find_node(sr.root(), &rel(&["docs"])).unwrap().size, 150);
    finish_move(sr, &plan.rel, &plan.dest_rel);
    assert_eq!(sr.root().size, 150);
}

#[test]
fn file_names_refuse_reserved_characters() {
    assert!(is_valid_file_name("report (final).txt"));
    assert!(is_valid_file_name("ünïcode"));
    assert!(!is_valid_file_name(""));
    for bad in ["a\\b", "a/b", "a:b", "a*b", "a?b", "a\"b", "a<b", "a>b", "a|b"] {
        assert!(!is_valid_file_name(bad), "{}", bad);
    }
}

#[test]
fn wide_encodes_utf16_with_terminator() {
    assert_eq!(wide("C:\\"), vec![67, 58, 92, 0]);
    assert_eq!(wide(""), vec![0]);
    assert_eq!(wide("é😀"), vec![0xE9, 0xD83D, 0xDE00, 0]);
    let s = "spazefinder-test";
    let mut expected: Vec<u16> = s.encode_utf16().collect();
    expected.push(0);
    assert_eq!(wide(s), expected);
}

#[test]
fn drive_letters_follow_the_mask() {
    assert_eq!(drive_letters(0), Vec::<char>::new());
    assert_eq!(drive_letters(0b1101), vec!['A', 'C', 'D']);
    assert_eq!(drive_letters(1 << 25 | 1 << 26), vec!['Z']);
    assert_eq!(drive_root('C'), "C:\\");
}

#[test]
fn only_fixed_drives_are_listed() {
    assert!(fixed_drive('E', 2, 10, 5).is_none());
    let d = fixed_drive('C', DRIVE_FIXED, 500, 120).unwrap();
    assert_eq!((d.letter.as_str(), d.total, d.free), ("C:", 500, 120));
}

#[test]
fn reveal_selects_the_path() {
    assert_eq!(spaze_finder::text::select_arg("C:\\x\\y.txt"), "/select,C:\\x\\y.txt");
}

#[test]
fn rename_then_rename_back_restores_the_tree() {
    let mut prog = Progress::new();
    let mut root = scan(&drive(), &mut prog);
    assert!(rename_node(&mut root, &rel(&["docs", "a.txt"]), "z.txt"));
    assert_eq!(names_of(find_node(&root, &rel(&["docs"])).unwrap()), vec!["b.txt", "z.txt", "old"]);
    assert!(rename_node(&mut root, &rel(&["docs", "z.txt"]), "a.txt"));
    assert_eq!(names_of(find_node(&root, &rel(&["docs"])).unwrap()), vec!["b.txt", "a.txt", "old"]);
    assert_eq!(root.size, 150);
}

fn fixture_result() -> ScanResult {
    let sub = Listing { name: "sub".to_string(), entries: Some(vec![file("mid.dat", 500)]) };
    let listing = Listing {
        name: "fixture".to_string(),
        entries: Some(vec![file("big.bin", 1000), file("small.txt", 2), Entry::Dir(sub)]),
    };
    let mut prog = Progress::new();
    ScanResult::from_listing("/scan".to_string(), &listing, &mut prog)
}

#[test]
fn listings_stay_biggest_first_after_a_delete() {
    let mut tree = Some(fixture_result());
    let rel = scanned_relative(&tree, "/scan/sub/mid.dat").unwrap();
    assert_eq!(finish_delete(tree.as_mut().unwrap(), &rel), Ok(()));
    let kids = get_children(&tree, "/scan").unwrap();
    let shown: Vec<(&str, u64)> = kids.iter().map(|c| (c.name.as_str(), c.size)).collect();
    assert_eq!(shown, vec![("big.bin", 1000), ("small.txt", 2), ("sub", 0)]);
}

#[test]
fn listings_stay_biggest_first_after_a_move() {
    let mut tree = Some(fixture_result());
    let plan = prepare_move(&tree, "/scan/big.bin", "/scan/sub").unwrap();
    finish_move(tree.as_mut().unwrap(), &plan.rel, &plan.dest_rel);
    let kids = get_children(&tree, "/scan").unwrap();
    let shown: Vec<(&str, u64)> = kids.iter().map(|c| (c.name.as_str(), c.size)).collect();
    assert_eq!(shown, vec![("sub", 1500), ("small.txt", 2)]);
}

#[test]
fn a_listing_adds_up_to_its_folder() {
    let tree = Some(drive_result());
    for (path, size) in [("/mnt/d", 150u64), ("/mnt/d/docs", 50), ("/mnt/d/docs/old", 10)] {
        let listed: u64 = get_children(&tree, path).unwrap().iter().map(|c| c.size).sum();
        assert_eq!(listed, size);
    }
}

#[test]
fn removing_and_putting_back_restores_the_folder() {
    let mut prog = Progress::new();
    let mut root = scan(&drive(), &mut prog);
    let before = format!("{:?}", root);
    // c.txt and d.txt have one size: putting c.txt back puts it after d.txt
    let node = remove_node(&mut root, &rel(&["docs", "old", "c.txt"])).unwrap();
    assert!(insert_node(&mut root, &rel(&["docs", "old"]), node));
    assert_eq!(names_of(find_node(&root, &rel(&["docs", "old"])).unwrap()), vec!["d.txt", "c.txt"]);
    let node = remove_node(&mut root, &rel(&["docs", "old", "d.txt"])).unwrap();
    assert!(insert_node(&mut root, &rel(&["docs", "old"]), node));
    // b.txt has no other entry of its size: it comes back where it was
    let node = remove_node(&mut root, &rel(&["docs", "b.txt"])).unwrap();
    assert!(insert_node(&mut root, &rel(&["docs"]), node));
    assert_eq!(format!("{:?}", root), before);
    let docs = find_node(&root, &rel(&["docs"])).unwrap();
    let sizes: Vec<u64> = docs.children.iter().map(|c| c.size).collect();
    assert_eq!(sizes, vec![30, 10, 10]);
}

#[test]
fn insert_into_a_file_keeps_folder_sums() {
    let mut prog = Progress::new();
    let mut root = scan(&drive(), &mut prog);
    assert!(insert_node(&mut root, &rel(&["e.bin"]), leaf("inside", 4)));
    assert_eq!(root.size, 154);
    let e = find_node(&root, &rel(&["e.bin"])).unwrap();
    assert_eq!((e.size, e.children.len()), (104, 1));
    assert_eq!(root.size, root.children.iter().map(|c| c.size).sum::<u64>());
}

#[test]
fn cloning_a_node_copies_the_whole_tree() {
    let mut prog = Progress::new();
    let root = scan(&drive(), &mut prog);
    let copy = root.clone();
    assert_eq!(format!("{:?}", copy), format!("{:?}", root));
}

#[test]
fn wide_matches_utf16_and_marks_nul() {
    for s in ["", "plain", "Ünïcödé ✓", "emoji 😀 and 𝄞", "a\0b"] {
        let w = wide(s);
        assert_eq!(w.len(), s.encode_utf16().count() + 1);
        assert_eq!(w[w.len() - 1], 0);
        assert_eq!(String::from_utf16(&w[..w.len() - 1]).unwrap(), s);
        assert_eq!(w[..w.len() - 1].contains(&0), s.contains('\0'));
    }
}
