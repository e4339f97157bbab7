//! Building the scan tree from what a walk of the drive found.

use vstd::prelude::*;
use crate::tree::{Node, Tree, views, lemma_children_views, well_formed, sorted_everywhere, tree_files};
use crate::order::{by_size, sort_by_size, sum_sizes};

verus! {

/// What one entry of a folder turned out to be when it was read.
pub enum Entry {
    /// A file, with its length where its metadata could be read.
    File { name: String, size: Option<u64> },
    /// A folder, with what was read inside it.
    Dir(Listing),
    /// A symbolic link; never followed, so no cycle and no file is counted twice.
    Symlink,
    /// An entry whose type could not be read.
    Unreadable,
}

/// A folder as read from the drive: its name, and its entries where it could be read.
pub struct Listing {
    pub name: String,
    pub entries: Option<Vec<Entry>>,
}

/// Counters of a scan: files seen, bytes in them, and folders that could not be read.
pub struct Progress {
    pub files: u64,
    pub bytes: u64,
    pub denied: u64,
}

impl Progress {
    /// All counters at zero.
    pub fn new() -> (p: Progress)
        ensures
            p.files == 0,
            p.bytes == 0,
            p.denied == 0,
    {
        Progress { files: 0, bytes: 0, denied: 0 }
    }
}

impl Default for Progress {
    fn default() -> (p: Progress)
        ensures
            p.files == 0,
            p.bytes == 0,
            p.denied == 0,
    {
        Progress::new()
    }
}

/// The size a file counts with: its length, or 0 where that could not be read.
pub open spec fn file_size(size: Option<u64>) -> nat {
    match size {
        Some(s) => s as nat,
        None => 0,
    }
}

/// The tree that a scan builds from a folder listing: a folder node whose children are
/// the files and folders found in it (links and unreadable entries left out), biggest
/// first, and whose size is the sum of theirs.
pub open spec fn listing_tree(l: Listing) -> Tree
    decreases l,
{
    match l.entries {
        None => Tree { name: l.name@, size: 0, is_dir: true, children: Seq::empty() },
        Some(v) => {
            let kids = entries_trees(v@);
            Tree { name: l.name@, size: sum_sizes(kids), is_dir: true, children: by_size(kids) }
        },
    }
}

/// The nodes that the entries of a folder become, in the order the entries were read.
pub open spec fn entries_trees(s: Seq<Entry>) -> Seq<Tree>
    decreases s,
{
    if s.len() == 0 {
        Seq::empty()
    } else {
        let rest = entries_trees(s.drop_last());
        match s.last() {
            Entry::File { name, size } => rest.push(
                Tree { name: name@, size: file_size(size), is_dir: false, children: Seq::empty() },
            ),
            Entry::Dir(l) => rest.push(listing_tree(l)),
            _ => rest,
        }
    }
}

/// Number of files found in a folder listing, at any depth.
pub open spec fn listing_files(l: Listing) -> nat
    decreases l,
{
    match l.entries {
        None => 0,
        Some(v) => entries_files(v@),
    }
}

/// Number of files found in the entries of a folder, at any depth.
pub open spec fn entries_files(s: Seq<Entry>) -> nat
    decreases s,
{
    if s.len() == 0 {
        0
    } else {
        entries_files(s.drop_last()) + match s.last() {
            Entry::File { .. } => 1,
            Entry::Dir(l) => listing_files(l),
            _ => 0,
        }
    }
}

/// Sum of the sizes of the files found in a folder listing, at any depth.
pub open spec fn listing_bytes(l: Listing) -> nat
    decreases l,
{
    match l.entries {
        None => 0,
        Some(v) => entries_bytes(v@),
    }
}

/// Sum of the sizes of the files found in the entries of a folder, at any depth.
pub open spec fn entries_bytes(s: Seq<Entry>) -> nat
    decreases s,
{
    if s.len() == 0 {
        0
    } else {
        entries_bytes(s.drop_last()) + match s.last() {
            Entry::File { size, .. } => file_size(size),
            Entry::Dir(l) => listing_bytes(l),
            _ => 0,
        }
    }
}

/// Number of folders in a listing, itself included, that could not be read.
pub open spec fn listing_denied(l: Listing) -> nat
    decreases l,
{
    match l.entries {
        None => 1,
        Some(v) => entries_denied(v@),
    }
}

/// Number of folders among the entries of a folder, at any depth, that could not be read.
pub open spec fn entries_denied(s: Seq<Entry>) -> nat
    decreases s,
{
    if s.len() == 0 {
        0
    } else {
        entries_denied(s.drop_last()) + match s.last() {
            Entry::Dir(l) => listing_denied(l),
            _ => 0,
        }
    }
}


/// `x` taken modulo 2^64, as a counter that wraps around holds it.
pub open spec fn wrapped(x: int) -> int {
    x % 0x1_0000_0000_0000_0000
}

proof fn lemma_wrapping_step(cur: u64, start: int, done: int, inc: u64)
    requires
        cur == wrapped(start + done),
        start >= 0,
        done >= 0,
    ensures
        cur.wrapping_add(inc) == wrapped(start + done + inc),
{
    vstd::arithmetic::div_mod::lemma_add_mod_noop_right(inc as int, start + done, 0x1_0000_0000_0000_0000);
    assert(cur.wrapping_add(inc) == wrapped(cur + inc));
}

proof fn lemma_wrapping_join(cur: u64, start: int, done: int, more: int)
    requires
        cur == wrapped(start + done),
        start >= 0,
        done >= 0,
        more >= 0,
    ensures
        wrapped(cur + more) == wrapped(start + done + more),
{
    vstd::arithmetic::div_mod::lemma_add_mod_noop_right(more, start + done, 0x1_0000_0000_0000_0000);
}

proof fn lemma_entries_bytes_prefix(s: Seq<Entry>, i: int)
    requires
        0 <= i <= s.len(),
    ensures
        entries_bytes(s.take(i)) <= entries_bytes(s),
    decreases s.len(),
{
    if i < s.len() {
        assert(s.take(i) =~= s.drop_last().take(i));
        lemma_entries_bytes_prefix(s.drop_last(), i);
    } else {
        assert(s.take(i) =~= s);
    }
}

/// Builds the scan tree of a folder listing: files and folders become nodes, links and
/// unreadable entries are left out, each folder's size is the sum of its children's and
/// its children are listed biggest first. Each file found adds one to `prog.files` and
/// its size to `prog.bytes`, each folder that could not be read one to `prog.denied`;
/// the counters wrap around as atomic counters do.
pub fn scan(listing: &Listing, prog: &mut Progress) -> (root: Node)
    requires
        listing_bytes(*listing) <= u64::MAX,
    ensures
        root@ == listing_tree(*listing),
        root.is_dir,
        root.name@ == listing.name@,
        tree_files(root@) == listing_files(*listing),
        root.size == listing_bytes(*listing),
        well_formed(root@),
        sorted_everywhere(root@),
        final(prog).files == wrapped(old(prog).files + listing_files(*listing)),
        final(prog).bytes == wrapped(old(prog).bytes + listing_bytes(*listing)),
        final(prog).denied == wrapped(old(prog).denied + listing_denied(*listing)),
    decreases *listing,
{
    let ghost start = *old(prog);
    match &listing.entries {
        None => {
            proof {
                lemma_wrapping_step(prog.denied, start.denied as int, 0, 1);
                assert(wrapped(start.files as int) == start.files);
                assert(wrapped(start.bytes as int) == start.bytes);
            }
            prog.denied = prog.denied.wrapping_add(1);
            let root = Node { name: listing.name.clone(), size: 0, is_dir: true, children: Vec::new() };
            proof {
                lemma_children_views(root);
                assert(root@.children =~= Seq::<Tree>::empty());
                crate::laws::lemma_listing_tree_well_formed(*listing);
                crate::laws::lemma_listing_tree_files(*listing);
            }
            root
        },
        Some(entries) => {
            let ghost es = entries@;
            let mut kids: Vec<Node> = Vec::new();
            let mut total: u64 = 0;
            let n = entries.len();
            proof {
                assert(es.take(0) =~= Seq::<Entry>::empty());
                assert(wrapped(start.files as int) == start.files);
                assert(wrapped(start.bytes as int) == start.bytes);
                assert(wrapped(start.denied as int) == start.denied);
            }
            for i in 0..n
                invariant
                    n == es.len(),
                    es == entries@,
                    listing.entries == Some(*entries),
                    entries_bytes(es) <= u64::MAX,
                    views(kids@) == entries_trees(es.take(i as int)),
                    total == entries_bytes(es.take(i as int)),
                    prog.files == wrapped(start.files + entries_files(es.take(i as int))),
                    prog.bytes == wrapped(start.bytes + entries_bytes(es.take(i as int))),
                    prog.denied == wrapped(start.denied + entries_denied(es.take(i as int))),
            {
                let ghost head = es.take(i as int);
                let ghost next = es.take(i + 1);
                proof {
                    assert(next.drop_last() =~= head);
                    assert(next.last() == es[i as int]);
                    lemma_entries_bytes_prefix(es, i + 1);
                }
                match &entries[i] {
                    Entry::File { name, size } => {
                        let sz: u64 = match size {
                            Some(s) => *s,
                            None => 0,
                        };
                        proof {
                            lemma_wrapping_step(prog.files, start.files as int, entries_files(head) as int, 1);
                            lemma_wrapping_step(prog.bytes, start.bytes as int, entries_bytes(head) as int, sz);
                        }
                        prog.files = prog.files.wrapping_add(1);
                        prog.bytes = prog.bytes.wrapping_add(sz);
                        let leaf = Node { name: name.clone(), size: sz, is_dir: false, children: Vec::new() };
                        proof {
                            lemma_children_views(leaf);
                            assert(leaf@.children =~= Seq::<Tree>::empty());
                        }
                        total = total + sz;
                        let ghost before = kids@;
                        kids.push(leaf);
                        proof {
                            assert(views(kids@) =~= views(before).push(leaf@));
                            assert(entries_trees(next).drop_last() =~= entries_trees(head));
                        }
                    },
                    Entry::Dir(sub) => {
                        proof {
                            assert(listing_bytes(*sub) <= u64::MAX);
                            assert(decreases_to!(*listing => listing.entries));
                            assert(listing.entries->0 == *entries);
                            assert(decreases_to!(listing.entries => listing.entries->0));
                            assert(decreases_to!(*entries => entries@[i as int]));
                            assert(decreases_to!(entries@[i as int] => *sub));
                        }
                        let ghost mid = *prog;
                        let child = scan(sub, prog);
                        proof {
                            lemma_wrapping_join(mid.files, start.files as int, entries_files(head) as int, listing_files(*sub) as int);
                            lemma_wrapping_join(mid.bytes, start.bytes as int, entries_bytes(head) as int, listing_bytes(*sub) as int);
                            lemma_wrapping_join(mid.denied, start.denied as int, entries_denied(head) as int, listing_denied(*sub) as int);
                            crate::laws::lemma_listing_tree_size(*sub);
                        }
                        total = total + child.size;
                        let ghost before = kids@;
                        kids.push(child);
                        proof {
                            assert(views(kids@) =~= views(before).push(child@));
                        }
                    },
                    _ => {
                        proof {
                            assert(entries_trees(next) == entries_trees(head));
                        }
                    },
                }
            }
            proof {
                assert(es.take(n as int) =~= es);
                crate::laws::lemma_entries_trees_size(es);
            }
            let children = sort_by_size(kids);
            let root = Node { name: listing.name.clone(), size: total, is_dir: true, children };
            proof {
                lemma_children_views(root);
                crate::laws::lemma_listing_tree_well_formed(*listing);
                crate::laws::lemma_listing_tree_files(*listing);
            }
            root
        },
    }
}


/// The total size of the files in a folder listing, or `None` where it does not fit in
/// a `u64` (the one case in which a scan cannot sum its sizes).
pub fn total_bytes(listing: &Listing) -> (total: Option<u64>)
    ensures
        match total {
            Some(b) => b == listing_bytes(*listing),
            None => listing_bytes(*listing) > u64::MAX,
        },
    decreases *listing,
{
    match &listing.entries {
        None => Some(0),
        Some(entries) => {
            let ghost es = entries@;
            let mut acc: u64 = 0;
            let n = entries.len();
            proof {
                assert(es.take(0) =~= Seq::<Entry>::empty());
            }
            for i in 0..n
                invariant
                    n == es.len(),
                    es == entries@,
                    listing.entries == Some(*entries),
                    acc == entries_bytes(es.take(i as int)),
            {
                let ghost head = es.take(i as int);
                let ghost next = es.take(i + 1);
                proof {
                    assert(next.drop_last() =~= head);
                    assert(next.last() == es[i as int]);
                    lemma_entries_bytes_prefix(es, i + 1);
                    assert(es.take(n as int) =~= es);
                }
                let more: u64 = match &entries[i] {
                    Entry::File { size, .. } => match size {
                        Some(s) => *s,
                        None => 0,
                    },
                    Entry::Dir(sub) => {
                        proof {
                            assert(listing.entries->0 == *entries);
                            assert(decreases_to!(*listing => listing.entries));
                            assert(decreases_to!(listing.entries => listing.entries->0));
                            assert(decreases_to!(*entries => entries@[i as int]));
                            assert(decreases_to!(entries@[i as int] => *sub));
                        }
                        match total_bytes(sub) {
                            Some(b) => b,
                            None => {
                                return None;
                            },
                        }
                    },
                    _ => 0,
                };
                match acc.checked_add(more) {
                    Some(sum) => {
                        acc = sum;
                    },
                    None => {
                        return None;
                    },
                }
            }
            proof {
                assert(es.take(n as int) =~= es);
            }
            Some(acc)
        },
    }
}

} // verus!
