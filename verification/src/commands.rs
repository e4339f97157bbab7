//! What the app's commands decide about the scanned tree, around the file operations
//! that the app performs.

use vstd::prelude::*;
use crate::laws::{
    lemma_listing_tree_well_formed, lemma_well_formed_dominates, lemma_remove_keeps_dominance,
    lemma_rename_keeps_sizes, lemma_move_keeps_total,
};
use crate::scan::{Listing, Progress, listing_tree, listing_bytes, listing_files, listing_denied, wrapped, scan};
use crate::text::{valid_file_name, is_valid_file_name};
use crate::order::{by_size, ranked, size_order, lemma_ranked_is_by_size};
use crate::tree::{
    Node, Tree, find, names, sizes_dominate, well_formed, sorted_everywhere, remove_tree, rename_tree, insert_tree, find_node,
    remove_node, rename_node, insert_node, lemma_children_views,
};

verus! {

/// The part of a path below a base folder (`Path::strip_prefix` of std), where the path
/// lies under it.
pub uninterp spec fn stripped_path(path: Seq<char>, base: Seq<char>) -> Option<Seq<char>>;

/// The components of a path (`Path::components` of std), each as text.
pub uninterp spec fn path_parts(path: Seq<char>) -> Seq<Seq<char>>;

/// The last component of a path (`Path::file_name` of std), where there is one.
pub uninterp spec fn path_file_name(path: Seq<char>) -> Option<Seq<char>>;

/// `Path::strip_prefix` of std, on `path` and `base`, with the rest turned into text.
/// Claims only that the result is the function `stripped_path` of the two texts.
#[verifier::external_body]
fn strip_base(path: &str, base: &str) -> (rest: Option<String>)
    ensures
        stripped_path(path@, base@) == match rest {
            Some(r) => Some(r@),
            None => None::<Seq<char>>,
        },
{
    match std::path::Path::new(path).strip_prefix(base) {
        Ok(r) => Some(r.to_string_lossy().into_owned()),
        Err(_) => None,
    }
}

/// `Path::components` of std, each component turned into text. Claims only that the
/// result is the function `path_parts` of the text.
#[verifier::external_body]
fn components(path: &str) -> (parts: Vec<String>)
    ensures
        names(parts@) == path_parts(path@),
{
    std::path::Path::new(path).components().map(|c| c.as_os_str().to_string_lossy().into_owned()).collect()
}

/// `Path::file_name` of std, turned into text. Claims only that the result is the function
/// `path_file_name` of the text.
#[verifier::external_body]
fn file_name_of(path: &str) -> (name: Option<String>)
    ensures
        path_file_name(path@) == match name {
            Some(n) => Some(n@),
            None => None::<Seq<char>>,
        },
{
    match std::path::Path::new(path).file_name() {
        Some(n) => Some(n.to_string_lossy().into_owned()),
        None => None,
    }
}

/// The names that lead from `base` to `path`, where `path` lies under `base`.
pub open spec fn relative_parts(base: Seq<char>, path: Seq<char>) -> Option<Seq<Seq<char>>> {
    match stripped_path(path, base) {
        Some(rest) => Some(path_parts(rest)),
        None => None,
    }
}

/// The error where no scan is held.
pub open spec fn msg_no_scan() -> Seq<char> {
    "no scan loaded"@
}

/// The error for a path that does not lie under the scanned drive.
pub open spec fn msg_outside() -> Seq<char> {
    "path outside scanned drive"@
}

/// The error for a path that the tree holds nothing at.
pub open spec fn msg_not_found() -> Seq<char> {
    "path not found"@
}

/// The error for an entry deleted from disk that the tree does not hold.
pub open spec fn msg_stale() -> Seq<char> {
    "deleted from disk but not found in scan tree — rescan recommended"@
}

/// The error for a name that no file can have.
pub open spec fn msg_invalid_name() -> Seq<char> {
    "invalid file name"@
}

/// The error for a path with no file name.
pub open spec fn msg_bad_path() -> Seq<char> {
    "bad path"@
}

/// The error for a destination folder that the tree holds nothing at.
pub open spec fn msg_no_destination() -> Seq<char> {
    "destination not in scanned tree"@
}

/// The names that lead from the scanned drive's root `root` to `path`; an error where
/// `path` does not lie under `root`.
pub fn rel_components(root: &str, path: &str) -> (res: Result<Vec<String>, String>)
    ensures
        match relative_parts(root@, path@) {
            None => res matches Err(e) && e@ == msg_outside(),
            Some(p) => res matches Ok(rel) && names(rel@) == p,
        },
{
    match strip_base(path, root) {
        None => Err("path outside scanned drive".to_string()),
        Some(rest) => Ok(components(&rest)),
    }
}

/// A scanned drive: the path of its root and the tree of what it holds. Every node of
/// the tree is at least as big as its children together.
pub struct ScanResult {
    root_path: String,
    root: Node,
}

impl ScanResult {
    #[verifier::type_invariant]
    spec fn sizes_hold(self) -> bool {
        sizes_dominate(self.root@)
    }

    /// The tree of what the drive holds.
    pub closed spec fn tree(self) -> Tree {
        self.root@
    }

    /// The path of the drive's root.
    pub closed spec fn base(self) -> Seq<char> {
        self.root_path@
    }

    /// Scans the listing read from the drive at `root_path`, counting into `prog` as
    /// [`scan`] does.
    pub fn from_listing(root_path: String, listing: &Listing, prog: &mut Progress) -> (sr: ScanResult)
        requires
            listing_bytes(*listing) <= u64::MAX,
        ensures
            sr.tree() == listing_tree(*listing),
            well_formed(sr.tree()),
            sorted_everywhere(sr.tree()),
            sr.base() == root_path@,
            final(prog).files == wrapped(old(prog).files + listing_files(*listing)),
            final(prog).bytes == wrapped(old(prog).bytes + listing_bytes(*listing)),
            final(prog).denied == wrapped(old(prog).denied + listing_denied(*listing)),
    {
        let root = scan(listing, prog);
        proof {
            lemma_listing_tree_well_formed(*listing);
            lemma_well_formed_dominates(root@);
        }
        ScanResult { root_path, root }
    }

    /// The tree of what the drive holds.
    pub fn root(&self) -> (r: &Node)
        ensures
            r@ == self.tree(),
            sizes_dominate(r@),
    {
        proof {
            use_type_invariant(self);
        }
        &self.root
    }

    /// The path of the drive's root.
    pub fn root_path(&self) -> (r: &str)
        ensures
            r@ == self.base(),
    {
        self.root_path.as_str()
    }
}

/// What a listing shows of one entry: its name, size and kind.
pub struct ChildInfo {
    pub name: String,
    pub size: u64,
    pub is_dir: bool,
}

/// `infos` shows the entries `kids`, one for one and in their order.
pub open spec fn shows(infos: Seq<ChildInfo>, kids: Seq<Tree>) -> bool {
    &&& infos.len() == kids.len()
    &&& forall|k: int|
        0 <= k < infos.len() ==> {
            &&& (#[trigger] infos[k]).name@ == kids[k].name
            &&& infos[k].size == kids[k].size
            &&& infos[k].is_dir == kids[k].is_dir
        }
}

/// The sum of the sizes that a listing shows.
pub open spec fn listed_size(infos: Seq<ChildInfo>) -> nat
    decreases infos.len(),
{
    if infos.len() == 0 {
        0
    } else {
        listed_size(infos.drop_last()) + infos.last().size as nat
    }
}

/// The entries of the folder that `rel` leads to, biggest first, entries of one size in
/// the order the tree holds them; an error where `rel` leads nowhere.
pub fn children_of(root: &Node, rel: &[String]) -> (res: Result<Vec<ChildInfo>, String>)
    ensures
        match find(root@, names(rel@)) {
            None => res matches Err(e) && e@ == msg_not_found(),
            Some(n) => res matches Ok(infos) && shows(infos@, by_size(n.children)),
        },
{
    let node = match find_node(root, rel) {
        Some(n) => n,
        None => {
            return Err("path not found".to_string());
        },
    };
    proof {
        lemma_children_views(*node);
    }
    let n = node.children.len();
    let mut keys: Vec<u64> = Vec::new();
    for i in 0..n
        invariant
            n == node.children@.len(),
            keys@.len() == i,
            forall|q: int| 0 <= q < i ==> #[trigger] keys@[q] == node.children@[q].size,
    {
        keys.push(node.children[i].size);
    }
    let order = size_order(&keys);
    let ghost kids = node@.children;
    proof {
        lemma_ranked_is_by_size(kids, keys@, order@);
    }
    let mut infos: Vec<ChildInfo> = Vec::new();
    for k in 0..n
        invariant
            n == node.children@.len(),
            n == kids.len(),
            n == order@.len(),
            kids == node@.children,
            infos@.len() == k,
            ranked(keys@, order@, 0, n as int),
            forall|q: int| 0 <= q < n ==> #[trigger] kids[q] == node.children@[q]@,
            forall|q: int|
                0 <= q < k ==> {
                    &&& (#[trigger] infos@[q]).name@ == kids[order@[q] as int].name
                    &&& infos@[q].size == kids[order@[q] as int].size
                    &&& infos@[q].is_dir == kids[order@[q] as int].is_dir
                },
    {
        let c = &node.children[order[k]];
        infos.push(ChildInfo { name: c.name.clone(), size: c.size, is_dir: c.is_dir });
    }
    Ok(infos)
}

/// The entries of the folder at `path` of the scanned drive, biggest first.
pub fn get_children(tree: &Option<ScanResult>, path: &str) -> (res: Result<Vec<ChildInfo>, String>)
    ensures
        match tree {
            None => res matches Err(e) && e@ == msg_no_scan(),
            Some(sr) => match relative_parts(sr.base(), path@) {
                None => res matches Err(e) && e@ == msg_outside(),
                Some(p) => match find(sr.tree(), p) {
                    None => res matches Err(e) && e@ == msg_not_found(),
                    Some(n) => res matches Ok(infos) && shows(infos@, by_size(n.children)),
                },
            },
        },
{
    let sr = match tree {
        Some(sr) => sr,
        None => {
            return Err("no scan loaded".to_string());
        },
    };
    let rel = rel_components(sr.root_path(), path)?;
    children_of(sr.root(), &rel)
}

/// The names that lead from the scanned drive's root to `path`: an error where nothing
/// is scanned or `path` lies outside the drive. The first check of every file operation.
pub fn scanned_relative(tree: &Option<ScanResult>, path: &str) -> (res: Result<Vec<String>, String>)
    ensures
        match tree {
            None => res matches Err(e) && e@ == msg_no_scan(),
            Some(sr) => match relative_parts(sr.base(), path@) {
                None => res matches Err(e) && e@ == msg_outside(),
                Some(p) => res matches Ok(rel) && names(rel@) == p,
            },
        },
{
    match tree {
        Some(sr) => rel_components(sr.root_path(), path),
        None => Err("no scan loaded".to_string()),
    }
}

/// After an entry was sent to the recycle bin: takes it out of the tree and its size off
/// every folder above it. An error, with the tree unchanged, where the tree does not hold
/// it.
pub fn finish_delete(sr: &mut ScanResult, rel: &[String]) -> (res: Result<(), String>)
    ensures
        final(sr).base() == old(sr).base(),
        final(sr).tree() == remove_tree(old(sr).tree(), names(rel@)),
        match res {
            Ok(()) => rel@.len() > 0 && find(old(sr).tree(), names(rel@)) is Some,
            Err(e) => !(rel@.len() > 0 && find(old(sr).tree(), names(rel@)) is Some) && e@
                == msg_stale(),
        },
{
    proof {
        use_type_invariant(&*sr);
        lemma_remove_keeps_dominance(sr.root@, names(rel@));
    }
    let mut root = Node { name: String::new(), size: 0, is_dir: true, children: Vec::new() };
    proof {
        lemma_children_views(root);
    }
    std::mem::swap(&mut root, &mut sr.root);
    let removed = remove_node(&mut root, rel);
    sr.root = root;
    match removed {
        Some(_) => Ok(()),
        None => Err("deleted from disk but not found in scan tree — rescan recommended".to_string()),
    }
}

/// Before a rename on disk: an error where `new_name` is empty or holds a character that
/// no file name can hold, where nothing is scanned, or where `path` lies outside the
/// drive; else the names that lead to the entry.
pub fn prepare_rename(tree: &Option<ScanResult>, path: &str, new_name: &str) -> (res: Result<
    Vec<String>,
    String,
>)
    ensures
        !valid_file_name(new_name@) ==> (res matches Err(e) && e@ == msg_invalid_name()),
        valid_file_name(new_name@) ==> match tree {
            None => res matches Err(e) && e@ == msg_no_scan(),
            Some(sr) => match relative_parts(sr.base(), path@) {
                None => res matches Err(e) && e@ == msg_outside(),
                Some(p) => res matches Ok(rel) && names(rel@) == p,
            },
        },
{
    if !is_valid_file_name(new_name) {
        return Err("invalid file name".to_string());
    }
    scanned_relative(tree, path)
}

/// After a rename on disk: gives the entry its new name in the tree. `false`, with the
/// tree unchanged, where the tree does not hold it.
pub fn finish_rename(sr: &mut ScanResult, rel: &[String], new_name: &str) -> (done: bool)
    ensures
        final(sr).base() == old(sr).base(),
        final(sr).tree() == rename_tree(old(sr).tree(), names(rel@), new_name@),
        done == (rel@.len() > 0 && find(old(sr).tree(), names(rel@)) is Some),
{
    proof {
        use_type_invariant(&*sr);
        lemma_rename_keeps_sizes(sr.root@, names(rel@), new_name@);
    }
    let mut root = Node { name: String::new(), size: 0, is_dir: true, children: Vec::new() };
    proof {
        lemma_children_views(root);
    }
    std::mem::swap(&mut root, &mut sr.root);
    let done = rename_node(&mut root, rel, new_name);
    sr.root = root;
    done
}

/// What a move needs once it is allowed: the entry's file name, and the names that lead
/// to the entry and to the folder it goes to.
pub struct MovePlan {
    pub name: String,
    pub rel: Vec<String>,
    pub dest_rel: Vec<String>,
}

/// Before a move on disk: an error where `path` has no file name, where nothing is
/// scanned, where `path` or `dest_dir` lies outside the drive, or where the tree holds
/// nothing at `dest_dir`; else what the move needs.
pub fn prepare_move(tree: &Option<ScanResult>, path: &str, dest_dir: &str) -> (res: Result<
    MovePlan,
    String,
>)
    ensures
        path_file_name(path@) is None ==> (res matches Err(e) && e@ == msg_bad_path()),
        path_file_name(path@) matches Some(file) ==> match tree {
            None => res matches Err(e) && e@ == msg_no_scan(),
            Some(sr) => match (relative_parts(sr.base(), path@), relative_parts(sr.base(), dest_dir@)) {
                (None, _) => res matches Err(e) && e@ == msg_outside(),
                (Some(_), None) => res matches Err(e) && e@ == msg_outside(),
                (Some(p), Some(d)) => if find(sr.tree(), d) is None {
                    res matches Err(e) && e@ == msg_no_destination()
                } else {
                    res matches Ok(plan) && plan.name@ == file && names(plan.rel@) == p && names(
                        plan.dest_rel@,
                    ) == d
                },
            },
        },
{
    let name = match file_name_of(path) {
        Some(n) => n,
        None => {
            return Err("bad path".to_string());
        },
    };
    let sr = match tree {
        Some(sr) => sr,
        None => {
            return Err("no scan loaded".to_string());
        },
    };
    let rel = rel_components(sr.root_path(), path)?;
    let dest_rel = rel_components(sr.root_path(), dest_dir)?;
    if find_node(sr.root(), &dest_rel).is_none() {
        return Err("destination not in scanned tree".to_string());
    }
    Ok(MovePlan { name, rel, dest_rel })
}

/// After a move on disk: takes the entry out of the tree, with its size off every folder
/// above it, and puts it into the folder at `dest_rel`, with its size added on the way
/// and that folder's entries biggest first again. The tree is unchanged where it does not
/// hold the entry.
pub fn finish_move(sr: &mut ScanResult, rel: &[String], dest_rel: &[String])
    ensures
        final(sr).base() == old(sr).base(),
        final(sr).tree() == if rel@.len() > 0 && find(old(sr).tree(), names(rel@)) is Some {
            insert_tree(
                remove_tree(old(sr).tree(), names(rel@)),
                names(dest_rel@),
                find(old(sr).tree(), names(rel@))->0,
            )
        } else {
            old(sr).tree()
        },
{
    let ghost t = sr.root@;
    proof {
        use_type_invariant(&*sr);
        lemma_remove_keeps_dominance(t, names(rel@));
    }
    let mut root = Node { name: String::new(), size: 0, is_dir: true, children: Vec::new() };
    proof {
        lemma_children_views(root);
    }
    std::mem::swap(&mut root, &mut sr.root);
    match remove_node(&mut root, rel) {
        Some(node) => {
            proof {
                lemma_move_keeps_total(t, names(rel@), names(dest_rel@));
            }
            insert_node(&mut root, dest_rel, node);
        },
        None => {},
    }
    sr.root = root;
}

} // verus!
