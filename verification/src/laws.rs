//! Properties that hold across the operations on the scan tree.

use vstd::prelude::*;
use crate::order::{
    sum_sizes, sorted_desc, by_size, order_witness, perm_witness, split_point, lemma_by_size, lemma_sum_remove,
    lemma_size_order_exists, lemma_size_order_sum, lemma_size_order_sorted,
};
use crate::commands::{ChildInfo, listed_size, shows};
use crate::scan::{Entry, Listing, listing_tree, entries_trees, listing_bytes, entries_bytes, listing_files, entries_files};
use crate::tree::{
    Tree, find, has_named, first_named, is_first_named, lemma_first_named, well_formed,
    sorted_everywhere, sizes_dominate, folder_sums, tree_files, forest_files, removable, sizes_cover, remove_tree, rename_tree,
    insert_tree, has_room,
};

verus! {

/// A scanned folder's size is the total size of the files found in it, at any depth.
pub proof fn lemma_listing_tree_size(l: Listing)
    ensures
        listing_tree(l).size == listing_bytes(l),
    decreases l,
{
    match l.entries {
        None => {},
        Some(v) => {
            lemma_entries_trees_size(v@);
        },
    }
}

/// The nodes a folder's entries become hold together the size of the files in them.
pub proof fn lemma_entries_trees_size(s: Seq<Entry>)
    ensures
        sum_sizes(entries_trees(s)) == entries_bytes(s),
    decreases s,
{
    if s.len() > 0 {
        lemma_entries_trees_size(s.drop_last());
        let rest = entries_trees(s.drop_last());
        match s.last() {
            Entry::File { name, size } => {
                assert(entries_trees(s).drop_last() =~= rest);
            },
            Entry::Dir(l) => {
                lemma_listing_tree_size(l);
                assert(entries_trees(s).drop_last() =~= rest);
            },
            _ => {},
        }
    }
}

/// Replacing one entry changes the sum of the sizes by the difference.
pub proof fn lemma_sum_update(s: Seq<Tree>, i: int, t: Tree)
    requires
        0 <= i < s.len(),
    ensures
        sum_sizes(s.update(i, t)) + s[i].size == sum_sizes(s) + t.size,
{
    lemma_sum_remove(s, i);
    lemma_sum_remove(s.update(i, t), i);
    assert(s.update(i, t).remove(i) =~= s.remove(i));
}

/// A scan builds a tree in which every folder's size is the sum of its children's,
/// files have no children, and every level is listed biggest first.
pub proof fn lemma_listing_tree_well_formed(l: Listing)
    ensures
        well_formed(listing_tree(l)),
        sorted_everywhere(listing_tree(l)),
    decreases l,
{
    match l.entries {
        None => {},
        Some(v) => {
            let kids = entries_trees(v@);
            lemma_entries_trees_well_formed(v@);
            lemma_size_order_exists(kids);
            lemma_size_order_sum(kids, by_size(kids));
            lemma_size_order_sorted(kids, by_size(kids));
            let o = by_size(kids);
            let p = choose|p: Seq<int>| order_witness(kids, o, p);
            assert forall|k: int| 0 <= k < o.len() implies well_formed(#[trigger] o[k]) && sorted_everywhere(o[k]) by {
                assert(o[k] == kids[p[k]]);
            }
        },
    }
}

pub proof fn lemma_entries_trees_well_formed(s: Seq<Entry>)
    ensures
        forall|k: int| 0 <= k < entries_trees(s).len() ==> well_formed(#[trigger] entries_trees(s)[k])
            && sorted_everywhere(entries_trees(s)[k]),
    decreases s,
{
    if s.len() > 0 {
        lemma_entries_trees_well_formed(s.drop_last());
        let rest = entries_trees(s.drop_last());
        match s.last() {
            Entry::File { name, size } => {
                let leaf = entries_trees(s).last();
                assert(leaf.children.len() == 0);
                assert(sorted_desc(leaf.children));
                assert(well_formed(leaf));
                assert(sorted_everywhere(leaf));
            },
            Entry::Dir(l) => {
                lemma_listing_tree_well_formed(l);
            },
            _ => {},
        }
        assert forall|k: int| 0 <= k < entries_trees(s).len() implies well_formed(#[trigger] entries_trees(s)[k])
            && sorted_everywhere(entries_trees(s)[k]) by {
            if k < rest.len() {
                assert(entries_trees(s)[k] == rest[k]);
            }
        }
    }
}


/// A child is no bigger than all the children together.
pub proof fn lemma_child_in_sum(s: Seq<Tree>, i: int)
    requires
        0 <= i < s.len(),
    ensures
        s[i].size <= sum_sizes(s),
{
    lemma_sum_remove(s, i);
}

/// In a well-formed tree every node is at least as big as its children together.
pub proof fn lemma_well_formed_dominates(t: Tree)
    requires
        well_formed(t),
    ensures
        sizes_dominate(t),
    decreases t,
{
    assert forall|i: int| 0 <= i < t.children.len() implies sizes_dominate(#[trigger] t.children[i]) by {
        lemma_well_formed_dominates(t.children[i]);
    }
}

/// What a path leads to in a tree keeps the tree's properties, and is no bigger than it.
pub proof fn lemma_find_inherits(t: Tree, path: Seq<Seq<char>>)
    requires
        find(t, path) is Some,
    ensures
        sizes_dominate(t) ==> sizes_dominate(find(t, path)->0) && find(t, path)->0.size <= t.size,
        well_formed(t) ==> well_formed(find(t, path)->0),
    decreases path.len(),
{
    if path.len() > 0 {
        let i = first_named(t.children, path[0]);
        lemma_first_named(t.children, path[0]);
        lemma_find_inherits(t.children[i], path.drop_first());
        lemma_child_in_sum(t.children, i);
    }
}

/// In a tree where every node holds its children, removing an entry never takes a size
/// below zero, takes exactly the removed size off the root, and keeps every node holding
/// its children.
pub proof fn lemma_remove_keeps_dominance(t: Tree, path: Seq<Seq<char>>)
    requires
        sizes_dominate(t),
    ensures
        removable(t, path),
        sizes_dominate(remove_tree(t, path)),
        find(t, path) is Some && path.len() > 0 ==> remove_tree(t, path).size + find(t, path)->0.size
            == t.size,
    decreases path.len(),
{
    if path.len() > 0 && find(t, path) is Some {
        lemma_first_named(t.children, path[0]);
        let i = first_named(t.children, path[0]);
        let c = t.children[i];
        lemma_child_in_sum(t.children, i);
        let r = remove_tree(t, path);
        if path.len() == 1 {
            assert(sizes_cover(c, path.drop_first(), c.size));
            lemma_sum_remove(t.children, i);
            assert forall|j: int| 0 <= j < r.children.len() implies sizes_dominate(#[trigger] r.children[j]) by {
                if j < i {
                    assert(r.children[j] == t.children[j]);
                } else {
                    assert(r.children[j] == t.children[j + 1]);
                }
            }
        } else {
            let tail = path.drop_first();
            lemma_remove_keeps_dominance(c, tail);
            assert(find(t, path) == find(c, tail));
            assert(sizes_cover(c, tail, find(c, tail)->0.size));
            lemma_find_inherits(c, tail);
            lemma_sum_update(t.children, i, remove_tree(c, tail));
            assert forall|j: int| 0 <= j < r.children.len() implies sizes_dominate(#[trigger] r.children[j]) by {
                if j != i {
                    assert(r.children[j] == t.children[j]);
                }
            }
        }
    }
}

/// In a well-formed tree, removing an entry never takes a size below zero, takes exactly
/// the removed size off the root, and leaves a well-formed tree.
pub proof fn lemma_remove_keeps_well_formed(t: Tree, path: Seq<Seq<char>>)
    requires
        well_formed(t),
    ensures
        removable(t, path),
        well_formed(remove_tree(t, path)),
        find(t, path) is Some && path.len() > 0 ==> remove_tree(t, path).size + find(t, path)->0.size
            == t.size,
    decreases path.len(),
{
    lemma_well_formed_dominates(t);
    lemma_remove_keeps_dominance(t, path);
    if path.len() > 0 && find(t, path) is Some {
        lemma_first_named(t.children, path[0]);
        let i = first_named(t.children, path[0]);
        let c = t.children[i];
        let r = remove_tree(t, path);
        assert(t.is_dir);
        if path.len() == 1 {
            lemma_sum_remove(t.children, i);
            assert forall|j: int| 0 <= j < r.children.len() implies well_formed(#[trigger] r.children[j]) by {
                if j < i {
                    assert(r.children[j] == t.children[j]);
                } else {
                    assert(r.children[j] == t.children[j + 1]);
                }
            }
        } else {
            let tail = path.drop_first();
            lemma_remove_keeps_well_formed(c, tail);
            lemma_sum_update(t.children, i, remove_tree(c, tail));
            assert forall|j: int| 0 <= j < r.children.len() implies well_formed(#[trigger] r.children[j]) by {
                if j != i {
                    assert(r.children[j] == t.children[j]);
                }
            }
        }
    }
}

/// Where every node holds its children and the root can grow by `amount`, so can every
/// node on any path.
pub proof fn lemma_dominance_room(t: Tree, path: Seq<Seq<char>>, amount: nat)
    requires
        sizes_dominate(t),
        t.size + amount <= u64::MAX,
    ensures
        has_room(t, path, amount),
    decreases path.len(),
{
    if path.len() > 0 && has_named(t.children, path[0]) {
        lemma_first_named(t.children, path[0]);
        let i = first_named(t.children, path[0]);
        lemma_child_in_sum(t.children, i);
        lemma_dominance_room(t.children[i], path.drop_first(), amount);
    }
}

/// Putting an entry into a tree, whether or not the path leads anywhere, adds its size to
/// the root and keeps every node holding its children.
pub proof fn lemma_insert_keeps_dominance(t: Tree, path: Seq<Seq<char>>, item: Tree)
    requires
        sizes_dominate(t),
        sizes_dominate(item),
    ensures
        sizes_dominate(insert_tree(t, path, item)),
        insert_tree(t, path, item).size == t.size + item.size,
    decreases path.len(),
{
    let u = insert_tree(t, path, item);
    if path.len() == 0 {
        let x = t.children.push(item);
        lemma_size_order_exists(x);
        lemma_size_order_sum(x, by_size(x));
        assert(x.drop_last() =~= t.children);
        let p = choose|p: Seq<int>| order_witness(x, by_size(x), p);
        assert forall|k: int| 0 <= k < u.children.len() implies sizes_dominate(#[trigger] u.children[k]) by {
            assert(u.children[k] == x[p[k]]);
            if p[k] < t.children.len() {
                assert(x[p[k]] == t.children[p[k]]);
            }
        }
    } else if has_named(t.children, path[0]) {
        lemma_first_named(t.children, path[0]);
        let i = first_named(t.children, path[0]);
        let c = t.children[i];
        lemma_insert_keeps_dominance(c, path.drop_first(), item);
        lemma_sum_update(t.children, i, insert_tree(c, path.drop_first(), item));
        assert forall|k: int| 0 <= k < u.children.len() implies sizes_dominate(#[trigger] u.children[k]) by {
            if k != i {
                assert(u.children[k] == t.children[k]);
            }
        }
    } else {
        assert forall|k: int| 0 <= k < u.children.len() implies sizes_dominate(#[trigger] u.children[k]) by {
            assert(u.children[k] == t.children[k]);
        }
    }
}

/// Putting a well-formed entry into a folder of a well-formed tree leaves a well-formed
/// tree, the root grown by the entry's size, and that folder's children biggest first.
pub proof fn lemma_insert_keeps_well_formed(t: Tree, path: Seq<Seq<char>>, item: Tree)
    requires
        well_formed(t),
        well_formed(item),
        find(t, path) matches Some(d) && d.is_dir,
    ensures
        well_formed(insert_tree(t, path, item)),
        insert_tree(t, path, item).size == t.size + item.size,
        find(insert_tree(t, path, item), path) matches Some(d) && sorted_desc(d.children)
            && d.size == find(t, path)->0.size + item.size,
    decreases path.len(),
{
    let u = insert_tree(t, path, item);
    if path.len() == 0 {
        let x = t.children.push(item);
        lemma_size_order_exists(x);
        lemma_size_order_sum(x, by_size(x));
        lemma_size_order_sorted(x, by_size(x));
        assert(x.drop_last() =~= t.children);
        let p = choose|p: Seq<int>| order_witness(x, by_size(x), p);
        assert forall|k: int| 0 <= k < u.children.len() implies well_formed(#[trigger] u.children[k]) by {
            assert(u.children[k] == x[p[k]]);
            if p[k] < t.children.len() {
                assert(x[p[k]] == t.children[p[k]]);
            }
        }
    } else {
        lemma_first_named(t.children, path[0]);
        let i = first_named(t.children, path[0]);
        let c = t.children[i];
        let tail = path.drop_first();
        assert(t.is_dir);
        lemma_insert_keeps_well_formed(c, tail, item);
        lemma_sum_update(t.children, i, insert_tree(c, tail, item));
        assert forall|k: int| 0 <= k < u.children.len() implies well_formed(#[trigger] u.children[k]) by {
            if k != i {
                assert(u.children[k] == t.children[k]);
            }
        }
        assert(is_first_named(u.children, path[0], i)) by {
            assert forall|j: int| 0 <= j < i implies #[trigger] u.children[j].name != path[0] by {
                assert(u.children[j] == t.children[j]);
            }
        }
        lemma_first_named(u.children, path[0]);
    }
}

/// Renaming an entry changes no size, keeps a tree well-formed, keeps every node holding
/// its children and every level in biggest-first order, and afterwards the new name leads
/// to an entry.
pub proof fn lemma_rename_keeps_sizes(t: Tree, path: Seq<Seq<char>>, name: Seq<char>)
    ensures
        rename_tree(t, path, name).size == t.size,
        rename_tree(t, path, name).is_dir == t.is_dir,
        path.len() > 0 ==> rename_tree(t, path, name).name == t.name,
        well_formed(t) ==> well_formed(rename_tree(t, path, name)),
        sizes_dominate(t) ==> sizes_dominate(rename_tree(t, path, name)),
        sorted_everywhere(t) ==> sorted_everywhere(rename_tree(t, path, name)),
        path.len() > 0 && find(t, path) is Some ==> find(
            rename_tree(t, path, name),
            path.drop_last().push(name),
        ) is Some,
    decreases path.len(),
{
    let u = rename_tree(t, path, name);
    if path.len() > 0 && find(t, path) is Some {
        lemma_first_named(t.children, path[0]);
        let i = first_named(t.children, path[0]);
        let c = t.children[i];
        let tail = path.drop_first();
        if path.len() > 1 {
            lemma_rename_keeps_sizes(c, tail, name);
        }
        let c2 = u.children[i];
        assert(c2.size == c.size && c2.is_dir == c.is_dir);
        lemma_sum_update(t.children, i, c2);
        if well_formed(t) {
            if path.len() == 1 {
                assert(well_formed(c));
                assert(c2.children == c.children);
                assert(well_formed(c2));
            }
            assert forall|k: int| 0 <= k < u.children.len() implies well_formed(#[trigger] u.children[k]) by {
                if k != i {
                    assert(u.children[k] == t.children[k]);
                }
            }
        }
        if sizes_dominate(t) {
            if path.len() == 1 {
                assert(sizes_dominate(c));
                assert(c2.children == c.children);
                assert(sizes_dominate(c2));
            }
            assert forall|k: int| 0 <= k < u.children.len() implies sizes_dominate(#[trigger] u.children[k]) by {
                if k != i {
                    assert(u.children[k] == t.children[k]);
                }
            }
        }
        if sorted_everywhere(t) {
            if path.len() == 1 {
                assert(sorted_everywhere(c));
                assert(c2.children == c.children);
                assert(sorted_everywhere(c2));
            }
            assert forall|k: int| 0 <= k < u.children.len() implies sorted_everywhere(#[trigger] u.children[k]) by {
                if k != i {
                    assert(u.children[k] == t.children[k]);
                }
            }
            assert forall|k: int, l: int| 0 <= k < l < u.children.len() implies #[trigger] u.children[k].size >= #[trigger] u.children[l].size by {
                assert(t.children[k].size >= t.children[l].size);
            }
        }
        let q = path.drop_last().push(name);
        if path.len() == 1 {
            assert(u.children[i].name == name);
            assert(q[0] == name);
            assert(has_named(u.children, name));
            lemma_first_named(u.children, name);
            assert(q.drop_first().len() == 0);
            assert(find(u.children[first_named(u.children, name)], q.drop_first()) is Some);
        } else {
            assert(q[0] == path[0]);
            assert(is_first_named(u.children, path[0], i)) by {
                assert forall|j: int| 0 <= j < i implies #[trigger] u.children[j].name != path[0] by {
                    assert(u.children[j] == t.children[j]);
                }
            }
            lemma_first_named(u.children, path[0]);
            assert(q.drop_first() =~= tail.drop_last().push(name));
            assert(u.children[i] == rename_tree(c, tail, name));
            assert(find(u.children[i], q.drop_first()) is Some);
        }
    }
}

/// Moving an entry (taking it out, then putting it into a folder) in a tree whose nodes
/// hold their children never overflows, leaves the root's size as it was, and keeps every
/// node holding its children; in a well-formed tree, with a folder to move to, it leaves
/// a well-formed tree.
pub proof fn lemma_move_keeps_total(t: Tree, from: Seq<Seq<char>>, to: Seq<Seq<char>>)
    requires
        sizes_dominate(t),
        t.size <= u64::MAX,
        from.len() > 0,
        find(t, from) is Some,
    ensures
        ({
            let x = find(t, from)->0;
            let r = remove_tree(t, from);
            &&& removable(t, from)
            &&& r.size + x.size == t.size
            &&& has_room(r, to, x.size)
            &&& insert_tree(r, to, x).size == t.size
            &&& sizes_dominate(insert_tree(r, to, x))
            &&& (well_formed(t) && (find(r, to) matches Some(d) && d.is_dir)) ==> well_formed(
                insert_tree(r, to, x),
            )
        }),
{
    let x = find(t, from)->0;
    let r = remove_tree(t, from);
    lemma_remove_keeps_dominance(t, from);
    lemma_find_inherits(t, from);
    lemma_dominance_room(r, to, x.size);
    lemma_insert_keeps_dominance(r, to, x);
    if well_formed(t) && (find(r, to) matches Some(d) && d.is_dir) {
        lemma_remove_keeps_well_formed(t, from);
        lemma_insert_keeps_well_formed(r, to, x);
    }
}


/// Renaming an entry to a name that its folder does not hold yet, then renaming it back,
/// gives the tree it started from.
pub proof fn lemma_rename_back(t: Tree, path: Seq<Seq<char>>, name: Seq<char>)
    requires
        path.len() > 0,
        find(t, path) is Some,
        find(t, path.drop_last()) matches Some(folder) && !has_named(folder.children, name),
    ensures
        rename_tree(rename_tree(t, path, name), path.drop_last().push(name), path.last()) == t,
    decreases path.len(),
{
    let u = rename_tree(t, path, name);
    let back = path.drop_last().push(name);
    lemma_first_named(t.children, path[0]);
    let i = first_named(t.children, path[0]);
    let c = t.children[i];
    let tail = path.drop_first();
    if path.len() == 1 {
        assert(path.drop_last().len() == 0);
        assert(back[0] == name);
        assert(is_first_named(u.children, name, i)) by {
            assert forall|j: int| 0 <= j < i implies #[trigger] u.children[j].name != name by {
                assert(u.children[j] == t.children[j]);
            }
        }
        lemma_first_named(u.children, name);
        assert(back.drop_first().len() == 0);
        assert(find(u.children[i], back.drop_first()) is Some);
        let w = rename_tree(u, back, path.last());
        assert(w.children =~= t.children);
    } else {
        lemma_rename_keeps_sizes(c, tail, name);
        assert(back[0] == path[0]);
        assert(is_first_named(u.children, path[0], i)) by {
            assert forall|j: int| 0 <= j < i implies #[trigger] u.children[j].name != path[0] by {
                assert(u.children[j] == t.children[j]);
            }
        }
        lemma_first_named(u.children, path[0]);
        assert(back.drop_first() =~= tail.drop_last().push(name));
        assert(path.drop_last().drop_first() =~= tail.drop_last());
        assert(find(t, path.drop_last()) == find(c, tail.drop_last()));
        assert(tail.last() == path.last());
        lemma_rename_back(c, tail, name);
        lemma_rename_keeps_sizes(c, tail, name);
        assert(find(u.children[i], back.drop_first()) is Some);
        let w = rename_tree(u, back, path.last());
        assert(w.children =~= t.children);
    }
}


/// Putting an entry whose folders sum their children into an existing destination keeps
/// every folder summing its children, whatever the destination is, and lists the
/// destination's children biggest first.
pub proof fn lemma_insert_keeps_folder_sums(t: Tree, path: Seq<Seq<char>>, item: Tree)
    requires
        folder_sums(t),
        folder_sums(item),
        find(t, path) is Some,
    ensures
        folder_sums(insert_tree(t, path, item)),
        find(insert_tree(t, path, item), path) matches Some(d) && sorted_desc(d.children),
    decreases path.len(),
{
    let u = insert_tree(t, path, item);
    if path.len() == 0 {
        let x = t.children.push(item);
        lemma_size_order_exists(x);
        lemma_size_order_sum(x, by_size(x));
        lemma_size_order_sorted(x, by_size(x));
        assert(x.drop_last() =~= t.children);
        let p = choose|p: Seq<int>| order_witness(x, by_size(x), p);
        assert forall|k: int| 0 <= k < u.children.len() implies folder_sums(#[trigger] u.children[k]) by {
            assert(u.children[k] == x[p[k]]);
            if p[k] < t.children.len() {
                assert(x[p[k]] == t.children[p[k]]);
            }
        }
    } else {
        lemma_first_named(t.children, path[0]);
        let i = first_named(t.children, path[0]);
        let c = t.children[i];
        let tail = path.drop_first();
        lemma_insert_keeps_folder_sums(c, tail, item);
        lemma_sum_update(t.children, i, insert_tree(c, tail, item));
        assert forall|k: int| 0 <= k < u.children.len() implies folder_sums(#[trigger] u.children[k]) by {
            if k != i {
                assert(u.children[k] == t.children[k]);
            }
        }
        assert(is_first_named(u.children, path[0], i)) by {
            assert forall|j: int| 0 <= j < i implies #[trigger] u.children[j].name != path[0] by {
                assert(u.children[j] == t.children[j]);
            }
        }
        lemma_first_named(u.children, path[0]);
    }
}

/// Removing an entry where no size goes below zero keeps every folder summing its
/// children, in the tree and in the entry taken out.
pub proof fn lemma_remove_keeps_folder_sums(t: Tree, path: Seq<Seq<char>>)
    requires
        folder_sums(t),
        removable(t, path),
    ensures
        folder_sums(remove_tree(t, path)),
        find(t, path) matches Some(x) ==> folder_sums(x),
        find(t, path) is Some && path.len() > 0 ==> remove_tree(t, path).size + find(t, path)->0.size
            == t.size,
    decreases path.len(),
{
    if path.len() > 0 && find(t, path) is Some {
        lemma_first_named(t.children, path[0]);
        let i = first_named(t.children, path[0]);
        let c = t.children[i];
        let r = remove_tree(t, path);
        let tail = path.drop_first();
        assert(find(t, path) == find(c, tail));
        if path.len() == 1 {
            lemma_sum_remove(t.children, i);
            assert forall|j: int| 0 <= j < r.children.len() implies folder_sums(#[trigger] r.children[j]) by {
                if j < i {
                    assert(r.children[j] == t.children[j]);
                } else {
                    assert(r.children[j] == t.children[j + 1]);
                }
            }
        } else {
            assert(sizes_cover(c, tail, find(c, tail)->0.size));
            lemma_remove_keeps_folder_sums(c, tail);
            lemma_sum_update(t.children, i, remove_tree(c, tail));
            assert forall|j: int| 0 <= j < r.children.len() implies folder_sums(#[trigger] r.children[j]) by {
                if j != i {
                    assert(r.children[j] == t.children[j]);
                }
            }
        }
    }
}


/// What a path leads to in a tree whose folders sum their children does so too.
pub proof fn lemma_find_keeps_folder_sums(t: Tree, path: Seq<Seq<char>>)
    requires
        folder_sums(t),
        find(t, path) is Some,
    ensures
        folder_sums(find(t, path)->0),
    decreases path.len(),
{
    if path.len() > 0 {
        lemma_first_named(t.children, path[0]);
        lemma_find_keeps_folder_sums(t.children[first_named(t.children, path[0])], path.drop_first());
    }
}

/// A listing shows as much size as the entries it shows hold.
pub proof fn lemma_listed_size(infos: Seq<ChildInfo>, kids: Seq<Tree>)
    requires
        shows(infos, kids),
    ensures
        listed_size(infos) == sum_sizes(kids),
    decreases infos.len(),
{
    if infos.len() > 0 {
        let n = infos.len() - 1;
        assert(shows(infos.drop_last(), kids.drop_last())) by {
            assert forall|k: int| 0 <= k < n implies {
                &&& (#[trigger] infos.drop_last()[k]).name@ == kids.drop_last()[k].name
                &&& infos.drop_last()[k].size == kids.drop_last()[k].size
                &&& infos.drop_last()[k].is_dir == kids.drop_last()[k].is_dir
            } by {
                assert(infos.drop_last()[k] == infos[k]);
                assert(kids.drop_last()[k] == kids[k]);
            }
        }
        lemma_listed_size(infos.drop_last(), kids.drop_last());
        assert(infos[n].size == kids[n].size);
    }
}

/// In a tree whose folders sum their children, the sizes that the biggest-first listing
/// of a folder shows add up to the folder's size.
pub proof fn lemma_listing_sums_to_folder(t: Tree, path: Seq<Seq<char>>, infos: Seq<ChildInfo>)
    requires
        folder_sums(t),
        find(t, path) matches Some(f) && f.is_dir,
        shows(infos, by_size(find(t, path)->0.children)),
    ensures
        listed_size(infos) == find(t, path)->0.size,
{
    let f = find(t, path)->0;
    lemma_find_keeps_folder_sums(t, path);
    lemma_size_order_exists(f.children);
    lemma_size_order_sum(f.children, by_size(f.children));
    lemma_listed_size(infos, by_size(f.children));
}


/// `o` holds the entries of `s`, each once, with the size of `s` at every position: `s`
/// with entries of one size possibly reordered among themselves.
pub open spec fn reordered_ties(s: Seq<Tree>, o: Seq<Tree>) -> bool {
    &&& o.len() == s.len()
    &&& exists|q: Seq<int>| perm_witness(s, o, q)
    &&& forall|j: int| 0 <= j < s.len() ==> #[trigger] o[j].size == s[j].size
}

/// `u` is `t`, except that the folder at `path` may hold its children with entries of one
/// size reordered among themselves.
pub open spec fn same_up_to_ties(t: Tree, u: Tree, path: Seq<Seq<char>>) -> bool
    decreases path.len(),
{
    &&& u.name == t.name
    &&& u.size == t.size
    &&& u.is_dir == t.is_dir
    &&& if path.len() == 0 {
        reordered_ties(t.children, u.children)
    } else if has_named(t.children, path[0]) {
        let i = first_named(t.children, path[0]);
        &&& u.children.len() == t.children.len()
        &&& forall|j: int| 0 <= j < t.children.len() && j != i ==> #[trigger] u.children[j] == t.children[j]
        &&& same_up_to_ties(t.children[i], u.children[i], path.drop_first())
    } else {
        u.children == t.children
    }
}

/// Taking one entry out of a biggest-first list and putting it back, biggest first,
/// changes the list at most in the order of entries of its size.
pub proof fn lemma_reinsert_sorted(s: Seq<Tree>, i: int)
    requires
        sorted_desc(s),
        0 <= i < s.len(),
    ensures
        reordered_ties(s, by_size(s.remove(i).push(s[i]))),
{
    let n = s.len() as int;
    let c = s[i];
    let s1 = s.remove(i);
    let x = s1.push(c);
    assert(sorted_desc(s1)) by {
        assert forall|a: int, b: int| 0 <= a < b < s1.len() implies #[trigger] s1[a].size >= #[trigger] s1[b].size by {
            let a0 = if a < i { a } else { a + 1 };
            let b0 = if b < i { b } else { b + 1 };
            assert(s1[a] == s[a0]);
            assert(s1[b] == s[b0]);
            assert(s[a0].size >= s[b0].size);
        }
    }
    let k = split_point(s1, c.size);
    if k < i {
        assert(s1[k] == s[k]);
        assert(s[k].size >= s[i].size);
    }
    assert(k >= i);
    let o = s1.insert(k, c);
    let p = Seq::new(n as nat, |j: int| if j < k { j } else if j == k { n - 1 } else { j - 1 });
    assert forall|j: int| 0 <= j < p.len() implies #[trigger] o[j] == x[p[j]] by {
        if j < k {
            assert(o[j] == s1[j]);
        } else if j > k {
            assert(o[j] == s1[j - 1]);
        }
    }
    assert forall|a: int, b: int| 0 <= a < b < p.len() implies crate::order::ahead(x, #[trigger] p[a], #[trigger] p[b]) by {
        if a != k && b != k {
            assert(x[p[a]] == s1[p[a]]);
            assert(x[p[b]] == s1[p[b]]);
            assert(p[a] < p[b]);
            assert(s1[p[a]].size >= s1[p[b]].size);
        } else if a == k {
            assert(x[p[b]] == s1[b - 1]);
            assert(s1[b - 1].size < c.size);
        } else {
            assert(x[p[a]] == s1[a]);
            assert(s1[a].size >= c.size);
        }
    }
    assert(order_witness(x, o, p));
    lemma_by_size(x, o);
    let q = Seq::new(n as nat, |j: int| if j < i { j } else if j < k { j + 1 } else if j == k { i } else { j });
    assert forall|j: int| 0 <= j < q.len() implies 0 <= #[trigger] q[j] < n && o[j] == s[q[j]] by {
        if j < k {
            assert(o[j] == s1[j]);
        } else if j > k {
            assert(o[j] == s1[j - 1]);
        }
    }
    assert forall|a: int, b: int| 0 <= a < q.len() && 0 <= b < q.len() && a != b implies #[trigger] q[a] != #[trigger] q[b] by {
    }
    assert(perm_witness(s, o, q));
    assert forall|j: int| 0 <= j < s.len() implies #[trigger] o[j].size == s[j].size by {
        if j < i {
            assert(o[j] == s1[j]);
        } else if j < k {
            assert(o[j] == s1[j]);
            assert(s1[j] == s[j + 1]);
            assert(s1[j].size >= c.size);
            assert(s[i].size >= s[j + 1].size);
            if j > i {
                assert(s[i].size >= s[j].size);
                assert(s[j].size >= s[j + 1].size);
            }
        } else if j == k {
            if k > i {
                assert(s1[k - 1] == s[k]);
                assert(s1[k - 1].size >= c.size);
                assert(s[i].size >= s[k].size);
            }
        } else {
            assert(o[j] == s1[j - 1]);
            assert(s1[j - 1] == s[j]);
        }
    }
}

/// In a tree whose folder at `folder` lists its children biggest first, taking the entry
/// `name` out of that folder and putting it back gives the tree it started from, up to the
/// order of that folder's entries of one size; putting it back finds the folder.
pub proof fn lemma_remove_put_back(t: Tree, folder: Seq<Seq<char>>, name: Seq<char>)
    requires
        find(t, folder.push(name)) is Some,
        removable(t, folder.push(name)),
        find(t, folder) matches Some(f) && sorted_desc(f.children),
    ensures
        find(remove_tree(t, folder.push(name)), folder) is Some,
        same_up_to_ties(
            t,
            insert_tree(remove_tree(t, folder.push(name)), folder, find(t, folder.push(name))->0),
            folder,
        ),
    decreases folder.len(),
{
    let path = folder.push(name);
    let x = find(t, path)->0;
    let r = remove_tree(t, path);
    let u = insert_tree(r, folder, x);
    lemma_first_named(t.children, path[0]);
    let i = first_named(t.children, path[0]);
    let c = t.children[i];
    let tail = path.drop_first();
    assert(find(t, path) == find(c, tail));
    if folder.len() == 0 {
        assert(tail.len() == 0);
        assert(x == c);
        assert(r.children == t.children.remove(i));
        assert(c == t.children[i]);
        lemma_reinsert_sorted(t.children, i);
    } else {
        assert(path[0] == folder[0]);
        assert(tail =~= folder.drop_first().push(name));
        assert(find(t, folder) == find(c, folder.drop_first()));
        assert(sizes_cover(c, tail, x.size));
        lemma_remove_put_back(c, folder.drop_first(), name);
        assert(is_first_named(r.children, folder[0], i)) by {
            assert forall|j: int| 0 <= j < i implies #[trigger] r.children[j].name != folder[0] by {
                assert(r.children[j] == t.children[j]);
            }
        }
        lemma_first_named(r.children, folder[0]);
        assert(find(r, folder) == find(r.children[i], folder.drop_first()));
        assert forall|j: int| 0 <= j < t.children.len() && j != i implies #[trigger] u.children[j] == t.children[j] by {
            assert(u.children[j] == r.children[j]);
        }
    }
}


/// Every node that a scan builds from a folder listing is a folder named as the listing,
/// whether the folder could be read or not, and whether it is empty or not.
pub proof fn lemma_listing_tree_is_dir(l: Listing)
    ensures
        listing_tree(l).is_dir,
        listing_tree(l).name == l.name@,
{
}

proof fn lemma_forest_remove(s: Seq<Tree>, j: int)
    requires
        0 <= j < s.len(),
    ensures
        forest_files(s) == forest_files(s.remove(j)) + tree_files(s[j]),
    decreases s.len(),
{
    if j < s.len() - 1 {
        lemma_forest_remove(s.drop_last(), j);
        assert(s.remove(j).drop_last() =~= s.drop_last().remove(j));
    } else {
        assert(s.remove(j) =~= s.drop_last());
    }
}

proof fn lemma_forest_perm(s: Seq<Tree>, o: Seq<Tree>, p: Seq<int>)
    requires
        perm_witness(s, o, p),
    ensures
        forest_files(o) == forest_files(s),
    decreases s.len(),
{
    if s.len() > 0 {
        let n = s.len() as int;
        let j = p[n - 1];
        let s2 = s.remove(j);
        let o2 = o.drop_last();
        let p2 = Seq::new((n - 1) as nat, |k: int| if p[k] < j { p[k] } else { p[k] - 1 });
        assert forall|k: int| 0 <= k < n - 1 implies #[trigger] o2[k] == s2[p2[k]] by {
            assert(p[k] != p[n - 1]);
        }
        assert forall|k: int, l: int| 0 <= k < n - 1 && 0 <= l < n - 1 && k != l implies #[trigger] p2[k] != #[trigger] p2[l] by {
            assert(p[k] != p[n - 1]);
            assert(p[l] != p[n - 1]);
            assert(p[k] != p[l]);
        }
        assert forall|k: int| 0 <= k < n - 1 implies 0 <= #[trigger] p2[k] < n - 1 by {
            assert(p[k] != p[n - 1]);
        }
        lemma_forest_perm(s2, o2, p2);
        lemma_forest_remove(s, j);
    }
}

/// A scan builds exactly one file node for each file it reads, and none for anything
/// else: every folder read, even an empty or unreadable one, becomes a folder node.
pub proof fn lemma_listing_tree_files(l: Listing)
    ensures
        tree_files(listing_tree(l)) == listing_files(l),
    decreases l,
{
    match l.entries {
        None => {
            assert(forest_files(listing_tree(l).children) == 0);
        },
        Some(v) => {
            let kids = entries_trees(v@);
            lemma_entries_trees_files(v@);
            lemma_size_order_exists(kids);
            let p = choose|p: Seq<int>| order_witness(kids, by_size(kids), p);
            crate::order::lemma_order_is_perm(kids, by_size(kids), p);
            lemma_forest_perm(kids, by_size(kids), p);
        },
    }
}

/// The nodes that a folder's entries become hold one file node for each file read.
pub proof fn lemma_entries_trees_files(s: Seq<Entry>)
    ensures
        forest_files(entries_trees(s)) == entries_files(s),
    decreases s,
{
    if s.len() > 0 {
        lemma_entries_trees_files(s.drop_last());
        let rest = entries_trees(s.drop_last());
        match s.last() {
            Entry::File { name, size } => {
                let t = entries_trees(s);
                assert(t.drop_last() =~= rest);
                assert(forest_files(t.last().children) == 0);
                assert(tree_files(t.last()) == 1);
                assert(forest_files(t) == forest_files(rest) + 1);
            },
            Entry::Dir(l) => {
                lemma_listing_tree_files(l);
                let t = entries_trees(s);
                assert(t.drop_last() =~= rest);
                assert(t.last() == listing_tree(l));
                assert(forest_files(t) == forest_files(rest) + tree_files(listing_tree(l)));
            },
            _ => {},
        }
    }
}


/// One step of a path leads to the first child of that name, where there is one, and
/// nowhere where no child has it.
pub proof fn lemma_find_first_child(t: Tree, name: Seq<char>)
    ensures
        match find(t, seq![name]) {
            Some(c) => exists|i: int|
                0 <= i < t.children.len() && #[trigger] t.children[i] == c && c.name == name && forall|
                    j: int,
                | 0 <= j < i ==> #[trigger] t.children[j].name != name,
            None => forall|j: int| 0 <= j < t.children.len() ==> #[trigger] t.children[j].name != name,
        },
{
    lemma_first_named(t.children, name);
    let path = seq![name];
    assert(path[0] == name);
    assert(path.drop_first().len() == 0);
    if has_named(t.children, name) {
        let i = first_named(t.children, name);
        assert(find(t.children[i], path.drop_first()) == Some(t.children[i]));
    }
}

} // verus!
