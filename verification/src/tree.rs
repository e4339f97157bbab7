//! The in-memory scan tree and the edits made to it after a file operation.

use vstd::prelude::*;
use crate::order::{by_size, sort_by_size, sum_sizes, sorted_desc};

verus! {

/// One entry of a scanned drive: a file, or a folder with the entries inside it.
#[derive(Debug)]
pub struct Node {
    pub name: String,
    pub size: u64,
    pub is_dir: bool,
    pub children: Vec<Node>,
}

/// The mathematical value of a [`Node`].
pub struct Tree {
    pub name: Seq<char>,
    pub size: nat,
    pub is_dir: bool,
    pub children: Seq<Tree>,
}

/// The value of a node: its name as characters, and the values of its children.
pub open spec fn tree_of(n: Node) -> Tree
    decreases n,
{
    Tree {
        name: n.name@,
        size: n.size as nat,
        is_dir: n.is_dir,
        children: Seq::new(
            n.children@.len(),
            |i: int|
                if 0 <= i < n.children@.len() {
                    tree_of(n.children@[i])
                } else {
                    arbitrary()
                },
        ),
    }
}

impl View for Node {
    type V = Tree;

    open spec fn view(&self) -> Tree {
        tree_of(*self)
    }
}

impl Clone for Node {
    /// A deep copy: a node of the same value.
    fn clone(&self) -> (r: Node)
        ensures
            r@ == self@,
        decreases self,
    {
        let n = self.children.len();
        let mut kids: Vec<Node> = Vec::new();
        proof {
            lemma_children_views(*self);
        }
        for i in 0..n
            invariant
                n == self.children@.len(),
                kids@.len() == i,
                forall|q: int| 0 <= q < i ==> (#[trigger] kids@[q])@ == self.children@[q]@,
        {
            proof {
                assert(decreases_to!(*self => self.children));
                assert(decreases_to!(self.children => self.children@[i as int]));
            }
            kids.push(self.children[i].clone());
        }
        let r = Node { name: self.name.clone(), size: self.size, is_dir: self.is_dir, children: kids };
        proof {
            lemma_children_views(r);
            assert(r@.children =~= self@.children);
        }
        r
    }
}

/// The values of a sequence of nodes.
pub open spec fn views(s: Seq<Node>) -> Seq<Tree> {
    s.map_values(|n: Node| n@)
}

/// The names that a relative path is made of.
pub open spec fn names(rel: Seq<String>) -> Seq<Seq<char>> {
    rel.map_values(|s: String| s@)
}

/// The children of a node's value are the values of its children.
pub proof fn lemma_children_views(n: Node)
    ensures
        n@.children == views(n.children@),
        n@.children.len() == n.children@.len(),
        forall|i: int| 0 <= i < n.children@.len() ==> #[trigger] n@.children[i] == n.children@[i]@,
{
    assert(n@.children =~= views(n.children@));
}

/// Every folder's size is the sum of its children's, and files have no children.
pub open spec fn well_formed(t: Tree) -> bool
    decreases t,
{
    &&& t.is_dir ==> t.size == sum_sizes(t.children)
    &&& !t.is_dir ==> t.children.len() == 0
    &&& forall|i: int| 0 <= i < t.children.len() ==> well_formed(#[trigger] t.children[i])
}

/// Every folder's size is the sum of its children's (files may be anything).
pub open spec fn folder_sums(t: Tree) -> bool
    decreases t,
{
    &&& t.is_dir ==> t.size == sum_sizes(t.children)
    &&& forall|i: int| 0 <= i < t.children.len() ==> folder_sums(#[trigger] t.children[i])
}

/// Number of files (nodes that are not folders) in a tree, the root included.
pub open spec fn tree_files(t: Tree) -> nat
    decreases t,
{
    (if t.is_dir { 0nat } else { 1nat }) + forest_files(t.children)
}

/// Number of files in a sequence of trees.
pub open spec fn forest_files(s: Seq<Tree>) -> nat
    decreases s,
{
    if s.len() == 0 {
        0
    } else {
        forest_files(s.drop_last()) + tree_files(s.last())
    }
}

/// Every node is at least as big as its children together.
pub open spec fn sizes_dominate(t: Tree) -> bool
    decreases t,
{
    &&& sum_sizes(t.children) <= t.size
    &&& forall|i: int| 0 <= i < t.children.len() ==> sizes_dominate(#[trigger] t.children[i])
}

/// At every level the children are listed biggest first.
pub open spec fn sorted_everywhere(t: Tree) -> bool
    decreases t,
{
    &&& sorted_desc(t.children)
    &&& forall|i: int| 0 <= i < t.children.len() ==> sorted_everywhere(#[trigger] t.children[i])
}

/// Some entry of `s` is called `name`.
pub open spec fn has_named(s: Seq<Tree>, name: Seq<char>) -> bool {
    exists|i: int| 0 <= i < s.len() && #[trigger] s[i].name == name
}

/// `i` is the first position of `s` that holds an entry called `name`.
pub open spec fn is_first_named(s: Seq<Tree>, name: Seq<char>, i: int) -> bool {
    &&& 0 <= i < s.len()
    &&& s[i].name == name
    &&& forall|j: int| 0 <= j < i ==> #[trigger] s[j].name != name
}

/// The first position of `s` that holds an entry called `name` (where there is one).
pub open spec fn first_named(s: Seq<Tree>, name: Seq<char>) -> int {
    choose|i: int| is_first_named(s, name, i)
}

pub proof fn lemma_first_named(s: Seq<Tree>, name: Seq<char>)
    ensures
        has_named(s, name) <==> is_first_named(s, name, first_named(s, name)),
        forall|i: int| #[trigger] is_first_named(s, name, i) ==> i == first_named(s, name),
    decreases s.len(),
{
    if has_named(s, name) {
        if s.len() > 0 && has_named(s.drop_last(), name) {
            lemma_first_named(s.drop_last(), name);
            let i = first_named(s.drop_last(), name);
            assert forall|j: int| 0 <= j < i implies #[trigger] s[j].name != name by {
                assert(s.drop_last()[j] == s[j]);
            }
            assert(is_first_named(s, name, i));
        } else {
            let i = (s.len() - 1) as int;
            let w = choose|w: int| 0 <= w < s.len() && #[trigger] s[w].name == name;
            if w < i {
                assert(s.drop_last()[w].name == name);
            }
            assert forall|j: int| 0 <= j < i implies #[trigger] s[j].name != name by {
                assert(s.drop_last()[j] == s[j]);
                if s[j].name == name {
                    assert(s.drop_last()[j].name == name);
                }
            }
            assert(is_first_named(s, name, i));
        }
    }
    assert forall|i: int| #[trigger] is_first_named(s, name, i) implies i == first_named(s, name) by {
        let f = first_named(s, name);
        assert(is_first_named(s, name, f));
        if i < f {
            assert(s[i].name == name);
        } else if f < i {
            assert(s[f].name == name);
        }
    }
}

/// The entry that a relative path leads to, taking at each level the first child of that name.
pub open spec fn find(t: Tree, path: Seq<Seq<char>>) -> Option<Tree>
    decreases path.len(),
{
    if path.len() == 0 {
        Some(t)
    } else if has_named(t.children, path[0]) {
        find(t.children[first_named(t.children, path[0])], path.drop_first())
    } else {
        None
    }
}

/// Position of the first child of `node` called `name`.
fn child_position(node: &Node, name: &String) -> (res: Option<usize>)
    ensures
        match res {
            Some(i) => i == first_named(node@.children, name@) && is_first_named(
                node@.children,
                name@,
                i as int,
            ),
            None => !has_named(node@.children, name@),
        },
{
    proof {
        lemma_children_views(*node);
        lemma_first_named(node@.children, name@);
    }
    let n = node.children.len();
    let mut i: usize = 0;
    while i < n
        invariant
            n == node.children@.len(),
            n == node@.children.len(),
            i <= n,
            forall|j: int| 0 <= j < i ==> #[trigger] node@.children[j].name != name@,
            forall|j: int|
                0 <= j < n ==> #[trigger] node@.children[j] == node.children@[j]@,
            forall|j: int|
                #[trigger] is_first_named(node@.children, name@, j) ==> j == first_named(
                    node@.children,
                    name@,
                ),
        decreases n - i,
    {
        if node.children[i].name == *name {
            assert(is_first_named(node@.children, name@, i as int));
            return Some(i);
        }
        i += 1;
    }
    None
}

/// Walks `rel` down from `node`, taking at each level the first child with the next name.
pub fn find_node<'a>(node: &'a Node, rel: &[String]) -> (res: Option<&'a Node>)
    ensures
        match res {
            Some(r) => find(node@, names(rel@)) == Some(r@),
            None => find(node@, names(rel@)) is None,
        },
{
    let ghost path = names(rel@);
    let mut cur = node;
    let mut k: usize = 0;
    assert(path.skip(0) =~= path);
    while k < rel.len()
        invariant
            path == names(rel@),
            k <= rel@.len(),
            find(node@, path) == find(cur@, path.skip(k as int)),
        decreases rel@.len() - k,
    {
        proof {
            lemma_children_views(*cur);
            assert(path.skip(k as int).drop_first() =~= path.skip(k + 1));
        }
        match child_position(cur, &rel[k]) {
            Some(i) => {
                cur = &cur.children[i];
            },
            None => {
                return None;
            },
        }
        k += 1;
    }
    Some(cur)
}


/// Every node met on `path` above the entry it leads to holds at least `amount`.
pub open spec fn sizes_cover(t: Tree, path: Seq<Seq<char>>, amount: nat) -> bool
    decreases path.len(),
{
    path.len() == 0 || (t.size >= amount && (has_named(t.children, path[0]) ==> sizes_cover(
        t.children[first_named(t.children, path[0])],
        path.drop_first(),
        amount,
    )))
}

/// Removing what `path` leads to takes nothing below zero.
pub open spec fn removable(t: Tree, path: Seq<Seq<char>>) -> bool {
    find(t, path) matches Some(target) ==> sizes_cover(t, path, target.size)
}

/// `t` after the entry that `path` leads to is taken out and its size is taken off every
/// node above it; `t` itself where `path` is empty or leads nowhere.
pub open spec fn remove_tree(t: Tree, path: Seq<Seq<char>>) -> Tree
    decreases path.len(),
{
    if path.len() == 0 || find(t, path) is None {
        t
    } else {
        let i = first_named(t.children, path[0]);
        let amount = find(t, path)->0.size;
        Tree {
            name: t.name,
            size: (t.size - amount) as nat,
            is_dir: t.is_dir,
            children: if path.len() == 1 {
                t.children.remove(i)
            } else {
                t.children.update(i, remove_tree(t.children[i], path.drop_first()))
            },
        }
    }
}

/// `t` after the entry that `path` leads to is given the name `name`; `t` itself where
/// `path` is empty or leads nowhere.
pub open spec fn rename_tree(t: Tree, path: Seq<Seq<char>>, name: Seq<char>) -> Tree
    decreases path.len(),
{
    if path.len() == 0 || find(t, path) is None {
        t
    } else {
        let i = first_named(t.children, path[0]);
        let c = t.children[i];
        Tree {
            name: t.name,
            size: t.size,
            is_dir: t.is_dir,
            children: t.children.update(
                i,
                if path.len() == 1 {
                    Tree { name: name, size: c.size, is_dir: c.is_dir, children: c.children }
                } else {
                    rename_tree(c, path.drop_first(), name)
                },
            ),
        }
    }
}

proof fn lemma_find_step(t: Tree, path: Seq<Seq<char>>)
    requires
        path.len() > 0,
    ensures
        find(t, path) == (if has_named(t.children, path[0]) {
            find(t.children[first_named(t.children, path[0])], path.drop_first())
        } else {
            None
        }),
{
}

fn remove_below(node: &mut Node, rel: &[String], k: usize) -> (res: Option<Node>)
    requires
        k <= rel@.len(),
        removable(old(node)@, names(rel@).skip(k as int)),
    ensures
        res is Some <==> (k < rel@.len() && find(old(node)@, names(rel@).skip(k as int)) is Some),
        res matches Some(r) ==> find(old(node)@, names(rel@).skip(k as int)) == Some(r@),
        final(node)@ == remove_tree(old(node)@, names(rel@).skip(k as int)),
    decreases rel@.len() - k,
{
    let ghost path = names(rel@).skip(k as int);
    if k >= rel.len() {
        return None;
    }
    proof {
        lemma_children_views(*node);
        assert(path.drop_first() =~= names(rel@).skip(k + 1));
        assert(path[0] == rel@[k as int]@);
    }
    let i = match child_position(node, &rel[k]) {
        Some(i) => i,
        None => {
            return None;
        },
    };
    if k + 1 == rel.len() {
        let ghost before = node@;
        let removed = node.children.remove(i);
        proof {
            lemma_find_step(before, path);
            assert(path.drop_first().len() == 0);
            assert(find(before, path) == Some(removed@));
        }
        node.size = node.size - removed.size;
        proof {
            lemma_children_views(*node);
            assert(node@.children =~= before.children.remove(i as int));
        }
        Some(removed)
    } else {
        let ghost before = node@;
        let r = remove_below(&mut node.children[i], rel, k + 1);
        match r {
            None => {
                proof {
                    lemma_children_views(*node);
                    assert(node@.children =~= before.children);
                }
                None
            },
            Some(removed) => {
                proof {
                    lemma_find_step(before, path);
                    assert(find(before, path) == Some(removed@));
                    assert(before.size >= removed@.size);
                }
                node.size = node.size - removed.size;
                proof {
                    lemma_children_views(*node);
                    assert(node@.children =~= before.children.update(
                        i as int,
                        remove_tree(before.children[i as int], path.drop_first()),
                    ));
                }
                Some(removed)
            },
        }
    }
}

/// Takes the entry that `rel` leads to out of the tree and takes its size off every folder
/// above it. `None`, with the tree unchanged, where `rel` is empty or leads nowhere.
pub fn remove_node(node: &mut Node, rel: &[String]) -> (res: Option<Node>)
    requires
        removable(old(node)@, names(rel@)),
    ensures
        res is Some <==> (rel@.len() > 0 && find(old(node)@, names(rel@)) is Some),
        res matches Some(r) ==> find(old(node)@, names(rel@)) == Some(r@),
        final(node)@ == remove_tree(old(node)@, names(rel@)),
{
    assert(names(rel@).skip(0) =~= names(rel@));
    remove_below(node, rel, 0)
}

fn rename_below(node: &mut Node, rel: &[String], k: usize, new_name: &str) -> (res: bool)
    requires
        k <= rel@.len(),
    ensures
        res == (k < rel@.len() && find(old(node)@, names(rel@).skip(k as int)) is Some),
        final(node)@ == rename_tree(old(node)@, names(rel@).skip(k as int), new_name@),
    decreases rel@.len() - k,
{
    let ghost path = names(rel@).skip(k as int);
    if k >= rel.len() {
        return false;
    }
    proof {
        lemma_children_views(*node);
        assert(path.drop_first() =~= names(rel@).skip(k + 1));
        assert(path[0] == rel@[k as int]@);
    }
    let i = match child_position(node, &rel[k]) {
        Some(i) => i,
        None => {
            return false;
        },
    };
    let ghost before = node@;
    if k + 1 == rel.len() {
        assert(path.drop_first().len() == 0);
        node.children[i].name = new_name.to_string();
        proof {
            lemma_children_views(*node);
            assert(node@.children =~= before.children.update(
                i as int,
                Tree {
                    name: new_name@,
                    size: before.children[i as int].size,
                    is_dir: before.children[i as int].is_dir,
                    children: before.children[i as int].children,
                },
            ));
        }
        true
    } else {
        let done = rename_below(&mut node.children[i], rel, k + 1, new_name);
        proof {
            lemma_children_views(*node);
            if done {
                assert(node@.children =~= before.children.update(
                    i as int,
                    rename_tree(before.children[i as int], path.drop_first(), new_name@),
                ));
            } else {
                assert(node@.children =~= before.children);
            }
        }
        done
    }
}

/// Gives the entry that `rel` leads to the name `new_name`. `false`, with the tree
/// unchanged, where `rel` is empty or leads nowhere.
pub fn rename_node(node: &mut Node, rel: &[String], new_name: &str) -> (res: bool)
    ensures
        res == (rel@.len() > 0 && find(old(node)@, names(rel@)) is Some),
        final(node)@ == rename_tree(old(node)@, names(rel@), new_name@),
{
    assert(names(rel@).skip(0) =~= names(rel@));
    rename_below(node, rel, 0, new_name)
}


/// Every node met on `path`, down to the entry it leads to or to the last one that exists,
/// can grow by `amount` and still fit in a `u64`.
pub open spec fn has_room(t: Tree, path: Seq<Seq<char>>, amount: nat) -> bool
    decreases path.len(),
{
    &&& t.size + amount <= u64::MAX
    &&& path.len() > 0 && has_named(t.children, path[0]) ==> has_room(
        t.children[first_named(t.children, path[0])],
        path.drop_first(),
        amount,
    )
}

/// `t` after `item` is put into the folder that `path` leads to, that folder's entries are
/// put biggest first, and `item`'s size is added to every node met on the way. Where
/// `path` leads nowhere, the size is still added to every node met before the walk stops.
pub open spec fn insert_tree(t: Tree, path: Seq<Seq<char>>, item: Tree) -> Tree
    decreases path.len(),
{
    Tree {
        name: t.name,
        size: t.size + item.size,
        is_dir: t.is_dir,
        children: if path.len() == 0 {
            by_size(t.children.push(item))
        } else if has_named(t.children, path[0]) {
            let i = first_named(t.children, path[0]);
            t.children.update(i, insert_tree(t.children[i], path.drop_first(), item))
        } else {
            t.children
        },
    }
}

fn insert_below(node: &mut Node, rel: &[String], k: usize, new: Node) -> (res: bool)
    requires
        k <= rel@.len(),
        has_room(old(node)@, names(rel@).skip(k as int), new@.size),
    ensures
        res == (find(old(node)@, names(rel@).skip(k as int)) is Some),
        final(node)@ == insert_tree(old(node)@, names(rel@).skip(k as int), new@),
    decreases rel@.len() - k,
{
    let ghost path = names(rel@).skip(k as int);
    let ghost before = node@;
    let ghost item = new@;
    proof {
        lemma_children_views(*node);
    }
    node.size = node.size + new.size;
    if k >= rel.len() {
        let mut kids: Vec<Node> = Vec::new();
        std::mem::swap(&mut kids, &mut node.children);
        kids.push(new);
        proof {
            assert(crate::tree::views(kids@) =~= before.children.push(item));
        }
        node.children = sort_by_size(kids);
        proof {
            lemma_children_views(*node);
        }
        return true;
    }
    proof {
        assert(path.drop_first() =~= names(rel@).skip(k + 1));
        assert(path[0] == rel@[k as int]@);
    }
    match child_position(node, &rel[k]) {
        Some(i) => {
            let done = insert_below(&mut node.children[i], rel, k + 1, new);
            proof {
                lemma_children_views(*node);
                assert(node@.children =~= before.children.update(
                    i as int,
                    insert_tree(before.children[i as int], path.drop_first(), item),
                ));
            }
            done
        },
        None => {
            proof {
                lemma_children_views(*node);
                assert(node@.children =~= before.children);
            }
            false
        },
    }
}

/// Puts `new` into the folder that `dest_rel` leads to, adds its size to every folder on
/// the way and puts the folder's entries biggest first again. `false` where `dest_rel`
/// leads nowhere; the sizes of the folders met before the walk stopped have grown then too.
pub fn insert_node(node: &mut Node, dest_rel: &[String], new: Node) -> (res: bool)
    requires
        has_room(old(node)@, names(dest_rel@), new@.size),
    ensures
        res == (find(old(node)@, names(dest_rel@)) is Some),
        final(node)@ == insert_tree(old(node)@, names(dest_rel@), new@),
{
    assert(names(dest_rel@).skip(0) =~= names(dest_rel@));
    insert_below(node, dest_rel, 0, new)
}

} // verus!
