//! Biggest-first ordering of the entries of a folder, entries of one size kept in the order they came in.

use vstd::prelude::*;
use crate::tree::{Node, Tree, views};

verus! {

/// Position `a` of `s` is listed before position `b` when `s` is put biggest first:
/// the bigger entry first, and of two entries of one size the one that came first.
pub open spec fn ahead(s: Seq<Tree>, a: int, b: int) -> bool {
    s[a].size > s[b].size || (s[a].size == s[b].size && a < b)
}

/// `p` tells for each position of `o` the position of `s` it was taken from, and it
/// lists the positions of `s` in biggest-first order.
pub open spec fn order_witness(s: Seq<Tree>, o: Seq<Tree>, p: Seq<int>) -> bool {
    &&& p.len() == s.len()
    &&& o.len() == s.len()
    &&& forall|k: int| 0 <= k < p.len() ==> 0 <= #[trigger] p[k] < s.len()
    &&& forall|k: int| 0 <= k < p.len() ==> #[trigger] o[k] == s[p[k]]
    &&& forall|k: int, l: int| 0 <= k < l < p.len() ==> ahead(s, #[trigger] p[k], #[trigger] p[l])
}

/// `o` is `s` listed biggest first, entries of one size in the order they had in `s`.
pub open spec fn is_size_order(s: Seq<Tree>, o: Seq<Tree>) -> bool {
    exists|p: Seq<int>| order_witness(s, o, p)
}

/// `s` listed biggest first, entries of one size in the order they had in `s`.
pub open spec fn by_size(s: Seq<Tree>) -> Seq<Tree> {
    choose|o: Seq<Tree>| is_size_order(s, o)
}

/// No entry of `s` is smaller than one that comes after it.
pub open spec fn sorted_desc(s: Seq<Tree>) -> bool {
    forall|k: int, l: int| 0 <= k < l < s.len() ==> #[trigger] s[k].size >= #[trigger] s[l].size
}

/// The sum of the sizes of the entries of `s`.
pub open spec fn sum_sizes(s: Seq<Tree>) -> nat
    decreases s.len(),
{
    if s.len() == 0 {
        0
    } else {
        sum_sizes(s.drop_last()) + s.last().size
    }
}

/// `o` holds the entries of `s`, each once, in some order given by `p`.
pub open spec fn perm_witness(s: Seq<Tree>, o: Seq<Tree>, p: Seq<int>) -> bool {
    &&& p.len() == s.len()
    &&& o.len() == s.len()
    &&& forall|k: int| 0 <= k < p.len() ==> 0 <= #[trigger] p[k] < s.len()
    &&& forall|k: int| 0 <= k < p.len() ==> #[trigger] o[k] == s[p[k]]
    &&& forall|k: int, l: int| 0 <= k < p.len() && 0 <= l < p.len() && k != l ==> #[trigger] p[k] != #[trigger] p[l]
}

pub proof fn lemma_order_is_perm(s: Seq<Tree>, o: Seq<Tree>, p: Seq<int>)
    requires
        order_witness(s, o, p),
    ensures
        perm_witness(s, o, p),
{
    assert forall|k: int, l: int| 0 <= k < p.len() && 0 <= l < p.len() && k != l implies #[trigger] p[k] != #[trigger] p[l] by {
        if k < l {
            assert(ahead(s, p[k], p[l]));
        } else {
            assert(ahead(s, p[l], p[k]));
        }
    }
}

/// Some position of `p` holds `i`.
pub open spec fn hits(p: Seq<int>, i: int) -> bool {
    exists|m: int| 0 <= m < p.len() && #[trigger] p[m] == i
}

/// A map of `n` positions into `0..n` that never sends two to one place reaches every place.
proof fn lemma_onto(p: Seq<int>, n: int)
    requires
        p.len() == n,
        forall|k: int| 0 <= k < n ==> 0 <= #[trigger] p[k] < n,
        forall|k: int, l: int| 0 <= k < n && 0 <= l < n && k != l ==> #[trigger] p[k] != #[trigger] p[l],
    ensures
        forall|i: int| 0 <= i < n ==> #[trigger] hits(p, i),
{
    assert(p.no_duplicates());
    p.unique_seq_to_set();
    vstd::set_lib::lemma_int_range(0, n);
    let range = vstd::set_lib::set_int_range(0, n);
    assert(p.to_set().subset_of(range));
    vstd::seq_lib::seq_to_set_is_finite(p);
    vstd::set_lib::lemma_subset_equality(p.to_set(), range);
    assert forall|i: int| 0 <= i < n implies #[trigger] hits(p, i) by {
        assert(range.contains(i));
        assert(p.to_set().contains(i));
        assert(p.contains(i));
    }
}

proof fn lemma_witness_prefix(s: Seq<Tree>, o1: Seq<Tree>, o2: Seq<Tree>, p1: Seq<int>, p2: Seq<int>, k: int)
    requires
        order_witness(s, o1, p1),
        order_witness(s, o2, p2),
        0 <= k <= s.len(),
    ensures
        forall|j: int| 0 <= j < k ==> #[trigger] p1[j] == p2[j],
    decreases k,
{
    if k > 0 {
        lemma_witness_prefix(s, o1, o2, p1, p2, k - 1);
        let n = s.len() as int;
        lemma_order_is_perm(s, o1, p1);
        lemma_order_is_perm(s, o2, p2);
        lemma_onto(p1, n);
        lemma_onto(p2, n);
        let j = k - 1;
        let a = p1[j];
        let b = p2[j];
        if a != b {
            if ahead(s, a, b) {
                assert(hits(p2, a));
                let m = choose|m: int| 0 <= m < n && #[trigger] p2[m] == a;
                if m < j {
                    assert(p1[m] == p2[m]);
                } else {
                    assert(ahead(s, p2[j], p2[m]));
                }
            } else {
                assert(hits(p1, b));
                let m = choose|m: int| 0 <= m < n && #[trigger] p1[m] == b;
                if m < j {
                    assert(p1[m] == p2[m]);
                } else {
                    assert(ahead(s, p1[j], p1[m]));
                }
            }
        }
    }
}

/// A sequence has one biggest-first order only.
pub proof fn lemma_size_order_unique(s: Seq<Tree>, o1: Seq<Tree>, o2: Seq<Tree>)
    requires
        is_size_order(s, o1),
        is_size_order(s, o2),
    ensures
        o1 == o2,
{
    let p1 = choose|p: Seq<int>| order_witness(s, o1, p);
    let p2 = choose|p: Seq<int>| order_witness(s, o2, p);
    lemma_witness_prefix(s, o1, o2, p1, p2, s.len() as int);
    assert(o1 =~= o2);
}

pub proof fn split_point(o: Seq<Tree>, v: nat) -> (k: int)
    requires
        sorted_desc(o),
    ensures
        0 <= k <= o.len(),
        forall|j: int| 0 <= j < k ==> #[trigger] o[j].size >= v,
        forall|j: int| k <= j < o.len() ==> #[trigger] o[j].size < v,
    decreases o.len(),
{
    if o.len() == 0 {
        0
    } else if o.last().size >= v {
        assert forall|j: int| 0 <= j < o.len() implies #[trigger] o[j].size >= v by {
            if j < o.len() - 1 {
                assert(o[j].size >= o[o.len() - 1].size);
            }
        }
        o.len() as int
    } else {
        let d = o.drop_last();
        assert(sorted_desc(d)) by {
            assert forall|a: int, b: int| 0 <= a < b < d.len() implies #[trigger] d[a].size >= #[trigger] d[b].size by {
                assert(o[a].size >= o[b].size);
            }
        }
        let k = split_point(d, v);
        assert forall|j: int| 0 <= j < k implies #[trigger] o[j].size >= v by {
            assert(d[j] == o[j]);
        }
        assert forall|j: int| k <= j < o.len() implies #[trigger] o[j].size < v by {
            if j < o.len() - 1 {
                assert(d[j] == o[j]);
            }
        }
        k
    }
}

/// Every sequence has a biggest-first order.
pub proof fn lemma_size_order_exists(s: Seq<Tree>)
    ensures
        is_size_order(s, by_size(s)),
    decreases s.len(),
{
    if s.len() == 0 {
        let p = Seq::<int>::empty();
        assert(order_witness(s, Seq::<Tree>::empty(), p));
        assert(is_size_order(s, Seq::<Tree>::empty()));
    } else {
        let n = s.len() as int;
        let s1 = s.drop_last();
        lemma_size_order_exists(s1);
        let o1 = by_size(s1);
        let p1 = choose|p: Seq<int>| order_witness(s1, o1, p);
        lemma_size_order_sorted(s1, o1);
        let x = s[n - 1];
        let k = split_point(o1, x.size);
        let o = o1.insert(k, x);
        let p = p1.insert(k, n - 1);
        assert forall|j: int| 0 <= j < p.len() implies #[trigger] o[j] == s[p[j]] by {
            if j < k {
                assert(o1[j] == s1[p1[j]]);
            } else if j > k {
                assert(o1[j - 1] == s1[p1[j - 1]]);
            }
        }
        assert forall|a: int, b: int| 0 <= a < b < p.len() implies ahead(s, #[trigger] p[a], #[trigger] p[b]) by {
            if b < k {
                assert(ahead(s1, p1[a], p1[b]));
            } else if b == k {
                assert(o1[a] == s1[p1[a]]);
                assert(o1[a].size >= x.size);
            } else if a < k {
                assert(ahead(s1, p1[a], p1[b - 1]));
            } else if a == k {
                assert(o1[b - 1] == s1[p1[b - 1]]);
                assert(o1[b - 1].size < x.size);
            } else {
                assert(ahead(s1, p1[a - 1], p1[b - 1]));
            }
        }
        assert(order_witness(s, o, p));
        assert(is_size_order(s, o));
    }
}

/// Where `o` is a biggest-first order of `s`, it is the one that `by_size` names.
pub proof fn lemma_by_size(s: Seq<Tree>, o: Seq<Tree>)
    requires
        is_size_order(s, o),
    ensures
        by_size(s) == o,
        is_size_order(s, by_size(s)),
{
    lemma_size_order_unique(s, o, by_size(s));
}

/// A biggest-first order is sorted by size, largest first.
pub proof fn lemma_size_order_sorted(s: Seq<Tree>, o: Seq<Tree>)
    requires
        is_size_order(s, o),
    ensures
        sorted_desc(o),
        o.len() == s.len(),
{
    let p = choose|p: Seq<int>| order_witness(s, o, p);
    assert forall|k: int, l: int| 0 <= k < l < o.len() implies #[trigger] o[k].size >= #[trigger] o[l].size by {
        assert(ahead(s, p[k], p[l]));
    }
}

pub proof fn lemma_sum_remove(s: Seq<Tree>, j: int)
    requires
        0 <= j < s.len(),
    ensures
        sum_sizes(s) == sum_sizes(s.remove(j)) + s[j].size,
    decreases s.len(),
{
    if j < s.len() - 1 {
        lemma_sum_remove(s.drop_last(), j);
        assert(s.remove(j).drop_last() =~= s.drop_last().remove(j));
    } else {
        assert(s.remove(j) =~= s.drop_last());
    }
}

proof fn lemma_perm_sum(s: Seq<Tree>, o: Seq<Tree>, p: Seq<int>)
    requires
        perm_witness(s, o, p),
    ensures
        sum_sizes(o) == sum_sizes(s),
    decreases s.len(),
{
    if s.len() > 0 {
        let n = s.len() as int;
        let j = p[n - 1];
        let s2 = s.remove(j);
        let o2 = o.drop_last();
        let p2 = Seq::new((n - 1) as nat, |k: int| if p[k] < j { p[k] } else { p[k] - 1 });
        assert forall|k: int| 0 <= k < n - 1 implies #[trigger] o2[k] == s2[p2[k]] by {
            assert(p[k] != p[n - 1]);
        }
        assert forall|k: int, l: int| 0 <= k < n - 1 && 0 <= l < n - 1 && k != l implies #[trigger] p2[k] != #[trigger] p2[l] by {
            assert(p[k] != p[n - 1]);
            assert(p[l] != p[n - 1]);
            assert(p[k] != p[l]);
        }
        assert forall|k: int| 0 <= k < n - 1 implies 0 <= #[trigger] p2[k] < n - 1 by {
            assert(p[k] != p[n - 1]);
        }
        lemma_perm_sum(s2, o2, p2);
        lemma_sum_remove(s, j);
    }
}

/// Putting entries in biggest-first order keeps the sum of their sizes.
pub proof fn lemma_size_order_sum(s: Seq<Tree>, o: Seq<Tree>)
    requires
        is_size_order(s, o),
    ensures
        sum_sizes(o) == sum_sizes(s),
{
    let p = choose|p: Seq<int>| order_witness(s, o, p);
    lemma_order_is_perm(s, o, p);
    lemma_perm_sum(s, o, p);
}


/// Position `a` comes before position `b` when `keys` are put biggest first, ties in order.
pub open spec fn key_ahead(keys: Seq<u64>, a: int, b: int) -> bool {
    keys[a] > keys[b] || (keys[a] == keys[b] && a < b)
}

/// `r` lists positions from `lo..hi` of `keys`, biggest key first, ties in order.
pub open spec fn ranked(keys: Seq<u64>, r: Seq<usize>, lo: int, hi: int) -> bool {
    &&& forall|k: int| 0 <= k < r.len() ==> lo <= #[trigger] r[k] < hi
    &&& forall|k: int, l: int|
        0 <= k < l < r.len() ==> key_ahead(keys, #[trigger] r[k] as int, #[trigger] r[l] as int)
}

fn merge_ranked(
    keys: &Vec<u64>,
    a: &Vec<usize>,
    b: &Vec<usize>,
    Ghost(lo): Ghost<int>,
    Ghost(mid): Ghost<int>,
    Ghost(hi): Ghost<int>,
) -> (r: Vec<usize>)
    requires
        0 <= lo <= mid <= hi <= keys@.len(),
        ranked(keys@, a@, lo, mid),
        ranked(keys@, b@, mid, hi),
    ensures
        r@.len() == a@.len() + b@.len(),
        ranked(keys@, r@, lo, hi),
{
    let mut r: Vec<usize> = Vec::new();
    let mut i: usize = 0;
    let mut j: usize = 0;
    while i < a.len() || j < b.len()
        invariant
            0 <= lo <= mid <= hi <= keys@.len(),
            ranked(keys@, a@, lo, mid),
            ranked(keys@, b@, mid, hi),
            i <= a@.len(),
            j <= b@.len(),
            r@.len() == i + j,
            ranked(keys@, r@, lo, hi),
            r@.len() > 0 && i < a@.len() ==> key_ahead(keys@, r@.last() as int, a@[i as int] as int),
            r@.len() > 0 && j < b@.len() ==> key_ahead(keys@, r@.last() as int, b@[j as int] as int),
        decreases a@.len() + b@.len() - i - j,
    {
        let take_a = if i < a.len() && j < b.len() {
            keys[a[i]] >= keys[b[j]]
        } else {
            i < a.len()
        };
        let x = if take_a { a[i] } else { b[j] };
        proof {
            if take_a && j < b@.len() {
                assert(a@[i as int] < mid <= b@[j as int]);
                assert(key_ahead(keys@, x as int, b@[j as int] as int));
            }
            if !take_a && i < a@.len() {
                assert(key_ahead(keys@, x as int, a@[i as int] as int));
            }
            assert forall|k: int| 0 <= k < r@.len() implies key_ahead(keys@, #[trigger] r@[k] as int, x as int) by {
                if k < r@.len() - 1 {
                    assert(key_ahead(keys@, r@[k] as int, r@[r@.len() - 1] as int));
                }
            }
        }
        let ghost old_r = r@;
        r.push(x);
        proof {
            assert forall|k: int, l: int| 0 <= k < l < r@.len() implies key_ahead(keys@, #[trigger] r@[k] as int, #[trigger] r@[l] as int) by {
                if l < r@.len() - 1 {
                    assert(key_ahead(keys@, old_r[k] as int, old_r[l] as int));
                }
            }
        }
        if take_a {
            proof {
                if i + 1 < a@.len() {
                    assert(key_ahead(keys@, a@[i as int] as int, a@[i + 1] as int));
                }
            }
            i += 1;
        } else {
            proof {
                if j + 1 < b@.len() {
                    assert(key_ahead(keys@, b@[j as int] as int, b@[j + 1] as int));
                }
            }
            j += 1;
        }
    }
    r
}

fn rank_range(keys: &Vec<u64>, lo: usize, hi: usize) -> (r: Vec<usize>)
    requires
        lo <= hi <= keys@.len(),
    ensures
        r@.len() == hi - lo,
        ranked(keys@, r@, lo as int, hi as int),
    decreases hi - lo,
{
    if hi - lo <= 1 {
        let mut r: Vec<usize> = Vec::new();
        if hi - lo == 1 {
            r.push(lo);
        }
        r
    } else {
        let mid = lo + (hi - lo) / 2;
        let a = rank_range(keys, lo, mid);
        let b = rank_range(keys, mid, hi);
        merge_ranked(keys, &a, &b, Ghost(lo as int), Ghost(mid as int), Ghost(hi as int))
    }
}

/// The positions of `keys`, biggest key first, positions of one key in increasing order.
pub fn size_order(keys: &Vec<u64>) -> (order: Vec<usize>)
    ensures
        order@.len() == keys@.len(),
        ranked(keys@, order@, 0, keys@.len() as int),
{
    rank_range(keys, 0, keys.len())
}

/// Taking the entries of `s` at the positions that `order` ranks by their sizes lists
/// them biggest first: it is `by_size(s)`.
pub proof fn lemma_ranked_is_by_size(s: Seq<Tree>, keys: Seq<u64>, order: Seq<usize>)
    requires
        keys.len() == s.len(),
        order.len() == s.len(),
        forall|q: int| 0 <= q < s.len() ==> #[trigger] keys[q] == s[q].size,
        ranked(keys, order, 0, s.len() as int),
    ensures
        by_size(s) == Seq::new(s.len(), |k: int| s[order[k] as int]),
        is_size_order(s, by_size(s)),
{
    let o = Seq::new(s.len(), |k: int| s[order[k] as int]);
    let p = order.map_values(|x: usize| x as int);
    assert forall|k: int, l: int| 0 <= k < l < p.len() implies ahead(s, #[trigger] p[k], #[trigger] p[l]) by {
        assert(key_ahead(keys, order[k] as int, order[l] as int));
    }
    assert(order_witness(s, o, p));
    lemma_by_size(s, o);
}

/// Puts the nodes biggest first, nodes of one size in the order they came in.
pub fn sort_by_size(v: Vec<Node>) -> (r: Vec<Node>)
    ensures
        is_size_order(views(v@), views(r@)),
        views(r@) == by_size(views(v@)),
{
    let ghost v0 = v@;
    let n = v.len();
    let mut keys: Vec<u64> = Vec::new();
    for i in 0..n
        invariant
            n == v@.len(),
            keys@.len() == i,
            forall|q: int| 0 <= q < i ==> #[trigger] keys@[q] == v@[q].size,
    {
        keys.push(v[i].size);
    }
    let order = rank_range(&keys, 0, n);
    let mut v = v;
    let mut slots: Vec<Option<Node>> = Vec::new();
    while v.len() > 0
        invariant
            v@.len() + slots@.len() == n,
            v0.len() == n,
            v@ == v0.subrange(0, v@.len() as int),
            forall|q: int| 0 <= q < slots@.len() ==> #[trigger] slots@[q] == Some(v0[n - 1 - q]),
        decreases v@.len(),
    {
        let x = v.pop().unwrap();
        slots.push(Some(x));
    }
    let mut r: Vec<Node> = Vec::new();
    for k in 0..n
        invariant
            n == v0.len(),
            n == keys@.len(),
            n == order@.len(),
            n == slots@.len(),
            forall|q: int| 0 <= q < n ==> #[trigger] keys@[q] == v0[q].size,
            ranked(keys@, order@, 0, n as int),
            r@.len() == k,
            forall|q: int| 0 <= q < k ==> #[trigger] r@[q] == v0[order@[q] as int],
            forall|m: int|
                0 <= m < n ==> (#[trigger] slots@[n - 1 - m] is Some <==> forall|q: int|
                    0 <= q < k ==> #[trigger] order@[q] != m),
            forall|m: int|
                0 <= m < n && #[trigger] slots@[n - 1 - m] is Some ==> slots@[n - 1 - m] == Some(v0[m]),
    {
        let j = order[k];
        proof {
            assert forall|q: int| 0 <= q < k implies #[trigger] order@[q] != j by {
                assert(key_ahead(keys@, order@[q] as int, order@[k as int] as int));
            }
            assert(slots@[n - 1 - j] is Some);
        }
        let ghost before = slots@;
        let x = slots[n - 1 - j].take();
        proof {
            assert(slots@ == before.update(n - 1 - j, None::<Node>));
            assert forall|m: int| 0 <= m < n implies (#[trigger] slots@[n - 1 - m] is Some <==> forall|q: int|
                    0 <= q < k + 1 ==> #[trigger] order@[q] != m) by {
                if m != j {
                    assert(before[n - 1 - m] == slots@[n - 1 - m]);
                } else {
                    assert(order@[k as int] == m);
                }
            }
        }
        r.push(x.unwrap());
    }
    proof {
        let s = views(v0);
        lemma_ranked_is_by_size(s, keys@, order@);
        assert(views(r@) =~= Seq::new(s.len(), |k: int| s[order@[k] as int]));
    }
    r
}


/// `by_size(s)` holds each entry of `s` once, no entry before a smaller one, and two
/// entries of one size in the order they have in `s`.
pub proof fn lemma_by_size_stable(s: Seq<Tree>)
    ensures
        by_size(s).len() == s.len(),
        exists|p: Seq<int>|
            {
                &&& p.len() == s.len()
                &&& forall|k: int| 0 <= k < s.len() ==> 0 <= #[trigger] p[k] < s.len() && by_size(s)[k] == s[p[k]]
                &&& forall|k: int, l: int| 0 <= k < s.len() && 0 <= l < s.len() && k != l ==> #[trigger] p[k] != #[trigger] p[l]
                &&& forall|k: int, l: int|
                    0 <= k < l < s.len() ==> by_size(s)[k].size >= by_size(s)[l].size && (by_size(s)[k].size
                        == by_size(s)[l].size ==> #[trigger] p[k] < #[trigger] p[l])
            },
{
    lemma_size_order_exists(s);
    let o = by_size(s);
    let p = choose|p: Seq<int>| order_witness(s, o, p);
    lemma_order_is_perm(s, o, p);
    assert forall|k: int, l: int| 0 <= k < l < s.len() implies o[k].size >= o[l].size && (o[k].size
        == o[l].size ==> #[trigger] p[k] < #[trigger] p[l]) by {
        assert(ahead(s, p[k], p[l]));
    }
}

} // verus!
