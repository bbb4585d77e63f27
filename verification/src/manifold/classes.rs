//! Boundary classes: which nodes of a graph play the same part in it.
//!
//! Two nodes belong together when their neighbours fall into the same classes
//! the same number of times. The classes are found by refinement: all nodes
//! start in one class, and each round splits the nodes of a class that meet
//! different classes, until a round changes nothing.

use std::collections::HashMap;
use vstd::multiset::Multiset;
use vstd::prelude::*;

use super::graph::GraphView;
use super::graph::ViableGraph;
use crate::sorting;
use crate::vectors::rows;

verus! {

/// Class id assigned by [`ViableGraph::boundary_classes`].
pub type BoundaryClassId = u32;

/// The class of each node in `nodes`.
pub open spec fn labels(cls: Seq<u32>, nodes: Seq<u32>) -> Seq<u32> {
    nodes.map_values(|b: u32| cls[b as int])
}

/// The classes that the neighbours of `a` fall into, each as often as it
/// occurs.
pub open spec fn met(g: GraphView, cls: Seq<u32>, a: int) -> Multiset<u32> {
    labels(cls, g.adj[a]).to_multiset()
}

/// Nodes of one class of `fine` are in one class of `coarse`.
pub open spec fn refines(fine: Seq<u32>, coarse: Seq<u32>) -> bool {
    forall|a: int, b: int|
        0 <= a < fine.len() && 0 <= b < fine.len() && #[trigger] fine[a] == #[trigger] fine[b]
            ==> coarse[a] == coarse[b]
}

/// A partition of the nodes in which nodes of one class meet the same classes.
pub open spec fn stable(g: GraphView, cls: Seq<u32>) -> bool {
    &&& cls.len() == g.n()
    &&& forall|a: int, b: int|
        0 <= a < g.n() && 0 <= b < g.n() && #[trigger] cls[a] == #[trigger] cls[b] ==> met(g, cls, a)
            == met(g, cls, b)
}

/// `new` puts two nodes together exactly if they meet the same classes of
/// `cls`.
pub open spec fn one_round(g: GraphView, cls: Seq<u32>, new: Seq<u32>) -> bool {
    &&& new.len() == g.n()
    &&& forall|a: int, b: int|
        0 <= a < g.n() && 0 <= b < g.n() ==> ((#[trigger] new[a] == #[trigger] new[b]) <==> met(
            g,
            cls,
            a,
        ) == met(g, cls, b))
}

/// The first label that the first `i` entries of `s` leave unused.
pub open spec fn next_label(s: Seq<u32>, i: int) -> int
    decreases i,
{
    if i <= 0 {
        0
    } else if s[i - 1] + 1 > next_label(s, i - 1) {
        s[i - 1] + 1
    } else {
        next_label(s, i - 1)
    }
}

/// Entry `i` is a label that occurs before it, or the next one.
pub open spec fn numbered(s: Seq<u32>, i: int) -> bool {
    s[i] <= next_label(s, i)
}

/// Labels are numbered in the order in which they first occur.
#[verifier::opaque]
pub open spec fn canonical(s: Seq<u32>) -> bool {
    forall|i: int| 0 <= i < s.len() ==> #[trigger] numbered(s, i)
}

/// `cls` is the partition that `boundary_classes` describes: two nodes share
/// a class exactly if they meet the same classes, no stable partition is
/// coarser, and classes are numbered in the order of their first nodes.
pub open spec fn boundary(g: GraphView, cls: Seq<u32>) -> bool {
    &&& one_round(g, cls, cls)
    &&& forall|q: Seq<u32>| #[trigger] stable(g, q) ==> refines(q, cls)
    &&& canonical(cls)
}

/// Relabelling cannot tell apart what finer labels do not.
proof fn lemma_coarser_met(fine: Seq<u32>, coarse: Seq<u32>, s: Seq<u32>, t: Seq<u32>)
    requires
        refines(fine, coarse),
        forall|i: int| 0 <= i < s.len() ==> #[trigger] s[i] < fine.len(),
        forall|i: int| 0 <= i < t.len() ==> #[trigger] t[i] < fine.len(),
        labels(fine, s).to_multiset() == labels(fine, t).to_multiset(),
    ensures
        labels(coarse, s).to_multiset() == labels(coarse, t).to_multiset(),
    decreases s.len(),
{
    broadcast use vstd::seq_lib::group_to_multiset_ensures;

    let fs = labels(fine, s);
    let ft = labels(fine, t);
    assert(fs.len() == fs.to_multiset().len());
    assert(ft.len() == ft.to_multiset().len());
    if s.len() == 0 {
        assert(s =~= t);
    } else {
        let x = s.last();
        assert(fs.contains(fine[x as int])) by {
            assert(fs[s.len() - 1] == fine[x as int]);
        }
        assert(ft.to_multiset().count(fine[x as int]) > 0);
        assert(ft.contains(fine[x as int]));
        let j = choose|j: int| 0 <= j < ft.len() && ft[j] == fine[x as int];
        let y = t[j];
        assert(fine[y as int] == fine[x as int]);
        assert(coarse[y as int] == coarse[x as int]);
        let s1 = s.remove(s.len() - 1);
        let t1 = t.remove(j);
        assert(labels(fine, s1) =~= fs.remove(s.len() - 1));
        assert(labels(fine, t1) =~= ft.remove(j));
        lemma_coarser_met(fine, coarse, s1, t1);
        let cs = labels(coarse, s);
        let ct = labels(coarse, t);
        assert(labels(coarse, s1) =~= cs.remove(s.len() - 1));
        assert(labels(coarse, t1) =~= ct.remove(j));
        assert(cs.remove(s.len() - 1).insert(s.len() - 1, cs[s.len() - 1]) =~= cs);
        assert(ct.remove(j).insert(j, ct[j]) =~= ct);
        assert(cs[s.len() - 1] == ct[j]);
        assert(cs.to_multiset() =~= ct.to_multiset());
    }
}

/// What a finer partition does not tell apart by its neighbours, a coarser
/// one does not either.
proof fn lemma_met_coarser(g: GraphView, fine: Seq<u32>, coarse: Seq<u32>, a: int, b: int)
    requires
        g.wf(),
        fine.len() == g.n(),
        refines(fine, coarse),
        0 <= a < g.n(),
        0 <= b < g.n(),
        met(g, fine, a) == met(g, fine, b),
    ensures
        met(g, coarse, a) == met(g, coarse, b),
{
    lemma_coarser_met(fine, coarse, g.adj[a], g.adj[b]);
}

proof fn lemma_canonical_at(s: Seq<u32>, i: int)
    requires
        canonical(s),
        0 <= i < s.len(),
    ensures
        s[i] <= next_label(s, i),
{
    reveal(canonical);
    assert(numbered(s, i));
}

/// Every label below the first unused one occurs.
proof fn lemma_labels_used(s: Seq<u32>, i: int, l: int)
    requires
        canonical(s),
        0 <= i <= s.len(),
        0 <= l < next_label(s, i),
    ensures
        exists|j: int| 0 <= j < i && #[trigger] s[j] == l,
    decreases i,
{
    if i > 0 {
        lemma_canonical_at(s, i - 1);
        if l < next_label(s, i - 1) {
            lemma_labels_used(s, i - 1, l);
        } else {
            assert(s[i - 1] == l);
        }
    }
}

/// Every label that occurs is below the first unused one.
proof fn lemma_labels_below(s: Seq<u32>, i: int, j: int)
    requires
        0 <= j < i <= s.len(),
    ensures
        s[j] < next_label(s, i),
        0 <= next_label(s, i),
    decreases i,
{
    lemma_next_label_nonneg(s, i - 1);
    if j < i - 1 {
        lemma_labels_below(s, i - 1, j);
    }
}

proof fn lemma_next_label_nonneg(s: Seq<u32>, i: int)
    ensures
        0 <= next_label(s, i),
    decreases i,
{
    if i > 0 {
        lemma_next_label_nonneg(s, i - 1);
    }
}

/// Numbering by first occurrence leaves no choice.
proof fn lemma_canonical_unique(x: Seq<u32>, y: Seq<u32>, i: int)
    requires
        canonical(x),
        canonical(y),
        x.len() == y.len(),
        refines(x, y),
        refines(y, x),
        0 <= i <= x.len(),
    ensures
        x.take(i) == y.take(i),
        next_label(x, i) == next_label(y, i),
    decreases i,
{
    if i > 0 {
        lemma_canonical_unique(x, y, i - 1);
        let k = i - 1;
        lemma_canonical_at(x, k);
        lemma_canonical_at(y, k);
        assert forall|j: int| 0 <= j < k implies #[trigger] x[j] == y[j] by {
            assert(x.take(k)[j] == y.take(k)[j]);
        }
        if x[k] < next_label(x, k) {
            lemma_labels_used(x, k, x[k] as int);
            let j = choose|j: int| 0 <= j < k && #[trigger] x[j] == x[k];
            assert(y[j] == y[k]);
        } else if y[k] < next_label(y, k) {
            lemma_labels_used(y, k, y[k] as int);
            let j = choose|j: int| 0 <= j < k && #[trigger] y[j] == y[k];
            assert(x[j] == x[k]);
            lemma_labels_below(x, k, j);
        }
        assert(x[k] == y[k]);
        assert(x.take(i) =~= y.take(i));
    }
}

/// The pairs of nodes that share a class.
spec fn together(s: Seq<u32>) -> Set<(int, int)> {
    Set::new(|p: (int, int)| 0 <= p.0 < s.len() && 0 <= p.1 < s.len() && s[p.0] == s[p.1])
}

proof fn lemma_together_finite(s: Seq<u32>)
    ensures
        together(s).finite(),
{
    let n = s.len() as int;
    let codes = vstd::set_lib::set_int_range(0, n * n);
    vstd::set_lib::lemma_int_range(0, n * n);
    let square = codes.map(|k: int| (k / n, k % n));
    codes.lemma_map_finite(|k: int| (k / n, k % n));
    assert forall|p: (int, int)| together(s).contains(p) implies square.contains(p) by {
        let k = p.0 * n + p.1;
        assert(0 <= k < n * n) by (nonlinear_arith)
            requires
                0 <= p.0 < n,
                0 <= p.1 < n,
                k == p.0 * n + p.1,
        ;
        vstd::arithmetic::div_mod::lemma_fundamental_div_mod_converse(k, n, p.0, p.1);
        assert(codes.contains(k));
        assert((k / n, k % n) == p);
    }
    assert(together(s).subset_of(square));
    vstd::set_lib::lemma_len_subset(together(s), square);
}

/// A round that changes the labels parts two nodes that were together.
proof fn lemma_progress(cur: Seq<u32>, new: Seq<u32>)
    requires
        cur.len() == new.len(),
        canonical(cur),
        canonical(new),
        refines(new, cur),
        cur != new,
    ensures
        together(new).len() < together(cur).len(),
{
    lemma_together_finite(cur);
    lemma_together_finite(new);
    assert(together(new).subset_of(together(cur)));
    if refines(cur, new) {
        lemma_canonical_unique(cur, new, cur.len() as int);
        assert(cur.take(cur.len() as int) =~= cur);
        assert(new.take(new.len() as int) =~= new);
    }
    let (a, b) = choose|a: int, b: int|
        0 <= a < cur.len() && 0 <= b < cur.len() && #[trigger] cur[a] == #[trigger] cur[b] && new[a]
            != new[b];
    assert(together(cur).contains((a, b)));
    assert(!together(new).contains((a, b)));
    vstd::set_lib::lemma_len_subset(together(new), together(cur).remove((a, b)));
}

proof fn lemma_next_label_prefix(s: Seq<u32>, t: Seq<u32>, i: int)
    requires
        i <= s.len(),
        i <= t.len(),
        forall|j: int| 0 <= j < i ==> s[j] == t[j],
    ensures
        next_label(s, i) == next_label(t, i),
    decreases i,
{
    if i > 0 {
        lemma_next_label_prefix(s, t, i - 1);
    }
}

/// Renumbers labels in the order in which they first occur.
fn canonicalize_boundary_classes(labels: &Vec<u32>) -> (r: Vec<u32>)
    requires
        labels@.len() <= u32::MAX,
    ensures
        r@.len() == labels@.len(),
        canonical(r@),
        refines(r@, labels@),
        refines(labels@, r@),
{
    broadcast use vstd::std_specs::hash::group_hash_axioms;

    let mut old_to_new: HashMap<u32, u32> = HashMap::new();
    let mut r: Vec<u32> = Vec::new();
    let mut next: u32 = 0;
    let mut i: usize = 0;
    while i < labels.len()
        invariant
            i <= labels@.len(),
            labels@.len() <= u32::MAX,
            r@.len() == i,
            next <= i,
            next == next_label(r@, i as int),
            forall|j: int| 0 <= j < i ==> #[trigger] numbered(r@, j),
            forall|j: int|
                0 <= j < i ==> old_to_new@.contains_key(#[trigger] labels@[j])
                    && old_to_new@[labels@[j]] == r@[j],
            forall|l: u32| #[trigger] old_to_new@.contains_key(l) ==> old_to_new@[l] < next,
            forall|l: u32|
                #[trigger] old_to_new@.contains_key(l) ==> exists|j: int|
                    0 <= j < i && #[trigger] labels@[j] == l,
            forall|l: u32, m: u32| #[trigger]
                old_to_new@.contains_key(l) && #[trigger] old_to_new@.contains_key(m)
                    && old_to_new@[l] == old_to_new@[m] ==> l == m,
        decreases labels@.len() - i,
    {
        broadcast use vstd::std_specs::hash::group_hash_axioms;

        let label: u32 = labels[i];
        let ghost before = r@;
        let ghost known = old_to_new@;
        let found: Option<u32> = match old_to_new.get(&label) {
            Some(l) => Some(*l),
            None => None,
        };
        match found {
            Some(l) => {
                r.push(l);
            },
            None => {
                old_to_new.insert(label, next);
                r.push(next);
                next += 1;
            },
        }
        proof {
            lemma_next_label_prefix(r@, before, i as int);
            assert forall|j: int| 0 <= j < i + 1 implies #[trigger] numbered(r@, j) by {
                lemma_next_label_prefix(r@, before, j);
                if j < i {
                    assert(numbered(before, j));
                }
            }
            assert(labels@[i as int] == label);
            assert forall|l: u32| #[trigger] old_to_new@.contains_key(l) implies exists|j: int|
                0 <= j < i + 1 && #[trigger] labels@[j] == l by {
                if l != label {
                    assert(known.contains_key(l));
                    let j = choose|j: int| 0 <= j < i && #[trigger] labels@[j] == l;
                    assert(labels@[j] == l);
                }
            }
        }
        i += 1;
    }
    proof {
        reveal(canonical);
    }
    r
}

/// The classes that the neighbours of a node fall into, in order.
fn signature(adjacent: &Vec<u32>, cls: &Vec<u32>) -> (r: Vec<u32>)
    requires
        forall|i: int| 0 <= i < adjacent@.len() ==> #[trigger] adjacent@[i] < cls@.len(),
    ensures
        sorting::nondecreasing(r@),
        r@.to_multiset() == labels(cls@, adjacent@).to_multiset(),
{
    let mut all: Vec<u32> = Vec::new();
    let mut i: usize = 0;
    while i < adjacent.len()
        invariant
            i <= adjacent@.len(),
            forall|j: int| 0 <= j < adjacent@.len() ==> #[trigger] adjacent@[j] < cls@.len(),
            all@.len() == i,
            forall|j: int| 0 <= j < i ==> #[trigger] all@[j] == cls@[adjacent@[j] as int],
        decreases adjacent@.len() - i,
    {
        all.push(cls[adjacent[i] as usize]);
        i += 1;
    }
    assert(all@ =~= labels(cls@, adjacent@));
    sorting::sort_numbers(all)
}

/// Sorted words with the same letters are the same word.
proof fn lemma_signatures_agree(a: Seq<u32>, b: Seq<u32>)
    requires
        sorting::nondecreasing(a),
        sorting::nondecreasing(b),
    ensures
        a == b <==> a.to_multiset() == b.to_multiset(),
{
    if a.to_multiset() == b.to_multiset() {
        let le = |x: u32, y: u32| x <= y;
        vstd::seq_lib::lemma_sorted_unique(a, b, le);
    }
}

/// The signatures of all nodes.
fn signatures(g: &ViableGraph, cls: &Vec<u32>) -> (r: Vec<Vec<u32>>)
    requires
        cls@.len() == g@.n(),
    ensures
        r@.len() == g@.n(),
        forall|a: int|
            0 <= a < g@.n() ==> sorting::nondecreasing(#[trigger] r@[a]@)
                && r@[a]@.to_multiset() == met(g@, cls@, a),
{
    let adjacency: &Vec<Vec<u32>> = g.adjacency();
    let mut r: Vec<Vec<u32>> = Vec::new();
    let mut a: usize = 0;
    assert(rows(adjacency@).len() == g@.n());
    while a < adjacency.len()
        invariant
            a <= adjacency@.len(),
            rows(adjacency@) == g@.adj,
            adjacency@.len() == g@.n(),
            g@.wf(),
            cls@.len() == g@.n(),
            r@.len() == a,
            forall|b: int|
                0 <= b < a ==> sorting::nondecreasing(#[trigger] r@[b]@)
                    && r@[b]@.to_multiset() == met(g@, cls@, b),
        decreases adjacency@.len() - a,
    {
        assert(g@.adj[a as int] == adjacency@[a as int]@);
        assert forall|i: int| 0 <= i < adjacency@[a as int]@.len() implies #[trigger] adjacency@[a as int]@[i]
            < cls@.len() by {
            assert(g@.adj[a as int][i] < g@.n());
        }
        r.push(signature(&adjacency[a], cls));
        a += 1;
    }
    r
}

/// The order of nodes by their words.
spec fn node_order(words: Seq<Vec<u32>>) -> spec_fn(u32, u32) -> bool {
    |a: u32, b: u32| sorting::word_le(words[a as int]@, words[b as int]@, 0)
}

/// The nodes in the order of their words.
fn sort_nodes(words: &Vec<Vec<u32>>) -> (r: Vec<u32>)
    requires
        words@.len() <= u32::MAX,
    ensures
        r@.len() == words@.len(),
        r@.no_duplicates(),
        forall|i: int| 0 <= i < r@.len() ==> #[trigger] r@[i] < words@.len(),
        forall|a: int| 0 <= a < words@.len() ==> r@.contains(#[trigger] (a as u32)),
        sorting::in_order(r@, node_order(words@)),
{
    broadcast use vstd::seq_lib::group_to_multiset_ensures;

    let mut all: Vec<u32> = Vec::new();
    let mut i: u32 = 0;
    while (i as usize) < words.len()
        invariant
            i <= words@.len(),
            words@.len() <= u32::MAX,
            all@.len() == i,
            forall|j: int| 0 <= j < i ==> #[trigger] all@[j] == j,
        decreases words@.len() - i,
    {
        all.push(i);
        i += 1;
    }
    let ghost dom = |a: u32| a < words@.len();
    let ghost rel = node_order(words@);
    let f = |a: u32, b: u32| -> (r: bool)
        requires
            a < words@.len(),
            b < words@.len(),
        ensures
            r == sorting::word_le(words@[a as int]@, words@[b as int]@, 0),
        { sorting::word_at_most(&words[a as usize], &words[b as usize]) };
    proof {
        assert forall|a: u32, b: u32| dom(a) && dom(b) implies #[trigger] rel(a, b) || rel(b, a) by {
            sorting::lemma_word_total(words@[a as int]@, words@[b as int]@, 0);
        }
        assert forall|a: u32, b: u32, c: u32|
            dom(a) && dom(b) && dom(c) && #[trigger] rel(a, b) && #[trigger] rel(
                b,
                c,
            ) implies rel(a, c) by {
            sorting::lemma_word_transitive(
                words@[a as int]@,
                words@[b as int]@,
                words@[c as int]@,
                0,
            );
        }
    }
    let ghost ordered = all@;
    let r: Vec<u32> = sorting::merge_sort(all, &f, Ghost(dom), Ghost(rel));
    proof {
        assert(r@.len() == r@.to_multiset().len());
        assert(ordered.len() == ordered.to_multiset().len());
        assert(ordered.no_duplicates());
        ordered.lemma_multiset_has_no_duplicates();
        r@.lemma_multiset_has_no_duplicates_conv();
        assert forall|a: int| 0 <= a < words@.len() implies r@.contains(#[trigger] (a as u32)) by {
            assert(ordered[a] == a as u32);
            assert(ordered.contains(a as u32));
            assert(ordered.to_multiset().count(a as u32) > 0);
            assert(r@.to_multiset().count(a as u32) > 0);
        }
        assert forall|i: int| 0 <= i < r@.len() implies #[trigger] r@[i] < words@.len() by {
            assert(dom(r@[i]));
        }
    }
    r
}

/// Labels nodes so that two share a label exactly if their words agree.
fn label_by_words(words: &Vec<Vec<u32>>) -> (r: Vec<u32>)
    requires
        words@.len() <= u32::MAX,
    ensures
        r@.len() == words@.len(),
        forall|a: int, b: int|
            0 <= a < words@.len() && 0 <= b < words@.len() ==> ((#[trigger] r@[a] == #[trigger] r@[b])
                <==> words@[a]@ == words@[b]@),
{
    let order: Vec<u32> = sort_nodes(words);
    let n: usize = words.len();
    let mut r: Vec<u32> = vec![0; n];
    let mut next: u32 = 0;
    let mut pos: usize = 0;
    while pos < n
        invariant
            pos <= n,
            n == words@.len(),
            n <= u32::MAX,
            n == order@.len(),
            r@.len() == n,
            order@.no_duplicates(),
            forall|i: int| 0 <= i < order@.len() ==> #[trigger] order@[i] < words@.len(),
            sorting::in_order(order@, node_order(words@)),
            pos > 0 ==> next < pos,
            pos == 0 ==> next == 0,
            pos > 0 ==> r@[order@[pos - 1] as int] == next,
            forall|p: int| 0 <= p < pos ==> r@[#[trigger] order@[p] as int] <= next,
            forall|p: int, q: int|
                0 <= p < q < pos ==> ((r@[#[trigger] order@[p] as int] == r@[#[trigger] order@[q] as int])
                    <==> words@[order@[p] as int]@ == words@[order@[q] as int]@),
        decreases n - pos,
    {
        let node: u32 = order[pos];
        let mut fresh: bool = false;
        if pos > 0 {
            let prev: u32 = order[pos - 1];
            fresh = !same_word(&words[node as usize], &words[prev as usize]);
        }
        if fresh {
            next += 1;
        }
        let ghost before = r@;
        r.set(node as usize, next);
        proof {
            assert forall|p: int| 0 <= p < pos implies r@[#[trigger] order@[p] as int]
                == before[order@[p] as int] by {
                assert(order@[p] != order@[pos as int]);
            }
            assert forall|p: int| 0 <= p < pos implies ((r@[#[trigger] order@[p] as int]
                == r@[node as int]) <==> words@[order@[p] as int]@ == words@[node as int]@) by {
                let prev = order@[pos - 1];
                let wp = words@[order@[p] as int]@;
                let wprev = words@[prev as int]@;
                let wn = words@[node as int]@;
                assert(node_order(words@)(prev, node));
                if p < pos - 1 {
                    assert(node_order(words@)(order@[p], prev));
                    if wp == wn {
                        sorting::lemma_word_antisymmetric(wp, wprev, 0);
                    }
                } else {
                    assert(order@[p] == prev);
                }
            }
        }
        pos += 1;
    }
    proof {
        assert forall|a: int, b: int|
            0 <= a < words@.len() && 0 <= b < words@.len() implies ((#[trigger] r@[a]
            == #[trigger] r@[b]) <==> words@[a]@ == words@[b]@) by {
            assert(order@.contains(a as u32));
            assert(order@.contains(b as u32));
            let p = choose|p: int| 0 <= p < order@.len() && order@[p] == a as u32;
            let q = choose|q: int| 0 <= q < order@.len() && order@[q] == b as u32;
            if p < q {
                assert((r@[order@[p] as int] == r@[order@[q] as int]) <==> words@[order@[p] as int]@
                    == words@[order@[q] as int]@);
            } else if q < p {
                assert((r@[order@[q] as int] == r@[order@[p] as int]) <==> words@[order@[q] as int]@
                    == words@[order@[p] as int]@);
            }
        }
    }
    r
}

/// Whether two words agree.
fn same_word(a: &Vec<u32>, b: &Vec<u32>) -> (r: bool)
    ensures
        r == (a@ == b@),
{
    if a.len() != b.len() {
        return false;
    }
    let mut i: usize = 0;
    while i < a.len()
        invariant
            i <= a@.len(),
            a@.len() == b@.len(),
            forall|j: int| 0 <= j < i ==> a@[j] == b@[j],
        decreases a@.len() - i,
    {
        if a[i] != b[i] {
            return false;
        }
        i += 1;
    }
    assert(a@ =~= b@);
    true
}

/// One round of refinement.
fn refine(g: &ViableGraph, cls: &Vec<u32>) -> (r: Vec<u32>)
    requires
        cls@.len() == g@.n(),
        g@.wf(),
    ensures
        one_round(g@, cls@, r@),
        canonical(r@),
{
    let words: Vec<Vec<u32>> = signatures(g, cls);
    let by_words: Vec<u32> = label_by_words(&words);
    let r: Vec<u32> = canonicalize_boundary_classes(&by_words);
    proof {
        assert forall|a: int, b: int| 0 <= a < g@.n() && 0 <= b < g@.n() implies ((#[trigger] r@[a]
            == #[trigger] r@[b]) <==> met(g@, cls@, a) == met(g@, cls@, b)) by {
            lemma_signatures_agree(words@[a]@, words@[b]@);
            if r@[a] == r@[b] {
                assert(by_words@[a] == by_words@[b]);
            }
            if by_words@[a] == by_words@[b] {
                assert(r@[a] == r@[b]);
            }
        }
    }
    r
}

/// What meets the same classes shares a class.
spec fn settled(g: GraphView, cls: Seq<u32>) -> bool {
    forall|a: int, b: int|
        0 <= a < g.n() && 0 <= b < g.n() && #[trigger] met(g, cls, a) == #[trigger] met(g, cls, b)
            ==> cls[a] == cls[b]
}

/// One round keeps what refinement keeps.
proof fn lemma_round(g: GraphView, cur: Seq<u32>, new: Seq<u32>)
    requires
        g.wf(),
        cur.len() == g.n(),
        settled(g, cur),
        one_round(g, cur, new),
        forall|q: Seq<u32>| #[trigger] stable(g, q) ==> refines(q, cur),
    ensures
        refines(new, cur),
        settled(g, new),
        forall|q: Seq<u32>| #[trigger] stable(g, q) ==> refines(q, new),
{
    assert forall|a: int, b: int|
        0 <= a < new.len() && 0 <= b < new.len() && #[trigger] new[a]
            == #[trigger] new[b] implies cur[a] == cur[b] by {
        assert(met(g, cur, a) == met(g, cur, b));
    }
    assert forall|a: int, b: int|
        0 <= a < g.n() && 0 <= b < g.n() && #[trigger] met(g, new, a) == #[trigger] met(
            g,
            new,
            b,
        ) implies new[a] == new[b] by {
        lemma_met_coarser(g, new, cur, a, b);
    }
    assert forall|q: Seq<u32>| #[trigger] stable(g, q) implies refines(q, new) by {
        assert forall|a: int, b: int|
            0 <= a < q.len() && 0 <= b < q.len() && #[trigger] q[a] == #[trigger] q[b] implies new[a]
            == new[b] by {
            assert(met(g, q, a) == met(g, q, b));
            lemma_met_coarser(g, q, cur, a, b);
        }
    }
}

/// The partition that [`boundary`] describes, as labels of the nodes.
fn coarsest(g: &ViableGraph) -> (r: Vec<u32>)
    ensures
        boundary(g@, r@),
{
    let n: usize = g.n_nodes();
    let mut cur: Vec<u32> = vec![0; n];
    proof {
        reveal(canonical);
        assert forall|i: int| 0 <= i < cur@.len() implies #[trigger] numbered(cur@, i) by {
            lemma_next_label_nonneg(cur@, i);
        }
    }
    loop
        invariant
            cur@.len() == g@.n(),
            g@.wf(),
            settled(g@, cur@),
            canonical(cur@),
            forall|q: Seq<u32>| #[trigger] stable(g@, q) ==> refines(q, cur@),
        decreases together(cur@).len(),
    {
        let new: Vec<u32> = refine(g, &cur);
        proof {
            lemma_round(g@, cur@, new@);
        }
        if same_word(&new, &cur) {
            return cur;
        }
        proof {
            lemma_progress(cur@, new@);
        }
        cur = new;
    }
}

/// There is one partition that [`boundary`] describes.
pub proof fn boundary_is_unique(g: GraphView, x: Seq<u32>, y: Seq<u32>)
    requires
        boundary(g, x),
        boundary(g, y),
    ensures
        x == y,
{
    assert(stable(g, x));
    assert(stable(g, y));
    lemma_canonical_unique(x, y, x.len() as int);
    assert(x.take(x.len() as int) =~= x);
    assert(y.take(y.len() as int) =~= y);
}

/// The partition that [`boundary`] describes.
pub open spec fn partition(g: GraphView) -> Seq<u32> {
    choose|cls: Seq<u32>| boundary(g, cls)
}

/// Partition of a [`ViableGraph`]'s nodes into boundary classes, computed by
/// [`ViableGraph::boundary_classes`].
pub struct BoundaryClasses {
    id_to_class: HashMap<u64, BoundaryClassId>,
    ids: Vec<u64>,
    n_classes: usize,
}

impl View for BoundaryClasses {
    type V = Map<u64, u32>;

    /// The class of each record.
    closed spec fn view(&self) -> Map<u64, u32> {
        self.id_to_class@
    }
}

impl BoundaryClasses {
    /// The number of classes.
    pub closed spec fn count(&self) -> int {
        self.n_classes as int
    }

    #[verifier::type_invariant]
    spec fn inv(&self) -> bool {
        &&& forall|id: u64| #[trigger]
            self.id_to_class@.contains_key(id) ==> self.id_to_class@[id] < self.n_classes
        &&& sorting::rising(self.ids@)
        &&& forall|id: u64| self.ids@.contains(id) <==> #[trigger] self.id_to_class@.contains_key(id)
    }

    /// The number of distinct classes.
    pub fn n_classes(&self) -> (r: usize)
        ensures
            r == self.count(),
    {
        self.n_classes
    }

    /// The class of `id`, if it was a node of the graph.
    pub fn class_of(&self, id: u64) -> (r: Option<BoundaryClassId>)
        ensures
            r == (if self@.contains_key(id) {
                Some(self@[id])
            } else {
                None
            }),
    {
        broadcast use vstd::std_specs::hash::group_hash_axioms;

        match self.id_to_class.get(&id) {
            Some(c) => Some(*c),
            None => None,
        }
    }

    /// Whether `a` and `b` are both nodes of the graph and share a class.
    pub fn same_class(&self, a: u64, b: u64) -> (r: bool)
        ensures
            r == (self@.contains_key(a) && self@.contains_key(b) && self@[a] == self@[b]),
    {
        match (self.class_of(a), self.class_of(b)) {
            (Some(x), Some(y)) => x == y,
            _ => false,
        }
    }

    /// The ids grouped by class: ascending classes, ascending ids in each.
    pub fn classes(&self) -> (r: Vec<Vec<u64>>)
        ensures
            r@.len() == self.count(),
            forall|c: int| 0 <= c < r@.len() ==> sorting::rising(#[trigger] r@[c]@),
            forall|c: int, id: u64|
                0 <= c < r@.len() ==> ((#[trigger] r@[c]@.contains(id)) <==> self@.contains_key(id)
                    && self@[id] == c),
    {
        broadcast use vstd::std_specs::hash::group_hash_axioms;

        proof {
            use_type_invariant(self);
        }
        let mut groups: Vec<Vec<u64>> = Vec::new();
        while groups.len() < self.n_classes
            invariant
                groups@.len() <= self.n_classes,
                forall|c: int| 0 <= c < groups@.len() ==> #[trigger] groups@[c]@ == Seq::<u64>::empty(),
            decreases self.n_classes - groups@.len(),
        {
            groups.push(Vec::new());
        }
        let mut i: usize = 0;
        while i < self.ids.len()
            invariant
                i <= self.ids@.len(),
                self.inv(),
                groups@.len() == self.n_classes,
                forall|c: int| 0 <= c < groups@.len() ==> sorting::rising(#[trigger] groups@[c]@),
                forall|c: int, k: int|
                    0 <= c < groups@.len() && 0 <= k < groups@[c]@.len() ==> self.id_to_class@.contains_key(
                        #[trigger] groups@[c]@[k],
                    ) && self.id_to_class@[groups@[c]@[k]] == c && (exists|j: int|
                        0 <= j < i && #[trigger] self.ids@[j] == groups@[c]@[k]),
                forall|j: int|
                    0 <= j < i ==> groups@[self.id_to_class@[#[trigger] self.ids@[j]] as int]@.contains(
                        self.ids@[j],
                    ),
            decreases self.ids@.len() - i,
        {
            broadcast use vstd::std_specs::hash::group_hash_axioms;

            let id: u64 = self.ids[i];
            proof {
                assert(self.ids@.contains(id));
                assert(self.id_to_class@.contains_key(id));
            }
            let c: u32 = *self.id_to_class.get(&id).unwrap();
            let ghost before = groups@;
            groups[c as usize].push(id);
            proof {
                let ci = c as int;
                assert(groups@[ci]@ =~= before[ci]@.push(id));
                assert forall|d: int| 0 <= d < groups@.len() && d != ci implies groups@[d]
                    == #[trigger] before[d] by {}
                assert forall|d: int| 0 <= d < groups@.len() implies sorting::rising(
                    #[trigger] groups@[d]@,
                ) by {
                    assert(sorting::rising(before[d]@));
                    if d == ci {
                        assert forall|k: int| 0 <= k < before[ci]@.len() implies #[trigger] before[ci]@[k]
                            < id by {
                            let j = choose|j: int| 0 <= j < i && #[trigger] self.ids@[j] == before[ci]@[k];
                            assert(self.ids@[j] < self.ids@[i as int]);
                        }
                    }
                }
                assert forall|d: int, k: int|
                    0 <= d < groups@.len() && 0 <= k < groups@[d]@.len() implies self.id_to_class@.contains_key(
                    #[trigger] groups@[d]@[k],
                ) && self.id_to_class@[groups@[d]@[k]] == d && (exists|j: int|
                    0 <= j < i + 1 && #[trigger] self.ids@[j] == groups@[d]@[k]) by {
                    if d == ci && k == before[ci]@.len() {
                        assert(self.ids@[i as int] == groups@[d]@[k]);
                    } else {
                        assert(groups@[d]@[k] == before[d]@[k]);
                        let j = choose|j: int| 0 <= j < i && #[trigger] self.ids@[j] == before[d]@[k];
                        assert(self.ids@[j] == groups@[d]@[k]);
                    }
                }
                assert forall|j: int| 0 <= j < i + 1 implies groups@[self.id_to_class@[#[trigger] self.ids@[j]] as int]@.contains(
                self.ids@[j]) by {
                    let d = self.id_to_class@[self.ids@[j]] as int;
                    assert(self.ids@.contains(self.ids@[j]));
                    assert(self.id_to_class@.contains_key(self.ids@[j]));
                    if j < i {
                        assert(before[d]@.contains(self.ids@[j]));
                        let k = choose|k: int| 0 <= k < before[d]@.len() && before[d]@[k] == self.ids@[j];
                        if d == ci {
                            assert(groups@[ci]@[k] == self.ids@[j]);
                        } else {
                            assert(groups@[d] == before[d]);
                        }
                    } else {
                        assert(groups@[ci]@[before[ci]@.len() as int] == id);
                    }
                }
            }
            i += 1;
        }
        proof {
            assert forall|c: int, id: u64| 0 <= c < groups@.len() implies ((#[trigger] groups@[c]@.contains(
                id,
            )) <==> self@.contains_key(id) && self@[id] == c) by {
                if groups@[c]@.contains(id) {
                    let k = choose|k: int| 0 <= k < groups@[c]@.len() && groups@[c]@[k] == id;
                    assert(self.id_to_class@.contains_key(groups@[c]@[k]));
                }
                if self@.contains_key(id) {
                    assert(self.ids@.contains(id));
                    let j = choose|j: int| 0 <= j < self.ids@.len() && self.ids@[j] == id;
                    assert(groups@[self.id_to_class@[self.ids@[j]] as int]@.contains(self.ids@[j]));
                }
            }
        }
        groups
    }
}

/// No later entry of the first `n` repeats entry `j`.
spec fn is_last(ids: Seq<u64>, n: int, j: int) -> bool {
    0 <= j < n && forall|k: int| j < k < n ==> ids[k] != ids[j]
}

/// The class of each id, the distinct ids in order, and the number of
/// classes.
fn tabulate(ids: &Vec<u64>, cls: &Vec<u32>) -> (r: (HashMap<u64, u32>, Vec<u64>, usize))
    requires
        cls@.len() == ids@.len(),
        ids@.len() <= u32::MAX,
        canonical(cls@),
    ensures
        r.2 == next_label(cls@, ids@.len() as int),
        sorting::rising(r.1@),
        forall|id: u64| r.1@.contains(id) <==> #[trigger] r.0@.contains_key(id),
        forall|id: u64| #[trigger] r.0@.contains_key(id) <==> ids@.contains(id),
        forall|id: u64| #[trigger] r.0@.contains_key(id) ==> r.0@[id] < r.2,
        forall|j: int| #[trigger]
            is_last(ids@, ids@.len() as int, j) ==> r.0@[ids@[j]] == cls@[j],
{
    broadcast use vstd::std_specs::hash::group_hash_axioms;

    let mut id_to_class: HashMap<u64, u32> = HashMap::new();
    let mut distinct: Vec<u64> = Vec::new();
    let mut n_classes: usize = 0;
    let mut i: usize = 0;
    while i < ids.len()
        invariant
            i <= ids@.len(),
            cls@.len() == ids@.len(),
            ids@.len() <= u32::MAX,
            n_classes == next_label(cls@, i as int),
            n_classes <= i,
            canonical(cls@),
            forall|j: int| 0 <= j < i ==> #[trigger] cls@[j] < n_classes,
            distinct@.no_duplicates(),
            forall|id: u64| distinct@.contains(id) <==> #[trigger] id_to_class@.contains_key(id),
            forall|id: u64| #[trigger]
                id_to_class@.contains_key(id) <==> ids@.take(i as int).contains(id),
            forall|id: u64| #[trigger]
                id_to_class@.contains_key(id) ==> id_to_class@[id] < n_classes,
            forall|j: int| #[trigger]
                is_last(ids@, i as int, j) ==> id_to_class@[ids@[j]] == cls@[j],
        decreases ids@.len() - i,
    {
        broadcast use vstd::std_specs::hash::group_hash_axioms;

        let id: u64 = ids[i];
        let c: u32 = cls[i];
        proof {
            lemma_canonical_at(cls@, i as int);
        }
        let ghost known = id_to_class@;
        let ghost listed = distinct@;
        if !id_to_class.contains_key(&id) {
            distinct.push(id);
            proof {
                assert(!listed.contains(id));
            }
        }
        id_to_class.insert(id, c);
        if c as usize + 1 > n_classes {
            n_classes = c as usize + 1;
        }
        proof {
            let before = ids@.take(i as int);
            let after = ids@.take(i + 1);
            assert(after =~= before.push(id));
            assert forall|x: u64| #[trigger] id_to_class@.contains_key(x) <==> after.contains(
                x,
            ) by {
                if before.contains(x) {
                    let k = choose|k: int| 0 <= k < before.len() && before[k] == x;
                    assert(after[k] == x);
                }
                if x == id {
                    assert(after[i as int] == x);
                }
                if after.contains(x) && x != id {
                    let k = choose|k: int| 0 <= k < after.len() && after[k] == x;
                    assert(before[k] == x);
                }
            }
            assert forall|j: int| #[trigger] is_last(ids@, i + 1, j) implies id_to_class@[ids@[j]]
                == cls@[j] by {
                if j < i {
                    assert(ids@[i as int] != ids@[j]);
                    assert(is_last(ids@, i as int, j));
                }
            }
            assert forall|x: u64| distinct@.contains(x) <==> #[trigger] id_to_class@.contains_key(
                x,
            ) by {
                if known.contains_key(id) {
                    assert(listed.contains(id));
                } else {
                    assert(distinct@ =~= listed.push(id));
                    assert(distinct@[listed.len() as int] == id);
                    if listed.contains(x) {
                        let k = choose|k: int| 0 <= k < listed.len() && listed[k] == x;
                        assert(distinct@[k] == x);
                    }
                }
            }
        }
        i += 1;
    }
    let sorted: Vec<u64> = sorting::sort_ids(distinct);
    proof {
        assert(ids@.take(ids@.len() as int) =~= ids@);
    }
    (id_to_class, sorted, n_classes)
}

impl ViableGraph {
    /// Partitions the nodes into boundary classes: two nodes share a class
    /// exactly if their neighbours fall into the same classes the same
    /// number of times, and no partition with that property is coarser.
    pub fn boundary_classes(&self) -> (r: BoundaryClasses)
        ensures
            boundary(self@, partition(self@)),
            r.count() == next_label(partition(self@), self@.n()),
            forall|id: u64| #[trigger] r@.contains_key(id) <==> self@.has(id),
            forall|id: u64|
                #[trigger] r@.contains_key(id) ==> r@[id] == partition(self@)[self@.node(id)],
    {
        broadcast use vstd::std_specs::hash::group_hash_axioms;

        let cls: Vec<u32> = coarsest(self);
        proof {
            boundary_is_unique(self@, cls@, partition(self@));
        }
        let ids: &Vec<u64> = self.ids();
        let (id_to_class, sorted, n_classes) = tabulate(ids, &cls);
        let r: BoundaryClasses = BoundaryClasses { id_to_class, ids: sorted, n_classes };
        proof {
            assert forall|id: u64| #[trigger] r@.contains_key(id) implies r@[id] == partition(
                self@,
            )[self@.node(id)] by {
                let j = super::graph::lemma_last(self@, id);
                super::graph::lemma_node_unique(self@, j, id);
                assert(is_last(ids@, ids@.len() as int, j));
            }
        }
        r
    }
}

/// Every node has a class, and the classes are numbered without gaps from
/// zero.
pub proof fn classes_have_no_gaps(g: GraphView, c: int)
    requires
        boundary(g, partition(g)),
        0 <= c < next_label(partition(g), g.n()),
    ensures
        exists|a: int| 0 <= a < g.n() && #[trigger] partition(g)[a] == c,
{
    lemma_labels_used(partition(g), g.n(), c);
}

} // verus!
