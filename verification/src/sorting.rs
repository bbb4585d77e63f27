//! A verified merge sort, and the orders that the rest of the crate sorts by.

use vstd::prelude::*;

verus! {

/// `rel` is total and transitive on the values that satisfy `dom`.
pub open spec fn orders<T>(dom: spec_fn(T) -> bool, rel: spec_fn(T, T) -> bool) -> bool {
    &&& forall|a: T, b: T| dom(a) && dom(b) ==> #[trigger] rel(a, b) || rel(b, a)
    &&& forall|a: T, b: T, c: T|
        dom(a) && dom(b) && dom(c) && #[trigger] rel(a, b) && #[trigger] rel(b, c) ==> rel(a, c)
}

/// Whether every element of `s` is related to every later one.
pub open spec fn in_order<T>(s: Seq<T>, rel: spec_fn(T, T) -> bool) -> bool {
    forall|i: int, j: int| 0 <= i < j < s.len() ==> #[trigger] rel(s[i], s[j])
}

/// Whether every element of `s` satisfies `dom`.
pub open spec fn within<T>(s: Seq<T>, dom: spec_fn(T) -> bool) -> bool {
    forall|i: int| 0 <= i < s.len() ==> dom(#[trigger] s[i])
}

/// `le` decides `rel` on the values that satisfy `dom`.
pub open spec fn decides<T, F: Fn(T, T) -> bool>(
    le: F,
    dom: spec_fn(T) -> bool,
    rel: spec_fn(T, T) -> bool,
) -> bool {
    &&& forall|a: T, b: T| dom(a) && dom(b) ==> #[trigger] call_requires(le, (a, b))
    &&& forall|a: T, b: T, r: bool|
        dom(a) && dom(b) && #[trigger] call_ensures(le, (a, b), r) ==> r == rel(a, b)
}

fn merge<T: Copy, F: Fn(T, T) -> bool>(
    a: &Vec<T>,
    b: &Vec<T>,
    le: &F,
    Ghost(dom): Ghost<spec_fn(T) -> bool>,
    Ghost(rel): Ghost<spec_fn(T, T) -> bool>,
) -> (out: Vec<T>)
    requires
        within(a@, dom),
        within(b@, dom),
        orders(dom, rel),
        decides(*le, dom, rel),
        in_order(a@, rel),
        in_order(b@, rel),
        a@.len() + b@.len() <= usize::MAX,
    ensures
        within(out@, dom),
        in_order(out@, rel),
        out@.to_multiset() =~= (a@ + b@).to_multiset(),
{
    broadcast use vstd::seq_lib::group_to_multiset_ensures;

    let mut out: Vec<T> = Vec::new();
    let mut i: usize = 0;
    let mut j: usize = 0;
    proof {
        assert(a@.take(0) + b@.take(0) =~= out@);
    }
    while i < a.len() || j < b.len()
        invariant
            i <= a@.len(),
            j <= b@.len(),
            a@.len() + b@.len() <= usize::MAX,
            within(a@, dom),
            within(b@, dom),
            orders(dom, rel),
            decides(*le, dom, rel),
            in_order(a@, rel),
            in_order(b@, rel),
            within(out@, dom),
            in_order(out@, rel),
            out@.to_multiset() =~= (a@.take(i as int) + b@.take(j as int)).to_multiset(),
            forall|k: int|
                #![trigger out@[k]]
                0 <= k < out@.len() && i < a@.len() ==> rel(out@[k], a@[i as int]),
            forall|k: int|
                #![trigger out@[k]]
                0 <= k < out@.len() && j < b@.len() ==> rel(out@[k], b@[j as int]),
        decreases a@.len() + b@.len() - i - j,
    {
        let ghost before = out@;
        let take_left: bool = if i < a.len() {
            if j < b.len() {
                le(a[i], b[j])
            } else {
                true
            }
        } else {
            false
        };
        if take_left {
            out.push(a[i]);
            proof {
                broadcast use vstd::seq_lib::group_to_multiset_ensures;

                assert(out@ =~= before.push(a@[i as int]));
                assert(a@.take(i + 1) =~= a@.take(i as int).push(a@[i as int]));
                lemma_push_left(a@.take(i as int), b@.take(j as int), a@[i as int]);
                if i + 1 < a@.len() {
                    assert(rel(a@[i as int], a@[i + 1]));
                }
                assert forall|k: int|
                    #![trigger out@[k]]
                    0 <= k < out@.len() && i + 1 < a@.len() implies rel(out@[k], a@[i + 1]) by {
                    if k < before.len() {
                        assert(rel(before[k], a@[i as int]));
                        assert(rel(a@[i as int], a@[i + 1]));
                    }
                }
                if j < b@.len() {
                    assert(dom(a@[i as int]) && dom(b@[j as int]));
                }
            }
            i += 1;
        } else {
            out.push(b[j]);
            proof {
                broadcast use vstd::seq_lib::group_to_multiset_ensures;

                assert(out@ =~= before.push(b@[j as int]));
                assert(b@.take(j + 1) =~= b@.take(j as int).push(b@[j as int]));
                assert(a@.take(i as int) + b@.take(j + 1) =~= (a@.take(i as int) + b@.take(
                    j as int,
                )).push(b@[j as int]));
                if i < a@.len() {
                    assert(dom(a@[i as int]) && dom(b@[j as int]));
                    assert(rel(b@[j as int], a@[i as int]));
                }
                assert forall|k: int|
                    #![trigger out@[k]]
                    0 <= k < out@.len() && j + 1 < b@.len() implies rel(out@[k], b@[j + 1]) by {
                    if k < before.len() {
                        assert(rel(before[k], b@[j as int]));
                        assert(rel(b@[j as int], b@[j + 1]));
                    } else {
                        assert(rel(b@[j as int], b@[j + 1]));
                    }
                }
            }
            j += 1;
        }
    }
    proof {
        assert(a@.take(i as int) =~= a@);
        assert(b@.take(j as int) =~= b@);
    }
    out
}

proof fn lemma_push_left<T>(a: Seq<T>, b: Seq<T>, x: T)
    ensures
        (a.push(x) + b).to_multiset() =~= (a + b).to_multiset().insert(x),
{
    broadcast use vstd::seq_lib::group_to_multiset_ensures;

    vstd::seq_lib::lemma_multiset_commutative(a.push(x), b);
    vstd::seq_lib::lemma_multiset_commutative(a, b);
}

/// Sorts `v` by `rel`, which `le` decides.
pub(crate) fn merge_sort<T: Copy, F: Fn(T, T) -> bool>(
    v: Vec<T>,
    le: &F,
    Ghost(dom): Ghost<spec_fn(T) -> bool>,
    Ghost(rel): Ghost<spec_fn(T, T) -> bool>,
) -> (out: Vec<T>)
    requires
        within(v@, dom),
        orders(dom, rel),
        decides(*le, dom, rel),
    ensures
        within(out@, dom),
        in_order(out@, rel),
        out@.to_multiset() =~= v@.to_multiset(),
    decreases v@.len(),
{
    if v.len() <= 1 {
        return v;
    }
    let ghost all = v@;
    let half: usize = v.len() / 2;
    let mut left: Vec<T> = v;
    let right: Vec<T> = left.split_off(half);
    proof {
        assert(left@ + right@ =~= all);
        vstd::seq_lib::lemma_multiset_commutative(left@, right@);
    }
    let sorted_left: Vec<T> = merge_sort(left, le, Ghost(dom), Ghost(rel));
    let sorted_right: Vec<T> = merge_sort(right, le, Ghost(dom), Ghost(rel));
    proof {
        broadcast use vstd::seq_lib::group_to_multiset_ensures;
        assert(sorted_left@.len() == sorted_left@.to_multiset().len());
        assert(sorted_right@.len() == sorted_right@.to_multiset().len());
        assert(left@.len() == left@.to_multiset().len());
        assert(right@.len() == right@.to_multiset().len());
        vstd::seq_lib::lemma_multiset_commutative(sorted_left@, sorted_right@);
    }
    merge(&sorted_left, &sorted_right, le, Ghost(dom), Ghost(rel))
}

/// The order of pairs: by the first component, then by the second.
pub open spec fn pair_order() -> spec_fn((u64, u64), (u64, u64)) -> bool {
    |a: (u64, u64), b: (u64, u64)| a.0 < b.0 || (a.0 == b.0 && a.1 <= b.1)
}

/// The pairs of `s`, sorted.
pub open spec fn ranked(s: Seq<(u64, u64)>) -> Seq<(u64, u64)> {
    s.sort_by(pair_order())
}

/// What sorting does to a sequence of pairs.
pub proof fn lemma_ranked(s: Seq<(u64, u64)>)
    ensures
        in_order(ranked(s), pair_order()),
        ranked(s).to_multiset() =~= s.to_multiset(),
        ranked(s).len() == s.len(),
        forall|x: (u64, u64)| #[trigger] ranked(s).contains(x) <==> s.contains(x),
        s.no_duplicates() ==> ranked(s).no_duplicates(),
{
    broadcast use vstd::seq_lib::group_to_multiset_ensures;

    s.lemma_sort_by_ensures(pair_order());
    assert forall|x: (u64, u64)| #[trigger] ranked(s).contains(x) <==> s.contains(x) by {
        assert(ranked(s).to_multiset().count(x) == s.to_multiset().count(x));
    }
    assert(ranked(s).len() == ranked(s).to_multiset().len());
    assert(s.len() == s.to_multiset().len());
    if s.no_duplicates() {
        s.lemma_multiset_has_no_duplicates();
        ranked(s).lemma_multiset_has_no_duplicates_conv();
    }
}

/// Sorts pairs by their first component, then by their second.
pub fn rank_pairs(v: Vec<(u64, u64)>) -> (r: Vec<(u64, u64)>)
    ensures
        r@ == ranked(v@),
{
    let ghost dom = |a: (u64, u64)| true;
    let f = |a: (u64, u64), b: (u64, u64)| -> (r: bool)
        ensures
            r == pair_order()(a, b),
        { a.0 < b.0 || (a.0 == b.0 && a.1 <= b.1) };
    let r: Vec<(u64, u64)> = merge_sort(v, &f, Ghost(dom), Ghost(pair_order()));
    proof {
        v@.lemma_sort_by_ensures(pair_order());
        vstd::seq_lib::lemma_sorted_unique(r@, v@.sort_by(pair_order()), pair_order());
    }
    r
}

/// Whether `s` rises from each element to the next.
pub open spec fn increasing(s: Seq<u32>) -> bool {
    forall|i: int, j: int| 0 <= i < j < s.len() ==> #[trigger] s[i] < #[trigger] s[j]
}

/// Whether `s` never falls.
pub open spec fn nondecreasing(s: Seq<u32>) -> bool {
    forall|i: int, j: int| 0 <= i < j < s.len() ==> #[trigger] s[i] <= #[trigger] s[j]
}

/// Sorts numbers.
pub fn sort_numbers(v: Vec<u32>) -> (r: Vec<u32>)
    ensures
        nondecreasing(r@),
        r@.to_multiset() =~= v@.to_multiset(),
        r@.len() == v@.len(),
{
    broadcast use vstd::seq_lib::group_to_multiset_ensures;

    let ghost dom = |a: u32| true;
    let ghost rel = |a: u32, b: u32| a <= b;
    let f = |a: u32, b: u32| -> (r: bool)
        ensures
            r == (a <= b),
        { a <= b };
    let r: Vec<u32> = merge_sort(v, &f, Ghost(dom), Ghost(rel));
    proof {
        assert(r@.len() == r@.to_multiset().len());
        assert(v@.len() == v@.to_multiset().len());
        assert forall|i: int, j: int| 0 <= i < j < r@.len() implies #[trigger] r@[i]
            <= #[trigger] r@[j] by {
            assert(rel(r@[i], r@[j]));
        }
    }
    r
}

/// Sorts numbers and keeps one of each.
pub fn sort_distinct(v: Vec<u32>) -> (r: Vec<u32>)
    ensures
        increasing(r@),
        forall|x: u32| r@.contains(x) <==> v@.contains(x),
{
    broadcast use vstd::seq_lib::group_to_multiset_ensures;

    let sorted: Vec<u32> = sort_numbers(v);
    let mut r: Vec<u32> = Vec::new();
    let mut i: usize = 0;
    while i < sorted.len()
        invariant
            i <= sorted@.len(),
            nondecreasing(sorted@),
            increasing(r@),
            i > 0 <==> r@.len() > 0,
            i > 0 ==> r@.last() == sorted@[i - 1],
            forall|k: int| 0 <= k < i ==> r@.contains(#[trigger] sorted@[k]),
            forall|k: int| 0 <= k < r@.len() ==> sorted@.contains(#[trigger] r@[k]),
        decreases sorted@.len() - i,
    {
        let x: u32 = sorted[i];
        let fresh: bool = r.len() == 0 || r[r.len() - 1] != x;
        let ghost before = r@;
        if fresh {
            r.push(x);
            proof {
                assert forall|k: int| 0 <= k < before.len() implies #[trigger] before[k] < x by {
                    assert(before[k] <= before.last());
                    assert(i > 0);
                    assert(before.last() == sorted@[i - 1]);
                    assert(sorted@[i - 1] <= sorted@[i as int]);
                }
                assert forall|k: int| 0 <= k < i implies r@.contains(#[trigger] sorted@[k]) by {
                    let m = choose|m: int| 0 <= m < before.len() && before[m] == sorted@[k];
                    assert(before.contains(sorted@[k]));
                    assert(r@[m] == sorted@[k]);
                }
                assert(r@[r@.len() - 1] == x);
                assert(r@.contains(x));
            }
        } else {
            proof {
                assert(r@[r@.len() - 1] == x);
                assert(r@.contains(x));
            }
        }
        i += 1;
    }
    proof {
        assert forall|x: u32| r@.contains(x) <==> v@.contains(x) by {
            assert(sorted@.contains(x) <==> v@.contains(x)) by {
                assert(sorted@.to_multiset().count(x) == v@.to_multiset().count(x));
            }
            if r@.contains(x) {
                let k = choose|k: int| 0 <= k < r@.len() && r@[k] == x;
                assert(sorted@.contains(r@[k]));
            }
            if sorted@.contains(x) {
                let k = choose|k: int| 0 <= k < sorted@.len() && sorted@[k] == x;
                assert(r@.contains(sorted@[k]));
            }
        }
    }
    r
}

/// Whether the ids of `s` rise from each to the next.
pub open spec fn rising(s: Seq<u64>) -> bool {
    forall|i: int, j: int| 0 <= i < j < s.len() ==> #[trigger] s[i] < #[trigger] s[j]
}

/// Whether the ids of `s` never fall.
pub open spec fn climbing(s: Seq<u64>) -> bool {
    forall|i: int, j: int| 0 <= i < j < s.len() ==> #[trigger] s[i] <= #[trigger] s[j]
}

/// Sorts ids.
pub fn sort_ids(v: Vec<u64>) -> (r: Vec<u64>)
    ensures
        climbing(r@),
        v@.no_duplicates() ==> rising(r@),
        r@.to_multiset() =~= v@.to_multiset(),
        r@.len() == v@.len(),
        forall|x: u64| r@.contains(x) <==> v@.contains(x),
{
    broadcast use vstd::seq_lib::group_to_multiset_ensures;

    let ghost dom = |a: u64| true;
    let ghost rel = |a: u64, b: u64| a <= b;
    let f = |a: u64, b: u64| -> (r: bool)
        ensures
            r == (a <= b),
        { a <= b };
    let r: Vec<u64> = merge_sort(v, &f, Ghost(dom), Ghost(rel));
    proof {
        assert(r@.len() == r@.to_multiset().len());
        assert(v@.len() == v@.to_multiset().len());
        assert forall|i: int, j: int| 0 <= i < j < r@.len() implies #[trigger] r@[i]
            <= #[trigger] r@[j] by {
            assert(rel(r@[i], r@[j]));
        }
        if v@.no_duplicates() {
            v@.lemma_multiset_has_no_duplicates();
            r@.lemma_multiset_has_no_duplicates_conv();
        }
        assert forall|x: u64| r@.contains(x) <==> v@.contains(x) by {
            assert(r@.to_multiset().count(x) == v@.to_multiset().count(x));
        }
    }
    r
}

/// The order of words: by the first place in which they differ, with what
/// ends first below what goes on.
pub open spec fn word_le(a: Seq<u32>, b: Seq<u32>, k: int) -> bool
    decreases a.len() - k,
{
    if k >= a.len() {
        true
    } else if k >= b.len() {
        false
    } else {
        a[k] < b[k] || (a[k] == b[k] && word_le(a, b, k + 1))
    }
}

/// Two words are in order one way or the other.
pub proof fn lemma_word_total(a: Seq<u32>, b: Seq<u32>, k: int)
    ensures
        word_le(a, b, k) || word_le(b, a, k),
    decreases a.len() - k,
{
    if 0 <= k < a.len() && k < b.len() && a[k] == b[k] {
        lemma_word_total(a, b, k + 1);
    } else if k < 0 && k < a.len() && k < b.len() && a[k] == b[k] {
        lemma_word_total(a, b, k + 1);
    }
}

/// The order of words carries over.
pub proof fn lemma_word_transitive(a: Seq<u32>, b: Seq<u32>, c: Seq<u32>, k: int)
    requires
        word_le(a, b, k),
        word_le(b, c, k),
    ensures
        word_le(a, c, k),
    decreases a.len() - k,
{
    if k < a.len() && k < b.len() && k < c.len() && a[k] == b[k] && b[k] == c[k] {
        lemma_word_transitive(a, b, c, k + 1);
    }
}

/// Words that are in order both ways agree.
pub proof fn lemma_word_antisymmetric(a: Seq<u32>, b: Seq<u32>, k: int)
    requires
        word_le(a, b, k),
        word_le(b, a, k),
        0 <= k,
        forall|i: int| 0 <= i < k && i < a.len() && i < b.len() ==> a[i] == b[i],
        k <= a.len(),
        k <= b.len(),
    ensures
        a == b,
    decreases a.len() - k,
{
    if k < a.len() && k < b.len() {
        lemma_word_antisymmetric(a, b, k + 1);
    } else {
        assert(a =~= b);
    }
}

/// Whether word `a` comes no later than word `b`.
pub fn word_at_most(a: &[u32], b: &[u32]) -> (r: bool)
    ensures
        r == word_le(a@, b@, 0),
{
    let mut k: usize = 0;
    while k < a.len() && k < b.len() && a[k] == b[k]
        invariant
            k <= a@.len(),
            k <= b@.len(),
            word_le(a@, b@, 0) == word_le(a@, b@, k as int),
        decreases a@.len() - k,
    {
        k += 1;
    }
    k >= a.len() || (k < b.len() && a[k] < b[k])
}

} // verus!
