//! Building the graph: which records become nodes, and which nodes become
//! neighbours.

use vstd::prelude::*;

use super::graph::GraphView;
use super::graph::ViableGraph;
use crate::arith;
use crate::arith::Arith;
use crate::arith::Op;
use crate::order;
use crate::predicate;
use crate::predicate::Condition;
use crate::sorting;
use crate::vectors;
use crate::vectors::rows;

verus! {

/// The bit pattern of `0.5`.
pub const HALF: u32 = 0x3f00_0000;

/// The contents of a list of records.
pub open spec fn points(v: Seq<(u64, Vec<u32>)>) -> Seq<(u64, Seq<u32>)> {
    Seq::new(v.len(), |i: int| (v[i].0, v[i].1@))
}

/// Those of the first `n` records that satisfy `p`, in order.
pub open spec fn kept(p: Condition, records: Seq<(u64, Seq<u32>)>, n: int) -> Seq<
    (u64, Seq<u32>),
>
    decreases n,
{
    if n <= 0 {
        Seq::empty()
    } else if p(records[n - 1].1) {
        kept(p, records, n - 1).push(records[n - 1])
    } else {
        kept(p, records, n - 1)
    }
}

/// The nodes below `n` other than `a`, each with its distance from `a` as a
/// key to sort by.
pub open spec fn others(ar: Arith, coords: Seq<Seq<u32>>, a: int, n: int) -> Seq<(u64, u64)>
    decreases n,
{
    if n <= 0 {
        Seq::empty()
    } else if n - 1 == a {
        others(ar, coords, a, n - 1)
    } else {
        others(ar, coords, a, n - 1).push(
            (
                order::position_key(vectors::distance(ar, coords[a], coords[n - 1])) as u64,
                (n - 1) as u64,
            ),
        )
    }
}

/// Whether `b` is among the `k` nodes nearest to `a`; of nodes at one
/// distance the lower numbers come first.
pub open spec fn near(ar: Arith, coords: Seq<Seq<u32>>, k: int, a: int, b: int) -> bool {
    exists|i: int| #[trigger] near_at(ar, coords, k, a, b, i)
}

/// Whether `b` is the `i`-th nearest node to `a`, and `i` is below `k`.
pub open spec fn near_at(ar: Arith, coords: Seq<Seq<u32>>, k: int, a: int, b: int, i: int) -> bool {
    let ranked = sorting::ranked(others(ar, coords, a, coords.len() as int));
    0 <= i < k && i < ranked.len() && ranked[i].1 == b
}

/// The point halfway between two points.
pub open spec fn midpoint(ar: Arith, a: Seq<u32>, b: Seq<u32>) -> Seq<u32> {
    Seq::new(
        vectors::shorter(a.len() as int, b.len() as int) as nat,
        |j: int| ar(Op::Mul, HALF, ar(Op::Add, a[j], b[j], 0), 0),
    )
}

/// Whether `a` picks `b` as a neighbour: `b` is near, and, where midpoints
/// are checked, the point halfway satisfies the predicate.
pub open spec fn picks(
    ar: Arith,
    p: Condition,
    coords: Seq<Seq<u32>>,
    k: int,
    check: bool,
    a: int,
    b: int,
) -> bool {
    near(ar, coords, k, a, b) && (check ==> p(midpoint(ar, coords[a], coords[b])))
}

proof fn lemma_others(ar: Arith, coords: Seq<Seq<u32>>, a: int, n: int)
    requires
        0 <= n <= u32::MAX,
    ensures
        forall|i: int|
            0 <= i < others(ar, coords, a, n).len() ==> (#[trigger] others(ar, coords, a, n)[i]).1 < n
                && others(ar, coords, a, n)[i].1 != a,
    decreases n,
{
    if n > 0 {
        lemma_others(ar, coords, a, n - 1);
        let before = others(ar, coords, a, n - 1);
        let all = others(ar, coords, a, n);
        assert forall|i: int| 0 <= i < all.len() implies (#[trigger] all[i]).1 < n && all[i].1
            != a by {
            if i < before.len() {
                assert(all[i] == before[i]);
            }
        }
    }
}

/// What is near is another node.
proof fn lemma_near(ar: Arith, coords: Seq<Seq<u32>>, k: int, a: int, b: int)
    requires
        near(ar, coords, k, a, b),
        coords.len() <= u32::MAX,
    ensures
        0 <= b < coords.len(),
        b != a,
{
    let n = coords.len() as int;
    let all = others(ar, coords, a, n);
    lemma_others(ar, coords, a, n);
    sorting::lemma_ranked(all);
    let i = choose|i: int| #[trigger] near_at(ar, coords, k, a, b, i);
    let r = sorting::ranked(all);
    assert(r.contains(r[i]));
    assert(all.contains(r[i]));
    let j = choose|j: int| 0 <= j < all.len() && all[j] == r[i];
    assert(all[j].1 < n);
}

fn midpoint_of<F: Fn(Op, u32, u32, u32) -> u32>(fpu: &F, a: &[u32], b: &[u32]) -> (r: Vec<u32>)
    requires
        arith::is_unit(*fpu),
    ensures
        r@ == midpoint(arith::arith(*fpu), a@, b@),
{
    let mut r: Vec<u32> = Vec::new();
    let mut j: usize = 0;
    while j < a.len() && j < b.len()
        invariant
            j <= a@.len(),
            j <= b@.len(),
            arith::is_unit(*fpu),
            r@.len() == j,
            forall|i: int|
                0 <= i < j ==> #[trigger] r@[i] == midpoint(arith::arith(*fpu), a@, b@)[i],
        decreases a@.len() - j,
    {
        let sum: u32 = arith::binary(fpu, Op::Add, a[j], b[j]);
        r.push(arith::binary(fpu, Op::Mul, HALF, sum));
        j += 1;
    }
    assert(r@ =~= midpoint(arith::arith(*fpu), a@, b@));
    r
}

/// The nodes other than `a`, nearest first.
fn by_distance<F: Fn(Op, u32, u32, u32) -> u32>(fpu: &F, coords: &Vec<Vec<u32>>, a: usize) -> (r: Vec<
    (u64, u64),
>)
    requires
        arith::is_unit(*fpu),
        a < coords@.len(),
    ensures
        r@ == sorting::ranked(
            others(arith::arith(*fpu), rows(coords@), a as int, coords@.len() as int),
        ),
{
    let ghost ar = arith::arith(*fpu);
    let mut all: Vec<(u64, u64)> = Vec::new();
    let mut b: usize = 0;
    while b < coords.len()
        invariant
            a < coords@.len(),
            b <= coords@.len(),
            arith::is_unit(*fpu),
            ar == arith::arith(*fpu),
            all@ == others(ar, rows(coords@), a as int, b as int),
        decreases coords@.len() - b,
    {
        if b != a {
            let d: u32 = vectors::euclidean(fpu, &coords[a], &coords[b]);
            all.push((order::key_of_position(d), b as u64));
            proof {
                assert(rows(coords@)[a as int] == coords@[a as int]@);
                assert(rows(coords@)[b as int] == coords@[b as int]@);
            }
        }
        b += 1;
    }
    sorting::rank_pairs(all)
}

/// The nodes that `a` picks as neighbours.
fn picked<F: Fn(Op, u32, u32, u32) -> u32, P: Fn(&[u32]) -> bool>(
    fpu: &F,
    p: &P,
    Ghost(cond): Ghost<Condition>,
    coords: &Vec<Vec<u32>>,
    k: usize,
    check: bool,
    a: usize,
) -> (r: Vec<u32>)
    requires
        arith::is_unit(*fpu),
        predicate::decides(*p, cond),
        a < coords@.len(),
        coords@.len() <= u32::MAX,
    ensures
        forall|b: u32|
            r@.contains(b) <==> #[trigger] picks(
                arith::arith(*fpu),
                cond,
                rows(coords@),
                k as int,
                check,
                a as int,
                b as int,
            ),
{
    let ghost ar = arith::arith(*fpu);
    let ghost cs = rows(coords@);
    let nearest: Vec<(u64, u64)> = by_distance(fpu, coords, a);
    let mut r: Vec<u32> = Vec::new();
    let mut i: usize = 0;
    while i < k && i < nearest.len()
        invariant
            i <= k,
            i <= nearest@.len(),
            a < coords@.len(),
            coords@.len() <= u32::MAX,
            arith::is_unit(*fpu),
            predicate::decides(*p, cond),
            ar == arith::arith(*fpu),
            cs == rows(coords@),
            nearest@ == sorting::ranked(others(ar, cs, a as int, coords@.len() as int)),
            forall|b: u32|
                #![trigger r@.contains(b)]
                r@.contains(b) <==> (exists|j: int|
                    j < i && #[trigger] near_at(ar, cs, k as int, a as int, b as int, j)) && (check
                    ==> cond(midpoint(ar, cs[a as int], cs[b as int]))),
        decreases nearest@.len() - i,
    {
        let b: u32 = nearest[i].1 as u32;
        proof {
            let all = others(ar, cs, a as int, coords@.len() as int);
            lemma_others(ar, cs, a as int, coords@.len() as int);
            sorting::lemma_ranked(all);
            assert(nearest@.contains(nearest@[i as int]));
            let j = choose|j: int| 0 <= j < all.len() && all[j] == nearest@[i as int];
            assert(all.contains(nearest@[i as int]));
            assert(all[j].1 < coords@.len());
            assert(near_at(ar, cs, k as int, a as int, b as int, i as int));
            assert(cs[a as int] == coords@[a as int]@);
            assert(cs[b as int] == coords@[b as int]@);
        }
        let passes: bool = if check {
            let mid: Vec<u32> = midpoint_of(fpu, &coords[a], &coords[b as usize]);
            p(&mid)
        } else {
            true
        };
        let ghost before = r@;
        if passes {
            r.push(b);
            proof {
                assert(r@[before.len() as int] == b);
            }
        }
        proof {
            assert forall|c: u32| #![trigger r@.contains(c)] r@.contains(c) <==> (exists|j: int|
                j < i + 1 && #[trigger] near_at(ar, cs, k as int, a as int, c as int, j)) && (check
                ==> cond(midpoint(ar, cs[a as int], cs[c as int]))) by {
                assert(r@.contains(c) <==> before.contains(c) || (passes && c == b)) by {
                    if before.contains(c) {
                        let m = choose|m: int| 0 <= m < before.len() && before[m] == c;
                        assert(r@[m] == c);
                    }
                }
                if c == b {
                    assert(near_at(ar, cs, k as int, a as int, c as int, i as int));
                }
                if exists|j: int|
                    j < i + 1 && #[trigger] near_at(ar, cs, k as int, a as int, c as int, j) {
                    let j = choose|j: int|
                        j < i + 1 && #[trigger] near_at(ar, cs, k as int, a as int, c as int, j);
                    if j == i {
                        assert(c == b);
                    }
                }
            }
        }
        i += 1;
    }
    proof {
        assert forall|b: u32|
            r@.contains(b) <==> #[trigger] picks(ar, cond, cs, k as int, check, a as int, b as int) by {
            if near(ar, cs, k as int, a as int, b as int) {
                let j = choose|j: int| #[trigger]
                    near_at(ar, cs, k as int, a as int, b as int, j);
                assert(j < i);
            }
        }
    }
    r
}

/// Whether row `x` of `adj` holds `y`.
pub open spec fn lists(adj: Seq<Vec<u32>>, x: int, y: int) -> bool {
    adj[x]@.contains(y as u32)
}

/// Puts `a` into the rows of `chosen`, and `chosen` into the row of `a`.
fn connect(adj: &mut Vec<Vec<u32>>, a: u32, chosen: &Vec<u32>)
    requires
        a < old(adj)@.len(),
        old(adj)@.len() <= u32::MAX,
        forall|i: int| 0 <= i < chosen@.len() ==> #[trigger] chosen@[i] < old(adj)@.len(),
    ensures
        final(adj)@.len() == old(adj)@.len(),
        forall|x: int, y: int|
            0 <= x < old(adj)@.len() && 0 <= y < old(adj)@.len() ==> (#[trigger] lists(
                final(adj)@,
                x,
                y,
            ) <==> lists(old(adj)@, x, y) || (x == a && chosen@.contains(y as u32)) || (y == a
                && chosen@.contains(x as u32))),
        forall|x: int, i: int|
            0 <= x < old(adj)@.len() && 0 <= i < final(adj)@[x]@.len() ==> (
            #[trigger] final(adj)@[x]@[i]) < old(adj)@.len() || old(adj)@[x]@.contains(
                final(adj)@[x]@[i],
            ),
{
    let ghost start = adj@;
    let n: usize = adj.len();
    let mut i: usize = 0;
    while i < chosen.len()
        invariant
            i <= chosen@.len(),
            n == start.len(),
            n <= u32::MAX,
            adj@.len() == n,
            a < n,
            forall|j: int| 0 <= j < chosen@.len() ==> #[trigger] chosen@[j] < n,
            forall|x: int, y: int|
                0 <= x < n && 0 <= y < n ==> (#[trigger] lists(adj@, x, y) <==> lists(start, x, y)
                    || (x == a && chosen@.take(i as int).contains(y as u32)) || (y == a
                    && chosen@.take(i as int).contains(x as u32))),
            forall|x: int, j: int|
                0 <= x < n && 0 <= j < adj@[x]@.len() ==> (#[trigger] adj@[x]@[j]) < n
                    || start[x]@.contains(adj@[x]@[j]),
        decreases chosen@.len() - i,
    {
        let b: u32 = chosen[i];
        let ghost s0 = adj@;
        adj[a as usize].push(b);
        let ghost s1 = adj@;
        proof {
            assert(s1 =~= s0.update(a as int, s1[a as int]));
            assert(s1[a as int]@ == s0[a as int]@.push(b));
        }
        adj[b as usize].push(a);
        proof {
            let s2 = adj@;
            assert(s2 =~= s1.update(b as int, s2[b as int]));
            assert(s2[b as int]@ == s1[b as int]@.push(a));
            let done = chosen@.take(i as int);
            let more = chosen@.take(i + 1);
            assert(more =~= done.push(b));
            assert forall|z: u32| more.contains(z) <==> done.contains(z) || z == b by {
                lemma_push_contains(done, b, z);
            }
            assert forall|x: int, y: int| 0 <= x < n && 0 <= y < n implies (#[trigger] lists(
                s2,
                x,
                y,
            ) <==> lists(start, x, y) || (x == a && more.contains(y as u32)) || (y == a
                && more.contains(x as u32))) by {
                assert(lists(s0, x, y) <==> lists(start, x, y) || (x == a && done.contains(
                    y as u32,
                )) || (y == a && done.contains(x as u32)));
                lemma_push_contains(s0[a as int]@, b, y as u32);
                lemma_push_contains(s1[b as int]@, a, y as u32);
                assert(lists(s1, x, y) <==> lists(s0, x, y) || (x == a && y == b));
                assert(lists(s2, x, y) <==> lists(s1, x, y) || (x == b && y == a));
            }
            assert forall|x: int, j: int| 0 <= x < n && 0 <= j < s2[x]@.len() implies (
            #[trigger] s2[x]@[j]) < n || start[x]@.contains(s2[x]@[j]) by {
                if x == b && j == s1[x]@.len() {
                } else if x == a && j == s0[x]@.len() {
                    assert(s2[x]@[j] == b);
                } else {
                    assert(s2[x]@[j] == s0[x]@[j]);
                }
            }
        }
        i += 1;
    }
    proof {
        assert(chosen@.take(i as int) =~= chosen@);
    }
}

proof fn lemma_push_contains(s: Seq<u32>, x: u32, z: u32)
    ensures
        s.push(x).contains(z) <==> s.contains(z) || z == x,
{
    if s.contains(z) {
        let i = choose|i: int| 0 <= i < s.len() && s[i] == z;
        assert(s.push(x)[i] == z);
    }
    assert(s.push(x)[s.len() as int] == x);
    if s.push(x).contains(z) {
        let i = choose|i: int| 0 <= i < s.push(x).len() && s.push(x)[i] == z;
        if i < s.len() {
            assert(s[i] == z);
        }
    }
}

/// The neighbours of every node: those it picks and those that pick it.
fn wire<F: Fn(Op, u32, u32, u32) -> u32, P: Fn(&[u32]) -> bool>(
    fpu: &F,
    p: &P,
    Ghost(cond): Ghost<Condition>,
    coords: &Vec<Vec<u32>>,
    k: usize,
    check: bool,
) -> (r: Vec<Vec<u32>>)
    requires
        arith::is_unit(*fpu),
        predicate::decides(*p, cond),
        coords@.len() <= u32::MAX,
    ensures
        r@.len() == coords@.len(),
        forall|x: int| 0 <= x < r@.len() ==> sorting::increasing(#[trigger] r@[x]@),
        forall|x: int, i: int|
            0 <= x < r@.len() && 0 <= i < r@[x]@.len() ==> (#[trigger] r@[x]@[i]) < r@.len(),
        forall|x: int, y: int|
            0 <= x < r@.len() && 0 <= y < r@.len() ==> (#[trigger] lists(r@, x, y) <==> picks(
                arith::arith(*fpu),
                cond,
                rows(coords@),
                k as int,
                check,
                x,
                y,
            ) || picks(arith::arith(*fpu), cond, rows(coords@), k as int, check, y, x)),
{
    let ghost ar = arith::arith(*fpu);
    let ghost cs = rows(coords@);
    let n: usize = coords.len();
    let mut adj: Vec<Vec<u32>> = Vec::new();
    while adj.len() < n
        invariant
            adj@.len() <= n,
            forall|x: int| 0 <= x < adj@.len() ==> #[trigger] adj@[x]@ == Seq::<u32>::empty(),
        decreases n - adj@.len(),
    {
        adj.push(Vec::new());
    }
    let mut a: u32 = 0;
    while (a as usize) < n
        invariant
            a <= n,
            n == coords@.len(),
            n <= u32::MAX,
            adj@.len() == n,
            arith::is_unit(*fpu),
            predicate::decides(*p, cond),
            ar == arith::arith(*fpu),
            cs == rows(coords@),
            forall|x: int, y: int|
                0 <= x < n && 0 <= y < n ==> (#[trigger] lists(adj@, x, y) <==> (x < a && picks(
                    ar,
                    cond,
                    cs,
                    k as int,
                    check,
                    x,
                    y,
                )) || (y < a && picks(ar, cond, cs, k as int, check, y, x))),
            forall|x: int, i: int|
                0 <= x < n && 0 <= i < adj@[x]@.len() ==> (#[trigger] adj@[x]@[i]) < n,
        decreases n - a,
    {
        let chosen: Vec<u32> = picked(fpu, p, Ghost(cond), coords, k, check, a as usize);
        proof {
            assert forall|i: int| 0 <= i < chosen@.len() implies #[trigger] chosen@[i] < n by {
                assert(chosen@.contains(chosen@[i]));
                assert(picks(ar, cond, cs, k as int, check, a as int, chosen@[i] as int));
                lemma_near(ar, cs, k as int, a as int, chosen@[i] as int);
            }
        }
        let ghost before = adj@;
        connect(&mut adj, a, &chosen);
        proof {
            assert forall|x: int, y: int| 0 <= x < n && 0 <= y < n implies (#[trigger] lists(
                adj@,
                x,
                y,
            ) <==> (x < a + 1 && picks(ar, cond, cs, k as int, check, x, y)) || (y < a + 1 && picks(
                ar,
                cond,
                cs,
                k as int,
                check,
                y,
                x,
            ))) by {
                assert(lists(before, x, y) <==> (x < a && picks(ar, cond, cs, k as int, check, x, y))
                    || (y < a && picks(ar, cond, cs, k as int, check, y, x)));
                assert(chosen@.contains(y as u32) <==> picks(
                    ar,
                    cond,
                    cs,
                    k as int,
                    check,
                    a as int,
                    (y as u32) as int,
                ));
                assert(chosen@.contains(x as u32) <==> picks(
                    ar,
                    cond,
                    cs,
                    k as int,
                    check,
                    a as int,
                    (x as u32) as int,
                ));
            }
            assert forall|x: int, i: int| 0 <= x < n && 0 <= i < adj@[x]@.len() implies (
            #[trigger] adj@[x]@[i]) < n by {
                if before[x]@.contains(adj@[x]@[i]) {
                    let j = choose|j: int|
                        0 <= j < before[x]@.len() && before[x]@[j] == adj@[x]@[i];
                    assert(before[x]@[j] < n);
                }
            }
        }
        a += 1;
    }
    let mut r: Vec<Vec<u32>> = Vec::new();
    let ghost raw = adj@;
    let mut x: usize = 0;
    while x < n
        invariant
            x <= n,
            n == raw.len(),
            adj@ == raw,
            r@.len() == x,
            forall|z: int, i: int| 0 <= z < n && 0 <= i < raw[z]@.len() ==> (#[trigger] raw[z]@[i]) < n,
            forall|z: int| 0 <= z < x ==> sorting::increasing(#[trigger] r@[z]@),
            forall|z: int, y: u32|
                0 <= z < x ==> (#[trigger] r@[z]@.contains(y) <==> raw[z]@.contains(y)),
        decreases n - x,
    {
        let row: Vec<u32> = vectors::copy(&adj[x]);
        r.push(sorting::sort_distinct(row));
        x += 1;
    }
    proof {
        assert forall|z: int, i: int| 0 <= z < r@.len() && 0 <= i < r@[z]@.len() implies (
        #[trigger] r@[z]@[i]) < r@.len() by {
            assert(r@[z]@.contains(r@[z]@[i]));
            assert(raw[z]@.contains(r@[z]@[i]));
            let j = choose|j: int| 0 <= j < raw[z]@.len() && raw[z]@[j] == r@[z]@[i];
            assert(raw[z]@[j] < n);
        }
        assert forall|x: int, y: int| 0 <= x < r@.len() && 0 <= y < r@.len() implies (
        #[trigger] lists(r@, x, y) <==> picks(ar, cond, cs, k as int, check, x, y) || picks(
            ar,
            cond,
            cs,
            k as int,
            check,
            y,
            x,
        )) by {
            assert(lists(raw, x, y) == lists(r@, x, y));
        }
    }
    r
}

/// `g` has the records that satisfy `p` as its nodes, in order, and an edge
/// wherever one of two nodes picks the other.
pub open spec fn connects(
    ar: Arith,
    p: Condition,
    records: Seq<(u64, Seq<u32>)>,
    k: int,
    check: bool,
    g: GraphView,
) -> bool {
    let nodes = kept(p, records, records.len() as int);
    &&& g.wf()
    &&& g.n() == nodes.len()
    &&& forall|i: int|
        0 <= i < g.n() ==> #[trigger] g.ids[i] == nodes[i].0 && g.coords[i] == nodes[i].1
    &&& forall|a: int, b: int|
        0 <= a < g.n() && 0 <= b < g.n() ==> (#[trigger] g.edge(a, b) <==> picks(
            ar,
            p,
            g.coords,
            k,
            check,
            a,
            b,
        ) || picks(ar, p, g.coords, k, check, b, a))
}

/// Every node of a built graph satisfies the predicate.
pub proof fn nodes_are_viable(
    ar: Arith,
    p: Condition,
    records: Seq<(u64, Seq<u32>)>,
    k: int,
    check: bool,
    g: GraphView,
    a: int,
)
    requires
        connects(ar, p, records, k, check, g),
        0 <= a < g.n(),
    ensures
        p(g.coords[a]),
        exists|i: int|
            0 <= i < records.len() && (#[trigger] records[i]).0 == g.ids[a] && records[i].1
                == g.coords[a],
{
    lemma_kept(p, records, records.len() as int, a);
    assert(g.ids[a] == kept(p, records, records.len() as int)[a].0);
}

/// With the midpoint check a graph has the nodes of the graph without it, and
/// no other edges: an edge that is refused is not made up for by another.
/// Edges go whose midpoint fails the predicate, taken from either end, and
/// those stay whose midpoint satisfies it, taken from both.
pub proof fn checking_adds_nothing(
    ar: Arith,
    p: Condition,
    records: Seq<(u64, Seq<u32>)>,
    k: int,
    free: GraphView,
    checked: GraphView,
    a: int,
    b: int,
)
    requires
        connects(ar, p, records, k, false, free),
        connects(ar, p, records, k, true, checked),
    ensures
        free.ids == checked.ids,
        free.coords == checked.coords,
        checked.edge(a, b) ==> free.edge(a, b) && (p(
            midpoint(ar, free.coords[a], free.coords[b]),
        ) || p(midpoint(ar, free.coords[b], free.coords[a]))),
        free.edge(a, b) && p(midpoint(ar, free.coords[a], free.coords[b])) && p(
            midpoint(ar, free.coords[b], free.coords[a]),
        ) ==> checked.edge(a, b),
{
    assert forall|i: int| 0 <= i < free.n() implies free.ids[i] == checked.ids[i]
        && free.coords[i] == checked.coords[i] by {
        assert(checked.ids[i] == kept(p, records, records.len() as int)[i].0);
    }
    assert(free.ids =~= checked.ids);
    assert(free.coords =~= checked.coords);
    let cs = free.coords;
    if 0 <= a < free.n() && 0 <= b < free.n() {
        assert(free.edge(a, b) <==> picks(ar, p, cs, k, false, a, b) || picks(
            ar,
            p,
            cs,
            k,
            false,
            b,
            a,
        ));
        assert(checked.edge(a, b) <==> picks(ar, p, cs, k, true, a, b) || picks(
            ar,
            p,
            cs,
            k,
            true,
            b,
            a,
        ));
    }
}

/// With the midpoint check, a graph has exactly those edges of the graph
/// without it whose midpoint satisfies the predicate: an edge that is refused
/// is not made up for by another. Holds where it does not matter in which
/// order two numbers are added.
pub proof fn checking_only_removes_edges(
    ar: Arith,
    p: Condition,
    records: Seq<(u64, Seq<u32>)>,
    k: int,
    free: GraphView,
    checked: GraphView,
)
    requires
        forall|x: u32, y: u32| #[trigger] ar(Op::Add, x, y, 0) == ar(Op::Add, y, x, 0),
        connects(ar, p, records, k, false, free),
        connects(ar, p, records, k, true, checked),
    ensures
        free.ids == checked.ids,
        free.coords == checked.coords,
        forall|a: int, b: int|
            0 <= a < free.n() && 0 <= b < free.n() ==> (#[trigger] checked.edge(a, b)
                <==> free.edge(a, b) && p(midpoint(ar, free.coords[a], free.coords[b]))),
        forall|a: int, b: int|
            0 <= a < free.n() && 0 <= b < free.n() && free.ids.no_duplicates() ==> (
            #[trigger] checked.lists_record(a, b) <==> free.lists_record(a, b) && p(
                midpoint(ar, free.coords[a], free.coords[b]),
            )),
{
    assert forall|i: int| 0 <= i < free.n() implies free.ids[i] == checked.ids[i]
        && free.coords[i] == checked.coords[i] by {
        assert(checked.ids[i] == kept(p, records, records.len() as int)[i].0);
    }
    assert(free.ids =~= checked.ids);
    assert(free.coords =~= checked.coords);
    let cs = free.coords;
    assert forall|a: int, b: int| 0 <= a < free.n() && 0 <= b < free.n() implies (
    #[trigger] checked.edge(a, b) <==> free.edge(a, b) && p(midpoint(ar, cs[a], cs[b]))) by {
        assert(free.edge(a, b) <==> picks(ar, p, cs, k, false, a, b) || picks(
            ar,
            p,
            cs,
            k,
            false,
            b,
            a,
        ));
        assert(midpoint(ar, cs[a], cs[b]) =~= midpoint(ar, cs[b], cs[a]));
    }
    if free.ids.no_duplicates() {
        assert forall|a: int, b: int| 0 <= a < free.n() && 0 <= b < free.n() implies (
        #[trigger] checked.lists_record(a, b) <==> free.lists_record(a, b) && p(
            midpoint(ar, cs[a], cs[b]),
        )) by {
            free.lemma_lists(a, b);
            checked.lemma_lists(a, b);
            assert(checked.edge(a, b) <==> free.edge(a, b) && p(midpoint(ar, cs[a], cs[b])));
        }
    }
}

/// The pairs of each node below `a` and its nearest nodes, and of `a` and the
/// first `j` of these; turned round if `turned`.
spec fn near_pairs(
    ar: Arith,
    coords: Seq<Seq<u32>>,
    most: int,
    turned: bool,
    a: int,
    j: int,
) -> Set<(int, int)>
    decreases a, j,
{
    if a < 0 {
        Set::empty()
    } else if j > 0 {
        let b = sorting::ranked(others(ar, coords, a, coords.len() as int))[j - 1].1 as int;
        near_pairs(ar, coords, most, turned, a, j - 1).insert(
            if turned {
                (b, a)
            } else {
                (a, b)
            },
        )
    } else if a > 0 {
        near_pairs(
            ar,
            coords,
            most,
            turned,
            a - 1,
            row_size(ar, coords, most, a - 1),
        )
    } else {
        Set::empty()
    }
}

/// The number of nodes that a node can pick.
spec fn row_size(ar: Arith, coords: Seq<Seq<u32>>, most: int, a: int) -> int {
    let all = sorting::ranked(others(ar, coords, a, coords.len() as int)).len() as int;
    if most <= all {
        most
    } else {
        all
    }
}

proof fn lemma_near_pairs(
    ar: Arith,
    coords: Seq<Seq<u32>>,
    most: int,
    turned: bool,
    a: int,
    j: int,
)
    requires
        0 <= a,
        0 <= most,
        0 <= j,
    ensures
        near_pairs(ar, coords, most, turned, a, j).finite(),
        near_pairs(ar, coords, most, turned, a, j).len() <= a * most + j,
    decreases a, j,
{
    if j > 0 {
        lemma_near_pairs(ar, coords, most, turned, a, j - 1);
    } else if a > 0 {
        let n = row_size(ar, coords, most, a - 1);
        if n >= 0 {
            lemma_near_pairs(ar, coords, most, turned, a - 1, n);
        }
        assert((a - 1) * most + most == a * most) by (nonlinear_arith);
    }
}

proof fn lemma_near_pairs_hold(
    ar: Arith,
    coords: Seq<Seq<u32>>,
    most: int,
    turned: bool,
    a: int,
    j: int,
    x: int,
    i: int,
)
    requires
        0 <= x < a && 0 <= i < row_size(ar, coords, most, x) || x == a && 0 <= i < j,
        0 <= a,
        0 <= j,
    ensures
        ({
            let b = sorting::ranked(others(ar, coords, x, coords.len() as int))[i].1 as int;
            near_pairs(ar, coords, most, turned, a, j).contains(
                if turned {
                    (b, x)
                } else {
                    (x, b)
                },
            )
        }),
    decreases a, j,
{
    if j > 0 {
        if x < a || i < j - 1 {
            lemma_near_pairs_hold(ar, coords, most, turned, a, j - 1, x, i);
        }
    } else {
        let n = row_size(ar, coords, most, a - 1);
        lemma_near_pairs_hold(
            ar,
            coords,
            most,
            turned,
            a - 1,
            if n >= 0 {
                n
            } else {
                0
            },
            x,
            i,
        );
    }
}

/// The edges of the nodes below `a`, and the first `j` of `a`.
spec fn edge_pairs(g: GraphView, a: int, j: int) -> Set<(int, int)>
    decreases a, j,
{
    if a < 0 {
        Set::empty()
    } else if j > 0 {
        edge_pairs(g, a, j - 1).insert((a, g.adj[a][j - 1] as int))
    } else if a > 0 {
        edge_pairs(g, a - 1, g.adj[a - 1].len() as int)
    } else {
        Set::empty()
    }
}

proof fn lemma_edge_pairs(g: GraphView, a: int, j: int)
    requires
        g.wf(),
        0 <= a,
        0 <= j,
        a < g.n() && j <= g.adj[a].len() || a == g.n() && j == 0,
    ensures
        edge_pairs(g, a, j).finite(),
        edge_pairs(g, a, j).len() == g.degrees(a) + j,
        forall|x: int, y: int| #[trigger]
            edge_pairs(g, a, j).contains((x, y)) ==> g.edge(x, y) && (x < a || x == a
                && exists|i: int| 0 <= i < j && #[trigger] g.adj[a][i] == y),
    decreases a, j,
{
    if j > 0 {
        lemma_edge_pairs(g, a, j - 1);
        let before = edge_pairs(g, a, j - 1);
        let y = g.adj[a][j - 1];
        assert(sorting::increasing(g.adj[a]));
        assert(g.adj[a].contains(y));
        assert(y < g.n());
        if before.contains((a, y as int)) {
            let i = choose|i: int| 0 <= i < j - 1 && #[trigger] g.adj[a][i] == y as int;
            assert(g.adj[a][i] < g.adj[a][j - 1]);
        }
        assert forall|u: int, v: int| #[trigger]
            edge_pairs(g, a, j).contains((u, v)) implies g.edge(u, v) && (u < a || u == a
            && exists|i: int| 0 <= i < j && #[trigger] g.adj[a][i] == v) by {
            if (u, v) == (a, y as int) {
                assert(g.adj[a][j - 1] == v);
            } else {
                assert(before.contains((u, v)));
                if u == a {
                    let i = choose|i: int| 0 <= i < j - 1 && #[trigger] g.adj[a][i] == v;
                    assert(g.adj[a][i] == v);
                }
            }
        }
    } else if a > 0 {
        lemma_edge_pairs(g, a - 1, g.adj[a - 1].len() as int);
    }
}

/// A graph has no more edges, counted from both ends, than twice as many as
/// its nodes pick.
pub proof fn edges_are_few(
    ar: Arith,
    p: Condition,
    records: Seq<(u64, Seq<u32>)>,
    k: int,
    check: bool,
    g: GraphView,
)
    requires
        connects(ar, p, records, k, check, g),
        0 <= k,
    ensures
        g.degrees(g.n()) <= 2 * (g.n() * k),
{
    let n = g.n();
    let out = near_pairs(ar, g.coords, k, false, n, 0);
    let back = near_pairs(ar, g.coords, k, true, n, 0);
    let all = edge_pairs(g, n, 0);
    lemma_near_pairs(ar, g.coords, k, false, n, 0);
    lemma_near_pairs(ar, g.coords, k, true, n, 0);
    lemma_edge_pairs(g, n, 0);
    assert forall|e: (int, int)| #[trigger] all.contains(e) implies out.union(back).contains(e) by {
        let (x, y) = e;
        assert(all.contains((x, y)));
        assert(g.edge(x, y));
        if near(ar, g.coords, k, x, y) {
            let i = choose|i: int| #[trigger] near_at(ar, g.coords, k, x, y, i);
            lemma_near_pairs_hold(ar, g.coords, k, false, n, 0, x, i);
        } else {
            assert(picks(ar, p, g.coords, k, check, y, x));
            let i = choose|i: int| #[trigger] near_at(ar, g.coords, k, y, x, i);
            lemma_near_pairs_hold(ar, g.coords, k, true, n, 0, y, i);
        }
    }
    assert(all.subset_of(out.union(back)));
    vstd::set_lib::lemma_len_union(out, back);
    vstd::set_lib::lemma_len_subset(all, out.union(back));
    assert(n * k + n * k == 2 * (n * k)) by (nonlinear_arith);
}

proof fn lemma_kept(p: Condition, records: Seq<(u64, Seq<u32>)>, n: int, a: int)
    requires
        0 <= n <= records.len(),
        0 <= a < kept(p, records, n).len(),
    ensures
        p(kept(p, records, n)[a].1),
        exists|i: int| 0 <= i < n && #[trigger] records[i] == kept(p, records, n)[a],
    decreases n,
{
    if n > 0 {
        let before = kept(p, records, n - 1);
        if a < before.len() {
            lemma_kept(p, records, n - 1, a);
            let i = choose|i: int| 0 <= i < n - 1 && #[trigger] records[i] == before[a];
            assert(records[i] == kept(p, records, n)[a]);
        } else {
            assert(records[n - 1] == kept(p, records, n)[a]);
        }
    }
}

/// Builds a graph from `records`, pairs of an id and a vector: the records
/// that satisfy `p` become nodes, and each node is connected with the
/// `k_nearest` nodes nearest to it. With `edge_midpoint_check`, only where
/// the point halfway satisfies `p` as well.
pub fn build_viable_graph<F: Fn(Op, u32, u32, u32) -> u32, P: Fn(&[u32]) -> bool>(
    fpu: &F,
    records: &Vec<(u64, Vec<u32>)>,
    p: &P,
    k_nearest: usize,
    edge_midpoint_check: bool,
) -> (r: ViableGraph)
    requires
        arith::is_unit(*fpu),
        predicate::is_predicate(*p),
        records@.len() <= u32::MAX,
    ensures
        connects(
            arith::arith(*fpu),
            predicate::condition(*p),
            points(records@),
            k_nearest as int,
            edge_midpoint_check,
            r@,
        ),
{
    let ghost cond = predicate::condition(*p);
    proof {
        predicate::predicates_decide(*p);
    }
    build_by_condition(fpu, records, p, Ghost(cond), k_nearest, edge_midpoint_check)
}

/// Like `build_viable_graph`, for a predicate that decides `cond`.
pub(crate) fn build_by_condition<F: Fn(Op, u32, u32, u32) -> u32, P: Fn(&[u32]) -> bool>(
    fpu: &F,
    records: &Vec<(u64, Vec<u32>)>,
    p: &P,
    Ghost(cond): Ghost<Condition>,
    k_nearest: usize,
    edge_midpoint_check: bool,
) -> (r: ViableGraph)
    requires
        arith::is_unit(*fpu),
        predicate::decides(*p, cond),
        records@.len() <= u32::MAX,
    ensures
        connects(
            arith::arith(*fpu),
            cond,
            points(records@),
            k_nearest as int,
            edge_midpoint_check,
            r@,
        ),
{
    let ghost ar = arith::arith(*fpu);
    let ghost pts = points(records@);
    let mut ids: Vec<u64> = Vec::new();
    let mut coords: Vec<Vec<u32>> = Vec::new();
    let mut i: usize = 0;
    while i < records.len()
        invariant
            i <= records@.len(),
            pts == points(records@),
            predicate::decides(*p, cond),
            ids@.len() == coords@.len(),
            ids@.len() <= i,
            ids@.len() == kept(cond, pts, i as int).len(),
            forall|j: int|
                0 <= j < ids@.len() ==> #[trigger] ids@[j] == kept(cond, pts, i as int)[j].0
                    && coords@[j]@ == kept(cond, pts, i as int)[j].1,
        decreases records@.len() - i,
    {
        let ghost some = kept(cond, pts, i as int);
        let ghost ids_before = ids@;
        let ghost coords_before = coords@;
        assert(pts[i as int].1 == records@[i as int].1@);
        if p(&records[i].1) {
            ids.push(records[i].0);
            coords.push(vectors::copy(&records[i].1));
        }
        proof {
            let more = kept(cond, pts, i + 1);
            assert forall|j: int| 0 <= j < ids@.len() implies #[trigger] ids@[j] == more[j].0
                && coords@[j]@ == more[j].1 by {
                if j < ids_before.len() {
                    assert(ids_before[j] == some[j].0);
                    assert(coords@[j] == coords_before[j]);
                    assert(more[j] == some[j]);
                }
            }
        }
        i += 1;
    }
    let adjacency: Vec<Vec<u32>> = wire(fpu, p, Ghost(cond), &coords, k_nearest, edge_midpoint_check);
    proof {
        let g = GraphView { ids: ids@, coords: rows(coords@), adj: rows(adjacency@) };
        let cs = rows(coords@);
        let k = k_nearest as int;
        assert forall|a: int, b: int| 0 <= a < g.n() && 0 <= b < g.n() implies (#[trigger] g.edge(
            a,
            b,
        ) <==> picks(ar, cond, cs, k, edge_midpoint_check, a, b) || picks(
            ar,
            cond,
            cs,
            k,
            edge_midpoint_check,
            b,
            a,
        )) by {
            assert(lists(adjacency@, a, b) == g.edge(a, b));
        }
        assert forall|a: int, i: int| 0 <= a < g.n() && 0 <= i < g.adj[a].len() implies (
        #[trigger] g.adj[a][i]) < g.n() && g.adj[a][i] != a by {
            let b = g.adj[a][i];
            assert(adjacency@[a]@[i] < adjacency@.len());
            assert(adjacency@[a]@.contains(b));
            assert(lists(adjacency@, a, b as int));
            if picks(ar, cond, cs, k, edge_midpoint_check, a, b as int) {
                lemma_near(ar, cs, k, a, b as int);
            } else {
                lemma_near(ar, cs, k, b as int, a);
            }
        }
        assert forall|a: int, b: int| g.edge(a, b) implies #[trigger] g.edge(b, a) by {
            assert(lists(adjacency@, a, b));
            assert(lists(adjacency@, b, a));
        }
        assert forall|a: int| 0 <= a < g.n() implies sorting::increasing(#[trigger] g.adj[a]) by {
            assert(sorting::increasing(adjacency@[a]@));
        }
    }
    ViableGraph::assemble(ids, coords, adjacency)
}

} // verus!
