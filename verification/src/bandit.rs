//! Regions of the records, and which of them to explore.
//!
//! The records are the leaves of a tree whose inner nodes are regions. Each
//! node carries a belief, a beta distribution, on how rewarding it is to look
//! there. Sampling goes down the tree towards the child with the largest
//! draw; observing a reward updates a leaf, and then every region that it
//! lies in.

use std::collections::HashMap;
use vstd::prelude::*;

use crate::arith;
use crate::arith::Arith;
use crate::arith::Noise;
use crate::arith::Op;
use crate::order;
use crate::sorting;

pub mod growing;
pub mod reduction;
pub mod sampling;

verus! {

/// The bit pattern of `0.999`: the fastest drift.
pub const FASTEST_DRIFT: u32 = 0x3f7f_be77;

/// How a tree is built.
#[derive(Clone, Copy, Debug)]
pub struct RegionTreeConfig {
    /// The number of directions to reduce vectors to before clustering.
    pub pca_dim: usize,
    /// The number of clusters that a region is split into.
    pub branching_factor: usize,
    /// The depth at which splitting ends.
    pub max_depth: usize,
    /// The number of records at which splitting ends.
    pub min_leaf_size: usize,
    /// How quickly beliefs fade; zero for not at all.
    pub filter_drift_rate: u32,
    /// The number of rounds of clustering.
    pub kmeans_iterations: usize,
    /// The seed of the construction.
    pub seed: u64,
}

impl Default for RegionTreeConfig {
    fn default() -> (r: Self)
        ensures
            r.pca_dim == 8,
            r.branching_factor == 4,
            r.max_depth == 4,
            r.min_leaf_size == 4,
            r.filter_drift_rate == order::ZERO,
            r.kmeans_iterations == 15,
            r.seed == 42,
    {
        RegionTreeConfig {
            pca_dim: 8,
            branching_factor: 4,
            max_depth: 4,
            min_leaf_size: 4,
            filter_drift_rate: order::ZERO,
            kmeans_iterations: 15,
            seed: 42,
        }
    }
}

/// The belief on a record: a beta distribution that fades towards the
/// uniform one.
#[derive(Clone, Copy, Debug, PartialEq, Eq, Structural)]
pub struct RegionBelief {
    pub alpha: u32,
    pub beta: u32,
    pub drift_rate: u32,
    pub last_step: u64,
}

/// The most steps that a belief fades for: the largest exponent that an
/// integer power takes.
pub const LONGEST_FADE: u64 = 0x7fff_ffff;

/// The number of steps that a belief fades for, of `elapsed` that have passed.
pub open spec fn fading_steps(elapsed: int) -> u32 {
    if elapsed > LONGEST_FADE {
        LONGEST_FADE as u32
    } else {
        elapsed as u32
    }
}

/// `x` faded towards one by the factor `decay`.
pub open spec fn faded(ar: Arith, x: u32, decay: u32) -> u32 {
    ar(Op::Add, ar(Op::Mul, x, decay, 0), ar(Op::Sub, order::ONE, decay, 0), 0)
}

impl RegionBelief {
    /// The belief before any observation.
    pub open spec fn initial(drift_rate: u32) -> RegionBelief {
        RegionBelief {
            alpha: order::ONE,
            beta: order::ONE,
            drift_rate: order::clamped(drift_rate, order::ZERO, FASTEST_DRIFT),
            last_step: 0,
        }
    }

    /// The belief as it has faded by `step`.
    pub open spec fn predicted(self, ar: Arith, step: u64) -> RegionBelief {
        if step <= self.last_step || order::le(self.drift_rate, order::ZERO) {
            self
        } else {
            let decay = ar(
                Op::Powi,
                ar(Op::Sub, order::ONE, self.drift_rate, 0),
                fading_steps(step - self.last_step),
                0,
            );
            RegionBelief {
                alpha: faded(ar, self.alpha, decay),
                beta: faded(ar, self.beta, decay),
                ..self
            }
        }
    }

    /// The belief after the reward, which counts from zero to one, at `step`.
    pub open spec fn updated(self, ar: Arith, reward: u32, step: u64) -> RegionBelief {
        let r = order::clamped(reward, order::ZERO, order::ONE);
        RegionBelief {
            alpha: ar(Op::Add, self.alpha, r, 0),
            beta: ar(Op::Add, self.beta, ar(Op::Sub, order::ONE, r, 0), 0),
            last_step: step,
            ..self
        }
    }

    /// The belief after an observation.
    pub open spec fn observed(self, ar: Arith, reward: u32, step: u64) -> RegionBelief {
        self.predicted(ar, step).updated(ar, reward, step)
    }

    /// The belief before any observation.
    pub fn new(drift_rate: u32) -> (r: Self)
        ensures
            r == Self::initial(drift_rate),
    {
        RegionBelief {
            alpha: order::ONE,
            beta: order::ONE,
            drift_rate: order::clamp(drift_rate, order::ZERO, FASTEST_DRIFT),
            last_step: 0,
        }
    }

    /// Lets the belief fade for the steps since the last observation. A belief
    /// that is older than powers can tell fades for as long as they can.
    pub fn predict<F: Fn(Op, u32, u32, u32) -> u32>(&mut self, fpu: &F, current_step: u64)
        requires
            arith::is_unit(*fpu),
        ensures
            *final(self) == old(self).predicted(arith::arith(*fpu), current_step),
    {
        if current_step <= self.last_step || order::at_most(self.drift_rate, order::ZERO) {
            return;
        }
        let elapsed: u64 = current_step - self.last_step;
        let keep: u32 = arith::binary(fpu, Op::Sub, order::ONE, self.drift_rate);
        let steps: u32 = if elapsed > LONGEST_FADE {
            LONGEST_FADE as u32
        } else {
            elapsed as u32
        };
        let decay: u32 = arith::binary(fpu, Op::Powi, keep, steps);
        let rest: u32 = arith::binary(fpu, Op::Sub, order::ONE, decay);
        let alpha: u32 = arith::binary(fpu, Op::Mul, self.alpha, decay);
        let beta: u32 = arith::binary(fpu, Op::Mul, self.beta, decay);
        self.alpha = arith::binary(fpu, Op::Add, alpha, rest);
        self.beta = arith::binary(fpu, Op::Add, beta, rest);
    }

    /// Adds a reward to the belief.
    pub fn update<F: Fn(Op, u32, u32, u32) -> u32>(
        &mut self,
        fpu: &F,
        reward: u32,
        current_step: u64,
    )
        requires
            arith::is_unit(*fpu),
        ensures
            *final(self) == old(self).updated(arith::arith(*fpu), reward, current_step),
    {
        let r: u32 = order::clamp(reward, order::ZERO, order::ONE);
        self.alpha = arith::binary(fpu, Op::Add, self.alpha, r);
        let miss: u32 = arith::binary(fpu, Op::Sub, order::ONE, r);
        self.beta = arith::binary(fpu, Op::Add, self.beta, miss);
        self.last_step = current_step;
    }
}

/// A node of the tree.
#[derive(Debug)]
pub enum TreeNode {
    Internal { children: Vec<TreeNode>, alpha: u32, beta: u32 },
    Leaf { record_id: u64, belief: RegionBelief },
}

/// What a node is: a region with the belief pooled from its parts, or a
/// record with its own.
pub enum Region {
    Inner(Seq<Region>, u32, u32),
    Leaf(u64, RegionBelief),
}

impl Region {
    /// The parameters of the belief on a node.
    pub open spec fn params(self) -> (u32, u32) {
        match self {
            Region::Inner(_, alpha, beta) => (alpha, beta),
            Region::Leaf(_, belief) => (belief.alpha, belief.beta),
        }
    }

    /// The children of a region.
    pub open spec fn children(self) -> Seq<Region> {
        match self {
            Region::Inner(c, _, _) => c,
            Region::Leaf(_, _) => Seq::empty(),
        }
    }

    /// The node that `path` leads to.
    pub open spec fn at(self, path: Seq<usize>) -> Region
        decreases path.len(),
    {
        if path.len() == 0 {
            self
        } else {
            self.children()[path[0] as int].at(path.drop_first())
        }
    }

    /// `path` leads to a record.
    pub open spec fn leads(self, path: Seq<usize>) -> bool
        decreases path.len(),
    {
        match self {
            Region::Inner(c, _, _) => path.len() > 0 && path[0] < c.len()
                && c[path[0] as int].leads(path.drop_first()),
            Region::Leaf(_, _) => path.len() == 0,
        }
    }

    /// The tree after an observation on the record that `path` leads to: its
    /// belief is updated, and then those of the regions that it lies in.
    pub open spec fn observed(
        self,
        ar: Arith,
        path: Seq<usize>,
        reward: u32,
        step: u64,
    ) -> Region
        decreases path.len(),
    {
        match self {
            Region::Leaf(id, belief) => Region::Leaf(id, belief.observed(ar, reward, step)),
            Region::Inner(c, alpha, beta) => if path.len() == 0 {
                self
            } else {
                let i = path[0] as int;
                pooled(ar, c.update(i, c[i].observed(ar, path.drop_first(), reward, step)))
            },
        }
    }
}

/// The sum of the first parameters of the first `n` of `c`.
pub open spec fn alpha_sum(ar: Arith, c: Seq<Region>, n: int) -> u32
    decreases n,
{
    if n <= 0 {
        order::ZERO
    } else {
        ar(Op::Add, alpha_sum(ar, c, n - 1), c[n - 1].params().0, 0)
    }
}

/// The sum of the second parameters of the first `n` of `c`.
pub open spec fn beta_sum(ar: Arith, c: Seq<Region>, n: int) -> u32
    decreases n,
{
    if n <= 0 {
        order::ZERO
    } else {
        ar(Op::Add, beta_sum(ar, c, n - 1), c[n - 1].params().1, 0)
    }
}

/// The parameter that pools the evidence of `n` parts whose parameters sum up
/// to `sum`: each part's prior counts for nothing.
pub open spec fn pooled_param(ar: Arith, sum: u32, n: int) -> u32 {
    order::raised(
        ar(Op::Add, ar(Op::Sub, sum, arith::counted(ar, n), 0), order::ONE, 0),
        order::ONE,
    )
}

/// The region with the parts `c`.
pub open spec fn pooled(ar: Arith, c: Seq<Region>) -> Region {
    let n = c.len() as int;
    Region::Inner(
        c,
        pooled_param(ar, alpha_sum(ar, c, n), n),
        pooled_param(ar, beta_sum(ar, c, n), n),
    )
}

/// What `node` is.
pub open spec fn region(node: TreeNode) -> Region
    decreases node,
{
    match node {
        TreeNode::Leaf { record_id, belief } => Region::Leaf(record_id, belief),
        TreeNode::Internal { children, alpha, beta } => Region::Inner(
            Seq::new(
                children@.len(),
                |i: int|
                    if 0 <= i < children@.len() {
                        region(children@[i])
                    } else {
                        arbitrary()
                    },
            ),
            alpha,
            beta,
        ),
    }
}

/// What the nodes of a list are.
pub open spec fn regions(nodes: Seq<TreeNode>) -> Seq<Region> {
    Seq::new(nodes.len(), |i: int| region(nodes[i]))
}

proof fn lemma_region(node: TreeNode)
    ensures
        node matches TreeNode::Internal { children, alpha, beta } ==> region(node)
            == Region::Inner(regions(children@), alpha, beta),
{
    if let TreeNode::Internal { children, alpha, beta } = node {
        assert(region(node).children() =~= regions(children@));
    }
}

/// The ids of the records below the first `n` of `c`, in order.
pub open spec fn leaves_of(c: Seq<Region>, n: int) -> Seq<u64>
    decreases c, n,
{
    if n <= 0 || n > c.len() {
        Seq::empty()
    } else {
        leaves_of(c, n - 1) + leaf_ids(c[n - 1])
    }
}

/// The ids of the records below a node, in order.
pub open spec fn leaf_ids(r: Region) -> Seq<u64>
    decreases r, 0int,
{
    match r {
        Region::Leaf(id, _) => seq![id],
        Region::Inner(c, _, _) => leaves_of(c, c.len() as int),
    }
}

/// The path to the last place of the record `id` below the first `n` of `c`,
/// in order.
pub open spec fn last_path_in(c: Seq<Region>, n: int, id: u64) -> Option<Seq<usize>>
    decreases c, n,
{
    if n <= 0 || n > c.len() {
        None
    } else {
        match last_path(c[n - 1], id) {
            Some(p) => Some(seq![(n - 1) as usize] + p),
            None => last_path_in(c, n - 1, id),
        }
    }
}

/// The path to the record `id`: to the last place, in order, if it is there
/// more than once.
pub open spec fn last_path(r: Region, id: u64) -> Option<Seq<usize>>
    decreases r, 0int,
{
    match r {
        Region::Leaf(x, _) => if x == id {
            Some(Seq::empty())
        } else {
            None
        },
        Region::Inner(c, _, _) => last_path_in(c, c.len() as int, id),
    }
}

/// Every region has parts.
pub open spec fn grounded(r: Region) -> bool
    decreases r,
{
    match r {
        Region::Leaf(_, _) => true,
        Region::Inner(c, _, _) => c.len() > 0 && forall|i: int|
            #![trigger c[i]]
            0 <= i < c.len() ==> grounded(c[i]),
    }
}

/// Every region pools the beliefs on its parts.
pub open spec fn pools(ar: Arith, r: Region) -> bool
    decreases r,
{
    match r {
        Region::Leaf(_, _) => true,
        Region::Inner(c, _, _) => r == pooled(ar, c) && forall|i: int|
            #![trigger c[i]]
            0 <= i < c.len() ==> pools(ar, c[i]),
    }
}

impl Region {
    /// `path` leads to the record `id`.
    pub open spec fn holds_at(self, path: Seq<usize>, id: u64) -> bool {
        self.leads(path) && self.at(path) is Leaf && self.at(path)->Leaf_0 == id
    }

    /// `path` leads to a node.
    pub open spec fn valid(self, path: Seq<usize>) -> bool
        decreases path.len(),
    {
        path.len() == 0 || (self is Inner && path[0] < self.children().len()
            && self.children()[path[0] as int].valid(path.drop_first()))
    }
}

/// The places of leaves in a list of nodes.
proof fn lemma_leaves_of(c: Seq<Region>, n: int, i: int, id: u64)
    requires
        0 <= i < n <= c.len(),
        leaf_ids(c[i]).contains(id),
    ensures
        leaves_of(c, n).contains(id),
    decreases n,
{
    let before = leaves_of(c, n - 1);
    let all = leaves_of(c, n);
    if i < n - 1 {
        lemma_leaves_of(c, n - 1, i, id);
        let k = choose|k: int| 0 <= k < before.len() && before[k] == id;
        assert(all[k] == id);
    } else {
        let l = leaf_ids(c[i]);
        let k = choose|k: int| 0 <= k < l.len() && l[k] == id;
        assert(all[before.len() + k] == id);
    }
}

proof fn lemma_leaf_somewhere(c: Seq<Region>, n: int, id: u64) -> (i: int)
    requires
        0 <= n <= c.len(),
        leaves_of(c, n).contains(id),
    ensures
        0 <= i < n,
        leaf_ids(c[i]).contains(id),
    decreases n,
{
    let all = leaves_of(c, n);
    if n == 0 {
        0
    } else {
        let before = leaves_of(c, n - 1);
        let l = leaf_ids(c[n - 1]);
        let k = choose|k: int| 0 <= k < all.len() && all[k] == id;
        if k < before.len() {
            assert(before[k] == id);
            lemma_leaf_somewhere(c, n - 1, id)
        } else {
            assert(l[k - before.len()] == id);
            n - 1
        }
    }
}

/// Every record of a tree has a path, and nothing else has.
pub proof fn records_have_paths(r: Region, id: u64)
    ensures
        last_path(r, id) is Some <==> leaf_ids(r).contains(id),
    decreases r, 1int, 0int,
{
    match r {
        Region::Leaf(x, _) => {
            assert(leaf_ids(r)[0] == x);
            assert(leaf_ids(r).contains(x));
        },
        Region::Inner(c, _, _) => {
            lemma_paths_in(c, c.len() as int, id);
        },
    }
}

proof fn lemma_paths_in(c: Seq<Region>, n: int, id: u64)
    requires
        0 <= n <= c.len(),
    ensures
        last_path_in(c, n, id) is Some <==> leaves_of(c, n).contains(id),
    decreases c, 0int, n,
{
    if n > 0 {
        lemma_paths_in(c, n - 1, id);
        records_have_paths(c[n - 1], id);
        let before = leaves_of(c, n - 1);
        let l = leaf_ids(c[n - 1]);
        let all = leaves_of(c, n);
        if before.contains(id) {
            let k = choose|k: int| 0 <= k < before.len() && before[k] == id;
            assert(all[k] == id);
        }
        if l.contains(id) {
            let k = choose|k: int| 0 <= k < l.len() && l[k] == id;
            assert(all[before.len() + k] == id);
        }
        if all.contains(id) {
            let k = choose|k: int| 0 <= k < all.len() && all[k] == id;
            if k < before.len() {
                assert(before[k] == id);
            } else {
                assert(l[k - before.len()] == id);
            }
        }
    }
}

/// What a path leads to is among the records.
pub proof fn paths_lead_to_records(r: Region, path: Seq<usize>, id: u64)
    requires
        r.holds_at(path, id),
    ensures
        leaf_ids(r).contains(id),
    decreases path.len(),
{
    match r {
        Region::Leaf(x, _) => {
            assert(leaf_ids(r)[0] == id);
        },
        Region::Inner(c, _, _) => {
            let i = path[0] as int;
            paths_lead_to_records(c[i], path.drop_first(), id);
            lemma_leaves_of(c, c.len() as int, i, id);
        },
    }
}

/// Where every record is there once, one path leads to it.
pub proof fn paths_are_unique(r: Region, p: Seq<usize>, q: Seq<usize>, id: u64)
    requires
        r.holds_at(p, id),
        r.holds_at(q, id),
        leaf_ids(r).no_duplicates(),
    ensures
        p == q,
    decreases p.len(),
{
    match r {
        Region::Leaf(x, _) => {
            assert(p =~= q);
        },
        Region::Inner(c, _, _) => {
            let i = p[0] as int;
            let j = q[0] as int;
            paths_lead_to_records(c[i], p.drop_first(), id);
            paths_lead_to_records(c[j], q.drop_first(), id);
            if i != j {
                lemma_twice(c, c.len() as int, i, j, id);
            }
            lemma_child_distinct(c, c.len() as int, i);
            paths_are_unique(c[i], p.drop_first(), q.drop_first(), id);
            assert(p =~= seq![p[0]] + p.drop_first());
            assert(q =~= seq![q[0]] + q.drop_first());
        },
    }
}

proof fn lemma_twice(c: Seq<Region>, n: int, i: int, j: int, id: u64)
    requires
        0 <= i < n <= c.len(),
        0 <= j < n,
        i != j,
        leaf_ids(c[i]).contains(id),
        leaf_ids(c[j]).contains(id),
    ensures
        !leaves_of(c, n).no_duplicates(),
    decreases n,
{
    let before = leaves_of(c, n - 1);
    let all = leaves_of(c, n);
    let last = leaf_ids(c[n - 1]);
    if i < n - 1 && j < n - 1 {
        lemma_twice(c, n - 1, i, j, id);
        if all.no_duplicates() {
            assert forall|a: int, b: int|
                0 <= a < before.len() && 0 <= b < before.len() && a != b implies before[a]
                != before[b] by {
                assert(all[a] == before[a] && all[b] == before[b]);
            }
        }
    } else {
        let k = if i < n - 1 {
            i
        } else {
            j
        };
        lemma_leaves_of(c, n - 1, k, id);
        let a = choose|a: int| 0 <= a < before.len() && before[a] == id;
        let b = choose|b: int| 0 <= b < last.len() && last[b] == id;
        assert(all[a] == id && all[before.len() + b] == id);
    }
}

proof fn lemma_child_distinct(c: Seq<Region>, n: int, i: int)
    requires
        0 <= i < n <= c.len(),
        leaves_of(c, n).no_duplicates(),
    ensures
        leaf_ids(c[i]).no_duplicates(),
    decreases n,
{
    let before = leaves_of(c, n - 1);
    let all = leaves_of(c, n);
    let last = leaf_ids(c[n - 1]);
    if i < n - 1 {
        assert forall|a: int, b: int|
            0 <= a < before.len() && 0 <= b < before.len() && a != b implies before[a]
            != before[b] by {
            assert(all[a] == before[a] && all[b] == before[b]);
        }
        lemma_child_distinct(c, n - 1, i);
    } else {
        assert forall|a: int, b: int|
            0 <= a < last.len() && 0 <= b < last.len() && a != b implies last[a] != last[b] by {
            assert(all[before.len() + a] == last[a] && all[before.len() + b] == last[b]);
        }
    }
}

/// An observation neither adds nor removes records, nor moves them.
pub proof fn observations_keep_records(
    ar: Arith,
    r: Region,
    path: Seq<usize>,
    reward: u32,
    step: u64,
)
    requires
        r.leads(path),
    ensures
        leaf_ids(r.observed(ar, path, reward, step)) == leaf_ids(r),
        grounded(r) ==> grounded(r.observed(ar, path, reward, step)),
        r.observed(ar, path, reward, step).leads(path),
        forall|q: Seq<usize>, id: u64| #[trigger]
            r.holds_at(q, id) ==> r.observed(ar, path, reward, step).holds_at(q, id),
    decreases path.len(),
{
    let t = r.observed(ar, path, reward, step);
    match r {
        Region::Leaf(x, b) => {
            assert forall|q: Seq<usize>, id: u64| #[trigger] r.holds_at(q, id) implies t.holds_at(
                q,
                id,
            ) by {}
        },
        Region::Inner(c, _, _) => {
            let i = path[0] as int;
            let rest = path.drop_first();
            observations_keep_records(ar, c[i], rest, reward, step);
            let d = c.update(i, c[i].observed(ar, rest, reward, step));
            assert(t.children() == d);
            lemma_same_leaves(c, d, c.len() as int);
            if grounded(r) {
                assert forall|k: int| #![trigger d[k]] 0 <= k < d.len() implies grounded(d[k]) by {
                    assert(grounded(c[k]));
                }
            }
            assert(d[i].leads(rest));
            assert forall|q: Seq<usize>, id: u64| #[trigger] r.holds_at(q, id) implies t.holds_at(
                q,
                id,
            ) by {
                let k = q[0] as int;
                assert(c[k].holds_at(q.drop_first(), id));
                assert(d[k].holds_at(q.drop_first(), id));
            }
        },
    }
}

/// An observation changes no path.
pub proof fn observations_keep_paths(
    ar: Arith,
    r: Region,
    path: Seq<usize>,
    reward: u32,
    step: u64,
    id: u64,
)
    requires
        r.leads(path),
    ensures
        last_path(r.observed(ar, path, reward, step), id) == last_path(r, id),
    decreases path.len(),
{
    if let Region::Inner(c, _, _) = r {
        let i = path[0] as int;
        let rest = path.drop_first();
        observations_keep_paths(ar, c[i], rest, reward, step, id);
        let d = c.update(i, c[i].observed(ar, rest, reward, step));
        assert(r.observed(ar, path, reward, step).children() == d);
        lemma_same_paths(c, d, c.len() as int, id);
    }
}

proof fn lemma_same_paths(c: Seq<Region>, d: Seq<Region>, n: int, id: u64)
    requires
        c.len() == d.len(),
        0 <= n <= c.len(),
        forall|i: int| 0 <= i < c.len() ==> last_path(#[trigger] c[i], id) == last_path(d[i], id),
    ensures
        last_path_in(c, n, id) == last_path_in(d, n, id),
    decreases n,
{
    if n > 0 {
        lemma_same_paths(c, d, n - 1, id);
        assert(last_path(c[n - 1], id) == last_path(d[n - 1], id));
    }
}

proof fn lemma_same_leaves(c: Seq<Region>, d: Seq<Region>, n: int)
    requires
        c.len() == d.len(),
        0 <= n <= c.len(),
        forall|i: int| 0 <= i < c.len() ==> leaf_ids(#[trigger] c[i]) == leaf_ids(d[i]),
    ensures
        leaves_of(c, n) == leaves_of(d, n),
    decreases n,
{
    if n > 0 {
        lemma_same_leaves(c, d, n - 1);
        assert(leaf_ids(c[n - 1]) == leaf_ids(d[n - 1]));
    }
}

/// After an observation every region still pools the beliefs on its parts.
pub proof fn observations_keep_pooling(
    ar: Arith,
    r: Region,
    path: Seq<usize>,
    reward: u32,
    step: u64,
)
    requires
        r.leads(path),
        pools(ar, r),
    ensures
        pools(ar, r.observed(ar, path, reward, step)),
    decreases path.len(),
{
    match r {
        Region::Leaf(_, _) => {},
        Region::Inner(c, _, _) => {
            let i = path[0] as int;
            let rest = path.drop_first();
            assert(pools(ar, c[i]));
            observations_keep_pooling(ar, c[i], rest, reward, step);
            let d = c.update(i, c[i].observed(ar, rest, reward, step));
            assert forall|k: int| #![trigger d[k]] 0 <= k < d.len() implies pools(ar, d[k]) by {
                assert(pools(ar, c[k]));
            }
        },
    }
}

/// An observation updates the belief on its record, and on no other.
pub proof fn observations_are_local(
    ar: Arith,
    r: Region,
    path: Seq<usize>,
    reward: u32,
    step: u64,
    q: Seq<usize>,
)
    requires
        r.leads(path),
        r.leads(q),
    ensures
        r.at(path) is Leaf,
        q == path ==> r.observed(ar, path, reward, step).at(q) == Region::Leaf(
            r.at(path)->Leaf_0,
            r.at(path)->Leaf_1.observed(ar, reward, step),
        ),
        q != path ==> r.observed(ar, path, reward, step).at(q) == r.at(q),
    decreases path.len(),
{
    match r {
        Region::Leaf(_, _) => {
            assert(path =~= q);
        },
        Region::Inner(c, _, _) => {
            let i = path[0] as int;
            let k = q[0] as int;
            let rest = path.drop_first();
            observations_are_local(ar, c[i], rest, reward, step, rest);
            if i == k {
                observations_are_local(ar, c[i], rest, reward, step, q.drop_first());
                if q != path && q.drop_first() == rest {
                    assert(q =~= seq![q[0]] + q.drop_first());
                    assert(path =~= seq![path[0]] + rest);
                }
            }
        },
    }
}

/// The draws for the first `n` of `c`, and where the draws go on.
pub open spec fn draws_for(
    ar: Arith,
    u: Noise,
    seed: u64,
    c: Seq<Region>,
    at: int,
    n: int,
) -> (Seq<u32>, int)
    decreases n,
{
    if n <= 0 {
        (Seq::empty(), at)
    } else {
        let (before, next) = draws_for(ar, u, seed, c, at, n - 1);
        let (alpha, beta) = c[n - 1].params();
        let (draw, end) = sampling::beta(ar, u, seed, alpha, beta, next);
        (before.push(draw), end)
    }
}

/// The place of the first largest of the first `n` draws, and that draw.
pub open spec fn champion(d: Seq<u32>, n: int) -> (int, u32)
    decreases n,
{
    if n <= 0 {
        (0, order::NEG_INFINITY)
    } else if order::lt(champion(d, n - 1).1, d[n - 1]) {
        (n - 1, d[n - 1])
    } else {
        champion(d, n - 1)
    }
}

proof fn lemma_champion(d: Seq<u32>, n: int)
    requires
        0 <= n,
    ensures
        0 <= champion(d, n).0,
        n > 0 ==> champion(d, n).0 < n,
    decreases n,
{
    if n > 0 {
        lemma_champion(d, n - 1);
    }
}

/// The record that sampling ends at: from each region on to the part with the
/// largest draw.
pub open spec fn sampled(ar: Arith, u: Noise, seed: u64, r: Region, at: int) -> u64
    decreases r,
{
    match r {
        Region::Leaf(id, _) => id,
        Region::Inner(c, _, _) => {
            let (d, next) = draws_for(ar, u, seed, c, at, c.len() as int);
            let k = champion(d, d.len() as int).0;
            if 0 <= k < c.len() {
                sampled(ar, u, seed, c[k], next)
            } else {
                0
            }
        },
    }
}

/// Sampling ends at a record of the tree.
pub proof fn samples_are_records(ar: Arith, u: Noise, seed: u64, r: Region, at: int)
    requires
        grounded(r),
    ensures
        leaf_ids(r).contains(sampled(ar, u, seed, r, at)),
    decreases r,
{
    match r {
        Region::Leaf(id, _) => {
            assert(leaf_ids(r)[0] == id);
        },
        Region::Inner(c, _, _) => {
            let (d, next) = draws_for(ar, u, seed, c, at, c.len() as int);
            lemma_draw_count(ar, u, seed, c, at, c.len() as int);
            lemma_champion(d, d.len() as int);
            let k = champion(d, d.len() as int).0;
            assert(grounded(c[k]));
            samples_are_records(ar, u, seed, c[k], next);
            lemma_leaves_of(c, c.len() as int, k, sampled(ar, u, seed, c[k], next));
        },
    }
}

proof fn lemma_draw_count(ar: Arith, u: Noise, seed: u64, c: Seq<Region>, at: int, n: int)
    requires
        0 <= n,
    ensures
        draws_for(ar, u, seed, c, at, n).0.len() == n,
    decreases n,
{
    if n > 0 {
        lemma_draw_count(ar, u, seed, c, at, n - 1);
    }
}

impl TreeNode {
    fn beta_params(&self) -> (r: (u32, u32))
        ensures
            r == region(*self).params(),
    {
        match self {
            TreeNode::Internal { children, alpha, beta } => (*alpha, *beta),
            TreeNode::Leaf { record_id, belief } => (belief.alpha, belief.beta),
        }
    }

    fn leaf(record_id: u64, drift_rate: u32) -> (r: Self)
        ensures
            region(r) == Region::Leaf(record_id, RegionBelief::initial(drift_rate)),
    {
        TreeNode::Leaf { record_id, belief: RegionBelief::new(drift_rate) }
    }

    fn internal<F: Fn(Op, u32, u32, u32) -> u32>(fpu: &F, children: Vec<TreeNode>) -> (r: Self)
        requires
            arith::is_unit(*fpu),
        ensures
            region(r) == pooled(arith::arith(*fpu), regions(children@)),
    {
        let (alpha, beta) = aggregate(fpu, &children);
        let r: TreeNode = TreeNode::Internal { children, alpha, beta };
        proof {
            lemma_region(r);
        }
        r
    }
}

/// The parameters that pool the beliefs on `children`.
fn aggregate<F: Fn(Op, u32, u32, u32) -> u32>(fpu: &F, children: &Vec<TreeNode>) -> (r: (u32, u32))
    requires
        arith::is_unit(*fpu),
    ensures
        r == pooled(arith::arith(*fpu), regions(children@)).params(),
{
    let ghost ar = arith::arith(*fpu);
    let ghost c = regions(children@);
    let n: u32 = arith::count(fpu, children.len());
    let mut a: u32 = order::ZERO;
    let mut b: u32 = order::ZERO;
    let mut i: usize = 0;
    while i < children.len()
        invariant
            i <= children@.len(),
            arith::is_unit(*fpu),
            ar == arith::arith(*fpu),
            c == regions(children@),
            a == alpha_sum(ar, c, i as int),
            b == beta_sum(ar, c, i as int),
        decreases children@.len() - i,
    {
        assert(c[i as int] == region(children@[i as int]));
        let (ca, cb) = children[i].beta_params();
        a = arith::binary(fpu, Op::Add, a, ca);
        b = arith::binary(fpu, Op::Add, b, cb);
        i += 1;
    }
    let more_a: u32 = arith::binary(fpu, Op::Add, arith::binary(fpu, Op::Sub, a, n), order::ONE);
    let more_b: u32 = arith::binary(fpu, Op::Add, arith::binary(fpu, Op::Sub, b, n), order::ONE);
    (order::raise(more_a, order::ONE), order::raise(more_b, order::ONE))
}

fn sample_node<F: Fn(Op, u32, u32, u32) -> u32, U: Fn(u64, u64) -> u32>(
    fpu: &F,
    uniform: &U,
    seed: u64,
    node: &TreeNode,
    start: u64,
) -> (r: u64)
    requires
        arith::is_unit(*fpu),
        arith::is_source(*uniform),
        grounded(region(*node)),
    ensures
        r == sampled(
            arith::arith(*fpu),
            arith::noise(*uniform),
            seed,
            region(*node),
            start as int,
        ),
    decreases *node,
{
    let ghost ar = arith::arith(*fpu);
    let ghost u = arith::noise(*uniform);
    proof {
        lemma_region(*node);
    }
    match node {
        TreeNode::Leaf { record_id, belief } => *record_id,
        TreeNode::Internal { children, alpha, beta } => {
            let ghost c = regions(children@);
            let mut at: u64 = start;
            let mut best: usize = 0;
            let mut best_draw: u32 = order::NEG_INFINITY;
            let mut i: usize = 0;
            while i < children.len()
                invariant
                    i <= children@.len(),
                    arith::is_unit(*fpu),
                    arith::is_source(*uniform),
                    ar == arith::arith(*fpu),
                    u == arith::noise(*uniform),
                    c == regions(children@),
                    i == 0 ==> best == 0,
                    i > 0 ==> best < i,
                    ({
                        let (d, next) = draws_for(ar, u, seed, c, start as int, i as int);
                        &&& d.len() == i
                        &&& at == next
                        &&& best == champion(d, i as int).0
                        &&& best_draw == champion(d, i as int).1
                    }),
                decreases children@.len() - i,
            {
                assert(c[i as int] == region(children@[i as int]));
                let (a, b) = children[i].beta_params();
                let (s, next) = sampling::sample_beta(fpu, uniform, seed, a, b, at);
                proof {
                    let (d, _) = draws_for(ar, u, seed, c, start as int, i as int);
                    let (e, _) = draws_for(ar, u, seed, c, start as int, i + 1);
                    assert(e == d.push(s));
                    lemma_champion_prefix(d, e, i as int);
                }
                at = next;
                if order::less(best_draw, s) {
                    best = i;
                    best_draw = s;
                }
                i += 1;
            }
            assert(c[best as int] == region(children@[best as int]));
            assert(grounded(c[best as int]));
            sample_node(fpu, uniform, seed, &children[best], at)
        },
    }
}

proof fn lemma_champion_prefix(d: Seq<u32>, e: Seq<u32>, n: int)
    requires
        0 <= n <= d.len(),
        n <= e.len(),
        forall|i: int| 0 <= i < n ==> d[i] == e[i],
    ensures
        champion(d, n) == champion(e, n),
    decreases n,
{
    if n > 0 {
        lemma_champion_prefix(d, e, n - 1);
    }
}

fn observe_node<F: Fn(Op, u32, u32, u32) -> u32>(
    fpu: &F,
    node: &mut TreeNode,
    path: &Vec<usize>,
    depth: usize,
    reward: u32,
    step: u64,
)
    requires
        arith::is_unit(*fpu),
        depth <= path@.len(),
        region(*old(node)).leads(path@.skip(depth as int)),
    ensures
        region(*final(node)) == region(*old(node)).observed(
            arith::arith(*fpu),
            path@.skip(depth as int),
            reward,
            step,
        ),
    decreases path@.len() - depth,
{
    let ghost ar = arith::arith(*fpu);
    let ghost before = *node;
    let ghost rest = path@.skip(depth as int);
    proof {
        lemma_region(*node);
        assert(rest.len() == path@.len() - depth);
        if rest.len() > 0 {
            assert(rest[0] == path@[depth as int]);
            assert(rest.drop_first() =~= path@.skip(depth + 1));
        }
    }
    match node {
        TreeNode::Leaf { record_id, belief } => {
            belief.predict(fpu, step);
            belief.update(fpu, reward, step);
        },
        TreeNode::Internal { children, alpha, beta } => {
            let ghost c = regions(children@);
            let ghost start = children@;
            let steps: usize = path.len();
            let i: usize = path[depth];
            assert(c[i as int] == region(children@[i as int]));
            observe_node(fpu, &mut children[i], path, depth + 1, reward, step);
            proof {
                assert(regions(children@) =~= c.update(
                    i as int,
                    c[i as int].observed(ar, rest.drop_first(), reward, step),
                ));
            }
            let (a, b) = aggregate(fpu, children);
            *alpha = a;
            *beta = b;
        },
    }
    proof {
        lemma_region(*node);
    }
}

proof fn lemma_descend(r: Region, p: Seq<usize>, q: Seq<usize>)
    requires
        r.valid(p),
    ensures
        r.at(p + q) == r.at(p).at(q),
        r.at(p).leads(q) ==> r.leads(p + q),
        r.at(p).valid(q) ==> r.valid(p + q),
    decreases p.len(),
{
    if p.len() == 0 {
        assert(p + q =~= q);
    } else {
        lemma_descend(r.children()[p[0] as int], p.drop_first(), q);
        assert((p + q).drop_first() =~= p.drop_first() + q);
    }
}

/// `new` is `old`, with the paths of the first `n` of `c` below `here` in
/// place of what was known of their records.
spec fn extends(
    old: Map<u64, Vec<usize>>,
    new: Map<u64, Vec<usize>>,
    here: Seq<usize>,
    c: Seq<Region>,
    n: int,
) -> bool {
    forall|id: u64|
        match last_path_in(c, n, id) {
            Some(p) => (#[trigger] new.contains_key(id)) && new[id]@ == here + p,
            None => new.contains_key(id) == old.contains_key(id) && (old.contains_key(id)
                ==> new[id] == old[id]),
        }
}

/// `m` has a path for each of its records.
spec fn maps(root: Region, m: Map<u64, Vec<usize>>) -> bool {
    forall|id: u64| #[trigger] m.contains_key(id) ==> root.holds_at(m[id]@, id)
}

fn copy_path(v: &Vec<usize>) -> (r: Vec<usize>)
    ensures
        r@ == v@,
{
    let r: Vec<usize> = v.clone();
    assert(r@ =~= v@);
    r
}

fn collect_arm_paths(
    node: &TreeNode,
    path: &mut Vec<usize>,
    out: &mut HashMap<u64, Vec<usize>>,
    Ghost(root): Ghost<Region>,
)
    requires
        root.valid(old(path)@),
        root.at(old(path)@) == region(*node),
        maps(root, old(out)@),
    ensures
        final(path)@ == old(path)@,
        maps(root, final(out)@),
        forall|id: u64|
            match last_path(region(*node), id) {
                Some(p) => (#[trigger] final(out)@.contains_key(id)) && final(out)@[id]@ == old(
                    path,
                )@ + p,
                None => final(out)@.contains_key(id) == old(out)@.contains_key(id) && (old(
                    out,
                )@.contains_key(id) ==> final(out)@[id] == old(out)@[id]),
            },
    decreases *node,
{
    broadcast use vstd::std_specs::hash::group_hash_axioms;

    let ghost here = path@;
    let ghost known = out@;
    proof {
        lemma_region(*node);
    }
    match node {
        TreeNode::Leaf { record_id, belief } => {
            let copied: Vec<usize> = copy_path(path);
            out.insert(*record_id, copied);
            proof {
                let r = region(*node);
                lemma_descend(root, here, Seq::<usize>::empty());
                assert(here + Seq::<usize>::empty() =~= here);
                assert(r.leads(Seq::<usize>::empty()));
                assert(root.holds_at(here, *record_id));
                assert(leaf_ids(r)[0] == *record_id);
                assert forall|id: u64| leaf_ids(r).contains(id) implies id == *record_id by {}
                assert(last_path(r, *record_id) == Some(Seq::<usize>::empty()));
                assert forall|id: u64| #[trigger] out@.contains_key(id) implies root.holds_at(
                    out@[id]@,
                    id,
                ) by {
                    if id != *record_id {
                        assert(known.contains_key(id));
                    }
                }
            }
        },
        TreeNode::Internal { children, alpha, beta } => {
            let ghost c = regions(children@);
            let mut i: usize = 0;
            while i < children.len()
                invariant
                    i <= children@.len(),
                    c == regions(children@),
                    root.valid(here),
                    root.at(here) is Inner,
                    root.at(here).children() == c,
                    path@ == here,
                    maps(root, out@),
                    extends(known, out@, here, c, i as int),
                    *node matches TreeNode::Internal { children: k, alpha: x, beta: y } && k == *children,
                decreases children@.len() - i,
            {
                let ghost before = out@;
                path.push(i);
                proof {
                    assert(path@ =~= here + seq![i]);
                    let r = root.at(here);
                    assert(seq![i].drop_first() =~= Seq::<usize>::empty());
                    assert(r.children()[i as int].valid(seq![i].drop_first()));
                    assert(r.valid(seq![i]));
                    lemma_descend(root, here, seq![i]);
                    assert(r.at(seq![i]) == c[i as int].at(seq![i].drop_first()));
                    assert(c[i as int] == region(children@[i as int]));
                }
                collect_arm_paths(&children[i], path, out, Ghost(root));
                let _ = path.pop();
                proof {
                    assert(path@ =~= here);
                    assert forall|id: u64|
                        match last_path_in(c, i + 1, id) {
                            Some(p) => (#[trigger] out@.contains_key(id)) && out@[id]@ == here + p,
                            None => out@.contains_key(id) == known.contains_key(id) && (
                            known.contains_key(id) ==> out@[id] == known[id]),
                        } by {
                        match last_path(c[i as int], id) {
                            Some(p) => {
                                assert(out@.contains_key(id));
                                assert((here + seq![i]) + p =~= here + (seq![i] + p));
                            },
                            None => {},
                        }
                    }
                }
                i += 1;
            }
        },
    }
}

fn collect_leaf_ids(node: &TreeNode, out: &mut Vec<u64>)
    ensures
        final(out)@ == old(out)@ + leaf_ids(region(*node)),
    decreases *node,
{
    let ghost start = out@;
    proof {
        lemma_region(*node);
    }
    match node {
        TreeNode::Leaf { record_id, belief } => {
            out.push(*record_id);
            assert(out@ =~= start + leaf_ids(region(*node)));
        },
        TreeNode::Internal { children, alpha, beta } => {
            let ghost c = regions(children@);
            let mut i: usize = 0;
            assert(out@ =~= start + leaves_of(c, 0));
            while i < children.len()
                invariant
                    i <= children@.len(),
                    c == regions(children@),
                    out@ == start + leaves_of(c, i as int),
                    *node matches TreeNode::Internal { children: k, alpha: x, beta: y } && k == *children,
                decreases children@.len() - i,
            {
                assert(c[i as int] == region(children@[i as int]));
                collect_leaf_ids(&children[i], out);
                proof {
                    assert((start + leaves_of(c, i as int)) + leaf_ids(c[i as int]) =~= start
                        + leaves_of(c, i + 1));
                }
                i += 1;
            }
        },
    }
}

/// The node that the first `n` steps of `path` lead to.
fn node_at<'a>(root: &'a TreeNode, path: &Vec<usize>, n: usize) -> (r: &'a TreeNode)
    requires
        n <= path@.len(),
        region(*root).leads(path@),
    ensures
        region(*r) == region(*root).at(path@.take(n as int)),
        region(*r).leads(path@.skip(n as int)),
    decreases n,
{
    if n == 0 {
        assert(path@.skip(0) =~= path@);
        return root;
    }
    let before: &'a TreeNode = node_at(root, path, n - 1);
    let ghost rest = path@.skip(n - 1);
    proof {
        lemma_region(*before);
        assert(rest[0] == path@[n - 1]);
        assert(rest.drop_first() =~= path@.skip(n as int));
        lemma_leads_valid(region(*root), path@, n - 1);
        lemma_descend(region(*root), path@.take(n - 1), seq![path@[n - 1]]);
        assert(path@.take(n - 1) + seq![path@[n - 1]] =~= path@.take(n as int));
        assert(seq![path@[n - 1]].drop_first() =~= Seq::<usize>::empty());
    }
    match before {
        TreeNode::Internal { children, alpha, beta } => {
            assert(regions(children@)[path@[n - 1] as int] == region(
                children@[path@[n - 1] as int],
            ));
            proof {
                let b = region(*before);
                assert(b.at(seq![path@[n - 1]]) == b.children()[path@[n - 1] as int].at(
                    seq![path@[n - 1]].drop_first(),
                ));
            }
            &children[path[n - 1]]
        },
        TreeNode::Leaf { record_id, belief } => before,
    }
}

proof fn lemma_leads_valid(r: Region, path: Seq<usize>, n: int)
    requires
        r.leads(path),
        0 <= n <= path.len(),
    ensures
        r.valid(path.take(n)),
    decreases n,
{
    if n > 0 {
        lemma_leads_valid(r.children()[path[0] as int], path.drop_first(), n - 1);
        assert(path.take(n).drop_first() =~= path.drop_first().take(n - 1));
    }
}

/// A tree of regions over records, with the path to each record.
#[derive(Debug)]
pub struct RegionTree {
    root: TreeNode,
    arm_paths: HashMap<u64, Vec<usize>>,
}

impl View for RegionTree {
    type V = Region;

    closed spec fn view(&self) -> Region {
        region(self.root)
    }
}

impl RegionTree {
    #[verifier::type_invariant]
    spec fn inv(&self) -> bool {
        &&& grounded(region(self.root))
        &&& maps(region(self.root), self.arm_paths@)
        &&& forall|id: u64|
            match last_path(region(self.root), id) {
                Some(p) => (#[trigger] self.arm_paths@.contains_key(id))
                    && self.arm_paths@[id]@ == p,
                None => !self.arm_paths@.contains_key(id),
            }
    }

    /// The tree with the given root.
    fn rooted(root: TreeNode) -> (r: Self)
        requires
            grounded(region(root)),
        ensures
            r@ == region(root),
    {
        broadcast use vstd::std_specs::hash::group_hash_axioms;

        let mut arm_paths: HashMap<u64, Vec<usize>> = HashMap::new();
        let mut path: Vec<usize> = Vec::new();
        collect_arm_paths(&root, &mut path, &mut arm_paths, Ghost(region(root)));
        proof {
            assert forall|id: u64|
                match last_path(region(root), id) {
                    Some(p) => (#[trigger] arm_paths@.contains_key(id)) && arm_paths@[id]@ == p,
                    None => !arm_paths@.contains_key(id),
                } by {
                if let Some(p) = last_path(region(root), id) {
                    assert(Seq::<usize>::empty() + p =~= p);
                }
            }
        }
        RegionTree { root, arm_paths }
    }

    /// The number of records.
    pub fn num_arms(&self) -> (r: usize)
        ensures
            r == leaf_ids(self@).to_set().len(),
            grounded(self@),
    {
        broadcast use vstd::std_specs::hash::group_hash_axioms;

        proof {
            use_type_invariant(self);
            assert forall|id: u64| #[trigger] self.arm_paths@.contains_key(id) <==> leaf_ids(
                self@,
            ).contains(id) by {
                records_have_paths(self@, id);
            }
            assert(self.arm_paths@.dom() =~= leaf_ids(self@).to_set());
        }
        self.arm_paths.len()
    }

    /// The belief on all records together.
    pub fn root_belief(&self) -> (r: (u32, u32))
        ensures
            r == self@.params(),
    {
        self.root.beta_params()
    }

    /// Samples a record: goes down the tree, from each region on to the part
    /// with the largest draw from its belief. Draws of `uniform` lie from
    /// zero to below one.
    pub fn sample<F: Fn(Op, u32, u32, u32) -> u32, U: Fn(u64, u64) -> u32>(
        &self,
        fpu: &F,
        uniform: &U,
        seed: u64,
    ) -> (r: u64)
        requires
            arith::is_unit(*fpu),
            arith::is_source(*uniform),
        ensures
            r == sampled(arith::arith(*fpu), arith::noise(*uniform), seed, self@, 0),
            leaf_ids(self@).contains(r),
    {
        proof {
            use_type_invariant(self);
            samples_are_records(arith::arith(*fpu), arith::noise(*uniform), seed, self@, 0);
        }
        sample_node(fpu, uniform, seed, &self.root, 0)
    }

    /// Observes a reward on a record, at its last place if it has more than
    /// one; nothing changes if it is not in the tree.
    pub fn observe<F: Fn(Op, u32, u32, u32) -> u32>(
        &mut self,
        fpu: &F,
        record_id: u64,
        reward: u32,
        step: u64,
    )
        requires
            arith::is_unit(*fpu),
        ensures
            last_path(old(self)@, record_id) is Some <==> leaf_ids(old(self)@).contains(record_id),
            last_path(old(self)@, record_id) is None ==> final(self)@ == old(self)@,
            last_path(old(self)@, record_id) is Some ==> ({
                let path = last_path(old(self)@, record_id)->0;
                &&& old(self)@.holds_at(path, record_id)
                &&& final(self)@ == old(self)@.observed(arith::arith(*fpu), path, reward, step)
            }),
    {
        broadcast use vstd::std_specs::hash::group_hash_axioms;

        proof {
            use_type_invariant(&*self);
            records_have_paths(self@, record_id);
            assert(last_path(self@, record_id) is Some <==> self.arm_paths@.contains_key(record_id));
        }
        let path: Vec<usize> = match self.arm_paths.get(&record_id) {
            Some(p) => copy_path(p),
            None => {
                return;
            },
        };
        let ghost before = self@;
        let placeholder: TreeNode = TreeNode::leaf(0, order::ZERO);
        let mut tree: RegionTree = RegionTree::rooted(placeholder);
        std::mem::swap(self, &mut tree);
        let mut root: TreeNode = tree.root;
        let arm_paths: HashMap<u64, Vec<usize>> = tree.arm_paths;
        assert(path@.skip(0) =~= path@);
        observe_node(fpu, &mut root, &path, 0, reward, step);
        proof {
            let ar = arith::arith(*fpu);
            observations_keep_records(ar, before, path@, reward, step);
            assert forall|id: u64|
                match last_path(region(root), id) {
                    Some(p) => (#[trigger] arm_paths@.contains_key(id)) && arm_paths@[id]@ == p,
                    None => !arm_paths@.contains_key(id),
                } by {
                observations_keep_paths(ar, before, path@, reward, step, id);
            }
        }
        *self = RegionTree { root, arm_paths };
    }

    /// The parameters of the belief on a record, at its last place if it has
    /// more than one; `None` if it is not in the tree.
    pub fn leaf_belief(&self, record_id: u64) -> (r: Option<(u32, u32)>)
        ensures
            r is Some <==> leaf_ids(self@).contains(record_id),
            r is Some <==> last_path(self@, record_id) is Some,
            r is Some ==> ({
                let path = last_path(self@, record_id)->0;
                self@.holds_at(path, record_id) && r->0 == self@.at(path).params()
            }),
    {
        broadcast use vstd::std_specs::hash::group_hash_axioms;

        proof {
            use_type_invariant(self);
            records_have_paths(self@, record_id);
            assert(last_path(self@, record_id) is Some <==> self.arm_paths@.contains_key(record_id));
        }
        match self.arm_paths.get(&record_id) {
            Some(path) => {
                let node: &TreeNode = node_at(&self.root, path, path.len());
                assert(path@.take(path@.len() as int) =~= path@);
                assert(self@.holds_at(path@, record_id));
                Some(node.beta_params())
            },
            None => None,
        }
    }

    /// The records in the smallest region around a record, itself among them,
    /// in order; around its last place if it has more than one. `None` if it
    /// is not in the tree.
    pub fn region_members(&self, record_id: u64) -> (r: Option<Vec<u64>>)
        ensures
            r is Some <==> leaf_ids(self@).contains(record_id),
            r is Some <==> last_path(self@, record_id) is Some,
            r is Some ==> ({
                let path = last_path(self@, record_id)->0;
                &&& self@.holds_at(path, record_id)
                &&& sorting::climbing(r->0@)
                &&& r->0@.to_multiset() == leaf_ids(
                    if path.len() == 0 {
                        self@
                    } else {
                        self@.at(path.drop_last())
                    },
                ).to_multiset()
            }),
    {
        broadcast use vstd::std_specs::hash::group_hash_axioms;

        proof {
            use_type_invariant(self);
            records_have_paths(self@, record_id);
            assert(last_path(self@, record_id) is Some <==> self.arm_paths@.contains_key(record_id));
        }
        match self.arm_paths.get(&record_id) {
            Some(path) => {
                assert(self@.holds_at(path@, record_id));
                let depth: usize = if path.len() == 0 {
                    0
                } else {
                    path.len() - 1
                };
                let node: &TreeNode = node_at(&self.root, path, depth);
                proof {
                    if path@.len() == 0 {
                        assert(path@.take(0) =~= Seq::<usize>::empty());
                    } else {
                        assert(path@.take(depth as int) =~= path@.drop_last());
                    }
                }
                let mut members: Vec<u64> = Vec::new();
                collect_leaf_ids(node, &mut members);
                assert(members@ =~= leaf_ids(region(*node)));
                Some(sorting::sort_ids(members))
            },
            None => None,
        }
    }
}

} // verus!
