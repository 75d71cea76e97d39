use vstd::prelude::*;

verus! {

/// Number of `true` entries in a sequence of booleans.
pub open spec fn count_true(s: Seq<bool>) -> int
    decreases s.len(),
{
    if s.len() == 0 {
        0
    } else {
        count_true(s.drop_last()) + if s.last() {
            1int
        } else {
            0int
        }
    }
}

pub proof fn lemma_count_true_bound(s: Seq<bool>)
    ensures
        0 <= count_true(s) <= s.len(),
    decreases s.len(),
{
    if s.len() > 0 {
        lemma_count_true_bound(s.drop_last());
    }
}

/// Setting a `false` entry to `true` raises the count by one.
pub proof fn lemma_count_true_update(s: Seq<bool>, i: int)
    requires
        0 <= i < s.len(),
        !s[i],
    ensures
        count_true(s.update(i, true)) == count_true(s) + 1,
    decreases s.len(),
{
    let t = s.update(i, true);
    if i == s.len() - 1 {
        assert(t.drop_last() =~= s.drop_last());
    } else {
        assert(t.drop_last() =~= s.drop_last().update(i, true));
        lemma_count_true_update(s.drop_last(), i);
    }
}

/// If not every entry is `true`, some entry is `false`.
pub proof fn lemma_count_true_partial(s: Seq<bool>)
    ensures
        count_true(s) < s.len() ==> exists|i: int| 0 <= i < s.len() && !s[i],
        count_true(s) == s.len() ==> forall|i: int| 0 <= i < s.len() ==> s[i],
    decreases s.len(),
{
    if s.len() > 0 {
        lemma_count_true_partial(s.drop_last());
        lemma_count_true_bound(s.drop_last());
        if count_true(s) < s.len() {
            if !s.last() {
                assert(!s[s.len() - 1]);
            } else {
                let i = choose|i: int| 0 <= i < s.drop_last().len() && !s.drop_last()[i];
                assert(!s[i]);
            }
        }
        if count_true(s) == s.len() {
            assert(forall|i: int| 0 <= i < s.len() - 1 ==> s[i] == s.drop_last()[i]);
        }
    }
}

pub proof fn lemma_count_true_all_false(s: Seq<bool>)
    requires
        forall|i: int| 0 <= i < s.len() ==> !s[i],
    ensures
        count_true(s) == 0,
    decreases s.len(),
{
    if s.len() > 0 {
        lemma_count_true_all_false(s.drop_last());
    }
}

/// The position at which node `i` stands in a schedule.
pub open spec fn pos_of(order: Seq<(usize, usize)>, i: int) -> int {
    choose|p: int| 0 <= p < order.len() && (#[trigger] order[p]).0 == i
}

/// Whether node `i` appears somewhere in the schedule.
pub open spec fn order_contains(order: Seq<(usize, usize)>, i: int) -> bool {
    exists|p: int| 0 <= p < order.len() && (#[trigger] order[p]).0 == i
}

pub open spec fn min_at(s: Seq<int>, k: int) -> bool {
    0 <= k < s.len() && forall|k2: int| 0 <= k2 < s.len() ==> s[k] <= #[trigger] s[k2]
}

/// Every nonempty sequence of integers attains a minimum somewhere.
pub proof fn lemma_seq_has_min(s: Seq<int>)
    requires
        s.len() > 0,
    ensures
        exists|k: int| #[trigger] min_at(s, k),
    decreases s.len(),
{
    if s.len() == 1 {
        assert(min_at(s, 0));
    } else {
        lemma_seq_has_min(s.drop_last());
        let k = choose|k: int| #[trigger] min_at(s.drop_last(), k);
        if s[k] <= s.last() {
            assert(min_at(s, k)) by {
                assert forall|k2: int| 0 <= k2 < s.len() implies s[k] <= #[trigger] s[k2] by {
                    if k2 < s.len() - 1 {
                        assert(s.drop_last()[k2] == s[k2]);
                        assert(s.drop_last()[k] <= s.drop_last()[k2]);
                    }
                }
            }
        } else {
            assert(min_at(s, s.len() - 1)) by {
                assert forall|k2: int|
                    0 <= k2 < s.len() implies s[s.len() - 1] <= #[trigger] s[k2] by {
                    if k2 < s.len() - 1 {
                        assert(s.drop_last()[k] <= s.drop_last()[k2]);
                    }
                }
            }
        }
    }
}

proof fn lemma_push_contains<T>(s: Seq<T>, x: T, y: T)
    ensures
        s.push(x).contains(y) <==> (s.contains(y) || y == x),
{
    if s.push(x).contains(y) {
        let k = choose|k: int| 0 <= k < s.push(x).len() && s.push(x)[k] == y;
        if k < s.len() {
            assert(s[k] == y);
        }
    }
    if s.contains(y) {
        let k = choose|k: int| 0 <= k < s.len() && s[k] == y;
        assert(s.push(x)[k] == y);
    }
    if y == x {
        assert(s.push(x)[s.len() as int] == y);
    }
}

proof fn lemma_drop_last_contains<T>(s: Seq<T>, y: T)
    requires
        s.len() > 0,
    ensures
        s.contains(y) <==> (s.drop_last().contains(y) || y == s.last()),
{
    if s.contains(y) {
        let k = choose|k: int| 0 <= k < s.len() && s[k] == y;
        if k < s.len() - 1 {
            assert(s.drop_last()[k] == y);
        }
    }
    if s.drop_last().contains(y) {
        let k = choose|k: int| 0 <= k < s.drop_last().len() && s.drop_last()[k] == y;
        assert(s[k] == y);
    }
    if y == s.last() {
        assert(s[s.len() - 1] == y);
    }
}

/// A directed dependency graph over the node indices `0 .. node_count`.
/// An edge `(u, v)` means "u must run before v" (v depends on u).
pub struct TopologicalGraph {
    node_count: usize,
    edges: Vec<(usize, usize)>,
}

impl TopologicalGraph {
    pub closed spec fn nodes(self) -> int {
        self.node_count as int
    }

    /// All recorded edges stay inside the node range.
    pub closed spec fn wf(self) -> bool {
        forall|k: int|
            0 <= k < self.edges@.len() ==> (#[trigger] self.edges@[k]).0 < self.node_count
                && self.edges@[k].1 < self.node_count
    }

    /// `u` is a direct predecessor of `v`: `u` must run before `v`.
    pub closed spec fn edge(self, u: int, v: int) -> bool {
        exists|k: int|
            0 <= k < self.edges@.len() && (#[trigger] self.edges@[k]).0 == u && self.edges@[k].1
                == v
    }

    /// `b` can be reached from `a` along edges within `fuel` steps.
    pub open spec fn reach_fuel(self, a: int, b: int, fuel: nat) -> bool
        decreases fuel,
    {
        a == b || (fuel > 0 && exists|m: int|
            #[trigger] self.edge(a, m) && self.reach_fuel(m, b, (fuel - 1) as nat))
    }

    /// `b` can be reached from `a` along zero or more edges.
    pub open spec fn reaches(self, a: int, b: int) -> bool {
        exists|fuel: nat| self.reach_fuel(a, b, fuel)
    }

    pub proof fn lemma_reaches_refl(self, a: int)
        ensures
            self.reaches(a, a),
    {
        assert(self.reach_fuel(a, a, 0));
    }

    /// Extending a path by one edge at its end keeps it a path.
    proof fn lemma_reach_fuel_step(self, a: int, m: int, b: int, fuel: nat)
        requires
            self.reach_fuel(a, m, fuel),
            self.edge(m, b),
        ensures
            self.reach_fuel(a, b, (fuel + 1) as nat),
        decreases fuel,
    {
        if a == m {
            assert(self.reach_fuel(b, b, fuel));
            assert(self.reach_fuel(a, b, (fuel + 1) as nat));
        } else {
            let mid = choose|mid: int|
                #[trigger] self.edge(a, mid) && self.reach_fuel(mid, m, (fuel - 1) as nat);
            self.lemma_reach_fuel_step(mid, m, b, (fuel - 1) as nat);
        }
    }

    pub proof fn lemma_reaches_step(self, a: int, m: int, b: int)
        requires
            self.reaches(a, m),
            self.edge(m, b),
        ensures
            self.reaches(a, b),
    {
        let fuel = choose|fuel: nat| self.reach_fuel(a, m, fuel);
        self.lemma_reach_fuel_step(a, m, b, fuel);
    }

    /// Paths survive the addition of edges.
    proof fn lemma_reach_fuel_mono(self, other: TopologicalGraph, a: int, b: int, fuel: nat)
        requires
            forall|u: int, v: int| self.edge(u, v) ==> other.edge(u, v),
            self.reach_fuel(a, b, fuel),
        ensures
            other.reach_fuel(a, b, fuel),
        decreases fuel,
    {
        if a != b {
            let m = choose|m: int|
                #[trigger] self.edge(a, m) && self.reach_fuel(m, b, (fuel - 1) as nat);
            self.lemma_reach_fuel_mono(other, m, b, (fuel - 1) as nat);
            assert(other.edge(a, m));
        }
    }

    pub proof fn lemma_reaches_mono(self, other: TopologicalGraph, a: int, b: int)
        requires
            forall|u: int, v: int| self.edge(u, v) ==> other.edge(u, v),
            self.reaches(a, b),
        ensures
            other.reaches(a, b),
    {
        let fuel = choose|fuel: nat| self.reach_fuel(a, b, fuel);
        self.lemma_reach_fuel_mono(other, a, b, fuel);
    }

    pub fn new(node_count: usize) -> (g: TopologicalGraph)
        ensures
            g.wf(),
            g.nodes() == node_count,
            forall|u: int, v: int| !g.edge(u, v),
    {
        TopologicalGraph { node_count, edges: Vec::new() }
    }

    pub fn add_edge(&mut self, u: usize, v: usize)
        requires
            old(self).wf(),
            u < old(self).nodes(),
            v < old(self).nodes(),
        ensures
            final(self).wf(),
            final(self).nodes() == old(self).nodes(),
            forall|a: int, b: int|
                final(self).edge(a, b) <==> (old(self).edge(a, b) || (a == u && b == v)),
    {
        let ghost pre = self.edges@;
        self.edges.push((u, v));
        proof {
            assert forall|a: int, b: int|
                self.edge(a, b) <==> (old(self).edge(a, b) || (a == u && b == v)) by {
                if old(self).edge(a, b) {
                    let k = choose|k: int|
                        0 <= k < pre.len() && (#[trigger] pre[k]).0 == a && pre[k].1 == b;
                    assert(self.edges@[k].0 == a && self.edges@[k].1 == b);
                }
                if a == u && b == v {
                    let k = pre.len() as int;
                    assert(self.edges@[k].0 == a && self.edges@[k].1 == b);
                }
                if self.edge(a, b) {
                    let k = choose|k: int|
                        0 <= k < self.edges@.len() && (#[trigger] self.edges@[k]).0 == a
                            && self.edges@[k].1 == b;
                    if k < pre.len() {
                        assert(pre[k].0 == a && pre[k].1 == b);
                    }
                }
            }
        }
    }

    /// Whether `to` can be reached from `from` along edges, by a depth-first walk.
    pub fn has_path(&self, from: usize, to: usize) -> (r: bool)
        requires
            self.wf(),
            from < self.nodes(),
            to < self.nodes(),
        ensures
            r == self.reaches(from as int, to as int),
    {
        let n = self.node_count;
        let mut visited: Vec<bool> = Vec::new();
        let mut j: usize = 0;
        while j < n
            invariant
                j <= n,
                visited@.len() == j,
                forall|i: int| 0 <= i < j ==> !visited@[i],
            decreases n - j,
        {
            visited.push(false);
            j = j + 1;
        }
        visited.set(from, true);
        proof {
            lemma_count_true_bound(visited@);
        }
        let mut stack: Vec<usize> = Vec::new();
        stack.push(from);
        proof {
            self.lemma_reaches_refl(from as int);
            assert(stack@[0] == from);
            assert(stack@.contains(from));
            assert forall|x: int, y: int|
                0 <= x < n && visited@[x] && !stack@.contains(x as usize) && self.edge(
                    x,
                    y,
                ) implies 0 <= y < n && visited@[y] by {
                assert(x == from as int);
            }
        }
        while stack.len() > 0
            invariant
                self.wf(),
                from < self.node_count,
                to < self.node_count,
                visited@.len() == n,
                n == self.node_count,
                visited@[from as int],
                forall|k: int| 0 <= k < stack@.len() ==> (#[trigger] stack@[k]) < n,
                forall|k: int| 0 <= k < stack@.len() ==> visited@[#[trigger] stack@[k] as int],
                forall|k1: int, k2: int|
                    0 <= k1 < k2 < stack@.len() ==> stack@[k1] != stack@[k2],
                forall|y: int| 0 <= y < n && visited@[y] ==> self.reaches(from as int, y),
                forall|x: int, y: int|
                    0 <= x < n && visited@[x] && !stack@.contains(x as usize) && self.edge(x, y)
                        ==> 0 <= y < n && visited@[y],
                0 <= count_true(visited@) <= n,
            decreases n - count_true(visited@) + stack@.len(),
        {
            proof {
                lemma_count_true_bound(visited@);
            }
            let ghost stack_pre = stack@;
            let x = stack.pop().unwrap();
            let ghost stack_mid = stack@;
            let ghost vis_mid = visited@;
            proof {
                assert(stack_mid =~= stack_pre.drop_last());
                assert(x == stack_pre.last());
                assert forall|y: usize| stack_mid.contains(y) implies stack_pre.contains(y) by {
                    lemma_drop_last_contains(stack_pre, y);
                }
                assert(!stack_mid.contains(x)) by {
                    if stack_mid.contains(x) {
                        let k = choose|k: int| 0 <= k < stack_mid.len() && stack_mid[k] == x;
                        assert(stack_pre[k] == x);
                        assert(stack_pre[stack_pre.len() - 1] == x);
                    }
                }
                assert forall|x2: int, y: int|
                    0 <= x2 < n && x2 != x && visited@[x2] && !stack_mid.contains(x2 as usize)
                        && self.edge(x2, y) implies 0 <= y < n && visited@[y] by {
                    lemma_drop_last_contains(stack_pre, x2 as usize);
                    assert(!stack_pre.contains(x2 as usize));
                }
            }
            let edge_count = self.edges.len();
            let mut k: usize = 0;
            while k < edge_count
                invariant
                    self.wf(),
                    edge_count == self.edges@.len(),
                    k <= edge_count,
                    x < n,
                    visited@.len() == n,
                    n == self.node_count,
                    from < n,
                    visited@[from as int],
                    visited@[x as int],
                    forall|k2: int| 0 <= k2 < stack@.len() ==> (#[trigger] stack@[k2]) < n,
                    forall|k2: int|
                        0 <= k2 < stack@.len() ==> visited@[#[trigger] stack@[k2] as int],
                    forall|k1: int, k2: int|
                        0 <= k1 < k2 < stack@.len() ==> stack@[k1] != stack@[k2],
                    !stack@.contains(x),
                    forall|y: int| 0 <= y < n && visited@[y] ==> self.reaches(from as int, y),
                    forall|x2: int, y: int|
                        0 <= x2 < n && x2 != x && visited@[x2] && !stack@.contains(x2 as usize)
                            && self.edge(x2, y) ==> 0 <= y < n && visited@[y],
                    forall|k2: int|
                        0 <= k2 < k && (#[trigger] self.edges@[k2]).0 == x ==> visited@[self.edges@[k2].1 as int],
                    count_true(visited@) - stack@.len() == count_true(vis_mid) - stack_mid.len(),
                    0 <= count_true(visited@) <= n,
                decreases edge_count - k,
            {
                let (a, b) = self.edges[k];
                if a == x && !visited[b] {
                    proof {
                        lemma_count_true_update(visited@, b as int);
                        assert(self.edges@[k as int].0 == x && self.edges@[k as int].1 == b);
                        assert(self.edge(x as int, b as int));
                        self.lemma_reaches_step(from as int, x as int, b as int);
                    }
                    let ghost stack_before = stack@;
                    let ghost vis_before = visited@;
                    visited.set(b, true);
                    stack.push(b);
                    proof {
                        assert forall|y: usize| stack@.contains(y) implies (stack_before.contains(
                            y,
                        ) || y == b) by {
                            lemma_push_contains(stack_before, b, y);
                        }
                        assert(stack@.contains(b)) by {
                            lemma_push_contains(stack_before, b, b);
                        }
                        assert(!stack_before.contains(b)) by {
                            if stack_before.contains(b) {
                                let k2 = choose|k2: int|
                                    0 <= k2 < stack_before.len() && stack_before[k2] == b;
                                assert(vis_before[stack_before[k2] as int]);
                            }
                        }
                        assert forall|x2: int, y: int|
                            0 <= x2 < n && x2 != x && visited@[x2] && !stack@.contains(x2 as usize)
                                && self.edge(x2, y) implies 0 <= y < n && visited@[y] by {
                            lemma_push_contains(stack_before, b, x2 as usize);
                            assert(x2 != b);
                            assert(vis_before[x2]);
                            assert(!stack_before.contains(x2 as usize));
                        }
                    }
                }
                k = k + 1;
                proof {
                    lemma_count_true_bound(visited@);
                }
            }
            proof {
                lemma_count_true_bound(visited@);
                assert forall|x2: int, y: int|
                    0 <= x2 < n && visited@[x2] && !stack@.contains(x2 as usize) && self.edge(
                        x2,
                        y,
                    ) implies 0 <= y < n && visited@[y] by {
                    if x2 == x as int {
                        let k2 = choose|k2: int|
                            0 <= k2 < self.edges@.len() && (#[trigger] self.edges@[k2]).0 == x2
                                && self.edges@[k2].1 == y;
                        assert(visited@[self.edges@[k2].1 as int]);
                    }
                }
            }
        }
        let r = visited[to];
        proof {
            if !r && self.reaches(from as int, to as int) {
                let fuel = choose|fuel: nat| self.reach_fuel(from as int, to as int, fuel);
                self.lemma_closed_complete(visited@, from as int, to as int, fuel);
            }
        }
        r
    }

    /// What it means for `order`, a sequence of (node index, wavefront index)
    /// pairs, to be a correct schedule of this graph: every node appears
    /// exactly once, every edge runs from an earlier position and a strictly
    /// smaller wavefront to a later one, and wavefronts never decrease.
    pub open spec fn valid_order(self, order: Seq<(usize, usize)>) -> bool {
        &&& order.len() == self.nodes()
        &&& forall|p: int| 0 <= p < order.len() ==> (#[trigger] order[p]).0 < self.nodes()
        &&& forall|i: int| 0 <= i < self.nodes() ==> #[trigger] order_contains(order, i)
        &&& forall|p: int, q: int|
            0 <= p < order.len() && 0 <= q < order.len() && p != q ==> (#[trigger] order[p]).0 != (
            #[trigger] order[q]).0
        &&& forall|p: int, q: int|
            0 <= p < order.len() && 0 <= q < order.len() && self.edge(
                (#[trigger] order[p]).0 as int,
                (#[trigger] order[q]).0 as int,
            ) ==> p < q && order[p].1 < order[q].1
        &&& forall|p: int, q: int|
            0 <= p <= q < order.len() ==> (#[trigger] order[p]).1 <= (#[trigger] order[q]).1
    }

    /// A nonempty set of nodes `s`, each of which has a direct predecessor
    /// within the set (named by the index sequence `w`): such a pair exists
    /// exactly when the graph has a cycle.
    pub open spec fn cycle_witness(self, s: Seq<int>, w: Seq<int>) -> bool {
        &&& s.len() > 0
        &&& w.len() == s.len()
        &&& forall|k: int| 0 <= k < s.len() ==> 0 <= #[trigger] s[k] < self.nodes()
        &&& forall|k: int|
            0 <= k < s.len() ==> 0 <= #[trigger] w[k] < s.len() && self.edge(s[w[k]], s[k])
    }

    pub open spec fn cyclic(self) -> bool {
        exists|s: Seq<int>, w: Seq<int>| #[trigger] self.cycle_witness(s, w)
    }

    /// The invariant that holds while a schedule is being grown: `order` is a
    /// duplicate-free prefix of a schedule, `placed` marks exactly the nodes
    /// in it, every placed node's predecessors stand earlier with a strictly
    /// smaller wavefront, and all wavefronts so far are below `wave`.
    pub open spec fn partial_order(self, order: Seq<(usize, usize)>, placed: Seq<bool>, wave: int) -> bool {
        &&& placed.len() == self.nodes()
        &&& forall|p: int| 0 <= p < order.len() ==> (#[trigger] order[p]).0 < self.nodes()
        &&& forall|p: int| 0 <= p < order.len() ==> placed[(#[trigger] order[p]).0 as int]
        &&& forall|i: int|
            0 <= i < self.nodes() && placed[i] ==> exists|p: int|
                0 <= p < order.len() && (#[trigger] order[p]).0 == i
        &&& forall|p: int, q: int|
            0 <= p < order.len() && 0 <= q < order.len() && p != q ==> (#[trigger] order[p]).0 != (
            #[trigger] order[q]).0
        &&& forall|p: int| 0 <= p < order.len() ==> (#[trigger] order[p]).1 < wave
        &&& forall|p: int, q: int|
            0 <= p <= q < order.len() ==> (#[trigger] order[p]).1 <= (#[trigger] order[q]).1
        &&& forall|p: int, j: int|
            0 <= p < order.len() && 0 <= j < self.nodes() && #[trigger] self.edge(
                j,
                order[p].0 as int,
            ) ==> exists|q: int|
                0 <= q < p && (#[trigger] order[q]).0 == j && order[q].1 < order[p].1
    }

    /// Whether every direct predecessor of `i` is already placed.
    fn preds_placed(&self, placed: &Vec<bool>, i: usize) -> (r: bool)
        requires
            self.wf(),
            placed@.len() == self.nodes(),
            i < self.nodes(),
        ensures
            r == (forall|j: int|
                0 <= j < self.nodes() && self.edge(j, i as int) ==> placed@[j]),
    {
        let edge_count = self.edges.len();
        let mut k: usize = 0;
        while k < edge_count
            invariant
                self.wf(),
                edge_count == self.edges@.len(),
                k <= edge_count,
                i < self.nodes(),
                placed@.len() == self.nodes(),
                forall|k2: int|
                    0 <= k2 < k && (#[trigger] self.edges@[k2]).1 == i ==> placed@[self.edges@[k2].0 as int],
            decreases edge_count - k,
        {
            let (a, b) = self.edges[k];
            if b == i && !placed[a] {
                proof {
                    assert(self.edges@[k as int].0 == a && self.edges@[k as int].1 == i);
                    assert(self.edge(a as int, i as int));
                }
                return false;
            }
            k = k + 1;
        }
        proof {
            assert forall|j: int|
                0 <= j < self.nodes() && self.edge(j, i as int) implies placed@[j] by {
                let k2 = choose|k2: int|
                    0 <= k2 < self.edges@.len() && (#[trigger] self.edges@[k2]).0 == j
                        && self.edges@[k2].1 == i;
                assert(placed@[self.edges@[k2].0 as int]);
            }
        }
        true
    }

    /// All unplaced nodes whose predecessors are all placed, in ascending
    /// order of node index.
    fn collect_frontier(&self, placed: &Vec<bool>) -> (frontier: Vec<usize>)
        requires
            self.wf(),
            placed@.len() == self.nodes(),
        ensures
            forall|t: int| 0 <= t < frontier@.len() ==> (#[trigger] frontier@[t]) < self.nodes(),
            forall|t1: int, t2: int|
                0 <= t1 < t2 < frontier@.len() ==> frontier@[t1] < frontier@[t2],
            forall|t: int| 0 <= t < frontier@.len() ==> !placed@[(#[trigger] frontier@[t]) as int],
            forall|t: int, j2: int|
                0 <= t < frontier@.len() && 0 <= j2 < self.nodes() && #[trigger] self.edge(
                    j2,
                    frontier@[t] as int,
                ) ==> placed@[j2],
            forall|i2: int|
                0 <= i2 < self.nodes() && !placed@[i2] && (forall|j2: int|
                    0 <= j2 < self.nodes() && self.edge(j2, i2) ==> placed@[j2])
                    ==> frontier@.contains(i2 as usize),
    {
        let n = self.node_count;
        let mut frontier: Vec<usize> = Vec::new();
        let mut i: usize = 0;
        while i < n
            invariant
                self.wf(),
                n == self.nodes(),
                placed@.len() == n,
                i <= n,
                forall|t: int| 0 <= t < frontier@.len() ==> (#[trigger] frontier@[t]) < i,
                forall|t1: int, t2: int|
                    0 <= t1 < t2 < frontier@.len() ==> frontier@[t1] < frontier@[t2],
                forall|t: int|
                    0 <= t < frontier@.len() ==> !placed@[(#[trigger] frontier@[t]) as int],
                forall|t: int, j2: int|
                    0 <= t < frontier@.len() && 0 <= j2 < n && #[trigger] self.edge(
                        j2,
                        frontier@[t] as int,
                    ) ==> placed@[j2],
                forall|i2: int|
                    0 <= i2 < i && !placed@[i2] && (forall|j2: int|
                        0 <= j2 < n && self.edge(j2, i2) ==> placed@[j2])
                        ==> frontier@.contains(i2 as usize),
            decreases n - i,
        {
            if !placed[i] && self.preds_placed(&placed, i) {
                let ghost frontier_pre = frontier@;
                frontier.push(i);
                proof {
                    assert(frontier@[frontier_pre.len() as int] == i);
                    assert forall|i2: int|
                        0 <= i2 < i + 1 && !placed@[i2] && (forall|j2: int|
                            0 <= j2 < n && self.edge(j2, i2) ==> placed@[j2])
                            implies frontier@.contains(i2 as usize) by {
                        if i2 < i {
                            let t = choose|t: int|
                                0 <= t < frontier_pre.len() && frontier_pre[t] == i2 as usize;
                            assert(frontier@[t] == i2 as usize);
                        } else {
                            assert(frontier@[frontier_pre.len() as int] == i2 as usize);
                        }
                    }
                }
            } else {
                proof {
                    assert forall|i2: int|
                        0 <= i2 < i + 1 && !placed@[i2] && (forall|j2: int|
                            0 <= j2 < n && self.edge(j2, i2) ==> placed@[j2])
                            implies frontier@.contains(i2 as usize) by {
                        if i2 == i as int {
                            assert(!placed@[i as int]);
                            assert(forall|j2: int|
                                0 <= j2 < self.nodes() && self.edge(j2, i as int)
                                    ==> placed@[j2]);
                        }
                    }
                }
            }
            i = i + 1;
        }
        frontier
    }

    /// All nodes not yet placed, in ascending order of node index.
    fn collect_unplaced(&self, placed: &Vec<bool>) -> (stuck: Vec<usize>)
        requires
            placed@.len() == self.nodes(),
        ensures
            forall|t: int|
                0 <= t < stuck@.len() ==> (#[trigger] stuck@[t]) < self.nodes()
                    && !placed@[stuck@[t] as int],
            forall|i3: int|
                0 <= i3 < self.nodes() && !(#[trigger] placed@[i3]) ==> exists|t: int|
                    0 <= t < stuck@.len() && (#[trigger] stuck@[t]) == i3,
    {
        let n = self.node_count;
        let mut stuck: Vec<usize> = Vec::new();
        let mut i2: usize = 0;
        while i2 < n
            invariant
                n == self.nodes(),
                placed@.len() == n,
                i2 <= n,
                forall|t: int|
                    0 <= t < stuck@.len() ==> (#[trigger] stuck@[t]) < i2 && !placed@[stuck@[t] as int],
                forall|i3: int|
                    0 <= i3 < i2 && !(#[trigger] placed@[i3]) ==> exists|t: int|
                        0 <= t < stuck@.len() && (#[trigger] stuck@[t]) == i3,
            decreases n - i2,
        {
            if !placed[i2] {
                let ghost stuck_pre = stuck@;
                stuck.push(i2);
                proof {
                    assert(stuck@[stuck_pre.len() as int] == i2);
                    assert forall|i3: int|
                        0 <= i3 < i2 + 1 && !(#[trigger] placed@[i3]) implies exists|t: int|
                        0 <= t < stuck@.len() && (#[trigger] stuck@[t]) == i3 by {
                        if i3 < i2 {
                            let t = choose|t: int|
                                0 <= t < stuck_pre.len() && (#[trigger] stuck_pre[t]) == i3;
                            assert(stuck@[t] == i3);
                        } else {
                            assert(stuck@[stuck_pre.len() as int] == i3);
                        }
                    }
                }
            }
            i2 = i2 + 1;
        }
        stuck
    }

    /// Appends one whole wavefront to the schedule and marks its nodes placed.
    #[verifier::loop_isolation(false)]
    fn place_wave(
        &self,
        frontier: &Vec<usize>,
        order: &mut Vec<(usize, usize)>,
        placed: &mut Vec<bool>,
        wave: usize,
    )
        requires
            self.wf(),
            old(placed)@.len() == self.nodes(),
            old(order)@.len() == count_true(old(placed)@),
            wave <= old(order)@.len(),
            frontier@.len() > 0,
            forall|t: int| 0 <= t < frontier@.len() ==> (#[trigger] frontier@[t]) < self.nodes(),
            forall|t1: int, t2: int|
                0 <= t1 < t2 < frontier@.len() ==> frontier@[t1] < frontier@[t2],
            forall|t: int|
                0 <= t < frontier@.len() ==> !old(placed)@[(#[trigger] frontier@[t]) as int],
            forall|t: int, j2: int|
                0 <= t < frontier@.len() && 0 <= j2 < self.nodes() && #[trigger] self.edge(
                    j2,
                    frontier@[t] as int,
                ) ==> old(placed)@[j2],
            self.partial_order(old(order)@, old(placed)@, wave as int),
        ensures
            final(placed)@.len() == self.nodes(),
            final(order)@.len() == old(order)@.len() + frontier@.len(),
            count_true(final(placed)@) == count_true(old(placed)@) + frontier@.len(),
            wave as int + 1 <= final(order)@.len(),
            self.partial_order(final(order)@, final(placed)@, wave as int + 1),
    {
        let ghost placed0 = placed@;
        let ghost order0 = order@;
        let frontier_len = frontier.len();
        let mut t: usize = 0;
        while t < frontier_len
            invariant
                t <= frontier_len,
                placed@.len() == self.nodes(),
                order@.len() == order0.len() + t,
                count_true(placed@) == count_true(placed0) + t,
                forall|p: int| 0 <= p < order0.len() ==> order@[p] == order0[p],
                forall|t2: int|
                    0 <= t2 < t ==> order@[order0.len() + t2] == (frontier@[t2], wave),
                forall|y: int| 0 <= y < placed@.len() && placed0[y] ==> placed@[y],
                forall|y: int|
                    0 <= y < placed@.len() && placed@[y] ==> placed0[y] || exists|t2: int|
                        0 <= t2 < t && (#[trigger] frontier@[t2]) == y,
                forall|t2: int| 0 <= t2 < t ==> placed@[(#[trigger] frontier@[t2]) as int],
                self.partial_order(order@, placed@, wave as int + 1),
            decreases frontier_len - t,
        {
            let node = frontier[t];
            proof {
                assert(!placed@[node as int]) by {
                    if placed@[node as int] {
                        let t2 = choose|t2: int| 0 <= t2 < t && (#[trigger] frontier@[t2]) == node;
                        assert(frontier@[t2] < frontier@[t as int]);
                    }
                }
                lemma_count_true_update(placed@, node as int);
            }
            let ghost order_pre = order@;
            let ghost placed_pre = placed@;
            order.push((node, wave));
            placed.set(node, true);
            proof {
                let pnew = order_pre.len() as int;
                assert(order@[pnew] == (node, wave));
                // the new entry's predecessors all stand in the snapshot with a
                // strictly smaller wavefront
                assert forall|p: int, j2: int|
                    0 <= p < order@.len() && 0 <= j2 < self.nodes() && #[trigger] self.edge(
                        j2,
                        order@[p].0 as int,
                    ) implies exists|q: int|
                    0 <= q < p && (#[trigger] order@[q]).0 == j2 && order@[q].1
                        < order@[p].1 by {
                    if p < pnew {
                        assert(order_pre[p] == order@[p]);
                        let q = choose|q: int|
                            0 <= q < p && (#[trigger] order_pre[q]).0 == j2 && order_pre[q].1
                                < order_pre[p].1;
                        assert(order@[q] == order_pre[q]);
                    } else {
                        assert(order@[p].0 == node);
                        assert(placed0[j2]);
                        let q = choose|q: int|
                            0 <= q < order0.len() && (#[trigger] order0[q]).0 == j2;
                        assert(order@[q] == order0[q]);
                        assert(order0[q].1 < wave);
                    }
                }
                // the new entry's node is fresh, so uniqueness is kept
                assert forall|p: int, q: int|
                    0 <= p < order@.len() && 0 <= q < order@.len() && p != q implies (
                #[trigger] order@[p]).0 != (#[trigger] order@[q]).0 by {
                    if p == pnew || q == pnew {
                        let other = if p == pnew { q } else { p };
                        if other < pnew {
                            assert(placed_pre[(order_pre[other]).0 as int]);
                        }
                    }
                }
                assert forall|i3: int|
                    0 <= i3 < self.nodes() && placed@[i3] implies exists|p: int|
                    0 <= p < order@.len() && (#[trigger] order@[p]).0 == i3 by {
                    if placed_pre[i3] {
                        let p = choose|p: int|
                            0 <= p < order_pre.len() && (#[trigger] order_pre[p]).0 == i3;
                        assert(order@[p] == order_pre[p]);
                    } else {
                        assert(i3 == node as int);
                        assert(order@[pnew].0 == i3);
                    }
                }
            }
            t = t + 1;
        }
    }

    /// Kahn's algorithm by wavefronts. On success the returned sequence is a
    /// complete schedule respecting every edge; each entry carries its
    /// wavefront index, and entries of one wavefront have no edge between
    /// them. On failure the returned nodes each have a predecessor among
    /// themselves: a cycle.
    pub fn toposort(&self) -> (r: Result<Vec<(usize, usize)>, Vec<usize>>)
        requires
            self.wf(),
        ensures
            match r {
                Ok(order) => self.valid_order(order@) && !self.cyclic(),
                Err(stuck) => {
                    &&& stuck@.len() > 0
                    &&& forall|k: int|
                        0 <= k < stuck@.len() ==> (#[trigger] stuck@[k]) < self.nodes()
                    &&& self.cyclic()
                },
            },
    {
        let n = self.node_count;
        let mut placed: Vec<bool> = Vec::new();
        let mut j: usize = 0;
        while j < n
            invariant
                j <= n,
                placed@.len() == j,
                forall|i: int| 0 <= i < j ==> !placed@[i],
            decreases n - j,
        {
            placed.push(false);
            j = j + 1;
        }
        proof {
            lemma_count_true_all_false(placed@);
        }
        let mut placed_count: usize = 0;
        let mut order: Vec<(usize, usize)> = Vec::new();
        let mut wave: usize = 0;
        while placed_count < n
            invariant
                self.wf(),
                n == self.nodes(),
                placed@.len() == n,
                placed_count as int == count_true(placed@),
                placed_count <= n,
                order@.len() == placed_count,
                wave <= placed_count,
                self.partial_order(order@, placed@, wave as int),
            decreases n - placed_count,
        {
            let frontier = self.collect_frontier(&placed);
            if frontier.len() == 0 {
                let stuck = self.collect_unplaced(&placed);
                proof {
                    lemma_count_true_partial(placed@);
                    let iu = choose|iu: int| 0 <= iu < n && !placed@[iu];
                    assert(exists|t: int| 0 <= t < stuck@.len() && (#[trigger] stuck@[t]) == iu);
                    assert(stuck@.len() > 0);
                    let s = stuck@.map_values(|x: usize| x as int);
                    assert forall|k: int| 0 <= k < s.len() implies 0 <= #[trigger] s[k]
                        < self.nodes() by {
                        assert(s[k] == stuck@[k] as int);
                    }
                    // each stuck node has an unplaced predecessor, which is
                    // itself in `stuck`; `w` records that predecessor\'s index
                    let w = Seq::new(
                        s.len(),
                        |k: int| choose|k2: int| 0 <= k2 < s.len() && self.edge(s[k2], s[k]),
                    );
                    assert forall|k: int| 0 <= k < s.len() implies 0 <= #[trigger] w[k] < s.len()
                        && self.edge(s[w[k]], s[k]) by {
                        let i3 = stuck@[k] as int;
                        assert(!placed@[i3] && i3 < self.nodes());
                        if forall|j2: int|
                            0 <= j2 < self.nodes() && self.edge(j2, i3) ==> placed@[j2] {
                            assert(frontier@.contains(i3 as usize));
                        }
                        assert(exists|j2: int|
                            0 <= j2 < self.nodes() && #[trigger] self.edge(j2, i3)
                                && !placed@[j2]);
                        let j2 = choose|j2: int|
                            0 <= j2 < self.nodes() && #[trigger] self.edge(j2, i3)
                                && !placed@[j2];
                        assert(exists|t: int|
                            0 <= t < stuck@.len() && (#[trigger] stuck@[t]) == j2);
                        let k2 = choose|t: int|
                            0 <= t < stuck@.len() && (#[trigger] stuck@[t]) == j2;
                        assert(s[k2] == stuck@[k2] as int);
                        assert(self.edge(s[k2], s[k]));
                        assert(exists|k2: int| 0 <= k2 < s.len() && self.edge(s[k2], s[k]));
                    }
                    assert(self.cycle_witness(s, w));
                }
                return Err(stuck);
            }
            let flen = frontier.len();
            self.place_wave(&frontier, &mut order, &mut placed, wave);
            proof {
                lemma_count_true_bound(placed@);
            }
            placed_count = placed_count + flen;
            wave = wave + 1;
        }
        proof {
            lemma_count_true_partial(placed@);
            assert forall|i: int| 0 <= i < self.nodes() implies #[trigger] order_contains(
                order@,
                i,
            ) by {
                assert(placed@[i]);
            }
            assert forall|p: int, q: int|
                0 <= p < order@.len() && 0 <= q < order@.len() && self.edge(
                    (#[trigger] order@[p]).0 as int,
                    (#[trigger] order@[q]).0 as int,
                ) implies p < q && order@[p].1 < order@[q].1 by {
                let j2 = order@[p].0 as int;
                let q2 = choose|q2: int|
                    0 <= q2 < q && (#[trigger] order@[q2]).0 == j2 && order@[q2].1 < order@[q].1;
                assert(q2 == p);
            }
            self.lemma_valid_order_acyclic(order@);
        }
        Ok(order)
    }

    /// A graph that admits a valid schedule has no cycle; equivalently, a
    /// cyclic declaration is never silently linearized.
    pub proof fn lemma_valid_order_acyclic(self, order: Seq<(usize, usize)>)
        requires
            self.valid_order(order),
        ensures
            !self.cyclic(),
    {
        if self.cyclic() {
            let (s, w) = choose|s: Seq<int>, w: Seq<int>| #[trigger] self.cycle_witness(s, w);
            let ps = Seq::new(s.len(), |k: int| pos_of(order, s[k]));
            assert forall|k: int| 0 <= k < s.len() implies 0 <= #[trigger] ps[k] < order.len()
                && order[ps[k]].0 == s[k] by {
                self.lemma_pos_of(order, s[k]);
            }
            lemma_seq_has_min(ps);
            let km = choose|km: int| #[trigger] min_at(ps, km);
            let k2 = w[km];
            self.lemma_order_respects_edge(order, s[k2], s[km]);
            assert(ps[k2] < ps[km]);
            assert(ps[km] <= ps[k2]);
        }
    }

    proof fn lemma_pos_of(self, order: Seq<(usize, usize)>, i: int)
        requires
            self.valid_order(order),
            0 <= i < self.nodes(),
        ensures
            0 <= pos_of(order, i) < order.len(),
            order[pos_of(order, i)].0 == i,
    {
        assert(order_contains(order, i));
        let p0 = choose|p: int| 0 <= p < order.len() && (#[trigger] order[p]).0 == i;
        assert(0 <= p0 < order.len() && order[p0].0 == i);
    }

    proof fn lemma_order_respects_path_fuel(
        self,
        order: Seq<(usize, usize)>,
        a: int,
        b: int,
        fuel: nat,
    )
        requires
            self.wf(),
            self.valid_order(order),
            0 <= a < self.nodes(),
            a != b,
            self.reach_fuel(a, b, fuel),
        ensures
            0 <= b < self.nodes(),
            pos_of(order, a) < pos_of(order, b),
            order[pos_of(order, a)].1 < order[pos_of(order, b)].1,
        decreases fuel,
    {
        let m = choose|m: int| #[trigger] self.edge(a, m) && self.reach_fuel(m, b, (fuel - 1) as nat);
        let k = choose|k: int|
            0 <= k < self.edges@.len() && (#[trigger] self.edges@[k]).0 == a && self.edges@[k].1
                == m;
        assert(0 <= m < self.nodes());
        self.lemma_order_respects_edge(order, a, m);
        if m != b {
            self.lemma_order_respects_path_fuel(order, m, b, (fuel - 1) as nat);
        }
    }

    /// Law: along any path, positions and wavefront indices rise strictly; so
    /// two systems sharing a wavefront have no path between them in either
    /// direction and may run concurrently.
    pub proof fn lemma_order_respects_path(self, order: Seq<(usize, usize)>, a: int, b: int)
        requires
            self.wf(),
            self.valid_order(order),
            0 <= a < self.nodes(),
            a != b,
            self.reaches(a, b),
        ensures
            0 <= b < self.nodes(),
            0 <= pos_of(order, a) < order.len(),
            0 <= pos_of(order, b) < order.len(),
            order[pos_of(order, a)].0 == a,
            order[pos_of(order, b)].0 == b,
            pos_of(order, a) < pos_of(order, b),
            order[pos_of(order, a)].1 < order[pos_of(order, b)].1,
    {
        let fuel = choose|fuel: nat| self.reach_fuel(a, b, fuel);
        self.lemma_order_respects_path_fuel(order, a, b, fuel);
        self.lemma_pos_of(order, a);
        self.lemma_pos_of(order, b);
    }

    /// In a valid schedule, the source of every edge stands strictly before
    /// its target, in position and in wavefront.
    pub proof fn lemma_order_respects_edge(self, order: Seq<(usize, usize)>, i: int, j: int)
        requires
            self.valid_order(order),
            0 <= i < self.nodes(),
            0 <= j < self.nodes(),
            self.edge(i, j),
        ensures
            0 <= pos_of(order, i) < order.len(),
            0 <= pos_of(order, j) < order.len(),
            order[pos_of(order, i)].0 == i,
            order[pos_of(order, j)].0 == j,
            pos_of(order, i) < pos_of(order, j),
            order[pos_of(order, i)].1 < order[pos_of(order, j)].1,
    {
        self.lemma_pos_of(order, i);
        self.lemma_pos_of(order, j);
    }

    /// A visited set that contains `a` and is closed under edges contains
    /// everything reachable from `a`.
    proof fn lemma_closed_complete(self, visited: Seq<bool>, a: int, b: int, fuel: nat)
        requires
            visited.len() == self.nodes(),
            0 <= a < self.nodes(),
            visited[a],
            forall|x: int, y: int|
                0 <= x < self.nodes() && visited[x] && self.edge(x, y) ==> 0 <= y < self.nodes()
                    && visited[y],
            self.reach_fuel(a, b, fuel),
        ensures
            0 <= b < self.nodes() && visited[b],
        decreases fuel,
    {
        if a != b {
            let m = choose|m: int|
                #[trigger] self.edge(a, m) && self.reach_fuel(m, b, (fuel - 1) as nat);
            self.lemma_closed_complete(visited, m, b, (fuel - 1) as nat);
        }
    }
}

} // verus!
