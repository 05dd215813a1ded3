//! The integer side of the ant colony optimiser: the candidate lists of
//! nearest nodes, the tour that an ant builds (which clients are left, the
//! route being filled and its load), the clients an ant may visit next, and
//! the edges of a solution on which pheromone is laid.
//!
//! Nodes are numbered as the pheromone matrix is: node 0 is the depot and
//! node `i + 1` is client `i`.
use std::collections::HashSet;
use vstd::multiset::Multiset;
use vstd::prelude::*;

use crate::problem::{
    lemma_routes_multiset_push, routes_multiset, sq_dist,
    identity_seq, Problem, Solution,
};
use crate::Int;

verus! {

broadcast use vstd::multiset::group_multiset_axioms;

/// Parameters of the ant colony optimiser that take integer values.
#[derive(Debug, Clone, Copy)]
pub struct AcoSizes {
    pub n_ants: usize,
    pub max_iterations: usize,
    pub k_candidates: usize,
    pub use_two_opt: bool,
}

impl Default for AcoSizes {
    /// The default sizes: 20 ants, 500 iterations, 10 candidates, with 2-opt.
    fn default() -> (r: AcoSizes)
        ensures
            r.n_ants == 20,
            r.max_iterations == 500,
            r.k_candidates == 10,
            r.use_two_opt,
    {
        AcoSizes { n_ants: 20, max_iterations: 500, k_candidates: 10, use_two_opt: true }
    }
}

/// The iteration count of the colony.
pub struct AcoProgress {
    pub iteration: usize,
    pub max_iterations: usize,
}

impl AcoProgress {
    pub fn new(sizes: &AcoSizes) -> (r: AcoProgress)
        ensures
            r.iteration == 0,
            r.max_iterations == sizes.max_iterations,
    {
        AcoProgress { iteration: 0, max_iterations: sizes.max_iterations }
    }

    /// The colony stops after `max_iterations` iterations.
    pub fn is_finished(&self) -> (r: bool)
        ensures
            r == (self.iteration >= self.max_iterations),
    {
        self.iteration >= self.max_iterations
    }

    /// Pheromone is laid along the best solution found so far on every fifth
    /// iteration (from the first), along the best solution of the iteration
    /// otherwise.
    pub fn deposit_from_global_best(&self) -> (r: bool)
        ensures
            r == (self.iteration % 5 == 0),
    {
        self.iteration % 5 == 0
    }

    pub fn end_iteration(&mut self)
        requires
            old(self).iteration < usize::MAX,
        ensures
            final(self).iteration == old(self).iteration + 1,
            final(self).max_iterations == old(self).max_iterations,
    {
        self.iteration = self.iteration + 1;
    }
}

/// Node `a` comes before node `b` in the candidate order of `node`: it is
/// nearer, or as near with a smaller number.
pub open spec fn closer(p: Problem, node: usize, a: usize, b: usize) -> bool {
    let da = sq_dist(p.node_xy(node), p.node_xy(a));
    let db = sq_dist(p.node_xy(node), p.node_xy(b));
    da < db || (da == db && a < b)
}

/// `row` lists the `k` nodes nearest to `node` among the `n` nodes, nearest
/// first (ties by node number).
pub open spec fn is_candidate_row(p: Problem, node: usize, n: nat, k: nat, row: Seq<usize>) -> bool {
    &&& row.len() == k
    &&& forall|t: int| 0 <= t < k ==> #[trigger] row[t] < n && row[t] != node
    &&& forall|s: int, t: int| 0 <= s < t < k ==> closer(p, node, #[trigger] row[s], #[trigger] row[t])
    &&& forall|j: usize|
        j < n && j != node && !row.contains(j) && k > 0 ==> #[trigger] closer(p, node, row[k - 1], j)
}

/// The `k` nodes nearest to `node`, nearest first.
fn candidate_row(problem: &Problem, node: usize, n: usize, k: usize) -> (row: Vec<usize>)
    requires
        n == problem.clients@.len() + 1,
        node < n,
        k <= n - 1,
    ensures
        is_candidate_row(*problem, node, n as nat, k as nat, row@),
{
    broadcast use vstd::seq_lib::group_seq_properties;

    let mut chosen: Vec<bool> = Vec::new();
    let mut z: usize = 0;
    while z < n
        invariant
            z <= n,
            chosen@.len() == z,
            forall|j: int| 0 <= j < z ==> !chosen@[j],
        decreases n - z,
    {
        chosen.push(false);
        z = z + 1;
    }
    let mut row: Vec<usize> = Vec::new();
    let mut t: usize = 0;
    while t < k
        invariant
            n == problem.clients@.len() + 1,
            node < n,
            k <= n - 1,
            t <= k,
            row@.len() == t,
            chosen@.len() == n,
            forall|s: int| 0 <= s < t ==> #[trigger] row@[s] < n && row@[s] != node,
            forall|s: int, u: int|
                0 <= s < u < t ==> closer(*problem, node, #[trigger] row@[s], #[trigger] row@[u]),
            forall|j: usize| j < n ==> (chosen@[j as int] <==> #[trigger] row@.contains(j)),
            forall|j: usize|
                j < n && j != node && !row@.contains(j) && t > 0 ==> #[trigger] closer(
                    *problem,
                    node,
                    row@[t - 1],
                    j,
                ),
        decreases k - t,
    {
        // The nearest node not chosen yet.
        let mut best: usize = n;
        let mut best_d: u128 = 0;
        let mut j: usize = 0;
        while j < n
            invariant
                n == problem.clients@.len() + 1,
                node < n,
                j <= n,
                chosen@.len() == n,
                best == n || (best < j && best != node && !chosen@[best as int] && best_d == sq_dist(
                    problem.node_xy(node),
                    problem.node_xy(best),
                )),
                forall|q: usize|
                    q < j && q != node && !chosen@[q as int] ==> best < n && (q == best || closer(
                        *problem,
                        node,
                        best,
                        q,
                    )),
            decreases n - j,
        {
            if j != node && !chosen[j] {
                let d: u128 = problem.node_sq_dist(node, j);
                if best == n || d < best_d {
                    let ghost old_best = best;
                    best = j;
                    best_d = d;
                    proof {
                        assert forall|q: usize|
                            q < j + 1 && q != node && !chosen@[q as int] implies best < n && (q
                            == best || closer(*problem, node, best, q)) by {
                            if q < j && old_best < n {
                                if q != old_best {
                                    lemma_closer_transitive(*problem, node, best, old_best, q);
                                }
                            }
                        }
                    }
                }
            }
            j = j + 1;
        }
        proof {
            // Some node is left: fewer than n - 1 were chosen.
            lemma_row_misses(row@, node, n);
            let q = choose|q: usize| q < n && q != node && !(#[trigger] row@.contains(q));
            assert(!chosen@[q as int]);
        }
        let ghost before = row@;
        row.push(best);
        chosen.set(best, true);
        proof {
            assert forall|q: usize| q < n implies (chosen@[q as int] <==> #[trigger] row@.contains(q)) by {
                vstd::seq_lib::lemma_seq_contains_after_push(before, best, q);
            }
            assert forall|q: usize|
                q < n && q != node && !row@.contains(q) && t + 1 > 0 implies #[trigger] closer(
                *problem,
                node,
                row@[t as int],
                q,
            ) by {
                vstd::seq_lib::lemma_seq_contains_after_push(before, best, q);
            }
            assert forall|s: int, u: int| 0 <= s < u < t + 1 implies closer(
                *problem,
                node,
                #[trigger] row@[s],
                #[trigger] row@[u],
            ) by {
                if u == t {
                    assert(!before.contains(best));
                    if t > 0 {
                        assert(closer(*problem, node, before[t - 1], best));
                    }
                    lemma_closer_transitive(*problem, node, row@[s], row@[t - 1], best);
                }
            }
        }
        t = t + 1;
    }
    row
}

proof fn lemma_closer_transitive(p: Problem, node: usize, a: usize, b: usize, c: usize)
    requires
        a == b || closer(p, node, a, b),
        closer(p, node, b, c),
    ensures
        closer(p, node, a, c),
{
}

/// A list of fewer than `n - 1` nodes misses some node other than `node`.
proof fn lemma_row_misses(row: Seq<usize>, node: usize, n: usize)
    requires
        node < n,
        row.len() < n - 1,
    ensures
        exists|q: usize| q < n && q != node && !(#[trigger] row.contains(q)),
{
    if forall|q: usize| q < n && q != node ==> #[trigger] row.contains(q) {
        let others = identity_seq(n as nat).remove(node as int);
        assert(others.no_duplicates());
        assert forall|x: usize| others.contains(x) implies #[trigger] row.contains(x) by {
            let w = choose|w: int| 0 <= w < others.len() && others[w] == x;
        }
        lemma_no_dup_subset_len(others, row);
    }
}

/// A list without repetition whose elements all occur in `b` is no longer
/// than `b`.
proof fn lemma_no_dup_subset_len(a: Seq<usize>, b: Seq<usize>)
    requires
        a.no_duplicates(),
        forall|x: usize| a.contains(x) ==> #[trigger] b.contains(x),
    ensures
        a.len() <= b.len(),
{
    a.unique_seq_to_set();
    b.lemma_cardinality_of_set();
    assert(a.to_set().subset_of(b.to_set()));
    vstd::set_lib::lemma_len_subset(a.to_set(), b.to_set());
}

/// The candidate lists of all `n` nodes: for each node the
/// `min(k_candidates, n - 1)` nearest other nodes, nearest first.
pub fn build_candidate_list(problem: &Problem, k_candidates: usize) -> (r: Vec<Vec<usize>>)
    requires
        problem.clients@.len() < usize::MAX,
    ensures
        r@.len() == problem.clients@.len() + 1,
        forall|node: int|
            0 <= node < r@.len() ==> is_candidate_row(
                *problem,
                node as usize,
                (problem.clients@.len() + 1) as nat,
                if k_candidates <= problem.clients@.len() {
                    k_candidates as nat
                } else {
                    problem.clients@.len() as nat
                },
                #[trigger] r@[node]@,
            ),
{
    let n: usize = problem.clients.len() + 1;
    let k: usize = if k_candidates <= n - 1 {
        k_candidates
    } else {
        n - 1
    };
    let mut out: Vec<Vec<usize>> = Vec::new();
    let mut node: usize = 0;
    while node < n
        invariant
            n == problem.clients@.len() + 1,
            k <= n - 1,
            k == (if k_candidates <= problem.clients@.len() {
                k_candidates as nat
            } else {
                problem.clients@.len() as nat
            }),
            node <= n,
            out@.len() == node,
            forall|q: int|
                0 <= q < node ==> is_candidate_row(
                    *problem,
                    q as usize,
                    n as nat,
                    k as nat,
                    #[trigger] out@[q]@,
                ),
        decreases n - node,
    {
        out.push(candidate_row(problem, node, n, k));
        node = node + 1;
    }
    out
}

// ---------------------------------------------------------------------------
// The tour of one ant.
// ---------------------------------------------------------------------------
/// The state of an ant building a solution: the routes closed so far, the
/// route being filled, its load, the node the ant stands on, and the clients
/// still to visit.
pub struct AntTour {
    pub routes: Vec<Vec<usize>>,
    pub route: Vec<usize>,
    pub load: Int,
    pub node: usize,
    pub unvisited: HashSet<usize>,
}

/// How often client `c` is placed in `all` or still to visit.
pub open spec fn times_counted(all: Seq<Seq<usize>>, unvisited: Set<usize>, c: usize) -> nat {
    routes_multiset(all).count(c) + if unvisited.contains(c) {
        1nat
    } else {
        0nat
    }
}

/// A list of the elements of `u`, each once, in the order in which the set
/// is walked.
fn set_elements(u: &HashSet<usize>) -> (r: Vec<usize>)
    ensures
        r@.no_duplicates(),
        forall|c: usize| r@.contains(c) <==> u@.contains(c),
{
    broadcast use vstd::std_specs::hash::group_hash_axioms;

    let mut out: Vec<usize> = Vec::new();
    for x in it: u.iter()
        invariant
            it.seq().unref().to_set() == u@,
            it.seq().len() == u@.len(),
            out@ == it.seq().take(it.index() as int).map_values(|p: &usize| *p),
            out@.len() == it.index(),
            forall|c: usize| out@.contains(c) ==> u@.contains(c),
    {
        proof {
            assert(it.seq().unref()[it.index()] == *x);
            assert(it.seq().unref().contains(*x));
        }
        out.push(*x);
    }
    proof {
        lemma_covers(out@, u@);
    }
    out
}

/// A list without repetition, as long as a finite set and within it, holds
/// all of it.
proof fn lemma_covers(s: Seq<usize>, u: Set<usize>)
    requires
        s.no_duplicates(),
        u.finite(),
        s.len() == u.len(),
        forall|c: usize| s.contains(c) ==> u.contains(c),
    ensures
        forall|c: usize| s.contains(c) <==> u.contains(c),
{
    s.unique_seq_to_set();
    assert(s.to_set().subset_of(u));
    assert forall|c: usize| u.contains(c) implies s.contains(c) by {
        if !s.contains(c) {
            s.to_set().lemma_subset_not_in_lt(u, c);
        }
    }
}

impl AntTour {
    /// Every client is placed once or still to visit, and nothing else is
    /// counted; every closed route holds a client, and is within the
    /// capacity or holds a single client; the load is that of the open
    /// route, within the capacity; the ant stands on the depot or on the last
    /// client of the open route.
    pub open spec fn wf(&self, p: Problem) -> bool {
        let all = self.routes@.map_values(|r: Vec<usize>| r@).push(self.route@);
        &&& forall|k: int|
            0 <= k < self.closed().len() ==> (#[trigger] self.closed()[k]).len() > 0 && (
            self.closed()[k].len() == 1 || p.load(self.closed()[k]) <= p.max_capacity)
        &&& p.clients@.len() <= usize::MAX
        &&& self.unvisited@.finite()
        &&& forall|c: usize| #[trigger] times_counted(all, self.unvisited@, c) == if c
            < p.clients@.len() {
            1nat
        } else {
            0nat
        }
        &&& self.load == p.load(self.route@)
        &&& self.load <= p.max_capacity
        &&& self.node == (if self.route@.len() == 0 {
            0
        } else {
            self.route@.last() + 1
        })
    }

    /// The solution made of the routes closed so far.
    pub open spec fn closed(&self) -> Seq<Seq<usize>> {
        self.routes@.map_values(|r: Vec<usize>| r@)
    }

    /// A tour that has visited nobody yet: every client left, an empty
    /// route opened at the depot.
    pub fn new(problem: &Problem) -> (r: AntTour)
        ensures
            r.wf(*problem),
            r.closed().len() == 0,
            r.route@.len() == 0,
            r.unvisited@ == Set::new(|c: usize| c < problem.clients@.len()),
    {
        broadcast use vstd::std_specs::hash::group_hash_axioms;

        let n: usize = problem.clients.len();
        let mut unvisited: HashSet<usize> = HashSet::new();
        let mut k: usize = 0;
        while k < n
            invariant
                n == problem.clients@.len(),
                k <= n,
                unvisited@.finite(),
                unvisited@ == Set::new(|c: usize| c < k),
            decreases n - k,
        {
            unvisited.insert(k);
            k = k + 1;
            assert(unvisited@ =~= Set::new(|c: usize| c < k));
        }
        let t = AntTour { routes: Vec::new(), route: Vec::new(), load: 0, node: 0, unvisited };
        proof {
            let all = t.routes@.map_values(|r: Vec<usize>| r@).push(t.route@);
            assert(all =~= seq![Seq::<usize>::empty()]);
            assert(all.drop_last() =~= Seq::<Seq<usize>>::empty());
            assert(Seq::<usize>::empty().to_multiset() =~= Multiset::empty()) by {
                Seq::<usize>::empty().to_multiset_ensures();
            }
            assert(routes_multiset(all.drop_last()) == Multiset::<usize>::empty());
            assert(all.last() == Seq::<usize>::empty());
            assert(routes_multiset(all) =~= Multiset::empty());
            assert(t.unvisited@ =~= Set::new(|c: usize| c < problem.clients@.len()));
        }
        t
    }

    /// Whether the ant may go to client `c` next as far as the capacity goes:
    /// `c` is still to visit and its demand fits in what the vehicle has left.
    pub fn can_take(&self, problem: &Problem, c: usize) -> (r: bool)
        requires
            self.wf(*problem),
            c < problem.clients@.len(),
        ensures
            r == (self.unvisited@.contains(c) && self.load + problem.demand(c)
                <= problem.max_capacity),
    {
        broadcast use vstd::std_specs::hash::group_hash_axioms;

        self.unvisited.contains(&c) && (self.load as u64 + problem.clients[c].demand as u64
            <= problem.max_capacity as u64)
    }

    /// The ant goes to client `c`, which joins the open route.
    pub fn visit(&mut self, problem: &Problem, c: usize)
        requires
            old(self).wf(*problem),
            c < problem.clients@.len(),
            old(self).unvisited@.contains(c),
            old(self).load + problem.demand(c) <= problem.max_capacity,
        ensures
            final(self).wf(*problem),
            final(self).closed() == old(self).closed(),
            final(self).route@ == old(self).route@.push(c),
            final(self).unvisited@ == old(self).unvisited@.remove(c),
    {
        broadcast use vstd::std_specs::hash::group_hash_axioms;

        let ghost u0 = self.unvisited@;
        let ghost r0 = self.route@;
        let ghost closed0 = self.routes@.map_values(|r: Vec<usize>| r@);
        self.route.push(c);
        self.unvisited.remove(&c);
        self.load = self.load + problem.clients[c].demand;
        self.node = c + 1;
        proof {
            assert(self.closed() =~= closed0);
            assert forall|k: int| 0 <= k < self.closed().len() implies (#[trigger] self.closed()[k]).len()
                > 0 && (self.closed()[k].len() == 1 || problem.load(self.closed()[k])
                <= problem.max_capacity) by {
                assert(self.closed()[k] == old(self).closed()[k]);
            }
            assert(self.route@.drop_last() =~= r0);
            let all0 = closed0.push(r0);
            let all1 = closed0.push(self.route@);
            lemma_routes_multiset_push(closed0, r0);
            lemma_routes_multiset_push(closed0, self.route@);
            vstd::seq_lib::to_multiset_build(r0, c);
            assert forall|x: usize| #[trigger] times_counted(all1, self.unvisited@, x)
                == times_counted(all0, u0, x) by {}
        }
    }

    /// The ant cannot go on, since no client may come next (`time_ok[c]`
    /// says whether client `c` can still be served in its time window): the
    /// open route is closed and a new one opened at the depot. When the open
    /// route is empty, the first client met in a walk of the set still to
    /// visit, if any, is given a route of its own.
    pub fn close_route(&mut self, problem: &Problem, time_ok: &Vec<bool>)
        requires
            old(self).wf(*problem),
            time_ok@.len() == problem.clients@.len(),
            forall|c: usize|
                !(#[trigger] client_ok(old(self).unvisited@, old(self).load as int, *problem, time_ok@, c)),
        ensures
            final(self).wf(*problem),
            final(self).route@.len() == 0,
            old(self).route@.len() > 0 ==> final(self).closed() == old(self).closed().push(
                old(self).route@,
            ) && final(self).unvisited@ == old(self).unvisited@,
            old(self).route@.len() == 0 && !old(self).unvisited@.is_empty() ==> exists|c: usize|
                old(self).unvisited@.contains(c) && final(self).closed() == old(self).closed().push(
                    seq![c],
                ) && #[trigger] final(self).unvisited@ == old(self).unvisited@.remove(c),
            old(self).route@.len() == 0 && old(self).unvisited@.is_empty() ==> final(self).closed()
                == old(self).closed() && final(self).unvisited@ == old(self).unvisited@,
    {
        broadcast use vstd::std_specs::hash::group_hash_axioms;

        let ghost closed0 = self.routes@.map_values(|r: Vec<usize>| r@);
        let ghost u0 = self.unvisited@;
        let ghost r0 = self.route@;
        if self.route.len() > 0 {
            let mut r: Vec<usize> = Vec::new();
            std::mem::swap(&mut r, &mut self.route);
            self.routes.push(r);
            proof {
                let all1 = self.routes@.map_values(|r: Vec<usize>| r@).push(self.route@);
                assert(self.routes@.map_values(|r: Vec<usize>| r@) =~= closed0.push(r0));
                lemma_routes_multiset_push(closed0.push(r0), self.route@);
                assert(self.route@.to_multiset() =~= Multiset::empty()) by {
                    self.route@.to_multiset_ensures();
                }
                assert(routes_multiset(all1) =~= routes_multiset(closed0.push(r0)));
                assert forall|x: usize| #[trigger] times_counted(all1, self.unvisited@, x)
                    == times_counted(closed0.push(r0), u0, x) by {}
                assert(self.closed() == closed0.push(r0));
                assert forall|k: int| 0 <= k < self.closed().len() implies (#[trigger] self.closed()[k]).len()
                    > 0 && (self.closed()[k].len() == 1 || problem.load(self.closed()[k])
                    <= problem.max_capacity) by {
                    if k < closed0.len() {
                        assert(self.closed()[k] == old(self).closed()[k]);
                    }
                }
            }
        } else if !self.unvisited.is_empty() {
            let elems = set_elements(&self.unvisited);
            proof {
                assert(u0.len() > 0) by {
                    if u0.len() == 0 {
                        u0.lemma_len0_is_empty();
                    }
                }
                if elems@.len() == 0 {
                    let y = u0.choose();
                    assert(u0.contains(y));
                    assert(elems@.contains(y));
                }
            }
            let c: usize = elems[0];
            assert(elems@.contains(c));
            let mut single: Vec<usize> = Vec::new();
            single.push(c);
            self.unvisited.remove(&c);
            self.routes.push(single);
            proof {
                assert(single@ =~= seq![c]);
                let closed1 = self.routes@.map_values(|r: Vec<usize>| r@);
                assert(closed1 =~= closed0.push(seq![c]));
                lemma_routes_multiset_push(closed0, r0);
                lemma_routes_multiset_push(closed0.push(seq![c]), r0);
                lemma_routes_multiset_push(closed0, seq![c]);
                assert(seq![c] =~= Seq::<usize>::empty().push(c));
                vstd::seq_lib::to_multiset_build(Seq::<usize>::empty(), c);
                assert(Seq::<usize>::empty().to_multiset() =~= Multiset::empty()) by {
                    Seq::<usize>::empty().to_multiset_ensures();
                }
                assert forall|x: usize| #[trigger] times_counted(closed1.push(self.route@), self.unvisited@, x)
                    == times_counted(closed0.push(r0), u0, x) by {}
                assert(self.closed() == closed0.push(seq![c]));
                assert forall|k: int| 0 <= k < self.closed().len() implies (#[trigger] self.closed()[k]).len()
                    > 0 && (self.closed()[k].len() == 1 || problem.load(self.closed()[k])
                    <= problem.max_capacity) by {
                    if k < closed0.len() {
                        assert(self.closed()[k] == old(self).closed()[k]);
                    }
                }
            }
        }
        self.load = 0;
        self.node = 0;
    }

    /// Every client has been placed.
    pub fn is_done(&self) -> (r: bool)
        ensures
            r == self.unvisited@.is_empty(),
    {
        broadcast use vstd::std_specs::hash::group_hash_axioms;

        self.unvisited.is_empty()
    }

    /// The solution an ant has built once every client is placed and the
    /// last route closed: it visits every client exactly once, every route
    /// holds a client, and every route stays within the capacity unless it
    /// holds a single client.
    pub fn into_solution(self, problem: &Problem) -> (r: Solution)
        requires
            self.wf(*problem),
            self.unvisited@.is_empty(),
            self.route@.len() == 0,
        ensures
            r@ == self.closed(),
            crate::problem::is_partition(r@, problem.clients@.len()),
            forall|k: int|
                0 <= k < r@.len() ==> (#[trigger] r@[k]).len() > 0 && (r@[k].len() == 1
                    || problem.load(r@[k]) <= problem.max_capacity),
    {
        let r = Solution { routes: self.routes };
        proof {
            let all = self.closed().push(self.route@);
            lemma_routes_multiset_push(self.closed(), self.route@);
            assert(self.route@.to_multiset() =~= Multiset::empty()) by {
                self.route@.to_multiset_ensures();
            }
            assert forall|c: usize| #[trigger] routes_multiset(r@).count(c) == if c
                < problem.clients@.len() {
                1nat
            } else {
                0nat
            } by {
                assert(times_counted(all, self.unvisited@, c) == if c < problem.clients@.len() {
                    1nat
                } else {
                    0nat
                });
                assert(!self.unvisited@.contains(c));
            }
        }
        r
    }
}

/// Client `c` may come next as far as the integer conditions go: it is a
/// client, still to visit, fits in what the vehicle has left, and passes the
/// time check `time_ok`.
pub open spec fn client_ok(unvisited: Set<usize>, load: int, p: Problem, time_ok: Seq<bool>, c: usize) -> bool {
    c < p.clients@.len() && unvisited.contains(c) && load + p.demand(c) <= p.max_capacity
        && time_ok[c as int]
}

/// The clients of a candidate list (of nodes; node 0, the depot, is never a
/// candidate) that may come next, in the order of the list.
pub open spec fn restricted_candidates(
    row: Seq<usize>,
    unvisited: Set<usize>,
    load: int,
    p: Problem,
    time_ok: Seq<bool>,
) -> Seq<usize>
    decreases row.len(),
{
    if row.len() == 0 {
        seq![]
    } else {
        let prev = restricted_candidates(row.drop_last(), unvisited, load, p, time_ok);
        let ph = row.last();
        if ph != 0 && client_ok(unvisited, load, p, time_ok, (ph - 1) as usize) {
            prev.push((ph - 1) as usize)
        } else {
            prev
        }
    }
}

/// `r` lists the clients an ant may visit next: those of its candidate list
/// that may come next, in the order of the list, or, when there is none,
/// every client that may come next, each once, in an order left open.
pub open spec fn candidate_clients(
    row: Seq<usize>,
    unvisited: Set<usize>,
    load: int,
    p: Problem,
    time_ok: Seq<bool>,
    r: Seq<usize>,
) -> bool {
    let restricted = restricted_candidates(row, unvisited, load, p, time_ok);
    if restricted.len() > 0 {
        r == restricted
    } else {
        &&& r.no_duplicates()
        &&& forall|c: usize| #[trigger] r.contains(c) <==> client_ok(unvisited, load, p, time_ok, c)
    }
}

impl AntTour {
    /// The clients the ant may visit next from the candidate list `row` of
    /// the node it stands on (see `candidate_clients`); `time_ok[c]` says
    /// whether client `c` can still be served in its time window. When none
    /// of the list may come next, the clients still to visit are taken in the
    /// order in which their set is walked.
    pub fn feasible_candidates_from(
        &self,
        problem: &Problem,
        row: &Vec<usize>,
        time_ok: &Vec<bool>,
    ) -> (r: Vec<usize>)
        requires
            self.wf(*problem),
            time_ok@.len() == problem.clients@.len(),
        ensures
            candidate_clients(row@, self.unvisited@, self.load as int, *problem, time_ok@, r@),
    {
        let mut restricted: Vec<usize> = Vec::new();
        let mut k: usize = 0;
        while k < row.len()
            invariant
                self.wf(*problem),
                time_ok@.len() == problem.clients@.len(),
                k <= row@.len(),
                restricted@ == restricted_candidates(
                    row@.take(k as int),
                    self.unvisited@,
                    self.load as int,
                    *problem,
                    time_ok@,
                ),
            decreases row@.len() - k,
        {
            let ph: usize = row[k];
            assert(row@.take(k + 1).drop_last() =~= row@.take(k as int));
            if ph != 0 && ph - 1 < problem.clients.len() {
                let c: usize = ph - 1;
                if self.can_take(problem, c) && time_ok[c] {
                    restricted.push(c);
                }
            }
            k = k + 1;
        }
        assert(row@.take(row@.len() as int) =~= row@);
        if restricted.len() > 0 {
            return restricted;
        }
        let elems = set_elements(&self.unvisited);
        let mut all: Vec<usize> = Vec::new();
        let mut j: usize = 0;
        while j < elems.len()
            invariant
                self.wf(*problem),
                time_ok@.len() == problem.clients@.len(),
                elems@.no_duplicates(),
                forall|c: usize| elems@.contains(c) <==> self.unvisited@.contains(c),
                j <= elems@.len(),
                all@.no_duplicates(),
                forall|c: usize|
                    #[trigger] all@.contains(c) <==> (elems@.take(j as int).contains(c) && client_ok(
                        self.unvisited@,
                        self.load as int,
                        *problem,
                        time_ok@,
                        c,
                    )),
            decreases elems@.len() - j,
        {
            let c: usize = elems[j];
            assert(elems@.contains(c));
            assert(times_counted(
                self.routes@.map_values(|r: Vec<usize>| r@).push(self.route@),
                self.unvisited@,
                c,
            ) > 0);
            assert(elems@.take(j + 1) =~= elems@.take(j as int).push(c));
            assert(!elems@.take(j as int).contains(c));
            let ghost before = all@;
            assert(!before.contains(c));
            let take: bool = self.can_take(problem, c) && time_ok[c];
            if take {
                all.push(c);
                assert forall|a: int, b: int| 0 <= a < all@.len() && 0 <= b < all@.len() && a
                    != b implies all@[a] != all@[b] by {
                    if a == before.len() {
                        assert(before.contains(all@[b]));
                    } else if b == before.len() {
                        assert(before.contains(all@[a]));
                    }
                }
            }
            assert forall|x: usize| #[trigger] all@.contains(x) <==> (elems@.take(j + 1).contains(x)
                && client_ok(self.unvisited@, self.load as int, *problem, time_ok@, x)) by {
                vstd::seq_lib::lemma_seq_contains_after_push(elems@.take(j as int), c, x);
                if take {
                    vstd::seq_lib::lemma_seq_contains_after_push(before, c, x);
                }
                assert(before.contains(x) <==> (elems@.take(j as int).contains(x) && client_ok(
                    self.unvisited@,
                    self.load as int,
                    *problem,
                    time_ok@,
                    x,
                )));
            }
            j = j + 1;
        }
        assert(elems@.take(elems@.len() as int) =~= elems@);
        all
    }
}

// ---------------------------------------------------------------------------
// Where pheromone goes.
// ---------------------------------------------------------------------------
/// The edges travelled along a route, as pairs of nodes: from the depot to
/// the first client, between consecutive clients, from the last client back
/// to the depot. An empty route travels no edge.
pub open spec fn route_edges(route: Seq<usize>) -> Seq<(usize, usize)> {
    if route.len() == 0 {
        seq![]
    } else {
        seq![(0usize, (route[0] + 1) as usize)] + Seq::new(
            (route.len() - 1) as nat,
            |t: int| ((route[t] + 1) as usize, (route[t + 1] + 1) as usize),
        ) + seq![((route.last() + 1) as usize, 0usize)]
    }
}

/// The edges travelled along a route (see `route_edges`).
pub fn edges_of_route(route: &Vec<usize>) -> (r: Vec<(usize, usize)>)
    requires
        forall|t: int| 0 <= t < route@.len() ==> #[trigger] route@[t] < usize::MAX,
    ensures
        r@ == route_edges(route@),
{
    let mut out: Vec<(usize, usize)> = Vec::new();
    let n: usize = route.len();
    if n == 0 {
        assert(out@ =~= route_edges(route@));
        return out;
    }
    out.push((0, route[0] + 1));
    let mut t: usize = 0;
    while t + 1 < n
        invariant
            n == route@.len(),
            n > 0,
            t < n,
            forall|q: int| 0 <= q < route@.len() ==> #[trigger] route@[q] < usize::MAX,
            out@ == seq![(0usize, (route@[0] + 1) as usize)] + Seq::new(
                t as nat,
                |q: int| ((route@[q] + 1) as usize, (route@[q + 1] + 1) as usize),
            ),
        decreases n - t,
    {
        out.push((route[t] + 1, route[t + 1] + 1));
        t = t + 1;
        assert(out@ =~= seq![(0usize, (route@[0] + 1) as usize)] + Seq::new(
            t as nat,
            |q: int| ((route@[q] + 1) as usize, (route@[q + 1] + 1) as usize),
        ));
    }
    out.push((route[n - 1] + 1, 0));
    assert(out@ =~= route_edges(route@));
    out
}

} // verus!
