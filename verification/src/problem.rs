//! A routing problem (one depot, clients with demands, one vehicle capacity)
//! and its solutions: lists of routes, each a list of client indices visited
//! in order, starting and ending at the depot.
use vstd::multiset::Multiset;
use vstd::prelude::*;

use crate::parser::{Client, InputData, Repository};
use crate::rng::shuffle;
use crate::Int;

verus! {

broadcast use vstd::multiset::group_multiset_axioms;

#[derive(Debug, Clone)]
pub struct Problem {
    pub clients: Vec<Client>,
    pub repo: Repository,
    pub max_capacity: Int,
}

#[derive(Debug, Clone)]
pub struct Solution {
    pub routes: Vec<Vec<usize>>,
}

impl View for Solution {
    type V = Seq<Seq<usize>>;

    open spec fn view(&self) -> Seq<Seq<usize>> {
        self.routes@.map_values(|r: Vec<usize>| r@)
    }
}

/// All clients of all routes, counted with multiplicity.
pub open spec fn routes_multiset(rs: Seq<Seq<usize>>) -> Multiset<usize>
    decreases rs.len(),
{
    if rs.len() == 0 {
        Multiset::empty()
    } else {
        routes_multiset(rs.drop_last()).add(rs.last().to_multiset())
    }
}

/// Every client `0..n` is visited exactly once, and nothing else is visited.
pub open spec fn is_partition(rs: Seq<Seq<usize>>, n: nat) -> bool {
    forall|c: usize| #[trigger] routes_multiset(rs).count(c) == if c < n { 1nat } else { 0nat }
}

/// The routes that visit at least one client, in their order.
pub open spec fn non_empty(rs: Seq<Seq<usize>>) -> Seq<Seq<usize>>
    decreases rs.len(),
{
    if rs.len() == 0 {
        rs
    } else if rs.last().len() > 0 {
        non_empty(rs.drop_last()).push(rs.last())
    } else {
        non_empty(rs.drop_last())
    }
}

/// Four fifths of the capacity, rounded down: how much a route of a random
/// solution may carry before a new route is opened.
pub open spec fn random_budget(capacity: Int) -> int {
    capacity * 4 / 5
}

/// The budget is four fifths of the capacity rounded down, for every
/// capacity: the largest whole number whose five-fold is at most four times
/// the capacity. So it grows with the capacity.
pub proof fn lemma_random_budget_four_fifths(capacity: Int, other: Int)
    ensures
        0 <= 5 * random_budget(capacity) <= 4 * capacity,
        4 * capacity < 5 * random_budget(capacity) + 5,
        capacity <= other ==> random_budget(capacity) <= random_budget(other),
{
    assert(0 <= 5 * random_budget(capacity) <= 4 * capacity) by (nonlinear_arith)
        requires
            random_budget(capacity) == capacity * 4 / 5,
            capacity >= 0,
    ;
    assert(4 * capacity < 5 * random_budget(capacity) + 5) by (nonlinear_arith)
        requires
            random_budget(capacity) == capacity * 4 / 5,
            capacity >= 0,
    ;
    assert(capacity <= other ==> random_budget(capacity) <= random_budget(other)) by (nonlinear_arith)
        requires
            random_budget(capacity) == capacity * 4 / 5,
            random_budget(other) == other * 4 / 5,
            capacity >= 0,
    ;
}

impl Problem {
    /// The demand of client `i`.
    pub open spec fn demand(self, i: usize) -> int {
        self.clients@[i as int].demand as int
    }

    /// The total demand of the clients of a route.
    pub open spec fn load(self, route: Seq<usize>) -> int
        decreases route.len(),
    {
        if route.len() == 0 {
            0
        } else {
            self.load(route.drop_last()) + self.demand(route.last())
        }
    }

    /// Every route carries at most the vehicle capacity.
    pub open spec fn all_fit(self, rs: Seq<Seq<usize>>) -> bool {
        forall|k: int| 0 <= k < rs.len() ==> self.load(#[trigger] rs[k]) <= self.max_capacity
    }

    /// Every index of every route names a client.
    pub open spec fn indices_valid(self, rs: Seq<Seq<usize>>) -> bool {
        forall|k: int, j: int|
            0 <= k < rs.len() && 0 <= j < rs[k].len() ==> #[trigger] rs[k][j] < self.clients@.len()
    }

    /// Reading the visit order from left to right: the routes closed so far,
    /// the route being filled and its load. A client joins the current route
    /// while the load stays within `budget`, else it opens a new route.
    pub open spec fn split_acc(self, order: Seq<usize>, budget: int) -> (
        Seq<Seq<usize>>,
        Seq<usize>,
        int,
    )
        decreases order.len(),
    {
        if order.len() == 0 {
            (seq![], seq![], 0)
        } else {
            let (done, cur, used) = self.split_acc(order.drop_last(), budget);
            let i = order.last();
            if used + self.demand(i) <= budget {
                (done, cur.push(i), used + self.demand(i))
            } else {
                (done.push(cur), seq![i], self.demand(i))
            }
        }
    }

    /// The routes cut from a visit order; the route still open at the end is
    /// kept when it is not empty.
    pub open spec fn split(self, order: Seq<usize>, budget: int) -> Seq<Seq<usize>> {
        let (done, cur, _) = self.split_acc(order, budget);
        if cur.len() > 0 {
            done.push(cur)
        } else {
            done
        }
    }

    /// The depot has coordinates `(x, y)` as node 0; client `i` is node `i + 1`.
    pub open spec fn node_xy(self, node: usize) -> (Int, Int) {
        if node == 0 {
            (self.repo.x, self.repo.y)
        } else {
            (self.clients@[node - 1].x, self.clients@[node - 1].y)
        }
    }
}

/// The square of the Euclidean distance between two points.
pub open spec fn sq_dist(a: (Int, Int), b: (Int, Int)) -> int {
    (a.0 - b.0) * (a.0 - b.0) + (a.1 - b.1) * (a.1 - b.1)
}

// ---------------------------------------------------------------------------
// Lemmas on the multiset of visited clients and on loads.
// ---------------------------------------------------------------------------
pub proof fn lemma_routes_multiset_push(rs: Seq<Seq<usize>>, r: Seq<usize>)
    ensures
        routes_multiset(rs.push(r)) == routes_multiset(rs).add(r.to_multiset()),
{
    assert(rs.push(r).drop_last() =~= rs);
}

/// Replacing route `i` by `r` trades the clients of one for those of the other.
pub proof fn lemma_routes_multiset_update(rs: Seq<Seq<usize>>, i: int, r: Seq<usize>)
    requires
        0 <= i < rs.len(),
    ensures
        routes_multiset(rs.update(i, r)).add(rs[i].to_multiset()) == routes_multiset(rs).add(
            r.to_multiset(),
        ),
    decreases rs.len(),
{
    let u = rs.update(i, r);
    if i == rs.len() - 1 {
        assert(u.drop_last() =~= rs.drop_last());
        assert(routes_multiset(u).add(rs[i].to_multiset()) =~= routes_multiset(rs).add(
            r.to_multiset(),
        ));
    } else {
        assert(u.drop_last() =~= rs.drop_last().update(i, r));
        lemma_routes_multiset_update(rs.drop_last(), i, r);
        assert(u.last() == rs.last());
        assert(rs.drop_last()[i] == rs[i]);
        let a = routes_multiset(rs.drop_last().update(i, r));
        let b = routes_multiset(rs.drop_last());
        assert(routes_multiset(u) == a.add(rs.last().to_multiset()));
        assert(routes_multiset(rs) == b.add(rs.last().to_multiset()));
        assert(a.add(rs[i].to_multiset()) == b.add(r.to_multiset()));
        assert forall|v: usize| #[trigger] routes_multiset(u).add(rs[i].to_multiset()).count(v)
            == routes_multiset(rs).add(r.to_multiset()).count(v) by {
            assert(a.add(rs[i].to_multiset()).count(v) == b.add(r.to_multiset()).count(v));
        }
        assert(routes_multiset(u).add(rs[i].to_multiset()) =~= routes_multiset(rs).add(
            r.to_multiset(),
        ));
    }
}

pub proof fn lemma_routes_multiset_non_empty(rs: Seq<Seq<usize>>)
    ensures
        routes_multiset(non_empty(rs)) == routes_multiset(rs),
    decreases rs.len(),
{
    if rs.len() > 0 {
        lemma_routes_multiset_non_empty(rs.drop_last());
        if rs.last().len() > 0 {
            lemma_routes_multiset_push(non_empty(rs.drop_last()), rs.last());
        } else {
            assert(rs.last().to_multiset() =~= Multiset::empty()) by {
                rs.last().to_multiset_ensures();
            }
            assert(routes_multiset(rs) =~= routes_multiset(rs.drop_last()));
        }
    }
}

/// The routes kept by `non_empty` are routes of `rs`, and none is empty.
pub proof fn lemma_non_empty_members(rs: Seq<Seq<usize>>)
    ensures
        forall|k: int|
            0 <= k < non_empty(rs).len() ==> (#[trigger] non_empty(rs)[k]).len() > 0 && exists|
                j: int,
            |
                0 <= j < rs.len() && rs[j] == non_empty(rs)[k],
    decreases rs.len(),
{
    if rs.len() > 0 {
        lemma_non_empty_members(rs.drop_last());
        let prev = non_empty(rs.drop_last());
        assert forall|k: int| 0 <= k < non_empty(rs).len() implies (#[trigger] non_empty(
            rs,
        )[k]).len() > 0 && exists|j: int| 0 <= j < rs.len() && rs[j] == non_empty(rs)[k] by {
            if k < prev.len() {
                assert(non_empty(rs)[k] == prev[k]);
                let j = choose|j: int| 0 <= j < rs.drop_last().len() && rs.drop_last()[j] == prev[k];
                assert(rs[j] == non_empty(rs)[k]);
            } else {
                assert(rs[rs.len() - 1] == non_empty(rs)[k]);
            }
        }
    }
}

/// A client that appears in a route is counted among the visited clients.
pub proof fn lemma_routes_multiset_contains(rs: Seq<Seq<usize>>, k: int, j: int)
    requires
        0 <= k < rs.len(),
        0 <= j < rs[k].len(),
    ensures
        routes_multiset(rs).count(rs[k][j]) > 0,
    decreases rs.len(),
{
    rs[k].to_multiset_ensures();
    assert(rs[k].contains(rs[k][j]));
    if k < rs.len() - 1 {
        lemma_routes_multiset_contains(rs.drop_last(), k, j);
    }
}

/// In a partition of `0..n`, every index names a client.
pub proof fn lemma_partition_indices(p: Problem, rs: Seq<Seq<usize>>)
    requires
        is_partition(rs, p.clients@.len()),
    ensures
        p.indices_valid(rs),
{
    assert forall|k: int, j: int| 0 <= k < rs.len() && 0 <= j < rs[k].len() implies #[trigger] rs[k][j]
        < p.clients@.len() by {
        lemma_routes_multiset_contains(rs, k, j);
    }
}

pub proof fn lemma_load_single(p: Problem, x: usize)
    ensures
        p.load(seq![x]) == p.demand(x),
{
    assert(seq![x].drop_last() =~= Seq::<usize>::empty());
    assert(seq![x].last() == x);
    assert(p.load(seq![x].drop_last()) == 0);
}

pub proof fn lemma_load_concat(p: Problem, a: Seq<usize>, b: Seq<usize>)
    ensures
        p.load(a + b) == p.load(a) + p.load(b),
    decreases b.len(),
{
    if b.len() == 0 {
        assert(a + b =~= a);
    } else {
        assert((a + b).drop_last() =~= a + b.drop_last());
        lemma_load_concat(p, a, b.drop_last());
    }
}

pub proof fn lemma_load_reverse(p: Problem, s: Seq<usize>)
    ensures
        p.load(s.reverse()) == p.load(s),
    decreases s.len(),
{
    if s.len() > 0 {
        let t = s.drop_last();
        assert(s.reverse() =~= seq![s.last()] + t.reverse());
        lemma_load_concat(p, seq![s.last()], t.reverse());
        lemma_load_reverse(p, t);
        lemma_load_single(p, s.last());
        assert(p.load(s) == p.load(t) + p.demand(s.last()));
    }
}

pub proof fn lemma_load_remove(p: Problem, s: Seq<usize>, i: int)
    requires
        0 <= i < s.len(),
    ensures
        p.load(s.remove(i)) == p.load(s) - p.demand(s[i]),
{
    assert(s =~= s.take(i) + seq![s[i]] + s.skip(i + 1));
    assert(s.remove(i) =~= s.take(i) + s.skip(i + 1));
    lemma_load_concat(p, s.take(i) + seq![s[i]], s.skip(i + 1));
    lemma_load_concat(p, s.take(i), seq![s[i]]);
    lemma_load_concat(p, s.take(i), s.skip(i + 1));
    lemma_load_single(p, s[i]);
}

pub proof fn lemma_load_insert(p: Problem, s: Seq<usize>, i: int, c: usize)
    requires
        0 <= i <= s.len(),
    ensures
        p.load(s.insert(i, c)) == p.load(s) + p.demand(c),
{
    assert(s =~= s.take(i) + s.skip(i));
    assert(s.insert(i, c) =~= s.take(i) + seq![c] + s.skip(i));
    lemma_load_concat(p, s.take(i) + seq![c], s.skip(i));
    lemma_load_concat(p, s.take(i), seq![c]);
    lemma_load_concat(p, s.take(i), s.skip(i));
    lemma_load_single(p, c);
}

pub proof fn lemma_load_update(p: Problem, s: Seq<usize>, i: int, c: usize)
    requires
        0 <= i < s.len(),
    ensures
        p.load(s.update(i, c)) == p.load(s) - p.demand(s[i]) + p.demand(c),
{
    assert(s.update(i, c) =~= s.remove(i).insert(i, c));
    lemma_load_remove(p, s, i);
    lemma_load_insert(p, s.remove(i), i, c);
}

/// `non_empty` keeps routes that fit.
pub proof fn lemma_all_fit_non_empty(p: Problem, rs: Seq<Seq<usize>>)
    requires
        p.all_fit(rs),
    ensures
        p.all_fit(non_empty(rs)),
{
    lemma_non_empty_members(rs);
    assert forall|k: int| 0 <= k < non_empty(rs).len() implies p.load(#[trigger] non_empty(rs)[k])
        <= p.max_capacity by {
        let j = choose|j: int| 0 <= j < rs.len() && rs[j] == non_empty(rs)[k];
        assert(p.load(rs[j]) <= p.max_capacity);
    }
}

/// Cutting a visit order into routes keeps every client, once per visit.
pub proof fn lemma_split_multiset(p: Problem, order: Seq<usize>, budget: int)
    ensures
        routes_multiset(p.split(order, budget)) == order.to_multiset(),
{
    lemma_split_acc_multiset(p, order, budget);
    let (done, cur, _) = p.split_acc(order, budget);
    if cur.len() > 0 {
        lemma_routes_multiset_push(done, cur);
    } else {
        assert(cur.to_multiset() =~= Multiset::empty()) by {
            cur.to_multiset_ensures();
        }
        assert(routes_multiset(done) =~= routes_multiset(done).add(cur.to_multiset()));
    }
}

proof fn lemma_split_acc_multiset(p: Problem, order: Seq<usize>, budget: int)
    ensures
        routes_multiset(p.split_acc(order, budget).0).add(p.split_acc(order, budget).1.to_multiset())
            == order.to_multiset(),
    decreases order.len(),
{
    broadcast use vstd::seq_lib::group_to_multiset_ensures;

    if order.len() == 0 {
        assert(order.to_multiset() =~= Multiset::empty());
        assert(Seq::<usize>::empty().to_multiset() =~= Multiset::empty());
        assert(routes_multiset(p.split_acc(order, budget).0).add(
            p.split_acc(order, budget).1.to_multiset(),
        ) =~= Multiset::empty());
    } else {
        lemma_split_acc_multiset(p, order.drop_last(), budget);
        let (done, cur, used) = p.split_acc(order.drop_last(), budget);
        let i = order.last();
        assert(order =~= order.drop_last().push(i));
        if used + p.demand(i) <= budget {
            assert(routes_multiset(p.split_acc(order, budget).0).add(
                p.split_acc(order, budget).1.to_multiset(),
            ) =~= order.to_multiset());
        } else {
            lemma_routes_multiset_push(done, cur);
            assert(seq![i] =~= Seq::<usize>::empty().push(i));
            assert(Seq::<usize>::empty().to_multiset() =~= Multiset::empty());
            assert(routes_multiset(p.split_acc(order, budget).0).add(
                p.split_acc(order, budget).1.to_multiset(),
            ) =~= order.to_multiset());
        }
    }
}

/// A route cut from a visit order carries at most `budget`, unless it holds a
/// single client whose demand alone exceeds it.
pub proof fn lemma_split_within_budget(p: Problem, order: Seq<usize>, budget: int)
    requires
        budget >= 0,
    ensures
        forall|k: int|
            0 <= k < p.split(order, budget).len() ==> (#[trigger] p.split(order, budget)[k]).len()
                <= 1 || p.load(p.split(order, budget)[k]) <= budget,
{
    lemma_split_acc_budget(p, order, budget);
}

proof fn lemma_split_acc_budget(p: Problem, order: Seq<usize>, budget: int)
    requires
        budget >= 0,
    ensures
        forall|k: int|
            0 <= k < p.split_acc(order, budget).0.len() ==> (#[trigger] p.split_acc(
                order,
                budget,
            ).0[k]).len() <= 1 || p.load(p.split_acc(order, budget).0[k]) <= budget,
        p.split_acc(order, budget).2 == p.load(p.split_acc(order, budget).1),
        p.split_acc(order, budget).1.len() <= 1 || p.split_acc(order, budget).2 <= budget,
        forall|k: int|
            0 <= k < p.split(order, budget).len() ==> (#[trigger] p.split(order, budget)[k]).len()
                <= 1 || p.load(p.split(order, budget)[k]) <= budget,
    decreases order.len(),
{
    if order.len() > 0 {
        lemma_split_acc_budget(p, order.drop_last(), budget);
        let (done, cur, used) = p.split_acc(order.drop_last(), budget);
        let i = order.last();
        if used + p.demand(i) <= budget {
            assert(cur.push(i).drop_last() =~= cur);
            assert(cur.push(i).last() == i);
        } else {
            lemma_load_single(p, i);
        }
    }
}

/// The shape of the routes cut from a visit order: every route after the
/// first holds a client, and the first is empty only when the first client's
/// demand alone exceeds the budget.
pub proof fn lemma_split_shape(p: Problem, order: Seq<usize>, budget: int)
    requires
        budget >= 0,
    ensures
        forall|k: int| 1 <= k < p.split(order, budget).len() ==> (#[trigger] p.split(order, budget)[k]).len() > 0,
        p.split(order, budget).len() > 0 && p.split(order, budget)[0].len() == 0 ==> order.len() > 0
            && p.demand(order[0]) > budget,
{
    lemma_split_acc_shape(p, order, budget);
}

proof fn lemma_split_acc_shape(p: Problem, order: Seq<usize>, budget: int)
    requires
        budget >= 0,
    ensures
        order.len() > 0 ==> p.split_acc(order, budget).1.len() > 0,
        order.len() == 0 ==> p.split_acc(order, budget).0.len() == 0 && p.split_acc(order, budget).2 == 0,
        forall|k: int|
            1 <= k < p.split_acc(order, budget).0.len() ==> (#[trigger] p.split_acc(order, budget).0[k]).len() > 0,
        p.split_acc(order, budget).0.len() > 0 && p.split_acc(order, budget).0[0].len() == 0 ==> order.len()
            > 0 && p.demand(order[0]) > budget,
        forall|k: int|
            1 <= k < p.split(order, budget).len() ==> (#[trigger] p.split(order, budget)[k]).len() > 0,
        p.split(order, budget).len() > 0 && p.split(order, budget)[0].len() == 0 ==> order.len() > 0
            && p.demand(order[0]) > budget,
    decreases order.len(),
{
    if order.len() > 0 {
        let prev = order.drop_last();
        lemma_split_acc_shape(p, prev, budget);
        let (done, cur, used) = p.split_acc(prev, budget);
        let i = order.last();
        if prev.len() > 0 {
            assert(prev[0] == order[0]);
        } else {
            assert(order[0] == i);
        }
        if used + p.demand(i) <= budget {
        } else {
            assert(done.push(cur)[done.len() as int] == cur);
        }
    }
}

/// The routes `rs` read one after the other.
pub open spec fn concat_routes(rs: Seq<Seq<usize>>) -> Seq<usize>
    decreases rs.len(),
{
    if rs.len() == 0 {
        seq![]
    } else {
        concat_routes(rs.drop_last()) + rs.last()
    }
}

proof fn lemma_split_acc_cuts(p: Problem, order: Seq<usize>, budget: int)
    requires
        budget >= 0,
    ensures
        concat_routes(p.split_acc(order, budget).0) + p.split_acc(order, budget).1 == order,
        forall|k: int|
            0 <= k < p.split_acc(order, budget).0.len() - 1 ==> p.load(
                #[trigger] p.split_acc(order, budget).0[k],
            ) + p.demand(p.split_acc(order, budget).0[k + 1][0]) > budget,
        p.split_acc(order, budget).0.len() > 0 ==> p.split_acc(order, budget).1.len() > 0 && p.load(
            p.split_acc(order, budget).0.last(),
        ) + p.demand(p.split_acc(order, budget).1[0]) > budget,
    decreases order.len(),
{
    if order.len() == 0 {
        assert(concat_routes(Seq::<Seq<usize>>::empty()) + Seq::<usize>::empty() =~= order);
    } else {
        let prev = order.drop_last();
        lemma_split_acc_cuts(p, prev, budget);
        lemma_split_acc_budget(p, prev, budget);
        lemma_split_acc_shape(p, prev, budget);
        let (done, cur, used) = p.split_acc(prev, budget);
        let i = order.last();
        assert(prev.push(i) =~= order);
        if used + p.demand(i) <= budget {
            assert(concat_routes(done) + cur.push(i) =~= (concat_routes(done) + cur).push(i));
            if done.len() > 0 {
                assert(cur.push(i)[0] == cur[0]);
            }
        } else {
            let d2 = done.push(cur);
            assert(d2.drop_last() =~= done);
            assert(concat_routes(d2) + seq![i] =~= (concat_routes(done) + cur).push(i));
            assert forall|k: int| 0 <= k < d2.len() - 1 implies p.load(#[trigger] d2[k]) + p.demand(
                d2[k + 1][0],
            ) > budget by {
                assert(d2[k] == done[k]);
                if k + 1 < done.len() {
                    assert(d2[k + 1] == done[k + 1]);
                } else {
                    assert(d2[k + 1] == cur);
                }
            }
        }
    }
}

/// Cutting a visit order into routes keeps the order: the routes read one
/// after the other give the order back. A route is closed only when the
/// next client does not fit: its load plus the demand of the first client
/// of the next route exceeds the budget.
pub proof fn lemma_split_cuts(p: Problem, order: Seq<usize>, budget: int)
    requires
        budget >= 0,
    ensures
        concat_routes(p.split(order, budget)) == order,
        forall|k: int|
            0 <= k < p.split(order, budget).len() - 1 ==> p.load(#[trigger] p.split(order, budget)[k])
                + p.demand(p.split(order, budget)[k + 1][0]) > budget,
{
    lemma_split_acc_cuts(p, order, budget);
    let (done, cur, _) = p.split_acc(order, budget);
    if cur.len() > 0 {
        let rs = done.push(cur);
        assert(rs.drop_last() =~= done);
        assert forall|k: int| 0 <= k < rs.len() - 1 implies p.load(#[trigger] rs[k]) + p.demand(
            rs[k + 1][0],
        ) > budget by {
            assert(rs[k] == done[k]);
            if k + 1 < done.len() {
                assert(rs[k + 1] == done[k + 1]);
            }
        }
    } else {
        assert(concat_routes(done) + cur =~= concat_routes(done));
    }
}

// ---------------------------------------------------------------------------
// Executable part.
// ---------------------------------------------------------------------------
/// A copy of a route.
pub fn copy_route(r: &Vec<usize>) -> (c: Vec<usize>)
    ensures
        c@ == r@,
{
    let mut c: Vec<usize> = Vec::new();
    let mut k: usize = 0;
    while k < r.len()
        invariant
            k <= r@.len(),
            c@ == r@.take(k as int),
        decreases r@.len() - k,
    {
        c.push(r[k]);
        k = k + 1;
        assert(c@ =~= r@.take(k as int));
    }
    assert(r@.take(r@.len() as int) =~= r@);
    c
}

/// A copy of a list of routes.
pub fn copy_routes(rs: &Vec<Vec<usize>>) -> (c: Vec<Vec<usize>>)
    ensures
        c@.map_values(|r: Vec<usize>| r@) == rs@.map_values(|r: Vec<usize>| r@),
{
    let mut c: Vec<Vec<usize>> = Vec::new();
    let mut k: usize = 0;
    while k < rs.len()
        invariant
            k <= rs@.len(),
            c@.len() == k,
            forall|j: int| 0 <= j < k ==> (#[trigger] c@[j])@ == rs@[j]@,
        decreases rs@.len() - k,
    {
        c.push(copy_route(&rs[k]));
        k = k + 1;
    }
    assert(c@.map_values(|r: Vec<usize>| r@) =~= rs@.map_values(|r: Vec<usize>| r@));
    c
}

impl Solution {
    /// A copy of this solution.
    pub fn copy(&self) -> (r: Solution)
        ensures
            r@ == self@,
    {
        Solution { routes: copy_routes(&self.routes) }
    }
}

impl Problem {
    /// The problem of an instance: its clients, its first depot and its
    /// capacity. The instance must have a depot.
    pub fn new(input: InputData) -> (r: Problem)
        requires
            input.repositories@.len() > 0,
        ensures
            r.clients@ == input.clients@,
            r.repo == input.repositories@[0],
            r.max_capacity == input.max_quantity,
    {
        let mut repositories = input.repositories;
        let repo = repositories.remove(0);
        Problem { clients: input.clients, repo, max_capacity: input.max_quantity }
    }

    /// The total demand of the clients of `route`.
    pub fn route_demand(&self, route: &[usize]) -> (r: Int)
        requires
            forall|j: int| 0 <= j < route@.len() ==> #[trigger] route@[j] < self.clients@.len(),
            self.load(route@) <= Int::MAX,
        ensures
            r == self.load(route@),
    {
        let mut total: u64 = 0;
        let mut k: usize = 0;
        while k < route.len()
            invariant
                k <= route@.len(),
                forall|j: int| 0 <= j < route@.len() ==> #[trigger] route@[j] < self.clients@.len(),
                total == self.load(route@.take(k as int)),
                self.load(route@) <= Int::MAX,
            decreases route@.len() - k,
        {
            assert(route@.take(k + 1).drop_last() =~= route@.take(k as int));
            proof {
                lemma_load_concat(*self, route@.take(k + 1), route@.skip(k + 1));
                assert(route@ =~= route@.take(k + 1) + route@.skip(k + 1));
                lemma_load_nonneg(*self, route@.skip(k + 1));
            }
            total = total + self.clients[route[k]].demand as u64;
            k = k + 1;
        }
        assert(route@.take(route@.len() as int) =~= route@);
        total as Int
    }

    /// The total demand of the clients of `route`, computed without bound.
    pub fn route_load(&self, route: &Vec<usize>) -> (r: u128)
        requires
            forall|j: int| 0 <= j < route@.len() ==> #[trigger] route@[j] < self.clients@.len(),
        ensures
            r == self.load(route@),
            r < 0x1_0000_0000_0000_0000_0000_0000u128,
    {
        let mut total: u128 = 0;
        let mut k: usize = 0;
        let n: usize = route.len();
        while k < n
            invariant
                n == route@.len(),
                k <= n,
                forall|j: int| 0 <= j < route@.len() ==> #[trigger] route@[j] < self.clients@.len(),
                total == self.load(route@.take(k as int)),
                total <= k * 0xffff_ffffu128,
            decreases route@.len() - k,
        {
            assert(route@.take(k + 1).drop_last() =~= route@.take(k as int));
            assert(k * 0xffff_ffffu128 <= 0xffff_ffff_ffff_ffffu128 * 0xffff_ffffu128) by (nonlinear_arith)
                requires
                    k <= 0xffff_ffff_ffff_ffffu128,
            ;
            total = total + self.clients[route[k]].demand as u128;
            k = k + 1;
        }
        assert(route@.take(route@.len() as int) =~= route@);
        assert(n * 0xffff_ffffu128 < 0x1_0000_0000_0000_0000_0000_0000u128) by (nonlinear_arith)
            requires
                n <= 0xffff_ffff_ffff_ffffu128,
        ;
        total
    }

    /// The coordinates of a node: node 0 is the depot, node `i + 1` client `i`.
    pub fn node_coords(&self, node: usize) -> (r: (Int, Int))
        requires
            node <= self.clients@.len(),
        ensures
            r == self.node_xy(node),
    {
        if node == 0 {
            (self.repo.x, self.repo.y)
        } else {
            (self.clients[node - 1].x, self.clients[node - 1].y)
        }
    }

    /// The square of the distance between two nodes (node 0 is the depot,
    /// node `i + 1` client `i`).
    pub fn node_sq_dist(&self, a: usize, b: usize) -> (r: u128)
        requires
            a <= self.clients@.len(),
            b <= self.clients@.len(),
        ensures
            r == sq_dist(self.node_xy(a), self.node_xy(b)),
    {
        squared_distance(self.node_coords(a), self.node_coords(b))
    }
}

pub proof fn lemma_load_nonneg(p: Problem, s: Seq<usize>)
    ensures
        p.load(s) >= 0,
    decreases s.len(),
{
    if s.len() > 0 {
        lemma_load_nonneg(p, s.drop_last());
    }
}

/// The square of the Euclidean distance between two points.
pub fn squared_distance(a: (Int, Int), b: (Int, Int)) -> (r: u128)
    ensures
        r == sq_dist(a, b),
{
    let dx: u128 = if a.0 >= b.0 {
        (a.0 - b.0) as u128
    } else {
        (b.0 - a.0) as u128
    };
    let dy: u128 = if a.1 >= b.1 {
        (a.1 - b.1) as u128
    } else {
        (b.1 - a.1) as u128
    };
    assert(dx * dx == (a.0 - b.0) * (a.0 - b.0)) by (nonlinear_arith)
        requires
            dx == a.0 - b.0 || dx == b.0 - a.0,
    ;
    assert(dy * dy == (a.1 - b.1) * (a.1 - b.1)) by (nonlinear_arith)
        requires
            dy == a.1 - b.1 || dy == b.1 - a.1,
    ;
    assert(dx * dx <= 0xffff_ffff * 0xffff_ffff) by (nonlinear_arith)
        requires
            dx <= 0xffff_ffff,
    ;
    assert(dy * dy <= 0xffff_ffff * 0xffff_ffff) by (nonlinear_arith)
        requires
            dy <= 0xffff_ffff,
    ;
    dx * dx + dy * dy
}

impl Solution {
    /// Cuts a visit order into routes: a client joins the current route while
    /// its load stays within four fifths of the capacity, else it opens a new
    /// route (when the very first client opens one, an empty route is kept
    /// before it).
    pub fn from_visit_order(problem: &Problem, order: &Vec<usize>) -> (r: Solution)
        requires
            forall|j: int| 0 <= j < order@.len() ==> #[trigger] order@[j] < problem.clients@.len(),
        ensures
            r@ == problem.split(order@, random_budget(problem.max_capacity)),
    {
        let budget: u64 = problem.max_capacity as u64 * 4 / 5;
        let ghost b = random_budget(problem.max_capacity);
        let mut routes: Vec<Vec<usize>> = Vec::new();
        let mut current: Vec<usize> = Vec::new();
        let mut used: u64 = 0;
        let mut k: usize = 0;
        while k < order.len()
            invariant
                k <= order@.len(),
                budget == b,
                0 <= b <= Int::MAX,
                forall|j: int| 0 <= j < order@.len() ==> #[trigger] order@[j] < problem.clients@.len(),
                problem.split_acc(order@.take(k as int), b) == (
                    routes@.map_values(|r: Vec<usize>| r@),
                    current@,
                    used as int,
                ),
                used <= Int::MAX,
            decreases order@.len() - k,
        {
            assert(order@.take(k + 1).drop_last() =~= order@.take(k as int));
            let i: usize = order[k];
            let d: u64 = problem.clients[i].demand as u64;
            if used + d <= budget {
                current.push(i);
                used = used + d;
            } else {
                let ghost old_routes = routes@;
                let ghost old_current = current@;
                routes.push(current);
                current = Vec::new();
                current.push(i);
                used = d;
                assert(current@ =~= seq![i]);
                assert(routes@.map_values(|r: Vec<usize>| r@) =~= old_routes.map_values(
                    |r: Vec<usize>| r@,
                ).push(old_current));
            }
            k = k + 1;
        }
        assert(order@.take(order@.len() as int) =~= order@);
        if current.len() > 0 {
            routes.push(current);
        }
        let r = Solution { routes };
        assert(r@ =~= problem.split(order@, b));
        r
    }

    /// A random solution: the clients in a random order, cut into routes by
    /// `from_visit_order`. Every client is visited exactly once, and every
    /// route carries at most four fifths of the capacity unless it holds a
    /// single client.
    pub fn random(problem: &Problem) -> (r: Solution)
        ensures
            exists|order: Seq<usize>|
                #![trigger problem.split(order, random_budget(problem.max_capacity))]
                order.to_multiset() == identity_seq(problem.clients@.len()).to_multiset() && r@
                    == problem.split(order, random_budget(problem.max_capacity)),
            is_partition(r@, problem.clients@.len()),
            forall|k: int|
                0 <= k < r@.len() ==> (#[trigger] r@[k]).len() <= 1 || problem.load(r@[k])
                    <= random_budget(problem.max_capacity),
            forall|k: int| 1 <= k < r@.len() ==> (#[trigger] r@[k]).len() > 0,
            r@.len() > 0 && r@[0].len() == 0 ==> exists|c: usize|
                c < problem.clients@.len() && #[trigger] problem.demand(c) > random_budget(
                    problem.max_capacity,
                ),
    {
        let n: usize = problem.clients.len();
        let mut order: Vec<usize> = Vec::new();
        let mut k: usize = 0;
        while k < n
            invariant
                n == problem.clients@.len(),
                k <= n,
                order@ == identity_seq(k as nat),
            decreases n - k,
        {
            order.push(k);
            k = k + 1;
            assert(order@ =~= identity_seq(k as nat));
        }
        let ghost identity = order@;
        shuffle(&mut order);
        proof {
            assert forall|j: int| 0 <= j < order@.len() implies #[trigger] order@[j] < n by {
                order@.to_multiset_ensures();
                lemma_identity_multiset(n as nat);
                assert(order@.contains(order@[j]));
                assert(identity.to_multiset().count(order@[j]) > 0);
            }
        }
        let r = Solution::from_visit_order(problem, &order);
        proof {
            lemma_split_multiset(*problem, order@, random_budget(problem.max_capacity));
            lemma_split_within_budget(*problem, order@, random_budget(problem.max_capacity));
            lemma_split_shape(*problem, order@, random_budget(problem.max_capacity));
            lemma_identity_multiset(n as nat);
            if r@.len() > 0 && r@[0].len() == 0 {
                assert(order@[0] < n);
                assert(problem.demand(order@[0]) > random_budget(problem.max_capacity));
            }
            assert(order@.to_multiset() == identity_seq(n as nat).to_multiset());
        }
        r
    }
}

/// The indices `0..n` in increasing order.
pub open spec fn identity_seq(n: nat) -> Seq<usize> {
    Seq::new(n, |j: int| j as usize)
}

/// The indices `0..n`, each once.
pub proof fn lemma_identity_multiset(n: nat)
    requires
        n <= usize::MAX,
    ensures
        forall|c: usize| #[trigger] identity_seq(n).to_multiset().count(c) == if c
            < n {
            1nat
        } else {
            0nat
        },
    decreases n,
{
    broadcast use vstd::seq_lib::group_to_multiset_ensures;

    let s = identity_seq(n);
    if n == 0 {
        assert(s =~= Seq::<usize>::empty());
        assert(s.to_multiset() =~= Multiset::empty());
    } else {
        lemma_identity_multiset((n - 1) as nat);
        let t = identity_seq((n - 1) as nat);
        assert(s =~= t.push((n - 1) as usize));
    }
}

} // verus!

verus! {

// ---------------------------------------------------------------------------
// The greedy (nearest neighbour) construction.
// ---------------------------------------------------------------------------
/// Client `i` may be appended: it is a client, not visited yet, and its
/// demand fits in what the vehicle has left.
pub open spec fn greedy_ok(p: Problem, visited: Seq<bool>, cap_left: int, i: usize) -> bool {
    i < p.clients@.len() && !visited[i as int] && p.demand(i) <= cap_left
}

/// From `pos`, client `a` is preferred to client `b`: it is nearer, or as
/// near with a smaller index.
pub open spec fn nearer_from(p: Problem, pos: (Int, Int), a: usize, b: usize) -> bool {
    let da = sq_dist(pos, (p.clients@[a as int].x, p.clients@[a as int].y));
    let db = sq_dist(pos, (p.clients@[b as int].x, p.clients@[b as int].y));
    da < db || (da == db && a < b)
}

/// `i` is the client the greedy construction appends: the preferred one
/// among those that may be appended.
pub open spec fn greedy_pick(p: Problem, visited: Seq<bool>, cap_left: int, pos: (Int, Int), i: usize) -> bool {
    &&& greedy_ok(p, visited, cap_left, i)
    &&& forall|j: usize| #[trigger] greedy_ok(p, visited, cap_left, j) && j != i ==> nearer_from(p, pos, i, j)
}

/// No client may be appended.
pub open spec fn greedy_stuck(p: Problem, visited: Seq<bool>, cap_left: int) -> bool {
    forall|j: usize| !(#[trigger] greedy_ok(p, visited, cap_left, j))
}

/// Which clients the routes `rs` visit.
pub open spec fn visited_by(rs: Seq<Seq<usize>>, n: nat) -> Seq<bool> {
    Seq::new(n, |i: int| routes_multiset(rs).count(i as usize) > 0)
}

/// Where a vehicle stands after the first `t` clients of `route`: the depot,
/// or the last of them.
pub open spec fn position_after(p: Problem, route: Seq<usize>, t: int) -> (Int, Int) {
    if t == 0 {
        (p.repo.x, p.repo.y)
    } else {
        (p.clients@[route[t - 1] as int].x, p.clients@[route[t - 1] as int].y)
    }
}

/// `route`, built after the routes `prev`, is greedy: each of its clients is
/// the greedy pick at its turn, and, when it is closed, no client could be
/// appended to it.
pub open spec fn greedy_route(p: Problem, prev: Seq<Seq<usize>>, route: Seq<usize>, closed: bool) -> bool {
    let n = p.clients@.len();
    &&& forall|t: int|
        0 <= t < route.len() ==> greedy_pick(
            p,
            visited_by(prev.push(route.take(t)), n),
            p.max_capacity - p.load(route.take(t)),
            position_after(p, route, t),
            #[trigger] route[t],
        )
    &&& closed ==> greedy_stuck(
        p,
        visited_by(prev.push(route), n),
        p.max_capacity - p.load(route),
    )
}

/// The routes of the greedy construction: each one non-empty and greedy
/// given the ones before it.
pub open spec fn is_greedy(p: Problem, rs: Seq<Seq<usize>>) -> bool {
    forall|r: int| 0 <= r < rs.len() ==> (#[trigger] rs[r]).len() > 0 && greedy_route(p, rs.take(r), rs[r], true)
}

pub open spec fn count_unvisited(v: Seq<bool>) -> nat
    decreases v.len(),
{
    if v.len() == 0 {
        0
    } else {
        count_unvisited(v.drop_last()) + if v.last() {
            0nat
        } else {
            1nat
        }
    }
}

proof fn lemma_count_unvisited_set(v: Seq<bool>, i: int)
    requires
        0 <= i < v.len(),
        !v[i],
    ensures
        count_unvisited(v.update(i, true)) + 1 == count_unvisited(v),
    decreases v.len(),
{
    if i == v.len() - 1 {
        assert(v.update(i, true).drop_last() =~= v.drop_last());
    } else {
        assert(v.update(i, true).drop_last() =~= v.drop_last().update(i, true));
        lemma_count_unvisited_set(v.drop_last(), i);
    }
}

proof fn lemma_count_unvisited_pos(v: Seq<bool>) -> (i: int)
    requires
        count_unvisited(v) > 0,
    ensures
        0 <= i < v.len(),
        !v[i],
    decreases v.len(),
{
    if v.last() {
        let j = lemma_count_unvisited_pos(v.drop_last());
        j
    } else {
        v.len() - 1
    }
}

proof fn lemma_count_unvisited_zero(v: Seq<bool>, i: int)
    requires
        count_unvisited(v) == 0,
        0 <= i < v.len(),
    ensures
        v[i],
    decreases v.len(),
{
    if i < v.len() - 1 {
        lemma_count_unvisited_zero(v.drop_last(), i);
    }
}

proof fn lemma_count_unvisited_le(v: Seq<bool>)
    ensures
        count_unvisited(v) <= v.len(),
    decreases v.len(),
{
    if v.len() > 0 {
        lemma_count_unvisited_le(v.drop_last());
    }
}

/// The routes visit each client at most once, and the flags say which.
pub open spec fn tracks(rs: Seq<Seq<usize>>, visited: Seq<bool>) -> bool {
    forall|c: usize| #[trigger] routes_multiset(rs).count(c) == if c < visited.len() && visited[c as int] {
        1nat
    } else {
        0nat
    }
}

proof fn lemma_tracks_visited_by(rs: Seq<Seq<usize>>, visited: Seq<bool>)
    requires
        tracks(rs, visited),
        visited.len() <= usize::MAX,
    ensures
        visited_by(rs, visited.len()) == visited,
{
    assert forall|i: int| 0 <= i < visited.len() implies visited_by(rs, visited.len())[i] == visited[i] by {
        assert(routes_multiset(rs).count(i as usize) == if visited[i] {
            1nat
        } else {
            0nat
        });
    }
    assert(visited_by(rs, visited.len()) =~= visited);
}

impl Solution {
    /// The nearest-neighbour construction: each route starts at the depot
    /// and repeatedly goes to the nearest client (smallest index among the
    /// nearest) not visited yet whose demand fits in what the vehicle has
    /// left; when no client fits, the route is closed and a new one starts,
    /// until every client is visited. Every client's demand must fit in an
    /// empty vehicle, or the construction would never end.
    pub fn greedy(problem: &Problem) -> (r: Solution)
        requires
            forall|i: int| 0 <= i < problem.clients@.len() ==> #[trigger] problem.clients@[i].demand
                <= problem.max_capacity,
        ensures
            is_greedy(*problem, r@),
            is_partition(r@, problem.clients@.len()),
            problem.all_fit(r@),
    {
        let n: usize = problem.clients.len();
        let ghost nn = n as nat;
        let mut visited: Vec<bool> = Vec::new();
        let mut z: usize = 0;
        while z < n
            invariant
                z <= n,
                visited@.len() == z,
                forall|j: int| 0 <= j < z ==> !visited@[j],
                count_unvisited(visited@) == z,
            decreases n - z,
        {
            let ghost before = visited@;
            visited.push(false);
            z = z + 1;
            assert(visited@.drop_last() =~= before);
        }
        let mut routes: Vec<Vec<usize>> = Vec::new();
        let mut remaining: usize = n;
        proof {
            let rs0 = routes@.map_values(|r: Vec<usize>| r@);
            assert(rs0 =~= Seq::<Seq<usize>>::empty());
            assert(routes_multiset(rs0) =~= Multiset::empty());
            assert(tracks(rs0, visited@));
        }
        while remaining > 0
            invariant
                n == problem.clients@.len(),
                nn == n,
                forall|i: int| 0 <= i < problem.clients@.len() ==> #[trigger] problem.clients@[i].demand
                    <= problem.max_capacity,
                visited@.len() == n,
                remaining == count_unvisited(visited@),
                tracks(routes@.map_values(|r: Vec<usize>| r@), visited@),
                is_greedy(*problem, routes@.map_values(|r: Vec<usize>| r@)),
                problem.all_fit(routes@.map_values(|r: Vec<usize>| r@)),
            decreases remaining,
        {
            let ghost prev = routes@.map_values(|r: Vec<usize>| r@);
            let mut route: Vec<usize> = Vec::new();
            let mut cap_left: Int = problem.max_capacity;
            let mut pos: (Int, Int) = (problem.repo.x, problem.repo.y);
            let mut go: bool = true;
            let ghost start_remaining = remaining;
            proof {
                lemma_routes_multiset_push(prev, route@);
                assert(route@.to_multiset() =~= Multiset::empty()) by {
                    route@.to_multiset_ensures();
                }
                assert(routes_multiset(prev.push(route@)) =~= routes_multiset(prev));
                assert forall|t: int| 0 <= t < route@.len() implies greedy_pick(
                    *problem,
                    visited_by(prev.push(route@.take(t)), nn),
                    problem.max_capacity - problem.load(route@.take(t)),
                    position_after(*problem, route@, t),
                    #[trigger] route@[t],
                ) by {}
            }
            while go
                invariant
                    n == problem.clients@.len(),
                    nn == n,
                    forall|i: int| 0 <= i < problem.clients@.len() ==> #[trigger] problem.clients@[i].demand
                        <= problem.max_capacity,
                    visited@.len() == n,
                    remaining == count_unvisited(visited@),
                    remaining <= start_remaining,
                    route@.len() == 0 ==> remaining == start_remaining,
                    route@.len() > 0 ==> remaining < start_remaining,
                    start_remaining > 0,
                    prev == routes@.map_values(|r: Vec<usize>| r@),
                    tracks(prev.push(route@), visited@),
                    is_greedy(*problem, prev),
                    problem.all_fit(prev),
                    greedy_route(*problem, prev, route@, !go),
                    cap_left == problem.max_capacity - problem.load(route@),
                    pos == position_after(*problem, route@, route@.len() as int),
                decreases remaining * 2 + if go {
                    1int
                } else {
                    0int
                },
            {
                proof {
                    lemma_tracks_visited_by(prev.push(route@), visited@);
                }
                let ghost vis = visited@;
                // The preferred client that may be appended.
                let mut best: usize = n;
                let mut best_d: u128 = 0;
                let mut i: usize = 0;
                while i < n
                    invariant
                        n == problem.clients@.len(),
                        visited@ == vis,
                        vis.len() == n,
                        i <= n,
                        best == n || (best < i && greedy_ok(*problem, vis, cap_left as int, best)
                            && best_d == sq_dist(
                            pos,
                            (problem.clients@[best as int].x, problem.clients@[best as int].y),
                        )),
                        forall|j: usize|
                            j < i && #[trigger] greedy_ok(*problem, vis, cap_left as int, j) ==> best
                                < n && (j == best || nearer_from(*problem, pos, best, j)),
                    decreases n - i,
                {
                    if !visited[i] && problem.clients[i].demand <= cap_left {
                        let d: u128 = squared_distance(pos, (problem.clients[i].x, problem.clients[i].y));
                        if best == n || d < best_d {
                            let ghost old_best = best;
                            best = i;
                            best_d = d;
                            proof {
                                assert forall|j: usize|
                                    j < i + 1 && #[trigger] greedy_ok(*problem, vis, cap_left as int, j) implies best
                                    < n && (j == best || nearer_from(*problem, pos, best, j)) by {
                                    if j < i && old_best < n && j != old_best {
                                        assert(nearer_from(*problem, pos, old_best, j));
                                    }
                                }
                            }
                        }
                    }
                    i = i + 1;
                }
                if best < n {
                    let ghost r0 = route@;
                    let ghost v0 = visited@;
                    proof {
                        lemma_count_unvisited_set(v0, best as int);
                    }
                    route.push(best);
                    visited.set(best, true);
                    cap_left = cap_left - problem.clients[best].demand;
                    pos = (problem.clients[best].x, problem.clients[best].y);
                    remaining = remaining - 1;
                    proof {
                        assert(route@.drop_last() =~= r0);
                        assert(route@.take(r0.len() as int) =~= r0);
                        assert forall|t: int| 0 <= t < route@.len() implies greedy_pick(
                            *problem,
                            visited_by(prev.push(route@.take(t)), nn),
                            problem.max_capacity - problem.load(route@.take(t)),
                            position_after(*problem, route@, t),
                            #[trigger] route@[t],
                        ) by {
                            if t < r0.len() {
                                assert(route@.take(t) =~= r0.take(t));
                                assert(position_after(*problem, route@, t) == position_after(
                                    *problem,
                                    r0,
                                    t,
                                ));
                                assert(route@[t] == r0[t]);
                            } else {
                                assert(position_after(*problem, route@, t) == position_after(
                                    *problem,
                                    r0,
                                    t,
                                ));
                            }
                        }
                        lemma_routes_multiset_push(prev, r0);
                        lemma_routes_multiset_push(prev, route@);
                        vstd::seq_lib::to_multiset_build(r0, best);
                        assert forall|c: usize| #[trigger] routes_multiset(prev.push(route@)).count(c)
                            == if c < visited@.len() && visited@[c as int] {
                            1nat
                        } else {
                            0nat
                        } by {
                            assert(routes_multiset(prev.push(r0)).count(c) == if c < v0.len()
                                && v0[c as int] {
                                1nat
                            } else {
                                0nat
                            });
                        }
                        assert(problem.load(route@) == problem.load(r0) + problem.demand(best));
                    }
                } else {
                    go = false;
                    proof {
                        assert forall|j: usize| !(#[trigger] greedy_ok(*problem, vis, cap_left as int, j)) by {
                            if greedy_ok(*problem, vis, cap_left as int, j) {
                                assert(j < n);
                            }
                        }
                        if route@.len() == 0 {
                            let w = lemma_count_unvisited_pos(vis);
                            assert(problem.clients@[w].demand <= problem.max_capacity);
                            assert(problem.load(route@) == 0);
                            assert(greedy_ok(*problem, vis, cap_left as int, w as usize));
                        }
                    }
                }
            }
            let ghost closed = route@;
            proof {
                assert(closed.len() > 0) by {
                    if closed.len() == 0 {
                        let w = lemma_count_unvisited_pos(visited@);
                        lemma_tracks_visited_by(prev.push(route@), visited@);
                        assert(problem.clients@[w].demand <= problem.max_capacity);
                        assert(problem.load(route@) == 0);
                        assert(greedy_ok(*problem, visited_by(prev.push(route@), nn), cap_left as int, w as usize));
                    }
                }
                lemma_greedy_route_load(*problem, prev, closed);
            }
            routes.push(route);
            proof {
                let rs = routes@.map_values(|r: Vec<usize>| r@);
                assert(rs =~= prev.push(closed));
                assert forall|r: int| 0 <= r < rs.len() implies (#[trigger] rs[r]).len() > 0 && greedy_route(
                    *problem,
                    rs.take(r),
                    rs[r],
                    true,
                ) by {
                    if r < prev.len() {
                        assert(rs.take(r) =~= prev.take(r));
                    } else {
                        assert(rs.take(r) =~= prev);
                    }
                }
            }
        }
        let r = Solution { routes };
        proof {
            let rs = r@;
            assert forall|c: usize| #[trigger] routes_multiset(rs).count(c) == if c < n {
                1nat
            } else {
                0nat
            } by {
                if c < n {
                    lemma_count_unvisited_zero(visited@, c as int);
                }
            }
        }
        r
    }
}

/// The load of a greedy route stays within the capacity: every client was
/// appended when its demand fitted in what was left.
proof fn lemma_greedy_route_load(p: Problem, prev: Seq<Seq<usize>>, route: Seq<usize>)
    requires
        greedy_route(p, prev, route, false),
    ensures
        p.load(route) <= p.max_capacity,
    decreases route.len(),
{
    if route.len() > 0 {
        let t = route.len() - 1;
        assert(route.take(t) =~= route.drop_last());
        assert(greedy_pick(
            p,
            visited_by(prev.push(route.take(t)), p.clients@.len()),
            p.max_capacity - p.load(route.take(t)),
            position_after(p, route, t),
            route[t],
        ));
    }
}

} // verus!

verus! {

impl Solution {
    /// Whether every index of every route names a client of `problem`.
    pub fn indices_valid(&self, problem: &Problem) -> (r: bool)
        ensures
            r == problem.indices_valid(self@),
    {
        let n: usize = problem.clients.len();
        let mut k: usize = 0;
        while k < self.routes.len()
            invariant
                n == problem.clients@.len(),
                k <= self@.len(),
                self@.len() == self.routes@.len(),
                forall|a: int, j: int|
                    0 <= a < k && 0 <= j < self@[a].len() ==> #[trigger] self@[a][j] < n,
            decreases self@.len() - k,
        {
            let route = &self.routes[k];
            assert(self@[k as int] == route@);
            let mut j: usize = 0;
            while j < route.len()
                invariant
                    n == problem.clients@.len(),
                    k < self@.len(),
                    self@[k as int] == route@,
                    j <= route@.len(),
                    forall|q: int| 0 <= q < j ==> #[trigger] route@[q] < n,
                decreases route@.len() - j,
            {
                if route[j] >= n {
                    return false;
                }
                j = j + 1;
            }
            k = k + 1;
        }
        true
    }
}

} // verus!
