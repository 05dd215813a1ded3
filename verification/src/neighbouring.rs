//! Neighbourhood moves on solutions: moving a client to another route
//! (relocate), reversing a stretch of a route (2-opt) and exchanging two
//! clients of different routes (swap). Each move keeps every client visited
//! exactly once and never overloads a vehicle.
use rand::rngs::StdRng;
use vstd::multiset::Multiset;
use vstd::prelude::*;

use crate::problem::{
    copy_route, copy_routes, lemma_all_fit_non_empty, lemma_load_remove, lemma_load_insert,
    lemma_load_reverse, lemma_load_concat, lemma_load_update, lemma_non_empty_members,
    lemma_routes_multiset_non_empty, lemma_routes_multiset_push, lemma_routes_multiset_update,
    non_empty, routes_multiset, Problem, Solution,
};
use crate::rng::{choose_in, gen_below, gen_upto};

verus! {

broadcast use vstd::multiset::group_multiset_axioms;

/// The route `s` with its stretch `i..=j` reversed.
pub open spec fn reverse_segment(s: Seq<usize>, i: int, j: int) -> Seq<usize> {
    s.take(i) + s.subrange(i, j + 1).reverse() + s.skip(j + 1)
}

/// Client `rs[from][pf]` moved to position `pt` of route `to`; routes left
/// empty are then dropped.
pub open spec fn relocated(rs: Seq<Seq<usize>>, from: int, pf: int, to: int, pt: int) -> Seq<
    Seq<usize>,
> {
    let c = rs[from][pf];
    let r1 = rs.update(from, rs[from].remove(pf));
    non_empty(r1.update(to, r1[to].insert(pt, c)))
}

/// Route `ri` with its stretch `i..=j` reversed.
pub open spec fn two_opted(rs: Seq<Seq<usize>>, ri: int, i: int, j: int) -> Seq<Seq<usize>> {
    rs.update(ri, reverse_segment(rs[ri], i, j))
}

/// The clients at `rs[r1][p1]` and `rs[r2][p2]` exchanged.
pub open spec fn swapped(rs: Seq<Seq<usize>>, r1: int, p1: int, r2: int, p2: int) -> Seq<
    Seq<usize>,
> {
    let t = rs.update(r1, rs[r1].update(p1, rs[r2][p2]));
    t.update(r2, t[r2].update(p2, rs[r1][p1]))
}

pub open spec fn relocate_ok(rs: Seq<Seq<usize>>, from: int, pf: int, to: int, pt: int) -> bool {
    &&& 0 <= from < rs.len()
    &&& 0 <= to < rs.len()
    &&& from != to
    &&& 0 <= pf < rs[from].len()
    &&& 0 <= pt <= rs[to].len()
}

pub open spec fn two_opt_ok(rs: Seq<Seq<usize>>, ri: int, i: int, j: int) -> bool {
    0 <= ri < rs.len() && 0 <= i < j < rs[ri].len()
}

pub open spec fn swap_ok(rs: Seq<Seq<usize>>, r1: int, p1: int, r2: int, p2: int) -> bool {
    &&& 0 <= r1 < rs.len()
    &&& 0 <= r2 < rs.len()
    &&& r1 != r2
    &&& 0 <= p1 < rs[r1].len()
    &&& 0 <= p2 < rs[r2].len()
}

// ---------------------------------------------------------------------------
// Laws of the moves.
// ---------------------------------------------------------------------------
/// Reversing a stretch keeps the clients of the route.
pub proof fn lemma_reverse_segment_multiset(s: Seq<usize>, i: int, j: int)
    requires
        0 <= i <= j < s.len(),
    ensures
        reverse_segment(s, i, j).to_multiset() == s.to_multiset(),
        reverse_segment(s, i, j).len() == s.len(),
{
    let a = s.take(i);
    let m = s.subrange(i, j + 1);
    let b = s.skip(j + 1);
    assert(s =~= a + m + b);
    vstd::seq_lib::lemma_multiset_commutative(a + m, b);
    vstd::seq_lib::lemma_multiset_commutative(a, m);
    vstd::seq_lib::lemma_multiset_commutative(a + m.reverse(), b);
    vstd::seq_lib::lemma_multiset_commutative(a, m.reverse());
    m.lemma_reverse_to_multiset();
}

/// Reversing the stretch `i..=j` puts at each position `k` of the stretch
/// the client that was at `i + j - k`, the whole stretch however long, and
/// leaves every other position as it was.
pub proof fn lemma_reverse_segment_elements(s: Seq<usize>, i: int, j: int)
    requires
        0 <= i <= j < s.len(),
    ensures
        reverse_segment(s, i, j).len() == s.len(),
        forall|k: int| i <= k <= j ==> #[trigger] reverse_segment(s, i, j)[k] == s[i + j - k],
        forall|k: int|
            0 <= k < s.len() && (k < i || j < k) ==> #[trigger] reverse_segment(s, i, j)[k] == s[k],
{
    let a = s.take(i);
    let m = s.subrange(i, j + 1).reverse();
    let b = s.skip(j + 1);
    assert forall|k: int| i <= k <= j implies #[trigger] reverse_segment(s, i, j)[k] == s[i + j - k] by {
        assert((a + m)[k] == m[k - i]);
        assert(m[k - i] == s.subrange(i, j + 1)[(j + 1 - i) - 1 - (k - i)]);
    }
    assert forall|k: int| 0 <= k < s.len() && (k < i || j < k) implies #[trigger] reverse_segment(
        s,
        i,
        j,
    )[k] == s[k] by {
        if k < i {
            assert((a + m)[k] == a[k]);
        } else {
            assert((a + m + b)[k] == b[k - (j + 1)]);
        }
    }
}

/// A 2-opt move changes route `ri` only: at each position `k` of the
/// stretch `i..=j` it puts the client that was at `i + j - k`, and every
/// other position of every route keeps its client.
pub proof fn lemma_two_opt_elements(rs: Seq<Seq<usize>>, ri: int, i: int, j: int)
    requires
        two_opt_ok(rs, ri, i, j),
    ensures
        two_opted(rs, ri, i, j).len() == rs.len(),
        forall|r: int| 0 <= r < rs.len() && r != ri ==> #[trigger] two_opted(rs, ri, i, j)[r] == rs[r],
        two_opted(rs, ri, i, j)[ri].len() == rs[ri].len(),
        forall|k: int| i <= k <= j ==> #[trigger] two_opted(rs, ri, i, j)[ri][k] == rs[ri][i + j - k],
        forall|k: int|
            0 <= k < rs[ri].len() && (k < i || j < k) ==> #[trigger] two_opted(rs, ri, i, j)[ri][k]
                == rs[ri][k],
{
    lemma_reverse_segment_elements(rs[ri], i, j);
}

/// A relocation takes client `c = rs[from][pf]` out of route `from` and
/// puts it exactly at position `pt` of route `to`, the clients of `to` from
/// `pt` on moving one place along (so `pt == rs[to].len()` appends it);
/// every other route is left as it was; then the routes left empty are
/// dropped.
pub proof fn lemma_relocate_places_client(rs: Seq<Seq<usize>>, from: int, pf: int, to: int, pt: int)
    requires
        relocate_ok(rs, from, pf, to, pt),
    ensures
        exists|u: Seq<Seq<usize>>|
            {
                &&& relocated(rs, from, pf, to, pt) == non_empty(u)
                &&& u.len() == rs.len()
                &&& forall|r: int| 0 <= r < rs.len() && r != from && r != to ==> #[trigger] u[r] == rs[r]
                &&& u[from].len() + 1 == rs[from].len()
                &&& forall|k: int| 0 <= k < pf ==> #[trigger] u[from][k] == rs[from][k]
                &&& forall|k: int| pf <= k < u[from].len() ==> #[trigger] u[from][k] == rs[from][k + 1]
                &&& u[to].len() == rs[to].len() + 1
                &&& u[to][pt] == rs[from][pf]
                &&& forall|k: int| 0 <= k < pt ==> #[trigger] u[to][k] == rs[to][k]
                &&& forall|k: int| pt < k < u[to].len() ==> #[trigger] u[to][k] == rs[to][k - 1]
            },
{
    let c = rs[from][pf];
    let r1 = rs.update(from, rs[from].remove(pf));
    let u = r1.update(to, r1[to].insert(pt, c));
    assert(r1[to] == rs[to]);
    assert(u[from] == rs[from].remove(pf));
    assert(u[to] == rs[to].insert(pt, c));
    assert(relocated(rs, from, pf, to, pt) == non_empty(u));
}

/// Reversing the same stretch twice gives back the route.
pub proof fn lemma_reverse_segment_involution(s: Seq<usize>, i: int, j: int)
    requires
        0 <= i <= j < s.len(),
    ensures
        reverse_segment(reverse_segment(s, i, j), i, j) == s,
{
    let t = reverse_segment(s, i, j);
    assert(t.take(i) =~= s.take(i));
    assert(t.subrange(i, j + 1) =~= s.subrange(i, j + 1).reverse());
    assert(t.skip(j + 1) =~= s.skip(j + 1));
    assert(s.subrange(i, j + 1).reverse().reverse() =~= s.subrange(i, j + 1));
    assert(reverse_segment(t, i, j) =~= s);
}

/// Reversing a stretch keeps the load of the route.
pub proof fn lemma_reverse_segment_load(p: Problem, s: Seq<usize>, i: int, j: int)
    requires
        0 <= i <= j < s.len(),
    ensures
        p.load(reverse_segment(s, i, j)) == p.load(s),
{
    let a = s.take(i);
    let m = s.subrange(i, j + 1);
    let b = s.skip(j + 1);
    assert(s =~= a + m + b);
    lemma_load_concat(p, a + m, b);
    lemma_load_concat(p, a, m);
    lemma_load_concat(p, a + m.reverse(), b);
    lemma_load_concat(p, a, m.reverse());
    lemma_load_reverse(p, m);
}

/// A relocation visits the same clients, each as often as before.
pub proof fn lemma_relocate_multiset(rs: Seq<Seq<usize>>, from: int, pf: int, to: int, pt: int)
    requires
        relocate_ok(rs, from, pf, to, pt),
    ensures
        routes_multiset(relocated(rs, from, pf, to, pt)) == routes_multiset(rs),
{
    broadcast use vstd::seq_lib::group_to_multiset_ensures;

    let c = rs[from][pf];
    let rf = rs[from].remove(pf);
    let r1 = rs.update(from, rf);
    let rt = r1[to].insert(pt, c);
    let r2 = r1.update(to, rt);
    lemma_routes_multiset_update(rs, from, rf);
    lemma_routes_multiset_update(r1, to, rt);
    lemma_routes_multiset_non_empty(r2);
    vstd::seq_lib::to_multiset_remove(rs[from], pf);
    vstd::seq_lib::to_multiset_insert(r1[to], pt, c);
    assert(rs[from].to_multiset().count(c) > 0) by {
        assert(rs[from].contains(c));
    }
    let m0 = routes_multiset(rs);
    let m1 = routes_multiset(r1);
    let m2 = routes_multiset(r2);
    assert forall|v: usize| #[trigger] m2.count(v) == m0.count(v) by {
        assert(m1.add(rs[from].to_multiset()).count(v) == m0.add(rf.to_multiset()).count(v));
        assert(m2.add(r1[to].to_multiset()).count(v) == m1.add(rt.to_multiset()).count(v));
    }
    assert(m2 =~= m0);
}

/// A relocation overloads no vehicle when the receiving route can take the
/// client.
pub proof fn lemma_relocate_fits(p: Problem, rs: Seq<Seq<usize>>, from: int, pf: int, to: int, pt: int)
    requires
        relocate_ok(rs, from, pf, to, pt),
        p.all_fit(rs),
        p.load(rs[to]) + p.demand(rs[from][pf]) <= p.max_capacity,
    ensures
        p.all_fit(relocated(rs, from, pf, to, pt)),
{
    let c = rs[from][pf];
    let rf = rs[from].remove(pf);
    let r1 = rs.update(from, rf);
    let rt = r1[to].insert(pt, c);
    let r2 = r1.update(to, rt);
    lemma_load_remove(p, rs[from], pf);
    lemma_load_insert(p, r1[to], pt, c);
    assert(p.demand(c) >= 0);
    assert(p.all_fit(r2));
    lemma_all_fit_non_empty(p, r2);
}

/// A 2-opt move visits the same clients, each as often as before.
pub proof fn lemma_two_opt_multiset(rs: Seq<Seq<usize>>, ri: int, i: int, j: int)
    requires
        two_opt_ok(rs, ri, i, j),
    ensures
        routes_multiset(two_opted(rs, ri, i, j)) == routes_multiset(rs),
{
    let r = reverse_segment(rs[ri], i, j);
    lemma_routes_multiset_update(rs, ri, r);
    lemma_reverse_segment_multiset(rs[ri], i, j);
    let m0 = routes_multiset(rs);
    let m1 = routes_multiset(two_opted(rs, ri, i, j));
    assert forall|v: usize| #[trigger] m1.count(v) == m0.count(v) by {
        assert(m1.add(rs[ri].to_multiset()).count(v) == m0.add(r.to_multiset()).count(v));
    }
    assert(m1 =~= m0);
}

/// A 2-opt move changes no load.
pub proof fn lemma_two_opt_fits(p: Problem, rs: Seq<Seq<usize>>, ri: int, i: int, j: int)
    requires
        two_opt_ok(rs, ri, i, j),
        p.all_fit(rs),
    ensures
        p.all_fit(two_opted(rs, ri, i, j)),
{
    lemma_reverse_segment_load(p, rs[ri], i, j);
}

/// Doing the same 2-opt move twice gives back the solution.
pub proof fn lemma_two_opt_involution(rs: Seq<Seq<usize>>, ri: int, i: int, j: int)
    requires
        two_opt_ok(rs, ri, i, j),
    ensures
        two_opted(two_opted(rs, ri, i, j), ri, i, j) == rs,
{
    lemma_reverse_segment_involution(rs[ri], i, j);
    assert(two_opted(two_opted(rs, ri, i, j), ri, i, j) =~= rs);
}

/// A swap visits the same clients, each as often as before.
pub proof fn lemma_swap_multiset(rs: Seq<Seq<usize>>, r1: int, p1: int, r2: int, p2: int)
    requires
        swap_ok(rs, r1, p1, r2, p2),
    ensures
        routes_multiset(swapped(rs, r1, p1, r2, p2)) == routes_multiset(rs),
{
    broadcast use vstd::seq_lib::group_to_multiset_ensures;

    let c1 = rs[r1][p1];
    let c2 = rs[r2][p2];
    let a = rs[r1].update(p1, c2);
    let t = rs.update(r1, a);
    let b = t[r2].update(p2, c1);
    let u = t.update(r2, b);
    lemma_routes_multiset_update(rs, r1, a);
    lemma_routes_multiset_update(t, r2, b);
    vstd::seq_lib::to_multiset_update(rs[r1], p1, c2);
    vstd::seq_lib::to_multiset_update(rs[r2], p2, c1);
    assert(t[r2] == rs[r2]);
    assert(rs[r1].to_multiset().count(c1) > 0) by {
        assert(rs[r1].contains(c1));
    }
    assert(rs[r2].to_multiset().count(c2) > 0) by {
        assert(rs[r2].contains(c2));
    }
    let m0 = routes_multiset(rs);
    let m1 = routes_multiset(t);
    let m2 = routes_multiset(u);
    assert forall|v: usize| #[trigger] m2.count(v) == m0.count(v) by {
        assert(m1.add(rs[r1].to_multiset()).count(v) == m0.add(a.to_multiset()).count(v));
        assert(m2.add(t[r2].to_multiset()).count(v) == m1.add(b.to_multiset()).count(v));
    }
    assert(m2 =~= m0);
}

/// A swap overloads no vehicle when both routes can take their new client.
pub proof fn lemma_swap_fits(p: Problem, rs: Seq<Seq<usize>>, r1: int, p1: int, r2: int, p2: int)
    requires
        swap_ok(rs, r1, p1, r2, p2),
        p.all_fit(rs),
        p.load(rs[r1]) - p.demand(rs[r1][p1]) + p.demand(rs[r2][p2]) <= p.max_capacity,
        p.load(rs[r2]) - p.demand(rs[r2][p2]) + p.demand(rs[r1][p1]) <= p.max_capacity,
    ensures
        p.all_fit(swapped(rs, r1, p1, r2, p2)),
{
    let t = rs.update(r1, rs[r1].update(p1, rs[r2][p2]));
    lemma_load_update(p, rs[r1], p1, rs[r2][p2]);
    lemma_load_update(p, t[r2], p2, rs[r1][p1]);
}

// ---------------------------------------------------------------------------
// The moves themselves.
// ---------------------------------------------------------------------------
/// Reverses the stretch `i..=j` of a route.
pub fn reverse_stretch(route: &mut Vec<usize>, i: usize, j: usize)
    requires
        i <= j < old(route)@.len(),
    ensures
        final(route)@ == reverse_segment(old(route)@, i as int, j as int),
{
    let ghost s = old(route)@;
    let mut a: usize = i;
    let mut b: usize = j;
    while a < b
        invariant
            i <= a,
            b <= j < s.len(),
            a + b == i + j,
            route@.len() == s.len(),
            forall|k: int| 0 <= k < i ==> route@[k] == s[k],
            forall|k: int| j < k < s.len() ==> route@[k] == s[k],
            forall|k: int| a <= k <= b ==> route@[k] == s[k],
            forall|k: int| i <= k < a ==> route@[k] == s[i + j - k],
            forall|k: int| b < k <= j ==> route@[k] == s[i + j - k],
        decreases b + 1 - a,
    {
        let x: usize = route[a];
        let y: usize = route[b];
        route.set(a, y);
        route.set(b, x);
        a = a + 1;
        b = b - 1;
    }
    assert(route@ =~= reverse_segment(s, i as int, j as int));
}

/// The routes `rs` keeps after its empty routes are dropped.
fn drop_empty_routes(rs: &Vec<Vec<usize>>) -> (r: Vec<Vec<usize>>)
    ensures
        r@.map_values(|v: Vec<usize>| v@) == non_empty(rs@.map_values(|v: Vec<usize>| v@)),
{
    let ghost all = rs@.map_values(|v: Vec<usize>| v@);
    let mut out: Vec<Vec<usize>> = Vec::new();
    let mut k: usize = 0;
    while k < rs.len()
        invariant
            k <= rs@.len(),
            all == rs@.map_values(|v: Vec<usize>| v@),
            out@.map_values(|v: Vec<usize>| v@) == non_empty(all.take(k as int)),
        decreases rs@.len() - k,
    {
        assert(all.take(k + 1).drop_last() =~= all.take(k as int));
        if rs[k].len() > 0 {
            let ghost before = out@;
            out.push(copy_route(&rs[k]));
            assert(out@.map_values(|v: Vec<usize>| v@) =~= before.map_values(|v: Vec<usize>| v@).push(
                all[k as int],
            ));
        }
        k = k + 1;
    }
    assert(all.take(rs@.len() as int) =~= all);
    out
}

/// `rs` with route `i` replaced by `r`, as views.
proof fn lemma_view_set(rs: Seq<Vec<usize>>, i: int, r: Vec<usize>)
    requires
        0 <= i < rs.len(),
    ensures
        rs.update(i, r).map_values(|v: Vec<usize>| v@) == rs.map_values(|v: Vec<usize>| v@).update(
            i,
            r@,
        ),
{
    assert(rs.update(i, r).map_values(|v: Vec<usize>| v@) =~= rs.map_values(|v: Vec<usize>| v@).update(
        i,
        r@,
    ));
}

/// Moves the client at position `pos_from` of route `from` to position
/// `pos_to` of route `to`, then drops the routes left empty.
pub fn relocate_move(sol: &Solution, from: usize, pos_from: usize, to: usize, pos_to: usize) -> (r:
    Solution)
    requires
        relocate_ok(sol@, from as int, pos_from as int, to as int, pos_to as int),
    ensures
        r@ == relocated(sol@, from as int, pos_from as int, to as int, pos_to as int),
{
    let mut routes = copy_routes(&sol.routes);
    let mut rf = copy_route(&sol.routes[from]);
    let c: usize = rf.remove(pos_from);
    let mut rt = copy_route(&sol.routes[to]);
    rt.insert(pos_to, c);
    let ghost r0 = routes@;
    routes.set(from, rf);
    proof {
        lemma_view_set(r0, from as int, rf);
    }
    let ghost r1 = routes@;
    routes.set(to, rt);
    proof {
        lemma_view_set(r1, to as int, rt);
    }
    Solution { routes: drop_empty_routes(&routes) }
}

/// Whether route `to` can take the client at position `pos_from` of route
/// `from`: its load plus that client's demand stays within the capacity.
pub fn relocation_fits(sol: &Solution, problem: &Problem, from: usize, pos_from: usize, to: usize) -> (r:
    bool)
    requires
        problem.indices_valid(sol@),
        from < sol@.len(),
        to < sol@.len(),
        pos_from < sol@[from as int].len(),
    ensures
        r == (problem.load(sol@[to as int]) + problem.demand(sol@[from as int][pos_from as int])
            <= problem.max_capacity),
{
    assert(sol@[to as int] == sol.routes@[to as int]@);
    assert(sol@[from as int] == sol.routes@[from as int]@);
    let client: usize = sol.routes[from][pos_from];
    let load: u128 = problem.route_load(&sol.routes[to]);
    load + problem.clients[client].demand as u128 <= problem.max_capacity as u128
}

/// Whether exchanging the client at position `p1` of route `r1` with the
/// client at position `p2` of route `r2` keeps both routes within the
/// capacity.
pub fn swap_fits(sol: &Solution, problem: &Problem, r1: usize, p1: usize, r2: usize, p2: usize) -> (r:
    bool)
    requires
        problem.indices_valid(sol@),
        swap_ok(sol@, r1 as int, p1 as int, r2 as int, p2 as int),
    ensures
        r == (problem.load(sol@[r1 as int]) - problem.demand(sol@[r1 as int][p1 as int])
            + problem.demand(sol@[r2 as int][p2 as int]) <= problem.max_capacity && problem.load(
            sol@[r2 as int],
        ) - problem.demand(sol@[r2 as int][p2 as int]) + problem.demand(sol@[r1 as int][p1 as int])
            <= problem.max_capacity),
{
    assert(sol@[r1 as int] == sol.routes@[r1 as int]@);
    assert(sol@[r2 as int] == sol.routes@[r2 as int]@);
    let c1: usize = sol.routes[r1][p1];
    let c2: usize = sol.routes[r2][p2];
    let d1: u128 = problem.clients[c1].demand as u128;
    let d2: u128 = problem.clients[c2].demand as u128;
    let load1: u128 = problem.route_load(&sol.routes[r1]);
    let load2: u128 = problem.route_load(&sol.routes[r2]);
    proof {
        crate::problem::lemma_load_remove(*problem, sol@[r1 as int], p1 as int);
        crate::problem::lemma_load_remove(*problem, sol@[r2 as int], p2 as int);
        crate::problem::lemma_load_nonneg(*problem, sol@[r1 as int].remove(p1 as int));
        crate::problem::lemma_load_nonneg(*problem, sol@[r2 as int].remove(p2 as int));
    }
    load1 - d1 + d2 <= problem.max_capacity as u128 && load2 - d2 + d1 <= problem.max_capacity as u128
}

/// Reverses the stretch `i..=j` of route `ri`.
pub fn two_opt_move(sol: &Solution, ri: usize, i: usize, j: usize) -> (r: Solution)
    requires
        two_opt_ok(sol@, ri as int, i as int, j as int),
    ensures
        r@ == two_opted(sol@, ri as int, i as int, j as int),
{
    let mut routes = copy_routes(&sol.routes);
    let mut route = copy_route(&sol.routes[ri]);
    reverse_stretch(&mut route, i, j);
    let ghost r0 = routes@;
    routes.set(ri, route);
    proof {
        lemma_view_set(r0, ri as int, route);
    }
    Solution { routes }
}

/// Exchanges the client at position `p1` of route `r1` with the client at
/// position `p2` of route `r2`.
pub fn swap_move(sol: &Solution, r1: usize, p1: usize, r2: usize, p2: usize) -> (r: Solution)
    requires
        swap_ok(sol@, r1 as int, p1 as int, r2 as int, p2 as int),
    ensures
        r@ == swapped(sol@, r1 as int, p1 as int, r2 as int, p2 as int),
{
    let mut routes = copy_routes(&sol.routes);
    let c1: usize = sol.routes[r1][p1];
    let c2: usize = sol.routes[r2][p2];
    let mut a = copy_route(&sol.routes[r1]);
    a.set(p1, c2);
    let mut b = copy_route(&sol.routes[r2]);
    b.set(p2, c1);
    let ghost v0 = routes@;
    routes.set(r1, a);
    proof {
        lemma_view_set(v0, r1 as int, a);
    }
    let ghost v1 = routes@;
    routes.set(r2, b);
    proof {
        lemma_view_set(v1, r2 as int, b);
    }
    Solution { routes }
}

// ---------------------------------------------------------------------------
// Random neighbours.
// ---------------------------------------------------------------------------
/// The indices of the routes of at least `m` clients, in increasing order.
fn routes_of_length_at_least(sol: &Solution, m: usize) -> (r: Vec<usize>)
    ensures
        forall|x: usize| r@.contains(x) <==> (x < sol@.len() && sol@[x as int].len() >= m),
        forall|a: int, b: int| 0 <= a < b < r@.len() ==> r@[a] < r@[b],
        sol@.len() <= usize::MAX,
{
    broadcast use vstd::seq_lib::group_seq_properties;

    let mut out: Vec<usize> = Vec::new();
    let mut k: usize = 0;
    while k < sol.routes.len()
        invariant
            k <= sol@.len(),
            sol@.len() == sol.routes@.len(),
            forall|x: usize| #[trigger] out@.contains(x) <==> (x < k && sol@[x as int].len() >= m),
            forall|a: int, b: int| 0 <= a < b < out@.len() ==> out@[a] < out@[b],
            forall|a: int| 0 <= a < out@.len() ==> out@[a] < k,
        decreases sol@.len() - k,
    {
        assert(sol@[k as int] == sol.routes@[k as int]@);
        let ghost before = out@;
        let long: bool = sol.routes[k].len() >= m;
        if long {
            out.push(k);
        }
        assert forall|x: usize| #[trigger] out@.contains(x) <==> (x < k + 1 && sol@[x as int].len()
            >= m) by {
            if long {
                assert(out@ == before.push(k));
                vstd::seq_lib::lemma_seq_contains_after_push(before, k, x);
            }
            assert(before.contains(x) <==> (x < k && sol@[x as int].len() >= m));
        }
        k = k + 1;
    }
    out
}

/// When a list holds exactly the routes of at least `m` clients and has fewer
/// than two entries, there is at most one such route.
proof fn lemma_short_list(rs: Seq<Seq<usize>>, idx: Seq<usize>, m: nat, a: int, b: int)
    requires
        rs.len() <= usize::MAX,
        forall|x: usize| idx.contains(x) <==> (x < rs.len() && rs[x as int].len() >= m),
        idx.len() < 2,
        route_at_least(rs, a, m),
        route_at_least(rs, b, m),
    ensures
        a == b,
{
    assert(idx.contains(a as usize));
    assert(idx.contains(b as usize));
}

/// `v` without the value `x`.
fn without(v: &Vec<usize>, x: usize) -> (r: Vec<usize>)
    ensures
        forall|y: usize| r@.contains(y) <==> (v@.contains(y) && y != x),
{
    broadcast use vstd::seq_lib::group_seq_properties;

    let mut out: Vec<usize> = Vec::new();
    let mut k: usize = 0;
    while k < v.len()
        invariant
            k <= v@.len(),
            forall|y: usize| #[trigger] out@.contains(y) <==> (v@.take(k as int).contains(y) && y != x),
        decreases v@.len() - k,
    {
        assert(v@.take(k + 1) =~= v@.take(k as int).push(v@[k as int]));
        let ghost before = out@;
        let e: usize = v[k];
        if e != x {
            out.push(e);
        }
        assert forall|y: usize| #[trigger] out@.contains(y) <==> (v@.take(k + 1).contains(y) && y
            != x) by {
            if e != x {
                assert(out@ == before.push(e));
                vstd::seq_lib::lemma_seq_contains_after_push(before, e, y);
            }
            vstd::seq_lib::lemma_seq_contains_after_push(v@.take(k as int), e, y);
            assert(before.contains(y) <==> (v@.take(k as int).contains(y) && y != x));
        }
        k = k + 1;
    }
    assert(v@.take(v@.len() as int) =~= v@);
    out
}

/// Route `a` exists and holds at least `m` clients.
pub open spec fn route_at_least(rs: Seq<Seq<usize>>, a: int, m: nat) -> bool {
    0 <= a < rs.len() && rs[a].len() >= m
}

/// Two different routes hold at least one client each.
pub open spec fn two_non_empty(rs: Seq<Seq<usize>>) -> bool {
    exists|a: int, b: int|
        #![trigger route_at_least(rs, a, 1), route_at_least(rs, b, 1)]
        a != b && route_at_least(rs, a, 1) && route_at_least(rs, b, 1)
}

/// Some route holds at least two clients.
pub open spec fn has_long_route(rs: Seq<Seq<usize>>) -> bool {
    exists|a: int| #[trigger] route_at_least(rs, a, 2)
}

/// Moving client `rs[from][pf]` into the non-empty route `to` would overload
/// that route.
pub open spec fn relocate_refused_at(p: Problem, rs: Seq<Seq<usize>>, from: int, pf: int, to: int) -> bool {
    &&& 0 <= from < rs.len()
    &&& route_at_least(rs, to, 1)
    &&& from != to
    &&& 0 <= pf < rs[from].len()
    &&& p.load(rs[to]) + p.demand(rs[from][pf]) > p.max_capacity
}

/// Some relocation between two non-empty routes would overload its receiving
/// route.
pub open spec fn relocate_refused(p: Problem, rs: Seq<Seq<usize>>) -> bool {
    exists|from: int, pf: int, to: int| #[trigger] relocate_refused_at(p, rs, from, pf, to)
}

/// Exchanging `rs[r1][p1]` and `rs[r2][p2]` would overload one of the two
/// routes.
pub open spec fn swap_refused_at(p: Problem, rs: Seq<Seq<usize>>, r1: int, p1: int, r2: int, p2: int) -> bool {
    &&& swap_ok(rs, r1, p1, r2, p2)
    &&& (p.load(rs[r1]) - p.demand(rs[r1][p1]) + p.demand(rs[r2][p2]) > p.max_capacity
        || p.load(rs[r2]) - p.demand(rs[r2][p2]) + p.demand(rs[r1][p1]) > p.max_capacity)
}

/// Some exchange between two routes would overload one of them.
pub open spec fn swap_refused(p: Problem, rs: Seq<Seq<usize>>) -> bool {
    exists|r1: int, p1: int, r2: int, p2: int| #[trigger] swap_refused_at(p, rs, r1, p1, r2, p2)
}

/// What a random relocation returns: the solution unchanged with no moved
/// client, which happens only when there are not two non-empty routes or
/// when some relocation would overload its receiving route; or a relocation
/// that the receiving route can take, with the moved client.
pub open spec fn relocate_outcome(p: Problem, sol: Seq<Seq<usize>>, r: Seq<Seq<usize>>, moved: Seq<
    usize,
>) -> bool {
    ||| (r == sol && moved == Seq::<usize>::empty() && (!two_non_empty(sol) || relocate_refused(
        p,
        sol,
    )))
    ||| exists|from: int, pf: int, to: int, pt: int|
        #![trigger relocated(sol, from, pf, to, pt)]
        {
            &&& relocate_ok(sol, from, pf, to, pt)
            &&& sol[from].len() > 0 && sol[to].len() > 0
            &&& p.load(sol[to]) + p.demand(sol[from][pf]) <= p.max_capacity
            &&& r == relocated(sol, from, pf, to, pt)
            &&& moved == seq![sol[from][pf]]
        }
}

/// The solution unchanged with no moved client, which happens only when no
/// route holds two clients; or a 2-opt move with the two clients at the ends
/// of the reversed stretch.
pub open spec fn two_opt_outcome(sol: Seq<Seq<usize>>, r: Seq<Seq<usize>>, moved: Seq<usize>) -> bool {
    ||| (r == sol && moved == Seq::<usize>::empty() && !has_long_route(sol))
    ||| exists|ri: int, i: int, j: int|
        #![trigger two_opted(sol, ri, i, j)]
        {
            &&& two_opt_ok(sol, ri, i, j)
            &&& r == two_opted(sol, ri, i, j)
            &&& moved == seq![sol[ri][i], sol[ri][j]]
        }
}

/// The solution unchanged with no moved client, which happens only when
/// there are not two non-empty routes or when some exchange would overload a
/// route; or a swap that both routes can take, with the two exchanged
/// clients.
pub open spec fn swap_outcome(p: Problem, sol: Seq<Seq<usize>>, r: Seq<Seq<usize>>, moved: Seq<usize>) -> bool {
    ||| (r == sol && moved == Seq::<usize>::empty() && (!two_non_empty(sol) || swap_refused(p, sol)))
    ||| exists|r1: int, p1: int, r2: int, p2: int|
        #![trigger swapped(sol, r1, p1, r2, p2)]
        {
            &&& swap_ok(sol, r1, p1, r2, p2)
            &&& p.load(sol[r1]) - p.demand(sol[r1][p1]) + p.demand(sol[r2][p2]) <= p.max_capacity
            &&& p.load(sol[r2]) - p.demand(sol[r2][p2]) + p.demand(sol[r1][p1]) <= p.max_capacity
            &&& r == swapped(sol, r1, p1, r2, p2)
            &&& moved == seq![sol[r1][p1], sol[r2][p2]]
        }
}

/// The properties every neighbour has: the same clients, each as often as
/// before, valid indices, and no vehicle overloaded that was not before.
pub open spec fn keeps_solution(p: Problem, sol: Seq<Seq<usize>>, r: Seq<Seq<usize>>) -> bool {
    &&& routes_multiset(r) == routes_multiset(sol)
    &&& p.all_fit(sol) ==> p.all_fit(r)
}

/// A random relocation: a client of a random non-empty route moves to a
/// random position of another random non-empty route, when that route can
/// take its demand. With fewer than two non-empty routes, or when the
/// receiving route cannot take the client, the solution is returned
/// unchanged.
pub fn random_relocate(sol: &Solution, problem: &Problem, rng: &mut StdRng) -> (r: (
    Solution,
    Vec<usize>,
))
    requires
        problem.indices_valid(sol@),
    ensures
        relocate_outcome(*problem, sol@, r.0@, r.1@),
        keeps_solution(*problem, sol@, r.0@),
{
    let non_empty_idx = routes_of_length_at_least(sol, 1);
    if non_empty_idx.len() < 2 {
        proof {
            assert forall|a: int, b: int|
                route_at_least(sol@, a, 1) && route_at_least(sol@, b, 1) implies a == b by {
                lemma_short_list(sol@, non_empty_idx@, 1, a, b);
            }
        }
        return (sol.copy(), Vec::new());
    }
    let from: usize = match choose_in(&non_empty_idx, rng) {
        Some(f) => f,
        None => {
            return (sol.copy(), Vec::new());
        },
    };
    let pos_from: usize = gen_below(rng, 0, sol.routes[from].len());
    let client: usize = sol.routes[from][pos_from];
    let to_candidates = without(&non_empty_idx, from);
    proof {
        let a = non_empty_idx@[0];
        let b = non_empty_idx@[1];
        assert(non_empty_idx@.contains(a));
        assert(non_empty_idx@.contains(b));
        if a != from {
            assert(to_candidates@.contains(a));
        } else {
            assert(to_candidates@.contains(b));
        }
    }
    let to: usize = match choose_in(&to_candidates, rng) {
        Some(t) => t,
        None => {
            return (sol.copy(), Vec::new());
        },
    };
    if !relocation_fits(sol, problem, from, pos_from, to) {
        proof {
            assert(non_empty_idx@.contains(to));
            assert(relocate_refused_at(*problem, sol@, from as int, pos_from as int, to as int));
        }
        return (sol.copy(), Vec::new());
    }
    let pos_to: usize = gen_upto(rng, 0, sol.routes[to].len());
    let r = relocate_move(sol, from, pos_from, to, pos_to);
    let mut moved: Vec<usize> = Vec::new();
    moved.push(client);
    proof {
        lemma_relocate_multiset(sol@, from as int, pos_from as int, to as int, pos_to as int);
        if problem.all_fit(sol@) {
            lemma_relocate_fits(*problem, sol@, from as int, pos_from as int, to as int, pos_to as int);
        }
        assert(moved@ =~= seq![sol@[from as int][pos_from as int]]);
        assert(relocated(sol@, from as int, pos_from as int, to as int, pos_to as int) == r@);
    }
    (r, moved)
}

/// A random 2-opt move: a stretch of a random route of at least two clients
/// is reversed. With no such route the solution is returned unchanged.
pub fn random_two_opt(sol: &Solution, problem: &Problem, rng: &mut StdRng) -> (r: (Solution, Vec<usize>))
    ensures
        two_opt_outcome(sol@, r.0@, r.1@),
        keeps_solution(*problem, sol@, r.0@),
{
    let long_routes = routes_of_length_at_least(sol, 2);
    let ri: usize = match choose_in(&long_routes, rng) {
        Some(x) => x,
        None => {
            proof {
                assert forall|a: int| !route_at_least(sol@, a, 2) by {
                    if route_at_least(sol@, a, 2) {
                        assert(long_routes@.contains(a as usize));
                    }
                }
            }
            return (sol.copy(), Vec::new());
        },
    };
    assert(sol@[ri as int] == sol.routes@[ri as int]@);
    let n: usize = sol.routes[ri].len();
    let i: usize = gen_below(rng, 0, n - 1);
    let j: usize = gen_below(rng, i + 1, n);
    let ci: usize = sol.routes[ri][i];
    let cj: usize = sol.routes[ri][j];
    let r = two_opt_move(sol, ri, i, j);
    let mut moved: Vec<usize> = Vec::new();
    moved.push(ci);
    moved.push(cj);
    proof {
        lemma_two_opt_multiset(sol@, ri as int, i as int, j as int);
        if problem.all_fit(sol@) {
            lemma_two_opt_fits(*problem, sol@, ri as int, i as int, j as int);
        }
        assert(moved@ =~= seq![sol@[ri as int][i as int], sol@[ri as int][j as int]]);
        assert(two_opted(sol@, ri as int, i as int, j as int) == r@);
    }
    (r, moved)
}

/// A random swap: a random client of a random non-empty route is exchanged
/// with a random client of another random non-empty route, when both routes
/// can take their new client. Otherwise the solution is returned unchanged.
pub fn random_swap(sol: &Solution, problem: &Problem, rng: &mut StdRng) -> (r: (Solution, Vec<usize>))
    requires
        problem.indices_valid(sol@),
    ensures
        swap_outcome(*problem, sol@, r.0@, r.1@),
        keeps_solution(*problem, sol@, r.0@),
{
    let non_empty_idx = routes_of_length_at_least(sol, 1);
    if non_empty_idx.len() < 2 {
        proof {
            assert forall|a: int, b: int|
                route_at_least(sol@, a, 1) && route_at_least(sol@, b, 1) implies a == b by {
                lemma_short_list(sol@, non_empty_idx@, 1, a, b);
            }
        }
        return (sol.copy(), Vec::new());
    }
    let r1: usize = match choose_in(&non_empty_idx, rng) {
        Some(x) => x,
        None => {
            return (sol.copy(), Vec::new());
        },
    };
    let r2_candidates = without(&non_empty_idx, r1);
    proof {
        let a = non_empty_idx@[0];
        let b = non_empty_idx@[1];
        assert(non_empty_idx@.contains(a));
        assert(non_empty_idx@.contains(b));
        if a != r1 {
            assert(r2_candidates@.contains(a));
        } else {
            assert(r2_candidates@.contains(b));
        }
    }
    let r2: usize = match choose_in(&r2_candidates, rng) {
        Some(x) => x,
        None => {
            return (sol.copy(), Vec::new());
        },
    };
    assert(sol@[r1 as int] == sol.routes@[r1 as int]@);
    assert(sol@[r2 as int] == sol.routes@[r2 as int]@);
    let p1: usize = gen_below(rng, 0, sol.routes[r1].len());
    let p2: usize = gen_below(rng, 0, sol.routes[r2].len());
    let c1: usize = sol.routes[r1][p1];
    let c2: usize = sol.routes[r2][p2];
    if !swap_fits(sol, problem, r1, p1, r2, p2) {
        proof {
            assert(swap_refused_at(*problem, sol@, r1 as int, p1 as int, r2 as int, p2 as int));
        }
        return (sol.copy(), Vec::new());
    }
    let r = swap_move(sol, r1, p1, r2, p2);
    let mut moved: Vec<usize> = Vec::new();
    moved.push(c1);
    moved.push(c2);
    proof {
        lemma_swap_multiset(sol@, r1 as int, p1 as int, r2 as int, p2 as int);
        if problem.all_fit(sol@) {
            lemma_swap_fits(*problem, sol@, r1 as int, p1 as int, r2 as int, p2 as int);
        }
        assert(moved@ =~= seq![sol@[r1 as int][p1 as int], sol@[r2 as int][p2 as int]]);
        assert(swapped(sol@, r1 as int, p1 as int, r2 as int, p2 as int) == r@);
    }
    (r, moved)
}

/// A neighbour by one of the two registered moves, relocate or 2-opt, picked
/// at random.
pub fn generate_neighbor(sol: &Solution, problem: &Problem, rng: &mut StdRng) -> (r: Solution)
    requires
        problem.indices_valid(sol@),
    ensures
        exists|m: Seq<usize>|
            #![trigger relocate_outcome(*problem, sol@, r@, m)]
            #![trigger two_opt_outcome(sol@, r@, m)]
            relocate_outcome(*problem, sol@, r@, m) || two_opt_outcome(sol@, r@, m),
        keeps_solution(*problem, sol@, r@),
{
    let pick: usize = gen_below(rng, 0, 2);
    if pick == 0 {
        let (s, m) = random_relocate(sol, problem, rng);
        assert(relocate_outcome(*problem, sol@, s@, m@));
        s
    } else {
        let (s, m) = random_two_opt(sol, problem, rng);
        assert(two_opt_outcome(sol@, s@, m@));
        s
    }
}

/// A neighbour by one of three moves picked at random (relocate, 2-opt or
/// swap), with the clients that the move displaced.
pub fn generate_neighbor_with_move(sol: &Solution, problem: &Problem, rng: &mut StdRng) -> (r: (
    Solution,
    Vec<usize>,
))
    requires
        problem.indices_valid(sol@),
    ensures
        relocate_outcome(*problem, sol@, r.0@, r.1@) || two_opt_outcome(sol@, r.0@, r.1@)
            || swap_outcome(*problem, sol@, r.0@, r.1@),
        keeps_solution(*problem, sol@, r.0@),
{
    let pick: usize = gen_below(rng, 0, 3);
    if pick == 0 {
        random_relocate(sol, problem, rng)
    } else if pick == 1 {
        random_two_opt(sol, problem, rng)
    } else {
        random_swap(sol, problem, rng)
    }
}

} // verus!
