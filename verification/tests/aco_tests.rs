use vrptw_code::aco::{build_candidate_list, edges_of_route, AcoProgress, AcoSizes, AntTour};
use vrptw_code::parser::{Client, Repository};
use vrptw_code::problem::Problem;

fn problem(points: &[(u32, u32, u32)], capacity: u32) -> Problem {
    Problem {
        clients: points
            .iter()
            .enumerate()
            .map(|(i, &(x, y, d))| Client {
                id: format!("c{}", i),
                x,
                y,
                ready_time: 0,
                due_time: 100,
                demand: d,
                service: 0,
            })
            .collect(),
        repo: Repository { id: "d".into(), x: 0, y: 0, ready_time: 0, due_time: 100 },
        max_capacity: capacity,
    }
}

#[test]
fn aco_default_sizes() {
    let s = AcoSizes::default();
    assert_eq!((s.n_ants, s.max_iterations, s.k_candidates, s.use_two_opt), (20, 500, 10, true));
}

#[test]
fn candidate_lists_nearest_first() {
    // Nodes: 0 depot (0,0); 1 at (5,0); 2 at (1,0); 3 at (0,1); 4 at (3,0).
    let p = problem(&[(5, 0, 1), (1, 0, 1), (0, 1, 1), (3, 0, 1)], 10);
    let lists = build_candidate_list(&p, 3);
    assert_eq!(lists.len(), 5);
    // From the depot, nodes 2 and 3 are both at distance 1: the smaller first.
    assert_eq!(lists[0], vec![2, 3, 4]);
    // From node 2 at (1,0): depot 1, node 3 (2), node 4 (4), node 1 (16).
    assert_eq!(lists[2], vec![0, 3, 4]);
}

#[test]
fn candidate_lists_are_capped_by_node_count() {
    let p = problem(&[(1, 1, 1), (2, 2, 1)], 10);
    let lists = build_candidate_list(&p, 10);
    assert_eq!(lists, vec![vec![1, 2], vec![0, 2], vec![1, 0]]);
    let none = build_candidate_list(&p, 0);
    assert!(none.iter().all(|r| r.is_empty()));
}

#[test]
fn ant_tour_builds_a_solution() {
    let p = problem(&[(1, 0, 4), (2, 0, 4), (3, 0, 4)], 8);
    let mut t = AntTour::new(&p);
    assert_eq!(t.unvisited.len(), 3);
    assert!(t.can_take(&p, 0));
    t.visit(&p, 0);
    assert_eq!(t.node, 1);
    t.visit(&p, 2);
    assert_eq!(t.load, 8);
    assert!(!t.can_take(&p, 1));
    // Client 1 no longer fits: nothing may come next.
    let all_ok = vec![true, true, true];
    t.close_route(&p, &all_ok);
    assert_eq!(t.node, 0);
    assert_eq!(t.load, 0);
    t.visit(&p, 1);
    t.close_route(&p, &all_ok);
    assert!(t.is_done());
    let s = t.into_solution(&p);
    assert_eq!(s.routes, vec![vec![0, 2], vec![1]]);
}

#[test]
fn ant_tour_gives_a_client_left_its_own_route_when_route_empty() {
    let p = problem(&[(1, 0, 1), (2, 0, 1), (3, 0, 1)], 8);
    let mut t = AntTour::new(&p);
    // No client can be served in its time window any more.
    let none_ok = vec![false, false, false];
    t.visit(&p, 0);
    t.close_route(&p, &none_ok);
    // Nothing visited on the new route: one of the clients left gets its own route.
    t.close_route(&p, &none_ok);
    assert_eq!(t.routes.len(), 2);
    assert_eq!(t.routes[0], vec![0]);
    assert!(t.routes[1] == vec![1] || t.routes[1] == vec![2]);
    assert!(!t.unvisited.contains(&t.routes[1][0]));
    assert_eq!(t.unvisited.len(), 1);
}

#[test]
fn feasible_candidates_restricted_then_all() {
    let p = problem(&[(1, 0, 3), (2, 0, 6), (3, 0, 2)], 8);
    let mut t = AntTour::new(&p);
    let all_ok = vec![true, true, true];
    // Candidate row of nodes: depot, client 1 (node 2), client 0 (node 1).
    let row = vec![0, 2, 1];
    assert_eq!(t.feasible_candidates_from(&p, &row, &all_ok), vec![1, 0]);
    let time = vec![false, true, true];
    assert_eq!(t.feasible_candidates_from(&p, &row, &time), vec![1]);
    t.visit(&p, 1);
    // Client 0 no longer fits (6 + 3 > 8): nothing in the row, fall back to all clients.
    assert_eq!(t.feasible_candidates_from(&p, &row, &all_ok), vec![2]);
    t.visit(&p, 2);
    assert!(t.feasible_candidates_from(&p, &row, &all_ok).is_empty());
}

#[test]
fn edges_of_routes() {
    assert!(edges_of_route(&vec![]).is_empty());
    assert_eq!(edges_of_route(&vec![4]), vec![(0, 5), (5, 0)]);
    assert_eq!(edges_of_route(&vec![0, 2, 1]), vec![(0, 1), (1, 3), (3, 2), (2, 0)]);
}

#[test]
fn aco_progress_deposits_every_fifth_iteration() {
    let mut s = AcoSizes::default();
    s.max_iterations = 7;
    let mut prog = AcoProgress::new(&s);
    let mut global = Vec::new();
    while !prog.is_finished() {
        global.push(prog.deposit_from_global_best());
        prog.end_iteration();
    }
    assert_eq!(global, vec![true, false, false, false, false, true, false]);
}

#[test]
fn ant_tour_gives_an_oversized_client_a_route_of_its_own() {
    // Client 1 weighs more than a vehicle carries: no ant may take it, so it
    // is forced into a route alone; every other route fits.
    let p = problem(&[(1, 0, 3), (2, 0, 12), (3, 0, 4)], 8);
    let row = vec![1, 2, 3];
    let all_ok = vec![true, true, true];
    let mut t = AntTour::new(&p);
    while !t.is_done() {
        loop {
            let c = t.feasible_candidates_from(&p, &row, &all_ok);
            if c.is_empty() {
                break;
            }
            t.visit(&p, c[0]);
        }
        t.close_route(&p, &all_ok);
    }
    let s = t.into_solution(&p);
    assert_eq!(s.routes, vec![vec![0, 2], vec![1]]);
    for r in &s.routes {
        assert!(r.len() == 1 || p.route_load(r) <= 8);
    }
}
