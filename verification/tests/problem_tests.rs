use vrptw_code::parser::{Client, InputData, Repository};
use vrptw_code::problem::{squared_distance, Problem, Solution};

fn client(i: usize, x: u32, y: u32, demand: u32) -> Client {
    Client { id: format!("c{}", i), x, y, ready_time: 0, due_time: 1000, demand, service: 0 }
}

fn problem(clients: Vec<Client>, capacity: u32) -> Problem {
    Problem {
        clients,
        repo: Repository { id: "d".to_string(), x: 0, y: 0, ready_time: 0, due_time: 1000 },
        max_capacity: capacity,
    }
}

fn visits_each_once(sol: &Solution, n: usize) -> bool {
    let mut seen = vec![0usize; n];
    for r in &sol.routes {
        for &c in r {
            if c >= n {
                return false;
            }
            seen[c] += 1;
        }
    }
    seen.iter().all(|&k| k == 1)
}

#[test]
fn problem_new_takes_first_depot() {
    let input = InputData::new(
        "n".into(),
        "t".into(),
        "c".into(),
        2,
        1,
        50,
        vec![
            Repository { id: "d1".into(), x: 1, y: 2, ready_time: 0, due_time: 9 },
            Repository { id: "d2".into(), x: 3, y: 4, ready_time: 0, due_time: 9 },
        ],
        vec![client(0, 5, 5, 3)],
    );
    let p = Problem::new(input);
    assert_eq!(p.repo.id, "d1");
    assert_eq!(p.clients.len(), 1);
    assert_eq!(p.max_capacity, 50);
}

#[test]
fn route_demand_and_load() {
    let p = problem(vec![client(0, 1, 1, 5), client(1, 2, 2, 7), client(2, 3, 3, 11)], 100);
    assert_eq!(p.route_demand(&[0, 2]), 16);
    assert_eq!(p.route_demand(&[]), 0);
    assert_eq!(p.route_load(&vec![0, 1, 2]), 23);
}

#[test]
fn squared_distances() {
    assert_eq!(squared_distance((0, 0), (3, 4)), 25);
    assert_eq!(squared_distance((3, 4), (0, 0)), 25);
    assert_eq!(squared_distance((0, 0), (u32::MAX, u32::MAX)), 2 * (u32::MAX as u128) * (u32::MAX as u128));
    let p = problem(vec![client(0, 3, 4, 1), client(1, 6, 8, 1)], 10);
    assert_eq!(p.node_sq_dist(0, 1), 25);
    assert_eq!(p.node_sq_dist(1, 2), 25);
    assert_eq!(p.node_sq_dist(0, 2), 100);
    assert_eq!(p.node_coords(2), (6, 8));
}

#[test]
fn visit_order_is_cut_at_four_fifths_of_capacity() {
    let p = problem(vec![client(0, 1, 1, 4), client(1, 2, 2, 4), client(2, 3, 3, 4)], 10);
    let s = Solution::from_visit_order(&p, &vec![0, 1, 2]);
    assert_eq!(s.routes, vec![vec![0, 1], vec![2]]);
}

#[test]
fn visit_order_keeps_empty_first_route_for_heavy_first_client() {
    let p = problem(vec![client(0, 1, 1, 9), client(1, 2, 2, 1)], 10);
    let s = Solution::from_visit_order(&p, &vec![0, 1]);
    assert_eq!(s.routes, vec![vec![], vec![0], vec![1]]);
}

#[test]
fn visit_order_empty() {
    let p = problem(vec![], 10);
    let s = Solution::from_visit_order(&p, &vec![]);
    assert!(s.routes.is_empty());
}

#[test]
fn random_solution_visits_every_client_once() {
    let clients: Vec<Client> = (0..30).map(|i| client(i, i as u32, 2 * i as u32, (i % 7) as u32 + 1)).collect();
    let p = problem(clients, 20);
    for _ in 0..20 {
        let s = Solution::random(&p);
        assert!(visits_each_once(&s, 30));
        for r in &s.routes {
            let load: u32 = r.iter().map(|&c| p.clients[c].demand).sum();
            assert!(r.len() <= 1 || load <= 16);
        }
    }
}

#[test]
fn greedy_goes_to_nearest_fitting_client() {
    // Depot at (0, 0); capacity 10.
    let p = problem(
        vec![client(0, 10, 0, 5), client(1, 1, 0, 5), client(2, 2, 0, 6), client(3, 3, 0, 4)],
        10,
    );
    let s = Solution::greedy(&p);
    // From the depot: 1 (d=1), then 2 does not fit (5+6>10), 3 fits (load 9), then none fits.
    // New route: 2 (nearest), then 0 does not fit (6+5>10): stop. Last route: 0.
    assert_eq!(s.routes, vec![vec![1, 3], vec![2], vec![0]]);
}

#[test]
fn greedy_ties_go_to_smaller_index() {
    let p = problem(vec![client(0, 0, 5, 1), client(1, 5, 0, 1), client(2, 3, 4, 1)], 10);
    let s = Solution::greedy(&p);
    // All three are at distance 5 from the depot: 0 first, then nearest to (0, 5).
    assert_eq!(s.routes[0][0], 0);
    assert!(visits_each_once(&s, 3));
    assert_eq!(s.routes.len(), 1);
}

#[test]
fn greedy_visits_every_client_once_within_capacity() {
    let clients: Vec<Client> = (0..25).map(|i| client(i, (i * 7 % 13) as u32, (i * 5 % 11) as u32, (i % 4) as u32 + 2)).collect();
    let p = problem(clients, 9);
    let s = Solution::greedy(&p);
    assert!(visits_each_once(&s, 25));
    for r in &s.routes {
        assert!(!r.is_empty());
        assert!(p.route_demand(r) <= 9);
    }
}

#[test]
fn copy_is_equal() {
    let s = Solution { routes: vec![vec![1, 2], vec![], vec![0]] };
    assert_eq!(s.copy().routes, s.routes);
}

#[test]
fn random_solution_orders_clients_at_random() {
    // With room for everyone, a random solution is one route in shuffled order.
    let clients: Vec<Client> = (0..8).map(|i| client(i, i as u32, 0, 1)).collect();
    let p = problem(clients, 100);
    let mut orders = Vec::new();
    for _ in 0..20 {
        let s = Solution::random(&p);
        assert_eq!(s.routes.len(), 1);
        orders.push(s.routes[0].clone());
    }
    assert!(orders.iter().any(|o| *o != (0..8).collect::<Vec<usize>>()));
}

#[test]
fn random_solution_routes_after_the_first_are_never_empty() {
    let clients: Vec<Client> = (0..12).map(|i| client(i, i as u32, 0, (i % 4) as u32 + 2)).collect();
    let p = problem(clients, 10);
    for _ in 0..30 {
        let s = Solution::random(&p);
        // No client weighs more than 8 = 4/5 of 10, so no route is empty.
        assert!(s.routes.iter().all(|r| !r.is_empty()));
        // Each route is closed only when the next client does not fit.
        for w in s.routes.windows(2) {
            let load: u32 = w[0].iter().map(|&c| p.clients[c].demand).sum();
            assert!(load + p.clients[w[1][0]].demand > 8);
        }
    }
}
