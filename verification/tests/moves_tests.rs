use rand::rngs::StdRng;
use rand::SeedableRng;
use vrptw_code::neighbouring::{
    generate_neighbor, generate_neighbor_with_move, random_relocate, random_swap, random_two_opt,
    relocate_move, relocation_fits, reverse_stretch, swap_fits, swap_move, two_opt_move,
};
use vrptw_code::parser::{Client, Repository};
use vrptw_code::problem::{Problem, Solution};

fn problem(demands: &[u32], capacity: u32) -> Problem {
    Problem {
        clients: demands
            .iter()
            .enumerate()
            .map(|(i, &d)| Client {
                id: format!("c{}", i),
                x: i as u32,
                y: 0,
                ready_time: 0,
                due_time: 100,
                demand: d,
                service: 0,
            })
            .collect(),
        repo: Repository { id: "d".into(), x: 0, y: 0, ready_time: 0, due_time: 100 },
        max_capacity: capacity,
    }
}

fn counts(sol: &Solution, n: usize) -> Vec<usize> {
    let mut seen = vec![0usize; n];
    for r in &sol.routes {
        for &c in r {
            seen[c] += 1;
        }
    }
    seen
}

fn all_fit(p: &Problem, sol: &Solution) -> bool {
    sol.routes.iter().all(|r| p.route_load(r) <= p.max_capacity as u128)
}

#[test]
fn relocate_moves_client_and_drops_empty_routes() {
    let s = Solution { routes: vec![vec![0], vec![1, 2], vec![], vec![3]] };
    let r = relocate_move(&s, 0, 0, 1, 1);
    assert_eq!(r.routes, vec![vec![1, 0, 2], vec![3]]);
    let r = relocate_move(&s, 1, 1, 3, 0);
    assert_eq!(r.routes, vec![vec![0], vec![1], vec![2, 3]]);
}

#[test]
fn two_opt_reverses_stretch() {
    let s = Solution { routes: vec![vec![0, 1, 2, 3, 4], vec![5]] };
    let r = two_opt_move(&s, 0, 1, 3);
    assert_eq!(r.routes, vec![vec![0, 3, 2, 1, 4], vec![5]]);
    let back = two_opt_move(&r, 0, 1, 3);
    assert_eq!(back.routes, s.routes);
}

#[test]
fn reverse_stretch_whole_route() {
    let mut v = vec![1, 2, 3, 4];
    reverse_stretch(&mut v, 0, 3);
    assert_eq!(v, vec![4, 3, 2, 1]);
    reverse_stretch(&mut v, 2, 2);
    assert_eq!(v, vec![4, 3, 2, 1]);
}

#[test]
fn swap_exchanges_clients() {
    let s = Solution { routes: vec![vec![0, 1], vec![2, 3]] };
    let r = swap_move(&s, 0, 1, 1, 0);
    assert_eq!(r.routes, vec![vec![0, 2], vec![1, 3]]);
}

#[test]
fn random_moves_on_single_route_return_unchanged() {
    let p = problem(&[1, 1, 1], 10);
    let s = Solution { routes: vec![vec![0, 1, 2]] };
    let mut rng = StdRng::seed_from_u64(1);
    let (r, m) = random_relocate(&s, &p, &mut rng);
    assert_eq!(r.routes, s.routes);
    assert!(m.is_empty());
    let (r, m) = random_swap(&s, &p, &mut rng);
    assert_eq!(r.routes, s.routes);
    assert!(m.is_empty());
}

#[test]
fn random_two_opt_without_long_route_returns_unchanged() {
    let p = problem(&[1, 1], 10);
    let s = Solution { routes: vec![vec![0], vec![1]] };
    let mut rng = StdRng::seed_from_u64(2);
    let (r, m) = random_two_opt(&s, &p, &mut rng);
    assert_eq!(r.routes, s.routes);
    assert!(m.is_empty());
}

#[test]
fn random_two_opt_changes_long_route() {
    let p = problem(&[1, 1], 10);
    let s = Solution { routes: vec![vec![0, 1]] };
    let mut rng = StdRng::seed_from_u64(3);
    let (r, m) = random_two_opt(&s, &p, &mut rng);
    // The only stretch of a two-client route is the whole route.
    assert_eq!(r.routes, vec![vec![1, 0]]);
    assert_eq!(m, vec![0, 1]);
}

#[test]
fn random_relocate_respects_capacity() {
    // Route [0] cannot take anything (0 weighs 10 = capacity), route [1] can take 2 only.
    let p = problem(&[10, 3, 5], 10);
    let s = Solution { routes: vec![vec![0], vec![1], vec![2]] };
    let mut rng = StdRng::seed_from_u64(4);
    for _ in 0..200 {
        let (r, m) = random_relocate(&s, &p, &mut rng);
        assert!(all_fit(&p, &r));
        assert_eq!(counts(&r, 3), vec![1, 1, 1]);
        if r.routes != s.routes {
            assert_eq!(m.len(), 1);
        }
    }
}

#[test]
fn neighbours_keep_every_client_once_and_capacity() {
    let demands: Vec<u32> = (0..20).map(|i| (i % 5) + 1).collect();
    let p = problem(&demands, 12);
    let mut s = Solution::greedy(&p);
    let mut rng = StdRng::seed_from_u64(5);
    for k in 0..2000 {
        s = if k % 2 == 0 {
            generate_neighbor(&s, &p, &mut rng)
        } else {
            generate_neighbor_with_move(&s, &p, &mut rng).0
        };
        assert_eq!(counts(&s, 20), vec![1; 20]);
        assert!(all_fit(&p, &s));
    }
}

#[test]
fn random_relocate_and_swap_always_move_when_capacity_allows() {
    // Any move fits: the relocation and the swap are never refused.
    let p = problem(&[1, 1, 1, 1], 100);
    let s = Solution { routes: vec![vec![0, 1], vec![2], vec![3]] };
    let mut rng = StdRng::seed_from_u64(6);
    for _ in 0..100 {
        let (r, m) = random_relocate(&s, &p, &mut rng);
        assert_eq!(m.len(), 1);
        assert_ne!(r.routes, s.routes);
        assert_eq!(counts(&r, 4), vec![1, 1, 1, 1]);
        let (r, m) = random_swap(&s, &p, &mut rng);
        assert_eq!(m.len(), 2);
        assert_ne!(m[0], m[1]);
        assert_ne!(r.routes, s.routes);
        assert_eq!(counts(&r, 4), vec![1, 1, 1, 1]);
    }
}

#[test]
fn random_swap_refused_when_a_route_would_overflow() {
    // Exchanging 0 (demand 9) and 1 (demand 1) gives loads 1 and 9: it fits.
    let p = problem(&[9, 1], 9);
    let s = Solution { routes: vec![vec![0], vec![1]] };
    let mut rng = StdRng::seed_from_u64(7);
    for _ in 0..50 {
        let (r, mut m) = random_swap(&s, &p, &mut rng);
        assert_eq!(r.routes, vec![vec![1], vec![0]]);
        m.sort();
        assert_eq!(m, vec![0, 1]);
    }
    // Client 0 (demand 9) cannot join the second route (load 6) in place of
    // 1 or 2 without overflow: every swap is refused.
    let p = problem(&[9, 1, 5], 9);
    let s = Solution { routes: vec![vec![0], vec![1, 2]] };
    for _ in 0..50 {
        let (r, m) = random_swap(&s, &p, &mut rng);
        assert_eq!(r.routes, s.routes);
        assert!(m.is_empty());
    }
}

#[test]
fn two_opt_twice_on_the_same_stretch_restores_the_route() {
    let s = Solution { routes: vec![vec![4, 2, 7, 1, 3], vec![0, 5, 6]] };
    for i in 0..4 {
        for j in i + 1..5 {
            let once = two_opt_move(&s, 0, i, j);
            let twice = two_opt_move(&once, 0, i, j);
            assert_eq!(twice.routes, s.routes);
        }
    }
}

#[test]
fn drawn_relocation_and_swap_are_decided_by_capacity() {
    // Loads: route 0 carries 6 (clients 0, 1), route 1 carries 3 (client 2); capacity 9.
    let p = problem(&[2, 4, 3], 9);
    let s = Solution { routes: vec![vec![0, 1], vec![2]] };
    assert!(relocation_fits(&s, &p, 0, 1, 1)); // 3 + 4 = 7
    assert!(relocation_fits(&s, &p, 1, 0, 0)); // 6 + 3 = 9 fits exactly
    assert!(swap_fits(&s, &p, 0, 1, 1, 0)); // 6 - 4 + 3 = 5 and 3 - 3 + 4 = 4
    let p = problem(&[2, 4, 3], 6);
    assert!(!relocation_fits(&s, &p, 1, 0, 0)); // 6 + 3 = 9 > 6
    assert!(!swap_fits(&s, &p, 0, 0, 1, 0)); // 6 - 2 + 3 = 7 > 6
    assert!(swap_fits(&s, &p, 0, 1, 1, 0)); // 5 and 4
}
