use vrptw_code::hill_climbing::{create_default_params, AnnealingProgress, DescentProgress, PATIENCE};
use vrptw_code::problem::Solution;
use vrptw_code::runner::{worker_should_continue, RunnerState, RunnerUpdate, SolverKind};
use vrptw_code::tabu::{is_admissible, tabu_bound, TabuList, TabuParams, TabuProgress};

#[test]
fn tabu_default_params() {
    let p = TabuParams::default();
    assert_eq!((p.tabu_tenure, p.max_iterations, p.n_neighbors), (10, 5000, 50));
}

#[test]
fn tabu_list_marks_and_expires() {
    let mut t = TabuList::new(4);
    assert_eq!(t.tabu_until, vec![0, 0, 0, 0]);
    assert!(!t.is_tabu(&vec![1, 2], 0));
    t.mark(&vec![1, 3], 12);
    assert_eq!(t.tabu_until, vec![0, 12, 0, 12]);
    assert!(t.is_tabu(&vec![0, 3], 11));
    assert!(!t.is_tabu(&vec![0, 3], 12));
    assert!(!t.is_tabu(&vec![], 0));
}

#[test]
fn tabu_admissibility() {
    assert!(is_admissible(false, false));
    assert!(is_admissible(true, true));
    assert!(!is_admissible(true, false));
}

#[test]
fn tabu_progress_counts() {
    let mut params = TabuParams::default();
    params.max_iterations = 2;
    let mut p = TabuProgress::new(&params);
    assert!(!p.is_finished());
    p.end_iteration(true);
    p.end_iteration(false);
    assert!(p.is_finished());
    assert_eq!((p.iteration, p.improved), (2, 1));
}

#[test]
fn descent_stops_after_patience() {
    let _params = create_default_params();
    let mut d = DescentProgress::new();
    d.record(true);
    assert_eq!(d.nb_accepted, 1);
    for _ in 0..PATIENCE - 1 {
        d.record(false);
    }
    assert!(!d.is_finished());
    d.record(false);
    assert!(d.is_finished());
    assert_eq!(d.total_iterations, PATIENCE + 1);
    d.record(true);
    assert!(!d.is_finished());
}

#[test]
fn annealing_cools_every_iter_per_temp() {
    let mut a = AnnealingProgress::new(3);
    assert!(!a.record(true));
    assert!(!a.record(false));
    assert!(a.record(true));
    assert_eq!(a.iter_in_temp, 0);
    assert_eq!((a.total_iterations, a.nb_accepted), (3, 2));
    let mut every = AnnealingProgress::new(0);
    assert!(every.record(false));
}

#[test]
fn runner_update_counts_iterations_done() {
    let s = Solution { routes: vec![vec![0]] };
    let u = RunnerUpdate::after_batch(s.copy(), 10, 25, false);
    assert_eq!((u.iterations_done, u.total_iterations, u.is_finished), (15, 25, false));
    let u = RunnerUpdate::after_batch(s, 30, 25, true);
    assert_eq!(u.iterations_done, 0);
}

#[test]
fn runner_state_transitions() {
    let mut st = RunnerState::new();
    assert!(st.wants_step());
    st.request_sent(true);
    assert!(!st.wants_step());
    let s = Solution { routes: vec![] };
    st.update_received(&RunnerUpdate::after_batch(s.copy(), 0, 5, false));
    assert!(st.wants_step());
    st.request_sent(false);
    assert!(st.is_finished());
    let mut st2 = RunnerState::new();
    st2.update_received(&RunnerUpdate::after_batch(s, 0, 5, true));
    assert!(st2.is_finished());
    assert!(!st2.wants_step());
}

#[test]
fn worker_stops_when_finished_or_unheard() {
    assert!(worker_should_continue(true, false));
    assert!(!worker_should_continue(true, true));
    assert!(!worker_should_continue(false, false));
    assert_ne!(SolverKind::SimulatedAnnealing, SolverKind::TabuSearch);
}

#[test]
fn tabu_tenure_forbids_for_exactly_tenure_iterations() {
    // Moved at iteration 5 with tenure 10: forbidden at iterations 6 to 15.
    let until = tabu_bound(5, 10).unwrap();
    assert_eq!(until, 16);
    let mut t = TabuList::new(2);
    t.mark(&vec![1], until);
    for it in 6..=15 {
        assert!(t.is_tabu(&vec![1], it));
    }
    assert!(!t.is_tabu(&vec![1], 16));
    assert_eq!(tabu_bound(usize::MAX - 3, 3), None);
    assert_eq!(tabu_bound(usize::MAX - 3, 2), Some(usize::MAX));
}
