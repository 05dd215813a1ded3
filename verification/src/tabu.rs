//! The memory of the tabu search: for each client, the iteration until which
//! moving it again is forbidden.
use vstd::prelude::*;

verus! {

/// Parameters of the tabu search.
#[derive(Clone, Debug)]
pub struct TabuParams {
    /// How many iterations a moved client stays forbidden.
    pub tabu_tenure: usize,
    /// Total number of iterations before stopping.
    pub max_iterations: usize,
    /// Random neighbours evaluated at each iteration.
    pub n_neighbors: usize,
}

impl Default for TabuParams {
    /// Tenure 10, 5000 iterations, 50 neighbours per iteration.
    fn default() -> (r: TabuParams)
        ensures
            r.tabu_tenure == 10,
            r.max_iterations == 5000,
            r.n_neighbors == 50,
    {
        TabuParams { tabu_tenure: 10, max_iterations: 5_000, n_neighbors: 50 }
    }
}

/// `tabu_until[c]` is the iteration until which client `c` is tabu.
pub struct TabuList {
    pub tabu_until: Vec<usize>,
}

/// A move of the clients `moved` is tabu at `iteration` when one of them is
/// still forbidden.
pub open spec fn tabu_at(until: Seq<usize>, moved: Seq<usize>, iteration: usize) -> bool {
    exists|t: int| 0 <= t < moved.len() && until[moved[t] as int] > iteration
}

/// The entry that forbids a client moved at `iteration` during the next
/// `tenure` iterations, `iteration + 1` to `iteration + tenure`: a client is
/// tabu while its entry is above the current iteration.
pub open spec fn tabu_bound_spec(iteration: int, tenure: int) -> int {
    iteration + tenure + 1
}

/// The entry to record for a client moved at `iteration` (see
/// `tabu_bound_spec`), or `None` when it does not fit in a `usize`.
pub fn tabu_bound(iteration: usize, tenure: usize) -> (r: Option<usize>)
    ensures
        r matches Some(u) ==> u == tabu_bound_spec(iteration as int, tenure as int),
        r is None <==> tabu_bound_spec(iteration as int, tenure as int) > usize::MAX,
{
    match iteration.checked_add(tenure) {
        Some(x) => x.checked_add(1),
        None => None,
    }
}

/// A candidate may be taken when its move is not tabu, or when it beats the
/// best solution found so far (aspiration).
pub open spec fn admissible(is_tabu: bool, aspiration: bool) -> bool {
    !is_tabu || aspiration
}

/// The aspiration rule: a candidate whose move is not tabu may always be
/// taken, whether or not it beats the best solution; a candidate whose move
/// is tabu may be taken exactly when it beats the best solution.
pub proof fn lemma_admissible_rule()
    ensures
        forall|aspiration: bool| #[trigger] admissible(false, aspiration),
        forall|aspiration: bool| #[trigger] admissible(true, aspiration) == aspiration,
{
}

/// A candidate may be taken when its move is not tabu, or when it beats the
/// best solution found so far.
pub fn is_admissible(is_tabu: bool, aspiration: bool) -> (r: bool)
    ensures
        r == admissible(is_tabu, aspiration),
{
    !is_tabu || aspiration
}

impl TabuList {
    /// No client is tabu: every entry is 0.
    pub fn new(n: usize) -> (r: TabuList)
        ensures
            r.tabu_until@ == Seq::new(n as nat, |c: int| 0usize),
    {
        let mut v: Vec<usize> = Vec::new();
        let mut k: usize = 0;
        while k < n
            invariant
                k <= n,
                v@ == Seq::new(k as nat, |c: int| 0usize),
            decreases n - k,
        {
            v.push(0);
            k = k + 1;
            assert(v@ =~= Seq::new(k as nat, |c: int| 0usize));
        }
        TabuList { tabu_until: v }
    }

    /// Whether moving the clients `moved` is tabu at `iteration`.
    pub fn is_tabu(&self, moved: &Vec<usize>, iteration: usize) -> (r: bool)
        requires
            forall|t: int| 0 <= t < moved@.len() ==> #[trigger] moved@[t] < self.tabu_until@.len(),
        ensures
            r == tabu_at(self.tabu_until@, moved@, iteration),
    {
        let mut k: usize = 0;
        while k < moved.len()
            invariant
                k <= moved@.len(),
                forall|t: int| 0 <= t < moved@.len() ==> #[trigger] moved@[t] < self.tabu_until@.len(),
                forall|t: int| 0 <= t < k ==> self.tabu_until@[#[trigger] moved@[t] as int] <= iteration,
            decreases moved@.len() - k,
        {
            if self.tabu_until[moved[k]] > iteration {
                return true;
            }
            k = k + 1;
        }
        false
    }

    /// Forbids the clients `moved` until iteration `until`.
    pub fn mark(&mut self, moved: &Vec<usize>, until: usize)
        requires
            forall|t: int| 0 <= t < moved@.len() ==> #[trigger] moved@[t] < old(self).tabu_until@.len(),
        ensures
            final(self).tabu_until@.len() == old(self).tabu_until@.len(),
            forall|c: usize|
                c < old(self).tabu_until@.len() ==> #[trigger] final(self).tabu_until@[c as int]
                    == if moved@.contains(c) {
                    until
                } else {
                    old(self).tabu_until@[c as int]
                },
    {
        broadcast use vstd::seq_lib::group_seq_properties;

        let ghost start = self.tabu_until@;
        let mut k: usize = 0;
        while k < moved.len()
            invariant
                k <= moved@.len(),
                self.tabu_until@.len() == start.len(),
                forall|t: int| 0 <= t < moved@.len() ==> #[trigger] moved@[t] < start.len(),
                forall|c: usize|
                    c < start.len() ==> #[trigger] self.tabu_until@[c as int] == if moved@.take(
                        k as int,
                    ).contains(c) {
                        until
                    } else {
                        start[c as int]
                    },
            decreases moved@.len() - k,
        {
            let ghost before = self.tabu_until@;
            self.tabu_until.set(moved[k], until);
            assert forall|c: usize| c < start.len() implies #[trigger] self.tabu_until@[c as int]
                == if moved@.take(k + 1).contains(c) {
                until
            } else {
                start[c as int]
            } by {
                assert(moved@.take(k + 1) =~= moved@.take(k as int).push(moved@[k as int]));
                vstd::seq_lib::lemma_seq_contains_after_push(moved@.take(k as int), moved@[k as int], c);
                assert(before[c as int] == if moved@.take(k as int).contains(c) {
                    until
                } else {
                    start[c as int]
                });
            }
            k = k + 1;
        }
        assert(moved@.take(moved@.len() as int) =~= moved@);
    }
}

/// A move made at `iteration` and marked with `tabu_bound_spec` stays tabu
/// during the next `tenure` iterations; after them, the mark no longer
/// forbids any of its clients.
pub proof fn lemma_marked_move_is_tabu(
    before: Seq<usize>,
    after: Seq<usize>,
    moved: Seq<usize>,
    iteration: usize,
    tenure: usize,
    later: usize,
)
    requires
        moved.len() > 0,
        forall|t: int| 0 <= t < moved.len() ==> #[trigger] moved[t] < before.len(),
        after.len() == before.len(),
        tabu_bound_spec(iteration as int, tenure as int) <= usize::MAX,
        forall|c: usize|
            c < before.len() ==> #[trigger] after[c as int] == if moved.contains(c) {
                tabu_bound_spec(iteration as int, tenure as int)
            } else {
                before[c as int] as int
            },
    ensures
        iteration < later <= iteration + tenure ==> tabu_at(after, moved, later),
        later > iteration + tenure ==> forall|t: int|
            0 <= t < moved.len() ==> after[#[trigger] moved[t] as int] <= later,
{
    assert(moved.contains(moved[0]));
    assert(after[moved[0] as int] == tabu_bound_spec(iteration as int, tenure as int));
    assert forall|t: int| 0 <= t < moved.len() implies after[#[trigger] moved[t] as int]
        == tabu_bound_spec(iteration as int, tenure as int) by {
        assert(moved.contains(moved[t]));
    }
}

/// The iteration count of the tabu search and how often it improved on its
/// best solution.
pub struct TabuProgress {
    pub iteration: usize,
    pub improved: usize,
    pub max_iterations: usize,
}

impl TabuProgress {
    pub fn new(params: &TabuParams) -> (r: TabuProgress)
        ensures
            r.iteration == 0,
            r.improved == 0,
            r.max_iterations == params.max_iterations,
    {
        TabuProgress { iteration: 0, improved: 0, max_iterations: params.max_iterations }
    }

    /// The search stops after `max_iterations` iterations.
    pub fn is_finished(&self) -> (r: bool)
        ensures
            r == (self.iteration >= self.max_iterations),
    {
        self.iteration >= self.max_iterations
    }

    /// Ends an iteration, counting an improvement of the best solution when
    /// there was one.
    pub fn end_iteration(&mut self, best_improved: bool)
        requires
            old(self).iteration < usize::MAX,
            old(self).improved < usize::MAX,
        ensures
            final(self).iteration == old(self).iteration + 1,
            final(self).improved == old(self).improved + if best_improved {
                1int
            } else {
                0int
            },
            final(self).max_iterations == old(self).max_iterations,
    {
        if best_improved {
            self.improved = self.improved + 1;
        }
        self.iteration = self.iteration + 1;
    }
}

} // verus!
