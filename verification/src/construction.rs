use crate::job_set::{job_set_contains, job_set_contents, job_set_insert, job_set_new};
use vstd::prelude::*;

verus! {

/// The jobs of `activities` without repetition, each at the place of its first activity.
pub open spec fn distinct_jobs(activities: Seq<u64>) -> Seq<u64>
    decreases activities.len(),
{
    if activities.len() == 0 {
        Seq::empty()
    } else {
        let earlier = distinct_jobs(activities.drop_last());
        if earlier.contains(activities.last()) {
            earlier
        } else {
            earlier.push(activities.last())
        }
    }
}

/// Every job of `distinct_jobs(activities)` is served by some activity, and the other way round.
pub proof fn lemma_distinct_jobs_members(activities: Seq<u64>)
    ensures
        forall|job: u64| distinct_jobs(activities).contains(job) <==> activities.contains(job),
        distinct_jobs(activities).no_duplicates(),
        distinct_jobs(activities).len() <= activities.len(),
    decreases activities.len(),
{
    if activities.len() > 0 {
        let front = activities.drop_last();
        let last = activities.last();
        lemma_distinct_jobs_members(front);
        let earlier = distinct_jobs(front);
        assert forall|job: u64| distinct_jobs(activities).contains(job) <==> activities.contains(
            job,
        ) by {
            if activities.contains(job) {
                let i = choose|i: int| 0 <= i < activities.len() && activities[i] == job;
                if i < front.len() {
                    assert(front[i] == job);
                    assert(front.contains(job));
                    let k = choose|k: int| 0 <= k < earlier.len() && earlier[k] == job;
                    assert(distinct_jobs(activities)[k] == job);
                } else {
                    assert(job == last);
                    if !earlier.contains(last) {
                        assert(earlier.push(last)[earlier.len() as int] == last);
                    }
                }
            }
            if distinct_jobs(activities).contains(job) {
                let k = choose|k: int|
                    0 <= k < distinct_jobs(activities).len() && distinct_jobs(activities)[k] == job;
                if k < earlier.len() {
                    assert(earlier[k] == job);
                    assert(earlier.contains(job));
                    assert(front.contains(job));
                    let i = choose|i: int| 0 <= i < front.len() && front[i] == job;
                    assert(activities[i] == job);
                } else {
                    assert(job == last);
                    assert(activities[activities.len() - 1] == job);
                }
            }
        }
    }
}

/// The test "is another job than `job`".
pub open spec fn other_than(job: u64) -> spec_fn(u64) -> bool {
    |other: u64| other != job
}

/// The activities that serve jobs, in visiting order, each named by its job.
pub struct Tour {
    pub activities: Vec<u64>,
}

impl View for Tour {
    type V = Seq<u64>;

    open spec fn view(&self) -> Seq<u64> {
        self.activities@
    }
}

impl Tour {
    /// An empty tour.
    pub fn new() -> (tour: Tour)
        ensures
            tour@ == Seq::<u64>::empty(),
    {
        Tour { activities: Vec::new() }
    }

    /// Number of activities that serve a job.
    pub fn job_activity_count(&self) -> (count: usize)
        ensures
            count == self@.len(),
    {
        self.activities.len()
    }

    /// The jobs of the tour, each once, in the order of their first activity.
    pub fn jobs(&self) -> (jobs: Vec<u64>)
        ensures
            jobs@ == distinct_jobs(self@),
    {
        let mut seen = job_set_new();
        let mut jobs: Vec<u64> = Vec::new();
        let mut i: usize = 0;
        while i < self.activities.len()
            invariant
                i <= self.activities.len(),
                jobs@ == distinct_jobs(self@.take(i as int)),
                forall|job: u64| job_set_contents(seen).contains(job) <==> jobs@.contains(job),
            decreases self.activities.len() - i,
        {
            let job = self.activities[i];
            proof {
                assert(self@.take(i + 1).drop_last() == self@.take(i as int));
                assert(self@.take(i + 1).last() == job);
            }
            if !job_set_contains(&seen, job) {
                job_set_insert(&mut seen, job);
                let ghost before = jobs@;
                jobs.push(job);
                assert forall|other: u64| job_set_contents(seen).contains(other) <==> jobs@.contains(
                    other,
                ) by {
                    if jobs@.contains(other) {
                        let k = choose|k: int| 0 <= k < jobs@.len() && jobs@[k] == other;
                        if k < before.len() {
                            assert(before[k] == other);
                        }
                    }
                    if before.contains(other) {
                        let k = choose|k: int| 0 <= k < before.len() && before[k] == other;
                        assert(jobs@[k] == other);
                    }
                    assert(jobs@[before.len() as int] == job);
                }
            }
            i += 1;
        }
        assert(self@.take(i as int) == self@);
        jobs
    }

    /// Number of jobs that the tour serves.
    pub fn job_count(&self) -> (count: usize)
        ensures
            count == distinct_jobs(self@).len(),
    {
        self.jobs().len()
    }

    /// Takes every activity of `job` out of the tour and says whether there was one.
    pub fn remove(&mut self, job: u64) -> (removed: bool)
        ensures
            removed == old(self)@.contains(job),
            final(self)@ == old(self)@.filter(other_than(job)),
    {
        let mut kept: Vec<u64> = Vec::new();
        let mut removed = false;
        let mut i: usize = 0;
        let ghost keep = other_than(job);
        while i < self.activities.len()
            invariant
                i <= self.activities.len(),
                self@ == old(self)@,
                keep == other_than(job),
                kept@ == self@.take(i as int).filter(keep),
                removed == self@.take(i as int).contains(job),
            decreases self.activities.len() - i,
        {
            let current = self.activities[i];
            proof {
                let front = self@.take(i as int);
                let next = self@.take(i + 1);
                assert(next == front.push(current));
                assert(next.drop_last() == front);
                reveal(Seq::filter);
                if front.contains(job) {
                    let k = choose|k: int| 0 <= k < front.len() && front[k] == job;
                    assert(next[k] == job);
                }
                if next.contains(job) && current != job {
                    let k = choose|k: int| 0 <= k < next.len() && next[k] == job;
                    assert(front[k] == job);
                }
                if current == job {
                    assert(next[i as int] == job);
                }
            }
            if current == job {
                removed = true;
            } else {
                kept.push(current);
            }
            i += 1;
        }
        assert(self@.take(i as int) == self@);
        self.activities = kept;
        removed
    }

    /// Puts an activity of `job` before the activity at `index`, or at the end.
    pub fn insert(&mut self, index: usize, job: u64)
        requires
            index <= old(self)@.len(),
        ensures
            final(self)@ == old(self)@.insert(index as int, job),
    {
        self.activities.insert(index, job);
    }
}

/// A route under construction.
pub struct RouteContext {
    pub tour: Tour,
}

impl View for RouteContext {
    type V = Seq<u64>;

    open spec fn view(&self) -> Seq<u64> {
        self.tour@
    }
}

impl RouteContext {
    /// An independent copy of the route.
    pub fn deep_copy(&self) -> (copy: RouteContext)
        ensures
            copy@ == self@,
    {
        let mut activities: Vec<u64> = Vec::new();
        let mut i: usize = 0;
        while i < self.tour.activities.len()
            invariant
                i <= self.tour.activities.len(),
                activities@ == self@.take(i as int),
            decreases self.tour.activities.len() - i,
        {
            activities.push(self.tour.activities[i]);
            assert(self@.take(i + 1) == self@.take(i as int).push(self@[i as int]));
            i += 1;
        }
        assert(self@.take(i as int) == self@);
        RouteContext { tour: Tour { activities } }
    }
}

/// What a solution under construction consists of, as the local search sees it.
pub struct SolutionView {
    /// The tour of each route.
    pub routes: Seq<Seq<u64>>,
    /// Jobs that must stay where they are.
    pub locked: Seq<u64>,
    /// Jobs left without a route, each with the code of the constraint that refused it.
    pub unassigned: Seq<(u64, i32)>,
}

/// The routes of a solution with the jobs that are locked or unassigned.
pub struct SolutionContext {
    pub routes: Vec<RouteContext>,
    pub locked: Vec<u64>,
    pub unassigned: Vec<(u64, i32)>,
}

impl View for SolutionContext {
    type V = SolutionView;

    open spec fn view(&self) -> SolutionView {
        SolutionView {
            routes: Seq::new(self.routes@.len(), |i: int| self.routes@[i]@),
            locked: self.locked@,
            unassigned: self.unassigned@,
        }
    }
}

/// A solution that insertion heuristics and local search work on.
pub struct InsertionContext {
    pub solution: SolutionContext,
}

impl View for InsertionContext {
    type V = SolutionView;

    open spec fn view(&self) -> SolutionView {
        self.solution@
    }
}

impl InsertionContext {
    /// An independent copy of the whole solution.
    pub fn deep_copy(&self) -> (copy: InsertionContext)
        ensures
            copy@ == self@,
    {
        let mut routes: Vec<RouteContext> = Vec::new();
        let mut i: usize = 0;
        while i < self.solution.routes.len()
            invariant
                i <= self.solution.routes.len(),
                routes@.len() == i,
                forall|k: int| 0 <= k < i ==> routes@[k]@ == self.solution.routes@[k]@,
            decreases self.solution.routes.len() - i,
        {
            routes.push(self.solution.routes[i].deep_copy());
            i += 1;
        }
        let mut locked: Vec<u64> = Vec::new();
        let mut j: usize = 0;
        while j < self.solution.locked.len()
            invariant
                j <= self.solution.locked.len(),
                locked@ == self.solution.locked@.take(j as int),
            decreases self.solution.locked.len() - j,
        {
            locked.push(self.solution.locked[j]);
            assert(self.solution.locked@.take(j + 1) == self.solution.locked@.take(j as int).push(
                self.solution.locked@[j as int],
            ));
            j += 1;
        }
        assert(self.solution.locked@.take(j as int) == self.solution.locked@);
        let mut unassigned: Vec<(u64, i32)> = Vec::new();
        let mut k: usize = 0;
        while k < self.solution.unassigned.len()
            invariant
                k <= self.solution.unassigned.len(),
                unassigned@ == self.solution.unassigned@.take(k as int),
            decreases self.solution.unassigned.len() - k,
        {
            unassigned.push(self.solution.unassigned[k]);
            assert(self.solution.unassigned@.take(k + 1) == self.solution.unassigned@.take(
                k as int,
            ).push(self.solution.unassigned@[k as int]));
            k += 1;
        }
        assert(self.solution.unassigned@.take(k as int) == self.solution.unassigned@);
        let copy = InsertionContext { solution: SolutionContext { routes, locked, unassigned } };
        assert(copy@.routes == self@.routes);
        copy
    }
}

/// Outcome of evaluating one insertion.
#[derive(Clone, Copy, PartialEq, Eq, Structural)]
pub enum InsertionResult {
    /// The job can be placed.
    Success,
    /// The job cannot be placed; `constraint` is the code of the constraint that refused it.
    Failure { constraint: i32 },
}

impl InsertionResult {
    /// The failure that stands for "nothing was evaluated".
    pub open spec fn default_failure() -> InsertionResult {
        InsertionResult::Failure { constraint: -1i32 }
    }

    /// A failure that no constraint stands behind.
    pub fn make_failure() -> (result: InsertionResult)
        ensures
            result == Self::default_failure(),
    {
        InsertionResult::Failure { constraint: -1 }
    }
}

/// The constraints of the problem, as far as insertion into a route asks them.
///
/// Implemented by the user of the library; nothing is assumed of its answers.
pub trait InsertionEvaluator {
    /// Says whether an activity of `job` can stand before position `index` of the route.
    fn evaluate(&self, route: &RouteContext, job: u64, index: usize) -> InsertionResult;
}

} // verus!
