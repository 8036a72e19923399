use crate::construction::{
    distinct_jobs, lemma_distinct_jobs_members, other_than, InsertionContext, InsertionEvaluator,
    InsertionResult, RouteContext, SolutionView,
};
use crate::random::Random;
use vstd::prelude::*;

verus! {

/// The shortest sequence of jobs that is worth moving.
pub const MIN_JOBS: usize = 2;

/// Where the placing of a list of jobs into one tour stands.
pub struct Placement {
    /// The tour with the jobs placed so far.
    pub tour: Seq<u64>,
    /// The jobs refused so far, each with the code of the refusal.
    pub failures: Seq<(u64, i32)>,
    /// The first position that is tried for the next job.
    pub start: int,
}

/// What became of one job: it was placed before position `index`, or refused with the
/// code of a constraint.
pub enum Outcome {
    Placed { index: int },
    Refused { constraint: i32 },
}

/// An outcome that the search for a place can end with: a position among those searched,
/// from `state.start` to the end of the tour, or a refusal, which carries the default code
/// when there was no position to search.
pub open spec fn outcome_allowed(state: Placement, outcome: Outcome) -> bool {
    match outcome {
        Outcome::Placed { index } => state.start <= index <= state.tour.len(),
        Outcome::Refused { constraint } => state.start > state.tour.len() ==> constraint == -1,
    }
}

/// Places one job as its outcome says. The next job starts behind the last position
/// looked at: the one taken, else the end of the tour, else `state.start` itself.
pub open spec fn place_job(state: Placement, job: u64, outcome: Outcome) -> Placement {
    match outcome {
        Outcome::Placed { index } => Placement {
            tour: state.tour.insert(index, job),
            failures: state.failures,
            start: index + 1,
        },
        Outcome::Refused { constraint } => Placement {
            tour: state.tour,
            failures: state.failures.push((job, constraint)),
            start: if state.start <= state.tour.len() {
                state.tour.len() as int + 1
            } else {
                state.start + 1
            },
        },
    }
}

/// Places the jobs one after another, in their order, each as its outcome says.
pub open spec fn place_jobs(state: Placement, jobs: Seq<u64>, outcomes: Seq<Outcome>) -> Placement
    decreases jobs.len(),
{
    if jobs.len() == 0 {
        state
    } else {
        place_job(
            place_jobs(state, jobs.drop_last(), outcomes.drop_last()),
            jobs.last(),
            outcomes[jobs.len() - 1],
        )
    }
}

/// There is one outcome for each job, and each is allowed where the placing then stands.
pub open spec fn outcomes_allowed(state: Placement, jobs: Seq<u64>, outcomes: Seq<Outcome>) -> bool {
    &&& outcomes.len() == jobs.len()
    &&& forall|k: int|
        0 <= k < jobs.len() ==> outcome_allowed(
            place_jobs(state, jobs.take(k), outcomes.take(k)),
            #[trigger] outcomes[k],
        )
}

/// The solution after a placement into route `route_idx`: that route has the new tour and
/// the refused jobs follow the jobs that were unassigned before.
pub open spec fn with_placement(
    solution: SolutionView,
    route_idx: int,
    placed: Placement,
) -> SolutionView {
    SolutionView {
        routes: solution.routes.update(route_idx, placed.tour),
        locked: solution.locked,
        unassigned: solution.unassigned + placed.failures,
    }
}

/// The test "is none of `removed`".
pub open spec fn none_of(removed: Seq<u64>) -> spec_fn(u64) -> bool {
    |job: u64| !removed.contains(job)
}

/// The tour without the activities of the `size` jobs from position `start` of `jobs` on.
pub open spec fn without_sequence(tour: Seq<u64>, jobs: Seq<u64>, start: int, size: int) -> Seq<
    u64,
> {
    tour.filter(none_of(jobs.subrange(start, start + size)))
}

/// The placing of jobs into route `route_idx` before the first job, which is tried from
/// position `start` on.
pub open spec fn placement_start(solution: SolutionView, route_idx: int, start: int) -> Placement {
    Placement { tour: solution.routes[route_idx], failures: Seq::empty(), start }
}

/// The solution after `jobs` were placed into route `route_idx` from position `start` on.
pub open spec fn inserted(
    solution: SolutionView,
    route_idx: int,
    start: int,
    jobs: Seq<u64>,
    outcomes: Seq<Outcome>,
) -> SolutionView {
    with_placement(
        solution,
        route_idx,
        place_jobs(placement_start(solution, route_idx, start), jobs, outcomes),
    )
}

/// The solution after the extraction from route `route_idx`.
pub open spec fn with_extraction(
    solution: SolutionView,
    route_idx: int,
    start: int,
    size: int,
) -> SolutionView {
    let tour = solution.routes[route_idx];
    SolutionView {
        routes: solution.routes.update(
            route_idx,
            without_sequence(tour, distinct_jobs(tour), start, size),
        ),
        locked: solution.locked,
        unassigned: solution.unassigned,
    }
}

/// A placement grows the tour and the failures together by one entry for each job.
pub proof fn lemma_place_jobs_counts(state: Placement, jobs: Seq<u64>, outcomes: Seq<Outcome>)
    requires
        0 <= state.start,
        outcomes_allowed(state, jobs, outcomes),
    ensures
        ({
            let placed = place_jobs(state, jobs, outcomes);
            &&& placed.tour.len() + placed.failures.len() == state.tour.len()
                + state.failures.len() + jobs.len()
            &&& placed.tour.len() >= state.tour.len()
            &&& placed.failures.len() >= state.failures.len()
            &&& 0 <= placed.start <= state.start + state.tour.len() + 2 * jobs.len()
            &&& placed.failures.take(state.failures.len() as int) == state.failures
        }),
    decreases jobs.len(),
{
    if jobs.len() > 0 {
        lemma_outcomes_allowed_front(state, jobs, outcomes);
        lemma_place_jobs_counts(state, jobs.drop_last(), outcomes.drop_last());
        let before = place_jobs(state, jobs.drop_last(), outcomes.drop_last());
        let placed = place_jobs(state, jobs, outcomes);
        assert(jobs.take(jobs.len() - 1) == jobs.drop_last());
        assert(outcomes.take(jobs.len() - 1) == outcomes.drop_last());
        assert(outcome_allowed(before, outcomes[jobs.len() - 1]));
        assert(placed.failures.take(state.failures.len() as int) =~= before.failures.take(
            state.failures.len() as int,
        ));
    } else {
        assert(state.failures.take(state.failures.len() as int) =~= state.failures);
    }
}

/// Outcomes that are allowed for a list of jobs are allowed for the jobs before the last.
pub proof fn lemma_outcomes_allowed_front(state: Placement, jobs: Seq<u64>, outcomes: Seq<Outcome>)
    requires
        jobs.len() > 0,
        outcomes_allowed(state, jobs, outcomes),
    ensures
        outcomes_allowed(state, jobs.drop_last(), outcomes.drop_last()),
{
    let front = jobs.drop_last();
    let given = outcomes.drop_last();
    assert forall|k: int| 0 <= k < front.len() implies outcome_allowed(
        place_jobs(state, front.take(k), given.take(k)),
        #[trigger] given[k],
    ) by {
        assert(front.take(k) == jobs.take(k));
        assert(given.take(k) == outcomes.take(k));
        assert(given[k] == outcomes[k]);
    }
}

/// Looks for a place for `job` from `start` to `last`, asking the constraints position by
/// position, and returns the last answer with its position.
fn find_insertion<E: InsertionEvaluator>(
    evaluator: &E,
    route: &RouteContext,
    job: u64,
    start: usize,
    last: usize,
) -> (found: (InsertionResult, usize))
    requires
        last < usize::MAX,
    ensures
        found.0 is Success ==> start <= found.1 <= last,
        !(found.0 is Success) && start <= last ==> found.1 == last,
        start > last ==> found == (InsertionResult::default_failure(), start),
{
    let mut result = InsertionResult::make_failure();
    let mut index = start;
    let mut at = start;
    while index <= last
        invariant
            start <= index <= last + 1 || (start > last && index == start),
            last < usize::MAX,
            index == start ==> result == InsertionResult::default_failure() && at == start,
            index > start ==> at == index - 1,
            !(result is Success),
        decreases last + 1 - index,
    {
        let answer = evaluator.evaluate(route, job, index);
        match answer {
            InsertionResult::Success => {
                return (answer, index);
            },
            InsertionResult::Failure { .. } => {
                result = answer;
                at = index;
            },
        }
        index += 1;
    }
    (result, at)
}

/// Returns the route at `route_idx`.
pub fn get_route_ctx(insertion_ctx: &InsertionContext, route_idx: usize) -> (route: &RouteContext)
    requires
        route_idx < insertion_ctx@.routes.len(),
    ensures
        route@ == insertion_ctx@.routes[route_idx as int],
        *route == insertion_ctx.solution.routes@[route_idx as int],
{
    &insertion_ctx.solution.routes[route_idx]
}

/// Places `jobs` into route `route_idx`, in their order, the first from position
/// `start_index` on and each later one behind the position reached for the one before it.
/// A job that finds no place joins the unassigned jobs.
pub fn place_jobs_from<E: InsertionEvaluator>(
    insertion_ctx: &mut InsertionContext,
    route_idx: usize,
    jobs: Vec<u64>,
    start_index: usize,
    evaluator: &E,
)
    requires
        route_idx < old(insertion_ctx)@.routes.len(),
        start_index + old(insertion_ctx)@.routes[route_idx as int].len() + 2 * jobs@.len()
            < usize::MAX,
    ensures
        exists|outcomes: Seq<Outcome>|
            outcomes_allowed(
                placement_start(old(insertion_ctx)@, route_idx as int, start_index as int),
                jobs@,
                outcomes,
            ) && final(insertion_ctx)@ == inserted(
                old(insertion_ctx)@,
                route_idx as int,
                start_index as int,
                jobs@,
                outcomes,
            ),
{
    let ghost begin = placement_start(insertion_ctx@, route_idx as int, start_index as int);
    let ghost mut outcomes: Seq<Outcome> = Seq::empty();
    let mut failures: Vec<(u64, i32)> = Vec::new();
    let mut start = start_index;
    let mut i: usize = 0;
    while i < jobs.len()
        invariant
            i <= jobs.len(),
            route_idx < insertion_ctx@.routes.len(),
            insertion_ctx@.routes.len() == old(insertion_ctx)@.routes.len(),
            begin == placement_start(old(insertion_ctx)@, route_idx as int, start_index as int),
            start_index + begin.tour.len() + 2 * jobs@.len() < usize::MAX,
            forall|k: int|
                0 <= k < insertion_ctx@.routes.len() && k != route_idx
                    ==> insertion_ctx@.routes[k] == old(insertion_ctx)@.routes[k],
            insertion_ctx@.locked == old(insertion_ctx)@.locked,
            insertion_ctx@.unassigned == old(insertion_ctx)@.unassigned,
            outcomes_allowed(begin, jobs@.take(i as int), outcomes),
            place_jobs(begin, jobs@.take(i as int), outcomes) == (Placement {
                tour: insertion_ctx@.routes[route_idx as int],
                failures: failures@,
                start: start as int,
            }),
        decreases jobs.len() - i,
    {
        let job = jobs[i];
        let ghost done = jobs@.take(i as int);
        let ghost state = place_jobs(begin, done, outcomes);
        proof {
            lemma_place_jobs_counts(begin, done, outcomes);
        }
        let last_index = get_route_ctx(insertion_ctx, route_idx).tour.job_activity_count();
        let (result, index) = find_insertion(
            evaluator,
            get_route_ctx(insertion_ctx, route_idx),
            job,
            start,
            last_index,
        );
        let ghost before = insertion_ctx@;
        let ghost outcome;
        match result {
            InsertionResult::Success => {
                insertion_ctx.solution.routes[route_idx].tour.insert(index, job);
                proof {
                    outcome = Outcome::Placed { index: index as int };
                    assert(insertion_ctx@.routes =~= before.routes.update(
                        route_idx as int,
                        before.routes[route_idx as int].insert(index as int, job),
                    ));
                }
            },
            InsertionResult::Failure { constraint } => {
                failures.push((job, constraint));
                proof {
                    outcome = Outcome::Refused { constraint };
                }
            },
        }
        proof {
            let next = jobs@.take(i + 1);
            let given = outcomes.push(outcome);
            assert(next.drop_last() == done);
            assert(given.drop_last() == outcomes);
            assert(next.last() == job);
            assert forall|k: int| 0 <= k < next.len() implies outcome_allowed(
                place_jobs(begin, next.take(k), given.take(k)),
                #[trigger] given[k],
            ) by {
                if k < i {
                    assert(next.take(k) == done.take(k));
                    assert(given.take(k) == outcomes.take(k));
                    assert(given[k] == outcomes[k]);
                } else {
                    assert(next.take(k) == done);
                    assert(given.take(k) == outcomes);
                }
            }
            outcomes = given;
        }
        start = index + 1;
        i += 1;
    }
    assert(jobs@.take(i as int) == jobs@);
    let mut k: usize = 0;
    while k < failures.len()
        invariant
            k <= failures.len(),
            insertion_ctx@.routes == old(insertion_ctx)@.routes.update(
                route_idx as int,
                place_jobs(begin, jobs@, outcomes).tour,
            ),
            insertion_ctx@.locked == old(insertion_ctx)@.locked,
            insertion_ctx@.unassigned == old(insertion_ctx)@.unassigned + failures@.take(k as int),
            failures@ == place_jobs(begin, jobs@, outcomes).failures,
        decreases failures.len() - k,
    {
        insertion_ctx.solution.unassigned.push(failures[k]);
        assert(failures@.take(k + 1) == failures@.take(k as int).push(failures@[k as int]));
        k += 1;
    }
    assert(failures@.take(k as int) == failures@);
    assert(insertion_ctx@ == inserted(
        old(insertion_ctx)@,
        route_idx as int,
        start_index as int,
        jobs@,
        outcomes,
    ));
}

/// Taking out one more job after some others is taking out all of them at once.
proof fn lemma_filter_one_more(tour: Seq<u64>, removed: Seq<u64>, job: u64)
    ensures
        tour.filter(none_of(removed)).filter(other_than(job)) == tour.filter(
            none_of(removed.push(job)),
        ),
    decreases tour.len(),
{
    reveal(Seq::filter);
    if tour.len() > 0 {
        let front = tour.drop_last();
        let last = tour.last();
        lemma_filter_one_more(front, removed, job);
        assert(tour == front.push(last));
        front.lemma_filter_push(last, none_of(removed));
        front.lemma_filter_push(last, none_of(removed.push(job)));
        front.filter(none_of(removed)).lemma_filter_push(last, other_than(job));
        if removed.contains(last) {
            let k = choose|k: int| 0 <= k < removed.len() && removed[k] == last;
            assert(removed.push(job)[k] == last);
        }
        if last == job {
            assert(removed.push(job)[removed.len() as int] == job);
        }
        if removed.push(job).contains(last) && last != job {
            let k = choose|k: int| 0 <= k < removed.push(job).len() && removed.push(job)[k] == last;
            assert(removed[k] == last);
        }
    }
}

/// A tour that loses the activities of some jobs keeps at least the other jobs.
pub proof fn lemma_jobs_left(tour: Seq<u64>, removed: Seq<u64>)
    ensures
        distinct_jobs(tour.filter(none_of(removed))).len() + removed.len() >= distinct_jobs(
            tour,
        ).len(),
        tour.filter(none_of(removed)).len() <= tour.len(),
{
    let left = tour.filter(none_of(removed));
    let before = distinct_jobs(tour);
    let after = distinct_jobs(left);
    lemma_distinct_jobs_members(tour);
    lemma_distinct_jobs_members(left);
    before.unique_seq_to_set();
    after.unique_seq_to_set();
    removed.lemma_cardinality_of_set();
    tour.lemma_filter_len(none_of(removed));
    broadcast use vstd::seq_lib::seq_to_set_is_finite;
    assert(before.to_set().subset_of(after.to_set().union(removed.to_set()))) by {
        assert forall|job: u64| before.to_set().contains(job) implies after.to_set().union(
            removed.to_set(),
        ).contains(job) by {
            assert(before.contains(job));
            assert(tour.contains(job));
            if !removed.contains(job) {
                let i = choose|i: int| 0 <= i < tour.len() && tour[i] == job;
                tour.lemma_filter_contains(none_of(removed), i);
                assert(left.contains(job));
                assert(after.contains(job));
            }
        }
    }
    vstd::set_lib::lemma_len_union(after.to_set(), removed.to_set());
    vstd::set_lib::lemma_len_subset(before.to_set(), after.to_set().union(removed.to_set()));
}

/// Takes the activities of `jobs[start..start + size]` out of route `route_idx`.
fn remove_sequence(
    insertion_ctx: &mut InsertionContext,
    route_idx: usize,
    jobs: &Vec<u64>,
    start: usize,
    size: usize,
)
    requires
        route_idx < old(insertion_ctx)@.routes.len(),
        start + size <= jobs@.len(),
    ensures
        final(insertion_ctx)@ == (SolutionView {
            routes: old(insertion_ctx)@.routes.update(
                route_idx as int,
                without_sequence(
                    old(insertion_ctx)@.routes[route_idx as int],
                    jobs@,
                    start as int,
                    size as int,
                ),
            ),
            locked: old(insertion_ctx)@.locked,
            unassigned: old(insertion_ctx)@.unassigned,
        }),
{
    let ghost tour = insertion_ctx@.routes[route_idx as int];
    let mut index = start;
    assert(jobs@.len() == jobs.len());
    let end = start + size;
    proof {
        assert(jobs@.subrange(start as int, start as int) =~= Seq::<u64>::empty());
        lemma_keep_all(tour);
    }
    while index < end
        invariant
            start <= index <= end <= jobs@.len(),
            end == start + size,
            route_idx < insertion_ctx@.routes.len(),
            insertion_ctx@.routes.len() == old(insertion_ctx)@.routes.len(),
            tour == old(insertion_ctx)@.routes[route_idx as int],
            insertion_ctx@.routes =~= old(insertion_ctx)@.routes.update(
                route_idx as int,
                tour.filter(none_of(jobs@.subrange(start as int, index as int))),
            ),
            insertion_ctx@.locked == old(insertion_ctx)@.locked,
            insertion_ctx@.unassigned == old(insertion_ctx)@.unassigned,
        decreases end - index,
    {
        let job = jobs[index];
        let ghost before = insertion_ctx@;
        insertion_ctx.solution.routes[route_idx].tour.remove(job);
        proof {
            let removed = jobs@.subrange(start as int, index as int);
            assert(jobs@.subrange(start as int, index + 1) =~= removed.push(job));
            lemma_filter_one_more(tour, removed, job);
            assert(insertion_ctx@.routes =~= before.routes.update(
                route_idx as int,
                before.routes[route_idx as int].filter(other_than(job)),
            ));
        }
        index += 1;
    }
}

/// Taking out no job leaves the tour as it is.
proof fn lemma_keep_all(tour: Seq<u64>)
    ensures
        tour.filter(none_of(Seq::<u64>::empty())) == tour,
    decreases tour.len(),
{
    reveal(Seq::filter);
    if tour.len() > 0 {
        lemma_keep_all(tour.drop_last());
        assert(tour == tour.drop_last().push(tour.last()));
    }
}

/// Takes a sequence of `sequence_size` jobs out of route `route_idx`, starting at a job
/// drawn from the second on, and returns all the jobs that the route served before, in
/// the order of their first activity.
pub fn extract_jobs<R: Random>(
    insertion_ctx: &mut InsertionContext,
    route_idx: usize,
    sequence_size: usize,
    random: &mut R,
) -> (jobs: Vec<u64>)
    requires
        route_idx < old(insertion_ctx)@.routes.len(),
        sequence_size + 1 < distinct_jobs(old(insertion_ctx)@.routes[route_idx as int]).len()
            <= i32::MAX,
    ensures
        jobs@ == distinct_jobs(old(insertion_ctx)@.routes[route_idx as int]),
        exists|start: int|
            1 <= start < jobs@.len() - sequence_size && final(insertion_ctx)@ == with_extraction(
                old(insertion_ctx)@,
                route_idx as int,
                start,
                sequence_size as int,
            ),
{
    let jobs = get_route_ctx(insertion_ctx, route_idx).tour.jobs();
    let job_count = jobs.len();
    let last_index = job_count - sequence_size;
    let start_index = random.uniform_int(1, last_index as i32) as usize;
    remove_sequence(insertion_ctx, route_idx, &jobs, start_index, sequence_size);
    assert(insertion_ctx@ == with_extraction(
        old(insertion_ctx)@,
        route_idx as int,
        start_index as int,
        sequence_size as int,
    ));
    jobs
}

/// Places `jobs` into route `route_idx`, one after another, from a drawn position on.
/// A job goes to the first position that the constraints accept, from the position
/// behind the one reached for the job before it; a job without such a position joins the
/// unassigned jobs.
pub fn insert_jobs<R: Random, E: InsertionEvaluator>(
    insertion_ctx: &mut InsertionContext,
    route_idx: usize,
    jobs: Vec<u64>,
    random: &mut R,
    evaluator: &E,
)
    requires
        route_idx < old(insertion_ctx)@.routes.len(),
        0 < old(insertion_ctx)@.routes[route_idx as int].len() <= i32::MAX,
        2 * old(insertion_ctx)@.routes[route_idx as int].len() + 2 * jobs@.len() < usize::MAX,
    ensures
        exists|start: int, outcomes: Seq<Outcome>|
            insertion_allowed(old(insertion_ctx)@, route_idx as int, start, jobs@, outcomes)
                && final(insertion_ctx)@ == inserted(
                old(insertion_ctx)@,
                route_idx as int,
                start,
                jobs@,
                outcomes,
            ),
{
    let count = get_route_ctx(insertion_ctx, route_idx).tour.job_activity_count();
    let start_index = random.uniform_int(0, count as i32) as usize;
    place_jobs_from(insertion_ctx, route_idx, jobs, start_index, evaluator);
    proof {
        let outcomes = choose|outcomes: Seq<Outcome>|
            outcomes_allowed(
                placement_start(old(insertion_ctx)@, route_idx as int, start_index as int),
                jobs@,
                outcomes,
            ) && insertion_ctx@ == inserted(
                old(insertion_ctx)@,
                route_idx as int,
                start_index as int,
                jobs@,
                outcomes,
            );
        assert(insertion_allowed(
            old(insertion_ctx)@,
            route_idx as int,
            start_index as int,
            jobs@,
            outcomes,
        ));
    }
}

/// The start is a position of the tour and the outcomes are allowed from there.
pub open spec fn insertion_allowed(
    solution: SolutionView,
    route_idx: int,
    start: int,
    jobs: Seq<u64>,
    outcomes: Seq<Outcome>,
) -> bool {
    &&& 0 <= start < solution.routes[route_idx].len()
    &&& outcomes_allowed(placement_start(solution, route_idx, start), jobs, outcomes)
}

/// The longest tour that an exchange is made with.
pub const MAX_TOUR_SIZE: usize = 0x0FFF_FFFF;

/// The random choices of one exchange.
pub struct ExchangeDraws {
    /// The route that gives first.
    pub first_route: int,
    /// How many jobs leave the first route.
    pub first_size: int,
    /// The route that gives second.
    pub second_route: int,
    /// How many jobs leave the second route.
    pub second_size: int,
    /// The place, among the jobs of the first route, of the first job that leaves it.
    pub first_start: int,
    /// The same for the second route, after the first route has given.
    pub second_start: int,
    /// The position from which the first route takes jobs in.
    pub first_at: int,
    /// The position from which the second route takes jobs in.
    pub second_at: int,
    /// What became of each job offered to the first route.
    pub first_outcomes: Seq<Outcome>,
    /// What became of each job offered to the second route.
    pub second_outcomes: Seq<Outcome>,
}

/// The solution after both routes have given.
pub open spec fn after_extractions(solution: SolutionView, draws: ExchangeDraws) -> SolutionView {
    with_extraction(
        with_extraction(solution, draws.first_route, draws.first_start, draws.first_size),
        draws.second_route,
        draws.second_start,
        draws.second_size,
    )
}

/// The jobs that the second route hands over: all that it serves once the first has given.
pub open spec fn second_jobs(solution: SolutionView, draws: ExchangeDraws) -> Seq<u64> {
    distinct_jobs(
        with_extraction(
            solution,
            draws.first_route,
            draws.first_start,
            draws.first_size,
        ).routes[draws.second_route],
    )
}

/// The solution after the first route has taken in the jobs of the second.
pub open spec fn after_first_insertion(solution: SolutionView, draws: ExchangeDraws) -> SolutionView {
    inserted(
        after_extractions(solution, draws),
        draws.first_route,
        draws.first_at,
        second_jobs(solution, draws),
        draws.first_outcomes,
    )
}

/// The solution after the exchange that the draws describe.
pub open spec fn exchanged(solution: SolutionView, draws: ExchangeDraws) -> SolutionView {
    inserted(
        after_first_insertion(solution, draws),
        draws.second_route,
        draws.second_at,
        distinct_jobs(solution.routes[draws.first_route]),
        draws.second_outcomes,
    )
}

/// The smaller of two numbers.
pub open spec fn smaller(a: int, b: int) -> int {
    if a <= b {
        a
    } else {
        b
    }
}

/// Each draw lies in the range that it is taken from, and the outcomes are allowed.
pub open spec fn draws_allowed(
    solution: SolutionView,
    route_indices: Seq<usize>,
    max_sequence_size: int,
    draws: ExchangeDraws,
) -> bool {
    let first_count = distinct_jobs(solution.routes[draws.first_route]).len() as int;
    let second_count = distinct_jobs(solution.routes[draws.second_route]).len() as int;
    &&& exists|k: int| 0 <= k < route_indices.len() && route_indices[k] == draws.first_route
    &&& exists|k: int| 0 <= k < route_indices.len() && route_indices[k] == draws.second_route
    &&& MIN_JOBS <= draws.first_size < smaller(first_count, max_sequence_size)
    &&& MIN_JOBS <= draws.second_size < smaller(second_count, max_sequence_size)
    &&& 1 <= draws.first_start < first_count - draws.first_size
    &&& 1 <= draws.second_start < second_jobs(solution, draws).len() - draws.second_size
    &&& insertion_allowed(
        after_extractions(solution, draws),
        draws.first_route,
        draws.first_at,
        second_jobs(solution, draws),
        draws.first_outcomes,
    )
    &&& insertion_allowed(
        after_first_insertion(solution, draws),
        draws.second_route,
        draws.second_at,
        distinct_jobs(solution.routes[draws.first_route]),
        draws.second_outcomes,
    )
}

/// The routes named by `route_indices` can exchange sequences of at most
/// `max_sequence_size` jobs, whichever of them the draws pick.
pub open spec fn exchangeable(
    solution: SolutionView,
    route_indices: Seq<usize>,
    max_sequence_size: int,
) -> bool {
    &&& 0 < route_indices.len() <= i32::MAX
    &&& MIN_JOBS < max_sequence_size
    &&& forall|k: int|
        0 <= k < route_indices.len() ==> {
            &&& (#[trigger] route_indices[k]) < solution.routes.len()
            &&& 2 * max_sequence_size <= distinct_jobs(
                solution.routes[route_indices[k] as int],
            ).len()
            &&& solution.routes[route_indices[k] as int].len() <= MAX_TOUR_SIZE
        }
}

/// An extraction touches one route only, which keeps all but the jobs taken out.
pub proof fn lemma_extraction(solution: SolutionView, route_idx: int, start: int, size: int)
    requires
        0 <= route_idx < solution.routes.len(),
        0 <= start,
        0 <= size,
        start + size <= distinct_jobs(solution.routes[route_idx]).len(),
    ensures
        ({
            let after = with_extraction(solution, route_idx, start, size);
            &&& after.routes.len() == solution.routes.len()
            &&& forall|k: int|
                0 <= k < solution.routes.len() && k != route_idx ==> after.routes[k]
                    == solution.routes[k]
            &&& after.routes[route_idx].len() <= solution.routes[route_idx].len()
            &&& distinct_jobs(after.routes[route_idx]).len() + size >= distinct_jobs(
                solution.routes[route_idx],
            ).len()
            &&& distinct_jobs(after.routes[route_idx]).len() <= after.routes[route_idx].len()
        }),
{
    let tour = solution.routes[route_idx];
    lemma_jobs_left(tour, distinct_jobs(tour).subrange(start, start + size));
    lemma_distinct_jobs_members(with_extraction(solution, route_idx, start, size).routes[route_idx]);
}

/// An insertion touches one route only, which grows by at most the jobs offered.
pub proof fn lemma_insertion(
    solution: SolutionView,
    route_idx: int,
    start: int,
    jobs: Seq<u64>,
    outcomes: Seq<Outcome>,
)
    requires
        0 <= route_idx < solution.routes.len(),
        insertion_allowed(solution, route_idx, start, jobs, outcomes),
    ensures
        ({
            let after = inserted(solution, route_idx, start, jobs, outcomes);
            &&& after.routes.len() == solution.routes.len()
            &&& forall|k: int|
                0 <= k < solution.routes.len() && k != route_idx ==> after.routes[k]
                    == solution.routes[k]
            &&& solution.routes[route_idx].len() <= after.routes[route_idx].len()
                <= solution.routes[route_idx].len() + jobs.len()
            &&& after.locked == solution.locked
            &&& after.unassigned.len() >= solution.unassigned.len()
            &&& after.unassigned.take(solution.unassigned.len() as int) == solution.unassigned
        }),
{
    lemma_place_jobs_counts(placement_start(solution, route_idx, start), jobs, outcomes);
    let after = inserted(solution, route_idx, start, jobs, outcomes);
    assert(after.unassigned.take(solution.unassigned.len() as int) =~= solution.unassigned);
}

/// Exchanges sequences of jobs between two routes drawn from `route_indices`: each route
/// gives a drawn sequence of its jobs and then takes in the jobs of the other.
pub fn exchange_jobs<R: Random, E: InsertionEvaluator>(
    insertion_ctx: &mut InsertionContext,
    route_indices: &[usize],
    max_sequence_size: usize,
    random: &mut R,
    evaluator: &E,
)
    requires
        exchangeable(old(insertion_ctx)@, route_indices@, max_sequence_size as int),
    ensures
        exists|draws: ExchangeDraws|
            draws_allowed(old(insertion_ctx)@, route_indices@, max_sequence_size as int, draws)
                && final(insertion_ctx)@ == exchanged(old(insertion_ctx)@, draws),
{
    let ghost s0 = insertion_ctx@;
    let first_pick = random.uniform_int(0, route_indices.len() as i32) as usize;
    let first_route_idx = route_indices[first_pick];
    let first_sequence_size = get_sequence_size(
        insertion_ctx,
        first_route_idx,
        max_sequence_size,
        random,
    );
    let second_pick = random.uniform_int(0, route_indices.len() as i32) as usize;
    let second_route_idx = route_indices[second_pick];
    let second_sequence_size = get_sequence_size(
        insertion_ctx,
        second_route_idx,
        max_sequence_size,
        random,
    );
    proof {
        lemma_distinct_jobs_members(s0.routes[first_route_idx as int]);
        lemma_distinct_jobs_members(s0.routes[second_route_idx as int]);
    }

    let first_jobs = extract_jobs(insertion_ctx, first_route_idx, first_sequence_size, random);
    let ghost s1 = insertion_ctx@;
    let ghost first_start = choose|start: int|
        1 <= start < first_jobs@.len() - first_sequence_size && s1 == with_extraction(
            s0,
            first_route_idx as int,
            start,
            first_sequence_size as int,
        );
    proof {
        lemma_extraction(s0, first_route_idx as int, first_start, first_sequence_size as int);
    }

    let second_jobs = extract_jobs(insertion_ctx, second_route_idx, second_sequence_size, random);
    let ghost s2 = insertion_ctx@;
    let ghost second_start = choose|start: int|
        1 <= start < second_jobs@.len() - second_sequence_size && s2 == with_extraction(
            s1,
            second_route_idx as int,
            start,
            second_sequence_size as int,
        );
    proof {
        lemma_extraction(s1, second_route_idx as int, second_start, second_sequence_size as int);
        lemma_distinct_jobs_members(s1.routes[second_route_idx as int]);
    }

    insert_jobs(insertion_ctx, first_route_idx, second_jobs, random, evaluator);
    let ghost s3 = insertion_ctx@;
    let ghost (first_at, first_outcomes) = choose|start: int, outcomes: Seq<Outcome>|
        insertion_allowed(s2, first_route_idx as int, start, second_jobs@, outcomes) && s3
            == inserted(s2, first_route_idx as int, start, second_jobs@, outcomes);
    proof {
        lemma_insertion(s2, first_route_idx as int, first_at, second_jobs@, first_outcomes);
    }

    insert_jobs(insertion_ctx, second_route_idx, first_jobs, random, evaluator);
    let ghost (second_at, second_outcomes) = choose|start: int, outcomes: Seq<Outcome>|
        insertion_allowed(s3, second_route_idx as int, start, first_jobs@, outcomes)
            && insertion_ctx@ == inserted(s3, second_route_idx as int, start, first_jobs@, outcomes);
    proof {
        let draws = ExchangeDraws {
            first_route: first_route_idx as int,
            first_size: first_sequence_size as int,
            second_route: second_route_idx as int,
            second_size: second_sequence_size as int,
            first_start,
            second_start,
            first_at,
            second_at,
            first_outcomes,
            second_outcomes,
        };
        assert(route_indices@[first_pick as int] == draws.first_route);
        assert(route_indices@[second_pick as int] == draws.second_route);
        assert(after_extractions(s0, draws) == s2);
        assert(after_first_insertion(s0, draws) == s3);
        assert(draws_allowed(s0, route_indices@, max_sequence_size as int, draws));
        assert(insertion_ctx@ == exchanged(s0, draws));
    }
}

/// Draws how many jobs leave route `route_idx`: at least `MIN_JOBS`, and fewer than the
/// route serves and than `max_sequence_size`.
fn get_sequence_size<R: Random>(
    insertion_ctx: &InsertionContext,
    route_idx: usize,
    max_sequence_size: usize,
    random: &mut R,
) -> (size: usize)
    requires
        route_idx < insertion_ctx@.routes.len(),
        MIN_JOBS < max_sequence_size,
        MIN_JOBS < distinct_jobs(insertion_ctx@.routes[route_idx as int]).len(),
        insertion_ctx@.routes[route_idx as int].len() <= MAX_TOUR_SIZE,
    ensures
        MIN_JOBS <= size < smaller(
            distinct_jobs(insertion_ctx@.routes[route_idx as int]).len() as int,
            max_sequence_size as int,
        ),
{
    proof {
        lemma_distinct_jobs_members(insertion_ctx@.routes[route_idx as int]);
    }
    let job_count = get_route_ctx(insertion_ctx, route_idx).tour.job_count();
    let bound = if job_count <= max_sequence_size {
        job_count
    } else {
        max_sequence_size
    };
    random.uniform_int(MIN_JOBS as i32, bound as i32) as usize
}

/// Route `k` holds no locked job and serves fewer than `MIN_JOBS` jobs.
pub open spec fn is_candidate(solution: SolutionView, k: int) -> bool {
    &&& forall|i: int|
        0 <= i < solution.routes[k].len() ==> !solution.locked.contains(
            #[trigger] solution.routes[k][i],
        )
    &&& distinct_jobs(solution.routes[k]).len() < MIN_JOBS
}

/// The candidates among the first `n` routes, in rising order.
pub open spec fn candidate_routes(solution: SolutionView, n: int) -> Seq<usize>
    decreases n,
{
    if n <= 0 {
        Seq::empty()
    } else if is_candidate(solution, n - 1) {
        candidate_routes(solution, n - 1).push((n - 1) as usize)
    } else {
        candidate_routes(solution, n - 1)
    }
}

/// True when `jobs` holds `job`.
fn holds(jobs: &Vec<u64>, job: u64) -> (found: bool)
    ensures
        found == jobs@.contains(job),
{
    let mut i: usize = 0;
    while i < jobs.len()
        invariant
            i <= jobs.len(),
            forall|k: int| 0 <= k < i ==> jobs@[k] != job,
        decreases jobs.len() - i,
    {
        if jobs[i] == job {
            return true;
        }
        i += 1;
    }
    false
}

/// True when some activity of the route serves a locked job.
fn has_locked_jobs(route: &RouteContext, locked: &Vec<u64>) -> (found: bool)
    ensures
        found == exists|i: int| 0 <= i < route@.len() && locked@.contains(#[trigger] route@[i]),
{
    let mut i: usize = 0;
    while i < route.tour.activities.len()
        invariant
            i <= route.tour.activities.len(),
            forall|k: int| 0 <= k < i ==> !locked@.contains(#[trigger] route@[k]),
        decreases route.tour.activities.len() - i,
    {
        if holds(locked, route.tour.activities[i]) {
            assert(locked@.contains(route@[i as int]));
            return true;
        }
        i += 1;
    }
    false
}

/// Says whether the routes named by `route_indices` can exchange sequences of at most
/// `max_sequence_size` jobs.
pub fn can_exchange(
    insertion_ctx: &InsertionContext,
    route_indices: &[usize],
    max_sequence_size: usize,
) -> (possible: bool)
    ensures
        possible == exchangeable(insertion_ctx@, route_indices@, max_sequence_size as int),
{
    if route_indices.len() == 0 || route_indices.len() > 0x7FFF_FFFF || max_sequence_size
        <= MIN_JOBS {
        return false;
    }
    let mut k: usize = 0;
    while k < route_indices.len()
        invariant
            k <= route_indices.len(),
            forall|j: int|
                0 <= j < k ==> {
                    &&& (#[trigger] route_indices@[j]) < insertion_ctx@.routes.len()
                    &&& 2 * max_sequence_size <= distinct_jobs(
                        insertion_ctx@.routes[route_indices@[j] as int],
                    ).len()
                    &&& insertion_ctx@.routes[route_indices@[j] as int].len() <= MAX_TOUR_SIZE
                },
        decreases route_indices.len() - k,
    {
        let route_idx = route_indices[k];
        if route_idx >= insertion_ctx.solution.routes.len() {
            return false;
        }
        let route = get_route_ctx(insertion_ctx, route_idx);
        if route.tour.job_activity_count() > MAX_TOUR_SIZE || route.tour.job_count() / 2
            < max_sequence_size {
            return false;
        }
        k += 1;
    }
    true
}

/// A local search operator which tries to exchange sequences of jobs between routes.
pub struct ExchangeSequence {
    max_sequence_size: usize,
}

impl ExchangeSequence {
    /// An operator that moves sequences of at most `max_sequence_size` jobs.
    pub fn new(max_sequence_size: usize) -> (operator: ExchangeSequence)
        ensures
            operator.max_sequence_size() == max_sequence_size,
    {
        ExchangeSequence { max_sequence_size }
    }

    /// The longest sequence that the operator moves.
    pub closed spec fn max_sequence_size(&self) -> usize {
        self.max_sequence_size
    }

    /// Looks for a neighbour of the solution: a copy in which two candidate routes have
    /// exchanged sequences of jobs. There is none when no route is a candidate, or when
    /// the candidates cannot exchange sequences of the operator's size.
    pub fn explore<R: Random, E: InsertionEvaluator>(
        &self,
        insertion_ctx: &InsertionContext,
        random: &mut R,
        evaluator: &E,
    ) -> (neighbour: Option<InsertionContext>)
        ensures
            ({
                let candidates = candidate_routes(
                    insertion_ctx@,
                    insertion_ctx@.routes.len() as int,
                );
                match neighbour {
                    None => !exchangeable(
                        insertion_ctx@,
                        candidates,
                        self.max_sequence_size() as int,
                    ),
                    Some(changed) => exchangeable(
                        insertion_ctx@,
                        candidates,
                        self.max_sequence_size() as int,
                    ) && exists|draws: ExchangeDraws|
                        draws_allowed(
                            insertion_ctx@,
                            candidates,
                            self.max_sequence_size() as int,
                            draws,
                        ) && changed@ == exchanged(insertion_ctx@, draws),
                }
            }),
    {
        let mut route_indices: Vec<usize> = Vec::new();
        let mut idx: usize = 0;
        while idx < insertion_ctx.solution.routes.len()
            invariant
                idx <= insertion_ctx.solution.routes.len(),
                route_indices@ == candidate_routes(insertion_ctx@, idx as int),
            decreases insertion_ctx.solution.routes.len() - idx,
        {
            let route_ctx = get_route_ctx(insertion_ctx, idx);
            let has_locked_jobs = has_locked_jobs(route_ctx, &insertion_ctx.solution.locked);
            let has_enough_jobs = route_ctx.tour.job_count() >= MIN_JOBS;
            if !(has_locked_jobs || has_enough_jobs) {
                route_indices.push(idx);
            }
            idx += 1;
        }
        if route_indices.len() == 0 {
            return None;
        }
        if !can_exchange(insertion_ctx, route_indices.as_slice(), self.max_sequence_size) {
            return None;
        }
        let mut changed = insertion_ctx.deep_copy();
        exchange_jobs(
            &mut changed,
            route_indices.as_slice(),
            self.max_sequence_size,
            random,
            evaluator,
        );
        Some(changed)
    }
}

} // verus!
