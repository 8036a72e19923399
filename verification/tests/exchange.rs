use rand::rngs::StdRng;
use rand::SeedableRng;
use rosomaxa::construction::{
    InsertionContext, InsertionEvaluator, InsertionResult, RouteContext, SolutionContext, Tour,
};
use rosomaxa::exchange_sequence::{
    can_exchange, exchange_jobs, extract_jobs, get_route_ctx, insert_jobs, place_jobs_from,
    ExchangeSequence,
};
use rosomaxa::random::Random;

/// Hands out the scripted values one after another, then the lower bound.
struct Scripted {
    values: Vec<i32>,
    next: usize,
}

impl Scripted {
    fn new(values: Vec<i32>) -> Self {
        Scripted { values, next: 0 }
    }
}

impl Random for Scripted {
    fn uniform_int(&mut self, low: i32, high: i32) -> i32 {
        let value = if self.next < self.values.len() { self.values[self.next] } else { low };
        self.next += 1;
        assert!(low <= value && value < high);
        value
    }

    fn get_rng(&mut self) -> StdRng {
        StdRng::seed_from_u64(7)
    }
}

/// Accepts every position.
struct AcceptAll;

impl InsertionEvaluator for AcceptAll {
    fn evaluate(&self, _route: &RouteContext, _job: u64, _index: usize) -> InsertionResult {
        InsertionResult::Success
    }
}

/// Refuses odd jobs everywhere with code 5 and accepts even jobs at even positions.
struct EvenOnly;

impl InsertionEvaluator for EvenOnly {
    fn evaluate(&self, _route: &RouteContext, job: u64, index: usize) -> InsertionResult {
        if job % 2 == 1 {
            InsertionResult::Failure { constraint: 5 }
        } else if index % 2 == 0 {
            InsertionResult::Success
        } else {
            InsertionResult::Failure { constraint: 9 }
        }
    }
}

fn context(tours: Vec<Vec<u64>>, locked: Vec<u64>) -> InsertionContext {
    let routes = tours
        .into_iter()
        .map(|activities| RouteContext { tour: Tour { activities } })
        .collect();
    InsertionContext { solution: SolutionContext { routes, locked, unassigned: vec![] } }
}

fn tour_of(ctx: &InsertionContext, route_idx: usize) -> Vec<u64> {
    ctx.solution.routes[route_idx].tour.activities.clone()
}

#[test]
fn tour_lists_each_job_once_in_order_of_first_activity() {
    let tour = Tour { activities: vec![4, 7, 4, 2, 7, 9] };
    assert_eq!(tour.jobs(), vec![4, 7, 2, 9]);
    assert_eq!(tour.job_count(), 4);
    assert_eq!(tour.job_activity_count(), 6);
}

#[test]
fn tour_remove_takes_out_every_activity_of_the_job() {
    let mut tour = Tour { activities: vec![4, 7, 4, 2] };
    assert!(tour.remove(4));
    assert_eq!(tour.activities, vec![7, 2]);
    assert!(!tour.remove(4));
    assert_eq!(tour.activities, vec![7, 2]);
    tour.insert(1, 11);
    assert_eq!(tour.activities, vec![7, 11, 2]);
    tour.insert(3, 12);
    assert_eq!(tour.activities, vec![7, 11, 2, 12]);
}

#[test]
fn get_route_ctx_returns_the_route_at_the_index() {
    let ctx = context(vec![vec![1, 2], vec![3]], vec![]);
    assert_eq!(get_route_ctx(&ctx, 1).tour.activities, vec![3]);
    assert_eq!(get_route_ctx(&ctx, 0).tour.activities, vec![1, 2]);
}

#[test]
fn place_jobs_from_puts_each_job_behind_the_one_before() {
    let mut ctx = context(vec![vec![1, 2, 3]], vec![]);
    place_jobs_from(&mut ctx, 0, vec![10, 11], 1, &AcceptAll);
    assert_eq!(tour_of(&ctx, 0), vec![1, 10, 11, 2, 3]);
    assert!(ctx.solution.unassigned.is_empty());
}

#[test]
fn place_jobs_from_reports_refused_jobs_with_the_last_code() {
    let mut ctx = context(vec![vec![1, 3]], vec![]);
    // 20 goes to position 2 (the first even position from 1 on); 21 is refused at position 3,
    // the only one left; for 22 no position is left at all.
    place_jobs_from(&mut ctx, 0, vec![20, 21, 22], 1, &EvenOnly);
    assert_eq!(tour_of(&ctx, 0), vec![1, 3, 20]);
    assert_eq!(ctx.solution.unassigned, vec![(21, 5), (22, -1)]);
}

#[test]
fn extract_jobs_removes_the_drawn_sequence_and_returns_all_jobs() {
    let mut ctx = context(vec![vec![1, 2, 3, 4, 5, 6]], vec![]);
    let mut random = Scripted::new(vec![2]);
    let jobs = extract_jobs(&mut ctx, 0, 3, &mut random);
    assert_eq!(jobs, vec![1, 2, 3, 4, 5, 6]);
    assert_eq!(tour_of(&ctx, 0), vec![1, 2, 6]);
}

#[test]
fn insert_jobs_starts_at_the_drawn_position() {
    let mut ctx = context(vec![vec![1, 2, 3], vec![8]], vec![]);
    let mut random = Scripted::new(vec![2]);
    insert_jobs(&mut ctx, 0, vec![30, 31], &mut random, &AcceptAll);
    assert_eq!(tour_of(&ctx, 0), vec![1, 2, 30, 31, 3]);
    assert_eq!(tour_of(&ctx, 1), vec![8]);
}

#[test]
fn exchange_jobs_moves_sequences_between_two_routes() {
    let first: Vec<u64> = (1..=6).collect();
    let second: Vec<u64> = (11..=16).collect();
    let mut ctx = context(vec![first, second], vec![]);
    // routes 0 and 1, two jobs each, from the second job on, inserted at the front
    let mut random = Scripted::new(vec![0, 2, 1, 2, 1, 1, 0, 0]);
    assert!(can_exchange(&ctx, &[0, 1], 3));
    exchange_jobs(&mut ctx, &[0, 1], 3, &mut random, &AcceptAll);
    assert_eq!(tour_of(&ctx, 0), vec![11, 12, 13, 14, 15, 16, 1, 4, 5, 6]);
    assert_eq!(tour_of(&ctx, 1), vec![1, 2, 3, 4, 5, 6, 11, 14, 15, 16]);
    assert!(ctx.solution.unassigned.is_empty());
}

#[test]
fn can_exchange_asks_for_twice_the_sequence_size() {
    let ctx = context(vec![(1..=6).collect(), (1..=5).collect()], vec![]);
    assert!(can_exchange(&ctx, &[0], 3));
    assert!(!can_exchange(&ctx, &[0, 1], 3));
    assert!(!can_exchange(&ctx, &[0], 2));
    assert!(!can_exchange(&ctx, &[], 3));
    assert!(!can_exchange(&ctx, &[2], 3));
}

#[test]
fn explore_finds_nothing_without_candidates() {
    let ctx = context(vec![vec![1, 2, 3], vec![4, 5]], vec![]);
    let operator = ExchangeSequence::new(3);
    let mut random = Scripted::new(vec![]);
    assert!(operator.explore(&ctx, &mut random, &AcceptAll).is_none());
}

#[test]
fn explore_finds_nothing_when_candidates_are_too_short() {
    let ctx = context(vec![vec![1], vec![4, 5]], vec![]);
    let operator = ExchangeSequence::new(3);
    let mut random = Scripted::new(vec![]);
    assert!(operator.explore(&ctx, &mut random, &AcceptAll).is_none());
}
