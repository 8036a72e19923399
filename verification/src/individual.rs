use crate::numeric::WEIGHT_LIMIT;
use vstd::prelude::*;

verus! {

/// Two fitness components closer than this are taken for equal.
pub const FITNESS_EPSILON: i64 = 1;

/// Number of features that describe a solution.
pub const FEATURES: usize = 5;

/// The two components are equal within the tolerance.
pub open spec fn same_component(a: i64, b: i64) -> bool {
    -(FITNESS_EPSILON as int) < a - b < FITNESS_EPSILON
}

/// `a` is better than `b` on the components from `i` on: at the first of them that
/// differs, `a` is lower; a vector that ends first is the better one.
pub open spec fn less_from(a: Seq<i64>, b: Seq<i64>, i: int) -> bool
    decreases b.len() - i,
{
    if i < 0 || i >= b.len() {
        false
    } else if i >= a.len() {
        true
    } else if same_component(a[i], b[i]) {
        less_from(a, b, i + 1)
    } else {
        a[i] < b[i]
    }
}

/// Fitness `a` is strictly better than fitness `b`, in lexicographic order.
pub open spec fn fitness_less(a: Seq<i64>, b: Seq<i64>) -> bool {
    less_from(a, b, 0)
}

/// All components of the two fitness vectors compare equal.
pub open spec fn same_fitness(a: Seq<i64>, b: Seq<i64>) -> bool {
    &&& a.len() == b.len()
    &&& forall|i: int| 0 <= i < a.len() ==> same_component(#[trigger] a[i], b[i])
}

/// With a tolerance of one unit, fitness vectors that compare equal are equal.
pub proof fn lemma_same_fitness_is_equality(a: Seq<i64>, b: Seq<i64>)
    ensures
        same_fitness(a, b) <==> a == b,
{
    if same_fitness(a, b) {
        assert(a =~= b);
    }
}

/// From position `i` on, one of the two vectors is better or they do not differ.
pub proof fn lemma_less_from_total(a: Seq<i64>, b: Seq<i64>, i: int)
    requires
        0 <= i <= a.len(),
        i <= b.len(),
    ensures
        less_from(a, b, i) || less_from(b, a, i) || (a.len() == b.len() && forall|k: int|
            i <= k < a.len() ==> a[k] == b[k]),
        !(less_from(a, b, i) && less_from(b, a, i)),
        less_from(a, b, i) ==> !(a.len() == b.len() && forall|k: int|
            i <= k < a.len() ==> a[k] == b[k]),
    decreases a.len() + b.len() - i,
{
    if i < a.len() && i < b.len() {
        if same_component(a[i], b[i]) {
            lemma_less_from_total(a, b, i + 1);
            if less_from(a, b, i) && a.len() == b.len() {
                let k = choose|k: int| i + 1 <= k < a.len() && a[k] != b[k];
                assert(a[k] != b[k]);
            }
        }
    }
}

/// Being better is transitive, from any position on.
pub proof fn lemma_less_from_transitive(a: Seq<i64>, b: Seq<i64>, c: Seq<i64>, i: int)
    requires
        0 <= i,
        less_from(a, b, i),
        less_from(b, c, i),
    ensures
        less_from(a, c, i),
    decreases c.len() - i,
{
    if i < a.len() && same_component(a[i], b[i]) && same_component(b[i], c[i]) {
        lemma_less_from_transitive(a, b, c, i + 1);
    }
}

/// The order of fitness vectors is strict and total: of two vectors, exactly one is
/// better or both are the same; and being better is transitive.
pub proof fn lemma_fitness_order(a: Seq<i64>, b: Seq<i64>, c: Seq<i64>)
    ensures
        fitness_less(a, b) || fitness_less(b, a) || same_fitness(a, b),
        !(fitness_less(a, b) && fitness_less(b, a)),
        !(fitness_less(a, b) && same_fitness(a, b)),
        fitness_less(a, b) && fitness_less(b, c) ==> fitness_less(a, c),
{
    lemma_less_from_total(a, b, 0);
    lemma_less_from_total(b, a, 0);
    lemma_same_fitness_is_equality(a, b);
    if fitness_less(a, b) && fitness_less(b, c) {
        lemma_less_from_transitive(a, b, c, 0);
    }
    if a.len() == b.len() && (forall|k: int| 0 <= k < a.len() ==> a[k] == b[k]) {
        assert(a =~= b);
    }
}

/// What the population reads of a solution.
pub struct IndividualView {
    /// The name by which the owner of the solution finds it again.
    pub key: u64,
    /// The fitness components, the most important first; lower is better.
    pub fitness: Seq<i64>,
    /// The features: load variance, customers deviation, duration mean, distance mean and
    /// distance gravity mean.
    pub features: Seq<i64>,
}

/// A solution, as far as the population reads it.
pub struct Individual {
    pub key: u64,
    pub fitness: Vec<i64>,
    pub max_load_variance: i64,
    pub customers_deviation: i64,
    pub duration_mean: i64,
    pub distance_mean: i64,
    pub distance_gravity_mean: i64,
}

/// The value is a weight that the network can hold.
pub open spec fn in_weight_range(value: i64) -> bool {
    -WEIGHT_LIMIT <= value <= WEIGHT_LIMIT
}

impl View for Individual {
    type V = IndividualView;

    open spec fn view(&self) -> IndividualView {
        IndividualView {
            key: self.key,
            fitness: self.fitness@,
            features: seq![
                self.max_load_variance,
                self.customers_deviation,
                self.duration_mean,
                self.distance_mean,
                self.distance_gravity_mean,
            ],
        }
    }
}

impl IndividualView {
    /// Each feature is a weight that the network can hold.
    pub open spec fn wf(self) -> bool {
        &&& self.features.len() == FEATURES
        &&& forall|i: int| 0 <= i < self.features.len() ==> in_weight_range(#[trigger] self.features[i])
    }
}

/// True when the value is a weight that the network can hold.
pub fn is_weight(value: i64) -> (fits: bool)
    ensures
        fits == in_weight_range(value),
{
    -WEIGHT_LIMIT <= value && value <= WEIGHT_LIMIT
}

impl Individual {
    /// Each feature is a weight that the network can hold.
    pub open spec fn wf(&self) -> bool {
        self@.wf()
    }

    /// Says whether each feature is a weight that the network can hold.
    pub fn is_valid(&self) -> (valid: bool)
        ensures
            valid == self.wf(),
    {
        let valid = is_weight(self.max_load_variance) && is_weight(self.customers_deviation)
            && is_weight(self.duration_mean) && is_weight(self.distance_mean) && is_weight(
            self.distance_gravity_mean,
        );
        proof {
            let features = self@.features;
            assert(features[0] == self.max_load_variance);
            assert(features[1] == self.customers_deviation);
            assert(features[2] == self.duration_mean);
            assert(features[3] == self.distance_mean);
            assert(features[4] == self.distance_gravity_mean);
        }
        valid
    }

    /// An independent copy of the solution.
    pub fn deep_copy(&self) -> (copy: Individual)
        ensures
            copy@ == self@,
    {
        let mut fitness: Vec<i64> = Vec::new();
        let mut i: usize = 0;
        while i < self.fitness.len()
            invariant
                i <= self.fitness.len(),
                fitness@ == self.fitness@.take(i as int),
            decreases self.fitness.len() - i,
        {
            fitness.push(self.fitness[i]);
            assert(self.fitness@.take(i + 1) == self.fitness@.take(i as int).push(
                self.fitness@[i as int],
            ));
            i += 1;
        }
        assert(self.fitness@.take(i as int) == self.fitness@);
        Individual {
            key: self.key,
            fitness,
            max_load_variance: self.max_load_variance,
            customers_deviation: self.customers_deviation,
            duration_mean: self.duration_mean,
            distance_mean: self.distance_mean,
            distance_gravity_mean: self.distance_gravity_mean,
        }
    }

    /// The fitness components, the most important first.
    pub fn get_fitness_values(&self) -> (values: &Vec<i64>)
        ensures
            values@ == self@.fitness,
    {
        &self.fitness
    }
}

/// Says whether the first solution is strictly better than the second.
pub fn is_better(a: &Individual, b: &Individual) -> (better: bool)
    ensures
        better == fitness_less(a@.fitness, b@.fitness),
{
    let mut i: usize = 0;
    while i < a.fitness.len() && i < b.fitness.len()
        invariant
            i <= a.fitness.len(),
            i <= b.fitness.len(),
            fitness_less(a@.fitness, b@.fitness) == less_from(a@.fitness, b@.fitness, i as int),
        decreases a.fitness.len() - i,
    {
        let x = a.fitness[i];
        let y = b.fitness[i];
        if x != y {
            return x < y;
        }
        i += 1;
    }
    i < b.fitness.len()
}

/// Says whether all fitness components of the two solutions compare equal.
pub fn is_same_fitness(a: &Individual, b: &Individual) -> (same: bool)
    ensures
        same == same_fitness(a@.fitness, b@.fitness),
{
    if a.fitness.len() != b.fitness.len() {
        return false;
    }
    let mut i: usize = 0;
    while i < a.fitness.len()
        invariant
            i <= a.fitness.len(),
            a.fitness.len() == b.fitness.len(),
            forall|k: int| 0 <= k < i ==> same_component(#[trigger] a@.fitness[k], b@.fitness[k]),
        decreases a.fitness.len() - i,
    {
        if a.fitness[i] != b.fitness[i] {
            assert(!same_component(a@.fitness[i as int], b@.fitness[i as int]));
            return false;
        }
        i += 1;
    }
    true
}

} // verus!
