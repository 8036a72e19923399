use crate::elitism::{count_better, lemma_count_better_bounds, views, Elitism, ElitismView};
use crate::gsom::{
    bmu, healed, is_bridge, retained, survivors, valid_weights, wanted, well_formed, Input,
    NetworkView, NodeView, Storage,
};
use crate::individual::{
    fitness_less, is_better, lemma_fitness_order, same_fitness, Individual, IndividualView,
    FEATURES,
};
use crate::network::{
    lemma_any_wanted, lemma_stored_nodes, node_views, verdicts_of, Network, Node, NodeFilter,
};
use crate::numeric::SCALE;
use crate::random::{shuffle, Random};
use crate::statistics::{ascending, relative_distance, relative_distance_of, sort_ascending};
use std::cmp::Ordering;
use vstd::prelude::*;

verus! {

/// Specifies rosomaxa configuration settings. Factors and ratios are parts of `SCALE`.
pub struct RosomaxaConfig {
    /// Selection size.
    pub selection_size: usize,
    /// Elite population size.
    pub elite_size: usize,
    /// Node population size.
    pub node_size: usize,
    /// The growth threshold of GSOM: minus the dimension times the binary logarithm of
    /// the spread factor.
    pub growth_threshold: u64,
    /// The reduction factor of GSOM.
    pub reduction_factor: i64,
    /// Distribution factor of GSOM.
    pub distribution_factor: i64,
    /// Learning rate of GSOM.
    pub learning_rate: i64,
    /// A node hit memory of GSOM.
    pub hit_memory: usize,
    /// A ratio of exploration phase.
    pub exploration_ratio: i64,
}

impl RosomaxaConfig {
    /// The factors lie strictly between zero and one, the hit memory is positive, and the
    /// population sizes fit the random numbers.
    pub open spec fn wf(&self) -> bool {
        &&& 0 < self.reduction_factor < SCALE
        &&& 0 < self.distribution_factor < SCALE
        &&& 0 < self.learning_rate < SCALE
        &&& 0 < self.hit_memory
        &&& self.elite_size <= i32::MAX
        &&& self.node_size <= i32::MAX
    }

    /// The sizes allow the three phases: two elite members, two members in each node and
    /// four selected.
    pub open spec fn allows_phases(&self) -> bool {
        self.elite_size >= 2 && self.node_size >= 2 && self.selection_size >= 4
    }

    /// Says whether the settings are in their ranges.
    pub fn is_valid(&self) -> (valid: bool)
        ensures
            valid == self.wf(),
    {
        0 < self.reduction_factor && self.reduction_factor < SCALE && 0 < self.distribution_factor
            && self.distribution_factor < SCALE && 0 < self.learning_rate && self.learning_rate
            < SCALE && 0 < self.hit_memory && self.elite_size <= 0x7FFF_FFFF && self.node_size
            <= 0x7FFF_FFFF
    }

    /// The default settings for the given selection size: two elite members, two members
    /// in each node, a growth threshold of 5 (that of the spread factor 0.5), reduction
    /// factor 0.1, distribution factor 0.25, learning rate 0.1, hit memory 1000 and
    /// exploration ratio 0.9.
    pub fn with_selection_size(selection_size: usize) -> (config: RosomaxaConfig)
        ensures
            config.wf(),
            config == (RosomaxaConfig {
                selection_size,
                elite_size: 2,
                node_size: 2,
                growth_threshold: 5_000_000,
                reduction_factor: 100_000,
                distribution_factor: 250_000,
                learning_rate: 100_000,
                hit_memory: 1000,
                exploration_ratio: 900_000,
            }),
    {
        RosomaxaConfig {
            selection_size,
            elite_size: 2,
            node_size: 2,
            growth_threshold: 5_000_000,
            reduction_factor: 100_000,
            distribution_factor: 250_000,
            learning_rate: 100_000,
            hit_memory: 1000,
            exploration_ratio: 900_000,
        }
    }
}

/// What the search reports at the end of a generation.
pub struct Statistics {
    /// The number of the generation.
    pub generation: usize,
    /// How far the search has come, between zero and `SCALE`.
    pub termination_estimate: i64,
}

/// The phase of the selection.
#[derive(Clone, Copy, PartialEq, Eq, Structural, Debug)]
pub enum SelectionPhase {
    Initial,
    Exploration,
    Exploitation,
}

/// A solution as an input of the map: its features are the weights.
pub struct IndividualInput {
    weights: Vec<i64>,
    individual: Individual,
}

impl View for IndividualInput {
    type V = IndividualView;

    closed spec fn view(&self) -> IndividualView {
        self.individual@
    }
}

impl IndividualInput {
    #[verifier::type_invariant]
    spec fn weights_are_features(self) -> bool {
        self.weights@ == self.individual@.features
    }

    /// Wraps the solution.
    pub fn new(individual: Individual) -> (input: IndividualInput)
        ensures
            input@ == individual@,
    {
        let weights = IndividualInput::get_weights(&individual);
        IndividualInput { weights, individual }
    }

    /// The features of the solution, as a weight vector.
    fn get_weights(individual: &Individual) -> (weights: Vec<i64>)
        ensures
            weights@ == individual@.features,
    {
        let mut weights: Vec<i64> = Vec::new();
        weights.push(individual.max_load_variance);
        weights.push(individual.customers_deviation);
        weights.push(individual.duration_mean);
        weights.push(individual.distance_mean);
        weights.push(individual.distance_gravity_mean);
        assert(weights@ =~= individual@.features);
        weights
    }

    /// Unwraps the solution.
    pub fn into_individual(self) -> (individual: Individual)
        ensures
            individual@ == self@,
    {
        self.individual
    }
}

impl Input for IndividualInput {
    open spec fn weights_of(view: IndividualView) -> Seq<i64> {
        view.features
    }

    fn weights(&self) -> (weights: &Vec<i64>) {
        proof {
            use_type_invariant(self);
        }
        &self.weights
    }
}

/// The storage of a node: an archive of the solutions that the node has matched.
pub struct IndividualStorage {
    pub population: Elitism,
}

impl View for IndividualStorage {
    type V = ElitismView;

    open spec fn view(&self) -> ElitismView {
        self.population@
    }
}

/// The archive without members.
pub open spec fn without_members(archive: ElitismView) -> ElitismView {
    ElitismView {
        individuals: Seq::empty(),
        max_population_size: archive.max_population_size,
        selection_size: archive.selection_size,
    }
}

impl Storage for IndividualStorage {
    type Item = IndividualInput;

    open spec fn wf(&self) -> bool {
        self.population.wf()
    }

    open spec fn added(before: ElitismView, input: IndividualView) -> ElitismView {
        before.add(input)
    }

    open spec fn contents(view: ElitismView) -> Seq<IndividualView> {
        view.individuals
    }

    open spec fn emptied(view: ElitismView) -> ElitismView {
        without_members(view)
    }

    proof fn lemma_contents(view: ElitismView, input: IndividualView) {
        let after = view.add(input).individuals;
        assert forall|i: int| 0 <= i < after.len() implies {
            let held = #[trigger] after[i];
            held == input || view.individuals.contains(held)
        } by {
            if view.admits(input) {
                let at = crate::elitism::count_better(view.individuals, input.fitness);
                crate::elitism::lemma_count_better_bounds(view.individuals, input.fitness);
                let grown = view.individuals.insert(at, input);
                assert(after[i] == grown[i]);
                if i < at {
                    assert(grown[i] == view.individuals[i]);
                } else if i > at {
                    assert(grown[i] == view.individuals[i - 1]);
                }
            } else {
                assert(after[i] == view.individuals[i]);
            }
        }
    }

    fn add(&mut self, input: IndividualInput) {
        self.population.add(input.into_individual());
    }

    fn drain(&mut self) -> (items: Vec<IndividualInput>) {
        let mut members = self.population.drain();
        let ghost held = views(members@);
        let mut items: Vec<IndividualInput> = Vec::new();
        let mut i: usize = 0;
        while i < members.len()
            invariant
                i <= members.len(),
                items@.len() == i,
                views(members@) == held,
                forall|k: int| 0 <= k < i ==> (#[trigger] items@[k])@ == held[k],
            decreases members.len() - i,
        {
            let copy = members[i].deep_copy();
            assert(copy@ == views(members@)[i as int]);
            items.push(IndividualInput::new(copy));
            i += 1;
        }
        items
    }

    fn fresh(&self) -> (storage: IndividualStorage) {
        IndividualStorage {
            population: Elitism::new(
                self.population.max_population_size(),
                self.population.selection_size(),
            ),
        }
    }

    fn size(&self) -> (size: usize) {
        self.population.size()
    }
}

/// Each node keeps an archive for `node_size` members that selects as many.
pub open spec fn sized(nodes: Seq<NodeView<ElitismView>>, node_size: nat) -> bool {
    forall|k: int|
        0 <= k < nodes.len() ==> (#[trigger] nodes[k]).storage.max_population_size == node_size
            && nodes[k].storage.selection_size == node_size
}

/// Each entry names a node whose archive has a member.
pub open spec fn populations_valid(
    nodes: Seq<NodeView<ElitismView>>,
    populations: Seq<usize>,
) -> bool {
    forall|p: int|
        0 <= p < populations.len() ==> (#[trigger] populations[p]) < nodes.len()
            && nodes[populations[p] as int].storage.individuals.len() > 0
}

/// The state of a phase.
pub enum PhaseView {
    /// The first solutions are collected.
    Initial { individuals: Seq<IndividualView> },
    /// The map is fed; `populations` names the nodes that a selection draws from, in the
    /// order in which it visits them.
    Exploration { time: nat, network: NetworkView<ElitismView>, populations: Seq<usize> },
    /// Only the elite is kept.
    Exploitation,
}

/// What the population consists of.
pub struct RosomaxaView {
    pub config: RosomaxaConfig,
    pub elite: ElitismView,
    pub phase: PhaseView,
}

/// An archive never shrinks when a solution is offered, and keeps its sizes.
pub proof fn lemma_add_keeps(archive: ElitismView, candidate: IndividualView)
    requires
        archive.wf(),
    ensures
        archive.add(candidate).individuals.len() >= archive.individuals.len(),
        archive.add(candidate).max_population_size == archive.max_population_size,
        archive.add(candidate).selection_size == archive.selection_size,
        archive.max_population_size > 0 ==> archive.add(candidate).individuals.len() > 0
            || !archive.admits(candidate),
{
    lemma_count_better_bounds(archive.individuals, candidate.fitness);
}

/// A solution that is strictly better than the best member, or meets an empty archive
/// with room, is admitted.
pub proof fn lemma_improvement_is_admitted(archive: ElitismView, candidate: IndividualView)
    requires
        archive.wf(),
        archive.max_population_size > 0,
        archive.individuals.len() == 0 || fitness_less(
            candidate.fitness,
            archive.individuals[0].fitness,
        ),
    ensures
        archive.admits(candidate),
{
    let members = archive.individuals;
    if members.len() > 0 {
        assert forall|i: int| 0 <= i < members.len() implies !same_fitness(
            (#[trigger] members[i]).fitness,
            candidate.fitness,
        ) && fitness_less(candidate.fitness, members[i].fitness) by {
            if i > 0 {
                assert(fitness_less(members[0].fitness, members[i].fitness));
                lemma_fitness_order(candidate.fitness, members[0].fitness, members[i].fitness);
            }
            lemma_fitness_order(members[i].fitness, candidate.fitness, candidate.fitness);
            lemma_fitness_order(candidate.fitness, members[i].fitness, candidate.fitness);
        }
        assert(fitness_less(candidate.fitness, members[members.len() - 1].fitness));
    }
}

impl RosomaxaView {
    /// The settings are in order, the elite is an archive of the configured sizes, and the
    /// phase is in order: at most four valid solutions are collected, or the map is well
    /// formed, of five dimensions, with node archives of the configured size. Once a
    /// solution was added the elite has a member.
    pub open spec fn wf(self) -> bool {
        &&& self.config.wf()
        &&& self.config.allows_phases()
        &&& self.elite.wf()
        &&& self.elite.max_population_size == self.config.elite_size
        &&& self.elite.selection_size == self.config.selection_size
        &&& match self.phase {
            PhaseView::Initial { individuals } => {
                &&& individuals.len() <= 4
                &&& individuals.len() > 0 ==> self.elite.individuals.len() > 0
                &&& forall|i: int| 0 <= i < individuals.len() ==> (#[trigger] individuals[i]).wf()
            },
            PhaseView::Exploration { time, network, populations } => {
                &&& self.elite.individuals.len() > 0
                &&& well_formed(network)
                &&& network.dimension == FEATURES
                &&& sized(network.nodes, self.config.node_size as nat)
                &&& populations_valid(network.nodes, populations)
            },
            PhaseView::Exploitation => true,
        }
    }

    /// The solution is an improvement: the elite is empty, or the solution is not worse
    /// than the best member and has not its fitness, which is to say strictly better.
    pub open spec fn improves(self, candidate: IndividualView) -> bool {
        self.elite.individuals.len() == 0 || fitness_less(
            candidate.fitness,
            self.elite.individuals[0].fitness,
        )
    }

    /// The population after a solution was added: the phase has taken it in (among the
    /// first four solutions, or into the map, or not at all), and an improvement has
    /// been offered to the elite.
    pub open spec fn added(self, candidate: IndividualView) -> RosomaxaView {
        RosomaxaView {
            config: self.config,
            elite: if self.improves(candidate) {
                self.elite.add(candidate)
            } else {
                self.elite
            },
            phase: match self.phase {
                PhaseView::Initial { individuals } => PhaseView::Initial {
                    individuals: if individuals.len() < 4 {
                        individuals.push(candidate)
                    } else {
                        individuals
                    },
                },
                PhaseView::Exploration { time, network, populations } => PhaseView::Exploration {
                    time,
                    network: Network::<IndividualStorage>::stored_input(network, candidate, time),
                    populations,
                },
                PhaseView::Exploitation => PhaseView::Exploitation,
            },
        }
    }

    /// The population after the solutions were added one after another.
    pub open spec fn added_all(self, candidates: Seq<IndividualView>) -> RosomaxaView
        decreases candidates.len(),
    {
        if candidates.len() == 0 {
            self
        } else {
            self.added_all(candidates.drop_last()).added(candidates.last())
        }
    }

    /// One of the solutions was admitted to the elite when its turn came.
    pub open spec fn any_admitted(self, candidates: Seq<IndividualView>) -> bool
        decreases candidates.len(),
    {
        if candidates.len() == 0 {
            false
        } else {
            self.any_admitted(candidates.drop_last()) || self.added_all(
                candidates.drop_last(),
            ).improves(candidates.last())
        }
    }

    /// The tag of the phase.
    pub open spec fn selection_phase(self) -> SelectionPhase {
        match self.phase {
            PhaseView::Initial { .. } => SelectionPhase::Initial,
            PhaseView::Exploration { .. } => SelectionPhase::Exploration,
            PhaseView::Exploitation => SelectionPhase::Exploitation,
        }
    }
}

/// How many members a selection takes from the archive in the exploration phase: two,
/// or what a selection yields if that is less.
pub open spec fn take_count(archive: ElitismView) -> nat {
    if archive.selection_len() < 2 {
        archive.selection_len()
    } else {
        2
    }
}

/// How many members the archives offer together.
pub open spec fn available(archives: Seq<ElitismView>) -> nat
    decreases archives.len(),
{
    if archives.len() == 0 {
        0
    } else {
        available(archives.drop_last()) + take_count(archives.last())
    }
}

/// The value, or the limit if that is less.
pub open spec fn capped(value: nat, limit: nat) -> nat {
    if value < limit {
        value
    } else {
        limit
    }
}

/// `picks` is a selection from the archives, cut off at `limit` members: the archives
/// come in their order, and each gives the beginning of a selection of its own, of
/// `take_count` members, as far as the limit leaves room.
pub open spec fn selection_of(
    archives: Seq<ElitismView>,
    picks: Seq<IndividualView>,
    limit: nat,
) -> bool
    decreases archives.len(),
{
    if archives.len() == 0 {
        picks.len() == 0
    } else {
        let before = capped(available(archives.drop_last()), limit);
        let count = capped(take_count(archives.last()), (limit - before) as nat);
        &&& picks.len() == before + count
        &&& selection_of(archives.drop_last(), picks.take(before as int), limit)
        &&& forall|place: int|
            0 <= place < count ==> archives.last().may_pick(place, #[trigger] picks[before + place])
    }
}

/// A selection has as many members as the archives offer, or as the limit allows.
pub proof fn lemma_selection_len(
    archives: Seq<ElitismView>,
    picks: Seq<IndividualView>,
    limit: nat,
)
    requires
        selection_of(archives, picks, limit),
    ensures
        picks.len() == capped(available(archives), limit),
{
}

/// In a selection the picks of the first archive come first.
pub proof fn lemma_selection_begins(
    archives: Seq<ElitismView>,
    picks: Seq<IndividualView>,
    limit: nat,
)
    requires
        archives.len() > 0,
        selection_of(archives, picks, limit),
    ensures
        archives[0].selects_first(
            picks.take(capped(take_count(archives[0]), limit) as int),
            capped(2, limit),
        ),
        picks.len() >= capped(take_count(archives[0]), limit),
    decreases archives.len(),
{
    let head = archives.drop_last();
    let before = capped(available(head), limit);
    let first = capped(take_count(archives[0]), limit) as int;
    if head.len() == 0 {
        assert(available(head) == 0);
        assert(picks.take(first) =~= picks);
        assert(archives.last() == archives[0]);
        assert forall|place: int| 0 <= place < first implies archives[0].may_pick(
            place,
            #[trigger] picks.take(first)[place],
        ) by {
            assert(picks[0 + place] == picks.take(first)[place]);
        }
    } else {
        lemma_selection_begins(head, picks.take(before as int), limit);
        assert(head[0] == archives[0]);
        assert(picks.take(before as int).take(first) =~= picks.take(first));
    }
}

impl RosomaxaView {
    /// The archives that a selection draws from, in the order in which it visits them:
    /// the elite and, in the exploration phase, the archives of the nodes that
    /// `populations` names.
    pub open spec fn archives(self) -> Seq<ElitismView> {
        match self.phase {
            PhaseView::Exploration { network, populations, .. } => seq![self.elite] + Seq::new(
                populations.len(),
                |p: int| network.nodes[populations[p] as int].storage,
            ),
            _ => seq![self.elite],
        }
    }

    /// How many members a selection has: in the exploration phase what the archives
    /// offer, two each, cut off at the selection size; else what the elite yields.
    pub open spec fn selection_len(self) -> nat {
        match self.phase {
            PhaseView::Exploration { .. } => capped(
                available(self.archives()),
                self.config.selection_size as nat,
            ),
            _ => self.elite.selection_len(),
        }
    }

    /// `picks` is a selection from the population.
    pub open spec fn selects(self, picks: Seq<IndividualView>) -> bool {
        match self.phase {
            PhaseView::Exploration { .. } => selection_of(
                self.archives(),
                picks,
                self.config.selection_size as nat,
            ),
            _ => self.elite.selects(picks),
        }
    }
}

/// A valid population stays valid when a valid solution is added.
pub proof fn lemma_added_wf(view: RosomaxaView, candidate: IndividualView)
    requires
        view.wf(),
        candidate.wf(),
        view.added(candidate).elite.wf(),
        view.phase matches PhaseView::Exploration { time, network, .. } ==> well_formed(
            Network::<IndividualStorage>::stored_input(network, candidate, time),
        ),
    ensures
        view.added(candidate).wf(),
{
    lemma_add_keeps(view.elite, candidate);
    if view.improves(candidate) {
        lemma_improvement_is_admitted(view.elite, candidate);
    }
    match view.phase {
        PhaseView::Initial { individuals } => {
            if individuals.len() < 4 {
                let grown = individuals.push(candidate);
                assert forall|i: int| 0 <= i < grown.len() implies (#[trigger] grown[i]).wf() by {
                    if i < individuals.len() {
                        assert(grown[i] == individuals[i]);
                    }
                }
            }
        },
        PhaseView::Exploration { time, network, populations } => {
            let b = bmu(network.nodes, candidate.features);
            let storage = network.nodes[b].storage.add(candidate);
            let after = Network::<IndividualStorage>::stored_input(network, candidate, time);
            lemma_stored_nodes(network, candidate.features, time, storage, without_members(storage));
            assert(network.nodes[b].storage.max_population_size == view.config.node_size);
            lemma_count_better_bounds(network.nodes[b].storage.individuals, candidate.fitness);
            assert(sized(after.nodes, view.config.node_size as nat));
            assert(populations_valid(after.nodes, populations)) by {
                assert forall|p: int| 0 <= p < populations.len() implies (
                #[trigger] populations[p]) < after.nodes.len()
                    && after.nodes[populations[p] as int].storage.individuals.len() > 0 by {
                    let k = populations[p] as int;
                    assert(network.nodes[k].storage.individuals.len() > 0);
                }
            }
        },
        PhaseView::Exploitation => {},
    }
}

/// A population with the three phases, or the plain elite archive that stands in for it
/// with the source of its random numbers.
pub enum RosomaxaOrElitism<R: Random> {
    Rosomaxa(Rosomaxa<R>),
    Elitism { population: Elitism, random: R },
}

/// The phases of the population with what each holds.
enum RosomaxaPhases {
    Initial { individuals: Vec<Individual> },
    Exploration { time: usize, network: Network<IndividualStorage>, populations: Vec<usize> },
    Exploitation,
}

/// The population manager: an elite archive, a growing self-organising map whose nodes
/// keep archives of their own, and the phase that decides where solutions go and where
/// parents come from.
pub struct Rosomaxa<R: Random> {
    random: R,
    config: RosomaxaConfig,
    elite: Elitism,
    phase: RosomaxaPhases,
}

impl<R: Random> View for Rosomaxa<R> {
    type V = RosomaxaView;

    closed spec fn view(&self) -> RosomaxaView {
        RosomaxaView {
            config: self.config,
            elite: self.elite@,
            phase: match self.phase {
                RosomaxaPhases::Initial { individuals } => PhaseView::Initial {
                    individuals: views(individuals@),
                },
                RosomaxaPhases::Exploration { time, network, populations } => PhaseView::Exploration {
                    time: time as nat,
                    network: network@,
                    populations: populations@,
                },
                RosomaxaPhases::Exploitation => PhaseView::Exploitation,
            },
        }
    }
}

impl<R: Random> Rosomaxa<R> {
    /// The map, where there is one, is in order down to its storages.
    pub closed spec fn network_wf(&self) -> bool {
        match self.phase {
            RosomaxaPhases::Exploration { network, .. } => network.wf(),
            _ => true,
        }
    }

    /// The population is in order.
    pub open spec fn wf(&self) -> bool {
        self@.wf() && self.network_wf()
    }

    /// Creates a population in its initial phase, or reports that the sizes do not allow
    /// the phases.
    pub fn new(random: R, config: RosomaxaConfig) -> (result: Result<Rosomaxa<R>, ()>)
        requires
            config.wf(),
        ensures
            match result {
                Ok(population) => {
                    &&& config.allows_phases()
                    &&& population.wf()
                    &&& population@ == (RosomaxaView {
                        config,
                        elite: ElitismView {
                            individuals: Seq::empty(),
                            max_population_size: config.elite_size as nat,
                            selection_size: config.selection_size as nat,
                        },
                        phase: PhaseView::Initial { individuals: Seq::empty() },
                    })
                },
                Err(_) => !config.allows_phases(),
            },
    {
        if config.elite_size < 2 || config.node_size < 2 || config.selection_size < 4 {
            return Err(());
        }
        let elite = Elitism::new(config.elite_size, config.selection_size);
        let population = Rosomaxa {
            random,
            elite,
            phase: RosomaxaPhases::Initial { individuals: Vec::new() },
            config,
        };
        proof {
            assert(population@.phase matches PhaseView::Initial { individuals } && individuals
                =~= Seq::empty());
        }
        Ok(population)
    }

    /// Creates a population with the three phases or, where the sizes do not allow them,
    /// a plain elite archive of the configured sizes.
    pub fn new_with_fallback(random: R, config: RosomaxaConfig) -> (population: RosomaxaOrElitism<R>)
        requires
            config.wf(),
        ensures
            match population {
                RosomaxaOrElitism::Rosomaxa(phased) => {
                    &&& config.allows_phases()
                    &&& phased.wf()
                    &&& phased@ == (RosomaxaView {
                        config,
                        elite: ElitismView {
                            individuals: Seq::empty(),
                            max_population_size: config.elite_size as nat,
                            selection_size: config.selection_size as nat,
                        },
                        phase: PhaseView::Initial { individuals: Seq::empty() },
                    })
                },
                RosomaxaOrElitism::Elitism { population: archive, .. } => {
                    &&& !config.allows_phases()
                    &&& archive.wf()
                    &&& archive@ == (ElitismView {
                        individuals: Seq::empty(),
                        max_population_size: config.elite_size as nat,
                        selection_size: config.selection_size as nat,
                    })
                },
            },
    {
        let selection_size = config.selection_size;
        let max_population_size = config.elite_size;
        if config.elite_size < 2 || config.node_size < 2 || config.selection_size < 4 {
            RosomaxaOrElitism::Elitism {
                population: Elitism::new(max_population_size, selection_size),
                random,
            }
        } else {
            match Rosomaxa::new(random, config) {
                Ok(phased) => RosomaxaOrElitism::Rosomaxa(phased),
                Err(_) => vstd::pervasive::unreached(),
            }
        }
    }

    /// Says whether the solution is an improvement on the elite.
    fn is_improvement(&self, individual: &Individual) -> (improves: bool)
        ensures
            improves == self@.improves(individual@),
    {
        match self.elite.best() {
            Some(best) => is_better(individual, best),
            None => true,
        }
    }

    /// Adds a solution: the phase takes it in, and an improvement is offered to the elite.
    /// Says whether the elite admitted it.
    pub fn add(&mut self, individual: Individual) -> (admitted: bool)
        requires
            old(self).wf(),
            individual.wf(),
        ensures
            final(self).wf(),
            final(self)@ == old(self)@.added(individual@),
            admitted == old(self)@.improves(individual@),
    {
        self.add_individual(individual)
    }

    fn add_individual(&mut self, individual: Individual) -> (admitted: bool)
        requires
            old(self).wf(),
            individual.wf(),
        ensures
            final(self).wf(),
            final(self)@ == old(self)@.added(individual@),
            admitted == old(self)@.improves(individual@),
    {
        let ghost before = self@;
        match &mut self.phase {
            RosomaxaPhases::Initial { individuals } => {
                if individuals.len() < 4 {
                    let ghost held = views(individuals@);
                    individuals.push(individual.deep_copy());
                    assert(views(individuals@) =~= held.push(individual@));
                }
            },
            RosomaxaPhases::Exploration { time, network, .. } => {
                network.store(IndividualInput::new(individual.deep_copy()), *time);
            },
            RosomaxaPhases::Exploitation => {},
        }
        let admitted = if self.is_improvement(&individual) {
            proof {
                lemma_improvement_is_admitted(before.elite, individual@);
            }
            self.elite.add(individual.deep_copy())
        } else {
            false
        };
        proof {
            lemma_added_wf(before, individual@);
        }
        admitted
    }

    /// Adds the solutions one after another and says whether the elite admitted one.
    pub fn add_all(&mut self, individuals: Vec<Individual>) -> (admitted: bool)
        requires
            old(self).wf(),
            forall|i: int| 0 <= i < individuals@.len() ==> (#[trigger] individuals@[i]).wf(),
        ensures
            final(self).wf(),
            final(self)@ == old(self)@.added_all(views(individuals@)),
            admitted == old(self)@.any_admitted(views(individuals@)),
    {
        let ghost before = self@;
        let ghost given = views(individuals@);
        let mut admitted = false;
        let mut i: usize = 0;
        proof {
            assert(given.take(0) =~= Seq::empty());
        }
        while i < individuals.len()
            invariant
                i <= individuals.len(),
                self.wf(),
                given == views(individuals@),
                forall|k: int| 0 <= k < individuals@.len() ==> (#[trigger] individuals@[k]).wf(),
                self@ == before.added_all(given.take(i as int)),
                admitted == before.any_admitted(given.take(i as int)),
            decreases individuals.len() - i,
        {
            let copy = individuals[i].deep_copy();
            proof {
                assert(given.take(i + 1).drop_last() == given.take(i as int));
                assert(given.take(i + 1).last() == copy@);
                assert(individuals@[i as int].wf());
            }
            let taken = self.add(copy);
            admitted = admitted || taken;
            i += 1;
        }
        assert(given.take(i as int) == given);
        admitted
    }

    /// Compares two solutions by fitness; the better one is the lesser.
    pub fn cmp(&self, a: &Individual, b: &Individual) -> (order: Ordering)
        ensures
            order == Ordering::Less <==> fitness_less(a@.fitness, b@.fitness),
            order == Ordering::Greater <==> fitness_less(b@.fitness, a@.fitness),
            order == Ordering::Equal <==> same_fitness(a@.fitness, b@.fitness),
    {
        self.elite.cmp(a, b)
    }

    /// The elite with the rank of each member, the best first, as copies.
    pub fn ranked(&self) -> (ranked: Vec<(Individual, usize)>)
        ensures
            ranked@.len() == self@.elite.individuals.len(),
            forall|rank: int|
                0 <= rank < ranked@.len() ==> (#[trigger] ranked@[rank]).0@
                    == self@.elite.individuals[rank] && ranked@[rank].1 == rank,
    {
        self.elite.ranked()
    }

    /// Number of members of the elite.
    pub fn size(&self) -> (size: usize)
        ensures
            size == self@.elite.individuals.len(),
    {
        self.elite.size()
    }

    /// The tag of the current phase.
    pub fn selection_phase(&self) -> (phase: SelectionPhase)
        ensures
            phase == self@.selection_phase(),
    {
        match &self.phase {
            RosomaxaPhases::Initial { .. } => SelectionPhase::Initial,
            RosomaxaPhases::Exploration { .. } => SelectionPhase::Exploration,
            RosomaxaPhases::Exploitation => SelectionPhase::Exploitation,
        }
    }

    /// Takes note of the end of a generation: moves on to the next phase when its time
    /// has come and, while exploring, notes the generation, optimises the map when that
    /// is due and lists the nodes that the next selection draws from.
    pub fn on_generation(&mut self, statistics: &Statistics)
        requires
            old(self).wf(),
        ensures
            final(self).wf(),
            old(self)@.generation_step(*statistics, final(self)@),
    {
        self.update_phase(statistics)
    }

    fn update_phase(&mut self, statistics: &Statistics)
        requires
            old(self).wf(),
        ensures
            final(self).wf(),
            old(self)@.generation_step(*statistics, final(self)@),
    {
        let ghost before = self@;
        let mut next: Option<RosomaxaPhases> = None;
        match &mut self.phase {
            RosomaxaPhases::Initial { individuals } => {
                if individuals.len() >= 4 {
                    let network = create_network(&self.config, individuals);
                    proof {
                        lemma_seeded_wf(views(individuals@), self.config);
                    }
                    next = Some(
                        RosomaxaPhases::Exploration { time: 0, network, populations: Vec::new() },
                    );
                }
            },
            RosomaxaPhases::Exploration { time, network, populations } => {
                if statistics.termination_estimate < self.config.exploration_ratio {
                    *time = statistics.generation;
                    let ghost fed = network@;
                    let is_optimization_time = *time % self.config.hit_memory == 0;
                    match self.elite.best() {
                        Some(best_individual) => {
                            if is_optimization_time {
                                optimize_network(network, best_individual);
                                proof {
                                    lemma_network_optimized_sized(
                                        fed,
                                        best_individual@.fitness,
                                        network@,
                                        self.config.node_size as nat,
                                    );
                                }
                            }
                        },
                        None => {},
                    }
                    *populations = fill_populations(network, &mut self.random);
                } else {
                    next = Some(RosomaxaPhases::Exploitation);
                }
            },
            RosomaxaPhases::Exploitation => {},
        }
        match next {
            Some(phase) => {
                self.phase = phase;
            },
            None => {},
        }
    }

    /// The map, while the population explores.
    pub fn network(&self) -> (network: Option<&Network<IndividualStorage>>)
        ensures
            match network {
                Some(map) => self@.phase matches PhaseView::Exploration { network: held, .. }
                    && map@ == held && (self.wf() ==> map.wf()),
                None => !(self@.phase is Exploration),
            },
    {
        match &self.phase {
            RosomaxaPhases::Exploration { network, .. } => Some(network),
            _ => None,
        }
    }

    /// The nodes that a selection draws from, in the order in which it visits them; none
    /// outside the exploration phase.
    pub fn populations(&self) -> (populations: Vec<usize>)
        ensures
            match self@.phase {
                PhaseView::Exploration { populations: listed, .. } => populations@ == listed,
                _ => populations@.len() == 0,
            },
    {
        match &self.phase {
            RosomaxaPhases::Exploration { populations, .. } => {
                let mut copy: Vec<usize> = Vec::new();
                let mut i: usize = 0;
                while i < populations.len()
                    invariant
                        i <= populations.len(),
                        copy@ == populations@.take(i as int),
                    decreases populations.len() - i,
                {
                    copy.push(populations[i]);
                    assert(populations@.take(i + 1) == populations@.take(i as int).push(
                        populations@[i as int],
                    ));
                    i += 1;
                }
                assert(populations@.take(i as int) == populations@);
                copy
            },
            _ => Vec::new(),
        }
    }

    /// The solutions collected in the initial phase; none in the other phases.
    pub fn bootstrap_size(&self) -> (size: usize)
        ensures
            match self@.phase {
                PhaseView::Initial { individuals } => size == individuals.len(),
                _ => size == 0,
            },
    {
        match &self.phase {
            RosomaxaPhases::Initial { individuals } => individuals.len(),
            _ => 0,
        }
    }

    /// Selects parents for the next generation, as copies. In the exploration phase the
    /// elite gives two, then each node archive in the shuffled order gives two, the best
    /// of the archive and one drawn from its others, until the selection size is
    /// reached; in the other phases the elite gives the whole selection.
    pub fn select(&mut self) -> (picks: Vec<Individual>)
        requires
            old(self).wf(),
        ensures
            final(self).wf(),
            final(self)@ == old(self)@,
            old(self)@.selects(views(picks@)),
            picks@.len() == old(self)@.selection_len(),
    {
        let limit = self.config.selection_size;
        match &self.phase {
            RosomaxaPhases::Exploration { network, populations, .. } => {
                let nodes = network.get_nodes();
                proof {
                    assert(self@.archives() =~= archives_of(
                        self.elite@,
                        node_views(nodes@),
                        populations@,
                    ));
                }
                select_from_archives(&self.elite, nodes, populations, limit, &mut self.random)
            },
            _ => self.elite.select(&mut self.random),
        }
    }
}

/// The elite followed by the archives of the nodes that `populations` names.
pub open spec fn archives_of(
    elite: ElitismView,
    nodes: Seq<NodeView<ElitismView>>,
    populations: Seq<usize>,
) -> Seq<ElitismView> {
    seq![elite] + Seq::new(populations.len(), |p: int| nodes[populations[p] as int].storage)
}

/// Selects from the elite and from the node archives that `populations` names, two
/// members from each, up to `limit` members.
fn select_from_archives<R: Random>(
    elite: &Elitism,
    nodes: &Vec<crate::network::Node<IndividualStorage>>,
    populations: &Vec<usize>,
    limit: usize,
    random: &mut R,
) -> (picks: Vec<Individual>)
    requires
        elite.wf(),
        forall|i: int| 0 <= i < nodes@.len() ==> (#[trigger] nodes@[i]).storage.wf(),
        forall|k: int| 0 <= k < populations@.len() ==> (#[trigger] populations@[k]) < nodes@.len(),
    ensures
        selection_of(
            archives_of(elite@, node_views(nodes@), populations@),
            views(picks@),
            limit as nat,
        ),
        picks@.len() == capped(
            available(archives_of(elite@, node_views(nodes@), populations@)),
            limit as nat,
        ),
{
    let ghost archives = archives_of(elite@, node_views(nodes@), populations@);
    let first = if limit < 2 {
        limit
    } else {
        2
    };
    let mut picks = elite.select_some(first, random);
    proof {
        let one = archives.take(1);
        let chosen = views(picks@);
        assert(archives[0] == elite@);
        assert(one.drop_last() =~= Seq::<ElitismView>::empty());
        assert(one.last() == elite@);
        assert(available(one.drop_last()) == 0);
        assert(chosen.take(0) =~= Seq::<IndividualView>::empty());
        assert(selection_of(one.drop_last(), chosen.take(0), limit as nat));
        assert(chosen.len() == capped(take_count(elite@), limit as nat));
        assert forall|place: int| 0 <= place < chosen.len() implies one.last().may_pick(
            place,
            #[trigger] chosen[0 + place],
        ) by {}
        assert(selection_of(one, chosen, limit as nat));
    }
    let mut p: usize = 0;
    while p < populations.len()
        invariant
            p <= populations@.len(),
            archives == archives_of(elite@, node_views(nodes@), populations@),
            forall|k: int| 0 <= k < populations@.len() ==> (#[trigger] populations@[k]) < nodes@.len(),
            forall|i: int| 0 <= i < nodes@.len() ==> (#[trigger] nodes@[i]).storage.wf(),
            selection_of(archives.take(p + 1), views(picks@), limit as nat),
        decreases populations.len() - p,
    {
        let ghost head = archives.take(p + 1);
        let ghost before = views(picks@);
        proof {
            lemma_selection_len(head, before, limit as nat);
        }
        let room = limit - picks.len();
        let count = if room < 2 {
            room
        } else {
            2
        };
        let node = &nodes[populations[p]];
        let mut part = node.storage.population.select_some(count, random);
        let ghost given = views(part@);
        picks.append(&mut part);
        proof {
            let next = archives.take(p + 2);
            let after = views(picks@);
            assert(next.drop_last() =~= head);
            assert(next.last() == archives[p + 1]);
            assert(archives[p + 1] == node.storage.population@);
            assert(after =~= before + given);
            assert(after.take(before.len() as int) =~= before);
            assert(given.len() == capped(
                take_count(next.last()),
                (limit - before.len()) as nat,
            ));
            assert forall|place: int| 0 <= place < given.len() implies next.last().may_pick(
                place,
                #[trigger] after[before.len() + place],
            ) by {
                assert(after[before.len() + place] == given[place]);
            }
            assert(selection_of(next, after, limit as nat));
        }
        p += 1;
    }
    proof {
        assert(archives.take(p + 1) == archives);
        lemma_selection_len(archives, views(picks@), limit as nat);
    }
    picks
}

/// How many bridging nodes a compaction of the map may add.
pub const REBALANCE_COUNT: usize = 10;

/// The distances from the fitness `best` to the best member of each node archive that
/// has a member, among the first `n` nodes, in their order.
pub open spec fn node_distances(nodes: Seq<NodeView<ElitismView>>, best: Seq<i64>, n: int) -> Seq<
    u64,
>
    decreases n,
{
    if n <= 0 {
        Seq::empty()
    } else if nodes[n - 1].storage.individuals.len() > 0 {
        node_distances(nodes, best, n - 1).push(
            relative_distance_of(best, nodes[n - 1].storage.individuals[0].fitness) as u64,
        )
    } else {
        node_distances(nodes, best, n - 1)
    }
}

/// `threshold` stands at a quarter of the way down the distances when they are put in
/// falling order: at place `len / 4`, counted from the largest.
pub open spec fn percentile_threshold(distances: Seq<u64>, threshold: u64) -> bool {
    exists|sorted: Seq<u64>|
        {
            &&& #[trigger] ascending(sorted)
            &&& sorted.to_multiset() == distances.to_multiset()
            &&& sorted.len() == distances.len()
            &&& distances.len() > 0
            &&& threshold == sorted[distances.len() - 1 - distances.len() / 4]
        }
}

/// The compaction keeps the node: its archive is empty, or its best member is farther
/// from the fitness `best` than the threshold.
pub open spec fn keeps_node(best: Seq<i64>, threshold: u64, node: NodeView<ElitismView>) -> bool {
    node.storage.individuals.len() == 0 || relative_distance_of(
        best,
        node.storage.individuals[0].fitness,
    ) > threshold
}

/// What the compaction says of each node.
pub open spec fn node_verdicts(
    best: Seq<i64>,
    threshold: u64,
    nodes: Seq<NodeView<ElitismView>>,
) -> Seq<bool> {
    Seq::new(nodes.len(), |k: int| keeps_node(best, threshold, nodes[k]))
}

/// `after` is the map `before` optimised against the fitness `best`: unchanged if no node
/// archive has a member; else compacted, where a node stays if its archive is empty or
/// its best member is farther from `best` than the percentile threshold.
pub open spec fn network_optimized(
    before: NetworkView<ElitismView>,
    best: Seq<i64>,
    after: NetworkView<ElitismView>,
) -> bool {
    let distances = node_distances(before.nodes, best, before.nodes.len() as int);
    if distances.len() == 0 {
        after == before
    } else {
        exists|threshold: u64|
            #[trigger] percentile_threshold(distances, threshold) && Network::<
                IndividualStorage,
            >::optimized(
                before,
                node_verdicts(best, threshold, before.nodes),
                REBALANCE_COUNT as nat,
                after,
            )
    }
}

/// The nodes with a member in their archive among the first `n`, in their order.
pub open spec fn nonempty_nodes(nodes: Seq<NodeView<ElitismView>>, n: int) -> Seq<usize>
    decreases n,
{
    if n <= 0 {
        Seq::empty()
    } else if nodes[n - 1].storage.individuals.len() > 0 {
        nonempty_nodes(nodes, n - 1).push((n - 1) as usize)
    } else {
        nonempty_nodes(nodes, n - 1)
    }
}

/// An empty archive for the members of a node.
pub open spec fn node_archive(node_size: nat) -> ElitismView {
    ElitismView {
        individuals: Seq::empty(),
        max_population_size: node_size,
        selection_size: node_size,
    }
}

/// The map that the first four solutions seed.
pub open spec fn seeded(individuals: Seq<IndividualView>, config: RosomaxaConfig) -> NetworkView<
    ElitismView,
> {
    NetworkView {
        nodes: Seq::new(
            4,
            |i: int|
                Network::<IndividualStorage>::seed_node(
                    individuals[i],
                    i,
                    node_archive(config.node_size as nat),
                ),
        ),
        dimension: FEATURES as nat,
        growth_threshold: config.growth_threshold as nat,
        reduction_factor: config.reduction_factor as int,
        distribution_factor: config.distribution_factor as int,
        learning_rate: config.learning_rate as int,
        hit_memory: config.hit_memory as nat,
        time: 0,
    }
}

impl RosomaxaView {
    /// The map is due for optimisation: the hit memory divides the generation and the
    /// elite has a best member.
    pub open spec fn optimization_due(self, statistics: Statistics) -> bool {
        self.elite.individuals.len() > 0 && statistics.generation as int % (
        self.config.hit_memory as int) == 0
    }

    /// `after` is the population at the end of a generation with the given statistics.
    /// The elite and the settings stay. The initial phase gives way to exploration once
    /// four solutions are collected, which seed the map. Exploration gives way to
    /// exploitation once the termination estimate reaches the exploration ratio; until
    /// then it notes the generation as the time, optimises the map when that is due, and
    /// lists the nodes with members anew, in an order that the random numbers choose.
    pub open spec fn generation_step(self, statistics: Statistics, after: RosomaxaView) -> bool {
        &&& after.config == self.config
        &&& after.elite == self.elite
        &&& match self.phase {
            PhaseView::Initial { individuals } => if individuals.len() >= 4 {
                after.phase == (PhaseView::Exploration {
                    time: 0,
                    network: seeded(individuals, self.config),
                    populations: Seq::empty(),
                })
            } else {
                after.phase == self.phase
            },
            PhaseView::Exploration { time, network, populations } => if statistics.termination_estimate
                < self.config.exploration_ratio {
                &&& after.phase matches PhaseView::Exploration {
                    time: noted,
                    network: kept,
                    populations: listed,
                }
                &&& noted == statistics.generation
                &&& if self.optimization_due(statistics) {
                    network_optimized(network, self.elite.individuals[0].fitness, kept)
                } else {
                    kept == network
                }
                &&& listed.to_multiset() == nonempty_nodes(
                    kept.nodes,
                    kept.nodes.len() as int,
                ).to_multiset()
            } else {
                after.phase == PhaseView::Exploitation
            },
            PhaseView::Exploitation => after.phase == PhaseView::Exploitation,
        }
    }
}

/// The nodes listed as having members are nodes, and have members.
pub proof fn lemma_nonempty_nodes(nodes: Seq<NodeView<ElitismView>>, n: int)
    requires
        0 <= n <= nodes.len(),
        n <= usize::MAX,
    ensures
        forall|p: int|
            0 <= p < nonempty_nodes(nodes, n).len() ==> (#[trigger] nonempty_nodes(nodes, n)[p])
                < n && nodes[nonempty_nodes(nodes, n)[p] as int].storage.individuals.len() > 0,
    decreases n,
{
    if n > 0 {
        lemma_nonempty_nodes(nodes, n - 1);
        let before = nonempty_nodes(nodes, n - 1);
        let after = nonempty_nodes(nodes, n);
        assert forall|p: int| 0 <= p < after.len() implies (#[trigger] after[p]) < n
            && nodes[after[p] as int].storage.individuals.len() > 0 by {
            if p < before.len() {
                assert(after[p] == before[p]);
            }
        }
    }
}

/// Survivors of a compaction keep their archives.
pub proof fn lemma_survivors_sized(
    nodes: Seq<NodeView<ElitismView>>,
    verdicts: Seq<bool>,
    n: int,
    size: nat,
)
    requires
        sized(nodes, size),
        0 <= n <= nodes.len(),
    ensures
        sized(survivors(nodes, verdicts, n), size),
    decreases n,
{
    if n > 0 {
        lemma_survivors_sized(nodes, verdicts, n - 1, size);
        let before = survivors(nodes, verdicts, n - 1);
        let after = survivors(nodes, verdicts, n);
        assert forall|k: int| 0 <= k < after.len() implies (
        #[trigger] after[k]).storage.max_population_size == size && after[k].storage.selection_size
            == size by {
            if k < before.len() {
                assert(after[k] == before[k]);
            } else {
                assert(after[k] == nodes[n - 1]);
            }
        }
    }
}

/// A node that survives is among the survivors.
pub proof fn lemma_survivors_hold(
    nodes: Seq<NodeView<ElitismView>>,
    verdicts: Seq<bool>,
    n: int,
    j: int,
)
    requires
        0 <= j < n <= nodes.len(),
        retained(nodes, verdicts, j),
    ensures
        survivors(nodes, verdicts, n).len() > 0,
    decreases n,
{
    if j < n - 1 {
        lemma_survivors_hold(nodes, verdicts, n - 1, j);
    }
}

/// A compaction leaves a node.
pub proof fn lemma_survivors_nonempty(nodes: Seq<NodeView<ElitismView>>, verdicts: Seq<bool>)
    requires
        nodes.len() > 0,
    ensures
        survivors(nodes, verdicts, nodes.len() as int).len() > 0,
{
    let n = nodes.len() as int;
    lemma_any_wanted(nodes, verdicts, n);
    if crate::gsom::any_wanted(nodes, verdicts, n) {
        let j = choose|j: int| 0 <= j < n && #[trigger] wanted(nodes, verdicts, j);
        lemma_survivors_hold(nodes, verdicts, n, j);
    } else {
        lemma_survivors_hold(nodes, verdicts, n, 0);
    }
}

/// Bridging nodes have archives of the size that the other nodes have.
pub proof fn lemma_healed_sized(
    base: Seq<NodeView<ElitismView>>,
    mended: Seq<NodeView<ElitismView>>,
    budget: nat,
    time: nat,
    size: nat,
    k: int,
)
    requires
        healed::<IndividualStorage>(base, mended, budget, time),
        sized(base, size),
        0 <= k <= mended.len(),
    ensures
        sized(mended.take(k), size),
    decreases k,
{
    if k > 0 {
        lemma_healed_sized(base, mended, budget, time, size, k - 1);
        let shorter = mended.take(k - 1);
        let longer = mended.take(k);
        let node = mended[k - 1];
        if k - 1 < base.len() {
            assert(mended.take(base.len() as int)[k - 1] == base[k - 1]);
        } else {
            assert(is_bridge::<IndividualStorage>(mended, k - 1, time));
            let (a, u) = choose|a: int, u: int|
                #[trigger] crate::gsom::is_nearest_gap(shorter, a, u) && node.storage
                    == without_members(shorter[a].storage);
            assert(shorter[a] == mended[a]);
        }
        assert forall|i: int| 0 <= i < longer.len() implies (
        #[trigger] longer[i]).storage.max_population_size == size && longer[i].storage.selection_size
            == size by {
            if i < k - 1 {
                assert(longer[i] == shorter[i]);
            }
        }
    }
}

/// Storing a solution keeps the archives of the nodes at their size.
pub proof fn lemma_stored_sized(
    net: NetworkView<ElitismView>,
    candidate: IndividualView,
    time: nat,
    size: nat,
)
    requires
        net.nodes.len() > 0,
        sized(net.nodes, size),
    ensures
        sized(Network::<IndividualStorage>::stored_input(net, candidate, time).nodes, size),
        Network::<IndividualStorage>::stored_input(net, candidate, time).nodes.len()
            >= net.nodes.len(),
        Network::<IndividualStorage>::stored_input(net, candidate, time).dimension
            == net.dimension,
{
    let b = bmu(net.nodes, candidate.features);
    let storage = net.nodes[b].storage.add(candidate);
    lemma_stored_nodes(net, candidate.features, time, storage, without_members(storage));
    assert(net.nodes[b].storage.max_population_size == size);
}

/// Storing solutions again keeps the archives of the nodes at their size.
pub proof fn lemma_restored_sized(
    net: NetworkView<ElitismView>,
    items: Seq<IndividualView>,
    size: nat,
)
    requires
        net.nodes.len() > 0,
        sized(net.nodes, size),
    ensures
        sized(Network::<IndividualStorage>::restored(net, items).nodes, size),
        Network::<IndividualStorage>::restored(net, items).nodes.len() > 0,
        Network::<IndividualStorage>::restored(net, items).dimension == net.dimension,
    decreases items.len(),
{
    if items.len() > 0 {
        lemma_restored_sized(net, items.drop_last(), size);
        lemma_stored_sized(
            Network::<IndividualStorage>::restored(net, items.drop_last()),
            items.last(),
            net.time,
            size,
        );
    }
}

/// A compaction keeps the archives of the nodes at their size, and the dimension.
pub proof fn lemma_optimized_sized(
    before: NetworkView<ElitismView>,
    verdicts: Seq<bool>,
    budget: nat,
    after: NetworkView<ElitismView>,
    size: nat,
)
    requires
        before.nodes.len() > 0,
        sized(before.nodes, size),
        Network::<IndividualStorage>::optimized(before, verdicts, budget, after),
    ensures
        sized(after.nodes, size),
        after.dimension == before.dimension,
{
    let n = before.nodes.len() as int;
    let base = survivors(before.nodes, verdicts, n);
    let mended = choose|mended: Seq<NodeView<ElitismView>>|
        #[trigger] healed::<IndividualStorage>(base, mended, budget, before.time) && after
            == Network::<IndividualStorage>::restored(
            Network::<IndividualStorage>::with_nodes(before, mended),
            crate::gsom::orphans::<IndividualStorage>(before.nodes, verdicts, n),
        );
    lemma_survivors_sized(before.nodes, verdicts, n, size);
    lemma_survivors_nonempty(before.nodes, verdicts);
    lemma_healed_sized(base, mended, budget, before.time, size, mended.len() as int);
    assert(mended.take(mended.len() as int) == mended);
    lemma_restored_sized(
        Network::<IndividualStorage>::with_nodes(before, mended),
        crate::gsom::orphans::<IndividualStorage>(before.nodes, verdicts, n),
        size,
    );
}

/// An optimised map keeps the archives of the nodes at their size, and the dimension.
pub proof fn lemma_network_optimized_sized(
    before: NetworkView<ElitismView>,
    best: Seq<i64>,
    after: NetworkView<ElitismView>,
    size: nat,
)
    requires
        before.nodes.len() > 0,
        sized(before.nodes, size),
        network_optimized(before, best, after),
    ensures
        sized(after.nodes, size),
        after.dimension == before.dimension,
{
    let distances = node_distances(before.nodes, best, before.nodes.len() as int);
    if distances.len() > 0 {
        let threshold = choose|threshold: u64|
            #[trigger] percentile_threshold(distances, threshold) && Network::<
                IndividualStorage,
            >::optimized(
                before,
                node_verdicts(best, threshold, before.nodes),
                REBALANCE_COUNT as nat,
                after,
            );
        lemma_optimized_sized(
            before,
            node_verdicts(best, threshold, before.nodes),
            REBALANCE_COUNT as nat,
            after,
            size,
        );
    }
}

/// The seeded map has node archives of the configured size.
pub proof fn lemma_seeded_wf(individuals: Seq<IndividualView>, config: RosomaxaConfig)
    ensures
        sized(seeded(individuals, config).nodes, config.node_size as nat),
        seeded(individuals, config).dimension == FEATURES,
{
    let nodes = seeded(individuals, config).nodes;
    assert forall|k: int| 0 <= k < nodes.len() implies (
    #[trigger] nodes[k]).storage.max_population_size == config.node_size
        && nodes[k].storage.selection_size == config.node_size by {
        lemma_count_better_bounds(Seq::<IndividualView>::empty(), individuals[k].fitness);
    }
}

/// Keeps the nodes whose archive is empty or whose best member is far from the best
/// solution of the elite.
pub struct DistanceFilter {
    pub best_fitness: Vec<i64>,
    pub threshold: u64,
}

impl NodeFilter<IndividualStorage> for DistanceFilter {
    open spec fn keeps(&self, node: NodeView<ElitismView>) -> bool {
        keeps_node(self.best_fitness@, self.threshold, node)
    }

    fn retain(&self, node: &Node<IndividualStorage>) -> (keep: bool) {
        match node.storage.population.best() {
            Some(best) => relative_distance(&self.best_fitness, best.get_fitness_values())
                > self.threshold,
            None => true,
        }
    }
}

/// Lists the nodes whose archive has a member, in an order that `random` chooses.
fn fill_populations<R: Random>(network: &Network<IndividualStorage>, random: &mut R) -> (populations:
    Vec<usize>)
    requires
        network.wf(),
    ensures
        populations@.to_multiset() == nonempty_nodes(
            network@.nodes,
            network@.nodes.len() as int,
        ).to_multiset(),
        populations_valid(network@.nodes, populations@),
{
    let nodes = network.get_nodes();
    let ghost seen = network@.nodes;
    let mut populations: Vec<usize> = Vec::new();
    let mut k: usize = 0;
    while k < nodes.len()
        invariant
            k <= nodes@.len(),
            seen == node_views(nodes@),
            forall|i: int| 0 <= i < nodes@.len() ==> (#[trigger] nodes@[i]).storage.wf(),
            populations@ == nonempty_nodes(seen, k as int),
        decreases nodes.len() - k,
    {
        assert(seen[k as int] == nodes@[k as int]@);
        if nodes[k].storage.population.size() > 0 {
            populations.push(k);
        }
        k += 1;
    }
    let ghost listed = populations@;
    let mut rng = random.get_rng();
    shuffle(&mut populations, &mut rng);
    proof {
        assert(seen.len() == nodes@.len());
        lemma_nonempty_nodes(seen, seen.len() as int);
        assert forall|p: int| 0 <= p < populations@.len() implies (#[trigger] populations@[p])
            < seen.len() && seen[populations@[p] as int].storage.individuals.len() > 0 by {
            let entry = populations@[p];
            assert(populations@.contains(entry));
            vstd::seq_lib::to_multiset_contains(populations@, entry);
            vstd::seq_lib::to_multiset_contains(listed, entry);
            let q = choose|q: int| 0 <= q < listed.len() && listed[q] == entry;
            assert(listed[q] < seen.len());
        }
    }
    populations
}

/// Compacts the map around the best solution of the elite: of the nodes with members,
/// those stay whose best member is farther from that solution than the percentile
/// threshold.
fn optimize_network(network: &mut Network<IndividualStorage>, best_individual: &Individual)
    requires
        old(network).wf(),
    ensures
        final(network).wf(),
        network_optimized(old(network)@, best_individual@.fitness, final(network)@),
{
    let ghost before = network@;
    let ghost best = best_individual@.fitness;
    let best_fitness = crate::network::copy_weights(best_individual.get_fitness_values());
    let mut distances: Vec<u64> = Vec::new();
    {
        let nodes = network.get_nodes();
        let mut k: usize = 0;
        while k < nodes.len()
            invariant
                k <= nodes@.len(),
                before.nodes == node_views(nodes@),
                best_fitness@ == best,
                forall|i: int| 0 <= i < nodes@.len() ==> (#[trigger] nodes@[i]).storage.wf(),
                distances@ == node_distances(before.nodes, best, k as int),
            decreases nodes.len() - k,
        {
            assert(before.nodes[k as int] == nodes@[k as int]@);
            match nodes[k].storage.population.best() {
                Some(member) => {
                    distances.push(relative_distance(&best_fitness, member.get_fitness_values()));
                },
                None => {},
            }
            k += 1;
        }
    }
    match determine_threshold(distances) {
        Some(threshold) => {
            let filter = DistanceFilter { best_fitness, threshold };
            proof {
                assert(verdicts_of::<IndividualStorage, DistanceFilter>(&filter, before.nodes)
                    =~= node_verdicts(best, threshold, before.nodes));
            }
            network.optimize(REBALANCE_COUNT, &filter);
        },
        None => {},
    }
}

/// Finds the distance that stands a quarter of the way down when the distances are put
/// in falling order; there is none where there are no distances.
pub fn determine_threshold(distances: Vec<u64>) -> (threshold: Option<u64>)
    ensures
        match threshold {
            Some(value) => percentile_threshold(distances@, value),
            None => distances@.len() == 0,
        },
{
    let mut distances = distances;
    let ghost measured = distances@;
    sort_ascending(&mut distances);
    proof {
        vstd::seq_lib::to_multiset_len(distances@);
        vstd::seq_lib::to_multiset_len(measured);
    }
    let count = distances.len();
    if count > 0 {
        let threshold = distances[count - 1 - count / 4];
        proof {
            assert(ascending(distances@));
            assert(percentile_threshold(measured, threshold));
        }
        Some(threshold)
    } else {
        None
    }
}

/// Creates the map that the four solutions seed.
fn create_network(config: &RosomaxaConfig, individuals: &Vec<Individual>) -> (network: Network<
    IndividualStorage,
>)
    requires
        config.wf(),
        individuals@.len() == 4,
        forall|i: int| 0 <= i < 4 ==> (#[trigger] views(individuals@)[i]).wf(),
    ensures
        network.wf(),
        network@ == seeded(views(individuals@), *config),
{
    let mut inputs: Vec<IndividualInput> = Vec::new();
    let mut i: usize = 0;
    while i < 4
        invariant
            i <= 4,
            individuals@.len() == 4,
            inputs@.len() == i,
            forall|k: int| 0 <= k < i ==> (#[trigger] inputs@[k])@ == views(individuals@)[k],
        decreases 4 - i,
    {
        inputs.push(IndividualInput::new(individuals[i].deep_copy()));
        i += 1;
    }
    let storage = IndividualStorage { population: Elitism::new(config.node_size, config.node_size) };
    proof {
        assert forall|k: int| 0 <= k < 4 implies valid_weights(
            IndividualInput::weights_of(#[trigger] inputs@[k]@),
            IndividualInput::weights_of(inputs@[0]@).len(),
        ) by {
            assert(views(individuals@)[k].wf());
            assert(views(individuals@)[0].wf());
        }
        assert(views(individuals@)[0].wf());
    }
    let network = Network::new(
        inputs,
        config.growth_threshold,
        config.reduction_factor,
        config.distribution_factor,
        config.learning_rate,
        config.hit_memory,
        storage,
    );
    proof {
        assert(network@.nodes =~= seeded(views(individuals@), *config).nodes);
    }
    network
}

} // verus!
