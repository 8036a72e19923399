use crate::individual::{
    fitness_less, is_better, is_same_fitness, lemma_fitness_order, same_fitness, Individual,
    IndividualView,
};
use crate::random::Random;
use std::cmp::Ordering;
use vstd::prelude::*;

verus! {

/// The views of the solutions of a vector, in its order.
pub open spec fn views(individuals: Seq<Individual>) -> Seq<IndividualView> {
    Seq::new(individuals.len(), |i: int| individuals[i]@)
}

/// How many members of `members` are strictly better than fitness `fitness`.
pub open spec fn count_better(members: Seq<IndividualView>, fitness: Seq<i64>) -> int
    decreases members.len(),
{
    if members.len() == 0 {
        0
    } else {
        count_better(members.drop_last(), fitness) + if fitness_less(
            members.last().fitness,
            fitness,
        ) {
            1int
        } else {
            0int
        }
    }
}

/// The count lies between zero and the number of members.
pub proof fn lemma_count_better_bounds(members: Seq<IndividualView>, fitness: Seq<i64>)
    ensures
        0 <= count_better(members, fitness) <= members.len(),
    decreases members.len(),
{
    if members.len() > 0 {
        lemma_count_better_bounds(members.drop_last(), fitness);
    }
}

/// The members are in strictly rising order of fitness: the best comes first, and no
/// two members have the same fitness.
pub open spec fn strictly_ranked(members: Seq<IndividualView>) -> bool {
    forall|i: int, j: int|
        0 <= i < j < members.len() ==> fitness_less(
            #[trigger] members[i].fitness,
            #[trigger] members[j].fitness,
        )
}

/// In a ranked archive the members better than a fitness are the first `count_better`.
pub proof fn lemma_better_members_come_first(members: Seq<IndividualView>, fitness: Seq<i64>)
    requires
        strictly_ranked(members),
    ensures
        0 <= count_better(members, fitness) <= members.len(),
        forall|k: int|
            0 <= k < members.len() ==> (fitness_less(#[trigger] members[k].fitness, fitness) <==> k
                < count_better(members, fitness)),
    decreases members.len(),
{
    if members.len() > 0 {
        let front = members.drop_last();
        let last = members.last();
        assert(strictly_ranked(front)) by {
            assert forall|i: int, j: int| 0 <= i < j < front.len() implies fitness_less(
                #[trigger] front[i].fitness,
                #[trigger] front[j].fitness,
            ) by {
                assert(front[i] == members[i] && front[j] == members[j]);
            }
        }
        lemma_better_members_come_first(front, fitness);
        assert forall|k: int| 0 <= k < members.len() implies (fitness_less(
            #[trigger] members[k].fitness,
            fitness,
        ) <==> k < count_better(members, fitness)) by {
            if k < front.len() {
                assert(front[k] == members[k]);
                assert(fitness_less(front[k].fitness, fitness) <==> k < count_better(
                    front,
                    fitness,
                ));
                if fitness_less(last.fitness, fitness) {
                    assert(fitness_less(members[k].fitness, members[members.len() - 1].fitness));
                    lemma_fitness_order(members[k].fitness, last.fitness, fitness);
                }
            } else if fitness_less(last.fitness, fitness) && front.len() > 0 {
                let j = front.len() - 1;
                assert(front[j] == members[j]);
                assert(fitness_less(members[j].fitness, members[members.len() - 1].fitness));
                lemma_fitness_order(members[j].fitness, last.fitness, fitness);
                assert(fitness_less(front[j].fitness, fitness) <==> j < count_better(
                    front,
                    fitness,
                ));
            }
        }
    }
}

/// What an archive holds, with its two sizes.
pub struct ElitismView {
    /// The members, the best first.
    pub individuals: Seq<IndividualView>,
    /// The largest number of members.
    pub max_population_size: nat,
    /// The number of members that a selection yields.
    pub selection_size: nat,
}

impl ElitismView {
    /// The archive is within its size and ranked.
    pub open spec fn wf(self) -> bool {
        &&& self.individuals.len() <= self.max_population_size <= i32::MAX
        &&& strictly_ranked(self.individuals)
    }

    /// Some member has the fitness `fitness`.
    pub open spec fn holds_fitness(self, fitness: Seq<i64>) -> bool {
        exists|i: int|
            0 <= i < self.individuals.len() && same_fitness(
                (#[trigger] self.individuals[i]).fitness,
                fitness,
            )
    }

    /// The archive takes the candidate in: no member has its fitness, and there is room
    /// left or the candidate is strictly better than the worst member.
    pub open spec fn admits(self, candidate: IndividualView) -> bool {
        &&& !self.holds_fitness(candidate.fitness)
        &&& (self.individuals.len() < self.max_population_size || (self.individuals.len() > 0
            && fitness_less(candidate.fitness, self.individuals.last().fitness)))
    }

    /// The archive after the candidate was offered: unchanged if it is not admitted; else
    /// with the candidate at its rank and, if that is one member too many, without the
    /// worst.
    pub open spec fn add(self, candidate: IndividualView) -> ElitismView {
        if !self.admits(candidate) {
            self
        } else {
            let grown = self.individuals.insert(
                count_better(self.individuals, candidate.fitness),
                candidate,
            );
            ElitismView {
                individuals: if grown.len() > self.max_population_size {
                    grown.drop_last()
                } else {
                    grown
                },
                max_population_size: self.max_population_size,
                selection_size: self.selection_size,
            }
        }
    }

    /// The number of members that a selection yields: none from an empty archive.
    pub open spec fn selection_len(self) -> nat {
        if self.individuals.len() == 0 {
            0
        } else {
            self.selection_size
        }
    }

    /// `pick` can stand at `place` of a selection: the best member at the first place; at
    /// the others a member other than the best or, where there is no other, the best.
    pub open spec fn may_pick(self, place: int, pick: IndividualView) -> bool {
        if place == 0 || self.individuals.len() == 1 {
            pick == self.individuals[0]
        } else {
            exists|rank: int|
                1 <= rank < self.individuals.len() && pick == #[trigger] self.individuals[rank]
        }
    }

    /// `picks` is what a selection from the archive begins with, `count` members at most.
    pub open spec fn selects_first(self, picks: Seq<IndividualView>, count: nat) -> bool {
        &&& picks.len() == if count < self.selection_len() {
            count
        } else {
            self.selection_len()
        }
        &&& forall|place: int| 0 <= place < picks.len() ==> self.may_pick(place, #[trigger] picks[place])
    }

    /// `picks` is a selection from the archive.
    pub open spec fn selects(self, picks: Seq<IndividualView>) -> bool {
        self.selects_first(picks, self.selection_size)
    }
}

/// A bounded archive of solutions, ranked by fitness.
pub struct Elitism {
    individuals: Vec<Individual>,
    max_population_size: usize,
    selection_size: usize,
}

impl View for Elitism {
    type V = ElitismView;

    closed spec fn view(&self) -> ElitismView {
        ElitismView {
            individuals: views(self.individuals@),
            max_population_size: self.max_population_size as nat,
            selection_size: self.selection_size as nat,
        }
    }
}

impl Elitism {
    /// The archive is within its size and ranked.
    pub open spec fn wf(&self) -> bool {
        self@.wf()
    }

    /// An empty archive for at most `max_population_size` members.
    pub fn new(max_population_size: usize, selection_size: usize) -> (archive: Elitism)
        requires
            max_population_size <= i32::MAX,
        ensures
            archive.wf(),
            archive@ == (ElitismView {
                individuals: Seq::empty(),
                max_population_size: max_population_size as nat,
                selection_size: selection_size as nat,
            }),
    {
        let archive = Elitism { individuals: Vec::new(), max_population_size, selection_size };
        assert(archive@.individuals =~= Seq::empty());
        archive
    }

    /// Number of members.
    pub fn size(&self) -> (size: usize)
        ensures
            size == self@.individuals.len(),
    {
        self.individuals.len()
    }

    /// The largest number of members.
    pub fn max_population_size(&self) -> (size: usize)
        ensures
            size == self@.max_population_size,
    {
        self.max_population_size
    }

    /// The number of members that a selection yields.
    pub fn selection_size(&self) -> (size: usize)
        ensures
            size == self@.selection_size,
    {
        self.selection_size
    }

    /// The member at `rank`; rank 0 is the best.
    pub fn get(&self, rank: usize) -> (member: &Individual)
        requires
            rank < self@.individuals.len(),
        ensures
            member@ == self@.individuals[rank as int],
    {
        &self.individuals[rank]
    }

    /// Offers a solution to the archive and says whether it was taken in.
    pub fn add(&mut self, individual: Individual) -> (admitted: bool)
        requires
            old(self).wf(),
        ensures
            final(self).wf(),
            admitted == old(self)@.admits(individual@),
            final(self)@ == old(self)@.add(individual@),
    {
        let ghost before = self@;
        let ghost members = before.individuals;
        let ghost candidate = individual@;
        let size = self.individuals.len();
        let mut better: usize = 0;
        let mut known = false;
        let mut i: usize = 0;
        while i < size
            invariant
                i <= size,
                size == self.individuals.len(),
                members == views(self.individuals@),
                better == count_better(members.take(i as int), candidate.fitness),
                better <= i,
                known == exists|k: int|
                    0 <= k < i && same_fitness((#[trigger] members[k]).fitness, candidate.fitness),
                candidate == individual@,
            decreases size - i,
        {
            let member = &self.individuals[i];
            proof {
                assert(members.take(i + 1).drop_last() == members.take(i as int));
                assert(members.take(i + 1).last() == members[i as int]);
                assert(members[i as int] == member@);
            }
            if is_better(member, &individual) {
                better += 1;
            }
            if is_same_fitness(member, &individual) {
                known = true;
            }
            i += 1;
        }
        proof {
            assert(members.take(size as int) == members);
            lemma_better_members_come_first(members, candidate.fitness);
        }
        if known {
            return false;
        }
        if size >= self.max_population_size {
            if size == 0 {
                return false;
            }
            assert(members.last() == self.individuals@[size - 1]@);
            if !is_better(&individual, &self.individuals[size - 1]) {
                return false;
            }
        }
        self.individuals.insert(better, individual);
        let ghost grown = members.insert(better as int, candidate);
        proof {
            assert(views(self.individuals@) =~= grown);
            assert(strictly_ranked(grown)) by {
                assert forall|a: int, b: int| 0 <= a < b < grown.len() implies fitness_less(
                    #[trigger] grown[a].fitness,
                    #[trigger] grown[b].fitness,
                ) by {
                    if a == better {
                        let other = members[b - 1];
                        assert(grown[b] == other);
                        assert(!fitness_less(other.fitness, candidate.fitness));
                        assert(!same_fitness(other.fitness, candidate.fitness));
                        lemma_fitness_order(other.fitness, candidate.fitness, candidate.fitness);
                    } else if b == better {
                        assert(grown[a] == members[a]);
                    } else {
                        let first = if a < better { a } else { a - 1 };
                        let second = if b < better { b } else { b - 1 };
                        assert(grown[a] == members[first]);
                        assert(grown[b] == members[second]);
                    }
                }
            }
        }
        if self.individuals.len() > self.max_population_size {
            self.individuals.pop();
            proof {
                assert(views(self.individuals@) =~= grown.drop_last());
            }
        }
        true
    }

    /// The best member, if there is one.
    pub fn best(&self) -> (best: Option<&Individual>)
        ensures
            match best {
                Some(member) => self@.individuals.len() > 0 && member@ == self@.individuals[0],
                None => self@.individuals.len() == 0,
            },
    {
        if self.individuals.len() > 0 {
            Some(&self.individuals[0])
        } else {
            None
        }
    }

    /// Selects members to continue from, as copies: first the best, then members drawn
    /// from the others, any of them as often as the draws name it.
    pub fn select<R: Random>(&self, random: &mut R) -> (picks: Vec<Individual>)
        requires
            self.wf(),
        ensures
            self@.selects(views(picks@)),
    {
        self.select_some(self.selection_size, random)
    }

    /// Selects as `select` does, but `count` members at most: what a selection begins with.
    pub fn select_some<R: Random>(&self, count: usize, random: &mut R) -> (picks: Vec<Individual>)
        requires
            self.wf(),
        ensures
            self@.selects_first(views(picks@), count as nat),
    {
        let mut picks: Vec<Individual> = Vec::new();
        let size = self.individuals.len();
        if size == 0 {
            return picks;
        }
        let limit = if count < self.selection_size {
            count
        } else {
            self.selection_size
        };
        let mut place: usize = 0;
        while place < limit
            invariant
                place <= limit,
                0 < size == self.individuals.len() <= i32::MAX,
                picks@.len() == place,
                forall|k: int| 0 <= k < place ==> self@.may_pick(k, #[trigger] views(picks@)[k]),
            decreases limit - place,
        {
            let rank = if place == 0 || size == 1 {
                0
            } else {
                random.uniform_int(1, size as i32) as usize
            };
            let pick = self.individuals[rank].deep_copy();
            let ghost before = views(picks@);
            proof {
                assert(pick@ == self@.individuals[rank as int]);
            }
            picks.push(pick);
            proof {
                assert forall|k: int| 0 <= k < place + 1 implies self@.may_pick(
                    k,
                    #[trigger] views(picks@)[k],
                ) by {
                    if k < place {
                        assert(views(picks@)[k] == before[k]);
                    }
                }
            }
            place += 1;
        }
        picks
    }

    /// The members with their ranks, the best first, as copies.
    pub fn ranked(&self) -> (ranked: Vec<(Individual, usize)>)
        ensures
            ranked@.len() == self@.individuals.len(),
            forall|rank: int|
                0 <= rank < ranked@.len() ==> (#[trigger] ranked@[rank]).0@
                    == self@.individuals[rank] && ranked@[rank].1 == rank,
    {
        let mut ranked: Vec<(Individual, usize)> = Vec::new();
        let mut rank: usize = 0;
        while rank < self.individuals.len()
            invariant
                rank <= self.individuals.len(),
                ranked@.len() == rank,
                forall|k: int|
                    0 <= k < rank ==> (#[trigger] ranked@[k]).0@ == self@.individuals[k]
                        && ranked@[k].1 == k,
            decreases self.individuals.len() - rank,
        {
            ranked.push((self.individuals[rank].deep_copy(), rank));
            rank += 1;
        }
        ranked
    }

    /// Compares two solutions by fitness; the better one is the lesser.
    pub fn cmp(&self, a: &Individual, b: &Individual) -> (order: Ordering)
        ensures
            order == Ordering::Less <==> fitness_less(a@.fitness, b@.fitness),
            order == Ordering::Greater <==> fitness_less(b@.fitness, a@.fitness),
            order == Ordering::Equal <==> same_fitness(a@.fitness, b@.fitness),
    {
        proof {
            lemma_fitness_order(a@.fitness, b@.fitness, a@.fitness);
            lemma_fitness_order(b@.fitness, a@.fitness, b@.fitness);
        }
        if is_better(a, b) {
            Ordering::Less
        } else if is_better(b, a) {
            Ordering::Greater
        } else {
            Ordering::Equal
        }
    }

    /// Empties the archive and returns what it held, the best first.
    pub fn drain(&mut self) -> (members: Vec<Individual>)
        ensures
            views(members@) == old(self)@.individuals,
            final(self)@ == (ElitismView {
                individuals: Seq::empty(),
                max_population_size: old(self)@.max_population_size,
                selection_size: old(self)@.selection_size,
            }),
            old(self).wf() ==> final(self).wf(),
    {
        let mut members: Vec<Individual> = Vec::new();
        std::mem::swap(&mut members, &mut self.individuals);
        assert(self@.individuals =~= Seq::empty());
        members
    }
}

} // verus!
