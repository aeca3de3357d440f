//! The population and its generational step: fitness, elitism, tournament
//! selection, single-point crossover and mutation.

use crate::components::{AIController, ControllerView, GameState, GENOME_SIZE};
use crate::fixed::{clamp, clamp_to, in_unit, ONE};
use crate::rng::random_in;
use rand::rngs::StdRng;
use vstd::multiset::Multiset;
use vstd::prelude::*;
use vstd::seq_lib::*;

verus! {

/// Fitness earned per kill.
pub const KILL_REWARD: u128 = 100_000_000;

/// Fitness earned per second survived.
pub const SURVIVAL_REWARD: u128 = 2;

/// Chance of each gene to be mutated.
pub const MUTATION_RATE: i128 = 100_000;

/// Largest amount by which a mutation shifts a gene.
pub const MUTATION_STRENGTH: i128 = 300_000;

/// One part in this many of a population is carried over as its elite.
pub const ELITE_DIVISOR: usize = 5;

/// All genomes of one generation.
#[derive(Debug)]
pub struct Population {
    pub generation: u32,
    pub population_size: usize,
    pub genomes: Vec<AIController>,
    /// The top genome of the generation that was evolved last.
    pub best_genome: Option<AIController>,
}

/// The fitness of a tank with `kills` kills that survived `survival_time`
/// seconds: 100 for each kill and 2 for each second.
pub open spec fn fitness_of(kills: u32, survival_time: u64) -> int {
    kills * KILL_REWARD + survival_time * SURVIVAL_REWARD
}

/// Computes [`fitness_of`].
pub fn compute_fitness(kills: u32, survival_time: u64) -> (f: u128)
    ensures
        f == fitness_of(kills, survival_time),
{
    assert(kills * KILL_REWARD <= 0x1_0000_0000 * KILL_REWARD) by (nonlinear_arith)
        requires
            0 <= kills <= 0x1_0000_0000,
    ;
    kills as u128 * KILL_REWARD + survival_time as u128 * SURVIVAL_REWARD
}

/// One kill more outweighs any lead in survival time of less than 50
/// seconds, and no lead of more.
pub proof fn lemma_kill_outweighs_survival(kills: u32, shorter: u64, longer: u64)
    requires
        kills < u32::MAX,
        shorter <= longer,
    ensures
        longer - shorter < 50_000_000 ==> fitness_of((kills + 1) as u32, shorter) > fitness_of(
            kills,
            longer,
        ),
        longer - shorter > 50_000_000 ==> fitness_of((kills + 1) as u32, shorter) < fitness_of(
            kills,
            longer,
        ),
{
}

/// Whether `genomes` is in descending order of fitness.
pub open spec fn ranked_by_fitness(genomes: Seq<AIController>) -> bool {
    forall|i: int, j: int|
        0 <= i < j < genomes.len() ==> genomes[i].fitness >= genomes[j].fitness
}

/// The winner of a tournament between the genomes with the indices `a`, `b`
/// and `c`: the fittest of them; of equally fit ones, the one drawn first.
pub open spec fn tournament(genomes: Seq<AIController>, a: int, b: int, c: int) -> int {
    let w = if genomes[b].fitness > genomes[a].fitness {
        b
    } else {
        a
    };
    if genomes[c].fitness > genomes[w].fitness {
        c
    } else {
        w
    }
}

/// Whether `genome` belongs to the winner of some tournament in `genomes`.
pub open spec fn selected(genomes: Seq<AIController>, genome: Seq<i32>) -> bool {
    exists|a: int, b: int, c: int|
        {
            &&& 0 <= a < genomes.len()
            &&& 0 <= b < genomes.len()
            &&& 0 <= c < genomes.len()
            &&& genome == #[trigger] genomes[tournament(genomes, a, b, c)].genome@
        }
}

/// The child of `first` and `second` with the split at `point`: the genes
/// of `first` before the split, those of `second` from the split on.
pub open spec fn crossed(first: Seq<i32>, second: Seq<i32>, point: int) -> Seq<i32> {
    Seq::new(
        first.len(),
        |i: int|
            if i < point {
                first[i]
            } else {
                second[i]
            },
    )
}

/// A gene shifted by `noise` and limited to `[-1.0, 1.0]`.
pub open spec fn mutated_gene(gene: i32, noise: int) -> int {
    clamp(gene + noise, -(ONE as int), ONE as int)
}

/// Whether `after` can come from `before` by mutation: every gene is as it
/// was, or has been shifted by at most [`MUTATION_STRENGTH`] and limited to
/// `[-1.0, 1.0]`.
pub open spec fn mutation_of(before: Seq<i32>, after: Seq<i32>) -> bool {
    &&& after.len() == before.len()
    &&& forall|i: int|
        0 <= i < before.len() ==> {
            ||| #[trigger] after[i] == before[i]
            ||| exists|noise: int|
                -MUTATION_STRENGTH <= noise <= MUTATION_STRENGTH && after[i]
                    == #[trigger] mutated_gene(before[i], noise)
        }
}

/// A controller that has not fought yet, with the weights `genome`.
pub open spec fn unproven(genome: Seq<i32>) -> ControllerView {
    ControllerView { genome, fitness: 0, kills: 0, survival_time: 0 }
}

/// Whether `child` can be bred from `genomes`: two tournaments pick its
/// parents, a crossover at some point joins them, a mutation follows, and
/// the child has not fought yet.
pub open spec fn offspring(genomes: Seq<AIController>, child: ControllerView) -> bool {
    exists|first: Seq<i32>, second: Seq<i32>, point: int|
        {
            &&& selected(genomes, first)
            &&& selected(genomes, second)
            &&& 0 <= point < GENOME_SIZE
            &&& mutation_of(#[trigger] crossed(first, second, point), child.genome)
            &&& child == unproven(child.genome)
        }
}

/// Mutation never leaves a gene outside `[-1.0, 1.0]` that it has changed,
/// so a genome within that range stays within it.
pub proof fn lemma_mutation_stays_in_unit(before: Seq<i32>, after: Seq<i32>)
    requires
        mutation_of(before, after),
    ensures
        forall|i: int|
            0 <= i < after.len() && #[trigger] after[i] != before[i] ==> in_unit(after[i] as int),
        (forall|i: int| 0 <= i < before.len() ==> in_unit(#[trigger] before[i] as int)) ==> (forall|
            i: int,
        |
            0 <= i < after.len() ==> in_unit(#[trigger] after[i] as int)),
{
}

/// A child has each gene from its first parent before the split and from
/// its second parent from the split on, whatever the split.
pub proof fn lemma_crossed_genes(first: Seq<i32>, second: Seq<i32>, point: int, i: int)
    requires
        0 <= i < first.len(),
    ensures
        crossed(first, second, point).len() == first.len(),
        crossed(first, second, point)[i] == (if i < point {
            first[i]
        } else {
            second[i]
        }),
{
}

impl Population {
    /// The genomes number `population_size`, and each of them, and the best
    /// one if there is one, is well formed.
    pub open spec fn wf(&self) -> bool {
        &&& self.genomes@.len() == self.population_size
        &&& forall|i: int| 0 <= i < self.genomes@.len() ==> (#[trigger] self.genomes@[i]).wf()
        &&& match self.best_genome {
            Some(best) => best.wf(),
            None => true,
        }
    }

    /// Puts a population together from its parts; rejects parts that do not
    /// make a well-formed population.
    pub fn restore(
        generation: u32,
        population_size: usize,
        genomes: Vec<AIController>,
        best_genome: Option<AIController>,
    ) -> (r: Option<Self>)
        ensures
            r is Some <==> (Population { generation, population_size, genomes, best_genome }).wf(),
            r is Some ==> r->0 == (Population { generation, population_size, genomes, best_genome }),
    {
        if genomes.len() != population_size {
            return None;
        }
        let mut i: usize = 0;
        while i < genomes.len()
            invariant
                i <= genomes@.len(),
                forall|k: int| 0 <= k < i ==> (#[trigger] genomes@[k]).wf(),
            decreases genomes@.len() - i,
        {
            if genomes[i].genome.len() != GENOME_SIZE {
                return None;
            }
            i += 1;
        }
        match &best_genome {
            Some(best) => {
                if best.genome.len() != GENOME_SIZE {
                    return None;
                }
            },
            None => {},
        }
        Some(Population { generation, population_size, genomes, best_genome })
    }

    /// The population to start from: the one that was loaded, if any, else a
    /// fresh one of `size` random genomes.
    pub fn new(size: usize, loaded: Option<Population>, rng: &mut StdRng) -> (p: Self)
        requires
            loaded is Some ==> loaded->0.wf(),
        ensures
            p.wf(),
            loaded is Some ==> p == loaded->0,
            loaded is None ==> p.fresh(size),
    {
        match loaded {
            Some(population) => population,
            None => Population::new_fresh(size, rng),
        }
    }

    /// Whether this is a first generation of `size` genomes that have not
    /// fought yet, with weights in `[-1.0, 1.0)`.
    pub open spec fn fresh(&self, size: usize) -> bool {
        &&& self.generation == 0
        &&& self.population_size == size
        &&& self.genomes@.len() == size
        &&& self.best_genome is None
        &&& forall|i: int|
            0 <= i < size ==> {
                &&& (#[trigger] self.genomes@[i])@ == unproven(self.genomes@[i].genome@)
                &&& self.genomes@[i].genome@.len() == GENOME_SIZE
                &&& forall|k: int|
                    0 <= k < GENOME_SIZE ==> -ONE <= #[trigger] self.genomes@[i].genome@[k] < ONE
            }
    }

    /// A first generation of `size` random genomes.
    pub fn new_fresh(size: usize, rng: &mut StdRng) -> (p: Self)
        ensures
            p.wf(),
            p.fresh(size),
    {
        let mut genomes: Vec<AIController> = Vec::new();
        while genomes.len() < size
            invariant
                genomes@.len() <= size,
                forall|i: int|
                    0 <= i < genomes@.len() ==> {
                        &&& (#[trigger] genomes@[i])@ == unproven(genomes@[i].genome@)
                        &&& genomes@[i].genome@.len() == GENOME_SIZE
                        &&& forall|k: int|
                            0 <= k < GENOME_SIZE ==> -ONE <= #[trigger] genomes@[i].genome@[k]
                                < ONE
                    },
            decreases size - genomes@.len(),
        {
            genomes.push(AIController::new_random(rng));
        }
        Population { generation: 0, population_size: size, genomes, best_genome: None }
    }

    /// Records what the tank steered by the genome `genome_id` has earned,
    /// and the fitness that follows from it. Without such a genome nothing
    /// changes.
    pub fn calculate_fitness(&mut self, genome_id: usize, kills: u32, survival_time: u64)
        ensures
            final(self).generation == old(self).generation,
            final(self).population_size == old(self).population_size,
            final(self).best_genome == old(self).best_genome,
            final(self).genomes@.len() == old(self).genomes@.len(),
            forall|i: int|
                0 <= i < old(self).genomes@.len() && i != genome_id ==> final(self).genomes@[i]
                    == old(self).genomes@[i],
            genome_id < old(self).genomes@.len() ==> final(self).genomes@[genome_id as int]@ == (
            ControllerView {
                genome: old(self).genomes@[genome_id as int].genome@,
                fitness: fitness_of(kills, survival_time),
                kills: kills as nat,
                survival_time: survival_time as nat,
            }),
            old(self).wf() ==> final(self).wf(),
    {
        if genome_id < self.genomes.len() {
            let fitness: u128 = compute_fitness(kills, survival_time);
            self.genomes[genome_id].fitness = fitness;
            self.genomes[genome_id].kills = kills;
            self.genomes[genome_id].survival_time = survival_time;
        }
    }
}

/// An elite genome as it enters the next generation: with its weights, and
/// with nothing earned yet.
pub open spec fn rested(elite: ControllerView) -> ControllerView {
    unproven(elite.genome)
}

/// Whether `next` can follow from a population whose genomes, in descending
/// order of fitness, are `ranked`.
///
/// The first fifth of the new genomes (rounded down) is the elite: the top
/// genomes in their order, each [`rested`], but for the first, which is the
/// top genome as it was, with its fitness. The others are [`offspring`] of
/// the ranked genomes. The top genome is also recorded as the best.
pub open spec fn bred_from(ranked: Seq<AIController>, next: Population) -> bool {
    let size = ranked.len() as int;
    let elite = size / (ELITE_DIVISOR as int);
    &&& next.genomes@.len() == size
    &&& if size > 0 {
        next.best_genome is Some && next.best_genome->0@ == ranked[0]@
    } else {
        next.best_genome is None
    }
    &&& elite > 0 ==> next.genomes@[0]@ == ranked[0]@
    &&& forall|i: int| 1 <= i < elite ==> (#[trigger] next.genomes@[i])@ == rested(ranked[i]@)
    &&& forall|i: int| elite <= i < size ==> offspring(ranked, (#[trigger] next.genomes@[i])@)
}

/// The elite of a bred population has earned nothing yet, but for its first
/// genome, which is the recorded best genome with all that it has earned.
pub proof fn lemma_elite_rested(ranked: Seq<AIController>, next: Population, i: int)
    requires
        bred_from(ranked, next),
        0 <= i < (ranked.len() as int) / (ELITE_DIVISOR as int),
    ensures
        i == 0 ==> next.best_genome is Some && next.genomes@[0]@ == next.best_genome->0@,
        i > 0 ==> next.genomes@[i].fitness == 0 && next.genomes@[i].kills == 0
            && next.genomes@[i].survival_time == 0 && next.genomes@[i].genome@
            == ranked[i].genome@,
{
}

/// Whether every weight of every genome lies in `[-1.0, 1.0]`.
pub open spec fn weights_in_unit(genomes: Seq<AIController>) -> bool {
    forall|i: int, k: int|
        0 <= i < genomes.len() && 0 <= k < genomes[i].genome@.len() ==> in_unit(
            #[trigger] genomes[i].genome@[k] as int,
        )
}

/// Breeding never leads out of `[-1.0, 1.0]`: when every weight of a
/// population lies in that range, so does every weight of the next
/// generation.
pub proof fn lemma_bred_weights_stay_in_unit(ranked: Seq<AIController>, next: Population)
    requires
        bred_from(ranked, next),
        forall|i: int| 0 <= i < ranked.len() ==> (#[trigger] ranked[i]).wf(),
        weights_in_unit(ranked),
    ensures
        weights_in_unit(next.genomes@),
{
    let size = ranked.len() as int;
    let elite = size / (ELITE_DIVISOR as int);
    assert forall|i: int, k: int|
        0 <= i < next.genomes@.len() && 0 <= k < next.genomes@[i].genome@.len() implies in_unit(
        #[trigger] next.genomes@[i].genome@[k] as int,
    ) by {
        if i < elite {
            if i == 0 {
                assert(next.genomes@[0]@.genome == ranked[0]@.genome);
            } else {
                assert(next.genomes@[i]@ == rested(ranked[i]@));
            }
            assert(next.genomes@[i].genome@ == ranked[i].genome@);
        } else {
            let child = next.genomes@[i]@;
            assert(offspring(ranked, child));
            let (first, second, point) = choose|first: Seq<i32>, second: Seq<i32>, point: int|
                {
                    &&& selected(ranked, first)
                    &&& selected(ranked, second)
                    &&& 0 <= point < GENOME_SIZE
                    &&& mutation_of(#[trigger] crossed(first, second, point), child.genome)
                    &&& child == unproven(child.genome)
                };
            let (a, b, c) = choose|a: int, b: int, c: int|
                {
                    &&& 0 <= a < ranked.len()
                    &&& 0 <= b < ranked.len()
                    &&& 0 <= c < ranked.len()
                    &&& first == #[trigger] ranked[tournament(ranked, a, b, c)].genome@
                };
            let (d, e, f) = choose|d: int, e: int, f: int|
                {
                    &&& 0 <= d < ranked.len()
                    &&& 0 <= e < ranked.len()
                    &&& 0 <= f < ranked.len()
                    &&& second == #[trigger] ranked[tournament(ranked, d, e, f)].genome@
                };
            let joined = crossed(first, second, point);
            let mother = ranked[tournament(ranked, a, b, c)];
            let father = ranked[tournament(ranked, d, e, f)];
            assert(mother.wf() && father.wf());
            assert(joined.len() == child.genome.len());
            if child.genome[k] == joined[k] {
                if k < point {
                    assert(joined[k] == mother.genome@[k]);
                } else {
                    assert(joined[k] == father.genome@[k]);
                }
            }
        }
    }
}

impl Population {
    /// The index of the first genome among `genomes` that no other exceeds
    /// in fitness.
    fn first_fittest(genomes: &Vec<AIController>) -> (best: usize)
        requires
            genomes@.len() > 0,
        ensures
            best < genomes@.len(),
            forall|k: int|
                0 <= k < genomes@.len() ==> genomes@[best as int].fitness >= (
                #[trigger] genomes@[k]).fitness,
    {
        let mut best: usize = 0;
        let mut k: usize = 1;
        while k < genomes.len()
            invariant
                best < genomes@.len(),
                1 <= k <= genomes@.len(),
                forall|m: int|
                    0 <= m < k ==> genomes@[best as int].fitness >= (#[trigger] genomes@[m]).fitness,
            decreases genomes@.len() - k,
        {
            if genomes[k].fitness > genomes[best].fitness {
                best = k;
            }
            k += 1;
        }
        best
    }

    /// Sorts the genomes in descending order of fitness.
    pub fn sort_by_fitness(&mut self)
        ensures
            ranked_by_fitness(final(self).genomes@),
            final(self).genomes@.to_multiset() == old(self).genomes@.to_multiset(),
            final(self).genomes@.len() == old(self).genomes@.len(),
            final(self).generation == old(self).generation,
            final(self).population_size == old(self).population_size,
            final(self).best_genome == old(self).best_genome,
            old(self).wf() ==> final(self).wf(),
    {
        broadcast use group_to_multiset_ensures;

        let ghost before = self.genomes@;
        let mut rest: Vec<AIController> = Vec::new();
        std::mem::swap(&mut rest, &mut self.genomes);
        let mut sorted: Vec<AIController> = Vec::new();
        assert(sorted@.to_multiset().add(rest@.to_multiset()) =~= before.to_multiset());
        while rest.len() > 0
            invariant
                sorted@.to_multiset().add(rest@.to_multiset()) == before.to_multiset(),
                sorted@.len() + rest@.len() == before.len(),
                ranked_by_fitness(sorted@),
                forall|i: int, k: int|
                    0 <= i < sorted@.len() && 0 <= k < rest@.len() ==> sorted@[i].fitness
                        >= rest@[k].fitness,
                self.generation == old(self).generation,
                self.population_size == old(self).population_size,
                self.best_genome == old(self).best_genome,
            decreases rest@.len(),
        {
            let ghost remaining = rest@;
            let ghost done = sorted@;
            let best: usize = Self::first_fittest(&rest);
            let top: AIController = rest.remove(best);
            sorted.push(top);
            assert(sorted@.to_multiset().add(rest@.to_multiset()) =~= done.to_multiset().add(
                remaining.to_multiset(),
            )) by {
                broadcast use vstd::multiset::group_multiset_axioms;

                assert(rest@ == remaining.remove(best as int));
                assert(sorted@ == done.push(remaining[best as int]));
                to_multiset_build(done, remaining[best as int]);
                to_multiset_remove(remaining, best as int);
                remaining.to_multiset_ensures();
                assert(remaining.contains(remaining[best as int]));
            }
        }
        assert(rest@.to_multiset() =~= Multiset::<AIController>::empty()) by {
            assert(rest@ =~= Seq::<AIController>::empty());
        }
        assert(sorted@.to_multiset() =~= before.to_multiset());
        proof {
            if old(self).wf() {
                assert forall|i: int| 0 <= i < sorted@.len() implies (#[trigger] sorted@[i]).wf() by {
                    sorted@.to_multiset_ensures();
                    before.to_multiset_ensures();
                    assert(sorted@.contains(sorted@[i]));
                    assert(sorted@.to_multiset().count(sorted@[i]) > 0);
                    assert(before.to_multiset().count(sorted@[i]) > 0);
                    assert(before.contains(sorted@[i]));
                }
            }
        }
        self.genomes = sorted;
    }

    /// The index of the winner of the tournament between the genomes with
    /// the indices `a`, `b` and `c`.
    pub fn tournament_winner(&self, a: usize, b: usize, c: usize) -> (w: usize)
        requires
            a < self.genomes@.len(),
            b < self.genomes@.len(),
            c < self.genomes@.len(),
        ensures
            w == tournament(self.genomes@, a as int, b as int, c as int),
            w < self.genomes@.len(),
    {
        let mut w: usize = a;
        if self.genomes[b].fitness > self.genomes[w].fitness {
            w = b;
        }
        if self.genomes[c].fitness > self.genomes[w].fitness {
            w = c;
        }
        w
    }

    /// Picks a parent: the winner of a tournament between three genomes
    /// drawn at random, each from the whole population.
    pub fn select_parent(&self, rng: &mut StdRng) -> (parent: AIController)
        requires
            self.genomes@.len() > 0,
        ensures
            (exists|a: int, b: int, c: int|
                {
                    &&& 0 <= a < self.genomes@.len()
                    &&& 0 <= b < self.genomes@.len()
                    &&& 0 <= c < self.genomes@.len()
                    &&& parent@ == #[trigger] self.genomes@[tournament(self.genomes@, a, b, c)]@
                }),
            selected(self.genomes@, parent.genome@),
    {
        let last: i128 = (self.genomes.len() - 1) as i128;
        let a: usize = random_in(rng, 0, last) as usize;
        let b: usize = random_in(rng, 0, last) as usize;
        let c: usize = random_in(rng, 0, last) as usize;
        let w: usize = self.tournament_winner(a, b, c);
        let parent: AIController = self.genomes[w].clone();
        assert(parent@ == self.genomes@[tournament(self.genomes@, a as int, b as int, c as int)]@);
        parent
    }

    /// Breeds the child of two parents with the split at `point`.
    pub fn crossover_at(first: &AIController, second: &AIController, point: usize) -> (child:
        AIController)
        requires
            second.genome@.len() >= first.genome@.len(),
        ensures
            child@ == unproven(crossed(first.genome@, second.genome@, point as int)),
            forall|i: int|
                0 <= i < first.genome@.len() ==> #[trigger] child.genome@[i] == (if i < point {
                    first.genome@[i]
                } else {
                    second.genome@[i]
                }),
    {
        let mut genome: Vec<i32> = Vec::new();
        let mut i: usize = 0;
        while i < first.genome.len()
            invariant
                second.genome@.len() >= first.genome@.len(),
                i <= first.genome@.len(),
                genome@.len() == i,
                forall|k: int|
                    0 <= k < i ==> #[trigger] genome@[k] == crossed(
                        first.genome@,
                        second.genome@,
                        point as int,
                    )[k],
            decreases first.genome@.len() - i,
        {
            if i < point {
                genome.push(first.genome[i]);
            } else {
                genome.push(second.genome[i]);
            }
            i += 1;
        }
        assert(genome@ =~= crossed(first.genome@, second.genome@, point as int));
        AIController { genome, fitness: 0, kills: 0, survival_time: 0 }
    }

    /// Breeds the child of two parents with the split at a random point.
    pub fn crossover(first: &AIController, second: &AIController, rng: &mut StdRng) -> (child:
        AIController)
        requires
            first.genome@.len() > 0,
            second.genome@.len() >= first.genome@.len(),
        ensures
            exists|point: int|
                0 <= point < first.genome@.len() && child@ == unproven(
                    #[trigger] crossed(first.genome@, second.genome@, point),
                ),
    {
        let point: usize = random_in(rng, 0, (first.genome.len() - 1) as i128) as usize;
        let child: AIController = Self::crossover_at(first, second, point);
        assert(child@ == unproven(crossed(first.genome@, second.genome@, point as int)));
        child
    }

    /// Whether a gene is mutated on the draw `chance` from `[0.0, 1.0)`:
    /// the draw is below [`MUTATION_RATE`].
    pub fn mutation_due(chance: i128) -> (due: bool)
        ensures
            due == (chance < MUTATION_RATE),
    {
        chance < MUTATION_RATE
    }

    /// Shifts `gene` by `noise` and limits it to `[-1.0, 1.0]`.
    pub fn mutate_gene(gene: i32, noise: i32) -> (r: i32)
        ensures
            r == mutated_gene(gene, noise as int),
            in_unit(r as int),
    {
        clamp_to(gene as i128 + noise as i128, -ONE, ONE)
    }

    /// Mutates a genome: each gene, with a chance of [`MUTATION_RATE`], is
    /// shifted by a random amount of at most [`MUTATION_STRENGTH`] and
    /// limited to `[-1.0, 1.0]`.
    pub fn mutate(individual: &mut AIController, rng: &mut StdRng)
        ensures
            mutation_of(old(individual).genome@, final(individual).genome@),
            final(individual).fitness == old(individual).fitness,
            final(individual).kills == old(individual).kills,
            final(individual).survival_time == old(individual).survival_time,
    {
        let ghost before = individual.genome@;
        let mut i: usize = 0;
        while i < individual.genome.len()
            invariant
                i <= before.len(),
                individual.genome@.len() == before.len(),
                individual.fitness == old(individual).fitness,
                individual.kills == old(individual).kills,
                individual.survival_time == old(individual).survival_time,
                forall|k: int| i <= k < before.len() ==> individual.genome@[k] == before[k],
                forall|k: int|
                    0 <= k < i ==> {
                        ||| #[trigger] individual.genome@[k] == before[k]
                        ||| exists|noise: int|
                            -MUTATION_STRENGTH <= noise <= MUTATION_STRENGTH
                                && individual.genome@[k] == #[trigger] mutated_gene(
                                before[k],
                                noise,
                            )
                    },
            decreases before.len() - i,
        {
            let chance: i128 = random_in(rng, 0, ONE as i128 - 1);
            if Self::mutation_due(chance) {
                let noise: i32 = random_in(rng, -MUTATION_STRENGTH, MUTATION_STRENGTH) as i32;
                let gene: i32 = individual.genome[i];
                individual.genome[i] = Self::mutate_gene(gene, noise);
                assert(individual.genome@[i as int] == mutated_gene(before[i as int], noise as int));
            }
            i += 1;
        }
    }

    /// Replaces the population by its next generation.
    ///
    /// The genomes are ranked by fitness and the top one is recorded as the
    /// best. A fifth of the new population is the elite of the old one, the
    /// rest is bred from it: see [`bred_from`].
    pub fn evolve(&mut self, rng: &mut StdRng) -> (evolved: &mut Self)
        requires
            old(self).wf(),
            old(self).generation < u32::MAX,
        ensures
            *final(self) == *final(evolved),
            evolved.wf(),
            evolved.generation == old(self).generation + 1,
            evolved.population_size == old(self).population_size,
            evolved.genomes@.len() == old(self).population_size,
            (exists|ranked: Seq<AIController>|
                {
                    &&& ranked.to_multiset() == old(self).genomes@.to_multiset()
                    &&& ranked_by_fitness(ranked)
                    &&& #[trigger] bred_from(ranked, *evolved)
                }),
            old(self).population_size > 0 ==> evolved.best_genome is Some,
            old(self).population_size >= ELITE_DIVISOR ==> evolved.genomes@[0]@
                == evolved.best_genome->0@,
            forall|i: int|
                1 <= i < old(self).population_size / ELITE_DIVISOR ==> (
                #[trigger] evolved.genomes@[i])@ == unproven(evolved.genomes@[i].genome@),
    {
        self.sort_by_fitness();
        let ghost ranked = self.genomes@;
        let size: usize = self.population_size;
        let elite_count: usize = size / ELITE_DIVISOR;
        let mut new_genomes: Vec<AIController> = Vec::new();
        if size > 0 {
            self.best_genome = Some(self.genomes[0].clone());
        } else {
            self.best_genome = None;
        }
        let mut i: usize = 0;
        while i < elite_count
            invariant
                self.wf(),
                self.genomes@ == ranked,
                ranked.len() == size,
                elite_count == size / ELITE_DIVISOR,
                i <= elite_count,
                new_genomes@.len() == i,
                forall|k: int| 0 <= k < i ==> (#[trigger] new_genomes@[k]).wf(),
                i > 0 ==> new_genomes@[0]@ == ranked[0]@,
                forall|k: int| 1 <= k < i ==> (#[trigger] new_genomes@[k])@ == rested(ranked[k]@),
            decreases elite_count - i,
        {
            let mut elite: AIController = self.genomes[i].clone();
            if i > 0 {
                elite.fitness = 0;
                elite.kills = 0;
                elite.survival_time = 0;
            }
            new_genomes.push(elite);
            i += 1;
        }
        while new_genomes.len() < size
            invariant
                self.wf(),
                self.genomes@ == ranked,
                ranked.len() == size,
                elite_count == size / ELITE_DIVISOR,
                elite_count <= new_genomes@.len() <= size,
                forall|k: int| 0 <= k < new_genomes@.len() ==> (#[trigger] new_genomes@[k]).wf(),
                elite_count > 0 ==> new_genomes@[0]@ == ranked[0]@,
                forall|k: int|
                    1 <= k < elite_count ==> (#[trigger] new_genomes@[k])@ == rested(ranked[k]@),
                forall|k: int|
                    elite_count <= k < new_genomes@.len() ==> offspring(
                        ranked,
                        (#[trigger] new_genomes@[k])@,
                    ),
            decreases size - new_genomes@.len(),
        {
            let first: AIController = self.select_parent(rng);
            let second: AIController = self.select_parent(rng);
            let mut child: AIController = Self::crossover(&first, &second, rng);
            let ghost joined = child.genome@;
            Self::mutate(&mut child, rng);
            proof {
                let point = choose|point: int|
                    0 <= point < first.genome@.len() && joined == #[trigger] crossed(
                        first.genome@,
                        second.genome@,
                        point,
                    );
                assert(mutation_of(crossed(first.genome@, second.genome@, point), child.genome@));
                assert(child@ == unproven(child.genome@));
                assert(offspring(ranked, child@));
            }
            new_genomes.push(child);
        }
        self.genomes = new_genomes;
        self.generation = self.generation + 1;
        assert(bred_from(ranked, *self));
        self
    }
}

/// Runs the evolution phase: one generational step, after which the next
/// battle begins.
pub fn evolve_population(population: &mut Population, rng: &mut StdRng) -> (next: GameState)
    requires
        old(population).wf(),
        old(population).generation < u32::MAX,
    ensures
        next == GameState::Battle,
        final(population).wf(),
        final(population).generation == old(population).generation + 1,
        final(population).population_size == old(population).population_size,
        (exists|ranked: Seq<AIController>|
            {
                &&& ranked.to_multiset() == old(population).genomes@.to_multiset()
                &&& ranked_by_fitness(ranked)
                &&& #[trigger] bred_from(ranked, *final(population))
            }),
        old(population).population_size > 0 ==> final(population).best_genome is Some,
        old(population).population_size >= ELITE_DIVISOR ==> final(population).genomes@[0]@
            == final(population).best_genome->0@,
        forall|i: int|
            1 <= i < old(population).population_size / ELITE_DIVISOR ==> (
            #[trigger] final(population).genomes@[i])@ == unproven(
                final(population).genomes@[i].genome@,
            ),
{
    population.evolve(rng);
    GameState::Battle
}

} // verus!
