use rand::rngs::StdRng;
use rand::SeedableRng;
use tank_evolution::components::{AIController, GameState};
use tank_evolution::fixed::ONE;
use tank_evolution::genetics::{compute_fitness, evolve_population, Population};

fn genome_of(value: i32) -> AIController {
    AIController::new(vec![value; 96]).expect("a genome of 96 weights")
}

fn population_with_fitness(kills: &[u32]) -> Population {
    let mut genomes = Vec::new();
    for (i, _) in kills.iter().enumerate() {
        genomes.push(genome_of(i as i32 * 1000));
    }
    let mut population = Population::restore(0, kills.len(), genomes, None)
        .expect("a well-formed population");
    for (i, k) in kills.iter().enumerate() {
        population.calculate_fitness(i, *k, 0);
    }
    population
}

#[test]
fn fitness_rewards_kills_and_survival() {
    assert_eq!(compute_fitness(0, 0), 0);
    // 3 kills and 2.5 s: 3 * 100 + 2.5 * 2 = 305
    assert_eq!(compute_fitness(3, 2_500_000), 305_000_000);
    // One kill outweighs 49 s of survival, not 51 s.
    assert!(compute_fitness(1, 0) > compute_fitness(0, 49_000_000));
    assert!(compute_fitness(1, 0) < compute_fitness(0, 51_000_000));
    assert_eq!(
        compute_fitness(u32::MAX, u64::MAX),
        u32::MAX as u128 * 100_000_000 + u64::MAX as u128 * 2
    );
}

#[test]
fn calculate_fitness_records_outcome_of_one_genome() {
    let mut population = population_with_fitness(&[0, 0, 0]);
    population.calculate_fitness(1, 2, 119_998_800);
    assert_eq!(population.genomes[1].kills, 2);
    assert_eq!(population.genomes[1].survival_time, 119_998_800);
    assert_eq!(population.genomes[1].fitness, 200_000_000 + 239_997_600);
    assert_eq!(population.genomes[1].genome, vec![1000; 96]);
    assert_eq!(population.genomes[0].fitness, 0);
    assert_eq!(population.genomes[2].fitness, 0);
    population.calculate_fitness(3, 9, 9);
    assert_eq!(population.genomes.len(), 3);
    assert_eq!(population.genomes[2].fitness, 0);
}

#[test]
fn restore_rejects_malformed_parts() {
    assert!(Population::restore(3, 2, vec![genome_of(1), genome_of(2)], None).is_some());
    assert!(Population::restore(3, 3, vec![genome_of(1), genome_of(2)], None).is_none());
    let short = AIController { genome: vec![0; 10], fitness: 0, kills: 0, survival_time: 0 };
    assert!(Population::restore(0, 2, vec![genome_of(1), short.clone()], None).is_none());
    assert!(Population::restore(0, 1, vec![genome_of(1)], Some(short)).is_none());
    let restored = Population::restore(7, 1, vec![genome_of(5)], Some(genome_of(6)))
        .expect("a well-formed population");
    assert_eq!(restored.generation, 7);
    assert_eq!(restored.population_size, 1);
    assert_eq!(restored.genomes[0].genome, vec![5; 96]);
    assert_eq!(restored.best_genome.expect("a best genome").genome, vec![6; 96]);
}

#[test]
fn fresh_population_has_random_genomes_in_range() {
    let mut rng = StdRng::seed_from_u64(11);
    let population = Population::new_fresh(20, &mut rng);
    assert_eq!(population.generation, 0);
    assert_eq!(population.population_size, 20);
    assert_eq!(population.genomes.len(), 20);
    assert!(population.best_genome.is_none());
    let mut distinct = std::collections::BTreeSet::new();
    for g in &population.genomes {
        assert_eq!(g.genome.len(), 96);
        assert_eq!(g.fitness, 0);
        assert_eq!(g.kills, 0);
        assert_eq!(g.survival_time, 0);
        for w in &g.genome {
            assert!(-ONE <= *w && *w < ONE);
            distinct.insert(*w);
        }
    }
    // 1920 draws that were all one of the bounds would not be random.
    assert!(distinct.len() > 1000);
}

#[test]
fn new_prefers_loaded_population() {
    let mut rng = StdRng::seed_from_u64(3);
    let loaded = Population::restore(42, 1, vec![genome_of(9)], None);
    let population = Population::new(20, loaded, &mut rng);
    assert_eq!(population.generation, 42);
    assert_eq!(population.population_size, 1);
    assert_eq!(population.genomes[0].genome, vec![9; 96]);
    let fresh = Population::new(20, None, &mut rng);
    assert_eq!(fresh.generation, 0);
    assert_eq!(fresh.genomes.len(), 20);
}

#[test]
fn sort_puts_fittest_first() {
    let mut population = population_with_fitness(&[2, 9, 0, 9, 5]);
    population.sort_by_fitness();
    let kills: Vec<u32> = population.genomes.iter().map(|g| g.kills).collect();
    assert_eq!(kills, vec![9, 9, 5, 2, 0]);
    let mut firsts: Vec<i32> = population.genomes.iter().map(|g| g.genome[0]).collect();
    firsts.sort();
    assert_eq!(firsts, vec![0, 1000, 2000, 3000, 4000]);
    assert_eq!(population.population_size, 5);
}

#[test]
fn tournament_keeps_fittest_and_first_of_equals() {
    let population = population_with_fitness(&[2, 9, 0, 9, 5]);
    assert_eq!(population.tournament_winner(0, 2, 4), 4);
    assert_eq!(population.tournament_winner(4, 2, 0), 4);
    assert_eq!(population.tournament_winner(1, 3, 0), 1);
    assert_eq!(population.tournament_winner(3, 1, 0), 3);
    assert_eq!(population.tournament_winner(2, 2, 2), 2);
}

#[test]
fn select_parent_returns_member_of_population() {
    let population = population_with_fitness(&[2, 9, 0, 9, 5]);
    let mut rng = StdRng::seed_from_u64(5);
    let mut seen = std::collections::BTreeSet::new();
    for _ in 0..200 {
        let parent = population.select_parent(&mut rng);
        let index = (parent.genome[0] / 1000) as usize;
        assert_eq!(parent.genome, population.genomes[index].genome);
        assert_eq!(parent.fitness, population.genomes[index].fitness);
        seen.insert(index);
    }
    // The least fit genome only wins a tournament against itself.
    assert!(seen.len() > 1);
    assert!(seen.contains(&1) || seen.contains(&3));
}

#[test]
fn crossover_takes_genes_from_first_parent_before_split() {
    let mut a = genome_of(0);
    let mut b = genome_of(0);
    for i in 0..96 {
        a.genome[i] = i as i32;
        b.genome[i] = -(i as i32) - 1;
    }
    a.kills = 4;
    a.fitness = 17;
    for split in 0..=96usize {
        let child = Population::crossover_at(&a, &b, split);
        assert_eq!(child.genome.len(), 96);
        for i in 0..96 {
            if i < split {
                assert_eq!(child.genome[i], a.genome[i]);
            } else {
                assert_eq!(child.genome[i], b.genome[i]);
            }
        }
        assert_eq!(child.fitness, 0);
        assert_eq!(child.kills, 0);
        assert_eq!(child.survival_time, 0);
    }
}

#[test]
fn random_crossover_splits_inside_genome() {
    let a = genome_of(1);
    let b = genome_of(2);
    let mut rng = StdRng::seed_from_u64(8);
    let mut splits = std::collections::BTreeSet::new();
    for _ in 0..300 {
        let child = Population::crossover(&a, &b, &mut rng);
        let split = child.genome.iter().filter(|g| **g == 1).count();
        assert!(split < 96);
        for i in 0..96 {
            assert_eq!(child.genome[i], if i < split { 1 } else { 2 });
        }
        splits.insert(split);
    }
    assert!(splits.len() > 20);
}

#[test]
fn mutated_gene_is_shifted_and_limited() {
    assert_eq!(Population::mutate_gene(500_000, 200_000), 700_000);
    assert_eq!(Population::mutate_gene(900_000, 300_000), ONE);
    assert_eq!(Population::mutate_gene(-900_000, -300_000), -ONE);
    assert_eq!(Population::mutate_gene(i32::MAX, i32::MAX), ONE);
    assert_eq!(Population::mutate_gene(i32::MIN, -1), -ONE);
    assert_eq!(Population::mutate_gene(0, 0), 0);
}

#[test]
fn mutation_keeps_genes_within_unit_interval() {
    let mut rng = StdRng::seed_from_u64(21);
    let mut changed = 0;
    for round in 0..50 {
        let mut individual = genome_of(0);
        for i in 0..96 {
            individual.genome[i] = ((i as i32 * 20_833 + round * 977) % 2_000_001) - ONE;
        }
        individual.kills = 3;
        individual.fitness = 12;
        individual.survival_time = 99;
        let before = individual.genome.clone();
        Population::mutate(&mut individual, &mut rng);
        assert_eq!(individual.genome.len(), 96);
        for i in 0..96 {
            let gene = individual.genome[i];
            assert!(-ONE <= gene && gene <= ONE);
            assert!((gene - before[i]).abs() <= 300_000);
            if gene != before[i] {
                changed += 1;
            }
        }
        assert_eq!(individual.kills, 3);
        assert_eq!(individual.fitness, 12);
        assert_eq!(individual.survival_time, 99);
    }
    // About one gene in ten of 4800 is mutated.
    assert!(changed > 240 && changed < 960);
}

#[test]
fn evolve_keeps_size_and_counts_generation() {
    let mut rng = StdRng::seed_from_u64(1);
    let mut population = Population::new_fresh(20, &mut rng);
    for round in 1..=5u32 {
        population.evolve(&mut rng);
        assert_eq!(population.generation, round);
        assert_eq!(population.population_size, 20);
        assert_eq!(population.genomes.len(), 20);
        for g in &population.genomes {
            assert_eq!(g.genome.len(), 96);
        }
    }
}

#[test]
fn elite_is_carried_over_and_rested() {
    let kills: Vec<u32> = vec![3, 7, 1, 19, 4, 0, 12, 8, 2, 6, 5, 9, 11, 10, 13, 14, 15, 16, 17, 18];
    let mut population = population_with_fitness(&kills);
    for (i, g) in population.genomes.iter_mut().enumerate() {
        g.survival_time = 1_000 + i as u64;
    }
    let mut rng = StdRng::seed_from_u64(77);
    population.evolve(&mut rng);
    assert_eq!(population.genomes.len(), 20);
    assert_eq!(population.generation, 1);
    let best = population.best_genome.clone().expect("a best genome");
    // Genome 3 had 19 kills.
    assert_eq!(best.genome, vec![3000; 96]);
    assert_eq!(best.kills, 19);
    assert_eq!(best.fitness, 1_900_000_000);
    assert_eq!(best.survival_time, 1_003);
    let first = &population.genomes[0];
    assert_eq!(first.genome, best.genome);
    assert_eq!(first.fitness, best.fitness);
    assert_eq!(first.kills, best.kills);
    assert_eq!(first.survival_time, best.survival_time);
    // Then the genomes with 18, 17 and 16 kills.
    let expected = [19_000, 18_000, 17_000];
    for i in 1..4 {
        assert_eq!(population.genomes[i].genome, vec![expected[i - 1]; 96]);
        assert_eq!(population.genomes[i].fitness, 0);
        assert_eq!(population.genomes[i].kills, 0);
        assert_eq!(population.genomes[i].survival_time, 0);
    }
    for i in 4..20 {
        let child = &population.genomes[i];
        assert_eq!(child.fitness, 0);
        assert_eq!(child.kills, 0);
        assert_eq!(child.survival_time, 0);
        for gene in &child.genome {
            // Parents hold 0 to 19000; a mutation shifts by at most 0.3.
            assert!(-300_000 <= *gene && *gene <= 319_000);
        }
    }
}

#[test]
fn small_population_has_no_elite() {
    let mut population = population_with_fitness(&[1, 5, 2]);
    let mut rng = StdRng::seed_from_u64(4);
    population.evolve(&mut rng);
    assert_eq!(population.genomes.len(), 3);
    assert_eq!(population.generation, 1);
    assert_eq!(population.best_genome.expect("a best genome").kills, 5);
    for g in &population.genomes {
        assert_eq!(g.fitness, 0);
    }
}

#[test]
fn empty_population_evolves_to_empty_population() {
    let mut population = Population::restore(0, 0, Vec::new(), None).expect("an empty population");
    let mut rng = StdRng::seed_from_u64(4);
    population.evolve(&mut rng);
    assert_eq!(population.genomes.len(), 0);
    assert_eq!(population.generation, 1);
    assert!(population.best_genome.is_none());
}

#[test]
fn evolution_phase_leads_back_to_battle() {
    let mut rng = StdRng::seed_from_u64(2);
    let mut population = Population::new_fresh(20, &mut rng);
    let next = evolve_population(&mut population, &mut rng);
    assert_eq!(next, GameState::Battle);
    assert_eq!(population.generation, 1);
    assert_eq!(population.genomes.len(), 20);
    assert!(population.best_genome.is_some());
}

#[test]
fn same_seed_gives_same_generation() {
    let mut first_rng = StdRng::seed_from_u64(123);
    let mut second_rng = StdRng::seed_from_u64(123);
    let mut first = Population::new_fresh(20, &mut first_rng);
    let mut second = Population::new_fresh(20, &mut second_rng);
    first.evolve(&mut first_rng);
    second.evolve(&mut second_rng);
    for i in 0..20 {
        assert_eq!(first.genomes[i].genome, second.genomes[i].genome);
    }
}

#[test]
fn evolve_returns_the_population_for_chaining() {
    let mut rng = StdRng::seed_from_u64(6);
    let mut population = Population::new_fresh(20, &mut rng);
    let generation = population.evolve(&mut rng).evolve(&mut rng).generation;
    assert_eq!(generation, 2);
    assert_eq!(population.generation, 2);
    assert_eq!(population.genomes.len(), 20);
}
