use serde_json::{Number, Value};
use tank_evolution::components::AIController;
use tank_evolution::genetics::Population;

fn genome_to_json(controller: &AIController) -> Value {
    let mut record = serde_json::Map::new();
    record.insert(
        "weights".to_string(),
        Value::Array(
            controller
                .genome
                .iter()
                .map(|w| Value::Number(Number::from_f64(*w as f64 / 1_000_000.0).expect("finite")))
                .collect(),
        ),
    );
    record.insert(
        "fitness".to_string(),
        Value::Number(Number::from_f64(controller.fitness as f64 / 1_000_000.0).expect("finite")),
    );
    record.insert("kills".to_string(), Value::Number(Number::from(controller.kills)));
    record.insert(
        "survival_time".to_string(),
        Value::Number(
            Number::from_f64(controller.survival_time as f64 / 1_000_000.0).expect("finite"),
        ),
    );
    Value::Object(record)
}

fn genome_from_json(value: &Value) -> AIController {
    let fixed = |v: &Value| (v.as_f64().expect("a number") * 1_000_000.0).round();
    AIController {
        genome: value["weights"]
            .as_array()
            .expect("weights")
            .iter()
            .map(|w| fixed(w) as i32)
            .collect(),
        fitness: fixed(&value["fitness"]) as u128,
        kills: value["kills"].as_u64().expect("kills") as u32,
        survival_time: fixed(&value["survival_time"]) as u64,
    }
}

fn population_to_json(population: &Population) -> String {
    let mut record = serde_json::Map::new();
    record.insert("generation".to_string(), Value::Number(Number::from(population.generation)));
    record.insert(
        "population_size".to_string(),
        Value::Number(Number::from(population.population_size)),
    );
    record.insert(
        "genomes".to_string(),
        Value::Array(population.genomes.iter().map(genome_to_json).collect()),
    );
    record.insert(
        "best_genome".to_string(),
        match &population.best_genome {
            Some(best) => genome_to_json(best),
            None => Value::Null,
        },
    );
    serde_json::to_string_pretty(&Value::Object(record)).expect("json")
}

fn population_from_json(json: &str) -> Option<Population> {
    let value: Value = serde_json::from_str(json).ok()?;
    let genomes = value["genomes"].as_array()?.iter().map(genome_from_json).collect();
    let best = match &value["best_genome"] {
        Value::Null => None,
        record => Some(genome_from_json(record)),
    };
    Population::restore(
        value["generation"].as_u64()? as u32,
        value["population_size"].as_u64()? as usize,
        genomes,
        best,
    )
}

#[test]
fn snapshot_round_trips_through_json() {
    let mut genomes = Vec::new();
    for i in 0..20i32 {
        let mut weights = Vec::new();
        for k in 0..96i32 {
            weights.push(((i * 96 + k) * 1_041) % 2_000_001 - 1_000_000);
        }
        genomes.push(AIController::new(weights).expect("a genome of 96 weights"));
    }
    let mut population = Population::restore(12, 20, genomes, None).expect("a population");
    for i in 0..20usize {
        population.calculate_fitness(i, i as u32 % 4, 33_333 * (100 + i as u64));
    }
    population.best_genome = Some(population.genomes[3].clone());

    let json = population_to_json(&population);
    let restored = population_from_json(&json).expect("a well-formed population");

    assert_eq!(restored.generation, 12);
    assert_eq!(restored.population_size, 20);
    assert_eq!(restored.genomes.len(), 20);
    for i in 0..20 {
        assert_eq!(restored.genomes[i].genome, population.genomes[i].genome);
        assert_eq!(restored.genomes[i].fitness, population.genomes[i].fitness);
        assert_eq!(restored.genomes[i].kills, population.genomes[i].kills);
        assert_eq!(restored.genomes[i].survival_time, population.genomes[i].survival_time);
    }
    let best = restored.best_genome.expect("a best genome");
    assert_eq!(best.genome, population.genomes[3].genome);
    assert_eq!(best.fitness, population.genomes[3].fitness);
    assert_eq!(best.kills, 3);
}

#[test]
fn malformed_snapshot_gives_no_population() {
    assert!(population_from_json("{ not json").is_none());
    assert!(population_from_json("{\"generation\": 1}").is_none());
    let short = "{\"generation\": 1, \"population_size\": 1, \"best_genome\": null, \
        \"genomes\": [{\"weights\": [0.5, 0.25], \"fitness\": 0.0, \"kills\": 0, \
        \"survival_time\": 0.0}]}";
    assert!(population_from_json(short).is_none());
    let drifted = "{\"generation\": 1, \"population_size\": 3, \"best_genome\": null, \
        \"genomes\": []}";
    assert!(population_from_json(drifted).is_none());
    let empty = "{\"generation\": 4, \"population_size\": 0, \"best_genome\": null, \
        \"genomes\": []}";
    assert_eq!(population_from_json(empty).expect("an empty population").generation, 4);
}
