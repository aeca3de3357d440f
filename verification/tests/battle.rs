use rand::rngs::StdRng;
use rand::SeedableRng;
use tank_evolution::battle::{
    battle_tick, check_battle_end, end_battle, is_one_team_left, run_battle, spawn_tank,
    spawn_tanks_from_population, spawn_tanks_headless, start_battle, BattleState, TeamStats,
    BASE_SIM_DT,
};
use tank_evolution::components::{
    AIController, FireCooldown, GameState, Position, Projectile, Tank,
};
use tank_evolution::genetics::Population;
use tank_evolution::map::GameMap;
use tank_evolution::systems::{
    ai_control_system, collision_system, projectile_movement_system, Agent, Controller,
};

fn tanh(x: i64) -> i32 {
    ((x as f64 / 1_000_000.0).tanh() * 1_000_000.0).round() as i32
}

fn trig(angle: i32) -> (i32, i32) {
    let a = angle as f64 / 1_000_000.0;
    ((a.sin() * 1_000_000.0).round() as i32, (a.cos() * 1_000_000.0).round() as i32)
}

fn zero_population(size: usize) -> Population {
    let mut genomes = Vec::new();
    for _ in 0..size {
        genomes.push(AIController::new(vec![0; 96]).expect("a genome of 96 weights"));
    }
    Population::restore(0, size, genomes, None).expect("a well-formed population")
}

#[test]
fn defaults_match_a_fresh_tank() {
    assert_eq!(
        Tank::default(),
        Tank {
            health: 100_000_000,
            max_health: 100_000_000,
            speed: 5_000_000,
            rotation_speed: 2_000_000,
            generation: 0,
            team: 0,
        }
    );
    assert_eq!(FireCooldown::default(), FireCooldown { remaining: 0 });
    assert_eq!(GameState::default(), GameState::Setup);
    assert_eq!(TeamStats::default(), TeamStats { team_id: 0, alive_count: 0, total_kills: 0 });
    let state = BattleState::default();
    assert_eq!(state.tick_count, 0);
    assert_eq!(state.max_ticks, 0);
    assert_eq!(state.real_time, 0);
    assert!(state.teams.is_empty());
}

#[test]
fn spawned_tank_is_at_full_health_with_loaded_gun() {
    let place = Position { x: 1, y: 2, z: 3 };
    let agent = spawn_tank(place, 1, Some(4));
    assert_eq!(
        agent,
        Agent {
            position: place,
            rotation: 0,
            tank: Tank { team: 1, ..Tank::default() },
            cooldown: FireCooldown { remaining: 0 },
            controller: Controller::Ai { genome_id: 4 },
            kills: 0,
            survival_time: 0,
        }
    );
    assert_eq!(spawn_tank(place, 0, None).controller, Controller::Player);
}

#[test]
fn battle_starts_with_full_tick_budget() {
    let mut state = BattleState { tick_count: 77, max_ticks: 1, real_time: 5, teams: Vec::new() };
    start_battle(&mut state);
    assert_eq!(state.tick_count, 0);
    assert_eq!(state.real_time, 0);
    // 120 s at 30 ticks per second.
    assert_eq!(state.max_ticks, 3600);
}

#[test]
fn ten_tanks_are_spawned_in_two_teams_with_genomes_in_turn() {
    let mut rng = StdRng::seed_from_u64(9);
    let population = zero_population(4);
    let agents = spawn_tanks_from_population(&population, &mut rng);
    assert_eq!(agents.len(), 10);
    let mut places = std::collections::BTreeSet::new();
    for (i, agent) in agents.iter().enumerate() {
        assert_eq!(agent.tank.team, (i % 2) as u32);
        assert_eq!(agent.controller, Controller::Ai { genome_id: i % 4 });
        assert_eq!(agent.tank.health, 100_000_000);
        assert_eq!(agent.position.y, 500_000);
        assert!(-40_000_000 <= agent.position.x && agent.position.x < 40_000_000);
        assert!(-40_000_000 <= agent.position.z && agent.position.z < 40_000_000);
        assert_eq!(agent.kills, 0);
        assert_eq!(agent.survival_time, 0);
        assert_eq!(agent.rotation, 0);
        places.insert(agent.position.x);
        places.insert(agent.position.z);
    }
    assert!(places.len() > 10);
    let larger = zero_population(20);
    let few = spawn_tanks_from_population(&larger, &mut rng);
    assert_eq!(few[9].controller, Controller::Ai { genome_id: 9 });
}

#[test]
fn headless_spawn_depends_on_the_flag() {
    let mut rng = StdRng::seed_from_u64(9);
    let population = zero_population(20);
    assert!(spawn_tanks_headless(false, &population, &mut rng).is_none());
    let agents = spawn_tanks_headless(true, &population, &mut rng).expect("tanks");
    assert_eq!(agents.len(), 10);
    assert_eq!(agents[3].tank.team, 1);
}

#[test]
fn battle_ends_when_one_team_is_left() {
    let mut agents = vec![
        spawn_tank(Position { x: 0, y: 0, z: 0 }, 0, Some(0)),
        spawn_tank(Position { x: 9, y: 0, z: 0 }, 1, Some(1)),
        spawn_tank(Position { x: 5, y: 0, z: 0 }, 0, Some(2)),
    ];
    assert!(!is_one_team_left(&agents));
    let mut state = BattleState::default();
    start_battle(&mut state);
    assert_eq!(check_battle_end(&mut state, &agents), GameState::Battle);
    assert_eq!(state.tick_count, 1);
    assert_eq!(state.real_time, 33_333);
    agents[1].tank.health = 0;
    assert!(is_one_team_left(&agents));
    assert_eq!(check_battle_end(&mut state, &agents), GameState::Evolution);
    assert_eq!(state.tick_count, 2);
    assert_eq!(state.real_time, 66_666);
}

#[test]
fn battle_ends_when_nobody_is_left() {
    let mut agents = vec![
        spawn_tank(Position { x: 0, y: 0, z: 0 }, 0, Some(0)),
        spawn_tank(Position { x: 9, y: 0, z: 0 }, 1, Some(1)),
    ];
    agents[0].tank.health = -3;
    agents[1].tank.health = 0;
    let mut state = BattleState::default();
    start_battle(&mut state);
    assert_eq!(check_battle_end(&mut state, &agents), GameState::Evolution);
    assert_eq!(check_battle_end(&mut state, &Vec::new()), GameState::Evolution);
}

#[test]
fn battle_ends_when_the_tick_budget_is_used_up() {
    let agents = vec![
        spawn_tank(Position { x: 0, y: 0, z: 0 }, 0, Some(0)),
        spawn_tank(Position { x: 9, y: 0, z: 0 }, 1, Some(1)),
    ];
    let mut state = BattleState { tick_count: 0, max_ticks: 3, real_time: 0, teams: Vec::new() };
    assert_eq!(check_battle_end(&mut state, &agents), GameState::Battle);
    assert_eq!(check_battle_end(&mut state, &agents), GameState::Battle);
    assert_eq!(check_battle_end(&mut state, &agents), GameState::Evolution);
    assert_eq!(state.tick_count, 3);
    assert_eq!(state.max_ticks, 3);
}

#[test]
fn end_of_battle_credits_every_tank_to_its_genome() {
    let mut population = zero_population(3);
    let mut agents = vec![
        spawn_tank(Position { x: 0, y: 0, z: 0 }, 0, Some(0)),
        spawn_tank(Position { x: 9, y: 0, z: 0 }, 1, Some(1)),
        spawn_tank(Position { x: 5, y: 0, z: 0 }, 0, Some(0)),
        spawn_tank(Position { x: 5, y: 0, z: 0 }, 0, None),
        spawn_tank(Position { x: 5, y: 0, z: 0 }, 0, Some(7)),
    ];
    agents[0].kills = 2;
    agents[0].survival_time = 10_000_000;
    agents[1].kills = 1;
    agents[1].survival_time = 4_000_000;
    agents[1].tank.health = 0;
    agents[2].survival_time = 6_000_000;
    agents[3].kills = 50;
    agents[4].kills = 60;
    assert_eq!(end_battle(&mut population, &agents), GameState::Evolution);
    // Genome 0 steered tanks 0 and 2; the later one is recorded.
    assert_eq!(population.genomes[0].kills, 0);
    assert_eq!(population.genomes[0].survival_time, 6_000_000);
    assert_eq!(population.genomes[0].fitness, 12_000_000);
    // A dead tank is credited too.
    assert_eq!(population.genomes[1].kills, 1);
    assert_eq!(population.genomes[1].fitness, 108_000_000);
    assert_eq!(population.genomes[2].fitness, 0);
    assert_eq!(population.genomes.len(), 3);
    assert_eq!(population.generation, 0);
}

#[test]
fn zero_genomes_stand_still_until_the_battle_times_out() {
    let mut population = zero_population(2);
    let mut agents = vec![
        spawn_tank(Position { x: -10_000_000, y: 500_000, z: 0 }, 0, Some(0)),
        spawn_tank(Position { x: 10_000_000, y: 500_000, z: 0 }, 1, Some(1)),
    ];
    let mut projectiles: Vec<Projectile> = Vec::new();
    let obstacles = Vec::new();
    let mut state = BattleState::default();
    start_battle(&mut state);
    let mut phase = GameState::Battle;
    while phase == GameState::Battle {
        ai_control_system(
            &mut agents,
            &mut projectiles,
            &obstacles,
            &population.genomes,
            BASE_SIM_DT,
            &tanh,
            &trig,
        );
        projectile_movement_system(&mut projectiles, BASE_SIM_DT, &trig);
        collision_system(&mut agents, &mut projectiles, &obstacles);
        phase = check_battle_end(&mut state, &agents);
    }
    assert_eq!(phase, GameState::Evolution);
    // Nobody died: the battle ended because the tick budget was used up.
    assert_eq!(state.tick_count, state.max_ticks);
    assert_eq!(state.tick_count, 3600);
    assert!(projectiles.is_empty());
    assert_eq!(agents[0].position, Position { x: -10_000_000, y: 500_000, z: 0 });
    assert_eq!(agents[1].position, Position { x: 10_000_000, y: 500_000, z: 0 });
    for agent in &agents {
        assert_eq!(agent.tank.health, 100_000_000);
        assert_eq!(agent.rotation, 0);
        assert_eq!(agent.kills, 0);
        assert_eq!(agent.survival_time, 3600 * 33_333);
    }
    assert_eq!(end_battle(&mut population, &agents), GameState::Evolution);
    for genome in &population.genomes {
        assert_eq!(genome.kills, 0);
        assert_eq!(genome.survival_time, 119_998_800);
        assert_eq!(genome.fitness, 2 * 119_998_800);
    }
}

#[test]
fn generated_map_holds_fifteen_obstacles_inside_the_arena() {
    let mut rng = StdRng::seed_from_u64(31);
    let map = GameMap::new(100_000_000, &mut rng);
    assert_eq!(map.size, 100_000_000);
    assert_eq!(map.obstacles.len(), 15);
    let mut places = std::collections::BTreeSet::new();
    for o in &map.obstacles {
        assert!(-50_000_000 <= o.position.x && o.position.x < 50_000_000);
        assert!(-50_000_000 <= o.position.z && o.position.z < 50_000_000);
        assert!(2_000_000 <= o.size.x && o.size.x < 6_000_000);
        assert!(2_000_000 <= o.size.y && o.size.y < 8_000_000);
        assert!(2_000_000 <= o.size.z && o.size.z < 6_000_000);
        assert_eq!(o.position.y, o.size.y / 2);
        places.insert(o.position.x);
    }
    assert!(places.len() > 5);
}

#[test]
fn tick_moves_projectiles_before_it_settles_hits() {
    let population = zero_population(2);
    let mut agents = vec![
        spawn_tank(Position { x: 0, y: 500_000, z: 0 }, 0, Some(0)),
        spawn_tank(Position { x: 0, y: 500_000, z: 30_000_000 }, 1, Some(1)),
    ];
    agents[1].tank.health = 20_000_000;
    // One second away from the enemy, and a shot that is about to expire.
    let mut projectiles = vec![
        Projectile {
            position: Position { x: 0, y: 500_000, z: 0 },
            rotation: 0,
            damage: 20_000_000,
            speed: 30_000_000,
            lifetime: 3_000_000,
            owner: 0,
        },
        Projectile {
            position: Position { x: 0, y: 500_000, z: 29_000_000 },
            rotation: 0,
            damage: 20_000_000,
            speed: 0,
            lifetime: 1_000_000,
            owner: 0,
        },
    ];
    let mut state = BattleState::default();
    start_battle(&mut state);
    let next = battle_tick(
        &mut agents,
        &mut projectiles,
        &Vec::new(),
        &population.genomes,
        &mut state,
        1_000_000,
        &tanh,
        &trig,
    );
    // The first shot has arrived and killed; the second expired before it
    // could hit. One team is left.
    assert_eq!(agents[1].tank.health, 0);
    assert_eq!(agents[0].kills, 1);
    assert_eq!(agents[0].survival_time, 1_000_000);
    assert_eq!(agents[1].survival_time, 1_000_000);
    assert!(projectiles.is_empty());
    assert_eq!(state.tick_count, 1);
    assert_eq!(next, GameState::Evolution);
}

#[test]
fn tick_goes_on_while_two_teams_stand() {
    let population = zero_population(2);
    let mut agents = vec![
        spawn_tank(Position { x: -10_000_000, y: 500_000, z: 0 }, 0, Some(0)),
        spawn_tank(Position { x: 10_000_000, y: 500_000, z: 0 }, 1, Some(1)),
    ];
    let mut projectiles = Vec::new();
    let mut state = BattleState::default();
    start_battle(&mut state);
    for tick in 1..=10u32 {
        let next = battle_tick(
            &mut agents,
            &mut projectiles,
            &Vec::new(),
            &population.genomes,
            &mut state,
            BASE_SIM_DT,
            &tanh,
            &trig,
        );
        assert_eq!(next, GameState::Battle);
        assert_eq!(state.tick_count, tick);
        assert_eq!(agents[0].survival_time, tick as u64 * 33_333);
    }
}

#[test]
fn battle_of_zero_genomes_runs_to_the_tick_budget() {
    let mut population = zero_population(2);
    let mut agents = vec![
        spawn_tank(Position { x: -10_000_000, y: 500_000, z: 0 }, 0, Some(0)),
        spawn_tank(Position { x: 10_000_000, y: 500_000, z: 0 }, 1, Some(1)),
    ];
    let mut projectiles: Vec<Projectile> = Vec::new();
    let mut state = BattleState { tick_count: 9, max_ticks: 2, real_time: 1, teams: Vec::new() };
    let next = run_battle(
        &mut agents,
        &mut projectiles,
        &Vec::new(),
        &population.genomes,
        &mut state,
        BASE_SIM_DT,
        &tanh,
        &trig,
    );
    assert_eq!(next, GameState::Evolution);
    assert_eq!(state.max_ticks, 3600);
    assert_eq!(state.tick_count, 3600);
    assert_eq!(state.real_time, 119_998_800);
    for agent in &agents {
        assert!(agent.tank.is_alive());
        assert_eq!(agent.kills, 0);
        assert_eq!(agent.survival_time, 119_998_800);
    }
    end_battle(&mut population, &agents);
    assert_eq!(population.genomes[0].fitness, 239_997_600);
    assert_eq!(population.genomes[1].fitness, 239_997_600);
}

#[test]
fn battle_ends_with_the_last_enemy() {
    let population = zero_population(2);
    // Both tanks always wish to fire; tank 0 aims at tank 1, which aims away.
    let mut agents = vec![
        spawn_tank(Position { x: 0, y: 500_000, z: 0 }, 0, Some(0)),
        spawn_tank(Position { x: 0, y: 500_000, z: 20_000_000 }, 1, Some(1)),
    ];
    let mut projectiles: Vec<Projectile> = Vec::new();
    let mut state = BattleState::default();
    let fire_only = |x: i64| if x == 0 { 0 } else { 1 };
    let mut genomes = population.genomes;
    // A path from the health sensor to the fire output.
    for genome in genomes.iter_mut() {
        genome.genome[0] = 1_000_000;
        genome.genome[64 + 2] = 1_000_000;
    }
    let shooter = |x: i64| if fire_only(x) == 1 { 900_000 } else { 0 };
    let next = run_battle(
        &mut agents,
        &mut projectiles,
        &Vec::new(),
        &genomes,
        &mut state,
        BASE_SIM_DT,
        &shooter,
        &trig,
    );
    assert_eq!(next, GameState::Evolution);
    assert!(state.tick_count < 3600);
    assert!(agents[0].tank.is_alive());
    assert!(!agents[1].tank.is_alive());
    assert_eq!(agents[0].tank.health, 100_000_000);
    assert_eq!(agents[0].kills, 1);
    assert_eq!(agents[1].kills, 0);
    assert_eq!(agents[0].survival_time, state.tick_count as u64 * 33_333);
    // The fifth hit kills; a shot is fired every 0.7 s.
    assert!(state.tick_count as u64 * 33_333 > 4 * 700_000);
}
