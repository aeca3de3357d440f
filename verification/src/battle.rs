//! A match from its start to its end: spawning the tanks, counting the
//! ticks, deciding when the match is over and crediting the genomes.

use crate::components::{
    AIController, ControllerView, FireCooldown, GameState, Position, Projectile, Tank, MAX_HEALTH,
    ROTATION_SPEED, TANK_SPEED,
};
use crate::genetics::{fitness_of, Population};
use crate::rng::random_in;
use crate::fixed::in_unit;
use crate::map::Obstacle;
use crate::systems::{
    ai_control_system, bound, collision_system, controlled, controls, decided, flies, flight,
    lemma_flight_len, lemma_settled_keeps, lemma_shots_len, projectile_movement_system, settled,
    shots, steered, Agent, Controller, Decision, GROUND_HEIGHT,
};
use rand::rngs::StdRng;
use vstd::prelude::*;

verus! {

/// Seconds one tick of the simulation lasts: a thirtieth of a second.
pub const BASE_SIM_DT: u32 = 33_333;

/// Seconds a battle lasts at most.
pub const BATTLE_DURATION: u32 = 120_000_000;

/// Number of tanks in a battle.
pub const TANK_COUNT: usize = 10;

/// Tanks are spawned at most this far from the centre, along each axis.
pub const SPAWN_RANGE: i32 = 40_000_000;

/// The progress of the running battle.
#[derive(Debug)]
pub struct BattleState {
    pub tick_count: u32,
    pub max_ticks: u32,
    /// Simulated seconds since the battle began.
    pub real_time: u64,
    pub teams: Vec<TeamStats>,
}

/// The standing of one team.
#[derive(Clone, Copy, Debug, PartialEq, Eq, Structural)]
pub struct TeamStats {
    pub team_id: u32,
    pub alive_count: u32,
    pub total_kills: u32,
}

impl Default for TeamStats {
    fn default() -> (t: Self)
        ensures
            t == (TeamStats { team_id: 0, alive_count: 0, total_kills: 0 }),
    {
        TeamStats { team_id: 0, alive_count: 0, total_kills: 0 }
    }
}

impl Default for BattleState {
    fn default() -> (b: Self)
        ensures
            b.tick_count == 0,
            b.max_ticks == 0,
            b.real_time == 0,
            b.teams@.len() == 0,
    {
        BattleState { tick_count: 0, max_ticks: 0, real_time: 0, teams: Vec::new() }
    }
}

/// Begins a battle: no tick has passed, and the budget is as many ticks as
/// fit into the duration of a battle.
pub fn start_battle(battle_state: &mut BattleState)
    ensures
        final(battle_state).tick_count == 0,
        final(battle_state).real_time == 0,
        final(battle_state).max_ticks == BATTLE_DURATION / BASE_SIM_DT,
        final(battle_state).max_ticks == 3600,
        final(battle_state).teams == old(battle_state).teams,
{
    battle_state.tick_count = 0;
    battle_state.real_time = 0;
    battle_state.max_ticks = BATTLE_DURATION / BASE_SIM_DT;
}

/// The genomes after the tank `agent` has been credited: the genome that
/// steers it holds the kills and the survival time of the tank and the
/// fitness that follows from them. A tank that no genome of the population
/// steers changes nothing.
pub open spec fn credited(genomes: Seq<ControllerView>, agent: Agent) -> Seq<ControllerView> {
    match agent.controller {
        Controller::Ai { genome_id } => if genome_id < genomes.len() {
            genomes.update(
                genome_id as int,
                ControllerView {
                    genome: genomes[genome_id as int].genome,
                    fitness: fitness_of(agent.kills, agent.survival_time),
                    kills: agent.kills as nat,
                    survival_time: agent.survival_time as nat,
                },
            )
        } else {
            genomes
        },
        Controller::Player => genomes,
    }
}

/// The genomes after the first `n` tanks have been credited, in their
/// order.
pub open spec fn evaluated(genomes: Seq<ControllerView>, agents: Seq<Agent>, n: int) -> Seq<
    ControllerView,
>
    decreases n,
{
    if n <= 0 {
        genomes
    } else {
        credited(evaluated(genomes, agents, n - 1), agents[n - 1])
    }
}

/// The genomes as mathematical values.
pub open spec fn views(genomes: Seq<AIController>) -> Seq<ControllerView> {
    Seq::new(genomes.len(), |i: int| genomes[i]@)
}

/// Ends a battle: every tank, dead or alive, is credited to the genome that
/// steered it, and the evolution phase follows.
pub fn end_battle(population: &mut Population, agents: &Vec<Agent>) -> (next: GameState)
    ensures
        next == GameState::Evolution,
        views(final(population).genomes@) == evaluated(
            views(old(population).genomes@),
            agents@,
            agents@.len() as int,
        ),
        final(population).generation == old(population).generation,
        final(population).population_size == old(population).population_size,
        final(population).best_genome == old(population).best_genome,
        old(population).wf() ==> final(population).wf(),
{
    let ghost before = views(population.genomes@);
    let mut i: usize = 0;
    while i < agents.len()
        invariant
            i <= agents@.len(),
            views(population.genomes@) == evaluated(before, agents@, i as int),
            population.generation == old(population).generation,
            population.population_size == old(population).population_size,
            population.best_genome == old(population).best_genome,
            old(population).wf() ==> population.wf(),
        decreases agents@.len() - i,
    {
        let ghost earlier = views(population.genomes@);
        match agents[i].controller {
            Controller::Ai { genome_id } => {
                population.calculate_fitness(genome_id, agents[i].kills, agents[i].survival_time);
            },
            Controller::Player => {},
        }
        assert(views(population.genomes@) =~= credited(earlier, agents@[i as int]));
        i += 1;
    }
    GameState::Evolution
}

/// A tank as it enters a battle at `position`: at full health, with a
/// loaded gun, heading along `z`, with nothing earned. It is steered by the
/// genome `ai_controller`, or from outside if there is none.
pub open spec fn spawned(position: Position, team: u32, ai_controller: Option<usize>) -> Agent {
    Agent {
        position,
        rotation: 0,
        tank: Tank {
            health: MAX_HEALTH,
            max_health: MAX_HEALTH,
            speed: TANK_SPEED,
            rotation_speed: ROTATION_SPEED,
            generation: 0,
            team,
        },
        cooldown: FireCooldown { remaining: 0 },
        controller: match ai_controller {
            Some(genome_id) => Controller::Ai { genome_id },
            None => Controller::Player,
        },
        kills: 0,
        survival_time: 0,
    }
}

/// Makes one tank: see [`spawned`].
pub fn spawn_tank(position: Position, team: u32, ai_controller: Option<usize>) -> (agent: Agent)
    ensures
        agent == spawned(position, team, ai_controller),
{
    Agent {
        position,
        rotation: 0,
        tank: Tank {
            health: MAX_HEALTH,
            max_health: MAX_HEALTH,
            speed: TANK_SPEED,
            rotation_speed: ROTATION_SPEED,
            generation: 0,
            team,
        },
        cooldown: FireCooldown { remaining: 0 },
        controller: match ai_controller {
            Some(genome_id) => Controller::Ai { genome_id },
            None => Controller::Player,
        },
        kills: 0,
        survival_time: 0,
    }
}

/// Whether `agents` are the tanks of a new battle for `genome_count`
/// genomes: [`TANK_COUNT`] tanks on the ground within the spawn range, the
/// teams 0 and 1 in turn, tank `i` steered by genome `i` modulo the number
/// of genomes.
pub open spec fn lined_up(agents: Seq<Agent>, genome_count: int) -> bool {
    &&& agents.len() == TANK_COUNT
    &&& forall|i: int|
        0 <= i < TANK_COUNT ==> {
            &&& (#[trigger] agents[i]) == spawned(
                agents[i].position,
                (i % 2) as u32,
                Some((i % genome_count) as usize),
            )
            &&& -SPAWN_RANGE <= agents[i].position.x < SPAWN_RANGE
            &&& -SPAWN_RANGE <= agents[i].position.z < SPAWN_RANGE
            &&& agents[i].position.y == GROUND_HEIGHT
        }
}

/// Spawns the tanks of a new battle at random places: see [`lined_up`].
pub fn spawn_tanks_from_population(population: &Population, rng: &mut StdRng) -> (agents: Vec<
    Agent,
>)
    requires
        population.genomes@.len() > 0,
    ensures
        lined_up(agents@, population.genomes@.len() as int),
        population.wf() ==> bound(agents@, population.genomes@),
{
    let mut agents: Vec<Agent> = Vec::new();
    let mut i: usize = 0;
    while i < TANK_COUNT
        invariant
            population.genomes@.len() > 0,
            i <= TANK_COUNT,
            agents@.len() == i,
            forall|k: int|
                0 <= k < i ==> {
                    &&& (#[trigger] agents@[k]) == spawned(
                        agents@[k].position,
                        (k % 2) as u32,
                        Some((k % (population.genomes@.len() as int)) as usize),
                    )
                    &&& -SPAWN_RANGE <= agents@[k].position.x < SPAWN_RANGE
                    &&& -SPAWN_RANGE <= agents@[k].position.z < SPAWN_RANGE
                    &&& agents@[k].position.y == GROUND_HEIGHT
                },
        decreases TANK_COUNT - i,
    {
        let x: i128 = random_in(rng, -(SPAWN_RANGE as i128), SPAWN_RANGE as i128 - 1);
        let z: i128 = random_in(rng, -(SPAWN_RANGE as i128), SPAWN_RANGE as i128 - 1);
        agents.push(
            spawn_tank(
                Position { x: x as i32, y: GROUND_HEIGHT, z: z as i32 },
                (i % 2) as u32,
                Some(i % population.genomes.len()),
            ),
        );
        i += 1;
    }
    agents
}

/// Spawns the tanks of a new battle if the run is headless; the tanks are
/// those of [`spawn_tanks_from_population`].
pub fn spawn_tanks_headless(headless: bool, population: &Population, rng: &mut StdRng) -> (agents:
    Option<Vec<Agent>>)
    requires
        population.genomes@.len() > 0,
    ensures
        agents is Some <==> headless,
        agents is Some ==> lined_up(agents->0@, population.genomes@.len() as int),
        agents is Some && population.wf() ==> bound(agents->0@, population.genomes@),
{
    if headless {
        Some(spawn_tanks_from_population(population, rng))
    } else {
        None
    }
}

/// Whether all living tanks are of one team. That holds too when no tank is
/// alive.
pub open spec fn one_team_left(agents: Seq<Agent>) -> bool {
    forall|i: int, j: int|
        0 <= i < agents.len() && 0 <= j < agents.len() && (#[trigger] agents[i]).tank.alive() && (
        #[trigger] agents[j]).tank.alive() ==> agents[i].tank.team == agents[j].tank.team
}

/// Decides [`one_team_left`].
pub fn is_one_team_left(agents: &Vec<Agent>) -> (r: bool)
    ensures
        r == one_team_left(agents@),
{
    let mut team: Option<u32> = None;
    let ghost mut witness: int = 0;
    let mut k: usize = 0;
    while k < agents.len()
        invariant
            k <= agents@.len(),
            match team {
                Some(t) => 0 <= witness < k && agents@[witness].tank.alive()
                    && agents@[witness].tank.team == t && forall|m: int|
                    0 <= m < k && (#[trigger] agents@[m]).tank.alive() ==> agents@[m].tank.team
                        == t,
                None => forall|m: int| 0 <= m < k ==> !(#[trigger] agents@[m]).tank.alive(),
            },
        decreases agents@.len() - k,
    {
        if agents[k].tank.is_alive() {
            match team {
                Some(t) => {
                    if agents[k].tank.team != t {
                        assert(agents@[witness].tank.alive() && agents@[k as int].tank.alive());
                        return false;
                    }
                },
                None => {
                    team = Some(agents[k].tank.team);
                    proof {
                        witness = k as int;
                    }
                },
            }
        }
        k += 1;
    }
    true
}

/// Whether the battle is over after `tick_count` ticks of a budget of
/// `max_ticks`: at most one team is left, or the budget is used up.
pub open spec fn battle_over(agents: Seq<Agent>, tick_count: int, max_ticks: int) -> bool {
    one_team_left(agents) || tick_count >= max_ticks
}

/// Counts a tick and decides whether the battle goes on or the evolution
/// phase follows.
pub fn check_battle_end(battle_state: &mut BattleState, agents: &Vec<Agent>) -> (next: GameState)
    requires
        old(battle_state).tick_count < u32::MAX,
    ensures
        final(battle_state).tick_count == old(battle_state).tick_count + 1,
        final(battle_state).real_time == final(battle_state).tick_count * BASE_SIM_DT,
        final(battle_state).max_ticks == old(battle_state).max_ticks,
        final(battle_state).teams == old(battle_state).teams,
        next == (if battle_over(
            agents@,
            final(battle_state).tick_count as int,
            final(battle_state).max_ticks as int,
        ) {
            GameState::Evolution
        } else {
            GameState::Battle
        }),
{
    battle_state.tick_count = battle_state.tick_count + 1;
    assert(battle_state.tick_count * BASE_SIM_DT <= 0x1_0000_0000 * BASE_SIM_DT) by (nonlinear_arith)
        requires
            0 <= battle_state.tick_count <= 0x1_0000_0000,
    ;
    battle_state.real_time = battle_state.tick_count as u64 * BASE_SIM_DT as u64;
    if is_one_team_left(agents) || battle_state.tick_count >= battle_state.max_ticks {
        GameState::Evolution
    } else {
        GameState::Battle
    }
}

/// Whether the tanks `after` and the projectiles `left` can follow from
/// `agents` and `projectiles` by one tick of `dt` seconds without commands
/// from outside: first the networks steer the tanks, then the projectiles
/// fly, those just fired too, and then the hits are settled.
pub open spec fn ticked<F: Fn(i64) -> i32, G: Fn(i32) -> (i32, i32)>(
    agents: Seq<Agent>,
    projectiles: Seq<Projectile>,
    obstacles: Seq<Obstacle>,
    genomes: Seq<AIController>,
    dt: u32,
    activation: F,
    trig: G,
    after: Seq<Agent>,
    left: Seq<Projectile>,
) -> bool {
    exists|moved: Seq<Agent>, fired: Seq<Projectile>, flown: Seq<Projectile>|
        {
            &&& #[trigger] controls(
                agents,
                projectiles,
                obstacles,
                genomes,
                dt,
                activation,
                trig,
                moved,
                fired,
            )
            &&& #[trigger] flies(fired, dt, trig, flown)
            &&& (after, left) == settled(moved, obstacles, flown, flown.len() as int)
        }
}

/// Advances a battle by one tick of `dt` seconds and decides whether it
/// goes on: see [`ticked`] and [`check_battle_end`].
pub fn battle_tick<F: Fn(i64) -> i32, G: Fn(i32) -> (i32, i32)>(
    agents: &mut Vec<Agent>,
    projectiles: &mut Vec<Projectile>,
    obstacles: &Vec<Obstacle>,
    genomes: &Vec<AIController>,
    battle_state: &mut BattleState,
    dt: u32,
    activation: &F,
    trig: &G,
) -> (next: GameState)
    requires
        forall|x: i64| activation.requires((x,)),
        forall|a: i32| trig.requires((a,)),
        forall|a: i32, r: (i32, i32)|
            trig.ensures((a,), r) ==> in_unit(r.0 as int) && in_unit(r.1 as int),
        bound(old(agents)@, genomes@),
        forall|i: int|
            0 <= i < old(agents)@.len() ==> (#[trigger] old(agents)@[i]).survival_time + dt
                <= u64::MAX,
        forall|i: int|
            0 <= i < old(agents)@.len() ==> (#[trigger] old(agents)@[i]).kills + old(
                projectiles,
            )@.len() + old(agents)@.len() <= u32::MAX,
        old(battle_state).tick_count < u32::MAX,
    ensures
        ticked(
            old(agents)@,
            old(projectiles)@,
            obstacles@,
            genomes@,
            dt,
            *activation,
            *trig,
            final(agents)@,
            final(projectiles)@,
        ),
        final(battle_state).tick_count == old(battle_state).tick_count + 1,
        final(battle_state).real_time == final(battle_state).tick_count * BASE_SIM_DT,
        final(battle_state).max_ticks == old(battle_state).max_ticks,
        final(battle_state).teams == old(battle_state).teams,
        next == (if battle_over(
            final(agents)@,
            final(battle_state).tick_count as int,
            final(battle_state).max_ticks as int,
        ) {
            GameState::Evolution
        } else {
            GameState::Battle
        }),
{
    let ghost before = agents@;
    let ghost flying = projectiles@;
    ai_control_system(agents, projectiles, obstacles, genomes, dt, activation, trig);
    let ghost moved = agents@;
    let ghost fired = projectiles@;
    proof {
        let ds = choose|ds: Seq<Decision>|
            {
                &&& ds.len() == before.len()
                &&& forall|i: int|
                    0 <= i < before.len() ==> if controlled(before[i]) {
                        &&& decided(
                            before,
                            obstacles@,
                            genomes@[before[i].controller->genome_id as int].genome@,
                            i,
                            dt,
                            *activation,
                            *trig,
                            #[trigger] ds[i],
                        )
                        &&& moved[i] == steered(
                            before,
                            obstacles@,
                            i,
                            dt,
                            ds[i].heading,
                            ds[i].outputs,
                        )
                    } else {
                        moved[i] == before[i]
                    }
                &&& fired == flying + #[trigger] shots(
                    before,
                    obstacles@,
                    ds,
                    dt,
                    before.len() as int,
                    true,
                )
            };
        lemma_shots_len(before, obstacles@, ds, dt, before.len() as int, true);
        assert forall|i: int| 0 <= i < moved.len() implies (#[trigger] moved[i]).kills
            == before[i].kills by {
            let d = ds[i];
        }
    }
    projectile_movement_system(projectiles, dt, trig);
    let ghost flown = projectiles@;
    proof {
        let hs = choose|hs: Seq<(i32, i32)>|
            {
                &&& hs.len() == fired.len()
                &&& forall|k: int|
                    0 <= k < hs.len() ==> trig.ensures((fired[k].rotation,), #[trigger] hs[k])
                &&& flown == #[trigger] flight(fired, hs, dt, fired.len() as int)
            };
        lemma_flight_len(fired, hs, dt, fired.len() as int);
    }
    collision_system(agents, projectiles, obstacles);
    assert(ticked(
        before,
        flying,
        obstacles@,
        genomes@,
        dt,
        *activation,
        *trig,
        agents@,
        projectiles@,
    )) by {
        assert(controls(
            before,
            flying,
            obstacles@,
            genomes@,
            dt,
            *activation,
            *trig,
            moved,
            fired,
        ));
        assert(flies(fired, dt, *trig, flown));
        assert((agents@, projectiles@) == settled(moved, obstacles@, flown, flown.len() as int));
    }
    check_battle_end(battle_state, agents)
}

/// A tick changes neither the number of the tanks nor who steers them nor
/// their teams. A tank survives at most `dt` seconds more, and its kills
/// and the projectiles in flight grow by no more than the number of tanks.
pub proof fn lemma_ticked_keeps<F: Fn(i64) -> i32, G: Fn(i32) -> (i32, i32)>(
    agents: Seq<Agent>,
    projectiles: Seq<Projectile>,
    obstacles: Seq<Obstacle>,
    genomes: Seq<AIController>,
    dt: u32,
    activation: F,
    trig: G,
    after: Seq<Agent>,
    left: Seq<Projectile>,
)
    requires
        ticked(agents, projectiles, obstacles, genomes, dt, activation, trig, after, left),
        forall|i: int|
            0 <= i < agents.len() ==> (#[trigger] agents[i]).survival_time + dt <= u64::MAX,
        forall|i: int|
            0 <= i < agents.len() ==> (#[trigger] agents[i]).kills + projectiles.len()
                + agents.len() <= u32::MAX,
    ensures
        after.len() == agents.len(),
        forall|i: int|
            0 <= i < agents.len() ==> ({
                &&& (#[trigger] after[i]).controller == agents[i].controller
                &&& after[i].tank.team == agents[i].tank.team
                &&& agents[i].survival_time <= after[i].survival_time <= agents[i].survival_time
                    + dt
                &&& after[i].kills >= agents[i].kills
                &&& after[i].kills + left.len() <= agents[i].kills + projectiles.len()
                    + agents.len()
            }),
{
    let (moved, fired, flown) = choose|
        moved: Seq<Agent>,
        fired: Seq<Projectile>,
        flown: Seq<Projectile>,
    |
        {
            &&& #[trigger] controls(
                agents,
                projectiles,
                obstacles,
                genomes,
                dt,
                activation,
                trig,
                moved,
                fired,
            )
            &&& #[trigger] flies(fired, dt, trig, flown)
            &&& (after, left) == settled(moved, obstacles, flown, flown.len() as int)
        };
    let ds = choose|ds: Seq<Decision>|
        {
            &&& ds.len() == agents.len()
            &&& forall|i: int|
                0 <= i < agents.len() ==> if controlled(agents[i]) {
                    &&& decided(
                        agents,
                        obstacles,
                        genomes[agents[i].controller->genome_id as int].genome@,
                        i,
                        dt,
                        activation,
                        trig,
                        #[trigger] ds[i],
                    )
                    &&& moved[i] == steered(agents, obstacles, i, dt, ds[i].heading, ds[i].outputs)
                } else {
                    moved[i] == agents[i]
                }
            &&& fired == projectiles + #[trigger] shots(
                agents,
                obstacles,
                ds,
                dt,
                agents.len() as int,
                true,
            )
        };
    lemma_shots_len(agents, obstacles, ds, dt, agents.len() as int, true);
    let hs = choose|hs: Seq<(i32, i32)>|
        {
            &&& hs.len() == fired.len()
            &&& forall|k: int|
                0 <= k < hs.len() ==> trig.ensures((fired[k].rotation,), #[trigger] hs[k])
            &&& flown == #[trigger] flight(fired, hs, dt, fired.len() as int)
        };
    lemma_flight_len(fired, hs, dt, fired.len() as int);
    assert forall|i: int| 0 <= i < moved.len() implies {
        &&& (#[trigger] moved[i]).kills == agents[i].kills
        &&& moved[i].controller == agents[i].controller
        &&& moved[i].tank.team == agents[i].tank.team
        &&& agents[i].survival_time <= moved[i].survival_time <= agents[i].survival_time + dt
    } by {
        let d = ds[i];
    }
    lemma_settled_keeps(moved, obstacles, flown, flown.len() as int);
    assert forall|i: int| 0 <= i < agents.len() implies {
        &&& (#[trigger] after[i]).controller == agents[i].controller
        &&& after[i].tank.team == agents[i].tank.team
        &&& agents[i].survival_time <= after[i].survival_time <= agents[i].survival_time + dt
        &&& after[i].kills >= agents[i].kills
        &&& after[i].kills + left.len() <= agents[i].kills + projectiles.len() + agents.len()
    } by {
        let m = moved[i];
        let a = settled(moved, obstacles, flown, flown.len() as int).0[i];
    }
}

/// Whether `tanks` and `shells` are the course of a battle of `ticks` ticks
/// with a budget of `max_ticks`: the tanks and the projectiles at the start
/// and after each tick, where tick follows tick and after none but the last
/// the battle was over.
pub open spec fn course<F: Fn(i64) -> i32, G: Fn(i32) -> (i32, i32)>(
    tanks: Seq<Seq<Agent>>,
    shells: Seq<Seq<Projectile>>,
    obstacles: Seq<Obstacle>,
    genomes: Seq<AIController>,
    dt: u32,
    activation: F,
    trig: G,
    max_ticks: int,
    ticks: int,
) -> bool {
    &&& tanks.len() == ticks + 1
    &&& shells.len() == ticks + 1
    &&& forall|k: int|
        0 <= k < ticks ==> {
            &&& ticked(
                #[trigger] tanks[k],
                shells[k],
                obstacles,
                genomes,
                dt,
                activation,
                trig,
                tanks[k + 1],
                shells[k + 1],
            )
            &&& k > 0 ==> !battle_over(tanks[k], k, max_ticks)
        }
}

/// Whether the tanks `after` and the projectiles `left` can follow from
/// `agents` and `projectiles` by a battle of `ticks` ticks with a budget of
/// `max_ticks`: some [`course`] of a battle leads from the ones to the
/// others.
pub open spec fn fought<F: Fn(i64) -> i32, G: Fn(i32) -> (i32, i32)>(
    agents: Seq<Agent>,
    projectiles: Seq<Projectile>,
    obstacles: Seq<Obstacle>,
    genomes: Seq<AIController>,
    dt: u32,
    activation: F,
    trig: G,
    max_ticks: int,
    ticks: int,
    after: Seq<Agent>,
    left: Seq<Projectile>,
) -> bool {
    exists|tanks: Seq<Seq<Agent>>, shells: Seq<Seq<Projectile>>|
        {
            &&& #[trigger] course(
                tanks,
                shells,
                obstacles,
                genomes,
                dt,
                activation,
                trig,
                max_ticks,
                ticks,
            )
            &&& tanks[0] == agents
            &&& shells[0] == projectiles
            &&& tanks[ticks] == after
            &&& shells[ticks] == left
        }
}

/// Fights a battle from its start to its end: tick by tick, of `dt` seconds
/// each, until at most one team is left or the budget of ticks is used up.
/// At least one tick is fought.
pub fn run_battle<F: Fn(i64) -> i32, G: Fn(i32) -> (i32, i32)>(
    agents: &mut Vec<Agent>,
    projectiles: &mut Vec<Projectile>,
    obstacles: &Vec<Obstacle>,
    genomes: &Vec<AIController>,
    battle_state: &mut BattleState,
    dt: u32,
    activation: &F,
    trig: &G,
) -> (next: GameState)
    requires
        forall|x: i64| activation.requires((x,)),
        forall|a: i32| trig.requires((a,)),
        forall|a: i32, r: (i32, i32)|
            trig.ensures((a,), r) ==> in_unit(r.0 as int) && in_unit(r.1 as int),
        bound(old(agents)@, genomes@),
        forall|i: int|
            0 <= i < old(agents)@.len() ==> (#[trigger] old(agents)@[i]).survival_time + (
            BATTLE_DURATION / BASE_SIM_DT) * dt <= u64::MAX,
        forall|i: int|
            0 <= i < old(agents)@.len() ==> (#[trigger] old(agents)@[i]).kills + old(
                projectiles,
            )@.len() + (BATTLE_DURATION / BASE_SIM_DT) * old(agents)@.len() <= u32::MAX,
    ensures
        next == GameState::Evolution,
        final(battle_state).max_ticks == BATTLE_DURATION / BASE_SIM_DT,
        1 <= final(battle_state).tick_count <= final(battle_state).max_ticks,
        final(battle_state).real_time == final(battle_state).tick_count * BASE_SIM_DT,
        final(battle_state).teams == old(battle_state).teams,
        battle_over(
            final(agents)@,
            final(battle_state).tick_count as int,
            final(battle_state).max_ticks as int,
        ),
        fought(
            old(agents)@,
            old(projectiles)@,
            obstacles@,
            genomes@,
            dt,
            *activation,
            *trig,
            final(battle_state).max_ticks as int,
            final(battle_state).tick_count as int,
            final(agents)@,
            final(projectiles)@,
        ),
{
    let ghost before = agents@;
    let ghost flying = projectiles@;
    let ghost budget: int = (BATTLE_DURATION / BASE_SIM_DT) as int;
    let ghost mut tanks: Seq<Seq<Agent>> = seq![before];
    let ghost mut shells: Seq<Seq<Projectile>> = seq![flying];
    start_battle(battle_state);
    let mut next: GameState = GameState::Battle;
    while next == GameState::Battle
        invariant
            budget == 3600,
            forall|x: i64| activation.requires((x,)),
            forall|a: i32| trig.requires((a,)),
            forall|a: i32, r: (i32, i32)|
                trig.ensures((a,), r) ==> in_unit(r.0 as int) && in_unit(r.1 as int),
            agents@.len() == before.len(),
            bound(agents@, genomes@),
            battle_state.max_ticks == budget,
            battle_state.tick_count <= budget,
            battle_state.real_time == battle_state.tick_count * BASE_SIM_DT,
            battle_state.teams == old(battle_state).teams,
            forall|i: int|
                0 <= i < before.len() ==> (#[trigger] before[i]).survival_time + budget * dt
                    <= u64::MAX,
            forall|i: int|
                0 <= i < before.len() ==> (#[trigger] before[i]).kills + flying.len() + budget
                    * before.len() <= u32::MAX,
            forall|i: int|
                0 <= i < before.len() ==> (#[trigger] agents@[i]).survival_time
                    <= before[i].survival_time + battle_state.tick_count * dt,
            forall|i: int|
                0 <= i < before.len() ==> (#[trigger] agents@[i]).kills + projectiles@.len()
                    <= before[i].kills + flying.len() + battle_state.tick_count * before.len(),
            next == GameState::Battle || next == GameState::Evolution,
            next == GameState::Battle ==> battle_state.tick_count < budget,
            next == GameState::Battle && battle_state.tick_count > 0 ==> !battle_over(
                agents@,
                battle_state.tick_count as int,
                budget,
            ),
            next == GameState::Evolution ==> battle_state.tick_count >= 1 && battle_over(
                agents@,
                battle_state.tick_count as int,
                budget,
            ),
            course(
                tanks,
                shells,
                obstacles@,
                genomes@,
                dt,
                *activation,
                *trig,
                budget,
                battle_state.tick_count as int,
            ),
            tanks[0] == before,
            shells[0] == flying,
            tanks[battle_state.tick_count as int] == agents@,
            shells[battle_state.tick_count as int] == projectiles@,
        decreases
                (if next == GameState::Battle {
                    budget - battle_state.tick_count + 1
                } else {
                    0
                }),
    {
        let ghost mid = agents@;
        let ghost in_flight = projectiles@;
        let ghost ticks: int = battle_state.tick_count as int;
        proof {
            assert forall|i: int| 0 <= i < mid.len() implies (#[trigger] mid[i]).survival_time
                + dt <= u64::MAX && mid[i].kills + in_flight.len() + mid.len() <= u32::MAX by {
                let b = before[i];
                assert(ticks * dt + dt <= budget * dt) by (nonlinear_arith)
                    requires
                        0 <= ticks < budget,
                        0 <= dt,
                ;
                assert(ticks * before.len() + before.len() <= budget * before.len())
                    by (nonlinear_arith)
                    requires
                        0 <= ticks < budget,
                        0 <= before.len(),
                ;
            }
        }
        next =
        battle_tick(agents, projectiles, obstacles, genomes, battle_state, dt, activation, trig);
        proof {
            lemma_ticked_keeps(
                mid,
                in_flight,
                obstacles@,
                genomes@,
                dt,
                *activation,
                *trig,
                agents@,
                projectiles@,
            );
            assert(bound(agents@, genomes@)) by {
                assert forall|i: int| 0 <= i < agents@.len() implies match (
                #[trigger] agents@[i]).controller {
                    Controller::Ai { genome_id } => genome_id < genomes@.len()
                        && genomes@[genome_id as int].wf(),
                    Controller::Player => true,
                } by {
                    let m = mid[i];
                }
            }
            assert forall|i: int| 0 <= i < before.len() implies (#[trigger] agents@[i]).survival_time
                <= before[i].survival_time + (ticks + 1) * dt && agents@[i].kills
                + projectiles@.len() <= before[i].kills + flying.len() + (ticks + 1)
                * before.len() by {
                let m = mid[i];
                assert((ticks + 1) * dt == ticks * dt + dt) by (nonlinear_arith);
                assert((ticks + 1) * before.len() == ticks * before.len() + before.len())
                    by (nonlinear_arith);
            }
            let earlier_tanks = tanks;
            let earlier_shells = shells;
            tanks = earlier_tanks.push(agents@);
            shells = earlier_shells.push(projectiles@);
            assert forall|k: int| 0 <= k < ticks + 1 implies {
                &&& ticked(
                    #[trigger] tanks[k],
                    shells[k],
                    obstacles@,
                    genomes@,
                    dt,
                    *activation,
                    *trig,
                    tanks[k + 1],
                    shells[k + 1],
                )
                &&& k > 0 ==> !battle_over(tanks[k], k, budget)
            } by {
                if k < ticks {
                    assert(tanks[k] == earlier_tanks[k]);
                    assert(tanks[k + 1] == earlier_tanks[k + 1]);
                }
            }
        }
    }
    next
}

} // verus!
