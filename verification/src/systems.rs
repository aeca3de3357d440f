//! One tick of a match: tanks sense, decide and move, projectiles fly, hits
//! are settled.
//!
//! Within a tick every tank reads the positions that the tanks had when the
//! tick began.

use crate::ai::{propagates, sensor_inputs, NeuralNetwork};
use crate::components::{
    AIController, FireCooldown, Position, Projectile, Tank, INPUT_SIZE, OUTPUT_SIZE,
    PROJECTILE_DAMAGE, PROJECTILE_LIFETIME, PROJECTILE_SPEED, RELOAD_TIME,
};
use crate::fixed::{
    clamp, clamp_to, fits_i32, in_unit, mul3_scaled, mul4_scaled, product, scaled3, scaled4,
    wrap_angle, wrap_to_half_turn, ONE,
};
use crate::map::Obstacle;
use vstd::prelude::*;

verus! {

/// A tank is stopped by an obstacle whose centre is closer than this.
pub const OBSTACLE_RADIUS: i32 = 6_000_000;

/// A tank is stopped by another tank that is closer than this.
pub const TANK_RADIUS: i32 = 3_000_000;

/// A projectile hits a tank that is closer than this.
pub const HIT_RADIUS: i32 = 1_500_000;

/// A projectile is stopped by an obstacle whose centre is closer than this.
pub const OBSTACLE_HIT_RADIUS: i32 = 5_000_000;

/// Height at which every tank drives.
pub const GROUND_HEIGHT: i32 = 500_000;

/// Height of the gun above the centre of the hull.
pub const TURRET_HEIGHT: i32 = 750_000;

/// Distance of the muzzle from the centre of the hull, along the heading.
pub const BARREL_LENGTH: i32 = 1_250_000;

/// A tank tries to fire when its third output exceeds this.
pub const FIRE_THRESHOLD: i32 = 500_000;

/// Who steers a tank.
#[derive(Clone, Copy, Debug, PartialEq, Eq, Structural)]
pub enum Controller {
    /// The network decoded from the genome with this index in the population.
    Ai { genome_id: usize },
    /// Commands that come from outside the simulation.
    Player,
}

/// A tank in a match, with what it has earned so far.
#[derive(Clone, Copy, Debug, PartialEq, Eq, Structural)]
pub struct Agent {
    pub position: Position,
    /// Heading: the angle of the gun about the vertical axis. A heading of
    /// zero points along `z`, a quarter turn along `x`.
    pub rotation: i32,
    pub tank: Tank,
    pub cooldown: FireCooldown,
    pub controller: Controller,
    pub kills: u32,
    /// Seconds this tank has been alive in the match.
    pub survival_time: u64,
}

/// Whether `a` and `b` are closer to each other than `radius`.
pub open spec fn within(a: Position, b: Position, radius: int) -> bool {
    a.dist_sq(b) < radius * radius
}

/// Decides [`within`].
pub fn is_within(a: &Position, b: &Position, radius: i32) -> (r: bool)
    ensures
        r == within(*a, *b, radius as int),
{
    assert(0 <= radius * radius <= 0x4000_0000_0000_0000) by (nonlinear_arith)
        requires
            -0x8000_0000 <= radius <= 0x8000_0000,
    ;
    let limit: i64 = radius as i64 * radius as i64;
    a.distance_squared(b) < limit as u128
}

/// Whether tank `j` is an enemy that tank `i` can sense: alive and of
/// another team.
pub open spec fn is_enemy(agents: Seq<Agent>, i: int, j: int) -> bool {
    &&& 0 <= j < agents.len()
    &&& agents[j].tank.alive()
    &&& agents[j].tank.team != agents[i].tank.team
}

/// The enemy nearest to tank `i` among the first `n` tanks; of several at
/// the same distance the one that comes first.
pub open spec fn nearest_among(agents: Seq<Agent>, i: int, n: int) -> Option<int>
    decreases n,
{
    if n <= 0 {
        None
    } else {
        let before = nearest_among(agents, i, n - 1);
        let closer = match before {
            Some(b) => agents[i].position.dist_sq(agents[n - 1].position)
                < agents[i].position.dist_sq(agents[b].position),
            None => true,
        };
        if is_enemy(agents, i, n - 1) && closer {
            Some(n - 1)
        } else {
            before
        }
    }
}

/// The enemy nearest to tank `i`.
pub open spec fn nearest_enemy_of(agents: Seq<Agent>, i: int) -> Option<int> {
    nearest_among(agents, i, agents.len() as int)
}

/// [`nearest_among`] finds an enemy exactly when there is one among the
/// first `n` tanks; none of them is closer than the one it finds, and none
/// that comes before it is as close.
pub proof fn lemma_nearest_among(agents: Seq<Agent>, i: int, n: int)
    requires
        0 <= i < agents.len(),
        0 <= n <= agents.len(),
    ensures
        nearest_among(agents, i, n) is None <==> forall|k: int|
            0 <= k < n ==> !is_enemy(agents, i, k),
        (match nearest_among(agents, i, n) {
            Some(j) => {
                &&& 0 <= j < n
                &&& is_enemy(agents, i, j)
                &&& forall|k: int|
                    0 <= k < n && is_enemy(agents, i, k) ==> agents[i].position.dist_sq(
                        agents[j].position,
                    ) <= agents[i].position.dist_sq(#[trigger] agents[k].position)
                &&& forall|k: int|
                    0 <= k < j && is_enemy(agents, i, k) ==> agents[i].position.dist_sq(
                        agents[j].position,
                    ) < agents[i].position.dist_sq(#[trigger] agents[k].position)
            },
            None => true,
        }),
    decreases n,
{
    if n > 0 {
        lemma_nearest_among(agents, i, n - 1);
    }
}

/// Finds the enemy nearest to tank `i`.
pub fn nearest_enemy(agents: &Vec<Agent>, i: usize) -> (r: Option<usize>)
    requires
        i < agents@.len(),
    ensures
        (match r {
            Some(j) => j < agents@.len() && nearest_enemy_of(agents@, i as int) == Some(j as int),
            None => nearest_enemy_of(agents@, i as int) is None,
        }),
{
    let mut best: Option<usize> = None;
    let mut best_distance: u128 = 0;
    let mut j: usize = 0;
    while j < agents.len()
        invariant
            i < agents@.len(),
            j <= agents@.len(),
            match best {
                Some(b) => nearest_among(agents@, i as int, j as int) == Some(b as int) && b < j
                    && best_distance == agents@[i as int].position.dist_sq(agents@[b as int].position),
                None => nearest_among(agents@, i as int, j as int) is None,
            },
        decreases agents@.len() - j,
    {
        let other: &Agent = &agents[j];
        if other.tank.is_alive() && other.tank.team != agents[i].tank.team {
            let d: u128 = agents[i].position.distance_squared(&other.position);
            if best.is_none() || d < best_distance {
                best = Some(j);
                best_distance = d;
            }
        }
        j += 1;
    }
    best
}

/// Whether a tank that is not tank `i` may not stand at `candidate`: the
/// place is too close to an obstacle or to another living tank.
pub open spec fn blocked(
    agents: Seq<Agent>,
    obstacles: Seq<Obstacle>,
    i: int,
    candidate: Position,
) -> bool {
    ||| exists|k: int|
        0 <= k < obstacles.len() && within(
            candidate,
            #[trigger] obstacles[k].position,
            OBSTACLE_RADIUS as int,
        )
    ||| exists|j: int|
        0 <= j < agents.len() && j != i && (#[trigger] agents[j]).tank.alive() && within(
            candidate,
            agents[j].position,
            TANK_RADIUS as int,
        )
}

/// Decides [`blocked`].
pub fn is_blocked(
    agents: &Vec<Agent>,
    obstacles: &Vec<Obstacle>,
    i: usize,
    candidate: &Position,
) -> (r: bool)
    ensures
        r == blocked(agents@, obstacles@, i as int, *candidate),
{
    let mut k: usize = 0;
    while k < obstacles.len()
        invariant
            k <= obstacles@.len(),
            forall|m: int|
                0 <= m < k ==> !within(
                    *candidate,
                    #[trigger] obstacles@[m].position,
                    OBSTACLE_RADIUS as int,
                ),
        decreases obstacles@.len() - k,
    {
        if is_within(candidate, &obstacles[k].position, OBSTACLE_RADIUS) {
            return true;
        }
        k += 1;
    }
    let mut j: usize = 0;
    while j < agents.len()
        invariant
            j <= agents@.len(),
            forall|m: int|
                0 <= m < obstacles@.len() ==> !within(
                    *candidate,
                    #[trigger] obstacles@[m].position,
                    OBSTACLE_RADIUS as int,
                ),
            forall|m: int|
                0 <= m < j && m != i ==> !((#[trigger] agents@[m]).tank.alive() && within(
                    *candidate,
                    agents@[m].position,
                    TANK_RADIUS as int,
                )),
        decreases agents@.len() - j,
    {
        if j != i && agents[j].tank.is_alive() && is_within(
            candidate,
            &agents[j].position,
            TANK_RADIUS,
        ) {
            return true;
        }
        j += 1;
    }
    false
}

/// Whether a tank with the cooldown `cooldown` fires in a tick of `dt`
/// seconds on the network outputs `outputs`: the third output exceeds the
/// threshold and the gun is loaded once the tick has passed.
pub open spec fn fires(cooldown: FireCooldown, dt: u32, outputs: Seq<i32>) -> bool {
    outputs[2] > FIRE_THRESHOLD && cooldown.after(dt).ready()
}

/// Tank `i` after a tick of `dt` seconds in which its network gave
/// `outputs`, while its heading had the sine `heading.0` and the cosine
/// `heading.1`.
///
/// The first output is the throttle: at 1.0 the hull drives at its full
/// speed along its forward axis, which points opposite to the gun. The move
/// is rejected, and the tank stays where it is, when the new place is
/// [`blocked`] or is not representable. The second output is the turn rate:
/// at 1.0 the heading grows by the full rotation speed. The height is set to
/// the ground height in any case. The cooldown runs down by `dt` and starts
/// anew when the tank [`fires`]. The tank has survived `dt` more seconds.
pub open spec fn steered(
    agents: Seq<Agent>,
    obstacles: Seq<Obstacle>,
    i: int,
    dt: u32,
    heading: (i32, i32),
    outputs: Seq<i32>,
) -> Agent {
    let me = agents[i];
    let x = me.position.x - scaled4(heading.0 as int, outputs[0] as int, me.tank.speed as int, dt as int);
    let z = me.position.z - scaled4(heading.1 as int, outputs[0] as int, me.tank.speed as int, dt as int);
    let candidate = Position { x: x as i32, y: me.position.y, z: z as i32 };
    let accepted = fits_i32(x) && fits_i32(z) && !blocked(agents, obstacles, i, candidate);
    Agent {
        position: Position {
            x: if accepted {
                candidate.x
            } else {
                me.position.x
            },
            y: GROUND_HEIGHT,
            z: if accepted {
                candidate.z
            } else {
                me.position.z
            },
        },
        rotation: wrap_angle(
            me.rotation + scaled3(outputs[1] as int, me.tank.rotation_speed as int, dt as int),
        ) as i32,
        tank: me.tank,
        cooldown: if fires(me.cooldown, dt, outputs) {
            FireCooldown { remaining: RELOAD_TIME }
        } else {
            me.cooldown.after(dt)
        },
        controller: me.controller,
        kills: me.kills,
        survival_time: (me.survival_time + dt) as u64,
    }
}

/// A tank whose network gives zero throttle, zero turn rate and no wish to
/// fire stays at its place on the ground and keeps its heading.
pub proof fn lemma_zero_outputs_stand_still(
    agents: Seq<Agent>,
    obstacles: Seq<Obstacle>,
    i: int,
    dt: u32,
    heading: (i32, i32),
    outputs: Seq<i32>,
)
    requires
        0 <= i < agents.len(),
        outputs.len() == OUTPUT_SIZE,
        outputs[0] == 0,
        outputs[1] == 0,
        outputs[2] <= FIRE_THRESHOLD,
        -(crate::fixed::PI as int) < agents[i].rotation <= crate::fixed::PI as int,
    ensures
        steered(agents, obstacles, i, dt, heading, outputs).position == (Position {
            y: GROUND_HEIGHT,
            ..agents[i].position
        }),
        steered(agents, obstacles, i, dt, heading, outputs).rotation == agents[i].rotation,
        !fires(agents[i].cooldown, dt, outputs),
{
    let me = agents[i];
    assert(heading.0 as int * 0 * (me.tank.speed as int) * (dt as int) == 0) by (nonlinear_arith);
    assert(heading.1 as int * 0 * (me.tank.speed as int) * (dt as int) == 0) by (nonlinear_arith);
    assert(0 * (me.tank.rotation_speed as int) * (dt as int) == 0) by (nonlinear_arith);
    assert(scaled4(heading.0 as int, 0, me.tank.speed as int, dt as int) == 0);
    assert(scaled4(heading.1 as int, 0, me.tank.speed as int, dt as int) == 0);
    assert(scaled3(0, me.tank.rotation_speed as int, dt as int) == 0);
}

/// Computes [`steered`].
pub fn steer(
    agents: &Vec<Agent>,
    obstacles: &Vec<Obstacle>,
    i: usize,
    dt: u32,
    heading: (i32, i32),
    outputs: &[i32; 4],
) -> (after: Agent)
    requires
        i < agents@.len(),
        agents@[i as int].survival_time + dt <= u64::MAX,
    ensures
        after == steered(agents@, obstacles@, i as int, dt, heading, outputs@),
{
    let me: Agent = agents[i];
    let x: i128 = me.position.x as i128 - mul4_scaled(heading.0, outputs[0], me.tank.speed, dt);
    let z: i128 = me.position.z as i128 - mul4_scaled(heading.1, outputs[0], me.tank.speed, dt);
    let mut position: Position = Position { x: me.position.x, y: GROUND_HEIGHT, z: me.position.z };
    if i32::MIN as i128 <= x && x <= i32::MAX as i128 && i32::MIN as i128 <= z && z
        <= i32::MAX as i128 {
        let candidate: Position = Position { x: x as i32, y: me.position.y, z: z as i32 };
        if !is_blocked(agents, obstacles, i, &candidate) {
            position = Position { x: candidate.x, y: GROUND_HEIGHT, z: candidate.z };
        }
    }
    let rotation: i32 = wrap_to_half_turn(
        me.rotation as i128 + mul3_scaled(outputs[1], me.tank.rotation_speed, dt),
    );
    let mut cooldown: FireCooldown = me.cooldown;
    cooldown.tick(dt);
    if outputs[2] > FIRE_THRESHOLD && cooldown.finished() {
        cooldown.reset();
    }
    Agent {
        position,
        rotation,
        tank: me.tank,
        cooldown,
        controller: me.controller,
        kills: me.kills,
        survival_time: me.survival_time + dt as u64,
    }
}

/// The place of the muzzle of `shooter` whose heading has the sine
/// `heading.0` and the cosine `heading.1`: [`BARREL_LENGTH`] along the
/// heading and [`TURRET_HEIGHT`] above the hull, as far as it is
/// representable.
pub open spec fn muzzle(shooter: Agent, heading: (i32, i32)) -> Position {
    Position {
        x: clamp(
            shooter.position.x + product(BARREL_LENGTH as int, heading.0 as int),
            i32::MIN as int,
            i32::MAX as int,
        ) as i32,
        y: clamp(shooter.position.y + TURRET_HEIGHT, i32::MIN as int, i32::MAX as int) as i32,
        z: clamp(
            shooter.position.z + product(BARREL_LENGTH as int, heading.1 as int),
            i32::MIN as int,
            i32::MAX as int,
        ) as i32,
    }
}

/// The projectile that tank number `owner` fires: it starts at the
/// [`muzzle`] and flies along the heading of the tank.
pub open spec fn shot(owner: int, shooter: Agent, heading: (i32, i32)) -> Projectile {
    Projectile {
        position: muzzle(shooter, heading),
        rotation: shooter.rotation,
        damage: PROJECTILE_DAMAGE,
        speed: PROJECTILE_SPEED,
        lifetime: PROJECTILE_LIFETIME,
        owner: owner as usize,
    }
}

/// Makes the projectile that tank number `owner` fires.
pub fn spawn_projectile(owner: usize, shooter: &Agent, heading: (i32, i32)) -> (p: Projectile)
    ensures
        p == shot(owner as int, *shooter, heading),
{
    assert(-0x4000_0000_0000_0000 <= BARREL_LENGTH * heading.0 <= 0x4000_0000_0000_0000)
        by (nonlinear_arith)
        requires
            -0x8000_0000 <= heading.0 <= 0x8000_0000,
    ;
    assert(-0x4000_0000_0000_0000 <= BARREL_LENGTH * heading.1 <= 0x4000_0000_0000_0000)
        by (nonlinear_arith)
        requires
            -0x8000_0000 <= heading.1 <= 0x8000_0000,
    ;
    let along_x: i128 = (BARREL_LENGTH as i128 * heading.0 as i128) / (ONE as i128);
    let along_z: i128 = (BARREL_LENGTH as i128 * heading.1 as i128) / (ONE as i128);
    proof {
        crate::fixed::lemma_quot_bound(
            BARREL_LENGTH * heading.0,
            ONE as int,
            0x4000_0000_0000_0000,
        );
        crate::fixed::lemma_quot_bound(
            BARREL_LENGTH * heading.1,
            ONE as int,
            0x4000_0000_0000_0000,
        );
    }
    Projectile {
        position: Position {
            x: clamp_to(shooter.position.x as i128 + along_x, i32::MIN, i32::MAX),
            y: clamp_to(shooter.position.y as i128 + TURRET_HEIGHT as i128, i32::MIN, i32::MAX),
            z: clamp_to(shooter.position.z as i128 + along_z, i32::MIN, i32::MAX),
        },
        rotation: shooter.rotation,
        damage: PROJECTILE_DAMAGE,
        speed: PROJECTILE_SPEED,
        lifetime: PROJECTILE_LIFETIME,
        owner,
    }
}

/// What the functions that the caller supplies returned for one tank
/// during one tick.
pub struct Decision {
    /// Sine and cosine of the heading the tank had when the tick began.
    pub heading: (i32, i32),
    /// The outputs of the tank's network.
    pub outputs: Seq<i32>,
    /// Sine and cosine of the heading after the turn, for a tank that fires.
    pub aim: (i32, i32),
}

/// Whether the network of a tank is run in a tick: the tank is alive and a
/// genome steers it.
pub open spec fn controlled(agent: Agent) -> bool {
    agent.tank.alive() && agent.controller is Ai
}

/// What tank `i` senses at the start of a tick, with `heading` as sine and
/// cosine of its heading: the sensor values for its own state and for the
/// nearest enemy, if there is one.
pub open spec fn sensed(agents: Seq<Agent>, i: int, heading: (i32, i32)) -> Seq<int> {
    let me = agents[i];
    let enemy = nearest_enemy_of(agents, i);
    sensor_inputs(
        me.position,
        me.rotation,
        heading.0,
        heading.1,
        me.tank.health,
        match enemy {
            Some(j) => Some(agents[j].position),
            None => None,
        },
        match enemy {
            Some(j) => Some(agents[j].tank.health),
            None => None,
        },
    )
}

/// `d` records a tick of tank `i`: `trig` returned `d.heading` for the
/// heading of the tank; the network with the weights `genome` gave
/// `d.outputs` for what the tank [`sensed`]; and if the tank fires, `trig`
/// returned `d.aim` for its heading after the turn.
pub open spec fn decided<F: Fn(i64) -> i32, G: Fn(i32) -> (i32, i32)>(
    agents: Seq<Agent>,
    obstacles: Seq<Obstacle>,
    genome: Seq<i32>,
    i: int,
    dt: u32,
    activation: F,
    trig: G,
    d: Decision,
) -> bool {
    &&& trig.ensures((agents[i].rotation,), d.heading)
    &&& exists|inputs: Seq<i32>, hidden: Seq<i32>|
        {
            &&& inputs.len() == INPUT_SIZE
            &&& forall|k: int|
                0 <= k < INPUT_SIZE ==> #[trigger] inputs[k] == sensed(agents, i, d.heading)[k]
            &&& propagates(genome, activation, inputs, hidden, d.outputs)
        }
    &&& fires(agents[i].cooldown, dt, d.outputs) ==> trig.ensures(
        (steered(agents, obstacles, i, dt, d.heading, d.outputs).rotation,),
        d.aim,
    )
}

/// Whether a tank takes commands from outside in a tick: it is alive and no
/// genome steers it.
pub open spec fn driven(agent: Agent) -> bool {
    agent.tank.alive() && agent.controller is Player
}

/// Whether a tank acts in a tick of the system that runs the networks
/// (`by_genome`) or of the system that takes commands from outside.
pub open spec fn acts(agent: Agent, by_genome: bool) -> bool {
    if by_genome {
        controlled(agent)
    } else {
        driven(agent)
    }
}

/// The projectiles that the first `n` tanks fire in a tick of one of the two
/// control systems, in the order of the tanks.
pub open spec fn shots(
    agents: Seq<Agent>,
    obstacles: Seq<Obstacle>,
    ds: Seq<Decision>,
    dt: u32,
    n: int,
    by_genome: bool,
) -> Seq<Projectile>
    decreases n,
{
    if n <= 0 {
        Seq::empty()
    } else {
        let before = shots(agents, obstacles, ds, dt, n - 1, by_genome);
        let d = ds[n - 1];
        if acts(agents[n - 1], by_genome) && fires(agents[n - 1].cooldown, dt, d.outputs) {
            before.push(
                shot(n - 1, steered(agents, obstacles, n - 1, dt, d.heading, d.outputs), d.aim),
            )
        } else {
            before
        }
    }
}

/// The shots of the first `n` tanks depend on the first `n` decisions only.
pub proof fn lemma_shots_prefix(
    agents: Seq<Agent>,
    obstacles: Seq<Obstacle>,
    ds: Seq<Decision>,
    es: Seq<Decision>,
    dt: u32,
    n: int,
    by_genome: bool,
)
    requires
        forall|k: int| 0 <= k < n ==> ds[k] == es[k],
    ensures
        shots(agents, obstacles, ds, dt, n, by_genome) == shots(
            agents,
            obstacles,
            es,
            dt,
            n,
            by_genome,
        ),
    decreases n,
{
    if n > 0 {
        lemma_shots_prefix(agents, obstacles, ds, es, dt, n - 1, by_genome);
    }
}

/// Whether every genome that steers a tank exists and is well formed.
pub open spec fn bound(agents: Seq<Agent>, genomes: Seq<AIController>) -> bool {
    forall|i: int|
        0 <= i < agents.len() ==> match (#[trigger] agents[i]).controller {
            Controller::Ai { genome_id } => genome_id < genomes.len() && genomes[genome_id as int].wf(),
            Controller::Player => true,
        }
}

/// Whether the tanks `after` and the projectiles `in_flight` can follow
/// from `agents` and `projectiles` by a tick of `dt` seconds in which the
/// networks steer.
///
/// For some record of what `activation` and `trig` returned, every living
/// tank that a genome steers is [`steered`] as its network [`decided`], the
/// other tanks are as they were, and the [`shots`] fired follow the
/// projectiles that were in flight.
pub open spec fn controls<F: Fn(i64) -> i32, G: Fn(i32) -> (i32, i32)>(
    agents: Seq<Agent>,
    projectiles: Seq<Projectile>,
    obstacles: Seq<Obstacle>,
    genomes: Seq<AIController>,
    dt: u32,
    activation: F,
    trig: G,
    after: Seq<Agent>,
    in_flight: Seq<Projectile>,
) -> bool {
    &&& after.len() == agents.len()
    &&& exists|ds: Seq<Decision>|
        {
            &&& ds.len() == agents.len()
            &&& forall|i: int|
                0 <= i < agents.len() ==> if controlled(agents[i]) {
                    &&& decided(
                        agents,
                        obstacles,
                        genomes[agents[i].controller->genome_id as int].genome@,
                        i,
                        dt,
                        activation,
                        trig,
                        #[trigger] ds[i],
                    )
                    &&& after[i] == steered(agents, obstacles, i, dt, ds[i].heading, ds[i].outputs)
                } else {
                    after[i] == agents[i]
                }
            &&& in_flight == projectiles + #[trigger] shots(
                agents,
                obstacles,
                ds,
                dt,
                agents.len() as int,
                true,
            )
        }
}

/// In a tick in which the networks steer, every living tank that a genome
/// steers survives `dt` seconds more and keeps its kills, and every other
/// tank stays as it is.
pub proof fn lemma_controlled_survive<F: Fn(i64) -> i32, G: Fn(i32) -> (i32, i32)>(
    agents: Seq<Agent>,
    projectiles: Seq<Projectile>,
    obstacles: Seq<Obstacle>,
    genomes: Seq<AIController>,
    dt: u32,
    activation: F,
    trig: G,
    after: Seq<Agent>,
    in_flight: Seq<Projectile>,
    i: int,
)
    requires
        controls(agents, projectiles, obstacles, genomes, dt, activation, trig, after, in_flight),
        0 <= i < agents.len(),
        agents[i].survival_time + dt <= u64::MAX,
    ensures
        after[i].kills == agents[i].kills,
        after[i].tank == agents[i].tank,
        controlled(agents[i]) ==> after[i].survival_time == agents[i].survival_time + dt,
        !controlled(agents[i]) ==> after[i] == agents[i],
{
    let ds = choose|ds: Seq<Decision>|
        {
            &&& ds.len() == agents.len()
            &&& forall|i: int|
                0 <= i < agents.len() ==> if controlled(agents[i]) {
                    &&& decided(
                        agents,
                        obstacles,
                        genomes[agents[i].controller->genome_id as int].genome@,
                        i,
                        dt,
                        activation,
                        trig,
                        #[trigger] ds[i],
                    )
                    &&& after[i] == steered(agents, obstacles, i, dt, ds[i].heading, ds[i].outputs)
                } else {
                    after[i] == agents[i]
                }
            &&& in_flight == projectiles + #[trigger] shots(
                agents,
                obstacles,
                ds,
                dt,
                agents.len() as int,
                true,
            )
        };
    let d = ds[i];
}

/// The first `n` tanks fire at most `n` shots.
pub proof fn lemma_shots_len(
    agents: Seq<Agent>,
    obstacles: Seq<Obstacle>,
    ds: Seq<Decision>,
    dt: u32,
    n: int,
    by_genome: bool,
)
    requires
        0 <= n,
    ensures
        shots(agents, obstacles, ds, dt, n, by_genome).len() <= n,
    decreases n,
{
    if n > 0 {
        lemma_shots_len(agents, obstacles, ds, dt, n - 1, by_genome);
    }
}

/// Decides whether a tank fires: see [`fires`].
pub fn wants_fire(cooldown: FireCooldown, dt: u32, outputs: &[i32; 4]) -> (r: bool)
    ensures
        r == fires(cooldown, dt, outputs@),
{
    let mut cooled: FireCooldown = cooldown;
    cooled.tick(dt);
    outputs[2] > FIRE_THRESHOLD && cooled.finished()
}

/// Lets every living tank that a genome steers sense, decide, move and
/// fire, for a tick of `dt` seconds.
///
/// `activation` is the activation function of the networks, `trig` returns
/// the sine and the cosine of an angle. Each tank reads the state that the
/// tanks had when the tick began. The other tanks stay as they are. The
/// projectiles fired are appended in the order of the tanks.
pub fn ai_control_system<F: Fn(i64) -> i32, G: Fn(i32) -> (i32, i32)>(
    agents: &mut Vec<Agent>,
    projectiles: &mut Vec<Projectile>,
    obstacles: &Vec<Obstacle>,
    genomes: &Vec<AIController>,
    dt: u32,
    activation: &F,
    trig: &G,
)
    requires
        forall|x: i64| activation.requires((x,)),
        forall|a: i32| trig.requires((a,)),
        forall|a: i32, r: (i32, i32)|
            trig.ensures((a,), r) ==> in_unit(r.0 as int) && in_unit(r.1 as int),
        bound(old(agents)@, genomes@),
        forall|i: int|
            0 <= i < old(agents)@.len() ==> (#[trigger] old(agents)@[i]).survival_time + dt
                <= u64::MAX,
    ensures
        controls(
            old(agents)@,
            old(projectiles)@,
            obstacles@,
            genomes@,
            dt,
            *activation,
            *trig,
            final(agents)@,
            final(projectiles)@,
        ),
{
    let ghost before = agents@;
    let ghost flying = projectiles@;
    let ghost mut ds: Seq<Decision> = Seq::empty();
    let mut next: Vec<Agent> = Vec::new();
    let mut i: usize = 0;
    assert(projectiles@ =~= flying + shots(before, obstacles@, ds, dt, 0, true));
    while i < agents.len()
        invariant
            agents@ == before,
            i <= before.len(),
            next@.len() == i,
            ds.len() == i,
            forall|x: i64| activation.requires((x,)),
            forall|a: i32| trig.requires((a,)),
            forall|a: i32, r: (i32, i32)|
                trig.ensures((a,), r) ==> in_unit(r.0 as int) && in_unit(r.1 as int),
            bound(before, genomes@),
            forall|k: int|
                0 <= k < before.len() ==> (#[trigger] before[k]).survival_time + dt <= u64::MAX,
            forall|k: int|
                0 <= k < i ==> if controlled(before[k]) {
                    &&& decided(
                        before,
                        obstacles@,
                        genomes@[before[k].controller->genome_id as int].genome@,
                        k,
                        dt,
                        *activation,
                        *trig,
                        #[trigger] ds[k],
                    )
                    &&& next@[k] == steered(before, obstacles@, k, dt, ds[k].heading, ds[k].outputs)
                } else {
                    next@[k] == before[k]
                },
            projectiles@ == flying + shots(before, obstacles@, ds, dt, i as int, true),
        decreases before.len() - i,
    {
        let me: Agent = agents[i];
        let ghost earlier = ds;
        let mut after: Agent = me;
        let mut record: Ghost<Decision> = Ghost(
            Decision { heading: (0, 0), outputs: Seq::empty(), aim: (0, 0) },
        );
        match me.controller {
            Controller::Ai { genome_id } => {
                if me.tank.is_alive() {
                    assert(before[i as int].controller->genome_id == genome_id);
                    let heading: (i32, i32) = trig(me.rotation);
                    let enemy: Option<usize> = nearest_enemy(agents, i);
                    let enemy_pos: Option<Position> = match enemy {
                        Some(j) => Some(agents[j].position),
                        None => None,
                    };
                    let enemy_health: Option<i32> = match enemy {
                        Some(j) => Some(agents[j].tank.health),
                        None => None,
                    };
                    proof {
                        lemma_nearest_among(before, i as int, before.len() as int);
                    }
                    let inputs: [i32; 8] = NeuralNetwork::get_inputs(
                        me.position,
                        me.rotation,
                        heading,
                        me.tank.health,
                        enemy_pos,
                        enemy_health,
                    );
                    let net: NeuralNetwork = NeuralNetwork::from_genome(
                        genomes[genome_id].genome.as_slice(),
                    );
                    let outputs: [i32; 4] = net.forward(&inputs, activation);
                    after = steer(agents, obstacles, i, dt, heading, &outputs);
                    let mut aim: (i32, i32) = (0, 0);
                    if wants_fire(me.cooldown, dt, &outputs) {
                        aim = trig(after.rotation);
                        projectiles.push(spawn_projectile(i, &after, aim));
                    }
                    proof {
                        record@ = Decision { heading, outputs: outputs@, aim };
                        let hidden = choose|hidden: Seq<i32>|
                            propagates(net@, *activation, inputs@, hidden, outputs@);
                        assert(inputs@.len() == INPUT_SIZE);
                        assert(propagates(
                            genomes@[genome_id as int].genome@,
                            *activation,
                            inputs@,
                            hidden,
                            record@.outputs,
                        ));
                        assert(decided(
                            before,
                            obstacles@,
                            genomes@[genome_id as int].genome@,
                            i as int,
                            dt,
                            *activation,
                            *trig,
                            record@,
                        ));
                    }
                }
            },
            Controller::Player => {},
        }
        next.push(after);
        proof {
            ds = earlier.push(record@);
            lemma_shots_prefix(before, obstacles@, earlier, ds, dt, i as int, true);
        }
        i += 1;
    }
    *agents = next;
    assert(projectiles@ == flying + shots(before, obstacles@, ds, dt, before.len() as int, true));
}

/// The commands that reach the tanks steered from outside in one tick.
#[derive(Clone, Copy, Debug, PartialEq, Eq, Structural)]
pub struct PlayerInput {
    pub forward: bool,
    pub backward: bool,
    pub left: bool,
    pub right: bool,
    pub fire: bool,
}

/// The commands as a network would give them: full throttle forward or
/// backward, full turn rate to the left or to the right, the wish to fire,
/// and the unused fourth value.
pub open spec fn commanded(input: PlayerInput) -> Seq<i32> {
    seq![
        ((if input.forward {
            ONE as int
        } else {
            0
        }) - (if input.backward {
            ONE as int
        } else {
            0
        })) as i32,
        ((if input.left {
            ONE as int
        } else {
            0
        }) - (if input.right {
            ONE as int
        } else {
            0
        })) as i32,
        if input.fire {
            ONE
        } else {
            0i32
        },
        0i32,
    ]
}

/// Computes [`commanded`].
pub fn commands(input: PlayerInput) -> (outputs: [i32; 4])
    ensures
        outputs@ == commanded(input),
{
    let mut throttle: i32 = 0;
    if input.forward {
        throttle = throttle + ONE;
    }
    if input.backward {
        throttle = throttle - ONE;
    }
    let mut turn: i32 = 0;
    if input.left {
        turn = turn + ONE;
    }
    if input.right {
        turn = turn - ONE;
    }
    let fire: i32 = if input.fire {
        ONE
    } else {
        0
    };
    let outputs: [i32; 4] = [throttle, turn, fire, 0];
    assert(outputs@ =~= commanded(input));
    outputs
}

/// Whether the tanks `after` and the projectiles `in_flight` can follow
/// from `agents` and `projectiles` by a tick of `dt` seconds in which the
/// commands `input` steer.
///
/// For some record of what `trig` returned, every living tank that is
/// steered from outside is [`steered`] as the commands say, the other tanks
/// are as they were, and the [`shots`] fired follow the projectiles that
/// were in flight.
pub open spec fn drives<G: Fn(i32) -> (i32, i32)>(
    agents: Seq<Agent>,
    projectiles: Seq<Projectile>,
    obstacles: Seq<Obstacle>,
    input: PlayerInput,
    dt: u32,
    trig: G,
    after: Seq<Agent>,
    in_flight: Seq<Projectile>,
) -> bool {
    &&& after.len() == agents.len()
    &&& exists|ds: Seq<Decision>|
        {
            &&& ds.len() == agents.len()
            &&& forall|i: int|
                0 <= i < agents.len() ==> if driven(agents[i]) {
                    &&& (#[trigger] ds[i]).outputs == commanded(input)
                    &&& trig.ensures((agents[i].rotation,), ds[i].heading)
                    &&& fires(agents[i].cooldown, dt, ds[i].outputs) ==> trig.ensures(
                        (steered(agents, obstacles, i, dt, ds[i].heading, ds[i].outputs).rotation,),
                        ds[i].aim,
                    )
                    &&& after[i] == steered(agents, obstacles, i, dt, ds[i].heading, ds[i].outputs)
                } else {
                    after[i] == agents[i]
                }
            &&& in_flight == projectiles + #[trigger] shots(
                agents,
                obstacles,
                ds,
                dt,
                agents.len() as int,
                false,
            )
        }
}

/// Lets every living tank that is steered from outside move and fire on
/// the commands `input`, for a tick of `dt` seconds.
///
/// `trig` returns the sine and the cosine of an angle. The tanks move as
/// those that a network steers do, with the commands in place of the
/// network outputs. The other tanks stay as they are.
pub fn player_control_system<G: Fn(i32) -> (i32, i32)>(
    agents: &mut Vec<Agent>,
    projectiles: &mut Vec<Projectile>,
    obstacles: &Vec<Obstacle>,
    input: PlayerInput,
    dt: u32,
    trig: &G,
)
    requires
        forall|a: i32| trig.requires((a,)),
        forall|i: int|
            0 <= i < old(agents)@.len() ==> (#[trigger] old(agents)@[i]).survival_time + dt
                <= u64::MAX,
    ensures
        drives(
            old(agents)@,
            old(projectiles)@,
            obstacles@,
            input,
            dt,
            *trig,
            final(agents)@,
            final(projectiles)@,
        ),
{
    let ghost before = agents@;
    let ghost flying = projectiles@;
    let ghost mut ds: Seq<Decision> = Seq::empty();
    let outputs: [i32; 4] = commands(input);
    let mut next: Vec<Agent> = Vec::new();
    let mut i: usize = 0;
    assert(projectiles@ =~= flying + shots(before, obstacles@, ds, dt, 0, false));
    while i < agents.len()
        invariant
            agents@ == before,
            i <= before.len(),
            next@.len() == i,
            ds.len() == i,
            outputs@ == commanded(input),
            forall|a: i32| trig.requires((a,)),
            forall|k: int|
                0 <= k < before.len() ==> (#[trigger] before[k]).survival_time + dt <= u64::MAX,
            forall|k: int|
                0 <= k < i ==> if driven(before[k]) {
                    &&& (#[trigger] ds[k]).outputs == commanded(input)
                    &&& trig.ensures((before[k].rotation,), ds[k].heading)
                    &&& fires(before[k].cooldown, dt, ds[k].outputs) ==> trig.ensures(
                        (steered(before, obstacles@, k, dt, ds[k].heading, ds[k].outputs).rotation,),
                        ds[k].aim,
                    )
                    &&& next@[k] == steered(before, obstacles@, k, dt, ds[k].heading, ds[k].outputs)
                } else {
                    next@[k] == before[k]
                },
            projectiles@ == flying + shots(before, obstacles@, ds, dt, i as int, false),
        decreases before.len() - i,
    {
        let me: Agent = agents[i];
        let ghost earlier = ds;
        let mut after: Agent = me;
        let mut record: Ghost<Decision> = Ghost(
            Decision { heading: (0, 0), outputs: Seq::empty(), aim: (0, 0) },
        );
        match me.controller {
            Controller::Player => {
                if me.tank.is_alive() {
                    let heading: (i32, i32) = trig(me.rotation);
                    after = steer(agents, obstacles, i, dt, heading, &outputs);
                    let mut aim: (i32, i32) = (0, 0);
                    if wants_fire(me.cooldown, dt, &outputs) {
                        aim = trig(after.rotation);
                        projectiles.push(spawn_projectile(i, &after, aim));
                    }
                    proof {
                        record@ = Decision { heading, outputs: outputs@, aim };
                    }
                }
            },
            Controller::Ai { genome_id } => {},
        }
        next.push(after);
        proof {
            ds = earlier.push(record@);
            lemma_shots_prefix(before, obstacles@, earlier, ds, dt, i as int, false);
        }
        i += 1;
    }
    *agents = next;
    assert(projectiles@ == flying + shots(before, obstacles@, ds, dt, before.len() as int, false));
}

/// How fast simulated time runs against the clock.
#[derive(Clone, Copy, Debug, PartialEq, Eq, Structural)]
pub struct TimeMultiplier {
    /// Simulated seconds per second; 1.0 is real time.
    pub scale: u32,
}

/// The slowest that time may run.
pub const MIN_TIME_SCALE: u32 = 100_000;

/// The fastest that time may run.
pub const MAX_TIME_SCALE: u32 = 1_000_000_000;

/// The amount by which one key press changes the scale.
pub const TIME_SCALE_STEP: u32 = 250_000;

impl Default for TimeMultiplier {
    fn default() -> (m: Self)
        ensures
            m.scale == ONE,
    {
        TimeMultiplier { scale: ONE as u32 }
    }
}

impl TimeMultiplier {
    /// The simulated seconds that pass in `delta` seconds of the clock,
    /// rounded down.
    pub fn scaled_seconds(&self, delta: u32) -> (seconds: u64)
        ensures
            seconds == (delta * self.scale) / (ONE as int),
    {
        assert(0 <= delta * self.scale <= 0x1_0000_0000 * 0x1_0000_0000) by (nonlinear_arith)
            requires
                0 <= delta <= 0x1_0000_0000,
                0 <= self.scale <= 0x1_0000_0000,
        ;
        ((delta as u128 * self.scale as u128) / (ONE as u128)) as u64
    }
}

/// Whether the panel that shows the time multiplier is visible.
#[derive(Clone, Copy, Debug, PartialEq, Eq, Structural)]
pub struct TimeMultiplierUiState {
    pub visible: bool,
}

impl Default for TimeMultiplierUiState {
    fn default() -> (s: Self)
        ensures
            !s.visible,
    {
        TimeMultiplierUiState { visible: false }
    }
}

/// The keys that change the time multiplier, as pressed in one frame.
#[derive(Clone, Copy, Debug, PartialEq, Eq, Structural)]
pub struct TimeKeys {
    pub toggle_panel: bool,
    pub slower: bool,
    pub faster: bool,
    pub reset: bool,
}

/// The scale after the keys `keys`: one step down, one step up, or back to
/// real time, in that order, and then limited to the range from
/// [`MIN_TIME_SCALE`] to [`MAX_TIME_SCALE`].
pub open spec fn rescaled(scale: u32, keys: TimeKeys) -> int {
    let slowed = if keys.slower {
        scale - TIME_SCALE_STEP
    } else {
        scale as int
    };
    let sped = if keys.faster {
        slowed + TIME_SCALE_STEP
    } else {
        slowed
    };
    let chosen = if keys.reset {
        ONE as int
    } else {
        sped
    };
    clamp(chosen, MIN_TIME_SCALE as int, MAX_TIME_SCALE as int)
}

/// Applies the keys of one frame to the time multiplier and to the
/// visibility of its panel.
pub fn time_multiplier_input_system(
    keys: TimeKeys,
    multiplier: &mut TimeMultiplier,
    ui_state: &mut TimeMultiplierUiState,
)
    ensures
        final(multiplier).scale == rescaled(old(multiplier).scale, keys),
        final(ui_state).visible == (old(ui_state).visible != keys.toggle_panel),
{
    if keys.toggle_panel {
        ui_state.visible = !ui_state.visible;
    }
    let mut scale: i64 = multiplier.scale as i64;
    if keys.slower {
        scale = scale - TIME_SCALE_STEP as i64;
    }
    if keys.faster {
        scale = scale + TIME_SCALE_STEP as i64;
    }
    if keys.reset {
        scale = ONE as i64;
    }
    if scale < MIN_TIME_SCALE as i64 {
        scale = MIN_TIME_SCALE as i64;
    } else if scale > MAX_TIME_SCALE as i64 {
        scale = MAX_TIME_SCALE as i64;
    }
    multiplier.scale = scale as u32;
}

/// A projectile after a tick of `dt` seconds in which its heading has the
/// sine `heading.0` and the cosine `heading.1`: it has flown along its
/// heading at its speed and has `dt` seconds less to live. There is none
/// when its time is up or when it has left the representable space.
pub open spec fn flown(p: Projectile, heading: (i32, i32), dt: u32) -> Option<Projectile> {
    let x = p.position.x + scaled3(heading.0 as int, p.speed as int, dt as int);
    let z = p.position.z + scaled3(heading.1 as int, p.speed as int, dt as int);
    if p.lifetime > dt && fits_i32(x) && fits_i32(z) {
        Some(
            Projectile {
                position: Position { x: x as i32, y: p.position.y, z: z as i32 },
                lifetime: (p.lifetime - dt) as u32,
                ..p
            },
        )
    } else {
        None
    }
}

/// The first `n` projectiles after a tick, without those that are gone, in
/// their order.
pub open spec fn flight(ps: Seq<Projectile>, hs: Seq<(i32, i32)>, dt: u32, n: int) -> Seq<
    Projectile,
>
    decreases n,
{
    if n <= 0 {
        Seq::empty()
    } else {
        let before = flight(ps, hs, dt, n - 1);
        match flown(ps[n - 1], hs[n - 1], dt) {
            Some(p) => before.push(p),
            None => before,
        }
    }
}

/// The flight of the first `n` projectiles depends on the first `n`
/// headings only.
pub proof fn lemma_flight_prefix(
    ps: Seq<Projectile>,
    hs: Seq<(i32, i32)>,
    gs: Seq<(i32, i32)>,
    dt: u32,
    n: int,
)
    requires
        forall|k: int| 0 <= k < n ==> hs[k] == gs[k],
    ensures
        flight(ps, hs, dt, n) == flight(ps, gs, dt, n),
    decreases n,
{
    if n > 0 {
        lemma_flight_prefix(ps, hs, gs, dt, n - 1);
    }
}

/// Whether the projectiles `after` can follow from `projectiles` by a tick
/// of `dt` seconds: for some sines and cosines that `trig` returned for
/// their headings, they are the [`flight`] of all of them.
pub open spec fn flies<G: Fn(i32) -> (i32, i32)>(
    projectiles: Seq<Projectile>,
    dt: u32,
    trig: G,
    after: Seq<Projectile>,
) -> bool {
    exists|hs: Seq<(i32, i32)>|
        {
            &&& hs.len() == projectiles.len()
            &&& forall|k: int|
                0 <= k < hs.len() ==> trig.ensures((projectiles[k].rotation,), #[trigger] hs[k])
            &&& after == #[trigger] flight(projectiles, hs, dt, projectiles.len() as int)
        }
}

/// Of the first `n` projectiles at most `n` are left after their flight.
pub proof fn lemma_flight_len(ps: Seq<Projectile>, hs: Seq<(i32, i32)>, dt: u32, n: int)
    requires
        0 <= n,
    ensures
        flight(ps, hs, dt, n).len() <= n,
    decreases n,
{
    if n > 0 {
        lemma_flight_len(ps, hs, dt, n - 1);
    }
}

/// Computes [`flown`].
pub fn advance_projectile(p: &Projectile, heading: (i32, i32), dt: u32) -> (r: Option<Projectile>)
    ensures
        r == flown(*p, heading, dt),
{
    let x: i128 = p.position.x as i128 + mul3_scaled(heading.0, p.speed, dt);
    let z: i128 = p.position.z as i128 + mul3_scaled(heading.1, p.speed, dt);
    if p.lifetime > dt && i32::MIN as i128 <= x && x <= i32::MAX as i128 && i32::MIN as i128 <= z
        && z <= i32::MAX as i128 {
        Some(
            Projectile {
                position: Position { x: x as i32, y: p.position.y, z: z as i32 },
                rotation: p.rotation,
                damage: p.damage,
                speed: p.speed,
                lifetime: p.lifetime - dt,
                owner: p.owner,
            },
        )
    } else {
        None
    }
}

/// Moves every projectile for a tick of `dt` seconds and removes those
/// whose time is up. `trig` returns the sine and the cosine of an angle.
pub fn projectile_movement_system<G: Fn(i32) -> (i32, i32)>(
    projectiles: &mut Vec<Projectile>,
    dt: u32,
    trig: &G,
)
    requires
        forall|a: i32| trig.requires((a,)),
    ensures
        flies(old(projectiles)@, dt, *trig, final(projectiles)@),
{
    let ghost before = projectiles@;
    let ghost mut hs: Seq<(i32, i32)> = Seq::empty();
    let mut kept: Vec<Projectile> = Vec::new();
    let mut n: usize = 0;
    while n < projectiles.len()
        invariant
            projectiles@ == before,
            n <= before.len(),
            hs.len() == n,
            forall|a: i32| trig.requires((a,)),
            forall|k: int| 0 <= k < n ==> trig.ensures((before[k].rotation,), #[trigger] hs[k]),
            kept@ == flight(before, hs, dt, n as int),
        decreases before.len() - n,
    {
        let heading: (i32, i32) = trig(projectiles[n].rotation);
        let ghost earlier = hs;
        proof {
            hs = earlier.push(heading);
            lemma_flight_prefix(before, earlier, hs, dt, n as int);
        }
        match advance_projectile(&projectiles[n], heading, dt) {
            Some(p) => {
                kept.push(p);
            },
            None => {},
        }
        n += 1;
    }
    *projectiles = kept;
    assert(projectiles@ == flight(before, hs, dt, before.len() as int));
}

/// Whether projectile `p` can hit tank `j`: the tank is alive, has not
/// fired `p` itself and is within the hit radius.
pub open spec fn can_hit(agents: Seq<Agent>, p: Projectile, j: int) -> bool {
    &&& j != p.owner
    &&& agents[j].tank.alive()
    &&& within(p.position, agents[j].position, HIT_RADIUS as int)
}

/// The first of the first `n` tanks that `p` can hit.
pub open spec fn hit_among(agents: Seq<Agent>, p: Projectile, n: int) -> Option<int>
    decreases n,
{
    if n <= 0 {
        None
    } else {
        match hit_among(agents, p, n - 1) {
            Some(j) => Some(j),
            None => if can_hit(agents, p, n - 1) {
                Some(n - 1)
            } else {
                None
            },
        }
    }
}

/// [`hit_among`] finds the first of the first `n` tanks that `p` can hit.
pub proof fn lemma_hit_among(agents: Seq<Agent>, p: Projectile, n: int)
    requires
        0 <= n,
    ensures
        (match hit_among(agents, p, n) {
            Some(j) => 0 <= j < n && can_hit(agents, p, j) && forall|k: int|
                0 <= k < j ==> !can_hit(agents, p, k),
            None => forall|k: int| 0 <= k < n ==> !can_hit(agents, p, k),
        }),
    decreases n,
{
    if n > 0 {
        lemma_hit_among(agents, p, n - 1);
    }
}

/// The tanks after `p` has hit tank `j`: the tank has lost the damage of
/// `p` from its health. If that leaves it without health, the tank that
/// fired `p` has one kill more, whether it is still alive or not.
pub open spec fn struck(agents: Seq<Agent>, p: Projectile, j: int) -> Seq<Agent> {
    let victim = agents[j];
    let health = clamp(victim.tank.health - p.damage, i32::MIN as int, i32::MAX as int) as i32;
    let wounded = agents.update(j, Agent { tank: Tank { health, ..victim.tank }, ..victim });
    if health <= 0 && p.owner < agents.len() {
        let owner = wounded[p.owner as int];
        wounded.update(p.owner as int, Agent { kills: (owner.kills + 1) as u32, ..owner })
    } else {
        wounded
    }
}

/// Whether a projectile at `place` is stopped by an obstacle.
pub open spec fn stopped(obstacles: Seq<Obstacle>, place: Position) -> bool {
    exists|k: int|
        0 <= k < obstacles.len() && within(
            place,
            #[trigger] obstacles[k].position,
            OBSTACLE_HIT_RADIUS as int,
        )
}

/// The tanks, and the projectiles that are left, once the first `n`
/// projectiles have been settled in their order. A projectile hits the
/// first tank it can hit, and is spent. One that hits no tank is spent when
/// an obstacle stops it. The others fly on.
pub open spec fn settled(
    agents: Seq<Agent>,
    obstacles: Seq<Obstacle>,
    ps: Seq<Projectile>,
    n: int,
) -> (Seq<Agent>, Seq<Projectile>)
    decreases n,
{
    if n <= 0 {
        (agents, Seq::empty())
    } else {
        let (tanks, left) = settled(agents, obstacles, ps, n - 1);
        let p = ps[n - 1];
        match hit_among(tanks, p, tanks.len() as int) {
            Some(j) => (struck(tanks, p, j), left),
            None => if stopped(obstacles, p.position) {
                (tanks, left)
            } else {
                (tanks, left.push(p))
            },
        }
    }
}

/// Settling projectiles changes nothing of a tank but its health and its
/// kills, and every kill spends a projectile: the kills of a tank and the
/// projectiles left number no more than its kills before and the projectiles
/// settled.
pub proof fn lemma_settled_keeps(
    agents: Seq<Agent>,
    obstacles: Seq<Obstacle>,
    ps: Seq<Projectile>,
    n: int,
)
    requires
        0 <= n <= ps.len(),
        forall|a: int| 0 <= a < agents.len() ==> (#[trigger] agents[a]).kills + ps.len() <= u32::MAX,
    ensures
        settled(agents, obstacles, ps, n).0.len() == agents.len(),
        settled(agents, obstacles, ps, n).1.len() <= n,
        forall|a: int|
            0 <= a < agents.len() ==> ({
                let after = #[trigger] settled(agents, obstacles, ps, n).0[a];
                &&& after.kills + settled(agents, obstacles, ps, n).1.len() <= agents[a].kills + n
                &&& after.kills >= agents[a].kills
                &&& after.position == agents[a].position
                &&& after.rotation == agents[a].rotation
                &&& after.cooldown == agents[a].cooldown
                &&& after.controller == agents[a].controller
                &&& after.survival_time == agents[a].survival_time
                &&& after.tank.team == agents[a].tank.team
            }),
    decreases n,
{
    if n > 0 {
        lemma_settled_keeps(agents, obstacles, ps, n - 1);
        let (tanks, left) = settled(agents, obstacles, ps, n - 1);
        lemma_hit_among(tanks, ps[n - 1], tanks.len() as int);
        assert forall|a: int| 0 <= a < agents.len() implies {
            let after = #[trigger] settled(agents, obstacles, ps, n).0[a];
            &&& after.kills + settled(agents, obstacles, ps, n).1.len() <= agents[a].kills + n
            &&& after.kills >= agents[a].kills
            &&& after.position == agents[a].position
            &&& after.rotation == agents[a].rotation
            &&& after.cooldown == agents[a].cooldown
            &&& after.controller == agents[a].controller
            &&& after.survival_time == agents[a].survival_time
            &&& after.tank.team == agents[a].tank.team
        } by {
            let earlier = tanks[a];
            assert(earlier == settled(agents, obstacles, ps, n - 1).0[a]);
        }
    }
}

/// A projectile that hits a tank is spent: it is not among the projectiles
/// that are left, so it cannot hit again.
pub proof fn lemma_hit_spends_projectile(
    agents: Seq<Agent>,
    obstacles: Seq<Obstacle>,
    ps: Seq<Projectile>,
    n: int,
)
    requires
        0 < n <= ps.len(),
        hit_among(
            settled(agents, obstacles, ps, n - 1).0,
            ps[n - 1],
            settled(agents, obstacles, ps, n - 1).0.len() as int,
        ) is Some,
    ensures
        settled(agents, obstacles, ps, n).1 == settled(agents, obstacles, ps, n - 1).1,
        settled(agents, obstacles, ps, n).1.len() < n,
    decreases n,
{
    lemma_settled_left(agents, obstacles, ps, n - 1);
}

/// Of the first `n` projectiles at most `n` are left.
pub proof fn lemma_settled_left(
    agents: Seq<Agent>,
    obstacles: Seq<Obstacle>,
    ps: Seq<Projectile>,
    n: int,
)
    requires
        0 <= n,
    ensures
        settled(agents, obstacles, ps, n).1.len() <= n,
    decreases n,
{
    if n > 0 {
        lemma_settled_left(agents, obstacles, ps, n - 1);
    }
}

/// Whether the tanks `after` are the tanks `before` at a later time of the
/// same tick: at the same places, and none alive that was not alive.
pub open spec fn later(before: Seq<Agent>, after: Seq<Agent>) -> bool {
    &&& after.len() == before.len()
    &&& forall|i: int|
        0 <= i < before.len() ==> (#[trigger] after[i]).position == before[i].position && (
        after[i].tank.alive() ==> before[i].tank.alive())
}

/// Whether none of the projectiles `left` has anything to hit: no tank and
/// no obstacle.
pub open spec fn spent(tanks: Seq<Agent>, obstacles: Seq<Obstacle>, left: Seq<Projectile>) -> bool {
    forall|k: int|
        0 <= k < left.len() ==> hit_among(tanks, #[trigger] left[k], tanks.len() as int) is None
            && !stopped(obstacles, left[k].position)
}

/// A projectile that can hit no tank can hit none later in the tick.
pub proof fn lemma_no_hit_later(before: Seq<Agent>, after: Seq<Agent>, p: Projectile)
    requires
        later(before, after),
        hit_among(before, p, before.len() as int) is None,
    ensures
        hit_among(after, p, after.len() as int) is None,
{
    lemma_hit_among(before, p, before.len() as int);
    lemma_hit_among(after, p, after.len() as int);
    assert forall|k: int| 0 <= k < after.len() implies !can_hit(after, p, k) by {
        assert(!can_hit(before, p, k));
        assert(after[k].position == before[k].position);
    }
}

/// A hit by a projectile whose damage is not negative leaves the tanks at
/// their places and brings none back to life.
pub proof fn lemma_struck_later(agents: Seq<Agent>, p: Projectile, j: int)
    requires
        0 <= j < agents.len(),
        p.damage >= 0,
    ensures
        later(agents, struck(agents, p, j)),
{
    let after = struck(agents, p, j);
    assert forall|i: int| 0 <= i < agents.len() implies (#[trigger] after[i]).position
        == agents[i].position && (after[i].tank.alive() ==> agents[i].tank.alive()) by {
        let victim = agents[j];
        let health = clamp(victim.tank.health - p.damage, i32::MIN as int, i32::MAX as int);
        assert(health <= victim.tank.health);
    }
}

/// Projectiles that have nothing to hit are all left by a settling, and the
/// tanks stay as they are.
pub proof fn lemma_spent_stay(
    tanks: Seq<Agent>,
    obstacles: Seq<Obstacle>,
    left: Seq<Projectile>,
    n: int,
)
    requires
        spent(tanks, obstacles, left),
        0 <= n <= left.len(),
    ensures
        settled(tanks, obstacles, left, n) == (tanks, left.subrange(0, n)),
    decreases n,
{
    if n > 0 {
        lemma_spent_stay(tanks, obstacles, left, n - 1);
        let p = left[n - 1];
        assert(hit_among(tanks, p, tanks.len() as int) is None);
        assert(left.subrange(0, n - 1).push(p) =~= left.subrange(0, n));
    } else {
        assert(left.subrange(0, 0) =~= Seq::<Projectile>::empty());
    }
}

/// What a settling leaves has nothing more to hit, when no projectile has a
/// negative damage.
pub proof fn lemma_settled_spent(
    agents: Seq<Agent>,
    obstacles: Seq<Obstacle>,
    ps: Seq<Projectile>,
    n: int,
)
    requires
        0 <= n <= ps.len(),
        forall|k: int| 0 <= k < ps.len() ==> (#[trigger] ps[k]).damage >= 0,
    ensures
        later(agents, settled(agents, obstacles, ps, n).0),
        spent(settled(agents, obstacles, ps, n).0, obstacles, settled(agents, obstacles, ps, n).1),
    decreases n,
{
    if n > 0 {
        lemma_settled_spent(agents, obstacles, ps, n - 1);
        let (tanks, left) = settled(agents, obstacles, ps, n - 1);
        let (tanks_now, left_now) = settled(agents, obstacles, ps, n);
        let p = ps[n - 1];
        lemma_hit_among(tanks, p, tanks.len() as int);
        match hit_among(tanks, p, tanks.len() as int) {
            Some(j) => {
                lemma_struck_later(tanks, p, j);
                assert(tanks_now == struck(tanks, p, j));
                assert(left_now == left);
            },
            None => {
                assert(tanks_now == tanks);
            },
        }
        assert(later(tanks, tanks_now));
        assert(later(agents, tanks_now));
        assert forall|k: int| 0 <= k < left_now.len() implies hit_among(
            tanks_now,
            #[trigger] left_now[k],
            tanks_now.len() as int,
        ) is None && !stopped(obstacles, left_now[k].position) by {
            if k < left.len() {
                assert(left_now[k] == left[k]);
                lemma_no_hit_later(tanks, tanks_now, left[k]);
            } else {
                assert(left_now[k] == p);
            }
        }
    }
}

/// No projectile applies its damage twice: when a settling is followed by
/// another while nothing has moved, the second changes no tank and leaves
/// every projectile that the first has left. This holds when no projectile
/// has a negative damage.
pub proof fn lemma_settled_twice(
    agents: Seq<Agent>,
    obstacles: Seq<Obstacle>,
    ps: Seq<Projectile>,
)
    requires
        forall|k: int| 0 <= k < ps.len() ==> (#[trigger] ps[k]).damage >= 0,
    ensures
        ({
            let (tanks, left) = settled(agents, obstacles, ps, ps.len() as int);
            settled(tanks, obstacles, left, left.len() as int) == (tanks, left)
        }),
{
    let (tanks, left) = settled(agents, obstacles, ps, ps.len() as int);
    lemma_settled_spent(agents, obstacles, ps, ps.len() as int);
    lemma_spent_stay(tanks, obstacles, left, left.len() as int);
    assert(left.subrange(0, left.len() as int) =~= left);
}

/// Finds the first tank that `p` can hit.
pub fn first_hit(agents: &Vec<Agent>, p: &Projectile) -> (r: Option<usize>)
    ensures
        (match r {
            Some(j) => j < agents@.len() && hit_among(agents@, *p, agents@.len() as int) == Some(
                j as int,
            ),
            None => hit_among(agents@, *p, agents@.len() as int) is None,
        }),
{
    let mut j: usize = 0;
    while j < agents.len()
        invariant
            j <= agents@.len(),
            hit_among(agents@, *p, j as int) is None,
        decreases agents@.len() - j,
    {
        if j != p.owner && agents[j].tank.is_alive() && is_within(
            &p.position,
            &agents[j].position,
            HIT_RADIUS,
        ) {
            assert(hit_among(agents@, *p, j as int + 1) == Some(j as int));
            proof {
                lemma_hit_stays(agents@, *p, j as int + 1, agents@.len() as int);
            }
            return Some(j);
        }
        j += 1;
    }
    None
}

/// A hit found among the first `n` tanks is the hit among any more.
pub proof fn lemma_hit_stays(agents: Seq<Agent>, p: Projectile, n: int, m: int)
    requires
        0 <= n <= m,
        hit_among(agents, p, n) is Some,
    ensures
        hit_among(agents, p, m) == hit_among(agents, p, n),
    decreases m - n,
{
    if n < m {
        lemma_hit_stays(agents, p, n, m - 1);
    }
}

/// Decides [`stopped`].
pub fn is_stopped(obstacles: &Vec<Obstacle>, place: &Position) -> (r: bool)
    ensures
        r == stopped(obstacles@, *place),
{
    let mut k: usize = 0;
    while k < obstacles.len()
        invariant
            k <= obstacles@.len(),
            forall|m: int|
                0 <= m < k ==> !within(
                    *place,
                    #[trigger] obstacles@[m].position,
                    OBSTACLE_HIT_RADIUS as int,
                ),
        decreases obstacles@.len() - k,
    {
        if is_within(place, &obstacles[k].position, OBSTACLE_HIT_RADIUS) {
            return true;
        }
        k += 1;
    }
    false
}

/// Applies the hit of `p` on tank `j`: see [`struck`].
pub fn strike(agents: &mut Vec<Agent>, p: &Projectile, j: usize)
    requires
        j < old(agents)@.len(),
        p.owner < old(agents)@.len() ==> old(agents)@[p.owner as int].kills < u32::MAX,
    ensures
        final(agents)@ == struck(old(agents)@, *p, j as int),
{
    let health: i32 = clamp_to(
        agents[j].tank.health as i128 - p.damage as i128,
        i32::MIN,
        i32::MAX,
    );
    agents[j].tank.health = health;
    if health <= 0 && p.owner < agents.len() {
        agents[p.owner].kills = agents[p.owner].kills + 1;
    }
    assert(agents@ =~= struck(old(agents)@, *p, j as int));
}

/// Settles the hits of one tick: every projectile, in order, against the
/// tanks as the projectiles before it have left them, then against the
/// obstacles.
pub fn collision_system(
    agents: &mut Vec<Agent>,
    projectiles: &mut Vec<Projectile>,
    obstacles: &Vec<Obstacle>,
)
    requires
        forall|a: int|
            0 <= a < old(agents)@.len() ==> (#[trigger] old(agents)@[a]).kills + old(
                projectiles,
            )@.len() <= u32::MAX,
    ensures
        final(agents)@ == settled(
            old(agents)@,
            obstacles@,
            old(projectiles)@,
            old(projectiles)@.len() as int,
        ).0,
        final(projectiles)@ == settled(
            old(agents)@,
            obstacles@,
            old(projectiles)@,
            old(projectiles)@.len() as int,
        ).1,
{
    let ghost before = agents@;
    let ghost flying = projectiles@;
    let mut left: Vec<Projectile> = Vec::new();
    let mut n: usize = 0;
    while n < projectiles.len()
        invariant
            projectiles@ == flying,
            n <= flying.len(),
            agents@.len() == before.len(),
            forall|a: int|
                0 <= a < before.len() ==> (#[trigger] before[a]).kills + flying.len() <= u32::MAX,
            agents@ == settled(before, obstacles@, flying, n as int).0,
            left@ == settled(before, obstacles@, flying, n as int).1,
        decreases flying.len() - n,
    {
        let p: Projectile = projectiles[n];
        proof {
            lemma_settled_keeps(before, obstacles@, flying, n as int);
            assert(p.owner < agents@.len() ==> agents@[p.owner as int].kills < u32::MAX) by {
                if p.owner < agents@.len() {
                    let owner = settled(before, obstacles@, flying, n as int).0[p.owner as int];
                }
            }
        }
        match first_hit(agents, &p) {
            Some(j) => {
                strike(agents, &p, j);
            },
            None => {
                if !is_stopped(obstacles, &p.position) {
                    left.push(p);
                }
            },
        }
        n += 1;
    }
    *projectiles = left;
}

} // verus!
