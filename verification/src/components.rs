//! The records that make up a match: tanks, projectiles, cooldowns and the
//! genome each controller carries.

use crate::fixed::{is_sqrt, isqrt, lemma_sqrt_exists, sqrt_floor, ONE};
use crate::rng::random_in;
use rand::rngs::StdRng;
use vstd::prelude::*;

verus! {

/// Number of sensor values fed to a network.
pub const INPUT_SIZE: usize = 8;

/// Number of hidden units of a network.
pub const HIDDEN_SIZE: usize = 8;

/// Number of action values a network produces.
pub const OUTPUT_SIZE: usize = 4;

/// Number of weights in a genome: input-to-hidden plus hidden-to-output.
pub const GENOME_SIZE: usize = 96;

/// Health a tank starts a match with.
pub const MAX_HEALTH: i32 = 100_000_000;

/// Distance a tank covers per second at full throttle.
pub const TANK_SPEED: i32 = 5_000_000;

/// Angle a tank turns per second at full turn rate.
pub const ROTATION_SPEED: i32 = 2_000_000;

/// Seconds between two shots of one tank.
pub const RELOAD_TIME: u32 = 700_000;

/// Health a projectile takes from the tank it hits.
pub const PROJECTILE_DAMAGE: i32 = 20_000_000;

/// Distance a projectile covers per second.
pub const PROJECTILE_SPEED: i32 = 30_000_000;

/// Seconds a projectile exists before it expires.
pub const PROJECTILE_LIFETIME: u32 = 3_000_000;

/// The phase the training loop is in.
#[derive(Clone, Copy, Debug, PartialEq, Eq, Structural)]
pub enum GameState {
    Setup,
    Battle,
    Evolution,
}

impl Default for GameState {
    fn default() -> (s: Self)
        ensures
            s == GameState::Setup,
    {
        GameState::Setup
    }
}

/// A point of the arena. The ground plane is spanned by `x` and `z`.
#[derive(Clone, Copy, Debug, PartialEq, Eq, Structural)]
pub struct Position {
    pub x: i32,
    pub y: i32,
    pub z: i32,
}

impl Position {
    /// The square of the straight-line distance to `other`.
    pub open spec fn dist_sq(self, other: Position) -> int {
        (self.x - other.x) * (self.x - other.x) + (self.y - other.y) * (self.y - other.y) + (self.z
            - other.z) * (self.z - other.z)
    }

    /// The square of the distance to `other` along the ground, without the
    /// difference in height.
    pub open spec fn ground_dist_sq(self, other: Position) -> int {
        (self.x - other.x) * (self.x - other.x) + (self.z - other.z) * (self.z - other.z)
    }

    /// The straight-line distance to `other`, rounded down.
    pub open spec fn dist(self, other: Position) -> int {
        sqrt_floor(self.dist_sq(other))
    }

    /// A squared distance is never negative and stays far below the range of
    /// 128-bit integers.
    pub proof fn lemma_dist_sq_range(self, other: Position)
        ensures
            0 <= self.dist_sq(other) <= 0x3_0000_0000_0000_0000,
    {
        let dx: int = self.x - other.x;
        let dy: int = self.y - other.y;
        let dz: int = self.z - other.z;
        assert(0 <= dx * dx <= 0x1_0000_0000_0000_0000) by (nonlinear_arith)
            requires
                -0x1_0000_0000 <= dx <= 0x1_0000_0000,
        ;
        assert(0 <= dy * dy <= 0x1_0000_0000_0000_0000) by (nonlinear_arith)
            requires
                -0x1_0000_0000 <= dy <= 0x1_0000_0000,
        ;
        assert(0 <= dz * dz <= 0x1_0000_0000_0000_0000) by (nonlinear_arith)
            requires
                -0x1_0000_0000 <= dz <= 0x1_0000_0000,
        ;
    }

    /// A distance is the integer square root of the squared distance, and
    /// stays below 2^33.
    pub proof fn lemma_dist_range(self, other: Position)
        ensures
            is_sqrt(self.dist_sq(other), self.dist(other)),
            0 <= self.dist(other) <= 0x2_0000_0000,
    {
        self.lemma_dist_sq_range(other);
        lemma_sqrt_exists(self.dist_sq(other));
        let d: int = self.dist(other);
        let n: int = self.dist_sq(other);
        if d > 0x2_0000_0000 {
            assert(d * d > 0x3_0000_0000_0000_0000) by (nonlinear_arith)
                requires
                    d > 0x2_0000_0000,
            ;
        }
    }

    /// Computes the squared distance to `other`.
    pub fn distance_squared(&self, other: &Position) -> (d: u128)
        ensures
            d == self.dist_sq(*other),
    {
        proof {
            self.lemma_dist_sq_range(*other);
        }
        let dx: i128 = self.x as i128 - other.x as i128;
        let dy: i128 = self.y as i128 - other.y as i128;
        let dz: i128 = self.z as i128 - other.z as i128;
        assert(0 <= dx * dx <= 0x1_0000_0000_0000_0000) by (nonlinear_arith)
            requires
                -0x1_0000_0000 <= dx <= 0x1_0000_0000,
        ;
        assert(0 <= dy * dy <= 0x1_0000_0000_0000_0000) by (nonlinear_arith)
            requires
                -0x1_0000_0000 <= dy <= 0x1_0000_0000,
        ;
        assert(0 <= dz * dz <= 0x1_0000_0000_0000_0000) by (nonlinear_arith)
            requires
                -0x1_0000_0000 <= dz <= 0x1_0000_0000,
        ;
        (dx * dx + dy * dy + dz * dz) as u128
    }

    /// Computes the squared distance to `other` along the ground.
    pub fn ground_distance_squared(&self, other: &Position) -> (d: u128)
        ensures
            d == self.ground_dist_sq(*other),
            d <= self.dist_sq(*other),
            d <= 0x2_0000_0000_0000_0000,
    {
        let dx: i128 = self.x as i128 - other.x as i128;
        let dy: i128 = self.y as i128 - other.y as i128;
        let dz: i128 = self.z as i128 - other.z as i128;
        assert(0 <= dx * dx <= 0x1_0000_0000_0000_0000) by (nonlinear_arith)
            requires
                -0x1_0000_0000 <= dx <= 0x1_0000_0000,
        ;
        assert(0 <= dy * dy) by (nonlinear_arith);
        assert(0 <= dz * dz <= 0x1_0000_0000_0000_0000) by (nonlinear_arith)
            requires
                -0x1_0000_0000 <= dz <= 0x1_0000_0000,
        ;
        (dx * dx + dz * dz) as u128
    }

    /// Computes the distance to `other`, rounded down.
    pub fn distance(&self, other: &Position) -> (d: u64)
        ensures
            d == self.dist(*other),
    {
        proof {
            self.lemma_dist_sq_range(*other);
        }
        isqrt(self.distance_squared(other))
    }
}

/// The combat properties of one tank.
#[derive(Clone, Copy, Debug, PartialEq, Eq, Structural)]
pub struct Tank {
    pub health: i32,
    pub max_health: i32,
    pub speed: i32,
    pub rotation_speed: i32,
    pub generation: u32,
    pub team: u32,
}

impl Tank {
    /// A tank takes part in the match as long as it has health left.
    pub open spec fn alive(&self) -> bool {
        self.health > 0
    }

    /// Whether the tank still takes part in the match.
    pub fn is_alive(&self) -> (b: bool)
        ensures
            b == self.alive(),
    {
        self.health > 0
    }
}

impl Default for Tank {
    fn default() -> (t: Self)
        ensures
            t == (Tank {
                health: MAX_HEALTH,
                max_health: MAX_HEALTH,
                speed: TANK_SPEED,
                rotation_speed: ROTATION_SPEED,
                generation: 0,
                team: 0,
            }),
    {
        Tank {
            health: MAX_HEALTH,
            max_health: MAX_HEALTH,
            speed: TANK_SPEED,
            rotation_speed: ROTATION_SPEED,
            generation: 0,
            team: 0,
        }
    }
}

/// A shot in flight.
#[derive(Clone, Copy, Debug, PartialEq, Eq, Structural)]
pub struct Projectile {
    pub position: Position,
    /// Direction of flight, as the heading of the tank that fired.
    pub rotation: i32,
    pub damage: i32,
    pub speed: i32,
    /// Seconds left before the projectile expires.
    pub lifetime: u32,
    /// Index of the tank that fired.
    pub owner: usize,
}

/// Countdown until a tank may fire again.
#[derive(Clone, Copy, Debug, PartialEq, Eq, Structural)]
pub struct FireCooldown {
    /// Seconds left until the gun is loaded.
    pub remaining: u32,
}

impl FireCooldown {
    /// The countdown has run out.
    pub open spec fn ready(&self) -> bool {
        self.remaining == 0
    }

    /// The countdown after `dt` more seconds.
    pub open spec fn after(&self, dt: u32) -> FireCooldown {
        FireCooldown { remaining: if self.remaining > dt { (self.remaining - dt) as u32 } else { 0 } }
    }

    /// Lets `dt` seconds pass; the countdown stops at zero.
    pub fn tick(&mut self, dt: u32)
        ensures
            *final(self) == old(self).after(dt),
    {
        self.remaining = if self.remaining > dt {
            self.remaining - dt
        } else {
            0
        };
    }

    /// Whether the gun is loaded.
    pub fn finished(&self) -> (b: bool)
        ensures
            b == self.ready(),
    {
        self.remaining == 0
    }

    /// Starts a full reload.
    pub fn reset(&mut self)
        ensures
            final(self).remaining == RELOAD_TIME,
    {
        self.remaining = RELOAD_TIME;
    }
}

impl Default for FireCooldown {
    /// A fresh gun is loaded.
    fn default() -> (c: Self)
        ensures
            c.remaining == 0,
    {
        FireCooldown { remaining: 0 }
    }
}

/// What an [`AIController`] holds, as mathematical values.
pub struct ControllerView {
    pub genome: Seq<i32>,
    pub fitness: int,
    pub kills: nat,
    pub survival_time: nat,
}

/// A genome with the performance its tank earned in the current match.
#[derive(Debug)]
pub struct AIController {
    /// Network weights, input-to-hidden first, then hidden-to-output.
    pub genome: Vec<i32>,
    pub fitness: u128,
    pub kills: u32,
    pub survival_time: u64,
}

impl View for AIController {
    type V = ControllerView;

    open spec fn view(&self) -> ControllerView {
        ControllerView {
            genome: self.genome@,
            fitness: self.fitness as int,
            kills: self.kills as nat,
            survival_time: self.survival_time as nat,
        }
    }
}

impl Clone for AIController {
    fn clone(&self) -> (c: Self)
        ensures
            c@ == self@,
    {
        AIController {
            genome: self.genome.clone(),
            fitness: self.fitness,
            kills: self.kills,
            survival_time: self.survival_time,
        }
    }
}

impl AIController {
    /// A controller is well formed when its genome has exactly
    /// [`GENOME_SIZE`] weights.
    pub open spec fn wf(&self) -> bool {
        self.genome@.len() == GENOME_SIZE
    }

    /// Wraps a weight vector; rejects any whose length is not [`GENOME_SIZE`].
    pub fn new(genome: Vec<i32>) -> (r: Option<Self>)
        ensures
            r is Some <==> genome@.len() == GENOME_SIZE,
            r is Some ==> r->0@ == (ControllerView {
                genome: genome@,
                fitness: 0,
                kills: 0,
                survival_time: 0,
            }),
    {
        if genome.len() == GENOME_SIZE {
            Some(AIController { genome, fitness: 0, kills: 0, survival_time: 0 })
        } else {
            None
        }
    }

    /// A controller with weights drawn uniformly from `[-1.0, 1.0)`.
    pub fn new_random(rng: &mut StdRng) -> (c: Self)
        ensures
            c.wf(),
            forall|i: int| 0 <= i < GENOME_SIZE ==> -ONE <= #[trigger] c.genome@[i] < ONE,
            c.fitness == 0,
            c.kills == 0,
            c.survival_time == 0,
    {
        let mut genome: Vec<i32> = Vec::new();
        while genome.len() < GENOME_SIZE
            invariant
                genome@.len() <= GENOME_SIZE,
                forall|i: int| 0 <= i < genome@.len() ==> -ONE <= #[trigger] genome@[i] < ONE,
            decreases GENOME_SIZE - genome@.len(),
        {
            let gene: i128 = random_in(rng, -(ONE as i128), ONE as i128 - 1);
            genome.push(gene as i32);
        }
        AIController { genome, fitness: 0, kills: 0, survival_time: 0 }
    }
}

} // verus!
