//! The arena: its extent and the obstacles that stand in it.

use crate::components::Position;
use crate::rng::random_in;
use rand::rngs::StdRng;
use vstd::prelude::*;

verus! {

/// Number of obstacles a generated map holds.
pub const OBSTACLE_COUNT: usize = 15;

/// A box that blocks tanks and stops projectiles.
#[derive(Clone, Copy, Debug, PartialEq, Eq, Structural)]
pub struct Obstacle {
    /// Centre of the box.
    pub position: Position,
    /// Width, height and depth of the box.
    pub size: Position,
}

/// A square arena with its obstacles.
pub struct GameMap {
    /// Side length of the arena.
    pub size: i32,
    pub obstacles: Vec<Obstacle>,
}

/// An obstacle as [`GameMap::new`] places it in an arena with half the side
/// length `half`: the centre above a point of the arena, resting on the
/// ground, 2 to 6 wide and deep and 2 to 8 high.
pub open spec fn placed(o: Obstacle, half: int) -> bool {
    &&& -half <= o.position.x < half
    &&& -half <= o.position.z < half
    &&& 2_000_000 <= o.size.x < 6_000_000
    &&& 2_000_000 <= o.size.y < 8_000_000
    &&& 2_000_000 <= o.size.z < 6_000_000
    &&& o.position.y == o.size.y / 2
}

impl GameMap {
    /// Generates an arena of side length `size` with [`OBSTACLE_COUNT`]
    /// obstacles at random places.
    pub fn new(size: i32, rng: &mut StdRng) -> (map: Self)
        requires
            size >= 2,
        ensures
            map.size == size,
            map.obstacles@.len() == OBSTACLE_COUNT,
            forall|k: int|
                0 <= k < OBSTACLE_COUNT ==> placed(#[trigger] map.obstacles@[k], size as int / 2),
    {
        let half: i128 = (size / 2) as i128;
        let mut obstacles: Vec<Obstacle> = Vec::new();
        while obstacles.len() < OBSTACLE_COUNT
            invariant
                half == size as int / 2,
                half >= 1,
                obstacles@.len() <= OBSTACLE_COUNT,
                forall|k: int|
                    0 <= k < obstacles@.len() ==> placed(#[trigger] obstacles@[k], half as int),
            decreases OBSTACLE_COUNT - obstacles@.len(),
        {
            let x: i128 = random_in(rng, -half, half - 1);
            let z: i128 = random_in(rng, -half, half - 1);
            let width: i128 = random_in(rng, 2_000_000, 5_999_999);
            let height: i128 = random_in(rng, 2_000_000, 7_999_999);
            let depth: i128 = random_in(rng, 2_000_000, 5_999_999);
            obstacles.push(
                Obstacle {
                    position: Position { x: x as i32, y: (height / 2) as i32, z: z as i32 },
                    size: Position { x: width as i32, y: height as i32, z: depth as i32 },
                },
            );
        }
        GameMap { size, obstacles }
    }
}

} // verus!
