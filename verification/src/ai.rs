//! The controller network: decoding a genome, the forward pass and the
//! sensor encoding.
//!
//! The hyperbolic tangent and the trigonometric functions are not integer
//! arithmetic; the caller supplies them, and the contracts here say what is
//! fed to them and where their results go.

use crate::components::{
    Position, GENOME_SIZE, HIDDEN_SIZE, INPUT_SIZE, MAX_HEALTH, OUTPUT_SIZE,
};
use crate::fixed::{
    clamp, clamp_to, div_toward_zero, in_unit, lemma_quot_bound, lemma_quot_times_divisor,
    lemma_turned_unit_vector, lemma_unit_component_in_unit, lemma_unit_components_square_to_one,
    quot, ratio, unit_component, unit_heading, unit_share, ONE, PI,
};
use vstd::prelude::*;

verus! {

/// Distance at which the range sensor saturates.
pub const SENSOR_RANGE: i32 = 50_000_000;

/// A two-layer feed-forward network without bias terms.
pub struct NeuralNetwork {
    weights_input_hidden: Vec<Vec<i32>>,
    weights_hidden_output: Vec<Vec<i32>>,
}

/// The sum of the first `n` products `xs[k] * ws[k]`.
pub open spec fn dot(xs: Seq<i32>, ws: Seq<i32>, n: int) -> int
    decreases n,
{
    if n <= 0 {
        0
    } else {
        dot(xs, ws, n - 1) + xs[n - 1] * ws[n - 1]
    }
}

/// The first `n` products sum to at most `n` times the largest product of
/// two 32-bit numbers.
pub proof fn lemma_dot_range(xs: Seq<i32>, ws: Seq<i32>, n: int)
    requires
        0 <= n,
    ensures
        -(n * 0x4000_0000_0000_0000) <= dot(xs, ws, n) <= n * 0x4000_0000_0000_0000,
    decreases n,
{
    if n > 0 {
        lemma_dot_range(xs, ws, n - 1);
        let a: int = xs[n - 1] as int;
        let b: int = ws[n - 1] as int;
        assert(-0x4000_0000_0000_0000 <= a * b <= 0x4000_0000_0000_0000) by (nonlinear_arith)
            requires
                -0x8000_0000 <= a <= 0x8000_0000,
                -0x8000_0000 <= b <= 0x8000_0000,
        ;
    }
}

/// A dot product with weights that are all zero is zero.
pub proof fn lemma_dot_zero(xs: Seq<i32>, ws: Seq<i32>, n: int)
    requires
        0 <= n <= ws.len(),
        forall|k: int| 0 <= k < n ==> ws[k] == 0,
    ensures
        dot(xs, ws, n) == 0,
    decreases n,
{
    if n > 0 {
        lemma_dot_zero(xs, ws, n - 1);
        assert(xs[n - 1] * ws[n - 1] == 0) by (nonlinear_arith)
            requires
                ws[n - 1] == 0,
        ;
    }
}

/// The weights that lead into hidden unit `h`, by input: the genome holds the
/// input-to-hidden matrix first, one row per input.
pub open spec fn hidden_column(genome: Seq<i32>, h: int) -> Seq<i32> {
    Seq::new(INPUT_SIZE as nat, |i: int| genome[i * HIDDEN_SIZE + h])
}

/// The weights that lead into output `o`, by hidden unit: the genome holds
/// the hidden-to-output matrix after the first, one row per hidden unit.
pub open spec fn output_column(genome: Seq<i32>, o: int) -> Seq<i32> {
    Seq::new(HIDDEN_SIZE as nat, |h: int| genome[INPUT_SIZE * HIDDEN_SIZE + h * OUTPUT_SIZE + o])
}

/// What is fed to the activation of hidden unit `h`.
pub open spec fn hidden_sum(genome: Seq<i32>, inputs: Seq<i32>, h: int) -> int {
    quot(dot(inputs, hidden_column(genome, h), INPUT_SIZE as int), ONE as int)
}

/// What is fed to the activation of output `o`.
pub open spec fn output_sum(genome: Seq<i32>, hidden: Seq<i32>, o: int) -> int {
    quot(dot(hidden, output_column(genome, o), HIDDEN_SIZE as int), ONE as int)
}

/// `outputs` is a result of the forward pass of the network with the weights
/// `genome` on `inputs`, with the hidden activations `hidden`: every unit
/// holds what `activation` returned for its weighted sum.
pub open spec fn propagates<F: Fn(i64) -> i32>(
    genome: Seq<i32>,
    activation: F,
    inputs: Seq<i32>,
    hidden: Seq<i32>,
    outputs: Seq<i32>,
) -> bool {
    &&& hidden.len() == HIDDEN_SIZE
    &&& outputs.len() == OUTPUT_SIZE
    &&& forall|h: int|
        0 <= h < HIDDEN_SIZE ==> activation.ensures(
            (hidden_sum(genome, inputs, h) as i64,),
            #[trigger] hidden[h],
        )
    &&& forall|o: int|
        0 <= o < OUTPUT_SIZE ==> activation.ensures(
            (output_sum(genome, hidden, o) as i64,),
            #[trigger] outputs[o],
        )
}

impl View for NeuralNetwork {
    type V = Seq<i32>;

    /// The weights in genome order.
    closed spec fn view(&self) -> Seq<i32> {
        Seq::new(
            GENOME_SIZE as nat,
            |k: int|
                if k < INPUT_SIZE * HIDDEN_SIZE {
                    self.weights_input_hidden@[k / (HIDDEN_SIZE as int)]@[k % (HIDDEN_SIZE as int)]
                } else {
                    self.weights_hidden_output@[(k - INPUT_SIZE * HIDDEN_SIZE) / (
                    OUTPUT_SIZE as int)]@[(k - INPUT_SIZE * HIDDEN_SIZE) % (OUTPUT_SIZE as int)]
                },
        )
    }
}

impl NeuralNetwork {
    /// The layers have the fixed shape 8 x 8 and 8 x 4.
    pub closed spec fn wf(&self) -> bool {
        &&& self.weights_input_hidden@.len() == INPUT_SIZE
        &&& self.weights_hidden_output@.len() == HIDDEN_SIZE
        &&& forall|i: int|
            0 <= i < INPUT_SIZE ==> (#[trigger] self.weights_input_hidden@[i])@.len()
                == HIDDEN_SIZE
        &&& forall|h: int|
            0 <= h < HIDDEN_SIZE ==> (#[trigger] self.weights_hidden_output@[h])@.len()
                == OUTPUT_SIZE
    }

    /// A network holds [`GENOME_SIZE`] weights.
    pub proof fn lemma_view_len(&self)
        ensures
            self@.len() == GENOME_SIZE,
    {
    }

    /// Decodes a genome into the two weight matrices.
    pub fn from_genome(genome: &[i32]) -> (net: Self)
        requires
            genome@.len() == GENOME_SIZE,
        ensures
            net.wf(),
            net@ == genome@,
    {
        let mut weights_input_hidden: Vec<Vec<i32>> = Vec::new();
        let mut i: usize = 0;
        while i < INPUT_SIZE
            invariant
                genome@.len() == GENOME_SIZE,
                i <= INPUT_SIZE,
                weights_input_hidden@.len() == i,
                forall|a: int|
                    0 <= a < i ==> (#[trigger] weights_input_hidden@[a])@.len() == HIDDEN_SIZE,
                forall|a: int, b: int|
                    0 <= a < i && 0 <= b < HIDDEN_SIZE ==> #[trigger] weights_input_hidden@[a]@[b]
                        == genome@[a * HIDDEN_SIZE + b],
            decreases INPUT_SIZE - i,
        {
            let mut row: Vec<i32> = Vec::new();
            let mut j: usize = 0;
            while j < HIDDEN_SIZE
                invariant
                    genome@.len() == GENOME_SIZE,
                    i < INPUT_SIZE,
                    j <= HIDDEN_SIZE,
                    row@.len() == j,
                    forall|b: int| 0 <= b < j ==> #[trigger] row@[b] == genome@[i * HIDDEN_SIZE + b],
                decreases HIDDEN_SIZE - j,
            {
                row.push(genome[i * HIDDEN_SIZE + j]);
                j += 1;
            }
            weights_input_hidden.push(row);
            i += 1;
        }
        let mut weights_hidden_output: Vec<Vec<i32>> = Vec::new();
        let mut h: usize = 0;
        while h < HIDDEN_SIZE
            invariant
                genome@.len() == GENOME_SIZE,
                h <= HIDDEN_SIZE,
                weights_hidden_output@.len() == h,
                forall|a: int|
                    0 <= a < h ==> (#[trigger] weights_hidden_output@[a])@.len() == OUTPUT_SIZE,
                forall|a: int, b: int|
                    0 <= a < h && 0 <= b < OUTPUT_SIZE ==> #[trigger] weights_hidden_output@[a]@[b]
                        == genome@[INPUT_SIZE * HIDDEN_SIZE + a * OUTPUT_SIZE + b],
            decreases HIDDEN_SIZE - h,
        {
            let mut row: Vec<i32> = Vec::new();
            let mut o: usize = 0;
            while o < OUTPUT_SIZE
                invariant
                    genome@.len() == GENOME_SIZE,
                    h < HIDDEN_SIZE,
                    o <= OUTPUT_SIZE,
                    row@.len() == o,
                    forall|b: int|
                        0 <= b < o ==> #[trigger] row@[b] == genome@[INPUT_SIZE * HIDDEN_SIZE + h
                            * OUTPUT_SIZE + b],
                decreases OUTPUT_SIZE - o,
            {
                row.push(genome[INPUT_SIZE * HIDDEN_SIZE + h * OUTPUT_SIZE + o]);
                o += 1;
            }
            weights_hidden_output.push(row);
            h += 1;
        }
        let net = NeuralNetwork { weights_input_hidden, weights_hidden_output };
        assert(net@ =~= genome@);
        net
    }

    /// The weighted sum that enters hidden unit `h`, before the activation.
    fn hidden_input(&self, inputs: &[i32; 8], h: usize) -> (pre: i64)
        requires
            self.wf(),
            h < HIDDEN_SIZE,
        ensures
            pre == hidden_sum(self@, inputs@, h as int),
    {
        let ghost column = hidden_column(self@, h as int);
        let mut sum: i128 = 0;
        let mut j: usize = 0;
        while j < INPUT_SIZE
            invariant
                self.wf(),
                h < HIDDEN_SIZE,
                j <= INPUT_SIZE,
                column == hidden_column(self@, h as int),
                sum == dot(inputs@, column, j as int),
            decreases INPUT_SIZE - j,
        {
            proof {
                lemma_dot_range(inputs@, column, j as int);
                lemma_dot_range(inputs@, column, j as int + 1);
            }
            let w: i32 = self.weights_input_hidden[j][h];
            assert(w == column[j as int]);
            sum = sum + (inputs[j] as i128) * (w as i128);
            j += 1;
        }
        proof {
            lemma_dot_range(inputs@, column, INPUT_SIZE as int);
            lemma_quot_bound(sum as int, ONE as int, 0x4000_0000_0000_0000);
        }
        div_toward_zero(sum, ONE as i128) as i64
    }

    /// The weighted sum that enters output `o`, before the activation.
    fn output_input(&self, hidden: &[i32; 8], o: usize) -> (pre: i64)
        requires
            self.wf(),
            o < OUTPUT_SIZE,
        ensures
            pre == output_sum(self@, hidden@, o as int),
    {
        let ghost column = output_column(self@, o as int);
        let mut sum: i128 = 0;
        let mut j: usize = 0;
        while j < HIDDEN_SIZE
            invariant
                self.wf(),
                o < OUTPUT_SIZE,
                j <= HIDDEN_SIZE,
                column == output_column(self@, o as int),
                sum == dot(hidden@, column, j as int),
            decreases HIDDEN_SIZE - j,
        {
            proof {
                lemma_dot_range(hidden@, column, j as int);
                lemma_dot_range(hidden@, column, j as int + 1);
            }
            let w: i32 = self.weights_hidden_output[j][o];
            assert(w == column[j as int]);
            sum = sum + (hidden[j] as i128) * (w as i128);
            j += 1;
        }
        proof {
            lemma_dot_range(hidden@, column, HIDDEN_SIZE as int);
            lemma_quot_bound(sum as int, ONE as int, 0x4000_0000_0000_0000);
        }
        div_toward_zero(sum, ONE as i128) as i64
    }

    /// Runs the network: each hidden unit applies `activation` to the sum of
    /// its inputs weighted by the input-to-hidden matrix, each output applies
    /// it to the sum of the hidden values weighted by the hidden-to-output
    /// matrix.
    pub fn forward<F: Fn(i64) -> i32>(&self, inputs: &[i32; 8], activation: &F) -> (outputs: [i32; 4])
        requires
            self.wf(),
            forall|x: i64| activation.requires((x,)),
        ensures
            exists|hidden: Seq<i32>| propagates(self@, *activation, inputs@, hidden, outputs@),
            (forall|x: i64, y: i32| activation.ensures((x,), y) ==> -ONE < y < ONE) ==> (forall|
                o: int,
            |
                0 <= o < OUTPUT_SIZE ==> -ONE < #[trigger] outputs@[o] < ONE),
    {
        let mut hidden: [i32; 8] = [0i32; 8];
        let mut h: usize = 0;
        while h < HIDDEN_SIZE
            invariant
                self.wf(),
                h <= HIDDEN_SIZE,
                forall|x: i64| activation.requires((x,)),
                forall|k: int|
                    0 <= k < h ==> activation.ensures(
                        (hidden_sum(self@, inputs@, k) as i64,),
                        #[trigger] hidden@[k],
                    ),
            decreases HIDDEN_SIZE - h,
        {
            let pre: i64 = self.hidden_input(inputs, h);
            let value: i32 = activation(pre);
            hidden[h] = value;
            h += 1;
        }
        let mut outputs: [i32; 4] = [0i32; 4];
        let mut o: usize = 0;
        while o < OUTPUT_SIZE
            invariant
                self.wf(),
                o <= OUTPUT_SIZE,
                forall|x: i64| activation.requires((x,)),
                forall|k: int|
                    0 <= k < o ==> activation.ensures(
                        (output_sum(self@, hidden@, k) as i64,),
                        #[trigger] outputs@[k],
                    ),
            decreases OUTPUT_SIZE - o,
        {
            let pre: i64 = self.output_input(&hidden, o);
            let value: i32 = activation(pre);
            outputs[o] = value;
            o += 1;
        }
        assert(propagates(self@, *activation, inputs@, hidden@, outputs@));
        outputs
    }
}

/// The sensor reading for a nearest enemy at `enemy`, seen from `tank_pos`
/// by a tank whose heading has the sine `sin` and the cosine `cos`: the five
/// values that follow the own health.
///
/// The first is the distance over the sensor range, at most 1.0. The second
/// and third are the shares of the differences in `x` and in `z` in the
/// straight line to the enemy. The fourth and fifth are the sine and the
/// cosine of the angle from the heading to the bearing of the enemy, limited
/// to `[-1.0, 1.0]`; the bearing is taken along the ground, whatever the
/// heights, and is zero for an enemy straight above or below.
pub open spec fn enemy_reading(tank_pos: Position, sin: i32, cos: i32, enemy: Position) -> Seq<int> {
    let dx = enemy.x - tank_pos.x;
    let dz = enemy.z - tank_pos.z;
    let d = tank_pos.dist(enemy);
    let n = tank_pos.dist_sq(enemy);
    let m = tank_pos.ground_dist_sq(enemy);
    let bx = unit_component(dx, m);
    let bz = if m == 0 {
        ONE as int
    } else {
        unit_component(dz, m)
    };
    seq![
        if ratio(d, SENSOR_RANGE as int) < ONE {
            ratio(d, SENSOR_RANGE as int)
        } else {
            ONE as int
        },
        unit_component(dx, n),
        unit_component(dz, n),
        clamp(quot(bx * cos - bz * sin, ONE as int), -(ONE as int), ONE as int),
        clamp(quot(bz * cos + bx * sin, ONE as int), -(ONE as int), ONE as int),
    ]
}

/// The eight sensor values of a tank, in network order:
/// own health over full health; distance to the nearest enemy over the
/// sensor range, at most 1.0; the unit vector toward that enemy (x, then z);
/// sine and cosine of the angle from the own heading to the bearing of the
/// enemy; the enemy's health over full health; the own heading over π.
/// Without an enemy the values that describe it are zero. An enemy at the
/// tank's own place has the zero vector as its direction and the bearing
/// zero.
pub open spec fn sensor_inputs(
    tank_pos: Position,
    tank_rotation: i32,
    sin: i32,
    cos: i32,
    tank_health: i32,
    nearest_enemy_pos: Option<Position>,
    nearest_enemy_health: Option<i32>,
) -> Seq<int> {
    let reading = match nearest_enemy_pos {
        Some(enemy) => enemy_reading(tank_pos, sin, cos, enemy),
        None => seq![0int, 0int, 0int, 0int, 0int],
    };
    seq![
        ratio(tank_health as int, MAX_HEALTH as int),
        reading[0],
        reading[1],
        reading[2],
        reading[3],
        reading[4],
        match nearest_enemy_health {
            Some(health) => ratio(health as int, MAX_HEALTH as int),
            None => 0,
        },
        ratio(tank_rotation as int, PI as int),
    ]
}

/// The differences in `x` and in `z` between two places, squared, are no
/// more than the squared distance along the ground, and that is no more
/// than the squared distance.
pub proof fn lemma_differences_within_distance(from: Position, to: Position)
    ensures
        0 <= (to.x - from.x) * (to.x - from.x) <= from.ground_dist_sq(to),
        0 <= (to.z - from.z) * (to.z - from.z) <= from.ground_dist_sq(to),
        from.ground_dist_sq(to) == (to.x - from.x) * (to.x - from.x) + (to.z - from.z) * (to.z
            - from.z),
        from.ground_dist_sq(to) <= from.dist_sq(to),
        from.y == to.y ==> from.ground_dist_sq(to) == from.dist_sq(to),
        from.ground_dist_sq(to) == 0 <==> from.x == to.x && from.z == to.z,
{
    let dx: int = to.x - from.x;
    let dy: int = to.y - from.y;
    let dz: int = to.z - from.z;
    assert(dx * dx == (from.x - to.x) * (from.x - to.x)) by (nonlinear_arith)
        requires
            dx == to.x - from.x,
    ;
    assert(dz * dz == (from.z - to.z) * (from.z - to.z)) by (nonlinear_arith)
        requires
            dz == to.z - from.z,
    ;
    assert(0 <= dx * dx && (dx * dx == 0 <==> dx == 0)) by (nonlinear_arith);
    assert(0 <= dz * dz && (dz * dz == 0 <==> dz == 0)) by (nonlinear_arith);
    assert(0 <= (from.y - to.y) * (from.y - to.y)) by (nonlinear_arith);
    if from.y == to.y {
        assert((from.y - to.y) * (from.y - to.y) == 0) by (nonlinear_arith)
            requires
                from.y - to.y == 0,
        ;
    }
}

/// The direction toward an enemy at the same height and another place is a
/// unit vector: the squares of its two values sum to 1.0 within 0.000005.
pub proof fn lemma_direction_is_unit(tank_pos: Position, sin: i32, cos: i32, enemy: Position)
    requires
        tank_pos.y == enemy.y,
        tank_pos != enemy,
    ensures
        ({
            let reading = enemy_reading(tank_pos, sin, cos, enemy);
            ONE * ONE - 5 * ONE <= reading[1] * reading[1] + reading[2] * reading[2] <= ONE * ONE
                + 5 * ONE
        }),
{
    lemma_differences_within_distance(tank_pos, enemy);
    lemma_unit_components_square_to_one(enemy.x - tank_pos.x, enemy.z - tank_pos.z);
}

/// The angle from the heading to the bearing of an enemy has a sine and a
/// cosine of its own: for a heading that is a [`unit_heading`], the squares
/// of the two values sum to 1.0 within 0.00001, wherever the enemy is.
pub proof fn lemma_bearing_is_unit(tank_pos: Position, sin: i32, cos: i32, enemy: Position)
    requires
        unit_heading(sin as int, cos as int),
    ensures
        ({
            let reading = enemy_reading(tank_pos, sin, cos, enemy);
            ONE * ONE - 10 * ONE <= reading[3] * reading[3] + reading[4] * reading[4] <= ONE * ONE
                + 10 * ONE
        }),
{
    lemma_differences_within_distance(tank_pos, enemy);
    let dx: int = enemy.x - tank_pos.x;
    let dz: int = enemy.z - tank_pos.z;
    let m: int = tank_pos.ground_dist_sq(enemy);
    let bx: int = unit_component(dx, m);
    let bz: int = if m == 0 {
        ONE as int
    } else {
        unit_component(dz, m)
    };
    if m == 0 {
        assert(bx * bx + bz * bz == ONE * ONE) by (nonlinear_arith)
            requires
                bx == 0,
                bz == ONE,
        ;
    } else {
        lemma_unit_components_square_to_one(dx, dz);
    }
    lemma_turned_unit_vector(bx, bz, sin as int, cos as int);
}

/// Every value that describes the enemy lies in `[-1.0, 1.0]`, and the
/// distance is not negative.
pub proof fn lemma_reading_in_unit(tank_pos: Position, sin: i32, cos: i32, enemy: Position)
    ensures
        ({
            let reading = enemy_reading(tank_pos, sin, cos, enemy);
            &&& 0 <= reading[0] <= ONE
            &&& in_unit(reading[1])
            &&& in_unit(reading[2])
            &&& in_unit(reading[3])
            &&& in_unit(reading[4])
        }),
{
    lemma_differences_within_distance(tank_pos, enemy);
    lemma_unit_component_in_unit(enemy.x - tank_pos.x, tank_pos.dist_sq(enemy));
    lemma_unit_component_in_unit(enemy.z - tank_pos.z, tank_pos.dist_sq(enemy));
    tank_pos.lemma_dist_range(enemy);
    lemma_quot_times_divisor(tank_pos.dist(enemy) * ONE, SENSOR_RANGE as int);
}

impl NeuralNetwork {
    /// Encodes what a tank senses into the eight network inputs.
    ///
    /// `heading` is the sine and the cosine of `tank_rotation`.
    pub fn get_inputs(
        tank_pos: Position,
        tank_rotation: i32,
        heading: (i32, i32),
        tank_health: i32,
        nearest_enemy_pos: Option<Position>,
        nearest_enemy_health: Option<i32>,
    ) -> (inputs: [i32; 8])
        requires
            in_unit(heading.0 as int),
            in_unit(heading.1 as int),
        ensures
            inputs@.len() == INPUT_SIZE,
            forall|k: int|
                0 <= k < INPUT_SIZE ==> #[trigger] inputs@[k] == sensor_inputs(
                    tank_pos,
                    tank_rotation,
                    heading.0,
                    heading.1,
                    tank_health,
                    nearest_enemy_pos,
                    nearest_enemy_health,
                )[k],
            0 <= inputs@[1] <= ONE,
            in_unit(inputs@[2] as int),
            in_unit(inputs@[3] as int),
            in_unit(inputs@[4] as int),
            in_unit(inputs@[5] as int),
            0 <= tank_health <= MAX_HEALTH ==> 0 <= inputs@[0] <= ONE,
            nearest_enemy_health is None ==> inputs@[6] == 0,
            nearest_enemy_health is Some && 0 <= nearest_enemy_health->0 <= MAX_HEALTH ==> 0
                <= inputs@[6] <= ONE,
            -PI <= tank_rotation <= PI ==> in_unit(inputs@[7] as int),
    {
        let one: i128 = ONE as i128;
        let mut inputs: [i32; 8] = [0i32; 8];
        proof {
            lemma_quot_bound(tank_health as int * ONE, MAX_HEALTH as int, 0x8000_0000);
            lemma_quot_bound(tank_rotation as int * ONE, PI as int, 0x8000_0000);
            lemma_quot_times_divisor(tank_health as int * ONE, MAX_HEALTH as int);
            if 0 <= tank_health <= MAX_HEALTH {
                lemma_quot_bound(tank_health as int * ONE, MAX_HEALTH as int, ONE as int);
            }
            if -PI <= tank_rotation <= PI {
                lemma_quot_bound(tank_rotation as int * ONE, PI as int, ONE as int);
            }
        }
        inputs[0] = div_toward_zero(tank_health as i128 * one, MAX_HEALTH as i128) as i32;
        if let Some(enemy) = nearest_enemy_pos {
            let d: i128 = tank_pos.distance(&enemy) as i128;
            let n: u128 = tank_pos.distance_squared(&enemy);
            let m: u128 = tank_pos.ground_distance_squared(&enemy);
            let dx: i64 = enemy.x as i64 - tank_pos.x as i64;
            let dz: i64 = enemy.z as i64 - tank_pos.z as i64;
            proof {
                lemma_differences_within_distance(tank_pos, enemy);
                lemma_reading_in_unit(tank_pos, heading.0, heading.1, enemy);
                tank_pos.lemma_dist_sq_range(enemy);
                tank_pos.lemma_dist_range(enemy);
                lemma_quot_bound(d as int * ONE, SENSOR_RANGE as int, 0x2_0000_0000);
            }
            let range: i128 = div_toward_zero(d * one, SENSOR_RANGE as i128);
            inputs[1] = if range < one {
                range as i32
            } else {
                ONE
            };
            inputs[2] = unit_share(dx, n);
            inputs[3] = unit_share(dz, n);
            let bx: i128 = unit_share(dx, m) as i128;
            let bz: i128 = if m == 0 {
                one
            } else {
                unit_share(dz, m) as i128
            };
            let sin: i128 = heading.0 as i128;
            let cos: i128 = heading.1 as i128;
            proof {
                assert(-(ONE * ONE) <= bx * cos <= ONE * ONE) by (nonlinear_arith)
                    requires
                        -ONE <= bx <= ONE,
                        -ONE <= cos <= ONE,
                ;
                assert(-(ONE * ONE) <= bz * sin <= ONE * ONE) by (nonlinear_arith)
                    requires
                        -ONE <= bz <= ONE,
                        -ONE <= sin <= ONE,
                ;
                assert(-(ONE * ONE) <= bz * cos <= ONE * ONE) by (nonlinear_arith)
                    requires
                        -ONE <= bz <= ONE,
                        -ONE <= cos <= ONE,
                ;
                assert(-(ONE * ONE) <= bx * sin <= ONE * ONE) by (nonlinear_arith)
                    requires
                        -ONE <= bx <= ONE,
                        -ONE <= sin <= ONE,
                ;
            }
            inputs[4] = clamp_to(div_toward_zero(bx * cos - bz * sin, one), -ONE, ONE);
            inputs[5] = clamp_to(div_toward_zero(bz * cos + bx * sin, one), -ONE, ONE);
        }
        if let Some(health) = nearest_enemy_health {
            proof {
                lemma_quot_bound(health as int * ONE, MAX_HEALTH as int, 0x8000_0000);
                lemma_quot_times_divisor(health as int * ONE, MAX_HEALTH as int);
                if 0 <= health <= MAX_HEALTH {
                    lemma_quot_bound(health as int * ONE, MAX_HEALTH as int, ONE as int);
                }
            }
            inputs[6] = div_toward_zero(health as i128 * one, MAX_HEALTH as i128) as i32;
        }
        inputs[7] = div_toward_zero(tank_rotation as i128 * one, PI as i128) as i32;
        inputs
    }
}

/// Every output of a forward pass lies strictly between -1.0 and 1.0 when
/// the activation only returns such values.
pub proof fn lemma_outputs_in_open_unit_interval<F: Fn(i64) -> i32>(
    genome: Seq<i32>,
    activation: F,
    inputs: Seq<i32>,
    hidden: Seq<i32>,
    outputs: Seq<i32>,
)
    requires
        propagates(genome, activation, inputs, hidden, outputs),
        forall|x: i64, y: i32| activation.ensures((x,), y) ==> -ONE < y < ONE,
    ensures
        outputs.len() == OUTPUT_SIZE,
        forall|o: int| 0 <= o < OUTPUT_SIZE ==> -ONE < #[trigger] outputs[o] < ONE,
{
}

/// With a genome of zeros every unit is fed zero, so every output is what
/// the activation returns for zero.
pub proof fn lemma_zero_genome_feeds_zero<F: Fn(i64) -> i32>(
    genome: Seq<i32>,
    activation: F,
    inputs: Seq<i32>,
    hidden: Seq<i32>,
    outputs: Seq<i32>,
)
    requires
        genome.len() == GENOME_SIZE,
        forall|i: int| 0 <= i < GENOME_SIZE ==> genome[i] == 0,
        propagates(genome, activation, inputs, hidden, outputs),
    ensures
        forall|h: int| 0 <= h < HIDDEN_SIZE ==> activation.ensures((0i64,), #[trigger] hidden[h]),
        forall|o: int| 0 <= o < OUTPUT_SIZE ==> activation.ensures((0i64,), #[trigger] outputs[o]),
{
    assert forall|h: int| 0 <= h < HIDDEN_SIZE implies activation.ensures(
        (0i64,),
        #[trigger] hidden[h],
    ) by {
        lemma_dot_zero(inputs, hidden_column(genome, h), INPUT_SIZE as int);
        assert(hidden_sum(genome, inputs, h) == 0);
    }
    assert forall|o: int| 0 <= o < OUTPUT_SIZE implies activation.ensures(
        (0i64,),
        #[trigger] outputs[o],
    ) by {
        lemma_dot_zero(hidden, output_column(genome, o), HIDDEN_SIZE as int);
        assert(output_sum(genome, hidden, o) == 0);
    }
}

} // verus!
