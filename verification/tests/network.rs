use tank_evolution::ai::NeuralNetwork;
use tank_evolution::components::{AIController, Position};
use tank_evolution::fixed::{ONE, PI};

fn fixed(v: f64) -> i32 {
    (v * 1_000_000.0).round() as i32
}

fn tanh(x: i64) -> i32 {
    ((x as f64 / 1_000_000.0).tanh() * 1_000_000.0).round() as i32
}

fn identity(x: i64) -> i32 {
    x as i32
}

#[test]
fn test_neural_network() {
    let genome = vec![fixed(0.5); 96]; // 8*8 + 8*4
    let nn = NeuralNetwork::from_genome(&genome);
    let inputs = [
        fixed(0.0),
        fixed(0.5),
        fixed(0.3),
        fixed(-0.2),
        fixed(0.1),
        fixed(0.9),
        fixed(0.7),
        fixed(-0.1),
    ];
    let outputs = nn.forward(&inputs, &tanh);

    assert_eq!(outputs.len(), 4);
}

#[test]
fn forward_outputs_lie_strictly_inside_unit_interval() {
    let mut genome = Vec::new();
    for k in 0..96 {
        genome.push(fixed(((k * 37) % 200) as f64 / 100.0 - 1.0));
    }
    let nn = NeuralNetwork::from_genome(&genome);
    let inputs = [
        fixed(1.0),
        fixed(0.2),
        fixed(-0.6),
        fixed(0.8),
        fixed(0.0),
        fixed(1.0),
        fixed(0.5),
        fixed(-0.25),
    ];
    let outputs = nn.forward(&inputs, &tanh);
    assert_eq!(outputs.len(), 4);
    for o in outputs {
        assert!(-ONE < o && o < ONE);
    }
}

#[test]
fn zero_genome_gives_zero_outputs() {
    let genome = vec![0; 96];
    let nn = NeuralNetwork::from_genome(&genome);
    let inputs = [ONE, 100_000, 600_000, 800_000, 600_000, 800_000, 500_000, -250_000];
    assert_eq!(nn.forward(&inputs, &tanh), [0, 0, 0, 0]);
}

#[test]
fn forward_sums_weighted_inputs_layer_by_layer() {
    // Every weight 0.5, inputs summing to 2.2: each hidden unit is fed 1.1,
    // each output 8 * 1.1 * 0.5 = 4.4.
    let genome = vec![500_000; 96];
    let nn = NeuralNetwork::from_genome(&genome);
    let inputs = [0, 500_000, 300_000, -200_000, 100_000, 900_000, 700_000, -100_000];
    assert_eq!(nn.forward(&inputs, &identity), [4_400_000; 4]);
}

#[test]
fn genome_is_decoded_row_by_row() {
    // Weight k is k / 100. Only input 2 is on, so hidden unit h holds weight
    // 2 * 8 + h, and output o sums those against the weights 64 + 4 h + o.
    let mut genome = Vec::new();
    for k in 0..96 {
        genome.push(k * 10_000);
    }
    let nn = NeuralNetwork::from_genome(&genome);
    let mut inputs = [0; 8];
    inputs[2] = ONE;
    assert_eq!(
        nn.forward(&inputs, &identity),
        [1_233_600, 1_249_200, 1_264_800, 1_280_400]
    );
}

#[test]
fn activation_is_applied_to_both_layers() {
    let genome = vec![ONE; 96];
    let nn = NeuralNetwork::from_genome(&genome);
    let inputs = [ONE; 8];
    // Hidden units are fed 8.0 and hold 0.25; outputs are fed 2.0.
    let outputs = nn.forward(&inputs, &|x: i64| if x == 8_000_000 {
        250_000
    } else if x == 2_000_000 {
        -1
    } else {
        7
    });
    assert_eq!(outputs, [-1, -1, -1, -1]);
}

#[test]
fn forward_rounds_sums_toward_zero() {
    let mut genome = vec![0; 96];
    genome[0] = 1;
    genome[64] = ONE;
    let nn = NeuralNetwork::from_genome(&genome);
    let mut inputs = [0; 8];
    inputs[0] = -999_999;
    // -0.999999 * 0.000001 is closer to zero than one unit.
    assert_eq!(nn.forward(&inputs, &identity), [0, 0, 0, 0]);
    inputs[0] = -ONE;
    assert_eq!(nn.forward(&inputs, &identity), [-1, 0, 0, 0]);
}

#[test]
fn sensors_encode_own_state_and_nearest_enemy() {
    let me = Position { x: 0, y: 500_000, z: 0 };
    let enemy = Position { x: 3_000_000, y: 500_000, z: 4_000_000 };
    let inputs = NeuralNetwork::get_inputs(
        me,
        0,
        (0, ONE),
        100_000_000,
        Some(enemy),
        Some(50_000_000),
    );
    assert_eq!(
        inputs,
        [ONE, 100_000, 600_000, 800_000, 600_000, 800_000, 500_000, 0]
    );
}

#[test]
fn sensors_measure_bearing_against_own_heading() {
    let me = Position { x: 0, y: 500_000, z: 0 };
    let enemy = Position { x: 10_000_000, y: 500_000, z: 0 };
    // Heading a quarter turn: straight at the enemy.
    let inputs = NeuralNetwork::get_inputs(
        me,
        1_570_796,
        (ONE, 0),
        40_000_000,
        Some(enemy),
        Some(100_000_000),
    );
    assert_eq!(inputs[0], 400_000);
    assert_eq!(inputs[1], 200_000);
    assert_eq!(inputs[2], ONE);
    assert_eq!(inputs[3], 0);
    assert_eq!(inputs[4], 0);
    assert_eq!(inputs[5], ONE);
    assert_eq!(inputs[6], ONE);
    assert_eq!(inputs[7], 499_999);
}

#[test]
fn sensors_are_zero_without_enemy() {
    let me = Position { x: 1_000_000, y: 500_000, z: -2_000_000 };
    let inputs = NeuralNetwork::get_inputs(me, PI, (0, -ONE), 25_000_000, None, None);
    assert_eq!(inputs, [250_000, 0, 0, 0, 0, 0, 0, ONE]);
}

#[test]
fn sensor_distance_saturates_at_sensor_range() {
    let me = Position { x: 0, y: 500_000, z: 0 };
    let far = Position { x: 0, y: 500_000, z: -80_000_000 };
    let inputs = NeuralNetwork::get_inputs(me, 0, (0, ONE), 100_000_000, Some(far), Some(1));
    assert_eq!(inputs[1], ONE);
    assert_eq!(inputs[2], 0);
    assert_eq!(inputs[3], -ONE);
    assert_eq!(inputs[4], 0);
    assert_eq!(inputs[5], -ONE);
    assert_eq!(inputs[6], 0);
}

#[test]
fn enemy_at_the_same_place_has_no_direction_and_bearing_zero() {
    let me = Position { x: 5, y: 500_000, z: 7 };
    let inputs =
        NeuralNetwork::get_inputs(me, 643_501, (600_000, 800_000), 100_000_000, Some(me), Some(ONE));
    assert_eq!(inputs[1], 0);
    assert_eq!(inputs[2], 0);
    assert_eq!(inputs[3], 0);
    // The bearing is zero: the angle to it is the heading, negated.
    assert_eq!(inputs[4], -600_000);
    assert_eq!(inputs[5], 800_000);
}

#[test]
fn direction_to_a_very_near_enemy_is_a_unit_vector() {
    let me = Position { x: 0, y: 500_000, z: 0 };
    // One step of resolution away in x and in z.
    let near = Position { x: 1, y: 500_000, z: 1 };
    let inputs = NeuralNetwork::get_inputs(me, 0, (0, ONE), 100_000_000, Some(near), Some(ONE));
    assert_eq!(inputs[1], 0);
    assert_eq!(inputs[2], 707_107);
    assert_eq!(inputs[3], 707_107);
    assert_eq!(inputs[4], 707_107);
    assert_eq!(inputs[5], 707_107);
    // Heading straight at it.
    let facing =
        NeuralNetwork::get_inputs(me, 785_398, (707_107, 707_107), 100_000_000, Some(near), None);
    assert_eq!(facing[4], 0);
    assert_eq!(facing[5], ONE);
    let close = Position { x: 1_000, y: 500_000, z: -2_000 };
    let inputs = NeuralNetwork::get_inputs(me, 0, (0, ONE), 100_000_000, Some(close), None);
    assert_eq!(inputs[1], 44);
    assert_eq!(inputs[2], 447_213);
    assert_eq!(inputs[3], -894_427);
    assert_eq!(inputs[4], 447_213);
    assert_eq!(inputs[5], -894_427);
    let odd = Position { x: -7, y: 500_000, z: 24 };
    let inputs =
        NeuralNetwork::get_inputs(me, -643_501, (-600_000, 800_000), 100_000_000, Some(odd), None);
    assert_eq!(inputs[2], -280_000);
    assert_eq!(inputs[3], 960_000);
    assert_eq!(inputs[4], 352_000);
    assert_eq!(inputs[5], 936_000);
}

#[test]
fn directions_are_unit_vectors_at_every_distance() {
    let me = Position { x: 3, y: 500_000, z: -4 };
    let mut angle = 0.0f64;
    for dx in -40i32..=40 {
        for dz in -40i32..=40 {
            if dx == 0 && dz == 0 {
                continue;
            }
            for scale in [1i32, 13, 1_000, 250_000, 20_000_000] {
                angle += 0.37;
                let heading = (
                    (angle.sin() * 1_000_000.0).round() as i32,
                    (angle.cos() * 1_000_000.0).round() as i32,
                );
                let enemy = Position { x: 3 + dx * scale, y: 500_000, z: -4 + dz * scale };
                let inputs = NeuralNetwork::get_inputs(
                    me,
                    0,
                    heading,
                    100_000_000,
                    Some(enemy),
                    Some(100_000_000),
                );
                for value in inputs {
                    assert!(-ONE <= value && value <= ONE);
                }
                assert!(inputs[1] >= 0);
                let direction = (inputs[2] as i64).pow(2) + (inputs[3] as i64).pow(2);
                assert!((direction - 1_000_000_000_000).abs() <= 5_000_000);
                let bearing = (inputs[4] as i64).pow(2) + (inputs[5] as i64).pow(2);
                assert!((bearing - 1_000_000_000_000).abs() <= 10_000_000);
            }
        }
    }
}

#[test]
fn bearing_is_taken_along_the_ground() {
    let me = Position { x: 0, y: 500_000, z: 0 };
    // 3 away along x and 4 higher: 5 away in all.
    let raised = Position { x: 3_000_000, y: 4_500_000, z: 0 };
    let inputs = NeuralNetwork::get_inputs(me, 0, (0, ONE), 100_000_000, Some(raised), None);
    assert_eq!(inputs[1], 100_000);
    assert_eq!(inputs[2], 600_000);
    assert_eq!(inputs[3], 0);
    // A quarter turn from the heading, whatever the height.
    assert_eq!(inputs[4], ONE);
    assert_eq!(inputs[5], 0);
    // Straight above, the bearing is zero.
    let above = Position { x: 0, y: 5_500_000, z: 0 };
    let inputs =
        NeuralNetwork::get_inputs(me, 643_501, (600_000, 800_000), 100_000_000, Some(above), None);
    assert_eq!(inputs[1], 100_000);
    assert_eq!(inputs[2], 0);
    assert_eq!(inputs[3], 0);
    assert_eq!(inputs[4], -600_000);
    assert_eq!(inputs[5], 800_000);
}

#[test]
fn bearing_values_are_limited_to_the_unit_interval() {
    let me = Position { x: 0, y: 500_000, z: 0 };
    let enemy = Position { x: 1_000_000, y: 500_000, z: 1_000_000 };
    // A pair that is no sine and cosine of any angle.
    let inputs = NeuralNetwork::get_inputs(me, 0, (-ONE, ONE), 100_000_000, Some(enemy), None);
    assert_eq!(inputs[4], ONE);
    assert_eq!(inputs[5], 0);
    let inputs = NeuralNetwork::get_inputs(me, 0, (ONE, ONE), 100_000_000, Some(enemy), None);
    assert_eq!(inputs[4], 0);
    assert_eq!(inputs[5], ONE);
}

#[test]
fn genome_of_wrong_length_is_rejected() {
    assert!(AIController::new(vec![0; 95]).is_none());
    assert!(AIController::new(vec![0; 97]).is_none());
    assert!(AIController::new(Vec::new()).is_none());
    let accepted = AIController::new(vec![7; 96]).expect("a genome of 96 weights");
    assert_eq!(accepted.genome, vec![7; 96]);
    assert_eq!(accepted.fitness, 0);
    assert_eq!(accepted.kills, 0);
    assert_eq!(accepted.survival_time, 0);
}
