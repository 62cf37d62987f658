use snake_evolution::game::Direction;
use snake_evolution::sense::decode;

fn bits(values: [f32; 4]) -> Vec<u32> {
    values.iter().map(|v| v.to_bits()).collect()
}

#[test]
fn ai_operate_test() {
    assert_eq!(Direction::Up, decode(&bits([1.0, 0.0, 0.5, 0.0])));
    assert_eq!(Direction::Down, decode(&bits([0.0, 1.0, 0.5, 0.0])));
    assert_eq!(Direction::Left, decode(&bits([1.0, 0.0, 1.5, 0.0])));
    assert_eq!(Direction::Right, decode(&bits([0.0, 0.0, 0.0, 0.5])));
}

#[test]
fn neuralnet_operate_test() {
    assert_eq!(Direction::Up, decode(&bits([1.0, 0.0, 0.5, 0.0])));
    assert_eq!(Direction::Down, decode(&bits([0.0, 1.0, 0.5, 0.0])));
    assert_eq!(Direction::Left, decode(&bits([1.0, 0.0, 1.5, 0.0])));
    assert_eq!(Direction::Right, decode(&bits([0.0, 0.0, 0.0, 0.5])));
}

#[test]
fn one_hot_vectors_decode_to_their_position() {
    assert_eq!(Direction::Up, decode(&bits([1.0, 0.0, 0.0, 0.0])));
    assert_eq!(Direction::Down, decode(&bits([0.0, 1.0, 0.0, 0.0])));
    assert_eq!(Direction::Left, decode(&bits([0.0, 0.0, 1.0, 0.0])));
    assert_eq!(Direction::Right, decode(&bits([0.0, 0.0, 0.0, 1.0])));
}

#[test]
fn ties_favour_the_lowest_index() {
    assert_eq!(Direction::Up, decode(&bits([1.0, 0.0, 1.0, 0.0])));
    assert_eq!(Direction::Down, decode(&bits([0.0, 2.0, 2.0, 2.0])));
    assert_eq!(Direction::Up, decode(&bits([0.0, 0.0, 0.0, 0.0])));
}

#[test]
fn negative_values_and_zeros_are_ordered_as_numbers() {
    assert_eq!(Direction::Left, decode(&bits([-3.0, -2.5, -1.0, -7.0])));
    assert_eq!(Direction::Right, decode(&bits([-0.5, -1.0, -2.0, 0.25])));
    // Negative and positive zero are equal, so the first one wins.
    assert_eq!(Direction::Up, decode(&bits([-0.0, 0.0, -1.0, -1.0])));
    assert_eq!(Direction::Down, decode(&bits([-1.0, 0.0, -0.0, -2.0])));
    assert_eq!(Direction::Down, decode(&bits([f32::MIN, f32::MAX, 1e30, f32::NEG_INFINITY])));
}
