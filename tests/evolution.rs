use snake_evolution::board::Tile;
use snake_evolution::evolve::{
    best_index, breeding_pool_size, next_generation, rank, run_episode, select_parents,
    total_fitness,
};
use snake_evolution::game::{Direction, Game, StepResult};
use snake_evolution::sense::{input_distances, SENSOR_COUNT};

#[test]
fn sensor_readings_follow_ray_and_target_order() {
    let g = Game::with_food(7, 7, (5, 5));
    let d = input_distances(&g);
    assert_eq!(d.len(), SENSOR_COUNT);
    // Head at (3, 3). Rays: top left, top, top right, left, right,
    // bottom left, bottom, bottom right; targets: snake, food, edge.
    let expected: Vec<usize> = vec![
        0, 0, 4, //
        0, 0, 4, //
        0, 2, 4, //
        0, 0, 4, //
        0, 0, 4, //
        0, 0, 4, //
        0, 0, 4, //
        0, 0, 4,
    ];
    assert_eq!(d, expected);
    assert_eq!(g.dist(Some(Tile::Food), 1, 1), Some(2));
}

#[test]
fn sensor_readings_near_an_edge() {
    let g = Game::with_food(4, 2, (0, 1));
    // Head at (2, 1).
    let d = input_distances(&g);
    assert_eq!(&d[0..3], &[0, 0, 1]);
    assert_eq!(&d[9..12], &[0, 2, 3]);
    assert_eq!(&d[12..15], &[0, 0, 2]);
    assert_eq!(&d[18..21], &[0, 0, 2]);
}

#[test]
fn zero_steps_give_the_initial_score() {
    let mut g = Game::new(10, 10);
    let before = g.head();
    let fitness = run_episode(&mut g, 0, &|_inputs: Vec<usize>| Direction::Left);
    assert_eq!(fitness, 1);
    assert_eq!(g.head(), before);
    assert_eq!(g.direction(), Direction::Right);
}

#[test]
fn constant_heading_runs_into_the_wall() {
    for n in 3usize..12 {
        // Food off the snake's path, in the bottom-left corner.
        let mut g = Game::with_food(n, n, (0, 0));
        let mut ticks = 0;
        while g.step_with_food((0, 0)) == StepResult::Alive {
            ticks += 1;
        }
        assert_eq!(ticks, n - 1 - n / 2);
        assert_eq!(g.head(), (n - 1, n / 2));

        let mut h = Game::with_food(n, n, (0, 0));
        let fitness = run_episode(&mut h, 1000, &|_inputs: Vec<usize>| Direction::Right);
        assert_eq!(fitness, 1);
        assert_eq!(h.head(), (n - 1, n / 2));

        let mut capped = Game::with_food(n, n, (0, 0));
        run_episode(&mut capped, 1, &|_inputs: Vec<usize>| Direction::Right);
        assert_eq!(capped.head(), (n / 2 + 1, n / 2));
    }
}

#[test]
fn policy_reads_the_sensors() {
    // Turn up whenever food is seen straight above.
    let mut g = Game::with_food(9, 9, (4, 7));
    let fitness = run_episode(&mut g, 3, &|inputs: Vec<usize>| {
        if inputs[4] > 0 {
            Direction::Up
        } else {
            Direction::Right
        }
    });
    assert_eq!(fitness, 2);
    assert_eq!(g.head(), (4, 7));
}

#[test]
fn best_is_the_first_maximum() {
    assert_eq!(best_index(&vec![3]), 0);
    assert_eq!(best_index(&vec![1, 5, 2, 5, 0]), 1);
    assert_eq!(best_index(&vec![4, 4, 4]), 0);
    assert_eq!(best_index(&vec![0, 1, 2, 3]), 3);
}

#[test]
fn ranking_is_by_fitness_then_population_order() {
    assert_eq!(rank(&vec![]), Vec::<usize>::new());
    assert_eq!(rank(&vec![7]), vec![0]);
    assert_eq!(rank(&vec![1, 5, 2, 5, 0]), vec![1, 3, 2, 0, 4]);
    assert_eq!(rank(&vec![2, 2, 2]), vec![0, 1, 2]);
    assert_eq!(rank(&vec![1, 2, 3, 4]), vec![3, 2, 1, 0]);
}

#[test]
fn parents_come_from_the_pool() {
    let ranking = rank(&vec![1, 9, 3, 9, 2, 8, 0, 1]);
    assert_eq!(ranking[0..3], [1, 3, 5]);
    let parents = select_parents(&ranking, 3, 100);
    assert_eq!(parents.len(), 100);
    assert!(parents.iter().all(|p| *p == 1 || *p == 3 || *p == 5));
    let only_best = select_parents(&ranking, 1, 10);
    assert_eq!(only_best, vec![1; 10]);
    assert!(select_parents(&ranking, 2, 0).is_empty());
}

#[test]
fn pool_is_one_eighth() {
    assert_eq!(breeding_pool_size(0), 0);
    assert_eq!(breeding_pool_size(7), 0);
    assert_eq!(breeding_pool_size(8), 1);
    assert_eq!(breeding_pool_size(100), 12);
}

#[test]
fn fitness_total() {
    assert_eq!(total_fitness(&vec![]), 0);
    assert_eq!(total_fitness(&vec![1, 2, 3]), 6);
    assert_eq!(
        total_fitness(&vec![usize::MAX, usize::MAX]),
        2 * (usize::MAX as u128)
    );
}

#[test]
fn next_generation_breeds_each_slot_from_its_parent() {
    let population = vec![10u64, 20, 30];
    let next = next_generation(&population, &vec![2, 2, 0, 1], &|g: &u64| g + 1);
    assert_eq!(next, vec![31, 31, 11, 21]);
    assert!(next_generation(&population, &vec![], &|g: &u64| *g).is_empty());
}

#[test]
fn constant_heading_goes_straight_whatever_it_eats() {
    // Head at (3, 3) on a 7x7 grid; each heading has three cells before the wall.
    let cases = [
        (Direction::Right, (5usize, 3usize), (6usize, 3usize)),
        (Direction::Left, (1, 3), (0, 3)),
        (Direction::Up, (3, 4), (3, 6)),
        (Direction::Down, (3, 0), (3, 0)),
    ];
    for &(d, food, last) in cases.iter() {
        for _ in 0..20 {
            let mut g = Game::with_food(7, 7, food);
            let fitness = run_episode(&mut g, 100, &move |_inputs: Vec<usize>| d);
            assert_eq!(g.head(), last);
            assert!(fitness >= 2);
            assert_eq!(fitness, g.score());
        }
    }
}
