use snake_evolution::board::{Board, Tile};
use snake_evolution::game::{Direction, Game, StepResult};

#[test]
fn new_game_has_one_segment_at_the_centre_and_food_in_the_grid() {
    for &(w, h) in &[(1usize, 1usize), (3, 3), (10, 4), (7, 20)] {
        for _ in 0..50 {
            let g = Game::new(w, h);
            assert_eq!(g.score(), 1);
            assert_eq!(g.head(), (w / 2, h / 2));
            assert_eq!(g.direction(), Direction::Right);
            let (fx, fy) = g.food();
            assert!(fx < w && fy < h);
        }
    }
}

#[test]
fn direction_deltas() {
    assert_eq!(Direction::Up.delta(), (0, 1));
    assert_eq!(Direction::Down.delta(), (0, -1));
    assert_eq!(Direction::Left.delta(), (-1, 0));
    assert_eq!(Direction::Right.delta(), (1, 0));
}

#[test]
fn moving_without_food_keeps_the_length() {
    let mut g = Game::with_food(5, 5, (0, 0));
    assert_eq!(g.step_with_food((4, 4)), StepResult::Alive);
    assert_eq!(g.head(), (3, 2));
    assert_eq!(g.score(), 1);
    assert_eq!(g.food(), (0, 0));
    g.set_direction(Direction::Up);
    assert_eq!(g.step_with_food((4, 4)), StepResult::Alive);
    assert_eq!(g.head(), (3, 3));
    g.set_direction(Direction::Down);
    assert_eq!(g.step_with_food((4, 4)), StepResult::Alive);
    assert_eq!(g.head(), (3, 2));
}

#[test]
fn eating_grows_the_snake_and_moves_the_food() {
    let mut g = Game::with_food(5, 5, (3, 2));
    assert_eq!(g.step_with_food((0, 4)), StepResult::Alive);
    assert_eq!(g.score(), 2);
    assert_eq!(g.head(), (3, 2));
    assert_eq!(g.food(), (0, 4));
    // The tail stays where the snake started.
    let board = g.board();
    assert_eq!(*board.get(2, 2).unwrap(), Tile::Snake);
    assert_eq!(*board.get(3, 2).unwrap(), Tile::Snake);
    assert_eq!(*board.get(0, 4).unwrap(), Tile::Food);
    assert_eq!(*board.get(1, 1).unwrap(), Tile::Empty);
}

#[test]
fn leaving_the_grid_kills_and_freezes_the_game() {
    let mut g = Game::with_food(3, 3, (0, 0));
    assert_eq!(g.step_with_food((0, 0)), StepResult::Alive);
    assert_eq!(g.head(), (2, 1));
    assert_eq!(g.step_with_food((0, 0)), StepResult::Died);
    assert_eq!(g.head(), (2, 1));
    assert_eq!(g.score(), 1);
}

#[test]
fn reversing_into_the_neck_kills() {
    let mut g = Game::with_food(6, 6, (4, 3));
    assert_eq!(g.step_with_food((0, 0)), StepResult::Alive);
    assert_eq!(g.score(), 2);
    g.set_direction(Direction::Left);
    assert_eq!(g.step_with_food((1, 1)), StepResult::Died);
    assert_eq!(g.score(), 2);
    assert_eq!(g.head(), (4, 3));
}

#[test]
fn random_steps_change_the_score_by_one_or_not_at_all() {
    for _ in 0..200 {
        let mut g = Game::new(4, 4);
        let headings = [Direction::Up, Direction::Left, Direction::Down, Direction::Right];
        let mut t = 0;
        loop {
            g.set_direction(headings[(t / 2) % 4]);
            let before = g.score();
            match g.step() {
                StepResult::Alive => {
                    let after = g.score();
                    assert!(after == before || after == before + 1);
                    let (fx, fy) = g.food();
                    assert!(fx < 4 && fy < 4);
                }
                StepResult::Died => {
                    assert_eq!(g.score(), before);
                    break;
                }
            }
            t += 1;
            if t > 100 {
                break;
            }
        }
    }
}

#[test]
fn ray_distances() {
    let mut g = Game::with_food(7, 7, (3, 6));
    // Head at (3, 3); the food is three cells up.
    assert_eq!(g.dist(Some(Tile::Food), 0, 1), Some(3));
    assert_eq!(g.dist(None, 0, 1), Some(4));
    assert_eq!(g.dist(Some(Tile::Snake), 0, 1), None);
    assert_eq!(g.dist(Some(Tile::Food), 1, 0), None);
    assert_eq!(g.dist(None, 1, 0), Some(4));
    assert_eq!(g.dist(None, -1, -1), Some(4));
    assert_eq!(g.dist(Some(Tile::Empty), -1, 0), Some(1));
    // Grow the snake, then look back along it.
    g.set_direction(Direction::Up);
    assert_eq!(g.step_with_food((0, 0)), StepResult::Alive);
    assert_eq!(g.step_with_food((0, 0)), StepResult::Alive);
    assert_eq!(g.step_with_food((0, 0)), StepResult::Alive);
    assert_eq!(g.score(), 2);
    assert_eq!(g.head(), (3, 6));
    assert_eq!(g.dist(Some(Tile::Snake), 0, -1), Some(1));
    assert_eq!(g.dist(None, 0, 1), Some(1));
    assert_eq!(g.dist(Some(Tile::Food), -1, -1), None);
}

#[test]
fn board_snapshot_and_access() {
    let g = Game::with_food(4, 3, (0, 2));
    let mut board: Board = g.board();
    assert_eq!(board.width, 4);
    assert_eq!(board.height(), 3);
    assert_eq!(board.tiles.len(), 12);
    assert_eq!(*board.get(2, 1).unwrap(), Tile::Snake);
    assert_eq!(*board.get(0, 2).unwrap(), Tile::Food);
    assert_eq!(*board.get(3, 2).unwrap(), Tile::Empty);
    assert!(board.get(0, 3).is_none());
    assert!(board.get(usize::MAX, usize::MAX).is_none());
    *board.get_mut(3, 0).unwrap() = Tile::Food;
    assert_eq!(board.tiles[3], Tile::Food);
    assert!(board.get_mut(4, 2).is_none());
    let rows = board.rows();
    assert_eq!(rows.len(), 3);
    assert_eq!(rows[0], vec![Tile::Empty, Tile::Empty, Tile::Empty, Tile::Food]);
    assert_eq!(rows[1], vec![Tile::Empty, Tile::Empty, Tile::Snake, Tile::Empty]);
    assert_eq!(rows[2], vec![Tile::Food, Tile::Empty, Tile::Empty, Tile::Empty]);
}

#[test]
fn food_under_the_snake_is_drawn_over_it() {
    let g = Game::with_food(3, 3, (1, 1));
    let board = g.board();
    assert_eq!(*board.get(1, 1).unwrap(), Tile::Food);
    // The ray sees the snake's own cell as snake, never the food hidden there.
    assert_eq!(g.dist(Some(Tile::Food), 1, 0), None);
}

#[test]
fn board_fill_and_partial_rows() {
    let b = Board::fill(Tile::Snake, 2, 3);
    assert_eq!(b.tiles, vec![Tile::Snake; 6]);
    assert_eq!(b.height(), 3);
    let odd = Board { tiles: vec![Tile::Empty; 7], width: 3 };
    assert_eq!(odd.height(), 2);
    assert_eq!(odd.rows().len(), 2);
    // A column beyond the width reads on into the next row.
    assert_eq!(*odd.get(4, 0).unwrap(), Tile::Empty);
    assert!(odd.get(4, 1).is_none());
    assert!(odd.get(0, 3).is_none());
}

#[test]
fn rays_with_longer_steps() {
    let g = Game::with_food(7, 7, (5, 5));
    // Head at (3, 3).
    assert_eq!(g.dist(Some(Tile::Food), 2, 2), Some(1));
    assert_eq!(g.dist(None, 2, 2), Some(2));
    assert_eq!(g.dist(None, 2, 0), Some(2));
    assert_eq!(g.dist(None, -3, 0), Some(2));
    assert_eq!(g.dist(None, -4, 0), Some(1));
    assert_eq!(g.dist(Some(Tile::Empty), 0, -3), Some(1));
    assert_eq!(g.dist(None, isize::MAX, 0), Some(1));
    assert_eq!(g.dist(None, 0, isize::MIN), Some(1));
    assert_eq!(g.dist(Some(Tile::Food), isize::MIN, 1), None);
    assert_eq!(g.dist(Some(Tile::Food), 1, 1), Some(2));
}
