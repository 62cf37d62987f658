use crate::board::Tile;
use crate::game::{Direction, Game, GameView};
use vstd::prelude::*;

verus! {

/// The number of sensor readings: eight rays, three targets each.
pub const SENSOR_COUNT: usize = 24;

/// The horizontal step of ray `i`: top left, top, top right, left, right,
/// bottom left, bottom, bottom right.
pub open spec fn ray_dx(i: int) -> int {
    if i == 0 || i == 3 || i == 5 {
        -1
    } else if i == 1 || i == 6 {
        0
    } else {
        1
    }
}

/// The vertical step of ray `i` (up is `+1`).
pub open spec fn ray_dy(i: int) -> int {
    if i <= 2 {
        1
    } else if i <= 4 {
        0
    } else {
        -1
    }
}

/// The target of reading `c` of each ray: the snake, the food, then the edge
/// of the grid (`None`).
pub open spec fn ray_target(c: int) -> Option<Tile> {
    if c == 0 {
        Some(Tile::Snake)
    } else if c == 1 {
        Some(Tile::Food)
    } else {
        None
    }
}

/// A sensor reading as the ray cast it comes from: `0` stands for "not found".
pub open spec fn as_found(v: usize) -> Option<usize> {
    if v == 0 {
        None
    } else {
        Some(v)
    }
}

/// `v` holds the sensor readings of `g`: for each ray `i` and target `c`, at
/// index `3 * i + c`, the distance from the head at which the ray first meets
/// the target, `0` where it meets none.
pub open spec fn sensors_of(g: GameView, v: Seq<usize>) -> bool {
    &&& v.len() == SENSOR_COUNT
    &&& forall|i: int, c: int|
        0 <= i < 8 && 0 <= c < 3 ==> g.ray_result(
            ray_target(c),
            ray_dx(i),
            ray_dy(i),
            as_found(#[trigger] v[3 * i + c]),
        )
}

fn ray(i: usize) -> (r: (isize, isize))
    requires
        i < 8,
    ensures
        r.0 == ray_dx(i as int),
        r.1 == ray_dy(i as int),
{
    if i == 0 {
        (-1, 1)
    } else if i == 1 {
        (0, 1)
    } else if i == 2 {
        (1, 1)
    } else if i == 3 {
        (-1, 0)
    } else if i == 4 {
        (1, 0)
    } else if i == 5 {
        (-1, -1)
    } else if i == 6 {
        (0, -1)
    } else {
        (1, -1)
    }
}

fn target(c: usize) -> (r: Option<Tile>)
    requires
        c < 3,
    ensures
        r == ray_target(c as int),
{
    if c == 0 {
        Some(Tile::Snake)
    } else if c == 1 {
        Some(Tile::Food)
    } else {
        None
    }
}

/// The raw sensor readings of `game`: for each ray `i` and target `c`, the
/// distance from the head at which the ray first meets the target, `0` where it
/// meets none, at index `3 * i + c`.
pub fn input_distances(game: &Game) -> (r: Vec<usize>)
    requires
        game@.wf(),
    ensures
        sensors_of(game@, r@),
{
    let mut r: Vec<usize> = Vec::with_capacity(SENSOR_COUNT);
    let mut i: usize = 0;
    while i < 8
        invariant
            game@.wf(),
            i <= 8,
            r@.len() == 3 * i,
            forall|a: int, c: int|
                0 <= a < i && 0 <= c < 3 ==> game@.ray_result(
                    ray_target(c),
                    ray_dx(a),
                    ray_dy(a),
                    as_found(#[trigger] r@[3 * a + c]),
                ),
        decreases 8 - i,
    {
        let (dx, dy) = ray(i);
        let mut c: usize = 0;
        while c < 3
            invariant
                game@.wf(),
                i < 8,
                dx == ray_dx(i as int),
                dy == ray_dy(i as int),
                c <= 3,
                r@.len() == 3 * i + c,
                forall|a: int, c2: int|
                    0 <= a < i && 0 <= c2 < 3 ==> game@.ray_result(
                        ray_target(c2),
                        ray_dx(a),
                        ray_dy(a),
                        as_found(#[trigger] r@[3 * a + c2]),
                    ),
                forall|c2: int|
                    0 <= c2 < c ==> game@.ray_result(
                        ray_target(c2),
                        ray_dx(i as int),
                        ray_dy(i as int),
                        as_found(#[trigger] r@[3 * i + c2]),
                    ),
            decreases 3 - c,
        {
            let found = game.dist(target(c), dx, dy);
            let v: usize = match found {
                Some(k) => k,
                None => 0,
            };
            assert(as_found(v) == found);
            r.push(v);
            c = c + 1;
        }
        i = i + 1;
    }
    r
}

/// The position of an `f32`, given by its bit pattern, in the order of the
/// numbers: larger numbers get larger keys, and both zeros get one key.
pub open spec fn order_key(bits: u32) -> int {
    if bits > 0x8000_0000 {
        u32::MAX - bits
    } else if bits == 0x8000_0000 {
        0x8000_0000
    } else {
        bits + 0x8000_0000
    }
}

/// Index `i` holds the first largest value of `s`, in the order of `order_key`.
pub open spec fn is_first_max(s: Seq<u32>, i: int) -> bool {
    &&& 0 <= i < s.len()
    &&& forall|j: int| 0 <= j < s.len() ==> order_key(#[trigger] s[j]) <= order_key(s[i])
    &&& forall|j: int| 0 <= j < i ==> order_key(#[trigger] s[j]) < order_key(s[i])
}

/// The action that output `i` of a network stands for.
pub open spec fn direction_of(i: int) -> Direction {
    if i == 0 {
        Direction::Up
    } else if i == 1 {
        Direction::Down
    } else if i == 2 {
        Direction::Left
    } else {
        Direction::Right
    }
}

/// The first largest entry is one place: `decode` leaves no choice open.
pub proof fn law_first_max_unique(s: Seq<u32>, i: int, j: int)
    requires
        is_first_max(s, i),
        is_first_max(s, j),
    ensures
        i == j,
{
    if i < j {
        assert(order_key(s[i]) < order_key(s[j]));
    } else if j < i {
        assert(order_key(s[j]) < order_key(s[i]));
    }
}

/// An entry larger than every other is the one that `decode` picks, so that a
/// one-hot vector of preferences decodes to the action of its hot entry.
pub proof fn law_strict_max_decides(s: Seq<u32>, i: int, j: int)
    requires
        s.len() == 4,
        0 <= i < 4,
        forall|k: int| 0 <= k < 4 && k != i ==> order_key(#[trigger] s[k]) < order_key(s[i]),
        is_first_max(s, j),
    ensures
        direction_of(j) == direction_of(i),
{
    if j != i {
        assert(order_key(s[j]) < order_key(s[i]));
    }
}

fn float_key(bits: u32) -> (r: u32)
    ensures
        r == order_key(bits),
{
    if bits > 0x8000_0000 {
        u32::MAX - bits
    } else if bits == 0x8000_0000 {
        0x8000_0000
    } else {
        bits + 0x8000_0000
    }
}

/// The action chosen by four action preferences, given as `f32` bit patterns in
/// the order Up, Down, Left, Right: the largest wins, the first of equal ones.
/// NaN patterns are ordered too: the caller keeps them out.
pub fn decode(outputs: &Vec<u32>) -> (r: Direction)
    requires
        outputs@.len() == 4,
    ensures
        exists|i: int| is_first_max(outputs@, i) && r == direction_of(i),
{
    let mut best: usize = 0;
    let mut best_key = float_key(outputs[0]);
    let mut i: usize = 1;
    while i < 4
        invariant
            outputs@.len() == 4,
            1 <= i <= 4,
            best < i,
            best_key == order_key(outputs@[best as int]),
            forall|j: int| 0 <= j < i ==> order_key(#[trigger] outputs@[j]) <= best_key,
            forall|j: int| 0 <= j < best ==> order_key(#[trigger] outputs@[j]) < best_key,
        decreases 4 - i,
    {
        let key = float_key(outputs[i]);
        if key > best_key {
            best = i;
            best_key = key;
        }
        i = i + 1;
    }
    assert(is_first_max(outputs@, best as int));
    let r = if best == 0 {
        Direction::Up
    } else if best == 1 {
        Direction::Down
    } else if best == 2 {
        Direction::Left
    } else {
        Direction::Right
    };
    assert(r == direction_of(best as int));
    r
}

} // verus!
