use crate::board::{cell_index, Board, Tile};
use crate::chance::random_below;
use std::collections::VecDeque;
use vstd::prelude::*;

verus! {

broadcast use vstd::std_specs::vecdeque::group_vec_dequeue_axioms;

/// A heading of the snake.
#[derive(Clone, Copy, Debug, PartialEq, Eq, Structural)]
pub enum Direction {
    Up,
    Down,
    Left,
    Right,
}

impl Direction {
    /// The horizontal part of a unit step in this direction.
    pub open spec fn step_x(self) -> int {
        match self {
            Direction::Left => -1,
            Direction::Right => 1,
            _ => 0,
        }
    }

    /// The vertical part of a unit step in this direction (`Up` is `+1`).
    pub open spec fn step_y(self) -> int {
        match self {
            Direction::Up => 1,
            Direction::Down => -1,
            _ => 0,
        }
    }

    /// The unit step `(dx, dy)` of this direction.
    pub fn delta(&self) -> (r: (isize, isize))
        ensures
            r.0 == self.step_x(),
            r.1 == self.step_y(),
    {
        match self {
            Direction::Up => (0, 1),
            Direction::Down => (0, -1),
            Direction::Left => (-1, 0),
            Direction::Right => (1, 0),
        }
    }
}

/// What a step of the simulation came to.
#[derive(Clone, Copy, Debug, PartialEq, Eq, Structural)]
pub enum StepResult {
    Alive,
    Died,
}

/// `p` moved `k` steps of `d` along an axis.
pub open spec fn offset(p: int, d: int, k: int) -> int {
    p + d * k
}

/// The abstract state of a game.
pub struct GameView {
    pub width: usize,
    pub height: usize,
    /// Tail first, head last.
    pub snake: Seq<(usize, usize)>,
    pub food: (usize, usize),
    pub direction: Direction,
}

impl GameView {
    pub open spec fn in_grid(self, x: int, y: int) -> bool {
        0 <= x < self.width && 0 <= y < self.height
    }

    /// The snake is non-empty, in the grid and never crosses itself; the food is
    /// in the grid; the grid is non-empty.
    pub open spec fn wf(self) -> bool {
        &&& 0 < self.width
        &&& 0 < self.height
        &&& self.snake.len() >= 1
        &&& forall|i: int|
            0 <= i < self.snake.len() ==> self.in_grid(
                (#[trigger] self.snake[i]).0 as int,
                self.snake[i].1 as int,
            )
        &&& forall|i: int, j: int|
            0 <= i < j < self.snake.len() ==> #[trigger] self.snake[i] != #[trigger] self.snake[j]
        &&& self.in_grid(self.food.0 as int, self.food.1 as int)
    }

    pub open spec fn head(self) -> (usize, usize) {
        self.snake.last()
    }

    pub open spec fn score(self) -> nat {
        self.snake.len()
    }

    /// What the cell `(x, y)` holds; `None` outside the grid. A snake segment
    /// hides food lying under it.
    pub open spec fn tile_at(self, x: int, y: int) -> Option<Tile> {
        if !self.in_grid(x, y) {
            None
        } else if self.snake.contains((x as usize, y as usize)) {
            Some(Tile::Snake)
        } else if self.food == (x as usize, y as usize) {
            Some(Tile::Food)
        } else {
            Some(Tile::Empty)
        }
    }

    /// The cell that the head moves into on the next step.
    pub open spec fn target(self) -> (int, int) {
        (
            offset(self.head().0 as int, self.direction.step_x(), 1),
            offset(self.head().1 as int, self.direction.step_y(), 1),
        )
    }

    pub open spec fn target_tile(self) -> Option<Tile> {
        self.tile_at(self.target().0, self.target().1)
    }

    /// The next step leaves the grid or runs into the snake.
    pub open spec fn outcome(self) -> StepResult {
        match self.target_tile() {
            Some(Tile::Empty) | Some(Tile::Food) => StepResult::Alive,
            _ => StepResult::Died,
        }
    }

    /// The next step moves onto the food.
    pub open spec fn eats(self) -> bool {
        self.target_tile() == Some(Tile::Food)
    }

    /// The snake after a step that does not kill it: the head moves on, and the
    /// tail follows unless the food was eaten.
    pub open spec fn advanced_snake(self) -> Seq<(usize, usize)> {
        let t = (self.target().0 as usize, self.target().1 as usize);
        if self.eats() {
            self.snake.push(t)
        } else {
            self.snake.drop_first().push(t)
        }
    }

    /// The state after one step, where `new_food` is where eaten food reappears.
    pub open spec fn stepped(self, new_food: (usize, usize)) -> GameView {
        if self.outcome() == StepResult::Died {
            self
        } else {
            GameView {
                width: self.width,
                height: self.height,
                snake: self.advanced_snake(),
                food: if self.eats() {
                    new_food
                } else {
                    self.food
                },
                direction: self.direction,
            }
        }
    }

    /// The cell `k` steps from the head along `(dx, dy)`.
    pub open spec fn ray_tile(self, dx: int, dy: int, k: int) -> Option<Tile> {
        self.tile_at(offset(self.head().0 as int, dx, k), offset(self.head().1 as int, dy, k))
    }

    /// `r` is the answer to a ray cast from the head along `(dx, dy)` for `search`:
    /// the first distance at which the ray meets it, or `None` when it never
    /// does. Searching for `None` finds the first cell beyond the grid.
    pub open spec fn ray_result(self, search: Option<Tile>, dx: int, dy: int, r: Option<usize>) -> bool {
        match r {
            Some(k) => {
                &&& 1 <= k
                &&& self.ray_tile(dx, dy, k as int) == search
                &&& forall|j: int| 1 <= j < k ==> self.ray_tile(dx, dy, j) != search
            },
            None => {
                &&& search.is_some()
                &&& forall|j: int| 1 <= j ==> self.ray_tile(dx, dy, j) != search
            },
        }
    }

    /// What a snapshot shows at `(x, y)`: the food is drawn over the snake.
    pub open spec fn board_tile(self, x: int, y: int) -> Tile {
        if self.food == (x as usize, y as usize) {
            Tile::Food
        } else if self.snake.contains((x as usize, y as usize)) {
            Tile::Snake
        } else {
            Tile::Empty
        }
    }
}

/// A snake on a `width * height` grid, with one piece of food.
pub struct Game {
    width: usize,
    height: usize,
    snake: VecDeque<(usize, usize)>,
    food: (usize, usize),
    direction: Direction,
}

impl View for Game {
    type V = GameView;

    closed spec fn view(&self) -> GameView {
        GameView {
            width: self.width,
            height: self.height,
            snake: self.snake@,
            food: self.food,
            direction: self.direction,
        }
    }
}

impl Game {
    /// A game on a `width * height` grid: a one-segment snake at the centre,
    /// heading right, with the food at `food`.
    pub fn with_food(width: usize, height: usize, food: (usize, usize)) -> (r: Game)
        requires
            0 < width,
            0 < height,
            food.0 < width,
            food.1 < height,
        ensures
            r@ == (GameView {
                width,
                height,
                snake: seq![(width / 2, height / 2)],
                food,
                direction: Direction::Right,
            }),
            r@.wf(),
    {
        let mut snake: VecDeque<(usize, usize)> = VecDeque::new();
        snake.push_back((width / 2, height / 2));
        let r = Game { width, height, snake, food, direction: Direction::Right };
        assert(r@.snake =~= seq![(width / 2, height / 2)]);
        r
    }

    /// A game on a `width * height` grid: a one-segment snake at the centre,
    /// heading right, with the food on a random cell (possibly under the snake).
    pub fn new(width: usize, height: usize) -> (r: Game)
        requires
            0 < width,
            0 < height,
        ensures
            r@.width == width,
            r@.height == height,
            r@.snake == seq![(width / 2, height / 2)],
            r@.direction == Direction::Right,
            r@.food.0 < width,
            r@.food.1 < height,
            r@.score() == 1,
            r@.wf(),
    {
        let food = (random_below(width), random_below(height));
        Game::with_food(width, height, food)
    }

    pub fn width(&self) -> (r: usize)
        ensures
            r == self@.width,
    {
        self.width
    }

    pub fn height(&self) -> (r: usize)
        ensures
            r == self@.height,
    {
        self.height
    }

    pub fn food(&self) -> (r: (usize, usize))
        ensures
            r == self@.food,
    {
        self.food
    }

    pub fn direction(&self) -> (r: Direction)
        ensures
            r == self@.direction,
    {
        self.direction
    }

    /// Turns the snake; any heading is taken, a reversal included.
    pub fn set_direction(&mut self, direction: Direction)
        ensures
            final(self)@ == (GameView { direction, ..old(self)@ }),
    {
        self.direction = direction;
    }

    /// The length of the snake.
    pub fn score(&self) -> (r: usize)
        ensures
            r == self@.score(),
    {
        self.snake.len()
    }

    /// The cell of the head.
    pub fn head(&self) -> (r: (usize, usize))
        requires
            self@.wf(),
        ensures
            r == self@.head(),
    {
        self.snake[self.snake.len() - 1]
    }

    /// Whether a segment of the snake lies on `(x, y)`.
    fn occupied(&self, x: usize, y: usize) -> (r: bool)
        ensures
            r == self@.snake.contains((x, y)),
    {
        let n = self.snake.len();
        let mut i: usize = 0;
        while i < n
            invariant
                n == self@.snake.len(),
                i <= n,
                forall|j: int| 0 <= j < i ==> self@.snake[j] != (x, y),
            decreases n - i,
        {
            let (sx, sy) = self.snake[i];
            if sx == x && sy == y {
                return true;
            }
            i = i + 1;
        }
        false
    }

    /// What the in-grid cell `(x, y)` holds.
    fn tile(&self, x: usize, y: usize) -> (r: Tile)
        requires
            x < self@.width,
            y < self@.height,
        ensures
            self@.tile_at(x as int, y as int) == Some(r),
    {
        if self.occupied(x, y) {
            Tile::Snake
        } else if self.food.0 == x && self.food.1 == y {
            Tile::Food
        } else {
            Tile::Empty
        }
    }

    /// Casts a ray from the head in steps of `(dx, dy)` and returns the first
    /// number of steps at which the cell is `search`; `search == None` finds the
    /// first cell beyond the grid, and a search for a tile that meets the edge
    /// first gives `None`.
    pub fn dist(&self, search: Option<Tile>, dx: isize, dy: isize) -> (r: Option<usize>)
        requires
            self@.wf(),
            dx != 0 || dy != 0,
        ensures
            self@.ray_result(search, dx as int, dy as int, r),
    {
        let (hx, hy) = self.head();
        let mut k: usize = 1;
        loop
            invariant
                self@.wf(),
                (hx, hy) == self@.head(),
                dx != 0 || dy != 0,
                1 <= k <= self@.width + self@.height,
                forall|j: int| 1 <= j < k ==> self@.ray_tile(dx as int, dy as int, j) != search,
                forall|j: int| 1 <= j < k ==> self@.ray_tile(dx as int, dy as int, j).is_some(),
            decreases self@.width + self@.height - k,
        {
            let cell = match (shifted(hx, dx, k, self.width), shifted(hy, dy, k, self.height)) {
                (Some(x), Some(y)) => Some(self.tile(x, y)),
                _ => None,
            };
            assert(cell == self@.ray_tile(dx as int, dy as int, k as int));
            match cell {
                None => {
                    proof {
                        self.lemma_beyond_edge(dx as int, dy as int, k as int);
                    }
                    match search {
                        Some(_) => {
                            return None;
                        },
                        None => {
                            return Some(k);
                        },
                    }
                },
                Some(t) => {
                    if same_tile(search, t) {
                        return Some(k);
                    }
                },
            }
            proof {
                lemma_in_grid_bounds_steps(hx as int, dx as int, k as int, self@.width as int);
                lemma_in_grid_bounds_steps(hy as int, dy as int, k as int, self@.height as int);
            }
            assert(k < self@.width || k < self@.height);
            k = k + 1;
        }
    }

    /// Once a ray has left the grid it stays outside.
    proof fn lemma_beyond_edge(&self, dx: int, dy: int, k: int)
        requires
            self@.wf(),
            1 <= k,
            self@.ray_tile(dx, dy, k).is_none(),
        ensures
            forall|j: int| k <= j ==> self@.ray_tile(dx, dy, j).is_none(),
    {
        let h = self@.head();
        assert(self@.in_grid(h.0 as int, h.1 as int)) by {
            assert(self@.snake[self@.snake.len() - 1] == h);
        }
        let x = offset(h.0 as int, dx, k);
        assert forall|j: int| k <= j implies self@.ray_tile(dx, dy, j).is_none() by {
            if x < 0 || x >= self@.width {
                lemma_leaves_for_good(h.0 as int, dx, k, j, self@.width as int);
            } else {
                lemma_leaves_for_good(h.1 as int, dy, k, j, self@.height as int);
            }
        }
    }

    /// Moves the snake one step, with `new_food` as the place where eaten food
    /// reappears.
    pub fn step_with_food(&mut self, new_food: (usize, usize)) -> (r: StepResult)
        requires
            old(self)@.wf(),
            old(self)@.in_grid(new_food.0 as int, new_food.1 as int),
        ensures
            r == old(self)@.outcome(),
            final(self)@ == old(self)@.stepped(new_food),
            final(self)@.wf(),
    {
        let (hx, hy) = self.head();
        let (dx, dy) = self.direction.delta();
        let ghost before = self@;
        match (shifted(hx, dx, 1, self.width), shifted(hy, dy, 1, self.height)) {
            (Some(x), Some(y)) => {
                assert(before.target() == (x as int, y as int));
                match self.tile(x, y) {
                    Tile::Snake => StepResult::Died,
                    Tile::Food => {
                        self.food = new_food;
                        self.snake.push_back((x, y));
                        proof {
                            lemma_push_fresh(before.snake, (x, y));
                        }
                        StepResult::Alive
                    },
                    Tile::Empty => {
                        self.snake.pop_front();
                        proof {
                            lemma_push_fresh(before.snake.drop_first(), (x, y));
                            assert(self@.snake.push((x, y)) =~= before.advanced_snake());
                        }
                        self.snake.push_back((x, y));
                        StepResult::Alive
                    },
                }
            },
            _ => StepResult::Died,
        }
    }

    /// Moves the snake one step; eaten food reappears on a random cell, which
    /// may lie under the snake.
    pub fn step(&mut self) -> (r: StepResult)
        requires
            old(self)@.wf(),
        ensures
            r == old(self)@.outcome(),
            final(self)@.wf(),
            final(self)@ == old(self)@.stepped(final(self)@.food),
            !(r == StepResult::Alive && old(self)@.eats()) ==> final(self)@ == old(self)@.stepped(
                old(self)@.food,
            ),
            r == StepResult::Died ==> final(self)@ == old(self)@,
            r == StepResult::Alive && old(self)@.eats() ==> final(self)@.score() == old(self)@.score() + 1,
            !(r == StepResult::Alive && old(self)@.eats()) ==> final(self)@.score() == old(self)@.score(),
    {
        let new_food = (random_below(self.width), random_below(self.height));
        self.step_with_food(new_food)
    }

    /// A snapshot of the grid: the food over the snake over empty cells. The
    /// grid's cells must be countable in a `usize`.
    pub fn board(&self) -> (r: Board)
        requires
            self@.wf(),
            self@.width * self@.height <= usize::MAX,
        ensures
            r.width == self@.width,
            r.tiles@.len() == self@.width * self@.height,
            forall|x: int, y: int|
                0 <= x < self@.width && 0 <= y < self@.height ==> r.tiles@[cell_index(
                    self@.width as int,
                    x,
                    y,
                )] == self@.board_tile(x, y),
    {
        let w = self.width;
        let h = self.height;
        let mut board = Board::fill(Tile::Empty, w, h);
        let n = self.snake.len();
        let mut i: usize = 0;
        proof {
            assert forall|x: int, y: int| 0 <= x < w && 0 <= y < h implies board.tiles@[cell_index(w as int, x, y)] == Tile::Empty
                && !self@.snake.subrange(0, 0).contains((x as usize, y as usize)) by {
                lemma_cell_index_in_range(w as int, h as int, x, y);
            }
        }
        while i < n
            invariant
                self@.wf(),
                w == self@.width,
                h == self@.height,
                w * h <= usize::MAX,
                n == self@.snake.len(),
                i <= n,
                board.width == w,
                board.tiles@.len() == w * h,
                forall|x: int, y: int|
                    0 <= x < w && 0 <= y < h ==> board.tiles@[cell_index(w as int, x, y)] == if self@.snake.subrange(0, i as int).contains((x as usize, y as usize)) {
                        Tile::Snake
                    } else {
                        Tile::Empty
                    },
            decreases n - i,
        {
            let (x, y) = self.snake[i];
            proof {
                assert(self@.in_grid(self@.snake[i as int].0 as int, self@.snake[i as int].1 as int));
                lemma_cell_index_in_range(w as int, h as int, x as int, y as int);
            }
            board.tiles.set(y * w + x, Tile::Snake);
            proof {
                assert forall|a: int, b: int| 0 <= a < w && 0 <= b < h implies board.tiles@[cell_index(w as int, a, b)] == if self@.snake.subrange(0, i + 1).contains((a as usize, b as usize)) {
                    Tile::Snake
                } else {
                    Tile::Empty
                } by {
                    lemma_cell_index_in_range(w as int, h as int, a, b);
                    lemma_cell_index_injective(w as int, h as int, a, b, x as int, y as int);
                    let s = self@.snake.subrange(0, i + 1);
                    assert(s =~= self@.snake.subrange(0, i as int).push((x, y)));
                    if s.contains((a as usize, b as usize)) && (a, b) != (x as int, y as int) {
                        let j = choose|j: int| 0 <= j < s.len() && s[j] == (a as usize, b as usize);
                        assert(self@.snake.subrange(0, i as int)[j] == (a as usize, b as usize));
                    }
                    if (a, b) == (x as int, y as int) {
                        assert(s[i as int] == (x, y));
                    }
                }
            }
            i = i + 1;
        }
        let (fx, fy) = self.food;
        proof {
            lemma_cell_index_in_range(w as int, h as int, fx as int, fy as int);
        }
        board.tiles.set(fy * w + fx, Tile::Food);
        proof {
            assert(self@.snake.subrange(0, n as int) =~= self@.snake);
            assert forall|a: int, b: int| 0 <= a < w && 0 <= b < h implies board.tiles@[cell_index(w as int, a, b)] == self@.board_tile(a, b) by {
                lemma_cell_index_in_range(w as int, h as int, a, b);
                lemma_cell_index_injective(w as int, h as int, a, b, fx as int, fy as int);
            }
        }
        board
    }
}

/// `t` matches the searched-for tile `search`.
fn same_tile(search: Option<Tile>, t: Tile) -> (r: bool)
    ensures
        r == (search == Some(t)),
{
    match search {
        Some(s) => s == t,
        None => false,
    }
}

/// Pushing a cell that the sequence lacks keeps its elements distinct.
proof fn lemma_push_fresh(s: Seq<(usize, usize)>, c: (usize, usize))
    requires
        forall|i: int, j: int| 0 <= i < j < s.len() ==> #[trigger] s[i] != #[trigger] s[j],
        !s.contains(c),
    ensures
        forall|i: int, j: int|
            0 <= i < j < s.push(c).len() ==> #[trigger] s.push(c)[i] != #[trigger] s.push(c)[j],
{
    assert forall|i: int, j: int| 0 <= i < j < s.push(c).len() implies #[trigger] s.push(c)[i]
        != #[trigger] s.push(c)[j] by {
        if j == s.len() {
            assert(s[i] == s.push(c)[i]);
        }
    }
}

proof fn lemma_cell_index_in_range(w: int, h: int, x: int, y: int)
    requires
        0 <= x < w,
        0 <= y < h,
    ensures
        0 <= cell_index(w, x, y) < w * h,
{
    assert(0 <= y * w + x < w * h) by (nonlinear_arith)
        requires
            0 <= x < w,
            0 <= y < h,
    ;
}

proof fn lemma_cell_index_injective(w: int, h: int, x: int, y: int, a: int, b: int)
    requires
        0 <= x < w,
        0 <= y < h,
        0 <= a < w,
        0 <= b < h,
    ensures
        cell_index(w, x, y) == cell_index(w, a, b) <==> (x == a && y == b),
{
    if cell_index(w, x, y) == cell_index(w, a, b) {
        assert(y == b) by (nonlinear_arith)
            requires
                y * w + x == b * w + a,
                0 <= x < w,
                0 <= a < w,
        ;
    }
}

/// The state after `k` steps in which eaten food would reappear where it was.
pub open spec fn advance(g: GameView, k: nat) -> GameView
    decreases k,
{
    if k == 0 {
        g
    } else {
        let p = advance(g, (k - 1) as nat);
        p.stepped(p.food)
    }
}

/// The cell `j` steps straight ahead of the head.
pub open spec fn ahead(g: GameView, j: int) -> (int, int) {
    (
        offset(g.head().0 as int, g.direction.step_x(), j),
        offset(g.head().1 as int, g.direction.step_y(), j),
    )
}

/// How many cells lie between the head and the edge of the grid straight ahead.
pub open spec fn wall_distance(g: GameView) -> int {
    match g.direction {
        Direction::Right => g.width - 1 - g.head().0,
        Direction::Left => g.head().0 as int,
        Direction::Up => g.height - 1 - g.head().1,
        Direction::Down => g.head().1 as int,
    }
}

/// No food lies on the cells between the head and the wall straight ahead.
pub open spec fn clear_ahead(g: GameView) -> bool {
    forall|j: int|
        1 <= j <= wall_distance(g) ==> #[trigger] ahead(g, j) != (g.food.0 as int, g.food.1 as int)
}

proof fn lemma_ahead_steps(g: GameView, j: int)
    ensures
        ahead(g, j + 1) == (ahead(g, j).0 + g.direction.step_x(), ahead(g, j).1
            + g.direction.step_y()),
        ahead(g, 0) == (g.head().0 as int, g.head().1 as int),
        0 <= j <= wall_distance(g) ==> g.in_grid(ahead(g, j).0, ahead(g, j).1) || !g.in_grid(
            g.head().0 as int,
            g.head().1 as int,
        ),
        j == wall_distance(g) + 1 ==> !g.in_grid(ahead(g, j).0, ahead(g, j).1),
{
    let (x, y) = (g.head().0 as int, g.head().1 as int);
    let (sx, sy) = (g.direction.step_x(), g.direction.step_y());
    assert(sx * (j + 1) == sx * j + sx) by (nonlinear_arith);
    assert(sy * (j + 1) == sy * j + sy) by (nonlinear_arith);
    assert(sx * 0 == 0 && sy * 0 == 0) by (nonlinear_arith);
    match g.direction {
        Direction::Right => {
            assert(sx * j == j && sy * j == 0) by (nonlinear_arith)
                requires
                    sx == 1,
                    sy == 0,
            ;
        },
        Direction::Left => {
            assert(sx * j == -j && sy * j == 0) by (nonlinear_arith)
                requires
                    sx == -1,
                    sy == 0,
            ;
        },
        Direction::Up => {
            assert(sx * j == 0 && sy * j == j) by (nonlinear_arith)
                requires
                    sx == 0,
                    sy == 1,
            ;
        },
        Direction::Down => {
            assert(sx * j == 0 && sy * j == -j) by (nonlinear_arith)
                requires
                    sx == 0,
                    sy == -1,
            ;
        },
    }
}

/// `ahead` written out for each heading.
pub proof fn lemma_ahead_formula(g: GameView, j: int)
    ensures
        g.direction == Direction::Right ==> ahead(g, j) == (g.head().0 + j, g.head().1 as int),
        g.direction == Direction::Left ==> ahead(g, j) == (g.head().0 - j, g.head().1 as int),
        g.direction == Direction::Up ==> ahead(g, j) == (g.head().0 as int, g.head().1 + j),
        g.direction == Direction::Down ==> ahead(g, j) == (g.head().0 as int, g.head().1 - j),
{
    let (sx, sy) = (g.direction.step_x(), g.direction.step_y());
    if sx == -1 {
        assert(sx * j == -j) by (nonlinear_arith)
            requires
                sx == -1,
        ;
    } else if sx == 1 {
        assert(sx * j == j) by (nonlinear_arith)
            requires
                sx == 1,
        ;
    } else {
        assert(sx * j == 0) by (nonlinear_arith)
            requires
                sx == 0,
        ;
    }
    if sy == -1 {
        assert(sy * j == -j) by (nonlinear_arith)
            requires
                sy == -1,
        ;
    } else if sy == 1 {
        assert(sy * j == j) by (nonlinear_arith)
            requires
                sy == 1,
        ;
    } else {
        assert(sy * j == 0) by (nonlinear_arith)
            requires
                sy == 0,
        ;
    }
}

/// `s` is a straight line of cells along the heading of `g` whose last cell is
/// `ahead(g, i)`: its cell `m` is `ahead(g, i - (s.len() - 1) + m)`.
pub open spec fn straight_behind(g: GameView, s: Seq<(usize, usize)>, i: int) -> bool {
    &&& 1 <= s.len() <= i + 1
    &&& forall|m: int|
        0 <= m < s.len() ==> (#[trigger] s[m]).0 as int == ahead(g, i - s.len() + 1 + m).0
            && s[m].1 as int == ahead(g, i - s.len() + 1 + m).1
}

/// `q` is `g` after `i` straight steps: same grid and heading, and a snake laid
/// straight behind the cell `ahead(g, i)`.
pub open spec fn straight_after(g: GameView, q: GameView, i: int) -> bool {
    &&& q.width == g.width
    &&& q.height == g.height
    &&& q.direction == g.direction
    &&& straight_behind(g, q.snake, i)
}

/// A snake laid straight along its heading either steps on into the next cell
/// ahead, staying straight whether or not it eats, or, beside the wall, dies.
pub proof fn lemma_straight_step(g: GameView, q: GameView, i: int, f: (usize, usize))
    requires
        g.wf(),
        0 <= i <= wall_distance(g),
        straight_after(g, q, i),
    ensures
        q.head() == (ahead(g, i).0 as usize, ahead(g, i).1 as usize),
        i < wall_distance(g) ==> q.outcome() == StepResult::Alive && straight_after(
            g,
            q.stepped(f),
            i + 1,
        ),
        i == wall_distance(g) ==> q.outcome() == StepResult::Died && q.stepped(f) == q,
{
    let h = g.head();
    assert(g.in_grid(h.0 as int, h.1 as int)) by {
        assert(g.snake[g.snake.len() - 1] == h);
    }
    let s = q.snake;
    let n = s.len() as int;
    lemma_ahead_steps(g, i);
    lemma_ahead_steps(g, i + 1);
    lemma_ahead_formula(g, i);
    lemma_ahead_formula(g, i + 1);
    assert(q.head() == (ahead(g, i).0 as usize, ahead(g, i).1 as usize)) by {
        assert(s[n - 1].0 as int == ahead(g, i).0);
        assert(s[n - 1].1 as int == ahead(g, i).1);
    }
    let t = ahead(g, i + 1);
    assert(q.target() == t);
    if i < wall_distance(g) {
        let c = (t.0 as usize, t.1 as usize);
        assert(!s.contains(c)) by {
            if s.contains(c) {
                let m = choose|m: int| 0 <= m < s.len() && s[m] == c;
                lemma_ahead_formula(g, i - n + 1 + m);
            }
        }
        let a = q.advanced_snake();
        let st = q.stepped(f);
        assert(st.snake == a);
        if q.eats() {
            assert forall|m: int| 0 <= m < a.len() implies (#[trigger] a[m]).0 as int == ahead(
                g,
                i + 1 - a.len() + 1 + m,
            ).0 && a[m].1 as int == ahead(g, i + 1 - a.len() + 1 + m).1 by {
                if m < n {
                    assert(a[m] == s[m]);
                }
            }
        } else {
            assert forall|m: int| 0 <= m < a.len() implies (#[trigger] a[m]).0 as int == ahead(
                g,
                i + 1 - a.len() + 1 + m,
            ).0 && a[m].1 as int == ahead(g, i + 1 - a.len() + 1 + m).1 by {
                if m < n - 1 {
                    assert(a[m] == s[m + 1]);
                }
            }
        }
    } else {
        assert(!q.in_grid(t.0, t.1));
    }
}

/// A one-segment snake that keeps its heading, with no food between it and
/// the wall ahead, moves one cell straight ahead per step while cells remain
/// before the edge, and dies on the step after: it survives exactly
/// `wall_distance(g)` steps, and its score stays 1.
pub proof fn law_straight_run_to_wall(g: GameView, k: nat)
    requires
        g.wf(),
        g.snake.len() == 1,
        clear_ahead(g),
        k <= wall_distance(g),
    ensures
        advance(g, k).snake == seq![(ahead(g, k as int).0 as usize, ahead(g, k as int).1 as usize)],
        advance(g, k).food == g.food,
        advance(g, k).direction == g.direction,
        advance(g, k).width == g.width,
        advance(g, k).height == g.height,
        advance(g, k).score() == 1,
        advance(g, k).target() == ahead(g, k + 1 as int),
        !advance(g, k).eats(),
        k < wall_distance(g) ==> advance(g, k).outcome() == StepResult::Alive,
        k == wall_distance(g) ==> advance(g, k).outcome() == StepResult::Died,
    decreases k,
{
    let h = g.head();
    assert(g.in_grid(h.0 as int, h.1 as int)) by {
        assert(g.snake[g.snake.len() - 1] == h);
    }
    lemma_ahead_steps(g, k as int);
    lemma_ahead_steps(g, k + 1 as int);
    if k > 0 {
        law_straight_run_to_wall(g, (k - 1) as nat);
        lemma_ahead_steps(g, k - 1);
        let p = advance(g, (k - 1) as nat);
        let c = (ahead(g, k as int).0 as usize, ahead(g, k as int).1 as usize);
        assert(p.head() == (ahead(g, k - 1).0 as usize, ahead(g, k - 1).1 as usize));
        assert(!p.snake.contains(c)) by {
            if p.snake.contains(c) {
                assert(p.snake[0] == c);
            }
        }
        assert(p.advanced_snake() =~= seq![c]);
    } else {
        assert(g.snake =~= seq![(ahead(g, 0).0 as usize, ahead(g, 0).1 as usize)]) by {
            assert(g.snake[0] == h);
        }
    }
    let q = advance(g, k);
    let t = ahead(g, k + 1 as int);
    assert(q.head() == (ahead(g, k as int).0 as usize, ahead(g, k as int).1 as usize));
    assert(q.target() == t);
    if k < wall_distance(g) {
        assert(!q.snake.contains((t.0 as usize, t.1 as usize))) by {
            if q.snake.contains((t.0 as usize, t.1 as usize)) {
                assert(q.snake[0] == (t.0 as usize, t.1 as usize));
            }
        }
        assert(t != (g.food.0 as int, g.food.1 as int));
        assert(q.target_tile() == Some(Tile::Empty));
    } else {
        assert(!q.in_grid(t.0, t.1));
    }
}

/// `p` moved `k` steps of `d`, when that stays in `[0, n)`.
fn shifted(p: usize, d: isize, k: usize, n: usize) -> (r: Option<usize>)
    requires
        p < n,
    ensures
        match r {
            Some(v) => v == offset(p as int, d as int, k as int) && v < n,
            None => {
                ||| offset(p as int, d as int, k as int) < 0
                ||| offset(p as int, d as int, k as int) >= n
            },
        },
{
    if d > 0 {
        let step = d as usize;
        let room = (n - 1 - p) / step;
        proof {
            lemma_steps_within((n - 1 - p) as int, step as int, k as int);
        }
        if k <= room {
            assert(step * k == d * k);
            Some(p + step * k)
        } else {
            None
        }
    } else if d < 0 {
        let step = (-(d + 1)) as usize + 1;
        let room = p / step;
        proof {
            lemma_steps_within(p as int, step as int, k as int);
        }
        if k <= room {
            assert(p - step * k == p + d * k) by (nonlinear_arith)
                requires
                    step == -d,
            ;
            Some(p - step * k)
        } else {
            assert(p + d * k == p - step * k) by (nonlinear_arith)
                requires
                    step == -d,
            ;
            None
        }
    } else {
        Some(p)
    }
}

/// `k` steps of `s` fit in `a` exactly when `k` is at most `a / s`.
proof fn lemma_steps_within(a: int, s: int, k: int)
    requires
        a >= 0,
        s > 0,
        k >= 0,
    ensures
        (k <= a / s) <==> (s * k <= a),
        0 <= s * k,
{
    vstd::arithmetic::div_mod::lemma_fundamental_div_mod(a, s);
    let q = a / s;
    assert(0 <= a % s < s) by {
        vstd::arithmetic::div_mod::lemma_mod_pos_bound(a, s);
    }
    if k <= q {
        assert(s * k <= s * q) by (nonlinear_arith)
            requires
                k <= q,
                s > 0,
        ;
    } else {
        assert(s * k >= s * q + s) by (nonlinear_arith)
            requires
                k >= q + 1,
                s > 0,
        ;
    }
    assert(0 <= s * k) by (nonlinear_arith)
        requires
            s > 0,
            k >= 0,
    ;
}

/// A ray coordinate that has left `[0, n)` stays out for every later step.
proof fn lemma_leaves_for_good(p: int, d: int, k: int, j: int, n: int)
    requires
        0 <= p < n,
        1 <= k <= j,
        offset(p, d, k) < 0 || offset(p, d, k) >= n,
    ensures
        offset(p, d, j) < 0 || offset(p, d, j) >= n,
{
    if d > 0 {
        assert(d * j >= d * k && d * k >= 0) by (nonlinear_arith)
            requires
                d > 0,
                1 <= k <= j,
        ;
    } else if d < 0 {
        assert(d * j <= d * k && d * k <= 0) by (nonlinear_arith)
            requires
                d < 0,
                1 <= k <= j,
        ;
    } else {
        assert(d * k == 0 && d * j == 0) by (nonlinear_arith)
            requires
                d == 0,
        ;
    }
}

/// A coordinate that stays in `[0, n)` after `k` steps of a non-zero `d` has
/// `k < n`.
proof fn lemma_in_grid_bounds_steps(p: int, d: int, k: int, n: int)
    requires
        0 <= p < n,
        k >= 1,
    ensures
        d != 0 && 0 <= offset(p, d, k) < n ==> k < n,
{
    if d > 0 {
        assert(d * k >= k) by (nonlinear_arith)
            requires
                d >= 1,
                k >= 1,
        ;
    } else if d < 0 {
        assert(d * k <= -k) by (nonlinear_arith)
            requires
                d <= -1,
                k >= 1,
        ;
    }
}

} // verus!
