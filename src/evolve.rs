use crate::chance::random_below;
use crate::game::{
    ahead, lemma_ahead_formula, lemma_straight_step, straight_after, wall_distance, Direction, Game,
    GameView, StepResult,
};
use crate::sense::{input_distances, sensors_of};
use vstd::prelude::*;

verus! {

/// `g` with its heading set to `d`.
pub open spec fn turned(g: GameView, d: Direction) -> GameView {
    GameView { direction: d, ..g }
}

/// One tick from `g` to `next`: `policy` picked `d` from the sensor readings of
/// `g`, the snake turned to `d` and stepped, and eaten food reappeared somewhere.
pub open spec fn is_tick<F: Fn(Vec<usize>) -> Direction>(
    policy: F,
    g: GameView,
    d: Direction,
    next: GameView,
) -> bool {
    &&& exists|v: Vec<usize>| sensors_of(g, v@) && policy.ensures((v,), d)
    &&& exists|f: (usize, usize)| next == #[trigger] turned(g, d).stepped(f)
}

/// `trace` is a game played under `policy` with at most `max_steps` ticks,
/// `heads[i]` the heading of tick `i`: every tick but the last left the snake
/// alive, and the play ended at the step cap or at the tick that killed it.
pub open spec fn is_play<F: Fn(Vec<usize>) -> Direction>(
    policy: F,
    trace: Seq<GameView>,
    heads: Seq<Direction>,
    max_steps: nat,
) -> bool {
    &&& trace.len() == heads.len() + 1
    &&& heads.len() <= max_steps
    &&& forall|i: int|
        0 <= i < heads.len() ==> is_tick(policy, trace[i], #[trigger] heads[i], trace[i + 1])
    &&& forall|i: int|
        0 <= i < heads.len() - 1 ==> turned(trace[i], #[trigger] heads[i]).outcome()
            == StepResult::Alive
    &&& heads.len() == max_steps || (heads.len() > 0 && turned(
        trace[heads.len() - 1],
        heads.last(),
    ).outcome() == StepResult::Died)
}

/// Plays `game` for at most `max_steps` ticks: each tick `policy` reads the
/// sensor readings of `input_distances` and picks the heading, then the game
/// steps. Stops early when the snake dies. Returns the final score, which is
/// the fitness of the policy.
pub fn run_episode<F: Fn(Vec<usize>) -> Direction>(
    game: &mut Game,
    max_steps: usize,
    policy: &F,
) -> (r: usize)
    requires
        old(game)@.wf(),
        forall|v: Vec<usize>| policy.requires((v,)),
    ensures
        exists|trace: Seq<GameView>, heads: Seq<Direction>|
            {
                &&& is_play(*policy, trace, heads, max_steps as nat)
                &&& trace[0] == old(game)@
                &&& trace.last() == final(game)@
            },
        final(game)@.wf(),
        r == final(game)@.score(),
        final(game)@.width == old(game)@.width,
        final(game)@.height == old(game)@.height,
        old(game)@.score() <= r <= old(game)@.score() + max_steps,
        max_steps == 0 ==> final(game)@ == old(game)@,
{
    let ghost start = game@.score();
    let ghost mut trace: Seq<GameView> = seq![game@];
    let ghost mut heads: Seq<Direction> = Seq::empty();
    let mut t: usize = 0;
    while t < max_steps
        invariant
            game@.wf(),
            game@.width == old(game)@.width,
            game@.height == old(game)@.height,
            start == old(game)@.score(),
            t <= max_steps,
            start <= game@.score() <= start + t,
            t == 0 ==> game@ == old(game)@,
            forall|v: Vec<usize>| policy.requires((v,)),
            heads.len() == t,
            trace.len() == t + 1,
            trace[0] == old(game)@,
            trace.last() == game@,
            forall|i: int|
                0 <= i < heads.len() ==> is_tick(*policy, trace[i], #[trigger] heads[i], trace[i + 1]),
            forall|i: int|
                0 <= i < heads.len() ==> turned(trace[i], #[trigger] heads[i]).outcome()
                    == StepResult::Alive,
        decreases max_steps - t,
    {
        let ghost before = game@;
        let inputs = input_distances(game);
        let ghost seen = inputs;
        let heading = policy(inputs);
        game.set_direction(heading);
        let result = game.step();
        proof {
            assert(sensors_of(before, seen@) && policy.ensures((seen,), heading));
            assert(game@ == turned(before, heading).stepped(game@.food));
            assert(is_tick(*policy, before, heading, game@));
            let old_trace = trace;
            let old_heads = heads;
            trace = trace.push(game@);
            heads = heads.push(heading);
            assert forall|i: int| 0 <= i < heads.len() implies is_tick(
                *policy,
                trace[i],
                #[trigger] heads[i],
                trace[i + 1],
            ) by {
                if i < old_heads.len() {
                    assert(trace[i] == old_trace[i]);
                    assert(trace[i + 1] == old_trace[i + 1]);
                    assert(heads[i] == old_heads[i]);
                }
            }
            assert forall|i: int| 0 <= i < heads.len() - 1 implies turned(
                trace[i],
                #[trigger] heads[i],
            ).outcome() == StepResult::Alive by {
                assert(trace[i] == old_trace[i]);
                assert(heads[i] == old_heads[i]);
            }
        }
        match result {
            StepResult::Alive => {},
            StepResult::Died => {
                assert(is_play(*policy, trace, heads, max_steps as nat));
                return game.score();
            },
        }
        t = t + 1;
    }
    assert(is_play(*policy, trace, heads, max_steps as nat));
    game.score()
}

/// Tick `i` of a play under a policy that always answers `d`, from a
/// one-segment snake, starts from the snake laid straight behind the cell `i`
/// steps ahead of where it began, heading `d`.
proof fn lemma_constant_play_prefix<F: Fn(Vec<usize>) -> Direction>(
    policy: F,
    trace: Seq<GameView>,
    heads: Seq<Direction>,
    max_steps: nat,
    d: Direction,
    i: int,
)
    requires
        is_play(policy, trace, heads, max_steps),
        forall|v: Vec<usize>, e: Direction| policy.ensures((v,), e) ==> e == d,
        trace[0].wf(),
        trace[0].snake.len() == 1,
        0 <= i < heads.len(),
    ensures
        heads[i] == d,
        i <= wall_distance(turned(trace[0], d)),
        straight_after(turned(trace[0], d), turned(trace[i], d), i),
    decreases i,
{
    let g = turned(trace[0], d);
    assert(is_tick(policy, trace[i], heads[i], trace[i + 1]));
    let v = choose|v: Vec<usize>| sensors_of(trace[i], v@) && policy.ensures((v,), heads[i]);
    assert(heads[i] == d);
    let h = g.head();
    assert(g.in_grid(h.0 as int, h.1 as int)) by {
        assert(g.snake[g.snake.len() - 1] == h);
    }
    if i > 0 {
        lemma_constant_play_prefix(policy, trace, heads, max_steps, d, i - 1);
        let q = turned(trace[i - 1], d);
        assert(turned(trace[i - 1], heads[i - 1]).outcome() == StepResult::Alive);
        assert(is_tick(policy, trace[i - 1], heads[i - 1], trace[i]));
        let f = choose|f: (usize, usize)|
            trace[i] == #[trigger] turned(trace[i - 1], heads[i - 1]).stepped(f);
        lemma_straight_step(g, q, i - 1, f);
        assert(turned(trace[i], d) == trace[i]);
    } else {
        lemma_ahead_formula(g, 0);
        assert(g.snake[0] == h);
    }
}

/// A policy that always answers `d` drives a one-segment snake straight along
/// `d`, whatever food it eats on the way: unless the step cap comes first, the
/// play has `wall_distance + 1` ticks, the last of which kills the snake with
/// its head on the last cell before the wall. Under a cap of at most
/// `wall_distance` ticks, every tick is played and the head ends `max_steps`
/// cells ahead.
pub proof fn law_constant_policy_runs_to_wall<F: Fn(Vec<usize>) -> Direction>(
    policy: F,
    trace: Seq<GameView>,
    heads: Seq<Direction>,
    max_steps: nat,
    d: Direction,
)
    requires
        is_play(policy, trace, heads, max_steps),
        forall|v: Vec<usize>, e: Direction| policy.ensures((v,), e) ==> e == d,
        trace[0].wf(),
        trace[0].snake.len() == 1,
    ensures
        max_steps > wall_distance(turned(trace[0], d)) ==> {
            &&& heads.len() == wall_distance(turned(trace[0], d)) + 1
            &&& turned(trace[heads.len() - 1], d).outcome() == StepResult::Died
            &&& trace.last().head() == (
                ahead(turned(trace[0], d), wall_distance(turned(trace[0], d))).0 as usize,
                ahead(turned(trace[0], d), wall_distance(turned(trace[0], d))).1 as usize,
            )
        },
        max_steps <= wall_distance(turned(trace[0], d)) ==> heads.len() == max_steps,
        0 < max_steps <= wall_distance(turned(trace[0], d)) ==> trace.last().head() == (
            ahead(turned(trace[0], d), max_steps as int).0 as usize,
            ahead(turned(trace[0], d), max_steps as int).1 as usize,
        ),
{
    let g = turned(trace[0], d);
    let w = wall_distance(g);
    let n = heads.len() as int;
    if n > 0 {
        lemma_constant_play_prefix(policy, trace, heads, max_steps, d, n - 1);
        let q = turned(trace[n - 1], d);
        assert(is_tick(policy, trace[n - 1], heads[n - 1], trace[n]));
        let f = choose|f: (usize, usize)|
            trace[n] == #[trigger] turned(trace[n - 1], heads[n - 1]).stepped(f);
        lemma_straight_step(g, q, n - 1, f);
        if n - 1 < w {
            lemma_straight_step(g, q.stepped(f), n, f);
        }
    }
}

/// With a budget of no ticks nothing is played: the game ends as it began.
pub proof fn law_zero_step_budget<F: Fn(Vec<usize>) -> Direction>(
    policy: F,
    trace: Seq<GameView>,
    heads: Seq<Direction>,
)
    requires
        is_play(policy, trace, heads, 0),
    ensures
        heads.len() == 0,
        trace.last() == trace[0],
{
}

/// Index `i` holds the first largest fitness of `f`.
pub open spec fn is_best(f: Seq<usize>, i: int) -> bool {
    &&& 0 <= i < f.len()
    &&& forall|j: int| 0 <= j < f.len() ==> #[trigger] f[j] <= f[i]
    &&& forall|j: int| 0 <= j < i ==> #[trigger] f[j] < f[i]
}

/// The individual with the highest fitness; of equal ones, the first.
pub fn best_index(fitness: &Vec<usize>) -> (r: usize)
    requires
        fitness@.len() > 0,
    ensures
        is_best(fitness@, r as int),
{
    let n = fitness.len();
    let mut best: usize = 0;
    let mut i: usize = 1;
    while i < n
        invariant
            n == fitness@.len(),
            1 <= i <= n,
            best < i,
            forall|j: int| 0 <= j < i ==> #[trigger] fitness@[j] <= fitness@[best as int],
            forall|j: int| 0 <= j < best ==> #[trigger] fitness@[j] < fitness@[best as int],
        decreases n - i,
    {
        if fitness[i] > fitness[best] {
            best = i;
        }
        i = i + 1;
    }
    best
}

/// Individual `a` ranks above `b`: a higher fitness, or an equal one and an
/// earlier place in the population.
pub open spec fn ranks_before(f: Seq<usize>, a: int, b: int) -> bool {
    f[a] > f[b] || (f[a] == f[b] && a < b)
}

/// `r` lists every individual of `f` once, best first, in the order of `ranks_before`.
pub open spec fn is_ranking(f: Seq<usize>, r: Seq<usize>) -> bool {
    &&& r.len() == f.len()
    &&& forall|i: int| 0 <= i < r.len() ==> #[trigger] r[i] < f.len()
    &&& forall|i: int, j: int|
        0 <= i < j < r.len() ==> ranks_before(f, #[trigger] r[i] as int, #[trigger] r[j] as int)
}

fn ranks_above(fitness: &Vec<usize>, a: usize, b: usize) -> (r: bool)
    requires
        a < fitness@.len(),
        b < fitness@.len(),
    ensures
        r == ranks_before(fitness@, a as int, b as int),
{
    fitness[a] > fitness[b] || (fitness[a] == fitness[b] && a < b)
}

/// The population's indices from the fittest down; equal fitness keeps the
/// population's order.
pub fn rank(fitness: &Vec<usize>) -> (r: Vec<usize>)
    ensures
        is_ranking(fitness@, r@),
{
    let n = fitness.len();
    let mut r: Vec<usize> = Vec::with_capacity(n);
    let mut i: usize = 0;
    while i < n
        invariant
            n == fitness@.len(),
            i <= n,
            r@.len() == i,
            forall|k: int| 0 <= k < i ==> #[trigger] r@[k] == k,
        decreases n - i,
    {
        r.push(i);
        i = i + 1;
    }
    let mut p: usize = 0;
    while p < n
        invariant
            n == fitness@.len(),
            r@.len() == n,
            p <= n,
            forall|k: int| 0 <= k < n ==> #[trigger] r@[k] < n,
            forall|a: int, b: int| 0 <= a < b < n ==> #[trigger] r@[a] != #[trigger] r@[b],
            forall|a: int, b: int|
                0 <= a < p && a < b < n ==> ranks_before(
                    fitness@,
                    #[trigger] r@[a] as int,
                    #[trigger] r@[b] as int,
                ),
        decreases n - p,
    {
        let mut m: usize = p;
        let mut q: usize = p + 1;
        while q < n
            invariant
                n == fitness@.len(),
                r@.len() == n,
                p <= m < q <= n,
                forall|k: int| 0 <= k < n ==> #[trigger] r@[k] < n,
                forall|a: int, b: int| 0 <= a < b < n ==> #[trigger] r@[a] != #[trigger] r@[b],
                forall|k: int|
                    p <= k < q && k != m ==> ranks_before(
                        fitness@,
                        r@[m as int] as int,
                        #[trigger] r@[k] as int,
                    ),
            decreases n - q,
        {
            if ranks_above(fitness, r[q], r[m]) {
                m = q;
            }
            q = q + 1;
        }
        let ghost old_r = r@;
        let a = r[p];
        let b = r[m];
        r.set(p, b);
        r.set(m, a);
        proof {
            assert(r@ =~= old_r.update(p as int, b).update(m as int, a));
            assert forall|x: int, y: int| 0 <= x < y < n implies #[trigger] r@[x] != #[trigger] r@[y] by {
                let ox = if x == p { m as int } else if x == m { p as int } else { x };
                let oy = if y == p { m as int } else if y == m { p as int } else { y };
                assert(r@[x] == old_r[ox]);
                assert(r@[y] == old_r[oy]);
                if ox < oy {
                    assert(old_r[ox] != old_r[oy]);
                } else {
                    assert(old_r[oy] != old_r[ox]);
                }
            }
            assert forall|x: int, y: int| 0 <= x < p + 1 && x < y < n implies ranks_before(
                fitness@,
                #[trigger] r@[x] as int,
                #[trigger] r@[y] as int,
            ) by {
                let oy = if y == m { p as int } else if y == p { m as int } else { y };
                assert(r@[y] == old_r[oy]);
                if x < p {
                    assert(r@[x] == old_r[x]);
                    assert(ranks_before(fitness@, old_r[x] as int, old_r[oy] as int));
                } else {
                    assert(r@[x] == old_r[m as int]);
                    if oy != m {
                        assert(ranks_before(fitness@, old_r[m as int] as int, old_r[oy] as int));
                    }
                }
            }
        }
        p = p + 1;
    }
    r
}

/// How many of the best-ranked individuals breed: one eighth of the population.
pub fn breeding_pool_size(population: usize) -> (r: usize)
    ensures
        r == population / 8,
{
    population / 8
}

/// `v` is one of the first `pool` entries of `ranking`.
pub open spec fn in_pool(ranking: Seq<usize>, pool: int, v: usize) -> bool {
    exists|j: int| 0 <= j < pool && ranking[j] == v
}

/// The parents of the next generation, one per slot: each is drawn uniformly
/// from the first `pool` entries of `ranking`.
pub fn select_parents(ranking: &Vec<usize>, pool: usize, count: usize) -> (r: Vec<usize>)
    requires
        0 < pool <= ranking@.len(),
    ensures
        r@.len() == count,
        forall|s: int| 0 <= s < count ==> in_pool(ranking@, pool as int, #[trigger] r@[s]),
{
    let mut r: Vec<usize> = Vec::with_capacity(count);
    let mut s: usize = 0;
    while s < count
        invariant
            0 < pool <= ranking@.len(),
            s <= count,
            r@.len() == s,
            forall|k: int| 0 <= k < s ==> in_pool(ranking@, pool as int, #[trigger] r@[k]),
        decreases count - s,
    {
        let j = random_below(pool);
        r.push(ranking[j]);
        assert(r@[s as int] == ranking@[j as int]);
        s = s + 1;
    }
    r
}

/// The next generation, which replaces the current one whole: slot `i` holds
/// what `breed` makes of the individual `parents[i]`.
pub fn next_generation<G, F: Fn(&G) -> G>(population: &Vec<G>, parents: &Vec<usize>, breed: &F) -> (r:
    Vec<G>)
    requires
        forall|i: int| 0 <= i < parents@.len() ==> #[trigger] parents@[i] < population@.len(),
        forall|g: &G| breed.requires((g,)),
    ensures
        r@.len() == parents@.len(),
        forall|i: int|
            0 <= i < parents@.len() ==> breed.ensures(
                (&population@[parents@[i] as int],),
                #[trigger] r@[i],
            ),
{
    let n = parents.len();
    let mut r: Vec<G> = Vec::with_capacity(n);
    let mut i: usize = 0;
    while i < n
        invariant
            n == parents@.len(),
            i <= n,
            r@.len() == i,
            forall|k: int| 0 <= k < parents@.len() ==> #[trigger] parents@[k] < population@.len(),
            forall|g: &G| breed.requires((g,)),
            forall|k: int|
                0 <= k < i ==> breed.ensures((&population@[parents@[k] as int],), #[trigger] r@[k]),
        decreases n - i,
    {
        let child = breed(&population[parents[i]]);
        r.push(child);
        i = i + 1;
    }
    r
}

/// The sum of a sequence of fitness values.
pub open spec fn fitness_sum(f: Seq<usize>) -> int
    decreases f.len(),
{
    if f.len() == 0 {
        0
    } else {
        fitness_sum(f.drop_last()) + f.last()
    }
}

/// The sum of all fitness values, from which the caller takes the mean.
pub fn total_fitness(fitness: &Vec<usize>) -> (r: u128)
    ensures
        r == fitness_sum(fitness@),
{
    let n = fitness.len();
    let mut acc: u128 = 0;
    let mut i: usize = 0;
    while i < n
        invariant
            n == fitness@.len(),
            i <= n,
            acc == fitness_sum(fitness@.subrange(0, i as int)),
            acc <= i * (usize::MAX as int),
        decreases n - i,
    {
        proof {
            assert(fitness@.subrange(0, i + 1).drop_last() =~= fitness@.subrange(0, i as int));
            assert(acc + fitness@[i as int] <= (i + 1) * (usize::MAX as int)) by (nonlinear_arith)
                requires
                    acc <= i * (usize::MAX as int),
                    fitness@[i as int] <= usize::MAX,
            ;
            assert((i + 1) * (usize::MAX as int) <= (usize::MAX as int) * (usize::MAX as int))
                by (nonlinear_arith)
                requires
                    i < usize::MAX,
            ;
            assert((usize::MAX as int) * (usize::MAX as int) < u128::MAX) by (nonlinear_arith)
                requires
                    usize::MAX < 0x1_0000_0000_0000_0000,
            ;
        }
        acc = acc + fitness[i] as u128;
        i = i + 1;
    }
    assert(fitness@.subrange(0, n as int) =~= fitness@);
    acc
}

} // verus!
