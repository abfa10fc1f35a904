//! The transition rule of a cell and the step of a whole grid.
//!
//! A step reads one grid and writes another: no cell sees the new state of
//! any other. What a step yields depends on the draws, so its contract says
//! of every cell that some draw takes the old state to the new one.

use vstd::prelude::*;
use crate::chance::{
    DRAW_RANGE,
    draw_infects,
    draw_recovers,
    infection_strikes,
    lemma_falls_below_extremes,
    recovery_strikes,
    uniform_draw,
};
use crate::grid::{
    Grid,
    lemma_index_coords,
    lemma_index_in_range,
    lemma_index_is_injective,
    lemma_moore_neighbors_upto,
    lemma_packed_store,
    packed_code,
};
use crate::maths::{SirParams, UNIT};
use crate::state::{HealthState, count_state, encode_spec, lemma_count_state_step};
use crate::tile::{
    Tile,
    is_tile_of,
    is_tiling,
    lemma_tiling_inside,
    lemma_tiling_partitions,
    tile_grid,
    tiles_across,
};

verus! {

/// The state that follows `current` for a cell with `infected_neighbors`
/// infected neighbours, given the cell's draw. A susceptible cell turns
/// infected where the draw falls below `beta * infected_neighbors / 8 * dt`,
/// an infected one recovers where it falls below `gamma * dt`, and a
/// recovered one stays recovered.
pub open spec fn next_state(
    current: HealthState,
    infected_neighbors: nat,
    params: SirParams,
    draw: u64,
) -> HealthState {
    match current {
        HealthState::Susceptible => if infection_strikes(params, infected_neighbors, draw) {
            HealthState::Infected
        } else {
            HealthState::Susceptible
        },
        HealthState::Infected => if recovery_strikes(params, draw) {
            HealthState::Recovered
        } else {
            HealthState::Infected
        },
        HealthState::Recovered => HealthState::Recovered,
    }
}

/// Whether some draw takes a cell in state `current` with `infected_neighbors`
/// infected neighbours to state `next`.
pub open spec fn may_follow(
    current: HealthState,
    infected_neighbors: nat,
    params: SirParams,
    next: HealthState,
) -> bool {
    exists|draw: u64|
        draw < DRAW_RANGE && next == #[trigger] next_state(
            current,
            infected_neighbors,
            params,
            draw,
        )
}

/// Whether some draw takes the cell `(x, y)` of `grid` to state `next`.
pub open spec fn may_become(grid: Grid, params: SirParams, x: int, y: int, next: HealthState) -> bool {
    may_follow(grid.at(x, y), grid.infected_neighbors(x, y), params, next)
}

/// Whether `next` can come out of one step of `grid`: the two have the same
/// dimensions, and every cell of `next` follows from the cell of `grid` in
/// its place and that cell's neighbours in `grid`.
pub open spec fn is_step_of(next: Grid, grid: Grid, params: SirParams) -> bool {
    &&& next.grid_x == grid.grid_x
    &&& next.grid_y == grid.grid_y
    &&& forall|x: int, y: int|
        grid.in_bounds(x, y) ==> #[trigger] may_become(grid, params, x, y, next.at(x, y))
}

/// What the rule allows. A recovered cell stays recovered. An infected cell
/// stays infected or recovers: it recovers for certain where the recovery
/// probability is one or more, and never where the recovery rate or the time
/// step is zero. A susceptible cell stays susceptible or turns infected: it
/// turns infected for certain where the infection probability is one or
/// more, and never where the infection rate, the number of infected
/// neighbours or the time step is zero.
pub proof fn lemma_may_follow(
    current: HealthState,
    infected_neighbors: nat,
    params: SirParams,
    next: HealthState,
)
    requires
        may_follow(current, infected_neighbors, params, next),
    ensures
        current == HealthState::Recovered ==> next == HealthState::Recovered,
        current == HealthState::Infected ==> next != HealthState::Susceptible,
        current == HealthState::Infected && params.gamma * params.dt >= UNIT * UNIT ==> next
            == HealthState::Recovered,
        current == HealthState::Infected && (params.gamma == 0 || params.dt == 0) ==> next
            == HealthState::Infected,
        current == HealthState::Susceptible ==> next != HealthState::Recovered,
        current == HealthState::Susceptible && params.beta * infected_neighbors * params.dt >= 8
            * UNIT * UNIT ==> next == HealthState::Infected,
        current == HealthState::Susceptible && (params.beta == 0 || infected_neighbors == 0
            || params.dt == 0) ==> next == HealthState::Susceptible,
{
    let draw = choose|draw: u64|
        draw < DRAW_RANGE && next == #[trigger] next_state(
            current,
            infected_neighbors,
            params,
            draw,
        );
    let pressure = params.beta * infected_neighbors * params.dt;
    let rate = params.gamma * params.dt;
    assert(params.beta == 0 || infected_neighbors == 0 || params.dt == 0 ==> pressure == 0)
        by (nonlinear_arith)
        requires
            pressure == params.beta * infected_neighbors * params.dt,
    ;
    assert(params.gamma == 0 || params.dt == 0 ==> rate == 0) by (nonlinear_arith)
        requires
            rate == params.gamma * params.dt,
    ;
    assert(UNIT * UNIT > 0 && 8 * UNIT * UNIT > 0) by (nonlinear_arith)
        requires
            UNIT > 0,
    ;
    lemma_falls_below_extremes(draw, pressure, 8 * UNIT * UNIT);
    lemma_falls_below_extremes(draw, rate, UNIT * UNIT);
}

/// A recovered cell stays recovered through any step, whatever the parameters.
pub proof fn lemma_recovered_is_terminal(next: Grid, grid: Grid, params: SirParams, x: int, y: int)
    requires
        is_step_of(next, grid, params),
        grid.in_bounds(x, y),
        grid.at(x, y) == HealthState::Recovered,
    ensures
        next.at(x, y) == HealthState::Recovered,
{
    assert(may_become(grid, params, x, y, next.at(x, y)));
    lemma_may_follow(grid.at(x, y), grid.infected_neighbors(x, y), params, next.at(x, y));
}

/// With a recovery probability of one or more, as with a recovery rate of one
/// and a time step of one, every infected cell is recovered after one step.
pub proof fn lemma_recovery_is_certain(next: Grid, grid: Grid, params: SirParams, x: int, y: int)
    requires
        is_step_of(next, grid, params),
        grid.in_bounds(x, y),
        grid.at(x, y) == HealthState::Infected,
        params.gamma * params.dt >= UNIT * UNIT,
    ensures
        next.at(x, y) == HealthState::Recovered,
{
    assert(may_become(grid, params, x, y, next.at(x, y)));
    lemma_may_follow(grid.at(x, y), grid.infected_neighbors(x, y), params, next.at(x, y));
}

/// With a recovery rate of zero no infected cell recovers in a step.
pub proof fn lemma_recovery_is_impossible(next: Grid, grid: Grid, params: SirParams, x: int, y: int)
    requires
        is_step_of(next, grid, params),
        grid.in_bounds(x, y),
        grid.at(x, y) == HealthState::Infected,
        params.gamma == 0,
    ensures
        next.at(x, y) == HealthState::Infected,
{
    assert(may_become(grid, params, x, y, next.at(x, y)));
    lemma_may_follow(grid.at(x, y), grid.infected_neighbors(x, y), params, next.at(x, y));
}

/// With an infection rate of zero no susceptible cell turns infected in a
/// step, whatever its neighbours are.
pub proof fn lemma_infection_is_impossible(
    next: Grid,
    grid: Grid,
    params: SirParams,
    x: int,
    y: int,
)
    requires
        is_step_of(next, grid, params),
        grid.in_bounds(x, y),
        grid.at(x, y) == HealthState::Susceptible,
        params.beta == 0,
    ensures
        next.at(x, y) == HealthState::Susceptible,
{
    assert(may_become(grid, params, x, y, next.at(x, y)));
    lemma_may_follow(grid.at(x, y), grid.infected_neighbors(x, y), params, next.at(x, y));
}

/// With an infection probability of one or more, as with an infection rate
/// of one, a time step of one and all eight neighbours infected, a
/// susceptible cell is infected after one step.
pub proof fn lemma_infection_is_certain(next: Grid, grid: Grid, params: SirParams, x: int, y: int)
    requires
        is_step_of(next, grid, params),
        grid.in_bounds(x, y),
        grid.at(x, y) == HealthState::Susceptible,
        params.beta * grid.infected_neighbors(x, y) * params.dt >= 8 * UNIT * UNIT,
    ensures
        next.at(x, y) == HealthState::Infected,
{
    assert(may_become(grid, params, x, y, next.at(x, y)));
    lemma_may_follow(grid.at(x, y), grid.infected_neighbors(x, y), params, next.at(x, y));
}

/// How many of `states` are infected.
fn count_infected(states: &Vec<HealthState>) -> (count: usize)
    ensures
        count == count_state(states@, HealthState::Infected),
        count <= states@.len(),
{
    let mut count: usize = 0;
    for i in 0..states.len()
        invariant
            count == count_state(states@.take(i as int), HealthState::Infected),
            count <= i,
    {
        proof {
            lemma_count_state_step(states@, HealthState::Infected, i as int);
        }
        if states[i] == HealthState::Infected {
            count += 1;
        }
    }
    assert(states@.take(states@.len() as int) =~= states@);
    count
}

/// Count how many infected neighbors are around (x, y)
pub fn count_infected_neighbors(grid: &Grid, x: usize, y: usize) -> (count: usize)
    requires
        grid.wf(),
    ensures
        count == grid.infected_neighbors(x as int, y as int),
        count <= 8,
{
    let coords = grid.get_neighbors(x, y);
    let ghost around = grid.neighbors(x as int, y as int);
    let ghost states = grid.neighbor_states(x as int, y as int);
    proof {
        lemma_moore_neighbors_upto(grid.grid_x as int, grid.grid_y as int, x as int, y as int, 8);
    }
    let mut count: usize = 0;
    for i in 0..coords.len()
        invariant
            grid.wf(),
            around == grid.neighbors(x as int, y as int),
            states == grid.neighbor_states(x as int, y as int),
            coords@.len() == around.len() <= 8,
            forall|j: int|
                0 <= j < coords@.len() ==> (#[trigger] coords@[j]).0 == around[j].0 && coords@[j].1
                    == around[j].1,
            forall|j: int|
                0 <= j < around.len() ==> grid.in_bounds((#[trigger] around[j]).0, around[j].1),
            count == count_state(states.take(i as int), HealthState::Infected),
            count <= i,
    {
        proof {
            lemma_count_state_step(states, HealthState::Infected, i as int);
        }
        let (nx, ny) = coords[i];
        let n_idx = grid.get_index(nx, ny);
        if grid.read(n_idx) == HealthState::Infected {
            count += 1;
        }
    }
    assert(states.take(coords@.len() as int) =~= states);
    count
}

/// The state that follows `current` for a cell with `infected_neighbors`
/// infected neighbours, given the cell's draw.
pub fn transition(
    current: HealthState,
    infected_neighbors: usize,
    params: &SirParams,
    draw: u64,
) -> (next: HealthState)
    requires
        infected_neighbors <= 8,
    ensures
        next == next_state(current, infected_neighbors as nat, *params, draw),
{
    match current {
        HealthState::Susceptible => if draw_infects(params, infected_neighbors, draw) {
            HealthState::Infected
        } else {
            HealthState::Susceptible
        },
        HealthState::Infected => if draw_recovers(params, draw) {
            HealthState::Recovered
        } else {
            HealthState::Infected
        },
        HealthState::Recovered => HealthState::Recovered,
    }
}

/// Draws for a susceptible cell with `infected_neighbors` infected neighbours
/// and gives the state it takes.
fn expose(infected_neighbors: usize, params: &SirParams) -> (state: HealthState)
    requires
        infected_neighbors <= 8,
    ensures
        may_follow(HealthState::Susceptible, infected_neighbors as nat, *params, state),
{
    let draw: u64 = uniform_draw();
    transition(HealthState::Susceptible, infected_neighbors, params, draw)
}

/// Determine if a susceptible cell at `(x, y)` should become infected: draws
/// once and holds the draw against `beta * k / 8 * dt`, where `k` counts the
/// cell's infected neighbours.
pub fn process_susceptible(grid: &Grid, x: usize, y: usize, params: &SirParams) -> (state:
    HealthState)
    requires
        grid.wf(),
    ensures
        may_follow(
            HealthState::Susceptible,
            grid.infected_neighbors(x as int, y as int),
            *params,
            state,
        ),
{
    let infected_neighbors = count_infected_neighbors(grid, x, y);
    expose(infected_neighbors, params)
}

/// Determine if an infected cell should recover: draws once and holds the
/// draw against `gamma * dt`.
pub fn process_infected(params: &SirParams) -> (state: HealthState)
    ensures
        forall|infected_neighbors: nat|
            may_follow(HealthState::Infected, infected_neighbors, *params, state),
{
    let draw: u64 = uniform_draw();
    let state = transition(HealthState::Infected, 0, params, draw);
    assert forall|infected_neighbors: nat|
        may_follow(HealthState::Infected, infected_neighbors, *params, state) by {
        assert(state == next_state(HealthState::Infected, infected_neighbors, *params, draw));
    }
    state
}

/// Advances the grid by one step. Every cell is computed from the grid as it
/// was before the call; the new grid replaces the old one when all are done.
pub fn step_grid(grid: &mut Grid, params: &SirParams)
    requires
        old(grid).wf(),
    ensures
        final(grid).wf(),
        is_step_of(*final(grid), *old(grid), *params),
        final(grid).same_spare_slots(*old(grid)),
{
    // Clone cells buffer for writing next state
    let mut new_grid = Grid { grid_x: grid.grid_x, grid_y: grid.grid_y, cells: grid.cells.clone() };
    assert(new_grid.cells@ =~= grid.cells@);
    for y in 0..grid.grid_y
        invariant
            *grid == *old(grid),
            grid.wf(),
            new_grid.wf(),
            new_grid.grid_x == grid.grid_x,
            new_grid.grid_y == grid.grid_y,
            new_grid.same_spare_slots(*grid),
            forall|cx: int, cy: int|
                grid.in_bounds(cx, cy) && cy < y ==> #[trigger] may_become(
                    *grid,
                    *params,
                    cx,
                    cy,
                    new_grid.at(cx, cy),
                ),
    {
        for x in 0..grid.grid_x
            invariant
                *grid == *old(grid),
                grid.wf(),
                new_grid.wf(),
                new_grid.grid_x == grid.grid_x,
                new_grid.grid_y == grid.grid_y,
                new_grid.same_spare_slots(*grid),
                0 <= y < grid.grid_y,
                forall|cx: int, cy: int|
                    grid.in_bounds(cx, cy) && (cy < y || (cy == y && cx < x))
                        ==> #[trigger] may_become(*grid, *params, cx, cy, new_grid.at(cx, cy)),
        {
            let idx = grid.get_index(x, y);
            let current = grid.read(idx);
            let updated = match current {
                HealthState::Susceptible => process_susceptible(grid, x, y, params),
                HealthState::Infected => process_infected(params),
                HealthState::Recovered => {
                    assert(HealthState::Recovered == next_state(
                        current,
                        grid.infected_neighbors(x as int, y as int),
                        *params,
                        0,
                    ));
                    HealthState::Recovered
                },
            };
            let ghost before = new_grid;
            new_grid.write(idx, updated);
            assert(new_grid.same_spare_slots(*grid)) by {
                assert forall|j: int|
                    new_grid.cell_count() <= j < 4 * new_grid.cells@.len() implies #[trigger] packed_code(
                    new_grid.cells@,
                    j,
                ) == packed_code(grid.cells@, j) by {
                    lemma_packed_store(before.cells@, idx as int, encode_spec(updated), j);
                    assert(packed_code(before.cells@, j) == packed_code(grid.cells@, j));
                }
            }
            assert forall|cx: int, cy: int|
                grid.in_bounds(cx, cy) && (cy < y || (cy == y && cx < x + 1))
                    implies #[trigger] may_become(*grid, *params, cx, cy, new_grid.at(cx, cy)) by {
                if cx == x && cy == y {
                    assert(new_grid.at(cx, cy) == updated);
                } else {
                    if grid.index_of(cx, cy) == idx {
                        lemma_index_is_injective(grid.grid_x as int, cx, cy, x as int, y as int);
                    }
                    lemma_index_in_range(grid.grid_x as int, grid.grid_y as int, cx, cy);
                    assert(new_grid.at(cx, cy) == before.at(cx, cy));
                    assert(may_become(*grid, *params, cx, cy, before.at(cx, cy)));
                }
            }
        }
    }
    *grid = new_grid;
}

/// Computes the next state of every cell of `tile` from the tile's grid and
/// writes it to the same place in `output`. Cells of `output` outside the
/// tile are left as they were.
pub fn step_tile(tile: &Tile, params: &SirParams, output: &mut Grid)
    requires
        tile.wf(),
        old(output).wf(),
        old(output).grid_x == tile.grid.grid_x,
        old(output).grid_y == tile.grid.grid_y,
    ensures
        final(output).wf(),
        final(output).grid_x == old(output).grid_x,
        final(output).grid_y == old(output).grid_y,
        forall|x: int, y: int|
            tile.contains(x, y) ==> #[trigger] may_become(
                *tile.grid,
                *params,
                x,
                y,
                final(output).at(x, y),
            ),
        forall|x: int, y: int|
            tile.grid.in_bounds(x, y) && !tile.contains(x, y) ==> #[trigger] final(output).at(x, y)
                == old(output).at(x, y),
        final(output).cells@.len() == old(output).cells@.len(),
        forall|j: int|
            0 <= j < 4 * old(output).cells@.len() && !tile.holds_slot(j) ==> #[trigger] packed_code(
                final(output).cells@,
                j,
            ) == packed_code(old(output).cells@, j),
{
    let ghost grid = *tile.grid;
    for y in 0..tile.tile_y
        invariant
            tile.wf(),
            grid == *tile.grid,
            output.wf(),
            output.grid_x == grid.grid_x,
            output.grid_y == grid.grid_y,
            forall|cx: int, cy: int|
                tile.contains(cx, cy) && cy < tile.origin_y + y ==> #[trigger] may_become(
                    grid,
                    *params,
                    cx,
                    cy,
                    output.at(cx, cy),
                ),
            forall|cx: int, cy: int|
                grid.in_bounds(cx, cy) && !tile.contains(cx, cy) ==> #[trigger] output.at(cx, cy)
                    == old(output).at(cx, cy),
            output.cells@.len() == old(output).cells@.len(),
            forall|j: int|
                0 <= j < 4 * output.cells@.len() && !tile.holds_slot(j) ==> #[trigger] packed_code(
                    output.cells@,
                    j,
                ) == packed_code(old(output).cells@, j),
    {
        for x in 0..tile.tile_x
            invariant
                tile.wf(),
                grid == *tile.grid,
                output.wf(),
                output.grid_x == grid.grid_x,
                output.grid_y == grid.grid_y,
                0 <= y < tile.tile_y,
                forall|cx: int, cy: int|
                    tile.contains(cx, cy) && (cy < tile.origin_y + y || (cy == tile.origin_y + y
                        && cx < tile.origin_x + x)) ==> #[trigger] may_become(
                        grid,
                        *params,
                        cx,
                        cy,
                        output.at(cx, cy),
                    ),
                forall|cx: int, cy: int|
                    grid.in_bounds(cx, cy) && !tile.contains(cx, cy) ==> #[trigger] output.at(
                        cx,
                        cy,
                    ) == old(output).at(cx, cy),
                output.cells@.len() == old(output).cells@.len(),
                forall|j: int|
                    0 <= j < 4 * output.cells@.len() && !tile.holds_slot(j)
                        ==> #[trigger] packed_code(output.cells@, j) == packed_code(
                        old(output).cells@,
                        j,
                    ),
        {
            let ghost gx = tile.origin_x + x;
            let ghost gy = tile.origin_y + y;
            let idx = output.get_index(tile.origin_x + x, tile.origin_y + y);
            let current = match tile.get_state(x, y) {
                Some(current) => current,
                None => unreached(),
            };
            let neighbors = tile.get_neighbors_healthstates(x, y);
            proof {
                lemma_moore_neighbors_upto(grid.grid_x as int, grid.grid_y as int, gx, gy, 8);
            }
            let new_state = match current {
                HealthState::Susceptible => {
                    let infected_neighbors = count_infected(&neighbors);
                    expose(infected_neighbors, params)
                },
                HealthState::Infected => process_infected(params),
                HealthState::Recovered => {
                    assert(HealthState::Recovered == next_state(
                        current,
                        grid.infected_neighbors(gx, gy),
                        *params,
                        0,
                    ));
                    HealthState::Recovered
                },
            };
            let ghost before = *output;
            output.write(idx, new_state);
            assert forall|j: int|
                0 <= j < 4 * output.cells@.len() && !tile.holds_slot(j) implies #[trigger] packed_code(
                output.cells@,
                j,
            ) == packed_code(old(output).cells@, j) by {
                lemma_index_coords(grid.grid_x as int, gx, gy);
                lemma_packed_store(before.cells@, idx as int, encode_spec(new_state), j);
                assert(packed_code(before.cells@, j) == packed_code(old(output).cells@, j));
            }
            assert forall|cx: int, cy: int|
                tile.contains(cx, cy) && (cy < gy || (cy == gy && cx < gx + 1))
                    implies #[trigger] may_become(grid, *params, cx, cy, output.at(cx, cy)) by {
                if cx == gx && cy == gy {
                    assert(output.at(cx, cy) == new_state);
                } else {
                    if grid.index_of(cx, cy) == idx {
                        lemma_index_is_injective(grid.grid_x as int, cx, cy, gx, gy);
                    }
                    lemma_index_in_range(grid.grid_x as int, grid.grid_y as int, cx, cy);
                    assert(output.at(cx, cy) == before.at(cx, cy));
                    assert(may_become(grid, *params, cx, cy, before.at(cx, cy)));
                }
            }
            assert forall|cx: int, cy: int|
                grid.in_bounds(cx, cy) && !tile.contains(cx, cy) implies #[trigger] output.at(
                cx,
                cy,
            ) == old(output).at(cx, cy) by {
                if grid.index_of(cx, cy) == idx {
                    lemma_index_is_injective(grid.grid_x as int, cx, cy, gx, gy);
                }
                lemma_index_in_range(grid.grid_x as int, grid.grid_y as int, cx, cy);
                assert(output.at(cx, cy) == before.at(cx, cy));
            }
        }
    }
}

/// One step of `grid`, computed tile by tile into a fresh grid. The tiles are
/// `tile_width` wide and `tile_height` high, cut short where the grid ends.
pub fn step_grid_tiled(grid: &Grid, params: &SirParams, tile_width: usize, tile_height: usize) -> (next:
    Grid)
    requires
        grid.wf(),
        tile_width > 0,
        tile_height > 0,
    ensures
        next.wf(),
        is_step_of(next, *grid, *params),
        next.blank_spare_slots(),
{
    let blank = SirParams { beta: 0, gamma: 0, dt: UNIT, i_ratio: 0, s_ratio: UNIT };
    let mut next = match Grid::init(grid.grid_x, grid.grid_y, &blank) {
        Ok(next) => next,
        Err(_) => unreached(),
    };
    let tiles = tile_grid(grid, tile_width, tile_height);
    let ghost tw = tile_width as int;
    let ghost th = tile_height as int;
    for t in 0..tiles.len()
        invariant
            grid.wf(),
            tw == tile_width > 0,
            th == tile_height > 0,
            is_tiling(tiles@, grid, tw, th),
            forall|u: int| 0 <= u < tiles@.len() ==> (#[trigger] tiles@[u]).wf(),
            next.wf(),
            next.grid_x == grid.grid_x,
            next.grid_y == grid.grid_y,
            next.blank_spare_slots(),
            forall|u: int, x: int, y: int|
                0 <= u < t && (#[trigger] tiles@[u]).contains(x, y) ==> #[trigger] may_become(
                    *grid,
                    *params,
                    x,
                    y,
                    next.at(x, y),
                ),
    {
        let tile = &tiles[t];
        let ghost before = next;
        assert(tile.grid == grid) by {
            let columns = tiles_across(grid.grid_x as int, tw);
            assert(is_tile_of(
                tiles@[t as int],
                grid,
                tw,
                th,
                (t as int) % columns,
                (t as int) / columns,
            ));
        }
        step_tile(tile, params, &mut next);
        assert(next.blank_spare_slots()) by {
            assert forall|j: int|
                next.cell_count() <= j < 4 * next.cells@.len() implies #[trigger] packed_code(
                next.cells@,
                j,
            ) == 0 by {
                assert(!tile.holds_slot(j));
                assert(packed_code(before.cells@, j) == 0);
            }
        }
        assert forall|u: int, x: int, y: int|
            0 <= u < t + 1 && (#[trigger] tiles@[u]).contains(x, y) implies #[trigger] may_become(
            *grid,
            *params,
            x,
            y,
            next.at(x, y),
        ) by {
            if u < t {
                lemma_tiling_inside(tiles@, grid, tw, th, u, x, y);
                lemma_tiling_partitions(tiles@, grid, tw, th, x, y);
                assert(!tiles@[t as int].contains(x, y));
                assert(next.at(x, y) == before.at(x, y));
                assert(may_become(*grid, *params, x, y, before.at(x, y)));
            }
        }
    }
    assert forall|x: int, y: int| grid.in_bounds(x, y) implies #[trigger] may_become(
        *grid,
        *params,
        x,
        y,
        next.at(x, y),
    ) by {
        lemma_tiling_partitions(tiles@, grid, tw, th, x, y);
        let u = (y / th) * tiles_across(grid.grid_x as int, tw) + x / tw;
        assert(tiles@[u].contains(x, y));
    }
    next
}

} // verus!
