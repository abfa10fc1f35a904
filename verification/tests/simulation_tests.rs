use sir_grid::chance::{
    draw_from_word, draw_infects, draw_recovers, draw_seeds_infection, seed_state, uniform_draw,
    DRAW_RANGE,
};
use sir_grid::{
    count_infected_neighbors, count_states, process_infected, process_susceptible, step_grid,
    step_grid_tiled, step_tile, tile_grid, transition, Grid, HealthState, SirParams, Tile, UNIT,
};

fn fixed(value: f64) -> u32 {
    (value * 1_000_000.0).round() as u32
}

fn sim_params(i_ratio: f64, beta: f64, gamma: f64, dt: f64) -> SirParams {
    SirParams {
        beta: fixed(beta),
        gamma: fixed(gamma),
        dt: fixed(dt),
        i_ratio: fixed(i_ratio),
        s_ratio: fixed(1.0),
    }
}

fn grid_of(width: usize, height: usize, states: &[HealthState]) -> Grid {
    let mut grid = Grid::init(width, height, &sim_params(0.0, 0.0, 0.0, 1.0)).unwrap();
    for (idx, state) in states.iter().enumerate() {
        grid.write(idx, *state);
    }
    grid
}

fn states_of(grid: &Grid) -> Vec<HealthState> {
    (0..grid.grid_x * grid.grid_y).map(|idx| grid.read(idx)).collect()
}

const S: HealthState = HealthState::Susceptible;
const I: HealthState = HealthState::Infected;
const R: HealthState = HealthState::Recovered;

#[test]
// Counts 4 infected neighbors around a center cell
fn test_simulation_count_infected_neighbors_case1() {
    let mut grid = Grid::init(3, 3, &sim_params(0.0, 0.0, 0.0, 1.0)).unwrap();
    // Setup infected neighbors
    grid.write(grid.get_index(0, 0), HealthState::Infected);
    grid.write(grid.get_index(1, 0), HealthState::Infected);
    grid.write(grid.get_index(2, 1), HealthState::Infected);
    grid.write(grid.get_index(2, 2), HealthState::Infected);

    let count = count_infected_neighbors(&grid, 1, 1);
    assert_eq!(count, 4);
}

#[test]
// Cell surrounded by infected neighbors should almost always get infected
fn test_simulation_process_susceptible_case1() {
    let mut grid = Grid::init(3, 3, &sim_params(0.0, 1.0, 0.0, 1.0)).unwrap();
    // all infected
    for y in 0..3 {
        for x in 0..3 {
            grid.write(grid.get_index(x, y), HealthState::Infected);
        }
    }
    let result = process_susceptible(&grid, 1, 1, &sim_params(0.0, 1.0, 0.0, 1.0));
    assert_eq!(result, HealthState::Infected);
}

#[test]
// With beta = 0.0, cell should not get infected even if surrounded
fn test_simulation_process_susceptible_case2() {
    let grid = Grid::init(3, 3, &sim_params(0.0, 0.0, 0.0, 1.0)).unwrap();
    let result = process_susceptible(&grid, 1, 1, &sim_params(0.0, 0.0, 0.0, 1.0));
    assert_eq!(result, HealthState::Susceptible);
}

#[test]
// Infected cell should always recover when gamma = 1.0
fn test_simulation_process_infected_case1() {
    let result = process_infected(&sim_params(0.0, 0.0, 1.0, 1.0));
    assert_eq!(result, HealthState::Recovered);
}

#[test]
// Infected cell should never recover when gamma = 0.0
fn test_simulation_process_infected_case2() {
    let result = process_infected(&sim_params(0.0, 0.0, 0.0, 1.0));
    assert_eq!(result, HealthState::Infected);
}

#[test]
// After one step, a susceptible center cell should become infected
fn test_simulation_step_grid_case1() {
    let mut grid = Grid::init(3, 3, &sim_params(0.0, 1.0, 0.0, 1.0)).unwrap();
    // all infected
    for y in 0..3 {
        for x in 0..3 {
            grid.write(grid.get_index(x, y), HealthState::Infected);
        }
    }
    // center susceptible
    grid.write(grid.get_index(1, 1), HealthState::Susceptible);

    step_grid(&mut grid, &sim_params(0.0, 1.0, 0.0, 1.0));
    assert_eq!(grid.read(grid.get_index(1, 1)), HealthState::Infected);
}

#[test]
fn surrounded_cell_is_infected_and_the_rest_stay_infected() {
    let start = [I, I, I, I, S, I, I, I, I];
    let params = sim_params(0.0, 1.0, 0.0, 1.0);
    let mut grid = grid_of(3, 3, &start);
    step_grid(&mut grid, &params);
    assert_eq!(states_of(&grid), vec![I; 9]);
    let grid = grid_of(3, 3, &start);
    for (tw, th) in [(1usize, 1usize), (2, 2), (3, 3), (2, 1), (5, 5)] {
        let next = step_grid_tiled(&grid, &params, tw, th);
        assert_eq!(states_of(&next), vec![I; 9]);
        assert_eq!(states_of(&grid), start.to_vec());
    }
}

#[test]
fn infected_count_skips_the_cell_itself_and_what_is_recovered() {
    let grid = grid_of(3, 3, &[I, R, I, S, I, R, I, I, S]);
    assert_eq!(count_infected_neighbors(&grid, 1, 1), 4);
    assert_eq!(count_infected_neighbors(&grid, 0, 0), 1);
    assert_eq!(count_infected_neighbors(&grid, 2, 2), 2);
    assert_eq!(count_infected_neighbors(&grid, 1, 2), 2);
    assert_eq!(count_infected_neighbors(&grid, 7, 7), 0);
    let full = grid_of(3, 3, &[I; 9]);
    assert_eq!(count_infected_neighbors(&full, 1, 1), 8);
}

#[test]
fn recovered_cells_stay_recovered() {
    let start = [R, I, S, R, R, I, S, S, R, I, R, S];
    for params in [
        sim_params(0.0, 1.0, 1.0, 1.0),
        sim_params(0.0, 0.3, 0.1, 1.0),
        sim_params(0.0, 0.0, 0.0, 1.0),
        sim_params(0.0, 4000.0, 4000.0, 4000.0),
    ] {
        let mut grid = grid_of(4, 3, &start);
        for _ in 0..5 {
            step_grid(&mut grid, &params);
            for (idx, state) in start.iter().enumerate() {
                if *state == R {
                    assert_eq!(grid.read(idx), R);
                }
            }
        }
        let tiled = step_grid_tiled(&grid_of(4, 3, &start), &params, 3, 2);
        for (idx, state) in start.iter().enumerate() {
            if *state == R {
                assert_eq!(tiled.read(idx), R);
            }
        }
    }
}

#[test]
fn certain_recovery_takes_one_step() {
    let start = [I, S, I, R, I, I];
    let params = sim_params(0.0, 0.0, 1.0, 1.0);
    let mut grid = grid_of(3, 2, &start);
    step_grid(&mut grid, &params);
    assert_eq!(states_of(&grid), vec![R, S, R, R, R, R]);
    let tiled = step_grid_tiled(&grid_of(3, 2, &start), &params, 2, 2);
    assert_eq!(states_of(&tiled), vec![R, S, R, R, R, R]);
}

#[test]
fn without_recovery_rate_nobody_recovers() {
    let start = [I, S, I, R, I, I];
    let params = sim_params(0.0, 0.0, 0.0, 1.0);
    let mut grid = grid_of(3, 2, &start);
    for _ in 0..10 {
        step_grid(&mut grid, &params);
        assert_eq!(states_of(&grid), start.to_vec());
    }
    let tiled = step_grid_tiled(&grid_of(3, 2, &start), &params, 1, 2);
    assert_eq!(states_of(&tiled), start.to_vec());
}

#[test]
fn without_infection_rate_nobody_is_infected() {
    let start = [I, I, I, I, S, I, I, I, I, S, S, I];
    let params = sim_params(0.0, 0.0, 0.0, 1.0);
    let mut grid = grid_of(3, 4, &start);
    for _ in 0..10 {
        step_grid(&mut grid, &params);
        assert_eq!(states_of(&grid), start.to_vec());
    }
    let tiled = step_grid_tiled(&grid_of(3, 4, &start), &params, 2, 3);
    assert_eq!(states_of(&tiled), start.to_vec());
}

#[test]
fn a_step_reads_the_old_grid_only() {
    // At rate 8 one infected neighbour is enough for certain infection. Were
    // new states read during the scan, the infection would run along the row.
    let start = [I, S, S, S, S];
    let params = sim_params(0.0, 8.0, 0.0, 1.0);
    let mut grid = grid_of(5, 1, &start);
    step_grid(&mut grid, &params);
    assert_eq!(states_of(&grid), vec![I, I, S, S, S]);
    step_grid(&mut grid, &params);
    assert_eq!(states_of(&grid), vec![I, I, I, S, S]);
    let tiled = step_grid_tiled(&grid_of(5, 1, &start), &params, 2, 1);
    assert_eq!(states_of(&tiled), vec![I, I, S, S, S]);
}

#[test]
fn tiled_step_sees_across_tile_borders() {
    // The infected cell lies in the first tile, its susceptible neighbours in
    // all four.
    let mut start = vec![S; 16];
    start[5] = I;
    let params = sim_params(0.0, 8.0, 0.0, 1.0);
    let grid = grid_of(4, 4, &start);
    let next = step_grid_tiled(&grid, &params, 2, 2);
    let expected = vec![I, I, I, S, I, I, I, S, I, I, I, S, S, S, S, S];
    assert_eq!(states_of(&next), expected);
    let mut direct = grid_of(4, 4, &start);
    step_grid(&mut direct, &params);
    assert_eq!(states_of(&direct), expected);
}

#[test]
fn step_tile_writes_its_own_cells_only() {
    let grid = grid_of(4, 2, &[I; 8]);
    let mut output = grid_of(4, 2, &[S; 8]);
    let tiles = tile_grid(&grid, 3, 1);
    assert_eq!(tiles.len(), 4);
    step_tile(&tiles[1], &sim_params(0.0, 0.0, 1.0, 1.0), &mut output);
    assert_eq!(states_of(&output), vec![S, S, S, R, S, S, S, S]);
    step_tile(&tiles[2], &sim_params(0.0, 0.0, 0.0, 1.0), &mut output);
    assert_eq!(states_of(&output), vec![S, S, S, R, I, I, I, S]);
}

#[test]
fn a_step_keeps_the_dimensions_and_the_cell_count() {
    let params = sim_params(0.2, 0.3, 0.1, 1.0);
    let mut grid = Grid::init(17, 9, &params).unwrap();
    for _ in 0..20 {
        step_grid(&mut grid, &params);
        assert_eq!((grid.grid_x, grid.grid_y, grid.cells.len()), (17, 9, 39));
        let stats = count_states(&grid);
        assert_eq!(stats.susceptible + stats.infected + stats.recovered, 153);
    }
    let next = step_grid_tiled(&grid, &params, 4, 4);
    assert_eq!((next.grid_x, next.grid_y, next.cells.len()), (17, 9, 39));
}

#[test]
fn recovered_never_shrinks_and_susceptible_never_grows() {
    let params = sim_params(0.1, 0.5, 0.2, 1.0);
    let mut grid = Grid::init(12, 12, &params).unwrap();
    let mut before = count_states(&grid);
    for _ in 0..30 {
        step_grid(&mut grid, &params);
        let after = count_states(&grid);
        assert!(after.recovered >= before.recovered);
        assert!(after.susceptible <= before.susceptible);
        before = after;
    }
}

#[test]
fn infection_threshold_is_beta_times_neighbours_over_eight_times_dt() {
    // 0.5 * 4 / 8 * 1 = 0.25, and 0.25 * 2^53 = 2^51
    let params = sim_params(0.0, 0.5, 0.0, 1.0);
    assert!(draw_infects(&params, 4, (1u64 << 51) - 1));
    assert!(!draw_infects(&params, 4, 1u64 << 51));
    // 0.3 * 1 / 8 * 1 = 0.0375, and 0.0375 * 2^53 = 337769972052787.2
    let params = sim_params(0.0, 0.3, 0.0, 1.0);
    assert!(draw_infects(&params, 1, 337_769_972_052_787));
    assert!(!draw_infects(&params, 1, 337_769_972_052_788));
    // 0.3 * 8 / 8 * 2.5 = 0.75, and 0.75 * 2^53 = 3 * 2^51
    let params = sim_params(0.0, 0.3, 0.0, 2.5);
    assert!(draw_infects(&params, 8, 3 * (1u64 << 51) - 1));
    assert!(!draw_infects(&params, 8, 3 * (1u64 << 51)));
    assert!(!draw_infects(&params, 0, 0));
}

#[test]
fn recovery_threshold_is_gamma_times_dt() {
    // 0.1 * 2^53 = 900719925474099.2
    let params = sim_params(0.0, 0.0, 0.1, 1.0);
    assert!(draw_recovers(&params, 900_719_925_474_099));
    assert!(!draw_recovers(&params, 900_719_925_474_100));
    // 0.5 * 0.5 = 0.25
    let params = sim_params(0.0, 0.0, 0.5, 0.5);
    assert!(draw_recovers(&params, (1u64 << 51) - 1));
    assert!(!draw_recovers(&params, 1u64 << 51));
    let params = sim_params(0.0, 0.0, 0.0, 1.0);
    assert!(!draw_recovers(&params, 0));
}

#[test]
fn seeding_threshold_is_the_initial_ratio() {
    // 0.01 * 2^53 = 90071992547409.92
    let params = sim_params(0.01, 0.0, 0.0, 1.0);
    assert!(draw_seeds_infection(&params, 90_071_992_547_409));
    assert!(!draw_seeds_infection(&params, 90_071_992_547_410));
    let params = sim_params(1.0, 0.0, 0.0, 1.0);
    assert!(draw_seeds_infection(&params, DRAW_RANGE - 1));
    let params = sim_params(0.0, 0.0, 0.0, 1.0);
    assert!(!draw_seeds_infection(&params, 0));
}

#[test]
fn decisions_take_the_largest_parameters() {
    let params = SirParams {
        beta: u32::MAX,
        gamma: u32::MAX,
        dt: u32::MAX,
        i_ratio: u32::MAX,
        s_ratio: u32::MAX,
    };
    assert!(draw_infects(&params, 8, u64::MAX));
    assert!(draw_recovers(&params, u64::MAX));
    assert!(draw_seeds_infection(&params, DRAW_RANGE - 1));
    assert!(!draw_infects(&params, 0, 0));
    assert_eq!(UNIT, 1_000_000);
}

#[test]
fn draws_stay_below_their_range() {
    assert_eq!(DRAW_RANGE, 1u64 << 53);
    let mut distinct = false;
    let first = uniform_draw();
    for _ in 0..1000 {
        let draw = uniform_draw();
        assert!(draw < DRAW_RANGE);
        distinct = distinct || draw != first;
    }
    assert!(distinct);
}

#[test]
fn half_of_the_draws_seed_at_ratio_one_half() {
    let grid = Grid::init(100, 100, &sim_params(0.5, 0.0, 0.0, 1.0)).unwrap();
    let stats = count_states(&grid);
    assert_eq!(stats.recovered, 0);
    // 10000 fair draws: 5000 on average, standard deviation 50
    assert!(stats.infected > 4500 && stats.infected < 5500);
}

#[test]
fn transition_follows_the_rule_table() {
    let params = sim_params(0.0, 0.5, 0.25, 1.0);
    // susceptible with four infected neighbours: 0.5 * 4 / 8 * 1 = 0.25
    assert_eq!(transition(S, 4, &params, (1u64 << 51) - 1), I);
    assert_eq!(transition(S, 4, &params, 1u64 << 51), S);
    // susceptible with eight: 0.5
    assert_eq!(transition(S, 8, &params, (1u64 << 52) - 1), I);
    assert_eq!(transition(S, 8, &params, 1u64 << 52), S);
    // susceptible with none
    assert_eq!(transition(S, 0, &params, 0), S);
    // infected: 0.25 * 1 = 0.25, whatever the neighbours
    assert_eq!(transition(I, 0, &params, (1u64 << 51) - 1), R);
    assert_eq!(transition(I, 8, &params, (1u64 << 51) - 1), R);
    assert_eq!(transition(I, 0, &params, 1u64 << 51), I);
    assert_eq!(transition(I, 8, &params, 1u64 << 51), I);
    // recovered
    assert_eq!(transition(R, 8, &params, 0), R);
    assert_eq!(transition(R, 0, &params, DRAW_RANGE - 1), R);
}

#[test]
fn seed_state_follows_the_initial_ratio() {
    // 0.25 * 2^53 = 2^51
    let params = sim_params(0.25, 1.0, 1.0, 1.0);
    assert_eq!(seed_state(&params, 0), I);
    assert_eq!(seed_state(&params, (1u64 << 51) - 1), I);
    assert_eq!(seed_state(&params, 1u64 << 51), S);
    assert_eq!(seed_state(&params, DRAW_RANGE - 1), S);
}

#[test]
fn a_draw_is_the_top_53_bits_of_a_word() {
    assert_eq!(draw_from_word(0), 0);
    assert_eq!(draw_from_word(2047), 0);
    assert_eq!(draw_from_word(2048), 1);
    assert_eq!(draw_from_word(1u64 << 63), 1u64 << 52);
    assert_eq!(draw_from_word(0x0123_4567_89ab_cdef), 0x0123_4567_89ab_cdef >> 11);
    assert_eq!(draw_from_word(u64::MAX), DRAW_RANGE - 1);
}

#[test]
fn step_tile_on_the_centre_of_a_ring_sets_one_slot() {
    // susceptible centre, eight infected around
    let src = Grid { grid_x: 3, grid_y: 3, cells: vec![0x55, 0x54, 0x01] };
    let tile = Tile { origin_x: 1, origin_y: 1, tile_x: 1, tile_y: 1, grid: &src };
    let mut out = Grid { grid_x: 3, grid_y: 3, cells: vec![0, 0, 0] };
    step_tile(&tile, &sim_params(0.0, 1.0, 0.0, 1.0), &mut out);
    for idx in 0..9 {
        assert_eq!(out.read(idx), if idx == 4 { I } else { S });
    }
    assert_eq!(out.cells, vec![0, 1, 0]);
    assert_eq!(src.cells, vec![0x55, 0x54, 0x01]);
}

#[test]
fn step_tile_writes_at_the_index_in_the_grid() {
    // susceptible, infected
    let src = Grid { grid_x: 2, grid_y: 1, cells: vec![0x04] };
    let tile = Tile { origin_x: 1, origin_y: 0, tile_x: 1, tile_y: 1, grid: &src };
    let mut out = Grid { grid_x: 2, grid_y: 1, cells: vec![0] };
    step_tile(&tile, &sim_params(0.0, 0.0, 1.0, 1.0), &mut out);
    assert_eq!(out.read(1), R);
    assert_eq!(out.read(0), S);
    assert_eq!(out.cells, vec![0x08]);
    assert_eq!(src.cells, vec![0x04]);
}

#[test]
fn step_tile_leaves_the_spare_slots_alone() {
    // five cells: the second byte holds one cell and three spare slots
    let src = Grid { grid_x: 5, grid_y: 1, cells: vec![0x55, 0x01] };
    let tile = Tile { origin_x: 3, origin_y: 0, tile_x: 2, tile_y: 1, grid: &src };
    let mut out = Grid { grid_x: 5, grid_y: 1, cells: vec![0xaa, 0xfc] };
    step_tile(&tile, &sim_params(0.0, 0.0, 1.0, 1.0), &mut out);
    // cell 3 and cell 4 recover; cells 0 to 2 and the spare slots stay
    assert_eq!(out.cells, vec![0xaa, 0xfe]);
}

#[test]
fn step_grid_keeps_the_spare_slots() {
    let mut grid = Grid { grid_x: 5, grid_y: 1, cells: vec![0x55, 0xfd] };
    step_grid(&mut grid, &sim_params(0.0, 0.0, 1.0, 1.0));
    assert_eq!(states_of(&grid), vec![R; 5]);
    assert_eq!(grid.cells, vec![0xaa, 0xfe]);
    let mut grid = Grid { grid_x: 3, grid_y: 2, cells: vec![0x55, 0x05] };
    step_grid(&mut grid, &sim_params(0.0, 0.0, 0.0, 1.0));
    assert_eq!(grid.cells, vec![0x55, 0x05]);
}

#[test]
fn fresh_grids_have_blank_spare_slots() {
    let grid = Grid::init(3, 2, &sim_params(1.0, 0.0, 0.0, 1.0)).unwrap();
    assert_eq!(grid.cells, vec![0x55, 0x05]);
    let grid = Grid::init(5, 1, &sim_params(0.0, 0.0, 0.0, 1.0)).unwrap();
    assert_eq!(grid.cells, vec![0, 0]);
    // the spare slots of the source are not carried over
    let src = Grid { grid_x: 5, grid_y: 1, cells: vec![0x55, 0xfd] };
    let next = step_grid_tiled(&src, &sim_params(0.0, 0.0, 1.0, 1.0), 2, 1);
    assert_eq!(next.cells, vec![0xaa, 0x02]);
    assert_eq!(src.cells, vec![0x55, 0xfd]);
}
