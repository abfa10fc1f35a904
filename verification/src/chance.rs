//! Uniform draws and the probabilities they are held against.
//!
//! A draw is a whole number below 2^53 and stands for the fraction
//! `draw / 2^53` of the unit interval. Rates count millionths, so a
//! probability is a fraction of whole numbers, and holding a draw against it
//! compares two products of whole numbers: nothing is rounded.

use vstd::prelude::*;
use crate::maths::{SirParams, UNIT};
use crate::state::HealthState;

verus! {

/// The number of values a draw can take: 2^53.
pub const DRAW_RANGE: u64 = 9_007_199_254_740_992;

/// The draw that a 64-bit word gives: the word without its lowest 11 bits,
/// which leaves the top 53.
pub open spec fn draw_of_word(word: u64) -> u64 {
    (word / 2048) as u64
}

/// Whether the fraction that `draw` stands for lies below
/// `numerator / denominator`: `draw / 2^53 < numerator / denominator`.
pub open spec fn falls_below(draw: u64, numerator: int, denominator: int) -> bool {
    draw * denominator < numerator * DRAW_RANGE
}

/// Whether the draw falls below the share of cells that start out infected:
/// `draw / 2^53 < i_ratio`.
pub open spec fn seeds_infection(params: SirParams, draw: u64) -> bool {
    falls_below(draw, params.i_ratio as int, UNIT as int)
}

/// Whether the draw falls below the infection probability of a cell with
/// `infected_neighbors` infected neighbours:
/// `draw / 2^53 < beta * infected_neighbors / 8 * dt`.
pub open spec fn infection_strikes(params: SirParams, infected_neighbors: nat, draw: u64) -> bool {
    falls_below(draw, params.beta * infected_neighbors * params.dt, 8 * UNIT * UNIT)
}

/// Whether the draw falls below the recovery probability:
/// `draw / 2^53 < gamma * dt`.
pub open spec fn recovery_strikes(params: SirParams, draw: u64) -> bool {
    falls_below(draw, params.gamma * params.dt, UNIT * UNIT)
}

/// The state a cell starts in, given its draw: infected where the draw falls
/// below the initial share, susceptible otherwise.
pub open spec fn initial_state(params: SirParams, draw: u64) -> HealthState {
    if seeds_infection(params, draw) {
        HealthState::Infected
    } else {
        HealthState::Susceptible
    }
}

/// Whether some draw starts a cell in `state`.
pub open spec fn may_start_as(params: SirParams, state: HealthState) -> bool {
    exists|draw: u64| draw < DRAW_RANGE && state == #[trigger] initial_state(params, draw)
}

/// No draw falls below a probability of zero, and every draw falls below a
/// probability of one or more.
pub proof fn lemma_falls_below_extremes(draw: u64, numerator: int, denominator: int)
    by (nonlinear_arith)
    requires
        draw < DRAW_RANGE,
        denominator > 0,
    ensures
        numerator <= 0 ==> !falls_below(draw, numerator, denominator),
        numerator >= denominator ==> falls_below(draw, numerator, denominator),
{
}

/// What seeding allows: a cell starts susceptible or infected, never
/// recovered; with an initial share of zero it starts susceptible, with a
/// share of one whole or more it starts infected.
pub proof fn lemma_may_start_as(params: SirParams, state: HealthState)
    requires
        may_start_as(params, state),
    ensures
        state != HealthState::Recovered,
        params.i_ratio == 0 ==> state == HealthState::Susceptible,
        params.i_ratio >= UNIT ==> state == HealthState::Infected,
{
    let draw = choose|draw: u64|
        draw < DRAW_RANGE && state == #[trigger] initial_state(params, draw);
    lemma_falls_below_extremes(draw, params.i_ratio as int, UNIT as int);
}

/// A product of two bounded factors is bounded by the product of the bounds.
proof fn lemma_product_bound(a: int, a_max: int, b: int, b_max: int)
    by (nonlinear_arith)
    requires
        0 <= a <= a_max,
        0 <= b <= b_max,
    ensures
        0 <= a * b <= a_max * b_max,
{
}

/// Sixty-four bits from the thread-local generator of the `rand` crate, by
/// `rand::random::<u64>()`. Nothing is claimed of the value: any word may
/// come back, and two calls may differ.
#[verifier::external_body]
fn random_word() -> (word: u64) {
    rand::random::<u64>()
}

/// A fresh draw: the top 53 bits of a random word, as the `rand` crate takes
/// them for a uniform fraction of the unit interval.
pub fn uniform_draw() -> (draw: u64)
    ensures
        draw < DRAW_RANGE,
{
    let word: u64 = random_word();
    draw_from_word(word)
}

/// The draw that a random word gives: its top 53 bits.
pub fn draw_from_word(word: u64) -> (draw: u64)
    ensures
        draw == draw_of_word(word),
        draw < DRAW_RANGE,
{
    let draw: u64 = word >> 11;
    assert(word >> 11 == word / 2048 && word >> 11 < 9_007_199_254_740_992u64) by (bit_vector);
    draw
}

/// Holds a draw against the probability `numerator / denominator`.
fn hold_against(draw: u64, numerator: u128, denominator: u64) -> (hit: bool)
    requires
        numerator <= 8 * u32::MAX * u32::MAX,
    ensures
        hit == falls_below(draw, numerator as int, denominator as int),
{
    proof {
        lemma_product_bound(draw as int, u64::MAX as int, denominator as int, u64::MAX as int);
        lemma_product_bound(
            numerator as int,
            8 * u32::MAX * u32::MAX,
            DRAW_RANGE as int,
            9_007_199_254_740_992,
        );
    }
    (draw as u128) * (denominator as u128) < numerator * (DRAW_RANGE as u128)
}

/// Decides whether a cell starts out infected, given its draw.
pub fn draw_seeds_infection(params: &SirParams, draw: u64) -> (hit: bool)
    ensures
        hit == seeds_infection(*params, draw),
{
    hold_against(draw, params.i_ratio as u128, UNIT as u64)
}

/// The state a cell starts in, given its draw.
pub fn seed_state(params: &SirParams, draw: u64) -> (state: HealthState)
    ensures
        state == initial_state(*params, draw),
{
    if draw_seeds_infection(params, draw) {
        HealthState::Infected
    } else {
        HealthState::Susceptible
    }
}

/// Decides whether a susceptible cell with `infected_neighbors` infected
/// neighbours catches the infection, given its draw.
pub fn draw_infects(params: &SirParams, infected_neighbors: usize, draw: u64) -> (hit: bool)
    requires
        infected_neighbors <= 8,
    ensures
        hit == infection_strikes(*params, infected_neighbors as nat, draw),
{
    proof {
        lemma_product_bound(8 * UNIT, 8_000_000, UNIT as int, 1_000_000);
        lemma_product_bound(params.beta as int, u32::MAX as int, infected_neighbors as int, 8);
        lemma_product_bound(
            params.beta * infected_neighbors,
            u32::MAX * 8,
            params.dt as int,
            u32::MAX as int,
        );
    }
    let scale: u64 = 8 * (UNIT as u64) * (UNIT as u64);
    let pressure: u128 = (params.beta as u128) * (infected_neighbors as u128) * (params.dt as u128);
    hold_against(draw, pressure, scale)
}

/// Decides whether an infected cell recovers, given its draw.
pub fn draw_recovers(params: &SirParams, draw: u64) -> (hit: bool)
    ensures
        hit == recovery_strikes(*params, draw),
{
    proof {
        lemma_product_bound(UNIT as int, 1_000_000, UNIT as int, 1_000_000);
        lemma_product_bound(params.gamma as int, u32::MAX as int, params.dt as int, u32::MAX as int);
    }
    let scale: u64 = (UNIT as u64) * (UNIT as u64);
    let rate: u128 = (params.gamma as u128) * (params.dt as u128);
    hold_against(draw, rate, scale)
}

} // verus!
