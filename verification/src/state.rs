//! The three health states and their two-bit code.

use vstd::prelude::*;

verus! {

/// The state of one cell.
#[derive(Debug, Clone, Copy, PartialEq, Eq, Structural)]
pub enum HealthState {
    Susceptible,
    Infected,
    Recovered,
}

/// A bit pattern that stands for no health state.
#[derive(Debug, Clone, Copy, PartialEq, Eq, Structural)]
pub struct InvalidEncoding {
    pub bits: u8,
}

/// The code of a state: 0, 1 or 2.
pub open spec fn encode_spec(state: HealthState) -> u8 {
    match state {
        HealthState::Susceptible => 0u8,
        HealthState::Infected => 1u8,
        HealthState::Recovered => 2u8,
    }
}

/// The state that a code stands for; codes above 2 stand for none.
pub open spec fn decode_spec(bits: u8) -> Option<HealthState> {
    if bits == 0 {
        Some(HealthState::Susceptible)
    } else if bits == 1 {
        Some(HealthState::Infected)
    } else if bits == 2 {
        Some(HealthState::Recovered)
    } else {
        None
    }
}

impl HealthState {
    /// The two-bit code of this state.
    pub fn encode(self) -> (bits: u8)
        ensures
            bits == encode_spec(self),
            bits <= 2,
    {
        match self {
            HealthState::Susceptible => 0,
            HealthState::Infected => 1,
            HealthState::Recovered => 2,
        }
    }

    /// The state behind a code, or the rejected pattern where there is none.
    pub fn decode(bits: u8) -> (result: Result<HealthState, InvalidEncoding>)
        ensures
            result == match decode_spec(bits) {
                Some(state) => Ok::<HealthState, InvalidEncoding>(state),
                None => Err::<HealthState, InvalidEncoding>(InvalidEncoding { bits }),
            },
    {
        if bits == 0 {
            Ok(HealthState::Susceptible)
        } else if bits == 1 {
            Ok(HealthState::Infected)
        } else if bits == 2 {
            Ok(HealthState::Recovered)
        } else {
            Err(InvalidEncoding { bits })
        }
    }
}

/// How many cells of `cells` are in state `state`.
pub open spec fn count_state(cells: Seq<HealthState>, state: HealthState) -> nat
    decreases cells.len(),
{
    if cells.len() == 0 {
        0
    } else {
        count_state(cells.drop_last(), state) + if cells.last() == state {
            1nat
        } else {
            0nat
        }
    }
}

/// Every cell is in exactly one of the three states, so the three counts
/// add up to the number of cells.
pub proof fn lemma_counts_sum(cells: Seq<HealthState>)
    ensures
        count_state(cells, HealthState::Susceptible) + count_state(cells, HealthState::Infected)
            + count_state(cells, HealthState::Recovered) == cells.len(),
    decreases cells.len(),
{
    if cells.len() > 0 {
        lemma_counts_sum(cells.drop_last());
    }
}

/// The count over the first `n + 1` cells is the count over the first `n`,
/// and one more where cell `n` is in the state counted.
pub proof fn lemma_count_state_step(cells: Seq<HealthState>, state: HealthState, n: int)
    requires
        0 <= n < cells.len(),
    ensures
        count_state(cells.take(n + 1), state) == count_state(cells.take(n), state) + if cells[n]
            == state {
            1nat
        } else {
            0nat
        },
{
    assert(cells.take(n + 1).drop_last() =~= cells.take(n));
}

/// Decoding the code of a state gives that state back, and the code of a
/// state is never the unused pattern.
pub proof fn lemma_decode_encode(state: HealthState)
    ensures
        decode_spec(encode_spec(state)) == Some(state),
        encode_spec(state) != 3,
{
}

/// A code that decodes was produced by encoding the state it decodes to.
pub proof fn lemma_encode_decode(bits: u8)
    requires
        bits <= 2,
    ensures
        decode_spec(bits) is Some,
        encode_spec(decode_spec(bits).unwrap()) == bits,
{
}

} // verus!
