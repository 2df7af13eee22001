//! Choice of an execution strategy from the length of the input.

use vstd::prelude::*;
use crate::chunks::chunk_count;

verus! {

/// Inputs shorter than this are mapped on the calling thread.
pub const MIN_BOUND: usize = 4;

/// Inputs longer than this are cut into chunks, one task per chunk.
pub const MAX_BOUND: usize = 1000;

/// Number of elements handed to each task once the input exceeds `MAX_BOUND`.
pub const PART_FACTOR: usize = 300;

/// How the elements of one input are spread over tasks.
#[derive(Clone, Copy, Debug, PartialEq, Eq, Structural)]
pub enum Strategy {
    /// Everything is mapped in order on the calling thread.
    Serial,
    /// Every element is a task of its own.
    OneTaskPerElement,
    /// The input is cut into contiguous chunks of at most `chunk_size`
    /// elements, and every chunk is a task.
    Chunked { chunk_size: usize },
}

/// The strategy for an input of `length` elements.
pub open spec fn select_spec(length: nat) -> Strategy {
    if length < MIN_BOUND {
        Strategy::Serial
    } else if length <= MAX_BOUND {
        Strategy::OneTaskPerElement
    } else {
        Strategy::Chunked { chunk_size: PART_FACTOR }
    }
}

/// Number of concurrent tasks that an input of `length` elements gives rise to.
pub open spec fn spawned_tasks(length: nat) -> nat {
    match select_spec(length) {
        Strategy::Serial => 0,
        Strategy::OneTaskPerElement => length,
        Strategy::Chunked { chunk_size } => chunk_count(length, chunk_size as nat),
    }
}

/// The strategy of the fan-in variant for an input of `length` elements: it
/// never chunks.
pub open spec fn select_fan_in_spec(length: nat) -> Strategy {
    if length < MIN_BOUND {
        Strategy::Serial
    } else {
        Strategy::OneTaskPerElement
    }
}

/// Picks the strategy for an input of `length` elements.
pub fn select(length: usize) -> (strategy: Strategy)
    ensures
        strategy == select_spec(length as nat),
{
    if length < MIN_BOUND {
        Strategy::Serial
    } else if length <= MAX_BOUND {
        Strategy::OneTaskPerElement
    } else {
        Strategy::Chunked { chunk_size: PART_FACTOR }
    }
}

/// Picks the strategy of the fan-in variant for an input of `length`
/// elements.
pub fn select_fan_in(length: usize) -> (strategy: Strategy)
    ensures
        strategy == select_fan_in_spec(length as nat),
{
    if length < MIN_BOUND {
        Strategy::Serial
    } else {
        Strategy::OneTaskPerElement
    }
}

/// An input is mapped without any concurrent task exactly when it is shorter
/// than `MIN_BOUND`.
pub proof fn lemma_short_input_spawns_nothing(length: nat)
    ensures
        length < MIN_BOUND <==> select_spec(length) == Strategy::Serial,
        length < MIN_BOUND <==> spawned_tasks(length) == 0,
{
    if length > MAX_BOUND {
        assert(chunk_count(length, PART_FACTOR as nat) >= 1);
    }
}

/// No input gives rise to more concurrent tasks than it has elements, and
/// one task per element is chosen only up to `MAX_BOUND` elements, so that
/// strategy never has more than `MAX_BOUND` tasks alive.
pub proof fn lemma_spawned_tasks_bounded(length: nat)
    ensures
        spawned_tasks(length) <= length,
        select_spec(length) == Strategy::OneTaskPerElement ==> spawned_tasks(length) <= MAX_BOUND,
{
}

} // verus!
