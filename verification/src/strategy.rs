//! One interface over the whole family: a tagged choice of algorithm,
//! selected by configuration rather than by parallel copies of an entry
//! point. Every choice meets the same contract.

use crate::chunked::{duplicate_encode_chunks, duplicate_encode_parallel};
use crate::counting::duplicate_encode;
use crate::model::encoding;
use crate::streaming::duplicate_encode_track_seen;
use vstd::prelude::*;
use vstd::string::StringSliceAdditionalSpecFns;

verus! {

/// How an encode call is executed. The two chunked modes carry their chunk
/// size, a tunable not tied to correctness.
#[derive(Clone, Copy, Debug)]
pub enum Strategy {
    /// Two passes, one thread, position by position.
    Sequential,
    /// Two passes, one thread, the rewrite walking fixed-size chunks.
    ChunkedSequential(usize),
    /// Two passes, the rewrite's chunks handed to parallel workers.
    ChunkedParallel(usize),
    /// One pass, retroactively fixing up earlier output.
    Streaming,
}

/// A strategy is usable when its configuration is: a chunk size that rounds
/// to zero is a configuration error, caught before encoding begins.
pub open spec fn strategy_valid(strategy: Strategy) -> bool {
    match strategy {
        Strategy::ChunkedSequential(chunk_size) => chunk_size >= 1,
        Strategy::ChunkedParallel(chunk_size) => chunk_size >= 1,
        _ => true,
    }
}

/// Checks a strategy's configuration, before any encode call runs.
pub fn validate_strategy(strategy: Strategy) -> (ok: bool)
    ensures
        ok == strategy_valid(strategy),
{
    match strategy {
        Strategy::ChunkedSequential(chunk_size) => chunk_size >= 1,
        Strategy::ChunkedParallel(chunk_size) => chunk_size >= 1,
        _ => true,
    }
}

/// Encodes `text` under the chosen strategy. Every strategy returns the same
/// output: the transform is a function of the input's bytes alone.
pub fn encode(text: &str, strategy: Strategy) -> (r: String)
    requires
        strategy_valid(strategy),
    ensures
        r@ == encoding(text.spec_bytes()),
{
    match strategy {
        Strategy::Sequential => duplicate_encode(text),
        Strategy::ChunkedSequential(chunk_size) => duplicate_encode_chunks(text, chunk_size),
        Strategy::ChunkedParallel(chunk_size) => duplicate_encode_parallel(text, chunk_size),
        Strategy::Streaming => duplicate_encode_track_seen(text),
    }
}

} // verus!
