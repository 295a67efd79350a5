//! The data carried through one parse-and-evaluate cycle.

use vstd::prelude::*;

verus! {

/// Largest accepted number of dice in one request.
///
/// The grammar itself admits arbitrarily long digit runs; literals beyond
/// these bounds are rejected at parse time so that no later arithmetic can
/// overflow the native integer width.
pub const MAX_DICE_COUNT: u64 = 10_000;

/// Largest accepted die size.
pub const MAX_DIE_SIZE: u64 = 1_000_000_000;

/// Largest accepted addend.
pub const MAX_ADDEND: u64 = 1_000_000_000_000_000;

/// The operator applied to the addend: the sign written after the die size.
#[derive(Clone, Copy, Debug, PartialEq, Eq, Structural)]
pub enum Op {
    Add,
    Subtract,
}

/// A structured roll request, as extracted from one accepted input line.
#[derive(Clone, Copy, Debug)]
pub struct RollRequest {
    pub dice_count: u64,
    pub die_size: u64,
    pub operator: Op,
    pub addend: u64,
}

impl RollRequest {
    /// A request the evaluator accepts: the die has at least one side and
    /// every field is small enough that the total cannot overflow.
    pub open spec fn wf(self) -> bool {
        &&& self.dice_count <= MAX_DICE_COUNT
        &&& 1 <= self.die_size <= MAX_DIE_SIZE
        &&& self.addend <= MAX_ADDEND
    }
}

/// The result of evaluating one accepted roll request.
#[derive(Debug)]
pub struct RollOutcome {
    /// The values drawn, reported in ascending order.
    pub individual_rolls: Vec<u64>,
    pub operator: Op,
    pub addend: u64,
    pub total: u64,
}

/// A rejected input line, carried verbatim for display.
#[derive(Debug)]
pub struct ParseFailure {
    pub input: String,
}

} // verus!
