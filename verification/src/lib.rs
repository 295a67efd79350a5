//! A verified parser and evaluator for tabletop dice notation.
//!
//! A line such as `3d6+2` asks for three six-sided dice to be rolled,
//! summed, and adjusted by two. The grammar, the numeric extraction and
//! the aggregation are specified and proved here; only the draw of a
//! single uniform random value is delegated to an outside generator.

mod eval;
mod grammar;
mod parse;
mod types;

pub use eval::{
    aggregate, apply_op, evaluate, outcome_matches, roll_dice, sort_rolls, sorted, sum_of,
    sum_rolls,
};
pub use grammar::{
    digit_val, digits_prefix_len, digits_value, grammar_split_plain, grammar_split_signed,
    is_dchar, is_digit, is_sign, lemma_default_fields, lemma_digits_prefix_characterize,
    lemma_digits_prefix_props, lemma_grammar_acceptance, lemma_grammar_iff_parse,
    lemma_grammar_rejection, matches_grammar,
    parse_ok, spec_parse, values_in_range, ParsedRoll,
};
pub use parse::parse_request;
pub use types::{Op, ParseFailure, RollOutcome, RollRequest, MAX_ADDEND, MAX_DICE_COUNT, MAX_DIE_SIZE};
