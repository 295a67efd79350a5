//! The dice-notation grammar over a line's bytes.
//!
//! An accepted line has the shape `NdM` or `NdM+K` / `NdM-K`: a run of
//! decimal digits, the letter `d` (either case), a second run of digits,
//! and optionally a sign followed by a third run of digits. No other
//! byte may appear anywhere, and each run must be non-empty.

use vstd::prelude::*;

use crate::types::{Op, MAX_ADDEND, MAX_DICE_COUNT, MAX_DIE_SIZE};

verus! {

/// An ASCII decimal digit.
pub open spec fn is_digit(c: u8) -> bool {
    0x30 <= c <= 0x39
}

/// The dice separator: `d` or `D`.
pub open spec fn is_dchar(c: u8) -> bool {
    c == 0x64 || c == 0x44
}

/// A sign byte: `+` or `-`.
pub open spec fn is_sign(c: u8) -> bool {
    c == 0x2b || c == 0x2d
}

/// The numeric value of one digit byte.
pub open spec fn digit_val(c: u8) -> nat {
    (c - 0x30) as nat
}

/// The decimal value of a run of digit bytes, most significant first.
pub open spec fn digits_value(s: Seq<u8>) -> nat
    decreases s.len(),
{
    if s.len() == 0 {
        0
    } else {
        digits_value(s.drop_last()) * 10 + digit_val(s.last())
    }
}

/// The length of the longest digit run at the start of `s`.
pub open spec fn digits_prefix_len(s: Seq<u8>) -> nat
    decreases s.len(),
{
    if s.len() > 0 && is_digit(s[0]) {
        1 + digits_prefix_len(s.subrange(1, s.len() as int))
    } else {
        0
    }
}

/// The numbers and the operator extracted from one accepted line.
pub ghost struct ParsedRoll {
    pub dice_count: nat,
    pub die_size: nat,
    pub operator: Op,
    pub addend: nat,
}

/// Deterministic recognition of one line: the extracted request, or `None`
/// where the line does not match the grammar.
pub open spec fn spec_parse(s: Seq<u8>) -> Option<ParsedRoll> {
    let i = digits_prefix_len(s) as int;
    if i == 0 || i >= s.len() || !is_dchar(s[i]) {
        None
    } else {
        let rest = s.subrange(i + 1, s.len() as int);
        let q = digits_prefix_len(rest) as int;
        if q == 0 {
            None
        } else {
            let dice_count = digits_value(s.subrange(0, i));
            let die_size = digits_value(rest.subrange(0, q));
            if q == rest.len() {
                Some(ParsedRoll { dice_count, die_size, operator: Op::Add, addend: 0 })
            } else if is_sign(rest[q]) && q + 1 < rest.len() {
                let op = if rest[q] == 0x2b {
                    Op::Add
                } else {
                    Op::Subtract
                };
                let tail = rest.subrange(q + 1, rest.len() as int);
                if digits_prefix_len(tail) == tail.len() {
                    Some(ParsedRoll { dice_count, die_size, operator: op, addend: digits_value(tail) })
                } else {
                    None
                }
            } else {
                None
            }
        }
    }
}

/// The extracted numbers are in range and the die has at least one side,
/// so the request can be evaluated without overflow.
pub open spec fn values_in_range(m: ParsedRoll) -> bool {
    &&& m.dice_count <= MAX_DICE_COUNT
    &&& 1 <= m.die_size <= MAX_DIE_SIZE
    &&& m.addend <= MAX_ADDEND
}

/// The line is accepted: it matches the grammar and its numbers are in range.
pub open spec fn parse_ok(s: Seq<u8>) -> bool {
    match spec_parse(s) {
        Some(m) => values_in_range(m),
        None => false,
    }
}

/// A split of `s` as `NdM`: digits up to `i`, a `d` at `i`, digits after.
pub open spec fn grammar_split_plain(s: Seq<u8>, i: int) -> bool {
    &&& 1 <= i
    &&& i + 2 <= s.len()
    &&& is_dchar(s[i])
    &&& (forall|k: int| 0 <= k < i ==> is_digit(s[k]))
    &&& (forall|k: int| i < k < s.len() ==> is_digit(s[k]))
}

/// A split of `s` as `NdM+K` or `NdM-K`: digits up to `i`, a `d` at `i`,
/// digits up to `j`, a sign at `j`, digits after.
pub open spec fn grammar_split_signed(s: Seq<u8>, i: int, j: int) -> bool {
    &&& 1 <= i
    &&& i + 1 < j
    &&& j + 2 <= s.len()
    &&& is_dchar(s[i])
    &&& is_sign(s[j])
    &&& (forall|k: int| 0 <= k < i ==> is_digit(s[k]))
    &&& (forall|k: int| i < k < j ==> is_digit(s[k]))
    &&& (forall|k: int| j < k < s.len() ==> is_digit(s[k]))
}

/// The declarative grammar: the line can be split in one of the two shapes.
pub open spec fn matches_grammar(s: Seq<u8>) -> bool {
    ||| exists|i: int| grammar_split_plain(s, i)
    ||| exists|i: int, j: int| grammar_split_signed(s, i, j)
}

/// Every byte of the digit prefix is a digit, and the prefix is maximal.
pub proof fn lemma_digits_prefix_props(s: Seq<u8>)
    ensures
        digits_prefix_len(s) <= s.len(),
        forall|k: int| 0 <= k < digits_prefix_len(s) ==> is_digit(s[k]),
        digits_prefix_len(s) < s.len() ==> !is_digit(s[digits_prefix_len(s) as int]),
    decreases s.len(),
{
    if s.len() > 0 && is_digit(s[0]) {
        let t = s.subrange(1, s.len() as int);
        lemma_digits_prefix_props(t);
        assert forall|k: int| 0 <= k < digits_prefix_len(s) implies is_digit(s[k]) by {
            if k > 0 {
                assert(is_digit(t[k - 1]));
            }
        }
        if digits_prefix_len(s) < s.len() {
            assert(!is_digit(t[digits_prefix_len(t) as int]));
        }
    }
}

/// The digit prefix length is the unique boundary: digits before it, a
/// non-digit (or the end) at it.
pub proof fn lemma_digits_prefix_characterize(s: Seq<u8>, i: int)
    requires
        0 <= i <= s.len(),
        forall|k: int| 0 <= k < i ==> is_digit(s[k]),
        i < s.len() ==> !is_digit(s[i]),
    ensures
        digits_prefix_len(s) == i,
    decreases s.len(),
{
    if i == 0 {
        assert(digits_prefix_len(s) == 0);
    } else {
        assert(is_digit(s[0]));
        let t = s.subrange(1, s.len() as int);
        assert(forall|k: int| 0 <= k < i - 1 ==> is_digit(t[k]));
        assert(i - 1 < t.len() ==> !is_digit(t[i - 1]));
        lemma_digits_prefix_characterize(t, i - 1);
    }
}

/// Extending a digit run by one byte multiplies its value by ten and adds
/// the new digit.
pub proof fn lemma_digits_value_step(s: Seq<u8>, from: int, i: int)
    requires
        0 <= from <= i < s.len(),
    ensures
        digits_value(s.subrange(from, i + 1)) == digits_value(s.subrange(from, i)) * 10
            + digit_val(s[i]),
{
    let a = s.subrange(from, i + 1);
    assert(a.drop_last() =~= s.subrange(from, i));
    assert(a.last() == s[i]);
}

/// The value of a digit run never shrinks as the run grows to the right.
pub proof fn lemma_digits_value_monotone(s: Seq<u8>, from: int, i: int, j: int)
    requires
        0 <= from <= i <= j <= s.len(),
    ensures
        digits_value(s.subrange(from, i)) <= digits_value(s.subrange(from, j)),
    decreases j - i,
{
    if i < j {
        lemma_digits_value_step(s, from, j - 1);
        lemma_digits_value_monotone(s, from, i, j - 1);
    }
}

proof fn lemma_parse_implies_grammar(s: Seq<u8>)
    requires
        spec_parse(s) is Some,
    ensures
        matches_grammar(s),
{
    lemma_digits_prefix_props(s);
    let i = digits_prefix_len(s) as int;
    let rest = s.subrange(i + 1, s.len() as int);
    lemma_digits_prefix_props(rest);
    let q = digits_prefix_len(rest) as int;
    if q == rest.len() {
        assert forall|k: int| i < k < s.len() implies is_digit(s[k]) by {
            assert(is_digit(rest[k - i - 1]));
        }
        assert(grammar_split_plain(s, i));
    } else {
        let j = i + 1 + q;
        assert(is_sign(rest[q]) && q + 1 < rest.len());
        let tail = rest.subrange(q + 1, rest.len() as int);
        lemma_digits_prefix_props(tail);
        assert(rest[q] == s[j]);
        assert forall|k: int| i < k < j implies is_digit(s[k]) by {
            assert(is_digit(rest[k - i - 1]));
        }
        assert forall|k: int| j < k < s.len() implies is_digit(s[k]) by {
            assert(tail[k - j - 1] == rest[k - i - 1]);
            assert(is_digit(tail[k - j - 1]));
        }
        assert(grammar_split_signed(s, i, j));
    }
}

proof fn lemma_plain_split_parses(s: Seq<u8>, i: int)
    requires
        grammar_split_plain(s, i),
    ensures
        spec_parse(s) matches Some(m) && m.operator == Op::Add && m.addend == 0,
{
    assert(!is_digit(s[i]));
    lemma_digits_prefix_characterize(s, i);
    let rest = s.subrange(i + 1, s.len() as int);
    assert forall|k: int| 0 <= k < rest.len() implies is_digit(rest[k]) by {
        assert(rest[k] == s[k + i + 1]);
    }
    lemma_digits_prefix_characterize(rest, rest.len() as int);
}

/// Default fields: a line of the shape `NdM`, with no sign group, parses
/// with operator `Add` and addend zero.
pub proof fn lemma_default_fields(s: Seq<u8>)
    requires
        exists|i: int| grammar_split_plain(s, i),
    ensures
        spec_parse(s) matches Some(m) && m.operator == Op::Add && m.addend == 0,
{
    let i = choose|i: int| grammar_split_plain(s, i);
    lemma_plain_split_parses(s, i);
}

proof fn lemma_grammar_implies_parse(s: Seq<u8>)
    requires
        matches_grammar(s),
    ensures
        spec_parse(s) is Some,
{
    if exists|i: int| grammar_split_plain(s, i) {
        let i = choose|i: int| grammar_split_plain(s, i);
        lemma_plain_split_parses(s, i);
    } else {
        let (i, j) = choose|i: int, j: int| grammar_split_signed(s, i, j);
        assert(!is_digit(s[i]));
        lemma_digits_prefix_characterize(s, i);
        let rest = s.subrange(i + 1, s.len() as int);
        let q = j - i - 1;
        assert forall|k: int| 0 <= k < q implies is_digit(rest[k]) by {
            assert(rest[k] == s[k + i + 1]);
        }
        assert(rest[q] == s[j]);
        lemma_digits_prefix_characterize(rest, q);
        let tail = rest.subrange(q + 1, rest.len() as int);
        assert forall|k: int| 0 <= k < tail.len() implies is_digit(tail[k]) by {
            assert(tail[k] == rest[k + q + 1]);
            assert(rest[k + q + 1] == s[k + j + 1]);
        }
        lemma_digits_prefix_characterize(tail, tail.len() as int);
        assert(q + 1 < rest.len());
        assert(spec_parse(s) is Some);
    }
}

/// A line is recognized exactly when it matches the dice grammar: the
/// deterministic parser and the declarative grammar agree on every input.
pub proof fn lemma_grammar_iff_parse(s: Seq<u8>)
    ensures
        matches_grammar(s) <==> spec_parse(s) is Some,
{
    if matches_grammar(s) {
        lemma_grammar_implies_parse(s);
    }
    if spec_parse(s) is Some {
        lemma_parse_implies_grammar(s);
    }
}

/// Grammar acceptance: every line that matches the grammar, and whose
/// numbers are in range with a die of at least one side, is accepted.
pub proof fn lemma_grammar_acceptance(s: Seq<u8>)
    requires
        matches_grammar(s),
        spec_parse(s) matches Some(m) ==> values_in_range(m),
    ensures
        parse_ok(s),
{
    lemma_grammar_iff_parse(s);
}

/// Grammar rejection: a line that does not match the grammar is never
/// accepted.
pub proof fn lemma_grammar_rejection(s: Seq<u8>)
    requires
        !matches_grammar(s),
    ensures
        !parse_ok(s),
{
    lemma_grammar_iff_parse(s);
}

} // verus!
