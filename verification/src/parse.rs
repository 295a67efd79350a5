//! The executable recognizer: from a line of text to a `RollRequest`.

use vstd::prelude::*;

use vstd::string::StringSliceAdditionalSpecFns;

use crate::grammar::{
    digit_val, digits_value, is_dchar, is_digit, is_sign, lemma_digits_prefix_characterize,
    lemma_digits_value_monotone, lemma_digits_value_step, parse_ok, spec_parse, values_in_range,
};
use crate::types::{Op, RollRequest, MAX_ADDEND, MAX_DICE_COUNT, MAX_DIE_SIZE};

verus! {

fn is_digit_byte(c: u8) -> (r: bool)
    ensures
        r == is_digit(c),
{
    0x30 <= c && c <= 0x39
}

/// The end of the digit run of `b` that starts at `from`.
fn scan_digits(b: &[u8], from: usize) -> (end: usize)
    requires
        from <= b@.len(),
    ensures
        from <= end <= b@.len(),
        forall|k: int| from <= k < end ==> is_digit(b@[k]),
        end < b@.len() ==> !is_digit(b@[end as int]),
{
    let n = b.len();
    let mut i = from;
    while i < n && is_digit_byte(b[i])
        invariant
            from <= i <= n,
            n == b@.len(),
            forall|k: int| from <= k < i ==> is_digit(b@[k]),
        decreases n - i,
    {
        i = i + 1;
    }
    i
}

/// The value of the digit run `b[from..to]`, or `None` where it exceeds
/// `limit`.
fn parse_digits(b: &[u8], from: usize, to: usize, limit: u64) -> (r: Option<u64>)
    requires
        from <= to <= b@.len(),
        forall|k: int| from <= k < to ==> is_digit(b@[k]),
        limit <= 1_000_000_000_000_000,
    ensures
        r matches Some(v) ==> v == digits_value(b@.subrange(from as int, to as int)) && v
            <= limit,
        r is None ==> digits_value(b@.subrange(from as int, to as int)) > limit,
{
    let ghost s = b@;
    let mut acc: u64 = 0;
    let mut i = from;
    proof {
        assert(s.subrange(from as int, from as int) =~= Seq::<u8>::empty());
    }
    while i < to
        invariant
            from <= i <= to <= s.len(),
            s == b@,
            forall|k: int| from <= k < to ==> is_digit(s[k]),
            acc == digits_value(s.subrange(from as int, i as int)),
            acc <= limit,
            limit <= 1_000_000_000_000_000,
        decreases to - i,
    {
        let d = b[i] - 0x30;
        proof {
            lemma_digits_value_step(s, from as int, i as int);
        }
        let next = acc * 10 + (d as u64);
        if next > limit {
            proof {
                lemma_digits_value_monotone(s, from as int, i as int + 1, to as int);
            }
            return None;
        }
        acc = next;
        i = i + 1;
    }
    Some(acc)
}

/// Recognizes one line and extracts the request.
///
/// Returns `None` where the line does not match the grammar, where a
/// number is out of range, or where the die has zero sides.
pub fn parse_request(input: &str) -> (r: Option<RollRequest>)
    ensures
        r is Some <==> parse_ok(input.spec_bytes()),
        r matches Some(req) ==> req.wf() && (spec_parse(input.spec_bytes()) matches Some(m)
            && req.dice_count == m.dice_count && req.die_size == m.die_size && req.operator
            == m.operator && req.addend == m.addend),
{
    let b = input.as_bytes();
    let ghost s = b@;
    let n = b.len();
    let i = scan_digits(b, 0);
    proof {
        lemma_digits_prefix_characterize(s, i as int);
    }
    if i == 0 || i >= n {
        return None;
    }
    let c = b[i];
    if !(c == 0x64 || c == 0x44) {
        return None;
    }
    let ghost rest = s.subrange(i as int + 1, s.len() as int);
    let j = scan_digits(b, i + 1);
    proof {
        assert forall|k: int| 0 <= k < j - i - 1 implies is_digit(rest[k]) by {
            assert(rest[k] == s[k + i + 1]);
        }
        assert(j - i - 1 < rest.len() ==> rest[j - i - 1] == s[j as int]);
        lemma_digits_prefix_characterize(rest, j - i - 1);
    }
    if j == i + 1 {
        return None;
    }
    let ghost q = j - i - 1;
    let operator: Op;
    let addend_from: usize;
    let addend_to: usize;
    if j == n {
        operator = Op::Add;
        addend_from = n;
        addend_to = n;
    } else {
        let sc = b[j];
        if !(sc == 0x2b || sc == 0x2d) {
            return None;
        }
        if j + 1 == n {
            return None;
        }
        let k = scan_digits(b, j + 1);
        let ghost tail = rest.subrange(q + 1, rest.len() as int);
        proof {
            assert forall|m: int| 0 <= m < k - j - 1 implies is_digit(tail[m]) by {
                assert(tail[m] == rest[m + q + 1]);
                assert(rest[m + q + 1] == s[m + j + 1]);
            }
            assert(k - j - 1 < tail.len() ==> tail[k - j - 1] == s[k as int]);
            lemma_digits_prefix_characterize(tail, k - j - 1);
        }
        if k != n {
            return None;
        }
        operator = if sc == 0x2b {
            Op::Add
        } else {
            Op::Subtract
        };
        addend_from = j + 1;
        addend_to = n;
    }
    proof {
        assert(spec_parse(s) is Some);
    }
    let dice_count = match parse_digits(b, 0, i, MAX_DICE_COUNT) {
        Some(v) => v,
        None => {
            return None;
        },
    };
    proof {
        assert(rest.subrange(0, q) =~= s.subrange(i as int + 1, j as int));
    }
    let die_size = match parse_digits(b, i + 1, j, MAX_DIE_SIZE) {
        Some(v) => v,
        None => {
            return None;
        },
    };
    if die_size == 0 {
        return None;
    }
    let addend = if addend_from == addend_to {
        proof {
            assert(s.subrange(addend_from as int, addend_to as int) =~= Seq::<u8>::empty());
        }
        0u64
    } else {
        proof {
            let tail = rest.subrange(q + 1, rest.len() as int);
            assert(tail =~= s.subrange(addend_from as int, addend_to as int));
        }
        match parse_digits(b, addend_from, addend_to, MAX_ADDEND) {
            Some(v) => v,
            None => {
                return None;
            },
        }
    };
    Some(RollRequest { dice_count, die_size, operator, addend })
}

} // verus!
