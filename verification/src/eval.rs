//! Rolling the dice and aggregating the outcome.

use vstd::prelude::*;

use vstd::string::StringSliceAdditionalSpecFns;

use crate::grammar::{parse_ok, spec_parse};
use crate::parse::parse_request;
use crate::types::{
    Op, ParseFailure, RollOutcome, RollRequest, MAX_ADDEND, MAX_DICE_COUNT, MAX_DIE_SIZE,
};

verus! {

broadcast use vstd::seq_lib::group_to_multiset_ensures;

/// The sequence is in ascending order.
pub open spec fn sorted(s: Seq<u64>) -> bool {
    forall|p: int, q: int| 0 <= p < q < s.len() ==> s[p] <= s[q]
}

/// The sum of a sequence of rolls.
pub open spec fn sum_of(s: Seq<u64>) -> int
    decreases s.len(),
{
    if s.len() == 0 {
        0
    } else {
        sum_of(s.drop_last()) + s.last()
    }
}

/// The total for a given roll sum: the addend is added, or subtracted.
///
/// Arithmetic policy: a subtraction larger than the sum wraps around, as
/// native unsigned subtraction does — the deliberate choice here among
/// wrapping, saturating at zero and signalling an error.
pub open spec fn apply_op(op: Op, sum: int, addend: int) -> int {
    match op {
        Op::Add => sum + addend,
        Op::Subtract => if addend <= sum {
            sum - addend
        } else {
            sum - addend + 0x1_0000_0000_0000_0000
        },
    }
}

/// Appending one element adds it to the sum.
proof fn lemma_sum_step(s: Seq<u64>, i: int)
    requires
        0 <= i < s.len(),
    ensures
        sum_of(s.subrange(0, i + 1)) == sum_of(s.subrange(0, i)) + s[i],
{
    let a = s.subrange(0, i + 1);
    assert(a.drop_last() =~= s.subrange(0, i));
    assert(a.last() == s[i]);
}

/// Relies on `rand::Rng::gen_range` over the thread-local generator of
/// `rand::thread_rng`: the sample lies in the given closed range. The call
/// panics only on an empty range, which the precondition excludes. Nothing
/// more is assumed of the value: callers hold for every outcome.
#[verifier::external_body]
fn sample_uniform(lo: u64, hi: u64) -> (r: u64)
    requires
        lo <= hi,
    ensures
        lo <= r <= hi,
{
    rand::Rng::gen_range(&mut rand::thread_rng(), lo..=hi)
}

/// Draws the requested number of independent uniform samples, each between
/// one and the die size.
pub fn roll_dice(dice_count: u64, die_size: u64) -> (rolls: Vec<u64>)
    requires
        1 <= die_size,
        dice_count <= MAX_DICE_COUNT,
    ensures
        rolls@.len() == dice_count,
        forall|k: int| 0 <= k < rolls@.len() ==> 1 <= #[trigger] rolls@[k] <= die_size,
{
    let mut rolls: Vec<u64> = Vec::new();
    let mut i: u64 = 0;
    while i < dice_count
        invariant
            i <= dice_count,
            dice_count <= MAX_DICE_COUNT,
            1 <= die_size,
            rolls@.len() == i,
            forall|k: int| 0 <= k < rolls@.len() ==> 1 <= #[trigger] rolls@[k] <= die_size,
        decreases dice_count - i,
    {
        let v = sample_uniform(1, die_size);
        rolls.push(v);
        i = i + 1;
    }
    rolls
}

/// The index of a smallest element.
fn find_min_index(v: &Vec<u64>) -> (m: usize)
    requires
        v@.len() > 0,
    ensures
        0 <= m < v@.len(),
        forall|q: int| 0 <= q < v@.len() ==> v@[m as int] <= v@[q],
{
    let n = v.len();
    let mut m: usize = 0;
    let mut i: usize = 1;
    while i < n
        invariant
            0 <= m < i <= n,
            n == v@.len(),
            forall|q: int| 0 <= q < i ==> v@[m as int] <= v@[q],
        decreases n - i,
    {
        if v[i] < v[m] {
            m = i;
        }
        i = i + 1;
    }
    m
}

/// Sorts the rolls into ascending order: the result holds exactly the given
/// values, rearranged.
pub fn sort_rolls(v: Vec<u64>) -> (r: Vec<u64>)
    ensures
        sorted(r@),
        r@.to_multiset() == v@.to_multiset(),
        r@.len() == v@.len(),
{
    let ghost orig = v@;
    let mut rem = v;
    let mut out: Vec<u64> = Vec::new();
    while rem.len() > 0
        invariant
            out@.len() + rem@.len() == orig.len(),
            out@.to_multiset().add(rem@.to_multiset()) =~= orig.to_multiset(),
            sorted(out@),
            forall|p: int, q: int|
                0 <= p < out@.len() && 0 <= q < rem@.len() ==> out@[p] <= rem@[q],
        decreases rem@.len(),
    {
        let m = find_min_index(&rem);
        let ghost old_rem = rem@;
        let x = rem.remove(m);
        out.push(x);
        proof {
            assert(old_rem.contains(x));
            assert(old_rem.to_multiset().count(x) > 0);
            assert(out@.to_multiset().add(rem@.to_multiset()) =~= orig.to_multiset());
            assert forall|p: int, q: int|
                0 <= p < out@.len() && 0 <= q < rem@.len() implies out@[p] <= rem@[q] by {
                if q < m {
                    assert(rem@[q] == old_rem[q]);
                } else {
                    assert(rem@[q] == old_rem[q + 1]);
                }
            }
        }
    }
    out
}

/// The sum of all rolls, each at most the die size.
pub fn sum_rolls(v: &Vec<u64>, die_size: u64) -> (s: u64)
    requires
        v@.len() <= MAX_DICE_COUNT,
        die_size <= MAX_DIE_SIZE,
        forall|k: int| 0 <= k < v@.len() ==> v@[k] <= die_size,
    ensures
        s == sum_of(v@),
        s <= MAX_DICE_COUNT * MAX_DIE_SIZE,
{
    let n = v.len();
    let mut acc: u64 = 0;
    let mut i: usize = 0;
    proof {
        assert(v@.subrange(0, 0) =~= Seq::<u64>::empty());
    }
    while i < n
        invariant
            0 <= i <= n,
            n == v@.len(),
            n <= MAX_DICE_COUNT,
            die_size <= MAX_DIE_SIZE,
            forall|k: int| 0 <= k < v@.len() ==> v@[k] <= die_size,
            acc == sum_of(v@.subrange(0, i as int)),
            acc <= i * die_size,
        decreases n - i,
    {
        proof {
            lemma_sum_step(v@, i as int);
            assert(i * die_size + die_size == (i + 1) * die_size) by (nonlinear_arith);
            assert((i + 1) * die_size <= MAX_DICE_COUNT * MAX_DIE_SIZE) by (nonlinear_arith)
                requires i + 1 <= MAX_DICE_COUNT, die_size <= MAX_DIE_SIZE, 0 <= i,
            ;
        }
        acc = acc + v[i];
        i = i + 1;
    }
    proof {
        assert(v@.subrange(0, n as int) =~= v@);
        assert(n * die_size <= MAX_DICE_COUNT * MAX_DIE_SIZE) by (nonlinear_arith)
            requires n <= MAX_DICE_COUNT, die_size <= MAX_DIE_SIZE, 0 <= n,
        ;
    }
    acc
}

/// Sorts the given rolls and applies the operator and addend to their sum.
///
/// The aggregation is deterministic in its arguments: the outcome reports
/// exactly the given values in ascending order, and the total follows the
/// documented arithmetic policy.
pub fn aggregate(req: &RollRequest, rolls: Vec<u64>) -> (o: RollOutcome)
    requires
        req.wf(),
        rolls@.len() == req.dice_count,
        forall|k: int| 0 <= k < rolls@.len() ==> 1 <= #[trigger] rolls@[k] <= req.die_size,
    ensures
        o.individual_rolls@.to_multiset() == rolls@.to_multiset(),
        o.individual_rolls@.len() == rolls@.len(),
        forall|k: int|
            0 <= k < o.individual_rolls@.len() ==> 1 <= #[trigger] o.individual_rolls@[k]
                <= req.die_size,
        sorted(o.individual_rolls@),
        o.operator == req.operator,
        o.addend == req.addend,
        o.total as int == apply_op(req.operator, sum_of(o.individual_rolls@), req.addend as int),
{
    let sorted_rolls = sort_rolls(rolls);
    proof {
        assert forall|k: int| 0 <= k < sorted_rolls@.len() implies 1 <= #[trigger] sorted_rolls@[k]
            <= req.die_size by {
            let x = sorted_rolls@[k];
            assert(sorted_rolls@.to_multiset().count(x) > 0);
            assert(rolls@.contains(x));
        }
    }
    let sum = sum_rolls(&sorted_rolls, req.die_size);
    let total: u64 = match req.operator {
        Op::Add => sum + req.addend,
        Op::Subtract => {
            if req.addend <= sum {
                sum - req.addend
            } else {
                let deficit = req.addend - sum;
                (u64::MAX - deficit) + 1
            }
        },
    };
    RollOutcome { individual_rolls: sorted_rolls, operator: req.operator, addend: req.addend, total }
}

/// The outcome reported for an accepted line: as many rolls as requested,
/// each between one and the die size, in ascending order, with the operator
/// and addend extracted from the line and the total computed from the rolls.
pub open spec fn outcome_matches(s: Seq<u8>, o: RollOutcome) -> bool {
    match spec_parse(s) {
        Some(m) => {
            &&& o.individual_rolls@.len() == m.dice_count
            &&& (forall|k: int|
                0 <= k < o.individual_rolls@.len() ==> 1 <= #[trigger] o.individual_rolls@[k]
                    <= m.die_size)
            &&& sorted(o.individual_rolls@)
            &&& o.operator == m.operator
            &&& o.addend == m.addend
            &&& o.total as int == apply_op(m.operator, sum_of(o.individual_rolls@), m.addend as int)
        },
        None => false,
    }
}

/// Evaluates one line: recognizes the notation, draws the rolls, and
/// aggregates them; a line that is not accepted comes back verbatim.
pub fn evaluate(input: &str) -> (r: Result<RollOutcome, ParseFailure>)
    ensures
        r is Ok <==> parse_ok(input.spec_bytes()),
        r matches Ok(o) ==> outcome_matches(input.spec_bytes(), o),
        r matches Err(f) ==> f.input@ == input@,
{
    match parse_request(input) {
        Some(req) => {
            let rolls = roll_dice(req.dice_count, req.die_size);
            Ok(aggregate(&req, rolls))
        },
        None => Err(ParseFailure { input: input.to_owned() }),
    }
}

} // verus!
