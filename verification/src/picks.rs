//! The pool that pick lines are taken from: the numbers of a range, refilled
//! with one more copy of the range whenever too few are left for a line, and
//! shuffled before each line is taken.

use rand::seq::SliceRandom;
use vstd::arithmetic::div_mod::{lemma_add_mod_noop, lemma_mod_sub_multiples_vanish, lemma_small_mod};
use vstd::prelude::*;
use vstd::seq_lib::lemma_multiset_commutative;

verus! {

/// The generator that `rand::thread_rng` hands out. Nothing of its state is
/// visible to the proofs.
#[verifier::external_type_specification]
#[verifier::external_body]
pub struct ExThreadRng(rand::rngs::ThreadRng);

/// `rand::thread_rng`: the calling thread's generator. Nothing is claimed of
/// it. (rand seeds it from the operating system on first use and gives up if
/// the system has no entropy to offer.)
pub assume_specification[ rand::thread_rng ]() -> (rng: rand::rngs::ThreadRng);

/// `rand::seq::SliceRandom::shuffle` on the pool: rand swaps elements in place,
/// so the pool holds the same numbers, each as often as before. Which order
/// comes out is left open.
#[verifier::external_body]
pub(crate) fn shuffle(pool: &mut Vec<u8>, rng: &mut rand::rngs::ThreadRng)
    ensures
        final(pool)@.to_multiset() == old(pool)@.to_multiset(),
{
    pool.shuffle(rng)
}

/// How many numbers the inclusive range from `min` to `max` holds.
pub open spec fn range_len(min: u8, max: u8) -> nat {
    if min <= max {
        (max - min + 1) as nat
    } else {
        0
    }
}

/// The numbers from `min` to `max`, both included, in rising order.
pub open spec fn number_range(min: u8, max: u8) -> Seq<u8> {
    Seq::new(range_len(min, max), |i: int| (min + i) as u8)
}

/// How many numbers are left in the pool after `lines` lines of `per_line`
/// numbers were taken from a range of `range` numbers.
pub open spec fn pool_left(lines: nat, per_line: nat, range: nat) -> int
    decreases lines,
{
    if lines == 0 {
        range as int
    } else {
        let before = pool_left((lines - 1) as nat, per_line, range);
        if before < per_line {
            before + range - per_line
        } else {
            before - per_line
        }
    }
}

/// How many copies of the range have gone into the pool by the time `lines`
/// lines were taken: the first, and one more for each refill.
pub open spec fn copies_used(lines: nat, per_line: nat, range: nat) -> nat
    decreases lines,
{
    if lines == 0 {
        1
    } else {
        let before = copies_used((lines - 1) as nat, per_line, range);
        if pool_left((lines - 1) as nat, per_line, range) < per_line {
            before + 1
        } else {
            before
        }
    }
}

/// Whenever one of the first `lines` lines needs a refill, the pool is empty.
/// Only then does the refilled pool hold no number twice.
pub open spec fn refills_only_when_empty(lines: nat, per_line: nat, range: nat) -> bool {
    forall|k: nat|
        k < lines ==> (#[trigger] pool_left(k, per_line, range)) >= per_line || pool_left(
            k,
            per_line,
            range,
        ) == 0
}

/// How often `number` occurs in all of `lines` together.
pub open spec fn occurrences(lines: Seq<Seq<u8>>, number: u8) -> nat
    decreases lines.len(),
{
    if lines.len() == 0 {
        0
    } else {
        occurrences(lines.drop_last(), number) + lines.last().to_multiset().count(number)
    }
}

/// The pool never runs below zero and never holds more than one range.
pub proof fn lemma_pool_left_bounds(lines: nat, per_line: nat, range: nat)
    requires
        per_line <= range,
    ensures
        0 <= pool_left(lines, per_line, range) <= range,
    decreases lines,
{
    if lines > 0 {
        lemma_pool_left_bounds((lines - 1) as nat, per_line, range);
    }
}

/// The pool's books balance: what is left is what went in less what the lines
/// took. And a copy of the range goes in only when the lines need it: where
/// more than one was used, the copies before the last did not cover the lines.
pub proof fn lemma_pool_accounts(lines: nat, per_line: nat, range: nat)
    requires
        per_line <= range,
    ensures
        copies_used(lines, per_line, range) >= 1,
        pool_left(lines, per_line, range) == copies_used(lines, per_line, range) * range - lines
            * per_line,
        copies_used(lines, per_line, range) > 1 ==> (copies_used(lines, per_line, range) - 1)
            * range < lines * per_line,
    decreases lines,
{
    let n = per_line as int;
    let r = range as int;
    if lines == 0 {
        assert(1 * r - 0 * n == r) by (nonlinear_arith);
    } else {
        let k = (lines - 1) as nat;
        lemma_pool_accounts(k, per_line, range);
        let c = copies_used(k, per_line, range) as int;
        let k_int = k as int;
        assert((k_int + 1) * n == k_int * n + n) by (nonlinear_arith);
        assert((c + 1) * r == c * r + r) by (nonlinear_arith);
        assert((c - 1) * r == c * r - r) by (nonlinear_arith);
        assert(k_int * n <= (k_int + 1) * n) by (nonlinear_arith)
            requires
                0 <= n,
                0 <= k_int,
        ;
    }
}

/// Where the lines divide the range evenly, a refill is only ever needed when
/// the pool is empty.
pub proof fn lemma_whole_lines_refill_when_empty(lines: nat, per_line: nat, range: nat)
    requires
        0 < per_line <= range,
        range % per_line == 0,
    ensures
        refills_only_when_empty(lines, per_line, range),
{
    assert forall|k: nat| k < lines implies (#[trigger] pool_left(k, per_line, range)) >= per_line
        || pool_left(k, per_line, range) == 0 by {
        lemma_pool_left_is_multiple(k, per_line, range);
        lemma_pool_left_bounds(k, per_line, range);
        let left = pool_left(k, per_line, range);
        if 0 < left < per_line {
            assert(left % (per_line as int) == left) by (nonlinear_arith)
                requires
                    0 < left < per_line,
            ;
        }
    }
}

/// Where the lines divide the range evenly, what is left in the pool is always
/// a whole number of lines.
proof fn lemma_pool_left_is_multiple(lines: nat, per_line: nat, range: nat)
    requires
        0 < per_line <= range,
        range % per_line == 0,
    ensures
        pool_left(lines, per_line, range) % (per_line as int) == 0,
    decreases lines,
{
    if lines > 0 {
        lemma_pool_left_is_multiple((lines - 1) as nat, per_line, range);
        lemma_pool_left_bounds((lines - 1) as nat, per_line, range);
        let before = pool_left((lines - 1) as nat, per_line, range);
        let n = per_line as int;
        let r = range as int;
        lemma_small_mod(0, per_line);
        lemma_add_mod_noop(before, r, n);
        lemma_mod_sub_multiples_vanish(before, n);
        lemma_mod_sub_multiples_vanish(before + r, n);
        assert(before - n == -n + before);
        assert(before + r - n == -n + (before + r));
    }
}

/// Where all the lines fit into one range, no refill is needed at all.
pub proof fn lemma_one_pool_needs_no_refill(lines: nat, per_line: nat, range: nat)
    requires
        lines * per_line <= range,
    ensures
        refills_only_when_empty(lines, per_line, range),
        copies_used(lines, per_line, range) == 1,
{
    assert forall|k: nat| k < lines implies (#[trigger] pool_left(k, per_line, range)) >= per_line
        || pool_left(k, per_line, range) == 0 by {
        lemma_first_pool(k, lines, per_line, range);
    }
    if lines > 0 {
        lemma_first_pool((lines - 1) as nat, lines, per_line, range);
    }
}

/// While all the lines fit into one range, the pool shrinks line by line and
/// still holds enough for the next.
proof fn lemma_first_pool(k: nat, lines: nat, per_line: nat, range: nat)
    requires
        k < lines,
        lines * per_line <= range,
    ensures
        pool_left(k, per_line, range) == range - k * per_line,
        pool_left(k, per_line, range) >= per_line,
        copies_used(k, per_line, range) == 1,
    decreases k,
{
    let k_int = k as int;
    let n = per_line as int;
    assert((k_int + 1) * n <= range && (k_int + 1) * n == k_int * n + n) by (nonlinear_arith)
        requires
            0 <= k_int < lines,
            0 <= n,
            lines * n <= range,
    ;
    if k > 0 {
        lemma_first_pool((k - 1) as nat, lines, per_line, range);
        assert((k_int - 1) * n + n == k_int * n) by (nonlinear_arith);
    } else {
        assert(k_int * n == 0) by (nonlinear_arith)
            requires
                k_int == 0,
        ;
    }
}

/// Each number of the range occurs in it once, and no other number occurs.
pub proof fn lemma_range_holds_each_once(min: u8, max: u8, number: u8)
    ensures
        number_range(min, max).to_multiset().count(number) == if min <= number <= max {
            1nat
        } else {
            0nat
        },
{
    broadcast use vstd::seq_lib::group_to_multiset_ensures;

    let range = number_range(min, max);
    range.lemma_multiset_has_no_duplicates();
    if min <= number <= max {
        assert(range[number - min] == number);
        assert(range.contains(number));
    } else {
        assert(!range.contains(number));
    }
}

/// Appends one copy of the range from `min` to `max` to the pool.
pub fn refill(pool: &mut Vec<u8>, min: u8, max: u8)
    ensures
        final(pool)@ == old(pool)@ + number_range(min, max),
{
    let ghost start = pool@;
    let ghost range = number_range(min, max);
    if min > max {
        assert(start + range =~= start);
        return ;
    }
    let mut next: u8 = min;
    assert(start + range.take(0) =~= start);
    loop
        invariant_except_break
            pool@ == start + range.take(next - min),
        invariant
            min <= next <= max,
            range == number_range(min, max),
        ensures
            pool@ == start + range,
        decreases max - next,
    {
        pool.push(next);
        assert(pool@ =~= start + range.take(next - min + 1));
        if next == max {
            assert(range.take(next - min + 1) =~= range);
            break ;
        }
        next += 1;
    }
}

/// Takes the first `count` numbers off the pool, in their order; the rest of
/// the pool moves up.
pub fn take_line(pool: &mut Vec<u8>, count: usize) -> (line: Vec<u8>)
    requires
        count <= old(pool)@.len(),
    ensures
        line@ == old(pool)@.take(count as int),
        final(pool)@ == old(pool)@.skip(count as int),
{
    let mut line = pool.split_off(count);
    std::mem::swap(pool, &mut line);
    line
}

/// Taking a line splits the counts of the pool between the line and the rest.
pub proof fn lemma_take_splits_counts(pool: Seq<u8>, count: int, number: u8)
    requires
        0 <= count <= pool.len(),
    ensures
        pool.to_multiset().count(number) == pool.take(count).to_multiset().count(number)
            + pool.skip(count).to_multiset().count(number),
{
    lemma_multiset_commutative(pool.take(count), pool.skip(count));
    assert(pool.take(count) + pool.skip(count) =~= pool);
}

/// A refill adds one to the count of each number of the range and leaves the
/// other counts alone.
pub proof fn lemma_refill_adds_counts(pool: Seq<u8>, min: u8, max: u8, number: u8)
    ensures
        (pool + number_range(min, max)).to_multiset().count(number) == pool.to_multiset().count(
            number,
        ) + if min <= number <= max {
            1nat
        } else {
            0nat
        },
{
    lemma_multiset_commutative(pool, number_range(min, max));
    lemma_range_holds_each_once(min, max, number);
}

} // verus!
