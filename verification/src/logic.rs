//! Statistics over a draw history and the scoring of picks against it.

use std::collections::HashMap;
use vstd::prelude::*;
use vstd::seq_lib::{to_multiset_contains, to_multiset_len};
use vstd::slice::slice_to_vec;
use crate::cli::{CliArgs, StrategyStatus};
use crate::db::{draw_views, draws_of_game, get_draws, DrawStore, StoreError};
use crate::models::{Draw, DrawView, history};
use crate::picks::{
    copies_used, lemma_refill_adds_counts, lemma_take_splits_counts, occurrences, pool_left,
    range_len, refill, refills_only_when_empty, shuffle, take_line,
};

verus! {

/// How many positions of `pick` hold a number that occurs in `numbers`.
pub open spec fn match_count(pick: Seq<u8>, numbers: Seq<u8>) -> nat
    decreases pick.len(),
{
    if pick.len() == 0 {
        0
    } else {
        match_count(pick.drop_last(), numbers) + if numbers.contains(pick.last()) {
            1nat
        } else {
            0nat
        }
    }
}

/// The largest `match_count` of `pick` against any one draw; 0 for an empty history.
pub open spec fn best_match(pick: Seq<u8>, draws: Seq<Seq<u8>>) -> nat
    decreases draws.len(),
{
    if draws.len() == 0 {
        0
    } else {
        let before = best_match(pick, draws.drop_last());
        let here = match_count(pick, draws.last());
        if here > before {
            here
        } else {
            before
        }
    }
}

/// `numbers` has the length of `pick` and holds every number of `pick`.
pub open spec fn is_exact_match(pick: Seq<u8>, numbers: Seq<u8>) -> bool {
    pick.len() == numbers.len() && forall|i: int|
        0 <= i < pick.len() ==> numbers.contains(#[trigger] pick[i])
}

/// Some draw of the history is an exact match of `pick`.
pub open spec fn exact_match(pick: Seq<u8>, draws: Seq<Seq<u8>>) -> bool {
    exists|d: int| 0 <= d < draws.len() && is_exact_match(pick, #[trigger] draws[d])
}

/// The score of one pick against a history.
#[derive(Clone, Debug, PartialEq, Eq)]
pub struct MatchResult {
    pub pick: Vec<u8>,
    pub best_match: usize,
    pub exact_match: bool,
}

impl MatchResult {
    /// This result is the score of `pick` against `draws`.
    pub open spec fn scores(&self, pick: Seq<u8>, draws: Seq<Seq<u8>>) -> bool {
        &&& self.pick@ == pick
        &&& self.best_match == best_match(pick, draws)
        &&& self.exact_match == exact_match(pick, draws)
    }
}

/// `best_match` is an upper bound of every draw's count, and some draw reaches it.
pub proof fn lemma_best_match_is_maximum(pick: Seq<u8>, draws: Seq<Seq<u8>>)
    ensures
        forall|d: int| 0 <= d < draws.len() ==> match_count(pick, #[trigger] draws[d]) <= best_match(pick, draws),
        draws.len() > 0 ==> exists|d: int|
            0 <= d < draws.len() && match_count(pick, #[trigger] draws[d]) == best_match(pick, draws),
        best_match(pick, draws) <= pick.len(),
    decreases draws.len(),
{
    lemma_match_count_bound(pick, Seq::empty());
    if draws.len() > 0 {
        let rest = draws.drop_last();
        lemma_best_match_is_maximum(pick, rest);
        lemma_match_count_bound(pick, draws.last());
        assert forall|d: int| 0 <= d < draws.len() implies match_count(pick, #[trigger] draws[d])
            <= best_match(pick, draws) by {
            if d < rest.len() {
                assert(rest[d] == draws[d]);
            }
        }
        if match_count(pick, draws.last()) > best_match(pick, rest) || rest.len() == 0 {
            assert(match_count(pick, draws[draws.len() - 1]) == best_match(pick, draws));
        } else {
            let d = choose|d: int|
                0 <= d < rest.len() && match_count(pick, #[trigger] rest[d]) == best_match(pick, rest);
            assert(rest[d] == draws[d]);
        }
    }
}

/// No more positions can match than the pick has.
pub proof fn lemma_match_count_bound(pick: Seq<u8>, numbers: Seq<u8>)
    ensures
        match_count(pick, numbers) <= pick.len(),
    decreases pick.len(),
{
    if pick.len() > 0 {
        lemma_match_count_bound(pick.drop_last(), numbers);
    }
}

/// Whether `needle` occurs among the first `end` entries of `numbers`.
pub fn contains_before(numbers: &[u8], end: usize, needle: u8) -> (found: bool)
    requires
        end <= numbers@.len(),
    ensures
        found == numbers@.take(end as int).contains(needle),
{
    let mut i: usize = 0;
    while i < end
        invariant
            i <= end <= numbers@.len(),
            forall|j: int| 0 <= j < i ==> numbers@[j] != needle,
        decreases end - i,
    {
        if numbers[i] == needle {
            assert(numbers@.take(end as int)[i as int] == needle);
            return true;
        }
        i += 1;
    }
    false
}

/// Whether `needle` occurs in `numbers`.
pub fn contains_number(numbers: &[u8], needle: u8) -> (found: bool)
    ensures
        found == numbers@.contains(needle),
{
    proof {
        assert(numbers@.take(numbers@.len() as int) =~= numbers@);
    }
    contains_before(numbers, numbers.len(), needle)
}

/// Counts the positions of `pick` whose number occurs in `numbers`.
pub fn count_matches(pick: &[u8], numbers: &[u8]) -> (count: usize)
    ensures
        count == match_count(pick@, numbers@),
{
    let mut count: usize = 0;
    let mut i: usize = 0;
    while i < pick.len()
        invariant
            i <= pick.len(),
            count == match_count(pick@.take(i as int), numbers@),
            count <= i,
        decreases pick.len() - i,
    {
        proof {
            assert(pick@.take(i + 1).drop_last() =~= pick@.take(i as int));
        }
        if contains_number(numbers, pick[i]) {
            count += 1;
        }
        i += 1;
    }
    proof {
        assert(pick@.take(pick.len() as int) =~= pick@);
    }
    count
}

/// Whether `numbers` is as long as `pick` and holds each of its numbers.
pub fn is_exact(pick: &[u8], numbers: &[u8]) -> (exact: bool)
    ensures
        exact == is_exact_match(pick@, numbers@),
{
    if pick.len() != numbers.len() {
        return false;
    }
    let mut i: usize = 0;
    while i < pick.len()
        invariant
            i <= pick.len(),
            pick.len() == numbers.len(),
            forall|j: int| 0 <= j < i ==> numbers@.contains(#[trigger] pick@[j]),
        decreases pick.len() - i,
    {
        if !contains_number(numbers, pick[i]) {
            return false;
        }
        i += 1;
    }
    true
}

/// Scores one pick against the whole history.
pub fn score_pick(pick: &[u8], draws: &[Draw]) -> (result: MatchResult)
    ensures
        result.scores(pick@, history(draws@)),
{
    let ghost all = history(draws@);
    let mut best: usize = 0;
    let mut exact = false;
    let mut d: usize = 0;
    while d < draws.len()
        invariant
            d <= draws.len(),
            all == history(draws@),
            best == best_match(pick@, all.take(d as int)),
            exact == exact_match(pick@, all.take(d as int)),
        decreases draws.len() - d,
    {
        proof {
            assert(all.take(d + 1).drop_last() =~= all.take(d as int));
            assert(all.take(d + 1).last() == draws@[d as int].numbers@);
        }
        let ghost seen = all.take(d as int);
        let ghost next = all.take(d + 1);
        let numbers = draws[d].numbers.as_slice();
        let count = count_matches(pick, numbers);
        if count > best {
            best = count;
        }
        let here = is_exact(pick, numbers);
        proof {
            if exact {
                let w = choose|w: int| 0 <= w < seen.len() && is_exact_match(pick@, #[trigger] seen[w]);
                assert(next[w] == seen[w]);
            }
            if here {
                assert(is_exact_match(pick@, next[d as int]));
            }
            if exact_match(pick@, next) {
                let w = choose|w: int| 0 <= w < next.len() && is_exact_match(pick@, #[trigger] next[w]);
                if w < d {
                    assert(seen[w] == next[w]);
                }
            }
        }
        if here {
            exact = true;
        }
        d += 1;
    }
    proof {
        assert(all.take(draws.len() as int) =~= all);
    }
    MatchResult { pick: slice_to_vec(pick), best_match: best, exact_match: exact }
}

/// Scores every pick against the history, in the order of the picks.
pub fn check_picks_against_history(picks: &[Vec<u8>], draws: &[Draw]) -> (results: Vec<MatchResult>)
    ensures
        results@.len() == picks@.len(),
        forall|i: int|
            0 <= i < picks@.len() ==> (#[trigger] results@[i]).scores(picks@[i]@, history(draws@)),
{
    let mut results: Vec<MatchResult> = Vec::new();
    let mut i: usize = 0;
    while i < picks.len()
        invariant
            i <= picks.len(),
            results@.len() == i,
            forall|k: int| 0 <= k < i ==> (#[trigger] results@[k]).scores(picks@[k]@, history(draws@)),
        decreases picks.len() - i,
    {
        let result = score_pick(picks[i].as_slice(), draws);
        results.push(result);
        i += 1;
    }
    results
}

/// In how many draws `number` occurs; a draw that holds it twice counts once.
pub open spec fn draw_count(draws: Seq<Seq<u8>>, number: u8) -> nat
    decreases draws.len(),
{
    if draws.len() == 0 {
        0
    } else {
        draw_count(draws.drop_last(), number) + if draws.last().contains(number) {
            1nat
        } else {
            0nat
        }
    }
}

/// A number is counted at least once exactly when some draw holds it, and never
/// more often than there are draws.
pub proof fn lemma_draw_count_positive(draws: Seq<Seq<u8>>, number: u8)
    ensures
        draw_count(draws, number) > 0 <==> exists|d: int|
            0 <= d < draws.len() && (#[trigger] draws[d]).contains(number),
        draw_count(draws, number) <= draws.len(),
    decreases draws.len(),
{
    if draws.len() > 0 {
        let rest = draws.drop_last();
        lemma_draw_count_positive(rest, number);
        if draw_count(rest, number) > 0 {
            let d = choose|d: int| 0 <= d < rest.len() && (#[trigger] rest[d]).contains(number);
            assert(draws[d] == rest[d]);
        }
        if draws.last().contains(number) {
            assert(draws[draws.len() - 1].contains(number));
        }
        if exists|d: int| 0 <= d < draws.len() && (#[trigger] draws[d]).contains(number) {
            let d = choose|d: int| 0 <= d < draws.len() && (#[trigger] draws[d]).contains(number);
            if d < rest.len() {
                assert(rest[d] == draws[d]);
            }
        }
    }
}

/// `freq` maps each number that some draw holds to the number of draws that hold
/// it, and has no entry for any other number.
pub open spec fn is_frequency_of(freq: Map<u8, usize>, draws: Seq<Seq<u8>>) -> bool {
    forall|number: u8|
        {
            &&& freq.contains_key(number) <==> #[trigger] draw_count(draws, number) > 0
            &&& freq.contains_key(number) ==> freq[number] == draw_count(draws, number)
        }
}

/// The count of `number` once the draws before `partial` and the first entries of
/// `partial` have been read.
spec fn count_so_far(done: Seq<Seq<u8>>, partial: Seq<u8>, number: u8) -> nat {
    draw_count(done, number) + if partial.contains(number) {
        1nat
    } else {
        0nat
    }
}

/// For each number that occurs in the history, the number of draws it occurs in.
pub fn count_number_frequency(draws: &[Draw]) -> (freq: HashMap<u8, usize>)
    ensures
        is_frequency_of(freq@, history(draws@)),
{
    broadcast use vstd::std_specs::hash::group_hash_axioms;

    let ghost all = history(draws@);
    let mut freq: HashMap<u8, usize> = HashMap::new();
    let mut d: usize = 0;
    while d < draws.len()
        invariant
            d <= draws.len(),
            all == history(draws@),
            is_frequency_of(freq@, all.take(d as int)),
        decreases draws.len() - d,
    {
        let numbers = draws[d].numbers.as_slice();
        let ghost done = all.take(d as int);
        let mut j: usize = 0;
        proof {
            assert forall|number: u8| !numbers@.take(0).contains(number) by {}
        }
        while j < numbers.len()
            invariant
                j <= numbers.len(),
                d < draws.len(),
                done.len() == d,
                forall|number: u8|
                    {
                        &&& freq@.contains_key(number) <==> #[trigger] count_so_far(
                            done,
                            numbers@.take(j as int),
                            number,
                        ) > 0
                        &&& freq@.contains_key(number) ==> freq@[number] == count_so_far(
                            done,
                            numbers@.take(j as int),
                            number,
                        )
                    },
            decreases numbers.len() - j,
        {
            let number = numbers[j];
            let ghost before = numbers@.take(j as int);
            let ghost after = numbers@.take(j + 1);
            let seen = contains_before(numbers, j, number);
            proof {
                lemma_draw_count_positive(done, number);
                assert(after[j as int] == number);
                assert forall|other: u8| after.contains(other) == (before.contains(other) || other
                    == number) by {
                    if before.contains(other) {
                        let k = choose|k: int| 0 <= k < before.len() && before[k] == other;
                        assert(after[k] == other);
                    }
                    if after.contains(other) && other != number {
                        let k = choose|k: int| 0 <= k < after.len() && after[k] == other;
                        assert(before[k] == other);
                    }
                }
            }
            if !seen {
                let current: usize = match freq.get(&number) {
                    Some(count) => *count,
                    None => 0,
                };
                assert(current == count_so_far(done, before, number));
                freq.insert(number, current + 1);
            }
            proof {
                assert forall|other: u8|
                    {
                        &&& freq@.contains_key(other) <==> #[trigger] count_so_far(done, after, other)
                            > 0
                        &&& freq@.contains_key(other) ==> freq@[other] == count_so_far(
                            done,
                            after,
                            other,
                        )
                    } by {
                    assert(count_so_far(done, before, other) >= 0);
                }
            }
            j += 1;
        }
        proof {
            assert(numbers@.take(numbers@.len() as int) =~= numbers@);
            assert(all.take(d + 1).drop_last() =~= done);
            assert(all.take(d + 1).last() == numbers@);
            assert forall|number: u8|
                count_so_far(done, numbers@, number) == #[trigger] draw_count(
                    all.take(d + 1),
                    number,
                ) by {}
            assert forall|number: u8|
                {
                    &&& freq@.contains_key(number) <==> #[trigger] draw_count(all.take(d + 1), number)
                        > 0
                    &&& freq@.contains_key(number) ==> freq@[number] == draw_count(
                        all.take(d + 1),
                        number,
                    )
                } by {
                assert(count_so_far(done, numbers@, number) >= 0);
            }
        }
        d += 1;
    }
    proof {
        assert(all.take(draws.len() as int) =~= all);
    }
    freq
}

/// Why a set of lines cannot be generated.
#[derive(Clone, Copy, Debug, PartialEq, Eq, Structural)]
pub enum ConfigError {
    /// A line asks for more distinct numbers than the range holds.
    LineExceedsRange,
}

/// The numbers of each line.
pub open spec fn lines_view(lines: Seq<Vec<u8>>) -> Seq<Seq<u8>> {
    Seq::new(lines.len(), |i: int| lines[i]@)
}

/// What holds of every set of lines that the pool can give, however the
/// shuffles fall: there are `n_lines` lines of `n_per_line` numbers each, all
/// from `min` to `max`; no number occurs more often over all lines than copies
/// of the range went into the pool; and, where the pool is only ever refilled
/// when it is empty, no line holds a number twice.
pub open spec fn is_balanced_draw(
    lines: Seq<Seq<u8>>,
    n_lines: nat,
    n_per_line: nat,
    min: u8,
    max: u8,
) -> bool {
    let range = range_len(min, max);
    &&& lines.len() == n_lines
    &&& forall|i: int| 0 <= i < lines.len() ==> (#[trigger] lines[i]).len() == n_per_line
    &&& forall|i: int, j: int|
        0 <= i < lines.len() && 0 <= j < lines[i].len() ==> min <= #[trigger] lines[i][j] <= max
    &&& forall|number: u8| #[trigger]
        occurrences(lines, number) <= copies_used(n_lines, n_per_line, range)
    &&& refills_only_when_empty(n_lines, n_per_line, range) ==> forall|i: int|
        0 <= i < lines.len() ==> (#[trigger] lines[i]).no_duplicates()
}

/// A number occurs in all lines together at least as often as in one of them.
pub proof fn lemma_occurrences_cover_line(lines: Seq<Seq<u8>>, i: int, number: u8)
    requires
        0 <= i < lines.len(),
    ensures
        lines[i].to_multiset().count(number) <= occurrences(lines, number),
    decreases lines.len(),
{
    if i < lines.len() - 1 {
        lemma_occurrences_cover_line(lines.drop_last(), i, number);
    }
}

/// Generates `n_lines` lines of `n_per_line` numbers from `min` to `max`. The
/// pool starts as one copy of the range; before each line it gets one more copy
/// if it holds fewer than `n_per_line` numbers, is shuffled, and gives up its
/// first `n_per_line` numbers as the line. A line longer than the range is
/// refused before anything is generated.
pub fn balanced_random_lines(n_lines: usize, n_per_line: usize, min: u8, max: u8) -> (result: Result<
    Vec<Vec<u8>>,
    ConfigError,
>)
    ensures
        match result {
            Ok(lines) => n_per_line <= range_len(min, max) && is_balanced_draw(
                lines_view(lines@),
                n_lines as nat,
                n_per_line as nat,
                min,
                max,
            ),
            Err(error) => n_per_line > range_len(min, max) && error == ConfigError::LineExceedsRange,
        },
{
    broadcast use vstd::seq_lib::group_to_multiset_ensures;

    let range: usize = if min <= max {
        (max - min) as usize + 1
    } else {
        0
    };
    if n_per_line > range {
        return Err(ConfigError::LineExceedsRange);
    }
    let ghost per_line = n_per_line as nat;
    let ghost total = range as nat;
    let ghost distinct = refills_only_when_empty(n_lines as nat, per_line, total);
    let mut pool: Vec<u8> = Vec::new();
    refill(&mut pool, min, max);
    let mut rng = rand::thread_rng();
    let mut picks: Vec<Vec<u8>> = Vec::new();
    let mut made: usize = 0;
    proof {
        assert forall|number: u8|
            (#[trigger] pool@.to_multiset().count(number)) + occurrences(lines_view(picks@), number)
                == if min <= number <= max {
                1nat
            } else {
                0nat
            } by {
            lemma_refill_adds_counts(Seq::empty(), min, max, number);
            assert(!Seq::<u8>::empty().contains(number));
        }
    }
    while made < n_lines
        invariant
            made <= n_lines,
            picks@.len() == made,
            n_per_line <= range <= 256,
            total == range == range_len(min, max),
            per_line == n_per_line,
            distinct == refills_only_when_empty(n_lines as nat, per_line, total),
            pool@.len() == pool_left(made as nat, per_line, total),
            forall|k: int| 0 <= k < made ==> (#[trigger] picks@[k])@.len() == n_per_line,
            forall|number: u8|
                (#[trigger] pool@.to_multiset().count(number)) + occurrences(
                    lines_view(picks@),
                    number,
                ) == if min <= number <= max {
                    copies_used(made as nat, per_line, total)
                } else {
                    0nat
                },
            distinct ==> forall|number: u8| #[trigger] pool@.to_multiset().count(number) <= 1,
            distinct ==> forall|k: int| 0 <= k < made ==> (#[trigger] picks@[k])@.no_duplicates(),
        decreases n_lines - made,
    {
        let ghost lines_before = lines_view(picks@);
        let ghost pool_before = pool@;
        if pool.len() < n_per_line {
            refill(&mut pool, min, max);
            proof {
                assert forall|number: u8|
                    (#[trigger] pool@.to_multiset().count(number))
                        == pool_before.to_multiset().count(number) + if min <= number <= max {
                        1nat
                    } else {
                        0nat
                    } by {
                    lemma_refill_adds_counts(pool_before, min, max, number);
                }
                if distinct {
                    assert(pool_left(made as nat, per_line, total) == 0);
                    assert forall|number: u8| #[trigger]
                        pool@.to_multiset().count(number) <= 1 by {
                        assert(!pool_before.contains(number));
                        to_multiset_contains(pool_before, number);
                    }
                }
            }
        }
        let ghost filled = pool@;
        shuffle(&mut pool, &mut rng);
        let ghost shuffled = pool@;
        assert(shuffled.len() == filled.len()) by {
            to_multiset_len(filled);
            to_multiset_len(shuffled);
        }
        let line = take_line(&mut pool, n_per_line);
        proof {
            assert forall|number: u8|
                shuffled.to_multiset().count(number) == (#[trigger] line@.to_multiset().count(number))
                    + pool@.to_multiset().count(number) by {
                lemma_take_splits_counts(shuffled, n_per_line as int, number);
            }
            if distinct {
                assert forall|number: u8|
                    line@.to_multiset().contains(number) implies line@.to_multiset().count(number)
                    == 1 by {
                    assert(shuffled.to_multiset().count(number) <= 1);
                }
                line@.lemma_multiset_has_no_duplicates_conv();
                assert forall|number: u8| #[trigger] pool@.to_multiset().count(number) <= 1 by {
                    assert(shuffled.to_multiset().count(number) <= 1);
                    assert(line@.to_multiset().count(number) >= 0);
                }
            }
        }
        picks.push(line);
        proof {
            let lines_after = lines_view(picks@);
            assert(lines_after.drop_last() =~= lines_before);
            assert(lines_after.last() == line@);
            assert forall|number: u8|
                (#[trigger] pool@.to_multiset().count(number)) + occurrences(lines_after, number)
                    == if min <= number <= max {
                    copies_used((made + 1) as nat, per_line, total)
                } else {
                    0nat
                } by {
                assert(shuffled.to_multiset().count(number) == line@.to_multiset().count(number)
                    + pool@.to_multiset().count(number));
                assert(pool_before.to_multiset().count(number) + occurrences(lines_before, number)
                    == if min <= number <= max {
                    copies_used(made as nat, per_line, total)
                } else {
                    0nat
                });
            }
        }
        made += 1;
    }
    proof {
        let lines = lines_view(picks@);
        assert forall|i: int, j: int| 0 <= i < lines.len() && 0 <= j < lines[i].len() implies min
            <= #[trigger] lines[i][j] <= max by {
            let number = lines[i][j];
            assert(lines[i].contains(number));
            lemma_occurrences_cover_line(lines, i, number);
            assert(pool@.to_multiset().count(number) >= 0);
        }
        assert forall|number: u8| #[trigger]
            occurrences(lines, number) <= copies_used(n_lines as nat, per_line, total) by {
            assert(pool@.to_multiset().count(number) >= 0);
        }
        assert forall|i: int| 0 <= i < lines.len() implies (#[trigger] lines[i]).len()
            == n_per_line by {
            assert(picks@[i]@.len() == n_per_line);
        }
        if distinct {
            assert forall|i: int| 0 <= i < lines.len() implies (#[trigger] lines[i]).no_duplicates() by {
                assert(picks@[i]@.no_duplicates());
            }
        }
    }
    Ok(picks)
}

/// The number of lines that play mode generates.
pub const PLAY_LINES: usize = 10;

/// The number of distinct numbers on one line.
pub const NUMBERS_PER_LINE: usize = 6;

/// The smallest number of the game.
pub const MIN_NUMBER: u8 = 1;

/// The largest number of the game.
pub const MAX_NUMBER: u8 = 55;

/// `table` lists, for each number from `min` to `max` in rising order, the
/// number of draws that hold it; a number that no draw holds has 0.
pub open spec fn is_count_table(table: Seq<usize>, draws: Seq<Seq<u8>>, min: u8, max: u8) -> bool {
    &&& table.len() == range_len(min, max)
    &&& forall|i: int|
        0 <= i < table.len() ==> #[trigger] table[i] == draw_count(draws, (min + i) as u8)
}

/// Lays the frequencies out as a table over the numbers from `min` to `max`,
/// with 0 for each number that has no entry.
pub fn frequency_table(freq: &HashMap<u8, usize>, min: u8, max: u8) -> (table: Vec<usize>)
    ensures
        table@.len() == range_len(min, max),
        forall|i: int|
            0 <= i < table@.len() ==> #[trigger] table@[i] == if freq@.contains_key((min + i) as u8) {
                freq@[(min + i) as u8]
            } else {
                0usize
            },
{
    broadcast use vstd::std_specs::hash::group_hash_axioms;

    let mut table: Vec<usize> = Vec::new();
    if min > max {
        return table;
    }
    let mut number: u8 = min;
    loop
        invariant_except_break
            table@.len() == number - min,
        invariant
            min <= number <= max,
            forall|i: int|
                0 <= i < table@.len() ==> #[trigger] table@[i] == if freq@.contains_key(
                    (min + i) as u8,
                ) {
                    freq@[(min + i) as u8]
                } else {
                    0usize
                },
        ensures
            table@.len() == max - min + 1,
        decreases max - number,
    {
        let count: usize = match freq.get(&number) {
            Some(count) => *count,
            None => 0,
        };
        table.push(count);
        if number == max {
            break ;
        }
        number += 1;
    }
    table
}

/// How many of the results have `matched` as their best match.
pub open spec fn wins(results: Seq<MatchResult>, matched: usize) -> nat
    decreases results.len(),
{
    if results.len() == 0 {
        0
    } else {
        wins(results.drop_last(), matched) + if results.last().best_match == matched {
            1nat
        } else {
            0nat
        }
    }
}

/// `stats` counts the results by best match, for 3, 4, 5 and 6 matches and for
/// nothing else.
pub open spec fn is_win_stats(stats: Map<usize, usize>, results: Seq<MatchResult>) -> bool {
    &&& stats.dom() == set![3usize, 4usize, 5usize, 6usize]
    &&& forall|matched: usize| #[trigger]
        stats.contains_key(matched) ==> stats[matched] == wins(results, matched)
}

/// There are never more wins than results.
pub proof fn lemma_wins_bound(results: Seq<MatchResult>, matched: usize)
    ensures
        wins(results, matched) <= results.len(),
    decreases results.len(),
{
    if results.len() > 0 {
        lemma_wins_bound(results.drop_last(), matched);
    }
}

/// Counts the results whose best match is 6, 5, 4 or 3.
pub fn win_stats(results: &[MatchResult]) -> (stats: HashMap<usize, usize>)
    ensures
        is_win_stats(stats@, results@),
{
    broadcast use vstd::std_specs::hash::group_hash_axioms;

    let mut stats: HashMap<usize, usize> = HashMap::new();
    stats.insert(6, 0);
    stats.insert(5, 0);
    stats.insert(4, 0);
    stats.insert(3, 0);
    assert(stats@.dom() =~= set![3usize, 4usize, 5usize, 6usize]);
    let mut i: usize = 0;
    while i < results.len()
        invariant
            i <= results.len(),
            is_win_stats(stats@, results@.take(i as int)),
        decreases results.len() - i,
    {
        let matched = results[i].best_match;
        proof {
            assert(results@.take(i + 1).drop_last() =~= results@.take(i as int));
            assert(results@.take(i + 1).last() == results@[i as int]);
            lemma_wins_bound(results@.take(i as int), matched);
        }
        let current: Option<usize> = match stats.get(&matched) {
            Some(count) => Some(*count),
            None => None,
        };
        match current {
            Some(count) => {
                stats.insert(matched, count + 1);
                assert(stats@.dom() =~= set![3usize, 4usize, 5usize, 6usize]);
            },
            None => {},
        }
        i += 1;
    }
    assert(results@.take(results.len() as int) =~= results@);
    stats
}

/// Generated lines with their scores.
#[derive(Debug)]
pub struct PlayReport {
    /// The lines, in the order in which they were generated.
    pub picks: Vec<Vec<u8>>,
    /// The score of each line against the history, in the same order.
    pub results: Vec<MatchResult>,
    /// How many lines had 6, 5, 4 and 3 as their best match.
    pub win_stats: HashMap<usize, usize>,
}

impl PlayReport {
    /// This report holds `picks`, the score of each against `draws`, and the
    /// count of those scores.
    pub open spec fn reports(&self, picks: Seq<Seq<u8>>, draws: Seq<Seq<u8>>) -> bool {
        &&& lines_view(self.picks@) == picks
        &&& self.results@.len() == picks.len()
        &&& forall|i: int|
            0 <= i < picks.len() ==> (#[trigger] self.results@[i]).scores(picks[i], draws)
        &&& is_win_stats(self.win_stats@, self.results@)
    }
}

/// Scores the lines against the history and counts the wins.
pub fn play_report(picks: Vec<Vec<u8>>, draws: &[Draw]) -> (report: PlayReport)
    ensures
        report.reports(lines_view(picks@), history(draws@)),
{
    let results = check_picks_against_history(picks.as_slice(), draws);
    let win_stats = win_stats(results.as_slice());
    PlayReport { picks, results, win_stats }
}

/// What an analysis found.
#[derive(Debug)]
pub struct Analysis {
    /// Whether the strategy that was asked for is implemented.
    pub strategy: StrategyStatus,
    /// The number of draws that hold each number from 1 to 55, if asked for.
    pub frequency: Option<Vec<usize>>,
    /// The generated lines and their scores, if asked for.
    pub play: Option<PlayReport>,
}

/// How a run ended.
#[derive(Debug)]
pub enum CliOutcome {
    /// The store holds no draw of the game: nothing was analysed.
    NoDraws,
    /// The draws of the game were analysed.
    Analysed(Analysis),
}

/// The numbers of each draw, in order.
pub open spec fn numbers_of(draws: Seq<DrawView>) -> Seq<Seq<u8>> {
    Seq::new(draws.len(), |i: int| draws[i].numbers)
}

impl CliOutcome {
    /// This outcome is what `args` asks for on a history of `draws`: no analysis
    /// where there are no draws; else the status of the strategy, the frequency
    /// table exactly if `show_freq` is set, and a play report exactly if `play`
    /// is set, on ten lines of six numbers from 1 to 55 as the pool gives them.
    pub open spec fn answers(&self, args: &CliArgs, draws: Seq<Seq<u8>>) -> bool {
        match self {
            CliOutcome::NoDraws => draws.len() == 0,
            CliOutcome::Analysed(analysis) => {
                &&& draws.len() > 0
                &&& analysis.strategy == args.strategy.status_spec()
                &&& match analysis.frequency {
                    Some(table) => args.show_freq && is_count_table(
                        table@,
                        draws,
                        MIN_NUMBER,
                        MAX_NUMBER,
                    ),
                    None => !args.show_freq,
                }
                &&& match analysis.play {
                    Some(report) => {
                        &&& args.play
                        &&& is_balanced_draw(
                            lines_view(report.picks@),
                            PLAY_LINES as nat,
                            NUMBERS_PER_LINE as nat,
                            MIN_NUMBER,
                            MAX_NUMBER,
                        )
                        &&& report.reports(lines_view(report.picks@), draws)
                    },
                    None => !args.play,
                }
            },
        }
    }
}

/// Analyses the draws of one game as `args` asks.
pub fn analyse(draws: &[Draw], args: &CliArgs) -> (outcome: CliOutcome)
    ensures
        outcome.answers(args, history(draws@)),
{
    if draws.len() == 0 {
        return CliOutcome::NoDraws;
    }
    let freq = count_number_frequency(draws);
    let frequency = if args.show_freq {
        let table = frequency_table(&freq, MIN_NUMBER, MAX_NUMBER);
        proof {
            assert forall|i: int| 0 <= i < table@.len() implies #[trigger] table@[i] == draw_count(
                history(draws@),
                (MIN_NUMBER + i) as u8,
            ) by {
                let number = (MIN_NUMBER + i) as u8;
                assert(freq@.contains_key(number) <==> draw_count(history(draws@), number) > 0);
            }
        }
        Some(table)
    } else {
        None
    };
    let play = if args.play {
        match balanced_random_lines(PLAY_LINES, NUMBERS_PER_LINE, MIN_NUMBER, MAX_NUMBER) {
            Ok(picks) => Some(play_report(picks, draws)),
            Err(_) => {
                assert(false);
                None
            },
        }
    } else {
        None
    };
    CliOutcome::Analysed(Analysis { strategy: args.strategy.status(), frequency, play })
}

/// Reads the draws of the game that `args` names from the store and analyses
/// them. A game without draws is no error: the outcome says so.
pub fn run_cli(store: &DrawStore, args: &CliArgs) -> (result: Result<CliOutcome, StoreError>)
    ensures
        match result {
            Ok(outcome) => store@.created && outcome.answers(
                args,
                numbers_of(draws_of_game(store@.rows, args.game@)),
            ),
            Err(error) => !store@.created && error == StoreError::MissingTable,
        },
{
    match get_draws(store, args.game.as_str()) {
        Ok(draws) => {
            assert(history(draws@) =~= numbers_of(draw_views(draws@)));
            Ok(analyse(draws.as_slice(), args))
        },
        Err(error) => Err(error),
    }
}

} // verus!
