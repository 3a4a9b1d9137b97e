//! What holds of upserts and of whole ingestions: an upsert on an existing key
//! rewrites at most that record's numbers, and an ingestion run a second time
//! changes nothing.

use vstd::prelude::*;
use crate::db::{
    clash, has_key, holds_key, imported, key_position, lemma_insert_keeps_consistent,
    lemma_update_keeps_consistent, records_distinct, store_consistent, synchronized, upsert_outcome,
    upserted, with_numbers, CsvDrawView, RowView, StoreError, StoreView, UpsertOutcome,
};
use crate::numbers::strip_brackets;

verus! {

/// The record at `at` is the one that `key_position` finds for its key.
pub proof fn lemma_key_position_is_unique(rows: Seq<RowView>, at: int)
    requires
        records_distinct(rows),
        0 <= at < rows.len(),
    ensures
        holds_key(rows, rows[at].game, rows[at].draw_date),
        key_position(rows, rows[at].game, rows[at].draw_date) == at,
{
    let game = rows[at].game;
    let draw_date = rows[at].draw_date;
    assert(has_key(rows[at], game, draw_date));
    let found = key_position(rows, game, draw_date);
    assert(has_key(rows[found], game, draw_date));
    if found < at {
        assert(!clash(rows[found], rows[at]));
    } else if found > at {
        assert(!clash(rows[at], rows[found]));
    }
}

/// Upsert on an existing record: with the numbers that the record already has,
/// nothing is written and the store stays as it is; with other numbers, the
/// record takes them, keeps its place, identifier and key, and no record is
/// added or otherwise changed.
pub proof fn lemma_upsert_existing(store: StoreView, at: int, numbers: Seq<char>)
    requires
        store_consistent(store),
        0 <= at < store.rows.len(),
    ensures
        ({
            let row = store.rows[at];
            let outcome = upsert_outcome(store, row.game, row.draw_date, numbers);
            let after = upserted(store, row.game, row.draw_date, numbers);
            &&& numbers == row.numbers ==> outcome == Ok::<UpsertOutcome, StoreError>(
                UpsertOutcome::Unchanged,
            ) && after == store
            &&& numbers != row.numbers ==> outcome == Ok::<UpsertOutcome, StoreError>(
                UpsertOutcome::Updated,
            )
            &&& after.rows.len() == store.rows.len()
            &&& after.last_id == store.last_id
            &&& after.rows[at] == with_numbers(row, numbers)
            &&& forall|k: int| 0 <= k < store.rows.len() && k != at ==> after.rows[k] == store.rows[k]
        }),
{
    lemma_key_position_is_unique(store.rows, at);
    let row = store.rows[at];
    if numbers == row.numbers {
        assert(store.rows.update(at, with_numbers(row, numbers)) =~= store.rows);
    }
}

/// One record for each game and date: whatever is upserted, the store keeps
/// its invariant, and no record is ever taken away.
pub proof fn lemma_upsert_keeps_one_record_per_key(
    store: StoreView,
    game: Seq<char>,
    draw_date: Seq<char>,
    numbers: Seq<char>,
)
    requires
        store_consistent(store),
    ensures
        store_consistent(upserted(store, game, draw_date, numbers)),
        upserted(store, game, draw_date, numbers).rows.len() >= store.rows.len(),
        upsert_outcome(store, game, draw_date, numbers) is Ok ==> holds_key(
            upserted(store, game, draw_date, numbers).rows,
            game,
            draw_date,
        ),
{
    let after = upserted(store, game, draw_date, numbers);
    match upsert_outcome(store, game, draw_date, numbers) {
        Err(_) => {},
        Ok(UpsertOutcome::Inserted) => {
            let added = RowView { id: store.last_id + 1, game, draw_date, numbers };
            lemma_insert_keeps_consistent(store.rows, store.last_id, added);
            assert(has_key(after.rows[store.rows.len() as int], game, draw_date));
        },
        Ok(_) => {
            let at = key_position(store.rows, game, draw_date);
            assert(has_key(store.rows[at], game, draw_date));
            lemma_update_keeps_consistent(store.rows, store.last_id, at, numbers);
            assert(has_key(after.rows[at], game, draw_date));
        },
    }
}

/// The source row is decoded and is a row of `game` on `draw_date`.
pub open spec fn is_row_of(row: Option<CsvDrawView>, game: Seq<char>, draw_date: Seq<char>) -> bool {
    row matches Some(decoded) && decoded.game == game && decoded.draw_date == draw_date
}

/// The numbers of the last source row of `game` on `draw_date`, if there is one.
pub open spec fn last_numbers(
    rows: Seq<Option<CsvDrawView>>,
    game: Seq<char>,
    draw_date: Seq<char>,
) -> Option<Seq<char>>
    decreases rows.len(),
{
    if rows.len() == 0 {
        None
    } else if is_row_of(rows.last(), game, draw_date) {
        Some(strip_brackets(rows.last()->0.combinations))
    } else {
        last_numbers(rows.drop_last(), game, draw_date)
    }
}

/// The source row is decoded and some record has its key.
pub open spec fn key_is_held(records: Seq<RowView>, row: Option<CsvDrawView>) -> bool {
    row matches Some(decoded) && holds_key(records, decoded.game, decoded.draw_date)
}

/// Every source row is decoded and its key is among the records.
pub open spec fn all_keys_held(records: Seq<RowView>, rows: Seq<Option<CsvDrawView>>) -> bool {
    forall|i: int| 0 <= i < rows.len() ==> key_is_held(records, #[trigger] rows[i])
}

/// The two records have the same identifier, game and date.
pub open spec fn same_record(one: RowView, other: RowView) -> bool {
    one.id == other.id && one.game == other.game && one.draw_date == other.draw_date
}

/// How the store `after` a successful ingestion of `rows` relates to the store
/// `before` it: the old records keep their places, identifiers and keys; every
/// record whose key occurs in the source has the numbers of the last source row
/// with that key, and every other record has its old numbers; each source key
/// has a record; new records were added only for keys that had none.
pub open spec fn settled(before: StoreView, rows: Seq<Option<CsvDrawView>>, after: StoreView) -> bool {
    &&& store_consistent(after)
    &&& after.created == before.created
    &&& rows.len() > 0 ==> after.created
    &&& before.rows.len() <= after.rows.len()
    &&& before.last_id <= after.last_id
    &&& forall|k: int|
        0 <= k < before.rows.len() ==> same_record(#[trigger] after.rows[k], before.rows[k])
    &&& forall|k: int|
        0 <= k < after.rows.len() ==> (#[trigger] after.rows[k]).numbers == (match last_numbers(
            rows,
            after.rows[k].game,
            after.rows[k].draw_date,
        ) {
            Some(numbers) => numbers,
            None => before.rows[k].numbers,
        })
    &&& forall|k: int|
        before.rows.len() <= k < after.rows.len() ==> last_numbers(
            rows,
            (#[trigger] after.rows[k]).game,
            after.rows[k].draw_date,
        ) is Some
    &&& all_keys_held(after.rows, rows)
    &&& all_keys_held(before.rows, rows) ==> after.rows.len() == before.rows.len() && after.last_id
        == before.last_id
}

/// A successful ingestion settles the store as `settled` says.
pub proof fn lemma_import_settles(before: StoreView, rows: Seq<Option<CsvDrawView>>)
    requires
        store_consistent(before),
        imported(before, rows) is Ok,
    ensures
        settled(before, rows, imported(before, rows)->Ok_0),
    decreases rows.len(),
{
    let after = imported(before, rows)->Ok_0;
    if rows.len() == 0 {
        assert(after == before);
    } else {
        let front = rows.drop_last();
        let mid = imported(before, front)->Ok_0;
        lemma_import_settles(before, front);
        let row = rows.last()->0;
        let game = row.game;
        let draw_date = row.draw_date;
        let numbers = strip_brackets(row.combinations);
        let outcome = upsert_outcome(mid, game, draw_date, numbers);
        assert(outcome is Ok);
        assert(after == upserted(mid, game, draw_date, numbers));
        assert(is_row_of(rows.last(), game, draw_date));
        assert(last_numbers(rows, game, draw_date) == Some(numbers));
        // what the last row leaves untouched is as the rows before it left it
        assert forall|other_game: Seq<char>, other_date: Seq<char>|
            !(other_game == game && other_date == draw_date) implies #[trigger] last_numbers(
            rows,
            other_game,
            other_date,
        ) == last_numbers(front, other_game, other_date) by {}
        let ghost at: int;
        if outcome == Ok::<UpsertOutcome, StoreError>(UpsertOutcome::Inserted) {
            at = mid.rows.len() as int;
            let added = RowView { id: mid.last_id + 1, game, draw_date, numbers };
            lemma_insert_keeps_consistent(mid.rows, mid.last_id, added);
            assert forall|k: int| 0 <= k < mid.rows.len() implies !has_key(
                #[trigger] mid.rows[k],
                game,
                draw_date,
            ) by {}
        } else {
            at = key_position(mid.rows, game, draw_date);
            assert(has_key(mid.rows[at], game, draw_date));
            lemma_update_keeps_consistent(mid.rows, mid.last_id, at, numbers);
            assert forall|k: int| 0 <= k < mid.rows.len() && k != at implies !has_key(
                #[trigger] mid.rows[k],
                game,
                draw_date,
            ) by {
                if k < at {
                    assert(!clash(mid.rows[k], mid.rows[at]));
                } else {
                    assert(!clash(mid.rows[at], mid.rows[k]));
                }
            }
        }
        assert(0 <= at < after.rows.len());
        assert(has_key(after.rows[at], game, draw_date));
        assert(after.rows[at].numbers == numbers);
        assert forall|k: int| 0 <= k < mid.rows.len() && k != at implies #[trigger] after.rows[k]
            == mid.rows[k] by {}
        assert forall|k: int| 0 <= k < mid.rows.len() implies same_record(
            #[trigger] after.rows[k],
            mid.rows[k],
        ) by {}
        assert forall|k: int| 0 <= k < before.rows.len() implies same_record(
            #[trigger] after.rows[k],
            before.rows[k],
        ) by {
            assert(same_record(after.rows[k], mid.rows[k]));
            assert(same_record(mid.rows[k], before.rows[k]));
        }
        assert forall|k: int| 0 <= k < after.rows.len() implies (#[trigger] after.rows[k]).numbers
            == (match last_numbers(rows, after.rows[k].game, after.rows[k].draw_date) {
            Some(found) => found,
            None => before.rows[k].numbers,
        }) by {
            if k != at {
                assert(after.rows[k] == mid.rows[k]);
                assert(!has_key(mid.rows[k], game, draw_date));
                assert(last_numbers(rows, mid.rows[k].game, mid.rows[k].draw_date) == last_numbers(
                    front,
                    mid.rows[k].game,
                    mid.rows[k].draw_date,
                ));
            }
        }
        assert forall|k: int| before.rows.len() <= k < after.rows.len() implies last_numbers(
            rows,
            (#[trigger] after.rows[k]).game,
            after.rows[k].draw_date,
        ) is Some by {
            if k != at {
                assert(after.rows[k] == mid.rows[k]);
                assert(!has_key(mid.rows[k], game, draw_date));
                assert(last_numbers(rows, mid.rows[k].game, mid.rows[k].draw_date) == last_numbers(
                    front,
                    mid.rows[k].game,
                    mid.rows[k].draw_date,
                ));
            }
        }
        assert forall|i: int| 0 <= i < rows.len() implies key_is_held(after.rows, #[trigger] rows[i]) by {
            if i < front.len() {
                assert(front[i] == rows[i]);
                assert(key_is_held(mid.rows, front[i]));
                let held = rows[i]->0;
                let w = key_position(mid.rows, held.game, held.draw_date);
                assert(has_key(mid.rows[w], held.game, held.draw_date));
                assert(same_record(after.rows[w], mid.rows[w]));
                assert(has_key(after.rows[w], held.game, held.draw_date));
            }
        }
        if all_keys_held(before.rows, rows) {
            assert forall|i: int| 0 <= i < front.len() implies key_is_held(
                before.rows,
                #[trigger] front[i],
            ) by {
                assert(front[i] == rows[i]);
            }
            assert(key_is_held(before.rows, rows[rows.len() - 1]));
            let w = key_position(before.rows, game, draw_date);
            assert(has_key(before.rows[w], game, draw_date));
            assert(same_record(mid.rows[w], before.rows[w]));
            assert(has_key(mid.rows[w], game, draw_date));
            assert(holds_key(mid.rows, game, draw_date));
        }
    }
}

/// An ingestion whose keys all have a record already, into a store whose
/// collection exists, succeeds.
pub proof fn lemma_import_of_held_keys_succeeds(before: StoreView, rows: Seq<Option<CsvDrawView>>)
    requires
        store_consistent(before),
        before.created,
        all_keys_held(before.rows, rows),
    ensures
        imported(before, rows) is Ok,
    decreases rows.len(),
{
    if rows.len() > 0 {
        let front = rows.drop_last();
        assert forall|i: int| 0 <= i < front.len() implies key_is_held(before.rows, #[trigger] front[i]) by {
            assert(front[i] == rows[i]);
        }
        lemma_import_of_held_keys_succeeds(before, front);
        lemma_import_settles(before, front);
        let mid = imported(before, front)->Ok_0;
        assert(key_is_held(before.rows, rows[rows.len() - 1]));
        let row = rows.last()->0;
        let w = key_position(before.rows, row.game, row.draw_date);
        assert(has_key(before.rows[w], row.game, row.draw_date));
        assert(same_record(mid.rows[w], before.rows[w]));
        assert(has_key(mid.rows[w], row.game, row.draw_date));
        assert(holds_key(mid.rows, row.game, row.draw_date));
    }
}

/// Idempotence: an ingestion of the same source rows, run a second time, leaves
/// the store exactly as the first run left it.
pub proof fn lemma_import_is_idempotent(store: StoreView, rows: Seq<Option<CsvDrawView>>)
    requires
        store_consistent(store),
    ensures
        synchronized(synchronized(store, rows), rows) == synchronized(store, rows),
{
    if imported(store, rows) is Ok {
        let once = imported(store, rows)->Ok_0;
        lemma_import_settles(store, rows);
        if rows.len() > 0 {
            lemma_import_of_held_keys_succeeds(once, rows);
            lemma_import_settles(once, rows);
            let twice = imported(once, rows)->Ok_0;
            assert forall|k: int| 0 <= k < once.rows.len() implies twice.rows[k] == once.rows[k] by {
                assert(same_record(twice.rows[k], once.rows[k]));
            }
            assert(twice.rows =~= once.rows);
        }
    }
}

} // verus!
