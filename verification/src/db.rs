//! The draw store: one record for each game and date, with upsert by that key
//! and ingestion of source rows as a single unit of work.

use vstd::prelude::*;
use crate::dates::{decode_date, stored_date};
use crate::models::{Draw, DrawView};
use crate::numbers::{decode_numbers, decoded, normalize_combinations, strip_brackets};

verus! {

/// One record of the store, with its numbers in their stored text form.
#[derive(Clone, Debug, PartialEq, Eq)]
pub struct StoredDraw {
    pub id: i64,
    pub game: String,
    pub draw_date: String,
    pub numbers: String,
}

/// What a record is, as mathematical values.
pub struct RowView {
    pub id: int,
    pub game: Seq<char>,
    pub draw_date: Seq<char>,
    pub numbers: Seq<char>,
}

impl View for StoredDraw {
    type V = RowView;

    open spec fn view(&self) -> RowView {
        RowView {
            id: self.id as int,
            game: self.game@,
            draw_date: self.draw_date@,
            numbers: self.numbers@,
        }
    }
}

/// One row of the source: a game, a date and the bracketed list of its numbers.
#[derive(Clone, Debug, PartialEq, Eq)]
pub struct CsvDraw {
    pub game: String,
    pub draw_date: String,
    pub combinations: String,
}

/// What a source row is, as mathematical values.
pub struct CsvDrawView {
    pub game: Seq<char>,
    pub draw_date: Seq<char>,
    pub combinations: Seq<char>,
}

impl View for CsvDraw {
    type V = CsvDrawView;

    open spec fn view(&self) -> CsvDrawView {
        CsvDrawView {
            game: self.game@,
            draw_date: self.draw_date@,
            combinations: self.combinations@,
        }
    }
}

/// Why the store refused an operation.
#[derive(Clone, Copy, Debug, PartialEq, Eq, Structural)]
pub enum StoreError {
    /// The collection of draws has not been created.
    MissingTable,
    /// No identifier is left for a new record.
    IdsExhausted,
    /// Two of the records to load share a key or an identifier.
    DuplicateRecord,
}

/// Why an ingestion was abandoned.
#[derive(Clone, Copy, Debug, PartialEq, Eq, Structural)]
pub enum ImportError {
    /// The source row at this position, counted from 0, could not be decoded.
    SourceFormat { row: usize },
    /// The store refused a write.
    Store(StoreError),
}

/// What an upsert did to the store.
#[derive(Clone, Copy, Debug, PartialEq, Eq, Structural)]
pub enum UpsertOutcome {
    /// No record had the key: a new one was added.
    Inserted,
    /// The record with the key had other numbers: they were replaced.
    Updated,
    /// The record with the key had these numbers already: nothing was written.
    Unchanged,
}

/// The store as mathematical values: whether the collection exists, its records
/// in the order in which they were added, and the last identifier given out.
pub struct StoreView {
    pub created: bool,
    pub rows: Seq<RowView>,
    pub last_id: int,
}

/// `row` is the record of `game` on `draw_date`.
pub open spec fn has_key(row: RowView, game: Seq<char>, draw_date: Seq<char>) -> bool {
    row.game == game && row.draw_date == draw_date
}

/// Some record of `rows` has the key.
pub open spec fn holds_key(rows: Seq<RowView>, game: Seq<char>, draw_date: Seq<char>) -> bool {
    exists|i: int| 0 <= i < rows.len() && has_key(#[trigger] rows[i], game, draw_date)
}

/// Where the record with the key stands in `rows`, if one has it.
pub open spec fn key_position(rows: Seq<RowView>, game: Seq<char>, draw_date: Seq<char>) -> int {
    choose|i: int| 0 <= i < rows.len() && has_key(#[trigger] rows[i], game, draw_date)
}

/// The two records share their key or their identifier.
pub open spec fn clash(one: RowView, other: RowView) -> bool {
    has_key(one, other.game, other.draw_date) || one.id == other.id
}

/// No two records share a key, and no two share an identifier.
pub open spec fn records_distinct(rows: Seq<RowView>) -> bool {
    forall|i: int, j: int| 0 <= i < j < rows.len() ==> !clash(#[trigger] rows[i], #[trigger] rows[j])
}

/// The records are distinct and no identifier lies beyond `last_id`.
pub open spec fn rows_consistent(rows: Seq<RowView>, last_id: int) -> bool {
    &&& records_distinct(rows)
    &&& forall|i: int| 0 <= i < rows.len() ==> (#[trigger] rows[i]).id <= last_id
}

/// The invariant of the store: at most one record for each game and date.
pub open spec fn store_consistent(store: StoreView) -> bool {
    &&& 0 <= store.last_id <= i64::MAX
    &&& rows_consistent(store.rows, store.last_id)
    &&& !store.created ==> store.rows.len() == 0 && store.last_id == 0
}

/// `row` with its numbers replaced.
pub open spec fn with_numbers(row: RowView, numbers: Seq<char>) -> RowView {
    RowView { id: row.id, game: row.game, draw_date: row.draw_date, numbers }
}

/// What an upsert reports for this store and key.
pub open spec fn upsert_outcome(
    store: StoreView,
    game: Seq<char>,
    draw_date: Seq<char>,
    numbers: Seq<char>,
) -> Result<UpsertOutcome, StoreError> {
    if !store.created {
        Err(StoreError::MissingTable)
    } else if holds_key(store.rows, game, draw_date) {
        if store.rows[key_position(store.rows, game, draw_date)].numbers == numbers {
            Ok(UpsertOutcome::Unchanged)
        } else {
            Ok(UpsertOutcome::Updated)
        }
    } else if store.last_id >= i64::MAX {
        Err(StoreError::IdsExhausted)
    } else {
        Ok(UpsertOutcome::Inserted)
    }
}

/// The store after an upsert: the record with the key has the given numbers,
/// in its old place and under its old identifier, or, where no record had the
/// key, a new record with the next identifier stands at the end. A refused
/// upsert leaves the store as it was.
pub open spec fn upserted(
    store: StoreView,
    game: Seq<char>,
    draw_date: Seq<char>,
    numbers: Seq<char>,
) -> StoreView {
    match upsert_outcome(store, game, draw_date, numbers) {
        Err(_) => store,
        Ok(UpsertOutcome::Inserted) => StoreView {
            created: true,
            rows: store.rows.push(
                RowView { id: store.last_id + 1, game, draw_date, numbers },
            ),
            last_id: store.last_id + 1,
        },
        Ok(_) => {
            let at = key_position(store.rows, game, draw_date);
            StoreView {
                created: true,
                rows: store.rows.update(at, with_numbers(store.rows[at], numbers)),
                last_id: store.last_id,
            }
        },
    }
}

/// The draw that a record decodes to.
pub open spec fn draw_of_row(row: RowView) -> DrawView {
    DrawView {
        id: row.id,
        game: row.game,
        draw_date: stored_date(row.draw_date),
        numbers: decoded(row.numbers),
    }
}

/// The draws of `game` among `rows`, decoded, in the order of the records.
pub open spec fn draws_of_game(rows: Seq<RowView>, game: Seq<char>) -> Seq<DrawView>
    decreases rows.len(),
{
    if rows.len() == 0 {
        Seq::empty()
    } else {
        let before = draws_of_game(rows.drop_last(), game);
        if rows.last().game == game {
            before.push(draw_of_row(rows.last()))
        } else {
            before
        }
    }
}

/// The views of a sequence of draws.
pub open spec fn draw_views(draws: Seq<Draw>) -> Seq<DrawView> {
    Seq::new(draws.len(), |i: int| draws[i]@)
}

/// The views of a sequence of records.
pub open spec fn row_views(records: Seq<StoredDraw>) -> Seq<RowView> {
    Seq::new(records.len(), |i: int| records[i]@)
}

/// The largest identifier among `rows`, and at least 0.
pub open spec fn largest_id(rows: Seq<RowView>) -> int
    decreases rows.len(),
{
    if rows.len() == 0 {
        0
    } else {
        let before = largest_id(rows.drop_last());
        if rows.last().id > before {
            rows.last().id
        } else {
            before
        }
    }
}

/// An in-memory draw store.
pub struct DrawStore {
    created: bool,
    rows: Vec<StoredDraw>,
    last_id: i64,
}

impl View for DrawStore {
    type V = StoreView;

    closed spec fn view(&self) -> StoreView {
        StoreView { created: self.created, rows: row_views(self.rows@), last_id: self.last_id as int }
    }
}

impl DrawStore {
    /// The store keeps its invariant.
    pub open spec fn well_formed(&self) -> bool {
        store_consistent(self@)
    }

    /// A store in which the collection of draws does not exist yet.
    pub fn new() -> (store: DrawStore)
        ensures
            store@ == (StoreView { created: false, rows: Seq::empty(), last_id: 0 }),
            store.well_formed(),
    {
        let store = DrawStore { created: false, rows: Vec::new(), last_id: 0 };
        assert(store@.rows =~= Seq::empty());
        store
    }

    /// A store that holds `records`, in their order. Records that share a key or
    /// an identifier are refused.
    pub fn restore(records: Vec<StoredDraw>) -> (result: Result<DrawStore, StoreError>)
        ensures
            match result {
                Ok(store) => {
                    &&& records_distinct(row_views(records@))
                    &&& store.well_formed()
                    &&& store@ == (StoreView {
                        created: true,
                        rows: row_views(records@),
                        last_id: largest_id(row_views(records@)),
                    })
                },
                Err(error) => !records_distinct(row_views(records@)) && error
                    == StoreError::DuplicateRecord,
            },
    {
        let ghost rows = row_views(records@);
        let mut last_id: i64 = 0;
        let mut i: usize = 0;
        while i < records.len()
            invariant
                i <= records.len(),
                rows == row_views(records@),
                last_id == largest_id(rows.take(i as int)),
                forall|a: int, b: int| 0 <= a < b < i ==> !clash(#[trigger] rows[a], #[trigger] rows[b]),
            decreases records.len() - i,
        {
            let mut j: usize = 0;
            while j < i
                invariant
                    j <= i < records.len(),
                    rows == row_views(records@),
                    forall|a: int| 0 <= a < j ==> !clash(#[trigger] rows[a], rows[i as int]),
                decreases i - j,
            {
                let same_key = records[j].game == records[i].game && records[j].draw_date
                    == records[i].draw_date;
                if same_key || records[j].id == records[i].id {
                    assert(clash(rows[j as int], rows[i as int]));
                    return Err(StoreError::DuplicateRecord);
                }
                j += 1;
            }
            proof {
                assert(rows.take(i + 1).drop_last() =~= rows.take(i as int));
                assert(rows.take(i + 1).last() == rows[i as int]);
            }
            if records[i].id > last_id {
                last_id = records[i].id;
            }
            i += 1;
        }
        proof {
            assert(rows.take(records.len() as int) =~= rows);
            lemma_largest_id_bounds(rows);
        }
        Ok(DrawStore { created: true, rows: records, last_id })
    }

    /// The records of the store, in the order in which they were added.
    pub fn records(&self) -> (records: &Vec<StoredDraw>)
        ensures
            row_views(records@) == self@.rows,
    {
        &self.rows
    }

    /// Where the record of `game` on `draw_date` stands, if there is one.
    fn find(&self, game: &str, draw_date: &str) -> (found: Option<usize>)
        requires
            self.well_formed(),
        ensures
            found is Some == holds_key(self@.rows, game@, draw_date@),
            found matches Some(at) ==> at < self@.rows.len() && at == key_position(
                self@.rows,
                game@,
                draw_date@,
            ),
    {
        let wanted_game = game.to_owned();
        let wanted_date = draw_date.to_owned();
        let mut i: usize = 0;
        while i < self.rows.len()
            invariant
                i <= self.rows.len(),
                self.well_formed(),
                wanted_game@ == game@,
                wanted_date@ == draw_date@,
                forall|j: int| 0 <= j < i ==> !has_key(#[trigger] self@.rows[j], game@, draw_date@),
            decreases self.rows.len() - i,
        {
            if self.rows[i].game == wanted_game && self.rows[i].draw_date == wanted_date {
                proof {
                    let rows = self@.rows;
                    assert(has_key(rows[i as int], game@, draw_date@));
                    let at = key_position(rows, game@, draw_date@);
                    assert(has_key(rows[at], game@, draw_date@));
                    if at < i {
                        assert(!clash(rows[at], rows[i as int]));
                    } else if at > i {
                        assert(!clash(rows[i as int], rows[at]));
                    }
                }
                return Some(i);
            }
            i += 1;
        }
        None
    }

    /// Writes the numbers of `game` on `draw_date`: a new record where none has
    /// the key, new numbers where the record has others, and nothing where it has
    /// these already. On an error the store is as before.
    pub fn upsert(&mut self, game: &str, draw_date: &str, numbers: &str) -> (result: Result<
        UpsertOutcome,
        StoreError,
    >)
        requires
            old(self).well_formed(),
        ensures
            final(self).well_formed(),
            result == upsert_outcome(old(self)@, game@, draw_date@, numbers@),
            final(self)@ == upserted(old(self)@, game@, draw_date@, numbers@),
    {
        if !self.created {
            return Err(StoreError::MissingTable);
        }
        let ghost before = self@;
        let numbers = numbers.to_owned();
        match self.find(game, draw_date) {
            Some(at) => {
                if self.rows[at].numbers == numbers {
                    proof {
                        assert(before.rows.update(at as int, with_numbers(before.rows[at as int], numbers@))
                            =~= before.rows);
                    }
                    Ok(UpsertOutcome::Unchanged)
                } else {
                    let replacement = StoredDraw {
                        id: self.rows[at].id,
                        game: self.rows[at].game.clone(),
                        draw_date: self.rows[at].draw_date.clone(),
                        numbers,
                    };
                    self.rows.set(at, replacement);
                    proof {
                        let after = self@;
                        assert(after.rows =~= before.rows.update(
                            at as int,
                            with_numbers(before.rows[at as int], numbers@),
                        ));
                        lemma_update_keeps_consistent(before.rows, before.last_id, at as int, numbers@);
                    }
                    Ok(UpsertOutcome::Updated)
                }
            },
            None => {
                if self.last_id == i64::MAX {
                    return Err(StoreError::IdsExhausted);
                }
                let id = self.last_id + 1;
                self.rows.push(
                    StoredDraw {
                        id,
                        game: game.to_owned(),
                        draw_date: draw_date.to_owned(),
                        numbers,
                    },
                );
                self.last_id = id;
                proof {
                    let added = RowView { id: id as int, game: game@, draw_date: draw_date@, numbers: numbers@ };
                    assert(self@.rows =~= before.rows.push(added));
                    lemma_insert_keeps_consistent(before.rows, before.last_id, added);
                }
                Ok(UpsertOutcome::Inserted)
            },
        }
    }
}

/// Replacing the numbers of one record keeps the records consistent.
pub proof fn lemma_update_keeps_consistent(rows: Seq<RowView>, last_id: int, at: int, numbers: Seq<char>)
    requires
        rows_consistent(rows, last_id),
        0 <= at < rows.len(),
    ensures
        rows_consistent(rows.update(at, with_numbers(rows[at], numbers)), last_id),
{
    let after = rows.update(at, with_numbers(rows[at], numbers));
    assert forall|i: int, j: int| 0 <= i < j < after.len() implies !clash(
        #[trigger] after[i],
        #[trigger] after[j],
    ) by {
        assert(!clash(rows[i], rows[j]));
    }
    assert forall|i: int| 0 <= i < after.len() implies (#[trigger] after[i]).id <= last_id by {
        assert(rows[i].id <= last_id);
    }
}

/// Adding a record with a new key and the next identifier keeps the records
/// consistent.
pub proof fn lemma_insert_keeps_consistent(rows: Seq<RowView>, last_id: int, added: RowView)
    requires
        rows_consistent(rows, last_id),
        !holds_key(rows, added.game, added.draw_date),
        added.id == last_id + 1,
    ensures
        rows_consistent(rows.push(added), last_id + 1),
{
    let after = rows.push(added);
    assert forall|i: int, j: int| 0 <= i < j < after.len() implies !clash(
        #[trigger] after[i],
        #[trigger] after[j],
    ) by {
        assert(rows[i].id <= last_id);
        if j < rows.len() {
            assert(!clash(rows[i], rows[j]));
        } else {
            assert(!has_key(rows[i], added.game, added.draw_date));
        }
    }
    assert forall|i: int| 0 <= i < after.len() implies (#[trigger] after[i]).id <= last_id + 1 by {
        if i < rows.len() {
            assert(rows[i].id <= last_id);
        }
    }
}

/// No identifier among `rows` is larger than `largest_id(rows)`.
proof fn lemma_largest_id_bounds(rows: Seq<RowView>)
    ensures
        0 <= largest_id(rows),
        forall|i: int| 0 <= i < rows.len() ==> (#[trigger] rows[i]).id <= largest_id(rows),
    decreases rows.len(),
{
    if rows.len() > 0 {
        let front = rows.drop_last();
        lemma_largest_id_bounds(front);
        assert forall|i: int| 0 <= i < rows.len() implies (#[trigger] rows[i]).id <= largest_id(
            rows,
        ) by {
            if i < front.len() {
                assert(front[i] == rows[i]);
            }
        }
    }
}

/// Creates the collection of draws if it does not exist; an existing one, and
/// its records, stay as they are.
pub fn init_db(store: &mut DrawStore)
    requires
        old(store).well_formed(),
    ensures
        final(store).well_formed(),
        final(store)@ == (StoreView { created: true, ..old(store)@ }),
{
    store.created = true;
}

/// Drops the collection of draws with all its records and creates it anew;
/// identifiers start over.
pub fn recreate_db(store: &mut DrawStore)
    ensures
        final(store).well_formed(),
        final(store)@ == (StoreView { created: true, rows: Seq::empty(), last_id: 0 }),
{
    store.created = true;
    store.rows = Vec::new();
    store.last_id = 0;
    assert(store@.rows =~= Seq::empty());
}

/// Whether the store holds no draw at all, of any game.
pub fn is_draws_table_empty(store: &DrawStore) -> (result: Result<bool, StoreError>)
    ensures
        result == if store@.created {
            Ok::<bool, StoreError>(store@.rows.len() == 0)
        } else {
            Err::<bool, StoreError>(StoreError::MissingTable)
        },
{
    if !store.created {
        return Err(StoreError::MissingTable);
    }
    Ok(store.rows.len() == 0)
}

/// All draws of `game`, decoded, in the order in which the store holds them.
pub fn get_draws(store: &DrawStore, game: &str) -> (result: Result<Vec<Draw>, StoreError>)
    ensures
        match result {
            Ok(draws) => store@.created && draw_views(draws@) == draws_of_game(store@.rows, game@),
            Err(error) => !store@.created && error == StoreError::MissingTable,
        },
{
    if !store.created {
        return Err(StoreError::MissingTable);
    }
    let ghost rows = store@.rows;
    let wanted = game.to_owned();
    let mut draws: Vec<Draw> = Vec::new();
    let mut i: usize = 0;
    assert(draw_views(draws@) =~= draws_of_game(rows.take(0), game@));
    while i < store.rows.len()
        invariant
            i <= store.rows.len(),
            rows == store@.rows,
            wanted@ == game@,
            draw_views(draws@) == draws_of_game(rows.take(i as int), game@),
        decreases store.rows.len() - i,
    {
        let record = &store.rows[i];
        proof {
            assert(rows.take(i + 1).drop_last() =~= rows.take(i as int));
            assert(rows.take(i + 1).last() == record@);
        }
        if record.game == wanted {
            let ghost before = draw_views(draws@);
            let draw = Draw {
                id: record.id,
                game: record.game.clone(),
                draw_date: decode_date(record.draw_date.as_str()),
                numbers: decode_numbers(record.numbers.as_str()),
            };
            draws.push(draw);
            assert(draw_views(draws@) =~= before.push(draw_of_row(record@)));
        }
        i += 1;
    }
    assert(rows.take(store.rows.len() as int) =~= rows);
    Ok(draws)
}

/// The views of a sequence of source rows; a row that could not be decoded has
/// none.
pub open spec fn source_rows(rows: Seq<Option<CsvDraw>>) -> Seq<Option<CsvDrawView>> {
    Seq::new(
        rows.len(),
        |i: int|
            match rows[i] {
                Some(row) => Some(row@),
                None => None,
            },
    )
}

/// The store after the source row at position `at` is ingested: the row's
/// brackets are stripped and the rest is upserted under the row's game and
/// date. A row that could not be decoded, or a write that the store refuses,
/// is an error.
pub open spec fn row_imported(store: StoreView, row: Option<CsvDrawView>, at: int) -> Result<
    StoreView,
    ImportError,
> {
    match row {
        None => Err(ImportError::SourceFormat { row: at as usize }),
        Some(row) => {
            let numbers = strip_brackets(row.combinations);
            match upsert_outcome(store, row.game, row.draw_date, numbers) {
                Err(error) => Err(ImportError::Store(error)),
                Ok(_) => Ok(upserted(store, row.game, row.draw_date, numbers)),
            }
        },
    }
}

/// The store after all `rows` are ingested in order, or the error of the first
/// row that fails.
pub open spec fn imported(store: StoreView, rows: Seq<Option<CsvDrawView>>) -> Result<
    StoreView,
    ImportError,
>
    decreases rows.len(),
{
    if rows.len() == 0 {
        Ok(store)
    } else {
        match imported(store, rows.drop_last()) {
            Err(error) => Err(error),
            Ok(before) => row_imported(before, rows.last(), rows.len() - 1),
        }
    }
}

/// The store that an ingestion of `rows` leaves: the store with all rows
/// ingested, or the store as it was if any row fails.
pub open spec fn synchronized(store: StoreView, rows: Seq<Option<CsvDrawView>>) -> StoreView {
    match imported(store, rows) {
        Ok(after) => after,
        Err(_) => store,
    }
}

/// An error among the first rows is the error of the whole ingestion.
pub proof fn lemma_import_stops_at_first_error(
    store: StoreView,
    rows: Seq<Option<CsvDrawView>>,
    first: int,
)
    requires
        0 <= first <= rows.len(),
        imported(store, rows.take(first)) is Err,
    ensures
        imported(store, rows) == imported(store, rows.take(first)),
    decreases rows.len(),
{
    if first < rows.len() {
        assert(rows.drop_last().take(first) =~= rows.take(first));
        lemma_import_stops_at_first_error(store, rows.drop_last(), first);
    } else {
        assert(rows.take(first) =~= rows);
    }
}

/// A copy of a record.
fn copy_record(record: &StoredDraw) -> (copy: StoredDraw)
    ensures
        copy@ == record@,
{
    StoredDraw {
        id: record.id,
        game: record.game.clone(),
        draw_date: record.draw_date.clone(),
        numbers: record.numbers.clone(),
    }
}

impl DrawStore {
    /// A copy of the store.
    pub fn duplicate(&self) -> (copy: DrawStore)
        ensures
            copy@ == self@,
    {
        let mut rows: Vec<StoredDraw> = Vec::new();
        let mut i: usize = 0;
        while i < self.rows.len()
            invariant
                i <= self.rows.len(),
                row_views(rows@) == row_views(self.rows@).take(i as int),
            decreases self.rows.len() - i,
        {
            let ghost before = row_views(rows@);
            rows.push(copy_record(&self.rows[i]));
            assert(row_views(rows@) =~= before.push(self.rows@[i as int]@));
            assert(row_views(rows@) =~= row_views(self.rows@).take(i + 1));
            i += 1;
        }
        assert(row_views(self.rows@).take(self.rows.len() as int) =~= row_views(self.rows@));
        DrawStore { created: self.created, rows, last_id: self.last_id }
    }
}

/// Ingests the source rows in order, as one unit of work: each row's brackets
/// are stripped and the result is upserted under the row's game and date. If a
/// row could not be decoded or the store refuses a write, the first such error
/// is returned and the store is left exactly as it was; otherwise the number of
/// rows is returned.
pub fn import_csv_if_needed(store: &mut DrawStore, rows: &[Option<CsvDraw>]) -> (result: Result<
    usize,
    ImportError,
>)
    requires
        old(store).well_formed(),
    ensures
        final(store).well_formed(),
        final(store)@ == synchronized(old(store)@, source_rows(rows@)),
        result == match imported(old(store)@, source_rows(rows@)) {
            Ok(_) => Ok::<usize, ImportError>(rows@.len() as usize),
            Err(error) => Err::<usize, ImportError>(error),
        },
{
    let ghost source = source_rows(rows@);
    let ghost start = store@;
    let mut work = store.duplicate();
    let mut i: usize = 0;
    assert(source.take(0) =~= Seq::<Option<CsvDrawView>>::empty());
    while i < rows.len()
        invariant
            i <= rows.len(),
            source == source_rows(rows@),
            store@ == start,
            store.well_formed(),
            work.well_formed(),
            imported(start, source.take(i as int)) == Ok::<StoreView, ImportError>(work@),
        decreases rows.len() - i,
    {
        proof {
            assert(source.take(i + 1).drop_last() =~= source.take(i as int));
            assert(source.take(i + 1).last() == source[i as int]);
        }
        match &rows[i] {
            None => {
                proof {
                    lemma_import_stops_at_first_error(start, source, i + 1);
                }
                return Err(ImportError::SourceFormat { row: i });
            },
            Some(row) => {
                let numbers = normalize_combinations(row.combinations.as_str());
                match work.upsert(row.game.as_str(), row.draw_date.as_str(), numbers.as_str()) {
                    Err(error) => {
                        proof {
                            lemma_import_stops_at_first_error(start, source, i + 1);
                        }
                        return Err(ImportError::Store(error));
                    },
                    Ok(_) => {},
                }
            },
        }
        i += 1;
    }
    assert(source.take(rows.len() as int) =~= source);
    *store = work;
    Ok(rows.len())
}

/// Empty game: where no record is of `game`, the store has no draws of it.
pub proof fn lemma_no_draws_without_records(rows: Seq<RowView>, game: Seq<char>)
    requires
        forall|i: int| 0 <= i < rows.len() ==> (#[trigger] rows[i]).game != game,
    ensures
        draws_of_game(rows, game) == Seq::<DrawView>::empty(),
    decreases rows.len(),
{
    if rows.len() > 0 {
        let front = rows.drop_last();
        assert forall|i: int| 0 <= i < front.len() implies (#[trigger] front[i]).game != game by {
            assert(front[i] == rows[i]);
        }
        lemma_no_draws_without_records(front, game);
        assert(rows[rows.len() - 1].game != game);
    }
}

/// The draws of a game are as many as the records of that game, so a game has
/// draws exactly if some record is of it.
pub proof fn lemma_draws_exist_with_records(rows: Seq<RowView>, game: Seq<char>)
    ensures
        draws_of_game(rows, game).len() > 0 <==> exists|i: int|
            0 <= i < rows.len() && (#[trigger] rows[i]).game == game,
    decreases rows.len(),
{
    if rows.len() > 0 {
        let front = rows.drop_last();
        lemma_draws_exist_with_records(front, game);
        if draws_of_game(front, game).len() > 0 {
            let i = choose|i: int| 0 <= i < front.len() && (#[trigger] front[i]).game == game;
            assert(rows[i].game == game);
        }
        if rows.last().game == game {
            assert(rows[rows.len() - 1].game == game);
        }
        if exists|i: int| 0 <= i < rows.len() && (#[trigger] rows[i]).game == game {
            let i = choose|i: int| 0 <= i < rows.len() && (#[trigger] rows[i]).game == game;
            if i < front.len() {
                assert(front[i].game == game);
            }
        }
    }
}

} // verus!
