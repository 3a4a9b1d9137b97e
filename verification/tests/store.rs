use rust_lotto_analyzer::db::{
    get_draws, import_csv_if_needed, init_db, is_draws_table_empty, recreate_db, CsvDraw,
    DrawStore, ImportError, StoreError, StoredDraw, UpsertOutcome,
};
use rust_lotto_analyzer::models::{Draw, DrawDate};

const GAME: &str = "GRAND_LOTTO_6-55";

fn ready_store() -> DrawStore {
    let mut store = DrawStore::new();
    init_db(&mut store);
    store
}

fn row(game: &str, date: &str, combinations: &str) -> Option<CsvDraw> {
    Some(CsvDraw {
        game: game.to_string(),
        draw_date: date.to_string(),
        combinations: combinations.to_string(),
    })
}

fn record(id: i64, game: &str, date: &str, numbers: &str) -> StoredDraw {
    StoredDraw {
        id,
        game: game.to_string(),
        draw_date: date.to_string(),
        numbers: numbers.to_string(),
    }
}

fn source() -> Vec<Option<CsvDraw>> {
    vec![
        row(GAME, "2020-01-01", "[1, 2, 3, 4, 5, 6]"),
        row("LOTTO_6-42", "2020-01-01", "[7, 8, 9, 10, 11, 12]"),
        row(GAME, "2020-01-04", "[3, 11, 22, 30, 41, 55]"),
    ]
}

#[test]
fn new_store_has_no_collection() {
    let store = DrawStore::new();
    assert_eq!(is_draws_table_empty(&store), Err(StoreError::MissingTable));
    assert_eq!(get_draws(&store, GAME), Err(StoreError::MissingTable));
    assert!(store.records().is_empty());
}

#[test]
fn init_creates_an_empty_collection() {
    let store = ready_store();
    assert_eq!(is_draws_table_empty(&store), Ok(true));
    assert_eq!(get_draws(&store, GAME), Ok(vec![]));
}

#[test]
fn init_twice_keeps_the_records() {
    let mut store = ready_store();
    store.upsert(GAME, "2020-01-01", "1,2,3").unwrap();
    init_db(&mut store);
    assert_eq!(is_draws_table_empty(&store), Ok(false));
    assert_eq!(store.records(), &vec![record(1, GAME, "2020-01-01", "1,2,3")]);
}

#[test]
fn recreate_drops_all_records_and_restarts_ids() {
    let mut store = ready_store();
    store.upsert(GAME, "2020-01-01", "1,2,3").unwrap();
    store.upsert(GAME, "2020-01-02", "4,5,6").unwrap();
    recreate_db(&mut store);
    assert_eq!(is_draws_table_empty(&store), Ok(true));
    store.upsert(GAME, "2020-01-03", "7,8,9").unwrap();
    assert_eq!(store.records(), &vec![record(1, GAME, "2020-01-03", "7,8,9")]);
}

#[test]
fn recreate_creates_a_missing_collection() {
    let mut store = DrawStore::new();
    recreate_db(&mut store);
    assert_eq!(is_draws_table_empty(&store), Ok(true));
}

#[test]
fn upsert_without_collection_is_refused() {
    let mut store = DrawStore::new();
    assert_eq!(store.upsert(GAME, "2020-01-01", "1,2,3"), Err(StoreError::MissingTable));
    assert!(store.records().is_empty());
}

#[test]
fn upsert_inserts_new_keys_with_rising_ids() {
    let mut store = ready_store();
    assert_eq!(store.upsert(GAME, "2020-01-01", "1,2,3"), Ok(UpsertOutcome::Inserted));
    assert_eq!(store.upsert(GAME, "2020-01-02", "1,2,3"), Ok(UpsertOutcome::Inserted));
    assert_eq!(store.upsert("OTHER", "2020-01-01", "4,5,6"), Ok(UpsertOutcome::Inserted));
    assert_eq!(
        store.records(),
        &vec![
            record(1, GAME, "2020-01-01", "1,2,3"),
            record(2, GAME, "2020-01-02", "1,2,3"),
            record(3, "OTHER", "2020-01-01", "4,5,6"),
        ]
    );
}

#[test]
fn upsert_same_numbers_writes_nothing() {
    let mut store = ready_store();
    store.upsert(GAME, "2020-01-01", "1, 2, 3").unwrap();
    store.upsert(GAME, "2020-01-02", "4, 5, 6").unwrap();
    assert_eq!(store.upsert(GAME, "2020-01-01", "1, 2, 3"), Ok(UpsertOutcome::Unchanged));
    assert_eq!(
        store.records(),
        &vec![record(1, GAME, "2020-01-01", "1, 2, 3"), record(2, GAME, "2020-01-02", "4, 5, 6")]
    );
}

#[test]
fn upsert_other_numbers_updates_in_place() {
    let mut store = ready_store();
    store.upsert(GAME, "2020-01-01", "1, 2, 3").unwrap();
    store.upsert(GAME, "2020-01-02", "4, 5, 6").unwrap();
    assert_eq!(store.upsert(GAME, "2020-01-01", "7, 8, 9"), Ok(UpsertOutcome::Updated));
    assert_eq!(
        store.records(),
        &vec![record(1, GAME, "2020-01-01", "7, 8, 9"), record(2, GAME, "2020-01-02", "4, 5, 6")]
    );
    assert_eq!(store.upsert(GAME, "2020-01-03", "1"), Ok(UpsertOutcome::Inserted));
    assert_eq!(store.records()[2].id, 3);
}

#[test]
fn upsert_compares_numbers_as_text() {
    let mut store = ready_store();
    store.upsert(GAME, "2020-01-01", "1,2,3").unwrap();
    assert_eq!(store.upsert(GAME, "2020-01-01", "1, 2, 3"), Ok(UpsertOutcome::Updated));
    assert_eq!(store.records()[0].numbers, "1, 2, 3");
}

#[test]
fn upsert_fails_when_ids_are_exhausted() {
    let mut store = DrawStore::restore(vec![record(i64::MAX, GAME, "2020-01-01", "1")]).unwrap();
    assert_eq!(store.upsert(GAME, "2020-01-02", "2"), Err(StoreError::IdsExhausted));
    assert_eq!(store.records().len(), 1);
    assert_eq!(store.upsert(GAME, "2020-01-01", "2"), Ok(UpsertOutcome::Updated));
    assert_eq!(store.records(), &vec![record(i64::MAX, GAME, "2020-01-01", "2")]);
}

#[test]
fn restore_keeps_records_and_continues_ids() {
    let records = vec![record(7, GAME, "2020-01-01", "1"), record(3, GAME, "2020-01-02", "2")];
    let mut store = DrawStore::restore(records.clone()).unwrap();
    assert_eq!(store.records(), &records);
    assert_eq!(is_draws_table_empty(&store), Ok(false));
    store.upsert(GAME, "2020-01-03", "3").unwrap();
    assert_eq!(store.records()[2], record(8, GAME, "2020-01-03", "3"));
}

#[test]
fn restore_of_nothing_is_an_empty_collection() {
    let mut store = DrawStore::restore(vec![]).unwrap();
    assert_eq!(is_draws_table_empty(&store), Ok(true));
    store.upsert(GAME, "2020-01-03", "3").unwrap();
    assert_eq!(store.records()[0].id, 1);
}

#[test]
fn restore_with_negative_ids_starts_new_ids_at_one() {
    let mut store = DrawStore::restore(vec![record(-5, GAME, "2020-01-01", "1")]).unwrap();
    store.upsert(GAME, "2020-01-03", "3").unwrap();
    assert_eq!(store.records()[1].id, 1);
}

#[test]
fn restore_refuses_duplicates() {
    let same_key = vec![record(1, GAME, "2020-01-01", "1"), record(2, GAME, "2020-01-01", "2")];
    assert_eq!(DrawStore::restore(same_key).err(), Some(StoreError::DuplicateRecord));
    let same_id = vec![record(1, GAME, "2020-01-01", "1"), record(1, GAME, "2020-01-02", "2")];
    assert_eq!(DrawStore::restore(same_id).err(), Some(StoreError::DuplicateRecord));
    let fine = vec![record(1, GAME, "2020-01-01", "1"), record(2, "OTHER", "2020-01-01", "1")];
    assert!(DrawStore::restore(fine).is_ok());
}

#[test]
fn duplicate_is_an_equal_store() {
    let mut store = ready_store();
    store.upsert(GAME, "2020-01-01", "1").unwrap();
    let mut copy = store.duplicate();
    assert_eq!(copy.records(), store.records());
    copy.upsert(GAME, "2020-01-02", "2").unwrap();
    assert_eq!(store.records().len(), 1);
    assert_eq!(copy.records()[1].id, 2);
}

#[test]
fn import_strips_brackets_and_upserts() {
    let mut store = ready_store();
    assert_eq!(import_csv_if_needed(&mut store, &source()), Ok(3));
    assert_eq!(
        store.records(),
        &vec![
            record(1, GAME, "2020-01-01", "1, 2, 3, 4, 5, 6"),
            record(2, "LOTTO_6-42", "2020-01-01", "7, 8, 9, 10, 11, 12"),
            record(3, GAME, "2020-01-04", "3, 11, 22, 30, 41, 55"),
        ]
    );
}

#[test]
fn import_twice_changes_nothing() {
    let mut store = ready_store();
    import_csv_if_needed(&mut store, &source()).unwrap();
    let once: Vec<StoredDraw> = store.records().clone();
    assert_eq!(import_csv_if_needed(&mut store, &source()), Ok(3));
    assert_eq!(store.records(), &once);
    store.upsert(GAME, "2021-01-01", "1").unwrap();
    assert_eq!(store.records()[3].id, 4);
}

#[test]
fn import_twice_changes_nothing_with_repeated_keys() {
    let rows = vec![
        row(GAME, "2020-01-01", "[1, 2, 3]"),
        row(GAME, "2020-01-02", "[4, 5, 6]"),
        row(GAME, "2020-01-01", "[7, 8, 9]"),
    ];
    let mut store = ready_store();
    store.upsert("OTHER", "2019-12-31", "0").unwrap();
    assert_eq!(import_csv_if_needed(&mut store, &rows), Ok(3));
    let once: Vec<StoredDraw> = store.records().clone();
    assert_eq!(
        once,
        vec![
            record(1, "OTHER", "2019-12-31", "0"),
            record(2, GAME, "2020-01-01", "7, 8, 9"),
            record(3, GAME, "2020-01-02", "4, 5, 6"),
        ]
    );
    assert_eq!(import_csv_if_needed(&mut store, &rows), Ok(3));
    assert_eq!(store.records(), &once);
}

#[test]
fn import_overwrites_changed_numbers() {
    let mut store = ready_store();
    import_csv_if_needed(&mut store, &source()).unwrap();
    let changed = vec![row(GAME, "2020-01-01", "[6, 5, 4, 3, 2, 1]")];
    assert_eq!(import_csv_if_needed(&mut store, &changed), Ok(1));
    assert_eq!(store.records().len(), 3);
    assert_eq!(store.records()[0], record(1, GAME, "2020-01-01", "6, 5, 4, 3, 2, 1"));
}

#[test]
fn import_of_undecodable_row_commits_nothing() {
    let mut store = ready_store();
    store.upsert(GAME, "2020-01-01", "9, 9, 9").unwrap();
    let before: Vec<StoredDraw> = store.records().clone();
    let mut rows = source();
    rows.insert(2, None);
    assert_eq!(import_csv_if_needed(&mut store, &rows), Err(ImportError::SourceFormat { row: 2 }));
    assert_eq!(store.records(), &before);
    store.upsert(GAME, "2020-02-02", "1").unwrap();
    assert_eq!(store.records()[1].id, 2);
}

#[test]
fn import_reports_the_first_undecodable_row() {
    let mut store = ready_store();
    let rows = vec![row(GAME, "2020-01-01", "[1]"), None, None];
    assert_eq!(import_csv_if_needed(&mut store, &rows), Err(ImportError::SourceFormat { row: 1 }));
    let rows = vec![None, row(GAME, "2020-01-01", "[1]")];
    assert_eq!(import_csv_if_needed(&mut store, &rows), Err(ImportError::SourceFormat { row: 0 }));
    assert_eq!(is_draws_table_empty(&store), Ok(true));
}

#[test]
fn import_without_collection_is_refused() {
    let mut store = DrawStore::new();
    assert_eq!(
        import_csv_if_needed(&mut store, &source()),
        Err(ImportError::Store(StoreError::MissingTable))
    );
    assert_eq!(import_csv_if_needed(&mut store, &[]), Ok(0));
    assert_eq!(
        import_csv_if_needed(&mut store, &[None]),
        Err(ImportError::SourceFormat { row: 0 })
    );
    assert_eq!(is_draws_table_empty(&store), Err(StoreError::MissingTable));
}

#[test]
fn import_that_runs_out_of_ids_commits_nothing() {
    let start = vec![record(i64::MAX - 1, GAME, "2020-01-01", "1")];
    let mut store = DrawStore::restore(start.clone()).unwrap();
    let rows = vec![
        row(GAME, "2020-01-01", "[2]"),
        row(GAME, "2020-01-02", "[3]"),
        row(GAME, "2020-01-03", "[4]"),
    ];
    assert_eq!(
        import_csv_if_needed(&mut store, &rows),
        Err(ImportError::Store(StoreError::IdsExhausted))
    );
    assert_eq!(store.records(), &start);
    assert_eq!(import_csv_if_needed(&mut store, &rows[..2]), Ok(2));
    assert_eq!(store.records()[1], record(i64::MAX, GAME, "2020-01-02", "3"));
}

#[test]
fn import_of_no_rows_changes_nothing() {
    let mut store = ready_store();
    store.upsert(GAME, "2020-01-01", "1").unwrap();
    assert_eq!(import_csv_if_needed(&mut store, &[]), Ok(0));
    assert_eq!(store.records().len(), 1);
}

#[test]
fn get_draws_decodes_the_records_of_one_game() {
    let mut store = ready_store();
    import_csv_if_needed(&mut store, &source()).unwrap();
    let draws = get_draws(&store, GAME).unwrap();
    assert_eq!(
        draws,
        vec![
            Draw {
                id: 1,
                game: GAME.to_string(),
                draw_date: DrawDate { year: 2020, month: 1, day: 1 },
                numbers: vec![1, 2, 3, 4, 5, 6],
            },
            Draw {
                id: 3,
                game: GAME.to_string(),
                draw_date: DrawDate { year: 2020, month: 1, day: 4 },
                numbers: vec![3, 11, 22, 30, 41, 55],
            },
        ]
    );
}

#[test]
fn get_draws_of_unknown_game_is_empty() {
    let mut store = ready_store();
    import_csv_if_needed(&mut store, &source()).unwrap();
    assert_eq!(get_draws(&store, "NO_SUCH_GAME"), Ok(vec![]));
    assert_eq!(get_draws(&store, ""), Ok(vec![]));
    assert_eq!(get_draws(&store, "grand_lotto_6-55"), Ok(vec![]));
}

#[test]
fn get_draws_is_tolerant_of_bad_text() {
    let mut store = ready_store();
    store.upsert(GAME, "someday", "1, two, 3, 300, 4").unwrap();
    let draws = get_draws(&store, GAME).unwrap();
    assert_eq!(draws.len(), 1);
    assert_eq!(draws[0].draw_date, DrawDate { year: 1970, month: 1, day: 1 });
    assert_eq!(draws[0].numbers, vec![1, 3, 4]);
}
