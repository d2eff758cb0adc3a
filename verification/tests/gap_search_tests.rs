use crossword::api_client::SolvedPuzzleStats;
use crossword::database::Database;
use crossword::date::Date;
use crossword::{get_cached_unsolved_records, get_days_without_ids_chunked, PuzzleStats};

fn chunks_contain_date(haystack: &Vec<Vec<PuzzleStats>>, date: Date) -> bool {
    haystack
        .iter()
        .flatten()
        .any(|record| record.date == date)
}

fn records_contain_date(haystack: &Vec<PuzzleStats>, date: Date) -> bool {
    haystack.iter().any(|record| record.date == date)
}

fn seeded_database() -> Database {
    let mut db = Database::new();
    // Empty record
    db.add(PuzzleStats::empty(Date::from_ymd(2020, 1, 1)));
    // Record with solve stats but without an id
    let mut solved_no_id = PuzzleStats::new(
        Date::from_ymd(2020, 1, 2),
        0,
        Some(SolvedPuzzleStats::default()),
    );
    solved_no_id.puzzle_id = None;
    db.add(solved_no_id);
    // Record with solve stats and id
    db.add(PuzzleStats::new(
        Date::from_ymd(2020, 1, 3),
        20,
        Some(SolvedPuzzleStats::default()),
    ));
    // Record with no solve stats but with an id
    db.add(PuzzleStats::new(Date::from_ymd(2020, 1, 4), 100, None));
    // Record with cheated solve and with an id
    db.add(PuzzleStats::new(
        Date::from_ymd(2020, 1, 8),
        400,
        Some(SolvedPuzzleStats {
            cheated: true,
            ..Default::default()
        }),
    ));
    // Record with cheated solve and no id
    let mut cheated_unided = PuzzleStats::new(
        Date::from_ymd(2020, 1, 9),
        0,
        Some(SolvedPuzzleStats {
            cheated: true,
            ..Default::default()
        }),
    );
    cheated_unided.puzzle_id = None;
    db.add(cheated_unided);
    db
}

#[test]
fn days_without_ids() {
    let db = seeded_database();
    let empty_date = Date::from_ymd(2020, 1, 1);
    let solved_no_id_date = Date::from_ymd(2020, 1, 2);
    let solved_ided_date = Date::from_ymd(2020, 1, 3);
    let unsolved_ided_date = Date::from_ymd(2020, 1, 4);
    let cheated_ided_date = Date::from_ymd(2020, 1, 8);
    let cheated_unided_date = Date::from_ymd(2020, 1, 9);

    let start = Date::from_ymd(2020, 1, 1);
    let end = Date::from_ymd(2020, 1, 11);

    let chunks = get_days_without_ids_chunked(&db, start, end, 5);
    assert!(
        chunks_contain_date(&chunks, empty_date),
        "Empty record should be returned"
    );
    assert!(
        chunks_contain_date(&chunks, solved_no_id_date),
        "Solved, no-id record should be returned"
    );
    assert!(
        !chunks_contain_date(&chunks, solved_ided_date),
        "Solved, ided record should not be returned"
    );
    assert!(
        !chunks_contain_date(&chunks, unsolved_ided_date),
        "Unsolved, ided record should not be returned"
    );
    assert!(
        !chunks_contain_date(&chunks, cheated_ided_date),
        "Cheated, ided record should not be returned"
    );
    assert!(
        chunks_contain_date(&chunks, cheated_unided_date),
        "Cheated, unided record should not be returned"
    );
    assert!(
        chunks_contain_date(&chunks, end),
        "Ensure end date is returned (if empty)"
    );
    assert!(
        !chunks_contain_date(&chunks, Date::from_ymd(2020, 1, 12)),
        "The end date should be the last included date"
    );
}

#[test]
fn test_get_cached_unsolved_records() {
    let db = seeded_database();
    let unsolved_ided_date = Date::from_ymd(2020, 1, 4);

    assert!(get_cached_unsolved_records(&db, Date::from_ymd(2020, 1, 5)).is_empty());
    assert!(get_cached_unsolved_records(&db, Date::from_ymd(2020, 1, 8)).is_empty());
    assert!(get_cached_unsolved_records(&db, Date::from_ymd(2020, 1, 9)).is_empty());
    assert!(get_cached_unsolved_records(&db, Date::from_ymd(2020, 1, 10)).is_empty());

    let cached_unsolved = get_cached_unsolved_records(&db, Date::from_ymd(2020, 1, 4));
    assert!(cached_unsolved.len() == 1);
    assert!(records_contain_date(&cached_unsolved, unsolved_ided_date));

    let cached_unsolved = get_cached_unsolved_records(&db, Date::from_ymd(2020, 1, 1));
    assert!(cached_unsolved.len() == 1);
    assert!(records_contain_date(&cached_unsolved, unsolved_ided_date));
}

#[test]
fn chunk_spans_partition_full_range() {
    // An empty store: every date needs an id, so the chunks' spans cover
    // the range back to back and each chunk holds its whole span.
    let db = Database::new();
    let start = Date::from_ymd(2021, 3, 1);
    let end = Date::from_ymd(2021, 3, 17);
    let chunks = get_days_without_ids_chunked(&db, start, end, 5);
    assert_eq!(chunks.len(), 4);
    assert_eq!(chunks[0].len(), 5);
    assert_eq!(chunks[1].len(), 5);
    assert_eq!(chunks[2].len(), 5);
    assert_eq!(chunks[3].len(), 2);
    let mut expected_day: u32 = 1;
    for chunk in &chunks {
        for record in chunk {
            assert_eq!(record.date, Date::from_ymd(2021, 3, expected_day));
            assert!(record.puzzle_id.is_none());
            expected_day += 1;
        }
    }
    assert_eq!(expected_day, 18);
}

#[test]
fn chunking_skips_leading_complete_dates() {
    let mut db = Database::new();
    db.add(PuzzleStats::new(Date::from_ymd(2021, 3, 1), 7, None));
    db.add(PuzzleStats::new(Date::from_ymd(2021, 3, 2), 8, None));
    let start = Date::from_ymd(2021, 3, 1);
    let end = Date::from_ymd(2021, 3, 4);
    let chunks = get_days_without_ids_chunked(&db, start, end, 100);
    assert_eq!(chunks.len(), 1);
    assert_eq!(chunks[0].len(), 2);
    assert_eq!(chunks[0][0].date, Date::from_ymd(2021, 3, 3));
    assert_eq!(chunks[0][1].date, Date::from_ymd(2021, 3, 4));
}

#[test]
fn chunking_of_empty_range() {
    let db = Database::new();
    let chunks = get_days_without_ids_chunked(
        &db,
        Date::from_ymd(2021, 3, 2),
        Date::from_ymd(2021, 3, 1),
        5,
    );
    assert!(chunks.is_empty());
}

#[test]
fn chunk_size_one_gives_single_day_chunks() {
    let db = Database::new();
    let chunks = get_days_without_ids_chunked(
        &db,
        Date::from_ymd(2021, 3, 1),
        Date::from_ymd(2021, 3, 3),
        1,
    );
    assert_eq!(chunks.len(), 3);
    for chunk in &chunks {
        assert_eq!(chunk.len(), 1);
    }
}
