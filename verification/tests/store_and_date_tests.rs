use crossword::api_client::{PuzzleStatsResponse, RawFirsts, RawStats, SolvedPuzzleStats};
use crossword::database::Database;
use crossword::date::{Date, Weekday};
use crossword::PuzzleStats;

#[test]
fn store_round_trip_reproduces_records() {
    let mut db = Database::new();
    db.add(PuzzleStats::new(Date::from_ymd(2020, 2, 29), 2, None));
    db.add(PuzzleStats::empty(Date::from_ymd(2020, 1, 1)));
    db.add(PuzzleStats::new(
        Date::from_ymd(2020, 3, 1),
        3,
        Some(SolvedPuzzleStats::default()),
    ));
    let rows = db.flush();
    let reloaded = Database::from_records(&rows);
    assert_eq!(reloaded.flush(), rows);
    assert_eq!(reloaded.len(), 3);
}

#[test]
fn loading_duplicate_dates_keeps_last() {
    let date = Date::from_ymd(2020, 1, 1);
    let first = PuzzleStats::new(date, 1, None);
    let second = PuzzleStats::new(date, 2, None);
    let rows = vec![first, second];
    let db = Database::from_records(&rows);
    assert_eq!(db.len(), 1);
    assert_eq!(db.get(date), Some(second));
}

#[test]
fn add_overwrites_same_date() {
    let mut db = Database::new();
    let date = Date::from_ymd(2020, 1, 1);
    db.add(PuzzleStats::empty(date));
    let with_id = PuzzleStats::new(date, 9, None);
    db.add(with_id);
    assert_eq!(db.len(), 1);
    assert_eq!(db.get(date), Some(with_id));
    assert!(db.contains(date));
    assert!(!db.contains(Date::from_ymd(2020, 1, 2)));
}

#[test]
fn flush_is_sorted_by_date() {
    let mut db = Database::new();
    db.add(PuzzleStats::empty(Date::from_ymd(2021, 6, 5)));
    db.add(PuzzleStats::empty(Date::from_ymd(2019, 12, 31)));
    db.add(PuzzleStats::empty(Date::from_ymd(2020, 7, 4)));
    let rows = db.flush();
    assert_eq!(rows[0].date, Date::from_ymd(2019, 12, 31));
    assert_eq!(rows[1].date, Date::from_ymd(2020, 7, 4));
    assert_eq!(rows[2].date, Date::from_ymd(2021, 6, 5));
}

#[test]
fn record_without_id_is_never_complete() {
    let date = Date::from_ymd(2020, 1, 1);
    let mut record = PuzzleStats::new(date, 4, Some(SolvedPuzzleStats::default()));
    assert!(record.is_complete());
    record.puzzle_id = None;
    assert!(!record.is_complete(), "no id means not complete");
    let mut cheated = PuzzleStats::new(date, 4, None);
    cheated.update_stats(SolvedPuzzleStats {
        cheated: true,
        ..Default::default()
    });
    cheated.puzzle_id = None;
    assert!(!cheated.is_complete());
}

#[test]
fn cheated_update_clears_solve_time() {
    let date = Date::from_ymd(2020, 1, 1);
    let mut record = PuzzleStats::new(date, 4, Some(SolvedPuzzleStats::default()));
    assert_eq!(record.solve_time_secs, Some(0));
    record.update_stats(SolvedPuzzleStats {
        solve_time: 400,
        opened: Some(5),
        solved: Some(500),
        cheated: true,
    });
    assert_eq!(record.cheated, Some(true));
    assert_eq!(record.solve_time_secs, None);
    assert_eq!(record.opened_unix, Some(5));
    assert_eq!(record.solved_unix, Some(500));
    assert!(record.is_complete());
}

#[test]
fn unsolved_response_yields_no_stats() {
    let response = PuzzleStatsResponse {
        calcs: RawStats {
            solved: Some(false),
            seconds_spent_solving: None,
        },
        firsts: None,
    };
    assert!(response.collect_stats().is_none());
    let response = PuzzleStatsResponse {
        calcs: RawStats {
            solved: None,
            seconds_spent_solving: Some(100),
        },
        firsts: None,
    };
    assert!(response.collect_stats().is_none());
}

#[test]
fn solved_without_time_is_schema_violation() {
    let response = PuzzleStatsResponse {
        calcs: RawStats {
            solved: Some(true),
            seconds_spent_solving: None,
        },
        firsts: None,
    };
    assert!(response.collect_stats().is_none());
    assert!(response.is_schema_violation());
    let fine = PuzzleStatsResponse {
        calcs: RawStats {
            solved: Some(true),
            seconds_spent_solving: Some(10),
        },
        firsts: None,
    };
    assert!(!fine.is_schema_violation());
    let unsolved = PuzzleStatsResponse {
        calcs: RawStats {
            solved: Some(false),
            seconds_spent_solving: None,
        },
        firsts: None,
    };
    assert!(!unsolved.is_schema_violation());
}

#[test]
fn new_record_with_aided_stats_drops_time() {
    let date = Date::from_ymd(2020, 1, 8);
    let record = PuzzleStats::new(
        date,
        400,
        Some(SolvedPuzzleStats {
            solve_time: 77,
            opened: Some(1),
            solved: Some(90),
            cheated: true,
        }),
    );
    assert_eq!(record.cheated, Some(true));
    assert_eq!(record.solve_time_secs, None);
    assert_eq!(record.opened_unix, Some(1));
    assert_eq!(record.solved_unix, Some(90));
    assert!(record.is_complete());
}

#[test]
fn clean_solve_keeps_time_and_timestamps() {
    let response = PuzzleStatsResponse {
        calcs: RawStats {
            solved: Some(true),
            seconds_spent_solving: Some(754),
        },
        firsts: Some(RawFirsts {
            opened: Some(50),
            checked: None,
            revealed: None,
            solved: Some(900),
        }),
    };
    let stats = response.collect_stats().expect("clean solve yields stats");
    assert!(!stats.cheated);
    assert_eq!(stats.solve_time, 754);
    assert_eq!(stats.opened, Some(50));
    assert_eq!(stats.solved, Some(900));
}

#[test]
fn revealed_solve_counts_as_aided() {
    let response = PuzzleStatsResponse {
        calcs: RawStats {
            solved: Some(true),
            seconds_spent_solving: Some(60),
        },
        firsts: Some(RawFirsts {
            opened: None,
            checked: None,
            revealed: Some(30),
            solved: None,
        }),
    };
    let stats = response.collect_stats().expect("solved response yields stats");
    assert!(stats.cheated);
}

#[test]
fn day_numbers_count_calendar_days() {
    let jan1 = Date::from_ymd(2020, 1, 1);
    let mar1 = Date::from_ymd(2020, 3, 1);
    // 2020 is a leap year: 31 + 29 days between the two.
    assert_eq!(mar1.day_number() - jan1.day_number(), 60);
    let jan1_2021 = Date::from_ymd(2021, 1, 1);
    assert_eq!(jan1_2021.day_number() - jan1.day_number(), 366);
    let jan1_2022 = Date::from_ymd(2022, 1, 1);
    assert_eq!(jan1_2022.day_number() - jan1_2021.day_number(), 365);
}

#[test]
fn next_day_crosses_month_and_year_boundaries() {
    assert_eq!(
        Date::from_ymd(2020, 2, 28).next_day(),
        Date::from_ymd(2020, 2, 29)
    );
    assert_eq!(
        Date::from_ymd(2020, 2, 29).next_day(),
        Date::from_ymd(2020, 3, 1)
    );
    assert_eq!(
        Date::from_ymd(2021, 2, 28).next_day(),
        Date::from_ymd(2021, 3, 1)
    );
    assert_eq!(
        Date::from_ymd(2020, 12, 31).next_day(),
        Date::from_ymd(2021, 1, 1)
    );
}

#[test]
fn weekdays_match_the_calendar() {
    // 2000-01-01 was a Saturday; 2020-01-01 a Wednesday.
    assert_eq!(Date::from_ymd(2000, 1, 1).weekday(), Weekday::Saturday);
    assert_eq!(Date::from_ymd(2020, 1, 1).weekday(), Weekday::Wednesday);
    assert_eq!(Date::from_ymd(2020, 1, 1).weekday(), PuzzleStats::empty(Date::from_ymd(2020, 1, 1)).weekday);
}

#[test]
fn date_validation_rejects_bad_fields() {
    assert!(Date::valid_ymd(2021, 2, 28));
    assert!(!Date::valid_ymd(2021, 2, 29));
    assert!(Date::valid_ymd(2020, 2, 29));
    assert!(!Date::valid_ymd(1900, 2, 29));
    assert!(Date::valid_ymd(2000, 2, 29));
    assert!(!Date::valid_ymd(2020, 0, 1));
    assert!(!Date::valid_ymd(2020, 13, 1));
    assert!(!Date::valid_ymd(2020, 4, 31));
    assert!(!Date::valid_ymd(0, 1, 1));
    assert!(!Date::valid_ymd(10000, 1, 1));
}

#[test]
fn from_parts_rebuilds_a_loaded_row() {
    let date = Date::from_ymd(2020, 1, 6);
    let record = PuzzleStats::from_parts(date, Some(8), Some(120), Some(1), Some(2), Some(false));
    assert_eq!(record.date, date);
    assert_eq!(record.puzzle_id, Some(8));
    assert_eq!(record.solve_time_secs, Some(120));
    assert_eq!(record.opened_unix, Some(1));
    assert_eq!(record.solved_unix, Some(2));
    assert_eq!(record.cheated, Some(false));
    assert_eq!(record.weekday, Weekday::Monday);
    assert!(record.is_complete());
}
