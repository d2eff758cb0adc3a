use crossword::api_client::{PuzzleStatsResponse, RawFirsts, RawStats, SolvedPuzzleStats};
use crossword::database::Database;
use crossword::date::Date;
use crossword::logger::{apply_payload, run_sink, Payload};
use crossword::search::{classify_response, run_pipeline, stats_outcome_event, StatsOutcome};
use crossword::PuzzleStats;

fn flushed(db: &Database) -> Vec<PuzzleStats> {
    db.flush()
}

#[test]
fn three_unsolved_days_all_get_ids() {
    // Store empty, range of three days, directory answers for all three,
    // stats answer "unsolved" for each: three records, all with ids,
    // none complete, no solve times.
    let mut db = Database::new();
    let d1 = Date::from_ymd(2022, 5, 1);
    let d2 = Date::from_ymd(2022, 5, 2);
    let d3 = Date::from_ymd(2022, 5, 3);
    let dir = vec![(d1, 11), (d2, 12), (d3, 13)];
    let stats = vec![
        (11, StatsOutcome::Stats(None)),
        (12, StatsOutcome::Stats(None)),
        (13, StatsOutcome::Stats(None)),
    ];
    run_pipeline(&mut db, d1, d3, 100, &dir, &Vec::new(), &stats);
    let rows = flushed(&db);
    assert_eq!(rows.len(), 3);
    assert_eq!(rows[0].puzzle_id, Some(11));
    assert_eq!(rows[1].puzzle_id, Some(12));
    assert_eq!(rows[2].puzzle_id, Some(13));
    for row in &rows {
        assert!(!row.is_complete());
        assert!(row.solve_time_secs.is_none());
    }
}

#[test]
fn failed_directory_chunk_leaves_dates_without_ids() {
    let mut db = Database::new();
    let d1 = Date::from_ymd(2022, 5, 1);
    let d2 = Date::from_ymd(2022, 5, 2);
    let d3 = Date::from_ymd(2022, 5, 3);
    db.add(PuzzleStats::empty(d1));
    db.add(PuzzleStats::empty(d2));
    // The whole range forms one chunk starting at d1; its bulk call
    // fails, so every date in it stays without an id and nothing crashes.
    let dir = vec![(d1, 11), (d2, 12), (d3, 13)];
    let dir_fail = vec![d1];
    run_pipeline(&mut db, d1, d3, 100, &dir, &dir_fail, &Vec::new());
    let rows = flushed(&db);
    assert_eq!(rows.len(), 2);
    for row in &rows {
        assert!(row.puzzle_id.is_none());
    }
}

#[test]
fn checked_solve_is_classified_aided_and_time_dropped() {
    // A solved response with a "checked" timestamp and no "revealed"
    // one: classified as an aided solve, and the solve time is dropped
    // from the record even though the response carried one.
    let response = PuzzleStatsResponse {
        calcs: RawStats {
            solved: Some(true),
            seconds_spent_solving: Some(542),
        },
        firsts: Some(RawFirsts {
            opened: Some(100),
            checked: Some(150),
            revealed: None,
            solved: Some(600),
        }),
    };
    let stats = response.collect_stats().expect("solved response yields stats");
    assert!(stats.cheated);
    assert_eq!(stats.solve_time, 542);

    let mut record = PuzzleStats::new(Date::from_ymd(2022, 5, 1), 11, None);
    record.update_stats(stats);
    assert_eq!(record.cheated, Some(true));
    assert_eq!(record.solve_time_secs, None);
    assert!(record.is_complete());
}

#[test]
fn cached_solve_time_without_id_needs_no_stats_call() {
    // A cached record with a solve time but no id: once the directory
    // answers, the record is emitted as solved directly. The stats
    // answers would clear the time (an aided solve); the time surviving
    // shows they were never consulted.
    let mut db = Database::new();
    let d1 = Date::from_ymd(2022, 5, 1);
    let mut cached = PuzzleStats::new(d1, 0, Some(SolvedPuzzleStats {
        solve_time: 300,
        opened: None,
        solved: None,
        cheated: false,
    }));
    cached.puzzle_id = None;
    db.add(cached);
    let dir = vec![(d1, 77)];
    let stats = vec![(
        77,
        StatsOutcome::Stats(Some(SolvedPuzzleStats {
            solve_time: 999,
            opened: None,
            solved: None,
            cheated: true,
        })),
    )];
    run_pipeline(&mut db, d1, d1, 100, &dir, &Vec::new(), &stats);
    let rows = flushed(&db);
    assert_eq!(rows.len(), 1);
    assert_eq!(rows[0].puzzle_id, Some(77));
    assert_eq!(rows[0].solve_time_secs, Some(300));
    assert!(rows[0].is_complete());
}

#[test]
fn pipeline_is_idempotent_with_same_remote_data() {
    let mut db = Database::new();
    let d1 = Date::from_ymd(2022, 5, 1);
    let d4 = Date::from_ymd(2022, 5, 4);
    db.add(PuzzleStats::empty(d1));
    let dir = vec![
        (d1, 1),
        (Date::from_ymd(2022, 5, 2), 2),
        (Date::from_ymd(2022, 5, 3), 3),
    ];
    let stats = vec![
        (1, StatsOutcome::Stats(Some(SolvedPuzzleStats {
            solve_time: 120,
            opened: Some(10),
            solved: Some(130),
            cheated: false,
        }))),
        (2, StatsOutcome::Stats(None)),
        (3, StatsOutcome::FetchFailed),
    ];
    run_pipeline(&mut db, d1, d4, 2, &dir, &Vec::new(), &stats);
    let first = flushed(&db);
    run_pipeline(&mut db, d1, d4, 2, &dir, &Vec::new(), &stats);
    let second = flushed(&db);
    assert_eq!(first, second);
}

#[test]
fn failed_stats_fetch_still_persists_id() {
    let mut db = Database::new();
    let d1 = Date::from_ymd(2022, 5, 1);
    let dir = vec![(d1, 41)];
    let stats = vec![(41, StatsOutcome::FetchFailed)];
    run_pipeline(&mut db, d1, d1, 100, &dir, &Vec::new(), &stats);
    let rows = flushed(&db);
    assert_eq!(rows.len(), 1);
    assert_eq!(rows[0].puzzle_id, Some(41));
    assert!(!rows[0].is_complete());
}

#[test]
fn sink_applies_events_until_finished() {
    let mut db = Database::new();
    let d1 = Date::from_ymd(2022, 5, 1);
    let d2 = Date::from_ymd(2022, 5, 2);
    let d3 = Date::from_ymd(2022, 5, 3);
    let events = vec![
        Payload::Solve(PuzzleStats::new(d1, 1, Some(SolvedPuzzleStats::default()))),
        Payload::FetchError(None),
        Payload::Unsolved(PuzzleStats::new(d2, 2, None)),
        Payload::Finished(9),
        Payload::Solve(PuzzleStats::new(d3, 3, Some(SolvedPuzzleStats::default()))),
    ];
    let finished = run_sink(&mut db, &events);
    assert_eq!(finished, Some(9));
    // The event after the terminal one is not applied.
    assert_eq!(db.len(), 2);
    assert!(db.get(d3).is_none());
}

#[test]
fn fetch_error_with_record_persists_it() {
    let mut db = Database::new();
    let d1 = Date::from_ymd(2022, 5, 1);
    let record = PuzzleStats::new(d1, 5, None);
    let done = apply_payload(&mut db, Payload::FetchError(Some(record)));
    assert!(!done);
    assert_eq!(db.get(d1), Some(record));
    let done = apply_payload(&mut db, Payload::FetchError(None));
    assert!(!done);
    assert!(apply_payload(&mut db, Payload::Finished(0)));
}

#[test]
fn schema_violation_classifies_as_fetch_failure() {
    // Solved but without the required time: a fetch failure for this
    // puzzle, not a silent "unsolved".
    let violating = PuzzleStatsResponse {
        calcs: RawStats {
            solved: Some(true),
            seconds_spent_solving: None,
        },
        firsts: None,
    };
    assert!(matches!(
        classify_response(&violating),
        StatsOutcome::FetchFailed
    ));
    let unsolved = PuzzleStatsResponse {
        calcs: RawStats {
            solved: Some(false),
            seconds_spent_solving: None,
        },
        firsts: None,
    };
    assert!(matches!(
        classify_response(&unsolved),
        StatsOutcome::Stats(None)
    ));
    let solved = PuzzleStatsResponse {
        calcs: RawStats {
            solved: Some(true),
            seconds_spent_solving: Some(120),
        },
        firsts: None,
    };
    match classify_response(&solved) {
        StatsOutcome::Stats(Some(stats)) => {
            assert_eq!(stats.solve_time, 120);
            assert!(!stats.cheated);
        },
        _ => panic!("expected classified statistics"),
    }
    // Fed to the pipeline, the failure still persists the freshly
    // learned id, so a later run skips the id lookup.
    let mut db = Database::new();
    let d1 = Date::from_ymd(2022, 6, 1);
    let dir = vec![(d1, 51)];
    let stats = vec![(51, classify_response(&violating))];
    run_pipeline(&mut db, d1, d1, 100, &dir, &Vec::new(), &stats);
    let rows = db.flush();
    assert_eq!(rows.len(), 1);
    assert_eq!(rows[0].puzzle_id, Some(51));
    assert!(!rows[0].is_complete());
}

#[test]
fn stats_outcomes_become_the_right_events() {
    let d1 = Date::from_ymd(2022, 5, 1);
    let record = PuzzleStats::new(d1, 5, None);
    let solved = SolvedPuzzleStats {
        solve_time: 77,
        opened: Some(1),
        solved: Some(80),
        cheated: false,
    };
    match stats_outcome_event(record, StatsOutcome::Stats(Some(solved))) {
        Payload::Solve(r) => {
            assert_eq!(r.solve_time_secs, Some(77));
            assert_eq!(r.cheated, Some(false));
        },
        _ => panic!("expected a solve event"),
    }
    match stats_outcome_event(record, StatsOutcome::Stats(None)) {
        Payload::Unsolved(r) => assert_eq!(r, record),
        _ => panic!("expected an unsolved event"),
    }
    match stats_outcome_event(record, StatsOutcome::FetchFailed) {
        Payload::FetchError(Some(r)) => assert_eq!(r, record),
        _ => panic!("expected a fetch error carrying the record"),
    }
}
