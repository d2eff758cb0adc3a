//! Decisions of the fetch pipeline.
//!
//! The pipeline runs two independent streams against the shared gateway:
//! stream A resolves ids for chunks of dates that have none and then
//! fetches their statistics; stream B refreshes records that already
//! carry an id but are not complete. The network calls, the rate limiter
//! and the task fan-out are external concerns; the decisions — which
//! record gets which event for which resolver answer — live here, and
//! [`run_pipeline`] composes them into one deterministic pass that the
//! asynchronous shell mirrors.

use crate::api_client::SolvedPuzzleStats;
use crate::database::Database;
use crate::date::Date;
use crate::logger::{apply_payload, spec_apply, spec_apply_all, Payload};
use crate::{
    chunk_ok, chunked_correctly, chunks_view, get_cached_unsolved_records,
    get_days_without_ids_chunked, spec_needs_id, unsolved_pred, PuzzleStats,
};
use vstd::prelude::*;

verus! {

/// Outcome of one stats fetch, as the pipeline sees it: a decoded,
/// schema-conforming response, or a failure.
#[derive(Debug, Clone, Copy)]
pub enum StatsOutcome {
    /// The stats endpoint answered; `None` means the puzzle is unsolved.
    Stats(Option<SolvedPuzzleStats>),
    /// The request failed, its answer could not be decoded, or the
    /// answer violated the schema (marked solved without a solve time).
    FetchFailed,
}

/// How a decoded stats response enters the pipeline: a schema-violating
/// response counts as a failed fetch for its puzzle, everything else as
/// its classified statistics.
pub open spec fn spec_classify_response(resp: crate::api_client::PuzzleStatsResponse) -> StatsOutcome {
    if resp.spec_schema_violation() {
        StatsOutcome::FetchFailed
    } else {
        StatsOutcome::Stats(resp.spec_collect_stats())
    }
}

/// Classify a decoded stats response into the outcome the pipeline
/// consumes. A schema violation — solved, but without the required solve
/// time — is a fetch failure for that puzzle, to be reported by the
/// caller, not a silent "unsolved".
pub fn classify_response(resp: &crate::api_client::PuzzleStatsResponse) -> (o: StatsOutcome)
    ensures
        o == spec_classify_response(*resp),
{
    if resp.is_schema_violation() {
        StatsOutcome::FetchFailed
    } else {
        StatsOutcome::Stats(resp.collect_stats())
    }
}

/// The first id the directory lists for date `d`, if any.
pub open spec fn spec_id_of(dir: Seq<(Date, u32)>, d: Date) -> Option<u32>
    decreases dir.len(),
{
    if dir.len() == 0 {
        None
    } else if dir[0].0 == d {
        Some(dir[0].1)
    } else {
        spec_id_of(dir.drop_first(), d)
    }
}

/// Look `d` up in a directory answer.
fn id_of(dir: &Vec<(Date, u32)>, d: Date) -> (r: Option<u32>)
    ensures
        r == spec_id_of(dir@, d),
{
    let mut i: usize = 0;
    proof {
        assert(dir@.skip(0) =~= dir@);
    }
    while i < dir.len()
        invariant
            0 <= i <= dir@.len(),
            spec_id_of(dir@, d) == spec_id_of(dir@.skip(i as int), d),
        decreases dir@.len() - i,
    {
        proof {
            assert(dir@.skip(i as int).drop_first() =~= dir@.skip(i + 1));
        }
        if dir[i].0 == d {
            return Some(dir[i].1);
        }
        i = i + 1;
    }
    None
}

/// The first outcome listed for `id`; an id the responses never mention
/// counts as a failed fetch.
pub open spec fn spec_stats_of(stats: Seq<(u32, StatsOutcome)>, id: u32) -> StatsOutcome
    decreases stats.len(),
{
    if stats.len() == 0 {
        StatsOutcome::FetchFailed
    } else if stats[0].0 == id {
        stats[0].1
    } else {
        spec_stats_of(stats.drop_first(), id)
    }
}

/// Look `id` up among the stats answers.
fn stats_of(stats: &Vec<(u32, StatsOutcome)>, id: u32) -> (r: StatsOutcome)
    ensures
        r == spec_stats_of(stats@, id),
{
    let mut i: usize = 0;
    proof {
        assert(stats@.skip(0) =~= stats@);
    }
    while i < stats.len()
        invariant
            0 <= i <= stats@.len(),
            spec_stats_of(stats@, id) == spec_stats_of(stats@.skip(i as int), id),
        decreases stats@.len() - i,
    {
        proof {
            assert(stats@.skip(i as int).drop_first() =~= stats@.skip(i + 1));
        }
        if stats[i].0 == id {
            return stats[i].1;
        }
        i = i + 1;
    }
    StatsOutcome::FetchFailed
}

/// The event a stats fetch ends in for a record whose id is known:
/// fetched statistics are folded into the record, an unsolved answer
/// leaves it as it is, and a failed fetch still carries the record so
/// its id is persisted.
pub open spec fn spec_stats_event(r: PuzzleStats, outcome: StatsOutcome) -> Payload {
    match outcome {
        StatsOutcome::Stats(o) => match o {
            Some(s) => Payload::Solve(r.spec_update_stats(s)),
            None => Payload::Unsolved(r),
        },
        StatsOutcome::FetchFailed => Payload::FetchError(Some(r)),
    }
}

/// Turn a stats fetch outcome into the event the sink consumes.
pub fn stats_outcome_event(puzzle: PuzzleStats, outcome: StatsOutcome) -> (p: Payload)
    ensures
        p == spec_stats_event(puzzle, outcome),
        puzzle.wf() ==> p.wf(),
{
    match outcome {
        StatsOutcome::Stats(Some(solve_stats)) => {
            let mut updated = puzzle;
            updated.update_stats(solve_stats);
            Payload::Solve(updated)
        },
        StatsOutcome::Stats(None) => Payload::Unsolved(puzzle),
        StatsOutcome::FetchFailed => Payload::FetchError(Some(puzzle)),
    }
}

/// The event one record of a directory-resolved chunk ends in: no id in
/// the answer means an unreleased puzzle (a fetch error without a
/// record); a record that already carries a solve time is emitted as
/// solved without any stats fetch; otherwise the stats fetch decides.
pub open spec fn spec_resolve_record(
    r: PuzzleStats,
    dir: Seq<(Date, u32)>,
    stats: Seq<(u32, StatsOutcome)>,
) -> Payload {
    match spec_id_of(dir, r.date) {
        None => Payload::FetchError(None),
        Some(id) => if r.solve_time_secs is Some {
            Payload::Solve(r.spec_with_id(id))
        } else {
            spec_stats_event(r.spec_with_id(id), spec_stats_of(stats, id))
        },
    }
}

/// What to do with one record of a chunk once the directory has
/// answered.
#[derive(Debug, Clone, Copy)]
pub enum RecordPlan {
    /// The directory lists no id for the record's date (an unreleased
    /// puzzle): emit a fetch error without a record.
    MissingId,
    /// The record already carries a solve time (loaded from durable
    /// storage without an id): emit it as solved directly, with no stats
    /// fetch.
    EmitDirect(PuzzleStats),
    /// The record needs a stats fetch for its freshly learned id.
    NeedStats(PuzzleStats),
}

/// Decide what one record of a chunk needs, given the id the directory
/// answered for its date.
pub fn plan_record(puzzle: PuzzleStats, id: Option<u32>) -> (plan: RecordPlan)
    ensures
        id is None ==> plan == RecordPlan::MissingId,
        id is Some && puzzle.solve_time_secs is Some ==> plan == RecordPlan::EmitDirect(
            puzzle.spec_with_id(id->0),
        ),
        id is Some && puzzle.solve_time_secs is None ==> plan == RecordPlan::NeedStats(
            puzzle.spec_with_id(id->0),
        ),
{
    match id {
        None => RecordPlan::MissingId,
        Some(id) => {
            let mut with_id = puzzle;
            with_id.puzzle_id = Some(id);
            if with_id.solve_time_secs.is_some() {
                RecordPlan::EmitDirect(with_id)
            } else {
                RecordPlan::NeedStats(with_id)
            }
        },
    }
}

/// Resolve one record of a chunk against the directory and stats
/// answers.
fn resolve_record(
    puzzle: PuzzleStats,
    dir: &Vec<(Date, u32)>,
    stats: &Vec<(u32, StatsOutcome)>,
) -> (p: Payload)
    ensures
        p == spec_resolve_record(puzzle, dir@, stats@),
        puzzle.wf() ==> p.wf(),
{
    match plan_record(puzzle, id_of(dir, puzzle.date)) {
        RecordPlan::MissingId => Payload::FetchError(None),
        RecordPlan::EmitDirect(with_id) => Payload::Solve(with_id),
        RecordPlan::NeedStats(with_id) => {
            let id = match with_id.puzzle_id {
                Some(id) => id,
                None => {
                    proof {
                        assert(false);
                    }
                    0
                },
            };
            stats_outcome_event(with_id, stats_of(stats, id))
        },
    }
}

/// The events of one chunk: none when the bulk directory call for the
/// chunk failed (every date of it stays incomplete), else one event per
/// record.
pub open spec fn spec_chunk_events(
    chunk: Seq<PuzzleStats>,
    dir: Seq<(Date, u32)>,
    dir_fail: Seq<Date>,
    stats: Seq<(u32, StatsOutcome)>,
) -> Seq<Payload> {
    if chunk.len() > 0 && dir_fail.contains(chunk[0].date) {
        Seq::empty()
    } else {
        chunk.map_values(|r: PuzzleStats| spec_resolve_record(r, dir, stats))
    }
}

/// The events of stream A: each chunk's events in chunk order.
pub open spec fn spec_stream_a(
    chunks: Seq<Seq<PuzzleStats>>,
    dir: Seq<(Date, u32)>,
    dir_fail: Seq<Date>,
    stats: Seq<(u32, StatsOutcome)>,
) -> Seq<Payload>
    decreases chunks.len(),
{
    if chunks.len() == 0 {
        Seq::empty()
    } else {
        spec_chunk_events(chunks[0], dir, dir_fail, stats) + spec_stream_a(
            chunks.drop_first(),
            dir,
            dir_fail,
            stats,
        )
    }
}

/// The events of stream B: one stats fetch per cached incomplete record.
pub open spec fn spec_stream_b(
    cached: Seq<PuzzleStats>,
    stats: Seq<(u32, StatsOutcome)>,
) -> Seq<Payload> {
    cached.map_values(|r: PuzzleStats| spec_stats_event(r, spec_stats_of(stats, r.puzzle_id->0)))
}

/// Whether the bulk directory call for the chunk starting at `d` fails.
fn dir_fails(dir_fail: &Vec<Date>, d: Date) -> (r: bool)
    ensures
        r == dir_fail@.contains(d),
{
    let mut i: usize = 0;
    while i < dir_fail.len()
        invariant
            0 <= i <= dir_fail@.len(),
            forall|j: int| 0 <= j < i ==> dir_fail@[j] != d,
        decreases dir_fail@.len() - i,
    {
        if dir_fail[i] == d {
            return true;
        }
        i = i + 1;
    }
    false
}

/// Search one block of dates: resolve the block's ids with one bulk
/// call, then one event per record; a failed bulk call yields no events,
/// so every date of the block stays incomplete.
pub fn search_date_block(
    block: &Vec<PuzzleStats>,
    dir: &Vec<(Date, u32)>,
    dir_fail: &Vec<Date>,
    stats: &Vec<(u32, StatsOutcome)>,
) -> (events: Vec<Payload>)
    requires
        forall|i: int| 0 <= i < block@.len() ==> (#[trigger] block@[i]).wf(),
    ensures
        events@ == spec_chunk_events(block@, dir@, dir_fail@, stats@),
        forall|i: int| 0 <= i < events@.len() ==> (#[trigger] events@[i]).wf(),
{
    let mut events: Vec<Payload> = Vec::new();
    if block.len() > 0 && dir_fails(dir_fail, block[0].date) {
        return events;
    }
    let mut i: usize = 0;
    while i < block.len()
        invariant
            forall|j: int| 0 <= j < block@.len() ==> (#[trigger] block@[j]).wf(),
            0 <= i <= block@.len(),
            events@.len() == i,
            forall|j: int|
                0 <= j < i ==> #[trigger] events@[j] == spec_resolve_record(
                    block@[j],
                    dir@,
                    stats@,
                ),
            forall|j: int| 0 <= j < i ==> (#[trigger] events@[j]).wf(),
        decreases block@.len() - i,
    {
        events.push(resolve_record(block[i], dir, stats));
        i = i + 1;
    }
    proof {
        assert(events@ =~= block@.map_values(
            |r: PuzzleStats| spec_resolve_record(r, dir@, stats@),
        ));
    }
    events
}

/// Stream A: search each block of dates in order and collect every
/// block's events.
pub fn fetch_ids_and_stats(
    chunks: &Vec<Vec<PuzzleStats>>,
    dir: &Vec<(Date, u32)>,
    dir_fail: &Vec<Date>,
    stats: &Vec<(u32, StatsOutcome)>,
) -> (events: Vec<Payload>)
    requires
        forall|c: int, i: int|
            0 <= c < chunks@.len() && 0 <= i < chunks@[c]@.len() ==> (#[trigger] chunks@[c]@[i]).wf(),
    ensures
        events@ == spec_stream_a(chunks_view(chunks@), dir@, dir_fail@, stats@),
        forall|i: int| 0 <= i < events@.len() ==> (#[trigger] events@[i]).wf(),
{
    let mut events: Vec<Payload> = Vec::new();
    let mut c: usize = 0;
    proof {
        assert(chunks_view(chunks@).skip(0) =~= chunks_view(chunks@));
    }
    while c < chunks.len()
        invariant
            forall|c2: int, i: int|
                0 <= c2 < chunks@.len() && 0 <= i < chunks@[c2]@.len() ==> (#[trigger] chunks@[c2]@[i]).wf(),
            0 <= c <= chunks@.len(),
            spec_stream_a(chunks_view(chunks@), dir@, dir_fail@, stats@) == events@ + spec_stream_a(
                chunks_view(chunks@).skip(c as int),
                dir@,
                dir_fail@,
                stats@,
            ),
            forall|i: int| 0 <= i < events@.len() ==> (#[trigger] events@[i]).wf(),
        decreases chunks@.len() - c,
    {
        proof {
            assert(chunks_view(chunks@).skip(c as int).drop_first() =~= chunks_view(chunks@).skip(
                c + 1,
            ));
            assert(chunks_view(chunks@).skip(c as int)[0] == chunks@[c as int]@);
        }
        let mut block_events = search_date_block(&chunks[c], dir, dir_fail, stats);
        let ghost pre = events@;
        let ghost be = block_events@;
        events.append(&mut block_events);
        proof {
            assert(events@ == pre + be);
            assert((pre + be) + spec_stream_a(
                chunks_view(chunks@).skip(c + 1),
                dir@,
                dir_fail@,
                stats@,
            ) =~= pre + (be + spec_stream_a(
                chunks_view(chunks@).skip(c + 1),
                dir@,
                dir_fail@,
                stats@,
            )));
        }
        c = c + 1;
    }
    proof {
        assert(chunks_view(chunks@).skip(chunks@.len() as int) =~= Seq::<Seq<PuzzleStats>>::empty());
        assert(events@ + Seq::<Payload>::empty() =~= events@);
    }
    events
}

/// Stream B: one stats fetch per cached record that has an id but is not
/// complete.
pub fn fetch_missing_times(
    dates: &Vec<PuzzleStats>,
    stats: &Vec<(u32, StatsOutcome)>,
) -> (events: Vec<Payload>)
    requires
        forall|i: int|
            0 <= i < dates@.len() ==> (#[trigger] dates@[i]).wf() && dates@[i].puzzle_id is Some,
    ensures
        events@ == spec_stream_b(dates@, stats@),
        forall|i: int| 0 <= i < events@.len() ==> (#[trigger] events@[i]).wf(),
{
    let mut events: Vec<Payload> = Vec::new();
    let mut i: usize = 0;
    while i < dates.len()
        invariant
            forall|j: int|
                0 <= j < dates@.len() ==> (#[trigger] dates@[j]).wf() && dates@[j].puzzle_id
                    is Some,
            0 <= i <= dates@.len(),
            events@.len() == i,
            forall|j: int|
                0 <= j < i ==> #[trigger] events@[j] == spec_stats_event(
                    dates@[j],
                    spec_stats_of(stats@, dates@[j].puzzle_id->0),
                ),
            forall|j: int| 0 <= j < i ==> (#[trigger] events@[j]).wf(),
        decreases dates@.len() - i,
    {
        let puzzle = dates[i];
        let id = match puzzle.puzzle_id {
            Some(id) => id,
            None => {
                proof {
                    assert(false);
                }
                0
            },
        };
        events.push(stats_outcome_event(puzzle, stats_of(stats, id)));
        i = i + 1;
    }
    proof {
        assert(events@ =~= spec_stream_b(dates@, stats@));
    }
    events
}

/// Apply a stream of events to the store, in order.
fn apply_events(stats_db: &mut Database, events: &Vec<Payload>)
    requires
        old(stats_db).wf(),
        forall|i: int| 0 <= i < events@.len() ==> (#[trigger] events@[i]).wf(),
    ensures
        final(stats_db).wf(),
        final(stats_db)@ == spec_apply_all(old(stats_db)@, events@),
{
    let ghost s0 = stats_db@;
    let mut i: usize = 0;
    proof {
        assert(events@.skip(0) =~= events@);
    }
    while i < events.len()
        invariant
            stats_db.wf(),
            forall|k: int| 0 <= k < events@.len() ==> (#[trigger] events@[k]).wf(),
            0 <= i <= events@.len(),
            spec_apply_all(s0, events@) == spec_apply_all(stats_db@, events@.skip(i as int)),
            s0 == old(stats_db)@,
        decreases events@.len() - i,
    {
        proof {
            assert(events@.skip(i as int).drop_first() =~= events@.skip(i + 1));
            assert(events@.skip(i as int)[0] == events@[i as int]);
        }
        apply_payload(stats_db, events[i]);
        i = i + 1;
    }
    proof {
        assert(events@.skip(events@.len() as int) =~= Seq::<Payload>::empty());
    }
}

/// Applying a concatenation of event streams is applying one after the
/// other.
pub proof fn lemma_apply_all_concat(s: Seq<PuzzleStats>, a: Seq<Payload>, b: Seq<Payload>)
    ensures
        spec_apply_all(s, a + b) == spec_apply_all(spec_apply_all(s, a), b),
    decreases a.len(),
{
    if a.len() == 0 {
        assert(a + b =~= b);
    } else {
        assert((a + b).drop_first() =~= a.drop_first() + b);
        lemma_apply_all_concat(spec_apply(s, a[0]), a.drop_first(), b);
    }
}

/// Filtering well-formed records keeps them well formed.
proof fn lemma_filter_keeps_wf(s: Seq<PuzzleStats>, pred: spec_fn(PuzzleStats) -> bool)
    requires
        forall|j: int| 0 <= j < s.len() ==> (#[trigger] s[j]).wf(),
    ensures
        forall|i: int| 0 <= i < s.filter(pred).len() ==> (#[trigger] s.filter(pred)[i]).wf(),
    decreases s.len(),
{
    reveal(Seq::filter);
    if s.len() > 0 {
        assert(forall|j: int| 0 <= j < s.drop_last().len() ==> (#[trigger] s.drop_last()[j]).wf());
        lemma_filter_keeps_wf(s.drop_last(), pred);
        assert forall|i: int| 0 <= i < s.filter(pred).len() implies (#[trigger] s.filter(pred)[i]).wf() by {
            if i < s.drop_last().filter(pred).len() {
                assert(s.filter(pred)[i] == s.drop_last().filter(pred)[i]);
            } else {
                assert(s.filter(pred)[i] == s.last());
            }
        }
    }
}

/// Every record a filter keeps is a record of the original sequence.
proof fn lemma_filter_members(s: Seq<PuzzleStats>, pred: spec_fn(PuzzleStats) -> bool)
    ensures
        forall|i: int|
            0 <= i < s.filter(pred).len() ==> exists|j: int|
                0 <= j < s.len() && s[j] == #[trigger] s.filter(pred)[i],
    decreases s.len(),
{
    reveal(Seq::filter);
    if s.len() > 0 {
        lemma_filter_members(s.drop_last(), pred);
        assert forall|i: int|
            0 <= i < s.filter(pred).len() implies exists|j: int|
            0 <= j < s.len() && s[j] == #[trigger] s.filter(pred)[i] by {
            if i < s.drop_last().filter(pred).len() {
                assert(s.filter(pred)[i] == s.drop_last().filter(pred)[i]);
                let j = choose|j: int|
                    0 <= j < s.drop_last().len() && s.drop_last()[j] == s.drop_last().filter(
                        pred,
                    )[i];
                assert(s[j] == s.filter(pred)[i]);
            } else {
                assert(s.filter(pred)[i] == s.last());
                assert(s[s.len() - 1] == s.filter(pred)[i]);
            }
        }
    }
}

/// Applying events that only re-insert records the store already holds
/// changes nothing.
proof fn lemma_apply_all_stable(s: Seq<PuzzleStats>, evs: Seq<Payload>)
    requires
        crate::database::seq_wf(s),
        forall|i: int|
            0 <= i < evs.len() ==> match #[trigger] evs[i] {
                Payload::Solve(r) => r.wf() && crate::database::seq_find(s, r.date) == Some(r),
                Payload::Unsolved(r) => r.wf() && crate::database::seq_find(s, r.date) == Some(r),
                Payload::FetchError(o) => match o {
                    Some(r) => r.wf() && crate::database::seq_find(s, r.date) == Some(r),
                    None => true,
                },
                Payload::Finished(_) => true,
            },
    ensures
        spec_apply_all(s, evs) == s,
    decreases evs.len(),
{
    if evs.len() > 0 {
        assert(spec_apply(s, evs[0]) == s) by {
            match evs[0] {
                Payload::Solve(r) => {
                    crate::database::lemma_insert_stable(s, r);
                },
                Payload::Unsolved(r) => {
                    crate::database::lemma_insert_stable(s, r);
                },
                Payload::FetchError(o) => {
                    match o {
                        Some(r) => {
                            crate::database::lemma_insert_stable(s, r);
                        },
                        None => (),
                    }
                },
                Payload::Finished(_) => (),
            }
        }
        assert(forall|i: int|
            0 <= i < evs.drop_first().len() ==> evs.drop_first()[i] == evs[i + 1]);
        lemma_apply_all_stable(s, evs.drop_first());
    }
}

/// A stream-A event of a chunk whose dates the directory does not list
/// carries no record.
proof fn lemma_stream_a_stale(
    db: Database,
    start: Date,
    end: Date,
    k: int,
    chunks: Seq<Seq<PuzzleStats>>,
    dir: Seq<(Date, u32)>,
    dir_fail: Seq<Date>,
    stats: Seq<(u32, StatsOutcome)>,
    ci: int,
)
    requires
        chunked_correctly(db, start, end, k, chunks),
        forall|d: Date|
            d.is_valid() && start.day_index() <= #[trigger] d.day_index() <= end.day_index()
                && spec_needs_id(db, d) ==> spec_id_of(dir, d) is None,
        0 <= ci <= chunks.len(),
    ensures
        forall|i: int|
            0 <= i < spec_stream_a(chunks.skip(ci), dir, dir_fail, stats).len()
                ==> #[trigger] spec_stream_a(chunks.skip(ci), dir, dir_fail, stats)[i]
                == Payload::FetchError(None),
    decreases chunks.len() - ci,
{
    let tail = chunks.skip(ci);
    if ci < chunks.len() {
        assert(tail[0] == chunks[ci]);
        assert(tail.drop_first() =~= chunks.skip(ci + 1));
        lemma_stream_a_stale(db, start, end, k, chunks, dir, dir_fail, stats, ci + 1);
        let chunk = chunks[ci];
        assert forall|i: int| 0 <= i < chunk.len() implies spec_resolve_record(
            #[trigger] chunk[i],
            dir,
            stats,
        ) == Payload::FetchError(None) by {
            crate::lemma_prefix_chunk_ok(
                db,
                start,
                end,
                k,
                chunks,
                end.day_index() + 1,
                ci,
            );
            crate::lemma_chunk_ok_entry(
                db,
                start,
                end,
                k,
                chunk,
                end.day_index() + 1,
                i,
            );
            assert(crate::chunk_entry_ok(db, start, end, chunk[i], end.day_index() + 1));
            assert(spec_id_of(dir, chunk[i].date) is None);
        }
        assert forall|i: int|
            0 <= i < spec_stream_a(tail, dir, dir_fail, stats).len() implies #[trigger] spec_stream_a(
            tail,
            dir,
            dir_fail,
            stats,
        )[i] == Payload::FetchError(None) by {
            let evs = spec_chunk_events(chunk, dir, dir_fail, stats);
            if i < evs.len() {
                assert(spec_stream_a(tail, dir, dir_fail, stats)[i] == evs[i]);
            } else {
                assert(spec_stream_a(tail, dir, dir_fail, stats)[i] == spec_stream_a(
                    chunks.skip(ci + 1),
                    dir,
                    dir_fail,
                    stats,
                )[i - evs.len()]);
            }
        }
    } else {
        assert(tail =~= Seq::<Seq<PuzzleStats>>::empty());
    }
}

/// The record a resolved chunk entry's event carries: dated like the
/// entry, carrying the directory's id, and — when not complete — one
/// whose stats answer was unsolved or failed.
proof fn lemma_resolve_record_shape(
    r: PuzzleStats,
    dir: Seq<(Date, u32)>,
    stats: Seq<(u32, StatsOutcome)>,
)
    ensures
        spec_id_of(dir, r.date) is None ==> crate::logger::event_record(
            spec_resolve_record(r, dir, stats),
        ) is None,
        spec_id_of(dir, r.date) is Some ==> {
            let q = crate::logger::event_record(spec_resolve_record(r, dir, stats));
            &&& q is Some
            &&& q->0.date == r.date
            &&& q->0.puzzle_id == spec_id_of(dir, r.date)
            &&& r.wf() ==> q->0.wf()
            &&& !q->0.spec_complete() ==> !(spec_stats_of(stats, q->0.puzzle_id->0)
                matches StatsOutcome::Stats(Some(_)))
        },
{
}

/// The record a cached record's stats event carries: the record itself
/// or its completed update, and — when not complete — one whose stats
/// answer was unsolved or failed.
proof fn lemma_stats_event_shape(r: PuzzleStats, stats: Seq<(u32, StatsOutcome)>)
    requires
        r.puzzle_id is Some,
    ensures
        ({
            let q = crate::logger::event_record(
                spec_stats_event(r, spec_stats_of(stats, r.puzzle_id->0)),
            );
            &&& q is Some
            &&& q->0.date == r.date
            &&& q->0.puzzle_id == r.puzzle_id
            &&& r.wf() ==> q->0.wf()
            &&& !q->0.spec_complete() ==> !(spec_stats_of(stats, q->0.puzzle_id->0)
                matches StatsOutcome::Stats(Some(_)))
        }),
{
}

/// No two entries of a correct chunking share a day index.
proof fn lemma_chunks_dates_distinct(
    db: Database,
    start: Date,
    end: Date,
    k: int,
    chunks: Seq<Seq<PuzzleStats>>,
    c1: int,
    i1: int,
    c2: int,
    i2: int,
)
    requires
        chunked_correctly(db, start, end, k, chunks),
        k >= 1,
        0 <= c1 < chunks.len(),
        0 <= i1 < chunks[c1].len(),
        0 <= c2 < chunks.len(),
        0 <= i2 < chunks[c2].len(),
        c1 != c2 || i1 != i2,
    ensures
        chunks[c1][i1].date.day_index() != chunks[c2][i2].date.day_index(),
{
    let pos = end.day_index() + 1;
    crate::lemma_prefix_chunk_ok(db, start, end, k, chunks, pos, c1);
    crate::lemma_prefix_chunk_ok(db, start, end, k, chunks, pos, c2);
    crate::lemma_chunk_ok_entry(db, start, end, k, chunks[c1], pos, i1);
    crate::lemma_chunk_ok_entry(db, start, end, k, chunks[c2], pos, i2);
    if c1 == c2 {
        if i1 < i2 {
            crate::lemma_chunk_ok_sorted(db, start, end, k, chunks[c1], pos, i1, i2);
        } else {
            crate::lemma_chunk_ok_sorted(db, start, end, k, chunks[c1], pos, i2, i1);
        }
    } else if c1 < c2 {
        crate::lemma_span_chain(db, start, end, k, chunks, c1, c2);
        if 0 < i2 {
            crate::lemma_chunk_ok_sorted(db, start, end, k, chunks[c2], pos, 0, i2);
        }
    } else {
        crate::lemma_span_chain(db, start, end, k, chunks, c2, c1);
        if 0 < i1 {
            crate::lemma_chunk_ok_sorted(db, start, end, k, chunks[c1], pos, 0, i1);
        }
    }
}

/// Applying one resolved chunk's events: a date no entry of the chunk
/// writes keeps its record; the date of an entry the directory lists
/// gets that entry's event record.
proof fn lemma_apply_chunk_find(
    s: Seq<PuzzleStats>,
    chunk: Seq<PuzzleStats>,
    dir: Seq<(Date, u32)>,
    stats: Seq<(u32, StatsOutcome)>,
    d: Date,
)
    requires
        crate::database::seq_wf(s),
        forall|i: int| 0 <= i < chunk.len() ==> (#[trigger] chunk[i]).wf(),
        forall|i: int, j: int|
            0 <= i < j < chunk.len() ==> #[trigger] chunk[i].date.day_index()
                < #[trigger] chunk[j].date.day_index(),
    ensures
        crate::database::seq_wf(
            spec_apply_all(s, chunk.map_values(|r: PuzzleStats| spec_resolve_record(r, dir, stats))),
        ),
        (forall|i: int|
            0 <= i < chunk.len() ==> (#[trigger] chunk[i]).date != d || spec_id_of(dir, d)
                is None) ==> crate::database::seq_find(
            spec_apply_all(s, chunk.map_values(|r: PuzzleStats| spec_resolve_record(r, dir, stats))),
            d,
        ) == crate::database::seq_find(s, d),
        forall|i: int|
            0 <= i < chunk.len() && (#[trigger] chunk[i]).date == d && spec_id_of(dir, d) is Some
                ==> crate::database::seq_find(
                spec_apply_all(
                    s,
                    chunk.map_values(|r: PuzzleStats| spec_resolve_record(r, dir, stats)),
                ),
                d,
            ) == crate::logger::event_record(spec_resolve_record(chunk[i], dir, stats)),
{
    let evs = chunk.map_values(|r: PuzzleStats| spec_resolve_record(r, dir, stats));
    assert forall|i: int| 0 <= i < evs.len() implies (#[trigger] evs[i]).wf() by {
        assert(evs[i] == spec_resolve_record(chunk[i], dir, stats));
        lemma_resolve_record_shape(chunk[i], dir, stats);
    }
    crate::logger::lemma_apply_all_wf(s, evs);
    if forall|i: int|
        0 <= i < chunk.len() ==> (#[trigger] chunk[i]).date != d || spec_id_of(dir, d) is None {
        assert forall|i: int|
            0 <= i < evs.len() implies match crate::logger::event_record(#[trigger] evs[i]) {
            Some(q) => q.date != d,
            None => true,
        } by {
            assert(evs[i] == spec_resolve_record(chunk[i], dir, stats));
            lemma_resolve_record_shape(chunk[i], dir, stats);
            if chunk[i].date == d {
                assert(spec_id_of(dir, chunk[i].date) is None);
            }
        }
        crate::logger::lemma_apply_all_frame(s, evs, d);
    }
    assert forall|i: int|
        0 <= i < chunk.len() && (#[trigger] chunk[i]).date == d && spec_id_of(dir, d)
            is Some implies crate::database::seq_find(spec_apply_all(s, evs), d)
        == crate::logger::event_record(spec_resolve_record(chunk[i], dir, stats)) by {
        lemma_resolve_record_shape(chunk[i], dir, stats);
        assert forall|i2: int|
            0 <= i2 < evs.len() && i2 != i implies match crate::logger::event_record(
            #[trigger] evs[i2],
        ) {
            Some(q) => q.date != d,
            None => true,
        } by {
            assert(evs[i2] == spec_resolve_record(chunk[i2], dir, stats));
            lemma_resolve_record_shape(chunk[i2], dir, stats);
            if i2 < i {
                assert(chunk[i2].date.day_index() < chunk[i].date.day_index());
            } else {
                assert(chunk[i].date.day_index() < chunk[i2].date.day_index());
            }
        }
        assert(evs[i] == spec_resolve_record(chunk[i], dir, stats));
        crate::logger::lemma_apply_all_writer(s, evs, i, d);
    }
}

/// Applying stream A from chunk `ci` on: a date no listed entry writes
/// keeps its record; the date of an entry the directory lists gets that
/// entry's event record.
proof fn lemma_stream_a_find(
    s: Seq<PuzzleStats>,
    db: Database,
    start: Date,
    end: Date,
    k: int,
    chunks: Seq<Seq<PuzzleStats>>,
    ci: int,
    dir: Seq<(Date, u32)>,
    dir_fail: Seq<Date>,
    stats: Seq<(u32, StatsOutcome)>,
    d: Date,
)
    requires
        crate::database::seq_wf(s),
        chunked_correctly(db, start, end, k, chunks),
        k >= 1,
        dir_fail.len() == 0,
        0 <= ci <= chunks.len(),
    ensures
        crate::database::seq_wf(
            spec_apply_all(s, spec_stream_a(chunks.skip(ci), dir, dir_fail, stats)),
        ),
        (forall|c: int, i: int|
            ci <= c < chunks.len() && 0 <= i < chunks[c].len() ==> (#[trigger] chunks[c][i]).date
                != d || spec_id_of(dir, d) is None) ==> crate::database::seq_find(
            spec_apply_all(s, spec_stream_a(chunks.skip(ci), dir, dir_fail, stats)),
            d,
        ) == crate::database::seq_find(s, d),
        forall|c: int, i: int|
            ci <= c < chunks.len() && 0 <= i < chunks[c].len() && (#[trigger] chunks[c][i]).date
                == d && spec_id_of(dir, d) is Some ==> crate::database::seq_find(
                spec_apply_all(s, spec_stream_a(chunks.skip(ci), dir, dir_fail, stats)),
                d,
            ) == crate::logger::event_record(spec_resolve_record(chunks[c][i], dir, stats)),
    decreases chunks.len() - ci,
{
    let pos = end.day_index() + 1;
    let tail = chunks.skip(ci);
    if ci == chunks.len() {
        assert(tail =~= Seq::<Seq<PuzzleStats>>::empty());
    } else {
        let chunk = chunks[ci];
        assert(tail[0] == chunk);
        assert(tail.drop_first() =~= chunks.skip(ci + 1));
        crate::lemma_prefix_chunk_ok(db, start, end, k, chunks, pos, ci);
        assert forall|i: int| 0 <= i < chunk.len() implies (#[trigger] chunk[i]).wf() by {
            crate::lemma_chunk_ok_entry(db, start, end, k, chunk, pos, i);
        }
        assert forall|i: int, j: int|
            0 <= i < j < chunk.len() implies #[trigger] chunk[i].date.day_index()
            < #[trigger] chunk[j].date.day_index() by {
            crate::lemma_chunk_ok_sorted(db, start, end, k, chunk, pos, i, j);
        }
        let evs = spec_chunk_events(chunk, dir, dir_fail, stats);
        assert(chunk.len() > 0 ==> !dir_fail.contains(chunk[0].date));
        assert(evs == chunk.map_values(|r: PuzzleStats| spec_resolve_record(r, dir, stats)));
        lemma_apply_all_concat(
            s,
            evs,
            spec_stream_a(chunks.skip(ci + 1), dir, dir_fail, stats),
        );
        assert(spec_stream_a(tail, dir, dir_fail, stats) == evs + spec_stream_a(
            chunks.skip(ci + 1),
            dir,
            dir_fail,
            stats,
        ));
        let s2 = spec_apply_all(s, evs);
        lemma_apply_chunk_find(s, chunk, dir, stats, d);
        lemma_stream_a_find(s2, db, start, end, k, chunks, ci + 1, dir, dir_fail, stats, d);
        // Frame: no listed entry from `ci` on is dated `d`.
        if forall|c: int, i: int|
            ci <= c < chunks.len() && 0 <= i < chunks[c].len() ==> (#[trigger] chunks[c][i]).date
                != d || spec_id_of(dir, d) is None {
            assert(forall|i: int|
                0 <= i < chunk.len() ==> (#[trigger] chunk[i]).date != d || spec_id_of(dir, d)
                    is None);
            assert(crate::database::seq_find(s2, d) == crate::database::seq_find(s, d));
        }
        // Writer: the entry dated `d` decides the record at `d`.
        assert forall|c: int, i: int|
            ci <= c < chunks.len() && 0 <= i < chunks[c].len() && (#[trigger] chunks[c][i]).date
                == d && spec_id_of(dir, d) is Some implies crate::database::seq_find(
            spec_apply_all(s, spec_stream_a(tail, dir, dir_fail, stats)),
            d,
        ) == crate::logger::event_record(spec_resolve_record(chunks[c][i], dir, stats)) by {
            if c == ci {
                assert(crate::database::seq_find(s2, d) == crate::logger::event_record(
                    spec_resolve_record(chunk[i], dir, stats),
                ));
                // No later chunk writes `d` again.
                assert forall|c2: int, i2: int|
                    ci + 1 <= c2 < chunks.len() && 0 <= i2 < chunks[c2].len() implies (
                #[trigger] chunks[c2][i2]).date != d || spec_id_of(dir, d) is None by {
                    lemma_chunks_dates_distinct(db, start, end, k, chunks, ci, i, c2, i2);
                }
            } else {
                // This chunk does not write `d`; the later one decides.
                assert forall|i2: int|
                    0 <= i2 < chunk.len() implies (#[trigger] chunk[i2]).date != d || spec_id_of(
                    dir,
                    d,
                ) is None by {
                    lemma_chunks_dates_distinct(db, start, end, k, chunks, ci, i2, c, i);
                }
            }
        }
    }
}

/// Filtering date-sorted contents keeps them date-sorted.
proof fn lemma_filter_sorted(s: Seq<PuzzleStats>, pred: spec_fn(PuzzleStats) -> bool)
    requires
        crate::database::seq_wf(s),
    ensures
        forall|i: int, j: int|
            0 <= i < j < s.filter(pred).len() ==> #[trigger] s.filter(pred)[i].date.day_index()
                < #[trigger] s.filter(pred)[j].date.day_index(),
    decreases s.len(),
{
    reveal(Seq::filter);
    if s.len() > 0 {
        assert(crate::database::seq_wf(s.drop_last()));
        lemma_filter_sorted(s.drop_last(), pred);
        lemma_filter_members(s.drop_last(), pred);
        let f = s.filter(pred);
        let f0 = s.drop_last().filter(pred);
        assert forall|i: int, j: int|
            0 <= i < j < f.len() implies #[trigger] f[i].date.day_index()
            < #[trigger] f[j].date.day_index() by {
            if j < f0.len() {
                assert(f[i] == f0[i] && f[j] == f0[j]);
            } else {
                assert(f[j] == s.last());
                assert(f[i] == f0[i]);
                let j2 = choose|j2: int| 0 <= j2 < s.drop_last().len() && s.drop_last()[j2] == f0[i];
                assert(s[j2] == f0[i]);
                assert(s[j2].date.day_index() < s[s.len() - 1].date.day_index());
            }
        }
    }
}

/// Applying stream B: a date no cached record carries keeps its record;
/// a cached record's date gets its stats event's record.
proof fn lemma_stream_b_find(
    s: Seq<PuzzleStats>,
    cached: Seq<PuzzleStats>,
    stats: Seq<(u32, StatsOutcome)>,
    d: Date,
)
    requires
        crate::database::seq_wf(s),
        forall|i: int|
            0 <= i < cached.len() ==> (#[trigger] cached[i]).wf() && cached[i].puzzle_id is Some,
        forall|i: int, j: int|
            0 <= i < j < cached.len() ==> #[trigger] cached[i].date.day_index()
                < #[trigger] cached[j].date.day_index(),
    ensures
        crate::database::seq_wf(spec_apply_all(s, spec_stream_b(cached, stats))),
        (forall|i: int| 0 <= i < cached.len() ==> (#[trigger] cached[i]).date != d)
            ==> crate::database::seq_find(spec_apply_all(s, spec_stream_b(cached, stats)), d)
            == crate::database::seq_find(s, d),
        forall|i: int|
            0 <= i < cached.len() && (#[trigger] cached[i]).date == d
                ==> crate::database::seq_find(spec_apply_all(s, spec_stream_b(cached, stats)), d)
                == crate::logger::event_record(
                spec_stats_event(cached[i], spec_stats_of(stats, cached[i].puzzle_id->0)),
            ),
{
    let evs = spec_stream_b(cached, stats);
    assert forall|i: int| 0 <= i < evs.len() implies (#[trigger] evs[i]).wf() by {
        assert(evs[i] == spec_stats_event(cached[i], spec_stats_of(stats, cached[i].puzzle_id->0)));
        lemma_stats_event_shape(cached[i], stats);
    }
    crate::logger::lemma_apply_all_wf(s, evs);
    if forall|i: int| 0 <= i < cached.len() ==> (#[trigger] cached[i]).date != d {
        assert forall|i: int|
            0 <= i < evs.len() implies match crate::logger::event_record(#[trigger] evs[i]) {
            Some(q) => q.date != d,
            None => true,
        } by {
            assert(evs[i] == spec_stats_event(
                cached[i],
                spec_stats_of(stats, cached[i].puzzle_id->0),
            ));
            lemma_stats_event_shape(cached[i], stats);
        }
        crate::logger::lemma_apply_all_frame(s, evs, d);
    }
    assert forall|i: int|
        0 <= i < cached.len() && (#[trigger] cached[i]).date == d implies crate::database::seq_find(
        spec_apply_all(s, evs),
        d,
    ) == crate::logger::event_record(
        spec_stats_event(cached[i], spec_stats_of(stats, cached[i].puzzle_id->0)),
    ) by {
        lemma_stats_event_shape(cached[i], stats);
        assert(evs[i] == spec_stats_event(cached[i], spec_stats_of(stats, cached[i].puzzle_id->0)));
        assert forall|i2: int|
            0 <= i2 < evs.len() && i2 != i implies match crate::logger::event_record(
            #[trigger] evs[i2],
        ) {
            Some(q) => q.date != d,
            None => true,
        } by {
            assert(evs[i2] == spec_stats_event(
                cached[i2],
                spec_stats_of(stats, cached[i2].puzzle_id->0),
            ));
            lemma_stats_event_shape(cached[i2], stats);
            if i2 < i {
                assert(cached[i2].date.day_index() < cached[i].date.day_index());
            } else {
                assert(cached[i].date.day_index() < cached[i2].date.day_index());
            }
        }
        crate::logger::lemma_apply_all_writer(s, evs, i, d);
    }
}

/// One full pass of the pipeline, with every bulk directory call
/// answering, leaves a store the same remote data cannot improve: every
/// date still needing an id is one the directory does not list, and
/// every cached incomplete record's stats answer was unsolved or failed.
#[verifier::rlimit(100)]
pub proof fn lemma_pipeline_reaches_fixpoint(
    db: Database,
    start: Date,
    end: Date,
    k: int,
    chunks: Seq<Seq<PuzzleStats>>,
    dir: Seq<(Date, u32)>,
    dir_fail: Seq<Date>,
    stats: Seq<(u32, StatsOutcome)>,
    s1: Seq<PuzzleStats>,
)
    requires
        db.wf(),
        start.is_valid(),
        end.is_valid(),
        k >= 1,
        chunked_correctly(db, start, end, k, chunks),
        dir_fail.len() == 0,
        s1 == spec_apply_all(
            db@,
            spec_stream_a(chunks, dir, dir_fail, stats) + spec_stream_b(
                db@.filter(unsolved_pred(start)),
                stats,
            ),
        ),
    ensures
        crate::database::seq_wf(s1),
        forall|d: Date|
            d.is_valid() && start.day_index() <= #[trigger] d.day_index() <= end.day_index()
                && (match crate::database::seq_find(s1, d) {
                Some(r) => r.puzzle_id is None,
                None => true,
            }) ==> spec_id_of(dir, d) is None,
        forall|j: int|
            0 <= j < s1.len() && (#[trigger] s1[j]).puzzle_id is Some && !s1[j].spec_complete()
                && s1[j].date.day_index() >= start.day_index() ==> !(spec_stats_of(
                stats,
                s1[j].puzzle_id->0,
            ) matches StatsOutcome::Stats(Some(_))),
{
    let pos = end.day_index() + 1;
    let a = spec_stream_a(chunks, dir, dir_fail, stats);
    let cached = db@.filter(unsolved_pred(start));
    let b = spec_stream_b(cached, stats);
    lemma_apply_all_concat(db@, a, b);
    assert(chunks.skip(0) =~= chunks);
    let sa = spec_apply_all(db@, a);
    assert(s1 == spec_apply_all(sa, b));
    // Facts about the cached records.
    lemma_filter_keeps_wf(db@, unsolved_pred(start));
    lemma_filter_members(db@, unsolved_pred(start));
    lemma_filter_sorted(db@, unsolved_pred(start));
    assert forall|i: int|
        0 <= i < cached.len() implies (#[trigger] cached[i]).wf() && cached[i].puzzle_id is Some
        && crate::database::seq_find(db@, cached[i].date) == Some(cached[i]) by {
        db@.lemma_filter_pred(unsolved_pred(start), i);
        let j = choose|j: int| 0 <= j < db@.len() && db@[j] == #[trigger] cached[i];
        crate::database::lemma_find_member(db@, j);
    }
    lemma_stream_a_find(db@, db, start, end, k, chunks, 0, dir, dir_fail, stats, start);
    lemma_stream_b_find(sa, cached, stats, start);
    assert(crate::database::seq_wf(s1));
    // A date in range that still needs an id is one the directory does
    // not list.
    assert forall|d: Date|
        d.is_valid() && start.day_index() <= #[trigger] d.day_index() <= end.day_index() && (
        match crate::database::seq_find(s1, d) {
            Some(r) => r.puzzle_id is None,
            None => true,
        }) implies spec_id_of(dir, d) is None by {
        lemma_stream_a_find(db@, db, start, end, k, chunks, 0, dir, dir_fail, stats, d);
        lemma_stream_b_find(sa, cached, stats, d);
        if spec_id_of(dir, d) is Some {
            if spec_needs_id(db, d) {
                // The gap search covered `d`; its entry's event wrote a
                // record with the directory's id at `d`.
                crate::lemma_prefix_covers(db, start, end, k, chunks, pos, d);
                assert(exists|c: int, i: int|
                    0 <= c < chunks.len() && 0 <= i < chunks[c].len() && (
                    #[trigger] chunks[c][i]).date == d) by {
                    reveal(crate::chunk_covers);
                }
                let (c, i) = choose|c: int, i: int|
                    0 <= c < chunks.len() && 0 <= i < chunks[c].len() && (
                    #[trigger] chunks[c][i]).date == d;
                lemma_resolve_record_shape(chunks[c][i], dir, stats);
                assert(crate::database::seq_find(sa, d) == crate::logger::event_record(
                    spec_resolve_record(chunks[c][i], dir, stats),
                ));
                assert forall|i2: int|
                    0 <= i2 < cached.len() implies (#[trigger] cached[i2]).date != d by {
                    if cached[i2].date == d {
                        assert(crate::database::seq_find(db@, d) == Some(cached[i2]));
                    }
                }
                assert(crate::database::seq_find(s1, d) == crate::database::seq_find(sa, d));
                assert(false);
            } else {
                // `d` already had its id; every event at `d` keeps one.
                assert forall|c: int, i: int|
                    0 <= c < chunks.len() && 0 <= i < chunks[c].len() implies (
                #[trigger] chunks[c][i]).date != d || spec_id_of(dir, d) is None by {
                    crate::lemma_prefix_chunk_ok(db, start, end, k, chunks, pos, c);
                    crate::lemma_chunk_ok_entry(db, start, end, k, chunks[c], pos, i);
                }
                assert(crate::database::seq_find(sa, d) == crate::database::seq_find(db@, d));
                if exists|i2: int| 0 <= i2 < cached.len() && (#[trigger] cached[i2]).date == d {
                    let i2 = choose|i2: int|
                        0 <= i2 < cached.len() && (#[trigger] cached[i2]).date == d;
                    lemma_stats_event_shape(cached[i2], stats);
                    assert(false);
                } else {
                    assert(crate::database::seq_find(s1, d) == crate::database::seq_find(sa, d));
                    assert(false);
                }
            }
        }
    }
    // A record still incomplete but carrying an id got an unsolved or
    // failed stats answer.
    assert forall|j: int|
        0 <= j < s1.len() && (#[trigger] s1[j]).puzzle_id is Some && !s1[j].spec_complete()
            && s1[j].date.day_index() >= start.day_index() implies !(spec_stats_of(
        stats,
        s1[j].puzzle_id->0,
    ) matches StatsOutcome::Stats(Some(_))) by {
        let r = s1[j];
        let d = r.date;
        crate::database::lemma_find_member(s1, j);
        lemma_stream_a_find(db@, db, start, end, k, chunks, 0, dir, dir_fail, stats, d);
        lemma_stream_b_find(sa, cached, stats, d);
        if exists|c: int, i: int|
            0 <= c < chunks.len() && 0 <= i < chunks[c].len() && (#[trigger] chunks[c][i]).date
                == d {
            let (c, i) = choose|c: int, i: int|
                0 <= c < chunks.len() && 0 <= i < chunks[c].len() && (#[trigger] chunks[c][i]).date
                    == d;
            crate::lemma_prefix_chunk_ok(db, start, end, k, chunks, pos, c);
            crate::lemma_chunk_ok_entry(db, start, end, k, chunks[c], pos, i);
            assert(spec_needs_id(db, d));
            assert forall|i2: int|
                0 <= i2 < cached.len() implies (#[trigger] cached[i2]).date != d by {
                if cached[i2].date == d {
                    assert(crate::database::seq_find(db@, d) == Some(cached[i2]));
                }
            }
            assert(crate::database::seq_find(s1, d) == crate::database::seq_find(sa, d));
            lemma_resolve_record_shape(chunks[c][i], dir, stats);
            if spec_id_of(dir, d) is Some {
                assert(Some(r) == crate::logger::event_record(
                    spec_resolve_record(chunks[c][i], dir, stats),
                ));
            } else {
                // The entry produced no record, and no other event wrote
                // `d`; yet the surviving record carries an id.
                assert(crate::database::seq_find(sa, d) == crate::database::seq_find(db@, d));
                assert(match crate::database::seq_find(db@, d) {
                    Some(r0) => r0.puzzle_id is None,
                    None => true,
                });
                assert(false);
            }
        } else {
            assert forall|c: int, i: int|
                0 <= c < chunks.len() && 0 <= i < chunks[c].len() implies (
            #[trigger] chunks[c][i]).date != d || spec_id_of(dir, d) is None by {
                assert(chunks[c][i].date != d);
            }
            assert(crate::database::seq_find(sa, d) == crate::database::seq_find(db@, d));
            if exists|i2: int| 0 <= i2 < cached.len() && (#[trigger] cached[i2]).date == d {
                let i2 = choose|i2: int|
                    0 <= i2 < cached.len() && (#[trigger] cached[i2]).date == d;
                lemma_stats_event_shape(cached[i2], stats);
                assert(Some(r) == crate::logger::event_record(
                    spec_stats_event(cached[i2], spec_stats_of(stats, cached[i2].puzzle_id->0)),
                ));
            } else {
                assert(crate::database::seq_find(s1, d) == crate::database::seq_find(sa, d));
                assert(crate::database::seq_find(db@, d) == Some(r));
                crate::database::lemma_find_props(db@, d);
                let j2 = choose|j2: int|
                    0 <= j2 < db@.len() && #[trigger] db@[j2] == crate::database::seq_find(
                        db@,
                        d,
                    )->0;
                assert(unsolved_pred(start)(db@[j2]));
                db@.lemma_filter_contains(unsolved_pred(start), j2);
                assert(cached.contains(db@[j2]));
                let i3 = choose|i3: int| 0 <= i3 < cached.len() && cached[i3] == db@[j2];
                assert(cached[i3].date == d);
                assert(false);
            }
        }
    }
}

/// Running the pipeline a second time against the same remote answers
/// changes nothing: a first pass whose bulk directory calls all answered
/// leaves the store at a fixpoint, so a second pass — whatever its own
/// directory failures — re-derives every record it writes.
pub proof fn lemma_pipeline_idempotent(
    db: Database,
    db2: Database,
    start: Date,
    end: Date,
    k: int,
    chunks: Seq<Seq<PuzzleStats>>,
    chunks2: Seq<Seq<PuzzleStats>>,
    dir: Seq<(Date, u32)>,
    dir_fail2: Seq<Date>,
    stats: Seq<(u32, StatsOutcome)>,
)
    requires
        db.wf(),
        db2.wf(),
        start.is_valid(),
        end.is_valid(),
        k >= 1,
        chunked_correctly(db, start, end, k, chunks),
        chunked_correctly(db2, start, end, k, chunks2),
        db2@ == spec_apply_all(
            db@,
            spec_stream_a(chunks, dir, Seq::<Date>::empty(), stats) + spec_stream_b(
                db@.filter(unsolved_pred(start)),
                stats,
            ),
        ),
    ensures
        spec_apply_all(
            db2@,
            spec_stream_a(chunks2, dir, dir_fail2, stats) + spec_stream_b(
                db2@.filter(unsolved_pred(start)),
                stats,
            ),
        ) == db2@,
{
    lemma_pipeline_reaches_fixpoint(
        db,
        start,
        end,
        k,
        chunks,
        dir,
        Seq::<Date>::empty(),
        stats,
        db2@,
    );
    lemma_pipeline_fixpoint(db2, start, end, k, chunks2, dir, dir_fail2, stats);
}

/// A chunk whose bulk directory call fails yields no events at all, so
/// applying its part of the stream leaves the store exactly as it was:
/// every date of the chunk stays without an id, incomplete, for a future
/// run.
pub proof fn lemma_failed_chunk_changes_nothing(
    s: Seq<PuzzleStats>,
    chunk: Seq<PuzzleStats>,
    dir: Seq<(Date, u32)>,
    dir_fail: Seq<Date>,
    stats: Seq<(u32, StatsOutcome)>,
)
    requires
        chunk.len() > 0,
        dir_fail.contains(chunk[0].date),
    ensures
        spec_chunk_events(chunk, dir, dir_fail, stats) == Seq::<Payload>::empty(),
        spec_apply_all(s, spec_chunk_events(chunk, dir, dir_fail, stats)) == s,
{
}

/// A record that already carries a solve time is emitted as solved the
/// moment the directory lists an id for its date: the event carries the
/// record with the new id and the cached time, and no stats answer is
/// consulted — the same event comes out whatever the stats answers say.
pub proof fn lemma_cached_time_needs_no_stats(
    r: PuzzleStats,
    dir: Seq<(Date, u32)>,
    stats: Seq<(u32, StatsOutcome)>,
    other_stats: Seq<(u32, StatsOutcome)>,
)
    requires
        spec_id_of(dir, r.date) is Some,
        r.solve_time_secs is Some,
    ensures
        spec_resolve_record(r, dir, stats) == Payload::Solve(
            r.spec_with_id(spec_id_of(dir, r.date)->0),
        ),
        spec_resolve_record(r, dir, stats) == spec_resolve_record(r, dir, other_stats),
        r.spec_with_id(spec_id_of(dir, r.date)->0).solve_time_secs == r.solve_time_secs,
{
}

/// A record without a solve time whose stats answer is "unsolved" is
/// emitted with its freshly learned id, still without a time and still
/// incomplete.
pub proof fn lemma_unsolved_answer_keeps_record_incomplete(
    r: PuzzleStats,
    dir: Seq<(Date, u32)>,
    stats: Seq<(u32, StatsOutcome)>,
)
    requires
        spec_id_of(dir, r.date) is Some,
        r.solve_time_secs is None,
        r.cheated != Some(true),
        spec_stats_of(stats, spec_id_of(dir, r.date)->0) == StatsOutcome::Stats(
            None::<SolvedPuzzleStats>,
        ),
    ensures
        spec_resolve_record(r, dir, stats) == Payload::Unsolved(
            r.spec_with_id(spec_id_of(dir, r.date)->0),
        ),
        r.spec_with_id(spec_id_of(dir, r.date)->0).puzzle_id == spec_id_of(dir, r.date),
        r.spec_with_id(spec_id_of(dir, r.date)->0).solve_time_secs is None,
        !r.spec_with_id(spec_id_of(dir, r.date)->0).spec_complete(),
{
}

/// A store the remote data cannot improve is a fixpoint of the pipeline:
/// when the directory does not list any date that still needs an id, and
/// every cached incomplete record's stats fetch comes back unsolved or
/// failed, one full pass leaves the store exactly as it was.
pub proof fn lemma_pipeline_fixpoint(
    db: Database,
    start: Date,
    end: Date,
    k: int,
    chunks: Seq<Seq<PuzzleStats>>,
    dir: Seq<(Date, u32)>,
    dir_fail: Seq<Date>,
    stats: Seq<(u32, StatsOutcome)>,
)
    requires
        db.wf(),
        end.is_valid(),
        chunked_correctly(db, start, end, k, chunks),
        forall|d: Date|
            d.is_valid() && start.day_index() <= #[trigger] d.day_index() <= end.day_index()
                && spec_needs_id(db, d) ==> spec_id_of(dir, d) is None,
        forall|j: int|
            0 <= j < db@.len() && (#[trigger] db@[j]).puzzle_id is Some && !db@[j].spec_complete()
                && db@[j].date.day_index() >= start.day_index() ==> !(spec_stats_of(
                stats,
                db@[j].puzzle_id->0,
            ) matches StatsOutcome::Stats(Some(_))),
    ensures
        spec_apply_all(
            db@,
            spec_stream_a(chunks, dir, dir_fail, stats) + spec_stream_b(
                db@.filter(unsolved_pred(start)),
                stats,
            ),
        ) == db@,
{
    let a = spec_stream_a(chunks, dir, dir_fail, stats);
    let cached = db@.filter(unsolved_pred(start));
    let b = spec_stream_b(cached, stats);
    assert(chunks.skip(0) =~= chunks);
    lemma_stream_a_stale(db, start, end, k, chunks, dir, dir_fail, stats, 0);
    lemma_filter_members(db@, unsolved_pred(start));
    assert forall|i: int|
        0 <= i < b.len() implies match #[trigger] b[i] {
        Payload::Solve(r) => r.wf() && crate::database::seq_find(db@, r.date) == Some(r),
        Payload::Unsolved(r) => r.wf() && crate::database::seq_find(db@, r.date) == Some(r),
        Payload::FetchError(o) => match o {
            Some(r) => r.wf() && crate::database::seq_find(db@, r.date) == Some(r),
            None => true,
        },
        Payload::Finished(_) => true,
    } by {
        let r = cached[i];
        db@.lemma_filter_pred(unsolved_pred(start), i);
        let j = choose|j: int| 0 <= j < db@.len() && db@[j] == #[trigger] cached[i];
        crate::database::lemma_find_member(db@, j);
        assert(b[i] == spec_stats_event(r, spec_stats_of(stats, r.puzzle_id->0)));
        assert(!(spec_stats_of(stats, r.puzzle_id->0) matches StatsOutcome::Stats(Some(_))));
    }
    assert forall|i: int|
        0 <= i < (a + b).len() implies match #[trigger] (a + b)[i] {
        Payload::Solve(r) => r.wf() && crate::database::seq_find(db@, r.date) == Some(r),
        Payload::Unsolved(r) => r.wf() && crate::database::seq_find(db@, r.date) == Some(r),
        Payload::FetchError(o) => match o {
            Some(r) => r.wf() && crate::database::seq_find(db@, r.date) == Some(r),
            None => true,
        },
        Payload::Finished(_) => true,
    } by {
        if i < a.len() {
            assert((a + b)[i] == a[i]);
            assert(a[i] == Payload::FetchError(None));
        } else {
            assert((a + b)[i] == b[i - a.len()]);
        }
    }
    lemma_apply_all_stable(db@, a + b);
}

/// Records selected by the gap search are well formed.
proof fn lemma_chunks_wf(
    db: Database,
    start: Date,
    end: Date,
    k: int,
    chunks: Seq<Seq<PuzzleStats>>,
)
    requires
        chunked_correctly(db, start, end, k, chunks),
    ensures
        forall|c: int, i: int|
            0 <= c < chunks.len() && 0 <= i < chunks[c].len() ==> (#[trigger] chunks[c][i]).wf(),
{
    reveal(crate::chunked_prefix);
    assert forall|c: int, i: int|
        0 <= c < chunks.len() && 0 <= i < chunks[c].len() implies (#[trigger] chunks[c][i]).wf() by {
        assert(chunk_ok(db, start, end, k, chunks[c], end.day_index() + 1));
        crate::lemma_chunk_ok_entry(db, start, end, k, chunks[c], end.day_index() + 1, i);
    }
}

/// Run the whole fetch pipeline once, deterministically, against given
/// resolver answers: search the date range for records missing ids
/// (stream A), refresh cached incomplete records (stream B), and
/// consolidate every event into the store. The asynchronous shell
/// performs the same pass with real network answers; outcome order does
/// not matter to the store because each date's events are its own.
pub fn run_pipeline(
    stats_db: &mut Database,
    start: Date,
    end: Date,
    max_chunk_days: u64,
    dir: &Vec<(Date, u32)>,
    dir_fail: &Vec<Date>,
    stats: &Vec<(u32, StatsOutcome)>,
)
    requires
        old(stats_db).wf(),
        start.is_valid(),
        end.is_valid(),
        max_chunk_days >= 1,
    ensures
        final(stats_db).wf(),
        exists|chunks: Seq<Seq<PuzzleStats>>|
            chunked_correctly(*old(stats_db), start, end, max_chunk_days as int, chunks)
                && final(stats_db)@ == spec_apply_all(
                old(stats_db)@,
                spec_stream_a(chunks, dir@, dir_fail@, stats@) + spec_stream_b(
                    old(stats_db)@.filter(unsolved_pred(start)),
                    stats@,
                ),
            ),
{
    let chunks = get_days_without_ids_chunked(stats_db, start, end, max_chunk_days);
    let cached = get_cached_unsolved_records(stats_db, start);
    proof {
        lemma_chunks_wf(
            *stats_db,
            start,
            end,
            max_chunk_days as int,
            chunks_view(chunks@),
        );
        assert forall|c: int, i: int|
            0 <= c < chunks@.len() && 0 <= i < chunks@[c]@.len() implies (#[trigger] chunks@[c]@[i]).wf() by {
            assert(chunks_view(chunks@)[c] == chunks@[c]@);
            assert(chunks_view(chunks@)[c][i].wf());
        }
        lemma_filter_keeps_wf(stats_db@, unsolved_pred(start));
        assert forall|i: int|
            0 <= i < cached@.len() implies (#[trigger] cached@[i]).wf() && cached@[i].puzzle_id
            is Some by {
            stats_db@.lemma_filter_pred(unsolved_pred(start), i);
        }
    }
    let events_a = fetch_ids_and_stats(&chunks, dir, dir_fail, stats);
    let events_b = fetch_missing_times(&cached, stats);
    let ghost s0 = stats_db@;
    apply_events(stats_db, &events_a);
    apply_events(stats_db, &events_b);
    proof {
        lemma_apply_all_concat(s0, events_a@, events_b@);
        assert(chunked_correctly(
            *old(stats_db),
            start,
            end,
            max_chunk_days as int,
            chunks_view(chunks@),
        ));
    }
}

} // verus!
