//! Incremental harvesting of per-day puzzle solve statistics.
//!
//! The library is the verified core of the harvester: calendar dates and
//! their linear day axis ([`date`]), per-day records and the rules that
//! classify them ([`PuzzleStats`]), the provider response shapes and their
//! classification ([`api_client`]), the date-keyed record store
//! ([`database`]), the chunked gap search ([`get_days_without_ids_chunked`],
//! [`get_cached_unsolved_records`]), and the consolidation of fetch
//! outcomes into the store ([`logger`], [`search`]). The unverifiable rim —
//! HTTP, rate limiting, CSV files, the async runtime — lives outside and
//! talks to this core through plain values.

pub mod api_client;
pub mod database;
pub mod date;
pub mod logger;
pub mod search;

use api_client::SolvedPuzzleStats;
use database::Database;
use date::{Date, Weekday};
use vstd::prelude::*;

verus! {

/// Size of each block of dates handed to one directory (id) lookup; the
/// provider's bulk metadata endpoint answers at most this many days.
pub const DAY_STEP: u64 = 100;

/// One per-day puzzle record: the unit the store keeps and the fetch
/// pipeline completes.
#[derive(Debug, Clone, Copy, Hash)]
pub struct PuzzleStats {
    pub date: Date,
    /// Opaque id the provider uses for the puzzle of this date; absent
    /// until directory resolution succeeds.
    pub puzzle_id: Option<u32>,
    /// Day of the week, derived from `date` and stored as a convenience
    /// column.
    pub weekday: Weekday,
    /// Seconds spent solving; present only for a solve without aids.
    pub solve_time_secs: Option<u32>,
    /// Epoch timestamp of the first time the puzzle was opened.
    pub opened_unix: Option<u32>,
    /// Epoch timestamp of the solve.
    pub solved_unix: Option<u32>,
    /// Whether a check or reveal aid was used; `None` when unknown.
    pub cheated: Option<bool>,
}

impl PartialEq for PuzzleStats {
    fn eq(&self, other: &Self) -> (r: bool) {
        self.date == other.date && self.puzzle_id == other.puzzle_id && self.weekday
            == other.weekday && self.solve_time_secs == other.solve_time_secs && self.opened_unix
            == other.opened_unix && self.solved_unix == other.solved_unix && self.cheated
            == other.cheated
    }
}

impl vstd::std_specs::cmp::PartialEqSpecImpl for PuzzleStats {
    open spec fn obeys_eq_spec() -> bool {
        true
    }

    open spec fn eq_spec(&self, other: &Self) -> bool {
        *self == *other
    }
}

impl PuzzleStats {
    /// Well-formed records carry a valid date and the weekday derived
    /// from it.
    pub open spec fn wf(self) -> bool {
        &&& self.date.is_valid()
        &&& self.weekday == self.date.spec_weekday()
    }

    /// A record needs no further fetching iff its id is known and either
    /// its solve time is known or the solve is marked aided.
    pub open spec fn spec_complete(self) -> bool {
        self.puzzle_id is Some && (self.solve_time_secs is Some || self.cheated == Some(true))
    }

    /// A record never pairs an untrustworthy aided solve with a solve
    /// time.
    pub open spec fn time_consistent(self) -> bool {
        self.cheated == Some(true) ==> self.solve_time_secs is None
    }

    /// Build a record for `date` with a freshly resolved id and,
    /// optionally, already-known solve statistics. An aided solve marks
    /// the record cheated and its untrustworthy time is discarded, as
    /// when statistics are folded into an existing record.
    pub fn new(date: Date, id: u32, solve_stats: Option<SolvedPuzzleStats>) -> (r: PuzzleStats)
        requires
            date.is_valid(),
        ensures
            r.wf(),
            r.time_consistent(),
            r.date == date,
            r.puzzle_id == Some(id),
            r.cheated == (match solve_stats {
                Some(s) => Some(s.cheated),
                None => Some(false),
            }),
            r.solve_time_secs == (match solve_stats {
                Some(s) => if s.cheated {
                    None
                } else {
                    Some(s.solve_time)
                },
                None => None::<u32>,
            }),
            r.opened_unix == (match solve_stats {
                Some(s) => s.opened,
                None => None::<u32>,
            }),
            r.solved_unix == (match solve_stats {
                Some(s) => s.solved,
                None => None::<u32>,
            }),
    {
        let mut r = PuzzleStats::empty(date);
        r.puzzle_id = Some(id);
        if let Some(stats) = solve_stats {
            r.update_stats(stats);
        }
        r
    }

    /// The record of a date nothing is known about yet: no id, no
    /// statistics, not aided.
    pub open spec fn spec_empty(date: Date) -> PuzzleStats {
        PuzzleStats {
            date,
            puzzle_id: None,
            weekday: date.spec_weekday(),
            solve_time_secs: None,
            opened_unix: None,
            solved_unix: None,
            cheated: Some(false),
        }
    }

    /// Build the record of a date nothing is known about yet: no id, no
    /// statistics, not aided.
    pub fn empty(date: Date) -> (r: PuzzleStats)
        requires
            date.is_valid(),
        ensures
            r == PuzzleStats::spec_empty(date),
            r.wf(),
            r.time_consistent(),
            r.date == date,
            r.puzzle_id is None,
            r.solve_time_secs is None,
            r.cheated == Some(false),
            !r.spec_complete(),
    {
        let weekday = date.weekday();
        PuzzleStats {
            date,
            weekday,
            puzzle_id: None,
            solve_time_secs: None,
            opened_unix: None,
            solved_unix: None,
            cheated: Some(false),
        }
    }

    /// Rebuild a record from its stored fields; the weekday column is
    /// derived from the date. This is the path a loaded durable row takes
    /// back into the library.
    pub fn from_parts(
        date: Date,
        puzzle_id: Option<u32>,
        solve_time_secs: Option<u32>,
        opened_unix: Option<u32>,
        solved_unix: Option<u32>,
        cheated: Option<bool>,
    ) -> (r: PuzzleStats)
        requires
            date.is_valid(),
        ensures
            r.wf(),
            r.date == date,
            r.puzzle_id == puzzle_id,
            r.solve_time_secs == solve_time_secs,
            r.opened_unix == opened_unix,
            r.solved_unix == solved_unix,
            r.cheated == cheated,
    {
        let weekday = date.weekday();
        PuzzleStats { date, puzzle_id, weekday, solve_time_secs, opened_unix, solved_unix, cheated }
    }

    /// Returns true if there is no more information to fetch for this
    /// record: its id is known and it was completed, with or without
    /// aids.
    pub fn is_complete(&self) -> (r: bool)
        ensures
            r == self.spec_complete(),
    {
        self.puzzle_id.is_some() && (self.solve_time_secs.is_some() || self.cheated.unwrap_or(
            false,
        ))
    }

    /// This record with the given id filled in.
    pub open spec fn spec_with_id(self, id: u32) -> PuzzleStats {
        PuzzleStats { puzzle_id: Some(id), ..self }
    }

    /// What [`update_stats`](Self::update_stats) leaves in the record.
    pub open spec fn spec_update_stats(self, stats: SolvedPuzzleStats) -> PuzzleStats {
        PuzzleStats {
            cheated: Some(stats.cheated),
            solve_time_secs: if stats.cheated {
                None
            } else {
                Some(stats.solve_time)
            },
            opened_unix: stats.opened,
            solved_unix: stats.solved,
            ..self
        }
    }

    /// Fold fetched solve statistics into this record: an aided solve
    /// marks the record cheated and clears the untrustworthy time, an
    /// unaided one records its time; the first-open and solve timestamps
    /// are taken as fetched.
    pub fn update_stats(&mut self, stats: SolvedPuzzleStats)
        ensures
            *final(self) == old(self).spec_update_stats(stats),
            final(self).date == old(self).date,
            final(self).weekday == old(self).weekday,
            final(self).puzzle_id == old(self).puzzle_id,
            final(self).opened_unix == stats.opened,
            final(self).solved_unix == stats.solved,
            stats.cheated ==> final(self).cheated == Some(true) && final(self).solve_time_secs
                is None,
            !stats.cheated ==> final(self).cheated == Some(false) && final(self).solve_time_secs
                == Some(stats.solve_time),
            final(self).time_consistent(),
            old(self).wf() ==> final(self).wf(),
    {
        if stats.cheated {
            self.cheated = Some(true);
            self.solve_time_secs = None;
        } else {
            self.cheated = Some(false);
            self.solve_time_secs = Some(stats.solve_time);
        }
        self.opened_unix = stats.opened;
        self.solved_unix = stats.solved;
    }
}

/// A record whose id is unknown is never complete, whatever its other
/// fields say.
pub proof fn lemma_no_id_never_complete(r: PuzzleStats)
    requires
        r.puzzle_id is None,
    ensures
        !r.spec_complete(),
{
}

/// A record with `cheated` set true never carries a solve time: the
/// empty record starts consistent, and folding in fetched statistics
/// always reestablishes consistency, whatever the record held before.
pub proof fn lemma_cheated_clears_time(r: PuzzleStats, s: SolvedPuzzleStats, d: Date)
    ensures
        r.spec_update_stats(s).time_consistent(),
        PuzzleStats::spec_empty(d).time_consistent(),
{
}

/// A response classified as an aided solve — solved, with a check or
/// reveal recorded — marks any record it is folded into as cheated and
/// leaves it without a solve time, even though the response carried one.
pub proof fn lemma_aided_solve_drops_time(resp: api_client::PuzzleStatsResponse, r: PuzzleStats)
    requires
        resp.spec_collect_stats() is Some,
        resp.spec_aided(),
    ensures
        r.spec_update_stats(resp.spec_collect_stats()->0).cheated == Some(true),
        r.spec_update_stats(resp.spec_collect_stats()->0).solve_time_secs is None,
{
}

/// A date needs an id if the store has no record for it, or a record
/// without an id.
pub open spec fn spec_needs_id(db: Database, d: Date) -> bool {
    match db.spec_get(d) {
        Some(r) => r.puzzle_id is None,
        None => true,
    }
}

/// The record the gap search emits for a date that needs an id: the
/// stored record when there is one, else a fresh empty record.
pub open spec fn spec_gap_record(db: Database, d: Date) -> PuzzleStats {
    match db.spec_get(d) {
        Some(r) => r,
        None => PuzzleStats::spec_empty(d),
    }
}

/// Last day index of a chunk whose first date has index `first`: `k`
/// calendar days from `first`, clipped at `end`.
pub open spec fn spec_span_end(first: int, k: int, end: Date) -> int {
    if first + k - 1 <= end.day_index() {
        first + k - 1
    } else {
        end.day_index()
    }
}

/// One entry of the gap search's output: a well-formed gap record of a
/// date that needs an id, within `[start, end]` and below `pos`.
pub open spec fn chunk_entry_ok(db: Database, start: Date, end: Date, r: PuzzleStats, pos: int) -> bool {
    &&& r.wf()
    &&& start.day_index() <= r.date.day_index() < pos
    &&& r.date.day_index() <= end.day_index()
    &&& spec_needs_id(db, r.date)
    &&& r == spec_gap_record(db, r.date)
}

/// One chunk of the gap search's output: a nonempty, date-sorted run of
/// gap records that stays within `k` calendar days of its first date and
/// holds every id-needing date of that span.
#[verifier::opaque]
pub open spec fn chunk_ok(
    db: Database,
    start: Date,
    end: Date,
    k: int,
    chunk: Seq<PuzzleStats>,
    pos: int,
) -> bool {
    &&& chunk.len() > 0
    &&& forall|i: int| 0 <= i < chunk.len() ==> chunk_entry_ok(db, start, end, #[trigger] chunk[i], pos)
    &&& forall|i: int, j: int|
        0 <= i < j < chunk.len() ==> #[trigger] chunk[i].date.day_index()
            < #[trigger] chunk[j].date.day_index()
    &&& forall|i: int|
        0 <= i < chunk.len() ==> (#[trigger] chunk[i]).date.day_index() <= spec_span_end(
            chunk[0].date.day_index(),
            k,
            end,
        )
    &&& spec_span_end(chunk[0].date.day_index(), k, end) < pos
    &&& forall|d: Date|
        d.is_valid() && spec_needs_id(db, d) && chunk[0].date.day_index() <= #[trigger] d.day_index()
            <= spec_span_end(chunk[0].date.day_index(), k, end) ==> chunk_has_date(chunk, d)
}

/// Whether the chunk holds a record for date `d`.
#[verifier::opaque]
pub open spec fn chunk_has_date(chunk: Seq<PuzzleStats>, d: Date) -> bool {
    exists|i: int| 0 <= i < chunk.len() && (#[trigger] chunk[i]).date == d
}

/// Whether some chunk holds a record for date `d`.
#[verifier::opaque]
pub open spec fn chunk_covers(chunks: Seq<Seq<PuzzleStats>>, d: Date) -> bool {
    exists|c: int, i: int|
        0 <= c < chunks.len() && 0 <= i < chunks[c].len() && (#[trigger] chunks[c][i]).date == d
}

/// The gap search's contract up to day-axis position `pos`: every chunk
/// is sound, each chunk starts past the span of the one before it, and
/// every id-needing date of `[start, pos)` is covered by some chunk.
#[verifier::opaque]
pub open spec fn chunked_prefix(
    db: Database,
    start: Date,
    end: Date,
    k: int,
    chunks: Seq<Seq<PuzzleStats>>,
    pos: int,
) -> bool {
    &&& forall|c: int|
        0 <= c < chunks.len() ==> chunk_ok(db, start, end, k, #[trigger] chunks[c], pos)
    &&& forall|c: int|
        0 <= c < chunks.len() - 1 ==> spec_span_end(
            (#[trigger] chunks[c])[0].date.day_index(),
            k,
            end,
        ) < chunks[c + 1][0].date.day_index()
    &&& forall|d: Date|
        d.is_valid() && start.day_index() <= #[trigger] d.day_index() < pos && spec_needs_id(db, d)
            ==> chunk_covers(chunks, d)
}

/// The gap search's full contract: the clauses of [`chunked_prefix`]
/// over the whole range. Together they pin the output down — the first
/// chunk starts at the earliest id-needing date, each chunk spans at
/// most `k` calendar days and holds exactly the id-needing dates of its
/// span in order, and each next chunk starts at the earliest id-needing
/// date past the span before it.
pub open spec fn chunked_correctly(
    db: Database,
    start: Date,
    end: Date,
    k: int,
    chunks: Seq<Seq<PuzzleStats>>,
) -> bool {
    chunked_prefix(db, start, end, k, chunks, end.day_index() + 1)
}

/// The chunk sequences a vector of record vectors stands for.
pub open spec fn chunks_view(chunks: Seq<Vec<PuzzleStats>>) -> Seq<Seq<PuzzleStats>> {
    chunks.map_values(|v: Vec<PuzzleStats>| v@)
}

/// Before the first id-needing date, no chunks at all are a correct
/// prefix.
proof fn lemma_prefix_empty(db: Database, start: Date, end: Date, k: int, pos: int)
    requires
        pos <= start.day_index(),
    ensures
        chunked_prefix(db, start, end, k, Seq::<Seq<PuzzleStats>>::empty(), pos),
{
    reveal(chunked_prefix);
}

/// A chunk that is sound up to `pos1` is sound up to any later `pos2`.
proof fn lemma_chunk_ok_mono(
    db: Database,
    start: Date,
    end: Date,
    k: int,
    chunk: Seq<PuzzleStats>,
    pos1: int,
    pos2: int,
)
    requires
        chunk_ok(db, start, end, k, chunk, pos1),
        pos1 <= pos2,
    ensures
        chunk_ok(db, start, end, k, chunk, pos2),
{
    reveal(chunk_ok);
    assert forall|i: int| 0 <= i < chunk.len() implies chunk_entry_ok(
        db,
        start,
        end,
        #[trigger] chunk[i],
        pos2,
    ) by {
        assert(chunk_entry_ok(db, start, end, chunk[i], pos1));
    }
}

/// Moving the processed-up-to position past a date that needs no id
/// keeps a prefix correct.
#[verifier::rlimit(100)]
proof fn lemma_prefix_advance(
    db: Database,
    start: Date,
    end: Date,
    k: int,
    chunks: Seq<Seq<PuzzleStats>>,
    d: Date,
)
    requires
        chunked_prefix(db, start, end, k, chunks, d.day_index()),
        d.is_valid(),
        !spec_needs_id(db, d),
    ensures
        chunked_prefix(db, start, end, k, chunks, d.day_index() + 1),
{
    reveal(chunked_prefix);
    let pos = d.day_index();
    assert forall|c: int| 0 <= c < chunks.len() implies chunk_ok(
        db,
        start,
        end,
        k,
        #[trigger] chunks[c],
        pos + 1,
    ) by {
        lemma_chunk_ok_mono(db, start, end, k, chunks[c], pos, pos + 1);
    }
    assert forall|d2: Date|
        d2.is_valid() && start.day_index() <= #[trigger] d2.day_index() < pos + 1 && spec_needs_id(
            db,
            d2,
        ) implies chunk_covers(chunks, d2) by {
        if d2.day_index() == pos {
            date::lemma_day_index_injective(d2, d);
        }
    }
}

/// The finished block itself is a sound chunk.
proof fn lemma_push_block_ok(
    db: Database,
    start: Date,
    end: Date,
    k: int,
    block: Seq<PuzzleStats>,
    pos: int,
)
    requires
        block.len() > 0,
        pos == spec_span_end(block[0].date.day_index(), k, end) + 1,
        forall|i: int| 0 <= i < block.len() ==> chunk_entry_ok(db, start, end, #[trigger] block[i], pos),
        forall|i: int, j: int|
            0 <= i < j < block.len() ==> #[trigger] block[i].date.day_index()
                < #[trigger] block[j].date.day_index(),
        forall|d: Date|
            d.is_valid() && spec_needs_id(db, d) && block[0].date.day_index()
                <= #[trigger] d.day_index() < pos ==> chunk_has_date(block, d),
    ensures
        chunk_ok(db, start, end, k, block, pos),
{
    reveal(chunk_ok);
    assert(chunk_entry_ok(db, start, end, block[0], pos));
    assert forall|i: int|
        0 <= i < block.len() implies (#[trigger] block[i]).date.day_index() <= spec_span_end(
        block[0].date.day_index(),
        k,
        end,
    ) by {
        assert(chunk_entry_ok(db, start, end, block[i], pos));
    }
}

/// All previously finished chunks stay sound at the new position.
proof fn lemma_push_old_ok(
    db: Database,
    start: Date,
    end: Date,
    k: int,
    chunks: Seq<Seq<PuzzleStats>>,
    block: Seq<PuzzleStats>,
    s_idx: int,
    pos: int,
)
    requires
        chunked_prefix(db, start, end, k, chunks, s_idx),
        chunk_ok(db, start, end, k, block, pos),
        s_idx <= pos,
    ensures
        forall|c: int|
            0 <= c < chunks.push(block).len() ==> chunk_ok(
                db,
                start,
                end,
                k,
                #[trigger] chunks.push(block)[c],
                pos,
            ),
{
    reveal(chunked_prefix);
    let cs = chunks.push(block);
    assert forall|c: int| 0 <= c < cs.len() implies chunk_ok(db, start, end, k, #[trigger] cs[c], pos) by {
        if c < chunks.len() {
            assert(cs[c] == chunks[c]);
            lemma_chunk_ok_mono(db, start, end, k, chunks[c], s_idx, pos);
        } else {
            assert(cs[c] == block);
        }
    }
}

/// Each chunk still starts past the span of the one before it after the
/// block is appended.
proof fn lemma_push_separation(
    db: Database,
    start: Date,
    end: Date,
    k: int,
    chunks: Seq<Seq<PuzzleStats>>,
    block: Seq<PuzzleStats>,
    s_idx: int,
)
    requires
        chunked_prefix(db, start, end, k, chunks, s_idx),
        block.len() > 0,
        block[0].date.day_index() == s_idx,
    ensures
        forall|c: int|
            0 <= c < chunks.push(block).len() - 1 ==> spec_span_end(
                (#[trigger] chunks.push(block)[c])[0].date.day_index(),
                k,
                end,
            ) < chunks.push(block)[c + 1][0].date.day_index(),
{
    reveal(chunked_prefix);
    reveal(chunk_ok);
    let cs = chunks.push(block);
    assert forall|c: int|
        0 <= c < cs.len() - 1 implies spec_span_end((#[trigger] cs[c])[0].date.day_index(), k, end)
        < cs[c + 1][0].date.day_index() by {
        assert(cs[c] == chunks[c]);
        if c < chunks.len() - 1 {
            assert(cs[c + 1] == chunks[c + 1]);
        } else {
            assert(cs[c + 1] == block);
            assert(chunk_ok(db, start, end, k, chunks[c], s_idx));
        }
    }
}

/// Every id-needing date up to the end of the block's span is covered
/// once the block is appended.
proof fn lemma_push_coverage(
    db: Database,
    start: Date,
    end: Date,
    k: int,
    chunks: Seq<Seq<PuzzleStats>>,
    block: Seq<PuzzleStats>,
    s_idx: int,
    pos: int,
)
    requires
        forall|d: Date|
            d.is_valid() && start.day_index() <= #[trigger] d.day_index() < s_idx && spec_needs_id(
                db,
                d,
            ) ==> chunk_covers(chunks, d),
        block.len() > 0,
        block[0].date.day_index() == s_idx,
        forall|d: Date|
            d.is_valid() && spec_needs_id(db, d) && s_idx <= #[trigger] d.day_index() < pos
                ==> chunk_has_date(block, d),
    ensures
        forall|d: Date|
            d.is_valid() && start.day_index() <= #[trigger] d.day_index() < pos && spec_needs_id(
                db,
                d,
            ) ==> chunk_covers(chunks.push(block), d),
{
    let cs = chunks.push(block);
    assert forall|d: Date|
        d.is_valid() && start.day_index() <= #[trigger] d.day_index() < pos && spec_needs_id(db, d)
            implies chunk_covers(cs, d) by {
        reveal(chunk_covers);
        reveal(chunk_has_date);
        if d.day_index() < s_idx {
            assert(chunk_covers(chunks, d));
            let (c, i) = choose|c: int, i: int|
                0 <= c < chunks.len() && 0 <= i < chunks[c].len() && (#[trigger] chunks[c][i]).date
                    == d;
            assert(cs[c] == chunks[c]);
            assert(cs[c][i].date == d);
        } else {
            assert(chunk_has_date(block, d));
            let i = choose|i: int| 0 <= i < block.len() && (#[trigger] block[i]).date == d;
            assert(cs[chunks.len() as int][i].date == d);
        }
    }
}

/// What a correct prefix says, clause by clause.
proof fn lemma_prefix_elim(
    db: Database,
    start: Date,
    end: Date,
    k: int,
    chunks: Seq<Seq<PuzzleStats>>,
    pos: int,
)
    requires
        chunked_prefix(db, start, end, k, chunks, pos),
    ensures
        forall|c: int| 0 <= c < chunks.len() ==> chunk_ok(db, start, end, k, #[trigger] chunks[c], pos),
        forall|c: int|
            0 <= c < chunks.len() - 1 ==> spec_span_end(
                (#[trigger] chunks[c])[0].date.day_index(),
                k,
                end,
            ) < chunks[c + 1][0].date.day_index(),
        forall|d: Date|
            d.is_valid() && start.day_index() <= #[trigger] d.day_index() < pos && spec_needs_id(
                db,
                d,
            ) ==> chunk_covers(chunks, d),
{
    reveal(chunked_prefix);
}

/// A correct prefix, assembled clause by clause.
proof fn lemma_prefix_intro(
    db: Database,
    start: Date,
    end: Date,
    k: int,
    chunks: Seq<Seq<PuzzleStats>>,
    pos: int,
)
    requires
        forall|c: int| 0 <= c < chunks.len() ==> chunk_ok(db, start, end, k, #[trigger] chunks[c], pos),
        forall|c: int|
            0 <= c < chunks.len() - 1 ==> spec_span_end(
                (#[trigger] chunks[c])[0].date.day_index(),
                k,
                end,
            ) < chunks[c + 1][0].date.day_index(),
        forall|d: Date|
            d.is_valid() && start.day_index() <= #[trigger] d.day_index() < pos && spec_needs_id(
                db,
                d,
            ) ==> chunk_covers(chunks, d),
    ensures
        chunked_prefix(db, start, end, k, chunks, pos),
{
    reveal(chunked_prefix);
}

/// Appending a finished chunk extends a correct prefix to the end of the
/// chunk's span.
#[verifier::rlimit(100)]
proof fn lemma_prefix_push(
    db: Database,
    start: Date,
    end: Date,
    k: int,
    chunks: Seq<Seq<PuzzleStats>>,
    block: Seq<PuzzleStats>,
    pos: int,
)
    requires
        block.len() > 0,
        chunked_prefix(db, start, end, k, chunks, block[0].date.day_index()),
        pos == spec_span_end(block[0].date.day_index(), k, end) + 1,
        forall|i: int| 0 <= i < block.len() ==> chunk_entry_ok(db, start, end, #[trigger] block[i], pos),
        forall|i: int, j: int|
            0 <= i < j < block.len() ==> #[trigger] block[i].date.day_index()
                < #[trigger] block[j].date.day_index(),
        forall|d: Date|
            d.is_valid() && spec_needs_id(db, d) && block[0].date.day_index()
                <= #[trigger] d.day_index() < pos ==> chunk_has_date(block, d),
    ensures
        chunked_prefix(db, start, end, k, chunks.push(block), pos),
{
    let s_idx = block[0].date.day_index();
    lemma_prefix_elim(db, start, end, k, chunks, s_idx);
    lemma_push_block_ok(db, start, end, k, block, pos);
    lemma_push_old_ok(db, start, end, k, chunks, block, s_idx, pos);
    lemma_push_separation(db, start, end, k, chunks, block, s_idx);
    lemma_push_coverage(db, start, end, k, chunks, block, s_idx, pos);
    lemma_prefix_intro(db, start, end, k, chunks.push(block), pos);
}

/// The test [`get_cached_unsolved_records`] selects by: a cached id, not
/// yet complete, and not before the given start date.
pub open spec fn unsolved_pred(start: Date) -> spec_fn(PuzzleStats) -> bool {
    |r: PuzzleStats|
        !r.spec_complete() && r.puzzle_id is Some && r.date.day_index() >= start.day_index()
}

/// Get records from the store that have a cached puzzle id but aren't
/// known to be solved, from the given start date on.
pub fn get_cached_unsolved_records(database: &Database, start: Date) -> (r: Vec<PuzzleStats>)
    requires
        database.wf(),
        start.is_valid(),
    ensures
        r@ == database@.filter(unsolved_pred(start)),
{
    let rows = database.records();
    let mut out: Vec<PuzzleStats> = Vec::new();
    let mut i: usize = 0;
    proof {
        reveal(Seq::filter);
        assert(database@.take(0) =~= Seq::<PuzzleStats>::empty());
    }
    while i < rows.len()
        invariant
            database.wf(),
            start.is_valid(),
            rows@ == database@,
            0 <= i <= rows@.len(),
            out@ == database@.take(i as int).filter(unsolved_pred(start)),
        decreases rows@.len() - i,
    {
        let rec = rows[i];
        proof {
            assert(rec.wf());
        }
        if !rec.is_complete() && rec.puzzle_id.is_some() && !rec.date.before(&start) {
            out.push(rec);
        }
        proof {
            reveal(Seq::filter);
            assert(database@.take(i + 1).drop_last() =~= database@.take(i as int));
            assert(database@.take(i + 1).last() == rec);
        }
        i = i + 1;
    }
    proof {
        assert(database@.take(rows@.len() as int) =~= database@);
    }
    out
}

/// Whether `d` needs an id in the store.
fn needs_id(database: &Database, d: Date) -> (r: bool)
    ensures
        r == spec_needs_id(*database, d),
{
    match database.get(d) {
        Some(rec) => rec.puzzle_id.is_none(),
        None => true,
    }
}

/// The gap record the search emits for `d`.
fn gap_record(database: &Database, d: Date) -> (r: PuzzleStats)
    requires
        database.wf(),
        d.is_valid(),
    ensures
        r == spec_gap_record(*database, d),
        r.wf(),
        r.date == d,
{
    match database.get(d) {
        Some(rec) => {
            proof {
                database::lemma_find_props(database@, d);
            }
            rec
        },
        None => PuzzleStats::empty(d),
    }
}

/// Get records within the given range, inclusive, that are missing ids,
/// including for days that are not present in the store at all. The
/// results are split into date-sorted chunks spanning no more than
/// `max_chunk_days` calendar days each, the unit of one bulk directory
/// lookup. A chunk's span covers calendar days, not only missing ones:
/// stored dates with ids inside the span are excluded from the output
/// but still consume the span's days.
pub fn get_days_without_ids_chunked(
    database: &Database,
    start: Date,
    end: Date,
    max_chunk_days: u64,
) -> (chunks: Vec<Vec<PuzzleStats>>)
    requires
        database.wf(),
        start.is_valid(),
        end.is_valid(),
        max_chunk_days >= 1,
    ensures
        chunked_correctly(*database, start, end, max_chunk_days as int, chunks_view(chunks@)),
{
    let ghost ki = max_chunk_days as int;
    let mut chunks: Vec<Vec<PuzzleStats>> = Vec::new();
    let mut cur = start;
    let mut fin = !start.on_or_before(&end);
    proof {
        assert(chunks_view(chunks@) =~= Seq::<Seq<PuzzleStats>>::empty());
        if fin {
            lemma_prefix_empty(*database, start, end, ki, end.day_index() + 1);
        } else {
            lemma_prefix_empty(*database, start, end, ki, start.day_index());
        }
    }
    while !fin
        invariant
            database.wf(),
            start.is_valid(),
            end.is_valid(),
            ki == max_chunk_days as int,
            1 <= ki,
            !fin ==> cur.is_valid() && start.day_index() <= cur.day_index() <= end.day_index(),
            !fin ==> chunked_prefix(
                *database,
                start,
                end,
                ki,
                chunks_view(chunks@),
                cur.day_index(),
            ),
            fin ==> chunked_prefix(
                *database,
                start,
                end,
                ki,
                chunks_view(chunks@),
                end.day_index() + 1,
            ),
        decreases (if fin {
            0int
        } else {
            end.day_index() - cur.day_index() + 1
        }),
    {
        if !needs_id(database, cur) {
            // This date already has its id: move past it.
            proof {
                lemma_prefix_advance(*database, start, end, ki, chunks_view(chunks@), cur);
            }
            if cur.before(&end) {
                proof {
                    date::lemma_below_max(end);
                }
                cur = cur.next_day();
            } else {
                fin = true;
            }
        } else {
            // Open a chunk at the first id-needing date and walk its
            // whole calendar span, collecting the dates that need ids.
            let s = cur;
            let s_num = s.day_number();
            let mut block: Vec<PuzzleStats> = Vec::new();
            block.push(gap_record(database, s));
            if cur.before(&end) {
                proof {
                    date::lemma_below_max(end);
                }
                cur = cur.next_day();
            } else {
                fin = true;
            }
            proof {
                assert forall|d: Date|
                    d.is_valid() && spec_needs_id(*database, d) && s.day_index()
                        <= #[trigger] d.day_index() < s.day_index() + 1 implies chunk_has_date(
                    block@,
                    d,
                ) by {
                    reveal(chunk_has_date);
                    date::lemma_day_index_injective(d, s);
                    assert(block@[0].date == d);
                }
            }
            while !fin && ((cur.day_number() - s_num) as u64) < max_chunk_days
                invariant
                    database.wf(),
                    start.is_valid(),
                    end.is_valid(),
                    ki == max_chunk_days as int,
                    1 <= ki,
                    s.is_valid(),
                    s_num == s.day_index(),
                    start.day_index() <= s.day_index() <= end.day_index(),
                    spec_needs_id(*database, s),
                    !fin ==> cur.is_valid() && s.day_index() < cur.day_index() <= end.day_index(),
                    !fin ==> cur.day_index() <= spec_span_end(s.day_index(), ki, end) + 1,
                    fin ==> end.day_index() + 1 <= spec_span_end(s.day_index(), ki, end) + 1,
                    chunked_prefix(*database, start, end, ki, chunks_view(chunks@), s.day_index()),
                    block@.len() > 0,
                    block@[0].date == s,
                    forall|i: int|
                        0 <= i < block@.len() ==> chunk_entry_ok(
                            *database,
                            start,
                            end,
                            #[trigger] block@[i],
                            if fin {
                                end.day_index() + 1
                            } else {
                                cur.day_index()
                            },
                        ),
                    forall|i: int, j: int|
                        0 <= i < j < block@.len() ==> #[trigger] block@[i].date.day_index()
                            < #[trigger] block@[j].date.day_index(),
                    forall|d: Date|
                        d.is_valid() && spec_needs_id(*database, d) && s.day_index()
                            <= #[trigger] d.day_index() < (if fin {
                            end.day_index() + 1
                        } else {
                            cur.day_index()
                        }) ==> chunk_has_date(block@, d),
                decreases (if fin {
                    0int
                } else {
                    end.day_index() - cur.day_index() + 1
                }),
            {
                let ghost old_block = block@;
                if needs_id(database, cur) {
                    block.push(gap_record(database, cur));
                }
                proof {
                    assert forall|d: Date|
                        d.is_valid() && spec_needs_id(*database, d) && s.day_index()
                            <= #[trigger] d.day_index() < cur.day_index() + 1 implies chunk_has_date(
                        block@,
                        d,
                    ) by {
                        reveal(chunk_has_date);
                        if d.day_index() == cur.day_index() {
                            date::lemma_day_index_injective(d, cur);
                            assert(block@[block@.len() - 1].date == d);
                        } else {
                            assert(chunk_has_date(old_block, d));
                            let i = choose|i: int|
                                0 <= i < old_block.len() && (#[trigger] old_block[i]).date == d;
                            assert(block@[i].date == d);
                        }
                    }
                }
                if cur.before(&end) {
                    proof {
                        date::lemma_below_max(end);
                    }
                    cur = cur.next_day();
                } else {
                    fin = true;
                }
            }
            proof {
                let pos = if fin {
                    end.day_index() + 1
                } else {
                    cur.day_index()
                };
                assert(pos == spec_span_end(s.day_index(), ki, end) + 1);
                lemma_prefix_push(
                    *database,
                    start,
                    end,
                    ki,
                    chunks_view(chunks@),
                    block@,
                    pos,
                );
                assert(chunks_view(chunks@.push(block)) =~= chunks_view(chunks@).push(block@));
            }
            chunks.push(block);
        }
    }
    chunks
}

/// Every date of `[start, end]` needs an id: the hypothesis under which
/// the gap search chunks a bare date range.
pub open spec fn all_dates_need_ids(db: Database, start: Date, end: Date) -> bool {
    forall|d: Date|
        d.is_valid() && start.day_index() <= #[trigger] d.day_index() <= end.day_index()
            ==> spec_needs_id(db, d)
}

/// One chunk of a correct prefix is sound.
pub proof fn lemma_prefix_chunk_ok(
    db: Database,
    start: Date,
    end: Date,
    k: int,
    chunks: Seq<Seq<PuzzleStats>>,
    pos: int,
    c: int,
)
    requires
        chunked_prefix(db, start, end, k, chunks, pos),
        0 <= c < chunks.len(),
    ensures
        chunk_ok(db, start, end, k, chunks[c], pos),
{
    reveal(chunked_prefix);
}

/// In a correct prefix, each chunk starts past the span of the one
/// before it.
proof fn lemma_prefix_separation(
    db: Database,
    start: Date,
    end: Date,
    k: int,
    chunks: Seq<Seq<PuzzleStats>>,
    pos: int,
    c: int,
)
    requires
        chunked_prefix(db, start, end, k, chunks, pos),
        0 <= c < chunks.len() - 1,
    ensures
        spec_span_end(chunks[c][0].date.day_index(), k, end) < chunks[c + 1][0].date.day_index(),
{
    reveal(chunked_prefix);
}

/// In a correct prefix, every id-needing date below `pos` is covered.
pub proof fn lemma_prefix_covers(
    db: Database,
    start: Date,
    end: Date,
    k: int,
    chunks: Seq<Seq<PuzzleStats>>,
    pos: int,
    d: Date,
)
    requires
        chunked_prefix(db, start, end, k, chunks, pos),
        d.is_valid(),
        start.day_index() <= d.day_index() < pos,
        spec_needs_id(db, d),
    ensures
        chunk_covers(chunks, d),
{
    reveal(chunked_prefix);
}

/// What a sound chunk says of one of its entries.
pub proof fn lemma_chunk_ok_entry(
    db: Database,
    start: Date,
    end: Date,
    k: int,
    chunk: Seq<PuzzleStats>,
    pos: int,
    i: int,
)
    requires
        chunk_ok(db, start, end, k, chunk, pos),
        0 <= i < chunk.len(),
    ensures
        chunk_entry_ok(db, start, end, chunk[i], pos),
        chunk[i].date.day_index() <= spec_span_end(chunk[0].date.day_index(), k, end),
        chunk.len() > 0,
        spec_span_end(chunk[0].date.day_index(), k, end) < pos,
{
    reveal(chunk_ok);
}

/// A sound chunk is nonempty and its span lies below `pos`.
proof fn lemma_chunk_ok_len(
    db: Database,
    start: Date,
    end: Date,
    k: int,
    chunk: Seq<PuzzleStats>,
    pos: int,
)
    requires
        chunk_ok(db, start, end, k, chunk, pos),
    ensures
        chunk.len() > 0,
        spec_span_end(chunk[0].date.day_index(), k, end) < pos,
{
    reveal(chunk_ok);
}

/// A sound chunk's entries are strictly sorted by date.
proof fn lemma_chunk_ok_sorted(
    db: Database,
    start: Date,
    end: Date,
    k: int,
    chunk: Seq<PuzzleStats>,
    pos: int,
    i: int,
    j: int,
)
    requires
        chunk_ok(db, start, end, k, chunk, pos),
        0 <= i < j < chunk.len(),
    ensures
        chunk[i].date.day_index() < chunk[j].date.day_index(),
{
    reveal(chunk_ok);
}

/// A sound chunk holds every id-needing date of its span.
proof fn lemma_chunk_ok_complete(
    db: Database,
    start: Date,
    end: Date,
    k: int,
    chunk: Seq<PuzzleStats>,
    pos: int,
    d: Date,
)
    requires
        chunk_ok(db, start, end, k, chunk, pos),
        d.is_valid(),
        spec_needs_id(db, d),
        chunk[0].date.day_index() <= d.day_index() <= spec_span_end(
            chunk[0].date.day_index(),
            k,
            end,
        ),
    ensures
        chunk_has_date(chunk, d),
{
    reveal(chunk_ok);
}

/// Chunks sit strictly one behind another's span, in order.
#[verifier::rlimit(100)]
pub proof fn lemma_span_chain(
    db: Database,
    start: Date,
    end: Date,
    k: int,
    chunks: Seq<Seq<PuzzleStats>>,
    c1: int,
    c2: int,
)
    requires
        chunked_correctly(db, start, end, k, chunks),
        k >= 1,
        0 <= c1 <= c2 < chunks.len(),
    ensures
        chunks[c1][0].date.day_index() <= chunks[c2][0].date.day_index(),
        c1 < c2 ==> spec_span_end(chunks[c1][0].date.day_index(), k, end)
            < chunks[c2][0].date.day_index(),
    decreases c2 - c1,
{
    let pos = end.day_index() + 1;
    lemma_prefix_chunk_ok(db, start, end, k, chunks, pos, c1);
    lemma_chunk_ok_len(db, start, end, k, chunks[c1], pos);
    lemma_chunk_ok_entry(db, start, end, k, chunks[c1], pos, 0);
    if c1 < c2 {
        lemma_prefix_separation(db, start, end, k, chunks, pos, c1);
        lemma_prefix_chunk_ok(db, start, end, k, chunks, pos, c1 + 1);
        lemma_chunk_ok_len(db, start, end, k, chunks[c1 + 1], pos);
        lemma_chunk_ok_entry(db, start, end, k, chunks[c1 + 1], pos, 0);
        lemma_span_chain(db, start, end, k, chunks, c1 + 1, c2);
    }
}

/// Under the all-dates-missing hypothesis, one chunk holds exactly the
/// consecutive dates of its span.
proof fn lemma_chunk_consecutive(
    db: Database,
    start: Date,
    end: Date,
    k: int,
    chunk: Seq<PuzzleStats>,
)
    requires
        chunk_ok(db, start, end, k, chunk, end.day_index() + 1),
        all_dates_need_ids(db, start, end),
        end.is_valid(),
        k >= 1,
    ensures
        forall|i: int|
            0 <= i < chunk.len() ==> (#[trigger] chunk[i]).date.day_index()
                == chunk[0].date.day_index() + i,
        chunk[0].date.day_index() + chunk.len() - 1 == spec_span_end(
            chunk[0].date.day_index(),
            k,
            end,
        ),
{
    let pos = end.day_index() + 1;
    lemma_chunk_ok_len(db, start, end, k, chunk, pos);
    let first = chunk[0].date.day_index();
    let span_end = spec_span_end(first, k, end);
    assert forall|i: int|
        0 <= i < chunk.len() && chunk[i].date.day_index() != first + i implies false by {
        lemma_chunk_no_gap(db, start, end, k, chunk, i);
    }
    // The last entry reaches the end of the span: otherwise its calendar
    // successor is a missing date of the span that the chunk must hold,
    // past its last entry.
    let last = chunk.len() - 1;
    lemma_chunk_ok_entry(db, start, end, k, chunk, pos, last);
    lemma_chunk_ok_entry(db, start, end, k, chunk, pos, 0);
    assert(chunk[last].date.day_index() == first + last);
    if first + last < span_end {
        let d2 = chunk[last].date.spec_next();
        date::lemma_below_max(end);
        if chunk[last].date == Date::spec_max() {
            assert(false);
        }
        date::lemma_next_day_index(chunk[last].date);
        assert(spec_needs_id(db, d2));
        lemma_chunk_ok_complete(db, start, end, k, chunk, pos, d2);
        assert(exists|i: int| 0 <= i < chunk.len() && (#[trigger] chunk[i]).date == d2) by {
            reveal(chunk_has_date);
        }
        let i = choose|i: int| 0 <= i < chunk.len() && (#[trigger] chunk[i]).date == d2;
        assert(chunk[i].date.day_index() == first + last + 1);
        assert(chunk[i].date.day_index() == first + i);
        assert(false);
    }
}

/// In an all-dates-missing chunk no entry can skip an index: the skipped
/// date would itself belong to the chunk, between two adjacent entries.
proof fn lemma_chunk_no_gap(
    db: Database,
    start: Date,
    end: Date,
    k: int,
    chunk: Seq<PuzzleStats>,
    i: int,
)
    requires
        chunk_ok(db, start, end, k, chunk, end.day_index() + 1),
        all_dates_need_ids(db, start, end),
        end.is_valid(),
        k >= 1,
        0 <= i < chunk.len(),
    ensures
        chunk[i].date.day_index() == chunk[0].date.day_index() + i,
    decreases i,
{
    let pos = end.day_index() + 1;
    let first = chunk[0].date.day_index();
    lemma_chunk_ok_entry(db, start, end, k, chunk, pos, i);
    lemma_chunk_ok_entry(db, start, end, k, chunk, pos, 0);
    if i > 0 {
        lemma_chunk_no_gap(db, start, end, k, chunk, i - 1);
        lemma_chunk_ok_entry(db, start, end, k, chunk, pos, i - 1);
        lemma_chunk_ok_sorted(db, start, end, k, chunk, pos, i - 1, i);
        if chunk[i].date.day_index() > first + i {
            // The date after entry `i - 1` is missing from the chunk.
            let d2 = chunk[i - 1].date.spec_next();
            date::lemma_below_max(end);
            if chunk[i - 1].date == Date::spec_max() {
                assert(false);
            }
            date::lemma_next_day_index(chunk[i - 1].date);
            assert(d2.day_index() == first + i);
            assert(d2.day_index() < chunk[i].date.day_index());
            assert(d2.day_index() <= spec_span_end(first, k, end));
            assert(spec_needs_id(db, d2));
            lemma_chunk_ok_complete(db, start, end, k, chunk, pos, d2);
            assert(exists|j: int| 0 <= j < chunk.len() && (#[trigger] chunk[j]).date == d2) by {
                reveal(chunk_has_date);
            }
            let j = choose|j: int| 0 <= j < chunk.len() && (#[trigger] chunk[j]).date == d2;
            assert(chunk[j].date.day_index() == first + i);
            if j <= i - 1 {
                if j < i - 1 {
                    lemma_chunk_ok_sorted(db, start, end, k, chunk, pos, j, i - 1);
                }
                assert(false);
            } else {
                if i < j {
                    lemma_chunk_ok_sorted(db, start, end, k, chunk, pos, i, j);
                }
                assert(false);
            }
        }
    }
}

/// Chunking a bare date range — one where every date needs an id —
/// partitions it: the first chunk starts at `start`; each chunk holds
/// exactly the consecutive dates of its span, which runs `k` calendar
/// days (clipped at `end`) by the definition of [`spec_span_end`]; each
/// next chunk's span starts exactly `k` days after the one before; and
/// the last span ends at `end`. Every date of `[start, end]` therefore
/// lies in exactly one chunk's span, the spans are contiguous, and none
/// exceeds `k` days.
#[verifier::rlimit(100)]
pub proof fn lemma_range_chunks_partition(
    db: Database,
    start: Date,
    end: Date,
    k: int,
    chunks: Seq<Seq<PuzzleStats>>,
)
    requires
        chunked_correctly(db, start, end, k, chunks),
        all_dates_need_ids(db, start, end),
        start.is_valid(),
        end.is_valid(),
        start.day_index() <= end.day_index(),
        k >= 1,
    ensures
        chunks.len() >= 1,
        chunks[0][0].date.day_index() == start.day_index(),
        forall|c: int|
            0 <= c < chunks.len() - 1 ==> (#[trigger] chunks[c + 1])[0].date.day_index()
                == chunks[c][0].date.day_index() + k,
        forall|c: int, i: int|
            0 <= c < chunks.len() && 0 <= i < chunks[c].len() ==> (#[trigger] chunks[c][i]).date.day_index()
                == chunks[c][0].date.day_index() + i,
        forall|c: int|
            0 <= c < chunks.len() ==> (#[trigger] chunks[c])[0].date.day_index() + chunks[c].len()
                - 1 == spec_span_end(chunks[c][0].date.day_index(), k, end),
        spec_span_end(chunks[chunks.len() - 1][0].date.day_index(), k, end) == end.day_index(),
{
    let pos = end.day_index() + 1;
    assert(spec_needs_id(db, start));
    lemma_prefix_covers(db, start, end, k, chunks, pos, start);
    assert(exists|c: int, i: int|
        0 <= c < chunks.len() && 0 <= i < chunks[c].len() && (#[trigger] chunks[c][i]).date
            == start) by {
        reveal(chunk_covers);
    }
    let (c0, i0) = choose|c: int, i: int|
        0 <= c < chunks.len() && 0 <= i < chunks[c].len() && (#[trigger] chunks[c][i]).date
            == start;
    lemma_prefix_chunk_ok(db, start, end, k, chunks, pos, c0);
    lemma_prefix_chunk_ok(db, start, end, k, chunks, pos, 0);
    lemma_chunk_ok_len(db, start, end, k, chunks[0], pos);
    lemma_chunk_ok_entry(db, start, end, k, chunks[c0], pos, 0);
    lemma_chunk_ok_entry(db, start, end, k, chunks[c0], pos, i0);
    if c0 > 0 {
        lemma_span_chain(db, start, end, k, chunks, 0, c0);
        lemma_chunk_ok_entry(db, start, end, k, chunks[0], pos, 0);
        assert(chunks[c0][0].date.day_index() > start.day_index());
        if 0 < i0 {
            lemma_chunk_ok_sorted(db, start, end, k, chunks[c0], pos, 0, i0);
        }
        assert(false);
    }
    if 0 < i0 {
        lemma_chunk_ok_sorted(db, start, end, k, chunks[0], pos, 0, i0);
    }
    lemma_chunk_ok_entry(db, start, end, k, chunks[0], pos, 0);
    assert(chunks[0][0].date.day_index() == start.day_index());
    lemma_uniform_from(db, start, end, k, chunks, 0);
}

/// When a chunk's span stops short of `end`, the date right after the
/// span opens the very next chunk.
#[verifier::rlimit(100)]
proof fn lemma_next_chunk_start(
    db: Database,
    start: Date,
    end: Date,
    k: int,
    chunks: Seq<Seq<PuzzleStats>>,
    ci: int,
)
    requires
        chunked_correctly(db, start, end, k, chunks),
        all_dates_need_ids(db, start, end),
        start.is_valid(),
        end.is_valid(),
        start.day_index() <= end.day_index(),
        k >= 1,
        0 <= ci < chunks.len(),
        spec_span_end(chunks[ci][0].date.day_index(), k, end) < end.day_index(),
        chunks[ci][chunks[ci].len() - 1].date.day_index() == spec_span_end(
            chunks[ci][0].date.day_index(),
            k,
            end,
        ),
    ensures
        ci + 1 < chunks.len(),
        chunks[ci + 1][0].date.day_index() == chunks[ci][0].date.day_index() + k,
{
    let pos = end.day_index() + 1;
    let chunk = chunks[ci];
    lemma_prefix_chunk_ok(db, start, end, k, chunks, pos, ci);
    lemma_chunk_ok_len(db, start, end, k, chunk, pos);
    lemma_chunk_ok_entry(db, start, end, k, chunk, pos, 0);
    let p = chunk[0].date.day_index();
    let span_end = spec_span_end(p, k, end);
    let last = chunk.len() - 1;
    lemma_chunk_ok_entry(db, start, end, k, chunk, pos, last);
    // The date right after this chunk's span needs an id too, so a later
    // chunk covers it; separation makes that chunk the very next one and
    // puts that date first in it.
    assert(span_end == p + k - 1);
    let d2 = chunk[last].date.spec_next();
    date::lemma_below_max(end);
    if chunk[last].date == Date::spec_max() {
        assert(false);
    }
    date::lemma_next_day_index(chunk[last].date);
    assert(d2.day_index() == p + k);
    assert(spec_needs_id(db, d2));
    lemma_prefix_covers(db, start, end, k, chunks, pos, d2);
    assert(exists|c: int, i: int|
        0 <= c < chunks.len() && 0 <= i < chunks[c].len() && (#[trigger] chunks[c][i]).date
            == d2) by {
        reveal(chunk_covers);
    }
    let (c2, i2) = choose|c: int, i: int|
        0 <= c < chunks.len() && 0 <= i < chunks[c].len() && (#[trigger] chunks[c][i]).date == d2;
    lemma_prefix_chunk_ok(db, start, end, k, chunks, pos, c2);
    lemma_chunk_ok_entry(db, start, end, k, chunks[c2], pos, i2);
    lemma_chunk_ok_entry(db, start, end, k, chunks[c2], pos, 0);
    if i2 > 0 {
        lemma_chunk_ok_sorted(db, start, end, k, chunks[c2], pos, 0, i2);
    }
    if c2 < ci {
        lemma_span_chain(db, start, end, k, chunks, c2, ci);
        assert(chunks[c2][i2].date.day_index() <= spec_span_end(
            chunks[c2][0].date.day_index(),
            k,
            end,
        ));
        assert(false);
    }
    if c2 == ci {
        assert(chunks[c2][i2].date.day_index() <= span_end);
        assert(false);
    }
    assert(chunks[c2][0].date.day_index() <= p + k);
    lemma_span_chain(db, start, end, k, chunks, ci, c2);
    assert(chunks[c2][0].date.day_index() == p + k);
    if c2 > ci + 1 {
        lemma_span_chain(db, start, end, k, chunks, ci + 1, c2);
        lemma_span_chain(db, start, end, k, chunks, ci, ci + 1);
        lemma_prefix_chunk_ok(db, start, end, k, chunks, pos, ci + 1);
        lemma_chunk_ok_len(db, start, end, k, chunks[ci + 1], pos);
        lemma_chunk_ok_entry(db, start, end, k, chunks[ci + 1], pos, 0);
        assert(spec_span_end(chunks[ci + 1][0].date.day_index(), k, end) >= chunks[ci
            + 1][0].date.day_index());
        assert(false);
    }
}

/// Chunks from `ci` on continue the uniform partition: each holds its
/// whole span of consecutive dates, the next starts `k` days later, and
/// the last span ends at `end`.
#[verifier::rlimit(100)]
proof fn lemma_uniform_from(
    db: Database,
    start: Date,
    end: Date,
    k: int,
    chunks: Seq<Seq<PuzzleStats>>,
    ci: int,
)
    requires
        chunked_correctly(db, start, end, k, chunks),
        all_dates_need_ids(db, start, end),
        start.is_valid(),
        end.is_valid(),
        start.day_index() <= end.day_index(),
        k >= 1,
        0 <= ci < chunks.len(),
    ensures
        forall|c: int|
            ci <= c < chunks.len() - 1 ==> (#[trigger] chunks[c + 1])[0].date.day_index()
                == chunks[c][0].date.day_index() + k,
        forall|c: int, i: int|
            ci <= c < chunks.len() && 0 <= i < chunks[c].len() ==> (#[trigger] chunks[c][i]).date.day_index()
                == chunks[c][0].date.day_index() + i,
        forall|c: int|
            ci <= c < chunks.len() ==> (#[trigger] chunks[c])[0].date.day_index() + chunks[c].len()
                - 1 == spec_span_end(chunks[c][0].date.day_index(), k, end),
        spec_span_end(chunks[chunks.len() - 1][0].date.day_index(), k, end) == end.day_index(),
    decreases chunks.len() - ci,
{
    let pos = end.day_index() + 1;
    let chunk = chunks[ci];
    lemma_prefix_chunk_ok(db, start, end, k, chunks, pos, ci);
    lemma_chunk_ok_len(db, start, end, k, chunk, pos);
    lemma_chunk_consecutive(db, start, end, k, chunk);
    let p = chunk[0].date.day_index();
    let span_end = spec_span_end(p, k, end);
    if span_end == end.day_index() {
        // This is the last chunk: a further chunk would have to start
        // past `end`, where no entry may lie.
        if ci + 1 < chunks.len() {
            lemma_span_chain(db, start, end, k, chunks, ci, ci + 1);
            lemma_prefix_chunk_ok(db, start, end, k, chunks, pos, ci + 1);
            lemma_chunk_ok_len(db, start, end, k, chunks[ci + 1], pos);
            lemma_chunk_ok_entry(db, start, end, k, chunks[ci + 1], pos, 0);
            assert(false);
        }
    } else {
        lemma_next_chunk_start(db, start, end, k, chunks, ci);
        lemma_uniform_from(db, start, end, k, chunks, ci + 1);
    }
}

} // verus!
