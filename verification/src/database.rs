//! The in-memory, date-keyed record store.
//!
//! The store owns one [`PuzzleStats`] record per date, kept sorted by
//! date, and is the single place fetch outcomes are consolidated into.
//! Durable storage is an external concern: the store accepts loaded rows
//! through [`Database::from_records`] and hands the date-sorted rows to
//! persist back through [`Database::flush`].

use crate::date::{lemma_day_index_injective, Date};
use crate::PuzzleStats;
use vstd::prelude::*;

verus! {

/// The first record in `s` whose date equals `d`, if any.
pub open spec fn seq_find(s: Seq<PuzzleStats>, d: Date) -> Option<PuzzleStats>
    decreases s.len(),
{
    if s.len() == 0 {
        None
    } else if s[0].date == d {
        Some(s[0])
    } else {
        seq_find(s.drop_first(), d)
    }
}

/// `s` with `r` inserted at its date position: placed before the first
/// record of a later date, replacing a record of the same date.
pub open spec fn seq_insert(s: Seq<PuzzleStats>, r: PuzzleStats) -> Seq<PuzzleStats>
    decreases s.len(),
{
    if s.len() == 0 {
        seq![r]
    } else if r.date.day_index() < s[0].date.day_index() {
        seq![r] + s
    } else if r.date.day_index() == s[0].date.day_index() {
        seq![r] + s.drop_first()
    } else {
        seq![s[0]] + seq_insert(s.drop_first(), r)
    }
}

/// The store contents after loading the given rows in order, last write
/// winning on a repeated date.
pub open spec fn seq_load(rows: Seq<PuzzleStats>) -> Seq<PuzzleStats>
    decreases rows.len(),
{
    if rows.len() == 0 {
        Seq::empty()
    } else {
        seq_insert(seq_load(rows.drop_last()), rows.last())
    }
}

/// Well-formed store contents: every record is well formed and the
/// records are strictly sorted by date, so each date occurs at most
/// once.
pub open spec fn seq_wf(s: Seq<PuzzleStats>) -> bool {
    &&& forall|i: int| 0 <= i < s.len() ==> (#[trigger] s[i]).wf()
    &&& forall|i: int, j: int|
        0 <= i < j < s.len() ==> #[trigger] s[i].date.day_index() < #[trigger] s[j].date.day_index()
}

/// An in-memory set of puzzle records, one per date, sorted by date.
#[derive(Debug)]
pub struct Database {
    records: Vec<PuzzleStats>,
}

impl Database {
    /// The stored records, date-sorted.
    pub closed spec fn view(self) -> Seq<PuzzleStats> {
        self.records@
    }

    /// The store's invariant: its contents are well formed and strictly
    /// sorted by date.
    pub open spec fn wf(self) -> bool {
        seq_wf(self@)
    }

    /// The record stored for date `d`, if any.
    pub open spec fn spec_get(self, d: Date) -> Option<PuzzleStats> {
        seq_find(self@, d)
    }

    /// Create a new, empty store.
    pub fn new() -> (db: Database)
        ensures
            db.wf(),
            db@ == Seq::<PuzzleStats>::empty(),
    {
        Database { records: Vec::new() }
    }

    /// Number of stored records.
    pub fn len(&self) -> (n: usize)
        ensures
            n == self@.len(),
    {
        self.records.len()
    }

    /// Look up the record for the given date.
    pub fn get(&self, date: Date) -> (r: Option<PuzzleStats>)
        ensures
            r == self.spec_get(date),
    {
        let mut i: usize = 0;
        proof {
            assert(self@.skip(0) =~= self@);
        }
        while i < self.records.len()
            invariant
                0 <= i <= self.records.len(),
                seq_find(self@, date) == seq_find(self@.skip(i as int), date),
            decreases self.records.len() - i,
        {
            proof {
                assert(self@.skip(i as int).drop_first() =~= self@.skip(i + 1));
            }
            if self.records[i].date == date {
                return Some(self.records[i]);
            }
            i = i + 1;
        }
        None
    }

    /// Whether a record is stored for the given date.
    pub fn contains(&self, date: Date) -> (r: bool)
        ensures
            r == (self.spec_get(date) is Some),
    {
        self.get(date).is_some()
    }

    /// Add a record to the store. If a record already exists for its
    /// date, it is overwritten.
    pub fn add(&mut self, puzzle: PuzzleStats)
        requires
            old(self).wf(),
            puzzle.wf(),
        ensures
            final(self).wf(),
            final(self)@ == seq_insert(old(self)@, puzzle),
    {
        let ghost s0 = self@;
        let mut i: usize = 0;
        while i < self.records.len() && self.records[i].date.day_number()
            < puzzle.date.day_number()
            invariant
                self@ == s0,
                old(self).wf(),
                puzzle.wf(),
                0 <= i <= self@.len(),
                forall|j: int| 0 <= j < i ==> #[trigger] s0[j].date.day_index()
                    < puzzle.date.day_index(),
            decreases self.records.len() - i,
        {
            i = i + 1;
        }
        if i < self.records.len() && self.records[i].date.day_number()
            == puzzle.date.day_number() {
            proof {
                lemma_day_index_injective(s0[i as int].date, puzzle.date);
                lemma_seq_insert_at(s0, puzzle, i as int);
            }
            self.records[i] = puzzle;
            proof {
                assert(self@ =~= s0.take(i as int) + seq![puzzle] + s0.skip(i + 1));
            }
        } else {
            proof {
                lemma_seq_insert_at(s0, puzzle, i as int);
            }
            self.records.insert(i, puzzle);
            proof {
                assert(self@ =~= s0.take(i as int) + seq![puzzle] + s0.skip(i as int));
            }
        }
    }

    /// The stored records, date-sorted.
    pub fn records(&self) -> (r: Vec<PuzzleStats>)
        ensures
            r@ == self@,
    {
        let mut out: Vec<PuzzleStats> = Vec::new();
        let mut i: usize = 0;
        while i < self.records.len()
            invariant
                0 <= i <= self@.len(),
                out@ == self@.take(i as int),
            decreases self.records.len() - i,
        {
            out.push(self.records[i]);
            proof {
                assert(self@.take(i as int).push(self@[i as int]) =~= self@.take(i + 1));
            }
            i = i + 1;
        }
        proof {
            assert(self@.take(self@.len() as int) =~= self@);
        }
        out
    }

    /// The durable image of the store: all records, sorted by date. The
    /// caller persists these rows, replacing any prior durable content.
    pub fn flush(&self) -> (r: Vec<PuzzleStats>)
        requires
            self.wf(),
        ensures
            r@ == self@,
            forall|i: int, j: int|
                0 <= i < j < r@.len() ==> #[trigger] r@[i].date.day_index() < #[trigger] r@[j].date.day_index(),
    {
        self.records()
    }

    /// Rebuild a store from loaded rows, in order, a later row
    /// overwriting an earlier one of the same date.
    pub fn from_records(rows: &Vec<PuzzleStats>) -> (db: Database)
        requires
            forall|i: int| 0 <= i < rows@.len() ==> (#[trigger] rows@[i]).wf(),
        ensures
            db.wf(),
            db@ == seq_load(rows@),
    {
        let mut db = Database::new();
        let mut i: usize = 0;
        while i < rows.len()
            invariant
                forall|k: int| 0 <= k < rows@.len() ==> (#[trigger] rows@[k]).wf(),
                0 <= i <= rows@.len(),
                db.wf(),
                db@ == seq_load(rows@.take(i as int)),
            decreases rows.len() - i,
        {
            db.add(rows[i]);
            proof {
                assert(rows@.take(i + 1).drop_last() =~= rows@.take(i as int));
                assert(rows@.take(i + 1).last() == rows@[i as int]);
            }
            i = i + 1;
        }
        proof {
            assert(rows@.take(rows@.len() as int) =~= rows@);
        }
        db
    }
}

/// Where the scan in [`Database::add`] stops is where [`seq_insert`]
/// places the record: before position `i`, replacing `s[i]` when the
/// dates' indices match.
proof fn lemma_seq_insert_at(s: Seq<PuzzleStats>, r: PuzzleStats, i: int)
    requires
        0 <= i <= s.len(),
        forall|j: int| 0 <= j < i ==> #[trigger] s[j].date.day_index() < r.date.day_index(),
        i < s.len() ==> s[i].date.day_index() >= r.date.day_index(),
    ensures
        i < s.len() && s[i].date.day_index() == r.date.day_index() ==> seq_insert(s, r) == s.take(i)
            + seq![r] + s.skip(i + 1),
        !(i < s.len() && s[i].date.day_index() == r.date.day_index()) ==> seq_insert(s, r)
            == s.take(i) + seq![r] + s.skip(i),
    decreases i,
{
    if i == 0 {
        if s.len() == 0 {
            assert(seq_insert(s, r) =~= s.take(0) + seq![r] + s.skip(0));
        } else if s[0].date.day_index() == r.date.day_index() {
            assert(seq![r] + s.drop_first() =~= s.take(0) + seq![r] + s.skip(1));
        } else {
            assert(seq![r] + s =~= s.take(0) + seq![r] + s.skip(0));
        }
    } else {
        lemma_seq_insert_at(s.drop_first(), r, i - 1);
        assert(s.drop_first().take(i - 1) =~= s.skip(1).take(i - 1));
        if i < s.len() && s[i].date.day_index() == r.date.day_index() {
            assert(seq![s[0]] + (s.drop_first().take(i - 1) + seq![r] + s.drop_first().skip(i))
                =~= s.take(i) + seq![r] + s.skip(i + 1));
        } else {
            assert(seq![s[0]] + (s.drop_first().take(i - 1) + seq![r] + s.drop_first().skip(i - 1))
                =~= s.take(i) + seq![r] + s.skip(i));
        }
    }
}

/// Inserting a well-formed record into well-formed store contents keeps
/// them well formed.
pub proof fn lemma_insert_wf(s: Seq<PuzzleStats>, r: PuzzleStats)
    requires
        seq_wf(s),
        r.wf(),
    ensures
        seq_wf(seq_insert(s, r)),
    decreases s.len(),
{
    if s.len() == 0 {
    } else if r.date.day_index() < s[0].date.day_index() {
        let t = seq![r] + s;
        assert(forall|i: int| 0 <= i < t.len() ==> (#[trigger] t[i]).wf());
    } else if r.date.day_index() == s[0].date.day_index() {
        let t = seq![r] + s.drop_first();
        assert(forall|i: int| 0 <= i < t.len() ==> (#[trigger] t[i]).wf());
    } else {
        assert(seq_wf(s.drop_first()));
        lemma_insert_wf(s.drop_first(), r);
        let u = seq_insert(s.drop_first(), r);
        let t = seq![s[0]] + u;
        assert(forall|i: int| 0 <= i < t.len() ==> (#[trigger] t[i]).wf());
        assert forall|i: int, j: int| 0 <= i < j < t.len() implies #[trigger] t[i].date.day_index()
            < #[trigger] t[j].date.day_index() by {
            if i == 0 {
                lemma_insert_indices(s.drop_first(), r, j - 1);
                assert(t[j] == u[j - 1]);
            }
        }
    }
}

/// Inserting a record stores exactly that record under its date and
/// leaves every other date's record alone.
#[verifier::rlimit(50)]
pub proof fn lemma_find_insert(s: Seq<PuzzleStats>, r: PuzzleStats, d: Date)
    requires
        seq_wf(s),
        r.wf(),
    ensures
        seq_find(seq_insert(s, r), r.date) == Some(r),
        d != r.date ==> seq_find(seq_insert(s, r), d) == seq_find(s, d),
    decreases s.len(),
{
    if s.len() == 0 {
        assert(seq_insert(s, r).drop_first() =~= s);
        if d != r.date {
            assert(seq_find(seq_insert(s, r), d) == seq_find(s, d));
        }
    } else if r.date.day_index() < s[0].date.day_index() {
        let t = seq![r] + s;
        assert(t.drop_first() =~= s);
        assert(t[0] == r);
        if d != r.date {
            assert(seq_find(t, d) == seq_find(s, d));
            assert(seq_find(seq_insert(s, r), d) == seq_find(s, d));
        }
    } else if r.date.day_index() == s[0].date.day_index() {
        lemma_day_index_injective(r.date, s[0].date);
        let t = seq![r] + s.drop_first();
        assert(t.drop_first() =~= s.drop_first());
        assert(t[0] == r);
        if d != r.date {
            assert(seq_find(t, d) == seq_find(s.drop_first(), d));
            assert(seq_find(s, d) == seq_find(s.drop_first(), d));
            assert(seq_find(seq_insert(s, r), d) == seq_find(s, d));
        }
    } else {
        assert(seq_wf(s.drop_first()));
        lemma_find_insert(s.drop_first(), r, d);
        let t = seq![s[0]] + seq_insert(s.drop_first(), r);
        assert(t.drop_first() =~= seq_insert(s.drop_first(), r));
        assert(t[0] == s[0]);
        if s[0].date.day_index() == r.date.day_index() {
            lemma_day_index_injective(s[0].date, r.date);
        }
        assert(s[0].date != r.date);
        assert(seq_find(t, r.date) == Some(r));
        if d != r.date {
            if s[0].date == d {
                assert(seq_find(t, d) == Some(s[0]));
            } else {
                assert(seq_find(t, d) == seq_find(seq_insert(s.drop_first(), r), d));
            }
            assert(seq_find(seq_insert(s, r), d) == seq_find(s, d));
        }
    }
}

/// Every record of `seq_insert(s, r)` is either `r` or a record of `s`.
proof fn lemma_insert_indices(s: Seq<PuzzleStats>, r: PuzzleStats, j: int)
    requires
        0 <= j < seq_insert(s, r).len(),
    ensures
        seq_insert(s, r)[j] == r || exists|k: int| 0 <= k < s.len() && s[k] == #[trigger] seq_insert(
            s,
            r,
        )[j],
    decreases s.len(),
{
    if s.len() == 0 {
    } else if r.date.day_index() < s[0].date.day_index() {
    } else if r.date.day_index() == s[0].date.day_index() {
    } else {
        if j > 0 {
            lemma_insert_indices(s.drop_first(), r, j - 1);
            let t = seq![s[0]] + seq_insert(s.drop_first(), r);
            assert(t[j] == seq_insert(s.drop_first(), r)[j - 1]);
        }
    }
}

/// Re-adding a record the store already holds changes nothing.
pub proof fn lemma_insert_stable(s: Seq<PuzzleStats>, r: PuzzleStats)
    requires
        seq_wf(s),
        r.wf(),
        seq_find(s, r.date) == Some(r),
    ensures
        seq_insert(s, r) == s,
    decreases s.len(),
{
    if s.len() == 0 {
    } else if s[0].date == r.date {
        assert(seq_find(s, r.date) == Some(s[0]));
        assert(seq_insert(s, r) =~= s);
    } else {
        if s[0].date.day_index() == r.date.day_index() {
            lemma_day_index_injective(s[0].date, r.date);
        }
        if r.date.day_index() < s[0].date.day_index() {
            lemma_find_props(s, r.date);
            assert(false);
        } else {
            assert(seq_wf(s.drop_first()));
            lemma_insert_stable(s.drop_first(), r);
            assert(seq![s[0]] + s.drop_first() =~= s);
        }
    }
}

/// In a sorted store, a stored record's date is at or after the first
/// record's date.
pub proof fn lemma_find_props(s: Seq<PuzzleStats>, d: Date)
    requires
        seq_wf(s),
        s.len() > 0,
        seq_find(s, d) is Some,
    ensures
        d.day_index() >= s[0].date.day_index(),
        seq_find(s, d)->0.date == d,
        seq_find(s, d)->0.wf(),
        exists|j: int| 0 <= j < s.len() && #[trigger] s[j] == seq_find(s, d)->0,
    decreases s.len(),
{
    if s[0].date == d {
        assert(s[0] == seq_find(s, d)->0);
    } else {
        assert(seq_wf(s.drop_first()));
        lemma_find_props(s.drop_first(), d);
        let j = choose|j: int|
            0 <= j < s.drop_first().len() && #[trigger] s.drop_first()[j] == seq_find(
                s.drop_first(),
                d,
            )->0;
        assert(s[j + 1] == seq_find(s, d)->0);
    }
}

/// A record the store holds is exactly what looking its date up returns.
pub proof fn lemma_find_member(s: Seq<PuzzleStats>, j: int)
    requires
        seq_wf(s),
        0 <= j < s.len(),
    ensures
        seq_find(s, s[j].date) == Some(s[j]),
    decreases j,
{
    if s[0].date == s[j].date {
        if j > 0 {
            assert(s[0].date.day_index() < s[j].date.day_index());
            assert(false);
        }
    } else {
        assert(seq_wf(s.drop_first()));
        lemma_find_member(s.drop_first(), j - 1);
    }
}

/// Rebuilding a store from date-sorted rows reproduces exactly those
/// rows: the durable image read back is the store it was written from.
pub proof fn lemma_load_round_trip(s: Seq<PuzzleStats>)
    requires
        seq_wf(s),
    ensures
        seq_load(s) == s,
    decreases s.len(),
{
    if s.len() > 0 {
        assert(seq_wf(s.drop_last()));
        lemma_load_round_trip(s.drop_last());
        lemma_insert_append(s.drop_last(), s.last());
        assert(s.drop_last().push(s.last()) =~= s);
    }
}

/// Inserting a record dated after everything stored appends it.
proof fn lemma_insert_append(s: Seq<PuzzleStats>, r: PuzzleStats)
    requires
        forall|i: int| 0 <= i < s.len() ==> #[trigger] s[i].date.day_index() < r.date.day_index(),
    ensures
        seq_insert(s, r) == s.push(r),
    decreases s.len(),
{
    if s.len() == 0 {
        assert(seq_insert(s, r) =~= s.push(r));
    } else {
        lemma_insert_append(s.drop_first(), r);
        assert(seq![s[0]] + s.drop_first().push(r) =~= s.push(r));
    }
}

} // verus!
