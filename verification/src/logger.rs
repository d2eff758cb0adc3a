//! Consolidation of fetch outcomes into the record store.
//!
//! Concurrent fetch tasks emit [`Payload`] events in arbitrary order; a
//! single consumer applies them to the store one at a time, which is what
//! makes concurrent fetching safe without locking the store. The event
//! loop itself (a channel receive loop) is an external concern; the
//! decisions it takes per event live here.

use crate::database::{seq_insert, Database};
use crate::date::Date;
use crate::PuzzleStats;
use vstd::prelude::*;

verus! {

/// One fetch outcome, as emitted by the fetch tasks and consumed by the
/// consolidation sink.
#[derive(Debug, Clone, Copy)]
pub enum Payload {
    /// The puzzle was solved without aid, or aided; the record carries
    /// the outcome.
    Solve(PuzzleStats),
    /// The provider has no completion data for the puzzle; the record
    /// still carries a freshly learned id.
    Unsolved(PuzzleStats),
    /// A fetch failed. When a record is carried, its newly learned id
    /// must still be persisted so a later run skips the id lookup.
    FetchError(Option<PuzzleStats>),
    /// The run is over; carries the total number of requests issued.
    Finished(u32),
}

impl Payload {
    /// Any record the event carries is well formed.
    pub open spec fn wf(self) -> bool {
        match self {
            Payload::Solve(r) => r.wf(),
            Payload::Unsolved(r) => r.wf(),
            Payload::FetchError(o) => match o {
                Some(r) => r.wf(),
                None => true,
            },
            Payload::Finished(_) => true,
        }
    }
}

/// The record an event carries into the store, if any.
pub open spec fn event_record(p: Payload) -> Option<PuzzleStats> {
    match p {
        Payload::Solve(r) => Some(r),
        Payload::Unsolved(r) => Some(r),
        Payload::FetchError(o) => o,
        Payload::Finished(_) => None,
    }
}

/// The store contents after one event is applied: record-carrying events
/// overwrite the record's date, the rest change nothing.
pub open spec fn spec_apply(s: Seq<PuzzleStats>, p: Payload) -> Seq<PuzzleStats> {
    match p {
        Payload::Solve(r) => seq_insert(s, r),
        Payload::Unsolved(r) => seq_insert(s, r),
        Payload::FetchError(o) => match o {
            Some(r) => seq_insert(s, r),
            None => s,
        },
        Payload::Finished(_) => s,
    }
}

/// The store contents after a whole stream of events is applied in
/// order.
pub open spec fn spec_apply_all(s: Seq<PuzzleStats>, evs: Seq<Payload>) -> Seq<PuzzleStats>
    decreases evs.len(),
{
    if evs.len() == 0 {
        s
    } else {
        spec_apply_all(spec_apply(s, evs[0]), evs.drop_first())
    }
}

/// Apply one fetch outcome to the store. Solve and unsolved outcomes
/// overwrite the record of their date; a failed fetch that learned an id
/// still persists its record; a failed fetch without a record and the
/// terminal event change nothing. Returns whether this was the terminal
/// event.
pub fn apply_payload(stats_db: &mut Database, payload: Payload) -> (finished: bool)
    requires
        old(stats_db).wf(),
        payload.wf(),
    ensures
        final(stats_db).wf(),
        final(stats_db)@ == spec_apply(old(stats_db)@, payload),
        finished == (payload is Finished),
{
    match payload {
        Payload::Solve(stats) => {
            stats_db.add(stats);
            false
        },
        Payload::Unsolved(stats) => {
            stats_db.add(stats);
            false
        },
        Payload::FetchError(Some(stats)) => {
            stats_db.add(stats);
            false
        },
        Payload::FetchError(None) => false,
        Payload::Finished(_) => true,
    }
}

/// Apply a stream of events to the store, in order, stopping at the
/// first terminal event and returning the request count it carries.
pub fn run_sink(stats_db: &mut Database, events: &Vec<Payload>) -> (finished: Option<u32>)
    requires
        old(stats_db).wf(),
        forall|i: int| 0 <= i < events@.len() ==> (#[trigger] events@[i]).wf(),
    ensures
        final(stats_db).wf(),
        (final(stats_db)@, finished) == spec_run_sink(old(stats_db)@, events@),
{
    let mut i: usize = 0;
    let ghost s0 = stats_db@;
    proof {
        assert(events@.skip(0) =~= events@);
    }
    while i < events.len()
        invariant
            old(stats_db).wf(),
            s0 == old(stats_db)@,
            stats_db.wf(),
            forall|k: int| 0 <= k < events@.len() ==> (#[trigger] events@[k]).wf(),
            0 <= i <= events@.len(),
            spec_run_sink(s0, events@) == spec_run_sink(stats_db@, events@.skip(i as int)),
        decreases events@.len() - i,
    {
        proof {
            assert(events@.skip(i as int).drop_first() =~= events@.skip(i + 1));
            assert(events@.skip(i as int)[0] == events@[i as int]);
        }
        let ev = events[i];
        let ghost pre = stats_db@;
        if apply_payload(stats_db, ev) {
            match ev {
                Payload::Finished(n) => {
                    proof {
                        assert(spec_run_sink(pre, events@.skip(i as int)) == (pre, Some(n)));
                    }
                    return Some(n);
                },
                _ => (),
            }
        }
        i = i + 1;
    }
    proof {
        assert(events@.skip(events@.len() as int) =~= Seq::<Payload>::empty());
    }
    None
}

/// Applying well-formed events keeps the store well formed.
pub proof fn lemma_apply_all_wf(s: Seq<PuzzleStats>, evs: Seq<Payload>)
    requires
        crate::database::seq_wf(s),
        forall|i: int| 0 <= i < evs.len() ==> (#[trigger] evs[i]).wf(),
    ensures
        crate::database::seq_wf(spec_apply_all(s, evs)),
    decreases evs.len(),
{
    if evs.len() > 0 {
        assert(crate::database::seq_wf(spec_apply(s, evs[0]))) by {
            match event_record(evs[0]) {
                Some(r) => {
                    crate::database::lemma_insert_wf(s, r);
                },
                None => (),
            }
        }
        assert(forall|i: int|
            0 <= i < evs.drop_first().len() ==> (#[trigger] evs.drop_first()[i]).wf());
        lemma_apply_all_wf(spec_apply(s, evs[0]), evs.drop_first());
    }
}

/// A date no event writes keeps its record through a whole stream.
pub proof fn lemma_apply_all_frame(s: Seq<PuzzleStats>, evs: Seq<Payload>, d: Date)
    requires
        crate::database::seq_wf(s),
        forall|i: int| 0 <= i < evs.len() ==> (#[trigger] evs[i]).wf(),
        forall|i: int|
            0 <= i < evs.len() ==> match event_record(#[trigger] evs[i]) {
                Some(r) => r.date != d,
                None => true,
            },
    ensures
        crate::database::seq_find(spec_apply_all(s, evs), d) == crate::database::seq_find(s, d),
    decreases evs.len(),
{
    if evs.len() > 0 {
        assert(crate::database::seq_find(spec_apply(s, evs[0]), d) == crate::database::seq_find(
            s,
            d,
        )) by {
            match event_record(evs[0]) {
                Some(r) => {
                    crate::database::lemma_find_insert(s, r, d);
                },
                None => (),
            }
        }
        assert(crate::database::seq_wf(spec_apply(s, evs[0]))) by {
            match event_record(evs[0]) {
                Some(r) => {
                    crate::database::lemma_insert_wf(s, r);
                },
                None => (),
            }
        }
        assert(forall|i: int|
            0 <= i < evs.drop_first().len() ==> evs.drop_first()[i] == evs[i + 1]);
        lemma_apply_all_frame(spec_apply(s, evs[0]), evs.drop_first(), d);
    }
}

/// The one event that writes a date decides its record after a whole
/// stream.
pub proof fn lemma_apply_all_writer(s: Seq<PuzzleStats>, evs: Seq<Payload>, j: int, d: Date)
    requires
        crate::database::seq_wf(s),
        forall|i: int| 0 <= i < evs.len() ==> (#[trigger] evs[i]).wf(),
        0 <= j < evs.len(),
        event_record(evs[j]) is Some,
        event_record(evs[j])->0.date == d,
        forall|i: int|
            0 <= i < evs.len() && i != j ==> match event_record(#[trigger] evs[i]) {
                Some(r) => r.date != d,
                None => true,
            },
    ensures
        crate::database::seq_find(spec_apply_all(s, evs), d) == event_record(evs[j]),
    decreases evs.len(),
{
    assert(forall|i: int| 0 <= i < evs.drop_first().len() ==> evs.drop_first()[i] == evs[i + 1]);
    if j == 0 {
        let r = event_record(evs[0])->0;
        crate::database::lemma_find_insert(s, r, d);
        crate::database::lemma_insert_wf(s, r);
        lemma_apply_all_frame(spec_apply(s, evs[0]), evs.drop_first(), d);
    } else {
        assert(crate::database::seq_wf(spec_apply(s, evs[0]))) by {
            match event_record(evs[0]) {
                Some(r) => {
                    crate::database::lemma_insert_wf(s, r);
                },
                None => (),
            }
        }
        lemma_apply_all_writer(spec_apply(s, evs[0]), evs.drop_first(), j - 1, d);
    }
}

/// What [`run_sink`] leaves in the store and returns: events before the
/// first terminal one are applied in order.
pub open spec fn spec_run_sink(s: Seq<PuzzleStats>, evs: Seq<Payload>) -> (Seq<PuzzleStats>, Option<
    u32,
>)
    decreases evs.len(),
{
    if evs.len() == 0 {
        (s, None)
    } else {
        match evs[0] {
            Payload::Finished(n) => (s, Some(n)),
            _ => spec_run_sink(spec_apply(s, evs[0]), evs.drop_first()),
        }
    }
}

} // verus!
