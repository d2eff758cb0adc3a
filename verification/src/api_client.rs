//! Shapes of the provider's per-puzzle statistics response and their
//! classification into a solve outcome.
//!
//! The wire format itself (HTTP, JSON) is an external concern; the types
//! here carry the already-decoded fields, and [`PuzzleStatsResponse::collect_stats`]
//! holds the classification rules: an unsolved puzzle yields no outcome, a
//! solved one yields its solve time, and a recorded "check" or "reveal"
//! marks the solve as aided.

use vstd::prelude::*;

verus! {

/// The `calcs` block of a stats response: whether the puzzle was solved
/// and, when recorded, the seconds spent solving it.
#[derive(Debug, Clone, Copy, Hash)]
pub struct RawStats {
    pub solved: Option<bool>,
    pub seconds_spent_solving: Option<u32>,
}

/// The optional `firsts` block of a stats response: epoch timestamps of
/// the first open, check, reveal and solve actions.
#[derive(Debug, Clone, Copy, Hash)]
pub struct RawFirsts {
    pub opened: Option<u32>,
    pub checked: Option<u32>,
    pub revealed: Option<u32>,
    pub solved: Option<u32>,
}

/// A decoded per-puzzle statistics response.
#[derive(Debug, Clone, Copy, Hash)]
pub struct PuzzleStatsResponse {
    pub calcs: RawStats,
    pub firsts: Option<RawFirsts>,
}

/// Solve statistics of a completed puzzle. `cheated` records whether a
/// check or reveal aid was used; an aided solve's time is untrustworthy
/// and is discarded when the statistics are folded into a record.
#[derive(Debug, Clone, Copy, Hash)]
pub struct SolvedPuzzleStats {
    pub solve_time: u32,
    pub opened: Option<u32>,
    pub solved: Option<u32>,
    pub cheated: bool,
}

impl Default for SolvedPuzzleStats {
    /// All-absent statistics: zero solve time, no timestamps, no aid.
    fn default() -> (s: SolvedPuzzleStats)
        ensures
            s.solve_time == 0,
            s.opened is None,
            s.solved is None,
            !s.cheated,
    {
        SolvedPuzzleStats { solve_time: 0, opened: None, solved: None, cheated: false }
    }
}

impl PartialEq for SolvedPuzzleStats {
    fn eq(&self, other: &Self) -> (r: bool) {
        self.solve_time == other.solve_time && self.opened == other.opened && self.solved
            == other.solved && self.cheated == other.cheated
    }
}

impl vstd::std_specs::cmp::PartialEqSpecImpl for SolvedPuzzleStats {
    open spec fn obeys_eq_spec() -> bool {
        true
    }

    open spec fn eq_spec(&self, other: &Self) -> bool {
        *self == *other
    }
}

/// Subscription credential for the provider, carried either as a plain
/// HTTP header value or as a session cookie value.
#[derive(Debug, Clone)]
pub enum SubscriptionToken {
    /// Token passed in the provider's dedicated HTTP header.
    Header(String),
    /// Token passed as a session cookie value.
    Cookie(String),
}

impl PuzzleStatsResponse {
    /// Whether the response records an aided solve: a `firsts` block is
    /// present with a check or reveal timestamp.
    pub open spec fn spec_aided(self) -> bool {
        match self.firsts {
            Some(f) => f.checked is Some || f.revealed is Some,
            None => false,
        }
    }

    /// The outcome [`collect_stats`](Self::collect_stats) yields: `None`
    /// unless the response is marked solved and carries a solve time;
    /// otherwise the time, the first-open/first-solve timestamps, and the
    /// aid flag.
    pub open spec fn spec_collect_stats(self) -> Option<SolvedPuzzleStats> {
        if self.calcs.solved == Some(true) {
            match self.calcs.seconds_spent_solving {
                Some(t) => Some(
                    SolvedPuzzleStats {
                        solve_time: t,
                        opened: if self.firsts is Some {
                            self.firsts->0.opened
                        } else {
                            None
                        },
                        solved: if self.firsts is Some {
                            self.firsts->0.solved
                        } else {
                            None
                        },
                        cheated: self.spec_aided(),
                    },
                ),
                None => None,
            }
        } else {
            None
        }
    }

    /// Whether the response violates the provider's schema: marked
    /// solved but missing the required solve-time field.
    pub open spec fn spec_schema_violation(self) -> bool {
        self.calcs.solved == Some(true) && self.calcs.seconds_spent_solving is None
    }

    /// Whether this response violates the provider's schema: marked
    /// solved but missing the required solve-time field. Such a response
    /// is a fetch failure for its puzzle, to be reported, never silently
    /// defaulted to unsolved.
    pub fn is_schema_violation(&self) -> (r: bool)
        ensures
            r == self.spec_schema_violation(),
    {
        self.calcs.solved == Some(true) && self.calcs.seconds_spent_solving.is_none()
    }

    /// Classify this response. Returns `None` both for an unsolved
    /// puzzle and for a schema-violating response (solved without a
    /// recorded time); callers must test
    /// [`is_schema_violation`](Self::is_schema_violation) first to tell
    /// the two apart. Otherwise the solve statistics, with the aid flag
    /// set iff a check or reveal was recorded.
    pub fn collect_stats(&self) -> (r: Option<SolvedPuzzleStats>)
        ensures
            r == self.spec_collect_stats(),
            r is Some ==> !self.spec_schema_violation() && (r->0.cheated <==> self.spec_aided()),
            r is None <==> (self.calcs.solved != Some(true) || self.spec_schema_violation()),
    {
        let mut stats = SolvedPuzzleStats { solve_time: 0, opened: None, solved: None, cheated: false };

        if let Some(firsts) = self.firsts {
            stats.opened = firsts.opened;
            stats.solved = firsts.solved;
            match (firsts.checked, firsts.revealed) {
                (None, None) => (),
                _ => {
                    stats.cheated = true;
                },
            }
        }

        if let Some(true) = self.calcs.solved {
            stats.solve_time = if let Some(solve_time) = self.calcs.seconds_spent_solving {
                solve_time
            } else {
                return None;
            };
            Some(stats)
        } else {
            None
        }
    }
}

} // verus!
