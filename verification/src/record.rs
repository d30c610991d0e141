//! A single timed attempt: its outcome, duration in milliseconds, free-text
//! annotations and timestamp.

use vstd::prelude::*;

use crate::time::Milliseconds;

verus! {

/// Valid states of a solve.
#[derive(Debug, Copy, Clone, PartialEq, Eq, Structural)]
pub enum SolveState {
    /// No penalty.
    Clean,

    /// Plus 2 seconds.
    Plus2,

    /// Did not finish.
    Dnf,
}

impl SolveState {
    /// Returns true if state is Ok.
    pub fn is_ok(self) -> (r: bool)
        ensures
            r == (self == SolveState::Clean),
    {
        matches!(self, SolveState::Clean)
    }

    /// Returns true if state is Plus2.
    pub fn is_plus2(self) -> (r: bool)
        ensures
            r == (self == SolveState::Plus2),
    {
        matches!(self, SolveState::Plus2)
    }

    /// Returns true if state is Dnf.
    pub fn is_dnf(self) -> (r: bool)
        ensures
            r == (self == SolveState::Dnf),
    {
        matches!(self, SolveState::Dnf)
    }
}

/// A cubing record.
#[derive(Debug, Clone)]
pub struct Record {
    pub solve_state: SolveState,
    pub time: Milliseconds,
    pub scramble: String,
    pub comment: String,
    pub date_time: i64,
}

impl Record {
    /// Creates a new `Record` from its fields.
    pub fn from(
        solve_state: SolveState,
        time: Milliseconds,
        scramble: String,
        comment: String,
        date_time: i64,
    ) -> (r: Record)
        ensures
            r.solve_state == solve_state,
            r.time == time,
            r.scramble == scramble,
            r.comment == comment,
            r.date_time == date_time,
    {
        Record { solve_state, time, scramble, comment, date_time }
    }

    /// The solve state of a `Record`.
    pub fn solve_state(&self) -> (r: SolveState)
        ensures
            r == self.solve_state,
    {
        self.solve_state
    }

    /// The time of a `Record`.
    pub fn time(&self) -> (r: Milliseconds)
        ensures
            r == self.time,
    {
        self.time
    }

    /// The scramble of a `Record`.
    pub fn scramble(&self) -> (r: &str)
        ensures
            r@ == self.scramble@,
    {
        self.scramble.as_str()
    }

    /// The comment of a `Record`.
    pub fn comment(&self) -> (r: &str)
        ensures
            r@ == self.comment@,
    {
        self.comment.as_str()
    }

    /// The date-time of a `Record`, in seconds since the Unix epoch.
    pub fn date_time(&self) -> (r: i64)
        ensures
            r == self.date_time,
    {
        self.date_time
    }
}

/// The solve state a raw state code denotes: 0 is a clean solve, 2000 a
/// two-second penalty, -1 a DNF; anything else is no record.
pub open spec fn raw_solve_state(code: int) -> Option<SolveState> {
    if code == 0 {
        Some(SolveState::Clean)
    } else if code == 2000 {
        Some(SolveState::Plus2)
    } else if code == -1 {
        Some(SolveState::Dnf)
    } else {
        None
    }
}

/// The state and duration a raw (state code, milliseconds) pair denotes: a
/// negative duration marks a DNF with the magnitude as its display time, and
/// a penalized solve carries its two seconds added in.
pub open spec fn raw_adjusted(st: SolveState, time_millis: int) -> (SolveState, int) {
    if time_millis < 0 {
        (SolveState::Dnf, -time_millis)
    } else if st == SolveState::Plus2 {
        (SolveState::Plus2, time_millis + 2000)
    } else {
        (st, time_millis)
    }
}

impl Record {
    /// Builds a `Record` from the raw values of one attempt in the external
    /// data source; `None` when the state code is unknown.
    pub fn from_raw(
        state_code: i64,
        time_millis: i64,
        scramble: String,
        comment: String,
        date_time: i64,
    ) -> (r: Option<Record>)
        requires
            i64::MIN < time_millis,
            time_millis + 2000 <= i64::MAX,
        ensures
            match raw_solve_state(state_code as int) {
                None => r is None,
                Some(st) => r matches Some(rec) && {
                    let (state, time) = raw_adjusted(st, time_millis as int);
                    &&& rec.solve_state == state
                    &&& rec.time == time as u32
                    &&& rec.scramble == scramble
                    &&& rec.comment == comment
                    &&& rec.date_time == date_time
                },
            },
    {
        let state = if state_code == 0 {
            SolveState::Clean
        } else if state_code == 2000 {
            SolveState::Plus2
        } else if state_code == -1 {
            SolveState::Dnf
        } else {
            return None;
        };
        let (state, time) = if time_millis < 0 {
            (SolveState::Dnf, -time_millis)
        } else if matches!(state, SolveState::Plus2) {
            (SolveState::Plus2, time_millis + 2000)
        } else {
            (state, time_millis)
        };
        #[verifier::truncate]
        let time = time as u32;
        Some(Record { solve_state: state, time, scramble, comment, date_time })
    }
}

} // verus!
