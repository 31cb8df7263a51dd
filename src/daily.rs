//! Today's official puzzle, kept in a cache that refreshes itself when the
//! day changes and falls back on what it has when the source fails.
//!
//! Fetching is left to the caller: the cache says what to do next, the
//! caller fetches and reports back, until the cache says it is ready.

use vstd::prelude::*;
use crate::date::Date;

verus! {

/// 2021-06-19, the day the game was launched, as a day number.
pub const LAUNCH_DAY: i32 = 737960;

/// How many times a refresh asks the source before it gives up.
pub const FETCH_ATTEMPTS: u32 = 2;

/// What the official source says of today's puzzle.
pub struct CurrentPuzzle {
    pub id: u32,
    pub days_since_launch: u32,
    /// The day this record is valid for.
    pub print_date: Date,
    /// The answer; never to be shown or logged.
    pub solution: String,
    pub editor: String,
}

/// Whether `p` is the record that the cache makes up for `today` when the
/// source cannot be reached: the day's number counted from the launch, and
/// no answer.
pub open spec fn is_calculated(p: CurrentPuzzle, today: Date) -> bool {
    &&& p.id == 0
    &&& p.days_since_launch == today.day - LAUNCH_DAY
    &&& p.print_date == today
    &&& p.solution@.len() == 0
    &&& p.editor@.len() == 0
}

impl CurrentPuzzle {
    /// The record for `today` made up without the source.
    pub fn from_calculated(today: Date) -> (r: CurrentPuzzle)
        requires
            LAUNCH_DAY <= today.day,
        ensures
            is_calculated(r, today),
    {
        let days = (today.day - LAUNCH_DAY) as u32;
        CurrentPuzzle {
            id: 0,
            days_since_launch: days,
            print_date: today,
            solution: String::new(),
            editor: String::new(),
        }
    }
}

/// What the caller of the cache does next.
#[derive(Clone, Copy, Debug, PartialEq, Eq, Structural)]
pub enum CacheStep {
    /// The cached record is the answer.
    Ready,
    /// Ask the source for today's record; `attempts_left` counts this one.
    Fetch { attempts_left: u32 },
}

/// The first step of a read: a fresh cached record is served as it is; a
/// forced read, an empty cache or a record of another day asks the source.
pub open spec fn begin_step(cached: Option<CurrentPuzzle>, force_refresh: bool, today: Date) -> CacheStep {
    if !force_refresh && cached is Some && cached.unwrap().print_date == today {
        CacheStep::Ready
    } else {
        CacheStep::Fetch { attempts_left: FETCH_ATTEMPTS }
    }
}

/// The step after a failed fetch: try again while attempts are left.
pub open spec fn failure_step(attempts_left: u32) -> CacheStep {
    if attempts_left > 1 {
        CacheStep::Fetch { attempts_left: (attempts_left - 1) as u32 }
    } else {
        CacheStep::Ready
    }
}

/// How a failed fetch changes the cached record: not at all while attempts
/// are left, nor once they are spent if there is a record to serve, stale as
/// it may be; an empty cache then takes the calculated record.
pub open spec fn after_failure(
    cached: Option<CurrentPuzzle>,
    attempts_left: u32,
    today: Date,
    next: Option<CurrentPuzzle>,
) -> bool {
    if attempts_left > 1 || cached is Some {
        next == cached
    } else {
        next is Some && is_calculated(next.unwrap(), today)
    }
}

/// The process-wide record of today's puzzle.
pub struct DailyPuzzleCache {
    current: Option<CurrentPuzzle>,
}

impl DailyPuzzleCache {
    /// The cached record, if any.
    pub closed spec fn cached(&self) -> Option<CurrentPuzzle> {
        self.current
    }

    /// An empty cache.
    pub fn new() -> (r: DailyPuzzleCache)
        ensures
            r.cached() is None,
    {
        DailyPuzzleCache { current: None }
    }

    /// The cached record, if any.
    pub fn current(&self) -> (r: Option<&CurrentPuzzle>)
        ensures
            match r {
                Some(p) => self.cached() == Some(*p),
                None => self.cached() is None,
            },
    {
        match &self.current {
            Some(p) => Some(p),
            None => None,
        }
    }

    /// Starts a read of today's record.
    pub fn begin(&self, force_refresh: bool, today: Date) -> (r: CacheStep)
        ensures
            r == begin_step(self.cached(), force_refresh, today),
    {
        match &self.current {
            Some(p) => {
                if !force_refresh && p.print_date.same_day(today) {
                    CacheStep::Ready
                } else {
                    CacheStep::Fetch { attempts_left: FETCH_ATTEMPTS }
                }
            },
            None => CacheStep::Fetch { attempts_left: FETCH_ATTEMPTS },
        }
    }

    /// Takes the record that a fetch returned; the read is then done.
    pub fn fetched(&mut self, puzzle: CurrentPuzzle)
        ensures
            final(self).cached() == Some(puzzle),
    {
        self.current = Some(puzzle);
    }

    /// Notes that a fetch failed, and says what to do next.
    pub fn fetch_failed(&mut self, attempts_left: u32, today: Date) -> (r: CacheStep)
        requires
            attempts_left >= 1,
            attempts_left == 1 && old(self).cached() is None ==> LAUNCH_DAY <= today.day,
        ensures
            r == failure_step(attempts_left),
            after_failure(old(self).cached(), attempts_left, today, final(self).cached()),
    {
        if attempts_left > 1 {
            return CacheStep::Fetch { attempts_left: attempts_left - 1 };
        }
        if self.current.is_none() {
            self.current = Some(CurrentPuzzle::from_calculated(today));
        }
        CacheStep::Ready
    }
}

/// A forced read whose every fetch fails asks the source twice, then serves
/// the record the cache held, unchanged, or, where it held none, the record
/// calculated for today.
pub proof fn lemma_exhausted_refresh(
    cached: Option<CurrentPuzzle>,
    today: Date,
    after_first: Option<CurrentPuzzle>,
    after_second: Option<CurrentPuzzle>,
)
    requires
        after_failure(cached, FETCH_ATTEMPTS, today, after_first),
        after_failure(after_first, 1, today, after_second),
    ensures
        begin_step(cached, true, today) == (CacheStep::Fetch { attempts_left: FETCH_ATTEMPTS }),
        failure_step(FETCH_ATTEMPTS) == (CacheStep::Fetch { attempts_left: 1 }),
        failure_step(1) == CacheStep::Ready,
        cached is Some ==> after_second == cached,
        cached is None ==> after_second is Some && is_calculated(after_second.unwrap(), today),
{
}

} // verus!
