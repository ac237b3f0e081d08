//! How often the server may be asked: a number of requests within a span, and a
//! pause that grows each time it asks for one.

use vstd::prelude::*;

use std::collections::VecDeque;

verus! {

/// The requests there may be within a minute without an account.
pub const RATE_LIMIT: usize = 45;

pub const RATE_SPAN: u64 = 60_000_000_000;

/// The requests of the last span, and the pause that was asked for. Times are in
/// nanoseconds.
#[derive(Debug)]
pub struct RateBudget {
    window: VecDeque<u64>,
    limit: usize,
    span: u64,
    backoff_until: Option<u64>,
    strikes: u32,
}

#[verifier::ext_equal]
pub struct BudgetView {
    pub window: Seq<u64>,
    pub limit: nat,
    pub span: u64,
    pub backoff_until: Option<u64>,
    pub strikes: u32,
}

impl BudgetView {
    pub open spec fn wf(self) -> bool {
        self.limit >= 1 && self.strikes <= 6
    }
}

impl View for RateBudget {
    type V = BudgetView;

    closed spec fn view(&self) -> BudgetView {
        BudgetView {
            window: self.window@,
            limit: self.limit as nat,
            span: self.span,
            backoff_until: self.backoff_until,
            strikes: self.strikes,
        }
    }
}

/// A budget that nothing has been taken from.
pub open spec fn fresh(limit: nat, span: u64) -> BudgetView {
    BudgetView { window: Seq::empty(), limit, span, backoff_until: None, strikes: 0 }
}

/// The budget of a request without an account.
pub open spec fn standard() -> BudgetView {
    fresh(RATE_LIMIT as nat, RATE_SPAN)
}

/// How much later one time is than another; nothing where it is earlier.
pub open spec fn since(later: u64, earlier: u64) -> int {
    if later >= earlier {
        later - earlier
    } else {
        0
    }
}

/// The requests that still count: those at the front that are a span old do not.
pub open spec fn live(window: Seq<u64>, now: u64, span: u64) -> Seq<u64>
    decreases window.len(),
{
    if window.len() > 0 && since(now, window[0]) >= span {
        live(window.skip(1), now, span)
    } else {
        window
    }
}

/// The longest wait that can be told.
pub open spec fn capped(n: int) -> int {
    if n > u64::MAX {
        u64::MAX as int
    } else {
        n
    }
}

/// The wait for a place in the window.
pub open spec fn window_wait(window: Seq<u64>, limit: nat, span: u64, now: u64) -> int {
    if window.len() < limit || window.len() == 0 {
        0
    } else if window[0] + span >= now {
        capped(window[0] + span - now)
    } else {
        0
    }
}

/// The wait that the server asked for.
pub open spec fn backoff_wait(until: Option<u64>, now: u64) -> int {
    match until {
        Some(t) => since(t, now),
        None => 0,
    }
}

pub open spec fn greater(a: int, b: int) -> int {
    if a >= b {
        a
    } else {
        b
    }
}

/// The budget with what no longer counts dropped, and the wait before the next
/// request.
pub open spec fn waited(b: BudgetView, now: u64) -> (BudgetView, u64) {
    let window = live(b.window, now, b.span);
    (
        BudgetView { window, ..b },
        greater(
            window_wait(window, b.limit, b.span, now),
            backoff_wait(b.backoff_until, now),
        ) as u64,
    )
}

pub open spec fn recorded(b: BudgetView, now: u64) -> BudgetView {
    BudgetView { window: b.window.push(now), ..b }
}

pub open spec fn succeeded(b: BudgetView) -> BudgetView {
    BudgetView { backoff_until: None, strikes: 0, ..b }
}

/// The seconds of a pause: two, doubled each time, and a minute at most.
pub open spec fn pause_secs(strikes: u32) -> int {
    if strikes <= 1 {
        2
    } else if strikes == 2 {
        4
    } else if strikes == 3 {
        8
    } else if strikes == 4 {
        16
    } else if strikes == 5 {
        32
    } else {
        60
    }
}

pub open spec fn throttled(b: BudgetView, now: u64) -> BudgetView {
    let strikes: u32 = if b.strikes >= 6 {
        6
    } else {
        (b.strikes + 1) as u32
    };
    BudgetView {
        strikes,
        backoff_until: Some((now + pause_secs(strikes) * 1_000_000_000) as u64),
        ..b
    }
}

impl Default for RateBudget {
    fn default() -> (r: Self)
        ensures
            r@ == standard(),
    {
        RateBudget::new(RATE_LIMIT, RATE_SPAN)
    }
}

impl RateBudget {
    pub fn new(limit: usize, span: u64) -> (r: Self)
        ensures
            r@ == fresh(limit as nat, span),
    {
        RateBudget { window: VecDeque::new(), limit, span, backoff_until: None, strikes: 0 }
    }

    /// How long the next request must wait to stay within the budget.
    pub fn delay(&mut self, now: u64) -> (r: u64)
        requires
            old(self)@.limit >= 1,
        ensures
            (final(self)@, r) == waited(old(self)@, now),
    {
        let ghost was = self@;
        while self.window.len() > 0 && now >= self.window[0] && now - self.window[0] >= self.span
            || self.window.len() > 0 && self.span == 0
            invariant
                self@ == (BudgetView { window: self.window@, ..was }),
                live(was.window, now, was.span) == live(self.window@, now, was.span),
            decreases self.window@.len(),
        {
            let ghost before = self.window@;
            let _ = self.window.pop_front();
            assert(self.window@ == before.skip(1));
        }
        assert(live(self.window@, now, was.span) == self.window@);
        let window_wait: u64 = if self.window.len() < self.limit {
            0
        } else {
            let front = self.window[0];
            if front >= now {
                let ahead: u64 = front - now;
                if self.span > u64::MAX - ahead {
                    u64::MAX
                } else {
                    ahead + self.span
                }
            } else if now - front <= self.span {
                self.span - (now - front)
            } else {
                0
            }
        };
        let backoff_wait: u64 = match self.backoff_until {
            Some(t) => if t >= now {
                t - now
            } else {
                0
            },
            None => 0,
        };
        if window_wait >= backoff_wait {
            window_wait
        } else {
            backoff_wait
        }
    }

    /// Books a request that goes out now.
    pub fn record(&mut self, now: u64)
        ensures
            final(self)@ == recorded(old(self)@, now),
    {
        self.window.push_back(now);
    }

    /// An answer was fine: the pause is forgotten.
    pub fn success(&mut self)
        ensures
            final(self)@ == succeeded(old(self)@),
    {
        self.strikes = 0;
        self.backoff_until = None;
    }

    /// The server asked for a pause.
    pub fn throttled(&mut self, now: u64)
        requires
            old(self)@.strikes <= 6,
            now + 60_000_000_000 <= u64::MAX,
        ensures
            final(self)@ == throttled(old(self)@, now),
    {
        self.strikes = if self.strikes >= 6 {
            6
        } else {
            self.strikes + 1
        };
        let secs: u64 = if self.strikes <= 1 {
            2
        } else if self.strikes == 2 {
            4
        } else if self.strikes == 3 {
            8
        } else if self.strikes == 4 {
            16
        } else if self.strikes == 5 {
            32
        } else {
            60
        };
        self.backoff_until = Some(now + secs * 1_000_000_000);
    }
}

} // verus!
