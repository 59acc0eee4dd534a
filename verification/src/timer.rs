//! Throttled and debounced callbacks: which calls run, and when.
//!
//! Points in time are counted in nanoseconds from a fixed start, delays in milliseconds.

use vstd::prelude::*;

verus! {

/// The timer service.
pub struct TimerService;

/// A delay in nanoseconds.
pub open spec fn nanos(delay: u64) -> int {
    delay * 1_000_000
}

/// The delay in nanoseconds.
fn delay_nanos(delay: u64) -> (r: u128)
    ensures
        r == nanos(delay),
{
    (delay as u128) * 1_000_000
}

/// A throttled callback.
#[derive(PartialEq, Eq, Structural, Clone, Copy)]
pub struct Throttle {
    /// The length of the window.
    pub delay: u64,
    /// Whether calls within the window are dropped.
    pub no_trailing: bool,
    /// When the callback ran last.
    pub last: Option<u128>,
    /// Whether a run at the end of the window is scheduled.
    pub pending: bool,
    /// Whether the owner is gone.
    pub disposed: bool,
}

/// What a call comes to.
#[derive(PartialEq, Eq, Structural, Clone, Copy)]
pub enum ThrottleCall {
    /// The callback runs now.
    Run,
    /// The callback runs at this time.
    Schedule(u128),
    /// The call is dropped.
    Skip,
}

impl Throttle {
    /// Whether the window since the last run is over.
    pub open spec fn is_open(self, now: u128) -> bool {
        match self.last {
            Some(last) => now >= last && now - last >= nanos(self.delay) || nanos(self.delay) == 0,
            None => true,
        }
    }

    /// Whether a call within the window is made up for at its end.
    pub open spec fn trails(self) -> bool {
        !self.disposed && !self.no_trailing && !self.pending
    }
}

/// What a call at `now` comes to.
pub open spec fn throttle_call(throttle: Throttle, now: u128) -> ThrottleCall {
    if throttle.is_open(now) {
        ThrottleCall::Run
    } else if throttle.trails() {
        ThrottleCall::Schedule((throttle.last->0 + nanos(throttle.delay)) as u128)
    } else {
        ThrottleCall::Skip
    }
}

/// A throttled callback after a call at `now`.
pub open spec fn throttle_called(throttle: Throttle, now: u128) -> Throttle {
    if throttle.is_open(now) {
        Throttle { last: Some(now), pending: false, ..throttle }
    } else if throttle.trails() {
        Throttle { pending: true, ..throttle }
    } else {
        throttle
    }
}

/// A throttled callback after its scheduled time has come, at `now`.
pub open spec fn throttle_fired(throttle: Throttle, now: u128) -> Throttle {
    if throttle.disposed {
        throttle
    } else {
        Throttle { last: Some(now), pending: false, ..throttle }
    }
}

/// A debounced callback.
#[derive(PartialEq, Eq, Structural, Clone, Copy)]
pub struct Debounce {
    /// How long the timer of a call runs.
    pub delay: u64,
    /// The number of the last call.
    pub generation: u64,
    /// Whether the owner is gone.
    pub disposed: bool,
}

impl Debounce {
    /// A callback that was not called yet.
    pub fn new(delay: u64) -> (r: Debounce)
        ensures
            r == (Debounce { delay, generation: 0, disposed: false }),
    {
        Debounce { delay, generation: 0, disposed: false }
    }

    /// Notes a call; gives its number, with which the timer is started, unless the owner is gone.
    pub fn call(&mut self) -> (r: Option<u64>)
        requires
            old(self).generation < u64::MAX,
        ensures
            r == debounce_number(*old(self)),
            *final(self) == debounce_called(*old(self)),
    {
        if self.disposed {
            return None;
        }
        self.generation = self.generation + 1;
        Some(self.generation)
    }

    /// Whether the callback runs when the timer of the call with this number ends.
    pub fn fires(&self, number: u64) -> (r: bool)
        ensures
            r == debounce_fires(*self, number),
    {
        !self.disposed && self.generation == number
    }

    /// Notes that the owner is gone.
    pub fn dispose(&mut self)
        ensures
            *final(self) == (Debounce { disposed: true, ..*old(self) }),
    {
        self.disposed = true;
    }
}

/// The number of a call, none where the owner is gone.
pub open spec fn debounce_number(debounce: Debounce) -> Option<u64> {
    if debounce.disposed {
        None
    } else {
        Some((debounce.generation + 1) as u64)
    }
}

/// A debounced callback after a call.
pub open spec fn debounce_called(debounce: Debounce) -> Debounce {
    if debounce.disposed {
        debounce
    } else {
        Debounce { generation: (debounce.generation + 1) as u64, ..debounce }
    }
}

/// Whether the callback runs when the timer of the call with this number ends.
pub open spec fn debounce_fires(debounce: Debounce, number: u64) -> bool {
    !debounce.disposed && debounce.generation == number
}

/// A debounced callback after `n` calls.
pub open spec fn called(debounce: Debounce, n: nat) -> Debounce
    decreases n,
{
    if n == 0 {
        debounce
    } else {
        debounce_called(called(debounce, (n - 1) as nat))
    }
}

proof fn lemma_called(debounce: Debounce, n: nat)
    requires
        debounce.generation + n <= u64::MAX,
        !debounce.disposed,
    ensures
        called(debounce, n) == (Debounce {
            generation: (debounce.generation + n) as u64,
            ..debounce
        }),
    decreases n,
{
    if n > 0 {
        lemma_called(debounce, (n - 1) as nat);
    }
}

/// Of consecutive calls only the last one runs the callback: every call resets the timer. Once the
/// owner is gone none does.
pub proof fn only_the_last_call_fires(debounce: Debounce, n: nat, i: nat)
    requires
        1 <= i <= n,
        debounce.generation + n <= u64::MAX,
        !debounce.disposed,
    ensures
        ({
            let number = debounce_number(called(debounce, (i - 1) as nat));
            &&& number is Some
            &&& debounce_fires(called(debounce, n), number->0) <==> i == n
            &&& !debounce_fires(Debounce { disposed: true, ..called(debounce, n) }, number->0)
        }),
        called(debounce, n).delay == debounce.delay,
{
    lemma_called(debounce, n);
    lemma_called(debounce, (i - 1) as nat);
}

/// A call after the owner is gone starts no timer and changes nothing.
pub proof fn disposed_debounce_is_silent(debounce: Debounce, number: u64)
    requires
        debounce.disposed,
    ensures
        debounce_number(debounce) is None,
        debounce_called(debounce) == debounce,
        !debounce_fires(debounce, number),
{
}

impl TimerService {
    /// A throttled callback that was not called yet.
    pub fn throttle(delay: u64, no_trailing: bool) -> (r: Throttle)
        ensures
            r == (Throttle { delay, no_trailing, last: None, pending: false, disposed: false }),
    {
        Throttle { delay, no_trailing, last: None, pending: false, disposed: false }
    }

    /// A debounced callback that was not called yet; the timer of each call runs for `delay`.
    pub fn debounce(delay: u64) -> (r: Debounce)
        ensures
            r == (Debounce { delay, generation: 0, disposed: false }),
    {
        Debounce::new(delay)
    }
}

impl Throttle {
    /// Notes a call at `now`.
    pub fn call(&mut self, now: u128) -> (r: ThrottleCall)
        requires
            old(self).last matches Some(last) ==> last + nanos(old(self).delay) <= u128::MAX,
        ensures
            r == throttle_call(*old(self), now),
            *final(self) == throttle_called(*old(self), now),
            r is Run <==> (old(self).last matches Some(last) ==> now - last >= old(self).delay
                * 1_000_000 || old(self).delay == 0),
    {
        let delay = delay_nanos(self.delay);
        let open = match self.last {
            Some(last) => {
                let elapsed: u128 = if now >= last {
                    now - last
                } else {
                    0
                };
                elapsed >= delay
            },
            None => true,
        };
        if open {
            self.last = Some(now);
            self.pending = false;
            return ThrottleCall::Run;
        }
        if !self.disposed && !self.no_trailing && !self.pending {
            self.pending = true;
            if let Some(last) = self.last {
                return ThrottleCall::Schedule(last + delay);
            }
        }
        ThrottleCall::Skip
    }

    /// Notes that the scheduled time has come, at `now`; says whether the callback runs.
    pub fn fire(&mut self, now: u128) -> (r: bool)
        ensures
            r == !old(self).disposed,
            *final(self) == throttle_fired(*old(self), now),
    {
        if self.disposed {
            return false;
        }
        self.last = Some(now);
        self.pending = false;
        true
    }

    /// Notes that the owner is gone.
    pub fn dispose(&mut self)
        ensures
            *final(self) == (Throttle { disposed: true, ..*old(self) }),
    {
        self.disposed = true;
    }
}

/// A call runs the callback exactly when it never ran before or the delay has gone by since it ran
/// last, however the callback is otherwise set up. Within the window it is put off or dropped.
pub proof fn throttle_runs_after_the_window(throttle: Throttle, now: u128)
    ensures
        throttle.last is None ==> throttle_call(throttle, now) is Run,
        throttle.last matches Some(last) ==> {
            &&& now - last >= throttle.delay * 1_000_000 ==> throttle_call(throttle, now) is Run
            &&& now - last < throttle.delay * 1_000_000 && throttle.delay > 0 ==> !(throttle_call(
                throttle,
                now,
            ) is Run)
        },
        throttle.delay == 0 ==> throttle_call(throttle, now) is Run,
{
}

/// A call that does not run is put off to the end of the window when trailing calls are wanted, the
/// owner is there and none is put off yet. Otherwise it is dropped.
pub proof fn throttle_puts_off_one_call(throttle: Throttle, now: u128)
    requires
        !(throttle_call(throttle, now) is Run),
        throttle.last matches Some(last) ==> last + throttle.delay * 1_000_000 <= u128::MAX,
    ensures
        throttle.last is Some,
        match throttle_call(throttle, now) {
            ThrottleCall::Schedule(at) => !throttle.no_trailing && !throttle.disposed
                && !throttle.pending && at == throttle.last->0 + throttle.delay * 1_000_000 && at
                > now,
            ThrottleCall::Skip => throttle.no_trailing || throttle.disposed || throttle.pending,
            ThrottleCall::Run => false,
        },
{
}

/// A run is remembered as the last one and clears what was put off. A call that is put off is
/// remembered as such; one that is dropped leaves no trace. The delay, the choice of trailing calls
/// and the owner stay what they were.
pub proof fn throttle_remembers(throttle: Throttle, now: u128)
    ensures
        ({
            let after = throttle_called(throttle, now);
            &&& after.delay == throttle.delay
            &&& after.no_trailing == throttle.no_trailing
            &&& after.disposed == throttle.disposed
            &&& match throttle_call(throttle, now) {
                ThrottleCall::Run => after.last == Some(now) && !after.pending,
                ThrottleCall::Schedule(_) => after.last == throttle.last && after.pending,
                ThrottleCall::Skip => after == throttle,
            }
        }),
        ({
            let after = throttle_fired(throttle, now);
            &&& after.delay == throttle.delay
            &&& after.no_trailing == throttle.no_trailing
            &&& after.disposed == throttle.disposed
            &&& !throttle.disposed ==> after.last == Some(now) && !after.pending
            &&& throttle.disposed ==> after == throttle
        }),
{
}

/// Two runs of one callback lie at least the delay apart, and the next call after the delay runs.
pub proof fn throttled_runs_keep_their_distance(throttle: Throttle, first: u128, second: u128)
    requires
        throttle_call(throttle, first) is Run,
        first <= second,
    ensures
        throttle_call(throttle_called(throttle, first), second) is Run <==> second - first
            >= throttle.delay * 1_000_000,
{
}

/// A call within the window of a run is put off to the end of the window and, when that comes, the
/// window starts anew. Further calls in the meantime are dropped.
pub proof fn throttle_trails_once(throttle: Throttle, run: u128, second: u128, third: u128)
    requires
        throttle_call(throttle, run) is Run,
        !throttle.no_trailing,
        !throttle.disposed,
        run <= second,
        second <= third,
        third - run < throttle.delay * 1_000_000,
        run + throttle.delay * 1_000_000 <= u128::MAX,
    ensures
        ({
            let end = (run + throttle.delay * 1_000_000) as u128;
            let running = throttle_called(throttle, run);
            let waiting = throttle_called(running, second);
            &&& throttle_call(running, second) == ThrottleCall::Schedule(end)
            &&& throttle_call(waiting, third) is Skip
            &&& throttle_fired(throttle_called(waiting, third), end) == (Throttle {
                last: Some(end),
                pending: false,
                ..throttle
            })
        }),
{
}

/// The timers that were started for an owner, by number, and whether it is gone.
pub struct TimerTracker {
    pub handles: Vec<u64>,
    pub disposed: bool,
}

impl TimerTracker {
    /// No timer was started.
    pub fn new() -> (r: TimerTracker)
        ensures
            r.handles@ == Seq::<u64>::empty(),
            !r.disposed,
    {
        TimerTracker { handles: Vec::new(), disposed: false }
    }

    /// Notes a timer.
    pub fn track(&mut self, handle: u64)
        ensures
            final(self).handles@ == old(self).handles@.push(handle),
            final(self).disposed == old(self).disposed,
    {
        self.handles.push(handle);
    }

    /// Notes that the owner is gone; the timers noted are to be stopped.
    pub fn dispose(&mut self) -> (r: &Vec<u64>)
        ensures
            r@ == old(self).handles@,
            final(self).handles@ == old(self).handles@,
            final(self).disposed,
    {
        self.disposed = true;
        &self.handles
    }
}

} // verus!
