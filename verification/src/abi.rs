//! The plugin's side of the library interface: what a plugin checks and computes around its calls
//! of the host.

use crate::so::PLUGIN_API_VERSION;
use crate::text::concat3;
use vstd::prelude::*;

verus! {

/// The version that a plugin reports.
pub fn plugin_api_version() -> (r: u32)
    ensures
        r == PLUGIN_API_VERSION,
{
    PLUGIN_API_VERSION
}

/// Whether a plugin instance can be created for a host of this version, where there is a host.
pub fn plugin_create(host_version: Option<u32>) -> (r: bool)
    ensures
        r == (host_version == Some(PLUGIN_API_VERSION)),
{
    match host_version {
        Some(version) => version == PLUGIN_API_VERSION,
        None => false,
    }
}

/// The metadata of a plugin that says nothing of itself.
pub fn plugin_meta() -> (r: String)
    ensures
        r@
            == "{\"name\":\"cordis-sdk\",\"version\":\"0.1.0\",\"inject\":[],\"provide\":[]}"@,
{
    "{\"name\":\"cordis-sdk\",\"version\":\"0.1.0\",\"inject\":[],\"provide\":[]}".to_owned()
}

/// What asking for the result of a spawned task comes to.
pub enum Received<T> {
    /// The task has not ended yet.
    Pending,
    /// The task ended with this.
    Value(T),
    /// The task was dropped.
    Dropped,
}

/// A task spawned on the host, whose result is waited for.
pub struct Spawned {
    /// Whether the result has not been handed out yet.
    pub waiting: bool,
}

impl Spawned {
    /// A task whose result is to come.
    pub fn new() -> (r: Spawned)
        ensures
            r.waiting,
    {
        Spawned { waiting: true }
    }

    /// Asks for the result, which is handed out once.
    pub fn poll<T>(&mut self, received: Received<T>) -> (r: Option<Result<T, String>>)
        ensures
            if !old(self).waiting {
                !final(self).waiting && r is Some && r->0 is Err && r->0->Err_0@
                    == "task has already been awaited"@
            } else {
                match received {
                    Received::Pending => final(self).waiting && r is None,
                    Received::Value(value) => !final(self).waiting && r == Some(
                        Ok::<T, String>(value),
                    ),
                    Received::Dropped => !final(self).waiting && r is Some && r->0 is Err
                        && r->0->Err_0@ == "task was cancelled"@,
                }
            },
            poll_view(r) == handed_out(old(self).waiting, received),
            final(self).waiting == still_waits(old(self).waiting, received),
    {
        if !self.waiting {
            return Some(Err("task has already been awaited".to_owned()));
        }
        match received {
            Received::Pending => None,
            Received::Value(value) => {
                self.waiting = false;
                Some(Ok(value))
            },
            Received::Dropped => {
                self.waiting = false;
                Some(Err("task was cancelled".to_owned()))
            },
        }
    }
}

/// A number of milliseconds that the host takes; longer sleeps are cut.
pub fn sleep_millis(millis: u128) -> (r: u64)
    ensures
        r == (if millis <= u64::MAX {
            millis as u64
        } else {
            u64::MAX
        }),
{
    if millis <= u64::MAX as u128 {
        millis as u64
    } else {
        u64::MAX
    }
}

/// One look at a future and the timer that limits it. The future wins where both are ready.
pub fn timeout<T>(output: Option<T>, elapsed: bool) -> (r: Option<Result<T, ()>>)
    ensures
        r == (match output {
            Some(value) => Some(Ok::<T, ()>(value)),
            None => if elapsed {
                Some(Err::<T, ()>(()))
            } else {
                None
            },
        }),
{
    match output {
        Some(value) => Some(Ok(value)),
        None => {
            if elapsed {
                Some(Err(()))
            } else {
                None
            }
        },
    }
}

/// A periodic timer. Times are counted in a fixed unit from a fixed start.
#[derive(PartialEq, Eq, Structural, Clone, Copy)]
pub struct Interval {
    pub period: u64,
    pub deadline: Option<u64>,
}

/// When the next tick is due, seen from `now`.
pub open spec fn due(interval: Interval, now: u64) -> int {
    match interval.deadline {
        Some(deadline) => deadline as int,
        None => now + interval.period,
    }
}

/// An interval after a tick at `now`.
pub open spec fn ticked_once(interval: Interval, now: u64) -> Interval {
    Interval { deadline: Some((due(interval, now) + interval.period) as u64), ..interval }
}

/// How long to wait for the next tick, seen from `now`.
pub open spec fn wait_of(interval: Interval, now: u64) -> int {
    if due(interval, now) > now {
        due(interval, now) - now
    } else {
        0
    }
}

impl Interval {
    /// An interval whose first tick is due after `period`.
    pub fn new(period: u64) -> (r: Interval)
        ensures
            r == (Interval { period, deadline: None }),
    {
        Interval { period, deadline: None }
    }

    /// How long to wait for the next tick; the one after it is due a period later.
    pub fn tick(&mut self, now: u64) -> (r: u64)
        requires
            due(*old(self), now) + old(self).period <= u64::MAX,
        ensures
            r == (if due(*old(self), now) > now {
                due(*old(self), now) - now
            } else {
                0
            }),
            final(self).period == old(self).period,
            final(self).deadline == Some((due(*old(self), now) + old(self).period) as u64),
            *final(self) == ticked_once(*old(self), now),
            r == wait_of(*old(self), now),
    {
        let deadline: u64 = match self.deadline {
            Some(deadline) => deadline,
            None => now + self.period,
        };
        self.deadline = Some(deadline + self.period);
        if deadline > now {
            deadline - now
        } else {
            0
        }
    }
}

/// An interval after its ticks at these times.
pub open spec fn ticked(period: u64, times: Seq<u64>) -> Interval
    decreases times.len(),
{
    if times.len() == 0 {
        Interval { period, deadline: None }
    } else {
        ticked_once(ticked(period, times.drop_last()), times.last())
    }
}

/// Ticks do not drift: however late they are taken, each is due a period after the one before it,
/// counted from the first.
pub proof fn ticks_do_not_drift(period: u64, times: Seq<u64>)
    requires
        times.len() > 0,
        times[0] + period * (times.len() + 1) <= u64::MAX,
    ensures
        ticked(period, times).deadline == Some((times[0] + period * (times.len() + 1)) as u64),
        ticked(period, times).period == period,
    decreases times.len(),
{
    let front = times.drop_last();
    if times.len() == 1 {
        assert(ticked(period, front).deadline is None);
        assert(times.last() == times[0]);
        assert(period * 2 == period + period) by (nonlinear_arith);
    } else {
        assert(period * (times.len() + 1) == period * times.len() + period) by (nonlinear_arith);
        assert(front[0] == times[0]);
        ticks_do_not_drift(period, front);
    }
}

/// The first tick comes a period after it is asked for. Any other is waited for until its deadline,
/// and not at all once that is past.
pub proof fn ticks_are_waited_for(interval: Interval, now: u64)
    ensures
        interval.deadline is None ==> wait_of(interval, now) == interval.period,
        interval.deadline matches Some(deadline) ==> {
            &&& now <= deadline ==> now + wait_of(interval, now) == deadline
            &&& now > deadline ==> wait_of(interval, now) == 0
        },
{
}

/// A result that was asked for, with the error as a text.
pub open spec fn poll_view<T>(r: Option<Result<T, String>>) -> Option<Result<T, Seq<char>>> {
    match r {
        Some(Ok(value)) => Some(Ok(value)),
        Some(Err(message)) => Some(Err(message@)),
        None => None,
    }
}

/// What a task hands out when it is asked.
pub open spec fn handed_out<T>(waiting: bool, received: Received<T>) -> Option<
    Result<T, Seq<char>>,
> {
    if !waiting {
        Some(Err("task has already been awaited"@))
    } else {
        match received {
            Received::Pending => None,
            Received::Value(value) => Some(Ok(value)),
            Received::Dropped => Some(Err("task was cancelled"@)),
        }
    }
}

/// Whether a task still has its result after it was asked.
pub open spec fn still_waits<T>(waiting: bool, received: Received<T>) -> bool {
    waiting && received is Pending
}

/// A result is handed out once: as long as there is none the task waits on; then comes the value, or
/// an error where the task was dropped; and whoever asks again gets an error.
pub proof fn results_are_handed_out_once<T>(received: Received<T>, later: Received<T>)
    ensures
        received is Pending ==> handed_out(true, received) is None && still_waits(true, received),
        received matches Received::Value(value) ==> handed_out(true, received) == Some(
            Ok::<T, Seq<char>>(value),
        ),
        received is Dropped ==> handed_out(true, received) == Some(
            Err::<T, Seq<char>>("task was cancelled"@),
        ),
        handed_out(true, received) is Some ==> {
            let waiting = still_waits(true, received);
            &&& !waiting
            &&& handed_out(waiting, later) == Some(
                Err::<T, Seq<char>>("task has already been awaited"@),
            )
            &&& !still_waits(waiting, later)
        },
{
}

/// What became of a request of a plugin, from whether the host took it; `what` names the request
/// and `notation` what it was about.
pub fn request_outcome(taken: bool, what: &str, notation: &str) -> (r: Result<(), String>)
    ensures
        match r {
            Ok(_) => taken,
            Err(message) => !taken && message@ == "host rejected "@ + what@ + "("@ + notation@
                + ")"@,
        },
{
    if taken {
        Ok(())
    } else {
        let mut message = concat3("host rejected ", what, "(");
        message.append(notation);
        message.append(")");
        Err(message)
    }
}

} // verus!
