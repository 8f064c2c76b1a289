//! A deterministic logical clock with named timers.
//!
//! The clock holds a current time in nanoseconds and a table of named timers:
//! periodic ones fire every `interval_ns`, one-shot time alerts fire once.
//! Advancing the clock yields every event that falls in the advanced window,
//! ordered by fire time with ties broken by timer registration order. The
//! caller advances time explicitly, so event generation is pure; a live
//! embedding drives the same table from an operating-system clock.
//!
//! Handlers are identified by opaque `u64` handles: the embedding maps each
//! handle to a callable. A timer registered without its own handle falls back
//! to the clock's default handler.

use vstd::prelude::*;

verus! {

/// A scheduled firing: the timer's name, the time it fired for, and the
/// handle of the handler to invoke.
#[derive(Debug)]
pub struct TimeEvent {
    pub name: String,
    pub ts_event: u64,
    pub callback: u64,
}

/// A named timer. `interval_ns == 0` marks a one-shot time alert; a periodic
/// timer next fires at `next_time_ns` and then every `interval_ns`, never
/// past `stop_time_ns` when that is set.
#[derive(Debug)]
pub struct Timer {
    pub name: String,
    pub interval_ns: u64,
    pub next_time_ns: u64,
    pub stop_time_ns: Option<u64>,
    pub callback: Option<u64>,
}

/// A configuration error surfaced at registration time.
#[derive(Clone, Copy, Debug, PartialEq, Eq, Structural)]
pub enum ClockError {
    /// A periodic timer needs a positive interval.
    InvalidInterval,
    /// The stop time falls before the first firing: the timer would never fire.
    InvalidStop,
    /// The timer has no handler and no default handler is registered.
    MissingCallback,
}

/// The handler handle an event resolves to: the timer's own, or the default.
pub open spec fn resolve_cb(cb: Option<u64>, default_cb: Option<u64>) -> u64 {
    match cb {
        Some(c) => c,
        None => match default_cb {
            Some(d) => d,
            None => 0,
        },
    }
}

/// The timers of `ts` whose name is not `n`, in order.
pub open spec fn remove_named(ts: Seq<Timer>, n: Seq<char>) -> Seq<Timer>
    decreases ts.len(),
{
    if ts.len() == 0 {
        ts
    } else {
        let rest = remove_named(ts.drop_last(), n);
        if ts.last().name@ == n {
            rest
        } else {
            rest.push(ts.last())
        }
    }
}

/// The next fire time of the first timer of `ts` named `n`, or `0` when no
/// timer has that name.
pub open spec fn named_next(ts: Seq<Timer>, n: Seq<char>) -> u64
    decreases ts.len(),
{
    if ts.len() == 0 {
        0
    } else if ts[0].name@ == n {
        ts[0].next_time_ns
    } else {
        named_next(ts.drop_first(), n)
    }
}

/// The deterministic clock: time advances only when the caller says so.
pub struct TestClock {
    time_ns: u64,
    timers: Vec<Timer>,
    default_callback: Option<u64>,
}

impl TestClock {
    /// The current time, nanoseconds since the epoch.
    pub closed spec fn spec_time_ns(&self) -> u64 {
        self.time_ns
    }

    /// The registered timers, in registration order.
    pub closed spec fn spec_timers(&self) -> Seq<Timer> {
        self.timers@
    }

    /// The default handler handle, if one is registered.
    pub closed spec fn spec_default_callback(&self) -> Option<u64> {
        self.default_callback
    }

    /// Well-formedness: timer names are unique, and every timer can resolve a
    /// handler (its own, or the default).
    pub closed spec fn wf(&self) -> bool {
        &&& forall|i: int, j: int|
            0 <= i < j < self.timers@.len() ==> (#[trigger] self.timers@[i]).name@ != (
            #[trigger] self.timers@[j]).name@
        &&& forall|i: int|
            0 <= i < self.timers@.len() ==> (#[trigger] self.timers@[i]).callback is Some
                || self.default_callback is Some
    }

    /// Creates a clock at time zero with no timers and no default handler.
    pub fn new() -> (r: TestClock)
        ensures
            r.wf(),
            r.spec_time_ns() == 0,
            r.spec_timers() == Seq::<Timer>::empty(),
            r.spec_default_callback() is None,
    {
        let r = TestClock { time_ns: 0, timers: Vec::new(), default_callback: None };
        proof {
            assert(r.spec_timers() =~= Seq::<Timer>::empty());
        }
        r
    }

    /// Sets the current time; timers are untouched.
    pub fn set_time(&mut self, to_time_ns: u64)
        ensures
            final(self).spec_time_ns() == to_time_ns,
            final(self).spec_timers() == old(self).spec_timers(),
            final(self).spec_default_callback() == old(self).spec_default_callback(),
            old(self).wf() ==> final(self).wf(),
    {
        self.time_ns = to_time_ns;
    }

    /// The current time in nanoseconds.
    pub fn get_time_ns(&self) -> (r: u64)
        ensures
            r == self.spec_time_ns(),
    {
        self.time_ns
    }

    /// The current time in whole microseconds.
    pub fn get_time_us(&self) -> (r: u64)
        ensures
            r == self.spec_time_ns() / 1_000,
    {
        self.time_ns / 1_000
    }

    /// The current time in whole milliseconds.
    pub fn get_time_ms(&self) -> (r: u64)
        ensures
            r == self.spec_time_ns() / 1_000_000,
    {
        self.time_ns / 1_000_000
    }

    /// Registers the handler invoked by timers that carry none of their own.
    pub fn register_default_handler(&mut self, callback: u64)
        ensures
            final(self).spec_default_callback() == Some(callback),
            final(self).spec_timers() == old(self).spec_timers(),
            final(self).spec_time_ns() == old(self).spec_time_ns(),
            old(self).wf() ==> final(self).wf(),
    {
        self.default_callback = Some(callback);
    }

    /// The number of registered timers.
    pub fn timer_count(&self) -> (r: usize)
        ensures
            r == self.spec_timers().len(),
    {
        self.timers.len()
    }

    /// The registered timers, in registration order.
    pub fn get_timers(&self) -> (r: &Vec<Timer>)
        ensures
            r@ == self.spec_timers(),
    {
        &self.timers
    }

    /// The registered timers' names, in registration order.
    pub fn timer_names(&self) -> (r: Vec<String>)
        ensures
            r@.len() == self.spec_timers().len(),
            forall|i: int|
                0 <= i < r@.len() ==> r@[i] == (#[trigger] self.spec_timers()[i]).name,
    {
        let mut out: Vec<String> = Vec::new();
        let n = self.timers.len();
        let mut i: usize = 0;
        while i < n
            invariant
                n == self.timers@.len(),
                0 <= i <= n,
                out@.len() == i,
                forall|j: int| 0 <= j < i ==> out@[j] == (#[trigger] self.timers@[j]).name,
            decreases n - i,
        {
            out.push(self.timers[i].name.clone());
            i = i + 1;
        }
        out
    }

    /// Cancels the timer named `name`, if registered; it never fires again.
    pub fn cancel_timer(&mut self, name: &str)
        requires
            old(self).wf(),
        ensures
            final(self).wf(),
            final(self).spec_timers() == remove_named(old(self).spec_timers(), name@),
            final(self).spec_time_ns() == old(self).spec_time_ns(),
            final(self).spec_default_callback() == old(self).spec_default_callback(),
    {
        let ghost ts = self.timers@;
        let needle: String = name.to_owned();
        let n = self.timers.len();
        let mut i: usize = 0;
        while i < n
            invariant
                n == ts.len(),
                0 <= i <= n,
                self.timers@ == ts,
                *self == *old(self),
                old(self).wf(),
                needle@ == name@,
                forall|j: int| 0 <= j < i ==> (#[trigger] ts[j]).name@ != name@,
            decreases n - i,
        {
            if self.timers[i].name == needle {
                self.timers.remove(i);
                proof {
                    lemma_remove_named_at(ts, name@, i as int);
                    lemma_remove_named_props(ts, name@);
                }
                return ;
            }
            i = i + 1;
        }
        proof {
            lemma_remove_named_absent(ts, name@);
        }
    }

    /// The next time the timer named `name` fires, or `0` when no timer has
    /// that name.
    pub fn next_time_ns(&self, name: &str) -> (r: u64)
        ensures
            r == named_next(self.spec_timers(), name@),
    {
        let ghost ts = self.timers@;
        let needle: String = name.to_owned();
        let n = self.timers.len();
        let mut i: usize = 0;
        while i < n
            invariant
                n == ts.len(),
                0 <= i <= n,
                self.timers@ == ts,
                needle@ == name@,
                forall|j: int| 0 <= j < i ==> (#[trigger] ts[j]).name@ != name@,
            decreases n - i,
        {
            if self.timers[i].name == needle {
                proof {
                    lemma_named_next_at(ts, name@, i as int);
                }
                return self.timers[i].next_time_ns;
            }
            i = i + 1;
        }
        proof {
            lemma_named_next_absent(ts, name@);
        }
        0
    }

    /// Schedules a one-shot alert named `name` at the absolute time
    /// `alert_time_ns`, replacing any prior timer of that name.
    ///
    /// Fails when neither `callback` nor a default handler is given.
    pub fn set_time_alert_ns(
        &mut self,
        name: &str,
        alert_time_ns: u64,
        callback: Option<u64>,
    ) -> (r: Result<(), ClockError>)
        requires
            old(self).wf(),
        ensures
            final(self).wf(),
            final(self).spec_time_ns() == old(self).spec_time_ns(),
            final(self).spec_default_callback() == old(self).spec_default_callback(),
            callback is None && old(self).spec_default_callback() is None ==> r == Err::<
                (),
                ClockError,
            >(ClockError::MissingCallback) && final(self).spec_timers() == old(self).spec_timers(),
            !(callback is None && old(self).spec_default_callback() is None) ==> r is Ok && ({
                let ts2 = final(self).spec_timers();
                let t = ts2.last();
                &&& ts2.drop_last() == remove_named(old(self).spec_timers(), name@)
                &&& ts2.len() == remove_named(old(self).spec_timers(), name@).len() + 1
                &&& t.name@ == name@
                &&& t.interval_ns == 0
                &&& t.next_time_ns == alert_time_ns
                &&& t.stop_time_ns == Some(alert_time_ns)
                &&& t.callback == callback
            }),
    {
        if callback.is_none() && self.default_callback.is_none() {
            return Err(ClockError::MissingCallback);
        }
        self.cancel_timer(name);
        proof {
            lemma_remove_named_props(old(self).timers@, name@);
        }
        let timer = Timer {
            name: name.to_owned(),
            interval_ns: 0,
            next_time_ns: alert_time_ns,
            stop_time_ns: Some(alert_time_ns),
            callback,
        };
        let ghost before_push = self.timers@;
        self.timers.push(timer);
        proof {
            assert(self.timers@.drop_last() =~= before_push);
        }
        Ok(())
    }

    /// Schedules a periodic timer named `name`: it first fires at
    /// `start_time_ns + interval_ns` and then every `interval_ns`, never past
    /// `stop_time_ns` when that is set. Replaces any prior timer of the name.
    ///
    /// Fails when the interval is zero, when the stop time falls before the
    /// first firing, or when neither `callback` nor a default handler is
    /// given.
    pub fn set_timer_ns(
        &mut self,
        name: &str,
        interval_ns: u64,
        start_time_ns: u64,
        stop_time_ns: Option<u64>,
        callback: Option<u64>,
    ) -> (r: Result<(), ClockError>)
        requires
            old(self).wf(),
            start_time_ns + interval_ns <= u64::MAX,
        ensures
            final(self).wf(),
            final(self).spec_time_ns() == old(self).spec_time_ns(),
            final(self).spec_default_callback() == old(self).spec_default_callback(),
            interval_ns == 0 ==> r == Err::<(), ClockError>(ClockError::InvalidInterval)
                && final(self).spec_timers() == old(self).spec_timers(),
            interval_ns != 0 && callback is None && old(self).spec_default_callback() is None ==> r
                == Err::<(), ClockError>(ClockError::MissingCallback) && final(self).spec_timers()
                == old(self).spec_timers(),
            interval_ns != 0 && !(callback is None && old(self).spec_default_callback() is None)
                && (stop_time_ns matches Some(s) && s < start_time_ns + interval_ns) ==> r == Err::<
                (),
                ClockError,
            >(ClockError::InvalidStop) && final(self).spec_timers() == old(self).spec_timers(),
            interval_ns != 0 && !(callback is None && old(self).spec_default_callback() is None)
                && !(stop_time_ns matches Some(s) && s < start_time_ns + interval_ns) ==> r is Ok
                && ({
                let ts2 = final(self).spec_timers();
                let t = ts2.last();
                &&& ts2.drop_last() == remove_named(old(self).spec_timers(), name@)
                &&& ts2.len() == remove_named(old(self).spec_timers(), name@).len() + 1
                &&& t.name@ == name@
                &&& t.interval_ns == interval_ns
                &&& t.next_time_ns == start_time_ns + interval_ns
                &&& t.stop_time_ns == stop_time_ns
                &&& t.callback == callback
            }),
    {
        if interval_ns == 0 {
            return Err(ClockError::InvalidInterval);
        }
        if callback.is_none() && self.default_callback.is_none() {
            return Err(ClockError::MissingCallback);
        }
        let next_time_ns = start_time_ns + interval_ns;
        match stop_time_ns {
            Some(s) => {
                if s < next_time_ns {
                    return Err(ClockError::InvalidStop);
                }
            },
            None => {},
        }
        self.cancel_timer(name);
        proof {
            lemma_remove_named_props(old(self).timers@, name@);
        }
        let timer = Timer { name: name.to_owned(), interval_ns, next_time_ns, stop_time_ns, callback };
        let ghost before_push = self.timers@;
        self.timers.push(timer);
        proof {
            assert(self.timers@.drop_last() =~= before_push);
        }
        Ok(())
    }

    /// Advances the event window to `to_time_ns` and returns every event
    /// that falls in it, in fire-time order with ties broken by registration
    /// order; spent timers are dropped from the table. The clock's time
    /// moves to `to_time_ns` only when `set_time` is set — otherwise the
    /// events are yielded without committing the time.
    pub fn advance_time(&mut self, to_time_ns: u64, set_time: bool) -> (events: Vec<TimeEvent>)
        requires
            old(self).wf(),
            to_time_ns >= old(self).spec_time_ns(),
        ensures
            final(self).wf(),
            events@ == advance_spec(
                old(self).spec_timers(),
                to_time_ns,
                old(self).spec_default_callback(),
            ).0,
            final(self).spec_timers() == advance_spec(
                old(self).spec_timers(),
                to_time_ns,
                old(self).spec_default_callback(),
            ).1,
            final(self).spec_default_callback() == old(self).spec_default_callback(),
            final(self).spec_time_ns() == (if set_time {
                to_time_ns
            } else {
                old(self).spec_time_ns()
            }),
    {
        let ghost orig = self.timers@;
        let ghost dcb = self.default_callback;
        let mut events: Vec<TimeEvent> = Vec::new();
        loop
            invariant
                self.wf(),
                self.default_callback == dcb,
                self.time_ns == old(self).time_ns,
                advance_spec(orig, to_time_ns, dcb).0 == events@ + advance_spec(
                    self.timers@,
                    to_time_ns,
                    dcb,
                ).0,
                advance_spec(orig, to_time_ns, dcb).1 == advance_spec(
                    self.timers@,
                    to_time_ns,
                    dcb,
                ).1,
            ensures
                self.wf(),
                self.default_callback == dcb,
                self.time_ns == old(self).time_ns,
                best_due(self.timers@, to_time_ns) == -1,
                advance_spec(orig, to_time_ns, dcb).0 == events@ + advance_spec(
                    self.timers@,
                    to_time_ns,
                    dcb,
                ).0,
                advance_spec(orig, to_time_ns, dcb).1 == advance_spec(
                    self.timers@,
                    to_time_ns,
                    dcb,
                ).1,
            decreases timers_budget(self.timers@, to_time_ns),
        {
            let ghost ts = self.timers@;
            let n = self.timers.len();
            let mut found = false;
            let mut best_i: usize = 0;
            let mut i: usize = 0;
            while i < n
                invariant
                    n == ts.len(),
                    self.timers@ == ts,
                    0 <= i <= n,
                    !found ==> best_due_upto(ts, to_time_ns, i as int) == -1,
                    found ==> best_i < i && best_due_upto(ts, to_time_ns, i as int)
                        == best_i as int,
                decreases n - i,
            {
                let next_i = self.timers[i].next_time_ns;
                if next_i <= to_time_ns && (!found || next_i
                    < self.timers[best_i].next_time_ns) {
                    found = true;
                    best_i = i;
                }
                i = i + 1;
            }
            if !found {
                break ;
            }
            let ghost b = best_i as int;
            proof {
                lemma_best_due(ts, to_time_ns);
            }
            let t_name = self.timers[best_i].name.clone();
            let t_next = self.timers[best_i].next_time_ns;
            let cb: u64 = match self.timers[best_i].callback {
                Some(c) => c,
                None => {
                    match self.default_callback {
                        Some(d) => d,
                        None => {
                            proof {
                                assert(false);
                            }
                            0
                        },
                    }
                },
            };
            let ghost events_before = events@;
            events.push(TimeEvent { name: t_name, ts_event: t_next, callback: cb });
            let keeps = self.timers[best_i].interval_ns > 0 && self.timers[best_i].next_time_ns
                <= u64::MAX - self.timers[best_i].interval_ns && (match self
                .timers[best_i].stop_time_ns {
                Some(s) => self.timers[best_i].next_time_ns + self.timers[best_i].interval_ns
                    <= s,
                None => true,
            });
            if keeps {
                let stepped = Timer {
                    name: self.timers[best_i].name.clone(),
                    interval_ns: self.timers[best_i].interval_ns,
                    next_time_ns: self.timers[best_i].next_time_ns
                        + self.timers[best_i].interval_ns,
                    stop_time_ns: self.timers[best_i].stop_time_ns,
                    callback: self.timers[best_i].callback,
                };
                self.timers.set(best_i, stepped);
            } else {
                self.timers.remove(best_i);
            }
            proof {
                lemma_step_decreases(ts, to_time_ns, b);
                assert(self.timers@ == step_timers(ts, b));
                let ev = TimeEvent {
                    name: ts[b].name,
                    ts_event: ts[b].next_time_ns,
                    callback: resolve_cb(ts[b].callback, dcb),
                };
                assert(events@ == events_before.push(ev));
                assert(advance_spec(ts, to_time_ns, dcb).0 == seq![ev] + advance_spec(
                    self.timers@,
                    to_time_ns,
                    dcb,
                ).0);
                assert(events_before + (seq![ev] + advance_spec(self.timers@, to_time_ns, dcb).0)
                    =~= events_before.push(ev) + advance_spec(self.timers@, to_time_ns, dcb).0);
                assert(self.wf()) by {
                    if timer_keeps_after_fire(ts[b]) {
                        assert(forall|i: int|
                            0 <= i < self.timers@.len() ==> (#[trigger] self.timers@[i]).name@
                                == ts[i].name@);
                    } else {
                        assert(forall|i: int|
                            0 <= i < self.timers@.len() ==> (#[trigger] self.timers@[i]) == (
                            if i < b {
                                ts[i]
                            } else {
                                ts[i + 1]
                            }));
                    }
                }
            }
        }
        proof {
            assert(advance_spec(self.timers@, to_time_ns, dcb).0 == Seq::<TimeEvent>::empty());
            assert(advance_spec(self.timers@, to_time_ns, dcb).1 == self.timers@);
            assert(events@ + Seq::<TimeEvent>::empty() =~= events@);
        }
        if set_time {
            self.time_ns = to_time_ns;
        }
        events
    }

    /// Cancels every timer.
    pub fn cancel_timers(&mut self)
        ensures
            final(self).spec_timers() == Seq::<Timer>::empty(),
            final(self).spec_time_ns() == old(self).spec_time_ns(),
            final(self).spec_default_callback() == old(self).spec_default_callback(),
            final(self).wf(),
    {
        self.timers.clear();
        proof {
            assert(self.spec_timers() =~= Seq::<Timer>::empty());
        }
    }
}

/// How many firings a timer that next fires at `next` and repeats every
/// `interval` still has up to `upper`.
pub open spec fn periodic_budget(next: int, upper: int, interval: int) -> nat
    decreases (if next > upper { 0int } else { upper + 1 - next }),
{
    if interval <= 0 || next > upper {
        0
    } else {
        1 + periodic_budget(next + interval, upper, interval)
    }
}

/// The last time the timer may fire in a window ending at `to`: its stop
/// time, when that comes first.
pub open spec fn timer_upper(t: Timer, to: u64) -> int {
    match t.stop_time_ns {
        Some(s) => if s < to {
            s as int
        } else {
            to as int
        },
        None => to as int,
    }
}

/// How many events the timer still produces in a window ending at `to`.
pub open spec fn timer_budget(t: Timer, to: u64) -> nat {
    if t.next_time_ns > to {
        0
    } else if t.interval_ns == 0 {
        1
    } else {
        1 + periodic_budget(
            t.next_time_ns + t.interval_ns,
            timer_upper(t, to),
            t.interval_ns as int,
        )
    }
}

/// The total number of events the timers still produce up to `to`.
pub open spec fn timers_budget(ts: Seq<Timer>, to: u64) -> nat
    decreases ts.len(),
{
    if ts.len() == 0 {
        0
    } else {
        timers_budget(ts.drop_last(), to) + timer_budget(ts.last(), to)
    }
}

/// The position among the first `n` timers of the one that fires next: the
/// earliest-registered among those with the least `next_time_ns` at most
/// `to`; `-1` when none is due.
pub open spec fn best_due_upto(ts: Seq<Timer>, to: u64, n: int) -> int
    decreases n,
{
    if n <= 0 {
        -1
    } else {
        let b = best_due_upto(ts, to, n - 1);
        if ts[n - 1].next_time_ns <= to && (b == -1 || ts[n - 1].next_time_ns
            < ts[b].next_time_ns) {
            n - 1
        } else {
            b
        }
    }
}

/// The position of the timer that fires next, or `-1` when none is due.
pub open spec fn best_due(ts: Seq<Timer>, to: u64) -> int {
    best_due_upto(ts, to, ts.len() as int)
}

/// Whether the timer runs on after one firing: only a periodic timer whose
/// advanced fire time still fits `u64` and does not pass its stop time.
pub open spec fn timer_keeps_after_fire(t: Timer) -> bool {
    &&& t.interval_ns > 0
    &&& t.next_time_ns + t.interval_ns <= u64::MAX
    &&& match t.stop_time_ns {
        Some(s) => t.next_time_ns + t.interval_ns <= s,
        None => true,
    }
}

/// The timer table after the timer at `b` fires once: advanced by its
/// interval, or dropped when it is spent.
pub open spec fn step_timers(ts: Seq<Timer>, b: int) -> Seq<Timer> {
    if timer_keeps_after_fire(ts[b]) {
        ts.update(
            b,
            Timer {
                name: ts[b].name,
                interval_ns: ts[b].interval_ns,
                next_time_ns: (ts[b].next_time_ns + ts[b].interval_ns) as u64,
                stop_time_ns: ts[b].stop_time_ns,
                callback: ts[b].callback,
            },
        )
    } else {
        ts.remove(b)
    }
}

/// Every event the timers produce in the window ending at `to`, in fire-time
/// order with ties broken by registration order, together with the timer
/// table left behind. Handler handles resolve against `dcb`.
pub open spec fn advance_spec(ts: Seq<Timer>, to: u64, dcb: Option<u64>) -> (
    Seq<TimeEvent>,
    Seq<Timer>,
)
    decreases timers_budget(ts, to),
    via advance_spec_dec
{
    let b = best_due(ts, to);
    if b == -1 {
        (Seq::<TimeEvent>::empty(), ts)
    } else {
        let t = ts[b];
        let ev = TimeEvent {
            name: t.name,
            ts_event: t.next_time_ns,
            callback: resolve_cb(t.callback, dcb),
        };
        let rec = advance_spec(step_timers(ts, b), to, dcb);
        (seq![ev] + rec.0, rec.1)
    }
}

#[via_fn]
proof fn advance_spec_dec(ts: Seq<Timer>, to: u64, dcb: Option<u64>) {
    let b = best_due(ts, to);
    if b != -1 {
        lemma_best_due(ts, to);
        lemma_step_decreases(ts, to, b);
    }
}

/// What the chosen position means: it is in range, due, fires no later than
/// any due timer, and is the earliest-registered among those that fire then.
proof fn lemma_best_due_upto(ts: Seq<Timer>, to: u64, n: int)
    requires
        0 <= n <= ts.len(),
    ensures
        ({
            let b = best_due_upto(ts, to, n);
            &&& (b == -1 ==> forall|i: int|
                0 <= i < n ==> (#[trigger] ts[i]).next_time_ns > to)
            &&& (b != -1 ==> 0 <= b < n && ts[b].next_time_ns <= to)
            &&& (b != -1 ==> forall|i: int|
                0 <= i < n && (#[trigger] ts[i]).next_time_ns <= to ==> ts[b].next_time_ns
                    <= ts[i].next_time_ns)
            &&& (b != -1 ==> forall|i: int|
                0 <= i < b ==> (#[trigger] ts[i]).next_time_ns > to || ts[i].next_time_ns
                    > ts[b].next_time_ns)
        }),
    decreases n,
{
    if n > 0 {
        lemma_best_due_upto(ts, to, n - 1);
    }
}

/// [`lemma_best_due_upto`] over the whole table.
proof fn lemma_best_due(ts: Seq<Timer>, to: u64)
    ensures
        ({
            let b = best_due(ts, to);
            &&& (b == -1 ==> forall|i: int|
                0 <= i < ts.len() ==> (#[trigger] ts[i]).next_time_ns > to)
            &&& (b != -1 ==> 0 <= b < ts.len() && ts[b].next_time_ns <= to)
            &&& (b != -1 ==> forall|i: int|
                0 <= i < ts.len() && (#[trigger] ts[i]).next_time_ns <= to ==> ts[b].next_time_ns <= ts[i].next_time_ns)
            &&& (b != -1 ==> forall|i: int|
                0 <= i < b ==> (#[trigger] ts[i]).next_time_ns > to || ts[i].next_time_ns
                    > ts[b].next_time_ns)
        }),
{
    lemma_best_due_upto(ts, to, ts.len() as int);
}

/// Replacing one timer replaces its budget in the total.
proof fn lemma_budget_update(ts: Seq<Timer>, to: u64, b: int, t2: Timer)
    requires
        0 <= b < ts.len(),
    ensures
        timers_budget(ts.update(b, t2), to) == timers_budget(ts, to) - timer_budget(ts[b], to)
            + timer_budget(t2, to),
    decreases ts.len(),
{
    if b == ts.len() - 1 {
        assert(ts.update(b, t2).drop_last() =~= ts.drop_last());
        assert(ts.update(b, t2).last() == t2);
    } else {
        assert(ts.update(b, t2).drop_last() =~= ts.drop_last().update(b, t2));
        assert(ts.update(b, t2).last() == ts.last());
        lemma_budget_update(ts.drop_last(), to, b, t2);
    }
}

/// Dropping one timer drops its budget from the total.
proof fn lemma_budget_remove(ts: Seq<Timer>, to: u64, b: int)
    requires
        0 <= b < ts.len(),
    ensures
        timers_budget(ts.remove(b), to) == timers_budget(ts, to) - timer_budget(ts[b], to),
    decreases ts.len(),
{
    if b == ts.len() - 1 {
        assert(ts.remove(b) =~= ts.drop_last());
    } else {
        assert(ts.remove(b).drop_last() =~= ts.drop_last().remove(b));
        assert(ts.remove(b).last() == ts.last());
        lemma_budget_remove(ts.drop_last(), to, b);
    }
}

/// One firing consumes one unit of budget: the table after the step has
/// strictly less.
proof fn lemma_step_decreases(ts: Seq<Timer>, to: u64, b: int)
    requires
        0 <= b < ts.len(),
        ts[b].next_time_ns <= to,
    ensures
        timers_budget(step_timers(ts, b), to) < timers_budget(ts, to),
{
    let t = ts[b];
    if timer_keeps_after_fire(t) {
        let t2 = Timer {
            name: t.name,
            interval_ns: t.interval_ns,
            next_time_ns: (t.next_time_ns + t.interval_ns) as u64,
            stop_time_ns: t.stop_time_ns,
            callback: t.callback,
        };
        assert(timer_budget(t2, to) < timer_budget(t, to)) by {
            if t2.next_time_ns <= to {
                assert(t2.next_time_ns <= timer_upper(t, to));
                assert(timer_upper(t2, to) == timer_upper(t, to));
            }
        }
        lemma_budget_update(ts, to, b, t2);
    } else {
        assert(timer_budget(t, to) >= 1);
        lemma_budget_remove(ts, to, b);
    }
}

/// When every timer's next fire time is at least `lb`, so is every event
/// the window yields.
proof fn lemma_advance_events_lower_bound(ts: Seq<Timer>, to: u64, dcb: Option<u64>, lb: u64)
    requires
        forall|i: int| 0 <= i < ts.len() ==> (#[trigger] ts[i]).next_time_ns >= lb,
    ensures
        forall|k: int|
            0 <= k < advance_spec(ts, to, dcb).0.len() ==> (#[trigger] advance_spec(
                ts,
                to,
                dcb,
            ).0[k]).ts_event >= lb,
    decreases timers_budget(ts, to),
{
    let b = best_due(ts, to);
    lemma_best_due(ts, to);
    if b != -1 {
        lemma_step_decreases(ts, to, b);
        let ts2 = step_timers(ts, b);
        assert forall|i: int|
            0 <= i < ts2.len() implies (#[trigger] ts2[i]).next_time_ns >= lb by {
            if !timer_keeps_after_fire(ts[b]) && i >= b {
                assert(ts2[i] == ts[i + 1]);
            }
        }
        lemma_advance_events_lower_bound(ts2, to, dcb, lb);
        let evs = advance_spec(ts, to, dcb).0;
        let rec = advance_spec(ts2, to, dcb).0;
        assert forall|k: int| 0 <= k < evs.len() implies (#[trigger] evs[k]).ts_event >= lb by {
            if k == 0 {
                assert(ts[b].next_time_ns >= lb);
            } else {
                assert(evs[k] == rec[k - 1]);
            }
        }
    }
}

/// Clock determinism, the window half: every event one advance yields fires
/// at or before the advanced-to time, and every timer left in the table
/// fires strictly later — so a later advance never re-fires an event from
/// the earlier window.
pub proof fn lemma_advance_time_window(ts: Seq<Timer>, to: u64, dcb: Option<u64>)
    ensures
        forall|k: int|
            0 <= k < advance_spec(ts, to, dcb).0.len() ==> (#[trigger] advance_spec(
                ts,
                to,
                dcb,
            ).0[k]).ts_event <= to,
        forall|i: int|
            0 <= i < advance_spec(ts, to, dcb).1.len() ==> (#[trigger] advance_spec(
                ts,
                to,
                dcb,
            ).1[i]).next_time_ns > to,
    decreases timers_budget(ts, to),
{
    let b = best_due(ts, to);
    lemma_best_due(ts, to);
    if b != -1 {
        lemma_step_decreases(ts, to, b);
        let ts2 = step_timers(ts, b);
        lemma_advance_time_window(ts2, to, dcb);
        let evs = advance_spec(ts, to, dcb).0;
        let rec = advance_spec(ts2, to, dcb).0;
        assert forall|k: int| 0 <= k < evs.len() implies (#[trigger] evs[k]).ts_event <= to by {
            if k > 0 {
                assert(evs[k] == rec[k - 1]);
            }
        }
    }
}

/// Clock determinism, the ordering half: the events one advance yields are
/// sorted by fire time — a timer firing several times in the window appears
/// once per firing, in time order, interleaved with the other timers'
/// firings.
pub proof fn lemma_advance_time_events_sorted(ts: Seq<Timer>, to: u64, dcb: Option<u64>)
    ensures
        forall|i: int, j: int|
            0 <= i <= j < advance_spec(ts, to, dcb).0.len() ==> (#[trigger] advance_spec(
                ts,
                to,
                dcb,
            ).0[i]).ts_event <= (#[trigger] advance_spec(ts, to, dcb).0[j]).ts_event,
    decreases timers_budget(ts, to),
{
    let b = best_due(ts, to);
    lemma_best_due(ts, to);
    if b != -1 {
        lemma_step_decreases(ts, to, b);
        let ts2 = step_timers(ts, b);
        let lb = ts[b].next_time_ns;
        assert forall|i: int|
            0 <= i < ts2.len() implies (#[trigger] ts2[i]).next_time_ns >= lb by {
            if timer_keeps_after_fire(ts[b]) {
                if i != b {
                    if ts[i].next_time_ns <= to {
                        assert(ts[b].next_time_ns <= ts[i].next_time_ns);
                    }
                }
            } else {
                if i < b {
                    if ts[i].next_time_ns <= to {
                        assert(ts[b].next_time_ns <= ts[i].next_time_ns);
                    }
                } else {
                    assert(ts2[i] == ts[i + 1]);
                    if ts[i + 1].next_time_ns <= to {
                        assert(ts[b].next_time_ns <= ts[i + 1].next_time_ns);
                    }
                }
            }
        }
        lemma_advance_events_lower_bound(ts2, to, dcb, lb);
        lemma_advance_time_events_sorted(ts2, to, dcb);
        let evs = advance_spec(ts, to, dcb).0;
        let rec = advance_spec(ts2, to, dcb).0;
        assert forall|i: int, j: int|
            0 <= i <= j < evs.len() implies (#[trigger] evs[i]).ts_event <= (
        #[trigger] evs[j]).ts_event by {
            if 0 < i {
                assert(evs[i] == rec[i - 1]);
                assert(evs[j] == rec[j - 1]);
            } else if 0 < j {
                assert(evs[j] == rec[j - 1]);
                assert(rec[j - 1].ts_event >= lb);
            }
        }
    }
}

/// When no timer of `ts` is named `n`, removing the name changes nothing.
proof fn lemma_remove_named_absent(ts: Seq<Timer>, n: Seq<char>)
    requires
        forall|j: int| 0 <= j < ts.len() ==> (#[trigger] ts[j]).name@ != n,
    ensures
        remove_named(ts, n) == ts,
    decreases ts.len(),
{
    if ts.len() > 0 {
        lemma_remove_named_absent(ts.drop_last(), n);
        assert(ts.drop_last().push(ts.last()) =~= ts);
    }
}

/// With unique names, removing name `n` found first at position `k` removes
/// exactly that position.
proof fn lemma_remove_named_at(ts: Seq<Timer>, n: Seq<char>, k: int)
    requires
        forall|i: int, j: int|
            0 <= i < j < ts.len() ==> (#[trigger] ts[i]).name@ != (#[trigger] ts[j]).name@,
        0 <= k < ts.len(),
        ts[k].name@ == n,
    ensures
        remove_named(ts, n) == ts.remove(k),
    decreases ts.len(),
{
    if k == ts.len() - 1 {
        assert forall|j: int| 0 <= j < ts.drop_last().len() implies (#[trigger] ts.drop_last(
        )[j]).name@ != n by {
            assert(ts[j].name@ != ts[k].name@);
        }
        lemma_remove_named_absent(ts.drop_last(), n);
        assert(ts.remove(k) =~= ts.drop_last());
    } else {
        assert(ts.last().name@ != n) by {
            assert(ts[k].name@ != ts[ts.len() - 1].name@);
        }
        lemma_remove_named_at(ts.drop_last(), n, k);
        assert(ts.remove(k).drop_last() =~= ts.drop_last().remove(k));
        assert(ts.remove(k).last() == ts.last());
        assert(remove_named(ts, n) == remove_named(ts.drop_last(), n).push(ts.last()));
        assert(ts.drop_last().remove(k).push(ts.last()) =~= ts.remove(k));
    }
}

/// What removing a name leaves: timers of `ts` only, none named `n`, names
/// still unique.
proof fn lemma_remove_named_props(ts: Seq<Timer>, n: Seq<char>)
    requires
        forall|i: int, j: int|
            0 <= i < j < ts.len() ==> (#[trigger] ts[i]).name@ != (#[trigger] ts[j]).name@,
    ensures
        ({
            let rn = remove_named(ts, n);
            &&& forall|i: int| 0 <= i < rn.len() ==> ts.contains(#[trigger] rn[i])
            &&& forall|i: int| 0 <= i < rn.len() ==> (#[trigger] rn[i]).name@ != n
            &&& forall|i: int, j: int|
                0 <= i < j < rn.len() ==> (#[trigger] rn[i]).name@ != (#[trigger] rn[j]).name@
        }),
    decreases ts.len(),
{
    let rn = remove_named(ts, n);
    if ts.len() > 0 {
        let tsd = ts.drop_last();
        lemma_remove_named_props(tsd, n);
        let rd = remove_named(tsd, n);
        assert forall|i: int| 0 <= i < rd.len() implies ts.contains(#[trigger] rd[i]) by {
            assert(tsd.contains(rd[i]));
            let j = choose|j: int| 0 <= j < tsd.len() && tsd[j] == rd[i];
            assert(ts[j] == rd[i]);
        }
        if ts.last().name@ == n {
            assert(rn == rd);
        } else {
            assert(rn == rd.push(ts.last()));
            assert(ts.contains(ts.last())) by {
                assert(ts[ts.len() - 1] == ts.last());
            }
            assert forall|i: int, j: int|
                0 <= i < j < rn.len() implies (#[trigger] rn[i]).name@ != (
            #[trigger] rn[j]).name@ by {
                if j == rn.len() - 1 {
                    assert(tsd.contains(rn[i]));
                    let x = choose|x: int| 0 <= x < tsd.len() && tsd[x] == rn[i];
                    assert(ts[x].name@ != ts[ts.len() - 1].name@);
                }
            }
        }
    }
}

/// When no timer of `ts` is named `n`, its next fire time reads as zero.
proof fn lemma_named_next_absent(ts: Seq<Timer>, n: Seq<char>)
    requires
        forall|j: int| 0 <= j < ts.len() ==> (#[trigger] ts[j]).name@ != n,
    ensures
        named_next(ts, n) == 0,
    decreases ts.len(),
{
    if ts.len() > 0 {
        assert forall|j: int| 0 <= j < ts.drop_first().len() implies (#[trigger] ts.drop_first(
        )[j]).name@ != n by {
            assert(ts.drop_first()[j] == ts[j + 1]);
        }
        lemma_named_next_absent(ts.drop_first(), n);
    }
}

/// When the first timer named `n` sits at position `k`, the name's next fire
/// time is that timer's.
proof fn lemma_named_next_at(ts: Seq<Timer>, n: Seq<char>, k: int)
    requires
        0 <= k < ts.len(),
        ts[k].name@ == n,
        forall|j: int| 0 <= j < k ==> (#[trigger] ts[j]).name@ != n,
    ensures
        named_next(ts, n) == ts[k].next_time_ns,
    decreases k,
{
    if k > 0 {
        assert(ts.drop_first()[k - 1] == ts[k]);
        assert forall|j: int| 0 <= j < k - 1 implies (#[trigger] ts.drop_first()[j]).name@
            != n by {
            assert(ts.drop_first()[j] == ts[j + 1]);
        }
        lemma_named_next_at(ts.drop_first(), n, k - 1);
    }
}

} // verus!
