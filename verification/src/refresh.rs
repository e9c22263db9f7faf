//! When to refresh the browser after the watcher reports changes: once they
//! stop for a moment, so a build that writes many files refreshes it only once.
//!
//! Times are nanoseconds on the watch's own clock.

use vstd::prelude::*;

verus! {

/// How long the files have to stay quiet before the browser is refreshed, in
/// nanoseconds: 150 milliseconds. The watcher hands over what it has every few
/// hundredths of a second, and a build writes for longer than that; refreshed
/// at each handover, the browser would reload a dozen times for one build.
pub const QUIET_FOR: u64 = 150_000_000;

/// How long files that never go quiet can put a refresh off, in nanoseconds: a
/// second. Past this the browser is refreshed anyway, and again as the writing
/// goes on.
pub const PUT_OFF_AT_MOST: u64 = 1_000_000_000;

/// What came of waiting for a change.
#[derive(Clone, Copy, Debug, PartialEq, Eq, Structural)]
pub enum Heard {
    /// A change, when it arrived, and whether it is worth a line in the
    /// terminal.
    Change { at: u64, worth_a_line: bool },
    /// Nothing came before the wait ended.
    Quiet,
    /// The watcher stopped, so nothing more will come.
    Gone,
}

/// Changes that end in one refresh.
#[derive(Clone, Copy, Debug, PartialEq, Eq, Structural)]
pub struct Burst {
    pub began: u64,
    pub last: u64,
    pub worth_a_line: bool,
}

impl Burst {
    /// A burst that one change starts.
    pub fn began(at: u64, worth_a_line: bool) -> (burst: Burst)
        ensures
            burst == (Burst { began: at, last: at, worth_a_line }),
    {
        Burst { began: at, last: at, worth_a_line }
    }

    /// Adds a change to the burst. True once the burst has lasted
    /// [`PUT_OFF_AT_MOST`], so the refresh is due now.
    pub fn add(&mut self, at: u64, worth_a_line: bool) -> (due: bool)
        ensures
            *final(self) == (Burst {
                began: old(self).began,
                last: at,
                worth_a_line: old(self).worth_a_line || worth_a_line,
            }),
            due == (at - old(self).began >= PUT_OFF_AT_MOST),
    {
        self.last = at;
        self.worth_a_line = self.worth_a_line || worth_a_line;
        at >= self.began && at - self.began >= PUT_OFF_AT_MOST
    }

    /// When the burst is over, if nothing more arrives: [`QUIET_FOR`] after
    /// its last change, or the end of the clock if that comes first.
    pub fn quiet_at(&self) -> (at: u64)
        ensures
            at == if self.last + QUIET_FOR <= u64::MAX {
                self.last + QUIET_FOR
            } else {
                u64::MAX as int
            },
    {
        if self.last <= u64::MAX - QUIET_FOR {
            self.last + QUIET_FOR
        } else {
            u64::MAX
        }
    }
}

/// How long to wait for the next change: until the open burst goes quiet, or
/// for as long as it takes when none is open.
pub fn wait_until(burst: &Option<Burst>) -> (until: Option<u64>)
    ensures
        until == match *burst {
            Some(open) => Some(if open.last + QUIET_FOR <= u64::MAX {
                (open.last + QUIET_FOR) as u64
            } else {
                u64::MAX
            }),
            None => None,
        },
{
    match burst {
        Some(open) => Some(open.quiet_at()),
        None => None,
    }
}

/// What one thing heard does to the open burst: the burst after it, and the
/// refresh it calls for now, if any, with whether that is worth a line.
pub open spec fn after_heard(burst: Option<Burst>, heard: Heard) -> (Option<Burst>, Option<bool>) {
    match heard {
        Heard::Change { at, worth_a_line } => match burst {
            None => (Some(Burst { began: at, last: at, worth_a_line }), None),
            Some(open) => {
                if at - open.began >= PUT_OFF_AT_MOST {
                    (None, Some(open.worth_a_line || worth_a_line))
                } else {
                    (
                        Some(Burst { began: open.began, last: at, worth_a_line: open.worth_a_line || worth_a_line }),
                        None,
                    )
                }
            },
        },
        Heard::Quiet | Heard::Gone => match burst {
            None => (None, None),
            Some(done) => (None, Some(done.worth_a_line)),
        },
    }
}

/// Refreshes once for each burst of changes: when none has come for
/// [`QUIET_FOR`], or at a change once the burst has lasted [`PUT_OFF_AT_MOST`];
/// and when the watcher stops, for the changes still waiting. This is the rule
/// applied to each thing heard; the one who waits hands over what came of it,
/// given [`wait_until`], and stops after `Gone`.
///
/// Returns the refresh due now, if any, and whether it is worth a line.
pub fn refresh_once_quiet(burst: &mut Option<Burst>, heard: Heard) -> (refresh: Option<bool>)
    ensures
        (*final(burst), refresh) == after_heard(*old(burst), heard),
{
    match heard {
        Heard::Change { at, worth_a_line } => {
            match burst {
                Some(open) => {
                    if open.add(at, worth_a_line) {
                        let worth = open.worth_a_line;
                        *burst = None;
                        Some(worth)
                    } else {
                        None
                    }
                },
                None => {
                    *burst = Some(Burst::began(at, worth_a_line));
                    None
                },
            }
        },
        Heard::Quiet | Heard::Gone => {
            let done = *burst;
            *burst = None;
            match done {
                Some(done) => Some(done.worth_a_line),
                None => None,
            }
        },
    }
}

/// The refreshes a run of things heard leads to, from the given open burst.
pub open spec fn refreshes(burst: Option<Burst>, heard: Seq<Heard>) -> Seq<bool>
    decreases heard.len(),
{
    if heard.len() == 0 {
        Seq::empty()
    } else {
        let (next, now) = after_heard(burst, heard[0]);
        let rest = refreshes(next, heard.skip(1));
        match now {
            Some(worth) => seq![worth] + rest,
            None => rest,
        }
    }
}

/// The changes of a run, as heard.
pub open spec fn changes(arrivals: Seq<(u64, bool)>) -> Seq<Heard> {
    arrivals.map_values(|arrival: (u64, bool)| Heard::Change { at: arrival.0, worth_a_line: arrival.1 })
}

/// Whether any of a run of changes is worth a line.
pub open spec fn any_worth(arrivals: Seq<(u64, bool)>) -> bool {
    exists|i: int| 0 <= i < arrivals.len() && (#[trigger] arrivals[i]).1
}

proof fn lemma_burst_goes_on(open: Burst, arrivals: Seq<(u64, bool)>)
    requires
        forall|i: int| 0 <= i < arrivals.len() ==> (#[trigger] arrivals[i]).0 - open.began < PUT_OFF_AT_MOST,
    ensures
        refreshes(Some(open), changes(arrivals).push(Heard::Quiet)) == seq![open.worth_a_line || any_worth(arrivals)],
    decreases arrivals.len(),
{
    let heard = changes(arrivals).push(Heard::Quiet);
    if arrivals.len() == 0 {
        assert(heard == seq![Heard::Quiet]);
        assert(heard.skip(1).len() == 0);
        assert(refreshes(None, heard.skip(1)) == Seq::<bool>::empty());
        assert(!any_worth(arrivals));
    } else {
        let first = arrivals[0];
        let next = Burst { began: open.began, last: first.0, worth_a_line: open.worth_a_line || first.1 };
        assert(heard[0] == Heard::Change { at: first.0, worth_a_line: first.1 });
        assert(arrivals[0].0 - open.began < PUT_OFF_AT_MOST);
        assert(after_heard(Some(open), heard[0]) == (Some(next), None::<bool>));
        assert(heard.skip(1) == changes(arrivals.skip(1)).push(Heard::Quiet));
        assert forall|i: int| 0 <= i < arrivals.skip(1).len() implies (#[trigger] arrivals.skip(1)[i]).0 - next.began
            < PUT_OFF_AT_MOST by {
            assert(arrivals.skip(1)[i] == arrivals[i + 1]);
        }
        lemma_burst_goes_on(next, arrivals.skip(1));
        if any_worth(arrivals) {
            let i = choose|i: int| 0 <= i < arrivals.len() && (#[trigger] arrivals[i]).1;
            if i > 0 {
                assert(arrivals.skip(1)[i - 1] == arrivals[i]);
            }
        }
        if any_worth(arrivals.skip(1)) {
            let i = choose|i: int| 0 <= i < arrivals.skip(1).len() && (#[trigger] arrivals.skip(1)[i]).1;
            assert(arrivals[i + 1] == arrivals.skip(1)[i]);
        }
    }
}

/// A burst of changes, each less than [`PUT_OFF_AT_MOST`] after the first,
/// followed by quiet, refreshes the browser once, and that refresh is worth a
/// line when any of its changes is.
pub proof fn law_a_burst_refreshes_once(arrivals: Seq<(u64, bool)>)
    requires
        arrivals.len() >= 1,
        forall|i: int| 0 <= i < arrivals.len() ==> (#[trigger] arrivals[i]).0 - arrivals[0].0 < PUT_OFF_AT_MOST,
    ensures
        refreshes(None, changes(arrivals).push(Heard::Quiet)) == seq![any_worth(arrivals)],
{
    let heard = changes(arrivals).push(Heard::Quiet);
    let first = arrivals[0];
    let open = Burst { began: first.0, last: first.0, worth_a_line: first.1 };
    assert(heard[0] == Heard::Change { at: first.0, worth_a_line: first.1 });
    assert(heard.skip(1) == changes(arrivals.skip(1)).push(Heard::Quiet));
    assert forall|i: int| 0 <= i < arrivals.skip(1).len() implies (#[trigger] arrivals.skip(1)[i]).0 - open.began
        < PUT_OFF_AT_MOST by {
        assert(arrivals.skip(1)[i] == arrivals[i + 1]);
    }
    lemma_burst_goes_on(open, arrivals.skip(1));
    if any_worth(arrivals) {
        let i = choose|i: int| 0 <= i < arrivals.len() && (#[trigger] arrivals[i]).1;
        if i > 0 {
            assert(arrivals.skip(1)[i - 1] == arrivals[i]);
        }
    }
    if any_worth(arrivals.skip(1)) {
        let i = choose|i: int| 0 <= i < arrivals.skip(1).len() && (#[trigger] arrivals.skip(1)[i]).1;
        assert(arrivals[i + 1] == arrivals.skip(1)[i]);
    }
}

/// How many changes a run of things heard holds.
pub open spec fn change_count(heard: Seq<Heard>) -> nat
    decreases heard.len(),
{
    if heard.len() == 0 {
        0
    } else {
        (if heard[0] is Change {
            1nat
        } else {
            0nat
        }) + change_count(heard.skip(1))
    }
}

proof fn lemma_refreshes_bounded(burst: Option<Burst>, heard: Seq<Heard>)
    ensures
        refreshes(burst, heard).len() <= change_count(heard) + if burst is Some {
            1nat
        } else {
            0nat
        },
    decreases heard.len(),
{
    if heard.len() > 0 {
        let (next, now) = after_heard(burst, heard[0]);
        lemma_refreshes_bounded(next, heard.skip(1));
    }
}

/// A run of things heard never refreshes the browser more often than it holds
/// changes; a run without changes never refreshes it.
pub proof fn law_never_more_refreshes_than_changes(heard: Seq<Heard>)
    ensures
        refreshes(None, heard).len() <= change_count(heard),
        change_count(heard) == 0 ==> refreshes(None, heard).len() == 0,
{
    lemma_refreshes_bounded(None, heard);
}

/// Whether a change counts: any change, or with `worth` only one worth a line.
pub open spec fn counts(heard: Heard, worth: bool) -> bool {
    heard matches Heard::Change { worth_a_line, .. } && (!worth || worth_a_line)
}

/// Whether an open burst counts, in the same way.
pub open spec fn pending(burst: Option<Burst>, worth: bool) -> bool {
    burst matches Some(open) && (!worth || open.worth_a_line)
}

/// Whether the `j`-th of some refreshes is there and, with `worth`, worth a
/// line.
pub open spec fn refreshed_at(refreshed: Seq<bool>, j: int, worth: bool) -> bool {
    0 <= j < refreshed.len() && (!worth || refreshed[j])
}

/// Whether a run ends with the wait ending: quiet, or the watcher gone.
pub open spec fn ends_waiting(heard: Seq<Heard>) -> bool {
    heard.len() > 0 && (heard.last() is Quiet || heard.last() is Gone)
}

proof fn lemma_nothing_lost(burst: Option<Burst>, heard: Seq<Heard>, worth: bool) -> (j: int)
    requires
        ends_waiting(heard),
        pending(burst, worth) || exists|i: int| 0 <= i < heard.len() && #[trigger] counts(heard[i], worth),
    ensures
        0 <= j < refreshes(burst, heard).len(),
        !worth || refreshes(burst, heard)[j],
    decreases heard.len(),
{
    let (next, now) = after_heard(burst, heard[0]);
    let rest = heard.skip(1);
    let all = refreshes(burst, heard);
    let later = refreshes(next, rest);
    assert(all == match now {
        Some(w) => seq![w] + later,
        None => later,
    });
    if now is Some && (!worth || now->0) {
        assert(all[0] == now->0);
        0
    } else {
        assert(rest.len() > 0) by {
            if rest.len() == 0 {
                assert(heard.len() == 1);
                assert(heard.last() == heard[0]);
                if exists|i: int| 0 <= i < heard.len() && #[trigger] counts(heard[i], worth) {
                    let i = choose|i: int| 0 <= i < heard.len() && #[trigger] counts(heard[i], worth);
                    assert(i == 0);
                }
            }
        }
        assert(rest.last() == heard.last());
        assert(pending(next, worth) || exists|i: int| 0 <= i < rest.len() && #[trigger] counts(rest[i], worth)) by {
            if exists|i: int| 0 <= i < heard.len() && #[trigger] counts(heard[i], worth) {
                let i = choose|i: int| 0 <= i < heard.len() && #[trigger] counts(heard[i], worth);
                if i > 0 {
                    assert(rest[i - 1] == heard[i]);
                }
            }
        }
        let j = lemma_nothing_lost(next, rest, worth);
        if now is Some {
            assert(all[j + 1] == later[j]);
            j + 1
        } else {
            assert(all[j] == later[j]);
            j
        }
    }
}

/// No change is lost: a run that ends with the wait ending, quiet or the
/// watcher gone, refreshes the browser at least once if it holds a change,
/// and with a refresh worth a line if one of its changes is.
pub proof fn law_no_change_is_lost(heard: Seq<Heard>, worth: bool)
    requires
        ends_waiting(heard),
        exists|i: int| 0 <= i < heard.len() && #[trigger] counts(heard[i], worth),
    ensures
        exists|j: int| #[trigger] refreshed_at(refreshes(None, heard), j, worth),
{
    let j = lemma_nothing_lost(None, heard, worth);
    assert(refreshed_at(refreshes(None, heard), j, worth));
}

/// Whether `close` ends a burst that began at `began`: quiet, the watcher
/// gone, or a change [`PUT_OFF_AT_MOST`] or more after it began.
pub open spec fn closes(close: Heard, began: u64) -> bool {
    match close {
        Heard::Change { at, .. } => at - began >= PUT_OFF_AT_MOST,
        _ => true,
    }
}

/// Whether the thing that closes a burst is a change worth a line.
pub open spec fn close_worth(close: Heard) -> bool {
    close matches Heard::Change { worth_a_line, .. } && worth_a_line
}

/// A burst as heard: its changes, each less than [`PUT_OFF_AT_MOST`] after
/// the first, and what closes it.
pub open spec fn whole_burst(burst: (Seq<(u64, bool)>, Heard)) -> bool {
    let (arrivals, close) = burst;
    &&& arrivals.len() >= 1
    &&& forall|i: int| 0 <= i < arrivals.len() ==> (#[trigger] arrivals[i]).0 - arrivals[0].0 < PUT_OFF_AT_MOST
    &&& closes(close, arrivals[0].0)
}

/// Whether the refresh a burst ends in is worth a line: whether any of its
/// changes is, the one that closes it included.
pub open spec fn burst_worth(burst: (Seq<(u64, bool)>, Heard)) -> bool {
    any_worth(burst.0) || close_worth(burst.1)
}

/// The things heard over a run of bursts, one after the other.
pub open spec fn run_of(bursts: Seq<(Seq<(u64, bool)>, Heard)>) -> Seq<Heard>
    decreases bursts.len(),
{
    if bursts.len() == 0 {
        Seq::empty()
    } else {
        changes(bursts[0].0) + seq![bursts[0].1] + run_of(bursts.skip(1))
    }
}

proof fn lemma_burst_closes(open: Burst, arrivals: Seq<(u64, bool)>, tail: Seq<Heard>)
    requires
        forall|i: int| 0 <= i < arrivals.len() ==> (#[trigger] arrivals[i]).0 - open.began < PUT_OFF_AT_MOST,
        tail.len() >= 1,
        closes(tail[0], open.began),
    ensures
        refreshes(Some(open), changes(arrivals) + tail) == seq![
            open.worth_a_line || any_worth(arrivals) || close_worth(tail[0]),
        ] + refreshes(None, tail.skip(1)),
    decreases arrivals.len(),
{
    let heard = changes(arrivals) + tail;
    if arrivals.len() == 0 {
        assert(heard == tail);
        assert(!any_worth(arrivals));
    } else {
        let first = arrivals[0];
        let next = Burst { began: open.began, last: first.0, worth_a_line: open.worth_a_line || first.1 };
        assert(heard[0] == Heard::Change { at: first.0, worth_a_line: first.1 });
        assert(arrivals[0].0 - open.began < PUT_OFF_AT_MOST);
        assert(after_heard(Some(open), heard[0]) == (Some(next), None::<bool>));
        assert(heard.skip(1) == changes(arrivals.skip(1)) + tail);
        assert forall|i: int| 0 <= i < arrivals.skip(1).len() implies (#[trigger] arrivals.skip(1)[i]).0 - next.began
            < PUT_OFF_AT_MOST by {
            assert(arrivals.skip(1)[i] == arrivals[i + 1]);
        }
        lemma_burst_closes(next, arrivals.skip(1), tail);
        if any_worth(arrivals) {
            let i = choose|i: int| 0 <= i < arrivals.len() && (#[trigger] arrivals[i]).1;
            if i > 0 {
                assert(arrivals.skip(1)[i - 1] == arrivals[i]);
            }
        }
        if any_worth(arrivals.skip(1)) {
            let i = choose|i: int| 0 <= i < arrivals.skip(1).len() && (#[trigger] arrivals.skip(1)[i]).1;
            assert(arrivals[i + 1] == arrivals.skip(1)[i]);
        }
    }
}

/// Over a whole run of bursts, each closed by quiet, by the watcher going, or
/// by a change that comes [`PUT_OFF_AT_MOST`] or more after the burst began
/// (and is counted in it), the browser is refreshed once per burst, in order,
/// as the burst closes, and each refresh is worth a line exactly when one of
/// its burst's changes is.
pub proof fn law_one_refresh_per_burst(bursts: Seq<(Seq<(u64, bool)>, Heard)>)
    requires
        forall|b: int| 0 <= b < bursts.len() ==> whole_burst(#[trigger] bursts[b]),
    ensures
        refreshes(None, run_of(bursts)) == bursts.map_values(|burst: (Seq<(u64, bool)>, Heard)| burst_worth(burst)),
    decreases bursts.len(),
{
    let worths = bursts.map_values(|burst: (Seq<(u64, bool)>, Heard)| burst_worth(burst));
    if bursts.len() == 0 {
        assert(worths == Seq::<bool>::empty());
    } else {
        let (arrivals, close) = bursts[0];
        assert(whole_burst(bursts[0]));
        let rest = bursts.skip(1);
        assert forall|b: int| 0 <= b < rest.len() implies whole_burst(#[trigger] rest[b]) by {
            assert(rest[b] == bursts[b + 1]);
        }
        law_one_refresh_per_burst(rest);
        let later = run_of(rest);
        let tail = seq![close] + later;
        let first = arrivals[0];
        let open = Burst { began: first.0, last: first.0, worth_a_line: first.1 };
        let heard = run_of(bursts);
        assert(heard == changes(arrivals) + tail);
        assert(heard[0] == Heard::Change { at: first.0, worth_a_line: first.1 });
        assert(after_heard(None, heard[0]) == (Some(open), None::<bool>));
        assert(heard.skip(1) == changes(arrivals.skip(1)) + tail);
        assert forall|i: int| 0 <= i < arrivals.skip(1).len() implies (#[trigger] arrivals.skip(1)[i]).0 - open.began
            < PUT_OFF_AT_MOST by {
            assert(arrivals.skip(1)[i] == arrivals[i + 1]);
        }
        assert(tail[0] == close);
        assert(tail.skip(1) == later);
        lemma_burst_closes(open, arrivals.skip(1), tail);
        assert(any_worth(arrivals) == (first.1 || any_worth(arrivals.skip(1)))) by {
            if any_worth(arrivals) {
                let i = choose|i: int| 0 <= i < arrivals.len() && (#[trigger] arrivals[i]).1;
                if i > 0 {
                    assert(arrivals.skip(1)[i - 1] == arrivals[i]);
                }
            }
            if any_worth(arrivals.skip(1)) {
                let i = choose|i: int| 0 <= i < arrivals.skip(1).len() && (#[trigger] arrivals.skip(1)[i]).1;
                assert(arrivals[i + 1] == arrivals.skip(1)[i]);
            }
        }
        assert(worths[0] == burst_worth(bursts[0]));
        assert(worths.skip(1) == rest.map_values(|burst: (Seq<(u64, bool)>, Heard)| burst_worth(burst)));
        assert(worths == seq![worths[0]] + worths.skip(1));
    }
}

/// Whatever came before, nothing is left waiting once the watcher stops: the
/// burst still open is refreshed, and no burst stays open.
pub proof fn law_nothing_waits_past_the_watcher(burst: Option<Burst>)
    ensures
        after_heard(burst, Heard::Gone) == (None::<Burst>, match burst {
            Some(open) => Some(open.worth_a_line),
            None => None,
        }),
{
}

/// A refresh is put off no longer than [`PUT_OFF_AT_MOST`]: a change arriving
/// that long after its burst began refreshes at once.
pub proof fn law_a_refresh_is_put_off_a_second_at_most(open: Burst, at: u64, worth_a_line: bool)
    requires
        at - open.began >= PUT_OFF_AT_MOST,
    ensures
        after_heard(Some(open), Heard::Change { at, worth_a_line }) == (None::<Burst>, Some(
            open.worth_a_line || worth_a_line,
        )),
{
}

} // verus!

verus! {

#[verifier::external_type_specification]
#[verifier::external_body]
pub struct ExInstant(std::time::Instant);

#[verifier::external_type_specification]
#[verifier::external_body]
#[verifier::reject_recursive_types(T)]
pub struct ExReceiver<T>(std::sync::mpsc::Receiver<T>);

/// The watch's clock: nanoseconds since it was started.
pub struct Clock {
    pub(crate) started: std::time::Instant,
}

/// `Instant::now()`: the time now, which says nothing a proof could use.
#[verifier::external_body]
fn instant_now() -> std::time::Instant {
    std::time::Instant::now()
}

/// `Instant::elapsed`: how long since `started`. That depends on the machine
/// and when it is asked, so nothing is claimed of it.
#[verifier::external_body]
pub(crate) fn elapsed(started: &std::time::Instant) -> std::time::Duration {
    started.elapsed()
}

/// `Duration::as_nanos`: a duration in whole nanoseconds. A duration is opaque
/// here, so nothing is claimed of the number.
#[verifier::external_body]
pub(crate) fn as_nanos(duration: &std::time::Duration) -> u128 {
    duration.as_nanos()
}

/// `Duration::from_nanos`: a duration of the given nanoseconds. A duration is
/// opaque here, so nothing is claimed of it beyond its type.
#[verifier::external_body]
pub(crate) fn from_nanos(nanos: u64) -> std::time::Duration {
    std::time::Duration::from_nanos(nanos)
}

/// Whether `now` is a reading of `clock`: the whole nanoseconds that
/// `Instant::elapsed` gave since it started, as `Duration::as_nanos` counts
/// them, stopping at the largest `u64`.
pub closed spec fn reads_nanos(clock: Clock, now: u64) -> bool {
    exists|d: std::time::Duration, n: u128|
        call_ensures(elapsed, (&clock.started,), d) && call_ensures(as_nanos, (&d,), n) && now == (if n
            > u64::MAX { u64::MAX as int } else { n as int })
}

/// A count of nanoseconds as a `u64`, stopping at its largest.
pub fn saturated(nanos: u128) -> (count: u64)
    ensures
        count == if nanos > u64::MAX { u64::MAX as int } else { nanos as int },
{
    if nanos > u64::MAX as u128 {
        u64::MAX
    } else {
        nanos as u64
    }
}

impl Clock {
    /// A clock that starts now.
    pub fn start() -> Clock {
        Clock { started: instant_now() }
    }

    /// Nanoseconds since the clock started; a `u64` holds 584 years of them,
    /// and the count stops at its largest.
    pub fn now(&self) -> (now: u64)
        ensures
            reads_nanos(*self, now),
    {
        let d = elapsed(&self.started);
        let n = as_nanos(&d);
        assert(call_ensures(as_nanos, (&d,), n));
        saturated(n)
    }
}

/// The watch's clock counts nanoseconds: a reading is exactly the nanoseconds
/// `Instant::elapsed` gives since the clock started, as `Duration::as_nanos`
/// counts them, and it differs from that count only where the count passes
/// the largest `u64`. So [`QUIET_FOR`] and [`PUT_OFF_AT_MOST`], measured on
/// it, are 150 milliseconds and one second.
pub(crate) proof fn law_the_clock_counts_nanoseconds(clock: Clock, now: u64)
    requires
        reads_nanos(clock, now),
    ensures
        exists|since: std::time::Duration, nanos: u128|
            call_ensures(elapsed, (&clock.started,), since) && call_ensures(as_nanos, (&since,), nanos) && (
            nanos <= u64::MAX ==> now == nanos) && (nanos > u64::MAX ==> now == u64::MAX),
{
}

/// What came of waiting on a channel for a while.
pub enum Received<T> {
    Value(T),
    TimedOut,
    Disconnected,
}

/// `Receiver::recv`: the next value, or `None` once every sender is gone. What
/// arrives, and whether anything does, depends on the other threads, so
/// nothing more is claimed; that it never times out is in its type.
#[verifier::external_body]
pub(crate) fn receive(changes: &std::sync::mpsc::Receiver<bool>) -> Option<bool> {
    changes.recv().ok()
}

/// `Receiver::recv_timeout` for the given time: a value, the time running
/// out, or every sender gone. Which depends on the other threads, so nothing
/// is claimed of it.
#[verifier::external_body]
pub(crate) fn receive_within(changes: &std::sync::mpsc::Receiver<bool>, timeout: std::time::Duration) -> Received<bool> {
    match changes.recv_timeout(timeout) {
        Ok(value) => Received::Value(value),
        Err(std::sync::mpsc::RecvTimeoutError::Timeout) => Received::TimedOut,
        Err(std::sync::mpsc::RecvTimeoutError::Disconnected) => Received::Disconnected,
    }
}

/// What a wait that ended with `received` was heard as, at `now`.
pub fn heard_from(received: Received<bool>, now: u64) -> (heard: Heard)
    ensures
        heard == match received {
            Received::Value(worth_a_line) => Heard::Change { at: now, worth_a_line },
            Received::TimedOut => Heard::Quiet,
            Received::Disconnected => Heard::Gone,
        },
{
    match received {
        Received::Value(worth_a_line) => Heard::Change { at: now, worth_a_line },
        Received::TimedOut => Heard::Quiet,
        Received::Disconnected => Heard::Gone,
    }
}

/// How long is left until `until` at `now`: none once it has passed.
pub fn time_left(until: u64, now: u64) -> (left: u64)
    ensures
        left == if until > now { until - now } else { 0 },
{
    if until > now {
        until - now
    } else {
        0
    }
}

/// What a wait with no time limit ended with: a value, or every sender gone.
pub fn received_from(value: Option<bool>) -> (received: Received<bool>)
    ensures
        received == match value {
            Some(v) => Received::Value(v),
            None => Received::<bool>::Disconnected,
        },
{
    match value {
        Some(v) => Received::Value(v),
        None => Received::Disconnected,
    }
}

/// How long is left until `until` at `now`, in nanoseconds: none once it has
/// passed.
pub open spec fn left_until(until: u64, now: u64) -> u64 {
    if until > now {
        (until - now) as u64
    } else {
        0
    }
}

/// How a wait that ended with `received` at the clock reading `now` is heard.
pub open spec fn heard_of(received: Received<bool>, now: u64) -> Heard {
    match received {
        Received::Value(worth_a_line) => Heard::Change { at: now, worth_a_line },
        Received::TimedOut => Heard::Quiet,
        Received::Disconnected => Heard::Gone,
    }
}

/// Whether `heard` is what one wait on `changes` came to. With no time given,
/// the wait is `Receiver::recv`, and its value, or the channel closing, is
/// heard at a later reading of `clock`. With a time `until`, the clock is read
/// first, `Receiver::recv_timeout` is handed a `Duration` of the nanoseconds
/// left until `until` at that reading (none once it has passed), and what it
/// returns is heard at a later reading.
pub closed spec fn waited(
    changes: &std::sync::mpsc::Receiver<bool>,
    until: Option<u64>,
    clock: Clock,
    heard: Heard,
) -> bool {
    match until {
        None => exists|value: Option<bool>, then: u64|
            call_ensures(receive, (changes,), value) && reads_nanos(clock, then) && heard == heard_of(
                match value {
                    Some(v) => Received::Value(v),
                    None => Received::<bool>::Disconnected,
                },
                then,
            ),
        Some(until) => exists|start: u64, timeout: std::time::Duration, received: Received<bool>, then: u64|
            reads_nanos(clock, start) && call_ensures(from_nanos, (left_until(until, start),), timeout)
                && call_ensures(receive_within, (changes, timeout), received) && reads_nanos(clock, then) && heard
                == heard_of(received, then),
    }
}

/// Waits for the watcher's next change, up to the given time on `clock` if
/// there is one. A change already waiting counts even when that time has
/// passed. Without a time it waits for as long as it takes, so the wait is
/// never heard as quiet.
///
/// What arrives, and when, depends on other threads and the clock; the wait
/// is handed [`time_left`] until `until`, and what comes back is read by
/// [`received_from`] and [`heard_from`], each stated exactly.
pub fn wait_for_change(changes: &std::sync::mpsc::Receiver<bool>, until: Option<u64>, clock: &Clock) -> (heard: Heard)
    ensures
        until is None ==> !(heard is Quiet),
        waited(changes, until, *clock, heard),
{
    match until {
        None => {
            let value = receive(changes);
            let received = received_from(value);
            let then = clock.now();
            let heard = heard_from(received, then);
            assert(call_ensures(receive, (changes,), value));
            assert(reads_nanos(*clock, then));
            assert(heard == heard_of(
                match value {
                    Some(v) => Received::Value(v),
                    None => Received::<bool>::Disconnected,
                },
                then,
            ));
            heard
        },
        Some(until) => {
            let start = clock.now();
            let left = time_left(until, start);
            let timeout = from_nanos(left);
            let received = receive_within(changes, timeout);
            let then = clock.now();
            let heard = heard_from(received, then);
            assert(call_ensures(from_nanos, (left_until(until, start),), timeout));
            assert(call_ensures(receive_within, (changes, timeout), received));
            assert(reads_nanos(*clock, start));
            assert(reads_nanos(*clock, then));
            assert(heard == heard_of(received, then));
            heard
        },
    }
}

/// With a time to wait until, the wait on the channel is bounded by the time
/// left: `Receiver::recv_timeout` is handed exactly the nanoseconds from a
/// reading of the clock taken before the wait up to `until`, or none once
/// `until` has passed; so quiet is heard no later than the deadline on the
/// clock, never at some multiple of it.
pub(crate) proof fn law_a_wait_is_bounded_by_the_time_left(
    changes: &std::sync::mpsc::Receiver<bool>,
    until: u64,
    clock: Clock,
    heard: Heard,
)
    requires
        waited(changes, Some(until), clock, heard),
    ensures
        exists|start: u64, timeout: std::time::Duration, received: Received<bool>|
            reads_nanos(clock, start) && call_ensures(
                from_nanos,
                (if until > start {
                    (until - start) as u64
                } else {
                    0u64
                },),
                timeout,
            ) && call_ensures(receive_within, (changes, timeout), received) && (heard is Quiet <==> received
                is TimedOut),
{
}

/// Without a time to wait until, the wait is `Receiver::recv`, which never
/// times out: what is heard is the value it gave, as a change at a reading of
/// the clock after it, or the watcher gone when it gave none.
pub(crate) proof fn law_a_wait_without_a_time_is_never_quiet(
    changes: &std::sync::mpsc::Receiver<bool>,
    clock: Clock,
    heard: Heard,
)
    requires
        waited(changes, None, clock, heard),
    ensures
        exists|value: Option<bool>|
            call_ensures(receive, (changes,), value) && match value {
                Some(v) => heard matches Heard::Change { at, worth_a_line } && worth_a_line == v && reads_nanos(
                    clock,
                    at,
                ),
                None => heard is Gone,
            },
{
}

} // verus!
