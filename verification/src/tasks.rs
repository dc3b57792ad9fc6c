//! What each of the running tasks does next.
//!
//! A task waits for an event, hands it to its function here, and carries out the
//! action that comes back.
use vstd::prelude::*;

use crate::clock::{add_second, draw_time, face, hms, time_of_day, with_second};
use crate::color::RGB8;
use crate::layout::{antenna_led, led_antenna, lemma_antennas_permute, light_of_antenna, NUM_LEDS};
use crate::stats::{merge_rows, merged, HeraAuto, LedStat};

verus! {

/// What two merged streams yield: an item of the first, or the notice of the second
/// that it is time to stop.
#[derive(Debug)]
pub enum StreamResult<T> {
    Proceed(T),
    Cancel,
}

/// The wait for a signal is over, with or without an error.
pub open spec fn signalled<E>(next: Option<StreamResult<Result<(), E>>>) -> bool {
    next is Some && next->0 is Proceed
}

/// Listen for an interrupt signal: decides what the first event means.
///
/// A signal cancels every task, and whatever the wait for it gave is passed on; that is
/// the pair of "cancel" and the result. If the tasks are cancelled already, or nothing
/// is left to wait for, there is nothing to do.
pub fn interrupt<E>(next: Option<StreamResult<Result<(), E>>>) -> (r: (bool, Result<(), E>))
    ensures
        match next {
            Some(StreamResult::Proceed(sig)) => r == (true, sig),
            _ => r == (false, Ok::<(), E>(())),
        },
        r.0 == signalled(next),
{
    if let Some(StreamResult::Proceed(sig)) = next {
        return (true, sig);
    }
    (false, Ok(()))
}

/// After the first event the tasks are cancelled: either they were (`cancelled`), which
/// is what the notice to stop means, or `interrupt` says to cancel them.
pub proof fn lemma_interrupt_cancels<E>(cancelled: bool, next: Option<StreamResult<Result<(), E>>>)
    requires
        next is Some,
        next->0 is Cancel ==> cancelled,
    ensures
        cancelled || signalled(next),
{
}

/// Print the current time on a static background: the picture to write, or `None` to
/// end. The item is the current time, in nanoseconds since the start of 1900, UTC.
pub fn write_time(next: Option<StreamResult<i128>>) -> (r: Option<[RGB8; 320]>)
    ensures
        match next {
            Some(StreamResult::Proceed(now)) => {
                &&& r is Some
                &&& r->0@ == face(hms(now as int).0, hms(now as int).1, hms(now as int).2)
            },
            _ => r is None,
        },
{
    if let Some(StreamResult::Proceed(now)) = next {
        let (hour, min, sec): (u8, u8, u8) = time_of_day(now);
        return Some(draw_time(hour, min, sec));
    }
    None
}

/// What the task that draws the antennas waits for. Times are in nanoseconds since the
/// start of 1900, UTC.
#[derive(Debug)]
pub enum AutosEvent {
    /// A second has passed.
    Tick { now: i128 },
    /// New statistics have arrived.
    Stats { stats: [LedStat; 320], now: i128 },
    /// The tasks are cancelled.
    Cancelled,
}

/// What the task that draws the antennas does.
#[derive(Debug)]
pub enum AutosAction {
    /// Write a picture to the string and wait for the next event.
    Write([RGB8; 320]),
    /// End the task.
    Break,
}

/// The last entry for an antenna.
pub open spec fn last_entry(stats: Seq<LedStat>, ant: int) -> Option<LedStat>
    decreases stats.len(),
{
    if stats.len() == 0 {
        None
    } else if stats.last().ant == ant {
        Some(stats.last())
    } else {
        last_entry(stats.drop_last(), ant)
    }
}

/// A picture on which every antenna that has an entry shows its color.
pub open spec fn painted(data: Seq<RGB8>, stats: Seq<LedStat>) -> Seq<RGB8> {
    Seq::new(
        data.len(),
        |led: int|
            match last_entry(stats, led_antenna(led)) {
                Some(stat) => stat.color(),
                None => data[led],
            },
    )
}

/// A picture with every LED off.
pub fn dark() -> (data: [RGB8; 320])
    ensures
        forall|led: int| 0 <= led < NUM_LEDS ==> #[trigger] data@[led] == (RGB8 { r: 0, g: 0, b: 0 }),
{
    [RGB8 { r: 0, g: 0, b: 0 }; 320]
}

/// Shows every entry on the LED of its antenna.
fn paint(data: &mut [RGB8; 320], stats: &[LedStat; 320])
    requires
        forall|i: int| 0 <= i < NUM_LEDS ==> (#[trigger] stats@[i]).ant < NUM_LEDS,
    ensures
        final(data)@ == painted(old(data)@, stats@),
{
    let ghost start: Seq<RGB8> = data@;
    let mut i: usize = 0;
    proof {
        assert(data@ =~= painted(start, stats@.take(0)));
    }
    while i < 320
        invariant
            i <= 320,
            start.len() == NUM_LEDS,
            stats@.len() == NUM_LEDS,
            forall|j: int| 0 <= j < NUM_LEDS ==> (#[trigger] stats@[j]).ant < NUM_LEDS,
            data@ == painted(start, stats@.take(i as int)),
        decreases 320 - i,
    {
        let stat: LedStat = stats[i];
        proof {
            lemma_painted_grows(start, stats@, i as int);
        }
        data[light_of_antenna(stat.ant)] = stat.get_color();
        i = i + 1;
    }
    proof {
        assert(stats@.take(i as int) =~= stats@);
    }
}

/// Painting one more entry.
proof fn lemma_painted_grows(data: Seq<RGB8>, stats: Seq<LedStat>, i: int)
    requires
        data.len() == NUM_LEDS,
        0 <= i < stats.len(),
        stats[i].ant < NUM_LEDS,
    ensures
        painted(data, stats.take(i)).update(antenna_led(stats[i].ant as int), stats[i].color()) == painted(
            data,
            stats.take(i + 1),
        ),
{
    let ant: int = stats[i].ant as int;
    let before: Seq<LedStat> = stats.take(i);
    let after: Seq<LedStat> = stats.take(i + 1);
    assert(after.drop_last() =~= before);
    assert(after.last() == stats[i]);
    lemma_antennas_permute(ant);
    let grown: Seq<RGB8> = painted(data, before).update(antenna_led(ant), stats[i].color());
    assert forall|led: int| 0 <= led < NUM_LEDS implies #[trigger] grown[led] == painted(data, after)[led] by {
        lemma_antennas_permute(led);
    }
    assert(grown =~= painted(data, after));
}

/// Print the autospectra with the seconds hand moving around: one event.
///
/// `data` is the picture of the antennas, without the second. New statistics change it,
/// the passing of time does not.
pub fn draw_autos(data: &mut [RGB8; 320], event: AutosEvent) -> (action: AutosAction)
    requires
        event matches AutosEvent::Stats { stats, now } ==> forall|i: int|
            0 <= i < NUM_LEDS ==> (#[trigger] stats@[i]).ant < NUM_LEDS,
    ensures
        match event {
            AutosEvent::Tick { now } => {
                &&& final(data)@ == old(data)@
                &&& action matches AutosAction::Write(picture)
                &&& picture@ == with_second(old(data)@, hms(now as int).2)
            },
            AutosEvent::Stats { stats, now } => {
                &&& final(data)@ == painted(old(data)@, stats@)
                &&& action matches AutosAction::Write(picture)
                &&& picture@ == with_second(painted(old(data)@, stats@), hms(now as int).2)
            },
            AutosEvent::Cancelled => final(data)@ == old(data)@ && action is Break,
        },
{
    match event {
        AutosEvent::Tick { now } => {
            let (_hour, _min, sec): (u8, u8, u8) = time_of_day(now);
            AutosAction::Write(add_second(data, sec))
        },
        AutosEvent::Stats { stats, now } => {
            paint(data, &stats);
            let (_hour, _min, sec): (u8, u8, u8) = time_of_day(now);
            AutosAction::Write(add_second(data, sec))
        },
        AutosEvent::Cancelled => AutosAction::Break,
    }
}

/// What the task that probes the statistics waits for.
#[derive(Debug)]
pub enum ProbeEvent {
    /// The next tick of the clock, the notice to stop, or the end of both.
    Next(Option<StreamResult<()>>),
    /// A response with this HTTP status.
    Response(u16),
    /// The rows in the body of a response; a row that could not be read is `None`.
    Rows(Vec<Option<HeraAuto>>),
}

/// What the task that probes the statistics does.
#[derive(Debug)]
pub enum ProbeAction {
    /// Ask for the statistics.
    Fetch,
    /// Read the rows in the body of the response.
    Read,
    /// Send the statistics of all antennas to the worker.
    Send([LedStat; 320]),
    /// Wait for the next tick.
    Wait,
    /// End the task.
    Stop,
}

/// Once a minute, probe heranow for the ant_stats.csv: one event.
pub fn probe_online_stats(event: ProbeEvent) -> (action: ProbeAction)
    ensures
        match event {
            ProbeEvent::Next(Some(StreamResult::Proceed(_))) => action is Fetch,
            ProbeEvent::Next(_) => action is Stop,
            ProbeEvent::Response(status) => if 200 <= status < 300 {
                action is Read
            } else {
                action is Wait
            },
            ProbeEvent::Rows(rows) => {
                &&& action matches ProbeAction::Send(stats)
                &&& forall|ant: u16| ant < NUM_LEDS ==> #[trigger] stats@[ant as int] == merged(rows@, ant)
            },
        },
{
    match event {
        ProbeEvent::Next(next) => {
            if let Some(StreamResult::Proceed(_tick)) = next {
                ProbeAction::Fetch
            } else {
                ProbeAction::Stop
            }
        },
        ProbeEvent::Response(status) => {
            if 200 <= status && status < 300 {
                ProbeAction::Read
            } else {
                ProbeAction::Wait
            }
        },
        ProbeEvent::Rows(rows) => ProbeAction::Send(merge_rows(&rows)),
    }
}

} // verus!
