//! The time of day and the clock face.
use vstd::prelude::*;

use crate::color::RGB8;
use crate::layout::{
    hour_hand, hour_hands, lemma_hands_inside_ring, lemma_second_on_string, light_of_second, second_led, NUM_LEDS,
};

verus! {

/// Nanoseconds in one second.
pub const SECOND: u64 = 1_000_000_000;

/// Nanoseconds in one minute.
pub const MINUTE: u64 = 60_000_000_000;

/// Nanoseconds in one hour.
pub const HOUR: u64 = 3_600_000_000_000;

/// Nanoseconds in one day.
pub const DAY: u64 = 86_400_000_000_000;

/// The earliest and the latest instant lie this many days from the start of 1900.
pub const REACH: u64 = 1_196_851_200;

/// The instant that stands for `ns` nanoseconds since the start of 1900, UTC: itself,
/// or the earliest or latest one there is.
pub open spec fn held(ns: int) -> int {
    if ns < -(REACH * DAY) {
        -(REACH * DAY)
    } else if ns > REACH * DAY {
        REACH * DAY
    } else {
        ns
    }
}

/// Nanoseconds since midnight.
pub open spec fn since_midnight(ns: int) -> int {
    held(ns) % (DAY as int)
}

/// The hour of the day, the minute of the hour and the second of the minute.
pub open spec fn hms(ns: int) -> (int, int, int) {
    (
        since_midnight(ns) / (HOUR as int),
        since_midnight(ns) / (MINUTE as int) % 60,
        since_midnight(ns) / (SECOND as int) % 60,
    )
}

/// Calls `hifitime::Epoch::to_gregorian_utc` on the UTC epoch that lies `ns`
/// nanoseconds after the start of 1900, and keeps the hour, the minute and the second.
///
/// UTC epochs count days of 86400 seconds, so these follow from the nanoseconds since
/// midnight. Beyond 32768 centuries of 36525 days in either direction the epoch stays
/// at that bound.
#[verifier::external_body]
fn gregorian_utc(ns: i128) -> (time: (u8, u8, u8))
    ensures
        time.0 == hms(ns as int).0,
        time.1 == hms(ns as int).1,
        time.2 == hms(ns as int).2,
{
    let now = hifitime::Epoch::from_utc_duration(hifitime::Duration::from_total_nanoseconds(ns));
    let (_year, _month, _day, hour, min, sec, _) = now.to_gregorian_utc();
    (hour, min, sec)
}

/// The hour, the minute and the second of an instant, given in nanoseconds since the
/// start of 1900, UTC.
pub fn time_of_day(ns: i128) -> (time: (u8, u8, u8))
    ensures
        time.0 == hms(ns as int).0,
        time.1 == hms(ns as int).1,
        time.2 == hms(ns as int).2,
        time.0 < 24,
        time.1 < 60,
        time.2 < 60,
{
    gregorian_utc(ns)
}

/// The color of the second light.
pub open spec fn second_color() -> RGB8 {
    RGB8 { r: 200, g: 200, b: 200 }
}

/// The color of the minute light.
pub open spec fn minute_color() -> RGB8 {
    RGB8 { r: 125, g: 125, b: 125 }
}

/// The color of the hour hand.
pub open spec fn hour_color() -> RGB8 {
    RGB8 { r: 50, g: 50, b: 50 }
}

/// The clock face at an hour in 24 hour clock: the hand of that hour over the minute
/// light over the second light, on a dark background.
pub open spec fn face(hour: int, min: int, sec: int) -> Seq<RGB8> {
    Seq::new(
        NUM_LEDS as nat,
        |led: int|
            if hour_hand((hour + 11) % 12).contains(led as usize) {
                hour_color()
            } else if led == second_led(min) {
                minute_color()
            } else if led == second_led(sec) {
                second_color()
            } else {
                RGB8 { r: 0, g: 0, b: 0 }
            },
    )
}

/// A picture with the light of a second set on top.
pub open spec fn with_second(data: Seq<RGB8>, sec: int) -> Seq<RGB8> {
    data.update(second_led(sec), second_color())
}

/// Sets the light of the second `sec` on top of a picture.
pub fn add_second(data: &[RGB8; 320], sec: u8) -> (data_to_write: [RGB8; 320])
    requires
        sec < 60,
    ensures
        data_to_write@ == with_second(data@, sec as int),
        data_to_write@[second_led(sec as int)] == (RGB8 { r: 200, g: 200, b: 200 }),
        forall|led: int|
            0 <= led < NUM_LEDS && led != second_led(sec as int) ==> #[trigger] data_to_write@[led] == data@[led],
{
    let mut data_to_write: [RGB8; 320] = *data;
    // set the second light
    data_to_write[light_of_second(sec)] = RGB8::new(200, 200, 200);
    data_to_write
}

/// A picture with the LEDs of a hand set on top.
pub open spec fn with_hand(data: Seq<RGB8>, hand: Seq<usize>) -> Seq<RGB8> {
    Seq::new(
        data.len(),
        |led: int|
            if hand.contains(led as usize) {
                hour_color()
            } else {
                data[led]
            },
    )
}

/// Sets the LEDs of a hand on top of a picture.
fn add_hand(data: &mut [RGB8; 320], hand: &[usize])
    requires
        forall|i: int| 0 <= i < hand@.len() ==> #[trigger] hand@[i] < NUM_LEDS,
    ensures
        final(data)@ == with_hand(old(data)@, hand@),
{
    let ghost start: Seq<RGB8> = data@;
    let mut i: usize = 0;
    proof {
        assert(data@ =~= with_hand(start, hand@.take(0)));
    }
    while i < hand.len()
        invariant
            i <= hand.len(),
            start.len() == NUM_LEDS,
            forall|j: int| 0 <= j < hand@.len() ==> #[trigger] hand@[j] < NUM_LEDS,
            data@ == with_hand(start, hand@.take(i as int)),
        decreases hand.len() - i,
    {
        let led: usize = hand[i];
        data[led] = RGB8::new(50, 50, 50);
        proof {
            lemma_hand_grows(start, hand@, i as int);
        }
        i = i + 1;
    }
    proof {
        assert(hand@.take(i as int) =~= hand@);
    }
}

/// Setting one more LED of a hand.
proof fn lemma_hand_grows(data: Seq<RGB8>, hand: Seq<usize>, i: int)
    requires
        0 <= i < hand.len(),
        hand[i] < data.len() <= usize::MAX,
    ensures
        with_hand(data, hand.take(i)).update(hand[i] as int, hour_color()) == with_hand(data, hand.take(i + 1)),
{
    let before: Seq<usize> = hand.take(i);
    let after: Seq<usize> = hand.take(i + 1);
    assert forall|led: usize| after.contains(led) <==> #[trigger] before.contains(led) || led == hand[i] by {
        if before.contains(led) {
            let j: int = choose|j: int| 0 <= j < before.len() && before[j] == led;
            assert(after[j] == led);
        }
        if led == hand[i] {
            assert(after[i] == led);
        }
        if after.contains(led) {
            let j: int = choose|j: int| 0 <= j < after.len() && after[j] == led;
            if j < i {
                assert(before[j] == led);
            }
        }
    }
    let grown: Seq<RGB8> = with_hand(data, before).update(hand[i] as int, hour_color());
    assert forall|led: int| 0 <= led < data.len() implies #[trigger] grown[led] == with_hand(data, after)[led] by {
        assert(after.contains(led as usize) <==> before.contains(led as usize) || led as usize == hand[i]);
    }
    assert(grown =~= with_hand(data, after));
}

/// Draws a time of day on a dark background. The hour is given in 24 hour clock.
pub fn draw_time(hour: u8, min: u8, sec: u8) -> (data_to_write: [RGB8; 320])
    requires
        min < 60,
        sec < 60,
    ensures
        data_to_write@ == face(hour as int, min as int, sec as int),
        forall|led: int|
            0 <= led < NUM_LEDS && led != second_led(min as int) && led != second_led(sec as int) && !hour_hand(
                (hour + 11) % 12,
            ).contains(led as usize) ==> #[trigger] data_to_write@[led] == (RGB8 { r: 0, g: 0, b: 0 }),
{
    let data: [RGB8; 320] = [RGB8 { r: 0, g: 0, b: 0 }; 320];
    let mut data_to_write: [RGB8; 320] = add_second(&data, sec);
    // set the minute light
    data_to_write[light_of_second(min)] = RGB8::new(125, 125, 125);
    let ghost ring: Seq<RGB8> = data_to_write@;
    // set the hour hand
    let hand: &[usize] = hour_hands((hour as usize + 11) % 12);
    proof {
        assert forall|i: int| 0 <= i < hand@.len() implies #[trigger] hand@[i] < NUM_LEDS by {
            lemma_hands_inside_ring((hour + 11) % 12, i, 0);
        }
    }
    add_hand(&mut data_to_write, hand);
    proof {
        let done: Seq<RGB8> = face(hour as int, min as int, sec as int);
        lemma_second_on_string(sec as int);
        assert forall|led: int| 0 <= led < NUM_LEDS implies #[trigger] data_to_write@[led] == done[led] by {
            assert(data_to_write@[led] == with_hand(ring, hand@)[led]);
            assert(data@[led] == RGB8 { r: 0, g: 0, b: 0 });
        }
        assert(data_to_write@ =~= done);
    }
    data_to_write
}

} // verus!
