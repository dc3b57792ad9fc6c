//! What each operation does, in numbers: the lights, the hands, the pictures, the merged
//! rows, the time and the words.
use vstd::prelude::*;
use vstd::arithmetic::div_mod::{lemma_fundamental_div_mod_converse, lemma_mod_breakdown, lemma_mod_mod};

use crate::clock::{face, hms, with_second};
use crate::color::RGB8;
use crate::double::Double;
use crate::layout::{
    antenna_led, hour_hand, lemma_antennas_permute, lemma_hands_inside_ring, lemma_second_on_string,
    second_led, HOUR01, HOUR02, HOUR03, HOUR04, HOUR05, HOUR06, HOUR07, HOUR08, HOUR09, HOUR10, HOUR11, HOUR12,
    ANTENNAS, SECONDS,
};
use crate::laws::lemma_merged;
use crate::stats::{blend, merged, HeraAuto, LedStat};
use crate::tasks::{last_entry, painted};

verus! {

/// The light of a second is its entry in the table `SECONDS`, and the lights follow the
/// rim of the string: along the top, down one side step by step, along the bottom and up
/// the other side. The last second stays where the one before it is.
pub proof fn lemma_second_lights(s: int)
    requires
        0 <= s < 60,
    ensures
        second_led(s) == SECONDS@[s],
        s < 16 ==> second_led(s) == 214 - s,
        16 <= s < 24 ==> second_led(s) == 180 - 20 * ((s - 16) / 2) - s % 2,
        24 <= s < 36 ==> second_led(s) == s - 24,
        36 <= s < 44 ==> second_led(s) == 32 + 22 * ((s - 36) / 2) + s % 2,
        44 <= s < 52 ==> second_led(s) == 309 - 22 * ((s - 44) / 2) - s % 2,
        52 <= s < 59 ==> second_led(s) == 273 - s,
        s == 59 ==> second_led(s) == second_led(58),
{
    reveal(second_led);
}

/// The hand of each hour is the table of that name, from hour 1 to hour 12.
pub proof fn lemma_hand_of_each_hour()
    ensures
        hour_hand(0) == HOUR01@,
        hour_hand(1) == HOUR02@,
        hour_hand(2) == HOUR03@,
        hour_hand(3) == HOUR04@,
        hour_hand(4) == HOUR05@,
        hour_hand(5) == HOUR06@,
        hour_hand(6) == HOUR07@,
        hour_hand(7) == HOUR08@,
        hour_hand(8) == HOUR09@,
        hour_hand(9) == HOUR10@,
        hour_hand(10) == HOUR11@,
        hour_hand(11) == HOUR12@,
{
    reveal(hour_hand);
}

/// The LEDs of each hand, from the middle of the face to the tip.
pub proof fn lemma_hand_lights()
    ensures
        hour_hand(0) == seq![319usize, 298usize, 297usize, 276usize, 275usize, 254usize, 253usize, 232usize, 231usize],
        hour_hand(1) == seq![110usize, 131usize, 152usize, 173usize, 194usize],
        hour_hand(2) == seq![110usize, 128usize, 132usize, 146usize, 154usize, 164usize, 176usize, 182usize, 198usize],
        hour_hand(3) == seq![110usize, 127usize, 134usize, 143usize, 158usize],
        hour_hand(4) == seq![110usize, 111usize, 112usize, 113usize, 114usize, 115usize, 116usize, 117usize, 118usize],
        hour_hand(5) == seq![109usize, 86usize, 63usize, 40usize, 17usize],
        hour_hand(6) == seq![109usize, 89usize, 85usize, 69usize, 61usize, 49usize, 37usize, 29usize, 13usize],
        hour_hand(7) == seq![109usize, 90usize, 83usize, 72usize, 57usize],
        hour_hand(8) == seq![109usize, 108usize, 107usize, 106usize, 105usize, 104usize, 103usize, 102usize, 101usize, 100usize],
        hour_hand(9) == seq![319usize, 300usize, 293usize, 282usize, 267usize],
        hour_hand(10) == seq![319usize, 299usize, 295usize, 279usize, 271usize, 259usize, 247usize, 239usize, 223usize],
        hour_hand(11) == seq![319usize, 296usize, 273usize, 250usize, 227usize],
{
    reveal(hour_hand);
    assert(HOUR01@ =~= seq![319usize, 298usize, 297usize, 276usize, 275usize, 254usize, 253usize, 232usize, 231usize]);
    assert(HOUR02@ =~= seq![110usize, 131usize, 152usize, 173usize, 194usize]);
    assert(HOUR03@ =~= seq![110usize, 128usize, 132usize, 146usize, 154usize, 164usize, 176usize, 182usize, 198usize]);
    assert(HOUR04@ =~= seq![110usize, 127usize, 134usize, 143usize, 158usize]);
    assert(HOUR05@ =~= seq![110usize, 111usize, 112usize, 113usize, 114usize, 115usize, 116usize, 117usize, 118usize]);
    assert(HOUR06@ =~= seq![109usize, 86usize, 63usize, 40usize, 17usize]);
    assert(HOUR07@ =~= seq![109usize, 89usize, 85usize, 69usize, 61usize, 49usize, 37usize, 29usize, 13usize]);
    assert(HOUR08@ =~= seq![109usize, 90usize, 83usize, 72usize, 57usize]);
    assert(HOUR09@ =~= seq![109usize, 108usize, 107usize, 106usize, 105usize, 104usize, 103usize, 102usize, 101usize, 100usize]);
    assert(HOUR10@ =~= seq![319usize, 300usize, 293usize, 282usize, 267usize]);
    assert(HOUR11@ =~= seq![319usize, 299usize, 295usize, 279usize, 271usize, 259usize, 247usize, 239usize, 223usize]);
    assert(HOUR12@ =~= seq![319usize, 296usize, 273usize, 250usize, 227usize]);
}

/// The products that the first antenna of each row is counted by.
proof fn lemma_row_product(row: int)
    requires
        0 <= row < 20,
    ensures
        row * (row - 1) == seq![
            0int, 0, 2, 6, 12, 20, 30, 42, 56, 72, 90, 110, 132, 156, 182, 210, 240, 272, 306, 342,
        ][row],
{
    if row == 0 {
        assert(row * (row - 1) == 0);
    } else if row == 1 {
        assert(row * (row - 1) == 0);
    } else if row == 2 {
        assert(row * (row - 1) == 2);
    } else if row == 3 {
        assert(row * (row - 1) == 6);
    } else if row == 4 {
        assert(row * (row - 1) == 12);
    } else if row == 5 {
        assert(row * (row - 1) == 20);
    } else if row == 6 {
        assert(row * (row - 1) == 30);
    } else if row == 7 {
        assert(row * (row - 1) == 42);
    } else if row == 8 {
        assert(row * (row - 1) == 56);
    } else if row == 9 {
        assert(row * (row - 1) == 72);
    } else if row == 10 {
        assert(row * (row - 1) == 90);
    } else if row == 11 {
        assert(row * (row - 1) == 110);
    } else if row == 12 {
        assert(row * (row - 1) == 132);
    } else if row == 13 {
        assert(row * (row - 1) == 156);
    } else if row == 14 {
        assert(row * (row - 1) == 182);
    } else if row == 15 {
        assert(row * (row - 1) == 210);
    } else if row == 16 {
        assert(row * (row - 1) == 240);
    } else if row == 17 {
        assert(row * (row - 1) == 272);
    } else if row == 18 {
        assert(row * (row - 1) == 306);
    } else {
        assert(row * (row - 1) == 342);
    }
}

/// Where the antennas are on the string.
///
/// The antennas are numbered row by row. There are twenty rows: the first has eleven
/// antennas and each has one more than the row before it, up to the eleventh with
/// twenty-one; from there on each has one less. The string runs to and fro over the first
/// eleven columns, from the first row to the tenth and, with its last part, from the
/// twentieth row back to the eleventh. In between it runs to and fro along the slanted lines
/// that the other columns form; beyond the eleventh row a line moves one column to the left
/// with each row.
pub proof fn lemma_antenna_rows(row: int, col: int, ant: int)
    requires
        0 <= row < 20,
        0 <= col < (if row <= 10 { 11 + row } else { 31 - row }),
        row <= 10 ==> 2 * ant == 22 * row + row * (row - 1) + 2 * col,
        row > 10 ==> 2 * ant == 62 * row - 220 - row * (row - 1) + 2 * col,
    ensures
        0 <= ant < 320,
        antenna_led(ant) == ANTENNAS@[ant],
        col < 11 && row < 10 ==> antenna_led(ant) == 11 * row + (if row % 2 == 0 { 10 - col } else { col }),
        col < 11 && row >= 10 ==> antenna_led(ant) == 419 - 11 * row + (if row % 2 == 0 { col } else { 10 - col }),
        ({
            let line = if row <= 10 { col } else { col + row - 10 };
            col >= 11 ==> antenna_led(ant) == 10 * line + (if line % 2 == 0 { 10 + row - line } else { line - 1 - row })
        }),
{
    reveal(antenna_led);
    lemma_row_product(row);
}

/// Every antenna is in one of the rows.
pub proof fn lemma_antenna_in_a_row(ant: int) -> (place: (int, int))
    requires
        0 <= ant < 320,
    ensures
        0 <= place.0 < 20,
        0 <= place.1 < (if place.0 <= 10 { 11 + place.0 } else { 31 - place.0 }),
        place.0 <= 10 ==> 2 * ant == 22 * place.0 + place.0 * (place.0 - 1) + 2 * place.1,
        place.0 > 10 ==> 2 * ant == 62 * place.0 - 220 - place.0 * (place.0 - 1) + 2 * place.1,
{
    let place: (int, int) = if ant < 11 {
        (0, ant)
    } else if ant < 23 {
        (1, ant - 11)
    } else if ant < 36 {
        (2, ant - 23)
    } else if ant < 50 {
        (3, ant - 36)
    } else if ant < 65 {
        (4, ant - 50)
    } else if ant < 81 {
        (5, ant - 65)
    } else if ant < 98 {
        (6, ant - 81)
    } else if ant < 116 {
        (7, ant - 98)
    } else if ant < 135 {
        (8, ant - 116)
    } else if ant < 155 {
        (9, ant - 135)
    } else if ant < 176 {
        (10, ant - 155)
    } else if ant < 196 {
        (11, ant - 176)
    } else if ant < 215 {
        (12, ant - 196)
    } else if ant < 233 {
        (13, ant - 215)
    } else if ant < 250 {
        (14, ant - 233)
    } else if ant < 266 {
        (15, ant - 250)
    } else if ant < 281 {
        (16, ant - 266)
    } else if ant < 295 {
        (17, ant - 281)
    } else if ant < 308 {
        (18, ant - 295)
    } else {
        (19, ant - 308)
    };
    lemma_row_product(place.0);
    place
}

/// Setting the light of a second changes that light and nothing else.
pub proof fn lemma_only_the_second_changes(data: Seq<RGB8>, sec: int, led: int)
    requires
        data.len() == 320,
        0 <= sec < 60,
        0 <= led < 320,
    ensures
        with_second(data, sec).len() == 320,
        led == SECONDS@[sec] ==> with_second(data, sec)[led] == (RGB8 { r: 200, g: 200, b: 200 }),
        led != SECONDS@[sec] ==> with_second(data, sec)[led] == data[led],
{
    lemma_second_lights(sec);
    lemma_second_on_string(sec);
}

/// What every LED of the clock face shows: the hand of the hour is dim, the minute is
/// brighter, the second is brightest, and everything else is off. The hands are clear of
/// the minutes and seconds; a second at the place of the minute is covered by it.
pub proof fn lemma_face_of_the_clock(hour: int, min: int, sec: int, led: int)
    requires
        0 <= min < 60,
        0 <= sec < 60,
        0 <= led < 320,
    ensures
        face(hour, min, sec).len() == 320,
        hour_hand((hour + 11) % 12).contains(led as usize) ==> face(hour, min, sec)[led] == (RGB8 {
            r: 50,
            g: 50,
            b: 50,
        }),
        led == second_led(min) ==> face(hour, min, sec)[led] == (RGB8 { r: 125, g: 125, b: 125 }),
        led == second_led(sec) && led != second_led(min) ==> face(hour, min, sec)[led] == (RGB8 {
            r: 200,
            g: 200,
            b: 200,
        }),
        !hour_hand((hour + 11) % 12).contains(led as usize) && led != second_led(min) && led != second_led(sec)
            ==> face(hour, min, sec)[led] == (RGB8 { r: 0, g: 0, b: 0 }),
{
    let hand: Seq<usize> = hour_hand((hour + 11) % 12);
    lemma_second_on_string(min);
    lemma_second_on_string(sec);
    if hand.contains(led as usize) {
        let j: int = choose|j: int| 0 <= j < hand.len() && hand[j] == led as usize;
        lemma_hands_inside_ring((hour + 11) % 12, j, min);
        lemma_hands_inside_ring((hour + 11) % 12, j, sec);
    }
}

/// The hand that each hour of a 24 hour clock shows: noon and midnight are hour 12.
pub proof fn lemma_hand_of_the_day(hour: int)
    ensures
        hour % 12 == 0 ==> hour_hand((hour + 11) % 12) == HOUR12@,
        hour % 12 == 1 ==> hour_hand((hour + 11) % 12) == HOUR01@,
        hour % 12 == 2 ==> hour_hand((hour + 11) % 12) == HOUR02@,
        hour % 12 == 3 ==> hour_hand((hour + 11) % 12) == HOUR03@,
        hour % 12 == 4 ==> hour_hand((hour + 11) % 12) == HOUR04@,
        hour % 12 == 5 ==> hour_hand((hour + 11) % 12) == HOUR05@,
        hour % 12 == 6 ==> hour_hand((hour + 11) % 12) == HOUR06@,
        hour % 12 == 7 ==> hour_hand((hour + 11) % 12) == HOUR07@,
        hour % 12 == 8 ==> hour_hand((hour + 11) % 12) == HOUR08@,
        hour % 12 == 9 ==> hour_hand((hour + 11) % 12) == HOUR09@,
        hour % 12 == 10 ==> hour_hand((hour + 11) % 12) == HOUR10@,
        hour % 12 == 11 ==> hour_hand((hour + 11) % 12) == HOUR11@,
{
    lemma_hand_of_each_hour();
}

/// From one second to the next the face changes at the lights of the two seconds only.
pub proof fn lemma_face_ticks(hour: int, min: int, sec: int, led: int)
    requires
        0 <= min < 60,
        0 <= sec < 59,
        0 <= led < 320,
        led != second_led(sec),
        led != second_led(sec + 1),
    ensures
        face(hour, min, sec)[led] == face(hour, min, sec + 1)[led],
{
}

/// Hour, minute and second of an instant, in nanoseconds since the start of 1900, as far
/// as instants reach; beyond, it is midnight.
#[verifier::spinoff_prover]
pub proof fn lemma_clock_time(ns: int)
    ensures
        ({
            let bound = 1_196_851_200 * 86_400_000_000_000int;
            let (hour, min, sec) = hms(ns);
            &&& -bound <= ns <= bound ==> {
                &&& hour == ns % 86_400_000_000_000 / 3_600_000_000_000
                &&& min == ns % 3_600_000_000_000 / 60_000_000_000
                &&& sec == ns % 60_000_000_000 / 1_000_000_000
            }
            &&& ns < -bound || ns > bound ==> hour == 0 && min == 0 && sec == 0
        }),
{
    lemma_within_day(ns);
}

/// The minute of the hour and the second of the minute, in two ways.
proof fn lemma_within_day(ns: int)
    ensures
        ns % 86_400_000_000_000 / 60_000_000_000 % 60 == ns % 3_600_000_000_000 / 60_000_000_000,
        ns % 86_400_000_000_000 / 1_000_000_000 % 60 == ns % 60_000_000_000 / 1_000_000_000,
{
    let t: int = ns % 86_400_000_000_000;
    lemma_mod_mod(ns, 3_600_000_000_000, 24);
    lemma_mod_mod(ns, 60_000_000_000, 1440);
    lemma_middle_digit(t, 60_000_000_000, 60);
    lemma_middle_digit(t, 1_000_000_000, 60);
}

/// Dividing and taking the remainder may be exchanged.
proof fn lemma_middle_digit(x: int, y: int, z: int)
    requires
        0 <= x,
        0 < y,
        0 < z,
    ensures
        x / y % z == x % (y * z) / y,
{
    lemma_mod_breakdown(x, y, z);
    assert((x / y) % z * y == y * ((x / y) % z)) by (nonlinear_arith);
    lemma_fundamental_div_mod_converse(x % (y * z), y, (x / y) % z, x % y);
}

/// Hour, minute and second, from the seconds since midnight.
#[verifier::spinoff_prover]
proof fn lemma_seconds_of_day(ns: int, n: int)
    requires
        -1_196_851_200 * 86_400_000_000_000 <= ns <= 1_196_851_200 * 86_400_000_000_000,
        n == ns % 86_400_000_000_000 / 1_000_000_000,
    ensures
        0 <= n < 86_400,
        hms(ns) == (n / 3600, n / 60 % 60, n % 60),
{
    let t: int = ns % 86_400_000_000_000;
    assert(t / 3_600_000_000_000 == n / 3600);
    assert(t / 60_000_000_000 == n / 60);
}

/// One second after another.
#[verifier::spinoff_prover]
proof fn lemma_day_step(before: (int, int, int), after: (int, int, int), n: int, later: int)
    requires
        0 <= n < 86_400,
        later == (if n < 86_399 { n + 1 } else { 0 }),
        before == (n / 3600, n / 60 % 60, n % 60),
        after == (later / 3600, later / 60 % 60, later % 60),
    ensures
        after == (if before.2 < 59 {
            (before.0, before.1, before.2 + 1)
        } else if before.1 < 59 {
            (before.0, before.1 + 1, 0int)
        } else if before.0 < 23 {
            (before.0 + 1, 0int, 0int)
        } else {
            (0int, 0int, 0int)
        }),
{
}

/// The seconds since midnight, a second later.
proof fn lemma_second_later(ns: int)
    ensures
        ({
            let n = ns % 86_400_000_000_000 / 1_000_000_000;
            (ns + 1_000_000_000) % 86_400_000_000_000 / 1_000_000_000 == (if n < 86_399 { n + 1 } else { 0 })
        }),
{
    let day: int = 86_400_000_000_000;
    let second: int = 1_000_000_000;
    let t: int = ns % day;
    let q: int = ns / day;
    if t + second < day {
        lemma_fundamental_div_mod_converse(ns + second, day, q, t + second);
    } else {
        lemma_fundamental_div_mod_converse(ns + second, day, q + 1, t + second - day);
    }
}

/// A second later the seconds have moved on by one, the minute after every 60 seconds and
/// the hour after every 60 minutes.
#[verifier::spinoff_prover]
pub proof fn lemma_next_second(ns: int)
    requires
        -1_196_851_200 * 86_400_000_000_000 <= ns,
        ns + 1_000_000_000 <= 1_196_851_200 * 86_400_000_000_000,
    ensures
        ({
            let (hour, min, sec) = hms(ns);
            hms(ns + 1_000_000_000) == (if sec < 59 {
                (hour, min, sec + 1)
            } else if min < 59 {
                (hour, min + 1, 0int)
            } else if hour < 23 {
                (hour + 1, 0int, 0int)
            } else {
                (0int, 0int, 0int)
            })
        }),
{
    lemma_second_later(ns);
    let n: int = ns % 86_400_000_000_000 / 1_000_000_000;
    let later: int = (ns + 1_000_000_000) % 86_400_000_000_000 / 1_000_000_000;
    lemma_seconds_of_day(ns, n);
    lemma_seconds_of_day(ns + 1_000_000_000, later);
    lemma_day_step(hms(ns), hms(ns + 1_000_000_000), n, later);
}

/// Without rows nothing is known of an antenna: it is not constructed, and its spectrum is
/// negative infinity.
pub proof fn lemma_no_rows(ant: u16)
    ensures
        merged(Seq::empty(), ant) == (LedStat {
            ant,
            constructed: false,
            spectra: Some(Double { bits: 0xfff0_0000_0000_0000 }),
        }),
{
}

/// One more row changes its own antenna and no other.
pub proof fn lemma_one_more_row(rows: Seq<Option<HeraAuto>>, row: Option<HeraAuto>, ant: u16)
    ensures
        row is None ==> merged(rows.push(row), ant) == merged(rows, ant),
        row is Some && row->0.ant != ant ==> merged(rows.push(row), ant) == merged(rows, ant),
        row is Some && row->0.ant == ant ==> {
            &&& merged(rows.push(row), ant).ant == ant
            &&& merged(rows.push(row), ant).constructed == (merged(rows, ant).constructed || row->0.constructed)
            &&& merged(rows.push(row), ant).spectra == blend(merged(rows, ant).spectra, row->0.spectra)
        },
{
    assert(rows.push(row).drop_last() =~= rows);
    lemma_merged(rows, ant);
}

/// The last entry of an antenna is the one after which no other entry of it comes.
proof fn lemma_last_of(stats: Seq<LedStat>, ant: int, i: int)
    requires
        0 <= i < stats.len(),
        stats[i].ant == ant,
        forall|j: int| i < j < stats.len() ==> (#[trigger] stats[j]).ant != ant,
    ensures
        last_entry(stats, ant) == Some(stats[i]),
    decreases stats.len(),
{
    if i < stats.len() - 1 {
        lemma_last_of(stats.drop_last(), ant, i);
    }
}

/// An antenna without an entry has no last one.
proof fn lemma_last_of_none(stats: Seq<LedStat>, ant: int)
    requires
        forall|j: int| 0 <= j < stats.len() ==> (#[trigger] stats[j]).ant != ant,
    ensures
        last_entry(stats, ant) is None,
    decreases stats.len(),
{
    if stats.len() > 0 {
        lemma_last_of_none(stats.drop_last(), ant);
    }
}

/// The LED of an antenna shows the last entry of it, and keeps what it showed if there is
/// none.
pub proof fn lemma_antenna_painted(data: Seq<RGB8>, stats: Seq<LedStat>, ant: int, i: int)
    requires
        data.len() == 320,
        0 <= ant < 320,
    ensures
        painted(data, stats).len() == 320,
        0 <= i < stats.len() && stats[i].ant == ant && (forall|j: int|
            i < j < stats.len() ==> (#[trigger] stats[j]).ant != ant) ==> painted(data, stats)[ANTENNAS@[ant] as int]
            == stats[i].color(),
        (forall|j: int| 0 <= j < stats.len() ==> (#[trigger] stats[j]).ant != ant) ==> painted(
            data,
            stats,
        )[ANTENNAS@[ant] as int] == data[ANTENNAS@[ant] as int],
{
    lemma_antennas_permute(ant);
    lemma_antenna_entry(ant);
    if 0 <= i < stats.len() && stats[i].ant == ant && (forall|j: int|
        i < j < stats.len() ==> (#[trigger] stats[j]).ant != ant) {
        lemma_last_of(stats, ant, i);
    }
    if forall|j: int| 0 <= j < stats.len() ==> (#[trigger] stats[j]).ant != ant {
        lemma_last_of_none(stats, ant);
    }
}

/// The LED of an antenna is its entry in the table `ANTENNAS`.
pub proof fn lemma_antenna_entry(ant: int)
    requires
        0 <= ant < 320,
    ensures
        antenna_led(ant) == ANTENNAS@[ant],
{
    reveal(antenna_led);
}

} // verus!
