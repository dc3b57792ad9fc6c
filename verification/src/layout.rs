//! Where the LEDs are: the order of the string, the antennas and the clock face.
use vstd::prelude::*;

verus! {

/// Number of LEDs on the string, one for each antenna.
pub const NUM_LEDS: usize = 320;

/// The entry is the light corresponding to the index's second.
/// e.g. second 3 of every minute should illuminate LED 211
pub const SECONDS: [usize; 60] = [
    214, 213, 212, 211, 210, 209, 208, 207, 206, 205, 204, 203, 202, 201, 200, 199, 180, 179,
    160, 159, 140, 139, 120, 119, 0, 1, 2, 3, 4, 5, 6, 7, 8, 9, 10, 11, 32, 33, 54, 55, 76, 77,
    98, 99, 309, 308, 287, 286, 265, 264, 243, 242, 221, 220, 219, 218, 217, 216, 215, 215,
];

/// The LED of a second, by the table `SECONDS`.
#[verifier::opaque]
pub open spec fn second_led(sec: int) -> int {
    SECONDS@[sec] as int
}

/// The LED of a second; a minute has one too, the LED of the second of that number.
pub fn light_of_second(sec: u8) -> (led: usize)
    requires
        sec < 60,
    ensures
        led == second_led(sec as int),
        led == SECONDS@[sec as int],
        led < NUM_LEDS,
{
    proof {
        reveal(second_led);
    }
    SECONDS[sec as usize]
}

/// LED numbers of the clock hand of hour 1.
pub const HOUR01: [usize; 9] = [319, 298, 297, 276, 275, 254, 253, 232, 231];

/// LED numbers of the clock hand of hour 2.
pub const HOUR02: [usize; 5] = [110, 131, 152, 173, 194];

/// LED numbers of the clock hand of hour 3.
pub const HOUR03: [usize; 9] = [110, 128, 132, 146, 154, 164, 176, 182, 198];

/// LED numbers of the clock hand of hour 4.
pub const HOUR04: [usize; 5] = [110, 127, 134, 143, 158];

/// LED numbers of the clock hand of hour 5.
pub const HOUR05: [usize; 9] = [110, 111, 112, 113, 114, 115, 116, 117, 118];

/// LED numbers of the clock hand of hour 6.
pub const HOUR06: [usize; 5] = [109, 86, 63, 40, 17];

/// LED numbers of the clock hand of hour 7.
pub const HOUR07: [usize; 9] = [109, 89, 85, 69, 61, 49, 37, 29, 13];

/// LED numbers of the clock hand of hour 8.
pub const HOUR08: [usize; 5] = [109, 90, 83, 72, 57];

/// LED numbers of the clock hand of hour 9.
pub const HOUR09: [usize; 10] = [109, 108, 107, 106, 105, 104, 103, 102, 101, 100];

/// LED numbers of the clock hand of hour 10.
pub const HOUR10: [usize; 5] = [319, 300, 293, 282, 267];

/// LED numbers of the clock hand of hour 11.
pub const HOUR11: [usize; 9] = [319, 299, 295, 279, 271, 259, 247, 239, 223];

/// LED numbers of the clock hand of hour 12, which is that of midnight and noon.
pub const HOUR12: [usize; 5] = [319, 296, 273, 250, 227];

/// LED numbers of clock hands, from the hand of hour 1 to that of hour 12: the hand of an
/// hour `h` in 24 hour clock is the entry `(h + 11) % 12`.
#[verifier::opaque]
pub open spec fn hour_hand(index: int) -> Seq<usize> {
    seq![
        HOUR01@,
        HOUR02@,
        HOUR03@,
        HOUR04@,
        HOUR05@,
        HOUR06@,
        HOUR07@,
        HOUR08@,
        HOUR09@,
        HOUR10@,
        HOUR11@,
        HOUR12@,
    ][index]
}

/// Mappings of hours to the leds necessary to make that hand on a clock, from the hand of
/// hour 1 at index 0 to that of hour 12 at index 11
pub fn hour_hands(index: usize) -> (hand: &'static [usize])
    requires
        index < 12,
    ensures
        hand@ == hour_hand(index as int),
        index == 0 ==> hand@ == HOUR01@,
        index == 1 ==> hand@ == HOUR02@,
        index == 2 ==> hand@ == HOUR03@,
        index == 3 ==> hand@ == HOUR04@,
        index == 4 ==> hand@ == HOUR05@,
        index == 5 ==> hand@ == HOUR06@,
        index == 6 ==> hand@ == HOUR07@,
        index == 7 ==> hand@ == HOUR08@,
        index == 8 ==> hand@ == HOUR09@,
        index == 9 ==> hand@ == HOUR10@,
        index == 10 ==> hand@ == HOUR11@,
        index == 11 ==> hand@ == HOUR12@,
{
    proof {
        reveal(hour_hand);
    }
    match index {
        0 => &HOUR01,
        1 => &HOUR02,
        2 => &HOUR03,
        3 => &HOUR04,
        4 => &HOUR05,
        5 => &HOUR06,
        6 => &HOUR07,
        7 => &HOUR08,
        8 => &HOUR09,
        9 => &HOUR10,
        10 => &HOUR11,
        _ => &HOUR12,
    }
}

/// Correlates the antenna number defined by HERA to the LED number in the sequential string.
/// Antenna is the index and the LED number is the entry
pub const ANTENNAS: [usize; 320] = [
    10, 9, 8, 7, 6, 5, 4, 3, 2, 1, 0, 11, 12, 13, 14, 15, 16, 17, 18, 19, 20, 21, 119, 32, 31,
    30, 29, 28, 27, 26, 25, 24, 23, 22, 118, 120, 33, 34, 35, 36, 37, 38, 39, 40, 41, 42, 43,
    117, 121, 139, 54, 53, 52, 51, 50, 49, 48, 47, 46, 45, 44, 116, 122, 138, 140, 55, 56, 57,
    58, 59, 60, 61, 62, 63, 64, 65, 115, 123, 137, 141, 159, 76, 75, 74, 73, 72, 71, 70, 69, 68,
    67, 66, 114, 124, 136, 142, 158, 160, 77, 78, 79, 80, 81, 82, 83, 84, 85, 86, 87, 113, 125,
    135, 143, 157, 161, 179, 98, 97, 96, 95, 94, 93, 92, 91, 90, 89, 88, 112, 126, 134, 144,
    156, 162, 178, 180, 99, 100, 101, 102, 103, 104, 105, 106, 107, 108, 109, 111, 127, 133,
    145, 155, 163, 177, 181, 199, 309, 310, 311, 312, 313, 314, 315, 316, 317, 318, 319, 110,
    128, 132, 146, 154, 164, 176, 182, 198, 200, 308, 307, 306, 305, 304, 303, 302, 301, 300,
    299, 298, 129, 131, 147, 153, 165, 175, 183, 197, 201, 287, 288, 289, 290, 291, 292, 293,
    294, 295, 296, 297, 130, 148, 152, 166, 174, 184, 196, 202, 286, 285, 284, 283, 282, 281,
    280, 279, 278, 277, 276, 149, 151, 167, 173, 185, 195, 203, 265, 266, 267, 268, 269, 270,
    271, 272, 273, 274, 275, 150, 168, 172, 186, 194, 204, 264, 263, 262, 261, 260, 259, 258,
    257, 256, 255, 254, 169, 171, 187, 193, 205, 243, 244, 245, 246, 247, 248, 249, 250, 251,
    252, 253, 170, 188, 192, 206, 242, 241, 240, 239, 238, 237, 236, 235, 234, 233, 232, 189,
    191, 207, 221, 222, 223, 224, 225, 226, 227, 228, 229, 230, 231, 190, 208, 220, 219, 218,
    217, 216, 215, 214, 213, 212, 211, 210, 209,
];

/// The antenna of each LED: the table `ANTENNAS` read backwards.
pub const LED_ANTENNAS: [usize; 320] = [
    10, 9, 8, 7, 6, 5, 4, 3, 2, 1, 0, 11, 12, 13, 14, 15, 16, 17, 18, 19, 20, 21, 33, 32, 31,
    30, 29, 28, 27, 26, 25, 24, 23, 36, 37, 38, 39, 40, 41, 42, 43, 44, 45, 46, 60, 59, 58, 57,
    56, 55, 54, 53, 52, 51, 50, 65, 66, 67, 68, 69, 70, 71, 72, 73, 74, 75, 91, 90, 89, 88, 87,
    86, 85, 84, 83, 82, 81, 98, 99, 100, 101, 102, 103, 104, 105, 106, 107, 108, 126, 125, 124,
    123, 122, 121, 120, 119, 118, 117, 116, 135, 136, 137, 138, 139, 140, 141, 142, 143, 144,
    145, 166, 146, 127, 109, 92, 76, 61, 47, 34, 22, 35, 48, 62, 77, 93, 110, 128, 147, 167,
    187, 207, 188, 168, 148, 129, 111, 94, 78, 63, 49, 64, 79, 95, 112, 130, 149, 169, 189, 208,
    226, 244, 227, 209, 190, 170, 150, 131, 113, 96, 80, 97, 114, 132, 151, 171, 191, 210, 228,
    245, 261, 277, 262, 246, 229, 211, 192, 172, 152, 133, 115, 134, 153, 173, 193, 212, 230,
    247, 263, 278, 292, 306, 293, 279, 264, 248, 231, 213, 194, 174, 154, 175, 195, 214, 232,
    249, 265, 280, 294, 307, 319, 318, 317, 316, 315, 314, 313, 312, 311, 310, 309, 308, 295,
    296, 297, 298, 299, 300, 301, 302, 303, 304, 305, 291, 290, 289, 288, 287, 286, 285, 284,
    283, 282, 281, 266, 267, 268, 269, 270, 271, 272, 273, 274, 275, 276, 260, 259, 258, 257,
    256, 255, 254, 253, 252, 251, 250, 233, 234, 235, 236, 237, 238, 239, 240, 241, 242, 243,
    225, 224, 223, 222, 221, 220, 219, 218, 217, 216, 215, 196, 197, 198, 199, 200, 201, 202,
    203, 204, 205, 206, 186, 185, 184, 183, 182, 181, 180, 179, 178, 177, 176, 155, 156, 157,
    158, 159, 160, 161, 162, 163, 164, 165,
];

/// The LED of an antenna, by the table `ANTENNAS`.
#[verifier::opaque]
pub open spec fn antenna_led(ant: int) -> int {
    ANTENNAS@[ant] as int
}

/// The antenna of an LED, by the table `LED_ANTENNAS`.
#[verifier::opaque]
pub open spec fn led_antenna(led: int) -> int {
    LED_ANTENNAS@[led] as int
}

/// The LED of an antenna.
pub fn light_of_antenna(ant: u16) -> (led: usize)
    requires
        ant < NUM_LEDS,
    ensures
        led == antenna_led(ant as int),
        led == ANTENNAS@[ant as int],
        led < NUM_LEDS,
{
    proof {
        reveal(antenna_led);
    }
    ANTENNAS[ant as usize]
}

/// Every antenna has an LED of its own, and every LED an antenna: each of the two
/// tables undoes the other.
pub proof fn lemma_antennas_permute(i: int)
    requires
        0 <= i < NUM_LEDS,
    ensures
        0 <= antenna_led(i) < NUM_LEDS,
        led_antenna(antenna_led(i)) == i,
        0 <= led_antenna(i) < NUM_LEDS,
        antenna_led(led_antenna(i)) == i,
{
    reveal(antenna_led);
    reveal(led_antenna);
}

/// The light of every second is on the string.
pub proof fn lemma_second_on_string(s: int)
    requires
        0 <= s < 60,
    ensures
        0 <= second_led(s) < NUM_LEDS,
{
    reveal(second_led);
}

/// Only the last two seconds of a minute share a light.
pub proof fn lemma_seconds_apart(s: int, t: int)
    requires
        0 <= s < t < 60,
    ensures
        second_led(s) == second_led(t) <==> s == 58 && t == 59,
{
    reveal(second_led);
}

/// The hands of the clock are on the string, and none covers the light of a second.
pub proof fn lemma_hands_inside_ring(index: int, i: int, s: int)
    requires
        0 <= index < 12,
        0 <= i < hour_hand(index).len(),
        0 <= s < 60,
    ensures
        hour_hand(index)[i] < NUM_LEDS,
        hour_hand(index)[i] != second_led(s),
{
    reveal(hour_hand);
    reveal(second_led);
}

/// The last LED of a hand is in no other hand.
pub proof fn lemma_hand_tips(index: int, other: int, i: int)
    requires
        0 <= index < 12,
        0 <= other < 12,
        index != other,
        0 <= i < hour_hand(other).len(),
    ensures
        hour_hand(index).len() > 0,
        hour_hand(other)[i] != hour_hand(index).last(),
{
    reveal(hour_hand);
}

} // verus!
