//! The clock face, the picture of the antennas, and the tasks that draw them.
use hera_leds::clock::{add_second, draw_time, time_of_day};
use hera_leds::color::RGB8;
use hera_leds::double::Double;
use hera_leds::layout::{
    hour_hands, light_of_antenna, light_of_second, ANTENNAS, LED_ANTENNAS, NUM_LEDS, SECONDS,
};
use hera_leds::stats::{merge_rows, HeraAuto, LedStat, Polarization};
use hera_leds::tasks::{
    dark, draw_autos, interrupt, probe_online_stats, write_time, AutosAction, AutosEvent, ProbeAction,
    ProbeEvent, StreamResult,
};

const BLACK: RGB8 = RGB8 { r: 0, g: 0, b: 0 };
const HOUR: RGB8 = RGB8 { r: 50, g: 50, b: 50 };
const MINUTE: RGB8 = RGB8 { r: 125, g: 125, b: 125 };
const SECOND: RGB8 = RGB8 { r: 200, g: 200, b: 200 };

/// Nanoseconds from the start of 1900 to that of 1970.
const UNIX: i128 = 2_208_988_800_000_000_000;

fn at(hour: i128, min: i128, sec: i128) -> i128 {
    UNIX + (20_000 * 86_400 + hour * 3600 + min * 60 + sec) * 1_000_000_000 + 123_456_789
}

fn record(ant: u16, spectra: Option<f64>) -> Option<HeraAuto> {
    Some(HeraAuto {
        ant,
        pol: Polarization::E,
        constructed: true,
        node: Some(1),
        fem_switch: None,
        apriori: String::new(),
        spectra: spectra.map(|x| Double { bits: x.to_bits() }),
        pam_power: None,
        adc_power: None,
        adc_rms: None,
        fem_imu_theta: None,
        fem_imu_phi: None,
        eq_coeffs: None,
    })
}

#[test]
fn second_three_lights_led_211() {
    assert_eq!(light_of_second(3), 211);
    assert_eq!(SECONDS[3], 211);
    assert_eq!(draw_time(0, 30, 3)[211], SECOND);
}

#[test]
fn antennas_and_leds_match() {
    assert_eq!(NUM_LEDS, 320);
    for ant in 0..320u16 {
        assert_eq!(LED_ANTENNAS[ANTENNAS[ant as usize]], ant as usize);
        assert_eq!(light_of_antenna(ant), ANTENNAS[ant as usize]);
    }
    assert_eq!(light_of_antenna(0), 10);
    assert_eq!(light_of_antenna(22), 119);
    assert_eq!(light_of_antenna(319), 209);
}

#[test]
fn seconds_share_one_light_only() {
    for s in 0..60u8 {
        for t in 0..s {
            assert_eq!(light_of_second(s) == light_of_second(t), s == 59 && t == 58);
        }
    }
}

#[test]
fn hands_of_the_clock() {
    assert_eq!(hour_hands(0), &[319, 298, 297, 276, 275, 254, 253, 232, 231]);
    assert_eq!(hour_hands(8), &[109, 108, 107, 106, 105, 104, 103, 102, 101, 100]);
    assert_eq!(hour_hands(11), &[319, 296, 273, 250, 227]);
    for i in 0..12 {
        for led in hour_hands(i) {
            assert!(*led < 320 && !SECONDS.contains(led));
        }
    }
}

#[test]
fn time_of_day_of_an_instant() {
    assert_eq!(time_of_day(0), (0, 0, 0));
    assert_eq!(time_of_day(-1), (23, 59, 59));
    assert_eq!(time_of_day(UNIX), (0, 0, 0));
    assert_eq!(time_of_day(at(13, 5, 59)), (13, 5, 59));
    // 2001-09-09T01:46:40 UTC
    assert_eq!(time_of_day(UNIX + 1_000_000_000_000_000_000), (1, 46, 40));
    // the last second before a leap second, and the first after it
    assert_eq!(time_of_day(UNIX + 1_483_228_799_000_000_000), (23, 59, 59));
    assert_eq!(time_of_day(UNIX + 1_483_228_800_000_000_000), (0, 0, 0));
    assert_eq!(time_of_day(-86_399_000_000_001), (0, 0, 0));
}

#[test]
fn time_of_day_at_the_bounds() {
    let reach: i128 = 1_196_851_200 * 86_400_000_000_000;
    assert_eq!(time_of_day(reach), (0, 0, 0));
    assert_eq!(time_of_day(-reach), (0, 0, 0));
    assert_eq!(time_of_day(reach - 1), (23, 59, 59));
    assert_eq!(time_of_day(-reach + 61_000_000_000), (0, 1, 1));
    assert_eq!(time_of_day(reach + 5_000_000_000), (0, 0, 0));
    assert_eq!(time_of_day(-reach - 5_000_000_000), (0, 0, 0));
    assert_eq!(time_of_day(i128::MAX), (0, 0, 0));
    assert_eq!(time_of_day(i128::MIN), (0, 0, 0));
}

#[test]
fn three_o_clock() {
    let data = write_time(Some(StreamResult::Proceed(at(3, 0, 30)))).unwrap();
    for led in 0..320 {
        let expected = match led {
            110 | 128 | 132 | 146 | 154 | 164 | 176 | 182 | 198 => HOUR,
            214 => MINUTE,
            6 => SECOND,
            _ => BLACK,
        };
        assert_eq!(data[led], expected, "LED {}", led);
    }
}

#[test]
fn midnight_and_noon_share_the_hand_of_twelve() {
    for hour in [0, 12] {
        let data = draw_time(hour, 10, 20);
        for led in 0..320 {
            assert_eq!(data[led] == HOUR, [319, 296, 273, 250, 227].contains(&led));
        }
    }
    assert_eq!(draw_time(1, 10, 20)[231], HOUR);
    assert_eq!(draw_time(13, 10, 20)[231], HOUR);
    assert_eq!(draw_time(23, 10, 20)[223], HOUR);
}

#[test]
fn hours_are_told_apart() {
    for a in 0..24u8 {
        for b in 0..24u8 {
            assert_eq!(draw_time(a, 0, 30) == draw_time(b, 0, 30), a % 12 == b % 12);
        }
    }
}

#[test]
fn clock_face() {
    let data = draw_time(15, 20, 40);
    let hand = hour_hands(2);
    for led in 0..320 {
        let expected = if hand.contains(&led) {
            HOUR
        } else if led == SECONDS[20] {
            MINUTE
        } else if led == SECONDS[40] {
            SECOND
        } else {
            BLACK
        };
        assert_eq!(data[led], expected);
    }
    assert_eq!(draw_time(3, 20, 40), data);
}

#[test]
fn minute_covers_second() {
    let data = draw_time(0, 17, 17);
    assert_eq!(data[SECONDS[17]], MINUTE);
    assert_eq!(data.iter().filter(|p| **p == SECOND).count(), 0);
    // the last two seconds share a light
    assert_eq!(draw_time(0, 58, 59)[215], MINUTE);
}

#[test]
fn every_time_shows_its_hands() {
    for hour in 0..24u8 {
        for min in 0..60u8 {
            let data = draw_time(hour, min, 0);
            assert_eq!(data[light_of_second(min)], MINUTE);
            assert_eq!(data[214], if min == 0 { MINUTE } else { SECOND });
            for led in hour_hands((hour as usize + 11) % 12) {
                assert_eq!(data[*led], HOUR);
            }
        }
    }
}

#[test]
fn write_time_draws_until_cancelled() {
    let data = write_time(Some(StreamResult::Proceed(at(15, 20, 40)))).unwrap();
    assert_eq!(data, draw_time(15, 20, 40));
    assert!(write_time(Some(StreamResult::Cancel)).is_none());
    assert!(write_time(None).is_none());
}

#[test]
fn second_leaves_no_trace() {
    let mut data = dark();
    data[211] = HOUR;
    let with = add_second(&data, 3);
    assert_eq!(with[211], SECOND);
    let later = add_second(&data, 4);
    assert_eq!(later[211], HOUR);
    assert_eq!(later[210], SECOND);
}

#[test]
fn autos_tick_keeps_the_picture() {
    let mut data = dark();
    data[5] = HOUR;
    let before = data;
    match draw_autos(&mut data, AutosEvent::Tick { now: at(1, 2, 3) }) {
        AutosAction::Write(picture) => {
            assert_eq!(picture, add_second(&before, 3));
        }
        AutosAction::Break => panic!("a tick does not end the task"),
    }
    assert_eq!(data, before);
}

#[test]
fn autos_show_new_statistics() {
    let stats = merge_rows(&vec![
        record(0, Some(-30.0)),
        record(22, None),
        record(319, Some(0.0)),
        record(400, Some(-30.0)),
    ]);
    let mut data = dark();
    // what was there before is gone
    data[17] = HOUR;
    let picture = match draw_autos(&mut data, AutosEvent::Stats { stats, now: at(1, 2, 3) }) {
        AutosAction::Write(picture) => picture,
        AutosAction::Break => panic!("statistics do not end the task"),
    };
    for ant in 0..320 {
        assert_eq!(data[ANTENNAS[ant]], stats[ant].get_color());
    }
    assert_eq!(data[119], RGB8 { r: 0, g: 127, b: 255 });
    assert_eq!(data[209], RGB8 { r: 255, g: 50, b: 0 });
    assert_eq!(data[17], BLACK);
    assert_eq!(picture, add_second(&data, 3));
}

#[test]
fn autos_last_entry_prevails() {
    let mut stats = [LedStat { ant: 9, constructed: false, spectra: None }; 320];
    stats[319].constructed = true;
    let mut data = dark();
    data[4] = HOUR;
    let _ = draw_autos(&mut data, AutosEvent::Stats { stats, now: at(0, 0, 0) });
    assert_eq!(data[ANTENNAS[9]], RGB8 { r: 0, g: 127, b: 255 });
    assert_eq!(data[4], HOUR);
}

#[test]
fn autos_end_when_cancelled() {
    let mut data = dark();
    data[4] = HOUR;
    let before = data;
    assert!(matches!(draw_autos(&mut data, AutosEvent::Cancelled), AutosAction::Break));
    assert_eq!(data, before);
}

#[test]
fn probe_steps() {
    let next = |n| probe_online_stats(ProbeEvent::Next(n));
    assert!(matches!(next(Some(StreamResult::Proceed(()))), ProbeAction::Fetch));
    assert!(matches!(next(Some(StreamResult::Cancel)), ProbeAction::Stop));
    assert!(matches!(next(None), ProbeAction::Stop));
    for (status, read) in [(199, false), (200, true), (204, true), (299, true), (300, false), (404, false)] {
        let action = probe_online_stats(ProbeEvent::Response(status));
        if read {
            assert!(matches!(action, ProbeAction::Read));
        } else {
            assert!(matches!(action, ProbeAction::Wait));
        }
    }
    match probe_online_stats(ProbeEvent::Rows(vec![record(4, Some(-30.0)), None])) {
        ProbeAction::Send(stats) => {
            assert_eq!(stats, merge_rows(&vec![record(4, Some(-30.0))]));
            assert!(stats[4].constructed);
        }
        _ => panic!("rows are sent"),
    }
}

#[test]
fn interrupt_decisions() {
    let signal: Option<StreamResult<Result<(), u8>>> = Some(StreamResult::Proceed(Ok(())));
    assert_eq!(interrupt(signal), (true, Ok(())));
    assert_eq!(interrupt(Some(StreamResult::Proceed(Err(7u8)))), (true, Err(7u8)));
    assert_eq!(interrupt::<u8>(Some(StreamResult::Cancel)), (false, Ok(())));
    assert_eq!(interrupt::<u8>(None), (false, Ok(())));
}
