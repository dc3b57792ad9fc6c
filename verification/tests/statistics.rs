//! Merged statistics and their colors.
use hera_leds::color::{colorscale, RGB8};
use hera_leds::double::Double;
use hera_leds::stats::{merge_rows, merge_spectra, HeraAuto, LedStat, Polarization};

fn d(x: f64) -> Double {
    Double { bits: x.to_bits() }
}

fn record(ant: u16, pol: Polarization, constructed: bool, spectra: Option<f64>) -> Option<HeraAuto> {
    Some(HeraAuto {
        ant,
        pol,
        constructed,
        node: None,
        fem_switch: Some(3),
        apriori: String::from("digital_ok"),
        spectra: spectra.map(d),
        pam_power: None,
        adc_power: None,
        adc_rms: None,
        fem_imu_theta: None,
        fem_imu_phi: None,
        eq_coeffs: None,
    })
}

fn stat(constructed: bool, spectra: Option<f64>) -> LedStat {
    LedStat { ant: 7, constructed, spectra: spectra.map(d) }
}

/// The scale in ordinary floating point.
fn plain_scale(mag: f64, cmin: f64, cmax: f64) -> (u8, u8, u8) {
    let mut x = (mag - cmin) / (cmax - cmin);
    if !x.is_finite() {
        x = 0.5;
    }
    ((x * 255.0) as u8, 255, (75.0 - (x * 75.0)) as u8)
}

fn parts(c: RGB8) -> (u8, u8, u8) {
    (c.r, c.g, c.b)
}

#[test]
fn colorscale_values() {
    assert_eq!(parts(colorscale(d(-80.0), d(-100.0), d(-10.0))), (56, 255, 58));
    assert_eq!(parts(colorscale(d(-45.0), d(-100.0), d(-10.0))), (155, 255, 29));
    assert_eq!(parts(colorscale(d(-20.0), d(-100.0), d(-10.0))), (226, 255, 8));
    assert_eq!(parts(colorscale(d(3.0), d(1.0), d(2.0))), (255, 255, 0));
    assert_eq!(parts(colorscale(d(0.0), d(1.0), d(2.0))), (0, 255, 150));
}

#[test]
fn colorscale_without_a_width_is_the_middle() {
    assert_eq!(parts(colorscale(d(1.0), d(2.0), d(2.0))), (127, 255, 37));
    assert_eq!(parts(colorscale(d(f64::NAN), d(0.0), d(1.0))), (127, 255, 37));
    assert_eq!(parts(colorscale(d(f64::INFINITY), d(0.0), d(1.0))), (127, 255, 37));
}

#[test]
fn colorscale_as_in_floating_point() {
    for i in 0..4000 {
        let mag = -120.0 + i as f64 * 0.0371;
        assert_eq!(parts(colorscale(d(mag), d(-100.0), d(-10.0))), plain_scale(mag, -100.0, -10.0));
        assert_eq!(parts(colorscale(d(mag), d(-37.7), d(0.1))), plain_scale(mag, -37.7, 0.1));
        assert_eq!(parts(colorscale(d(mag), d(5.0), d(-5.0))), plain_scale(mag, 5.0, -5.0));
    }
}

#[test]
fn scale_is_monotone() {
    for (cmin, cmax) in [(-100.0, -10.0), (0.0, 0.1), (-1e308, 1e308), (3.0, f64::INFINITY)] {
        let mut last = colorscale(d(-50.0), d(cmin), d(cmax));
        for i in 1..3000 {
            let color = colorscale(d(-50.0 + i as f64 * 0.033), d(cmin), d(cmax));
            assert!(color.r >= last.r && color.b <= last.b);
            last = color;
        }
    }
}

#[test]
fn ends_of_the_scale() {
    for (low, high) in [(-100.0, -10.0), (0.3, 0.7), (9.0, -4.0), (1e-310, 1e300)] {
        assert_eq!(parts(colorscale(d(low), d(low), d(high))), (0, 255, 75));
        assert_eq!(parts(colorscale(d(high), d(low), d(high))), (255, 255, 0));
    }
}

#[test]
fn color_of_each_state() {
    assert_eq!(parts(stat(false, Some(-30.0)).get_color()), (0, 0, 0));
    assert_eq!(parts(stat(false, None).get_color()), (0, 0, 0));
    assert_eq!(parts(stat(true, None).get_color()), (0, 127, 255));
    assert_eq!(parts(stat(true, Some(-45.5)).get_color()), (255, 50, 0));
    assert_eq!(parts(stat(true, Some(-19.999)).get_color()), (255, 50, 0));
    assert_eq!(parts(stat(true, Some(f64::NAN)).get_color()), (255, 50, 0));
    assert_eq!(parts(stat(true, Some(f64::NEG_INFINITY)).get_color()), (255, 50, 0));
    assert_eq!(parts(stat(true, Some(-45.0)).get_color()), (155, 255, 29));
    assert_eq!(parts(stat(true, Some(-20.0)).get_color()), (226, 255, 8));
    assert_eq!(parts(stat(true, Some(-30.0)).get_color()), plain_scale(-30.0, -100.0, -10.0));
}

#[test]
fn colors_follow_the_spectrum() {
    let mut last = stat(true, Some(-45.0)).get_color();
    for i in 0..=2500 {
        let color = stat(true, Some(-45.0 + i as f64 * 0.01)).get_color();
        assert!(color.r >= last.r && color.b <= last.b);
        assert!(color.r >= 155 && color.r <= 226 && color.b >= 8 && color.b <= 29);
        last = color;
    }
}

#[test]
fn default_stat() {
    assert_eq!(LedStat::default(), LedStat { ant: 0, constructed: false, spectra: None });
}

#[test]
fn merging_two_spectra() {
    let m = |x: Option<f64>, y: Option<f64>| merge_spectra(x.map(d), y.map(d)).map(|r| f64::from_bits(r.bits));
    assert_eq!(m(None, None), None);
    assert_eq!(m(None, Some(-30.0)), None);
    assert_eq!(m(Some(-30.0), None), None);
    assert_eq!(m(Some(-30.0), Some(-40.0)), Some(-35.0));
    assert_eq!(m(Some(-30.1), Some(-40.3)), Some((-30.1 + -40.3) / 2.0));
    // the first that is out of range
    assert_eq!(m(Some(-50.0), Some(-30.0)), Some(-50.0));
    assert_eq!(m(Some(-30.0), Some(-10.0)), Some(-10.0));
    assert_eq!(m(Some(-50.0), Some(-10.0)), Some(-50.0));
    // what is not finite gives way
    assert_eq!(m(Some(f64::NEG_INFINITY), Some(-30.0)), Some(-30.0));
    assert_eq!(m(Some(f64::NAN), Some(-99.0)), Some(-99.0));
    assert_eq!(m(Some(-30.0), Some(f64::INFINITY)), Some(-30.0));
}

#[test]
fn averages_stay_between() {
    for i in 0..500 {
        let x = -45.0 + i as f64 * 0.05;
        let y = -20.0 - i as f64 * 0.0499;
        let r = merge_spectra(Some(d(x)), Some(d(y))).unwrap();
        let s = merge_spectra(Some(d(y)), Some(d(x))).unwrap();
        assert_eq!(r, s);
        assert_eq!(f64::from_bits(r.bits), (x + y) / 2.0);
        assert!(x.min(y) <= f64::from_bits(r.bits) && f64::from_bits(r.bits) <= x.max(y));
    }
}

#[test]
fn empty_table() {
    let stats = merge_rows(&vec![]);
    for i in 0..320 {
        assert_eq!(stats[i].ant as usize, i);
        assert!(!stats[i].constructed);
        assert_eq!(stats[i].spectra, Some(d(f64::NEG_INFINITY)));
        assert_eq!(parts(stats[i].get_color()), (0, 0, 0));
    }
}

#[test]
fn rows_of_both_dipoles() {
    let rows = vec![
        record(3, Polarization::E, false, Some(-30.0)),
        record(319, Polarization::E, true, Some(-25.0)),
        None,
        record(3, Polarization::N, true, Some(-40.0)),
        record(320, Polarization::N, true, Some(-25.0)),
        record(65535, Polarization::N, true, None),
        record(8, Polarization::N, true, Some(-25.0)),
        record(8, Polarization::E, true, None),
    ];
    let stats = merge_rows(&rows);
    assert_eq!(stats[3], LedStat { ant: 3, constructed: true, spectra: Some(d(-35.0)) });
    assert_eq!(stats[319], LedStat { ant: 319, constructed: true, spectra: Some(d(-25.0)) });
    assert_eq!(stats[8], LedStat { ant: 8, constructed: true, spectra: None });
    assert_eq!(stats[4], LedStat { ant: 4, constructed: false, spectra: Some(d(f64::NEG_INFINITY)) });
}

#[test]
fn order_of_the_dipoles_does_not_show() {
    let samples = [
        None,
        Some(-30.0),
        Some(-40.2),
        Some(-50.0),
        Some(-1.0),
        Some(f64::NAN),
        Some(f64::INFINITY),
        Some(f64::NEG_INFINITY),
    ];
    for x in samples {
        for y in samples {
            let one = merge_rows(&vec![
                record(5, Polarization::E, true, x),
                record(5, Polarization::N, true, y),
            ]);
            let two = merge_rows(&vec![
                record(5, Polarization::N, true, y),
                record(5, Polarization::E, true, x),
            ]);
            assert_eq!(one[5].get_color(), two[5].get_color());
        }
    }
}

#[test]
fn order_of_the_rows_does_not_show() {
    let table = |order: &[usize]| {
        let mut rows = Vec::new();
        for i in order {
            rows.push(match *i {
                0 => record(5, Polarization::E, true, Some(-31.0)),
                1 => record(5, Polarization::N, true, Some(-40.0)),
                2 => record(6, Polarization::E, true, Some(-50.0)),
                3 => record(6, Polarization::N, false, Some(-1.0)),
                _ => None,
            });
        }
        merge_rows(&rows)
    };
    let first = table(&[0, 1, 2, 3, 4]);
    for order in [[4, 3, 2, 1, 0], [1, 3, 0, 4, 2], [2, 0, 3, 1, 4]] {
        let other = table(&order);
        for ant in 0..320 {
            assert_eq!(other[ant].get_color(), first[ant].get_color());
        }
    }
}

#[test]
fn one_bad_dipole_makes_an_antenna_red() {
    for (x, y) in [(-50.0, -30.0), (-30.0, -50.0), (-5.0, -30.0), (-30.0, 12.0)] {
        let stats = merge_rows(&vec![
            record(5, Polarization::E, true, Some(x)),
            record(5, Polarization::N, false, Some(y)),
        ]);
        assert_eq!(parts(stats[5].get_color()), (255, 50, 0));
    }
}
