use lidar_ld19::motion::{background_of, is_motion, Baseline, Monitor, Reading, ANGLE_BINS, NO_DIR};
use lidar_ld19::Point;

#[test]
fn background_is_the_median_of_enough_samples() {
    assert_eq!(background_of(&vec![]), None);
    assert_eq!(background_of(&vec![5, 1, 4, 2]), None);
    assert_eq!(background_of(&vec![5, 1, 4, 2, 3]), Some(3));
    // an even count takes the upper middle element
    assert_eq!(background_of(&vec![10, 40, 20, 30, 60, 50]), Some(40));
}

#[test]
fn median_ignores_outliers() {
    assert_eq!(background_of(&vec![1500, 1502, 0, 1501, 4000, 1499, 1500]), Some(1500));
    assert_eq!(background_of(&vec![2000, 2000, 2000, 10, 3999]), Some(2000));
}

#[test]
fn sweep_end_is_a_fall_back_from_the_second_half_turn() {
    let mut m = Monitor::new();
    let o = m.observe(Point { len: 1000, dir: 100 }, false);
    assert!(!o.wrapped);
    let o = m.observe(Point { len: 1000, dir: 20000 }, false);
    assert!(!o.wrapped);
    let o = m.observe(Point { len: 1000, dir: 50 }, false);
    assert!(o.wrapped);
    let o = m.observe(Point { len: 1000, dir: 10 }, false);
    assert!(!o.wrapped); // 50 is in the first half of the turn
    let _ = NO_DIR;
}

#[test]
fn readings_out_of_range_are_dropped() {
    let mut m = Monitor::new();
    assert_eq!(m.observe(Point { len: 0, dir: 100 }, false).reading, None);
    assert_eq!(m.observe(Point { len: 4001, dir: 100 }, false).reading, None);
    assert_eq!(
        m.observe(Point { len: 4000, dir: 12345 }, false).reading,
        Some(Reading { bin: 123, len_mm: 4000, baseline: Baseline::Learning })
    );
    assert_eq!(m.observe(Point { len: 1, dir: 35999 }, false).reading.unwrap().bin, 359);
}

/// Feeds one sweep of readings at every degree.
fn sweep(m: &mut Monitor, len_at: impl Fn(usize) -> u16, due: bool) -> Vec<lidar_ld19::motion::Observation> {
    (0..ANGLE_BINS).map(|b| m.observe(Point { len: len_at(b), dir: (b * 100 + 50) as u16 }, due)).collect()
}

#[test]
fn calibration_ends_at_the_first_sweep_end_once_due() {
    let mut m = Monitor::new();
    for _ in 0..6 {
        sweep(&mut m, |b| if b < 10 { 0 } else { 1000 + b as u16 }, false);
    }
    assert!(m.is_calibrating());
    assert!(m.background_bins().is_none());
    // due, but no sweep ends before the next reading at the start of a turn
    let obs = sweep(&mut m, |b| if b < 10 { 0 } else { 2000 }, true);
    assert!(!m.is_calibrating());
    assert_eq!(obs[0].locked_bins, Some(ANGLE_BINS - 10));
    assert!(obs[1..].iter().all(|o| o.locked_bins.is_none()));
    let bg = m.background_bins().unwrap();
    assert_eq!(bg.len(), ANGLE_BINS);
    assert_eq!(bg[5], None);
    assert_eq!(bg[20], Some(1020));
    // the reading that closed calibration is already compared with the background
    assert_eq!(obs[0].reading, None);
    assert_eq!(obs[10].reading.unwrap().baseline, Baseline::Known(1010));
}

#[test]
fn background_never_changes_after_calibration() {
    let mut m = Monitor::new();
    for _ in 0..5 {
        sweep(&mut m, |_| 1500, false);
    }
    sweep(&mut m, |_| 1500, true);
    let before = m.background_bins().unwrap().clone();
    for _ in 0..3 {
        let obs = sweep(&mut m, |_| 3000, true);
        assert!(obs.iter().all(|o| o.locked_bins.is_none()));
    }
    assert_eq!(m.background_bins().unwrap(), &before);
    let o = m.observe(Point { len: 3000, dir: 4500 }, true);
    assert_eq!(o.reading.unwrap().baseline, Baseline::Known(1500));
}

#[test]
fn bins_without_enough_samples_have_no_baseline() {
    let mut m = Monitor::new();
    for _ in 0..4 {
        sweep(&mut m, |_| 1500, false);
    }
    sweep(&mut m, |_| 1500, true);
    assert!(!m.is_calibrating());
    let o = m.observe(Point { len: 1500, dir: 100 }, false);
    assert_eq!(o.reading.unwrap().baseline, Baseline::Unknown);
}

#[test]
fn motion_is_more_than_fifteen_centimetres_off_the_background() {
    assert!(!is_motion(4000, Baseline::Learning));
    assert!(is_motion(4000, Baseline::Unknown));
    assert!(!is_motion(4000, Baseline::Known(3850)));
    assert!(!is_motion(3850, Baseline::Known(4000)));
    assert!(is_motion(4000, Baseline::Known(3849)));
    assert!(is_motion(3849, Baseline::Known(4000)));
    assert!(!is_motion(1000, Baseline::Known(1000)));
}
