use oximedia::ivtc::{
    calculate_ivtc_framerate, detect_pattern_from_rates, output_pts, should_decimate,
    CadenceDetector, CustomPattern, DetectionSensitivity, IvtcAction, IvtcDriver, MatchMode,
    MotionCompensation, PatternState, PostProcessMode, StandardFrameRate, TelecinePattern,
};
use oximedia::rational::Rational;

const RATES: [StandardFrameRate; 8] = [
    StandardFrameRate::Film24,
    StandardFrameRate::Film23976,
    StandardFrameRate::Pal25,
    StandardFrameRate::Ntsc2997,
    StandardFrameRate::Ntsc30,
    StandardFrameRate::High50,
    StandardFrameRate::High5994,
    StandardFrameRate::High60,
];

#[test]
fn custom_pattern_from_string() {
    let p = CustomPattern::from_string("TBbtx");
    assert_eq!(p.length(), 5);
    let fields: Vec<u8> = (0..5).map(|i| p.field_at(i)).collect();
    assert_eq!(fields, vec![0, 1, 1, 0, 0]);
    // the pattern repeats
    assert_eq!(p.field_at(7), 1);
    assert_eq!(p.field_at(10), 0);
}

#[test]
fn custom_pattern_truncates_and_empty() {
    let p = CustomPattern::from_string("BBBBBBBBBBBBBB");
    assert_eq!(p.length(), 10);
    assert_eq!(p.field_at(123), 1);
    let empty = CustomPattern::from_string("");
    assert_eq!(empty.length(), 0);
    assert_eq!(empty.field_at(3), 0);
    assert_eq!(CustomPattern::default(), empty);
}

#[test]
fn pattern_cycles() {
    let cases = [
        (TelecinePattern::Auto, 5, 4, true),
        (TelecinePattern::Pattern32, 5, 4, true),
        (TelecinePattern::Pattern22, 2, 2, false),
        (TelecinePattern::Pattern2332, 10, 8, true),
        (TelecinePattern::EuroPulldown, 1, 1, false),
        (TelecinePattern::Custom(CustomPattern::from_string("TTTBB")), 5, 4, true),
        (TelecinePattern::Custom(CustomPattern::from_string("TB")), 2, 2, false),
        (TelecinePattern::Custom(CustomPattern::from_string("TTTTTTTTTT")), 10, 8, true),
    ];
    for (p, cycle, out, dec) in cases {
        assert_eq!(p.cycle_length(), cycle, "{p:?}");
        assert_eq!(p.output_frames(), out, "{p:?}");
        assert_eq!(p.requires_decimation(), dec, "{p:?}");
    }
    assert_eq!(TelecinePattern::default(), TelecinePattern::Auto);
}

#[test]
fn decimation_positions() {
    let dropped32: Vec<usize> = (0..10).filter(|&i| should_decimate(TelecinePattern::Pattern32, i)).collect();
    assert_eq!(dropped32, vec![4, 9]);
    let dropped2332: Vec<usize> = (0..10).filter(|&i| should_decimate(TelecinePattern::Pattern2332, i)).collect();
    assert_eq!(dropped2332, vec![2, 5]);
    assert!(!should_decimate(TelecinePattern::Pattern22, 3));
    assert!(!should_decimate(TelecinePattern::Auto, 3));
    assert!(should_decimate(TelecinePattern::Auto, 4));
    assert!(!should_decimate(TelecinePattern::Custom(CustomPattern::default()), 3));
}

#[test]
fn a_cycle_drops_the_frames_it_does_not_keep() {
    let patterns = [
        TelecinePattern::Auto,
        TelecinePattern::Pattern32,
        TelecinePattern::Pattern22,
        TelecinePattern::Pattern2332,
        TelecinePattern::EuroPulldown,
        TelecinePattern::Custom(CustomPattern::from_string("TBTBTBTBTB")),
        TelecinePattern::Custom(CustomPattern::from_string("TBTBTBT")),
        TelecinePattern::Custom(CustomPattern::from_string("TBT")),
    ];
    for p in patterns {
        let n = p.cycle_length();
        let dropped = (0..n).filter(|&i| should_decimate(p, i)).count();
        assert_eq!(dropped, n - p.output_frames(), "{p:?}");
    }
}

#[test]
fn defaults_of_modes() {
    assert_eq!(MatchMode::default(), MatchMode::TwoWay);
    assert_eq!(PostProcessMode::default(), PostProcessMode::Light);
    assert_eq!(DetectionSensitivity::default(), DetectionSensitivity::Medium);
}

#[test]
fn standard_rates() {
    assert_eq!(StandardFrameRate::Film23976.as_rational(), Rational::new(24000, 1001));
    assert_eq!(StandardFrameRate::High5994.as_rational(), Rational::new(60000, 1001));
    assert_eq!(StandardFrameRate::Pal25.as_rational(), Rational::new(25, 1));
}

#[test]
fn detect_pattern_matches_decimal_ratio_tests() {
    for a in RATES {
        for b in RATES {
            let ra = a.as_rational();
            let rb = b.as_rational();
            let ratio = (ra.num as f64 / ra.den as f64) / (rb.num as f64 / rb.den as f64);
            let expected = if (ratio - 1.25).abs() < 0.01 {
                Some(TelecinePattern::Pattern32)
            } else if (ratio - 1.0).abs() < 0.01 {
                Some(TelecinePattern::Pattern22)
            } else if (ratio - 1.04167).abs() < 0.01 {
                Some(TelecinePattern::EuroPulldown)
            } else {
                None
            };
            assert_eq!(detect_pattern_from_rates(a, b), expected, "{a:?} -> {b:?}");
        }
    }
}

#[test]
fn detect_pattern_examples() {
    assert_eq!(
        detect_pattern_from_rates(StandardFrameRate::Ntsc30, StandardFrameRate::Film24),
        Some(TelecinePattern::Pattern32)
    );
    assert_eq!(
        detect_pattern_from_rates(StandardFrameRate::Pal25, StandardFrameRate::Film24),
        Some(TelecinePattern::EuroPulldown)
    );
    assert_eq!(
        detect_pattern_from_rates(StandardFrameRate::Pal25, StandardFrameRate::Pal25),
        Some(TelecinePattern::Pattern22)
    );
    assert_eq!(detect_pattern_from_rates(StandardFrameRate::High60, StandardFrameRate::Film24), None);
}

#[test]
fn ivtc_framerate() {
    let src = Rational::new(30000, 1001);
    assert_eq!(calculate_ivtc_framerate(src, TelecinePattern::Pattern22), src);
    // 4 / 5 in whole numbers is 0
    assert_eq!(calculate_ivtc_framerate(src, TelecinePattern::Pattern32), Rational::new(0, 1001));
    let empty = TelecinePattern::Custom(CustomPattern::default());
    assert_eq!(calculate_ivtc_framerate(src, empty), src);
}

#[test]
fn cadence_detector_locks_after_nine_detections() {
    let mut d = CadenceDetector::new();
    for _ in 0..9 {
        d.add_match(false);
        assert!(d.cadence().is_none());
    }
    for k in 1..=12usize {
        d.add_match(false);
        assert_eq!(d.cadence(), Some(&[0u8, 0][..]));
        assert_eq!(d.match_count(), k);
        assert_eq!(d.is_locked(), k >= 9);
    }
    d.reset();
    assert!(d.cadence().is_none());
    assert_eq!(d.match_count(), 0);
    assert!(!d.is_locked());
}

#[test]
fn cadence_detector_needs_most_windows_to_repeat() {
    // an alternating history repeats its first window at only half the offsets
    let mut d = CadenceDetector::default();
    for i in 0..40 {
        d.add_match(i % 2 == 0);
    }
    assert!(d.cadence().is_none());
    assert_eq!(d.match_count(), 0);
}

#[test]
fn cadence_detector_switches_cadence() {
    let mut d = CadenceDetector::new();
    for _ in 0..12 {
        d.add_match(true);
    }
    assert_eq!(d.cadence(), Some(&[1u8, 1][..]));
    assert_eq!(d.match_count(), 3);
    // 30 duplicates-free results push the ones out of the 30-entry history
    for _ in 0..30 {
        d.add_match(false);
    }
    assert_eq!(d.cadence(), Some(&[0u8, 0][..]));
}

#[test]
fn motion_compensation_settings() {
    let m = MotionCompensation::new();
    assert!(m.is_enabled());
    assert_eq!(m.search_range(), 8);
    let m = m.with_search_range(16);
    assert_eq!(m.search_range(), 16);
    assert_eq!(MotionCompensation::default().search_range(), 8);
}

#[test]
fn pattern_locks_after_enough_detections() {
    let mut st = PatternState::new();
    assert_eq!(st.pattern, TelecinePattern::Auto);
    st.record_detection(TelecinePattern::Pattern32, true, 3);
    st.record_detection(TelecinePattern::Pattern32, true, 3);
    assert_eq!(st.match_streak, 2);
    assert!(!st.locked);
    st.record_detection(TelecinePattern::Pattern22, true, 3);
    assert_eq!((st.pattern, st.match_streak), (TelecinePattern::Pattern22, 1));
    st.record_detection(TelecinePattern::Pattern22, true, 3);
    st.record_detection(TelecinePattern::Pattern22, true, 3);
    assert!(st.locked);
    // A lock holds through a scene change and a change of detection.
    st.cycle_position = 4;
    st.on_scene_change();
    assert_eq!((st.cycle_position, st.match_streak), (4, 3));
    st.record_detection(TelecinePattern::Pattern32, true, 3);
    assert!(st.locked);
}

#[test]
fn scene_change_restarts_an_unlocked_cadence() {
    let mut st = PatternState::default();
    st.record_detection(TelecinePattern::Pattern32, false, 1);
    assert!(!st.locked);
    st.cycle_position = 3;
    st.on_scene_change();
    assert_eq!((st.cycle_position, st.match_streak), (0, 0));
    assert_eq!(st.pattern, TelecinePattern::Pattern32);
}

#[test]
fn advancing_drops_the_duplicate_frames_of_a_cycle() {
    let mut st = PatternState::new();
    let drops: Vec<bool> = (0..10).map(|_| st.advance(TelecinePattern::Pattern32)).collect();
    assert_eq!(drops, vec![false, false, false, false, true, false, false, false, false, true]);
    assert_eq!(st.cycle_position, 10);
    let mut st = PatternState::new();
    assert!((0..5).all(|_| !st.advance(TelecinePattern::Pattern22)));
}

#[test]
fn match_mode_buffer_sizes() {
    assert_eq!(MatchMode::TwoWay.max_buffer(), 5);
    assert_eq!(MatchMode::ThreeWay.max_buffer(), 7);
    assert_eq!(MatchMode::FiveWay.max_buffer(), 10);
    assert_eq!(MatchMode::TwoWay.min_frames(), 2);
    assert_eq!(MatchMode::ThreeWay.min_frames(), 3);
    assert_eq!(MatchMode::FiveWay.min_frames(), 5);
    assert_eq!(MatchMode::TwoWay.frames_to_check(9), 2);
    assert_eq!(MatchMode::ThreeWay.frames_to_check(2), 2);
    assert_eq!(MatchMode::FiveWay.frames_to_check(4), 4);
    assert_eq!(MatchMode::FiveWay.frames_to_check(8), 5);
}

#[test]
fn output_timestamps_move_back_by_the_decimated_frames() {
    assert_eq!(output_pts(100, 7), 93);
    assert_eq!(output_pts(3, 7), 0);
    assert_eq!(output_pts(-5, 0), 0);
}

#[test]
fn custom_patterns_compare_by_fields() {
    let mut st = PatternState::new();
    st.record_detection(TelecinePattern::Custom(CustomPattern::from_string("TBT")), false, 0);
    st.record_detection(TelecinePattern::Custom(CustomPattern::from_string("TBT")), false, 0);
    assert_eq!(st.match_streak, 2);
    st.record_detection(TelecinePattern::Custom(CustomPattern::from_string("TBB")), false, 0);
    assert_eq!(st.match_streak, 1);
}

#[test]
fn driver_buffers_the_newest_frames_and_waits_for_enough() {
    let mut d: IvtcDriver<u32> = IvtcDriver::new(TelecinePattern::Pattern32, MatchMode::ThreeWay, true);
    let ready: Vec<bool> = (0..10).map(|f| d.push_frame(f, false)).collect();
    assert_eq!(ready, vec![false, false, true, true, true, true, true, true, true, true]);
    assert_eq!(d.frames, vec![3, 4, 5, 6, 7, 8, 9]);
    let mut two: IvtcDriver<u32> = IvtcDriver::new(TelecinePattern::Pattern22, MatchMode::TwoWay, false);
    for f in 0..6 {
        two.push_frame(f, false);
    }
    assert_eq!(two.frames, vec![1, 2, 3, 4, 5]);
    let mut five: IvtcDriver<u32> = IvtcDriver::new(TelecinePattern::Pattern22, MatchMode::FiveWay, false);
    assert!(!(0..4).map(|f| five.push_frame(f, false)).any(|r| r));
    assert!(five.push_frame(4, false));
}

#[test]
fn driver_drops_one_frame_in_five_under_pulldown() {
    let mut d: IvtcDriver<u32> = IvtcDriver::new(TelecinePattern::Pattern32, MatchMode::TwoWay, true);
    let actions: Vec<IvtcAction> = (0..10).map(|_| d.decide(true)).collect();
    let drops: Vec<usize> = (0..10).filter(|&i| actions[i] == IvtcAction::Drop).collect();
    assert_eq!(drops, vec![4, 9]);
    assert_eq!(d.frames_processed, 10);
    assert_eq!(d.frames_decimated, 2);
    assert_eq!(d.state.cycle_position, 10);
    assert_eq!(output_pts(20, d.frames_decimated), 18);
}

#[test]
fn driver_scene_change_restarts_an_unlocked_cadence() {
    let mut d: IvtcDriver<u32> = IvtcDriver::new(TelecinePattern::Pattern32, MatchMode::TwoWay, true);
    d.push_frame(0, false);
    d.decide(true);
    d.decide(true);
    assert_eq!(d.state.cycle_position, 2);
    d.push_frame(1, true);
    assert_eq!(d.scene_changes, 1);
    assert_eq!(d.state.cycle_position, 0);
    d.decide(true);
    d.state.locked = true;
    d.push_frame(2, true);
    assert_eq!(d.scene_changes, 2);
    assert_eq!(d.state.cycle_position, 1);
}

#[test]
fn driver_handles_orphans_when_asked() {
    let mut d: IvtcDriver<u32> = IvtcDriver::new(TelecinePattern::Pattern32, MatchMode::TwoWay, true);
    assert_eq!(d.decide(false), IvtcAction::Orphan);
    assert_eq!(d.orphans_handled, 1);
    assert_eq!(d.state.cycle_position, 0);
    let mut quiet: IvtcDriver<u32> = IvtcDriver::new(TelecinePattern::Pattern32, MatchMode::TwoWay, false);
    assert_eq!(quiet.decide(false), IvtcAction::Skip);
    assert_eq!(quiet.orphans_handled, 0);
    quiet.count_output(1);
    quiet.count_output(2);
    assert_eq!(quiet.output_frame_idx, 3);
}
