use oximedia::rational::Rational;
use oximedia::timecode::{
    drop_frame_label, nominal_steps, progress_bar_rgba, Color, FrameContext, FrameSteps, MetadataField, Position, ProgressBar,
    TimecodeFormat,
};
use std::collections::HashSet;

fn steps(per_second: u64, elapsed_ms: u64) -> FrameSteps {
    FrameSteps {
        per_hour: per_second * 3600,
        per_minute: per_second * 60,
        per_second,
        elapsed_ms,
    }
}

/// SMPTE drop-frame counting written out directly: label numbers 0 and 1 of every
/// minute not a multiple of ten are skipped, so frame `n` carries label number
/// `n + 18 * blocks + 2 * minutes dropped in its block`.
fn drop_frame_reference(frame_number: u64) -> String {
    let d = frame_number / 17982;
    let m = frame_number % 17982;
    let skipped = if m > 1 { 18 * d + 2 * ((m - 2) / 1798) } else { 18 * d };
    let label = frame_number as u128 + skipped as u128;
    let frames = label % 30;
    let seconds = (label / 30) % 60;
    let minutes = (label / 1800) % 60;
    let hours = label / 108_000;
    format!("{hours:02}:{minutes:02}:{seconds:02};{frames:02}")
}

#[test]
fn framerates_of_formats() {
    assert_eq!(TimecodeFormat::Smpte23976.framerate(), Rational::new(24000, 1001));
    assert_eq!(TimecodeFormat::Smpte25.framerate(), Rational::new(25, 1));
    assert_eq!(TimecodeFormat::Smpte2997Df.framerate(), Rational::new(30000, 1001));
    assert_eq!(TimecodeFormat::Smpte60.framerate(), Rational::new(60, 1));
    assert_eq!(TimecodeFormat::FrameCount.framerate(), Rational::new(1, 1));
}

#[test]
fn only_2997_df_is_drop_frame() {
    assert!(TimecodeFormat::Smpte2997Df.is_drop_frame());
    assert!(!TimecodeFormat::Smpte2997Ndf.is_drop_frame());
    assert!(!TimecodeFormat::Smpte25.is_drop_frame());
    assert_eq!(TimecodeFormat::default(), TimecodeFormat::Smpte25);
}

#[test]
fn ndf_label_counts_whole_frames() {
    let s = TimecodeFormat::Smpte25.format_timecode(90061, &steps(25, 0));
    assert_eq!(s.as_deref(), Some("01:00:02:11"));
    let s = TimecodeFormat::Smpte24.format_timecode(0, &steps(24, 0));
    assert_eq!(s.as_deref(), Some("00:00:00:00"));
}

#[test]
fn drop_frame_labels_match_formula() {
    for n in (0..40_000u64).chain([1_000_000, 123_456_789]) {
        assert_eq!(drop_frame_label(n), drop_frame_reference(n), "frame {n}");
    }
    assert_eq!(
        TimecodeFormat::Smpte2997Df.format_timecode(17982, &steps(0, 0)).as_deref(),
        Some("00:10:00;00")
    );
}

#[test]
fn drop_frame_labels_follow_smpte() {
    let df = |n: u64| TimecodeFormat::Smpte2997Df.format_timecode(n, &steps(0, 0)).unwrap();
    assert_eq!(df(2), "00:00:00;02");
    assert_eq!(df(1799), "00:00:59;29");
    assert_eq!(df(1800), "00:01:00;02");
    assert_eq!(df(17981), "00:09:59;29");
    assert_eq!(df(17982), "00:10:00;00");
    assert_eq!(df(107892), "01:00:00;00");
}

#[test]
fn drop_frame_skips_frames_zero_and_one() {
    for n in 0..200_000u64 {
        let label = drop_frame_label(n);
        let minutes: u64 = label[3..5].parse().unwrap();
        let seconds: u64 = label[6..8].parse().unwrap();
        let frames: u64 = label[9..11].parse().unwrap();
        assert!(minutes < 60 && seconds < 60 && frames < 30);
        if minutes % 10 != 0 && seconds == 0 {
            assert!(frames >= 2, "frame {n} labelled {label}");
        }
    }
}

#[test]
fn drop_frame_labels_are_distinct() {
    let mut seen = HashSet::new();
    for n in 0..100_000u64 {
        assert!(seen.insert(drop_frame_label(n)), "repeated label at {n}");
    }
}

#[test]
fn counting_formats() {
    assert_eq!(
        TimecodeFormat::FrameCount.format_timecode(12345, &steps(1, 0)).as_deref(),
        Some("12345")
    );
    assert_eq!(
        TimecodeFormat::Milliseconds.format_timecode(3, &steps(1, 120)).as_deref(),
        Some("120")
    );
    assert_eq!(
        TimecodeFormat::HhMmSsMmm.format_timecode(3, &steps(1, 3_723_004)).as_deref(),
        Some("01:02:03.004")
    );
    assert_eq!(TimecodeFormat::Seconds.format_timecode(3, &steps(1, 0)), None);
}

#[test]
fn positions_of_presets() {
    let (fw, fh, ew, eh, m) = (1920, 1080, 100, 50, 10);
    assert_eq!(Position::TopLeft.calculate(fw, fh, ew, eh, m), (10, 10));
    assert_eq!(Position::TopCenter.calculate(fw, fh, ew, eh, m), (910, 10));
    assert_eq!(Position::TopRight.calculate(fw, fh, ew, eh, m), (1810, 10));
    assert_eq!(Position::CenterLeft.calculate(fw, fh, ew, eh, m), (10, 515));
    assert_eq!(Position::Center.calculate(fw, fh, ew, eh, m), (910, 515));
    assert_eq!(Position::CenterRight.calculate(fw, fh, ew, eh, m), (1810, 515));
    assert_eq!(Position::BottomLeft.calculate(fw, fh, ew, eh, m), (10, 1020));
    assert_eq!(Position::BottomCenter.calculate(fw, fh, ew, eh, m), (910, 1020));
    assert_eq!(Position::BottomRight.calculate(fw, fh, ew, eh, m), (1810, 1020));
    assert_eq!(Position::Custom(-5, 7).calculate(fw, fh, ew, eh, m), (-5, 7));
    assert_eq!(Position::default(), Position::TopLeft);
}

#[test]
fn positions_saturate_and_wrap() {
    // element wider than the frame sits at 0
    assert_eq!(Position::BottomRight.calculate(50, 40, 100, 100, 10), (0, 0));
    // values beyond i32::MAX read back as negative
    assert_eq!(Position::TopLeft.calculate(0, 0, 0, 0, 4_000_000_000), (-294_967_296, -294_967_296));
}

#[test]
fn colours() {
    assert_eq!(Color::new(1, 2, 3, 4), Color { r: 1, g: 2, b: 3, a: 4 });
    assert_eq!(Color::rgb(1, 2, 3), Color { r: 1, g: 2, b: 3, a: 255 });
    assert_eq!(Color::white(), Color { r: 255, g: 255, b: 255, a: 255 });
    assert_eq!(Color::black(), Color { r: 0, g: 0, b: 0, a: 255 });
    assert_eq!(Color::transparent(), Color { r: 0, g: 0, b: 0, a: 0 });
    assert_eq!(Color::yellow(), Color { r: 255, g: 255, b: 0, a: 255 });
    assert_eq!(Color::red(), Color { r: 255, g: 0, b: 0, a: 255 });
    assert_eq!(Color::green(), Color { r: 0, g: 255, b: 0, a: 255 });
    assert_eq!(Color::blue(), Color { r: 0, g: 0, b: 255, a: 255 });
}

#[test]
fn metadata_values() {
    let mut ctx = FrameContext::default();
    ctx.frame_number = 42;
    ctx.timecode = "01:02:03:04".to_string();
    let at = |f: MetadataField, secs: u64| f.value_at(&ctx, secs);
    assert_eq!(at(MetadataField::Timecode, 0).as_deref(), Some("01:02:03:04"));
    assert_eq!(at(MetadataField::FrameNumber, 0).as_deref(), Some("Frame: 42"));
    assert_eq!(at(MetadataField::Filename, 0).as_deref(), Some("unknown.mp4"));
    assert_eq!(at(MetadataField::Resolution, 0).as_deref(), Some("1920x1080"));
    assert_eq!(at(MetadataField::Codec, 0).as_deref(), Some("Unknown"));
    assert_eq!(at(MetadataField::Bitrate, 0).as_deref(), Some("N/A"));
    assert_eq!(at(MetadataField::Framerate, 0), None);
    assert_eq!(at(MetadataField::Custom("hello".to_string()), 0).as_deref(), Some("hello"));
    ctx.bitrate = 5_000_000;
    assert_eq!(MetadataField::Bitrate.value_at(&ctx, 0), None);
}

#[test]
fn metadata_date_and_time() {
    let ctx = FrameContext::default();
    let date = |secs: u64| MetadataField::Date.value_at(&ctx, secs).unwrap();
    let time = |secs: u64| MetadataField::Time.value_at(&ctx, secs).unwrap();
    assert_eq!(date(0), "1970-01-01");
    assert_eq!(date(68_256_000), "1972-03-01");
    assert_eq!(date(951_782_400), "2000-02-29");
    assert_eq!(date(1_710_506_096), "2024-03-15");
    assert_eq!(date(4_102_444_799), "2099-12-31");
    assert_eq!(time(1_710_506_096), "12:34:56");
    assert_eq!(time(4_102_444_799), "23:59:59");
}

#[test]
fn defaults_of_context_and_progress_bar() {
    let ctx = FrameContext::default();
    assert_eq!(ctx.timecode, "00:00:00:00");
    assert_eq!(ctx.framerate, Rational::new(25, 1));
    assert_eq!((ctx.width, ctx.height, ctx.bitrate), (1920, 1080, 0));
    let bar = ProgressBar::default();
    assert_eq!(bar.position, Position::BottomCenter);
    assert_eq!((bar.width, bar.height, bar.total_frames), (400, 8, 1000));
    assert_eq!(bar.foreground, Color::green());
    assert_eq!(bar.background, Color::new(64, 64, 64, 192));
    assert!(bar.show_percentage && !bar.enabled);
}

#[test]
fn progress_bar_image_fills_left_columns() {
    let bar = ProgressBar {
        width: 4,
        height: 2,
        foreground: Color::new(1, 2, 3, 4),
        background: Color::new(9, 8, 7, 6),
        ..ProgressBar::default()
    };
    let img = progress_bar_rgba(&bar, 3);
    let fg = [1u8, 2, 3, 4];
    let bg = [9u8, 8, 7, 6];
    let row: Vec<u8> = [fg, fg, fg, bg].concat();
    assert_eq!(img, [row.clone(), row].concat());
    assert_eq!(progress_bar_rgba(&bar, 0), [bg; 8].concat());
}

#[test]
fn smpte_labels_count_the_nominal_rate() {
    let film = nominal_steps(&Rational::new(24000, 1001), 0);
    assert_eq!((film.per_second, film.per_minute, film.per_hour), (24, 1440, 86400));
    assert_eq!(nominal_steps(&Rational::new(30000, 1001), 0).per_second, 30);
    assert_eq!(nominal_steps(&Rational::new(60000, 1001), 0).per_second, 60);
    assert_eq!(nominal_steps(&Rational::new(25, 1), 0).per_second, 25);
    assert_eq!(
        TimecodeFormat::Smpte23976.format_timecode(23, &film).as_deref(),
        Some("00:00:00:23")
    );
    assert_eq!(
        TimecodeFormat::Smpte23976.format_timecode(24, &film).as_deref(),
        Some("00:00:01:00")
    );
}

#[test]
fn nominal_rate_rounds_halves_up_over_the_whole_range() {
    assert_eq!(nominal_steps(&Rational::new(5, 2), 0).per_second, 3);
    assert_eq!(nominal_steps(&Rational::new(7, 3), 0).per_second, 2);
    assert_eq!(nominal_steps(&Rational::new(60000, 1001), 0).per_second, 60);
    assert_eq!(nominal_steps(&Rational::new(i64::MAX, i64::MAX), 0).per_second, 1);
    let big = nominal_steps(&Rational::new(i64::MAX, 4096), 9);
    assert_eq!(big.per_second, (i64::MAX as u64 + 2048) / 4096);
    assert_eq!(big.per_hour, 3600 * big.per_second);
    assert_eq!(big.elapsed_ms, 9);
}
