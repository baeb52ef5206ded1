use oximedia::scoreboard::{
    GameClock, Scoreboard, ScoreboardConfig, ScoreboardRenderer, ScoreboardUpdate, SportType,
    TeamScore,
};

fn make_config() -> ScoreboardConfig {
    ScoreboardConfig::new(
        SportType::Basketball,
        TeamScore::new("HOME", 0, [200, 0, 0, 255]),
        TeamScore::new("AWAY", 0, [0, 0, 200, 255]),
        GameClock::new(12, 0, 1),
        true,
    )
}

#[test]
fn test_sport_type_score_format() {
    assert_eq!(SportType::Soccer.score_format(), "SCORE");
    assert_eq!(SportType::Tennis.score_format(), "SETS");
}

#[test]
fn test_sport_type_periods() {
    assert_eq!(SportType::Football.periods(), 4);
    assert_eq!(SportType::Soccer.periods(), 2);
    assert_eq!(SportType::Hockey.periods(), 3);
}

#[test]
fn test_team_score_add_point() {
    let mut team = TeamScore::new("Team A", 0, [255, 0, 0, 255]);
    team.add_point();
    team.add_point();
    assert_eq!(team.score, 2);
}

#[test]
fn test_game_clock_format() {
    let clock = GameClock::new(12, 34, 1);
    assert_eq!(clock.format(), "12:34");
}

#[test]
fn test_game_clock_tick_counts_down() {
    let mut clock = GameClock::new(0, 3, 1);
    clock.start();
    assert!(!clock.tick()); // 0:02
    assert!(!clock.tick()); // 0:01
    assert!(!clock.tick()); // 0:00
    let period_ended = clock.tick(); // period ends
    assert!(period_ended);
}

#[test]
fn test_game_clock_tick_minutes_rollover() {
    let mut clock = GameClock::new(1, 0, 1);
    clock.start();
    let ended = clock.tick();
    assert!(!ended);
    assert_eq!(clock.minutes, 0);
    assert_eq!(clock.seconds, 59);
}

#[test]
fn test_game_clock_not_running_does_not_tick() {
    let mut clock = GameClock::new(5, 0, 1);
    // is_running defaults to false
    let ended = clock.tick();
    assert!(!ended);
    assert_eq!(clock.minutes, 5); // unchanged
}

#[test]
fn test_game_clock_total_seconds() {
    let clock = GameClock::new(2, 30, 1);
    assert_eq!(clock.total_seconds(), 150);
}

#[test]
fn test_scoreboard_render_size() {
    let config = make_config();
    let data = ScoreboardRenderer::render(&config, 1920, 1080);
    let bar_height = (1080_f32 * 0.08).max(40.0) as u32;
    assert_eq!(data.len(), (1920 * bar_height * 4) as usize);
}

#[test]
fn test_scoreboard_render_non_empty() {
    let config = make_config();
    let data = ScoreboardRenderer::render(&config, 320, 240);
    let has_non_zero = data.iter().any(|&b| b > 0);
    assert!(has_non_zero);
}

#[test]
fn test_scoreboard_apply_update_home_score() {
    let mut sb = Scoreboard::new(make_config());
    sb.apply_update(ScoreboardUpdate::HomeScore(3));
    assert_eq!(sb.config.home.score, 3);
}

#[test]
fn test_scoreboard_apply_update_away_score() {
    let mut sb = Scoreboard::new(make_config());
    sb.apply_update(ScoreboardUpdate::AwayScore(5));
    assert_eq!(sb.config.away.score, 5);
}

#[test]
fn test_scoreboard_apply_update_period() {
    let mut sb = Scoreboard::new(make_config());
    sb.apply_update(ScoreboardUpdate::PeriodChange(2));
    assert_eq!(sb.config.clock.period, 2);
}

#[test]
fn test_scoreboard_apply_update_clock() {
    let mut sb = Scoreboard::new(make_config());
    sb.apply_update(ScoreboardUpdate::ClockUpdate(GameClock::new(5, 30, 2)));
    assert_eq!(sb.config.clock.minutes, 5);
    assert_eq!(sb.config.clock.seconds, 30);
}

// ── Further cases ───────────────────────────────────────────────────────────

#[test]
fn render_bar_height_never_below_forty_rows() {
    let config = make_config();
    let data = ScoreboardRenderer::render(&config, 100, 100);
    assert_eq!(data.len(), 100 * 40 * 4);
}

#[test]
fn render_matches_float_bar_height_on_many_heights() {
    let config = make_config();
    for height in [0u32, 100, 499, 500, 501, 719, 720, 1079, 1080, 2160, 4320] {
        let data = ScoreboardRenderer::render(&config, 10, height);
        let bar_height = (height as f32 * 0.08).max(40.0) as u32;
        assert_eq!(data.len(), (10 * bar_height * 4) as usize, "height {height}");
    }
}

#[test]
fn render_stripes_use_team_colours() {
    let config = make_config();
    let data = ScoreboardRenderer::render(&config, 100, 100);
    // leftmost pixel: home colour with alpha 180
    assert_eq!(&data[0..4], &[200, 0, 0, 180]);
    // rightmost pixel: away colour with alpha 180
    let last = 99 * 4;
    assert_eq!(&data[last..last + 4], &[0, 0, 200, 180]);
    // middle pixel: background
    let mid = 50 * 4;
    assert_eq!(&data[mid..mid + 4], &[20, 20, 20, 230]);
}

#[test]
fn clock_format_pads_seconds() {
    assert_eq!(GameClock::new(3, 5, 1).format(), "03:05");
}

#[test]
fn stopped_clock_keeps_time_after_tick_clock() {
    let mut sb = Scoreboard::new(make_config());
    assert!(!sb.tick_clock());
    assert_eq!(sb.config.clock.minutes, 12);
    assert_eq!(sb.config.clock.seconds, 0);
}

#[test]
fn clock_counts_up_only_for_soccer() {
    assert!(SportType::Soccer.clock_counts_up());
    assert!(!SportType::Basketball.clock_counts_up());
}

#[test]
fn render_bar_height_matches_float_formula_across_heights() {
    let config = make_config();
    let mut heights: Vec<u32> = (0..(1u32 << 20)).step_by(97).collect();
    heights.extend([(1u32 << 24) - 1, 1 << 24, 16_777_200, 12_500_000, 9_999_975]);
    for height in heights {
        let data = ScoreboardRenderer::render(&config, 1, height);
        let bar_height = (height as f32 * 0.08).max(40.0) as u32;
        assert_eq!(data.len(), (bar_height * 4) as usize, "height {height}");
    }
}
