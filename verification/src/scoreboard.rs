//! Sports scoreboard graphics for broadcast overlays.
//!
//! Provides configurable scoreboard renderers for various sports, including a game
//! clock, team scores, and period/quarter tracking.

use vstd::prelude::*;
use crate::decimal::{dec_padded, push_decimal};

verus! {

/// Supported sport types for scoreboard formatting.
#[derive(Debug, Clone, Copy, PartialEq, Eq, Structural)]
pub enum SportType {
    /// Association football / soccer.
    Soccer,
    /// American or Canadian football.
    Football,
    /// Basketball.
    Basketball,
    /// Tennis.
    Tennis,
    /// Ice hockey.
    Hockey,
    /// Generic / custom sport.
    Generic,
}

impl SportType {
    /// Score display format string for this sport type.
    pub fn score_format(&self) -> (f: &'static str)
        ensures
            f@ == (if *self == SportType::Tennis {
                "SETS"@
            } else {
                "SCORE"@
            }),
    {
        match self {
            Self::Tennis => "SETS",
            _ => "SCORE",
        }
    }

    /// Returns true if the clock counts up (e.g. soccer).
    pub fn clock_counts_up(&self) -> (b: bool)
        ensures
            b == (*self == SportType::Soccer),
    {
        match self {
            Self::Soccer => true,
            _ => false,
        }
    }

    /// Returns the typical number of periods.
    pub fn periods(&self) -> (n: u32)
        ensures
            n == (match *self {
                SportType::Soccer => 2u32,
                SportType::Football => 4,
                SportType::Basketball => 4,
                SportType::Tennis => 3,
                SportType::Hockey => 3,
                SportType::Generic => 2,
            }),
    {
        match self {
            Self::Soccer => 2,
            Self::Football => 4,
            Self::Basketball => 4,
            Self::Tennis => 3,
            Self::Hockey => 3,
            Self::Generic => 2,
        }
    }
}

/// Score and identity for a single team.
#[derive(Debug, Clone)]
pub struct TeamScore {
    /// Team name.
    pub name: String,
    /// Current score.
    pub score: u32,
    /// Team color as RGBA.
    pub color: [u8; 4],
}

impl TeamScore {
    /// Create a new team score entry.
    pub fn new(name: &str, score: u32, color: [u8; 4]) -> (t: Self)
        ensures
            t.name@ == name@,
            t.score == score,
            t.color == color,
    {
        TeamScore { name: name.to_owned(), score, color }
    }

    /// Increment score by one.
    pub fn add_point(&mut self)
        requires
            old(self).score < u32::MAX,
        ensures
            final(self).score == old(self).score + 1,
            final(self).name == old(self).name,
            final(self).color == old(self).color,
    {
        self.score += 1;
    }
}

/// Game clock with period tracking.
#[derive(Debug, Clone)]
pub struct GameClock {
    /// Minutes component.
    pub minutes: u32,
    /// Seconds component.
    pub seconds: u32,
    /// Whether the clock is currently running.
    pub is_running: bool,
    /// Current period / quarter / half.
    pub period: u32,
}

/// The clock state one second later, and whether the period ended: a stopped clock
/// does not move; a running clock counts down seconds, borrowing a minute (as 59
/// seconds) when the seconds are at zero, and stops with the period ended at 00:00.
pub open spec fn spec_tick(c: GameClock) -> (GameClock, bool) {
    if !c.is_running {
        (c, false)
    } else if c.seconds > 0 {
        (GameClock { seconds: (c.seconds - 1) as u32, ..c }, false)
    } else if c.minutes > 0 {
        (GameClock { minutes: (c.minutes - 1) as u32, seconds: 59, ..c }, false)
    } else {
        (GameClock { is_running: false, ..c }, true)
    }
}

/// Seconds left on the clock.
pub open spec fn clock_seconds(c: GameClock) -> int {
    c.minutes * 60 + c.seconds
}

impl GameClock {
    /// Create a new game clock.
    pub fn new(minutes: u32, seconds: u32, period: u32) -> (c: Self)
        ensures
            c == (GameClock { minutes, seconds, is_running: false, period }),
    {
        GameClock { minutes, seconds, is_running: false, period }
    }

    /// Start the clock.
    pub fn start(&mut self)
        ensures
            *final(self) == (GameClock { is_running: true, ..*old(self) }),
    {
        self.is_running = true;
    }

    /// Stop the clock.
    pub fn stop(&mut self)
        ensures
            *final(self) == (GameClock { is_running: false, ..*old(self) }),
    {
        self.is_running = false;
    }

    /// Tick the clock down by one second.
    ///
    /// Returns `true` if the period has ended (clock reached 00:00).
    pub fn tick(&mut self) -> (ended: bool)
        ensures
            (*final(self), ended) == spec_tick(*old(self)),
    {
        if !self.is_running {
            return false;
        }
        if self.seconds > 0 {
            self.seconds -= 1;
            false
        } else if self.minutes > 0 {
            self.minutes -= 1;
            self.seconds = 59;
            false
        } else {
            self.is_running = false;
            true
        }
    }

    /// Format the clock as "MM:SS".
    pub fn format(&self) -> (s: String)
        ensures
            s@ == dec_padded(self.minutes as nat, 2) + ":"@ + dec_padded(self.seconds as nat, 2),
    {
        let mut s = String::new();
        push_decimal(&mut s, self.minutes as u64, 2);
        s.append(":");
        push_decimal(&mut s, self.seconds as u64, 2);
        s
    }

    /// Total seconds remaining.
    pub fn total_seconds(&self) -> (t: u32)
        requires
            clock_seconds(*self) <= u32::MAX,
        ensures
            t == clock_seconds(*self),
    {
        self.minutes * 60 + self.seconds
    }
}

/// A running clock with seconds in `0..60` loses exactly one second per tick until the
/// period ends, and the period ends exactly when the clock is at zero.
pub proof fn lemma_tick_counts_down(c: GameClock)
    requires
        c.is_running,
        c.seconds < 60,
    ensures
        spec_tick(c).1 <==> clock_seconds(c) == 0,
        !spec_tick(c).1 ==> clock_seconds(spec_tick(c).0) == clock_seconds(c) - 1 && spec_tick(
            c,
        ).0.seconds < 60 && spec_tick(c).0.is_running,
        spec_tick(c).1 ==> !spec_tick(c).0.is_running,
{
}

/// Ticking a stopped clock changes nothing.
pub proof fn lemma_tick_stopped(c: GameClock)
    requires
        !c.is_running,
    ensures
        spec_tick(c) == (c, false),
{
}

/// Complete scoreboard configuration.
#[derive(Debug, Clone)]
pub struct ScoreboardConfig {
    /// Sport type.
    pub sport: SportType,
    /// Home team score data.
    pub home: TeamScore,
    /// Away team score data.
    pub away: TeamScore,
    /// Game clock.
    pub clock: GameClock,
    /// Whether to display the period number.
    pub show_period: bool,
}

impl ScoreboardConfig {
    /// Create a new scoreboard configuration.
    pub fn new(sport: SportType, home: TeamScore, away: TeamScore, clock: GameClock, show_period: bool) -> (c: Self)
        ensures
            c == (ScoreboardConfig { sport, home, away, clock, show_period }),
    {
        ScoreboardConfig { sport, home, away, clock, show_period }
    }
}

/// Height of the overlay strip for a frame `height` pixels tall: 8% of the height,
/// rounded down, but at least 40 pixels.
pub open spec fn spec_bar_height(height: int) -> int {
    if 2 * height / 25 >= 40 {
        2 * height / 25
    } else {
        40
    }
}

/// Byte `ch` (0 = red .. 3 = alpha) of the strip pixel in column `col` of a strip
/// `width` pixels wide: the first 30% of the left third shows the home colour, the
/// last 30% of the right third shows the away colour (both at alpha 180), and the
/// rest is the dark translucent background (20, 20, 20, 230).
pub open spec fn strip_byte(cfg: ScoreboardConfig, width: int, col: int, ch: int) -> u8 {
    let third = width / 3;
    let two_thirds = width * 2 / 3;
    if col < third && 10 * col < 3 * third {
        if ch == 3 {
            180
        } else {
            cfg.home.color@[ch]
        }
    } else if col >= two_thirds && 10 * (col - two_thirds) > 7 * third {
        if ch == 3 {
            180
        } else {
            cfg.away.color@[ch]
        }
    } else if ch == 3 {
        230
    } else {
        20
    }
}

/// Column `col` of a strip `width` pixels wide lies in the home stripe: the first
/// 30% of the left third.
pub open spec fn in_home_stripe(width: int, col: int) -> bool {
    col < width / 3 && 10 * col < 3 * (width / 3)
}

/// Column `col` of a strip `width` pixels wide lies in the away stripe (and not in
/// the home one): the last 30% of the right third.
pub open spec fn in_away_stripe(width: int, col: int) -> bool {
    !in_home_stripe(width, col) && col >= width * 2 / 3 && 10 * (col - width * 2 / 3) > 7 * (width / 3)
}

/// The strip's pixels: in the home stripe the home colour's red, green and blue in
/// that order at alpha 180, in the away stripe the away colour's likewise, and
/// elsewhere the background (20, 20, 20) at alpha 230.
pub proof fn lemma_strip_colours(cfg: ScoreboardConfig, width: int, col: int)
    ensures
        in_home_stripe(width, col) ==> strip_byte(cfg, width, col, 0) == cfg.home.color[0]
            && strip_byte(cfg, width, col, 1) == cfg.home.color[1] && strip_byte(cfg, width, col, 2)
            == cfg.home.color[2] && strip_byte(cfg, width, col, 3) == 180,
        in_away_stripe(width, col) ==> strip_byte(cfg, width, col, 0) == cfg.away.color[0]
            && strip_byte(cfg, width, col, 1) == cfg.away.color[1] && strip_byte(cfg, width, col, 2)
            == cfg.away.color[2] && strip_byte(cfg, width, col, 3) == 180,
        !in_home_stripe(width, col) && !in_away_stripe(width, col) ==> strip_byte(cfg, width, col, 0) == 20
            && strip_byte(cfg, width, col, 1) == 20 && strip_byte(cfg, width, col, 2) == 20 && strip_byte(
            cfg,
            width,
            col,
            3,
        ) == 230,
{
}

/// Renderer for the scoreboard overlay.
pub struct ScoreboardRenderer;

impl ScoreboardRenderer {
    /// Render the scoreboard as an RGBA overlay strip at the top of the frame.
    ///
    /// Returns a `Vec<u8>` of RGBA data with length `width * bar_height * 4`, where the
    /// bar height is 8% of the frame height but at least 40 pixels. Every row of the
    /// strip is the same: background with a home-colour stripe on the left and an
    /// away-colour stripe on the right.
    ///
    /// The bar height and the stripe edges are computed exactly in integers. The
    /// bounds on `height` (2^24) and `width` (2^23) are those below which the same
    /// products and comparisons taken in single-precision floats are exact as well,
    /// so that both ways of computing them draw the same strip.
    pub fn render(config: &ScoreboardConfig, width: u32, height: u32) -> (data: Vec<u8>)
        requires
            height <= 16_777_216,
            width <= 8_388_608,
            width * spec_bar_height(height as int) <= u32::MAX,
        ensures
            data@.len() == width * spec_bar_height(height as int) * 4,
            forall|row: int, col: int, ch: int|
                0 <= row < spec_bar_height(height as int) && 0 <= col < width && 0 <= ch < 4
                    ==> #[trigger] data@[(row * width + col) * 4 + ch] == strip_byte(
                    *config,
                    width as int,
                    col,
                    ch,
                ),
            forall|row: int, col: int|
                #![trigger data@[(row * width + col) * 4]]
                0 <= row < spec_bar_height(height as int) && 0 <= col < width && in_home_stripe(width as int, col)
                    ==> data@[(row * width + col) * 4] == config.home.color[0]
                    && data@[(row * width + col) * 4 + 1] == config.home.color[1]
                    && data@[(row * width + col) * 4 + 2] == config.home.color[2]
                    && data@[(row * width + col) * 4 + 3] == 180,
            forall|row: int, col: int|
                #![trigger data@[(row * width + col) * 4]]
                0 <= row < spec_bar_height(height as int) && 0 <= col < width && in_away_stripe(width as int, col)
                    ==> data@[(row * width + col) * 4] == config.away.color[0]
                    && data@[(row * width + col) * 4 + 1] == config.away.color[1]
                    && data@[(row * width + col) * 4 + 2] == config.away.color[2]
                    && data@[(row * width + col) * 4 + 3] == 180,
            forall|row: int, col: int|
                #![trigger data@[(row * width + col) * 4]]
                0 <= row < spec_bar_height(height as int) && 0 <= col < width && !in_home_stripe(width as int, col)
                    && !in_away_stripe(width as int, col) ==> data@[(row * width + col) * 4] == 20
                    && data@[(row * width + col) * 4 + 1] == 20
                    && data@[(row * width + col) * 4 + 2] == 20
                    && data@[(row * width + col) * 4 + 3] == 230,
    {
        let bar = 2 * height / 25;
        let bar_height: u32 = if bar >= 40 {
            bar
        } else {
            40
        };
        let third = width / 3;
        let two_thirds = width * 2 / 3;
        // one row of the strip
        let mut line: Vec<u8> = Vec::new();
        let mut col: u32 = 0;
        while col < width
            invariant
                col <= width,
                width <= 8_388_608,
                third == width / 3,
                two_thirds == width * 2 / 3,
                line@.len() == col * 4,
                forall|c: int, ch: int|
                    0 <= c < col && 0 <= ch < 4 ==> #[trigger] line@[c * 4 + ch] == strip_byte(
                        *config,
                        width as int,
                        c,
                        ch,
                    ),
            decreases width - col,
        {
            let ghost before = line@;
            if col < third && 10 * col < 3 * third {
                line.push(config.home.color[0]);
                line.push(config.home.color[1]);
                line.push(config.home.color[2]);
                line.push(180);
            } else if col >= two_thirds && 10 * (col - two_thirds) > 7 * third {
                line.push(config.away.color[0]);
                line.push(config.away.color[1]);
                line.push(config.away.color[2]);
                line.push(180);
            } else {
                line.push(20);
                line.push(20);
                line.push(20);
                line.push(230);
            }
            proof {
                assert forall|c: int, ch: int| 0 <= c < col + 1 && 0 <= ch < 4 implies #[trigger] line@[c * 4 + ch]
                    == strip_byte(*config, width as int, c, ch) by {
                    if c < col {
                        assert(line@[c * 4 + ch] == before[c * 4 + ch]);
                    }
                }
            }
            col += 1;
        }
        let mut data: Vec<u8> = Vec::new();
        let mut row: u32 = 0;
        let row_len = width * 4;
        while row < bar_height
            invariant
                row <= bar_height,
                bar_height == spec_bar_height(height as int),
                width * bar_height <= u32::MAX,
                row_len == width * 4,
                line@.len() == row_len,
                data@.len() == row * row_len,
                forall|r: int, j: int|
                    0 <= r < row && 0 <= j < row_len ==> #[trigger] data@[r * row_len + j] == line@[j],
            decreases bar_height - row,
        {
            let ghost before = data@;
            let mut j: usize = 0;
            while j < line.len()
                invariant
                    j <= line@.len(),
                    line@.len() == row_len,
                    data@.len() == row * row_len + j,
                    before.len() == row * row_len,
                    data@.take(before.len() as int) == before,
                    forall|t: int| 0 <= t < j ==> #[trigger] data@[row * row_len + t] == line@[t],
                decreases line@.len() - j,
            {
                data.push(line[j]);
                proof {
                    assert(data@.take(before.len() as int) =~= before);
                }
                j += 1;
            }
            proof {
                assert((row + 1) * row_len == row * row_len + row_len) by (nonlinear_arith);
                assert forall|r: int, jj: int| 0 <= r < row + 1 && 0 <= jj < row_len implies #[trigger] data@[r
                    * row_len + jj] == line@[jj] by {
                    if r < row {
                        assert(r * row_len + jj < row * row_len) by (nonlinear_arith)
                            requires
                                r < row,
                                jj < row_len,
                        ;
                        assert(data@[r * row_len + jj] == data@.take(before.len() as int)[r * row_len
                            + jj]);
                    }
                }
            }
            row += 1;
        }
        proof {
            assert(data@.len() == width * spec_bar_height(height as int) * 4) by (nonlinear_arith)
                requires
                    data@.len() == bar_height * (width * 4),
                    bar_height == spec_bar_height(height as int),
            ;
            assert forall|r: int, c: int, ch: int|
                0 <= r < spec_bar_height(height as int) && 0 <= c < width && 0 <= ch < 4 implies #[trigger] data@[(r
                * width + c) * 4 + ch] == strip_byte(*config, width as int, c, ch) by {
                assert((r * width + c) * 4 + ch == r * row_len + (c * 4 + ch)) by (nonlinear_arith)
                    requires
                        row_len == width * 4,
                ;
                assert(c * 4 + ch < row_len) by (nonlinear_arith)
                    requires
                        c < width,
                        ch < 4,
                        row_len == width * 4,
                ;
                assert(data@[r * row_len + (c * 4 + ch)] == line@[c * 4 + ch]);
            }
            assert forall|r: int, c: int|
                #![trigger data@[(r * width + c) * 4]]
                0 <= r < spec_bar_height(height as int) && 0 <= c < width implies data@[(r * width + c) * 4]
                    == strip_byte(*config, width as int, c, 0) && data@[(r * width + c) * 4 + 1] == strip_byte(
                    *config,
                    width as int,
                    c,
                    1,
                ) && data@[(r * width + c) * 4 + 2] == strip_byte(*config, width as int, c, 2) && data@[(r
                    * width + c) * 4 + 3] == strip_byte(*config, width as int, c, 3) by {
                assert(data@[(r * width + c) * 4 + 0] == strip_byte(*config, width as int, c, 0));
                assert(data@[(r * width + c) * 4 + 1] == strip_byte(*config, width as int, c, 1));
                assert(data@[(r * width + c) * 4 + 2] == strip_byte(*config, width as int, c, 2));
                assert(data@[(r * width + c) * 4 + 3] == strip_byte(*config, width as int, c, 3));
                lemma_strip_colours(*config, width as int, c);
            }
        }
        data
    }
}

/// Update events that can be applied to a scoreboard.
#[derive(Debug, Clone)]
pub enum ScoreboardUpdate {
    /// Update home team score.
    HomeScore(u32),
    /// Update away team score.
    AwayScore(u32),
    /// Replace clock entirely.
    ClockUpdate(GameClock),
    /// Change the current period.
    PeriodChange(u32),
}

/// A live scoreboard that can receive updates.
#[derive(Debug, Clone)]
pub struct Scoreboard {
    /// Current configuration.
    pub config: ScoreboardConfig,
}

/// The configuration after applying an update: a score update replaces that team's
/// score, a clock update replaces the clock, and a period change sets the clock's
/// period; nothing else changes.
pub open spec fn spec_apply_update(c: ScoreboardConfig, u: ScoreboardUpdate) -> ScoreboardConfig {
    match u {
        ScoreboardUpdate::HomeScore(s) => ScoreboardConfig { home: TeamScore { score: s, ..c.home }, ..c },
        ScoreboardUpdate::AwayScore(s) => ScoreboardConfig { away: TeamScore { score: s, ..c.away }, ..c },
        ScoreboardUpdate::ClockUpdate(k) => ScoreboardConfig { clock: k, ..c },
        ScoreboardUpdate::PeriodChange(p) => ScoreboardConfig { clock: GameClock { period: p, ..c.clock }, ..c },
    }
}

impl Scoreboard {
    /// Create a new scoreboard.
    pub fn new(config: ScoreboardConfig) -> (s: Self)
        ensures
            s.config == config,
    {
        Scoreboard { config }
    }

    /// Apply an update to the scoreboard state.
    pub fn apply_update(&mut self, update: ScoreboardUpdate)
        ensures
            final(self).config == spec_apply_update(old(self).config, update),
    {
        match update {
            ScoreboardUpdate::HomeScore(s) => {
                self.config.home.score = s;
            },
            ScoreboardUpdate::AwayScore(s) => {
                self.config.away.score = s;
            },
            ScoreboardUpdate::ClockUpdate(clock) => {
                self.config.clock = clock;
            },
            ScoreboardUpdate::PeriodChange(p) => {
                self.config.clock.period = p;
            },
        }
    }

    /// Tick the game clock.
    ///
    /// Returns `true` if the period ended.
    pub fn tick_clock(&mut self) -> (ended: bool)
        ensures
            (final(self).config.clock, ended) == spec_tick(old(self).config.clock),
            final(self).config == (ScoreboardConfig { clock: final(self).config.clock, ..old(self).config }),
    {
        self.config.clock.tick()
    }
}

/// A score update followed by a read of that score gives the new score, and leaves
/// the other team and the clock unchanged.
pub proof fn lemma_score_update_reads_back(c: ScoreboardConfig, s: u32)
    ensures
        spec_apply_update(c, ScoreboardUpdate::HomeScore(s)).home.score == s,
        spec_apply_update(c, ScoreboardUpdate::HomeScore(s)).away == c.away,
        spec_apply_update(c, ScoreboardUpdate::HomeScore(s)).clock == c.clock,
        spec_apply_update(c, ScoreboardUpdate::AwayScore(s)).away.score == s,
        spec_apply_update(c, ScoreboardUpdate::AwayScore(s)).home == c.home,
        spec_apply_update(c, ScoreboardUpdate::AwayScore(s)).clock == c.clock,
{
}

/// A clock update reads back whole: the clock becomes the one given, period
/// included, and the teams, the sport and the period display are unchanged. A period
/// change sets only the clock's period.
pub proof fn lemma_clock_update_reads_back(c: ScoreboardConfig, k: GameClock, p: u32)
    ensures
        spec_apply_update(c, ScoreboardUpdate::ClockUpdate(k)).clock == k,
        spec_apply_update(c, ScoreboardUpdate::ClockUpdate(k)).home == c.home,
        spec_apply_update(c, ScoreboardUpdate::ClockUpdate(k)).away == c.away,
        spec_apply_update(c, ScoreboardUpdate::ClockUpdate(k)).sport == c.sport,
        spec_apply_update(c, ScoreboardUpdate::ClockUpdate(k)).show_period == c.show_period,
        spec_apply_update(c, ScoreboardUpdate::PeriodChange(p)).clock.period == p,
        spec_apply_update(c, ScoreboardUpdate::PeriodChange(p)).clock.minutes == c.clock.minutes,
        spec_apply_update(c, ScoreboardUpdate::PeriodChange(p)).clock.seconds == c.clock.seconds,
        spec_apply_update(c, ScoreboardUpdate::PeriodChange(p)).clock.is_running == c.clock.is_running,
        spec_apply_update(c, ScoreboardUpdate::PeriodChange(p)).home == c.home,
        spec_apply_update(c, ScoreboardUpdate::PeriodChange(p)).away == c.away,
{
}

impl Default for GameClock {
    fn default() -> (c: Self)
        ensures
            c == (GameClock { minutes: 15, seconds: 0, is_running: false, period: 1 }),
    {
        Self::new(15, 0, 1)
    }
}
} // verus!
