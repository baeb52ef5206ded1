//! Inverse telecine: pulldown patterns, their cadence arithmetic, frame-rate
//! conversion and the cadence detector that locks onto a repeating duplicate
//! pattern.

use vstd::prelude::*;
use crate::rational::Rational;
use crate::fields::{image, is_best_vector, motion_search, rows_view, shift_plane, shifted_pixel};

verus! {

/// Custom telecine pattern.
#[derive(Clone, Copy, Debug, PartialEq, Eq)]
pub struct CustomPattern {
    /// Pattern as field order indices (0 = top, 1 = bottom).
    fields: [u8; 10],
    /// Length of the pattern.
    length: usize,
}

/// The field of pattern character `c`: 1 for a bottom field (`'B'` or `'b'`), 0 for
/// anything else.
pub open spec fn field_of_char(c: char) -> u8 {
    if c == 'B' || c == 'b' {
        1
    } else {
        0
    }
}

impl CustomPattern {
    /// The pattern's fields (0 = top, 1 = bottom), all ten slots.
    pub closed spec fn spec_fields(&self) -> Seq<u8> {
        self.fields@
    }

    /// The number of fields in the pattern.
    pub closed spec fn spec_length(&self) -> nat {
        self.length as nat
    }

    /// At most ten fields, each 0 or 1.
    #[verifier::type_invariant]
    spec fn inv(&self) -> bool {
        &&& self.length <= 10
        &&& forall|i: int| 0 <= i < 10 ==> #[trigger] self.fields@[i] <= 1
    }

    /// Create a new custom pattern from a string.
    /// Pattern string uses 'T' for top field, 'B' for bottom field.
    ///
    /// At most the first ten characters count; a `'B'` or `'b'` is a bottom field
    /// and any other character a top field. Unused slots hold 0.
    pub fn from_string(pattern: &str) -> (p: Self)
        ensures
            p.spec_length() == if pattern@.len() < 10 {
                pattern@.len()
            } else {
                10
            },
            forall|i: int|
                0 <= i < 10 ==> #[trigger] p.spec_fields()[i] == if i < p.spec_length() {
                    field_of_char(pattern@[i])
                } else {
                    0u8
                },
    {
        let mut fields = [0u8; 10];
        let mut length: usize = 0;
        let n = pattern.unicode_len();
        let limit: usize = if n < 10 {
            n
        } else {
            10
        };
        while length < limit
            invariant
                limit <= 10,
                limit as nat == if pattern@.len() < 10 {
                    pattern@.len()
                } else {
                    10
                },
                length <= limit,
                fields@.len() == 10,
                forall|i: int|
                    0 <= i < 10 ==> #[trigger] fields@[i] == if i < length {
                        field_of_char(pattern@[i])
                    } else {
                        0u8
                    },
            decreases limit - length,
        {
            let ch = pattern.get_char(length);
            let f: u8 = if ch == 'B' || ch == 'b' {
                1
            } else {
                0
            };
            fields.set(length, f);
            length += 1;
        }
        CustomPattern { fields, length }
    }

    /// Get the field at a specific position in the pattern: the pattern repeats,
    /// and an empty pattern gives 0 everywhere.
    pub fn field_at(&self, position: usize) -> (f: u8)
        ensures
            f == if self.spec_length() == 0 {
                0u8
            } else {
                self.spec_fields()[position as int % self.spec_length() as int]
            },
    {
        proof {
            use_type_invariant(self);
        }
        if self.length == 0 {
            return 0;
        }
        self.fields[position % self.length]
    }

    /// The number of fields in the pattern.
    pub fn length(&self) -> (n: usize)
        ensures
            n == self.spec_length(),
            n <= 10,
    {
        proof {
            use_type_invariant(self);
        }
        self.length
    }
}

impl Default for CustomPattern {
    fn default() -> (p: Self)
        ensures
            p.spec_length() == 0,
            forall|i: int| 0 <= i < 10 ==> #[trigger] p.spec_fields()[i] == 0,
    {
        CustomPattern { fields: [0u8; 10], length: 0 }
    }
}

/// Telecine pattern type.
#[derive(Clone, Copy, Debug, PartialEq, Eq)]
pub enum TelecinePattern {
    /// Automatic pattern detection.
    Auto,
    /// 3:2 pulldown (NTSC film: 24fps → 29.97fps).
    /// Pattern: top-top-top-bottom-bottom (TTTBB)
    Pattern32,
    /// 2:2 pulldown (PAL film: 24fps → 25fps).
    /// Simple field duplication pattern.
    Pattern22,
    /// 2:3:3:2 advanced pulldown pattern.
    /// Pattern: TT-BBB-BBB-TT for smoother motion.
    Pattern2332,
    /// Euro pulldown (24fps → 25fps with speed-up).
    EuroPulldown,
    /// Custom pattern specified as string (e.g., "TBTBT").
    Custom(CustomPattern),
}

/// Frames in one cycle of a pattern.
pub open spec fn spec_cycle_length(p: TelecinePattern) -> nat {
    match p {
        TelecinePattern::Auto => 5,
        TelecinePattern::Pattern32 => 5,
        TelecinePattern::Pattern22 => 2,
        TelecinePattern::Pattern2332 => 10,
        TelecinePattern::EuroPulldown => 1,
        TelecinePattern::Custom(c) => c.spec_length(),
    }
}

/// Frames kept per cycle of a pattern: a custom pattern drops one frame in five.
pub open spec fn spec_output_frames(p: TelecinePattern) -> nat {
    match p {
        TelecinePattern::Auto => 4,
        TelecinePattern::Pattern32 => 4,
        TelecinePattern::Pattern22 => 2,
        TelecinePattern::Pattern2332 => 8,
        TelecinePattern::EuroPulldown => 1,
        TelecinePattern::Custom(c) => (c.spec_length() - c.spec_length() / 5) as nat,
    }
}

impl TelecinePattern {
    /// Get the pattern length (number of frames in one cycle).
    pub fn cycle_length(&self) -> (n: usize)
        ensures
            n == spec_cycle_length(*self),
            n <= 10,
    {
        match self {
            TelecinePattern::Auto => 5,
            TelecinePattern::Pattern32 => 5,
            TelecinePattern::Pattern22 => 2,
            TelecinePattern::Pattern2332 => 10,
            TelecinePattern::EuroPulldown => 1,
            TelecinePattern::Custom(p) => p.length(),
        }
    }

    /// Get the number of frames to output per cycle.
    pub fn output_frames(&self) -> (n: usize)
        ensures
            n == spec_output_frames(*self),
    {
        match self {
            TelecinePattern::Auto => 4,
            TelecinePattern::Pattern32 => 4,
            TelecinePattern::Pattern22 => 2,
            TelecinePattern::Pattern2332 => 8,
            TelecinePattern::EuroPulldown => 1,
            TelecinePattern::Custom(p) => {
                let len = p.length();
                len.saturating_sub(len / 5)
            },
        }
    }

    /// Check if this pattern requires decimation.
    pub fn requires_decimation(&self) -> (b: bool)
        ensures
            b <==> spec_cycle_length(*self) != spec_output_frames(*self),
    {
        self.cycle_length() != self.output_frames()
    }
}

impl Default for TelecinePattern {
    fn default() -> (p: Self)
        ensures
            p == TelecinePattern::Auto,
    {
        TelecinePattern::Auto
    }
}

/// A pattern never keeps more frames than a cycle has, and it drops frames exactly
/// when a cycle has at least five frames (the built-in 3:2 and 2:3:3:2 patterns, the
/// automatic default, and custom patterns of five or more fields).
pub proof fn lemma_decimation_drops_frames(p: TelecinePattern)
    ensures
        spec_output_frames(p) <= spec_cycle_length(p),
        spec_cycle_length(p) != spec_output_frames(p) <==> spec_cycle_length(p) >= 5,
{
}

/// Whether the frame at position `cycle_position` of the stream is dropped while
/// inverse-telecining with `pattern`. A pattern that keeps every frame of its cycle
/// drops nothing; otherwise a 2:3:3:2 cycle drops the frames at positions 2 and 5,
/// and every other pattern (3:2, the automatic default, which assumes 3:2, and custom
/// patterns) drops the last frame of each group of five in its cycle, so that a cycle
/// drops exactly as many frames as it does not keep.
pub open spec fn spec_decimates(pattern: TelecinePattern, cycle_position: nat) -> bool {
    if spec_cycle_length(pattern) == spec_output_frames(pattern) {
        false
    } else {
        let position = cycle_position % spec_cycle_length(pattern);
        match pattern {
            TelecinePattern::Pattern2332 => position == 2 || position == 5,
            _ => position % 5 == 4,
        }
    }
}

/// Number of the first `n` positions at which `pattern` drops a frame.
pub open spec fn drops_before(pattern: TelecinePattern, n: nat) -> nat
    decreases n,
{
    if n == 0 {
        0
    } else {
        drops_before(pattern, (n - 1) as nat) + if spec_decimates(pattern, (n - 1) as nat) {
            1nat
        } else {
            0nat
        }
    }
}

proof fn lemma_custom_drops(c: CustomPattern, n: nat)
    requires
        n <= c.spec_length(),
        c.spec_length() >= 5,
    ensures
        drops_before(TelecinePattern::Custom(c), n) == n / 5,
    decreases n,
{
    if n > 0 {
        lemma_custom_drops(c, (n - 1) as nat);
        let k = (n - 1) as nat;
        assert(k % c.spec_length() == k) by (nonlinear_arith)
            requires
                k < c.spec_length(),
        ;
        assert(n / 5 == k / 5 + if k % 5 == 4 {
            1int
        } else {
            0int
        });
    }
}

/// Over one cycle, a pattern drops exactly the frames it does not keep: the number
/// of dropping positions among the first `cycle_length` is `cycle_length -
/// output_frames` (one in five for 3:2, two in ten for 2:3:3:2, none for 2:2).
pub proof fn lemma_cycle_drops_unkept_frames(p: TelecinePattern)
    ensures
        drops_before(p, spec_cycle_length(p)) == spec_cycle_length(p) - spec_output_frames(p),
{
    match p {
        TelecinePattern::Custom(c) => {
            if c.spec_length() >= 5 {
                lemma_custom_drops(c, c.spec_length());
            } else {
                lemma_no_drops(p, c.spec_length());
            }
        },
        TelecinePattern::Pattern22 => {
            lemma_no_drops(p, 2);
        },
        TelecinePattern::EuroPulldown => {
            lemma_no_drops(p, 1);
        },
        TelecinePattern::Pattern2332 => {
            reveal_with_fuel(drops_before, 11);
        },
        _ => {
            reveal_with_fuel(drops_before, 6);
        },
    }
}

proof fn lemma_no_drops(p: TelecinePattern, n: nat)
    requires
        spec_cycle_length(p) == spec_output_frames(p),
    ensures
        drops_before(p, n) == 0,
    decreases n,
{
    if n > 0 {
        lemma_no_drops(p, (n - 1) as nat);
    }
}

/// Determine if the frame at `cycle_position` should be decimated under `pattern`.
pub fn should_decimate(pattern: TelecinePattern, cycle_position: usize) -> (b: bool)
    ensures
        b == spec_decimates(pattern, cycle_position as nat),
{
    if !pattern.requires_decimation() {
        return false;
    }
    let cycle_len = pattern.cycle_length();
    let position = cycle_position % cycle_len;
    match pattern {
        TelecinePattern::Pattern2332 => position == 2 || position == 5,
        _ => position % 5 == 4,
    }
}

/// Field matching strategy.
#[derive(Clone, Copy, Debug, PartialEq, Eq)]
pub enum MatchMode {
    /// Match fields from current and next frames only.
    TwoWay,
    /// Match fields from previous, current, and next frames.
    ThreeWay,
    /// Match with extended temporal window (5 frames).
    FiveWay,
}

impl Default for MatchMode {
    fn default() -> (m: Self)
        ensures
            m == MatchMode::TwoWay,
    {
        MatchMode::TwoWay
    }
}

/// Post-processing mode for residual combing.
#[derive(Clone, Copy, Debug, PartialEq, Eq)]
pub enum PostProcessMode {
    /// No post-processing.
    Off,
    /// Light deinterlacing for residual combing.
    Light,
    /// Medium strength post-processing.
    Medium,
    /// Aggressive post-processing.
    Aggressive,
}

impl Default for PostProcessMode {
    fn default() -> (m: Self)
        ensures
            m == PostProcessMode::Light,
    {
        PostProcessMode::Light
    }
}

/// IVTC detection sensitivity.
#[derive(Clone, Copy, Debug, PartialEq, Eq)]
pub enum DetectionSensitivity {
    /// Low sensitivity (fewer false positives).
    Low,
    /// Medium sensitivity.
    Medium,
    /// High sensitivity (catch more patterns).
    High,
}

impl Default for DetectionSensitivity {
    fn default() -> (s: Self)
        ensures
            s == DetectionSensitivity::Medium,
    {
        DetectionSensitivity::Medium
    }
}

// ── Frame rates ─────────────────────────────────────────────────────────────

/// Common frame rates.
#[derive(Clone, Copy, Debug, PartialEq, Eq)]
pub enum StandardFrameRate {
    /// Film rate: 24 fps.
    Film24,
    /// Film rate: 23.976 fps (24000/1001).
    Film23976,
    /// PAL rate: 25 fps.
    Pal25,
    /// NTSC rate: 29.97 fps (30000/1001).
    Ntsc2997,
    /// NTSC rate: 30 fps.
    Ntsc30,
    /// High frame rate: 50 fps.
    High50,
    /// High frame rate: 59.94 fps (60000/1001).
    High5994,
    /// High frame rate: 60 fps.
    High60,
}

/// The exact rate of a standard frame rate, as a numerator and a denominator.
pub open spec fn spec_rate(r: StandardFrameRate) -> (int, int) {
    match r {
        StandardFrameRate::Film24 => (24, 1),
        StandardFrameRate::Film23976 => (24000, 1001),
        StandardFrameRate::Pal25 => (25, 1),
        StandardFrameRate::Ntsc2997 => (30000, 1001),
        StandardFrameRate::Ntsc30 => (30, 1),
        StandardFrameRate::High50 => (50, 1),
        StandardFrameRate::High5994 => (60000, 1001),
        StandardFrameRate::High60 => (60, 1),
    }
}

impl StandardFrameRate {
    /// Get the rational representation.
    pub fn as_rational(&self) -> (r: Rational)
        ensures
            (r.num as int, r.den as int) == spec_rate(*self),
    {
        match self {
            StandardFrameRate::Film24 => Rational { num: 24, den: 1 },
            StandardFrameRate::Film23976 => Rational { num: 24000, den: 1001 },
            StandardFrameRate::Pal25 => Rational { num: 25, den: 1 },
            StandardFrameRate::Ntsc2997 => Rational { num: 30000, den: 1001 },
            StandardFrameRate::Ntsc30 => Rational { num: 30, den: 1 },
            StandardFrameRate::High50 => Rational { num: 50, den: 1 },
            StandardFrameRate::High5994 => Rational { num: 60000, den: 1001 },
            StandardFrameRate::High60 => Rational { num: 60, den: 1 },
        }
    }
}

/// Whether the ratio of rate `a` to rate `b` lies within 1/100 of `cn / cd`
/// (all quantities positive).
pub open spec fn ratio_near(a: (int, int), b: (int, int), cn: int, cd: int) -> bool {
    let lhs = 100 * cd * a.0 * b.1;
    let rhs = 100 * cn * a.1 * b.0;
    let diff = if lhs >= rhs {
        lhs - rhs
    } else {
        rhs - lhs
    };
    diff < cd * a.1 * b.0
}

/// The pulldown that turns frames at rate `source` into frames at rate `output`:
/// 3:2 for a ratio within 1/100 of 1.25, 2:2 within 1/100 of 1, Euro pulldown
/// within 1/100 of 1.04167; none otherwise.
pub open spec fn spec_pattern_from_rates(source: StandardFrameRate, output: StandardFrameRate) -> Option<TelecinePattern> {
    let a = spec_rate(source);
    let b = spec_rate(output);
    if ratio_near(a, b, 5, 4) {
        Some(TelecinePattern::Pattern32)
    } else if ratio_near(a, b, 1, 1) {
        Some(TelecinePattern::Pattern22)
    } else if ratio_near(a, b, 104167, 100000) {
        Some(TelecinePattern::EuroPulldown)
    } else {
        None
    }
}

/// Whether `(an / ad) / (bn / bd)` lies within 1/100 of `cn / cd`.
fn rates_near(an: u64, ad: u64, bn: u64, bd: u64, cn: u64, cd: u64) -> (b: bool)
    requires
        an <= 60000,
        ad <= 1001,
        bn <= 60000,
        bd <= 1001,
        cn <= 104167,
        cd <= 100000,
    ensures
        b == ratio_near((an as int, ad as int), (bn as int, bd as int), cn as int, cd as int),
{
    proof {
        assert(100 * cd * an <= 100 * 100000 * 60000) by (nonlinear_arith)
            requires
                an <= 60000,
                cd <= 100000,
        ;
        assert(100 * cn * ad <= 100 * 104167 * 1001) by (nonlinear_arith)
            requires
                ad <= 1001,
                cn <= 104167,
        ;
        assert(cd * ad <= 100000 * 1001) by (nonlinear_arith)
            requires
                ad <= 1001,
                cd <= 100000,
        ;
        assert(100 * cd * an * bd <= 100 * 100000 * 60000 * 1001) by (nonlinear_arith)
            requires
                an <= 60000,
                bd <= 1001,
                cd <= 100000,
        ;
        assert(100 * cn * ad * bn <= 100 * 104167 * 1001 * 60000) by (nonlinear_arith)
            requires
                bn <= 60000,
                ad <= 1001,
                cn <= 104167,
        ;
        assert(cd * ad * bn <= 100000 * 1001 * 60000) by (nonlinear_arith)
            requires
                bn <= 60000,
                ad <= 1001,
                cd <= 100000,
        ;
    }
    let lhs = 100 * cd * an * bd;
    let rhs = 100 * cn * ad * bn;
    let diff = if lhs >= rhs {
        lhs - rhs
    } else {
        rhs - lhs
    };
    diff < cd * ad * bn
}

/// The numerator and denominator of a standard rate.
fn rate_parts(r: StandardFrameRate) -> (p: (u64, u64))
    ensures
        (p.0 as int, p.1 as int) == spec_rate(r),
        p.0 <= 60000,
        p.1 <= 1001,
{
    match r {
        StandardFrameRate::Film24 => (24, 1),
        StandardFrameRate::Film23976 => (24000, 1001),
        StandardFrameRate::Pal25 => (25, 1),
        StandardFrameRate::Ntsc2997 => (30000, 1001),
        StandardFrameRate::Ntsc30 => (30, 1),
        StandardFrameRate::High50 => (50, 1),
        StandardFrameRate::High5994 => (60000, 1001),
        StandardFrameRate::High60 => (60, 1),
    }
}

/// Detect telecine pattern from frame rate ratio.
pub fn detect_pattern_from_rates(source: StandardFrameRate, expected_output: StandardFrameRate) -> (p: Option<TelecinePattern>)
    ensures
        p == spec_pattern_from_rates(source, expected_output),
{
    let (an, ad) = rate_parts(source);
    let (bn, bd) = rate_parts(expected_output);
    if rates_near(an, ad, bn, bd, 5, 4) {
        Some(TelecinePattern::Pattern32)
    } else if rates_near(an, ad, bn, bd, 1, 1) {
        Some(TelecinePattern::Pattern22)
    } else if rates_near(an, ad, bn, bd, 104167, 100000) {
        Some(TelecinePattern::EuroPulldown)
    } else {
        None
    }
}

/// The frame rate after inverse telecine: the numerator is multiplied by the whole
/// number of output frames per cycle frame, which is 1 when a pattern keeps every
/// frame and 0 when it drops some; a pattern with an empty cycle or no output
/// leaves the rate unchanged.
pub open spec fn spec_ivtc_framerate(source: Rational, pattern: TelecinePattern) -> Rational {
    let cycle = spec_cycle_length(pattern);
    let output = spec_output_frames(pattern);
    if cycle == 0 || output == 0 {
        source
    } else if output == cycle {
        source
    } else {
        Rational { num: 0, den: source.den }
    }
}

/// Calculate target frame rate after IVTC.
pub fn calculate_ivtc_framerate(source_rate: Rational, pattern: TelecinePattern) -> (r: Rational)
    ensures
        r == spec_ivtc_framerate(source_rate, pattern),
{
    let cycle_len = pattern.cycle_length();
    let output_frames = pattern.output_frames();
    if cycle_len == 0 || output_frames == 0 {
        return source_rate;
    }
    let ratio = output_frames as i64 / cycle_len as i64;
    proof {
        assert(output_frames <= cycle_len);
        assert(ratio == if output_frames == cycle_len { 1i64 } else { 0i64 }) by (nonlinear_arith)
            requires
                ratio == output_frames as i64 / cycle_len as i64,
                0 < output_frames <= cycle_len <= 10,
        ;
    }
    Rational { num: source_rate.num * ratio, den: source_rate.den }
}

// ── Cadence detection ───────────────────────────────────────────────────────

/// The number of windows `h[i..i + len]` with `i < k` equal to the first window
/// `h[0..len]`.
pub open spec fn count_matching_windows(h: Seq<u8>, len: nat, k: nat) -> nat
    decreases k,
{
    if k == 0 {
        0
    } else {
        count_matching_windows(h, len, (k - 1) as nat) + if h.subrange(k - 1, k - 1 + len) == h.take(
            len as int,
        ) {
            1nat
        } else {
            0nat
        }
    }
}

/// The repeating pattern of length `len` at the start of history `h`, if the history
/// is at least twice that long and more than 70% of its windows of that length
/// (starting before the last `len` entries) repeat the first one.
pub open spec fn spec_check_pattern(h: Seq<u8>, len: nat) -> Option<Seq<u8>> {
    if h.len() < len * 2 {
        None
    } else {
        let total = (h.len() - len) as nat;
        if 10 * count_matching_windows(h, len, total) > 7 * total {
            Some(h.take(len as int))
        } else {
            None
        }
    }
}

/// The cadence of the shortest length from `len` to 10 that history `h` repeats.
pub open spec fn find_cadence(h: Seq<u8>, len: nat) -> Option<Seq<u8>>
    decreases 11 - len,
{
    if len > 10 {
        None
    } else if spec_check_pattern(h, len) is Some {
        spec_check_pattern(h, len)
    } else {
        find_cadence(h, len + 1)
    }
}

/// Cadence detector for pattern locking.
#[derive(Debug)]
pub struct CadenceDetector {
    /// Pattern history (1 = duplicate), at most 30 entries, oldest first.
    history: Vec<u8>,
    /// Current detected cadence.
    cadence: Option<Vec<u8>>,
    /// Number of consecutive detections of the current cadence.
    match_count: usize,
}

/// The history after recording one more match result: the value is appended and
/// the oldest entry dropped beyond 30.
pub open spec fn pushed_history(h: Seq<u8>, is_duplicate: bool) -> Seq<u8> {
    let h1 = h.push(if is_duplicate {
        1u8
    } else {
        0u8
    });
    if h1.len() > 30 {
        h1.drop_first()
    } else {
        h1
    }
}

impl CadenceDetector {
    /// The recorded match results, oldest first (1 = duplicate).
    pub closed spec fn spec_history(&self) -> Seq<u8> {
        self.history@
    }

    /// The detected cadence.
    pub closed spec fn spec_cadence(&self) -> Option<Seq<u8>> {
        match self.cadence {
            Some(v) => Some(v@),
            None => None,
        }
    }

    /// Consecutive detections of the current cadence.
    pub closed spec fn spec_match_count(&self) -> nat {
        self.match_count as nat
    }

    /// The detector's invariant: at most 30 entries of history.
    pub open spec fn wf(&self) -> bool {
        self.spec_history().len() <= 30
    }

    /// Create a new cadence detector.
    pub fn new() -> (d: Self)
        ensures
            d.wf(),
            d.spec_history() == Seq::<u8>::empty(),
            d.spec_cadence() is None,
            d.spec_match_count() == 0,
    {
        CadenceDetector { history: Vec::new(), cadence: None, match_count: 0 }
    }

    /// Add a frame match result.
    ///
    /// The result is recorded; once the history holds ten entries, the shortest
    /// repeating cadence of length 2 to 10 is searched for. A cadence equal to the
    /// current one counts one more consecutive detection; a new one replaces it
    /// with a count of 1; when none is found, nothing changes.
    pub fn add_match(&mut self, is_duplicate: bool)
        requires
            old(self).wf(),
            old(self).spec_match_count() < usize::MAX,
        ensures
            final(self).wf(),
            final(self).spec_history() == pushed_history(old(self).spec_history(), is_duplicate),
            ({
                let h = final(self).spec_history();
                if h.len() < 10 {
                    final(self).spec_cadence() == old(self).spec_cadence()
                        && final(self).spec_match_count() == old(self).spec_match_count()
                } else {
                    match find_cadence(h, 2) {
                        None => final(self).spec_cadence() == old(self).spec_cadence()
                            && final(self).spec_match_count() == old(self).spec_match_count(),
                        Some(p) => final(self).spec_cadence() == Some(p)
                            && final(self).spec_match_count() == if old(self).spec_cadence() == Some(p) {
                                old(self).spec_match_count() + 1
                            } else {
                                1
                            },
                    }
                }
            }),
    {
        let value: u8 = if is_duplicate {
            1
        } else {
            0
        };
        self.history.push(value);
        if self.history.len() > 30 {
            self.history.remove(0);
        }
        proof {
            assert(self.history@ =~= pushed_history(old(self).history@, is_duplicate));
        }
        self.detect_cadence();
    }

    /// Detect repeating cadence pattern.
    fn detect_cadence(&mut self)
        requires
            old(self).match_count < usize::MAX,
        ensures
            final(self).history@ == old(self).history@,
            ({
                let h = old(self).history@;
                if h.len() < 10 {
                    final(self).spec_cadence() == old(self).spec_cadence()
                        && final(self).match_count == old(self).match_count
                } else {
                    match find_cadence(h, 2) {
                        None => final(self).spec_cadence() == old(self).spec_cadence()
                            && final(self).match_count == old(self).match_count,
                        Some(p) => final(self).spec_cadence() == Some(p)
                            && final(self).match_count == if old(self).spec_cadence() == Some(p) {
                                old(self).match_count + 1
                            } else {
                                1
                            },
                    }
                }
            }),
    {
        if self.history.len() < 10 {
            return;
        }
        let mut pattern_len: usize = 2;
        while pattern_len <= 10
            invariant
                2 <= pattern_len <= 11,
                self.history@ == old(self).history@,
                self.cadence == old(self).cadence,
                self.match_count == old(self).match_count,
                self.match_count < usize::MAX,
                self.history@.len() >= 10,
                find_cadence(self.history@, 2) == find_cadence(self.history@, pattern_len as nat),
            decreases 11 - pattern_len,
        {
            let found = check_pattern(&self.history, pattern_len);
            match found {
                Some(pattern) => {
                    let same = match &self.cadence {
                        Some(c) => same_bytes(c, &pattern),
                        None => false,
                    };
                    if same {
                        self.match_count += 1;
                    } else {
                        self.cadence = Some(pattern);
                        self.match_count = 1;
                    }
                    return;
                },
                None => {},
            }
            pattern_len += 1;
        }
    }

    /// Get detected cadence.
    pub fn cadence(&self) -> (c: Option<&[u8]>)
        ensures
            match c {
                Some(s) => self.spec_cadence() == Some(s@),
                None => self.spec_cadence() is None,
            },
    {
        match &self.cadence {
            Some(v) => Some(v.as_slice()),
            None => None,
        }
    }

    /// Consecutive detections of the current cadence.
    pub fn match_count(&self) -> (n: usize)
        ensures
            n == self.spec_match_count(),
    {
        self.match_count
    }

    /// Check if cadence is locked: the confidence (one tenth per consecutive
    /// detection, at most 1) is above 0.8 and the cadence was detected at least
    /// five times in a row.
    pub fn is_locked(&self) -> (b: bool)
        ensures
            b <==> (if self.spec_match_count() < 10 {
                self.spec_match_count()
            } else {
                10
            }) > 8 && self.spec_match_count() >= 5,
    {
        self.match_count >= 9
    }

    /// Reset detector.
    pub fn reset(&mut self)
        ensures
            final(self).wf(),
            final(self).spec_history() == Seq::<u8>::empty(),
            final(self).spec_cadence() is None,
            final(self).spec_match_count() == 0,
    {
        self.history.clear();
        self.cadence = None;
        self.match_count = 0;
    }
}

impl Default for CadenceDetector {
    fn default() -> (d: Self)
        ensures
            d.wf(),
            d.spec_history() == Seq::<u8>::empty(),
            d.spec_cadence() is None,
            d.spec_match_count() == 0,
    {
        Self::new()
    }
}

/// Whether two byte vectors hold the same bytes.
fn same_bytes(a: &Vec<u8>, b: &Vec<u8>) -> (r: bool)
    ensures
        r == (a@ == b@),
{
    if a.len() != b.len() {
        return false;
    }
    let mut i: usize = 0;
    while i < a.len()
        invariant
            a@.len() == b@.len(),
            i <= a@.len(),
            forall|j: int| 0 <= j < i ==> a@[j] == b@[j],
        decreases a@.len() - i,
    {
        if a[i] != b[i] {
            return false;
        }
        i += 1;
    }
    proof {
        assert(a@ =~= b@);
    }
    true
}

/// Whether the window of `h` at `start` of length `len` equals its first window.
fn window_repeats_first(h: &Vec<u8>, start: usize, len: usize) -> (r: bool)
    requires
        start + len <= h@.len(),
        start + len <= usize::MAX,
    ensures
        r == (h@.subrange(start as int, start + len) == h@.take(len as int)),
{
    let mut j: usize = 0;
    while j < len
        invariant
            start + len <= h@.len(),
            start + len <= usize::MAX,
            j <= len,
            forall|k: int| 0 <= k < j ==> h@[start + k] == #[trigger] h@[k],
        decreases len - j,
    {
        if h[start + j] != h[j] {
            proof {
                assert(h@.subrange(start as int, start + len)[j as int] != h@.take(len as int)[j as int]);
            }
            return false;
        }
        j += 1;
    }
    proof {
        assert(h@.subrange(start as int, start + len) =~= h@.take(len as int));
    }
    true
}

/// Check if history matches a pattern of given length.
fn check_pattern(history: &Vec<u8>, pattern_len: usize) -> (r: Option<Vec<u8>>)
    requires
        1 <= pattern_len <= 10,
    ensures
        match r {
            Some(v) => spec_check_pattern(history@, pattern_len as nat) == Some(v@),
            None => spec_check_pattern(history@, pattern_len as nat) is None,
        },
{
    if history.len() < pattern_len * 2 {
        return None;
    }
    let total = history.len() - pattern_len;
    let mut matches: usize = 0;
    let mut i: usize = 0;
    while i < total
        invariant
            total == history@.len() - pattern_len,
            total + pattern_len <= usize::MAX,
            pattern_len <= total,
            i <= total,
            matches == count_matching_windows(history@, pattern_len as nat, i as nat),
            matches <= i,
        decreases total - i,
    {
        if window_repeats_first(history, i, pattern_len) {
            matches += 1;
        }
        i += 1;
    }
    if 10 * (matches as u128) > 7 * (total as u128) {
        let mut pattern: Vec<u8> = Vec::new();
        let mut k: usize = 0;
        while k < pattern_len
            invariant
                k <= pattern_len <= history@.len(),
                pattern@ == history@.take(k as int),
            decreases pattern_len - k,
        {
            pattern.push(history[k]);
            proof {
                assert(history@.take(k + 1) =~= history@.take(k as int).push(history@[k as int]));
            }
            k += 1;
        }
        Some(pattern)
    } else {
        None
    }
}

/// Motion compensation for better field matching.
#[derive(Debug)]
pub struct MotionCompensation {
    /// Enable motion compensation.
    enabled: bool,
    /// Search range in pixels.
    search_range: i32,
}

impl MotionCompensation {
    /// Whether compensation is enabled.
    pub closed spec fn spec_enabled(&self) -> bool {
        self.enabled
    }

    /// The search range in pixels.
    pub closed spec fn spec_search_range(&self) -> int {
        self.search_range as int
    }

    /// Create new motion compensation: enabled, searching 8 pixels each way.
    pub fn new() -> (m: Self)
        ensures
            m.spec_enabled(),
            m.spec_search_range() == 8,
    {
        MotionCompensation { enabled: true, search_range: 8 }
    }

    /// Set search range.
    pub fn with_search_range(self, range: i32) -> (m: Self)
        ensures
            m.spec_enabled() == self.spec_enabled(),
            m.spec_search_range() == range,
    {
        MotionCompensation { enabled: self.enabled, search_range: range }
    }

    /// Whether compensation is enabled.
    pub fn is_enabled(&self) -> (b: bool)
        ensures
            b == self.spec_enabled(),
    {
        self.enabled
    }

    /// The search range in pixels.
    pub fn search_range(&self) -> (r: i32)
        ensures
            r == self.spec_search_range(),
    {
        self.search_range
    }

    /// Calculate the motion vector of the 8 by 8 block at `(x, y)` between two frames,
    /// given their first planes row by row: `(0, 0)` when compensation is disabled,
    /// otherwise the best match of the block search over the search range.
    pub fn calculate_motion_vector(
        &self,
        rows1: &Vec<Vec<u8>>,
        rows2: &Vec<Vec<u8>>,
        width: usize,
        height: usize,
        x: usize,
        y: usize,
    ) -> (mv: (i32, i32))
        requires
            rows1@.len() >= height,
            rows2@.len() >= height,
            self.spec_enabled() ==> self.spec_search_range() > i32::MIN,
            self.spec_enabled() && self.spec_search_range() >= 0 ==> {
                &&& 0 < width <= i32::MAX
                &&& 0 < height <= i32::MAX
                &&& x + 7 + self.spec_search_range() <= i32::MAX
                &&& y + 7 + self.spec_search_range() <= i32::MAX
            },
        ensures
            !(self.spec_enabled() && self.spec_search_range() >= 0 && y < height && x < width) ==> mv == (
            0i32,
            0i32,
            ),
            self.spec_enabled() && self.spec_search_range() >= 0 && y < height && x < width ==> is_best_vector(
                rows_view(rows1@),
                rows_view(rows2@),
                width as int,
                height as int,
                x as int,
                y as int,
                self.spec_search_range(),
                mv.0 as int,
                mv.1 as int,
            ),
    {
        if !self.enabled {
            return (0, 0);
        }
        motion_search(rows1, rows2, width, height, x, y, self.search_range)
    }

    /// Apply motion compensation to a plane given row by row: `None` when
    /// compensation is disabled (the source stands as it is), otherwise the plane with
    /// each pixel read `motion_vector` away, clamped to the plane's edges.
    pub fn compensate_field(&self, rows: &Vec<Vec<u8>>, width: usize, height: usize, motion_vector: (i32, i32)) -> (out:
        Option<Vec<u8>>)
        requires
            rows@.len() >= height,
            width * height <= usize::MAX,
            self.spec_enabled() && width > 0 && height > 0 ==> {
                &&& width <= i32::MAX
                &&& height <= i32::MAX
                &&& width - 1 + motion_vector.0 <= i32::MAX
                &&& height - 1 + motion_vector.1 <= i32::MAX
            },
        ensures
            !self.spec_enabled() ==> out is None,
            self.spec_enabled() ==> (out matches Some(p) && p@ == image(
                width as nat,
                height as nat,
                |y: int, x: int|
                    shifted_pixel(
                        rows_view(rows@),
                        width as int,
                        height as int,
                        motion_vector.0 as int,
                        motion_vector.1 as int,
                        y,
                        x,
                    ),
            )),
    {
        if !self.enabled {
            return None;
        }
        let (mvx, mvy) = motion_vector;
        Some(shift_plane(rows, width, height, mvx, mvy))
    }
}

impl Default for MotionCompensation {
    fn default() -> (m: Self)
        ensures
            m.spec_enabled(),
            m.spec_search_range() == 8,
    {
        Self::new()
    }
}

/// Whether two custom patterns are the same.
fn same_custom(a: &CustomPattern, b: &CustomPattern) -> (r: bool)
    ensures
        r == (*a == *b),
{
    if a.length != b.length {
        return false;
    }
    let mut i: usize = 0;
    while i < 10
        invariant
            i <= 10,
            forall|j: int| 0 <= j < i ==> a.fields@[j] == b.fields@[j],
        decreases 10 - i,
    {
        if a.fields[i] != b.fields[i] {
            return false;
        }
        i += 1;
    }
    proof {
        assert(a.fields@ =~= b.fields@);
        assert(a.fields =~= b.fields);
    }
    true
}

/// Whether two patterns are the same.
fn same_pattern(a: &TelecinePattern, b: &TelecinePattern) -> (r: bool)
    ensures
        r == (*a == *b),
{
    match (a, b) {
        (TelecinePattern::Auto, TelecinePattern::Auto) => true,
        (TelecinePattern::Pattern32, TelecinePattern::Pattern32) => true,
        (TelecinePattern::Pattern22, TelecinePattern::Pattern22) => true,
        (TelecinePattern::Pattern2332, TelecinePattern::Pattern2332) => true,
        (TelecinePattern::EuroPulldown, TelecinePattern::EuroPulldown) => true,
        (TelecinePattern::Custom(x), TelecinePattern::Custom(y)) => same_custom(x, y),
        _ => false,
    }
}

/// Pattern-locking state of the IVTC filter: the detected pattern, the position in
/// the decimation cycle, the number of consecutive detections of the pattern, and
/// whether it is locked.
#[derive(Clone, Copy, Debug)]
pub struct PatternState {
    /// Detected pattern.
    pub pattern: TelecinePattern,
    /// Current position in the pattern cycle.
    pub cycle_position: usize,
    /// Number of consecutive detections of the pattern.
    pub match_streak: usize,
    /// Whether the pattern is locked.
    pub locked: bool,
}

impl PatternState {
    /// No pattern detected yet: automatic, at the start of the cycle, unlocked.
    pub fn new() -> (s: Self)
        ensures
            s == (PatternState { pattern: TelecinePattern::Auto, cycle_position: 0, match_streak: 0, locked: false }),
    {
        PatternState { pattern: TelecinePattern::Auto, cycle_position: 0, match_streak: 0, locked: false }
    }

    /// A scene change restarts the cadence (streak and cycle position) unless the
    /// pattern is locked.
    pub fn on_scene_change(&mut self)
        ensures
            *final(self) == if old(self).locked {
                *old(self)
            } else {
                PatternState { cycle_position: 0, match_streak: 0, ..*old(self) }
            },
    {
        if !self.locked {
            self.match_streak = 0;
            self.cycle_position = 0;
        }
    }

    /// Record a detected pattern: the streak grows when it is the pattern already
    /// detected and restarts at 1 with the new pattern otherwise; with locking
    /// enabled, the pattern locks once the streak reaches `lock_threshold`. A lock is
    /// never released here.
    pub fn record_detection(&mut self, detected: TelecinePattern, pattern_lock: bool, lock_threshold: usize)
        requires
            old(self).match_streak < usize::MAX,
        ensures
            final(self).pattern == detected,
            final(self).match_streak == if detected == old(self).pattern {
                old(self).match_streak + 1
            } else {
                1
            },
            final(self).cycle_position == old(self).cycle_position,
            final(self).locked == (old(self).locked || (pattern_lock && final(self).match_streak
                >= lock_threshold)),
    {
        if same_pattern(&detected, &self.pattern) {
            self.match_streak = self.match_streak + 1;
        } else {
            self.pattern = detected;
            self.match_streak = 1;
        }
        if pattern_lock && self.match_streak >= lock_threshold && !self.locked {
            self.locked = true;
        }
    }

    /// Whether the next frame is dropped under the configured pattern; the cycle
    /// position advances by one either way.
    pub fn advance(&mut self, configured: TelecinePattern) -> (drop: bool)
        requires
            old(self).cycle_position < usize::MAX,
        ensures
            drop == spec_decimates(configured, old(self).cycle_position as nat),
            *final(self) == (PatternState { cycle_position: (old(self).cycle_position + 1) as usize, ..*old(self) }),
    {
        let drop = should_decimate(configured, self.cycle_position);
        self.cycle_position = self.cycle_position + 1;
        drop
    }
}

impl Default for PatternState {
    fn default() -> (s: Self)
        ensures
            s == (PatternState { pattern: TelecinePattern::Auto, cycle_position: 0, match_streak: 0, locked: false }),
    {
        Self::new()
    }
}

impl MatchMode {
    /// Frames kept for analysis: 5, 7 or 10.
    pub fn max_buffer(&self) -> (n: usize)
        ensures
            n == match *self {
                MatchMode::TwoWay => 5usize,
                MatchMode::ThreeWay => 7,
                MatchMode::FiveWay => 10,
            },
    {
        match self {
            MatchMode::TwoWay => 5,
            MatchMode::ThreeWay => 7,
            MatchMode::FiveWay => 10,
        }
    }

    /// Frames needed before matching starts: 2, 3 or 5.
    pub fn min_frames(&self) -> (n: usize)
        ensures
            n == match *self {
                MatchMode::TwoWay => 2usize,
                MatchMode::ThreeWay => 3,
                MatchMode::FiveWay => 5,
            },
    {
        match self {
            MatchMode::TwoWay => 2,
            MatchMode::ThreeWay => 3,
            MatchMode::FiveWay => 5,
        }
    }

    /// Frames whose fields are paired in the search for the best match, given the
    /// number buffered: 2, or 3 or 5 but at most the number buffered.
    pub fn frames_to_check(&self, buffered: usize) -> (n: usize)
        ensures
            n == match *self {
                MatchMode::TwoWay => 2usize,
                MatchMode::ThreeWay => if buffered < 3 {
                    buffered
                } else {
                    3
                },
                MatchMode::FiveWay => if buffered < 5 {
                    buffered
                } else {
                    5
                },
            },
    {
        match self {
            MatchMode::TwoWay => 2,
            MatchMode::ThreeWay => if buffered < 3 {
                buffered
            } else {
                3
            },
            MatchMode::FiveWay => if buffered < 5 {
                buffered
            } else {
                5
            },
        }
    }
}

/// Presentation timestamp of an output frame: moved back by the number of frames
/// decimated so far, and not below 0.
pub fn output_pts(pts: i64, frames_decimated: u64) -> (r: i64)
    requires
        frames_decimated <= i64::MAX,
        pts - frames_decimated >= i64::MIN,
    ensures
        r == if pts - frames_decimated > 0 {
            pts - frames_decimated
        } else {
            0
        },
{
    let shifted = pts - frames_decimated as i64;
    if shifted > 0 {
        shifted
    } else {
        0
    }
}

/// Frames kept for analysis under match mode `m`.
pub open spec fn buffer_limit(m: MatchMode) -> nat {
    match m {
        MatchMode::TwoWay => 5,
        MatchMode::ThreeWay => 7,
        MatchMode::FiveWay => 10,
    }
}

/// Frames needed before matching starts under match mode `m`.
pub open spec fn frames_needed(m: MatchMode) -> nat {
    match m {
        MatchMode::TwoWay => 2,
        MatchMode::ThreeWay => 3,
        MatchMode::FiveWay => 5,
    }
}

/// The newest `limit` of `frames` (all of them when there are no more), in order.
pub open spec fn newest<F>(frames: Seq<F>, limit: nat) -> Seq<F> {
    if frames.len() > limit {
        frames.skip(frames.len() - limit)
    } else {
        frames
    }
}

/// What the filter does once a field match has been looked for.
#[derive(Clone, Copy, Debug, PartialEq, Eq)]
pub enum IvtcAction {
    /// The matched frame is decimated.
    Drop,
    /// The matched frame is reconstructed and emitted.
    Emit,
    /// No field match: the newest frame is emitted as an orphan.
    Orphan,
    /// No field match, and orphans are not handled: nothing is emitted.
    Skip,
}

/// The per-frame bookkeeping of the IVTC filter: the frames buffered for analysis
/// (oldest first), the pattern state and the running counts. Which frames are
/// combed, matched or a scene change is measured on the pixels by the caller and
/// handed in.
#[derive(Clone, Debug)]
pub struct IvtcDriver<F> {
    /// Configured telecine pattern.
    pub pattern: TelecinePattern,
    /// Configured field-matching strategy.
    pub match_mode: MatchMode,
    /// Whether an unmatched frame is emitted as an orphan.
    pub handle_orphans: bool,
    /// Buffered frames, oldest first.
    pub frames: Vec<F>,
    /// Cadence and pattern-lock state.
    pub state: PatternState,
    /// Frames for which a field match was found.
    pub frames_processed: u64,
    /// Matched frames that were decimated.
    pub frames_decimated: u64,
    /// Scene changes seen.
    pub scene_changes: u64,
    /// Orphan frames emitted.
    pub orphans_handled: u64,
    /// Frames emitted so far.
    pub output_frame_idx: u64,
}

impl<F> IvtcDriver<F> {
    /// The buffer holds no more than the match mode keeps, and no more frames were
    /// decimated than matched.
    pub open spec fn wf(&self) -> bool {
        &&& self.frames@.len() <= buffer_limit(self.match_mode)
        &&& self.frames_decimated <= self.frames_processed
    }

    /// A driver with nothing buffered or counted, the cadence at its start.
    pub fn new(pattern: TelecinePattern, match_mode: MatchMode, handle_orphans: bool) -> (d: Self)
        ensures
            d.wf(),
            d.pattern == pattern,
            d.match_mode == match_mode,
            d.handle_orphans == handle_orphans,
            d.frames@.len() == 0,
            d.state == (PatternState {
                pattern: TelecinePattern::Auto,
                cycle_position: 0,
                match_streak: 0,
                locked: false,
            }),
            d.frames_processed == 0,
            d.frames_decimated == 0,
            d.scene_changes == 0,
            d.orphans_handled == 0,
            d.output_frame_idx == 0,
    {
        IvtcDriver {
            pattern,
            match_mode,
            handle_orphans,
            frames: Vec::new(),
            state: PatternState::new(),
            frames_processed: 0,
            frames_decimated: 0,
            scene_changes: 0,
            orphans_handled: 0,
            output_frame_idx: 0,
        }
    }

    /// Take the next frame: a scene change (measured against the previous frame)
    /// is counted and restarts an unlocked cadence; the frame is buffered and the
    /// oldest frames leave so that the match mode's number stays. Returns whether
    /// enough frames are buffered to look for a field match.
    pub fn push_frame(&mut self, frame: F, scene_changed: bool) -> (ready: bool)
        requires
            old(self).wf(),
            old(self).scene_changes < u64::MAX,
        ensures
            final(self).wf(),
            final(self).frames@ == newest(old(self).frames@.push(frame), buffer_limit(old(self).match_mode)),
            final(self).scene_changes == old(self).scene_changes + if scene_changed {
                1int
            } else {
                0
            },
            final(self).state == if scene_changed && !old(self).state.locked {
                PatternState { cycle_position: 0, match_streak: 0, ..old(self).state }
            } else {
                old(self).state
            },
            ready == (final(self).frames@.len() >= frames_needed(old(self).match_mode)),
            final(self).pattern == old(self).pattern,
            final(self).match_mode == old(self).match_mode,
            final(self).handle_orphans == old(self).handle_orphans,
            final(self).frames_processed == old(self).frames_processed,
            final(self).frames_decimated == old(self).frames_decimated,
            final(self).orphans_handled == old(self).orphans_handled,
            final(self).output_frame_idx == old(self).output_frame_idx,
    {
        if scene_changed {
            self.scene_changes = self.scene_changes + 1;
            self.state.on_scene_change();
        }
        let mut frames: Vec<F> = Vec::new();
        std::mem::swap(&mut frames, &mut self.frames);
        let ghost all = frames@.push(frame);
        frames.push(frame);
        let max = self.match_mode.max_buffer();
        while frames.len() > max
            invariant
                all.len() >= frames@.len(),
                frames@ == all.skip(all.len() - frames@.len()),
                frames@.len() < all.len() ==> frames@.len() >= max,
            decreases frames@.len(),
        {
            frames.remove(0);
            proof {
                assert(frames@ =~= all.skip(all.len() - frames@.len()));
            }
        }
        proof {
            if all.len() <= max {
                assert(all.skip(0) =~= all);
            }
        }
        self.frames = frames;
        self.frames.len() >= self.match_mode.min_frames()
    }

    /// What to do once a field match has been looked for among the buffered frames:
    /// with a match, the frame is counted and, by the cadence, dropped or emitted
    /// (the cycle position advances either way); without one, the newest frame is
    /// emitted as an orphan when orphans are handled, or nothing is.
    pub fn decide(&mut self, matched: bool) -> (action: IvtcAction)
        requires
            old(self).wf(),
            old(self).frames_processed < u64::MAX,
            old(self).orphans_handled < u64::MAX,
            old(self).state.cycle_position < usize::MAX,
        ensures
            final(self).wf(),
            action == if matched {
                if spec_decimates(old(self).pattern, old(self).state.cycle_position as nat) {
                    IvtcAction::Drop
                } else {
                    IvtcAction::Emit
                }
            } else if old(self).handle_orphans {
                IvtcAction::Orphan
            } else {
                IvtcAction::Skip
            },
            final(self).state == if matched {
                PatternState { cycle_position: (old(self).state.cycle_position + 1) as usize, ..old(self).state }
            } else {
                old(self).state
            },
            final(self).frames_processed == old(self).frames_processed + if matched {
                1int
            } else {
                0
            },
            final(self).frames_decimated == old(self).frames_decimated + if action == IvtcAction::Drop {
                1int
            } else {
                0
            },
            final(self).orphans_handled == old(self).orphans_handled + if action == IvtcAction::Orphan {
                1int
            } else {
                0
            },
            final(self).frames@ == old(self).frames@,
            final(self).pattern == old(self).pattern,
            final(self).match_mode == old(self).match_mode,
            final(self).handle_orphans == old(self).handle_orphans,
            final(self).scene_changes == old(self).scene_changes,
            final(self).output_frame_idx == old(self).output_frame_idx,
    {
        if matched {
            self.frames_processed = self.frames_processed + 1;
            let configured = self.pattern;
            if self.state.advance(configured) {
                self.frames_decimated = self.frames_decimated + 1;
                IvtcAction::Drop
            } else {
                IvtcAction::Emit
            }
        } else if self.handle_orphans {
            self.orphans_handled = self.orphans_handled + 1;
            IvtcAction::Orphan
        } else {
            IvtcAction::Skip
        }
    }

    /// Count `n` frames emitted for the current input frame.
    pub fn count_output(&mut self, n: u64)
        requires
            old(self).output_frame_idx + n <= u64::MAX,
        ensures
            *final(self) == (IvtcDriver { output_frame_idx: (old(self).output_frame_idx + n) as u64, ..*old(self) }),
    {
        self.output_frame_idx = self.output_frame_idx + n;
    }
}

} // verus!
