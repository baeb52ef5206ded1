//! Timecode labels, overlay placement, colours and metadata values of the timecode
//! burn-in filter.

use vstd::prelude::*;
use crate::decimal::{dec_digits, dec_padded, push_decimal};
use crate::rational::Rational;

verus! {

/// SMPTE timecode format.
#[derive(Clone, Copy, Debug, PartialEq, Eq)]
pub enum TimecodeFormat {
    /// SMPTE timecode at 23.976 fps (non-drop-frame).
    Smpte23976,
    /// SMPTE timecode at 24 fps.
    Smpte24,
    /// SMPTE timecode at 25 fps (PAL).
    Smpte25,
    /// SMPTE timecode at 29.97 fps drop-frame.
    Smpte2997Df,
    /// SMPTE timecode at 29.97 fps non-drop-frame.
    Smpte2997Ndf,
    /// SMPTE timecode at 30 fps.
    Smpte30,
    /// SMPTE timecode at 60 fps.
    Smpte60,
    /// Frame count (0, 1, 2, ...).
    FrameCount,
    /// Milliseconds (0, 16, 33, ...).
    Milliseconds,
    /// Seconds (0.000, 0.016, 0.033, ...).
    Seconds,
    /// HH:MM:SS.mmm format.
    HhMmSsMmm,
}

/// The nominal frame rate of a format, as a numerator and a denominator.
pub open spec fn spec_framerate(f: TimecodeFormat) -> (i64, i64) {
    match f {
        TimecodeFormat::Smpte23976 => (24000, 1001),
        TimecodeFormat::Smpte24 => (24, 1),
        TimecodeFormat::Smpte25 => (25, 1),
        TimecodeFormat::Smpte2997Df | TimecodeFormat::Smpte2997Ndf => (30000, 1001),
        TimecodeFormat::Smpte30 => (30, 1),
        TimecodeFormat::Smpte60 => (60, 1),
        _ => (1, 1),
    }
}

/// Whether a format labels frames as hours, minutes, seconds and frames counted
/// in whole frames of its rate (the non-drop-frame SMPTE formats).
pub open spec fn counts_whole_frames(f: TimecodeFormat) -> bool {
    match f {
        TimecodeFormat::Smpte23976 | TimecodeFormat::Smpte24 | TimecodeFormat::Smpte25
        | TimecodeFormat::Smpte2997Ndf | TimecodeFormat::Smpte30 | TimecodeFormat::Smpte60 => true,
        _ => false,
    }
}

/// Whole-frame quantities of a frame rate and the elapsed time of one frame, as the
/// label of a frame number needs them: the frames in an hour, a minute and a second
/// (each truncated to a whole number) and the elapsed milliseconds of the frame.
#[derive(Clone, Copy, Debug, PartialEq, Eq)]
pub struct FrameSteps {
    /// Whole frames in an hour.
    pub per_hour: u64,
    /// Whole frames in a minute.
    pub per_minute: u64,
    /// Whole frames in a second.
    pub per_second: u64,
    /// Elapsed whole milliseconds at the frame being labelled.
    pub elapsed_ms: u64,
}

// ── Label specifications ────────────────────────────────────────────────────

/// `a:b:c<sep>d`, each field as two zero-padded digits except the last, which has
/// `last_width` digits.
pub open spec fn clock_text(a: nat, b: nat, c: nat, sep: char, d: nat, last_width: nat) -> Seq<char> {
    dec_padded(a, 2) + seq![':'] + dec_padded(b, 2) + seq![':'] + dec_padded(c, 2) + seq![sep]
        + dec_padded(d, last_width)
}

/// Hours, minutes, seconds and frames of frame `n` counted in whole frames.
pub open spec fn ndf_fields(n: nat, steps: FrameSteps) -> (nat, nat, nat, nat) {
    (
        n / (steps.per_hour as nat),
        (n / (steps.per_minute as nat)) % 60,
        (n / (steps.per_second as nat)) % 60,
        n % (steps.per_second as nat),
    )
}

/// A non-drop-frame label reads back to its frame number: with a minute of 60
/// seconds and an hour of 60 minutes, the hours, minutes, seconds and frames of the
/// label, weighted by the frames in each, add up to `n`, and the minutes, seconds
/// and frames stay below 60, 60 and a second's frames.
pub proof fn lemma_ndf_label_reads_back(n: nat, steps: FrameSteps)
    requires
        steps.per_second > 0,
        steps.per_minute == 60 * steps.per_second,
        steps.per_hour == 3600 * steps.per_second,
    ensures
        ({
            let (h, m, s, f) = ndf_fields(n, steps);
            &&& h * steps.per_hour + m * steps.per_minute + s * steps.per_second + f == n
            &&& m < 60
            &&& s < 60
            &&& f < steps.per_second
        }),
{
    let ps = steps.per_second as int;
    let x = n as int;
    let q1 = x / ps;
    let q2 = q1 / 60;
    let q3 = q2 / 60;
    let f = x % ps;
    let sec = q1 % 60;
    let min = q2 % 60;
    vstd::arithmetic::div_mod::lemma_fundamental_div_mod(x, ps);
    vstd::arithmetic::div_mod::lemma_fundamental_div_mod(q1, 60);
    vstd::arithmetic::div_mod::lemma_fundamental_div_mod(q2, 60);
    vstd::arithmetic::div_mod::lemma_mod_pos_bound(x, ps);
    assert(q1 >= 0) by (nonlinear_arith)
        requires
            x >= 0,
            ps > 0,
            q1 == x / ps,
    ;
    vstd::arithmetic::div_mod::lemma_mod_pos_bound(q1, 60);
    vstd::arithmetic::div_mod::lemma_div_denominator(x, ps, 60);
    assert(q2 >= 0);
    vstd::arithmetic::div_mod::lemma_mod_pos_bound(q2, 60);
    vstd::arithmetic::div_mod::lemma_div_denominator(x, ps * 60, 60);
    assert(ps * 60 == steps.per_minute);
    assert(ps * 60 * 60 == steps.per_hour);
    assert(q2 == x / (steps.per_minute as int));
    assert(q3 == x / (steps.per_hour as int));
    assert(q3 * (3600 * ps) + min * (60 * ps) + sec * ps + f == x) by (nonlinear_arith)
        requires
            x == ps * q1 + f,
            q1 == 60 * q2 + sec,
            q2 == 60 * q3 + min,
    ;
}

/// Frames in a ten-minute block of 29.97 fps drop-frame timecode.
pub open spec fn df_block() -> nat {
    17982
}

/// Hours, minutes, seconds and frames of frame `n` in SMPTE 29.97 fps drop-frame
/// timecode: blocks of 17982 frames make ten minutes; the first minute of a block
/// counts all 1800 of its frame labels, and each of the nine further minutes drops
/// its labels 0 and 1, so its 1798 frames are labelled from 2.
pub open spec fn df_fields(n: nat) -> (nat, nat, nat, nat) {
    let tens = n / 17982;
    let t = n % 17982;
    let in_block: nat = if t < 1800 {
        0
    } else {
        ((t - 1800) as nat / 1798 + 1) as nat
    };
    let in_minute: nat = if t < 1800 {
        t
    } else {
        ((t - 1800) as nat % 1798 + 2) as nat
    };
    let minutes = tens * 10 + in_block;
    (minutes / 60, minutes % 60, in_minute / 30, in_minute % 30)
}

/// The frame number of a drop-frame label: the inverse of [`df_fields`].
pub open spec fn df_frame_number(h: nat, m: nat, s: nat, f: nat) -> int {
    let minutes: int = (60 * h + m) as int;
    let in_minute: int = (30 * s + f) as int;
    let tens: int = minutes / 10;
    let in_block: int = minutes % 10;
    let t: int = if in_block == 0 {
        in_minute
    } else {
        1800 + (in_block - 1) * 1798 + in_minute - 2
    };
    17982 * tens + t
}

/// Every field of a drop-frame label is in range (minutes and seconds below 60,
/// frames below 30), and labels 0 and 1 are dropped: at second 0 of a minute that is
/// not a multiple of ten, the frame count is at least 2.
pub proof fn lemma_drop_frame_skips_two_frames(n: nat)
    ensures
        ({
            let (h, m, s, f) = df_fields(n);
            &&& m < 60
            &&& s < 60
            &&& f < 30
            &&& (m % 10 != 0 && s == 0 ==> f >= 2)
        }),
{
    let tens = n / 17982;
    let t = n % 17982;
    if t >= 1800 {
        let q = (t - 1800) as nat / 1798;
        assert(q <= 8) by (nonlinear_arith)
            requires
                t < 17982,
                t >= 1800,
                q == (t - 1800) as nat / 1798,
        ;
        let minutes = tens * 10 + q + 1;
        assert(minutes % 60 % 10 == q + 1) by (nonlinear_arith)
            requires
                minutes == tens * 10 + q + 1,
                q + 1 < 10,
        ;
    } else {
        let minutes = tens * 10;
        assert(minutes % 60 % 10 == 0) by (nonlinear_arith)
            requires
                minutes == tens * 10,
        ;
    }
}

/// Drop-frame labels can be read back: the frame number of the label of `n` is `n`,
/// so distinct frames never share a label.
pub proof fn lemma_drop_frame_roundtrip(n: nat)
    ensures
        ({
            let (h, m, s, f) = df_fields(n);
            df_frame_number(h, m, s, f) == n
        }),
{
    let tens = n / 17982;
    let t = n % 17982;
    assert(n == 17982 * tens + t) by (nonlinear_arith)
        requires
            tens == n / 17982,
            t == n % 17982,
    ;
    let (h, m, s, f) = df_fields(n);
    let in_block: nat = if t < 1800 {
        0
    } else {
        ((t - 1800) as nat / 1798 + 1) as nat
    };
    let in_minute: nat = if t < 1800 {
        t
    } else {
        ((t - 1800) as nat % 1798 + 2) as nat
    };
    let minutes = tens * 10 + in_block;
    assert(60 * h + m == minutes) by (nonlinear_arith)
        requires
            h == minutes / 60,
            m == minutes % 60,
    ;
    assert(30 * s + f == in_minute) by (nonlinear_arith)
        requires
            s == in_minute / 30,
            f == in_minute % 30,
    ;
    if t >= 1800 {
        let q = (t - 1800) as nat / 1798;
        let r = (t - 1800) as nat % 1798;
        assert(t == 1800 + 1798 * q + r && q <= 8) by (nonlinear_arith)
            requires
                t < 17982,
                t >= 1800,
                q == (t - 1800) as nat / 1798,
                r == (t - 1800) as nat % 1798,
        ;
    }
    assert(minutes / 10 == tens && minutes % 10 == in_block) by (nonlinear_arith)
        requires
            minutes == tens * 10 + in_block,
            in_block < 10,
    ;
}

/// Distinct frame numbers get distinct drop-frame labels.
pub proof fn lemma_drop_frame_labels_distinct(a: nat, b: nat)
    requires
        a != b,
    ensures
        df_fields(a) != df_fields(b),
{
    lemma_drop_frame_roundtrip(a);
    lemma_drop_frame_roundtrip(b);
}

/// Hours, minutes, seconds and milliseconds of a time in milliseconds.
pub open spec fn hms_fields(ms: nat) -> (nat, nat, nat, nat) {
    (ms / 3_600_000, (ms / 60_000) % 60, (ms / 1_000) % 60, ms % 1_000)
}

/// The label of frame `n` in format `f`, where it is not a decimal fraction.
pub open spec fn timecode_text(f: TimecodeFormat, n: nat, steps: FrameSteps) -> Seq<char> {
    if counts_whole_frames(f) {
        let (h, m, s, fr) = ndf_fields(n, steps);
        clock_text(h, m, s, ':', fr, 2)
    } else if f == TimecodeFormat::Smpte2997Df {
        let (h, m, s, fr) = df_fields(n);
        clock_text(h, m, s, ';', fr, 2)
    } else if f == TimecodeFormat::FrameCount {
        dec_digits(n)
    } else if f == TimecodeFormat::Milliseconds {
        dec_digits(steps.elapsed_ms as nat)
    } else {
        let (h, m, s, ms) = hms_fields(steps.elapsed_ms as nat);
        clock_text(h, m, s, '.', ms, 3)
    }
}

/// Appends `a:b:c<sep>d` (see [`clock_text`]).
fn push_clock(out: &mut String, a: u64, b: u64, c: u64, sep: &str, d: u64, last_width: usize)
    requires
        sep@.len() == 1,
    ensures
        final(out)@ == old(out)@ + clock_text(a as nat, b as nat, c as nat, sep@[0], d as nat, last_width as nat),
{
    let ghost start = out@;
    proof {
        reveal_strlit(":");
    }
    push_decimal(out, a, 2);
    out.append(":");
    push_decimal(out, b, 2);
    out.append(":");
    push_decimal(out, c, 2);
    out.append(sep);
    push_decimal(out, d, last_width);
    proof {
        assert(sep@ =~= seq![sep@[0]]);
        assert(out@ =~= start + clock_text(a as nat, b as nat, c as nat, sep@[0], d as nat, last_width as nat));
    }
}

impl TimecodeFormat {
    /// Get the frame rate for this timecode format.
    pub fn framerate(&self) -> (r: Rational)
        ensures
            (r.num, r.den) == spec_framerate(*self),
    {
        match self {
            TimecodeFormat::Smpte23976 => Rational::new(24000, 1001),
            TimecodeFormat::Smpte24 => Rational::new(24, 1),
            TimecodeFormat::Smpte25 => Rational::new(25, 1),
            TimecodeFormat::Smpte2997Df | TimecodeFormat::Smpte2997Ndf => Rational::new(30000, 1001),
            TimecodeFormat::Smpte30 => Rational::new(30, 1),
            TimecodeFormat::Smpte60 => Rational::new(60, 1),
            _ => Rational::new(1, 1),
        }
    }

    /// Check if this format uses drop-frame timecode.
    pub fn is_drop_frame(&self) -> (b: bool)
        ensures
            b <==> *self == TimecodeFormat::Smpte2997Df,
    {
        match self {
            TimecodeFormat::Smpte2997Df => true,
            _ => false,
        }
    }

    /// Whether this format counts hours, minutes, seconds and frames in whole frames
    /// of its rate (the non-drop-frame SMPTE formats).
    pub fn counts_whole_frames(&self) -> (b: bool)
        ensures
            b == counts_whole_frames(*self),
    {
        match self {
            TimecodeFormat::Smpte23976 | TimecodeFormat::Smpte24 | TimecodeFormat::Smpte25
            | TimecodeFormat::Smpte2997Ndf | TimecodeFormat::Smpte30 | TimecodeFormat::Smpte60 => true,
            _ => false,
        }
    }

    /// Format frame `frame_number` as a label of this format.
    ///
    /// The non-drop-frame SMPTE formats count in the whole frames per hour, minute
    /// and second of `steps`; drop-frame timecode always counts at 30 frames per
    /// second with two frames dropped per minute, except every tenth minute;
    /// the millisecond formats show `steps.elapsed_ms`. `Seconds`, a decimal
    /// fraction, is left to the caller: the result is `None` for it alone.
    pub fn format_timecode(&self, frame_number: u64, steps: &FrameSteps) -> (r: Option<String>)
        requires
            counts_whole_frames(*self) ==> steps.per_hour > 0 && steps.per_minute > 0 && steps.per_second > 0,
        ensures
            r is None <==> *self == TimecodeFormat::Seconds,
            r matches Some(s) ==> s@ == timecode_text(*self, frame_number as nat, *steps),
    {
        match self {
            TimecodeFormat::Smpte23976 | TimecodeFormat::Smpte24 | TimecodeFormat::Smpte25
            | TimecodeFormat::Smpte2997Ndf | TimecodeFormat::Smpte30 | TimecodeFormat::Smpte60 => {
                let mut out = String::new();
                let hours = frame_number / steps.per_hour;
                let minutes = (frame_number / steps.per_minute) % 60;
                let seconds = (frame_number / steps.per_second) % 60;
                let frames = frame_number % steps.per_second;
                proof {
                    reveal_strlit(":");
                }
                push_clock(&mut out, hours, minutes, seconds, ":", frames, 2);
                Some(out)
            },
            TimecodeFormat::Smpte2997Df => Some(drop_frame_label(frame_number)),
            TimecodeFormat::FrameCount => {
                let mut out = String::new();
                push_decimal(&mut out, frame_number, 0);
                Some(out)
            },
            TimecodeFormat::Milliseconds => {
                let mut out = String::new();
                push_decimal(&mut out, steps.elapsed_ms, 0);
                Some(out)
            },
            TimecodeFormat::Seconds => None,
            TimecodeFormat::HhMmSsMmm => {
                let total_ms = steps.elapsed_ms;
                let mut out = String::new();
                proof {
                    reveal_strlit(".");
                }
                push_clock(
                    &mut out,
                    total_ms / 3_600_000,
                    (total_ms / 60_000) % 60,
                    (total_ms / 1_000) % 60,
                    ".",
                    total_ms % 1_000,
                    3,
                );
                Some(out)
            },
        }
    }
}

impl Default for TimecodeFormat {
    fn default() -> (f: Self)
        ensures
            f == TimecodeFormat::Smpte25,
    {
        TimecodeFormat::Smpte25
    }
}

/// The nominal whole-frame rate of a frame rate: `num / den` rounded to the nearest
/// integer, halves up (24 for 23.976, 30 for 29.97, 60 for 59.94), as SMPTE
/// timecode counts frames.
pub open spec fn nominal_rate(num: int, den: int) -> int {
    (2 * num + den) / (2 * den)
}

/// Frame counts of a SMPTE label at frame rate `fps`: frames in an hour, a minute
/// and a second at the nominal rate, with the elapsed milliseconds given. The rate
/// is not negative, and an hour of it counts within a `u64`.
pub fn nominal_steps(fps: &Rational, elapsed_ms: u64) -> (s: FrameSteps)
    requires
        fps.den > 0,
        fps.num >= 0,
        3600 * nominal_rate(fps.num as int, fps.den as int) <= u64::MAX,
    ensures
        s.per_second == nominal_rate(fps.num as int, fps.den as int),
        s.per_minute == 60 * s.per_second,
        s.per_hour == 3600 * s.per_second,
        s.elapsed_ms == elapsed_ms,
{
    let q = fps.num / fps.den;
    let r = fps.num % fps.den;
    proof {
        let n = fps.num as int;
        let d = fps.den as int;
        assert(n == d * q + r && 0 <= r < d) by (nonlinear_arith)
            requires
                d > 0,
                n >= 0,
                q == n / d,
                r == n % d,
        ;
        assert(nominal_rate(n, d) == q + if r >= d - r { 1int } else { 0int }) by (nonlinear_arith)
            requires
                d > 0,
                n == d * q + r,
                0 <= r < d,
                q >= 0,
        ;
    }
    let per_second = if r >= fps.den - r {
        q as u64 + 1
    } else {
        q as u64
    };
    FrameSteps { per_hour: 3600 * per_second, per_minute: 60 * per_second, per_second, elapsed_ms }
}

/// The drop-frame label `HH:MM:SS;FF` of frame `frame_number`.
pub fn drop_frame_label(frame_number: u64) -> (s: String)
    ensures
        s@ == ({
            let (h, m, sec, f) = df_fields(frame_number as nat);
            clock_text(h, m, sec, ';', f, 2)
        }),
{
    let frames_per_minute: u64 = 1798;
    let frames_per_10_minutes: u64 = 17982;
    let tens_of_minutes = frame_number / frames_per_10_minutes;
    let total_frames = frame_number % frames_per_10_minutes;
    let minutes_in_block: u64 = if total_frames < 1800 {
        0
    } else {
        (total_frames - 1800) / frames_per_minute + 1
    };
    let frames_in_minute: u64 = if total_frames < 1800 {
        total_frames
    } else {
        (total_frames - 1800) % frames_per_minute + 2
    };
    proof {
        assert(tens_of_minutes * 10 <= frame_number) by (nonlinear_arith)
            requires
                tens_of_minutes == frame_number / 17982,
        ;
    }
    let total_minutes = tens_of_minutes * 10 + minutes_in_block;
    let mut out = String::new();
    proof {
        reveal_strlit(";");
    }
    push_clock(
        &mut out,
        total_minutes / 60,
        total_minutes % 60,
        frames_in_minute / 30,
        ";",
        frames_in_minute % 30,
        2,
    );
    out
}

/// A `u32` read as the `i32` with the same bits: values above `i32::MAX` wrap
/// around to negative ones.
pub open spec fn wrap_i32(x: u32) -> int {
    if x <= 0x7fff_ffff {
        x as int
    } else {
        x - 0x1_0000_0000
    }
}

/// `a - b`, or 0 where `b` exceeds `a`.
pub open spec fn sat_sub(a: int, b: int) -> int {
    if a >= b {
        a - b
    } else {
        0
    }
}

/// The `i32` with the bits of `x`.
fn bits_as_i32(x: u32) -> (r: i32)
    ensures
        r as int == wrap_i32(x),
{
    let r = x as i32;
    proof {
        assert(x <= 0x7fff_ffff ==> r == x) by (bit_vector)
            requires
                r == x as i32,
        ;
        assert(x > 0x7fff_ffff ==> r + 0x1_0000_0000 == x) by (bit_vector)
            requires
                r == x as i32,
        ;
    }
    r
}

/// Position for overlay elements.
#[derive(Clone, Copy, Debug, PartialEq, Eq)]
pub enum Position {
    /// Top-left corner.
    TopLeft,
    /// Top-center.
    TopCenter,
    /// Top-right corner.
    TopRight,
    /// Center-left.
    CenterLeft,
    /// Center.
    Center,
    /// Center-right.
    CenterRight,
    /// Bottom-left corner.
    BottomLeft,
    /// Bottom-center.
    BottomCenter,
    /// Bottom-right corner.
    BottomRight,
    /// Custom X/Y coordinates (absolute pixels).
    Custom(i32, i32),
}

/// Where a preset places an element along one axis, before the result is read as an
/// `i32`: 0 = at the margin, 1 = centred, 2 = at the far side less the margin.
pub open spec fn axis_offset(place: int, frame: u32, element: u32, margin: u32) -> u32 {
    if place == 0 {
        margin
    } else if place == 1 {
        (sat_sub(frame as int, element as int) / 2) as u32
    } else {
        sat_sub(sat_sub(frame as int, element as int), margin as int) as u32
    }
}

/// The horizontal placement (0, 1 or 2, see [`axis_offset`]) of a preset position.
pub open spec fn column_of(p: Position) -> int {
    match p {
        Position::TopLeft | Position::CenterLeft | Position::BottomLeft => 0,
        Position::TopCenter | Position::Center | Position::BottomCenter => 1,
        _ => 2,
    }
}

/// The vertical placement (0, 1 or 2, see [`axis_offset`]) of a preset position.
pub open spec fn row_of(p: Position) -> int {
    match p {
        Position::TopLeft | Position::TopCenter | Position::TopRight => 0,
        Position::CenterLeft | Position::Center | Position::CenterRight => 1,
        _ => 2,
    }
}

/// The pixel position of an element of the given size placed at `p`.
pub open spec fn position_xy(p: Position, fw: u32, fh: u32, ew: u32, eh: u32, margin: u32) -> (int, int) {
    match p {
        Position::Custom(x, y) => (x as int, y as int),
        _ => (
            wrap_i32(axis_offset(column_of(p), fw, ew, margin)),
            wrap_i32(axis_offset(row_of(p), fh, eh, margin)),
        ),
    }
}

/// The offset along one axis (see [`axis_offset`]).
fn place_on_axis(place: u8, frame: u32, element: u32, margin: u32) -> (r: i32)
    requires
        place <= 2,
    ensures
        r as int == wrap_i32(axis_offset(place as int, frame, element, margin)),
{
    if place == 0 {
        bits_as_i32(margin)
    } else if place == 1 {
        bits_as_i32(frame.saturating_sub(element) / 2)
    } else {
        bits_as_i32(frame.saturating_sub(element).saturating_sub(margin))
    }
}

impl Position {
    /// Calculate the actual position in pixels.
    ///
    /// Preset positions sit at the safe-area margin, centred, or at the far side
    /// less the margin (an element larger than the frame sits at 0); custom
    /// positions are returned as they are.
    pub fn calculate(
        &self,
        frame_width: u32,
        frame_height: u32,
        element_width: u32,
        element_height: u32,
        margin: u32,
    ) -> (r: (i32, i32))
        ensures
            (r.0 as int, r.1 as int) == position_xy(*self, frame_width, frame_height, element_width, element_height, margin),
    {
        let (col, row): (u8, u8) = match self {
            Position::Custom(x, y) => {
                return (*x, *y);
            },
            Position::TopLeft => (0, 0),
            Position::TopCenter => (1, 0),
            Position::TopRight => (2, 0),
            Position::CenterLeft => (0, 1),
            Position::Center => (1, 1),
            Position::CenterRight => (2, 1),
            Position::BottomLeft => (0, 2),
            Position::BottomCenter => (1, 2),
            Position::BottomRight => (2, 2),
        };
        (
            place_on_axis(col, frame_width, element_width, margin),
            place_on_axis(row, frame_height, element_height, margin),
        )
    }
}

impl Default for Position {
    fn default() -> (p: Self)
        ensures
            p == Position::TopLeft,
    {
        Position::TopLeft
    }
}

/// Color representation.
#[derive(Clone, Copy, Debug, PartialEq, Eq)]
pub struct Color {
    /// Red component (0-255).
    pub r: u8,
    /// Green component (0-255).
    pub g: u8,
    /// Blue component (0-255).
    pub b: u8,
    /// Alpha component (0-255, 255 = opaque).
    pub a: u8,
}

impl Color {
    /// Create a new color.
    pub fn new(r: u8, g: u8, b: u8, a: u8) -> (c: Self)
        ensures
            c == (Color { r, g, b, a }),
    {
        Color { r, g, b, a }
    }

    /// Create a fully opaque color.
    pub fn rgb(r: u8, g: u8, b: u8) -> (c: Self)
        ensures
            c == (Color { r, g, b, a: 255 }),
    {
        Self::new(r, g, b, 255)
    }

    /// White color.
    pub fn white() -> (c: Self)
        ensures
            c == (Color { r: 255, g: 255, b: 255, a: 255 }),
    {
        Self::rgb(255, 255, 255)
    }

    /// Black color.
    pub fn black() -> (c: Self)
        ensures
            c == (Color { r: 0, g: 0, b: 0, a: 255 }),
    {
        Self::rgb(0, 0, 0)
    }

    /// Transparent color.
    pub fn transparent() -> (c: Self)
        ensures
            c == (Color { r: 0, g: 0, b: 0, a: 0 }),
    {
        Self::new(0, 0, 0, 0)
    }

    /// Yellow color.
    pub fn yellow() -> (c: Self)
        ensures
            c == (Color { r: 255, g: 255, b: 0, a: 255 }),
    {
        Self::rgb(255, 255, 0)
    }

    /// Red color.
    pub fn red() -> (c: Self)
        ensures
            c == (Color { r: 255, g: 0, b: 0, a: 255 }),
    {
        Self::rgb(255, 0, 0)
    }

    /// Green color.
    pub fn green() -> (c: Self)
        ensures
            c == (Color { r: 0, g: 255, b: 0, a: 255 }),
    {
        Self::rgb(0, 255, 0)
    }

    /// Blue color.
    pub fn blue() -> (c: Self)
        ensures
            c == (Color { r: 0, g: 0, b: 255, a: 255 }),
    {
        Self::rgb(0, 0, 255)
    }
}

/// Text alignment within a box.
#[derive(Clone, Copy, Debug, PartialEq, Eq)]
pub enum TextAlignment {
    /// Left-aligned.
    Left,
    /// Center-aligned.
    Center,
    /// Right-aligned.
    Right,
}

// ── Calendar ────────────────────────────────────────────────────────────────

/// Whether `year` is a Gregorian leap year.
pub open spec fn spec_is_leap_year(year: nat) -> bool {
    (year % 4 == 0 && year % 100 != 0) || year % 400 == 0
}

/// Days in `year`.
pub open spec fn year_len(year: nat) -> nat {
    if spec_is_leap_year(year) {
        366
    } else {
        365
    }
}

/// Days in `month` (1 to 12) of `year`; 30 for any other month number.
pub open spec fn month_len(month: nat, year: nat) -> nat {
    if month == 1 || month == 3 || month == 5 || month == 7 || month == 8 || month == 10 || month == 12 {
        31
    } else if month == 4 || month == 6 || month == 9 || month == 11 {
        30
    } else if month == 2 {
        if spec_is_leap_year(year) {
            29
        } else {
            28
        }
    } else {
        30
    }
}

/// Days of `year` before the first day of `month`.
pub open spec fn days_before_month(month: nat, year: nat) -> nat
    decreases month,
{
    if month <= 1 {
        0
    } else {
        days_before_month((month - 1) as nat, year) + month_len((month - 1) as nat, year)
    }
}

/// The year and day of the year (from 0) that lie `days` days after the first day
/// of `year`.
pub open spec fn year_and_day(days: nat, year: nat) -> (nat, nat)
    decreases days,
{
    if days < year_len(year) {
        (year, days)
    } else {
        year_and_day((days - year_len(year)) as nat, year + 1)
    }
}

/// The month and day of the month (from 1) of day `day_of_year` (from 0) of `year`,
/// searching from `month`.
pub open spec fn month_and_day(day_of_year: nat, year: nat, month: nat) -> (nat, nat)
    decreases 13 - month,
{
    if month >= 12 || day_of_year < month_len(month, year) {
        (month, day_of_year + 1)
    } else {
        month_and_day((day_of_year - month_len(month, year)) as nat, year, month + 1)
    }
}

/// The Gregorian date (year, month, day) of day `days` counted from 1970-01-01.
pub open spec fn civil_date(days: nat) -> (nat, nat, nat) {
    let (y, d) = year_and_day(days, 1970);
    let (m, day) = month_and_day(d, y, 1);
    (y, m, day)
}

proof fn lemma_year_and_day_in_year(days: nat, year: nat)
    ensures
        year_and_day(days, year).1 < year_len(year_and_day(days, year).0),
    decreases days,
{
    if days >= year_len(year) {
        lemma_year_and_day_in_year((days - year_len(year)) as nat, year + 1);
    }
}

proof fn lemma_month_and_day_valid(d: nat, year: nat, month: nat)
    requires
        1 <= month <= 12,
        d + days_before_month(month, year) < year_len(year),
    ensures
        1 <= month_and_day(d, year, month).0 <= 12,
        1 <= month_and_day(d, year, month).1 <= month_len(month_and_day(d, year, month).0, year),
    decreases 13 - month,
{
    if month == 12 {
        reveal_with_fuel(days_before_month, 13);
    } else if d >= month_len(month, year) {
        lemma_month_and_day_valid((d - month_len(month, year)) as nat, year, month + 1);
    }
}

/// Every day has a valid date: month 1 to 12, day 1 to the length of that month.
pub proof fn lemma_civil_date_valid(days: nat)
    ensures
        ({
            let (y, m, d) = civil_date(days);
            &&& y >= 1970
            &&& 1 <= m <= 12
            &&& 1 <= d <= month_len(m, y)
        }),
{
    lemma_year_and_day_in_year(days, 1970);
    lemma_year_at_least(days, 1970);
    let (y, d) = year_and_day(days, 1970);
    lemma_month_and_day_valid(d, y, 1);
}

proof fn lemma_year_at_least(days: nat, year: nat)
    ensures
        year_and_day(days, year).0 >= year,
    decreases days,
{
    if days >= year_len(year) {
        lemma_year_at_least((days - year_len(year)) as nat, year + 1);
    }
}

/// Check if a year is a leap year.
fn is_leap_year(year: u64) -> (b: bool)
    ensures
        b == spec_is_leap_year(year as nat),
{
    (year % 4 == 0 && year % 100 != 0) || (year % 400 == 0)
}

/// Get the number of days in a month for a given year.
fn days_in_month_gregorian(month: u64, year: u64) -> (d: u64)
    ensures
        d == month_len(month as nat, year as nat),
{
    match month {
        1 | 3 | 5 | 7 | 8 | 10 | 12 => 31,
        4 | 6 | 9 | 11 => 30,
        2 => {
            if is_leap_year(year) {
                29
            } else {
                28
            }
        },
        _ => 30,
    }
}

/// The date of day `days` counted from 1970-01-01.
fn civil_from_days(days: u64) -> (r: (u64, u64, u64))
    requires
        days <= u64::MAX / 2,
    ensures
        (r.0 as nat, r.1 as nat, r.2 as nat) == civil_date(days as nat),
{
    let mut year: u64 = 1970;
    let mut remaining = days;
    loop
        invariant_except_break
            year <= 1970 + (days - remaining),
            remaining <= days <= u64::MAX / 2,
            year_and_day(days as nat, 1970) == year_and_day(remaining as nat, year as nat),
        ensures
            remaining < year_len(year as nat),
            year_and_day(days as nat, 1970) == (year as nat, remaining as nat),
        decreases remaining,
    {
        let days_in_year: u64 = if is_leap_year(year) {
            366
        } else {
            365
        };
        if remaining < days_in_year {
            break;
        }
        remaining -= days_in_year;
        year += 1;
    }
    let mut month: u64 = 1;
    let mut m: u64 = 1;
    let ghost rest = remaining;
    proof {
        lemma_year_and_day_in_year(days as nat, 1970);
    }
    while m <= 12
        invariant_except_break
            1 <= m <= 12,
            remaining as nat + days_before_month(m as nat, year as nat) == rest,
            rest < year_len(year as nat),
            month_and_day(rest as nat, year as nat, 1) == month_and_day(remaining as nat, year as nat, m as nat),
        ensures
            month_and_day(rest as nat, year as nat, 1) == (month as nat, remaining as nat + 1),
            remaining < 400,
        decreases 13 - m,
    {
        let dim = days_in_month_gregorian(m, year);
        if remaining < dim {
            month = m;
            break;
        }
        if m == 12 {
            proof {
                reveal_with_fuel(days_before_month, 13);
                assert(false);
            }
        }
        remaining -= dim;
        m += 1;
    }
    (year, month, remaining + 1)
}

/// `YYYY-MM-DD`.
pub open spec fn date_text(y: nat, m: nat, d: nat) -> Seq<char> {
    dec_padded(y, 4) + seq!['-'] + dec_padded(m, 2) + seq!['-'] + dec_padded(d, 2)
}

/// `HH:MM:SS`.
pub open spec fn time_text(h: nat, m: nat, s: nat) -> Seq<char> {
    dec_padded(h, 2) + seq![':'] + dec_padded(m, 2) + seq![':'] + dec_padded(s, 2)
}

// ── Metadata fields ─────────────────────────────────────────────────────────

/// Metadata field type.
#[derive(Clone, Debug, PartialEq, Eq, Hash)]
pub enum MetadataField {
    /// Timecode.
    Timecode,
    /// Frame number.
    FrameNumber,
    /// Filename.
    Filename,
    /// Resolution (e.g., "1920x1080").
    Resolution,
    /// Framerate (e.g., "25.00 fps").
    Framerate,
    /// Codec information.
    Codec,
    /// Current bitrate.
    Bitrate,
    /// Current date.
    Date,
    /// Current time.
    Time,
    /// Custom text field.
    Custom(String),
}

/// Frame context for metadata templating.
#[derive(Clone, Debug)]
pub struct FrameContext {
    /// Current timecode string.
    pub timecode: String,
    /// Frame number.
    pub frame_number: u64,
    /// Filename.
    pub filename: String,
    /// Frame width.
    pub width: u32,
    /// Frame height.
    pub height: u32,
    /// Framerate.
    pub framerate: Rational,
    /// Codec name.
    pub codec: String,
    /// Current bitrate in bits per second.
    pub bitrate: u64,
}

impl Default for FrameContext {
    fn default() -> (c: Self)
        ensures
            c.timecode@ == "00:00:00:00"@,
            c.frame_number == 0,
            c.filename@ == "unknown.mp4"@,
            c.width == 1920,
            c.height == 1080,
            c.framerate == Rational::new_spec(25, 1),
            c.codec@ == "Unknown"@,
            c.bitrate == 0,
    {
        FrameContext {
            timecode: "00:00:00:00".to_owned(),
            frame_number: 0,
            filename: "unknown.mp4".to_owned(),
            width: 1920,
            height: 1080,
            framerate: Rational::new(25, 1),
            codec: "Unknown".to_owned(),
            bitrate: 0,
        }
    }
}

/// The text of a metadata field for a frame context at `unix_secs` seconds since
/// 1970-01-01 00:00 UTC; `None` for the fields shown as decimal fractions (the
/// frame rate, and a nonzero bitrate in Mbps).
pub open spec fn metadata_text(field: MetadataField, c: FrameContext, unix_secs: nat) -> Option<Seq<char>> {
    match field {
        MetadataField::Timecode => Some(c.timecode@),
        MetadataField::FrameNumber => Some("Frame: "@ + dec_digits(c.frame_number as nat)),
        MetadataField::Filename => Some(c.filename@),
        MetadataField::Resolution => Some(dec_digits(c.width as nat) + seq!['x'] + dec_digits(c.height as nat)),
        MetadataField::Framerate => None,
        MetadataField::Codec => Some(c.codec@),
        MetadataField::Bitrate => if c.bitrate > 0 {
            None
        } else {
            Some("N/A"@)
        },
        MetadataField::Date => {
            let (y, m, d) = civil_date(unix_secs / 86400);
            Some(date_text(y, m, d))
        },
        MetadataField::Time => Some(time_text((unix_secs / 3600) % 24, (unix_secs / 60) % 60, unix_secs % 60)),
        MetadataField::Custom(t) => Some(t@),
    }
}

impl MetadataField {
    /// The display value of this field for `context` at `unix_secs` seconds since
    /// 1970-01-01 00:00 UTC (the clock the date and time fields show). The frame
    /// rate, and a nonzero bitrate, are decimal fractions that the caller formats:
    /// for them the result is `None`.
    pub fn value_at(&self, context: &FrameContext, unix_secs: u64) -> (r: Option<String>)
        ensures
            r matches Some(s) ==> metadata_text(*self, *context, unix_secs as nat) == Some(s@),
            r is None ==> metadata_text(*self, *context, unix_secs as nat) is None,
    {
        match self {
            MetadataField::Timecode => Some(context.timecode.clone()),
            MetadataField::FrameNumber => {
                let mut out = "Frame: ".to_owned();
                push_decimal(&mut out, context.frame_number, 0);
                Some(out)
            },
            MetadataField::Filename => Some(context.filename.clone()),
            MetadataField::Resolution => {
                let mut out = String::new();
                push_decimal(&mut out, context.width as u64, 0);
                proof {
                    reveal_strlit("x");
                }
                out.append("x");
                push_decimal(&mut out, context.height as u64, 0);
                Some(out)
            },
            MetadataField::Framerate => None,
            MetadataField::Codec => Some(context.codec.clone()),
            MetadataField::Bitrate => {
                if context.bitrate > 0 {
                    None
                } else {
                    Some("N/A".to_owned())
                }
            },
            MetadataField::Date => {
                let (year, month, day) = civil_from_days(unix_secs / 86400);
                let mut out = String::new();
                proof {
                    reveal_strlit("-");
                }
                push_decimal(&mut out, year, 4);
                out.append("-");
                push_decimal(&mut out, month, 2);
                out.append("-");
                push_decimal(&mut out, day, 2);
                Some(out)
            },
            MetadataField::Time => {
                let mut out = String::new();
                proof {
                    reveal_strlit(":");
                }
                push_decimal(&mut out, (unix_secs / 3600) % 24, 2);
                out.append(":");
                push_decimal(&mut out, (unix_secs / 60) % 60, 2);
                out.append(":");
                push_decimal(&mut out, unix_secs % 60, 2);
                Some(out)
            },
            MetadataField::Custom(text) => Some(text.clone()),
        }
    }
}

/// Progress bar visualization.
#[derive(Clone, Copy, Debug)]
pub struct ProgressBar {
    /// Position on the frame.
    pub position: Position,
    /// Width in pixels.
    pub width: u32,
    /// Height in pixels.
    pub height: u32,
    /// Foreground color.
    pub foreground: Color,
    /// Background color.
    pub background: Color,
    /// Total duration in frames.
    pub total_frames: u64,
    /// Show percentage text.
    pub show_percentage: bool,
    /// Enabled.
    pub enabled: bool,
}

impl Default for ProgressBar {
    fn default() -> (b: Self)
        ensures
            b.position == Position::BottomCenter,
            b.width == 400,
            b.height == 8,
            b.foreground == (Color { r: 0, g: 255, b: 0, a: 255 }),
            b.background == (Color { r: 64, g: 64, b: 64, a: 192 }),
            b.total_frames == 1000,
            b.show_percentage,
            !b.enabled,
    {
        ProgressBar {
            position: Position::BottomCenter,
            width: 400,
            height: 8,
            foreground: Color::green(),
            background: Color::new(64, 64, 64, 192),
            total_frames: 1000,
            show_percentage: true,
            enabled: false,
        }
    }
}

/// Channel `c` (0 red, 1 green, 2 blue, 3 alpha) of a colour.
pub open spec fn channel(col: Color, c: int) -> u8 {
    if c == 0 {
        col.r
    } else if c == 1 {
        col.g
    } else if c == 2 {
        col.b
    } else {
        col.a
    }
}

/// Byte `i` of the RGBA image of a progress bar filled `filled` pixels wide: the
/// foreground colour left of the fill line, the background right of it.
pub open spec fn progress_byte(bar: ProgressBar, filled: nat, i: int) -> u8 {
    let px = (i / 4) % (bar.width as int);
    channel(if px < filled { bar.foreground } else { bar.background }, i % 4)
}

/// The RGBA image of a progress bar (`width` by `height`, row by row) whose first
/// `filled_width` columns show progress.
pub fn progress_bar_rgba(bar: &ProgressBar, filled_width: u32) -> (buf: Vec<u8>)
    requires
        filled_width <= bar.width,
        bar.width as int * bar.height as int * 4 <= u32::MAX,
    ensures
        buf@.len() == bar.width * bar.height * 4,
        forall|i: int| 0 <= i < buf@.len() ==> #[trigger] buf@[i] == progress_byte(*bar, filled_width as nat, i),
{
    let mut buf: Vec<u8> = Vec::new();
    let mut py: u32 = 0;
    while py < bar.height
        invariant
            py <= bar.height,
            bar.width as int * bar.height as int * 4 <= u32::MAX,
            buf@.len() == py * bar.width * 4,
            forall|i: int| 0 <= i < buf@.len() ==> #[trigger] buf@[i] == progress_byte(*bar, filled_width as nat, i),
        decreases bar.height - py,
    {
        let mut px: u32 = 0;
        while px < bar.width
            invariant
                py < bar.height,
                px <= bar.width,
                bar.width as int * bar.height as int * 4 <= u32::MAX,
                buf@.len() == (py * bar.width + px) * 4,
                forall|i: int| 0 <= i < buf@.len() ==> #[trigger] buf@[i] == progress_byte(*bar, filled_width as nat, i),
            decreases bar.width - px,
        {
            let col = if px < filled_width {
                bar.foreground
            } else {
                bar.background
            };
            let ghost base = buf@.len() as int;
            let ghost before = buf@;
            buf.push(col.r);
            buf.push(col.g);
            buf.push(col.b);
            buf.push(col.a);
            proof {
                let f = filled_width as nat;
                lemma_pixel_index(py as int, bar.width as int, px as int, 0);
                lemma_pixel_index(py as int, bar.width as int, px as int, 1);
                lemma_pixel_index(py as int, bar.width as int, px as int, 2);
                lemma_pixel_index(py as int, bar.width as int, px as int, 3);
                assert(buf@[base] == progress_byte(*bar, f, base));
                assert(buf@[base + 1] == progress_byte(*bar, f, base + 1));
                assert(buf@[base + 2] == progress_byte(*bar, f, base + 2));
                assert(buf@[base + 3] == progress_byte(*bar, f, base + 3));
                assert forall|i: int| 0 <= i < buf@.len() implies #[trigger] buf@[i] == progress_byte(*bar, f, i) by {
                    if i < base {
                        assert(buf@[i] == before[i]);
                    }
                }
                assert((py * bar.width + px) * 4 + 4 == (py * bar.width + px + 1) * 4) by (nonlinear_arith);
            }
            px += 1;
        }
        proof {
            assert((py * bar.width + bar.width) * 4 == (py + 1) * bar.width * 4) by (nonlinear_arith);
        }
        py += 1;
    }
    proof {
        assert(py * bar.width * 4 == bar.width * bar.height * 4) by (nonlinear_arith)
            requires
                py == bar.height,
        ;
    }
    buf
}

proof fn lemma_pixel_index(row: int, width: int, col: int, c: int)
    requires
        0 <= row,
        0 <= col < width,
        0 <= c < 4,
    ensures
        (((row * width + col) * 4 + c) / 4) % width == col,
        ((row * width + col) * 4 + c) % 4 == c,
{
    let k = (row * width + col) * 4 + c;
    vstd::arithmetic::div_mod::lemma_fundamental_div_mod_converse(k, 4, row * width + col, c);
    vstd::arithmetic::div_mod::lemma_fundamental_div_mod_converse(row * width + col, width, row, col);
}

} // verus!
