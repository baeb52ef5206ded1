//! Dolby Vision RPU (Reference Processing Unit) builder.
//!
//! Generates minimal but structurally valid Dolby Vision RPU NALU payloads for
//! profiles 5, 8.1, and 8.4. The output bytes can be embedded in an HEVC bitstream as
//! an unregistered SEI NAL unit (type 62) or as a standalone RPU NAL unit with the
//! `0x19` prefix required by all DV profiles.

use vstd::prelude::*;

verus! {

// ── Bit model ──────────────────────────────────────────────────────────────

/// Bit `k` of `v` (bit 0 is the least significant).
pub open spec fn bit_of(v: nat, k: nat) -> bool
    decreases k,
{
    if k == 0 {
        v % 2 == 1
    } else {
        bit_of(v / 2, (k - 1) as nat)
    }
}

/// The `n` low bits of `v`, most significant first.
pub open spec fn field_bits(v: nat, n: nat) -> Seq<bool> {
    Seq::new(n, |i: int| bit_of(v, (n - 1 - i) as nat))
}

/// The number whose binary digits, most significant first, are `b`.
pub open spec fn bits_value(b: Seq<bool>) -> nat
    decreases b.len(),
{
    if b.len() == 0 {
        0
    } else {
        2 * bits_value(b.drop_last()) + if b.last() {
            1nat
        } else {
            0nat
        }
    }
}

/// `2^n`.
pub open spec fn exp2(n: nat) -> nat
    decreases n,
{
    if n == 0 {
        1
    } else {
        2 * exp2((n - 1) as nat)
    }
}

/// The bytes of a bit string, eight bits per byte, most significant bit first; bits
/// after the last whole byte are dropped.
pub open spec fn pack(bits: Seq<bool>) -> Seq<u8> {
    Seq::new(bits.len() / 8, |i: int| bits_value(bits.subrange(8 * i, 8 * i + 8)) as u8)
}

/// `n` zero bits.
pub open spec fn zero_bits(n: nat) -> Seq<bool> {
    Seq::new(n, |i: int| false)
}

/// RBSP trailing bits after `len` bits: a one bit, then zero bits up to the next byte
/// boundary.
pub open spec fn trailing_bits(len: nat) -> Seq<bool> {
    seq![true] + zero_bits(((8 - (len + 1) % 8) % 8) as nat)
}

proof fn lemma_bits_value_bound(b: Seq<bool>)
    ensures
        bits_value(b) < exp2(b.len()),
    decreases b.len(),
{
    if b.len() > 0 {
        lemma_bits_value_bound(b.drop_last());
    }
}

/// A simple MSB-first bit-packing writer.
///
/// Bits are gathered until a whole byte is complete, which is then appended to the
/// output byte buffer.
pub struct BitWriter {
    buf: Vec<u8>,
    acc: u64,
    bits_in_acc: u32,
    /// Every bit written so far.
    written: Ghost<Seq<bool>>,
}

impl BitWriter {
    /// Every bit written so far, in order.
    pub closed spec fn bits(&self) -> Seq<bool> {
        self.written@
    }

    /// The complete bytes are in the buffer and the rest of the bits in the
    /// accumulator.
    pub closed spec fn wf(&self) -> bool {
        let bits = self.written@;
        let full = 8 * self.buf@.len();
        &&& self.bits_in_acc < 8
        &&& full + self.bits_in_acc == bits.len()
        &&& self.buf@ == pack(bits.take(full as int))
        &&& self.acc == bits_value(bits.skip(full as int))
    }

    /// Creates an empty writer.
    pub fn new() -> (w: Self)
        ensures
            w.wf(),
            w.bits() == Seq::<bool>::empty(),
    {
        let w = BitWriter { buf: Vec::new(), acc: 0, bits_in_acc: 0, written: Ghost(Seq::empty()) };
        proof {
            assert(w.buf@ =~= pack(Seq::<bool>::empty().take(0)));
            assert(Seq::<bool>::empty().skip(0) =~= Seq::<bool>::empty());
        }
        w
    }

    /// Appends one bit.
    fn write_bit(&mut self, b: bool)
        requires
            old(self).wf(),
        ensures
            final(self).wf(),
            final(self).bits() == old(self).bits().push(b),
    {
        let ghost bits = self.written@;
        let ghost full = 8 * self.buf@.len();
        proof {
            lemma_bits_value_bound(bits.skip(full as int));
            assert(exp2(0) == 1);
            assert(exp2(1) == 2);
            assert(exp2(2) == 4);
            assert(exp2(3) == 8);
            assert(exp2(4) == 16);
            assert(exp2(5) == 32);
            assert(exp2(6) == 64);
            assert(exp2(7) == 128);
        }
        self.acc = self.acc * 2 + if b {
            1
        } else {
            0
        };
        self.bits_in_acc = self.bits_in_acc + 1;
        self.written = Ghost(bits.push(b));
        proof {
            let nb = bits.push(b);
            assert(nb.skip(full as int).drop_last() =~= bits.skip(full as int));
            assert(nb.skip(full as int).last() == b);
            assert(nb.take(full as int) =~= bits.take(full as int));
        }
        if self.bits_in_acc == 8 {
            let ghost old_buf = self.buf@;
            self.buf.push(self.acc as u8);
            self.acc = 0;
            self.bits_in_acc = 0;
            proof {
                let nb = bits.push(b);
                let nfull = 8 * self.buf@.len();
                assert(nfull == nb.len());
                assert(nb.skip(nfull as int) =~= Seq::<bool>::empty());
                assert(nb.take(nfull as int) =~= nb);
                assert(nb.subrange(full as int, (full + 8) as int) =~= nb.skip(full as int));
                assert(self.buf@ =~= pack(nb)) by {
                    assert forall|i: int| 0 <= i < old_buf.len() implies #[trigger] pack(nb)[i] == old_buf[i] by {
                        assert(nb.subrange(8 * i, 8 * i + 8) =~= bits.take(full as int).subrange(
                            8 * i,
                            8 * i + 8,
                        ));
                    }
                }
            }
        }
    }

    /// Write the `n` least-significant bits of `value` MSB-first.
    pub fn write_bits(&mut self, value: u32, n: u32)
        requires
            old(self).wf(),
            n <= 32,
        ensures
            final(self).wf(),
            final(self).bits() == old(self).bits() + field_bits(value as nat, n as nat),
    {
        // the n low bits, least significant first
        let mut low: Vec<bool> = Vec::new();
        let mut w = value;
        let mut j: u32 = 0;
        while j < n
            invariant
                j <= n,
                low@.len() == j,
                forall|t: int| 0 <= t < j ==> low@[t] == bit_of(value as nat, t as nat),
                forall|k: nat| #[trigger] bit_of(w as nat, k) == bit_of(value as nat, (k + j) as nat),
            decreases n - j,
        {
            low.push(w % 2 == 1);
            proof {
                assert(bit_of(w as nat, 0) == (w % 2 == 1));
                assert forall|k: nat| #[trigger] bit_of((w / 2) as nat, k) == bit_of(value as nat, (k + j + 1) as nat) by {
                    assert(bit_of(w as nat, k + 1) == bit_of((w / 2) as nat, k));
                }
            }
            w = w / 2;
            j += 1;
        }
        let ghost start = self.bits();
        let mut t: u32 = n;
        while t > 0
            invariant
                t <= n,
                low@.len() == n,
                forall|q: int| 0 <= q < n ==> low@[q] == bit_of(value as nat, q as nat),
                self.wf(),
                self.bits() == start + field_bits(value as nat, n as nat).take(n - t),
            decreases t,
        {
            t -= 1;
            self.write_bit(low[t as usize]);
            proof {
                assert(field_bits(value as nat, n as nat).take(n - t) =~= field_bits(
                    value as nat,
                    n as nat,
                ).take(n - t - 1).push(bit_of(value as nat, t as nat)));
            }
        }
        proof {
            assert(field_bits(value as nat, n as nat).take(n as int) =~= field_bits(
                value as nat,
                n as nat,
            ));
        }
    }

    /// Write RBSP trailing bits: a `1` bit followed by zero-padding to a byte boundary.
    pub fn write_rbsp_trailing_bits(&mut self)
        requires
            old(self).wf(),
        ensures
            final(self).wf(),
            final(self).bits() == old(self).bits() + trailing_bits(old(self).bits().len()),
            final(self).bits().len() % 8 == 0,
    {
        let ghost start = self.bits();
        self.write_bit(true);
        let remaining = if self.bits_in_acc == 0 {
            0
        } else {
            8 - self.bits_in_acc
        };
        let ghost mid = self.bits();
        proof {
            assert(remaining == ((8 - (start.len() + 1) % 8) % 8));
        }
        let mut k: u32 = 0;
        while k < remaining
            invariant
                k <= remaining,
                self.wf(),
                self.bits() == mid + zero_bits(k as nat),
            decreases remaining - k,
        {
            self.write_bit(false);
            proof {
                assert(zero_bits((k + 1) as nat) =~= zero_bits(k as nat).push(false));
            }
            k += 1;
        }
        proof {
            assert(self.bits() =~= start + trailing_bits(start.len()));
        }
    }

    /// Consume the writer and return the accumulated byte buffer (bits short of a
    /// whole byte are dropped).
    pub fn into_bytes(self) -> (bytes: Vec<u8>)
        requires
            self.wf(),
        ensures
            bytes@ == pack(self.bits()),
    {
        proof {
            let bits = self.written@;
            let full = 8 * self.buf@.len();
            assert(pack(bits) =~= pack(bits.take(full as int))) by {
                assert forall|i: int| 0 <= i < pack(bits).len() implies #[trigger] pack(bits)[i]
                    == pack(bits.take(full as int))[i] by {
                    assert(bits.subrange(8 * i, 8 * i + 8) =~= bits.take(full as int).subrange(
                        8 * i,
                        8 * i + 8,
                    ));
                }
            }
        }
        self.buf
    }
}

// ── DoviProfile ─────────────────────────────────────────────────────────────

/// Dolby Vision profile variant supported by [`DoviRpuBuilder`].
#[derive(Debug, Clone, Copy, PartialEq, Eq, Hash, Structural)]
pub enum DoviProfile {
    /// Profile 5 — PQ-only single-layer; no HDR10/HLG base layer.
    Profile5,
    /// Profile 8.1 — HDR10 base layer with Dolby Vision RPU metadata.
    Profile81,
    /// Profile 8.4 — HLG base layer with Dolby Vision RPU metadata.
    Profile84,
}

/// Numeric profile ID embedded in the RPU header.
pub open spec fn spec_profile_id(p: DoviProfile) -> u8 {
    match p {
        DoviProfile::Profile5 => 5,
        _ => 8,
    }
}

/// VDR RPU level of a profile.
pub open spec fn spec_rpu_level(p: DoviProfile) -> u8 {
    match p {
        DoviProfile::Profile5 => 1,
        _ => 6,
    }
}

impl DoviProfile {
    /// Numeric profile ID embedded in the RPU header.
    pub fn profile_id(self) -> (id: u8)
        ensures
            id == spec_profile_id(self),
    {
        match self {
            DoviProfile::Profile5 => 5,
            DoviProfile::Profile81 => 8,
            DoviProfile::Profile84 => 8,
        }
    }

    /// VDR RPU level for this profile (1 = standard single-layer).
    pub fn rpu_level(self) -> (l: u8)
        ensures
            l == spec_rpu_level(self),
    {
        match self {
            DoviProfile::Profile5 => 1,
            DoviProfile::Profile81 => 6,
            DoviProfile::Profile84 => 6,
        }
    }

    /// Whether this profile carries an enhancement layer: profiles 5 and 8.x do not.
    pub fn has_el(self) -> (b: bool)
        ensures
            !b,
    {
        false
    }

    /// The profile's display name.
    pub fn to_string(&self) -> (s: String)
        ensures
            s@ == (match *self {
                DoviProfile::Profile5 => "Dolby Vision Profile 5"@,
                DoviProfile::Profile81 => "Dolby Vision Profile 8.1"@,
                DoviProfile::Profile84 => "Dolby Vision Profile 8.4"@,
            }),
    {
        match self {
            DoviProfile::Profile5 => "Dolby Vision Profile 5".to_owned(),
            DoviProfile::Profile81 => "Dolby Vision Profile 8.1".to_owned(),
            DoviProfile::Profile84 => "Dolby Vision Profile 8.4".to_owned(),
        }
    }
}

// ── Configuration ───────────────────────────────────────────────────────────

/// Fixed-point codes of the trim-pass parameters, as the RPU carries them.
#[derive(Debug, Clone, Copy, PartialEq, Eq, Structural)]
pub struct TrimCodes {
    /// Trim slope in s2.13 fixed point (slope 1.0 is 8192).
    pub slope_fp: u16,
    /// Trim offset in two's complement s2.13 fixed point.
    pub offset_fp: u16,
    /// Trim power in 4.8 fixed point (power 1.0 is 256), at most 4095.
    pub power_fp: u16,
    /// Trim slope coefficient, 1024 steps per unit, at most 4095.
    pub slope_bias: u16,
    /// Trim offset coefficient, 1024 steps per unit, at most 4095.
    pub offset_bias: u16,
    /// Trim power coefficient, 1024 steps per unit, at most 4095.
    pub power_bias: u16,
}

/// The codes of the neutral trim pass: slope 1.0, offset 0.0, power 1.0.
pub open spec fn neutral_trim() -> TrimCodes {
    TrimCodes {
        slope_fp: 8192,
        offset_fp: 0,
        power_fp: 256,
        slope_bias: 1024,
        offset_bias: 0,
        power_bias: 1024,
    }
}

/// Configuration for [`DoviRpuBuilder`].
///
/// All PQ values use the 12-bit PQ code scale (0–4095), consistent with the SMPTE
/// ST 2084 signal range used in Dolby Vision streams.
#[derive(Debug, Clone, Copy, PartialEq, Eq, Structural)]
pub struct DoviRpuConfig {
    /// Dolby Vision profile to encode.
    pub profile: DoviProfile,
    /// Base-layer maximum PQ code value (default 3079 ≈ 1000 nits).
    pub bl_max_pq: u16,
    /// Enhancement-layer maximum PQ code value (for dual-layer; ignored for P5/P8).
    pub el_max_pq: u16,
    /// Target display maximum PQ code value (e.g. 2081 ≈ 100 nits / SDR TV).
    pub target_max_pq: u16,
    /// Trim-pass parameters in their coded form.
    pub trim: TrimCodes,
}

/// The default configuration of a profile: a 1000-nit base layer (PQ 3079) mastered
/// for a 100-nit target (PQ 2081), with the neutral trim pass.
pub open spec fn spec_default_config(p: DoviProfile) -> DoviRpuConfig {
    DoviRpuConfig { profile: p, bl_max_pq: 3079, el_max_pq: 3079, target_max_pq: 2081, trim: neutral_trim() }
}

impl DoviRpuConfig {
    fn default_for(profile: DoviProfile) -> (c: Self)
        ensures
            c == spec_default_config(profile),
    {
        DoviRpuConfig {
            profile,
            bl_max_pq: 3079,
            el_max_pq: 3079,
            target_max_pq: 2081,
            trim: TrimCodes {
                slope_fp: 8192,
                offset_fp: 0,
                power_fp: 256,
                slope_bias: 1024,
                offset_bias: 0,
                power_bias: 1024,
            },
        }
    }

    /// Default configuration for Profile 8.1 targeting a 1000-nit display mastered for
    /// 100-nit SDR playback.
    pub fn profile81_default() -> (c: Self)
        ensures
            c == spec_default_config(DoviProfile::Profile81),
    {
        Self::default_for(DoviProfile::Profile81)
    }

    /// Default configuration for Profile 5 (PQ-only single-layer).
    pub fn profile5_default() -> (c: Self)
        ensures
            c == spec_default_config(DoviProfile::Profile5),
    {
        Self::default_for(DoviProfile::Profile5)
    }

    /// Default configuration for Profile 8.4 (HLG base layer).
    pub fn profile84_default() -> (c: Self)
        ensures
            c == spec_default_config(DoviProfile::Profile84),
    {
        Self::default_for(DoviProfile::Profile84)
    }
}

// ── RPU layout ──────────────────────────────────────────────────────────────

/// RPU NAL prefix and `dv_rpu_data_header`: prefix 0x19 (8 bits), rpu_type 2 (4),
/// rpu_format = profile·256 + level (13), profile (4), level (4), three flags
/// 0, 0, 1 (extended/EL resampling off, residual disabled), DM data present 1 and
/// use_prev_vdr_rpu 0.
pub open spec fn header_bits(p: DoviProfile) -> Seq<bool> {
    field_bits(0x19, 8) + field_bits(2, 4) + field_bits(
        (spec_profile_id(p) * 256 + spec_rpu_level(p)) as nat,
        13,
    ) + field_bits(spec_profile_id(p) as nat, 4) + field_bits(spec_rpu_level(p) as nat, 4)
        + field_bits(0, 1) + field_bits(0, 1) + field_bits(1, 1) + field_bits(1, 1) + field_bits(0, 1)
}

/// Mapping curve of component `comp` (0 = luma): 2 pivots (coded 0, 4 bits), pivots
/// 0 and the top (the base-layer maximum capped at 4095 for luma, 4095 for chroma;
/// 12 bits each), polynomial mapping 0 (4 bits), order 1 (4 bits), then the linear
/// and constant coefficients (16 bits each): the trim slope and offset for luma,
/// identity (0x2000, 0) for chroma.
pub open spec fn curve_bits(c: DoviRpuConfig, comp: nat) -> Seq<bool> {
    let piv1: nat = if comp == 0 {
        if c.bl_max_pq <= 4095 {
            c.bl_max_pq as nat
        } else {
            4095
        }
    } else {
        4095
    };
    let a1: nat = if comp == 0 {
        c.trim.slope_fp as nat
    } else {
        0x2000
    };
    let a0: nat = if comp == 0 {
        c.trim.offset_fp as nat
    } else {
        0
    };
    field_bits(0, 4) + field_bits(0, 12) + field_bits(piv1, 12) + field_bits(0, 4) + field_bits(1, 4)
        + field_bits(a1, 16) + field_bits(a0, 16)
}

/// `k` neutral 12-bit fields (0x800) in a row.
pub open spec fn neutral_run(k: nat) -> Seq<bool>
    decreases k,
{
    if k == 0 {
        Seq::empty()
    } else {
        neutral_run((k - 1) as nat) + field_bits(0x800, 12)
    }
}

/// Display-management metadata: the level 1, level 4 (trim pass) and level 5
/// (active area) blocks, the last ending with the end marker.
pub open spec fn dm_bits(c: DoviRpuConfig) -> Seq<bool> {
    dm_level1_bits(c) + dm_level4_bits(c) + dm_level5_bits()
}

/// Level 1 block: id 1 (8 bits), limited range 0 (1 bit), source minimum 0 and
/// maximum = base-layer maximum (12 bits each).
pub open spec fn dm_level1_bits(c: DoviRpuConfig) -> Seq<bool> {
    field_bits(1, 8) + field_bits(0, 1) + field_bits(0, 12) + field_bits((c.bl_max_pq % 4096) as nat, 12)
}

/// Level 4 trim pass: id 4 (8 bits), then 12-bit fields: anchor = target maximum,
/// power, slope, offset and power coefficients, chroma weight and six saturation
/// fields, all neutral at 0x800.
pub open spec fn dm_level4_bits(c: DoviRpuConfig) -> Seq<bool> {
    field_bits(4, 8) + field_bits((c.target_max_pq % 4096) as nat, 12) + field_bits(
        c.trim.power_fp as nat,
        12,
    ) + field_bits(c.trim.slope_bias as nat, 12) + field_bits(c.trim.offset_bias as nat, 12)
        + field_bits(c.trim.power_bias as nat, 12) + neutral_run(7)
}

/// Level 5 active area: id 5 (8 bits), canvas 1920x1080 and area 0..1920 by 0..1080
/// (13 bits each), then the end marker 255 (8 bits).
pub open spec fn dm_level5_bits() -> Seq<bool> {
    field_bits(5, 8) + field_bits(1920, 13) + field_bits(1080, 13) + field_bits(0, 13) + field_bits(
        1920,
        13,
    ) + field_bits(0, 13) + field_bits(1080, 13) + field_bits(0xFF, 8)
}

/// The frame counter: the low 32 bits of the frame index, high half then low half
/// (16 bits each).
pub open spec fn frame_bits(frame_idx: u64) -> Seq<bool> {
    let fi = frame_idx as nat % 0x1_0000_0000;
    field_bits(fi / 0x10000, 16) + field_bits(fi % 0x10000, 16)
}

/// All bits of an RPU before the trailing bits.
pub open spec fn rpu_body_bits(c: DoviRpuConfig, frame_idx: u64) -> Seq<bool> {
    header_bits(c.profile) + curve_bits(c, 0) + curve_bits(c, 1) + curve_bits(c, 2) + dm_bits(c)
        + frame_bits(frame_idx)
}

/// The bytes of the RPU NAL payload of a configuration and frame index.
pub open spec fn rpu_payload(c: DoviRpuConfig, frame_idx: u64) -> Seq<u8> {
    let body = rpu_body_bits(c, frame_idx);
    pack(body + trailing_bits(body.len()))
}

/// SEI size coding: one 0xFF byte per full 255, then the remainder.
pub open spec fn sei_size_bytes(value: nat) -> Seq<u8> {
    Seq::new(value / 255, |i: int| 0xFFu8) + seq![(value % 255) as u8]
}

/// An HEVC prefix SEI NAL unit carrying `payload` as user data of type 62: NAL header
/// 0x4E 0x01, payload type and size, the payload, and the RBSP trailing byte 0x80.
pub open spec fn sei_message(payload: Seq<u8>) -> Seq<u8> {
    seq![0x4Eu8, 0x01u8] + sei_size_bytes(62) + sei_size_bytes(payload.len()) + payload + seq![0x80u8]
}

/// Write a HEVC SEI payload-type or payload-size field using the standard "run of
/// 0xFF bytes then remainder" encoding.
pub fn encode_exp_golomb_sei_size(out: &mut Vec<u8>, value: usize)
    ensures
        final(out)@ == old(out)@ + sei_size_bytes(value as nat),
{
    let ghost start = out@;
    let mut v = value;
    let mut k: usize = 0;
    while v >= 0xFF
        invariant
            v + 255 * k == value,
            out@ == start + Seq::new(k as nat, |i: int| 0xFFu8),
        decreases v,
    {
        out.push(0xFF);
        v -= 0xFF;
        proof {
            assert(Seq::new((k + 1) as nat, |i: int| 0xFFu8) =~= Seq::new(k as nat, |i: int| 0xFFu8).push(
                0xFFu8,
            ));
        }
        k += 1;
    }
    out.push(v as u8);
    proof {
        assert(k == value / 255 && v == value % 255) by (nonlinear_arith)
            requires
                v + 255 * k == value,
                v < 255,
        ;
        assert(out@ =~= start + sei_size_bytes(value as nat));
    }
}

/// Dolby Vision RPU NAL unit builder.
///
/// Produces a byte vector representing a complete RPU NAL payload for each call to
/// [`build_rpu_payload`](DoviRpuBuilder::build_rpu_payload). The output is
/// frame-independent except for `frame_idx`, which is embedded in a reserved field
/// for diagnostic tracing.
#[derive(Debug, Clone)]
pub struct DoviRpuBuilder {
    config: DoviRpuConfig,
}

impl DoviRpuBuilder {
    /// The configuration the builder encodes.
    pub closed spec fn spec_config(&self) -> DoviRpuConfig {
        self.config
    }

    /// Create a new builder with the given configuration.
    pub fn new(config: DoviRpuConfig) -> (b: Self)
        ensures
            b.spec_config() == config,
    {
        DoviRpuBuilder { config }
    }

    /// Build a minimal, structurally-valid Dolby Vision RPU NAL payload.
    ///
    /// The output starts with the DV RPU NAL prefix byte (`0x19`) followed by the
    /// encoded RPU data and RBSP trailing bits.
    ///
    /// `frame_idx` is written into a reserved frame-counter field for stream
    /// debugging; it does not affect the semantic content of the RPU.
    pub fn build_rpu_payload(&self, frame_idx: u64) -> (bytes: Vec<u8>)
        ensures
            bytes@ == rpu_payload(self.spec_config(), frame_idx),
    {
        let mut bw = BitWriter::new();
        self.write_header(&mut bw);
        self.write_mapping_curves(&mut bw);
        self.write_vdr_dm_data(&mut bw);
        let fi = (frame_idx & 0xFFFF_FFFF) as u32;
        let ghost before = bw.bits();
        bw.write_bits(fi >> 16, 16);
        bw.write_bits(fi & 0xFFFF, 16);
        proof {
            assert((frame_idx & 0xFFFF_FFFF) as u32 == frame_idx % 0x1_0000_0000) by (bit_vector);
            assert(fi >> 16 == fi / 0x10000) by (bit_vector);
            assert(fi & 0xFFFF == fi % 0x10000) by (bit_vector);
            assert(bw.bits() =~= before + frame_bits(frame_idx));
            assert(bw.bits() =~= rpu_body_bits(self.config, frame_idx));
        }
        bw.write_rbsp_trailing_bits();
        bw.into_bytes()
    }

    fn write_header(&self, bw: &mut BitWriter)
        requires
            old(bw).wf(),
            old(bw).bits() == Seq::<bool>::empty(),
        ensures
            final(bw).wf(),
            final(bw).bits() == header_bits(self.config.profile),
    {
        let pid = self.config.profile.profile_id();
        let level = self.config.profile.rpu_level();
        bw.write_bits(0x19u32, 8);
        bw.write_bits(2u32, 4);
        let rpu_format: u16 = (pid as u16) * 256 + (level as u16);
        bw.write_bits(rpu_format as u32, 13);
        bw.write_bits(pid as u32, 4);
        bw.write_bits(level as u32, 4);
        bw.write_bits(0u32, 1);
        bw.write_bits(0u32, 1);
        bw.write_bits(1u32, 1);
        bw.write_bits(1u32, 1);
        bw.write_bits(0u32, 1);
        proof {
            assert(bw.bits() =~= header_bits(self.config.profile));
        }
    }

    /// Write per-component polynomial mapping curves.
    ///
    /// Uses a linear (degree-1) polynomial mapping that implements the configured
    /// trim-pass slope and offset. Three components (Y, Cb, Cr) are written; chroma
    /// components use identity mapping.
    fn write_mapping_curves(&self, bw: &mut BitWriter)
        requires
            old(bw).wf(),
        ensures
            final(bw).wf(),
            final(bw).bits() == old(bw).bits() + curve_bits(self.config, 0) + curve_bits(self.config, 1)
                + curve_bits(self.config, 2),
    {
        let ghost start = bw.bits();
        let mut comp: u8 = 0;
        while comp < 3
            invariant
                comp <= 3,
                bw.wf(),
                bw.bits() == start + (if comp == 0 {
                    Seq::<bool>::empty()
                } else if comp == 1 {
                    curve_bits(self.config, 0)
                } else if comp == 2 {
                    curve_bits(self.config, 0) + curve_bits(self.config, 1)
                } else {
                    curve_bits(self.config, 0) + curve_bits(self.config, 1) + curve_bits(self.config, 2)
                }),
            decreases 3 - comp,
        {
            let ghost before = bw.bits();
            bw.write_bits(0u32, 4);
            let piv1: u16 = if comp == 0 {
                if self.config.bl_max_pq <= 4095 {
                    self.config.bl_max_pq
                } else {
                    4095
                }
            } else {
                4095
            };
            bw.write_bits(0u32, 12);
            bw.write_bits(piv1 as u32, 12);
            bw.write_bits(0u32, 4);
            bw.write_bits(1u32, 4);
            if comp == 0 {
                bw.write_bits(self.config.trim.slope_fp as u32, 16);
                bw.write_bits(self.config.trim.offset_fp as u32, 16);
            } else {
                bw.write_bits(0x2000u32, 16);
                bw.write_bits(0u32, 16);
            }
            proof {
                assert(bw.bits() =~= before + curve_bits(self.config, comp as nat));
            }
            comp += 1;
        }
    }

    /// Write VDR display management data (trim passes for target display).
    fn write_vdr_dm_data(&self, bw: &mut BitWriter)
        requires
            old(bw).wf(),
        ensures
            final(bw).wf(),
            final(bw).bits() == old(bw).bits() + dm_bits(self.config),
    {
        let ghost start = bw.bits();
        self.write_dm_level1(bw);
        self.write_dm_level4(bw);
        Self::write_dm_level5(bw);
        proof {
            assert(bw.bits() =~= start + dm_bits(self.config));
        }
    }

    fn write_dm_level1(&self, bw: &mut BitWriter)
        requires
            old(bw).wf(),
        ensures
            final(bw).wf(),
            final(bw).bits() == old(bw).bits() + dm_level1_bits(self.config),
    {
        let ghost start = bw.bits();
        let bl = self.config.bl_max_pq as u32;
        bw.write_bits(1u32, 8);
        bw.write_bits(0u32, 1);
        bw.write_bits(0u32, 12);
        bw.write_bits(bl & 0xFFF, 12);
        proof {
            assert((bl & 0xFFF) == bl % 4096) by (bit_vector);
            assert(bw.bits() =~= start + dm_level1_bits(self.config));
        }
    }

    fn write_dm_level4(&self, bw: &mut BitWriter)
        requires
            old(bw).wf(),
        ensures
            final(bw).wf(),
            final(bw).bits() == old(bw).bits() + dm_level4_bits(self.config),
    {
        let ghost start = bw.bits();
        let tg = self.config.target_max_pq as u32;
        bw.write_bits(4u32, 8);
        bw.write_bits(tg & 0xFFF, 12);
        bw.write_bits(self.config.trim.power_fp as u32, 12);
        bw.write_bits(self.config.trim.slope_bias as u32, 12);
        bw.write_bits(self.config.trim.offset_bias as u32, 12);
        bw.write_bits(self.config.trim.power_bias as u32, 12);
        let ghost mid = bw.bits();
        bw.write_bits(0x800u32, 12);
        proof {
            reveal_with_fuel(neutral_run, 2);
            assert(bw.bits() =~= mid + neutral_run(1));
        }
        let mut k: u32 = 0;
        while k < 6
            invariant
                k <= 6,
                bw.wf(),
                bw.bits() == mid + neutral_run((k + 1) as nat),
            decreases 6 - k,
        {
            bw.write_bits(0x800u32, 12);
            proof {
                assert(bw.bits() =~= mid + neutral_run((k + 2) as nat));
            }
            k += 1;
        }
        proof {
            assert((tg & 0xFFF) == tg % 4096) by (bit_vector);
            assert(bw.bits() =~= start + dm_level4_bits(self.config));
        }
    }

    fn write_dm_level5(bw: &mut BitWriter)
        requires
            old(bw).wf(),
        ensures
            final(bw).wf(),
            final(bw).bits() == old(bw).bits() + dm_level5_bits(),
    {
        let ghost start = bw.bits();
        bw.write_bits(5u32, 8);
        bw.write_bits(1920u32, 13);
        bw.write_bits(1080u32, 13);
        bw.write_bits(0u32, 13);
        bw.write_bits(1920u32, 13);
        bw.write_bits(0u32, 13);
        bw.write_bits(1080u32, 13);
        bw.write_bits(0xFFu32, 8);
        proof {
            assert(bw.bits() =~= start + dm_level5_bits());
        }
    }

    /// Wrap a raw RPU payload in an HEVC SEI NAL unit (SEI type 62).
    pub fn build_sei_message(&self, rpu_payload: &[u8]) -> (out: Vec<u8>)
        ensures
            out@ == sei_message(rpu_payload@),
    {
        let mut out: Vec<u8> = Vec::new();
        out.push(0x4E);
        out.push(0x01);
        encode_exp_golomb_sei_size(&mut out, 62);
        encode_exp_golomb_sei_size(&mut out, rpu_payload.len());
        let ghost before = out@;
        let mut i: usize = 0;
        while i < rpu_payload.len()
            invariant
                i <= rpu_payload@.len(),
                out@ == before + rpu_payload@.take(i as int),
            decreases rpu_payload@.len() - i,
        {
            out.push(rpu_payload[i]);
            proof {
                assert(rpu_payload@.take(i + 1) =~= rpu_payload@.take(i as int).push(rpu_payload@[i as int]));
            }
            i += 1;
        }
        out.push(0x80);
        proof {
            assert(rpu_payload@.take(rpu_payload@.len() as int) =~= rpu_payload@);
            assert(out@ =~= sei_message(rpu_payload@));
        }
        out
    }
}

/// Every RPU payload starts with the NAL prefix byte 0x19, and the frame index never
/// changes its length.
pub proof fn lemma_payload_prefix_and_length(c: DoviRpuConfig, f: u64, g: u64)
    ensures
        rpu_payload(c, f).len() > 0,
        rpu_payload(c, f)[0] == 0x19,
        rpu_payload(c, f).len() == rpu_payload(c, g).len(),
{
    let body_f = rpu_body_bits(c, f);
    let body_g = rpu_body_bits(c, g);
    assert(frame_bits(f).len() == frame_bits(g).len());
    assert(body_f.len() == body_g.len());
    let all = body_f + trailing_bits(body_f.len());
    assert(all.len() >= 8);
    let first = all.subrange(0, 8);
    assert(first =~= field_bits(0x19, 8));
    reveal_with_fuel(bit_of, 9);
    assert(field_bits(0x19, 8) =~= seq![false, false, false, true, true, false, false, true]);
    reveal_with_fuel(bits_value, 9);
    let b = seq![false, false, false, true, true, false, false, true];
    assert(b.drop_last() =~= seq![false, false, false, true, true, false, false]);
    assert(b.drop_last().drop_last() =~= seq![false, false, false, true, true, false]);
    assert(b.drop_last().drop_last().drop_last() =~= seq![false, false, false, true, true]);
    assert(b.drop_last().drop_last().drop_last().drop_last() =~= seq![false, false, false, true]);
    assert(b.drop_last().drop_last().drop_last().drop_last().drop_last() =~= seq![false, false, false]);
    assert(bits_value(seq![false, false, false]) == 0) by {
        assert(seq![false, false, false].drop_last() =~= seq![false, false]);
        assert(seq![false, false].drop_last() =~= seq![false]);
        assert(seq![false].drop_last() =~= Seq::<bool>::empty());
    }
    assert(bits_value(b) == 0x19);
}

/// Every SEI message opens with the NAL header 0x4E 0x01, carries the payload
/// unchanged after the type and size fields, and ends with the trailing byte 0x80.
pub proof fn lemma_sei_message_layout(payload: Seq<u8>)
    ensures
        ({
            let m = sei_message(payload);
            let start = 2 + sei_size_bytes(62).len() + sei_size_bytes(payload.len()).len();
            &&& m[0] == 0x4E
            &&& m[1] == 0x01
            &&& m.subrange(start as int, (start + payload.len()) as int) == payload
            &&& m.len() == start + payload.len() + 1
            &&& m.last() == 0x80
        }),
{
    let m = sei_message(payload);
    let start = 2 + sei_size_bytes(62).len() + sei_size_bytes(payload.len()).len();
    assert(m.subrange(start as int, (start + payload.len()) as int) =~= payload);
}

/// The binary digits of the value of `b` are `b`.
proof fn lemma_field_bits_of_value(b: Seq<bool>)
    ensures
        field_bits(bits_value(b), b.len()) == b,
    decreases b.len(),
{
    if b.len() > 0 {
        let p = b.drop_last();
        lemma_field_bits_of_value(p);
        let v = bits_value(b);
        assert(v / 2 == bits_value(p));
        assert forall|i: int| 0 <= i < b.len() implies #[trigger] field_bits(v, b.len())[i] == b[i] by {
            if i == b.len() - 1 {
                assert(bit_of(v, 0) == (v % 2 == 1));
            } else {
                assert(bit_of(v, (b.len() - 1 - i) as nat) == bit_of(v / 2, (b.len() - 2 - i) as nat));
                assert(field_bits(bits_value(p), p.len())[i] == p[i]);
            }
        }
        assert(field_bits(v, b.len()) =~= b);
    }
}

/// The value of the `n` low bits of `v` is `v`, for `v` below `2^n`.
proof fn lemma_value_of_field_bits(v: nat, n: nat)
    requires
        v < exp2(n),
    ensures
        bits_value(field_bits(v, n)) == v,
    decreases n,
{
    if n > 0 {
        let f = field_bits(v, n);
        assert(f.drop_last() =~= field_bits(v / 2, (n - 1) as nat)) by {
            assert forall|i: int| 0 <= i < n - 1 implies f.drop_last()[i] == field_bits(v / 2, (n - 1) as nat)[i] by {
                assert(bit_of(v, (n - 1 - i) as nat) == bit_of(v / 2, (n - 2 - i) as nat));
            }
        }
        lemma_value_of_field_bits(v / 2, (n - 1) as nat);
        assert(f.last() == bit_of(v, 0));
    } else {
        assert(v == 0);
    }
}

/// A value with a one among its binary digits is not zero.
proof fn lemma_value_positive(b: Seq<bool>, k: int)
    requires
        0 <= k < b.len(),
        b[k],
    ensures
        bits_value(b) > 0,
    decreases b.len(),
{
    if k < b.len() - 1 {
        lemma_value_positive(b.drop_last(), k);
    }
}

/// Whole-byte bit strings with the same bytes are equal.
proof fn lemma_pack_injective(x: Seq<bool>, y: Seq<bool>)
    requires
        x.len() == y.len(),
        x.len() % 8 == 0,
        pack(x) == pack(y),
    ensures
        x == y,
{
    assert(exp2(8) == 256) by {
        reveal_with_fuel(exp2, 9);
    }
    assert forall|i: int| 0 <= i < x.len() implies x[i] == y[i] by {
        let k = i / 8;
        let cx = x.subrange(8 * k, 8 * k + 8);
        let cy = y.subrange(8 * k, 8 * k + 8);
        lemma_bits_value_bound(cx);
        lemma_bits_value_bound(cy);
        assert(0 <= k < x.len() / 8 && 8 * k + 8 <= x.len()) by (nonlinear_arith)
            requires
                0 <= i < x.len(),
                x.len() % 8 == 0,
                k == i / 8,
        ;
        assert(pack(x)[k] == bits_value(cx) as u8);
        assert(pack(y)[k] == bits_value(cy) as u8);
        assert(pack(x)[k] == pack(y)[k]);
        assert(bits_value(cx) == bits_value(cy));
        assert(0 <= i - 8 * k < 8);
        lemma_field_bits_of_value(cx);
        lemma_field_bits_of_value(cy);
        assert(cx[i - 8 * k] == cy[i - 8 * k]);
    }
    assert(x =~= y);
}

/// Every RPU payload ends with a non-zero byte (it holds the stop bit of the RBSP
/// trailing bits), and two payloads of one configuration are equal exactly when the
/// low 32 bits of their frame indices are.
pub proof fn lemma_payload_tail_and_frame_index(c: DoviRpuConfig, f: u64, g: u64)
    ensures
        rpu_payload(c, f).last() != 0,
        rpu_payload(c, f) == rpu_payload(c, g) <==> f as nat % 0x1_0000_0000 == g as nat % 0x1_0000_0000,
{
    lemma_payload_prefix_and_length(c, f, g);
    let body_f = rpu_body_bits(c, f);
    let body_g = rpu_body_bits(c, g);
    let all_f = body_f + trailing_bits(body_f.len());
    let all_g = body_g + trailing_bits(body_g.len());
    let n = all_f.len();
    assert(n % 8 == 0);
    assert(all_g.len() == n);
    // the stop bit lies in the last byte
    let last = all_f.subrange(n - 8, n as int);
    assert(all_f[body_f.len() as int]);
    assert(last[body_f.len() - (n - 8)]);
    lemma_value_positive(last, body_f.len() - (n - 8));
    lemma_bits_value_bound(last);
    assert(exp2(8) == 256) by {
        reveal_with_fuel(exp2, 9);
    }
    assert(rpu_payload(c, f).last() == bits_value(last) as u8);
    // the frame counter is the last 32 bits of the body
    let fi = f as nat % 0x1_0000_0000;
    let gi = g as nat % 0x1_0000_0000;
    if rpu_payload(c, f) == rpu_payload(c, g) {
        lemma_pack_injective(all_f, all_g);
        let m = body_f.len();
        assert(body_f =~= all_f.subrange(0, m as int));
        assert(body_g =~= all_g.subrange(0, m as int));
        assert(frame_bits(f) =~= body_f.subrange(m - 32, m as int));
        assert(frame_bits(g) =~= body_g.subrange(m - 32, m as int));
        assert(frame_bits(f) == frame_bits(g));
        assert(field_bits(fi / 0x10000, 16) =~= frame_bits(f).subrange(0, 16));
        assert(field_bits(gi / 0x10000, 16) =~= frame_bits(g).subrange(0, 16));
        assert(field_bits(fi % 0x10000, 16) =~= frame_bits(f).subrange(16, 32));
        assert(field_bits(gi % 0x10000, 16) =~= frame_bits(g).subrange(16, 32));
        assert(exp2(16) == 0x10000) by {
            reveal_with_fuel(exp2, 17);
        }
        lemma_value_of_field_bits(fi / 0x10000, 16);
        lemma_value_of_field_bits(gi / 0x10000, 16);
        lemma_value_of_field_bits(fi % 0x10000, 16);
        lemma_value_of_field_bits(gi % 0x10000, 16);
        assert(fi == gi);
    }
    if fi == gi {
        assert(frame_bits(f) =~= frame_bits(g));
        assert(body_f =~= body_g);
    }
}

} // verus!
