use oximedia::dovi_rpu::{
    encode_exp_golomb_sei_size, BitWriter, DoviProfile, DoviRpuBuilder, DoviRpuConfig, TrimCodes,
};

// ── DoviProfile ──────────────────────────────────────────────────────

#[test]
fn test_profile_ids() {
    assert_eq!(DoviProfile::Profile5.profile_id(), 5);
    assert_eq!(DoviProfile::Profile81.profile_id(), 8);
    assert_eq!(DoviProfile::Profile84.profile_id(), 8);
}

#[test]
fn test_profile_no_el() {
    assert!(!DoviProfile::Profile5.has_el());
    assert!(!DoviProfile::Profile81.has_el());
    assert!(!DoviProfile::Profile84.has_el());
}

#[test]
fn test_profile_display() {
    assert!(DoviProfile::Profile5.to_string().contains("5"));
    assert!(DoviProfile::Profile81.to_string().contains("8.1"));
    assert!(DoviProfile::Profile84.to_string().contains("8.4"));
}

// ── DoviRpuConfig ────────────────────────────────────────────────────

#[test]
fn test_profile81_default_config() {
    let cfg = DoviRpuConfig::profile81_default();
    assert_eq!(cfg.profile, DoviProfile::Profile81);
    assert_eq!(cfg.bl_max_pq, 3079);
    assert_eq!(cfg.target_max_pq, 2081);
    // trim slope 1.0, in s2.13 fixed point
    assert_eq!(cfg.trim.slope_fp, 8192);
}

#[test]
fn test_profile5_default_config() {
    let cfg = DoviRpuConfig::profile5_default();
    assert_eq!(cfg.profile, DoviProfile::Profile5);
}

#[test]
fn test_profile84_default_config() {
    let cfg = DoviRpuConfig::profile84_default();
    assert_eq!(cfg.profile, DoviProfile::Profile84);
}

// ── BitWriter ────────────────────────────────────────────────────────

#[test]
fn test_bitwriter_single_byte() {
    let mut bw = BitWriter::new();
    bw.write_bits(0xA5u32, 8);
    bw.write_rbsp_trailing_bits();
    let bytes = bw.into_bytes();
    assert_eq!(bytes[0], 0xA5);
}

#[test]
fn test_bitwriter_partial_byte_padding() {
    let mut bw = BitWriter::new();
    bw.write_bits(0b111u32, 3); // 3 bits
    bw.write_rbsp_trailing_bits(); // 1-bit + 4 bits padding → total 8 bits
    let bytes = bw.into_bytes();
    assert_eq!(bytes.len(), 1);
    // 111_1_0000 = 0xF0
    assert_eq!(bytes[0], 0b1111_0000);
}

#[test]
fn test_bitwriter_zero_bits() {
    let mut bw = BitWriter::new();
    bw.write_bits(0u32, 8);
    bw.write_rbsp_trailing_bits();
    let bytes = bw.into_bytes();
    assert_eq!(bytes[0], 0x00);
}

// ── build_rpu_payload ────────────────────────────────────────────────

#[test]
fn test_build_rpu_payload_non_empty() {
    let builder = DoviRpuBuilder::new(DoviRpuConfig::profile81_default());
    let payload = builder.build_rpu_payload(0);
    assert!(!payload.is_empty(), "RPU payload must not be empty");
}

#[test]
fn test_build_rpu_payload_starts_with_prefix() {
    let builder = DoviRpuBuilder::new(DoviRpuConfig::profile81_default());
    let payload = builder.build_rpu_payload(0);
    assert_eq!(
        payload[0], 0x19,
        "RPU NAL must start with 0x19 prefix, got 0x{:02X}",
        payload[0]
    );
}

#[test]
fn test_build_rpu_payload_frame_idx_variation() {
    let builder = DoviRpuBuilder::new(DoviRpuConfig::profile81_default());
    let p0 = builder.build_rpu_payload(0);
    let p1 = builder.build_rpu_payload(1);
    // Same length.
    assert_eq!(
        p0.len(),
        p1.len(),
        "frame index should not change payload length"
    );
    // Content differs because frame_idx is encoded.
    assert_ne!(p0, p1, "payloads for different frames should differ");
}

#[test]
fn test_build_rpu_profile5() {
    let builder = DoviRpuBuilder::new(DoviRpuConfig::profile5_default());
    let payload = builder.build_rpu_payload(0);
    assert_eq!(payload[0], 0x19);
    assert!(payload.len() >= 4);
}

#[test]
fn test_build_rpu_profile84() {
    let builder = DoviRpuBuilder::new(DoviRpuConfig::profile84_default());
    let payload = builder.build_rpu_payload(42);
    assert_eq!(payload[0], 0x19);
    assert!(!payload.is_empty());
}

// ── build_sei_message ─────────────────────────────────────────────────

#[test]
fn test_build_sei_message_non_empty() {
    let builder = DoviRpuBuilder::new(DoviRpuConfig::profile81_default());
    let payload = builder.build_rpu_payload(0);
    let sei = builder.build_sei_message(&payload);
    assert!(!sei.is_empty());
}

#[test]
fn test_build_sei_message_header_bytes() {
    let builder = DoviRpuBuilder::new(DoviRpuConfig::profile81_default());
    let payload = builder.build_rpu_payload(0);
    let sei = builder.build_sei_message(&payload);
    // First 2 bytes are the NAL unit header (PREFIX_SEI_NUT).
    assert_eq!(sei[0], 0x4E, "NAL header byte 0 should be 0x4E");
    assert_eq!(sei[1], 0x01, "NAL header byte 1 should be 0x01");
}

#[test]
fn test_build_sei_message_ends_with_trailing_bits() {
    let builder = DoviRpuBuilder::new(DoviRpuConfig::profile81_default());
    let payload = builder.build_rpu_payload(0);
    let sei = builder.build_sei_message(&payload);
    assert_eq!(
        *sei.last().unwrap_or(&0),
        0x80,
        "SEI must end with RBSP trailing bits 0x80"
    );
}

#[test]
fn test_build_sei_contains_payload() {
    let builder = DoviRpuBuilder::new(DoviRpuConfig::profile81_default());
    let payload = builder.build_rpu_payload(0);
    let sei = builder.build_sei_message(&payload);
    // The payload bytes must be present somewhere in the SEI.
    let sei_body = &sei[..sei.len().saturating_sub(1)]; // strip trailing 0x80
    assert!(
        sei_body.windows(payload.len()).any(|w| w == payload),
        "SEI should contain the raw RPU payload"
    );
}

// ── encode_exp_golomb_sei_size ────────────────────────────────────────

#[test]
fn test_sei_size_encoding_small() {
    let mut out = Vec::new();
    encode_exp_golomb_sei_size(&mut out, 62);
    assert_eq!(out, vec![62u8]);
}

#[test]
fn test_sei_size_encoding_large() {
    let mut out = Vec::new();
    encode_exp_golomb_sei_size(&mut out, 300);
    // 300 = 255 + 45 → [0xFF, 0x2D]
    assert_eq!(out, vec![0xFF, 45u8]);
}

#[test]
fn test_sei_size_encoding_exact_255() {
    let mut out = Vec::new();
    encode_exp_golomb_sei_size(&mut out, 255);
    assert_eq!(out, vec![0xFF, 0x00]);
}

// ── Payload bytes against an independent bit packer ───────────────────

/// MSB-first bit packer used to write the expected payloads field by field.
struct Packer {
    bits: Vec<bool>,
}

impl Packer {
    fn put(&mut self, value: u32, n: u32) {
        for i in (0..n).rev() {
            self.bits.push((value >> i) & 1 == 1);
        }
    }

    fn finish(mut self) -> Vec<u8> {
        self.bits.push(true);
        while self.bits.len() % 8 != 0 {
            self.bits.push(false);
        }
        self.bits
            .chunks(8)
            .map(|c| c.iter().fold(0u8, |acc, &b| (acc << 1) | u8::from(b)))
            .collect()
    }
}

fn expected_payload(cfg: &DoviRpuConfig, frame_idx: u64) -> Vec<u8> {
    let mut p = Packer { bits: Vec::new() };
    let pid = u32::from(cfg.profile.profile_id());
    let level = u32::from(cfg.profile.rpu_level());
    p.put(0x19, 8);
    p.put(2, 4);
    p.put((pid << 8) | level, 13);
    p.put(pid, 4);
    p.put(level, 4);
    p.put(0, 1);
    p.put(0, 1);
    p.put(1, 1);
    p.put(1, 1);
    p.put(0, 1);
    for comp in 0..3 {
        p.put(0, 4);
        p.put(0, 12);
        p.put(if comp == 0 { u32::from(cfg.bl_max_pq.min(4095)) } else { 4095 }, 12);
        p.put(0, 4);
        p.put(1, 4);
        if comp == 0 {
            p.put(u32::from(cfg.trim.slope_fp), 16);
            p.put(u32::from(cfg.trim.offset_fp), 16);
        } else {
            p.put(0x2000, 16);
            p.put(0, 16);
        }
    }
    p.put(1, 8);
    p.put(0, 1);
    p.put(0, 12);
    p.put(u32::from(cfg.bl_max_pq) & 0xFFF, 12);
    p.put(4, 8);
    p.put(u32::from(cfg.target_max_pq) & 0xFFF, 12);
    p.put(u32::from(cfg.trim.power_fp), 12);
    p.put(u32::from(cfg.trim.slope_bias), 12);
    p.put(u32::from(cfg.trim.offset_bias), 12);
    p.put(u32::from(cfg.trim.power_bias), 12);
    for _ in 0..7 {
        p.put(0x800, 12);
    }
    p.put(5, 8);
    for v in [1920, 1080, 0, 1920, 0, 1080] {
        p.put(v, 13);
    }
    p.put(0xFF, 8);
    let fi = (frame_idx & 0xFFFF_FFFF) as u32;
    p.put(fi >> 16, 16);
    p.put(fi & 0xFFFF, 16);
    p.finish()
}

#[test]
fn payload_bytes_match_field_layout() {
    for cfg in [
        DoviRpuConfig::profile81_default(),
        DoviRpuConfig::profile5_default(),
        DoviRpuConfig::profile84_default(),
    ] {
        let builder = DoviRpuBuilder::new(cfg);
        for frame_idx in [0u64, 1, 42, 0x1_2345_6789, u64::MAX] {
            assert_eq!(builder.build_rpu_payload(frame_idx), expected_payload(&cfg, frame_idx));
        }
    }
}

#[test]
fn payload_caps_luma_pivot_and_masks_dm_fields() {
    let cfg = DoviRpuConfig {
        profile: DoviProfile::Profile81,
        bl_max_pq: 5000,
        el_max_pq: 0,
        target_max_pq: 4100,
        trim: TrimCodes {
            slope_fp: 9000,
            offset_fp: 0xFF00,
            power_fp: 300,
            slope_bias: 1100,
            offset_bias: 12,
            power_bias: 4095,
        },
    };
    let builder = DoviRpuBuilder::new(cfg);
    assert_eq!(builder.build_rpu_payload(7), expected_payload(&cfg, 7));
}

#[test]
fn payload_frame_index_uses_low_32_bits() {
    let builder = DoviRpuBuilder::new(DoviRpuConfig::profile81_default());
    assert_eq!(builder.build_rpu_payload(5), builder.build_rpu_payload(5 + (1u64 << 32)));
}

#[test]
fn sei_size_encoding_zero_and_510() {
    let mut out = Vec::new();
    encode_exp_golomb_sei_size(&mut out, 0);
    assert_eq!(out, vec![0u8]);
    let mut out = vec![9u8];
    encode_exp_golomb_sei_size(&mut out, 510);
    assert_eq!(out, vec![9u8, 0xFF, 0xFF, 0]);
}

#[test]
fn sei_message_exact_layout() {
    let builder = DoviRpuBuilder::new(DoviRpuConfig::profile81_default());
    let sei = builder.build_sei_message(&[1, 2, 3]);
    assert_eq!(sei, vec![0x4E, 0x01, 62, 3, 1, 2, 3, 0x80]);
}

#[test]
fn payload_tail_and_frame_index_law() {
    for cfg in [
        DoviRpuConfig::profile81_default(),
        DoviRpuConfig::profile5_default(),
        DoviRpuConfig::profile84_default(),
    ] {
        let builder = DoviRpuBuilder::new(cfg);
        for i in [0u64, 1, 0xFFFF, 0x1_0000, 0xFFFF_FFFF, 0x1_0000_0000, u64::MAX] {
            let p = builder.build_rpu_payload(i);
            assert_ne!(*p.last().unwrap(), 0);
            for j in [0u64, 1, 0x1_0000, 0x1_0000_0000, 0x1_0000_0001, u64::MAX] {
                let q = builder.build_rpu_payload(j);
                assert_eq!(p == q, (i & 0xFFFF_FFFF) == (j & 0xFFFF_FFFF), "{i} {j}");
            }
        }
    }
}
