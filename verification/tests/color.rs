use truckmap::color::{decode_srgb, encode_srgb, DECODE_TABLE, ENCODE_THRESHOLDS, LINEAR_ONE};

fn transfer(c: f64) -> f64 {
    if c <= 0.04045 {
        c / 12.92
    } else {
        ((c + 0.055) / 1.055).powf(2.4)
    }
}

fn inverse_transfer(l: f64) -> f64 {
    if l <= 0.0031308 {
        12.92 * l
    } else {
        1.055 * l.powf(1.0 / 2.4) - 0.055
    }
}

#[test]
fn decode_matches_the_transfer_function() {
    for code in 0..=255u8 {
        let exact = transfer(code as f64 / 255.0) * LINEAR_ONE as f64;
        assert_eq!(decode_srgb(code), exact.round() as u32, "code {}", code);
    }
}

#[test]
fn decode_exact_values() {
    assert_eq!(decode_srgb(0), 0);
    assert_eq!(decode_srgb(1), 5092);
    assert_eq!(decode_srgb(10), 50923);
    assert_eq!(decode_srgb(11), 56146);
    assert_eq!(decode_srgb(254), 16627934);
    assert_eq!(decode_srgb(255), 16777216);
    assert_eq!(LINEAR_ONE, 1 << 24);
}

#[test]
fn thresholds_lie_half_a_code_below() {
    assert_eq!(ENCODE_THRESHOLDS[0], 0);
    for code in 1..=255usize {
        let exact = transfer((code as f64 - 0.5) / 255.0) * LINEAR_ONE as f64;
        assert_eq!(ENCODE_THRESHOLDS[code], exact.ceil() as u32, "code {}", code);
    }
}

#[test]
fn encode_decode_is_the_identity_on_codes() {
    for code in 0..=255u8 {
        assert_eq!(encode_srgb(decode_srgb(code)), code);
    }
}

#[test]
fn decode_is_increasing() {
    for code in 0..255u8 {
        assert!(decode_srgb(code) < decode_srgb(code + 1));
        assert_eq!(DECODE_TABLE[code as usize], decode_srgb(code));
    }
}

#[test]
fn encode_rounds_in_display_space() {
    let mut linear: u32 = 0;
    while linear <= LINEAR_ONE {
        let display = inverse_transfer(linear as f64 / LINEAR_ONE as f64) * 255.0;
        let code = encode_srgb(linear) as f64;
        assert!((display - code).abs() <= 0.5 + 1e-6, "linear {}", linear);
        linear += 4099;
    }
}

#[test]
fn encode_exact_values() {
    assert_eq!(encode_srgb(0), 0);
    assert_eq!(encode_srgb(2546), 0);
    assert_eq!(encode_srgb(2547), 1);
    assert_eq!(encode_srgb(7638), 1);
    assert_eq!(encode_srgb(7639), 2);
    assert_eq!(encode_srgb(LINEAR_ONE / 2), 188);
    assert_eq!(encode_srgb(LINEAR_ONE / 4), 137);
    assert_eq!(encode_srgb(16702477), 254);
    assert_eq!(encode_srgb(16702478), 255);
    assert_eq!(encode_srgb(LINEAR_ONE), 255);
}

#[test]
fn encode_clamps_above_full_intensity() {
    assert_eq!(encode_srgb(LINEAR_ONE + 1), 255);
    assert_eq!(encode_srgb(4 * LINEAR_ONE), 255);
    assert_eq!(encode_srgb(u32::MAX), 255);
}

#[test]
fn encode_never_decreases() {
    let mut last = 0u8;
    let mut linear: u32 = 0;
    while linear <= LINEAR_ONE {
        let code = encode_srgb(linear);
        assert!(code >= last);
        last = code;
        linear += 1021;
    }
    assert_eq!(last, 255);
}
