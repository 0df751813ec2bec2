//! Floats by their bits.

use isojson::float::{f16_to_f32, is_finite32, is_finite64, write_f32, write_f64};
use isojson::out::Out;

#[test]
fn what_is_not_finite_is_null() {
    for v in [f64::NAN, f64::INFINITY, f64::NEG_INFINITY] {
        assert!(!is_finite64(v.to_bits()));
        let mut out = Out::new(0);
        write_f64(&mut out, v.to_bits(), b"unused");
        assert_eq!(out.finish(), b"null");
    }
    for v in [f32::NAN, f32::INFINITY, f32::NEG_INFINITY] {
        assert!(!is_finite32(v.to_bits()));
        let mut out = Out::new(0);
        write_f32(&mut out, v.to_bits(), b"unused");
        assert_eq!(out.finish(), b"null");
    }
}

#[test]
fn what_is_finite_is_its_digits() {
    for v in [0.0f64, -0.0, 1.5, 1e300, f64::MIN_POSITIVE, f64::MAX, 5e-324] {
        assert!(is_finite64(v.to_bits()));
        let digits = zmij::Buffer::new().format_finite(v).to_string();
        let mut out = Out::new(0);
        write_f64(&mut out, v.to_bits(), digits.as_bytes());
        let text = String::from_utf8(out.finish()).unwrap();
        assert_eq!(text.parse::<f64>().unwrap().to_bits(), v.to_bits());
    }
    let mut out = Out::new(0);
    write_f32(&mut out, 0.1f32.to_bits(), b"0.1");
    assert_eq!(out.finish(), b"0.1");
}

/// A half by the definition of the format.
fn half(i: u16) -> f32 {
    let sign = if i & 0x8000 != 0 { -1.0f32 } else { 1.0 };
    let e = (i >> 10 & 0x1f) as i32;
    let m = (i & 0x3ff) as f32;
    if e == 0 {
        sign * m * 2f32.powi(-24)
    } else {
        sign * (1024.0 + m) * 2f32.powi(e - 25)
    }
}

#[test]
fn every_half_widens_exactly() {
    for i in 0..=u16::MAX {
        let got = f16_to_f32(i);
        if i & 0x7c00 == 0x7c00 {
            let f = f32::from_bits(got);
            if i & 0x3ff == 0 {
                assert_eq!(f, if i & 0x8000 != 0 { f32::NEG_INFINITY } else { f32::INFINITY });
            } else {
                assert!(f.is_nan());
                // quiet, with the fraction in the high bits
                let fraction = 0x0040_0000 | ((i as u32 & 0x3ff) << 13);
                assert_eq!(got, ((i as u32 & 0x8000) << 16) | 0x7f80_0000 | fraction);
            }
        } else {
            assert_eq!(got, half(i).to_bits(), "{i:#x}");
        }
    }
}
