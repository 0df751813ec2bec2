//! Word-at-a-time scanning, against the same questions asked byte by byte.

use isojson::swar::{
    find_special, has_special, has_zero, is_4digits, is_8digits, is_ascii, load, load4,
    parse_4digits, parse_8digits,
};

fn special(b: u8) -> bool {
    b < 0x20 || b == b'"' || b == b'\\'
}

#[test]
fn loads_are_little_endian() {
    let s = [1u8, 2, 3, 4, 5, 6, 7, 8, 9];
    assert_eq!(load(&s, 0), 0x0807_0605_0403_0201);
    assert_eq!(load(&s, 1), 0x0908_0706_0504_0302);
    assert_eq!(load4(&s, 0), 0x0403_0201);
    assert_eq!(load4(&s, 5), 0x0908_0706);
}

#[test]
fn zero_bytes_are_marked_from_the_first() {
    assert_eq!(has_zero(0x0101_0101_0101_0101), 0);
    assert_eq!(has_zero(u64::MAX), 0);
    assert_eq!(has_zero(0x0101_0101_0101_0100), 0x8080_8080_8080_8080);
    assert_eq!(has_zero(0x00ff_ffff_ffff_ffff), 0x8000_0000_0000_0000);
    assert_eq!(has_zero(0xff00_ffff_ffff_ffff).trailing_zeros(), 55);
}

#[test]
fn every_byte_is_judged_in_every_place() {
    for at in 0..8 {
        for b in 0..=255u8 {
            let mut s = [b'x'; 8];
            s[at] = b;
            assert_eq!(has_special(load(&s, 0)), special(b), "{b} at {at}");
            let mut s = [b'7'; 8];
            s[at] = b;
            assert_eq!(is_8digits(load(&s, 0)), b.is_ascii_digit(), "{b} at {at}");
            if at < 4 {
                assert_eq!(is_4digits(load4(&s, 0)), b.is_ascii_digit(), "{b} at {at}");
            }
        }
    }
}

#[test]
fn first_special_is_found() {
    assert_eq!(find_special(b"", 0), None);
    assert_eq!(find_special(b"plain text, and more", 0), None);
    assert_eq!(find_special(b"plain \"quoted\"", 0), Some(6));
    assert_eq!(find_special(b"plain \"quoted\"", 7), Some(13));
    assert_eq!(find_special(b"01234567890123456789\\", 3), Some(20));
    assert_eq!(find_special(b"0123456\n", 0), Some(7));
    assert_eq!(find_special(b"\"", 1), None);
    assert_eq!(find_special(b"\"", 100), None);
    assert_eq!(find_special("é 日本 ÿ\u{1f}".as_bytes(), 0), Some(12));
}

#[test]
fn ascii_is_recognised() {
    assert!(is_ascii(b""));
    assert!(is_ascii(b"0123456789abcdef\x7f"));
    assert!(!is_ascii(b"0123456789abcdef\x80"));
    assert!(!is_ascii("é0123456789".as_bytes()));
}

#[test]
fn digits_are_read() {
    for n in [0u64, 1, 9, 10, 12345678, 99999999, 90000001, 20260924] {
        let s = format!("{n:08}");
        assert_eq!(parse_8digits(load(s.as_bytes(), 0)), n);
    }
    for n in 0..10000u64 {
        let s = format!("{n:04}");
        assert_eq!(parse_4digits(load4(s.as_bytes(), 0)), n);
    }
}
