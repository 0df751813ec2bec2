//! Strings, integers, literals, indents and the buffer that they go to.

use isojson::escape::{copy_plain, write_escaped};
use isojson::indent::newline_indent;
use isojson::literal::{write_bool, write_null};
use isojson::number::write_int;
use isojson::out::Out;

fn escaped(s: &[u8]) -> Vec<u8> {
    let mut out = Out::new(0);
    write_escaped(&mut out, s);
    out.finish()
}

#[test]
fn strings_are_escaped() {
    assert_eq!(escaped(b""), b"\"\"");
    assert_eq!(escaped(b"hello, world"), b"\"hello, world\"");
    assert_eq!(escaped(b"a\"b\\c"), b"\"a\\\"b\\\\c\"");
    assert_eq!(escaped(b"\x08\t\n\x0c\r"), b"\"\\b\\t\\n\\f\\r\"");
    assert_eq!(escaped(b"\x00\x1f\x0b"), b"\"\\u0000\\u001f\\u000b\"");
    assert_eq!(escaped(b"\x7f/"), b"\"\x7f/\"");
    assert_eq!(escaped("日本 🔥 é".as_bytes()), "\"日本 🔥 é\"".as_bytes());
    assert_eq!(
        escaped(b"a long run of plain text, then \"quotes\" and\nmore"),
        b"\"a long run of plain text, then \\\"quotes\\\" and\\nmore\""
    );
}

#[test]
fn every_control_character_is_escaped() {
    for b in 0..0x20u8 {
        let want = match b {
            8 => "\\b".to_string(),
            9 => "\\t".to_string(),
            10 => "\\n".to_string(),
            12 => "\\f".to_string(),
            13 => "\\r".to_string(),
            _ => format!("\\u{b:04x}"),
        };
        let mut s = b"0123456789".to_vec();
        s.insert(5, b);
        assert_eq!(
            escaped(&s),
            format!("\"01234{want}56789\"").into_bytes(),
            "{b}"
        );
    }
}

#[test]
fn plain_text_is_copied_up_to_the_first_special() {
    let mut out = Out::new(0);
    assert_eq!(copy_plain(b"abc\"def", 1, &mut out), 3);
    assert_eq!(copy_plain(b"abc\"def", 4, &mut out), 7);
    assert_eq!(out.finish(), b"bcdef");
}

#[test]
fn integers_are_decimal() {
    for v in [
        0i128,
        7,
        -7,
        10,
        -10,
        i64::MIN as i128,
        i64::MAX as i128,
        u64::MAX as i128,
        9007199254740991,
        i128::MIN,
        i128::MAX,
    ] {
        let mut out = Out::new(0);
        write_int(&mut out, v);
        assert_eq!(out.finish(), v.to_string().into_bytes());
    }
}

#[test]
fn literals_and_indents() {
    let mut out = Out::new(0);
    write_null(&mut out);
    write_bool(&mut out, true);
    write_bool(&mut out, false);
    newline_indent(&mut out, 0);
    newline_indent(&mut out, 3);
    assert_eq!(out.finish(), b"nulltruefalse\n\n      ");
}

#[test]
fn the_buffer_keeps_what_is_written() {
    let mut out = Out::new(1000);
    assert_eq!(out.len(), 0);
    for i in 0..5000u32 {
        out.push((i % 251) as u8);
    }
    out.extend_from_slice(b"tail");
    out.reserve(10);
    assert_eq!(out.len(), 5004);
    out.set_len(5002);
    out.extend_from_slice(b"!");
    let v = out.finish();
    assert_eq!(v.len(), 5003);
    assert_eq!(v[4999], (4999 % 251) as u8);
    assert_eq!(&v[5000..], b"ta!");
}
