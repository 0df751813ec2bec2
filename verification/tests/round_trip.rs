//! What is written is read back, and what is read is JSON.

use isojson::decode::{Json, Member};
use isojson::document::{dumps_value, Body, DictEntry, Value};
use isojson::encode::{IntRead, KeyRead};
use isojson::loads::run;
use isojson::opts::{OPT_APPEND_NEWLINE, OPT_INDENT_2, OPT_SORT_KEYS};

fn val(body: Body) -> Value {
    Value {
        exact: true,
        body,
        reply: vec![],
    }
}

fn bytes(s: &str) -> Vec<u8> {
    s.as_bytes().to_vec()
}

/// The value that a document is written from.
fn value(j: &Json) -> Value {
    val(match j {
        Json::Null => Body::Null,
        Json::Bool(b) => Body::Bool(*b),
        Json::I64(v) => Body::Int(IntRead::Fits(*v)),
        Json::U64(v) => Body::Int(match i64::try_from(*v) {
            Ok(v) => IntRead::Fits(v),
            Err(_) => IntRead::Above(Some(*v)),
        }),
        Json::F64(bits) => Body::Float {
            bits: *bits,
            digits: bytes(zmij::Buffer::new().format_finite(f64::from_bits(*bits))),
        },
        Json::Str(s) => Body::Str(Some(s.clone())),
        Json::Array(items) => Body::List(items.iter().map(value).collect()),
        Json::Object(members) => Body::Dict(
            members
                .iter()
                .map(|m| DictEntry {
                    key: KeyRead::Utf8(m.key.clone()),
                    value: value(&m.value),
                })
                .collect(),
        ),
    })
}

fn same(a: &Json, b: &Json) -> bool {
    match (a, b) {
        (Json::Null, Json::Null) => true,
        (Json::Bool(a), Json::Bool(b)) => a == b,
        (Json::I64(a), Json::I64(b)) => a == b,
        (Json::U64(a), Json::U64(b)) => a == b,
        (Json::F64(a), Json::F64(b)) => a == b,
        (Json::Str(a), Json::Str(b)) => a == b,
        (Json::Array(a), Json::Array(b)) => {
            a.len() == b.len() && a.iter().zip(b).all(|(a, b)| same(a, b))
        }
        (Json::Object(a), Json::Object(b)) => {
            a.len() == b.len()
                && a.iter()
                    .zip(b)
                    .all(|(a, b)| a.key == b.key && same(&a.value, &b.value))
        }
        _ => false,
    }
}

fn member(k: &str, value: Json) -> Member {
    Member {
        key: bytes(k),
        value,
    }
}

fn document() -> Json {
    let every_byte: String = (0u8..0x80).map(char::from).collect();
    Json::Array(vec![
        Json::Null,
        Json::Bool(true),
        Json::Bool(false),
        Json::I64(i64::MIN),
        Json::I64(-1),
        Json::U64(0),
        Json::U64(i64::MAX as u64),
        Json::U64(u64::MAX),
        Json::F64(2.5f64.to_bits()),
        Json::F64((-0.0f64).to_bits()),
        Json::F64(f64::MAX.to_bits()),
        Json::F64(f64::MIN_POSITIVE.to_bits()),
        Json::F64(5e-324f64.to_bits()),
        Json::F64(1e23f64.to_bits()),
        Json::Str(vec![]),
        Json::Str(every_byte.into_bytes()),
        Json::Str(bytes("é日本🔥\u{7f}\u{80}\u{ffff}\u{10ffff}\\\"/")),
        Json::Array(vec![]),
        Json::Object(vec![]),
        Json::Array(vec![Json::Array(vec![Json::Array(vec![Json::Null])])]),
        Json::Object(vec![
            member("", Json::Null),
            member("a\n", Json::Object(vec![member("é", Json::U64(1))])),
            member("b", Json::Array(vec![Json::Bool(true), Json::Str(bytes("x"))])),
        ]),
    ])
}

#[test]
fn loads_gives_back_what_dumps_wrote() {
    let doc = document();
    for opts in [
        0,
        OPT_INDENT_2,
        OPT_APPEND_NEWLINE,
        OPT_SORT_KEYS,
        OPT_INDENT_2 | OPT_SORT_KEYS | OPT_APPEND_NEWLINE,
    ] {
        let text = dumps_value(&value(&doc), opts, false).unwrap();
        assert!(String::from_utf8(text.clone()).is_ok());
        let read = run(&text).ok().unwrap();
        assert!(same(&read, &doc), "{}", String::from_utf8(text).unwrap());
    }
}

#[test]
fn the_deepest_document_is_read_back() {
    let mut doc = Json::Array(vec![]);
    for _ in 1..254 {
        doc = Json::Array(vec![doc]);
    }
    let text = dumps_value(&value(&doc), OPT_INDENT_2, false).unwrap();
    assert!(same(&run(&text).ok().unwrap(), &doc));
}

/// The end of the JSON value at `i`, past white space before it.
fn json(s: &[u8], i: usize) -> Option<usize> {
    let i = white(s, i);
    match *s.get(i)? {
        b'"' => string(s, i),
        b'[' => {
            let mut j = white(s, i + 1);
            if s.get(j) == Some(&b']') {
                return Some(j + 1);
            }
            loop {
                j = white(s, json(s, j)?);
                match s.get(j)? {
                    b']' => return Some(j + 1),
                    b',' => j += 1,
                    _ => return None,
                }
            }
        }
        b'{' => {
            let mut j = white(s, i + 1);
            if s.get(j) == Some(&b'}') {
                return Some(j + 1);
            }
            loop {
                j = white(s, string(s, white(s, j))?);
                if s.get(j) != Some(&b':') {
                    return None;
                }
                j = white(s, json(s, j + 1)?);
                match s.get(j)? {
                    b'}' => return Some(j + 1),
                    b',' => j += 1,
                    _ => return None,
                }
            }
        }
        b'n' => s[i..].starts_with(b"null").then_some(i + 4),
        b't' => s[i..].starts_with(b"true").then_some(i + 4),
        b'f' => s[i..].starts_with(b"false").then_some(i + 5),
        _ => number(s, i),
    }
}

fn white(s: &[u8], mut i: usize) -> usize {
    while i < s.len() && matches!(s[i], b' ' | b'\t' | b'\n' | b'\r') {
        i += 1;
    }
    i
}

fn digits(s: &[u8], mut i: usize) -> usize {
    while i < s.len() && s[i].is_ascii_digit() {
        i += 1;
    }
    i
}

fn number(s: &[u8], i: usize) -> Option<usize> {
    let i = if s[i] == b'-' { i + 1 } else { i };
    let mut j = digits(s, i);
    if j == i || (s[i] == b'0' && j > i + 1) {
        return None;
    }
    if s.get(j) == Some(&b'.') {
        let k = digits(s, j + 1);
        if k == j + 1 {
            return None;
        }
        j = k;
    }
    if matches!(s.get(j), Some(b'e' | b'E')) {
        let k = if matches!(s.get(j + 1), Some(b'+' | b'-')) {
            j + 2
        } else {
            j + 1
        };
        let l = digits(s, k);
        if l == k {
            return None;
        }
        j = l;
    }
    match s.get(j) {
        Some(b'0'..=b'9' | b'-' | b'+' | b'.' | b'e' | b'E') => None,
        _ => Some(j),
    }
}

fn hex4(s: &[u8], i: usize) -> Option<u32> {
    let h = s.get(i..i + 4)?;
    if !h.iter().all(u8::is_ascii_hexdigit) {
        return None;
    }
    u32::from_str_radix(std::str::from_utf8(h).ok()?, 16).ok()
}

fn string(s: &[u8], i: usize) -> Option<usize> {
    if s.get(i) != Some(&b'"') {
        return None;
    }
    let mut i = i + 1;
    loop {
        match *s.get(i)? {
            b'"' => return Some(i + 1),
            b'\\' => match s.get(i + 1)? {
                b'"' | b'\\' | b'/' | b'b' | b'f' | b'n' | b'r' | b't' => i += 2,
                b'u' => match hex4(s, i + 2)? {
                    0xd800..=0xdbff => {
                        if s.get(i + 6..i + 8) != Some(b"\\u") {
                            return None;
                        }
                        if !(0xdc00..0xe000).contains(&hex4(s, i + 8)?) {
                            return None;
                        }
                        i += 12;
                    }
                    0xdc00..=0xdfff => return None,
                    _ => i += 6,
                },
                _ => return None,
            },
            0..=0x1f => return None,
            _ => i += 1,
        }
    }
}

fn is_json(s: &[u8]) -> bool {
    std::str::from_utf8(s).is_ok() && json(s, 0).map(|i| white(s, i)) == Some(s.len())
}

/// Every text of up to `len` pieces.
fn every_text(pieces: &[&[u8]], len: usize, text: &mut Vec<u8>, accepted: &mut usize) {
    assert_eq!(run(text).is_ok(), is_json(text), "{text:?}");
    if run(text).is_ok() {
        *accepted += 1;
    }
    if len == 0 {
        return;
    }
    for p in pieces {
        let before = text.len();
        text.extend_from_slice(p);
        every_text(pieces, len - 1, text, accepted);
        text.truncate(before);
    }
}

#[test]
fn json_is_read_and_nothing_else() {
    let mut accepted = 0;
    every_text(
        &[
            b"[", b"]", b"{", b"}", b",", b":", b"\"", b"1", b"null", b" ", b"x",
        ],
        5,
        &mut vec![],
        &mut accepted,
    );
    assert!(accepted > 100);
}

#[test]
fn numbers_are_read_and_nothing_like_them() {
    let mut accepted = 0;
    every_text(
        &[b"0", b"1", b"-", b"+", b".", b"e", b"E", b"[", b"]", b"\0"],
        5,
        &mut vec![],
        &mut accepted,
    );
    assert!(accepted > 100);
}

#[test]
fn strings_are_read_and_nothing_like_them() {
    let mut accepted = 0;
    for (head, tail) in [("\"", "\""), ("[\"", "\"]"), ("{\"", "\":\"\"}")] {
        let pieces: [&[u8]; 11] = [
            b"\\",
            b"\"",
            b"u",
            b"\\ud800",
            b"\\udc00",
            b"0041",
            b"n",
            b"\x1f",
            b"\xc3",
            b"\xa9",
            b"0123456789abcdef0123456789abcdef",
        ];
        let mut text = vec![];
        inside(&pieces, 4, head, tail, &mut text, &mut accepted);
    }
    assert!(accepted > 100);
}

fn inside(
    pieces: &[&[u8]],
    len: usize,
    head: &str,
    tail: &str,
    text: &mut Vec<u8>,
    accepted: &mut usize,
) {
    let whole = [head.as_bytes(), text.as_slice(), tail.as_bytes()].concat();
    assert_eq!(run(&whole).is_ok(), is_json(&whole), "{whole:?}");
    if run(&whole).is_ok() {
        *accepted += 1;
    }
    if len == 0 {
        return;
    }
    for p in pieces {
        let before = text.len();
        text.extend_from_slice(p);
        inside(pieces, len - 1, head, tail, text, accepted);
        text.truncate(before);
    }
}

#[test]
fn numbers_at_the_edge_of_doubles() {
    let largest = format!("{:.0}", f64::MAX);
    assert!(run(largest.as_bytes()).is_ok());
    // halfway between the largest double and the next power of two, and just below
    let half = "17976931348623158079372897140530341507993413271003782693617377898044496829276475\
                09466490179775872070963302864166928879109465555478519404026306574886715058206819\
                08902000708383676273854845817711531764475730270069855571366959622842914819860834\
                936475292719074168444365510704342711559699508093042880177904174497792";
    let below = "17976931348623158079372897140530341507993413271003782693617377898044496829276475\
                09466490179775872070963302864166928879109465555478519404026306574886715058206819\
                08902000708383676273854845817711531764475730270069855571366959622842914819860834\
                936475292719074168444365510704342711559699508093042880177904174497791";
    assert!(run(half.as_bytes()).is_err());
    assert!(run(below.as_bytes()).is_ok());
    for (start, digits) in [
        (1_797_693_134u64, 10),
        (179_769_313_486_231, 15),
        (17_976_931_348_623_157, 17),
        (179_769_313_486_231_570, 18),
        (1_797_693_134_862_315_700, 19),
    ] {
        for n in start..start + 300 {
            for s in [
                format!("{n}e{}", 309 - digits),
                format!("-{n}e{}", 309 - digits),
                format!(
                    "{}.{}e308",
                    n / 10u64.pow(digits - 1),
                    n % 10u64.pow(digits - 1)
                ),
            ] {
                let finite = s.parse::<f64>().unwrap().is_finite();
                assert_eq!(run(s.as_bytes()).is_ok(), finite, "{s}");
            }
        }
    }
    for s in ["1.7976931348623157e308", "1.7976931348623158e+308", "-1.7976931348623157e308"] {
        assert!(run(s.as_bytes()).is_ok(), "{s}");
    }
    for s in ["1.797693134862316e308", "2e308", "-1e309", "1e99999999999", "10e308"] {
        assert!(run(s.as_bytes()).is_err(), "{s}");
    }
    for s in ["0e99999999999", "1e-99999999999", "0.00001e312", "123456789e-400"] {
        assert!(run(s.as_bytes()).is_ok(), "{s}");
    }
    assert!(run(&[b"1".as_slice(), &[b'0'; 308]].concat()).is_ok());
    assert!(run(&[b"1".as_slice(), &[b'0'; 309]].concat()).is_err());
}

#[test]
fn a_number_becomes_the_nearest_double() {
    let read = |s: &str| match run(s.as_bytes()) {
        Ok(Json::F64(bits)) => bits,
        Ok(_) => panic!("{s} is no float"),
        Err(e) => panic!("{s}: {}", e.msg),
    };
    let mut x = 1u64;
    let mut random = || {
        x ^= x << 13;
        x ^= x >> 7;
        x ^= x << 17;
        x
    };
    for _ in 0..200_000 {
        // any double, as it is written, and other spellings near it
        let v = f64::from_bits(random());
        if !v.is_finite() {
            continue;
        }
        let text = zmij::Buffer::new().format_finite(v).to_string();
        assert_eq!(read(&text), v.to_bits(), "{text}");
        let places = (random() % 24) as usize;
        let text = format!("{v:.places$e}");
        if text.parse::<f64>().unwrap().is_finite() {
            assert_eq!(read(&text), text.parse::<f64>().unwrap().to_bits(), "{text}");
        }
    }
    // exponents of any length
    let zeros = "0".repeat(30_000);
    for (text, v) in [
        (format!("0.{zeros}e99999999999"), 0f64),
        (format!("-0.{zeros}{zeros}{zeros}e999999"), -0f64),
        (format!("0.{zeros}1e30001"), 1f64),
        (format!("1{zeros}e-30000"), 1f64),
        (format!("1{zeros}e-655360"), 0f64),
        ("-1e-99999999999".to_string(), -0f64),
    ] {
        assert_eq!(read(&text), v.to_bits(), "{v}");
    }
    for text in [format!("0.{zeros}1e655360"), "1e655360".to_string()] {
        assert!(run(text.as_bytes()).is_err());
    }
    // halfway between two doubles, the even one is taken
    for (text, v) in [
        ("9007199254740993.0", 9007199254740992f64),
        ("9007199254740995.0", 9007199254740996f64),
        ("9007199254740993.00000000000000000001", 9007199254740994f64),
        ("36893488147419103231", 36893488147419103232f64),
        ("2.4703282292062327e-324", 0f64),
        ("2.4703282292062328e-324", 5e-324),
        ("-0.0", -0f64),
        ("-1e-400", -0f64),
    ] {
        assert_eq!(read(text), v.to_bits(), "{text}");
    }
}
