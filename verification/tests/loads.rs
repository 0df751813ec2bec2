//! Documents that are read.

use isojson::decode::{build, Json, Member};
use isojson::loads::{char_pos, describe, finish_parse, loads, run, Input, Refusal};
use isojson::tape::TapeNode;

fn show(j: &Json) -> String {
    match j {
        Json::Null => "null".to_string(),
        Json::Bool(b) => b.to_string(),
        Json::I64(v) => format!("i{v}"),
        Json::U64(v) => format!("u{v}"),
        Json::F64(v) => format!("f{}", f64::from_bits(*v)),
        Json::Str(s) => format!("{:?}", String::from_utf8(s.clone()).unwrap()),
        Json::Array(items) => {
            let items: Vec<String> = items.iter().map(show).collect();
            format!("[{}]", items.join(","))
        }
        Json::Object(members) => {
            let members: Vec<String> = members
                .iter()
                .map(|Member { key, value }| {
                    format!(
                        "{:?}:{}",
                        String::from_utf8(key.clone()).unwrap(),
                        show(value)
                    )
                })
                .collect();
            format!("{{{}}}", members.join(","))
        }
    }
}

fn read(s: &str) -> String {
    match run(s.as_bytes()) {
        Ok(j) => show(&j),
        Err(e) => format!("{} at {}", e.msg, e.pos),
    }
}

#[test]
fn documents_are_read() {
    assert_eq!(read("{\"a\":[1,2.5,null]}"), "{\"a\":[u1,f2.5,null]}");
    assert_eq!(
        read(" [true , false, \"x\\n\\u00e9\", -3, [], {}, {\"k\": {\"k\": []}}] "),
        "[true,false,\"x\\né\",i-3,[],{},{\"k\":{\"k\":[]}}]"
    );
    assert_eq!(read("\"text\""), "\"text\"");
    assert_eq!(read("18446744073709551615"), "u18446744073709551615");
    assert_eq!(read("-9223372036854775808"), "i-9223372036854775808");
    assert_eq!(read("{\"a\":1,\"a\":2}"), "{\"a\":u1,\"a\":u2}");
}

#[test]
fn numbers_at_the_limits() {
    assert_eq!(read("-0"), "i0");
    assert_eq!(read("-0.0"), "f-0");
    assert_eq!(read("18446744073709551616"), "f18446744073709552000");
    assert_eq!(read("-9223372036854775809"), format!("f{}", -9223372036854775808f64));
    assert_eq!(read("1e308"), format!("f{}", 1e308));
    assert!(read("1e400").starts_with("invalid number"));
    assert_eq!(read("1e-400"), "f0");
}

#[test]
fn nothing_but_white_space_is_no_document() {
    for s in ["", " ", "\t\r\n  "] {
        assert_eq!(read(s), "Input is a zero-length, empty document at 0");
    }
}

#[test]
fn a_lone_surrogate_is_rejected() {
    for s in ["\"\\ud800\"", "\"\\ud800\\u0041\"", "[\"\\ud800x\"]"] {
        assert!(
            read(s).starts_with("invalid unicode code point (lone surrogate?) in string"),
            "{}",
            read(s)
        );
    }
    assert_eq!(read("\"\\ud83d\\udd25\""), "\"🔥\"");
}

#[test]
fn errors_are_sentences() {
    for s in ["{", "[1,", "[1 2]", "{\"a\" 1}", "{1:2}", "nul", "\"abc", "01", "1 2", "}"] {
        match run(s.as_bytes()) {
            Ok(j) => panic!("{s} read as {}", show(&j)),
            Err(e) => assert!(
                e.msg.contains(' ') && !e.msg.contains('('),
                "{s}: {}",
                e.msg
            ),
        }
    }
    assert!(run(b"\"\xff\"").is_err());
}

#[test]
fn containers_nest_1024_deep() {
    let doc = |n: usize| format!("{}{}", "[".repeat(n), "]".repeat(n));
    assert_eq!(read(&doc(1024)), doc(1024));
    assert!(read(&doc(1025)).starts_with("depth limit exceeded"));
}

#[test]
fn every_kind_of_error_has_its_sentence() {
    let cases = [
        ("Eof", "unexpected end of data"),
        ("TrailingData", "unexpected content after document"),
        ("UnterminatedString", "unterminated string"),
        ("InvalidEscape", "invalid escape sequence in string"),
        ("InvalidUnicodeEscape", "invalid \\u escape in string"),
        (
            "InvalidUnicodeCodepoint",
            "invalid unicode code point (lone surrogate?) in string",
        ),
        ("InvalidUtf8", "input is not valid UTF-8"),
        ("InvalidNumber", "invalid number"),
        ("InvalidExponent", "invalid number exponent"),
        ("DepthLimitExceeded", "depth limit exceeded"),
        ("ExpectedArrayComma", "expected ',' or ']' in array"),
        ("ExpectedMapComma", "expected ',' or '}' in object"),
        ("ExpectedObjectColon", "expected ':' after object key"),
        ("ExpectedObjectKey", "object key must be a string"),
        ("KeyMustBeAString", "object key must be a string"),
        ("BadKeyType", "object key must be a string"),
        ("ExpectedMapEnd", "expected '}' at end of object"),
        (
            "ExpectedArrayContent",
            "unexpected character, expected a JSON value",
        ),
        (
            "ExpectedObjectContent",
            "unexpected character, expected a JSON value",
        ),
        ("ExpectedNull", "unexpected character, expected a JSON value"),
        ("ExpectedTrue", "unexpected character, expected a JSON value"),
        (
            "ExpectedFalse",
            "unexpected character, expected a JSON value",
        ),
        ("UnexpectedCharacter", "unexpected character"),
        ("NoStructure", "unexpected character"),
        ("Syntax", "unexpected character"),
        (
            "InputTooLarge",
            "input is too large (simd-json limit: 4 GiB)",
        ),
        ("InternalError", "invalid JSON"),
        ("Serde(\"x\")", "invalid JSON"),
    ];
    for (name, want) in cases {
        assert_eq!(describe(name), want);
    }
    // the names are those that the parser's own `Debug` gives
    assert_eq!(format!("{:?}", simd_json::ErrorType::Eof), "Eof");
    assert_eq!(
        format!("{:?}", simd_json::ErrorType::InvalidUnicodeCodepoint),
        "InvalidUnicodeCodepoint"
    );
}

#[test]
fn positions_count_characters() {
    let s = "[\"é日🔥\",x]".as_bytes();
    assert_eq!(char_pos(s, 0), 0);
    assert_eq!(char_pos(s, 2), 2);
    assert_eq!(char_pos(s, 4), 3);
    assert_eq!(char_pos(s, 7), 4);
    assert_eq!(char_pos(s, 11), 5);
    assert_eq!(char_pos(s, s.len()), 9);
    assert_eq!(char_pos(s, 1000), 9);
    let at = s.iter().position(|&b| b == b'x').unwrap();
    let refusal = Refusal {
        name: "InvalidNumber".to_string(),
        index: at,
    };
    match finish_parse(s, Err(refusal)) {
        Ok(_) => panic!("read"),
        Err(e) => {
            assert_eq!(e.msg, "invalid number");
            assert_eq!(e.pos, 7);
        }
    }
}

#[test]
fn what_is_no_document_at_all() {
    let message = |input: Input| match loads(input) {
        Ok(_) => panic!("read"),
        Err(e) => (e.msg, e.pos),
    };
    assert_eq!(
        message(Input::Other),
        (
            "Input must be bytes, bytearray, memoryview, or str".to_string(),
            0
        )
    );
    assert_eq!(
        message(Input::Text(None)),
        (
            "str is not valid UTF-8: surrogates not allowed".to_string(),
            0
        )
    );
    assert_eq!(show(&loads(Input::Text(Some(b"[1]"))).ok().unwrap()), "[u1]");
    assert_eq!(show(&loads(Input::Buffer(b"null")).ok().unwrap()), "null");
}

fn tape(j: &Json, out: &mut Vec<TapeNode>) {
    match j {
        Json::Null => out.push(TapeNode::Null),
        Json::Bool(b) => out.push(TapeNode::Bool(*b)),
        Json::I64(v) => out.push(TapeNode::I64(*v)),
        Json::U64(v) => out.push(TapeNode::U64(*v)),
        Json::F64(v) => out.push(TapeNode::F64(*v)),
        Json::Str(s) => out.push(TapeNode::Str(s.clone())),
        Json::Array(items) => {
            out.push(TapeNode::Array(items.len()));
            for j in items {
                tape(j, out);
            }
        }
        Json::Object(members) => {
            out.push(TapeNode::Object(members.len()));
            for m in members {
                out.push(TapeNode::Str(m.key.clone()));
                tape(&m.value, out);
            }
        }
    }
}

#[test]
fn the_document_of_a_tape_is_the_document() {
    let member = |k: &str, value: Json| Member {
        key: k.as_bytes().to_vec(),
        value,
    };
    let doc = Json::Object(vec![
        member("a", Json::Array(vec![Json::Null, Json::Array(vec![])])),
        member("b", Json::Object(vec![member("c", Json::Bool(true))])),
        member(
            "d",
            Json::Array(vec![Json::Object(vec![]), Json::I64(-1), Json::U64(1)]),
        ),
        member("e", Json::F64(1.5f64.to_bits())),
        member("f", Json::Str(b"text".to_vec())),
    ]);
    let mut nodes = vec![];
    tape(&doc, &mut nodes);
    assert_eq!(show(&build(&nodes).unwrap()), show(&doc));
}

#[test]
fn a_tape_that_promises_too_much_has_no_document() {
    let str = |s: &str| TapeNode::Str(s.as_bytes().to_vec());
    assert!(build(&vec![]).is_none());
    assert!(build(&vec![TapeNode::Array(1)]).is_none());
    assert!(build(&vec![TapeNode::Array(2), TapeNode::Null]).is_none());
    assert!(build(&vec![TapeNode::Object(1), str("k")]).is_none());
    assert!(build(&vec![TapeNode::Object(1), TapeNode::Null, TapeNode::Null]).is_none());
    // what follows the document is not looked at
    assert!(build(&vec![TapeNode::Null, TapeNode::Array(7)]).is_some());
}
