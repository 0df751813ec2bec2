//! Whole documents.

use isojson::datetime::Parts;
use isojson::decline::{Elem, C_CONTIGUOUS, NOTSWAPPED};
use isojson::document::{dumps_value, Body, DictEntry, Value};
use isojson::encode::{EncodeError, IntRead, KeyRead};
use isojson::numpy::ArrayInfo;
use isojson::opts::{
    OPT_APPEND_NEWLINE, OPT_INDENT_2, OPT_NAIVE_UTC, OPT_OMIT_MICROSECONDS,
    OPT_PASSTHROUGH_DATACLASS, OPT_PASSTHROUGH_DATETIME, OPT_PASSTHROUGH_SUBCLASS,
    OPT_SERIALIZE_NUMPY, OPT_SORT_KEYS, OPT_STRICT_INTEGER, OPT_UTC_Z,
};

fn val(body: Body) -> Value {
    Value {
        exact: true,
        body,
        reply: vec![],
    }
}

fn sub(body: Body) -> Value {
    Value {
        exact: false,
        body,
        reply: vec![],
    }
}

fn with_reply(mut v: Value, reply: Value) -> Value {
    v.reply = vec![reply];
    v
}

fn null() -> Value {
    val(Body::Null)
}

fn num(v: i64) -> Value {
    val(Body::Int(IntRead::Fits(v)))
}

fn float(v: f64) -> Value {
    let digits = if v.is_finite() {
        zmij::Buffer::new().format_finite(v).as_bytes().to_vec()
    } else {
        vec![]
    };
    val(Body::Float {
        bits: v.to_bits(),
        digits,
    })
}

fn text(s: &str) -> Value {
    val(Body::Str(Some(s.as_bytes().to_vec())))
}

fn list(items: Vec<Value>) -> Value {
    val(Body::List(items))
}

fn dict(entries: Vec<(&str, Value)>) -> Value {
    val(Body::Dict(
        entries
            .into_iter()
            .map(|(k, value)| DictEntry {
                key: KeyRead::Utf8(k.as_bytes().to_vec()),
                value,
            })
            .collect(),
    ))
}

fn dumps(v: &Value, opts: u32) -> Result<String, EncodeError> {
    dumps_value(v, opts, false).map(|b| String::from_utf8(b).unwrap())
}

fn dumps_default(v: &Value, opts: u32) -> Result<String, EncodeError> {
    dumps_value(v, opts, true).map(|b| String::from_utf8(b).unwrap())
}

fn ok(s: &str) -> Result<String, EncodeError> {
    Ok(s.to_string())
}

#[test]
fn a_document_is_written() {
    let doc = dict(vec![("a", list(vec![num(1), float(2.5), null()]))]);
    assert_eq!(dumps(&doc, 0), ok("{\"a\":[1,2.5,null]}"));
    let doc = list(vec![
        val(Body::Bool(true)),
        val(Body::Bool(false)),
        text("x\"y"),
        val(Body::Tuple(vec![num(-1)])),
        list(vec![]),
        val(Body::Tuple(vec![])),
        dict(vec![]),
    ]);
    assert_eq!(dumps(&doc, 0), ok("[true,false,\"x\\\"y\",[-1],[],[],{}]"));
}

#[test]
fn floats_are_written_shortest() {
    let doc = list(vec![
        float(1.0),
        float(0.1),
        float(1e16),
        float(1e-6),
        float(0.00001),
        float(f64::NAN),
        float(f64::INFINITY),
    ]);
    assert_eq!(
        dumps(&doc, 0),
        ok("[1.0,0.1,1e+16,1e-6,0.00001,null,null]")
    );
}

#[test]
fn the_indented_form() {
    let doc = dict(vec![
        ("a", list(vec![num(1), dict(vec![("b", null())])])),
        ("c", list(vec![])),
        ("d", dict(vec![])),
    ]);
    assert_eq!(
        dumps(&doc, OPT_INDENT_2),
        ok("{\n  \"a\": [\n    1,\n    {\n      \"b\": null\n    }\n  ],\n  \"c\": [],\n  \"d\": {}\n}")
    );
    // without its line breaks and spaces it is the compact form
    let indented = dumps(&doc, OPT_INDENT_2).unwrap();
    let squeezed: String = indented.chars().filter(|c| !c.is_whitespace()).collect();
    assert_eq!(ok(&squeezed), dumps(&doc, 0));
}

#[test]
fn keys_are_sorted_when_asked_for() {
    let doc = dict(vec![
        ("b", num(1)),
        ("é", num(2)),
        ("a", num(3)),
        ("", num(4)),
        ("aa", num(5)),
        ("B", num(6)),
    ]);
    assert_eq!(
        dumps(&doc, 0),
        ok("{\"b\":1,\"é\":2,\"a\":3,\"\":4,\"aa\":5,\"B\":6}")
    );
    assert_eq!(
        dumps(&doc, OPT_SORT_KEYS),
        ok("{\"\":4,\"B\":6,\"a\":3,\"aa\":5,\"b\":1,\"é\":2}")
    );
    assert_eq!(
        dumps(
            &dict(vec![("b", dict(vec![])), ("a", dict(vec![("z", num(1)), ("y", num(2))]))]),
            OPT_SORT_KEYS | OPT_INDENT_2
        ),
        ok("{\n  \"a\": {\n    \"y\": 2,\n    \"z\": 1\n  },\n  \"b\": {}\n}")
    );
    assert_eq!(dumps(&dict(vec![]), OPT_SORT_KEYS), ok("{}"));
    // equal keys stay in the order in which they came
    assert_eq!(
        dumps(
            &dict(vec![("k", num(1)), ("j", num(2)), ("k", num(3))]),
            OPT_SORT_KEYS
        ),
        ok("{\"j\":2,\"k\":1,\"k\":3}")
    );
}

#[test]
fn many_keys_are_sorted() {
    let keys: Vec<String> = (0..1000u32).map(|i| format!("{:05}", i * 7919 % 1000)).collect();
    let doc = dict(keys.iter().map(|k| (k.as_str(), null())).collect());
    let mut sorted = keys.clone();
    sorted.sort();
    let want: Vec<String> = sorted.iter().map(|k| format!("\"{k}\":null")).collect();
    assert_eq!(
        dumps(&doc, OPT_SORT_KEYS),
        Ok(format!("{{{}}}", want.join(",")))
    );
}

#[test]
fn bad_keys_are_errors() {
    let entry = |key: KeyRead, value: Value| DictEntry { key, value };
    for opts in [0, OPT_SORT_KEYS] {
        let doc = val(Body::Dict(vec![
            entry(KeyRead::Utf8(b"a".to_vec()), num(1)),
            entry(KeyRead::NotStr, num(2)),
            entry(KeyRead::NotUtf8, num(3)),
        ]));
        assert_eq!(dumps(&doc, opts), Err(EncodeError::KeyNotStr));
        let doc = val(Body::Dict(vec![entry(KeyRead::NotUtf8, num(3))]));
        assert_eq!(dumps(&doc, opts), Err(EncodeError::StrNotUtf8));
    }
    // in its own order, a value that fails comes before a later key
    let doc = val(Body::Dict(vec![
        entry(KeyRead::Utf8(b"a".to_vec()), val(Body::Str(None))),
        entry(KeyRead::NotStr, num(2)),
    ]));
    assert_eq!(dumps(&doc, 0), Err(EncodeError::StrNotUtf8));
    assert_eq!(dumps(&doc, OPT_SORT_KEYS), Err(EncodeError::KeyNotStr));
}

#[test]
fn integers_keep_to_their_range() {
    let safe = 9007199254740991i64;
    for v in [0, safe, -safe] {
        assert_eq!(dumps(&num(v), OPT_STRICT_INTEGER), Ok(v.to_string()));
    }
    for v in [safe + 1, -safe - 1, i64::MAX, i64::MIN] {
        assert_eq!(dumps(&num(v), OPT_STRICT_INTEGER), Err(EncodeError::Int53));
        assert_eq!(dumps(&num(v), 0), Ok(v.to_string()));
    }
    let big = val(Body::Int(IntRead::Above(Some(u64::MAX))));
    assert_eq!(dumps(&big, 0), ok("18446744073709551615"));
    assert_eq!(dumps(&big, OPT_STRICT_INTEGER), Err(EncodeError::Int53));
    for v in [IntRead::Above(None), IntRead::Below] {
        assert_eq!(dumps(&val(Body::Int(v)), 0), Err(EncodeError::Int64));
        assert_eq!(
            dumps(&val(Body::Int(v)), OPT_STRICT_INTEGER),
            Err(EncodeError::Int53)
        );
    }
    assert_eq!(
        dumps(&val(Body::Int(IntRead::Raised)), 0),
        Err(EncodeError::Raised)
    );
}

#[test]
fn a_newline_is_appended_when_asked_for() {
    let doc = list(vec![num(1)]);
    assert_eq!(dumps(&doc, OPT_APPEND_NEWLINE), ok("[1]\n"));
    assert_eq!(dumps(&doc, OPT_PASSTHROUGH_DATACLASS), ok("[1]"));
    assert_eq!(
        dumps(&doc, OPT_APPEND_NEWLINE | OPT_INDENT_2),
        ok("[\n  1\n]\n")
    );
}

fn nested(depth: usize) -> Value {
    let mut v = list(vec![]);
    for _ in 1..depth {
        v = list(vec![v]);
    }
    v
}

#[test]
fn containers_nest_254_deep() {
    let want = format!("{}{}", "[".repeat(254), "]".repeat(254));
    assert_eq!(dumps(&nested(254), 0), Ok(want));
    assert_eq!(dumps(&nested(255), 0), Err(EncodeError::Recursion));
    let mut v = dict(vec![]);
    for _ in 1..255 {
        v = dict(vec![("k", v)]);
    }
    assert_eq!(dumps(&v, 0), Err(EncodeError::Recursion));
}

fn opaque() -> Value {
    val(Body::Opaque)
}

#[test]
fn default_takes_what_nothing_writes() {
    assert_eq!(dumps(&opaque(), 0), Err(EncodeError::NotSerializable));
    // without a reply `default` raises
    assert_eq!(dumps_default(&opaque(), 0), Err(EncodeError::DefaultRaised));
    let doc = list(vec![
        num(1),
        with_reply(opaque(), dict(vec![("x", list(vec![num(2)]))])),
        num(3),
    ]);
    assert_eq!(dumps_default(&doc, 0), ok("[1,{\"x\":[2]},3]"));
    assert_eq!(
        dumps_default(&doc, OPT_INDENT_2),
        ok("[\n  1,\n  {\n    \"x\": [\n      2\n    ]\n  },\n  3\n]")
    );
    // also with the numpy group looked up, which does not know the type
    assert_eq!(
        dumps_default(&doc, OPT_SERIALIZE_NUMPY),
        ok("[1,{\"x\":[2]},3]")
    );
}

#[test]
fn default_calls_chain_255_times() {
    let chain = |n: usize| {
        let mut v = num(7);
        for _ in 0..n {
            v = with_reply(opaque(), v);
        }
        v
    };
    assert_eq!(dumps_default(&chain(255), 0), ok("7"));
    assert_eq!(dumps_default(&chain(256), 0), Err(EncodeError::DefaultDepth));
}

#[test]
fn subclasses_are_written_or_passed_through() {
    let values = || {
        vec![
            sub(Body::Str(Some(b"s".to_vec()))),
            sub(Body::Int(IntRead::Fits(1))),
            sub(Body::List(vec![num(2)])),
            sub(Body::Dict(vec![])),
        ]
    };
    assert_eq!(dumps(&list(values()), 0), ok("[\"s\",1,[2],{}]"));
    for v in values() {
        assert_eq!(
            dumps(&v, OPT_PASSTHROUGH_SUBCLASS),
            Err(EncodeError::NotSerializable)
        );
        assert_eq!(
            dumps_default(&with_reply(v, text("d")), OPT_PASSTHROUGH_SUBCLASS),
            ok("\"d\"")
        );
    }
    // subclasses of other types are never written
    for body in [
        Body::Tuple(vec![]),
        Body::Float {
            bits: 0,
            digits: b"0.0".to_vec(),
        },
        datetime(0, None).body,
        Body::Date {
            y: 2026,
            mo: 9,
            d: 24,
        },
        Body::Time {
            h: 1,
            mi: 2,
            s: 3,
            us: 0,
            offset: None,
        },
        array_value(i64s(vec![1], &[5]), b"<i8", vec![]).body,
        Body::Scalar {
            elem: Elem::I8,
            data: vec![1],
            dtype: vec![],
            digits: vec![],
        },
    ] {
        let v = sub(body);
        assert_eq!(
            dumps(&v, OPT_SERIALIZE_NUMPY),
            Err(EncodeError::NotSerializable)
        );
        assert_eq!(
            dumps_default(&with_reply(v, text("d")), OPT_SERIALIZE_NUMPY),
            ok("\"d\"")
        );
    }
}

fn datetime(us: u32, offset: Option<i64>) -> Value {
    val(Body::Datetime {
        parts: Parts {
            y: 2026,
            mo: 9,
            d: 24,
            h: 1,
            mi: 2,
            s: 3,
            us,
        },
        offset,
    })
}

const HOUR: i64 = 3_600_000_000;

#[test]
fn datetimes_follow_their_options() {
    let naive = datetime(0, None);
    let utc = datetime(10, Some(0));
    let east = datetime(0, Some(5 * HOUR + 59 * 60_000_000 + 30_000_000));
    assert_eq!(dumps(&naive, 0), ok("\"2026-09-24T01:02:03\""));
    assert_eq!(
        dumps(&naive, OPT_NAIVE_UTC),
        ok("\"2026-09-24T01:02:03+00:00\"")
    );
    assert_eq!(
        dumps(&naive, OPT_NAIVE_UTC | OPT_UTC_Z),
        ok("\"2026-09-24T01:02:03Z\"")
    );
    assert_eq!(dumps(&naive, OPT_UTC_Z), ok("\"2026-09-24T01:02:03\""));
    assert_eq!(
        dumps(&utc, 0),
        ok("\"2026-09-24T01:02:03.000010+00:00\"")
    );
    assert_eq!(
        dumps(&utc, OPT_UTC_Z | OPT_OMIT_MICROSECONDS),
        ok("\"2026-09-24T01:02:03Z\"")
    );
    assert_eq!(
        dumps(&east, OPT_NAIVE_UTC | OPT_UTC_Z),
        ok("\"2026-09-24T01:02:03+05:59:30\"")
    );
    let date = val(Body::Date {
        y: 7,
        mo: 3,
        d: 9,
    });
    assert_eq!(dumps(&date, OPT_UTC_Z | OPT_NAIVE_UTC), ok("\"0007-03-09\""));
}

#[test]
fn times_ignore_the_utc_options() {
    let time = |us: u32, offset: Option<i64>| {
        val(Body::Time {
            h: 0,
            mi: 0,
            s: 1,
            us,
            offset,
        })
    };
    for opts in [0, OPT_NAIVE_UTC, OPT_UTC_Z, OPT_NAIVE_UTC | OPT_UTC_Z] {
        assert_eq!(dumps(&time(75652, None), opts), ok("\"00:00:01.075652\""));
        assert_eq!(dumps(&time(0, Some(0)), opts), ok("\"00:00:01+00:00\""));
        assert_eq!(
            dumps(&time(5, Some(-HOUR)), opts | OPT_OMIT_MICROSECONDS),
            ok("\"00:00:01-01:00\"")
        );
    }
}

#[test]
fn datetimes_can_be_passed_through() {
    for v in [
        datetime(0, None),
        val(Body::Date { y: 1, mo: 1, d: 1 }),
        val(Body::Time {
            h: 1,
            mi: 1,
            s: 1,
            us: 0,
            offset: None,
        }),
    ] {
        assert_eq!(
            dumps(&v, OPT_PASSTHROUGH_DATETIME),
            Err(EncodeError::NotSerializable)
        );
        assert_eq!(
            dumps_default(&with_reply(v, num(1)), OPT_PASSTHROUGH_DATETIME),
            ok("1")
        );
    }
}

fn array(kind: u8, size: i32, shape: Vec<isize>, data: Vec<u8>) -> ArrayInfo {
    let mut strides = vec![0isize; shape.len()];
    let mut step = size as isize;
    for d in (0..shape.len()).rev() {
        strides[d] = step;
        step *= shape[d].max(1);
    }
    ArrayInfo {
        two: 2,
        nd: shape.len() as i32,
        typekind: kind,
        itemsize: size,
        flags: C_CONTIGUOUS | NOTSWAPPED,
        shape,
        strides,
        data,
    }
}

fn array_value(info: ArrayInfo, dtype: &[u8], digits: Vec<Vec<u8>>) -> Value {
    val(Body::Array {
        info,
        dtype: dtype.to_vec(),
        digits,
    })
}

fn i64s(shape: Vec<isize>, values: &[i64]) -> ArrayInfo {
    let data = values.iter().flat_map(|v| v.to_le_bytes()).collect();
    array(b'i', 8, shape, data)
}

#[test]
fn arrays_are_nested_lists() {
    let a = array_value(i64s(vec![2, 3], &[1, -2, 3, 4, 5, i64::MIN]), b"<i8", vec![]);
    assert_eq!(
        dumps(&a, OPT_SERIALIZE_NUMPY),
        ok("[[1,-2,3],[4,5,-9223372036854775808]]")
    );
    assert_eq!(
        dumps(&list(vec![a]), OPT_SERIALIZE_NUMPY | OPT_INDENT_2),
        ok("[\n  [\n    [\n      1,\n      -2,\n      3\n    ],\n    [\n      4,\n      5,\n      -9223372036854775808\n    ]\n  ]\n]")
    );
    let a = array_value(i64s(vec![1], &[5]), b"<i8", vec![]);
    assert_eq!(dumps(&a, 0), Err(EncodeError::NotSerializable));
    for (shape, want) in [
        (vec![0], "[]"),
        (vec![2, 0], "[[],[]]"),
        (vec![0, 3], "[]"),
        (vec![1, 2, 0, 4], "[[[],[]]]"),
    ] {
        let a = array_value(array(b'M', 8, shape, vec![]), b"not a dtype", vec![]);
        assert_eq!(dumps(&a, OPT_SERIALIZE_NUMPY), ok(want));
    }
}

#[test]
fn a_declined_array_goes_whole_to_default() {
    let last = 2_932_896i64;
    let data: Vec<u8> = [0, last, last + 1, 0]
        .iter()
        .flat_map(|v: &i64| v.to_le_bytes())
        .collect();
    let bad = || array_value(array(b'M', 8, vec![2, 2], data.clone()), b"<M8[D]", vec![]);
    let doc = |v: Value| dict(vec![("a", num(1)), ("x", list(vec![num(0), v]))]);
    assert_eq!(
        dumps(&doc(bad()), OPT_SERIALIZE_NUMPY),
        Err(EncodeError::Declined)
    );
    for opts in [OPT_SERIALIZE_NUMPY, OPT_SERIALIZE_NUMPY | OPT_INDENT_2] {
        assert_eq!(
            dumps_default(&doc(with_reply(bad(), text("gone"))), opts),
            dumps_default(&doc(text("gone")), opts)
        );
    }
    assert_eq!(
        dumps_default(&doc(bad()), OPT_SERIALIZE_NUMPY),
        Err(EncodeError::DefaultRaised)
    );
}

#[test]
fn scalars_are_written_by_their_bytes() {
    let scalar = |elem: Elem, data: Vec<u8>, dtype: &[u8], digits: &[u8]| {
        val(Body::Scalar {
            elem,
            data,
            dtype: dtype.to_vec(),
            digits: digits.to_vec(),
        })
    };
    let o = OPT_SERIALIZE_NUMPY;
    let cases = vec![
        (scalar(Elem::Bool, vec![1], b"", b""), "true"),
        (scalar(Elem::I8, vec![0x80], b"", b""), "-128"),
        (scalar(Elem::U8, vec![0xff], b"", b""), "255"),
        (scalar(Elem::I16, vec![0xfe, 0xff], b"", b""), "-2"),
        (scalar(Elem::U32, vec![1, 0, 0, 0x80], b"", b""), "2147483649"),
        (
            scalar(Elem::U64, u64::MAX.to_le_bytes().to_vec(), b"", b""),
            "18446744073709551615",
        ),
        (
            scalar(Elem::F32, 0.1f32.to_le_bytes().to_vec(), b"", b"0.1"),
            "0.1",
        ),
        (scalar(Elem::F16, vec![0, 0x7c], b"", b""), "null"),
        (
            scalar(Elem::Dt64, 10i64.to_le_bytes().to_vec(), b"<M8[10ms]", b""),
            "\"1970-01-01T00:00:00.100000\"",
        ),
        (
            scalar(Elem::Dt64, i64::MIN.to_le_bytes().to_vec(), b"<M8", b""),
            "null",
        ),
    ];
    for (v, want) in cases {
        assert_eq!(dumps(&v, o), ok(want));
    }
    let generic = scalar(Elem::Dt64, 5i64.to_le_bytes().to_vec(), b"<M8", b"");
    assert_eq!(dumps(&generic, o), Err(EncodeError::Declined));
    let unknown = scalar(Elem::Dt64, vec![0; 8], b"<M8[xx]", b"");
    assert_eq!(
        dumps_default(&with_reply(unknown, null()), o),
        ok("null")
    );
    assert_eq!(
        dumps(
            &scalar(Elem::Dt64, vec![0; 8], b"<M8[Y]", b""),
            o | OPT_NAIVE_UTC | OPT_UTC_Z | OPT_PASSTHROUGH_DATETIME
        ),
        ok("\"1970-01-01T00:00:00Z\"")
    );
}

#[test]
fn a_string_with_surrogates_is_an_error() {
    assert_eq!(
        dumps(&list(vec![val(Body::Str(None))]), 0),
        Err(EncodeError::StrNotUtf8)
    );
}
