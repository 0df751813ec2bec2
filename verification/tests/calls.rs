//! The arguments of `dumps`, the texts of errors, and what the module keeps.

use isojson::args::{
    arg_message, bind, settings, ArgError, Bound, DefaultArg, OptionArg, ALL_OPTS,
};
use isojson::encode::EncodeError;
use isojson::messages::{describe_exception, not_serializable, plain_error, utcoffset_raised};
use isojson::module::{constant, ModState, CONSTANTS};
use isojson::offset::{delta_us, utcoffset_asked, utcoffset_of, OffsetReply, OffsetStep};
use isojson::opts::{OPT_NON_STR_KEYS, OPT_SORT_KEYS};
use isojson::strfast::{
    layout_utf8, probe_text, self_check, utf8, Layout, Probe, ASCII, COMPACT, PROBES,
};
use isojson::types::{CapiRead, DtTypes};

fn kw(names: &[&str]) -> Vec<Vec<u8>> {
    names.iter().map(|n| n.as_bytes().to_vec()).collect()
}

fn bound(default: Option<usize>, option: Option<usize>) -> Result<Bound, ArgError> {
    Ok(Bound { default, option })
}

#[test]
fn arguments_are_bound() {
    assert_eq!(bind(0, &kw(&[])), Err(ArgError::Missing));
    assert_eq!(bind(0, &kw(&["default"])), Err(ArgError::Missing));
    assert_eq!(bind(1, &kw(&[])), bound(None, None));
    assert_eq!(bind(2, &kw(&[])), bound(Some(1), None));
    assert_eq!(bind(3, &kw(&[])), bound(Some(1), Some(2)));
    assert_eq!(bind(4, &kw(&[])), Err(ArgError::TooMany(4)));
    assert_eq!(bind(1, &kw(&["option"])), bound(None, Some(1)));
    assert_eq!(
        bind(1, &kw(&["option", "default"])),
        bound(Some(2), Some(1))
    );
    assert_eq!(bind(2, &kw(&["option"])), bound(Some(1), Some(2)));
    assert_eq!(bind(2, &kw(&["default"])), Err(ArgError::Keyword));
    assert_eq!(bind(3, &kw(&["option"])), Err(ArgError::Keyword));
    assert_eq!(bind(1, &kw(&["default", "indent"])), Err(ArgError::Keyword));
}

#[test]
fn options_are_checked() {
    assert_eq!(settings(DefaultArg::Absent, OptionArg::Absent), Ok((false, 0)));
    assert_eq!(settings(DefaultArg::Callable, OptionArg::Absent), Ok((true, 0)));
    assert_eq!(
        settings(DefaultArg::Callable, OptionArg::Int(Some(OPT_SORT_KEYS as i64))),
        Ok((true, OPT_SORT_KEYS))
    );
    assert_eq!(
        settings(DefaultArg::NotCallable, OptionArg::NotInt),
        Err(ArgError::NotCallable)
    );
    for option in [
        OptionArg::NotInt,
        OptionArg::Int(None),
        OptionArg::Int(Some(-1)),
        OptionArg::Int(Some(ALL_OPTS as i64 + 1)),
    ] {
        assert_eq!(settings(DefaultArg::Absent, option), Err(ArgError::InvalidOpts));
    }
    assert_eq!(
        settings(DefaultArg::Absent, OptionArg::Int(Some(OPT_NON_STR_KEYS as i64))),
        Err(ArgError::NonStrKeys)
    );
    assert_eq!(
        settings(DefaultArg::Absent, OptionArg::Int(Some(ALL_OPTS as i64))),
        Err(ArgError::NonStrKeys)
    );
    let all_but = (ALL_OPTS & !OPT_NON_STR_KEYS) as i64;
    assert_eq!(
        settings(DefaultArg::Absent, OptionArg::Int(Some(all_but))),
        Ok((false, all_but as u32))
    );
}

#[test]
fn argument_errors_in_words() {
    let cases = [
        (
            ArgError::Missing,
            "dumps() missing required argument 'obj' (pos 1)",
        ),
        (
            ArgError::TooMany(17),
            "dumps() takes at most 3 positional arguments (17 given)",
        ),
        (
            ArgError::Keyword,
            "dumps() got an unexpected or duplicate keyword argument",
        ),
        (ArgError::NotCallable, "default must be a callable"),
        (ArgError::InvalidOpts, "Invalid opts"),
        (
            ArgError::NonStrKeys,
            "isojson does not support OPT_NON_STR_KEYS",
        ),
    ];
    for (e, want) in cases {
        assert_eq!(arg_message(e), want);
    }
}

#[test]
fn encode_errors_in_words() {
    let cases = [
        (EncodeError::Recursion, Some("Recursion limit reached")),
        (
            EncodeError::StrNotUtf8,
            Some("str is not valid UTF-8: surrogates not allowed"),
        ),
        (EncodeError::KeyNotStr, Some("Dict key must be str")),
        (EncodeError::Int53, Some("Integer exceeds 53-bit range")),
        (EncodeError::Int64, Some("Integer exceeds 64-bit range")),
        (
            EncodeError::DefaultDepth,
            Some("default serializer exceeds recursion limit"),
        ),
        (EncodeError::Malformed, Some("numpy array is malformed")),
        (EncodeError::NotSerializable, None),
        (EncodeError::DefaultRaised, None),
        (EncodeError::Declined, None),
        (EncodeError::Raised, None),
    ];
    for (e, want) in cases {
        assert_eq!(plain_error(e), want);
    }
    assert_eq!(
        not_serializable(b"module.Type"),
        "Type is not JSON serializable: module.Type"
    );
    assert_eq!(
        not_serializable(&[b'T', 0xff]),
        "Type is not JSON serializable: T\u{fffd}"
    );
}

#[test]
fn exceptions_in_words() {
    assert_eq!(
        describe_exception(b"ValueError", Some(b"no zone")),
        "ValueError: no zone"
    );
    assert_eq!(describe_exception(b"ValueError", Some(b"")), "ValueError");
    assert_eq!(describe_exception(b"ValueError", None), "ValueError");
    assert_eq!(
        utcoffset_raised("datetime", b"ValueError", Some("é".as_bytes())),
        "datetime.utcoffset() raised ValueError: é"
    );
    assert_eq!(
        utcoffset_raised("time", b"KeyError", None),
        "time.utcoffset() raised KeyError"
    );
}

#[test]
fn offsets_are_under_a_day() {
    let delta = |days: i32, secs: i32, us: i32| OffsetReply::Delta { days, secs, us };
    assert_eq!(
        utcoffset_of(delta(0, 8 * 3600, 0)),
        OffsetStep::Offset(Some(28_800_000_000))
    );
    assert_eq!(
        utcoffset_of(delta(-1, 86_399, 999_999)),
        OffsetStep::Offset(Some(-1))
    );
    assert_eq!(
        utcoffset_of(delta(-1, 0, 1)),
        OffsetStep::Offset(Some(-86_399_999_999))
    );
    assert_eq!(utcoffset_of(delta(-1, 0, 0)), OffsetStep::AskObject);
    assert_eq!(utcoffset_of(delta(1, 0, 0)), OffsetStep::AskObject);
    assert_eq!(utcoffset_of(delta(1, 3600, 0)), OffsetStep::AskObject);
    assert_eq!(utcoffset_of(delta(-2, 86_399, 0)), OffsetStep::AskObject);
    assert_eq!(utcoffset_of(OffsetReply::NotDelta), OffsetStep::AskObject);
    assert_eq!(utcoffset_of(OffsetReply::NoOffset), OffsetStep::Offset(None));
    assert_eq!(utcoffset_of(OffsetReply::Raised), OffsetStep::Raised);
    assert_eq!(utcoffset_asked(OffsetReply::Raised), OffsetStep::Raised);
    assert_eq!(
        utcoffset_asked(OffsetReply::NoOffset),
        OffsetStep::Offset(None)
    );
    assert_eq!(
        utcoffset_asked(delta(0, 1, 2)),
        OffsetStep::Offset(Some(1_000_002))
    );
    assert_eq!(delta_us(-1, 86_340, 0), -60_000_000);
}

#[test]
fn constants_are_exported() {
    let all: Vec<(&str, u32)> = (0..CONSTANTS).map(constant).collect();
    assert_eq!(
        all,
        vec![
            ("OPT_APPEND_NEWLINE", 1024),
            ("OPT_INDENT_2", 1),
            ("OPT_NAIVE_UTC", 2),
            ("OPT_NON_STR_KEYS", 4),
            ("OPT_OMIT_MICROSECONDS", 8),
            ("OPT_PASSTHROUGH_DATACLASS", 2048),
            ("OPT_PASSTHROUGH_DATETIME", 512),
            ("OPT_PASSTHROUGH_SUBCLASS", 256),
            ("OPT_SERIALIZE_DATACLASS", 0),
            ("OPT_SERIALIZE_NUMPY", 16),
            ("OPT_SERIALIZE_UUID", 0),
            ("OPT_SORT_KEYS", 32),
            ("OPT_STRICT_INTEGER", 64),
            ("OPT_UTC_Z", 128),
        ]
    );
}

#[test]
fn the_module_lets_go_of_everything() {
    let mut m = ModState::new();
    assert_eq!(m.traverse(), Vec::<usize>::new());
    assert_eq!(m.clear(), Vec::<usize>::new());
    m.decode_error = 5;
    m.types.names.set(0, 6);
    let read = CapiRead::Capsule {
        capsule: 10,
        types: DtTypes {
            datetime: 11,
            date: 12,
            time: 13,
            delta: 14,
        },
    };
    assert!(m.types.datetime(read).is_ok());
    assert_eq!(m.key_cache.put(b"key", 9), None);
    assert_eq!(m.traverse(), vec![5, 10, 11, 12, 13, 14, 6]);
    assert_eq!(m.clear(), vec![5, 10, 11, 12, 13, 14, 6, 9]);
    assert_eq!(m.clear(), Vec::<usize>::new());
}

#[test]
fn the_layout_of_a_string() {
    assert_eq!(layout_utf8(COMPACT | ASCII, false), Some(Layout::Inline));
    assert_eq!(layout_utf8(COMPACT | ASCII, true), Some(Layout::Inline));
    assert_eq!(layout_utf8(COMPACT, true), Some(Layout::Cached));
    assert_eq!(layout_utf8(COMPACT, false), None);
    assert_eq!(layout_utf8(ASCII, true), None);
    assert_eq!(layout_utf8(0, true), None);
    assert_eq!(utf8(true, COMPACT, true), Some(Layout::Cached));
    assert_eq!(utf8(false, COMPACT | ASCII, true), None);
}

fn probes() -> Vec<Probe> {
    (0..PROBES)
        .map(|i| {
            let expect = probe_text(i).as_bytes().to_vec();
            Probe {
                state: if expect.is_ascii() {
                    COMPACT | ASCII
                } else {
                    COMPACT
                },
                fast: Some((1000 + i, expect.clone())),
                api: Some((1000 + i, expect.len())),
                expect,
            }
        })
        .collect()
}

#[test]
fn the_layout_is_relied_on_if_every_probe_agrees() {
    assert!(self_check(&probes()));
    assert!(!self_check(&vec![]));
    let mut p = probes();
    p.pop();
    assert!(!self_check(&p));
    let mut p = probes();
    p.swap(0, 1);
    assert!(!self_check(&p));
    let mut p = probes();
    p.extend(probes());
    assert!(!self_check(&p));
    for i in 0..PROBES {
        let mut p = probes();
        p[i].fast = None;
        assert!(!self_check(&p));
        let mut p = probes();
        p[i].api = None;
        assert!(!self_check(&p));
        let mut p = probes();
        p[i].api = Some((1, p[i].expect.len()));
        assert!(!self_check(&p));
        let mut p = probes();
        p[i].api = Some((1000 + i, p[i].expect.len() + 1));
        assert!(!self_check(&p));
        let mut p = probes();
        p[i].state ^= ASCII;
        assert!(!self_check(&p));
        let mut p = probes();
        p[i].expect.push(b'?');
        assert!(!self_check(&p));
    }
    let texts: Vec<&str> = (0..PROBES).map(probe_text).collect();
    assert_eq!(texts[2], "hello, isojson: a longer ascii probe string");
    assert_eq!(&texts[3..], &["é", "日本", "🔥x", "mixed é text"]);
}
