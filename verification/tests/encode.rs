//! The encoder, step by step, as a caller drives it.

use isojson::datetime::Parts;
use isojson::decline::{Elem, C_CONTIGUOUS, NOTSWAPPED};
use isojson::encode::{EncodeError, Encoder, IntRead, KeyRead, Kind, OtherType, Step};
use isojson::numpy::{float_leaves, needs_dtype, ArrayInfo};
use isojson::opts::{
    OPT_PASSTHROUGH_DATETIME, OPT_PASSTHROUGH_SUBCLASS, OPT_SERIALIZE_NUMPY, OPT_SORT_KEYS,
};
use isojson::types::{DtTypes, NumpyTypes, TypeCache};

const DT: DtTypes = DtTypes {
    datetime: 1,
    date: 2,
    time: 3,
    delta: 4,
};

fn np() -> NumpyTypes {
    NumpyTypes {
        ndarray: 20,
        float64: 21,
        float32: 22,
        float16: 23,
        int64: 24,
        int32: 25,
        int16: 26,
        int8: 27,
        uint64: 28,
        uint32: 29,
        uint16: 30,
        uint8: 31,
        bool_: 32,
        datetime64: 33,
    }
}

fn cache() -> TypeCache {
    TypeCache::zeroed()
}

fn other(ty: usize) -> OtherType {
    OtherType {
        ty,
        is_str: false,
        is_int: false,
        is_dict: false,
        is_list: false,
    }
}

#[test]
fn a_list_is_written_item_by_item() {
    let c = cache();
    let mut e = Encoder::new(0, 0, false, None);
    assert_eq!(e.serialize(Kind::List, &c), Ok(Step::Item));
    assert_eq!(e.open_frames(), 1);
    assert_eq!(e.item(Kind::Int, &c), Ok(Step::ReadInt));
    assert_eq!(e.integer(IntRead::Fits(1)), Ok(Step::Item));
    assert_eq!(e.item(Kind::Tuple, &c), Ok(Step::Item));
    assert_eq!(e.open_frames(), 2);
    assert_eq!(e.item(Kind::Null, &c), Ok(Step::Item));
    assert_eq!(e.end(), Ok(Step::Item));
    assert_eq!(e.item(Kind::Str, &c), Ok(Step::ReadStr));
    assert_eq!(e.str(Some(b"x")), Ok(Step::Item));
    assert_eq!(e.end(), Ok(Step::Finished));
    assert_eq!(e.open_frames(), 0);
    assert_eq!(e.finish(), b"[1,[null],\"x\"]");
}

#[test]
fn a_dict_is_written_entry_by_entry() {
    let c = cache();
    let mut e = Encoder::new(0, 0, false, None);
    let key = |k: &[u8]| KeyRead::Utf8(k.to_vec());
    assert_eq!(e.serialize(Kind::Dict, &c), Ok(Step::Entry));
    assert_eq!(
        e.dict_in_order(&key(b"a"), Kind::Bool(true), &c),
        Ok(Step::Entry)
    );
    assert_eq!(
        e.dict_in_order(&key(b"b"), Kind::Float, &c),
        Ok(Step::ReadFloat)
    );
    assert_eq!(e.float(2.5f64.to_bits(), b"2.5"), Ok(Step::Entry));
    assert_eq!(
        e.dict_in_order(&KeyRead::NotStr, Kind::Null, &c),
        Err(EncodeError::KeyNotStr)
    );
    assert_eq!(
        e.dict_in_order(&key(b"c"), Kind::List, &c),
        Ok(Step::Item)
    );
    assert_eq!(e.end(), Ok(Step::Entry));
    assert_eq!(e.end(), Ok(Step::Finished));
    assert_eq!(e.finish(), b"{\"a\":true,\"b\":2.5,\"c\":[]}");
}

#[test]
fn a_sorted_dict_asks_for_its_values_in_order() {
    let c = cache();
    let mut e = Encoder::new(0, OPT_SORT_KEYS, false, None);
    let keys: Vec<KeyRead> = ["c", "a", "b"]
        .iter()
        .map(|k| KeyRead::Utf8(k.as_bytes().to_vec()))
        .collect();
    assert_eq!(e.serialize(Kind::Dict, &c), Ok(Step::AllKeys));
    assert_eq!(e.dict_sorted(&keys), Ok(Step::Value(1)));
    assert_eq!(e.serialize(Kind::Null, &c), Ok(Step::Value(2)));
    assert_eq!(e.serialize(Kind::Null, &c), Ok(Step::Value(0)));
    assert_eq!(e.serialize(Kind::Null, &c), Ok(Step::Finished));
    assert_eq!(e.finish(), b"{\"a\":null,\"b\":null,\"c\":null}");
}

#[test]
fn what_default_returns_is_written_in_place() {
    let c = cache();
    let mut e = Encoder::new(0, 0, true, None);
    let o = other(99);
    assert_eq!(e.serialize(Kind::List, &c), Ok(Step::Item));
    // the datetime module may have been loaded meanwhile
    assert_eq!(e.item(Kind::Other(o), &c), Ok(Step::LookUpDatetime));
    assert_eq!(e.serialize_again(o, None, &c), Ok(Step::CallDefault));
    assert_eq!(e.serialize_default_result(Kind::Other(other(98)), &c), Ok(Step::LookUpDatetime));
    assert_eq!(
        e.serialize_again(other(98), Some(DT), &c),
        Ok(Step::CallDefault)
    );
    assert_eq!(e.serialize_default_result(Kind::Bool(true), &c), Ok(Step::Item));
    assert_eq!(e.open_frames(), 1);
    // now it is known
    assert_eq!(e.item(Kind::Other(other(2)), &c), Ok(Step::ReadDate));
    assert_eq!(e.date(2026, 1, 2), Ok(Step::Item));
    assert_eq!(e.end(), Ok(Step::Finished));
    assert_eq!(e.finish(), b"[true,\"2026-01-02\"]");
}

#[test]
fn types_are_told_apart_in_order() {
    let c = cache();
    let all = |ty: usize| OtherType {
        ty,
        is_str: true,
        is_int: true,
        is_dict: true,
        is_list: true,
    };
    let first = |opts: u32, has_default: bool, dt: Option<DtTypes>, o: OtherType| {
        Encoder::new(0, opts, has_default, dt).serialize(Kind::Other(o), &c)
    };
    assert_eq!(first(0, false, Some(DT), all(1)), Ok(Step::ReadDatetime));
    assert_eq!(first(0, false, Some(DT), all(3)), Ok(Step::ReadTime));
    assert_eq!(first(0, false, Some(DT), all(4)), Ok(Step::ReadStr));
    assert_eq!(
        first(OPT_PASSTHROUGH_DATETIME, false, Some(DT), all(1)),
        Ok(Step::ReadStr)
    );
    let mut o = all(9);
    o.is_str = false;
    assert_eq!(first(0, false, None, o), Ok(Step::ReadInt));
    o.is_int = false;
    assert_eq!(first(0, false, None, o), Ok(Step::Entry));
    o.is_dict = false;
    assert_eq!(first(0, false, None, o), Ok(Step::Item));
    o.is_list = false;
    // nothing can run Python code: the type is not looked up either
    assert_eq!(first(0, false, None, o), Err(EncodeError::NotSerializable));
    assert_eq!(first(0, true, None, o), Ok(Step::LookUpDatetime));
    assert_eq!(
        first(OPT_PASSTHROUGH_DATETIME, true, None, o),
        Ok(Step::CallDefault)
    );
    assert_eq!(
        first(OPT_PASSTHROUGH_SUBCLASS, false, Some(DT), all(9)),
        Err(EncodeError::NotSerializable)
    );
}

#[test]
fn numpy_is_looked_up_once() {
    let mut c = cache();
    let mut e = Encoder::new(0, OPT_SERIALIZE_NUMPY, true, Some(DT));
    assert_eq!(e.serialize(Kind::List, &c), Ok(Step::Item));
    assert_eq!(e.item(Kind::Other(other(21)), &c), Ok(Step::LookUpNumpy));
    assert_eq!(
        e.numpy_found(21, Some(np())),
        Ok(Step::ReadScalar(Elem::F64))
    );
    assert_eq!(
        e.scalar(Elem::F64, &1.5f64.to_le_bytes(), b"", b"1.5"),
        Ok(Step::Item)
    );
    // a second miss goes to `default`
    assert_eq!(e.item(Kind::Other(other(99)), &c), Ok(Step::CallDefault));
    assert_eq!(e.serialize_default_result(Kind::Null, &c), Ok(Step::Item));
    // a hit needs no look
    c.np_module = 19;
    c.np = np();
    assert_eq!(e.item(Kind::Other(other(20)), &c), Ok(Step::ReadArray));
    let a = ArrayInfo {
        two: 2,
        nd: 1,
        typekind: b'f',
        itemsize: 4,
        flags: C_CONTIGUOUS | NOTSWAPPED,
        shape: vec![2],
        strides: vec![4],
        data: [0.5f32, f32::NAN].iter().flat_map(|v| v.to_le_bytes()).collect(),
    };
    assert!(!needs_dtype(&a));
    assert_eq!(float_leaves(&a)[0], 0.5f32.to_bits() as u64);
    assert_eq!(
        e.array(&a, b"", &vec![b"0.5".to_vec(), vec![]]),
        Ok(Step::Item)
    );
    assert_eq!(e.end(), Ok(Step::Finished));
    assert_eq!(e.finish(), b"[1.5,null,[0.5,null]]");
}

#[test]
fn a_declined_object_leaves_a_note() {
    let mut c = cache();
    c.np_module = 19;
    c.np = np();
    let swapped = |two: i32| ArrayInfo {
        two,
        nd: 1,
        typekind: b'f',
        itemsize: 8,
        flags: C_CONTIGUOUS,
        shape: vec![1],
        strides: vec![8],
        data: vec![0; 8],
    };
    let mut e = Encoder::new(0, OPT_SERIALIZE_NUMPY, false, Some(DT));
    assert_eq!(e.serialize(Kind::Other(other(20)), &c), Ok(Step::ReadArray));
    assert!(needs_dtype(&swapped(2)));
    assert_eq!(
        e.array(&swapped(2), b">f8", &vec![]),
        Err(EncodeError::Declined)
    );
    assert_eq!(
        e.error_message(EncodeError::Declined, b"numpy.ndarray"),
        Some("numpy array is not native-endianness".to_string())
    );
    assert_eq!(
        e.error_note(EncodeError::Declined),
        Some(
            "isojson can't write this numpy object natively: numpy array is not \
             native-endianness (dtype.str='>f8')"
                .to_string()
        )
    );
    // the chain of `default` calls being too long is no fault of the array
    assert_eq!(e.error_note(EncodeError::DefaultDepth), None);

    let mut e = Encoder::new(0, OPT_SERIALIZE_NUMPY, true, Some(DT));
    assert_eq!(e.serialize(Kind::Other(other(20)), &c), Ok(Step::ReadArray));
    assert_eq!(e.array(&swapped(2), b">f8", &vec![]), Ok(Step::CallDefault));
    assert_eq!(
        e.error_message(EncodeError::DefaultRaised, b"numpy.ndarray"),
        Some("Type is not JSON serializable: numpy.ndarray".to_string())
    );
    assert!(e.error_note(EncodeError::DefaultRaised).is_some());
    assert_eq!(e.serialize_default_result(Kind::Other(other(99)), &c), Ok(Step::LookUpNumpy));
    assert_eq!(e.numpy_found(99, None), Ok(Step::CallDefault));
    // an ordinary object has no note
    assert_eq!(e.error_note(EncodeError::DefaultRaised), None);

    let mut e = Encoder::new(0, OPT_SERIALIZE_NUMPY, true, Some(DT));
    assert_eq!(e.serialize(Kind::Other(other(20)), &c), Ok(Step::ReadArray));
    assert_eq!(
        e.array(&swapped(3), b">f8", &vec![]),
        Err(EncodeError::Malformed)
    );
    assert_eq!(
        e.error_message(EncodeError::Malformed, b"numpy.ndarray"),
        Some("numpy array is malformed".to_string())
    );
    assert_eq!(e.error_message(EncodeError::Raised, b"x"), None);
}

#[test]
fn items_are_held_while_python_can_run() {
    let leaves = [Kind::Str, Kind::Int, Kind::Float, Kind::Bool(true), Kind::Null];
    let others = [
        Kind::List,
        Kind::Tuple,
        Kind::Dict,
        Kind::Other(other(1)),
    ];
    for (e, guard) in [
        (Encoder::new(0, 0, false, None), false),
        (Encoder::new(0, 0, true, None), true),
        (Encoder::new(0, OPT_SERIALIZE_NUMPY, false, None), true),
        (Encoder::new(0, 0, false, Some(DT)), true),
    ] {
        for k in leaves {
            assert!(!e.must_hold(k));
        }
        for k in others {
            assert_eq!(e.must_hold(k), guard);
        }
    }
}

#[test]
fn a_datetime_is_written_with_its_offset() {
    let c = cache();
    let mut e = Encoder::new(0, 0, false, Some(DT));
    let p = Parts {
        y: 2026,
        mo: 9,
        d: 24,
        h: 1,
        mi: 2,
        s: 3,
        us: 4,
    };
    assert_eq!(e.serialize(Kind::Tuple, &c), Ok(Step::Item));
    assert_eq!(e.item(Kind::Other(other(1)), &c), Ok(Step::ReadDatetime));
    assert_eq!(e.datetime(&p, Some(-18_000_000_000)), Ok(Step::Item));
    assert_eq!(e.item(Kind::Other(other(3)), &c), Ok(Step::ReadTime));
    assert_eq!(e.time(4, 5, 6, 0, None), Ok(Step::Item));
    assert_eq!(e.end(), Ok(Step::Finished));
    assert_eq!(
        e.finish(),
        b"[\"2026-09-24T01:02:03.000004-05:00\",\"04:05:06\"]"
    );
}

#[test]
fn a_datetime_reads_back() {
    let c = cache();
    let p = Parts {
        y: 7,
        mo: 12,
        d: 31,
        h: 23,
        mi: 59,
        s: 5,
        us: 1_002,
    };
    for offset in [None, Some(0), Some(-1), Some(19_800_000_000), Some(-86_399_999_999)] {
        let mut e = Encoder::new(0, 0, false, Some(DT));
        assert_eq!(e.serialize(Kind::Other(other(1)), &c), Ok(Step::ReadDatetime));
        assert_eq!(e.datetime(&p, offset), Ok(Step::Finished));
        let t = String::from_utf8(e.finish()).unwrap();
        let field = |from: usize, to: usize| t[from..to].parse::<i64>().unwrap();
        assert_eq!(
            (field(1, 5), field(6, 8), field(9, 11)),
            (p.y as i64, p.mo as i64, p.d as i64)
        );
        assert_eq!(
            (field(12, 14), field(15, 17), field(18, 20), field(21, 27)),
            (p.h as i64, p.mi as i64, p.s as i64, p.us as i64)
        );
        let zone = t[27..].trim_end_matches('"');
        let mut us = 0;
        for (i, part) in zone.split([':', '.', '+', '-']).enumerate() {
            us += match i {
                0 => 0,
                1 => part.parse::<i64>().unwrap() * 3_600_000_000,
                2 => part.parse::<i64>().unwrap() * 60_000_000,
                3 => part.parse::<i64>().unwrap() * 1_000_000,
                _ => part.parse::<i64>().unwrap(),
            };
        }
        let read = match zone.chars().next() {
            None => None,
            Some('-') => Some(-us),
            Some(_) => Some(us),
        };
        assert_eq!(read, offset, "{t}");
    }
}
