//! Arrays by the bytes that they hold.

use isojson::datetime::{Dt64Unit, Unit};
use isojson::decline::{Elem, Reason, C_CONTIGUOUS, NOTSWAPPED};
use isojson::little_endian::read_uint;
use isojson::numpy::{
    float_leaves, is_packed, max_text, needs_dtype, serialize_array, serialize_scalar, write_dt64,
    write_leaf, ArrayInfo, Outcome,
};
use isojson::opts::OPT_INDENT_2;
use isojson::out::Out;
use isojson::sort::sort_keys;

fn info(kind: u8, size: i32, shape: &[isize], strides: &[isize], data: Vec<u8>) -> ArrayInfo {
    ArrayInfo {
        two: 2,
        nd: shape.len() as i32,
        typekind: kind,
        itemsize: size,
        flags: C_CONTIGUOUS | NOTSWAPPED,
        shape: shape.to_vec(),
        strides: strides.to_vec(),
        data,
    }
}

fn write(a: &ArrayInfo, dtype: &[u8], digits: &Vec<Vec<u8>>, opts: u32) -> (String, Outcome) {
    let mut out = Out::new(0);
    out.extend_from_slice(b"before:");
    let r = serialize_array(&mut out, a, dtype, digits, opts, 0);
    (String::from_utf8(out.finish()).unwrap(), r)
}

fn written(a: &ArrayInfo) -> String {
    let (s, r) = write(a, b"", &vec![], 0);
    assert!(matches!(r, Outcome::Written));
    s.strip_prefix("before:").unwrap().to_string()
}

#[test]
fn numbers_are_read_least_significant_first() {
    let s = [0x01u8, 0x02, 0x03, 0x04, 0x05, 0x06, 0x07, 0x88];
    assert_eq!(read_uint(&s, 0, 0), 0);
    assert_eq!(read_uint(&s, 1, 1), 2);
    assert_eq!(read_uint(&s, 1, 2), 0x0302);
    assert_eq!(read_uint(&s, 0, 4), 0x0403_0201);
    assert_eq!(read_uint(&s, 0, 8), 0x8807_0605_0403_0201);
}

#[test]
fn every_integer_type_is_written() {
    let a = |kind: u8, size: i32, data: &[u8]| {
        let n = (data.len() / size as usize) as isize;
        written(&info(kind, size, &[n], &[size as isize], data.to_vec()))
    };
    assert_eq!(a(b'b', 1, &[0, 1, 2]), "[false,true,true]");
    assert_eq!(a(b'i', 1, &[0, 0x7f, 0x80, 0xff]), "[0,127,-128,-1]");
    assert_eq!(a(b'u', 1, &[0, 0xff]), "[0,255]");
    assert_eq!(a(b'i', 2, &[0, 0x80, 0xff, 0x7f]), "[-32768,32767]");
    assert_eq!(a(b'u', 2, &[0xff, 0xff]), "[65535]");
    assert_eq!(a(b'i', 4, &[0, 0, 0, 0x80]), "[-2147483648]");
    assert_eq!(a(b'u', 4, &[0xff, 0xff, 0xff, 0xff]), "[4294967295]");
    assert_eq!(
        a(b'i', 8, &i64::MIN.to_le_bytes()),
        "[-9223372036854775808]"
    );
    assert_eq!(a(b'u', 8, &u64::MAX.to_le_bytes()), "[18446744073709551615]");
}

#[test]
fn elements_come_in_c_order() {
    let data: Vec<u8> = (0..24).collect();
    let a = info(b'u', 1, &[2, 3, 4], &[12, 4, 1], data);
    assert_eq!(
        written(&a),
        "[[[0,1,2,3],[4,5,6,7],[8,9,10,11]],[[12,13,14,15],[16,17,18,19],[20,21,22,23]]]"
    );
    // the stride of a dimension of one does not matter
    let a = info(b'u', 1, &[1, 2, 1], &[-77, 1, 1000], vec![5, 6]);
    assert_eq!(written(&a), "[[[5],[6]]]");
}

#[test]
fn a_long_row_is_written_whole() {
    let values: Vec<u16> = (0..5000).collect();
    let data = values.iter().flat_map(|v| v.to_le_bytes()).collect();
    let want: Vec<String> = values.iter().map(|v| v.to_string()).collect();
    assert_eq!(
        written(&info(b'u', 2, &[5000], &[2], data)),
        format!("[{}]", want.join(","))
    );
}

#[test]
fn data_that_is_not_packed_is_malformed() {
    let good = info(b'u', 1, &[2, 2], &[2, 1], vec![1, 2, 3, 4]);
    assert!(is_packed(&good, 1));
    for a in [
        info(b'u', 1, &[2, 2], &[2, 1], vec![1, 2, 3]),
        info(b'u', 1, &[2, 2], &[2, 1], vec![1, 2, 3, 4, 5]),
        info(b'u', 1, &[2, 2], &[1, 2], vec![1, 2, 3, 4]),
        info(b'u', 1, &[2, 2], &[2], vec![1, 2, 3, 4]),
        info(b'u', 1, &[-1, 2], &[2, 1], vec![]),
        info(b'u', 1, &[isize::MAX, isize::MAX], &[2, 1], vec![1]),
    ] {
        assert!(!is_packed(&a, 1));
        let (s, r) = write(&a, b"", &vec![], 0);
        assert!(matches!(r, Outcome::Malformed));
        assert_eq!(s, "before:");
    }
    let mut a = info(b'u', 1, &[1], &[1], vec![1]);
    a.two = 3;
    assert!(matches!(write(&a, b"", &vec![], 0).1, Outcome::Malformed));
}

#[test]
fn floats_take_the_digits_they_are_given() {
    let values = [1.5f64, f64::NAN, -0.0, 1e300];
    let data = values.iter().flat_map(|v| v.to_le_bytes()).collect();
    let a = info(b'f', 8, &[2, 2], &[16, 8], data);
    let bits = float_leaves(&a);
    assert_eq!(bits, values.iter().map(|v| v.to_bits()).collect::<Vec<u64>>());
    let digits: Vec<Vec<u8>> = bits
        .iter()
        .map(|&b| f64::from_bits(b))
        .map(|v| {
            if v.is_finite() {
                zmij::Buffer::new().format_finite(v).as_bytes().to_vec()
            } else {
                vec![]
            }
        })
        .collect();
    let (s, r) = write(&a, b"", &digits, 0);
    assert!(matches!(r, Outcome::Written));
    assert_eq!(s, "before:[[1.5,null],[-0.0,1e+300]]");
    let (s, _) = write(&a, b"", &digits, OPT_INDENT_2);
    assert_eq!(
        s,
        "before:[\n  [\n    1.5,\n    null\n  ],\n  [\n    -0.0,\n    1e+300\n  ]\n]"
    );
    // halves are widened
    let h = info(b'f', 2, &[2], &[2], vec![0x00, 0x3c, 0x01, 0x00]);
    assert_eq!(
        float_leaves(&h),
        vec![1.0f32.to_bits() as u64, 2f32.powi(-24).to_bits() as u64]
    );
    assert_eq!(float_leaves(&info(b'i', 2, &[1], &[2], vec![0, 0])), Vec::<u64>::new());
}

#[test]
fn declined_arrays_leave_the_output_as_it_was() {
    let last = 2_932_896i64;
    let data: Vec<u8> = [0, i64::MIN, last, last + 1]
        .iter()
        .flat_map(|v| v.to_le_bytes())
        .collect();
    let a = info(b'M', 8, &[2, 2], &[16, 8], data);
    assert!(needs_dtype(&a));
    let (s, r) = write(&a, b"<M8[D]", &vec![], 0);
    assert_eq!(s, "before:");
    match r {
        Outcome::Declined(Reason::Unrepresentable { v, unit }) => {
            assert_eq!(v, last + 1);
            assert_eq!(
                unit,
                Dt64Unit {
                    base: Unit::Day,
                    mult: 1
                }
            );
        }
        _ => panic!("not declined"),
    }
    let (s, r) = write(&a, b"<M8[s]", &vec![], 0);
    assert!(matches!(r, Outcome::Written));
    assert_eq!(
        s,
        "before:[[\"1970-01-01T00:00:00\",null],[\"1970-02-03T22:41:36\",\"1970-02-03T22:41:37\"]]"
    );
    let (_, r) = write(&a, b"<M8", &vec![], 0);
    assert!(matches!(
        r,
        Outcome::Declined(Reason::GenericValue { v: 0 })
    ));
    let (_, r) = write(&a, b"<M8[xx]", &vec![], 0);
    match r {
        Outcome::Declined(Reason::UnparseableDtype { dtype }) => assert_eq!(dtype, b"<M8[xx]"),
        _ => panic!("not declined"),
    }
}

#[test]
fn the_first_check_that_fails_is_the_reason() {
    let mut a = info(b'U', 12, &[3, 2], &[24, 12], vec![]);
    a.flags = 0x502;
    assert!(!needs_dtype(&a));
    match write(&a, b"", &vec![], 0).1 {
        Outcome::Declined(Reason::NotContiguous { flags, shape }) => {
            assert_eq!(flags, 0x502);
            assert_eq!(shape, vec![3, 2]);
        }
        _ => panic!("not declined"),
    }
    a.flags = C_CONTIGUOUS;
    assert!(needs_dtype(&a));
    assert!(matches!(
        write(&a, b">U3", &vec![], 0).1,
        Outcome::Declined(Reason::NotNative { .. })
    ));
    a.flags = C_CONTIGUOUS | NOTSWAPPED;
    assert!(matches!(
        write(&a, b"<U3", &vec![], 0).1,
        Outcome::Declined(Reason::Dtype { .. })
    ));
    let scalar = info(b'f', 8, &[], &[], vec![0; 8]);
    assert!(matches!(
        write(&scalar, b"<f8", &vec![], 0).1,
        Outcome::Declined(Reason::ZeroDim { .. })
    ));
    // the unit of an array without elements is not asked for
    assert!(!needs_dtype(&info(b'M', 8, &[2, 0], &[8, 8], vec![])));
}

#[test]
fn no_element_is_longer_than_promised() {
    let longest: Vec<(Elem, Vec<u8>)> = vec![
        (Elem::Bool, vec![0]),
        (Elem::I8, vec![0x80]),
        (Elem::U8, vec![0xff]),
        (Elem::I16, vec![0, 0x80]),
        (Elem::U16, vec![0xff, 0xff]),
        (Elem::I32, vec![0, 0, 0, 0x80]),
        (Elem::U32, vec![0xff; 4]),
        (Elem::I64, i64::MIN.to_le_bytes().to_vec()),
        (Elem::U64, vec![0xff; 8]),
    ];
    for (elem, data) in longest {
        let mut out = Out::new(0);
        assert!(write_leaf(&mut out, elem, &data, 0, None, b"", 0).is_ok());
        assert!(out.len() <= max_text(elem), "{elem:?}");
    }
    let mut out = Out::new(0);
    let unit = Dt64Unit {
        base: Unit::Micro,
        mult: 1,
    };
    assert!(write_dt64(&mut out, 1, unit, 2).is_ok());
    assert_eq!(out.finish(), b"\"1970-01-01T00:00:00.000001+00:00\"");
    assert_eq!(max_text(Elem::Dt64), 34);
    let mut out = Out::new(0);
    let r = serialize_scalar(&mut out, Elem::I16, &[1, 0], b"", b"", 0);
    assert!(matches!(r, Outcome::Written));
    assert_eq!(out.finish(), b"1");
}

#[test]
fn keys_are_ordered_by_their_bytes() {
    let order = |keys: &[&str]| {
        sort_keys(&keys.iter().map(|k| k.as_bytes().to_vec()).collect())
    };
    assert_eq!(order(&[]), Vec::<usize>::new());
    assert_eq!(order(&["b", "a"]), vec![1, 0]);
    assert_eq!(order(&["ab", "a", "", "b", "a"]), vec![2, 1, 4, 0, 3]);
    // the order of code points, as Python compares strings
    let words = ["z", "é", "日", "🔥", "~", "\u{ffff}", "aé", "a"];
    let mut sorted: Vec<usize> = (0..words.len()).collect();
    sorted.sort_by_key(|&i| words[i].chars().collect::<Vec<char>>());
    assert_eq!(order(&words), sorted);
}
