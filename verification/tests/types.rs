//! The types that an interpreter has loaded.

use isojson::decline::Elem;
use isojson::types::{
    scalar_elem, CapiRead, DtTypes, Names, NumpyRead, NumpyTypes, PyErrSet, TypeCache,
};

#[test]
fn zeroed_cache_clear_is_a_no_op() {
    // a zero-filled cache holds nothing, so that clearing it releases nothing
    let mut c = TypeCache::zeroed();
    assert_eq!(c.clear(), Vec::<usize>::new());
    assert_eq!(c.clear(), Vec::<usize>::new());
    assert!(matches!(c.datetime(CapiRead::NoModule), Ok(None)));
    assert!(c.dt_capsule == 0 && c.names.datetime_mod == 0);
}

fn dt() -> DtTypes {
    DtTypes {
        datetime: 11,
        date: 12,
        time: 13,
        delta: 14,
    }
}

fn np(from: usize) -> NumpyTypes {
    NumpyTypes {
        ndarray: from,
        float64: from + 1,
        float32: from + 2,
        float16: from + 3,
        int64: from + 4,
        int32: from + 5,
        int16: from + 6,
        int8: from + 7,
        uint64: from + 8,
        uint32: from + 9,
        uint16: from + 10,
        uint8: from + 11,
        bool_: from + 12,
        datetime64: from + 13,
    }
}

fn named() -> TypeCache {
    let mut c = TypeCache::zeroed();
    for i in 0..7 {
        c.names.set(i, 101 + i);
    }
    c
}

#[test]
fn names_are_set_by_slot() {
    let texts: Vec<&str> = (0..7).map(Names::text).collect();
    assert_eq!(
        texts,
        vec![
            "_datetime",
            "numpy",
            "datetime_CAPI",
            "utcoffset",
            "__array_struct__",
            "dtype",
            "str"
        ]
    );
    let c = named();
    assert_eq!(c.names.datetime_mod, 101);
    assert_eq!(c.names.numpy, 102);
    assert_eq!(c.names.datetime_capi, 103);
    assert_eq!(c.names.utcoffset, 104);
    assert_eq!(c.names.array_struct, 105);
    assert_eq!(c.names.dtype, 106);
    assert_eq!(c.names.str, 107);
    assert_eq!(c.held(), vec![101, 102, 103, 104, 105, 106, 107]);
}

#[test]
fn datetime_group_is_loaded_once() {
    let mut c = named();
    assert!(c.datetime_wanted());
    assert_eq!(c.datetime(CapiRead::Raised), Err(PyErrSet));
    assert_eq!(c.datetime(CapiRead::NoModule), Ok(None));
    assert_eq!(c.datetime(CapiRead::NoCapsule), Ok(None));
    assert_eq!(c.datetime(CapiRead::BadCapsule), Ok(None));
    assert!(c.datetime_wanted());
    let read = CapiRead::Capsule {
        capsule: 10,
        types: dt(),
    };
    assert_eq!(c.datetime(read), Ok(Some(dt())));
    assert!(!c.datetime_wanted());
    // what is found later does not matter
    assert_eq!(c.datetime(CapiRead::Raised), Ok(Some(dt())));
    assert_eq!(&c.held()[..5], &[10, 11, 12, 13, 14]);
    assert_eq!(
        c.clear(),
        vec![10, 11, 12, 13, 14, 101, 102, 103, 104, 105, 106, 107]
    );
    assert_eq!(c, TypeCache::zeroed());
}

#[test]
fn numpy_hit_is_trusted_and_a_miss_rereads() {
    let mut c = named();
    assert_eq!(c.numpy_hit(21), None);
    let first = NumpyRead::Module {
        module: 20,
        types: np(21),
    };
    assert_eq!(c.numpy(21, first), (Ok(Some(np(21))), vec![]));
    assert_eq!(c.numpy_hit(34), Some(np(21)));
    assert_eq!(c.numpy_hit(35), None);
    // a hit does not look at what was found
    assert_eq!(c.numpy(22, NumpyRead::Raised), (Ok(Some(np(21))), vec![]));
    // a miss with the same module stays a miss
    assert_eq!(c.numpy(99, first), (Ok(None), vec![]));
    assert_eq!(c.numpy(99, NumpyRead::Same), (Ok(None), vec![]));
    assert_eq!(c.numpy_hit(21), Some(np(21)));
    assert_eq!(c.numpy(99, NumpyRead::Raised), (Err(PyErrSet), vec![]));
    // another module replaces the group
    let second = NumpyRead::Module {
        module: 50,
        types: np(51),
    };
    let (r, released) = c.numpy(51, second);
    assert_eq!(r, Ok(Some(np(51))));
    assert_eq!(released, (20..35).collect::<Vec<usize>>());
    assert_eq!(c.numpy_hit(21), None);
    // one without all types leaves no group
    let (r, released) = c.numpy(99, NumpyRead::Incomplete { module: 70 });
    assert_eq!(r, Ok(None));
    assert_eq!(released, (50..65).collect::<Vec<usize>>());
    assert_eq!(c.numpy_hit(51), None);
    assert_eq!(c.np_module, 0);
    // and so does one that is not there
    assert_eq!(c.numpy(99, NumpyRead::NoModule), (Ok(None), vec![]));
    assert_eq!(c.numpy(51, second), (Ok(Some(np(51))), vec![]));
    let (r, released) = c.numpy(99, NumpyRead::NoModule);
    assert_eq!(r, Ok(None));
    assert_eq!(released, (50..65).collect::<Vec<usize>>());
    assert_eq!(c.np_module, 0);
}

#[test]
fn scalar_types_have_their_elements() {
    let n = np(1);
    let want = [
        None,
        Some(Elem::F64),
        Some(Elem::F32),
        Some(Elem::F16),
        Some(Elem::I64),
        Some(Elem::I32),
        Some(Elem::I16),
        Some(Elem::I8),
        Some(Elem::U64),
        Some(Elem::U32),
        Some(Elem::U16),
        Some(Elem::U8),
        Some(Elem::Bool),
        Some(Elem::Dt64),
        None,
    ];
    for (i, w) in want.into_iter().enumerate() {
        assert_eq!(scalar_elem(&n, 1 + i), w);
    }
}
