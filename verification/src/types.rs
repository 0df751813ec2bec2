//! The types beyond the builtins that an interpreter has loaded, by the addresses
//! of their type objects. Zero is no address.
use crate::decline::Elem;
use vstd::prelude::*;

verus! {

/// The datetime group.
#[derive(Clone, Copy, Debug, PartialEq, Eq, Structural)]
pub struct DtTypes {
    pub datetime: usize,
    pub date: usize,
    pub time: usize,
    pub delta: usize,
}

/// The numpy group: the array type and the scalar types that are written.
#[derive(Clone, Copy, Debug, PartialEq, Eq, Structural)]
pub struct NumpyTypes {
    pub ndarray: usize,
    pub float64: usize,
    pub float32: usize,
    pub float16: usize,
    pub int64: usize,
    pub int32: usize,
    pub int16: usize,
    pub int8: usize,
    pub uint64: usize,
    pub uint32: usize,
    pub uint16: usize,
    pub uint8: usize,
    pub bool_: usize,
    pub datetime64: usize,
}

/// The interned names that lookups use.
#[derive(Clone, Copy, Debug, PartialEq, Eq, Structural)]
pub struct Names {
    pub datetime_mod: usize,
    pub numpy: usize,
    pub datetime_capi: usize,
    pub utcoffset: usize,
    pub array_struct: usize,
    pub dtype: usize,
    pub str: usize,
}

/// The types of one interpreter. A group is absent while its owner is zero, so
/// that a zeroed cache is a valid and empty one; zero names mean that no group can
/// be looked up.
#[derive(Clone, Copy, Debug, PartialEq, Eq, Structural)]
pub struct TypeCache {
    /// Owner of the datetime group: the capsule that it was read from.
    pub dt_capsule: usize,
    pub dt: DtTypes,
    /// Owner of the numpy group: the module that it was read from.
    pub np_module: usize,
    pub np: NumpyTypes,
    pub names: Names,
}

impl DtTypes {
    pub open spec fn zeros() -> DtTypes {
        DtTypes { datetime: 0, date: 0, time: 0, delta: 0 }
    }

    pub open spec fn addresses(self) -> Seq<usize> {
        seq![self.datetime, self.date, self.time, self.delta]
    }

    fn zeroed() -> (r: DtTypes)
        ensures
            r == DtTypes::zeros(),
    {
        DtTypes { datetime: 0, date: 0, time: 0, delta: 0 }
    }
}

impl NumpyTypes {
    pub open spec fn zeros() -> NumpyTypes {
        NumpyTypes {
            ndarray: 0,
            float64: 0,
            float32: 0,
            float16: 0,
            int64: 0,
            int32: 0,
            int16: 0,
            int8: 0,
            uint64: 0,
            uint32: 0,
            uint16: 0,
            uint8: 0,
            bool_: 0,
            datetime64: 0,
        }
    }

    pub open spec fn addresses(self) -> Seq<usize> {
        seq![
            self.ndarray,
            self.float64,
            self.float32,
            self.float16,
            self.int64,
            self.int32,
            self.int16,
            self.int8,
            self.uint64,
            self.uint32,
            self.uint16,
            self.uint8,
            self.bool_,
            self.datetime64,
        ]
    }

    /// Is `ty` one of the types of the group?
    pub open spec fn has(self, ty: usize) -> bool {
        self.addresses().contains(ty)
    }

    fn zeroed() -> (r: NumpyTypes)
        ensures
            r == NumpyTypes::zeros(),
    {
        NumpyTypes {
            ndarray: 0,
            float64: 0,
            float32: 0,
            float16: 0,
            int64: 0,
            int32: 0,
            int16: 0,
            int8: 0,
            uint64: 0,
            uint32: 0,
            uint16: 0,
            uint8: 0,
            bool_: 0,
            datetime64: 0,
        }
    }

    fn list(&self) -> (r: [usize; 14])
        ensures
            r@ == self.addresses(),
    {
        let r: [usize; 14] = [
            self.ndarray,
            self.float64,
            self.float32,
            self.float16,
            self.int64,
            self.int32,
            self.int16,
            self.int8,
            self.uint64,
            self.uint32,
            self.uint16,
            self.uint8,
            self.bool_,
            self.datetime64,
        ];
        assert(r@ =~= self.addresses());
        r
    }
}

/// The element type that a scalar type holds, the first that matches in the order
/// of the group.
pub open spec fn scalar_type(np: NumpyTypes, ty: usize) -> Option<Elem> {
    if ty == np.float64 {
        Some(Elem::F64)
    } else if ty == np.float32 {
        Some(Elem::F32)
    } else if ty == np.float16 {
        Some(Elem::F16)
    } else if ty == np.int64 {
        Some(Elem::I64)
    } else if ty == np.int32 {
        Some(Elem::I32)
    } else if ty == np.int16 {
        Some(Elem::I16)
    } else if ty == np.int8 {
        Some(Elem::I8)
    } else if ty == np.uint64 {
        Some(Elem::U64)
    } else if ty == np.uint32 {
        Some(Elem::U32)
    } else if ty == np.uint16 {
        Some(Elem::U16)
    } else if ty == np.uint8 {
        Some(Elem::U8)
    } else if ty == np.bool_ {
        Some(Elem::Bool)
    } else if ty == np.datetime64 {
        Some(Elem::Dt64)
    } else {
        None
    }
}

/// The element type of a numpy scalar, or `None` if `ty` is not a scalar type of
/// the group.
pub fn scalar_elem(np: &NumpyTypes, ty: usize) -> (r: Option<Elem>)
    ensures
        r == scalar_type(*np, ty),
{
    if ty == np.float64 {
        Some(Elem::F64)
    } else if ty == np.float32 {
        Some(Elem::F32)
    } else if ty == np.float16 {
        Some(Elem::F16)
    } else if ty == np.int64 {
        Some(Elem::I64)
    } else if ty == np.int32 {
        Some(Elem::I32)
    } else if ty == np.int16 {
        Some(Elem::I16)
    } else if ty == np.int8 {
        Some(Elem::I8)
    } else if ty == np.uint64 {
        Some(Elem::U64)
    } else if ty == np.uint32 {
        Some(Elem::U32)
    } else if ty == np.uint16 {
        Some(Elem::U16)
    } else if ty == np.uint8 {
        Some(Elem::U8)
    } else if ty == np.bool_ {
        Some(Elem::Bool)
    } else if ty == np.datetime64 {
        Some(Elem::Dt64)
    } else {
        None
    }
}

/// A type of the group is the array type or has an element type, and no other type
/// has one.
pub proof fn group_is_arrays_and_scalars(np: NumpyTypes, ty: usize)
    ensures
        np.has(ty) <==> ty == np.ndarray || scalar_type(np, ty) is Some,
{
    let a = np.addresses();
    if np.has(ty) {
        let i = choose|i: int| 0 <= i < a.len() && a[i] == ty;
        assert(a[i] == ty);
    }
    if ty == np.ndarray || scalar_type(np, ty) is Some {
        assert(a[0] == np.ndarray && a[1] == np.float64 && a[2] == np.float32 && a[3] == np.float16
            && a[4] == np.int64 && a[5] == np.int32 && a[6] == np.int16 && a[7] == np.int8 && a[8]
            == np.uint64 && a[9] == np.uint32 && a[10] == np.uint16 && a[11] == np.uint8 && a[12]
            == np.bool_ && a[13] == np.datetime64);
    }
}

impl Names {
    pub open spec fn zeros() -> Names {
        Names {
            datetime_mod: 0,
            numpy: 0,
            datetime_capi: 0,
            utcoffset: 0,
            array_struct: 0,
            dtype: 0,
            str: 0,
        }
    }

    pub open spec fn addresses(self) -> Seq<usize> {
        seq![
            self.datetime_mod,
            self.numpy,
            self.datetime_capi,
            self.utcoffset,
            self.array_struct,
            self.dtype,
            self.str,
        ]
    }

    /// What the name in each slot is.
    pub open spec fn texts() -> Seq<Seq<char>> {
        seq![
            "_datetime"@,
            "numpy"@,
            "datetime_CAPI"@,
            "utcoffset"@,
            "__array_struct__"@,
            "dtype"@,
            "str"@,
        ]
    }

    fn zeroed() -> (r: Names)
        ensures
            r == Names::zeros(),
    {
        Names {
            datetime_mod: 0,
            numpy: 0,
            datetime_capi: 0,
            utcoffset: 0,
            array_struct: 0,
            dtype: 0,
            str: 0,
        }
    }

    /// The name that belongs into slot `i`.
    pub fn text(i: usize) -> (r: &'static str)
        requires
            i < 7,
        ensures
            r@ == Names::texts()[i as int],
    {
        match i {
            0 => "_datetime",
            1 => "numpy",
            2 => "datetime_CAPI",
            3 => "utcoffset",
            4 => "__array_struct__",
            5 => "dtype",
            _ => "str",
        }
    }

    /// Puts the address of an interned name into slot `i`.
    pub fn set(&mut self, i: usize, address: usize)
        requires
            i < 7,
        ensures
            final(self).addresses() == old(self).addresses().update(i as int, address),
    {
        match i {
            0 => self.datetime_mod = address,
            1 => self.numpy = address,
            2 => self.datetime_capi = address,
            3 => self.utcoffset = address,
            4 => self.array_struct = address,
            5 => self.dtype = address,
            _ => self.str = address,
        }
        assert(self.addresses() =~= old(self).addresses().update(i as int, address));
    }
}

/// What a look at `sys.modules` found of the datetime module.
#[derive(Clone, Copy, Debug, PartialEq, Eq, Structural)]
pub enum CapiRead {
    /// The look itself raised.
    Raised,
    /// There is no such module, or what is there is not a module.
    NoModule,
    /// The module has no capsule.
    NoCapsule,
    /// The capsule is not the datetime interface.
    BadCapsule,
    /// The capsule, and the types in it.
    Capsule { capsule: usize, types: DtTypes },
}

/// What a look at `sys.modules` found of numpy.
#[derive(Clone, Copy, Debug, PartialEq, Eq, Structural)]
pub enum NumpyRead {
    /// The look itself raised.
    Raised,
    /// There is no such module, or what is there is not a module.
    NoModule,
    /// The module that the group was read from.
    Same,
    /// The module, which lacks one of the types.
    Incomplete { module: usize },
    /// The module, and the types in it.
    Module { module: usize, types: NumpyTypes },
}

/// A Python exception is set.
#[derive(Clone, Copy, Debug, PartialEq, Eq, Structural)]
pub struct PyErrSet;

/// The addresses in `s` that are not zero, in order.
pub open spec fn nonzero(s: Seq<usize>) -> Seq<usize>
    decreases s.len(),
{
    if s.len() == 0 {
        Seq::empty()
    } else if s.last() == 0 {
        nonzero(s.drop_last())
    } else {
        nonzero(s.drop_last()).push(s.last())
    }
}

/// Appends the addresses in `list` that are not zero. `seen` is what `to` was
/// made from so far.
fn append_nonzero(to: &mut Vec<usize>, list: &[usize], Ghost(seen): Ghost<Seq<usize>>)
    requires
        old(to)@ == nonzero(seen),
    ensures
        final(to)@ == nonzero(seen + list@),
{
    assert(seen + list@.subrange(0, 0) =~= seen);
    let mut i: usize = 0;
    while i < list.len()
        invariant
            i <= list@.len(),
            to@ == nonzero(seen + list@.subrange(0, i as int)),
        decreases list@.len() - i,
    {
        proof {
            let next = seen + list@.subrange(0, i + 1);
            assert(next.drop_last() =~= seen + list@.subrange(0, i as int));
            assert(next.last() == list@[i as int]);
        }
        if list[i] != 0 {
            to.push(list[i]);
        }
        i += 1;
    }
    assert(list@.subrange(0, i as int) =~= list@);
}

impl TypeCache {
    /// The cache of an interpreter that has looked nothing up.
    pub open spec fn zeros() -> TypeCache {
        TypeCache {
            dt_capsule: 0,
            dt: DtTypes::zeros(),
            np_module: 0,
            np: NumpyTypes::zeros(),
            names: Names::zeros(),
        }
    }

    /// Everything that the cache may hold a reference to.
    pub open spec fn addresses(self) -> Seq<usize> {
        seq![self.dt_capsule] + self.dt.addresses() + seq![self.np_module] + self.np.addresses()
            + self.names.addresses()
    }

    pub fn zeroed() -> (r: TypeCache)
        ensures
            r == TypeCache::zeros(),
    {
        TypeCache {
            dt_capsule: 0,
            dt: DtTypes::zeroed(),
            np_module: 0,
            np: NumpyTypes::zeroed(),
            names: Names::zeroed(),
        }
    }

    /// Has the datetime group still to be looked up, and can it be?
    pub fn datetime_wanted(&self) -> (r: bool)
        ensures
            r == (self.dt_capsule == 0 && self.names.datetime_mod != 0),
    {
        self.dt_capsule == 0 && self.names.datetime_mod != 0
    }

    /// The datetime group, loaded on first use from what `read` found. It is absent
    /// when the module is not loaded or has no valid capsule, and may be asked for
    /// again later. Once loaded it stays.
    pub fn datetime(&mut self, read: CapiRead) -> (r: Result<Option<DtTypes>, PyErrSet>)
        ensures
            if old(self).dt_capsule != 0 {
                r == Ok::<Option<DtTypes>, PyErrSet>(Some(old(self).dt)) && *final(self) == *old(
                    self,
                )
            } else if old(self).names.datetime_mod == 0 {
                r == Ok::<Option<DtTypes>, PyErrSet>(None) && *final(self) == *old(self)
            } else {
                match read {
                    CapiRead::Raised => r == Err::<Option<DtTypes>, PyErrSet>(PyErrSet)
                        && *final(self) == *old(self),
                    CapiRead::Capsule { capsule, types } => r == Ok::<Option<DtTypes>, PyErrSet>(
                        Some(types),
                    ) && *final(self) == (TypeCache { dt_capsule: capsule, dt: types, ..*old(self)
                    }),
                    _ => r == Ok::<Option<DtTypes>, PyErrSet>(None) && *final(self) == *old(self),
                }
            },
    {
        if self.dt_capsule != 0 {
            return Ok(Some(self.dt));
        }
        if self.names.datetime_mod == 0 {
            return Ok(None);
        }
        match read {
            CapiRead::Raised => Err(PyErrSet),
            CapiRead::Capsule { capsule, types } => {
                self.dt = types;
                self.dt_capsule = capsule;
                Ok(Some(types))
            },
            _ => Ok(None),
        }
    }

    /// The numpy group, if it is loaded and `ty` is one of its types. A hit is
    /// trusted: the group holds its types, so their addresses are not reused.
    pub open spec fn numpy_hit_spec(self, ty: usize) -> Option<NumpyTypes> {
        if self.np_module != 0 && self.np.has(ty) {
            Some(self.np)
        } else {
            None
        }
    }

    pub fn numpy_hit(&self, ty: usize) -> (r: Option<NumpyTypes>)
        ensures
            r == self.numpy_hit_spec(ty),
    {
        proof {
            group_is_arrays_and_scalars(self.np, ty);
        }
        if self.np_module != 0 && (ty == self.np.ndarray || scalar_elem(&self.np, ty).is_some()) {
            Some(self.np)
        } else {
            None
        }
    }

    /// Did `read` find anything but the module that the group was read from?
    pub open spec fn numpy_replaced(self, read: NumpyRead) -> bool {
        self.names.numpy != 0 && match read {
            NumpyRead::Module { module, .. } => module != self.np_module,
            NumpyRead::Incomplete { module } => module != self.np_module,
            NumpyRead::NoModule => self.np_module != 0,
            NumpyRead::Same => false,
            NumpyRead::Raised => false,
        }
    }

    /// The cache after a miss: the group is read anew, and absent where that fails.
    pub open spec fn numpy_after(self, read: NumpyRead) -> TypeCache {
        if !self.numpy_replaced(read) {
            self
        } else {
            match read {
                NumpyRead::Module { module, types } => TypeCache {
                    np_module: module,
                    np: types,
                    ..self
                },
                _ => TypeCache { np_module: 0, np: NumpyTypes::zeros(), ..self },
            }
        }
    }

    /// The numpy group for an object of type `ty`: a hit, or what is left of the
    /// group after `read`. Returns also the addresses that were held for a group
    /// that was replaced, to be released.
    pub fn numpy(&mut self, ty: usize, read: NumpyRead) -> (r: (
        Result<Option<NumpyTypes>, PyErrSet>,
        Vec<usize>,
    ))
        ensures
            if old(self).numpy_hit_spec(ty) is Some {
                &&& r.0 == Ok::<Option<NumpyTypes>, PyErrSet>(old(self).numpy_hit_spec(ty))
                &&& *final(self) == *old(self)
                &&& r.1@ == Seq::<usize>::empty()
            } else if read is Raised && old(self).names.numpy != 0 {
                &&& r.0 == Err::<Option<NumpyTypes>, PyErrSet>(PyErrSet)
                &&& *final(self) == *old(self)
                &&& r.1@ == Seq::<usize>::empty()
            } else {
                &&& *final(self) == old(self).numpy_after(read)
                &&& r.0 == Ok::<Option<NumpyTypes>, PyErrSet>(final(self).numpy_hit_spec(ty))
                &&& r.1@ == if old(self).numpy_replaced(read) {
                    nonzero(seq![old(self).np_module] + old(self).np.addresses())
                } else {
                    Seq::empty()
                }
            },
    {
        let none: Vec<usize> = Vec::new();
        match self.numpy_hit(ty) {
            Some(np) => return (Ok(Some(np)), none),
            None => {},
        }
        if self.names.numpy == 0 {
            return (Ok(None), none);
        }
        let (module, types): (usize, Option<NumpyTypes>) = match read {
            NumpyRead::Raised => return (Err(PyErrSet), none),
            NumpyRead::Same => return (Ok(None), none),
            NumpyRead::NoModule => (0, None),
            NumpyRead::Incomplete { module } => (module, None),
            NumpyRead::Module { module, types } => (module, Some(types)),
        };
        if module == self.np_module {
            return (Ok(None), none);
        }
        let released: Vec<usize> = self.numpy_held();
        match types {
            Some(types) => {
                self.np_module = module;
                self.np = types;
            },
            None => {
                self.np_module = 0;
                self.np = NumpyTypes::zeroed();
            },
        }
        (Ok(self.numpy_hit(ty)), released)
    }

    /// The addresses that are not zero: the references that the cache holds.
    pub fn held(&self) -> (r: Vec<usize>)
        ensures
            r@ == nonzero(self.addresses()),
    {
        let list: [usize; 5] = [
            self.dt_capsule,
            self.dt.datetime,
            self.dt.date,
            self.dt.time,
            self.dt.delta,
        ];
        let mut r: Vec<usize> = Vec::new();
        append_nonzero(&mut r, &list, Ghost(Seq::empty()));
        let ghost seen: Seq<usize> = seq![self.dt_capsule] + self.dt.addresses();
        assert(Seq::empty() + list@ =~= seen);
        let np_module: [usize; 1] = [self.np_module];
        append_nonzero(&mut r, &np_module, Ghost(seen));
        proof {
            seen = seen + seq![self.np_module];
            assert(np_module@ =~= seq![self.np_module]);
        }
        let np: [usize; 14] = self.np.list();
        append_nonzero(&mut r, &np, Ghost(seen));
        proof {
            seen = seen + self.np.addresses();
        }
        let names: [usize; 7] = [
            self.names.datetime_mod,
            self.names.numpy,
            self.names.datetime_capi,
            self.names.utcoffset,
            self.names.array_struct,
            self.names.dtype,
            self.names.str,
        ];
        append_nonzero(&mut r, &names, Ghost(seen));
        assert(names@ =~= self.names.addresses());
        r
    }

    /// Empties the cache. Returns what it held, to be released.
    pub fn clear(&mut self) -> (r: Vec<usize>)
        ensures
            r@ == nonzero(old(self).addresses()),
            *final(self) == TypeCache::zeros(),
    {
        let r: Vec<usize> = self.held();
        *self = TypeCache::zeroed();
        r
    }

    /// What the numpy group holds.
    fn numpy_held(&self) -> (r: Vec<usize>)
        ensures
            r@ == nonzero(seq![self.np_module] + self.np.addresses()),
    {
        let mut r: Vec<usize> = Vec::new();
        let np_module: [usize; 1] = [self.np_module];
        append_nonzero(&mut r, &np_module, Ghost(Seq::empty()));
        let ghost seen: Seq<usize> = seq![self.np_module];
        assert(Seq::empty() + np_module@ =~= seen);
        let np: [usize; 14] = self.np.list();
        append_nonzero(&mut r, &np, Ghost(seen));
        r
    }
}

/// Clearing a cache that is empty releases nothing and leaves it empty.
pub proof fn zeroed_cache_holds_nothing()
    ensures
        nonzero(TypeCache::zeros().addresses()) == Seq::<usize>::empty(),
{
    let a = TypeCache::zeros().addresses();
    assert forall|i: int| 0 <= i < a.len() implies a[i] == 0 by {}
    all_zero(a);
}

proof fn all_zero(s: Seq<usize>)
    requires
        forall|i: int| 0 <= i < s.len() ==> #[trigger] s[i] == 0,
    ensures
        nonzero(s) == Seq::<usize>::empty(),
    decreases s.len(),
{
    if s.len() > 0 {
        all_zero(s.drop_last());
        assert(s[s.len() - 1] == 0);
    }
}

} // verus!
