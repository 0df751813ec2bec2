//! The arguments of `dumps`.
use crate::number::{ascii_chars, int_text, itoa_format};
use crate::opts::{on, OPT_NON_STR_KEYS};
use vstd::prelude::*;
use vstd::string::*;

verus! {

/// All options that there are.
pub const ALL_OPTS: u32 = 4095;

/// What is wrong with the arguments.
#[derive(Clone, Copy, Debug, PartialEq, Eq, Structural)]
pub enum ArgError {
    /// There is no object.
    Missing,
    /// There are this many positional arguments, which is too many.
    TooMany(usize),
    /// A keyword is not known, or its argument was given by position too.
    Keyword,
    /// `default` cannot be called.
    NotCallable,
    /// `option` is not a set of options.
    InvalidOpts,
    /// `option` asks for keys that are not strings.
    NonStrKeys,
}

/// Which arguments are which, by their index.
#[derive(Clone, Copy, Debug, PartialEq, Eq, Structural)]
pub struct Bound {
    pub default: Option<usize>,
    pub option: Option<usize>,
}

/// What was given as `default`.
#[derive(Clone, Copy, Debug, PartialEq, Eq, Structural)]
pub enum DefaultArg {
    /// Nothing, or `None`.
    Absent,
    Callable,
    NotCallable,
}

/// What was given as `option`.
#[derive(Clone, Copy, Debug, PartialEq, Eq, Structural)]
pub enum OptionArg {
    /// Nothing, or `None`.
    Absent,
    NotInt,
    /// An integer, if it fits.
    Int(Option<i64>),
}

/// `default`.
pub open spec fn default_name() -> Seq<u8> {
    seq![0x64u8, 0x65, 0x66, 0x61, 0x75, 0x6c, 0x74]
}

/// `option`.
pub open spec fn option_name() -> Seq<u8> {
    seq![0x6fu8, 0x70, 0x74, 0x69, 0x6f, 0x6e]
}

/// The arguments with the first `n` keywords. Arguments follow each other: first those
/// by position, then those by keyword.
pub open spec fn bound(nargs: usize, keywords: Seq<Vec<u8>>, n: int) -> Result<Bound, ArgError>
    decreases n,
{
    if n <= 0 {
        Ok(
            Bound {
                default: if nargs >= 2 {
                    Some(1)
                } else {
                    None
                },
                option: if nargs >= 3 {
                    Some(2)
                } else {
                    None
                },
            },
        )
    } else {
        match bound(nargs, keywords, n - 1) {
            Err(e) => Err(e),
            Ok(b) => {
                let at = (nargs + n - 1) as usize;
                if keywords[n - 1]@ == default_name() && nargs < 2 {
                    Ok(Bound { default: Some(at), ..b })
                } else if keywords[n - 1]@ == option_name() && nargs < 3 {
                    Ok(Bound { option: Some(at), ..b })
                } else {
                    Err(ArgError::Keyword)
                }
            },
        }
    }
}

/// The arguments, or what is wrong with their number or their keywords.
pub open spec fn arguments(nargs: usize, keywords: Seq<Vec<u8>>) -> Result<Bound, ArgError> {
    if nargs < 1 {
        Err(ArgError::Missing)
    } else if nargs > 3 {
        Err(ArgError::TooMany(nargs))
    } else {
        bound(nargs, keywords, keywords.len() as int)
    }
}

/// Is this keyword `name`?
fn kw_is(keyword: &Vec<u8>, name: &[u8]) -> (r: bool)
    ensures
        r == (keyword@ == name@),
{
    if keyword.len() != name.len() {
        return false;
    }
    let mut i: usize = 0;
    while i < name.len()
        invariant
            keyword@.len() == name@.len(),
            i <= name@.len(),
            forall|k: int| 0 <= k < i ==> keyword@[k] == name@[k],
        decreases name@.len() - i,
    {
        if keyword[i] != name[i] {
            return false;
        }
        i += 1;
    }
    assert(keyword@ =~= name@);
    true
}

/// What keeps the first keywords from being bound keeps all from it.
proof fn bound_err(nargs: usize, keywords: Seq<Vec<u8>>, i: int, n: int)
    requires
        0 <= i <= n,
        bound(nargs, keywords, i) is Err,
    ensures
        bound(nargs, keywords, n) == bound(nargs, keywords, i),
    decreases n - i,
{
    if i < n {
        bound_err(nargs, keywords, i, n - 1);
    }
}

/// Binds the arguments of a call: `nargs` by position, and one for each keyword.
pub fn bind(nargs: usize, keywords: &Vec<Vec<u8>>) -> (r: Result<Bound, ArgError>)
    requires
        nargs + keywords@.len() <= usize::MAX,
    ensures
        r == arguments(nargs, keywords@),
{
    if nargs < 1 {
        return Err(ArgError::Missing);
    }
    if nargs > 3 {
        return Err(ArgError::TooMany(nargs));
    }
    let default_kw: [u8; 7] = [0x64, 0x65, 0x66, 0x61, 0x75, 0x6c, 0x74];
    let option_kw: [u8; 6] = [0x6f, 0x70, 0x74, 0x69, 0x6f, 0x6e];
    assert(default_kw@ =~= default_name());
    assert(option_kw@ =~= option_name());
    let mut b: Bound = Bound {
        default: if nargs >= 2 { Some(1) } else { None },
        option: if nargs >= 3 { Some(2) } else { None },
    };
    let mut i: usize = 0;
    while i < keywords.len()
        invariant
            1 <= nargs <= 3,
            nargs + keywords@.len() <= usize::MAX,
            default_kw@ == default_name(),
            option_kw@ == option_name(),
            i <= keywords@.len(),
            bound(nargs, keywords@, i as int) == Ok::<Bound, ArgError>(b),
        decreases keywords@.len() - i,
    {
        if kw_is(&keywords[i], &default_kw) && nargs < 2 {
            b.default = Some(nargs + i);
        } else if kw_is(&keywords[i], &option_kw) && nargs < 3 {
            b.option = Some(nargs + i);
        } else {
            proof {
                bound_err(nargs, keywords@, i + 1, keywords@.len() as int);
            }
            return Err(ArgError::Keyword);
        }
        i += 1;
    }
    Ok(b)
}

/// Whether there is a `default`, and the options; or what is wrong with either.
pub open spec fn settings_of(default: DefaultArg, option: OptionArg) -> Result<
    (bool, u32),
    ArgError,
> {
    if default == DefaultArg::NotCallable {
        Err(ArgError::NotCallable)
    } else {
        let has_default = default == DefaultArg::Callable;
        match option {
            OptionArg::Absent => Ok((has_default, 0)),
            OptionArg::NotInt => Err(ArgError::InvalidOpts),
            OptionArg::Int(None) => Err(ArgError::InvalidOpts),
            OptionArg::Int(Some(v)) => if !(0 <= v <= ALL_OPTS) {
                Err(ArgError::InvalidOpts)
            } else if on(v as u32, OPT_NON_STR_KEYS) {
                Err(ArgError::NonStrKeys)
            } else {
                Ok((has_default, v as u32))
            },
        }
    }
}

/// Checks `default` and `option`.
pub fn settings(default: DefaultArg, option: OptionArg) -> (r: Result<(bool, u32), ArgError>)
    ensures
        r == settings_of(default, option),
{
    if default == DefaultArg::NotCallable {
        return Err(ArgError::NotCallable);
    }
    let has_default: bool = default == DefaultArg::Callable;
    match option {
        OptionArg::Absent => Ok((has_default, 0)),
        OptionArg::NotInt => Err(ArgError::InvalidOpts),
        OptionArg::Int(None) => Err(ArgError::InvalidOpts),
        OptionArg::Int(Some(v)) => {
            if !(0 <= v && v <= ALL_OPTS as i64) {
                return Err(ArgError::InvalidOpts);
            }
            let opts: u32 = v as u32;
            if opts & OPT_NON_STR_KEYS != 0 {
                return Err(ArgError::NonStrKeys);
            }
            Ok((has_default, opts))
        },
    }
}

/// What is said of an error in the arguments.
pub open spec fn arg_text(e: ArgError) -> Seq<char> {
    match e {
        ArgError::Missing => "dumps() missing required argument 'obj' (pos 1)"@,
        ArgError::TooMany(n) => "dumps() takes at most 3 positional arguments ("@ + ascii_chars(
            int_text(n as int),
        ) + " given)"@,
        ArgError::Keyword => "dumps() got an unexpected or duplicate keyword argument"@,
        ArgError::NotCallable => "default must be a callable"@,
        ArgError::InvalidOpts => "Invalid opts"@,
        ArgError::NonStrKeys => "isojson does not support OPT_NON_STR_KEYS"@,
    }
}

/// What is said of an error in the arguments.
pub fn arg_message(e: ArgError) -> (r: String)
    ensures
        r@ == arg_text(e),
{
    match e {
        ArgError::Missing => "dumps() missing required argument 'obj' (pos 1)".to_owned(),
        ArgError::TooMany(n) => {
            let mut r: String = "dumps() takes at most 3 positional arguments (".to_owned();
            r.append(itoa_format(n as i128).as_str());
            r.append(" given)");
            r
        },
        ArgError::Keyword => "dumps() got an unexpected or duplicate keyword argument".to_owned(),
        ArgError::NotCallable => "default must be a callable".to_owned(),
        ArgError::InvalidOpts => "Invalid opts".to_owned(),
        ArgError::NonStrKeys => "isojson does not support OPT_NON_STR_KEYS".to_owned(),
    }
}

/// May an argument be given by this keyword, when `nargs` were given by position?
pub open spec fn may_name(nargs: usize, keyword: Seq<u8>) -> bool {
    nargs < 2 && keyword == default_name() || nargs < 3 && keyword == option_name()
}

/// Arguments are bound by name: what is bound by keyword is an argument whose keyword says
/// so, the last one of several, and what is bound by position is the second or the third.
pub proof fn arguments_go_by_name(nargs: usize, keywords: Seq<Vec<u8>>)
    requires
        1 <= nargs <= 3,
        nargs + keywords.len() <= usize::MAX,
    ensures
        arguments(nargs, keywords) is Ok <==> forall|i: int|
            0 <= i < keywords.len() ==> may_name(nargs, (#[trigger] keywords[i])@),
        arguments(nargs, keywords) matches Ok(b) ==> {
            &&& bound_to(nargs, keywords, default_name(), 2, b.default)
            &&& bound_to(nargs, keywords, option_name(), 3, b.option)
        },
{
    bound_by_name(nargs, keywords, keywords.len() as int);
    if arguments(nargs, keywords) is Ok {
        assert(keywords.subrange(0, keywords.len() as int) =~= keywords);
    }
}

/// Is `to` where the argument `name` was given: at `place` by position, or else at the
/// last of the keywords with this name, or nowhere?
pub open spec fn bound_to(
    nargs: usize,
    keywords: Seq<Vec<u8>>,
    name: Seq<u8>,
    place: int,
    to: Option<usize>,
) -> bool {
    if nargs >= place {
        to == Some((place - 1) as usize)
    } else {
        match to {
            Some(i) => nargs <= i < nargs + keywords.len() && keywords[i - nargs]@ == name
                && forall|k: int|
                i - nargs < k < keywords.len() ==> (#[trigger] keywords[k])@ != name,
            None => forall|k: int| 0 <= k < keywords.len() ==> (#[trigger] keywords[k])@ != name,
        }
    }
}

proof fn bound_by_name(nargs: usize, keywords: Seq<Vec<u8>>, n: int)
    requires
        1 <= nargs <= 3,
        0 <= n <= keywords.len(),
        nargs + keywords.len() <= usize::MAX,
    ensures
        bound(nargs, keywords, n) is Ok <==> forall|i: int|
            0 <= i < n ==> may_name(nargs, (#[trigger] keywords[i])@),
        bound(nargs, keywords, n) matches Ok(b) ==> {
            &&& bound_to(nargs, keywords.subrange(0, n), default_name(), 2, b.default)
            &&& bound_to(nargs, keywords.subrange(0, n), option_name(), 3, b.option)
        },
    decreases n,
{
    assert(default_name()[0] != option_name()[0]);
    if n > 0 {
        bound_by_name(nargs, keywords, n - 1);
        let s = keywords.subrange(0, n);
        let t = keywords.subrange(0, n - 1);
        assert forall|k: int| 0 <= k < n - 1 implies #[trigger] s[k] == t[k] by {}
        assert(s[n - 1] == keywords[n - 1]);
    }
}

/// Every set of the options that there are is taken as it is given, unless it asks for
/// keys that are not strings; nothing else is.
pub proof fn options_are_taken_as_given(default: DefaultArg, v: i64)
    requires
        default != DefaultArg::NotCallable,
    ensures
        settings_of(default, OptionArg::Int(Some(v))) is Ok <==> 0 <= v < 4096 && v / 4 % 2 == 0,
        settings_of(default, OptionArg::Int(Some(v))) matches Ok(s) ==> s.1 == v && (s.0
            <==> default == DefaultArg::Callable),
{
    if 0 <= v < 4096 {
        let o = v as u32;
        assert(o & 4 != 0 <==> o / 4 % 2 == 1) by (bit_vector)
            requires
                o < 4096,
        ;
    }
}

} // verus!
