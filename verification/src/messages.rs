//! The texts of errors.
use crate::decline::{show, shown};
use crate::encode::EncodeError;
use vstd::prelude::*;
use vstd::string::*;

verus! {

/// What is said of an error that needs no more than its name.
pub open spec fn plain_message(e: EncodeError) -> Option<Seq<char>> {
    match e {
        EncodeError::Recursion => Some("Recursion limit reached"@),
        EncodeError::StrNotUtf8 => Some("str is not valid UTF-8: surrogates not allowed"@),
        EncodeError::KeyNotStr => Some("Dict key must be str"@),
        EncodeError::Int53 => Some("Integer exceeds 53-bit range"@),
        EncodeError::Int64 => Some("Integer exceeds 64-bit range"@),
        EncodeError::DefaultDepth => Some("default serializer exceeds recursion limit"@),
        EncodeError::Malformed => Some("numpy array is malformed"@),
        _ => None,
    }
}

/// The text of an error that needs no more than its name.
pub fn plain_error(e: EncodeError) -> (r: Option<&'static str>)
    ensures
        match r {
            Some(m) => plain_message(e) == Some(m@),
            None => plain_message(e) is None,
        },
{
    match e {
        EncodeError::Recursion => Some("Recursion limit reached"),
        EncodeError::StrNotUtf8 => Some("str is not valid UTF-8: surrogates not allowed"),
        EncodeError::KeyNotStr => Some("Dict key must be str"),
        EncodeError::Int53 => Some("Integer exceeds 53-bit range"),
        EncodeError::Int64 => Some("Integer exceeds 64-bit range"),
        EncodeError::DefaultDepth => Some("default serializer exceeds recursion limit"),
        EncodeError::Malformed => Some("numpy array is malformed"),
        _ => None,
    }
}

/// What is said of an object of the type with this name that nothing writes.
pub open spec fn not_serializable_text(class_name: Seq<u8>) -> Seq<char> {
    "Type is not JSON serializable: "@ + shown(class_name)
}

pub fn not_serializable(class_name: &[u8]) -> (r: String)
    ensures
        r@ == not_serializable_text(class_name@),
{
    let mut r: String = "Type is not JSON serializable: ".to_owned();
    r.append(show(class_name).as_str());
    r
}

/// An exception in words: the name of its type, and its text unless that is empty
/// or cannot be had.
pub open spec fn exception_text(class_name: Seq<u8>, text: Option<Seq<u8>>) -> Seq<char> {
    match text {
        Some(t) => if shown(t).len() == 0 {
            shown(class_name)
        } else {
            shown(class_name) + ": "@ + shown(t)
        },
        None => shown(class_name),
    }
}

/// An exception in words.
pub fn describe_exception(class_name: &[u8], text: Option<&[u8]>) -> (r: String)
    ensures
        r@ == exception_text(
            class_name@,
            match text {
                Some(t) => Some(t@),
                None => None,
            },
        ),
{
    let mut r: String = show(class_name);
    match text {
        Some(t) => {
            let t: String = show(t);
            if t.as_str().unicode_len() > 0 {
                r.append(": ");
                r.append(t.as_str());
            }
        },
        None => {},
    }
    r
}

/// What is said when `utcoffset` raised: `what` is `datetime` or `time`.
pub fn utcoffset_raised(what: &str, class_name: &[u8], text: Option<&[u8]>) -> (r: String)
    ensures
        r@ == what@ + ".utcoffset() raised "@ + exception_text(
            class_name@,
            match text {
                Some(t) => Some(t@),
                None => None,
            },
        ),
{
    let mut r: String = what.to_owned();
    r.append(".utcoffset() raised ");
    r.append(describe_exception(class_name, text).as_str());
    r
}

/// An exception in words begins with the name of its type and ends with its text, if it
/// has any, and nothing but a colon and a space stands between them.
pub proof fn exceptions_are_named_and_told(class_name: Seq<u8>, text: Option<Seq<u8>>)
    ensures
        ({
            let m = exception_text(class_name, text);
            let n = shown(class_name).len() as int;
            let t = match text {
                Some(t) => shown(t),
                None => Seq::empty(),
            };
            &&& m.len() == n + if t.len() > 0 {
                2 + t.len()
            } else {
                0
            }
            &&& m.subrange(0, n) == shown(class_name)
            &&& t.len() > 0 ==> m[n] == ':' && m[n + 1] == ' ' && m.subrange(
                n + 2,
                m.len() as int,
            ) == t
        }),
{
    reveal_strlit(": ");
    let m = exception_text(class_name, text);
    let n = shown(class_name).len() as int;
    assert(m.subrange(0, n) =~= shown(class_name));
    if let Some(t) = text {
        if shown(t).len() > 0 {
            assert(m.subrange(n + 2, m.len() as int) =~= shown(t));
        }
    }
}

/// An object that nothing writes is reported with the name of its type at the end.
pub proof fn objects_are_named(class_name: Seq<u8>, other: Seq<u8>)
    ensures
        ({
            let m = not_serializable_text(class_name);
            let n = shown(class_name).len() as int;
            &&& m.len() == n + 31
            &&& m.subrange(31, m.len() as int) == shown(class_name)
            &&& m.subrange(0, 31) == not_serializable_text(other).subrange(0, 31)
        }),
{
    reveal_strlit("Type is not JSON serializable: ");
    let m = not_serializable_text(class_name);
    assert(m.subrange(31, m.len() as int) =~= shown(class_name));
    assert(m.subrange(0, 31) =~= "Type is not JSON serializable: "@);
    assert(not_serializable_text(other).subrange(0, 31) =~= "Type is not JSON serializable: "@);
}

} // verus!
