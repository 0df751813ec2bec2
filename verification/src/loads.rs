//! `loads`: from the bytes of a document to the document, or to what is wrong with
//! it and where.
use crate::accept::{acceptable, accepted, read_json, says};
use crate::decode::{build, read_value, Json};
use crate::tape::{error_name, simd_tape, tape_view, to_tape, TapeNode};
use vstd::prelude::*;
use vstd::string::*;
use vstd::utf8::{
    decode_utf8, encode_utf8, encode_utf8_decode_utf8, is_continuation_byte, pop_first_scalar,
    take_first_scalar, valid_utf8,
};

verus! {

/// Why there is no document.
pub struct DecodeError {
    pub msg: String,
    /// Where, counted in characters.
    pub pos: usize,
}

/// What `loads` was given.
pub enum Input<'a> {
    /// The bytes of a `bytes`, a `bytearray` or a `memoryview`.
    Buffer(&'a [u8]),
    /// The text of a `str`, unless it holds surrogates.
    Text(Option<&'a [u8]>),
    /// An object of another type.
    Other,
}

/// What the parser said of a document that it does not accept.
pub struct Refusal {
    /// The kind of the error, by its name.
    pub name: String,
    /// The byte at which it was noticed.
    pub index: usize,
}

/// Are two texts the same?
fn same_text(a: &str, b: &str) -> (r: bool)
    ensures
        r == (a@ == b@),
{
    let x: &[u8] = a.as_bytes();
    let y: &[u8] = b.as_bytes();
    proof {
        encode_utf8_decode_utf8(a@);
        encode_utf8_decode_utf8(b@);
    }
    if x.len() != y.len() {
        return false;
    }
    let mut i: usize = 0;
    while i < x.len()
        invariant
            x@ == encode_utf8(a@),
            y@ == encode_utf8(b@),
            x@.len() == y@.len(),
            i <= x@.len(),
            forall|k: int| 0 <= k < i ==> x@[k] == y@[k],
        decreases x@.len() - i,
    {
        if x[i] != y[i] {
            return false;
        }
        i += 1;
    }
    assert(x@ =~= y@);
    true
}

/// A parser error in words.
pub open spec fn describe_text(name: Seq<char>) -> Seq<char> {
    if name == "Eof"@ {
        "unexpected end of data"@
    } else if name == "TrailingData"@ {
        "unexpected content after document"@
    } else if name == "UnterminatedString"@ {
        "unterminated string"@
    } else if name == "InvalidEscape"@ {
        "invalid escape sequence in string"@
    } else if name == "InvalidUnicodeEscape"@ {
        "invalid \\u escape in string"@
    } else if name == "InvalidUnicodeCodepoint"@ {
        "invalid unicode code point (lone surrogate?) in string"@
    } else if name == "InvalidUtf8"@ {
        "input is not valid UTF-8"@
    } else if name == "InvalidNumber"@ {
        "invalid number"@
    } else if name == "InvalidExponent"@ {
        "invalid number exponent"@
    } else if name == "DepthLimitExceeded"@ {
        "depth limit exceeded"@
    } else if name == "ExpectedArrayComma"@ {
        "expected ',' or ']' in array"@
    } else if name == "ExpectedMapComma"@ {
        "expected ',' or '}' in object"@
    } else if name == "ExpectedObjectColon"@ {
        "expected ':' after object key"@
    } else if name == "ExpectedObjectKey"@ || name == "KeyMustBeAString"@ || name == "BadKeyType"@ {
        "object key must be a string"@
    } else if name == "ExpectedMapEnd"@ {
        "expected '}' at end of object"@
    } else if name == "ExpectedArrayContent"@ || name == "ExpectedObjectContent"@ || name
        == "ExpectedNull"@ || name == "ExpectedTrue"@ || name == "ExpectedFalse"@ {
        "unexpected character, expected a JSON value"@
    } else if name == "UnexpectedCharacter"@ || name == "NoStructure"@ || name == "Syntax"@ {
        "unexpected character"@
    } else if name == "InputTooLarge"@ {
        "input is too large (simd-json limit: 4 GiB)"@
    } else {
        "invalid JSON"@
    }
}

/// A parser error in words, never the name that it has inside the parser.
pub fn describe(name: &str) -> (r: &'static str)
    ensures
        r@ == describe_text(name@),
{
    if same_text(name, "Eof") {
        "unexpected end of data"
    } else if same_text(name, "TrailingData") {
        "unexpected content after document"
    } else if same_text(name, "UnterminatedString") {
        "unterminated string"
    } else if same_text(name, "InvalidEscape") {
        "invalid escape sequence in string"
    } else if same_text(name, "InvalidUnicodeEscape") {
        "invalid \\u escape in string"
    } else if same_text(name, "InvalidUnicodeCodepoint") {
        "invalid unicode code point (lone surrogate?) in string"
    } else if same_text(name, "InvalidUtf8") {
        "input is not valid UTF-8"
    } else if same_text(name, "InvalidNumber") {
        "invalid number"
    } else if same_text(name, "InvalidExponent") {
        "invalid number exponent"
    } else if same_text(name, "DepthLimitExceeded") {
        "depth limit exceeded"
    } else if same_text(name, "ExpectedArrayComma") {
        "expected ',' or ']' in array"
    } else if same_text(name, "ExpectedMapComma") {
        "expected ',' or '}' in object"
    } else if same_text(name, "ExpectedObjectColon") {
        "expected ':' after object key"
    } else if same_text(name, "ExpectedObjectKey") || same_text(name, "KeyMustBeAString")
        || same_text(name, "BadKeyType") {
        "object key must be a string"
    } else if same_text(name, "ExpectedMapEnd") {
        "expected '}' at end of object"
    } else if same_text(name, "ExpectedArrayContent") || same_text(name, "ExpectedObjectContent")
        || same_text(name, "ExpectedNull") || same_text(name, "ExpectedTrue") || same_text(
        name,
        "ExpectedFalse",
    ) {
        "unexpected character, expected a JSON value"
    } else if same_text(name, "UnexpectedCharacter") || same_text(name, "NoStructure")
        || same_text(name, "Syntax") {
        "unexpected character"
    } else if same_text(name, "InputTooLarge") {
        "input is too large (simd-json limit: 4 GiB)"
    } else {
        "invalid JSON"
    }
}

/// How many characters begin in `s`.
pub open spec fn char_count(s: Seq<u8>) -> nat
    decreases s.len(),
{
    if s.len() == 0 {
        0
    } else {
        char_count(s.drop_last()) + if is_continuation_byte(s.last()) {
            0nat
        } else {
            1nat
        }
    }
}

/// The position of a byte, counted in characters. A position behind the input is
/// taken for its end.
pub open spec fn char_position(input: Seq<u8>, byte_pos: int) -> nat {
    char_count(input.subrange(0, if byte_pos < input.len() {
        byte_pos
    } else {
        input.len() as int
    }))
}

/// The position of a byte, counted in characters.
pub fn char_pos(input: &[u8], byte_pos: usize) -> (r: usize)
    ensures
        r == char_position(input@, byte_pos as int),
        r <= input@.len(),
{
    let upto: usize = if byte_pos < input.len() { byte_pos } else { input.len() };
    let mut n: usize = 0;
    let mut i: usize = 0;
    while i < upto
        invariant
            i <= upto <= input@.len(),
            n <= i,
            n == char_count(input@.subrange(0, i as int)),
        decreases upto - i,
    {
        proof {
            let t = input@.subrange(0, i + 1);
            assert(t.drop_last() =~= input@.subrange(0, i as int));
            assert(t.last() == input@[i as int]);
        }
        let b: u8 = input[i];
        if !(0x80 <= b && b <= 0xbf) {
            n += 1;
        }
        i += 1;
    }
    n
}

/// Characters can be counted in two parts.
proof fn char_count_concat(a: Seq<u8>, b: Seq<u8>)
    ensures
        char_count(a + b) == char_count(a) + char_count(b),
    decreases b.len(),
{
    if b.len() == 0 {
        assert(a + b =~= a);
    } else {
        assert((a + b).drop_last() =~= a + b.drop_last());
        char_count_concat(a, b.drop_last());
    }
}

/// In valid UTF-8, as many characters begin as it encodes: a position that was
/// counted is the position in the text.
pub proof fn char_count_counts_characters(s: Seq<u8>)
    requires
        valid_utf8(s),
    ensures
        char_count(s) == decode_utf8(s).len(),
    decreases s.len(),
{
    if s.len() > 0 {
        let first = take_first_scalar(s);
        let rest = pop_first_scalar(s);
        assert(s =~= first + rest);
        char_count_concat(first, rest);
        assert(char_count(first) == 1) by {
            reveal_with_fuel(char_count, 5);
            assert(first[0] == s[0]);
        }
        char_count_counts_characters(rest);
    }
}

/// Is the input nothing but JSON whitespace?
pub open spec fn blank(s: Seq<u8>) -> bool {
    forall|i: int|
        0 <= i < s.len() ==> (#[trigger] s[i] == 0x20 || s[i] == 0x09 || s[i] == 0x0a || s[i]
            == 0x0d)
}

fn is_blank(s: &[u8]) -> (r: bool)
    ensures
        r == blank(s@),
{
    let mut i: usize = 0;
    while i < s.len()
        invariant
            i <= s@.len(),
            forall|k: int|
                0 <= k < i ==> (#[trigger] s@[k] == 0x20 || s@[k] == 0x09 || s@[k] == 0x0a || s@[k]
                    == 0x0d),
        decreases s@.len() - i,
    {
        let b: u8 = s[i];
        if !(b == 0x20 || b == 0x09 || b == 0x0a || b == 0x0d) {
            return false;
        }
        i += 1;
    }
    true
}

/// Is this the error with the text `msg` at `pos`?
pub open spec fn is_error(r: Result<Json, DecodeError>, msg: Seq<char>, pos: nat) -> bool {
    r matches Err(e) && e.msg@ == msg && e.pos == pos
}

/// Is `r` what follows from what the parser made of the input: the document of its
/// tape, or its refusal in words, with the position in characters?
pub open spec fn parsed(
    input: Seq<u8>,
    outcome: Result<Vec<TapeNode>, Refusal>,
    r: Result<Json, DecodeError>,
) -> bool {
    match outcome {
        Ok(nodes) => match read_value(tape_view(nodes@), 0) {
            Some((v, _)) => r matches Ok(j) && j@ == v,
            None => is_error(r, "invalid JSON"@, 0),
        },
        Err(refusal) => is_error(
            r,
            describe_text(refusal.name@),
            char_position(input, refusal.index as int),
        ),
    }
}

fn error(msg: &str, pos: usize) -> (r: Result<Json, DecodeError>)
    ensures
        is_error(r, msg@, pos as nat),
{
    Err(DecodeError { msg: msg.to_owned(), pos })
}

/// What follows from what the parser made of the input.
pub fn finish_parse(input: &[u8], outcome: Result<Vec<TapeNode>, Refusal>) -> (r: Result<
    Json,
    DecodeError,
>)
    ensures
        parsed(input@, outcome, r),
{
    match outcome {
        Ok(nodes) => match build(&nodes) {
            Some(j) => Ok(j),
            None => error("invalid JSON", 0),
        },
        Err(refusal) => error(
            describe(refusal.name.as_str()),
            char_pos(input, refusal.index),
        ),
    }
}

/// Is `r` what is to be made of the input? A text that is accepted is the document that
/// it stands for, with the floats that the parser makes of its numbers; for any other the
/// error is a refusal in words, with a position in the input.
pub open spec fn loaded(input: Seq<u8>, r: Result<Json, DecodeError>) -> bool {
    if blank(input) {
        is_error(r, "Input is a zero-length, empty document"@, 0)
    } else if input.len() > u32::MAX {
        is_error(r, "input is too large (simd-json limit: 4 GiB)"@, 0)
    } else {
        match r {
            Ok(j) => acceptable(input) && match (read_json(input), simd_tape(input)) {
                (Some(d), Some(tape)) => says(j@, d) && read_value(tape, 0) == Some(
                    (j@, tape.len() as int),
                ),
                _ => false,
            },
            Err(_) => !accepted(input) && simd_tape(input) is None && exists|name: Seq<char>, index: int|
                0 <= index && #[trigger] is_error(
                    r,
                    describe_text(name),
                    char_position(input, index),
                ),
        }
    }
}

/// The document in the input, or what is wrong with it.
pub fn run(input: &[u8]) -> (r: Result<Json, DecodeError>)
    ensures
        loaded(input@, r),
{
    if is_blank(input) {
        return error("Input is a zero-length, empty document", 0);
    }
    // the parser counts in 32 bits, and says so before it looks at anything else
    if input.len() as u64 > 0xffff_ffff {
        return error("input is too large (simd-json limit: 4 GiB)", 0);
    }
    match to_tape(input) {
        Ok(nodes) => finish_parse(input, Ok(nodes)),
        Err(e) => {
            let refusal: Refusal = Refusal { name: error_name(&e), index: e.index() };
            let r: Result<Json, DecodeError> = finish_parse(input, Err(refusal));
            assert(is_error(
                r,
                describe_text(refusal.name@),
                char_position(input@, refusal.index as int),
            ));
            r
        },
    }
}

/// The document in what `loads` was given.
pub fn loads(input: Input) -> (r: Result<Json, DecodeError>)
    ensures
        match input {
            Input::Other => is_error(
                r,
                "Input must be bytes, bytearray, memoryview, or str"@,
                0,
            ),
            Input::Text(None) => is_error(
                r,
                "str is not valid UTF-8: surrogates not allowed"@,
                0,
            ),
            Input::Text(Some(s)) => loaded(s@, r),
            Input::Buffer(s) => loaded(s@, r),
        },
{
    match input {
        Input::Buffer(s) => run(s),
        Input::Text(Some(s)) => run(s),
        Input::Text(None) => error("str is not valid UTF-8: surrogates not allowed", 0),
        Input::Other => error("Input must be bytes, bytearray, memoryview, or str", 0),
    }
}

/// The position of an error is the number of characters in front of it, where those are
/// UTF-8; behind the end of the input it is the number of all.
pub proof fn positions_are_characters(input: Seq<u8>, byte_pos: int)
    requires
        0 <= byte_pos,
        valid_utf8(input.subrange(0, if byte_pos < input.len() { byte_pos } else { input.len() as int })),
    ensures
        byte_pos < input.len() ==> char_position(input, byte_pos) == decode_utf8(
            input.subrange(0, byte_pos),
        ).len(),
        byte_pos >= input.len() ==> char_position(input, byte_pos) == decode_utf8(input).len(),
{
    assert(input.subrange(0, input.len() as int) =~= input);
    char_count_counts_characters(
        input.subrange(0, if byte_pos < input.len() { byte_pos } else { input.len() as int }),
    );
}

} // verus!
