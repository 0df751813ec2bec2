//! The tape of a parsed document.
use crate::accept::{acceptable, accepted, tape_says};
use simd_json::{Node, StaticNode};
use vstd::prelude::*;

verus! {

/// A node of a tape.
pub enum TapeNode {
    Str(Vec<u8>),
    Null,
    Bool(bool),
    I64(i64),
    U64(u64),
    /// A float, by its bits.
    F64(u64),
    /// An array of this many elements, which follow.
    Array(usize),
    /// An object of this many members, whose keys and values follow.
    Object(usize),
}

/// A `TapeNode` by its contents.
pub enum NodeView {
    Str(Seq<u8>),
    Null,
    Bool(bool),
    I64(i64),
    U64(u64),
    F64(u64),
    Array(usize),
    Object(usize),
}

impl View for TapeNode {
    type V = NodeView;

    open spec fn view(&self) -> NodeView {
        match *self {
            TapeNode::Str(s) => NodeView::Str(s@),
            TapeNode::Null => NodeView::Null,
            TapeNode::Bool(b) => NodeView::Bool(b),
            TapeNode::I64(v) => NodeView::I64(v),
            TapeNode::U64(v) => NodeView::U64(v),
            TapeNode::F64(v) => NodeView::F64(v),
            TapeNode::Array(n) => NodeView::Array(n),
            TapeNode::Object(n) => NodeView::Object(n),
        }
    }
}

/// A tape by its contents.
pub open spec fn tape_view(nodes: Seq<TapeNode>) -> Seq<NodeView> {
    Seq::new(nodes.len(), |i: int| nodes[i]@)
}

/// The tape that simd-json makes of a document, if it accepts it.
pub uninterp spec fn simd_tape(s: Seq<u8>) -> Option<Seq<NodeView>>;

/// An error of simd-json.
#[verifier::external_type_specification]
#[verifier::external_body]
pub struct SimdError(simd_json::Error);

/// `simd_json::to_tape`: parses a JSON document. Claimed: it accepts the JSON texts in
/// UTF-8 of less than 4 GiB whose containers nest no deeper than 1024 and whose numbers do
/// not round to an infinity, and no others; the tape holds the values of the text in the
/// order of the text, each array and object with the number of its elements, each string
/// without its escapes, each integer that fits 64 bits as such and any other number as
/// the double nearest to it; and the tape depends on the bytes alone. Of a number other
/// than zero that takes more than 32768 bytes and has an exponent of 65536 or more, either
/// way, neither is claimed whether it is accepted nor which float it becomes: the longest
/// exponents are not counted in full. The error is left open: which of several faults is
/// reported, and where, depends on the instructions that the processor has.
#[verifier::external_body]
pub(crate) fn to_tape(input: &[u8]) -> (r: Result<Vec<TapeNode>, simd_json::Error>)
    ensures
        match r {
            Ok(nodes) => simd_tape(input@) == Some(tape_view(nodes@)),
            Err(_) => simd_tape(input@) is None,
        },
        accepted(input@) ==> r is Ok,
        r matches Ok(nodes) ==> acceptable(input@) && tape_says(tape_view(nodes@), input@),
{
    simd_json::to_tape(&mut input.to_vec()).map(|t| t.0.into_iter().map(|n| match n {
        Node::String(s) => TapeNode::Str(s.as_bytes().to_vec()),
        Node::Array { len, .. } => TapeNode::Array(len),
        Node::Object { len, .. } => TapeNode::Object(len),
        Node::Static(StaticNode::Null) => TapeNode::Null,
        Node::Static(StaticNode::Bool(b)) => TapeNode::Bool(b),
        Node::Static(StaticNode::I64(v)) => TapeNode::I64(v),
        Node::Static(StaticNode::U64(v)) => TapeNode::U64(v),
        Node::Static(StaticNode::F64(v)) => TapeNode::F64(v.to_bits()),
    }).collect())
}

/// `simd_json::Error::error`: the kind of an error, by the name that `Debug` gives
/// it. Nothing is claimed.
#[verifier::external_body]
pub(crate) fn error_name(e: &simd_json::Error) -> (r: String) {
    format!("{:?}", e.error())
}

/// `simd_json::Error::index`: the byte at which an error was noticed. Nothing is
/// claimed.
pub assume_specification[ simd_json::Error::index ](e: &simd_json::Error) -> usize;

} // verus!
