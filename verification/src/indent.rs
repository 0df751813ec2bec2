//! Line breaks of the indented form.
use crate::out::Out;
use vstd::prelude::*;

verus! {

/// `n` times two spaces.
pub open spec fn spaces(n: nat) -> Seq<u8> {
    Seq::new(2 * n, |i: int| 0x20u8)
}

/// A line break, and the indent of a line at `level`.
pub open spec fn newline_text(level: nat) -> Seq<u8> {
    seq![0x0au8] + spaces(level)
}

/// Writes a line break and an indent of two spaces per level.
pub fn newline_indent(out: &mut Out, level: u32)
    ensures
        final(out)@ == old(out)@ + newline_text(level as nat),
{
    out.push(0x0a);
    let ghost start = out@;
    let mut i: u32 = 0;
    assert(out@ =~= start + spaces(0));
    while i < level
        invariant
            i <= level,
            out@ == start + spaces(i as nat),
        decreases level - i,
    {
        out.push(0x20);
        out.push(0x20);
        assert(out@ =~= start + spaces((i + 1) as nat));
        i += 1;
    }
}

} // verus!
