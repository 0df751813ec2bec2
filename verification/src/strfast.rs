//! Where the UTF-8 of a `str` lies in its object, and whether that may be relied on.
use crate::swar::{is_ascii, same_bytes};
use vstd::prelude::*;
use vstd::string::*;
use vstd::utf8::encode_utf8;

verus! {

/// State bit: the characters follow the header.
pub const COMPACT: u32 = 0x20;

/// State bit: the characters are ASCII.
pub const ASCII: u32 = 0x40;

/// Where UTF-8 lies that can be read without a call.
#[derive(Clone, Copy, Debug, PartialEq, Eq, Structural)]
pub enum Layout {
    /// Right behind the header.
    Inline,
    /// At the cached pointer.
    Cached,
}

/// The layout that the header of a `str` tells: its state, and whether it has a
/// cached pointer.
pub open spec fn layout_of(state: u32, has_cached: bool) -> Option<Layout> {
    if state & COMPACT != 0 && state & ASCII != 0 {
        Some(Layout::Inline)
    } else if state & COMPACT != 0 && has_cached {
        Some(Layout::Cached)
    } else {
        None
    }
}

/// Are both bits set?
fn compact_ascii(state: u32) -> (r: bool)
    ensures
        r == (state & COMPACT != 0 && state & ASCII != 0),
{
    proof {
        assert((state & (0x20u32 | 0x40u32) == (0x20u32 | 0x40u32)) <==> (state & 0x20 != 0 && state
            & 0x40 != 0)) by (bit_vector);
    }
    state & (COMPACT | ASCII) == (COMPACT | ASCII)
}

/// Where the UTF-8 of a `str` can be read without a call, if it can.
pub fn layout_utf8(state: u32, has_cached: bool) -> (r: Option<Layout>)
    ensures
        r == layout_of(state, has_cached),
{
    if compact_ascii(state) {
        return Some(Layout::Inline);
    }
    if state & COMPACT != 0 && has_cached {
        return Some(Layout::Cached);
    }
    None
}

/// Where the UTF-8 of a `str` is read without a call: nowhere, unless that is
/// `enabled`.
pub fn utf8(enabled: bool, state: u32, has_cached: bool) -> (r: Option<Layout>)
    ensures
        r == if enabled {
            layout_of(state, has_cached)
        } else {
            None
        },
{
    if !enabled {
        return None;
    }
    layout_utf8(state, has_cached)
}

/// The strings on which the layout is tried.
pub open spec fn probe_texts() -> Seq<Seq<char>> {
    seq![
        ""@,
        "a"@,
        "hello, isojson: a longer ascii probe string"@,
        "é"@,
        "日本"@,
        "🔥x"@,
        "mixed é text"@,
    ]
}

/// How many there are.
pub const PROBES: usize = 7;

pub fn probe_text(i: usize) -> (r: &'static str)
    requires
        i < PROBES,
    ensures
        r@ == probe_texts()[i as int],
{
    match i {
        0 => "",
        1 => "a",
        2 => "hello, isojson: a longer ascii probe string",
        3 => "é",
        4 => "日本",
        5 => "🔥x",
        _ => "mixed é text",
    }
}

/// What was read of one probe.
pub struct Probe {
    /// The UTF-8 that the string was made from.
    pub expect: Vec<u8>,
    pub state: u32,
    /// By the layout: the address and the bytes.
    pub fast: Option<(usize, Vec<u8>)>,
    /// By the interface of Python: the address and the length.
    pub api: Option<(usize, usize)>,
}

/// Do both readings give the same place and the expected bytes, and do the state bits
/// say rightly whether they are ASCII?
pub open spec fn agrees(p: Probe) -> bool {
    match (p.fast, p.api) {
        (Some((address, bytes)), Some((api_address, api_len))) => {
            &&& address == api_address
            &&& bytes@.len() == api_len
            &&& bytes@ == p.expect@
            &&& (p.state & COMPACT != 0 && p.state & ASCII != 0) == (forall|i: int|
                0 <= i < p.expect@.len() ==> #[trigger] p.expect@[i] < 0x80)
        },
        _ => false,
    }
}

fn probe_agrees(p: &Probe) -> (r: bool)
    ensures
        r == agrees(*p),
{
    match (&p.fast, &p.api) {
        (Some(fast), Some(api)) => fast.0 == api.0 && fast.1.len() == api.1 && same_bytes(
            fast.1.as_slice(),
            p.expect.as_slice(),
        ) && compact_ascii(p.state) == is_ascii(p.expect.as_slice()),
        _ => false,
    }
}

/// Is this the probe number `i`, and does it agree?
pub open spec fn passes(p: Probe, i: int) -> bool {
    agrees(p) && p.expect@ == encode_utf8(probe_texts()[i])
}

/// May the layout be relied on? Only if all probe strings were tried, and every one
/// agrees.
pub fn self_check(probes: &Vec<Probe>) -> (r: bool)
    ensures
        r == (probes@.len() == PROBES && forall|i: int|
            0 <= i < PROBES ==> passes(#[trigger] probes@[i], i)),
{
    if probes.len() != PROBES {
        return false;
    }
    let mut ok: bool = true;
    let mut i: usize = 0;
    while i < PROBES
        invariant
            probes@.len() == PROBES,
            i <= PROBES,
            ok == forall|k: int| 0 <= k < i ==> passes(#[trigger] probes@[k], k),
        decreases PROBES - i,
    {
        let text: &[u8] = probe_text(i).as_bytes();
        let one: bool = probe_agrees(&probes[i]) && same_bytes(probes[i].expect.as_slice(), text);
        ok = ok && one;
        i += 1;
    }
    ok
}

} // verus!
