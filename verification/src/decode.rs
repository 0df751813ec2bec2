//! From the tape of a document to the document.
use crate::tape::{tape_view, NodeView, TapeNode};
use vstd::prelude::*;

verus! {

/// A document. The members of an object stand in the order in which they came, each
/// as often as it came.
pub enum Json {
    Null,
    Bool(bool),
    I64(i64),
    U64(u64),
    /// A float, by its bits.
    F64(u64),
    Str(Vec<u8>),
    Array(Vec<Json>),
    Object(Vec<Member>),
}

/// A member of an object.
pub struct Member {
    pub key: Vec<u8>,
    pub value: Json,
}

/// A `Json` by its contents.
pub enum JsonView {
    Null,
    Bool(bool),
    I64(i64),
    U64(u64),
    F64(u64),
    Str(Seq<u8>),
    Array(Seq<JsonView>),
    Object(Seq<(Seq<u8>, JsonView)>),
}

impl View for Json {
    type V = JsonView;

    open spec fn view(&self) -> JsonView {
        json_view(*self)
    }
}

pub open spec fn json_view(j: Json) -> JsonView
    decreases j, 1int, 0int,
{
    match j {
        Json::Null => JsonView::Null,
        Json::Bool(b) => JsonView::Bool(b),
        Json::I64(v) => JsonView::I64(v),
        Json::U64(v) => JsonView::U64(v),
        Json::F64(v) => JsonView::F64(v),
        Json::Str(s) => JsonView::Str(s@),
        Json::Array(items) => JsonView::Array(items_view(items, items@.len() as int)),
        Json::Object(members) => JsonView::Object(members_view(members, members@.len() as int)),
    }
}

/// The first `n` elements by their contents.
pub open spec fn items_view(items: Vec<Json>, n: int) -> Seq<JsonView>
    decreases items, 0int, n,
{
    if n <= 0 || n > items@.len() {
        Seq::empty()
    } else {
        items_view(items, n - 1).push(json_view(items@[n - 1]))
    }
}

/// The first `n` members by their contents.
pub open spec fn members_view(members: Vec<Member>, n: int) -> Seq<(Seq<u8>, JsonView)>
    decreases members, 0int, n,
{
    if n <= 0 || n > members@.len() {
        Seq::empty()
    } else {
        members_view(members, n - 1).push((members@[n - 1].key@, json_view(members@[n - 1].value)))
    }
}

/// Reads the value whose node is at `i`, and where the nodes after it begin.
pub open spec fn read_value(nodes: Seq<NodeView>, i: int) -> Option<(JsonView, int)>
    decreases nodes.len() - i, 2int, 0int,
{
    if i < 0 || i >= nodes.len() {
        None
    } else {
        match nodes[i] {
            NodeView::Null => Some((JsonView::Null, i + 1)),
            NodeView::Bool(b) => Some((JsonView::Bool(b), i + 1)),
            NodeView::I64(v) => Some((JsonView::I64(v), i + 1)),
            NodeView::U64(v) => Some((JsonView::U64(v), i + 1)),
            NodeView::F64(v) => Some((JsonView::F64(v), i + 1)),
            NodeView::Str(s) => Some((JsonView::Str(s), i + 1)),
            NodeView::Array(n) => match read_items(nodes, i + 1, n as nat) {
                Some((items, j)) => Some((JsonView::Array(items), j)),
                None => None,
            },
            NodeView::Object(n) => match read_members(nodes, i + 1, n as nat) {
                Some((members, j)) => Some((JsonView::Object(members), j)),
                None => None,
            },
        }
    }
}

/// Reads `n` values, the first of which is at `i`.
pub open spec fn read_items(nodes: Seq<NodeView>, i: int, n: nat) -> Option<(Seq<JsonView>, int)>
    decreases nodes.len() - i, 3int, n,
{
    if n == 0 {
        Some((Seq::empty(), i))
    } else {
        match read_value(nodes, i) {
            Some((v, j)) => if i < j <= nodes.len() {
                match read_items(nodes, j, (n - 1) as nat) {
                    Some((rest, k)) => Some((seq![v] + rest, k)),
                    None => None,
                }
            } else {
                None
            },
            None => None,
        }
    }
}

/// Reads `n` keys, which are strings, and their values; the first is at `i`.
pub open spec fn read_members(nodes: Seq<NodeView>, i: int, n: nat) -> Option<
    (Seq<(Seq<u8>, JsonView)>, int),
>
    decreases nodes.len() - i, 3int, n,
{
    if n == 0 {
        Some((Seq::empty(), i))
    } else if 0 <= i < nodes.len() {
        match nodes[i] {
            NodeView::Str(key) => match read_value(nodes, i + 1) {
                Some((v, j)) => if i < j <= nodes.len() {
                    match read_members(nodes, j, (n - 1) as nat) {
                        Some((rest, k)) => Some((seq![(key, v)] + rest, k)),
                        None => None,
                    }
                } else {
                    None
                },
                None => None,
            },
            _ => None,
        }
    } else {
        None
    }
}

/// Reading moves on, and stays within the nodes.
pub proof fn read_value_moves(nodes: Seq<NodeView>, i: int)
    ensures
        read_value(nodes, i) matches Some((v, j)) ==> i < j <= nodes.len(),
    decreases nodes.len() - i, 2int, 0int,
{
    if 0 <= i < nodes.len() {
        match nodes[i] {
            NodeView::Array(n) => read_items_moves(nodes, i + 1, n as nat),
            NodeView::Object(n) => read_members_moves(nodes, i + 1, n as nat),
            _ => {},
        }
    }
}

proof fn read_items_moves(nodes: Seq<NodeView>, i: int, n: nat)
    requires
        i <= nodes.len(),
    ensures
        read_items(nodes, i, n) matches Some((v, j)) ==> i <= j <= nodes.len(),
    decreases nodes.len() - i, 3int, n,
{
    if n > 0 {
        if let Some((v, j)) = read_value(nodes, i) {
            if i < j <= nodes.len() {
                read_items_moves(nodes, j, (n - 1) as nat);
            }
        }
    }
}

proof fn read_members_moves(nodes: Seq<NodeView>, i: int, n: nat)
    requires
        i <= nodes.len(),
    ensures
        read_members(nodes, i, n) matches Some((v, j)) ==> i <= j <= nodes.len(),
    decreases nodes.len() - i, 3int, n,
{
    if n > 0 && 0 <= i < nodes.len() {
        if let Some((v, j)) = read_value(nodes, i + 1) {
            if i < j <= nodes.len() {
                read_members_moves(nodes, j, (n - 1) as nat);
            }
        }
    }
}

/// A container that is being filled.
pub enum Open {
    List { items: Vec<Json>, len: usize },
    /// With the key that awaits its value.
    Dict { members: Vec<Member>, key: Option<Vec<u8>>, len: usize },
}

/// An `Open` by its contents.
pub enum OpenView {
    List { items: Seq<JsonView>, len: nat },
    Dict { members: Seq<(Seq<u8>, JsonView)>, key: Option<Seq<u8>>, len: nat },
}

impl View for Open {
    type V = OpenView;

    open spec fn view(&self) -> OpenView {
        match *self {
            Open::List { items, len } => OpenView::List {
                items: items_view(items, items@.len() as int),
                len: len as nat,
            },
            Open::Dict { members, key, len } => OpenView::Dict {
                members: members_view(members, members@.len() as int),
                key: match key {
                    Some(k) => Some(k@),
                    None => None,
                },
                len: len as nat,
            },
        }
    }
}

/// Has the container room for what it still awaits?
pub open spec fn open_valid(o: OpenView) -> bool {
    match o {
        OpenView::List { items, len } => items.len() < len,
        OpenView::Dict { members, len, .. } => members.len() < len,
    }
}

/// What becomes of the containers in `stack` when the value `v` of the innermost has
/// been read and the nodes from `i` on have not.
pub open spec fn resume(nodes: Seq<NodeView>, stack: Seq<OpenView>, v: JsonView, i: int) -> Option<
    JsonView,
>
    decreases stack.len(),
{
    if stack.len() == 0 {
        Some(v)
    } else {
        match stack.last() {
            OpenView::List { items, len } => match read_items(
                nodes,
                i,
                (len - items.len() - 1) as nat,
            ) {
                Some((rest, j)) => resume(
                    nodes,
                    stack.drop_last(),
                    JsonView::Array(items.push(v) + rest),
                    j,
                ),
                None => None,
            },
            OpenView::Dict { members, key, len } => match read_members(
                nodes,
                i,
                (len - members.len() - 1) as nat,
            ) {
                Some((rest, j)) => resume(
                    nodes,
                    stack.drop_last(),
                    JsonView::Object(members.push((key->Some_0, v)) + rest),
                    j,
                ),
                None => None,
            },
        }
    }
}

/// What becomes of the containers in `stack` when the nodes from `i` on have not been
/// read.
pub open spec fn awaiting(nodes: Seq<NodeView>, stack: Seq<OpenView>, i: int) -> Option<JsonView> {
    if stack.len() == 0 {
        match read_value(nodes, i) {
            Some((v, _)) => Some(v),
            None => None,
        }
    } else {
        match stack.last() {
            OpenView::List { items, len } => match read_items(nodes, i, (len - items.len()) as nat) {
                Some((rest, j)) => resume(
                    nodes,
                    stack.drop_last(),
                    JsonView::Array(items + rest),
                    j,
                ),
                None => None,
            },
            OpenView::Dict { members, key: None, len } => match read_members(
                nodes,
                i,
                (len - members.len()) as nat,
            ) {
                Some((rest, j)) => resume(
                    nodes,
                    stack.drop_last(),
                    JsonView::Object(members + rest),
                    j,
                ),
                None => None,
            },
            OpenView::Dict { members, key: Some(k), len } => match read_value(nodes, i) {
                Some((v, j)) => resume(nodes, stack, v, j),
                None => None,
            },
        }
    }
}

/// A value that is read next is read for the innermost container.
proof fn awaiting_value(nodes: Seq<NodeView>, stack: Seq<OpenView>, i: int)
    requires
        stack.len() > 0 ==> open_valid(stack.last()),
        stack.len() > 0 ==> !(stack.last() matches OpenView::Dict { key, .. } && key is None),
    ensures
        awaiting(nodes, stack, i) == match read_value(nodes, i) {
            Some((v, j)) => resume(nodes, stack, v, j),
            None => None,
        },
{
    read_value_moves(nodes, i);
    if stack.len() > 0 {
        if let OpenView::List { items, len } = stack.last() {
            if let Some((v, j)) = read_value(nodes, i) {
                if let Some((rest, k)) = read_items(nodes, j, (len - items.len() - 1) as nat) {
                    assert(items + (seq![v] + rest) =~= items.push(v) + rest);
                }
            }
        }
    }
}

/// A key that is read next is the key of the innermost container.
proof fn awaiting_key(nodes: Seq<NodeView>, stack: Seq<OpenView>, i: int)
    requires
        stack.len() > 0,
        open_valid(stack.last()),
        stack.last() matches OpenView::Dict { key, .. } && key is None,
        0 <= i,
    ensures
        !(0 <= i < nodes.len() && nodes[i] is Str) ==> awaiting(nodes, stack, i) is None,
        0 <= i < nodes.len() && nodes[i] is Str ==> awaiting(nodes, stack, i) == awaiting(
            nodes,
            stack.drop_last().push(
                OpenView::Dict {
                    members: stack.last()->members,
                    key: Some(nodes[i]->Str_0),
                    len: stack.last()->Dict_len,
                },
            ),
            i + 1,
        ),
{
    let members = stack.last()->members;
    let len = stack.last()->Dict_len;
    if 0 <= i < nodes.len() && nodes[i] is Str {
        let key = nodes[i]->Str_0;
        let top = OpenView::Dict { members, key: Some(key), len };
        let next = stack.drop_last().push(top);
        assert(next.drop_last() =~= stack.drop_last());
        read_value_moves(nodes, i + 1);
        if let Some((v, j)) = read_value(nodes, i + 1) {
            if let Some((rest, k)) = read_members(nodes, j, (len - members.len() - 1) as nat) {
                assert(members + (seq![(key, v)] + rest) =~= members.push((key, v)) + rest);
            }
        }
    }
}

/// A container that is begun awaits all of its contents.
proof fn awaiting_container(nodes: Seq<NodeView>, stack: Seq<OpenView>, i: int)
    requires
        0 <= i < nodes.len(),
    ensures
        nodes[i] matches NodeView::Array(n) ==> n > 0 ==> (match read_value(nodes, i) {
            Some((v, j)) => resume(nodes, stack, v, j),
            None => None,
        }) == awaiting(
            nodes,
            stack.push(OpenView::List { items: Seq::empty(), len: n as nat }),
            i + 1,
        ),
        nodes[i] matches NodeView::Object(n) ==> n > 0 ==> (match read_value(nodes, i) {
            Some((v, j)) => resume(nodes, stack, v, j),
            None => None,
        }) == awaiting(
            nodes,
            stack.push(OpenView::Dict { members: Seq::empty(), key: None, len: n as nat }),
            i + 1,
        ),
{
    match nodes[i] {
        NodeView::Array(n) => {
            let next = stack.push(OpenView::List { items: Seq::empty(), len: n as nat });
            assert(next.drop_last() =~= stack);
            if let Some((items, j)) = read_items(nodes, i + 1, n as nat) {
                assert(Seq::empty() + items =~= items);
            }
        },
        NodeView::Object(n) => {
            let next = stack.push(
                OpenView::Dict { members: Seq::empty(), key: None, len: n as nat },
            );
            assert(next.drop_last() =~= stack);
            if let Some((members, j)) = read_members(nodes, i + 1, n as nat) {
                assert(Seq::empty() + members =~= members);
            }
        },
        _ => {},
    }
}

proof fn items_view_same(a: Vec<Json>, b: Vec<Json>, n: int)
    requires
        0 <= n <= a@.len(),
        n <= b@.len(),
        a@.subrange(0, n) == b@.subrange(0, n),
    ensures
        items_view(a, n) == items_view(b, n),
        items_view(a, n).len() == n,
    decreases n,
{
    if n > 0 {
        assert(a@.subrange(0, n - 1) =~= a@.subrange(0, n).subrange(0, n - 1));
        assert(b@.subrange(0, n - 1) =~= b@.subrange(0, n).subrange(0, n - 1));
        items_view_same(a, b, n - 1);
        assert(a@[n - 1] == a@.subrange(0, n)[n - 1]);
        assert(b@[n - 1] == b@.subrange(0, n)[n - 1]);
    }
}

proof fn members_view_same(a: Vec<Member>, b: Vec<Member>, n: int)
    requires
        0 <= n <= a@.len(),
        n <= b@.len(),
        a@.subrange(0, n) == b@.subrange(0, n),
    ensures
        members_view(a, n) == members_view(b, n),
        members_view(a, n).len() == n,
    decreases n,
{
    if n > 0 {
        assert(a@.subrange(0, n - 1) =~= a@.subrange(0, n).subrange(0, n - 1));
        assert(b@.subrange(0, n - 1) =~= b@.subrange(0, n).subrange(0, n - 1));
        members_view_same(a, b, n - 1);
        assert(a@[n - 1] == a@.subrange(0, n)[n - 1]);
        assert(b@[n - 1] == b@.subrange(0, n)[n - 1]);
    }
}

/// Containers by their contents.
pub open spec fn stack_view(stack: Seq<Open>) -> Seq<OpenView> {
    Seq::new(stack.len(), |k: int| stack[k]@)
}

proof fn stack_view_push(stack: Seq<Open>, o: Open)
    ensures
        stack_view(stack.push(o)) == stack_view(stack).push(o@),
        stack_view(stack.push(o)).drop_last() == stack_view(stack),
        stack.len() > 0 ==> stack_view(stack.drop_last()) == stack_view(stack).drop_last()
            && stack_view(stack).last() == stack.last()@,
{
    assert(stack_view(stack.push(o)) =~= stack_view(stack).push(o@));
    assert(stack_view(stack.push(o)).drop_last() =~= stack_view(stack));
    if stack.len() > 0 {
        assert(stack_view(stack.drop_last()) =~= stack_view(stack).drop_last());
    }
}

/// What a container is after it got a value: still open, or complete.
enum Filled {
    More(Open),
    Done(Json),
}

/// Puts a value into a container.
fn put(o: Open, v: Json) -> (r: Filled)
    requires
        open_valid(o@),
        o@ matches OpenView::Dict { key, .. } ==> key is Some,
    ensures
        match o@ {
            OpenView::List { items, len } => if items.len() + 1 < len {
                r matches Filled::More(more) && more@ == (OpenView::List {
                    items: items.push(v@),
                    len,
                })
            } else {
                r matches Filled::Done(j) && j@ == JsonView::Array(items.push(v@))
            },
            OpenView::Dict { members, key, len } => if members.len() + 1 < len {
                r matches Filled::More(more) && more@ == (OpenView::Dict {
                    members: members.push((key->Some_0, v@)),
                    key: None,
                    len,
                })
            } else {
                r matches Filled::Done(j) && j@ == JsonView::Object(
                    members.push((key->Some_0, v@)),
                )
            },
        },
{
    match o {
        Open::List { mut items, len } => {
            let ghost before = items;
            proof {
                items_view_same(before, before, before@.len() as int);
            }
            items.push(v);
            proof {
                let n = before@.len() as int;
                assert(items@.subrange(0, n) =~= before@.subrange(0, n));
                items_view_same(before, items, n);
            }
            if items.len() < len {
                Filled::More(Open::List { items, len })
            } else {
                Filled::Done(Json::Array(items))
            }
        },
        Open::Dict { mut members, key, len } => {
            let ghost before = members;
            proof {
                members_view_same(before, before, before@.len() as int);
            }
            let key: Vec<u8> = match key {
                Some(k) => k,
                None => Vec::new(),
            };
            members.push(Member { key, value: v });
            proof {
                let n = before@.len() as int;
                assert(members@.subrange(0, n) =~= before@.subrange(0, n));
                members_view_same(before, members, n);
            }
            if members.len() < len {
                Filled::More(Open::Dict { members, key: None, len })
            } else {
                Filled::Done(Json::Object(members))
            }
        },
    }
}

fn copy_text(s: &Vec<u8>) -> (r: Vec<u8>)
    ensures
        r@ == s@,
{
    let mut r: Vec<u8> = Vec::new();
    r.extend_from_slice(s.as_slice());
    assert(r@ =~= s@);
    r
}

/// Reads the key of an object that awaits one.
fn read_key(nodes: &Vec<TapeNode>, i: usize) -> (r: Option<Vec<u8>>)
    ensures
        match r {
            Some(k) => i < nodes@.len() && tape_view(nodes@)[i as int] == NodeView::Str(k@),
            None => i >= nodes@.len() || !(tape_view(nodes@)[i as int] is Str),
        },
{
    if i >= nodes.len() {
        return None;
    }
    match &nodes[i] {
        TapeNode::Str(k) => Some(copy_text(k)),
        _ => None,
    }
}

/// Builds the document of a tape, with a stack of the containers that are open. A
/// tape that does not hold what its counts promise has no document.
#[verifier::spinoff_prover]
#[verifier::rlimit(40)]
pub fn build(nodes: &Vec<TapeNode>) -> (r: Option<Json>)
    ensures
        match read_value(tape_view(nodes@), 0) {
            Some((v, _)) => r matches Some(j) && j@ == v,
            None => r is None,
        },
{
    let ghost tape = tape_view(nodes@);
    let ghost goal = awaiting(tape, Seq::empty(), 0);
    let mut stack: Vec<Open> = Vec::new();
    let mut i: usize = 0;
    assert(stack_view(stack@) =~= Seq::empty());
    loop
        invariant
            tape == tape_view(nodes@),
            i <= nodes@.len(),
            forall|k: int|
                0 <= k < stack@.len() ==> open_valid((#[trigger] stack@[k])@),
            forall|k: int|
                0 <= k < stack@.len() - 1 ==> ((#[trigger] stack@[k])@ matches OpenView::Dict {
                    key,
                    ..
                } ==> key is Some),
            goal == awaiting(tape, Seq::empty(), 0),
            awaiting(tape, stack_view(stack@), i as int) == goal,
        decreases nodes@.len() - i,
    {
        let ghost start = stack@;
        // in an object, the next node is a key
        match stack.pop() {
            Some(Open::Dict { members, key: None, len }) => {
                let ghost top = Open::Dict { members, key: None, len };
                let ghost rest = stack@;
                proof {
                    stack_view_push(rest, top);
                    assert(start == rest.push(top));
                    assert(start[start.len() - 1] == top);
                    assert(open_valid(top@));
                    awaiting_key(tape, stack_view(rest.push(top)), i as int);
                }
                match read_key(nodes, i) {
                    Some(k) => {
                        assert(nodes@.len() == nodes.len());
                        i += 1;
                        let next: Open = Open::Dict { members, key: Some(k), len };
                        proof {
                            stack_view_push(rest, next);
                            assert(stack_view(start).last() == top@);
                            assert(next@ == (OpenView::Dict {
                                members: top@->members,
                                key: Some(tape[i - 1]->Str_0),
                                len: top@->Dict_len,
                            }));
                        }
                        stack.push(next);
                    },
                    None => return None,
                }
            },
            Some(top) => {
                proof {
                    stack_view_push(stack@, top);
                    assert(start == stack@.push(top));
                }
                stack.push(top);
                assert(stack@ == start);
            },
            None => {},
        }
        assert(awaiting(tape, stack_view(stack@), i as int) == goal);
        let ghost here = stack_view(stack@);
        proof {
            if stack@.len() > 0 {
                stack_view_push(stack@, stack@.last());
                assert(here.last() == stack@.last()@);
            }
            awaiting_value(tape, here, i as int);
        }
        if i >= nodes.len() {
            return None;
        }
        proof {
            awaiting_container(tape, here, i as int);
        }
        let mut val: Json = match &nodes[i] {
            TapeNode::Str(s) => Json::Str(copy_text(s)),
            TapeNode::Null => Json::Null,
            TapeNode::Bool(b) => Json::Bool(*b),
            TapeNode::I64(v) => Json::I64(*v),
            TapeNode::U64(v) => Json::U64(*v),
            TapeNode::F64(v) => Json::F64(*v),
            TapeNode::Array(len) => {
                if *len > 0 {
                    let open: Open = Open::List { items: Vec::new(), len: *len };
                    proof {
                        stack_view_push(stack@, open);
                        assert(open@->items =~= Seq::empty());
                        assert(open@ == (OpenView::List { items: Seq::empty(), len: *len as nat }));
                    }
                    stack.push(open);
                    i += 1;
                    continue;
                }
                Json::Array(Vec::new())
            },
            TapeNode::Object(len) => {
                if *len > 0 {
                    let open: Open = Open::Dict { members: Vec::new(), key: None, len: *len };
                    proof {
                        stack_view_push(stack@, open);
                        assert(open@->members =~= Seq::empty());
                        assert(open@ == (OpenView::Dict {
                            members: Seq::empty(),
                            key: None,
                            len: *len as nat,
                        }));
                    }
                    stack.push(open);
                    i += 1;
                    continue;
                }
                Json::Object(Vec::new())
            },
        };
        i += 1;
        assert(resume(tape, here, val@, i as int) == goal);
        // the finished value goes into its container, which it may complete
        loop
            invariant_except_break
                forall|k: int|
                    0 <= k < stack@.len() ==> open_valid((#[trigger] stack@[k])@),
                forall|k: int|
                    0 <= k < stack@.len() ==> ((#[trigger] stack@[k])@ matches OpenView::Dict {
                        key,
                        ..
                    } ==> key is Some),
                resume(tape, stack_view(stack@), val@, i as int) == goal,
            invariant
                tape == tape_view(nodes@),
                goal == awaiting(tape, Seq::empty(), 0),
                i <= nodes@.len(),
            ensures
                forall|k: int|
                    0 <= k < stack@.len() ==> open_valid((#[trigger] stack@[k])@),
                forall|k: int|
                    0 <= k < stack@.len() - 1 ==> ((#[trigger] stack@[k])@ matches OpenView::Dict {
                        key,
                        ..
                    } ==> key is Some),
                awaiting(tape, stack_view(stack@), i as int) == goal,
            decreases stack@.len(),
        {
            let ghost before = stack@;
            match stack.pop() {
                None => {
                    assert(stack_view(before) =~= Seq::empty());
                    return Some(val);
                },
                Some(top) => {
                    proof {
                        stack_view_push(stack@, top);
                        assert(before == stack@.push(top));
                        assert(open_valid(before[before.len() - 1]@));
                    }
                    match put(top, val) {
                        Filled::More(more) => {
                            proof {
                                stack_view_push(stack@, more);
                            }
                            stack.push(more);
                            break;
                        },
                        Filled::Done(j) => {
                            val = j;
                        },
                    }
                },
            }
        }
    }
}

/// The tape of a document.
pub open spec fn json_tape(v: JsonView) -> Seq<NodeView>
    decreases v, 1int, 0int,
{
    match v {
        JsonView::Null => seq![NodeView::Null],
        JsonView::Bool(b) => seq![NodeView::Bool(b)],
        JsonView::I64(n) => seq![NodeView::I64(n)],
        JsonView::U64(n) => seq![NodeView::U64(n)],
        JsonView::F64(n) => seq![NodeView::F64(n)],
        JsonView::Str(s) => seq![NodeView::Str(s)],
        JsonView::Array(items) => seq![NodeView::Array(items.len() as usize)] + items_tape(
            items,
            0,
        ),
        JsonView::Object(members) => seq![NodeView::Object(members.len() as usize)] + members_tape(
            members,
            0,
        ),
    }
}

/// The tape of the elements from `k` on.
pub open spec fn items_tape(items: Seq<JsonView>, k: int) -> Seq<NodeView>
    decreases items, 0int, items.len() - k,
{
    if k < 0 || k >= items.len() {
        Seq::empty()
    } else {
        json_tape(items[k]) + items_tape(items, k + 1)
    }
}

/// The tape of the members from `k` on.
pub open spec fn members_tape(members: Seq<(Seq<u8>, JsonView)>, k: int) -> Seq<NodeView>
    decreases members, 0int, members.len() - k,
{
    if k < 0 || k >= members.len() {
        Seq::empty()
    } else {
        seq![NodeView::Str(members[k].0)] + json_tape(members[k].1) + members_tape(members, k + 1)
    }
}

/// Do the lengths of all containers fit a tape?
pub open spec fn fits_tape(v: JsonView) -> bool
    decreases v,
{
    match v {
        JsonView::Array(items) => items.len() <= usize::MAX && forall|k: int|
            0 <= k < items.len() ==> fits_tape(#[trigger] items[k]),
        JsonView::Object(members) => members.len() <= usize::MAX && forall|k: int|
            0 <= k < members.len() ==> fits_tape((#[trigger] members[k]).1),
        _ => true,
    }
}

/// The document of the tape of a document is that document, wherever the tape stands:
/// building loses nothing, adds nothing and keeps the order.
pub proof fn tape_reads_back(nodes: Seq<NodeView>, i: int, v: JsonView)
    requires
        0 <= i,
        i + json_tape(v).len() <= nodes.len(),
        nodes.subrange(i, i + json_tape(v).len()) == json_tape(v),
        fits_tape(v),
    ensures
        read_value(nodes, i) == Some((v, i + json_tape(v).len() as int)),
    decreases v, 1int, 0int,
{
    let t = json_tape(v);
    assert(t.len() >= 1);
    assert(nodes[i] == nodes.subrange(i, i + t.len())[0]);
    match v {
        JsonView::Array(items) => {
            let rest = items_tape(items, 0);
            assert(nodes.subrange(i + 1, i + 1 + rest.len()) =~= nodes.subrange(
                i,
                i + t.len(),
            ).subrange(1, t.len() as int));
            assert(t.subrange(1, t.len() as int) =~= rest);
            items_read_back(nodes, i + 1, v, 0);
            assert(items.subrange(0, items.len() as int) =~= items);
        },
        JsonView::Object(members) => {
            let rest = members_tape(members, 0);
            assert(nodes.subrange(i + 1, i + 1 + rest.len()) =~= nodes.subrange(
                i,
                i + t.len(),
            ).subrange(1, t.len() as int));
            assert(t.subrange(1, t.len() as int) =~= rest);
            members_read_back(nodes, i + 1, v, 0);
            assert(members.subrange(0, members.len() as int) =~= members);
        },
        _ => {},
    }
}

proof fn items_read_back(nodes: Seq<NodeView>, i: int, v: JsonView, k: int)
    requires
        v is Array,
        0 <= k <= v->Array_0.len(),
        0 <= i,
        i + items_tape(v->Array_0, k).len() <= nodes.len(),
        nodes.subrange(i, i + items_tape(v->Array_0, k).len()) == items_tape(v->Array_0, k),
        fits_tape(v),
    ensures
        read_items(nodes, i, (v->Array_0.len() - k) as nat) == Some(
            (
                v->Array_0.subrange(k, v->Array_0.len() as int),
                i + items_tape(v->Array_0, k).len() as int,
            ),
        ),
    decreases v, 0int, v->Array_0.len() - k,
{
    let items = v->Array_0;
    if k < items.len() {
        let all = items_tape(items, k);
        let head = json_tape(items[k]);
        let tail = items_tape(items, k + 1);
        let j = i + head.len();
        assert(nodes.subrange(i, j) =~= nodes.subrange(i, i + all.len()).subrange(
            0,
            head.len() as int,
        ));
        assert(all.subrange(0, head.len() as int) =~= head);
        assert(nodes.subrange(j, j + tail.len()) =~= nodes.subrange(i, i + all.len()).subrange(
            head.len() as int,
            all.len() as int,
        ));
        assert(all.subrange(head.len() as int, all.len() as int) =~= tail);
        assert(fits_tape(items[k]));
        tape_reads_back(nodes, i, items[k]);
        items_read_back(nodes, j, v, k + 1);
        read_value_moves(nodes, i);
        assert(seq![items[k]] + items.subrange(k + 1, items.len() as int) =~= items.subrange(
            k,
            items.len() as int,
        ));
    } else {
        assert(items.subrange(k, items.len() as int) =~= Seq::empty());
    }
}

proof fn members_read_back(nodes: Seq<NodeView>, i: int, v: JsonView, k: int)
    requires
        v is Object,
        0 <= k <= v->Object_0.len(),
        0 <= i,
        i + members_tape(v->Object_0, k).len() <= nodes.len(),
        nodes.subrange(i, i + members_tape(v->Object_0, k).len()) == members_tape(v->Object_0, k),
        fits_tape(v),
    ensures
        read_members(nodes, i, (v->Object_0.len() - k) as nat) == Some(
            (
                v->Object_0.subrange(k, v->Object_0.len() as int),
                i + members_tape(v->Object_0, k).len() as int,
            ),
        ),
    decreases v, 0int, v->Object_0.len() - k,
{
    let members = v->Object_0;
    if k < members.len() {
        let all = members_tape(members, k);
        let head = json_tape(members[k].1);
        let tail = members_tape(members, k + 1);
        let j = i + 1int + head.len();
        assert(all[0] == NodeView::Str(members[k].0));
        assert(nodes[i] == nodes.subrange(i, i + all.len())[0]);
        assert(nodes.subrange(i + 1, j) =~= nodes.subrange(i, i + all.len()).subrange(
            1,
            1int + head.len(),
        ));
        assert(all.subrange(1, 1int + head.len()) =~= head);
        assert(nodes.subrange(j, j + tail.len()) =~= nodes.subrange(i, i + all.len()).subrange(
            1int + head.len(),
            all.len() as int,
        ));
        assert(all.subrange(1int + head.len(), all.len() as int) =~= tail);
        assert(fits_tape(members[k].1));
        tape_reads_back(nodes, i + 1, members[k].1);
        members_read_back(nodes, j, v, k + 1);
        read_value_moves(nodes, i + 1);
        assert(seq![members[k]] + members.subrange(k + 1, members.len() as int)
            =~= members.subrange(k, members.len() as int));
    } else {
        assert(members.subrange(k, members.len() as int) =~= Seq::empty());
    }
}

} // verus!
