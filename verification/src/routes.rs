//! The gateway's routing table: leaf addresses and tool entries packed into
//! one byte arena, plus the cached tools-list JSON built from them.
//!
//! Abstractly the table is a sequence of leaf slots (an address, or empty), a
//! sequence of route slots (a tool name, its description and its leaf, or
//! empty), the number of arena bytes in use, and the cached JSON.

use vstd::prelude::*;
use vstd::utf8::valid_utf8;
use crate::json::{bytes_eq, sp, skip_delimited, obj_get, unquote, skip_ws, delim_close,
    obj_first, spec_unquote, LBRACE, RBRACE, RBRACKET, COMMA, LBRACKET, lemma_skip_ws,
    lemma_delim_close};
use crate::text::is_utf8;
use crate::writer::Writer;
use crate::rpc::{tool_entry, write_tool_raw, lemma_tool_entry_len, TOOL_JSON_OVERHEAD, SEP};
use vstd::string::StringSliceAdditionalSpecFns;

verus! {

/// Longest tool name a leaf may register, in bytes.
pub const NAME_MAX: usize = 32;

/// Longest leaf address, in bytes (Linux `sun_path`).
pub const LEAF_ADDR_MAX: usize = 108;

/// A leaf address: `(offset, length)` into the arena. Length 0 marks an
/// empty slot.
#[derive(Copy, Clone)]
pub struct LeafIdx {
    off: u16,
    len: u8,
}

/// A route: name and description spans in the arena, and the owning leaf.
/// Name length 0 marks an empty slot.
#[derive(Copy, Clone)]
pub struct RouteIdx {
    name_off: u16,
    name_len: u8,
    desc_off: u16,
    desc_len: u8,
    leaf: u8,
}

impl LeafIdx {
    fn empty() -> (r: Self)
        ensures
            r.len == 0,
    {
        LeafIdx { off: 0, len: 0 }
    }
}

impl RouteIdx {
    fn empty() -> (r: Self)
        ensures
            r.name_len == 0,
    {
        RouteIdx { name_off: 0, name_len: 0, desc_off: 0, desc_len: 0, leaf: 0 }
    }
}

/// A live route, abstractly.
pub struct RouteView {
    pub name: Seq<u8>,
    pub desc: Seq<u8>,
    pub leaf: u8,
}

/// The routing table, abstractly.
pub struct InnerView {
    /// Leaf slots up to the high-water mark; an empty sequence is a free slot.
    pub leaves: Seq<Seq<u8>>,
    /// Route slots up to the high-water mark; `None` is a free slot.
    pub routes: Seq<Option<RouteView>>,
    /// Arena bytes in use.
    pub used: nat,
    /// The cached comma-separated tool entries.
    pub json: Seq<u8>,
}

// ---------------------------------------------------------------------------
// Abstract operations
// ---------------------------------------------------------------------------

pub open spec fn leaf_total(ls: Seq<Seq<u8>>) -> nat
    decreases ls.len(),
{
    if ls.len() == 0 {
        0
    } else {
        leaf_total(ls.drop_last()) + ls.last().len()
    }
}

pub open spec fn route_size(r: Option<RouteView>) -> nat {
    match r {
        Some(x) => x.name.len() + x.desc.len(),
        None => 0,
    }
}

pub open spec fn route_total(rs: Seq<Option<RouteView>>) -> nat
    decreases rs.len(),
{
    if rs.len() == 0 {
        0
    } else {
        route_total(rs.drop_last()) + route_size(rs.last())
    }
}

/// Arena bytes that back live leaves and routes.
pub open spec fn live_total(v: InnerView) -> nat {
    leaf_total(v.leaves) + route_total(v.routes)
}

/// A live route is named `name`.
pub open spec fn has_route_named(rs: Seq<Option<RouteView>>, name: Seq<u8>) -> bool {
    exists|j: int| 0 <= j < rs.len() && (#[trigger] rs[j] matches Some(r) && r.name == name)
}

/// The first free route slot at or after `i`.
pub open spec fn first_free_route(rs: Seq<Option<RouteView>>, i: int) -> Option<int>
    decreases rs.len() - i,
{
    if i < 0 || i >= rs.len() {
        None
    } else if rs[i] is None {
        Some(i)
    } else {
        first_free_route(rs, i + 1)
    }
}

/// The first free leaf slot at or after `i`.
pub open spec fn first_free_leaf(ls: Seq<Seq<u8>>, i: int) -> Option<int>
    decreases ls.len() - i,
{
    if i < 0 || i >= ls.len() {
        None
    } else if ls[i].len() == 0 {
        Some(i)
    } else {
        first_free_leaf(ls, i + 1)
    }
}

/// How many arena bytes may be used: `A`, and never more than a `u16` offset
/// can reach.
pub open spec fn arena_cap(a: nat) -> nat {
    if a <= 65535 {
        a
    } else {
        65535
    }
}

pub open spec fn with_routes(v: InnerView, routes: Seq<Option<RouteView>>) -> InnerView {
    InnerView { leaves: v.leaves, routes, used: v.used, json: v.json }
}

pub open spec fn with_used(v: InnerView, used: nat) -> InnerView {
    InnerView { leaves: v.leaves, routes: v.routes, used, json: v.json }
}

/// Register one tool for `leaf`: the checks in order, then a free or new
/// route slot, then the name and description appended to the arena. A
/// failure after a slot or arena bytes were taken leaves them taken.
pub open spec fn add_route_view(
    v: InnerView,
    name: Seq<u8>,
    desc: Seq<u8>,
    leaf: u8,
    t: nat,
    a: nat,
) -> (InnerView, Result<(), &'static str>) {
    if name.len() == 0 {
        (v, Err("tool name is empty"))
    } else if name.len() > NAME_MAX {
        (v, Err("tool name exceeds NAME_MAX bytes"))
    } else if !valid_utf8(name) {
        (v, Err("tool name is not valid UTF-8"))
    } else if !valid_utf8(desc) {
        (v, Err("tool description is not valid UTF-8"))
    } else if desc.len() > 255 {
        (v, Err("tool description exceeds 255 bytes"))
    } else if has_route_named(v.routes, name) {
        (v, Err("duplicate tool name across leaves"))
    } else {
        let free = first_free_route(v.routes, 0);
        if free is None && v.routes.len() >= t {
            (v, Err("tool limit (T) reached"))
        } else {
            let slot = match free {
                Some(s) => s,
                None => v.routes.len() as int,
            };
            let routes1 = match free {
                Some(s) => v.routes,
                None => v.routes.push(None),
            };
            if v.used + name.len() > arena_cap(a) {
                (with_routes(v, routes1), Err("name arena (A) full"))
            } else if v.used + name.len() + desc.len() > arena_cap(a) {
                (with_used(with_routes(v, routes1), v.used + name.len()), Err("name arena (A) full"))
            } else {
                (
                    with_used(
                        with_routes(
                            v,
                            routes1.update(slot, Some(RouteView { name, desc, leaf })),
                        ),
                        v.used + name.len() + desc.len(),
                    ),
                    Ok(()),
                )
            }
        }
    }
}

/// The cached tools-list body: one entry per live route in slot order,
/// separated by commas.
pub open spec fn render(rs: Seq<Option<RouteView>>) -> Seq<u8>
    decreases rs.len(),
{
    if rs.len() == 0 {
        seq![]
    } else {
        let p = render(rs.drop_last());
        match rs.last() {
            None => p,
            Some(r) => if p.len() == 0 {
                tool_entry(r.name, r.desc)
            } else {
                p + SEP.spec_bytes() + tool_entry(r.name, r.desc)
            },
        }
    }
}

pub open spec fn with_json(v: InnerView, json: Seq<u8>) -> InnerView {
    InnerView { leaves: v.leaves, routes: v.routes, used: v.used, json }
}

/// Rebuild the cached JSON from the live routes, or fail without touching
/// it when it would not fit in `b` bytes.
pub open spec fn rebuild_view(v: InnerView, b: nat) -> (InnerView, Result<(), &'static str>) {
    if render(v.routes).len() > b {
        (v, Err("tools_json buffer (B) too small for combined tool list"))
    } else {
        (with_json(v, render(v.routes)), Ok(()))
    }
}

pub proof fn lemma_sep_len()
    ensures
        SEP.spec_bytes().len() == 1,
{
    reveal_strlit(",");
    assert(vstd::string::is_ascii(SEP));
    vstd::string::is_ascii_spec_bytes(SEP);
}

/// The arena span of a route's name.
fn name_span<const A: usize>(arena: &[u8; A], ri: RouteIdx) -> (r: &[u8])
    requires
        ri.name_off + ri.name_len <= A,
    ensures
        r@ == arena@.subrange(ri.name_off as int, ri.name_off + ri.name_len),
{
    vstd::slice::slice_subrange(
        arena.as_slice(),
        ri.name_off as usize,
        ri.name_off as usize + ri.name_len as usize,
    )
}

/// The arena span of a route's description (empty when its length is 0).
fn desc_span<const A: usize>(arena: &[u8; A], ri: RouteIdx) -> (r: &[u8])
    requires
        ri.desc_len > 0 ==> ri.desc_off + ri.desc_len <= A,
    ensures
        r@ == (if ri.desc_len == 0 {
            Seq::<u8>::empty()
        } else {
            arena@.subrange(ri.desc_off as int, ri.desc_off + ri.desc_len)
        }),
{
    if ri.desc_len == 0 {
        let r = vstd::slice::slice_subrange(arena.as_slice(), 0, 0);
        assert(r@ =~= Seq::<u8>::empty());
        r
    } else {
        vstd::slice::slice_subrange(
            arena.as_slice(),
            ri.desc_off as usize,
            ri.desc_off as usize + ri.desc_len as usize,
        )
    }
}

// ---------------------------------------------------------------------------
// Reading a leaf's tools array
// ---------------------------------------------------------------------------

/// One step through a leaf's `tools` array at position `p`.
pub enum EntryStep {
    /// The closing bracket, or the end of input.
    End,
    /// A comma; continue at the position given.
    Skip(int),
    /// A tool object with its name and description; continue after it.
    Entry(Seq<u8>, Seq<u8>, int),
    /// Malformed input.
    Fail(&'static str),
}

pub open spec fn key_name() -> Seq<u8> {
    "name".spec_bytes()
}

pub open spec fn key_description() -> Seq<u8> {
    "description".spec_bytes()
}

/// A tool object's description: its unquoted `description`, or empty when
/// that is missing or not a string.
pub open spec fn desc_of(obj: Seq<u8>) -> Seq<u8> {
    match obj_first(obj, key_description()) {
        Some(dq) => match spec_unquote(dq) {
            Some(d) => d,
            None => Seq::empty(),
        },
        None => Seq::empty(),
    }
}

pub open spec fn entry_at(arr: Seq<u8>, p: int) -> EntryStep {
    let q = skip_ws(arr, p);
    if !(0 <= q < arr.len()) || arr[q] == RBRACKET() {
        EntryStep::End
    } else if arr[q] == COMMA() {
        EntryStep::Skip(q + 1)
    } else if arr[q] != LBRACE() {
        EntryStep::Fail("malformed tool entry in leaf response")
    } else {
        match delim_close(arr, q + 1, 1, LBRACE(), RBRACE()) {
            None => EntryStep::Fail("unterminated tool object in leaf response"),
            Some(e) => {
                let obj = arr.subrange(q, e);
                match obj_first(obj, key_name()) {
                    None => EntryStep::Fail("missing tool name"),
                    Some(nq) => match spec_unquote(nq) {
                        None => EntryStep::Fail("malformed tool name"),
                        Some(name) => EntryStep::Entry(name, desc_of(obj), e),
                    },
                }
            },
        }
    }
}

pub proof fn lemma_entry_at(arr: Seq<u8>, p: int)
    requires
        0 <= p <= arr.len(),
    ensures
        entry_at(arr, p) matches EntryStep::Skip(n) ==> p < n <= arr.len(),
        entry_at(arr, p) matches EntryStep::Entry(_, _, n) ==> p < n <= arr.len(),
{
    lemma_skip_ws(arr, p);
    let q = skip_ws(arr, p);
    lemma_delim_close(arr, q + 1, 1, LBRACE(), RBRACE());
}

/// Register the tools of `arr` from position `p` on for `leaf`, stopping at
/// the first failure.
pub open spec fn process_entries(
    v: InnerView,
    arr: Seq<u8>,
    p: int,
    leaf: u8,
    t: nat,
    a: nat,
) -> Result<InnerView, &'static str>
    decreases arr.len() - p,
{
    if p < 0 || p > arr.len() {
        Ok(v)
    } else {
        match entry_at(arr, p) {
            EntryStep::End => Ok(v),
            EntryStep::Fail(m) => Err(m),
            EntryStep::Skip(n) => if p < n <= arr.len() {
                process_entries(v, arr, n, leaf, t, a)
            } else {
                Ok(v)
            },
            EntryStep::Entry(name, desc, n) => {
                let (v2, r) = add_route_view(v, name, desc, leaf, t, a);
                match r {
                    Err(m) => Err(m),
                    Ok(_) => if p < n <= arr.len() {
                        process_entries(v2, arr, n, leaf, t, a)
                    } else {
                        Ok(v2)
                    },
                }
            },
        }
    }
}

/// The leaf slot a new leaf takes: the first free one, else a new one.
pub open spec fn commit_slot(v: InnerView, l: nat) -> Option<int> {
    match first_free_leaf(v.leaves, 0) {
        Some(s) => Some(s),
        None => if v.leaves.len() >= l {
            None
        } else {
            Some(v.leaves.len() as int)
        },
    }
}

/// Routes of `leaf` dropped.
pub open spec fn clear_leaf_routes(rs: Seq<Option<RouteView>>, leaf: u8) -> Seq<Option<RouteView>> {
    Seq::new(
        rs.len(),
        |i: int|
            match rs[i] {
                Some(r) => if r.leaf == leaf {
                    None
                } else {
                    Some(r)
                },
                None => None,
            },
    )
}

/// Adding a leaf at address `addr` whose tools array is `arr`: take a slot,
/// store the address, register every tool, rebuild the cached JSON.
pub open spec fn commit_view(
    v: InnerView,
    addr: Seq<u8>,
    arr: Seq<u8>,
    l: nat,
    t: nat,
    b: nat,
    a: nat,
) -> Result<InnerView, &'static str> {
    match commit_slot(v, l) {
        None => Err("leaf limit reached"),
        Some(slot) => if v.used + addr.len() > arena_cap(a) {
            Err("name arena (A) full")
        } else {
            let leaves1 = if slot < v.leaves.len() {
                v.leaves.update(slot, addr)
            } else {
                v.leaves.push(addr)
            };
            let v1 = InnerView {
                leaves: leaves1,
                routes: v.routes,
                used: v.used + addr.len(),
                json: v.json,
            };
            let q = skip_ws(arr, 0);
            if !(0 <= q < arr.len() && arr[q] == LBRACKET()) {
                Err("leaf returned non-array tools list")
            } else {
                match process_entries(v1, arr, q + 1, slot as u8, t, a) {
                    Err(m) => Err(m),
                    Ok(v2) => match rebuild_view(v2, b).1 {
                        Ok(_) => Ok(rebuild_view(v2, b).0),
                        Err(m) => Err(m),
                    },
                }
            }
        },
    }
}

/// What a failed add leaves behind: the table as it was, except that routes
/// naming the slot the leaf would have taken are dropped.
pub open spec fn commit_rollback(v: InnerView, l: nat) -> InnerView {
    match commit_slot(v, l) {
        None => v,
        Some(slot) => InnerView {
            leaves: v.leaves,
            routes: clear_leaf_routes(v.routes, slot as u8),
            used: v.used,
            json: v.json,
        },
    }
}

pub proof fn lemma_route_total_clear(rs: Seq<Option<RouteView>>, leaf: u8)
    ensures
        route_total(clear_leaf_routes(rs, leaf)) <= route_total(rs),
    decreases rs.len(),
{
    if rs.len() > 0 {
        lemma_route_total_clear(rs.drop_last(), leaf);
        assert(clear_leaf_routes(rs, leaf).drop_last() =~= clear_leaf_routes(rs.drop_last(), leaf));
    }
}

/// The first live leaf slot at or after `i` whose address is `addr`.
pub open spec fn find_leaf(ls: Seq<Seq<u8>>, addr: Seq<u8>, i: int) -> Option<int>
    decreases ls.len() - i,
{
    if i < 0 || i >= ls.len() {
        None
    } else if ls[i].len() != 0 && ls[i] == addr {
        Some(i)
    } else {
        find_leaf(ls, addr, i + 1)
    }
}

/// Removing the leaf at `addr`: free its slot, drop its routes, compact the
/// arena down to the live bytes, rebuild the cached JSON.
pub open spec fn remove_view(v: InnerView, addr: Seq<u8>, b: nat) -> (InnerView, Result<
    (),
    &'static str,
>) {
    match find_leaf(v.leaves, addr, 0) {
        None => (v, Err("no such leaf")),
        Some(slot) => {
            let v1 = InnerView {
                leaves: v.leaves.update(slot, Seq::empty()),
                routes: clear_leaf_routes(v.routes, slot as u8),
                used: v.used,
                json: v.json,
            };
            rebuild_view(with_used(v1, live_total(v1)), b)
        },
    }
}

pub proof fn lemma_find_leaf(ls: Seq<Seq<u8>>, addr: Seq<u8>, i: int)
    ensures
        find_leaf(ls, addr, i) matches Some(s) ==> i <= s < ls.len() && ls[s].len() != 0 && ls[s]
            == addr,
    decreases ls.len() - i,
{
    if 0 <= i < ls.len() && !(ls[i].len() != 0 && ls[i] == addr) {
        lemma_find_leaf(ls, addr, i + 1);
    }
}

pub proof fn lemma_leaf_total_take(ls: Seq<Seq<u8>>, j: int)
    requires
        0 <= j < ls.len(),
    ensures
        leaf_total(ls.take(j + 1)) == leaf_total(ls.take(j)) + ls[j].len(),
        leaf_total(ls.take(j + 1)) <= leaf_total(ls),
    decreases ls.len(),
{
    assert(ls.take(j + 1).drop_last() =~= ls.take(j));
    if j + 1 < ls.len() {
        lemma_leaf_total_take(ls.drop_last(), j);
        assert(ls.drop_last().take(j + 1) =~= ls.take(j + 1));
        assert(ls.drop_last().take(j) =~= ls.take(j));
    } else {
        assert(ls.take(j + 1) =~= ls);
    }
}

pub proof fn lemma_route_total_take(rs: Seq<Option<RouteView>>, j: int)
    requires
        0 <= j < rs.len(),
    ensures
        route_total(rs.take(j + 1)) == route_total(rs.take(j)) + route_size(rs[j]),
        route_total(rs.take(j + 1)) <= route_total(rs),
    decreases rs.len(),
{
    assert(rs.take(j + 1).drop_last() =~= rs.take(j));
    if j + 1 < rs.len() {
        lemma_route_total_take(rs.drop_last(), j);
        assert(rs.drop_last().take(j + 1) =~= rs.take(j + 1));
        assert(rs.drop_last().take(j) =~= rs.take(j));
    } else {
        assert(rs.take(j + 1) =~= rs);
    }
}

/// Copy `len` bytes from `src[from..]` to `dst[at..]`, leaving the rest of
/// `dst` as it was.
fn copy_span<const A: usize>(dst: &mut [u8; A], at: usize, src: &[u8; A], from: usize, len: usize)
    requires
        at + len <= A,
        from + len <= A,
    ensures
        final(dst)@.subrange(at as int, at + len) == src@.subrange(from as int, from + len),
        forall|k: int| 0 <= k < A && !(at <= k < at + len) ==> #[trigger] final(dst)@[k] == old(dst)@[k],
        final(dst)@.len() == A,
{
    let mut i: usize = 0;
    while i < len
        invariant
            at + len <= A,
            from + len <= A,
            i <= len,
            dst@.len() == A,
            forall|k: int| at <= k < at + i ==> #[trigger] dst@[k] == src@[from + k - at],
            forall|k: int| 0 <= k < A && !(at <= k < at + i) ==> #[trigger] dst@[k] == old(dst)@[k],
        decreases len - i,
    {
        dst[at + i] = src[from + i];
        i = i + 1;
    }
    assert(dst@.subrange(at as int, at + len) =~= src@.subrange(from as int, from + len));
}

/// A span that ends before `lo` survives writes at or after `lo`.
proof fn lemma_span_kept(a: Seq<u8>, b: Seq<u8>, s: int, e: int, lo: int)
    requires
        0 <= s <= e <= lo,
        e <= a.len(),
        a.len() == b.len(),
        forall|k: int| 0 <= k < a.len() && k < lo ==> #[trigger] b[k] == a[k],
    ensures
        b.subrange(s, e) == a.subrange(s, e),
{
    assert(b.subrange(s, e) =~= a.subrange(s, e));
}

/// The first live route slot at or after `i` whose name is `name`.
pub open spec fn find_route(rs: Seq<Option<RouteView>>, name: Seq<u8>, i: int) -> Option<int>
    decreases rs.len() - i,
{
    if i < 0 || i >= rs.len() {
        None
    } else if rs[i] matches Some(r) && r.name == name {
        Some(i)
    } else {
        find_route(rs, name, i + 1)
    }
}

pub proof fn lemma_find_route(rs: Seq<Option<RouteView>>, name: Seq<u8>, i: int)
    requires
        0 <= i,
    ensures
        find_route(rs, name, i) matches Some(s) ==> (i <= s < rs.len() && (rs[s] matches Some(r)
            && r.name == name)),
        find_route(rs, name, i) is None ==> forall|k: int|
            i <= k < rs.len() ==> !(#[trigger] rs[k] matches Some(r) && r.name == name),
    decreases rs.len() - i,
{
    if 0 <= i < rs.len() && !(rs[i] matches Some(r) && r.name == name) {
        lemma_find_route(rs, name, i + 1);
    }
}

/// Where a call to tool `name` goes: the address of the leaf that owns the
/// first route with that name, when that route names a leaf slot in use.
pub open spec fn route_addr(v: InnerView, name: Seq<u8>) -> Option<Seq<u8>> {
    match find_route(v.routes, name, 0) {
        None => None,
        Some(i) => {
            let leaf = v.routes[i].unwrap().leaf as int;
            if leaf < v.leaves.len() {
                Some(v.leaves[leaf])
            } else {
                None
            }
        },
    }
}

/// Every live route belongs to a leaf slot that holds an address.
pub open spec fn owned(v: InnerView) -> bool {
    forall|i: int|
        0 <= i < v.routes.len() ==> (#[trigger] v.routes[i] matches Some(r) ==> r.leaf
            < v.leaves.len() && v.leaves[r.leaf as int].len() > 0)
}

/// No two live routes share a name.
pub open spec fn unique_names(v: InnerView) -> bool {
    forall|i: int, j: int|
        0 <= i < v.routes.len() && 0 <= j < v.routes.len() && i != j && (#[trigger] v.routes[i]) is Some
            && (#[trigger] v.routes[j]) is Some ==> v.routes[i].unwrap().name != v.routes[j].unwrap().name
}

/// Executable step through a tools array; mirrors `EntryStep`.
pub enum Entry<'a> {
    End,
    Skip(usize),
    Tool(&'a [u8], &'a [u8], usize),
    Fail(&'static str),
}

/// One step through a leaf's tools array at `p`.
pub fn next_entry<'a>(arr: &'a [u8], p: usize) -> (r: Entry<'a>)
    requires
        p <= arr@.len(),
    ensures
        match r {
            Entry::End => entry_at(arr@, p as int) is End,
            Entry::Skip(n) => entry_at(arr@, p as int) == EntryStep::Skip(n as int),
            Entry::Tool(name, desc, n) => entry_at(arr@, p as int) == EntryStep::Entry(
                name@,
                desc@,
                n as int,
            ),
            Entry::Fail(m) => entry_at(arr@, p as int) == EntryStep::Fail(m),
        },
{
    proof {
        lemma_skip_ws(arr@, p as int);
    }
    let q = sp(arr, p);
    if q >= arr.len() || arr[q] == 93u8 {
        return Entry::End;
    }
    if arr[q] == 44u8 {
        return Entry::Skip(q + 1);
    }
    if arr[q] != 123u8 {
        return Entry::Fail("malformed tool entry in leaf response");
    }
    let mut e = q;
    if skip_delimited(arr, &mut e, 123u8, 125u8).is_none() {
        return Entry::Fail("unterminated tool object in leaf response");
    }
    proof {
        lemma_delim_close(arr@, q + 1, 1, LBRACE(), RBRACE());
    }
    let obj = vstd::slice::slice_subrange(arr, q, e);
    let name_q = match obj_get(obj, "name".as_bytes()) {
        Some(n) => n,
        None => {
            return Entry::Fail("missing tool name");
        },
    };
    let name = match unquote(name_q) {
        Some(n) => n,
        None => {
            return Entry::Fail("malformed tool name");
        },
    };
    let desc = match obj_get(obj, "description".as_bytes()) {
        Some(dq) => match unquote(dq) {
            Some(d) => d,
            None => {
                let d = vstd::slice::slice_subrange(arr, 0, 0);
                assert(d@ =~= Seq::<u8>::empty());
                d
            },
        },
        None => {
            let d = vstd::slice::slice_subrange(arr, 0, 0);
            assert(d@ =~= Seq::<u8>::empty());
            d
        },
    };
    Entry::Tool(name, desc, e)
}

// ---------------------------------------------------------------------------
// GatewayInner
// ---------------------------------------------------------------------------

/// Packed routing state shared by both gateway flavors.
///
/// - `L`: leaf slots, `T`: route slots, `B`: bytes of cached tools-list JSON,
///   `A`: bytes of arena for addresses, names and descriptions.
pub struct GatewayInner<const L: usize, const T: usize, const B: usize, const A: usize> {
    arena: [u8; A],
    arena_used: u16,
    leaves: [LeafIdx; L],
    leaf_count: u8,
    routes: [RouteIdx; T],
    route_count: u8,
    tools_json: [u8; B],
    tools_json_len: u16,
}

impl<const L: usize, const T: usize, const B: usize, const A: usize> GatewayInner<L, T, B, A> {
    pub closed spec fn leaf_view(&self, i: int) -> Seq<u8> {
        let l = self.leaves@[i];
        if l.len == 0 {
            Seq::empty()
        } else {
            self.arena@.subrange(l.off as int, l.off as int + l.len as int)
        }
    }

    pub closed spec fn route_view(&self, i: int) -> Option<RouteView> {
        let r = self.routes@[i];
        if r.name_len == 0 {
            None
        } else {
            Some(
                RouteView {
                    name: self.arena@.subrange(
                        r.name_off as int,
                        r.name_off as int + r.name_len as int,
                    ),
                    desc: if r.desc_len == 0 {
                        Seq::empty()
                    } else {
                        self.arena@.subrange(r.desc_off as int, r.desc_off as int + r.desc_len as int)
                    },
                    leaf: r.leaf,
                },
            )
        }
    }

    /// The table, abstractly.
    pub closed spec fn view(&self) -> InnerView {
        InnerView {
            leaves: Seq::new(self.leaf_count as nat, |i: int| self.leaf_view(i)),
            routes: Seq::new(self.route_count as nat, |i: int| self.route_view(i)),
            used: self.arena_used as nat,
            json: self.tools_json@.subrange(0, self.tools_json_len as int),
        }
    }

    pub closed spec fn leaf_ok(&self, i: int) -> bool {
        &&& (i >= self.leaf_count ==> self.leaves@[i].len == 0)
        &&& (self.leaves@[i].len > 0 ==> self.leaves@[i].off + self.leaves@[i].len
            <= self.arena_used)
    }

    pub closed spec fn route_ok(&self, i: int) -> bool {
        let r = self.routes@[i];
        &&& (i >= self.route_count ==> r.name_len == 0)
        &&& (r.name_len > 0 ==> r.name_off + r.name_len <= self.arena_used && (r.desc_len > 0
            ==> r.desc_off + r.desc_len <= self.arena_used))
    }

    /// Internal consistency of the packed representation.
    pub closed spec fn wf(&self) -> bool {
        &&& L <= 255
        &&& T <= 255
        &&& B <= 65535
        &&& self.arena_used as int <= A
        &&& self.leaf_count as int <= L
        &&& self.route_count as int <= T
        &&& self.tools_json_len as int <= B
        &&& forall|i: int| 0 <= i < L ==> #[trigger] self.leaf_ok(i)
        &&& forall|i: int| 0 <= i < T ==> #[trigger] self.route_ok(i)
        &&& live_total(self.view()) <= self.arena_used
    }

    /// Everything but the route slots and the arena past the bytes in use
    /// is as in `old`; route slots changed only from free to a route of
    /// `leaf`.
    pub closed spec fn kept_for(&self, old: &Self, leaf: u8) -> bool {
        &&& self.leaves == old.leaves
        &&& self.leaf_count == old.leaf_count
        &&& self.tools_json == old.tools_json
        &&& self.tools_json_len == old.tools_json_len
        &&& self.arena_used >= old.arena_used
        &&& self.route_count >= old.route_count
        &&& self.arena@.subrange(0, old.arena_used as int) == old.arena@.subrange(
            0,
            old.arena_used as int,
        )
        &&& forall|i: int|
            0 <= i < T ==> (#[trigger] self.routes@[i] == old.routes@[i] || (
            old.routes@[i].name_len == 0 && self.routes@[i].leaf == leaf))
    }

    /// All but the cached JSON is as in `old`.
    pub closed spec fn same_but_json(&self, old: &Self) -> bool {
        &&& self.arena == old.arena
        &&& self.arena_used == old.arena_used
        &&& self.leaves == old.leaves
        &&& self.leaf_count == old.leaf_count
        &&& self.routes == old.routes
        &&& self.route_count == old.route_count
    }

    /// A well-formed table has at most 255 leaf and route slots.
    pub proof fn lemma_limits(&self)
        requires
            self.wf(),
        ensures
            L <= 255,
            T <= 255,
            B <= 65535,
    {
    }

    pub fn new() -> (g: Self)
        requires
            L <= 255,
            T <= 255,
            B <= 65535,
        ensures
            g.wf(),
            g.view().leaves.len() == 0,
            g.view().routes.len() == 0,
            g.view().used == 0,
            g.view().json.len() == 0,
    {
        let g = GatewayInner {
            arena: [0u8; A],
            arena_used: 0,
            leaves: vstd::array::array_fill_for_copy_types(LeafIdx::empty()),
            leaf_count: 0,
            routes: vstd::array::array_fill_for_copy_types(RouteIdx::empty()),
            route_count: 0,
            tools_json: [0u8; B],
            tools_json_len: 0,
        };
        assert(g.view().leaves =~= Seq::<Seq<u8>>::empty());
        assert(g.view().routes =~= Seq::<Option<RouteView>>::empty());
        g
    }

    proof fn lemma_view_same_routes(&self, other: &Self)
        requires
            self.wf(),
            other.arena@.subrange(0, self.arena_used as int) == self.arena@.subrange(
                0,
                self.arena_used as int,
            ),
            forall|i: int| 0 <= i < self.route_count ==> other.routes@[i] == self.routes@[i],
        ensures
            forall|i: int| 0 <= i < self.route_count ==> other.route_view(i) == self.route_view(i),
            other.route_count == self.route_count ==> other.view().routes == self.view().routes,
    {
        assert forall|i: int| 0 <= i < self.route_count implies other.route_view(i)
            == self.route_view(i) by {
            assert(self.route_ok(i));
            let r = self.routes@[i];
            if r.name_len > 0 {
                lemma_prefix_sub(other.arena@, self.arena@, self.arena_used as int, r.name_off as int, r.name_off + r.name_len);
                if r.desc_len > 0 {
                    lemma_prefix_sub(other.arena@, self.arena@, self.arena_used as int, r.desc_off as int, r.desc_off + r.desc_len);
                }
            }
        }
        if other.route_count == self.route_count {
            assert(other.view().routes =~= self.view().routes);
        }
    }

    proof fn lemma_view_same_leaves(&self, other: &Self)
        requires
            self.wf(),
            other.arena@.subrange(0, self.arena_used as int) == self.arena@.subrange(
                0,
                self.arena_used as int,
            ),
            forall|i: int| 0 <= i < self.leaf_count ==> other.leaves@[i] == self.leaves@[i],
        ensures
            forall|i: int| 0 <= i < self.leaf_count ==> other.leaf_view(i) == self.leaf_view(i),
            other.leaf_count == self.leaf_count ==> other.view().leaves == self.view().leaves,
    {
        self.lemma_view_leaves_except(other, -1);
        if other.leaf_count == self.leaf_count {
            assert(other.view().leaves =~= self.view().leaves);
        }
    }

    proof fn lemma_view_leaves_except(&self, other: &Self, except: int)
        requires
            self.wf(),
            other.arena@.subrange(0, self.arena_used as int) == self.arena@.subrange(
                0,
                self.arena_used as int,
            ),
            forall|i: int| 0 <= i < self.leaf_count && i != except ==> other.leaves@[i] == self.leaves@[i],
        ensures
            forall|i: int| 0 <= i < self.leaf_count && i != except ==> other.leaf_view(i) == self.leaf_view(i),
    {
        assert forall|i: int| 0 <= i < self.leaf_count && i != except implies other.leaf_view(i)
            == self.leaf_view(i) by {
            assert(self.leaf_ok(i));
            let l = self.leaves@[i];
            if l.len > 0 {
                lemma_prefix_sub(other.arena@, self.arena@, self.arena_used as int, l.off as int, l.off + l.len);
            }
        }
    }

    /// Growing the arena past the bytes in use keeps the table as it was.
    proof fn lemma_arena_grow(&self, other: &Self)
        requires
            self.wf(),
            other.leaves == self.leaves,
            other.leaf_count == self.leaf_count,
            other.routes == self.routes,
            other.route_count == self.route_count,
            other.tools_json == self.tools_json,
            other.tools_json_len == self.tools_json_len,
            self.arena_used <= other.arena_used,
            other.arena_used as int <= A,
            other.arena@.subrange(0, self.arena_used as int) == self.arena@.subrange(
                0,
                self.arena_used as int,
            ),
        ensures
            other.wf(),
            other.view() == with_used(self.view(), other.arena_used as nat),
    {
        self.lemma_view_same_routes(other);
        self.lemma_view_same_leaves(other);
        assert forall|i: int| 0 <= i < T implies #[trigger] other.route_ok(i) by {
            assert(self.route_ok(i));
        }
        assert forall|i: int| 0 <= i < L implies #[trigger] other.leaf_ok(i) by {
            assert(self.leaf_ok(i));
        }
    }

    /// Append `bytes` to the arena, returning where they start.
    fn arena_push(&mut self, bytes: &[u8]) -> (r: Result<u16, &'static str>)
        requires
            old(self).arena_used as int <= A,
        ensures
            match r {
                Ok(off) => {
                    &&& off == old(self).arena_used
                    &&& final(self).arena_used == old(self).arena_used + bytes@.len()
                    &&& final(self).arena@.subrange(off as int, off + bytes@.len()) == bytes@
                    &&& final(self).arena@.subrange(0, off as int) == old(self).arena@.subrange(
                        0,
                        off as int,
                    )
                    &&& old(self).arena_used + bytes@.len() <= arena_cap(A as nat)
                },
                Err(e) => {
                    &&& e == "name arena (A) full"
                    &&& *final(self) == *old(self)
                    &&& old(self).arena_used + bytes@.len() > arena_cap(A as nat)
                },
            },
            final(self).leaves == old(self).leaves,
            final(self).leaf_count == old(self).leaf_count,
            final(self).routes == old(self).routes,
            final(self).route_count == old(self).route_count,
            final(self).tools_json == old(self).tools_json,
            final(self).tools_json_len == old(self).tools_json_len,
            final(self).arena_used as int <= A,
    {
        let off = self.arena_used as usize;
        if bytes.len() > A - off || bytes.len() > 65535 - off {
            return Err("name arena (A) full");
        }
        let mut i: usize = 0;
        while i < bytes.len()
            invariant
                off + bytes@.len() <= A,
                off == self.arena_used,
                i <= bytes@.len(),
                self.arena@.subrange(0, off as int) == old(self).arena@.subrange(0, off as int),
                self.arena@.subrange(off as int, off + i) == bytes@.subrange(0, i as int),
                self.leaves == old(self).leaves,
                self.leaf_count == old(self).leaf_count,
                self.routes == old(self).routes,
                self.route_count == old(self).route_count,
                self.tools_json == old(self).tools_json,
                self.tools_json_len == old(self).tools_json_len,
            decreases bytes.len() - i,
        {
            let ghost before = self.arena@;
            self.arena[off + i] = bytes[i];
            assert(self.arena@.subrange(0, off as int) =~= before.subrange(0, off as int));
            assert(self.arena@.subrange(off as int, off + i + 1) =~= bytes@.subrange(0, i + 1));
            i = i + 1;
        }
        assert(bytes@.subrange(0, bytes@.len() as int) =~= bytes@);
        self.arena_used = (off + bytes.len()) as u16;
        Ok(off as u16)
    }

    /// The arena bytes of route slot `i`'s name.
    fn route_name_of(&self, i: usize) -> (r: &[u8])
        requires
            self.wf(),
            i < self.route_count,
            self.routes@[i as int].name_len > 0,
        ensures
            self.route_view(i as int) matches Some(rv) && r@ == rv.name,
    {
        assert(self.route_ok(i as int));
        let ri = self.routes[i];
        vstd::slice::slice_subrange(
            self.arena.as_slice(),
            ri.name_off as usize,
            ri.name_off as usize + ri.name_len as usize,
        )
    }

    /// The arena bytes of route slot `i`'s description.
    fn route_desc_of(&self, i: usize) -> (r: &[u8])
        requires
            self.wf(),
            i < self.route_count,
            self.routes@[i as int].name_len > 0,
        ensures
            self.route_view(i as int) matches Some(rv) && r@ == rv.desc,
    {
        assert(self.route_ok(i as int));
        let ri = self.routes[i];
        if ri.desc_len == 0 {
            let r = vstd::slice::slice_subrange(self.arena.as_slice(), 0, 0);
            assert(r@ =~= Seq::<u8>::empty());
            r
        } else {
            vstd::slice::slice_subrange(
                self.arena.as_slice(),
                ri.desc_off as usize,
                ri.desc_off as usize + ri.desc_len as usize,
            )
        }
    }

    /// Rebuild the cached tools-list JSON from the live routes. The size is
    /// checked first, so a failure leaves the cache untouched.
    pub fn rebuild_tools_json(&mut self) -> (r: Result<(), &'static str>)
        requires
            old(self).wf(),
        ensures
            final(self).wf(),
            final(self).view() == rebuild_view(old(self).view(), B as nat).0,
            r == rebuild_view(old(self).view(), B as nat).1,
            final(self).same_but_json(old(self)),
            r is Err ==> *final(self) == *old(self),
    {
        let ghost v = self.view();
        let rc = self.route_count as usize;
        proof {
            lemma_sep_len();
        }
        // Pass 1: size check.
        let mut needed: usize = 0;
        let mut i: usize = 0;
        while i < rc
            invariant
                self.wf(),
                v == self.view(),
                rc == self.route_count,
                i <= rc,
                needed == render(v.routes.take(i as int)).len(),
                needed <= i * 600,
            decreases rc - i,
        {
            let ghost pre = v.routes.take(i as int);
            assert(v.routes.take(i + 1).drop_last() =~= pre);
            assert(v.routes.take(i + 1).last() == v.routes[i as int]);
            assert(v.routes[i as int] == self.route_view(i as int));
            assert(self.route_ok(i as int));
            if self.routes[i].name_len != 0 {
                let ri = self.routes[i];
                proof {
                    let rv = self.route_view(i as int).unwrap();
                    assert(self.arena@.len() == A);
                    assert(rv.name.len() == ri.name_len);
                    assert(rv.desc.len() == ri.desc_len);
                    lemma_tool_entry_len(rv.name, rv.desc);
                }
                let comma: usize = if needed == 0 {
                    0
                } else {
                    1
                };
                needed = needed + comma + TOOL_JSON_OVERHEAD + ri.name_len as usize
                    + ri.desc_len as usize;
                proof {
                    lemma_sep_len();
                    let rv = self.route_view(i as int).unwrap();
                    let p = render(pre);
                    assert(render(v.routes.take(i + 1)) == (if p.len() == 0 {
                        tool_entry(rv.name, rv.desc)
                    } else {
                        p + SEP.spec_bytes() + tool_entry(rv.name, rv.desc)
                    }));
                    assert(needed == render(v.routes.take(i + 1)).len());
                }
            } else {
                assert(render(v.routes.take(i + 1)) == render(pre));
            }
            i = i + 1;
        }
        assert(v.routes.take(rc as int) =~= v.routes);
        if needed > B {
            return Err("tools_json buffer (B) too small for combined tool list");
        }
        // Pass 2: write. The cache changes only now that it is known to fit.
        let mut w = Writer::new();
        let mut i: usize = 0;
        while i < rc
            invariant
                rc == self.route_count,
                i <= rc,
                self.arena == old(self).arena,
                self.arena_used == old(self).arena_used,
                self.leaves == old(self).leaves,
                self.leaf_count == old(self).leaf_count,
                self.routes == old(self).routes,
                self.route_count == old(self).route_count,
                self.tools_json_len == old(self).tools_json_len,
                old(self).wf(),
                v == old(self).view(),
                w.wf(self.tools_json@),
                self.tools_json@.len() == B,
                w.ideal() == render(v.routes.take(i as int)),
            decreases rc - i,
        {
            let ghost pre = v.routes.take(i as int);
            assert(v.routes.take(i + 1).drop_last() =~= pre);
            assert(v.routes.take(i + 1).last() == v.routes[i as int]);
            if self.routes[i].name_len != 0 {
                assert(old(self).route_ok(i as int));
                assert(old(self).route_view(i as int) == self.route_view(i as int));
                let ri = self.routes[i];
                let name = name_span(&self.arena, ri);
                let desc = desc_span(&self.arena, ri);
                if w.pos() != 0 || w.truncated() {
                    w.s(&mut self.tools_json, SEP);
                }
                proof {
                    let rv = v.routes[i as int].unwrap();
                    lemma_tool_entry_len(rv.name, rv.desc);
                }
                write_tool_raw(&mut w, &mut self.tools_json, name, desc);
            }
            i = i + 1;
        }
        assert(v.routes.take(rc as int) =~= v.routes);
        self.tools_json_len = w.pos() as u16;
        proof {
            let fin = *self;
            assert(fin.view().routes =~= v.routes) by {
                old(self).lemma_view_same_routes(&fin);
            }
            assert(fin.view().leaves =~= v.leaves) by {
                old(self).lemma_view_same_leaves(&fin);
            }
            assert(forall|i: int| 0 <= i < T ==> #[trigger] fin.route_ok(i)) by {
                assert forall|i: int| 0 <= i < T implies #[trigger] fin.route_ok(i) by {
                    assert(old(self).route_ok(i));
                }
            }
            assert(forall|i: int| 0 <= i < L ==> #[trigger] fin.leaf_ok(i)) by {
                assert forall|i: int| 0 <= i < L implies #[trigger] fin.leaf_ok(i) by {
                    assert(old(self).leaf_ok(i));
                }
            }
        }
        Ok(())
    }

    /// Since `orig`, only leaf slot `slot` and free route slots (now routes
    /// of `slot`) changed, and the arena only grew.
    pub closed spec fn commit_frame(&self, orig: &Self, slot: int) -> bool {
        &&& forall|j: int| 0 <= j < L && j != slot ==> #[trigger] self.leaves@[j] == orig.leaves@[j]
        &&& (self.leaf_count == orig.leaf_count || (slot == orig.leaf_count && self.leaf_count
            == orig.leaf_count + 1))
        &&& self.arena_used >= orig.arena_used
        &&& self.arena@.subrange(0, orig.arena_used as int) == orig.arena@.subrange(
            0,
            orig.arena_used as int,
        )
        &&& self.route_count >= orig.route_count
        &&& forall|i: int|
            0 <= i < T ==> (#[trigger] self.routes@[i] == orig.routes@[i] || (
            orig.routes@[i].name_len == 0 && self.routes@[i].leaf == slot))
    }

    proof fn lemma_frame_step(&self, orig: &Self, next: &Self, slot: int)
        requires
            0 <= slot < 256,
            self.commit_frame(orig, slot),
            next.kept_for(self, slot as u8),
            orig.arena_used as int <= A,
            self.arena_used as int <= A,
        ensures
            next.commit_frame(orig, slot),
            next.tools_json == self.tools_json,
            next.tools_json_len == self.tools_json_len,
    {
        assert(next.arena@.len() == A && self.arena@.len() == A && orig.arena@.len() == A);
        lemma_prefix_sub(next.arena@, self.arena@, self.arena_used as int, 0, orig.arena_used as int);
        assert(orig.arena@.subrange(0, orig.arena_used as int) =~= self.arena@.subrange(0, orig.arena_used as int)) by {
            lemma_prefix_sub(self.arena@, orig.arena@, orig.arena_used as int, 0, orig.arena_used as int);
        }
        assert forall|i: int| 0 <= i < T implies (#[trigger] next.routes@[i] == orig.routes@[i] || (
            orig.routes@[i].name_len == 0 && next.routes@[i].leaf == slot)) by {
            assert(self.routes@[i] == orig.routes@[i] || (orig.routes@[i].name_len == 0
                && self.routes@[i].leaf == slot));
            assert(next.routes@[i] == self.routes@[i] || (self.routes@[i].name_len == 0
                && next.routes@[i].leaf == slot as u8));
        }
    }

    /// Store the leaf in `leaf_slot`, register its tools, rebuild the JSON.
    fn commit_body(&mut self, addr: &str, tools_arr: &[u8], leaf_slot: usize) -> (r: Result<
        (),
        &'static str,
    >)
        requires
            old(self).wf(),
            addr.spec_bytes().len() <= 255,
            commit_slot(old(self).view(), L as nat) == Some(leaf_slot as int),
        ensures
            final(self).wf(),
            final(self).commit_frame(old(self), leaf_slot as int),
            r is Err ==> final(self).tools_json == old(self).tools_json,
            match commit_view(
                old(self).view(),
                addr.spec_bytes(),
                tools_arr@,
                L as nat,
                T as nat,
                B as nat,
                A as nat,
            ) {
                Ok(v3) => r is Ok && final(self).view() == v3,
                Err(m) => r == Err::<(), &'static str>(m),
            },
    {
        let ghost orig = *self;
        let ghost v = self.view();
        proof {
            lemma_first_free_leaf(v.leaves, 0);
        }
        let addr_b = addr.as_bytes();
        let addr_off = match self.arena_push(addr_b) {
            Ok(o) => o,
            Err(e) => {
                proof {
                    lemma_prefix_sub(self.arena@, orig.arena@, orig.arena_used as int, 0, orig.arena_used as int);
                }
                return Err(e);
            },
        };
        let ghost mid = *self;
        proof {
            orig.lemma_arena_grow(&mid);
        }
        self.leaves[leaf_slot] = LeafIdx { off: addr_off, len: addr_b.len() as u8 };
        if leaf_slot == self.leaf_count as usize {
            self.leaf_count = self.leaf_count + 1;
        }
        let ghost v1 = InnerView {
            leaves: if leaf_slot < v.leaves.len() {
                v.leaves.update(leaf_slot as int, addr.spec_bytes())
            } else {
                v.leaves.push(addr.spec_bytes())
            },
            routes: v.routes,
            used: v.used + addr.spec_bytes().len(),
            json: v.json,
        };
        proof {
            let cur = *self;
            assert(mid.view() == with_used(v, mid.arena_used as nat));
            assert(cur.leaf_view(leaf_slot as int) == addr.spec_bytes()) by {
                if addr.spec_bytes().len() == 0 {
                    assert(addr.spec_bytes() =~= Seq::<u8>::empty());
                }
            }
            mid.lemma_view_leaves_except(&cur, leaf_slot as int);
            mid.lemma_view_same_routes(&cur);
            if leaf_slot < v.leaves.len() {
                assert(mid.leaf_ok(leaf_slot as int));
                assert(cur.view().leaves =~= v1.leaves);
                lemma_leaf_total_update(v.leaves, leaf_slot as int, addr.spec_bytes());
            } else {
                assert(cur.view().leaves =~= v1.leaves);
                assert(v1.leaves.drop_last() =~= v.leaves);
            }
            assert(cur.view().routes == v.routes);
            assert(cur.view() == v1);
            assert forall|i: int| 0 <= i < T implies #[trigger] cur.route_ok(i) by {
                assert(mid.route_ok(i));
            }
            assert forall|i: int| 0 <= i < L implies #[trigger] cur.leaf_ok(i) by {
                assert(mid.leaf_ok(i));
            }
            lemma_prefix_sub(cur.arena@, orig.arena@, orig.arena_used as int, 0, orig.arena_used as int);
            assert(cur.commit_frame(&orig, leaf_slot as int));
        }
        proof {
            lemma_skip_ws(tools_arr@, 0);
        }
        let mut p = sp(tools_arr, 0);
        if p >= tools_arr.len() || tools_arr[p] != 91u8 {
            return Err("leaf returned non-array tools list");
        }
        p = p + 1;
        let ghost p0 = p;
        let leaf_idx = leaf_slot as u8;
        loop
            invariant
                self.wf(),
                self.commit_frame(&orig, leaf_slot as int),
                self.tools_json == orig.tools_json,
                self.tools_json_len == orig.tools_json_len,
                orig.wf(),
                orig == *old(self),
                v == old(self).view(),
                leaf_slot < 256,
                leaf_idx == leaf_slot as u8,
                p <= tools_arr@.len(),
                commit_view(
                    v,
                    addr.spec_bytes(),
                    tools_arr@,
                    L as nat,
                    T as nat,
                    B as nat,
                    A as nat,
                ) == (match process_entries(
                    self.view(),
                    tools_arr@,
                    p as int,
                    leaf_idx,
                    T as nat,
                    A as nat,
                ) {
                    Err(m) => Err(m),
                    Ok(v2) => match rebuild_view(v2, B as nat).1 {
                        Ok(_) => Ok(rebuild_view(v2, B as nat).0),
                        Err(m) => Err(m),
                    },
                }),
            decreases tools_arr.len() - p,
        {
            proof {
                lemma_entry_at(tools_arr@, p as int);
            }
            match next_entry(tools_arr, p) {
                Entry::End => {
                    let ghost before = *self;
                    let r = self.rebuild_tools_json();
                    proof {
                        assert(self.commit_frame(&orig, leaf_slot as int));
                    }
                    return r;
                },
                Entry::Skip(n) => {
                    p = n;
                },
                Entry::Fail(m) => {
                    return Err(m);
                },
                Entry::Tool(name, desc, n) => {
                    let ghost before = *self;
                    let r = self.add_route(name, desc, leaf_idx);
                    proof {
                        before.lemma_frame_step(&orig, &*self, leaf_slot as int);
                    }
                    if r.is_err() {
                        return r;
                    }
                    p = n;
                },
            }
        }
    }

    /// Restoring the counters and clearing what a failed add wrote gives back
    /// the old table, minus routes that named the slot.
    proof fn lemma_rollback(orig: &Self, mid: &Self, fin: &Self, slot: int)
        requires
            orig.wf(),
            0 <= slot < L,
            slot < 256,
            slot <= orig.leaf_count,
            orig.leaves@[slot].len == 0,
            mid.commit_frame(orig, slot),
            mid.tools_json == orig.tools_json,
            fin.arena == mid.arena,
            fin.arena_used == orig.arena_used,
            fin.leaf_count == orig.leaf_count,
            fin.route_count == orig.route_count,
            fin.tools_json == orig.tools_json,
            fin.tools_json_len == orig.tools_json_len,
            fin.leaves@[slot].len == 0,
            forall|j: int| 0 <= j < L && j != slot ==> #[trigger] fin.leaves@[j] == mid.leaves@[j],
            forall|i: int|
                0 <= i < T ==> (!(mid.routes@[i].name_len != 0 && mid.routes@[i].leaf == slot as u8)
                    ==> #[trigger] fin.routes@[i] == mid.routes@[i]),
            forall|i: int|
                0 <= i < T ==> (mid.routes@[i].name_len != 0 && mid.routes@[i].leaf == slot as u8
                    ==> #[trigger] fin.routes@[i].name_len == 0),
        ensures
            fin.wf(),
            fin.view() == (InnerView {
                leaves: orig.view().leaves,
                routes: clear_leaf_routes(orig.view().routes, slot as u8),
                used: orig.view().used,
                json: orig.view().json,
            }),
    {
        let v = orig.view();
        assert(fin.arena@.len() == A && orig.arena@.len() == A);
        assert forall|j: int| 0 <= j < orig.leaf_count implies #[trigger] fin.leaf_view(j)
            == orig.leaf_view(j) by {
            assert(orig.leaf_ok(j));
            if j != slot {
                let l = orig.leaves@[j];
                if l.len > 0 {
                    lemma_prefix_sub(fin.arena@, orig.arena@, orig.arena_used as int, l.off as int, l.off + l.len);
                }
            }
        }
        assert(fin.view().leaves =~= v.leaves);
        assert forall|i: int| 0 <= i < orig.route_count implies #[trigger] fin.route_view(i)
            == clear_leaf_routes(v.routes, slot as u8)[i] by {
            assert(orig.route_ok(i));
            let r = orig.routes@[i];
            if fin.routes@[i] == orig.routes@[i] && r.name_len != 0 {
                lemma_prefix_sub(fin.arena@, orig.arena@, orig.arena_used as int, r.name_off as int, r.name_off + r.name_len);
                if r.desc_len > 0 {
                    lemma_prefix_sub(fin.arena@, orig.arena@, orig.arena_used as int, r.desc_off as int, r.desc_off + r.desc_len);
                }
            }
        }
        assert(fin.view().routes =~= clear_leaf_routes(v.routes, slot as u8));
        assert forall|j: int| 0 <= j < L implies #[trigger] fin.leaf_ok(j) by {
            assert(orig.leaf_ok(j));
        }
        assert forall|i: int| 0 <= i < T implies #[trigger] fin.route_ok(i) by {
            assert(orig.route_ok(i));
        }
        lemma_route_total_clear(v.routes, slot as u8);
    }

    /// Connect-free half of adding a leaf: store its address, register the
    /// tools its `tools/list` reply listed, and rebuild the cached JSON. On
    /// any failure the table is rolled back, so no slot and no route of the
    /// failed leaf remain.
    pub fn commit_leaf(&mut self, addr: &str, tools_arr: &[u8]) -> (r: Result<(), &'static str>)
        requires
            old(self).wf(),
            addr.spec_bytes().len() <= 255,
        ensures
            final(self).wf(),
            match commit_view(
                old(self).view(),
                addr.spec_bytes(),
                tools_arr@,
                L as nat,
                T as nat,
                B as nat,
                A as nat,
            ) {
                Ok(v3) => r is Ok && final(self).view() == v3,
                Err(m) => r == Err::<(), &'static str>(m) && final(self).view() == commit_rollback(
                    old(self).view(),
                    L as nat,
                ),
            },
    {
        let ghost v = self.view();
        let ghost orig = *self;
        let snap_used = self.arena_used;
        let snap_lc = self.leaf_count;
        let snap_rc = self.route_count;
        let snap_jl = self.tools_json_len;
        let lc = self.leaf_count as usize;
        let mut s: usize = 0;
        while s < lc && self.leaves[s].len != 0
            invariant
                self.wf(),
                lc == self.leaf_count,
                s <= lc,
                v == self.view(),
                first_free_leaf(v.leaves, 0) == first_free_leaf(v.leaves, s as int),
            decreases lc - s,
        {
            assert(v.leaves[s as int] == self.leaf_view(s as int));
            assert(self.leaf_ok(s as int));
            assert(self.arena@.len() == A);
            assert(v.leaves[s as int].len() != 0);
            s = s + 1;
        }
        let leaf_slot: usize;
        if s < lc {
            assert(v.leaves[s as int] == self.leaf_view(s as int));
            leaf_slot = s;
        } else {
            if lc >= L {
                return Err("leaf limit reached");
            }
            leaf_slot = lc;
        }
        assert(self.leaf_ok(leaf_slot as int));
        let leaf_idx = leaf_slot as u8;
        let result = self.commit_body(addr, tools_arr, leaf_slot);
        if result.is_err() {
            let ghost mid = *self;
            self.leaves[leaf_slot] = LeafIdx::empty();
            let mut i: usize = 0;
            while i < T
                invariant
                    i <= T,
                    self.leaves@[leaf_slot as int].len == 0,
                    forall|j: int| 0 <= j < L && j != leaf_slot ==> #[trigger] self.leaves@[j] == mid.leaves@[j],
                    self.arena == mid.arena,
                    self.tools_json == mid.tools_json,
                    self.arena_used == mid.arena_used,
                    self.leaf_count == mid.leaf_count,
                    self.route_count == mid.route_count,
                    self.tools_json_len == mid.tools_json_len,
                    forall|k: int| i <= k < T ==> #[trigger] self.routes@[k] == mid.routes@[k],
                    forall|k: int|
                        0 <= k < i ==> (!(mid.routes@[k].name_len != 0 && mid.routes@[k].leaf == leaf_idx)
                            ==> #[trigger] self.routes@[k] == mid.routes@[k]),
                    forall|k: int|
                        0 <= k < i ==> (mid.routes@[k].name_len != 0 && mid.routes@[k].leaf == leaf_idx
                            ==> #[trigger] self.routes@[k].name_len == 0),
                decreases T - i,
            {
                if self.routes[i].name_len != 0 && self.routes[i].leaf == leaf_idx {
                    self.routes[i] = RouteIdx::empty();
                }
                i = i + 1;
            }
            self.arena_used = snap_used;
            self.leaf_count = snap_lc;
            self.route_count = snap_rc;
            self.tools_json_len = snap_jl;
            proof {
                Self::lemma_rollback(&orig, &mid, &*self, leaf_slot as int);
            }
        }
        result
    }

    /// Leaf slot `k` sits packed in `arena` within the first `bound` bytes and
    /// holds the same address as leaf `k` of `v`.
    closed spec fn leaf_packed(&self, arena: Seq<u8>, k: int, v: InnerView, bound: int) -> bool {
        let l = self.leaves@[k];
        l.len > 0 ==> l.off + l.len <= bound && arena.subrange(l.off as int, l.off + l.len)
            == v.leaves[k]
    }

    /// Route slot `k` sits packed in `arena` within the first `bound` bytes
    /// and holds the same name and description as route `k` of `v`.
    closed spec fn route_packed(&self, arena: Seq<u8>, k: int, v: InnerView, bound: int) -> bool {
        let r = self.routes@[k];
        r.name_len > 0 ==> (v.routes[k] matches Some(rv) && r.name_off + r.name_len <= bound
            && arena.subrange(r.name_off as int, r.name_off + r.name_len) == rv.name && (r.desc_len
            > 0 ==> r.desc_off + r.desc_len <= bound && arena.subrange(
            r.desc_off as int,
            r.desc_off + r.desc_len,
        ) == rv.desc))
    }

    /// Repack every live address, name and description back to back from
    /// offset 0, so the arena holds exactly the live bytes.
    fn compact_arena(&mut self)
        requires
            old(self).wf(),
        ensures
            final(self).wf(),
            final(self).view() == with_used(old(self).view(), live_total(old(self).view())),
            final(self).tools_json == old(self).tools_json,
            final(self).tools_json_len == old(self).tools_json_len,
    {
        let ghost orig = *self;
        let ghost v = self.view();
        let mut new_arena: [u8; A] = [0u8; A];
        let mut new_used: usize = 0;
        let lc = self.leaf_count as usize;
        let mut j: usize = 0;
        while j < lc
            invariant
                orig.wf(),
                v == orig.view(),
                self.arena == orig.arena,
                self.arena_used == orig.arena_used,
                self.routes == orig.routes,
                self.route_count == orig.route_count,
                self.leaf_count == orig.leaf_count,
                self.tools_json == orig.tools_json,
                self.tools_json_len == orig.tools_json_len,
                lc == orig.leaf_count,
                j <= lc,
                new_arena@.len() == A,
                new_used == leaf_total(v.leaves.take(j as int)),
                forall|k: int|
                    0 <= k < j ==> (#[trigger] self.leaves@[k]).len == orig.leaves@[k].len
                        && self.leaf_packed(new_arena@, k, v, new_used as int),
                forall|k: int| j <= k < L ==> #[trigger] self.leaves@[k] == orig.leaves@[k],
            decreases lc - j,
        {
            let l = self.leaves[j];
            proof {
                lemma_leaf_total_take(v.leaves, j as int);
                assert(orig.leaf_ok(j as int));
                assert(orig.arena@.len() == A);
                assert(v.leaves[j as int] == orig.leaf_view(j as int));
                assert(leaf_total(v.leaves) <= live_total(v));
            }
            if l.len != 0 {
                let ghost before = new_arena@;
                let ghost bs = *self;
                copy_span(&mut new_arena, new_used, &self.arena, l.off as usize, l.len as usize);
                self.leaves[j] = LeafIdx { off: new_used as u16, len: l.len };
                proof {
                    assert forall|k: int| 0 <= k < j implies (#[trigger] self.leaves@[k]).len
                        == orig.leaves@[k].len && self.leaf_packed(
                        new_arena@,
                        k,
                        v,
                        new_used + l.len,
                    ) by {
                        assert(bs.leaf_packed(before, k, v, new_used as int));
                        let lk = self.leaves@[k];
                        if lk.len > 0 {
                            lemma_span_kept(before, new_arena@, lk.off as int, lk.off + lk.len, new_used as int);
                        }
                    }
                }
                new_used = new_used + l.len as usize;
            } else {
                assert(v.leaves[j as int].len() == 0);
            }
            j = j + 1;
        }
        assert(v.leaves.take(lc as int) =~= v.leaves);
        let ghost leaves_end = new_used as int;
        let ghost after_leaves = *self;
        let rc = self.route_count as usize;
        let mut i: usize = 0;
        while i < rc
            invariant
                orig.wf(),
                v == orig.view(),
                self.arena == orig.arena,
                self.arena_used == orig.arena_used,
                self.leaves == after_leaves.leaves,
                self.route_count == orig.route_count,
                self.leaf_count == orig.leaf_count,
                self.tools_json == orig.tools_json,
                self.tools_json_len == orig.tools_json_len,
                rc == orig.route_count,
                lc == orig.leaf_count,
                i <= rc,
                new_arena@.len() == A,
                leaves_end == leaf_total(v.leaves),
                new_used == leaf_total(v.leaves) + route_total(v.routes.take(i as int)),
                forall|k: int|
                    0 <= k < lc ==> (#[trigger] self.leaves@[k]).len == orig.leaves@[k].len
                        && self.leaf_packed(new_arena@, k, v, leaves_end),
                forall|k: int| lc <= k < L ==> #[trigger] self.leaves@[k] == orig.leaves@[k],
                forall|k: int|
                    0 <= k < i ==> (#[trigger] self.routes@[k]).name_len == orig.routes@[k].name_len
                        && self.routes@[k].desc_len == orig.routes@[k].desc_len
                        && self.routes@[k].leaf == orig.routes@[k].leaf
                        && self.route_packed(new_arena@, k, v, new_used as int),
                forall|k: int| i <= k < T ==> #[trigger] self.routes@[k] == orig.routes@[k],
            decreases rc - i,
        {
            let r = self.routes[i];
            proof {
                lemma_route_total_take(v.routes, i as int);
                assert(orig.route_ok(i as int));
                assert(orig.arena@.len() == A);
                assert(v.routes[i as int] == orig.route_view(i as int));
                assert(route_total(v.routes) + leaf_total(v.leaves) <= orig.arena_used);
            }
            if r.name_len != 0 {
                let ghost before = new_arena@;
                let ghost bs = *self;
                let name_off = new_used;
                copy_span(&mut new_arena, name_off, &self.arena, r.name_off as usize, r.name_len as usize);
                let ghost mid_arena = new_arena@;
                new_used = new_used + r.name_len as usize;
                let mut desc_off = r.desc_off;
                if r.desc_len > 0 {
                    copy_span(&mut new_arena, new_used, &self.arena, r.desc_off as usize, r.desc_len as usize);
                    desc_off = new_used as u16;
                    new_used = new_used + r.desc_len as usize;
                }
                self.routes[i] = RouteIdx {
                    name_off: name_off as u16,
                    name_len: r.name_len,
                    desc_off,
                    desc_len: r.desc_len,
                    leaf: r.leaf,
                };
                proof {
                    if r.desc_len > 0 {
                        lemma_span_kept(mid_arena, new_arena@, name_off as int, name_off + r.name_len, name_off + r.name_len);
                    }
                    assert(self.route_packed(new_arena@, i as int, v, new_used as int));
                    assert forall|k: int| 0 <= k < i implies (#[trigger] self.routes@[k]).name_len
                        == orig.routes@[k].name_len && self.routes@[k].desc_len
                        == orig.routes@[k].desc_len && self.routes@[k].leaf
                        == orig.routes@[k].leaf && self.route_packed(
                        new_arena@,
                        k,
                        v,
                        new_used as int,
                    ) by {
                        assert(bs.route_packed(before, k, v, name_off as int));
                        let rk = self.routes@[k];
                        if rk.name_len > 0 {
                            lemma_span_kept(before, new_arena@, rk.name_off as int, rk.name_off + rk.name_len, name_off as int);
                            if rk.desc_len > 0 {
                                lemma_span_kept(before, new_arena@, rk.desc_off as int, rk.desc_off + rk.desc_len, name_off as int);
                            }
                        }
                    }
                    assert forall|k: int| 0 <= k < lc implies (#[trigger] self.leaves@[k]).len
                        == orig.leaves@[k].len && self.leaf_packed(new_arena@, k, v, leaves_end) by {
                        assert(bs.leaf_packed(before, k, v, leaves_end));
                        let lk = self.leaves@[k];
                        if lk.len > 0 {
                            lemma_span_kept(before, new_arena@, lk.off as int, lk.off + lk.len, name_off as int);
                        }
                    }
                }
            } else {
                assert(v.routes[i as int] is None);
            }
            i = i + 1;
        }
        assert(v.routes.take(rc as int) =~= v.routes);
        self.arena = new_arena;
        self.arena_used = new_used as u16;
        proof {
            let fin = *self;
            assert forall|k: int| 0 <= k < lc implies fin.leaf_view(k) == v.leaves[k] by {
                assert(fin.leaf_packed(new_arena@, k, v, leaves_end));
                assert(orig.leaf_ok(k));
                assert(v.leaves[k] == orig.leaf_view(k));
            }
            assert(fin.view().leaves =~= v.leaves);
            assert forall|k: int| 0 <= k < rc implies fin.route_view(k) == v.routes[k] by {
                assert(fin.route_packed(new_arena@, k, v, new_used as int));
                assert(orig.route_ok(k));
                assert(v.routes[k] == orig.route_view(k));
                let rk = fin.routes@[k];
                if rk.name_len > 0 && rk.desc_len == 0 {
                    assert(orig.routes@[k].desc_len == 0);
                }
            }
            assert(fin.view().routes =~= v.routes);
            assert forall|k: int| 0 <= k < L implies #[trigger] fin.leaf_ok(k) by {
                assert(orig.leaf_ok(k));
                if k < lc {
                    assert(fin.leaf_packed(new_arena@, k, v, leaves_end));
                }
            }
            assert forall|k: int| 0 <= k < T implies #[trigger] fin.route_ok(k) by {
                assert(orig.route_ok(k));
                if k < rc {
                    assert(fin.route_packed(new_arena@, k, v, new_used as int));
                }
            }
        }
    }

    /// The arena bytes of leaf slot `i`'s address.
    fn leaf_addr_of(&self, i: usize) -> (r: &[u8])
        requires
            self.wf(),
            i < self.leaf_count,
        ensures
            r@ == self.view().leaves[i as int],
    {
        assert(self.leaf_ok(i as int));
        let l = self.leaves[i];
        if l.len == 0 {
            let r = vstd::slice::slice_subrange(self.arena.as_slice(), 0, 0);
            assert(r@ =~= Seq::<u8>::empty());
            r
        } else {
            vstd::slice::slice_subrange(
                self.arena.as_slice(),
                l.off as usize,
                l.off as usize + l.len as usize,
            )
        }
    }

    /// Remove the leaf at `addr`: free its slot, drop its routes, compact the
    /// arena and rebuild the cached JSON.
    pub fn remove_leaf_inner(&mut self, addr: &str) -> (r: Result<(), &'static str>)
        requires
            old(self).wf(),
        ensures
            final(self).wf(),
            final(self).view() == remove_view(old(self).view(), addr.spec_bytes(), B as nat).0,
            r == remove_view(old(self).view(), addr.spec_bytes(), B as nat).1,
    {
        let ghost v = self.view();
        let target = addr.as_bytes();
        let lc = self.leaf_count as usize;
        let mut s: usize = 0;
        loop
            invariant
                self.wf(),
                v == self.view(),
                lc == self.leaf_count,
                s <= lc,
                *self == *old(self),
                v == old(self).view(),
                target@ == addr.spec_bytes(),
                find_leaf(v.leaves, target@, 0) == find_leaf(v.leaves, target@, s as int),
            ensures
                s < lc,
                self.leaves@[s as int].len != 0,
                v.leaves[s as int] == target@,
                *self == *old(self),
                find_leaf(v.leaves, target@, 0) == find_leaf(v.leaves, target@, s as int),
            decreases lc - s,
        {
            if s >= lc {
                return Err("no such leaf");
            }
            if self.leaves[s].len != 0 {
                let a = self.leaf_addr_of(s);
                if bytes_eq(a, target) {
                    break;
                }
            } else {
                assert(v.leaves[s as int] =~= Seq::<u8>::empty()) by {
                    assert(v.leaves[s as int] == self.leaf_view(s as int));
                }
            }
            s = s + 1;
        }
        let slot = s;
        proof {
            assert(self.leaf_ok(slot as int));
            assert(self.arena@.len() == A);
            assert(v.leaves[slot as int] == self.leaf_view(slot as int));
            assert(find_leaf(v.leaves, target@, 0) == Some(slot as int));
        }
        let leaf_id = slot as u8;
        let ghost orig = *self;
        self.leaves[slot] = LeafIdx::empty();
        let rc = self.route_count as usize;
        let mut i: usize = 0;
        while i < rc
            invariant
                orig.wf(),
                rc == orig.route_count,
                i <= rc,
                self.leaves@ == orig.leaves@.update(slot as int, self.leaves@[slot as int]),
                self.leaves@[slot as int].len == 0,
                slot < orig.leaf_count,
                leaf_id == slot as u8,
                self.arena == orig.arena,
                self.arena_used == orig.arena_used,
                self.leaf_count == orig.leaf_count,
                self.route_count == orig.route_count,
                self.tools_json == orig.tools_json,
                self.tools_json_len == orig.tools_json_len,
                forall|k: int| i <= k < T ==> #[trigger] self.routes@[k] == orig.routes@[k],
                forall|k: int|
                    0 <= k < i ==> (!(orig.routes@[k].name_len != 0 && orig.routes@[k].leaf == leaf_id)
                        ==> #[trigger] self.routes@[k] == orig.routes@[k]),
                forall|k: int|
                    0 <= k < i ==> (orig.routes@[k].name_len != 0 && orig.routes@[k].leaf == leaf_id
                        ==> #[trigger] self.routes@[k].name_len == 0),
            decreases rc - i,
        {
            if self.routes[i].name_len != 0 && self.routes[i].leaf == leaf_id {
                self.routes[i] = RouteIdx::empty();
            }
            i = i + 1;
        }
        let ghost v1 = InnerView {
            leaves: v.leaves.update(slot as int, Seq::empty()),
            routes: clear_leaf_routes(v.routes, slot as u8),
            used: v.used,
            json: v.json,
        };
        proof {
            let cur = *self;
            assert(orig.arena@.len() == A);
            orig.lemma_view_leaves_except(&cur, slot as int);
            assert(cur.view().leaves =~= v1.leaves);
            assert forall|k: int| 0 <= k < rc implies #[trigger] cur.route_view(k) == v1.routes[k] by {
                assert(orig.route_ok(k));
                assert(v.routes[k] == orig.route_view(k));
            }
            assert(cur.view().routes =~= v1.routes);
            lemma_leaf_total_update(v.leaves, slot as int, Seq::empty());
            lemma_route_total_clear(v.routes, slot as u8);
            assert forall|k: int| 0 <= k < L implies #[trigger] cur.leaf_ok(k) by {
                assert(orig.leaf_ok(k));
            }
            assert forall|k: int| 0 <= k < T implies #[trigger] cur.route_ok(k) by {
                assert(orig.route_ok(k));
            }
        }
        self.compact_arena();
        self.rebuild_tools_json()
    }

    /// The address of the leaf serving tool `name`.
    pub fn route_for(&self, name: &[u8]) -> (r: Option<&[u8]>)
        requires
            self.wf(),
        ensures
            match r {
                Some(a) => route_addr(self.view(), name@) == Some(a@),
                None => route_addr(self.view(), name@) is None,
            },
    {
        let ghost v = self.view();
        let rc = self.route_count as usize;
        let mut i: usize = 0;
        while i < rc
            invariant
                self.wf(),
                v == self.view(),
                rc == self.route_count,
                i <= rc,
                find_route(v.routes, name@, 0) == find_route(v.routes, name@, i as int),
            decreases rc - i,
        {
            assert(v.routes[i as int] == self.route_view(i as int));
            if self.routes[i].name_len != 0 {
                let n = self.route_name_of(i);
                if bytes_eq(n, name) {
                    let leaf = self.routes[i].leaf as usize;
                    if leaf < self.leaf_count as usize {
                        let a = self.leaf_addr_of(leaf);
                        return Some(a);
                    }
                    return None;
                }
            }
            i = i + 1;
        }
        None
    }

    /// Bytes of arena in use.
    pub fn arena_used(&self) -> (r: u16)
        ensures
            r as nat == self.view().used,
    {
        self.arena_used
    }

    /// Leaf slots up to the high-water mark.
    pub fn leaf_count(&self) -> (r: u8)
        ensures
            r as nat == self.view().leaves.len(),
    {
        self.leaf_count
    }

    /// Route slots up to the high-water mark.
    pub fn route_count(&self) -> (r: u8)
        ensures
            r as nat == self.view().routes.len(),
    {
        self.route_count
    }

    /// Length of leaf slot `i`'s address; 0 for a free slot.
    pub fn leaf_len(&self, i: usize) -> (r: usize)
        requires
            self.wf(),
            i < self.view().leaves.len(),
        ensures
            r == self.view().leaves[i as int].len(),
    {
        let a = self.leaf_addr_of(i);
        a.len()
    }

    /// The name of route slot `i`, or `None` for a free slot.
    pub fn route_name(&self, i: usize) -> (r: Option<&[u8]>)
        requires
            self.wf(),
            i < self.view().routes.len(),
        ensures
            match r {
                Some(n) => (self.view().routes[i as int] matches Some(rv) && rv.name == n@),
                None => self.view().routes[i as int] is None,
            },
    {
        if self.routes[i].name_len == 0 {
            None
        } else {
            Some(self.route_name_of(i))
        }
    }

    /// The cached, comma-separated tool entries.
    pub fn tools_json(&self) -> (r: &[u8])
        requires
            self.wf(),
        ensures
            r@ == self.view().json,
    {
        vstd::slice::slice_subrange(self.tools_json.as_slice(), 0, self.tools_json_len as usize)
    }

    /// Length of the cached tool entries.
    pub fn tools_json_len(&self) -> (r: u16)
        requires
            self.wf(),
        ensures
            r as nat == self.view().json.len(),
    {
        self.tools_json_len
    }

    /// Register one tool for `leaf`. Does not rebuild the cached JSON.
    pub fn add_route(&mut self, name: &[u8], desc: &[u8], leaf: u8) -> (r: Result<
        (),
        &'static str,
    >)
        requires
            old(self).wf(),
        ensures
            final(self).wf(),
            final(self).view() == add_route_view(
                old(self).view(),
                name@,
                desc@,
                leaf,
                T as nat,
                A as nat,
            ).0,
            r == add_route_view(old(self).view(), name@, desc@, leaf, T as nat, A as nat).1,
            final(self).kept_for(old(self), leaf),
    {
        let ghost v = self.view();
        if name.len() == 0 {
            return Err("tool name is empty");
        }
        if name.len() > NAME_MAX {
            return Err("tool name exceeds NAME_MAX bytes");
        }
        if !is_utf8(name) {
            return Err("tool name is not valid UTF-8");
        }
        if !is_utf8(desc) {
            return Err("tool description is not valid UTF-8");
        }
        if desc.len() > 255 {
            return Err("tool description exceeds 255 bytes");
        }
        // Duplicate check over the live routes.
        let rc = self.route_count as usize;
        let mut i: usize = 0;
        while i < rc
            invariant
                self.wf(),
                rc == self.route_count,
                i <= rc,
                v == self.view(),
                v == old(self).view(),
                0 < name@.len() <= NAME_MAX,
                valid_utf8(name@),
                valid_utf8(desc@),
                desc@.len() <= 255,
                forall|j: int|
                    0 <= j < i ==> !(#[trigger] v.routes[j] matches Some(r) && r.name == name@),
            decreases rc - i,
        {
            if self.routes[i].name_len != 0 {
                let n = self.route_name_of(i);
                if bytes_eq(n, name) {
                    assert(v.routes[i as int] matches Some(r) && r.name == name@);
                    assert(has_route_named(v.routes, name@));
                    return Err("duplicate tool name across leaves");
                }
            }
            i = i + 1;
        }
        assert(!has_route_named(v.routes, name@));
        // A free slot below the high-water mark, or a new one.
        let mut s: usize = 0;
        while s < rc && self.routes[s].name_len != 0
            invariant
                self.wf(),
                rc == self.route_count,
                s <= rc,
                v == self.view(),
                first_free_route(v.routes, 0) == first_free_route(v.routes, s as int),
            decreases rc - s,
        {
            s = s + 1;
        }
        let slot: usize;
        if s < rc {
            slot = s;
        } else {
            if rc >= T {
                return Err("tool limit (T) reached");
            }
            slot = rc;
            let ghost before = *self;
            self.route_count = self.route_count + 1;
            proof {
                assert(before.route_ok(rc as int));
                before.lemma_view_same_routes(&*self);
            }
            assert(self.view().routes =~= v.routes.push(None)) by {
                assert(self.route_view(rc as int) is None);
            }
            assert(self.view().leaves =~= v.leaves);
            assert(forall|i: int| 0 <= i < T ==> #[trigger] self.route_ok(i)) by {
                assert forall|i: int| 0 <= i < T implies #[trigger] self.route_ok(i) by {
                    assert(before.route_ok(i));
                }
            }
            assert(forall|i: int| 0 <= i < L ==> #[trigger] self.leaf_ok(i)) by {
                assert forall|i: int| 0 <= i < L implies #[trigger] self.leaf_ok(i) by {
                    assert(before.leaf_ok(i));
                }
            }
            assert(route_total(self.view().routes) == route_total(v.routes)) by {
                assert(self.view().routes.drop_last() =~= v.routes);
            }
        }
        let ghost v1 = self.view();
        let ghost mid = *self;
        assert(v1 == with_routes(v, match first_free_route(v.routes, 0) {
            Some(_) => v.routes,
            None => v.routes.push(None),
        }));
        let name_off = match self.arena_push(name) {
            Ok(o) => o,
            Err(e) => {
                return Err(e);
            },
        };
        let ghost mid2 = *self;
        proof {
            mid.lemma_arena_grow(&mid2);
        }
        let desc_off = match self.arena_push(desc) {
            Ok(o) => o,
            Err(e) => {
                    proof {
                    mid.lemma_arena_grow(&mid2);
                }
                assert(self.view() == with_used(v1, v.used + name@.len()));
                return Err(e);
            },
        };
        let ghost mid3 = *self;
        proof {
            mid2.lemma_arena_grow(&mid3);
        }
        self.routes[slot] = RouteIdx {
            name_off,
            name_len: name.len() as u8,
            desc_off,
            desc_len: desc.len() as u8,
            leaf,
        };
        proof {
            let fin = *self;
            lemma_prefix_sub(fin.arena@, mid2.arena@, mid2.arena_used as int, name_off as int, name_off + name@.len());
            assert(fin.route_view(slot as int) == Some(
                RouteView { name: name@, desc: desc@, leaf },
            )) by {
                if desc@.len() == 0 {
                    assert(desc@ =~= Seq::<u8>::empty());
                }
            }
            assert(forall|i: int| 0 <= i < T ==> #[trigger] fin.route_ok(i)) by {
                assert forall|i: int| 0 <= i < T implies #[trigger] fin.route_ok(i) by {
                    assert(mid3.route_ok(i));
                }
            }
            assert(forall|i: int| 0 <= i < L ==> #[trigger] fin.leaf_ok(i)) by {
                assert forall|i: int| 0 <= i < L implies #[trigger] fin.leaf_ok(i) by {
                    assert(mid3.leaf_ok(i));
                }
            }
            assert(forall|i: int| 0 <= i < fin.route_count && i != slot ==> fin.route_view(i)
                == mid3.route_view(i));
            assert(fin.view().routes =~= v1.routes.update(
                slot as int,
                Some(RouteView { name: name@, desc: desc@, leaf }),
            ));
            lemma_route_total_update(
                v1.routes,
                slot as int,
                Some(RouteView { name: name@, desc: desc@, leaf }),
            );
            assert(fin.view().leaves == v.leaves);
            assert(old(self).route_ok(slot as int));
            assert(old(self).routes@[slot as int].name_len == 0);
            lemma_prefix_sub(mid3.arena@, mid2.arena@, mid2.arena_used as int, 0, mid.arena_used as int);
            assert(mid.arena@.subrange(0, mid.arena_used as int) =~= mid.arena@.subrange(0, mid.arena_used as int).subrange(0, mid.arena_used as int));
            assert(fin.arena@.subrange(0, old(self).arena_used as int) == old(self).arena@.subrange(0, old(self).arena_used as int));
            assert(forall|i: int| 0 <= i < T ==> (#[trigger] fin.routes@[i] == old(self).routes@[i] || (
            old(self).routes@[i].name_len == 0 && fin.routes@[i].leaf == leaf)));
        }
        Ok(())
    }
}

/// Two byte sequences that agree on a prefix agree on every span inside it.
pub proof fn lemma_prefix_sub(a: Seq<u8>, b: Seq<u8>, used: int, s: int, e: int)
    requires
        0 <= s <= e <= used,
        used <= a.len(),
        used <= b.len(),
        a.subrange(0, used) == b.subrange(0, used),
    ensures
        a.subrange(s, e) == b.subrange(s, e),
{
    assert forall|k: int| s <= k < e implies a[k] == b[k] by {
        assert(a.subrange(0, used)[k] == a[k]);
        assert(b.subrange(0, used)[k] == b[k]);
    }
    assert(a.subrange(s, e) =~= b.subrange(s, e));
}

pub proof fn lemma_first_free_leaf(ls: Seq<Seq<u8>>, i: int)
    ensures
        first_free_leaf(ls, i) matches Some(s) ==> i <= s < ls.len() && ls[s].len() == 0,
    decreases ls.len() - i,
{
    if 0 <= i < ls.len() && ls[i].len() != 0 {
        lemma_first_free_leaf(ls, i + 1);
    }
}

/// Replacing one leaf slot changes the total by the length difference.
pub proof fn lemma_leaf_total_update(ls: Seq<Seq<u8>>, i: int, x: Seq<u8>)
    requires
        0 <= i < ls.len(),
    ensures
        leaf_total(ls.update(i, x)) + ls[i].len() == leaf_total(ls) + x.len(),
    decreases ls.len(),
{
    if i == ls.len() - 1 {
        assert(ls.update(i, x).drop_last() =~= ls.drop_last());
    } else {
        lemma_leaf_total_update(ls.drop_last(), i, x);
        assert(ls.update(i, x).drop_last() =~= ls.drop_last().update(i, x));
    }
}

/// Replacing one route slot changes the total by the size difference.
pub proof fn lemma_route_total_update(rs: Seq<Option<RouteView>>, i: int, r: Option<RouteView>)
    requires
        0 <= i < rs.len(),
    ensures
        route_total(rs.update(i, r)) + route_size(rs[i]) == route_total(rs) + route_size(r),
    decreases rs.len(),
{
    if i == rs.len() - 1 {
        assert(rs.update(i, r).drop_last() =~= rs.drop_last());
    } else {
        lemma_route_total_update(rs.drop_last(), i, r);
        assert(rs.update(i, r).drop_last() =~= rs.drop_last().update(i, r));
    }
}

} // verus!
