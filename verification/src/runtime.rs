//! The local runtime: providers register tools, and `handle` answers one
//! JSON-RPC message into a caller's buffer with no allocation.

use vstd::prelude::*;
use vstd::string::StringSliceAdditionalSpecFns;
use vstd::utf8::valid_utf8;
use crate::json::{bytes_eq, classify, obj_get_last, obj_last, spec_classify, spec_unquote, unquote, Msg, SpecMsg};
use crate::rpc::{
    echoes_id, initialize_text, lemma_echoes_id, lemma_err_echoes_id, INIT_TAIL, wrote_frame, nl_bytes, parse_error_text, rpc_err, rpc_err_text, tool_entry,
    tools_list_text, write_initialize, write_parse_error, write_tool, ID_OPEN, LIST_CLOSE,
    LIST_OPEN, MSG_BAD_PARAMS, MSG_METHOD_NOT_FOUND, MSG_UNKNOWN_TOOL, M_INITIALIZE,
    M_TOOLS_CALL, M_TOOLS_LIST, SEP, TEXT_CLOSE, TEXT_OPEN, TOOL_ERR_CLOSE, TOOL_ERR_OPEN,
};
use crate::text::str_from_utf8;
use crate::writer::{json_escape, Writer};

verus! {

// ---------------------------------------------------------------------------
// Output
// ---------------------------------------------------------------------------

/// A write into an [`Output`] did not fit.
#[derive(Debug, Clone, Copy, PartialEq, Eq, Structural)]
pub struct OutputFull;

/// Write target for tool results, over a caller's buffer. Every write is
/// all-or-nothing: one that does not fit fails and leaves the output as it
/// was, so a tool never ships a truncated result.
pub struct Output<'a> {
    buf: &'a mut [u8],
    len: usize,
}

impl<'a> Output<'a> {
    /// The bytes written so far.
    pub closed spec fn contents(&self) -> Seq<u8> {
        (*self.buf)@.subrange(0, self.len as int)
    }

    /// The size of the underlying buffer.
    pub closed spec fn capacity(&self) -> nat {
        (*self.buf)@.len()
    }

    pub closed spec fn wf(&self) -> bool {
        self.len <= (*self.buf)@.len()
    }

    pub fn new(buf: &'a mut [u8]) -> (o: Self)
        ensures
            o.wf(),
            o.contents() == Seq::<u8>::empty(),
            o.capacity() == old(buf)@.len(),
    {
        let o = Output { buf, len: 0 };
        assert(o.contents() =~= Seq::<u8>::empty());
        o
    }

    /// The bytes written so far.
    pub fn as_bytes(&self) -> (r: &[u8])
        requires
            self.wf(),
        ensures
            r@ == self.contents(),
    {
        vstd::slice::slice_subrange(&*self.buf, 0, self.len)
    }

    /// Append `s`, or fail and change nothing when it does not fit.
    pub fn write_str(&mut self, s: &str) -> (r: Result<(), OutputFull>)
        requires
            old(self).wf(),
        ensures
            final(self).wf(),
            final(self).capacity() == old(self).capacity(),
            r is Ok <==> old(self).contents().len() + s.spec_bytes().len() <= old(self).capacity(),
            r is Ok ==> final(self).contents() == old(self).contents() + s.spec_bytes(),
            r is Err ==> final(self).contents() == old(self).contents(),
    {
        let b = s.as_bytes();
        if b.len() > self.buf.len() - self.len {
            return Err(OutputFull);
        }
        let start = self.len;
        let mut i: usize = 0;
        while i < b.len()
            invariant
                start + b.len() <= self.buf.len(),
                (*self.buf)@.len() == old(self).capacity(),
                self.len == start,
                i <= b@.len(),
                b@ == s.spec_bytes(),
                (*self.buf)@.subrange(0, start as int) == old(self).contents(),
                forall|k: int| 0 <= k < i ==> (*self.buf)@[start + k] == b@[k],
            decreases b.len() - i,
        {
            let ghost before = (*self.buf)@;
            self.buf[start + i] = b[i];
            assert((*self.buf)@.subrange(0, start as int) =~= before.subrange(0, start as int));
            i = i + 1;
        }
        self.len = start + b.len();
        assert(self.contents() =~= old(self).contents() + b@);
        Ok(())
    }
}

// ---------------------------------------------------------------------------
// Tools and providers
// ---------------------------------------------------------------------------

/// A tool exposed to connected agents.
#[derive(Clone, Copy, Debug)]
pub struct Tool {
    pub name: &'static str,
    pub description: &'static str,
}

/// Implement this for each capability a device exposes.
///
/// `tools` lists the provider's tools. `call` receives the raw `arguments`
/// JSON bytes and writes its result into `out`; it returns `Err` for a
/// tool-level failure.
pub trait Provider {
    /// Whether `ts` is a list of tools this provider may give. A provider
    /// that says no more leaves it `true`.
    open spec fn tools_ok(&self, ts: Seq<Tool>) -> bool {
        true
    }

    /// Whether `call` of `tool` with `args` may come back with `r` and the
    /// result bytes `output`. A provider that says no more leaves it `true`.
    open spec fn call_ok(&self, tool: Seq<u8>, args: Seq<u8>, r: Result<(), &'static str>, output: Seq<u8>) -> bool {
        true
    }

    fn tools(&self) -> (r: &[Tool])
        ensures
            self.tools_ok(r@),
    ;

    fn call(&self, tool: &str, args: &[u8], out: &mut Output) -> (r: Result<(), &'static str>)
        requires
            old(out).wf(),
        ensures
            final(out).wf(),
            final(out).capacity() == old(out).capacity(),
            self.call_ok(tool.spec_bytes(), args@, r, final(out).contents()),
    ;
}

/// The tools-list entries of `ts`, comma-separated, names and descriptions
/// escaped.
pub open spec fn list_text(ts: Seq<Tool>) -> Seq<u8>
    decreases ts.len(),
{
    if ts.len() == 0 {
        Seq::empty()
    } else {
        list_text(ts.drop_last()) + (if ts.len() > 1 {
            SEP.spec_bytes()
        } else {
            Seq::empty()
        }) + tool_entry(
            json_escape(ts.last().name.spec_bytes()),
            json_escape(ts.last().description.spec_bytes()),
        )
    }
}

/// The entries of `ts` as written after `first` says whether none came
/// before: each is preceded by a comma unless it is the very first.
pub open spec fn entries_after(ts: Seq<Tool>, first: bool) -> Seq<u8>
    decreases ts.len(),
{
    if ts.len() == 0 {
        Seq::empty()
    } else {
        entries_after(ts.drop_last(), first) + (if ts.len() > 1 || !first {
            SEP.spec_bytes()
        } else {
            Seq::empty()
        }) + tool_entry(
            json_escape(ts.last().name.spec_bytes()),
            json_escape(ts.last().description.spec_bytes()),
        )
    }
}

pub proof fn lemma_list_text_append(a: Seq<Tool>, b: Seq<Tool>)
    ensures
        list_text(a + b) == list_text(a) + entries_after(b, a.len() == 0),
    decreases b.len(),
{
    if b.len() == 0 {
        assert(a + b =~= a);
        assert(list_text(a) + Seq::<u8>::empty() =~= list_text(a));
    } else {
        lemma_list_text_append(a, b.drop_last());
        assert((a + b).drop_last() =~= a + b.drop_last());
        assert((a + b).last() == b.last());
        let e = tool_entry(
            json_escape(b.last().name.spec_bytes()),
            json_escape(b.last().description.spec_bytes()),
        );
        let sep = if b.len() > 1 || a.len() != 0 { SEP.spec_bytes() } else { Seq::<u8>::empty() };
        assert(list_text(a + b) =~= list_text(a) + entries_after(b.drop_last(), a.len() == 0) + sep + e);
    }
}

/// Whether `ts` holds a tool named `name`.
pub open spec fn lists_tool(ts: Seq<Tool>, name: Seq<u8>) -> bool {
    exists|k: int| 0 <= k < ts.len() && (#[trigger] ts[k]).name.spec_bytes() == name
}

/// The first empty slot at or after `i`.
pub open spec fn first_empty<T>(slots: Seq<Option<T>>, i: int) -> Option<int>
    decreases slots.len() - i,
{
    if i < 0 || i >= slots.len() {
        None
    } else if slots[i] is None {
        Some(i)
    } else {
        first_empty(slots, i + 1)
    }
}

/// Slots `0..k` hold providers and the rest are free: the shape a runtime
/// has after `k` successful registrations.
pub open spec fn filled_prefix<T>(slots: Seq<Option<T>>, k: int) -> bool {
    &&& 0 <= k <= slots.len()
    &&& forall|i: int| 0 <= i < k ==> (#[trigger] slots[i]) is Some
    &&& forall|i: int| k <= i < slots.len() ==> (#[trigger] slots[i]) is None
}

proof fn lemma_first_empty_prefix<T>(slots: Seq<Option<T>>, k: int, i: int)
    requires
        filled_prefix(slots, k),
        0 <= i <= k,
    ensures
        first_empty(slots, i) == (if k < slots.len() { Some(k) } else { None::<int> }),
    decreases k - i,
{
    if i < k {
        lemma_first_empty_prefix(slots, k, i + 1);
    }
}

/// Providers are registered front to back: with `k` registered, the next
/// registration takes slot `k` (and keeps the table filled from the front),
/// or fails once all slots are taken.
pub proof fn law_register_fills_in_order<T>(slots: Seq<Option<T>>, k: int, p: T)
    requires
        filled_prefix(slots, k),
    ensures
        k < slots.len() ==> first_empty(slots, 0) == Some(k) && filled_prefix(
            slots.update(k, Some(p)),
            k + 1,
        ),
        k == slots.len() ==> first_empty(slots, 0) is None,
{
    lemma_first_empty_prefix(slots, k, 0);
    if k < slots.len() {
        let s2 = slots.update(k, Some(p));
        assert forall|i: int| 0 <= i < k + 1 implies (#[trigger] s2[i]) is Some by {
            if i < k {
                assert(slots[i] is Some);
            }
        }
        assert forall|i: int| k + 1 <= i < s2.len() implies (#[trigger] s2[i]) is None by {
            assert(slots[i] is None);
        }
    }
}

// ---------------------------------------------------------------------------
// Replies
// ---------------------------------------------------------------------------

/// What a provider's `call` came back with: a result text, or an error message.
pub enum CallOutcome {
    Done(Seq<u8>),
    Failed(Seq<u8>),
}

/// The `tools/call` reply for a provider's outcome.
pub open spec fn call_reply_text(id: Seq<u8>, o: CallOutcome) -> Seq<u8> {
    match o {
        CallOutcome::Done(text) => ID_OPEN.spec_bytes() + id + TEXT_OPEN.spec_bytes() + json_escape(
            text,
        ) + TEXT_CLOSE.spec_bytes() + nl_bytes(),
        CallOutcome::Failed(e) => ID_OPEN.spec_bytes() + id + TOOL_ERR_OPEN.spec_bytes()
            + json_escape(e) + TOOL_ERR_CLOSE.spec_bytes() + nl_bytes(),
    }
}

/// The result text a provider's output becomes: the output when it is valid
/// UTF-8, else empty.
pub open spec fn result_text(output: Seq<u8>) -> Seq<u8> {
    if valid_utf8(output) {
        output
    } else {
        Seq::empty()
    }
}

/// The outcome that `call` returning `r` with output `output` stands for.
pub open spec fn outcome_of(r: Result<(), &'static str>, output: Seq<u8>) -> CallOutcome {
    match r {
        Ok(_) => CallOutcome::Done(result_text(output)),
        Err(e) => CallOutcome::Failed(e.spec_bytes()),
    }
}

/// The tool name and arguments of a `tools/call` request's `params`: the
/// name must be a JSON string (escapes are not decoded) holding valid UTF-8;
/// missing arguments read as `{}`. The last member of a repeated key counts.
pub open spec fn call_params(params: Option<Seq<u8>>) -> Option<(Seq<u8>, Seq<u8>)> {
    match params {
        None => None,
        Some(p) => match obj_last(p, "name".spec_bytes()) {
            None => None,
            Some(q) => match spec_unquote(q) {
                None => None,
                Some(name) => if valid_utf8(name) {
                    Some(
                        (
                            name,
                            match obj_last(p, "arguments".spec_bytes()) {
                                Some(a) => a,
                                None => "{}".spec_bytes(),
                            },
                        ),
                    )
                } else {
                    None
                },
            },
        },
    }
}

/// The first of the lists `ls` that lists a tool named `name`.
pub open spec fn first_listing(ls: Seq<Seq<Tool>>, name: Seq<u8>) -> Option<int>
    decreases ls.len(),
{
    if ls.len() == 0 {
        None
    } else {
        match first_listing(ls.drop_last(), name) {
            Some(i) => Some(i),
            None => if lists_tool(ls.last(), name) {
                Some(ls.len() - 1)
            } else {
                None
            },
        }
    }
}

proof fn lemma_call_reply_echoes_id(id: Seq<u8>, o: CallOutcome)
    ensures
        echoes_id(call_reply_text(id, o), id),
{
    match o {
        CallOutcome::Done(text) => lemma_echoes_id(
            id,
            TEXT_OPEN.spec_bytes() + json_escape(text) + TEXT_CLOSE.spec_bytes(),
            call_reply_text(id, o),
        ),
        CallOutcome::Failed(e) => lemma_echoes_id(
            id,
            TOOL_ERR_OPEN.spec_bytes() + json_escape(e) + TOOL_ERR_CLOSE.spec_bytes(),
            call_reply_text(id, o),
        ),
    }
}

proof fn lemma_request_frame_echoes_id(id: Seq<u8>, method: Seq<u8>, params: Option<Seq<u8>>)
    ensures
        runtime_reply_to(SpecMsg::Request { id, method, params }) matches Reply::Frame(f) ==> echoes_id(f, id),
{
    if method == M_INITIALIZE.spec_bytes() {
        lemma_echoes_id(id, INIT_TAIL.spec_bytes(), initialize_text(id));
    } else if method == M_TOOLS_CALL.spec_bytes() {
        lemma_err_echoes_id(id, -32600, MSG_BAD_PARAMS.spec_bytes());
    } else {
        lemma_err_echoes_id(id, -32601, MSG_METHOD_NOT_FOUND.spec_bytes());
    }
}

/// How the runtime answers one message.
pub enum Reply {
    /// No reply at all (a notification).
    Silent,
    /// This frame.
    Frame(Seq<u8>),
    /// The `tools/list` reply with this id: every slot's tools, in slot
    /// order.
    List(Seq<u8>),
    /// The `tools/call` reply with this id for tool `name` with `args`: the
    /// outcome of the first provider listing the tool, or the unknown-tool
    /// error when none does.
    Call { id: Seq<u8>, name: Seq<u8>, args: Seq<u8> },
}

/// The runtime's answer to a classified message.
pub open spec fn runtime_reply_to(m: SpecMsg) -> Reply {
    match m {
        SpecMsg::ParseError => Reply::Frame(parse_error_text()),
        SpecMsg::Notification => Reply::Silent,
        SpecMsg::Request { id, method, params } => if method == M_INITIALIZE.spec_bytes() {
            Reply::Frame(initialize_text(id))
        } else if method == M_TOOLS_LIST.spec_bytes() {
            Reply::List(id)
        } else if method == M_TOOLS_CALL.spec_bytes() {
            match call_params(params) {
                None => Reply::Frame(rpc_err_text(id, -32600, MSG_BAD_PARAMS.spec_bytes())),
                Some(c) => Reply::Call { id, name: c.0, args: c.1 },
            }
        } else {
            Reply::Frame(rpc_err_text(id, -32601, MSG_METHOD_NOT_FOUND.spec_bytes()))
        },
    }
}

/// The runtime's answer to `msg`.
pub open spec fn runtime_reply(msg: Seq<u8>) -> Reply {
    runtime_reply_to(spec_classify(msg))
}

/// Write the `tools/call` reply for a provider's result `r` and its output.
pub fn write_call_result(w: &mut Writer, buf: &mut [u8], r: Result<(), &'static str>, output: &[u8])
    requires
        old(w).wf(old(buf)@),
    ensures
        final(w).wf(final(buf)@),
        final(buf)@.len() == old(buf)@.len(),
        final(w).ideal() == old(w).ideal() + (match outcome_of(r, output@) {
            CallOutcome::Done(text) => TEXT_OPEN.spec_bytes() + json_escape(text)
                + TEXT_CLOSE.spec_bytes(),
            CallOutcome::Failed(e) => TOOL_ERR_OPEN.spec_bytes() + json_escape(e)
                + TOOL_ERR_CLOSE.spec_bytes(),
        }),
{
    match r {
        Ok(()) => {
            let text: &str = match str_from_utf8(output) {
                Some(t) => t,
                None => "",
            };
            proof {
                reveal_strlit("");
            }
            w.s(buf, TEXT_OPEN);
            w.esc(buf, text);
            w.s(buf, TEXT_CLOSE);
            assert(final(w).ideal() =~= old(w).ideal() + (TEXT_OPEN.spec_bytes() + json_escape(
                result_text(output@),
            ) + TEXT_CLOSE.spec_bytes()));
        },
        Err(e) => {
            w.s(buf, TOOL_ERR_OPEN);
            w.esc(buf, e);
            w.s(buf, TOOL_ERR_CLOSE);
            assert(final(w).ideal() =~= old(w).ideal() + (TOOL_ERR_OPEN.spec_bytes() + json_escape(
                e.spec_bytes(),
            ) + TOOL_ERR_CLOSE.spec_bytes()));
        },
    }
}

/// The tool name and arguments of a `tools/call` request, per [`call_params`].
pub fn tools_call_params<'a>(params: Option<&'a [u8]>) -> (r: Option<(&'a str, &'a [u8])>)
    ensures
        match r {
            Some(c) => call_params(
                match params {
                    Some(p) => Some(p@),
                    None => None,
                },
            ) == Some((c.0.spec_bytes(), c.1@)),
            None => call_params(
                match params {
                    Some(p) => Some(p@),
                    None => None,
                },
            ) is None,
        },
{
    let p = match params {
        Some(p) => p,
        None => {
            return None;
        },
    };
    let name_q = match obj_get_last(p, "name".as_bytes()) {
        Some(q) => q,
        None => {
            return None;
        },
    };
    let name_b = match unquote(name_q) {
        Some(b) => b,
        None => {
            return None;
        },
    };
    let name = match str_from_utf8(name_b) {
        Some(s) => s,
        None => {
            return None;
        },
    };
    let args: &[u8] = match obj_get_last(p, "arguments".as_bytes()) {
        Some(a) => a,
        None => "{}".as_bytes(),
    };
    Some((name, args))
}

// ---------------------------------------------------------------------------
// Runtime
// ---------------------------------------------------------------------------

/// `Some(x)`, built where `x` keeps its exact type, so that a trait-object
/// reference is stored as it was given rather than through a coercion.
fn wrap<T>(x: T) -> (r: Option<T>)
    ensures
        r == Some(x),
{
    Some(x)
}

/// The MCP runtime. All storage is inline; no allocator is needed.
///
/// - `N`   — most providers that can be registered
/// - `OUT` — most bytes a single tool result may produce
pub struct Runtime<'p, const N: usize, const OUT: usize> {
    providers: [Option<&'p dyn Provider>; N],
}

impl<'p, const N: usize, const OUT: usize> Runtime<'p, N, OUT> {
    /// The provider slots, in registration order; `None` is a free slot.
    pub closed spec fn slots(&self) -> Seq<Option<&'p dyn Provider>> {
        self.providers@
    }

    /// Every reply to a request opens with the request's id and ends with a
    /// newline.
    pub proof fn law_reply_echoes_id(&self, msg: Seq<u8>, ls: Seq<Seq<Tool>>, ideal: Seq<u8>)
        requires
            self.answers(runtime_reply(msg), ls, ideal),
        ensures
            spec_classify(msg) matches SpecMsg::Request { id, .. } ==> echoes_id(ideal, id),
    {
        if let SpecMsg::Request { id, method, params } = spec_classify(msg) {
            match runtime_reply(msg) {
                Reply::Silent => {},
                Reply::Frame(f) => lemma_request_frame_echoes_id(id, method, params),
                Reply::List(rid) => {
                    lemma_echoes_id(
                        id,
                        LIST_OPEN.spec_bytes() + list_text(ls.flatten()) + LIST_CLOSE.spec_bytes(),
                        ideal,
                    );
                },
                Reply::Call { id: cid, name, args } => {
                    match first_listing(ls, name) {
                        None => lemma_err_echoes_id(id, -32601, MSG_UNKNOWN_TOOL.spec_bytes()),
                        Some(i) => {
                            let (r, output) = choose|r: Result<(), &'static str>, output: Seq<u8>|
                                self.slots()[i].unwrap().call_ok(name, args, r, output) && output.len() <= OUT
                                    && ideal == #[trigger] call_reply_text(id, outcome_of(r, output));
                            lemma_call_reply_echoes_id(id, outcome_of(r, output));
                        },
                    }
                },
            }
        }
    }

    /// Every runtime has exactly `N` provider slots.
    pub proof fn lemma_slot_count(&self)
        ensures
            self.slots().len() == N,
    {
    }

    /// `ts` is what slot `k` can list: nothing when it is free, else a list
    /// its provider may give.
    pub open spec fn slot_lists(&self, k: int, ts: Seq<Tool>) -> bool {
        match self.slots()[k] {
            None => ts.len() == 0,
            Some(p) => p.tools_ok(ts),
        }
    }

    /// `ls` holds, for the first `ls.len()` slots in order, what each lists.
    pub open spec fn listed_by(&self, ls: Seq<Seq<Tool>>) -> bool {
        &&& ls.len() <= N
        &&& forall|k: int| 0 <= k < ls.len() ==> self.slot_lists(k, #[trigger] ls[k])
    }

    /// `ideal` is the `tools/list` reply with this id when the slots list
    /// `ls`: every slot's tools, in slot order.
    pub open spec fn list_answer(&self, id: Seq<u8>, ls: Seq<Seq<Tool>>, ideal: Seq<u8>) -> bool {
        &&& self.listed_by(ls)
        &&& ls.len() == N
        &&& ideal == tools_list_text(id, list_text(ls.flatten()))
    }

    /// `ideal` is the `tools/call` reply for `name` and `args` with this id,
    /// when the slots scanned list `ls`: the unknown-tool error when no slot
    /// lists the name, else the reply for what the first slot that does came
    /// back with, its result holding at most `OUT` bytes.
    pub open spec fn call_answer(&self, id: Seq<u8>, name: Seq<u8>, args: Seq<u8>, ls: Seq<Seq<Tool>>, ideal: Seq<u8>) -> bool {
        &&& self.listed_by(ls)
        &&& match first_listing(ls, name) {
            None => ls.len() == N && ideal == rpc_err_text(id, -32601, MSG_UNKNOWN_TOOL.spec_bytes()),
            Some(i) => ls.len() == i + 1 && self.slots()[i] is Some && exists|
                r: Result<(), &'static str>,
                output: Seq<u8>,
            |
                self.slots()[i].unwrap().call_ok(name, args, r, output) && output.len() <= OUT && ideal
                    == #[trigger] call_reply_text(id, outcome_of(r, output)),
        }
    }

    /// `ideal` is an answer of kind `reply` from this runtime when the slots
    /// it asked for their tools listed `ls`.
    pub open spec fn answers(&self, reply: Reply, ls: Seq<Seq<Tool>>, ideal: Seq<u8>) -> bool {
        match reply {
            Reply::Silent => false,
            Reply::Frame(f) => ideal == f,
            Reply::List(id) => self.list_answer(id, ls, ideal),
            Reply::Call { id, name, args } => self.call_answer(id, name, args, ls, ideal),
        }
    }


    pub fn new() -> (r: Self)
        ensures
            r.slots() == Seq::new(N as nat, |i: int| None::<&'p dyn Provider>),
    {
        let r = Runtime { providers: vstd::array::array_fill_for_copy_types(None) };
        assert(r.slots() =~= Seq::new(N as nat, |i: int| None::<&'p dyn Provider>));
        r
    }

    /// Register a provider in the first free slot; `Err` when all `N` slots
    /// are taken.
    pub fn register(&mut self, p: &'p dyn Provider) -> (r: Result<(), &'static str>)
        ensures
            final(self).slots().len() == N,
            match first_empty(old(self).slots(), 0) {
                Some(i) => r is Ok && final(self).slots() == old(self).slots().update(i, Some(p)),
                None => r == Err::<(), &'static str>("provider limit (N) reached")
                    && final(self).slots() == old(self).slots(),
            },
    {
        let mut i: usize = 0;
        while i < N
            invariant
                i <= N,
                self.providers@ == old(self).providers@,
                first_empty(old(self).slots(), 0) == first_empty(old(self).slots(), i as int),
            decreases N - i,
        {
            if self.providers[i].is_none() {
                self.providers[i] = wrap(p);
                assert(first_empty(old(self).slots(), i as int) == Some(i as int));
                return Ok(());
            }
            i = i + 1;
        }
        Err("provider limit (N) reached")
    }

    /// Answer one JSON-RPC message into `out`; returns the reply's length.
    ///
    /// A notification gets no reply (0). So does a reply that does not fit
    /// in `out`: a truncated frame is never produced.
    pub fn handle(&self, msg: &[u8], out: &mut [u8]) -> (n: usize)
        ensures
            final(out)@.len() == old(out)@.len(),
            n <= old(out)@.len(),
            runtime_reply(msg@) is Silent ==> n == 0 && final(out)@ == old(out)@,
            !(runtime_reply(msg@) is Silent) ==> exists|ideal: Seq<u8>, ls: Seq<Seq<Tool>>|
                #[trigger] self.answers(runtime_reply(msg@), ls, ideal) && #[trigger] wrote_frame(
                    ideal,
                    old(out)@.len(),
                    final(out)@,
                    n as nat,
                ),
            self.slots() =~= Seq::new(N as nat, |i: int| None::<&'p dyn Provider>) ==> (
            match runtime_reply(msg@) {
                Reply::List(id) => wrote_frame(
                    tools_list_text(id, Seq::empty()),
                    old(out)@.len(),
                    final(out)@,
                    n as nat,
                ),
                Reply::Call { id, .. } => wrote_frame(
                    rpc_err_text(id, -32601, MSG_UNKNOWN_TOOL.spec_bytes()),
                    old(out)@.len(),
                    final(out)@,
                    n as nat,
                ),
                _ => true,
            }),
    {
        match classify(msg) {
            Msg::ParseError => {
                let n = write_parse_error(out);
                assert(wrote_frame(parse_error_text(), old(out)@.len(), out@, n as nat));
                assert(self.answers(runtime_reply(msg@), Seq::empty(), parse_error_text()));
                n
            },
            Msg::Notification => 0,
            Msg::Request { id, method, params } => {
                let mut w = Writer::new();
                let ls = self.dispatch(method, id, params, &mut w, out);
                let n = w.finish();
                proof {
                    assert(wrote_frame(w.ideal(), old(out)@.len(), out@, n as nat));
                    assert(self.answers(runtime_reply(msg@), ls@, w.ideal()));
                }
                n
            },
        }
    }

    fn dispatch(&self, method: &[u8], id: &[u8], params: Option<&[u8]>, w: &mut Writer, out: &mut [u8]) -> (ls: Ghost<
        Seq<Seq<Tool>>,
    >)
        requires
            old(w).wf(old(out)@),
            old(w).ideal() == Seq::<u8>::empty(),
        ensures
            final(w).wf(final(out)@),
            final(out)@.len() == old(out)@.len(),
            ({
                let sm = SpecMsg::Request {
                    id: id@,
                    method: method@,
                    params: match params {
                        Some(p) => Some(p@),
                        None => None,
                    },
                };
                &&& self.answers(runtime_reply_to(sm), ls@, final(w).ideal())
                &&& self.slots() =~= Seq::new(N as nat, |i: int| None::<&'p dyn Provider>) ==> (
                match runtime_reply_to(sm) {
                    Reply::List(i) => final(w).ideal() == tools_list_text(i, Seq::empty()),
                    Reply::Call { id: i, .. } => final(w).ideal() == rpc_err_text(
                        i,
                        -32601,
                        MSG_UNKNOWN_TOOL.spec_bytes(),
                    ),
                    _ => true,
                })
            }),
    {
        if bytes_eq(method, M_INITIALIZE.as_bytes()) {
            write_initialize(w, out, id);
            assert(w.ideal() =~= initialize_text(id@));
            Ghost(Seq::empty())
        } else if bytes_eq(method, M_TOOLS_LIST.as_bytes()) {
            w.s(out, ID_OPEN);
            w.push(out, id);
            w.s(out, LIST_OPEN);
            let ls = self.write_entries(w, out);
            w.s(out, LIST_CLOSE);
            w.nl(out);
            assert(w.ideal() =~= tools_list_text(id@, list_text(ls@.flatten())));
            assert(self.list_answer(id@, ls@, w.ideal()));
            ls
        } else if bytes_eq(method, M_TOOLS_CALL.as_bytes()) {
            let ls = self.dispatch_tools_call(params, id, w, out);
            proof {
                let pv = match params {
                    Some(p) => Some(p@),
                    None => None,
                };
                match call_params(pv) {
                    None => {},
                    Some(c) => {
                        assert(self.call_answer(id@, c.0, c.1, ls@, w.ideal()));
                    },
                }
            }
            ls
        } else {
            rpc_err(w, out, id, -32601, MSG_METHOD_NOT_FOUND);
            assert(w.ideal() =~= rpc_err_text(id@, -32601, MSG_METHOD_NOT_FOUND.spec_bytes()));
            Ghost(Seq::empty())
        }
    }

    /// The comma-separated entries of every registered provider's tools;
    /// returns (as ghost) what each slot listed.
    fn write_entries(&self, w: &mut Writer, out: &mut [u8]) -> (ls: Ghost<Seq<Seq<Tool>>>)
        requires
            old(w).wf(old(out)@),
        ensures
            final(w).wf(final(out)@),
            final(out)@.len() == old(out)@.len(),
            self.listed_by(ls@),
            ls@.len() == N,
            final(w).ideal() == old(w).ideal() + list_text(ls@.flatten()),
            self.slots() =~= Seq::new(N as nat, |i: int| None::<&'p dyn Provider>) ==> ls@.flatten().len()
                == 0,
    {
        let ghost base = w.ideal();
        let ghost mut ls: Seq<Seq<Tool>> = Seq::empty();
        let mut first = true;
        let mut i: usize = 0;
        proof {
            assert(base + Seq::<u8>::empty() =~= base);
            assert(ls.flatten() =~= Seq::<Tool>::empty());
        }
        while i < N
            invariant
                i <= N,
                w.wf(out@),
                out@.len() == old(out)@.len(),
                self.slots().len() == N,
                ls.len() == i,
                self.listed_by(ls),
                first == (ls.flatten().len() == 0),
                w.ideal() == base + list_text(ls.flatten()),
                (forall|k: int| 0 <= k < i ==> self.slots()[k] is None) ==> ls.flatten().len() == 0,
            decreases N - i,
        {
            let ghost prev = ls;
            match self.providers[i] {
                Some(p) => {
                    let ts = p.tools();
                    proof {
                        lemma_list_text_append(ls.flatten(), ts@);
                    }
                    first = write_tool_entries(w, out, ts, first);
                    proof {
                        ls.lemma_flatten_push(ts@);
                        ls = ls.push(ts@);
                    }
                },
                None => {
                    proof {
                        ls.lemma_flatten_push(Seq::empty());
                        assert(ls.flatten() + Seq::<Tool>::empty() =~= ls.flatten());
                        ls = ls.push(Seq::empty());
                    }
                },
            }
            proof {
                assert forall|k: int| 0 <= k < ls.len() implies self.slot_lists(k, #[trigger] ls[k]) by {
                    if k < prev.len() {
                        assert(ls[k] == prev[k]);
                    }
                }
            }
            i = i + 1;
        }
        Ghost(ls)
    }

    /// The slot of the first registered provider whose `tools` list a tool
    /// named `tool`.
    fn find(&self, tool: &str) -> (r: Option<usize>)
        ensures
            r matches Some(i) ==> i < N && self.slots()[i as int] is Some,
            (forall|k: int| 0 <= k < N ==> self.slots()[k] is None) ==> r is None,
            exists|ls: Seq<Seq<Tool>>|
                #[trigger] self.listed_by(ls) && match r {
                    None => ls.len() == N && first_listing(ls, tool.spec_bytes()) is None,
                    Some(i) => ls.len() == i + 1 && first_listing(ls, tool.spec_bytes()) == Some(
                        i as int,
                    ),
                },
    {
        let ghost mut ls: Seq<Seq<Tool>> = Seq::empty();
        let mut i: usize = 0;
        while i < N
            invariant
                i <= N,
                self.slots().len() == N,
                ls.len() == i,
                self.listed_by(ls),
                first_listing(ls, tool.spec_bytes()) is None,
            decreases N - i,
        {
            let ghost prev = ls;
            match self.providers[i] {
                Some(p) => {
                    let ts = p.tools();
                    proof {
                        ls = ls.push(ts@);
                        assert(ls.drop_last() =~= prev);
                    }
                    if has_tool(ts, tool) {
                        proof {
                            assert(self.listed_by(ls)) by {
                                assert forall|k: int| 0 <= k < ls.len() implies self.slot_lists(k, #[trigger] ls[k],
                                ) by {
                                    if k < prev.len() {
                                        assert(ls[k] == prev[k]);
                                    }
                                }
                            }
                        }
                        return Some(i);
                    }
                },
                None => {
                    proof {
                        ls = ls.push(Seq::empty());
                        assert(ls.drop_last() =~= prev);
                    }
                },
            }
            proof {
                assert forall|k: int| 0 <= k < ls.len() implies self.slot_lists(k, #[trigger] ls[k]) by {
                    if k < prev.len() {
                        assert(ls[k] == prev[k]);
                    }
                }
                assert(!lists_tool(ls.last(), tool.spec_bytes()));
            }
            i = i + 1;
        }
        None
    }

    fn dispatch_tools_call(&self, params: Option<&[u8]>, id: &[u8], w: &mut Writer, out: &mut [u8]) -> (ls: Ghost<
        Seq<Seq<Tool>>,
    >)
        requires
            old(w).wf(old(out)@),
            old(w).ideal() == Seq::<u8>::empty(),
        ensures
            final(w).wf(final(out)@),
            final(out)@.len() == old(out)@.len(),
            match call_params(
                match params {
                    Some(p) => Some(p@),
                    None => None,
                },
            ) {
                None => final(w).ideal() == rpc_err_text(id@, -32600, MSG_BAD_PARAMS.spec_bytes()),
                Some(c) => self.call_answer(id@, c.0, c.1, ls@, final(w).ideal()),
            },
            (forall|k: int| 0 <= k < N ==> self.slots()[k] is None) && call_params(
                match params {
                    Some(p) => Some(p@),
                    None => None,
                },
            ) is Some ==> final(w).ideal() == rpc_err_text(
                id@,
                -32601,
                MSG_UNKNOWN_TOOL.spec_bytes(),
            ),
    {
        let (name, args) = match tools_call_params(params) {
            Some(c) => c,
            None => {
                rpc_err(w, out, id, -32600, MSG_BAD_PARAMS);
                assert(w.ideal() =~= rpc_err_text(id@, -32600, MSG_BAD_PARAMS.spec_bytes()));
                return Ghost(Seq::empty());
            },
        };
        let found = self.find(name);
        let ghost ls = choose|ls: Seq<Seq<Tool>>|
            #[trigger] self.listed_by(ls) && match found {
                None => ls.len() == N && first_listing(ls, name.spec_bytes()) is None,
                Some(i) => ls.len() == i + 1 && first_listing(ls, name.spec_bytes()) == Some(i as int),
            };
        match found {
            Some(i) => {
                let ghost before = w.ideal();
                self.call_provider(i, name, args, id, w, out);
                proof {
                    let (r, output) = choose|r: Result<(), &'static str>, output: Seq<u8>|
                        self.slots()[i as int].unwrap().call_ok(name.spec_bytes(), args@, r, output)
                            && output.len() <= OUT && w.ideal() == before + #[trigger] call_reply_text(
                            id@,
                            outcome_of(r, output),
                        );
                    assert(before + call_reply_text(id@, outcome_of(r, output)) =~= call_reply_text(
                        id@,
                        outcome_of(r, output),
                    ));
                    assert(self.call_answer(id@, name.spec_bytes(), args@, ls, w.ideal()));
                }
            },
            None => {
                rpc_err(w, out, id, -32601, MSG_UNKNOWN_TOOL);
                assert(w.ideal() =~= rpc_err_text(id@, -32601, MSG_UNKNOWN_TOOL.spec_bytes()));
                assert(self.call_answer(id@, name.spec_bytes(), args@, ls, w.ideal()));
            },
        }
        Ghost(ls)
    }

    /// Call the provider in slot `i` on `name` and `args` with a result
    /// buffer of `OUT` bytes, and write the whole `tools/call` reply for what
    /// it comes back with.
    fn call_provider(&self, i: usize, name: &str, args: &[u8], id: &[u8], w: &mut Writer, out: &mut [u8])
        requires
            old(w).wf(old(out)@),
            i < N,
            self.slots()[i as int] is Some,
        ensures
            final(w).wf(final(out)@),
            final(out)@.len() == old(out)@.len(),
            exists|r: Result<(), &'static str>, output: Seq<u8>|
                self.slots()[i as int].unwrap().call_ok(name.spec_bytes(), args@, r, output) && output.len()
                    <= OUT && final(w).ideal() == old(w).ideal() + #[trigger] call_reply_text(
                    id@,
                    outcome_of(r, output),
                ),
    {
        match self.providers[i] {
            Some(p) => {
                let mut tool_out = [0u8; OUT];
                let mut output = Output::new(&mut tool_out);
                w.s(out, ID_OPEN);
                w.push(out, id);
                let r = p.call(name, args, &mut output);
                let text = output.as_bytes();
                write_call_result(w, out, r, text);
                w.nl(out);
                proof {
                    let o = outcome_of(r, text@);
                    assert(w.ideal() =~= old(w).ideal() + call_reply_text(id@, o));
                }
            },
            None => {},
        }
    }
}

/// Append the entries of `tools` (names and descriptions escaped), each after
/// a comma unless `first` and it is the first; returns whether still nothing
/// has been written.
pub fn write_tool_entries(w: &mut Writer, buf: &mut [u8], tools: &[Tool], first: bool) -> (still_first: bool)
    requires
        old(w).wf(old(buf)@),
    ensures
        final(w).wf(final(buf)@),
        final(buf)@.len() == old(buf)@.len(),
        final(w).ideal() == old(w).ideal() + entries_after(tools@, first),
        still_first == (first && tools@.len() == 0),
{
    let ghost base = w.ideal();
    let mut f = first;
    let mut j: usize = 0;
    proof {
        assert(tools@.subrange(0, 0) =~= Seq::<Tool>::empty());
        assert(base + Seq::<u8>::empty() =~= base);
    }
    while j < tools.len()
        invariant
            j <= tools@.len(),
            w.wf(buf@),
            buf@.len() == old(buf)@.len(),
            f == (first && j == 0),
            w.ideal() == base + entries_after(tools@.subrange(0, j as int), first),
        decreases tools.len() - j,
    {
        let t = tools[j];
        let ghost prefix = tools@.subrange(0, j + 1);
        proof {
            assert(prefix.drop_last() =~= tools@.subrange(0, j as int));
            assert(prefix.last() == t);
        }
        if !f {
            w.s(buf, SEP);
        }
        f = false;
        write_tool(w, buf, t.name, t.description);
        proof {
            if prefix.len() > 1 || !first {
                assert(w.ideal() =~= base + entries_after(prefix, first));
            } else {
                assert(entries_after(prefix.drop_last(), first) =~= Seq::<u8>::empty());
                assert(w.ideal() =~= base + entries_after(prefix, first));
            }
        }
        j = j + 1;
    }
    proof {
        assert(tools@.subrange(0, tools@.len() as int) =~= tools@);
    }
    f
}

/// Whether `tools` holds a tool named `name`.
pub fn has_tool(tools: &[Tool], name: &str) -> (r: bool)
    ensures
        r == lists_tool(tools@, name.spec_bytes()),
{
    let mut j: usize = 0;
    while j < tools.len()
        invariant
            j <= tools@.len(),
            forall|k: int| 0 <= k < j ==> (#[trigger] tools@[k]).name.spec_bytes() != name.spec_bytes(),
        decreases tools.len() - j,
    {
        if bytes_eq(tools[j].name.as_bytes(), name.as_bytes()) {
            assert(lists_tool(tools@, name.spec_bytes()));
            return true;
        }
        j = j + 1;
    }
    false
}

impl<'p, const N: usize, const OUT: usize> Default for Runtime<'p, N, OUT> {
    fn default() -> (r: Self)
        ensures
            r.slots() == Seq::new(N as nat, |i: int| None::<&'p dyn Provider>),
    {
        Self::new()
    }
}

} // verus!
