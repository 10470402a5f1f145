//! Gateway mode: one MCP endpoint aggregating the tools of several leaf MCP
//! devices.
//!
//! The routing table lives in [`GatewayInner`]. Everything the gateway
//! decides is here: which reply a message gets, which leaf a `tools/call`
//! goes to and the exact request it is forwarded as, and the reply built
//! from what the leaf answered. Talking to a leaf (connect, write, read a
//! line) is the caller's part: [`Gateway::handle`] returns
//! [`GatewayStep::Proxy`] when a leaf must be asked, and
//! [`finish_call`] turns the leaf's answer into the client's reply.

use vstd::prelude::*;
use vstd::string::StringSliceAdditionalSpecFns;
use vstd::utf8::{is_char_boundary, valid_utf8, length_of_first_scalar, pop_first_scalar};
use crate::json::{bytes_eq, classify, obj_first, obj_get, obj_get_last, obj_last, spec_classify,
    spec_unquote, unquote, Msg, SpecMsg};
use crate::routes::{
    GatewayInner, InnerView, commit_view, commit_rollback, remove_view, route_addr, render, LEAF_ADDR_MAX,
};
use crate::route_laws::{consistent, law_failed_add_leaves_table, law_table_stays_consistent};
use crate::rpc::{
    echoes_id, initialize_gateway_text, lemma_echoes_id, lemma_err_echoes_id, nl_bytes, INIT_GW_TAIL, parse_error_text, rpc_err, rpc_err_text, tools_list_text,
    write_initialize_gateway, write_parse_error, wrote_frame, ID_OPEN, LIST_CLOSE, LIST_OPEN,
    MSG_BAD_PARAMS, MSG_METHOD_NOT_FOUND, MSG_UNKNOWN_TOOL, M_INITIALIZE, M_TOOLS_CALL,
    M_TOOLS_LIST,
};
use crate::writer::Writer;

verus! {

// ---------------------------------------------------------------------------
// Connectors and address schemes
// ---------------------------------------------------------------------------

/// Reach leaves over Unix domain sockets; an address is a filesystem path.
#[derive(Default, Clone, Copy)]
pub struct UnixConnector;

/// Reach leaves over TCP; an address is `host:port`.
#[derive(Default, Clone, Copy)]
pub struct TcpConnector;

/// Reach leaves over UDP, one datagram each way; an address is `host:port`.
#[derive(Default, Clone, Copy)]
pub struct UdpConnector;

/// Reach each leaf by its address's scheme (see [`parse_scheme`]).
#[derive(Default, Clone, Copy)]
pub struct MultiConnector;

/// The transport a leaf address names, and the address proper.
#[derive(Debug, PartialEq, Eq)]
pub enum Scheme<'a> {
    Unix(&'a str),
    Tcp(&'a str),
    Tls(&'a str),
    Udp(&'a str),
}

/// [`Scheme`] abstractly.
pub enum SchemeView {
    Unix(Seq<u8>),
    Tcp(Seq<u8>),
    Tls(Seq<u8>),
    Udp(Seq<u8>),
}

impl<'a> View for Scheme<'a> {
    type V = SchemeView;

    open spec fn view(&self) -> SchemeView {
        match *self {
            Scheme::Unix(s) => SchemeView::Unix(s.spec_bytes()),
            Scheme::Tcp(s) => SchemeView::Tcp(s.spec_bytes()),
            Scheme::Tls(s) => SchemeView::Tls(s.spec_bytes()),
            Scheme::Udp(s) => SchemeView::Udp(s.spec_bytes()),
        }
    }
}

pub open spec fn has_prefix(a: Seq<u8>, p: Seq<u8>) -> bool {
    p.len() <= a.len() && a.subrange(0, p.len() as int) == p
}

/// The scheme of address `a`: `unix://`, `tcp://`, `tls://` or `udp://`
/// stripped off, in that order of preference; anything else is a bare Unix
/// socket path.
pub open spec fn scheme_of(a: Seq<u8>) -> SchemeView {
    if has_prefix(a, "unix://".spec_bytes()) {
        SchemeView::Unix(a.subrange(7, a.len() as int))
    } else if has_prefix(a, "tcp://".spec_bytes()) {
        SchemeView::Tcp(a.subrange(6, a.len() as int))
    } else if has_prefix(a, "tls://".spec_bytes()) {
        SchemeView::Tls(a.subrange(6, a.len() as int))
    } else if has_prefix(a, "udp://".spec_bytes()) {
        SchemeView::Udp(a.subrange(6, a.len() as int))
    } else {
        SchemeView::Unix(a)
    }
}

/// A position right after an ASCII prefix is a character boundary.
proof fn lemma_ascii_prefix_boundary(bytes: Seq<u8>, k: int)
    requires
        valid_utf8(bytes),
        0 <= k <= bytes.len(),
        forall|i: int| 0 <= i < k ==> bytes[i] < 128,
    ensures
        is_char_boundary(bytes, k),
    decreases k,
{
    if k > 0 {
        assert(length_of_first_scalar(bytes) == 1);
        let rest = pop_first_scalar(bytes);
        assert(valid_utf8(rest));
        assert forall|i: int| 0 <= i < k - 1 implies rest[i] < 128 by {
            assert(rest[i] == bytes[i + 1]);
        }
        lemma_ascii_prefix_boundary(rest, k - 1);
    }
}

/// `addr` minus its first `k` bytes, which hold the ASCII `prefix`.
fn strip_ascii_prefix<'a>(addr: &'a str, prefix: &str) -> (r: Option<&'a str>)
    requires
        forall|i: int| 0 <= i < prefix.spec_bytes().len() ==> #[trigger] prefix.spec_bytes()[i] < 128,
    ensures
        match r {
            Some(s) => has_prefix(addr.spec_bytes(), prefix.spec_bytes()) && s.spec_bytes()
                == addr.spec_bytes().subrange(
                prefix.spec_bytes().len() as int,
                addr.spec_bytes().len() as int,
            ),
            None => !has_prefix(addr.spec_bytes(), prefix.spec_bytes()),
        },
{
    let a = addr.as_bytes();
    let p = prefix.as_bytes();
    if p.len() > a.len() {
        return None;
    }
    let head = vstd::slice::slice_subrange(a, 0, p.len());
    if !bytes_eq(head, p) {
        return None;
    }
    proof {
        vstd::utf8::encode_utf8_valid_utf8(addr@);
        assert forall|i: int| 0 <= i < p@.len() implies a@[i] < 128 by {
            assert(head@[i] == a@[i]);
            assert(prefix.spec_bytes()[i] < 128);
        }
        lemma_ascii_prefix_boundary(a@, p@.len() as int);
    }
    let (_, rest) = addr.split_at(p.len());
    Some(rest)
}

/// The scheme of a leaf address.
pub fn parse_scheme(addr: &str) -> (r: Scheme<'_>)
    ensures
        r@ == scheme_of(addr.spec_bytes()),
{
    proof {
        reveal_strlit("unix://");
        reveal_strlit("tcp://");
        reveal_strlit("tls://");
        reveal_strlit("udp://");
        vstd::string::is_ascii_spec_bytes("unix://");
        vstd::string::is_ascii_spec_bytes("tcp://");
        vstd::string::is_ascii_spec_bytes("tls://");
        vstd::string::is_ascii_spec_bytes("udp://");
    }
    if let Some(p) = strip_ascii_prefix(addr, "unix://") {
        Scheme::Unix(p)
    } else if let Some(p) = strip_ascii_prefix(addr, "tcp://") {
        Scheme::Tcp(p)
    } else if let Some(p) = strip_ascii_prefix(addr, "tls://") {
        Scheme::Tls(p)
    } else if let Some(p) = strip_ascii_prefix(addr, "udp://") {
        Scheme::Udp(p)
    } else {
        Scheme::Unix(addr)
    }
}

// ---------------------------------------------------------------------------
// Talking to leaves
// ---------------------------------------------------------------------------

/// The `initialize` request sent to a leaf when it is added.
pub const INIT_MSG: &'static str = "{\"jsonrpc\":\"2.0\",\"id\":0,\"method\":\"initialize\"}\n";

/// The `tools/list` request sent to a leaf after its `initialize` reply.
pub const LIST_MSG: &'static str = "{\"jsonrpc\":\"2.0\",\"id\":1,\"method\":\"tools/list\"}\n";

/// The notification a dynamic gateway pushes to its clients when its tool
/// set changes.
pub const TOOLS_LIST_CHANGED_NOTIFY: &'static str =
    "{\"jsonrpc\":\"2.0\",\"method\":\"notifications/tools/list_changed\"}\n";

pub const PROXY_OPEN: &'static str =
    "{\"jsonrpc\":\"2.0\",\"id\":1,\"method\":\"tools/call\",\"params\":{\"name\":";
pub const PROXY_ARGS: &'static str = ",\"arguments\":";
pub const PROXY_CLOSE: &'static str = "}}\n";
pub const REPLY_RESULT: &'static str = ",\"result\":";
pub const REPLY_ERROR: &'static str = ",\"error\":";
pub const REPLY_NO_RESULT: &'static str =
    ",\"error\":{\"code\":-1,\"message\":\"leaf returned no result\"}";
pub const REPLY_CLOSE: &'static str = "}";
pub const MSG_ARGS_TOO_LARGE: &'static str = "args too large for proxy buffer";

/// The first newline in `buf[start..]`, as an index into `buf`.
pub open spec fn newline_at(buf: Seq<u8>, start: int, i: int) -> bool {
    &&& start <= i < buf.len()
    &&& buf[i] == 10u8
    &&& forall|k: int| start <= k < i ==> buf[k] != 10u8
}

/// Where the line in `buf` that continues at `start` ends: the index of the
/// first newline at or after `start`, if the bytes hold one.
pub fn line_end(buf: &[u8], start: usize) -> (r: Option<usize>)
    ensures
        match r {
            Some(i) => newline_at(buf@, start as int, i as int),
            None => forall|k: int| start <= k < buf@.len() ==> buf@[k] != 10u8,
        },
{
    let mut i = start;
    while i < buf.len()
        invariant
            start <= i,
            forall|k: int| start <= k < i && k < buf@.len() ==> buf@[k] != 10u8,
        decreases buf.len() - i,
    {
        if buf[i] == 10u8 {
            return Some(i);
        }
        i = i + 1;
    }
    None
}

/// Whether a leaf's `initialize` reply refuses: it has an `error` member.
pub fn check_initialize_reply(resp: &[u8]) -> (r: Result<(), &'static str>)
    ensures
        r is Err <==> obj_first(resp@, "error".spec_bytes()) is Some,
        r is Err ==> r == Err::<(), &'static str>("leaf returned error to initialize"),
{
    if obj_get(resp, "error".as_bytes()).is_some() {
        Err("leaf returned error to initialize")
    } else {
        Ok(())
    }
}

/// The tools array of a leaf's `tools/list` reply: `result.tools`.
pub open spec fn tools_array(resp: Seq<u8>) -> Result<Seq<u8>, &'static str> {
    match obj_first(resp, "result".spec_bytes()) {
        None => Err("no result in leaf response"),
        Some(res) => match obj_first(res, "tools".spec_bytes()) {
            None => Err("no tools in leaf response"),
            Some(t) => Ok(t),
        },
    }
}

/// The tools array of a leaf's `tools/list` reply.
pub fn parse_tools_array(resp: &[u8]) -> (r: Result<&[u8], &'static str>)
    ensures
        match r {
            Ok(t) => tools_array(resp@) == Ok::<Seq<u8>, &'static str>(t@),
            Err(m) => tools_array(resp@) == Err::<Seq<u8>, &'static str>(m),
        },
{
    let result = match obj_get(resp, "result".as_bytes()) {
        Some(x) => x,
        None => {
            return Err("no result in leaf response");
        },
    };
    match obj_get(result, "tools".as_bytes()) {
        Some(t) => Ok(t),
        None => Err("no tools in leaf response"),
    }
}

/// The tool name of a `tools/call` request as it was quoted, the name
/// itself, and the arguments (`{}` when missing). The last member of a
/// repeated key counts.
pub open spec fn gateway_call_params(params: Option<Seq<u8>>) -> Option<(Seq<u8>, Seq<u8>, Seq<u8>)> {
    match params {
        None => None,
        Some(p) => match obj_last(p, "name".spec_bytes()) {
            None => None,
            Some(q) => match spec_unquote(q) {
                None => None,
                Some(name) => Some(
                    (
                        q,
                        name,
                        match obj_last(p, "arguments".spec_bytes()) {
                            Some(a) => a,
                            None => "{}".spec_bytes(),
                        },
                    ),
                ),
            },
        },
    }
}

/// The `tools/call` parameters of a request, per [`gateway_call_params`].
pub fn parse_tools_call_params<'a>(params: Option<&'a [u8]>) -> (r: Option<(&'a [u8], &'a [u8], &'a [u8])>)
    ensures
        match r {
            Some(c) => gateway_call_params(
                match params {
                    Some(p) => Some(p@),
                    None => None,
                },
            ) == Some((c.0@, c.1@, c.2@)),
            None => gateway_call_params(
                match params {
                    Some(p) => Some(p@),
                    None => None,
                },
            ) is None,
        },
{
    let p = match params {
        Some(p) => p,
        None => {
            return None;
        },
    };
    let name_q = match obj_get_last(p, "name".as_bytes()) {
        Some(q) => q,
        None => {
            return None;
        },
    };
    let name = match unquote(name_q) {
        Some(n) => n,
        None => {
            return None;
        },
    };
    let args: &[u8] = match obj_get_last(p, "arguments".as_bytes()) {
        Some(a) => a,
        None => "{}".as_bytes(),
    };
    Some((name_q, name, args))
}

/// The request a `tools/call` is forwarded to its leaf as.
pub open spec fn proxy_request_text(tool_quoted: Seq<u8>, args: Seq<u8>) -> Seq<u8> {
    PROXY_OPEN.spec_bytes() + tool_quoted + PROXY_ARGS.spec_bytes() + args + PROXY_CLOSE.spec_bytes()
}

/// The client's reply to a forwarded `tools/call`, from the leaf's reply
/// line (`Ok`) or from why no reply came (`Err`): the leaf's `result` is
/// passed through, else its `error`, else an error saying it had neither.
pub open spec fn proxy_reply_text(id: Seq<u8>, leaf: Result<Seq<u8>, Seq<u8>>) -> Seq<u8> {
    match leaf {
        Err(e) => rpc_err_text(id, -1, e),
        Ok(resp) => ID_OPEN.spec_bytes() + id + (match obj_last(resp, "result".spec_bytes()) {
            Some(res) => REPLY_RESULT.spec_bytes() + res,
            None => match obj_last(resp, "error".spec_bytes()) {
                Some(err) => REPLY_ERROR.spec_bytes() + err,
                None => REPLY_NO_RESULT.spec_bytes(),
            },
        }) + REPLY_CLOSE.spec_bytes() + nl_bytes(),
    }
}

pub open spec fn leaf_view(leaf: Result<&[u8], &'static str>) -> Result<Seq<u8>, Seq<u8>> {
    match leaf {
        Ok(r) => Ok(r@),
        Err(e) => Err(e.spec_bytes()),
    }
}

/// Write into `out` the client's reply to a forwarded `tools/call` with id
/// `id`, given the leaf's reply line or why there is none. Returns the
/// reply's length, or 0 when it does not fit.
pub fn finish_call(id: &[u8], leaf: Result<&[u8], &'static str>, out: &mut [u8]) -> (n: usize)
    ensures
        final(out)@.len() == old(out)@.len(),
        wrote_frame(proxy_reply_text(id@, leaf_view(leaf)), old(out)@.len(), final(out)@, n as nat),
{
    let mut w = Writer::new();
    match leaf {
        Err(e) => {
            rpc_err(&mut w, out, id, -1, e);
        },
        Ok(resp) => {
            w.s(out, ID_OPEN);
            w.push(out, id);
            match obj_get_last(resp, "result".as_bytes()) {
                Some(res) => {
                    w.s(out, REPLY_RESULT);
                    w.push(out, res);
                },
                None => match obj_get_last(resp, "error".as_bytes()) {
                    Some(err) => {
                        w.s(out, REPLY_ERROR);
                        w.push(out, err);
                    },
                    None => {
                        w.s(out, REPLY_NO_RESULT);
                    },
                },
            }
            w.s(out, REPLY_CLOSE);
            w.nl(out);
        },
    }
    assert(w.ideal() =~= proxy_reply_text(id@, leaf_view(leaf)));
    w.finish()
}

// ---------------------------------------------------------------------------
// Answering clients
// ---------------------------------------------------------------------------

/// What the gateway does with one client message.
pub enum GatewayStep<'g, 'm> {
    /// The reply is in `out` and is this long; 0 means send nothing.
    Done(usize),
    /// Send `proxy[..len]` to the leaf at `addr`, read one line back, and
    /// write the reply with [`finish_call`] and this request `id`.
    Proxy { addr: &'g [u8], id: &'m [u8], len: usize },
}

impl<'g, 'm> GatewayStep<'g, 'm> {
    /// The reply's length when the step is complete.
    pub fn done(&self) -> (r: Option<usize>)
        ensures
            match *self {
                GatewayStep::Done(n) => r == Some(n),
                _ => r is None,
            },
    {
        match *self {
            GatewayStep::Done(n) => Some(n),
            _ => None,
        }
    }
}

/// What the gateway does with a message, abstractly.
pub enum GatewayReply {
    Silent,
    Frame(Seq<u8>),
    Proxy { addr: Seq<u8>, id: Seq<u8>, request: Seq<u8> },
}

/// The gateway's answer to a classified message, with routing table `v` and
/// a proxy buffer of `cap` bytes.
pub open spec fn gateway_reply_to(v: InnerView, m: SpecMsg, cap: nat) -> GatewayReply {
    match m {
        SpecMsg::ParseError => GatewayReply::Frame(parse_error_text()),
        SpecMsg::Notification => GatewayReply::Silent,
        SpecMsg::Request { id, method, params } => if method == M_INITIALIZE.spec_bytes() {
            GatewayReply::Frame(initialize_gateway_text(id))
        } else if method == M_TOOLS_LIST.spec_bytes() {
            GatewayReply::Frame(tools_list_text(id, v.json))
        } else if method == M_TOOLS_CALL.spec_bytes() {
            match gateway_call_params(params) {
                None => GatewayReply::Frame(rpc_err_text(id, -32600, MSG_BAD_PARAMS.spec_bytes())),
                Some(c) => match route_addr(v, c.1) {
                    None => GatewayReply::Frame(
                        rpc_err_text(id, -32601, MSG_UNKNOWN_TOOL.spec_bytes()),
                    ),
                    Some(addr) => if proxy_request_text(c.0, c.2).len() > cap {
                        GatewayReply::Frame(rpc_err_text(id, -1, MSG_ARGS_TOO_LARGE.spec_bytes()))
                    } else {
                        GatewayReply::Proxy { addr, id, request: proxy_request_text(c.0, c.2) }
                    },
                },
            }
        } else {
            GatewayReply::Frame(rpc_err_text(id, -32601, MSG_METHOD_NOT_FOUND.spec_bytes()))
        },
    }
}

/// The gateway's answer to `msg`.
pub open spec fn gateway_reply(v: InnerView, msg: Seq<u8>, cap: nat) -> GatewayReply {
    gateway_reply_to(v, spec_classify(msg), cap)
}

/// Every reply the gateway gives to a request opens with the request's id
/// and ends with a newline. A forwarded call carries the id, and the reply
/// built from whatever the leaf answers echoes it too.
pub proof fn law_gateway_reply_echoes_id(v: InnerView, msg: Seq<u8>, cap: nat, leaf: Result<Seq<u8>, Seq<u8>>)
    ensures
        spec_classify(msg) matches SpecMsg::Request { id, .. } ==> match gateway_reply(v, msg, cap) {
            GatewayReply::Silent => true,
            GatewayReply::Frame(f) => echoes_id(f, id),
            GatewayReply::Proxy { id: pid, .. } => pid == id && echoes_id(proxy_reply_text(id, leaf), id),
        },
{
    if let SpecMsg::Request { id, method, params } = spec_classify(msg) {
        if method == M_INITIALIZE.spec_bytes() {
            lemma_echoes_id(id, INIT_GW_TAIL.spec_bytes(), initialize_gateway_text(id));
        } else if method == M_TOOLS_LIST.spec_bytes() {
            lemma_echoes_id(id, LIST_OPEN.spec_bytes() + v.json + LIST_CLOSE.spec_bytes(), tools_list_text(id, v.json));
        } else if method == M_TOOLS_CALL.spec_bytes() {
            lemma_err_echoes_id(id, -32600, MSG_BAD_PARAMS.spec_bytes());
            lemma_err_echoes_id(id, -32601, MSG_UNKNOWN_TOOL.spec_bytes());
            lemma_err_echoes_id(id, -1, MSG_ARGS_TOO_LARGE.spec_bytes());
            match leaf {
                Err(e) => lemma_err_echoes_id(id, -1, e),
                Ok(resp) => lemma_echoes_id(
                    id,
                    (match obj_last(resp, "result".spec_bytes()) {
                        Some(res) => REPLY_RESULT.spec_bytes() + res,
                        None => match obj_last(resp, "error".spec_bytes()) {
                            Some(err) => REPLY_ERROR.spec_bytes() + err,
                            None => REPLY_NO_RESULT.spec_bytes(),
                        },
                    }) + REPLY_CLOSE.spec_bytes(),
                    proxy_reply_text(id, leaf),
                ),
            }
        } else {
            lemma_err_echoes_id(id, -32601, MSG_METHOD_NOT_FOUND.spec_bytes());
        }
    }
}

/// `step` carries out `reply` with reply buffer `out` (of `cap` bytes) and
/// proxy buffer `proxy`.
pub open spec fn step_matches(reply: GatewayReply, step: GatewayStep, cap: nat, out: Seq<u8>, proxy: Seq<u8>) -> bool {
    match reply {
        GatewayReply::Silent => step == GatewayStep::Done(0),
        GatewayReply::Frame(f) => step is Done && wrote_frame(f, cap, out, step->Done_0 as nat),
        GatewayReply::Proxy { addr, id, request } => step is Proxy && step->Proxy_addr@ == addr
            && step->Proxy_id@ == id && step->Proxy_len == request.len() && proxy.subrange(
            0,
            request.len() as int,
        ) == request,
    }
}

/// The tools-list reply around the cached entries.
fn write_tools_list<const L: usize, const T: usize, const B: usize, const A: usize>(
    w: &mut Writer,
    buf: &mut [u8],
    id: &[u8],
    inner: &GatewayInner<L, T, B, A>,
)
    requires
        old(w).wf(old(buf)@),
        inner.wf(),
    ensures
        final(w).wf(final(buf)@),
        final(buf)@.len() == old(buf)@.len(),
        final(w).ideal() == old(w).ideal() + tools_list_text(id@, inner.view().json),
{
    w.s(buf, ID_OPEN);
    w.push(buf, id);
    w.s(buf, LIST_OPEN);
    w.push(buf, inner.tools_json());
    w.s(buf, LIST_CLOSE);
    w.nl(buf);
    assert(w.ideal() =~= old(w).ideal() + tools_list_text(id@, inner.view().json));
}

/// Answer one message against the routing table `inner`.
fn handle_with<'g, 'm, const L: usize, const T: usize, const B: usize, const A: usize>(
    inner: &'g GatewayInner<L, T, B, A>,
    msg: &'m [u8],
    out: &mut [u8],
    proxy: &mut [u8],
) -> (r: GatewayStep<'g, 'm>)
    requires
        inner.wf(),
    ensures
        final(out)@.len() == old(out)@.len(),
        final(proxy)@.len() == old(proxy)@.len(),
        gateway_reply(inner.view(), msg@, old(proxy)@.len()) is Silent ==> final(out)@ == old(out)@ && final(proxy)@
            == old(proxy)@,
        step_matches(gateway_reply(inner.view(), msg@, old(proxy)@.len()), r, old(out)@.len(), final(out)@, final(proxy)@),
{
    match classify(msg) {
        Msg::ParseError => GatewayStep::Done(write_parse_error(out)),
        Msg::Notification => GatewayStep::Done(0),
        Msg::Request { id, method, params } => {
            let mut w = Writer::new();
            if bytes_eq(method, M_INITIALIZE.as_bytes()) {
                write_initialize_gateway(&mut w, out, id);
                assert(w.ideal() =~= initialize_gateway_text(id@));
            } else if bytes_eq(method, M_TOOLS_LIST.as_bytes()) {
                write_tools_list(&mut w, out, id, inner);
                assert(w.ideal() =~= tools_list_text(id@, inner.view().json));
            } else if bytes_eq(method, M_TOOLS_CALL.as_bytes()) {
                match parse_tools_call_params(params) {
                    None => {
                        rpc_err(&mut w, out, id, -32600, MSG_BAD_PARAMS);
                        assert(w.ideal() =~= rpc_err_text(id@, -32600, MSG_BAD_PARAMS.spec_bytes()));
                    },
                    Some((name_q, name, args)) => match inner.route_for(name) {
                        None => {
                            rpc_err(&mut w, out, id, -32601, MSG_UNKNOWN_TOOL);
                            assert(w.ideal() =~= rpc_err_text(
                                id@,
                                -32601,
                                MSG_UNKNOWN_TOOL.spec_bytes(),
                            ));
                        },
                        Some(addr) => {
                            let mut rw = Writer::new();
                            rw.s(proxy, PROXY_OPEN);
                            rw.push(proxy, name_q);
                            rw.s(proxy, PROXY_ARGS);
                            rw.push(proxy, args);
                            rw.s(proxy, PROXY_CLOSE);
                            assert(rw.ideal() =~= proxy_request_text(name_q@, args@));
                            if rw.truncated() {
                                rpc_err(&mut w, out, id, -1, MSG_ARGS_TOO_LARGE);
                                assert(w.ideal() =~= rpc_err_text(
                                    id@,
                                    -1,
                                    MSG_ARGS_TOO_LARGE.spec_bytes(),
                                ));
                            } else {
                                return GatewayStep::Proxy { addr, id, len: rw.pos() };
                            }
                        },
                    },
                }
            } else {
                rpc_err(&mut w, out, id, -32601, MSG_METHOD_NOT_FOUND);
                assert(w.ideal() =~= rpc_err_text(
                    id@,
                    -32601,
                    MSG_METHOD_NOT_FOUND.spec_bytes(),
                ));
            }
            GatewayStep::Done(w.finish())
        },
    }
}

/// Why a leaf address is refused before anyone is asked: it is empty, or
/// longer than [`LEAF_ADDR_MAX`] bytes.
pub open spec fn leaf_addr_error(addr: Seq<u8>) -> Option<&'static str> {
    if addr.len() == 0 {
        Some("leaf address is empty")
    } else if addr.len() > LEAF_ADDR_MAX {
        Some("leaf address exceeds LEAF_ADDR_MAX bytes")
    } else {
        None
    }
}

/// Check a leaf address before connecting to it.
pub fn check_leaf_addr(addr: &str) -> (r: Result<(), &'static str>)
    ensures
        match leaf_addr_error(addr.spec_bytes()) {
            Some(m) => r == Err::<(), &'static str>(m),
            None => r is Ok,
        },
{
    let addr_len = addr.as_bytes().len();
    if addr_len == 0 {
        return Err("leaf address is empty");
    }
    if addr_len > LEAF_ADDR_MAX {
        return Err("leaf address exceeds LEAF_ADDR_MAX bytes");
    }
    Ok(())
}

/// Add the leaf at `addr` whose `tools/list` reply was `reply`.
fn add_leaf_with<const L: usize, const T: usize, const B: usize, const A: usize>(
    inner: &mut GatewayInner<L, T, B, A>,
    addr: &str,
    reply: &[u8],
) -> (r: Result<(), &'static str>)
    requires
        old(inner).wf(),
    ensures
        final(inner).wf(),
        match add_leaf_outcome(old(inner).view(), addr.spec_bytes(), reply@, L as nat, T as nat, B as nat, A as nat) {
            Ok(v) => r is Ok && final(inner).view() == v,
            Err((v, m)) => r == Err::<(), &'static str>(m) && final(inner).view() == v,
        },
{
    match check_leaf_addr(addr) {
        Ok(()) => {},
        Err(m) => {
            return Err(m);
        },
    }
    let tools_arr = match parse_tools_array(reply) {
        Ok(t) => t,
        Err(m) => {
            return Err(m);
        },
    };
    inner.commit_leaf(addr, tools_arr)
}

/// Adding the leaf at `addr` whose `tools/list` reply was `reply`: the new
/// table, or the table after the failure and why it failed.
pub open spec fn add_leaf_outcome(
    v: InnerView,
    addr: Seq<u8>,
    reply: Seq<u8>,
    l: nat,
    t: nat,
    b: nat,
    a: nat,
) -> Result<InnerView, (InnerView, &'static str)> {
    match leaf_addr_error(addr) {
        Some(m) => Err((v, m)),
        None => match tools_array(reply) {
            Err(m) => Err((v, m)),
            Ok(arr) => match commit_view(v, addr, arr, l, t, b, a) {
                Ok(v2) => Ok(v2),
                Err(m) => Err((commit_rollback(v, l), m)),
            },
        },
    }
}

// ---------------------------------------------------------------------------
// Gateway
// ---------------------------------------------------------------------------

/// A gateway whose leaves are added up front.
///
/// - `L`: most leaves
/// - `T`: most tools over all leaves
/// - `B`: bytes for the cached tools-list entries
/// - `C`: how leaves are reached (carried for the caller that talks to them)
/// - `A`: bytes for leaf addresses, tool names and descriptions
pub struct Gateway<const L: usize, const T: usize, const B: usize, C, const A: usize> {
    pub inner: GatewayInner<L, T, B, A>,
    connector: C,
}

impl<const L: usize, const T: usize, const B: usize, C, const A: usize> Gateway<L, T, B, C, A> {
    pub closed spec fn wf(&self) -> bool {
        self.inner.wf()
    }

    /// The routing table.
    pub closed spec fn table(&self) -> InnerView {
        self.inner.view()
    }

    /// A gateway with no leaves and connector `C::default()`.
    pub fn new() -> (g: Self) where C: Default
        requires
            L <= 255,
            T <= 255,
            B <= 65535,
        ensures
            g.wf(),
            g.table().leaves.len() == 0,
            g.table().routes.len() == 0,
            g.table().json.len() == 0,
            consistent(g.table(), L as nat, B as nat),
    {
        Self::with_connector(C::default())
    }

    /// A gateway with no leaves that reaches them with `connector`.
    pub fn with_connector(connector: C) -> (g: Self)
        requires
            L <= 255,
            T <= 255,
            B <= 65535,
        ensures
            g.wf(),
            g.connector() == connector,
            g.table().leaves.len() == 0,
            g.table().routes.len() == 0,
            g.table().json.len() == 0,
            consistent(g.table(), L as nat, B as nat),
    {
        let g = Gateway { inner: GatewayInner::new(), connector };
        proof {
            lemma_new_table_consistent(g.inner.view(), L as nat, B as nat);
        }
        g
    }

    pub closed spec fn connector(&self) -> C {
        self.connector
    }

    /// How leaves are reached.
    pub fn leaf_connector(&self) -> (r: &C)
        ensures
            *r == self.connector(),
    {
        &self.connector
    }

    /// Add the leaf at `addr`, given its `tools/list` reply (after a
    /// successful `initialize`). On error the table is rolled back: no leaf
    /// slot and no route of the leaf remain.
    pub fn add_leaf(&mut self, addr: &str, tools_reply: &[u8]) -> (r: Result<(), &'static str>)
        requires
            old(self).wf(),
        ensures
            final(self).wf(),
            final(self).connector() == old(self).connector(),
            match add_leaf_outcome(old(self).table(), addr.spec_bytes(), tools_reply@, L as nat, T as nat, B as nat, A as nat) {
                Ok(v) => r is Ok && final(self).table() == v,
                Err((v, m)) => r == Err::<(), &'static str>(m) && final(self).table() == v,
            },
            consistent(old(self).table(), L as nat, B as nat) ==> consistent(final(self).table(), L as nat, B as nat),
            consistent(old(self).table(), L as nat, B as nat) && r is Err ==> final(self).table() == old(self).table(),
    {
        proof {
            if consistent(old(self).table(), L as nat, B as nat) {
                old(self).inner.lemma_limits();
                law_table_stays_consistent(old(self).table(), addr.spec_bytes(), tools_reply@, L as nat, T as nat, B as nat, A as nat);
                law_failed_add_leaves_table(old(self).table(), addr.spec_bytes(), tools_reply@, L as nat, T as nat, B as nat, A as nat);
            }
        }
        add_leaf_with(&mut self.inner, addr, tools_reply)
    }

    /// Answer one JSON-RPC message. A `tools/call` for a known tool is
    /// forwarded: its request is written into `proxy` and the step says
    /// where to send it.
    pub fn handle<'g, 'm>(&'g self, msg: &'m [u8], out: &mut [u8], proxy: &mut [u8]) -> (r: GatewayStep<'g, 'm>)
        requires
            self.wf(),
        ensures
            final(out)@.len() == old(out)@.len(),
            final(proxy)@.len() == old(proxy)@.len(),
            gateway_reply(self.table(), msg@, old(proxy)@.len()) is Silent ==> final(out)@ == old(out)@ && final(proxy)@
                == old(proxy)@,
            step_matches(
                gateway_reply(self.table(), msg@, old(proxy)@.len()),
                r,
                old(out)@.len(),
                final(out)@,
                final(proxy)@,
            ),
    {
        handle_with(&self.inner, msg, out, proxy)
    }
}


// ---------------------------------------------------------------------------
// DynamicGateway
// ---------------------------------------------------------------------------

/// A gateway whose leaves come and go while clients are connected. Every
/// successful add or remove bumps the epoch; the caller that shares the
/// gateway between threads then tells its clients the tool list changed.
pub struct DynamicGateway<const L: usize, const T: usize, const B: usize, C, const A: usize> {
    pub inner: GatewayInner<L, T, B, A>,
    epoch: u64,
    connector: C,
}

impl<const L: usize, const T: usize, const B: usize, C, const A: usize> DynamicGateway<L, T, B, C, A> {
    pub closed spec fn wf(&self) -> bool {
        self.inner.wf()
    }

    /// The routing table.
    pub closed spec fn table(&self) -> InnerView {
        self.inner.view()
    }

    pub closed spec fn spec_epoch(&self) -> u64 {
        self.epoch
    }

    pub closed spec fn connector(&self) -> C {
        self.connector
    }

    pub fn new() -> (g: Self) where C: Default
        requires
            L <= 255,
            T <= 255,
            B <= 65535,
        ensures
            g.wf(),
            g.spec_epoch() == 0,
            g.table().leaves.len() == 0,
            g.table().routes.len() == 0,
            g.table().json.len() == 0,
            consistent(g.table(), L as nat, B as nat),
    {
        Self::with_connector(C::default())
    }

    pub fn with_connector(connector: C) -> (g: Self)
        requires
            L <= 255,
            T <= 255,
            B <= 65535,
        ensures
            g.wf(),
            g.spec_epoch() == 0,
            g.connector() == connector,
            g.table().leaves.len() == 0,
            g.table().routes.len() == 0,
            g.table().json.len() == 0,
            consistent(g.table(), L as nat, B as nat),
    {
        let g = DynamicGateway { inner: GatewayInner::new(), epoch: 0, connector };
        proof {
            lemma_new_table_consistent(g.inner.view(), L as nat, B as nat);
        }
        g
    }

    /// How leaves are reached.
    pub fn leaf_connector(&self) -> (r: &C)
        ensures
            *r == self.connector(),
    {
        &self.connector
    }

    /// How many successful adds and removes there have been (wrapping).
    pub fn epoch(&self) -> (r: u64)
        ensures
            r == self.spec_epoch(),
    {
        self.epoch
    }

    /// Add the leaf at `addr`, given its `tools/list` reply. The epoch moves
    /// on exactly when the add succeeds.
    pub fn add_leaf(&mut self, addr: &str, tools_reply: &[u8]) -> (r: Result<(), &'static str>)
        requires
            old(self).wf(),
        ensures
            final(self).wf(),
            final(self).connector() == old(self).connector(),
            match add_leaf_outcome(old(self).table(), addr.spec_bytes(), tools_reply@, L as nat, T as nat, B as nat, A as nat) {
                Ok(v) => r is Ok && final(self).table() == v,
                Err((v, m)) => r == Err::<(), &'static str>(m) && final(self).table() == v,
            },
            final(self).spec_epoch() == (if r is Ok {
                old(self).spec_epoch().wrapping_add(1)
            } else {
                old(self).spec_epoch()
            }),
            consistent(old(self).table(), L as nat, B as nat) ==> consistent(final(self).table(), L as nat, B as nat),
            consistent(old(self).table(), L as nat, B as nat) && r is Err ==> final(self).table() == old(self).table(),
    {
        proof {
            if consistent(old(self).table(), L as nat, B as nat) {
                old(self).inner.lemma_limits();
                law_table_stays_consistent(old(self).table(), addr.spec_bytes(), tools_reply@, L as nat, T as nat, B as nat, A as nat);
                law_failed_add_leaves_table(old(self).table(), addr.spec_bytes(), tools_reply@, L as nat, T as nat, B as nat, A as nat);
            }
        }
        let r = add_leaf_with(&mut self.inner, addr, tools_reply);
        if r.is_ok() {
            self.epoch = self.epoch.wrapping_add(1);
        }
        r
    }

    /// Remove the leaf at `addr`. The epoch moves on exactly when it was
    /// there.
    pub fn remove_leaf(&mut self, addr: &str) -> (r: Result<(), &'static str>)
        requires
            old(self).wf(),
        ensures
            final(self).wf(),
            final(self).connector() == old(self).connector(),
            final(self).table() == remove_view(old(self).table(), addr.spec_bytes(), B as nat).0,
            r == remove_view(old(self).table(), addr.spec_bytes(), B as nat).1,
            final(self).spec_epoch() == (if r is Ok {
                old(self).spec_epoch().wrapping_add(1)
            } else {
                old(self).spec_epoch()
            }),
            consistent(old(self).table(), L as nat, B as nat) ==> consistent(final(self).table(), L as nat, B as nat),
    {
        proof {
            if consistent(old(self).table(), L as nat, B as nat) {
                old(self).inner.lemma_limits();
                law_table_stays_consistent(old(self).table(), addr.spec_bytes(), Seq::empty(), L as nat, T as nat, B as nat, A as nat);
            }
        }
        let r = self.inner.remove_leaf_inner(addr);
        if r.is_ok() {
            self.epoch = self.epoch.wrapping_add(1);
        }
        r
    }

    /// Answer one JSON-RPC message, as [`Gateway::handle`] does.
    pub fn handle<'g, 'm>(&'g self, msg: &'m [u8], out: &mut [u8], proxy: &mut [u8]) -> (r: GatewayStep<'g, 'm>)
        requires
            self.wf(),
        ensures
            final(out)@.len() == old(out)@.len(),
            final(proxy)@.len() == old(proxy)@.len(),
            gateway_reply(self.table(), msg@, old(proxy)@.len()) is Silent ==> final(out)@ == old(out)@ && final(proxy)@
                == old(proxy)@,
            step_matches(
                gateway_reply(self.table(), msg@, old(proxy)@.len()),
                r,
                old(out)@.len(),
                final(out)@,
                final(proxy)@,
            ),
    {
        handle_with(&self.inner, msg, out, proxy)
    }
}


/// A table with no leaves, routes or cached entries and no arena bytes in
/// use is consistent.
proof fn lemma_new_table_consistent(v: InnerView, l: nat, b: nat)
    requires
        v.leaves.len() == 0,
        v.routes.len() == 0,
        v.used == 0,
        v.json.len() == 0,
    ensures
        consistent(v, l, b),
{
    assert(v.json =~= render(v.routes));
}

/// The epoch after a run of adds and removes, from `e`, where `oks` says
/// which of them succeeded.
pub open spec fn epoch_after(e: u64, oks: Seq<bool>) -> u64
    decreases oks.len(),
{
    if oks.len() == 0 {
        e
    } else if oks.last() {
        epoch_after(e, oks.drop_last()).wrapping_add(1)
    } else {
        epoch_after(e, oks.drop_last())
    }
}

/// The number of `true` among `oks`.
pub open spec fn successes(oks: Seq<bool>) -> nat
    decreases oks.len(),
{
    if oks.len() == 0 {
        0
    } else {
        successes(oks.drop_last()) + if oks.last() {
            1nat
        } else {
            0nat
        }
    }
}

/// The epoch counts the successful adds and removes, modulo 2^64: failed
/// ones leave it alone.
pub proof fn law_epoch_counts_changes(e: u64, oks: Seq<bool>)
    ensures
        epoch_after(e, oks) as int == (e + successes(oks)) % 0x1_0000_0000_0000_0000,
    decreases oks.len(),
{
    if oks.len() > 0 {
        law_epoch_counts_changes(e, oks.drop_last());
        let prev = epoch_after(e, oks.drop_last());
        let k = e + successes(oks.drop_last());
        if oks.last() {
            assert(prev.wrapping_add(1) as int == (prev + 1) % 0x1_0000_0000_0000_0000) by {
                if prev == u64::MAX {
                } else {
                }
            }
            assert(((k % 0x1_0000_0000_0000_0000) + 1) % 0x1_0000_0000_0000_0000 == (k + 1)
                % 0x1_0000_0000_0000_0000) by (nonlinear_arith)
                requires
                    k >= 0,
            ;
        }
    }
}

/// A dynamic gateway answers every message as a static gateway with the same
/// routing table does.
pub proof fn law_dynamic_answers_as_static<
    const L: usize,
    const T: usize,
    const B: usize,
    C,
    const A: usize,
    D,
>(g: Gateway<L, T, B, C, A>, d: DynamicGateway<L, T, B, D, A>, msg: Seq<u8>, cap: nat)
    requires
        g.table() == d.table(),
    ensures
        gateway_reply(g.table(), msg, cap) == gateway_reply(d.table(), msg, cap),
{
}

} // verus!
