//! The fixed JSON-RPC reply shapes, as byte-sequence specifications and as
//! writes through a [`Writer`].

use vstd::prelude::*;
use vstd::string::StringSliceAdditionalSpecFns;
use crate::writer::{Writer, json_escape, int_text};

verus! {

/// Opening of every reply, up to the request id.
pub const ID_OPEN: &'static str = "{\"jsonrpc\":\"2.0\",\"id\":";
pub const LIST_OPEN: &'static str = ",\"result\":{\"tools\":[";
pub const LIST_CLOSE: &'static str = "]}}";
pub const SEP: &'static str = ",";
pub const TOOL_NAME: &'static str = "{\"name\":\"";
pub const TOOL_DESC: &'static str = "\",\"description\":\"";
pub const TOOL_TAIL: &'static str = "\",\"inputSchema\":{\"type\":\"object\"}}";
pub const TEXT_OPEN: &'static str = ",\"result\":{\"content\":[{\"type\":\"text\",\"text\":\"";
pub const TEXT_CLOSE: &'static str = "\"}]}}";
pub const TOOL_ERR_OPEN: &'static str = ",\"error\":{\"code\":-1,\"message\":\"";
pub const TOOL_ERR_CLOSE: &'static str = "\"}}";
pub const ERR_CODE: &'static str = ",\"error\":{\"code\":";
pub const ERR_MESSAGE: &'static str = ",\"message\":\"";
pub const ERR_CLOSE: &'static str = "\"}}";
pub const PARSE_ERROR: &'static str = "{\"jsonrpc\":\"2.0\",\"id\":null,\"error\":{\"code\":-32700,\"message\":\"parse error\"}}";
pub const INIT_TAIL: &'static str = ",\"result\":{\"protocolVersion\":\"2024-11-05\",\"capabilities\":{\"tools\":{}}}}";
pub const INIT_GW_TAIL: &'static str = ",\"result\":{\"protocolVersion\":\"2024-11-05\",\"capabilities\":{\"tools\":{\"listChanged\":true}}}}";

/// Method names as they appear on the wire, quotes included.
pub const M_INITIALIZE: &'static str = "\"initialize\"";
pub const M_TOOLS_LIST: &'static str = "\"tools/list\"";
pub const M_TOOLS_CALL: &'static str = "\"tools/call\"";

pub const MSG_METHOD_NOT_FOUND: &'static str = "method not found";
pub const MSG_BAD_PARAMS: &'static str = "bad params";
pub const MSG_UNKNOWN_TOOL: &'static str = "unknown tool";

/// Constant bytes `write_tool_raw` adds around a name and a description.
pub const TOOL_JSON_OVERHEAD: usize = 60;

pub open spec fn nl_bytes() -> Seq<u8> {
    seq![10u8]
}

/// One tools/list entry around already-escaped name and description bytes.
pub open spec fn tool_entry(name: Seq<u8>, desc: Seq<u8>) -> Seq<u8> {
    TOOL_NAME.spec_bytes() + name + TOOL_DESC.spec_bytes() + desc + TOOL_TAIL.spec_bytes()
}

/// An error reply with a numeric code and an escaped message.
pub open spec fn rpc_err_text(id: Seq<u8>, code: int, msg: Seq<u8>) -> Seq<u8> {
    ID_OPEN.spec_bytes() + id + ERR_CODE.spec_bytes() + int_text(code) + ERR_MESSAGE.spec_bytes()
        + json_escape(msg) + ERR_CLOSE.spec_bytes() + nl_bytes()
}

pub open spec fn parse_error_text() -> Seq<u8> {
    PARSE_ERROR.spec_bytes() + nl_bytes()
}

pub open spec fn initialize_text(id: Seq<u8>) -> Seq<u8> {
    ID_OPEN.spec_bytes() + id + INIT_TAIL.spec_bytes() + nl_bytes()
}

pub open spec fn initialize_gateway_text(id: Seq<u8>) -> Seq<u8> {
    ID_OPEN.spec_bytes() + id + INIT_GW_TAIL.spec_bytes() + nl_bytes()
}

/// A tools/list reply around the comma-joined entries.
pub open spec fn tools_list_text(id: Seq<u8>, entries: Seq<u8>) -> Seq<u8> {
    ID_OPEN.spec_bytes() + id + LIST_OPEN.spec_bytes() + entries + LIST_CLOSE.spec_bytes()
        + nl_bytes()
}

/// The length of a whole reply frame written into a buffer of `cap` bytes:
/// the frame's length when it fits, 0 when it does not.
pub open spec fn frame_len(frame: Seq<u8>, cap: nat) -> nat {
    if frame.len() <= cap {
        frame.len()
    } else {
        0
    }
}

/// `n` bytes of `out` hold `frame` whole, or `n` is 0 because it did not fit.
pub open spec fn wrote_frame(frame: Seq<u8>, cap: nat, out: Seq<u8>, n: nat) -> bool {
    &&& n == frame_len(frame, cap)
    &&& n > 0 ==> out.subrange(0, n as int) == frame
}

/// `frame` opens with the reply opening and `id`, and ends with a newline.
pub open spec fn echoes_id(frame: Seq<u8>, id: Seq<u8>) -> bool {
    let head = ID_OPEN.spec_bytes() + id;
    &&& head.len() < frame.len()
    &&& frame.subrange(0, head.len() as int) == head
    &&& frame.last() == 10
}

/// A frame built as the opening, `id`, a body and a newline echoes `id`.
pub proof fn lemma_echoes_id(id: Seq<u8>, body: Seq<u8>, frame: Seq<u8>)
    requires
        frame =~= ID_OPEN.spec_bytes() + id + body + nl_bytes(),
    ensures
        echoes_id(frame, id),
{
    let head = ID_OPEN.spec_bytes() + id;
    assert(frame.subrange(0, head.len() as int) =~= head);
}

/// Every error reply echoes its id.
pub proof fn lemma_err_echoes_id(id: Seq<u8>, code: int, msg: Seq<u8>)
    ensures
        echoes_id(rpc_err_text(id, code, msg), id),
{
    lemma_echoes_id(
        id,
        ERR_CODE.spec_bytes() + int_text(code) + ERR_MESSAGE.spec_bytes() + json_escape(msg)
            + ERR_CLOSE.spec_bytes(),
        rpc_err_text(id, code, msg),
    );
}

pub proof fn lemma_tool_entry_len(name: Seq<u8>, desc: Seq<u8>)
    ensures
        tool_entry(name, desc).len() == TOOL_JSON_OVERHEAD + name.len() + desc.len(),
{
    reveal_strlit("{\"name\":\"");
    reveal_strlit("\",\"description\":\"");
    reveal_strlit("\",\"inputSchema\":{\"type\":\"object\"}}");
    assert(vstd::string::is_ascii(TOOL_NAME));
    assert(vstd::string::is_ascii(TOOL_DESC));
    assert(vstd::string::is_ascii(TOOL_TAIL));
    vstd::string::is_ascii_spec_bytes(TOOL_NAME);
    vstd::string::is_ascii_spec_bytes(TOOL_DESC);
    vstd::string::is_ascii_spec_bytes(TOOL_TAIL);
    assert(TOOL_NAME.spec_bytes().len() == 9);
    assert(TOOL_DESC.spec_bytes().len() == 17);
    assert(TOOL_TAIL.spec_bytes().len() == 34);
}

/// Write one tools/list entry, escaping name and description.
pub fn write_tool(w: &mut Writer, buf: &mut [u8], name: &str, desc: &str)
    requires
        old(w).wf(old(buf)@),
    ensures
        final(w).wf(final(buf)@),
        final(buf)@.len() == old(buf)@.len(),
        final(w).ideal() == old(w).ideal() + tool_entry(
            json_escape(name.spec_bytes()),
            json_escape(desc.spec_bytes()),
        ),
{
    w.s(buf, TOOL_NAME);
    w.esc(buf, name);
    w.s(buf, TOOL_DESC);
    w.esc(buf, desc);
    w.s(buf, TOOL_TAIL);
    assert(final(w).ideal() =~= old(w).ideal() + tool_entry(
        json_escape(name.spec_bytes()),
        json_escape(desc.spec_bytes()),
    ));
}

/// Write one tools/list entry whose name and description are already JSON
/// string content.
pub fn write_tool_raw(w: &mut Writer, buf: &mut [u8], name: &[u8], desc_raw: &[u8])
    requires
        old(w).wf(old(buf)@),
    ensures
        final(w).wf(final(buf)@),
        final(buf)@.len() == old(buf)@.len(),
        final(w).ideal() == old(w).ideal() + tool_entry(name@, desc_raw@),
{
    w.s(buf, TOOL_NAME);
    w.push(buf, name);
    w.s(buf, TOOL_DESC);
    w.push(buf, desc_raw);
    w.s(buf, TOOL_TAIL);
    assert(final(w).ideal() =~= old(w).ideal() + tool_entry(name@, desc_raw@));
}

/// Write a JSON-RPC error reply.
pub fn rpc_err(w: &mut Writer, buf: &mut [u8], id: &[u8], code: i32, msg: &str)
    requires
        old(w).wf(old(buf)@),
    ensures
        final(w).wf(final(buf)@),
        final(buf)@.len() == old(buf)@.len(),
        final(w).ideal() == old(w).ideal() + rpc_err_text(id@, code as int, msg.spec_bytes()),
{
    w.s(buf, ID_OPEN);
    w.push(buf, id);
    w.s(buf, ERR_CODE);
    w.i(buf, code);
    w.s(buf, ERR_MESSAGE);
    w.esc(buf, msg);
    w.s(buf, ERR_CLOSE);
    w.nl(buf);
    assert(final(w).ideal() =~= old(w).ideal() + rpc_err_text(
        id@,
        code as int,
        msg.spec_bytes(),
    ));
}

/// The parse-error reply (id null, code -32700). Returns the bytes written,
/// or 0 when `out` cannot hold it.
pub fn write_parse_error(out: &mut [u8]) -> (n: usize)
    ensures
        final(out)@.len() == old(out)@.len(),
        n == frame_len(parse_error_text(), old(out)@.len()),
        n > 0 ==> final(out)@.subrange(0, n as int) == parse_error_text(),
{
    let mut w = Writer::new();
    w.s(out, PARSE_ERROR);
    w.nl(out);
    assert(w.ideal() =~= parse_error_text());
    w.finish()
}

/// The `initialize` reply of a local runtime.
pub fn write_initialize(w: &mut Writer, buf: &mut [u8], id: &[u8])
    requires
        old(w).wf(old(buf)@),
    ensures
        final(w).wf(final(buf)@),
        final(buf)@.len() == old(buf)@.len(),
        final(w).ideal() == old(w).ideal() + initialize_text(id@),
{
    w.s(buf, ID_OPEN);
    w.push(buf, id);
    w.s(buf, INIT_TAIL);
    w.nl(buf);
    assert(final(w).ideal() =~= old(w).ideal() + initialize_text(id@));
}

/// The `initialize` reply of a gateway, which declares `listChanged`.
pub fn write_initialize_gateway(w: &mut Writer, buf: &mut [u8], id: &[u8])
    requires
        old(w).wf(old(buf)@),
    ensures
        final(w).wf(final(buf)@),
        final(buf)@.len() == old(buf)@.len(),
        final(w).ideal() == old(w).ideal() + initialize_gateway_text(id@),
{
    w.s(buf, ID_OPEN);
    w.push(buf, id);
    w.s(buf, INIT_GW_TAIL);
    w.nl(buf);
    assert(final(w).ideal() =~= old(w).ideal() + initialize_gateway_text(id@));
}

} // verus!
