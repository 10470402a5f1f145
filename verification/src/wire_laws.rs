//! Properties of what goes over the wire: which bytes count as JSON white
//! space, what a `tools/call` hands on, what a leaf's tool list yields, and
//! the shape of the cached tools list.

use vstd::prelude::*;
use vstd::string::StringSliceAdditionalSpecFns;
use vstd::utf8::valid_utf8;
use crate::gateway::{gateway_call_params, gateway_reply, proxy_request_text, GatewayReply};
use crate::json::{lemma_skip_ws, obj_first, obj_last, pair_at, skip_ws, spec_classify, str_close, val_end, SpecMsg};
use crate::routes::{add_route_view, entry_at, first_free_route, process_entries, render, EntryStep, RouteView};
use crate::rpc::{lemma_tool_entry_len, tool_entry};
use crate::runtime::{call_params, call_reply_text, first_listing, outcome_of, runtime_reply, Provider, Reply, Runtime};
use crate::routes::{route_addr, InnerView};
use crate::rpc::{M_INITIALIZE, M_TOOLS_CALL, M_TOOLS_LIST};

verus! {

/// Skipping white space passes over exactly the JSON white-space bytes
/// (space, tab, line feed, carriage return) and stops at the first other
/// byte or at the end.
pub proof fn law_skip_ws_is_json_whitespace(b: Seq<u8>, p: int)
    requires
        0 <= p <= b.len(),
    ensures
        p <= skip_ws(b, p) <= b.len(),
        forall|i: int|
            p <= i < skip_ws(b, p) ==> {
                let c = #[trigger] b[i];
                c == 32u8 || c == 9u8 || c == 10u8 || c == 13u8
            },
        skip_ws(b, p) < b.len() ==> {
            let c = b[skip_ws(b, p)];
            c != 32u8 && c != 9u8 && c != 10u8 && c != 13u8
        },
{
    lemma_skip_ws(b, p);
}

/// JSON white space: space, tab, line feed, carriage return.
pub open spec fn json_space(c: u8) -> bool {
    c == 32u8 || c == 9u8 || c == 10u8 || c == 13u8
}

/// Skipping from `p` over a run of JSON white space ends where the run ends.
pub proof fn lemma_skip_ws_to(b: Seq<u8>, p: int, k: int)
    requires
        0 <= p <= k <= b.len(),
        forall|i: int| p <= i < k ==> json_space(#[trigger] b[i]),
        k < b.len() ==> !json_space(b[k]),
    ensures
        skip_ws(b, p) == k,
    decreases k - p,
{
    if p < k {
        lemma_skip_ws_to(b, p + 1, k);
    }
}

/// An object member is read whatever JSON white space stands before its key,
/// around its colon and before its value: `"key"`, then `:`, then the value.
pub proof fn law_member_read_across_whitespace(b: Seq<u8>, p: int, ks: int, ke: int, c: int, v0: int, v1: int)
    requires
        0 <= p <= ks < b.len(),
        forall|i: int| p <= i < ks ==> json_space(#[trigger] b[i]),
        b[ks] == 34u8,
        str_close(b, ks + 1) == Some(ke),
        ke <= c < b.len(),
        forall|i: int| ke <= i < c ==> json_space(#[trigger] b[i]),
        b[c] == 58u8,
        c < v0 < b.len(),
        forall|i: int| c < i < v0 ==> json_space(#[trigger] b[i]),
        !json_space(b[v0]),
        val_end(b, v0) == Some(v1),
    ensures
        pair_at(b, p) matches Some(t) && t.0 == ks + 1 && t.1 == ke - 1 && t.2 == v0 && t.3 == v1,
{
    crate::json::lemma_str_close(b, ks + 1);
    lemma_skip_ws_to(b, p, ks);
    lemma_skip_ws_to(b, ke, c);
    lemma_skip_ws_to(b, c + 1, v0);
}

/// `{}`, the arguments of a call that gives none.
proof fn lemma_empty_object_bytes()
    ensures
        "{}".spec_bytes() == seq![123u8, 125u8],
{
    reveal_strlit("{}");
    assert(vstd::string::is_ascii("{}"));
    vstd::string::is_ascii_spec_bytes("{}");
    assert("{}".spec_bytes() =~= seq![123u8, 125u8]);
}

/// A `tools/call` is answered for the tool whose name is the `name` member's
/// string, quotes removed (when it is valid UTF-8), and the provider
/// receives the request's `arguments` member byte for byte, or `{}` when
/// there is none.
pub proof fn law_call_params_passes_arguments(p: Seq<u8>)
    ensures
        call_params(None) is None,
        call_params(Some(p)) is Some <==> (obj_last(p, "name".spec_bytes()) matches Some(q) && q.len() >= 2
            && q[0] == 34u8 && q[q.len() - 1] == 34u8 && valid_utf8(q.subrange(1, q.len() - 1))),
        call_params(Some(p)) matches Some((name, args)) ==> {
            &&& obj_last(p, "name".spec_bytes()) matches Some(q) && name == q.subrange(1, q.len() - 1)
            &&& args == match obj_last(p, "arguments".spec_bytes()) {
                Some(a) => a,
                None => seq![123u8, 125u8],
            }
        },
{
    lemma_empty_object_bytes();
}

/// The three method names are different words.
proof fn lemma_methods_differ()
    ensures
        M_TOOLS_CALL.spec_bytes() != M_INITIALIZE.spec_bytes(),
        M_TOOLS_CALL.spec_bytes() != M_TOOLS_LIST.spec_bytes(),
{
    reveal_strlit("\"initialize\"");
    reveal_strlit("\"tools/list\"");
    reveal_strlit("\"tools/call\"");
    assert(vstd::string::is_ascii(M_INITIALIZE));
    assert(vstd::string::is_ascii(M_TOOLS_LIST));
    assert(vstd::string::is_ascii(M_TOOLS_CALL));
    vstd::string::is_ascii_spec_bytes(M_INITIALIZE);
    vstd::string::is_ascii_spec_bytes(M_TOOLS_LIST);
    vstd::string::is_ascii_spec_bytes(M_TOOLS_CALL);
    assert(M_TOOLS_CALL.spec_bytes()[1] != M_INITIALIZE.spec_bytes()[1]);
    assert(M_TOOLS_CALL.spec_bytes()[7] != M_TOOLS_LIST.spec_bytes()[7]);
}

/// A `tools/call` request whose `name` member is a string is answered by
/// calling that tool with the request's `arguments` member byte for byte,
/// or with `{}` when there is none.
pub proof fn law_tools_call_reaches_provider_with_arguments(
    msg: Seq<u8>,
    id: Seq<u8>,
    p: Seq<u8>,
    q: Seq<u8>,
)
    requires
        spec_classify(msg) == (SpecMsg::Request { id, method: M_TOOLS_CALL.spec_bytes(), params: Some(p) }),
        obj_last(p, "name".spec_bytes()) == Some(q),
        q.len() >= 2,
        q[0] == 34u8,
        q[q.len() - 1] == 34u8,
        valid_utf8(q.subrange(1, q.len() - 1)),
    ensures
        runtime_reply(msg) == (Reply::Call {
            id,
            name: q.subrange(1, q.len() - 1),
            args: match obj_last(p, "arguments".spec_bytes()) {
                Some(a) => a,
                None => seq![123u8, 125u8],
            },
        }),
{
    law_call_params_passes_arguments(p);
    lemma_methods_differ();
}

/// A `tools/call` that some provider's list names is answered with what
/// the first such provider came back with when called with the request's
/// tool name and arguments.
pub proof fn law_call_goes_to_first_listing_provider<'p, const N: usize, const OUT: usize>(
    rt: &Runtime<'p, N, OUT>,
    id: Seq<u8>,
    name: Seq<u8>,
    args: Seq<u8>,
    ls: Seq<Seq<crate::runtime::Tool>>,
    ideal: Seq<u8>,
)
    requires
        rt.answers(Reply::Call { id, name, args }, ls, ideal),
        first_listing(ls, name) is Some,
    ensures
        ({
            let i = first_listing(ls, name).unwrap();
            &&& rt.slots()[i] is Some
            &&& exists|r: Result<(), &'static str>, output: Seq<u8>|
                rt.slots()[i].unwrap().call_ok(name, args, r, output) && ideal == #[trigger] call_reply_text(
                    id,
                    outcome_of(r, output),
                )
        }),
{
}

/// A forwarded `tools/call` names the tool as it was quoted in the request
/// and carries the request's `arguments` member byte for byte, or `{}` when
/// there is none.
pub proof fn law_gateway_call_params_passes_arguments(p: Seq<u8>)
    ensures
        gateway_call_params(None) is None,
        gateway_call_params(Some(p)) is Some <==> (obj_last(p, "name".spec_bytes()) matches Some(q)
            && q.len() >= 2 && q[0] == 34u8 && q[q.len() - 1] == 34u8),
        gateway_call_params(Some(p)) matches Some((q, name, args)) ==> {
            &&& obj_last(p, "name".spec_bytes()) == Some(q)
            &&& name == q.subrange(1, q.len() - 1)
            &&& args == match obj_last(p, "arguments".spec_bytes()) {
                Some(a) => a,
                None => seq![123u8, 125u8],
            }
        },
{
    lemma_empty_object_bytes();
}

/// A tool read from a leaf's tools array carries the tool object's `name`
/// string and its `description` string, quotes removed; a description that
/// is missing or not a string reads as empty.
pub proof fn law_entry_carries_name_and_description(arr: Seq<u8>, p: int)
    ensures
        entry_at(arr, p) matches EntryStep::Entry(name, desc, e) ==> {
            let obj = arr.subrange(skip_ws(arr, p), e);
            &&& obj_first(obj, "name".spec_bytes()) matches Some(q) && q.len() >= 2 && q[0] == 34u8
                && q[q.len() - 1] == 34u8 && name == q.subrange(1, q.len() - 1)
            &&& match obj_first(obj, "description".spec_bytes()) {
                Some(d) => if d.len() >= 2 && d[0] == 34u8 && d[d.len() - 1] == 34u8 {
                    desc == d.subrange(1, d.len() - 1)
                } else {
                    desc.len() == 0
                },
                None => desc.len() == 0,
            }
        },
{
}

/// A `tools/call` for a tool the gateway routes to a leaf is forwarded to
/// that leaf with the tool name as quoted in the request and the request's
/// `arguments` member byte for byte (or `{}`), when the request fits.
pub proof fn law_tools_call_forwards_arguments(
    v: InnerView,
    msg: Seq<u8>,
    cap: nat,
    id: Seq<u8>,
    p: Seq<u8>,
    q: Seq<u8>,
    addr: Seq<u8>,
)
    requires
        spec_classify(msg) == (SpecMsg::Request { id, method: M_TOOLS_CALL.spec_bytes(), params: Some(p) }),
        obj_last(p, "name".spec_bytes()) == Some(q),
        q.len() >= 2,
        q[0] == 34u8,
        q[q.len() - 1] == 34u8,
        route_addr(v, q.subrange(1, q.len() - 1)) == Some(addr),
    ensures
        ({
            let args = match obj_last(p, "arguments".spec_bytes()) {
                Some(a) => a,
                None => seq![123u8, 125u8],
            };
            proxy_request_text(q, args).len() <= cap ==> gateway_reply(v, msg, cap) == (GatewayReply::Proxy {
                addr,
                id,
                request: proxy_request_text(q, args),
            })
        }),
{
    law_gateway_call_params_passes_arguments(p);
    lemma_methods_differ();
}

/// A tool that is registered is stored with exactly the name, description
/// and leaf it was given, in a slot that was free or new, and every other
/// route is kept.
pub proof fn law_registered_route_is_as_given(
    v: InnerView,
    name: Seq<u8>,
    desc: Seq<u8>,
    leaf: u8,
    t: nat,
    a: nat,
)
    ensures
        add_route_view(v, name, desc, leaf, t, a) matches (v2, Ok(_)) ==> exists|i: int|
            0 <= i < v2.routes.len() && (i < v.routes.len() ==> v.routes[i] is None)
                && #[trigger] v2.routes[i] == Some(RouteView { name, desc, leaf })
                && v2.routes.len() <= v.routes.len() + 1
                && forall|j: int| 0 <= j < v.routes.len() && j != i ==> v2.routes[j] == v.routes[j],
{
    crate::route_laws::lemma_first_free_route(v.routes, 0);
    if let (v2, Ok(_)) = add_route_view(v, name, desc, leaf, t, a) {
        let i = match first_free_route(v.routes, 0) {
            Some(s) => s,
            None => v.routes.len() as int,
        };
        assert(v2.routes[i] == Some(RouteView { name, desc, leaf }));
    }
}

/// When a leaf's tools are all registered, the tool read at `p` is among
/// the routes with exactly the name and description the leaf gave, for
/// that leaf.
pub proof fn law_listed_tool_is_registered(v: InnerView, arr: Seq<u8>, p: int, leaf: u8, t: nat, a: nat)
    requires
        0 <= p <= arr.len(),
    ensures
        entry_at(arr, p) matches EntryStep::Entry(name, desc, n) ==> (process_entries(v, arr, p, leaf, t, a) is Ok
            ==> exists|i: int|
            0 <= i < process_entries(v, arr, p, leaf, t, a).unwrap().routes.len()
                && #[trigger] process_entries(v, arr, p, leaf, t, a).unwrap().routes[i] == Some(
                RouteView { name, desc, leaf },
            )),
{
    if let EntryStep::Entry(name, desc, n) = entry_at(arr, p) {
        if process_entries(v, arr, p, leaf, t, a) is Ok {
            crate::routes::lemma_entry_at(arr, p);
            law_registered_route_is_as_given(v, name, desc, leaf, t, a);
            let v1 = add_route_view(v, name, desc, leaf, t, a).0;
            let i = choose|i: int|
                0 <= i < v1.routes.len() && (i < v.routes.len() ==> v.routes[i] is None)
                    && #[trigger] v1.routes[i] == Some(RouteView { name, desc, leaf })
                    && v1.routes.len() <= v.routes.len() + 1
                    && forall|j: int| 0 <= j < v.routes.len() && j != i ==> v1.routes[j] == v.routes[j];
            assert(crate::route_laws::grown_by(v1.routes, v1.routes, leaf));
            crate::route_laws::lemma_process_grows(v1, v1.routes, arr, n, leaf, t, a);
            let v2 = process_entries(v, arr, p, leaf, t, a).unwrap();
            assert(v2.routes[i] == v1.routes[i]);
        }
    }
}

/// The list separator is one comma.
proof fn lemma_comma_bytes()
    ensures
        crate::rpc::SEP.spec_bytes() == seq![44u8],
{
    reveal_strlit(",");
    assert(vstd::string::is_ascii(crate::rpc::SEP));
    vstd::string::is_ascii_spec_bytes(crate::rpc::SEP);
    assert(crate::rpc::SEP.spec_bytes() =~= seq![44u8]);
}

/// The tools-list entries of the live routes among `rs`, in slot order.
pub open spec fn live_entries(rs: Seq<Option<RouteView>>) -> Seq<Seq<u8>>
    decreases rs.len(),
{
    if rs.len() == 0 {
        seq![]
    } else {
        match rs.last() {
            None => live_entries(rs.drop_last()),
            Some(r) => live_entries(rs.drop_last()).push(tool_entry(r.name, r.desc)),
        }
    }
}

/// The parts `es` joined with commas.
pub open spec fn comma_join(es: Seq<Seq<u8>>) -> Seq<u8>
    decreases es.len(),
{
    if es.len() == 0 {
        seq![]
    } else if es.len() == 1 {
        es[0]
    } else {
        comma_join(es.drop_last()) + seq![44u8] + es.last()
    }
}

/// The cached tools list is the entries of the live routes, in slot order,
/// joined with commas: valid JSON array content however many tools there
/// are.
pub proof fn law_render_is_comma_join(rs: Seq<Option<RouteView>>)
    ensures
        render(rs) == comma_join(live_entries(rs)),
        render(rs).len() == 0 <==> live_entries(rs).len() == 0,
    decreases rs.len(),
{
    if rs.len() > 0 {
        law_render_is_comma_join(rs.drop_last());
        if let Some(r) = rs.last() {
            lemma_tool_entry_len(r.name, r.desc);
            let es = live_entries(rs.drop_last());
            assert(live_entries(rs) == es.push(tool_entry(r.name, r.desc)));
            assert(es.push(tool_entry(r.name, r.desc)).drop_last() =~= es);
            if es.len() > 0 {
                lemma_comma_bytes();
            }
        }
    }
}

} // verus!
