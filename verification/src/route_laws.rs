//! Properties of the routing table that span its operations.

use vstd::prelude::*;
use crate::routes::{
    InnerView, RouteView, EntryStep, add_route_view, first_free_route, process_entries, entry_at,
    render, find_route, route_addr, owned, commit_view, commit_slot, commit_rollback,
    clear_leaf_routes, remove_view, rebuild_view, find_leaf, lemma_first_free_leaf,
    lemma_find_route, live_total, route_total, unique_names, has_route_named, with_routes,
    with_used, lemma_leaf_total_update, lemma_route_total_update,
};
use crate::gateway::add_leaf_outcome;
use vstd::string::StringSliceAdditionalSpecFns;

verus! {

/// `rs` is `base` with free slots filled, and slots appended, only with
/// routes of `leaf` (or left free).
pub open spec fn grown_by(rs: Seq<Option<RouteView>>, base: Seq<Option<RouteView>>, leaf: u8) -> bool {
    &&& rs.len() >= base.len()
    &&& forall|i: int|
        0 <= i < rs.len() ==> (if i < base.len() {
            #[trigger] rs[i] == base[i] || (base[i] is None && rs[i] is Some && rs[i].unwrap().leaf == leaf)
        } else {
            rs[i] is None || (rs[i] is Some && rs[i].unwrap().leaf == leaf)
        })
}

proof fn lemma_add_route_grows(
    v: InnerView,
    base: Seq<Option<RouteView>>,
    name: Seq<u8>,
    desc: Seq<u8>,
    leaf: u8,
    t: nat,
    a: nat,
)
    requires
        grown_by(v.routes, base, leaf),
    ensures
        grown_by(add_route_view(v, name, desc, leaf, t, a).0.routes, base, leaf),
        add_route_view(v, name, desc, leaf, t, a).0.leaves == v.leaves,
{
    lemma_first_free_route(v.routes, 0);
    let free = first_free_route(v.routes, 0);
    let r2 = add_route_view(v, name, desc, leaf, t, a).0.routes;
    assert forall|i: int| 0 <= i < r2.len() implies (if i < base.len() {
        #[trigger] r2[i] == base[i] || (base[i] is None && r2[i] is Some && r2[i].unwrap().leaf == leaf)
    } else {
        r2[i] is None || (r2[i] is Some && r2[i].unwrap().leaf == leaf)
    }) by {
        if i < v.routes.len() {
            assert(v.routes[i] == base[i] || (base[i] is None && v.routes[i] is Some && v.routes[i].unwrap().leaf == leaf) || i >= base.len());
        }
    }
}

pub proof fn lemma_first_free_route(rs: Seq<Option<RouteView>>, i: int)
    requires
        0 <= i,
    ensures
        first_free_route(rs, i) matches Some(s) ==> (i <= s < rs.len() && rs[s] is None),
    decreases rs.len() - i,
{
    if 0 <= i < rs.len() && rs[i] is Some {
        lemma_first_free_route(rs, i + 1);
    }
}

/// Registering a leaf's tools only fills free route slots, or appends
/// slots, with routes of that leaf; the leaf slots stay as they were.
pub proof fn lemma_process_grows(
    v: InnerView,
    base: Seq<Option<RouteView>>,
    arr: Seq<u8>,
    p: int,
    leaf: u8,
    t: nat,
    a: nat,
)
    requires
        grown_by(v.routes, base, leaf),
    ensures
        process_entries(v, arr, p, leaf, t, a) matches Ok(v2) ==> (grown_by(v2.routes, base, leaf)
            && v2.leaves == v.leaves),
    decreases arr.len() - p,
{
    if 0 <= p <= arr.len() {
        match entry_at(arr, p) {
            EntryStep::Skip(n) => {
                if p < n <= arr.len() {
                    lemma_process_grows(v, base, arr, n, leaf, t, a);
                }
            },
            EntryStep::Entry(name, desc, n) => {
                lemma_add_route_grows(v, base, name, desc, leaf, t, a);
                let v2 = add_route_view(v, name, desc, leaf, t, a).0;
                if p < n <= arr.len() {
                    lemma_process_grows(v2, base, arr, n, leaf, t, a);
                }
            },
            _ => {},
        }
    }
}

/// Free slots do not show in the rendered list.
proof fn lemma_render_free_tail(rs: Seq<Option<RouteView>>, k: nat)
    ensures
        render(rs + Seq::new(k, |i: int| None::<RouteView>)) == render(rs),
    decreases k,
{
    let tail = Seq::new(k, |i: int| None::<RouteView>);
    if k == 0 {
        assert(rs + tail =~= rs);
    } else {
        let shorter = Seq::new((k - 1) as nat, |i: int| None::<RouteView>);
        assert((rs + tail).drop_last() =~= rs + shorter);
        lemma_render_free_tail(rs, (k - 1) as nat);
    }
}

proof fn lemma_find_route_free_tail(rs: Seq<Option<RouteView>>, k: nat, name: Seq<u8>, i: int)
    requires
        0 <= i,
    ensures
        find_route(rs + Seq::new(k, |j: int| None::<RouteView>), name, i) == find_route(rs, name, i),
    decreases rs.len() + k - i,
{
    let ext = rs + Seq::new(k, |j: int| None::<RouteView>);
    if i < rs.len() {
        assert(ext[i] == rs[i]);
        lemma_find_route_free_tail(rs, k, name, i + 1);
    } else if i < ext.len() {
        lemma_find_route_free_tail(rs, k, name, i + 1);
    }
}

/// A failed add changes nothing when every route belongs to a leaf in use:
/// the slot it would have taken was free, so no route names it.
pub proof fn law_failed_add_changes_nothing(v: InnerView, l: nat)
    requires
        owned(v),
        l <= 256,
        v.leaves.len() <= l,
    ensures
        commit_rollback(v, l) == v,
{
    lemma_first_free_leaf(v.leaves, 0);
    match commit_slot(v, l) {
        None => {},
        Some(slot) => {
            assert((slot as u8) as int == slot);
            assert(clear_leaf_routes(v.routes, slot as u8) =~= v.routes) by {
                assert forall|i: int| 0 <= i < v.routes.len() implies clear_leaf_routes(
                    v.routes,
                    slot as u8,
                )[i] == v.routes[i] by {
                    if let Some(r) = v.routes[i] {
                        assert(r.leaf < v.leaves.len() && v.leaves[r.leaf as int].len() > 0);
                    }
                }
            }
        },
    }
}

/// Removing a leaf right after adding it gives the tools list back as it
/// was, and every tool name routes where it routed before: the gateway is
/// in the shape it would have if the leaf had never been added. The leaf
/// list and the route table are as they were, followed at most by free
/// entries.
pub proof fn law_remove_undoes_add(
    v: InnerView,
    addr: Seq<u8>,
    arr: Seq<u8>,
    l: nat,
    t: nat,
    b: nat,
    a: nat,
)
    requires
        owned(v),
        v.leaves.len() <= l,
        v.json == render(v.routes),
        v.json.len() <= b,
        l <= 256,
        addr.len() > 0,
        find_leaf(v.leaves, addr, 0) is None,
        commit_view(v, addr, arr, l, t, b, a) is Ok,
    ensures
        remove_view(commit_view(v, addr, arr, l, t, b, a).unwrap(), addr, b).1 is Ok,
        remove_view(commit_view(v, addr, arr, l, t, b, a).unwrap(), addr, b).0.json == v.json,
        remove_view(commit_view(v, addr, arr, l, t, b, a).unwrap(), addr, b).0.used == live_total(v),
        forall|name: Seq<u8>|
            route_addr(
                #[trigger] remove_view(commit_view(v, addr, arr, l, t, b, a).unwrap(), addr, b).0,
                name,
            ) == route_addr(v, name),
        ({
            let after = remove_view(commit_view(v, addr, arr, l, t, b, a).unwrap(), addr, b).0;
            &&& v.leaves.len() <= after.leaves.len()
            &&& after.leaves.subrange(0, v.leaves.len() as int) == v.leaves
            &&& forall|i: int| v.leaves.len() <= i < after.leaves.len() ==> (#[trigger] after.leaves[i]).len() == 0
            &&& v.routes.len() <= after.routes.len()
            &&& after.routes.subrange(0, v.routes.len() as int) == v.routes
            &&& forall|i: int| v.routes.len() <= i < after.routes.len() ==> (#[trigger] after.routes[i]) is None
        }),
{
    lemma_first_free_leaf(v.leaves, 0);
    let slot = commit_slot(v, l).unwrap();
    assert((slot as u8) as int == slot);
    let leaves1 = if slot < v.leaves.len() {
        v.leaves.update(slot, addr)
    } else {
        v.leaves.push(addr)
    };
    let v1 = InnerView { leaves: leaves1, routes: v.routes, used: v.used + addr.len(), json: v.json };
    let q = crate::json::skip_ws(arr, 0);
    let v2 = process_entries(v1, arr, q + 1, slot as u8, t, a).unwrap();
    assert(grown_by(v.routes, v.routes, slot as u8));
    lemma_process_grows(v1, v.routes, arr, q + 1, slot as u8, t, a);
    let v3 = rebuild_view(v2, b).0;
    assert(v3.leaves == leaves1 && v3.routes == v2.routes);
    // The address is found at the new slot, and nowhere before it.
    assert(find_leaf(leaves1, addr, 0) == Some(slot)) by {
        lemma_find_leaf_prefix(v.leaves, leaves1, addr, 0, slot);
    }
    let k = (v2.routes.len() - v.routes.len()) as nat;
    let tail = Seq::new(k, |i: int| None::<RouteView>);
    let cleared = clear_leaf_routes(v2.routes, slot as u8);
    assert(cleared =~= v.routes + tail) by {
        assert forall|i: int| 0 <= i < cleared.len() implies cleared[i] == (v.routes + tail)[i] by {
            if i < v.routes.len() {
                if let Some(r) = v.routes[i] {
                    assert(r.leaf < v.leaves.len() && v.leaves[r.leaf as int].len() > 0);
                    assert(r.leaf as int != slot);
                }
            }
        }
    }
    lemma_render_free_tail(v.routes, k);
    let leaves_f = leaves1.update(slot, Seq::<u8>::empty());
    assert(live_total(remove_view(v3, addr, b).0) == live_total(v)) by {
        lemma_route_total_free_tail(v.routes, k);
        if slot < v.leaves.len() {
            assert(v.leaves[slot] =~= Seq::<u8>::empty());
            assert(leaves_f =~= v.leaves);
        } else {
            assert(leaves_f =~= v.leaves.push(Seq::<u8>::empty()));
            assert(v.leaves.push(Seq::<u8>::empty()).drop_last() =~= v.leaves);
        }
    }
    assert(remove_view(v3, addr, b).0.json == v.json);
    let after = remove_view(v3, addr, b).0;
    assert(after.leaves == leaves_f && after.routes == cleared);
    assert(after.leaves.subrange(0, v.leaves.len() as int) =~= v.leaves) by {
        if slot < v.leaves.len() {
            assert(v.leaves[slot] =~= Seq::<u8>::empty());
        }
    }
    assert(after.routes.subrange(0, v.routes.len() as int) =~= v.routes);
    assert forall|name: Seq<u8>| route_addr(#[trigger] remove_view(v3, addr, b).0, name) == route_addr(v, name) by {
        lemma_find_route_free_tail(v.routes, k, name, 0);
        lemma_find_route(v.routes, name, 0);
        if let Some(i) = find_route(v.routes, name, 0) {
            let r = v.routes[i].unwrap();
            assert(r.leaf < v.leaves.len() && v.leaves[r.leaf as int].len() > 0);
            assert(leaves_f[r.leaf as int] == v.leaves[r.leaf as int]);
        }
    }
}

proof fn lemma_find_leaf_prefix(
    old_ls: Seq<Seq<u8>>,
    new_ls: Seq<Seq<u8>>,
    addr: Seq<u8>,
    i: int,
    slot: int,
)
    requires
        0 <= i <= slot,
        slot <= old_ls.len(),
        slot < new_ls.len(),
        new_ls[slot] == addr,
        addr.len() > 0,
        forall|j: int| 0 <= j < slot ==> #[trigger] new_ls[j] == old_ls[j],
        find_leaf(old_ls, addr, i) is None,
    ensures
        find_leaf(new_ls, addr, i) == Some(slot),
    decreases slot - i,
{
    if i < slot {
        assert(new_ls[i] == old_ls[i]);
        lemma_find_leaf_prefix(old_ls, new_ls, addr, i + 1, slot);
    }
}

proof fn lemma_route_total_free_tail(rs: Seq<Option<RouteView>>, k: nat)
    ensures
        route_total(rs + Seq::new(k, |i: int| None::<RouteView>)) == route_total(rs),
    decreases k,
{
    let tail = Seq::new(k, |i: int| None::<RouteView>);
    if k == 0 {
        assert(rs + tail =~= rs);
    } else {
        let shorter = Seq::new((k - 1) as nat, |i: int| None::<RouteView>);
        assert((rs + tail).drop_last() =~= rs + shorter);
        lemma_route_total_free_tail(rs, (k - 1) as nat);
    }
}

/// Dropping routes never makes the rendered list longer.
proof fn lemma_render_clear_shorter(rs: Seq<Option<RouteView>>, leaf: u8)
    ensures
        render(clear_leaf_routes(rs, leaf)).len() <= render(rs).len(),
    decreases rs.len(),
{
    if rs.len() > 0 {
        let c = clear_leaf_routes(rs, leaf);
        assert(c.drop_last() =~= clear_leaf_routes(rs.drop_last(), leaf));
        lemma_render_clear_shorter(rs.drop_last(), leaf);
    }
}

/// Removing a leaf that is there always succeeds, and leaves the cached
/// tools list equal to the rendering of the routes that remain, provided the
/// cache was up to date and within its budget before.
pub proof fn law_remove_present_leaf_succeeds(v: InnerView, addr: Seq<u8>, b: nat)
    requires
        v.json == render(v.routes),
        v.json.len() <= b,
        find_leaf(v.leaves, addr, 0) is Some,
    ensures
        remove_view(v, addr, b).1 is Ok,
        remove_view(v, addr, b).0.json == render(remove_view(v, addr, b).0.routes),
{
    let slot = find_leaf(v.leaves, addr, 0).unwrap();
    lemma_render_clear_shorter(v.routes, slot as u8);
}

// ---------------------------------------------------------------------------
// Tool names are unique
// ---------------------------------------------------------------------------

/// Slot-for-slot, `rs` has a route only where `base` has one of the same
/// name.
pub open spec fn names_within(rs: Seq<Option<RouteView>>, base: Seq<Option<RouteView>>) -> bool {
    &&& rs.len() == base.len()
    &&& forall|i: int|
        0 <= i < rs.len() && (#[trigger] rs[i]) is Some ==> base[i] is Some && rs[i].unwrap().name
            == base[i].unwrap().name
}

proof fn lemma_unique_within(v: InnerView, w: InnerView)
    requires
        unique_names(v),
        names_within(w.routes, v.routes),
    ensures
        unique_names(w),
{
    assert forall|i: int, j: int|
        0 <= i < w.routes.len() && 0 <= j < w.routes.len() && i != j && (#[trigger] w.routes[i]) is Some
            && (#[trigger] w.routes[j]) is Some implies w.routes[i].unwrap().name != w.routes[j].unwrap().name by {
        assert(v.routes[i] is Some && v.routes[j] is Some);
    }
}

proof fn lemma_clear_within(rs: Seq<Option<RouteView>>, leaf: u8)
    ensures
        names_within(clear_leaf_routes(rs, leaf), rs),
{
}

/// Registering one tool never gives two live routes one name.
proof fn lemma_add_route_unique(v: InnerView, name: Seq<u8>, desc: Seq<u8>, leaf: u8, t: nat, a: nat)
    requires
        unique_names(v),
    ensures
        unique_names(add_route_view(v, name, desc, leaf, t, a).0),
{
    lemma_first_free_route(v.routes, 0);
    let free = first_free_route(v.routes, 0);
    let routes1 = match free {
        Some(s) => v.routes,
        None => v.routes.push(None),
    };
    assert(names_within(routes1.take(v.routes.len() as int), v.routes)) by {
        assert(routes1.take(v.routes.len() as int) =~= v.routes);
    }
    assert(unique_names(with_routes(v, routes1))) by {
        let w = with_routes(v, routes1);
        assert forall|i: int, j: int|
            0 <= i < w.routes.len() && 0 <= j < w.routes.len() && i != j && (#[trigger] w.routes[i]) is Some
                && (#[trigger] w.routes[j]) is Some implies w.routes[i].unwrap().name != w.routes[j].unwrap().name by {
            assert(i < v.routes.len() && j < v.routes.len());
            assert(w.routes[i] == v.routes[i] && w.routes[j] == v.routes[j]);
        }
    }
    let r = add_route_view(v, name, desc, leaf, t, a);
    if r.1 is Ok {
        let slot = match free {
            Some(s) => s,
            None => v.routes.len() as int,
        };
        let w = r.0;
        assert(w.routes == routes1.update(slot, Some(RouteView { name, desc, leaf })));
        assert(!has_route_named(v.routes, name));
        assert forall|i: int, j: int|
            0 <= i < w.routes.len() && 0 <= j < w.routes.len() && i != j && (#[trigger] w.routes[i]) is Some
                && (#[trigger] w.routes[j]) is Some implies w.routes[i].unwrap().name != w.routes[j].unwrap().name by {
            if i == slot {
                assert(j < v.routes.len() && w.routes[j] == v.routes[j]);
                if w.routes[j].unwrap().name == name {
                    assert(v.routes[j] matches Some(x) && x.name == name);
                }
            } else if j == slot {
                assert(i < v.routes.len() && w.routes[i] == v.routes[i]);
                if w.routes[i].unwrap().name == name {
                    assert(v.routes[i] matches Some(x) && x.name == name);
                }
            } else {
                assert(w.routes[i] == routes1[i] && w.routes[j] == routes1[j]);
                assert(with_routes(v, routes1).routes[i] is Some);
                assert(with_routes(v, routes1).routes[j] is Some);
            }
        }
    }
}

/// Registering a leaf's tools one by one keeps names unique.
proof fn lemma_process_unique(v: InnerView, arr: Seq<u8>, p: int, leaf: u8, t: nat, a: nat)
    requires
        unique_names(v),
    ensures
        process_entries(v, arr, p, leaf, t, a) matches Ok(v2) ==> unique_names(v2),
    decreases arr.len() - p,
{
    if 0 <= p <= arr.len() {
        match entry_at(arr, p) {
            EntryStep::Skip(n) => {
                if p < n <= arr.len() {
                    lemma_process_unique(v, arr, n, leaf, t, a);
                }
            },
            EntryStep::Entry(name, desc, n) => {
                lemma_add_route_unique(v, name, desc, leaf, t, a);
                let v2 = add_route_view(v, name, desc, leaf, t, a).0;
                if p < n <= arr.len() {
                    lemma_process_unique(v2, arr, n, leaf, t, a);
                }
            },
            _ => {},
        }
    }
}

/// Tool names are unique across the gateway: a table in which no two live
/// routes share a name keeps that after adding a leaf, whether the add
/// succeeds or fails, and after removing one.
pub proof fn law_tool_names_stay_unique(
    v: InnerView,
    addr: Seq<u8>,
    reply: Seq<u8>,
    l: nat,
    t: nat,
    b: nat,
    a: nat,
)
    requires
        unique_names(v),
    ensures
        match add_leaf_outcome(v, addr, reply, l, t, b, a) {
            Ok(v2) => unique_names(v2),
            Err((v2, _)) => unique_names(v2),
        },
        unique_names(remove_view(v, addr, b).0),
{
    match crate::gateway::tools_array(reply) {
        Ok(arr) => {
            match commit_slot(v, l) {
                None => {},
                Some(slot) => {
                    lemma_clear_within(v.routes, slot as u8);
                    lemma_unique_within(v, commit_rollback(v, l));
                    if v.used + addr.len() <= crate::routes::arena_cap(a) {
                        let leaves1 = if slot < v.leaves.len() {
                            v.leaves.update(slot, addr)
                        } else {
                            v.leaves.push(addr)
                        };
                        let v1 = InnerView {
                            leaves: leaves1,
                            routes: v.routes,
                            used: v.used + addr.len(),
                            json: v.json,
                        };
                        let q = crate::json::skip_ws(arr, 0);
                        lemma_process_unique(v1, arr, q + 1, slot as u8, t, a);
                    }
                },
            }
        },
        Err(_) => {},
    }
    match find_leaf(v.leaves, addr, 0) {
        None => {},
        Some(slot) => {
            lemma_clear_within(v.routes, slot as u8);
            let v1 = InnerView {
                leaves: v.leaves.update(slot, Seq::empty()),
                routes: clear_leaf_routes(v.routes, slot as u8),
                used: v.used,
                json: v.json,
            };
            lemma_unique_within(v, with_used(v1, live_total(v1)));
        },
    }
}

// ---------------------------------------------------------------------------
// The table stays consistent
// ---------------------------------------------------------------------------

/// A routing table as every sequence of adds and removes leaves it, with at
/// most `l` leaf slots and `b` bytes of cache: each route belongs to a leaf
/// in use, no two routes share a name, the cached tools list is exactly the
/// rendering of the routes and within its budget, and the arena holds
/// exactly the bytes of live addresses, names and descriptions.
pub open spec fn consistent(v: InnerView, l: nat, b: nat) -> bool {
    &&& owned(v)
    &&& unique_names(v)
    &&& v.json == render(v.routes)
    &&& v.json.len() <= b
    &&& v.leaves.len() <= l
    &&& v.used == live_total(v)
}

/// A registered tool's name and description are exactly the arena bytes it
/// adds.
proof fn lemma_add_route_accounts(v: InnerView, name: Seq<u8>, desc: Seq<u8>, leaf: u8, t: nat, a: nat)
    requires
        v.used == live_total(v),
        add_route_view(v, name, desc, leaf, t, a).1 is Ok,
    ensures
        add_route_view(v, name, desc, leaf, t, a).0.used == live_total(add_route_view(v, name, desc, leaf, t, a).0),
{
    lemma_first_free_route(v.routes, 0);
    let free = first_free_route(v.routes, 0);
    let routes1 = match free {
        Some(s) => v.routes,
        None => v.routes.push(None),
    };
    assert(route_total(routes1) == route_total(v.routes)) by {
        if free is None {
            assert(routes1.drop_last() =~= v.routes);
        }
    }
    let slot = match free {
        Some(s) => s,
        None => v.routes.len() as int,
    };
    lemma_route_total_update(routes1, slot, Some(RouteView { name, desc, leaf }));
}

proof fn lemma_process_accounts(v: InnerView, arr: Seq<u8>, p: int, leaf: u8, t: nat, a: nat)
    requires
        v.used == live_total(v),
    ensures
        process_entries(v, arr, p, leaf, t, a) matches Ok(v2) ==> v2.used == live_total(v2),
    decreases arr.len() - p,
{
    if 0 <= p <= arr.len() {
        match entry_at(arr, p) {
            EntryStep::Skip(n) => {
                if p < n <= arr.len() {
                    lemma_process_accounts(v, arr, n, leaf, t, a);
                }
            },
            EntryStep::Entry(name, desc, n) => {
                if add_route_view(v, name, desc, leaf, t, a).1 is Ok {
                    lemma_add_route_accounts(v, name, desc, leaf, t, a);
                    let v2 = add_route_view(v, name, desc, leaf, t, a).0;
                    if p < n <= arr.len() {
                        lemma_process_accounts(v2, arr, n, leaf, t, a);
                    }
                }
            },
            _ => {},
        }
    }
}

/// The table of a new gateway.
pub open spec fn empty_table() -> InnerView {
    InnerView { leaves: Seq::empty(), routes: Seq::empty(), used: 0, json: Seq::empty() }
}

/// A successful add keeps the table consistent.
proof fn lemma_commit_consistent(
    v: InnerView,
    addr: Seq<u8>,
    arr: Seq<u8>,
    l: nat,
    t: nat,
    b: nat,
    a: nat,
)
    requires
        consistent(v, l, b),
        l <= 256,
        addr.len() > 0,
        commit_view(v, addr, arr, l, t, b, a) is Ok,
    ensures
        consistent(commit_view(v, addr, arr, l, t, b, a).unwrap(), l, b),
{
    lemma_first_free_leaf(v.leaves, 0);
    let slot = commit_slot(v, l).unwrap();
    assert((slot as u8) as int == slot);
    let leaves1 = if slot < v.leaves.len() {
        v.leaves.update(slot, addr)
    } else {
        v.leaves.push(addr)
    };
    let v1 = InnerView { leaves: leaves1, routes: v.routes, used: v.used + addr.len(), json: v.json };
    let q = crate::json::skip_ws(arr, 0);
    let v2 = process_entries(v1, arr, q + 1, slot as u8, t, a).unwrap();
    assert(grown_by(v.routes, v.routes, slot as u8));
    lemma_process_grows(v1, v.routes, arr, q + 1, slot as u8, t, a);
    assert(unique_names(v1));
    lemma_process_unique(v1, arr, q + 1, slot as u8, t, a);
    assert(v1.used == live_total(v1)) by {
        if slot < v.leaves.len() {
            lemma_leaf_total_update(v.leaves, slot, addr);
        } else {
            assert(leaves1.drop_last() =~= v.leaves);
        }
    }
    lemma_process_accounts(v1, arr, q + 1, slot as u8, t, a);
    let v3 = rebuild_view(v2, b).0;
    assert(v3.leaves == leaves1 && v3.routes == v2.routes);
    assert(leaves1[slot] == addr);
    assert forall|i: int| 0 <= i < v3.routes.len() implies (#[trigger] v3.routes[i] matches Some(r) ==> r.leaf
        < v3.leaves.len() && v3.leaves[r.leaf as int].len() > 0) by {
        if let Some(r) = v3.routes[i] {
            if i < v.routes.len() && v3.routes[i] == v.routes[i] {
                assert(r.leaf < v.leaves.len() && v.leaves[r.leaf as int].len() > 0);
                assert(r.leaf as int != slot);
                assert(leaves1[r.leaf as int] == v.leaves[r.leaf as int]);
            } else {
                assert(r.leaf == slot as u8);
            }
        }
    }
}

/// An add that fails leaves a consistent table exactly as it was.
pub proof fn law_failed_add_leaves_table(
    v: InnerView,
    addr: Seq<u8>,
    reply: Seq<u8>,
    l: nat,
    t: nat,
    b: nat,
    a: nat,
)
    requires
        consistent(v, l, b),
        l <= 256,
    ensures
        add_leaf_outcome(v, addr, reply, l, t, b, a) matches Err((v2, _)) ==> v2 == v,
{
    law_failed_add_changes_nothing(v, l);
}

/// The routing table stays consistent: a new gateway's table is, and any
/// add of a leaf (succeeding or failing) and any removal keep it so.
pub proof fn law_table_stays_consistent(
    v: InnerView,
    addr: Seq<u8>,
    reply: Seq<u8>,
    l: nat,
    t: nat,
    b: nat,
    a: nat,
)
    requires
        consistent(v, l, b),
        l <= 256,
    ensures
        consistent(empty_table(), l, b),
        match add_leaf_outcome(v, addr, reply, l, t, b, a) {
            Ok(v2) => consistent(v2, l, b),
            Err((v2, _)) => consistent(v2, l, b),
        },
        consistent(remove_view(v, addr, b).0, l, b),
{
    assert(render(empty_table().routes) =~= Seq::<u8>::empty());
    law_tool_names_stay_unique(v, addr, reply, l, t, b, a);
    law_failed_add_changes_nothing(v, l);
    match add_leaf_outcome(v, addr, reply, l, t, b, a) {
        Ok(v2) => {
            let arr = crate::gateway::tools_array(reply).unwrap();
            lemma_commit_consistent(v, addr, arr, l, t, b, a);
        },
        Err(_) => {},
    }
    match find_leaf(v.leaves, addr, 0) {
        None => {},
        Some(slot) => {
            crate::routes::lemma_find_leaf(v.leaves, addr, 0);
            lemma_render_clear_shorter(v.routes, slot as u8);
            let v1 = InnerView {
                leaves: v.leaves.update(slot, Seq::empty()),
                routes: clear_leaf_routes(v.routes, slot as u8),
                used: v.used,
                json: v.json,
            };
            let w = remove_view(v, addr, b).0;
            assert(w.leaves == v1.leaves && w.routes == v1.routes);
            assert forall|i: int| 0 <= i < w.routes.len() implies (#[trigger] w.routes[i] matches Some(r)
                ==> r.leaf < w.leaves.len() && w.leaves[r.leaf as int].len() > 0) by {
                if let Some(r) = w.routes[i] {
                    assert(v.routes[i] == Some(r));
                    assert(r.leaf < v.leaves.len() && v.leaves[r.leaf as int].len() > 0);
                    assert(r.leaf as int != slot);
                }
            }
        },
    }
}

} // verus!
