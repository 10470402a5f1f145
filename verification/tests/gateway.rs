use lib::gateway::{
    finish_call, parse_scheme, parse_tools_array, DynamicGateway, Gateway, GatewayStep,
    MultiConnector, Scheme, UnixConnector,
};
use lib::routes::NAME_MAX;

type Gw<const L: usize, const T: usize, const B: usize> = Gateway<L, T, B, MultiConnector, 1024>;

/// The reply length of a step that needs no leaf.
fn reply<const L: usize, const T: usize, const B: usize, C, const A: usize>(
    gw: &Gateway<L, T, B, C, A>,
    msg: &[u8],
    out: &mut [u8],
) -> usize {
    let mut proxy = [0u8; 1024];
    gw.handle(msg, out, &mut proxy).done().expect("answered without a leaf")
}

fn active_routes<const L: usize, const T: usize, const B: usize, const A: usize>(
    gw: &Gateway<L, T, B, MultiConnector, A>,
) -> Vec<Vec<u8>> {
    (0..gw.inner.route_count() as usize)
        .filter_map(|i| gw.inner.route_name(i).map(|n| n.to_vec()))
        .collect()
}

#[test]
fn add_route_rejects_oversized_name() {
    let mut gw: Gw<2, 4, 1024> = Gateway::new();
    let too_long = vec![b'x'; NAME_MAX + 1];
    assert!(gw.inner.add_route(&too_long, b"", 0).is_err());
    assert!(gw.inner.add_route(b"", b"", 0).is_err());
}

#[test]
fn add_route_rejects_duplicates() {
    let mut gw: Gw<2, 4, 1024> = Gateway::new();
    assert!(gw.inner.add_route(b"temp", b"", 0).is_ok());
    assert!(gw.inner.add_route(b"temp", b"", 1).is_err(), "duplicate must be rejected");
}

#[test]
fn add_route_rejects_when_full() {
    let mut gw: Gw<2, 2, 1024> = Gateway::new();
    assert!(gw.inner.add_route(b"a", b"", 0).is_ok());
    assert!(gw.inner.add_route(b"b", b"", 0).is_ok());
    assert!(gw.inner.add_route(b"c", b"", 0).is_err(), "T limit must be enforced");
}

#[test]
fn add_route_rejects_when_arena_full() {
    let mut gw: Gateway<2, 4, 1024, MultiConnector, 4> = Gateway::new();
    assert!(gw.inner.add_route(b"abc", b"", 0).is_ok());
    assert!(gw.inner.add_route(b"xyz", b"", 0).is_err(), "second route must trip the arena (A) limit");
}

#[test]
fn packed_storage_uses_actual_lengths() {
    let mut gw: Gw<2, 4, 1024> = Gateway::new();
    gw.inner.add_route(b"a", b"", 0).unwrap();
    gw.inner.add_route(b"bc", b"", 0).unwrap();
    assert_eq!(gw.inner.arena_used(), 3, "1 + 2 bytes packed back-to-back (no desc)");
}

#[test]
fn parse_scheme_dispatches_correctly() {
    assert_eq!(parse_scheme("unix:///tmp/x.sock"), Scheme::Unix("/tmp/x.sock"));
    assert_eq!(parse_scheme("tcp://10.0.0.5:9000"), Scheme::Tcp("10.0.0.5:9000"));
    assert_eq!(parse_scheme("tls://host:443"), Scheme::Tls("host:443"));
    assert_eq!(parse_scheme("udp://10.0.0.6:9000"), Scheme::Udp("10.0.0.6:9000"));
    assert_eq!(parse_scheme("/run/leaf.sock"), Scheme::Unix("/run/leaf.sock"));
    assert_eq!(parse_scheme(""), Scheme::Unix(""));
}

#[test]
fn gateway_with_unix_connector_compiles_and_constructs() {
    let _gw: Gateway<2, 4, 1024, UnixConnector, 1024> = Gateway::new();
}

/// Compiles only for types that can be shared between threads.
fn assert_send_sync<T: Send + Sync>() {}

#[test]
fn gateway_is_send_and_sync() {
    assert_send_sync::<Gateway<4, 32, 2048, MultiConnector, 1024>>();
    assert_send_sync::<DynamicGateway<4, 32, 2048, MultiConnector, 1024>>();
    assert_send_sync::<std::sync::Arc<DynamicGateway<4, 32, 2048, MultiConnector, 1024>>>();
}

#[test]
fn rebuild_tools_json_rejects_overflow() {
    let mut gw: Gw<2, 4, 64> = Gateway::new();
    gw.inner.add_route(b"temp_read", b"Read temperature in Celsius", 0).unwrap();
    let r = gw.inner.rebuild_tools_json();
    assert!(r.is_err(), "must reject when tools_json buffer (B) is too small");
    assert_eq!(gw.inner.tools_json_len(), 0, "rebuild leaves the cache empty on failure");
}

#[test]
fn rebuild_failure_preserves_existing_cache() {
    let mut gw: Gw<2, 4, 80> = Gateway::new();
    gw.inner.add_route(b"a", b"", 0).unwrap();
    gw.inner.rebuild_tools_json().unwrap();
    let saved_len = gw.inner.tools_json_len();
    let saved_bytes: Vec<u8> = gw.inner.tools_json().to_vec();
    assert!(saved_len > 0, "first rebuild produced bytes");

    gw.inner.add_route(b"b", b"", 0).unwrap();
    let r = gw.inner.rebuild_tools_json();
    assert!(r.is_err());
    assert_eq!(gw.inner.tools_json_len(), saved_len, "len preserved on failed rebuild");
    assert_eq!(gw.inner.tools_json(), saved_bytes.as_slice(), "bytes preserved on failed rebuild");
}

#[test]
fn gateway_initialize_declares_list_changed_true() {
    let gw: Gw<2, 4, 1024> = Gateway::new();
    let mut out = [0u8; 256];
    let n = reply(&gw, br#"{"jsonrpc":"2.0","id":1,"method":"initialize"}"#, &mut out);
    let s = core::str::from_utf8(&out[..n]).unwrap();
    assert!(s.contains(r#""listChanged":true"#), "{s}");
}

#[test]
fn remove_leaf_clears_routes_and_rebuilds() {
    let mut gw: Gw<2, 4, 1024> = Gateway::new();
    gw.inner
        .commit_leaf("leaf-a", br#"[{"name":"a1","description":""},{"name":"a2","description":""}]"#)
        .unwrap();
    gw.inner.commit_leaf("leaf-b", br#"[{"name":"b1","description":""}]"#).unwrap();
    assert_eq!(gw.inner.route_count(), 3);
    gw.inner.remove_leaf_inner("leaf-a").unwrap();
    assert!((0..gw.inner.route_count() as usize).any(|i| gw.inner.route_name(i).is_none()));
    assert_eq!(active_routes(&gw), vec![b"b1".to_vec()]);

    let mut out = [0u8; 512];
    let n = reply(&gw, br#"{"jsonrpc":"2.0","id":1,"method":"tools/list"}"#, &mut out);
    let s = core::str::from_utf8(&out[..n]).unwrap();
    assert!(s.contains("b1"), "{s}");
    assert!(!s.contains("\"a1\""), "{s}");
    assert!(!s.contains("\"a2\""), "{s}");
}

#[test]
fn churn_reuses_empty_slots_and_arena() {
    let mut gw: Gateway<2, 4, 1024, MultiConnector, 32> = Gateway::new();
    for i in 0..50 {
        let leaf = format!("leaf-{i}");
        gw.inner
            .commit_leaf(&leaf, br#"[{"name":"t","description":""}]"#)
            .expect("churn add — slot+arena reuse should keep us under L/A");
        gw.inner.remove_leaf_inner(&leaf).unwrap();
        assert_eq!(gw.inner.arena_used(), 0, "arena not compacted at iter {i}");
    }
    assert!(gw.inner.leaf_count() <= 1, "leaf_count grew unbounded");
    assert!(gw.inner.route_count() <= 1, "route_count grew unbounded");
}

#[test]
fn re_add_after_remove_works() {
    let mut gw: Gw<2, 4, 1024> = Gateway::new();
    gw.inner.commit_leaf("leaf-x", br#"[{"name":"x1","description":""}]"#).unwrap();
    gw.inner.remove_leaf_inner("leaf-x").unwrap();
    gw.inner.commit_leaf("leaf-x", br#"[{"name":"x1","description":""}]"#).unwrap();
    assert_eq!(active_routes(&gw), vec![b"x1".to_vec()]);
}

#[test]
fn epoch_increments_on_mutation() {
    let mut gw: DynamicGateway<2, 4, 1024, MultiConnector, 1024> = DynamicGateway::new();
    gw.inner.commit_leaf("leaf-q", br#"[{"name":"q1","description":""}]"#).unwrap();
    let before = gw.epoch();
    gw.remove_leaf("leaf-q").unwrap();
    assert_eq!(gw.epoch(), before + 1, "remove_leaf must bump the epoch");
}

#[test]
fn remove_leaf_returns_err_for_unknown_addr() {
    let mut gw: DynamicGateway<2, 4, 1024, MultiConnector, 1024> = DynamicGateway::new();
    assert!(gw.remove_leaf("never-added").is_err());
    assert_eq!(gw.epoch(), 0, "failed remove must not bump epoch");
}

#[test]
fn fuzz_leaf_responses_never_panic_or_corrupt() {
    // Any panic fails the test.
    let mut st: u64 = 0x9E3779B97F4A7C15;
    let mut rnd = move || {
        st ^= st << 13;
        st ^= st >> 7;
        st ^= st << 17;
        st
    };
    let alpha: &[u8] = b"{}[]\":,namedscriptio0123456789tfnul \\\n\x00\xff";
    let seed = br#"[{"name":"t1","description":"d"},{"name":"t2","description":"d2"}]"#;

    let run = |arr: &[u8]| {
        let mut gw: Gw<2, 8, 512> = Gateway::new();
        let _ = gw.inner.commit_leaf("leaf", arr);
        let mut out = [0u8; 1024];
        let n = reply(&gw, br#"{"jsonrpc":"2.0","id":1,"method":"tools/list"}"#, &mut out);
        if n > 0 {
            let s = core::str::from_utf8(&out[..n]).unwrap_or("");
            assert!(s.ends_with("]}}\n"), "malformed tools/list: {s}");
        }
    };

    for _ in 0..30_000 {
        let len = (rnd() % 80) as usize;
        let arr: Vec<u8> = (0..len).map(|_| alpha[(rnd() % alpha.len() as u64) as usize]).collect();
        run(&arr);
    }
    for cut in 0..seed.len() {
        run(&seed[..cut]);
    }
    for pos in 0..seed.len() {
        for &b in alpha {
            let mut m = seed.to_vec();
            m[pos] = b;
            run(&m);
        }
    }
    let hostile: &[&[u8]] = &[
        br#"[{"name":"a\"","description":"d"}]"#,
        br#"[{"name":"a","description":"d\""}]"#,
        br#"[{"name":"a","description":"\\"}]"#,
        br#"[{"name":"","description":"d"}]"#,
        br#"[{"description":"no name"}]"#,
        br#"[{"name":"a"},{"name":"a"}]"#,
    ];
    for h in hostile {
        run(h);
    }
    let mut long = Vec::from(&b"[{\"name\":\"a\",\"description\":\""[..]);
    long.extend(std::iter::repeat_n(b'x', 254));
    long.extend_from_slice(b"\\n");
    long.extend_from_slice(b"\"}]");
    run(&long);
}

#[test]
fn failed_add_after_remove_leaves_no_phantom_entries() {
    let mut gw: Gw<2, 4, 1024> = Gateway::new();
    gw.inner.commit_leaf("leaf-a", br#"[{"name":"a1","description":""}]"#).unwrap();
    gw.inner.remove_leaf_inner("leaf-a").unwrap();

    let r = gw.inner.commit_leaf(
        "leaf-b",
        br#"[{"name":"b1","description":""},{"name":"b1","description":""}]"#,
    );
    assert!(r.is_err(), "duplicate within one leaf must fail");
    assert_eq!(gw.inner.leaf_len(0), 0, "failed add must not leave a leaf slot claimed");
    assert!(gw.inner.route_name(0).is_none(), "failed add must not leave a route behind");

    gw.inner.commit_leaf("leaf-c", br#"[{"name":"c1","description":""}]"#).unwrap();
    let mut out = [0u8; 512];
    let n = reply(&gw, br#"{"jsonrpc":"2.0","id":1,"method":"tools/list"}"#, &mut out);
    let s = core::str::from_utf8(&out[..n]).unwrap();
    assert_eq!(s.matches(r#""name":"c1""#).count(), 1, "exactly one c1: {s}");
    assert!(!s.contains("b1"), "rolled-back route must not appear: {s}");
}

#[test]
fn leaf_supplied_junk_is_rejected_not_re_emitted() {
    let mut gw: Gw<2, 4, 1024> = Gateway::new();
    assert!(gw.inner.add_route(b"a\xffb", b"d", 0).is_err(), "non-UTF-8 name");
    assert!(gw.inner.add_route(b"ab", b"d\xff", 0).is_err(), "non-UTF-8 description");
    let long = vec![b'x'; 256];
    assert!(gw.inner.add_route(b"ab", &long, 0).is_err(), "256-byte description");
    let ok = vec![b'x'; 255];
    assert!(gw.inner.add_route(b"ab", &ok, 0).is_ok(), "255 bytes is the limit, not an error");
}

#[test]
fn tools_call_is_forwarded_with_the_exact_request() {
    let mut gw: Gw<2, 4, 1024> = Gateway::new();
    gw.add_leaf(
        "tcp://10.0.0.5:9000",
        br#"{"jsonrpc":"2.0","id":1,"result":{"tools":[{"name":"t1","description":"d"}]}}"#,
    )
    .unwrap();
    let mut out = [0u8; 512];
    let mut proxy = [0u8; 1024];
    let msg = br#"{"jsonrpc":"2.0","id":42,"method":"tools/call","params":{"name":"t1","arguments":{"x":1}}}"#;
    match gw.handle(msg, &mut out, &mut proxy) {
        GatewayStep::Proxy { addr, id, len } => {
            assert_eq!(addr, b"tcp://10.0.0.5:9000");
            assert_eq!(id, b"42");
            assert_eq!(
                &proxy[..len],
                &b"{\"jsonrpc\":\"2.0\",\"id\":1,\"method\":\"tools/call\",\"params\":{\"name\":\"t1\",\"arguments\":{\"x\":1}}}\n"[..]
            );
        }
        GatewayStep::Done(_) => panic!("a known tool must be forwarded"),
    }
}

#[test]
fn forwarded_request_that_does_not_fit_is_refused() {
    let mut gw: Gw<2, 4, 1024> = Gateway::new();
    gw.inner.commit_leaf("leaf", br#"[{"name":"t1","description":""}]"#).unwrap();
    let mut out = [0u8; 512];
    let mut proxy = [0u8; 16];
    let msg = br#"{"id":3,"method":"tools/call","params":{"name":"t1"}}"#;
    let n = gw.handle(msg, &mut out, &mut proxy).done().unwrap();
    assert_eq!(
        &out[..n],
        &b"{\"jsonrpc\":\"2.0\",\"id\":3,\"error\":{\"code\":-1,\"message\":\"args too large for proxy buffer\"}}\n"[..]
    );
}

#[test]
fn unknown_tool_and_bad_params_are_answered_locally() {
    let gw: Gw<2, 4, 1024> = Gateway::new();
    let mut out = [0u8; 512];
    let n = reply(&gw, br#"{"id":1,"method":"tools/call","params":{"name":"nope"}}"#, &mut out);
    assert_eq!(
        &out[..n],
        &b"{\"jsonrpc\":\"2.0\",\"id\":1,\"error\":{\"code\":-32601,\"message\":\"unknown tool\"}}\n"[..]
    );
    let n = reply(&gw, br#"{"id":2,"method":"tools/call"}"#, &mut out);
    assert_eq!(
        &out[..n],
        &b"{\"jsonrpc\":\"2.0\",\"id\":2,\"error\":{\"code\":-32600,\"message\":\"bad params\"}}\n"[..]
    );
    assert_eq!(reply(&gw, br#"{"method":"tools/list"}"#, &mut out), 0);
}

#[test]
fn leaf_reply_is_passed_through() {
    let mut out = [0u8; 256];
    let n = finish_call(b"7", Ok(br#"{"jsonrpc":"2.0","id":1,"result":{"content":[]}}"#), &mut out);
    assert_eq!(&out[..n], &b"{\"jsonrpc\":\"2.0\",\"id\":7,\"result\":{\"content\":[]}}\n"[..]);
    let n = finish_call(b"7", Ok(br#"{"id":1,"error":{"code":5}}"#), &mut out);
    assert_eq!(&out[..n], &b"{\"jsonrpc\":\"2.0\",\"id\":7,\"error\":{\"code\":5}}\n"[..]);
    let n = finish_call(b"7", Ok(b"{}"), &mut out);
    assert_eq!(
        &out[..n],
        &b"{\"jsonrpc\":\"2.0\",\"id\":7,\"error\":{\"code\":-1,\"message\":\"leaf returned no result\"}}\n"[..]
    );
    let n = finish_call(b"7", Err("no response from leaf"), &mut out);
    assert_eq!(
        &out[..n],
        &b"{\"jsonrpc\":\"2.0\",\"id\":7,\"error\":{\"code\":-1,\"message\":\"no response from leaf\"}}\n"[..]
    );
}

#[test]
fn add_leaf_checks_address_and_reply() {
    let mut gw: Gw<2, 4, 1024> = Gateway::new();
    assert_eq!(gw.add_leaf("", b"{}"), Err("leaf address is empty"));
    let long = "x".repeat(109);
    assert_eq!(gw.add_leaf(&long, b"{}"), Err("leaf address exceeds LEAF_ADDR_MAX bytes"));
    assert_eq!(gw.add_leaf("a", b"{}"), Err("no result in leaf response"));
    assert_eq!(gw.add_leaf("a", br#"{"result":{}}"#), Err("no tools in leaf response"));
    assert_eq!(parse_tools_array(br#"{"result":{"tools":[1]}}"#), Ok(&b"[1]"[..]));
}

#[test]
fn dynamic_add_bumps_epoch_only_on_success() {
    let mut gw: DynamicGateway<2, 4, 1024, MultiConnector, 1024> = DynamicGateway::new();
    assert!(gw.add_leaf("a", b"{}").is_err());
    assert_eq!(gw.epoch(), 0);
    gw.add_leaf("a", br#"{"result":{"tools":[{"name":"t","description":""}]}}"#).unwrap();
    assert_eq!(gw.epoch(), 1);
}

#[test]
fn dynamic_gateway_answers_like_static() {
    let mut g: Gw<2, 4, 1024> = Gateway::new();
    let mut d: DynamicGateway<2, 4, 1024, MultiConnector, 1024> = DynamicGateway::new();
    let reply = br#"{"jsonrpc":"2.0","id":1,"result":{"tools":[{"name":"a1","description":"d"}]}}"#;
    g.add_leaf("leaf-a", reply).unwrap();
    d.add_leaf("leaf-a", reply).unwrap();
    let msgs: [&[u8]; 5] = [
        br#"{"jsonrpc":"2.0","id":1,"method":"initialize"}"#,
        br#"{"jsonrpc":"2.0","id":2,"method":"tools/list"}"#,
        br#"{"jsonrpc":"2.0","id":3,"method":"tools/call","params":{"name":"zz"}}"#,
        br#"{"jsonrpc":"2.0","id":4,"method":"tools/call","params":{"name":"a1","arguments":{"x":1}}}"#,
        br#"{"jsonrpc":"2.0","method":"notifications/initialized"}"#,
    ];
    for m in msgs.iter() {
        let (mut o1, mut p1) = ([0u8; 512], [0u8; 256]);
        let (mut o2, mut p2) = ([0u8; 512], [0u8; 256]);
        let s1 = g.handle(m, &mut o1, &mut p1);
        let s2 = d.handle(m, &mut o2, &mut p2);
        match (s1, s2) {
            (GatewayStep::Done(n1), GatewayStep::Done(n2)) => {
                assert_eq!(n1, n2);
                assert_eq!(&o1[..n1], &o2[..n2]);
            }
            (
                GatewayStep::Proxy { addr: a1, id: i1, len: l1 },
                GatewayStep::Proxy { addr: a2, id: i2, len: l2 },
            ) => {
                assert_eq!(a1, a2);
                assert_eq!(i1, i2);
                assert_eq!(&p1[..l1], &p2[..l2]);
            }
            _ => panic!("static and dynamic gateways took different steps"),
        }
    }
}

#[test]
fn measure_gateway_size() {
    let s = std::mem::size_of::<Gateway<4, 32, 2048, MultiConnector, 1024>>();
    // A dynamic gateway is shared between connection threads: its state sits
    // behind a read-write lock, beside the mutex-guarded list of connected
    // clients that broadcasts go to.
    let dyn_s = std::mem::size_of::<(
        std::sync::RwLock<DynamicGateway<4, 32, 2048, MultiConnector, 1024>>,
        std::sync::Mutex<Vec<std::sync::Arc<std::sync::Mutex<Vec<u8>>>>>,
    )>();
    assert!(
        (3200..3600).contains(&s),
        "Gateway size {s} drifted from expected envelope (~3.4 KiB)"
    );
    assert!(
        (3400..4200).contains(&dyn_s),
        "DynamicGateway size {dyn_s} drifted from expected envelope (~3.5 KiB)"
    );
    assert!(
        s < dyn_s,
        "static Gateway ({s}) must be smaller than DynamicGateway ({dyn_s})"
    );
}

#[test]
fn failed_add_leaves_the_gateway_as_it_was() {
    let mut gw: Gw<2, 4, 1024> = Gateway::new();
    gw.add_leaf("leaf-a", br#"{"result":{"tools":[{"name":"a1","description":"d"}]}}"#).unwrap();
    let list = br#"{"jsonrpc":"2.0","id":9,"method":"tools/list"}"#;
    let mut before = [0u8; 512];
    let n1 = reply(&gw, list, &mut before);
    // A duplicate tool name fails the add after the leaf took its slot.
    assert!(gw
        .add_leaf("leaf-b", br#"{"result":{"tools":[{"name":"b1","description":""},{"name":"a1","description":""}]}}"#)
        .is_err());
    assert!(gw.add_leaf("leaf-c", b"{}").is_err());
    let mut after = [0u8; 512];
    let n2 = reply(&gw, list, &mut after);
    assert_eq!(&before[..n1], &after[..n2]);
    assert_eq!(active_routes(&gw), vec![b"a1".to_vec()]);
}

#[test]
fn gateway_replies_echo_the_request_id() {
    let mut gw: Gw<2, 4, 1024> = Gateway::new();
    gw.add_leaf("leaf-a", br#"{"result":{"tools":[{"name":"a1","description":"d"}]}}"#).unwrap();
    let msgs: [&[u8]; 5] = [
        br#"{"jsonrpc":"2.0","id":[1,2],"method":"initialize"}"#,
        br#"{"jsonrpc":"2.0","id":[1,2],"method":"tools/list"}"#,
        br#"{"jsonrpc":"2.0","id":[1,2],"method":"tools/call","params":{"name":"zz"}}"#,
        br#"{"jsonrpc":"2.0","id":[1,2],"method":"tools/call"}"#,
        br#"{"jsonrpc":"2.0","id":[1,2],"method":"ping"}"#,
    ];
    for m in msgs.iter() {
        let mut out = [0u8; 512];
        let n = reply(&gw, m, &mut out);
        assert!(out[..n].starts_with(br#"{"jsonrpc":"2.0","id":[1,2]"#));
        assert_eq!(out[n - 1], b'\n');
    }
    let mut out = [0u8; 512];
    let mut proxy = [0u8; 1024];
    let call = br#"{"jsonrpc":"2.0","id":[1,2],"method":"tools/call","params":{"name":"a1"}}"#;
    match gw.handle(call, &mut out, &mut proxy) {
        GatewayStep::Proxy { id, .. } => {
            assert_eq!(id, &b"[1,2]"[..]);
            let n = finish_call(id, Err("no response from leaf"), &mut out);
            assert!(out[..n].starts_with(br#"{"jsonrpc":"2.0","id":[1,2]"#));
            assert_eq!(out[n - 1], b'\n');
        }
        _ => panic!("a known tool is forwarded"),
    }
}
