use lib::json::obj_get;
use lib::runtime::{Output, Provider, Runtime, Tool};
use lib::writer::Writer;

struct Stub;
impl Provider for Stub {
    fn tools(&self) -> &[Tool] {
        static T: &[Tool] = &[Tool { name: "temp_read", description: "Read temperature" }];
        T
    }
    fn call(&self, _: &str, _: &[u8], out: &mut Output) -> Result<(), &'static str> {
        out.write_str("22.5").unwrap();
        Ok(())
    }
}

#[test]
fn test_initialize() {
    static S: Stub = Stub;
    let mut rt: Runtime<'_, 1, 512> = Runtime::new();
    rt.register(&S).unwrap();
    let mut out = [0u8; 512];
    let n = rt.handle(b"{\"jsonrpc\":\"2.0\",\"id\":1,\"method\":\"initialize\"}", &mut out);
    let s = core::str::from_utf8(&out[..n]).unwrap();
    assert!(s.contains("protocolVersion"), "{s}");
}

#[test]
fn test_tools_list() {
    static S: Stub = Stub;
    let mut rt: Runtime<'_, 1, 512> = Runtime::new();
    rt.register(&S).unwrap();
    let mut out = [0u8; 512];
    let n = rt.handle(b"{\"jsonrpc\":\"2.0\",\"id\":2,\"method\":\"tools/list\"}", &mut out);
    let s = core::str::from_utf8(&out[..n]).unwrap();
    assert!(s.contains("temp_read"), "{s}");
    assert!(s.contains("inputSchema"), "{s}");
}

#[test]
fn test_tool_call() {
    static S: Stub = Stub;
    let mut rt: Runtime<'_, 1, 512> = Runtime::new();
    rt.register(&S).unwrap();
    let mut out = [0u8; 512];
    let n = rt.handle(
        b"{\"jsonrpc\":\"2.0\",\"id\":3,\"method\":\"tools/call\",\"params\":{\"name\":\"temp_read\",\"arguments\":{}}}",
        &mut out,
    );
    let s = core::str::from_utf8(&out[..n]).unwrap();
    assert!(s.contains("22.5"), "{s}");
}

#[test]
fn test_tool_error() {
    struct Fail;
    impl Provider for Fail {
        fn tools(&self) -> &[Tool] {
            static T: &[Tool] = &[Tool { name: "boom", description: "always fails" }];
            T
        }
        fn call(&self, _: &str, _: &[u8], _out: &mut Output) -> Result<(), &'static str> {
            Err("sensor offline")
        }
    }
    static F: Fail = Fail;
    let mut rt: Runtime<'_, 1, 512> = Runtime::new();
    rt.register(&F).unwrap();
    let mut out = [0u8; 512];
    let n = rt.handle(
        b"{\"jsonrpc\":\"2.0\",\"id\":4,\"method\":\"tools/call\",\"params\":{\"name\":\"boom\",\"arguments\":{}}}",
        &mut out,
    );
    let s = core::str::from_utf8(&out[..n]).unwrap();
    assert!(s.contains("sensor offline"), "{s}");
    assert!(s.contains("error"), "{s}");
}

#[test]
fn test_unknown_tool() {
    static S: Stub = Stub;
    let mut rt: Runtime<'_, 1, 512> = Runtime::new();
    rt.register(&S).unwrap();
    let mut out = [0u8; 512];
    let n = rt.handle(
        b"{\"jsonrpc\":\"2.0\",\"id\":5,\"method\":\"tools/call\",\"params\":{\"name\":\"nope\",\"arguments\":{}}}",
        &mut out,
    );
    let s = core::str::from_utf8(&out[..n]).unwrap();
    assert!(s.contains("unknown tool"), "{s}");
    assert!(s.contains("-32601"), "{s}");
}

#[test]
fn test_method_in_string_value_not_confused() {
    static S: Stub = Stub;
    let mut rt: Runtime<'_, 1, 512> = Runtime::new();
    rt.register(&S).unwrap();
    let mut out = [0u8; 512];
    let msg = br#"{"jsonrpc":"2.0","decoy":"method:\"initialize\"","id":1,"method":"tools/list"}"#;
    let n = rt.handle(msg, &mut out);
    let s = core::str::from_utf8(&out[..n]).unwrap();
    assert!(s.contains("tools"), "{s}");
    assert!(!s.contains("protocolVersion"), "{s}");
}

#[test]
fn test_string_id_echoed_verbatim() {
    static S: Stub = Stub;
    let mut rt: Runtime<'_, 1, 512> = Runtime::new();
    rt.register(&S).unwrap();
    let mut out = [0u8; 512];
    let n = rt.handle(br#"{"jsonrpc":"2.0","id":"abc-42","method":"tools/list"}"#, &mut out);
    let s = core::str::from_utf8(&out[..n]).unwrap();
    assert!(s.contains(r#""id":"abc-42""#), "{s}");
}

#[test]
fn test_null_id_echoed() {
    static S: Stub = Stub;
    let mut rt: Runtime<'_, 1, 512> = Runtime::new();
    rt.register(&S).unwrap();
    let mut out = [0u8; 512];
    let n = rt.handle(br#"{"jsonrpc":"2.0","id":null,"method":"tools/list"}"#, &mut out);
    let s = core::str::from_utf8(&out[..n]).unwrap();
    assert!(s.contains(r#""id":null"#), "{s}");
}

#[test]
fn test_parse_error_response() {
    static S: Stub = Stub;
    let mut rt: Runtime<'_, 1, 512> = Runtime::new();
    rt.register(&S).unwrap();
    let mut out = [0u8; 256];
    let n = rt.handle(b"this is not json", &mut out);
    let s = core::str::from_utf8(&out[..n]).unwrap();
    assert!(s.contains(r#""id":null"#), "{s}");
    assert!(s.contains("-32700"), "{s}");
    assert!(s.contains("parse error"), "{s}");
}

#[test]
fn test_notification_drops_response() {
    static S: Stub = Stub;
    let mut rt: Runtime<'_, 1, 512> = Runtime::new();
    rt.register(&S).unwrap();
    let mut out = [0u8; 256];
    let n = rt.handle(br#"{"jsonrpc":"2.0","method":"notifications/initialized"}"#, &mut out);
    assert_eq!(n, 0, "notifications must produce no response");
}

#[test]
fn test_explicit_null_id_is_request_not_notification() {
    static S: Stub = Stub;
    let mut rt: Runtime<'_, 1, 512> = Runtime::new();
    rt.register(&S).unwrap();
    let mut out = [0u8; 512];
    let n = rt.handle(br#"{"jsonrpc":"2.0","id":null,"method":"tools/list"}"#, &mut out);
    assert!(n > 0, "explicit id:null is a request, not a notification");
    let s = core::str::from_utf8(&out[..n]).unwrap();
    assert!(s.contains(r#""id":null"#), "{s}");
    assert!(s.contains("tools"), "{s}");
}

#[test]
fn test_notification_with_unknown_method_is_dropped() {
    static S: Stub = Stub;
    let mut rt: Runtime<'_, 1, 512> = Runtime::new();
    rt.register(&S).unwrap();
    let mut out = [0u8; 256];
    let n = rt.handle(br#"{"jsonrpc":"2.0","method":"foo/bar"}"#, &mut out);
    assert_eq!(n, 0, "unknown method on a notification must still be silent");
}

#[test]
fn test_register_returns_err_when_full() {
    static S: Stub = Stub;
    let mut rt: Runtime<'_, 1, 512> = Runtime::new();
    assert!(rt.register(&S).is_ok());
    assert!(rt.register(&S).is_err(), "second register past N must Err, not panic");
}

#[test]
fn test_response_truncation_drops_response() {
    static S: Stub = Stub;
    let mut rt: Runtime<'_, 1, 512> = Runtime::new();
    rt.register(&S).unwrap();
    let mut out = [0u8; 16];
    let n = rt.handle(b"{\"jsonrpc\":\"2.0\",\"id\":1,\"method\":\"tools/list\"}", &mut out);
    assert_eq!(n, 0, "truncated response must be dropped, not partially emitted");
}

#[test]
fn test_output_overflow_returns_err() {
    let mut buf = [0u8; 4];
    let mut out = Output::new(&mut buf);
    let r = out.write_str("too long");
    assert!(r.is_err(), "Output::write_str must Err on overflow, got Ok");
}

#[test]
fn test_obj_get() {
    let json = br#"{"outer":{"inner":"value"},"key":"data"}"#;
    let val = obj_get(json, b"outer").unwrap();
    assert_eq!(val, br#"{"inner":"value"}"#);
    let inner = obj_get(val, b"inner").unwrap();
    assert_eq!(inner, br#""value""#);
    let data = obj_get(json, b"key").unwrap();
    assert_eq!(data, br#""data""#);
}

#[test]
fn test_esc() {
    fn run(input: &str) -> String {
        let mut buf = [0u8; 256];
        let pos = {
            let mut w = Writer::new();
            w.esc(&mut buf, input);
            w.pos()
        };
        core::str::from_utf8(&buf[..pos]).unwrap().to_string()
    }
    assert_eq!(run(""), "");
    assert_eq!(run("plain text"), "plain text");
    assert_eq!(run("a\nb"), "a\\nb");
    assert_eq!(run("\"quoted\""), "\\\"quoted\\\"");
    assert_eq!(run("\n\t"), "\\n\\t");
    assert_eq!(run("a\\b"), "a\\\\b");
    assert_eq!(run("end\n"), "end\\n");
    assert_eq!(run("\rstart"), "\\rstart");
    assert_eq!(run("\x08"), "\\b");
    assert_eq!(run("\x0c"), "\\f");
    assert_eq!(run("\x01"), "\\u0001");
    assert_eq!(run("\x1f"), "\\u001f");
    assert_eq!(run("ok\x07bell"), "ok\\u0007bell");
}

#[test]
fn test_obj_get_not_fooled_by_string_content() {
    let json = br#"{"trap":"\"target\":fake","target":"real"}"#;
    let val = obj_get(json, b"target").unwrap();
    assert_eq!(val, br#""real""#);
}

#[test]
fn fuzz_handle_never_panics_on_untrusted_input() {
    static S: Stub = Stub;
    let mut rt: Runtime<'_, 1, 512> = Runtime::new();
    rt.register(&S).unwrap();

    // xorshift: deterministic, no dev-dependency. Any panic fails the test.
    let mut st: u64 = 0x243F6A8885A308D3;
    let mut rnd = move || {
        st ^= st << 13;
        st ^= st >> 7;
        st ^= st << 17;
        st
    };

    let alpha: &[u8] = b"{}[]\":,0123456789tfnaeul \\\n\t\x00\xff-+.eE";
    let seeds: &[&[u8]] = &[
        br#"{"jsonrpc":"2.0","id":1,"method":"tools/call","params":{"name":"temp_read","arguments":{}}}"#,
        br#"{"id":null,"method":"tools/list"}"#,
        br#"{"id":"x","method":"initialize"}"#,
    ];
    let mut buf = [0u8; 512];

    // 1. Pure random bytes.
    for _ in 0..40_000 {
        let len = (rnd() % 96) as usize;
        let input: Vec<u8> = (0..len).map(|_| alpha[(rnd() % alpha.len() as u64) as usize]).collect();
        let mut out = [0u8; 512];
        rt.handle(&input, &mut out);
    }

    // 2. Truncations of every prefix of valid messages.
    for seed in seeds {
        for cut in 0..seed.len() {
            let mut out = [0u8; 512];
            rt.handle(&seed[..cut], &mut out);
        }
    }

    // 3. Single-byte mutations of valid messages.
    for seed in seeds {
        for pos in 0..seed.len() {
            for &b in alpha {
                let mut m = seed.to_vec();
                m[pos] = b;
                let mut out = [0u8; 512];
                rt.handle(&m, &mut out);
            }
        }
    }

    // 4. Pathological nesting.
    for depth in [64usize, 1000, 10_000] {
        let mut deep = Vec::from(&b"{\"id\":1,\"method\":\"tools/list\",\"params\":"[..]);
        deep.extend(std::iter::repeat_n(b'[', depth));
        deep.extend(std::iter::repeat_n(b']', depth));
        deep.push(b'}');
        let mut out = [0u8; 512];
        rt.handle(&deep, &mut out);
    }

    // 5. Tiny output buffers against valid input (truncation path).
    for cap in 1..80usize {
        let n = rt.handle(seeds[0], &mut buf[..cap]);
        assert!(n == 0 || n <= cap, "wrote {n} into {cap}");
    }
}

#[test]
fn tools_list_joins_entries_of_every_provider_in_order() {
    struct Two;
    impl Provider for Two {
        fn tools(&self) -> &[Tool] {
            static T: &[Tool] = &[
                Tool { name: "a", description: "x\"y" },
                Tool { name: "b", description: "" },
            ];
            T
        }
        fn call(&self, _: &str, _: &[u8], _: &mut Output) -> Result<(), &'static str> {
            Ok(())
        }
    }
    static S: Stub = Stub;
    static W: Two = Two;
    let mut rt: Runtime<'_, 3, 512> = Runtime::new();
    rt.register(&W).unwrap();
    rt.register(&S).unwrap();
    let mut out = [0u8; 512];
    let n = rt.handle(br#"{"id":7,"method":"tools/list"}"#, &mut out);
    let s = core::str::from_utf8(&out[..n]).unwrap();
    assert_eq!(
        s,
        "{\"jsonrpc\":\"2.0\",\"id\":7,\"result\":{\"tools\":[\
         {\"name\":\"a\",\"description\":\"x\\\"y\",\"inputSchema\":{\"type\":\"object\"}},\
         {\"name\":\"b\",\"description\":\"\",\"inputSchema\":{\"type\":\"object\"}},\
         {\"name\":\"temp_read\",\"description\":\"Read temperature\",\"inputSchema\":{\"type\":\"object\"}}]}}\n"
    );
}

#[test]
fn tools_call_without_name_is_bad_params() {
    static S: Stub = Stub;
    let mut rt: Runtime<'_, 1, 512> = Runtime::new();
    rt.register(&S).unwrap();
    let mut out = [0u8; 512];
    let n = rt.handle(br#"{"id":9,"method":"tools/call","params":{"arguments":{}}}"#, &mut out);
    let s = core::str::from_utf8(&out[..n]).unwrap();
    assert_eq!(s, "{\"jsonrpc\":\"2.0\",\"id\":9,\"error\":{\"code\":-32600,\"message\":\"bad params\"}}\n");
}

#[test]
fn unknown_method_gets_method_not_found() {
    let rt: Runtime<'_, 1, 512> = Runtime::new();
    let mut out = [0u8; 512];
    let n = rt.handle(br#"{"id":"q","method":"ping"}"#, &mut out);
    let s = core::str::from_utf8(&out[..n]).unwrap();
    assert_eq!(s, "{\"jsonrpc\":\"2.0\",\"id\":\"q\",\"error\":{\"code\":-32601,\"message\":\"method not found\"}}\n");
}

#[test]
fn tool_result_is_escaped_into_text_content() {
    struct Quote;
    impl Provider for Quote {
        fn tools(&self) -> &[Tool] {
            static T: &[Tool] = &[Tool { name: "q", description: "" }];
            T
        }
        fn call(&self, _: &str, _: &[u8], out: &mut Output) -> Result<(), &'static str> {
            out.write_str("a\"b\n").unwrap();
            Ok(())
        }
    }
    static Q: Quote = Quote;
    let mut rt: Runtime<'_, 1, 16> = Runtime::new();
    rt.register(&Q).unwrap();
    let mut out = [0u8; 256];
    let n = rt.handle(br#"{"id":1,"method":"tools/call","params":{"name":"q"}}"#, &mut out);
    let s = core::str::from_utf8(&out[..n]).unwrap();
    assert_eq!(
        s,
        "{\"jsonrpc\":\"2.0\",\"id\":1,\"result\":{\"content\":[{\"type\":\"text\",\"text\":\"a\\\"b\\n\"}]}}\n"
    );
}

#[test]
fn parse_error_reply_is_exact_and_fits_or_is_dropped() {
    let rt: Runtime<'_, 1, 512> = Runtime::new();
    let mut out = [0u8; 128];
    let n = rt.handle(b"[1,2]", &mut out);
    assert_eq!(
        &out[..n],
        b"{\"jsonrpc\":\"2.0\",\"id\":null,\"error\":{\"code\":-32700,\"message\":\"parse error\"}}\n"
    );
    let mut small = [0u8; 10];
    assert_eq!(rt.handle(b"[1,2]", &mut small), 0);
}

#[test]
fn output_keeps_what_fit_and_refuses_the_rest() {
    let mut buf = [0u8; 6];
    let mut out = Output::new(&mut buf);
    assert!(out.write_str("abc").is_ok());
    assert!(out.write_str("defg").is_err());
    assert!(out.write_str("def").is_ok());
    assert_eq!(out.as_bytes(), b"abcdef");
}

#[test]
fn register_fills_the_first_free_slot() {
    static S: Stub = Stub;
    let mut rt: Runtime<'_, 2, 512> = Runtime::default();
    assert!(rt.register(&S).is_ok());
    assert!(rt.register(&S).is_ok());
    assert_eq!(rt.register(&S), Err("provider limit (N) reached"));
}

#[test]
fn writer_writes_nothing_once_truncated() {
    let mut buf = [0u8; 4];
    let mut w = Writer::new();
    w.push(&mut buf, b"ab");
    w.push(&mut buf, b"cdef");
    assert!(w.truncated());
    assert_eq!(w.pos(), 2);
    assert_eq!(&buf, b"ab\0\0", "a write that does not fit writes nothing");
    w.push(&mut buf, b"x");
    w.esc(&mut buf, "\n");
    assert_eq!(w.pos(), 2);
    assert_eq!(&buf, b"ab\0\0", "nothing is written after truncation");
    assert_eq!(w.finish(), 0);
}

#[test]
fn every_reply_to_a_request_echoes_its_id_and_ends_with_newline() {
    static S: Stub = Stub;
    let mut rt: Runtime<'_, 2, 512> = Runtime::new();
    rt.register(&S).unwrap();
    let msgs: [&[u8]; 6] = [
        br#"{"jsonrpc":"2.0","id":"abc","method":"initialize"}"#,
        br#"{"jsonrpc":"2.0","id":"abc","method":"tools/list"}"#,
        br#"{"jsonrpc":"2.0","id":"abc","method":"tools/call","params":{"name":"temp_read"}}"#,
        br#"{"jsonrpc":"2.0","id":"abc","method":"tools/call","params":{"name":"nope"}}"#,
        br#"{"jsonrpc":"2.0","id":"abc","method":"tools/call"}"#,
        br#"{"jsonrpc":"2.0","id":"abc","method":"bogus"}"#,
    ];
    for m in msgs.iter() {
        let mut out = [0u8; 512];
        let n = rt.handle(m, &mut out);
        assert!(n > 0);
        assert!(out[..n].starts_with(br#"{"jsonrpc":"2.0","id":"abc""#));
        assert_eq!(out[n - 1], b'\n');
    }
}
