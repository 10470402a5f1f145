use lib::minimal::{Provider, Runtime, Tool, ToolResult, Transport};
use std::collections::HashMap;
use std::sync::Mutex;

struct Sensor {
    name: String,
}

impl Provider for Sensor {
    fn name(&self) -> &str {
        &self.name
    }
    fn tools(&self) -> Vec<Tool> {
        vec![
            Tool { name: format!("{}_read", self.name), description: format!("Read {}", self.name) },
            Tool { name: format!("{}_set", self.name), description: format!("Set {}", self.name) },
        ]
    }
    fn call(&self, tool: &str, params: &HashMap<String, String>) -> ToolResult {
        if tool == format!("{}_read", self.name) {
            ToolResult::Done(format!("{} \"ok\"\nline", params.get("name").cloned().unwrap_or_default()))
        } else {
            ToolResult::Failed("read only".to_string())
        }
    }
}

#[test]
fn minimal_lists_tools_of_every_provider() {
    let a = Sensor { name: "temp".to_string() };
    let b = Sensor { name: "hum".to_string() };
    let mut rt = Runtime::new();
    rt.register(&a);
    rt.register(&b);
    let tools = rt.list_tools();
    let names: Vec<&str> = tools.iter().map(|t| t.name.as_str()).collect();
    assert_eq!(names, vec!["temp_read", "temp_set", "hum_read", "hum_set"]);
}

#[test]
fn minimal_initialize_and_list() {
    let a = Sensor { name: "temp".to_string() };
    let mut rt = Runtime::new();
    rt.register(&a);
    assert_eq!(
        rt.handle_message(r#"{"jsonrpc":"2.0","id":1,"method":"initialize"}"#),
        r#"{"jsonrpc":"2.0","id":1,"result":{"protocolVersion":"2024-11-05","capabilities":{"tools":{}}}}"#
    );
    assert_eq!(
        rt.handle_message(r#"{"jsonrpc":"2.0","id":2,"method":"tools/list"}"#),
        r#"{"jsonrpc":"2.0","id":2,"result":{"tools":[{"name":"temp_read","description":"Read temp"},{"name":"temp_set","description":"Set temp"}]}}"#
    );
}

#[test]
fn minimal_call_escapes_result_and_reports_errors() {
    let a = Sensor { name: "temp".to_string() };
    let mut rt = Runtime::new();
    rt.register(&a);
    assert_eq!(
        rt.handle_message(r#"{"jsonrpc":"2.0","id":3,"method":"tools/call","params":{"name":"temp_read"}}"#),
        "{\"jsonrpc\":\"2.0\",\"id\":3,\"result\":{\"content\":[{\"type\":\"text\",\"text\":\"temp_read \\\"ok\\\"\\nline\"}]}}"
    );
    assert_eq!(
        rt.handle_message(r#"{"jsonrpc":"2.0","id":4,"method":"tools/call","params":{"name":"temp_set"}}"#),
        r#"{"jsonrpc":"2.0","id":4,"error":{"code":-1,"message":"read only"}}"#
    );
    assert_eq!(
        rt.handle_message(r#"{"jsonrpc":"2.0","id":5,"method":"tools/call","params":{"name":"nope"}}"#),
        r#"{"jsonrpc":"2.0","id":5,"error":{"code":-1,"message":"unknown tool: nope"}}"#
    );
}

#[test]
fn minimal_parse_errors_and_unknown_methods() {
    let rt = Runtime::new();
    let parse_error = r#"{"jsonrpc":"2.0","id":0,"error":{"code":-1,"message":"parse error"}}"#;
    assert_eq!(rt.handle_message("not json"), parse_error);
    assert_eq!(rt.handle_message(r#"{"id":"x","method":"tools/list"}"#), parse_error);
    assert_eq!(rt.handle_message(r#"{"id":99999999999999999999,"method":"a"}"#), parse_error);
    assert_eq!(
        rt.handle_message(r#"{"id": 7 ,"method":"ping"}"#),
        r#"{"jsonrpc":"2.0","id":7,"error":{"code":-1,"message":"method not found"}}"#
    );
}

#[test]
fn minimal_call_tool_routes_to_the_latest_provider() {
    let a = Sensor { name: "x".to_string() };
    let b = Sensor { name: "x".to_string() };
    let mut rt = Runtime::new();
    rt.register(&a);
    rt.register(&b);
    match rt.call_tool("x_set", &HashMap::new()) {
        ToolResult::Failed(e) => assert_eq!(e, "read only"),
        ToolResult::Done(_) => panic!("x_set is read only"),
    }
    match rt.call_tool("y", &HashMap::new()) {
        ToolResult::Failed(e) => assert_eq!(e, "unknown tool: y"),
        ToolResult::Done(_) => panic!("no such tool"),
    }
}

/// Hands each scripted message to the handler and keeps the replies.
struct Scripted {
    inbox: Vec<&'static str>,
    replies: Mutex<Vec<String>>,
}

impl Transport for Scripted {
    fn serve<F>(&self, handler: F)
    where
        F: Fn(&str) -> String + Send + Sync + 'static,
    {
        for m in &self.inbox {
            self.replies.lock().unwrap().push(handler(m));
        }
    }
}

/// A transport the test keeps a handle on after `serve` consumed it.
struct ByRef(std::sync::Arc<Scripted>);

impl Transport for ByRef {
    fn serve<F>(&self, handler: F)
    where
        F: Fn(&str) -> String + Send + Sync + 'static,
    {
        self.0.serve(handler)
    }
}

#[test]
fn minimal_serve_answers_every_message_through_the_runtime() {
    let sensor: &'static Sensor = Box::leak(Box::new(Sensor { name: "temp".to_string() }));
    let mut rt = Runtime::new();
    rt.register(sensor);
    let t = Scripted {
        inbox: vec![
            r#"{"jsonrpc":"2.0","id":7,"method":"tools/call","params":{"name":"temp_set"}}"#,
            "garbage",
        ],
        replies: Mutex::new(Vec::new()),
    };
    let shared = std::sync::Arc::new(t);
    rt.serve(ByRef(shared.clone()));
    let replies = shared.replies.lock().unwrap().clone();
    assert_eq!(
        replies,
        vec![
            r#"{"jsonrpc":"2.0","id":7,"error":{"code":-1,"message":"read only"}}"#.to_string(),
            r#"{"jsonrpc":"2.0","id":0,"error":{"code":-1,"message":"parse error"}}"#.to_string(),
        ]
    );
}

/// A sensor whose reading is a float.
struct MockSensor {
    name: String,
    value: Mutex<f32>,
}

impl MockSensor {
    fn new(name: &str, initial: f32) -> Self {
        Self { name: name.to_string(), value: Mutex::new(initial) }
    }
}

impl Provider for MockSensor {
    fn name(&self) -> &str {
        &self.name
    }

    fn tools(&self) -> Vec<Tool> {
        vec![
            Tool {
                name: format!("{}_read", self.name),
                description: format!("Read current value from {} sensor", self.name),
            },
            Tool {
                name: format!("{}_set", self.name),
                description: format!("Set value for {} sensor (mock)", self.name),
            },
        ]
    }

    fn call(&self, tool: &str, params: &HashMap<String, String>) -> ToolResult {
        if tool == format!("{}_read", self.name) {
            let val = self.value.lock().unwrap();
            ToolResult::Done(format!("{:.1}", *val))
        } else if tool == format!("{}_set", self.name) {
            if let Some(v) = params.get("value").and_then(|s| s.parse::<f32>().ok()) {
                *self.value.lock().unwrap() = v;
                ToolResult::Done("ok".to_string())
            } else {
                ToolResult::Failed("missing or invalid 'value' param".to_string())
            }
        } else {
            ToolResult::Failed("unknown tool".to_string())
        }
    }
}

#[test]
fn test_runtime() {
    let sensor = MockSensor::new("temp", 20.0);
    let mut runtime = Runtime::new();
    runtime.register(&sensor);

    let tools = runtime.list_tools();
    assert_eq!(tools.len(), 2);

    let result = runtime.call_tool("temp_read", &HashMap::new());
    match result {
        ToolResult::Done(v) => assert_eq!(v, "20.0"),
        ToolResult::Failed(e) => panic!("unexpected error: {}", e),
    }
}

#[test]
fn test_mcp_messages() {
    let sensor = MockSensor::new("temp", 25.0);
    let mut runtime = Runtime::new();
    runtime.register(&sensor);

    let resp = runtime.handle_message(r#"{"jsonrpc":"2.0","id":1,"method":"initialize"}"#);
    assert!(resp.contains("protocolVersion"));

    let resp = runtime.handle_message(r#"{"jsonrpc":"2.0","id":2,"method":"tools/list"}"#);
    assert!(resp.contains("temp_read"));

    let resp = runtime.handle_message(
        r#"{"jsonrpc":"2.0","id":3,"method":"tools/call","params":{"name":"temp_read"}}"#,
    );
    assert!(resp.contains("25.0"));
}

#[test]
fn minimal_id_after_unicode_white_space_is_read() {
    let a = Sensor { name: "temp".to_string() };
    let mut rt = Runtime::new();
    rt.register(&a);
    assert_eq!(
        rt.handle_message("{\"jsonrpc\":\"2.0\",\"id\":\u{a0}\u{3000}\u{2028} 12,\"method\":\"initialize\"}"),
        r#"{"jsonrpc":"2.0","id":12,"result":{"protocolVersion":"2024-11-05","capabilities":{"tools":{}}}}"#
    );
}
