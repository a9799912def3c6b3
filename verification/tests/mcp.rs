use lxp_scan::clones::KindFilter;
use lxp_scan::fingerprint::DEFAULT_MIN_TOKENS;
use lxp_scan::json::JsonValue;
use lxp_scan::mcp::{
    clones_text, impact_text, method_not_found, plan_message, plan_request, plan_tool, protocol_version, read_message,
    reply, required_arguments, tool_names, tool_result, unknown_method_reply, Request, ToolCall,
};

#[test]
fn initialize_reports_tools_capability_and_echoes_version() {
    assert_eq!(plan_message(Some("initialize"), true), Some(Request::Initialize));
    assert_eq!(protocol_version(Some("2025-06-18")), "2025-06-18");
    assert_eq!(protocol_version(Some("2024-11-05")), "2024-11-05");
    assert_eq!(protocol_version(None), "2025-06-18");
}

#[test]
fn notifications_get_no_response() {
    assert_eq!(plan_message(Some("notifications/initialized"), false), None);
    assert_eq!(plan_message(None, true), None);
}

#[test]
fn tools_list_exposes_all_five_tools() {
    assert_eq!(plan_message(Some("tools/list"), true), Some(Request::ToolsList));
    assert_eq!(tool_names(), vec!["impact", "context", "drift", "dupes", "clones"]);
}

#[test]
fn missing_symbol_and_unknown_tool_are_tool_errors_not_crashes() {
    let missing = plan_tool("impact", None, None, None, None, None);
    let ToolCall::Invalid(reason) = missing else { panic!("expected an invalid call") };
    assert_eq!(reason, "missing required argument: symbol");
    let (text, is_error) = tool_result(Err(reason), 0);
    assert!(is_error);
    assert_eq!(text, "error: missing required argument: symbol");
    let unknown = plan_tool("nope", None, None, None, None, None);
    let ToolCall::Invalid(reason) = unknown else { panic!("expected an invalid call") };
    assert_eq!(reason, "unknown tool: nope");
    assert!(tool_result(Err(reason), 0).1);
}

#[test]
fn unknown_method_returns_jsonrpc_error() {
    assert_eq!(plan_message(Some("bogus/method"), true), Some(Request::Unknown));
    assert_eq!(method_not_found("bogus/method"), "method not found: bogus/method");
}

#[test]
fn ping_is_answered() {
    assert_eq!(plan_message(Some("ping"), true), Some(Request::Ping));
    assert_eq!(plan_message(Some("tools/call"), true), Some(Request::ToolsCall));
}

#[test]
fn tool_calls_carry_their_arguments() {
    match plan_tool("impact", Some("Button"), Some("fake-lib"), None, None, None) {
        ToolCall::Impact { symbol, from } => {
            assert_eq!(symbol, "Button");
            assert_eq!(from.as_deref(), Some("fake-lib"));
        }
        _ => panic!("expected an impact call"),
    }
    match plan_tool("context", Some("Button"), None, None, None, None) {
        ToolCall::Context { symbol, from, sites } => {
            assert_eq!(symbol, "Button");
            assert!(from.is_none());
            assert_eq!(sites, 8);
        }
        _ => panic!("expected a context call"),
    }
    match plan_tool("context", Some("Button"), None, Some(2), None, None) {
        ToolCall::Context { sites, .. } => assert_eq!(sites, 2),
        _ => panic!("expected a context call"),
    }
    assert!(matches!(plan_tool("drift", None, None, None, None, None), ToolCall::Drift));
    assert!(matches!(plan_tool("dupes", Some("x"), None, None, None, None), ToolCall::Dupes));
    match plan_tool("clones", Some("validateEmail"), None, None, None, None) {
        ToolCall::Clones(o) => {
            assert_eq!(o.symbol.as_deref(), Some("validateEmail"));
            assert_eq!(o.min_tokens, DEFAULT_MIN_TOKENS);
            assert!(!o.same_file);
            assert_eq!(o.kind, KindFilter::All);
        }
        _ => panic!("expected a clones call"),
    }
    match plan_tool("clones", None, None, None, Some(500), Some(true)) {
        ToolCall::Clones(o) => {
            assert_eq!(o.min_tokens, 500);
            assert!(o.same_file);
        }
        _ => panic!("expected a clones call"),
    }
}

#[test]
fn tool_texts_end_with_counts_and_suppressed_warnings() {
    assert_eq!(impact_text("app-one (1 site)\n", 1), "app-one (1 site)\n\n1 usage site(s)\n");
    assert_eq!(clones_text("", 0), "\n0 clone cluster(s)\n");
    let (text, is_error) = tool_result(Ok("done\n".to_string()), 3);
    assert!(!is_error);
    assert_eq!(text, "done\n\n(3 warning(s) suppressed)\n");
    assert_eq!(tool_result(Ok("done\n".to_string()), 0).0, "done\n");
}

fn obj(es: Vec<(&str, JsonValue)>) -> JsonValue {
    JsonValue::Object(es.into_iter().map(|(k, v)| (k.to_string(), v)).collect())
}

fn text(s: &str) -> JsonValue {
    JsonValue::Str(s.to_string())
}

fn num(s: &str) -> JsonValue {
    JsonValue::Number(s.to_string())
}

#[test]
fn blank_and_malformed_lines_are_skipped() {
    assert!(read_message("").is_none());
    assert!(read_message("   \t ").is_none());
    assert!(read_message("{ not json").is_none());
    let m = read_message(r#" {"jsonrpc":"2.0","id":7,"method":"ping"} "#).expect("a message");
    assert!(matches!(m.get("id"), Some(JsonValue::Number(n)) if n == "7"));
    assert!(matches!(m.get("method"), Some(JsonValue::Str(s)) if s == "ping"));
}

#[test]
fn requests_are_planned_with_their_id_and_notifications_are_not() {
    let ping = obj(vec![("jsonrpc", text("2.0")), ("id", num("7")), ("method", text("ping"))]);
    let (q, id) = plan_request(&ping).expect("a request");
    assert_eq!(q, Request::Ping);
    assert!(matches!(id, JsonValue::Number(n) if n == "7"));
    let note = obj(vec![("jsonrpc", text("2.0")), ("method", text("notifications/initialized"))]);
    assert!(plan_request(&note).is_none());
    let no_method = obj(vec![("id", num("1")), ("method", num("3"))]);
    assert!(plan_request(&no_method).is_none());
    let other = obj(vec![("id", text("abc")), ("method", text("resources/list"))]);
    assert_eq!(plan_request(&other).map(|(q, _)| q), Some(Request::Unknown));
}

fn member<'a>(v: &'a JsonValue, k: &str) -> &'a JsonValue {
    v.get(k).unwrap_or_else(|| panic!("no member {k}"))
}

#[test]
fn answers_echo_the_id_under_jsonrpc_two() {
    let r = reply(num("42"), obj(vec![]));
    assert!(matches!(member(&r, "jsonrpc"), JsonValue::Str(s) if s == "2.0"));
    assert!(matches!(member(&r, "id"), JsonValue::Number(n) if n == "42"));
    assert!(matches!(member(&r, "result"), JsonValue::Object(es) if es.is_empty()));
    assert!(r.get("error").is_none());
}

#[test]
fn unknown_methods_get_method_not_found() {
    let r = unknown_method_reply(text("req-1"), "resources/list");
    assert!(matches!(member(&r, "jsonrpc"), JsonValue::Str(s) if s == "2.0"));
    assert!(matches!(member(&r, "id"), JsonValue::Str(s) if s == "req-1"));
    let e = member(&r, "error");
    assert!(matches!(member(e, "code"), JsonValue::Number(n) if n == "-32601"));
    assert!(matches!(member(e, "message"), JsonValue::Str(s) if s == "method not found: resources/list"));
    assert!(r.get("result").is_none());
}

#[test]
fn impact_and_context_require_a_symbol() {
    assert_eq!(required_arguments("impact"), vec!["symbol".to_string()]);
    assert_eq!(required_arguments("context"), vec!["symbol".to_string()]);
    for name in ["drift", "dupes", "clones"] {
        assert!(required_arguments(name).is_empty());
    }
}
