//! The decisions of the stdio tool server: which requests are answered,
//! which scan a tool call runs, and the text a tool answers with. Reading
//! and writing the JSON-RPC messages happens outside the library.
use vstd::prelude::*;
use crate::clones::{CloneOptions, KindFilter};
use crate::digits::{decimal, push_decimal};
use crate::fingerprint::DEFAULT_MIN_TOKENS;
use crate::json::{JsonValue, json_document, parse_json};
use crate::order::compare_str;
use crate::text::{owned, push_str, views, chars_of, trim_chars, trim_ws};

verus! {

/// The JSON-RPC methods the server knows.
#[derive(PartialEq, Eq, Structural, Clone, Copy, Debug)]
pub enum Request {
    Initialize,
    Ping,
    ToolsList,
    ToolsCall,
    Unknown,
}

/// The request a method names.
pub open spec fn request_of(method: Seq<char>) -> Request {
    if method == "initialize"@ {
        Request::Initialize
    } else if method == "ping"@ {
        Request::Ping
    } else if method == "tools/list"@ {
        Request::ToolsList
    } else if method == "tools/call"@ {
        Request::ToolsCall
    } else {
        Request::Unknown
    }
}

/// Whether two strings are equal.
fn same(a: &str, b: &str) -> (r: bool)
    ensures
        r == (a@ == b@),
{
    compare_str(a, b) == 0
}

/// Which request a message is, if it is answered at all: a message without
/// a method or without an id (a notification) gets no answer.
pub fn plan_message(method: Option<&str>, has_id: bool) -> (r: Option<Request>)
    ensures
        r == (match method {
            Some(m) => if has_id {
                Some(request_of(m@))
            } else {
                None
            },
            None => None,
        }),
{
    let m = match method {
        Some(m) => m,
        None => return None,
    };
    if !has_id {
        return None;
    }
    Some(
        if same(m, "initialize") {
            Request::Initialize
        } else if same(m, "ping") {
            Request::Ping
        } else if same(m, "tools/list") {
            Request::ToolsList
        } else if same(m, "tools/call") {
            Request::ToolsCall
        } else {
            Request::Unknown
        },
    )
}

/// A line of the stdio stream as a message: a blank line, or one that is
/// not a JSON document, is skipped.
pub fn read_message(line: &str) -> (r: Option<JsonValue>)
    ensures
        trim_ws(line@).len() == 0 ==> r is None,
        trim_ws(line@).len() > 0 ==> r == (match json_document(line@) {
            Ok(v) => Some(v),
            Err(_) => None,
        }),
{
    let t = trim_chars(&chars_of(line));
    if t.len() == 0 {
        return None;
    }
    match parse_json(line) {
        Ok(v) => Some(v),
        Err(_) => None,
    }
}

/// The method a message names, if its `method` member is a string.
pub open spec fn method_of(message: JsonValue) -> Option<Seq<char>> {
    match message.get_spec("method"@) {
        Some(JsonValue::Str(m)) => Some(m@),
        _ => None,
    }
}

/// Which request a message is and the id it carries, if it is answered at
/// all: a message whose `method` is not a string, or that has no `id` (a
/// notification), gets no answer.
pub fn plan_request(message: &JsonValue) -> (r: Option<(Request, &JsonValue)>)
    ensures
        r is Some <==> (method_of(*message) is Some && message.get_spec("id"@) is Some),
        r matches Some((q, id)) ==> q == request_of(method_of(*message)->0) && message.get_spec("id"@) == Some(*id),
{
    let method: Option<&str> = match message.get("method") {
        Some(JsonValue::Str(m)) => Some(m.as_str()),
        _ => None,
    };
    let id = message.get("id");
    match plan_message(method, id.is_some()) {
        Some(q) => match id {
            Some(id) => Some((q, id)),
            None => None,
        },
        None => None,
    }
}

/// The error message for an unknown method.
pub fn method_not_found(method: &str) -> (s: String)
    ensures
        s@ == "method not found: "@ + method@,
{
    let mut s = owned("method not found: ");
    push_str(&mut s, method);
    s
}

/// The protocol version answered: the client's, else the one the server
/// was written against.
pub fn protocol_version(requested: Option<&str>) -> (s: String)
    ensures
        s@ == (match requested {
            Some(v) => v@,
            None => "2025-06-18"@,
        }),
{
    match requested {
        Some(v) => owned(v),
        None => owned("2025-06-18"),
    }
}

/// The tools, in the order they are listed.
pub fn tool_names() -> (r: Vec<String>)
    ensures
        views(r@) == seq!["impact"@, "context"@, "drift"@, "dupes"@, "clones"@],
{
    let mut r: Vec<String> = Vec::new();
    r.push(owned("impact"));
    r.push(owned("context"));
    r.push(owned("drift"));
    r.push(owned("dupes"));
    r.push(owned("clones"));
    assert(views(r@) =~= seq!["impact"@, "context"@, "drift"@, "dupes"@, "clones"@]);
    r
}

/// The scan a tool call asks for.
pub enum ToolCall {
    Impact { symbol: String, from: Option<String> },
    Context { symbol: String, from: Option<String>, sites: usize },
    Drift,
    Dupes,
    Clones(CloneOptions),
    /// a call that cannot run, with the reason
    Invalid(String),
}

/// An optional string as an optional character sequence.
pub open spec fn opt(o: Option<&str>) -> Option<Seq<char>> {
    match o {
        Some(s) => Some(s@),
        None => None,
    }
}

/// An optional owned string as an optional character sequence.
pub open spec fn opt_owned(o: Option<String>) -> Option<Seq<char>> {
    match o {
        Some(s) => Some(s@),
        None => None,
    }
}

fn copy_opt(o: Option<&str>) -> (r: Option<String>)
    ensures
        opt_owned(r) == opt(o),
{
    match o {
        Some(s) => Some(owned(s)),
        None => None,
    }
}

/// `call` is the scan that tool `name` with these arguments asks for:
/// `impact` and `context` need a symbol (`context` shows 8 sites unless
/// told otherwise), `drift` and `dupes` take nothing, `clones` takes an
/// optional symbol, floor and same-file switch; anything else is invalid.
pub open spec fn plans(
    call: ToolCall,
    name: Seq<char>,
    symbol: Option<&str>,
    from: Option<&str>,
    sites: Option<u64>,
    min_tokens: Option<u64>,
    same_file: Option<bool>,
) -> bool {
    if name == "impact"@ && symbol is Some {
        call matches ToolCall::Impact { symbol: s, from: f } && s@ == symbol->0@ && opt_owned(f) == opt(from)
    } else if name == "context"@ && symbol is Some {
        call matches ToolCall::Context { symbol: s, from: f, sites: n } && s@ == symbol->0@ && opt_owned(f) == opt(
            from,
        ) && n == (match sites {
            Some(v) => v as usize,
            None => 8usize,
        })
    } else if name == "drift"@ {
        call is Drift
    } else if name == "dupes"@ {
        call is Dupes
    } else if name == "clones"@ {
        call matches ToolCall::Clones(o) && opt_owned(o.symbol) == opt(symbol) && o.same_file == (match same_file {
            Some(b) => b,
            None => false,
        }) && o.min_tokens == (match min_tokens {
            Some(v) => v as usize,
            None => DEFAULT_MIN_TOKENS,
        }) && o.kind == KindFilter::All
    } else if name == "impact"@ || name == "context"@ {
        call matches ToolCall::Invalid(m) && m@ == "missing required argument: symbol"@
    } else {
        call matches ToolCall::Invalid(m) && m@ == "unknown tool: "@ + name
    }
}

/// The scan a tool call asks for.
pub fn plan_tool(
    name: &str,
    symbol: Option<&str>,
    from: Option<&str>,
    sites: Option<u64>,
    min_tokens: Option<u64>,
    same_file: Option<bool>,
) -> (r: ToolCall)
    ensures
        plans(r, name@, symbol, from, sites, min_tokens, same_file),
{
    if same(name, "impact") && symbol.is_some() {
        return ToolCall::Impact { symbol: owned(symbol.unwrap()), from: copy_opt(from) };
    }
    if same(name, "context") && symbol.is_some() {
        let n: usize = match sites {
            Some(v) => v as usize,
            None => 8,
        };
        return ToolCall::Context { symbol: owned(symbol.unwrap()), from: copy_opt(from), sites: n };
    }
    if same(name, "drift") {
        return ToolCall::Drift;
    }
    if same(name, "dupes") {
        return ToolCall::Dupes;
    }
    if same(name, "clones") {
        let opts = CloneOptions {
            min_tokens: match min_tokens {
                Some(v) => v as usize,
                None => DEFAULT_MIN_TOKENS,
            },
            symbol: copy_opt(symbol),
            kind: KindFilter::All,
            same_file: match same_file {
                Some(b) => b,
                None => false,
            },
        };
        return ToolCall::Clones(opts);
    }
    if same(name, "impact") || same(name, "context") {
        return ToolCall::Invalid(owned("missing required argument: symbol"));
    }
    let mut m = owned("unknown tool: ");
    push_str(&mut m, name);
    ToolCall::Invalid(m)
}

/// What the impact tool answers: the report, then the number of sites.
pub fn impact_text(report: &str, sites: usize) -> (s: String)
    ensures
        s@ == report@ + "\n"@ + decimal(sites as nat) + " usage site(s)\n"@,
{
    let mut s = owned(report);
    push_str(&mut s, "\n");
    push_decimal(&mut s, sites);
    push_str(&mut s, " usage site(s)\n");
    s
}

/// What the clones tool answers: the report, then the number of clusters.
pub fn clones_text(report: &str, clusters: usize) -> (s: String)
    ensures
        s@ == report@ + "\n"@ + decimal(clusters as nat) + " clone cluster(s)\n"@,
{
    let mut s = owned(report);
    push_str(&mut s, "\n");
    push_decimal(&mut s, clusters);
    push_str(&mut s, " clone cluster(s)\n");
    s
}

/// The text of a tool result and whether it is an error: a successful
/// output notes how many warnings were suppressed; a failure reads
/// `error: ` and the reason.
pub fn tool_result(output: Result<String, String>, warnings: usize) -> (r: (String, bool))
    ensures
        match output {
            Ok(t) => !r.1 && r.0@ == t@ + (if warnings > 0 {
                "\n("@ + decimal(warnings as nat) + " warning(s) suppressed)\n"@
            } else {
                ""@
            }),
            Err(e) => r.1 && r.0@ == "error: "@ + e@,
        },
{
    match output {
        Ok(t) => {
            let mut text = t;
            if warnings > 0 {
                push_str(&mut text, "\n(");
                push_decimal(&mut text, warnings);
                push_str(&mut text, " warning(s) suppressed)\n");
            }
            proof {
                reveal_strlit("");
            }
            (text, false)
        },
        Err(e) => {
            let mut text = owned("error: ");
            push_str(&mut text, e.as_str());
            (text, true)
        },
    }
}

/// `v` is the JSON string `s`.
pub open spec fn is_str(v: JsonValue, s: Seq<char>) -> bool {
    match v {
        JsonValue::Str(x) => x@ == s,
        _ => false,
    }
}

/// `v` is the JSON number written `n`.
pub open spec fn is_number(v: JsonValue, n: Seq<char>) -> bool {
    match v {
        JsonValue::Number(x) => x@ == n,
        _ => false,
    }
}

/// `r` is the JSON-RPC 2.0 envelope `{"jsonrpc": "2.0", "id": id, key: body}`:
/// every answer echoes the request's id.
pub open spec fn envelope(r: JsonValue, id: JsonValue, key: Seq<char>, body: JsonValue) -> bool {
    match r {
        JsonValue::Object(es) => {
            &&& es@.len() == 3
            &&& es@[0].0@ == "jsonrpc"@ && is_str(es@[0].1, "2.0"@)
            &&& es@[1].0@ == "id"@ && es@[1].1 == id
            &&& es@[2].0@ == key && es@[2].1 == body
        },
        _ => false,
    }
}

/// The answer to a request: its result under `result`.
pub fn reply(id: JsonValue, result: JsonValue) -> (r: JsonValue)
    ensures
        envelope(r, id, "result"@, result),
{
    let es = vec![(owned("jsonrpc"), JsonValue::Str(owned("2.0"))), (owned("id"), id), (owned("result"), result)];
    JsonValue::Object(es)
}

/// `e` is the JSON-RPC "method not found" error for `method`: code -32601.
pub open spec fn method_error(e: JsonValue, method: Seq<char>) -> bool {
    match e {
        JsonValue::Object(es) => {
            &&& es@.len() == 2
            &&& es@[0].0@ == "code"@ && is_number(es@[0].1, "-32601"@)
            &&& es@[1].0@ == "message"@ && is_str(es@[1].1, "method not found: "@ + method)
        },
        _ => false,
    }
}

/// The answer to a request for an unknown method: the JSON-RPC error with
/// code -32601 under `error`.
pub fn unknown_method_reply(id: JsonValue, method: &str) -> (r: JsonValue)
    ensures
        exists|e: JsonValue| method_error(e, method@) && envelope(r, id, "error"@, e),
{
    let err = JsonValue::Object(
        vec![(owned("code"), JsonValue::Number(owned("-32601"))), (owned("message"), JsonValue::Str(method_not_found(method)))],
    );
    let ghost e = err;
    let es = vec![(owned("jsonrpc"), JsonValue::Str(owned("2.0"))), (owned("id"), id), (owned("error"), err)];
    let r = JsonValue::Object(es);
    assert(method_error(e, method@) && envelope(r, id, "error"@, e));
    r
}

/// The arguments a tool cannot run without: `impact` and `context` need a
/// symbol; the other tools need nothing.
pub fn required_arguments(tool: &str) -> (r: Vec<String>)
    ensures
        views(r@) == (if tool@ == "impact"@ || tool@ == "context"@ {
            seq!["symbol"@]
        } else {
            seq![]
        }),
{
    let mut r: Vec<String> = Vec::new();
    if same(tool, "impact") || same(tool, "context") {
        r.push(owned("symbol"));
        assert(views(r@) =~= seq!["symbol"@]);
    } else {
        assert(views(r@) =~= Seq::<Seq<char>>::empty());
    }
    r
}

/// The `from` filter reaches the scan unchanged: with a symbol, the
/// `context` tool plans exactly the filter it was given, the same one the
/// `impact` tool plans for the same arguments, so a repack hint narrows
/// the pack as it narrows the impact list; the pack is of the symbol
/// given and shows 8 sites unless told otherwise.
pub proof fn law_context_keeps_the_from_filter(
    impact: ToolCall,
    context: ToolCall,
    symbol: Option<&str>,
    from: Option<&str>,
    sites: Option<u64>,
    min_tokens: Option<u64>,
    same_file: Option<bool>,
)
    requires
        symbol is Some,
        plans(impact, "impact"@, symbol, from, sites, min_tokens, same_file),
        plans(context, "context"@, symbol, from, sites, min_tokens, same_file),
    ensures
        impact matches ToolCall::Impact { from: f, .. } && opt_owned(f) == opt(from),
        context matches ToolCall::Context { from: f, .. } && opt_owned(f) == opt(from),
        from is Some ==> (context matches ToolCall::Context { from: Some(_), .. }),
        context matches ToolCall::Context { symbol: s, sites: n, .. } && s@ == symbol->0@ && n == (match sites {
            Some(v) => v as usize,
            None => 8usize,
        }),
{
    reveal_strlit("context");
    reveal_strlit("impact");
    assert("context"@ != "impact"@) by {
        assert("context"@[0] != "impact"@[0]);
    }
}

} // verus!
