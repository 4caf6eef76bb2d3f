use serde_json::Value;
use std::path::PathBuf;
use vybim::lsp::client::{file_uri, PendingKind, Server};
use vybim::lsp::protocol::RequestId;

fn served() -> Server {
    Server::new(0)
}

fn json(text: &str) -> Value {
    serde_json::from_str(text).unwrap()
}

fn root() -> PathBuf {
    PathBuf::from("/tmp/proj")
}

#[test]
fn initialize_records_pending_and_response_stores_capabilities() {
    let mut s = served();
    let body = s.initialize(7, &root());
    assert_eq!(body["method"], "initialize");
    // The initialize response carries capabilities we then store.
    let result = json(r#"{ "capabilities": { "definitionProvider": true } }"#);
    let initialized = s.on_initialize_response(Some(&result));
    assert_eq!(initialized["method"], "initialized");
    assert!(s.capabilities.is_some());
    assert!(s.supports_definition());
}

#[test]
fn no_definition_capability_when_not_advertised() {
    let mut s = served();
    s.on_initialize_response(Some(&json(r#"{ "capabilities": {} }"#)));
    assert!(!s.supports_definition());
}

#[test]
fn initialize_advertises_work_done_progress() {
    let mut s = served();
    let body = s.initialize(7, &root());
    assert_eq!(
        body["params"]["capabilities"]["window"]["workDoneProgress"],
        Value::Bool(true)
    );
}

#[test]
fn progress_lifecycle_begin_report_end() {
    let mut s = served();
    assert_eq!(s.progress_line(), None);

    // begin: title (+ optional message/percentage) becomes the line.
    assert!(s.on_progress(&json(
        r#"{
        "token": "rustAnalyzer/Indexing",
        "value": { "kind": "begin", "title": "Indexing", "percentage": 0 }
    }"#
    )));
    assert_eq!(s.progress_line().as_deref(), Some("Indexing 0%"));

    // report: message/percentage refresh, the begin's title is kept.
    assert!(s.on_progress(&json(
        r#"{
        "token": "rustAnalyzer/Indexing",
        "value": { "kind": "report", "message": "324/612 (regex)", "percentage": 52 }
    }"#
    )));
    assert_eq!(
        s.progress_line().as_deref(),
        Some("Indexing 324/612 (regex) 52%")
    );

    // end: the job disappears; idle again.
    assert!(s.on_progress(&json(
        r#"{
        "token": "rustAnalyzer/Indexing",
        "value": { "kind": "end" }
    }"#
    )));
    assert_eq!(s.progress_line(), None);
}

#[test]
fn progress_shows_most_recently_updated_of_concurrent_jobs() {
    let mut s = served();
    s.on_progress(&json(
        r#"{ "token": "t/fetch", "value": { "kind": "begin", "title": "Fetching" } }"#,
    ));
    s.on_progress(&json(
        r#"{ "token": "t/index", "value": { "kind": "begin", "title": "Indexing" } }"#,
    ));
    assert_eq!(s.progress_line().as_deref(), Some("Indexing"));

    // A report on the older job brings it to the front of the display.
    s.on_progress(&json(
        r#"{
        "token": "t/fetch",
        "value": { "kind": "report", "message": "crates.io" }
    }"#,
    ));
    assert_eq!(s.progress_line().as_deref(), Some("Fetching crates.io"));

    // Ending the displayed job falls back to the other active one.
    s.on_progress(&json(
        r#"{ "token": "t/fetch", "value": { "kind": "end" } }"#,
    ));
    assert_eq!(s.progress_line().as_deref(), Some("Indexing"));
}

#[test]
fn malformed_progress_is_ignored() {
    let mut s = served();
    // No token / no value / unknown kind / report or end for an unknown
    // token: all no-ops that report "nothing changed".
    assert!(!s.on_progress(&json(r#"{ "value": { "kind": "begin", "title": "X" } }"#)));
    assert!(!s.on_progress(&json(r#"{ "token": "t" }"#)));
    assert!(!s.on_progress(&json(r#"{ "token": "t", "value": { "kind": "???" } }"#)));
    assert!(!s.on_progress(&json(r#"{ "token": "t", "value": { "kind": "report" } }"#)));
    assert!(!s.on_progress(&json(r#"{ "token": "t", "value": { "kind": "end" } }"#)));
    assert_eq!(s.progress_line(), None);
}

#[test]
fn request_correlation_routes_by_id_and_removes() {
    let mut s = served();
    let (id, body) = s.request(
        "textDocument/definition",
        json("{}"),
        PendingKind::Definition,
    );
    assert_eq!(body["method"], "textDocument/definition");
    assert_eq!(s.on_response(&id), Some(PendingKind::Definition));
    // Second lookup of the same id is gone.
    assert_eq!(s.on_response(&id), None);
}

#[test]
fn supersede_drops_pending_of_a_kind() {
    let mut s = served();
    let (id, _) = s.request(
        "textDocument/definition",
        json("{}"),
        PendingKind::Definition,
    );
    s.supersede(PendingKind::Definition);
    assert_eq!(s.on_response(&id), None); // late response ignored
}

#[test]
fn document_sync_emits_in_order_with_incrementing_versions() {
    let mut s = served();
    let uri = "file:///tmp/proj/a.rs";

    let open = s.did_open(uri, "rust", "fn a() {}");
    assert_eq!(open["method"], "textDocument/didOpen");
    assert_eq!(open["params"]["textDocument"]["version"], 1);

    let c1 = s.did_change(uri, "fn a() {} // 1").unwrap();
    assert_eq!(c1["method"], "textDocument/didChange");
    assert_eq!(c1["params"]["textDocument"]["version"], 2);

    let c2 = s.did_change(uri, "fn a() {} // 2").unwrap();
    assert_eq!(c2["params"]["textDocument"]["version"], 3);

    assert!(s.is_open(uri));
    let close = s.did_close(uri).unwrap();
    assert_eq!(close["method"], "textDocument/didClose");
    assert!(!s.is_open(uri));

    // Changes/closes on an unknown document are no-ops.
    assert!(s.did_change(uri, "x").is_none());
    assert!(s.did_close(uri).is_none());
}

#[test]
fn initialize_body_is_complete() {
    let mut s = served();
    let body = s.initialize(4242, &PathBuf::from("/tmp/my proj"));
    let wanted = json(
        r#"{
        "jsonrpc": "2.0",
        "id": 1,
        "method": "initialize",
        "params": {
            "processId": 4242,
            "rootUri": "file:///tmp/my%20proj",
            "capabilities": {
                "textDocument": {
                    "definition": { "linkSupport": true },
                    "synchronization": { "didSave": false }
                },
                "window": { "workDoneProgress": true }
            }
        }
    }"#,
    );
    assert_eq!(body, wanted);
    assert_eq!(s.on_response(&RequestId::Num(1)), Some(PendingKind::Initialize));
}

#[test]
fn sync_bodies_are_complete() {
    let mut s = served();
    let open = s.did_open("file:///a.rs", "rust", "fn a() {}");
    assert_eq!(
        open,
        json(
            r#"{
            "jsonrpc": "2.0",
            "method": "textDocument/didOpen",
            "params": { "textDocument": {
                "uri": "file:///a.rs", "languageId": "rust", "version": 1, "text": "fn a() {}"
            } }
        }"#
        )
    );
    let change = s.did_change("file:///a.rs", "x").unwrap();
    assert_eq!(
        change,
        json(
            r#"{
            "jsonrpc": "2.0",
            "method": "textDocument/didChange",
            "params": {
                "textDocument": { "uri": "file:///a.rs", "version": 2 },
                "contentChanges": [ { "text": "x" } ]
            }
        }"#
        )
    );
    let close = s.did_close("file:///a.rs").unwrap();
    assert_eq!(
        close,
        json(
            r#"{
            "jsonrpc": "2.0",
            "method": "textDocument/didClose",
            "params": { "textDocument": { "uri": "file:///a.rs" } }
        }"#
        )
    );
}

#[test]
fn shutdown_asks_then_leaves() {
    let mut s = served();
    let (shutdown, exit) = s.shutdown();
    assert_eq!(
        shutdown,
        json(r#"{ "jsonrpc": "2.0", "id": 1, "method": "shutdown", "params": null }"#)
    );
    assert_eq!(exit, json(r#"{ "jsonrpc": "2.0", "method": "exit", "params": null }"#));
}

#[test]
fn definition_support_depends_on_the_provider() {
    for (provider, wanted) in [
        ("true", true),
        ("{}", true),
        ("false", false),
        ("null", false),
    ] {
        let mut s = served();
        let result = format!(r#"{{ "capabilities": {{ "definitionProvider": {provider} }} }}"#);
        s.on_initialize_response(Some(&json(&result)));
        assert_eq!(s.supports_definition(), wanted, "{provider}");
    }
    let mut s = served();
    s.on_initialize_response(None);
    assert!(!s.supports_definition());
    assert!(s.capabilities.is_none());
}

#[test]
fn number_tokens_are_keyed_by_their_digits() {
    let mut s = served();
    s.on_progress(&json(
        r#"{ "token": -7, "value": { "kind": "begin", "title": "A" } }"#,
    ));
    // The string "-7" is the same token.
    assert!(s.on_progress(&json(
        r#"{ "token": "-7", "value": { "kind": "report", "percentage": 9 } }"#
    )));
    assert_eq!(s.progress_line().as_deref(), Some("A 9%"));
    s.on_progress(&json(
        r#"{ "token": null, "value": { "kind": "begin" } }"#,
    ));
    assert_eq!(s.progress_line().as_deref(), Some("working"));
    assert!(s.on_progress(&json(
        r#"{ "token": "null", "value": { "kind": "end" } }"#
    )));
    s.on_progress(&json(
        r#"{ "token": true, "value": { "kind": "begin", "title": "B" } }"#,
    ));
    assert!(s.on_progress(&json(
        r#"{ "token": "true", "value": { "kind": "end" } }"#
    )));
    s.on_progress(&json(
        r#"{ "token": false, "value": { "kind": "begin", "title": "C" } }"#,
    ));
    assert!(s.on_progress(&json(
        r#"{ "token": "false", "value": { "kind": "end" } }"#
    )));
    assert_eq!(s.progress_line().as_deref(), Some("A 9%"));
}

#[test]
fn beginning_again_replaces_the_job() {
    let mut s = served();
    s.on_progress(&json(
        r#"{ "token": "t", "value": { "kind": "begin", "title": "A" } }"#,
    ));
    s.on_progress(&json(
        r#"{ "token": "t", "value": { "kind": "begin", "title": "B" } }"#,
    ));
    assert_eq!(s.progress_line().as_deref(), Some("B"));
    assert!(s.on_progress(&json(r#"{ "token": "t", "value": { "kind": "end" } }"#)));
    assert_eq!(s.progress_line(), None);
}

#[test]
fn a_response_is_routed_once_among_others() {
    let mut s = served();
    let (a, _) = s.request("a", Value::Null, PendingKind::Definition);
    let (b, _) = s.request("b", Value::Null, PendingKind::Initialize);
    assert_ne!(a, b);
    assert_eq!(s.on_response(&a), Some(PendingKind::Definition));
    assert_eq!(s.on_response(&a), None);
    assert_eq!(s.on_response(&b), Some(PendingKind::Initialize));
}

#[test]
fn superseding_keeps_other_kinds() {
    let mut s = served();
    let (a, _) = s.request("a", Value::Null, PendingKind::Definition);
    let (b, _) = s.request("b", Value::Null, PendingKind::Initialize);
    let (c, _) = s.request("c", Value::Null, PendingKind::Definition);
    s.supersede(PendingKind::Definition);
    assert_eq!(s.on_response(&a), None);
    assert_eq!(s.on_response(&c), None);
    assert_eq!(s.on_response(&b), Some(PendingKind::Initialize));
}

#[test]
fn file_uris_are_percent_encoded() {
    assert_eq!(
        file_uri(&PathBuf::from("/a b/é~x-1_.rs")),
        "file:///a%20b/%C3%A9~x-1_.rs"
    );
}

#[test]
fn other_tokens_are_keyed_by_their_json() {
    let report = |token: &str, kind: &str| {
        json(&format!(
            r#"{{ "token": {token}, "value": {{ "kind": "{kind}", "title": "t {kind}" }} }}"#
        ))
    };
    for (token, same) in [
        (r#"{ "a": [1, 2] }"#, r#"{"a":[1,2]}"#),
        ("[ 1.5, null ]", "[1.5,null]"),
        ("2.50", "2.5"),
        ("true", "true"),
    ] {
        let mut s = served();
        assert!(s.on_progress(&report(token, "begin")));
        assert_eq!(s.progress_line().as_deref(), Some("t begin"));
        // Another token, and the text of this one as a string.
        assert!(!s.on_progress(&report(r#"["other"]"#, "end")));
        assert!(s.on_progress(&report(same, "report")));
        let quoted = Value::from(same).to_string();
        assert!(s.on_progress(&report(&quoted, "end")));
        assert_eq!(s.progress_line(), None);
        assert!(!s.on_progress(&report(token, "end")));
        assert!(!s.on_progress(&report(token, "report")));
    }
}
