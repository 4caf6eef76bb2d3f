use serde_json::Value;
use std::path::PathBuf;
use vybim::lsp::client::PendingKind;
use vybim::lsp::protocol::{Message, RequestId};
use vybim::lsp::registry::{Registry, ServerCmd};
use vybim::lsp::{needs_compile_db, Lsp, Start};

fn json(text: &str) -> Value {
    serde_json::from_str(text).unwrap()
}

fn path(name: &str) -> PathBuf {
    PathBuf::from(name)
}

/// A client whose server for `language` was just spawned; its number too.
fn spawned(language: &str) -> (Lsp, usize) {
    let mut lsp = Lsp::new(Registry::default());
    let id = spawn(&mut lsp, language);
    (lsp, id)
}

fn spawn(lsp: &mut Lsp, language: &str) -> usize {
    match lsp.ensure_started(language, true) {
        Start::Spawn { id, cmd } => {
            let body = lsp.spawned(language, id, &cmd, 1, &path("/proj"));
            assert_eq!(body["method"], "initialize");
            id
        }
        other => panic!("{other:?}"),
    }
}

/// Completes the handshake; returns what is sent.
fn initialized(lsp: &mut Lsp, id: usize) -> Vec<Value> {
    let handled = lsp.handle_message(
        id,
        Message::Response {
            id: RequestId::Num(1),
            result: Some(json(r#"{ "capabilities": {} }"#)),
            error: None,
        },
    );
    assert!(handled.response.is_none());
    handled.sends
}

#[test]
fn only_clangd_languages_need_a_compile_db() {
    assert!(needs_compile_db("c"));
    assert!(needs_compile_db("cpp"));
    assert!(!needs_compile_db("rust"));
    assert!(!needs_compile_db("python"));
}

#[test]
fn starting_a_server_goes_through_spawn() {
    let mut lsp = Lsp::new(Registry::default());
    assert!(!lsp.is_running("rust"));
    assert_eq!(lsp.running_count(), 0);
    let id = spawn(&mut lsp, "rust");
    assert_eq!(id, 0);
    assert!(lsp.is_running("rust"));
    assert_eq!(
        lsp.status.as_deref(),
        Some("LSP: started rust-analyzer for rust")
    );
    assert!(matches!(lsp.ensure_started("rust", true), Start::Present));
    assert_eq!(spawn(&mut lsp, "go"), 1);
    assert_eq!(lsp.running_count(), 2);
}

#[test]
fn a_missing_program_is_hinted_and_an_unmapped_language_is_silent() {
    let mut lsp = Lsp::new(Registry::default());
    assert!(matches!(lsp.ensure_started("cobol", false), Start::Absent));
    assert_eq!(lsp.status, None);
    assert!(matches!(lsp.ensure_started("go", false), Start::Absent));
    assert_eq!(
        lsp.status.as_deref(),
        Some("LSP: gopls not found on PATH — no go features")
    );
    assert!(!lsp.is_running("go"));
}

#[test]
fn a_failed_spawn_says_why() {
    let mut lsp = Lsp::new(Registry::default());
    lsp.spawn_failed(&ServerCmd::new("gopls", &[]), "denied");
    assert_eq!(
        lsp.status.as_deref(),
        Some("LSP: failed to start gopls: denied")
    );
}

#[test]
fn messages_wait_for_the_handshake_and_then_go_out_in_order() {
    let (mut lsp, id) = spawned("rust");
    assert!(lsp.notify_opened(&path("/a.rs"), "one", true, false).is_empty());
    assert!(lsp.notify_changed(&path("/a.rs"), "two").is_empty());
    assert!(lsp.send("rust", json(r#"{"x":1}"#)).is_empty());
    let sends = initialized(&mut lsp, id);
    let methods: Vec<&str> = sends.iter().map(|b| b["method"].as_str().unwrap_or("-")).collect();
    assert_eq!(
        methods,
        vec!["initialized", "textDocument/didOpen", "textDocument/didChange", "-"]
    );
    // From now on messages go out at once.
    let now = lsp.notify_changed(&path("/a.rs"), "three");
    assert_eq!(now.len(), 1);
    assert_eq!(now[0]["params"]["textDocument"]["version"], 3);
    assert_eq!(lsp.send("rust", json(r#"{"x":2}"#)).len(), 1);
    assert!(lsp.send("go", json(r#"{"x":2}"#)).is_empty());
}

#[test]
fn documents_open_change_and_close_once() {
    let (mut lsp, id) = spawned("rust");
    initialized(&mut lsp, id);
    let open = lsp.notify_opened(&path("/a b.rs"), "one", true, true);
    assert_eq!(open.len(), 1);
    assert_eq!(open[0]["params"]["textDocument"]["uri"], "file:///a%20b.rs");
    // Opening again says nothing.
    assert!(lsp.notify_opened(&path("/a b.rs"), "one", false, true).is_empty());
    assert_eq!(lsp.notify_closed(&path("/a b.rs")).len(), 1);
    assert!(lsp.notify_closed(&path("/a b.rs")).is_empty());
    assert!(lsp.notify_changed(&path("/a b.rs"), "x").is_empty());
    // Files without a language or without a server are nobody's.
    assert!(lsp.notify_opened(&path("/README"), "", true, true).is_empty());
    assert!(lsp.notify_opened(&path("/a.go"), "", true, true).is_empty());
}

#[test]
fn clangd_is_hinted_without_a_database() {
    let (mut lsp, _) = spawned("c");
    lsp.notify_opened(&path("/a.c"), "", true, false);
    assert_eq!(
        lsp.status.as_deref(),
        Some("LSP: c — no compile_commands.json (cross-file navigation limited)")
    );
    let (mut lsp, _) = spawned("c");
    lsp.notify_opened(&path("/a.c"), "", true, true);
    assert_eq!(lsp.status.as_deref(), Some("LSP: started clangd for c"));
}

#[test]
fn responses_are_routed_and_errors_have_no_result() {
    let (mut lsp, id) = spawned("rust");
    initialized(&mut lsp, id);
    let (a, _) = lsp
        .server_mut("rust")
        .unwrap()
        .request("d", Value::Null, PendingKind::Definition);
    let (b, _) = lsp
        .server_mut("rust")
        .unwrap()
        .request("d", Value::Null, PendingKind::Definition);
    let ok = lsp.handle_message(
        id,
        Message::Response {
            id: a.clone(),
            result: Some(json("[1]")),
            error: None,
        },
    );
    let response = ok.response.unwrap();
    assert_eq!(response.kind, PendingKind::Definition);
    assert_eq!(response.result, Some(json("[1]")));
    let failed = lsp.handle_message(
        id,
        Message::Response {
            id: b,
            result: Some(json("[1]")),
            error: Some(json("{}")),
        },
    );
    assert_eq!(failed.response.unwrap().result, None);
    // A second answer to the same request goes nowhere.
    let again = lsp.handle_message(
        id,
        Message::Response {
            id: a,
            result: None,
            error: None,
        },
    );
    assert!(again.response.is_none());
    assert!(lsp.server_mut("go").is_none());
}

#[test]
fn progress_is_acknowledged_and_shown() {
    let (mut lsp, id) = spawned("rust");
    let create = lsp.handle_message(
        id,
        Message::Request {
            id: RequestId::Num(9),
            method: "window/workDoneProgress/create".to_string(),
            params: Value::Null,
        },
    );
    assert_eq!(
        create.sends,
        vec![json(r#"{"jsonrpc":"2.0","id":9,"result":null}"#)]
    );
    let other = lsp.handle_message(
        id,
        Message::Request {
            id: RequestId::Num(10),
            method: "client/registerCapability".to_string(),
            params: Value::Null,
        },
    );
    assert!(other.sends.is_empty());
    let note = |lsp: &mut Lsp, params: &str| {
        lsp.handle_message(
            id,
            Message::Notification {
                method: "$/progress".to_string(),
                params: json(params),
            },
        );
    };
    note(
        &mut lsp,
        r#"{"token":1,"value":{"kind":"begin","title":"Indexing","percentage":5}}"#,
    );
    assert_eq!(lsp.status.as_deref(), Some("LSP: rust — Indexing 5%"));
    note(&mut lsp, r#"{"token":1,"value":{"kind":"end"}}"#);
    assert_eq!(lsp.status.as_deref(), Some("LSP: rust ready"));
    lsp.status = None;
    note(&mut lsp, r#"{"token":1,"value":{"kind":"end"}}"#);
    assert_eq!(lsp.status, None);
}

#[test]
fn an_exited_server_can_be_started_again() {
    let (mut lsp, id) = spawned("rust");
    lsp.mark_exited(id + 1);
    assert!(lsp.is_running("rust"));
    lsp.mark_exited(id);
    assert!(!lsp.is_running("rust"));
    assert_eq!(lsp.status.as_deref(), Some("LSP: rust server exited"));
    // A message of a server that is gone is ignored.
    assert!(initialized(&mut lsp, id).is_empty());
    assert_eq!(spawn(&mut lsp, "rust"), id + 1);
}

#[test]
fn shutting_down_takes_leave_of_every_server() {
    let (mut lsp, a) = spawned("rust");
    let b = spawn(&mut lsp, "go");
    let mut farewells = lsp.shutdown_all();
    farewells.sort_by_key(|f| f.id);
    let ids: Vec<usize> = farewells.iter().map(|f| f.id).collect();
    assert_eq!(ids, vec![a, b]);
    for f in &farewells {
        assert_eq!(f.shutdown["method"], "shutdown");
        assert_eq!(f.shutdown["id"], 2);
        assert_eq!(f.exit["method"], "exit");
    }
    assert_eq!(lsp.running_count(), 0);
}

#[test]
fn a_client_takes_what_it_has_numbers_for() {
    let (mut lsp, id) = spawned("rust");
    initialized(&mut lsp, id);
    assert!(lsp.takes_start("rust", true) && lsp.takes_start("c", true));
    assert!(lsp.takes_change(&path("/a.rs")) && lsp.takes_change(&path("/a.txt")));
    lsp.notify_opened(&path("/a.rs"), "one", true, false);
    assert!(lsp.takes_change(&path("/a.rs")) && lsp.takes_shutdown());
}
