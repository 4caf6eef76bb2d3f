//! A generic, language-agnostic LSP client — the substrate the language
//! features build on.
//!
//! The client decides; it does not spawn, read or write. Where a server has to
//! be started it says so, and every message that is to go out now is returned
//! to the caller, which hands it to the server's connection.
pub mod client;
pub mod protocol;
pub mod registry;
pub mod transport;

use crate::assoc::{
    keys_differ, lemma_map_of, lemma_no_key, lemma_push_entry, lemma_remove_entry,
    lemma_update_entry, map_of,
};
use crate::json::{items_of, json_of, null, Json};
use crate::lsp::client::{
    did_change_json, did_close_json, did_open_json, file_uri, initialize_params, progressed,
    status_line, text_of, PendingKind, Server, ServerState,
};
use crate::lsp::protocol::{
    notification_json, request_json, response_body, response_json, uri_of, Id,
};
use crate::lsp::registry::{cmd_view, command_for, language_in, language_of, Cmd, Registry, ServerCmd};
use crate::paths::{file_name_bytes, path_bytes};
use crate::text::same_text;
use serde_json::Value;
use std::path::PathBuf;
use vstd::prelude::*;

pub use protocol::Message;

verus! {

/// A running server: its protocol state, and an outgoing queue held until the
/// `initialize` handshake completes (LSP forbids sending document notifications
/// before `initialized`).
#[derive(Debug)]
struct Running {
    server: Server,
    ready: bool,
    queued: Vec<Value>,
}

/// The state of a running server, as a value of the specifications.
#[verifier::ext_equal]
pub struct RunningState {
    pub server: ServerState,
    pub ready: bool,
    pub queued: Seq<Json>,
}

impl View for Running {
    type V = RunningState;

    closed spec fn view(&self) -> RunningState {
        RunningState { server: self.server@, ready: self.ready, queued: items_of(self.queued@) }
    }
}

impl RunningState {
    /// What becomes of a message: it goes out now if the handshake is done, and
    /// waits in the queue if it is not.
    pub open spec fn posted(self, body: Json) -> (RunningState, Seq<Json>) {
        if self.ready {
            (self, seq![body])
        } else {
            (RunningState { queued: self.queued.push(body), ..self }, Seq::empty())
        }
    }

    /// The same with another protocol state.
    pub open spec fn with(self, server: ServerState) -> RunningState {
        RunningState { server, ..self }
    }
}

/// A response routed back to the feature that issued the request, for the main
/// loop to act on (go-to-definition consumes the `Definition` arm).
#[derive(Debug)]
pub struct Response {
    pub kind: PendingKind,
    pub result: Option<Value>,
}

/// What handling a message asks for: a response to act on, and the messages to
/// send back to the server, in order.
#[derive(Debug)]
pub struct Handled {
    pub response: Option<Response>,
    pub sends: Vec<Value>,
}

/// What is to be done to have a server for a language.
#[derive(Debug)]
pub enum Start {
    /// It is running.
    Present,
    /// There is none to start.
    Absent,
    /// It has to be spawned.
    Spawn { id: usize, cmd: ServerCmd },
}

/// The last messages for one server, to be sent in order.
#[derive(Debug)]
pub struct Farewell {
    pub id: usize,
    pub shutdown: Value,
    pub exit: Value,
}

/// The set of running language servers, one per language, lazily started.
#[derive(Debug)]
pub struct Lsp {
    registry: Registry,
    /// Running servers keyed by language, no language and no server id twice.
    servers: Vec<(String, Running)>,
    next_id: usize,
    /// A one-line status set when a server starts or dies, for the app to show.
    pub status: Option<String>,
}

/// The state of the client, as a value of the specifications.
#[verifier::ext_equal]
pub struct LspState {
    pub registry: Map<Seq<char>, Cmd>,
    pub servers: Map<Seq<char>, RunningState>,
    pub next_id: int,
    pub status: Option<Seq<char>>,
}

spec fn entries(s: Seq<(String, Running)>) -> Seq<(Seq<char>, RunningState)> {
    s.map_values(|e: (String, Running)| (e.0@, e.1@))
}

impl View for Lsp {
    type V = LspState;

    closed spec fn view(&self) -> LspState {
        LspState {
            registry: self.registry@,
            servers: map_of(entries(self.servers@)),
            next_id: self.next_id as int,
            status: text_of(self.status),
        }
    }
}

/// Languages whose server (clangd) needs a compilation database.
pub open spec fn database_driven(language: Seq<char>) -> bool {
    language == "c"@ || language == "cpp"@
}

impl LspState {
    /// Whether the server of `language` has number `id`.
    pub open spec fn serves(self, language: Seq<char>, id: usize) -> bool {
        self.servers.contains_key(language) && self.servers[language].server.id == id
    }

    /// Whether a server for `language` may be entered under number `id`.
    pub open spec fn awaits(self, language: Seq<char>, id: usize) -> bool {
        &&& !self.servers.contains_key(language)
        &&& id < self.next_id
        &&& forall|l: Seq<char>| !(#[trigger] self.serves(l, id))
    }

    /// Whether a server for `language` can be started: one that is to be spawned
    /// takes an id.
    pub open spec fn can_start(self, language: Seq<char>, on_path: bool) -> bool {
        !self.servers.contains_key(language) && on_path && command_for(self.registry, language)
            is Some ==> self.next_id < usize::MAX
    }

    /// Whether a change of a file can be synced: an open document takes a
    /// version.
    pub open spec fn can_sync(self, path: PathBuf) -> bool {
        match language_in(file_name_bytes(path_bytes(path))) {
            Some(language) => self.servers.contains_key(language)
                && self.servers[language].server.open.contains_key(uri_of(path_bytes(path)))
                ==> self.servers[language].server.open[uri_of(path_bytes(path))] < i32::MAX,
            None => true,
        }
    }

    /// Whether every server can be shut down: the request takes an id.
    pub open spec fn can_leave(self) -> bool {
        forall|l: Seq<char>|
            self.servers.contains_key(l) ==> (#[trigger] self.servers[l]).server.last_id < i64::MAX
    }

    /// The same with another status.
    pub open spec fn saying(self, status: Seq<char>) -> LspState {
        LspState { status: Some(status), ..self }
    }

    /// The same with another state of the server of `language`.
    pub open spec fn running(self, language: Seq<char>, r: RunningState) -> LspState {
        LspState { servers: self.servers.insert(language, r), ..self }
    }

    /// What a message for the server of `language` does.
    pub open spec fn posting(self, language: Seq<char>, r: RunningState, body: Json) -> (
        LspState,
        Seq<Json>,
    ) {
        let (r, out) = r.posted(body);
        (self.running(language, r), out)
    }

    /// What opening document `uri` does: on the first start of a server that
    /// needs a compilation database, a hint where none is near; and a `didOpen`
    /// unless the document is open already.
    pub open spec fn opened(
        self,
        language: Seq<char>,
        uri: Seq<char>,
        text: Seq<char>,
        fresh_start: bool,
        db_near: bool,
    ) -> (LspState, Seq<Json>) {
        if !self.servers.contains_key(language) {
            (self, Seq::empty())
        } else {
            let hinted = if fresh_start && database_driven(language) && !db_near {
                self.saying(
                    "LSP: "@ + language
                        + " — no compile_commands.json (cross-file navigation limited)"@,
                )
            } else {
                self
            };
            let r = self.servers[language];
            if r.server.open.contains_key(uri) {
                (hinted, Seq::empty())
            } else {
                hinted.posting(
                    language,
                    r.with(r.server.synced(uri, 1)),
                    did_open_json(uri, language, text),
                )
            }
        }
    }

    /// What a change of document `uri` does: a `didChange` with its full text
    /// at the next version, if it is open.
    pub open spec fn changed(self, language: Seq<char>, uri: Seq<char>, text: Seq<char>) -> (
        LspState,
        Seq<Json>,
    ) {
        if self.servers.contains_key(language) && self.servers[language].server.open.contains_key(
            uri,
        ) {
            let r = self.servers[language];
            let version = r.server.open[uri] + 1;
            self.posting(
                language,
                r.with(r.server.synced(uri, version)),
                did_change_json(uri, version, text),
            )
        } else {
            (self, Seq::empty())
        }
    }

    /// What closing document `uri` does: a `didClose`, if it is open.
    pub open spec fn closed(self, language: Seq<char>, uri: Seq<char>) -> (LspState, Seq<Json>) {
        if self.servers.contains_key(language) && self.servers[language].server.open.contains_key(
            uri,
        ) {
            let r = self.servers[language];
            self.posting(language, r.with(r.server.closed_doc(uri)), did_close_json(uri))
        } else {
            (self, Seq::empty())
        }
    }

    /// The state after a response with number `id` from the server of
    /// `language`, what is routed to a feature, and what is sent. The response
    /// to `initialize` completes the handshake: `initialized` goes out, and
    /// after it what was queued, in order.
    pub open spec fn answered(
        self,
        language: Seq<char>,
        id: Id,
        result: Option<Json>,
        failed: bool,
    ) -> (LspState, Option<(PendingKind, Option<Json>)>, Seq<Json>) {
        let r = self.servers[language];
        if !r.server.pending.contains_key(id) {
            (self, None, Seq::empty())
        } else if r.server.pending[id] == PendingKind::Initialize {
            let server = r.server.responded(id).initialized(result);
            (
                self.running(
                    language,
                    RunningState { server, ready: true, queued: Seq::empty() },
                ),
                None,
                seq![notification_json("initialized"@, Json::Object(Map::empty()))] + r.queued,
            )
        } else {
            (
                self.running(language, r.with(r.server.responded(id))),
                Some(
                    (
                        r.server.pending[id],
                        if failed {
                            None
                        } else {
                            result
                        },
                    ),
                ),
                Seq::empty(),
            )
        }
    }

    /// What a `$/progress` notification from the server of `language` makes of
    /// this: where it changes the jobs, the status says what the server is doing
    /// now, or that it is ready.
    pub open spec fn reported(self, language: Seq<char>, params: Value) -> LspState {
        let r = self.servers[language];
        let (left, changed) = progressed(r.server.jobs, params);
        let next = self.running(language, r.with((ServerState { jobs: left, ..r.server })));
        if !changed {
            next
        } else {
            match status_line(left) {
                Some(line) => next.saying("LSP: "@ + language + " — "@ + line),
                None => next.saying("LSP: "@ + language + " ready"@),
            }
        }
    }
}

/// The value of an optional JSON value.
pub open spec fn json_opt(v: Option<Value>) -> Option<Json> {
    match v {
        Some(v) => Some(json_of(v)),
        None => None,
    }
}

/// The value of an optional response.
pub open spec fn response_view(r: Option<Response>) -> Option<(PendingKind, Option<Json>)> {
    match r {
        Some(r) => Some((r.kind, json_opt(r.result))),
        None => None,
    }
}

/// Whether handling `msg` from the server of `language` leads from one state to
/// another with the outcome `r`.
pub open spec fn handles(
    before: LspState,
    language: Seq<char>,
    msg: Message,
    after: LspState,
    r: Handled,
) -> bool {
    match msg {
        Message::Response { id, result, error } => (
            after,
            response_view(r.response),
            items_of(r.sends@),
        ) == before.answered(language, id@, json_opt(result), error is Some),
        Message::Notification { method, params } => {
            &&& r.response is None
            &&& r.sends@.len() == 0
            &&& after == if method@ == "$/progress"@ {
                before.reported(language, params)
            } else {
                before
            }
        },
        Message::Request { id, method, params } => {
            &&& r.response is None
            &&& after == before
            &&& items_of(r.sends@) == if method@ == "window/workDoneProgress/create"@ {
                seq![response_json(id@, Json::Null)]
            } else {
                Seq::empty()
            }
        },
    }
}

/// One message to send.
fn just(body: Value) -> (r: Vec<Value>)
    ensures
        items_of(r@) == seq![json_of(body)],
{
    let mut out: Vec<Value> = Vec::new();
    out.push(body);
    assert(items_of(out@) =~= seq![json_of(body)]);
    out
}

/// Nothing to send.
fn nothing() -> (r: Vec<Value>)
    ensures
        r@.len() == 0,
        items_of(r@) == Seq::<Json>::empty(),
{
    let out: Vec<Value> = Vec::new();
    assert(items_of(out@) =~= Seq::<Json>::empty());
    out
}

impl Running {
    spec fn wf(self) -> bool {
        self.server.wf()
    }

    /// Send now if the handshake is done, else queue until it is.
    fn send_or_queue(&mut self, body: Value) -> (r: Vec<Value>)
        requires
            old(self).wf(),
        ensures
            final(self).wf(),
            (final(self)@, items_of(r@)) == old(self)@.posted(json_of(body)),
    {
        if self.ready {
            just(body)
        } else {
            let ghost before = self.queued@;
            self.queued.push(body);
            assert(items_of(self.queued@) =~= items_of(before).push(json_of(body)));
            nothing()
        }
    }
}

impl Lsp {
    /// Whether no language and no server id occurs twice, and every id was given
    /// out before.
    pub closed spec fn wf(self) -> bool {
        &&& self.registry.wf()
        &&& keys_differ(entries(self.servers@))
        &&& forall|i: int| 0 <= i < self.servers@.len() ==> (#[trigger] self.servers@[i]).1.wf()
        &&& forall|i: int|
            0 <= i < self.servers@.len() ==> (#[trigger] self.servers@[i]).1.server@.id
                < self.next_id
        &&& forall|i: int, j: int|
            0 <= i < j < self.servers@.len() ==> (#[trigger] self.servers@[i]).1.server@.id != (
            #[trigger] self.servers@[j]).1.server@.id
    }

    /// A client with no server running.
    pub fn new(registry: Registry) -> (r: Self)
        requires
            registry.wf(),
        ensures
            r.wf(),
            r@ == (LspState {
                registry: registry@,
                servers: Map::empty(),
                next_id: 0,
                status: None,
            }),
    {
        let r = Lsp { registry, servers: Vec::new(), next_id: 0, status: None };
        assert(entries(r.servers@) =~= Seq::empty());
        r
    }

    /// The place of a language's server.
    fn find(&self, language: &str) -> (r: Option<usize>)
        requires
            self.wf(),
        ensures
            match r {
                Some(i) => {
                    &&& i < self.servers@.len()
                    &&& self.servers@[i as int].0@ == language@
                    &&& self@.servers.contains_key(language@)
                    &&& self@.servers[language@] == self.servers@[i as int].1@
                },
                None => {
                    &&& !self@.servers.contains_key(language@)
                    &&& forall|j: int|
                        0 <= j < self.servers@.len() ==> (#[trigger] self.servers@[j]).0@
                            != language@
                },
            },
    {
        let ghost all = entries(self.servers@);
        proof {
            lemma_map_of(all);
        }
        let mut i: usize = 0;
        while i < self.servers.len()
            invariant
                i <= self.servers@.len(),
                all == entries(self.servers@),
                forall|k: int|
                    0 <= k < all.len() ==> map_of(all).contains_key((#[trigger] all[k]).0)
                        && map_of(all)[all[k].0] == all[k].1,
                forall|j: int| 0 <= j < i ==> (#[trigger] self.servers@[j]).0@ != language@,
            decreases self.servers@.len() - i,
        {
            if same_text(self.servers[i].0.as_str(), language) {
                assert(all[i as int] == (language@, self.servers@[i as int].1@));
                return Some(i);
            }
            i += 1;
        }
        proof {
            assert forall|j: int| 0 <= j < all.len() implies (#[trigger] all[j]).0 != language@ by {
                assert(all[j].0 == self.servers@[j].0@);
            }
            lemma_no_key(all, language@);
        }
        None
    }

    /// The place of the server with a number.
    fn find_id(&self, server_id: usize) -> (r: Option<usize>)
        requires
            self.wf(),
        ensures
            match r {
                Some(i) => {
                    let language = self.servers@[i as int].0@;
                    &&& i < self.servers@.len()
                    &&& self@.serves(language, server_id)
                    &&& self@.servers[language] == self.servers@[i as int].1@
                    &&& forall|l: Seq<char>| #[trigger]
                        self@.serves(l, server_id) ==> l == language
                },
                None => forall|l: Seq<char>| !(#[trigger] self@.serves(l, server_id)),
            },
    {
        let ghost all = entries(self.servers@);
        proof {
            lemma_map_of(all);
        }
        let mut i: usize = 0;
        while i < self.servers.len()
            invariant
                i <= self.servers@.len(),
                self.wf(),
                all == entries(self.servers@),
                forall|j: int|
                    0 <= j < i ==> (#[trigger] self.servers@[j]).1.server@.id != server_id,
            decreases self.servers@.len() - i,
        {
            if self.servers[i].1.server.id() == server_id {
                proof {
                    lemma_map_of(all);
                    assert(all[i as int] == (
                        self.servers@[i as int].0@,
                        self.servers@[i as int].1@,
                    ));
                    assert forall|l: Seq<char>| #[trigger] self@.serves(l, server_id) implies l
                        == self.servers@[i as int].0@ by {
                        let k = choose|k: int| 0 <= k < all.len() && (#[trigger] all[k]).0 == l;
                        assert(all[k].1.server.id == server_id);
                        assert(self.servers@[k].1.server@.id == server_id);
                    }
                }
                return Some(i);
            }
            i += 1;
        }
        proof {
            assert forall|l: Seq<char>| !(#[trigger] self@.serves(l, server_id)) by {
                if self@.serves(l, server_id) {
                    let k = choose|k: int| 0 <= k < all.len() && (#[trigger] all[k]).0 == l;
                    assert(self.servers@[k].1.server@.id == server_id);
                }
            }
        }
        None
    }

    /// Takes a server out.
    fn take(&mut self, i: usize) -> (r: Running)
        requires
            old(self).wf(),
            i < old(self).servers@.len(),
        ensures
            final(self).wf(),
            r.wf(),
            r == old(self).servers@[i as int].1,
            final(self)@ == (LspState {
                servers: old(self)@.servers.remove(old(self).servers@[i as int].0@),
                ..old(self)@
            }),
            final(self)@.awaits(old(self).servers@[i as int].0@, r@.server.id),
    {
        let ghost before = entries(self.servers@);
        let ghost was = self.servers@;
        let ghost language = self.servers@[i as int].0@;
        proof {
            lemma_map_of(before);
            lemma_remove_entry(before, i as int);
            assert(before[i as int].0 == language);
        }
        let entry = self.servers.remove(i);
        proof {
            let after = entries(self.servers@);
            assert(after =~= before.remove(i as int));
            lemma_map_of(after);
            assert forall|j: int| 0 <= j < self.servers@.len() implies (
            #[trigger] self.servers@[j]).1.wf() && self.servers@[j].1.server@.id
                != entry.1.server@.id && self.servers@[j].1.server@.id < self.next_id by {
                let k = if j < i {
                    j
                } else {
                    j + 1
                };
                assert(self.servers@[j] == was[k]);
            }
            assert forall|j: int, k: int| 0 <= j < k < self.servers@.len() implies (
            #[trigger] self.servers@[j]).1.server@.id != (
            #[trigger] self.servers@[k]).1.server@.id by {
                let a = if j < i {
                    j
                } else {
                    j + 1
                };
                let b = if k < i {
                    k
                } else {
                    k + 1
                };
                assert(self.servers@[j] == was[a] && self.servers@[k] == was[b]);
            }
            assert forall|l: Seq<char>| !(#[trigger] self@.serves(l, entry.1.server@.id)) by {
                if self@.serves(l, entry.1.server@.id) {
                    let k = choose|k: int| 0 <= k < after.len() && (#[trigger] after[k]).0 == l;
                    assert(after[k] == (self.servers@[k].0@, self.servers@[k].1@));
                }
            }
        }
        entry.1
    }

    /// Enters a server.
    fn enter(&mut self, language: &str, running: Running)
        requires
            old(self).wf(),
            running.wf(),
            old(self)@.awaits(language@, running@.server.id),
        ensures
            final(self).wf(),
            final(self)@ == old(self)@.running(language@, running@),
    {
        let ghost before = entries(self.servers@);
        let at = self.find(language);
        proof {
            lemma_map_of(before);
            assert forall|j: int| 0 <= j < before.len() implies (#[trigger] before[j]).0
                != language@ by {
                assert(before[j].0 == self.servers@[j].0@);
            }
            lemma_push_entry(before, language@, running@);
            assert forall|j: int| 0 <= j < self.servers@.len() implies (
            #[trigger] self.servers@[j]).1.server@.id != running@.server.id by {
                assert(before[j] == (self.servers@[j].0@, self.servers@[j].1@));
                assert(!self@.serves(before[j].0, running@.server.id));
            }
        }
        self.servers.push((language.to_owned(), running));
        assert(entries(self.servers@) =~= before.push((language@, running@)));
    }

    /// Whether a server for `language` is running.
    pub fn is_running(&self, language: &str) -> (r: bool)
        requires
            self.wf(),
        ensures
            r == self@.servers.contains_key(language@),
    {
        self.find(language).is_some()
    }

    /// The command that would serve `language`, whether or not its program is
    /// installed.
    pub fn mapped(&self, language: &str) -> (r: Option<ServerCmd>)
        requires
            self.wf(),
        ensures
            cmd_view(r) == command_for(self@.registry, language@),
    {
        self.registry.mapped(language)
    }

    /// Whether a server for `language` can be started.
    pub fn takes_start(&self, language: &str, on_path: bool) -> (r: bool)
        requires
            self.wf(),
        ensures
            r == self@.can_start(language@, on_path),
    {
        self.next_id < usize::MAX || self.is_running(language) || !on_path || self.mapped(
            language,
        ).is_none()
    }

    /// Whether a change of a file can be synced.
    pub fn takes_change(&self, path: &PathBuf) -> (r: bool)
        requires
            self.wf(),
        ensures
            r == self@.can_sync(*path),
    {
        match language_of(path) {
            Some(language) => match self.find(language) {
                Some(i) => self.servers[i].1.server.takes_change(file_uri(path).as_str()),
                None => true,
            },
            None => true,
        }
    }

    /// Whether every server can be shut down.
    pub fn takes_shutdown(&self) -> (r: bool)
        requires
            self.wf(),
        ensures
            r == self@.can_leave(),
    {
        let ghost all = entries(self.servers@);
        proof {
            lemma_map_of(all);
        }
        let mut i: usize = 0;
        while i < self.servers.len()
            invariant
                i <= self.servers@.len(),
                self.wf(),
                all == entries(self.servers@),
                forall|k: int|
                    0 <= k < i ==> (#[trigger] self.servers@[k]).1.server@.last_id < i64::MAX,
            decreases self.servers@.len() - i,
        {
            if !self.servers[i].1.server.takes_request() {
                proof {
                    lemma_map_of(all);
                    let k = i as int;
                    assert(all[k] == (self.servers@[k].0@, self.servers@[k].1@));
                    assert(self@.servers.contains_key(all[k].0));
                    assert(self@.servers[all[k].0] == all[k].1);
                }
                return false;
            }
            i += 1;
        }
        proof {
            assert forall|l: Seq<char>|
                self@.servers.contains_key(l) implies (#[trigger] self@.servers[l]).server.last_id
                < i64::MAX by {
                let k = choose|k: int| 0 <= k < all.len() && (#[trigger] all[k]).0 == l;
                assert(all[k] == (self.servers@[k].0@, self.servers@[k].1@));
            }
        }
        true
    }

    /// Decides how a server for `language` comes to be present. `on_path` says
    /// whether the program that the language is mapped to was found. A language
    /// we *would* serve but whose binary is missing gets a status-line hint; a
    /// truly unmapped language stays a silent no-op.
    pub fn ensure_started(&mut self, language: &str, on_path: bool) -> (r: Start)
        requires
            old(self).wf(),
            old(self)@.can_start(language@, on_path),
        ensures
            final(self).wf(),
            match r {
                Start::Present => {
                    &&& old(self)@.servers.contains_key(language@)
                    &&& final(self)@ == old(self)@
                },
                Start::Spawn { id, cmd } => {
                    &&& !old(self)@.servers.contains_key(language@)
                    &&& on_path
                    &&& command_for(old(self)@.registry, language@) == Some(cmd@)
                    &&& id == old(self)@.next_id
                    &&& final(self)@ == (LspState { next_id: id + 1, ..old(self)@ })
                    &&& final(self)@.awaits(language@, id)
                },
                Start::Absent => {
                    &&& !old(self)@.servers.contains_key(language@)
                    &&& match command_for(old(self)@.registry, language@) {
                        Some(cmd) => !on_path && final(self)@ == old(self)@.saying(
                            "LSP: "@ + cmd.program + " not found on PATH — no "@ + language@
                                + " features"@,
                        ),
                        None => final(self)@ == old(self)@,
                    }
                },
            },
    {
        if self.is_running(language) {
            return Start::Present;
        }
        match self.registry.resolve(language, on_path) {
            Some(cmd) => {
                let id: usize = self.next_id;
                proof {
                    let all = entries(self.servers@);
                    lemma_map_of(all);
                    assert forall|l: Seq<char>| !(#[trigger] self@.serves(l, id)) by {
                        if self@.serves(l, id) {
                            let k = choose|k: int| 0 <= k < all.len() && (#[trigger] all[k]).0 == l;
                            assert(self.servers@[k].1.server@.id == id);
                        }
                    }
                }
                let ghost was = self@;
                self.next_id = id + 1;
                proof {
                    assert(self@ == (LspState { next_id: id + 1, ..was }));
                    assert forall|l: Seq<char>| !(#[trigger] self@.serves(l, id)) by {
                        assert(self@.serves(l, id) == was.serves(l, id));
                    }
                }
                Start::Spawn { id, cmd }
            },
            None => {
                if let Some(cmd) = self.registry.mapped(language) {
                    let mut line = "LSP: ".to_owned();
                    line.append(cmd.program.as_str());
                    line.append(" not found on PATH — no ");
                    line.append(language);
                    line.append(" features");
                    self.status = Some(line);
                }
                Start::Absent
            },
        }
    }

    /// A server was spawned: enter it, and return its `initialize` request, the
    /// one message allowed before `initialized`, to be sent at once.
    pub fn spawned(
        &mut self,
        language: &str,
        id: usize,
        cmd: &ServerCmd,
        process_id: u32,
        root: &PathBuf,
    ) -> (r: Value)
        requires
            old(self).wf(),
            old(self)@.awaits(language@, id),
        ensures
            final(self).wf(),
            final(self)@ == old(self)@.running(
                language@,
                RunningState {
                    server: ServerState::fresh(id).requested(PendingKind::Initialize),
                    ready: false,
                    queued: Seq::empty(),
                },
            ).saying("LSP: started "@ + cmd@.program + " for "@ + language@),
            json_of(r) == request_json(
                Id::Num(1),
                "initialize"@,
                initialize_params(process_id, uri_of(path_bytes(*root))),
            ),
    {
        let mut server = Server::new(id);
        let body = server.initialize(process_id, root);
        let running = Running { server, ready: false, queued: nothing() };
        self.enter(language, running);
        let mut line = "LSP: started ".to_owned();
        line.append(cmd.program.as_str());
        line.append(" for ");
        line.append(language);
        self.status = Some(line);
        body
    }

    /// A server could not be spawned.
    pub fn spawn_failed(&mut self, cmd: &ServerCmd, error: &str)
        requires
            old(self).wf(),
        ensures
            final(self).wf(),
            final(self)@ == old(self)@.saying(
                "LSP: failed to start "@ + cmd@.program + ": "@ + error@,
            ),
    {
        let mut line = "LSP: failed to start ".to_owned();
        line.append(cmd.program.as_str());
        line.append(": ");
        line.append(error);
        self.status = Some(line);
    }

    /// A file was opened, and its server started if needed: send `didOpen`.
    /// `fresh_start` says whether the server was started for this file,
    /// `db_near` whether a compilation database was found near it. On the first
    /// start of a database-driven server (clangd), warn when none is: the server
    /// still runs, but cross-file navigation silently degrades to header
    /// declarations. Returns what is to be sent now.
    pub fn notify_opened(
        &mut self,
        path: &PathBuf,
        text: &str,
        fresh_start: bool,
        db_near: bool,
    ) -> (r: Vec<Value>)
        requires
            old(self).wf(),
        ensures
            final(self).wf(),
            match language_in(file_name_bytes(path_bytes(*path))) {
                Some(language) => (final(self)@, items_of(r@)) == old(self)@.opened(
                    language,
                    uri_of(path_bytes(*path)),
                    text@,
                    fresh_start,
                    db_near,
                ),
                None => final(self)@ == old(self)@ && r@.len() == 0,
            },
    {
        let language = match language_of(path) {
            Some(l) => l,
            None => return nothing(),
        };
        let i = match self.find(language) {
            Some(i) => i,
            None => return nothing(),
        };
        if fresh_start && needs_compile_db(language) && !db_near {
            let mut line = "LSP: ".to_owned();
            line.append(language);
            line.append(" — no compile_commands.json (cross-file navigation limited)");
            self.status = Some(line);
        }
        let uri = file_uri(path);
        if self.servers[i].1.server.is_open(uri.as_str()) {
            return nothing();
        }
        let mut running = self.take(i);
        let body = running.server.did_open(uri.as_str(), language, text);
        let out = running.send_or_queue(body);
        self.enter(language, running);
        out
    }

    /// A served file's buffer changed: send a (coalesced) full-document
    /// `didChange`. Returns what is to be sent now.
    pub fn notify_changed(&mut self, path: &PathBuf, text: &str) -> (r: Vec<Value>)
        requires
            old(self).wf(),
            old(self)@.can_sync(*path),
        ensures
            final(self).wf(),
            match language_in(file_name_bytes(path_bytes(*path))) {
                Some(language) => (final(self)@, items_of(r@)) == old(self)@.changed(
                    language,
                    uri_of(path_bytes(*path)),
                    text@,
                ),
                None => final(self)@ == old(self)@ && r@.len() == 0,
            },
    {
        let language = match language_of(path) {
            Some(l) => l,
            None => return nothing(),
        };
        let i = match self.find(language) {
            Some(i) => i,
            None => return nothing(),
        };
        let uri = file_uri(path);
        if !self.servers[i].1.server.is_open(uri.as_str()) {
            return nothing();
        }
        let mut running = self.take(i);
        let body = running.server.did_change(uri.as_str(), text).unwrap();
        let out = running.send_or_queue(body);
        self.enter(language, running);
        out
    }

    /// A served file closed: send `didClose`. Returns what is to be sent now.
    pub fn notify_closed(&mut self, path: &PathBuf) -> (r: Vec<Value>)
        requires
            old(self).wf(),
        ensures
            final(self).wf(),
            match language_in(file_name_bytes(path_bytes(*path))) {
                Some(language) => (final(self)@, items_of(r@)) == old(self)@.closed(
                    language,
                    uri_of(path_bytes(*path)),
                ),
                None => final(self)@ == old(self)@ && r@.len() == 0,
            },
    {
        let language = match language_of(path) {
            Some(l) => l,
            None => return nothing(),
        };
        let i = match self.find(language) {
            Some(i) => i,
            None => return nothing(),
        };
        let uri = file_uri(path);
        if !self.servers[i].1.server.is_open(uri.as_str()) {
            return nothing();
        }
        let mut running = self.take(i);
        let body = running.server.did_close(uri.as_str()).unwrap();
        let out = running.send_or_queue(body);
        self.enter(language, running);
        out
    }

    /// How many servers are currently running.
    pub fn running_count(&self) -> (r: usize)
        requires
            self.wf(),
        ensures
            r == self@.servers.len(),
    {
        proof {
            lemma_count(entries(self.servers@));
        }
        self.servers.len()
    }

    /// A server for `language`, if running — for a feature to issue a request.
    pub fn server_mut(&mut self, language: &str) -> (r: Option<&mut Server>)
        requires
            old(self).wf(),
        ensures
            match r {
                Some(server) => {
                    let was = old(self)@.servers[language@];
                    &&& old(self)@.servers.contains_key(language@)
                    &&& server.wf()
                    &&& server@ == was.server
                    &&& final(self)@ == old(self)@.running(language@, was.with(final(server)@))
                    &&& final(server).wf() && final(server)@.id == server@.id ==> final(self).wf()
                },
                None => {
                    &&& !old(self)@.servers.contains_key(language@)
                    &&& final(self)@ == old(self)@
                    &&& final(self).wf()
                },
            },
    {
        match self.find(language) {
            Some(i) => {
                let ghost before = entries(self.servers@);
                let ghost was = self.servers@;
                proof {
                    assert(before[i as int] == (language@, was[i as int].1@));
                    assert forall|fresh: Running|
                        ({
                            let list = #[trigger] was.update(i as int, (was[i as int].0, fresh));
                            let all = entries(list);
                            keys_differ(all) && map_of(all) == map_of(before).insert(
                                language@,
                                fresh@,
                            )
                        }) by {
                        let list = was.update(i as int, (was[i as int].0, fresh));
                        lemma_update_entry(before, i as int, fresh@);
                        assert(entries(list) =~= before.update(i as int, (language@, fresh@)));
                    }
                }
                let server = server_at(&mut self.servers, i);
                Some(server)
            },
            None => None,
        }
    }

    /// Send an already-built request/notification body to `language`'s server.
    /// Returns what is to be sent now.
    pub fn send(&mut self, language: &str, body: Value) -> (r: Vec<Value>)
        requires
            old(self).wf(),
        ensures
            final(self).wf(),
            if old(self)@.servers.contains_key(language@) {
                (final(self)@, items_of(r@)) == old(self)@.posting(
                    language@,
                    old(self)@.servers[language@],
                    json_of(body),
                )
            } else {
                final(self)@ == old(self)@ && r@.len() == 0
            },
    {
        match self.find(language) {
            Some(i) => {
                let mut running = self.take(i);
                let out = running.send_or_queue(body);
                self.enter(language, running);
                out
            },
            None => nothing(),
        }
    }

    /// Handle an incoming message. The `initialize` response is consumed here
    /// (store capabilities, send `initialized`, flush the queue); other
    /// responses are routed back to their feature via the returned [`Response`].
    pub fn handle_message(&mut self, server_id: usize, msg: Message) -> (r: Handled)
        requires
            old(self).wf(),
        ensures
            final(self).wf(),
            forall|l: Seq<char>| #[trigger]
                old(self)@.serves(l, server_id) ==> handles(old(self)@, l, msg, final(self)@, r),
            (forall|l: Seq<char>| !(#[trigger] old(self)@.serves(l, server_id))) ==> {
                &&& final(self)@ == old(self)@
                &&& r.response is None
                &&& r.sends@.len() == 0
            },
    {
        let i = match self.find_id(server_id) {
            Some(i) => i,
            None => return Handled { response: None, sends: nothing() },
        };
        let language = self.servers[i].0.clone();
        let ghost was = self@;
        match msg {
            Message::Response { id, result, error } => {
                let mut running = self.take(i);
                let kind = running.server.on_response(&id);
                match kind {
                    Some(PendingKind::Initialize) => {
                        let initialized = match &result {
                            Some(v) => running.server.on_initialize_response(Some(v)),
                            None => running.server.on_initialize_response(None),
                        };
                        let ghost queued = running.queued@;
                        let mut sends: Vec<Value> = just(initialized);
                        let ghost first = items_of(sends@);
                        let ghost head = sends@;
                        sends.append(&mut running.queued);
                        assert(sends@ =~= head + queued);
                        assert(items_of(sends@) =~= first + items_of(queued));
                        running.ready = true;
                        running.queued = nothing();
                        self.enter(language.as_str(), running);
                        assert(self@.servers =~= was.answered(
                            language@,
                            id@,
                            json_opt(result),
                            error is Some,
                        ).0.servers);
                        Handled { response: None, sends }
                    },
                    Some(other) => {
                        self.enter(language.as_str(), running);
                        // Surface an error result as `None` (no location).
                        let found = if error.is_some() {
                            None
                        } else {
                            result
                        };
                        assert(self@.servers =~= was.answered(
                            language@,
                            id@,
                            json_opt(result),
                            error is Some,
                        ).0.servers);
                        Handled {
                            response: Some(Response { kind: other, result: found }),
                            sends: nothing(),
                        }
                    },
                    None => {
                        proof {
                            let r = was.servers[language@];
                            assert(r.server.responded(id@).pending =~= r.server.pending);
                            assert(running@ == r);
                        }
                        self.enter(language.as_str(), running);
                        assert(self@.servers =~= was.servers);
                        Handled { response: None, sends: nothing() }
                    },
                }
            },
            // `$/progress` drives the status line (rust-analyzer's indexing
            // phase, notably); other notifications are ignored for now (no
            // diagnostics UI yet).
            Message::Notification { method, params } => {
                if same_text(method.as_str(), "$/progress") {
                    let mut running = self.take(i);
                    let ghost r = running@;
                    let changed = running.server.on_progress(&params);
                    let line = running.server.progress_line();
                    let ghost left = running.server@.jobs;
                    assert(running@ == r.with((ServerState { jobs: left, ..r.server })));
                    self.enter(language.as_str(), running);
                    if changed {
                        let mut status = "LSP: ".to_owned();
                        status.append(language.as_str());
                        match line {
                            Some(l) => {
                                status.append(" — ");
                                status.append(l.as_str());
                            },
                            None => {
                                status.append(" ready");
                            },
                        }
                        self.status = Some(status);
                    }
                    proof {
                        assert(self@.servers =~= was.servers.insert(
                            language@,
                            r.with((ServerState { jobs: left, ..r.server })),
                        ));
                        assert((left, changed) == progressed(r.server.jobs, params));
                    }
                }
                Handled { response: None, sends: nothing() }
            },
            // `window/workDoneProgress/create` just needs an empty ack before
            // the server will stream `$/progress` for that token; other
            // server-to-client requests are ignored (no dynamic registration).
            Message::Request { id, method, params } => {
                if same_text(method.as_str(), "window/workDoneProgress/create") {
                    Handled { response: None, sends: just(response_body(&id, null())) }
                } else {
                    Handled { response: None, sends: nothing() }
                }
            },
        }
    }

    /// Mark a server dead after its exit, removing it so a later open can
    /// restart it (restart policy: none automatic; next open re-spawns).
    pub fn mark_exited(&mut self, server_id: usize)
        requires
            old(self).wf(),
        ensures
            final(self).wf(),
            forall|l: Seq<char>| #[trigger]
                old(self)@.serves(l, server_id) ==> final(self)@ == (LspState {
                    servers: old(self)@.servers.remove(l),
                    ..old(self)@
                }).saying("LSP: "@ + l + " server exited"@),
            (forall|l: Seq<char>| !(#[trigger] old(self)@.serves(l, server_id))) ==> final(self)@
                == old(self)@,
    {
        if let Some(i) = self.find_id(server_id) {
            let language = self.servers[i].0.clone();
            let gone = self.take(i);
            let mut line = "LSP: ".to_owned();
            line.append(language.as_str());
            line.append(" server exited");
            self.status = Some(line);
        }
    }

    /// Cleanly shut down every server (on quit). Returns the last messages of
    /// each, in no particular order of servers.
    pub fn shutdown_all(&mut self) -> (r: Vec<Farewell>)
        requires
            old(self).wf(),
            old(self)@.can_leave(),
        ensures
            final(self).wf(),
            final(self)@ == (LspState { servers: Map::empty(), ..old(self)@ }),
            forall|l: Seq<char>| #[trigger]
                old(self)@.servers.contains_key(l) ==> exists|i: int|
                    0 <= i < r@.len() && takes_leave(old(self)@.servers[l].server, #[trigger] r@[i]),
            forall|i: int|
                0 <= i < r@.len() ==> exists|l: Seq<char>| #[trigger]
                    old(self)@.servers.contains_key(l) && takes_leave(
                        old(self)@.servers[l].server,
                        #[trigger] r@[i],
                    ),
            forall|i: int, j: int|
                0 <= i < j < r@.len() ==> (#[trigger] r@[i]).id != (#[trigger] r@[j]).id,
    {
        let ghost all = entries(self.servers@);
        let ghost was = self.servers@;
        proof {
            lemma_map_of(all);
        }
        proof {
            assert forall|k: int| 0 <= k < was.len() implies (#[trigger] was[k]).1.server@.last_id
                < i64::MAX by {
                assert(all[k] == (was[k].0@, was[k].1@));
                assert(self@.servers[all[k].0] == was[k].1@);
            }
        }
        let mut servers: Vec<(String, Running)> = Vec::new();
        std::mem::swap(&mut servers, &mut self.servers);
        let mut out: Vec<Farewell> = Vec::new();
        for entry in it: servers
            invariant
                it.seq() == was,
                all == entries(was),
                forall|k: int| 0 <= k < was.len() ==> (#[trigger] was[k]).1.wf(),
                forall|k: int|
                    0 <= k < was.len() ==> (#[trigger] was[k]).1.server@.last_id < i64::MAX,
                out@.len() == it.index(),
                forall|k: int|
                    0 <= k < out@.len() ==> takes_leave(was[k].1.server@, #[trigger] out@[k]),
        {
            let mut running = entry.1;
            let id: usize = running.server.id();
            assert(was[it.index() as int] == entry);
            let (shutdown, exit) = running.server.shutdown();
            out.push(Farewell { id, shutdown, exit });
        }
        assert(entries(self.servers@) =~= Seq::empty());
        proof {
            assert forall|l: Seq<char>| #[trigger]
                old(self)@.servers.contains_key(l) implies exists|i: int|
                0 <= i < out@.len() && takes_leave(
                    old(self)@.servers[l].server,
                    #[trigger] out@[i],
                ) by {
                let k = choose|k: int| 0 <= k < all.len() && (#[trigger] all[k]).0 == l;
                assert(all[k] == (was[k].0@, was[k].1@));
                assert(takes_leave(old(self)@.servers[l].server, out@[k]));
            }
            assert forall|i: int| 0 <= i < out@.len() implies exists|l: Seq<char>| #[trigger]
                old(self)@.servers.contains_key(l) && takes_leave(
                    old(self)@.servers[l].server,
                    #[trigger] out@[i],
                ) by {
                assert(all[i] == (was[i].0@, was[i].1@));
                assert(old(self)@.servers.contains_key(all[i].0));
            }
        }
        out
    }
}

/// The protocol state in a server's place.
fn server_at(servers: &mut Vec<(String, Running)>, i: usize) -> (r: &mut Server)
    requires
        i < old(servers)@.len(),
    ensures
        *r == old(servers)@[i as int].1.server,
        final(servers)@ == old(servers)@.update(
            i as int,
            (
                old(servers)@[i as int].0,
                (Running { server: *final(r), ..old(servers)@[i as int].1 }),
            ),
        ),
{
    &mut servers[i].1.server
}

/// Whether the last messages are those of a server: `shutdown`, then `exit`.
pub open spec fn takes_leave(server: ServerState, f: Farewell) -> bool {
    &&& f.id == server.id
    &&& json_of(f.shutdown) == request_json(server.next_id(), "shutdown"@, Json::Null)
    &&& json_of(f.exit) == notification_json("exit"@, Json::Null)
}

/// A list without a key twice has as many entries as its map has keys.
proof fn lemma_count<K, V>(s: Seq<(K, V)>)
    requires
        keys_differ(s),
    ensures
        map_of(s).dom().finite(),
        map_of(s).len() == s.len(),
    decreases s.len(),
{
    if s.len() == 0 {
        assert(map_of(s).dom() =~= Set::empty());
    } else {
        let rest = s.drop_last();
        assert forall|a: int, b: int| 0 <= a < b < rest.len() implies (#[trigger] rest[a]).0 != (
        #[trigger] rest[b]).0 by {
            assert(rest[a] == s[a] && rest[b] == s[b]);
        }
        lemma_count(rest);
        assert forall|j: int| 0 <= j < rest.len() implies (#[trigger] rest[j]).0 != s.last().0 by {
            assert(s[j].0 != s[s.len() - 1].0);
        }
        lemma_no_key(rest, s.last().0);
        assert(map_of(s).dom() =~= map_of(rest).dom().insert(s.last().0));
    }
}

/// Languages whose server (clangd) needs a compilation database for
/// cross-file navigation; used to hint when none is discoverable.
pub fn needs_compile_db(language: &str) -> (r: bool)
    ensures
        r == database_driven(language@),
{
    same_text(language, "c") || same_text(language, "cpp")
}

// ---------------------------------------------------------------------------
// Laws.

/// A message for a server whose handshake is not done waits: nothing goes out,
/// and when the handshake completes it follows what was queued before it, all
/// of it after `initialized`.
pub proof fn messages_wait_for_the_handshake(
    s: LspState,
    language: Seq<char>,
    body: Json,
    id: Id,
    result: Option<Json>,
    failed: bool,
)
    requires
        s.servers.contains_key(language),
        !s.servers[language].ready,
        s.servers[language].server.pending.contains_key(id),
        s.servers[language].server.pending[id] == PendingKind::Initialize,
    ensures
        ({
            let (waiting, out) = s.posting(language, s.servers[language], body);
            let (done, routed, sends) = waiting.answered(language, id, result, failed);
            &&& out.len() == 0
            &&& routed is None
            &&& sends == s.answered(language, id, result, failed).2.push(body)
            &&& sends[0] == notification_json("initialized"@, Json::Object(Map::empty()))
            &&& done.servers[language].ready
            &&& done.servers[language].queued.len() == 0
        }),
{
    let (waiting, out) = s.posting(language, s.servers[language], body);
    let (done, routed, sends) = waiting.answered(language, id, result, failed);
    assert(sends =~= s.answered(language, id, result, failed).2.push(body));
}

/// Each change of an open document is synced one version after the last.
pub proof fn changes_count_versions_up(
    s: LspState,
    language: Seq<char>,
    uri: Seq<char>,
    first: Seq<char>,
    second: Seq<char>,
)
    requires
        s.servers.contains_key(language),
        s.servers[language].server.open.contains_key(uri),
    ensures
        ({
            let version = s.servers[language].server.open[uri];
            let once = s.changed(language, uri, first).0;
            let twice = once.changed(language, uri, second).0;
            &&& once.servers[language].server.open[uri] == version + 1
            &&& twice.servers[language].server.open[uri] == version + 2
        }),
{
}

/// A document that was opened and closed again is not open, and a change of it
/// says nothing to the server.
pub proof fn closed_documents_are_silent(
    s: LspState,
    language: Seq<char>,
    uri: Seq<char>,
    text: Seq<char>,
)
    ensures
        ({
            let after = s.closed(language, uri).0;
            &&& after.changed(language, uri, text) == (after, Seq::<Json>::empty())
            &&& after.closed(language, uri) == (after, Seq::<Json>::empty())
        }),
{
}

/// A message goes out at once where the handshake is done, and to the end of the
/// queue where it is not; no other server hears of it.
pub proof fn messages_go_to_their_server(
    s: LspState,
    language: Seq<char>,
    r: RunningState,
    body: Json,
    other: Seq<char>,
)
    requires
        other != language,
    ensures
        ({
            let (after, out) = s.posting(language, r, body);
            &&& r.ready ==> out == seq![body] && after.servers[language].queued == r.queued
            &&& !r.ready ==> out.len() == 0 && after.servers[language].queued == r.queued.push(body)
            &&& after.servers[language].server == r.server
            &&& after.servers[language].ready == r.ready
            &&& after.servers.contains_key(other) == s.servers.contains_key(other)
            &&& s.servers.contains_key(other) ==> after.servers[other] == s.servers[other]
        }),
{
}

/// A document is opened once: the first time its text is sent, and it is synced
/// at version one; the second time nothing is said. A language without a server
/// hears of nothing.
pub proof fn documents_are_opened_once(
    s: LspState,
    language: Seq<char>,
    uri: Seq<char>,
    text: Seq<char>,
    fresh_start: bool,
    db_near: bool,
)
    ensures
        ({
            let (once, out) = s.opened(language, uri, text, fresh_start, db_near);
            let twice = once.opened(language, uri, text, false, db_near);
            &&& !s.servers.contains_key(language) ==> once == s && out.len() == 0
            &&& s.servers.contains_key(language) ==> {
                let r = s.servers[language];
                &&& once.servers[language].server.open.contains_key(uri)
                &&& !r.server.open.contains_key(uri) ==> {
                    &&& once.servers[language].server.open[uri] == 1
                    &&& r.ready ==> out == seq![did_open_json(uri, language, text)]
                    &&& !r.ready ==> out.len() == 0 && once.servers[language].queued
                        == r.queued.push(did_open_json(uri, language, text))
                }
                &&& r.server.open.contains_key(uri) ==> out.len() == 0 && once.servers[language] == r
                &&& twice == (once, Seq::<Json>::empty())
            }
        }),
{
}

/// A change of an open document is sent with its whole text at the version after
/// the last one, and closing it says so; the other documents stay as they are.
/// Of a document that is not open nothing is said.
pub proof fn changes_and_closes_are_sent(
    s: LspState,
    language: Seq<char>,
    uri: Seq<char>,
    text: Seq<char>,
    other: Seq<char>,
)
    requires
        other != uri,
        s.servers.contains_key(language),
    ensures
        ({
            let r = s.servers[language];
            let (changed, sent) = s.changed(language, uri, text);
            let (closed, said) = s.closed(language, uri);
            let open = r.server.open;
            &&& !open.contains_key(uri) ==> changed == s && sent.len() == 0 && closed == s
                && said.len() == 0
            &&& open.contains_key(uri) && r.ready ==> sent == seq![
                did_change_json(uri, open[uri] + 1, text),
            ] && said == seq![did_close_json(uri)]
            &&& open.contains_key(uri) && !r.ready ==> sent.len() == 0 && said.len() == 0
                && changed.servers[language].queued == r.queued.push(
                did_change_json(uri, open[uri] + 1, text),
            ) && closed.servers[language].queued == r.queued.push(did_close_json(uri))
            &&& open.contains_key(uri) ==> changed.servers[language].server.open.contains_key(uri)
                && !closed.servers[language].server.open.contains_key(uri)
            &&& open.contains_key(other) ==> {
                &&& changed.servers[language].server.open.contains_key(other)
                &&& changed.servers[language].server.open[other] == open[other]
                &&& closed.servers[language].server.open.contains_key(other)
                &&& closed.servers[language].server.open[other] == open[other]
            }
        }),
{
}

/// An answer goes to what its request was for, with its result, or without one if
/// it says that the request failed. An answer that is not waited for goes
/// nowhere. The answer to `initialize` goes to no feature: it makes the server
/// ready, and sends what has waited.
pub proof fn answers_go_where_they_belong(
    s: LspState,
    language: Seq<char>,
    id: Id,
    result: Option<Json>,
    failed: bool,
)
    requires
        s.servers.contains_key(language),
    ensures
        ({
            let r = s.servers[language];
            let (after, routed, sends) = s.answered(language, id, result, failed);
            &&& !r.server.pending.contains_key(id) ==> after == s && routed is None && sends.len()
                == 0
            &&& r.server.pending.contains_key(id) ==> {
                &&& !after.servers[language].server.pending.contains_key(id)
                &&& r.server.pending[id] == PendingKind::Definition ==> {
                    &&& sends.len() == 0
                    &&& routed == Some(
                        (
                            PendingKind::Definition,
                            if failed {
                                None
                            } else {
                                result
                            },
                        ),
                    )
                    &&& after.servers[language].ready == r.ready
                }
                &&& r.server.pending[id] == PendingKind::Initialize ==> {
                    &&& routed is None
                    &&& after.servers[language].ready
                    &&& sends.len() == 1 + r.queued.len()
                    &&& sends.skip(1) == r.queued
                }
            }
        }),
{
    let r = s.servers[language];
    let (after, routed, sends) = s.answered(language, id, result, failed);
    if r.server.pending.contains_key(id) && r.server.pending[id] == PendingKind::Initialize {
        assert(sends.skip(1) =~= r.queued);
    }
}

/// Of what a server asks for, only a place for its progress is granted; its other
/// requests are not answered, and neither they nor its notifications, but for
/// progress, change anything.
pub proof fn servers_are_answered_sparingly(
    before: LspState,
    language: Seq<char>,
    msg: Message,
    after: LspState,
    r: Handled,
)
    requires
        handles(before, language, msg, after, r),
        !(msg is Response),
    ensures
        r.response is None,
        msg matches Message::Request { id, method, params } ==> {
            &&& after == before
            &&& method@ == "window/workDoneProgress/create"@ ==> items_of(r.sends@) == seq![
                crate::lsp::protocol::response_json(id@, Json::Null),
            ]
            &&& method@ != "window/workDoneProgress/create"@ ==> r.sends@.len() == 0
        },
        msg matches Message::Notification { method, params } ==> {
            &&& r.sends@.len() == 0
            &&& method@ != "$/progress"@ ==> after == before
        },
{
    if msg is Request {
        assert(items_of(r.sends@).len() == r.sends@.len());
    }
}

/// C and C++ are the languages that need a compilation database.
pub proof fn c_needs_a_database(language: Seq<char>)
    ensures
        database_driven(language) <==> language == seq!['c'] || language == seq!['c', 'p', 'p'],
{
    reveal_strlit("c");
    reveal_strlit("cpp");
    assert("c"@ =~= seq!['c']);
    assert("cpp"@ =~= seq!['c', 'p', 'p']);
}

/// The status says what a server is doing, behind its language, as soon as that
/// changes, and that it is ready when nothing is left to do; where nothing
/// changes it says what it said.
pub proof fn the_status_follows_the_progress(s: LspState, language: Seq<char>, params: Value)
    requires
        s.servers.contains_key(language),
    ensures
        ({
            let (left, changed) = progressed(s.servers[language].server.jobs, params);
            let after = s.reported(language, params);
            &&& after.servers[language].server.jobs == left
            &&& !changed ==> after.status == s.status
            &&& changed && left.len() > 0 ==> after.status == Some(
                "LSP: "@ + language + " — "@ + status_line(left)->0,
            )
            &&& changed && left.len() == 0 ==> after.status == Some(
                "LSP: "@ + language + " ready"@,
            )
        }),
{
}

/// A hint about the compilation database is given when a server that needs one is
/// started and none is near, and at no other time.
pub proof fn the_hint_is_given_once(
    s: LspState,
    language: Seq<char>,
    uri: Seq<char>,
    text: Seq<char>,
    fresh_start: bool,
    db_near: bool,
)
    requires
        s.servers.contains_key(language),
    ensures
        ({
            let after = s.opened(language, uri, text, fresh_start, db_near).0;
            let needed = fresh_start && !db_near && (language == seq!['c'] || language == seq![
                'c',
                'p',
                'p',
            ]);
            &&& !needed ==> after.status == s.status
            &&& needed ==> after.status == Some(
                "LSP: "@ + language
                    + " — no compile_commands.json (cross-file navigation limited)"@,
            )
        }),
{
    c_needs_a_database(language);
}

/// A server is asked to shut down and then told to exit.
pub proof fn servers_are_shut_down(server: ServerState, f: Farewell)
    requires
        takes_leave(server, f),
    ensures
        f.id == server.id,
        json_of(f.shutdown).at("method"@) == Some(Json::Str("shutdown"@)),
        json_of(f.shutdown).at("id"@) == Some(server.next_id().json()),
        json_of(f.exit).at("method"@) == Some(Json::Str("exit"@)),
        json_of(f.exit).at("id"@) is None,
{
    crate::lsp::protocol::messages_carry_their_members(server.next_id(), "shutdown"@, Json::Null);
    crate::lsp::protocol::messages_carry_their_members(server.next_id(), "exit"@, Json::Null);
    reveal_strlit("id");
    reveal_strlit("jsonrpc");
    reveal_strlit("method");
    reveal_strlit("params");
    assert("id"@.len() == 2 && "jsonrpc"@.len() == 7);
    assert("method"@.len() == 6 && "params"@.len() == 6);
}

} // verus!
