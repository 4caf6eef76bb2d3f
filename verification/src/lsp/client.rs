//! Per-server protocol state: the initialize lifecycle, capability storage,
//! request correlation with stale-drop, and document-sync message construction.
//!
//! This layer is pure — every method returns the JSON body to send and changes
//! only in-memory state. The connection to the subprocess does the writing.
use crate::assoc::{
    entries_where, keys_differ, lemma_keep_entries, lemma_map_of, lemma_no_key, lemma_push_entry,
    lemma_remove_entry, lemma_update_entry, map_of, values_where,
};
use crate::json::{
    array, as_number, as_text, as_truth, int_text, is_null, items_of, json_of, json_text, member,
    member_alone, member_of, no_members, null, number, object, one_member, put, string, truth,
    write_out, Json,
};
use crate::lsp::protocol::{
    notification_body, notification_json, path_to_uri, request_body, request_json, uri_of, Id,
    IdSource, RequestId,
};
use crate::paths::path_bytes;
use crate::text::{decimal, decimal_string, same_text};
use serde_json::Value;
use std::path::PathBuf;
use vstd::prelude::*;

verus! {

/// What an in-flight request was for, so its response routes to the right
/// feature.
#[derive(Debug, Clone, Copy, PartialEq, Eq, Structural)]
pub enum PendingKind {
    Initialize,
    Definition,
}

/// One active `$/progress` job: the title from its `begin`, refreshed with the
/// latest `report`'s message/percentage until `end` removes it.
#[derive(Debug)]
struct Progress {
    token: String,
    title: String,
    message: Option<String>,
    percentage: Option<u64>,
}

/// A progress job, as a value of the specifications.
pub struct Job {
    pub token: Seq<char>,
    pub title: Seq<char>,
    pub message: Option<Seq<char>>,
    pub percentage: Option<u64>,
}

/// The text of an optional string.
pub open spec fn text_of(s: Option<String>) -> Option<Seq<char>> {
    match s {
        Some(s) => Some(s@),
        None => None,
    }
}

impl View for Progress {
    type V = Job;

    closed spec fn view(&self) -> Job {
        Job {
            token: self.token@,
            title: self.title@,
            message: text_of(self.message),
            percentage: self.percentage,
        }
    }
}

/// The protocol state for one language server.
#[derive(Debug)]
pub struct Server {
    pub id: usize,
    /// The server's advertised capabilities as raw JSON, so that a schema drift
    /// between servers cannot fail the whole parse and silently disable
    /// features.
    pub capabilities: Option<Value>,
    ids: IdSource,
    /// Requests in flight, by id; no id occurs twice.
    pending: Vec<(RequestId, PendingKind)>,
    /// Open documents by URI → last synced version; no URI occurs twice.
    open_docs: Vec<(String, i32)>,
    /// Active `$/progress` jobs, most recently updated last (so the status
    /// line shows what the server is doing *now*, e.g. indexing).
    progress: Vec<Progress>,
}

/// The state of a server, as a value of the specifications.
#[verifier::ext_equal]
pub struct ServerState {
    pub id: usize,
    pub capabilities: Option<Json>,
    /// The last request id that was issued.
    pub last_id: int,
    pub pending: Map<Id, PendingKind>,
    pub open: Map<Seq<char>, int>,
    pub jobs: Seq<Job>,
}

/// The requests in flight, in the order in which they are kept.
spec fn pending_entries(s: Seq<(RequestId, PendingKind)>) -> Seq<(Id, PendingKind)> {
    s.map_values(|e: (RequestId, PendingKind)| (e.0@, e.1))
}

/// The open documents, in the order in which they are kept.
spec fn open_entries(s: Seq<(String, i32)>) -> Seq<(Seq<char>, int)> {
    s.map_values(|e: (String, i32)| (e.0@, e.1 as int))
}

/// The jobs of a list.
spec fn jobs_of(s: Seq<Progress>) -> Seq<Job> {
    s.map_values(|p: Progress| p@)
}

impl View for Server {
    type V = ServerState;

    closed spec fn view(&self) -> ServerState {
        ServerState {
            id: self.id,
            capabilities: match self.capabilities {
                Some(v) => Some(json_of(v)),
                None => None,
            },
            last_id: self.ids.0 as int,
            pending: map_of(pending_entries(self.pending@)),
            open: map_of(open_entries(self.open_docs@)),
            jobs: jobs_of(self.progress@),
        }
    }
}

impl ServerState {
    /// A server that nothing was sent to yet.
    pub open spec fn fresh(id: usize) -> ServerState {
        ServerState {
            id,
            capabilities: None,
            last_id: 0,
            pending: Map::empty(),
            open: Map::empty(),
            jobs: Seq::empty(),
        }
    }

    /// The id that the next request will have.
    pub open spec fn next_id(self) -> Id {
        Id::Num(self.last_id + 1)
    }

    /// The state after a request of `kind` was issued.
    pub open spec fn requested(self, kind: PendingKind) -> ServerState {
        ServerState {
            last_id: self.last_id + 1,
            pending: self.pending.insert(self.next_id(), kind),
            ..self
        }
    }

    /// The state after the response to request `id`.
    pub open spec fn responded(self, id: Id) -> ServerState {
        ServerState { pending: self.pending.remove(id), ..self }
    }

    /// The state after every request of `kind` was dropped.
    pub open spec fn superseded(self, kind: PendingKind) -> ServerState {
        ServerState { pending: values_where(self.pending, |k: PendingKind| k != kind), ..self }
    }

    /// The state after the response to `initialize`.
    pub open spec fn initialized(self, result: Option<Json>) -> ServerState {
        match result {
            Some(r) => match r.at("capabilities"@) {
                Some(caps) => ServerState { capabilities: Some(caps), ..self },
                None => self,
            },
            None => self,
        }
    }

    /// Whether the server said that it can find definitions: its
    /// `definitionProvider` is there, and neither `null` nor `false`.
    pub open spec fn finds_definitions(self) -> bool {
        match self.capabilities {
            Some(caps) => match caps.at("definitionProvider"@) {
                Some(v) => !(v is Null) && v != Json::Bool(false),
                None => false,
            },
            None => false,
        }
    }

    /// The state with document `uri` open at `version`.
    pub open spec fn synced(self, uri: Seq<char>, version: int) -> ServerState {
        ServerState { open: self.open.insert(uri, version), ..self }
    }

    /// The state with document `uri` closed.
    pub open spec fn closed_doc(self, uri: Seq<char>) -> ServerState {
        ServerState { open: self.open.remove(uri), ..self }
    }
}

/// The client's capabilities, as sent with `initialize`.
pub open spec fn client_capabilities() -> Json {
    Json::Object(
        Map::empty().insert(
            "textDocument"@,
            Json::Object(
                Map::empty().insert(
                    "definition"@,
                    one_member("linkSupport"@, Json::Bool(true)),
                ).insert("synchronization"@, one_member("didSave"@, Json::Bool(false))),
            ),
        ).insert("window"@, one_member("workDoneProgress"@, Json::Bool(true))),
    )
}

/// The parameters of `initialize`.
pub open spec fn initialize_params(process_id: u32, root_uri: Seq<char>) -> Json {
    Json::Object(
        Map::empty().insert("processId"@, Json::Int(process_id as int)).insert(
            "rootUri"@,
            Json::Str(root_uri),
        ).insert("capabilities"@, client_capabilities()),
    )
}

/// The `didOpen` notification.
pub open spec fn did_open_json(uri: Seq<char>, language: Seq<char>, text: Seq<char>) -> Json {
    notification_json(
        "textDocument/didOpen"@,
        one_member(
            "textDocument"@,
            Json::Object(
                Map::empty().insert("uri"@, Json::Str(uri)).insert(
                    "languageId"@,
                    Json::Str(language),
                ).insert("version"@, Json::Int(1)).insert("text"@, Json::Str(text)),
            ),
        ),
    )
}

/// The `didChange` notification: the full text at its version.
pub open spec fn did_change_json(uri: Seq<char>, version: int, text: Seq<char>) -> Json {
    notification_json(
        "textDocument/didChange"@,
        Json::Object(
            Map::empty().insert(
                "textDocument"@,
                Json::Object(
                    Map::empty().insert("uri"@, Json::Str(uri)).insert(
                        "version"@,
                        Json::Int(version),
                    ),
                ),
            ).insert(
                "contentChanges"@,
                Json::Array(seq![one_member("text"@, Json::Str(text))]),
            ),
        ),
    )
}

/// The `didClose` notification.
pub open spec fn did_close_json(uri: Seq<char>) -> Json {
    notification_json(
        "textDocument/didClose"@,
        one_member("textDocument"@, one_member("uri"@, Json::Str(uri))),
    )
}

// ---------------------------------------------------------------------------
// Progress.

/// The jobs but for those of `token`.
pub open spec fn jobs_without(jobs: Seq<Job>, token: Seq<char>) -> Seq<Job>
    decreases jobs.len(),
{
    if jobs.len() == 0 {
        jobs
    } else if jobs.last().token == token {
        jobs_without(jobs.drop_last(), token)
    } else {
        jobs_without(jobs.drop_last(), token).push(jobs.last())
    }
}

/// The first job of `token` at or after `from`.
pub open spec fn job_from(jobs: Seq<Job>, token: Seq<char>, from: int) -> Option<int>
    decreases jobs.len() - from,
{
    if from < 0 || from >= jobs.len() {
        None
    } else if jobs[from].token == token {
        Some(from)
    } else {
        job_from(jobs, token, from + 1)
    }
}

/// What the progress report `value` for `token` makes of the jobs, and whether
/// it changes anything: `begin` adds a job at the end, in place of one with the
/// same token; `report` moves the token's job to the end and refreshes what it
/// carries; `end` takes the token's job out.
pub open spec fn digested(jobs: Seq<Job>, token: Seq<char>, value: Json) -> (Seq<Job>, bool) {
    let kind = value.text_at("kind"@);
    let message = value.text_at("message"@);
    let percentage = value.number_at("percentage"@);
    if kind == Some("begin"@) {
        let job = Job {
            token,
            title: match value.text_at("title"@) {
                Some(t) => t,
                None => "working"@,
            },
            message,
            percentage,
        };
        (jobs_without(jobs, token).push(job), true)
    } else if kind == Some("report"@) {
        match job_from(jobs, token, 0) {
            Some(i) => {
                let job = jobs[i];
                let fresh = Job {
                    message: if message is Some {
                        message
                    } else {
                        job.message
                    },
                    percentage: if percentage is Some {
                        percentage
                    } else {
                        job.percentage
                    },
                    ..job
                };
                (jobs.remove(i).push(fresh), true)
            },
            None => (jobs, false),
        }
    } else if kind == Some("end"@) {
        let left = jobs_without(jobs, token);
        (left, left.len() != jobs.len())
    } else {
        (jobs, false)
    }
}

/// What a progress token is kept under: a string itself, any other value as it
/// is written.
pub open spec fn token_key(token: Json, written: Seq<char>) -> Seq<char> {
    match token {
        Json::Null => "null"@,
        Json::Bool(true) => "true"@,
        Json::Bool(false) => "false"@,
        Json::Int(n) => int_text(n),
        Json::Str(s) => s,
        _ => written,
    }
}

/// What the `$/progress` parameters `params` make of the jobs, and whether they
/// change anything. A token that is an array, an object or a number that is no
/// integer is kept under its JSON text.
pub open spec fn progressed(jobs: Seq<Job>, params: Value) -> (Seq<Job>, bool) {
    match (json_of(params).at("token"@), json_of(params).at("value"@)) {
        (Some(token), Some(value)) => {
            let written = json_text(member_of(params, "token"@)->0);
            digested(jobs, token_key(token, written), value)
        },
        _ => (jobs, false),
    }
}

/// A job as a one-line status.
pub open spec fn job_line(job: Job) -> Seq<char> {
    job.title + (match job.message {
        Some(m) => " "@ + m,
        None => Seq::empty(),
    }) + (match job.percentage {
        Some(p) => " "@ + decimal(p as nat) + "%"@,
        None => Seq::empty(),
    })
}

/// The status of the last of the jobs.
pub open spec fn status_line(jobs: Seq<Job>) -> Option<Seq<char>> {
    if jobs.len() == 0 {
        None
    } else {
        Some(job_line(jobs.last()))
    }
}

/// The text of member `key` of a value, as a string of its own.
fn owned_text(value: &Value, key: &str) -> (r: Option<String>)
    ensures
        text_of(r) == json_of(*value).text_at(key@),
{
    match member(value, key) {
        Some(v) => match as_text(v) {
            Some(s) => Some(s.to_owned()),
            None => None,
        },
        None => None,
    }
}

proof fn lemma_jobs_push(s: Seq<Progress>, p: Progress)
    ensures
        jobs_of(s.push(p)) == jobs_of(s).push(p@),
{
    assert(jobs_of(s.push(p)) =~= jobs_of(s).push(p@));
}

/// Drops the jobs of a token.
fn drop_jobs(jobs: Vec<Progress>, token: &String) -> (r: Vec<Progress>)
    ensures
        jobs_of(r@) == jobs_without(jobs_of(jobs@), token@),
{
    let mut kept: Vec<Progress> = Vec::new();
    let ghost all = jobs_of(jobs@);
    let ghost whole = jobs@;
    assert(all.take(0) =~= Seq::empty());
    assert(jobs_of(kept@) =~= jobs_without(all.take(0), token@));
    for job in it: jobs
        invariant
            it.seq() == whole,
            all == jobs_of(whole),
            jobs_of(kept@) == jobs_without(all.take(it.index() as int), token@),
    {
        let ghost i = it.index() as int;
        assert(all.take(i + 1).drop_last() =~= all.take(i));
        assert(all[i] == job@);
        assert(all.take(i + 1).last() == all[i]);
        if !same_text(job.token.as_str(), token.as_str()) {
            proof {
                lemma_jobs_push(kept@, job);
            }
            kept.push(job);
        }
    }
    assert(all.take(all.len() as int) =~= all);
    kept
}

/// The place of the first job of a token.
fn find_job(jobs: &Vec<Progress>, token: &String) -> (r: Option<usize>)
    ensures
        match r {
            Some(i) => i < jobs@.len() && job_from(jobs_of(jobs@), token@, 0) == Some(i as int),
            None => job_from(jobs_of(jobs@), token@, 0) is None,
        },
{
    let mut i: usize = 0;
    while i < jobs.len()
        invariant
            i <= jobs@.len(),
            job_from(jobs_of(jobs@), token@, 0) == job_from(jobs_of(jobs@), token@, i as int),
        decreases jobs@.len() - i,
    {
        assert(jobs_of(jobs@)[i as int] == jobs@[i as int]@);
        if same_text(jobs[i].token.as_str(), token.as_str()) {
            return Some(i);
        }
        i += 1;
    }
    None
}

impl Server {
    /// Whether no request id and no URI occurs twice.
    pub closed spec fn wf(self) -> bool {
        keys_differ(pending_entries(self.pending@)) && keys_differ(open_entries(self.open_docs@))
    }

    pub fn new(id: usize) -> (r: Self)
        ensures
            r.wf(),
            r@ == ServerState::fresh(id),
    {
        let r = Self {
            id,
            capabilities: None,
            ids: IdSource::default(),
            pending: Vec::new(),
            open_docs: Vec::new(),
            progress: Vec::new(),
        };
        assert(pending_entries(r.pending@) =~= Seq::empty());
        assert(open_entries(r.open_docs@) =~= Seq::empty());
        assert(jobs_of(r.progress@) =~= Seq::empty());
        r
    }

    /// The number by which the server's messages are told from others'.
    pub fn id(&self) -> (r: usize)
        ensures
            r == self@.id,
    {
        self.id
    }

    /// The place of a request in flight.
    fn find_pending(&self, id: &RequestId) -> (r: Option<usize>)
        ensures
            match r {
                Some(i) => i < self.pending@.len() && self.pending@[i as int].0@ == id@,
                None => forall|i: int|
                    0 <= i < self.pending@.len() ==> (#[trigger] self.pending@[i]).0@ != id@,
            },
    {
        let mut i: usize = 0;
        while i < self.pending.len()
            invariant
                i <= self.pending@.len(),
                forall|j: int| 0 <= j < i ==> (#[trigger] self.pending@[j]).0@ != id@,
            decreases self.pending@.len() - i,
        {
            if self.pending[i].0.same(id) {
                return Some(i);
            }
            i += 1;
        }
        None
    }

    /// Records a request in flight.
    fn record(&mut self, id: &RequestId, kind: PendingKind)
        requires
            old(self).wf(),
        ensures
            final(self).wf(),
            final(self)@ == (ServerState {
                pending: old(self)@.pending.insert(id@, kind),
                ..old(self)@
            }),
    {
        let ghost before = pending_entries(self.pending@);
        match self.find_pending(id) {
            Some(i) => {
                proof {
                    assert(before[i as int] == (id@, self.pending@[i as int].1));
                    lemma_update_entry(before, i as int, kind);
                }
                self.pending.set(i, (id.copy(), kind));
                assert(pending_entries(self.pending@) =~= before.update(i as int, (id@, kind)));
            },
            None => {
                proof {
                    assert forall|j: int| 0 <= j < before.len() implies (#[trigger] before[j]).0
                        != id@ by {
                        assert(before[j].0 == self.pending@[j].0@);
                    }
                    lemma_push_entry(before, id@, kind);
                }
                self.pending.push((id.copy(), kind));
                assert(pending_entries(self.pending@) =~= before.push((id@, kind)));
            },
        }
    }

    /// The `initialize` request body (records it as a pending `Initialize`).
    pub fn initialize(&mut self, process_id: u32, root: &PathBuf) -> (r: Value)
        requires
            old(self).wf(),
            old(self)@.last_id < i64::MAX,
        ensures
            final(self).wf(),
            final(self)@ == old(self)@.requested(PendingKind::Initialize),
            json_of(r) == request_json(
                old(self)@.next_id(),
                "initialize"@,
                initialize_params(process_id, uri_of(path_bytes(*root))),
            ),
    {
        let id = self.ids.next();
        self.record(&id, PendingKind::Initialize);
        let mut documents = no_members();
        put(&mut documents, "definition", member_alone("linkSupport", truth(true)));
        put(&mut documents, "synchronization", member_alone("didSave", truth(false)));
        let mut capabilities = no_members();
        put(&mut capabilities, "textDocument", object(documents));
        // Opt in to `$/progress` so servers report long-running work
        // (rust-analyzer's indexing, notably) instead of going silent.
        put(&mut capabilities, "window", member_alone("workDoneProgress", truth(true)));
        let mut params = no_members();
        put(&mut params, "processId", number(process_id as i64));
        put(&mut params, "rootUri", string(file_uri(root).as_str()));
        put(&mut params, "capabilities", object(capabilities));
        request_body(&id, "initialize", object(params))
    }

    /// Handle the `initialize` response: store capabilities and return the
    /// `initialized` notification body to send next.
    pub fn on_initialize_response(&mut self, result: Option<&Value>) -> (r: Value)
        requires
            old(self).wf(),
        ensures
            final(self).wf(),
            final(self)@ == old(self)@.initialized(
                match result {
                    Some(v) => Some(json_of(*v)),
                    None => None,
                },
            ),
            json_of(r) == notification_json("initialized"@, Json::Object(Map::empty())),
    {
        if let Some(found) = result {
            if let Some(caps) = member(found, "capabilities") {
                self.capabilities = Some(caps.clone());
            }
        }
        notification_body("initialized", object(no_members()))
    }

    /// Whether the server advertised `textDocument/definition` support.
    /// `definitionProvider` may be `true` or an options object; anything other
    /// than absent/`null`/`false` counts as supported.
    pub fn supports_definition(&self) -> (r: bool)
        ensures
            r == self@.finds_definitions(),
    {
        match &self.capabilities {
            Some(caps) => match member(caps, "definitionProvider") {
                Some(v) => {
                    let refused = match as_truth(v) {
                        Some(b) => !b,
                        None => false,
                    };
                    !is_null(v) && !refused
                },
                None => false,
            },
            None => false,
        }
    }

    /// Issue a request of `kind`, returning its id and the body to send.
    pub fn request(&mut self, method: &str, params: Value, kind: PendingKind) -> (r: (
        RequestId,
        Value,
    ))
        requires
            old(self).wf(),
            old(self)@.last_id < i64::MAX,
        ensures
            final(self).wf(),
            final(self)@ == old(self)@.requested(kind),
            r.0@ == old(self)@.next_id(),
            json_of(r.1) == request_json(old(self)@.next_id(), method@, json_of(params)),
    {
        let id = self.ids.next();
        self.record(&id, kind);
        let body = request_body(&id, method, params);
        (id, body)
    }

    /// Correlate a response id back to what it was for, removing it from the
    /// pending set. `None` for an unknown id (already superseded or bogus).
    pub fn on_response(&mut self, id: &RequestId) -> (r: Option<PendingKind>)
        requires
            old(self).wf(),
        ensures
            final(self).wf(),
            final(self)@ == old(self)@.responded(id@),
            r == (if old(self)@.pending.contains_key(id@) {
                Some(old(self)@.pending[id@])
            } else {
                None
            }),
    {
        let ghost before = pending_entries(self.pending@);
        match self.find_pending(id) {
            Some(i) => {
                proof {
                    lemma_map_of(before);
                    lemma_remove_entry(before, i as int);
                    assert(before[i as int] == (id@, self.pending@[i as int].1));
                }
                let entry = self.pending.remove(i);
                assert(pending_entries(self.pending@) =~= before.remove(i as int));
                Some(entry.1)
            },
            None => {
                proof {
                    assert forall|j: int| 0 <= j < before.len() implies (#[trigger] before[j]).0
                        != id@ by {
                        assert(before[j].0 == self.pending@[j].0@);
                    }
                    lemma_no_key(before, id@);
                }
                None
            },
        }
    }

    /// Drop all pending requests of `kind` so their late responses are ignored
    /// (e.g. the cursor moved before a definition reply arrived).
    pub fn supersede(&mut self, kind: PendingKind)
        requires
            old(self).wf(),
        ensures
            final(self).wf(),
            final(self)@ == old(self)@.superseded(kind),
    {
        let ghost before = pending_entries(self.pending@);
        let ghost keep = |k: PendingKind| k != kind;
        let mut kept: Vec<(RequestId, PendingKind)> = Vec::new();
        let mut i: usize = 0;
        assert(before.take(0) =~= Seq::empty());
        assert(pending_entries(kept@) =~= entries_where(before.take(0), keep));
        while i < self.pending.len()
            invariant
                i <= self.pending@.len(),
                before == pending_entries(self.pending@),
                keep == (|k: PendingKind| k != kind),
                pending_entries(kept@) == entries_where(before.take(i as int), keep),
            decreases self.pending@.len() - i,
        {
            assert(before.take(i + 1).drop_last() =~= before.take(i as int));
            assert(before.take(i + 1).last() == before[i as int]);
            if self.pending[i].1 != kind {
                let ghost some = kept@;
                kept.push((self.pending[i].0.copy(), self.pending[i].1));
                assert(pending_entries(kept@) =~= pending_entries(some).push(before[i as int]));
            }
            i += 1;
        }
        assert(before.take(i as int) =~= before);
        proof {
            lemma_keep_entries(before, keep);
        }
        self.pending = kept;
    }

    /// Digest a `$/progress` notification's params, updating the active-job
    /// set. Returns whether anything changed (so the caller knows to refresh
    /// the visible status).
    pub fn on_progress(&mut self, params: &Value) -> (r: bool)
        requires
            old(self).wf(),
        ensures
            final(self).wf(),
            (final(self)@.jobs, r) == progressed(old(self)@.jobs, *params),
            final(self)@ == (ServerState { jobs: final(self)@.jobs, ..old(self)@ }),
    {
        // The token may be a string or a number; key on its display form.
        let token = match member(params, "token") {
            Some(t) => match as_text(t) {
                Some(s) => s.to_owned(),
                None => write_out(t),
            },
            None => return false,
        };
        let value = match member(params, "value") {
            Some(v) => v,
            None => return false,
        };
        assert(token@ == token_key(
            json_of(*params).at("token"@)->0,
            json_text(member_of(*params, "token"@)->0),
        ));
        let message = owned_text(value, "message");
        let percentage = match member(value, "percentage") {
            Some(v) => as_number(v),
            None => None,
        };
        let kind = match owned_text(value, "kind") {
            Some(k) => k,
            None => return false,
        };
        let ghost before = jobs_of(self.progress@);
        if same_text(kind.as_str(), "begin") {
            let title = match owned_text(value, "title") {
                Some(t) => t,
                None => "working".to_owned(),
            };
            let mut jobs: Vec<Progress> = Vec::new();
            std::mem::swap(&mut jobs, &mut self.progress);
            let mut jobs = drop_jobs(jobs, &token);
            let job = Progress { token, title, message, percentage };
            proof {
                lemma_jobs_push(jobs@, job);
            }
            jobs.push(job);
            self.progress = jobs;
            true
        } else if same_text(kind.as_str(), "report") {
            // Refresh only what the report carries, keep the begin's title,
            // and move the job to the back so it is the one displayed.
            match find_job(&self.progress, &token) {
                Some(i) => {
                    let mut job = self.progress.remove(i);
                    assert(jobs_of(self.progress@) =~= before.remove(i as int));
                    assert(job@ == before[i as int]);
                    if message.is_some() {
                        job.message = message;
                    }
                    if percentage.is_some() {
                        job.percentage = percentage;
                    }
                    proof {
                        lemma_jobs_push(self.progress@, job);
                    }
                    self.progress.push(job);
                    true
                },
                None => false,
            }
        } else if same_text(kind.as_str(), "end") {
            let count: usize = self.progress.len();
            let mut jobs: Vec<Progress> = Vec::new();
            std::mem::swap(&mut jobs, &mut self.progress);
            let jobs = drop_jobs(jobs, &token);
            self.progress = jobs;
            assert(self@.jobs.len() == self.progress@.len());
            assert(before.len() == count);
            self.progress.len() != count
        } else {
            false
        }
    }

    /// The most recently updated active job as a one-line status
    /// (`"Indexing 324/612 (regex) 52%"`), or `None` when the server is idle.
    pub fn progress_line(&self) -> (r: Option<String>)
        ensures
            text_of(r) == status_line(self@.jobs),
    {
        let count: usize = self.progress.len();
        if count == 0 {
            return None;
        }
        let job = &self.progress[count - 1];
        assert(self@.jobs.last() == job@);
        let mut line = job.title.clone();
        if let Some(message) = &job.message {
            line.append(" ");
            line.append(message.as_str());
        }
        if let Some(pct) = job.percentage {
            line.append(" ");
            line.append(decimal_string(pct).as_str());
            line.append("%");
        }
        assert(line@ =~= job_line(job@));
        Some(line)
    }

    /// The place of an open document.
    fn find_doc(&self, uri: &str) -> (r: Option<usize>)
        ensures
            match r {
                Some(i) => i < self.open_docs@.len() && self.open_docs@[i as int].0@ == uri@,
                None => forall|i: int|
                    0 <= i < self.open_docs@.len() ==> (#[trigger] self.open_docs@[i]).0@ != uri@,
            },
    {
        let mut i: usize = 0;
        while i < self.open_docs.len()
            invariant
                i <= self.open_docs@.len(),
                forall|j: int| 0 <= j < i ==> (#[trigger] self.open_docs@[j]).0@ != uri@,
            decreases self.open_docs@.len() - i,
        {
            if same_text(self.open_docs[i].0.as_str(), uri) {
                return Some(i);
            }
            i += 1;
        }
        None
    }

    proof fn lemma_doc(&self, uri: Seq<char>, at: Option<usize>)
        requires
            self.wf(),
            match at {
                Some(i) => i < self.open_docs@.len() && self.open_docs@[i as int].0@ == uri,
                None => forall|i: int|
                    0 <= i < self.open_docs@.len() ==> (#[trigger] self.open_docs@[i]).0@ != uri,
            },
        ensures
            match at {
                Some(i) => self@.open.contains_key(uri) && self@.open[uri]
                    == self.open_docs@[i as int].1,
                None => !self@.open.contains_key(uri),
            },
    {
        let all = open_entries(self.open_docs@);
        lemma_map_of(all);
        match at {
            Some(i) => {
                assert(all[i as int] == (uri, self.open_docs@[i as int].1 as int));
            },
            None => {
                assert forall|j: int| 0 <= j < all.len() implies (#[trigger] all[j]).0 != uri by {
                    assert(all[j].0 == self.open_docs@[j].0@);
                }
                lemma_no_key(all, uri);
            },
        }
    }

    /// Notes the version that a document was synced at.
    fn sync(&mut self, uri: &str, version: i32)
        requires
            old(self).wf(),
        ensures
            final(self).wf(),
            final(self)@ == old(self)@.synced(uri@, version as int),
    {
        let ghost before = open_entries(self.open_docs@);
        match self.find_doc(uri) {
            Some(i) => {
                proof {
                    assert(before[i as int] == (uri@, self.open_docs@[i as int].1 as int));
                    lemma_update_entry(before, i as int, version as int);
                }
                self.open_docs.set(i, (uri.to_owned(), version));
                assert(open_entries(self.open_docs@) =~= before.update(
                    i as int,
                    (uri@, version as int),
                ));
            },
            None => {
                proof {
                    assert forall|j: int| 0 <= j < before.len() implies (#[trigger] before[j]).0
                        != uri@ by {
                        assert(before[j].0 == self.open_docs@[j].0@);
                    }
                    lemma_push_entry(before, uri@, version as int);
                }
                self.open_docs.push((uri.to_owned(), version));
                assert(open_entries(self.open_docs@) =~= before.push((uri@, version as int)));
            },
        }
    }

    /// `didOpen` for a freshly opened served document (version 1).
    pub fn did_open(&mut self, uri: &str, language_id: &str, text: &str) -> (r: Value)
        requires
            old(self).wf(),
        ensures
            final(self).wf(),
            final(self)@ == old(self)@.synced(uri@, 1),
            json_of(r) == did_open_json(uri@, language_id@, text@),
    {
        self.sync(uri, 1);
        let mut document = no_members();
        put(&mut document, "uri", string(uri));
        put(&mut document, "languageId", string(language_id));
        put(&mut document, "version", number(1));
        put(&mut document, "text", string(text));
        notification_body("textDocument/didOpen", member_alone("textDocument", object(document)))
    }

    /// Whether a document that is open has a version after its last one.
    pub fn takes_change(&self, uri: &str) -> (r: bool)
        requires
            self.wf(),
        ensures
            r == (self@.open.contains_key(uri@) ==> self@.open[uri@] < i32::MAX),
    {
        let at = self.find_doc(uri);
        proof {
            self.lemma_doc(uri@, at);
        }
        match at {
            Some(i) => self.open_docs[i].1 < i32::MAX,
            None => true,
        }
    }

    /// Whether there is an id for another request.
    pub fn takes_request(&self) -> (r: bool)
        ensures
            r == (self@.last_id < i64::MAX),
    {
        self.ids.0 < i64::MAX
    }

    /// `didChange` carrying the full document text at the next version, or
    /// `None` if the document is not open here.
    pub fn did_change(&mut self, uri: &str, text: &str) -> (r: Option<Value>)
        requires
            old(self).wf(),
            old(self)@.open.contains_key(uri@) ==> old(self)@.open[uri@] < i32::MAX,
        ensures
            final(self).wf(),
            match r {
                Some(body) => {
                    let version = old(self)@.open[uri@] + 1;
                    &&& old(self)@.open.contains_key(uri@)
                    &&& final(self)@ == old(self)@.synced(uri@, version)
                    &&& json_of(body) == did_change_json(uri@, version, text@)
                },
                None => !old(self)@.open.contains_key(uri@) && final(self)@ == old(self)@,
            },
    {
        let at = self.find_doc(uri);
        proof {
            self.lemma_doc(uri@, at);
        }
        match at {
            Some(i) => {
                let version: i32 = self.open_docs[i].1 + 1;
                self.sync(uri, version);
                let mut document = no_members();
                put(&mut document, "uri", string(uri));
                put(&mut document, "version", number(version as i64));
                let change = member_alone("text", string(text));
                let mut changes: Vec<Value> = Vec::new();
                let ghost wanted = one_member("text"@, Json::Str(text@));
                changes.push(change);
                assert(items_of(changes@) =~= seq![wanted]);
                let mut params = no_members();
                put(&mut params, "textDocument", object(document));
                put(&mut params, "contentChanges", array(changes));
                Some(notification_body("textDocument/didChange", object(params)))
            },
            None => None,
        }
    }

    /// `didClose` for a document leaving; `None` if it was not open.
    pub fn did_close(&mut self, uri: &str) -> (r: Option<Value>)
        requires
            old(self).wf(),
        ensures
            final(self).wf(),
            match r {
                Some(body) => {
                    &&& old(self)@.open.contains_key(uri@)
                    &&& final(self)@ == old(self)@.closed_doc(uri@)
                    &&& json_of(body) == did_close_json(uri@)
                },
                None => !old(self)@.open.contains_key(uri@) && final(self)@ == old(self)@,
            },
    {
        let at = self.find_doc(uri);
        let ghost before = open_entries(self.open_docs@);
        proof {
            self.lemma_doc(uri@, at);
        }
        match at {
            Some(i) => {
                proof {
                    assert(before[i as int].0 == uri@);
                    lemma_remove_entry(before, i as int);
                }
                self.open_docs.remove(i);
                assert(open_entries(self.open_docs@) =~= before.remove(i as int));
                Some(
                    notification_body(
                        "textDocument/didClose",
                        member_alone("textDocument", member_alone("uri", string(uri))),
                    ),
                )
            },
            None => None,
        }
    }

    pub fn is_open(&self, uri: &str) -> (r: bool)
        requires
            self.wf(),
        ensures
            r == self@.open.contains_key(uri@),
    {
        let at = self.find_doc(uri);
        proof {
            self.lemma_doc(uri@, at);
        }
        at.is_some()
    }

    /// The `shutdown` request and `exit` notification bodies, in order.
    pub fn shutdown(&mut self) -> (r: (Value, Value))
        requires
            old(self).wf(),
            old(self)@.last_id < i64::MAX,
        ensures
            final(self).wf(),
            final(self)@ == (ServerState { last_id: old(self)@.last_id + 1, ..old(self)@ }),
            json_of(r.0) == request_json(old(self)@.next_id(), "shutdown"@, Json::Null),
            json_of(r.1) == notification_json("exit"@, Json::Null),
    {
        let id = self.ids.next();
        (request_body(&id, "shutdown", null()), notification_body("exit", null()))
    }
}

/// A `file://` URI for a local path — the canonical, percent-encoded encoding
/// (so the URI we sync a document under matches the one a request carries).
pub fn file_uri(path: &PathBuf) -> (r: String)
    ensures
        r@ == uri_of(path_bytes(*path)),
{
    path_to_uri(path)
}

// ---------------------------------------------------------------------------
// Laws.

/// A response is routed to what its request was for, once: the same id finds
/// nothing a second time, and the other requests in flight are as before.
pub proof fn response_is_routed_once(s: ServerState, kind: PendingKind)
    requires
        !s.pending.contains_key(s.next_id()),
    ensures
        ({
            let sent = s.requested(kind);
            let answered = sent.responded(s.next_id());
            &&& sent.pending.contains_key(s.next_id())
            &&& sent.pending[s.next_id()] == kind
            &&& !answered.pending.contains_key(s.next_id())
            &&& answered.pending == s.pending
        }),
{
    assert(s.requested(kind).responded(s.next_id()).pending =~= s.pending);
}

/// After a kind of request is superseded, no response is routed to it, and the
/// requests of other kinds are as before.
pub proof fn superseded_requests_are_dropped(s: ServerState, kind: PendingKind, id: Id)
    ensures
        ({
            let after = s.superseded(kind);
            &&& after.pending.contains_key(id) ==> after.pending[id] != kind
            &&& s.pending.contains_key(id) && s.pending[id] != kind
                ==> after.pending.contains_key(id) && after.pending[id] == s.pending[id]
        }),
{
}

/// The jobs but for those of a token have no job of that token, and every job
/// of another.
proof fn lemma_jobs_without(jobs: Seq<Job>, token: Seq<char>)
    ensures
        forall|i: int|
            0 <= i < jobs_without(jobs, token).len() ==> (#[trigger] jobs_without(
                jobs,
                token,
            )[i]).token != token,
        forall|i: int|
            0 <= i < jobs.len() && (#[trigger] jobs[i]).token != token ==> jobs_without(
                jobs,
                token,
            ).contains(jobs[i]),
        jobs_without(jobs, token).len() <= jobs.len(),
    decreases jobs.len(),
{
    if jobs.len() > 0 {
        let rest = jobs.drop_last();
        let some = jobs_without(rest, token);
        lemma_jobs_without(rest, token);
        assert forall|i: int| 0 <= i < jobs.len() && (#[trigger] jobs[i]).token
            != token implies jobs_without(jobs, token).contains(jobs[i]) by {
            if i < rest.len() {
                assert(rest[i] == jobs[i]);
                let k = choose|k: int| 0 <= k < some.len() && some[k] == rest[i];
                assert(some.contains(rest[i]));
                assert(jobs_without(jobs, token)[k] == jobs[i]);
            } else {
                assert(jobs_without(jobs, token)[some.len() as int] == jobs[i]);
            }
        }
    }
}

/// A job that begins is the one displayed; when it ends, no job of its token is
/// left, and every other job is still there.
pub proof fn progress_begins_and_ends(jobs: Seq<Job>, token: Seq<char>, begin: Json, end: Json)
    requires
        begin.text_at("kind"@) == Some("begin"@),
        end.text_at("kind"@) == Some("end"@),
    ensures
        ({
            let begun = digested(jobs, token, begin).0;
            let ended = digested(begun, token, end);
            &&& begun.len() > 0 && begun.last().token == token
            &&& ended.1
            &&& ended.0 == jobs_without(jobs, token)
            &&& forall|i: int| 0 <= i < ended.0.len() ==> (#[trigger] ended.0[i]).token != token
            &&& forall|i: int|
                0 <= i < jobs.len() && (#[trigger] jobs[i]).token != token ==> ended.0.contains(
                    jobs[i],
                )
        }),
{
    reveal_strlit("begin");
    reveal_strlit("end");
    assert("begin"@.len() != "end"@.len());
    assert("begin"@ != "end"@);
    reveal_strlit("report");
    assert("end"@.len() != "report"@.len());
    assert("end"@ != "report"@);
    let begun = digested(jobs, token, begin).0;
    let some = jobs_without(jobs, token);
    lemma_jobs_without(jobs, token);
    lemma_without_again(some, token);
    assert(begun.drop_last() =~= some);
    assert(jobs_without(begun, token) == some);
}

/// Whether a job of `token` is active.
pub open spec fn is_active(jobs: Seq<Job>, token: Seq<char>) -> bool {
    exists|i: int| 0 <= i < jobs.len() && (#[trigger] jobs[i]).token == token
}

/// A progress report changes something exactly where it begins a job, or
/// reports on or ends one that is active; where it changes nothing, the jobs stay
/// as they are.
pub proof fn progress_says_what_changed(jobs: Seq<Job>, token: Seq<char>, value: Json)
    ensures
        ({
            let kind = value.text_at("kind"@);
            let (left, changed) = digested(jobs, token, value);
            &&& changed == (kind == Some("begin"@) || ((kind == Some("report"@) || kind == Some(
                "end"@,
            )) && is_active(jobs, token)))
            &&& !changed ==> left == jobs
        }),
{
    lemma_job_from(jobs, token, 0);
    lemma_fewer_without(jobs, token);
    if !is_active(jobs, token) {
        lemma_without_again(jobs, token);
    }
}

proof fn lemma_job_from(jobs: Seq<Job>, token: Seq<char>, from: int)
    requires
        0 <= from <= jobs.len(),
    ensures
        match job_from(jobs, token, from) {
            Some(i) => from <= i < jobs.len() && jobs[i].token == token,
            None => forall|i: int| from <= i < jobs.len() ==> (#[trigger] jobs[i]).token != token,
        },
    decreases jobs.len() - from,
{
    if from < jobs.len() && jobs[from].token != token {
        lemma_job_from(jobs, token, from + 1);
    }
}

proof fn lemma_fewer_without(jobs: Seq<Job>, token: Seq<char>)
    ensures
        jobs_without(jobs, token).len() <= jobs.len(),
        is_active(jobs, token) ==> jobs_without(jobs, token).len() < jobs.len(),
    decreases jobs.len(),
{
    if jobs.len() > 0 {
        let rest = jobs.drop_last();
        lemma_fewer_without(rest, token);
        if is_active(jobs, token) && jobs.last().token != token {
            let i = choose|i: int| 0 <= i < jobs.len() && (#[trigger] jobs[i]).token == token;
            assert(rest[i].token == token);
        }
    }
}

/// Where no job has a token, dropping it changes nothing.
proof fn lemma_without_again(jobs: Seq<Job>, token: Seq<char>)
    requires
        forall|i: int| 0 <= i < jobs.len() ==> (#[trigger] jobs[i]).token != token,
    ensures
        jobs_without(jobs, token) == jobs,
    decreases jobs.len(),
{
    if jobs.len() > 0 {
        let rest = jobs.drop_last();
        assert forall|i: int| 0 <= i < rest.len() implies (#[trigger] rest[i]).token != token by {
            assert(rest[i] == jobs[i]);
        }
        lemma_without_again(rest, token);
        assert(jobs[jobs.len() - 1].token != token);
        assert(jobs_without(jobs, token) =~= jobs);
    }
}

/// Every request has an id of its own, one more than the last; its answer is
/// waited for under that id, and the requests before it still are.
pub proof fn requests_are_numbered(s: ServerState, a: PendingKind, b: PendingKind)
    ensures
        s.next_id() == Id::Num(s.last_id + 1),
        s.requested(a).next_id() == Id::Num(s.last_id + 2),
        ({
            let two = s.requested(a).requested(b);
            &&& two.pending.contains_key(Id::Num(s.last_id + 1))
            &&& two.pending[Id::Num(s.last_id + 1)] == a
            &&& two.pending.contains_key(Id::Num(s.last_id + 2))
            &&& two.pending[Id::Num(s.last_id + 2)] == b
            &&& two.open == s.open && two.jobs == s.jobs && two.capabilities == s.capabilities
        }),
{
}

/// A server finds definitions if it said so, with `true` or with options; not if
/// it said `false` or `null`, or nothing. What it said is what came with the
/// answer to `initialize`.
pub proof fn capabilities_decide(s: ServerState, result: Json, caps: Json)
    requires
        result.at("capabilities"@) == Some(caps),
    ensures
        s.initialized(Some(result)).capabilities == Some(caps),
        caps.at("definitionProvider"@) is None ==> !s.initialized(Some(result)).finds_definitions(),
        caps.at("definitionProvider"@) == Some(Json::Null) ==> !s.initialized(
            Some(result),
        ).finds_definitions(),
        caps.at("definitionProvider"@) == Some(Json::Bool(false)) ==> !s.initialized(
            Some(result),
        ).finds_definitions(),
        caps.at("definitionProvider"@) == Some(Json::Bool(true)) ==> s.initialized(
            Some(result),
        ).finds_definitions(),
        caps.at("definitionProvider"@) matches Some(v) && v is Object ==> s.initialized(
            Some(result),
        ).finds_definitions(),
        s.initialized(None) == s,
        s.capabilities is None ==> !s.finds_definitions(),
{
}

/// What is said of a document names it: an opened one with its language, its
/// whole text and version one, a changed one with its whole text and its version,
/// and a closed one by itself.
pub proof fn documents_are_synced_whole(
    uri: Seq<char>,
    language: Seq<char>,
    text: Seq<char>,
    version: int,
)
    ensures
        ({
            let m = did_open_json(uri, language, text);
            &&& m.at("method"@) == Some(Json::Str("textDocument/didOpen"@))
            &&& m.at("id"@) is None
            &&& m.at("params"@) matches Some(p) && (p.at("textDocument"@) matches Some(d) && {
                &&& d.at("uri"@) == Some(Json::Str(uri))
                &&& d.at("languageId"@) == Some(Json::Str(language))
                &&& d.at("version"@) == Some(Json::Int(1))
                &&& d.at("text"@) == Some(Json::Str(text))
            })
        }),
        ({
            let m = did_change_json(uri, version, text);
            &&& m.at("method"@) == Some(Json::Str("textDocument/didChange"@))
            &&& m.at("id"@) is None
            &&& m.at("params"@) matches Some(p) && {
                &&& p.at("textDocument"@) matches Some(d) && d.at("uri"@) == Some(Json::Str(uri))
                    && d.at("version"@) == Some(Json::Int(version))
                &&& p.at("contentChanges"@) matches Some(Json::Array(c)) && c.len() == 1 && c[0].at(
                    "text"@,
                ) == Some(Json::Str(text)) && c[0].at("range"@) is None
            }
        }),
        ({
            let m = did_close_json(uri);
            &&& m.at("method"@) == Some(Json::Str("textDocument/didClose"@))
            &&& m.at("id"@) is None
            &&& m.at("params"@) matches Some(p) && (p.at("textDocument"@) matches Some(d) && d.at(
                "uri"@,
            ) == Some(Json::Str(uri)))
        }),
{
    reveal_strlit("jsonrpc");
    reveal_strlit("id");
    reveal_strlit("method");
    reveal_strlit("params");
    reveal_strlit("uri");
    reveal_strlit("languageId");
    reveal_strlit("version");
    reveal_strlit("text");
    reveal_strlit("range");
    reveal_strlit("textDocument");
    reveal_strlit("contentChanges");
    assert("jsonrpc"@.len() == 7 && "id"@.len() == 2);
    assert("method"@.len() == 6 && "method"@[0] == 'm');
    assert("params"@.len() == 6 && "params"@[0] == 'p');
    assert("uri"@.len() == 3 && "languageId"@.len() == 10);
    assert("version"@.len() == 7 && "text"@.len() == 4);
    assert("range"@.len() == 5);
    assert("textDocument"@.len() == 12 && "contentChanges"@.len() == 14);
}

proof fn lemma_first_job(jobs: Seq<Job>, token: Seq<char>, from: int, i: int)
    requires
        0 <= from <= i < jobs.len(),
        jobs[i].token == token,
        forall|k: int| from <= k < i ==> (#[trigger] jobs[k]).token != token,
    ensures
        job_from(jobs, token, from) == Some(i),
    decreases jobs.len() - from,
{
    if from < i {
        assert(jobs[from].token != token);
        lemma_first_job(jobs, token, from + 1, i);
    }
}

/// A job that begins has the title, the message and the percentage that it came
/// with. A report on it moves it to the end and keeps its title; the message and
/// the percentage change if the report has them, and else stay. The other jobs
/// stay in their order.
pub proof fn reports_refresh_their_job(jobs: Seq<Job>, token: Seq<char>, value: Json, i: int)
    requires
        0 <= i < jobs.len(),
        jobs[i].token == token,
        forall|k: int| 0 <= k < i ==> (#[trigger] jobs[k]).token != token,
    ensures
        value.text_at("kind"@) == Some("report"@) ==> {
            let (left, changed) = digested(jobs, token, value);
            &&& changed
            &&& left.len() == jobs.len()
            &&& left.drop_last() == jobs.take(i) + jobs.skip(i + 1)
            &&& left.last().token == token && left.last().title == jobs[i].title
            &&& left.last().message == match value.text_at("message"@) {
                Some(m) => Some(m),
                None => jobs[i].message,
            }
            &&& left.last().percentage == match value.number_at("percentage"@) {
                Some(p) => Some(p),
                None => jobs[i].percentage,
            }
        },
        value.text_at("kind"@) == Some("begin"@) ==> {
            let (left, changed) = digested(jobs, token, value);
            &&& changed
            &&& left.last().token == token
            &&& value.text_at("title"@) matches Some(t) ==> left.last().title == t
            &&& left.last().message == value.text_at("message"@)
            &&& left.last().percentage == value.number_at("percentage"@)
        },
{
    reveal_strlit("begin");
    reveal_strlit("report");
    assert("begin"@.len() == 5 && "report"@.len() == 6);
    lemma_first_job(jobs, token, 0, i);
    assert(jobs.remove(i) =~= jobs.take(i) + jobs.skip(i + 1));
    if value.text_at("kind"@) == Some("report"@) {
        let left = digested(jobs, token, value).0;
        assert(left.drop_last() =~= jobs.remove(i));
    }
}

/// The status is that of the job that was heard of last: its title, then its
/// message if it has one, then its percentage if it has one, with a space before
/// each.
pub proof fn status_tells_of_the_last_job(jobs: Seq<Job>)
    ensures
        jobs.len() == 0 <==> status_line(jobs) is None,
        jobs.len() > 0 ==> status_line(jobs) == Some(
            jobs.last().title + (match jobs.last().message {
                Some(m) => seq![' '] + m,
                None => Seq::empty(),
            }) + (match jobs.last().percentage {
                Some(p) => seq![' '] + decimal(p as nat) + seq!['%'],
                None => Seq::empty(),
            }),
        ),
{
    reveal_strlit(" ");
    reveal_strlit("%");
    assert(" "@ =~= seq![' ']);
    assert("%"@ =~= seq!['%']);
}

/// The handshake says who the client is: its process, the root of the workspace,
/// and that it takes links for definitions and reports of progress.
pub proof fn the_handshake_tells_of_the_client(process_id: u32, root: Seq<char>)
    ensures
        ({
            let p = initialize_params(process_id, root);
            &&& p.at("processId"@) == Some(Json::Int(process_id as int))
            &&& p.at("rootUri"@) == Some(Json::Str(root))
            &&& p.at("capabilities"@) matches Some(c) && {
                &&& c.at("textDocument"@) matches Some(d) && (d.at("definition"@) matches Some(l)
                    && l.at("linkSupport"@) == Some(Json::Bool(true)))
                &&& c.at("textDocument"@) matches Some(d) && (d.at("synchronization"@) matches Some(y)
                    && y.at("didSave"@) == Some(Json::Bool(false)))
                &&& c.at("window"@) matches Some(w) && w.at("workDoneProgress"@) == Some(
                    Json::Bool(true),
                )
            }
        }),
{
    reveal_strlit("processId");
    reveal_strlit("rootUri");
    reveal_strlit("capabilities");
    reveal_strlit("textDocument");
    reveal_strlit("definition");
    reveal_strlit("synchronization");
    reveal_strlit("window");
    assert("processId"@.len() == 9 && "rootUri"@.len() == 7 && "capabilities"@.len() == 12);
    assert("textDocument"@.len() == 12 && "window"@.len() == 6);
    assert("definition"@.len() == 10 && "synchronization"@.len() == 15);
}

/// A progress token is kept under its own text: a string as it is, a number by
/// its digits, so that reports with one token are about one job.
pub proof fn tokens_are_kept_by_their_text(s: Seq<char>, n: nat, written: Seq<char>)
    ensures
        token_key(Json::Str(s), written) == s,
        token_key(Json::Int(n as int), written) == decimal(n),
        n > 0 ==> token_key(Json::Int(-(n as int)), written) == seq!['-'] + decimal(n),
{
}

/// A server that nothing was said to waits for no answer, has no open document
/// and no job, and can do nothing yet.
pub proof fn new_servers_know_nothing(id: usize, request: Id, uri: Seq<char>)
    ensures
        ({
            let s = ServerState::fresh(id);
            &&& s.id == id
            &&& !s.pending.contains_key(request)
            &&& !s.open.contains_key(uri)
            &&& s.jobs.len() == 0
            &&& !s.finds_definitions()
            &&& s.next_id() == Id::Num(1)
        }),
{
}

} // verus!
