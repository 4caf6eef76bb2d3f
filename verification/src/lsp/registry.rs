//! The only language-specific surface of the LSP client: a map from a file's
//! language, which its extension tells, to the command that launches its
//! server. Built-in defaults, overridable by the user. Adding a language is
//! data, not code.
use crate::assoc::{
    keys_differ, lemma_map_of, lemma_no_key, lemma_push_entry, lemma_update_entry, map_of,
};
use crate::paths::{
    bytes_view, component_count, extension_in, extension_of, file_name, file_name_bytes, path_bytes,
    path_parts,
};
use crate::text::{same_text, texts, utf8_text};
use std::path::PathBuf;
use vstd::prelude::*;
use vstd::utf8::{decode_utf8, valid_utf8};

verus! {

/// A language server launch command.
#[derive(Debug, Clone, PartialEq, Eq)]
pub struct ServerCmd {
    pub program: String,
    pub args: Vec<String>,
}

/// A launch command, as a value of the specifications.
#[verifier::ext_equal]
pub struct Cmd {
    pub program: Seq<char>,
    pub args: Seq<Seq<char>>,
}

impl View for ServerCmd {
    type V = Cmd;

    open spec fn view(&self) -> Cmd {
        Cmd { program: self.program@, args: texts(self.args@) }
    }
}

impl ServerCmd {
    pub fn new(program: &str, args: &[&str]) -> (r: Self)
        ensures
            r@ == (Cmd { program: program@, args: args@.map_values(|a: &str| a@) }),
    {
        let mut list: Vec<String> = Vec::new();
        let mut i: usize = 0;
        while i < args.len()
            invariant
                i <= args@.len(),
                texts(list@) == args@.map_values(|a: &str| a@).take(i as int),
            decreases args@.len() - i,
        {
            let ghost before = list@;
            list.push(args[i].to_owned());
            assert(texts(list@) =~= texts(before).push(args@[i as int]@));
            i += 1;
            assert(texts(list@) =~= args@.map_values(|a: &str| a@).take(i as int));
        }
        assert(texts(list@) =~= args@.map_values(|a: &str| a@));
        ServerCmd { program: program.to_owned(), args: list }
    }

    /// The same command once more.
    pub fn copy(&self) -> (r: ServerCmd)
        ensures
            r@ == self@,
    {
        let mut list: Vec<String> = Vec::new();
        let mut i: usize = 0;
        while i < self.args.len()
            invariant
                i <= self.args@.len(),
                texts(list@) == texts(self.args@).take(i as int),
            decreases self.args@.len() - i,
        {
            let ghost before = list@;
            list.push(self.args[i].clone());
            assert(texts(list@) =~= texts(before).push(self.args@[i as int]@));
            i += 1;
            assert(texts(list@) =~= texts(self.args@).take(i as int));
        }
        assert(texts(list@) =~= texts(self.args@));
        ServerCmd { program: self.program.clone(), args: list }
    }
}

/// The language of files with an extension.
pub open spec fn language_named(ext: Seq<char>) -> Option<Seq<char>> {
    if ext == "rs"@ {
        Some("rust"@)
    } else if ext == "py"@ || ext == "pyi"@ {
        Some("python"@)
    } else if ext == "ts"@ || ext == "tsx"@ {
        Some("typescript"@)
    } else if ext == "js"@ || ext == "jsx"@ {
        Some("javascript"@)
    } else if ext == "go"@ {
        Some("go"@)
    } else if ext == "c"@ || ext == "h"@ {
        Some("c"@)
    } else if ext == "cpp"@ || ext == "cc"@ || ext == "cxx"@ || ext == "hpp"@ {
        Some("cpp"@)
    } else {
        None
    }
}

/// The language of files with a name: none without an extension, or with one
/// that is not text.
pub open spec fn language_in(name: Option<Seq<u8>>) -> Option<Seq<char>> {
    match name {
        Some(n) => match extension_in(n) {
            Some(ext) => if valid_utf8(ext) {
                language_named(decode_utf8(ext))
            } else {
                None
            },
            None => None,
        },
        None => None,
    }
}

/// The text of an optional string slice.
pub open spec fn str_view(s: Option<&'static str>) -> Option<Seq<char>> {
    match s {
        Some(s) => Some(s@),
        None => None,
    }
}

/// The language key for an extension. `None` for extensions we don't map.
pub fn language_for(ext: &str) -> (r: Option<&'static str>)
    ensures
        str_view(r) == language_named(ext@),
{
    if same_text(ext, "rs") {
        Some("rust")
    } else if same_text(ext, "py") || same_text(ext, "pyi") {
        Some("python")
    } else if same_text(ext, "ts") || same_text(ext, "tsx") {
        Some("typescript")
    } else if same_text(ext, "js") || same_text(ext, "jsx") {
        Some("javascript")
    } else if same_text(ext, "go") {
        Some("go")
    } else if same_text(ext, "c") || same_text(ext, "h") {
        Some("c")
    } else if same_text(ext, "cpp") || same_text(ext, "cc") || same_text(ext, "cxx") || same_text(
        ext,
        "hpp",
    ) {
        Some("cpp")
    } else {
        None
    }
}

/// The language key for a file name, by its extension.
pub fn language_of_name(name: Option<Vec<u8>>) -> (r: Option<&'static str>)
    ensures
        str_view(r) == language_in(bytes_view(name)),
{
    match name {
        Some(n) => match extension_of(&n) {
            Some(ext) => match utf8_text(ext) {
                Some(text) => language_for(text.as_str()),
                None => None,
            },
            None => None,
        },
        None => None,
    }
}

/// The language key for a path, by extension — the same dispatch shape the
/// syntax highlighter uses. `None` for extensions we don't map.
pub fn language_of(path: &PathBuf) -> (r: Option<&'static str>)
    ensures
        str_view(r) == language_in(file_name_bytes(path_bytes(*path))),
{
    language_of_name(file_name(path))
}

/// The built-in server command for a language, if one is known.
pub open spec fn built_in(language: Seq<char>) -> Option<Cmd> {
    if language == "rust"@ {
        Some(Cmd { program: "rust-analyzer"@, args: Seq::empty() })
    } else if language == "python"@ {
        Some(Cmd { program: "pyright-langserver"@, args: seq!["--stdio"@] })
    } else if language == "typescript"@ || language == "javascript"@ {
        Some(Cmd { program: "typescript-language-server"@, args: seq!["--stdio"@] })
    } else if language == "go"@ {
        Some(Cmd { program: "gopls"@, args: Seq::empty() })
    } else if language == "c"@ || language == "cpp"@ {
        Some(Cmd { program: "clangd"@, args: Seq::empty() })
    } else {
        None
    }
}

/// The value of an optional command.
pub open spec fn cmd_view(cmd: Option<ServerCmd>) -> Option<Cmd> {
    match cmd {
        Some(c) => Some(c@),
        None => None,
    }
}

fn plain_command(program: &str) -> (r: ServerCmd)
    ensures
        r@ == (Cmd { program: program@, args: Seq::empty() }),
{
    let args: Vec<String> = Vec::new();
    assert(texts(args@) =~= Seq::empty());
    ServerCmd { program: program.to_owned(), args }
}

fn stdio_command(program: &str) -> (r: ServerCmd)
    ensures
        r@ == (Cmd { program: program@, args: seq!["--stdio"@] }),
{
    let mut args: Vec<String> = Vec::new();
    args.push("--stdio".to_owned());
    assert(texts(args@) =~= seq!["--stdio"@]);
    ServerCmd { program: program.to_owned(), args }
}

/// Whether a program is given by a bare name, which is looked for in the
/// directories of `PATH`, and not by a path to a file.
pub fn is_bare_name(program: &PathBuf) -> (r: bool)
    ensures
        r == (path_parts(path_bytes(*program)).len() <= 1),
{
    component_count(program) <= 1
}

/// The built-in default server command for a language, if one is known.
pub fn default_command(language: &str) -> (r: Option<ServerCmd>)
    ensures
        cmd_view(r) == built_in(language@),
{
    if same_text(language, "rust") {
        Some(plain_command("rust-analyzer"))
    } else if same_text(language, "python") {
        Some(stdio_command("pyright-langserver"))
    } else if same_text(language, "typescript") || same_text(language, "javascript") {
        Some(stdio_command("typescript-language-server"))
    } else if same_text(language, "go") {
        Some(plain_command("gopls"))
    } else if same_text(language, "c") || same_text(language, "cpp") {
        Some(plain_command("clangd"))
    } else {
        None
    }
}

/// The registry: built-in defaults plus user overrides, resolving a language to
/// the command that should serve it.
#[derive(Debug)]
pub struct Registry {
    /// User-configured overrides, keyed by language, no language twice; these
    /// win over defaults.
    overrides: Vec<(String, ServerCmd)>,
}

spec fn override_entries(s: Seq<(String, ServerCmd)>) -> Seq<(Seq<char>, Cmd)> {
    s.map_values(|e: (String, ServerCmd)| (e.0@, e.1@))
}

impl View for Registry {
    type V = Map<Seq<char>, Cmd>;

    closed spec fn view(&self) -> Map<Seq<char>, Cmd> {
        map_of(override_entries(self.overrides@))
    }
}

/// The command for a language: an override beats the default.
pub open spec fn command_for(overrides: Map<Seq<char>, Cmd>, language: Seq<char>) -> Option<Cmd> {
    if overrides.contains_key(language) {
        Some(overrides[language])
    } else {
        built_in(language)
    }
}

impl Default for Registry {
    fn default() -> (r: Self)
        ensures
            r.wf(),
            r@ == Map::<Seq<char>, Cmd>::empty(),
    {
        let r = Registry { overrides: Vec::new() };
        assert(override_entries(r.overrides@) =~= Seq::empty());
        r
    }
}

impl Registry {
    /// Whether no language is overridden twice.
    pub closed spec fn wf(self) -> bool {
        keys_differ(override_entries(self.overrides@))
    }

    fn find(&self, language: &str) -> (r: Option<usize>)
        requires
            self.wf(),
        ensures
            match r {
                Some(i) => {
                    &&& i < self.overrides@.len()
                    &&& self.overrides@[i as int].0@ == language@
                    &&& self@.contains_key(language@)
                    &&& self@[language@] == self.overrides@[i as int].1@
                },
                None => {
                    &&& !self@.contains_key(language@)
                    &&& forall|j: int|
                        0 <= j < self.overrides@.len() ==> (#[trigger] self.overrides@[j]).0@
                            != language@
                },
            },
    {
        let ghost all = override_entries(self.overrides@);
        proof {
            lemma_map_of(all);
        }
        let mut i: usize = 0;
        while i < self.overrides.len()
            invariant
                i <= self.overrides@.len(),
                all == override_entries(self.overrides@),
                forall|k: int|
                    0 <= k < all.len() ==> map_of(all).contains_key((#[trigger] all[k]).0)
                        && map_of(all)[all[k].0] == all[k].1,
                forall|j: int| 0 <= j < i ==> (#[trigger] self.overrides@[j]).0@ != language@,
            decreases self.overrides@.len() - i,
        {
            if same_text(self.overrides[i].0.as_str(), language) {
                assert(all[i as int] == (language@, self.overrides@[i as int].1@));
                return Some(i);
            }
            i += 1;
        }
        proof {
            assert forall|j: int| 0 <= j < all.len() implies (#[trigger] all[j]).0 != language@ by {
                assert(all[j].0 == self.overrides@[j].0@);
            }
            lemma_no_key(all, language@);
        }
        None
    }

    /// Sets the command for a language.
    pub fn with_override(self, language: &str, cmd: ServerCmd) -> (r: Self)
        requires
            self.wf(),
        ensures
            r.wf(),
            r@ == self@.insert(language@, cmd@),
    {
        let mut r = self;
        let ghost before = override_entries(r.overrides@);
        match r.find(language) {
            Some(i) => {
                proof {
                    assert(before[i as int].0 == language@);
                    lemma_update_entry(before, i as int, cmd@);
                }
                r.overrides.set(i, (language.to_owned(), cmd));
                assert(override_entries(r.overrides@) =~= before.update(
                    i as int,
                    (language@, cmd@),
                ));
            },
            None => {
                proof {
                    assert forall|j: int| 0 <= j < before.len() implies (#[trigger] before[j]).0
                        != language@ by {
                        assert(before[j].0 == r.overrides@[j].0@);
                    }
                    lemma_push_entry(before, language@, cmd@);
                }
                r.overrides.push((language.to_owned(), cmd));
                assert(override_entries(r.overrides@) =~= before.push((language@, cmd@)));
            },
        }
        r
    }

    /// The command that `language` is mapped to, whether or not its program is
    /// installed: a user override beats the default.
    pub fn mapped(&self, language: &str) -> (r: Option<ServerCmd>)
        requires
            self.wf(),
        ensures
            cmd_view(r) == command_for(self@, language@),
    {
        match self.find(language) {
            Some(i) => Some(self.overrides[i].1.copy()),
            None => default_command(language),
        }
    }

    /// Resolve the command to serve `language`: a user override beats the
    /// default. `None` when the language is unmapped, or the resolved program
    /// is not found on `PATH`, which `on_path` says (so a missing server is a
    /// silent no-op).
    pub fn resolve(&self, language: &str, on_path: bool) -> (r: Option<ServerCmd>)
        requires
            self.wf(),
        ensures
            cmd_view(r) == if on_path {
                command_for(self@, language@)
            } else {
                None
            },
    {
        match self.mapped(language) {
            Some(cmd) => if on_path {
                Some(cmd)
            } else {
                None
            },
            None => None,
        }
    }
}

// ---------------------------------------------------------------------------
// Laws.

/// A user override beats the default command, and touches no other language.
pub proof fn override_beats_default(
    overrides: Map<Seq<char>, Cmd>,
    language: Seq<char>,
    cmd: Cmd,
    other: Seq<char>,
)
    ensures
        command_for(overrides.insert(language, cmd), language) == Some(cmd),
        other != language ==> command_for(overrides.insert(language, cmd), other) == command_for(
            overrides,
            other,
        ),
{
}

/// Every language that an extension maps to has a built-in command.
pub proof fn mapped_languages_have_servers(ext: Seq<char>)
    ensures
        language_named(ext) is Some ==> built_in(language_named(ext)->0) is Some,
{
}

/// Which extension names which language, and that no other names one.
pub proof fn extensions_name_languages(ext: Seq<char>)
    ensures
        language_named(ext) == Some("rust"@) <==> ext == seq!['r', 's'],
        language_named(ext) == Some("python"@) <==> ext == seq!['p', 'y'] || ext == seq![
            'p',
            'y',
            'i',
        ],
        language_named(ext) == Some("typescript"@) <==> ext == seq!['t', 's'] || ext == seq![
            't',
            's',
            'x',
        ],
        language_named(ext) == Some("javascript"@) <==> ext == seq!['j', 's'] || ext == seq![
            'j',
            's',
            'x',
        ],
        language_named(ext) == Some("go"@) <==> ext == seq!['g', 'o'],
        language_named(ext) == Some("c"@) <==> ext == seq!['c'] || ext == seq!['h'],
        language_named(ext) == Some("cpp"@) <==> ext == seq!['c', 'p', 'p'] || ext == seq!['c', 'c']
            || ext == seq!['c', 'x', 'x'] || ext == seq!['h', 'p', 'p'],
        language_named(ext) matches Some(l) ==> l == "rust"@ || l == "python"@ || l == "typescript"@
            || l == "javascript"@ || l == "go"@ || l == "c"@ || l == "cpp"@,
{
    lemma_languages();
    reveal_strlit("rs");
    reveal_strlit("py");
    reveal_strlit("pyi");
    reveal_strlit("ts");
    reveal_strlit("tsx");
    reveal_strlit("js");
    reveal_strlit("jsx");
    reveal_strlit("h");
    reveal_strlit("cc");
    reveal_strlit("cxx");
    reveal_strlit("hpp");
    assert("rs"@ =~= seq!['r', 's']);
    assert("py"@ =~= seq!['p', 'y']);
    assert("pyi"@ =~= seq!['p', 'y', 'i']);
    assert("ts"@ =~= seq!['t', 's']);
    assert("tsx"@ =~= seq!['t', 's', 'x']);
    assert("js"@ =~= seq!['j', 's']);
    assert("jsx"@ =~= seq!['j', 's', 'x']);
    assert("go"@ =~= seq!['g', 'o']);
    assert("c"@ =~= seq!['c']);
    assert("h"@ =~= seq!['h']);
    assert("cpp"@ =~= seq!['c', 'p', 'p']);
    assert("cc"@ =~= seq!['c', 'c']);
    assert("cxx"@ =~= seq!['c', 'x', 'x']);
    assert("hpp"@ =~= seq!['h', 'p', 'p']);
    if ext.len() > 0 {
        assert(seq!['r', 's'][0] == 'r');
        assert(seq!['p', 'y'][0] == 'p');
        assert(seq!['p', 'y', 'i'][0] == 'p');
        assert(seq!['t', 's'][0] == 't');
        assert(seq!['t', 's', 'x'][0] == 't');
        assert(seq!['j', 's'][0] == 'j');
        assert(seq!['j', 's', 'x'][0] == 'j');
        assert(seq!['g', 'o'][0] == 'g');
        assert(seq!['c'][0] == 'c');
        assert(seq!['h'][0] == 'h');
        assert(seq!['c'].len() == 1 && seq!['h'].len() == 1);
        assert(seq!['c', 'c'][0] == 'c' && seq!['c', 'c'].len() == 2);
        assert(seq!['c', 'p', 'p'][0] == 'c' && seq!['c', 'p', 'p'].len() == 3);
        assert(seq!['c', 'x', 'x'][0] == 'c' && seq!['c', 'x', 'x'].len() == 3);
        assert(seq!['h', 'p', 'p'][0] == 'h' && seq!['h', 'p', 'p'].len() == 3);
    }
}

/// The names of the languages differ.
proof fn lemma_languages()
    ensures
        "rust"@ == seq!['r', 'u', 's', 't'],
        "python"@ == seq!['p', 'y', 't', 'h', 'o', 'n'],
        "typescript"@.len() == 10,
        "typescript"@[0] == 't',
        "javascript"@.len() == 10,
        "javascript"@[0] == 'j',
        "go"@ == seq!['g', 'o'],
        "c"@ == seq!['c'],
        "cpp"@ == seq!['c', 'p', 'p'],
        "rust"@.len() == 4,
        "python"@.len() == 6,
        "go"@.len() == 2,
        "c"@.len() == 1,
        "cpp"@.len() == 3,
{
    reveal_strlit("rust");
    reveal_strlit("python");
    reveal_strlit("typescript");
    reveal_strlit("javascript");
    reveal_strlit("go");
    reveal_strlit("c");
    reveal_strlit("cpp");
    assert("rust"@ =~= seq!['r', 'u', 's', 't']);
    assert("python"@ =~= seq!['p', 'y', 't', 'h', 'o', 'n']);
    assert("go"@ =~= seq!['g', 'o']);
    assert("c"@ =~= seq!['c']);
    assert("cpp"@ =~= seq!['c', 'p', 'p']);
}

/// Which server each language has without an override, and with which arguments
/// it is started; no other language has one.
pub proof fn languages_have_servers(language: Seq<char>)
    ensures
        built_in("rust"@) == Some(Cmd { program: "rust-analyzer"@, args: Seq::empty() }),
        built_in("python"@) == Some(
            Cmd { program: "pyright-langserver"@, args: seq!["--stdio"@] },
        ),
        built_in("typescript"@) == Some(
            Cmd { program: "typescript-language-server"@, args: seq!["--stdio"@] },
        ),
        built_in("javascript"@) == built_in("typescript"@),
        built_in("go"@) == Some(Cmd { program: "gopls"@, args: Seq::empty() }),
        built_in("c"@) == Some(Cmd { program: "clangd"@, args: Seq::empty() }),
        built_in("cpp"@) == built_in("c"@),
        built_in(language) is Some ==> language == "rust"@ || language == "python"@ || language
            == "typescript"@ || language == "javascript"@ || language == "go"@ || language == "c"@
            || language == "cpp"@,
{
    lemma_languages();
}

/// A file name tells the language by what follows its last dot, if that is text;
/// one without an extension tells none.
pub proof fn names_tell_the_language(stem: Seq<u8>, ext: Seq<u8>)
    requires
        stem.len() > 0,
        forall|k: int| 0 <= k < ext.len() ==> #[trigger] ext[k] != '.' as u8,
    ensures
        valid_utf8(ext) ==> language_in(Some(stem.push('.' as u8) + ext)) == language_named(
            decode_utf8(ext),
        ),
        !valid_utf8(ext) ==> language_in(Some(stem.push('.' as u8) + ext)) is None,
        language_in(Some(ext)) is None,
        language_in(None) is None,
{
    crate::paths::extensions_follow_the_last_dot(stem, ext);
}

} // verus!
