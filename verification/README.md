# vybim

A modeless terminal code editor: split panes, a file tree, integrated terminals,
multiple carets, incremental search, completion, a git diff view, and language
servers. What a key does, what the screen shows, and what is said to a language
server is decided by the library under `src/`, which is verified with Verus. The
program under `app/` reads files, runs processes and paints.

## The library

| modules | what they decide |
| --- | --- |
| `text`, `order`, `assoc`, `style`, `theme`, `key` | strings, orders, maps, colors and keys |
| `rope`, `history`, `buffer` | the text of a file, its lines, and its undo steps |
| `caret`, `motion`, `fan_out`, `pane`, `editing`, `inside` | carets, movement, and editing at all of them at once |
| `layout`, `view`, `pane_view`, `chrome`, `app_view` | where everything is on the screen, and what it shows |
| `complete`, `file_find`, `file_tree`, `jump`, `minibuffer` | completion, the file finder, the sidebar, jumps, prompts |
| `git`, `diff_view` | changed files, and the rows of a diff |
| `syntax` | highlighted lines |
| `terminal_pane`, `terminal_area` | terminals and their tabs |
| `json`, `lsp` | language servers: framing, messages, documents, progress |
| `app` | panes, focus, and what each key does |

Each type has a view or a well-formedness predicate, each function a contract
over them. The functions that draw return a plan, a plain value that says what
is painted where; those that would read or write return what is to be done, and
are told what came of it. A terminal's grid says whether it took the shell's
output: it does not while it is too small, nor once it was narrowed over text that
may be wide, where `vt100` can panic; the program then feeds it at its own risk.

What holds of the library as a whole stands as public proof functions beside
the functions they are about: that undo takes back an edit and redo brings it
back (`buffer`), that a fanned-out edit replaces each caret's text and nothing
else (`fan_out`), that editing keeps the carets within their text (`inside`), that
a frame is read as it was written (`lsp::transport`), that a diff's hunks cover
exactly its changes (`diff_view`), and others.

## What is taken on trust

The text lives in a `ropey` rope, JSON in `serde_json` values; `similar` compares
lines, `tree-sitter` highlights them, `vt100` reads a shell's output into a grid
and `ratatui` divides areas. Each call into them stands in one small function whose
contract says what is relied on: in `rope`, `paths`, `json`, `diff_view`, `git`,
`syntax`, `terminal_pane`, `layout` and `text`.
