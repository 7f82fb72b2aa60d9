# package-checker

Finds vulnerable and malicious dependencies in a workspace's manifests and
lockfiles, and says where each can be fixed. npm, Go modules, Python
requirements and Cargo are understood; advisories come from OSV.

The library under `src/` is verified with Verus: every function states what it
returns, and the statements are proved. The crate under `app/` is the language
server around it: it walks directories, downloads archives, asks osv.dev and
talks to the editor.

## Layout

| Module | What it decides |
|---|---|
| `text`, `path`, `span`, `table`, `order` | text, paths, positions, lookups and orders that the rest is stated in |
| `model` | packages, advisories, findings, reports |
| `version` | how the versions of an ecosystem compare |
| `json`, `manifest` | what manifests and lockfiles declare, and where |
| `graph` | which dependency pulled a package in |
| `extract` | what a whole workspace depends on |
| `osv`, `archive`, `load`, `index` | advisories, the archives they come in, and finding those of a package |
| `matcher` | which advisories apply, and which version clears them all |
| `diagnostics`, `action` | what is shown, and what a quick fix writes |
| `config`, `api`, `db`, `scan`, `engine` | what is asked, fetched, kept and scanned, and when |
| `lsp`, `progress`, `read` | what an editor is told, and what of a file is read |

Properties that hold across functions are public proof functions: `manifest::spans`
shows that an edit replaces a version and nothing else, `matcher` that a fix
clears every advisory, `graph` that a chain is real and as short as any, `engine`
that what is shown is the last report that was not superseded, `load` that the
index depends on the archives alone, and `db` that a fresh archive causes no
request.

What is trusted without proof is marked `external_body` or
`assume_specification`, with a comment that says what is claimed of which outside
function: `regex` and `jsonc-parser` for matching and parsing, `cvss` for scores,
`crc32c` for checksums, `zip` for opening an archive, and a few functions of the standard library.
