# anko

Keeps GitHub issues in sync with structured `TODO` / `BUG` / `DEPR` comments
such as `// TODO(parser): rewrite error recovery`: an issue is opened for each
new tag and closed when its tag leaves the code; an issue closed by hand is
never reopened.

## Layout

- `src/` — the verified library (Verus):
  - `parse.rs`: recognising a tagged comment line (line and block comments),
    with proofs that a written tag parses back to itself;
  - `hash.rs`: the identity of a tag (SHA-256 over its fields, sorted labels),
    with proofs that label order does not matter and that field boundaries
    do not blur;
  - `scan.rs`: the tags in a file's text, line by line, each with its line
    number, with proofs that joining blocks of lines joins their tags and
    that reordering the lines of a file changes no tag's identity;
  - `diff.rs`: which issues to open and close, with proofs of exactly when
    each action is due;
  - `webhook.rs`, `github.rs`, `store.rs`, `utils.rs`, `config.rs`: signature
    checks, issue labels and bodies, record keys, languages and defaults;
  - `sync.rs`: one sync as a state machine (list records, fetch issues, open
    and record, close and drop the record), with proofs that every step keeps it well formed and
    that it opens and closes only what `diff` allows;
  - `text.rs`: character helpers and decimal numbers.
- `app/` — the webhook server and the `taro` CLI modules: HTTP, GitHub API,
  Firestore, directory walking and file I/O around the library.
- `tests/` — tests of the library, including a comparison of the line parser
  with the tag grammar written as regular expressions.
