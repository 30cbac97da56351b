# ambidiff-core

The core of a diff viewer and review tool, written in Verus: executable Rust
whose behaviour is stated in `requires` and `ensures` clauses and proved.

A review lives in `.ambidiff.json` at the root of a working tree. Front ends
and agents read and write it; all of them draw the same rows, place the same
comments and show the same tree, because every derivation stands here.

## Layout

- `src/` is the verified library. Nothing in it reads a file, spawns a process
  or starts a thread.
- `app/` is ordinary Rust around the library: git processes, the review root on
  disk, the lock, the file watcher, the exports for the browser.
- `tests/` runs the library on concrete values.

| Area | Modules |
| --- | --- |
| Diffs | `model`, `parser`, `rows`, `worddiff`, `highlight`, `view`, `view_state` |
| Finding one's way | `search`, `goto`, `anchor`, `tree`, `projection` |
| The review file | `review`, `review_json`, `lifecycle`, `store`, `watch` |
| Diff sources | `source`, `stack`, `git_source`, `git_output`, `rootio`, `exclude` |
| Messages | `protocol`, `wire`, `painter`, `commands`, `json` |
| Helpers | `text`, `util`, `sanitize`, `sys` |

## How contracts are written

Each data type has a model, reached by `deep_view`: a struct or an enum of
mathematical values. A public function equates the model of its result with a
spec function of the models of its arguments. What holds across functions is a
public proof function with a sentence for a name, such as
`rows_conserve_lines` or `reviews_read_back`.

## What is trusted

JSON text is read and written by `serde_json`, syntax is highlighted by
`syntect`, the clock comes from std, and a few facts on characters and UTF-8
come from std too. Each such call stands in one small function whose doc comment
says what is claimed of it. The results that take a grammar to describe have a
name instead (`json_read`, `styled_line`); the contracts above them are exact in
terms of that name.
