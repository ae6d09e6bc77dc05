# Code Explorer

Code Explorer indexes a local directory, or a public HTTPS Git repository
cloned into a cache, and shows where the code volume lives: a directory tree
with line and file counts, the language composition of every directory, and a
treemap of subdirectories.

The library in `src/` is written in Verus. Its functions carry
`requires`/`ensures` contracts that Verus proves, except a few small wrappers
marked `#[verifier::external_body]`: each makes one call into std, `indexmap` or
`sha2`, and their contracts state what that call's documentation or source
shows; Verus takes those contracts on trust.

## Layout

- `src/text.rs`, `src/paths.rs`: character-level models of the string and Unix
  path operations the rest relies on (trimming, splitting, `Path::components`,
  `file_name`, `extension`, `parent`, `push`).
- `src/filter.rs`: which directories, extensions and languages a scan admits;
  a file is counted only when every directory between the scan root and it
  passes the directory filters (`scan::admit_entry`).
- `src/language.rs`: the language registry, from definitions in order to the
  file-name and extension tables.
- `src/scan.rs`: line counting, and the aggregation of per-file counts into the
  directory tree (totals, languages, files and subdirectories heaviest first).
- `src/tree.rs`: metrics, counts and the tree's node types.
- `src/sort.rs`: the stable heaviest-first order used everywhere, with its laws.
- `src/treemap.rs`: which children get a box, the "Other" box, the split point
  of the balanced layout, and the per-path color hash.
- `src/display.rs`, `src/format.rs`, `src/visualization.rs`: the rows of the
  directory list, tooltips, status lines, breadcrumbs, number and color
  formatting, attention levels.
- `src/session.rs`: the explorer's session, answering each user event with the
  next state and the actions the front end performs.
- `src/git.rs`: the cache key of a repository URL.
- `app/`: a command-line front end; directory walking, file reading, cloning,
  JSON and YAML parsing, and the floating-point parts (percentages, treemap
  geometry, color shading) live there.

## Running

```bash
code-explorer --convert-linguist .   # languages.yml -> assets/languages.generated.json
code-explorer .                      # scan and print the current directory
code-explorer --clone https://github.com/owner/repo --metric 1 --enter PATH
```

Language definitions are read from `assets/languages.generated.json` in the
working directory, or from the file named by `CODE_EXPLORER_LANGUAGES`.
