# openrfd

A library and command-line tool for managing Requests for Discussion (RFDs):
markdown documents with YAML front matter, kept in a git repository, with
W3C Web Annotations stored on custom refs (`refs/rfd/NNNN`).

The library in `src/` is verified with Verus: each public function states
in its contract what it returns, and the `law_*` proof functions state
properties that span several functions.

- `state`, `config`: lifecycle states, visibilities and the configuration.
- `rfd`, `fields`: front matter, titles, reading and editing one field.
- `annotation`, `selector`, `import`: the annotation model, anchoring quotes
  in a document, and merging a pull request's review comments.
- `render`, `source_map`: HTML rendering with a map back to the source.
- `search`, `validate`, `workflow`: search, the CSV and search indexes,
  validation of one document and of a whole repository, and the decisions
  of the subcommands.
- `refs`: which files a commit on a ref holds and how they nest.
- `text`, `number`: strings, lines and decimal numbers.

`app/` is the `rfd` program around the library: argument handling, files,
git, GitHub and the serialized forms (JSON, YAML, TOML).
