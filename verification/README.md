# plugin_js

The planning logic of a build plugin for JavaScript and TypeScript workspaces, verified with
Verus: lockfiles and the packages they place, manifests, import graphs and the check for
undeclared dependencies, configuration files found by walking up, and the targets that install,
bundle, type-check, lint and test.

- `src/` is the verified library. It touches no disk, process or network: a workspace comes in
  as a `FileTree`, and what only a module resolver can tell comes in through a `ResolveCache`.
  Files named `*_laws.rs` state what holds across functions.
- `app/` is the ordinary Rust around it: reading files, fetching and unpacking packages, running
  tools.
- `tests/` runs the library against the real parsers and digests that it calls.

What the library believes without proof is marked `external_body` or `assume_specification`:
the parsers of JSON, YAML and source text, the glob matcher, the comment stripper, the list of
Node's own modules, and the digests.
