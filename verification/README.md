# typack

A TypeScript declaration (`.d.ts`) bundler: it follows the imports of one or
more entry files, drops the declarations the entries do not reach, renames
colliding names across modules, and writes one bundled declaration file per
entry, with an optional source map.

## Layout

- `src/` is the verified core, written in Verus. It works on a plain-data
  model of the module graph (`model`): statement summaries, root-scope
  bindings and export/import tables.
  - `parse`, `scan_info`, `resolution`, `graph`, `discover`, `paths`,
    `comments`, `tsconfig`: what the scan decides (parsing with
    `oxc_parser`, dependency specifiers, export/import tables, reference
    directives, specifier resolution outcomes, topological order, the
    renumbering and assembly of the module table, source-map URL comments).
  - `rename`, `resolved_exports`, `exports`, `needed_names`, `module_meta`,
    `namespace`: the link stage (name deconfliction, star-export conflicts,
    tree-shaking, per-statement actions, namespace wrappers); `inputs` checks
    what these functions assume of their inputs, and `chains` shows that a
    re-export chain longer than the table's export entries never ends.
  - `analysis`, `rewrite`, `import_fixup`, `emit`, `assemble`, `sourcemap`,
    `sourcemap_io`: the generate stage (collected exports and imports, what
    rewriting a module decides for namespace aliases and inline `import()`
    types, import pruning, the export and import statements, the assembled
    output and its line offsets, source maps decoded and encoded with
    `oxc_sourcemap`, traced through input maps and joined).
  - Module and symbol tables are `Vec`s indexed by position and association
    lists in `Vec`s, rather than `oxc_index::IndexVec` and
    `rustc_hash::FxHashMap`, so that the contracts state their contents
    directly; the declared forms of those outside types were not tried.
- `app/` is ordinary Rust around the core: the command line, file reading,
  semantic analysis with Oxc, resolution with `oxc_resolver`, the walks
  over Oxc's syntax tree that summarize each statement (the verifier cannot
  see into Oxc's tree), and printing the kept statements with
  `oxc_codegen`.
- `tests/` exercises the core on concrete module graphs.
